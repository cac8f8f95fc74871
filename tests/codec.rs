use torrent_meta::encode::encode_info;
use torrent_meta::reader::{read_byte_string, read_integer};
use torrent_meta::{
    decode_value, encode, encode_value, open_torrent, DecodeError, EncodeError, Field, FileType,
    Info, MetaInfo, Value, MAX_DEPTH,
};

const SAMPLE: &[u8] = b"d8:announce4:http4:infod4:name4:test12:piece lengthi16384e6:pieces0:ee";

fn sample_meta() -> MetaInfo {
    MetaInfo {
        announce: "http://tracker.example/announce".to_string(),
        info: Info {
            piece_length: "262144".to_string(),
            pieces: (0u8..40).collect(),
            name: "ubuntu.iso".to_string(),
            file_length: Some("1048576".to_string()),
            other_fields: Vec::new(),
        },
        announce_list: Some(vec!["http://a".to_string(), "udp://b".to_string()]),
        comment: Some("a comment".to_string()),
        created_by: Some("mktorrent 1.1".to_string()),
        creation_date: Some(1_700_000_000),
        encoding: Some("UTF-8".to_string()),
        http_seeds: Some(vec!["http://seed".to_string()]),
        other_fields: Vec::new(),
    }
}

fn assert_same_info(a: &Info, b: &Info) {
    assert_eq!(a.piece_length, b.piece_length);
    assert_eq!(a.pieces, b.pieces);
    assert_eq!(a.name, b.name);
    assert_eq!(a.file_length, b.file_length);
    assert_eq!(a.other_fields, b.other_fields);
}

fn assert_same_meta(a: &MetaInfo, b: &MetaInfo) {
    assert_eq!(a.announce, b.announce);
    assert_same_info(&a.info, &b.info);
    assert_eq!(a.announce_list, b.announce_list);
    assert_eq!(a.comment, b.comment);
    assert_eq!(a.created_by, b.created_by);
    assert_eq!(a.creation_date, b.creation_date);
    assert_eq!(a.encoding, b.encoding);
    assert_eq!(a.http_seeds, b.http_seeds);
    assert_eq!(a.other_fields, b.other_fields);
}

#[test]
fn end_to_end_sample() {
    let m = open_torrent(SAMPLE).unwrap();
    assert_eq!(m.announce, "http");
    assert_eq!(m.info.name, "test");
    assert_eq!(m.info.piece_length, "16384");
    assert!(m.info.pieces.is_empty());
    assert_eq!(m.info.file_length, None);
    assert!(m.other_fields.is_empty());
    assert_eq!(m.announce_list, None);
    assert_eq!(m.creation_date, None);
}

#[test]
fn round_trip_named_fields() {
    let m = sample_meta();
    let bytes = encode(&m).unwrap();
    let back = open_torrent(&bytes).unwrap();
    assert_same_meta(&m, &back);
}

#[test]
fn round_trip_without_optional_fields() {
    let m = MetaInfo {
        announce: "udp://x".to_string(),
        info: Info {
            piece_length: "-3".to_string(),
            pieces: vec![0xff, 0x00, 0x3a, 0x65],
            name: "näme".to_string(),
            file_length: None,
            other_fields: Vec::new(),
        },
        announce_list: None,
        comment: None,
        created_by: None,
        creation_date: None,
        encoding: None,
        http_seeds: None,
        other_fields: Vec::new(),
    };
    let back = open_torrent(&encode(&m).unwrap()).unwrap();
    assert_same_meta(&m, &back);
}

#[test]
fn reencoding_is_idempotent() {
    let input = b"d7:comment2:hi8:announce4:http10:created by3:me!13:creation datei5e4:infod6:pieces20:aaaaaaaaaaaaaaaaaaaa4:name1:n12:piece lengthi1e6:lengthi77eee";
    let first = open_torrent(input).unwrap();
    let second = open_torrent(&encode(&first).unwrap()).unwrap();
    assert_same_meta(&first, &second);
    assert_eq!(encode(&first).unwrap(), encode(&second).unwrap());
}

#[test]
fn encoder_sorts_keys() {
    let input = b"d4:infod6:pieces0:4:name1:x12:piece lengthi2ee8:announce1:ae";
    let m = open_torrent(input).unwrap();
    assert_eq!(
        encode(&m).unwrap(),
        b"d8:announce1:a4:infod4:name1:x12:piece lengthi2e6:pieces0:ee".to_vec()
    );
}

#[test]
fn encoder_rejects_non_decimal_piece_length() {
    let mut m = sample_meta();
    m.info.piece_length = "12x".to_string();
    assert_eq!(
        encode(&m).unwrap_err(),
        EncodeError::SerializationFailure { field: Field::PieceLength }
    );
    let mut m = sample_meta();
    m.info.file_length = Some("007".to_string());
    assert_eq!(
        encode(&m).unwrap_err(),
        EncodeError::SerializationFailure { field: Field::Length }
    );
    let mut m = sample_meta();
    m.creation_date = Some(u64::MAX);
    assert_eq!(
        encode(&m).unwrap_err(),
        EncodeError::SerializationFailure { field: Field::CreationDate }
    );
}

#[test]
fn encode_info_writes_sorted_dictionary() {
    let info = Info {
        piece_length: "16".to_string(),
        pieces: b"ab".to_vec(),
        name: "f".to_string(),
        file_length: Some("3".to_string()),
        other_fields: vec![("x".to_string(), "y".to_string())],
    };
    let mut out = Vec::new();
    encode_info(&info, &mut out).unwrap();
    assert_eq!(out, b"d6:lengthi3e4:name1:f12:piece lengthi16e6:pieces2:abe".to_vec());
}

#[test]
fn integers_are_recovered_exactly() {
    for (text, n) in [
        ("i0e", 0i64),
        ("i42e", 42),
        ("i-7e", -7),
        ("i9223372036854775807e", i64::MAX),
        ("i-9223372036854775808e", i64::MIN),
    ] {
        let b = text.as_bytes();
        assert_eq!(read_integer(b, 0), Ok((n, b.len())));
    }
    assert_eq!(read_integer(b"i12exyz", 0), Ok((12, 4)));
}

#[test]
fn malformed_integers_are_rejected() {
    for text in ["i00e", "i-0e", "ie", "i-e", "i01e", "i-01e", "i1-2e", "i9223372036854775808e"] {
        assert_eq!(
            read_integer(text.as_bytes(), 0),
            Err(DecodeError::MalformedInteger { offset: 0 }),
            "{}",
            text
        );
    }
    assert_eq!(read_integer(b"i12x", 0), Err(DecodeError::MalformedInteger { offset: 0 }));
    assert_eq!(read_integer(b"i12", 0), Err(DecodeError::UnexpectedEndOfInput { offset: 3 }));
}

#[test]
fn byte_strings_consume_exactly_their_length() {
    let input = b"4:\xff\x00e:rest";
    let (data, end) = read_byte_string(input, 0).unwrap();
    assert_eq!(data, vec![0xff, 0x00, b'e', b':']);
    assert_eq!(end, 6);
    assert_eq!(read_byte_string(b"0:", 0), Ok((Vec::new(), 2)));
    assert_eq!(
        read_byte_string(b"5:abc", 0),
        Err(DecodeError::UnexpectedEndOfInput { offset: 5 })
    );
    assert_eq!(
        read_byte_string(b"99999999999999999999999:a", 0),
        Err(DecodeError::UnexpectedEndOfInput { offset: 25 })
    );
    assert_eq!(read_byte_string(b"03:abc", 0), Err(DecodeError::MalformedLength { offset: 0 }));
    assert_eq!(read_byte_string(b"3abc", 0), Err(DecodeError::MalformedLength { offset: 0 }));
    assert_eq!(read_byte_string(b"12", 0), Err(DecodeError::UnexpectedEndOfInput { offset: 2 }));
}

fn nested_lists(depth: usize) -> Vec<u8> {
    let mut v = vec![b'l'; depth];
    v.extend(std::iter::repeat(b'e').take(depth));
    v
}

#[test]
fn nesting_beyond_limit_is_rejected() {
    let ok = nested_lists(MAX_DEPTH);
    let (_, end) = decode_value(&ok, 0, 0).unwrap();
    assert_eq!(end, ok.len());
    let deep = nested_lists(MAX_DEPTH + 1);
    assert_eq!(
        decode_value(&deep, 0, 0).unwrap_err(),
        DecodeError::RecursionLimitExceeded { offset: MAX_DEPTH }
    );
    let very_deep = nested_lists(100_000);
    assert_eq!(
        decode_value(&very_deep, 0, 0).unwrap_err(),
        DecodeError::RecursionLimitExceeded { offset: MAX_DEPTH }
    );
    let mut torrent = b"d8:announce1:a4:infod4:name1:n12:piece lengthi1e6:pieces0:e1:x".to_vec();
    torrent.extend(nested_lists(MAX_DEPTH));
    torrent.push(b'e');
    assert_eq!(
        open_torrent(&torrent).unwrap_err(),
        DecodeError::RecursionLimitExceeded { offset: 62 + MAX_DEPTH - 1 }
    );
}

#[test]
fn missing_top_level_fields() {
    assert_eq!(
        open_torrent(b"d4:infod4:name1:n12:piece lengthi1e6:pieces0:ee").unwrap_err(),
        DecodeError::MissingField { field: Field::Announce }
    );
    assert_eq!(
        open_torrent(b"d8:announce1:ae").unwrap_err(),
        DecodeError::MissingField { field: Field::Info }
    );
}

#[test]
fn missing_info_fields() {
    assert_eq!(
        open_torrent(b"d8:announce1:a4:infod12:piece lengthi1e6:pieces0:ee").unwrap_err(),
        DecodeError::MissingField { field: Field::Name }
    );
    assert_eq!(
        open_torrent(b"d8:announce1:a4:infod4:name1:n6:pieces0:ee").unwrap_err(),
        DecodeError::MissingField { field: Field::PieceLength }
    );
    assert_eq!(
        open_torrent(b"d8:announce1:a4:infod4:name1:n12:piece lengthi1eee").unwrap_err(),
        DecodeError::MissingField { field: Field::Pieces }
    );
}

#[test]
fn unknown_top_level_key_is_kept() {
    let input = b"d8:announce4:http11:custom-flag3:yes4:infod4:name4:test12:piece lengthi16384e6:pieces0:ee";
    let m = open_torrent(input).unwrap();
    assert_eq!(m.other_fields, vec![("custom-flag".to_string(), "yes".to_string())]);
}

#[test]
fn unknown_values_are_stringified() {
    let input = b"d8:announce1:a1:ai-5e1:bl1:x1:yi3ee1:cd1:k1:ve4:infod4:name1:n12:piece lengthi1e6:pieces0:5:extrali1eld1:ai1eeeee1:zl1:qee";
    let m = open_torrent(input).unwrap();
    assert_eq!(
        m.other_fields,
        vec![
            ("a".to_string(), "-5".to_string()),
            ("b".to_string(), "x, y, 3".to_string()),
            ("c".to_string(), "Dictionary".to_string()),
            ("z".to_string(), "q".to_string()),
        ]
    );
    assert_eq!(
        m.info.other_fields,
        vec![("extra".to_string(), "1, List".to_string())]
    );
}

#[test]
fn single_and_multi_file_layouts() {
    let single = open_torrent(b"d8:announce1:a4:infod6:lengthi10e4:name1:n12:piece lengthi1e6:pieces0:ee").unwrap();
    assert_eq!(single.info.file_length, Some("10".to_string()));
    let multi = open_torrent(b"d8:announce1:a4:infod5:filesle4:name1:n12:piece lengthi1e6:pieces0:ee").unwrap();
    assert_eq!(multi.info.file_length, None);
    assert_eq!(multi.info.other_fields, vec![("files".to_string(), "".to_string())]);
}

#[test]
fn last_occurrence_of_a_key_wins() {
    let m = open_torrent(b"d8:announce1:a8:announce1:b4:infod4:name1:n12:piece lengthi1e6:pieces0:ee").unwrap();
    assert_eq!(m.announce, "b");
}

#[test]
fn optional_fields_are_decoded() {
    let input = b"d8:announce1:a13:announce-listl2:u12:u2e7:comment1:c10:created by2:cb13:creation datei99e8:encoding5:UTF-810:http seedsl1:he4:infod4:name1:n12:piece lengthi1e6:pieces0:ee";
    let m = open_torrent(input).unwrap();
    assert_eq!(m.announce_list, Some(vec!["u1".to_string(), "u2".to_string()]));
    assert_eq!(m.comment, Some("c".to_string()));
    assert_eq!(m.created_by, Some("cb".to_string()));
    assert_eq!(m.creation_date, Some(99));
    assert_eq!(m.encoding, Some("UTF-8".to_string()));
    assert_eq!(m.http_seeds, Some(vec!["h".to_string()]));
}

#[test]
fn wrong_field_kinds_are_rejected() {
    assert_eq!(
        open_torrent(b"d8:announcei1e4:infod4:name1:n12:piece lengthi1e6:pieces0:ee").unwrap_err(),
        DecodeError::WrongFieldType { field: Field::Announce }
    );
    assert_eq!(
        open_torrent(b"d8:announce1:a4:infoi1ee").unwrap_err(),
        DecodeError::WrongFieldType { field: Field::Info }
    );
    assert_eq!(
        open_torrent(b"d8:announce1:a13:creation datei-1e4:infod4:name1:n12:piece lengthi1e6:pieces0:ee").unwrap_err(),
        DecodeError::WrongFieldType { field: Field::CreationDate }
    );
    assert_eq!(
        open_torrent(b"d8:announce1:a4:infod4:name1:n12:piece length1:16:pieces0:ee").unwrap_err(),
        DecodeError::WrongFieldType { field: Field::PieceLength }
    );
    assert_eq!(
        open_torrent(b"d8:announce1:a13:announce-listli1ee4:infod4:name1:n12:piece lengthi1e6:pieces0:ee").unwrap_err(),
        DecodeError::WrongFieldType { field: Field::AnnounceList }
    );
}

#[test]
fn structural_errors() {
    assert_eq!(open_torrent(b"").unwrap_err(), DecodeError::UnexpectedEndOfInput { offset: 0 });
    assert_eq!(open_torrent(b"d8:announce").unwrap_err(), DecodeError::UnexpectedEndOfInput { offset: 11 });
    assert_eq!(open_torrent(b"di1ei2ee").unwrap_err(), DecodeError::InvalidDictionaryKey { offset: 1 });
    assert_eq!(open_torrent(b"li1ee").unwrap_err(), DecodeError::NotADictionary { offset: 0 });
    assert_eq!(open_torrent(b"x").unwrap_err(), DecodeError::MalformedLength { offset: 0 });
}

#[test]
fn invalid_utf8_text_is_decoded_lossily() {
    let m = open_torrent(b"d8:announce2:\xffa4:infod4:name1:n12:piece lengthi1e6:pieces0:ee").unwrap();
    assert_eq!(m.announce, "\u{fffd}a");
}

#[test]
fn values_round_trip_through_the_encoder() {
    let input = b"d1:ai-12e1:bl0:d1:xleeee".to_vec();
    let (v, end) = decode_value(&input, 0, 0).unwrap();
    assert_eq!(end, input.len());
    let mut out = Vec::new();
    encode_value(&v, &mut out);
    assert_eq!(out, input);
    match v {
        Value::Dict(es) => assert_eq!(es.len(), 2),
        _ => panic!("expected a dictionary"),
    }
}

#[test]
fn file_types_by_name() {
    assert_eq!(FileType::from_str("JSON"), Some(FileType::Json));
    assert_eq!(FileType::from_str("xml"), Some(FileType::Xml));
    assert_eq!(FileType::from_str("Yml"), Some(FileType::Yaml));
    assert_eq!(FileType::from_str("yaml"), Some(FileType::Yaml));
    assert_eq!(FileType::from_str("TORRENT"), Some(FileType::Torrent));
    assert_eq!(FileType::from_str("txt"), None);
    assert_eq!(FileType::from_lowercase("JSON"), None);
}
