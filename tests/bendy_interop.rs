use bendy::encoding::ToBencode;
use torrent_meta::reader::{read_byte_string, read_integer};

#[test]
fn integers_written_by_bendy_are_read_back() {
    for n in [0i64, 1, -1, 16384, i64::MAX, i64::MIN] {
        let b = n.to_bencode().unwrap();
        assert_eq!(read_integer(&b, 0), Ok((n, b.len())));
    }
}

#[test]
fn byte_strings_written_by_bendy_are_read_back() {
    let s = "hello torrent".to_string();
    let b = s.to_bencode().unwrap();
    let (data, end) = read_byte_string(&b, 0).unwrap();
    assert_eq!(data, s.as_bytes().to_vec());
    assert_eq!(end, b.len());
}
