//! The top-level torrent entity and the decoder entry point.
use vstd::prelude::*;
use crate::error::{DecodeError, Field};
use crate::fields::{
    all_bytes, field_key, field_of, find_field, fits, last_value, text_list, texts_of,
    unknown_fields, unknown_pair,
};
use crate::info::{info_built, info_error, take_text, text_slot, Info};
use crate::value::{decode_value, enc, value_span, Value};

verus! {

/// A decoded torrent metadata file.
#[derive(Debug)]
pub struct MetaInfo {
    /// Primary tracker URL.
    pub announce: String,
    pub info: Info,
    pub announce_list: Option<Vec<String>>,
    pub comment: Option<String>,
    pub created_by: Option<String>,
    /// Seconds since the Unix epoch.
    pub creation_date: Option<u64>,
    pub encoding: Option<String>,
    pub http_seeds: Option<Vec<String>>,
    /// Unrecognised top-level keys with a best-effort text of their values,
    /// in input order.
    pub other_fields: Vec<(String, String)>,
}

/// Why a top-level entry stops the decode, if it does: a recognised key with
/// a value of the wrong kind, or an `info` dictionary that is not an `Info`.
pub open spec fn meta_entry_error(k: Seq<u8>, v: Value) -> Option<DecodeError> {
    match field_of(k, true) {
        Some(f) => if !fits(f, v) {
            Some(DecodeError::WrongFieldType { field: f })
        } else if f == Field::Info {
            info_error(v->Dict_0@)
        } else {
            None
        },
        None => None,
    }
}

pub open spec fn first_meta_error(es: Seq<(Vec<u8>, Value)>) -> Option<DecodeError>
    decreases es.len(),
{
    if es.len() == 0 {
        None
    } else {
        match first_meta_error(es.drop_last()) {
            Some(e) => Some(e),
            None => meta_entry_error(es.last().0@, es.last().1),
        }
    }
}

/// Why the top-level entries `es` do not make a `MetaInfo`, if they do not.
pub open spec fn meta_error(es: Seq<(Vec<u8>, Value)>) -> Option<DecodeError> {
    match first_meta_error(es) {
        Some(e) => Some(e),
        None => if last_value(es, field_key(Field::Announce)) is None {
            Some(DecodeError::MissingField { field: Field::Announce })
        } else if last_value(es, field_key(Field::Info)) is None {
            Some(DecodeError::MissingField { field: Field::Info })
        } else {
            None
        },
    }
}

pub open spec fn list_slot(slot: Option<Vec<String>>, last: Option<Value>) -> bool {
    match last {
        None => slot is None,
        Some(v) => slot matches Some(l) && l.deep_view() == texts_of(v->List_0@),
    }
}

pub open spec fn date_slot(slot: Option<u64>, last: Option<Value>) -> bool {
    match last {
        None => slot is None,
        Some(v) => slot == Some(v->Integer_0 as u64),
    }
}

pub open spec fn info_slot(slot: Option<Info>, last: Option<Value>) -> bool {
    match last {
        None => slot is None,
        Some(v) => slot matches Some(i) && info_built(i, v->Dict_0@),
    }
}

/// `m` is what the top-level entries `es` describe: the last occurrence of
/// each recognised key wins, and unrecognised ones are kept in order.
pub open spec fn meta_built(m: MetaInfo, es: Seq<(Vec<u8>, Value)>) -> bool {
    &&& text_slot(Some(m.announce), last_value(es, field_key(Field::Announce)))
    &&& info_slot(Some(m.info), last_value(es, field_key(Field::Info)))
    &&& list_slot(m.announce_list, last_value(es, field_key(Field::AnnounceList)))
    &&& text_slot(m.comment, last_value(es, field_key(Field::Comment)))
    &&& text_slot(m.created_by, last_value(es, field_key(Field::CreatedBy)))
    &&& date_slot(m.creation_date, last_value(es, field_key(Field::CreationDate)))
    &&& text_slot(m.encoding, last_value(es, field_key(Field::Encoding)))
    &&& list_slot(m.http_seeds, last_value(es, field_key(Field::HttpSeeds)))
    &&& m.other_fields.deep_view() == unknown_fields(es, true)
}

/// The texts of a list of byte-strings held by field `f`.
pub fn take_text_list(v: &Value, f: Field) -> (r: Result<Vec<String>, DecodeError>)
    ensures
        (v matches Value::List(items) && all_bytes(items@)) ==> (r matches Ok(l) && l.deep_view()
            == texts_of(v->List_0@)),
        !(v matches Value::List(items) && all_bytes(items@)) ==> r == Err::<Vec<String>, DecodeError>(
            DecodeError::WrongFieldType { field: f },
        ),
{
    match v {
        Value::List(items) => {
            let mut i: usize = 0;
            while i < items.len()
                invariant
                    i <= items@.len(),
                    *v == Value::List(*items),
                    forall|j: int| 0 <= j < i ==> #[trigger] items@[j] is Bytes,
                decreases items@.len() - i,
            {
                match &items[i] {
                    Value::Bytes(_) => {},
                    _ => {
                        assert(!(items@[i as int] is Bytes));
                        assert(!all_bytes(items@));
                        return Err(DecodeError::WrongFieldType { field: f });
                    },
                }
                i = i + 1;
            }
            Ok(text_list(items))
        },
        _ => Err(DecodeError::WrongFieldType { field: f }),
    }
}

/// A non-negative integer value of field `f`.
pub fn take_date(v: &Value, f: Field) -> (r: Result<u64, DecodeError>)
    ensures
        (v matches Value::Integer(n) && n >= 0) ==> r == Ok::<u64, DecodeError>(v->Integer_0 as u64),
        !(v matches Value::Integer(n) && n >= 0) ==> r == Err::<u64, DecodeError>(
            DecodeError::WrongFieldType { field: f },
        ),
{
    match v {
        Value::Integer(n) => if *n >= 0 {
            Ok(*n as u64)
        } else {
            Err(DecodeError::WrongFieldType { field: f })
        },
        _ => Err(DecodeError::WrongFieldType { field: f }),
    }
}

/// The `Info` that a dictionary value describes.
pub fn take_info(v: &Value) -> (r: Result<Info, DecodeError>)
    ensures
        !(v is Dict) ==> r == Err::<Info, DecodeError>(DecodeError::WrongFieldType { field: Field::Info }),
        v is Dict ==> match info_error(v->Dict_0@) {
            Some(e) => r == Err::<Info, DecodeError>(e),
            None => r matches Ok(i) && info_built(i, v->Dict_0@),
        },
{
    match v {
        Value::Dict(es) => Info::from_entries(es),
        _ => Err(DecodeError::WrongFieldType { field: Field::Info }),
    }
}

proof fn lemma_first_meta_error_extends(es: Seq<(Vec<u8>, Value)>, j: int)
    requires
        0 <= j <= es.len(),
    ensures
        first_meta_error(es.take(j)) is Some ==> first_meta_error(es) == first_meta_error(es.take(j)),
    decreases es.len() - j,
{
    if j < es.len() {
        lemma_first_meta_error_extends(es, j + 1);
        assert(es.take(j + 1).drop_last() =~= es.take(j));
    } else {
        assert(es.take(j) =~= es);
    }
}

impl MetaInfo {
    /// Builds a `MetaInfo` from the entries of the top-level dictionary.
    #[verifier::rlimit(40)]
    pub fn from_entries(es: &Vec<(Vec<u8>, Value)>) -> (r: Result<MetaInfo, DecodeError>)
        ensures
            match meta_error(es@) {
                Some(e) => r == Err::<MetaInfo, DecodeError>(e),
                None => r matches Ok(m) && meta_built(m, es@),
            },
    {
        let mut announce: Option<String> = None;
        let mut info: Option<Info> = None;
        let mut announce_list: Option<Vec<String>> = None;
        let mut comment: Option<String> = None;
        let mut created_by: Option<String> = None;
        let mut creation_date: Option<u64> = None;
        let mut encoding: Option<String> = None;
        let mut http_seeds: Option<Vec<String>> = None;
        let mut other_fields: Vec<(String, String)> = Vec::new();
        let mut i: usize = 0;
        assert(es@.take(0) =~= Seq::<(Vec<u8>, Value)>::empty());
        while i < es.len()
            invariant
                i <= es@.len(),
                first_meta_error(es@.take(i as int)) is None,
                text_slot(announce, last_value(es@.take(i as int), field_key(Field::Announce))),
                info_slot(info, last_value(es@.take(i as int), field_key(Field::Info))),
                list_slot(announce_list, last_value(es@.take(i as int), field_key(Field::AnnounceList))),
                text_slot(comment, last_value(es@.take(i as int), field_key(Field::Comment))),
                text_slot(created_by, last_value(es@.take(i as int), field_key(Field::CreatedBy))),
                date_slot(creation_date, last_value(es@.take(i as int), field_key(Field::CreationDate))),
                text_slot(encoding, last_value(es@.take(i as int), field_key(Field::Encoding))),
                list_slot(http_seeds, last_value(es@.take(i as int), field_key(Field::HttpSeeds))),
                other_fields.deep_view() == unknown_fields(es@.take(i as int), true),
            decreases es@.len() - i,
        {
            let k = &es[i].0;
            let v = &es[i].1;
            let ghost next = es@.take(i + 1);
            assert(next.drop_last() =~= es@.take(i as int));
            assert(next.last() == es@[i as int]);
            let f = find_field(k.as_slice(), true);
            proof {
                lemma_first_meta_error_extends(es@, i + 1);
                assert(es@.take(es@.len() as int) =~= es@);
                assert(field_key(Field::Announce).len() == 8);
                assert(field_key(Field::AnnounceList).len() == 13);
            }
            match f {
                Some(Field::Announce) => {
                    announce = Some(take_text(v, Field::Announce)?);
                },
                Some(Field::Info) => {
                    info = Some(take_info(v)?);
                },
                Some(Field::AnnounceList) => {
                    announce_list = Some(take_text_list(v, Field::AnnounceList)?);
                },
                Some(Field::Comment) => {
                    comment = Some(take_text(v, Field::Comment)?);
                },
                Some(Field::CreatedBy) => {
                    created_by = Some(take_text(v, Field::CreatedBy)?);
                },
                Some(Field::CreationDate) => {
                    creation_date = Some(take_date(v, Field::CreationDate)?);
                },
                Some(Field::Encoding) => {
                    encoding = Some(take_text(v, Field::Encoding)?);
                },
                Some(Field::HttpSeeds) => {
                    http_seeds = Some(take_text_list(v, Field::HttpSeeds)?);
                },
                _ => {
                    let ghost prev = other_fields.deep_view();
                    let pair = unknown_pair(k, v);
                    other_fields.push(pair);
                    assert(other_fields.deep_view() =~= prev.push((pair.0@, pair.1@)));
                },
            }
            i = i + 1;
        }
        assert(es@.take(es@.len() as int) =~= es@);
        let announce = match announce {
            Some(t) => t,
            None => {
                return Err(DecodeError::MissingField { field: Field::Announce });
            },
        };
        let info = match info {
            Some(t) => t,
            None => {
                return Err(DecodeError::MissingField { field: Field::Info });
            },
        };
        Ok(
            MetaInfo {
                announce,
                info,
                announce_list,
                comment,
                created_by,
                creation_date,
                encoding,
                http_seeds,
                other_fields,
            },
        )
    }
}

/// `v` is the value that the bytes `s` start with.
pub open spec fn leading_value(s: Seq<u8>, v: Value) -> bool {
    value_span(s, 0, 0) matches Ok(e) && e <= s.len() && s.subrange(0, e as int) == enc(v)
}

/// Decodes a torrent metadata file from its bencode bytes. Bytes after the
/// top-level value are ignored.
pub fn open_torrent(input: &[u8]) -> (r: Result<MetaInfo, DecodeError>)
    ensures
        value_span(input@, 0, 0) matches Err(x) ==> r == Err::<MetaInfo, DecodeError>(x),
        value_span(input@, 0, 0) is Ok ==> exists|v: Value|
            #![trigger leading_value(input@, v)]
            leading_value(input@, v) && match v {
                Value::Dict(es) => match meta_error(es@) {
                    Some(e) => r == Err::<MetaInfo, DecodeError>(e),
                    None => r matches Ok(m) && meta_built(m, es@),
                },
                _ => r == Err::<MetaInfo, DecodeError>(DecodeError::NotADictionary { offset: 0 }),
            },
{
    let (v, _end) = decode_value(input, 0, 0)?;
    let ghost gv = v;
    let r = match v {
        Value::Dict(es) => MetaInfo::from_entries(&es),
        _ => Err(DecodeError::NotADictionary { offset: 0 }),
    };
    assert(leading_value(input@, gv));
    r
}

} // verus!
