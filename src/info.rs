//! The `info` dictionary: piece layout and file identity.
use vstd::prelude::*;
use crate::error::{DecodeError, Field};
use crate::fields::{
    decimal_of, decimal_value, field_key, field_of, find_field, fits, last_value, text_of,
    text_value, copy_bytes, unknown_fields, unknown_pair,
};
use crate::value::Value;

verus! {

/// Payload description of a torrent.
#[derive(Debug)]
pub struct Info {
    /// Decimal text of the size of each piece.
    pub piece_length: String,
    /// Concatenated 20-byte SHA-1 digests, verbatim.
    pub pieces: Vec<u8>,
    /// Display name of the file or directory.
    pub name: String,
    /// Decimal text of the file size, present for single-file torrents.
    pub file_length: Option<String>,
    /// Unrecognised keys with a best-effort text of their values, in input order.
    pub other_fields: Vec<(String, String)>,
}

/// The first entry of an `info` dictionary whose recognised key holds a
/// value of the wrong kind.
pub open spec fn info_entry_error(k: Seq<u8>, v: Value) -> Option<DecodeError> {
    match field_of(k, false) {
        Some(f) => if fits(f, v) {
            None
        } else {
            Some(DecodeError::WrongFieldType { field: f })
        },
        None => None,
    }
}

pub open spec fn first_info_error(es: Seq<(Vec<u8>, Value)>) -> Option<DecodeError>
    decreases es.len(),
{
    if es.len() == 0 {
        None
    } else {
        match first_info_error(es.drop_last()) {
            Some(e) => Some(e),
            None => info_entry_error(es.last().0@, es.last().1),
        }
    }
}

/// Why the entries `es` do not make an `Info`, if they do not.
pub open spec fn info_error(es: Seq<(Vec<u8>, Value)>) -> Option<DecodeError> {
    match first_info_error(es) {
        Some(e) => Some(e),
        None => if last_value(es, field_key(Field::Name)) is None {
            Some(DecodeError::MissingField { field: Field::Name })
        } else if last_value(es, field_key(Field::PieceLength)) is None {
            Some(DecodeError::MissingField { field: Field::PieceLength })
        } else if last_value(es, field_key(Field::Pieces)) is None {
            Some(DecodeError::MissingField { field: Field::Pieces })
        } else {
            None
        },
    }
}

/// `info` is what the entries `es` describe: the last occurrence of each
/// recognised key wins, and unrecognised ones are kept in order.
pub open spec fn info_built(info: Info, es: Seq<(Vec<u8>, Value)>) -> bool {
    &&& info.name@ == text_of(last_value(es, field_key(Field::Name)).unwrap())
    &&& info.piece_length@ == decimal_of(last_value(es, field_key(Field::PieceLength)).unwrap())
    &&& info.pieces@ == last_value(es, field_key(Field::Pieces)).unwrap()->Bytes_0@
    &&& match last_value(es, field_key(Field::Length)) {
        None => info.file_length is None,
        Some(v) => info.file_length matches Some(t) && t@ == decimal_of(v),
    }
    &&& info.other_fields.deep_view() == unknown_fields(es, false)
}

pub open spec fn text_slot(slot: Option<String>, last: Option<Value>) -> bool {
    match last {
        None => slot is None,
        Some(v) => slot matches Some(t) && t@ == text_of(v),
    }
}

pub open spec fn decimal_slot(slot: Option<String>, last: Option<Value>) -> bool {
    match last {
        None => slot is None,
        Some(v) => slot matches Some(t) && t@ == decimal_of(v),
    }
}

pub open spec fn bytes_slot(slot: Option<Vec<u8>>, last: Option<Value>) -> bool {
    match last {
        None => slot is None,
        Some(v) => slot matches Some(t) && t@ == v->Bytes_0@,
    }
}

/// The text of a byte-string value of field `f`.
pub fn take_text(v: &Value, f: Field) -> (r: Result<String, DecodeError>)
    ensures
        v is Bytes ==> (r matches Ok(t) && t@ == text_of(*v)),
        !(v is Bytes) ==> r == Err::<String, DecodeError>(DecodeError::WrongFieldType { field: f }),
{
    match v {
        Value::Bytes(_) => Ok(text_value(v)),
        _ => Err(DecodeError::WrongFieldType { field: f }),
    }
}

/// The decimal text of an integer value of field `f`.
pub fn take_decimal(v: &Value, f: Field) -> (r: Result<String, DecodeError>)
    ensures
        v is Integer ==> (r matches Ok(t) && t@ == decimal_of(*v)),
        !(v is Integer) ==> r == Err::<String, DecodeError>(DecodeError::WrongFieldType { field: f }),
{
    match v {
        Value::Integer(_) => Ok(decimal_value(v)),
        _ => Err(DecodeError::WrongFieldType { field: f }),
    }
}

/// The bytes of a byte-string value of field `f`.
pub fn take_bytes(v: &Value, f: Field) -> (r: Result<Vec<u8>, DecodeError>)
    ensures
        v is Bytes ==> (r matches Ok(t) && t@ == v->Bytes_0@),
        !(v is Bytes) ==> r == Err::<Vec<u8>, DecodeError>(DecodeError::WrongFieldType { field: f }),
{
    match v {
        Value::Bytes(b) => Ok(copy_bytes(b.as_slice())),
        _ => Err(DecodeError::WrongFieldType { field: f }),
    }
}

impl Info {
    /// Builds an `Info` from the entries of a dictionary.
    pub fn from_entries(es: &Vec<(Vec<u8>, Value)>) -> (r: Result<Info, DecodeError>)
        ensures
            match info_error(es@) {
                Some(e) => r == Err::<Info, DecodeError>(e),
                None => r matches Ok(info) && info_built(info, es@),
            },
    {
        let mut name: Option<String> = None;
        let mut piece_length: Option<String> = None;
        let mut pieces: Option<Vec<u8>> = None;
        let mut file_length: Option<String> = None;
        let mut other_fields: Vec<(String, String)> = Vec::new();
        let mut i: usize = 0;
        assert(es@.take(0) =~= Seq::<(Vec<u8>, Value)>::empty());
        while i < es.len()
            invariant
                i <= es@.len(),
                first_info_error(es@.take(i as int)) is None,
                text_slot(name, last_value(es@.take(i as int), field_key(Field::Name))),
                decimal_slot(piece_length, last_value(es@.take(i as int), field_key(Field::PieceLength))),
                bytes_slot(pieces, last_value(es@.take(i as int), field_key(Field::Pieces))),
                decimal_slot(file_length, last_value(es@.take(i as int), field_key(Field::Length))),
                other_fields.deep_view() == unknown_fields(es@.take(i as int), false),
            decreases es@.len() - i,
        {
            let k = &es[i].0;
            let v = &es[i].1;
            let ghost next = es@.take(i + 1);
            assert(next.drop_last() =~= es@.take(i as int));
            assert(next.last() == es@[i as int]);
            let f = find_field(k.as_slice(), false);
            proof {
                lemma_first_error_extends(es@, i + 1);
                assert(es@.take(es@.len() as int) =~= es@);
            }
            match f {
                Some(Field::Name) => {
                    name = Some(take_text(v, Field::Name)?);
                },
                Some(Field::PieceLength) => {
                    piece_length = Some(take_decimal(v, Field::PieceLength)?);
                },
                Some(Field::Pieces) => {
                    pieces = Some(take_bytes(v, Field::Pieces)?);
                },
                Some(Field::Length) => {
                    file_length = Some(take_decimal(v, Field::Length)?);
                },
                _ => {
                    let ghost prev = other_fields.deep_view();
                    let pair = unknown_pair(k, v);
                    other_fields.push(pair);
                    assert(other_fields.deep_view() =~= prev.push((pair.0@, pair.1@)));
                },
            }
            i = i + 1;
        }
        assert(es@.take(es@.len() as int) =~= es@);
        let name = match name {
            Some(t) => t,
            None => {
                return Err(DecodeError::MissingField { field: Field::Name });
            },
        };
        let piece_length = match piece_length {
            Some(t) => t,
            None => {
                return Err(DecodeError::MissingField { field: Field::PieceLength });
            },
        };
        let pieces = match pieces {
            Some(t) => t,
            None => {
                return Err(DecodeError::MissingField { field: Field::Pieces });
            },
        };
        Ok(Info { piece_length, pieces, name, file_length, other_fields })
    }
}

proof fn lemma_first_error_extends(es: Seq<(Vec<u8>, Value)>, j: int)
    requires
        0 <= j <= es.len(),
    ensures
        first_info_error(es.take(j)) is Some ==> first_info_error(es) == first_info_error(es.take(j)),
    decreases es.len() - j,
{
    if j < es.len() {
        lemma_first_error_extends(es, j + 1);
        assert(es.take(j + 1).drop_last() =~= es.take(j));
    } else {
        assert(es.take(j) =~= es);
    }
}

} // verus!
