//! Dictionary keys, value kinds and the text forms of decoded values.
use vstd::prelude::*;
use vstd::utf8::{decode_utf8, valid_utf8};
use crate::error::Field;
use crate::value::{int_text, write_digits, Value};

verus! {

/// The dictionary key of a field, as bytes.
pub open spec fn field_key(f: Field) -> Seq<u8> {
    match f {
        Field::Announce => seq![97u8, 110, 110, 111, 117, 110, 99, 101],
        Field::Info => seq![105u8, 110, 102, 111],
        Field::AnnounceList => seq![97u8, 110, 110, 111, 117, 110, 99, 101, 45, 108, 105, 115, 116],
        Field::Comment => seq![99u8, 111, 109, 109, 101, 110, 116],
        Field::CreatedBy => seq![99u8, 114, 101, 97, 116, 101, 100, 32, 98, 121],
        Field::CreationDate => seq![99u8, 114, 101, 97, 116, 105, 111, 110, 32, 100, 97, 116, 101],
        Field::Encoding => seq![101u8, 110, 99, 111, 100, 105, 110, 103],
        Field::HttpSeeds => seq![104u8, 116, 116, 112, 32, 115, 101, 101, 100, 115],
        Field::Length => seq![108u8, 101, 110, 103, 116, 104],
        Field::Name => seq![110u8, 97, 109, 101],
        Field::PieceLength => seq![112u8, 105, 101, 99, 101, 32, 108, 101, 110, 103, 116, 104],
        Field::Pieces => seq![112u8, 105, 101, 99, 101, 115],
    }
}

/// The key bytes of a field.
pub fn key_bytes(f: Field) -> (r: Vec<u8>)
    ensures
        r@ == field_key(f),
{
    let r = match f {
        Field::Announce => vec![97u8, 110, 110, 111, 117, 110, 99, 101],
        Field::Info => vec![105u8, 110, 102, 111],
        Field::AnnounceList => vec![97u8, 110, 110, 111, 117, 110, 99, 101, 45, 108, 105, 115, 116],
        Field::Comment => vec![99u8, 111, 109, 109, 101, 110, 116],
        Field::CreatedBy => vec![99u8, 114, 101, 97, 116, 101, 100, 32, 98, 121],
        Field::CreationDate => vec![99u8, 114, 101, 97, 116, 105, 111, 110, 32, 100, 97, 116, 101],
        Field::Encoding => vec![101u8, 110, 99, 111, 100, 105, 110, 103],
        Field::HttpSeeds => vec![104u8, 116, 116, 112, 32, 115, 101, 101, 100, 115],
        Field::Length => vec![108u8, 101, 110, 103, 116, 104],
        Field::Name => vec![110u8, 97, 109, 101],
        Field::PieceLength => vec![112u8, 105, 101, 99, 101, 32, 108, 101, 110, 103, 116, 104],
        Field::Pieces => vec![112u8, 105, 101, 99, 101, 115],
    };
    proof {
        assert(r@ =~= field_key(f));
    }
    r
}

/// The field that key `k` names at the top level (`top`) or inside `info`.
pub open spec fn field_of(k: Seq<u8>, top: bool) -> Option<Field> {
    if top {
        if k == field_key(Field::Announce) {
            Some(Field::Announce)
        } else if k == field_key(Field::Info) {
            Some(Field::Info)
        } else if k == field_key(Field::AnnounceList) {
            Some(Field::AnnounceList)
        } else if k == field_key(Field::Comment) {
            Some(Field::Comment)
        } else if k == field_key(Field::CreatedBy) {
            Some(Field::CreatedBy)
        } else if k == field_key(Field::CreationDate) {
            Some(Field::CreationDate)
        } else if k == field_key(Field::Encoding) {
            Some(Field::Encoding)
        } else if k == field_key(Field::HttpSeeds) {
            Some(Field::HttpSeeds)
        } else {
            None
        }
    } else {
        if k == field_key(Field::Length) {
            Some(Field::Length)
        } else if k == field_key(Field::Name) {
            Some(Field::Name)
        } else if k == field_key(Field::PieceLength) {
            Some(Field::PieceLength)
        } else if k == field_key(Field::Pieces) {
            Some(Field::Pieces)
        } else {
            None
        }
    }
}

/// Looks up the field that key `k` names.
pub fn find_field(k: &[u8], top: bool) -> (r: Option<Field>)
    ensures
        r == field_of(k@, top),
{
    let fields = if top {
        vec![Field::Announce, Field::Info, Field::AnnounceList, Field::Comment, Field::CreatedBy, Field::CreationDate, Field::Encoding, Field::HttpSeeds]
    } else {
        vec![Field::Length, Field::Name, Field::PieceLength, Field::Pieces]
    };
    assert(top ==> fields@ =~= seq![Field::Announce, Field::Info, Field::AnnounceList, Field::Comment, Field::CreatedBy, Field::CreationDate, Field::Encoding, Field::HttpSeeds]);
    assert(!top ==> fields@ =~= seq![Field::Length, Field::Name, Field::PieceLength, Field::Pieces]);
    let mut i: usize = 0;
    while i < fields.len()
        invariant
            i <= fields@.len(),
            top ==> fields@ == seq![Field::Announce, Field::Info, Field::AnnounceList, Field::Comment, Field::CreatedBy, Field::CreationDate, Field::Encoding, Field::HttpSeeds],
            !top ==> fields@ == seq![Field::Length, Field::Name, Field::PieceLength, Field::Pieces],
            forall|j: int| 0 <= j < i ==> k@ != field_key(#[trigger] fields@[j]),
        decreases fields@.len() - i,
    {
        let kb = key_bytes(fields[i]);
        if bytes_eq(k, kb.as_slice()) {
            return Some(fields[i]);
        }
        i = i + 1;
    }
    None
}

/// Whether `v` is of the kind that field `f` holds.
pub open spec fn fits(f: Field, v: Value) -> bool {
    match f {
        Field::Info => v is Dict,
        Field::Length | Field::PieceLength => v is Integer,
        Field::CreationDate => v matches Value::Integer(n) && n >= 0,
        Field::AnnounceList | Field::HttpSeeds => v matches Value::List(items) && all_bytes(items@),
        _ => v is Bytes,
    }
}

pub open spec fn all_bytes(items: Seq<Value>) -> bool {
    forall|i: int| 0 <= i < items.len() ==> #[trigger] items[i] is Bytes
}

/// What `String::from_utf8_lossy` makes of a byte sequence.
pub uninterp spec fn lossy_utf8(b: Seq<u8>) -> Seq<char>;

/// Text of a byte sequence: valid UTF-8 decoded as it stands, anything else
/// as `String::from_utf8_lossy` replaces it.
pub open spec fn text_of_bytes(b: Seq<u8>) -> Seq<char> {
    if valid_utf8(b) {
        decode_utf8(b)
    } else {
        lossy_utf8(b)
    }
}

/// Relies on `String::from_utf8_lossy`: valid UTF-8 is decoded as it stands,
/// and the text depends on the bytes alone.
#[verifier::external_body]
pub(crate) fn text_from_bytes(b: &[u8]) -> (r: String)
    ensures
        valid_utf8(b@) ==> r@ == decode_utf8(b@),
        !valid_utf8(b@) ==> r@ == lossy_utf8(b@),
{
    String::from_utf8_lossy(b).into_owned()
}

pub open spec fn dict_marker() -> Seq<u8> {
    seq![68u8, 105, 99, 116, 105, 111, 110, 97, 114, 121]
}

pub open spec fn list_marker() -> Seq<u8> {
    seq![76u8, 105, 115, 116]
}

/// Text of one element of a list kept as an unrecognised field.
pub open spec fn item_text(v: Value) -> Seq<u8> {
    match v {
        Value::Bytes(b) => b@,
        Value::Integer(n) => int_text(n as int),
        Value::List(_) => list_marker(),
        Value::Dict(_) => dict_marker(),
    }
}

/// Element texts joined by `, `.
pub open spec fn joined_text(vs: Seq<Value>) -> Seq<u8>
    decreases vs.len(),
{
    if vs.len() == 0 {
        Seq::empty()
    } else if vs.len() == 1 {
        item_text(vs[0])
    } else {
        joined_text(vs.drop_last()) + seq![44u8, 32] + item_text(vs.last())
    }
}

/// Best-effort text of the value of an unrecognised key: bytes as they are,
/// an integer in decimal, a list joined by `, `, a dictionary as a marker.
pub open spec fn field_text(v: Value) -> Seq<u8> {
    match v {
        Value::List(items) => joined_text(items@),
        _ => item_text(v),
    }
}

/// Whether two byte sequences are equal.
pub fn bytes_eq(a: &[u8], b: &[u8]) -> (r: bool)
    ensures
        r == (a@ == b@),
{
    if a.len() != b.len() {
        return false;
    }
    let mut i: usize = 0;
    while i < a.len()
        invariant
            i <= a@.len() == b@.len(),
            forall|j: int| 0 <= j < i ==> a@[j] == b@[j],
        decreases a@.len() - i,
    {
        if a[i] != b[i] {
            return false;
        }
        i = i + 1;
    }
    assert(a@ =~= b@);
    true
}

fn append(out: &mut Vec<u8>, b: &[u8])
    ensures
        final(out)@ == old(out)@ + b@,
{
    let mut i: usize = 0;
    while i < b.len()
        invariant
            i <= b@.len(),
            out@ == old(out)@ + b@.subrange(0, i as int),
        decreases b@.len() - i,
    {
        out.push(b[i]);
        i = i + 1;
        assert(out@ =~= old(out)@ + b@.subrange(0, i as int));
    }
    assert(b@.subrange(0, b@.len() as int) =~= b@);
}

/// Appends the decimal text of `n`.
pub fn write_int_text(n: i64, out: &mut Vec<u8>)
    ensures
        final(out)@ == old(out)@ + int_text(n as int),
{
    if n < 0 {
        out.push(45);
        let m: u64 = if n == i64::MIN { 9_223_372_036_854_775_808 } else { (-n) as u64 };
        write_digits(m, out);
    } else {
        write_digits(n as u64, out);
    }
    assert(out@ =~= old(out)@ + int_text(n as int));
}

fn write_item_text(v: &Value, out: &mut Vec<u8>)
    ensures
        final(out)@ == old(out)@ + item_text(*v),
{
    match v {
        Value::Bytes(b) => append(out, b.as_slice()),
        Value::Integer(n) => write_int_text(*n, out),
        Value::List(_) => {
            let m = vec![76u8, 105, 115, 116];
            assert(m@ =~= list_marker());
            append(out, m.as_slice());
        },
        Value::Dict(_) => {
            let m = vec![68u8, 105, 99, 116, 105, 111, 110, 97, 114, 121];
            assert(m@ =~= dict_marker());
            append(out, m.as_slice());
        },
    }
}

/// The bytes of `field_text(v)`.
pub fn field_text_bytes(v: &Value) -> (r: Vec<u8>)
    ensures
        r@ == field_text(*v),
{
    let mut out: Vec<u8> = Vec::new();
    match v {
        Value::List(items) => {
            let mut i: usize = 0;
            while i < items.len()
                invariant
                    i <= items@.len(),
                    out@ == joined_text(items@.subrange(0, i as int)),
                decreases items@.len() - i,
            {
                let ghost before = out@;
                if i > 0 {
                    out.push(44);
                    out.push(32);
                }
                write_item_text(&items[i], &mut out);
                proof {
                    let next = items@.subrange(0, i + 1);
                    assert(next.drop_last() =~= items@.subrange(0, i as int));
                    if i == 0 {
                        assert(out@ =~= joined_text(next));
                    } else {
                        assert(out@ =~= joined_text(next));
                    }
                }
                i = i + 1;
            }
            assert(items@.subrange(0, items@.len() as int) =~= items@);
        },
        _ => write_item_text(v, &mut out),
    }
    out
}

} // verus!

verus! {

/// The value of the last entry whose key is `k`.
pub open spec fn last_value(es: Seq<(Vec<u8>, Value)>, k: Seq<u8>) -> Option<Value>
    decreases es.len(),
{
    if es.len() == 0 {
        None
    } else if es.last().0@ == k {
        Some(es.last().1)
    } else {
        last_value(es.drop_last(), k)
    }
}

/// The entries with keys that are not recognised, as (key text, value text),
/// in input order.
pub open spec fn unknown_fields(es: Seq<(Vec<u8>, Value)>, top: bool) -> Seq<(Seq<char>, Seq<char>)>
    decreases es.len(),
{
    if es.len() == 0 {
        Seq::empty()
    } else {
        let rest = unknown_fields(es.drop_last(), top);
        if field_of(es.last().0@, top) is None {
            rest.push((text_of_bytes(es.last().0@), text_of_bytes(field_text(es.last().1))))
        } else {
            rest
        }
    }
}

/// Text of a byte-string value.
pub open spec fn text_of(v: Value) -> Seq<char> {
    text_of_bytes(v->Bytes_0@)
}

/// Decimal text of an integer value.
pub open spec fn decimal_of(v: Value) -> Seq<char> {
    text_of_bytes(int_text(v->Integer_0 as int))
}

/// Texts of a list of byte-string values.
pub open spec fn texts_of(items: Seq<Value>) -> Seq<Seq<char>> {
    Seq::new(items.len(), |i: int| text_of(items[i]))
}

/// The text of a byte-string value.
pub fn text_value(v: &Value) -> (r: String)
    requires
        v is Bytes,
    ensures
        r@ == text_of(*v),
{
    match v {
        Value::Bytes(b) => text_from_bytes(b.as_slice()),
        _ => String::new(),
    }
}

/// The decimal text of an integer value.
pub fn decimal_value(v: &Value) -> (r: String)
    requires
        v is Integer,
    ensures
        r@ == decimal_of(*v),
{
    let mut out: Vec<u8> = Vec::new();
    match v {
        Value::Integer(n) => write_int_text(*n, &mut out),
        _ => {},
    }
    assert(out@ =~= int_text(v->Integer_0 as int));
    text_from_bytes(out.as_slice())
}

/// The texts of a list of byte-string values.
pub fn text_list(items: &Vec<Value>) -> (r: Vec<String>)
    requires
        all_bytes(items@),
    ensures
        r.deep_view() == texts_of(items@),
{
    let mut r: Vec<String> = Vec::new();
    let mut i: usize = 0;
    while i < items.len()
        invariant
            i <= items@.len(),
            all_bytes(items@),
            r.deep_view() == texts_of(items@.subrange(0, i as int)),
        decreases items@.len() - i,
    {
        let t = text_value(&items[i]);
        let ghost prev = r.deep_view();
        r.push(t);
        assert(r.deep_view() =~= prev.push(t@));
        i = i + 1;
        assert(r.deep_view() =~= texts_of(items@.subrange(0, i as int)));
    }
    assert(items@.subrange(0, items@.len() as int) =~= items@);
    r
}

/// A copy of a byte sequence.
pub fn copy_bytes(b: &[u8]) -> (r: Vec<u8>)
    ensures
        r@ == b@,
{
    let mut r: Vec<u8> = Vec::new();
    append(&mut r, b);
    r
}

/// The (key text, value text) pair kept for an unrecognised entry.
pub fn unknown_pair(k: &Vec<u8>, v: &Value) -> (r: (String, String))
    ensures
        r.0@ == text_of_bytes(k@),
        r.1@ == text_of_bytes(field_text(*v)),
{
    let t = field_text_bytes(v);
    (text_from_bytes(k.as_slice()), text_from_bytes(t.as_slice()))
}

} // verus!
