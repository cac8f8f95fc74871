//! The canonical encoder: `MetaInfo` back to bencode, keys in sorted order.
use vstd::prelude::*;
use crate::error::Field;
use crate::fields::{field_key, key_bytes};
use crate::info::Info;
use crate::meta_info::MetaInfo;
use crate::reader::{canonical_digits, fits_i64, int_run_end, int_text_value, int_token, is_digit, lemma_int_run_end, read_integer};
use crate::value::{digits_of, enc_bytes, write_bytes, write_digits};
use vstd::utf8::encode_utf8;

verus! {

/// Why a `MetaInfo` cannot be written as bencode.
#[derive(Debug, Clone, Copy, PartialEq, Eq, Structural)]
pub enum EncodeError {
    /// A field that holds an integer is not the decimal text of a signed
    /// 64-bit integer (or, for the creation date, exceeds that range).
    SerializationFailure { field: Field },
}

/// Whether `t` is the canonical decimal text of a signed 64-bit integer.
pub open spec fn decimal_ok(t: Seq<char>) -> bool {
    int_text_value(encode_utf8(t)) matches Some(n) && fits_i64(n)
}

pub open spec fn text_entry(f: Field, t: Seq<char>) -> Seq<u8> {
    enc_bytes(field_key(f)) + enc_bytes(encode_utf8(t))
}

pub open spec fn decimal_entry(f: Field, t: Seq<char>) -> Seq<u8> {
    enc_bytes(field_key(f)) + seq![105u8] + encode_utf8(t) + seq![101u8]
}

pub open spec fn text_list_bytes(ts: Seq<Seq<char>>) -> Seq<u8>
    decreases ts.len(),
{
    if ts.len() == 0 {
        Seq::empty()
    } else {
        text_list_bytes(ts.drop_last()) + enc_bytes(encode_utf8(ts.last()))
    }
}

pub open spec fn opt_text_entry(f: Field, t: Option<String>) -> Seq<u8> {
    match t {
        Some(s) => text_entry(f, s@),
        None => Seq::empty(),
    }
}

pub open spec fn opt_list_entry(f: Field, l: Option<Vec<String>>) -> Seq<u8> {
    match l {
        Some(v) => enc_bytes(field_key(f)) + seq![108u8] + text_list_bytes(v.deep_view()) + seq![101u8],
        None => Seq::empty(),
    }
}

/// The bencode bytes of an `Info`; unrecognised fields are not written.
pub open spec fn enc_info(info: Info) -> Seq<u8> {
    seq![100u8] + match info.file_length {
        Some(t) => decimal_entry(Field::Length, t@),
        None => Seq::empty(),
    } + text_entry(Field::Name, info.name@) + decimal_entry(Field::PieceLength, info.piece_length@)
        + enc_bytes(field_key(Field::Pieces)) + enc_bytes(info.pieces@) + seq![101u8]
}

/// The bencode bytes of a `MetaInfo`; unrecognised fields are not written.
pub open spec fn enc_meta(m: MetaInfo) -> Seq<u8> {
    seq![100u8] + text_entry(Field::Announce, m.announce@) + opt_list_entry(
        Field::AnnounceList,
        m.announce_list,
    ) + opt_text_entry(Field::Comment, m.comment) + opt_text_entry(Field::CreatedBy, m.created_by)
        + match m.creation_date {
        Some(d) => enc_bytes(field_key(Field::CreationDate)) + seq![105u8] + digits_of(d as nat)
            + seq![101u8],
        None => Seq::empty(),
    } + opt_text_entry(Field::Encoding, m.encoding) + opt_list_entry(Field::HttpSeeds, m.http_seeds)
        + enc_bytes(field_key(Field::Info)) + enc_info(m.info) + seq![101u8]
}

/// Whether every integer field of `m` can be written.
pub open spec fn encodable(m: MetaInfo) -> bool {
    &&& decimal_ok(m.info.piece_length@)
    &&& m.info.file_length matches Some(t) ==> decimal_ok(t@)
    &&& m.creation_date matches Some(d) ==> d <= i64::MAX
}

fn append_bytes(out: &mut Vec<u8>, b: &[u8])
    ensures
        final(out)@ == old(out)@ + b@,
{
    let mut i: usize = 0;
    while i < b.len()
        invariant
            i <= b@.len(),
            out@ == old(out)@ + b@.subrange(0, i as int),
        decreases b@.len() - i,
    {
        out.push(b[i]);
        i = i + 1;
        assert(out@ =~= old(out)@ + b@.subrange(0, i as int));
    }
    assert(b@.subrange(0, b@.len() as int) =~= b@);
}

fn write_key(f: Field, out: &mut Vec<u8>)
    ensures
        final(out)@ == old(out)@ + enc_bytes(field_key(f)),
{
    let k = key_bytes(f);
    write_bytes(k.as_slice(), out);
}

fn write_text_entry(f: Field, t: &String, out: &mut Vec<u8>)
    ensures
        final(out)@ == old(out)@ + text_entry(f, t@),
{
    write_key(f, out);
    write_bytes(t.as_str().as_bytes(), out);
    assert(out@ =~= old(out)@ + text_entry(f, t@));
}

/// Writes a field whose text must be a decimal integer.
fn write_decimal_entry(f: Field, t: &String, out: &mut Vec<u8>) -> (r: Result<(), EncodeError>)
    ensures
        decimal_ok(t@) ==> r is Ok && final(out)@ == old(out)@ + decimal_entry(f, t@),
        !decimal_ok(t@) ==> r == Err::<(), EncodeError>(EncodeError::SerializationFailure { field: f }),
{
    let digits = t.as_str().as_bytes();
    let mut token: Vec<u8> = Vec::new();
    token.push(105);
    append_bytes(&mut token, digits);
    token.push(101);
    assert(token@ =~= seq![105u8] + encode_utf8(t@) + seq![101u8]);
    let ok = match read_integer(token.as_slice(), 0) {
        Ok((_, e)) => e == token.len(),
        Err(_) => false,
    };
    proof {
        let s = token@;
        assert(s.subrange(1, s.len() - 1) =~= encode_utf8(t@));
        lemma_decimal_token(s, encode_utf8(t@));
    }
    if !ok {
        return Err(EncodeError::SerializationFailure { field: f });
    }
    write_key(f, out);
    append_bytes(out, token.as_slice());
    assert(out@ =~= old(out)@ + decimal_entry(f, t@));
    Ok(())
}

proof fn lemma_decimal_token(s: Seq<u8>, t: Seq<u8>)
    requires
        s == seq![105u8] + t + seq![101u8],
        s.len() <= usize::MAX,
    ensures
        (int_token(s, 0) matches Ok((_, e)) && e == s.len()) <==> (int_text_value(t) matches Some(
            n,
        ) && fits_i64(n)),
{
    lemma_int_run_end(s, 1);
    let k = int_run_end(s, 1);
    assert(s.subrange(1, s.len() - 1) =~= t);
    if k < s.len() - 1 {
        let j = k - 1;
        assert(t[j] == s[k]);
        if int_text_value(t) is Some {
            if t.len() > 0 && t[0] == 45 {
                let d = t.drop_first();
                if j > 0 {
                    assert(d[j - 1] == t[j]);
                }
            } else {
                assert(canonical_digits(t));
            }
        }
    } else {
        assert(s[s.len() - 1] == 101);
        if k == s.len() {
            assert(is_digit(s[s.len() - 1]) || s[s.len() - 1] == 45);
        }
        assert(k == s.len() - 1);
        assert(s.subrange(1, k) =~= t);
    }
}

fn write_text_list(l: &Vec<String>, out: &mut Vec<u8>)
    ensures
        final(out)@ == old(out)@ + text_list_bytes(l.deep_view()),
{
    let mut i: usize = 0;
    assert(l.deep_view().take(0) =~= Seq::<Seq<char>>::empty());
    while i < l.len()
        invariant
            i <= l@.len(),
            out@ == old(out)@ + text_list_bytes(l.deep_view().take(i as int)),
        decreases l@.len() - i,
    {
        write_bytes(l[i].as_str().as_bytes(), out);
        proof {
            let next = l.deep_view().take(i + 1);
            assert(next.drop_last() =~= l.deep_view().take(i as int));
            assert(next.last() == l[i as int]@);
        }
        i = i + 1;
        assert(out@ =~= old(out)@ + text_list_bytes(l.deep_view().take(i as int)));
    }
    assert(l.deep_view().take(l@.len() as int) =~= l.deep_view());
}

fn write_opt_text(f: Field, t: &Option<String>, out: &mut Vec<u8>)
    ensures
        final(out)@ == old(out)@ + opt_text_entry(f, *t),
{
    match t {
        Some(s) => write_text_entry(f, s, out),
        None => assert(out@ =~= old(out)@ + opt_text_entry(f, *t)),
    }
}

fn write_opt_list(f: Field, l: &Option<Vec<String>>, out: &mut Vec<u8>)
    ensures
        final(out)@ == old(out)@ + opt_list_entry(f, *l),
{
    match l {
        Some(v) => {
            write_key(f, out);
            out.push(108);
            write_text_list(v, out);
            out.push(101);
            assert(out@ =~= old(out)@ + opt_list_entry(f, *l));
        },
        None => assert(out@ =~= old(out)@ + opt_list_entry(f, *l)),
    }
}

/// Appends the bencode bytes of an `Info`, keys in sorted order.
pub fn encode_info(info: &Info, out: &mut Vec<u8>) -> (r: Result<(), EncodeError>)
    ensures
        (decimal_ok(info.piece_length@) && (info.file_length matches Some(t) ==> decimal_ok(t@)))
            ==> (r is Ok && final(out)@ == old(out)@ + enc_info(*info)),
        info.file_length matches Some(t) && !decimal_ok(t@) ==> r == Err::<(), EncodeError>(
            EncodeError::SerializationFailure { field: Field::Length },
        ),
        (info.file_length matches Some(t) ==> decimal_ok(t@)) && !decimal_ok(info.piece_length@)
            ==> r == Err::<(), EncodeError>(
            EncodeError::SerializationFailure { field: Field::PieceLength },
        ),
{
    out.push(100);
    let ghost start = out@;
    match &info.file_length {
        Some(t) => {
            write_decimal_entry(Field::Length, t, out)?;
        },
        None => {},
    }
    let ghost mid = out@;
    write_text_entry(Field::Name, &info.name, out);
    write_decimal_entry(Field::PieceLength, &info.piece_length, out)?;
    write_key(Field::Pieces, out);
    write_bytes(info.pieces.as_slice(), out);
    out.push(101);
    assert(out@ =~= old(out)@ + enc_info(*info));
    Ok(())
}

/// Writes a `MetaInfo` as canonical bencode: dictionary keys in ascending
/// byte order; unrecognised fields are not written.
pub fn encode(m: &MetaInfo) -> (r: Result<Vec<u8>, EncodeError>)
    ensures
        encodable(*m) ==> (r matches Ok(b) && b@ == enc_meta(*m)),
        (m.creation_date matches Some(d) && d > i64::MAX) ==> r == Err::<Vec<u8>, EncodeError>(
            EncodeError::SerializationFailure { field: Field::CreationDate },
        ),
        (m.creation_date matches Some(d) ==> d <= i64::MAX) && (m.info.file_length matches Some(t)
            && !decimal_ok(t@)) ==> r == Err::<Vec<u8>, EncodeError>(
            EncodeError::SerializationFailure { field: Field::Length },
        ),
        (m.creation_date matches Some(d) ==> d <= i64::MAX) && (m.info.file_length matches Some(t)
            ==> decimal_ok(t@)) && !decimal_ok(m.info.piece_length@) ==> r == Err::<
            Vec<u8>,
            EncodeError,
        >(EncodeError::SerializationFailure { field: Field::PieceLength }),
{
    let mut out: Vec<u8> = Vec::new();
    out.push(100);
    write_text_entry(Field::Announce, &m.announce, &mut out);
    write_opt_list(Field::AnnounceList, &m.announce_list, &mut out);
    write_opt_text(Field::Comment, &m.comment, &mut out);
    write_opt_text(Field::CreatedBy, &m.created_by, &mut out);
    let ghost before_date = out@;
    match m.creation_date {
        Some(d) => {
            if d > 9_223_372_036_854_775_807 {
                return Err(EncodeError::SerializationFailure { field: Field::CreationDate });
            }
            write_key(Field::CreationDate, &mut out);
            out.push(105);
            write_digits(d, &mut out);
            out.push(101);
        },
        None => {},
    }
    write_opt_text(Field::Encoding, &m.encoding, &mut out);
    write_opt_list(Field::HttpSeeds, &m.http_seeds, &mut out);
    write_key(Field::Info, &mut out);
    let ghost before_info = out@;
    encode_info(&m.info, &mut out)?;
    out.push(101);
    proof {
        let date = match m.creation_date {
            Some(d) => enc_bytes(field_key(Field::CreationDate)) + seq![105u8] + digits_of(d as nat)
                + seq![101u8],
            None => Seq::empty(),
        };
        assert(out@ =~= enc_meta(*m));
    }
    Ok(out)
}

} // verus!
