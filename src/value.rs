//! The bencode value tree: its canonical encoding, the depth-bounded
//! recursive-descent decoder, and the encoder.
use vstd::prelude::*;
use crate::error::DecodeError;
use crate::reader::{
    all_digits, bytes_token, canonical_digits, digits_value, int_token, int_text_value, is_digit,
    read_byte_string, read_integer,
};

verus! {

/// Deepest nesting of lists and dictionaries that the decoder accepts.
pub const MAX_DEPTH: usize = 16;

/// A decoded bencode value; dictionary entries keep the order of the input.
#[derive(Debug)]
pub enum Value {
    Bytes(Vec<u8>),
    Integer(i64),
    List(Vec<Value>),
    Dict(Vec<(Vec<u8>, Value)>),
}

/// Decimal digits of `n`, most significant first, without leading zeros.
pub open spec fn digits_of(n: nat) -> Seq<u8>
    decreases n,
{
    if n < 10 {
        seq![(n + 48) as u8]
    } else {
        digits_of(n / 10).push((n % 10 + 48) as u8)
    }
}

/// Decimal text of an integer, with a leading `-` when negative.
pub open spec fn int_text(n: int) -> Seq<u8> {
    if n < 0 {
        seq![45u8] + digits_of((-n) as nat)
    } else {
        digits_of(n as nat)
    }
}

pub open spec fn enc_bytes(b: Seq<u8>) -> Seq<u8> {
    digits_of(b.len()) + seq![58u8] + b
}

pub open spec fn enc_int(n: int) -> Seq<u8> {
    seq![105u8] + int_text(n) + seq![101u8]
}

/// The bencode bytes of a value, dictionary entries in their stored order.
pub open spec fn enc(v: Value) -> Seq<u8>
    decreases v,
{
    match v {
        Value::Bytes(b) => enc_bytes(b@),
        Value::Integer(n) => enc_int(n as int),
        Value::List(items) => seq![108u8] + enc_list(items@) + seq![101u8],
        Value::Dict(entries) => seq![100u8] + enc_dict(entries@) + seq![101u8],
    }
}

pub open spec fn enc_list(vs: Seq<Value>) -> Seq<u8>
    decreases vs,
{
    if vs.len() == 0 {
        Seq::empty()
    } else {
        enc_list(vs.subrange(0, vs.len() - 1)) + enc(vs[vs.len() - 1])
    }
}

pub open spec fn enc_dict(es: Seq<(Vec<u8>, Value)>) -> Seq<u8>
    decreases es,
{
    if es.len() == 0 {
        Seq::empty()
    } else {
        enc_dict(es.subrange(0, es.len() - 1)) + enc_bytes(es[es.len() - 1].0@) + enc(
            es[es.len() - 1].1,
        )
    }
}

/// Whether `v`, read inside `d` enclosing lists or dictionaries, stays
/// within the nesting limit.
pub open spec fn fits_depth(v: Value, d: nat) -> bool
    decreases v,
{
    match v {
        Value::List(items) => d < MAX_DEPTH && fits_list(items@, d + 1),
        Value::Dict(entries) => d < MAX_DEPTH && fits_dict(entries@, d + 1),
        _ => true,
    }
}

pub open spec fn fits_list(vs: Seq<Value>, d: nat) -> bool
    decreases vs,
{
    if vs.len() == 0 {
        true
    } else {
        fits_depth(vs[0], d) && fits_list(vs.subrange(1, vs.len() as int), d)
    }
}

pub open spec fn fits_dict(es: Seq<(Vec<u8>, Value)>, d: nat) -> bool
    decreases es,
{
    if es.len() == 0 {
        true
    } else {
        fits_depth(es[0].1, d) && fits_dict(es.subrange(1, es.len() as int), d)
    }
}


proof fn lemma_fits_list_push(vs: Seq<Value>, x: Value, d: nat)
    requires
        fits_list(vs, d),
        fits_depth(x, d),
    ensures
        fits_list(vs.push(x), d),
    decreases vs.len(),
{
    let w = vs.push(x);
    if vs.len() > 0 {
        let rest = vs.subrange(1, vs.len() as int);
        lemma_fits_list_push(rest, x, d);
        assert(w.subrange(1, w.len() as int) =~= rest.push(x));
        assert(w[0] == vs[0]);
    } else {
        assert(w.subrange(1, w.len() as int) =~= Seq::<Value>::empty());
        assert(fits_list(Seq::<Value>::empty(), d));
        assert(w[0] == x);
    }
}

proof fn lemma_fits_dict_push(es: Seq<(Vec<u8>, Value)>, x: (Vec<u8>, Value), d: nat)
    requires
        fits_dict(es, d),
        fits_depth(x.1, d),
    ensures
        fits_dict(es.push(x), d),
    decreases es.len(),
{
    let w = es.push(x);
    if es.len() > 0 {
        let rest = es.subrange(1, es.len() as int);
        lemma_fits_dict_push(rest, x, d);
        assert(w.subrange(1, w.len() as int) =~= rest.push(x));
        assert(w[0] == es[0]);
    } else {
        assert(w.subrange(1, w.len() as int) =~= Seq::<(Vec<u8>, Value)>::empty());
        assert(fits_dict(Seq::<(Vec<u8>, Value)>::empty(), d));
        assert(w[0] == x);
    }
}

/// Where the value that starts at `pos` ends, for a decoder already inside
/// `depth` lists or dictionaries; or why it is rejected.
pub open spec fn value_span(s: Seq<u8>, pos: int, depth: nat) -> Result<usize, DecodeError>
    decreases s.len() - pos, 0nat,
{
    if pos < 0 || pos >= s.len() {
        Err(DecodeError::UnexpectedEndOfInput { offset: s.len() as usize })
    } else if s[pos] == 105 {
        match int_token(s, pos) {
            Ok((_, e)) => Ok(e),
            Err(x) => Err(x),
        }
    } else if s[pos] == 108 || s[pos] == 100 {
        if depth >= MAX_DEPTH {
            Err(DecodeError::RecursionLimitExceeded { offset: pos as usize })
        } else {
            items_span(s, pos + 1, depth + 1, s[pos] == 100)
        }
    } else {
        match bytes_token(s, pos) {
            Ok((_, e)) => Ok(e),
            Err(x) => Err(x),
        }
    }
}

/// Where the items of a list (or the entries of a dictionary) that start at
/// `p` end, the closing `e` included; or why they are rejected.
pub open spec fn items_span(s: Seq<u8>, p: int, depth: nat, dict: bool) -> Result<
    usize,
    DecodeError,
>
    decreases s.len() - p, 1nat,
{
    if p < 0 || p >= s.len() {
        Err(DecodeError::UnexpectedEndOfInput { offset: s.len() as usize })
    } else if s[p] == 101 {
        Ok((p + 1) as usize)
    } else if dict && !is_digit(s[p]) {
        Err(DecodeError::InvalidDictionaryKey { offset: p as usize })
    } else {
        let vstart: Result<usize, DecodeError> = if dict {
            match bytes_token(s, p) {
                Ok((_, ke)) => Ok(ke),
                Err(x) => Err(x),
            }
        } else {
            Ok(p as usize)
        };
        // The range tests below always hold for a token that was read; they
        // keep the recursion visibly well-founded.
        match vstart {
            Err(x) => Err(x),
            Ok(vs) => if p <= vs <= s.len() {
                match value_span(s, vs as int, depth) {
                    Err(x) => Err(x),
                    Ok(ve) => if p < ve <= s.len() {
                        items_span(s, ve as int, depth, dict)
                    } else {
                        Err(DecodeError::UnexpectedEndOfInput { offset: s.len() as usize })
                    },
                }
            } else {
                Err(DecodeError::UnexpectedEndOfInput { offset: s.len() as usize })
            },
        }
    }
}

proof fn lemma_digits_prefix_first(t: Seq<u8>)
    requires
        all_digits(t),
        t.len() > 0,
    ensures
        (t[0] - 48) as nat <= digits_value(t),
    decreases t.len(),
{
    if t.len() > 1 {
        lemma_digits_prefix_first(t.drop_last());
    }
}

/// Canonical digits are the digits of their own value.
pub proof fn lemma_canonical_digits(t: Seq<u8>)
    requires
        canonical_digits(t),
    ensures
        digits_of(digits_value(t)) == t,
    decreases t.len(),
{
    let v = digits_value(t);
    if t.len() == 1 {
        assert(t.drop_last() =~= Seq::<u8>::empty());
        assert(digits_of(v) =~= t);
    } else {
        let u = t.drop_last();
        assert(u[0] == t[0]);
        assert(all_digits(u)) by {
            assert forall|i: int| 0 <= i < u.len() implies is_digit(#[trigger] u[i]) by {
                assert(u[i] == t[i]);
            }
        }
        lemma_canonical_digits(u);
        lemma_digits_prefix_first(u);
        let a = digits_value(u);
        let d = (t.last() - 48) as nat;
        assert(is_digit(t[t.len() - 1]));
        assert(v == a * 10 + d);
        assert(v / 10 == a && v % 10 == d && v >= 10) by (nonlinear_arith)
            requires
                v == a * 10 + d,
                d < 10,
                a >= 1,
        ;
        assert(digits_of(v) =~= t);
    }
}

/// The digits of `n` are canonical and denote `n`.
pub proof fn lemma_digits_of(n: nat)
    ensures
        canonical_digits(digits_of(n)),
        digits_value(digits_of(n)) == n,
    decreases n,
{
    if n < 10 {
        let t = digits_of(n);
        assert(t.drop_last() =~= Seq::<u8>::empty());
        assert(t.last() == (n + 48) as u8);
        assert(digits_value(t) == digits_value(t.drop_last()) * 10 + (t.last() - 48) as nat);
        assert(is_digit(t[0]));
    } else {
        lemma_digits_of(n / 10);
        let t = digits_of(n);
        let u = digits_of(n / 10);
        assert(t.drop_last() =~= u);
        assert(t[0] == u[0]);
        assert(t.last() == (n % 10 + 48) as u8);
        assert(digits_value(t) == digits_value(u) * 10 + (t.last() - 48) as nat);
        assert(n / 10 * 10 + n % 10 == n) by (nonlinear_arith);
        assert(n / 10 > 0);
        if u[0] == 48 {
            assert(u.drop_last() =~= Seq::<u8>::empty());
            assert(digits_value(u) == digits_value(u.drop_last()) * 10 + (u.last() - 48) as nat);
        }
        assert(all_digits(t)) by {
            assert forall|i: int| 0 <= i < t.len() implies is_digit(#[trigger] t[i]) by {
                if i < u.len() {
                    assert(t[i] == u[i]);
                }
            }
        }
    }
}

/// Well-formed integer text is the text of its value.
pub proof fn lemma_int_text_inverse(t: Seq<u8>)
    requires
        int_text_value(t) is Some,
    ensures
        int_text(int_text_value(t).unwrap()) == t,
{
    if t.len() > 0 && t[0] == 45 {
        let d = t.drop_first();
        lemma_canonical_digits(d);
        lemma_digits_of(digits_value(d));
        assert(seq![45u8] + d =~= t);
    } else {
        lemma_canonical_digits(t);
    }
}

proof fn lemma_items_dict_unfold(s: Seq<u8>, p: int, d: nat)
    requires
        0 <= p < s.len(),
        s[p] != 101,
        is_digit(s[p]),
    ensures
        match bytes_token(s, p) {
            Err(x) => items_span(s, p, d, true) == Err::<usize, DecodeError>(x),
            Ok((_, ke)) => p <= ke <= s.len() ==> match value_span(s, ke as int, d) {
                Err(x) => items_span(s, p, d, true) == Err::<usize, DecodeError>(x),
                Ok(ve) => p < ve <= s.len() ==> items_span(s, p, d, true) == items_span(
                    s,
                    ve as int,
                    d,
                    true,
                ),
            },
        },
{
}

proof fn lemma_items_list_unfold(s: Seq<u8>, p: int, d: nat)
    requires
        0 <= p < s.len() <= usize::MAX,
        s[p] != 101,
    ensures
        match value_span(s, p, d) {
            Err(x) => items_span(s, p, d, false) == Err::<usize, DecodeError>(x),
            Ok(ve) => p < ve <= s.len() ==> items_span(s, p, d, false) == items_span(
                s,
                ve as int,
                d,
                false,
            ),
        },
{
}

proof fn lemma_enc_dict_push(es: Seq<(Vec<u8>, Value)>, key: Vec<u8>, v: Value)
    ensures
        enc_dict(es.push((key, v))) == enc_dict(es) + enc_bytes(key@) + enc(v),
{
    let es2 = es.push((key, v));
    assert(es2.subrange(0, es2.len() - 1) =~= es);
}

proof fn lemma_enc_list_push(vs: Seq<Value>, v: Value)
    ensures
        enc_list(vs.push(v)) == enc_list(vs) + enc(v),
{
    let vs2 = vs.push(v);
    assert(vs2.subrange(0, vs2.len() - 1) =~= vs);
}

/// Decodes the value at `pos`, inside `depth` enclosing lists or dictionaries.
#[verifier::rlimit(60)]
pub fn decode_value(s: &[u8], pos: usize, depth: usize) -> (r: Result<(Value, usize), DecodeError>)
    requires
        pos <= s@.len(),
        depth <= MAX_DEPTH,
    ensures
        match value_span(s@, pos as int, depth as nat) {
            Ok(e) => r matches Ok((v, e2)) && e2 == e && pos < e <= s@.len() && s@.subrange(
                pos as int,
                e as int,
            ) == enc(v) && fits_depth(v, depth as nat),
            Err(x) => r == Err::<(Value, usize), DecodeError>(x),
        },
    decreases s@.len() - pos,
{
    let len = s.len();
    if pos >= len {
        return Err(DecodeError::UnexpectedEndOfInput { offset: len });
    }
    let b = s[pos];
    if b == 105 {
        match read_integer(s, pos) {
            Ok((n, e)) => {
                proof {
                    let k = (e - 1) as int;
                    let t = s@.subrange(pos + 1, k);
                    lemma_int_text_inverse(t);
                    assert(s@.subrange(pos as int, e as int) =~= seq![105u8] + t + seq![101u8]);
                }
                Ok((Value::Integer(n), e))
            },
            Err(x) => Err(x),
        }
    } else if b == 108 || b == 100 {
        if depth >= MAX_DEPTH {
            return Err(DecodeError::RecursionLimitExceeded { offset: pos });
        }
        let is_dict = b == 100;
        let ghost d = (depth + 1) as nat;
        let mut p: usize = pos + 1;
        let mut items: Vec<Value> = Vec::new();
        let mut entries: Vec<(Vec<u8>, Value)> = Vec::new();
        assert(s@.subrange(pos + 1, pos + 1) =~= Seq::<u8>::empty());
        loop
            invariant
                pos < p <= s@.len(),
                len == s@.len(),
                depth < MAX_DEPTH,
                d == depth + 1,
                is_dict == (s@[pos as int] == 100),
                s@[pos as int] == 108 || s@[pos as int] == 100,
                items_span(s@, p as int, d, is_dict) == items_span(s@, pos + 1, d, is_dict),
                !is_dict ==> s@.subrange(pos + 1, p as int) == enc_list(items@),
                is_dict ==> s@.subrange(pos + 1, p as int) == enc_dict(entries@),
                !is_dict ==> entries@.len() == 0,
                is_dict ==> items@.len() == 0,
                fits_list(items@, d),
                fits_dict(entries@, d),
            decreases s@.len() - p,
        {
            if p >= len {
                return Err(DecodeError::UnexpectedEndOfInput { offset: len });
            }
            if s[p] == 101 {
                proof {
                    if is_dict {
                        assert(s@.subrange(pos as int, p + 1) =~= seq![100u8] + enc_dict(entries@)
                            + seq![101u8]);
                    } else {
                        assert(s@.subrange(pos as int, p + 1) =~= seq![108u8] + enc_list(items@)
                            + seq![101u8]);
                    }
                }
                if is_dict {
                    return Ok((Value::Dict(entries), p + 1));
                } else {
                    return Ok((Value::List(items), p + 1));
                }
            }
            if is_dict {
                if !(48 <= s[p] && s[p] <= 57) {
                    return Err(DecodeError::InvalidDictionaryKey { offset: p });
                }
                proof {
                    lemma_items_dict_unfold(s@, p as int, d);
                }
                let (key, ke) = match read_byte_string(s, p) {
                    Ok(kv) => kv,
                    Err(x) => {
                        return Err(x);
                    },
                };
                let (v, ve) = match decode_value(s, ke, depth + 1) {
                    Ok(vv) => vv,
                    Err(x) => {
                        return Err(x);
                    },
                };
                proof {
                    let k = (ke - key@.len() - 1) as int;
                    let t = s@.subrange(p as int, k);
                    lemma_canonical_digits(t);
                    assert(s@.subrange(p as int, ke as int) =~= t + seq![58u8] + key@);
                    lemma_enc_dict_push(entries@, key, v);
                    lemma_fits_dict_push(entries@, (key, v), d);
                    assert(s@.subrange(pos + 1, ve as int) =~= s@.subrange(pos + 1, p as int)
                        + s@.subrange(p as int, ke as int) + s@.subrange(ke as int, ve as int));
                }
                entries.push((key, v));
                p = ve;
            } else {
                proof {
                    lemma_items_list_unfold(s@, p as int, d);
                }
                let (v, ve) = match decode_value(s, p, depth + 1) {
                    Ok(vv) => vv,
                    Err(x) => {
                        return Err(x);
                    },
                };
                proof {
                    lemma_enc_list_push(items@, v);
                    lemma_fits_list_push(items@, v, d);
                    assert(s@.subrange(pos + 1, ve as int) =~= s@.subrange(pos + 1, p as int)
                        + s@.subrange(p as int, ve as int));
                }
                items.push(v);
                p = ve;
            }
        }
    } else {
        match read_byte_string(s, pos) {
            Ok((data, e)) => {
                proof {
                    let k = (e - data@.len() - 1) as int;
                    let t = s@.subrange(pos as int, k);
                    lemma_canonical_digits(t);
                    assert(s@.subrange(pos as int, e as int) =~= enc_bytes(data@));
                }
                Ok((Value::Bytes(data), e))
            },
            Err(x) => Err(x),
        }
    }
}

} // verus!

verus! {

/// Appends the decimal digits of `n`.
pub fn write_digits(n: u64, out: &mut Vec<u8>)
    ensures
        final(out)@ == old(out)@ + digits_of(n as nat),
    decreases n,
{
    if n >= 10 {
        write_digits(n / 10, out);
    }
    out.push((n % 10 + 48) as u8);
    proof {
        if n >= 10 {
            assert(final(out)@ =~= old(out)@ + digits_of(n as nat));
        } else {
            assert(final(out)@ =~= old(out)@ + digits_of(n as nat));
        }
    }
}

/// Appends the byte-string token of `b`.
pub fn write_bytes(b: &[u8], out: &mut Vec<u8>)
    ensures
        final(out)@ == old(out)@ + enc_bytes(b@),
{
    write_digits(b.len() as u64, out);
    out.push(58);
    let ghost mid = out@;
    let mut i: usize = 0;
    while i < b.len()
        invariant
            0 <= i <= b@.len(),
            out@ == mid + b@.subrange(0, i as int),
        decreases b@.len() - i,
    {
        out.push(b[i]);
        i = i + 1;
        assert(out@ =~= mid + b@.subrange(0, i as int));
    }
    assert(b@.subrange(0, b@.len() as int) =~= b@);
    assert(out@ =~= old(out)@ + enc_bytes(b@));
}

/// Appends the integer token of `n`.
pub fn write_integer(n: i64, out: &mut Vec<u8>)
    ensures
        final(out)@ == old(out)@ + enc_int(n as int),
{
    out.push(105);
    if n < 0 {
        out.push(45);
        let m: u64 = if n == i64::MIN { 9_223_372_036_854_775_808 } else { (-n) as u64 };
        write_digits(m, out);
    } else {
        write_digits(n as u64, out);
    }
    out.push(101);
    assert(out@ =~= old(out)@ + enc_int(n as int));
}

/// Appends the bencode bytes of `v`.
pub fn encode_value(v: &Value, out: &mut Vec<u8>)
    ensures
        final(out)@ == old(out)@ + enc(*v),
    decreases v,
{
    match v {
        Value::Bytes(b) => write_bytes(b.as_slice(), out),
        Value::Integer(n) => write_integer(*n, out),
        Value::List(items) => {
            out.push(108);
            let ghost start = out@;
            let mut i: usize = 0;
            assert(items@.subrange(0, 0) =~= Seq::<Value>::empty());
            while i < items.len()
                invariant
                    0 <= i <= items@.len(),
                    *v == Value::List(*items),
                    out@ == start + enc_list(items@.subrange(0, i as int)),
                decreases items@.len() - i,
            {
                proof {
                    assert(decreases_to!(*v => (*v)->List_0));
                    assert(decreases_to!(*items => items[i as int]));
                    assert(decreases_to!(*v => items[i as int]));
                }
                encode_value(&items[i], out);
                proof {
                    let next = items@.subrange(0, i + 1);
                    assert(next.subrange(0, next.len() - 1) =~= items@.subrange(0, i as int));
                }
                i = i + 1;
                assert(out@ =~= start + enc_list(items@.subrange(0, i as int)));
            }
            assert(items@.subrange(0, items@.len() as int) =~= items@);
            out.push(101);
            assert(out@ =~= old(out)@ + enc(*v));
        },
        Value::Dict(entries) => {
            out.push(100);
            let ghost start = out@;
            let mut i: usize = 0;
            assert(entries@.subrange(0, 0) =~= Seq::<(Vec<u8>, Value)>::empty());
            while i < entries.len()
                invariant
                    0 <= i <= entries@.len(),
                    *v == Value::Dict(*entries),
                    out@ == start + enc_dict(entries@.subrange(0, i as int)),
                decreases entries@.len() - i,
            {
                proof {
                    assert(decreases_to!(*v => (*v)->Dict_0));
                    assert(decreases_to!(*entries => entries[i as int]));
                    assert(decreases_to!(entries[i as int] => entries[i as int].1));
                    assert(decreases_to!(*v => entries[i as int].1));
                }
                write_bytes(entries[i].0.as_slice(), out);
                encode_value(&entries[i].1, out);
                proof {
                    let next = entries@.subrange(0, i + 1);
                    assert(next.subrange(0, next.len() - 1) =~= entries@.subrange(0, i as int));
                }
                i = i + 1;
                assert(out@ =~= start + enc_dict(entries@.subrange(0, i as int)));
            }
            assert(entries@.subrange(0, entries@.len() as int) =~= entries@);
            out.push(101);
            assert(out@ =~= old(out)@ + enc(*v));
        },
    }
}

} // verus!
