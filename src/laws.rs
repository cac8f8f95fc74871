//! Properties of the reader and the decoder, stated for all inputs.
use vstd::prelude::*;
use crate::error::DecodeError;
use crate::reader::{
    bytes_token, digit_run_end, digits_value, int_run_end, int_text_value, int_token, is_digit,
    lemma_digit_run_end, lemma_int_run_end,
};
use crate::value::{
    digits_of, enc, enc_bytes, enc_dict, enc_int, enc_list, fits_depth, fits_dict, fits_list, int_text,
    items_span, lemma_digits_of, value_span, Value, MAX_DEPTH,
};

verus! {

/// The text of every integer is well formed and denotes that integer.
pub proof fn lemma_int_text_value(n: int)
    ensures
        int_text_value(int_text(n)) == Some(n),
        forall|j: int| 0 <= j < int_text(n).len() ==> is_digit(#[trigger] int_text(n)[j]) || int_text(n)[j] == 45,
{
    let t = int_text(n);
    if n < 0 {
        let m = (-n) as nat;
        lemma_digits_of(m);
        let d = digits_of(m);
        assert(t.drop_first() =~= d);
        if d[0] == 48 {
            assert(d.drop_last() =~= Seq::<u8>::empty());
            assert(digits_value(d) == digits_value(d.drop_last()) * 10 + (d.last() - 48) as nat);
        }
        assert forall|j: int| 0 <= j < t.len() implies is_digit(#[trigger] t[j]) || t[j] == 45 by {
            if j > 0 {
                assert(t[j] == d[j - 1]);
            }
        }
    } else {
        lemma_digits_of(n as nat);
        assert(is_digit(t[0]));
    }
}

/// For every signed 64-bit `n`, the reader recovers exactly `n` from `i<n>e`
/// and stops right after the `e`, whatever follows.
pub proof fn lemma_integer_token(s: Seq<u8>, pos: int, n: i64)
    requires
        0 <= pos,
        pos + enc_int(n as int).len() <= s.len() <= usize::MAX,
        s.subrange(pos, pos + enc_int(n as int).len()) == enc_int(n as int),
    ensures
        int_token(s, pos) == Ok::<(i64, usize), DecodeError>((n, (pos + enc_int(n as int).len()) as usize)),
{
    let t = int_text(n as int);
    lemma_int_text_value(n as int);
    let q = pos + 1 + t.len();
    assert forall|j: int| pos + 1 <= j < q implies is_digit(#[trigger] s[j]) || s[j] == 45 by {
        assert(s[j] == s.subrange(pos, pos + enc_int(n as int).len())[j - pos]);
        assert(enc_int(n as int)[j - pos] == t[j - pos - 1]);
    }
    assert(s[q] == s.subrange(pos, pos + enc_int(n as int).len())[q - pos]);
    assert(s[q] == 101);
    lemma_int_run_end(s, pos + 1);
    let k = int_run_end(s, pos + 1);
    if k < q {
        assert(is_digit(s[k]) || s[k] == 45);
    }
    if k > q {
        assert(is_digit(s[q]) || s[q] == 45);
    }
    assert(s.subrange(pos + 1, q) =~= t) by {
        assert forall|j: int| 0 <= j < t.len() implies s.subrange(pos + 1, q)[j] == t[j] by {
            assert(s[pos + 1 + j] == s.subrange(pos, pos + enc_int(n as int).len())[1 + j]);
        }
    }
}

/// A byte-string token `<len>:<data>` is read as exactly its `len` data
/// bytes, whatever they are and whatever follows.
pub proof fn lemma_byte_string_token(s: Seq<u8>, pos: int, data: Seq<u8>)
    requires
        0 <= pos,
        pos + enc_bytes(data).len() <= s.len() <= usize::MAX,
        s.subrange(pos, pos + enc_bytes(data).len()) == enc_bytes(data),
    ensures
        bytes_token(s, pos) matches Ok((a, e)) && e == pos + enc_bytes(data).len() && e - a == data.len()
            && s.subrange(a as int, e as int) == data,
{
    let t = digits_of(data.len());
    lemma_digits_of(data.len());
    let q = pos + t.len();
    let enc = enc_bytes(data);
    assert forall|j: int| pos <= j < q implies is_digit(#[trigger] s[j]) by {
        assert(s[j] == s.subrange(pos, pos + enc.len())[j - pos]);
        assert(enc[j - pos] == t[j - pos]);
    }
    assert(s[q] == s.subrange(pos, pos + enc.len())[q - pos]);
    assert(s[q] == 58);
    lemma_digit_run_end(s, pos);
    let k = digit_run_end(s, pos);
    if k < q {
        assert(is_digit(s[k]));
    }
    if k > q {
        assert(is_digit(s[q]));
    }
    assert(s.subrange(pos, q) =~= t);
    assert(s.subrange(q + 1, pos + enc.len()) =~= data) by {
        assert forall|j: int| 0 <= j < data.len() implies s.subrange(q + 1, pos + enc.len())[j] == data[j] by {
            assert(s[q + 1 + j] == s.subrange(pos, pos + enc.len())[q + 1 + j - pos]);
        }
    }
}

/// A length prefix that runs past the end of the input fails with
/// `UnexpectedEndOfInput`.
pub proof fn lemma_byte_string_too_long(s: Seq<u8>, pos: int, n: nat)
    requires
        0 <= pos,
        pos + digits_of(n).len() < s.len() <= usize::MAX,
        s.subrange(pos, pos + digits_of(n).len()) == digits_of(n),
        s[pos + digits_of(n).len()] == 58,
        pos + digits_of(n).len() + 1 + n > s.len(),
    ensures
        bytes_token(s, pos) == Err::<(usize, usize), DecodeError>(
            DecodeError::UnexpectedEndOfInput { offset: s.len() as usize },
        ),
{
    let t = digits_of(n);
    lemma_digits_of(n);
    let q = pos + t.len();
    assert forall|j: int| pos <= j < q implies is_digit(#[trigger] s[j]) by {
        assert(s[j] == s.subrange(pos, q)[j - pos]);
    }
    lemma_digit_run_end(s, pos);
    let k = digit_run_end(s, pos);
    if k < q {
        assert(is_digit(s[k]));
    }
    if k > q {
        assert(is_digit(s[q]));
    }
}

/// Lists nested one level deeper than `MAX_DEPTH` are rejected with
/// `RecursionLimitExceeded` at the list that crosses the limit, whatever
/// follows it.
pub proof fn lemma_nesting_limit(s: Seq<u8>)
    requires
        MAX_DEPTH < s.len() <= usize::MAX,
        forall|i: int| 0 <= i <= MAX_DEPTH ==> #[trigger] s[i] == 108,
    ensures
        value_span(s, 0, 0) == Err::<usize, DecodeError>(
            DecodeError::RecursionLimitExceeded { offset: MAX_DEPTH },
        ),
{
    lemma_nesting_from(s, MAX_DEPTH as int);
    assert(MAX_DEPTH - MAX_DEPTH == 0);
}

proof fn lemma_nesting_from(s: Seq<u8>, j: int)
    requires
        0 <= j <= MAX_DEPTH,
        MAX_DEPTH < s.len() <= usize::MAX,
        forall|i: int| 0 <= i <= MAX_DEPTH ==> #[trigger] s[i] == 108,
    ensures
        value_span(s, MAX_DEPTH - j, (MAX_DEPTH - j) as nat) == Err::<usize, DecodeError>(
            DecodeError::RecursionLimitExceeded { offset: MAX_DEPTH },
        ),
    decreases j,
{
    let p = MAX_DEPTH - j;
    assert(s[p] == 108);
    if j > 0 {
        lemma_nesting_from(s, j - 1);
        assert(s[p + 1] == 108);
        let inner = value_span(s, p + 1, (p + 1) as nat);
        assert(inner == Err::<usize, DecodeError>(
            DecodeError::RecursionLimitExceeded { offset: MAX_DEPTH },
        ));
        assert(items_span(s, p + 1, (p + 1) as nat, false) == inner);
    }
}

pub proof fn lemma_enc_list_front(vs: Seq<Value>)
    requires
        vs.len() > 0,
    ensures
        enc_list(vs) == enc(vs[0]) + enc_list(vs.subrange(1, vs.len() as int)),
    decreases vs.len(),
{
    if vs.len() > 1 {
        let init = vs.subrange(0, vs.len() - 1);
        lemma_enc_list_front(init);
        assert(init.subrange(1, init.len() as int) =~= vs.subrange(1, vs.len() as int).subrange(
            0,
            vs.len() - 2,
        ));
        assert(vs.subrange(1, vs.len() as int)[vs.len() - 2] == vs[vs.len() - 1]);
        assert(init[0] == vs[0]);
    } else {
        assert(vs.subrange(0, 0) =~= Seq::<Value>::empty());
        assert(vs.subrange(1, 1) =~= Seq::<Value>::empty());
    }
}

pub proof fn lemma_enc_dict_front(es: Seq<(Vec<u8>, Value)>)
    requires
        es.len() > 0,
    ensures
        enc_dict(es) == enc_bytes(es[0].0@) + enc(es[0].1) + enc_dict(es.subrange(1, es.len() as int)),
    decreases es.len(),
{
    if es.len() > 1 {
        let init = es.subrange(0, es.len() - 1);
        lemma_enc_dict_front(init);
        assert(init.subrange(1, init.len() as int) =~= es.subrange(1, es.len() as int).subrange(
            0,
            es.len() - 2,
        ));
        assert(es.subrange(1, es.len() as int)[es.len() - 2] == es[es.len() - 1]);
        assert(init[0] == es[0]);
    } else {
        assert(es.subrange(0, 0) =~= Seq::<(Vec<u8>, Value)>::empty());
        assert(es.subrange(1, 1) =~= Seq::<(Vec<u8>, Value)>::empty());
    }
}

proof fn lemma_enc_first(v: Value)
    ensures
        enc(v).len() > 0,
        enc(v)[0] == 105 || enc(v)[0] == 108 || enc(v)[0] == 100 || is_digit(enc(v)[0]),
{
    match v {
        Value::Bytes(b) => {
            lemma_digits_of(b@.len());
            assert(enc(v)[0] == digits_of(b@.len())[0]);
        },
        _ => {},
    }
}

/// Reading the encoding of `v` at `pos` consumes exactly that encoding.
proof fn lemma_span_of_enc(v: Value, s: Seq<u8>, pos: int, d: nat)
    requires
        0 <= pos,
        pos + enc(v).len() <= s.len() <= usize::MAX,
        s.subrange(pos, pos + enc(v).len()) == enc(v),
        fits_depth(v, d),
    ensures
        value_span(s, pos, d) == Ok::<usize, DecodeError>((pos + enc(v).len()) as usize),
    decreases v,
{
    lemma_enc_first(v);
    assert(s[pos] == enc(v)[0]);
    match v {
        Value::Bytes(b) => {
            lemma_byte_string_token(s, pos, b@);
            lemma_digits_of(b@.len());
        },
        Value::Integer(n) => {
            lemma_integer_token(s, pos, n);
        },
        Value::List(items) => {
            let inner = enc_list(items@);
            assert(enc(v) == seq![108u8] + inner + seq![101u8]);
            assert(s.subrange(pos + 1, pos + 1 + inner.len() + 1) =~= inner + seq![101u8]) by {
                assert forall|j: int| 0 <= j < inner.len() + 1 implies s.subrange(
                    pos + 1,
                    pos + 1 + inner.len() + 1,
                )[j] == (inner + seq![101u8])[j] by {
                    assert(s[pos + 1 + j] == s.subrange(pos, pos + enc(v).len())[1 + j]);
                }
            }
            assert(decreases_to!(v => v->List_0));
            lemma_items_list(items@, s, pos + 1, d + 1);
        },
        Value::Dict(entries) => {
            let inner = enc_dict(entries@);
            assert(enc(v) == seq![100u8] + inner + seq![101u8]);
            assert(s.subrange(pos + 1, pos + 1 + inner.len() + 1) =~= inner + seq![101u8]) by {
                assert forall|j: int| 0 <= j < inner.len() + 1 implies s.subrange(
                    pos + 1,
                    pos + 1 + inner.len() + 1,
                )[j] == (inner + seq![101u8])[j] by {
                    assert(s[pos + 1 + j] == s.subrange(pos, pos + enc(v).len())[1 + j]);
                }
            }
            assert(decreases_to!(v => v->Dict_0));
            lemma_items_dict(entries@, s, pos + 1, d + 1);
        },
    }
}

proof fn lemma_items_list(vs: Seq<Value>, s: Seq<u8>, p: int, d: nat)
    requires
        0 <= p,
        p + enc_list(vs).len() + 1 <= s.len() <= usize::MAX,
        s.subrange(p, p + enc_list(vs).len() + 1) == enc_list(vs) + seq![101u8],
        fits_list(vs, d),
    ensures
        items_span(s, p, d, false) == Ok::<usize, DecodeError>((p + enc_list(vs).len() + 1) as usize),
    decreases vs,
{
    let whole = enc_list(vs) + seq![101u8];
    assert(s[p] == s.subrange(p, p + whole.len())[0]);
    if vs.len() == 0 {
        assert(s[p] == 101);
    } else {
        let first = vs[0];
        let rest = vs.subrange(1, vs.len() as int);
        lemma_enc_list_front(vs);
        lemma_enc_first(first);
        let n = enc(first).len();
        assert(s.subrange(p, p + n) =~= enc(first)) by {
            assert forall|j: int| 0 <= j < n implies s.subrange(p, p + n)[j] == enc(first)[j] by {
                assert(s[p + j] == s.subrange(p, p + whole.len())[j]);
                assert(whole[j] == enc(first)[j]);
            }
        }
        let rl = enc_list(rest).len();
        assert(s.subrange(p + n, p + n + rl + 1) =~= enc_list(rest) + seq![101u8]) by {
            assert forall|j: int| 0 <= j < rl + 1 implies s.subrange(p + n, p + n + rl + 1)[j] == (
            enc_list(rest) + seq![101u8])[j] by {
                assert(s[p + n + j] == s.subrange(p, p + whole.len())[n + j]);
            }
        }
        assert(s[p] == enc(first)[0]);
        lemma_span_of_enc(first, s, p, d);
        lemma_items_list(rest, s, p + n, d);
    }
}

proof fn lemma_items_dict(es: Seq<(Vec<u8>, Value)>, s: Seq<u8>, p: int, d: nat)
    requires
        0 <= p,
        p + enc_dict(es).len() + 1 <= s.len() <= usize::MAX,
        s.subrange(p, p + enc_dict(es).len() + 1) == enc_dict(es) + seq![101u8],
        fits_dict(es, d),
    ensures
        items_span(s, p, d, true) == Ok::<usize, DecodeError>((p + enc_dict(es).len() + 1) as usize),
    decreases es,
{
    let whole = enc_dict(es) + seq![101u8];
    assert(s[p] == s.subrange(p, p + whole.len())[0]);
    if es.len() == 0 {
        assert(s[p] == 101);
    } else {
        let key = es[0].0@;
        let val = es[0].1;
        let rest = es.subrange(1, es.len() as int);
        lemma_enc_dict_front(es);
        lemma_digits_of(key.len());
        let kn = enc_bytes(key).len();
        let n = enc(val).len();
        assert(s.subrange(p, p + kn) =~= enc_bytes(key)) by {
            assert forall|j: int| 0 <= j < kn implies s.subrange(p, p + kn)[j] == enc_bytes(key)[j] by {
                assert(s[p + j] == s.subrange(p, p + whole.len())[j]);
                assert(whole[j] == enc_bytes(key)[j]);
            }
        }
        assert(s.subrange(p + kn, p + kn + n) =~= enc(val)) by {
            assert forall|j: int| 0 <= j < n implies s.subrange(p + kn, p + kn + n)[j] == enc(val)[j] by {
                assert(s[p + kn + j] == s.subrange(p, p + whole.len())[kn + j]);
                assert(whole[kn + j] == enc(val)[j]);
            }
        }
        let rl = enc_dict(rest).len();
        assert(s.subrange(p + kn + n, p + kn + n + rl + 1) =~= enc_dict(rest) + seq![101u8]) by {
            assert forall|j: int| 0 <= j < rl + 1 implies s.subrange(p + kn + n, p + kn + n + rl + 1)[j]
                == (enc_dict(rest) + seq![101u8])[j] by {
                assert(s[p + kn + n + j] == s.subrange(p, p + whole.len())[kn + n + j]);
            }
        }
        assert(s[p] == enc_bytes(key)[0]);
        assert(enc_bytes(key)[0] == digits_of(key.len())[0]);
        lemma_byte_string_token(s, p, key);
        assert(decreases_to!(es => es[0]));
        assert(decreases_to!(es[0] => es[0].1));
        lemma_span_of_enc(val, s, p + kn, d);
        lemma_items_dict(rest, s, p + kn + n, d);
    }
}

/// Every value within the nesting limit is read back from its own encoding:
/// the decoder consumes exactly the encoded bytes, whatever follows them.
pub proof fn lemma_value_round_trip(v: Value, s: Seq<u8>)
    requires
        enc(v).len() <= s.len() <= usize::MAX,
        s.subrange(0, enc(v).len() as int) == enc(v),
        fits_depth(v, 0),
    ensures
        value_span(s, 0, 0) == Ok::<usize, DecodeError>(enc(v).len() as usize),
{
    lemma_span_of_enc(v, s, 0, 0);
}

/// A value that the decoder read from any input is read again, as a whole,
/// from its re-encoding; by the decoder's contract the value read the second
/// time has the same encoding as the first.
pub proof fn lemma_decode_reencode(s: Seq<u8>, v: Value)
    requires
        s.len() <= usize::MAX,
        value_span(s, 0, 0) matches Ok(e) && e <= s.len() && s.subrange(0, e as int) == enc(v),
        fits_depth(v, 0),
    ensures
        value_span(enc(v), 0, 0) == Ok::<usize, DecodeError>(enc(v).len() as usize),
{
    assert(enc(v).subrange(0, enc(v).len() as int) =~= enc(v));
    lemma_value_round_trip(v, enc(v));
}

} // verus!
