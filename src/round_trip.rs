//! Reading back what the encoder writes.
use vstd::prelude::*;
use vstd::seq_lib::lemma_concat_associative;
use vstd::utf8::{
    encode_utf8, encode_utf8_decode_utf8, encode_utf8_valid_utf8, is_ascii_chars,
    is_ascii_chars_encode_utf8,
};
use crate::encode::{
    decimal_entry, decimal_ok, enc_info, enc_meta, encodable, opt_list_entry, opt_text_entry,
    text_entry, text_list_bytes,
};
use crate::error::Field;
use crate::fields::{
    all_bytes, decimal_of, field_key, field_of, fits, last_value, text_of, text_of_bytes, texts_of,
    unknown_fields,
};
use crate::info::{first_info_error, info_built, info_error, Info};
use crate::laws::{
    lemma_byte_string_token, lemma_enc_dict_front, lemma_enc_list_front, lemma_int_text_value,
    lemma_integer_token,
};
use crate::meta_info::{
    first_meta_error, leading_value, meta_built, meta_entry_error, meta_error, MetaInfo,
};
use crate::reader::{int_text_value, is_digit};
use crate::value::{
    digits_of, enc, enc_bytes, enc_dict, enc_int, enc_list, int_text, lemma_digits_of,
    lemma_int_text_inverse, value_span, Value,
};

verus! {

proof fn lemma_enc_kind(w: Value)
    ensures
        enc(w).len() > 0,
        enc(w)[0] == 105 <==> w is Integer,
        enc(w)[0] == 108 <==> w is List,
        enc(w)[0] == 100 <==> w is Dict,
        is_digit(enc(w)[0]) <==> w is Bytes,
{
    if let Value::Bytes(b) = w {
        lemma_digits_of(b@.len());
        assert(enc(w)[0] == digits_of(b@.len())[0]);
    }
}

proof fn lemma_enc_bytes_first(t: Seq<u8>)
    ensures
        enc_bytes(t).len() > 0,
        is_digit(enc_bytes(t)[0]),
{
    lemma_digits_of(t.len());
    assert(enc_bytes(t)[0] == digits_of(t.len())[0]);
}

/// Two byte-string tokens that start the same bytes are the same token.
proof fn lemma_bytes_prefix(a: Seq<u8>, x: Seq<u8>, b: Seq<u8>, y: Seq<u8>)
    requires
        enc_bytes(a) + x == enc_bytes(b) + y,
        (enc_bytes(a) + x).len() <= usize::MAX,
    ensures
        a == b,
        x == y,
{
    let s = enc_bytes(a) + x;
    assert(s.subrange(0, enc_bytes(a).len() as int) =~= enc_bytes(a));
    assert(s.subrange(0, enc_bytes(b).len() as int) =~= enc_bytes(b));
    lemma_byte_string_token(s, 0, a);
    lemma_byte_string_token(s, 0, b);
    assert(x =~= s.subrange(enc_bytes(a).len() as int, s.len() as int));
    assert(y =~= s.subrange(enc_bytes(b).len() as int, s.len() as int));
}

proof fn lemma_value_bytes_prefix(w: Value, x: Seq<u8>, t: Seq<u8>, y: Seq<u8>)
    requires
        enc(w) + x == enc_bytes(t) + y,
        (enc(w) + x).len() <= usize::MAX,
    ensures
        w is Bytes,
        w->Bytes_0@ == t,
        x == y,
{
    lemma_enc_kind(w);
    lemma_enc_bytes_first(t);
    assert((enc(w) + x)[0] == enc(w)[0]);
    assert((enc_bytes(t) + y)[0] == enc_bytes(t)[0]);
    lemma_bytes_prefix(w->Bytes_0@, x, t, y);
}

proof fn lemma_value_int_prefix(w: Value, x: Seq<u8>, n: i64, y: Seq<u8>)
    requires
        enc(w) + x == enc_int(n as int) + y,
        (enc(w) + x).len() <= usize::MAX,
    ensures
        w == Value::Integer(n),
        x == y,
{
    lemma_enc_kind(w);
    let s = enc(w) + x;
    assert(s[0] == enc(w)[0]);
    assert((enc_int(n as int) + y)[0] == 105);
    let m = w->Integer_0;
    assert(s.subrange(0, enc_int(m as int).len() as int) =~= enc_int(m as int));
    assert(s.subrange(0, enc_int(n as int).len() as int) =~= enc_int(n as int));
    lemma_integer_token(s, 0, m);
    lemma_integer_token(s, 0, n);
    assert(x =~= s.subrange(enc_int(n as int).len() as int, s.len() as int));
    assert(y =~= s.subrange(enc_int(n as int).len() as int, s.len() as int));
}

/// The first entry of a dictionary whose bytes start with a given key.
proof fn lemma_dict_peel(es: Seq<(Vec<u8>, Value)>, z: Seq<u8>, k: Seq<u8>, r: Seq<u8>)
    requires
        enc_dict(es) + z == enc_bytes(k) + r,
        z.len() > 0 && z[0] == 101,
        (enc_dict(es) + z).len() <= usize::MAX,
    ensures
        es.len() > 0,
        es[0].0@ == k,
        enc(es[0].1) + (enc_dict(es.subrange(1, es.len() as int)) + z) == r,
{
    lemma_enc_bytes_first(k);
    if es.len() == 0 {
        assert(enc_dict(es) + z =~= z);
        assert((enc_bytes(k) + r)[0] == enc_bytes(k)[0]);
    } else {
        lemma_enc_dict_front(es);
        let rest = es.subrange(1, es.len() as int);
        assert(enc_dict(es) + z =~= enc_bytes(es[0].0@) + (enc(es[0].1) + (enc_dict(rest) + z)));
        lemma_bytes_prefix(es[0].0@, enc(es[0].1) + (enc_dict(rest) + z), k, r);
    }
}

/// A dictionary whose bytes end where the expected ones do has no more entries.
proof fn lemma_dict_end(es: Seq<(Vec<u8>, Value)>, z: Seq<u8>, y: Seq<u8>)
    requires
        enc_dict(es) + z == y,
        z.len() > 0 && z[0] == 101,
        y.len() > 0 && y[0] == 101,
    ensures
        es.len() == 0,
        z == y,
{
    if es.len() > 0 {
        lemma_enc_dict_front(es);
        lemma_enc_bytes_first(es[0].0@);
        assert(y[0] == enc_bytes(es[0].0@)[0]);
    } else {
        assert(enc_dict(es) + z =~= z);
    }
}

/// Whether two `Info` values hold the same fields.
pub open spec fn same_info(a: Info, b: Info) -> bool {
    &&& a.piece_length@ == b.piece_length@
    &&& a.pieces@ == b.pieces@
    &&& a.name@ == b.name@
    &&& match (a.file_length, b.file_length) {
        (None, None) => true,
        (Some(x), Some(y)) => x@ == y@,
        _ => false,
    }
    &&& a.other_fields.deep_view() == b.other_fields.deep_view()
}

proof fn lemma_text_round_trip(t: Seq<char>)
    ensures
        text_of_bytes(encode_utf8(t)) == t,
{
    encode_utf8_valid_utf8(t);
    encode_utf8_decode_utf8(t);
}

proof fn lemma_decimal_round_trip(t: Seq<char>) -> (n: i64)
    requires
        decimal_ok(t),
    ensures
        int_text(n as int) == encode_utf8(t),
        text_of_bytes(int_text(n as int)) == t,
{
    let k = int_text_value(encode_utf8(t)).unwrap();
    lemma_int_text_inverse(encode_utf8(t));
    lemma_text_round_trip(t);
    k as i64
}

/// The entries after the optional `length`: `name`, `piece length`, `pieces`.
#[verifier::rlimit(100)]
proof fn lemma_info_tail(es: Seq<(Vec<u8>, Value)>, z: Seq<u8>, info: Info, y: Seq<u8>)
    requires
        enc_dict(es) + z == text_entry(Field::Name, info.name@) + decimal_entry(
            Field::PieceLength,
            info.piece_length@,
        ) + enc_bytes(field_key(Field::Pieces)) + enc_bytes(info.pieces@) + seq![101u8] + y,
        z.len() > 0 && z[0] == 101,
        (enc_dict(es) + z).len() <= usize::MAX,
        decimal_ok(info.piece_length@),
    ensures
        es.len() == 3,
        es[0].0@ == field_key(Field::Name),
        es[0].1 is Bytes && text_of(es[0].1) == info.name@,
        es[1].0@ == field_key(Field::PieceLength),
        es[1].1 is Integer && decimal_of(es[1].1) == info.piece_length@,
        es[2].0@ == field_key(Field::Pieces),
        es[2].1 is Bytes && es[2].1->Bytes_0@ == info.pieces@,
        z == seq![101u8] + y,
{
    let n = lemma_decimal_round_trip(info.piece_length@);
    lemma_text_round_trip(info.name@);
    let tail_pl = enc_bytes(field_key(Field::PieceLength)) + enc_int(n as int) + enc_bytes(
        field_key(Field::Pieces),
    ) + enc_bytes(info.pieces@) + seq![101u8] + y;
    assert(decimal_entry(Field::PieceLength, info.piece_length@) =~= enc_bytes(field_key(Field::PieceLength)) + enc_int(n as int));
    // name
    assert(enc_dict(es) + z =~= enc_bytes(field_key(Field::Name)) + (enc_bytes(encode_utf8(info.name@)) + tail_pl));
    lemma_dict_peel(es, z, field_key(Field::Name), enc_bytes(encode_utf8(info.name@)) + tail_pl);
    let es1 = es.subrange(1, es.len() as int);
    lemma_value_bytes_prefix(es[0].1, enc_dict(es1) + z, encode_utf8(info.name@), tail_pl);
    // piece length
    let tail_pieces = enc_bytes(field_key(Field::Pieces)) + enc_bytes(info.pieces@) + seq![101u8] + y;
    assert(tail_pl =~= enc_bytes(field_key(Field::PieceLength)) + (enc_int(n as int) + tail_pieces));
    lemma_dict_peel(es1, z, field_key(Field::PieceLength), enc_int(n as int) + tail_pieces);
    let es2 = es1.subrange(1, es1.len() as int);
    lemma_value_int_prefix(es1[0].1, enc_dict(es2) + z, n, tail_pieces);
    // pieces
    let tail_end = seq![101u8] + y;
    assert(tail_pieces =~= enc_bytes(field_key(Field::Pieces)) + (enc_bytes(info.pieces@) + tail_end));
    lemma_dict_peel(es2, z, field_key(Field::Pieces), enc_bytes(info.pieces@) + tail_end);
    let es3 = es2.subrange(1, es2.len() as int);
    lemma_value_bytes_prefix(es2[0].1, enc_dict(es3) + z, info.pieces@, tail_end);
    lemma_dict_end(es3, z, tail_end);
    assert(es1[0] == es[1]);
    assert(es2[0] == es[2]);
}

/// Distinct fields have distinct keys.
proof fn lemma_info_keys_distinct()
    ensures
        field_key(Field::Length) != field_key(Field::Name),
        field_key(Field::Length) != field_key(Field::PieceLength),
        field_key(Field::Length) != field_key(Field::Pieces),
        field_key(Field::Name) != field_key(Field::PieceLength),
        field_key(Field::Name) != field_key(Field::Pieces),
        field_key(Field::PieceLength) != field_key(Field::Pieces),
{
    assert(field_key(Field::Length)[0] != field_key(Field::Pieces)[0]);
    assert(field_key(Field::Length).len() != field_key(Field::Name).len());
    assert(field_key(Field::Length).len() != field_key(Field::PieceLength).len());
    assert(field_key(Field::Name).len() != field_key(Field::PieceLength).len());
    assert(field_key(Field::Name).len() != field_key(Field::Pieces).len());
    assert(field_key(Field::PieceLength).len() != field_key(Field::Pieces).len());
}

/// What the entries `name`, `piece length`, `pieces` at `off..off + 3`
/// (and nothing after them) say of `info`.
pub open spec fn info_tail_entries(es: Seq<(Vec<u8>, Value)>, off: int, info: Info) -> bool {
    &&& es.len() == off + 3
    &&& es[off].0@ == field_key(Field::Name)
    &&& es[off].1 is Bytes && text_of(es[off].1) == info.name@
    &&& es[off + 1].0@ == field_key(Field::PieceLength)
    &&& es[off + 1].1 is Integer && decimal_of(es[off + 1].1) == info.piece_length@
    &&& es[off + 2].0@ == field_key(Field::Pieces)
    &&& es[off + 2].1 is Bytes && es[off + 2].1->Bytes_0@ == info.pieces@
}

proof fn lemma_info_facts_without_length(es: Seq<(Vec<u8>, Value)>, info: Info)
    requires
        info_tail_entries(es, 0, info),
        info.file_length is None,
        info.other_fields@.len() == 0,
    ensures
        info_error(es) is None,
        forall|i2: Info| #[trigger] info_built(i2, es) ==> same_info(i2, info),
{
    lemma_info_keys_distinct();
    assert(info.other_fields.deep_view() =~= Seq::<(Seq<char>, Seq<char>)>::empty());
    let e2 = es.drop_last();
    let e1 = e2.drop_last();
    let e0 = e1.drop_last();
    assert(e0 =~= Seq::<(Vec<u8>, Value)>::empty());
    assert(e1.last() == es[0] && e2.last() == es[1] && es.last() == es[2]);
    assert(field_of(es[0].0@, false) == Some(Field::Name));
    assert(field_of(es[1].0@, false) == Some(Field::PieceLength));
    assert(field_of(es[2].0@, false) == Some(Field::Pieces));
    assert(first_info_error(e0) is None);
    assert(unknown_fields(e0, false) =~= Seq::<(Seq<char>, Seq<char>)>::empty());
    assert(first_info_error(e1) is None);
    assert(first_info_error(e2) is None);
    assert(first_info_error(es) is None);
    assert(unknown_fields(e1, false) =~= Seq::<(Seq<char>, Seq<char>)>::empty());
    assert(unknown_fields(e2, false) =~= Seq::<(Seq<char>, Seq<char>)>::empty());
    assert(unknown_fields(es, false) =~= Seq::<(Seq<char>, Seq<char>)>::empty());
    assert(last_value(e0, field_key(Field::Length)) is None);
    assert(last_value(e1, field_key(Field::Length)) is None);
    assert(last_value(e2, field_key(Field::Length)) is None);
    assert(last_value(es, field_key(Field::Length)) is None);
    assert(last_value(e1, field_key(Field::Name)) == Some(es[0].1));
    assert(last_value(e2, field_key(Field::Name)) == Some(es[0].1));
    assert(last_value(es, field_key(Field::Name)) == Some(es[0].1));
    assert(last_value(e2, field_key(Field::PieceLength)) == Some(es[1].1));
    assert(last_value(es, field_key(Field::PieceLength)) == Some(es[1].1));
    assert(last_value(es, field_key(Field::Pieces)) == Some(es[2].1));
}

proof fn lemma_info_facts_with_length(es: Seq<(Vec<u8>, Value)>, info: Info)
    requires
        info_tail_entries(es, 1, info),
        es[0].0@ == field_key(Field::Length),
        es[0].1 is Integer,
        info.file_length matches Some(t) && decimal_of(es[0].1) == t@,
        info.other_fields@.len() == 0,
    ensures
        info_error(es) is None,
        forall|i2: Info| #[trigger] info_built(i2, es) ==> same_info(i2, info),
{
    lemma_info_keys_distinct();
    assert(info.other_fields.deep_view() =~= Seq::<(Seq<char>, Seq<char>)>::empty());
    let e3 = es.drop_last();
    let e2 = e3.drop_last();
    let e1 = e2.drop_last();
    let e0 = e1.drop_last();
    assert(e0 =~= Seq::<(Vec<u8>, Value)>::empty());
    assert(e1.last() == es[0] && e2.last() == es[1] && e3.last() == es[2] && es.last() == es[3]);
    assert(field_of(es[0].0@, false) == Some(Field::Length));
    assert(field_of(es[1].0@, false) == Some(Field::Name));
    assert(field_of(es[2].0@, false) == Some(Field::PieceLength));
    assert(field_of(es[3].0@, false) == Some(Field::Pieces));
    assert(first_info_error(e0) is None);
    assert(unknown_fields(e0, false) =~= Seq::<(Seq<char>, Seq<char>)>::empty());
    assert(first_info_error(e1) is None);
    assert(first_info_error(e2) is None);
    assert(first_info_error(e3) is None);
    assert(first_info_error(es) is None);
    assert(unknown_fields(e1, false) =~= Seq::<(Seq<char>, Seq<char>)>::empty());
    assert(unknown_fields(e2, false) =~= Seq::<(Seq<char>, Seq<char>)>::empty());
    assert(unknown_fields(e3, false) =~= Seq::<(Seq<char>, Seq<char>)>::empty());
    assert(unknown_fields(es, false) =~= Seq::<(Seq<char>, Seq<char>)>::empty());
    assert(last_value(e1, field_key(Field::Length)) == Some(es[0].1));
    assert(last_value(e2, field_key(Field::Length)) == Some(es[0].1));
    assert(last_value(e3, field_key(Field::Length)) == Some(es[0].1));
    assert(last_value(es, field_key(Field::Length)) == Some(es[0].1));
    assert(last_value(e0, field_key(Field::Name)) is None);
    assert(last_value(e1, field_key(Field::Name)) is None);
    assert(last_value(e2, field_key(Field::Name)) == Some(es[1].1));
    assert(last_value(e3, field_key(Field::Name)) == Some(es[1].1));
    assert(last_value(es, field_key(Field::Name)) == Some(es[1].1));
    assert(last_value(e3, field_key(Field::PieceLength)) == Some(es[2].1));
    assert(last_value(es, field_key(Field::PieceLength)) == Some(es[2].1));
    assert(last_value(es, field_key(Field::Pieces)) == Some(es[3].1));
}

/// The dictionary that the encoding of an `Info` is read as: its entries in
/// order, and the bytes after it.
#[verifier::rlimit(100)]
proof fn lemma_info_entries(info: Info, w: Value, x: Seq<u8>, y: Seq<u8>)
    requires
        enc(w) + x == enc_info(info) + y,
        (enc(w) + x).len() <= usize::MAX,
        decimal_ok(info.piece_length@),
        info.file_length matches Some(t) ==> decimal_ok(t@),
    ensures
        w is Dict,
        info.file_length is None ==> info_tail_entries(w->Dict_0@, 0, info),
        info.file_length is Some ==> info_tail_entries(w->Dict_0@, 1, info) && w->Dict_0@[0].0@
            == field_key(Field::Length) && w->Dict_0@[0].1 is Integer && decimal_of(w->Dict_0@[0].1)
            == info.file_length->Some_0@,
        x == y,
{
    lemma_enc_kind(w);
    assert((enc(w) + x)[0] == enc(w)[0]);
    assert((enc_info(info) + y)[0] == 100);
    let es = w->Dict_0@;
    let z = seq![101u8] + x;
    let after = text_entry(Field::Name, info.name@) + decimal_entry(Field::PieceLength, info.piece_length@)
        + enc_bytes(field_key(Field::Pieces)) + enc_bytes(info.pieces@) + seq![101u8] + y;
    let lead = match info.file_length {
        Some(t) => decimal_entry(Field::Length, t@),
        None => Seq::<u8>::empty(),
    };
    assert(enc(w) + x =~= seq![100u8] + (enc_dict(es) + z));
    assert(enc_info(info) + y =~= seq![100u8] + (lead + after));
    assert(enc_dict(es) + z =~= (seq![100u8] + (enc_dict(es) + z)).drop_first());
    assert(lead + after =~= (seq![100u8] + (lead + after)).drop_first());
    match info.file_length {
        Some(t) => {
            let n = lemma_decimal_round_trip(t@);
            assert(lead =~= enc_bytes(field_key(Field::Length)) + enc_int(n as int));
            assert(enc_dict(es) + z =~= enc_bytes(field_key(Field::Length)) + (enc_int(n as int) + after));
            lemma_dict_peel(es, z, field_key(Field::Length), enc_int(n as int) + after);
            let es1 = es.subrange(1, es.len() as int);
            lemma_value_int_prefix(es[0].1, enc_dict(es1) + z, n, after);
            lemma_info_tail(es1, z, info, y);
            assert(es1[0] == es[1] && es1[1] == es[2] && es1[2] == es[3]);
        },
        None => {
            assert(lead + after =~= after);
            lemma_info_tail(es, z, info, y);
        },
    }
    assert(x =~= z.drop_first());
    assert(y =~= (seq![101u8] + y).drop_first());
}

/// An `Info` with no unrecognised fields, whose integer fields hold decimal
/// texts of signed 64-bit integers, is rebuilt field for field from the
/// dictionary that its encoding is read as.
pub proof fn lemma_info_round_trip(info: Info, w: Value, x: Seq<u8>, y: Seq<u8>)
    requires
        enc(w) + x == enc_info(info) + y,
        (enc(w) + x).len() <= usize::MAX,
        decimal_ok(info.piece_length@),
        info.file_length matches Some(t) ==> decimal_ok(t@),
        info.other_fields@.len() == 0,
    ensures
        w is Dict,
        info_error(w->Dict_0@) is None,
        forall|i2: Info| #[trigger] info_built(i2, w->Dict_0@) ==> same_info(i2, info),
        x == y,
{
    lemma_info_entries(info, w, x, y);
    if info.file_length is Some {
        lemma_info_facts_with_length(w->Dict_0@, info);
    } else {
        lemma_info_facts_without_length(w->Dict_0@, info);
    }
}

proof fn lemma_text_list_front(ts: Seq<Seq<char>>)
    requires
        ts.len() > 0,
    ensures
        text_list_bytes(ts) == enc_bytes(encode_utf8(ts[0])) + text_list_bytes(
            ts.subrange(1, ts.len() as int),
        ),
    decreases ts.len(),
{
    if ts.len() > 1 {
        let init = ts.drop_last();
        lemma_text_list_front(init);
        assert(init.subrange(1, init.len() as int) =~= ts.subrange(1, ts.len() as int).drop_last());
        assert(ts.subrange(1, ts.len() as int).last() == ts.last());
    } else {
        assert(ts.drop_last() =~= Seq::<Seq<char>>::empty());
        assert(ts.subrange(1, 1) =~= Seq::<Seq<char>>::empty());
    }
}

/// List items whose bytes are those of a list of texts are those texts.
proof fn lemma_items_texts(vs: Seq<Value>, z: Seq<u8>, ts: Seq<Seq<char>>, y: Seq<u8>)
    requires
        enc_list(vs) + z == text_list_bytes(ts) + y,
        z.len() > 0 && z[0] == 101,
        y.len() > 0 && y[0] == 101,
        (enc_list(vs) + z).len() <= usize::MAX,
    ensures
        all_bytes(vs),
        texts_of(vs) == ts,
        z == y,
    decreases ts.len(),
{
    if ts.len() == 0 {
        assert(text_list_bytes(ts) + y =~= y);
        if vs.len() > 0 {
            lemma_enc_list_front(vs);
            lemma_enc_kind(vs[0]);
            assert((enc_list(vs) + z)[0] == enc(vs[0])[0]);
        } else {
            assert(enc_list(vs) + z =~= z);
        }
        assert(texts_of(vs) =~= ts);
    } else {
        lemma_text_list_front(ts);
        let trest = ts.subrange(1, ts.len() as int);
        lemma_enc_bytes_first(encode_utf8(ts[0]));
        if vs.len() == 0 {
            assert(enc_list(vs) + z =~= z);
            assert((text_list_bytes(ts) + y)[0] == enc_bytes(encode_utf8(ts[0]))[0]);
        } else {
            lemma_enc_list_front(vs);
            let vrest = vs.subrange(1, vs.len() as int);
            assert(enc_list(vs) + z =~= enc(vs[0]) + (enc_list(vrest) + z));
            assert(text_list_bytes(ts) + y =~= enc_bytes(encode_utf8(ts[0])) + (
            text_list_bytes(trest) + y));
            lemma_value_bytes_prefix(vs[0], enc_list(vrest) + z, encode_utf8(ts[0]), text_list_bytes(trest) + y);
            lemma_items_texts(vrest, z, trest, y);
            lemma_text_round_trip(ts[0]);
            assert forall|i: int| 0 <= i < vs.len() implies #[trigger] vs[i] is Bytes by {
                if i > 0 {
                    assert(vs[i] == vrest[i - 1]);
                }
            }
            assert(texts_of(vs) =~= ts) by {
                assert forall|i: int| 0 <= i < vs.len() implies texts_of(vs)[i] == ts[i] by {
                    if i > 0 {
                        assert(vs[i] == vrest[i - 1]);
                        assert(texts_of(vrest)[i - 1] == trest[i - 1]);
                    }
                }
            }
        }
    }
}

/// A value whose bytes start as a list of texts is that list.
proof fn lemma_value_text_list_prefix(w: Value, x: Seq<u8>, ts: Seq<Seq<char>>, y: Seq<u8>)
    requires
        enc(w) + x == seq![108u8] + text_list_bytes(ts) + seq![101u8] + y,
        (enc(w) + x).len() <= usize::MAX,
    ensures
        w is List,
        all_bytes(w->List_0@),
        texts_of(w->List_0@) == ts,
        x == y,
{
    lemma_enc_kind(w);
    assert((enc(w) + x)[0] == enc(w)[0]);
    let vs = w->List_0@;
    let z = seq![101u8] + x;
    let yy = seq![101u8] + y;
    assert(enc(w) + x =~= seq![108u8] + (enc_list(vs) + z));
    assert(seq![108u8] + text_list_bytes(ts) + seq![101u8] + y =~= seq![108u8] + (
    text_list_bytes(ts) + yy));
    assert(enc_list(vs) + z =~= (seq![108u8] + (enc_list(vs) + z)).drop_first());
    assert(text_list_bytes(ts) + yy =~= (seq![108u8] + (text_list_bytes(ts) + yy)).drop_first());
    lemma_items_texts(vs, z, ts, yy);
    assert(x =~= z.drop_first());
    assert(y =~= yy.drop_first());
}

/// The top-level fields in the order in which the encoder writes them.
pub open spec fn meta_order() -> Seq<Field> {
    seq![
        Field::Announce,
        Field::AnnounceList,
        Field::Comment,
        Field::CreatedBy,
        Field::CreationDate,
        Field::Encoding,
        Field::HttpSeeds,
        Field::Info,
    ]
}

/// Whether the encoder writes field `f` of `m`.
pub open spec fn written(f: Field, m: MetaInfo) -> bool {
    match f {
        Field::Announce | Field::Info => true,
        Field::AnnounceList => m.announce_list is Some,
        Field::Comment => m.comment is Some,
        Field::CreatedBy => m.created_by is Some,
        Field::CreationDate => m.creation_date is Some,
        Field::Encoding => m.encoding is Some,
        Field::HttpSeeds => m.http_seeds is Some,
        _ => false,
    }
}

/// The bytes that the encoder writes for field `f` of `m`.
pub open spec fn entry_bytes(m: MetaInfo, f: Field) -> Seq<u8> {
    match f {
        Field::Announce => text_entry(Field::Announce, m.announce@),
        Field::AnnounceList => opt_list_entry(Field::AnnounceList, m.announce_list),
        Field::Comment => opt_text_entry(Field::Comment, m.comment),
        Field::CreatedBy => opt_text_entry(Field::CreatedBy, m.created_by),
        Field::CreationDate => match m.creation_date {
            Some(d) => enc_bytes(field_key(Field::CreationDate)) + seq![105u8] + digits_of(d as nat)
                + seq![101u8],
            None => Seq::empty(),
        },
        Field::Encoding => opt_text_entry(Field::Encoding, m.encoding),
        Field::HttpSeeds => opt_list_entry(Field::HttpSeeds, m.http_seeds),
        _ => enc_bytes(field_key(Field::Info)) + enc_info(m.info),
    }
}

/// The bytes of the entries from position `p` of `meta_order()` on, the
/// closing `e`, then `y`.
pub open spec fn meta_tail(m: MetaInfo, p: int, y: Seq<u8>) -> Seq<u8>
    decreases 8 - p,
{
    if p >= 8 {
        seq![101u8] + y
    } else {
        entry_bytes(m, meta_order()[p]) + meta_tail(m, p + 1, y)
    }
}

/// The fields among the first `p` of `meta_order()` that are written.
pub open spec fn chosen(m: MetaInfo, p: int) -> Seq<Field>
    decreases p,
{
    if p <= 0 {
        Seq::empty()
    } else if written(meta_order()[p - 1], m) {
        chosen(m, p - 1).push(meta_order()[p - 1])
    } else {
        chosen(m, p - 1)
    }
}

/// What entry `e` of the decoded dictionary says of field `f` of `m`.
pub open spec fn entry_for(e: (Vec<u8>, Value), f: Field, m: MetaInfo) -> bool {
    e.0@ == field_key(f) && entry_value_for(e.1, f, m)
}

/// What value `w` of field `f` says of `m`.
pub open spec fn entry_value_for(w: Value, f: Field, m: MetaInfo) -> bool {
    match f {
        Field::Announce => w is Bytes && text_of(w) == m.announce@,
        Field::Comment => (m.comment matches Some(t) && w is Bytes && text_of(w) == t@),
        Field::CreatedBy => (m.created_by matches Some(t) && w is Bytes && text_of(w) == t@),
        Field::Encoding => (m.encoding matches Some(t) && w is Bytes && text_of(w) == t@),
        Field::AnnounceList => (m.announce_list matches Some(l) && w is List && all_bytes(w->List_0@)
            && texts_of(w->List_0@) == l.deep_view()),
        Field::HttpSeeds => (m.http_seeds matches Some(l) && w is List && all_bytes(w->List_0@)
            && texts_of(w->List_0@) == l.deep_view()),
        Field::CreationDate => (m.creation_date matches Some(d) && d <= i64::MAX && w == Value::Integer(
            d as i64,
        )),
        Field::Info => w is Dict && info_error(w->Dict_0@) is None && forall|i2: Info|
            #[trigger] info_built(i2, w->Dict_0@) ==> same_info(i2, m.info),
        _ => false,
    }
}

proof fn lemma_peel_text(es: Seq<(Vec<u8>, Value)>, z: Seq<u8>, f: Field, t: Seq<char>, r: Seq<u8>)
    requires
        enc_dict(es) + z == text_entry(f, t) + r,
        z.len() > 0 && z[0] == 101,
        (enc_dict(es) + z).len() <= usize::MAX,
    ensures
        es.len() > 0,
        es[0].0@ == field_key(f),
        es[0].1 is Bytes && text_of(es[0].1) == t,
        enc_dict(es.subrange(1, es.len() as int)) + z == r,
{
    assert(text_entry(f, t) + r =~= enc_bytes(field_key(f)) + (enc_bytes(encode_utf8(t)) + r));
    lemma_dict_peel(es, z, field_key(f), enc_bytes(encode_utf8(t)) + r);
    let rest = es.subrange(1, es.len() as int);
    lemma_value_bytes_prefix(es[0].1, enc_dict(rest) + z, encode_utf8(t), r);
    lemma_text_round_trip(t);
}

proof fn lemma_peel_list(es: Seq<(Vec<u8>, Value)>, z: Seq<u8>, f: Field, l: Vec<String>, r: Seq<u8>)
    requires
        enc_dict(es) + z == opt_list_entry(f, Some(l)) + r,
        z.len() > 0 && z[0] == 101,
        (enc_dict(es) + z).len() <= usize::MAX,
    ensures
        es.len() > 0,
        es[0].0@ == field_key(f),
        es[0].1 is List && all_bytes(es[0].1->List_0@) && texts_of(es[0].1->List_0@) == l.deep_view(),
        enc_dict(es.subrange(1, es.len() as int)) + z == r,
{
    let body = seq![108u8] + text_list_bytes(l.deep_view()) + seq![101u8];
    assert(opt_list_entry(f, Some(l)) + r =~= enc_bytes(field_key(f)) + (body + r));
    lemma_dict_peel(es, z, field_key(f), body + r);
    let rest = es.subrange(1, es.len() as int);
    assert(body + r =~= seq![108u8] + text_list_bytes(l.deep_view()) + seq![101u8] + r);
    lemma_value_text_list_prefix(es[0].1, enc_dict(rest) + z, l.deep_view(), r);
}

proof fn lemma_peel_date(es: Seq<(Vec<u8>, Value)>, z: Seq<u8>, d: u64, r: Seq<u8>)
    requires
        enc_dict(es) + z == enc_bytes(field_key(Field::CreationDate)) + seq![105u8] + digits_of(d as nat)
            + seq![101u8] + r,
        d <= i64::MAX,
        z.len() > 0 && z[0] == 101,
        (enc_dict(es) + z).len() <= usize::MAX,
    ensures
        es.len() > 0,
        es[0].0@ == field_key(Field::CreationDate),
        es[0].1 == Value::Integer(d as i64),
        enc_dict(es.subrange(1, es.len() as int)) + z == r,
{
    let n = d as i64;
    assert(int_text(n as int) == digits_of(d as nat));
    assert(enc_bytes(field_key(Field::CreationDate)) + seq![105u8] + digits_of(d as nat) + seq![101u8] + r
        =~= enc_bytes(field_key(Field::CreationDate)) + (enc_int(n as int) + r));
    lemma_dict_peel(es, z, field_key(Field::CreationDate), enc_int(n as int) + r);
    let rest = es.subrange(1, es.len() as int);
    lemma_value_int_prefix(es[0].1, enc_dict(rest) + z, n, r);
}

proof fn lemma_peel_info(es: Seq<(Vec<u8>, Value)>, z: Seq<u8>, info: Info, r: Seq<u8>)
    requires
        enc_dict(es) + z == enc_bytes(field_key(Field::Info)) + enc_info(info) + r,
        z.len() > 0 && z[0] == 101,
        (enc_dict(es) + z).len() <= usize::MAX,
        decimal_ok(info.piece_length@),
        info.file_length matches Some(t) ==> decimal_ok(t@),
        info.other_fields@.len() == 0,
    ensures
        es.len() > 0,
        es[0].0@ == field_key(Field::Info),
        es[0].1 is Dict,
        info_error(es[0].1->Dict_0@) is None,
        forall|i2: Info| #[trigger] info_built(i2, es[0].1->Dict_0@) ==> same_info(i2, info),
        enc_dict(es.subrange(1, es.len() as int)) + z == r,
{
    assert(enc_bytes(field_key(Field::Info)) + enc_info(info) + r =~= enc_bytes(field_key(Field::Info)) + (
    enc_info(info) + r));
    lemma_dict_peel(es, z, field_key(Field::Info), enc_info(info) + r);
    let rest = es.subrange(1, es.len() as int);
    lemma_info_round_trip(info, es[0].1, enc_dict(rest) + z, r);
}

proof fn lemma_meta_step(m: MetaInfo, es: Seq<(Vec<u8>, Value)>, i: int, p: int, z: Seq<u8>, y: Seq<u8>)
    requires
        0 <= p < 8,
        0 <= i <= es.len(),
        enc_dict(es.subrange(i, es.len() as int)) + z == meta_tail(m, p, y),
        z.len() > 0 && z[0] == 101,
        (enc_dict(es.subrange(i, es.len() as int)) + z).len() <= usize::MAX,
        encodable(m),
        m.info.other_fields@.len() == 0,
    ensures
        written(meta_order()[p], m) ==> i < es.len() && entry_for(es[i], meta_order()[p], m) && enc_dict(
            es.subrange(i + 1, es.len() as int),
        ) + z == meta_tail(m, p + 1, y),
        !written(meta_order()[p], m) ==> enc_dict(es.subrange(i, es.len() as int)) + z == meta_tail(
            m,
            p + 1,
            y,
        ),
{
    let rest = es.subrange(i, es.len() as int);
    let f = meta_order()[p];
    let tail = meta_tail(m, p + 1, y);
    assert(meta_tail(m, p, y) == entry_bytes(m, f) + tail);
    if i < es.len() {
        assert(rest[0] == es[i]);
        assert(rest.subrange(1, rest.len() as int) =~= es.subrange(i + 1, es.len() as int));
    }
    if p == 0 {
        assert(f == Field::Announce);
        lemma_peel_text(rest, z, Field::Announce, m.announce@, tail);
    } else if p == 1 {
        assert(f == Field::AnnounceList);
        match m.announce_list {
            Some(l) => lemma_peel_list(rest, z, Field::AnnounceList, l, tail),
            None => assert(entry_bytes(m, f) + tail =~= tail),
        }
    } else if p == 2 {
        assert(f == Field::Comment);
        match m.comment {
            Some(t) => lemma_peel_text(rest, z, Field::Comment, t@, tail),
            None => assert(entry_bytes(m, f) + tail =~= tail),
        }
    } else if p == 3 {
        assert(f == Field::CreatedBy);
        match m.created_by {
            Some(t) => lemma_peel_text(rest, z, Field::CreatedBy, t@, tail),
            None => assert(entry_bytes(m, f) + tail =~= tail),
        }
    } else if p == 4 {
        assert(f == Field::CreationDate);
        match m.creation_date {
            Some(d) => {
                assert(entry_bytes(m, f) + tail =~= enc_bytes(field_key(Field::CreationDate)) + seq![105u8]
                    + digits_of(d as nat) + seq![101u8] + tail);
                lemma_peel_date(rest, z, d, tail);
            },
            None => assert(entry_bytes(m, f) + tail =~= tail),
        }
    } else if p == 5 {
        assert(f == Field::Encoding);
        match m.encoding {
            Some(t) => lemma_peel_text(rest, z, Field::Encoding, t@, tail),
            None => assert(entry_bytes(m, f) + tail =~= tail),
        }
    } else if p == 6 {
        assert(f == Field::HttpSeeds);
        match m.http_seeds {
            Some(l) => lemma_peel_list(rest, z, Field::HttpSeeds, l, tail),
            None => assert(entry_bytes(m, f) + tail =~= tail),
        }
    } else {
        assert(f == Field::Info);
        lemma_peel_info(rest, z, m.info, tail);
    }
}

proof fn lemma_meta_walk(m: MetaInfo, es: Seq<(Vec<u8>, Value)>, k: int, z: Seq<u8>, y: Seq<u8>)
    requires
        0 <= k <= 8,
        chosen(m, k).len() <= es.len(),
        forall|j: int| 0 <= j < chosen(m, k).len() ==> entry_for(#[trigger] es[j], chosen(m, k)[j], m),
        enc_dict(es.subrange(chosen(m, k).len() as int, es.len() as int)) + z == meta_tail(m, k, y),
        z.len() > 0 && z[0] == 101,
        (enc_dict(es.subrange(chosen(m, k).len() as int, es.len() as int)) + z).len() <= usize::MAX,
        encodable(m),
        m.info.other_fields@.len() == 0,
    ensures
        es.len() == chosen(m, 8).len(),
        forall|j: int| 0 <= j < es.len() ==> entry_for(#[trigger] es[j], chosen(m, 8)[j], m),
        z == seq![101u8] + y,
    decreases 8 - k,
{
    let c = chosen(m, k).len() as int;
    if k == 8 {
        lemma_dict_end(es.subrange(c, es.len() as int), z, seq![101u8] + y);
    } else {
        lemma_meta_step(m, es, c, k, z, y);
        let next = chosen(m, k + 1);
        assert(forall|j: int| 0 <= j < c ==> next[j] == chosen(m, k)[j]);
        lemma_meta_walk(m, es, k + 1, z, y);
    }
}

/// Position of a top-level field in `meta_order()`.
pub open spec fn order_index(f: Field) -> int {
    match f {
        Field::Announce => 0,
        Field::AnnounceList => 1,
        Field::Comment => 2,
        Field::CreatedBy => 3,
        Field::CreationDate => 4,
        Field::Encoding => 5,
        Field::HttpSeeds => 6,
        Field::Info => 7,
        _ => 8,
    }
}

/// Whether `f` is a top-level field.
pub open spec fn is_meta_field(f: Field) -> bool {
    order_index(f) < 8
}

proof fn lemma_meta_keys_distinct()
    ensures
        forall|f: Field, g: Field|
            is_meta_field(f) && is_meta_field(g) && f != g ==> #[trigger] field_key(f) != #[trigger] field_key(g),
{
    assert forall|f: Field, g: Field|
        is_meta_field(f) && is_meta_field(g) && f != g implies #[trigger] field_key(f) != #[trigger] field_key(g) by {
        if field_key(f).len() == field_key(g).len() {
            assert(field_key(f)[0] != field_key(g)[0]);
        }
    }
}

proof fn lemma_field_of_meta(f: Field)
    requires
        is_meta_field(f),
    ensures
        field_of(field_key(f), true) == Some(f),
{
    lemma_meta_keys_distinct();
}

proof fn lemma_chosen(m: MetaInfo, k: int)
    requires
        0 <= k <= 8,
    ensures
        forall|j: int| 0 <= j < chosen(m, k).len() ==> is_meta_field(#[trigger] chosen(m, k)[j]) && written(
            chosen(m, k)[j],
            m,
        ) && order_index(chosen(m, k)[j]) < k,
        forall|j1: int, j2: int|
            0 <= j1 < j2 < chosen(m, k).len() ==> #[trigger] chosen(m, k)[j1] != #[trigger] chosen(m, k)[j2],
        forall|f: Field| is_meta_field(f) && order_index(f) < k && written(f, m) ==> #[trigger] chosen(m, k).contains(f),
    decreases k,
{
    if k > 0 {
        lemma_chosen(m, k - 1);
        let prev = chosen(m, k - 1);
        let f = meta_order()[k - 1];
        assert(order_index(f) == k - 1);
        assert(is_meta_field(f));
        if written(f, m) {
            let next = prev.push(f);
            assert(next.last() == f);
            assert forall|g: Field| is_meta_field(g) && order_index(g) < k && written(g, m) implies #[trigger] chosen(m, k).contains(g) by {
                if order_index(g) < k - 1 {
                    assert(prev.contains(g));
                    let j = choose|j: int| 0 <= j < prev.len() && prev[j] == g;
                    assert(next[j] == g);
                } else {
                    assert(g == f);
                    assert(next[prev.len() as int] == g);
                }
            }
        } else {
            assert forall|g: Field| is_meta_field(g) && order_index(g) < k && written(g, m) implies #[trigger] chosen(m, k).contains(g) by {
                if order_index(g) == k - 1 {
                    assert(g == f);
                }
            }
        }
    }
}

proof fn lemma_last_value_fields(es: Seq<(Vec<u8>, Value)>, fs: Seq<Field>, f: Field)
    requires
        es.len() == fs.len(),
        forall|j: int| 0 <= j < es.len() ==> (#[trigger] es[j]).0@ == field_key(fs[j]),
        forall|j: int| 0 <= j < fs.len() ==> is_meta_field(#[trigger] fs[j]),
        forall|j1: int, j2: int| 0 <= j1 < j2 < fs.len() ==> #[trigger] fs[j1] != #[trigger] fs[j2],
        is_meta_field(f),
    ensures
        forall|j: int| 0 <= j < fs.len() && fs[j] == f ==> last_value(es, field_key(f)) == Some(#[trigger] es[j].1),
        !fs.contains(f) ==> last_value(es, field_key(f)) is None,
    decreases es.len(),
{
    lemma_meta_keys_distinct();
    if es.len() > 0 {
        let n = es.len() - 1;
        assert(es.last() == es[n]);
        lemma_last_value_fields(es.drop_last(), fs.drop_last(), f);
        assert forall|j: int| 0 <= j < fs.len() && fs[j] == f implies last_value(es, field_key(f)) == Some(#[trigger] es[j].1) by {
            if j < n {
                assert(fs[j] != fs[n]);
                assert(fs.drop_last()[j] == fs[j]);
                assert(es.drop_last()[j] == es[j]);
            }
        }
        if !fs.contains(f) {
            assert(fs[n] != f);
            if fs.drop_last().contains(f) {
                let j = choose|j: int| 0 <= j < fs.drop_last().len() && fs.drop_last()[j] == f;
                assert(fs[j] == f);
            }
        }
    }
}

proof fn lemma_meta_no_errors(es: Seq<(Vec<u8>, Value)>, fs: Seq<Field>, m: MetaInfo)
    requires
        es.len() == fs.len(),
        forall|j: int| 0 <= j < es.len() ==> entry_for(#[trigger] es[j], fs[j], m),
        forall|j: int| 0 <= j < fs.len() ==> is_meta_field(#[trigger] fs[j]),
    ensures
        first_meta_error(es) is None,
        unknown_fields(es, true) == Seq::<(Seq<char>, Seq<char>)>::empty(),
    decreases es.len(),
{
    if es.len() > 0 {
        let n = es.len() - 1;
        assert(es.last() == es[n]);
        assert(is_meta_field(fs[n]));
        assert(entry_for(es[n], fs[n], m));
        lemma_field_of_meta(fs[n]);
        lemma_meta_no_errors(es.drop_last(), fs.drop_last(), m);
        assert forall|j: int| 0 <= j < n implies entry_for(#[trigger] es.drop_last()[j], fs.drop_last()[j], m) by {
            assert(es.drop_last()[j] == es[j]);
        }
    }
}

pub open spec fn same_opt_text(a: Option<String>, b: Option<String>) -> bool {
    match (a, b) {
        (None, None) => true,
        (Some(x), Some(y)) => x@ == y@,
        _ => false,
    }
}

pub open spec fn same_opt_list(a: Option<Vec<String>>, b: Option<Vec<String>>) -> bool {
    match (a, b) {
        (None, None) => true,
        (Some(x), Some(y)) => x.deep_view() == y.deep_view(),
        _ => false,
    }
}

/// Whether two `MetaInfo` values hold the same fields.
pub open spec fn same_meta(a: MetaInfo, b: MetaInfo) -> bool {
    &&& a.announce@ == b.announce@
    &&& same_info(a.info, b.info)
    &&& same_opt_list(a.announce_list, b.announce_list)
    &&& same_opt_text(a.comment, b.comment)
    &&& same_opt_text(a.created_by, b.created_by)
    &&& a.creation_date == b.creation_date
    &&& same_opt_text(a.encoding, b.encoding)
    &&& same_opt_list(a.http_seeds, b.http_seeds)
    &&& a.other_fields.deep_view() == b.other_fields.deep_view()
}

proof fn lemma_field_entry(es: Seq<(Vec<u8>, Value)>, m: MetaInfo, f: Field)
    requires
        es.len() == chosen(m, 8).len(),
        forall|j: int| 0 <= j < es.len() ==> entry_for(#[trigger] es[j], chosen(m, 8)[j], m),
        is_meta_field(f),
    ensures
        written(f, m) ==> (last_value(es, field_key(f)) matches Some(w) && entry_value_for(w, f, m)),
        !written(f, m) ==> last_value(es, field_key(f)) is None,
{
    let fs = chosen(m, 8);
    lemma_chosen(m, 8);
    assert forall|j: int| 0 <= j < es.len() implies (#[trigger] es[j]).0@ == field_key(fs[j]) by {
        assert(entry_for(es[j], fs[j], m));
    }
    lemma_last_value_fields(es, fs, f);
    if written(f, m) {
        assert(fs.contains(f));
        let j = choose|j: int| 0 <= j < fs.len() && fs[j] == f;
        assert(entry_for(es[j], fs[j], m));
        assert(last_value(es, field_key(f)) == Some(es[j].1));
    } else {
        if fs.contains(f) {
            let j = choose|j: int| 0 <= j < fs.len() && fs[j] == f;
            assert(written(fs[j], m));
        }
    }
}

proof fn lemma_enc_meta_tail(m: MetaInfo)
    ensures
        enc_meta(m) == seq![100u8] + meta_tail(m, 0, Seq::empty()),
{
    let y = Seq::<u8>::empty();
    assert(meta_order()[0] == Field::Announce && meta_order()[1] == Field::AnnounceList
        && meta_order()[2] == Field::Comment && meta_order()[3] == Field::CreatedBy
        && meta_order()[4] == Field::CreationDate && meta_order()[5] == Field::Encoding
        && meta_order()[6] == Field::HttpSeeds && meta_order()[7] == Field::Info);
    let e0 = entry_bytes(m, Field::Announce);
    let e1 = entry_bytes(m, Field::AnnounceList);
    let e2 = entry_bytes(m, Field::Comment);
    let e3 = entry_bytes(m, Field::CreatedBy);
    let e4 = entry_bytes(m, Field::CreationDate);
    let e5 = entry_bytes(m, Field::Encoding);
    let e6 = entry_bytes(m, Field::HttpSeeds);
    let key = enc_bytes(field_key(Field::Info));
    let info = enc_info(m.info);
    let close = seq![101u8];
    assert(meta_tail(m, 8, y) =~= close);
    let t7 = meta_tail(m, 7, y);
    let t6 = meta_tail(m, 6, y);
    let t5 = meta_tail(m, 5, y);
    let t4 = meta_tail(m, 4, y);
    let t3 = meta_tail(m, 3, y);
    let t2 = meta_tail(m, 2, y);
    let t1 = meta_tail(m, 1, y);
    let t0 = meta_tail(m, 0, y);
    assert(t7 == (key + info) + close);
    assert(t6 == e6 + t7);
    assert(t5 == e5 + t6);
    assert(t4 == e4 + t5);
    assert(t3 == e3 + t4);
    assert(t2 == e2 + t3);
    assert(t1 == e1 + t2);
    assert(t0 == e0 + t1);
    let l0 = seq![100u8];
    let l1 = l0 + e0;
    let l2 = l1 + e1;
    let l3 = l2 + e2;
    let l4 = l3 + e3;
    let l5 = l4 + e4;
    let l6 = l5 + e5;
    let l7 = l6 + e6;
    let l8 = l7 + key;
    let l9 = l8 + info;
    assert(enc_meta(m) == l9 + close);
    lemma_concat_associative(l0, e0, t1);
    lemma_concat_associative(l1, e1, t2);
    lemma_concat_associative(l2, e2, t3);
    lemma_concat_associative(l3, e3, t4);
    lemma_concat_associative(l4, e4, t5);
    lemma_concat_associative(l5, e5, t6);
    lemma_concat_associative(l6, e6, t7);
    lemma_concat_associative(key, info, close);
    lemma_concat_associative(l7, key, info + close);
    lemma_concat_associative(l8, info, close);
}

/// What the entries read from the encoding of `m` make of it.
#[verifier::rlimit(100)]
proof fn lemma_meta_semantics(es: Seq<(Vec<u8>, Value)>, m: MetaInfo)
    requires
        es.len() == chosen(m, 8).len(),
        forall|j: int| 0 <= j < es.len() ==> entry_for(#[trigger] es[j], chosen(m, 8)[j], m),
        m.other_fields@.len() == 0,
    ensures
        meta_error(es) is None,
        forall|m2: MetaInfo| #[trigger] meta_built(m2, es) ==> same_meta(m2, m),
{
    let fs = chosen(m, 8);
    lemma_chosen(m, 8);
    assert forall|j: int| 0 <= j < fs.len() implies is_meta_field(#[trigger] fs[j]) by {}
    lemma_meta_no_errors(es, fs, m);
    lemma_field_entry(es, m, Field::Announce);
    lemma_field_entry(es, m, Field::AnnounceList);
    lemma_field_entry(es, m, Field::Comment);
    lemma_field_entry(es, m, Field::CreatedBy);
    lemma_field_entry(es, m, Field::CreationDate);
    lemma_field_entry(es, m, Field::Encoding);
    lemma_field_entry(es, m, Field::HttpSeeds);
    lemma_field_entry(es, m, Field::Info);
    assert(m.other_fields.deep_view() =~= Seq::<(Seq<char>, Seq<char>)>::empty());
}

/// Round trip: a `MetaInfo` with no unrecognised fields, at the top level or
/// in its `info`, and whose integer fields `encode` can write, is read back
/// field for field from the bytes that `encode` writes for it.
#[verifier::rlimit(100)]
pub proof fn lemma_meta_round_trip(m: MetaInfo, v: Value)
    requires
        encodable(m),
        m.other_fields@.len() == 0,
        m.info.other_fields@.len() == 0,
        enc_meta(m).len() <= usize::MAX,
        leading_value(enc_meta(m), v),
    ensures
        v is Dict,
        meta_error(v->Dict_0@) is None,
        forall|m2: MetaInfo| #[trigger] meta_built(m2, v->Dict_0@) ==> same_meta(m2, m),
{
    let s = enc_meta(m);
    let e = value_span(s, 0, 0)->Ok_0;
    let x = s.subrange(e as int, s.len() as int);
    assert(enc(v) + x =~= s);
    lemma_enc_kind(v);
    lemma_enc_meta_tail(m);
    let y = Seq::<u8>::empty();
    assert(s[0] == 100);
    assert(s[0] == enc(v)[0]);
    let es = v->Dict_0@;
    let z = seq![101u8] + x;
    assert(enc(v) + x =~= seq![100u8] + (enc_dict(es) + z));
    assert(enc_dict(es) + z =~= (seq![100u8] + (enc_dict(es) + z)).drop_first());
    assert(meta_tail(m, 0, y) =~= (seq![100u8] + meta_tail(m, 0, y)).drop_first());
    assert(es.subrange(0, es.len() as int) =~= es);
    assert(chosen(m, 0) =~= Seq::<Field>::empty());
    lemma_meta_walk(m, es, 0, z, y);
    lemma_meta_semantics(es, m);
}

/// The decimal text of an integer is one that `encode` can write.
proof fn lemma_decimal_text_ok(n: i64)
    ensures
        decimal_ok(text_of_bytes(int_text(n as int))),
{
    let t = int_text(n as int);
    lemma_int_text_value(n as int);
    let c = Seq::new(t.len(), |i: int| t[i] as char);
    assert(is_ascii_chars(c)) by {
        assert forall|i: int| 0 <= i < c.len() implies '\0' <= #[trigger] c[i] <= '\u{7f}' by {
            assert(is_digit(t[i]) || t[i] == 45);
        }
    }
    is_ascii_chars_encode_utf8(c);
    assert(encode_utf8(c) =~= t);
    encode_utf8_valid_utf8(c);
    encode_utf8_decode_utf8(c);
}

proof fn lemma_last_fits_info(es: Seq<(Vec<u8>, Value)>, f: Field)
    requires
        first_info_error(es) is None,
        field_of(field_key(f), false) == Some(f),
        last_value(es, field_key(f)) is Some,
    ensures
        fits(f, last_value(es, field_key(f))->Some_0),
    decreases es.len(),
{
    if es.last().0@ != field_key(f) {
        lemma_last_fits_info(es.drop_last(), f);
    }
}

proof fn lemma_last_fits_meta(es: Seq<(Vec<u8>, Value)>, f: Field)
    requires
        first_meta_error(es) is None,
        field_of(field_key(f), true) == Some(f),
        last_value(es, field_key(f)) is Some,
    ensures
        fits(f, last_value(es, field_key(f))->Some_0),
        meta_entry_error(field_key(f), last_value(es, field_key(f))->Some_0) is None,
    decreases es.len(),
{
    if es.last().0@ != field_key(f) {
        lemma_last_fits_meta(es.drop_last(), f);
    }
}

/// A `MetaInfo` decoded from a dictionary can be encoded.
#[verifier::rlimit(100)]
proof fn lemma_decoded_encodable(es: Seq<(Vec<u8>, Value)>, m1: MetaInfo)
    requires
        meta_error(es) is None,
        meta_built(m1, es),
    ensures
        encodable(m1),
{
    lemma_field_of_meta(Field::Info);
    lemma_field_of_meta(Field::CreationDate);
    lemma_last_fits_meta(es, Field::Info);
    let ies = last_value(es, field_key(Field::Info))->Some_0->Dict_0@;
    assert(info_built(m1.info, ies));
    assert(info_error(ies) is None);
    lemma_info_keys_distinct();
    assert(field_of(field_key(Field::PieceLength), false) == Some(Field::PieceLength));
    assert(field_of(field_key(Field::Length), false) == Some(Field::Length));
    lemma_last_fits_info(ies, Field::PieceLength);
    lemma_decimal_text_ok(last_value(ies, field_key(Field::PieceLength))->Some_0->Integer_0);
    if last_value(ies, field_key(Field::Length)) is Some {
        lemma_last_fits_info(ies, Field::Length);
        lemma_decimal_text_ok(last_value(ies, field_key(Field::Length))->Some_0->Integer_0);
    }
    if last_value(es, field_key(Field::CreationDate)) is Some {
        lemma_last_fits_meta(es, Field::CreationDate);
    }
}

/// Idempotence: a `MetaInfo` decoded from any dictionary and holding no
/// unrecognised fields can be encoded, and decoding its encoding yields a
/// `MetaInfo` equal to it field for field.
pub proof fn lemma_reencode_idempotent(es: Seq<(Vec<u8>, Value)>, m1: MetaInfo, v2: Value)
    requires
        meta_error(es) is None,
        meta_built(m1, es),
        m1.other_fields@.len() == 0,
        m1.info.other_fields@.len() == 0,
        enc_meta(m1).len() <= usize::MAX,
        leading_value(enc_meta(m1), v2),
    ensures
        encodable(m1),
        v2 is Dict,
        meta_error(v2->Dict_0@) is None,
        forall|m2: MetaInfo| #[trigger] meta_built(m2, v2->Dict_0@) ==> same_meta(m2, m1),
{
    lemma_decoded_encodable(es, m1);
    lemma_meta_round_trip(m1, v2);
}

} // verus!
