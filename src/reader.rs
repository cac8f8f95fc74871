//! The primitive reader: integer and byte-string tokens of bencode.
use vstd::prelude::*;
use crate::error::DecodeError;

verus! {

pub open spec fn is_digit(b: u8) -> bool {
    48 <= b && b <= 57
}

pub open spec fn all_digits(t: Seq<u8>) -> bool {
    forall|i: int| 0 <= i < t.len() ==> is_digit(#[trigger] t[i])
}

/// The number that a string of decimal digits denotes.
pub open spec fn digits_value(t: Seq<u8>) -> nat
    decreases t.len(),
{
    if t.len() == 0 {
        0
    } else {
        digits_value(t.drop_last()) * 10 + (t.last() - 48) as nat
    }
}

/// Digits without a superfluous leading zero.
pub open spec fn canonical_digits(t: Seq<u8>) -> bool {
    t.len() > 0 && all_digits(t) && (t[0] == 48 ==> t.len() == 1)
}

/// The value of the text between `i` and `e`, if that text is well formed:
/// an optional `-` and canonical digits, with no `-0`.
pub open spec fn int_text_value(t: Seq<u8>) -> Option<int> {
    if t.len() > 0 && t[0] == 45 {
        let d = t.drop_first();
        if canonical_digits(d) && d[0] != 48 {
            Some(-(digits_value(d) as int))
        } else {
            None
        }
    } else if canonical_digits(t) {
        Some(digits_value(t) as int)
    } else {
        None
    }
}

pub open spec fn fits_i64(n: int) -> bool {
    i64::MIN <= n <= i64::MAX
}

/// First position at or after `p` that does not hold a digit.
pub open spec fn digit_run_end(s: Seq<u8>, p: int) -> int
    decreases s.len() - p,
{
    if p >= s.len() {
        s.len() as int
    } else if is_digit(s[p]) {
        digit_run_end(s, p + 1)
    } else {
        p
    }
}

/// First position at or after `p` that holds neither a digit nor `-`.
pub open spec fn int_run_end(s: Seq<u8>, p: int) -> int
    decreases s.len() - p,
{
    if p >= s.len() {
        s.len() as int
    } else if is_digit(s[p]) || s[p] == 45 {
        int_run_end(s, p + 1)
    } else {
        p
    }
}

/// The integer token `i<text>e` that starts at `pos` (where `s[pos]` is `i`):
/// its value and the position after it, or why it is rejected.
pub open spec fn int_token(s: Seq<u8>, pos: int) -> Result<(i64, usize), DecodeError> {
    let k = int_run_end(s, pos + 1);
    if k >= s.len() {
        Err(DecodeError::UnexpectedEndOfInput { offset: s.len() as usize })
    } else if s[k] != 101 {
        Err(DecodeError::MalformedInteger { offset: pos as usize })
    } else {
        match int_text_value(s.subrange(pos + 1, k)) {
            Some(n) => if fits_i64(n) {
                Ok((n as i64, (k + 1) as usize))
            } else {
                Err(DecodeError::MalformedInteger { offset: pos as usize })
            },
            None => Err(DecodeError::MalformedInteger { offset: pos as usize }),
        }
    }
}

/// The byte-string token `<len>:<data>` that starts at `pos`: where its data
/// starts and where the token ends, or why it is rejected.
pub open spec fn bytes_token(s: Seq<u8>, pos: int) -> Result<(usize, usize), DecodeError> {
    let k = digit_run_end(s, pos);
    if k >= s.len() {
        Err(DecodeError::UnexpectedEndOfInput { offset: s.len() as usize })
    } else if s[k] != 58 || !canonical_digits(s.subrange(pos, k)) {
        Err(DecodeError::MalformedLength { offset: pos as usize })
    } else if k + 1 + digits_value(s.subrange(pos, k)) > s.len() {
        Err(DecodeError::UnexpectedEndOfInput { offset: s.len() as usize })
    } else {
        Ok(((k + 1) as usize, (k + 1 + digits_value(s.subrange(pos, k))) as usize))
    }
}

pub proof fn lemma_int_run_end(s: Seq<u8>, p: int)
    requires
        0 <= p <= s.len(),
    ensures
        p <= int_run_end(s, p) <= s.len(),
        forall|j: int| p <= j < int_run_end(s, p) ==> is_digit(#[trigger] s[j]) || s[j] == 45,
        int_run_end(s, p) < s.len() ==> !(is_digit(s[int_run_end(s, p)]) || s[int_run_end(s, p)] == 45),
    decreases s.len() - p,
{
    if p < s.len() && (is_digit(s[p]) || s[p] == 45) {
        lemma_int_run_end(s, p + 1);
    }
}

pub proof fn lemma_digit_run_end(s: Seq<u8>, p: int)
    requires
        0 <= p <= s.len(),
    ensures
        p <= digit_run_end(s, p) <= s.len(),
        forall|j: int| p <= j < digit_run_end(s, p) ==> is_digit(#[trigger] s[j]),
        digit_run_end(s, p) < s.len() ==> !is_digit(s[digit_run_end(s, p)]),
    decreases s.len() - p,
{
    if p < s.len() && is_digit(s[p]) {
        lemma_digit_run_end(s, p + 1);
    }
}

proof fn lemma_digits_prefix_le(t: Seq<u8>, j: int)
    requires
        all_digits(t),
        0 <= j <= t.len(),
    ensures
        digits_value(t.subrange(0, j)) <= digits_value(t),
    decreases t.len(),
{
    if j < t.len() {
        lemma_digits_prefix_le(t.drop_last(), j);
        assert(t.drop_last().subrange(0, j) =~= t.subrange(0, j));
    } else {
        assert(t.subrange(0, j) =~= t);
    }
}

proof fn lemma_digits_step(s: Seq<u8>, a: int, i: int)
    requires
        0 <= a <= i < s.len(),
    ensures
        digits_value(s.subrange(a, i + 1)) == digits_value(s.subrange(a, i)) * 10 + (s[i] - 48) as nat,
{
    assert(s.subrange(a, i + 1).drop_last() =~= s.subrange(a, i));
}

/// Reads canonical digits `s[a..b]` (all known to be digits); `None` where
/// their value exceeds `bound`.
fn digits_upto(s: &[u8], a: usize, b: usize, bound: u64) -> (r: Option<u64>)
    requires
        a < b <= s@.len(),
        all_digits(s@.subrange(a as int, b as int)),
    ensures
        r matches Some(v) ==> v as nat == digits_value(s@.subrange(a as int, b as int)),
        r is None <==> digits_value(s@.subrange(a as int, b as int)) > bound,
{
    let mut acc: u64 = 0;
    let mut i: usize = a;
    assert(s@.subrange(a as int, a as int) =~= Seq::<u8>::empty());
    while i < b
        invariant
            a <= i <= b <= s@.len(),
            all_digits(s@.subrange(a as int, b as int)),
            acc <= bound,
            acc as nat == digits_value(s@.subrange(a as int, i as int)),
        decreases b - i,
    {
        assert(s@.subrange(a as int, b as int)[i - a] == s@[i as int]);
        let d: u128 = (s[i] - 48) as u128;
        proof {
            lemma_digits_step(s@, a as int, i as int);
        }
        let next: u128 = acc as u128 * 10 + d;
        if next > bound as u128 {
            proof {
                let t = s@.subrange(a as int, b as int);
                lemma_digits_prefix_le(t, i - a + 1);
                assert(t.subrange(0, i - a + 1) =~= s@.subrange(a as int, i + 1));
            }
            return None;
        }
        acc = next as u64;
        i = i + 1;
    }
    Some(acc)
}

/// Reads the integer token at `pos`, which starts with `i`.
pub fn read_integer(s: &[u8], pos: usize) -> (r: Result<(i64, usize), DecodeError>)
    requires
        pos < s@.len(),
        s@[pos as int] == 105,
    ensures
        r == int_token(s@, pos as int),
        r matches Ok((n, e)) ==> pos + 2 < e + 0 <= s@.len() && s@[e - 1] == 101 && int_text_value(
            s@.subrange(pos + 1, e - 1),
        ) == Some(n as int),
{
    let len = s.len();
    let mut k: usize = pos + 1;
    while k < s.len() && ((48 <= s[k] && s[k] <= 57) || s[k] == 45)
        invariant
            pos + 1 <= k <= s@.len(),
            int_run_end(s@, pos + 1) == int_run_end(s@, k as int),
            forall|j: int| pos + 1 <= j < k ==> is_digit(#[trigger] s@[j]) || s@[j] == 45,
        decreases s@.len() - k,
    {
        k = k + 1;
    }
    if k >= s.len() {
        return Err(DecodeError::UnexpectedEndOfInput { offset: s.len() });
    }
    if s[k] != 101 {
        return Err(DecodeError::MalformedInteger { offset: pos });
    }
    let ghost t = s@.subrange(pos + 1, k as int);
    let neg = k > pos + 1 && s[pos + 1] == 45;
    let start: usize = if neg { pos + 2 } else { pos + 1 };
    let ghost d = s@.subrange(start as int, k as int);
    assert(neg ==> t.drop_first() =~= d);
    assert(!neg ==> t =~= d);
    if start >= k || (s[start] == 48 && (neg || k - start > 1)) {
        return Err(DecodeError::MalformedInteger { offset: pos });
    }
    assert(t[0] == s@[pos + 1]);
    let mut j: usize = start;
    while j < k
        invariant
            start <= j <= k < s@.len(),
            d == s@.subrange(start as int, k as int),
            pos + 1 <= start,
            s@[k as int] == 101,
            int_run_end(s@, pos + 1) == k,
            t == s@.subrange(pos + 1, k as int),
            t[0] == s@[pos + 1],
            neg ==> t.drop_first() == d && t[0] == 45,
            !neg ==> t == d && t[0] != 45,
            forall|x: int| start <= x < j ==> is_digit(#[trigger] s@[x]),
        decreases k - j,
    {
        if !(48 <= s[j] && s[j] <= 57) {
            assert(d[j - start] == s@[j as int]);
            assert(!all_digits(d));
            return Err(DecodeError::MalformedInteger { offset: pos });
        }
        j = j + 1;
    }
    assert(all_digits(d));
    let bound: u64 = if neg { 9_223_372_036_854_775_808 } else { 9_223_372_036_854_775_807 };
    match digits_upto(s, start, k, bound) {
        None => Err(DecodeError::MalformedInteger { offset: pos }),
        Some(v) => {
            if neg {
                if v == 9_223_372_036_854_775_808 {
                    Ok((i64::MIN, k + 1))
                } else {
                    Ok((-(v as i64), k + 1))
                }
            } else {
                Ok((v as i64, k + 1))
            }
        },
    }
}

/// Reads the byte-string token at `pos`: its data and the position after it.
pub fn read_byte_string(s: &[u8], pos: usize) -> (r: Result<(Vec<u8>, usize), DecodeError>)
    requires
        pos <= s@.len(),
    ensures
        match bytes_token(s@, pos as int) {
            Ok((a, e)) => r matches Ok((data, e2)) && e2 == e && data@ == s@.subrange(a as int, e as int),
            Err(x) => r == Err::<(Vec<u8>, usize), DecodeError>(x),
        },
        r matches Ok((data, e)) ==> pos < e - data@.len() - 1 && e <= s@.len() && s@[e - data@.len()
            - 1] == 58 && canonical_digits(s@.subrange(pos as int, e - data@.len() - 1))
            && digits_value(s@.subrange(pos as int, e - data@.len() - 1)) == data@.len()
            && data@ == s@.subrange(e - data@.len(), e as int),
{
    let len = s.len();
    let mut k: usize = pos;
    while k < s.len() && 48 <= s[k] && s[k] <= 57
        invariant
            pos <= k <= s@.len(),
            digit_run_end(s@, pos as int) == digit_run_end(s@, k as int),
            forall|j: int| pos <= j < k ==> is_digit(#[trigger] s@[j]),
        decreases s@.len() - k,
    {
        k = k + 1;
    }
    if k >= s.len() {
        return Err(DecodeError::UnexpectedEndOfInput { offset: s.len() });
    }
    let ghost t = s@.subrange(pos as int, k as int);
    assert(all_digits(t));
    if s[k] != 58 || k == pos || (s[pos] == 48 && k - pos > 1) {
        return Err(DecodeError::MalformedLength { offset: pos });
    }
    let room: usize = s.len() - (k + 1);
    let n: usize = match digits_upto(s, pos, k, room as u64) {
        None => {
            return Err(DecodeError::UnexpectedEndOfInput { offset: s.len() });
        },
        Some(v) => v as usize,
    };
    let start: usize = k + 1;
    let end: usize = start + n;
    let mut data: Vec<u8> = Vec::with_capacity(n);
    let mut i: usize = start;
    while i < end
        invariant
            start <= i <= end <= s@.len(),
            data@ == s@.subrange(start as int, i as int),
        decreases end - i,
    {
        data.push(s[i]);
        i = i + 1;
        assert(data@ =~= s@.subrange(start as int, i as int));
    }
    Ok((data, end))
}

} // verus!
