//! Decimal numbers written in ASCII digits.

use vstd::prelude::*;
use vstd::utf8::*;

use crate::text::lemma_ascii_valid;

verus! {

/// Whether the byte is an ASCII digit.
pub open spec fn digit(b: u8) -> bool {
    48 <= b <= 57
}

/// How many digits stand in `s` from `i` on, before `end`.
pub open spec fn digits_end(s: Seq<u8>, i: int, end: int) -> int
    decreases end - i,
{
    if i < end && digit(s[i]) {
        digits_end(s, i + 1, end)
    } else {
        i
    }
}

/// The value of a run of digits.
pub open spec fn digits_value(s: Seq<u8>) -> nat
    decreases s.len(),
{
    if s.len() == 0 {
        0
    } else {
        digits_value(s.drop_last()) * 10 + (s.last() - 48) as nat
    }
}

/// The decimal digits of `n`, without leading zeros.
pub open spec fn decimal(n: nat) -> Seq<u8>
    decreases n,
{
    if n < 10 {
        seq![(48 + n) as u8]
    } else {
        decimal(n / 10).push((48 + n % 10) as u8)
    }
}

/// Reading back what `decimal` writes gives the number.
pub proof fn lemma_decimal_value(n: nat)
    ensures
        digits_value(decimal(n)) == n,
        decimal(n).len() >= 1,
        forall|i: int| 0 <= i < decimal(n).len() ==> digit(#[trigger] decimal(n)[i]),
    decreases n,
{
    let d = decimal(n);
    if n < 10 {
        assert(d.drop_last() =~= Seq::<u8>::empty());
        assert(digits_value(d.drop_last()) == 0);
    } else {
        lemma_decimal_value(n / 10);
        assert(d.drop_last() =~= decimal(n / 10));
    }
}

/// The end of the run of digits that starts at `i`.
pub fn skip_digits(s: &[u8], i: usize, end: usize) -> (r: usize)
    requires
        i <= end <= s@.len(),
    ensures
        r == digits_end(s@, i as int, end as int),
        i <= r <= end,
        forall|j: int| i <= j < r ==> digit(s@[j]),
{
    let mut k: usize = i;
    while k < end && 48 <= s[k] && s[k] <= 57
        invariant
            i <= k <= end <= s@.len(),
            digits_end(s@, k as int, end as int) == digits_end(s@, i as int, end as int),
            forall|j: int| i <= j < k ==> digit(s@[j]),
        decreases end - k,
    {
        k = k + 1;
    }
    k
}

proof fn lemma_value_step(s: Seq<u8>, i: int, k: int)
    requires
        0 <= i <= k < s.len(),
    ensures
        digits_value(s.subrange(i, k + 1)) == digits_value(s.subrange(i, k)) * 10 + (s[k]
            - 48) as nat,
{
    assert(s.subrange(i, k + 1).drop_last() =~= s.subrange(i, k));
}

proof fn lemma_value_monotone(s: Seq<u8>, i: int, k: int, r: int)
    requires
        0 <= i <= k <= r <= s.len(),
    ensures
        digits_value(s.subrange(i, k)) <= digits_value(s.subrange(i, r)),
    decreases r,
{
    if k < r {
        lemma_value_monotone(s, i, k, r - 1);
        lemma_value_step(s, i, r - 1);
    }
}

/// Reads the digits from `i` to `r` as a number of at most `max`; `None` when
/// there is no digit or the value is larger.
pub fn read_number(s: &[u8], i: usize, r: usize, max: u64) -> (v: Option<u64>)
    requires
        i <= r <= s@.len(),
        forall|j: int| i <= j < r ==> digit(s@[j]),
    ensures
        match v {
            Some(n) => i < r && n == digits_value(s@.subrange(i as int, r as int)) && n <= max,
            None => i == r || digits_value(s@.subrange(i as int, r as int)) > max,
        },
{
    if i == r {
        return None;
    }
    let mut n: u64 = 0;
    let mut k: usize = i;
    assert(s@.subrange(i as int, i as int) =~= Seq::<u8>::empty());
    while k < r
        invariant
            i <= k <= r <= s@.len(),
            forall|j: int| i <= j < r ==> digit(s@[j]),
            n == digits_value(s@.subrange(i as int, k as int)),
            n <= max,
        decreases r - k,
    {
        assert(digit(s@[k as int]));
        let d: u64 = (s[k] - 48) as u64;
        proof {
            lemma_value_step(s@, i as int, k as int);
            lemma_value_monotone(s@, i as int, k + 1, r as int);
        }
        let m: u128 = (n as u128) * 10 + (d as u128);
        if m > max as u128 {
            return None;
        }
        n = m as u64;
        k = k + 1;
    }
    Some(n)
}

/// Writes `n` in decimal.
pub fn write_number(n: u64) -> (r: Vec<u8>)
    ensures
        r@ == decimal(n as nat),
        valid_utf8(r@),
    decreases n,
{
    let mut v: Vec<u8> = if n < 10 {
        Vec::new()
    } else {
        write_number(n / 10)
    };
    let d: u8 = (n % 10) as u8;
    v.push(48 + d);
    proof {
        if n < 10 {
            assert(v@ =~= decimal(n as nat));
        }
        lemma_decimal_value(n as nat);
        lemma_ascii_valid(v@);
    }
    v
}

/// The number that a text reads as: digits, with a plus sign before them or not.
pub open spec fn parsed_u64(s: Seq<u8>) -> Option<u64> {
    let i: int = if s.len() > 0 && s[0] == 43 {
        1
    } else {
        0
    };
    let v = digits_value(s.subrange(i, s.len() as int));
    if i < s.len() && digits_end(s, i, s.len() as int) == s.len() && v <= u64::MAX {
        Some(v as u64)
    } else {
        None
    }
}

/// The number that a text reads as.
pub fn parse_u64(s: &[u8]) -> (r: Option<u64>)
    ensures
        r == parsed_u64(s@),
{
    let i: usize = if s.len() > 0 && s[0] == 43 {
        1
    } else {
        0
    };
    let end: usize = skip_digits(s, i, s.len());
    if end != s.len() {
        return None;
    }
    read_number(s, i, end, u64::MAX)
}

proof fn lemma_all_digits(s: Seq<u8>, i: int, end: int)
    requires
        i <= end <= s.len(),
        0 <= i,
        forall|k: int| i <= k < end ==> digit(#[trigger] s[k]),
    ensures
        digits_end(s, i, end) == end,
    decreases end - i,
{
    if i < end {
        lemma_all_digits(s, i + 1, end);
    }
}

proof fn lemma_digits_end_at(s: Seq<u8>, i: int, end: int)
    requires
        0 <= i <= end <= s.len(),
    ensures
        i <= digits_end(s, i, end) <= end,
        forall|k: int| i <= k < digits_end(s, i, end) ==> digit(#[trigger] s[k]),
    decreases end - i,
{
    if i < end && digit(s[i]) {
        lemma_digits_end_at(s, i + 1, end);
    }
}

/// A number that is written is read back, with a plus sign before it or without. What
/// holds anything but digits behind the sign, or nothing, is no number.
pub proof fn law_written_number_is_read_back(n: u64, s: Seq<u8>, k: int)
    ensures
        parsed_u64(decimal(n as nat)) == Some(n),
        parsed_u64(seq![43u8] + decimal(n as nat)) == Some(n),
        s.len() == 0 ==> parsed_u64(s) is None,
        0 <= k < s.len() && !(48 <= s[k] <= 57) && (k > 0 || s[k] != 43 || s.len() == 1)
            ==> parsed_u64(s) is None,
{
    let d = decimal(n as nat);
    let p = seq![43u8] + d;
    lemma_decimal_value(n as nat);
    assert(d.subrange(0, d.len() as int) =~= d);
    assert(p.subrange(1, p.len() as int) =~= d);
    assert(digit(d[0]));
    assert forall|i: int| 1 <= i < p.len() implies digit(#[trigger] p[i]) by {
        assert(p[i] == d[i - 1]);
    }
    lemma_all_digits(d, 0, d.len() as int);
    lemma_all_digits(p, 1, p.len() as int);
    if s.len() > 0 {
        lemma_digits_end_at(s, 0, s.len() as int);
        lemma_digits_end_at(s, 1, s.len() as int);
    }
}

} // verus!
