use vstd::prelude::*;

verus! {

/// ASCII `0` to `9`.
pub open spec fn is_digit(b: u8) -> bool {
    48 <= b <= 57
}

/// Every byte of `s` is a decimal digit.
pub open spec fn all_digits(s: Seq<u8>) -> bool {
    forall|i: int| 0 <= i < s.len() ==> is_digit(#[trigger] s[i])
}

/// The shortest decimal representation of `n`, most significant digit first.
pub open spec fn nat_digits(n: nat) -> Seq<u8>
    decreases n,
{
    if n < 10 {
        seq![(48 + n) as u8]
    } else {
        nat_digits(n / 10).push((48 + n % 10) as u8)
    }
}

/// The decimal representation of a signed number: a minus sign before the
/// digits of a negative one, none of a sign otherwise.
pub open spec fn int_digits(n: int) -> Seq<u8> {
    if n < 0 {
        seq![45u8] + nat_digits((-n) as nat)
    } else {
        nat_digits(n as nat)
    }
}

/// The number that a run of decimal digits denotes; leading zeros count for
/// nothing and the empty run denotes zero.
pub open spec fn digits_value(s: Seq<u8>) -> nat
    decreases s.len(),
{
    if s.len() == 0 {
        0
    } else {
        (digits_value(s.drop_last()) * 10 + (s.last() - 48)) as nat
    }
}

/// The first position at or after `i` that holds no digit, or the length of
/// `s` where the digits run to its end.
pub open spec fn digits_end(s: Seq<u8>, i: int) -> int
    decreases s.len() - i,
{
    if 0 <= i < s.len() && is_digit(s[i]) {
        digits_end(s, i + 1)
    } else {
        i
    }
}

pub proof fn lemma_nat_digits_shape(n: nat)
    ensures
        nat_digits(n).len() >= 1,
        all_digits(nat_digits(n)),
        n > 0 ==> nat_digits(n)[0] != 48,
    decreases n,
{
    if n >= 10 {
        lemma_nat_digits_shape(n / 10);
    }
}

pub proof fn lemma_digits_value_of_nat_digits(n: nat)
    ensures
        digits_value(nat_digits(n)) == n,
    decreases n,
{
    if n < 10 {
        let s = nat_digits(n);
        assert(s.drop_last().len() == 0);
        assert(digits_value(s.drop_last()) == 0);
    } else {
        lemma_digits_value_of_nat_digits(n / 10);
        let s = nat_digits(n);
        assert(s.drop_last() =~= nat_digits(n / 10));
    }
}

/// Reading more digits never makes the number smaller.
pub proof fn lemma_digits_value_prefix(s: Seq<u8>, k: int)
    requires
        0 <= k <= s.len(),
        all_digits(s),
    ensures
        digits_value(s.take(k)) <= digits_value(s),
    decreases s.len(),
{
    if k < s.len() {
        assert(s.drop_last().take(k) =~= s.take(k));
        lemma_digits_value_prefix(s.drop_last(), k);
        assert(is_digit(s[s.len() - 1]));
    } else {
        assert(s.take(k) =~= s);
    }
}

/// `digits_end` stops at the first byte that is no digit.
pub proof fn lemma_digits_end(s: Seq<u8>, i: int)
    requires
        0 <= i <= s.len(),
    ensures
        i <= digits_end(s, i) <= s.len(),
        all_digits(s.subrange(i, digits_end(s, i))),
        digits_end(s, i) < s.len() ==> !is_digit(s[digits_end(s, i)]),
    decreases s.len() - i,
{
    if i < s.len() && is_digit(s[i]) {
        lemma_digits_end(s, i + 1);
        let e = digits_end(s, i);
        assert forall|j: int| 0 <= j < e - i implies is_digit(#[trigger] s.subrange(i, e)[j]) by {
            if j > 0 {
                assert(s.subrange(i, e)[j] == s.subrange(i + 1, e)[j - 1]);
            }
        }
    }
}

/// A run of digits followed by a byte that is no digit ends exactly there.
pub proof fn lemma_digits_end_of_run(s: Seq<u8>, i: int, e: int)
    requires
        0 <= i <= e <= s.len(),
        all_digits(s.subrange(i, e)),
        e < s.len() ==> !is_digit(s[e]),
    ensures
        digits_end(s, i) == e,
    decreases e - i,
{
    if i < e {
        assert(s.subrange(i, e)[0] == s[i]);
        assert forall|j: int| 0 <= j < e - (i + 1) implies is_digit(
            #[trigger] s.subrange(i + 1, e)[j],
        ) by {
            assert(s.subrange(i + 1, e)[j] == s.subrange(i, e)[j + 1]);
        }
        lemma_digits_end_of_run(s, i + 1, e);
    }
}

/// Appends the decimal representation of `n` to `out`.
pub fn push_decimal(out: &mut Vec<u8>, n: u64)
    ensures
        final(out)@ == old(out)@ + nat_digits(n as nat),
    decreases n,
{
    if n >= 10 {
        push_decimal(out, n / 10);
    }
    let d: u8 = (n % 10) as u8;
    out.push(48 + d);
    assert(final(out)@ =~= old(out)@ + nat_digits(n as nat));
}

/// The end of the run of digits that starts at `start`.
pub(crate) fn scan_digits(bytes: &[u8], start: usize) -> (end: usize)
    requires
        start <= bytes@.len(),
    ensures
        end == digits_end(bytes@, start as int),
        start <= end <= bytes@.len(),
{
    let mut end: usize = start;
    while end < bytes.len() && bytes[end] >= 48 && bytes[end] <= 57
        invariant
            start <= end <= bytes@.len(),
            digits_end(bytes@, start as int) == digits_end(bytes@, end as int),
        decreases bytes@.len() - end,
    {
        end = end + 1;
    }
    end
}

/// Reads the digits in `bytes[start..end]` as a number, as long as it stays
/// at or below `limit`.
pub(crate) fn parse_decimal(bytes: &[u8], start: usize, end: usize, limit: u64) -> (r: Option<u64>)
    requires
        start <= end <= bytes@.len(),
        all_digits(bytes@.subrange(start as int, end as int)),
    ensures
        match r {
            Some(v) => v == digits_value(bytes@.subrange(start as int, end as int)) && v <= limit,
            None => digits_value(bytes@.subrange(start as int, end as int)) > limit,
        },
{
    let ghost run = bytes@.subrange(start as int, end as int);
    let mut value: u64 = 0;
    let mut at: usize = start;
    assert(run.take(0).len() == 0);
    while at < end
        invariant
            start <= at <= end <= bytes@.len(),
            run == bytes@.subrange(start as int, end as int),
            all_digits(run),
            value == digits_value(run.take(at - start)),
            value <= limit,
        decreases end - at,
    {
        proof {
            assert(run[at - start] == bytes@[at as int]);
            assert(is_digit(run[at - start]));
            assert(run.take(at - start + 1).drop_last() =~= run.take(at - start));
            assert(run.take(at - start + 1).last() == run[at - start]);
        }
        let d: u8 = bytes[at] - 48;
        let next: u128 = (value as u128) * 10 + (d as u128);
        if next > limit as u128 {
            proof {
                lemma_digits_value_prefix(run, at - start + 1);
            }
            return None;
        }
        value = next as u64;
        at = at + 1;
    }
    assert(run.take(end - start) =~= run);
    Some(value)
}

} // verus!
