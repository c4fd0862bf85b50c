//! Decimal text: the digits of natural numbers and signed integers as
//! sequences of ASCII bytes, with the executable encoders and parsers.

use vstd::prelude::*;

verus! {

/// Whether `b` is one of the ASCII digits `'0'..='9'`.
pub open spec fn is_digit(b: u8) -> bool {
    '0' as u8 <= b <= '9' as u8
}

/// The ASCII digit that stands for `d`, for `d` below ten.
pub open spec fn digit_byte(d: nat) -> u8
    recommends
        d < 10,
{
    ('0' as u8 + d) as u8
}

/// The decimal digits of `n`, most significant first, without leading zeros
/// (`0` is the single digit `"0"`).
pub open spec fn nat_digits(n: nat) -> Seq<u8>
    decreases n,
{
    if n < 10 {
        seq![digit_byte(n)]
    } else {
        nat_digits(n / 10).push(digit_byte(n % 10))
    }
}

/// The decimal text of `i`: a `'-'` for a negative number, then the digits
/// of its magnitude.
pub open spec fn int_digits(i: int) -> Seq<u8> {
    if i < 0 {
        seq!['-' as u8] + nat_digits((-i) as nat)
    } else {
        nat_digits(i as nat)
    }
}

/// The number that a run of ASCII digits denotes (0 for the empty run).
pub open spec fn digits_value(s: Seq<u8>) -> nat
    decreases s.len(),
{
    if s.len() == 0 {
        0
    } else {
        10 * digits_value(s.drop_last()) + (s.last() - '0' as u8) as nat
    }
}

/// Whether every byte of `s` is an ASCII digit.
pub open spec fn all_digits(s: Seq<u8>) -> bool {
    forall|i: int| 0 <= i < s.len() ==> is_digit(#[trigger] s[i])
}

/// The index at which the run of digits that starts at `from` ends: the
/// first index at or after `from` that holds no digit, or the length of `s`.
pub open spec fn digits_end(s: Seq<u8>, from: int) -> int
    decreases s.len() - from,
{
    if 0 <= from < s.len() && is_digit(s[from]) {
        digits_end(s, from + 1)
    } else {
        from
    }
}

/// The integer that the text `s` denotes: an optional `'+'` or `'-'`, then
/// one digit or more and nothing else, with a value that an `i64` can hold.
/// `None` for every other text.
pub open spec fn signed_value(s: Seq<u8>) -> Option<int> {
    if s.len() == 0 {
        None
    } else {
        let negative = s[0] == '-' as u8;
        let signed = negative || s[0] == '+' as u8;
        let body = if signed {
            s.skip(1)
        } else {
            s
        };
        let value = if negative {
            -(digits_value(body) as int)
        } else {
            digits_value(body) as int
        };
        if body.len() >= 1 && all_digits(body) && i64::MIN <= value <= i64::MAX {
            Some(value)
        } else {
            None
        }
    }
}

/// The digits of a number are digits, at least one of them, and they denote
/// the number.
pub proof fn lemma_nat_digits(n: nat)
    ensures
        nat_digits(n).len() >= 1,
        all_digits(nat_digits(n)),
        digits_value(nat_digits(n)) == n,
    decreases n,
{
    if n < 10 {
        let s = nat_digits(n);
        assert(s.drop_last() =~= Seq::<u8>::empty());
        assert(digits_value(s.drop_last()) == 0);
    } else {
        lemma_nat_digits(n / 10);
        let p = nat_digits(n / 10);
        let s = nat_digits(n);
        assert(s.drop_last() =~= p);
        assert(s.last() == digit_byte(n % 10));
    }
}

/// Ten to the power `k`.
pub open spec fn pow10(k: nat) -> nat
    decreases k,
{
    if k == 0 {
        1
    } else {
        10 * pow10((k - 1) as nat)
    }
}

/// A number below ten to the power `k` has `k` digits at most.
pub proof fn lemma_nat_digits_len(n: nat, k: nat)
    requires
        k >= 1,
        n < pow10(k),
    ensures
        nat_digits(n).len() <= k,
    decreases k,
{
    if n >= 10 {
        assert(pow10(1) == 10) by {
            reveal_with_fuel(pow10, 2);
        }
        lemma_nat_digits_len(n / 10, (k - 1) as nat);
    }
}

/// The decimal text of an `i64` has between 1 and 20 bytes.
pub proof fn lemma_int_digits_len(i: int)
    requires
        i64::MIN <= i <= i64::MAX,
    ensures
        1 <= int_digits(i).len() <= 20,
{
    assert(pow10(19) == 10_000_000_000_000_000_000nat) by {
        reveal_with_fuel(pow10, 20);
    }
    if i < 0 {
        lemma_nat_digits((-i) as nat);
        lemma_nat_digits_len((-i) as nat, 19);
    } else {
        lemma_nat_digits(i as nat);
        lemma_nat_digits_len(i as nat, 19);
    }
}

/// Reading the decimal text of an `i64` gives the number back.
pub proof fn lemma_int_digits_round_trip(i: int)
    requires
        i64::MIN <= i <= i64::MAX,
    ensures
        signed_value(int_digits(i)) == Some(i),
{
    let s = int_digits(i);
    if i < 0 {
        lemma_nat_digits((-i) as nat);
        assert(s.skip(1) =~= nat_digits((-i) as nat));
    } else {
        lemma_nat_digits(i as nat);
        assert(is_digit(s[0]));
    }
}

/// A run of digits ends within the text, holds digits only, and stops at
/// the first byte that is no digit.
pub proof fn lemma_digits_end(s: Seq<u8>, from: int)
    requires
        0 <= from <= s.len(),
    ensures
        from <= digits_end(s, from) <= s.len(),
        forall|j: int| from <= j < digits_end(s, from) ==> is_digit(#[trigger] s[j]),
        digits_end(s, from) < s.len() ==> !is_digit(s[digits_end(s, from)]),
    decreases s.len() - from,
{
    if from < s.len() && is_digit(s[from]) {
        lemma_digits_end(s, from + 1);
    }
}

/// A run that holds digits only and stops at a byte that is no digit, or at
/// the end of the text, is the run of digits that starts where it starts.
pub proof fn lemma_digits_end_at(s: Seq<u8>, from: int, end: int)
    requires
        0 <= from <= end <= s.len(),
        forall|j: int| from <= j < end ==> is_digit(#[trigger] s[j]),
        end == s.len() || !is_digit(s[end]),
    ensures
        digits_end(s, from) == end,
    decreases end - from,
{
    if from < end {
        lemma_digits_end_at(s, from + 1, end);
    }
}

/// A run of digits that stops before the end of `s` stops at the same place
/// in every text that begins with `s`.
pub proof fn lemma_digits_end_extend(s: Seq<u8>, more: Seq<u8>, from: int)
    requires
        0 <= from <= s.len(),
        digits_end(s, from) < s.len(),
    ensures
        digits_end(s + more, from) == digits_end(s, from),
    decreases s.len() - from,
{
    if from < s.len() && is_digit(s[from]) {
        lemma_digits_end_extend(s, more, from + 1);
    }
}

/// Scans the run of digits of `s` that starts at `from`. Returns where the
/// run ends and the number it denotes, or `None` for a number above `limit`.
pub fn scan_digits(s: &[u8], from: usize, limit: u64) -> (r: (usize, Option<u64>))
    requires
        from <= s@.len(),
    ensures
        r.0 == digits_end(s@, from as int),
        from <= r.0 <= s@.len(),
        match r.1 {
            Some(m) => m == digits_value(s@.subrange(from as int, r.0 as int)) && m <= limit,
            None => digits_value(s@.subrange(from as int, r.0 as int)) > limit,
        },
{
    let mut i: usize = from;
    let mut value: u64 = 0;
    let mut over: bool = false;
    proof {
        assert(s@.subrange(from as int, from as int) =~= Seq::<u8>::empty());
    }
    while i < s.len() && is_ascii_digit(s[i])
        invariant
            from <= i <= s@.len(),
            digits_end(s@, from as int) == digits_end(s@, i as int),
            !over ==> value == digits_value(s@.subrange(from as int, i as int)) && value <= limit,
            over ==> digits_value(s@.subrange(from as int, i as int)) > limit,
        decreases s@.len() - i,
    {
        let d: u8 = s[i] - ('0' as u8);
        proof {
            let run = s@.subrange(from as int, i + 1);
            assert(run.drop_last() =~= s@.subrange(from as int, i as int));
            assert(run.last() == s@[i as int]);
        }
        if !over {
            let next: u128 = (value as u128) * 10 + (d as u128);
            if next > limit as u128 {
                over = true;
            } else {
                value = next as u64;
            }
        }
        i = i + 1;
    }
    if over {
        (i, None)
    } else {
        (i, Some(value))
    }
}

/// Whether `b` is an ASCII digit.
pub fn is_ascii_digit(b: u8) -> (r: bool)
    ensures
        r == is_digit(b),
{
    '0' as u8 <= b && b <= '9' as u8
}

/// Appends the decimal digits of `n` to `out`.
pub fn push_nat_digits(n: u128, out: &mut Vec<u8>)
    ensures
        final(out)@ == old(out)@ + nat_digits(n as nat),
    decreases n,
{
    if n >= 10 {
        push_nat_digits(n / 10, out);
    }
    let d: u8 = (n % 10) as u8;
    out.push('0' as u8 + d);
    proof {
        if n < 10 {
            assert(final(out)@ =~= old(out)@ + nat_digits(n as nat));
        } else {
            assert(final(out)@ =~= old(out)@ + nat_digits(n as nat));
        }
    }
}

/// Appends the decimal text of `i` to `out`.
pub fn push_int_digits(i: i64, out: &mut Vec<u8>)
    ensures
        final(out)@ == old(out)@ + int_digits(i as int),
{
    if i < 0 {
        out.push('-' as u8);
        let magnitude: u64 = if i == i64::MIN {
            0x8000_0000_0000_0000u64
        } else {
            (-i) as u64
        };
        push_nat_digits(magnitude as u128, out);
        assert(final(out)@ =~= old(out)@ + int_digits(i as int));
    } else {
        push_nat_digits(i as u128, out);
    }
}

/// The decimal text of `i`.
pub fn format_i64(i: i64) -> (text: Vec<u8>)
    ensures
        text@ == int_digits(i as int),
{
    let mut text: Vec<u8> = Vec::new();
    push_int_digits(i, &mut text);
    assert(text@ =~= int_digits(i as int));
    text
}

/// Reads a signed decimal integer that fills the whole of `s`.
pub fn parse_i64(s: &[u8]) -> (r: Option<i64>)
    ensures
        match signed_value(s@) {
            Some(v) => r == Some(v as i64),
            None => r is None,
        },
{
    if s.len() == 0 {
        return None;
    }
    let negative = s[0] == '-' as u8;
    let signed = negative || s[0] == '+' as u8;
    let start: usize = if signed {
        1
    } else {
        0
    };
    let limit: u64 = if negative {
        0x8000_0000_0000_0000u64
    } else {
        0x7fff_ffff_ffff_ffffu64
    };
    let (end, magnitude) = scan_digits(s, start, limit);
    proof {
        lemma_digits_end(s@, start as int);
        let body = if signed {
            s@.skip(1)
        } else {
            s@
        };
        assert(body =~= s@.subrange(start as int, s@.len() as int));
        if end == s@.len() {
            assert(all_digits(body)) by {
                assert forall|j: int| 0 <= j < body.len() implies is_digit(#[trigger] body[j]) by {
                    assert(body[j] == s@[start + j]);
                }
            }
        } else {
            assert(!is_digit(body[end - start]));
        }
    }
    if end == start || end < s.len() {
        return None;
    }
    match magnitude {
        None => None,
        Some(m) => {
            if negative {
                if m == 0x8000_0000_0000_0000u64 {
                    Some(i64::MIN)
                } else {
                    Some(-(m as i64))
                }
            } else {
                Some(m as i64)
            }
        },
    }
}

} // verus!
