//! Numbers in text: a whole number that fits a byte, and a decimal number
//! rounded to the nearest whole degree.

use vstd::prelude::*;
use crate::table::TEMP_CEILING;
use crate::text::{find, find_char, slice_of};

verus! {

/// `c` is one of the ten decimal digits.
pub open spec fn is_digit(c: char) -> bool {
    '0' <= c <= '9'
}

/// The number that the digit `c` stands for.
pub open spec fn digit_value(c: char) -> int {
    c as int - '0' as int
}

/// Every character of `s` is a decimal digit.
pub open spec fn all_digits(s: Seq<char>) -> bool {
    forall|i: int| 0 <= i < s.len() ==> is_digit(#[trigger] s[i])
}

/// The number that the digits `s` write in base ten; 0 for no digits.
pub open spec fn number(s: Seq<char>) -> int
    decreases s.len(),
{
    if s.len() == 0 {
        0
    } else {
        number(s.drop_last()) * 10 + digit_value(s.last())
    }
}

/// The smaller of two numbers.
pub open spec fn least(a: int, b: int) -> int {
    if a <= b {
        a
    } else {
        b
    }
}

/// Digits write a number that is not negative.
pub proof fn lemma_number_nonnegative(s: Seq<char>)
    requires
        all_digits(s),
    ensures
        number(s) >= 0,
    decreases s.len(),
{
    if s.len() > 0 {
        assert(all_digits(s.drop_last())) by {
            assert forall|i: int| 0 <= i < s.drop_last().len() implies is_digit(
                #[trigger] s.drop_last()[i],
            ) by {
                assert(s.drop_last()[i] == s[i]);
            }
        }
        lemma_number_nonnegative(s.drop_last());
        assert(is_digit(s[s.len() - 1]));
    }
}

/// What the digit `c` stands for, where it is one.
pub fn digit_of(c: char) -> (d: Option<u32>)
    ensures
        d is Some <==> is_digit(c),
        d matches Some(n) ==> n == digit_value(c) && n <= 9,
{
    if '0' <= c && c <= '9' {
        Some(c as u32 - 48)
    } else {
        None
    }
}

/// Reads the characters of `s` from `from` up to `to` as digits: the number
/// they write, held down to `cap`, or `None` where one of them is no digit.
pub fn parse_digits(s: &Vec<char>, from: usize, to: usize, cap: u32) -> (r: Option<u32>)
    requires
        from <= to <= s.len(),
        cap <= 0x0fff_ffff,
    ensures
        r is Some <==> all_digits(s@.subrange(from as int, to as int)),
        r matches Some(n) ==> n == least(number(s@.subrange(from as int, to as int)), cap as int),
{
    let ghost part = s@.subrange(from as int, to as int);
    let mut acc: u32 = 0;
    let mut i: usize = from;
    while i < to
        invariant
            from <= i <= to <= s.len(),
            cap <= 0x0fff_ffff,
            part == s@.subrange(from as int, to as int),
            all_digits(part.take(i - from)),
            acc == least(number(part.take(i - from)), cap as int),
        decreases to - i,
    {
        let ghost seen = part.take(i - from);
        let ghost next = part.take(i - from + 1);
        proof {
            assert(next.drop_last() =~= seen);
            assert(next.last() == s[i as int]);
            assert(part[i - from] == s[i as int]);
            lemma_number_nonnegative(seen);
        }
        match digit_of(s[i]) {
            None => {
                proof {
                    assert(!is_digit(part[i - from]));
                }
                return None;
            },
            Some(d) => {
                let grown: u32 = acc * 10 + d;
                acc = if grown > cap {
                    cap
                } else {
                    grown
                };
                proof {
                    assert forall|k: int| 0 <= k < next.len() implies is_digit(
                        #[trigger] next[k],
                    ) by {
                        if k < seen.len() {
                            assert(next[k] == seen[k]);
                        }
                    }
                }
            },
        }
        i += 1;
    }
    proof {
        assert(part.take(to - from) =~= part);
    }
    Some(acc)
}

/// What `s` says as a whole number: an optional `+`, then one digit or more,
/// however many. `None` for any other text.
pub open spec fn whole_text(s: Seq<char>) -> Option<int> {
    let digits = if s.len() > 0 && s[0] == '+' {
        s.skip(1)
    } else {
        s
    };
    if digits.len() > 0 && all_digits(digits) {
        Some(number(digits))
    } else {
        None
    }
}

/// A whole number in text is not negative.
pub proof fn lemma_whole_text_nonnegative(s: Seq<char>)
    ensures
        whole_text(s) matches Some(n) ==> n >= 0,
{
    if s.len() > 0 && s[0] == '+' {
        if all_digits(s.skip(1)) {
            lemma_number_nonnegative(s.skip(1));
        }
    } else if all_digits(s) {
        lemma_number_nonnegative(s);
    }
}

/// Reads `s` as a whole number, held down to `cap`; `None` where `s` is no
/// whole number.
pub fn parse_whole(s: &Vec<char>, cap: u32) -> (r: Option<u32>)
    requires
        cap <= 0x0fff_ffff,
    ensures
        r is Some <==> whole_text(s@) is Some,
        r matches Some(n) ==> n == least(whole_text(s@)->0, cap as int),
{
    let from: usize = if s.len() > 0 && s[0] == '+' {
        1
    } else {
        0
    };
    proof {
        assert(s@.subrange(from as int, s.len() as int) =~= s@.skip(from as int));
        if from == 0 {
            assert(s@.skip(0) =~= s@);
        }
    }
    if from == s.len() {
        return None;
    }
    parse_digits(s, from, s.len(), cap)
}

/// A number with whole digits `whole` and decimals `frac`, rounded to the
/// nearest whole number, a half upwards.
pub open spec fn nearest(whole: Seq<char>, frac: Seq<char>) -> int {
    let up: int = if frac.len() > 0 && digit_value(frac[0]) >= 5 {
        1
    } else {
        0
    };
    number(whole) + up
}

/// A number with whole digits `whole` and decimals `frac`, rounded to the
/// nearest whole number, a half upwards, and held down to the ceiling.
pub open spec fn rounded(whole: Seq<char>, frac: Seq<char>) -> int {
    least(nearest(whole, frac), TEMP_CEILING as int)
}

/// Ten to the power `k`.
pub open spec fn pow10(k: nat) -> int
    decreases k,
{
    if k == 0 {
        1
    } else {
        10 * pow10((k - 1) as nat)
    }
}

/// The number with whole digits `whole` and decimals `frac`, times ten to the
/// count of its decimals: a whole number that stands for the exact value.
pub open spec fn scaled(whole: Seq<char>, frac: Seq<char>) -> int {
    number(whole) * pow10(frac.len()) + number(frac)
}

/// A power of ten is positive.
pub proof fn lemma_pow10_positive(k: nat)
    ensures
        pow10(k) > 0,
    decreases k,
{
    if k > 0 {
        lemma_pow10_positive((k - 1) as nat);
    }
}

/// Digits write their first digit times a power of ten, plus what the digits
/// behind it write, which is less than that power.
pub proof fn lemma_number_leading(s: Seq<char>)
    requires
        all_digits(s),
        s.len() > 0,
    ensures
        number(s) == digit_value(s[0]) * pow10((s.len() - 1) as nat) + number(s.skip(1)),
        0 <= number(s.skip(1)) < pow10((s.len() - 1) as nat),
    decreases s.len(),
{
    let d = digit_value(s[0]);
    let last = digit_value(s.last());
    assert(is_digit(s[0]));
    assert(is_digit(s[s.len() - 1]));
    if s.len() == 1 {
        assert(s.skip(1) =~= Seq::<char>::empty());
        assert(s.drop_last() =~= Seq::<char>::empty());
        assert(number(s.drop_last()) == 0);
        assert(number(s.skip(1)) == 0);
        assert(pow10(0) == 1);
        assert(d * 1 == d) by (nonlinear_arith);
    } else {
        let t = s.drop_last();
        assert(all_digits(t)) by {
            assert forall|i: int| 0 <= i < t.len() implies is_digit(#[trigger] t[i]) by {
                assert(t[i] == s[i]);
            }
        }
        lemma_number_leading(t);
        let q = pow10((t.len() - 1) as nat);
        let inner = number(t.skip(1));
        assert(s.skip(1).drop_last() =~= t.skip(1));
        assert(s.skip(1).last() == s.last());
        assert(number(s.skip(1)) == inner * 10 + last);
        assert(pow10((s.len() - 1) as nat) == 10 * q);
        assert(t[0] == s[0]);
        assert(number(t) == d * q + inner);
        assert(number(s) == number(t) * 10 + last);
        assert((d * q + inner) * 10 + last == d * (10 * q) + (inner * 10 + last))
            by (nonlinear_arith);
    }
}

/// Rounding goes to the nearest whole number, a half upwards: the exact value
/// lies from half a unit below the rounded number up to, not including, half
/// a unit above it. Both sides are doubled and scaled, to stay whole.
pub proof fn law_rounding_is_nearest(whole: Seq<char>, frac: Seq<char>)
    requires
        all_digits(whole),
        all_digits(frac),
    ensures
        (2 * nearest(whole, frac) - 1) * pow10(frac.len()) <= 2 * scaled(whole, frac),
        2 * scaled(whole, frac) < (2 * nearest(whole, frac) + 1) * pow10(frac.len()),
{
    let w = number(whole);
    let p = pow10(frac.len());
    let f = number(frac);
    if frac.len() == 0 {
        assert(p == 1);
        assert(f == 0);
        assert(w * 1 == w) by (nonlinear_arith);
    } else {
        lemma_number_leading(frac);
        lemma_pow10_positive((frac.len() - 1) as nat);
        let q = pow10((frac.len() - 1) as nat);
        let d = digit_value(frac[0]);
        let rest = number(frac.skip(1));
        assert(is_digit(frac[0]));
        assert(p == 10 * q);
        let dq = d * q;
        let wp = w * p;
        assert(0 <= d <= 9);
        if d >= 5 {
            assert(5 * q <= dq <= 9 * q) by (nonlinear_arith)
                requires
                    5 <= d <= 9,
                    q > 0,
                    dq == d * q,
            ;
            assert((2 * (w + 1) - 1) * p == 2 * wp + p && (2 * (w + 1) + 1) * p == 2 * wp + 3 * p)
                by (nonlinear_arith)
                requires
                    wp == w * p,
            ;
        } else {
            assert(0 <= dq <= 4 * q) by (nonlinear_arith)
                requires
                    0 <= d <= 4,
                    q > 0,
                    dq == d * q,
            ;
            assert((2 * w - 1) * p == 2 * wp - p && (2 * w + 1) * p == 2 * wp + p)
                by (nonlinear_arith)
                requires
                    wp == w * p,
            ;
        }
    }
}

/// Rounding keeps the order: of two numbers, the one that is not greater is
/// rounded to a number that is not greater. The two exact values are compared
/// on a common scale.
pub proof fn law_rounding_is_monotone(
    whole: Seq<char>,
    frac: Seq<char>,
    other_whole: Seq<char>,
    other_frac: Seq<char>,
)
    requires
        all_digits(whole),
        all_digits(frac),
        all_digits(other_whole),
        all_digits(other_frac),
        scaled(whole, frac) * pow10(other_frac.len()) <= scaled(other_whole, other_frac) * pow10(
            frac.len(),
        ),
    ensures
        nearest(whole, frac) <= nearest(other_whole, other_frac),
        rounded(whole, frac) <= rounded(other_whole, other_frac),
{
    law_rounding_is_nearest(whole, frac);
    law_rounding_is_nearest(other_whole, other_frac);
    lemma_pow10_positive(frac.len());
    lemma_pow10_positive(other_frac.len());
    let p = pow10(frac.len());
    let q = pow10(other_frac.len());
    let x = scaled(whole, frac);
    let y = scaled(other_whole, other_frac);
    let a = nearest(whole, frac);
    let b = nearest(other_whole, other_frac);
    assert(a <= b) by (nonlinear_arith)
        requires
            p > 0,
            q > 0,
            (2 * a - 1) * p <= 2 * x,
            2 * y < (2 * b + 1) * q,
            x * q <= y * p,
    ;
}

/// What `s` says as a decimal number of degrees: an optional sign, digits, a
/// point, digits, with a digit on at least one side of the point. The result
/// is the number rounded to the nearest whole degree and held down to the
/// ceiling; a number below zero gives 0. `None` for any other text.
pub open spec fn decimal_text(s: Seq<char>) -> Option<u8> {
    let signed = s.len() > 0 && (s[0] == '+' || s[0] == '-');
    let body = if signed {
        s.skip(1)
    } else {
        s
    };
    let dot = find(body, '.');
    let whole = body.take(dot);
    let frac = body.skip(dot + 1);
    if dot < body.len() && all_digits(whole) && all_digits(frac) && whole.len() + frac.len() > 0 {
        if s[0] == '-' {
            Some(0u8)
        } else {
            Some(rounded(whole, frac) as u8)
        }
    } else {
        None
    }
}

/// A decimal number of degrees is read as at most the ceiling.
pub proof fn lemma_decimal_text_in_range(s: Seq<char>)
    ensures
        decimal_text(s) matches Some(n) ==> n <= TEMP_CEILING,
{
    let signed = s.len() > 0 && (s[0] == '+' || s[0] == '-');
    let body = if signed {
        s.skip(1)
    } else {
        s
    };
    let whole = body.take(find(body, '.'));
    if all_digits(whole) {
        lemma_number_nonnegative(whole);
    }
}

/// Reads `s` as a decimal number of degrees.
pub fn parse_decimal(s: &Vec<char>) -> (r: Option<u8>)
    ensures
        r == decimal_text(s@),
        r matches Some(n) ==> n <= TEMP_CEILING,
{
    let signed = s.len() > 0 && (s[0] == '+' || s[0] == '-');
    let start: usize = if signed {
        1
    } else {
        0
    };
    let body = slice_of(s, start, s.len());
    proof {
        assert(s@.subrange(start as int, s.len() as int) =~= s@.skip(start as int));
        if !signed {
            assert(s@.skip(0) =~= s@);
        }
    }
    let dot = find_char(&body, '.');
    if dot >= body.len() {
        return None;
    }
    let ghost whole = body@.take(dot as int);
    let ghost frac = body@.skip(dot + 1);
    proof {
        assert(body@.subrange(0, dot as int) =~= whole);
        assert(body@.subrange(dot + 1, body.len() as int) =~= frac);
    }
    let w = parse_digits(&body, 0, dot, 1000);
    let f = parse_digits(&body, dot + 1, body.len(), 1000);
    match (w, f) {
        (Some(n), Some(_)) => {
            if dot == 0 && dot + 1 == body.len() {
                return None;
            }
            if s[0] == '-' {
                return Some(0);
            }
            let up: u32 = if dot + 1 < body.len() && body[dot + 1] >= '5' {
                1
            } else {
                0
            };
            proof {
                lemma_number_nonnegative(whole);
                if frac.len() > 0 {
                    assert(frac[0] == body[dot + 1]);
                    assert(is_digit(frac[0]));
                }
            }
            let sum: u32 = n + up;
            if sum > 101 {
                Some(TEMP_CEILING)
            } else {
                Some(sum as u8)
            }
        },
        _ => None,
    }
}

} // verus!
