use vstd::prelude::*;

use crate::error::IntErrorKind;

verus! {

/// The code point of a character, as a mathematical integer.
pub open spec fn char_code(c: char) -> int {
    (c as u32) as int
}

/// Whether a character is a decimal digit (`'0'` is code 48, `'9'` is 57).
pub open spec fn is_digit(c: char) -> bool {
    48 <= char_code(c) && char_code(c) <= 57
}

/// The numeric value of a decimal digit.
pub open spec fn digit_val(c: char) -> int {
    char_code(c) - 48
}

/// Whether every character of a sequence is a decimal digit.
pub open spec fn all_digits(s: Seq<char>) -> bool {
    forall|i: int| 0 <= i < s.len() ==> is_digit(s[i])
}

/// The value of a sequence of decimal digits, most significant first.
pub open spec fn digits_value(s: Seq<char>) -> int
    decreases s.len(),
{
    if s.len() == 0 {
        0
    } else {
        digits_value(s.drop_last()) * 10 + digit_val(s.last())
    }
}

/// The length of the longest all-digit prefix of a sequence.
pub open spec fn digit_prefix_len(s: Seq<char>) -> int
    decreases s.len(),
{
    if s.len() == 0 || !is_digit(s[0]) {
        0
    } else {
        1 + digit_prefix_len(s.drop_first())
    }
}

/// A sign, if any, is consumed before the digits of an unsigned number.
pub open spec fn strip_plus(s: Seq<char>) -> Seq<char> {
    if s.len() > 0 && s[0] == '+' {
        s.drop_first()
    } else {
        s
    }
}

/// Reading an unsigned decimal number from the text after any sign, the way
/// std's parser does: digits are consumed left to right, and the first
/// overflow past `limit` is reported before a later non-digit character is.
pub open spec fn scan_uint_spec(body: Seq<char>, limit: int, neg: bool) -> Result<
    int,
    IntErrorKind,
> {
    let p = digit_prefix_len(body);
    if body.len() == 0 {
        Err(IntErrorKind::InvalidDigit)
    } else if digits_value(body.take(p)) > limit {
        Err(if neg {
            IntErrorKind::NegOverflow
        } else {
            IntErrorKind::PosOverflow
        })
    } else if p < body.len() {
        Err(IntErrorKind::InvalidDigit)
    } else {
        Ok(digits_value(body))
    }
}

/// What reading an unsigned machine word from text yields: the number's value,
/// or the first failure encountered.
pub open spec fn parse_usize_spec(s: Seq<char>) -> Result<int, IntErrorKind> {
    if s.len() == 0 {
        Err(IntErrorKind::Empty)
    } else {
        scan_uint_spec(strip_plus(s), usize::MAX as int, false)
    }
}

/// What reading a signed 32-bit number from text yields.
pub open spec fn parse_i32_spec(s: Seq<char>) -> Result<int, IntErrorKind> {
    if s.len() == 0 {
        Err(IntErrorKind::Empty)
    } else if s[0] == '-' {
        match scan_uint_spec(s.drop_first(), i32::MAX as int + 1, true) {
            Ok(v) => Ok(-v),
            Err(e) => Err(e),
        }
    } else {
        scan_uint_spec(strip_plus(s), i32::MAX as int, false)
    }
}

/// Every position inside the all-digit prefix holds a digit, and the prefix
/// stops at the first non-digit.
pub proof fn lemma_digit_prefix(s: Seq<char>)
    ensures
        0 <= digit_prefix_len(s) <= s.len(),
        forall|i: int| 0 <= i < digit_prefix_len(s) ==> is_digit(s[i]),
        digit_prefix_len(s) < s.len() ==> !is_digit(s[digit_prefix_len(s)]),
    decreases s.len(),
{
    if s.len() > 0 && is_digit(s[0]) {
        let t = s.drop_first();
        lemma_digit_prefix(t);
        assert forall|i: int| 0 <= i < digit_prefix_len(s) implies is_digit(s[i]) by {
            if i > 0 {
                assert(t[i - 1] == s[i]);
            }
        }
        if digit_prefix_len(s) < s.len() {
            assert(t[digit_prefix_len(s) - 1] == s[digit_prefix_len(s)]);
        }
    }
}

/// The value of an all-digit sequence is never negative.
pub proof fn lemma_digits_value_nonneg(s: Seq<char>)
    requires
        all_digits(s),
    ensures
        digits_value(s) >= 0,
    decreases s.len(),
{
    if s.len() > 0 {
        assert(all_digits(s.drop_last()));
        lemma_digits_value_nonneg(s.drop_last());
    }
}

/// Reading more digits never makes the value smaller.
pub proof fn lemma_digits_value_mono(s: Seq<char>, k: int, m: int)
    requires
        0 <= k <= m <= s.len(),
        forall|i: int| 0 <= i < m ==> is_digit(s[i]),
    ensures
        digits_value(s.take(k)) <= digits_value(s.take(m)),
    decreases m - k,
{
    if k < m {
        lemma_digits_value_mono(s, k, m - 1);
        let t = s.take(m);
        assert(t.drop_last() =~= s.take(m - 1));
        assert(all_digits(s.take(m - 1)));
        lemma_digits_value_nonneg(s.take(m - 1));
    }
}

/// Scans the decimal digits of `s` from `start` on, accumulating into a
/// machine word, and fails exactly as std's unsigned parser does.
fn scan_usize(s: &str, start: usize) -> (r: Result<usize, IntErrorKind>)
    requires
        start <= s@.len(),
    ensures
        ({
            let spec = scan_uint_spec(s@.skip(start as int), usize::MAX as int, false);
            match r {
                Ok(v) => spec == Ok::<int, IntErrorKind>(v as int),
                Err(e) => spec == Err::<int, IntErrorKind>(e),
            }
        }),
{
    let ghost body = s@.skip(start as int);
    let n = s.unicode_len();
    proof {
        lemma_digit_prefix(body);
    }
    if start == n {
        return Err(IntErrorKind::InvalidDigit);
    }
    let mut i: usize = start;
    let mut acc: usize = 0;
    while i < n
        invariant
            start <= i <= n,
            n == s@.len(),
            body == s@.skip(start as int),
            digit_prefix_len(body) >= i - start,
            acc == digits_value(body.take(i - start)),
            digit_prefix_len(body) <= body.len(),
            forall|j: int| 0 <= j < digit_prefix_len(body) ==> is_digit(body[j]),
            digit_prefix_len(body) < body.len() ==> !is_digit(body[digit_prefix_len(body)]),
        decreases n - i,
    {
        let c = s.get_char(i);
        let code = c as u32;
        assert(body[i - start] == s@[i as int]);
        if code < 48 || code > 57 {
            // The first non-digit ends the scan; the prefix so far fit.
            assert(digit_prefix_len(body) == i - start);
            return Err(IntErrorKind::InvalidDigit);
        }
        let d: usize = (code - 48) as usize;
        let ghost k = i - start;
        assert(body.take(k + 1).drop_last() =~= body.take(k));
        assert(body.take(k + 1).last() == body[k]);
        let acc10 = match acc.checked_mul(10) {
            Some(v) => v,
            None => {
                proof {
                    lemma_digits_value_mono(body, k + 1, digit_prefix_len(body));
                }
                return Err(IntErrorKind::PosOverflow);
            },
        };
        let next = match acc10.checked_add(d) {
            Some(v) => v,
            None => {
                proof {
                    lemma_digits_value_mono(body, k + 1, digit_prefix_len(body));
                }
                return Err(IntErrorKind::PosOverflow);
            },
        };
        acc = next;
        i = i + 1;
    }
    assert(body.take(body.len() as int) =~= body);
    assert(digit_prefix_len(body) == body.len());
    Ok(acc)
}

/// Reads an unsigned machine word from text: an optional leading `+`, then
/// decimal digits.
pub fn parse_usize(s: &str) -> (r: Result<usize, IntErrorKind>)
    ensures
        match r {
            Ok(v) => parse_usize_spec(s@) == Ok::<int, IntErrorKind>(v as int),
            Err(e) => parse_usize_spec(s@) == Err::<int, IntErrorKind>(e),
        },
{
    let n = s.unicode_len();
    if n == 0 {
        return Err(IntErrorKind::Empty);
    }
    if s.get_char(0) == '+' {
        assert(strip_plus(s@) =~= s@.skip(1));
        scan_usize(s, 1)
    } else {
        assert(strip_plus(s@) =~= s@.skip(0));
        scan_usize(s, 0)
    }
}

/// Scans the decimal digits of `s` from `start` on into a magnitude capped by
/// `limit`, reporting overflow with the sign's error kind, as std does.
fn scan_magnitude(s: &str, start: usize, limit: u64, neg: bool) -> (r: Result<u64, IntErrorKind>)
    requires
        start <= s@.len(),
        limit <= 0x1_0000_0000u64,
    ensures
        ({
            let spec = scan_uint_spec(s@.skip(start as int), limit as int, neg);
            match r {
                Ok(v) => spec == Ok::<int, IntErrorKind>(v as int) && v <= limit,
                Err(e) => spec == Err::<int, IntErrorKind>(e),
            }
        }),
{
    let ghost body = s@.skip(start as int);
    let n = s.unicode_len();
    proof {
        lemma_digit_prefix(body);
    }
    if start == n {
        return Err(IntErrorKind::InvalidDigit);
    }
    let mut i: usize = start;
    let mut acc: u64 = 0;
    while i < n
        invariant
            start <= i <= n,
            n == s@.len(),
            body == s@.skip(start as int),
            limit <= 0x1_0000_0000u64,
            digit_prefix_len(body) >= i - start,
            acc == digits_value(body.take(i - start)),
            acc <= limit,
            digit_prefix_len(body) <= body.len(),
            forall|j: int| 0 <= j < digit_prefix_len(body) ==> is_digit(body[j]),
            digit_prefix_len(body) < body.len() ==> !is_digit(body[digit_prefix_len(body)]),
        decreases n - i,
    {
        let c = s.get_char(i);
        let code = c as u32;
        assert(body[i - start] == s@[i as int]);
        if code < 48 || code > 57 {
            assert(digit_prefix_len(body) == i - start);
            return Err(IntErrorKind::InvalidDigit);
        }
        let d: u64 = (code - 48) as u64;
        let ghost k = i - start;
        assert(body.take(k + 1).drop_last() =~= body.take(k));
        assert(body.take(k + 1).last() == body[k]);
        let next: u64 = acc * 10 + d;
        if next > limit {
            proof {
                lemma_digits_value_mono(body, k + 1, digit_prefix_len(body));
            }
            return Err(if neg {
                IntErrorKind::NegOverflow
            } else {
                IntErrorKind::PosOverflow
            });
        }
        acc = next;
        i = i + 1;
    }
    assert(body.take(body.len() as int) =~= body);
    assert(digit_prefix_len(body) == body.len());
    Ok(acc)
}

/// Reads a signed 32-bit number from text: an optional `+` or `-` sign, then
/// decimal digits.
pub fn parse_i32(s: &str) -> (r: Result<i32, IntErrorKind>)
    ensures
        match r {
            Ok(v) => parse_i32_spec(s@) == Ok::<int, IntErrorKind>(v as int),
            Err(e) => parse_i32_spec(s@) == Err::<int, IntErrorKind>(e),
        },
{
    let n = s.unicode_len();
    if n == 0 {
        return Err(IntErrorKind::Empty);
    }
    let first = s.get_char(0);
    if first == '-' {
        assert(s@.drop_first() =~= s@.skip(1));
        match scan_magnitude(s, 1, 0x8000_0000u64, true) {
            Ok(v) => {
                let m: i32 = if v == 0x8000_0000u64 {
                    i32::MIN
                } else {
                    -((v as u32) as i32)
                };
                Ok(m)
            },
            Err(e) => Err(e),
        }
    } else if first == '+' {
        assert(strip_plus(s@) =~= s@.skip(1));
        match scan_magnitude(s, 1, 0x7FFF_FFFFu64, false) {
            Ok(v) => Ok(v as i32),
            Err(e) => Err(e),
        }
    } else {
        assert(strip_plus(s@) =~= s@.skip(0));
        match scan_magnitude(s, 0, 0x7FFF_FFFFu64, false) {
            Ok(v) => Ok(v as i32),
            Err(e) => Err(e),
        }
    }
}

} // verus!
