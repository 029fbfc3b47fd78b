//! Numeric tokens: decimal integers and fixed-point numbers.
//!
//! The format carries two kinds of numeric token: plain decimal integers
//! (indices, counts, tags) and decimal numbers with an optional fractional
//! part (lengths). The latter are held as [`Fixed`] values in thousandths;
//! parsing rounds the fourth fractional digit half away from zero, and
//! formatting always writes exactly three fractional digits.

use vstd::prelude::*;

use crate::Fixed;

verus! {

pub open spec fn is_digit(b: u8) -> bool {
    48 <= b && b <= 57
}

pub open spec fn digit_val(b: u8) -> nat {
    (b - 48) as nat
}

pub open spec fn all_digits(s: Seq<u8>) -> bool {
    forall|i: int| 0 <= i < s.len() ==> is_digit(#[trigger] s[i])
}

/// The value of a run of decimal digit bytes, most significant first.
pub open spec fn digits_val(s: Seq<u8>) -> nat
    decreases s.len(),
{
    if s.len() == 0 {
        0
    } else {
        digits_val(s.drop_last()) * 10 + digit_val(s.last())
    }
}

/// The absolute value of an integer, as a natural number.
pub open spec fn abs_i(v: int) -> nat {
    if v < 0 {
        (-v) as nat
    } else {
        v as nat
    }
}

pub open spec fn strip_plus(s: Seq<u8>) -> Seq<u8> {
    if s.len() > 0 && s[0] == 43 {
        s.skip(1)
    } else {
        s
    }
}

/// What a decimal token means as a `u32`: an optional `+`, then one or more
/// digits, value at most `u32::MAX`.
pub open spec fn parse_u32_tok(s: Seq<u8>) -> Option<u32> {
    let body = strip_plus(s);
    if body.len() > 0 && all_digits(body) && digits_val(body) <= u32::MAX {
        Some(digits_val(body) as u32)
    } else {
        None
    }
}

/// What a decimal token means as an `i32`: an optional sign, then one or
/// more digits, value within the `i32` range.
pub open spec fn parse_i32_tok(s: Seq<u8>) -> Option<i32> {
    if s.len() > 0 && s[0] == 45 {
        let body = s.skip(1);
        if body.len() > 0 && all_digits(body) && digits_val(body) <= 0x8000_0000 {
            Some((-(digits_val(body) as int)) as i32)
        } else {
            None
        }
    } else {
        let body = strip_plus(s);
        if body.len() > 0 && all_digits(body) && digits_val(body) <= i32::MAX {
            Some(digits_val(body) as i32)
        } else {
            None
        }
    }
}

/// The index of the first `.` in `s`, or `s.len()` if there is none.
pub open spec fn first_dot(s: Seq<u8>) -> int
    decreases s.len(),
{
    if s.len() == 0 {
        0
    } else if s[0] == 46 {
        0
    } else {
        1 + first_dot(s.skip(1))
    }
}

/// The fractional digits of a token, read as thousandths: the first three
/// digits positionally, plus one when the fourth digit rounds up.
pub open spec fn frac_milli(f: Seq<u8>) -> nat {
    let d0: nat = if f.len() > 0 { digit_val(f[0]) } else { 0 };
    let d1: nat = if f.len() > 1 { digit_val(f[1]) } else { 0 };
    let d2: nat = if f.len() > 2 { digit_val(f[2]) } else { 0 };
    let r: nat = if f.len() > 3 && f[3] >= 53 { 1 } else { 0 };
    d0 * 100 + d1 * 10 + d2 + r
}

/// The magnitude, in thousandths, of an unsigned fixed-point token body:
/// digits, with at most one `.`, at least one digit in all.
pub open spec fn fixed_body_milli(body: Seq<u8>) -> Option<int> {
    let dot = first_dot(body);
    let ipart = body.take(dot);
    let fpart = if dot < body.len() { body.skip(dot + 1) } else { Seq::<u8>::empty() };
    if all_digits(ipart) && all_digits(fpart) && ipart.len() + fpart.len() > 0 {
        Some(digits_val(ipart) * 1000 + frac_milli(fpart) as int)
    } else {
        None
    }
}

/// What a fixed-point token means: an optional sign, then a decimal number
/// with an optional fractional part, rounded to the nearest thousandth
/// (ties away from zero), provided the result fits in an `i64` count of
/// thousandths.
pub open spec fn parse_fixed_tok(s: Seq<u8>) -> Option<Fixed> {
    let neg = s.len() > 0 && s[0] == 45;
    let body = if s.len() > 0 && (s[0] == 45 || s[0] == 43) {
        s.skip(1)
    } else {
        s
    };
    match fixed_body_milli(body) {
        Some(m) => {
            if neg && m <= 0x8000_0000_0000_0000 {
                Some(Fixed { milli: (-m) as i64 })
            } else if !neg && m <= i64::MAX {
                Some(Fixed { milli: m as i64 })
            } else {
                None
            }
        },
        None => None,
    }
}

/// Outcome of reading a digit run against a cap.
enum Digits {
    NotDigits,
    TooBig,
    Val(u64),
}

proof fn lemma_digits_val_step(s: Seq<u8>, k: int)
    requires
        0 <= k < s.len(),
    ensures
        digits_val(s.take(k + 1)) == digits_val(s.take(k)) * 10 + digit_val(s[k]),
{
    assert(s.take(k + 1).drop_last() =~= s.take(k));
    assert(s.take(k + 1).last() == s[k]);
}

/// Reads `s[start..end]` as a run of decimal digits, capped at `bound`.
fn digits_value(s: &[u8], start: usize, end: usize, bound: u64) -> (r: Digits)
    requires
        start <= end <= s@.len(),
        bound <= 0x1000_0000_0000_0000,
    ensures
        match r {
            Digits::NotDigits => !all_digits(s@.subrange(start as int, end as int)),
            Digits::TooBig => all_digits(s@.subrange(start as int, end as int))
                && digits_val(s@.subrange(start as int, end as int)) > bound,
            Digits::Val(v) => all_digits(s@.subrange(start as int, end as int))
                && digits_val(s@.subrange(start as int, end as int)) == v && v <= bound,
        },
{
    let ghost body = s@.subrange(start as int, end as int);
    let mut acc: u64 = 0;
    let mut over = false;
    let mut i: usize = start;
    while i < end
        invariant
            start <= i <= end <= s@.len(),
            bound <= 0x1000_0000_0000_0000,
            body == s@.subrange(start as int, end as int),
            all_digits(body.take(i - start)),
            !over ==> acc == digits_val(body.take(i - start)) && acc <= bound,
            over ==> digits_val(body.take(i - start)) > bound,
        decreases end - i,
    {
        let b = s[i];
        assert(body[i - start] == s@[i as int]);
        if b < 48 || b > 57 {
            assert(!is_digit(body[i - start]));
            return Digits::NotDigits;
        }
        proof {
            assert(body.take(i - start + 1) =~= body.take(i - start).push(body[i - start]));
            lemma_digits_val_step(body, i - start);
        }
        if !over {
            acc = acc * 10 + (b - 48) as u64;
            if acc > bound {
                over = true;
            }
        }
        i += 1;
    }
    assert(body.take(end - start) =~= body);
    if over {
        Digits::TooBig
    } else {
        Digits::Val(acc)
    }
}

/// Reads `s[start..]` as the fractional digit run of a fixed-point token.
fn frac_value(s: &[u8], start: usize) -> (r: Option<u64>)
    requires
        start <= s@.len(),
    ensures
        match r {
            None => !all_digits(s@.skip(start as int)),
            Some(v) => all_digits(s@.skip(start as int)) && v == frac_milli(
                s@.skip(start as int),
            ),
        },
{
    let ghost f = s@.skip(start as int);
    let mut val: u64 = 0;
    let mut i: usize = start;
    while i < s.len()
        invariant
            start <= i <= s@.len(),
            f == s@.skip(start as int),
            all_digits(f.take(i - start)),
            val == frac_milli(f.take(i - start)),
            i - start >= 4 ==> val == frac_milli(f),
        decreases s@.len() - i,
    {
        let b = s[i];
        assert(f[i - start] == s@[i as int]);
        if b < 48 || b > 57 {
            assert(!is_digit(f[i - start]));
            return None;
        }
        proof {
            assert(f.take(i - start + 1) =~= f.take(i - start).push(f[i - start]));
        }
        let j = i - start;
        if j == 0 {
            val = (b - 48) as u64 * 100;
        } else if j == 1 {
            val = val + (b - 48) as u64 * 10;
        } else if j == 2 {
            val = val + (b - 48) as u64;
        } else if j == 3 {
            if b >= 53 {
                val = val + 1;
            }
            proof {
                assert(f.take(i - start + 1) =~= f.take(4));
                assert forall|k: Seq<u8>| k == f && k.len() >= 4 implies frac_milli(k.take(4))
                    == frac_milli(k) by {
                    assert(k.take(4)[0] == k[0]);
                    assert(k.take(4)[1] == k[1]);
                    assert(k.take(4)[2] == k[2]);
                    assert(k.take(4)[3] == k[3]);
                }
            }
        }
        i += 1;
    }
    assert(f.take(s@.len() - start) =~= f);
    Some(val)
}

/// Reads a whole token as a `u32`, as [`parse_u32_tok`] states.
pub fn parse_u32(s: &[u8]) -> (r: Option<u32>)
    ensures
        r == parse_u32_tok(s@),
{
    let mut start: usize = 0;
    if s.len() > 0 && s[0] == 43 {
        start = 1;
    }
    proof {
        assert(strip_plus(s@) =~= s@.subrange(start as int, s@.len() as int));
    }
    if start == s.len() {
        return None;
    }
    match digits_value(s, start, s.len(), 0xFFFF_FFFF) {
        Digits::Val(v) => Some(v as u32),
        _ => None,
    }
}

/// Reads a whole token as an `i32`, as [`parse_i32_tok`] states.
pub fn parse_i32(s: &[u8]) -> (r: Option<i32>)
    ensures
        r == parse_i32_tok(s@),
{
    if s.len() > 0 && s[0] == 45 {
        if s.len() == 1 {
            return None;
        }
        proof {
            assert(s@.skip(1) =~= s@.subrange(1, s@.len() as int));
        }
        match digits_value(s, 1, s.len(), 0x8000_0000) {
            Digits::Val(v) => Some((-(v as i64)) as i32),
            _ => None,
        }
    } else {
        let mut start: usize = 0;
        if s.len() > 0 && s[0] == 43 {
            start = 1;
        }
        proof {
            assert(strip_plus(s@) =~= s@.subrange(start as int, s@.len() as int));
        }
        if start == s.len() {
            return None;
        }
        match digits_value(s, start, s.len(), 0x7FFF_FFFF) {
            Digits::Val(v) => Some(v as i32),
            _ => None,
        }
    }
}

/// Finds the first `.` at or after `start`, as [`first_dot`] states of the
/// suffix.
fn find_dot(s: &[u8], start: usize) -> (r: usize)
    requires
        start <= s@.len(),
    ensures
        start <= r <= s@.len(),
        r - start == first_dot(s@.skip(start as int)),
{
    let mut i: usize = start;
    while i < s.len()
        invariant
            start <= i <= s@.len(),
            first_dot(s@.skip(start as int)) == i - start + first_dot(s@.skip(i as int)),
            forall|k: int| start <= k < i ==> s@[k] != 46,
        decreases s@.len() - i,
    {
        if s[i] == 46 {
            assert(s@.skip(i as int)[0] == s@[i as int]);
            return i;
        }
        proof {
            assert(s@.skip(i as int)[0] == s@[i as int]);
            assert(s@.skip(i as int).skip(1) =~= s@.skip(i + 1));
        }
        i += 1;
    }
    assert(s@.skip(i as int).len() == 0);
    i
}

/// Reads a whole token as a [`Fixed`], as [`parse_fixed_tok`] states.
pub fn parse_fixed(s: &[u8]) -> (r: Option<Fixed>)
    ensures
        r == parse_fixed_tok(s@),
{
    let mut start: usize = 0;
    let mut neg = false;
    if s.len() > 0 && s[0] == 45 {
        start = 1;
        neg = true;
    } else if s.len() > 0 && s[0] == 43 {
        start = 1;
    }
    let ghost body = if s@.len() > 0 && (s@[0] == 45 || s@[0] == 43) {
        s@.skip(1)
    } else {
        s@
    };
    proof {
        assert(body =~= s@.subrange(start as int, s@.len() as int));
    }
    let dot = find_dot(s, start);
    let ghost ipart = body.take(first_dot(body));
    let ghost fpart = if first_dot(body) < body.len() {
        body.skip(first_dot(body) + 1)
    } else {
        Seq::<u8>::empty()
    };
    proof {
        assert(body.skip(start - start) =~= body);
        assert(ipart =~= s@.subrange(start as int, dot as int));
    }
    // The number of digits before and after the dot.
    let ilen = dot - start;
    let flen = if dot < s.len() {
        s.len() - dot - 1
    } else {
        0
    };
    let ipart_val: u64 = match digits_value(s, start, dot, 9223372036854775) {
        Digits::NotDigits => {
            return None;
        },
        Digits::TooBig => {
            // The integer part alone already exceeds the representable range.
            assert(digits_val(ipart) * 1000 > 0x8000_0000_0000_0000);
            return None;
        },
        Digits::Val(v) => v,
    };
    let frac: u64 = if dot < s.len() {
        proof {
            assert(fpart =~= s@.skip(dot + 1));
        }
        match frac_value(s, dot + 1) {
            None => {
                return None;
            },
            Some(v) => v,
        }
    } else {
        0
    };
    if ilen == 0 && flen == 0 {
        return None;
    }
    assert(frac <= 1000) by {
        if first_dot(body) < body.len() {
            if fpart.len() > 0 {
                assert(is_digit(fpart[0]) && digit_val(fpart[0]) <= 9);
            }
            if fpart.len() > 1 {
                assert(is_digit(fpart[1]) && digit_val(fpart[1]) <= 9);
            }
            if fpart.len() > 2 {
                assert(is_digit(fpart[2]) && digit_val(fpart[2]) <= 9);
            }
        }
    };
    let m: u64 = ipart_val * 1000 + frac;
    if neg {
        if m <= 0x8000_0000_0000_0000 {
            Some(Fixed { milli: (-(m as i128)) as i64 })
        } else {
            None
        }
    } else {
        if m <= 0x7FFF_FFFF_FFFF_FFFF {
            Some(Fixed { milli: m as i64 })
        } else {
            None
        }
    }
}

/// The decimal digits of `n`, most significant first, no leading zeros
/// (a single `0` for zero).
pub open spec fn dec_digits(n: nat) -> Seq<u8>
    decreases n,
{
    if n < 10 {
        seq![(48 + n) as u8]
    } else {
        dec_digits(n / 10).push((48 + n % 10) as u8)
    }
}

/// The canonical text of a signed integer.
pub open spec fn fmt_int(v: int) -> Seq<u8> {
    if v < 0 {
        seq![45u8] + dec_digits((-v) as nat)
    } else {
        dec_digits(v as nat)
    }
}

/// Exactly three fractional digits, with leading zeros.
pub open spec fn frac3_digits(f: nat) -> Seq<u8> {
    seq![(48 + f / 100) as u8, (48 + (f / 10) % 10) as u8, (48 + f % 10) as u8]
}

/// The canonical text of a fixed-point value: sign, integer part, `.`,
/// exactly three fractional digits.
pub open spec fn fmt_fixed(f: Fixed) -> Seq<u8> {
    let m = abs_i(f.milli as int);
    let sign: Seq<u8> = if f.milli < 0 {
        seq![45u8]
    } else {
        Seq::empty()
    };
    sign + dec_digits(m / 1000) + seq![46u8] + frac3_digits(m % 1000)
}

/// Appends the decimal digits of `n`, as [`dec_digits`] states.
pub fn push_dec_u64(out: &mut Vec<u8>, n: u64)
    ensures
        final(out)@ == old(out)@ + dec_digits(n as nat),
    decreases n,
{
    if n >= 10 {
        push_dec_u64(out, n / 10);
    }
    out.push(48 + (n % 10) as u8);
    proof {
        if n < 10 {
            assert(out@ =~= old(out)@ + dec_digits(n as nat));
        } else {
            assert(out@ =~= old(out)@ + dec_digits(n as nat));
        }
    }
}

/// Appends the canonical text of a signed integer, as [`fmt_int`] states.
pub fn push_int_i64(out: &mut Vec<u8>, v: i64)
    ensures
        final(out)@ == old(out)@ + fmt_int(v as int),
{
    let m: u64 = if v < 0 {
        (-(v as i128)) as u64
    } else {
        v as u64
    };
    if v < 0 {
        out.push(45);
    }
    push_dec_u64(out, m);
    proof {
        assert(out@ =~= old(out)@ + fmt_int(v as int));
    }
}

/// Appends the canonical text of a fixed-point value, as [`fmt_fixed`]
/// states.
pub fn push_fixed(out: &mut Vec<u8>, f: Fixed)
    ensures
        final(out)@ == old(out)@ + fmt_fixed(f),
{
    let m: u64 = if f.milli < 0 {
        (-(f.milli as i128)) as u64
    } else {
        f.milli as u64
    };
    if f.milli < 0 {
        out.push(45);
    }
    push_dec_u64(out, m / 1000);
    out.push(46);
    let r = m % 1000;
    out.push(48 + (r / 100) as u8);
    out.push(48 + ((r / 10) % 10) as u8);
    out.push(48 + (r % 10) as u8);
    proof {
        assert(out@ =~= old(out)@ + fmt_fixed(f));
    }
}

/// Every byte of `dec_digits` is a decimal digit.
pub proof fn lemma_dec_digits_are_digits(n: nat)
    ensures
        dec_digits(n).len() >= 1,
        all_digits(dec_digits(n)),
    decreases n,
{
    if n >= 10 {
        lemma_dec_digits_are_digits(n / 10);
        assert forall|i: int| 0 <= i < dec_digits(n).len() implies is_digit(
            #[trigger] dec_digits(n)[i],
        ) by {
            if i < dec_digits(n).len() - 1 {
                assert(dec_digits(n)[i] == dec_digits(n / 10)[i]);
            }
        }
    }
}

/// Reading back the decimal digits of `n` yields `n`.
pub proof fn lemma_digits_val_dec(n: nat)
    ensures
        digits_val(dec_digits(n)) == n,
    decreases n,
{
    if n < 10 {
        assert(dec_digits(n).drop_last() =~= Seq::<u8>::empty());
        assert(digits_val(Seq::<u8>::empty()) == 0);
        assert(dec_digits(n).last() == (48 + n) as u8);
        assert(digit_val((48 + n) as u8) == n);
    } else {
        lemma_digits_val_dec(n / 10);
        assert(dec_digits(n).drop_last() =~= dec_digits(n / 10));
        assert(dec_digits(n).last() == (48 + n % 10) as u8);
        assert(digit_val((48 + n % 10) as u8) == n % 10);
        assert((n / 10) * 10 + n % 10 == n);
    }
}

/// A `u32` written in decimal parses back to itself.
pub proof fn lemma_u32_round_trip(n: u32)
    ensures
        parse_u32_tok(dec_digits(n as nat)) == Some(n),
{
    lemma_dec_digits_are_digits(n as nat);
    lemma_digits_val_dec(n as nat);
    let s = dec_digits(n as nat);
    assert(is_digit(s[0]));
    assert(strip_plus(s) == s);
}

/// An `i32` written in decimal parses back to itself.
pub proof fn lemma_i32_round_trip(v: i32)
    ensures
        parse_i32_tok(fmt_int(v as int)) == Some(v),
{
    let m = abs_i(v as int);
    lemma_dec_digits_are_digits(m);
    lemma_digits_val_dec(m);
    let s = fmt_int(v as int);
    if v < 0 {
        assert(s[0] == 45);
        assert(s.skip(1) =~= dec_digits(m));
    } else {
        assert(is_digit(s[0]));
        assert(strip_plus(s) == s);
    }
}

/// In a sequence built as digits, a dot, then more bytes, the first dot is
/// right after the digits.
proof fn lemma_first_dot_after_digits(a: Seq<u8>, b: Seq<u8>)
    requires
        all_digits(a),
    ensures
        first_dot(a + seq![46u8] + b) == a.len(),
    decreases a.len(),
{
    let s = a + seq![46u8] + b;
    if a.len() == 0 {
        assert(s[0] == 46);
    } else {
        assert(is_digit(a[0]));
        assert(s[0] == a[0]);
        assert(s.skip(1) =~= a.skip(1) + seq![46u8] + b);
        assert(all_digits(a.skip(1)));
        lemma_first_dot_after_digits(a.skip(1), b);
    }
}

/// A fixed-point value written canonically parses back to itself.
pub proof fn lemma_fixed_round_trip(f: Fixed)
    ensures
        parse_fixed_tok(fmt_fixed(f)) == Some(f),
{
    let m = abs_i(f.milli as int);
    let ip = m / 1000;
    let fr = m % 1000;
    lemma_dec_digits_are_digits(ip);
    lemma_digits_val_dec(ip);
    let digits = dec_digits(ip);
    let frac = frac3_digits(fr);
    let body = digits + seq![46u8] + frac;
    let s = fmt_fixed(f);
    assert(all_digits(frac)) by {
        assert(fr < 1000);
        assert(is_digit(frac[0]) && is_digit(frac[1]) && is_digit(frac[2]));
    };
    lemma_first_dot_after_digits(digits, frac);
    assert(body.take(digits.len() as int) =~= digits);
    assert(body.skip(digits.len() as int + 1) =~= frac);
    assert(frac_milli(frac) == fr) by {
        assert(digit_val(frac[0]) == fr / 100);
        assert(digit_val(frac[1]) == (fr / 10) % 10);
        assert(digit_val(frac[2]) == fr % 10);
        assert((fr / 100) * 100 + ((fr / 10) % 10) * 10 + fr % 10 == fr) by (nonlinear_arith)
            requires fr < 1000;
    };
    assert(fixed_body_milli(body) == Some(m as int));
    if f.milli < 0 {
        assert(s =~= seq![45u8] + body);
        assert(s[0] == 45);
        assert(s.skip(1) =~= body);
        assert(m <= 0x8000_0000_0000_0000);
        assert((-(m as int)) as i64 == f.milli);
    } else {
        assert(s =~= body);
        assert(is_digit(s[0]));
        assert(s.len() > 0 && s[0] != 45 && s[0] != 43);
        assert(m <= 0x7FFF_FFFF_FFFF_FFFF);
    }
}

/// The integer square root: the greatest `r` with `r * r <= n`.
pub open spec fn isqrt_spec(n: nat) -> nat
    decreases n,
{
    if n == 0 {
        0
    } else {
        let r = isqrt_spec((n - 1) as nat);
        if (r + 1) * (r + 1) <= n {
            (r + 1) as nat
        } else {
            r
        }
    }
}

/// `isqrt_spec` is the integer square root.
#[verifier::rlimit(30)]
pub proof fn lemma_isqrt(n: nat)
    ensures
        isqrt_spec(n) * isqrt_spec(n) <= n,
        n < (isqrt_spec(n) + 1) * (isqrt_spec(n) + 1),
    decreases n,
{
    if n > 0 {
        lemma_isqrt((n - 1) as nat);
        let r = isqrt_spec((n - 1) as nat);
        if (r + 1) * (r + 1) <= n {
            assert(isqrt_spec(n) == r + 1);
            assert(n < (r + 2) * (r + 2)) by (nonlinear_arith)
                requires
                    n - 1 < (r + 1) * (r + 1),
                    r >= 0,
            ;
            assert((isqrt_spec(n) + 1) * (isqrt_spec(n) + 1) == (r + 2) * (r + 2)) by (nonlinear_arith)
                requires
                    isqrt_spec(n) == r + 1,
            ;
            assert(isqrt_spec(n) * isqrt_spec(n) <= n);
            assert(n < (isqrt_spec(n) + 1) * (isqrt_spec(n) + 1));
        } else {
            assert(isqrt_spec(n) == r);
            assert(isqrt_spec(n) * isqrt_spec(n) <= n);
            assert(n < (isqrt_spec(n) + 1) * (isqrt_spec(n) + 1));
        }
    } else {
        assert(isqrt_spec(n) == 0);
        assert(n < (isqrt_spec(n) + 1) * (isqrt_spec(n) + 1)) by (nonlinear_arith)
            requires
                n == 0,
                isqrt_spec(n) == 0,
        ;
    }
}

/// Two integers with the square-root property are equal.
proof fn lemma_isqrt_unique(n: nat, r: nat)
    requires
        r * r <= n,
        n < (r + 1) * (r + 1),
    ensures
        r == isqrt_spec(n),
{
    lemma_isqrt(n);
    let s = isqrt_spec(n);
    assert(r == s) by (nonlinear_arith)
        requires
            r * r <= n,
            n < (r + 1) * (r + 1),
            s * s <= n,
            n < (s + 1) * (s + 1),
            r >= 0,
            s >= 0,
    ;
}

/// Both magnitudes halved until each is below `2^20`.
pub open spec fn shrink2(x: nat, y: nat) -> (nat, nat)
    decreases x + y,
{
    if x < 1048576 && y < 1048576 {
        (x, y)
    } else {
        shrink2(x / 2, y / 2)
    }
}

/// `m` with the sign of `v`.
pub open spec fn with_sign(v: int, m: nat) -> int {
    if v < 0 {
        -(m as int)
    } else {
        m as int
    }
}

/// One component of a unit vector, in thousandths: the nearest integer to
/// `1000 * a / sqrt(q)`, computed from the integer square root of the
/// proportion `1000000 * a * a / q`.
pub open spec fn unit_component(a: nat, q: nat) -> nat {
    (isqrt_spec(4 * ((a * a * 1000000) / q)) + 1) / 2
}

/// The unit-normalized form of the vector `(x, y)` (thousandths): both
/// components divided by the Euclidean norm and rounded to the nearest
/// thousandth, or the zero vector when the norm is zero. Large inputs are
/// first scaled down, which does not change the direction.
pub open spec fn normalize_milli(x: int, y: int) -> (int, int) {
    let s = shrink2(abs_i(x), abs_i(y));
    let q = s.0 * s.0 + s.1 * s.1;
    if q == 0 {
        (0, 0)
    } else {
        (with_sign(x, unit_component(s.0, q)), with_sign(y, unit_component(s.1, q)))
    }
}

/// The integer square root of a small number, by counting up.
fn isqrt_u64(n: u64) -> (r: u64)
    requires
        n <= 4_000_000,
    ensures
        r as nat == isqrt_spec(n as nat),
        r <= 2000,
{
    let mut r: u64 = 0;
    loop
        invariant
            n <= 4_000_000,
            r * r <= n,
            r <= 2000,
        ensures
            r * r <= n,
            n < (r + 1) * (r + 1),
            r <= 2000,
        decreases n - r * r,
    {
        let next: u64 = r + 1;
        proof {
            assert(next * next <= 2001 * 2001) by (nonlinear_arith)
                requires
                    next <= 2001,
            ;
        }
        if next * next <= n {
            proof {
                assert(next <= 2000) by (nonlinear_arith)
                    requires
                        next * next <= 4_000_000,
                        next >= 1,
                ;
                assert(next * next > r * r) by (nonlinear_arith)
                    requires
                        next == r + 1,
                        r >= 0,
                ;
            }
            r = next;
        } else {
            break;
        }
    }
    proof {
        lemma_isqrt_unique(n as nat, r as nat);
    }
    r
}

/// The unit-normalized vector, as [`normalize_milli`] states. Components
/// always lie in `[-1000, 1000]`.
pub fn normalize(x: i64, y: i64) -> (r: (i64, i64))
    ensures
        (r.0 as int, r.1 as int) == normalize_milli(x as int, y as int),
        -1000 <= r.0 <= 1000,
        -1000 <= r.1 <= 1000,
{
    let mut xa: u64 = if x < 0 {
        (-(x as i128)) as u64
    } else {
        x as u64
    };
    let mut ya: u64 = if y < 0 {
        (-(y as i128)) as u64
    } else {
        y as u64
    };
    proof {
        assert(xa as nat == abs_i(x as int));
        assert(ya as nat == abs_i(y as int));
    }
    let ghost s = shrink2(abs_i(x as int), abs_i(y as int));
    while xa >= 1048576 || ya >= 1048576
        invariant
            s == shrink2(xa as nat, ya as nat),
        decreases xa + ya,
    {
        xa = xa / 2;
        ya = ya / 2;
    }
    proof {
        assert(xa * xa < 1048576 * 1048576 && ya * ya < 1048576 * 1048576) by (nonlinear_arith)
            requires
                0 <= xa < 1048576,
                0 <= ya < 1048576,
        ;
    }
    let q: u64 = xa * xa + ya * ya;
    if q == 0 {
        return (0, 0);
    }
    let nx = unit_component_exec(xa, q);
    let ny = unit_component_exec(ya, q);
    let rx: i64 = if x < 0 {
        -(nx as i64)
    } else {
        nx as i64
    };
    let ry: i64 = if y < 0 {
        -(ny as i64)
    } else {
        ny as i64
    };
    (rx, ry)
}

/// One normalized component, as [`unit_component`] states.
fn unit_component_exec(a: u64, q: u64) -> (r: u64)
    requires
        a as nat * a as nat <= q,
        q > 0,
        q < 2199023255552,  // 2 * 2^20 * 2^20
    ensures
        r as nat == unit_component(a as nat, q as nat),
        r <= 1000,
{
    proof {
        assert(a as nat * a as nat * 1000000 <= q * 1000000) by (nonlinear_arith)
            requires
                a as nat * a as nat <= q,
        ;
        assert((a as nat * a as nat * 1000000) / q as nat <= (q as nat * 1000000) / q as nat) by {
            vstd::arithmetic::div_mod::lemma_div_is_ordered(
                a as int * a as int * 1000000,
                q as int * 1000000,
                q as int,
            );
        };
        assert((q * 1000000) as nat / q as nat == 1000000) by (nonlinear_arith)
            requires
                q > 0,
        ;
    }
    let v: u64 = a * a * 1000000 / q;
    assert(v <= 1000000);
    let t = isqrt_u64(4 * v);
    proof {
        assert(t * t <= 4 * v <= 4000000 ==> t <= 2000) by (nonlinear_arith);
        lemma_isqrt(4 * v as nat);
    }
    (t + 1) / 2
}

} // verus!
