//! The numeric processor: conversions between bases, with traces, and the
//! largest value of a number of digits.

use vstd::prelude::*;
use crate::grouping::{
    bin_to_hex_spec, bin_to_oct_spec, hex_pad_len, hex_to_bin_spec, is_hex_char,
    lemma_bin_to_hex, lemma_bin_to_oct, lemma_hex_to_bin, lemma_oct_to_bin, lemma_power_small,
    lemma_value_bound, lemma_value_single, nibbles, oct_to_bin_spec,
};
use crate::numeral::{
    dec, digit_char, digit_val, is_base_digit, lemma_digit_char_val, lemma_power_monotone,
    lemma_power_positive, lemma_sig_digits, lemma_to_digits_value, lemma_value_concat, power,
    lemma_value_zeros, sig_digits, to_digits, valid_digits, value_of, zeros,
};
use crate::decimal::decimal_of;
use crate::text::{chars_of, push_char, string_from_chars};
use super::dto::{
    result_view, ConversionResult, ConversionResultView, MaximumValueRequest, MaximumValueResult,
    InputKind, MaximumValueResultView, ParsedConversionRequest, ParsedRequestView,
    ProcessingWarning, Sign,
};
use super::errors::{ProcessingError, ProcessingErrorView};

verus! {

/// The value of a digit character; 0 for a character that is no digit.
pub(crate) fn digit_to_value(c: char) -> (v: u64)
    ensures
        v == digit_val(c),
{
    if '0' <= c && c <= '9' {
        (c as u64) - ('0' as u64)
    } else if 'A' <= c && c <= 'Z' {
        (c as u64) - ('A' as u64) + 10
    } else {
        0
    }
}

/// The digit character of a value below 36.
pub(crate) fn value_to_digit(v: u64) -> (c: char)
    requires
        v < 36,
    ensures
        c == digit_char(v as nat),
{
    if v < 10 {
        ((48u8 + v as u8) as char)
    } else {
        ((65u8 + (v - 10) as u8) as char)
    }
}


/// `base` raised to `exp`, or `None` when that exceeds `u64::MAX`.
fn checked_power(base: u64, exp: usize) -> (r: Option<u64>)
    ensures
        r matches Some(p) ==> p == power(base as int, exp as nat),
        r is None <==> power(base as int, exp as nat) > u64::MAX,
{
    let mut acc: u64 = 1;
    let mut i: usize = 0;
    while i < exp
        invariant
            i <= exp,
            acc == power(base as int, i as nat),
        decreases exp - i,
    {
        match acc.checked_mul(base) {
            Some(a) => {
                acc = a;
            },
            None => {
                proof {
                    assert(power(base as int, (i + 1) as nat) == base * power(base as int, i as nat));
                    assert(base >= 1) by (nonlinear_arith)
                        requires
                            acc * base > u64::MAX,
                    ;
                    lemma_power_monotone(base as int, (i + 1) as nat, exp as nat);
                }
                return None;
            },
        }
        i = i + 1;
        assert(power(base as int, i as nat) == base * power(base as int, (i - 1) as nat));
        assert(acc == power(base as int, i as nat)) by (nonlinear_arith)
            requires
                acc == power(base as int, (i - 1) as nat) * base,
                power(base as int, i as nat) == base * power(base as int, (i - 1) as nat),
        ;
    }
    Some(acc)
}

/// The canonical digits of `n` in `base`, as characters.
fn digits_of(n: u64, base: u64) -> (v: Vec<char>)
    requires
        2 <= base <= 36,
    ensures
        v@ == to_digits(n as nat, base as nat),
{
    if n == 0 {
        return vec!['0'];
    }
    let mut digits: Vec<char> = Vec::new();
    let mut m: u64 = n;
    while m > 0
        invariant
            2 <= base <= 36,
            sig_digits(n as nat, base as nat) == sig_digits(m as nat, base as nat) + digits@,
        decreases m,
    {
        let r = m % base;
        let q = m / base;
        digits.insert(0, value_to_digit(r));
        proof {
            assert(sig_digits(m as nat, base as nat) == sig_digits(q as nat, base as nat).push(
                digit_char(r as nat),
            ));
        }
        m = q;
        assert(sig_digits(n as nat, base as nat) =~= sig_digits(m as nat, base as nat) + digits@);
    }
    proof {
        lemma_sig_digits(n as nat, base as nat);
        assert(sig_digits(0, base as nat) =~= Seq::<char>::empty());
        assert(digits@ =~= sig_digits(n as nat, base as nat));
    }
    digits
}

/// The canonical digits of `n` in `base`, as a string.
fn digits_string(n: u64, base: u64) -> (s: String)
    requires
        2 <= base <= 36,
    ensures
        s@ == to_digits(n as nat, base as nat),
{
    let v = digits_of(n, base);
    string_from_chars(v.as_slice())
}

/// The decimal rendering of `n`.
pub fn decimal_string(n: u64) -> (s: String)
    ensures
        s@ == dec(n as nat),
{
    digits_string(n, 10)
}


/// The value of the bits `b[start..end]`, at most four of them.
fn group_value(b: &[char], start: usize, end: usize) -> (v: u64)
    requires
        start <= end <= b@.len(),
        end - start <= 4,
        valid_digits(b@, 2),
    ensures
        v == value_of(b@.subrange(start as int, end as int), 2),
        v < power(2, (end - start) as nat),
{
    let mut v: u64 = 0;
    let mut k: usize = start;
    while k < end
        invariant
            start <= k <= end <= b@.len(),
            end - start <= 4,
            valid_digits(b@, 2),
            v == value_of(b@.subrange(start as int, k as int), 2),
            v < power(2, (k - start) as nat),
        decreases end - k,
    {
        assert(is_base_digit(b@[k as int], 2));
        let d = digit_to_value(b[k]);
        proof {
            assert(b@.subrange(start as int, (k + 1) as int).drop_last() =~= b@.subrange(
                start as int,
                k as int,
            ));
            assert(power(2, (k + 1 - start) as nat) == 2 * power(2, (k - start) as nat));
            lemma_power_monotone(2, (k - start) as nat, 4);
            reveal_with_fuel(power, 5);
        }
        v = v * 2 + d;
        k = k + 1;
    }
    v
}

/// Binary digits to octal digits by grouping bits in threes from the least
/// significant end.
fn bin_to_oct(bin: &[char]) -> (s: String)
    requires
        valid_digits(bin@, 2),
    ensures
        s@ == bin_to_oct_spec(bin@),
{
    let n = bin.len();
    let r = n % 3;
    let mut out = String::new();
    let mut i: usize = 0;
    proof {
        lemma_power_small();
    }
    if r > 0 {
        let g = group_value(bin, 0, r);
        proof {
            lemma_power_monotone(2, r as nat, 3);
        }
        push_char(&mut out, value_to_digit(g));
        i = r;
        assert(bin@.take(i as int) =~= bin@.subrange(0, r as int));
    }
    assert(bin@.take(0) =~= Seq::<char>::empty());
    while i < n
        invariant
            n == bin@.len(),
            valid_digits(bin@, 2),
            i <= n,
            i % 3 == n % 3,
            out@ == bin_to_oct_spec(bin@.take(i as int)),
            power(2, 3) == 8,
        decreases n - i,
    {
        let g = group_value(bin, i, i + 3);
        push_char(&mut out, value_to_digit(g));
        proof {
            let t = bin@.take(i + 3);
            assert(t.take(i as int) =~= bin@.take(i as int));
            assert(t.skip(i as int) =~= bin@.subrange(i as int, i + 3));
            if i == 0 {
                assert(t =~= bin@.subrange(0, 3));
                assert(bin_to_oct_spec(bin@.take(0)) =~= Seq::<char>::empty());
            }
        }
        i = i + 3;
        assert(out@ =~= bin_to_oct_spec(bin@.take(i as int)));
    }
    assert(bin@.take(n as int) =~= bin@);
    out
}

/// Octal digits to binary digits, three bits per octal digit.
fn oct_to_bin(oct: &[char]) -> (s: String)
    ensures
        s@ == oct_to_bin_spec(oct@),
{
    let mut out = String::new();
    let mut i: usize = 0;
    assert(oct@.take(0) =~= Seq::<char>::empty());
    while i < oct.len()
        invariant
            i <= oct@.len(),
            out@ == oct_to_bin_spec(oct@.take(i as int)),
        decreases oct@.len() - i,
    {
        let d = digit_to_value(oct[i]);
        push_char(&mut out, if d / 4 == 0 { '0' } else { '1' });
        push_char(&mut out, if (d / 2) % 2 == 0 { '0' } else { '1' });
        push_char(&mut out, if d % 2 == 0 { '0' } else { '1' });
        proof {
            let t = oct@.take(i + 1);
            assert(t.drop_last() =~= oct@.take(i as int));
            assert(t.last() == oct@[i as int]);
        }
        i = i + 1;
        assert(out@ =~= oct_to_bin_spec(oct@.take(i as int)));
    }
    assert(oct@.take(oct@.len() as int) =~= oct@);
    out
}

/// A hexadecimal digit character: '0'..'9' or 'A'..'F'.
fn is_hex_digit(c: char) -> (b: bool)
    ensures
        b == is_hex_char(c),
{
    ('0' <= c && c <= '9') || ('A' <= c && c <= 'F')
}

/// Hexadecimal digits to binary digits, four bits per hexadecimal digit;
/// characters that name no hexadecimal digit are skipped.
fn hex_to_bin(hex: &[char]) -> (s: String)
    ensures
        s@ == hex_to_bin_spec(hex@),
{
    let mut out = String::new();
    let mut i: usize = 0;
    assert(hex@.take(0) =~= Seq::<char>::empty());
    while i < hex.len()
        invariant
            i <= hex@.len(),
            out@ == hex_to_bin_spec(hex@.take(i as int)),
        decreases hex@.len() - i,
    {
        let c = hex[i];
        if is_hex_digit(c) {
            let d = digit_to_value(c);
            push_char(&mut out, if d / 8 == 0 { '0' } else { '1' });
            push_char(&mut out, if (d / 4) % 2 == 0 { '0' } else { '1' });
            push_char(&mut out, if (d / 2) % 2 == 0 { '0' } else { '1' });
            push_char(&mut out, if d % 2 == 0 { '0' } else { '1' });
        }
        proof {
            let t = hex@.take(i + 1);
            assert(t.drop_last() =~= hex@.take(i as int));
            assert(t.last() == hex@[i as int]);
        }
        i = i + 1;
        assert(out@ =~= hex_to_bin_spec(hex@.take(i as int)));
    }
    assert(hex@.take(hex@.len() as int) =~= hex@);
    out
}

/// Binary digits to hexadecimal digits: the bits are padded in front with
/// zeros to at least eight and to a multiple of four, then read four at a
/// time.
fn bin_to_hex(bin: &[char]) -> (s: String)
    requires
        valid_digits(bin@, 2),
    ensures
        s@ == bin_to_hex_spec(bin@),
{
    let n = bin.len();
    let pad: usize = if n < 8 { 8 - n } else { (4 - n % 4) % 4 };
    let mut padded: Vec<char> = Vec::new();
    let mut j: usize = 0;
    while j < pad
        invariant
            j <= pad,
            padded@ == zeros(j as nat),
        decreases pad - j,
    {
        padded.push('0');
        j = j + 1;
        assert(padded@ =~= zeros(j as nat));
    }
    let mut k: usize = 0;
    while k < n
        invariant
            n == bin@.len(),
            k <= n,
            padded@ == zeros(pad as nat) + bin@.take(k as int),
        decreases n - k,
    {
        padded.push(bin[k]);
        k = k + 1;
        assert(padded@ =~= zeros(pad as nat) + bin@.take(k as int));
    }
    assert(bin@.take(n as int) =~= bin@);
    assert(pad == hex_pad_len(n as nat));
    let ghost p = padded@;
    assert(valid_digits(p, 2)) by {
        assert forall|q: int| 0 <= q < p.len() implies is_base_digit(#[trigger] p[q], 2) by {
            if q >= pad {
                assert(p[q] == bin@[q - pad]);
            }
        }
    }
    let m = padded.len();
    let mut out = String::new();
    let mut i: usize = 0;
    proof {
        lemma_power_small();
    }
    assert(p.take(0) =~= Seq::<char>::empty());
    while i < m
        invariant
            m == p.len(),
            padded@ == p,
            valid_digits(p, 2),
            m % 4 == 0,
            i <= m,
            i % 4 == 0,
            out@ == nibbles(p.take(i as int)),
            power(2, 4) == 16,
        decreases m - i,
    {
        let g = group_value(padded.as_slice(), i, i + 4);
        push_char(&mut out, value_to_digit(g));
        proof {
            let t = p.take(i + 4);
            assert(t.take(i as int) =~= p.take(i as int));
            assert(t.skip(i as int) =~= p.subrange(i as int, i + 4));
        }
        i = i + 4;
        assert(out@ =~= nibbles(p.take(i as int)));
    }
    assert(p.take(m as int) =~= p);
    out
}


/// One line of the positional-sum trace: "d x b^e = c".
pub open spec fn sum_line_spec(d: nat, base: nat, exp: nat, contribution: nat) -> Seq<char> {
    dec(d) + " x "@ + dec(base) + "^"@ + dec(exp) + " = "@ + dec(contribution)
}

/// The contribution of the digit at `i` of `digits` to their value.
pub open spec fn contribution(digits: Seq<char>, base: nat, i: int) -> nat {
    digit_val(digits[i]) * power(base as int, (digits.len() - 1 - i) as nat) as nat
}

/// One line per digit of the positional sum, most significant first.
pub open spec fn sum_lines(digits: Seq<char>, base: nat) -> Seq<Seq<char>> {
    Seq::new(
        digits.len(),
        |i: int|
            sum_line_spec(
                digit_val(digits[i]),
                base,
                (digits.len() - 1 - i) as nat,
                contribution(digits, base, i),
            ),
    )
}

/// The trace of the positional sum: the lines of the digits, then the
/// result; nothing when no trace is asked for.
pub open spec fn sum_trace(digits: Seq<char>, base: nat, generate: bool) -> Seq<Seq<char>> {
    if generate {
        sum_lines(digits, base).push("Result: "@ + dec(value_of(digits, base)))
    } else {
        seq![]
    }
}

/// One line of the successive-division trace: "n / b = q  r m".
pub open spec fn div_line_spec(n: nat, base: nat) -> Seq<char> {
    dec(n) + " / "@ + dec(base) + " = "@ + dec(n / base) + "  r "@ + dec(n % base)
}

/// The successive divisions of `n` by `base` until the quotient is zero.
pub open spec fn div_lines(n: nat, base: nat) -> Seq<Seq<char>>
    decreases n,
{
    if base < 2 || n == 0 {
        seq![]
    } else {
        proof {
            vstd::arithmetic::div_mod::lemma_div_decreases(n as int, base as int);
        }
        seq![div_line_spec(n, base)] + div_lines(n / base, base)
    }
}

/// The trace of the successive divisions: the divisions, then the result;
/// nothing for zero or when no trace is asked for.
pub open spec fn div_trace(n: nat, base: nat, generate: bool) -> Seq<Seq<char>> {
    if generate && n > 0 {
        div_lines(n, base).push(
            "Result (reading remainders bottom to top): "@ + to_digits(n, base),
        )
    } else {
        seq![]
    }
}

/// The value of `digits` in `base` fits in `u64`.
pub open spec fn fits_u64(digits: Seq<char>, base: nat) -> bool {
    value_of(digits, base) <= u64::MAX
}

/// The value of `s` split at `i`.
proof fn lemma_value_split(s: Seq<char>, base: nat, i: int)
    requires
        0 <= i <= s.len(),
    ensures
        value_of(s, base) == value_of(s.take(i), base) * power(base as int, (s.len() - i) as nat)
            + value_of(s.skip(i), base),
{
    assert(s =~= s.take(i) + s.skip(i));
    lemma_value_concat(s.take(i), s.skip(i), base);
}

/// A line of the positional-sum trace.
fn sum_line(d: u64, base: u64, exp: usize, contribution: u64) -> (s: String)
    ensures
        s@ == sum_line_spec(d as nat, base as nat, exp as nat, contribution as nat),
{
    let mut s = decimal_string(d);
    s.append(" x ");
    let b = decimal_string(base);
    s.append(b.as_str());
    s.append("^");
    let e = decimal_string(exp as u64);
    s.append(e.as_str());
    s.append(" = ");
    let c = decimal_string(contribution);
    s.append(c.as_str());
    s
}

/// A line of the successive-division trace.
fn div_line(n: u64, base: u64) -> (s: String)
    requires
        base >= 2,
    ensures
        s@ == div_line_spec(n as nat, base as nat),
{
    let mut s = decimal_string(n);
    s.append(" / ");
    let b = decimal_string(base);
    s.append(b.as_str());
    s.append(" = ");
    let q = decimal_string(n / base);
    s.append(q.as_str());
    s.append("  r ");
    let r = decimal_string(n % base);
    s.append(r.as_str());
    s
}

/// Any base to decimal by positional summation, with checked arithmetic:
/// fails with `Overflow` exactly when the value does not fit in `u64`. A
/// zero digit adds nothing, whatever its weight, so leading zeros never
/// overflow.
fn base_to_decimal_value(digits: &[char], source_base: u8, generate_trace: bool) -> (r: Result<
    (u64, Vec<String>),
    ProcessingError,
>)
    requires
        source_base >= 2,
    ensures
        r is Ok <==> fits_u64(digits@, source_base as nat),
        r matches Ok((v, t)) ==> v == value_of(digits@, source_base as nat) && t.deep_view()
            == sum_trace(digits@, source_base as nat, generate_trace),
        r matches Err(e) ==> e is Overflow,
{
    let base = source_base as u64;
    let len = digits.len();
    let mut result: u64 = 0;
    let mut trace: Vec<String> = Vec::new();
    let ghost s = digits@;
    let ghost b = base as nat;
    let mut i: usize = 0;
    proof {
        assert(value_of(s.take(0), b) == 0);
        assert(0 * power(b as int, len as nat) == 0) by (nonlinear_arith);
    }
    while i < len
        invariant
            s == digits@,
            len == s.len(),
            b == base,
            base == source_base,
            base >= 2,
            i <= len,
            result == value_of(s.take(i as int), b) * power(b as int, (len - i) as nat),
            generate_trace ==> trace.deep_view() == sum_lines(s, b).take(i as int),
            !generate_trace ==> trace.deep_view() == Seq::<Seq<char>>::empty(),
        decreases len - i,
    {
        let exp = len - 1 - i;
        let ghost pl = power(b as int, exp as nat);
        let ghost vi = value_of(s.take(i as int), b);
        let ghost vi1 = value_of(s.take(i + 1), b);
        proof {
            lemma_power_positive(b as int, exp as nat);
            assert(s.take(i + 1).drop_last() =~= s.take(i as int));
            assert(s.take(i + 1).last() == s[i as int]);
            assert(vi1 == vi * b + digit_val(s[i as int]));
            lemma_value_split(s, b, i + 1);
            assert(power(b as int, (len - i) as nat) == b * pl);
            assert(result == vi * b * pl) by (nonlinear_arith)
                requires
                    result == vi * power(b as int, (len - i) as nat),
                    power(b as int, (len - i) as nat) == b * pl,
            ;
            assert(vi1 * pl == vi * b * pl + digit_val(s[i as int]) * pl) by (nonlinear_arith)
                requires
                    vi1 == vi * b + digit_val(s[i as int]),
            ;
            assert((len - (i + 1)) as nat == exp as nat);
            assert(value_of(s, b) >= vi1 * pl);
            assert(vi1 * pl >= digit_val(s[i as int]) * pl) by (nonlinear_arith)
                requires
                    vi1 == vi * b + digit_val(s[i as int]),
                    vi >= 0,
                    b >= 0,
                    pl >= 1,
            ;
        }
        let dv = digit_to_value(digits[i]);
        let contribution: u64 = if dv == 0 {
            assert(0 * pl == 0) by (nonlinear_arith);
            0
        } else {
            let place_value = match checked_power(base, exp) {
                Some(p) => p,
                None => {
                    assert(digit_val(s[i as int]) * pl >= pl) by (nonlinear_arith)
                        requires
                            digit_val(s[i as int]) >= 1,
                            pl >= 1,
                    ;
                    assert(value_of(s, b) > u64::MAX);
                    return Err(ProcessingError::Overflow);
                },
            };
            match dv.checked_mul(place_value) {
                Some(c) => c,
                None => {
                    assert(value_of(s, b) > u64::MAX);
                    return Err(ProcessingError::Overflow);
                },
            }
        };
        result = match result.checked_add(contribution) {
            Some(v) => v,
            None => {
                assert(result + contribution == vi1 * pl);
                assert(value_of(s, b) > u64::MAX);
                return Err(ProcessingError::Overflow);
            },
        };
        if generate_trace {
            let line = sum_line(dv, base, exp, contribution);
            trace.push(line);
        }
        proof {
            if i == 0 {
                assert(exp == len - 1);
            }
        }
        i = i + 1;
        proof {
            if generate_trace {
                assert(trace.deep_view() =~= sum_lines(s, b).take(i as int));
            } else {
                assert(trace.deep_view() =~= Seq::<Seq<char>>::empty());
            }
        }
    }
    proof {
        assert(s.take(len as int) =~= s);
        assert(power(b as int, 0) == 1);
    }
    if generate_trace {
        let mut line = String::from_str("Result: ");
        let v = decimal_string(result);
        line.append(v.as_str());
        trace.push(line);
        proof {
            assert(sum_lines(s, b).take(len as int) =~= sum_lines(s, b));
            assert(trace.deep_view() =~= sum_trace(s, b, generate_trace));
        }
    }
    Ok((result, trace))
}

/// Decimal to any base by successive divisions.
fn decimal_to_any_base(n: u64, target_base: u8, generate_trace: bool) -> (r: Result<
    (String, Vec<String>),
    ProcessingError,
>)
    requires
        2 <= target_base <= 36,
    ensures
        r matches Ok((s, t)) && s@ == to_digits(n as nat, target_base as nat) && t.deep_view()
            == div_trace(n as nat, target_base as nat, generate_trace),
{
    if n == 0 {
        let z = String::from_str("0");
        proof {
            reveal_strlit("0");
        }
        let t: Vec<String> = Vec::new();
        assert(t.deep_view() =~= Seq::<Seq<char>>::empty());
        return Ok((z, t));
    }
    let base = target_base as u64;
    let ghost b = base as nat;
    let mut digits: Vec<char> = Vec::new();
    let mut trace: Vec<String> = Vec::new();
    let mut m: u64 = n;
    while m > 0
        invariant
            b == base,
            2 <= base <= 36,
            sig_digits(n as nat, b) == sig_digits(m as nat, b) + digits@,
            generate_trace ==> div_lines(n as nat, b) == trace.deep_view() + div_lines(m as nat, b),
            !generate_trace ==> trace.deep_view() == Seq::<Seq<char>>::empty(),
        decreases m,
    {
        let remainder = m % base;
        let quotient = m / base;
        digits.insert(0, value_to_digit(remainder));
        if generate_trace {
            let line = div_line(m, base);
            trace.push(line);
        }
        proof {
            assert(sig_digits(m as nat, b) == sig_digits(quotient as nat, b).push(
                digit_char(remainder as nat),
            ));
            assert(div_lines(m as nat, b) == seq![div_line_spec(m as nat, b)] + div_lines(
                quotient as nat,
                b,
            ));
        }
        m = quotient;
        proof {
            assert(sig_digits(n as nat, b) =~= sig_digits(m as nat, b) + digits@);
            if generate_trace {
                assert(div_lines(n as nat, b) =~= trace.deep_view() + div_lines(m as nat, b));
            } else {
                assert(trace.deep_view() =~= Seq::<Seq<char>>::empty());
            }
        }
    }
    proof {
        lemma_sig_digits(n as nat, b);
        assert(sig_digits(0, b) =~= Seq::<char>::empty());
        assert(div_lines(0, b) =~= Seq::<Seq<char>>::empty());
        assert(digits@ =~= to_digits(n as nat, b));
    }
    let result = string_from_chars(digits.as_slice());
    if generate_trace {
        let mut line = String::from_str("Result (reading remainders bottom to top): ");
        line.append(result.as_str());
        trace.push(line);
        proof {
            assert(trace.deep_view() =~= div_trace(n as nat, b, generate_trace));
        }
    }
    Ok((result, trace))
}


/// The pairs of bases that are converted by grouping bits, with no decimal
/// value in between.
pub open spec fn is_direct_pair(source_base: nat, target_base: nat) -> bool {
    ||| (source_base == 2 && target_base == 8)
    ||| (source_base == 8 && target_base == 2)
    ||| (source_base == 2 && target_base == 16)
    ||| (source_base == 16 && target_base == 2)
    ||| (source_base == 8 && target_base == 16)
    ||| (source_base == 16 && target_base == 8)
}

/// The digits that a direct pair of bases produces.
pub open spec fn direct_output(digits: Seq<char>, source_base: nat, target_base: nat) -> Seq<
    char,
> {
    if source_base == 2 && target_base == 8 {
        bin_to_oct_spec(digits)
    } else if source_base == 8 && target_base == 2 {
        oct_to_bin_spec(digits)
    } else if source_base == 2 && target_base == 16 {
        bin_to_hex_spec(digits)
    } else if source_base == 16 && target_base == 2 {
        hex_to_bin_spec(digits)
    } else if source_base == 8 && target_base == 16 {
        bin_to_hex_spec(oct_to_bin_spec(digits))
    } else {
        bin_to_oct_spec(hex_to_bin_spec(digits))
    }
}

/// The digits and the trace of an integer conversion, or `None` when the
/// value does not fit in `u64` on the way through decimal.
pub open spec fn convert_integer_spec(
    digits: Seq<char>,
    source_base: nat,
    target_base: nat,
    generate: bool,
) -> Option<(Seq<char>, Seq<Seq<char>>)> {
    if is_direct_pair(source_base, target_base) {
        Some((direct_output(digits, source_base, target_base), seq![]))
    } else if !fits_u64(digits, source_base) {
        None
    } else {
        let v = value_of(digits, source_base);
        let trace = if source_base == 10 {
            div_trace(v, target_base, generate)
        } else if target_base == 10 {
            sum_trace(digits, source_base, generate)
        } else {
            sum_trace(digits, source_base, generate) + div_trace(v, target_base, generate)
        };
        Some((to_digits(v, target_base), trace))
    }
}

/// Converts the digits of an integer between bases: bit grouping for the
/// pairs of binary, octal and hexadecimal; otherwise through a `u64` value,
/// by positional summation and successive divisions.
fn convert_integer(digits: &[char], source_base: u8, target_base: u8, generate_trace: bool) -> (r:
    Result<(String, Vec<String>), ProcessingError>)
    requires
        2 <= source_base <= 36,
        2 <= target_base <= 36,
        is_direct_pair(source_base as nat, target_base as nat) ==> valid_digits(
            digits@,
            source_base as nat,
        ),
    ensures
        match convert_integer_spec(
            digits@,
            source_base as nat,
            target_base as nat,
            generate_trace,
        ) {
            Some((out, trace)) => r matches Ok((s, t)) && s@ == out && t.deep_view() == trace,
            None => r matches Err(e) && e is Overflow,
        },
{
    let empty: Vec<String> = Vec::new();
    assert(empty.deep_view() =~= Seq::<Seq<char>>::empty());
    if source_base == 2 && target_base == 8 {
        return Ok((bin_to_oct(digits), empty));
    }
    if source_base == 8 && target_base == 2 {
        return Ok((oct_to_bin(digits), empty));
    }
    if source_base == 2 && target_base == 16 {
        return Ok((bin_to_hex(digits), empty));
    }
    if source_base == 16 && target_base == 2 {
        return Ok((hex_to_bin(digits), empty));
    }
    if source_base == 8 && target_base == 16 {
        let bin = oct_to_bin(digits);
        let bits = chars_of(bin.as_str());
        proof {
            lemma_oct_to_bin(digits@);
        }
        return Ok((bin_to_hex(bits.as_slice()), empty));
    }
    if source_base == 16 && target_base == 8 {
        let bin = hex_to_bin(digits);
        let bits = chars_of(bin.as_str());
        proof {
            lemma_hex_to_bin(digits@);
        }
        return Ok((bin_to_oct(bits.as_slice()), empty));
    }
    if source_base == 10 {
        let (decimal_val, _) = match base_to_decimal_value(digits, 10, false) {
            Ok(p) => p,
            Err(e) => {
                return Err(e);
            },
        };
        return decimal_to_any_base(decimal_val, target_base, generate_trace);
    }
    if target_base == 10 {
        let (decimal_val, trace) = match base_to_decimal_value(
            digits,
            source_base,
            generate_trace,
        ) {
            Ok(p) => p,
            Err(e) => {
                return Err(e);
            },
        };
        return Ok((decimal_string(decimal_val), trace));
    }
    let (decimal_val, mut trace) = match base_to_decimal_value(
        digits,
        source_base,
        generate_trace,
    ) {
        Ok(p) => p,
        Err(e) => {
            return Err(e);
        },
    };
    let (result, target_trace) = match decimal_to_any_base(
        decimal_val,
        target_base,
        generate_trace,
    ) {
        Ok(p) => p,
        Err(e) => {
            return Err(e);
        },
    };
    let mut target_trace = target_trace;
    let ghost first = trace@;
    let ghost second = target_trace@;
    trace.append(&mut target_trace);
    assert(trace@ == first + second);
    assert(trace.deep_view() =~= texts_concat(first, second));
    Ok((result, trace))
}

/// The texts of two lists of strings, one after the other.
spec fn texts_concat(first: Seq<String>, second: Seq<String>) -> Seq<Seq<char>> {
    Seq::new(first.len(), |i: int| first[i]@) + Seq::new(second.len(), |i: int| second[i]@)
}

/// The digits of the fraction n/d in `base` by successive multiplications:
/// each step multiplies the remainder by the base, the quotient by `d` is
/// the next digit and the rest is the new remainder. At most `m` digits are
/// made, and it stops early when the remainder is zero. Gives the digits
/// and the remainder that is left.
pub open spec fn frac_expansion(n: nat, d: nat, base: nat, m: nat) -> (Seq<char>, nat)
    decreases m,
{
    if m == 0 || n == 0 || d == 0 {
        (seq![], n)
    } else {
        let p = n * base;
        let rest = frac_expansion(p % d, d, base, (m - 1) as nat);
        (seq![digit_char(p / d)] + rest.0, rest.1)
    }
}

/// The expansion of the fraction digits `frac` of base `source_base` in
/// `target_base`, with at most `m` digits.
pub open spec fn fraction_expansion(
    frac: Seq<char>,
    source_base: nat,
    target_base: nat,
    m: nat,
) -> (Seq<char>, nat) {
    frac_expansion(
        value_of(frac, source_base),
        power(source_base as int, frac.len()) as nat,
        target_base,
        m,
    )
}

/// A point and the fraction digits, or a point and "0" when there are none.
pub open spec fn fraction_text(digits: Seq<char>) -> Seq<char> {
    if digits.len() == 0 {
        "."@ + seq!['0']
    } else {
        "."@ + digits
    }
}

/// Multiplies the fraction whose numerator is the value of `f` in base
/// `sb` (over sb^len) by `tb`: the carry out is the integer part of the
/// product, which is less than `tb`, and `f` keeps the rest.
fn times_base(f: &mut Vec<char>, sb: u8, tb: u8) -> (carry: u64)
    requires
        2 <= sb <= 36,
        2 <= tb <= 36,
        valid_digits(old(f)@, sb as nat),
    ensures
        valid_digits(final(f)@, sb as nat),
        final(f)@.len() == old(f)@.len(),
        carry < tb,
        value_of(old(f)@, sb as nat) * tb == carry * power(sb as int, old(f)@.len()) + value_of(
            final(f)@,
            sb as nat,
        ),
{
    let ghost f0 = f@;
    let ghost b = sb as nat;
    let n = f.len();
    let sbv = sb as u64;
    let tbv = tb as u64;
    let mut carry: u64 = 0;
    let mut j: usize = n;
    proof {
        assert(f@.skip(n as int) =~= Seq::<char>::empty());
        assert(value_of(Seq::<char>::empty(), b) == 0);
        assert(power(b as int, 0) == 1);
        assert(f@.take(n as int) =~= f0.take(n as int));
    }
    while j > 0
        invariant
            n == f@.len(),
            n == f0.len(),
            b == sb,
            sbv == sb,
            tbv == tb,
            2 <= sb <= 36,
            2 <= tb <= 36,
            j <= n,
            carry < tb,
            valid_digits(f@, b),
            valid_digits(f0, b),
            f@.take(j as int) == f0.take(j as int),
            value_of(f@.skip(j as int), b) + carry * power(b as int, (n - j) as nat) == value_of(
                f0.skip(j as int),
                b,
            ) * tb,
        decreases j,
    {
        j = j - 1;
        let ghost before = f@;
        assert(before[j as int] == before.take(j + 1)[j as int]);
        assert(f0[j as int] == f0.take(j + 1)[j as int]);
        assert(before.take(j + 1) == f0.take(j + 1)) by {
            assert(before.take(j + 1) =~= f0.take(j + 1));
        }
        assert(is_base_digit(f0[j as int], b));
        let x = digit_to_value(f[j]);
        assert(x < sbv);
        assert(x * tbv + carry < sbv * tbv) by (nonlinear_arith)
            requires
                x < sbv,
                carry < tbv,
        ;
        assert(sbv * tbv <= 36 * 36) by (nonlinear_arith)
            requires
                sbv <= 36,
                tbv <= 36,
        ;
        let t = x * tbv + carry;
        let ghost c_old = carry;
        let c = value_to_digit(t % sbv);
        f[j] = c;
        carry = t / sbv;
        proof {
            let p = power(b as int, (n - j - 1) as nat);
            lemma_power_positive(b as int, (n - j - 1) as nat);
            assert(power(b as int, (n - j) as nat) == b * p);
            lemma_digit_char_val((t % sbv) as nat);
            assert(carry < tb) by (nonlinear_arith)
                requires
                    t < sbv * tbv,
                    carry == t / sbv,
                    sbv >= 2,
                    tbv == tb,
            ;
            assert(f@.take(j as int) =~= f0.take(j as int)) by {
                assert(f@.take(j as int) =~= before.take(j as int));
                assert(before.take(j as int) =~= before.take(j + 1).take(j as int));
                assert(f0.take(j as int) =~= f0.take(j + 1).take(j as int));
            }
            assert(f@.skip(j as int) =~= seq![c] + before.skip(j + 1));
            assert(f0.skip(j as int) =~= seq![f0[j as int]] + f0.skip(j + 1));
            lemma_value_concat(seq![c], before.skip(j + 1), b);
            lemma_value_concat(seq![f0[j as int]], f0.skip(j + 1), b);
            lemma_value_single(c, b);
            lemma_value_single(f0[j as int], b);
            let vb = value_of(before.skip(j + 1), b);
            let v0 = value_of(f0.skip(j + 1), b);
            assert(vb + c_old * p == v0 * tb);
            assert((t % sbv) * p + (t / sbv) * (b * p) == t * p) by (nonlinear_arith)
                requires
                    p >= 1,
                    b == sbv,
                    sbv >= 2,
            ;
            assert(t * p == x * tb * p + c_old * p) by (nonlinear_arith)
                requires
                    t == x * tbv + c_old,
                    tbv == tb,
            ;
            assert((x * p + v0) * tb == x * tb * p + v0 * tb) by (nonlinear_arith);
            assert forall|q: int| 0 <= q < f@.len() implies is_base_digit(#[trigger] f@[q], b) by {
                if q != j {
                    assert(f@[q] == before[q]);
                }
            }
        }
    }
    proof {
        assert(f@.skip(0) =~= f@);
        assert(f0.skip(0) =~= f0);
    }
    carry
}

/// Whether the value of the digits `f` in base `sb` is zero: all of them
/// are '0'.
fn is_zero_fraction(f: &[char], sb: u8) -> (z: bool)
    requires
        2 <= sb <= 36,
        valid_digits(f@, sb as nat),
    ensures
        z == (value_of(f@, sb as nat) == 0),
{
    let mut i: usize = 0;
    while i < f.len()
        invariant
            2 <= sb <= 36,
            valid_digits(f@, sb as nat),
            i <= f@.len(),
            forall|q: int| 0 <= q < i ==> f@[q] == '0',
        decreases f@.len() - i,
    {
        if f[i] != '0' {
            proof {
                let b = sb as nat;
                assert(is_base_digit(f@[i as int], b));
                assert(digit_val(f@[i as int]) >= 1);
                lemma_value_split(f@, b, i + 1);
                let t = f@.take(i + 1);
                assert(t.drop_last() =~= f@.take(i as int));
                assert(t.last() == f@[i as int]);
                lemma_power_positive(b as int, (f@.len() - (i + 1)) as nat);
                assert(value_of(t, b) >= 1) by (nonlinear_arith)
                    requires
                        value_of(t, b) == value_of(f@.take(i as int), b) * b + digit_val(
                            f@[i as int],
                        ),
                        digit_val(f@[i as int]) >= 1,
                ;
                assert(value_of(t, b) * power(b as int, (f@.len() - (i + 1)) as nat) >= 1)
                    by (nonlinear_arith)
                    requires
                        value_of(t, b) >= 1,
                        power(b as int, (f@.len() - (i + 1)) as nat) >= 1,
                ;
            }
            return false;
        }
        i = i + 1;
    }
    proof {
        assert(f@ =~= zeros(f@.len()));
        lemma_value_zeros(f@.len(), sb as nat);
    }
    true
}

/// The fraction digits `frac` of base `source_base` in `target_base`, by
/// successive multiplications, at most `max_digits` of them; and whether a
/// remainder was left when it stopped.
fn convert_fraction(frac: &[char], source_base: u8, target_base: u8, max_digits: u8) -> (r: (
    String,
    bool,
))
    requires
        2 <= source_base <= 36,
        2 <= target_base <= 36,
        valid_digits(frac@, source_base as nat),
    ensures
        ({
            let e = fraction_expansion(
                frac@,
                source_base as nat,
                target_base as nat,
                max_digits as nat,
            );
            r.0@ == e.0 && r.1 == (e.1 != 0)
        }),
{
    let ghost b = source_base as nat;
    let ghost tb = target_base as nat;
    let ghost d = power(b as int, frac@.len()) as nat;
    let ghost e = fraction_expansion(frac@, b, tb, max_digits as nat);
    let mut f = vstd::slice::slice_to_vec(frac);
    let mut out = String::new();
    let mut count: u8 = 0;
    proof {
        lemma_power_positive(b as int, frac@.len());
        assert(out@ + frac_expansion(value_of(f@, b), d, tb, max_digits as nat).0 =~= e.0);
    }
    while count < max_digits
        invariant
            b == source_base,
            tb == target_base,
            2 <= source_base <= 36,
            2 <= target_base <= 36,
            f@.len() == frac@.len(),
            d == power(b as int, frac@.len()),
            d >= 1,
            valid_digits(f@, b),
            count <= max_digits,
            out@ + frac_expansion(value_of(f@, b), d, tb, (max_digits - count) as nat).0 == e.0,
            frac_expansion(value_of(f@, b), d, tb, (max_digits - count) as nat).1 == e.1,
        ensures
            frac_expansion(value_of(f@, b), d, tb, (max_digits - count) as nat) == (
                Seq::<char>::empty(),
                value_of(f@, b),
            ),
            out@ + frac_expansion(value_of(f@, b), d, tb, (max_digits - count) as nat).0 == e.0,
            frac_expansion(value_of(f@, b), d, tb, (max_digits - count) as nat).1 == e.1,
            valid_digits(f@, b),
        decreases max_digits - count,
    {
        if is_zero_fraction(f.as_slice(), source_base) {
            break;
        }
        let ghost n0 = value_of(f@, b);
        let ghost m = (max_digits - count) as nat;
        let carry = times_base(&mut f, source_base, target_base);
        let c = value_to_digit(carry);
        proof {
            let n1 = value_of(f@, b);
            lemma_value_bound(f@, b);
            vstd::arithmetic::div_mod::lemma_fundamental_div_mod_converse(
                (n0 * tb) as int,
                d as int,
                carry as int,
                n1 as int,
            );
            let rest = frac_expansion(n1, d, tb, (m - 1) as nat);
            assert(frac_expansion(n0, d, tb, m) == (seq![digit_char(carry as nat)] + rest.0, rest.1));
        }
        let ghost before = out@;
        push_char(&mut out, c);
        count = count + 1;
        proof {
            let rest = frac_expansion(value_of(f@, b), d, tb, (max_digits - count) as nat);
            assert(out@ + rest.0 =~= before + (seq![c] + rest.0));
        }
    }
    let truncated = !is_zero_fraction(f.as_slice(), source_base);
    proof {
        assert(out@ =~= e.0);
    }
    (out, truncated)
}

/// The text "b^k - 1 = m" for the largest value `m` of `k` digits in base `b`.
pub open spec fn maximum_expression(base: nat, num_digits: nat) -> Seq<char> {
    dec(base) + "^"@ + dec(num_digits) + " - 1 = "@ + dec(
        (power(base as int, num_digits) - 1) as nat,
    )
}

/// `k` copies of the largest digit of `base`: the largest numeral of `k`
/// digits.
fn max_digit_chars(base: u8, k: u32) -> (v: Vec<char>)
    requires
        2 <= base <= 36,
    ensures
        v@ == max_digits(base as nat, k as nat),
{
    let top = value_to_digit((base - 1) as u64);
    let mut v: Vec<char> = Vec::new();
    let mut i: u32 = 0;
    while i < k
        invariant
            i <= k,
            top == digit_char((base - 1) as nat),
            v@ == max_digits(base as nat, i as nat),
        decreases k - i,
    {
        v.push(top);
        i = i + 1;
        assert(v@ =~= max_digits(base as nat, i as nat));
    }
    v
}

/// The largest value of `num_digits` digits in `base`, as the text
/// "b^k - 1 = m", with `m` in decimal however large it is.
fn maximum(base: u32, num_digits: u32) -> (s: String)
    requires
        2 <= base <= 36,
    ensures
        s@ == maximum_expression(base as nat, num_digits as nat),
{
    let digits = max_digit_chars(base as u8, num_digits);
    proof {
        lemma_max_digits(base as nat, num_digits as nat);
    }
    let m = decimal_of(digits.as_slice(), base as u8);
    let mut s = decimal_string(base as u64);
    s.append("^");
    let k = decimal_string(num_digits as u64);
    s.append(k.as_str());
    s.append(" - 1 = ");
    s.append(m.as_str());
    s
}

/// A service that converts parsed requests and computes largest values.
pub trait NumericProcessingService {
    /// What a parsed request must satisfy to be converted.
    spec fn convert_requires(&self, request: ParsedRequestView) -> bool;

    /// The outcome of converting a parsed request.
    spec fn convert_spec(&self, request: ParsedRequestView) -> Result<
        ConversionResultView,
        ProcessingErrorView,
    >;

    /// What a request for a largest value must satisfy.
    spec fn maximum_requires(&self, request: MaximumValueRequest) -> bool;

    /// The outcome of a request for a largest value.
    spec fn maximum_spec(&self, request: MaximumValueRequest) -> Result<
        MaximumValueResultView,
        ProcessingErrorView,
    >;

    fn convert(&self, request: ParsedConversionRequest) -> (r: Result<
        ConversionResult,
        ProcessingError,
    >)
        requires
            self.convert_requires(request@),
        ensures
            result_view(r) == self.convert_spec(request@),
    ;

    fn compute_maximum(&self, request: MaximumValueRequest) -> (r: Result<
        MaximumValueResult,
        ProcessingError,
    >)
        requires
            self.maximum_requires(request),
        ensures
            result_view(r) == self.maximum_spec(request),
    ;
}

/// The processor of this library.
#[derive(Debug, Default, Clone, Copy)]
pub struct ConversionProcessor;

impl ConversionProcessor {
    pub fn new() -> (r: Self) {
        Self
    }
}

/// A parsed request that the processor can convert: both bases between 2
/// and 36; the integer digits are digits of the source base where they are
/// regrouped bit by bit (elsewhere any character counts with its digit
/// value, 0 for one that is no digit), and the fractional digits of a
/// fractional request are digits of the source base.
pub open spec fn well_formed_request(request: ParsedRequestView) -> bool {
    let source_base = request.detected_source_base as nat;
    &&& 2 <= request.detected_source_base <= 36
    &&& 2 <= request.original_input.target_base <= 36
    &&& is_direct_pair(source_base, request.original_input.target_base as nat) ==> valid_digits(
        request.integer_digits,
        source_base,
    )
    &&& request.kind == InputKind::Fractional ==> valid_digits(
        request.fractional_digits,
        source_base,
    )
}

/// The expansion of a request's fractional digits in its target base, with
/// at most `max_fractional_digits` digits.
pub open spec fn request_fraction(request: ParsedRequestView) -> (Seq<char>, nat) {
    fraction_expansion(
        request.fractional_digits,
        request.detected_source_base as nat,
        request.original_input.target_base as nat,
        request.original_input.options.max_fractional_digits as nat,
    )
}

/// What a conversion writes after the integer digits: nothing for an
/// integer request, the point and the fraction digits for a fractional one.
pub open spec fn fraction_output(request: ParsedRequestView) -> Seq<char> {
    match request.kind {
        InputKind::Integer => seq![],
        InputKind::Fractional => fraction_text(request_fraction(request).0),
    }
}

/// The expansion of a fractional request stopped at its limit of digits
/// with a remainder left.
pub open spec fn fraction_cut(request: ParsedRequestView) -> bool {
    request.kind == InputKind::Fractional && request_fraction(request).1 != 0
}

/// "-" for a negative request, nothing otherwise.
pub open spec fn sign_text(sign: Sign) -> Seq<char> {
    match sign {
        Sign::Negative => "-"@,
        Sign::Positive => seq![],
    }
}

/// The outcome of converting a well-formed request: the sign, the integer
/// digits converted, then for a fractional request a point and the fraction
/// digits by successive multiplications; the warning `FractionTruncated`
/// when the fraction was cut at its limit of digits.
pub open spec fn conversion_spec(request: ParsedRequestView) -> Result<
    ConversionResultView,
    ProcessingErrorView,
> {
    let source_base = request.detected_source_base;
    let target_base = request.original_input.target_base;
    match convert_integer_spec(
        request.integer_digits,
        source_base as nat,
        target_base as nat,
        request.original_input.options.generate_trace,
    ) {
        Some((out, trace)) => Ok(
            ConversionResultView {
                output_value: sign_text(request.sign) + out + fraction_output(request),
                source_base,
                target_base,
                warnings: if fraction_cut(request) {
                    seq![ProcessingWarning::FractionTruncated]
                } else {
                    seq![]
                },
                trace,
            },
        ),
        None => Err(ProcessingErrorView::Overflow),
    }
}

/// The outcome of a request for the largest value of its digits: the text
/// "b^k - 1 = m" with `m` in decimal, and the same value written in the
/// base, `k` copies of its largest digit.
pub open spec fn maximum_value_spec(request: MaximumValueRequest) -> Result<
    MaximumValueResultView,
    ProcessingErrorView,
> {
    Ok(
        MaximumValueResultView {
            expression: maximum_expression(request.base as nat, request.digit_count as nat),
            value: max_digits(request.base as nat, request.digit_count as nat),
            base: request.base,
            digit_count: request.digit_count,
        },
    )
}

impl NumericProcessingService for ConversionProcessor {
    open spec fn convert_requires(&self, request: ParsedRequestView) -> bool {
        well_formed_request(request)
    }

    open spec fn convert_spec(&self, request: ParsedRequestView) -> Result<
        ConversionResultView,
        ProcessingErrorView,
    > {
        conversion_spec(request)
    }

    open spec fn maximum_requires(&self, request: MaximumValueRequest) -> bool {
        2 <= request.base <= 36
    }

    open spec fn maximum_spec(&self, request: MaximumValueRequest) -> Result<
        MaximumValueResultView,
        ProcessingErrorView,
    > {
        maximum_value_spec(request)
    }

    fn convert(&self, request: ParsedConversionRequest) -> (r: Result<
        ConversionResult,
        ProcessingError,
    >) {
        let source_base = request.detected_source_base;
        let target_base = request.original_input.target_base;
        let generate_trace = request.original_input.options.generate_trace;
        let (output_value, trace) = match convert_integer(
            request.integer_digits.as_slice(),
            source_base,
            target_base,
            generate_trace,
        ) {
            Ok(p) => p,
            Err(e) => {
                return Err(e);
            },
        };
        let mut out = String::new();
        match request.sign {
            Sign::Negative => {
                out.append("-");
            },
            Sign::Positive => {},
        }
        out.append(output_value.as_str());
        let ghost whole = out@;
        let mut warnings: Vec<ProcessingWarning> = Vec::new();
        match request.kind {
            InputKind::Integer => {},
            InputKind::Fractional => {
                let (digits, truncated) = convert_fraction(
                    request.fractional_digits.as_slice(),
                    source_base,
                    target_base,
                    request.original_input.options.max_fractional_digits,
                );
                out.append(".");
                if digits.as_str().unicode_len() == 0 {
                    out.append("0");
                } else {
                    out.append(digits.as_str());
                }
                if truncated {
                    warnings.push(ProcessingWarning::FractionTruncated);
                }
                proof {
                    reveal_strlit(".");
                    reveal_strlit("0");
                }
            },
        }
        let r = ConversionResult { output_value: out, source_base, target_base, warnings, trace };
        assert(whole =~= sign_text(request.sign) + output_value@);
        assert(r@.output_value =~= sign_text(request.sign) + output_value@ + fraction_output(
            request@,
        ));
        assert(r@.warnings =~= if fraction_cut(request@) {
            seq![ProcessingWarning::FractionTruncated]
        } else {
            Seq::<ProcessingWarning>::empty()
        });
        Ok(r)
    }

    fn compute_maximum(&self, request: MaximumValueRequest) -> (r: Result<
        MaximumValueResult,
        ProcessingError,
    >) {
        let expression = maximum(request.base as u32, request.digit_count);
        let digits = max_digit_chars(request.base, request.digit_count);
        let value = string_from_chars(digits.as_slice());
        let r = MaximumValueResult {
            expression,
            value,
            base: request.base,
            digit_count: request.digit_count,
        };
        Ok(r)
    }
}


/// Converting integer digits keeps their value: what comes out are digits
/// of the target base that denote, in the target base, the value that the
/// input digits denote in the source base.
pub proof fn lemma_convert_integer_preserves_value(
    digits: Seq<char>,
    source_base: nat,
    target_base: nat,
    generate: bool,
)
    requires
        2 <= source_base <= 36,
        2 <= target_base <= 36,
        is_direct_pair(source_base, target_base) ==> valid_digits(digits, source_base),
    ensures
        convert_integer_spec(digits, source_base, target_base, generate) matches Some((out, _))
            ==> valid_digits(out, target_base) && value_of(out, target_base) == value_of(
            digits,
            source_base,
        ),
{
    if source_base == 2 && target_base == 8 {
        lemma_bin_to_oct(digits);
    } else if source_base == 8 && target_base == 2 {
        lemma_oct_to_bin(digits);
    } else if source_base == 2 && target_base == 16 {
        lemma_bin_to_hex(digits);
    } else if source_base == 16 && target_base == 2 {
        lemma_hex_to_bin(digits);
    } else if source_base == 8 && target_base == 16 {
        lemma_oct_to_bin(digits);
        lemma_bin_to_hex(oct_to_bin_spec(digits));
    } else if source_base == 16 && target_base == 8 {
        lemma_hex_to_bin(digits);
        lemma_bin_to_oct(hex_to_bin_spec(digits));
    } else {
        lemma_to_digits_value(value_of(digits, source_base), target_base);
    }
}

/// The law at the centre of the converter: a successful conversion of a
/// well-formed request outputs the sign of the request, then digits of the
/// target base whose value equals the value of the request's integer digits
/// in the source base, then (for a fractional request) the point and the
/// fraction digits.
pub proof fn lemma_conversion_preserves_value(request: ParsedRequestView)
    requires
        well_formed_request(request),
    ensures
        conversion_spec(request) matches Ok(res) ==> {
            let start = sign_text(request.sign).len() as int;
            let end = res.output_value.len() - fraction_output(request).len();
            let out = res.output_value.subrange(start, end);
            &&& res.output_value == sign_text(request.sign) + out + fraction_output(request)
            &&& valid_digits(out, request.original_input.target_base as nat)
            &&& value_of(out, request.original_input.target_base as nat) == value_of(
                request.integer_digits,
                request.detected_source_base as nat,
            )
        },
{
    lemma_convert_integer_preserves_value(
        request.integer_digits,
        request.detected_source_base as nat,
        request.original_input.target_base as nat,
        request.original_input.options.generate_trace,
    );
    if let Some((out, _)) = convert_integer_spec(
        request.integer_digits,
        request.detected_source_base as nat,
        request.original_input.target_base as nat,
        request.original_input.options.generate_trace,
    ) {
        let st = sign_text(request.sign);
        let o = st + out + fraction_output(request);
        assert(o.subrange(st.len() as int, o.len() - fraction_output(request).len()) =~= out);
    }
}

/// Successive multiplications give the leading digits of the fraction n/d:
/// with `f` the digits made and `r` the remainder left, f read in `base` is
/// the integer part of n/d x base^|f| and `r` is the rest; no more than `m`
/// digits are made, and fewer only when nothing is left. The remainder is
/// left over exactly when the expansion has a digit beyond the limit.
pub proof fn lemma_fraction_expansion(n: nat, d: nat, base: nat, m: nat)
    requires
        2 <= base <= 36,
        d >= 1,
        n < d,
    ensures
        ({
            let (f, r) = frac_expansion(n, d, base, m);
            &&& valid_digits(f, base)
            &&& f.len() <= m
            &&& r < d
            &&& value_of(f, base) * d + r == n * power(base as int, f.len())
            &&& f.len() < m ==> r == 0
            &&& r != 0 <==> frac_expansion(n, d, base, m + 1).0.len() == m + 1
        }),
    decreases m,
{
    if m == 0 || n == 0 {
        assert(value_of(Seq::<char>::empty(), base) == 0);
        assert(power(base as int, 0) == 1);
        assert(0 * d == 0) by (nonlinear_arith);
        if n != 0 {
            let p = n * base;
            let next = frac_expansion(p % d, d, base, 0);
            assert(next.0.len() == 0);
            assert(frac_expansion(n, d, base, 1).0 == seq![digit_char(p / d)] + next.0);
        }
    } else {
        let p = n * base;
        let q = p / d;
        let n1 = p % d;
        assert(p == q * d + n1 && 0 <= n1 < d) by (nonlinear_arith)
            requires
                q == p / d,
                n1 == p % d,
                d >= 1,
        ;
        assert(p < base * d) by (nonlinear_arith)
            requires
                n < d,
                p == n * base,
                base >= 2,
        ;
        assert(q < base) by (nonlinear_arith)
            requires
                p == q * d + n1,
                n1 >= 0,
                p < base * d,
                d >= 1,
        ;
        lemma_fraction_expansion(n1, d, base, (m - 1) as nat);
        let (rest, r) = frac_expansion(n1, d, base, (m - 1) as nat);
        let f = seq![digit_char(q)] + rest;
        lemma_digit_char_val(q);
        lemma_value_concat(seq![digit_char(q)], rest, base);
        lemma_value_single(digit_char(q), base);
        assert forall|i: int| 0 <= i < f.len() implies is_base_digit(#[trigger] f[i], base) by {
            if i > 0 {
                assert(f[i] == rest[i - 1]);
            }
        }
        let bp = power(base as int, rest.len());
        assert(power(base as int, f.len()) == base * bp);
        assert((q * bp + value_of(rest, base)) * d + r == (q * d + n1) * bp) by (nonlinear_arith)
            requires
                value_of(rest, base) * d + r == n1 * bp,
        ;
        assert(p * bp == n * (base * bp)) by (nonlinear_arith)
            requires
                p == n * base,
        ;
        assert(frac_expansion(n, d, base, m).0 == f);
        assert(frac_expansion(n, d, base, m + 1).0 == seq![digit_char(q)] + frac_expansion(
            n1,
            d,
            base,
            m,
        ).0);
    }
}

/// `t` is a decimal numeral: at least one character, all decimal digits.
pub open spec fn is_decimal_text(t: Seq<char>) -> bool {
    t.len() > 0 && valid_digits(t, 10)
}

/// `t` is a decimal numeral of `n`.
pub open spec fn reads_as(t: Seq<char>, n: nat) -> bool {
    is_decimal_text(t) && value_of(t, 10) == n
}

/// The layout "d x b^e = c" of a positional-sum line, for given texts.
pub open spec fn product_layout(
    d: Seq<char>,
    b: Seq<char>,
    e: Seq<char>,
    c: Seq<char>,
) -> Seq<char> {
    d + " x "@ + b + "^"@ + e + " = "@ + c
}

/// The layout "n / b = q  r m" of a division line, for given texts.
pub open spec fn division_layout(
    n: Seq<char>,
    b: Seq<char>,
    q: Seq<char>,
    m: Seq<char>,
) -> Seq<char> {
    n + " / "@ + b + " = "@ + q + "  r "@ + m
}

proof fn lemma_dec_reads(n: nat)
    ensures
        reads_as(dec(n), n),
{
    lemma_to_digits_value(n, 10);
}

/// Line `i` of the positional-sum trace of `s` in base `b` reads "d x b^e =
/// c" with, in decimal, d the value of digit `i`, b the base, e the
/// exponent |s| - 1 - i of the digit's weight and c the contribution d * b^e.
pub open spec fn sum_line_reads(s: Seq<char>, b: nat, i: int) -> bool {
    exists|dt: Seq<char>, bt: Seq<char>, et: Seq<char>, ct: Seq<char>|
        {
            &&& #[trigger] product_layout(dt, bt, et, ct) == sum_lines(s, b)[i]
            &&& reads_as(dt, digit_val(s[i]))
            &&& reads_as(bt, b)
            &&& reads_as(et, (s.len() - 1 - i) as nat)
            &&& reads_as(ct, (digit_val(s[i]) * power(b as int, (s.len() - 1 - i) as nat)) as nat)
        }
}

/// Line `k` of the division table of `n` by `b` divides x = n / b^k, which
/// is positive, and reads "x / b = q  r m" with x, b, q, m in decimal,
/// q * b + m == x and m < b.
pub open spec fn div_line_reads(n: nat, b: nat, k: int) -> bool {
    let x = (n as int) / power(b as int, k as nat);
    &&& x > 0
    &&& exists|nt: Seq<char>, bt: Seq<char>, qt: Seq<char>, mt: Seq<char>|
        {
            &&& #[trigger] division_layout(nt, bt, qt, mt) == div_lines(n, b)[k]
            &&& reads_as(nt, x as nat)
            &&& reads_as(bt, b)
            &&& is_decimal_text(qt)
            &&& is_decimal_text(mt)
            &&& value_of(qt, 10) * b + value_of(mt, 10) == x
            &&& value_of(mt, 10) < b
        }
}

/// Each line of the positional-sum trace of digits `s` in base `b` shows, in
/// decimal, the digit, the base, the exponent of the digit's weight and the
/// digit's contribution (`sum_line_reads`); the trace ends with a line that
/// gives, in decimal, the value of the digits.
pub proof fn lemma_sum_trace_reads_back(s: Seq<char>, b: nat)
    requires
        b >= 2,
    ensures
        sum_lines(s, b).len() == s.len(),
        forall|i: int| 0 <= i < s.len() ==> #[trigger] sum_line_reads(s, b, i),
        sum_trace(s, b, true).len() == s.len() + 1,
        exists|rt: Seq<char>|
            #[trigger] reads_as(rt, value_of(s, b)) && sum_trace(s, b, true).last() == "Result: "@
                + rt,
{
    assert forall|i: int| 0 <= i < s.len() implies #[trigger] sum_line_reads(s, b, i) by {
        let d = digit_val(s[i]);
        let e = (s.len() - 1 - i) as nat;
        let c = contribution(s, b, i);
        lemma_power_positive(b as int, e);
        lemma_dec_reads(d);
        lemma_dec_reads(b);
        lemma_dec_reads(e);
        lemma_dec_reads(c);
        assert(product_layout(dec(d), dec(b), dec(e), dec(c)) == sum_lines(s, b)[i]);
    }
    lemma_dec_reads(value_of(s, b));
    assert(reads_as(dec(value_of(s, b)), value_of(s, b)));
}

/// The successive divisions of `n` by `b`: every line k divides n / b^k and
/// shows, in decimal, a quotient and a remainder that make it up
/// (`div_line_reads`); the divisions go on until the quotient is zero.
pub proof fn lemma_div_lines_read_back(n: nat, b: nat)
    requires
        b >= 2,
    ensures
        forall|k: int| 0 <= k < div_lines(n, b).len() ==> #[trigger] div_line_reads(n, b, k),
        (n as int) / power(b as int, div_lines(n, b).len()) == 0,
    decreases n,
{
    if n == 0 {
        assert(power(b as int, 0) == 1);
    } else {
        let q = n / b;
        let m = n % b;
        vstd::arithmetic::div_mod::lemma_div_decreases(n as int, b as int);
        lemma_div_lines_read_back(q, b);
        let rest = div_lines(q, b);
        assert(div_lines(n, b) == seq![div_line_spec(n, b)] + rest);
        assert(q * b + m == n && m < b) by (nonlinear_arith)
            requires
                q == n / b,
                m == n % b,
                b >= 2,
        ;
        assert forall|k: int| 0 <= k < div_lines(n, b).len() implies #[trigger] div_line_reads(
            n,
            b,
            k,
        ) by {
            if k == 0 {
                assert(power(b as int, 0) == 1);
                lemma_dec_reads(n);
                lemma_dec_reads(b);
                lemma_dec_reads(q);
                lemma_dec_reads(m);
                assert(division_layout(dec(n), dec(b), dec(q), dec(m)) == div_lines(n, b)[k]);
            } else {
                let p = power(b as int, (k - 1) as nat);
                lemma_power_positive(b as int, (k - 1) as nat);
                assert(power(b as int, k as nat) == b * p);
                vstd::arithmetic::div_mod::lemma_div_denominator(n as int, b as int, p);
                assert(div_lines(n, b)[k] == rest[k - 1]);
                assert((n as int) / power(b as int, k as nat) == (q as int) / p);
                assert(div_line_reads(q, b, k - 1));
            }
        }
        let len = rest.len();
        lemma_power_positive(b as int, len);
        assert(power(b as int, len + 1) == b * power(b as int, len));
        vstd::arithmetic::div_mod::lemma_div_denominator(n as int, b as int, power(b as int, len));
    }
}

/// The division trace of a positive `n` in base `b` is its division table
/// followed by one line that gives digits of base `b` whose value is `n`.
pub proof fn lemma_div_trace_result(n: nat, b: nat)
    requires
        2 <= b <= 36,
        n > 0,
    ensures
        div_trace(n, b, true).len() == div_lines(n, b).len() + 1,
        div_trace(n, b, true).take(div_lines(n, b).len() as int) == div_lines(n, b),
        exists|rt: Seq<char>|
            #[trigger] valid_digits(rt, b) && rt.len() > 0 && value_of(rt, b) == n && div_trace(
                n,
                b,
                true,
            ).last() == "Result (reading remainders bottom to top): "@ + rt,
{
    lemma_to_digits_value(n, b);
    assert(div_trace(n, b, true).take(div_lines(n, b).len() as int) =~= div_lines(n, b));
    assert(valid_digits(to_digits(n, b), b));
}

/// The sum of the contributions of the first `k` digits.
pub open spec fn contributions_sum(digits: Seq<char>, base: nat, k: int) -> nat
    decreases k,
{
    if k <= 0 {
        0
    } else {
        contributions_sum(digits, base, k - 1) + contribution(digits, base, k - 1)
    }
}

/// The positional summation that the positional-sum trace shows: the value
/// of digits S(n-1)..S(0) in base b is the sum of S(i) x b^i, that is, the
/// sum of the contributions of all digits.
pub proof fn lemma_positional_sum(digits: Seq<char>, base: nat)
    requires
        base >= 1,
    ensures
        contributions_sum(digits, base, digits.len() as int) == value_of(digits, base),
{
    lemma_contributions_prefix(digits, base, digits.len() as int);
    assert(digits.take(digits.len() as int) =~= digits);
    assert(power(base as int, 0) == 1);
}

proof fn lemma_contributions_prefix(digits: Seq<char>, base: nat, k: int)
    requires
        base >= 1,
        0 <= k <= digits.len(),
    ensures
        contributions_sum(digits, base, k) == value_of(digits.take(k), base) * power(
            base as int,
            (digits.len() - k) as nat,
        ),
    decreases k,
{
    let len = digits.len();
    if k == 0 {
        assert(digits.take(0) =~= Seq::<char>::empty());
        assert(0 * power(base as int, len as nat) == 0) by (nonlinear_arith);
    } else {
        lemma_contributions_prefix(digits, base, k - 1);
        let pl = power(base as int, (len - k) as nat);
        let vi = value_of(digits.take(k - 1), base) as int;
        let d = digit_val(digits[k - 1]) as int;
        assert(digits.take(k).drop_last() =~= digits.take(k - 1));
        assert(digits.take(k).last() == digits[k - 1]);
        assert(value_of(digits.take(k), base) == vi * base + d);
        assert(power(base as int, (len - (k - 1)) as nat) == base * pl);
        assert(vi * (base * pl) + d * pl == (vi * base + d) * pl) by (nonlinear_arith);
        lemma_power_positive(base as int, (len - k) as nat);
        assert(contribution(digits, base, k - 1) == d * pl);
    }
}

/// `k` copies of the largest digit of `base`.
pub open spec fn max_digits(base: nat, k: nat) -> Seq<char> {
    Seq::new(k, |i: int| digit_char((base - 1) as nat))
}

/// The largest value of `k` digits in base `b` is b^k - 1: no numeral of
/// `k` digits of the base exceeds it, and `k` copies of the largest digit
/// reach it.
pub proof fn lemma_maximum_is_largest(base: nat, k: nat, s: Seq<char>)
    requires
        2 <= base <= 36,
        s.len() == k,
        valid_digits(s, base),
    ensures
        value_of(s, base) <= power(base as int, k) - 1,
        valid_digits(max_digits(base, k), base),
        value_of(max_digits(base, k), base) == power(base as int, k) - 1,
{
    lemma_value_bound(s, base);
    lemma_max_digits(base, k);
}

proof fn lemma_max_digits(base: nat, k: nat)
    requires
        2 <= base <= 36,
    ensures
        valid_digits(max_digits(base, k), base),
        value_of(max_digits(base, k), base) == power(base as int, k) - 1,
    decreases k,
{
    lemma_digit_char_val((base - 1) as nat);
    if k > 0 {
        lemma_max_digits(base, (k - 1) as nat);
        assert(max_digits(base, k).drop_last() =~= max_digits(base, (k - 1) as nat));
        let p = power(base as int, (k - 1) as nat);
        assert((p - 1) * base + (base - 1) == base * p - 1) by (nonlinear_arith);
    } else {
        assert(max_digits(base, k) =~= Seq::<char>::empty());
    }
}

} // verus!
