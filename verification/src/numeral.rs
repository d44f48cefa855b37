//! The mathematical model of numerals: digit characters, the value that a
//! string of digits denotes in a base, and the canonical digit string of a
//! natural number.

use vstd::prelude::*;

verus! {

/// `b` raised to the power `e`.
pub open spec fn power(b: int, e: nat) -> int
    decreases e,
{
    if e == 0 {
        1
    } else {
        b * power(b, (e - 1) as nat)
    }
}

/// The characters '0' to '9'.
pub open spec fn is_decimal_char(c: char) -> bool {
    '0' <= c && c <= '9'
}

/// The characters 'A' to 'Z'.
pub open spec fn is_upper_letter(c: char) -> bool {
    'A' <= c && c <= 'Z'
}

/// The numeric value of a digit character: '0'..'9' are 0..9 and 'A'..'Z'
/// are 10..35; every other character counts as 0.
pub open spec fn digit_val(c: char) -> nat {
    if is_decimal_char(c) {
        (c as nat - '0' as nat) as nat
    } else if is_upper_letter(c) {
        (c as nat - 'A' as nat + 10) as nat
    } else {
        0
    }
}

/// `c` is a digit character whose value is below `base`.
pub open spec fn is_base_digit(c: char, base: nat) -> bool {
    (is_decimal_char(c) || is_upper_letter(c)) && digit_val(c) < base
}

/// Every character of `s` is a digit of `base`.
pub open spec fn valid_digits(s: Seq<char>, base: nat) -> bool {
    forall|i: int| 0 <= i < s.len() ==> is_base_digit(#[trigger] s[i], base)
}

/// The digit character for a value below 36.
pub open spec fn digit_char(v: nat) -> char {
    if v < 10 {
        ('0' as nat + v) as char
    } else {
        ('A' as nat + (v - 10)) as char
    }
}

/// The value that the digit string `s` denotes in `base`, most significant
/// digit first.
pub open spec fn value_of(s: Seq<char>, base: nat) -> nat
    decreases s.len(),
{
    if s.len() == 0 {
        0
    } else {
        value_of(s.drop_last(), base) * base + digit_val(s.last())
    }
}

/// The canonical digit string of `n` in `base`: no leading zeros, and "0"
/// for zero.
pub open spec fn to_digits(n: nat, base: nat) -> Seq<char>
    decreases n,
{
    if base < 2 || n < base {
        seq![digit_char(n)]
    } else {
        proof {
            vstd::arithmetic::div_mod::lemma_div_decreases(n as int, base as int);
        }
        to_digits(n / base, base).push(digit_char(n % base))
    }
}

/// The decimal rendering of `n`.
pub open spec fn dec(n: nat) -> Seq<char> {
    to_digits(n, 10)
}

/// The digit character of a value below 36 has that value.
pub proof fn lemma_digit_char_val(v: nat)
    requires
        v < 36,
    ensures
        digit_val(digit_char(v)) == v,
        is_decimal_char(digit_char(v)) || is_upper_letter(digit_char(v)),
        v < 10 ==> is_decimal_char(digit_char(v)),
{
}

/// A digit character is the digit character of its value: reading a digit
/// and writing its value back gives the same character.
pub proof fn lemma_digit_val_char(c: char)
    requires
        is_decimal_char(c) || is_upper_letter(c),
    ensures
        digit_val(c) < 36,
        digit_char(digit_val(c)) == c,
{
}

pub proof fn lemma_power_positive(b: int, e: nat)
    requires
        b >= 1,
    ensures
        power(b, e) >= 1,
    decreases e,
{
    if e > 0 {
        lemma_power_positive(b, (e - 1) as nat);
        assert(b * power(b, (e - 1) as nat) >= 1) by (nonlinear_arith)
            requires
                b >= 1,
                power(b, (e - 1) as nat) >= 1,
        ;
    }
}

pub proof fn lemma_power_monotone(b: int, e1: nat, e2: nat)
    requires
        b >= 1,
        e1 <= e2,
    ensures
        power(b, e1) <= power(b, e2),
    decreases e2,
{
    if e1 < e2 {
        lemma_power_monotone(b, e1, (e2 - 1) as nat);
        lemma_power_positive(b, (e2 - 1) as nat);
        assert(power(b, (e2 - 1) as nat) <= b * power(b, (e2 - 1) as nat)) by (nonlinear_arith)
            requires
                b >= 1,
                power(b, (e2 - 1) as nat) >= 1,
        ;
    }
}

/// The value of a concatenation.
pub proof fn lemma_value_concat(s: Seq<char>, t: Seq<char>, base: nat)
    ensures
        value_of(s + t, base) == value_of(s, base) * power(base as int, t.len()) + value_of(
            t,
            base,
        ),
    decreases t.len(),
{
    if t.len() == 0 {
        assert(s + t =~= s);
    } else {
        let t0 = t.drop_last();
        lemma_value_concat(s, t0, base);
        assert((s + t).drop_last() =~= s + t0);
        assert((s + t).last() == t.last());
        let a = value_of(s, base) as int;
        let p = power(base as int, t0.len());
        let v0 = value_of(t0, base) as int;
        assert(power(base as int, t.len()) == base * p);
        assert(value_of(s + t, base) == value_of(s + t0, base) * base + digit_val(t.last()));
        assert(value_of(t, base) == v0 * base + digit_val(t.last()));
        assert((a * p + v0) * base + digit_val(t.last()) == a * (base * p) + (v0 * base
            + digit_val(t.last()))) by (nonlinear_arith);
    }
}

/// `k` copies of the character '0'.
pub open spec fn zeros(k: nat) -> Seq<char> {
    Seq::new(k, |i: int| '0')
}

/// Leading zeros do not change a value.
pub proof fn lemma_value_leading_zeros(k: nat, t: Seq<char>, base: nat)
    ensures
        value_of(zeros(k) + t, base) == value_of(t, base),
{
    lemma_value_zeros(k, base);
    lemma_value_concat(zeros(k), t, base);
}

pub proof fn lemma_value_zeros(k: nat, base: nat)
    ensures
        value_of(zeros(k), base) == 0,
    decreases k,
{
    if k > 0 {
        lemma_value_zeros((k - 1) as nat, base);
        assert(zeros(k).drop_last() =~= zeros((k - 1) as nat));
        assert(zeros(k).last() == '0');
        assert(digit_val('0') == 0);
        assert(value_of(zeros(k), base) == value_of(zeros((k - 1) as nat), base) * base + 0);
        assert(0 * base == 0) by (nonlinear_arith);
    }
}

/// The canonical digit string denotes the number it was made from, and all
/// its characters are digits of the base.
pub proof fn lemma_to_digits_value(n: nat, base: nat)
    requires
        2 <= base <= 36,
    ensures
        value_of(to_digits(n, base), base) == n,
        valid_digits(to_digits(n, base), base),
        to_digits(n, base).len() >= 1,
    decreases n,
{
    if n < base {
        lemma_digit_char_val(n);
        assert(seq![digit_char(n)].drop_last() =~= Seq::<char>::empty());
        assert(value_of(seq![digit_char(n)], base) == value_of(Seq::<char>::empty(), base) * base + n);
        assert(0 * base == 0) by (nonlinear_arith);
    } else {
        let q = n / base;
        let r = n % base;
        vstd::arithmetic::div_mod::lemma_div_decreases(n as int, base as int);
        lemma_to_digits_value(q, base);
        lemma_digit_char_val(r);
        let s = to_digits(n, base);
        assert(s.drop_last() =~= to_digits(q, base));
        assert(value_of(s, base) == value_of(to_digits(q, base), base) * base + digit_val(
            digit_char(r),
        ));
        assert(n == q * base + r) by (nonlinear_arith)
            requires
                base >= 2,
                q == n / base,
                r == n % base,
        ;
        assert forall|i: int| 0 <= i < s.len() implies is_base_digit(#[trigger] s[i], base) by {
            if i < s.len() - 1 {
                assert(s[i] == to_digits(q, base)[i]);
            }
        }
    }
}

/// The digits of `n` without any leading zero: empty for zero.
pub open spec fn sig_digits(n: nat, base: nat) -> Seq<char>
    decreases n,
{
    if base < 2 || n == 0 {
        seq![]
    } else {
        proof {
            vstd::arithmetic::div_mod::lemma_div_decreases(n as int, base as int);
        }
        sig_digits(n / base, base).push(digit_char(n % base))
    }
}

pub proof fn lemma_sig_digits(n: nat, base: nat)
    requires
        base >= 2,
        n > 0,
    ensures
        sig_digits(n, base) == to_digits(n, base),
    decreases n,
{
    if n < base {
        assert(n / base == 0) by (nonlinear_arith)
            requires
                n < base,
                base >= 2,
        ;
        assert(n % base == n) by (nonlinear_arith)
            requires
                n < base,
                base >= 2,
        ;
        assert(sig_digits(0, base) =~= Seq::<char>::empty());
        assert(sig_digits(n, base) == sig_digits(n / base, base).push(digit_char(n % base)));
        assert(sig_digits(n, base) =~= seq![digit_char(n)]);
    } else {
        assert(n / base > 0) by (nonlinear_arith)
            requires
                n >= base,
                base >= 2,
        ;
        vstd::arithmetic::div_mod::lemma_div_decreases(n as int, base as int);
        lemma_sig_digits(n / base, base);
    }
}


/// A digit string in canonical form: non-empty, and no leading '0' unless
/// it is "0" itself.
pub open spec fn is_canonical(s: Seq<char>) -> bool {
    s.len() > 0 && (s[0] != '0' || s.len() == 1)
}

proof fn lemma_value_first_digit(s: Seq<char>, base: nat)
    requires
        s.len() > 0,
        base >= 1,
    ensures
        value_of(s, base) >= digit_val(s[0]) * power(base as int, (s.len() - 1) as nat),
{
    assert(s =~= s.take(1) + s.skip(1));
    lemma_value_concat(s.take(1), s.skip(1), base);
    assert(s.take(1).drop_last() =~= Seq::<char>::empty());
    assert(s.take(1).last() == s[0]);
    assert(value_of(Seq::<char>::empty(), base) == 0);
    assert(value_of(s.take(1), base) == value_of(s.take(1).drop_last(), base) * base + digit_val(s[0]));
    assert(value_of(s.take(1), base) == 0 * base + digit_val(s[0]));
    assert(0 * base == 0) by (nonlinear_arith);
}

/// A canonical digit string is the canonical digit string of its value.
pub proof fn lemma_canonical_roundtrip(s: Seq<char>, base: nat)
    requires
        2 <= base <= 36,
        valid_digits(s, base),
        is_canonical(s),
    ensures
        to_digits(value_of(s, base), base) == s,
    decreases s.len(),
{
    let n = value_of(s, base);
    let c = s.last();
    assert(is_base_digit(s[s.len() - 1], base));
    let d = digit_val(c);
    assert(digit_char(d) == c);
    if s.len() == 1 {
        assert(s.drop_last() =~= Seq::<char>::empty());
        assert(n == 0 * base + d);
        assert(0 * base == 0) by (nonlinear_arith);
        assert(to_digits(n, base) =~= s);
    } else {
        let t = s.drop_last();
        assert forall|i: int| 0 <= i < t.len() implies is_base_digit(#[trigger] t[i], base) by {
            assert(t[i] == s[i]);
        }
        assert(t[0] == s[0]);
        lemma_canonical_roundtrip(t, base);
        let m = value_of(t, base);
        assert(is_base_digit(t[0], base));
        assert(digit_val(t[0]) >= 1);
        lemma_value_first_digit(t, base);
        lemma_power_positive(base as int, (t.len() - 1) as nat);
        assert(m >= 1) by (nonlinear_arith)
            requires
                m >= digit_val(t[0]) * power(base as int, (t.len() - 1) as nat),
                digit_val(t[0]) >= 1,
                power(base as int, (t.len() - 1) as nat) >= 1,
        ;
        assert(n == m * base + d);
        assert(n >= base) by (nonlinear_arith)
            requires
                n == m * base + d,
                m >= 1,
                d >= 0,
        ;
        vstd::arithmetic::div_mod::lemma_fundamental_div_mod_converse(
            n as int,
            base as int,
            m as int,
            d as int,
        );
        assert(to_digits(n, base) == to_digits(m, base).push(digit_char(d)));
        assert(to_digits(n, base) =~= s);
    }
}

} // verus!
