//! The model of the direct conversions between binary, octal and
//! hexadecimal by grouping bits, and the proofs that they preserve values.

use vstd::prelude::*;
use crate::numeral::{
    digit_char, digit_val, is_base_digit, is_decimal_char, lemma_digit_char_val,
    lemma_power_monotone, lemma_value_concat, lemma_value_leading_zeros, power, valid_digits,
    value_of, zeros,
};

verus! {

/// '0' for 0, '1' otherwise.
pub open spec fn bit_char(b: nat) -> char {
    if b == 0 {
        '0'
    } else {
        '1'
    }
}

/// The three bits of an octal digit value, most significant first.
pub open spec fn bits3(d: nat) -> Seq<char> {
    seq![bit_char(d / 4), bit_char((d / 2) % 2), bit_char(d % 2)]
}

/// The four bits of a hexadecimal digit value, most significant first.
pub open spec fn bits4(d: nat) -> Seq<char> {
    seq![bit_char(d / 8), bit_char((d / 4) % 2), bit_char((d / 2) % 2), bit_char(d % 2)]
}

/// The characters that name a hexadecimal digit: '0'..'9' and 'A'..'F'.
pub open spec fn is_hex_char(c: char) -> bool {
    is_decimal_char(c) || ('A' <= c && c <= 'F')
}

/// Octal digits to bits: each digit becomes its three bits.
pub open spec fn oct_to_bin_spec(s: Seq<char>) -> Seq<char>
    decreases s.len(),
{
    if s.len() == 0 {
        seq![]
    } else {
        oct_to_bin_spec(s.drop_last()) + bits3(digit_val(s.last()))
    }
}

/// Hexadecimal digits to bits: each hexadecimal digit becomes its four bits;
/// any other character contributes nothing.
pub open spec fn hex_to_bin_spec(s: Seq<char>) -> Seq<char>
    decreases s.len(),
{
    if s.len() == 0 {
        seq![]
    } else {
        hex_to_bin_spec(s.drop_last()) + if is_hex_char(s.last()) {
            bits4(digit_val(s.last()))
        } else {
            seq![]
        }
    }
}

/// Bits to octal digits: groups of three bits from the least significant
/// end, the most significant group possibly shorter.
pub open spec fn bin_to_oct_spec(b: Seq<char>) -> Seq<char>
    decreases b.len(),
{
    if b.len() == 0 {
        seq![]
    } else if b.len() <= 3 {
        seq![digit_char(value_of(b, 2))]
    } else {
        bin_to_oct_spec(b.take(b.len() - 3)) + seq![
            digit_char(value_of(b.skip(b.len() - 3), 2)),
        ]
    }
}

/// How many '0' bits are put in front of a bit string before it is cut
/// into nibbles: up to eight bits in all, then up to a multiple of four.
pub open spec fn hex_pad_len(n: nat) -> nat {
    if n < 8 {
        (8 - n) as nat
    } else {
        ((4 - n % 4) % 4) as nat
    }
}

/// Hexadecimal digits of a bit string whose length is a multiple of four.
pub open spec fn nibbles(s: Seq<char>) -> Seq<char>
    decreases s.len(),
{
    if s.len() < 4 {
        seq![]
    } else {
        nibbles(s.take(s.len() - 4)) + seq![digit_char(value_of(s.skip(s.len() - 4), 2))]
    }
}

/// Bits to hexadecimal digits: the bits, padded in front with zeros to at
/// least eight and to a multiple of four, read four at a time.
pub open spec fn bin_to_hex_spec(b: Seq<char>) -> Seq<char> {
    nibbles(zeros(hex_pad_len(b.len())) + b)
}

pub proof fn lemma_value_bound(s: Seq<char>, base: nat)
    requires
        valid_digits(s, base),
        base >= 1,
    ensures
        value_of(s, base) < power(base as int, s.len()),
    decreases s.len(),
{
    if s.len() > 0 {
        let t = s.drop_last();
        assert forall|i: int| 0 <= i < t.len() implies is_base_digit(#[trigger] t[i], base) by {
            assert(t[i] == s[i]);
        }
        lemma_value_bound(t, base);
        let v = value_of(t, base) as int;
        let p = power(base as int, t.len());
        let d = digit_val(s.last()) as int;
        assert(is_base_digit(s[s.len() - 1], base));
        assert(v * base + d < base * p) by (nonlinear_arith)
            requires
                v < p,
                d < base,
                v >= 0,
        ;
    }
}

pub proof fn lemma_valid_subrange(s: Seq<char>, base: nat, i: int, j: int)
    requires
        valid_digits(s, base),
        0 <= i <= j <= s.len(),
    ensures
        valid_digits(s.subrange(i, j), base),
{
    assert forall|k: int| 0 <= k < j - i implies is_base_digit(#[trigger] s.subrange(i, j)[k], base) by {
        assert(s.subrange(i, j)[k] == s[i + k]);
    }
}

pub proof fn lemma_valid_concat(s: Seq<char>, t: Seq<char>, base: nat)
    requires
        valid_digits(s, base),
        valid_digits(t, base),
    ensures
        valid_digits(s + t, base),
{
    assert forall|k: int| 0 <= k < (s + t).len() implies is_base_digit(#[trigger] (s + t)[k], base) by {
        if k < s.len() {
            assert((s + t)[k] == s[k]);
        } else {
            assert((s + t)[k] == t[k - s.len()]);
        }
    }
}

pub proof fn lemma_bit_char(b: nat)
    requires
        b < 2,
    ensures
        digit_val(bit_char(b)) == b,
        is_base_digit(bit_char(b), 2),
{
}

pub proof fn lemma_value_single(c: char, base: nat)
    ensures
        value_of(seq![c], base) == digit_val(c),
{
    assert(seq![c].drop_last() =~= Seq::<char>::empty());
    assert(value_of(Seq::<char>::empty(), base) == 0);
    assert(value_of(seq![c], base) == value_of(seq![c].drop_last(), base) * base + digit_val(c));
    assert(0 * base == 0) by (nonlinear_arith);
}

pub proof fn lemma_bits3(d: nat)
    requires
        d < 8,
    ensures
        value_of(bits3(d), 2) == d,
        valid_digits(bits3(d), 2),
        bits3(d).len() == 3,
{
    let s = bits3(d);
    assert(s.drop_last().drop_last().drop_last() =~= Seq::<char>::empty());
    assert(s.drop_last().drop_last() =~= seq![bit_char(d / 4)]);
    assert(s.drop_last() =~= seq![bit_char(d / 4), bit_char((d / 2) % 2)]);
    lemma_bit_char(d / 4);
    lemma_bit_char((d / 2) % 2);
    lemma_bit_char(d % 2);
    lemma_value_single(bit_char(d / 4), 2);
    assert(value_of(s.drop_last().drop_last(), 2) == d / 4);
    assert(value_of(s.drop_last(), 2) == (d / 4) * 2 + (d / 2) % 2);
    assert(value_of(s, 2) == ((d / 4) * 2 + (d / 2) % 2) * 2 + d % 2);
}

pub proof fn lemma_bits4(d: nat)
    requires
        d < 16,
    ensures
        value_of(bits4(d), 2) == d,
        valid_digits(bits4(d), 2),
        bits4(d).len() == 4,
{
    let s = bits4(d);
    assert(s.drop_last().drop_last().drop_last().drop_last() =~= Seq::<char>::empty());
    assert(s.drop_last().drop_last().drop_last() =~= seq![bit_char(d / 8)]);
    assert(s.drop_last().drop_last() =~= seq![bit_char(d / 8), bit_char((d / 4) % 2)]);
    assert(s.drop_last() =~= seq![bit_char(d / 8), bit_char((d / 4) % 2), bit_char((d / 2) % 2)]);
    lemma_bit_char(d / 8);
    lemma_bit_char((d / 4) % 2);
    lemma_bit_char((d / 2) % 2);
    lemma_bit_char(d % 2);
    lemma_value_single(bit_char(d / 8), 2);
    assert(value_of(s.drop_last().drop_last().drop_last(), 2) == d / 8);
    assert(value_of(s.drop_last().drop_last(), 2) == (d / 8) * 2 + (d / 4) % 2);
    assert(value_of(s.drop_last(), 2) == ((d / 8) * 2 + (d / 4) % 2) * 2 + (d / 2) % 2);
    assert(value_of(s, 2) == (((d / 8) * 2 + (d / 4) % 2) * 2 + (d / 2) % 2) * 2 + d % 2);
}

pub proof fn lemma_power_small()
    ensures
        power(2, 3) == 8,
        power(2, 4) == 16,
{
    reveal_with_fuel(power, 5);
}

/// Each octal digit turned into three bits keeps the value.
pub proof fn lemma_oct_to_bin(s: Seq<char>)
    requires
        valid_digits(s, 8),
    ensures
        value_of(oct_to_bin_spec(s), 2) == value_of(s, 8),
        valid_digits(oct_to_bin_spec(s), 2),
        oct_to_bin_spec(s).len() == 3 * s.len(),
    decreases s.len(),
{
    if s.len() > 0 {
        let t = s.drop_last();
        lemma_valid_subrange(s, 8, 0, s.len() - 1);
        assert(t =~= s.subrange(0, s.len() - 1));
        lemma_oct_to_bin(t);
        assert(is_base_digit(s[s.len() - 1], 8));
        let d = digit_val(s.last());
        lemma_bits3(d);
        lemma_value_concat(oct_to_bin_spec(t), bits3(d), 2);
        lemma_valid_concat(oct_to_bin_spec(t), bits3(d), 2);
        lemma_power_small();
    }
}

/// Each hexadecimal digit turned into four bits keeps the value.
pub proof fn lemma_hex_to_bin(s: Seq<char>)
    requires
        valid_digits(s, 16),
    ensures
        value_of(hex_to_bin_spec(s), 2) == value_of(s, 16),
        valid_digits(hex_to_bin_spec(s), 2),
        hex_to_bin_spec(s).len() == 4 * s.len(),
    decreases s.len(),
{
    if s.len() > 0 {
        let t = s.drop_last();
        lemma_valid_subrange(s, 16, 0, s.len() - 1);
        assert(t =~= s.subrange(0, s.len() - 1));
        lemma_hex_to_bin(t);
        assert(is_base_digit(s[s.len() - 1], 16));
        assert(is_hex_char(s.last()));
        let d = digit_val(s.last());
        lemma_bits4(d);
        lemma_value_concat(hex_to_bin_spec(t), bits4(d), 2);
        lemma_valid_concat(hex_to_bin_spec(t), bits4(d), 2);
        lemma_power_small();
    }
}

/// Grouping bits by three keeps the value, and every output character is an
/// octal digit.
pub proof fn lemma_bin_to_oct(b: Seq<char>)
    requires
        valid_digits(b, 2),
    ensures
        value_of(bin_to_oct_spec(b), 8) == value_of(b, 2),
        valid_digits(bin_to_oct_spec(b), 8),
    decreases b.len(),
{
    lemma_power_small();
    if b.len() == 0 {
    } else if b.len() <= 3 {
        lemma_value_bound(b, 2);
        lemma_power_monotone(2, b.len(), 3);
        let v = value_of(b, 2);
        lemma_digit_char_val(v);
        lemma_value_single(digit_char(v), 8);
    } else {
        let n = b.len();
        let hi = b.take(n - 3);
        let lo = b.skip(n - 3);
        assert(hi =~= b.subrange(0, n - 3));
        assert(lo =~= b.subrange(n - 3, n as int));
        lemma_valid_subrange(b, 2, 0, n - 3);
        lemma_valid_subrange(b, 2, n - 3, n as int);
        lemma_bin_to_oct(hi);
        lemma_value_bound(lo, 2);
        let v = value_of(lo, 2);
        lemma_digit_char_val(v);
        assert(b =~= hi + lo);
        lemma_value_concat(hi, lo, 2);
        let o = bin_to_oct_spec(hi);
        lemma_value_concat(o, seq![digit_char(v)], 8);
        lemma_value_single(digit_char(v), 8);
        reveal_with_fuel(power, 2);
        assert(valid_digits(seq![digit_char(v)], 8));
        lemma_valid_concat(o, seq![digit_char(v)], 8);
    }
}

/// Reading a bit string four bits at a time keeps the value.
pub proof fn lemma_nibbles(s: Seq<char>)
    requires
        valid_digits(s, 2),
        s.len() % 4 == 0,
    ensures
        value_of(nibbles(s), 16) == value_of(s, 2),
        valid_digits(nibbles(s), 16),
        nibbles(s).len() == s.len() / 4,
    decreases s.len(),
{
    lemma_power_small();
    if s.len() >= 4 {
        let n = s.len();
        let hi = s.take(n - 4);
        let lo = s.skip(n - 4);
        assert(hi =~= s.subrange(0, n - 4));
        assert(lo =~= s.subrange(n - 4, n as int));
        lemma_valid_subrange(s, 2, 0, n - 4);
        lemma_valid_subrange(s, 2, n - 4, n as int);
        lemma_nibbles(hi);
        lemma_value_bound(lo, 2);
        let v = value_of(lo, 2);
        lemma_digit_char_val(v);
        assert(s =~= hi + lo);
        lemma_value_concat(hi, lo, 2);
        let o = nibbles(hi);
        lemma_value_concat(o, seq![digit_char(v)], 16);
        lemma_value_single(digit_char(v), 16);
        reveal_with_fuel(power, 2);
        assert(valid_digits(seq![digit_char(v)], 16));
        lemma_valid_concat(o, seq![digit_char(v)], 16);
    } else {
        assert(s.len() == 0);
    }
}

/// Padding and grouping bits by four keeps the value, and every output
/// character is a hexadecimal digit.
pub proof fn lemma_bin_to_hex(b: Seq<char>)
    requires
        valid_digits(b, 2),
    ensures
        value_of(bin_to_hex_spec(b), 16) == value_of(b, 2),
        valid_digits(bin_to_hex_spec(b), 16),
{
    let k = hex_pad_len(b.len());
    let p = zeros(k) + b;
    assert(valid_digits(zeros(k), 2)) by {
        assert forall|i: int| 0 <= i < zeros(k).len() implies is_base_digit(
            #[trigger] zeros(k)[i],
            2,
        ) by {}
    }
    lemma_valid_concat(zeros(k), b, 2);
    assert(p.len() % 4 == 0);
    lemma_nibbles(p);
    lemma_value_leading_zeros(k, b, 2);
}

} // verus!
