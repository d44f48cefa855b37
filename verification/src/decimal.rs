//! Decimal numerals of any length: the value of a numeral in any base,
//! written in decimal with no machine-word limit.

use vstd::prelude::*;
use crate::contracts::parser::{lemma_reencoding_normalizes, normalized_integer, skip_zeros};
use crate::contracts::processor::{digit_to_value, value_to_digit};
use crate::numeral::{
    dec, digit_val, is_base_digit, lemma_digit_char_val, lemma_power_positive, power,
    valid_digits, value_of,
};
use crate::text::push_char;

verus! {

/// The value of decimal digits stored least significant first.
pub open spec fn le_value(d: Seq<u8>) -> nat
    decreases d.len(),
{
    if d.len() == 0 {
        0
    } else {
        (le_value(d.drop_last()) + d.last() * power(10, (d.len() - 1) as nat)) as nat
    }
}

/// Every entry is a decimal digit.
pub open spec fn decimal_digits(d: Seq<u8>) -> bool {
    forall|i: int| 0 <= i < d.len() ==> #[trigger] d[i] < 10
}

/// The value of the first `j + 1` digits, from that of the first `j`.
proof fn lemma_le_value_take(d: Seq<u8>, j: int)
    requires
        0 <= j < d.len(),
    ensures
        le_value(d.take(j + 1)) == le_value(d.take(j)) + d[j] * power(10, j as nat),
{
    assert(d.take(j + 1).drop_last() =~= d.take(j));
    lemma_power_positive(10, j as nat);
}

/// The value of digits with one more digit on the most significant end.
proof fn lemma_le_value_push(d: Seq<u8>, x: u8)
    ensures
        le_value(d.push(x)) == le_value(d) + x * power(10, d.len()),
{
    assert(d.push(x).drop_last() =~= d);
    lemma_power_positive(10, d.len());
}

/// Multiplies the digits by `b` and adds `c`.
fn mul_add(acc: &mut Vec<u8>, b: u32, c: u32)
    requires
        decimal_digits(old(acc)@),
        2 <= b <= 36,
        c < b,
    ensures
        decimal_digits(final(acc)@),
        le_value(final(acc)@) == le_value(old(acc)@) * b + c,
{
    let ghost d0 = acc@;
    let n = acc.len();
    let mut carry: u32 = c;
    let mut j: usize = 0;
    assert(d0.take(0) =~= Seq::<u8>::empty());
    assert(acc@.take(0) =~= Seq::<u8>::empty());
    assert(acc@.skip(0) =~= d0.skip(0));
    assert(power(10, 0) == 1);
    assert(le_value(Seq::<u8>::empty()) == 0);
    while j < n
        invariant
            n == acc@.len(),
            n == d0.len(),
            2 <= b <= 36,
            c < b,
            j <= n,
            carry < 36,
            decimal_digits(acc@),
            acc@.skip(j as int) == d0.skip(j as int),
            le_value(acc@.take(j as int)) + carry * power(10, j as nat) == le_value(
                d0.take(j as int),
            ) * b + c,
        decreases n - j,
    {
        let ghost before = acc@;
        assert(before[j as int] == before.skip(j as int)[0]);
        assert(d0[j as int] == d0.skip(j as int)[0]);
        let a = acc[j];
        assert(a < 10);
        assert((a as u32) * b + carry <= 359) by (nonlinear_arith)
            requires
                a < 10,
                b <= 36,
                carry < 36,
        ;
        let t: u32 = (a as u32) * b + carry;
        let ghost c_old = carry;
        acc[j] = (t % 10) as u8;
        carry = t / 10;
        proof {
            let p = power(10, j as nat);
            let x = le_value(d0.take(j as int));
            lemma_power_positive(10, j as nat);
            assert(power(10, (j + 1) as nat) == 10 * p);
            assert(acc@.take(j as int) =~= before.take(j as int));
            lemma_le_value_take(acc@, j as int);
            lemma_le_value_take(d0, j as int);
            assert forall|k: int| 0 <= k < acc@.skip(j + 1).len() implies #[trigger] acc@.skip(
                j + 1,
            )[k] == d0.skip(j + 1)[k] by {
                assert(before.skip(j as int)[k + 1] == d0.skip(j as int)[k + 1]);
            }
            assert(acc@.skip(j + 1) =~= d0.skip(j + 1));
            assert((t % 10) * p + (t / 10) * (10 * p) == t * p) by (nonlinear_arith)
                requires
                    p >= 1,
            ;
            assert(t * p == a * b * p + c_old * p) by (nonlinear_arith)
                requires
                    t == a * b + c_old,
            ;
            assert((x + a * p) * b == x * b + a * b * p) by (nonlinear_arith);
        }
        j = j + 1;
    }
    assert(acc@.take(n as int) =~= acc@);
    assert(d0.take(n as int) =~= d0);
    while carry > 0
        invariant
            decimal_digits(acc@),
            le_value(acc@) + carry * power(10, acc@.len()) == le_value(d0) * b + c,
        decreases carry,
    {
        let ghost before = acc@;
        acc.push((carry % 10) as u8);
        proof {
            lemma_le_value_push(before, (carry % 10) as u8);
            let p = power(10, before.len());
            lemma_power_positive(10, before.len());
            assert(power(10, acc@.len()) == 10 * p);
            assert((carry % 10) * p + (carry / 10) * (10 * p) == carry * p) by (nonlinear_arith)
                requires
                    p >= 1,
            ;
        }
        carry = carry / 10;
    }
}

/// The value of `digits` in `base`, as decimal digits least significant
/// first (Horner's rule on decimal digits).
fn big_value(digits: &[char], base: u8) -> (acc: Vec<u8>)
    requires
        2 <= base <= 36,
        valid_digits(digits@, base as nat),
    ensures
        decimal_digits(acc@),
        le_value(acc@) == value_of(digits@, base as nat),
{
    let mut acc: Vec<u8> = Vec::new();
    let mut i: usize = 0;
    assert(digits@.take(0) =~= Seq::<char>::empty());
    while i < digits.len()
        invariant
            2 <= base <= 36,
            valid_digits(digits@, base as nat),
            i <= digits@.len(),
            decimal_digits(acc@),
            le_value(acc@) == value_of(digits@.take(i as int), base as nat),
        decreases digits@.len() - i,
    {
        assert(is_base_digit(digits@[i as int], base as nat));
        let d = digit_to_value(digits[i]);
        mul_add(&mut acc, base as u32, d as u32);
        proof {
            let t = digits@.take(i + 1);
            assert(t.drop_last() =~= digits@.take(i as int));
            assert(t.last() == digits@[i as int]);
        }
        i = i + 1;
    }
    assert(digits@.take(digits@.len() as int) =~= digits@);
    acc
}

/// Decimal digits stored least significant first, as characters most
/// significant first.
fn le_to_chars(acc: &Vec<u8>) -> (s: Vec<char>)
    requires
        decimal_digits(acc@),
    ensures
        valid_digits(s@, 10),
        value_of(s@, 10) == le_value(acc@),
{
    let mut s: Vec<char> = Vec::new();
    let mut j: usize = acc.len();
    assert(acc@.take(j as int) =~= acc@);
    assert(value_of(Seq::<char>::empty(), 10) == 0);
    assert(0 * power(10, j as nat) == 0) by (nonlinear_arith);
    while j > 0
        invariant
            j <= acc@.len(),
            decimal_digits(acc@),
            valid_digits(s@, 10),
            value_of(s@, 10) * power(10, j as nat) + le_value(acc@.take(j as int)) == le_value(
                acc@,
            ),
        decreases j,
    {
        j = j - 1;
        let d = acc[j];
        assert(d < 10);
        let c = value_to_digit(d as u64);
        let ghost before = s@;
        s.push(c);
        proof {
            lemma_digit_char_val(d as nat);
            assert(s@.drop_last() =~= before);
            let p = power(10, j as nat);
            let v = value_of(before, 10);
            assert(power(10, (j + 1) as nat) == 10 * p);
            lemma_le_value_take(acc@, j as int);
            assert(v * (10 * p) + d * p == (v * 10 + d) * p) by (nonlinear_arith);
            assert forall|q: int| 0 <= q < s@.len() implies is_base_digit(#[trigger] s@[q], 10) by {
                if q < before.len() {
                    assert(s@[q] == before[q]);
                }
            }
        }
    }
    assert(acc@.take(0) =~= Seq::<u8>::empty());
    assert(power(10, 0) == 1);
    s
}

/// The decimal numeral of the value of `digits` in `base`, whatever its
/// size.
pub fn decimal_of(digits: &[char], base: u8) -> (s: String)
    requires
        2 <= base <= 36,
        valid_digits(digits@, base as nat),
    ensures
        s@ == dec(value_of(digits@, base as nat)),
{
    let acc = big_value(digits, base);
    let cs = le_to_chars(&acc);
    let n = cs.len();
    let r = skip_zeros(cs.as_slice(), 0, n);
    let mut out = String::new();
    if r == n {
        push_char(&mut out, '0');
    } else {
        let mut i: usize = r;
        assert(cs@.subrange(r as int, r as int) =~= Seq::<char>::empty());
        while i < n
            invariant
                r <= i <= n,
                n == cs@.len(),
                out@ == cs@.subrange(r as int, i as int),
            decreases n - i,
        {
            push_char(&mut out, cs[i]);
            i = i + 1;
            assert(out@ =~= cs@.subrange(r as int, i as int));
        }
    }
    proof {
        assert(cs@.subrange(0, n as int) =~= cs@);
        lemma_reencoding_normalizes(cs@, 10);
        assert(out@ =~= normalized_integer(cs@));
    }
    out
}

} // verus!
