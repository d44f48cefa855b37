//! The parser: turns what the user typed into a validated request.

use vstd::prelude::*;
use crate::numeral::{
    is_base_digit, is_canonical, lemma_canonical_roundtrip, lemma_value_leading_zeros, to_digits,
    valid_digits, value_of, zeros,
};
use crate::text::{
    ascii_upper, chars_of, is_whitespace, push_char, string_from_chars, trim, trim_bounds,
    trim_end, trim_start, upper, upper_range,
};
use super::dto::{
    result_view, InputKind, MaximumValueRequest, ParsedConversionRequest, ParsedRequestView,
    RawConversionInput, RawInputView, RawMaximumInput, Sign,
};
use super::errors::{ParseError, ParseErrorView};
use super::processor::well_formed_request;

verus! {

/// A base the services accept: 2 to 36.
pub open spec fn valid_base(base: u8) -> bool {
    2 <= base <= 36
}

/// The first character of `s` that is no digit of `base`, if any.
pub open spec fn first_invalid(s: Seq<char>, base: nat) -> Option<char>
    decreases s.len(),
{
    if s.len() == 0 {
        None
    } else if !is_base_digit(s[0], base) {
        Some(s[0])
    } else {
        first_invalid(s.drop_first(), base)
    }
}

/// The index of the first occurrence of `c` in `s`, if any.
pub open spec fn find_char(s: Seq<char>, c: char) -> Option<int>
    decreases s.len(),
{
    if s.len() == 0 {
        None
    } else if s[0] == c {
        Some(0)
    } else {
        match find_char(s.drop_first(), c) {
            Some(p) => Some(p + 1),
            None => None,
        }
    }
}

proof fn lemma_find_char_range(s: Seq<char>, c: char)
    ensures
        find_char(s, c) matches Some(p) ==> 0 <= p < s.len() && s[p] == c,
    decreases s.len(),
{
    if s.len() > 0 && s[0] != c {
        lemma_find_char_range(s.drop_first(), c);
    }
}

/// `s` without its leading '0' characters.
pub open spec fn strip_zeros(s: Seq<char>) -> Seq<char>
    decreases s.len(),
{
    if s.len() > 0 && s[0] == '0' {
        strip_zeros(s.drop_first())
    } else {
        s
    }
}

/// A base prefix at the start of `u`, in either case: "0x" for 16, "0b" for
/// 2, "0o" for 8. Gives the base, the prefix in lower case and the rest.
pub open spec fn detect_prefix_spec(u: Seq<char>) -> Option<(u8, Seq<char>, Seq<char>)> {
    if u.len() >= 2 && u[0] == '0' && (u[1] == 'x' || u[1] == 'X') {
        Some((16u8, "0x"@, u.skip(2)))
    } else if u.len() >= 2 && u[0] == '0' && (u[1] == 'b' || u[1] == 'B') {
        Some((2u8, "0b"@, u.skip(2)))
    } else if u.len() >= 2 && u[0] == '0' && (u[1] == 'o' || u[1] == 'O') {
        Some((8u8, "0o"@, u.skip(2)))
    } else {
        None
    }
}

/// The prefix, the source base and the digits that follow the prefix: a
/// detected prefix decides the base (and must agree with a hint); without
/// one the hint decides, and 10 without a hint.
pub open spec fn resolve_source_base_spec(
    u: Seq<char>,
    hint: Option<u8>,
    allow_prefix_detection: bool,
) -> Result<(Option<Seq<char>>, u8, Seq<char>), ParseErrorView> {
    let default_base: u8 = match hint {
        Some(h) => h,
        None => 10u8,
    };
    if !allow_prefix_detection {
        Ok((None, default_base, u))
    } else {
        match detect_prefix_spec(u) {
            None => Ok((None, default_base, u)),
            Some((prefix_base, prefix, rest)) => match hint {
                Some(h) if h != prefix_base => Err(
                    ParseErrorView::PrefixConflict { hinted_base: h, detected_base: prefix_base },
                ),
                _ => Ok((Some(prefix), prefix_base, rest)),
            },
        }
    }
}

/// The normalized text of a number: the integer part without leading zeros
/// ("0" if nothing is left) in upper case, then for a fractional input a
/// point and the fractional part in upper case.
pub open spec fn normalized_spec(int_part: Seq<char>, frac_part: Seq<char>, kind: InputKind) -> Seq<
    char,
> {
    let t = strip_zeros(int_part);
    let int_norm = if t.len() == 0 {
        seq!['0']
    } else {
        upper(t)
    };
    match kind {
        InputKind::Integer => int_norm,
        InputKind::Fractional => int_norm + seq!['.'] + upper(frac_part),
    }
}

/// The digits of a number split at its first point: the integer part, the
/// fractional part and the kind.
pub open spec fn split_point(body: Seq<char>) -> (Seq<char>, Seq<char>, InputKind) {
    match find_char(body, '.') {
        Some(p) => (body.take(p), body.skip(p + 1), InputKind::Fractional),
        None => (body, seq![], InputKind::Integer),
    }
}

/// The sign of a trimmed, non-empty input and what follows the sign.
pub open spec fn split_sign(raw: Seq<char>) -> (Sign, Seq<char>) {
    if raw[0] == '-' {
        (Sign::Negative, raw.drop_first())
    } else if raw[0] == '+' {
        (Sign::Positive, raw.drop_first())
    } else {
        (Sign::Positive, raw)
    }
}

/// What the parser makes of a raw conversion input.
///
/// In order: the input is trimmed of whitespace and must not be empty; a
/// leading '-' or '+' gives the sign and what follows must not be empty; the
/// prefix and the source base are resolved; both bases must lie in 2..=36;
/// something must follow the prefix; the digits are split at the first
/// point (refused when fractional input is disabled); the integer part must
/// not be empty; the integer and then the fractional digits, in upper case,
/// must all be digits of the source base (the first one that is not is
/// reported).
pub open spec fn parse_conversion_spec(input: RawInputView) -> Result<
    ParsedRequestView,
    ParseErrorView,
> {
    let raw = trim(input.raw_value);
    if raw.len() == 0 {
        Err(ParseErrorView::EmptyInput)
    } else {
        let (sign, unsigned) = split_sign(raw);
        if unsigned.len() == 0 {
            Err(ParseErrorView::EmptyInput)
        } else {
            match resolve_source_base_spec(
                unsigned,
                input.source_base_hint,
                input.options.allow_prefix_detection,
            ) {
                Err(e) => Err(e),
                Ok((prefix, source_base, body)) => {
                    if !valid_base(source_base) {
                        Err(ParseErrorView::InvalidBase(source_base))
                    } else if !valid_base(input.target_base) {
                        Err(ParseErrorView::InvalidBase(input.target_base))
                    } else if body.len() == 0 {
                        Err(ParseErrorView::InvalidFormat("Valor vazio após prefixo"@))
                    } else if find_char(body, '.') is Some
                        && !input.options.allow_fractional_part {
                        Err(ParseErrorView::FractionalInputDisabled)
                    } else {
                        let (int_part, frac_part, kind) = split_point(body);
                        if int_part.len() == 0 {
                            Err(ParseErrorView::InvalidFormat("Parte inteira vazia"@))
                        } else {
                            let int_digits = upper(int_part);
                            let frac_digits = upper(frac_part);
                            match first_invalid(int_digits, source_base as nat) {
                                Some(c) => Err(
                                    ParseErrorView::InvalidDigit { digit: c, base: source_base },
                                ),
                                None => match first_invalid(frac_digits, source_base as nat) {
                                    Some(c) => Err(
                                        ParseErrorView::InvalidDigit {
                                            digit: c,
                                            base: source_base,
                                        },
                                    ),
                                    None => Ok(
                                        ParsedRequestView {
                                            original_input: input,
                                            normalized_value: normalized_spec(
                                                int_part,
                                                frac_part,
                                                kind,
                                            ),
                                            detected_source_base: source_base,
                                            sign,
                                            kind,
                                            detected_prefix: prefix,
                                            integer_digits: int_digits,
                                            fractional_digits: frac_digits,
                                        },
                                    ),
                                },
                            }
                        }
                    }
                },
            }
        }
    }
}

/// What the parser makes of a request for a largest value: the base must
/// lie in 2..=36 and the number of digits must be positive.
pub open spec fn parse_maximum_spec(input: RawMaximumInput) -> Result<
    MaximumValueRequest,
    ParseErrorView,
> {
    if !valid_base(input.base) {
        Err(ParseErrorView::InvalidBase(input.base))
    } else if input.digit_count == 0 {
        Err(ParseErrorView::InvalidFormat("Número de dígitos deve ser maior que zero"@))
    } else {
        Ok(MaximumValueRequest { base: input.base, digit_count: input.digit_count })
    }
}


/// Whether `c` is a digit of `base`.
fn is_digit_of(c: char, base: u8) -> (b: bool)
    ensures
        b == is_base_digit(c, base as nat),
{
    let value: u8 = if '0' <= c && c <= '9' {
        ((c as u32) - ('0' as u32)) as u8
    } else if 'A' <= c && c <= 'Z' {
        ((c as u32) - ('A' as u32) + 10) as u8
    } else {
        return false;
    };
    value < base
}

/// Checks that `base` lies in 2..=36.
fn validate_base(base: u8) -> (r: Result<(), ParseError>)
    ensures
        r is Ok <==> valid_base(base),
        r matches Err(e) ==> e@ == ParseErrorView::InvalidBase(base),
{
    if base >= 2 && base <= 36 {
        Ok(())
    } else {
        Err(ParseError::InvalidBase(base))
    }
}

/// Checks that every character is a digit of `base`, reporting the first
/// one that is not.
fn validate_digits(digits: &[char], base: u8) -> (r: Result<(), ParseError>)
    ensures
        match first_invalid(digits@, base as nat) {
            None => r is Ok,
            Some(c) => r matches Err(e) && e@ == (ParseErrorView::InvalidDigit {
                digit: c,
                base,
            }),
        },
{
    let mut i: usize = 0;
    assert(digits@.skip(0) =~= digits@);
    while i < digits.len()
        invariant
            i <= digits@.len(),
            first_invalid(digits@, base as nat) == first_invalid(digits@.skip(i as int), base as nat),
        decreases digits@.len() - i,
    {
        let c = digits[i];
        if !is_digit_of(c, base) {
            return Err(ParseError::InvalidDigit { digit: c, base });
        }
        assert(digits@.skip(i as int).drop_first() =~= digits@.skip(i + 1));
        i = i + 1;
    }
    assert(digits@.skip(i as int) =~= Seq::<char>::empty());
    Ok(())
}

/// A base prefix at the start of `cs[lo..hi]`: its base, its text in lower
/// case and the index just after it.
fn detect_prefix(cs: &[char], lo: usize, hi: usize) -> (r: Option<(u8, String, usize)>)
    requires
        lo <= hi <= cs@.len(),
    ensures
        match detect_prefix_spec(cs@.subrange(lo as int, hi as int)) {
            None => r is None,
            Some((b, p, rest)) => r matches Some((b2, p2, next)) && b2 == b && p2@ == p && next
                == lo + 2 && next <= hi && rest == cs@.subrange(next as int, hi as int),
        },
{
    let ghost u = cs@.subrange(lo as int, hi as int);
    if hi - lo >= 2 && cs[lo] == '0' {
        assert(u[0] == cs@[lo as int] && u[1] == cs@[lo + 1]);
        assert(u.skip(2) =~= cs@.subrange(lo + 2, hi as int));
        let c = cs[lo + 1];
        if c == 'x' || c == 'X' {
            return Some((16, String::from_str("0x"), lo + 2));
        } else if c == 'b' || c == 'B' {
            return Some((2, String::from_str("0b"), lo + 2));
        } else if c == 'o' || c == 'O' {
            return Some((8, String::from_str("0o"), lo + 2));
        }
    }
    None
}

/// The prefix, the source base and the index where the digits start.
fn resolve_source_base(
    cs: &[char],
    lo: usize,
    hi: usize,
    hint: Option<u8>,
    allow_prefix_detection: bool,
) -> (r: Result<(Option<String>, u8, usize), ParseError>)
    requires
        lo <= hi <= cs@.len(),
    ensures
        match resolve_source_base_spec(
            cs@.subrange(lo as int, hi as int),
            hint,
            allow_prefix_detection,
        ) {
            Err(e) => r matches Err(e2) && e2@ == e,
            Ok((prefix, base, body)) => r matches Ok((p2, b2, start)) && b2 == base && start
                <= hi && body == cs@.subrange(start as int, hi as int) && match p2 {
                Some(p) => prefix == Some(p@),
                None => prefix is None,
            },
        },
{
    let default_base: u8 = match hint {
        Some(h) => h,
        None => 10,
    };
    if !allow_prefix_detection {
        return Ok((None, default_base, lo));
    }
    match detect_prefix(cs, lo, hi) {
        None => Ok((None, default_base, lo)),
        Some((prefix_base, prefix_str, rest)) => {
            if let Some(hint_base) = hint {
                if hint_base != prefix_base {
                    return Err(
                        ParseError::PrefixConflict {
                            hinted_base: hint_base,
                            detected_base: prefix_base,
                        },
                    );
                }
            }
            Ok((Some(prefix_str), prefix_base, rest))
        },
    }
}

/// The index of the first `c` in `cs[lo..hi]`, if any.
fn find_char_in(cs: &[char], lo: usize, hi: usize, c: char) -> (r: Option<usize>)
    requires
        lo <= hi <= cs@.len(),
    ensures
        match find_char(cs@.subrange(lo as int, hi as int), c) {
            None => r is None,
            Some(p) => r == Some((lo + p) as usize) && 0 <= p && lo + p < hi,
        },
{
    proof {
        lemma_find_char_range(cs@.subrange(lo as int, hi as int), c);
    }
    let ghost s = cs@.subrange(lo as int, hi as int);
    let mut i: usize = lo;
    while i < hi
        invariant
            lo <= i <= hi <= cs@.len(),
            s == cs@.subrange(lo as int, hi as int),
            find_char(s, c) == match find_char(cs@.subrange(i as int, hi as int), c) {
                Some(p) => Some(p + (i - lo)),
                None => None,
            },
        decreases hi - i,
    {
        if cs[i] == c {
            return Some(i);
        }
        assert(cs@.subrange(i as int, hi as int).drop_first() =~= cs@.subrange(i + 1, hi as int));
        i = i + 1;
    }
    assert(cs@.subrange(i as int, hi as int) =~= Seq::<char>::empty());
    None
}

/// The index where `cs[lo..hi]` stops starting with '0'.
pub(crate) fn skip_zeros(cs: &[char], lo: usize, hi: usize) -> (r: usize)
    requires
        lo <= hi <= cs@.len(),
    ensures
        lo <= r <= hi,
        cs@.subrange(r as int, hi as int) == strip_zeros(cs@.subrange(lo as int, hi as int)),
{
    let mut i: usize = lo;
    while i < hi && cs[i] == '0'
        invariant
            lo <= i <= hi <= cs@.len(),
            strip_zeros(cs@.subrange(lo as int, hi as int)) == strip_zeros(
                cs@.subrange(i as int, hi as int),
            ),
        decreases hi - i,
    {
        assert(cs@.subrange(i as int, hi as int).drop_first() =~= cs@.subrange(i + 1, hi as int));
        i = i + 1;
    }
    i
}


/// A parser of conversion requests and of requests for largest values.
pub trait ConversionRequestParser {
    /// The outcome of parsing a raw conversion input.
    spec fn conversion_spec(&self, input: RawInputView) -> Result<
        ParsedRequestView,
        ParseErrorView,
    >;

    /// The outcome of parsing a raw request for a largest value.
    spec fn maximum_spec(&self, input: RawMaximumInput) -> Result<
        MaximumValueRequest,
        ParseErrorView,
    >;

    fn parse_conversion(&self, input: RawConversionInput) -> (r: Result<
        ParsedConversionRequest,
        ParseError,
    >)
        ensures
            result_view(r) == self.conversion_spec(input@),
    ;

    fn parse_maximum_value(&self, input: RawMaximumInput) -> (r: Result<
        MaximumValueRequest,
        ParseError,
    >)
        ensures
            result_view(r) == self.maximum_spec(input),
    ;
}

/// The parser of this library.
#[derive(Debug, Default, Clone, Copy)]
pub struct ConversionParser;

impl ConversionParser {
    pub fn new() -> (r: Self) {
        Self
    }
}

impl ConversionRequestParser for ConversionParser {
    open spec fn conversion_spec(&self, input: RawInputView) -> Result<
        ParsedRequestView,
        ParseErrorView,
    > {
        parse_conversion_spec(input)
    }

    open spec fn maximum_spec(&self, input: RawMaximumInput) -> Result<
        MaximumValueRequest,
        ParseErrorView,
    > {
        parse_maximum_spec(input)
    }

    fn parse_conversion(&self, input: RawConversionInput) -> (r: Result<
        ParsedConversionRequest,
        ParseError,
    >) {
        let ghost iv = input@;
        let cs = chars_of(input.raw_value.as_str());
        let (lo, hi) = trim_bounds(cs.as_slice());
        let ghost raw = cs@.subrange(lo as int, hi as int);
        if lo == hi {
            return Err(ParseError::EmptyInput);
        }
        assert(raw[0] == cs@[lo as int]);
        let (sign, ulo) = if cs[lo] == '-' {
            (Sign::Negative, lo + 1)
        } else if cs[lo] == '+' {
            (Sign::Positive, lo + 1)
        } else {
            (Sign::Positive, lo)
        };
        assert(split_sign(raw).0 == sign);
        assert(split_sign(raw).1 =~= cs@.subrange(ulo as int, hi as int));
        if ulo == hi {
            return Err(ParseError::EmptyInput);
        }
        let (detected_prefix, source_base, blo) = match resolve_source_base(
            cs.as_slice(),
            ulo,
            hi,
            input.source_base_hint,
            input.options.allow_prefix_detection,
        ) {
            Ok(t) => t,
            Err(e) => {
                return Err(e);
            },
        };
        match validate_base(source_base) {
            Ok(()) => {},
            Err(e) => {
                return Err(e);
            },
        }
        match validate_base(input.target_base) {
            Ok(()) => {},
            Err(e) => {
                return Err(e);
            },
        }
        let ghost body = cs@.subrange(blo as int, hi as int);
        if blo == hi {
            return Err(ParseError::InvalidFormat(String::from_str("Valor vazio após prefixo")));
        }
        let (int_hi, frac_lo, kind) = match find_char_in(cs.as_slice(), blo, hi, '.') {
            Some(d) => {
                if !input.options.allow_fractional_part {
                    return Err(ParseError::FractionalInputDisabled);
                }
                (d, d + 1, InputKind::Fractional)
            },
            None => (hi, hi, InputKind::Integer),
        };
        proof {
            let (ip, fp, k) = split_point(body);
            assert(k == kind);
            assert(ip =~= cs@.subrange(blo as int, int_hi as int));
            assert(fp =~= cs@.subrange(frac_lo as int, hi as int));
        }
        if int_hi == blo {
            return Err(ParseError::InvalidFormat(String::from_str("Parte inteira vazia")));
        }
        let integer_digits = upper_range(cs.as_slice(), blo, int_hi);
        let fractional_digits = upper_range(cs.as_slice(), frac_lo, hi);
        match validate_digits(integer_digits.as_slice(), source_base) {
            Ok(()) => {},
            Err(e) => {
                return Err(e);
            },
        }
        match validate_digits(fractional_digits.as_slice(), source_base) {
            Ok(()) => {},
            Err(e) => {
                return Err(e);
            },
        }
        let z = skip_zeros(cs.as_slice(), blo, int_hi);
        let mut normalized_value = if z == int_hi {
            let mut s = String::new();
            push_char(&mut s, '0');
            s
        } else {
            let t = upper_range(cs.as_slice(), z, int_hi);
            string_from_chars(t.as_slice())
        };
        match kind {
            InputKind::Fractional => {
                push_char(&mut normalized_value, '.');
                let f = string_from_chars(fractional_digits.as_slice());
                normalized_value.append(f.as_str());
            },
            InputKind::Integer => {},
        }
        proof {
            assert(normalized_value@ =~= normalized_spec(
                cs@.subrange(blo as int, int_hi as int),
                cs@.subrange(frac_lo as int, hi as int),
                kind,
            ));
        }
        let r = ParsedConversionRequest {
            original_input: input,
            normalized_value,
            detected_source_base: source_base,
            sign,
            kind,
            detected_prefix,
            integer_digits,
            fractional_digits,
        };
        Ok(r)
    }

    fn parse_maximum_value(&self, input: RawMaximumInput) -> (r: Result<
        MaximumValueRequest,
        ParseError,
    >) {
        match validate_base(input.base) {
            Ok(()) => {},
            Err(e) => {
                return Err(e);
            },
        }
        if input.digit_count == 0 {
            return Err(
                ParseError::InvalidFormat(
                    String::from_str("Número de dígitos deve ser maior que zero"),
                ),
            );
        }
        Ok(MaximumValueRequest { base: input.base, digit_count: input.digit_count })
    }
}


proof fn lemma_first_invalid_none(s: Seq<char>, base: nat)
    ensures
        first_invalid(s, base) is None <==> valid_digits(s, base),
    decreases s.len(),
{
    if s.len() > 0 {
        lemma_first_invalid_none(s.drop_first(), base);
        if valid_digits(s, base) {
            assert forall|i: int| 0 <= i < s.drop_first().len() implies is_base_digit(
                #[trigger] s.drop_first()[i],
                base,
            ) by {
                assert(s.drop_first()[i] == s[i + 1]);
            }
        }
        if is_base_digit(s[0], base) && valid_digits(s.drop_first(), base) {
            assert forall|i: int| 0 <= i < s.len() implies is_base_digit(#[trigger] s[i], base) by {
                if i > 0 {
                    assert(s[i] == s.drop_first()[i - 1]);
                }
            }
        }
    }
}

/// Every request that the parser accepts is one that the processor can
/// convert: both bases lie in 2..=36, and every integer and fractional digit
/// is a digit of the source base.
pub proof fn lemma_parsed_requests_are_well_formed(input: RawInputView)
    ensures
        parse_conversion_spec(input) matches Ok(p) ==> {
            &&& well_formed_request(p)
            &&& valid_digits(p.integer_digits, p.detected_source_base as nat)
            &&& valid_digits(p.fractional_digits, p.detected_source_base as nat)
            &&& p.original_input == input
        },
{
    if let Ok(p) = parse_conversion_spec(input) {
        lemma_first_invalid_none(p.integer_digits, p.detected_source_base as nat);
        lemma_first_invalid_none(p.fractional_digits, p.detected_source_base as nat);
    }
}


/// The normalized integer part of digits: without leading zeros, and "0"
/// when nothing is left.
pub open spec fn normalized_integer(digits: Seq<char>) -> Seq<char> {
    let t = strip_zeros(digits);
    if t.len() == 0 {
        seq!['0']
    } else {
        t
    }
}

proof fn lemma_upper_strip_zeros(s: Seq<char>)
    ensures
        upper(strip_zeros(s)) == strip_zeros(upper(s)),
        strip_zeros(upper(s)).len() == strip_zeros(s).len(),
    decreases s.len(),
{
    if s.len() > 0 {
        assert(upper(s)[0] == ascii_upper(s[0]));
        assert(upper(s).drop_first() =~= upper(s.drop_first()));
        if s[0] == '0' {
            lemma_upper_strip_zeros(s.drop_first());
        }
    } else {
        assert(upper(s) =~= s);
    }
}

/// Stripping leading zeros keeps the value and leaves a suffix that does
/// not start with '0'.
proof fn lemma_strip_zeros(s: Seq<char>, base: nat)
    ensures
        value_of(strip_zeros(s), base) == value_of(s, base),
        strip_zeros(s) == s.skip(s.len() - strip_zeros(s).len()),
        strip_zeros(s).len() <= s.len(),
        strip_zeros(s).len() > 0 ==> strip_zeros(s)[0] != '0',
    decreases s.len(),
{
    if s.len() > 0 && s[0] == '0' {
        let t = s.drop_first();
        lemma_strip_zeros(t, base);
        assert(s =~= zeros(1) + t);
        lemma_value_leading_zeros(1, t, base);
        assert(t.skip(t.len() - strip_zeros(t).len()) =~= s.skip(s.len() - strip_zeros(t).len()));
    } else {
        assert(s.skip(0) =~= s);
    }
}

/// The parser's normalized value is the normalized integer part of the
/// digits (followed, for a fractional input, by a point and the fractional
/// digits); the normalized integer part is canonical and keeps the value of
/// the integer digits.
pub proof fn lemma_normalized_value(input: RawInputView)
    ensures
        parse_conversion_spec(input) matches Ok(p) ==> {
            let ni = normalized_integer(p.integer_digits);
            let base = p.detected_source_base as nat;
            &&& p.normalized_value == match p.kind {
                InputKind::Integer => ni,
                InputKind::Fractional => ni + seq!['.'] + p.fractional_digits,
            }
            &&& is_canonical(ni)
            &&& valid_digits(ni, base)
            &&& value_of(ni, base) == value_of(p.integer_digits, base)
        },
{
    if let Ok(p) = parse_conversion_spec(input) {
        let raw = trim(input.raw_value);
        let (sign, unsigned) = split_sign(raw);
        let (prefix, source_base, body) = resolve_source_base_spec(
            unsigned,
            input.source_base_hint,
            input.options.allow_prefix_detection,
        )->Ok_0;
        let (int_part, frac_part, kind) = split_point(body);
        lemma_upper_strip_zeros(int_part);
        lemma_parsed_requests_are_well_formed(input);
        let d = p.integer_digits;
        let base = source_base as nat;
        assert(d == upper(int_part));
        lemma_strip_zeros(d, base);
        let t = strip_zeros(d);
        let ni = normalized_integer(d);
        if t.len() == 0 {
            assert(valid_digits(ni, base)) by {
                assert forall|i: int| 0 <= i < ni.len() implies is_base_digit(#[trigger] ni[i], base) by {}
            }
            assert(ni.drop_last() =~= Seq::<char>::empty());
            assert(value_of(Seq::<char>::empty(), base) == 0);
            assert(value_of(ni, base) == 0 * base + 0);
            assert(0 * base == 0) by (nonlinear_arith);
        } else {
            lemma_valid_suffix(d, base, d.len() - t.len());
        }
    }
}

proof fn lemma_valid_suffix(s: Seq<char>, base: nat, k: int)
    requires
        valid_digits(s, base),
        0 <= k <= s.len(),
    ensures
        valid_digits(s.skip(k), base),
{
    assert forall|i: int| 0 <= i < s.skip(k).len() implies is_base_digit(#[trigger] s.skip(k)[i], base) by {
        assert(s.skip(k)[i] == s[i + k]);
    }
}


/// Re-encoding the value of valid digits in their own base gives their
/// normalized integer form.
pub proof fn lemma_reencoding_normalizes(d: Seq<char>, base: nat)
    requires
        2 <= base <= 36,
        valid_digits(d, base),
    ensures
        to_digits(value_of(d, base), base) == normalized_integer(d),
{
    lemma_strip_zeros(d, base);
    let t = strip_zeros(d);
    if t.len() == 0 {
        assert(value_of(t, base) == 0);
        assert(to_digits(0, base) =~= seq!['0']);
    } else {
        lemma_valid_suffix(d, base, d.len() - t.len());
        lemma_canonical_roundtrip(t, base);
    }
}


/// The base that a prefix letter names: 'x' hexadecimal, 'b' binary, 'o'
/// octal, in either case.
proof fn lemma_trim_end_after(p: Seq<char>, s: Seq<char>)
    requires
        p.len() > 0,
        !is_whitespace(p.last()),
    ensures
        trim_end(p + s) == p + trim_end(s),
    decreases s.len(),
{
    if s.len() == 0 {
        assert(p + s =~= p);
        assert(p + trim_end(s) =~= p);
    } else if is_whitespace(s.last()) {
        assert((p + s).drop_last() =~= p + s.drop_last());
        lemma_trim_end_after(p, s.drop_last());
    } else {
        assert((p + s).last() == s.last());
    }
}

/// Prefix detection ignores the case of the prefix letter: "0x", "0b" and
/// "0o" name bases 16, 2 and 8, and "0X", "0B" and "0O" are the same
/// prefixes, with the same base and the same rest.
pub proof fn lemma_prefix_letter_case(u: Seq<char>, lower: char, upper_letter: char)
    requires
        (lower == 'x' && upper_letter == 'X') || (lower == 'b' && upper_letter == 'B') || (
        lower == 'o' && upper_letter == 'O'),
    ensures
        detect_prefix_spec(seq!['0', upper_letter] + u) == detect_prefix_spec(
            seq!['0', lower] + u,
        ),
        lower == 'x' ==> detect_prefix_spec(seq!['0', lower] + u) == Some(
            (16u8, seq!['0', 'x'], u),
        ),
        lower == 'b' ==> detect_prefix_spec(seq!['0', lower] + u) == Some(
            (2u8, seq!['0', 'b'], u),
        ),
        lower == 'o' ==> detect_prefix_spec(seq!['0', lower] + u) == Some(
            (8u8, seq!['0', 'o'], u),
        ),
{
    reveal_strlit("0x");
    reveal_strlit("0b");
    reveal_strlit("0o");
    assert((seq!['0', lower] + u).skip(2) =~= u);
    assert((seq!['0', upper_letter] + u).skip(2) =~= u);
    assert("0x"@ =~= seq!['0', 'x']);
    assert("0b"@ =~= seq!['0', 'b']);
    assert("0o"@ =~= seq!['0', 'o']);
}

/// With prefix detection on, two raw inputs that differ only in the case of
/// the prefix letter parse alike: the same error, or requests that agree in
/// everything but the raw text they came from.
pub proof fn lemma_prefix_case_parses_alike(
    lower_input: RawInputView,
    upper_input: RawInputView,
    lower: char,
    upper_letter: char,
    rest: Seq<char>,
)
    requires
        (lower == 'x' && upper_letter == 'X') || (lower == 'b' && upper_letter == 'B') || (
        lower == 'o' && upper_letter == 'O'),
        lower_input.raw_value == seq!['0', lower] + rest,
        upper_input.raw_value == seq!['0', upper_letter] + rest,
        upper_input.source_base_hint == lower_input.source_base_hint,
        upper_input.target_base == lower_input.target_base,
        upper_input.options == lower_input.options,
        lower_input.options.allow_prefix_detection,
    ensures
        match (parse_conversion_spec(lower_input), parse_conversion_spec(upper_input)) {
            (Ok(a), Ok(b)) => b == ParsedRequestView { original_input: b.original_input, ..a },
            (Err(a), Err(b)) => a == b,
            _ => false,
        },
        parse_conversion_spec(upper_input) matches Ok(b) ==> {
            &&& b.detected_prefix == Some(seq!['0', lower])
            &&& lower == 'x' ==> b.detected_source_base == 16
            &&& lower == 'b' ==> b.detected_source_base == 2
            &&& lower == 'o' ==> b.detected_source_base == 8
        },
{
    let t = trim_end(rest);
    let lo = seq!['0', lower];
    let up = seq!['0', upper_letter];
    assert(!is_whitespace('0'));
    assert(trim_start(lower_input.raw_value) == lower_input.raw_value);
    assert(trim_start(upper_input.raw_value) == upper_input.raw_value);
    lemma_trim_end_after(lo, rest);
    lemma_trim_end_after(up, rest);
    let raw_l = lo + t;
    let raw_u = up + t;
    assert(trim(lower_input.raw_value) == raw_l);
    assert(trim(upper_input.raw_value) == raw_u);
    assert(raw_l[0] == '0' && raw_u[0] == '0');
    assert(split_sign(raw_l) == (Sign::Positive, raw_l));
    assert(split_sign(raw_u) == (Sign::Positive, raw_u));
    lemma_prefix_letter_case(t, lower, upper_letter);
    assert(resolve_source_base_spec(
        raw_u,
        upper_input.source_base_hint,
        upper_input.options.allow_prefix_detection,
    ) == resolve_source_base_spec(
        raw_l,
        lower_input.source_base_hint,
        lower_input.options.allow_prefix_detection,
    ));
}

/// A request for the largest value is accepted exactly when its base lies
/// in 2..=36 and it asks for at least one digit, and the accepted request
/// keeps the base and the number of digits.
pub proof fn lemma_maximum_requests_accepted(input: RawMaximumInput)
    ensures
        parse_maximum_spec(input) is Ok <==> (2 <= input.base <= 36 && input.digit_count >= 1),
        parse_maximum_spec(input) matches Ok(r) ==> r.base == input.base && r.digit_count
            == input.digit_count,
{
}

/// "0X" followed by hexadecimal digits parses as a hexadecimal integer made
/// of those digits (with no hint or a hexadecimal one).
#[verifier::rlimit(40)]
pub proof fn lemma_upper_hex_prefix_parses(input: RawInputView, digits: Seq<char>)
    requires
        input.raw_value == seq!['0', 'X'] + digits,
        digits.len() > 0,
        valid_digits(digits, 16),
        input.source_base_hint is None || input.source_base_hint == Some(16u8),
        2 <= input.target_base <= 36,
        input.options.allow_prefix_detection,
    ensures
        parse_conversion_spec(input) matches Ok(p) && p.detected_source_base == 16
            && p.integer_digits == digits && p.kind == InputKind::Integer,
{
    assert(is_base_digit(digits[digits.len() - 1], 16));
    assert(trim_end(digits) == digits);
    lemma_prefix_letter_case(digits, 'x', 'X');
    lemma_trim_end_after(seq!['0', 'X'], digits);
    assert(!is_whitespace('0'));
    let raw = seq!['0', 'X'] + digits;
    assert(trim_start(raw) == raw);
    assert(trim(input.raw_value) == raw);
    assert(split_sign(raw) == (Sign::Positive, raw));
    lemma_find_char_range(digits, '.');
    assert(find_char(digits, '.') is None) by {
        if let Some(q) = find_char(digits, '.') {
            assert(is_base_digit(digits[q], 16));
        }
    }
    assert(upper(digits) =~= digits) by {
        assert forall|i: int| 0 <= i < digits.len() implies #[trigger] ascii_upper(digits[i])
            == digits[i] by {
            assert(is_base_digit(digits[i], 16));
        }
    }
    lemma_first_invalid_none(digits, 16);
    assert(resolve_source_base_spec(raw, input.source_base_hint, true) == Ok::<
        (Option<Seq<char>>, u8, Seq<char>),
        ParseErrorView,
    >((Some(seq!['0', 'x']), 16u8, digits)));
    assert(split_point(digits) == (digits, Seq::<char>::empty(), InputKind::Integer));
}

} // verus!
