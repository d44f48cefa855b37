use conversor_sistemas_numeracao::contracts::dto::{
    ConversionOptions, InputKind, RawConversionInput, RawMaximumInput, Sign,
};
use conversor_sistemas_numeracao::contracts::errors::ParseError;
use conversor_sistemas_numeracao::contracts::parser::{ConversionParser, ConversionRequestParser};

fn raw(value: &str, hint: Option<u8>, target: u8) -> RawConversionInput {
    RawConversionInput {
        raw_value: value.to_string(),
        source_base_hint: hint,
        target_base: target,
        options: ConversionOptions::default(),
    }
}

#[test]
fn empty_input_is_refused() {
    let p = ConversionParser::new();
    assert_eq!(p.parse_conversion(raw("", None, 2)), Err(ParseError::EmptyInput));
    assert_eq!(p.parse_conversion(raw(" \t\n ", None, 2)), Err(ParseError::EmptyInput));
    assert_eq!(p.parse_conversion(raw(" - ", None, 2)), Err(ParseError::EmptyInput));
    assert_eq!(p.parse_conversion(raw("+", None, 2)), Err(ParseError::EmptyInput));
}

#[test]
fn invalid_bases_are_refused() {
    let p = ConversionParser::new();
    assert_eq!(p.parse_conversion(raw("10", Some(1), 2)), Err(ParseError::InvalidBase(1)));
    assert_eq!(p.parse_conversion(raw("10", Some(37), 2)), Err(ParseError::InvalidBase(37)));
    assert_eq!(p.parse_conversion(raw("10", None, 37)), Err(ParseError::InvalidBase(37)));
    assert_eq!(p.parse_conversion(raw("10", None, 0)), Err(ParseError::InvalidBase(0)));
}

#[test]
fn prefix_detection_and_conflicts() {
    let p = ConversionParser::new();
    let r = p.parse_conversion(raw("0x1F", None, 10)).unwrap();
    assert_eq!(r.detected_source_base, 16);
    assert_eq!(r.detected_prefix, Some("0x".to_string()));
    assert_eq!(r.integer_digits, vec!['1', 'F']);
    let r = p.parse_conversion(raw("0B101", None, 10)).unwrap();
    assert_eq!(r.detected_source_base, 2);
    assert_eq!(r.detected_prefix, Some("0b".to_string()));
    let r = p.parse_conversion(raw("0o17", Some(8), 10)).unwrap();
    assert_eq!(r.detected_source_base, 8);
    assert_eq!(r.detected_prefix, Some("0o".to_string()));
    assert_eq!(
        p.parse_conversion(raw("0x1F", Some(2), 10)),
        Err(ParseError::PrefixConflict { hinted_base: 2, detected_base: 16 })
    );
    assert_eq!(
        p.parse_conversion(raw("0x", None, 10)),
        Err(ParseError::InvalidFormat("Valor vazio após prefixo".to_string()))
    );
}

#[test]
fn prefix_detection_can_be_disabled() {
    let p = ConversionParser::new();
    let mut input = raw("0x1F", Some(36), 10);
    input.options.allow_prefix_detection = false;
    let r = p.parse_conversion(input).unwrap();
    assert_eq!(r.detected_source_base, 36);
    assert_eq!(r.detected_prefix, None);
    assert_eq!(r.integer_digits, vec!['0', 'X', '1', 'F']);
    let mut input = raw("0x1F", None, 10);
    input.options.allow_prefix_detection = false;
    assert_eq!(
        p.parse_conversion(input),
        Err(ParseError::InvalidDigit { digit: 'X', base: 10 })
    );
}

#[test]
fn digits_are_validated_in_order() {
    let p = ConversionParser::new();
    assert_eq!(
        p.parse_conversion(raw("12G", Some(16), 2)),
        Err(ParseError::InvalidDigit { digit: 'G', base: 16 })
    );
    assert_eq!(
        p.parse_conversion(raw("102", Some(2), 10)),
        Err(ParseError::InvalidDigit { digit: '2', base: 2 })
    );
    assert_eq!(
        p.parse_conversion(raw("1 0", None, 2)),
        Err(ParseError::InvalidDigit { digit: ' ', base: 10 })
    );
    assert_eq!(
        p.parse_conversion(raw("1.2.3", None, 2)),
        Err(ParseError::InvalidDigit { digit: '.', base: 10 })
    );
    assert_eq!(
        p.parse_conversion(raw("1.z", Some(16), 2)),
        Err(ParseError::InvalidDigit { digit: 'Z', base: 16 })
    );
}

#[test]
fn fractional_parts() {
    let p = ConversionParser::new();
    let mut input = raw("1.5", None, 2);
    input.options.allow_fractional_part = false;
    assert_eq!(p.parse_conversion(input), Err(ParseError::FractionalInputDisabled));
    assert_eq!(
        p.parse_conversion(raw(".5", None, 2)),
        Err(ParseError::InvalidFormat("Parte inteira vazia".to_string()))
    );
    let r = p.parse_conversion(raw("  -0x00ff.8a ", None, 2)).unwrap();
    assert_eq!(r.sign, Sign::Negative);
    assert_eq!(r.kind, InputKind::Fractional);
    assert_eq!(r.detected_source_base, 16);
    assert_eq!(r.integer_digits, vec!['0', '0', 'F', 'F']);
    assert_eq!(r.fractional_digits, vec!['8', 'A']);
    assert_eq!(r.normalized_value, "FF.8A");
}

#[test]
fn normalization_drops_leading_zeros() {
    let p = ConversionParser::new();
    let r = p.parse_conversion(raw("+000", None, 2)).unwrap();
    assert_eq!(r.sign, Sign::Positive);
    assert_eq!(r.kind, InputKind::Integer);
    assert_eq!(r.normalized_value, "0");
    let r = p.parse_conversion(raw("00ab", Some(16), 2)).unwrap();
    assert_eq!(r.normalized_value, "AB");
    assert_eq!(r.original_input.raw_value, "00ab");
    let r = p.parse_conversion(raw("0.50", None, 2)).unwrap();
    assert_eq!(r.normalized_value, "0.50");
    assert_eq!(r.fractional_digits, vec!['5', '0']);
}

#[test]
fn maximum_requests_are_validated() {
    let p = ConversionParser::new();
    assert_eq!(
        p.parse_maximum_value(RawMaximumInput { base: 1, digit_count: 3 }),
        Err(ParseError::InvalidBase(1))
    );
    assert_eq!(
        p.parse_maximum_value(RawMaximumInput { base: 10, digit_count: 0 }),
        Err(ParseError::InvalidFormat("Número de dígitos deve ser maior que zero".to_string()))
    );
    let r = p.parse_maximum_value(RawMaximumInput { base: 16, digit_count: 4 }).unwrap();
    assert_eq!(r.base, 16);
    assert_eq!(r.digit_count, 4);
}
