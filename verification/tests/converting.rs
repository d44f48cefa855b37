use conversor_sistemas_numeracao::contracts::dto::{
    ConversionOptions, ConversionResult, ProcessingWarning, RawConversionInput, RawMaximumInput,
};
use conversor_sistemas_numeracao::contracts::errors::{FacadeError, ParseError, ProcessingError};
use conversor_sistemas_numeracao::contracts::facade::ConversionFacade;
use conversor_sistemas_numeracao::contracts::processor::decimal_string;

fn convert(value: &str, hint: Option<u8>, target: u8) -> Result<String, FacadeError> {
    let facade = ConversionFacade::new_default();
    facade
        .request(RawConversionInput {
            raw_value: value.to_string(),
            source_base_hint: hint,
            target_base: target,
            options: ConversionOptions::default(),
        })
        .map(|r| r.output_value)
}

fn trace(value: &str, hint: Option<u8>, target: u8) -> Vec<String> {
    let facade = ConversionFacade::new_default();
    let mut options = ConversionOptions::default();
    options.generate_trace = true;
    facade
        .request(RawConversionInput {
            raw_value: value.to_string(),
            source_base_hint: hint,
            target_base: target,
            options,
        })
        .unwrap()
        .trace
}

#[test]
fn decimal_to_other_bases() {
    assert_eq!(convert("255", None, 2).unwrap(), "11111111");
    assert_eq!(convert("255", None, 16).unwrap(), "FF");
    assert_eq!(convert("255", None, 36).unwrap(), "73");
    assert_eq!(convert("35", None, 36).unwrap(), "Z");
    assert_eq!(convert("0", None, 2).unwrap(), "0");
    assert_eq!(convert("-42", None, 2).unwrap(), "-101010");
    assert_eq!(convert("0042", None, 10).unwrap(), "42");
}

#[test]
fn other_bases_to_decimal() {
    assert_eq!(convert("FF", Some(16), 10).unwrap(), "255");
    assert_eq!(convert("z", Some(36), 10).unwrap(), "35");
    assert_eq!(convert("0b1010", None, 10).unwrap(), "10");
    assert_eq!(convert("+777", Some(8), 10).unwrap(), "511");
}

#[test]
fn between_arbitrary_bases() {
    assert_eq!(convert("21", Some(3), 5).unwrap(), "12");
    assert_eq!(convert("ZZ", Some(35), 3).unwrap_err(), FacadeError::Parse(ParseError::InvalidDigit { digit: 'Z', base: 35 }));
    assert_eq!(convert("YY", Some(35), 3).unwrap(), "1200100");
    assert_eq!(convert("0012", Some(3), 3).unwrap(), "12");
}

#[test]
fn direct_binary_octal_hexadecimal() {
    assert_eq!(convert("1100", Some(2), 8).unwrap(), "14");
    assert_eq!(convert("000001", Some(2), 8).unwrap(), "01");
    assert_eq!(convert("17", Some(8), 2).unwrap(), "001111");
    assert_eq!(convert("F", Some(16), 2).unwrap(), "1111");
    assert_eq!(convert("1f", Some(16), 2).unwrap(), "00011111");
    assert_eq!(convert("1111", Some(2), 16).unwrap(), "0F");
    assert_eq!(convert("11110000", Some(2), 16).unwrap(), "F0");
    assert_eq!(convert("111111111", Some(2), 16).unwrap(), "1FF");
    assert_eq!(convert("100000000", Some(2), 16).unwrap(), "100");
    assert_eq!(convert("17", Some(8), 16).unwrap(), "0F");
    assert_eq!(convert("0xFF", None, 8).unwrap(), "377");
    assert_eq!(convert("-0b101", None, 8).unwrap(), "-5");
}

#[test]
fn direct_conversions_do_not_overflow() {
    let bits = "1".repeat(100);
    let hex = convert(&bits, Some(2), 16).unwrap();
    assert_eq!(hex, format!("F{}", "F".repeat(24)));
    let oct = "7".repeat(12);
    assert_eq!(convert(&oct, Some(8), 2).unwrap(), "1".repeat(36));
}

#[test]
fn overflow_is_reported() {
    assert_eq!(convert("18446744073709551615", None, 2).unwrap(), "1".repeat(64));
    assert_eq!(
        convert("18446744073709551616", None, 2),
        Err(FacadeError::Processing(ProcessingError::Overflow))
    );
    assert_eq!(
        convert("ZZZZZZZZZZZZZZ", Some(36), 10),
        Err(FacadeError::Processing(ProcessingError::Overflow))
    );
}

#[test]
fn leading_zeros_never_overflow() {
    let padded = format!("{}1", "0".repeat(21));
    assert_eq!(convert(&padded, None, 2).unwrap(), "1");
    let bits = format!("{}1", "0".repeat(64));
    assert_eq!(convert(&bits, Some(2), 10).unwrap(), "1");
    let wide = format!("{}18446744073709551615", "0".repeat(30));
    assert_eq!(convert(&wide, None, 2).unwrap(), "1".repeat(64));
    assert_eq!(convert(&format!("{}Z", "0".repeat(40)), Some(36), 10).unwrap(), "35");
}

fn convert_full(value: &str, hint: Option<u8>, target: u8, max_digits: u8) -> ConversionResult {
    let facade = ConversionFacade::new_default();
    let mut options = ConversionOptions::default();
    options.max_fractional_digits = max_digits;
    facade
        .request(RawConversionInput {
            raw_value: value.to_string(),
            source_base_hint: hint,
            target_base: target,
            options,
        })
        .unwrap()
}

#[test]
fn fractional_part_by_successive_multiplications() {
    assert_eq!(convert("10.1", Some(2), 10).unwrap(), "2.5");
    assert_eq!(convert("10.75", None, 2).unwrap(), "1010.11");
    assert_eq!(convert("-2.5", None, 2).unwrap(), "-10.1");
    assert_eq!(convert("FF.8", Some(16), 10).unwrap(), "255.5");
    assert_eq!(convert("101.101", Some(2), 8).unwrap(), "5.5");
    assert_eq!(convert("1.0", None, 2).unwrap(), "1.0");
    assert_eq!(convert("7.", None, 2).unwrap(), "111.0");
    let r = convert_full("10.1", Some(2), 10, 16);
    assert!(r.warnings.is_empty());
}

#[test]
fn fraction_truncated_warning() {
    let r = convert_full("0.1", None, 2, 16);
    assert_eq!(r.output_value, "0.0001100110011001");
    assert_eq!(r.warnings, vec![ProcessingWarning::FractionTruncated]);
    let r = convert_full("0.5", None, 3, 4);
    assert_eq!(r.output_value, "0.1111");
    assert_eq!(r.warnings, vec![ProcessingWarning::FractionTruncated]);
    let r = convert_full("0.1", Some(3), 10, 16);
    assert_eq!(r.output_value, "0.3333333333333333");
    assert_eq!(r.warnings, vec![ProcessingWarning::FractionTruncated]);
    let r = convert_full("0.25", None, 2, 2);
    assert_eq!(r.output_value, "0.01");
    assert!(r.warnings.is_empty());
    let r = convert_full("3.75", None, 2, 0);
    assert_eq!(r.output_value, "11.0");
    assert_eq!(r.warnings, vec![ProcessingWarning::FractionTruncated]);
}

#[test]
fn division_trace() {
    assert_eq!(
        trace("12", None, 2),
        vec![
            "12 / 2 = 6  r 0",
            "6 / 2 = 3  r 0",
            "3 / 2 = 1  r 1",
            "1 / 2 = 0  r 1",
            "Result (reading remainders bottom to top): 1100",
        ]
    );
    assert!(trace("0", None, 2).is_empty());
}

#[test]
fn positional_sum_trace() {
    assert_eq!(
        trace("1010", Some(2), 10),
        vec!["1 x 2^3 = 8", "0 x 2^2 = 0", "1 x 2^1 = 2", "0 x 2^0 = 0", "Result: 10"]
    );
}

#[test]
fn general_trace_chains_both() {
    assert_eq!(
        trace("21", Some(3), 5),
        vec![
            "2 x 3^1 = 6",
            "1 x 3^0 = 1",
            "Result: 7",
            "7 / 5 = 1  r 2",
            "1 / 5 = 0  r 1",
            "Result (reading remainders bottom to top): 12",
        ]
    );
    assert!(trace("1100", Some(2), 8).is_empty());
}

#[test]
fn conversion_result_fields() {
    let facade = ConversionFacade::new_default();
    let r = facade
        .request(RawConversionInput {
            raw_value: "0x1F".to_string(),
            source_base_hint: None,
            target_base: 10,
            options: ConversionOptions::default(),
        })
        .unwrap();
    assert_eq!(r.output_value, "31");
    assert_eq!(r.source_base, 16);
    assert_eq!(r.target_base, 10);
    assert!(r.warnings.is_empty());
    assert!(r.trace.is_empty());
}

#[test]
fn maximum_values() {
    let facade = ConversionFacade::new_default();
    let r = facade.request_maximum(RawMaximumInput { base: 2, digit_count: 3 }).unwrap();
    assert_eq!(r.expression, "2^3 - 1 = 7");
    assert_eq!(r.value, "111");
    assert_eq!(r.base, 2);
    assert_eq!(r.digit_count, 3);
    let r = facade.request_maximum(RawMaximumInput { base: 16, digit_count: 2 }).unwrap();
    assert_eq!(r.expression, "16^2 - 1 = 255");
    assert_eq!(r.value, "FF");
    let r = facade.request_maximum(RawMaximumInput { base: 2, digit_count: 32 }).unwrap();
    assert_eq!(r.expression, "2^32 - 1 = 4294967295");
    assert_eq!(r.value, "1".repeat(32));
    let r = facade.request_maximum(RawMaximumInput { base: 36, digit_count: 20 }).unwrap();
    assert_eq!(r.expression, "36^20 - 1 = 13367494538843734067838845976575");
    assert_eq!(r.value, "Z".repeat(20));
    let r = facade.request_maximum(RawMaximumInput { base: 10, digit_count: 30 }).unwrap();
    assert_eq!(r.expression, format!("10^30 - 1 = {}", "9".repeat(30)));
    assert_eq!(
        facade.request_maximum(RawMaximumInput { base: 10, digit_count: 0 }),
        Err(FacadeError::Parse(ParseError::InvalidFormat(
            "Número de dígitos deve ser maior que zero".to_string()
        )))
    );
    assert_eq!(
        facade.request_maximum(RawMaximumInput { base: 1, digit_count: 2 }),
        Err(FacadeError::Parse(ParseError::InvalidBase(1)))
    );
}

#[test]
fn decimal_rendering() {
    assert_eq!(decimal_string(0), "0");
    assert_eq!(decimal_string(1234567890), "1234567890");
    assert_eq!(decimal_string(u64::MAX), "18446744073709551615");
}
