use conversor_sistemas_numeracao::ui::app::{App, Base, ConversorFocus, Key};
use conversor_sistemas_numeracao::contracts::dto::{
    ConversionOptions, MaximumValueRequest, RawConversionInput,
};
use conversor_sistemas_numeracao::contracts::facade::ConversionFacade;
use conversor_sistemas_numeracao::contracts::parser::{ConversionParser, ConversionRequestParser};
use conversor_sistemas_numeracao::contracts::processor::{
    ConversionProcessor, NumericProcessingService,
};

fn input(value: &str, hint: Option<u8>, target: u8, trace: bool) -> RawConversionInput {
    let mut options = ConversionOptions::default();
    options.generate_trace = trace;
    RawConversionInput {
        raw_value: value.to_string(),
        source_base_hint: hint,
        target_base: target,
        options,
    }
}

fn value_in(digits: &str, base: u64) -> u64 {
    digits.chars().fold(0, |acc, c| acc * base + c.to_digit(36).unwrap() as u64)
}

#[test]
fn conversion_keeps_the_value() {
    let facade = ConversionFacade::new_default();
    for (value, source, target) in [
        ("0x7fff", None, 7u8),
        ("1011011", Some(2), 16),
        ("777", Some(8), 16),
        ("abc", Some(16), 8),
        ("zz", Some(36), 2),
        ("123456789", None, 36),
    ] {
        let parsed = ConversionParser::new().parse_conversion(input(value, source, target, false)).unwrap();
        let expected = value_in(&parsed.integer_digits.iter().collect::<String>(), parsed.detected_source_base as u64);
        let out = facade.request(input(value, source, target, false)).unwrap().output_value;
        assert_eq!(value_in(&out, target as u64), expected);
    }
}

#[test]
fn parsed_requests_are_accepted_by_the_processor() {
    let parsed = ConversionParser::new().parse_conversion(input("  +0b0110 ", None, 3, false)).unwrap();
    let r = ConversionProcessor::new().convert(parsed).unwrap();
    assert_eq!(r.output_value, "20");
}

#[test]
fn normalization_keeps_the_value() {
    let parsed = ConversionParser::new().parse_conversion(input("000z", Some(36), 10, false)).unwrap();
    assert_eq!(parsed.normalized_value, "Z");
    assert_eq!(value_in("Z", 36), value_in("000Z", 36));
}

#[test]
fn same_base_conversion_normalizes() {
    let facade = ConversionFacade::new_default();
    let r = facade.request(input("-000abc", Some(16), 16, false)).unwrap();
    assert_eq!(r.output_value, "-ABC");
    let r = facade.request(input("0000", Some(7), 7, false)).unwrap();
    assert_eq!(r.output_value, "0");
}

#[test]
fn converting_back_undoes_a_conversion() {
    let facade = ConversionFacade::new_default();
    let there = facade.request(input("000255", None, 7, false)).unwrap().output_value;
    let back = facade.request(input(&there, Some(7), 10, false)).unwrap().output_value;
    assert_eq!(back, "255");
}

#[test]
fn positional_sum_contributions_add_up() {
    let facade = ConversionFacade::new_default();
    let trace = facade.request(input("2101", Some(3), 10, true)).unwrap().trace;
    let mut total = 0u64;
    for line in &trace[..trace.len() - 1] {
        total += line.rsplit(' ').next().unwrap().parse::<u64>().unwrap();
    }
    assert_eq!(trace.last().unwrap(), &format!("Result: {}", total));
    assert_eq!(total, 64);
}

#[test]
fn maximum_is_the_largest_value() {
    let r = ConversionProcessor::new()
        .compute_maximum(MaximumValueRequest { base: 3, digit_count: 4 })
        .unwrap();
    assert_eq!(r.expression, "3^4 - 1 = 80");
    assert_eq!(r.value, "2222");
    assert_eq!(value_in("2222", 3), 80);
}

#[test]
fn fraction_digits_are_the_leading_digits() {
    let facade = ConversionFacade::new_default();
    for (value, source, target, numerator, denominator) in [
        ("0.1", None, 2u8, 1u128, 10u128),
        ("0.7", Some(8), 10, 7, 8),
        ("0.zz", Some(36), 7, 36 * 35 + 35, 36 * 36),
        ("0.2", Some(3), 5, 2, 3),
    ] {
        let out = facade.request(input(value, source, target, false)).unwrap();
        let digits = out.output_value.split('.').nth(1).unwrap().to_string();
        let k = digits.len() as u32;
        let read = digits.chars().fold(0u128, |acc, c| acc * target as u128 + c.to_digit(36).unwrap() as u128);
        let scaled = numerator * (target as u128).pow(k);
        assert_eq!(read, scaled / denominator);
        assert_eq!(out.warnings.is_empty(), scaled % denominator == 0);
        assert!(k <= 16);
    }
}

#[test]
fn custom_fields_stay_small() {
    let mut app = App::new();
    app.handle_key(Key::Tab);
    app.handle_key(Key::Left);
    app.handle_key(Key::Enter);
    assert!(app.conversor.focus == ConversorFocus::SourceCustom);
    let keys = [
        Key::Char('9'), Key::Char('9'), Key::Char('9'), Key::Char('x'), Key::Backspace,
        Key::Backspace, Key::Char('3'), Key::Char('6'), Key::Char('0'), Key::Backspace,
        Key::Backspace, Key::Char('1'), Key::Tab, Key::Right, Key::Enter, Key::Char('5'),
    ];
    for key in keys {
        app.handle_key(key);
        for buf in [&app.conversor.source_custom_input, &app.conversor.target_custom_input] {
            assert!(buf.len() <= 2 && buf.chars().all(|c| c.is_ascii_digit()));
        }
        for base in [app.conversor.source_base, app.conversor.target_base] {
            if let Base::Custom(n) = base {
                assert!((2..=36).contains(&n));
            }
        }
    }
    assert!(app.conversor.source_base == Base::Custom(36));
}
