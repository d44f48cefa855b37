//! Request and result types exchanged with the services, with their models.

use vstd::prelude::*;

verus! {

/// The model of a `Result`: both sides taken by their views.
pub open spec fn result_view<T: View, E: View>(r: Result<T, E>) -> Result<T::V, E::V> {
    match r {
        Ok(t) => Ok(t@),
        Err(e) => Err(e@),
    }
}

#[derive(Debug, Clone, Copy, PartialEq, Eq, Structural)]
pub enum Sign {
    Positive,
    Negative,
}

#[derive(Debug, Clone, Copy, PartialEq, Eq, Structural)]
pub enum InputKind {
    Integer,
    Fractional,
}

#[derive(Debug, Clone, Copy, PartialEq, Eq, Structural)]
pub enum ProcessingWarning {
    FractionTruncated,
}

/// Switches that control how a raw input is read and how it is converted.
#[derive(Debug, Clone, Copy, PartialEq, Eq, Structural)]
pub struct ConversionOptions {
    pub allow_prefix_detection: bool,
    pub allow_fractional_part: bool,
    pub uppercase_output: bool,
    pub generate_trace: bool,
    pub max_fractional_digits: u8,
}

impl Default for ConversionOptions {
    fn default() -> (r: Self)
        ensures
            r.allow_prefix_detection,
            r.allow_fractional_part,
            r.uppercase_output,
            !r.generate_trace,
            r.max_fractional_digits == 16,
    {
        Self {
            allow_prefix_detection: true,
            allow_fractional_part: true,
            uppercase_output: true,
            generate_trace: false,
            max_fractional_digits: 16,
        }
    }
}

/// A conversion request as the user typed it.
#[derive(Debug, Clone, PartialEq, Eq)]
pub struct RawConversionInput {
    pub raw_value: String,
    pub source_base_hint: Option<u8>,
    pub target_base: u8,
    pub options: ConversionOptions,
}

/// Model of a [`RawConversionInput`].
pub struct RawInputView {
    pub raw_value: Seq<char>,
    pub source_base_hint: Option<u8>,
    pub target_base: u8,
    pub options: ConversionOptions,
}

impl View for RawConversionInput {
    type V = RawInputView;

    open spec fn view(&self) -> RawInputView {
        RawInputView {
            raw_value: self.raw_value@,
            source_base_hint: self.source_base_hint,
            target_base: self.target_base,
            options: self.options,
        }
    }
}

/// A validated conversion request.
#[derive(Debug, Clone, PartialEq, Eq)]
pub struct ParsedConversionRequest {
    pub original_input: RawConversionInput,
    pub normalized_value: String,
    pub detected_source_base: u8,
    pub sign: Sign,
    pub kind: InputKind,
    pub detected_prefix: Option<String>,
    pub integer_digits: Vec<char>,
    pub fractional_digits: Vec<char>,
}

/// Model of a [`ParsedConversionRequest`].
pub struct ParsedRequestView {
    pub original_input: RawInputView,
    pub normalized_value: Seq<char>,
    pub detected_source_base: u8,
    pub sign: Sign,
    pub kind: InputKind,
    pub detected_prefix: Option<Seq<char>>,
    pub integer_digits: Seq<char>,
    pub fractional_digits: Seq<char>,
}

impl View for ParsedConversionRequest {
    type V = ParsedRequestView;

    open spec fn view(&self) -> ParsedRequestView {
        ParsedRequestView {
            original_input: self.original_input@,
            normalized_value: self.normalized_value@,
            detected_source_base: self.detected_source_base,
            sign: self.sign,
            kind: self.kind,
            detected_prefix: match self.detected_prefix {
                Some(p) => Some(p@),
                None => None,
            },
            integer_digits: self.integer_digits@,
            fractional_digits: self.fractional_digits@,
        }
    }
}

/// A request for the largest value of a number of digits, as typed.
#[derive(Debug, Clone, Copy, PartialEq, Eq, Structural)]
pub struct RawMaximumInput {
    pub base: u8,
    pub digit_count: u32,
}

/// A validated request for the largest value of a number of digits.
#[derive(Debug, Clone, Copy, PartialEq, Eq, Structural)]
pub struct MaximumValueRequest {
    pub base: u8,
    pub digit_count: u32,
}

impl View for MaximumValueRequest {
    type V = MaximumValueRequest;

    open spec fn view(&self) -> MaximumValueRequest {
        *self
    }
}

/// The outcome of a conversion.
#[derive(Debug, Clone, PartialEq, Eq)]
pub struct ConversionResult {
    pub output_value: String,
    pub source_base: u8,
    pub target_base: u8,
    pub warnings: Vec<ProcessingWarning>,
    pub trace: Vec<String>,
}

/// Model of a [`ConversionResult`].
pub struct ConversionResultView {
    pub output_value: Seq<char>,
    pub source_base: u8,
    pub target_base: u8,
    pub warnings: Seq<ProcessingWarning>,
    pub trace: Seq<Seq<char>>,
}

impl View for ConversionResult {
    type V = ConversionResultView;

    open spec fn view(&self) -> ConversionResultView {
        ConversionResultView {
            output_value: self.output_value@,
            source_base: self.source_base,
            target_base: self.target_base,
            warnings: self.warnings@,
            trace: self.trace.deep_view(),
        }
    }
}

/// The largest value of a number of digits in a base.
#[derive(Debug, Clone, PartialEq, Eq)]
pub struct MaximumValueResult {
    pub expression: String,
    pub value: String,
    pub base: u8,
    pub digit_count: u32,
}

/// Model of a [`MaximumValueResult`].
pub struct MaximumValueResultView {
    pub expression: Seq<char>,
    pub value: Seq<char>,
    pub base: u8,
    pub digit_count: u32,
}

impl View for MaximumValueResult {
    type V = MaximumValueResultView;

    open spec fn view(&self) -> MaximumValueResultView {
        MaximumValueResultView {
            expression: self.expression@,
            value: self.value@,
            base: self.base,
            digit_count: self.digit_count,
        }
    }
}

#[derive(Debug, Clone, PartialEq, Eq)]
pub struct BatchLineError {
    pub line_index: usize,
    pub message: String,
}

#[derive(Debug, Clone, PartialEq, Eq)]
pub struct BatchResult {
    pub results: Vec<ConversionResult>,
    pub errors: Vec<BatchLineError>,
}

#[derive(Debug, Clone, Copy, PartialEq, Eq, Structural)]
pub struct QuizDifficulty(pub u8);

#[derive(Debug, Clone, PartialEq, Eq)]
pub struct QuizQuestion {
    pub value: String,
    pub source_base: u8,
    pub target_base: u8,
    pub difficulty: QuizDifficulty,
}

#[derive(Debug, Clone, PartialEq, Eq)]
pub struct QuizAnswer {
    pub answer: String,
    pub response_time_ms: u64,
}

#[derive(Debug, Clone, PartialEq, Eq)]
pub struct QuizResult {
    pub is_correct: bool,
    pub expected_answer: String,
    pub score: u32,
}

} // verus!
