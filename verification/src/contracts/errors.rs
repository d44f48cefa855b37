//! Error types of the services.

use vstd::prelude::*;

verus! {

/// Why a raw input could not be turned into a request.
#[derive(Debug, Clone, PartialEq, Eq)]
pub enum ParseError {
    EmptyInput,
    InvalidBase(u8),
    InvalidDigit { digit: char, base: u8 },
    InvalidFormat(String),
    FractionalInputDisabled,
    PrefixConflict { hinted_base: u8, detected_base: u8 },
}

/// Model of a [`ParseError`]: the message of `InvalidFormat` as characters.
pub enum ParseErrorView {
    EmptyInput,
    InvalidBase(u8),
    InvalidDigit { digit: char, base: u8 },
    InvalidFormat(Seq<char>),
    FractionalInputDisabled,
    PrefixConflict { hinted_base: u8, detected_base: u8 },
}

impl View for ParseError {
    type V = ParseErrorView;

    open spec fn view(&self) -> ParseErrorView {
        match self {
            ParseError::EmptyInput => ParseErrorView::EmptyInput,
            ParseError::InvalidBase(b) => ParseErrorView::InvalidBase(*b),
            ParseError::InvalidDigit { digit, base } => ParseErrorView::InvalidDigit {
                digit: *digit,
                base: *base,
            },
            ParseError::InvalidFormat(m) => ParseErrorView::InvalidFormat(m@),
            ParseError::FractionalInputDisabled => ParseErrorView::FractionalInputDisabled,
            ParseError::PrefixConflict { hinted_base, detected_base } =>
                ParseErrorView::PrefixConflict {
                hinted_base: *hinted_base,
                detected_base: *detected_base,
            },
        }
    }
}

/// Why a parsed request could not be processed.
#[derive(Debug, Clone, PartialEq, Eq)]
pub enum ProcessingError {
    InvalidRequest(String),
    UnsupportedBase(u8),
    Overflow,
    DivisionByZero,
}

/// Model of a [`ProcessingError`].
pub enum ProcessingErrorView {
    InvalidRequest(Seq<char>),
    UnsupportedBase(u8),
    Overflow,
    DivisionByZero,
}

impl View for ProcessingError {
    type V = ProcessingErrorView;

    open spec fn view(&self) -> ProcessingErrorView {
        match self {
            ProcessingError::InvalidRequest(m) => ProcessingErrorView::InvalidRequest(m@),
            ProcessingError::UnsupportedBase(b) => ProcessingErrorView::UnsupportedBase(*b),
            ProcessingError::Overflow => ProcessingErrorView::Overflow,
            ProcessingError::DivisionByZero => ProcessingErrorView::DivisionByZero,
        }
    }
}

/// Error of the facade: from the parser or from the processor.
#[derive(Debug, Clone, PartialEq, Eq)]
pub enum FacadeError {
    Parse(ParseError),
    Processing(ProcessingError),
}

/// Model of a [`FacadeError`].
pub enum FacadeErrorView {
    Parse(ParseErrorView),
    Processing(ProcessingErrorView),
}

impl View for FacadeError {
    type V = FacadeErrorView;

    open spec fn view(&self) -> FacadeErrorView {
        match self {
            FacadeError::Parse(e) => FacadeErrorView::Parse(e@),
            FacadeError::Processing(e) => FacadeErrorView::Processing(e@),
        }
    }
}

/// Error of the batch service.
#[derive(Debug, Clone, PartialEq, Eq)]
pub enum BatchError {
    Io(String),
    Csv(String),
    InvalidHeader(String),
}

/// Error of the quiz service.
#[derive(Debug, Clone, PartialEq, Eq)]
pub enum QuizError {
    InvalidDifficulty(u8),
    MissingActiveQuestion,
    InvalidAnswerFormat(String),
    Processing(ProcessingError),
}

} // verus!
