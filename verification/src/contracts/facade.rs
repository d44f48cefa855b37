//! The facade: parses a raw request, then hands it to the processor.

use vstd::prelude::*;
use super::dto::{
    result_view, ConversionResult, ConversionResultView, MaximumValueRequest,
    MaximumValueResult, MaximumValueResultView, ParsedRequestView, RawConversionInput,
    RawInputView, RawMaximumInput,
};
use super::errors::{FacadeError, FacadeErrorView, ParseErrorView};
use super::parser::{
    lemma_parsed_requests_are_well_formed, lemma_reencoding_normalizes, normalized_integer,
    parse_conversion_spec, ConversionParser, ConversionRequestParser,
};
use super::processor::{
    conversion_spec, convert_integer_spec, fits_u64, fraction_output, is_direct_pair, sign_text,
    ConversionProcessor, NumericProcessingService,
};
use crate::numeral::{lemma_to_digits_value, to_digits, valid_digits, value_of};

verus! {

/// The outcome of a conversion request: the parser's error, or the
/// processor's outcome on the parsed request.
pub open spec fn chain_conversion<S: NumericProcessingService>(
    parsed: Result<ParsedRequestView, ParseErrorView>,
    processor: S,
) -> Result<ConversionResultView, FacadeErrorView> {
    match parsed {
        Err(e) => Err(FacadeErrorView::Parse(e)),
        Ok(p) => match processor.convert_spec(p) {
            Ok(c) => Ok(c),
            Err(e) => Err(FacadeErrorView::Processing(e)),
        },
    }
}

/// The outcome of a request for a largest value: the parser's error, or the
/// processor's outcome on the parsed request.
pub open spec fn chain_maximum<S: NumericProcessingService>(
    parsed: Result<MaximumValueRequest, ParseErrorView>,
    processor: S,
) -> Result<MaximumValueResultView, FacadeErrorView> {
    match parsed {
        Err(e) => Err(FacadeErrorView::Parse(e)),
        Ok(p) => match processor.maximum_spec(p) {
            Ok(c) => Ok(c),
            Err(e) => Err(FacadeErrorView::Processing(e)),
        },
    }
}

/// A parser and a processor, chained.
#[derive(Debug, Clone)]
pub struct ConversionFacade<P, S> where P: ConversionRequestParser, S: NumericProcessingService {
    parser: P,
    processor: S,
}

impl ConversionFacade<ConversionParser, ConversionProcessor> {
    /// The facade over the parser and the processor of this library.
    pub fn new_default() -> (r: Self)
        ensures
            r.parser_spec() == ConversionParser,
            r.processor_spec() == ConversionProcessor,
    {
        Self { parser: ConversionParser::new(), processor: ConversionProcessor::new() }
    }
}

impl<P, S> ConversionFacade<P, S> where P: ConversionRequestParser, S: NumericProcessingService {
    /// The parser of the facade.
    pub closed spec fn parser_spec(&self) -> P {
        self.parser
    }

    /// The processor of the facade.
    pub closed spec fn processor_spec(&self) -> S {
        self.processor
    }

    pub fn new(parser: P, processor: S) -> (r: Self)
        ensures
            r.parser_spec() == parser,
            r.processor_spec() == processor,
    {
        Self { parser, processor }
    }

    /// Parses the input, then converts the parsed request.
    pub fn request(&self, input: RawConversionInput) -> (r: Result<ConversionResult, FacadeError>)
        requires
            self.parser_spec().conversion_spec(input@) matches Ok(p)
                ==> self.processor_spec().convert_requires(p),
        ensures
            result_view(r) == chain_conversion(
                self.parser_spec().conversion_spec(input@),
                self.processor_spec(),
            ),
    {
        let parsed = match self.parser.parse_conversion(input) {
            Ok(p) => p,
            Err(e) => {
                return Err(FacadeError::Parse(e));
            },
        };
        match self.processor.convert(parsed) {
            Ok(c) => Ok(c),
            Err(e) => Err(FacadeError::Processing(e)),
        }
    }

    /// Parses the input, then computes the largest value.
    pub fn request_maximum(&self, input: RawMaximumInput) -> (r: Result<
        MaximumValueResult,
        FacadeError,
    >)
        requires
            self.parser_spec().maximum_spec(input) matches Ok(p)
                ==> self.processor_spec().maximum_requires(p),
        ensures
            result_view(r) == chain_maximum(
                self.parser_spec().maximum_spec(input),
                self.processor_spec(),
            ),
    {
        let parsed = match self.parser.parse_maximum_value(input) {
            Ok(p) => p,
            Err(e) => {
                return Err(FacadeError::Parse(e));
            },
        };
        match self.processor.compute_maximum(parsed) {
            Ok(c) => Ok(c),
            Err(e) => Err(FacadeError::Processing(e)),
        }
    }
}


/// Converting a parsed request to its own source base gives, after the
/// sign, the parser's normalized integer part: re-encoding in the same base
/// only drops leading zeros (as long as the value fits in `u64`, through
/// which such a conversion goes); the fraction follows it.
pub proof fn lemma_same_base_conversion_normalizes(input: RawInputView)
    ensures
        parse_conversion_spec(input) matches Ok(p) ==> {
            p.detected_source_base == p.original_input.target_base && fits_u64(
                p.integer_digits,
                p.detected_source_base as nat,
            ) ==> {
                &&& conversion_spec(p) matches Ok(r)
                &&& conversion_spec(p)->Ok_0.output_value == sign_text(p.sign) + normalized_integer(
                    p.integer_digits,
                ) + fraction_output(p)
            }
        },
{
    if let Ok(p) = parse_conversion_spec(input) {
        lemma_parsed_requests_are_well_formed(input);
        if p.detected_source_base == p.original_input.target_base {
            lemma_reencoding_normalizes(p.integer_digits, p.detected_source_base as nat);
        }
    }
}

/// Every request that the default facade parses can be handed to its
/// processor: the requirement of `request` holds for every input.
pub proof fn lemma_default_request_defined(
    facade: ConversionFacade<ConversionParser, ConversionProcessor>,
    input: RawConversionInput,
)
    ensures
        facade.parser_spec().conversion_spec(input@) matches Ok(p)
            ==> facade.processor_spec().convert_requires(p),
{
    lemma_parsed_requests_are_well_formed(input@);
}


/// Every request for a largest value that the default facade parses can be
/// handed to its processor: the requirement of `request_maximum` holds for
/// every input.
pub proof fn lemma_default_maximum_defined(
    facade: ConversionFacade<ConversionParser, ConversionProcessor>,
    input: RawMaximumInput,
)
    ensures
        facade.parser_spec().maximum_spec(input) matches Ok(p)
            ==> facade.processor_spec().maximum_requires(p),
{
}

/// The digits of a value that fits in `u64` can be summed in `u64` again.
proof fn lemma_canonical_fits(v: nat, base: nat)
    requires
        2 <= base <= 36,
        v <= u64::MAX,
    ensures
        fits_u64(to_digits(v, base), base),
{
    lemma_to_digits_value(v, base);
}

/// Converting integer digits to another base and the result back (for a
/// pair of bases that goes through decimal) gives the normalized digits
/// that were started from: the conversion back undoes the conversion,
/// up to leading zeros.
pub proof fn lemma_round_trip(
    digits: Seq<char>,
    source_base: nat,
    target_base: nat,
    trace_there: bool,
    trace_back: bool,
)
    requires
        2 <= source_base <= 36,
        2 <= target_base <= 36,
        valid_digits(digits, source_base),
        !is_direct_pair(source_base, target_base),
        fits_u64(digits, source_base),
    ensures
        convert_integer_spec(digits, source_base, target_base, trace_there) matches Some(
            (out, _),
        ) && {
            let back = convert_integer_spec(out, target_base, source_base, trace_back);
            &&& back is Some
            &&& back.unwrap().0 == normalized_integer(digits)
        },
{
    let v = value_of(digits, source_base);
    let out = to_digits(v, target_base);
    lemma_canonical_fits(v, target_base);
    lemma_to_digits_value(v, target_base);
    lemma_reencoding_normalizes(digits, source_base);
}

} // verus!
