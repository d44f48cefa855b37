//! The quiz service: exercises of conversion, checked by a processor.

use vstd::prelude::*;
use super::processor::{ConversionProcessor, NumericProcessingService};

verus! {

/// Holds the processor that checks the answers.
#[derive(Debug, Clone)]
pub struct QuizService<S> where S: NumericProcessingService {
    processor: S,
}

impl QuizService<ConversionProcessor> {
    /// The quiz service over the processor of this library.
    pub fn new_default() -> (r: Self)
        ensures
            r.processor_spec() == ConversionProcessor,
    {
        Self { processor: ConversionProcessor::new() }
    }
}

impl<S> QuizService<S> where S: NumericProcessingService {
    /// The processor of the service.
    pub closed spec fn processor_spec(&self) -> S {
        self.processor
    }

    pub fn new(processor: S) -> (r: Self)
        ensures
            r.processor_spec() == processor,
    {
        Self { processor }
    }

    pub fn processor(&self) -> (r: &S)
        ensures
            *r == self.processor_spec(),
    {
        &self.processor
    }
}

} // verus!
