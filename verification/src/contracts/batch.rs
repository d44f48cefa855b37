//! The batch service: conversions of many inputs through one facade.

use vstd::prelude::*;
use super::facade::ConversionFacade;
use super::parser::{ConversionParser, ConversionRequestParser};
use super::processor::{ConversionProcessor, NumericProcessingService};

verus! {

/// Runs conversions through a facade.
#[derive(Debug, Clone)]
pub struct BatchService<P, S> where P: ConversionRequestParser, S: NumericProcessingService {
    facade: ConversionFacade<P, S>,
}

impl BatchService<ConversionParser, ConversionProcessor> {
    /// The batch service over the default facade.
    pub fn new_default() -> (r: Self)
        ensures
            r.facade_spec().parser_spec() == ConversionParser,
            r.facade_spec().processor_spec() == ConversionProcessor,
    {
        Self { facade: ConversionFacade::new_default() }
    }
}

impl<P, S> BatchService<P, S> where P: ConversionRequestParser, S: NumericProcessingService {
    /// The facade of the service.
    pub closed spec fn facade_spec(&self) -> ConversionFacade<P, S> {
        self.facade
    }

    pub fn new(facade: ConversionFacade<P, S>) -> (r: Self)
        ensures
            r.facade_spec() == facade,
    {
        Self { facade }
    }

    pub fn facade(&self) -> (r: &ConversionFacade<P, S>)
        ensures
            *r == self.facade_spec(),
    {
        &self.facade
    }
}

} // verus!
