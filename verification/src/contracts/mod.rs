//! The conversion service: request and result types, the parser that
//! validates user input, the numeric processor, and the facade that chains
//! them.

pub mod batch;
pub mod dto;
pub mod errors;
pub mod facade;
pub mod parser;
pub mod processor;
pub mod quiz;
