//! A universal converter between positional numeral systems (bases 2 to 36),
//! with parsing and validation of user input, step-by-step traces of the
//! positional-sum and successive-division algorithms, direct bit-grouping
//! conversions between binary, octal and hexadecimal, and the computation of
//! the largest value that a given number of digits can represent.

pub mod numeral;
pub mod text;
pub mod grouping;
pub mod decimal;
pub mod contracts;
pub mod ui;
