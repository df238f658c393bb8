//! A resistor value optimiser for circuit design.
//!
//! Given one value series per resistor slot R1, R2, ..., the calculator
//! enumerates every combination of standard values, filters and scores each
//! combination against a set of textual constraints, and returns the accepted
//! combinations ranked by increasing error.
//!
//! Resistor magnitudes are carried as integers in tenths of an ohm, so that
//! every value of the standard E-series (1.0, 2.2, 4.7, ... scaled over seven
//! decades) is represented exactly. Constraint expressions see the values in
//! ohms.

pub mod bounds;
pub mod calc;
pub mod eval;
pub mod parse;
pub mod rset;
pub mod series;

pub use bounds::{ParseError, RBound, ROpBuilder, RScore, Scorer};
pub use calc::{RCalc, RRes};
pub use parse::OpTok;
pub use rset::RSet;
pub use series::RSeries;
