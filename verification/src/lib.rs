//! Summary statistics for tab-separated records: everything about them that
//! is decided on text and whole numbers.
//!
//! - [`text`]: characters, base-ten rendering, cutting a record into fields;
//! - [`number`]: which cells are numbers;
//! - [`accumulator`]: the table of columns that a stream of records builds;
//! - [`report`]: the layout of the report;
//! - [`tcp`]: the decisions of the listener and of the sender;
//! - [`expression`]: arithmetic expressions, from text to postfix.
//!
//! The running sums of the observed values, the statistics derived from
//! them and all input and output are the caller's.

pub mod accumulator;
pub mod expression;
pub mod number;
pub mod report;
pub mod tcp;
pub mod text;
