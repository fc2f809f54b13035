//! Per-key minimum / mean / maximum aggregation over `key;value` records,
//! split into byte ranges that independent workers scan and whose partial
//! tables are merged exactly.
//!
//! Values carry one fractional digit and are kept as integers scaled by ten.
//! Policies fixed here:
//! - the last range runs on to the end of the input, so no trailing byte is
//!   left unread when the length is not a multiple of the number of ranges;
//! - an input with no records gives an empty table, not an error;
//! - a line cut short by the end of the input is an error;
//! - the displayed mean is rounded to one decimal place, halves away from zero.
pub mod coverage;
pub mod laws;
pub mod parse;
pub mod partition;
pub mod reader;
pub mod roundtrip;
pub mod report;
pub mod stat;
pub mod table;
