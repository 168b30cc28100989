//! A single genomic methylation site record: a position in a reference
//! genome annotated with strand, sequence context and aggregate
//! methylation counts, together with parsing from a whitespace-delimited
//! text line, rendering back to the tab-delimited form, derived read
//! counts, context classification, mate-pair detection and accumulation
//! of two observations into one.
//!
//! The methylation level of a site is a fraction in the closed unit
//! interval. It is held as a fixed-point count of millionths, which is
//! exactly the precision the text form carries: the line renderer rounds
//! to six decimal digits, so nothing finer ever reaches the wire.

pub mod digits;
pub mod laws;
pub mod ord;
pub mod parse;
pub mod render;
pub mod site;

pub use parse::ParseError;
pub use site::MSite;
