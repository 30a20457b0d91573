//! Measuring what text formatting costs in flash.
//!
//! The crate holds the pieces of a size benchmark for formatting code on a
//! small target: writers that put text and decimal numbers into a
//! fixed-capacity buffer, the enumeration of the feature sets to build, the
//! parser for the section sizes that the linker's size tool prints, and the
//! renderer of the ranked markdown report.

pub mod decimal;
pub mod features;
pub mod report;
pub mod sizes;
pub mod subsets;
pub mod writer;
