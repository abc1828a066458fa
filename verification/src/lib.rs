//! A log-line parser: splits a raw byte buffer into lines, runs a compiled
//! pattern with named capture groups over each non-empty line, and returns one
//! event (a mapping from group name to captured text) per matching line.
//!
//! The matching engine is the `regex` crate; everything around it — line
//! segmentation, field collection, the merge rule for repeated matches, and
//! the lenient/strict policy for non-matching lines — is verified.

pub mod matching;
pub mod model;
pub mod parser;
