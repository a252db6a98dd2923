//! Validation of an unsupervised clustering of categorical survey records
//! against a known binary grouping.
//!
//! The crate holds the exact, integer part of that work: encoding tokens,
//! the rectangular feature table, the row-wise shuffles and the tally of a
//! permutation test, the contingency table behind a mutual-information
//! score, and the conventions that tie cluster indices to signed labels.

pub mod counting;
pub mod encoding;
pub mod error;
pub mod matrix;
pub mod mutual_info;
pub mod permutation;
pub mod pipeline;
