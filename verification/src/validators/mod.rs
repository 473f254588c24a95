//! Checksums that confirm candidate matches.
pub mod luhn;
