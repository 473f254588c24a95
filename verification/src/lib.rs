//! Detection and redaction of common personal data in text: e-mail addresses,
//! phone numbers, payment card numbers and patterns registered by the user.
pub mod detectors;
pub mod error;
pub mod matcher;
pub mod redaction;
pub mod redactor;
pub mod text;
pub mod types;
pub mod validators;

pub use error::RedactixError;
pub use redaction::apply_redaction;
pub use redactor::{settings_from_parts, BuiltinDetector, Redactor};
pub use types::{DetectorConfig, MaskStrategy, PiiMatch, RedactionSettings};
