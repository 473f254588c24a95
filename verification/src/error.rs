//! Errors reported to callers.
use vstd::prelude::*;

use vstd::string::StringExecFns;

verus! {

/// Why an operation of the library was refused.
#[derive(Debug)]
pub enum RedactixError {
    /// A match span runs backwards, past the text, or before the previous match.
    InvalidMatchSpan,
    /// A detector with this name is already registered (or built in).
    DetectorExists { name: String },
    /// The regex engine rejected the pattern of this detector.
    InvalidRegex { name: String, message: String },
    /// The name is not one of the built-in detectors.
    UnknownBuiltinDetector { name: String },
    /// The mask strategy is not one of the known ones.
    InvalidMaskStrategy { value: String },
    /// Length-preserving masking needs a mask character.
    EmptyMaskChar,
    /// Length-preserving masking needs exactly one mask character.
    MaskCharNotSingle,
    /// A detector name is empty after trimming.
    EmptyDetectorName,
    /// A detector name holds something other than ASCII letters, digits and `_`,
    /// or starts with a digit.
    InvalidDetectorName,
}

/// The kind of a `RedactixError` together with the names it mentions.
pub enum ErrorView {
    InvalidMatchSpan,
    DetectorExists { name: Seq<char> },
    InvalidRegex { name: Seq<char>, message: Seq<char> },
    UnknownBuiltinDetector { name: Seq<char> },
    InvalidMaskStrategy { value: Seq<char> },
    EmptyMaskChar,
    MaskCharNotSingle,
    EmptyDetectorName,
    InvalidDetectorName,
}

impl View for RedactixError {
    type V = ErrorView;

    open spec fn view(&self) -> ErrorView {
        match self {
            RedactixError::InvalidMatchSpan => ErrorView::InvalidMatchSpan,
            RedactixError::DetectorExists { name } => ErrorView::DetectorExists { name: name@ },
            RedactixError::InvalidRegex { name, message } => ErrorView::InvalidRegex {
                name: name@,
                message: message@,
            },
            RedactixError::UnknownBuiltinDetector { name } => ErrorView::UnknownBuiltinDetector {
                name: name@,
            },
            RedactixError::InvalidMaskStrategy { value } => ErrorView::InvalidMaskStrategy {
                value: value@,
            },
            RedactixError::EmptyMaskChar => ErrorView::EmptyMaskChar,
            RedactixError::MaskCharNotSingle => ErrorView::MaskCharNotSingle,
            RedactixError::EmptyDetectorName => ErrorView::EmptyDetectorName,
            RedactixError::InvalidDetectorName => ErrorView::InvalidDetectorName,
        }
    }
}

/// The message shown to users for an error.
pub open spec fn error_message(e: ErrorView) -> Seq<char> {
    match e {
        ErrorView::InvalidMatchSpan => "invalid match span while redacting"@,
        ErrorView::DetectorExists { name } => "detector '"@ + name + "' already exists"@,
        ErrorView::InvalidRegex { name, message } => "invalid regex for detector '"@ + name
            + "': "@ + message,
        ErrorView::UnknownBuiltinDetector { name } => "invalid built-in detector '"@ + name
            + "'; expected one of: email, phone, credit_card"@,
        ErrorView::InvalidMaskStrategy { value } => "invalid mask_strategy '"@ + value
            + "'; expected one of: placeholder, fixed, length_preserving"@,
        ErrorView::EmptyMaskChar => "mask_char cannot be empty"@,
        ErrorView::MaskCharNotSingle => "mask_char must contain exactly one character"@,
        ErrorView::EmptyDetectorName => "detector names cannot be empty"@,
        ErrorView::InvalidDetectorName =>
            "detector names must contain only ASCII letters, numbers, and underscores, and cannot start with a number"@,
    }
}

impl RedactixError {
    /// The message shown to users.
    pub fn message(&self) -> (m: String)
        ensures
            m@ == error_message(self@),
    {
        match self {
            RedactixError::InvalidMatchSpan => "invalid match span while redacting".to_owned(),
            RedactixError::DetectorExists { name } => {
                let mut m = "detector '".to_owned();
                m.append(name.as_str());
                m.append("' already exists");
                m
            },
            RedactixError::InvalidRegex { name, message } => {
                let mut m = "invalid regex for detector '".to_owned();
                m.append(name.as_str());
                m.append("': ");
                m.append(message.as_str());
                m
            },
            RedactixError::UnknownBuiltinDetector { name } => {
                let mut m = "invalid built-in detector '".to_owned();
                m.append(name.as_str());
                m.append("'; expected one of: email, phone, credit_card");
                m
            },
            RedactixError::InvalidMaskStrategy { value } => {
                let mut m = "invalid mask_strategy '".to_owned();
                m.append(value.as_str());
                m.append("'; expected one of: placeholder, fixed, length_preserving");
                m
            },
            RedactixError::EmptyMaskChar => "mask_char cannot be empty".to_owned(),
            RedactixError::MaskCharNotSingle => "mask_char must contain exactly one character".to_owned(),
            RedactixError::EmptyDetectorName => "detector names cannot be empty".to_owned(),
            RedactixError::InvalidDetectorName =>
                "detector names must contain only ASCII letters, numbers, and underscores, and cannot start with a number".to_owned(),
        }
    }
}

} // verus!
