//! The e-mail address detector.
use vstd::prelude::*;

use crate::detectors::{detect_with_rust_regex, nonempty_span, spans_to_matches};
use crate::detectors::overlaps::chained;
use crate::matcher::{regex_find_spans, CompiledPattern};
use crate::types::{all_made_by, faithful, views, within, DetectorConfig, PiiMatch, RedactionSettings};

verus! {

/// The pattern of the e-mail detector.
pub const EMAIL_PATTERN: &'static str = r"(?i)\b[A-Z0-9._%+-]+@[A-Z0-9.-]+\.[A-Z]{2,}\b";

/// The e-mail addresses that `regex` finds in `text`.
pub fn detect(
    text: &str,
    regex: &CompiledPattern,
    config: &DetectorConfig,
    settings: &RedactionSettings,
) -> (r: Vec<PiiMatch>)
    requires
        regex.source() == EMAIL_PATTERN@,
    ensures
        views(r@) == spans_to_matches(
            text@,
            regex_find_spans(regex.source(), text@),
            nonempty_span(),
            config@,
            settings@,
        ),
        within(views(r@), text@.len() as int),
        faithful(views(r@), text@, settings@),
        chained(views(r@)),
        all_made_by(views(r@), config@, text@, settings@),
{
    detect_with_rust_regex(config, regex, text, settings)
}

} // verus!
