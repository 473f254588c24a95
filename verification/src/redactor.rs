//! The redactor: its detectors, settings and registration of custom detectors.
use vstd::prelude::*;

use crate::detectors::credit_card::CREDIT_CARD_PATTERN;
use crate::detectors::email::EMAIL_PATTERN;
use crate::detectors::overlaps::{
    chained, law_resolution_is_unique, law_span_and_order_leave_no_ties, lemma_sub_multiset_within,
    no_rank_ties, resolution, resolve_overlaps,
};
use crate::detectors::phone::PHONE_PATTERN;
use crate::detectors::{
    builtin_matches, detect_builtin_detector, detect_with_rust_regex, nonempty_span,
    spans_to_matches,
};
use crate::error::{ErrorView, RedactixError};
use crate::matcher::{
    compile_regex, regex_compiles, regex_error_message, regex_find_spans, CompiledPattern,
};
use crate::redaction::{
    apply_redaction, law_disjoint_matches_redact, law_length_preserving_redaction,
    law_masking_depends_on_matches_only, masked_text, redacted,
};
use crate::text::{
    ascii_alnum, ascii_alpha, is_ascii_alnum, is_ascii_alpha, lower, lower_chars, str_eq,
    string_from_chars, to_chars, trim, trim_chars, trim_end_index, trim_start_index, upper,
    law_lower_has_no_ascii_upper_case, law_upper_has_no_ascii_lower_case,
    upper_chars,
};
use crate::types::{
    all_made_by, faithful, made_by, views, within, ConfigView, DetectorConfig, MaskStrategy, MatchView, PiiMatch,
    RedactionSettings, SettingsView,
};

verus! {

/// Priority of the built-in detectors.
pub const DEFAULT_PRIORITY: i32 = 100;

/// The detectors that come with the library.
#[derive(Clone, Copy, Debug, PartialEq, Eq, Structural)]
pub enum BuiltinDetector {
    Email,
    Phone,
    CreditCard,
}

/// Name of a built-in detector.
pub open spec fn builtin_name(d: BuiltinDetector) -> Seq<char> {
    match d {
        BuiltinDetector::Email => "email"@,
        BuiltinDetector::Phone => "phone"@,
        BuiltinDetector::CreditCard => "credit_card"@,
    }
}

/// Entity type reported by a built-in detector.
pub open spec fn builtin_entity_type(d: BuiltinDetector) -> Seq<char> {
    match d {
        BuiltinDetector::Email => "EMAIL"@,
        BuiltinDetector::Phone => "PHONE"@,
        BuiltinDetector::CreditCard => "CREDIT_CARD"@,
    }
}

/// Regex pattern of a built-in detector.
pub open spec fn builtin_pattern(d: BuiltinDetector) -> Seq<char> {
    match d {
        BuiltinDetector::Email => EMAIL_PATTERN@,
        BuiltinDetector::Phone => PHONE_PATTERN@,
        BuiltinDetector::CreditCard => CREDIT_CARD_PATTERN@,
    }
}

/// The built-in detector called `name`, if any.
pub open spec fn builtin_named(name: Seq<char>) -> Option<BuiltinDetector> {
    if name == "email"@ {
        Some(BuiltinDetector::Email)
    } else if name == "phone"@ {
        Some(BuiltinDetector::Phone)
    } else if name == "credit_card"@ {
        Some(BuiltinDetector::CreditCard)
    } else {
        None
    }
}

/// All built-in detectors, in their default order.
pub open spec fn all_builtins() -> Seq<BuiltinDetector> {
    seq![BuiltinDetector::Email, BuiltinDetector::Phone, BuiltinDetector::CreditCard]
}

/// Configuration of the built-in detector `d` registered at position `i`.
pub open spec fn builtin_config(d: BuiltinDetector, i: int) -> ConfigView {
    ConfigView {
        name: builtin_name(d),
        entity_type: builtin_entity_type(d),
        placeholder: None,
        enabled: true,
        priority: DEFAULT_PRIORITY,
        order: i as usize,
    }
}

/// A detector name: ASCII letters, digits and `_`, not starting with a digit.
pub open spec fn valid_identifier(s: Seq<char>) -> bool {
    &&& s.len() > 0
    &&& (is_ascii_alpha(s[0]) || s[0] == '_')
    &&& forall|i: int| 1 <= i < s.len() ==> is_ascii_alnum(#[trigger] s[i]) || s[i] == '_'
}

/// The name under which `name` is registered: trimmed and ASCII-lowercased,
/// then checked to be an identifier.
pub open spec fn normalized_name(name: Seq<char>) -> Result<Seq<char>, ErrorView> {
    let n = lower(trim(name));
    if n.len() == 0 {
        Err(ErrorView::EmptyDetectorName)
    } else if !valid_identifier(n) {
        Err(ErrorView::InvalidDetectorName)
    } else {
        Ok(n)
    }
}

/// The built-in detector that a user-given `name` selects.
pub open spec fn builtin_for(name: Seq<char>) -> Result<BuiltinDetector, ErrorView> {
    match normalized_name(name) {
        Err(e) => Err(e),
        Ok(n) => match builtin_named(n) {
            Some(d) => Ok(d),
            None => Err(ErrorView::UnknownBuiltinDetector { name: n }),
        },
    }
}

/// The built-in detectors that `names` select, in order; the first bad or
/// repeated name is reported.
pub open spec fn validated_builtins(names: Seq<Seq<char>>) -> Result<
    Seq<BuiltinDetector>,
    ErrorView,
>
    decreases names.len(),
{
    if names.len() == 0 {
        Ok(Seq::empty())
    } else {
        match validated_builtins(names.drop_last()) {
            Err(e) => Err(e),
            Ok(v) => match builtin_for(names.last()) {
                Err(e) => Err(e),
                Ok(d) => if v.contains(d) {
                    Err(ErrorView::DetectorExists { name: builtin_name(d) })
                } else {
                    Ok(v.push(d))
                },
            },
        }
    }
}

/// Views of a sequence of strings.
pub open spec fn names_of(v: Seq<String>) -> Seq<Seq<char>> {
    v.map_values(|s: String| s@)
}

/// The built-in detectors that a redactor is asked to enable (all when `None`).
pub open spec fn requested_builtins(detectors: Option<Vec<String>>) -> Result<
    Seq<BuiltinDetector>,
    ErrorView,
> {
    match detectors {
        Some(v) => validated_builtins(names_of(v@)),
        None => Ok(all_builtins()),
    }
}

/// The mask strategy called `name`, if any.
pub open spec fn strategy_named(name: Seq<char>) -> Option<MaskStrategy> {
    if name == "placeholder"@ {
        Some(MaskStrategy::Placeholder)
    } else if name == "fixed"@ {
        Some(MaskStrategy::Fixed)
    } else if name == "length_preserving"@ {
        Some(MaskStrategy::LengthPreserving)
    } else {
        None
    }
}

/// The settings that `settings_from_parts` builds from its text arguments.
pub open spec fn settings_spec(
    mask_strategy: Seq<char>,
    placeholder_format: Seq<char>,
    mask_char: Seq<char>,
    fixed_mask: Seq<char>,
) -> Result<SettingsView, ErrorView> {
    match strategy_named(mask_strategy) {
        None => Err(ErrorView::InvalidMaskStrategy { value: mask_strategy }),
        Some(st) => if mask_char.len() == 0 {
            if st == MaskStrategy::LengthPreserving {
                Err(ErrorView::EmptyMaskChar)
            } else {
                Ok(
                    SettingsView {
                        mask_strategy: st,
                        placeholder_format,
                        mask_char: '*',
                        fixed_mask,
                    },
                )
            }
        } else if st == MaskStrategy::LengthPreserving && mask_char.len() > 1 {
            Err(ErrorView::MaskCharNotSingle)
        } else {
            Ok(
                SettingsView {
                    mask_strategy: st,
                    placeholder_format,
                    mask_char: mask_char[0],
                    fixed_mask,
                },
            )
        },
    }
}

impl BuiltinDetector {
    /// All built-in detectors, in their default order.
    pub fn all() -> (v: Vec<Self>)
        ensures
            v@ == all_builtins(),
    {
        let v = vec![BuiltinDetector::Email, BuiltinDetector::Phone, BuiltinDetector::CreditCard];
        assert(v@ =~= all_builtins());
        v
    }

    /// The built-in detector called `name`.
    pub fn from_name(name: &str) -> (r: Result<Self, RedactixError>)
        ensures
            builtin_named(name@) matches Some(d) ==> (r matches Ok(x) && x == d),
            builtin_named(name@) is None ==> (r matches Err(e) && e@
                == (ErrorView::UnknownBuiltinDetector { name: name@ })),
    {
        if str_eq(name, "email") {
            Ok(BuiltinDetector::Email)
        } else if str_eq(name, "phone") {
            Ok(BuiltinDetector::Phone)
        } else if str_eq(name, "credit_card") {
            Ok(BuiltinDetector::CreditCard)
        } else {
            Err(RedactixError::UnknownBuiltinDetector { name: name.to_owned() })
        }
    }

    /// Name of the detector.
    pub fn name(self) -> (s: &'static str)
        ensures
            s@ == builtin_name(self),
    {
        match self {
            BuiltinDetector::Email => "email",
            BuiltinDetector::Phone => "phone",
            BuiltinDetector::CreditCard => "credit_card",
        }
    }

    /// Entity type the detector reports.
    pub fn entity_type(self) -> (s: &'static str)
        ensures
            s@ == builtin_entity_type(self),
    {
        match self {
            BuiltinDetector::Email => "EMAIL",
            BuiltinDetector::Phone => "PHONE",
            BuiltinDetector::CreditCard => "CREDIT_CARD",
        }
    }

    /// Regex pattern of the detector.
    pub fn pattern(self) -> (s: &'static str)
        ensures
            s@ == builtin_pattern(self),
    {
        match self {
            BuiltinDetector::Email => EMAIL_PATTERN,
            BuiltinDetector::Phone => PHONE_PATTERN,
            BuiltinDetector::CreditCard => CREDIT_CARD_PATTERN,
        }
    }
}

/// Builds redaction settings from their textual form.
pub fn settings_from_parts(
    mask_strategy: &str,
    placeholder_format: &str,
    mask_char: &str,
    fixed_mask: &str,
) -> (r: Result<RedactionSettings, RedactixError>)
    ensures
        match settings_spec(mask_strategy@, placeholder_format@, mask_char@, fixed_mask@) {
            Ok(s) => r matches Ok(x) && x@ == s,
            Err(e) => r matches Err(x) && x@ == e,
        },
{
    let strategy = if str_eq(mask_strategy, "placeholder") {
        MaskStrategy::Placeholder
    } else if str_eq(mask_strategy, "fixed") {
        MaskStrategy::Fixed
    } else if str_eq(mask_strategy, "length_preserving") {
        MaskStrategy::LengthPreserving
    } else {
        return Err(RedactixError::InvalidMaskStrategy { value: mask_strategy.to_owned() });
    };
    let chars = to_chars(mask_char);
    if chars.len() == 0 {
        if strategy == MaskStrategy::LengthPreserving {
            return Err(RedactixError::EmptyMaskChar);
        }
        return Ok(
            RedactionSettings {
                mask_strategy: strategy,
                placeholder_format: placeholder_format.to_owned(),
                mask_char: '*',
                fixed_mask: fixed_mask.to_owned(),
            },
        );
    }
    if strategy == MaskStrategy::LengthPreserving && chars.len() > 1 {
        return Err(RedactixError::MaskCharNotSingle);
    }
    Ok(
        RedactionSettings {
            mask_strategy: strategy,
            placeholder_format: placeholder_format.to_owned(),
            mask_char: chars[0],
            fixed_mask: fixed_mask.to_owned(),
        },
    )
}

/// Trims and ASCII-lowercases a detector name and checks that it is an identifier.
pub fn normalize_detector_name(name: &str) -> (r: Result<String, RedactixError>)
    ensures
        match normalized_name(name@) {
            Ok(n) => r matches Ok(s) && s@ == n,
            Err(e) => r matches Err(x) && x@ == e,
        },
{
    let chars = to_chars(name);
    let trimmed = trim_chars(&chars);
    let normalized = lower_chars(&trimmed);
    if normalized.len() == 0 {
        return Err(RedactixError::EmptyDetectorName);
    }
    let first = normalized[0];
    if !(ascii_alpha(first) || first == '_') {
        return Err(RedactixError::InvalidDetectorName);
    }
    let mut i: usize = 1;
    while i < normalized.len()
        invariant
            normalized@ == lower(trim(name@)),
            1 <= i <= normalized@.len(),
            forall|k: int| 1 <= k < i ==> is_ascii_alnum(#[trigger] normalized@[k]) || normalized@[k]
                == '_',
        decreases normalized.len() - i,
    {
        let c = normalized[i];
        if !(ascii_alnum(c) || c == '_') {
            assert(!(is_ascii_alnum(normalized@[i as int]) || normalized@[i as int] == '_'));
            return Err(RedactixError::InvalidDetectorName);
        }
        i = i + 1;
    }
    Ok(string_from_chars(normalized.as_slice()))
}

/// The entity type of a custom detector: its name in ASCII upper case.
pub fn entity_type_for_name(name: &str) -> (r: String)
    ensures
        r@ == upper(name@),
        r@.len() == name@.len(),
        forall|i: int| 0 <= i < r@.len() ==> !('a' <= #[trigger] r@[i] <= 'z'),
{
    proof {
        law_upper_has_no_ascii_lower_case(name@);
    }
    let chars = to_chars(name);
    let upper = upper_chars(&chars);
    string_from_chars(upper.as_slice())
}

/// Whether `d` occurs in `v`.
fn contains_builtin(v: &Vec<BuiltinDetector>, d: BuiltinDetector) -> (r: bool)
    ensures
        r == v@.contains(d),
{
    let mut j: usize = 0;
    while j < v.len()
        invariant
            j <= v@.len(),
            forall|k: int| 0 <= k < j ==> v@[k] != d,
        decreases v.len() - j,
    {
        if v[j] == d {
            assert(v@[j as int] == d);
            return true;
        }
        j = j + 1;
    }
    false
}

/// The name that selects a built-in detector is that detector's name.
proof fn lemma_builtin_named(name: Seq<char>)
    ensures
        builtin_named(name) matches Some(d) ==> name == builtin_name(d),
{
}

/// Different built-in detectors have different names.
pub proof fn lemma_builtin_name_injective(d1: BuiltinDetector, d2: BuiltinDetector)
    requires
        d1 != d2,
    ensures
        builtin_name(d1) != builtin_name(d2),
{
    reveal_strlit("email");
    reveal_strlit("phone");
    reveal_strlit("credit_card");
    assert(builtin_name(d1)[0] != builtin_name(d2)[0]);
}

/// The name of a built-in detector selects that detector.
pub proof fn law_builtin_name_roundtrip(d: BuiltinDetector)
    ensures
        builtin_named(builtin_name(d)) == Some(d),
{
    reveal_strlit("email");
    reveal_strlit("phone");
    reveal_strlit("credit_card");
    match d {
        BuiltinDetector::Email => {},
        BuiltinDetector::Phone => {
            assert(builtin_name(d)[0] != "email"@[0]);
        },
        BuiltinDetector::CreditCard => {
            assert(builtin_name(d)[0] != "email"@[0]);
            assert(builtin_name(d)[0] != "phone"@[0]);
        },
    }
}

/// An identifier without ASCII upper-case letters is its own normalized name.
pub proof fn lemma_normalized_fixed(n: Seq<char>)
    requires
        valid_identifier(n),
        forall|i: int| 0 <= i < n.len() ==> !crate::text::is_ascii_upper(#[trigger] n[i]),
    ensures
        normalized_name(n) == Ok::<Seq<char>, ErrorView>(n),
{
    assert(!crate::text::is_white_space(n[0]));
    assert(trim_start_index(n, 0) == 0);
    let last = n.len() - 1;
    assert(is_ascii_alnum(n[last]) || n[last] == '_' || last == 0);
    assert(!crate::text::is_white_space(n[last]));
    assert(trim_end_index(n, 0, n.len() as int) == n.len());
    assert(trim(n) =~= n);
    assert(lower(n) =~= n);
}

/// A normalized detector name normalizes to itself.
pub proof fn law_normalized_name_is_stable(name: Seq<char>)
    ensures
        normalized_name(name) matches Ok(n) ==> normalized_name(n) == Ok::<Seq<char>, ErrorView>(n),
{
    if let Ok(n) = normalized_name(name) {
        let t = trim(name);
        assert forall|i: int| 0 <= i < n.len() implies !crate::text::is_ascii_upper(#[trigger] n[i]) by {
            assert(n[i] == crate::text::ascii_lower(t[i]));
        }
        lemma_normalized_fixed(n);
    }
}

/// A registered name is non-empty, made only of `a` to `z`, `0` to `9` and `_`,
/// and does not start with a digit.
pub proof fn law_normalized_name_shape(name: Seq<char>)
    ensures
        normalized_name(name) matches Ok(n) ==> n.len() > 0 && !('0' <= n[0] <= '9') && forall|
            i: int,
        |
            0 <= i < n.len() ==> ('a' <= #[trigger] n[i] <= 'z' || '0' <= n[i] <= '9' || n[i]
                == '_'),
{
    if let Ok(n) = normalized_name(name) {
        law_lower_has_no_ascii_upper_case(trim(name));
        assert forall|i: int| 0 <= i < n.len() implies ('a' <= #[trigger] n[i] <= 'z' || '0'
            <= n[i] <= '9' || n[i] == '_') by {
            assert(!('A' <= lower(trim(name))[i] <= 'Z'));
            if i > 0 {
                assert(is_ascii_alnum(n[i]) || n[i] == '_');
            } else {
                assert(is_ascii_alpha(n[0]) || n[0] == '_');
            }
        }
    }
}

/// The name of a built-in detector is a normalized identifier.
pub proof fn lemma_builtin_name_normalized(d: BuiltinDetector)
    ensures
        normalized_name(builtin_name(d)) == Ok::<Seq<char>, ErrorView>(builtin_name(d)),
{
    reveal_strlit("email");
    reveal_strlit("phone");
    reveal_strlit("credit_card");
    let n = builtin_name(d);
    assert(valid_identifier(n));
    lemma_normalized_fixed(n);
}

/// A failure on a prefix of the names is the failure of all of them.
proof fn lemma_validated_prefix_err(names: Seq<Seq<char>>, k: int, e: ErrorView)
    requires
        0 <= k <= names.len(),
        validated_builtins(names.take(k)) == Err::<Seq<BuiltinDetector>, ErrorView>(e),
    ensures
        validated_builtins(names) == Err::<Seq<BuiltinDetector>, ErrorView>(e),
    decreases names.len() - k,
{
    if k < names.len() {
        let p = names.take(k + 1);
        assert(p.drop_last() =~= names.take(k));
        lemma_validated_prefix_err(names, k + 1, e);
    } else {
        assert(names.take(k) =~= names);
    }
}

/// The built-in detectors that `detectors` names, each at most once.
pub fn validate_builtin_detectors(detectors: Vec<String>) -> (r: Result<
    Vec<BuiltinDetector>,
    RedactixError,
>)
    ensures
        match validated_builtins(names_of(detectors@)) {
            Ok(v) => r matches Ok(x) && x@ == v,
            Err(e) => r matches Err(x) && x@ == e,
        },
{
    let ghost names = names_of(detectors@);
    let mut validated: Vec<BuiltinDetector> = Vec::new();
    let mut i: usize = 0;
    assert(names.take(0) =~= Seq::<Seq<char>>::empty());
    while i < detectors.len()
        invariant
            names == names_of(detectors@),
            i <= detectors@.len(),
            validated_builtins(names.take(i as int)) == Ok::<Seq<BuiltinDetector>, ErrorView>(
                validated@,
            ),
        decreases detectors.len() - i,
    {
        let ghost p = names.take(i + 1);
        assert(p.drop_last() =~= names.take(i as int));
        assert(p.last() == detectors@[i as int]@);
        let normalized = match normalize_detector_name(detectors[i].as_str()) {
            Ok(n) => n,
            Err(e) => {
                proof {
                    lemma_validated_prefix_err(names, i + 1, e@);
                }
                return Err(e);
            },
        };
        let builtin = match BuiltinDetector::from_name(normalized.as_str()) {
            Ok(d) => d,
            Err(e) => {
                proof {
                    lemma_validated_prefix_err(names, i + 1, e@);
                }
                return Err(e);
            },
        };
        if contains_builtin(&validated, builtin) {
            proof {
                let e = ErrorView::DetectorExists { name: builtin_name(builtin) };
                lemma_builtin_named(normalized@);
                lemma_validated_prefix_err(names, i + 1, e);
            }
            return Err(RedactixError::DetectorExists { name: normalized });
        }
        validated.push(builtin);
        i = i + 1;
    }
    assert(names.take(i as int) =~= names);
    Ok(validated)
}

/// A detector of a redactor: built in, or registered with a custom pattern.
pub enum ActiveDetector {
    Builtin { detector: BuiltinDetector, config: DetectorConfig, regex: CompiledPattern },
    Custom { config: DetectorConfig, regex: CompiledPattern },
}

impl ActiveDetector {
    /// The configuration of this detector.
    pub open spec fn spec_config(&self) -> DetectorConfig {
        match self {
            ActiveDetector::Builtin { config, .. } => *config,
            ActiveDetector::Custom { config, .. } => *config,
        }
    }

    /// The matches this detector reports in `t` (none when disabled).
    pub open spec fn candidates(&self, t: Seq<char>, s: SettingsView) -> Seq<MatchView> {
        if !self.spec_config().enabled {
            Seq::empty()
        } else {
            match self {
                ActiveDetector::Builtin { detector, config, regex } => builtin_matches(
                    *detector,
                    t,
                    *regex,
                    config@,
                    s,
                ),
                ActiveDetector::Custom { config, regex } => spans_to_matches(
                    t,
                    regex_find_spans(regex.source(), t),
                    nonempty_span(),
                    config@,
                    s,
                ),
            }
        }
    }

    /// A built-in detector runs its own pattern.
    pub open spec fn uses_own_pattern(&self) -> bool {
        match self {
            ActiveDetector::Builtin { detector, regex, .. } => regex.source() == builtin_pattern(
                *detector,
            ),
            ActiveDetector::Custom { .. } => true,
        }
    }

    /// The configuration of this detector.
    pub fn config(&self) -> (c: &DetectorConfig)
        ensures
            *c == self.spec_config(),
    {
        match self {
            ActiveDetector::Builtin { config, .. } => config,
            ActiveDetector::Custom { config, .. } => config,
        }
    }

    /// The matches this detector reports in `text`.
    pub fn detect(&self, text: &str, settings: &RedactionSettings) -> (r: Vec<PiiMatch>)
        requires
            self.uses_own_pattern(),
        ensures
            views(r@) == self.candidates(text@, settings@),
            within(views(r@), text@.len() as int),
            faithful(views(r@), text@, settings@),
            chained(views(r@)),
            all_made_by(views(r@), self.spec_config()@, text@, settings@),
    {
        let config = self.config();
        if !config.enabled {
            let r: Vec<PiiMatch> = Vec::new();
            assert(views(r@) =~= Seq::<MatchView>::empty());
            return r;
        }
        match self {
            ActiveDetector::Builtin { detector, regex, .. } => detect_builtin_detector(
                text,
                *detector,
                regex,
                config,
                settings,
            ),
            ActiveDetector::Custom { regex, .. } => detect_with_rust_regex(
                config,
                regex,
                text,
                settings,
            ),
        }
    }
}

/// The matches that the first `n` detectors of `dets` report, detector by detector.
pub open spec fn candidates_of(
    dets: Seq<ActiveDetector>,
    t: Seq<char>,
    s: SettingsView,
    n: int,
) -> Seq<MatchView>
    decreases n,
{
    if n <= 0 {
        Seq::empty()
    } else {
        candidates_of(dets, t, s, n - 1) + dets[n - 1].candidates(t, s)
    }
}

/// Candidates depend only on the detectors counted.
proof fn lemma_candidates_prefix(
    d1: Seq<ActiveDetector>,
    d2: Seq<ActiveDetector>,
    t: Seq<char>,
    s: SettingsView,
    n: int,
)
    requires
        n <= d1.len(),
        n <= d2.len(),
        forall|i: int| 0 <= i < n ==> #[trigger] d1[i] == d2[i],
    ensures
        candidates_of(d1, t, s, n) == candidates_of(d2, t, s, n),
    decreases n,
{
    if n > 0 {
        lemma_candidates_prefix(d1, d2, t, s, n - 1);
        assert(d1[n - 1] == d2[n - 1]);
    }
}

/// Registering a detector keeps every earlier candidate and adds, after them,
/// the matches of the new detector.
pub proof fn law_register_extends_candidates(before: Redactor, after: Redactor, t: Seq<char>)
    requires
        after.settings_view() == before.settings_view(),
        after.active().len() == before.active().len() + 1,
        forall|i: int|
            0 <= i < before.active().len() ==> #[trigger] after.active()[i] == before.active()[i],
    ensures
        after.candidates(t) == before.candidates(t) + after.active().last().candidates(
            t,
            after.settings_view(),
        ),
{
    let n = before.active().len() as int;
    lemma_candidates_prefix(after.active(), before.active(), t, before.settings_view(), n);
}

/// Detects and redacts personal data with built-in and custom detectors.
pub struct Redactor {
    detectors: Vec<ActiveDetector>,
    settings: RedactionSettings,
    next_order: usize,
}

impl Redactor {
    /// The detectors, in registration order.
    pub closed spec fn active(&self) -> Seq<ActiveDetector> {
        self.detectors@
    }

    /// The redaction settings.
    pub closed spec fn settings_view(&self) -> SettingsView {
        self.settings@
    }

    /// The order that the next registered detector receives.
    pub closed spec fn next_order_view(&self) -> int {
        self.next_order as int
    }

    /// The registry's promise to callers: every detector name is a normalized
    /// identifier, names are pairwise distinct, orders grow with registration,
    /// and every order is below the next one to be given, which is the number
    /// of detectors registered so far.
    pub open spec fn registry_invariant(&self) -> bool {
        &&& forall|i: int|
            0 <= i < self.active().len() ==> normalized_name(
                (#[trigger] self.active()[i]).spec_config()@.name,
            ) == Ok::<Seq<char>, ErrorView>(self.active()[i].spec_config()@.name)
        &&& forall|i: int, j: int|
            0 <= i < j < self.active().len() ==> (#[trigger] self.active()[i]).spec_config()@.name
                != (#[trigger] self.active()[j]).spec_config()@.name
        &&& forall|i: int, j: int|
            0 <= i < j < self.active().len() ==> (#[trigger] self.active()[i]).spec_config().order
                < (#[trigger] self.active()[j]).spec_config().order
        &&& forall|i: int|
            0 <= i < self.active().len() ==> (#[trigger] self.active()[i]).spec_config().order
                < self.next_order_view()
        &&& self.next_order_view() == self.active().len()
    }

    /// Whether a detector called `name` is registered.
    pub open spec fn has_name(&self, name: Seq<char>) -> bool {
        exists|i: int| 0 <= i < self.active().len() && (#[trigger] self.active()[i]).spec_config()@.name == name
    }

    /// The matches all detectors report in `t`, before overlaps are resolved.
    pub open spec fn candidates(&self, t: Seq<char>) -> Seq<MatchView> {
        candidates_of(self.active(), t, self.settings_view(), self.active().len() as int)
    }

    /// Internal consistency: each detector's order is its position, names are
    /// unique normalized identifiers, and each built-in detector has its own
    /// configuration and regex.
    pub closed spec fn wf(&self) -> bool {
        &&& self.next_order == self.detectors@.len()
        &&& forall|i: int|
            0 <= i < self.detectors@.len() ==> (#[trigger] self.detectors@[i]).spec_config().order
                == i
        &&& forall|i: int, j: int|
            0 <= i < j < self.detectors@.len() ==> (#[trigger] self.detectors@[i]).spec_config()@.name
                != (#[trigger] self.detectors@[j]).spec_config()@.name
        &&& forall|i: int|
            0 <= i < self.detectors@.len() ==> normalized_name(
                (#[trigger] self.detectors@[i]).spec_config()@.name,
            ) == Ok::<Seq<char>, ErrorView>(self.detectors@[i].spec_config()@.name)
        &&& forall|i: int|
            0 <= i < self.detectors@.len() ==> match #[trigger] self.detectors@[i] {
                ActiveDetector::Builtin { detector, config, regex } => config@ == builtin_config(
                    detector,
                    i,
                ) && regex.source() == builtin_pattern(detector),
                ActiveDetector::Custom { .. } => true,
            }
    }

    /// A redactor with the requested built-in detectors (all of them when
    /// `detectors` is `None`) and the given settings.
    pub fn new(detectors: Option<Vec<String>>, settings: RedactionSettings) -> (r: Result<
        Self,
        RedactixError,
    >)
        ensures
            match requested_builtins(detectors) {
                Err(e) => r matches Err(x) && x@ == e,
                Ok(v) => {
                    &&& (forall|k: int| 0 <= k < v.len() ==> regex_compiles(
                        #[trigger] builtin_pattern(v[k]),
                    )) ==> r is Ok
                    &&& r matches Ok(red) ==> {
                        &&& red.wf()
                        &&& red.registry_invariant()
                        &&& red.next_order_view() == v.len()
                        &&& red.settings_view() == settings@
                        &&& red.active().len() == v.len()
                        &&& forall|i: int|
                            0 <= i < v.len() ==> (#[trigger] red.active()[i] matches ActiveDetector::Builtin {
                                detector,
                                config,
                                regex,
                            } && detector == v[i] && config@ == builtin_config(v[i], i)
                                && regex.source() == builtin_pattern(v[i]))
                    }
                    &&& r matches Err(x) ==> x@ matches ErrorView::InvalidRegex { name, .. } && exists|k: int|
                        0 <= k < v.len() && name == builtin_name(v[k]) && !regex_compiles(
                            #[trigger] builtin_pattern(v[k]),
                        )
                },
            },
    {
        let ghost requested = requested_builtins(detectors);
        let builtins = match detectors {
            Some(names) => match validate_builtin_detectors(names) {
                Ok(v) => v,
                Err(e) => return Err(e),
            },
            None => BuiltinDetector::all(),
        };
        let mut active_detectors: Vec<ActiveDetector> = Vec::new();
        let mut i: usize = 0;
        while i < builtins.len()
            invariant
                requested == requested_builtins(detectors),
                requested == Ok::<Seq<BuiltinDetector>, ErrorView>(builtins@),
                i <= builtins@.len(),
                active_detectors@.len() == i,
                forall|k: int| 0 <= k < i ==> regex_compiles(#[trigger] builtin_pattern(builtins@[k])),
                forall|k: int|
                    0 <= k < i ==> (#[trigger] active_detectors@[k] matches ActiveDetector::Builtin {
                        detector,
                        config,
                        regex,
                    } && detector == builtins@[k] && config@ == builtin_config(builtins@[k], k)
                        && regex.source() == builtin_pattern(builtins@[k])),
            decreases builtins.len() - i,
        {
            let builtin = builtins[i];
            let regex = match compile_regex(builtin.pattern()) {
                Ok(re) => re,
                Err(e) => {
                    assert(!regex_compiles(builtin_pattern(builtins@[i as int])));
                    return Err(
                        RedactixError::InvalidRegex {
                            name: builtin.name().to_owned(),
                            message: regex_error_message(&e),
                        },
                    );
                },
            };
            let config = DetectorConfig {
                name: builtin.name().to_owned(),
                entity_type: builtin.entity_type().to_owned(),
                placeholder: None,
                enabled: true,
                priority: DEFAULT_PRIORITY,
                order: i,
            };
            active_detectors.push(ActiveDetector::Builtin { detector: builtin, config, regex });
            i = i + 1;
        }
        let next_order = active_detectors.len();
        let red = Redactor { detectors: active_detectors, settings, next_order };
        proof {
            assert forall|a: int, b: int|
                0 <= a < b < red.detectors@.len() implies (#[trigger] red.detectors@[a]).spec_config()@.name
                != (#[trigger] red.detectors@[b]).spec_config()@.name by {
                lemma_builtins_distinct(builtins@, detectors, a, b);
            }
            assert forall|k: int| 0 <= k < red.detectors@.len() implies normalized_name(
                (#[trigger] red.detectors@[k]).spec_config()@.name,
            ) == Ok::<Seq<char>, ErrorView>(red.detectors@[k].spec_config()@.name) by {
                lemma_builtin_name_normalized(builtins@[k]);
            }
            law_registry_invariant(red);
        }
        Ok(red)
    }

    /// Number of registered detectors.
    pub fn detector_count(&self) -> (n: usize)
        ensures
            n == self.active().len(),
    {
        self.detectors.len()
    }

    /// Whether a detector called `name` is registered.
    pub fn contains_detector(&self, name: &str) -> (r: bool)
        ensures
            r == self.has_name(name@),
    {
        let mut i: usize = 0;
        while i < self.detectors.len()
            invariant
                i <= self.detectors@.len(),
                forall|k: int| 0 <= k < i ==> (#[trigger] self.detectors@[k]).spec_config()@.name != name@,
            decreases self.detectors.len() - i,
        {
            if str_eq(self.detectors[i].config().name.as_str(), name) {
                assert(self.active()[i as int].spec_config()@.name == name@);
                return true;
            }
            i = i + 1;
        }
        false
    }

    /// The matches of all detectors in `text`, with overlaps resolved.
    pub fn detect(&self, text: &str) -> (r: Vec<PiiMatch>)
        requires
            self.wf(),
        ensures
            resolution(self.candidates(text@), views(r@)),
            no_rank_ties(self.candidates(text@)),
            within(views(r@), text@.len() as int),
            faithful(views(r@), text@, self.settings_view()),
    {
        let mut all: Vec<PiiMatch> = Vec::new();
        let mut i: usize = 0;
        assert(views(all@) =~= Seq::<MatchView>::empty());
        while i < self.detectors.len()
            invariant
                self.wf(),
                i <= self.detectors@.len(),
                views(all@) == candidates_of(self.active(), text@, self.settings_view(), i as int),
                within(views(all@), text@.len() as int),
                faithful(views(all@), text@, self.settings_view()),
                forall|k: int|
                    0 <= k < all@.len() ==> made_by_one_of(
                        #[trigger] views(all@)[k],
                        self.active(),
                        i as int,
                        text@,
                        self.settings_view(),
                    ),
            decreases self.detectors.len() - i,
        {
            assert(self.detectors@[i as int].uses_own_pattern());
            let mut found = self.detectors[i].detect(text, &self.settings);
            let ghost before = all@;
            let ghost added = found@;
            all.append(&mut found);
            assert(views(all@) =~= views(before) + views(added));
            proof {
                let va = views(all@);
                let vb = views(before);
                let vn = views(added);
                assert forall|k: int| 0 <= k < all@.len() implies made_by_one_of(
                    #[trigger] views(all@)[k],
                    self.active(),
                    i + 1,
                    text@,
                    self.settings_view(),
                ) by {
                    if k < before.len() {
                        assert(va[k] == vb[k]);
                        assert(made_by_one_of(vb[k], self.active(), i as int, text@, self.settings_view()));
                        let d = choose|d: int|
                            0 <= d < i && made_by(
                                vb[k],
                                (#[trigger] self.active()[d]).spec_config()@,
                                text@,
                                self.settings_view(),
                            );
                        assert(made_by(va[k], self.active()[d].spec_config()@, text@, self.settings_view()));
                    } else {
                        assert(va[k] == vn[k - before.len()]);
                        assert(made_by(
                            va[k],
                            self.active()[i as int].spec_config()@,
                            text@,
                            self.settings_view(),
                        ));
                    }
                }
            }
            i = i + 1;
        }
        let ghost cands = views(all@);
        proof {
            lemma_candidates_never_tie(*self, text@, cands);
        }
        let r = resolve_overlaps(all);
        proof {
            lemma_sub_multiset_within(cands, views(r@), text@, self.settings_view());
        }
        r
    }

    /// `text` with every detected match replaced.
    pub fn redact(&self, text: &str) -> (r: String)
        requires
            self.wf(),
        ensures
            exists|ms: Seq<MatchView>|
                #![trigger redacted(text@, ms, 0)]
                resolution(self.candidates(text@), ms) && within(ms, text@.len() as int) && faithful(
                    ms,
                    text@,
                    self.settings_view(),
                ) && redacted(
                    text@,
                    ms,
                    0,
                ) == Some(r@) && (self.settings_view().mask_strategy == MaskStrategy::LengthPreserving
                    ==> r@ == masked_text(text@, ms, self.settings_view().mask_char)),
            self.settings_view().mask_strategy == MaskStrategy::LengthPreserving ==> forall|
                ms: Seq<MatchView>,
            |
                #![trigger masked_text(text@, ms, self.settings_view().mask_char)]
                resolution(self.candidates(text@), ms) ==> r@ == masked_text(
                    text@,
                    ms,
                    self.settings_view().mask_char,
                ),
    {
        let matches = self.detect(text);
        proof {
            law_disjoint_matches_redact(text@, views(matches@));
            if self.settings_view().mask_strategy == MaskStrategy::LengthPreserving {
                let v = views(matches@);
                let c = self.settings_view().mask_char;
                law_length_preserving_redaction(text@, v, self.settings_view());
                assert forall|ms: Seq<MatchView>|
                    resolution(self.candidates(text@), ms) implies #[trigger] masked_text(
                    text@,
                    ms,
                    c,
                ) == masked_text(text@, v, c) by {
                    law_resolution_is_unique(self.candidates(text@), ms, v);
                    law_masking_depends_on_matches_only(text@, ms, v, c);
                }
            }
        }
        match apply_redaction(text, matches.as_slice()) {
            Ok(s) => s,
            Err(_) => {
                proof {
                    assert(false);
                }
                String::new()
            },
        }
    }

    /// Registers a detector for `pattern` under the normalized `name`.
    pub fn register_detector(
        &mut self,
        name: String,
        pattern: String,
        placeholder: Option<String>,
        enabled: bool,
        priority: i32,
    ) -> (r: Result<(), RedactixError>)
        requires
            old(self).wf(),
        ensures
            final(self).wf(),
            final(self).registry_invariant(),
            match normalized_name(name@) {
                Err(e) => r matches Err(x) && x@ == e && *final(self) == *old(self),
                Ok(n) => if builtin_named(n) is Some || old(self).has_name(n) {
                    r matches Err(x) && x@ == (ErrorView::DetectorExists { name: n }) && *final(self)
                        == *old(self)
                } else if !regex_compiles(pattern@) {
                    r matches Err(x) && x@ matches ErrorView::InvalidRegex { name: m, .. } && m == n
                        && *final(self) == *old(self)
                } else {
                    &&& r is Ok
                    &&& final(self).settings_view() == old(self).settings_view()
                    &&& final(self).next_order_view() == old(self).next_order_view() + 1
                    &&& final(self).active().len() == old(self).active().len() + 1
                    &&& forall|i: int|
                        0 <= i < old(self).active().len() ==> #[trigger] final(self).active()[i]
                            == old(self).active()[i]
                    &&& final(self).active().last() matches ActiveDetector::Custom { config, regex }
                        && config@ == (ConfigView {
                        name: n,
                        entity_type: upper(n),
                        placeholder: placeholder.deep_view(),
                        enabled,
                        priority,
                        order: old(self).active().len() as usize,
                    }) && regex.source() == pattern@
                    &&& final(self).has_name(n)
                },
            },
    {
        proof {
            law_registry_invariant(*self);
            law_normalized_name_is_stable(name@);
        }
        let normalized = match normalize_detector_name(name.as_str()) {
            Ok(n) => n,
            Err(e) => return Err(e),
        };
        let is_builtin = match BuiltinDetector::from_name(normalized.as_str()) {
            Ok(_) => true,
            Err(_) => false,
        };
        if is_builtin || self.contains_detector(normalized.as_str()) {
            return Err(RedactixError::DetectorExists { name: normalized });
        }
        let regex = match compile_regex(pattern.as_str()) {
            Ok(re) => re,
            Err(e) => {
                return Err(
                    RedactixError::InvalidRegex { name: normalized, message: regex_error_message(&e) },
                );
            },
        };
        let entity_type = entity_type_for_name(normalized.as_str());
        let config = DetectorConfig {
            entity_type,
            name: normalized,
            placeholder,
            enabled,
            priority,
            order: self.next_order,
        };
        let ghost old_dets = self.detectors@;
        self.detectors.push(ActiveDetector::Custom { config, regex });
        assert(self.detectors@.len() == self.detectors.len());
        self.next_order = self.next_order + 1;
        proof {
            let last = self.detectors@.len() - 1;
            assert(self.detectors@[last].spec_config()@.name == normalized_name(name@)->Ok_0);
            assert forall|i: int| 0 <= i < old_dets.len() implies #[trigger] self.detectors@[i]
                == old_dets[i] by {}
            law_registry_invariant(*self);
        }
        Ok(())
    }
}

/// `m` is made by one of the first `n` detectors of `dets`.
pub open spec fn made_by_one_of(
    m: MatchView,
    dets: Seq<ActiveDetector>,
    n: int,
    t: Seq<char>,
    s: SettingsView,
) -> bool {
    exists|d: int| 0 <= d < n && made_by(m, (#[trigger] dets[d]).spec_config()@, t, s)
}

/// Candidates that each come from one of the redactor's detectors never tie in
/// rank, since detectors have distinct orders.
proof fn lemma_candidates_never_tie(r: Redactor, t: Seq<char>, cands: Seq<MatchView>)
    requires
        r.wf(),
        within(cands, t.len() as int),
        forall|k: int|
            0 <= k < cands.len() ==> made_by_one_of(
                #[trigger] cands[k],
                r.active(),
                r.active().len() as int,
                t,
                r.settings_view(),
            ),
    ensures
        no_rank_ties(cands),
{
    law_registry_invariant(r);
    let dets = r.active();
    let s = r.settings_view();
    assert forall|a: int, b: int|
        0 <= a < cands.len() && 0 <= b < cands.len() && (#[trigger] cands[a]).order
            == (#[trigger] cands[b]).order && cands[a].start == cands[b].start && cands[a].end
            == cands[b].end implies cands[a] == cands[b] by {
        assert(made_by_one_of(cands[a], dets, dets.len() as int, t, s));
        assert(made_by_one_of(cands[b], dets, dets.len() as int, t, s));
        let da = choose|d: int|
            0 <= d < dets.len() && made_by(cands[a], (#[trigger] dets[d]).spec_config()@, t, s);
        let db = choose|d: int|
            0 <= d < dets.len() && made_by(cands[b], (#[trigger] dets[d]).spec_config()@, t, s);
        if da < db {
            assert(dets[da].spec_config().order < dets[db].spec_config().order);
        } else if db < da {
            assert(dets[db].spec_config().order < dets[da].spec_config().order);
        }
        assert(da == db);
    }
    law_span_and_order_leave_no_ties(cands, t.len() as int);
}

/// A consistent redactor keeps its registry promise.
pub proof fn law_registry_invariant(r: Redactor)
    requires
        r.wf(),
    ensures
        r.registry_invariant(),
{
    assert forall|i: int| 0 <= i < r.active().len() implies normalized_name(
        (#[trigger] r.active()[i]).spec_config()@.name,
    ) == Ok::<Seq<char>, ErrorView>(r.active()[i].spec_config()@.name) by {
        assert(r.active()[i] == r.detectors@[i]);
    }
    assert forall|i: int, j: int| 0 <= i < j < r.active().len() implies (#[trigger] r.active()[
        i]).spec_config()@.name != (#[trigger] r.active()[j]).spec_config()@.name by {
        assert(r.active()[i] == r.detectors@[i] && r.active()[j] == r.detectors@[j]);
    }
    assert forall|i: int, j: int| 0 <= i < j < r.active().len() implies (#[trigger] r.active()[
        i]).spec_config().order < (#[trigger] r.active()[j]).spec_config().order by {
        assert(r.active()[i] == r.detectors@[i] && r.active()[j] == r.detectors@[j]);
    }
    assert forall|i: int| 0 <= i < r.active().len() implies (#[trigger] r.active()[
        i]).spec_config().order < r.next_order_view() by {
        assert(r.active()[i] == r.detectors@[i]);
    }
}

/// The built-in detectors of a redactor have distinct names.
proof fn lemma_builtins_distinct(
    v: Seq<BuiltinDetector>,
    detectors: Option<Vec<String>>,
    a: int,
    b: int,
)
    requires
        requested_builtins(detectors) == Ok::<Seq<BuiltinDetector>, ErrorView>(v),
        0 <= a < b < v.len(),
    ensures
        builtin_name(v[a]) != builtin_name(v[b]),
{
    match detectors {
        Some(names) => {
            lemma_validated_distinct(names_of(names@), v);
        },
        None => {},
    }
    assert(v[a] != v[b]);
    lemma_builtin_name_injective(v[a], v[b]);
}

/// The detectors that names select are pairwise different.
proof fn lemma_validated_distinct(names: Seq<Seq<char>>, v: Seq<BuiltinDetector>)
    requires
        validated_builtins(names) == Ok::<Seq<BuiltinDetector>, ErrorView>(v),
    ensures
        forall|a: int, b: int| 0 <= a < b < v.len() ==> v[a] != v[b],
        v.len() == names.len(),
    decreases names.len(),
{
    if names.len() > 0 {
        let w = validated_builtins(names.drop_last())->Ok_0;
        lemma_validated_distinct(names.drop_last(), w);
        assert(v == w.push(builtin_for(names.last())->Ok_0));
        assert forall|a: int, b: int| 0 <= a < b < v.len() implies v[a] != v[b] by {
            if b == v.len() - 1 {
                assert(w.contains(w[a]));
            } else {
                assert(v[a] == w[a] && v[b] == w[b]);
            }
        }
    }
}

} // verus!
