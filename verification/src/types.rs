//! The data that flows through detection and redaction.
use vstd::prelude::*;

use crate::text::{
    lemma_replace_all_skips, lemma_replace_all_without_brace, replace_all, replace_chars,
    repeat_char, string_from_chars, to_chars,
};

verus! {

/// How a detected value is replaced.
#[derive(Clone, Copy, Debug, PartialEq, Eq, Structural)]
pub enum MaskStrategy {
    /// A placeholder such as `{{EMAIL}}`.
    Placeholder,
    /// The same fixed mask for every match.
    Fixed,
    /// One mask character per character of the match.
    LengthPreserving,
}

/// Redaction options shared by all detectors of a redactor.
#[derive(Clone, Debug)]
pub struct RedactionSettings {
    pub mask_strategy: MaskStrategy,
    pub placeholder_format: String,
    pub mask_char: char,
    pub fixed_mask: String,
}

/// Configuration of one detector.
#[derive(Clone, Debug)]
pub struct DetectorConfig {
    pub name: String,
    pub entity_type: String,
    pub placeholder: Option<String>,
    pub enabled: bool,
    pub priority: i32,
    pub order: usize,
}

/// One detected span of text, in character indices, with its replacement.
#[derive(Clone, Debug)]
pub struct PiiMatch {
    pub start: usize,
    pub end: usize,
    pub value: String,
    pub entity_type: String,
    pub detector_name: String,
    pub replacement: String,
    pub priority: i32,
    pub order: usize,
}

/// Mathematical view of `RedactionSettings`.
pub struct SettingsView {
    pub mask_strategy: MaskStrategy,
    pub placeholder_format: Seq<char>,
    pub mask_char: char,
    pub fixed_mask: Seq<char>,
}

/// Mathematical view of `DetectorConfig`.
pub struct ConfigView {
    pub name: Seq<char>,
    pub entity_type: Seq<char>,
    pub placeholder: Option<Seq<char>>,
    pub enabled: bool,
    pub priority: i32,
    pub order: usize,
}

/// Mathematical view of `PiiMatch`.
pub struct MatchView {
    pub start: usize,
    pub end: usize,
    pub value: Seq<char>,
    pub entity_type: Seq<char>,
    pub detector_name: Seq<char>,
    pub replacement: Seq<char>,
    pub priority: i32,
    pub order: usize,
}

impl View for RedactionSettings {
    type V = SettingsView;

    open spec fn view(&self) -> SettingsView {
        SettingsView {
            mask_strategy: self.mask_strategy,
            placeholder_format: self.placeholder_format@,
            mask_char: self.mask_char,
            fixed_mask: self.fixed_mask@,
        }
    }
}

impl View for DetectorConfig {
    type V = ConfigView;

    open spec fn view(&self) -> ConfigView {
        ConfigView {
            name: self.name@,
            entity_type: self.entity_type@,
            placeholder: self.placeholder.deep_view(),
            enabled: self.enabled,
            priority: self.priority,
            order: self.order,
        }
    }
}

impl View for PiiMatch {
    type V = MatchView;

    open spec fn view(&self) -> MatchView {
        MatchView {
            start: self.start,
            end: self.end,
            value: self.value@,
            entity_type: self.entity_type@,
            detector_name: self.detector_name@,
            replacement: self.replacement@,
            priority: self.priority,
            order: self.order,
        }
    }
}

/// Views of a sequence of matches.
pub open spec fn views(ms: Seq<PiiMatch>) -> Seq<MatchView> {
    ms.map_values(|m: PiiMatch| m@)
}

/// Every match covers a character range `start..end` of a text of length `n`.
pub open spec fn within(ms: Seq<MatchView>, n: int) -> bool {
    forall|k: int| #![trigger ms[k]] 0 <= k < ms.len() ==> ms[k].start <= ms[k].end <= n
}

/// `n` copies of the mask character `c`.
pub open spec fn mask_of(c: char, n: nat) -> Seq<char> {
    Seq::new(n, |i: int| c)
}

/// Each match's value is the text it covers and, under length-preserving masking,
/// its replacement is one mask character per character of its value.
pub open spec fn faithful(ms: Seq<MatchView>, t: Seq<char>, s: SettingsView) -> bool {
    forall|k: int|
        #![trigger ms[k]]
        0 <= k < ms.len() ==> ms[k].value == t.subrange(ms[k].start as int, ms[k].end as int) && (
        s.mask_strategy == MaskStrategy::LengthPreserving ==> ms[k].replacement == mask_of(
            s.mask_char,
            ms[k].value.len(),
        ))
}

/// `m` is a match that the detector configured by `c` makes in `t` under `s`:
/// it covers a range of `t`, holds that text, and takes its names, rank and
/// replacement from `c` and `s`.
pub open spec fn made_by(m: MatchView, c: ConfigView, t: Seq<char>, s: SettingsView) -> bool {
    &&& m.start <= m.end <= t.len()
    &&& m.value == t.subrange(m.start as int, m.end as int)
    &&& m.entity_type == c.entity_type
    &&& m.detector_name == c.name
    &&& m.replacement == replacement_spec(s, c, m.value)
    &&& m.priority == c.priority
    &&& m.order == c.order
}

/// Every match of `ms` is made by the detector configured by `c`.
pub open spec fn all_made_by(ms: Seq<MatchView>, c: ConfigView, t: Seq<char>, s: SettingsView) -> bool {
    forall|k: int| #![trigger ms[k]] 0 <= k < ms.len() ==> made_by(ms[k], c, t, s)
}

/// The placeholder that the format `{entity_type}` / `{detector_name}` fields produce.
pub open spec fn formatted_placeholder(format: Seq<char>, config: ConfigView) -> Seq<char> {
    replace_all(
        replace_all(format, "{entity_type}"@, config.entity_type),
        "{detector_name}"@,
        config.name,
    )
}

/// The text that replaces `value`, found by `config`, under `settings`.
pub open spec fn replacement_spec(
    settings: SettingsView,
    config: ConfigView,
    value: Seq<char>,
) -> Seq<char> {
    match settings.mask_strategy {
        MaskStrategy::Placeholder => match config.placeholder {
            Some(p) => p,
            None => formatted_placeholder(settings.placeholder_format, config),
        },
        MaskStrategy::Fixed => settings.fixed_mask,
        MaskStrategy::LengthPreserving => mask_of(settings.mask_char, value.len()),
    }
}

/// What replaces a value under each strategy: the fixed strategy always gives
/// the fixed mask, whatever placeholder the detector has; length-preserving
/// masking gives one mask character per character of the value; the
/// placeholder strategy gives the detector's own placeholder when it has one.
pub proof fn law_replacement_follows_strategy(s: SettingsView, c: ConfigView, value: Seq<char>)
    ensures
        s.mask_strategy == MaskStrategy::Fixed ==> replacement_spec(s, c, value) == s.fixed_mask,
        s.mask_strategy == MaskStrategy::LengthPreserving ==> replacement_spec(s, c, value).len()
            == value.len() && forall|i: int|
            0 <= i < value.len() ==> #[trigger] replacement_spec(s, c, value)[i] == s.mask_char,
        s.mask_strategy == MaskStrategy::Placeholder ==> (c.placeholder matches Some(p)
            ==> replacement_spec(s, c, value) == p),
{
}

/// A placeholder format without `{` is used as it is.
pub proof fn law_format_without_fields_is_kept(format: Seq<char>, c: ConfigView)
    requires
        forall|i: int| 0 <= i < format.len() ==> format[i] != '{',
    ensures
        formatted_placeholder(format, c) == format,
{
    reveal_strlit("{entity_type}");
    reveal_strlit("{detector_name}");
    lemma_replace_all_without_brace(format, "{entity_type}"@, c.entity_type);
    lemma_replace_all_without_brace(format, "{detector_name}"@, c.name);
}

/// The format `{detector_name}` gives the detector's name, and the format
/// `{entity_type}` its entity type when that holds no `{`.
pub proof fn law_single_field_formats(c: ConfigView)
    ensures
        formatted_placeholder("{detector_name}"@, c) == c.name,
        (forall|i: int| 0 <= i < c.entity_type.len() ==> c.entity_type[i] != '{')
            ==> formatted_placeholder("{entity_type}"@, c) == c.entity_type,
{
    reveal_strlit("{entity_type}");
    reveal_strlit("{detector_name}");
    let k1 = "{entity_type}"@;
    let k2 = "{detector_name}"@;
    lemma_replace_all_skips(k2, k1, c.entity_type, 1);
    lemma_replace_all_without_brace(k2.drop_first(), k1, c.entity_type);
    assert(seq![k2[0]] + k2.drop_first() =~= k2);
    assert(k2.take(k2.len() as int) =~= k2);
    assert(replace_all(k2.skip(k2.len() as int), k2, c.name) =~= Seq::<char>::empty());
    assert(c.name + Seq::<char>::empty() =~= c.name);
    assert(k1.take(k1.len() as int) =~= k1);
    assert(replace_all(k1.skip(k1.len() as int), k1, c.entity_type) =~= Seq::<char>::empty());
    assert(c.entity_type + Seq::<char>::empty() =~= c.entity_type);
    if forall|i: int| 0 <= i < c.entity_type.len() ==> c.entity_type[i] != '{' {
        lemma_replace_all_without_brace(c.entity_type, k2, c.name);
    }
}

/// With the default format `{{{entity_type}}}` the placeholder is the entity
/// type in double braces, for every entity type without braces and without
/// ASCII lower-case letters (as the entity types of registered detectors are).
pub proof fn law_default_placeholder_format(c: ConfigView)
    requires
        forall|i: int|
            0 <= i < c.entity_type.len() ==> c.entity_type[i] != '{' && c.entity_type[i] != '}'
                && !('a' <= #[trigger] c.entity_type[i] <= 'z'),
    ensures
        formatted_placeholder("{{{entity_type}}}"@, c) == "{{"@ + c.entity_type + "}}"@,
{
    reveal_strlit("{{{entity_type}}}");
    reveal_strlit("{entity_type}");
    reveal_strlit("{detector_name}");
    reveal_strlit("{{");
    reveal_strlit("}}");
    let e = c.entity_type;
    let k1 = "{entity_type}"@;
    let k2 = "{detector_name}"@;
    let f = "{{{entity_type}}}"@;
    let close = "}}"@;
    lemma_replace_all_skips(f, k1, e, 1);
    let f1 = f.drop_first();
    lemma_replace_all_skips(f1, k1, e, 1);
    let f2 = f1.drop_first();
    assert(f2.len() >= k1.len());
    assert(f2.take(k1.len() as int) =~= k1);
    assert(f2.skip(k1.len() as int) =~= close);
    assert(replace_all(close, k1, e) == close);
    assert(replace_all(f2, k1, e) == e + close);
    let once = "{{"@ + e + close;
    assert(replace_all(f, k1, e) =~= once);
    assert forall|i: int| 0 <= i < (e + close).len() implies (e + close)[i] != '{' by {
        if i < e.len() {
            assert((e + close)[i] == e[i]);
        }
    }
    lemma_replace_all_without_brace(e + close, k2, c.name);
    let x1 = seq!['{'] + (e + close);
    if x1.len() >= k2.len() {
        if e.len() > 0 {
            assert(x1[1] == e[0]);
            assert(!('a' <= e[0] <= 'z'));
        }
        lemma_replace_all_skips(x1, k2, c.name, 1);
        assert(x1.drop_first() =~= e + close);
    }
    assert(replace_all(x1, k2, c.name) == x1);
    if once.len() >= k2.len() {
        lemma_replace_all_skips(once, k2, c.name, 1);
        assert(once.drop_first() =~= x1);
        assert(seq![once[0]] + x1 =~= once);
    }
}

/// A match made under the fixed strategy is replaced by the fixed mask.
pub proof fn law_fixed_strategy_masks_every_match(
    m: MatchView,
    c: ConfigView,
    t: Seq<char>,
    s: SettingsView,
)
    requires
        made_by(m, c, t, s),
        s.mask_strategy == MaskStrategy::Fixed,
    ensures
        m.replacement == s.fixed_mask,
{
    law_replacement_follows_strategy(s, c, m.value);
}

impl PiiMatch {
    /// Builds a match from its parts.
    pub fn new(
        start: usize,
        end: usize,
        value: String,
        entity_type: String,
        detector_name: String,
        replacement: String,
        priority: i32,
        order: usize,
    ) -> (m: Self)
        ensures
            m.start == start,
            m.end == end,
            m.value@ == value@,
            m.entity_type@ == entity_type@,
            m.detector_name@ == detector_name@,
            m.replacement@ == replacement@,
            m.priority == priority,
            m.order == order,
    {
        PiiMatch { start, end, value, entity_type, detector_name, replacement, priority, order }
    }

    /// Number of characters covered (zero if `end` precedes `start`).
    pub fn len(&self) -> (n: usize)
        ensures
            n == if self.end >= self.start {
                self.end - self.start
            } else {
                0
            },
    {
        self.end.saturating_sub(self.start)
    }
}

impl RedactionSettings {
    /// The text that replaces `value`, found by `detector`.
    pub fn replacement_for(&self, detector: &DetectorConfig, value: &str) -> (r: String)
        ensures
            r@ == replacement_spec(self@, detector@, value@),
    {
        match self.mask_strategy {
            MaskStrategy::Placeholder => match &detector.placeholder {
                Some(p) => p.clone(),
                None => {
                    let format = to_chars(self.placeholder_format.as_str());
                    let entity_key = to_chars("{entity_type}");
                    let name_key = to_chars("{detector_name}");
                    proof {
                        reveal_strlit("{entity_type}");
                        reveal_strlit("{detector_name}");
                    }
                    let entity = to_chars(detector.entity_type.as_str());
                    let name = to_chars(detector.name.as_str());
                    let once = replace_chars(&format, &entity_key, &entity);
                    let twice = replace_chars(&once, &name_key, &name);
                    string_from_chars(twice.as_slice())
                },
            },
            MaskStrategy::Fixed => self.fixed_mask.clone(),
            MaskStrategy::LengthPreserving => {
                let n = to_chars(value).len();
                let masked = repeat_char(self.mask_char, n);
                string_from_chars(masked.as_slice())
            },
        }
    }
}

} // verus!
