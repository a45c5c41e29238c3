//! Style values: the names of the supported properties, the values a
//! declaration can give them, and their resolution to final sizes.
//!
//! A magnitude is kept as the decimal numeral that the stylesheet wrote, so
//! that nothing is lost or rounded here; turning it into a machine number is
//! left to whoever draws.

use vstd::prelude::*;
use vstd::string::*;
use crate::css_parse::{capture_pairs, regex_captures, CSSBlock, RuleView, rules_view};

verus! {

/// The properties that the cascade knows.
#[derive(PartialEq, Eq, Hash, Copy, Clone, Debug, Structural)]
pub enum StyleName {
    Width,
    Height,
}

/// Why a style could not be resolved.
#[derive(PartialEq, Eq, Copy, Clone, Debug, Structural)]
pub enum StyleError {
    /// A size is neither `inherit`, `default`, nor a numeral with a unit.
    InvalidSize,
    /// A size has a unit other than `px` and `%`.
    InvalidUnit,
    /// A `style` element whose first child is not text.
    InvalidCss,
}

pub open spec fn is_digit(c: char) -> bool {
    '0' <= c && c <= '9'
}

/// Digits with at most one decimal point among them, and at least one
/// digit.
pub open spec fn is_unsigned_number(s: Seq<char>) -> bool {
    &&& forall|i: int| 0 <= i < s.len() ==> is_digit(#[trigger] s[i]) || s[i] == '.'
    &&& exists|i: int| 0 <= i < s.len() && is_digit(#[trigger] s[i])
    &&& forall|i: int, j: int|
        0 <= i < j < s.len() ==> !(#[trigger] s[i] == '.' && #[trigger] s[j] == '.')
}

/// A decimal numeral: an optional minus sign, then digits with at most one
/// decimal point, such as `12`, `-0.5`, `.5` or `5.`.
pub open spec fn is_number(s: Seq<char>) -> bool {
    if s.len() > 0 && s[0] == '-' {
        is_unsigned_number(s.drop_first())
    } else {
        is_unsigned_number(s)
    }
}

/// The numeral of zero.
pub open spec fn zero_text() -> Seq<char> {
    seq!['0']
}

proof fn lemma_zero_is_number()
    ensures
        is_number(zero_text()),
{
    let s = zero_text();
    assert(is_digit(s[0]));
}

/// A magnitude, held as a decimal numeral.
#[derive(Debug)]
pub struct Number {
    text: String,
}

impl View for Number {
    type V = Seq<char>;

    closed spec fn view(&self) -> Seq<char> {
        self.text@
    }
}

impl Number {
    #[verifier::type_invariant]
    spec fn holds_a_numeral(&self) -> bool {
        is_number(self.text@)
    }

    /// Zero.
    pub fn zero() -> (number: Number)
        ensures
            number@ == zero_text(),
    {
        let text = String::from_str("0");
        proof {
            reveal_strlit("0");
            assert(text@ =~= zero_text());
            lemma_zero_is_number();
        }
        Number { text }
    }

    /// The number that `text` writes, if `text` is a decimal numeral.
    pub fn parse(text: &str) -> (number: Option<Number>)
        ensures
            match number {
                Some(n) => is_number(text@) && n@ == text@,
                None => !is_number(text@),
            },
    {
        let len = text.unicode_len();
        let start: usize = if len > 0 && text.get_char(0) == '-' {
            1
        } else {
            0
        };
        let ghost body = text@.subrange(start as int, len as int);
        proof {
            if start == 1 {
                assert(body =~= text@.drop_first());
            } else {
                assert(body =~= text@);
            }
        }
        let mut digit_at: Option<usize> = None;
        let mut point_at: Option<usize> = None;
        let mut i: usize = start;
        while i < len
            invariant
                start <= i <= len == text@.len(),
                body == text@.subrange(start as int, len as int),
                is_number(text@) == is_unsigned_number(body),
                forall|j: int| 0 <= j < i - start ==> is_digit(#[trigger] body[j]) || body[j] == '.',
                match digit_at {
                    Some(d) => start <= d < i && is_digit(body[d - start]),
                    None => forall|j: int| 0 <= j < i - start ==> !is_digit(#[trigger] body[j]),
                },
                match point_at {
                    Some(p) => start <= p < i && body[p - start] == '.' && forall|j: int|
                        0 <= j < i - start && j != p - start ==> #[trigger] body[j] != '.',
                    None => forall|j: int| 0 <= j < i - start ==> #[trigger] body[j] != '.',
                },
            decreases len - i,
        {
            let c = text.get_char(i);
            assert(c == body[i - start]);
            if '0' <= c && c <= '9' {
                digit_at = Some(i);
            } else if c == '.' {
                match point_at {
                    Some(p) => {
                        assert(body[p - start] == '.' && body[i - start] == '.');
                        return None;
                    },
                    None => {
                        point_at = Some(i);
                    },
                }
            } else {
                assert(!(is_digit(body[i - start]) || body[i - start] == '.'));
                return None;
            }
            i += 1;
        }
        match digit_at {
            Some(d) => {
                proof {
                    assert(is_digit(body[d - start]));
                    assert forall|a: int, b: int| 0 <= a < b < body.len() implies !(#[trigger] body[a]
                        == '.' && #[trigger] body[b] == '.') by {
                        match point_at {
                            Some(p) => {
                                if a != p - start {
                                    assert(body[a] != '.');
                                } else {
                                    assert(body[b] != '.');
                                }
                            },
                            None => {
                                assert(body[a] != '.');
                            },
                        }
                    }
                }
                Some(Number { text: String::from_str(text) })
            },
            None => None,
        }
    }

    /// The numeral.
    pub fn as_str(&self) -> (text: &str)
        ensures
            text@ == self@,
            is_number(text@),
    {
        proof {
            use_type_invariant(self);
        }
        self.text.as_str()
    }
}

impl Clone for Number {
    fn clone(&self) -> (copy: Number)
        ensures
            copy@ == self@,
    {
        proof {
            use_type_invariant(self);
        }
        Number { text: self.text.clone() }
    }
}

/// What a size holds.
pub enum SizeView {
    Pixels(Seq<char>),
    Percent(Seq<char>),
}

/// A magnitude with its unit.
#[derive(Debug)]
pub enum SizeType {
    Pixels(Number),
    Percent(Number),
}

impl View for SizeType {
    type V = SizeView;

    open spec fn view(&self) -> SizeView {
        match self {
            SizeType::Pixels(n) => SizeView::Pixels(n@),
            SizeType::Percent(n) => SizeView::Percent(n@),
        }
    }
}

impl Clone for SizeType {
    fn clone(&self) -> (copy: SizeType)
        ensures
            copy@ == self@,
    {
        match self {
            SizeType::Pixels(n) => SizeType::Pixels(n.clone()),
            SizeType::Percent(n) => SizeType::Percent(n.clone()),
        }
    }
}

/// What a declared value holds.
pub enum PreComputedView {
    Size(SizeView),
    Inherit,
    VDefault,
}

/// The value of a property as declared: a size, or a word that stands for
/// the ancestors' value (`inherit`) or for the built-in one (`default`).
#[derive(Debug)]
pub enum PreComputedStyleValue {
    Size(SizeType),
    Inherit,
    VDefault,
}

impl View for PreComputedStyleValue {
    type V = PreComputedView;

    open spec fn view(&self) -> PreComputedView {
        match self {
            PreComputedStyleValue::Size(size) => PreComputedView::Size(size@),
            PreComputedStyleValue::Inherit => PreComputedView::Inherit,
            PreComputedStyleValue::VDefault => PreComputedView::VDefault,
        }
    }
}

impl Clone for PreComputedStyleValue {
    fn clone(&self) -> (copy: PreComputedStyleValue)
        ensures
            copy@ == self@,
    {
        match self {
            PreComputedStyleValue::Size(size) => PreComputedStyleValue::Size(size.clone()),
            PreComputedStyleValue::Inherit => PreComputedStyleValue::Inherit,
            PreComputedStyleValue::VDefault => PreComputedStyleValue::VDefault,
        }
    }
}

/// What a resolved value holds.
pub enum ComputedView {
    /// A size in pixels.
    Size(Seq<char>),
    VDefault,
}

/// The final value of a property: a size in pixels.
#[derive(Debug)]
pub enum ComputedStyleValue {
    Size(Number),
    VDefault,
}

impl View for ComputedStyleValue {
    type V = ComputedView;

    open spec fn view(&self) -> ComputedView {
        match self {
            ComputedStyleValue::Size(n) => ComputedView::Size(n@),
            ComputedStyleValue::VDefault => ComputedView::VDefault,
        }
    }
}

/// A mapping from the supported properties to values.
#[derive(Debug)]
pub struct StyleMap<T> {
    pub width: Option<T>,
    pub height: Option<T>,
}

impl<T> StyleMap<T> {
    /// The value of `name`, if the mapping gives one.
    pub open spec fn entry(&self, name: StyleName) -> Option<T> {
        match name {
            StyleName::Width => self.width,
            StyleName::Height => self.height,
        }
    }

    /// The empty mapping.
    pub fn new() -> (styles: StyleMap<T>)
        ensures
            forall|name: StyleName| styles.entry(name) is None,
    {
        StyleMap { width: None, height: None }
    }

    /// The value of `name`, if the mapping gives one.
    pub fn get(&self, name: StyleName) -> (value: Option<&T>)
        ensures
            match value {
                Some(v) => self.entry(name) == Some(*v),
                None => self.entry(name) is None,
            },
    {
        match name {
            StyleName::Width => self.width.as_ref(),
            StyleName::Height => self.height.as_ref(),
        }
    }

    /// Whether the mapping gives `name` a value.
    pub fn contains_key(&self, name: StyleName) -> (found: bool)
        ensures
            found == self.entry(name) is Some,
    {
        match name {
            StyleName::Width => self.width.is_some(),
            StyleName::Height => self.height.is_some(),
        }
    }

    /// Gives `name` the value `value`, in place of any earlier one.
    pub fn insert(&mut self, name: StyleName, value: T)
        ensures
            final(self).entry(name) == Some(value),
            forall|other: StyleName| other != name ==> final(self).entry(other) == old(self).entry(other),
    {
        match name {
            StyleName::Width => {
                self.width = Some(value);
            },
            StyleName::Height => {
                self.height = Some(value);
            },
        }
    }
}

impl<T: View> View for StyleMap<T> {
    type V = Map<StyleName, T::V>;

    open spec fn view(&self) -> Map<StyleName, T::V> {
        Map::new(|name: StyleName| self.entry(name) is Some, |name: StyleName| self.entry(name)->0@)
    }
}

/// The size that the first match of the size pattern stands for: group 1
/// is the numeral, group 2 the unit.
pub open spec fn size_of_capture(number: Seq<char>, unit: Seq<char>) -> Result<
    PreComputedView,
    StyleError,
> {
    if unit == "px"@ {
        if is_number(number) {
            Ok(PreComputedView::Size(SizeView::Pixels(number)))
        } else {
            Err(StyleError::InvalidSize)
        }
    } else if unit == "%"@ {
        if is_number(number) {
            Ok(PreComputedView::Size(SizeView::Percent(number)))
        } else {
            Err(StyleError::InvalidSize)
        }
    } else {
        Err(StyleError::InvalidUnit)
    }
}

/// The value that the text `size` declares, given the matches of the size
/// pattern in it.
pub open spec fn size_of_text(size: Seq<char>, captures: Seq<(Seq<char>, Seq<char>)>) -> Result<
    PreComputedView,
    StyleError,
> {
    if size == "inherit"@ {
        Ok(PreComputedView::Inherit)
    } else if size == "default"@ {
        Ok(PreComputedView::VDefault)
    } else if captures.len() == 0 {
        Err(StyleError::InvalidSize)
    } else {
        size_of_capture(captures[0].0, captures[0].1)
    }
}

/// The pattern of a size: a run of digits, points and minus signs, then
/// the unit `px` or `%`.
pub open spec fn size_pattern() -> Seq<char> {
    "([0-9.\\-]+)(px|%)"@
}

/// The value that the text `size` declares.
pub open spec fn parse_size_spec(size: Seq<char>) -> Result<PreComputedView, StyleError> {
    size_of_text(size, regex_captures(size_pattern(), size))
}

/// What an outcome holds.
pub open spec fn outcome_view(outcome: Result<PreComputedStyleValue, StyleError>) -> Result<
    PreComputedView,
    StyleError,
> {
    match outcome {
        Ok(v) => Ok(v@),
        Err(e) => Err(e),
    }
}

/// Whether `text` is exactly `literal`.
fn is_text(text: &str, literal: &str) -> (same: bool)
    ensures
        same == (text@ == literal@),
{
    String::from_str(text) == String::from_str(literal)
}

/// The size that a numeral and a unit stand for.
pub fn size_from_capture(number: &str, unit: &str) -> (outcome: Result<
    PreComputedStyleValue,
    StyleError,
>)
    ensures
        outcome_view(outcome) == size_of_capture(number@, unit@),
{
    if is_text(unit, "px") {
        match Number::parse(number) {
            Some(n) => Ok(PreComputedStyleValue::Size(SizeType::Pixels(n))),
            None => Err(StyleError::InvalidSize),
        }
    } else if is_text(unit, "%") {
        match Number::parse(number) {
            Some(n) => Ok(PreComputedStyleValue::Size(SizeType::Percent(n))),
            None => Err(StyleError::InvalidSize),
        }
    } else {
        Err(StyleError::InvalidUnit)
    }
}

/// The value that the text `size` declares: `inherit`, `default`, or the
/// first numeral with a unit that the text holds.
pub fn parse_size(size: &String) -> (outcome: Result<PreComputedStyleValue, StyleError>)
    ensures
        outcome_view(outcome) == parse_size_spec(size@),
{
    if is_text(size.as_str(), "inherit") {
        return Ok(PreComputedStyleValue::Inherit);
    } else if is_text(size.as_str(), "default") {
        return Ok(PreComputedStyleValue::VDefault);
    }
    let captures = capture_pairs("([0-9.\\-]+)(px|%)", size.as_str());
    if captures.len() == 0 {
        Err(StyleError::InvalidSize)
    } else {
        size_from_capture(captures[0].0.as_str(), captures[0].1.as_str())
    }
}

/// The final value of a declared value: a size in pixels stays, anything
/// else comes to zero.
pub open spec fn compute_size_spec(size: PreComputedView) -> ComputedView {
    match size {
        PreComputedView::Size(SizeView::Pixels(v)) => ComputedView::Size(v),
        _ => ComputedView::Size(zero_text()),
    }
}

/// The final value of a declared value.
pub fn compute_size(size: &PreComputedStyleValue) -> (computed: ComputedStyleValue)
    ensures
        computed@ == compute_size_spec(size@),
{
    match size {
        PreComputedStyleValue::Size(SizeType::Pixels(v)) => ComputedStyleValue::Size(v.clone()),
        _ => ComputedStyleValue::Size(Number::zero()),
    }
}

/// The property that a declaration's name stands for, if it is one that
/// the cascade knows.
pub open spec fn property_of(name: Seq<char>) -> Option<StyleName> {
    if name == "width"@ {
        Some(StyleName::Width)
    } else if name == "height"@ {
        Some(StyleName::Height)
    } else {
        None
    }
}

/// A mapping under construction: the declarations applied so far, and the
/// error that stopped the work, if one did.
pub struct Applied {
    pub styles: Map<StyleName, PreComputedView>,
    pub error: Option<StyleError>,
}

/// One more declaration applied: a known property is given the declared
/// value, in place of any earlier one; an unknown property is passed over;
/// a value that cannot be read stops the work.
pub open spec fn apply_rule(applied: Applied, rule: RuleView) -> Applied {
    if applied.error is Some {
        applied
    } else {
        match property_of(rule.name) {
            Some(name) => match parse_size_spec(rule.value) {
                Ok(value) => Applied { styles: applied.styles.insert(name, value), error: None },
                Err(e) => Applied { styles: applied.styles, error: Some(e) },
            },
            None => applied,
        }
    }
}

/// The declarations applied in order.
pub open spec fn apply_rules(applied: Applied, rules: Seq<RuleView>) -> Applied
    decreases rules.len(),
{
    if rules.len() == 0 {
        applied
    } else {
        apply_rule(apply_rules(applied, rules.drop_last()), rules.last())
    }
}

/// The error of an outcome, if it is one.
pub open spec fn error_of(outcome: Result<(), StyleError>) -> Option<StyleError> {
    match outcome {
        Ok(_) => None,
        Err(e) => Some(e),
    }
}

/// Applies the declarations of `block` to `styles`, in order.
pub fn append(styles: &mut StyleMap<PreComputedStyleValue>, block: CSSBlock) -> (outcome: Result<
    (),
    StyleError,
>)
    ensures
        (Applied { styles: final(styles)@, error: error_of(outcome) }) == apply_rules(
            Applied { styles: old(styles)@, error: None },
            block@.rules,
        ),
{
    append_ref(styles, &block)
}

/// Applies the declarations of `block` to `styles`, in order. At the first
/// value that cannot be read the work stops with that error, and `styles`
/// keeps what was applied before.
pub fn append_ref(styles: &mut StyleMap<PreComputedStyleValue>, block: &CSSBlock) -> (outcome:
    Result<(), StyleError>)
    ensures
        (Applied { styles: final(styles)@, error: error_of(outcome) }) == apply_rules(
            Applied { styles: old(styles)@, error: None },
            block@.rules,
        ),
{
    let ghost rules = rules_view(block.rules@);
    let ghost start = Applied { styles: styles@, error: None };
    let mut i: usize = 0;
    proof {
        assert(rules.take(0) =~= Seq::<RuleView>::empty());
    }
    while i < block.rules.len()
        invariant
            i <= block.rules@.len(),
            rules == rules_view(block.rules@),
            start == (Applied { styles: old(styles)@, error: None }),
            (Applied { styles: styles@, error: None }) == apply_rules(start, rules.take(i as int)),
        decreases block.rules@.len() - i,
    {
        let rule = &block.rules[i];
        let ghost before = styles@;
        proof {
            assert(rules.take(i + 1).drop_last() =~= rules.take(i as int));
            assert(rules.take(i + 1).last() == rule@);
        }
        let name = if is_text(rule.name.as_str(), "width") {
            Some(StyleName::Width)
        } else if is_text(rule.name.as_str(), "height") {
            Some(StyleName::Height)
        } else {
            None
        };
        match name {
            Some(name) => {
                match parse_size(&rule.value) {
                    Ok(value) => {
                        styles.insert(name, value);
                        proof {
                            assert(styles@ =~= before.insert(name, value@));
                        }
                    },
                    Err(e) => {
                        proof {
                            assert(apply_rules(start, rules.take(i + 1)) == apply_rule(
                                apply_rules(start, rules.take(i as int)),
                                rule@,
                            ));
                            assert(apply_rules(start, rules.take(i + 1)) == (Applied {
                                styles: styles@,
                                error: Some(e),
                            }));
                            lemma_apply_rules_stuck(
                                apply_rules(start, rules.take(i + 1)),
                                rules,
                                i + 1,
                                start,
                            );
                        }
                        return Err(e);
                    },
                }
            },
            None => {},
        }
        i += 1;
    }
    proof {
        assert(rules.take(i as int) =~= rules);
    }
    Ok(())
}

/// Once a declaration has stopped the work, the later ones change nothing.
proof fn lemma_apply_rules_stuck(stuck: Applied, rules: Seq<RuleView>, n: int, start: Applied)
    requires
        0 <= n <= rules.len(),
        stuck == apply_rules(start, rules.take(n)),
        stuck.error is Some,
    ensures
        apply_rules(start, rules) == stuck,
    decreases rules.len() - n,
{
    if n == rules.len() {
        assert(rules.take(n) =~= rules);
    } else {
        assert(rules.take(n + 1).drop_last() =~= rules.take(n));
        lemma_apply_rules_stuck(stuck, rules, n + 1, start);
    }
}

/// The final values of a mapping of declared values: every entry is
/// resolved by itself.
pub open spec fn compute_styles_spec(styles: Map<StyleName, PreComputedView>) -> Map<
    StyleName,
    ComputedView,
> {
    Map::new(
        |name: StyleName| styles.contains_key(name),
        |name: StyleName| compute_size_spec(styles[name]),
    )
}

/// The final values of a mapping of declared values.
pub fn compute_styles(styles: &StyleMap<PreComputedStyleValue>) -> (computed: StyleMap<
    ComputedStyleValue,
>)
    ensures
        computed@ == compute_styles_spec(styles@),
{
    let mut new_map: StyleMap<ComputedStyleValue> = StyleMap::new();
    match styles.get(StyleName::Width) {
        Some(value) => {
            new_map.insert(StyleName::Width, compute_size(value));
        },
        None => {},
    }
    match styles.get(StyleName::Height) {
        Some(value) => {
            new_map.insert(StyleName::Height, compute_size(value));
        },
        None => {},
    }
    proof {
        assert(new_map@ =~= compute_styles_spec(styles@));
    }
    new_map
}

/// Within a list of declarations the last one of a property counts: where
/// all declarations can be read, the property has the value of the last
/// declaration that names it.
pub proof fn lemma_last_declaration_counts(
    applied: Applied,
    rules: Seq<RuleView>,
    last: int,
    name: StyleName,
)
    requires
        applied.error is None,
        apply_rules(applied, rules).error is None,
        0 <= last < rules.len(),
        property_of(rules[last].name) == Some(name),
        forall|j: int| last < j < rules.len() ==> property_of(#[trigger] rules[j].name) != Some(name),
    ensures
        parse_size_spec(rules[last].value) is Ok,
        apply_rules(applied, rules).styles.contains_key(name),
        apply_rules(applied, rules).styles[name] == parse_size_spec(rules[last].value)->Ok_0,
    decreases rules.len(),
{
    let front = rules.drop_last();
    let before = apply_rules(applied, front);
    assert(apply_rules(applied, rules) == apply_rule(before, rules.last()));
    if last < rules.len() - 1 {
        assert(property_of(rules[rules.len() - 1].name) != Some(name));
        assert forall|j: int| last < j < front.len() implies property_of(
            #[trigger] front[j].name,
        ) != Some(name) by {
            assert(front[j] == rules[j]);
        }
        lemma_last_declaration_counts(applied, front, last, name);
    }
}

/// A resolved value read as a declared one: a size in pixels is a size in
/// pixels.
pub open spec fn as_declared(value: ComputedView) -> PreComputedView {
    match value {
        ComputedView::Size(v) => PreComputedView::Size(SizeView::Pixels(v)),
        ComputedView::VDefault => PreComputedView::VDefault,
    }
}

/// A resolved mapping read as a declared one, entry by entry.
pub open spec fn as_declared_styles(computed: Map<StyleName, ComputedView>) -> Map<
    StyleName,
    PreComputedView,
> {
    Map::new(
        |name: StyleName| computed.contains_key(name),
        |name: StyleName| as_declared(computed[name]),
    )
}

/// Resolving is idempotent: a mapping that has been resolved resolves to
/// itself, its pixel values passing through unchanged.
pub proof fn lemma_compute_is_idempotent(styles: Map<StyleName, PreComputedView>)
    ensures
        compute_styles_spec(as_declared_styles(compute_styles_spec(styles))) == compute_styles_spec(
            styles,
        ),
        forall|value: PreComputedView|
            compute_size_spec(as_declared(compute_size_spec(value))) == compute_size_spec(value),
{
    assert(compute_styles_spec(as_declared_styles(compute_styles_spec(styles)))
        =~= compute_styles_spec(styles));
}

} // verus!
