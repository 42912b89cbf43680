//! The XSD Part 2 datatype system: the built-in type hierarchy and facets.
//!
//! Two rules here are load-bearing:
//!
//! - **`whiteSpace` applies before lexical parsing, not after.** It is the
//!   only thing distinguishing `xs:token` from `xs:string`, and it is fixed
//!   at `collapse` for every type not descended from
//!   `string`/`normalizedString`.
//! - **Patterns OR within a restriction step and AND across steps.** See
//!   [`FacetSet::restrict`].

use vstd::prelude::*;
use crate::text::{push_char, str_chars, str_eq, string_from_chars, push_str};

verus! {

/// The `whiteSpace` facet, which normalises the lexical form before parsing.
#[derive(Copy, Clone, PartialEq, Eq, Debug, Structural)]
pub enum WhiteSpace {
    /// Leave the lexical form exactly as written.
    Preserve,
    /// Replace every tab, line feed and carriage return with a space.
    Replace,
    /// `Replace`, then collapse runs of spaces and trim the ends.
    Collapse,
}

/// Tab, line feed or carriage return: what `replace` turns into a space.
pub open spec fn is_ws_control(c: char) -> bool {
    c == '\t' || c == '\n' || c == '\r'
}

/// The four whitespace characters of XML.
pub open spec fn is_xml_ws(c: char) -> bool {
    c == ' ' || is_ws_control(c)
}

/// `s` with every tab, line feed and carriage return replaced by a space.
pub open spec fn replace_ws(s: Seq<char>) -> Seq<char> {
    s.map_values(|c: char| if is_ws_control(c) { ' ' } else { c })
}

/// What `collapse` emits for `t`, given whether anything was emitted before
/// and whether whitespace is pending since the last emitted character.
///
/// A space is emitted before a non-whitespace character exactly when
/// whitespace preceded it and something has already been emitted, so runs
/// shrink to one space and both ends are trimmed.
pub open spec fn collapse_from(t: Seq<char>, emitted: bool, pending: bool) -> Seq<char>
    decreases t.len(),
{
    if t.len() == 0 {
        Seq::empty()
    } else if is_xml_ws(t[0]) {
        collapse_from(t.drop_first(), emitted, true)
    } else {
        let lead = if pending && emitted { seq![' ', t[0]] } else { seq![t[0]] };
        lead + collapse_from(t.drop_first(), true, false)
    }
}

/// The `collapse` normalisation of `s`.
pub open spec fn collapse_ws(s: Seq<char>) -> Seq<char> {
    collapse_from(s, false, false)
}

impl WhiteSpace {
    /// What applying the facet to `s` yields.
    pub open spec fn spec_normalize(self, s: Seq<char>) -> Seq<char> {
        match self {
            WhiteSpace::Preserve => s,
            WhiteSpace::Replace => replace_ws(s),
            WhiteSpace::Collapse => collapse_ws(s),
        }
    }

    /// Applies the facet to a lexical form.
    pub fn normalize(self, s: &str) -> (r: String)
        ensures
            r@ == self.spec_normalize(s@),
    {
        let chars = str_chars(s);
        let mut out: Vec<char> = Vec::new();
        match self {
            WhiteSpace::Preserve => {
                return string_from_chars(&chars);
            },
            WhiteSpace::Replace => {
                let mut i: usize = 0;
                while i < chars.len()
                    invariant
                        i <= chars.len(),
                        chars@ == s@,
                        out@ == replace_ws(chars@.take(i as int)),
                    decreases chars.len() - i,
                {
                    let c = chars[i];
                    let d = if c == '\t' || c == '\n' || c == '\r' { ' ' } else { c };
                    out.push(d);
                    assert(replace_ws(chars@.take(i as int)).push(d) =~= replace_ws(chars@.take(i + 1)));
                    i += 1;
                }
                assert(chars@.take(chars.len() as int) =~= chars@);
            },
            WhiteSpace::Collapse => {
                let mut pending = false;
                let mut i: usize = 0;
                assert(chars@.skip(0) =~= chars@);
                while i < chars.len()
                    invariant
                        i <= chars.len(),
                        chars@ == s@,
                        out@ + collapse_from(chars@.skip(i as int), out@.len() > 0, pending)
                            == collapse_ws(chars@),
                    decreases chars.len() - i,
                {
                    let c = chars[i];
                    let ghost rest = chars@.skip(i as int);
                    assert(rest.drop_first() =~= chars@.skip(i + 1));
                    if c == ' ' || c == '\t' || c == '\n' || c == '\r' {
                        pending = true;
                    } else {
                        let ghost before = out@;
                        let ghost was_pending = pending;
                        if pending && out.len() > 0 {
                            out.push(' ');
                        }
                        pending = false;
                        out.push(c);
                        assert(out@.len() > 0);
                        assert(out@ + collapse_from(chars@.skip(i + 1), true, false)
                            =~= before + collapse_from(rest, before.len() > 0, was_pending));
                    }
                    i += 1;
                }
                assert(chars@.skip(chars.len() as int) =~= Seq::<char>::empty());
            },
        }
        string_from_chars(&out)
    }

    /// The facet value as written in a schema.
    pub open spec fn spec_name(self) -> &'static str {
        match self {
            WhiteSpace::Preserve => "preserve",
            WhiteSpace::Replace => "replace",
            WhiteSpace::Collapse => "collapse",
        }
    }

    /// The facet value as written in a schema: `preserve`, `replace` or
    /// `collapse`.
    pub fn to_string(self) -> (r: String)
        ensures
            r@ == self.spec_name()@,
    {
        let s = match self {
            WhiteSpace::Preserve => "preserve",
            WhiteSpace::Replace => "replace",
            WhiteSpace::Collapse => "collapse",
        };
        let v = str_chars(s);
        string_from_chars(&v)
    }
}

/// The `explicitTimezone` facet, new in XSD 1.1.
#[derive(Copy, Clone, PartialEq, Eq, Debug, Structural)]
pub enum ExplicitTimezone {
    Optional,
    Required,
    Prohibited,
}

/// How a simple type's value space is constructed.
#[derive(Copy, Clone, PartialEq, Eq, Debug, Structural)]
pub enum Variety {
    /// A single value drawn from a primitive's value space.
    Atomic,
    /// A whitespace-separated sequence of an item type's values; `length`,
    /// `minLength` and `maxLength` then count items, not characters.
    List,
    /// A value drawn from the first member type that accepts it, tried in
    /// declaration order.
    Union,
}

/// The constraining facets of XSD 1.1, as declared at one restriction step.
#[derive(Clone, PartialEq, Eq, Debug)]
#[non_exhaustive]
pub enum Facet {
    Length(u64),
    MinLength(u64),
    MaxLength(u64),
    /// One alternative. Several at the same step are ORed together.
    Pattern(String),
    /// One permitted lexical form.
    Enumeration(String),
    WhiteSpace(WhiteSpace),
    MaxInclusive(String),
    MaxExclusive(String),
    MinInclusive(String),
    MinExclusive(String),
    TotalDigits(u32),
    FractionDigits(u32),
    ExplicitTimezone(ExplicitTimezone),
    /// XSD 1.1 `minScale`, for `xs:precisionDecimal`. Signed: a scale of -2
    /// means the value is a multiple of a hundred.
    MinScale(i32),
    /// XSD 1.1 `maxScale`, for `xs:precisionDecimal`.
    MaxScale(i32),
    /// An XPath 2.0 expression, kept unevaluated.
    Assertion(String),
}

/// Which facet, without its value.
#[derive(Copy, Clone, PartialEq, Eq, Hash, Debug, Structural)]
#[non_exhaustive]
pub enum FacetKind {
    Length,
    MinLength,
    MaxLength,
    Pattern,
    Enumeration,
    WhiteSpace,
    MaxInclusive,
    MaxExclusive,
    MinInclusive,
    MinExclusive,
    TotalDigits,
    FractionDigits,
    ExplicitTimezone,
    MinScale,
    MaxScale,
    Assertion,
}

impl FacetKind {
    /// The facet's XSD element name.
    pub open spec fn spec_name(self) -> &'static str {
        match self {
            FacetKind::Length => "length",
            FacetKind::MinLength => "minLength",
            FacetKind::MaxLength => "maxLength",
            FacetKind::Pattern => "pattern",
            FacetKind::Enumeration => "enumeration",
            FacetKind::WhiteSpace => "whiteSpace",
            FacetKind::MaxInclusive => "maxInclusive",
            FacetKind::MaxExclusive => "maxExclusive",
            FacetKind::MinInclusive => "minInclusive",
            FacetKind::MinExclusive => "minExclusive",
            FacetKind::TotalDigits => "totalDigits",
            FacetKind::FractionDigits => "fractionDigits",
            FacetKind::ExplicitTimezone => "explicitTimezone",
            FacetKind::MinScale => "minScale",
            FacetKind::MaxScale => "maxScale",
            FacetKind::Assertion => "assertion",
        }
    }

    /// The facet's XSD element name, e.g. `minInclusive`.
    pub fn name(self) -> (r: &'static str)
        ensures
            r == self.spec_name(),
    {
        match self {
            FacetKind::Length => "length",
            FacetKind::MinLength => "minLength",
            FacetKind::MaxLength => "maxLength",
            FacetKind::Pattern => "pattern",
            FacetKind::Enumeration => "enumeration",
            FacetKind::WhiteSpace => "whiteSpace",
            FacetKind::MaxInclusive => "maxInclusive",
            FacetKind::MaxExclusive => "maxExclusive",
            FacetKind::MinInclusive => "minInclusive",
            FacetKind::MinExclusive => "minExclusive",
            FacetKind::TotalDigits => "totalDigits",
            FacetKind::FractionDigits => "fractionDigits",
            FacetKind::ExplicitTimezone => "explicitTimezone",
            FacetKind::MinScale => "minScale",
            FacetKind::MaxScale => "maxScale",
            FacetKind::Assertion => "assertion",
        }
    }

    pub open spec fn spec_is_bound(self) -> bool {
        self == FacetKind::MaxInclusive || self == FacetKind::MaxExclusive
            || self == FacetKind::MinInclusive || self == FacetKind::MinExclusive
    }

    /// Whether this facet bounds the value space rather than the lexical one:
    /// the four of them share the rule that the facet's own value has to be a
    /// legal value of the type being restricted.
    pub fn is_bound(self) -> (r: bool)
        ensures
            r == self.spec_is_bound(),
    {
        match self {
            FacetKind::MaxInclusive | FacetKind::MaxExclusive | FacetKind::MinInclusive
            | FacetKind::MinExclusive => true,
            _ => false,
        }
    }

    /// The facet's XSD element name, as a `String`.
    pub fn to_string(self) -> (r: String)
        ensures
            r@ == self.spec_name()@,
    {
        let v = str_chars(self.name());
        string_from_chars(&v)
    }
}

impl Facet {
    pub open spec fn spec_kind(self) -> FacetKind {
        match self {
            Facet::Length(_) => FacetKind::Length,
            Facet::MinLength(_) => FacetKind::MinLength,
            Facet::MaxLength(_) => FacetKind::MaxLength,
            Facet::Pattern(_) => FacetKind::Pattern,
            Facet::Enumeration(_) => FacetKind::Enumeration,
            Facet::WhiteSpace(_) => FacetKind::WhiteSpace,
            Facet::MaxInclusive(_) => FacetKind::MaxInclusive,
            Facet::MaxExclusive(_) => FacetKind::MaxExclusive,
            Facet::MinInclusive(_) => FacetKind::MinInclusive,
            Facet::MinExclusive(_) => FacetKind::MinExclusive,
            Facet::TotalDigits(_) => FacetKind::TotalDigits,
            Facet::FractionDigits(_) => FacetKind::FractionDigits,
            Facet::ExplicitTimezone(_) => FacetKind::ExplicitTimezone,
            Facet::MinScale(_) => FacetKind::MinScale,
            Facet::MaxScale(_) => FacetKind::MaxScale,
            Facet::Assertion(_) => FacetKind::Assertion,
        }
    }

    /// Which facet this is, discarding the value.
    pub fn kind(&self) -> (r: FacetKind)
        ensures
            r == self.spec_kind(),
    {
        match self {
            Facet::Length(_) => FacetKind::Length,
            Facet::MinLength(_) => FacetKind::MinLength,
            Facet::MaxLength(_) => FacetKind::MaxLength,
            Facet::Pattern(_) => FacetKind::Pattern,
            Facet::Enumeration(_) => FacetKind::Enumeration,
            Facet::WhiteSpace(_) => FacetKind::WhiteSpace,
            Facet::MaxInclusive(_) => FacetKind::MaxInclusive,
            Facet::MaxExclusive(_) => FacetKind::MaxExclusive,
            Facet::MinInclusive(_) => FacetKind::MinInclusive,
            Facet::MinExclusive(_) => FacetKind::MinExclusive,
            Facet::TotalDigits(_) => FacetKind::TotalDigits,
            Facet::FractionDigits(_) => FacetKind::FractionDigits,
            Facet::ExplicitTimezone(_) => FacetKind::ExplicitTimezone,
            Facet::MinScale(_) => FacetKind::MinScale,
            Facet::MaxScale(_) => FacetKind::MaxScale,
            Facet::Assertion(_) => FacetKind::Assertion,
        }
    }

    /// The facet's XSD element name, e.g. `minInclusive`.
    pub fn name(&self) -> (r: &'static str)
        ensures
            r == self.spec_kind().spec_name(),
    {
        self.kind().name()
    }
}

/// The facets in force on a simple type, after composing its whole
/// restriction chain.
#[derive(Clone, PartialEq, Eq, Debug)]
pub struct FacetSet {
    pub length: Option<u64>,
    pub min_length: Option<u64>,
    pub max_length: Option<u64>,
    /// Outer: one entry per restriction step, **ANDed**: a value must match
    /// every step. Inner: alternatives declared at that step, **ORed**.
    pub patterns: Vec<Vec<String>>,
    /// The most-derived enumeration. A restriction may only narrow, so the
    /// innermost set is the effective one.
    pub enumeration: Option<Vec<String>>,
    /// The namespace bindings in scope where [`Self::enumeration`] was
    /// written, for the prefixes its literals use. Only `xs:QName` and
    /// `xs:NOTATION` need them; empty for every other datatype.
    pub namespaces: Vec<(Option<String>, String)>,
    pub white_space: Option<WhiteSpace>,
    pub max_inclusive: Option<String>,
    pub max_exclusive: Option<String>,
    pub min_inclusive: Option<String>,
    pub min_exclusive: Option<String>,
    pub total_digits: Option<u32>,
    pub fraction_digits: Option<u32>,
    pub explicit_timezone: Option<ExplicitTimezone>,
    /// XSD 1.1 scale bounds, for `xs:precisionDecimal`.
    pub min_scale: Option<i32>,
    pub max_scale: Option<i32>,
    pub assertions: Vec<String>,
}

/// The value a restriction step leaves in a single-valued slot.
///
/// `pick` says what a facet does to the slot: `None` leaves it alone,
/// `Some(v)` sets it to `v` (which may itself be `None`, clearing it). The
/// last facet of the step that touches the slot decides; when none does, the
/// inherited value stays.
pub open spec fn last_set<T>(
    step: Seq<Facet>,
    pick: spec_fn(Facet) -> Option<Option<T>>,
    inherited: Option<T>,
) -> Option<T>
    decreases step.len(),
{
    if step.len() == 0 {
        inherited
    } else {
        match pick(step.last()) {
            Some(v) => v,
            None => last_set(step.drop_last(), pick, inherited),
        }
    }
}

pub open spec fn pick_length() -> spec_fn(Facet) -> Option<Option<u64>> {
    |f: Facet| match f { Facet::Length(v) => Some(Some(v)), _ => None }
}

pub open spec fn pick_min_length() -> spec_fn(Facet) -> Option<Option<u64>> {
    |f: Facet| match f { Facet::MinLength(v) => Some(Some(v)), _ => None }
}

pub open spec fn pick_max_length() -> spec_fn(Facet) -> Option<Option<u64>> {
    |f: Facet| match f { Facet::MaxLength(v) => Some(Some(v)), _ => None }
}

pub open spec fn pick_white_space() -> spec_fn(Facet) -> Option<Option<WhiteSpace>> {
    |f: Facet| match f { Facet::WhiteSpace(v) => Some(Some(v)), _ => None }
}

/// An inclusive and an exclusive bound on the same side displace each
/// other: setting one clears the other.
pub open spec fn pick_max_inclusive() -> spec_fn(Facet) -> Option<Option<String>> {
    |f: Facet| match f {
        Facet::MaxInclusive(v) => Some(Some(v)),
        Facet::MaxExclusive(_) => Some(None),
        _ => None,
    }
}

pub open spec fn pick_max_exclusive() -> spec_fn(Facet) -> Option<Option<String>> {
    |f: Facet| match f {
        Facet::MaxExclusive(v) => Some(Some(v)),
        Facet::MaxInclusive(_) => Some(None),
        _ => None,
    }
}

pub open spec fn pick_min_inclusive() -> spec_fn(Facet) -> Option<Option<String>> {
    |f: Facet| match f {
        Facet::MinInclusive(v) => Some(Some(v)),
        Facet::MinExclusive(_) => Some(None),
        _ => None,
    }
}

pub open spec fn pick_min_exclusive() -> spec_fn(Facet) -> Option<Option<String>> {
    |f: Facet| match f {
        Facet::MinExclusive(v) => Some(Some(v)),
        Facet::MinInclusive(_) => Some(None),
        _ => None,
    }
}

pub open spec fn pick_total_digits() -> spec_fn(Facet) -> Option<Option<u32>> {
    |f: Facet| match f { Facet::TotalDigits(v) => Some(Some(v)), _ => None }
}

pub open spec fn pick_fraction_digits() -> spec_fn(Facet) -> Option<Option<u32>> {
    |f: Facet| match f { Facet::FractionDigits(v) => Some(Some(v)), _ => None }
}

pub open spec fn pick_explicit_timezone() -> spec_fn(Facet) -> Option<Option<ExplicitTimezone>> {
    |f: Facet| match f { Facet::ExplicitTimezone(v) => Some(Some(v)), _ => None }
}

pub open spec fn pick_min_scale() -> spec_fn(Facet) -> Option<Option<i32>> {
    |f: Facet| match f { Facet::MinScale(v) => Some(Some(v)), _ => None }
}

pub open spec fn pick_max_scale() -> spec_fn(Facet) -> Option<Option<i32>> {
    |f: Facet| match f { Facet::MaxScale(v) => Some(Some(v)), _ => None }
}

/// The pattern alternatives a step declares, in order.
pub open spec fn patterns_in(step: Seq<Facet>) -> Seq<String>
    decreases step.len(),
{
    if step.len() == 0 {
        Seq::empty()
    } else {
        let r = patterns_in(step.drop_last());
        match step.last() {
            Facet::Pattern(p) => r.push(p),
            _ => r,
        }
    }
}

/// The enumeration literals a step declares, in order.
pub open spec fn enumerations_in(step: Seq<Facet>) -> Seq<String>
    decreases step.len(),
{
    if step.len() == 0 {
        Seq::empty()
    } else {
        let r = enumerations_in(step.drop_last());
        match step.last() {
            Facet::Enumeration(p) => r.push(p),
            _ => r,
        }
    }
}

/// The assertions a step declares, in order.
pub open spec fn assertions_in(step: Seq<Facet>) -> Seq<String>
    decreases step.len(),
{
    if step.len() == 0 {
        Seq::empty()
    } else {
        let r = assertions_in(step.drop_last());
        match step.last() {
            Facet::Assertion(p) => r.push(p),
            _ => r,
        }
    }
}

/// The pattern groups as sequences of strings.
pub open spec fn pattern_groups(p: Seq<Vec<String>>) -> Seq<Seq<String>> {
    p.map_values(|g: Vec<String>| g@)
}

/// An optional vector as an optional sequence.
pub open spec fn opt_view(o: Option<Vec<String>>) -> Option<Seq<String>> {
    match o {
        Some(v) => Some(v@),
        None => None,
    }
}

/// A copy of a vector of strings.
fn clone_strings(v: &Vec<String>) -> (r: Vec<String>)
    ensures
        r@ == v@,
{
    let mut r: Vec<String> = Vec::new();
    let mut i: usize = 0;
    while i < v.len()
        invariant
            i <= v.len(),
            r@ == v@.take(i as int),
        decreases v.len() - i,
    {
        r.push(v[i].clone());
        assert(v@.take(i as int).push(v@[i as int]) =~= v@.take(i + 1));
        i += 1;
    }
    assert(v@.take(v.len() as int) =~= v@);
    r
}

fn clone_opt_string(o: &Option<String>) -> (r: Option<String>)
    ensures
        r == *o,
{
    match o {
        Some(s) => Some(s.clone()),
        None => None,
    }
}

impl FacetSet {
    /// No facet in force.
    pub open spec fn spec_is_unconstrained(self) -> bool {
        &&& self.length is None
        &&& self.min_length is None
        &&& self.max_length is None
        &&& self.patterns@.len() == 0
        &&& self.enumeration is None
        &&& self.namespaces@.len() == 0
        &&& self.white_space is None
        &&& self.max_inclusive is None
        &&& self.max_exclusive is None
        &&& self.min_inclusive is None
        &&& self.min_exclusive is None
        &&& self.total_digits is None
        &&& self.fraction_digits is None
        &&& self.explicit_timezone is None
        &&& self.min_scale is None
        &&& self.max_scale is None
        &&& self.assertions@.len() == 0
    }

    pub fn new() -> (r: Self)
        ensures
            r.spec_is_unconstrained(),
    {
        FacetSet {
            length: None,
            min_length: None,
            max_length: None,
            patterns: Vec::new(),
            enumeration: None,
            namespaces: Vec::new(),
            white_space: None,
            max_inclusive: None,
            max_exclusive: None,
            min_inclusive: None,
            min_exclusive: None,
            total_digits: None,
            fraction_digits: None,
            explicit_timezone: None,
            min_scale: None,
            max_scale: None,
            assertions: Vec::new(),
        }
    }

    /// Composes one restriction step onto the inherited set.
    ///
    /// Patterns declared at this step are ORed with each other and ANDed with
    /// every inherited step. Every other facet overrides the inherited value,
    /// an inclusive bound displacing an exclusive one on the same side and
    /// the reverse, and the step's enumeration replaces the inherited one.
    pub fn restrict(&self, step: &[Facet]) -> (out: FacetSet)
        ensures
            out.length == last_set(step@, pick_length(), self.length),
            out.min_length == last_set(step@, pick_min_length(), self.min_length),
            out.max_length == last_set(step@, pick_max_length(), self.max_length),
            out.white_space == last_set(step@, pick_white_space(), self.white_space),
            out.max_inclusive == last_set(step@, pick_max_inclusive(), self.max_inclusive),
            out.max_exclusive == last_set(step@, pick_max_exclusive(), self.max_exclusive),
            out.min_inclusive == last_set(step@, pick_min_inclusive(), self.min_inclusive),
            out.min_exclusive == last_set(step@, pick_min_exclusive(), self.min_exclusive),
            out.total_digits == last_set(step@, pick_total_digits(), self.total_digits),
            out.fraction_digits == last_set(step@, pick_fraction_digits(), self.fraction_digits),
            out.explicit_timezone == last_set(
                step@,
                pick_explicit_timezone(),
                self.explicit_timezone,
            ),
            out.min_scale == last_set(step@, pick_min_scale(), self.min_scale),
            out.max_scale == last_set(step@, pick_max_scale(), self.max_scale),
            pattern_groups(out.patterns@) == if patterns_in(step@).len() == 0 {
                pattern_groups(self.patterns@)
            } else {
                pattern_groups(self.patterns@).push(patterns_in(step@))
            },
            opt_view(out.enumeration) == if enumerations_in(step@).len() == 0 {
                opt_view(self.enumeration)
            } else {
                Some(enumerations_in(step@))
            },
            out.namespaces@ == self.namespaces@,
            out.assertions@ == self.assertions@ + assertions_in(step@),
    {
        let mut length = self.length;
        let mut min_length = self.min_length;
        let mut max_length = self.max_length;
        let mut white_space = self.white_space;
        let mut max_inclusive = clone_opt_string(&self.max_inclusive);
        let mut max_exclusive = clone_opt_string(&self.max_exclusive);
        let mut min_inclusive = clone_opt_string(&self.min_inclusive);
        let mut min_exclusive = clone_opt_string(&self.min_exclusive);
        let mut total_digits = self.total_digits;
        let mut fraction_digits = self.fraction_digits;
        let mut explicit_timezone = self.explicit_timezone;
        let mut min_scale = self.min_scale;
        let mut max_scale = self.max_scale;
        let mut assertions = clone_strings(&self.assertions);
        let mut step_patterns: Vec<String> = Vec::new();
        let mut enums: Vec<String> = Vec::new();

        let mut i: usize = 0;
        while i < step.len()
            invariant
                i <= step.len(),
                length == last_set(step@.take(i as int), pick_length(), self.length),
                min_length == last_set(step@.take(i as int), pick_min_length(), self.min_length),
                max_length == last_set(step@.take(i as int), pick_max_length(), self.max_length),
                white_space == last_set(step@.take(i as int), pick_white_space(), self.white_space),
                max_inclusive == last_set(step@.take(i as int), pick_max_inclusive(), self.max_inclusive),
                max_exclusive == last_set(step@.take(i as int), pick_max_exclusive(), self.max_exclusive),
                min_inclusive == last_set(step@.take(i as int), pick_min_inclusive(), self.min_inclusive),
                min_exclusive == last_set(step@.take(i as int), pick_min_exclusive(), self.min_exclusive),
                total_digits == last_set(step@.take(i as int), pick_total_digits(), self.total_digits),
                fraction_digits == last_set(
                    step@.take(i as int),
                    pick_fraction_digits(),
                    self.fraction_digits,
                ),
                explicit_timezone == last_set(
                    step@.take(i as int),
                    pick_explicit_timezone(),
                    self.explicit_timezone,
                ),
                min_scale == last_set(step@.take(i as int), pick_min_scale(), self.min_scale),
                max_scale == last_set(step@.take(i as int), pick_max_scale(), self.max_scale),
                assertions@ == self.assertions@ + assertions_in(step@.take(i as int)),
                step_patterns@ == patterns_in(step@.take(i as int)),
                enums@ == enumerations_in(step@.take(i as int)),
            decreases step.len() - i,
        {
            let ghost prefix = step@.take(i + 1);
            assert(prefix.drop_last() =~= step@.take(i as int));
            assert(prefix.last() == step@[i as int]);
            match &step[i] {
                Facet::Length(v) => length = Some(*v),
                Facet::MinLength(v) => min_length = Some(*v),
                Facet::MaxLength(v) => max_length = Some(*v),
                Facet::Pattern(p) => step_patterns.push(p.clone()),
                Facet::Enumeration(e) => enums.push(e.clone()),
                Facet::WhiteSpace(w) => white_space = Some(*w),
                Facet::MaxInclusive(v) => {
                    max_inclusive = Some(v.clone());
                    max_exclusive = None;
                },
                Facet::MaxExclusive(v) => {
                    max_exclusive = Some(v.clone());
                    max_inclusive = None;
                },
                Facet::MinInclusive(v) => {
                    min_inclusive = Some(v.clone());
                    min_exclusive = None;
                },
                Facet::MinExclusive(v) => {
                    min_exclusive = Some(v.clone());
                    min_inclusive = None;
                },
                Facet::TotalDigits(v) => total_digits = Some(*v),
                Facet::FractionDigits(v) => fraction_digits = Some(*v),
                Facet::ExplicitTimezone(v) => explicit_timezone = Some(*v),
                Facet::MinScale(v) => min_scale = Some(*v),
                Facet::MaxScale(v) => max_scale = Some(*v),
                Facet::Assertion(a) => {
                    assertions.push(a.clone());
                    assert(self.assertions@ + assertions_in(step@.take(i as int)).push(*a)
                        =~= (self.assertions@ + assertions_in(step@.take(i as int))).push(*a));
                },
            }
            i += 1;
        }
        assert(step@.take(step.len() as int) =~= step@);

        let mut patterns: Vec<Vec<String>> = Vec::new();
        let mut j: usize = 0;
        while j < self.patterns.len()
            invariant
                j <= self.patterns.len(),
                patterns@.len() == j,
                forall|x: int| 0 <= x < j ==> (#[trigger] patterns@[x])@ == self.patterns@[x]@,
            decreases self.patterns.len() - j,
        {
            let g = clone_strings(&self.patterns[j]);
            patterns.push(g);
            j += 1;
        }
        assert(pattern_groups(patterns@) =~= pattern_groups(self.patterns@));
        if step_patterns.len() > 0 {
            let ghost before = patterns@;
            patterns.push(step_patterns);
            assert(pattern_groups(patterns@) =~= pattern_groups(before).push(patterns_in(step@)));
        }

        let enumeration = if enums.len() > 0 {
            Some(enums)
        } else {
            match &self.enumeration {
                Some(e) => Some(clone_strings(e)),
                None => None,
            }
        };

        let mut namespaces: Vec<(Option<String>, String)> = Vec::new();
        let mut k: usize = 0;
        while k < self.namespaces.len()
            invariant
                k <= self.namespaces.len(),
                namespaces@ == self.namespaces@.take(k as int),
            decreases self.namespaces.len() - k,
        {
            let (p, u) = &self.namespaces[k];
            namespaces.push((clone_opt_string(p), u.clone()));
            assert(namespaces@ =~= self.namespaces@.take(k + 1));
            k += 1;
        }
        assert(self.namespaces@.take(self.namespaces.len() as int) =~= self.namespaces@);

        FacetSet {
            length,
            min_length,
            max_length,
            patterns,
            enumeration,
            namespaces,
            white_space,
            max_inclusive,
            max_exclusive,
            min_inclusive,
            min_exclusive,
            total_digits,
            fraction_digits,
            explicit_timezone,
            min_scale,
            max_scale,
            assertions,
        }
    }

    /// The effective `whiteSpace`, defaulting to the value the type's
    /// built-in ancestry fixes.
    pub fn effective_white_space(&self, builtin_default: WhiteSpace) -> (r: WhiteSpace)
        ensures
            r == match self.white_space {
                Some(w) => w,
                None => builtin_default,
            },
    {
        match self.white_space {
            Some(w) => w,
            None => builtin_default,
        }
    }
}

impl Default for FacetSet {
    fn default() -> (r: Self)
        ensures
            r.spec_is_unconstrained(),
    {
        FacetSet::new()
    }
}

/// Every built-in type defined by XSD 1.1 Part 2.
///
/// The primitives, the special types, the complex ur-type and the ordinary
/// derived types, including the three that are new in 1.1
/// (`yearMonthDuration`, `dayTimeDuration`, `dateTimeStamp`).
#[derive(Copy, Clone, PartialEq, Eq, Hash, Debug, PartialOrd, Ord, Structural)]
#[non_exhaustive]
pub enum Builtin {
    // ur-types
    AnyType,
    AnySimpleType,
    AnyAtomicType,

    // the primitives
    String,
    Boolean,
    Decimal,
    Float,
    Double,
    Duration,
    DateTime,
    Time,
    Date,
    GYearMonth,
    GYear,
    GMonthDay,
    GDay,
    GMonth,
    HexBinary,
    Base64Binary,
    AnyUri,
    QName,
    Notation,

    // derived, string branch
    NormalizedString,
    Token,
    Language,
    NmToken,
    NmTokens,
    Name,
    NcName,
    Id,
    IdRef,
    IdRefs,
    Entity,
    Entities,

    // derived, decimal branch
    Integer,
    NonPositiveInteger,
    NegativeInteger,
    Long,
    Int,
    Short,
    Byte,
    NonNegativeInteger,
    UnsignedLong,
    UnsignedInt,
    UnsignedShort,
    UnsignedByte,
    PositiveInteger,

    // derived, new in XSD 1.1
    YearMonthDuration,
    DayTimeDuration,
    DateTimeStamp,

    /// XSD 1.1's optional decimal that remembers its scale: a primitive of
    /// its own, with infinities, a NaN and a signed zero. Last, so that the
    /// declaration order and `Builtin::all` agree.
    PrecisionDecimal,
}

/// What kind of built-in a [`Builtin`] is.
#[derive(Copy, Clone, PartialEq, Eq, Debug, Structural)]
pub enum BuiltinKind {
    /// `xs:anyType`, the complex ur-type.
    Complex,
    /// `xs:anySimpleType`, which has no variety of its own.
    AnySimple,
    Atomic,
    /// A list, with its item type.
    List(Builtin),
}

/// Every built-in, in declaration order.
pub open spec fn spec_all_builtins() -> Seq<Builtin> {
    seq![
            Builtin::AnyType,
            Builtin::AnySimpleType,
            Builtin::AnyAtomicType,
            Builtin::String,
            Builtin::Boolean,
            Builtin::Decimal,
            Builtin::Float,
            Builtin::Double,
            Builtin::Duration,
            Builtin::DateTime,
            Builtin::Time,
            Builtin::Date,
            Builtin::GYearMonth,
            Builtin::GYear,
            Builtin::GMonthDay,
            Builtin::GDay,
            Builtin::GMonth,
            Builtin::HexBinary,
            Builtin::Base64Binary,
            Builtin::AnyUri,
            Builtin::QName,
            Builtin::Notation,
            Builtin::NormalizedString,
            Builtin::Token,
            Builtin::Language,
            Builtin::NmToken,
            Builtin::NmTokens,
            Builtin::Name,
            Builtin::NcName,
            Builtin::Id,
            Builtin::IdRef,
            Builtin::IdRefs,
            Builtin::Entity,
            Builtin::Entities,
            Builtin::Integer,
            Builtin::NonPositiveInteger,
            Builtin::NegativeInteger,
            Builtin::Long,
            Builtin::Int,
            Builtin::Short,
            Builtin::Byte,
            Builtin::NonNegativeInteger,
            Builtin::UnsignedLong,
            Builtin::UnsignedInt,
            Builtin::UnsignedShort,
            Builtin::UnsignedByte,
            Builtin::PositiveInteger,
            Builtin::YearMonthDuration,
            Builtin::DayTimeDuration,
            Builtin::DateTimeStamp,
            Builtin::PrecisionDecimal,
        ]
}

impl Builtin {
    /// The local name in the XML Schema namespace, as a literal.
    pub open spec fn spec_local_name(self) -> &'static str {
        match self {
            Builtin::AnyType => "anyType",
            Builtin::AnySimpleType => "anySimpleType",
            Builtin::AnyAtomicType => "anyAtomicType",
            Builtin::String => "string",
            Builtin::Boolean => "boolean",
            Builtin::Decimal => "decimal",
            Builtin::Float => "float",
            Builtin::Double => "double",
            Builtin::Duration => "duration",
            Builtin::DateTime => "dateTime",
            Builtin::Time => "time",
            Builtin::Date => "date",
            Builtin::GYearMonth => "gYearMonth",
            Builtin::GYear => "gYear",
            Builtin::GMonthDay => "gMonthDay",
            Builtin::GDay => "gDay",
            Builtin::GMonth => "gMonth",
            Builtin::HexBinary => "hexBinary",
            Builtin::Base64Binary => "base64Binary",
            Builtin::AnyUri => "anyURI",
            Builtin::QName => "QName",
            Builtin::Notation => "NOTATION",
            Builtin::NormalizedString => "normalizedString",
            Builtin::Token => "token",
            Builtin::Language => "language",
            Builtin::NmToken => "NMTOKEN",
            Builtin::NmTokens => "NMTOKENS",
            Builtin::Name => "Name",
            Builtin::NcName => "NCName",
            Builtin::Id => "ID",
            Builtin::IdRef => "IDREF",
            Builtin::IdRefs => "IDREFS",
            Builtin::Entity => "ENTITY",
            Builtin::Entities => "ENTITIES",
            Builtin::Integer => "integer",
            Builtin::NonPositiveInteger => "nonPositiveInteger",
            Builtin::NegativeInteger => "negativeInteger",
            Builtin::Long => "long",
            Builtin::Int => "int",
            Builtin::Short => "short",
            Builtin::Byte => "byte",
            Builtin::NonNegativeInteger => "nonNegativeInteger",
            Builtin::UnsignedLong => "unsignedLong",
            Builtin::UnsignedInt => "unsignedInt",
            Builtin::UnsignedShort => "unsignedShort",
            Builtin::UnsignedByte => "unsignedByte",
            Builtin::PositiveInteger => "positiveInteger",
            Builtin::YearMonthDuration => "yearMonthDuration",
            Builtin::DayTimeDuration => "dayTimeDuration",
            Builtin::DateTimeStamp => "dateTimeStamp",
            Builtin::PrecisionDecimal => "precisionDecimal",
        }
    }

    /// The type this one is derived from, absent only for `xs:anyType`.
    pub open spec fn spec_base(self) -> Option<Builtin> {
        match self {
            Builtin::AnyType => None,
            Builtin::AnySimpleType => Some(Builtin::AnyType),
            Builtin::AnyAtomicType => Some(Builtin::AnySimpleType),
            Builtin::String => Some(Builtin::AnyAtomicType),
            Builtin::Boolean => Some(Builtin::AnyAtomicType),
            Builtin::Decimal => Some(Builtin::AnyAtomicType),
            Builtin::Float => Some(Builtin::AnyAtomicType),
            Builtin::Double => Some(Builtin::AnyAtomicType),
            Builtin::Duration => Some(Builtin::AnyAtomicType),
            Builtin::DateTime => Some(Builtin::AnyAtomicType),
            Builtin::Time => Some(Builtin::AnyAtomicType),
            Builtin::Date => Some(Builtin::AnyAtomicType),
            Builtin::GYearMonth => Some(Builtin::AnyAtomicType),
            Builtin::GYear => Some(Builtin::AnyAtomicType),
            Builtin::GMonthDay => Some(Builtin::AnyAtomicType),
            Builtin::GDay => Some(Builtin::AnyAtomicType),
            Builtin::GMonth => Some(Builtin::AnyAtomicType),
            Builtin::HexBinary => Some(Builtin::AnyAtomicType),
            Builtin::Base64Binary => Some(Builtin::AnyAtomicType),
            Builtin::AnyUri => Some(Builtin::AnyAtomicType),
            Builtin::QName => Some(Builtin::AnyAtomicType),
            Builtin::Notation => Some(Builtin::AnyAtomicType),
            Builtin::NormalizedString => Some(Builtin::String),
            Builtin::Token => Some(Builtin::NormalizedString),
            Builtin::Language => Some(Builtin::Token),
            Builtin::NmToken => Some(Builtin::Token),
            Builtin::NmTokens => Some(Builtin::AnySimpleType),
            Builtin::Name => Some(Builtin::Token),
            Builtin::NcName => Some(Builtin::Name),
            Builtin::Id => Some(Builtin::NcName),
            Builtin::IdRef => Some(Builtin::NcName),
            Builtin::IdRefs => Some(Builtin::AnySimpleType),
            Builtin::Entity => Some(Builtin::NcName),
            Builtin::Entities => Some(Builtin::AnySimpleType),
            Builtin::Integer => Some(Builtin::Decimal),
            Builtin::NonPositiveInteger => Some(Builtin::Integer),
            Builtin::NegativeInteger => Some(Builtin::NonPositiveInteger),
            Builtin::Long => Some(Builtin::Integer),
            Builtin::Int => Some(Builtin::Long),
            Builtin::Short => Some(Builtin::Int),
            Builtin::Byte => Some(Builtin::Short),
            Builtin::NonNegativeInteger => Some(Builtin::Integer),
            Builtin::UnsignedLong => Some(Builtin::NonNegativeInteger),
            Builtin::UnsignedInt => Some(Builtin::UnsignedLong),
            Builtin::UnsignedShort => Some(Builtin::UnsignedInt),
            Builtin::UnsignedByte => Some(Builtin::UnsignedShort),
            Builtin::PositiveInteger => Some(Builtin::NonNegativeInteger),
            Builtin::YearMonthDuration => Some(Builtin::Duration),
            Builtin::DayTimeDuration => Some(Builtin::Duration),
            Builtin::DateTimeStamp => Some(Builtin::DateTime),
            Builtin::PrecisionDecimal => Some(Builtin::AnyAtomicType),
        }
    }

    pub open spec fn spec_kind(self) -> BuiltinKind {
        match self {
            Builtin::AnyType => BuiltinKind::Complex,
            Builtin::AnySimpleType => BuiltinKind::AnySimple,
            Builtin::AnyAtomicType => BuiltinKind::Atomic,
            Builtin::String => BuiltinKind::Atomic,
            Builtin::Boolean => BuiltinKind::Atomic,
            Builtin::Decimal => BuiltinKind::Atomic,
            Builtin::Float => BuiltinKind::Atomic,
            Builtin::Double => BuiltinKind::Atomic,
            Builtin::Duration => BuiltinKind::Atomic,
            Builtin::DateTime => BuiltinKind::Atomic,
            Builtin::Time => BuiltinKind::Atomic,
            Builtin::Date => BuiltinKind::Atomic,
            Builtin::GYearMonth => BuiltinKind::Atomic,
            Builtin::GYear => BuiltinKind::Atomic,
            Builtin::GMonthDay => BuiltinKind::Atomic,
            Builtin::GDay => BuiltinKind::Atomic,
            Builtin::GMonth => BuiltinKind::Atomic,
            Builtin::HexBinary => BuiltinKind::Atomic,
            Builtin::Base64Binary => BuiltinKind::Atomic,
            Builtin::AnyUri => BuiltinKind::Atomic,
            Builtin::QName => BuiltinKind::Atomic,
            Builtin::Notation => BuiltinKind::Atomic,
            Builtin::NormalizedString => BuiltinKind::Atomic,
            Builtin::Token => BuiltinKind::Atomic,
            Builtin::Language => BuiltinKind::Atomic,
            Builtin::NmToken => BuiltinKind::Atomic,
            Builtin::NmTokens => BuiltinKind::List(Builtin::NmToken),
            Builtin::Name => BuiltinKind::Atomic,
            Builtin::NcName => BuiltinKind::Atomic,
            Builtin::Id => BuiltinKind::Atomic,
            Builtin::IdRef => BuiltinKind::Atomic,
            Builtin::IdRefs => BuiltinKind::List(Builtin::IdRef),
            Builtin::Entity => BuiltinKind::Atomic,
            Builtin::Entities => BuiltinKind::List(Builtin::Entity),
            Builtin::Integer => BuiltinKind::Atomic,
            Builtin::NonPositiveInteger => BuiltinKind::Atomic,
            Builtin::NegativeInteger => BuiltinKind::Atomic,
            Builtin::Long => BuiltinKind::Atomic,
            Builtin::Int => BuiltinKind::Atomic,
            Builtin::Short => BuiltinKind::Atomic,
            Builtin::Byte => BuiltinKind::Atomic,
            Builtin::NonNegativeInteger => BuiltinKind::Atomic,
            Builtin::UnsignedLong => BuiltinKind::Atomic,
            Builtin::UnsignedInt => BuiltinKind::Atomic,
            Builtin::UnsignedShort => BuiltinKind::Atomic,
            Builtin::UnsignedByte => BuiltinKind::Atomic,
            Builtin::PositiveInteger => BuiltinKind::Atomic,
            Builtin::YearMonthDuration => BuiltinKind::Atomic,
            Builtin::DayTimeDuration => BuiltinKind::Atomic,
            Builtin::DateTimeStamp => BuiltinKind::Atomic,
            Builtin::PrecisionDecimal => BuiltinKind::Atomic,
        }
    }

    pub open spec fn spec_white_space(self) -> WhiteSpace {
        match self {
            Builtin::AnyType => WhiteSpace::Preserve,
            Builtin::AnySimpleType => WhiteSpace::Preserve,
            Builtin::AnyAtomicType => WhiteSpace::Preserve,
            Builtin::String => WhiteSpace::Preserve,
            Builtin::Boolean => WhiteSpace::Collapse,
            Builtin::Decimal => WhiteSpace::Collapse,
            Builtin::Float => WhiteSpace::Collapse,
            Builtin::Double => WhiteSpace::Collapse,
            Builtin::Duration => WhiteSpace::Collapse,
            Builtin::DateTime => WhiteSpace::Collapse,
            Builtin::Time => WhiteSpace::Collapse,
            Builtin::Date => WhiteSpace::Collapse,
            Builtin::GYearMonth => WhiteSpace::Collapse,
            Builtin::GYear => WhiteSpace::Collapse,
            Builtin::GMonthDay => WhiteSpace::Collapse,
            Builtin::GDay => WhiteSpace::Collapse,
            Builtin::GMonth => WhiteSpace::Collapse,
            Builtin::HexBinary => WhiteSpace::Collapse,
            Builtin::Base64Binary => WhiteSpace::Collapse,
            Builtin::AnyUri => WhiteSpace::Collapse,
            Builtin::QName => WhiteSpace::Collapse,
            Builtin::Notation => WhiteSpace::Collapse,
            Builtin::NormalizedString => WhiteSpace::Replace,
            Builtin::Token => WhiteSpace::Collapse,
            Builtin::Language => WhiteSpace::Collapse,
            Builtin::NmToken => WhiteSpace::Collapse,
            Builtin::NmTokens => WhiteSpace::Collapse,
            Builtin::Name => WhiteSpace::Collapse,
            Builtin::NcName => WhiteSpace::Collapse,
            Builtin::Id => WhiteSpace::Collapse,
            Builtin::IdRef => WhiteSpace::Collapse,
            Builtin::IdRefs => WhiteSpace::Collapse,
            Builtin::Entity => WhiteSpace::Collapse,
            Builtin::Entities => WhiteSpace::Collapse,
            Builtin::Integer => WhiteSpace::Collapse,
            Builtin::NonPositiveInteger => WhiteSpace::Collapse,
            Builtin::NegativeInteger => WhiteSpace::Collapse,
            Builtin::Long => WhiteSpace::Collapse,
            Builtin::Int => WhiteSpace::Collapse,
            Builtin::Short => WhiteSpace::Collapse,
            Builtin::Byte => WhiteSpace::Collapse,
            Builtin::NonNegativeInteger => WhiteSpace::Collapse,
            Builtin::UnsignedLong => WhiteSpace::Collapse,
            Builtin::UnsignedInt => WhiteSpace::Collapse,
            Builtin::UnsignedShort => WhiteSpace::Collapse,
            Builtin::UnsignedByte => WhiteSpace::Collapse,
            Builtin::PositiveInteger => WhiteSpace::Collapse,
            Builtin::YearMonthDuration => WhiteSpace::Collapse,
            Builtin::DayTimeDuration => WhiteSpace::Collapse,
            Builtin::DateTimeStamp => WhiteSpace::Collapse,
            Builtin::PrecisionDecimal => WhiteSpace::Collapse,
        }
    }

    /// How many derivation steps separate this type from `xs:anyType`.
    pub open spec fn spec_depth(self) -> nat {
        match self {
            Builtin::AnyType => 0,
            Builtin::AnySimpleType => 1,
            Builtin::AnyAtomicType => 2,
            Builtin::String => 3,
            Builtin::Boolean => 3,
            Builtin::Decimal => 3,
            Builtin::Float => 3,
            Builtin::Double => 3,
            Builtin::Duration => 3,
            Builtin::DateTime => 3,
            Builtin::Time => 3,
            Builtin::Date => 3,
            Builtin::GYearMonth => 3,
            Builtin::GYear => 3,
            Builtin::GMonthDay => 3,
            Builtin::GDay => 3,
            Builtin::GMonth => 3,
            Builtin::HexBinary => 3,
            Builtin::Base64Binary => 3,
            Builtin::AnyUri => 3,
            Builtin::QName => 3,
            Builtin::Notation => 3,
            Builtin::NormalizedString => 4,
            Builtin::Token => 5,
            Builtin::Language => 6,
            Builtin::NmToken => 6,
            Builtin::NmTokens => 2,
            Builtin::Name => 6,
            Builtin::NcName => 7,
            Builtin::Id => 8,
            Builtin::IdRef => 8,
            Builtin::IdRefs => 2,
            Builtin::Entity => 8,
            Builtin::Entities => 2,
            Builtin::Integer => 4,
            Builtin::NonPositiveInteger => 5,
            Builtin::NegativeInteger => 6,
            Builtin::Long => 5,
            Builtin::Int => 6,
            Builtin::Short => 7,
            Builtin::Byte => 8,
            Builtin::NonNegativeInteger => 5,
            Builtin::UnsignedLong => 6,
            Builtin::UnsignedInt => 7,
            Builtin::UnsignedShort => 8,
            Builtin::UnsignedByte => 9,
            Builtin::PositiveInteger => 6,
            Builtin::YearMonthDuration => 4,
            Builtin::DayTimeDuration => 4,
            Builtin::DateTimeStamp => 4,
            Builtin::PrecisionDecimal => 3,
        }
    }

    /// Position in declaration order.
    pub open spec fn spec_index(self) -> int {
        match self {
            Builtin::AnyType => 0,
            Builtin::AnySimpleType => 1,
            Builtin::AnyAtomicType => 2,
            Builtin::String => 3,
            Builtin::Boolean => 4,
            Builtin::Decimal => 5,
            Builtin::Float => 6,
            Builtin::Double => 7,
            Builtin::Duration => 8,
            Builtin::DateTime => 9,
            Builtin::Time => 10,
            Builtin::Date => 11,
            Builtin::GYearMonth => 12,
            Builtin::GYear => 13,
            Builtin::GMonthDay => 14,
            Builtin::GDay => 15,
            Builtin::GMonth => 16,
            Builtin::HexBinary => 17,
            Builtin::Base64Binary => 18,
            Builtin::AnyUri => 19,
            Builtin::QName => 20,
            Builtin::Notation => 21,
            Builtin::NormalizedString => 22,
            Builtin::Token => 23,
            Builtin::Language => 24,
            Builtin::NmToken => 25,
            Builtin::NmTokens => 26,
            Builtin::Name => 27,
            Builtin::NcName => 28,
            Builtin::Id => 29,
            Builtin::IdRef => 30,
            Builtin::IdRefs => 31,
            Builtin::Entity => 32,
            Builtin::Entities => 33,
            Builtin::Integer => 34,
            Builtin::NonPositiveInteger => 35,
            Builtin::NegativeInteger => 36,
            Builtin::Long => 37,
            Builtin::Int => 38,
            Builtin::Short => 39,
            Builtin::Byte => 40,
            Builtin::NonNegativeInteger => 41,
            Builtin::UnsignedLong => 42,
            Builtin::UnsignedInt => 43,
            Builtin::UnsignedShort => 44,
            Builtin::UnsignedByte => 45,
            Builtin::PositiveInteger => 46,
            Builtin::YearMonthDuration => 47,
            Builtin::DayTimeDuration => 48,
            Builtin::DateTimeStamp => 49,
            Builtin::PrecisionDecimal => 50,
        }
    }

    /// Whether this is one of the primitive datatypes: derived directly from
    /// `xs:anyAtomicType`.
    pub open spec fn spec_is_primitive(self) -> bool {
        self.spec_base() == Some(Builtin::AnyAtomicType)
    }

    /// The primitive this type reduces to: itself if primitive, otherwise
    /// the primitive of its base while the chain stays atomic.
    pub open spec fn spec_primitive(self) -> Option<Builtin>
        decreases self.spec_depth(),
    {
        if self.spec_is_primitive() {
            Some(self)
        } else {
            match self.spec_kind() {
                BuiltinKind::Atomic => match self.spec_base() {
                    Some(b) => {
                        proof {
                            lemma_base_is_shallower(self);
                        }
                        b.spec_primitive()
                    },
                    None => None,
                },
                _ => None,
            }
        }
    }

    /// Whether `self` is `other`, or reaches it through its base chain.
    pub open spec fn spec_derives_from(self, other: Builtin) -> bool
        decreases self.spec_depth(),
    {
        if self == other {
            true
        } else {
            match self.spec_base() {
                Some(b) => {
                    proof {
                        lemma_base_is_shallower(self);
                    }
                    b.spec_derives_from(other)
                },
                None => false,
            }
        }
    }

    pub open spec fn spec_variety(self) -> Option<Variety> {
        match self.spec_kind() {
            BuiltinKind::Complex | BuiltinKind::AnySimple => None,
            BuiltinKind::Atomic => Some(Variety::Atomic),
            BuiltinKind::List(_) => Some(Variety::List),
        }
    }

    /// Whether a facet may constrain this datatype, from the per-datatype
    /// "Constraining facets" lists of the datatypes specification.
    pub open spec fn spec_allows_facet(self, facet: FacetKind) -> bool {
        let universal = facet == FacetKind::Pattern || facet == FacetKind::WhiteSpace
            || facet == FacetKind::Assertion;
        let sized = facet == FacetKind::Length || facet == FacetKind::MinLength
            || facet == FacetKind::MaxLength;
        match self.spec_kind() {
            BuiltinKind::Complex | BuiltinKind::AnySimple => true,
            BuiltinKind::List(_) => universal || sized || facet == FacetKind::Enumeration,
            BuiltinKind::Atomic => match self.spec_primitive() {
                None => true,
                Some(p) => universal || match p {
                    Builtin::Boolean => false,
                    Builtin::String | Builtin::HexBinary | Builtin::Base64Binary
                    | Builtin::AnyUri | Builtin::QName | Builtin::Notation => sized || facet
                        == FacetKind::Enumeration,
                    Builtin::Decimal => facet.spec_is_bound() || facet == FacetKind::TotalDigits
                        || facet == FacetKind::FractionDigits || facet == FacetKind::Enumeration,
                    Builtin::PrecisionDecimal => facet.spec_is_bound() || facet
                        == FacetKind::TotalDigits || facet == FacetKind::MinScale || facet
                        == FacetKind::MaxScale || facet == FacetKind::Enumeration,
                    Builtin::Float | Builtin::Double | Builtin::Duration => facet.spec_is_bound()
                        || facet == FacetKind::Enumeration,
                    _ => facet.spec_is_bound() || facet == FacetKind::Enumeration || facet
                        == FacetKind::ExplicitTimezone,
                },
            },
        }
    }

    /// The first built-in, in declaration order, whose local name is `name`.
    pub open spec fn spec_from_local_name(name: Seq<char>) -> Option<Builtin> {
        if exists|i: int| 0 <= i < spec_all_builtins().len()
            && (#[trigger] spec_all_builtins()[i]).spec_local_name()@ == name {
            let i = choose|i: int| 0 <= i < spec_all_builtins().len()
                && (#[trigger] spec_all_builtins()[i]).spec_local_name()@ == name
                && forall|j: int| 0 <= j < i ==> (#[trigger] spec_all_builtins()[j]).spec_local_name()@ != name;
            Some(spec_all_builtins()[i])
        } else {
            None
        }
    }

    /// Where this built-in sits in [`Builtin::all`].
    pub fn slot(self) -> (r: usize)
        ensures
            r == self.spec_index(),
    {
        match self {
            Builtin::AnyType => 0,
            Builtin::AnySimpleType => 1,
            Builtin::AnyAtomicType => 2,
            Builtin::String => 3,
            Builtin::Boolean => 4,
            Builtin::Decimal => 5,
            Builtin::Float => 6,
            Builtin::Double => 7,
            Builtin::Duration => 8,
            Builtin::DateTime => 9,
            Builtin::Time => 10,
            Builtin::Date => 11,
            Builtin::GYearMonth => 12,
            Builtin::GYear => 13,
            Builtin::GMonthDay => 14,
            Builtin::GDay => 15,
            Builtin::GMonth => 16,
            Builtin::HexBinary => 17,
            Builtin::Base64Binary => 18,
            Builtin::AnyUri => 19,
            Builtin::QName => 20,
            Builtin::Notation => 21,
            Builtin::NormalizedString => 22,
            Builtin::Token => 23,
            Builtin::Language => 24,
            Builtin::NmToken => 25,
            Builtin::NmTokens => 26,
            Builtin::Name => 27,
            Builtin::NcName => 28,
            Builtin::Id => 29,
            Builtin::IdRef => 30,
            Builtin::IdRefs => 31,
            Builtin::Entity => 32,
            Builtin::Entities => 33,
            Builtin::Integer => 34,
            Builtin::NonPositiveInteger => 35,
            Builtin::NegativeInteger => 36,
            Builtin::Long => 37,
            Builtin::Int => 38,
            Builtin::Short => 39,
            Builtin::Byte => 40,
            Builtin::NonNegativeInteger => 41,
            Builtin::UnsignedLong => 42,
            Builtin::UnsignedInt => 43,
            Builtin::UnsignedShort => 44,
            Builtin::UnsignedByte => 45,
            Builtin::PositiveInteger => 46,
            Builtin::YearMonthDuration => 47,
            Builtin::DayTimeDuration => 48,
            Builtin::DateTimeStamp => 49,
            Builtin::PrecisionDecimal => 50,
        }
    }

    /// The local name in the XML Schema namespace, e.g. `nonNegativeInteger`.
    pub fn local_name(self) -> (r: &'static str)
        ensures
            r == self.spec_local_name(),
    {
        match self {
            Builtin::AnyType => "anyType",
            Builtin::AnySimpleType => "anySimpleType",
            Builtin::AnyAtomicType => "anyAtomicType",
            Builtin::String => "string",
            Builtin::Boolean => "boolean",
            Builtin::Decimal => "decimal",
            Builtin::Float => "float",
            Builtin::Double => "double",
            Builtin::Duration => "duration",
            Builtin::DateTime => "dateTime",
            Builtin::Time => "time",
            Builtin::Date => "date",
            Builtin::GYearMonth => "gYearMonth",
            Builtin::GYear => "gYear",
            Builtin::GMonthDay => "gMonthDay",
            Builtin::GDay => "gDay",
            Builtin::GMonth => "gMonth",
            Builtin::HexBinary => "hexBinary",
            Builtin::Base64Binary => "base64Binary",
            Builtin::AnyUri => "anyURI",
            Builtin::QName => "QName",
            Builtin::Notation => "NOTATION",
            Builtin::NormalizedString => "normalizedString",
            Builtin::Token => "token",
            Builtin::Language => "language",
            Builtin::NmToken => "NMTOKEN",
            Builtin::NmTokens => "NMTOKENS",
            Builtin::Name => "Name",
            Builtin::NcName => "NCName",
            Builtin::Id => "ID",
            Builtin::IdRef => "IDREF",
            Builtin::IdRefs => "IDREFS",
            Builtin::Entity => "ENTITY",
            Builtin::Entities => "ENTITIES",
            Builtin::Integer => "integer",
            Builtin::NonPositiveInteger => "nonPositiveInteger",
            Builtin::NegativeInteger => "negativeInteger",
            Builtin::Long => "long",
            Builtin::Int => "int",
            Builtin::Short => "short",
            Builtin::Byte => "byte",
            Builtin::NonNegativeInteger => "nonNegativeInteger",
            Builtin::UnsignedLong => "unsignedLong",
            Builtin::UnsignedInt => "unsignedInt",
            Builtin::UnsignedShort => "unsignedShort",
            Builtin::UnsignedByte => "unsignedByte",
            Builtin::PositiveInteger => "positiveInteger",
            Builtin::YearMonthDuration => "yearMonthDuration",
            Builtin::DayTimeDuration => "dayTimeDuration",
            Builtin::DateTimeStamp => "dateTimeStamp",
            Builtin::PrecisionDecimal => "precisionDecimal",
        }
    }

    /// The type this one is derived from, absent only for `xs:anyType`.
    pub fn base(self) -> (r: Option<Builtin>)
        ensures
            r == self.spec_base(),
    {
        match self {
            Builtin::AnyType => None,
            Builtin::AnySimpleType => Some(Builtin::AnyType),
            Builtin::AnyAtomicType => Some(Builtin::AnySimpleType),
            Builtin::String => Some(Builtin::AnyAtomicType),
            Builtin::Boolean => Some(Builtin::AnyAtomicType),
            Builtin::Decimal => Some(Builtin::AnyAtomicType),
            Builtin::Float => Some(Builtin::AnyAtomicType),
            Builtin::Double => Some(Builtin::AnyAtomicType),
            Builtin::Duration => Some(Builtin::AnyAtomicType),
            Builtin::DateTime => Some(Builtin::AnyAtomicType),
            Builtin::Time => Some(Builtin::AnyAtomicType),
            Builtin::Date => Some(Builtin::AnyAtomicType),
            Builtin::GYearMonth => Some(Builtin::AnyAtomicType),
            Builtin::GYear => Some(Builtin::AnyAtomicType),
            Builtin::GMonthDay => Some(Builtin::AnyAtomicType),
            Builtin::GDay => Some(Builtin::AnyAtomicType),
            Builtin::GMonth => Some(Builtin::AnyAtomicType),
            Builtin::HexBinary => Some(Builtin::AnyAtomicType),
            Builtin::Base64Binary => Some(Builtin::AnyAtomicType),
            Builtin::AnyUri => Some(Builtin::AnyAtomicType),
            Builtin::QName => Some(Builtin::AnyAtomicType),
            Builtin::Notation => Some(Builtin::AnyAtomicType),
            Builtin::NormalizedString => Some(Builtin::String),
            Builtin::Token => Some(Builtin::NormalizedString),
            Builtin::Language => Some(Builtin::Token),
            Builtin::NmToken => Some(Builtin::Token),
            Builtin::NmTokens => Some(Builtin::AnySimpleType),
            Builtin::Name => Some(Builtin::Token),
            Builtin::NcName => Some(Builtin::Name),
            Builtin::Id => Some(Builtin::NcName),
            Builtin::IdRef => Some(Builtin::NcName),
            Builtin::IdRefs => Some(Builtin::AnySimpleType),
            Builtin::Entity => Some(Builtin::NcName),
            Builtin::Entities => Some(Builtin::AnySimpleType),
            Builtin::Integer => Some(Builtin::Decimal),
            Builtin::NonPositiveInteger => Some(Builtin::Integer),
            Builtin::NegativeInteger => Some(Builtin::NonPositiveInteger),
            Builtin::Long => Some(Builtin::Integer),
            Builtin::Int => Some(Builtin::Long),
            Builtin::Short => Some(Builtin::Int),
            Builtin::Byte => Some(Builtin::Short),
            Builtin::NonNegativeInteger => Some(Builtin::Integer),
            Builtin::UnsignedLong => Some(Builtin::NonNegativeInteger),
            Builtin::UnsignedInt => Some(Builtin::UnsignedLong),
            Builtin::UnsignedShort => Some(Builtin::UnsignedInt),
            Builtin::UnsignedByte => Some(Builtin::UnsignedShort),
            Builtin::PositiveInteger => Some(Builtin::NonNegativeInteger),
            Builtin::YearMonthDuration => Some(Builtin::Duration),
            Builtin::DayTimeDuration => Some(Builtin::Duration),
            Builtin::DateTimeStamp => Some(Builtin::DateTime),
            Builtin::PrecisionDecimal => Some(Builtin::AnyAtomicType),
        }
    }

    pub fn kind(self) -> (r: BuiltinKind)
        ensures
            r == self.spec_kind(),
    {
        match self {
            Builtin::AnyType => BuiltinKind::Complex,
            Builtin::AnySimpleType => BuiltinKind::AnySimple,
            Builtin::AnyAtomicType => BuiltinKind::Atomic,
            Builtin::String => BuiltinKind::Atomic,
            Builtin::Boolean => BuiltinKind::Atomic,
            Builtin::Decimal => BuiltinKind::Atomic,
            Builtin::Float => BuiltinKind::Atomic,
            Builtin::Double => BuiltinKind::Atomic,
            Builtin::Duration => BuiltinKind::Atomic,
            Builtin::DateTime => BuiltinKind::Atomic,
            Builtin::Time => BuiltinKind::Atomic,
            Builtin::Date => BuiltinKind::Atomic,
            Builtin::GYearMonth => BuiltinKind::Atomic,
            Builtin::GYear => BuiltinKind::Atomic,
            Builtin::GMonthDay => BuiltinKind::Atomic,
            Builtin::GDay => BuiltinKind::Atomic,
            Builtin::GMonth => BuiltinKind::Atomic,
            Builtin::HexBinary => BuiltinKind::Atomic,
            Builtin::Base64Binary => BuiltinKind::Atomic,
            Builtin::AnyUri => BuiltinKind::Atomic,
            Builtin::QName => BuiltinKind::Atomic,
            Builtin::Notation => BuiltinKind::Atomic,
            Builtin::NormalizedString => BuiltinKind::Atomic,
            Builtin::Token => BuiltinKind::Atomic,
            Builtin::Language => BuiltinKind::Atomic,
            Builtin::NmToken => BuiltinKind::Atomic,
            Builtin::NmTokens => BuiltinKind::List(Builtin::NmToken),
            Builtin::Name => BuiltinKind::Atomic,
            Builtin::NcName => BuiltinKind::Atomic,
            Builtin::Id => BuiltinKind::Atomic,
            Builtin::IdRef => BuiltinKind::Atomic,
            Builtin::IdRefs => BuiltinKind::List(Builtin::IdRef),
            Builtin::Entity => BuiltinKind::Atomic,
            Builtin::Entities => BuiltinKind::List(Builtin::Entity),
            Builtin::Integer => BuiltinKind::Atomic,
            Builtin::NonPositiveInteger => BuiltinKind::Atomic,
            Builtin::NegativeInteger => BuiltinKind::Atomic,
            Builtin::Long => BuiltinKind::Atomic,
            Builtin::Int => BuiltinKind::Atomic,
            Builtin::Short => BuiltinKind::Atomic,
            Builtin::Byte => BuiltinKind::Atomic,
            Builtin::NonNegativeInteger => BuiltinKind::Atomic,
            Builtin::UnsignedLong => BuiltinKind::Atomic,
            Builtin::UnsignedInt => BuiltinKind::Atomic,
            Builtin::UnsignedShort => BuiltinKind::Atomic,
            Builtin::UnsignedByte => BuiltinKind::Atomic,
            Builtin::PositiveInteger => BuiltinKind::Atomic,
            Builtin::YearMonthDuration => BuiltinKind::Atomic,
            Builtin::DayTimeDuration => BuiltinKind::Atomic,
            Builtin::DateTimeStamp => BuiltinKind::Atomic,
            Builtin::PrecisionDecimal => BuiltinKind::Atomic,
        }
    }

    /// The `whiteSpace` value fixed by this type's built-in ancestry.
    pub fn white_space(self) -> (r: WhiteSpace)
        ensures
            r == self.spec_white_space(),
    {
        match self {
            Builtin::AnyType => WhiteSpace::Preserve,
            Builtin::AnySimpleType => WhiteSpace::Preserve,
            Builtin::AnyAtomicType => WhiteSpace::Preserve,
            Builtin::String => WhiteSpace::Preserve,
            Builtin::Boolean => WhiteSpace::Collapse,
            Builtin::Decimal => WhiteSpace::Collapse,
            Builtin::Float => WhiteSpace::Collapse,
            Builtin::Double => WhiteSpace::Collapse,
            Builtin::Duration => WhiteSpace::Collapse,
            Builtin::DateTime => WhiteSpace::Collapse,
            Builtin::Time => WhiteSpace::Collapse,
            Builtin::Date => WhiteSpace::Collapse,
            Builtin::GYearMonth => WhiteSpace::Collapse,
            Builtin::GYear => WhiteSpace::Collapse,
            Builtin::GMonthDay => WhiteSpace::Collapse,
            Builtin::GDay => WhiteSpace::Collapse,
            Builtin::GMonth => WhiteSpace::Collapse,
            Builtin::HexBinary => WhiteSpace::Collapse,
            Builtin::Base64Binary => WhiteSpace::Collapse,
            Builtin::AnyUri => WhiteSpace::Collapse,
            Builtin::QName => WhiteSpace::Collapse,
            Builtin::Notation => WhiteSpace::Collapse,
            Builtin::NormalizedString => WhiteSpace::Replace,
            Builtin::Token => WhiteSpace::Collapse,
            Builtin::Language => WhiteSpace::Collapse,
            Builtin::NmToken => WhiteSpace::Collapse,
            Builtin::NmTokens => WhiteSpace::Collapse,
            Builtin::Name => WhiteSpace::Collapse,
            Builtin::NcName => WhiteSpace::Collapse,
            Builtin::Id => WhiteSpace::Collapse,
            Builtin::IdRef => WhiteSpace::Collapse,
            Builtin::IdRefs => WhiteSpace::Collapse,
            Builtin::Entity => WhiteSpace::Collapse,
            Builtin::Entities => WhiteSpace::Collapse,
            Builtin::Integer => WhiteSpace::Collapse,
            Builtin::NonPositiveInteger => WhiteSpace::Collapse,
            Builtin::NegativeInteger => WhiteSpace::Collapse,
            Builtin::Long => WhiteSpace::Collapse,
            Builtin::Int => WhiteSpace::Collapse,
            Builtin::Short => WhiteSpace::Collapse,
            Builtin::Byte => WhiteSpace::Collapse,
            Builtin::NonNegativeInteger => WhiteSpace::Collapse,
            Builtin::UnsignedLong => WhiteSpace::Collapse,
            Builtin::UnsignedInt => WhiteSpace::Collapse,
            Builtin::UnsignedShort => WhiteSpace::Collapse,
            Builtin::UnsignedByte => WhiteSpace::Collapse,
            Builtin::PositiveInteger => WhiteSpace::Collapse,
            Builtin::YearMonthDuration => WhiteSpace::Collapse,
            Builtin::DayTimeDuration => WhiteSpace::Collapse,
            Builtin::DateTimeStamp => WhiteSpace::Collapse,
            Builtin::PrecisionDecimal => WhiteSpace::Collapse,
        }
    }

    /// Whether this is one of the primitive datatypes.
    pub fn is_primitive(self) -> (r: bool)
        ensures
            r == self.spec_is_primitive(),
    {
        match self.base() {
            Some(Builtin::AnyAtomicType) => true,
            _ => false,
        }
    }

    /// The primitive this type reduces to, if any.
    ///
    /// `None` for the ur-types and for list types, which have no primitive of
    /// their own.
    pub fn primitive(self) -> (r: Option<Builtin>)
        ensures
            r == self.spec_primitive(),
    {
        let mut cur = self;
        loop
            invariant
                cur.spec_primitive() == self.spec_primitive(),
            decreases cur.spec_depth(),
        {
            if cur.is_primitive() {
                return Some(cur);
            }
            match cur.kind() {
                BuiltinKind::Atomic => match cur.base() {
                    Some(b) => {
                        proof {
                            lemma_base_is_shallower(cur);
                        }
                        cur = b;
                    },
                    None => return None,
                },
                _ => return None,
            }
        }
    }

    /// The variety of this type's value space.
    pub fn variety(self) -> (r: Option<Variety>)
        ensures
            r == self.spec_variety(),
    {
        match self.kind() {
            BuiltinKind::Complex | BuiltinKind::AnySimple => None,
            BuiltinKind::Atomic => Some(Variety::Atomic),
            BuiltinKind::List(_) => Some(Variety::List),
        }
    }

    /// Whether `facet` may constrain this datatype.
    ///
    /// The rule is about the *primitive*, not the type itself, and the
    /// ur-types admit everything: nothing may be derived from them by
    /// restriction anyway.
    pub fn allows_facet(self, facet: FacetKind) -> (r: bool)
        ensures
            r == self.spec_allows_facet(facet),
    {
        let universal = facet == FacetKind::Pattern || facet == FacetKind::WhiteSpace
            || facet == FacetKind::Assertion;
        let sized = facet == FacetKind::Length || facet == FacetKind::MinLength
            || facet == FacetKind::MaxLength;
        match self.kind() {
            BuiltinKind::Complex | BuiltinKind::AnySimple => true,
            BuiltinKind::List(_) => universal || sized || facet == FacetKind::Enumeration,
            BuiltinKind::Atomic => {
                let p = match self.primitive() {
                    Some(p) => p,
                    // xs:anyAtomicType, which is not restrictable either.
                    None => return true,
                };
                if universal {
                    return true;
                }
                match p {
                    // Boolean has no enumeration: with two values, enumerating
                    // them either says nothing or contradicts the type.
                    Builtin::Boolean => false,
                    Builtin::String | Builtin::HexBinary | Builtin::Base64Binary
                    | Builtin::AnyUri | Builtin::QName | Builtin::Notation => sized || facet
                        == FacetKind::Enumeration,
                    Builtin::Decimal => facet.is_bound() || facet == FacetKind::TotalDigits
                        || facet == FacetKind::FractionDigits || facet == FacetKind::Enumeration,
                    // Scale in place of `fractionDigits`: the scale may be
                    // negative, which a count of fractional digits cannot be.
                    Builtin::PrecisionDecimal => facet.is_bound() || facet
                        == FacetKind::TotalDigits || facet == FacetKind::MinScale || facet
                        == FacetKind::MaxScale || facet == FacetKind::Enumeration,
                    Builtin::Float | Builtin::Double | Builtin::Duration => facet.is_bound()
                        || facet == FacetKind::Enumeration,
                    // The date and time primitives.
                    _ => facet.is_bound() || facet == FacetKind::Enumeration || facet
                        == FacetKind::ExplicitTimezone,
                }
            },
        }
    }

    /// Whether `self` is `other`, or is derived from it.
    pub fn derives_from(self, other: Builtin) -> (r: bool)
        ensures
            r == self.spec_derives_from(other),
    {
        let mut cur = self;
        loop
            invariant
                cur.spec_derives_from(other) == self.spec_derives_from(other),
            decreases cur.spec_depth(),
        {
            if cur == other {
                return true;
            }
            match cur.base() {
                Some(b) => {
                    proof {
                        lemma_base_is_shallower(cur);
                    }
                    cur = b;
                },
                None => return false,
            }
        }
    }

    /// Every built-in, in declaration order.
    pub fn all() -> (r: Vec<Builtin>)
        ensures
            r@ == spec_all_builtins(),
    {
        let r = vec![
            Builtin::AnyType,
            Builtin::AnySimpleType,
            Builtin::AnyAtomicType,
            Builtin::String,
            Builtin::Boolean,
            Builtin::Decimal,
            Builtin::Float,
            Builtin::Double,
            Builtin::Duration,
            Builtin::DateTime,
            Builtin::Time,
            Builtin::Date,
            Builtin::GYearMonth,
            Builtin::GYear,
            Builtin::GMonthDay,
            Builtin::GDay,
            Builtin::GMonth,
            Builtin::HexBinary,
            Builtin::Base64Binary,
            Builtin::AnyUri,
            Builtin::QName,
            Builtin::Notation,
            Builtin::NormalizedString,
            Builtin::Token,
            Builtin::Language,
            Builtin::NmToken,
            Builtin::NmTokens,
            Builtin::Name,
            Builtin::NcName,
            Builtin::Id,
            Builtin::IdRef,
            Builtin::IdRefs,
            Builtin::Entity,
            Builtin::Entities,
            Builtin::Integer,
            Builtin::NonPositiveInteger,
            Builtin::NegativeInteger,
            Builtin::Long,
            Builtin::Int,
            Builtin::Short,
            Builtin::Byte,
            Builtin::NonNegativeInteger,
            Builtin::UnsignedLong,
            Builtin::UnsignedInt,
            Builtin::UnsignedShort,
            Builtin::UnsignedByte,
            Builtin::PositiveInteger,
            Builtin::YearMonthDuration,
            Builtin::DayTimeDuration,
            Builtin::DateTimeStamp,
            Builtin::PrecisionDecimal,
        ];
        assert(r@ =~= spec_all_builtins());
        r
    }

    /// Looks a built-in up by its local name in the XML Schema namespace.
    pub fn from_local_name(name: &str) -> (r: Option<Builtin>)
        ensures
            r == Builtin::spec_from_local_name(name@),
    {
        let all = Builtin::all();
        let mut i: usize = 0;
        while i < all.len()
            invariant
                i <= all.len(),
                all@ == spec_all_builtins(),
                forall|j: int| 0 <= j < i ==> (#[trigger] spec_all_builtins()[j]).spec_local_name()@ != name@,
            decreases all.len() - i,
        {
            if str_eq(all[i].local_name(), name) {
                let ghost k = choose|k: int| 0 <= k < spec_all_builtins().len()
                    && (#[trigger] spec_all_builtins()[k]).spec_local_name()@ == name@
                    && forall|j: int| 0 <= j < k ==> (#[trigger] spec_all_builtins()[j]).spec_local_name()@ != name@;
                assert(spec_all_builtins()[i as int].spec_local_name()@ == name@);
                assert(k == i as int) by {
                    if k < i {
                    } else if k > i {
                        assert(spec_all_builtins()[i as int].spec_local_name()@ != name@);
                    }
                }
                return Some(all[i]);
            }
            i += 1;
        }
        None
    }

    /// The name in the `xs:` prefix form, e.g. `xs:int`.
    pub fn to_string(self) -> (r: String)
        ensures
            r@ == seq!['x', 's', ':'] + self.spec_local_name()@,
    {
        let mut v: Vec<char> = Vec::new();
        v.push('x');
        v.push('s');
        v.push(':');
        push_str(&mut v, self.local_name());
        assert(v@ =~= seq!['x', 's', ':'] + self.spec_local_name()@);
        string_from_chars(&v)
    }
}

/// Each step up the derivation chain comes one step closer to `xs:anyType`.
pub proof fn lemma_base_is_shallower(b: Builtin)
    ensures
        b.spec_base() matches Some(p) ==> p.spec_depth() + 1 == b.spec_depth(),
{
}

/// Every built-in reaches `xs:anyType` through its base chain.
pub proof fn law_every_builtin_derives_from_any_type(b: Builtin)
    ensures
        b.spec_derives_from(Builtin::AnyType),
    decreases b.spec_depth(),
{
    lemma_base_is_shallower(b);
    match b.spec_base() {
        Some(p) => law_every_builtin_derives_from_any_type(p),
        None => {},
    }
}

/// The primitive a type reduces to is a primitive, and the type derives
/// from it.
pub proof fn law_primitive_is_an_ancestor(b: Builtin)
    ensures
        b.spec_primitive() matches Some(p) ==> p.spec_is_primitive() && b.spec_derives_from(p),
    decreases b.spec_depth(),
{
    lemma_base_is_shallower(b);
    if !b.spec_is_primitive() {
        match b.spec_base() {
            Some(p) => law_primitive_is_an_ancestor(p),
            None => {},
        }
    }
}

/// An inclusive and an exclusive bound on the same side never both survive a
/// restriction step, provided they did not both hold before it.
pub proof fn law_bound_kinds_displace_each_other(
    step: Seq<Facet>,
    inclusive: Option<String>,
    exclusive: Option<String>,
)
    requires
        !(inclusive is Some && exclusive is Some),
    ensures
        !(last_set(step, pick_min_inclusive(), inclusive) is Some && last_set(
            step,
            pick_min_exclusive(),
            exclusive,
        ) is Some),
        !(last_set(step, pick_max_inclusive(), inclusive) is Some && last_set(
            step,
            pick_max_exclusive(),
            exclusive,
        ) is Some),
    decreases step.len(),
{
    if step.len() > 0 {
        law_bound_kinds_displace_each_other(step.drop_last(), inclusive, exclusive);
    }
}

/// The table of built-ins and their indices agree: the built-in at each
/// position of [`Builtin::all`] is the one whose index that is.
pub proof fn law_table_and_index_agree()
    ensures
        spec_all_builtins().len() == 51,
        forall|i: int| 0 <= i < 51 ==> (#[trigger] spec_all_builtins()[i]).spec_index() == i,
        forall|b: Builtin| 0 <= #[trigger] b.spec_index() < 51,
{
    assert(spec_all_builtins()[0].spec_index() == 0);
    assert(spec_all_builtins()[1].spec_index() == 1);
    assert(spec_all_builtins()[2].spec_index() == 2);
    assert(spec_all_builtins()[3].spec_index() == 3);
    assert(spec_all_builtins()[4].spec_index() == 4);
    assert(spec_all_builtins()[5].spec_index() == 5);
    assert(spec_all_builtins()[6].spec_index() == 6);
    assert(spec_all_builtins()[7].spec_index() == 7);
    assert(spec_all_builtins()[8].spec_index() == 8);
    assert(spec_all_builtins()[9].spec_index() == 9);
    assert(spec_all_builtins()[10].spec_index() == 10);
    assert(spec_all_builtins()[11].spec_index() == 11);
    assert(spec_all_builtins()[12].spec_index() == 12);
    assert(spec_all_builtins()[13].spec_index() == 13);
    assert(spec_all_builtins()[14].spec_index() == 14);
    assert(spec_all_builtins()[15].spec_index() == 15);
    assert(spec_all_builtins()[16].spec_index() == 16);
    assert(spec_all_builtins()[17].spec_index() == 17);
    assert(spec_all_builtins()[18].spec_index() == 18);
    assert(spec_all_builtins()[19].spec_index() == 19);
    assert(spec_all_builtins()[20].spec_index() == 20);
    assert(spec_all_builtins()[21].spec_index() == 21);
    assert(spec_all_builtins()[22].spec_index() == 22);
    assert(spec_all_builtins()[23].spec_index() == 23);
    assert(spec_all_builtins()[24].spec_index() == 24);
    assert(spec_all_builtins()[25].spec_index() == 25);
    assert(spec_all_builtins()[26].spec_index() == 26);
    assert(spec_all_builtins()[27].spec_index() == 27);
    assert(spec_all_builtins()[28].spec_index() == 28);
    assert(spec_all_builtins()[29].spec_index() == 29);
    assert(spec_all_builtins()[30].spec_index() == 30);
    assert(spec_all_builtins()[31].spec_index() == 31);
    assert(spec_all_builtins()[32].spec_index() == 32);
    assert(spec_all_builtins()[33].spec_index() == 33);
    assert(spec_all_builtins()[34].spec_index() == 34);
    assert(spec_all_builtins()[35].spec_index() == 35);
    assert(spec_all_builtins()[36].spec_index() == 36);
    assert(spec_all_builtins()[37].spec_index() == 37);
    assert(spec_all_builtins()[38].spec_index() == 38);
    assert(spec_all_builtins()[39].spec_index() == 39);
    assert(spec_all_builtins()[40].spec_index() == 40);
    assert(spec_all_builtins()[41].spec_index() == 41);
    assert(spec_all_builtins()[42].spec_index() == 42);
    assert(spec_all_builtins()[43].spec_index() == 43);
    assert(spec_all_builtins()[44].spec_index() == 44);
    assert(spec_all_builtins()[45].spec_index() == 45);
    assert(spec_all_builtins()[46].spec_index() == 46);
    assert(spec_all_builtins()[47].spec_index() == 47);
    assert(spec_all_builtins()[48].spec_index() == 48);
    assert(spec_all_builtins()[49].spec_index() == 49);
    assert(spec_all_builtins()[50].spec_index() == 50);
    assert forall|b: Builtin| 0 <= #[trigger] b.spec_index() < 51 by {}
}

/// No two built-ins share a local name.
pub proof fn law_local_names_are_distinct(a: Builtin, b: Builtin)
    ensures
        a.spec_local_name()@ == b.spec_local_name()@ ==> a == b,
{
    if a.spec_local_name()@ == b.spec_local_name()@ {
        reveal_strlit("anyType");
        reveal_strlit("anySimpleType");
        reveal_strlit("anyAtomicType");
        reveal_strlit("string");
        reveal_strlit("boolean");
        reveal_strlit("decimal");
        reveal_strlit("float");
        reveal_strlit("double");
        reveal_strlit("duration");
        reveal_strlit("dateTime");
        reveal_strlit("time");
        reveal_strlit("date");
        reveal_strlit("gYearMonth");
        reveal_strlit("gYear");
        reveal_strlit("gMonthDay");
        reveal_strlit("gDay");
        reveal_strlit("gMonth");
        reveal_strlit("hexBinary");
        reveal_strlit("base64Binary");
        reveal_strlit("anyURI");
        reveal_strlit("QName");
        reveal_strlit("NOTATION");
        reveal_strlit("normalizedString");
        reveal_strlit("token");
        reveal_strlit("language");
        reveal_strlit("NMTOKEN");
        reveal_strlit("NMTOKENS");
        reveal_strlit("Name");
        reveal_strlit("NCName");
        reveal_strlit("ID");
        reveal_strlit("IDREF");
        reveal_strlit("IDREFS");
        reveal_strlit("ENTITY");
        reveal_strlit("ENTITIES");
        reveal_strlit("integer");
        reveal_strlit("nonPositiveInteger");
        reveal_strlit("negativeInteger");
        reveal_strlit("long");
        reveal_strlit("int");
        reveal_strlit("short");
        reveal_strlit("byte");
        reveal_strlit("nonNegativeInteger");
        reveal_strlit("unsignedLong");
        reveal_strlit("unsignedInt");
        reveal_strlit("unsignedShort");
        reveal_strlit("unsignedByte");
        reveal_strlit("positiveInteger");
        reveal_strlit("yearMonthDuration");
        reveal_strlit("dayTimeDuration");
        reveal_strlit("dateTimeStamp");
        reveal_strlit("precisionDecimal");
        let (x, y) = (a.spec_local_name()@, b.spec_local_name()@);
        assert(x.len() == y.len());
        assert(x.len() > 0 ==> x[0] == y[0]);
        assert(x.len() > 1 ==> x[1] == y[1]);
        assert(x.len() > 2 ==> x[2] == y[2]);
        assert(x.len() > 3 ==> x[3] == y[3]);
        assert(x.len() > 4 ==> x[4] == y[4]);
        assert(x.len() > 5 ==> x[5] == y[5]);
        assert(x.len() > 6 ==> x[6] == y[6]);
        assert(x.len() > 7 ==> x[7] == y[7]);
        assert(x.len() > 8 ==> x[8] == y[8]);
        assert(x.len() > 9 ==> x[9] == y[9]);
        assert(x.len() > 10 ==> x[10] == y[10]);
        assert(x.len() > 11 ==> x[11] == y[11]);
        assert(x.len() > 12 ==> x[12] == y[12]);
        assert(x.len() > 13 ==> x[13] == y[13]);
        assert(x.len() > 14 ==> x[14] == y[14]);
        assert(x.len() > 15 ==> x[15] == y[15]);
        assert(x.len() > 16 ==> x[16] == y[16]);
        assert(x.len() > 17 ==> x[17] == y[17]);
    }
}

/// Every built-in is found again by its own local name, and only it.
pub proof fn law_found_by_local_name(b: Builtin)
    ensures
        Builtin::spec_from_local_name(b.spec_local_name()@) == Some(b),
{
    law_table_and_index_agree();
    let i = b.spec_index();
    assert(spec_all_builtins()[i].spec_index() == i);
    assert(spec_all_builtins()[i] == b);
    assert(spec_all_builtins()[i].spec_local_name()@ == b.spec_local_name()@);
    let k = choose|k: int| 0 <= k < spec_all_builtins().len()
        && (#[trigger] spec_all_builtins()[k]).spec_local_name()@ == b.spec_local_name()@
        && forall|j: int| 0 <= j < k ==> (#[trigger] spec_all_builtins()[j]).spec_local_name()@ != b.spec_local_name()@;
    law_local_names_are_distinct(spec_all_builtins()[k], b);
}

/// The primitive of a primitive is itself.
proof fn lemma_primitive_of_primitive(p: Builtin)
    requires
        p.spec_is_primitive(),
    ensures
        p.spec_primitive() == Some(p),
{
}

/// `pattern`, `whiteSpace` and `assertion` may constrain every datatype.
pub proof fn law_universal_facets(b: Builtin, facet: FacetKind)
    requires
        facet == FacetKind::Pattern || facet == FacetKind::WhiteSpace || facet == FacetKind::Assertion,
    ensures
        b.spec_allows_facet(facet),
{
}

/// `enumeration` may constrain every datatype except `xs:boolean` and the
/// types derived from it.
pub proof fn law_enumeration_everywhere_but_boolean(b: Builtin)
    ensures
        b.spec_allows_facet(FacetKind::Enumeration) <==> b.spec_primitive() != Some(Builtin::Boolean),
{
    law_primitive_is_an_ancestor(b);
}

/// Which facets an atomic datatype takes depends on its primitive alone:
/// a derived type takes exactly the facets its primitive takes.
pub proof fn law_facets_follow_the_primitive(b: Builtin, facet: FacetKind)
    requires
        b.spec_primitive() is Some,
    ensures
        b.spec_allows_facet(facet) == b.spec_primitive().unwrap().spec_allows_facet(facet),
{
    law_primitive_is_an_ancestor(b);
    lemma_primitive_of_primitive(b.spec_primitive().unwrap());
}

/// `xs:boolean` takes only the facets every datatype takes.
pub proof fn law_boolean_takes_only_universal_facets(facet: FacetKind)
    ensures
        Builtin::Boolean.spec_allows_facet(facet) <==> (facet == FacetKind::Pattern || facet
            == FacetKind::WhiteSpace || facet == FacetKind::Assertion),
{
}

/// The length facets may constrain a list, and an atomic type only when
/// its primitive is one of the string-like ones: `string`, `hexBinary`,
/// `base64Binary`, `anyURI`, `QName` and `NOTATION`.
pub proof fn law_length_facets(b: Builtin, facet: FacetKind)
    requires
        facet == FacetKind::Length || facet == FacetKind::MinLength || facet == FacetKind::MaxLength,
        b.spec_kind() is List || b.spec_primitive() is Some,
    ensures
        b.spec_allows_facet(facet) <==> (b.spec_kind() is List || (b.spec_primitive() is Some && string_like(
            b.spec_primitive().unwrap(),
        ))),
{
    law_primitive_is_an_ancestor(b);
}

/// `totalDigits` may constrain an atomic type only when its primitive is
/// `decimal` or `precisionDecimal`.
pub proof fn law_digit_facets(b: Builtin)
    requires
        b.spec_primitive() is Some,
    ensures
        b.spec_allows_facet(FacetKind::TotalDigits) <==> (b.spec_primitive() == Some(Builtin::Decimal)
            || b.spec_primitive() == Some(Builtin::PrecisionDecimal)),
{
    law_primitive_is_an_ancestor(b);
}

/// Whether `p` is one of the string-like primitives, measured in
/// characters or octets: `string`, `hexBinary`, `base64Binary`, `anyURI`,
/// `QName` and `NOTATION`.
pub open spec fn string_like(p: Builtin) -> bool {
    p == Builtin::String || p == Builtin::HexBinary || p == Builtin::Base64Binary || p == Builtin::AnyUri
        || p == Builtin::QName || p == Builtin::Notation
}

/// Whether `p` is one of the primitives of dates and times: `dateTime`,
/// `time`, `date` and the five Gregorian fragments.
pub open spec fn calendar_primitive(p: Builtin) -> bool {
    p == Builtin::DateTime || p == Builtin::Time || p == Builtin::Date || p == Builtin::GYearMonth || p
        == Builtin::GYear || p == Builtin::GMonthDay || p == Builtin::GDay || p == Builtin::GMonth
}

/// The four bounds may constrain an atomic type exactly when its primitive
/// is ordered: neither `boolean` nor string-like.
pub proof fn law_bound_facets(b: Builtin, facet: FacetKind)
    requires
        facet.spec_is_bound(),
        b.spec_primitive() is Some,
    ensures
        b.spec_allows_facet(facet) <==> !(b.spec_primitive() == Some(Builtin::Boolean) || string_like(
            b.spec_primitive().unwrap(),
        )),
{
    law_primitive_is_an_ancestor(b);
}

/// `explicitTimezone` may constrain an atomic type exactly when its
/// primitive is one of dates and times; `fractionDigits` exactly when it is
/// `decimal`; `minScale` and `maxScale` exactly when it is
/// `precisionDecimal`.
pub proof fn law_family_facets(b: Builtin)
    requires
        b.spec_primitive() is Some,
    ensures
        b.spec_allows_facet(FacetKind::ExplicitTimezone) <==> calendar_primitive(b.spec_primitive().unwrap()),
        b.spec_allows_facet(FacetKind::FractionDigits) <==> b.spec_primitive() == Some(Builtin::Decimal),
        b.spec_allows_facet(FacetKind::MinScale) <==> b.spec_primitive() == Some(Builtin::PrecisionDecimal),
        b.spec_allows_facet(FacetKind::MaxScale) <==> b.spec_primitive() == Some(Builtin::PrecisionDecimal),
{
    law_primitive_is_an_ancestor(b);
}

/// A list type takes the facets that count or list its items, `pattern`,
/// `whiteSpace` and `assertion`, and no other.
pub proof fn law_list_facets(b: Builtin, facet: FacetKind)
    requires
        b.spec_kind() is List,
    ensures
        b.spec_allows_facet(facet) <==> (facet == FacetKind::Length || facet == FacetKind::MinLength || facet
            == FacetKind::MaxLength || facet == FacetKind::Enumeration || facet == FacetKind::Pattern || facet
            == FacetKind::WhiteSpace || facet == FacetKind::Assertion),
{
}

} // verus!
