//! `xs:key`, `xs:keyref` and `xs:unique` — the restricted XPath they use,
//! matched against a document as it streams past.
//!
//! # Why this XPath is not XPath
//!
//! Identity constraints do not take expressions. XSD Part 1 Appendix I
//! defines a deliberately tiny subset so that a validator needs no XPath
//! engine: an optional `.//` prefix, a sequence of child steps, and — for a
//! field only — an attribute as the final step.
//!
//! # Matching without a tree
//!
//! The validator never holds a document, so a path is matched against the
//! *stack* of open elements rather than against nodes. `.//` is the only
//! wildcard over depth, which is what keeps that a single index comparison
//! rather than a search.

use vstd::prelude::*;
use crate::atomic::{find_char, find_in, lemma_find_char};
use crate::names::{Interner, Namespace, QName, XML, ncname_chars, spec_is_ncname};
use crate::text::{
    chars_eq, has_prefix, lemma_trimmed_len, push_str, slice_chars, starts_with, str_chars,
    string_from_chars, trim_vec, trimmed,
};

verus! {

/// One step of a path: a name to match, or anything.
#[derive(Copy, Clone, PartialEq, Eq, Debug, Structural)]
pub enum Step {
    /// A named element, or `*` for any.
    Element(Option<QName>),
    /// `ns:*` — any name in one namespace.
    AnyIn(Option<Namespace>),
}

/// One alternative of a selector or field.
#[derive(Clone, PartialEq, Eq, Debug)]
pub struct Path {
    /// `.//` — the steps may start at any descendant depth rather than
    /// directly below the context node.
    pub descendant_or_self: bool,
    pub steps: Vec<Step>,
    /// A field may end at an attribute; a selector may not.
    pub attribute: Option<Option<QName>>,
}

/// A parsed selector or field: alternatives, tried in turn.
#[derive(Clone, PartialEq, Eq, Debug)]
pub struct Paths(pub Vec<Path>);

impl Step {
    pub open spec fn spec_matches(self, name: QName) -> bool {
        match self {
            Step::Element(None) => true,
            Step::Element(Some(q)) => q == name,
            Step::AnyIn(ns) => name.ns == ns,
        }
    }

    pub fn matches(&self, name: QName) -> (r: bool)
        ensures
            r == self.spec_matches(name),
    {
        match self {
            Step::Element(None) => true,
            Step::Element(Some(q)) => *q == name,
            Step::AnyIn(ns) => match (name.ns, *ns) {
                (None, None) => true,
                (Some(a), Some(b)) => a == b,
                _ => false,
            },
        }
    }
}

/// Whether `steps` spell `names` exactly, step by step.
pub open spec fn steps_spell(steps: Seq<Step>, names: Seq<QName>) -> bool {
    steps.len() == names.len() && forall|i: int| 0 <= i < steps.len() ==> (#[trigger] steps[i]).spec_matches(names[i])
}

impl Path {
    /// Whether the element names below the context node spell this path:
    /// all of them without `.//`, their tail with it.
    pub open spec fn spec_matches(&self, names: Seq<QName>) -> bool {
        if self.steps@.len() > names.len() {
            false
        } else if self.descendant_or_self {
            steps_spell(self.steps@, names.skip(names.len() - self.steps@.len()))
        } else {
            steps_spell(self.steps@, names)
        }
    }

    /// Whether `names`, the element names below the context node, spell this
    /// path exactly.
    ///
    /// With `.//` the steps may begin at any depth, so this asks whether they
    /// match the *tail*; without it they must start immediately below.
    pub fn matches(&self, names: &[QName]) -> (r: bool)
        ensures
            r == self.spec_matches(names@),
    {
        let n = self.steps.len();
        let m = names.len();
        if n > m {
            return false;
        }
        let start = if self.descendant_or_self {
            names.len() - n
        } else if n == names.len() {
            0
        } else {
            return false;
        };
        let ghost tail = names@.skip(start as int);
        assert(tail.len() == n);
        let mut i: usize = 0;
        while i < n
            invariant
                n == self.steps@.len(),
                m == names@.len(),
                start + n == m,
                tail == names@.skip(start as int),
                i <= n,
                forall|j: int| 0 <= j < i ==> (#[trigger] self.steps@[j]).spec_matches(tail[j]),
            decreases n - i,
        {
            if !self.steps[i].matches(names[start + i]) {
                assert(!steps_spell(self.steps@, tail)) by {
                    assert(!self.steps@[i as int].spec_matches(tail[i as int]));
                }
                assert(names@.skip(0) =~= names@);
                return false;
            }
            i += 1;
        }
        assert(names@.skip(0) =~= names@);
        true
    }
}

impl Paths {
    /// Whether any alternative matches.
    pub fn matches(&self, names: &[QName]) -> (r: bool)
        ensures
            r == exists|i: int| 0 <= i < self.0@.len() && (#[trigger] self.0@[i]).spec_matches(names@),
    {
        let mut i: usize = 0;
        while i < self.0.len()
            invariant
                i <= self.0@.len(),
                forall|j: int| 0 <= j < i ==> !(#[trigger] self.0@[j]).spec_matches(names@),
            decreases self.0.len() - i,
        {
            if self.0[i].matches(names) {
                return true;
            }
            i += 1;
        }
        false
    }

    /// The attribute an alternative would select, when its element steps
    /// match: the first alternative ending in an attribute whose steps reach
    /// the node `names` spells.
    pub fn attribute_for(&self, names: &[QName]) -> (r: Option<Option<QName>>)
        ensures
            match r {
                Some(a) => exists|i: int|
                    0 <= i < self.0@.len() && (#[trigger] self.0@[i]).attribute == Some(a) && self.0@[i].spec_matches(
                        names@,
                    ) && forall|j: int|
                        0 <= j < i ==> !((#[trigger] self.0@[j]).attribute is Some && self.0@[j].spec_matches(
                            names@,
                        )),
                None => forall|j: int|
                    0 <= j < self.0@.len() ==> !((#[trigger] self.0@[j]).attribute is Some
                        && self.0@[j].spec_matches(names@)),
            },
    {
        let mut i: usize = 0;
        while i < self.0.len()
            invariant
                i <= self.0@.len(),
                forall|j: int|
                    0 <= j < i ==> !((#[trigger] self.0@[j]).attribute is Some && self.0@[j].spec_matches(names@)),
            decreases self.0.len() - i,
        {
            let p = &self.0[i];
            match p.attribute {
                Some(a) => {
                    if p.matches(names) {
                        return Some(a);
                    }
                },
                None => {},
            }
            i += 1;
        }
        None
    }
}

// ---------------------------------------------------------------------------
// Reading a selector or field
// ---------------------------------------------------------------------------

/// Why a selector or field did not parse.
#[derive(Copy, Clone, PartialEq, Eq, Debug, Structural)]
pub enum PathFault {
    /// An alternative with nothing in it.
    EmptyPath,
    /// `.//` with no step after it.
    NoStepAfterDescendant,
    /// Two slashes with nothing between them, or a trailing one.
    EmptyStep,
    /// A selector ending in an attribute.
    AttributeInSelector,
    /// An attribute step before the last step.
    AttributeNotLast,
    /// A name test that is neither `*`, `p:*` nor a QName.
    NotAName,
    /// A prefix the schema document does not bind.
    UndeclaredPrefix,
}

/// What went wrong, for a diagnostic that quotes the offending text.
#[derive(Debug)]
pub struct PathError {
    pub fault: PathFault,
    pub reason: String,
}

fn path_error(fault: PathFault, parts: &[&str]) -> (e: PathError)
    ensures
        e.fault == fault,
{
    let mut v: Vec<char> = Vec::new();
    let mut i: usize = 0;
    while i < parts.len()
        decreases parts.len() - i,
    {
        push_str(&mut v, parts[i]);
        i += 1;
    }
    PathError { fault, reason: string_from_chars(&v) }
}

/// A name as written: its namespace URI, if it has one, and its local part.
pub type NameText = (Option<Seq<char>>, Seq<char>);

/// A step as written, its prefix resolved to a URI.
pub enum StepText {
    Element(Option<NameText>),
    AnyIn(Option<Seq<char>>),
}

/// An alternative as written, its prefixes resolved to URIs.
pub struct PathText {
    pub descendant_or_self: bool,
    pub steps: Seq<StepText>,
    pub attribute: Option<Option<NameText>>,
}

/// The URI the first binding of `prefix` names.
pub open spec fn bound_uri(b: Seq<(String, String)>, prefix: Seq<char>) -> Option<Seq<char>>
    decreases b.len(),
{
    if b.len() == 0 {
        None
    } else if b[0].0@ == prefix {
        Some(b[0].1@)
    } else {
        bound_uri(b.drop_first(), prefix)
    }
}

/// The URI `prefix` names: `xml` is bound in every document, the rest by the
/// declarations in scope, the innermost first.
pub open spec fn prefix_uri(b: Seq<(String, String)>, prefix: Seq<char>) -> Option<Seq<char>> {
    if prefix == "xml"@ {
        Some(XML@)
    } else {
        bound_uri(b, prefix)
    }
}

/// A name test, `*`, `p:*` or a QName, read after trimming: the name, and for
/// `p:*` the namespace it wildcards over.
///
/// An unprefixed name is in no namespace, whatever the default declaration
/// says: the specification is explicit about it.
pub open spec fn spec_name_test(t0: Seq<char>, b: Seq<(String, String)>) -> Result<
    (Option<NameText>, Option<Option<Seq<char>>>),
    PathFault,
> {
    let t = trimmed(t0);
    if t == "*"@ {
        Ok((None, None))
    } else {
        let i = find_char(t, ':');
        let local = if i < t.len() {
            t.skip(i + 1)
        } else {
            t
        };
        let ns: Result<Option<Seq<char>>, PathFault> = if i < t.len() {
            match prefix_uri(b, t.take(i)) {
                Some(u) => Ok(Some(u)),
                None => Err(PathFault::UndeclaredPrefix),
            }
        } else {
            Ok(None)
        };
        if local == "*"@ {
            match ns {
                Err(e) => Err(e),
                Ok(n) => Ok((None, Some(n))),
            }
        } else if !spec_is_ncname(local) {
            Err(PathFault::NotAName)
        } else {
            match ns {
                Err(e) => Err(e),
                Ok(n) => Ok((Some((n, local)), None)),
            }
        }
    }
}

/// The name an attribute step tests, if `part` is one.
pub open spec fn attribute_body(part: Seq<char>) -> Option<Seq<char>> {
    if part.len() > 0 && part[0] == '@' {
        Some(part.skip(1))
    } else if starts_with(part, "attribute::"@) {
        Some(part.skip("attribute::"@.len() as int))
    } else {
        None
    }
}

/// The name test of an element step.
pub open spec fn child_body(part: Seq<char>) -> Seq<char> {
    if starts_with(part, "child::"@) {
        part.skip("child::"@.len() as int)
    } else {
        part
    }
}

/// The steps of `t`, separated by `/`, and the attribute that may end them.
/// `.` is the context node and adds no step.
pub open spec fn spec_steps(t: Seq<char>, is_field: bool, b: Seq<(String, String)>) -> Result<
    (Seq<StepText>, Option<Option<NameText>>),
    PathFault,
>
    decreases t.len(),
{
    let i = find_char(t, '/');
    let last = !(i < t.len());
    let part = trimmed(t.take(i));
    if part.len() == 0 {
        Err(PathFault::EmptyStep)
    } else if part == "."@ {
        if last || i < 0 {
            Ok((Seq::empty(), None))
        } else {
            spec_steps(t.skip(i + 1), is_field, b)
        }
    } else {
        match attribute_body(part) {
            Some(body) => if !is_field {
                Err(PathFault::AttributeInSelector)
            } else if !last {
                Err(PathFault::AttributeNotLast)
            } else {
                match spec_name_test(body, b) {
                    Err(e) => Err(e),
                    Ok((n, _)) => Ok((Seq::empty(), Some(n))),
                }
            },
            None => match spec_name_test(child_body(part), b) {
                Err(e) => Err(e),
                Ok((n, any)) => {
                    let st = match any {
                        Some(ns) => StepText::AnyIn(ns),
                        None => StepText::Element(n),
                    };
                    if last || i < 0 {
                        Ok((seq![st], None))
                    } else {
                        match spec_steps(t.skip(i + 1), is_field, b) {
                            Err(e) => Err(e),
                            Ok((ss, a)) => Ok((seq![st] + ss, a)),
                        }
                    }
                },
            },
        }
    }
}

/// One alternative of a selector or field, already trimmed.
pub open spec fn spec_parse_one(t: Seq<char>, is_field: bool, b: Seq<(String, String)>) -> Result<
    PathText,
    PathFault,
> {
    if t.len() == 0 {
        Err(PathFault::EmptyPath)
    } else {
        let d = starts_with(t, ".//"@);
        let rest = if d {
            t.skip(".//"@.len() as int)
        } else {
            t
        };
        if rest.len() == 0 {
            Err(PathFault::NoStepAfterDescendant)
        } else {
            match spec_steps(rest, is_field, b) {
                Err(e) => Err(e),
                Ok((ss, a)) => Ok(PathText { descendant_or_self: d, steps: ss, attribute: a }),
            }
        }
    }
}

/// A selector or field: its alternatives, separated by `|`, each trimmed.
pub open spec fn spec_parse(t: Seq<char>, is_field: bool, b: Seq<(String, String)>) -> Result<
    Seq<PathText>,
    PathFault,
>
    decreases t.len(),
{
    let i = find_char(t, '|');
    match spec_parse_one(trimmed(t.take(i)), is_field, b) {
        Err(e) => Err(e),
        Ok(p) => if !(i < t.len()) || i < 0 {
            Ok(seq![p])
        } else {
            match spec_parse(t.skip(i + 1), is_field, b) {
                Err(e) => Err(e),
                Ok(ps) => Ok(seq![p] + ps),
            }
        },
    }
}

/// Whether `n` is the namespace `u`, as `st` holds the interned strings.
pub open spec fn ns_denotes(n: Option<Namespace>, u: Option<Seq<char>>, st: Seq<Seq<char>>) -> bool {
    match (n, u) {
        (None, None) => true,
        (Some(a), Some(x)) => a@ < st.len() && st[a@ as int] == x,
        _ => false,
    }
}

/// Whether `q` is the name `t`.
pub open spec fn name_denotes(q: Option<QName>, t: Option<NameText>, st: Seq<Seq<char>>) -> bool {
    match (q, t) {
        (None, None) => true,
        (Some(a), Some(x)) => ns_denotes(a.ns, x.0, st) && a.local@ < st.len() && st[a.local@ as int]
            == x.1,
        _ => false,
    }
}

/// Whether the step `s` is the step `t`.
pub open spec fn step_denotes(s: Step, t: StepText, st: Seq<Seq<char>>) -> bool {
    match (s, t) {
        (Step::Element(q), StepText::Element(n)) => name_denotes(q, n, st),
        (Step::AnyIn(n), StepText::AnyIn(u)) => ns_denotes(n, u, st),
        _ => false,
    }
}

/// Whether the steps `ss` are the steps `ts`.
pub open spec fn steps_denote(ss: Seq<Step>, ts: Seq<StepText>, st: Seq<Seq<char>>) -> bool {
    ss.len() == ts.len() && forall|i: int| 0 <= i < ss.len() ==> step_denotes(#[trigger] ss[i], ts[i], st)
}

/// Whether the attribute test `a` is `t`.
pub open spec fn attribute_denotes(a: Option<Option<QName>>, t: Option<Option<NameText>>, st: Seq<Seq<char>>) -> bool {
    match (a, t) {
        (None, None) => true,
        (Some(x), Some(y)) => name_denotes(x, y, st),
        _ => false,
    }
}

/// Whether the alternative `p` is `t`.
pub open spec fn path_denotes(p: Path, t: PathText, st: Seq<Seq<char>>) -> bool {
    &&& p.descendant_or_self == t.descendant_or_self
    &&& steps_denote(p.steps@, t.steps, st)
    &&& attribute_denotes(p.attribute, t.attribute, st)
}

/// Whether the alternatives `ps` are `ts`.
pub open spec fn paths_denote(ps: Seq<Path>, ts: Seq<PathText>, st: Seq<Seq<char>>) -> bool {
    ps.len() == ts.len() && forall|i: int| 0 <= i < ps.len() ==> path_denotes(#[trigger] ps[i], ts[i], st)
}

/// Names resolved under a list of strings stay resolved as the list grows.
pub proof fn lemma_denotes_grows(ps: Seq<Path>, ts: Seq<PathText>, st: Seq<Seq<char>>, st2: Seq<Seq<char>>)
    requires
        paths_denote(ps, ts, st),
        st.is_prefix_of(st2),
    ensures
        paths_denote(ps, ts, st2),
{
    assert forall|i: int| 0 <= i < ps.len() implies path_denotes(#[trigger] ps[i], ts[i], st2) by {
        lemma_path_denotes_grows(ps[i], ts[i], st, st2);
    }
}

proof fn lemma_path_denotes_grows(p: Path, t: PathText, st: Seq<Seq<char>>, st2: Seq<Seq<char>>)
    requires
        path_denotes(p, t, st),
        st.is_prefix_of(st2),
    ensures
        path_denotes(p, t, st2),
{
    lemma_steps_denote_grows(p.steps@, t.steps, st, st2);
    assert(attribute_denotes(p.attribute, t.attribute, st2));
}

proof fn lemma_steps_denote_grows(ss: Seq<Step>, ts: Seq<StepText>, st: Seq<Seq<char>>, st2: Seq<Seq<char>>)
    requires
        steps_denote(ss, ts, st),
        st.is_prefix_of(st2),
    ensures
        steps_denote(ss, ts, st2),
{
    assert forall|i: int| 0 <= i < ss.len() implies step_denotes(#[trigger] ss[i], ts[i], st2) by {
        assert(step_denotes(ss[i], ts[i], st));
    }
}

/// The URI `prefix` names among `b` and the `xml` binding.
fn lookup_prefix<'a>(b: &'a [(String, String)], prefix: &Vec<char>) -> (r: Option<&'a str>)
    ensures
        match r {
            Some(u) => prefix_uri(b@, prefix@) == Some(u@),
            None => prefix_uri(b@, prefix@) is None,
        },
{
    if chars_eq(prefix, &str_chars("xml")) {
        return Some(XML);
    }
    let mut i: usize = 0;
    assert(b@.skip(0) =~= b@);
    while i < b.len()
        invariant
            i <= b@.len(),
            prefix@ != "xml"@,
            bound_uri(b@, prefix@) == bound_uri(b@.skip(i as int), prefix@),
        decreases b.len() - i,
    {
        let entry = &b[i];
        if chars_eq(&str_chars(entry.0.as_str()), prefix) {
            assert(b@.skip(i as int)[0] == b@[i as int]);
            return Some(entry.1.as_str());
        }
        assert(b@.skip(i as int).drop_first() =~= b@.skip(i + 1));
        i += 1;
    }
    None
}

/// The namespace `prefix` names, interned, or the error that it is unbound.
fn resolve_prefix(b: &[(String, String)], prefix: &Vec<char>, names: &mut Interner) -> (r: Result<
    Namespace,
    PathError,
>)
    requires
        old(names).wf(),
        old(names)@.len() <= u32::MAX,
    ensures
        final(names).wf(),
        old(names)@.is_prefix_of(final(names)@),
        final(names)@.len() <= old(names)@.len() + 1,
        match r {
            Ok(ns) => ns@ < final(names)@.len() && prefix_uri(b@, prefix@) == Some(
                final(names)@[ns@ as int],
            ),
            Err(e) => prefix_uri(b@, prefix@) is None && e.fault == PathFault::UndeclaredPrefix,
        },
{
    match lookup_prefix(b, prefix) {
        Some(u) => {
            let ns = names.namespace(u);
            Ok(ns)
        },
        None => {
            let p = string_from_chars(prefix);
            Err(path_error(PathFault::UndeclaredPrefix, &["undeclared prefix `", p.as_str(), "`"]))
        },
    }
}

/// Reads a name test, interning the names it holds.
fn name_test(t0: &Vec<char>, b: &[(String, String)], names: &mut Interner) -> (r: Result<
    (Option<QName>, Option<Option<Namespace>>),
    PathError,
>)
    requires
        old(names).wf(),
        old(names)@.len() + t0@.len() <= u32::MAX + 1,
    ensures
        final(names).wf(),
        old(names)@.is_prefix_of(final(names)@),
        final(names)@.len() <= old(names)@.len() + t0@.len(),
        match (r, spec_name_test(t0@, b@)) {
            (Ok((q, a)), Ok((qt, at))) => name_denotes(q, qt, final(names)@) && match (a, at) {
                (None, None) => true,
                (Some(x), Some(y)) => ns_denotes(x, y, final(names)@),
                _ => false,
            },
            (Err(e), Err(f)) => e.fault == f,
            _ => false,
        },
{
    let t = trim_vec(t0);
    proof {
        lemma_trimmed_len(t0@);
    }
    if chars_eq(&t, &str_chars("*")) {
        return Ok((None, None));
    }
    let i = find_in(&t, 0, t.len(), ':');
    assert(t@.subrange(0, t@.len() as int) =~= t@);
    proof {
        lemma_find_char(t@, ':');
    }
    let prefixed = i < t.len();
    let local = if prefixed {
        slice_chars(&t, i + 1, t.len())
    } else {
        slice_chars(&t, 0, t.len())
    };
    assert(prefixed ==> local@ =~= t@.skip(i + 1));
    assert(!prefixed ==> local@ =~= t@);
    if chars_eq(&local, &str_chars("*")) {
        if prefixed {
            let p = slice_chars(&t, 0, i);
            assert(p@ =~= t@.take(i as int));
            let ns = resolve_prefix(b, &p, names)?;
            return Ok((None, Some(Some(ns))));
        }
        return Ok((None, Some(None)));
    }
    if !ncname_chars(&local) {
        let whole = string_from_chars(&t);
        return Err(path_error(PathFault::NotAName, &["`", whole.as_str(), "` is not a name"]));
    }
    let ns = if prefixed {
        let p = slice_chars(&t, 0, i);
        assert(p@ =~= t@.take(i as int));
        Some(resolve_prefix(b, &p, names)?)
    } else {
        None
    };
    let ghost mid = names@;
    let l = string_from_chars(&local);
    let sym = names.intern(l.as_str());
    Ok((Some(QName::new(ns, sym)), None))
}

/// The steps of `c[lo..]`, and the attribute that may end them.
fn steps_from(
    c: &Vec<char>,
    lo: usize,
    is_field: bool,
    b: &[(String, String)],
    names: &mut Interner,
) -> (r: Result<(Vec<Step>, Option<Option<QName>>), PathError>)
    requires
        lo <= c@.len(),
        old(names).wf(),
        old(names)@.len() + (c@.len() - lo) <= u32::MAX + 1,
    ensures
        final(names).wf(),
        old(names)@.is_prefix_of(final(names)@),
        final(names)@.len() <= old(names)@.len() + (c@.len() - lo),
        match (r, spec_steps(c@.skip(lo as int), is_field, b@)) {
            (Ok((ss, a)), Ok((ts, at))) => steps_denote(ss@, ts, final(names)@) && attribute_denotes(
                a,
                at,
                final(names)@,
            ),
            (Err(e), Err(f)) => e.fault == f,
            _ => false,
        },
    decreases c@.len() - lo,
{
    let ghost t = c@.skip(lo as int);
    let j = find_in(c, lo, c.len(), '/');
    assert(c@.subrange(lo as int, c@.len() as int) =~= t);
    proof {
        lemma_find_char(t, '/');
    }
    let last = j >= c.len();
    let raw = slice_chars(c, lo, j);
    assert(raw@ =~= t.take(j - lo));
    let part = trim_vec(&raw);
    proof {
        lemma_trimmed_len(raw@);
    }
    if part.len() == 0 {
        return Err(path_error(PathFault::EmptyStep, &["an empty step"]));
    }
    if chars_eq(&part, &str_chars(".")) {
        if last {
            return Ok((Vec::new(), None));
        }
        assert(c@.skip(j + 1) =~= t.skip(j - lo + 1));
        return steps_from(c, j + 1, is_field, b, names);
    }
    let at_sign = part[0] == '@';
    if at_sign || has_prefix(&part, "attribute::") {
        if !is_field {
            return Err(path_error(PathFault::AttributeInSelector, &["a selector may not select an attribute"]));
        }
        if !last {
            return Err(path_error(PathFault::AttributeNotLast, &["an attribute can only be the last step"]));
        }
        let body = if at_sign {
            slice_chars(&part, 1, part.len())
        } else {
            let kw = str_chars("attribute::");
            slice_chars(&part, kw.len(), part.len())
        };
        assert(attribute_body(part@) == Some(body@));
        let (n, _) = name_test(&body, b, names)?;
        return Ok((Vec::new(), Some(n)));
    }
    let body = if has_prefix(&part, "child::") {
        let kw = str_chars("child::");
        slice_chars(&part, kw.len(), part.len())
    } else {
        slice_chars(&part, 0, part.len())
    };
    assert(body@ =~= child_body(part@));
    let (n, any) = name_test(&body, b, names)?;
    let st = match any {
        Some(ns) => Step::AnyIn(ns),
        None => Step::Element(n),
    };
    let mut v: Vec<Step> = Vec::new();
    v.push(st);
    if last {
        return Ok((v, None));
    }
    let ghost mid = names@;
    assert(c@.skip(j + 1) =~= t.skip(j - lo + 1));
    let (mut rest, a) = steps_from(c, j + 1, is_field, b, names)?;
    let ghost tail = rest@;
    v.append(&mut rest);
    proof {
        match spec_steps(c@.skip(j + 1), is_field, b@) {
            Ok((ts, _)) => {
                match spec_name_test(child_body(part@), b@) {
                    Ok((nt, at)) => {
                        let stt = match at {
                            Some(ns) => StepText::AnyIn(ns),
                            None => StepText::Element(nt),
                        };
                        assert(step_denotes(st, stt, mid));
                        assert(step_denotes(st, stt, names@));
                        assert(steps_denote(v@, seq![stt] + ts, names@)) by {
                            assert forall|k: int| 0 <= k < v@.len() implies step_denotes(
                                #[trigger] v@[k],
                                (seq![stt] + ts)[k],
                                names@,
                            ) by {
                                if k > 0 {
                                    assert(v@[k] == tail[k - 1]);
                                }
                            }
                        }
                    },
                    _ => {},
                }
            },
            _ => {},
        }
    }
    Ok((v, a))
}

/// One alternative, already trimmed.
fn parse_one(t: &Vec<char>, is_field: bool, b: &[(String, String)], names: &mut Interner) -> (r: Result<
    Path,
    PathError,
>)
    requires
        old(names).wf(),
        old(names)@.len() + t@.len() <= u32::MAX + 1,
    ensures
        final(names).wf(),
        old(names)@.is_prefix_of(final(names)@),
        final(names)@.len() <= old(names)@.len() + t@.len(),
        match (r, spec_parse_one(t@, is_field, b@)) {
            (Ok(p), Ok(pt)) => path_denotes(p, pt, final(names)@),
            (Err(e), Err(f)) => e.fault == f,
            _ => false,
        },
{
    if t.len() == 0 {
        return Err(path_error(PathFault::EmptyPath, &["empty path"]));
    }
    let d = has_prefix(t, ".//");
    let lo: usize = if d {
        str_chars(".//").len()
    } else {
        0
    };
    assert(t@.skip(0) =~= t@);
    if lo == t.len() {
        return Err(path_error(PathFault::NoStepAfterDescendant, &["`.//` needs a step after it"]));
    }
    let (steps, attribute) = steps_from(t, lo, is_field, b, names)?;
    Ok(Path { descendant_or_self: d, steps, attribute })
}

/// The alternatives of `c[lo..]`.
fn parse_from(
    c: &Vec<char>,
    lo: usize,
    is_field: bool,
    b: &[(String, String)],
    names: &mut Interner,
) -> (r: Result<Vec<Path>, PathError>)
    requires
        lo <= c@.len(),
        old(names).wf(),
        old(names)@.len() + (c@.len() - lo) <= u32::MAX + 1,
    ensures
        final(names).wf(),
        old(names)@.is_prefix_of(final(names)@),
        final(names)@.len() <= old(names)@.len() + (c@.len() - lo),
        match (r, spec_parse(c@.skip(lo as int), is_field, b@)) {
            (Ok(ps), Ok(ts)) => paths_denote(ps@, ts, final(names)@),
            (Err(e), Err(f)) => e.fault == f,
            _ => false,
        },
    decreases c@.len() - lo,
{
    let ghost t = c@.skip(lo as int);
    let j = find_in(c, lo, c.len(), '|');
    assert(c@.subrange(lo as int, c@.len() as int) =~= t);
    proof {
        lemma_find_char(t, '|');
    }
    let raw = slice_chars(c, lo, j);
    assert(raw@ =~= t.take(j - lo));
    let alt = trim_vec(&raw);
    proof {
        lemma_trimmed_len(raw@);
    }
    let p = parse_one(&alt, is_field, b, names)?;
    let mut v: Vec<Path> = Vec::new();
    v.push(p);
    if j >= c.len() {
        return Ok(v);
    }
    let ghost mid = names@;
    let ghost first = v@[0];
    assert(c@.skip(j + 1) =~= t.skip(j - lo + 1));
    let mut rest = parse_from(c, j + 1, is_field, b, names)?;
    let ghost tail = rest@;
    v.append(&mut rest);
    proof {
        match (spec_parse_one(alt@, is_field, b@), spec_parse(c@.skip(j + 1), is_field, b@)) {
            (Ok(pt), Ok(ts)) => {
                lemma_path_denotes_grows(first, pt, mid, names@);
                assert forall|k: int| 0 <= k < v@.len() implies path_denotes(
                    #[trigger] v@[k],
                    (seq![pt] + ts)[k],
                    names@,
                ) by {
                    if k > 0 {
                        assert(v@[k] == tail[k - 1]);
                    }
                }
            },
            _ => {},
        }
    }
    Ok(v)
}

/// Parses a selector or field, resolving prefixes through `bindings` (the
/// prefixes declared where the constraint stands, innermost first) and
/// interning its names.
///
/// An unprefixed name is in no namespace, whatever the default declaration
/// says. `.` adds no step, so `a/./b` is `a/b`.
pub fn parse(text: &str, is_field: bool, bindings: &[(String, String)], names: &mut Interner) -> (r: Result<
    Paths,
    PathError,
>)
    requires
        old(names).wf(),
        old(names)@.len() + text@.len() <= u32::MAX + 1,
    ensures
        final(names).wf(),
        old(names)@.is_prefix_of(final(names)@),
        match (r, spec_parse(text@, is_field, bindings@)) {
            (Ok(ps), Ok(ts)) => paths_denote(ps.0@, ts, final(names)@),
            (Err(e), Err(f)) => e.fault == f,
            _ => false,
        },
{
    let c = str_chars(text);
    assert(c@.skip(0) =~= c@);
    let ps = parse_from(&c, 0, is_field, bindings, names)?;
    Ok(Paths(ps))
}

} // verus!
