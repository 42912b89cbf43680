//! The schema component model — the product of this crate.
//!
//! XSD is three languages: schema *documents*, schema *components*, and
//! validation *semantics* over those components. This module is the middle
//! layer, which the specification defines all its semantics against.
//!
//! # Why arenas
//!
//! Schemas are cyclic graphs: a complex type owns a particle referencing an
//! element declared with that same type. Instead of shared pointers every
//! component lives in an [`Arena`] and is named by a 4-byte `Copy` index.

use vstd::prelude::*;
use crate::datatypes::{Builtin, FacetSet, Variety};
use crate::diagnostics::Span;
use crate::names::{Namespace, QName};
use crate::text::{is_unicode_ws, push_str, str_chars, string_from_chars, unicode_ws};

verus! {

/// A typed, append-only store of one kind of component.
#[derive(Clone, Debug)]
pub struct Arena<T> {
    items: Vec<T>,
}

impl<T> View for Arena<T> {
    type V = Seq<T>;

    closed spec fn view(&self) -> Seq<T> {
        self.items@
    }
}

impl<T> Default for Arena<T> {
    fn default() -> (r: Arena<T>)
        ensures
            r@ == Seq::<T>::empty(),
    {
        Arena { items: Vec::new() }
    }
}

impl<T> Arena<T> {
    pub fn new() -> (r: Arena<T>)
        ensures
            r@ == Seq::<T>::empty(),
    {
        Arena { items: Vec::new() }
    }

    pub fn len(&self) -> (r: usize)
        ensures
            r == self@.len(),
    {
        self.items.len()
    }

    pub fn is_empty(&self) -> (r: bool)
        ensures
            r == (self@.len() == 0),
    {
        self.items.len() == 0
    }

    /// Every component, in the order they were added.
    pub fn iter(&self) -> (r: &[T])
        ensures
            r@ == self@,
    {
        self.items.as_slice()
    }

    /// Adds a component, returning the index it is found at.
    pub fn push(&mut self, item: T) -> (r: u32)
        requires
            old(self)@.len() <= u32::MAX,
        ensures
            r == old(self)@.len(),
            final(self)@ == old(self)@.push(item),
    {
        let id = self.items.len() as u32;
        self.items.push(item);
        id
    }

    /// The component at slot `i`.
    pub fn at(&self, i: usize) -> (r: &T)
        requires
            i < self@.len(),
        ensures
            *r == self@[i as int],
    {
        &self.items[i]
    }

    /// The component at slot `i`, to change in place.
    pub fn get_mut(&mut self, i: usize) -> (r: &mut T)
        requires
            i < old(self)@.len(),
        ensures
            *r == old(self)@[i as int],
            final(self)@ == old(self)@.update(i as int, *final(r)),
    {
        &mut self.items[i]
    }

    pub fn get(&self, i: u32) -> (r: &T)
        requires
            i < self@.len(),
        ensures
            *r == self@[i as int],
    {
        &self.items[i as usize]
    }
}

/// A simple or complex type definition.
#[derive(Copy, Clone, PartialEq, Eq, Hash, PartialOrd, Ord, Debug, Structural)]
pub struct TypeId(pub(crate) u32);

impl View for TypeId {
    type V = nat;

    closed spec fn view(&self) -> nat {
        self.0 as nat
    }
}

impl TypeId {
    /// Stands in for a reference not yet resolved: the largest index.
    pub fn placeholder() -> (r: TypeId)
        ensures
            r@ == u32::MAX,
    {
        TypeId(u32::MAX)
    }

    pub fn is_placeholder(self) -> (r: bool)
        ensures
            r == (self@ == u32::MAX),
    {
        self.0 == u32::MAX
    }

    /// The slot of the arena this id names.
    pub fn index(self) -> (r: usize)
        ensures
            r == self@,
    {
        self.0 as usize
    }

    /// The id of arena slot `i`.
    pub fn from_index(i: usize) -> (r: TypeId)
        requires
            i <= u32::MAX,
        ensures
            r@ == i,
    {
        TypeId(i as u32)
    }
}

/// An element declaration, global or local.
#[derive(Copy, Clone, PartialEq, Eq, Hash, PartialOrd, Ord, Debug, Structural)]
pub struct ElementId(pub(crate) u32);

impl View for ElementId {
    type V = nat;

    closed spec fn view(&self) -> nat {
        self.0 as nat
    }
}

impl ElementId {
    /// Stands in for a reference not yet resolved: the largest index.
    pub fn placeholder() -> (r: ElementId)
        ensures
            r@ == u32::MAX,
    {
        ElementId(u32::MAX)
    }

    pub fn is_placeholder(self) -> (r: bool)
        ensures
            r == (self@ == u32::MAX),
    {
        self.0 == u32::MAX
    }

    /// The slot of the arena this id names.
    pub fn index(self) -> (r: usize)
        ensures
            r == self@,
    {
        self.0 as usize
    }

    /// The id of arena slot `i`.
    pub fn from_index(i: usize) -> (r: ElementId)
        requires
            i <= u32::MAX,
        ensures
            r@ == i,
    {
        ElementId(i as u32)
    }
}

/// An element id is its slot: two ids with one slot are one id.
pub proof fn lemma_element_id_view(a: ElementId, b: ElementId)
    requires
        a@ == b@,
    ensures
        a == b,
{
}

/// A type id is its slot: two ids with one slot are one id.
/// There is a type id for every slot that fits in 32 bits.
pub proof fn type_id_at(i: nat) -> (t: TypeId)
    requires
        i <= u32::MAX,
    ensures
        t@ == i,
{
    TypeId(i as u32)
}

pub proof fn lemma_type_id_view(a: TypeId, b: TypeId)
    requires
        a@ == b@,
    ensures
        a == b,
{
}

/// An attribute group id is its slot: two ids with one slot are one id.
/// There is an attribute group id for every slot that fits in 32 bits.
pub proof fn attr_group_id_at(i: nat) -> (g: AttrGroupId)
    requires
        i <= u32::MAX,
    ensures
        g@ == i,
{
    AttrGroupId(i as u32)
}

pub proof fn lemma_attr_group_id_view(a: AttrGroupId, b: AttrGroupId)
    requires
        a@ == b@,
    ensures
        a == b,
{
}

/// An attribute declaration, global or local.
#[derive(Copy, Clone, PartialEq, Eq, Hash, PartialOrd, Ord, Debug, Structural)]
pub struct AttributeId(pub(crate) u32);

impl View for AttributeId {
    type V = nat;

    closed spec fn view(&self) -> nat {
        self.0 as nat
    }
}

impl AttributeId {
    /// Stands in for a reference not yet resolved: the largest index.
    pub fn placeholder() -> (r: AttributeId)
        ensures
            r@ == u32::MAX,
    {
        AttributeId(u32::MAX)
    }

    pub fn is_placeholder(self) -> (r: bool)
        ensures
            r == (self@ == u32::MAX),
    {
        self.0 == u32::MAX
    }

    /// The slot of the arena this id names.
    pub fn index(self) -> (r: usize)
        ensures
            r == self@,
    {
        self.0 as usize
    }

    /// The id of arena slot `i`.
    pub fn from_index(i: usize) -> (r: AttributeId)
        requires
            i <= u32::MAX,
        ensures
            r@ == i,
    {
        AttributeId(i as u32)
    }
}

/// A particle: an occurrence range around a term.
#[derive(Copy, Clone, PartialEq, Eq, Hash, PartialOrd, Ord, Debug, Structural)]
pub struct ParticleId(pub(crate) u32);

impl View for ParticleId {
    type V = nat;

    closed spec fn view(&self) -> nat {
        self.0 as nat
    }
}

impl ParticleId {
    /// Stands in for a reference not yet resolved: the largest index.
    pub fn placeholder() -> (r: ParticleId)
        ensures
            r@ == u32::MAX,
    {
        ParticleId(u32::MAX)
    }

    pub fn is_placeholder(self) -> (r: bool)
        ensures
            r == (self@ == u32::MAX),
    {
        self.0 == u32::MAX
    }

    /// The slot of the arena this id names.
    pub fn index(self) -> (r: usize)
        ensures
            r == self@,
    {
        self.0 as usize
    }

    /// The id of arena slot `i`.
    pub fn from_index(i: usize) -> (r: ParticleId)
        requires
            i <= u32::MAX,
        ensures
            r@ == i,
    {
        ParticleId(i as u32)
    }
}

/// A named model group definition (`xs:group`).
#[derive(Copy, Clone, PartialEq, Eq, Hash, PartialOrd, Ord, Debug, Structural)]
pub struct GroupId(pub(crate) u32);

impl View for GroupId {
    type V = nat;

    closed spec fn view(&self) -> nat {
        self.0 as nat
    }
}

impl GroupId {
    /// Stands in for a reference not yet resolved: the largest index.
    pub fn placeholder() -> (r: GroupId)
        ensures
            r@ == u32::MAX,
    {
        GroupId(u32::MAX)
    }

    pub fn is_placeholder(self) -> (r: bool)
        ensures
            r == (self@ == u32::MAX),
    {
        self.0 == u32::MAX
    }

    /// The slot of the arena this id names.
    pub fn index(self) -> (r: usize)
        ensures
            r == self@,
    {
        self.0 as usize
    }

    /// The id of arena slot `i`.
    pub fn from_index(i: usize) -> (r: GroupId)
        requires
            i <= u32::MAX,
        ensures
            r@ == i,
    {
        GroupId(i as u32)
    }
}

/// A named attribute group definition (`xs:attributeGroup`).
#[derive(Copy, Clone, PartialEq, Eq, Hash, PartialOrd, Ord, Debug, Structural)]
pub struct AttrGroupId(pub(crate) u32);

impl View for AttrGroupId {
    type V = nat;

    closed spec fn view(&self) -> nat {
        self.0 as nat
    }
}

impl AttrGroupId {
    /// Stands in for a reference not yet resolved: the largest index.
    pub fn placeholder() -> (r: AttrGroupId)
        ensures
            r@ == u32::MAX,
    {
        AttrGroupId(u32::MAX)
    }

    pub fn is_placeholder(self) -> (r: bool)
        ensures
            r == (self@ == u32::MAX),
    {
        self.0 == u32::MAX
    }

    /// The slot of the arena this id names.
    pub fn index(self) -> (r: usize)
        ensures
            r == self@,
    {
        self.0 as usize
    }

    /// The id of arena slot `i`.
    pub fn from_index(i: usize) -> (r: AttrGroupId)
        requires
            i <= u32::MAX,
        ensures
            r@ == i,
    {
        AttrGroupId(i as u32)
    }
}

/// An identity constraint (`xs:unique`, `xs:key`, `xs:keyref`).
#[derive(Copy, Clone, PartialEq, Eq, Hash, PartialOrd, Ord, Debug, Structural)]
pub struct IdcId(pub(crate) u32);

impl View for IdcId {
    type V = nat;

    closed spec fn view(&self) -> nat {
        self.0 as nat
    }
}

impl IdcId {
    /// Stands in for a reference not yet resolved: the largest index.
    pub fn placeholder() -> (r: IdcId)
        ensures
            r@ == u32::MAX,
    {
        IdcId(u32::MAX)
    }

    pub fn is_placeholder(self) -> (r: bool)
        ensures
            r == (self@ == u32::MAX),
    {
        self.0 == u32::MAX
    }

    /// The slot of the arena this id names.
    pub fn index(self) -> (r: usize)
        ensures
            r == self@,
    {
        self.0 as usize
    }

    /// The id of arena slot `i`.
    pub fn from_index(i: usize) -> (r: IdcId)
        requires
            i <= u32::MAX,
        ensures
            r@ == i,
    {
        IdcId(i as u32)
    }
}

/// A notation declaration.
#[derive(Copy, Clone, PartialEq, Eq, Hash, PartialOrd, Ord, Debug, Structural)]
pub struct NotationId(pub(crate) u32);

impl View for NotationId {
    type V = nat;

    closed spec fn view(&self) -> nat {
        self.0 as nat
    }
}

impl NotationId {
    /// Stands in for a reference not yet resolved: the largest index.
    pub fn placeholder() -> (r: NotationId)
        ensures
            r@ == u32::MAX,
    {
        NotationId(u32::MAX)
    }

    pub fn is_placeholder(self) -> (r: bool)
        ensures
            r == (self@ == u32::MAX),
    {
        self.0 == u32::MAX
    }

    /// The slot of the arena this id names.
    pub fn index(self) -> (r: usize)
        ensures
            r == self@,
    {
        self.0 as usize
    }

    /// The id of arena slot `i`.
    pub fn from_index(i: usize) -> (r: NotationId)
        requires
            i <= u32::MAX,
        ensures
            r@ == i,
    {
        NotationId(i as u32)
    }
}

/// An annotation, holding documentation and `appinfo`.
#[derive(Copy, Clone, PartialEq, Eq, Hash, PartialOrd, Ord, Debug, Structural)]
pub struct AnnotationId(pub(crate) u32);

impl View for AnnotationId {
    type V = nat;

    closed spec fn view(&self) -> nat {
        self.0 as nat
    }
}

impl AnnotationId {
    /// Stands in for a reference not yet resolved: the largest index.
    pub fn placeholder() -> (r: AnnotationId)
        ensures
            r@ == u32::MAX,
    {
        AnnotationId(u32::MAX)
    }

    pub fn is_placeholder(self) -> (r: bool)
        ensures
            r == (self@ == u32::MAX),
    {
        self.0 == u32::MAX
    }

    /// The slot of the arena this id names.
    pub fn index(self) -> (r: usize)
        ensures
            r == self@,
    {
        self.0 as usize
    }

    /// The id of arena slot `i`.
    pub fn from_index(i: usize) -> (r: AnnotationId)
        requires
            i <= u32::MAX,
        ensures
            r@ == i,
    {
        AnnotationId(i as u32)
    }
}


/// Where a declaration is visible.
///
/// Local declarations are scoped to the complex type containing them, so
/// `{name, targetNamespace}` is **not** a key for them.
#[derive(Copy, Clone, PartialEq, Eq, Debug, Structural)]
pub enum Scope {
    Global,
    Local(TypeId),
}

/// A `default` or `fixed` value on a declaration.
#[derive(Clone, PartialEq, Eq, Debug)]
pub enum ValueConstraint {
    Default(String),
    Fixed(String),
}

impl ValueConstraint {
    /// A copy of this constraint.
    pub fn duplicate(&self) -> (r: ValueConstraint)
        ensures
            r == *self,
    {
        match self {
            ValueConstraint::Default(v) => ValueConstraint::Default(v.clone()),
            ValueConstraint::Fixed(v) => ValueConstraint::Fixed(v.clone()),
        }
    }

    pub fn value(&self) -> (r: &str)
        ensures
            r@ == match self {
                ValueConstraint::Default(v) => v@,
                ValueConstraint::Fixed(v) => v@,
            },
    {
        match self {
            ValueConstraint::Default(v) => v.as_str(),
            ValueConstraint::Fixed(v) => v.as_str(),
        }
    }

    pub fn is_fixed(&self) -> (r: bool)
        ensures
            r == (self is Fixed),
    {
        match self {
            ValueConstraint::Fixed(_) => true,
            ValueConstraint::Default(_) => false,
        }
    }
}

/// The `block` / `final` / `blockDefault` / `finalDefault` sets.
#[derive(Copy, Clone, Default, PartialEq, Eq, Debug, Structural)]
pub struct DerivationSet {
    pub extension: bool,
    pub restriction: bool,
    pub substitution: bool,
    pub list: bool,
    pub union: bool,
}

/// The whitespace-separated words of `t`, given the word `cur` read so far.
pub open spec fn words_from(t: Seq<char>, cur: Seq<char>) -> Seq<Seq<char>>
    decreases t.len(),
{
    if t.len() == 0 {
        if cur.len() > 0 { seq![cur] } else { Seq::empty() }
    } else if is_unicode_ws(t[0]) {
        (if cur.len() > 0 { seq![cur] } else { Seq::empty() }) + words_from(t.drop_first(), Seq::empty())
    } else {
        words_from(t.drop_first(), cur.push(t[0]))
    }
}

/// The whitespace-separated words of `s`, in order.
pub open spec fn words(s: Seq<char>) -> Seq<Seq<char>> {
    words_from(s, Seq::empty())
}

/// The words of `s`, read one character at a time.
pub fn split_words(s: &str) -> (r: Vec<Vec<char>>)
    ensures
        r@.len() == words(s@).len(),
        forall|i: int| 0 <= i < r@.len() ==> r@[i]@ == #[trigger] words(s@)[i],
{
    let c = str_chars(s);
    let mut out: Vec<Vec<char>> = Vec::new();
    let mut cur: Vec<char> = Vec::new();
    let mut i: usize = 0;
    let ghost done: Seq<Seq<char>> = Seq::empty();
    assert(c@.skip(0) =~= c@);
    while i < c.len()
        invariant
            i <= c.len(),
            c@ == s@,
            out@.len() == done.len(),
            forall|j: int| 0 <= j < out@.len() ==> out@[j]@ == #[trigger] done[j],
            done + words_from(c@.skip(i as int), cur@) == words(s@),
        decreases c.len() - i,
    {
        let ch = c[i];
        let ghost rest = c@.skip(i as int);
        assert(rest.drop_first() =~= c@.skip(i + 1));
        assert(rest[0] == ch);
        let ghost before = cur@;
        if unicode_ws(ch) {
            if cur.len() > 0 {
                proof {
                    done = done.push(cur@);
                }
                out.push(cur);
                cur = Vec::new();
                assert(words_from(rest, before) == seq![before] + words_from(c@.skip(i + 1), cur@));
                assert(done + words_from(c@.skip(i + 1), cur@) =~= words(s@));
            } else {
                assert(before =~= Seq::<char>::empty());
                assert(words_from(rest, before) =~= words_from(c@.skip(i + 1), cur@));
            }
        } else {
            cur.push(ch);
            assert(words_from(rest, before) == words_from(c@.skip(i + 1), cur@));
        }
        i += 1;
    }
    assert(c@.skip(i as int) =~= Seq::<char>::empty());
    if cur.len() > 0 {
        proof {
            done = done.push(cur@);
        }
        out.push(cur);
    }
    assert(done =~= words(s@));
    out
}

/// The value of a `block` or `final` attribute: `#all` alone names every
/// method, and otherwise each keyword names one, words it does not know
/// left out.
pub open spec fn spec_derivation_set(s: Seq<char>) -> DerivationSet {
    if words(s) == seq!["#all"@] {
        DerivationSet { extension: true, restriction: true, substitution: true, list: true, union: true }
    } else {
        DerivationSet {
            extension: words(s).contains("extension"@),
            restriction: words(s).contains("restriction"@),
            substitution: words(s).contains("substitution"@),
            list: words(s).contains("list"@),
            union: words(s).contains("union"@),
        }
    }
}

/// A sequence with one more item holds exactly what it held, and that item.
pub proof fn lemma_push_contains<A>(s: Seq<A>, a: A, x: A)
    ensures
        s.push(a).contains(x) <==> (s.contains(x) || a == x),
{
    if s.contains(x) {
        let i = choose|i: int| 0 <= i < s.len() && s[i] == x;
        assert(s.push(a)[i] == x);
    }
    if a == x {
        assert(s.push(a)[s.len() as int] == x);
    }
    if s.push(a).contains(x) {
        let i = choose|i: int| 0 <= i < s.push(a).len() && s.push(a)[i] == x;
        if i < s.len() {
            assert(s[i] == x);
        }
    }
}

/// Whether a word spells `lit`.
fn word_is(w: &Vec<char>, lit: &str) -> (r: bool)
    ensures
        r == (w@ == lit@),
{
    let l = str_chars(lit);
    crate::text::chars_eq(w, &l)
}

impl DerivationSet {
    /// Every method at once, what `#all` spells.
    pub fn all() -> (r: DerivationSet)
        ensures
            r.extension && r.restriction && r.substitution && r.list && r.union,
    {
        DerivationSet { extension: true, restriction: true, substitution: true, list: true, union: true }
    }

    pub fn is_empty(self) -> (r: bool)
        ensures
            r == !(self.extension || self.restriction || self.substitution || self.list || self.union),
    {
        !(self.extension || self.restriction || self.substitution || self.list || self.union)
    }

    /// Both sets at once. `xsi:type` is blocked by the element declaration's
    /// own `block` *and* by the declared type's, taken together.
    pub fn union(self, other: DerivationSet) -> (r: DerivationSet)
        ensures
            r.extension == (self.extension || other.extension),
            r.restriction == (self.restriction || other.restriction),
            r.substitution == (self.substitution || other.substitution),
            r.list == (self.list || other.list),
            r.union == (self.union || other.union),
    {
        DerivationSet {
            extension: self.extension || other.extension,
            restriction: self.restriction || other.restriction,
            substitution: self.substitution || other.substitution,
            list: self.list || other.list,
            union: self.union || other.union,
        }
    }

    /// The keywords a `block` or `final` attribute may contain, across every
    /// context one of them appears in.
    pub fn keywords() -> (r: [&'static str; 5])
        ensures
            r[0] == "extension",
            r[1] == "restriction",
            r[2] == "substitution",
            r[3] == "list",
            r[4] == "union",
    {
        ["extension", "restriction", "substitution", "list", "union"]
    }

    /// Parses a `block`/`final` attribute value: `#all`, or a space-separated
    /// list of keywords. Unknown keywords are ignored by the caller's rules.
    pub fn parse(s: &str) -> (r: DerivationSet)
        ensures
            r == spec_derivation_set(s@),
    {
        let ws = split_words(s);
        proof {
            reveal_strlit("#all");
            reveal_strlit("extension");
            reveal_strlit("restriction");
            reveal_strlit("substitution");
            reveal_strlit("list");
            reveal_strlit("union");
        }
        if ws.len() == 1 && word_is(&ws[0], "#all") {
            assert(words(s@) =~= seq!["#all"@]);
            return DerivationSet::all();
        }
        assert(words(s@) != seq!["#all"@]) by {
            if words(s@) == seq!["#all"@] {
                assert(ws@[0]@ == words(s@)[0]);
            }
        }
        let mut out = DerivationSet {
            extension: false,
            restriction: false,
            substitution: false,
            list: false,
            union: false,
        };
        let mut i: usize = 0;
        while i < ws.len()
            invariant
                i <= ws.len(),
                ws@.len() == words(s@).len(),
                forall|j: int| 0 <= j < ws@.len() ==> ws@[j]@ == #[trigger] words(s@)[j],
                out.extension == words(s@).take(i as int).contains("extension"@),
                out.restriction == words(s@).take(i as int).contains("restriction"@),
                out.substitution == words(s@).take(i as int).contains("substitution"@),
                out.list == words(s@).take(i as int).contains("list"@),
                out.union == words(s@).take(i as int).contains("union"@),
            decreases ws.len() - i,
        {
            let w = &ws[i];
            assert(w@ == words(s@)[i as int]);
            assert(words(s@).take(i + 1) =~= words(s@).take(i as int).push(w@));
            proof {
                reveal_strlit("extension");
                reveal_strlit("restriction");
                reveal_strlit("substitution");
                reveal_strlit("list");
                reveal_strlit("union");
                lemma_push_contains(words(s@).take(i as int), w@, "extension"@);
                lemma_push_contains(words(s@).take(i as int), w@, "restriction"@);
                lemma_push_contains(words(s@).take(i as int), w@, "substitution"@);
                lemma_push_contains(words(s@).take(i as int), w@, "list"@);
                lemma_push_contains(words(s@).take(i as int), w@, "union"@);
            }
            if word_is(w, "extension") {
                out.extension = true;
            } else if word_is(w, "restriction") {
                out.restriction = true;
            } else if word_is(w, "substitution") {
                out.substitution = true;
            } else if word_is(w, "list") {
                out.list = true;
            } else if word_is(w, "union") {
                out.union = true;
            }
            i += 1;
        }
        assert(words(s@).take(ws.len() as int) =~= words(s@));
        out
    }
}

/// How a complex type is derived from its base.
#[derive(Copy, Clone, PartialEq, Eq, Debug, Structural)]
pub enum DerivationMethod {
    Extension,
    Restriction,
}

// ---------------------------------------------------------------------------
// Declarations
// ---------------------------------------------------------------------------

#[derive(Clone, Debug)]
pub struct ElementDecl {
    pub name: QName,
    pub type_id: TypeId,
    pub scope: Scope,
    pub nillable: bool,
    pub is_abstract: bool,
    /// Heads this element may substitute for. XSD 1.1 permits several.
    pub substitution_group: Vec<ElementId>,
    pub value_constraint: Option<ValueConstraint>,
    pub block: DerivationSet,
    pub final_: DerivationSet,
    pub identity_constraints: Vec<IdcId>,
    pub annotation: Option<AnnotationId>,
    pub span: Span,
}

#[derive(Clone, Debug)]
pub struct AttributeDecl {
    pub name: QName,
    pub type_id: TypeId,
    pub scope: Scope,
    pub value_constraint: Option<ValueConstraint>,
    pub annotation: Option<AnnotationId>,
    pub span: Span,
}

#[derive(Copy, Clone, PartialEq, Eq, Debug, Structural)]
pub enum AttributeUseKind {
    Optional,
    Required,
    Prohibited,
}

/// An attribute declaration as used by one complex type.
#[derive(Clone, Debug)]
pub struct AttributeUse {
    pub attribute: AttributeId,
    pub kind: AttributeUseKind,
    /// Overrides the declaration's own constraint when present.
    pub value_constraint: Option<ValueConstraint>,
}

impl AttributeUse {
    /// A copy of this use.
    pub fn duplicate(&self) -> (r: AttributeUse)
        ensures
            r == *self,
    {
        AttributeUse {
            attribute: self.attribute,
            kind: self.kind,
            value_constraint: match &self.value_constraint {
                Some(v) => Some(v.duplicate()),
                None => None,
            },
        }
    }

    pub fn is_required(&self) -> (r: bool)
        ensures
            r == (self.kind == AttributeUseKind::Required),
    {
        match self.kind {
            AttributeUseKind::Required => true,
            _ => false,
        }
    }
}

// ---------------------------------------------------------------------------
// Types
// ---------------------------------------------------------------------------

#[derive(Clone, Debug)]
pub enum TypeDefinition {
    Simple(SimpleType),
    Complex(ComplexType),
}

impl TypeDefinition {
    pub fn name(&self) -> (r: Option<QName>)
        ensures
            r == match self {
                TypeDefinition::Simple(t) => t.name,
                TypeDefinition::Complex(t) => t.name,
            },
    {
        match self {
            TypeDefinition::Simple(t) => t.name,
            TypeDefinition::Complex(t) => t.name,
        }
    }

    pub fn is_simple(&self) -> (r: bool)
        ensures
            r == (self is Simple),
    {
        match self {
            TypeDefinition::Simple(_) => true,
            TypeDefinition::Complex(_) => false,
        }
    }

    pub fn as_simple(&self) -> (r: Option<&SimpleType>)
        ensures
            match self {
                TypeDefinition::Simple(t) => r == Some(t),
                TypeDefinition::Complex(_) => r is None,
            },
    {
        match self {
            TypeDefinition::Simple(t) => Some(t),
            TypeDefinition::Complex(_) => None,
        }
    }

    pub fn as_complex(&self) -> (r: Option<&ComplexType>)
        ensures
            match self {
                TypeDefinition::Complex(t) => r == Some(t),
                TypeDefinition::Simple(_) => r is None,
            },
    {
        match self {
            TypeDefinition::Complex(t) => Some(t),
            TypeDefinition::Simple(_) => None,
        }
    }

    pub fn base(&self) -> (r: TypeId)
        ensures
            r == match self {
                TypeDefinition::Simple(t) => t.base,
                TypeDefinition::Complex(t) => t.base,
            },
    {
        match self {
            TypeDefinition::Simple(t) => t.base,
            TypeDefinition::Complex(t) => t.base,
        }
    }

    pub fn span(&self) -> (r: &Span)
        ensures
            *r == match self {
                TypeDefinition::Simple(t) => t.span,
                TypeDefinition::Complex(t) => t.span,
            },
    {
        match self {
            TypeDefinition::Simple(t) => &t.span,
            TypeDefinition::Complex(t) => &t.span,
        }
    }
}

#[derive(Clone, Debug)]
pub struct SimpleType {
    /// Absent for an anonymous type declared inline.
    pub name: Option<QName>,
    pub base: TypeId,
    pub variety: Variety,
    /// Set for atomic varieties; absent for list and union.
    pub primitive: Option<Builtin>,
    /// The built-in this type *is*, when it is one.
    pub builtin: Option<Builtin>,
    /// The item type of a list variety.
    pub item_type: Option<TypeId>,
    /// The member types of a union variety, in declaration order — the order
    /// in which they are tried.
    pub member_types: Vec<TypeId>,
    pub facets: FacetSet,
    pub final_: DerivationSet,
    pub annotation: Option<AnnotationId>,
    pub span: Span,
}

#[derive(Clone, Debug)]
pub struct ComplexType {
    pub name: Option<QName>,
    pub base: TypeId,
    pub derivation: DerivationMethod,
    pub content: ContentType,
    pub attribute_uses: Vec<AttributeUse>,
    /// Attribute group references, kept unexpanded until composition.
    pub attribute_group_refs: Vec<AttrGroupId>,
    pub attribute_wildcard: Option<Wildcard>,
    /// XSD 1.1 open content, from `xs:openContent` here or
    /// `xs:defaultOpenContent` on the schema.
    pub open_content: Option<OpenContent>,
    pub is_abstract: bool,
    pub block: DerivationSet,
    pub final_: DerivationSet,
    pub annotation: Option<AnnotationId>,
    pub span: Span,
}

/// What a complex type may contain.
#[derive(Copy, Clone, PartialEq, Eq, Debug, Structural)]
pub enum ContentType {
    /// No child elements and no character data.
    Empty,
    /// Character data validated against a simple type.
    Simple(TypeId),
    /// Child elements only.
    ElementOnly(ParticleId),
    /// Child elements interleaved with character data.
    Mixed(ParticleId),
}

impl ContentType {
    /// The content particle, if this type has one.
    ///
    /// `Mixed` without a particle is a legitimate state — character data and
    /// nothing else, which is what `xs:anyType` starts as — so a placeholder
    /// here means "no particle", not "unresolved".
    pub fn particle(self) -> (r: Option<ParticleId>)
        ensures
            r == match self {
                ContentType::ElementOnly(p) => if p@ == u32::MAX { None } else { Some(p) },
                ContentType::Mixed(p) => if p@ == u32::MAX { None } else { Some(p) },
                _ => None,
            },
    {
        match self {
            ContentType::ElementOnly(p) => if p.is_placeholder() {
                None
            } else {
                Some(p)
            },
            ContentType::Mixed(p) => if p.is_placeholder() {
                None
            } else {
                Some(p)
            },
            _ => None,
        }
    }

    pub fn is_mixed(self) -> (r: bool)
        ensures
            r == (self is Mixed),
    {
        match self {
            ContentType::Mixed(_) => true,
            _ => false,
        }
    }
}

// ---------------------------------------------------------------------------
// Particles and model groups
// ---------------------------------------------------------------------------

#[derive(Copy, Clone, PartialEq, Eq, Debug, Structural)]
pub enum MaxOccurs {
    Bounded(u32),
    Unbounded,
}

impl MaxOccurs {
    pub open spec fn spec_is_repeating(self) -> bool {
        match self {
            MaxOccurs::Unbounded => true,
            MaxOccurs::Bounded(n) => n > 1,
        }
    }

    pub fn is_repeating(self) -> (r: bool)
        ensures
            r == self.spec_is_repeating(),
    {
        match self {
            MaxOccurs::Unbounded => true,
            MaxOccurs::Bounded(n) => n > 1,
        }
    }

    pub fn as_u32(self) -> (r: Option<u32>)
        ensures
            r == match self {
                MaxOccurs::Bounded(n) => Some(n),
                MaxOccurs::Unbounded => None::<u32>,
            },
    {
        match self {
            MaxOccurs::Bounded(n) => Some(n),
            MaxOccurs::Unbounded => None,
        }
    }
}

#[derive(Clone, Debug)]
pub struct Particle {
    pub min_occurs: u32,
    pub max_occurs: MaxOccurs,
    pub term: Term,
    pub span: Span,
}

impl Particle {
    /// Whether this particle may match more than once.
    pub fn is_repeating(&self) -> (r: bool)
        ensures
            r == self.max_occurs.spec_is_repeating(),
    {
        self.max_occurs.is_repeating()
    }

    /// Whether this particle may match zero times, making its content
    /// optional and hence nullable.
    pub fn is_optional(&self) -> (r: bool)
        ensures
            r == (self.min_occurs == 0),
    {
        self.min_occurs == 0
    }
}

#[derive(Clone, Debug)]
pub enum Term {
    Element(ElementId),
    Wildcard(Wildcard),
    /// An inline `xs:sequence`, `xs:choice` or `xs:all`.
    Group(ModelGroup),
    /// A reference to a named group definition. Kept distinct from `Group`
    /// so provenance survives into later phases.
    GroupRef(GroupId),
}

#[derive(Copy, Clone, PartialEq, Eq, Debug, Structural)]
pub enum Compositor {
    Sequence,
    Choice,
    All,
}

#[derive(Clone, Debug)]
pub struct ModelGroup {
    pub compositor: Compositor,
    pub particles: Vec<ParticleId>,
}

#[derive(Clone, Debug)]
pub struct ModelGroupDef {
    pub name: QName,
    pub group: ModelGroup,
    pub annotation: Option<AnnotationId>,
    pub span: Span,
}

#[derive(Clone, Debug)]
pub struct AttributeGroupDef {
    pub name: QName,
    pub attribute_uses: Vec<AttributeUse>,
    pub attribute_group_refs: Vec<AttrGroupId>,
    pub attribute_wildcard: Option<Wildcard>,
    pub annotation: Option<AnnotationId>,
    pub span: Span,
}

// ---------------------------------------------------------------------------
// Wildcards
// ---------------------------------------------------------------------------

#[derive(Copy, Clone, PartialEq, Eq, Debug, Structural)]
pub enum ProcessContents {
    Skip,
    Lax,
    Strict,
}

/// Which namespaces a wildcard admits.
#[derive(Clone, PartialEq, Eq, Debug)]
pub enum NamespaceConstraint {
    /// `##any`.
    Any,
    /// `##other`, or XSD 1.1's `notNamespace` — anything but these.
    /// `None` inside the list means "no namespace".
    Not(Vec<Option<Namespace>>),
    /// An explicit list. `None` means "no namespace".
    Enumeration(Vec<Option<Namespace>>),
}

/// The items of `a` that `b` holds (`inside`), or that it does not, in the
/// order of `a`.
pub open spec fn sift<T>(a: Seq<T>, b: Seq<T>, inside: bool) -> Seq<T>
    decreases a.len(),
{
    if a.len() == 0 {
        Seq::empty()
    } else if b.contains(a.last()) == inside {
        sift(a.drop_last(), b, inside).push(a.last())
    } else {
        sift(a.drop_last(), b, inside)
    }
}

/// What `sift` keeps is exactly what `a` holds and `b` holds (or does not).
pub proof fn lemma_sift_contains<T>(a: Seq<T>, b: Seq<T>, inside: bool, x: T)
    ensures
        sift(a, b, inside).contains(x) <==> (a.contains(x) && b.contains(x) == inside),
    decreases a.len(),
{
    if a.len() > 0 {
        lemma_sift_contains(a.drop_last(), b, inside, x);
        lemma_push_contains(a.drop_last(), a.last(), x);
        assert(a.drop_last().push(a.last()) =~= a);
        if b.contains(a.last()) == inside {
            lemma_push_contains(sift(a.drop_last(), b, inside), a.last(), x);
        }
    }
}

/// A list followed by what a second list adds to it.
pub proof fn lemma_concat_contains<T>(a: Seq<T>, b: Seq<T>, x: T)
    ensures
        (a + b).contains(x) <==> (a.contains(x) || b.contains(x)),
{
    if a.contains(x) {
        let i = choose|i: int| 0 <= i < a.len() && a[i] == x;
        assert((a + b)[i] == x);
    }
    if b.contains(x) {
        let i = choose|i: int| 0 <= i < b.len() && b[i] == x;
        assert((a + b)[a.len() + i] == x);
    }
    if (a + b).contains(x) {
        let i = choose|i: int| 0 <= i < (a + b).len() && (a + b)[i] == x;
        if i < a.len() {
            assert(a[i] == x);
        } else {
            assert(b[i - a.len()] == x);
        }
    }
}

/// What a [`NamespaceConstraint`] says, as sequences.
pub enum NsSet {
    Any,
    Not(Seq<Option<Namespace>>),
    Only(Seq<Option<Namespace>>),
}

impl View for NamespaceConstraint {
    type V = NsSet;

    open spec fn view(&self) -> NsSet {
        match self {
            NamespaceConstraint::Any => NsSet::Any,
            NamespaceConstraint::Not(l) => NsSet::Not(l@),
            NamespaceConstraint::Enumeration(l) => NsSet::Only(l@),
        }
    }
}

/// Whether a constraint admits a namespace (`None`: no namespace).
pub open spec fn ns_admits(c: NsSet, ns: Option<Namespace>) -> bool {
    match c {
        NsSet::Any => true,
        NsSet::Not(l) => !l.contains(ns),
        NsSet::Only(l) => l.contains(ns),
    }
}

/// *Attribute Wildcard Intersection*, in the XSD 1.1 form where two
/// negations combine into one: what the list names less what the negation
/// bars, and what either negation bars barred by both.
pub open spec fn ns_intersect(a: NsSet, b: NsSet) -> NsSet {
    match (a, b) {
        (NsSet::Any, o) => o,
        (o, NsSet::Any) => o,
        (NsSet::Only(x), NsSet::Only(y)) => NsSet::Only(sift(x, y, true)),
        (NsSet::Not(n), NsSet::Only(e)) => NsSet::Only(sift(e, n, false)),
        (NsSet::Only(e), NsSet::Not(n)) => NsSet::Only(sift(e, n, false)),
        (NsSet::Not(x), NsSet::Not(y)) => NsSet::Not(x + sift(y, x, false)),
    }
}

/// *Attribute Wildcard Union*: a negation stops barring what the list
/// admits, and only what both negations bar stays barred.
pub open spec fn ns_union(a: NsSet, b: NsSet) -> NsSet {
    match (a, b) {
        (NsSet::Any, _) => NsSet::Any,
        (_, NsSet::Any) => NsSet::Any,
        (NsSet::Only(x), NsSet::Only(y)) => NsSet::Only(x + sift(y, x, false)),
        (NsSet::Not(n), NsSet::Only(e)) => NsSet::Not(sift(n, e, false)),
        (NsSet::Only(e), NsSet::Not(n)) => NsSet::Not(sift(n, e, false)),
        (NsSet::Not(x), NsSet::Not(y)) => NsSet::Not(sift(x, y, true)),
    }
}

/// Whether two optional namespaces are the same.
fn same_ns(a: Option<Namespace>, b: Option<Namespace>) -> (r: bool)
    ensures
        r == (a == b),
{
    match (a, b) {
        (None, None) => true,
        (Some(x), Some(y)) => x == y,
        _ => false,
    }
}

pub(crate) fn ns_list_contains(l: &Vec<Option<Namespace>>, x: Option<Namespace>) -> (r: bool)
    ensures
        r == l@.contains(x),
{
    let mut i: usize = 0;
    while i < l.len()
        invariant
            i <= l.len(),
            forall|j: int| 0 <= j < i ==> l@[j] != x,
        decreases l.len() - i,
    {
        if same_ns(l[i], x) {
            assert(l@[i as int] == x);
            return true;
        }
        i += 1;
    }
    false
}

/// The items of `a` that `b` holds, or does not hold, in the order of `a`.
fn ns_sift(a: &Vec<Option<Namespace>>, b: &Vec<Option<Namespace>>, inside: bool) -> (r: Vec<
    Option<Namespace>,
>)
    ensures
        r@ == sift(a@, b@, inside),
{
    let mut out: Vec<Option<Namespace>> = Vec::new();
    let mut i: usize = 0;
    while i < a.len()
        invariant
            i <= a.len(),
            out@ == sift(a@.take(i as int), b@, inside),
        decreases a.len() - i,
    {
        assert(a@.take(i + 1).drop_last() =~= a@.take(i as int));
        if ns_list_contains(b, a[i]) == inside {
            out.push(a[i]);
        }
        i += 1;
    }
    assert(a@.take(a.len() as int) =~= a@);
    out
}

/// A copy of a namespace list.
fn ns_copy(a: &Vec<Option<Namespace>>) -> (r: Vec<Option<Namespace>>)
    ensures
        r@ == a@,
{
    let mut out: Vec<Option<Namespace>> = Vec::new();
    let mut i: usize = 0;
    while i < a.len()
        invariant
            i <= a.len(),
            out@ == a@.take(i as int),
        decreases a.len() - i,
    {
        out.push(a[i]);
        assert(a@.take(i + 1) =~= a@.take(i as int).push(a@[i as int]));
        i += 1;
    }
    assert(a@.take(a.len() as int) =~= a@);
    out
}

/// `a` followed by what of `b` it lacks.
fn ns_merge(a: &Vec<Option<Namespace>>, b: &Vec<Option<Namespace>>) -> (r: Vec<Option<Namespace>>)
    ensures
        r@ == a@ + sift(b@, a@, false),
{
    let mut out = ns_copy(a);
    let mut extra = ns_sift(b, a, false);
    out.append(&mut extra);
    out
}

/// Whether a constraint admits the namespace written as `uri`, given the
/// strings `names` interned: no URI, or an empty one, is no namespace; an
/// interned one is the namespace of its slot; one never interned is none of
/// those enumerated or excluded.
pub open spec fn uri_admitted(c: NsSet, names: Seq<Seq<char>>, uri: Option<Seq<char>>) -> bool {
    match uri {
        None => ns_admits(c, None),
        Some(u) => if u.len() == 0 {
            ns_admits(c, None)
        } else if names.contains(u) {
            forall|m: Namespace| m@ < names.len() && names[m@ as int] == u ==> #[trigger] ns_admits(c, Some(m))
        } else {
            !(c is Only)
        },
    }
}

impl NamespaceConstraint {
    /// Whether this constraint admits the namespace written as `uri`, with
    /// `names` holding the strings the schema interned: no URI, or an empty
    /// one, is no namespace; a URI the schema never interned is none of those
    /// it enumerates or excludes.
    pub fn admits_uri(&self, names: &crate::names::Interner, uri: Option<&str>) -> (r: bool)
        requires
            names.wf(),
        ensures
            r == uri_admitted(self@, names@, match uri {
                Some(u) => Some(u@),
                None => None,
            }),
    {
        let resolved: Option<Option<Namespace>> = match uri {
            None => Some(None),
            Some(u) => if str_chars(u).len() == 0 {
                Some(None)
            } else {
                match names.lookup(u) {
                    Some(sym) => Some(Some(Namespace::from_symbol(sym))),
                    None => None,
                }
            },
        };
        let r = match (self, resolved) {
            (NamespaceConstraint::Any, _) => true,
            (_, Some(ns)) => self.admits(ns),
            (NamespaceConstraint::Not(_), None) => true,
            (NamespaceConstraint::Enumeration(_), None) => false,
        };
        proof {
            if let Some(Some(ns)) = resolved {
                let u = uri.unwrap()@;
                assert forall|m: Namespace| m@ < names@.len() && names@[m@ as int] == u implies ns_admits(
                    self@,
                    Some(m),
                ) == r by {
                    crate::names::lemma_one_namespace_per_string(*names, m, ns);
                }
                assert(names@.contains(u));
            }
        }
        r
    }

    pub fn admits(&self, ns: Option<Namespace>) -> (r: bool)
        ensures
            r == ns_admits(self@, ns),
    {
        match self {
            NamespaceConstraint::Any => true,
            NamespaceConstraint::Not(list) => !ns_list_contains(list, ns),
            NamespaceConstraint::Enumeration(list) => ns_list_contains(list, ns),
        }
    }

    fn copy(&self) -> (r: NamespaceConstraint)
        ensures
            r@ == self@,
    {
        match self {
            NamespaceConstraint::Any => NamespaceConstraint::Any,
            NamespaceConstraint::Not(l) => NamespaceConstraint::Not(ns_copy(l)),
            NamespaceConstraint::Enumeration(l) => NamespaceConstraint::Enumeration(ns_copy(l)),
        }
    }

    /// The constraint admitting only what both admit.
    ///
    /// *Attribute Wildcard Intersection*. Written for the XSD 1.1 form, where
    /// two negations combine into one — 1.0 could only spell `##other` and
    /// called that case an error, but the answer here is the same shape.
    pub fn intersect(&self, other: &NamespaceConstraint) -> (r: NamespaceConstraint)
        ensures
            r@ == ns_intersect(self@, other@),
            forall|ns: Option<Namespace>| #[trigger]
                ns_admits(r@, ns) == (ns_admits(self@, ns) && ns_admits(other@, ns)),
    {
        let r = match (self, other) {
            (NamespaceConstraint::Any, o) => o.copy(),
            (o, NamespaceConstraint::Any) => o.copy(),
            (NamespaceConstraint::Enumeration(a), NamespaceConstraint::Enumeration(b)) => {
                NamespaceConstraint::Enumeration(ns_sift(a, b, true))
            },
            (NamespaceConstraint::Not(n), NamespaceConstraint::Enumeration(e)) => {
                NamespaceConstraint::Enumeration(ns_sift(e, n, false))
            },
            (NamespaceConstraint::Enumeration(e), NamespaceConstraint::Not(n)) => {
                NamespaceConstraint::Enumeration(ns_sift(e, n, false))
            },
            (NamespaceConstraint::Not(a), NamespaceConstraint::Not(b)) => {
                NamespaceConstraint::Not(ns_merge(a, b))
            },
        };
        proof {
            assert forall|ns: Option<Namespace>| #[trigger]
                ns_admits(r@, ns) == (ns_admits(self@, ns) && ns_admits(other@, ns)) by {
                match (self@, other@) {
                    (NsSet::Only(x), NsSet::Only(y)) => lemma_sift_contains(x, y, true, ns),
                    (NsSet::Not(n), NsSet::Only(e)) => lemma_sift_contains(e, n, false, ns),
                    (NsSet::Only(e), NsSet::Not(n)) => lemma_sift_contains(e, n, false, ns),
                    (NsSet::Not(x), NsSet::Not(y)) => {
                        lemma_sift_contains(y, x, false, ns);
                        lemma_concat_contains(x, sift(y, x, false), ns);
                    },
                    _ => {},
                }
            }
        }
        r
    }

    /// The constraint admitting whatever either admits.
    ///
    /// *Attribute Wildcard Union*, which is how an extension combines its own
    /// wildcard with the one it inherits.
    pub fn union(&self, other: &NamespaceConstraint) -> (r: NamespaceConstraint)
        ensures
            r@ == ns_union(self@, other@),
            forall|ns: Option<Namespace>| #[trigger]
                ns_admits(r@, ns) == (ns_admits(self@, ns) || ns_admits(other@, ns)),
    {
        let r = match (self, other) {
            (NamespaceConstraint::Any, _) => NamespaceConstraint::Any,
            (_, NamespaceConstraint::Any) => NamespaceConstraint::Any,
            (NamespaceConstraint::Enumeration(a), NamespaceConstraint::Enumeration(b)) => {
                NamespaceConstraint::Enumeration(ns_merge(a, b))
            },
            (NamespaceConstraint::Not(n), NamespaceConstraint::Enumeration(e)) => {
                NamespaceConstraint::Not(ns_sift(n, e, false))
            },
            (NamespaceConstraint::Enumeration(e), NamespaceConstraint::Not(n)) => {
                NamespaceConstraint::Not(ns_sift(n, e, false))
            },
            (NamespaceConstraint::Not(a), NamespaceConstraint::Not(b)) => {
                NamespaceConstraint::Not(ns_sift(a, b, true))
            },
        };
        proof {
            assert forall|ns: Option<Namespace>| #[trigger]
                ns_admits(r@, ns) == (ns_admits(self@, ns) || ns_admits(other@, ns)) by {
                match (self@, other@) {
                    (NsSet::Only(x), NsSet::Only(y)) => {
                        lemma_sift_contains(y, x, false, ns);
                        lemma_concat_contains(x, sift(y, x, false), ns);
                    },
                    (NsSet::Not(n), NsSet::Only(e)) => lemma_sift_contains(n, e, false, ns),
                    (NsSet::Only(e), NsSet::Not(n)) => lemma_sift_contains(n, e, false, ns),
                    (NsSet::Not(x), NsSet::Not(y)) => lemma_sift_contains(x, y, true, ns),
                    _ => {},
                }
            }
        }
        r
    }
}

/// Intersecting two constraints admits a namespace exactly when both do,
/// and their union when either does.
pub proof fn law_wildcard_algebra(a: NsSet, b: NsSet, ns: Option<Namespace>)
    ensures
        ns_admits(ns_intersect(a, b), ns) == (ns_admits(a, ns) && ns_admits(b, ns)),
        ns_admits(ns_union(a, b), ns) == (ns_admits(a, ns) || ns_admits(b, ns)),
{
    match (a, b) {
        (NsSet::Only(x), NsSet::Only(y)) => {
            lemma_sift_contains(x, y, true, ns);
            lemma_sift_contains(y, x, false, ns);
            lemma_concat_contains(x, sift(y, x, false), ns);
        },
        (NsSet::Not(n), NsSet::Only(e)) => {
            lemma_sift_contains(e, n, false, ns);
            lemma_sift_contains(n, e, false, ns);
        },
        (NsSet::Only(e), NsSet::Not(n)) => {
            lemma_sift_contains(e, n, false, ns);
            lemma_sift_contains(n, e, false, ns);
        },
        (NsSet::Not(x), NsSet::Not(y)) => {
            lemma_sift_contains(y, x, false, ns);
            lemma_concat_contains(x, sift(y, x, false), ns);
            lemma_sift_contains(x, y, true, ns);
        },
        _ => {},
    }
}

/// Where an XSD 1.1 `xs:openContent` wildcard may appear.
#[derive(Copy, Clone, PartialEq, Eq, Debug, Structural)]
pub enum OpenContentMode {
    /// Between any two particles, and at either end.
    Interleave,
    /// Only after the declared content is complete.
    Suffix,
}

/// XSD 1.1 open content: a wildcard admitted alongside a declared content
/// model rather than as part of it.
#[derive(Clone, PartialEq, Eq, Debug)]
pub struct OpenContent {
    pub mode: OpenContentMode,
    pub wildcard: Wildcard,
}

#[derive(Clone, PartialEq, Eq, Debug)]
pub struct Wildcard {
    pub namespace: NamespaceConstraint,
    pub process_contents: ProcessContents,
    /// XSD 1.1 `notQName`, excluding specific names from an otherwise
    /// admitted namespace.
    pub not_qname: Vec<QName>,
    /// XSD 1.1 `notQName="##defined"`: exclude every name that has a global
    /// element declaration.
    pub not_defined: bool,
    /// XSD 1.1 `notQName="##definedSibling"`: exclude every name written out
    /// in the content model this wildcard sits in.
    pub not_defined_sibling: bool,
}

fn qname_list_contains(l: &Vec<QName>, x: QName) -> (r: bool)
    ensures
        r == l@.contains(x),
{
    let mut i: usize = 0;
    while i < l.len()
        invariant
            i <= l.len(),
            forall|j: int| 0 <= j < i ==> l@[j] != x,
        decreases l.len() - i,
    {
        if l[i] == x {
            assert(l@[i as int] == x);
            return true;
        }
        i += 1;
    }
    false
}

/// The names of `a` that `b` holds, or does not hold, in the order of `a`.
fn qname_sift(a: &Vec<QName>, b: &Vec<QName>, inside: bool) -> (r: Vec<QName>)
    ensures
        r@ == sift(a@, b@, inside),
{
    let mut out: Vec<QName> = Vec::new();
    let mut i: usize = 0;
    while i < a.len()
        invariant
            i <= a.len(),
            out@ == sift(a@.take(i as int), b@, inside),
        decreases a.len() - i,
    {
        assert(a@.take(i + 1).drop_last() =~= a@.take(i as int));
        if qname_list_contains(b, a[i]) == inside {
            out.push(a[i]);
        }
        i += 1;
    }
    assert(a@.take(a.len() as int) =~= a@);
    out
}

/// Whether two wildcards say the same.
pub open spec fn same_wildcard(a: Wildcard, b: Wildcard) -> bool {
    &&& a.namespace@ == b.namespace@
    &&& a.process_contents == b.process_contents
    &&& a.not_qname@ == b.not_qname@
    &&& a.not_defined == b.not_defined
    &&& a.not_defined_sibling == b.not_defined_sibling
}

/// Whether two optional open contents say the same.
pub open spec fn same_open(a: Option<OpenContent>, b: Option<OpenContent>) -> bool {
    match (a, b) {
        (None, None) => true,
        (Some(x), Some(y)) => x.mode == y.mode && same_wildcard(x.wildcard, y.wildcard),
        _ => false,
    }
}

/// A copy of the names `l`.
fn qnames_copy(l: &Vec<QName>) -> (r: Vec<QName>)
    ensures
        r@ == l@,
{
    let mut r: Vec<QName> = Vec::new();
    let mut i: usize = 0;
    while i < l.len()
        invariant
            i <= l@.len(),
            r@ == l@.take(i as int),
        decreases l@.len() - i,
    {
        r.push(l[i]);
        assert(l@.take(i + 1) =~= l@.take(i as int).push(l@[i as int]));
        i += 1;
    }
    assert(l@.take(i as int) =~= l@);
    r
}

impl OpenContent {
    /// A copy of this open content.
    pub fn duplicate(&self) -> (r: OpenContent)
        ensures
            same_open(Some(r), Some(*self)),
    {
        OpenContent { mode: self.mode, wildcard: self.wildcard.duplicate() }
    }
}

impl Wildcard {
    /// A copy of this wildcard.
    pub fn duplicate(&self) -> (r: Wildcard)
        ensures
            same_wildcard(r, *self),
    {
        Wildcard {
            namespace: self.namespace.copy(),
            process_contents: self.process_contents,
            not_qname: qnames_copy(&self.not_qname),
            not_defined: self.not_defined,
            not_defined_sibling: self.not_defined_sibling,
        }
    }

    /// The wildcard admitting only what both admit.
    ///
    /// Attribute wildcards reaching one complex type from several attribute
    /// group references combine this way: an attribute has to satisfy every
    /// wildcard that reached the type. The namespace constraints are
    /// intersected, a name either excludes stays excluded (those of `self`
    /// first, then those only `other` adds), and a `##defined` or
    /// `##definedSibling` exclusion of either holds; `processContents` comes
    /// from `self`, the type's own wildcard wherever it has one.
    pub fn intersect(&self, other: &Wildcard) -> (r: Wildcard)
        ensures
            r.namespace@ == ns_intersect(self.namespace@, other.namespace@),
            r.process_contents == self.process_contents,
            r.not_qname@ == self.not_qname@ + sift(other.not_qname@, self.not_qname@, false),
            r.not_defined == (self.not_defined || other.not_defined),
            r.not_defined_sibling == (self.not_defined_sibling || other.not_defined_sibling),
    {
        let mut not_qname = qnames_copy(&self.not_qname);
        let added = qname_sift(&other.not_qname, &self.not_qname, false);
        let mut i: usize = 0;
        while i < added.len()
            invariant
                i <= added@.len(),
                not_qname@ == self.not_qname@ + added@.take(i as int),
            decreases added@.len() - i,
        {
            not_qname.push(added[i]);
            assert(added@.take(i + 1) =~= added@.take(i as int).push(added@[i as int]));
            i += 1;
        }
        assert(added@.take(i as int) =~= added@);
        Wildcard {
            namespace: self.namespace.intersect(&other.namespace),
            process_contents: self.process_contents,
            not_qname,
            not_defined: self.not_defined || other.not_defined,
            not_defined_sibling: self.not_defined_sibling || other.not_defined_sibling,
        }
    }

    /// The wildcard admitting whatever either admits, which is how an
    /// extension combines its own with the base's: only a name both exclude
    /// stays excluded.
    pub fn union(&self, other: &Wildcard) -> (r: Wildcard)
        ensures
            r.namespace@ == ns_union(self.namespace@, other.namespace@),
            r.process_contents == self.process_contents,
            r.not_qname@ == sift(self.not_qname@, other.not_qname@, true),
            r.not_defined == (self.not_defined && other.not_defined),
            r.not_defined_sibling == (self.not_defined_sibling && other.not_defined_sibling),
    {
        Wildcard {
            namespace: self.namespace.union(&other.namespace),
            process_contents: self.process_contents,
            not_qname: qname_sift(&self.not_qname, &other.not_qname, true),
            not_defined: self.not_defined && other.not_defined,
            not_defined_sibling: self.not_defined_sibling && other.not_defined_sibling,
        }
    }
}

// ---------------------------------------------------------------------------
// Identity constraints, notations, annotations
// ---------------------------------------------------------------------------

#[derive(Copy, Clone, PartialEq, Eq, Debug, Structural)]
pub enum IdcKind {
    Unique,
    Key,
    KeyRef,
}

/// An `xs:unique`, `xs:key` or `xs:keyref`.
///
/// A `keyref` is a declared foreign key between two element sets, which is
/// exactly the relational structure a generator needs for its links.
#[derive(Clone, Debug)]
pub struct IdentityConstraint {
    pub name: QName,
    pub kind: IdcKind,
    /// The restricted XPath subset selecting the constrained node set.
    pub selector: String,
    /// The restricted XPath subsets selecting the key fields.
    pub fields: Vec<String>,
    /// The same two, parsed. Prefixes bind in the *schema* document, so this
    /// is settled at load time where those bindings are still in hand.
    pub selector_paths: crate::identity::Paths,
    pub field_paths: Vec<crate::identity::Paths>,
    /// The key a `keyref` refers to.
    pub refer: Option<IdcId>,
    pub annotation: Option<AnnotationId>,
    pub span: Span,
}

#[derive(Clone, Debug)]
pub struct NotationDecl {
    pub name: QName,
    pub public_id: Option<String>,
    pub system_id: Option<String>,
    pub annotation: Option<AnnotationId>,
    pub span: Span,
}

/// Machine-readable annotation content, kept verbatim.
///
/// This is the seam a caller's own conventions hang on: whatever a schema
/// family encodes here needs the original XML, not a summary of it.
#[derive(Clone, PartialEq, Eq, Debug)]
pub struct AppInfo {
    pub source: Option<String>,
    /// The `appinfo` element's children, re-serialized.
    pub xml: String,
}

#[derive(Clone, PartialEq, Eq, Debug)]
pub struct Annotation {
    pub documentation: Vec<String>,
    pub appinfo: Vec<AppInfo>,
}

/// Paragraphs joined with a blank line between each two.
pub open spec fn joined_paragraphs(docs: Seq<Seq<char>>) -> Seq<char>
    decreases docs.len(),
{
    if docs.len() == 0 {
        Seq::empty()
    } else if docs.len() == 1 {
        docs[0]
    } else {
        joined_paragraphs(docs.drop_last()) + seq!['\n', '\n'] + docs.last()
    }
}

impl Default for Annotation {
    fn default() -> (r: Annotation)
        ensures
            r.documentation@.len() == 0,
            r.appinfo@.len() == 0,
    {
        Annotation { documentation: Vec::new(), appinfo: Vec::new() }
    }
}

impl Annotation {
    pub fn is_empty(&self) -> (r: bool)
        ensures
            r == (self.documentation@.len() == 0 && self.appinfo@.len() == 0),
    {
        self.documentation.len() == 0 && self.appinfo.len() == 0
    }

    /// The documentation entries joined into one string, a blank line
    /// between each two.
    pub fn doc(&self) -> (r: String)
        ensures
            r@ == joined_paragraphs(self.documentation@.map_values(|d: String| d@)),
    {
        let ghost docs = self.documentation@.map_values(|d: String| d@);
        let mut out: Vec<char> = Vec::new();
        let mut i: usize = 0;
        while i < self.documentation.len()
            invariant
                i <= self.documentation.len(),
                docs == self.documentation@.map_values(|d: String| d@),
                out@ == joined_paragraphs(docs.take(i as int)),
            decreases self.documentation.len() - i,
        {
            assert(docs.take(i + 1).drop_last() =~= docs.take(i as int));
            assert(docs.take(i + 1).last() == self.documentation@[i as int]@);
            if i > 0 {
                out.push('\n');
                out.push('\n');
            } else {
                assert(out@ =~= Seq::<char>::empty());
            }
            push_str(&mut out, self.documentation[i].as_str());
            i += 1;
            assert(out@ =~= joined_paragraphs(docs.take(i as int)));
        }
        assert(docs.take(self.documentation.len() as int) =~= docs);
        string_from_chars(&out)
    }
}

// ---------------------------------------------------------------------------
// Symbol spaces and provenance
// ---------------------------------------------------------------------------

/// XSD's seven independent symbol spaces.
///
/// A name collides only within one space *and* one namespace, so `Foo` the
/// type and `Foo` the element are unrelated components.
#[derive(Copy, Clone, PartialEq, Eq, Hash, Debug, Structural)]
pub enum SymbolSpace {
    Type,
    Element,
    Attribute,
    ModelGroup,
    AttributeGroup,
    Notation,
    IdentityConstraint,
}

impl SymbolSpace {
    pub open spec fn spec_as_str(self) -> &'static str {
        match self {
            SymbolSpace::Type => "type",
            SymbolSpace::Element => "element",
            SymbolSpace::Attribute => "attribute",
            SymbolSpace::ModelGroup => "model group",
            SymbolSpace::AttributeGroup => "attribute group",
            SymbolSpace::Notation => "notation",
            SymbolSpace::IdentityConstraint => "identity constraint",
        }
    }

    pub fn as_str(self) -> (r: &'static str)
        ensures
            r == self.spec_as_str(),
    {
        match self {
            SymbolSpace::Type => "type",
            SymbolSpace::Element => "element",
            SymbolSpace::Attribute => "attribute",
            SymbolSpace::ModelGroup => "model group",
            SymbolSpace::AttributeGroup => "attribute group",
            SymbolSpace::Notation => "notation",
            SymbolSpace::IdentityConstraint => "identity constraint",
        }
    }
}

/// Provenance for one loaded schema document.
#[derive(Clone, Debug)]
pub struct SourceDocument {
    pub uri: String,
    pub target_namespace: Option<Namespace>,
    /// True when this document was absorbed into an includer's namespace by
    /// a chameleon include.
    pub chameleon: bool,
    /// The `version` attribute of `xs:schema`, verbatim: a bare token with
    /// no processing role, reported rather than interpreted.
    pub version: Option<String>,
}

/// Counts of every arena, for diagnostics and tests.
#[derive(Copy, Clone, PartialEq, Eq, Debug, Structural)]
pub struct ComponentCounts {
    pub types: usize,
    pub elements: usize,
    pub attributes: usize,
    pub particles: usize,
    pub model_groups: usize,
    pub attribute_groups: usize,
    pub identity_constraints: usize,
    pub notations: usize,
    pub annotations: usize,
}

} // verus!
