//! A compiled set of schema components, and the queries over it.
//!
//! Components live in arenas addressed by `Copy` ids, and names in one
//! [`NameTable`] per symbol space. A [`Schemas`] is produced only by
//! [`crate::compile::compile`], so it never exists in an unresolved state:
//! every id it holds names a component it holds.

use vstd::prelude::*;
use crate::content::Content;
use crate::datatypes::Builtin;
use crate::load::Version;
use crate::model::{
    AnnotationId, Annotation, Arena, AttrGroupId, AttributeDecl, AttributeGroupDef, AttributeId,
    AttributeUse, ComponentCounts, DerivationMethod, DerivationSet, ElementDecl, ElementId, GroupId,
    IdcId, IdentityConstraint, ModelGroupDef, NotationDecl, NotationId, Particle, ParticleId,
    SourceDocument, Term, TypeDefinition, TypeId,
};
use crate::names::{Interner, Namespace, QName, clark_chars};

verus! {

// ---------------------------------------------------------------------------
// Name tables
// ---------------------------------------------------------------------------

/// Whether some entry of `s` is named `q`.
pub open spec fn has_key<I>(s: Seq<(QName, I)>, q: QName) -> bool {
    exists|i: int| 0 <= i < s.len() && (#[trigger] s[i]).0 == q
}

/// The position of an entry of `s` named `q`, when there is one.
pub open spec fn key_index<I>(s: Seq<(QName, I)>, q: QName) -> int {
    choose|i: int| 0 <= i < s.len() && (#[trigger] s[i]).0 == q
}

/// The entry of `s` named `q`, when there is one.
pub open spec fn lookup_in<I>(s: Seq<(QName, I)>, q: QName) -> Option<I> {
    if has_key(s, q) {
        Some(s[key_index(s, q)].1)
    } else {
        None
    }
}

/// No name occurs twice in `s`.
pub open spec fn distinct_keys<I>(s: Seq<(QName, I)>) -> bool {
    forall|i: int, j: int| 0 <= i < s.len() && 0 <= j < s.len() && i != j ==> (#[trigger] s[i]).0 != (
    #[trigger] s[j]).0
}

/// The entry named `q` is the one at `i`, when names are distinct.
pub proof fn lemma_lookup_at<I>(s: Seq<(QName, I)>, q: QName, i: int)
    requires
        distinct_keys(s),
        0 <= i < s.len(),
        s[i].0 == q,
    ensures
        lookup_in(s, q) == Some(s[i].1),
{
    assert(has_key(s, q));
    let j = choose|j: int| 0 <= j < s.len() && (#[trigger] s[j]).0 == q;
    assert(j == i);
}

/// A name that is declared has an entry holding what it is declared as.
pub proof fn lemma_lookup_found<I>(s: Seq<(QName, I)>, q: QName)
    requires
        has_key(s, q),
    ensures
        exists|i: int| 0 <= i < s.len() && (#[trigger] s[i]).0 == q && lookup_in(s, q) == Some(s[i].1),
{
    let i = key_index(s, q);
    assert(0 <= i < s.len() && s[i].0 == q && lookup_in(s, q) == Some(s[i].1));
}

/// One global symbol space: names to component ids, each name once.
#[derive(Debug)]
pub struct NameTable<I> {
    entries: Vec<(QName, I)>,
}

impl<I> View for NameTable<I> {
    type V = Seq<(QName, I)>;

    closed spec fn view(&self) -> Seq<(QName, I)> {
        self.entries@
    }
}

impl<I> NameTable<I> {
    #[verifier::type_invariant]
    closed spec fn wf(self) -> bool {
        distinct_keys(self.entries@)
    }

    /// The id declared under `q`, if any.
    pub open spec fn lookup(self, q: QName) -> Option<I> {
        lookup_in(self@, q)
    }
}

impl<I: Copy> Clone for NameTable<I> {
    fn clone(&self) -> (r: Self)
        ensures
            r@ == self@,
    {
        proof {
            use_type_invariant(self);
        }
        let mut entries: Vec<(QName, I)> = Vec::new();
        let mut i: usize = 0;
        while i < self.entries.len()
            invariant
                i <= self.entries@.len(),
                entries@ == self.entries@.take(i as int),
            decreases self.entries.len() - i,
        {
            let e = self.entries[i];
            entries.push(e);
            assert(self.entries@.take(i + 1) =~= self.entries@.take(i as int).push(e));
            i += 1;
        }
        assert(self.entries@.take(self.entries@.len() as int) =~= self.entries@);
        NameTable { entries }
    }
}

impl<I: Copy> NameTable<I> {
    pub fn new() -> (r: Self)
        ensures
            r@ == Seq::<(QName, I)>::empty(),
            forall|q: QName| r.lookup(q) is None,
    {
        NameTable { entries: Vec::new() }
    }

    /// How many names are declared.
    pub fn len(&self) -> (r: usize)
        ensures
            r == self@.len(),
    {
        self.entries.len()
    }

    pub fn is_empty(&self) -> (r: bool)
        ensures
            r == (self@.len() == 0),
    {
        self.entries.len() == 0
    }

    /// Every name with its id, in the order first declared.
    pub fn entries(&self) -> (r: &[(QName, I)])
        ensures
            r@ == self@,
            distinct_keys(self@),
    {
        proof {
            use_type_invariant(self);
        }
        self.entries.as_slice()
    }

    fn position(&self, q: QName) -> (r: Option<usize>)
        ensures
            match r {
                Some(i) => i < self@.len() && self@[i as int].0 == q,
                None => !has_key(self@, q),
            },
    {
        let mut i: usize = 0;
        while i < self.entries.len()
            invariant
                i <= self.entries@.len(),
                forall|j: int| 0 <= j < i ==> (#[trigger] self.entries@[j]).0 != q,
            decreases self.entries.len() - i,
        {
            if self.entries[i].0 == q {
                return Some(i);
            }
            i += 1;
        }
        None
    }

    /// The id declared under `q`.
    pub fn get(&self, q: QName) -> (r: Option<I>)
        ensures
            r == self.lookup(q),
    {
        proof {
            use_type_invariant(self);
        }
        match self.position(q) {
            Some(i) => {
                proof {
                    lemma_lookup_at(self@, q, i as int);
                }
                Some(self.entries[i].1)
            },
            None => None,
        }
    }

    /// Declares `q` as `id`, replacing an earlier declaration of the name,
    /// which is returned.
    pub fn insert(&mut self, q: QName, id: I) -> (r: Option<I>)
        ensures
            r == old(self).lookup(q),
            final(self).lookup(q) == Some(id),
            forall|k: QName| k != q ==> final(self).lookup(k) == old(self).lookup(k),
            forall|k: QName| has_key(final(self)@, k) <== (k == q || has_key(old(self)@, k)),
            final(self)@.len() == old(self)@.len() + (if has_key(old(self)@, q) { 0int } else { 1int }),
    {
        proof {
            use_type_invariant(&*self);
        }
        let ghost before = self.entries@;
        match self.position(q) {
            Some(i) => {
                proof {
                    lemma_lookup_at(before, q, i as int);
                }
                let previous = self.entries[i].1;
                let mut v: Vec<(QName, I)> = Vec::new();
                std::mem::swap(&mut v, &mut self.entries);
                v.set(i, (q, id));
                let ghost after = v@;
                assert(distinct_keys(after));
                self.entries = v;
                proof {
                    lemma_lookup_at(after, q, i as int);
                    assert forall|k: QName| k != q implies lookup_in(after, k) == lookup_in(before, k) by {
                        if has_key(before, k) {
                            let j = choose|j: int| 0 <= j < before.len() && (#[trigger] before[j]).0 == k;
                            lemma_lookup_at(before, k, j);
                            lemma_lookup_at(after, k, j);
                        } else {
                            assert(!has_key(after, k)) by {
                                if has_key(after, k) {
                                    let j = choose|j: int| 0 <= j < after.len() && (#[trigger] after[j]).0 == k;
                                    assert(before[j].0 == k);
                                }
                            }
                        }
                    }
                    assert forall|k: QName| (k == q || has_key(before, k)) implies has_key(after, k) by {
                        if k == q {
                            assert(after[i as int].0 == k);
                        } else {
                            let j = choose|j: int| 0 <= j < before.len() && (#[trigger] before[j]).0 == k;
                            assert(after[j].0 == k);
                        }
                    }
                }
                Some(previous)
            },
            None => {
                let mut v: Vec<(QName, I)> = Vec::new();
                std::mem::swap(&mut v, &mut self.entries);
                v.push((q, id));
                let ghost after = v@;
                assert(distinct_keys(after));
                self.entries = v;
                proof {
                    lemma_lookup_at(after, q, before.len() as int);
                    assert forall|k: QName| k != q implies lookup_in(after, k) == lookup_in(before, k) by {
                        if has_key(before, k) {
                            let j = choose|j: int| 0 <= j < before.len() && (#[trigger] before[j]).0 == k;
                            lemma_lookup_at(before, k, j);
                            lemma_lookup_at(after, k, j);
                        } else {
                            assert(!has_key(after, k)) by {
                                if has_key(after, k) {
                                    let j = choose|j: int| 0 <= j < after.len() && (#[trigger] after[j]).0 == k;
                                    assert(before[j].0 == k);
                                }
                            }
                        }
                    }
                    assert forall|k: QName| (k == q || has_key(before, k)) implies has_key(after, k) by {
                        if k == q {
                            assert(after[before.len() as int].0 == k);
                        } else {
                            let j = choose|j: int| 0 <= j < before.len() && (#[trigger] before[j]).0 == k;
                            assert(after[j].0 == k);
                        }
                    }
                }
                None
            },
        }
    }
}

/// The global symbol spaces of a schema set, one table per space.
#[derive(Clone, Debug)]
pub struct SymbolTables {
    pub types: NameTable<TypeId>,
    pub elements: NameTable<ElementId>,
    pub attributes: NameTable<AttributeId>,
    pub model_groups: NameTable<GroupId>,
    pub attribute_groups: NameTable<AttrGroupId>,
    pub notations: NameTable<NotationId>,
    pub identity_constraints: NameTable<IdcId>,
}

impl Default for SymbolTables {
    fn default() -> (r: SymbolTables)
        ensures
            r.types@.len() == 0 && r.elements@.len() == 0 && r.attributes@.len() == 0
                && r.model_groups@.len() == 0 && r.attribute_groups@.len() == 0 && r.notations@.len()
                == 0 && r.identity_constraints@.len() == 0,
    {
        SymbolTables {
            types: NameTable::new(),
            elements: NameTable::new(),
            attributes: NameTable::new(),
            model_groups: NameTable::new(),
            attribute_groups: NameTable::new(),
            notations: NameTable::new(),
            identity_constraints: NameTable::new(),
        }
    }
}

// ---------------------------------------------------------------------------
// Schemas
// ---------------------------------------------------------------------------

/// The step from a type to its base, when there is one: the type's own
/// `base`, unless that is the type itself (the top of a branch) or a
/// placeholder.
pub open spec fn next_base_of(types: Seq<TypeDefinition>, id: TypeId) -> Option<TypeId> {
    if id@ < types.len() {
        let b = base_of(types[id@ as int]);
        if b == id || b@ == u32::MAX {
            None
        } else {
            Some(b)
        }
    } else {
        None
    }
}

/// A type definition's base.
pub open spec fn base_of(t: TypeDefinition) -> TypeId {
    match t {
        TypeDefinition::Simple(s) => s.base,
        TypeDefinition::Complex(c) => c.base,
    }
}

/// The bases above `id`, nearest first, following at most `n + 1` steps: a
/// chain that loops is cut off rather than followed forever.
pub open spec fn bases_above(types: Seq<TypeDefinition>, id: TypeId, n: nat) -> Seq<TypeId>
    decreases n,
{
    match next_base_of(types, id) {
        None => Seq::empty(),
        Some(b) => if n == 0 {
            seq![b]
        } else {
            seq![b] + bases_above(types, b, (n - 1) as nat)
        },
    }
}

/// Whether reaching `t` from its base uses a method `blocked` bars. A simple
/// type's step counts as a restriction.
pub open spec fn step_blocked(t: TypeDefinition, blocked: DerivationSet) -> bool {
    match t {
        TypeDefinition::Complex(c) => match c.derivation {
            DerivationMethod::Extension => blocked.extension,
            DerivationMethod::Restriction => blocked.restriction,
        },
        TypeDefinition::Simple(_) => blocked.restriction,
    }
}

/// Whether following bases up from `id` reaches `base` within `n` steps
/// without taking a step that `blocked` bars.
pub open spec fn reaches_unblocked(
    types: Seq<TypeDefinition>,
    id: TypeId,
    base: TypeId,
    blocked: DerivationSet,
    n: nat,
) -> bool
    decreases n,
{
    if id == base {
        true
    } else if !(id@ < types.len()) {
        false
    } else if step_blocked(types[id@ as int], blocked) {
        false
    } else {
        match next_base_of(types, id) {
            None => false,
            Some(b) => n > 0 && reaches_unblocked(types, b, base, blocked, (n - 1) as nat),
        }
    }
}

/// The members listed for `head` in a substitution table.
pub open spec fn members_in(table: Seq<(ElementId, Vec<ElementId>)>, head: ElementId) -> Seq<ElementId> {
    if exists|i: int| 0 <= i < table.len() && (#[trigger] table[i]).0 == head {
        table[choose|i: int| 0 <= i < table.len() && (#[trigger] table[i]).0 == head].1@
    } else {
        Seq::empty()
    }
}

/// A compiled set of schema components.
///
/// Produced only by [`compile`], so it never exists in an unresolved state:
/// every element's type, every built-in and every substitution-group entry
/// names a component held here.
#[derive(Debug)]
pub struct Schemas {
    pub(crate) types: Arena<TypeDefinition>,
    pub(crate) elements: Arena<ElementDecl>,
    pub(crate) attributes: Arena<AttributeDecl>,
    pub(crate) particles: Arena<Particle>,
    pub(crate) model_groups: Arena<ModelGroupDef>,
    pub(crate) attribute_groups: Arena<AttributeGroupDef>,
    pub(crate) identity_constraints: Arena<IdentityConstraint>,
    pub(crate) notations: Arena<NotationDecl>,
    pub(crate) annotations: Arena<Annotation>,
    pub(crate) names: Interner,
    pub(crate) globals: SymbolTables,
    /// The type of each built-in, at the built-in's position in
    /// [`Builtin::all`].
    pub(crate) builtins: Vec<TypeId>,
    /// Element id -> every element that may substitute for it, transitively.
    pub(crate) substitution_closure: Vec<(ElementId, Vec<ElementId>)>,
    pub(crate) documents: Vec<SourceDocument>,
    /// Which XSD the documents were read as.
    pub(crate) xsd_version: Version,
    /// The compiled content of each type, at the type's position; empty
    /// until the content models are compiled.
    pub(crate) content_models: Vec<Option<Content>>,
}

impl Schemas {
    /// Every id held here names a component held here.
    #[verifier::type_invariant]
    pub closed spec fn wf(self) -> bool {
        &&& self.names.wf()
        &&& self.types@.len() <= u32::MAX
        &&& self.elements@.len() <= u32::MAX
        &&& self.attributes@.len() <= u32::MAX
        &&& self.particles@.len() <= u32::MAX
        &&& self.model_groups@.len() <= u32::MAX
        &&& self.attribute_groups@.len() <= u32::MAX
        &&& self.identity_constraints@.len() <= u32::MAX
        &&& self.notations@.len() <= u32::MAX
        &&& self.annotations@.len() <= u32::MAX
        &&& self.builtins@.len() == 51
        &&& forall|i: int| 0 <= i < 51 ==> (#[trigger] self.builtins@[i])@ < self.types@.len()
        &&& forall|e: int| 0 <= e < self.elements@.len() ==> (#[trigger] self.elements@[e]).type_id@ < self.types@.len()
        &&& forall|k: int| 0 <= k < self.substitution_closure@.len() ==> {
            &&& (#[trigger] self.substitution_closure@[k]).0@ < self.elements@.len()
            &&& forall|m: int| 0 <= m < self.substitution_closure@[k].1@.len() ==> (
            #[trigger] self.substitution_closure@[k].1@[m])@ < self.elements@.len()
        }
        &&& forall|i: int, j: int|
            0 <= i < self.substitution_closure@.len() && 0 <= j < self.substitution_closure@.len() && i
                != j ==> (#[trigger] self.substitution_closure@[i]).0 != (
            #[trigger] self.substitution_closure@[j]).0
    }

    /// The type definitions, at the positions their ids name.
    pub closed spec fn type_defs(self) -> Seq<TypeDefinition> {
        self.types@
    }

    /// The element declarations, at the positions their ids name.
    pub closed spec fn element_decls(self) -> Seq<ElementDecl> {
        self.elements@
    }

    pub closed spec fn attribute_decls(self) -> Seq<AttributeDecl> {
        self.attributes@
    }

    pub closed spec fn particle_defs(self) -> Seq<Particle> {
        self.particles@
    }

    pub closed spec fn group_defs(self) -> Seq<ModelGroupDef> {
        self.model_groups@
    }

    pub closed spec fn attribute_group_defs(self) -> Seq<AttributeGroupDef> {
        self.attribute_groups@
    }

    pub closed spec fn constraint_defs(self) -> Seq<IdentityConstraint> {
        self.identity_constraints@
    }

    pub closed spec fn notation_defs(self) -> Seq<NotationDecl> {
        self.notations@
    }

    pub closed spec fn annotation_defs(self) -> Seq<Annotation> {
        self.annotations@
    }

    /// The interned strings.
    pub closed spec fn interned(self) -> Seq<Seq<char>> {
        self.names@
    }

    /// The global symbol tables.
    pub closed spec fn symbols(self) -> SymbolTables {
        self.globals
    }

    /// The type of each built-in, by the built-in's position.
    pub closed spec fn builtin_ids(self) -> Seq<TypeId> {
        self.builtins@
    }

    /// The elements that may substitute for `head`, transitively, not
    /// counting `head` itself.
    pub closed spec fn closure_of(self, head: ElementId) -> Seq<ElementId> {
        members_in(self.substitution_closure@, head)
    }

    pub closed spec fn contents(self) -> Seq<Option<Content>> {
        self.content_models@
    }

    pub closed spec fn version_read(self) -> Version {
        self.xsd_version
    }

    pub closed spec fn document_list(self) -> Seq<SourceDocument> {
        self.documents@
    }

    /// Whether `q` is the name `{ns}local` here; an empty namespace is none.
    pub open spec fn denotes(self, q: QName, ns: Option<Seq<char>>, local: Seq<char>) -> bool {
        &&& q.local@ < self.interned().len()
        &&& self.interned()[q.local@ as int] == local
        &&& match ns {
            Some(u) if u.len() > 0 => q.ns matches Some(n) && n@ < self.interned().len()
                && self.interned()[n@ as int] == u,
            _ => q.ns is None,
        }
    }

    /// The string interner, for turning [`QName`]s back into text.
    pub fn names(&self) -> (r: &Interner)
        ensures
            r@ == self.interned(),
            r.wf(),
    {
        proof {
            use_type_invariant(self);
        }
        &self.names
    }

    /// The global symbol tables, one per symbol space.
    pub fn globals(&self) -> (r: &SymbolTables)
        ensures
            *r == self.symbols(),
    {
        &self.globals
    }

    /// The documents this schema set was built from.
    pub fn documents(&self) -> (r: &[SourceDocument])
        ensures
            r@ == self.document_list(),
    {
        self.documents.as_slice()
    }

    /// Which XSD these documents were read as.
    ///
    /// Not the `xs:schema/@version` attribute, which says what the
    /// vocabulary calls itself: this is the language the reader applied.
    pub fn xsd_version(&self) -> (r: Version)
        ensures
            r == self.version_read(),
    {
        self.xsd_version
    }

    /// Builds a [`QName`] from a namespace URI and local name, for lookups.
    ///
    /// Returns `None` when either string was never interned, which means no
    /// component in this schema set can carry that name.
    pub fn qname(&self, ns: Option<&str>, local: &str) -> (r: Option<QName>)
        ensures
            match r {
                Some(q) => self.denotes(q, opt_str(ns), local@),
                None => forall|q: QName| !self.denotes(q, opt_str(ns), local@),
            },
    {
        proof {
            use_type_invariant(self);
        }
        let l = match self.names.lookup(local) {
            Some(l) => l,
            None => {
                return None;
            },
        };
        let n = match ns {
            None => None,
            Some(u) => {
                if u.unicode_len() == 0 {
                    None
                } else {
                    match self.names.lookup(u) {
                        Some(sym) => Some(Namespace::from_symbol(sym)),
                        None => {
                            return None;
                        },
                    }
                }
            },
        };
        Some(QName::new(n, l))
    }
}

/// An optional `&str` as optional characters.
pub open spec fn opt_str(s: Option<&str>) -> Option<Seq<char>> {
    match s {
        Some(u) => Some(u@),
        None => None,
    }
}

impl Schemas {
    /// Looks up a global element declaration, by id.
    pub fn element_id(&self, ns: Option<&str>, local: &str) -> (r: Option<ElementId>)
        ensures
            match r {
                Some(id) => exists|q: QName|
                    self.denotes(q, opt_str(ns), local@) && self.symbols().elements.lookup(q) == Some(id),
                None => forall|q: QName|
                    self.denotes(q, opt_str(ns), local@) ==> self.symbols().elements.lookup(q) is None,
            },
    {
        match self.qname(ns, local) {
            Some(q) => {
                proof {
                    use_type_invariant(self);
                    self.lemma_denotes_one(q, opt_str(ns), local@);
                }
                self.globals.elements.get(q)
            },
            None => None,
        }
    }

    /// Looks up a global type definition, by id.
    pub fn type_id(&self, ns: Option<&str>, local: &str) -> (r: Option<TypeId>)
        ensures
            match r {
                Some(id) => exists|q: QName|
                    self.denotes(q, opt_str(ns), local@) && self.symbols().types.lookup(q) == Some(id),
                None => forall|q: QName|
                    self.denotes(q, opt_str(ns), local@) ==> self.symbols().types.lookup(q) is None,
            },
    {
        match self.qname(ns, local) {
            Some(q) => {
                proof {
                    use_type_invariant(self);
                    self.lemma_denotes_one(q, opt_str(ns), local@);
                }
                self.globals.types.get(q)
            },
            None => None,
        }
    }

    /// Looks up a global attribute declaration, by id.
    pub fn attribute_id(&self, ns: Option<&str>, local: &str) -> (r: Option<AttributeId>)
        ensures
            match r {
                Some(id) => exists|q: QName|
                    self.denotes(q, opt_str(ns), local@) && self.symbols().attributes.lookup(q) == Some(id),
                None => forall|q: QName|
                    self.denotes(q, opt_str(ns), local@) ==> self.symbols().attributes.lookup(q) is None,
            },
    {
        match self.qname(ns, local) {
            Some(q) => {
                proof {
                    use_type_invariant(self);
                    self.lemma_denotes_one(q, opt_str(ns), local@);
                }
                self.globals.attributes.get(q)
            },
            None => None,
        }
    }

    /// Only one name is `{ns}local`: the interned strings are distinct.
    proof fn lemma_denotes_one(&self, q: QName, ns: Option<Seq<char>>, local: Seq<char>)
        requires
            self.denotes(q, ns, local),
            self.names.wf(),
        ensures
            forall|p: QName| #[trigger] self.denotes(p, ns, local) ==> p == q,
    {
        crate::names::lemma_wf_distinct(self.names);
        assert forall|p: QName| #[trigger] self.denotes(p, ns, local) implies p == q by {
            assert(p.local@ == q.local@);
            crate::names::lemma_symbol_view(p.local, q.local);
            match (p.ns, q.ns) {
                (Some(a), Some(b)) => {
                    assert(a@ == b@);
                    crate::names::lemma_namespace_view(a, b);
                },
                _ => {},
            }
        }
    }

    /// The type of a built-in datatype. Always present.
    pub fn builtin(&self, b: Builtin) -> (r: TypeId)
        ensures
            r == self.builtin_ids()[b.spec_index()],
            r@ < self.type_defs().len(),
    {
        proof {
            use_type_invariant(self);
            crate::datatypes::law_table_and_index_agree();
        }
        self.builtins[b.slot()]
    }

    /// The built-in a type *is*, if it is one.
    pub fn as_builtin(&self, id: TypeId) -> (r: Option<Builtin>)
        requires
            id@ < self.type_defs().len(),
        ensures
            r == match self.type_defs()[id@ as int] {
                TypeDefinition::Simple(s) => s.builtin,
                TypeDefinition::Complex(_) => None,
            },
    {
        match self.types.at(id.index()) {
            TypeDefinition::Simple(s) => s.builtin,
            TypeDefinition::Complex(_) => None,
        }
    }

    /// Renders a name in James Clark notation, `{ns}local`.
    pub fn display_name(&self, q: QName) -> (r: String)
        requires
            q.local@ < self.interned().len(),
            q.ns matches Some(n) ==> n@ < self.interned().len(),
        ensures
            r@ == clark_chars(
                match q.ns {
                    Some(n) => Some(self.interned()[n@ as int]),
                    None => None,
                },
                self.interned()[q.local@ as int],
            ),
    {
        proof {
            use_type_invariant(self);
        }
        self.names.display(q)
    }

    /// Looks a type definition up by id, `None` if out of range.
    pub fn get_type(&self, id: TypeId) -> (r: Option<&TypeDefinition>)
        ensures
            r == (if id@ < self.type_defs().len() { Some(&self.type_defs()[id@ as int]) } else { None }),
    {
        if id.index() < self.types.len() {
            Some(self.types.at(id.index()))
        } else {
            None
        }
    }

    /// Looks an element declaration up by id, `None` if out of range.
    pub fn get_element(&self, id: ElementId) -> (r: Option<&ElementDecl>)
        ensures
            r == (if id@ < self.element_decls().len() { Some(&self.element_decls()[id@ as int]) } else { None }),
    {
        if id.index() < self.elements.len() {
            Some(self.elements.at(id.index()))
        } else {
            None
        }
    }

    /// Looks an attribute declaration up by id, `None` if out of range.
    pub fn get_attribute(&self, id: AttributeId) -> (r: Option<&AttributeDecl>)
        ensures
            r == (if id@ < self.attribute_decls().len() { Some(&self.attribute_decls()[id@ as int]) } else { None }),
    {
        if id.index() < self.attributes.len() {
            Some(self.attributes.at(id.index()))
        } else {
            None
        }
    }

    /// Looks a particle up by id, `None` if out of range.
    pub fn get_particle(&self, id: ParticleId) -> (r: Option<&Particle>)
        ensures
            r == (if id@ < self.particle_defs().len() { Some(&self.particle_defs()[id@ as int]) } else { None }),
    {
        if id.index() < self.particles.len() {
            Some(self.particles.at(id.index()))
        } else {
            None
        }
    }

    /// Looks a named model group up by id, `None` if out of range.
    pub fn get_model_group(&self, id: GroupId) -> (r: Option<&ModelGroupDef>)
        ensures
            r == (if id@ < self.group_defs().len() { Some(&self.group_defs()[id@ as int]) } else { None }),
    {
        if id.index() < self.model_groups.len() {
            Some(self.model_groups.at(id.index()))
        } else {
            None
        }
    }

    /// Looks an attribute group up by id, `None` if out of range.
    pub fn get_attribute_group(&self, id: AttrGroupId) -> (r: Option<&AttributeGroupDef>)
        ensures
            r == (if id@ < self.attribute_group_defs().len() {
                Some(&self.attribute_group_defs()[id@ as int])
            } else {
                None
            }),
    {
        if id.index() < self.attribute_groups.len() {
            Some(self.attribute_groups.at(id.index()))
        } else {
            None
        }
    }

    /// Looks an identity constraint up by id, `None` if out of range.
    pub fn get_identity_constraint(&self, id: IdcId) -> (r: Option<&IdentityConstraint>)
        ensures
            r == (if id@ < self.constraint_defs().len() { Some(&self.constraint_defs()[id@ as int]) } else { None }),
    {
        if id.index() < self.identity_constraints.len() {
            Some(self.identity_constraints.at(id.index()))
        } else {
            None
        }
    }

    /// Looks a notation up by id, `None` if out of range.
    pub fn get_notation(&self, id: NotationId) -> (r: Option<&NotationDecl>)
        ensures
            r == (if id@ < self.notation_defs().len() { Some(&self.notation_defs()[id@ as int]) } else { None }),
    {
        if id.index() < self.notations.len() {
            Some(self.notations.at(id.index()))
        } else {
            None
        }
    }

    /// Looks an annotation up by id, `None` if out of range.
    pub fn get_annotation(&self, id: AnnotationId) -> (r: Option<&Annotation>)
        ensures
            r == (if id@ < self.annotation_defs().len() { Some(&self.annotation_defs()[id@ as int]) } else { None }),
    {
        if id.index() < self.annotations.len() {
            Some(self.annotations.at(id.index()))
        } else {
            None
        }
    }

    /// Every type definition; the id of each is its position.
    pub fn iter_types(&self) -> (r: &[TypeDefinition])
        ensures
            r@ == self.type_defs(),
            r@.len() <= u32::MAX,
    {
        proof {
            use_type_invariant(self);
        }
        self.types.iter()
    }

    /// Every element declaration; the id of each is its position.
    pub fn iter_elements(&self) -> (r: &[ElementDecl])
        ensures
            r@ == self.element_decls(),
    {
        self.elements.iter()
    }

    /// Every attribute declaration; the id of each is its position.
    pub fn iter_attributes(&self) -> (r: &[AttributeDecl])
        ensures
            r@ == self.attribute_decls(),
    {
        self.attributes.iter()
    }

    /// Every particle; the id of each is its position.
    pub fn iter_particles(&self) -> (r: &[Particle])
        ensures
            r@ == self.particle_defs(),
    {
        self.particles.iter()
    }

    /// Every named model group; the id of each is its position.
    pub fn iter_model_groups(&self) -> (r: &[ModelGroupDef])
        ensures
            r@ == self.group_defs(),
    {
        self.model_groups.iter()
    }

    /// Every attribute group; the id of each is its position.
    pub fn iter_attribute_groups(&self) -> (r: &[AttributeGroupDef])
        ensures
            r@ == self.attribute_group_defs(),
    {
        self.attribute_groups.iter()
    }

    /// Every identity constraint; the id of each is its position.
    pub fn iter_identity_constraints(&self) -> (r: &[IdentityConstraint])
        ensures
            r@ == self.constraint_defs(),
    {
        self.identity_constraints.iter()
    }

    /// Every notation; the id of each is its position.
    pub fn iter_notations(&self) -> (r: &[NotationDecl])
        ensures
            r@ == self.notation_defs(),
    {
        self.notations.iter()
    }

    /// Every annotation; the id of each is its position.
    pub fn iter_annotations(&self) -> (r: &[Annotation])
        ensures
            r@ == self.annotation_defs(),
    {
        self.annotations.iter()
    }

    /// Counts of every arena, for diagnostics and tests.
    pub fn component_counts(&self) -> (r: ComponentCounts)
        ensures
            r.types == self.type_defs().len(),
            r.elements == self.element_decls().len(),
            r.attributes == self.attribute_decls().len(),
            r.particles == self.particle_defs().len(),
            r.model_groups == self.group_defs().len(),
            r.attribute_groups == self.attribute_group_defs().len(),
            r.identity_constraints == self.constraint_defs().len(),
            r.notations == self.notation_defs().len(),
            r.annotations == self.annotation_defs().len(),
    {
        ComponentCounts {
            types: self.types.len(),
            elements: self.elements.len(),
            attributes: self.attributes.len(),
            particles: self.particles.len(),
            model_groups: self.model_groups.len(),
            attribute_groups: self.attribute_groups.len(),
            identity_constraints: self.identity_constraints.len(),
            notations: self.notations.len(),
            annotations: self.annotations.len(),
        }
    }

    /// Every attribute use on a complex type, with inherited attribute groups
    /// already merged in; none on a simple type.
    pub fn attribute_uses(&self, id: TypeId) -> (r: &[AttributeUse])
        requires
            id@ < self.type_defs().len(),
        ensures
            r@ == match self.type_defs()[id@ as int] {
                TypeDefinition::Complex(c) => c.attribute_uses@,
                TypeDefinition::Simple(_) => Seq::<AttributeUse>::empty(),
            },
    {
        match self.types.at(id.index()) {
            TypeDefinition::Complex(t) => t.attribute_uses.as_slice(),
            TypeDefinition::Simple(_) => {
                let r: &[AttributeUse] = &[];
                assert(r@ =~= Seq::<AttributeUse>::empty());
                r
            },
        }
    }
}

/// The set a substitution is checked against: the head element's own `block`
/// and its type's, taken together.
pub open spec fn blocked_for(decl: ElementDecl, t: TypeDefinition) -> DerivationSet {
    let tb = match t {
        TypeDefinition::Complex(c) => c.block,
        TypeDefinition::Simple(_) => DerivationSet {
            extension: false,
            restriction: false,
            substitution: false,
            list: false,
            union: false,
        },
    };
    DerivationSet {
        extension: decl.block.extension || tb.extension,
        restriction: decl.block.restriction || tb.restriction,
        substitution: decl.block.substitution || tb.substitution,
        list: decl.block.list || tb.list,
        union: decl.block.union || tb.union,
    }
}

/// Whether a set bars nothing.
pub open spec fn bars_nothing(s: DerivationSet) -> bool {
    !(s.extension || s.restriction || s.substitution || s.list || s.union)
}

impl Schemas {
    /// The substitution members listed for `head`, or none.
    fn closure_members(&self, head: ElementId) -> (r: &[ElementId])
        ensures
            r@ == self.closure_of(head),
            forall|m: int| 0 <= m < r@.len() ==> (#[trigger] r@[m])@ < self.element_decls().len(),
    {
        proof {
            use_type_invariant(self);
        }
        let mut i: usize = 0;
        while i < self.substitution_closure.len()
            invariant
                self.wf(),
                i <= self.substitution_closure@.len(),
                forall|j: int| 0 <= j < i ==> (#[trigger] self.substitution_closure@[j]).0 != head,
            decreases self.substitution_closure.len() - i,
        {
            if self.substitution_closure[i].0 == head {
                proof {
                    let t = self.substitution_closure@;
                    let c = choose|k: int| 0 <= k < t.len() && (#[trigger] t[k]).0 == head;
                    assert(c == i);
                }
                return self.substitution_closure[i].1.as_slice();
            }
            i += 1;
        }
        let r: &[ElementId] = &[];
        assert(r@ =~= Seq::<ElementId>::empty());
        r
    }

    /// Every element that may appear where `head` is permitted, `head`
    /// included when it is not abstract.
    ///
    /// Substitution is transitive, so this is the closure, not the direct
    /// members.
    pub fn substitution_closure(&self, head: ElementId) -> (r: Vec<ElementId>)
        requires
            head@ < self.element_decls().len(),
        ensures
            r@ == (if self.element_decls()[head@ as int].is_abstract {
                Seq::empty()
            } else {
                seq![head]
            }) + self.closure_of(head),
    {
        let mut out: Vec<ElementId> = Vec::new();
        if !self.elements.at(head.index()).is_abstract {
            out.push(head);
        }
        let ghost start = out@;
        let members = self.closure_members(head);
        let mut i: usize = 0;
        while i < members.len()
            invariant
                i <= members@.len(),
                out@ == start + members@.take(i as int),
            decreases members.len() - i,
        {
            out.push(members[i]);
            assert(members@.take(i + 1) =~= members@.take(i as int).push(members@[i as int]));
            i += 1;
        }
        assert(members@.take(members@.len() as int) =~= members@);
        assert(start =~= (if self.element_decls()[head@ as int].is_abstract {
            Seq::empty()
        } else {
            seq![head]
        }));
        out
    }

    /// Walks a type's base chain from the type itself up to `xs:anyType`,
    /// stopping at a chain that loops.
    pub fn base_chain(&self, id: TypeId) -> (r: Vec<TypeId>)
        ensures
            r@ == seq![id] + bases_above(self.type_defs(), id, self.type_defs().len()),
    {
        let ghost types = self.type_defs();
        let ghost total = seq![id] + bases_above(types, id, types.len());
        let mut out: Vec<TypeId> = Vec::new();
        out.push(id);
        let mut cur = id;
        let mut guard: u64 = 0;
        proof {
            use_type_invariant(self);
        }
        loop
            invariant_except_break
                guard <= types.len(),
                types.len() <= u32::MAX,
                types == self.type_defs(),
                total == seq![id] + bases_above(types, id, types.len()),
                out@ + bases_above(types, cur, (types.len() - guard) as nat) == total,
            ensures
                out@ == total,
            decreases types.len() - guard,
        {
            match self.get_type(cur) {
                None => {
                    assert(out@ =~= total);
                    break;
                },
                Some(def) => {
                    let base = def.base();
                    if base == cur || base.is_placeholder() {
                        assert(out@ =~= total);
                        break;
                    }
                    let ghost n = (types.len() - guard) as nat;
                    out.push(base);
                    cur = base;
                    guard += 1;
                    if guard > self.types.len() as u64 {
                        assert(out@ =~= total);
                        break;
                    }
                    assert(out@ + bases_above(types, cur, (types.len() - guard) as nat) =~= total);
                },
            }
        }
        out
    }

    /// Whether `derived` is `base`, or is derived from it.
    pub fn derives_from(&self, derived: TypeId, base: TypeId) -> (r: bool)
        ensures
            r == (seq![derived] + bases_above(self.type_defs(), derived, self.type_defs().len())).contains(
                base,
            ),
    {
        let chain = self.base_chain(derived);
        let mut i: usize = 0;
        while i < chain.len()
            invariant
                i <= chain@.len(),
                chain@ == seq![derived] + bases_above(self.type_defs(), derived, self.type_defs().len()),
                forall|j: int| 0 <= j < i ==> chain@[j] != base,
            decreases chain.len() - i,
        {
            if chain[i] == base {
                assert(chain@[i as int] == base);
                return true;
            }
            i += 1;
        }
        false
    }

    /// Whether `derived` reaches `base` without using a derivation method
    /// that `blocked` disallows.
    ///
    /// The set applies at every step of the chain, not only the last. A
    /// simple type's step counts as a restriction.
    pub fn derives_from_unblocked(&self, derived: TypeId, base: TypeId, blocked: DerivationSet) -> (r:
        bool)
        ensures
            r == reaches_unblocked(self.type_defs(), derived, base, blocked, self.type_defs().len()),
    {
        let ghost types = self.type_defs();
        let mut id = derived;
        let mut guard: u64 = 0;
        proof {
            use_type_invariant(self);
        }
        loop
            invariant
                guard <= types.len(),
                types.len() <= u32::MAX,
                types == self.type_defs(),
                reaches_unblocked(types, id, base, blocked, (types.len() - guard) as nat)
                    == reaches_unblocked(types, derived, base, blocked, types.len()),
            decreases types.len() - guard,
        {
            if id == base {
                return true;
            }
            let def = match self.get_type(id) {
                Some(d) => d,
                None => {
                    return false;
                },
            };
            let step = match def {
                TypeDefinition::Complex(c) => match c.derivation {
                    DerivationMethod::Extension => blocked.extension,
                    DerivationMethod::Restriction => blocked.restriction,
                },
                TypeDefinition::Simple(_) => blocked.restriction,
            };
            if step {
                return false;
            }
            let next = def.base();
            if next == id || next.is_placeholder() {
                return false;
            }
            id = next;
            guard += 1;
            if guard > self.types.len() as u64 {
                return false;
            }
        }
    }

    /// The `block` a substitution for `head` is checked against.
    /// The elements that may appear where `head` is declared: `head` unless
    /// it is abstract, then its substitution group, each member of which
    /// the blocking in force at `head` admits.
    pub open spec fn substitutes_of(self, head: ElementId) -> Seq<ElementId> {
        let all = (if self.element_decls()[head@ as int].is_abstract {
            Seq::empty()
        } else {
            seq![head]
        }) + self.closure_of(head);
        if bars_nothing(self.blocked_at(head)) {
            all
        } else {
            all.filter(|m: ElementId| self.admits_substitute(head, m))
        }
    }

    pub open spec fn blocked_at(self, head: ElementId) -> DerivationSet {
        blocked_for(
            self.element_decls()[head@ as int],
            self.type_defs()[self.element_decls()[head@ as int].type_id@ as int],
        )
    }

    /// Whether `m`, a member of `head`'s substitution group, may stand in
    /// for it: its type reaches the head's without a barred step, when a
    /// derivation method is barred at all.
    pub open spec fn admits_substitute(self, head: ElementId, m: ElementId) -> bool {
        let blocked = self.blocked_at(head);
        m == head || (!blocked.substitution && (!(blocked.extension || blocked.restriction)
            || reaches_unblocked(
            self.type_defs(),
            self.element_decls()[m@ as int].type_id,
            self.element_decls()[head@ as int].type_id,
            blocked,
            self.type_defs().len(),
        )))
    }

    /// The substitution-group members that may actually stand in for `head`.
    ///
    /// [`Self::substitution_closure`] answers which elements are in the
    /// group; this answers which the head permits to replace it. `block` on
    /// the head, or on its type, bars substitution outright or bars the
    /// derivation methods a member's type may use to reach the head's.
    pub fn substitutable_for(&self, head: ElementId) -> (r: Vec<ElementId>)
        requires
            head@ < self.element_decls().len(),
        ensures
            r@ == self.substitutes_of(head),
            forall|k: int| 0 <= k < r@.len() ==> (#[trigger] r@[k])@ < self.element_decls().len(),
    {
        proof {
            use_type_invariant(self);
        }
        let head_decl = self.elements.at(head.index());
        let head_type = head_decl.type_id;
        let type_block = match self.types.at(head_type.index()) {
            TypeDefinition::Complex(c) => c.block,
            TypeDefinition::Simple(_) => DerivationSet {
                extension: false,
                restriction: false,
                substitution: false,
                list: false,
                union: false,
            },
        };
        let blocked = head_decl.block.union(type_block);
        assert(blocked == self.blocked_at(head));
        let all = self.substitution_closure(head);
        if blocked.is_empty() {
            return all;
        }
        let by_derivation = blocked.extension || blocked.restriction;
        let ghost pred = |m: ElementId| self.admits_substitute(head, m);
        let mut out: Vec<ElementId> = Vec::new();
        let mut i: usize = 0;
        while i < all.len()
            invariant
                i <= all@.len(),
                out@ == all@.take(i as int).filter(pred),
                pred == (|m: ElementId| self.admits_substitute(head, m)),
                blocked == self.blocked_at(head),
                by_derivation == (blocked.extension || blocked.restriction),
                head_type == self.element_decls()[head@ as int].type_id,
                forall|k: int| 0 <= k < all@.len() ==> (#[trigger] all@[k])@ < self.element_decls().len(),
                forall|k: int| 0 <= k < out@.len() ==> (#[trigger] out@[k])@ < self.element_decls().len(),
            decreases all.len() - i,
        {
            let m = all[i];
            let keep = m == head || (!blocked.substitution && (!by_derivation
                || self.derives_from_unblocked(self.elements.at(m.index()).type_id, head_type, blocked)));
            proof {
                reveal(Seq::filter);
                assert(all@.take(i + 1).drop_last() =~= all@.take(i as int));
                assert(keep == pred(m));
            }
            if keep {
                out.push(m);
            }
            i += 1;
        }
        assert(all@.take(all@.len() as int) =~= all@);
        out
    }

    /// The direct child particles of a particle whose term is a group,
    /// following a group reference through to the named definition.
    pub fn child_particles(&self, id: ParticleId) -> (r: Vec<ParticleId>)
        requires
            id@ < self.particle_defs().len(),
            self.particle_defs()[id@ as int].term matches Term::GroupRef(g) ==> g@ < self.group_defs().len(),
        ensures
            r@ == match self.particle_defs()[id@ as int].term {
                Term::Group(g) => g.particles@,
                Term::GroupRef(g) => self.group_defs()[g@ as int].group.particles@,
                _ => Seq::<ParticleId>::empty(),
            },
    {
        let src: &Vec<ParticleId> = match &self.particles.at(id.index()).term {
            Term::Group(g) => &g.particles,
            Term::GroupRef(gid) => &self.model_groups.at(gid.index()).group.particles,
            _ => {
                return Vec::new();
            },
        };
        let mut out: Vec<ParticleId> = Vec::new();
        let mut i: usize = 0;
        while i < src.len()
            invariant
                i <= src@.len(),
                out@ == src@.take(i as int),
            decreases src.len() - i,
        {
            out.push(src[i]);
            assert(src@.take(i + 1) =~= src@.take(i as int).push(src@[i as int]));
            i += 1;
        }
        assert(src@.take(src@.len() as int) =~= src@);
        out
    }
}

/// Whether two schema sets hold the same components, names, documents and
/// substitution groups, whatever content each has compiled.
pub open spec fn same_components(a: Schemas, b: Schemas) -> bool {
    &&& a.type_defs() == b.type_defs()
    &&& a.element_decls() == b.element_decls()
    &&& a.attribute_decls() == b.attribute_decls()
    &&& a.particle_defs() == b.particle_defs()
    &&& a.group_defs() == b.group_defs()
    &&& a.attribute_group_defs() == b.attribute_group_defs()
    &&& a.constraint_defs() == b.constraint_defs()
    &&& a.notation_defs() == b.notation_defs()
    &&& a.annotation_defs() == b.annotation_defs()
    &&& a.interned() == b.interned()
    &&& a.symbols() == b.symbols()
    &&& a.builtin_ids() == b.builtin_ids()
    &&& forall|x: ElementId| #[trigger] a.closure_of(x) == b.closure_of(x)
    &&& a.document_list() == b.document_list()
    &&& a.version_read() == b.version_read()
}

impl Schemas {
    /// Puts a compiled schema set together from its parts.
    pub(crate) fn assemble(
        types: Arena<TypeDefinition>,
        elements: Arena<ElementDecl>,
        attributes: Arena<AttributeDecl>,
        particles: Arena<Particle>,
        model_groups: Arena<ModelGroupDef>,
        attribute_groups: Arena<AttributeGroupDef>,
        identity_constraints: Arena<IdentityConstraint>,
        notations: Arena<NotationDecl>,
        annotations: Arena<Annotation>,
        names: Interner,
        globals: SymbolTables,
        builtins: Vec<TypeId>,
        substitution_closure: Vec<(ElementId, Vec<ElementId>)>,
        documents: Vec<SourceDocument>,
        xsd_version: Version,
    ) -> (r: Schemas)
        requires
            names.wf(),
            types@.len() <= u32::MAX,
            elements@.len() <= u32::MAX,
            attributes@.len() <= u32::MAX,
            particles@.len() <= u32::MAX,
            model_groups@.len() <= u32::MAX,
            attribute_groups@.len() <= u32::MAX,
            identity_constraints@.len() <= u32::MAX,
            notations@.len() <= u32::MAX,
            annotations@.len() <= u32::MAX,
            builtins@.len() == 51,
            forall|i: int| 0 <= i < 51 ==> (#[trigger] builtins@[i])@ < types@.len(),
            forall|e: int| 0 <= e < elements@.len() ==> (#[trigger] elements@[e]).type_id@ < types@.len(),
            forall|k: int| 0 <= k < substitution_closure@.len() ==> (#[trigger] substitution_closure@[k]).0@
                < elements@.len(),
            forall|k: int, m: int|
                0 <= k < substitution_closure@.len() && 0 <= m < substitution_closure@[k].1@.len() ==> (
                #[trigger] substitution_closure@[k].1@[m])@ < elements@.len(),
            forall|a: int, b: int|
                0 <= a < substitution_closure@.len() && 0 <= b < substitution_closure@.len() && a != b ==> (
                #[trigger] substitution_closure@[a]).0 != (#[trigger] substitution_closure@[b]).0,
        ensures
            r.type_defs() == types@,
            r.element_decls() == elements@,
            r.attribute_decls() == attributes@,
            r.particle_defs() == particles@,
            r.group_defs() == model_groups@,
            r.attribute_group_defs() == attribute_groups@,
            r.constraint_defs() == identity_constraints@,
            r.notation_defs() == notations@,
            r.annotation_defs() == annotations@,
            r.interned() == names@,
            r.symbols() == globals,
            r.builtin_ids() == builtins@,
            forall|x: ElementId| #[trigger] r.closure_of(x) == members_in(substitution_closure@, x),
            r.document_list() == documents@,
            r.version_read() == xsd_version,
            r.contents().len() == 0,
    {
        Schemas {
            types,
            elements,
            attributes,
            particles,
            model_groups,
            attribute_groups,
            identity_constraints,
            notations,
            annotations,
            names,
            globals,
            builtins,
            substitution_closure,
            documents,
            xsd_version,
            content_models: Vec::new(),
        }
    }

    /// The compiled content of each type, at the type's position.
    pub fn content_list(&self) -> (r: &[Option<Content>])
        ensures
            r@ == self.contents(),
    {
        self.content_models.as_slice()
    }

    /// Puts the compiled content of each type in place, and changes nothing
    /// else.
    pub(crate) fn set_contents(&mut self, models: Vec<Option<Content>>)
        ensures
            final(self).contents() == models@,
            final(self).type_defs() == old(self).type_defs(),
            final(self).element_decls() == old(self).element_decls(),
            final(self).attribute_decls() == old(self).attribute_decls(),
            final(self).particle_defs() == old(self).particle_defs(),
            final(self).group_defs() == old(self).group_defs(),
            final(self).attribute_group_defs() == old(self).attribute_group_defs(),
            final(self).constraint_defs() == old(self).constraint_defs(),
            final(self).notation_defs() == old(self).notation_defs(),
            final(self).annotation_defs() == old(self).annotation_defs(),
            final(self).interned() == old(self).interned(),
            final(self).symbols() == old(self).symbols(),
            final(self).builtin_ids() == old(self).builtin_ids(),
            forall|x: ElementId| #[trigger] final(self).closure_of(x) == old(self).closure_of(x),
            final(self).document_list() == old(self).document_list(),
            final(self).version_read() == old(self).version_read(),
    {
        proof {
            use_type_invariant(&*self);
        }
        self.content_models = models;
    }
}

} // verus!
