//! Loading components, and the steps that turn them into a resolved graph.
//!
//! A [`Loader`] collects components as documents are read, with a list of
//! [`Fixup`]s for the names that could only be looked up once every document
//! was in. [`compile`] then settles those, drops what never resolved,
//! flattens attribute groups, settles simple content, reports derivation
//! cycles and closes substitution groups, producing a [`Schemas`].
//!
//! Each step finishes before the next begins. The first settles every
//! reference recorded by name while documents were read: a fixup names a
//! slot and a name, and the slot receives the id the name is declared as.
//! Fixups are applied in the order they were recorded, so where two name
//! one slot the later one wins, and a name that was never declared leaves
//! its slot as it was and is reported.

use vstd::prelude::*;
use vstd::relations::injective_on;
use vstd::set_lib::{lemma_int_range, lemma_len_subset, lemma_map_size, set_int_range};
use crate::content::{
    compile_contents, contents_compiled, edge, graph_wf, is_walk, reachable, reachable_from, step,
};
use crate::datatypes::{Builtin, BuiltinKind, FacetSet, Variety, spec_all_builtins};
use crate::diagnostics::{DiagCode, Diagnostic, Diagnostics, Severity, Span};
use crate::load::{Conformance, Version};
use crate::model::{
    AnnotationId, Annotation, Arena, AttrGroupId, AttributeDecl, AttributeGroupDef, AttributeId,
    AttributeUse, ComplexType, ContentType, DerivationMethod, DerivationSet, ElementDecl, ElementId,
    GroupId, IdcId, IdentityConstraint, ModelGroupDef, NamespaceConstraint, NotationDecl, NotationId,
    Particle, ParticleId, ProcessContents, Scope, SimpleType, SourceDocument, SymbolSpace, Term,
    TypeDefinition, TypeId, Wildcard, attr_group_id_at, type_id_at,
};
use crate::names::{Interner, Namespace, QName, XML, XS, XSI, clark_chars};
use crate::text::{push_str, string_from_chars};
use crate::schemas::{
    NameTable, Schemas, SymbolTables, base_of, has_key, lemma_lookup_found, lookup_in, members_in, next_base_of,
    same_components,
};

verus! {

// ---------------------------------------------------------------------------
// What a fixup resolves to
// ---------------------------------------------------------------------------

/// The symbol space a fixup's name is looked up in.
pub open spec fn fixup_space(f: Fixup) -> SymbolSpace {
    match f {
        Fixup::ElementType { .. } => SymbolSpace::Type,
        Fixup::ElementSubstGroup { .. } => SymbolSpace::Element,
        Fixup::AttributeType { .. } => SymbolSpace::Type,
        Fixup::SimpleBase { .. } => SymbolSpace::Type,
        Fixup::SimpleItem { .. } => SymbolSpace::Type,
        Fixup::SimpleMember { .. } => SymbolSpace::Type,
        Fixup::ComplexBase { .. } => SymbolSpace::Type,
        Fixup::ParticleElementRef { .. } => SymbolSpace::Element,
        Fixup::ParticleGroupRef { .. } => SymbolSpace::ModelGroup,
        Fixup::AttrUseRef { .. } => SymbolSpace::Attribute,
        Fixup::AttrGroupRef { .. } => SymbolSpace::AttributeGroup,
        Fixup::KeyRefRefer { .. } => SymbolSpace::IdentityConstraint,
        Fixup::ElementIdcRef { .. } => SymbolSpace::IdentityConstraint,
    }
}

/// The name a fixup refers to.
pub open spec fn fixup_name(f: Fixup) -> QName {
    match f {
        Fixup::ElementType { name, .. } => name,
        Fixup::ElementSubstGroup { name, .. } => name,
        Fixup::AttributeType { name, .. } => name,
        Fixup::SimpleBase { name, .. } => name,
        Fixup::SimpleItem { name, .. } => name,
        Fixup::SimpleMember { name, .. } => name,
        Fixup::ComplexBase { name, .. } => name,
        Fixup::ParticleElementRef { name, .. } => name,
        Fixup::ParticleGroupRef { name, .. } => name,
        Fixup::AttrUseRef { name, .. } => name,
        Fixup::AttrGroupRef { name, .. } => name,
        Fixup::KeyRefRefer { name, .. } => name,
        Fixup::ElementIdcRef { name, .. } => name,
    }
}

/// Where a fixup was written.
pub open spec fn fixup_span(f: Fixup) -> Span {
    match f {
        Fixup::ElementType { span, .. } => span,
        Fixup::ElementSubstGroup { span, .. } => span,
        Fixup::AttributeType { span, .. } => span,
        Fixup::SimpleBase { span, .. } => span,
        Fixup::SimpleItem { span, .. } => span,
        Fixup::SimpleMember { span, .. } => span,
        Fixup::ComplexBase { span, .. } => span,
        Fixup::ParticleElementRef { span, .. } => span,
        Fixup::ParticleGroupRef { span, .. } => span,
        Fixup::AttrUseRef { span, .. } => span,
        Fixup::AttrGroupRef { span, .. } => span,
        Fixup::KeyRefRefer { span, .. } => span,
        Fixup::ElementIdcRef { span, .. } => span,
    }
}

/// Whether a fixup's name is declared in its symbol space.
pub open spec fn fixup_resolves(f: Fixup, g: SymbolTables) -> bool {
    let q = fixup_name(f);
    match fixup_space(f) {
        SymbolSpace::Type => g.types.lookup(q) is Some,
        SymbolSpace::Element => g.elements.lookup(q) is Some,
        SymbolSpace::ModelGroup => g.model_groups.lookup(q) is Some,
        SymbolSpace::Attribute => g.attributes.lookup(q) is Some,
        SymbolSpace::AttributeGroup => g.attribute_groups.lookup(q) is Some,
        SymbolSpace::IdentityConstraint => g.identity_constraints.lookup(q) is Some,
        SymbolSpace::Notation => g.notations.lookup(q) is Some,
    }
}

// ---------------------------------------------------------------------------
// Each slot after the fixups naming it
// ---------------------------------------------------------------------------

/// An element's type after `fs`: the type the last `ElementType` fixup for
/// it names, or `any` when that name was never declared.
pub open spec fn element_type_after(fs: Seq<Fixup>, e: nat, init: TypeId, g: SymbolTables, any: TypeId) -> TypeId
    decreases fs.len(),
{
    if fs.len() == 0 {
        init
    } else {
        match fs.last() {
            Fixup::ElementType { element, name, .. } if element@ == e => match g.types.lookup(name) {
                Some(t) => t,
                None => any,
            },
            _ => element_type_after(fs.drop_last(), e, init, g, any),
        }
    }
}

/// An element's substitution-group heads after `fs`: each resolved
/// `ElementSubstGroup` fixup for it adds one.
pub open spec fn heads_after(fs: Seq<Fixup>, e: nat, init: Seq<ElementId>, g: SymbolTables) -> Seq<ElementId>
    decreases fs.len(),
{
    if fs.len() == 0 {
        init
    } else {
        let prev = heads_after(fs.drop_last(), e, init, g);
        match fs.last() {
            Fixup::ElementSubstGroup { element, name, .. } if element@ == e => match g.elements.lookup(name) {
                Some(h) => prev.push(h),
                None => prev,
            },
            _ => prev,
        }
    }
}

/// An element's identity constraints after `fs`: a resolved `ElementIdcRef`
/// fixup fills the slot it names, if there is one.
pub open spec fn element_idcs_after(fs: Seq<Fixup>, e: nat, init: Seq<IdcId>, g: SymbolTables) -> Seq<IdcId>
    decreases fs.len(),
{
    if fs.len() == 0 {
        init
    } else {
        let prev = element_idcs_after(fs.drop_last(), e, init, g);
        match fs.last() {
            Fixup::ElementIdcRef { element, index, name, .. } if element@ == e => match g.identity_constraints.lookup(
                name,
            ) {
                Some(k) => if index < prev.len() {
                    prev.update(index as int, k)
                } else {
                    prev
                },
                None => prev,
            },
            _ => prev,
        }
    }
}

/// An attribute's type after `fs`, as for elements, `any_simple` standing
/// in for a type never declared.
pub open spec fn attribute_type_after(
    fs: Seq<Fixup>,
    a: nat,
    init: TypeId,
    g: SymbolTables,
    any_simple: TypeId,
) -> TypeId
    decreases fs.len(),
{
    if fs.len() == 0 {
        init
    } else {
        match fs.last() {
            Fixup::AttributeType { attribute, name, .. } if attribute@ == a => match g.types.lookup(name) {
                Some(t) => t,
                None => any_simple,
            },
            _ => attribute_type_after(fs.drop_last(), a, init, g, any_simple),
        }
    }
}

/// A type's base after `fs`, for the fixups of kind `simple` (a simple
/// type's `SimpleBase`) or not (a complex type's `ComplexBase`).
pub open spec fn base_after(fs: Seq<Fixup>, t: nat, init: TypeId, g: SymbolTables, simple: bool) -> TypeId
    decreases fs.len(),
{
    if fs.len() == 0 {
        init
    } else {
        let prev = base_after(fs.drop_last(), t, init, g, simple);
        match fs.last() {
            Fixup::SimpleBase { type_, name, .. } if simple && type_@ == t => match g.types.lookup(name) {
                Some(b) => b,
                None => prev,
            },
            Fixup::ComplexBase { type_, name, .. } if !simple && type_@ == t => match g.types.lookup(name) {
                Some(b) => b,
                None => prev,
            },
            _ => prev,
        }
    }
}

/// The primitive a simple type's entry holds before any fixup.
pub open spec fn primitive_of(t: TypeDefinition) -> Option<Builtin> {
    match t {
        TypeDefinition::Simple(s) => s.primitive,
        TypeDefinition::Complex(_) => None,
    }
}

/// A simple type's primitive after `fs`: when a `SimpleBase` fixup resolves
/// and the type has none yet, it inherits its new base's primitive as that
/// stood at the time, or the base's own built-in.
pub open spec fn primitive_after(fs: Seq<Fixup>, t: nat, types: Seq<TypeDefinition>, g: SymbolTables) -> Option<
    Builtin,
>
    decreases fs.len(),
{
    if fs.len() == 0 {
        primitive_of(types[t as int])
    } else {
        let prev = primitive_after(fs.drop_last(), t, types, g);
        match fs.last() {
            Fixup::SimpleBase { type_, name, .. } if type_@ == t => match g.types.lookup(name) {
                Some(b) => if prev is None {
                    match types[b@ as int] {
                        TypeDefinition::Simple(bs) => match primitive_after(fs.drop_last(), b@, types, g) {
                            Some(p) => Some(p),
                            None => bs.builtin,
                        },
                        TypeDefinition::Complex(_) => None,
                    }
                } else {
                    prev
                },
                None => prev,
            },
            _ => prev,
        }
    }
}

/// A list type's item type after `fs`.
pub open spec fn item_after(fs: Seq<Fixup>, t: nat, init: Option<TypeId>, g: SymbolTables) -> Option<TypeId>
    decreases fs.len(),
{
    if fs.len() == 0 {
        init
    } else {
        match fs.last() {
            Fixup::SimpleItem { type_, name, .. } if type_@ == t && g.types.lookup(name) is Some => g.types.lookup(name),
            _ => item_after(fs.drop_last(), t, init, g),
        }
    }
}

/// A union type's member types after `fs`.
pub open spec fn members_after(fs: Seq<Fixup>, t: nat, init: Seq<TypeId>, g: SymbolTables) -> Seq<TypeId>
    decreases fs.len(),
{
    if fs.len() == 0 {
        init
    } else {
        let prev = members_after(fs.drop_last(), t, init, g);
        match fs.last() {
            Fixup::SimpleMember { type_, index, name, .. } if type_@ == t => match g.types.lookup(name) {
                Some(m) => if index < prev.len() {
                    prev.update(index as int, m)
                } else {
                    prev
                },
                None => prev,
            },
            _ => prev,
        }
    }
}

/// The attribute uses of `owner` after `fs`: a resolved `AttrUseRef` points
/// the use it names at the declaration found.
pub open spec fn uses_after(fs: Seq<Fixup>, owner: AttrOwner, init: Seq<AttributeUse>, g: SymbolTables) -> Seq<
    AttributeUse,
>
    decreases fs.len(),
{
    if fs.len() == 0 {
        init
    } else {
        let prev = uses_after(fs.drop_last(), owner, init, g);
        match fs.last() {
            Fixup::AttrUseRef { owner: o, index, name, .. } if o == owner => match g.attributes.lookup(name) {
                Some(a) => if index < prev.len() {
                    prev.update(index as int, AttributeUse { attribute: a, ..prev[index as int] })
                } else {
                    prev
                },
                None => prev,
            },
            _ => prev,
        }
    }
}

/// The attribute group references of `owner` after `fs`.
pub open spec fn group_refs_after(fs: Seq<Fixup>, owner: AttrOwner, init: Seq<AttrGroupId>, g: SymbolTables) -> Seq<
    AttrGroupId,
>
    decreases fs.len(),
{
    if fs.len() == 0 {
        init
    } else {
        let prev = group_refs_after(fs.drop_last(), owner, init, g);
        match fs.last() {
            Fixup::AttrGroupRef { owner: o, index, name, .. } if o == owner => match g.attribute_groups.lookup(name) {
                Some(r) => if index < prev.len() {
                    prev.update(index as int, r)
                } else {
                    prev
                },
                None => prev,
            },
            _ => prev,
        }
    }
}

/// A particle's term after `fs`: a resolved element or group reference
/// replaces it.
pub open spec fn term_after(fs: Seq<Fixup>, p: nat, init: Term, g: SymbolTables) -> Term
    decreases fs.len(),
{
    if fs.len() == 0 {
        init
    } else {
        match fs.last() {
            Fixup::ParticleElementRef { particle, name, .. } if particle@ == p && g.elements.lookup(name) is Some =>
                Term::Element(g.elements.lookup(name)->0),
            Fixup::ParticleGroupRef { particle, name, .. } if particle@ == p && g.model_groups.lookup(name) is Some =>
                Term::GroupRef(g.model_groups.lookup(name)->0),
            _ => term_after(fs.drop_last(), p, init, g),
        }
    }
}

/// A `keyref`'s key after `fs`.
pub open spec fn refer_after(fs: Seq<Fixup>, k: nat, init: Option<IdcId>, g: SymbolTables) -> Option<IdcId>
    decreases fs.len(),
{
    if fs.len() == 0 {
        init
    } else {
        match fs.last() {
            Fixup::KeyRefRefer { idc, name, .. } if idc@ == k && g.identity_constraints.lookup(name) is Some =>
                g.identity_constraints.lookup(name),
            _ => refer_after(fs.drop_last(), k, init, g),
        }
    }
}


// ---------------------------------------------------------------------------
// Loading
// ---------------------------------------------------------------------------

/// Who owns a list of attribute uses and attribute group references.
#[derive(Copy, Clone, PartialEq, Eq, Debug, Structural)]
pub enum AttrOwner {
    ComplexType(TypeId),
    AttributeGroup(AttrGroupId),
}

/// A reference by name, recorded while a document is read and settled once
/// every document is in: the slot it fills, the name it names, and where it
/// was written.
#[derive(Clone, Debug)]
pub enum Fixup {
    ElementType { element: ElementId, name: QName, span: Span },
    ElementSubstGroup { element: ElementId, name: QName, span: Span },
    AttributeType { attribute: AttributeId, name: QName, span: Span },
    SimpleBase { type_: TypeId, name: QName, span: Span },
    SimpleItem { type_: TypeId, name: QName, span: Span },
    SimpleMember { type_: TypeId, index: usize, name: QName, span: Span },
    ComplexBase { type_: TypeId, name: QName, span: Span },
    ParticleElementRef { particle: ParticleId, name: QName, span: Span },
    ParticleGroupRef { particle: ParticleId, name: QName, span: Span },
    AttrUseRef { owner: AttrOwner, index: usize, name: QName, span: Span },
    AttrGroupRef { owner: AttrOwner, index: usize, name: QName, span: Span },
    KeyRefRefer { idc: IdcId, name: QName, span: Span },
    /// `<xs:unique ref="…"/>`: the element carries a constraint defined
    /// elsewhere, so the slot holds a placeholder until that one is found.
    ElementIdcRef { element: ElementId, index: usize, name: QName, span: Span },
}

/// Whether `t` is the definition installed for built-in `b`: `xs:anyType`
/// complex and its own base, every other one simple, with the base, item
/// type, variety and primitive the built-in table gives, each id being the
/// position of that built-in in the table.
pub open spec fn installs(t: TypeDefinition, b: Builtin) -> bool {
    match t {
        TypeDefinition::Complex(c) => b == Builtin::AnyType && c.base@ == b.spec_index(),
        TypeDefinition::Simple(s) => {
            &&& b != Builtin::AnyType
            &&& s.builtin == Some(b)
            &&& s.primitive == b.spec_primitive()
            &&& s.variety == match b.spec_variety() {
                Some(v) => v,
                None => Variety::Atomic,
            }
            &&& s.base@ == match b.spec_base() {
                Some(x) => x.spec_index(),
                None => b.spec_index(),
            }
            &&& match (s.item_type, b.spec_kind()) {
                (Some(t), BuiltinKind::List(item)) => t@ == item.spec_index(),
                (None, k) => !(k is List),
                _ => false,
            }
        },
    }
}

/// A type definition's name.
pub open spec fn name_of(t: TypeDefinition) -> Option<QName> {
    match t {
        TypeDefinition::Simple(s) => s.name,
        TypeDefinition::Complex(c) => c.name,
    }
}

/// Whether `q` is `{uri}local` among the interned strings `st`.
pub open spec fn spells(st: Seq<Seq<char>>, q: QName, uri: Seq<char>, local: Seq<char>) -> bool {
    &&& q.ns matches Some(n) && n@ < st.len() && st[n@ as int] == uri
    &&& q.local@ < st.len() && st[q.local@ as int] == local
}

/// Whether the type at `k` is named `xs:` and the built-in `k`'s local name,
/// and that name is declared as a type of that name below `bound`.
pub open spec fn declared_builtin(
    types: Seq<TypeDefinition>,
    st: Seq<Seq<char>>,
    table: NameTable<TypeId>,
    k: int,
    bound: int,
) -> bool {
    match name_of(types[k]) {
        Some(q) => spells(st, q, XS@, spec_all_builtins()[k].spec_local_name()@) && match table.lookup(q) {
            Some(t) => t@ < bound && name_of(types[t@ as int]) == Some(q),
            None => false,
        },
        None => false,
    }
}

/// Components as they are read, with the references still to settle.
#[derive(Debug)]
pub struct Loader {
    pub(crate) types: Arena<TypeDefinition>,
    pub(crate) elements: Arena<ElementDecl>,
    pub(crate) attributes: Arena<AttributeDecl>,
    pub(crate) particles: Arena<Particle>,
    pub(crate) model_groups: Arena<ModelGroupDef>,
    pub(crate) attribute_groups: Arena<AttributeGroupDef>,
    pub(crate) identity_constraints: Arena<IdentityConstraint>,
    pub(crate) notations: Arena<NotationDecl>,
    pub(crate) annotations: Arena<Annotation>,
    pub(crate) names: Interner,
    pub(crate) globals: SymbolTables,
    pub(crate) builtins: Vec<TypeId>,
    pub(crate) fixups: Vec<Fixup>,
    pub(crate) diags: Diagnostics,
    pub(crate) documents: Vec<SourceDocument>,
    pub(crate) version: Version,
}

impl Loader {
    /// The built-ins are in place, and every arena's ids fit in 32 bits.
    pub closed spec fn wf(self) -> bool {
        &&& self.names.wf()
        &&& self.types@.len() <= u32::MAX
        &&& self.elements@.len() <= u32::MAX
        &&& self.attributes@.len() <= u32::MAX
        &&& self.particles@.len() <= u32::MAX
        &&& self.model_groups@.len() <= u32::MAX
        &&& self.attribute_groups@.len() <= u32::MAX
        &&& self.identity_constraints@.len() <= u32::MAX
        &&& self.notations@.len() <= u32::MAX
        &&& self.annotations@.len() <= u32::MAX
        &&& self.builtins@.len() == 51
        &&& forall|i: int| 0 <= i < 51 ==> (#[trigger] self.builtins@[i])@ < self.types@.len()
    }

    pub closed spec fn type_defs(self) -> Seq<TypeDefinition> {
        self.types@
    }

    pub closed spec fn element_decls(self) -> Seq<ElementDecl> {
        self.elements@
    }

    pub closed spec fn attribute_decls(self) -> Seq<AttributeDecl> {
        self.attributes@
    }

    pub closed spec fn particle_defs(self) -> Seq<Particle> {
        self.particles@
    }

    pub closed spec fn group_defs(self) -> Seq<ModelGroupDef> {
        self.model_groups@
    }

    pub closed spec fn attribute_group_defs(self) -> Seq<AttributeGroupDef> {
        self.attribute_groups@
    }

    pub closed spec fn constraint_defs(self) -> Seq<IdentityConstraint> {
        self.identity_constraints@
    }

    pub closed spec fn notation_defs(self) -> Seq<NotationDecl> {
        self.notations@
    }

    pub closed spec fn annotation_defs(self) -> Seq<Annotation> {
        self.annotations@
    }

    pub closed spec fn interned(self) -> Seq<Seq<char>> {
        self.names@
    }

    pub closed spec fn symbols(self) -> SymbolTables {
        self.globals
    }

    pub closed spec fn builtin_ids(self) -> Seq<TypeId> {
        self.builtins@
    }

    pub closed spec fn pending(self) -> Seq<Fixup> {
        self.fixups@
    }

    pub closed spec fn reported(self) -> Seq<Diagnostic> {
        self.diags@
    }

    pub closed spec fn document_list(self) -> Seq<SourceDocument> {
        self.documents@
    }

    pub closed spec fn version_read(self) -> Version {
        self.version
    }

    /// A loader holding the built-in types and the `xml:` and `xsi:`
    /// attributes, and nothing else.
    ///
    /// The built-ins are real components, so a reference to `xs:string`
    /// resolves the same way as one to a user type; the eight attributes are
    /// available to every schema without an import.
    pub fn new() -> (r: Loader)
        ensures
            r.wf(),
            r.type_defs().len() == 51,
            forall|i: int| 0 <= i < 51 ==> installs(#[trigger] r.type_defs()[i], spec_all_builtins()[i]),
            forall|i: int| 0 <= i < 51 ==> (#[trigger] r.builtin_ids()[i])@ == i,
            forall|i: int|
                0 <= i < 51 ==> #[trigger] declared_builtin(r.type_defs(), r.interned(), r.symbols().types, i, 51),
            r.attribute_decls().len() == 8,
            forall|k: int|
                0 <= k < 8 ==> installs_attribute(
                    #[trigger] r.attribute_decls()[k],
                    r.interned(),
                    r.builtin_ids(),
                    r.symbols().attributes,
                    k,
                ),
            r.element_decls().len() == 0,
            r.particle_defs().len() == 0,
            r.group_defs().len() == 0,
            r.attribute_group_defs().len() == 0,
            r.constraint_defs().len() == 0,
            r.notation_defs().len() == 0,
            r.annotation_defs().len() == 0,
            r.pending().len() == 0,
            r.reported().len() == 0,
            r.document_list().len() == 0,
            r.version_read() == Version::Xsd10,
    {
        let mut l = Loader {
            types: Arena::new(),
            elements: Arena::new(),
            attributes: Arena::new(),
            particles: Arena::new(),
            model_groups: Arena::new(),
            attribute_groups: Arena::new(),
            identity_constraints: Arena::new(),
            notations: Arena::new(),
            annotations: Arena::new(),
            names: Interner::new(),
            globals: SymbolTables::default(),
            builtins: Vec::new(),
            fixups: Vec::new(),
            diags: Diagnostics::new(),
            documents: Vec::new(),
            version: Version::Xsd10,
        };
        l.install_builtins();
        let ghost after_builtins = l;
        l.install_xml_attributes();
        l.install_xsi_attributes();
        proof {
            assert forall|i: int| 0 <= i < 51 implies #[trigger] declared_builtin(
                l.types@,
                l.names@,
                l.globals.types,
                i,
                51,
            ) by {
                assert(declared_builtin(after_builtins.types@, after_builtins.names@, after_builtins.globals.types, i, 51));
            }
        }
        l
    }

    /// Materialises the built-in types as components, each at its position
    /// in the table, named in the XML Schema namespace.
    fn install_builtins(&mut self)
        requires
            old(self).names.wf(),
            old(self).names@.len() == 1,
            old(self).types@.len() == 0,
            old(self).builtins@.len() == 0,
        ensures
            final(self).names.wf(),
            final(self).names@.len() <= 53,
            final(self).types@.len() == 51,
            final(self).builtins@.len() == 51,
            forall|i: int| 0 <= i < 51 ==> installs(#[trigger] final(self).types@[i], spec_all_builtins()[i]),
            forall|i: int| 0 <= i < 51 ==> (#[trigger] final(self).builtins@[i])@ == i,
            forall|i: int|
                0 <= i < 51 ==> #[trigger] declared_builtin(
                    final(self).types@,
                    final(self).names@,
                    final(self).globals.types,
                    i,
                    51,
                ),
            final(self).elements == old(self).elements,
            final(self).attributes == old(self).attributes,
            final(self).particles == old(self).particles,
            final(self).model_groups == old(self).model_groups,
            final(self).attribute_groups == old(self).attribute_groups,
            final(self).identity_constraints == old(self).identity_constraints,
            final(self).notations == old(self).notations,
            final(self).annotations == old(self).annotations,
            final(self).fixups == old(self).fixups,
            final(self).diags == old(self).diags,
            final(self).documents == old(self).documents,
            final(self).version == old(self).version,
            final(self).globals.attributes == old(self).globals.attributes,
    {
        proof {
            crate::datatypes::law_table_and_index_agree();
        }
        let xs = self.names.namespace(XS);
        let all = Builtin::all();
        let mut i: usize = 0;
        while i < all.len()
            invariant
                all@ == spec_all_builtins(),
                all@.len() == 51,
                i <= 51,
                forall|k: int| 0 <= k < 51 ==> (#[trigger] spec_all_builtins()[k]).spec_index() == k,
                forall|b: Builtin| 0 <= #[trigger] b.spec_index() < 51,
                self.names.wf(),
                self.names@.len() <= 2 + i,
                xs@ < self.names@.len(),
                self.names@[xs@ as int] == XS@,
                self.types@.len() == i,
                self.builtins@.len() == i,
                forall|k: int| 0 <= k < i ==> installs(#[trigger] self.types@[k], spec_all_builtins()[k]),
                forall|k: int| 0 <= k < i ==> (#[trigger] self.builtins@[k])@ == k,
                forall|k: int|
                    0 <= k < i ==> #[trigger] declared_builtin(
                        self.types@,
                        self.names@,
                        self.globals.types,
                        k,
                        i as int,
                    ),
                self.elements == old(self).elements,
                self.attributes == old(self).attributes,
                self.particles == old(self).particles,
                self.model_groups == old(self).model_groups,
                self.attribute_groups == old(self).attribute_groups,
                self.identity_constraints == old(self).identity_constraints,
                self.notations == old(self).notations,
                self.annotations == old(self).annotations,
                self.fixups == old(self).fixups,
                self.diags == old(self).diags,
                self.documents == old(self).documents,
                self.version == old(self).version,
                self.globals.attributes == old(self).globals.attributes,
            decreases 51 - i,
        {
            let b = all[i];
            let ghost names_before = self.names@;
            let ghost types_before = self.types@;
            let ghost globals_before = self.globals.types;
            let local = self.names.intern(b.local_name());
            let name = QName::new(Some(xs), local);
            let base_slot: usize = match b.base() {
                Some(x) => x.slot(),
                None => i,
            };
            let span = Span::new(XS, 0);
            let no_set = DerivationSet {
                extension: false,
                restriction: false,
                substitution: false,
                list: false,
                union: false,
            };
            let def = match b {
                Builtin::AnyType => TypeDefinition::Complex(
                    ComplexType {
                        name: Some(name),
                        base: TypeId::from_index(base_slot),
                        derivation: DerivationMethod::Restriction,
                        content: ContentType::Mixed(ParticleId::placeholder()),
                        attribute_uses: Vec::new(),
                        attribute_group_refs: Vec::new(),
                        attribute_wildcard: Some(
                            Wildcard {
                                namespace: NamespaceConstraint::Any,
                                process_contents: ProcessContents::Lax,
                                not_qname: Vec::new(),
                                not_defined: false,
                                not_defined_sibling: false,
                            },
                        ),
                        open_content: None,
                        is_abstract: false,
                        block: no_set,
                        final_: no_set,
                        annotation: None,
                        span,
                    },
                ),
                _ => {
                    let variety = match b.variety() {
                        Some(v) => v,
                        None => Variety::Atomic,
                    };
                    let item_type = match b.kind() {
                        BuiltinKind::List(item) => Some(TypeId::from_index(item.slot())),
                        _ => None,
                    };
                    TypeDefinition::Simple(
                        SimpleType {
                            name: Some(name),
                            base: TypeId::from_index(base_slot),
                            variety,
                            primitive: b.primitive(),
                            builtin: Some(b),
                            item_type,
                            member_types: Vec::new(),
                            facets: FacetSet::new(),
                            final_: no_set,
                            annotation: None,
                            span,
                        },
                    )
                },
            };
            let _ = self.types.push(def);
            self.builtins.push(TypeId::from_index(i));
            let _ = self.globals.types.insert(name, TypeId::from_index(i));
            proof {
                assert(self.types@[i as int] == def);
                assert forall|k: int|
                    0 <= k < i + 1 implies #[trigger] declared_builtin(
                    self.types@,
                    self.names@,
                    self.globals.types,
                    k,
                    i + 1,
                ) by {
                    if k < i {
                        assert(self.types@[k] == types_before[k]);
                        assert(forall|x: int| 0 <= x < names_before.len() ==> self.names@[x] == names_before[x]);
                        assert(declared_builtin(types_before, names_before, globals_before, k, i as int));
                    }
                }
            }
            i += 1;
        }
    }
}

/// The attributes every schema may reference without declaring them: four
/// in the `xml:` namespace, four in `xsi:`, with their types.
pub open spec fn predeclared_attribute(k: int) -> (Seq<char>, Seq<char>, Builtin) {
    if k == 0 {
        (XML@, "lang"@, Builtin::Language)
    } else if k == 1 {
        (XML@, "space"@, Builtin::NcName)
    } else if k == 2 {
        (XML@, "base"@, Builtin::AnyUri)
    } else if k == 3 {
        (XML@, "id"@, Builtin::Id)
    } else if k == 4 {
        (XSI@, "type"@, Builtin::QName)
    } else if k == 5 {
        (XSI@, "nil"@, Builtin::Boolean)
    } else if k == 6 {
        (XSI@, "schemaLocation"@, Builtin::AnySimpleType)
    } else {
        (XSI@, "noNamespaceSchemaLocation"@, Builtin::AnyUri)
    }
}

/// Whether `a` is the predeclared attribute `k`, declared globally.
pub open spec fn installs_attribute(
    a: AttributeDecl,
    st: Seq<Seq<char>>,
    builtins: Seq<TypeId>,
    table: NameTable<AttributeId>,
    k: int,
) -> bool {
    let (uri, local, ty) = predeclared_attribute(k);
    &&& spells(st, a.name, uri, local)
    &&& a.type_id == builtins[ty.spec_index()]
    &&& a.scope == Scope::Global
    &&& a.value_constraint is None
    &&& table.lookup(a.name) is Some
}

impl Loader {
    /// Declares one predeclared attribute globally.
    fn install_attribute(&mut self, ns: Namespace, local: &str, ty: Builtin, span: &Span) -> (r: AttributeId)
        requires
            old(self).wf(),
            old(self).names@.len() < 100,
            old(self).attributes@.len() < 100,
            ns@ < old(self).names@.len(),
        ensures
            final(self).wf(),
            old(self).names@.len() <= final(self).names@.len() <= old(self).names@.len() + 1,
            forall|x: int| 0 <= x < old(self).names@.len() ==> #[trigger] final(self).names@[x] == old(self).names@[x],
            final(self).attributes@.len() == old(self).attributes@.len() + 1,
            forall|x: int| 0 <= x < old(self).attributes@.len() ==> #[trigger] final(self).attributes@[x]
                == old(self).attributes@[x],
            r@ == old(self).attributes@.len(),
            ({
                let a = final(self).attributes@[r@ as int];
                &&& a.name.ns == Some(ns)
                &&& a.name.local@ < final(self).names@.len()
                &&& final(self).names@[a.name.local@ as int] == local@
                &&& a.type_id == old(self).builtins@[ty.spec_index()]
                &&& a.scope == Scope::Global
                &&& a.value_constraint is None
                &&& final(self).globals.attributes.lookup(a.name) is Some
            }),
            forall|q: QName| #[trigger] has_key(old(self).globals.attributes@, q) ==> has_key(final(self).globals.attributes@, q),
            final(self).types == old(self).types,
            final(self).builtins == old(self).builtins,
            final(self).globals.types == old(self).globals.types,
            final(self).elements == old(self).elements,
            final(self).particles == old(self).particles,
            final(self).model_groups == old(self).model_groups,
            final(self).attribute_groups == old(self).attribute_groups,
            final(self).identity_constraints == old(self).identity_constraints,
            final(self).notations == old(self).notations,
            final(self).annotations == old(self).annotations,
            final(self).fixups == old(self).fixups,
            final(self).diags == old(self).diags,
            final(self).documents == old(self).documents,
            final(self).version == old(self).version,
    {
        proof {
            crate::datatypes::law_table_and_index_agree();
        }
        let l = self.names.intern(local);
        let name = QName::new(Some(ns), l);
        let type_id = self.builtins[ty.slot()];
        let id = AttributeId::from_index(self.attributes.len());
        let _ = self.attributes.push(
            AttributeDecl {
                name,
                type_id,
                scope: Scope::Global,
                value_constraint: None,
                annotation: None,
                span: span.clone(),
            },
        );
        let _ = self.globals.attributes.insert(name, id);
        id
    }

    /// Declares the four attributes in the `xml:` namespace, so that
    /// `xml:lang` needs no import of `xml.xsd`.
    fn install_xml_attributes(&mut self)
        requires
            old(self).wf(),
            old(self).names@.len() < 60,
            old(self).attributes@.len() == 0,
        ensures
            final(self).wf(),
            old(self).names@.len() <= final(self).names@.len() <= old(self).names@.len() + 5,
            forall|x: int| 0 <= x < old(self).names@.len() ==> #[trigger] final(self).names@[x] == old(self).names@[x],
            final(self).attributes@.len() == 4,
            forall|k: int|
                0 <= k < 4 ==> installs_attribute(
                    #[trigger] final(self).attributes@[k],
                    final(self).names@,
                    final(self).builtins@,
                    final(self).globals.attributes,
                    k,
                ),
            final(self).types == old(self).types,
            final(self).builtins == old(self).builtins,
            final(self).globals.types == old(self).globals.types,
            final(self).elements == old(self).elements,
            final(self).particles == old(self).particles,
            final(self).model_groups == old(self).model_groups,
            final(self).attribute_groups == old(self).attribute_groups,
            final(self).identity_constraints == old(self).identity_constraints,
            final(self).notations == old(self).notations,
            final(self).annotations == old(self).annotations,
            final(self).fixups == old(self).fixups,
            final(self).diags == old(self).diags,
            final(self).documents == old(self).documents,
            final(self).version == old(self).version,
    {
        let ns = self.names.namespace(XML);
        let span = Span::new(XML, 0);
        let a0 = self.install_attribute(ns, "lang", Builtin::Language, &span);
        let a1 = self.install_attribute(ns, "space", Builtin::NcName, &span);
        let a2 = self.install_attribute(ns, "base", Builtin::AnyUri, &span);
        let a3 = self.install_attribute(ns, "id", Builtin::Id, &span);
    }

    /// Declares the four attributes in the `xsi:` namespace: `xsi:type`,
    /// `xsi:nil` and the two schema-location hints.
    fn install_xsi_attributes(&mut self)
        requires
            old(self).wf(),
            old(self).names@.len() < 70,
            old(self).attributes@.len() == 4,
        ensures
            final(self).wf(),
            old(self).names@.len() <= final(self).names@.len() <= old(self).names@.len() + 5,
            forall|x: int| 0 <= x < old(self).names@.len() ==> #[trigger] final(self).names@[x] == old(self).names@[x],
            final(self).attributes@.len() == 8,
            forall|k: int| 0 <= k < 4 ==> #[trigger] final(self).attributes@[k] == old(self).attributes@[k],
            forall|k: int|
                4 <= k < 8 ==> installs_attribute(
                    #[trigger] final(self).attributes@[k],
                    final(self).names@,
                    final(self).builtins@,
                    final(self).globals.attributes,
                    k,
                ),
            forall|q: QName| #[trigger] has_key(old(self).globals.attributes@, q) ==> has_key(final(self).globals.attributes@, q),
            final(self).types == old(self).types,
            final(self).builtins == old(self).builtins,
            final(self).globals.types == old(self).globals.types,
            final(self).elements == old(self).elements,
            final(self).particles == old(self).particles,
            final(self).model_groups == old(self).model_groups,
            final(self).attribute_groups == old(self).attribute_groups,
            final(self).identity_constraints == old(self).identity_constraints,
            final(self).notations == old(self).notations,
            final(self).annotations == old(self).annotations,
            final(self).fixups == old(self).fixups,
            final(self).diags == old(self).diags,
            final(self).documents == old(self).documents,
            final(self).version == old(self).version,
    {
        let ns = self.names.namespace(XSI);
        let span = Span::new(XSI, 0);
        let a4 = self.install_attribute(ns, "type", Builtin::QName, &span);
        let a5 = self.install_attribute(ns, "nil", Builtin::Boolean, &span);
        let a6 = self.install_attribute(ns, "schemaLocation", Builtin::AnySimpleType, &span);
        let a7 = self.install_attribute(ns, "noNamespaceSchemaLocation", Builtin::AnyUri, &span);
    }
}

/// The part of a loader a building step changes.
#[derive(Copy, Clone, PartialEq, Eq, Debug, Structural)]
pub enum LoaderPart {
    Types,
    Elements,
    Attributes,
    Particles,
    ModelGroups,
    AttributeGroups,
    IdentityConstraints,
    Notations,
    Annotations,
    Names,
    Globals,
    Fixups,
    Diags,
    Documents,
    Version,
}

impl Loader {
    /// Whether `self` and `other` agree on everything but `part`.
    pub closed spec fn agrees_but(self, other: Loader, part: LoaderPart) -> bool {
        &&& (part != LoaderPart::Types ==> self.types == other.types)
        &&& (part != LoaderPart::Elements ==> self.elements == other.elements)
        &&& (part != LoaderPart::Attributes ==> self.attributes == other.attributes)
        &&& (part != LoaderPart::Particles ==> self.particles == other.particles)
        &&& (part != LoaderPart::ModelGroups ==> self.model_groups == other.model_groups)
        &&& (part != LoaderPart::AttributeGroups ==> self.attribute_groups == other.attribute_groups)
        &&& (part != LoaderPart::IdentityConstraints ==> self.identity_constraints
            == other.identity_constraints)
        &&& (part != LoaderPart::Notations ==> self.notations == other.notations)
        &&& (part != LoaderPart::Annotations ==> self.annotations == other.annotations)
        &&& (part != LoaderPart::Names ==> self.names == other.names)
        &&& (part != LoaderPart::Globals ==> self.globals == other.globals)
        &&& self.builtins == other.builtins
        &&& (part != LoaderPart::Fixups ==> self.fixups == other.fixups)
        &&& (part != LoaderPart::Diags ==> self.diags == other.diags)
        &&& (part != LoaderPart::Documents ==> self.documents == other.documents)
        &&& (part != LoaderPart::Version ==> self.version == other.version)
    }

    /// Which XSD the documents are read as.
    pub fn version(&self) -> (r: Version)
        ensures
            r == self.version_read(),
    {
        self.version
    }

    pub fn set_version(&mut self, v: Version)
        requires
            old(self).wf(),
        ensures
            final(self).wf(),
            final(self).version_read() == v,
            final(self).agrees_but(*old(self), LoaderPart::Version),
    {
        self.version = v;
    }

    /// The type of a built-in datatype.
    pub fn builtin(&self, b: Builtin) -> (r: TypeId)
        requires
            self.wf(),
        ensures
            r == self.builtin_ids()[b.spec_index()],
            r@ < self.type_defs().len(),
    {
        proof {
            crate::datatypes::law_table_and_index_agree();
        }
        self.builtins[b.slot()]
    }

    /// Interns a string for use in a name.
    pub fn intern(&mut self, s: &str) -> (r: crate::names::Symbol)
        requires
            old(self).wf(),
            old(self).interned().len() <= u32::MAX,
        ensures
            final(self).wf(),
            r@ < final(self).interned().len(),
            final(self).interned()[r@ as int] == s@,
            old(self).interned().is_prefix_of(final(self).interned()),
            final(self).agrees_but(*old(self), LoaderPart::Names),
    {
        self.names.intern(s)
    }

    /// The name `{ns}local`, interning both; an empty namespace is none.
    pub fn qname(&mut self, ns: Option<&str>, local: &str) -> (r: QName)
        requires
            old(self).wf(),
            old(self).interned().len() + 2 <= u32::MAX,
        ensures
            final(self).wf(),
            final(self).interned()[r.local@ as int] == local@,
            r.local@ < final(self).interned().len(),
            match ns {
                None => r.ns is None,
                Some(u) => (u@.len() == 0 <==> r.ns is None) && (r.ns matches Some(n) ==> n@
                    < final(self).interned().len() && final(self).interned()[n@ as int] == u@),
            },
            old(self).interned().is_prefix_of(final(self).interned()),
            final(self).agrees_but(*old(self), LoaderPart::Names),
    {
        self.names.qname(ns, local)
    }

    /// Adds a type definition, returning its id.
    pub fn add_type(&mut self, def: TypeDefinition) -> (r: TypeId)
        requires
            old(self).wf(),
            old(self).type_defs().len() < u32::MAX,
        ensures
            final(self).wf(),
            r@ == old(self).type_defs().len(),
            final(self).type_defs() == old(self).type_defs().push(def),
            final(self).agrees_but(*old(self), LoaderPart::Types),
    {
        TypeId::from_index(self.types.push(def) as usize)
    }

    /// Adds an element declaration, returning its id.
    pub fn add_element(&mut self, decl: ElementDecl) -> (r: ElementId)
        requires
            old(self).wf(),
            old(self).element_decls().len() < u32::MAX,
        ensures
            final(self).wf(),
            r@ == old(self).element_decls().len(),
            final(self).element_decls() == old(self).element_decls().push(decl),
            final(self).agrees_but(*old(self), LoaderPart::Elements),
    {
        ElementId::from_index(self.elements.push(decl) as usize)
    }

    /// Adds an attribute declaration, returning its id.
    pub fn add_attribute(&mut self, decl: AttributeDecl) -> (r: AttributeId)
        requires
            old(self).wf(),
            old(self).attribute_decls().len() < u32::MAX,
        ensures
            final(self).wf(),
            r@ == old(self).attribute_decls().len(),
            final(self).attribute_decls() == old(self).attribute_decls().push(decl),
            final(self).agrees_but(*old(self), LoaderPart::Attributes),
    {
        AttributeId::from_index(self.attributes.push(decl) as usize)
    }

    /// Adds a particle, returning its id.
    pub fn add_particle(&mut self, p: Particle) -> (r: ParticleId)
        requires
            old(self).wf(),
            old(self).particle_defs().len() < u32::MAX,
        ensures
            final(self).wf(),
            r@ == old(self).particle_defs().len(),
            final(self).particle_defs() == old(self).particle_defs().push(p),
            final(self).agrees_but(*old(self), LoaderPart::Particles),
    {
        ParticleId::from_index(self.particles.push(p) as usize)
    }

    /// Adds a named model group, returning its id.
    pub fn add_model_group(&mut self, g: ModelGroupDef) -> (r: GroupId)
        requires
            old(self).wf(),
            old(self).group_defs().len() < u32::MAX,
        ensures
            final(self).wf(),
            r@ == old(self).group_defs().len(),
            final(self).group_defs() == old(self).group_defs().push(g),
            final(self).agrees_but(*old(self), LoaderPart::ModelGroups),
    {
        GroupId::from_index(self.model_groups.push(g) as usize)
    }

    /// Adds an attribute group, returning its id.
    pub fn add_attribute_group(&mut self, g: AttributeGroupDef) -> (r: AttrGroupId)
        requires
            old(self).wf(),
            old(self).attribute_group_defs().len() < u32::MAX,
        ensures
            final(self).wf(),
            r@ == old(self).attribute_group_defs().len(),
            final(self).attribute_group_defs() == old(self).attribute_group_defs().push(g),
            final(self).agrees_but(*old(self), LoaderPart::AttributeGroups),
    {
        AttrGroupId::from_index(self.attribute_groups.push(g) as usize)
    }

    /// Adds an identity constraint, returning its id.
    pub fn add_identity_constraint(&mut self, c: IdentityConstraint) -> (r: IdcId)
        requires
            old(self).wf(),
            old(self).constraint_defs().len() < u32::MAX,
        ensures
            final(self).wf(),
            r@ == old(self).constraint_defs().len(),
            final(self).constraint_defs() == old(self).constraint_defs().push(c),
            final(self).agrees_but(*old(self), LoaderPart::IdentityConstraints),
    {
        IdcId::from_index(self.identity_constraints.push(c) as usize)
    }

    /// Adds a notation, returning its id.
    pub fn add_notation(&mut self, n: NotationDecl) -> (r: NotationId)
        requires
            old(self).wf(),
            old(self).notation_defs().len() < u32::MAX,
        ensures
            final(self).wf(),
            r@ == old(self).notation_defs().len(),
            final(self).notation_defs() == old(self).notation_defs().push(n),
            final(self).agrees_but(*old(self), LoaderPart::Notations),
    {
        NotationId::from_index(self.notations.push(n) as usize)
    }

    /// Adds an annotation, returning its id.
    pub fn add_annotation(&mut self, a: Annotation) -> (r: AnnotationId)
        requires
            old(self).wf(),
            old(self).annotation_defs().len() < u32::MAX,
        ensures
            final(self).wf(),
            r@ == old(self).annotation_defs().len(),
            final(self).annotation_defs() == old(self).annotation_defs().push(a),
            final(self).agrees_but(*old(self), LoaderPart::Annotations),
    {
        AnnotationId::from_index(self.annotations.push(a) as usize)
    }

    /// The global symbol tables, to declare names in.
    pub fn globals_mut(&mut self) -> (r: &mut SymbolTables)
        requires
            old(self).wf(),
        ensures
            *r == old(self).symbols(),
            final(self).symbols() == *final(r),
            final(self).wf(),
            final(self).agrees_but(*old(self), LoaderPart::Globals),
    {
        &mut self.globals
    }

    /// Records a reference to settle once every document is in.
    pub fn add_fixup(&mut self, f: Fixup)
        requires
            old(self).wf(),
        ensures
            final(self).wf(),
            final(self).pending() == old(self).pending().push(f),
            final(self).agrees_but(*old(self), LoaderPart::Fixups),
    {
        self.fixups.push(f);
    }

    /// Records a diagnostic found while reading.
    pub fn report(&mut self, d: Diagnostic)
        requires
            old(self).wf(),
        ensures
            final(self).wf(),
            final(self).reported() == old(self).reported().push(d),
            final(self).agrees_but(*old(self), LoaderPart::Diags),
    {
        self.diags.push(d);
    }

    /// Records the provenance of a document read.
    pub fn add_document(&mut self, doc: SourceDocument)
        requires
            old(self).wf(),
        ensures
            final(self).wf(),
            final(self).document_list() == old(self).document_list().push(doc),
            final(self).agrees_but(*old(self), LoaderPart::Documents),
    {
        self.documents.push(doc);
    }
}

// ---------------------------------------------------------------------------
// Substitution groups
// ---------------------------------------------------------------------------

/// Whether element `m` names element `h` among the heads it substitutes for.
pub open spec fn substitutes_directly(els: Seq<ElementDecl>, m: int, h: int) -> bool {
    0 <= m < els.len() && exists|k: int|
        0 <= k < els[m].substitution_group@.len() && (#[trigger] els[m].substitution_group@[k])@ == h
}

/// Whether `path` is a chain of direct substitutions: each element after the
/// first substitutes for the one before it.
pub open spec fn substitution_chain(els: Seq<ElementDecl>, path: Seq<int>) -> bool {
    &&& path.len() >= 2
    &&& forall|j: int| 0 < j < path.len() ==> #[trigger] substitutes_directly(els, path[j], path[j - 1])
}

/// Whether `m` may substitute for `h`, directly or through other members:
/// substitution is transitive.
pub open spec fn may_substitute(els: Seq<ElementDecl>, h: int, m: int) -> bool {
    exists|path: Seq<int>| #[trigger] substitution_chain(els, path) && path[0] == h && path.last() == m
}

/// The positions below `n` of the elements that may substitute for `h` and
/// can appear in a document (an abstract one is a head only), in
/// declaration order.
pub open spec fn substitutes_below(els: Seq<ElementDecl>, h: int, n: nat) -> Seq<nat>
    decreases n,
{
    if n == 0 {
        Seq::empty()
    } else {
        let k = (n - 1) as nat;
        substitutes_below(els, h, k) + if may_substitute(els, h, k as int) && !els[k as int].is_abstract {
            seq![k]
        } else {
            Seq::empty()
        }
    }
}

/// Element ids as the positions they name.
pub open spec fn element_slots(ids: Seq<ElementId>) -> Seq<nat> {
    ids.map_values(|e: ElementId| e@)
}

/// Whether the ids in `ids` include `h`.
fn names_head(ids: &Vec<ElementId>, h: usize) -> (r: bool)
    requires
        h <= u32::MAX,
    ensures
        r == exists|k: int| 0 <= k < ids@.len() && (#[trigger] ids@[k])@ == h,
{
    let mut i: usize = 0;
    while i < ids.len()
        invariant
            i <= ids@.len(),
            h <= u32::MAX,
            forall|k: int| 0 <= k < i ==> (#[trigger] ids@[k])@ != h,
        decreases ids.len() - i,
    {
        if ids[i].index() == h {
            return true;
        }
        i += 1;
    }
    false
}

/// The direct-substitution graph: from each head to the elements naming it.
fn substitution_graph(els: &Arena<ElementDecl>) -> (g: Vec<Vec<u32>>)
    requires
        els@.len() <= u32::MAX,
    ensures
        g@.len() == els@.len(),
        graph_wf(g@),
        forall|a: int, b: int|
            0 <= a < els@.len() && 0 <= b < els@.len() ==> (g@[a]@.contains(b as u32)
                <==> substitutes_directly(els@, b, a)),
        forall|a: int, j: int| 0 <= a < g@.len() && 0 <= j < g@[a]@.len() ==> substitutes_directly(
            els@,
            #[trigger] g@[a]@[j] as int,
            a,
        ),
{
    let n = els.len();
    let items = els.iter();
    let mut g: Vec<Vec<u32>> = Vec::new();
    let mut h: usize = 0;
    while h < n
        invariant
            n == els@.len(),
            n <= u32::MAX,
            items@ == els@,
            h <= n,
            g@.len() == h,
            forall|a: int, j: int| 0 <= a < h && 0 <= j < g@[a]@.len() ==> (#[trigger] g@[a]@[j]) < n,
            forall|a: int, b: int|
                0 <= a < h && 0 <= b < n ==> (g@[a]@.contains(b as u32) <==> substitutes_directly(
                    els@,
                    b,
                    a,
                )),
            forall|a: int, j: int| 0 <= a < h && 0 <= j < g@[a]@.len() ==> substitutes_directly(
                els@,
                #[trigger] g@[a]@[j] as int,
                a,
            ),
        decreases n - h,
    {
        let mut row: Vec<u32> = Vec::new();
        let mut m: usize = 0;
        while m < n
            invariant
                n == els@.len(),
                n <= u32::MAX,
                items@ == els@,
                h < n,
                m <= n,
                forall|j: int| 0 <= j < row@.len() ==> (#[trigger] row@[j]) < m,
                forall|b: int| 0 <= b < n ==> (row@.contains(b as u32) <==> (b < m
                    && substitutes_directly(els@, b, h as int))),
                forall|j: int| 0 <= j < row@.len() ==> substitutes_directly(els@, #[trigger] row@[j] as int, h as int),
            decreases n - m,
        {
            if names_head(&items[m].substitution_group, h) {
                let ghost before = row@;
                row.push(m as u32);
                proof {
                    assert forall|b: int| 0 <= b < n implies (row@.contains(b as u32) <==> (b < m + 1
                        && substitutes_directly(els@, b, h as int))) by {
                        if b == m {
                            assert(row@[before.len() as int] == b as u32);
                        }
                        if row@.contains(b as u32) {
                            let j = choose|j: int| 0 <= j < row@.len() && row@[j] == b as u32;
                            if j < before.len() {
                                assert(before[j] == b as u32);
                            }
                        }
                        if b < m && substitutes_directly(els@, b, h as int) {
                            let j = choose|j: int| 0 <= j < before.len() && before[j] == b as u32;
                            assert(row@[j] == b as u32);
                        }
                    }
                }
            } else {
                proof {
                    assert forall|b: int| 0 <= b < n implies (row@.contains(b as u32) <==> (b < m + 1
                        && substitutes_directly(els@, b, h as int))) by {
                        if b == m && substitutes_directly(els@, b, h as int) {
                            let k = choose|k: int|
                                0 <= k < els@[b].substitution_group@.len() && (#[trigger] els@[b].substitution_group@[k])@ == h;
                            assert(items@[m as int].substitution_group@[k]@ == h);
                        }
                    }
                }
            }
            m += 1;
        }
        g.push(row);
        h += 1;
    }
    g
}

/// Walks of the substitution graph starting among `h`'s direct members are
/// exactly the substitution chains from `h`.
proof fn lemma_reach_is_substitution(
    els: Seq<ElementDecl>,
    g: Seq<Vec<u32>>,
    blocked: Seq<bool>,
    h: int,
    k: int,
)
    requires
        g.len() == els.len(),
        els.len() <= u32::MAX,
        graph_wf(g),
        blocked.len() == g.len(),
        forall|i: int| 0 <= i < blocked.len() ==> !blocked[i],
        0 <= h < g.len(),
        0 <= k < g.len(),
        forall|a: int, b: int|
            0 <= a < els.len() && 0 <= b < els.len() ==> (g[a]@.contains(b as u32)
                <==> substitutes_directly(els, b, a)),
    ensures
        reachable_from(g, g[h]@, k, blocked) <==> may_substitute(els, h, k),
{
    if reachable_from(g, g[h]@, k, blocked) {
        let (i, path) = choose|i: int, path: Seq<int>|
            #![trigger is_walk(g, path, blocked), g[h]@[i]]
            0 <= i < g[h]@.len() && is_walk(g, path, blocked) && path[0] == g[h]@[i] as int
                && path.last() == k;
        let p = seq![h] + path;
        assert(g[h]@[i] < g.len());
        assert forall|j: int| 0 < j < p.len() implies #[trigger] substitutes_directly(els, p[j], p[j - 1]) by {
            if j == 1 {
                assert(p[1] == path[0]);
                assert(g[h]@.contains(path[0] as u32));
            } else {
                assert(step(g, path, j - 1, blocked));
                assert(p[j] == path[j - 1] && p[j - 1] == path[j - 2]);
                let a = path[j - 2];
                let t = choose|t: int| 0 <= t < g[a]@.len() && g[a]@[t] == path[j - 1] as u32;
                assert(g[a]@[t] < g.len());
            }
        }
        assert(substitution_chain(els, p));
        assert(p[0] == h && p.last() == k);
    }
    if may_substitute(els, h, k) {
        let p = choose|p: Seq<int>| #[trigger] substitution_chain(els, p) && p[0] == h && p.last() == k;
        let path = p.drop_first();
        assert forall|j: int| 0 <= j < p.len() implies 0 <= #[trigger] p[j] < els.len() by {
            if j > 0 {
                assert(substitutes_directly(els, p[j], p[j - 1]));
            }
        }
        assert forall|j: int| 0 < j < path.len() implies #[trigger] step(g, path, j, blocked) by {
            let jj = j + 1;
            assert(substitutes_directly(els, p[jj], p[jj - 1]));
            assert(path[j] == p[jj] && path[j - 1] == p[jj - 1]);
            assert(0 <= p[jj - 1] < els.len());
            assert(0 <= p[jj] < els.len());
        }
        assert(is_walk(g, path, blocked));
        let one: int = 1;
        assert(substitutes_directly(els, p[one], p[one - 1]));
        assert(0 <= p[1] < els.len());
        assert(g[h]@.contains(p[1] as u32));
        let i = choose|i: int| 0 <= i < g[h]@.len() && g[h]@[i] == p[1] as u32;
        assert(path[0] == g[h]@[i] as int);
        assert(path.last() == k);
    }
}

/// With no direct member, nothing substitutes for `h`.
proof fn lemma_no_members(els: Seq<ElementDecl>, h: int, n: nat)
    requires
        forall|b: int| 0 <= b < els.len() ==> !substitutes_directly(els, b, h),
    ensures
        substitutes_below(els, h, n) == Seq::<nat>::empty(),
    decreases n,
{
    if n > 0 {
        lemma_no_members(els, h, (n - 1) as nat);
        let k = n - 1;
        if may_substitute(els, h, k) {
            let p = choose|p: Seq<int>| #[trigger] substitution_chain(els, p) && p[0] == h && p.last() == k;
            let one: int = 1;
            assert(substitutes_directly(els, p[one], p[one - 1]));
        }
        assert(substitutes_below(els, h, n) =~= Seq::<nat>::empty());
    }
}

/// The members listed for `head` are the ones at the entry naming it, when
/// heads are distinct.
proof fn lemma_members_at(t: Seq<(ElementId, Vec<ElementId>)>, head: ElementId, i: int)
    requires
        0 <= i < t.len(),
        t[i].0 == head,
        forall|a: int, b: int| 0 <= a < t.len() && 0 <= b < t.len() && a != b ==> (#[trigger] t[a]).0 != (
        #[trigger] t[b]).0,
    ensures
        members_in(t, head) == t[i].1@,
{
    let c = choose|c: int| 0 <= c < t.len() && (#[trigger] t[c]).0 == head;
    assert(c == i);
}

/// For every head, the elements that may substitute for it, transitively,
/// skipping abstract ones (which are heads only).
fn build_substitution_closure(els: &Arena<ElementDecl>) -> (t: Vec<(ElementId, Vec<ElementId>)>)
    requires
        els@.len() <= u32::MAX,
    ensures
        forall|k: int| 0 <= k < t@.len() ==> (#[trigger] t@[k]).0@ < els@.len(),
        forall|k: int, m: int|
            0 <= k < t@.len() && 0 <= m < t@[k].1@.len() ==> (#[trigger] t@[k].1@[m])@ < els@.len(),
        forall|a: int, b: int| 0 <= a < t@.len() && 0 <= b < t@.len() && a != b ==> (#[trigger] t@[a]).0 != (
        #[trigger] t@[b]).0,
        forall|x: ElementId|
            x@ < els@.len() ==> element_slots(#[trigger] members_in(t@, x)) == substitutes_below(
                els@,
                x@ as int,
                els@.len(),
            ),
{
    let n = els.len();
    let items = els.iter();
    let g = substitution_graph(els);
    let mut none: Vec<bool> = Vec::new();
    while none.len() < n
        invariant
            none@.len() <= n,
            forall|i: int| 0 <= i < none@.len() ==> !none@[i],
        decreases n - none.len(),
    {
        none.push(false);
    }
    let mut t: Vec<(ElementId, Vec<ElementId>)> = Vec::new();
    let mut h: usize = 0;
    while h < n
        invariant
            n == els@.len(),
            n <= u32::MAX,
            items@ == els@,
            h <= n,
            g@.len() == n,
            graph_wf(g@),
            none@.len() == n,
            forall|i: int| 0 <= i < n ==> !none@[i],
            forall|a: int, b: int|
                0 <= a < n && 0 <= b < n ==> (g@[a]@.contains(b as u32) <==> substitutes_directly(
                    els@,
                    b,
                    a,
                )),
            forall|k: int| 0 <= k < t@.len() ==> (#[trigger] t@[k]).0@ < h,
            forall|k: int, m: int|
                0 <= k < t@.len() && 0 <= m < t@[k].1@.len() ==> (#[trigger] t@[k].1@[m])@ < n,
            forall|a: int, b: int|
                0 <= a < t@.len() && 0 <= b < t@.len() && a != b ==> (#[trigger] t@[a]).0 != (
                #[trigger] t@[b]).0,
            forall|x: ElementId|
                x@ < h ==> element_slots(#[trigger] members_in(t@, x)) == substitutes_below(els@, x@ as int, n as nat),
        decreases n - h,
    {
        let head = ElementId::from_index(h);
        let row = &g[h];
        if row.len() > 0 {
            let seen = reachable(&g, row, &none);
            let mut members: Vec<ElementId> = Vec::new();
            let mut k: usize = 0;
            while k < n
                invariant
                    n == els@.len(),
                    n <= u32::MAX,
                    items@ == els@,
                    h < n,
                    k <= n,
                    seen@.len() == n,
                    g@.len() == n,
                    graph_wf(g@),
                    none@.len() == n,
                    forall|i: int| 0 <= i < n ==> !none@[i],
                    *row == g@[h as int],
                    forall|v: int| 0 <= v < n ==> (seen@[v] <==> reachable_from(g@, row@, v, none@)),
                    forall|a: int, b: int|
                        0 <= a < n && 0 <= b < n ==> (g@[a]@.contains(b as u32) <==> substitutes_directly(
                            els@,
                            b,
                            a,
                        )),
                    forall|m: int| 0 <= m < members@.len() ==> (#[trigger] members@[m])@ < k,
                    element_slots(members@) == substitutes_below(els@, h as int, k as nat),
                decreases n - k,
            {
                proof {
                    lemma_reach_is_substitution(els@, g@, none@, h as int, k as int);
                }
                let ghost before = members@;
                if seen[k] && !items[k].is_abstract {
                    members.push(ElementId::from_index(k));
                }
                assert(element_slots(members@) =~= substitutes_below(els@, h as int, (k + 1) as nat)) by {
                    assert(element_slots(before) == substitutes_below(els@, h as int, k as nat));
                }
                k += 1;
            }
            let ghost before = t@;
            let ghost mine = members@;
            t.push((head, members));
            proof {
                assert forall|a: int, b: int|
                    0 <= a < t@.len() && 0 <= b < t@.len() && a != b implies (#[trigger] t@[a]).0 != (
                    #[trigger] t@[b]).0 by {
                    if a == before.len() {
                        assert(t@[b].0@ < h);
                    } else if b == before.len() {
                        assert(t@[a].0@ < h);
                    } else {
                        assert(before[a].0 != before[b].0);
                    }
                }
                assert(t@[before.len() as int].1@ == mine);
                assert forall|x: ElementId| x@ < h + 1 implies element_slots(#[trigger] members_in(t@, x))
                    == substitutes_below(els@, x@ as int, n as nat) by {
                    if x@ == h {
                        crate::model::lemma_element_id_view(x, head);
                        lemma_members_at(t@, x, before.len() as int);
                        assert(element_slots(mine) == substitutes_below(els@, h as int, n as nat));
                    } else {
                        assert(element_slots(members_in(before, x)) == substitutes_below(els@, x@ as int, n as nat));
                        if has_entry(before, x) {
                            let c = choose|c: int| 0 <= c < before.len() && (#[trigger] before[c]).0 == x;
                            lemma_members_at(before, x, c);
                            lemma_members_at(t@, x, c);
                        } else {
                            assert(!has_entry(t@, x)) by {
                                if has_entry(t@, x) {
                                    let c = choose|c: int| 0 <= c < t@.len() && (#[trigger] t@[c]).0 == x;
                                    if c == before.len() {
                                        crate::model::lemma_element_id_view(x, head);
                                    } else {
                                        assert(before[c].0 == x);
                                    }
                                }
                            }
                            assert(members_in(t@, x) == members_in(before, x));
                        }
                    }
                }
            }
        } else {
            proof {
                assert forall|b: int| 0 <= b < n implies !substitutes_directly(els@, b, h as int) by {
                    if substitutes_directly(els@, b, h as int) {
                        assert(g@[h as int]@.contains(b as u32));
                    }
                }
                lemma_no_members(els@, h as int, n as nat);
                assert forall|x: ElementId| x@ < h + 1 implies element_slots(#[trigger] members_in(t@, x))
                    == substitutes_below(els@, x@ as int, n as nat) by {
                    if x@ == h {
                        assert(!has_entry(t@, x)) by {
                            if has_entry(t@, x) {
                                let c = choose|c: int| 0 <= c < t@.len() && (#[trigger] t@[c]).0 == x;
                                assert(t@[c].0@ < h);
                            }
                        }
                        assert(members_in(t@, x) == Seq::<ElementId>::empty());
                        assert(element_slots(members_in(t@, x)) =~= Seq::<nat>::empty());
                        assert(substitutes_below(els@, h as int, n as nat) == Seq::<nat>::empty());
                        assert(x@ as int == h as int);
                    } else {
                        assert(x@ < h);
                        assert(element_slots(members_in(t@, x)) == substitutes_below(els@, x@ as int, n as nat));
                    }
                }
            }
        }
        h += 1;
    }
    t
}

/// Whether some entry of `t` names `head`.
pub open spec fn has_entry(t: Seq<(ElementId, Vec<ElementId>)>, head: ElementId) -> bool {
    exists|i: int| 0 <= i < t.len() && (#[trigger] t[i]).0 == head
}

// ---------------------------------------------------------------------------
// Dropping what never resolved
// ---------------------------------------------------------------------------

/// Whether an attribute use's declaration was found.
pub open spec fn use_resolved(u: AttributeUse) -> bool {
    u.attribute@ != u32::MAX
}

/// Whether an attribute group reference was found.
pub open spec fn group_ref_resolved(g: AttrGroupId) -> bool {
    g@ != u32::MAX
}

/// Whether a particle is held and its element or group reference was found.
pub open spec fn particle_resolved(particles: Seq<Particle>, p: ParticleId) -> bool {
    p@ < particles.len() && match particles[p@ as int].term {
        Term::Element(e) => e@ != u32::MAX,
        Term::GroupRef(g) => g@ != u32::MAX,
        _ => true,
    }
}

/// `b` is particle `a` with, when `done` and its term is a group, the
/// group's unresolved particles dropped; otherwise `b` is `a`.
pub open spec fn particle_pruned(a: Particle, b: Particle, particles: Seq<Particle>, done: bool) -> bool {
    if done {
        match (a.term, b.term) {
            (Term::Group(x), Term::Group(y)) => {
                &&& y.compositor == x.compositor
                &&& y.particles@ == x.particles@.filter(|p: ParticleId| particle_resolved(particles, p))
                &&& b.min_occurs == a.min_occurs && b.max_occurs == a.max_occurs && b.span == a.span
            },
            (Term::Group(_), _) => false,
            _ => b == a,
        }
    } else {
        b == a
    }
}

/// `b` is `a` with its attribute uses and group references replaced.
pub open spec fn complex_but_attributes(a: ComplexType, b: ComplexType) -> bool {
    &&& b.name == a.name
    &&& b.base == a.base
    &&& b.derivation == a.derivation
    &&& b.content == a.content
    &&& b.attribute_wildcard == a.attribute_wildcard
    &&& b.open_content == a.open_content
    &&& b.is_abstract == a.is_abstract
    &&& b.block == a.block
    &&& b.final_ == a.final_
    &&& b.annotation == a.annotation
    &&& b.span == a.span
}

/// `b` is `a` with its attribute uses and group references replaced.
pub open spec fn group_but_attributes(a: AttributeGroupDef, b: AttributeGroupDef) -> bool {
    &&& b.name == a.name
    &&& b.attribute_wildcard == a.attribute_wildcard
    &&& b.annotation == a.annotation
    &&& b.span == a.span
}

/// Keeps the uses whose declaration was found, in order.
fn keep_resolved_uses(v: &mut Vec<AttributeUse>)
    ensures
        final(v)@ == old(v)@.filter(|u: AttributeUse| use_resolved(u)),
{
    let ghost pred = |u: AttributeUse| use_resolved(u);
    let mut rest: Vec<AttributeUse> = Vec::new();
    std::mem::swap(v, &mut rest);
    let ghost orig = rest@;
    assert(orig.take(0).filter(pred) =~= Seq::<AttributeUse>::empty()) by {
        reveal(Seq::filter);
    }
    while rest.len() > 0
        invariant
            rest@.len() <= orig.len(),
            rest@ == orig.skip(orig.len() - rest@.len()),
            v@ == orig.take(orig.len() - rest@.len()).filter(pred),
            pred == (|u: AttributeUse| use_resolved(u)),
        decreases rest.len(),
    {
        let ghost k = orig.len() - rest@.len();
        let u = rest.remove(0);
        proof {
            assert(u == orig[k]);
            reveal(Seq::filter);
            assert(orig.take(k + 1).drop_last() =~= orig.take(k));
            assert(rest@ =~= orig.skip(k + 1));
        }
        if !u.attribute.is_placeholder() {
            v.push(u);
        }
    }
    assert(orig.take(orig.len() as int) =~= orig);
}

/// Keeps the group references that were found, in order.
fn keep_resolved_group_refs(v: &mut Vec<AttrGroupId>)
    ensures
        final(v)@ == old(v)@.filter(|g: AttrGroupId| group_ref_resolved(g)),
{
    let ghost pred = |g: AttrGroupId| group_ref_resolved(g);
    let mut rest: Vec<AttrGroupId> = Vec::new();
    std::mem::swap(v, &mut rest);
    let ghost orig = rest@;
    assert(orig.take(0).filter(pred) =~= Seq::<AttrGroupId>::empty()) by {
        reveal(Seq::filter);
    }
    while rest.len() > 0
        invariant
            rest@.len() <= orig.len(),
            rest@ == orig.skip(orig.len() - rest@.len()),
            v@ == orig.take(orig.len() - rest@.len()).filter(pred),
            pred == (|g: AttrGroupId| group_ref_resolved(g)),
        decreases rest.len(),
    {
        let ghost k = orig.len() - rest@.len();
        let g = rest.remove(0);
        proof {
            assert(g == orig[k]);
            reveal(Seq::filter);
            assert(orig.take(k + 1).drop_last() =~= orig.take(k));
            assert(rest@ =~= orig.skip(k + 1));
        }
        if !g.is_placeholder() {
            v.push(g);
        }
    }
    assert(orig.take(orig.len() as int) =~= orig);
}

/// The particles of `list` that are held and resolved, in order.
fn resolved_particles(particles: &Arena<Particle>, list: &Vec<ParticleId>) -> (r: Vec<ParticleId>)
    ensures
        r@ == list@.filter(|p: ParticleId| particle_resolved(particles@, p)),
{
    let ghost pred = |p: ParticleId| particle_resolved(particles@, p);
    let mut out: Vec<ParticleId> = Vec::new();
    let mut i: usize = 0;
    assert(list@.take(0).filter(pred) =~= Seq::<ParticleId>::empty()) by {
        reveal(Seq::filter);
    }
    while i < list.len()
        invariant
            i <= list@.len(),
            out@ == list@.take(i as int).filter(pred),
            pred == (|p: ParticleId| particle_resolved(particles@, p)),
        decreases list.len() - i,
    {
        let p = list[i];
        let keep = if p.index() < particles.len() {
            match &particles.at(p.index()).term {
                Term::Element(e) => !e.is_placeholder(),
                Term::GroupRef(g) => !g.is_placeholder(),
                _ => true,
            }
        } else {
            false
        };
        proof {
            reveal(Seq::filter);
            assert(list@.take(i + 1).drop_last() =~= list@.take(i as int));
            assert(keep == pred(p));
        }
        if keep {
            out.push(p);
        }
        i += 1;
    }
    assert(list@.take(list@.len() as int) =~= list@);
    out
}

/// What dropping unresolved references does: `b` is `a` with every
/// attribute use and group reference whose target never resolved removed,
/// every particle list rid of particles whose element or group was never
/// found, and every element whose type is not held given `xs:anyType`.
pub open spec fn pruned(a: Loader, b: Loader) -> bool {
    &&& b.type_defs().len() == a.type_defs().len()
    &&& forall|i: int|
        0 <= i < a.type_defs().len() ==> match (#[trigger] a.type_defs()[i], b.type_defs()[i]) {
            (TypeDefinition::Complex(x), TypeDefinition::Complex(y)) => complex_but_attributes(x, y)
                && y.attribute_uses@ == x.attribute_uses@.filter(|u: AttributeUse| use_resolved(u))
                && y.attribute_group_refs@ == x.attribute_group_refs@.filter(
                |g: AttrGroupId| group_ref_resolved(g),
            ),
            (TypeDefinition::Simple(x), TypeDefinition::Simple(y)) => x == y,
            _ => false,
        }
    &&& b.attribute_group_defs().len() == a.attribute_group_defs().len()
    &&& forall|i: int|
        0 <= i < a.attribute_group_defs().len() ==> {
            let (x, y) = (#[trigger] a.attribute_group_defs()[i], b.attribute_group_defs()[i]);
            &&& group_but_attributes(x, y)
            &&& y.attribute_uses@ == x.attribute_uses@.filter(|u: AttributeUse| use_resolved(u))
            &&& y.attribute_group_refs@ == x.attribute_group_refs@.filter(
                |g: AttrGroupId| group_ref_resolved(g),
            )
        }
    &&& b.group_defs().len() == a.group_defs().len()
    &&& forall|i: int|
        0 <= i < a.group_defs().len() ==> {
            let (x, y) = (#[trigger] a.group_defs()[i], b.group_defs()[i]);
            &&& y.name == x.name && y.annotation == x.annotation && y.span == x.span
            &&& y.group.compositor == x.group.compositor
            &&& y.group.particles@ == x.group.particles@.filter(
                |p: ParticleId| particle_resolved(a.particle_defs(), p),
            )
        }
    &&& b.particle_defs().len() == a.particle_defs().len()
    &&& forall|i: int|
        0 <= i < a.particle_defs().len() ==> #[trigger] particle_pruned(
            a.particle_defs()[i],
            b.particle_defs()[i],
            a.particle_defs(),
            true,
        )
    &&& b.element_decls().len() == a.element_decls().len()
    &&& forall|i: int|
        0 <= i < a.element_decls().len() ==> {
            let (x, y) = (#[trigger] a.element_decls()[i], b.element_decls()[i]);
            &&& y.type_id@ == if x.type_id@ < a.type_defs().len() {
                x.type_id@
            } else {
                0
            }
            &&& y == ElementDecl { type_id: y.type_id, ..x }
        }
    &&& b.attribute_decls() == a.attribute_decls()
    &&& b.constraint_defs() == a.constraint_defs()
    &&& b.notation_defs() == a.notation_defs()
    &&& b.annotation_defs() == a.annotation_defs()
    &&& b.interned() == a.interned()
    &&& b.symbols() == a.symbols()
    &&& b.builtin_ids() == a.builtin_ids()
    &&& b.pending() == a.pending()
    &&& b.reported() == a.reported()
    &&& b.document_list() == a.document_list()
    &&& b.version_read() == a.version_read()
}

impl Loader {
    /// Drops the attribute uses, group references and particles whose target
    /// never resolved, and gives an element whose type is not held here
    /// `xs:anyType`, so that nothing unresolved reaches a [`Schemas`].
    fn prune_placeholders(&mut self)
        requires
            old(self).wf(),
        ensures
            final(self).wf(),
            pruned(*old(self), *final(self)),
    {
        let nt = self.types.len();
        let mut i: usize = 0;
        while i < nt
            invariant
                nt == self.types@.len(),
                nt == old(self).types@.len(),
                i <= nt,
                forall|j: int|
                    0 <= j < i ==> match (#[trigger] old(self).types@[j], self.types@[j]) {
                        (TypeDefinition::Complex(a), TypeDefinition::Complex(b)) => complex_but_attributes(
                            a,
                            b,
                        ) && b.attribute_uses@ == a.attribute_uses@.filter(|u: AttributeUse| use_resolved(u))
                            && b.attribute_group_refs@ == a.attribute_group_refs@.filter(
                            |g: AttrGroupId| group_ref_resolved(g),
                        ),
                        (TypeDefinition::Simple(a), TypeDefinition::Simple(b)) => a == b,
                        _ => false,
                    },
                forall|j: int| i <= j < nt ==> #[trigger] self.types@[j] == old(self).types@[j],
                self.elements == old(self).elements,
                self.attributes == old(self).attributes,
                self.particles == old(self).particles,
                self.model_groups == old(self).model_groups,
                self.attribute_groups == old(self).attribute_groups,
                self.identity_constraints == old(self).identity_constraints,
                self.notations == old(self).notations,
                self.annotations == old(self).annotations,
                self.names == old(self).names,
                self.globals == old(self).globals,
                self.builtins == old(self).builtins,
                self.fixups == old(self).fixups,
                self.diags == old(self).diags,
                self.documents == old(self).documents,
                self.version == old(self).version,
            decreases nt - i,
        {
            match self.types.get_mut(i) {
                TypeDefinition::Complex(c) => {
                    keep_resolved_uses(&mut c.attribute_uses);
                    keep_resolved_group_refs(&mut c.attribute_group_refs);
                },
                TypeDefinition::Simple(_) => {},
            }
            i += 1;
        }
        let ghost s1 = *self;
        let ng = self.attribute_groups.len();
        let mut i: usize = 0;
        while i < ng
            invariant
                ng == self.attribute_groups@.len(),
                ng == old(self).attribute_groups@.len(),
                i <= ng,
                forall|j: int|
                    0 <= j < i ==> {
                        let (a, b) = (#[trigger] old(self).attribute_groups@[j], self.attribute_groups@[j]);
                        &&& group_but_attributes(a, b)
                        &&& b.attribute_uses@ == a.attribute_uses@.filter(|u: AttributeUse| use_resolved(u))
                        &&& b.attribute_group_refs@ == a.attribute_group_refs@.filter(
                            |g: AttrGroupId| group_ref_resolved(g),
                        )
                    },
                forall|j: int| i <= j < ng ==> #[trigger] self.attribute_groups@[j] == old(self).attribute_groups@[j],
                self.types == s1.types,
                self.elements == s1.elements,
                self.attributes == s1.attributes,
                self.particles == s1.particles,
                self.model_groups == s1.model_groups,
                self.identity_constraints == s1.identity_constraints,
                self.notations == s1.notations,
                self.annotations == s1.annotations,
                self.names == s1.names,
                self.globals == s1.globals,
                self.builtins == s1.builtins,
                self.fixups == s1.fixups,
                self.diags == s1.diags,
                self.documents == s1.documents,
                self.version == s1.version,
            decreases ng - i,
        {
            let g = self.attribute_groups.get_mut(i);
            keep_resolved_uses(&mut g.attribute_uses);
            keep_resolved_group_refs(&mut g.attribute_group_refs);
            i += 1;
        }
        let ghost s2 = *self;
        let nm = self.model_groups.len();
        let mut i: usize = 0;
        while i < nm
            invariant
                nm == self.model_groups@.len(),
                nm == old(self).model_groups@.len(),
                i <= nm,
                s2.particles == old(self).particles,
                forall|j: int|
                    0 <= j < i ==> {
                        let (a, b) = (#[trigger] old(self).model_groups@[j], self.model_groups@[j]);
                        &&& b.name == a.name && b.annotation == a.annotation && b.span == a.span
                        &&& b.group.compositor == a.group.compositor
                        &&& b.group.particles@ == a.group.particles@.filter(
                            |p: ParticleId| particle_resolved(old(self).particles@, p),
                        )
                    },
                forall|j: int| i <= j < nm ==> #[trigger] self.model_groups@[j] == old(self).model_groups@[j],
                self.types == s2.types,
                self.elements == s2.elements,
                self.attributes == s2.attributes,
                self.particles == s2.particles,
                self.attribute_groups == s2.attribute_groups,
                self.identity_constraints == s2.identity_constraints,
                self.notations == s2.notations,
                self.annotations == s2.annotations,
                self.names == s2.names,
                self.globals == s2.globals,
                self.builtins == s2.builtins,
                self.fixups == s2.fixups,
                self.diags == s2.diags,
                self.documents == s2.documents,
                self.version == s2.version,
            decreases nm - i,
        {
            let kept = resolved_particles(&self.particles, &self.model_groups.at(i).group.particles);
            let g = self.model_groups.get_mut(i);
            g.group.particles = kept;
            i += 1;
        }
        let ghost s3 = *self;
        let np = self.particles.len();
        let mut i: usize = 0;
        while i < np
            invariant
                np == self.particles@.len(),
                np == s3.particles@.len(),
                i <= np,
                forall|p: ParticleId| particle_resolved(self.particles@, p) == particle_resolved(s3.particles@, p),
                forall|j: int|
                    0 <= j < np ==> particle_pruned(s3.particles@[j], #[trigger] self.particles@[j], s3.particles@, j < i),
                self.types == s3.types,
                self.elements == s3.elements,
                self.attributes == s3.attributes,
                self.model_groups == s3.model_groups,
                self.attribute_groups == s3.attribute_groups,
                self.identity_constraints == s3.identity_constraints,
                self.notations == s3.notations,
                self.annotations == s3.annotations,
                self.names == s3.names,
                self.globals == s3.globals,
                self.builtins == s3.builtins,
                self.fixups == s3.fixups,
                self.diags == s3.diags,
                self.documents == s3.documents,
                self.version == s3.version,
            decreases np - i,
        {
            let kept = match &self.particles.at(i).term {
                Term::Group(g) => Some(resolved_particles(&self.particles, &g.particles)),
                _ => None,
            };
            let ghost before = self.particles@;
            match kept {
                Some(k) => match &mut self.particles.get_mut(i).term {
                    Term::Group(g) => {
                        g.particles = k;
                    },
                    _ => {},
                },
                None => {},
            }
            proof {
                assert forall|p: ParticleId| particle_resolved(self.particles@, p) == particle_resolved(
                    s3.particles@,
                    p,
                ) by {
                    assert(particle_resolved(before, p) == particle_resolved(s3.particles@, p));
                    if p@ < np && p@ == i {
                        assert(particle_pruned(s3.particles@[i as int], before[i as int], s3.particles@, false));
                    }
                }
                assert forall|j: int| 0 <= j < np implies particle_pruned(
                    s3.particles@[j],
                    #[trigger] self.particles@[j],
                    s3.particles@,
                    j < i + 1,
                ) by {
                    assert(particle_pruned(s3.particles@[j], before[j], s3.particles@, j < i));
                    if j == i {
                        assert(before[j] == s3.particles@[j]);
                        assert((|p: ParticleId| particle_resolved(before, p)) =~= (|p: ParticleId|
                            particle_resolved(s3.particles@, p)));
                    }
                }
            }
            i += 1;
        }
        let ghost s4 = *self;
        let ne = self.elements.len();
        let mut i: usize = 0;
        while i < ne
            invariant
                ne == self.elements@.len(),
                ne == old(self).elements@.len(),
                nt == self.types@.len(),
                i <= ne,
                forall|j: int|
                    0 <= j < i ==> {
                        let (a, b) = (#[trigger] old(self).elements@[j], self.elements@[j]);
                        &&& b.type_id@ == if a.type_id@ < nt {
                            a.type_id@
                        } else {
                            0
                        }
                        &&& b == ElementDecl { type_id: b.type_id, ..a }
                    },
                forall|j: int| i <= j < ne ==> #[trigger] self.elements@[j] == old(self).elements@[j],
                self.types == s4.types,
                self.attributes == s4.attributes,
                self.particles == s4.particles,
                self.model_groups == s4.model_groups,
                self.attribute_groups == s4.attribute_groups,
                self.identity_constraints == s4.identity_constraints,
                self.notations == s4.notations,
                self.annotations == s4.annotations,
                self.names == s4.names,
                self.globals == s4.globals,
                self.builtins == s4.builtins,
                self.fixups == s4.fixups,
                self.diags == s4.diags,
                self.documents == s4.documents,
                self.version == s4.version,
            decreases ne - i,
        {
            let e = self.elements.get_mut(i);
            if e.type_id.index() >= nt {
                e.type_id = TypeId::from_index(0);
            }
            i += 1;
        }
    }
}

// ---------------------------------------------------------------------------
// Compiling
// ---------------------------------------------------------------------------

// ---------------------------------------------------------------------------
// 2. Attribute groups
// ---------------------------------------------------------------------------

/// Whether `s` has a use of attribute `a`.
pub open spec fn has_attribute(s: Seq<AttributeUse>, a: AttributeId) -> bool {
    exists|k: int| 0 <= k < s.len() && (#[trigger] s[k]).attribute == a
}

/// `out` with each use of `us` appended, in order, unless a use of the same
/// attribute is already there.
pub open spec fn add_new(out: Seq<AttributeUse>, us: Seq<AttributeUse>) -> Seq<AttributeUse>
    decreases us.len(),
{
    if us.len() == 0 {
        out
    } else {
        let prev = add_new(out, us.drop_last());
        if has_attribute(prev, us.last().attribute) {
            prev
        } else {
            prev.push(us.last())
        }
    }
}

/// Whether no two uses of `s` are of one attribute.
pub open spec fn distinct_attributes(s: Seq<AttributeUse>) -> bool {
    forall|i: int, j: int| 0 <= i < j < s.len() ==> (#[trigger] s[i]).attribute != (#[trigger] s[j]).attribute
}

/// Merging uses keeps the uses already there, first and in order; ends
/// with a use of every attribute merged in; adds only uses merged in; and,
/// where the uses already there are of distinct attributes, leaves no
/// attribute used twice.
pub proof fn law_merged_uses(out: Seq<AttributeUse>, us: Seq<AttributeUse>)
    ensures
        out.len() <= add_new(out, us).len(),
        add_new(out, us).take(out.len() as int) == out,
        forall|k: int| 0 <= k < us.len() ==> has_attribute(add_new(out, us), (#[trigger] us[k]).attribute),
        forall|k: int|
            0 <= k < add_new(out, us).len() ==> out.contains(#[trigger] add_new(out, us)[k]) || us.contains(
                add_new(out, us)[k],
            ),
        distinct_attributes(out) ==> distinct_attributes(add_new(out, us)),
    decreases us.len(),
{
    if us.len() > 0 {
        let prev = add_new(out, us.drop_last());
        law_merged_uses(out, us.drop_last());
        let u = us.last();
        assert forall|k: int| 0 <= k < us.len() implies has_attribute(add_new(out, us), (#[trigger] us[k]).attribute) by {
            if k < us.len() - 1 {
                assert(us.drop_last()[k] == us[k]);
                let w = choose|q: int| 0 <= q < prev.len() && (#[trigger] prev[q]).attribute == us[k].attribute;
                if !has_attribute(prev, u.attribute) {
                    assert(prev.push(u)[w] == prev[w]);
                }
            } else if !has_attribute(prev, u.attribute) {
                assert(prev.push(u)[prev.len() as int] == u);
            }
        }
        assert forall|k: int| 0 <= k < add_new(out, us).len() implies out.contains(#[trigger] add_new(out, us)[k])
            || us.contains(add_new(out, us)[k]) by {
            if k < prev.len() {
                if !has_attribute(prev, u.attribute) {
                    assert(prev.push(u)[k] == prev[k]);
                }
                if us.drop_last().contains(prev[k]) {
                    let q = choose|q: int| 0 <= q < us.drop_last().len() && us.drop_last()[q] == prev[k];
                    assert(us[q] == prev[k]);
                }
            } else {
                assert(add_new(out, us)[k] == u);
                assert(us[us.len() - 1] == u);
            }
        }
        if !has_attribute(prev, u.attribute) {
            assert(prev.push(u).take(out.len() as int) =~= prev.take(out.len() as int));
        }
    }
}

/// Where expanding attribute groups stands: the groups expanded so far, each
/// with its full list of uses; the groups being expanded; and the groups
/// found referring back to themselves, in the order they were found.
pub type ExpandState = (Seq<Option<Seq<AttributeUse>>>, Seq<bool>, Seq<nat>);

/// Expanding group `id`: a group already expanded gives its uses; a group
/// met again while it is being expanded refers to itself, is recorded, and
/// gives nothing; any other group gives its own uses followed by those of
/// each group it refers to, in order, a use of an attribute already there
/// skipped, and is recorded as expanded.
pub open spec fn expand_spec(groups: Seq<AttributeGroupDef>, st: ExpandState, id: nat, fuel: nat) -> (
    ExpandState,
    Seq<AttributeUse>,
)
    decreases fuel, 0nat,
{
    if fuel == 0 {
        (st, Seq::empty())
    } else if st.0[id as int] is Some {
        (st, st.0[id as int]->0)
    } else if st.1[id as int] {
        ((st.0, st.1, st.2.push(id)), Seq::empty())
    } else {
        let g = groups[id as int];
        let (st2, out) = expand_refs_spec(
            groups,
            (st.0, st.1.update(id as int, true), st.2),
            g.attribute_group_refs@,
            0,
            g.attribute_uses@,
            (fuel - 1) as nat,
        );
        ((st2.0.update(id as int, Some(out)), st2.1.update(id as int, false), st2.2), out)
    }
}

/// Expanding the references `refs` from the `k`-th on into `out`.
pub open spec fn expand_refs_spec(
    groups: Seq<AttributeGroupDef>,
    st: ExpandState,
    refs: Seq<AttrGroupId>,
    k: nat,
    out: Seq<AttributeUse>,
    fuel: nat,
) -> (ExpandState, Seq<AttributeUse>)
    decreases fuel, refs.len() - k,
{
    if k >= refs.len() {
        (st, out)
    } else {
        let (st1, us) = expand_spec(groups, st, refs[k as int]@, fuel);
        expand_refs_spec(groups, st1, refs, k + 1, add_new(out, us), fuel)
    }
}

/// Nothing expanded, nothing being expanded, nothing found.
pub open spec fn expand_start(n: nat) -> ExpandState {
    (Seq::new(n, |i: int| None), Seq::new(n, |i: int| false), Seq::empty())
}

/// Expanding the first `i` groups in order, from `st`.
pub open spec fn expand_all(groups: Seq<AttributeGroupDef>, st: ExpandState, i: nat) -> ExpandState
    decreases i,
{
    if i == 0 {
        st
    } else {
        expand_spec(groups, expand_all(groups, st, (i - 1) as nat), (i - 1) as nat, groups.len() + 1).0
    }
}

/// Where expanding every group ends.
pub open spec fn expanded_groups(groups: Seq<AttributeGroupDef>) -> ExpandState {
    expand_all(groups, expand_start(groups.len()), groups.len())
}

/// The uses of the groups `refs` names, one group after another.
pub open spec fn joined_uses(expanded: Seq<Option<Seq<AttributeUse>>>, refs: Seq<AttrGroupId>) -> Seq<AttributeUse>
    decreases refs.len(),
{
    if refs.len() == 0 {
        Seq::empty()
    } else {
        joined_uses(expanded, refs.drop_last()) + match expanded[refs.last()@ as int] {
            Some(us) => us,
            None => Seq::empty(),
        }
    }
}

/// The number of groups being expanded.
pub open spec fn busy_count(b: Seq<bool>) -> nat
    decreases b.len(),
{
    if b.len() == 0 {
        0
    } else {
        busy_count(b.drop_last()) + if b.last() {
            1nat
        } else {
            0nat
        }
    }
}

/// Whether every group reference, in a group or a complex type, names a
/// group held here.
pub open spec fn group_refs_held(types: Seq<TypeDefinition>, groups: Seq<AttributeGroupDef>) -> bool {
    &&& forall|g: int, k: int|
        0 <= g < groups.len() && 0 <= k < (#[trigger] groups[g]).attribute_group_refs@.len() ==> (
        #[trigger] groups[g].attribute_group_refs@[k])@ < groups.len()
    &&& forall|i: int, k: int|
        0 <= i < types.len() && 0 <= k < type_group_refs(#[trigger] types[i]).len() ==> (
        #[trigger] type_group_refs(types[i])[k])@ < groups.len()
}

/// The attribute groups a type refers to: a complex type's, or none.
pub open spec fn type_group_refs(t: TypeDefinition) -> Seq<AttrGroupId> {
    match t {
        TypeDefinition::Complex(c) => c.attribute_group_refs@,
        TypeDefinition::Simple(_) => Seq::empty(),
    }
}

/// Whether every group's name is interned.
pub open spec fn group_names_in_range(groups: Seq<AttributeGroupDef>, st: Seq<Seq<char>>) -> bool {
    forall|g: int|
        0 <= g < groups.len() ==> {
            &&& (#[trigger] groups[g]).name.local@ < st.len()
            &&& groups[g].name.ns matches Some(n) ==> n@ < st.len()
        }
}

/// The diagnostic for a group that refers to itself.
pub open spec fn reports_group_cycle(d: Diagnostic, g: AttributeGroupDef, st: Seq<Seq<char>>) -> bool {
    &&& d.code == DiagCode::CircularDefinition
    &&& d.severity == Severity::Error
    &&& d.spans@ == seq![g.span]
    &&& d.help is None
    &&& d.message@ == "attribute group `"@ + clark_chars(
        match g.name.ns {
            Some(n) => Some(st[n@ as int]),
            None => None,
        },
        st[g.name.local@ as int],
    ) + "` references itself"@
}

/// `y` is the group `x` with its uses replaced by `uses`.
pub open spec fn group_with_uses(x: AttributeGroupDef, y: AttributeGroupDef, uses: Seq<AttributeUse>) -> bool {
    &&& group_but_attributes(x, y)
    &&& y.attribute_group_refs == x.attribute_group_refs
    &&& y.attribute_uses@ == uses
}

/// What flattening attribute groups does to `a`: each group's uses become
/// its full expansion; each complex type gains, after its own uses, the uses
/// of the groups it refers to, an attribute it already has skipped; each
/// group found referring to itself is reported; nothing else changes.
pub open spec fn groups_merged(a: Loader, b: Loader) -> bool {
    let groups = a.attribute_group_defs();
    let st = expanded_groups(groups);
    let n = a.reported().len();
    &&& b.attribute_group_defs().len() == groups.len()
    &&& forall|g: int|
        0 <= g < groups.len() ==> group_with_uses(
            #[trigger] groups[g],
            b.attribute_group_defs()[g],
            match st.0[g] {
                Some(us) => us,
                None => groups[g].attribute_uses@,
            },
        )
    &&& b.type_defs().len() == a.type_defs().len()
    &&& forall|i: int|
        0 <= i < a.type_defs().len() ==> match (#[trigger] a.type_defs()[i], b.type_defs()[i]) {
            (TypeDefinition::Complex(x), TypeDefinition::Complex(y)) => {
                &&& complex_but_attributes(x, y)
                &&& y.attribute_group_refs == x.attribute_group_refs
                &&& y.attribute_uses@ == add_new(x.attribute_uses@, joined_uses(st.0, x.attribute_group_refs@))
            },
            (TypeDefinition::Simple(x), TypeDefinition::Simple(y)) => x == y,
            _ => false,
        }
    &&& b.reported().len() == n + st.2.len()
    &&& b.reported().take(n as int) == a.reported()
    &&& forall|k: int|
        0 <= k < st.2.len() ==> reports_group_cycle(#[trigger] b.reported()[n + k], groups[st.2[k] as int], a.interned())
    &&& b.element_decls() == a.element_decls()
    &&& b.attribute_decls() == a.attribute_decls()
    &&& b.particle_defs() == a.particle_defs()
    &&& b.group_defs() == a.group_defs()
    &&& b.constraint_defs() == a.constraint_defs()
    &&& b.notation_defs() == a.notation_defs()
    &&& b.annotation_defs() == a.annotation_defs()
    &&& b.interned() == a.interned()
    &&& b.symbols() == a.symbols()
    &&& b.builtin_ids() == a.builtin_ids()
    &&& b.pending() == a.pending()
    &&& b.document_list() == a.document_list()
    &&& b.version_read() == a.version_read()
}

/// The views of expanded groups.
pub open spec fn expanded_view(v: Seq<Option<Vec<AttributeUse>>>) -> Seq<Option<Seq<AttributeUse>>> {
    v.map_values(|o: Option<Vec<AttributeUse>>| match o {
        Some(us) => Some(us@),
        None => None,
    })
}

/// Marking one more group busy counts one more.
proof fn lemma_busy_count_update(b: Seq<bool>, i: int, v: bool)
    requires
        0 <= i < b.len(),
    ensures
        busy_count(b.update(i, v)) + (if b[i] {
            1nat
        } else {
            0nat
        }) == busy_count(b) + (if v {
            1nat
        } else {
            0nat
        }),
        busy_count(b) <= b.len(),
    decreases b.len(),
{
    if i < b.len() - 1 {
        lemma_busy_count_update(b.drop_last(), i, v);
        assert(b.update(i, v).drop_last() =~= b.drop_last().update(i, v));
    } else {
        assert(b.update(i, v).drop_last() =~= b.drop_last());
        lemma_busy_count_bound(b.drop_last());
    }
}

proof fn lemma_busy_count_bound(b: Seq<bool>)
    ensures
        busy_count(b) <= b.len(),
    decreases b.len(),
{
    if b.len() > 0 {
        lemma_busy_count_bound(b.drop_last());
    }
}

/// Expanding a group leaves the same groups busy, keeps the lengths, and
/// only adds to what was expanded and found.
proof fn lemma_expand_frame(groups: Seq<AttributeGroupDef>, st: ExpandState, id: nat, fuel: nat)
    requires
        id < groups.len(),
        st.0.len() == groups.len(),
        st.1.len() == groups.len(),
        forall|g: int, k: int|
            0 <= g < groups.len() && 0 <= k < (#[trigger] groups[g]).attribute_group_refs@.len() ==> (
            #[trigger] groups[g].attribute_group_refs@[k])@ < groups.len(),
    ensures
        ({
            let r = expand_spec(groups, st, id, fuel).0;
            &&& r.0.len() == groups.len()
            &&& r.1 == st.1
            &&& forall|g: int| 0 <= g < groups.len() && (#[trigger] st.0[g]) is Some ==> r.0[g] == st.0[g]
            &&& forall|g: int| 0 <= g < groups.len() && #[trigger] st.1[g] ==> r.0[g] == st.0[g]
            &&& st.2.is_prefix_of(r.2)
        }),
    decreases fuel, 0nat,
{
    if fuel > 0 && st.0[id as int] is None && !st.1[id as int] {
        let g = groups[id as int];
        let st1 = (st.0, st.1.update(id as int, true), st.2);
        lemma_expand_refs_frame(groups, st1, g.attribute_group_refs@, 0, g.attribute_uses@, (fuel - 1) as nat);
        let st2 = expand_refs_spec(groups, st1, g.attribute_group_refs@, 0, g.attribute_uses@, (fuel - 1) as nat).0;
        assert(st2.1.update(id as int, false) =~= st.1);
    }
}

proof fn lemma_expand_refs_frame(
    groups: Seq<AttributeGroupDef>,
    st: ExpandState,
    refs: Seq<AttrGroupId>,
    k: nat,
    out: Seq<AttributeUse>,
    fuel: nat,
)
    requires
        st.0.len() == groups.len(),
        st.1.len() == groups.len(),
        forall|j: int| 0 <= j < refs.len() ==> (#[trigger] refs[j])@ < groups.len(),
        forall|g: int, k: int|
            0 <= g < groups.len() && 0 <= k < (#[trigger] groups[g]).attribute_group_refs@.len() ==> (
            #[trigger] groups[g].attribute_group_refs@[k])@ < groups.len(),
    ensures
        ({
            let r = expand_refs_spec(groups, st, refs, k, out, fuel).0;
            &&& r.0.len() == groups.len()
            &&& r.1 == st.1
            &&& forall|g: int| 0 <= g < groups.len() && (#[trigger] st.0[g]) is Some ==> r.0[g] == st.0[g]
            &&& forall|g: int| 0 <= g < groups.len() && #[trigger] st.1[g] ==> r.0[g] == st.0[g]
            &&& st.2.is_prefix_of(r.2)
        }),
    decreases fuel, refs.len() - k,
{
    if k < refs.len() {
        lemma_expand_frame(groups, st, refs[k as int]@, fuel);
        let (st1, us) = expand_spec(groups, st, refs[k as int]@, fuel);
        lemma_expand_refs_frame(groups, st1, refs, k + 1, add_new(out, us), fuel);
    }
}

/// Whether the loader's groups `cur` stand as the groups `groups0` did
/// before expanding, each expanded group carrying its expansion.
pub open spec fn groups_track(
    cur: Seq<AttributeGroupDef>,
    groups0: Seq<AttributeGroupDef>,
    expanded: Seq<Option<Seq<AttributeUse>>>,
) -> bool {
    &&& cur.len() == groups0.len()
    &&& expanded.len() == groups0.len()
    &&& forall|g: int|
        0 <= g < groups0.len() ==> match #[trigger] expanded[g] {
            Some(us) => group_with_uses(groups0[g], cur[g], us),
            None => cur[g] == groups0[g],
        }
}

/// Whether `diags` is `d0` followed by one report for each group of `cyc`.
pub open spec fn cycles_logged(
    diags: Seq<Diagnostic>,
    d0: Seq<Diagnostic>,
    cyc: Seq<nat>,
    groups0: Seq<AttributeGroupDef>,
    st: Seq<Seq<char>>,
) -> bool {
    &&& diags.len() == d0.len() + cyc.len()
    &&& diags.take(d0.len() as int) == d0
    &&& forall|k: int| 0 <= k < cyc.len() ==> reports_group_cycle(#[trigger] diags[d0.len() + k], groups0[cyc[k] as int], st)
}

/// Whether every group a group refers to is held.
pub open spec fn nested_refs_held(groups: Seq<AttributeGroupDef>) -> bool {
    forall|g: int, k: int|
        0 <= g < groups.len() && 0 <= k < (#[trigger] groups[g]).attribute_group_refs@.len() ==> (
        #[trigger] groups[g].attribute_group_refs@[k])@ < groups.len()
}

/// A copy of the uses `us`.
fn copy_uses(us: &Vec<AttributeUse>) -> (r: Vec<AttributeUse>)
    ensures
        r@ == us@,
{
    let mut r: Vec<AttributeUse> = Vec::new();
    let mut i: usize = 0;
    while i < us.len()
        invariant
            i <= us@.len(),
            r@ == us@.take(i as int),
        decreases us@.len() - i,
    {
        r.push(us[i].duplicate());
        proof {
            assert(us@.take(i + 1) =~= us@.take(i as int).push(us@[i as int]));
        }
        i += 1;
    }
    assert(us@.take(i as int) =~= us@);
    r
}

/// A copy of the references `rs`.
fn copy_refs(rs: &Vec<AttrGroupId>) -> (r: Vec<AttrGroupId>)
    ensures
        r@ == rs@,
{
    let mut r: Vec<AttrGroupId> = Vec::new();
    let mut i: usize = 0;
    while i < rs.len()
        invariant
            i <= rs@.len(),
            r@ == rs@.take(i as int),
        decreases rs@.len() - i,
    {
        r.push(rs[i]);
        proof {
            assert(rs@.take(i + 1) =~= rs@.take(i as int).push(rs@[i as int]));
        }
        i += 1;
    }
    assert(rs@.take(i as int) =~= rs@);
    r
}

/// Appends each use of `us` to `out`.
fn append_uses(out: &mut Vec<AttributeUse>, us: &Vec<AttributeUse>)
    ensures
        final(out)@ == old(out)@ + us@,
{
    let ghost start = out@;
    let mut i: usize = 0;
    while i < us.len()
        invariant
            i <= us@.len(),
            out@ == start + us@.take(i as int),
        decreases us@.len() - i,
    {
        out.push(us[i].duplicate());
        proof {
            assert(us@.take(i + 1) =~= us@.take(i as int).push(us@[i as int]));
            assert(start + us@.take(i + 1) =~= (start + us@.take(i as int)).push(us@[i as int]));
        }
        i += 1;
    }
    assert(us@.take(i as int) =~= us@);
}

/// Appends to `out` each use of `us` whose attribute it does not have yet.
fn add_new_uses(out: &mut Vec<AttributeUse>, us: &Vec<AttributeUse>)
    ensures
        final(out)@ == add_new(old(out)@, us@),
{
    let ghost start = out@;
    let mut i: usize = 0;
    while i < us.len()
        invariant
            i <= us@.len(),
            out@ == add_new(start, us@.take(i as int)),
        decreases us@.len() - i,
    {
        let u = &us[i];
        let mut present = false;
        let mut j: usize = 0;
        while j < out.len()
            invariant
                j <= out@.len(),
                present == exists|k: int| 0 <= k < j && (#[trigger] out@[k]).attribute == u.attribute,
            decreases out@.len() - j,
        {
            if out[j].attribute == u.attribute {
                present = true;
            }
            j += 1;
        }
        proof {
            assert(us@.take(i + 1).drop_last() =~= us@.take(i as int));
            assert(us@.take(i + 1).last() == *u);
            assert(present == has_attribute(out@, u.attribute));
        }
        if !present {
            out.push(u.duplicate());
        }
        i += 1;
    }
    assert(us@.take(i as int) =~= us@);
}

impl Loader {
    /// Reports that group `id` refers to itself.
    fn report_group_cycle(&mut self, id: AttrGroupId)
        requires
            id@ < old(self).attribute_groups@.len(),
            old(self).names.wf(),
            old(self).attribute_groups@[id@ as int].name.local@ < old(self).names@.len(),
            old(self).attribute_groups@[id@ as int].name.ns matches Some(n) ==> n@ < old(self).names@.len(),
        ensures
            final(self).diags@.len() == old(self).diags@.len() + 1,
            final(self).diags@.take(old(self).diags@.len() as int) == old(self).diags@,
            reports_group_cycle(
                final(self).diags@.last(),
                old(self).attribute_groups@[id@ as int],
                old(self).names@,
            ),
            final(self).agrees_but(*old(self), LoaderPart::Diags),
    {
        let g = self.attribute_groups.at(id.index());
        let shown = self.names.display(g.name);
        let mut msg: Vec<char> = Vec::new();
        push_str(&mut msg, "attribute group `");
        push_str(&mut msg, shown.as_str());
        push_str(&mut msg, "` references itself");
        let text = string_from_chars(&msg);
        let d = Diagnostic::error(DiagCode::CircularDefinition, text.as_str()).at(g.span.duplicate());
        let ghost before = self.diags@;
        self.diags.push(d);
        proof {
            assert(d.spans@ =~= seq![g.span]);
            assert(self.diags@.take(before.len() as int) =~= before);
        }
    }

    /// Expands group `id`, as [`expand_spec`] says, against the groups
    /// `groups0` as they were before expanding began.
    fn expand_group(
        &mut self,
        id: AttrGroupId,
        expanded: &mut Vec<Option<Vec<AttributeUse>>>,
        busy: &mut Vec<bool>,
        Ghost(groups0): Ghost<Seq<AttributeGroupDef>>,
        Ghost(d0): Ghost<Seq<Diagnostic>>,
        Ghost(cyc): Ghost<Seq<nat>>,
        Ghost(fuel): Ghost<nat>,
    ) -> (r: (Vec<AttributeUse>, Ghost<Seq<nat>>))
        requires
            old(self).wf(),
            id@ < groups0.len(),
            old(busy)@.len() == groups0.len(),
            groups_track(old(self).attribute_groups@, groups0, expanded_view(old(expanded)@)),
            cycles_logged(old(self).diags@, d0, cyc, groups0, old(self).names@),
            nested_refs_held(groups0),
            group_names_in_range(groups0, old(self).names@),
            fuel + busy_count(old(busy)@) >= groups0.len() + 1,
        ensures
            ({
                let (st2, out) = expand_spec(groups0, (expanded_view(old(expanded)@), old(busy)@, cyc), id@, fuel);
                &&& expanded_view(final(expanded)@) == st2.0
                &&& final(busy)@ == st2.1
                &&& r.1@ == st2.2
                &&& r.0@ == out
            }),
            final(self).wf(),
            final(self).types == old(self).types,
            final(self).elements == old(self).elements,
            final(self).attributes == old(self).attributes,
            final(self).particles == old(self).particles,
            final(self).model_groups == old(self).model_groups,
            final(self).identity_constraints == old(self).identity_constraints,
            final(self).notations == old(self).notations,
            final(self).annotations == old(self).annotations,
            final(self).names == old(self).names,
            final(self).globals == old(self).globals,
            final(self).builtins == old(self).builtins,
            final(self).fixups == old(self).fixups,
            final(self).documents == old(self).documents,
            final(self).version == old(self).version,
            groups_track(final(self).attribute_groups@, groups0, expanded_view(final(expanded)@)),
            cycles_logged(final(self).diags@, d0, r.1@, groups0, final(self).names@),
        decreases fuel, 0nat,
    {
        let ghost n = groups0.len();
        let i = id.index();
        proof {
            lemma_busy_count_bound(busy@);
            assert(expanded_view(expanded@)[i as int] == match expanded@[i as int] {
                Some(us) => Some(us@),
                None => None,
            });
        }
        match &expanded[i] {
            Some(done) => {
                let c = copy_uses(done);
                return (c, Ghost(cyc));
            },
            None => {},
        }
        if busy[i] {
            proof {
                assert(self.attribute_groups@[i as int] == groups0[i as int]);
            }
            let ghost before = self.diags@;
            self.report_group_cycle(id);
            proof {
                let c2 = cyc.push(id@);
                assert(self.diags@.take(d0.len() as int) =~= before.take(d0.len() as int));
                assert forall|k: int| 0 <= k < c2.len() implies reports_group_cycle(
                    #[trigger] self.diags@[d0.len() + k],
                    groups0[c2[k] as int],
                    self.names@,
                ) by {
                    if k < cyc.len() {
                        assert(self.diags@[d0.len() + k] == before[d0.len() + k]);
                    }
                }
            }
            return (Vec::new(), Ghost(cyc.push(id@)));
        }
        let ghost st0: ExpandState = (expanded_view(expanded@), busy@, cyc);
        busy.set(i, true);
        let ghost marked = busy@;
        proof {
            lemma_busy_count_update(st0.1, i as int, true);
            assert(self.attribute_groups@[i as int] == groups0[i as int]);
        }
        let g = self.attribute_groups.at(i);
        let mut out = copy_uses(&g.attribute_uses);
        let refs = copy_refs(&g.attribute_group_refs);
        let ghost uses0 = out@;
        let ghost mut c = cyc;
        let ghost target = expand_refs_spec(groups0, (st0.0, marked, cyc), refs@, 0, uses0, (fuel - 1) as nat);
        let mut k: usize = 0;
        while k < refs.len()
            invariant
                k <= refs@.len(),
                refs@ == groups0[i as int].attribute_group_refs@,
                forall|j: int| 0 <= j < refs@.len() ==> (#[trigger] refs@[j])@ < n,
                target == expand_refs_spec(groups0, (expanded_view(expanded@), busy@, c), refs@, k as nat, out@, (fuel - 1) as nat),
                busy@ == marked,
                marked.len() == n,
                marked[i as int],
                busy_count(marked) == busy_count(st0.1) + 1,
                fuel >= 1,
                fuel + busy_count(st0.1) >= n + 1,
                expanded_view(expanded@)[i as int] is None,
                i == id@,
                i < n,
                n == groups0.len(),
                self.wf(),
                self.types == old(self).types,
                self.elements == old(self).elements,
                self.attributes == old(self).attributes,
                self.particles == old(self).particles,
                self.model_groups == old(self).model_groups,
                self.identity_constraints == old(self).identity_constraints,
                self.notations == old(self).notations,
                self.annotations == old(self).annotations,
                self.names == old(self).names,
                self.globals == old(self).globals,
                self.builtins == old(self).builtins,
                self.fixups == old(self).fixups,
                self.documents == old(self).documents,
                self.version == old(self).version,
                groups_track(self.attribute_groups@, groups0, expanded_view(expanded@)),
                cycles_logged(self.diags@, d0, c, groups0, self.names@),
                nested_refs_held(groups0),
                group_names_in_range(groups0, self.names@),
            decreases refs@.len() - k,
        {
            let r = refs[k];
            let ghost stk: ExpandState = (expanded_view(expanded@), busy@, c);
            let (us, Ghost(c2)) = self.expand_group(
                r,
                expanded,
                busy,
                Ghost(groups0),
                Ghost(d0),
                Ghost(c),
                Ghost((fuel - 1) as nat),
            );
            proof {
                lemma_expand_frame(groups0, stk, r@, (fuel - 1) as nat);
                assert(stk.1[i as int]);
            }
            add_new_uses(&mut out, &us);
            proof {
                c = c2;
            }
            k += 1;
        }
        busy.set(i, false);
        let ghost ev = expanded_view(expanded@);
        let mut slot = self.attribute_groups.get_mut(i);
        slot.attribute_uses = copy_uses(&out);
        let kept = copy_uses(&out);
        expanded.set(i, Some(kept));
        proof {
            assert(busy@ =~= marked.update(i as int, false));
            assert(marked.update(i as int, false) =~= st0.1);
            assert(expanded_view(expanded@) =~= ev.update(i as int, Some(out@)));
        }
        (out, Ghost(c))
    }
}


/// With no group busy, none is counted.
proof fn lemma_busy_count_none(b: Seq<bool>)
    requires
        forall|j: int| 0 <= j < b.len() ==> !(#[trigger] b[j]),
    ensures
        busy_count(b) == 0,
    decreases b.len(),
{
    if b.len() > 0 {
        lemma_busy_count_none(b.drop_last());
    }
}

/// What flattening does to one type: a complex type's uses gain those of the
/// groups it refers to.
pub open spec fn type_merged(x: TypeDefinition, y: TypeDefinition, expanded: Seq<Option<Seq<AttributeUse>>>) -> bool {
    match (x, y) {
        (TypeDefinition::Complex(a), TypeDefinition::Complex(b)) => {
            &&& complex_but_attributes(a, b)
            &&& b.attribute_group_refs == a.attribute_group_refs
            &&& b.attribute_uses@ == add_new(a.attribute_uses@, joined_uses(expanded, a.attribute_group_refs@))
        },
        (TypeDefinition::Simple(a), TypeDefinition::Simple(b)) => a == b,
        _ => false,
    }
}

impl Loader {
    /// Flattens attribute groups: every group is expanded, in order, into
    /// its own uses and those of the groups it refers to, reporting each
    /// group found referring to itself; then every complex type gains the
    /// uses of the groups it refers to, an attribute it already has skipped.
    fn merge_attribute_groups(&mut self)
        requires
            old(self).wf(),
            group_refs_held(old(self).types@, old(self).attribute_groups@),
            group_names_in_range(old(self).attribute_groups@, old(self).names@),
        ensures
            final(self).wf(),
            groups_merged(*old(self), *final(self)),
    {
        let ghost orig = *self;
        let ghost groups0 = self.attribute_groups@;
        let ghost d0 = self.diags@;
        let n = self.attribute_groups.len();
        let mut expanded: Vec<Option<Vec<AttributeUse>>> = Vec::new();
        let mut busy: Vec<bool> = Vec::new();
        let mut i: usize = 0;
        while i < n
            invariant
                i <= n,
                expanded@.len() == i,
                busy@.len() == i,
                forall|j: int| 0 <= j < i ==> (#[trigger] expanded@[j]) is None,
                forall|j: int| 0 <= j < i ==> !(#[trigger] busy@[j]),
            decreases n - i,
        {
            expanded.push(None);
            busy.push(false);
            i += 1;
        }
        proof {
            assert(expanded_view(expanded@) =~= expand_start(n as nat).0);
            assert(busy@ =~= expand_start(n as nat).1);
            lemma_busy_count_none(busy@);
            assert(groups_track(self.attribute_groups@, groups0, expanded_view(expanded@)));
            assert(self.diags@.take(d0.len() as int) =~= d0);
        }
        let ghost mut c: Seq<nat> = Seq::empty();
        let mut i: usize = 0;
        while i < n
            invariant
                i <= n,
                n == groups0.len(),
                (expanded_view(expanded@), busy@, c) == expand_all(groups0, expand_start(n as nat), i as nat),
                busy@ == expand_start(n as nat).1,
                busy_count(busy@) == 0,
                self.wf(),
                self.types == orig.types,
                self.elements == orig.elements,
                self.attributes == orig.attributes,
                self.particles == orig.particles,
                self.model_groups == orig.model_groups,
                self.identity_constraints == orig.identity_constraints,
                self.notations == orig.notations,
                self.annotations == orig.annotations,
                self.names == orig.names,
                self.globals == orig.globals,
                self.builtins == orig.builtins,
                self.fixups == orig.fixups,
                self.documents == orig.documents,
                self.version == orig.version,
                groups_track(self.attribute_groups@, groups0, expanded_view(expanded@)),
                cycles_logged(self.diags@, d0, c, groups0, self.names@),
                nested_refs_held(groups0),
                group_names_in_range(groups0, self.names@),
            decreases n - i,
        {
            let ghost before: ExpandState = (expanded_view(expanded@), busy@, c);
            let (_, Ghost(c2)) = self.expand_group(
                AttrGroupId::from_index(i),
                &mut expanded,
                &mut busy,
                Ghost(groups0),
                Ghost(d0),
                Ghost(c),
                Ghost((n + 1) as nat),
            );
            proof {
                lemma_expand_frame(groups0, before, i as nat, (n + 1) as nat);
                c = c2;
            }
            i += 1;
        }
        let ghost ev = expanded_view(expanded@);
        let ghost types0 = self.types@;
        let nt = self.types.len();
        let mut t: usize = 0;
        while t < nt
            invariant
                nt == types0.len(),
                self.types@.len() == nt,
                t <= nt,
                forall|j: int| 0 <= j < t ==> type_merged(#[trigger] types0[j], self.types@[j], ev),
                forall|j: int| t <= j < nt ==> #[trigger] self.types@[j] == types0[j],
                types0 == orig.types@,
                expanded_view(expanded@) == ev,
                ev.len() == n,
                n == groups0.len(),
                group_refs_held(types0, groups0),
                self.wf(),
                self.elements == orig.elements,
                self.attributes == orig.attributes,
                self.particles == orig.particles,
                self.model_groups == orig.model_groups,
                self.identity_constraints == orig.identity_constraints,
                self.notations == orig.notations,
                self.annotations == orig.annotations,
                self.names == orig.names,
                self.globals == orig.globals,
                self.builtins == orig.builtins,
                self.fixups == orig.fixups,
                self.documents == orig.documents,
                self.version == orig.version,
                groups_track(self.attribute_groups@, groups0, ev),
                cycles_logged(self.diags@, d0, c, groups0, self.names@),
            decreases nt - t,
        {
            let refs = match self.types.at(t) {
                TypeDefinition::Complex(ct) => Some(copy_refs(&ct.attribute_group_refs)),
                TypeDefinition::Simple(_) => None,
            };
            match refs {
                None => {
                    assert(type_merged(types0[t as int], self.types@[t as int], ev));
                },
                Some(refs) => {
                    proof {
                        assert(refs@ == type_group_refs(types0[t as int]));
                        assert forall|j: int| 0 <= j < refs@.len() implies (#[trigger] refs@[j])@ < n by {
                            assert(type_group_refs(types0[t as int])[j] == refs@[j]);
                        }
                    }
                    let mut extra: Vec<AttributeUse> = Vec::new();
                    let mut k: usize = 0;
                    while k < refs.len()
                        invariant
                            k <= refs@.len(),
                            forall|j: int| 0 <= j < refs@.len() ==> (#[trigger] refs@[j])@ < n,
                            expanded_view(expanded@) == ev,
                            ev.len() == n,
                            extra@ == joined_uses(ev, refs@.take(k as int)),
                        decreases refs@.len() - k,
                    {
                        let g = refs[k];
                        let ghost prev = extra@;
                        proof {
                            assert(refs@.take(k + 1).drop_last() =~= refs@.take(k as int));
                            assert(refs@.take(k + 1).last() == g);
                            assert(ev[g@ as int] == match expanded@[g@ as int] {
                                Some(us) => Some(us@),
                                None => None,
                            });
                        }
                        match &expanded[g.index()] {
                            Some(us) => append_uses(&mut extra, us),
                            None => {},
                        }
                        proof {
                            assert(extra@ =~= joined_uses(ev, refs@.take(k + 1)));
                        }
                        k += 1;
                    }
                    proof {
                        assert(refs@.take(k as int) =~= refs@);
                    }
                    match self.types.get_mut(t) {
                        TypeDefinition::Complex(ct) => {
                            add_new_uses(&mut ct.attribute_uses, &extra);
                        },
                        TypeDefinition::Simple(_) => {},
                    }
                    assert(type_merged(types0[t as int], self.types@[t as int], ev));
                },
            }
            t += 1;
        }
        proof {
            let st = expanded_groups(groups0);
            assert(st == (ev, busy@, c));
            assert forall|g: int| 0 <= g < groups0.len() implies group_with_uses(
                #[trigger] groups0[g],
                self.attribute_groups@[g],
                match st.0[g] {
                    Some(us) => us,
                    None => groups0[g].attribute_uses@,
                },
            ) by {
                assert(ev[g] == st.0[g]);
            }
            assert forall|j: int| 0 <= j < types0.len() implies match (#[trigger] types0[j], self.types@[j]) {
                (TypeDefinition::Complex(x), TypeDefinition::Complex(y)) => {
                    &&& complex_but_attributes(x, y)
                    &&& y.attribute_group_refs == x.attribute_group_refs
                    &&& y.attribute_uses@ == add_new(x.attribute_uses@, joined_uses(st.0, x.attribute_group_refs@))
                },
                (TypeDefinition::Simple(x), TypeDefinition::Simple(y)) => x == y,
                _ => false,
            } by {
                assert(type_merged(types0[j], self.types@[j], ev));
            }
        }
    }
}

// ---------------------------------------------------------------------------
// 3. Simple content
// ---------------------------------------------------------------------------

/// The content of the complex type at `i` once simple content is settled,
/// the types before `i` settled first: a `simpleContent` type whose simple
/// type is still open takes its base, when the base is simple, or the
/// base's own settled simple content. A base that is not held leaves it
/// open.
pub open spec fn settled_content(types: Seq<TypeDefinition>, i: nat) -> ContentType
    decreases i,
{
    match types[i as int] {
        TypeDefinition::Complex(c) => match c.content {
            ContentType::Simple(t) => if t@ == u32::MAX && c.base@ < types.len() {
                let b = c.base@;
                match types[b as int] {
                    TypeDefinition::Simple(_) => ContentType::Simple(c.base),
                    TypeDefinition::Complex(bc) => {
                        let cb = if b < i {
                            settled_content(types, b)
                        } else {
                            bc.content
                        };
                        match cb {
                            ContentType::Simple(t2) => if t2@ != u32::MAX {
                                ContentType::Simple(t2)
                            } else {
                                ContentType::Simple(c.base)
                            },
                            _ => ContentType::Simple(c.base),
                        }
                    },
                }
            } else {
                c.content
            },
            other => other,
        },
        TypeDefinition::Simple(_) => ContentType::Empty,
    }
}

/// Whether `u` is `t` (at `i`) with its simple content settled.
pub open spec fn content_settled(t: TypeDefinition, u: TypeDefinition, types: Seq<TypeDefinition>, i: nat) -> bool {
    match (t, u) {
        (TypeDefinition::Complex(a), TypeDefinition::Complex(b)) => b == ComplexType {
            content: settled_content(types, i),
            ..a
        },
        (TypeDefinition::Simple(a), TypeDefinition::Simple(b)) => a == b,
        _ => false,
    }
}

/// What settling simple content does: every complex type's content as
/// [`settled_content`] gives it; nothing else changes.
pub open spec fn content_resolution(a: Loader, b: Loader) -> bool {
    &&& b.type_defs().len() == a.type_defs().len()
    &&& forall|i: int|
        0 <= i < a.type_defs().len() ==> #[trigger] content_settled(
            a.type_defs()[i],
            b.type_defs()[i],
            a.type_defs(),
            i as nat,
        )
    &&& b.element_decls() == a.element_decls()
    &&& b.attribute_decls() == a.attribute_decls()
    &&& b.particle_defs() == a.particle_defs()
    &&& b.group_defs() == a.group_defs()
    &&& b.attribute_group_defs() == a.attribute_group_defs()
    &&& b.constraint_defs() == a.constraint_defs()
    &&& b.notation_defs() == a.notation_defs()
    &&& b.annotation_defs() == a.annotation_defs()
    &&& b.interned() == a.interned()
    &&& b.symbols() == a.symbols()
    &&& b.builtin_ids() == a.builtin_ids()
    &&& b.pending() == a.pending()
    &&& b.reported() == a.reported()
    &&& b.document_list() == a.document_list()
    &&& b.version_read() == a.version_read()
}

impl Loader {
    /// Points each `simpleContent` complex type at the simple type it
    /// validates character data against: its base's.
    fn resolve_simple_content(&mut self)
        requires
            old(self).wf(),
        ensures
            final(self).wf(),
            content_resolution(*old(self), *final(self)),
    {
        let ghost orig = self.types@;
        let n = self.types.len();
        let mut i: usize = 0;
        while i < n
            invariant
                n == orig.len(),
                n == self.types@.len(),
                i <= n,
                forall|j: int| 0 <= j < i ==> #[trigger] content_settled(orig[j], self.types@[j], orig, j as nat),
                forall|j: int| i <= j < n ==> #[trigger] self.types@[j] == orig[j],
                self.wf(),
                self.elements == old(self).elements,
                self.attributes == old(self).attributes,
                self.particles == old(self).particles,
                self.model_groups == old(self).model_groups,
                self.attribute_groups == old(self).attribute_groups,
                self.identity_constraints == old(self).identity_constraints,
                self.notations == old(self).notations,
                self.annotations == old(self).annotations,
                self.names == old(self).names,
                self.globals == old(self).globals,
                self.builtins == old(self).builtins,
                self.fixups == old(self).fixups,
                self.diags == old(self).diags,
                self.documents == old(self).documents,
                self.version == old(self).version,
                orig == old(self).types@,
            decreases n - i,
        {
            let (needs, base) = match self.types.at(i) {
                TypeDefinition::Complex(c) => match c.content {
                    ContentType::Simple(t) => (t.is_placeholder() && c.base.index() < n, c.base),
                    _ => (false, c.base),
                },
                TypeDefinition::Simple(s) => (false, s.base),
            };
            if needs {
                let resolved = match self.types.at(base.index()) {
                    TypeDefinition::Simple(_) => base,
                    TypeDefinition::Complex(bc) => match bc.content {
                        ContentType::Simple(t) => if !t.is_placeholder() {
                            t
                        } else {
                            base
                        },
                        _ => base,
                    },
                };
                proof {
                    let b = base@ as int;
                    if b < i {
                        assert(content_settled(orig[b], self.types@[b], orig, b as nat));
                    }
                }
                match self.types.get_mut(i) {
                    TypeDefinition::Complex(c) => {
                        c.content = ContentType::Simple(resolved);
                    },
                    TypeDefinition::Simple(_) => {},
                }
            }
            proof {
                assert(content_settled(orig[i as int], self.types@[i as int], orig, i as nat));
            }
            i += 1;
        }
    }
}

// ---------------------------------------------------------------------------
// 4. Cycle detection
// ---------------------------------------------------------------------------

/// The step from slot `s` to its base's slot, when there is one: none for a
/// slot that is not held, a type that is its own base, or a placeholder base.
pub open spec fn next_slot(types: Seq<TypeDefinition>, s: nat) -> Option<nat> {
    if s < types.len() {
        let b = base_of(types[s as int]);
        if b@ == s || b@ == u32::MAX {
            None
        } else {
            Some(b@)
        }
    } else {
        None
    }
}

/// The slot `k` base steps above slot `s`, if the chain is that long.
pub open spec fn nth_base(types: Seq<TypeDefinition>, s: nat, k: nat) -> Option<nat>
    decreases k,
{
    if k == 0 {
        if s < types.len() {
            Some(s)
        } else {
            None
        }
    } else {
        match nth_base(types, s, (k - 1) as nat) {
            Some(x) => next_slot(types, x),
            None => None,
        }
    }
}

/// Whether the walk two steps at a time from `s` lands where the walk one
/// step at a time does, after `k` of the slow walk's steps.
pub open spec fn meets_at(types: Seq<TypeDefinition>, s: nat, k: nat) -> bool {
    &&& k >= 1
    &&& nth_base(types, s, 2 * k) is Some
    &&& nth_base(types, s, k) == nth_base(types, s, 2 * k)
}

/// Where the two walks from `s` first meet at or after step `k`, looking no
/// further than as many steps as there are types.
pub open spec fn meeting_from(types: Seq<TypeDefinition>, s: nat, k: nat) -> Option<nat>
    decreases types.len() + 1 - k,
{
    if k == 0 || k > types.len() {
        None
    } else if meets_at(types, s, k) {
        nth_base(types, s, k)
    } else {
        meeting_from(types, s, k + 1)
    }
}

/// The type on a derivation cycle that the chain from slot `s` runs into,
/// found where the two walks first meet.
pub open spec fn first_meeting(types: Seq<TypeDefinition>, s: nat) -> Option<nat> {
    meeting_from(types, s, 1)
}

/// The types reported as derived from themselves, checking the chains from
/// the first `i` slots in order and reporting each meeting point once.
pub open spec fn cycle_reports(types: Seq<TypeDefinition>, i: nat) -> Seq<nat>
    decreases i,
{
    if i == 0 {
        Seq::empty()
    } else {
        let prev = cycle_reports(types, (i - 1) as nat);
        match first_meeting(types, (i - 1) as nat) {
            Some(t) => if prev.contains(t) {
                prev
            } else {
                prev.push(t)
            },
            None => prev,
        }
    }
}

/// A type definition's span.
pub open spec fn type_span(t: TypeDefinition) -> Span {
    match t {
        TypeDefinition::Simple(s) => s.span,
        TypeDefinition::Complex(c) => c.span,
    }
}

/// How a type is named in a diagnostic: its name in Clark notation, or
/// `<anonymous>`.
pub open spec fn shown_type(t: TypeDefinition, st: Seq<Seq<char>>) -> Seq<char> {
    match name_of(t) {
        Some(q) => clark_chars(
            match q.ns {
                Some(n) => Some(st[n@ as int]),
                None => None,
            },
            st[q.local@ as int],
        ),
        None => "<anonymous>"@,
    }
}

/// The diagnostic for a type derived from itself.
pub open spec fn reports_cycle(d: Diagnostic, t: TypeDefinition, st: Seq<Seq<char>>) -> bool {
    &&& d.code == DiagCode::CircularDefinition
    &&& d.severity == Severity::Error
    &&& d.spans@ == seq![type_span(t)]
    &&& d.help is None
    &&& d.message@ == "type `"@ + shown_type(t, st) + "` is derived from itself"@
}

/// Whether every type's name, where it has one, is interned.
pub open spec fn type_names_in_range(types: Seq<TypeDefinition>, st: Seq<Seq<char>>) -> bool {
    forall|i: int|
        0 <= i < types.len() ==> match name_of(#[trigger] types[i]) {
            Some(q) => q.local@ < st.len() && (q.ns matches Some(n) ==> n@ < st.len()),
            None => true,
        }
}

/// What checking for cycles does to `a`: one diagnostic appended for each
/// type of [`cycle_reports`], in order; nothing else changes.
pub open spec fn cycles_reported(a: Loader, b: Loader) -> bool {
    let c = cycle_reports(a.type_defs(), a.type_defs().len());
    let n = a.reported().len();
    &&& b.reported().len() == n + c.len()
    &&& b.reported().take(n as int) == a.reported()
    &&& forall|k: int|
        0 <= k < c.len() ==> reports_cycle(#[trigger] b.reported()[n + k], a.type_defs()[c[k] as int], a.interned())
    &&& b.type_defs() == a.type_defs()
    &&& b.element_decls() == a.element_decls()
    &&& b.attribute_decls() == a.attribute_decls()
    &&& b.particle_defs() == a.particle_defs()
    &&& b.group_defs() == a.group_defs()
    &&& b.attribute_group_defs() == a.attribute_group_defs()
    &&& b.constraint_defs() == a.constraint_defs()
    &&& b.notation_defs() == a.notation_defs()
    &&& b.annotation_defs() == a.annotation_defs()
    &&& b.interned() == a.interned()
    &&& b.symbols() == a.symbols()
    &&& b.builtin_ids() == a.builtin_ids()
    &&& b.pending() == a.pending()
    &&& b.document_list() == a.document_list()
    &&& b.version_read() == a.version_read()
}

/// Once a chain has ended it stays ended.
proof fn lemma_chain_ended(types: Seq<TypeDefinition>, s: nat, j: nat, k: nat)
    requires
        j <= k,
        nth_base(types, s, j) is None,
    ensures
        nth_base(types, s, k) is None,
    decreases k - j,
{
    if j < k {
        lemma_chain_ended(types, s, j, (k - 1) as nat);
    }
}

/// A step out of the held slots is the chain's last.
proof fn lemma_chain_leaves(types: Seq<TypeDefinition>, s: nat, j: nat)
    requires
        nth_base(types, s, j) matches Some(x) && x >= types.len(),
    ensures
        nth_base(types, s, j + 1) is None,
{
}

/// A meeting point is a held slot.
proof fn lemma_meeting_held(types: Seq<TypeDefinition>, s: nat, k: nat)
    requires
        meets_at(types, s, k),
    ensures
        nth_base(types, s, k) matches Some(x) && x < types.len(),
{
    let x = nth_base(types, s, k)->0;
    if x >= types.len() {
        lemma_chain_leaves(types, s, k);
        lemma_chain_ended(types, s, k + 1, 2 * k);
    }
}

/// Where the chain has ended by the fast walk's `2 * k`-th step, no later
/// meeting is found.
proof fn lemma_no_meeting_after(types: Seq<TypeDefinition>, s: nat, k: nat)
    requires
        k >= 1,
        nth_base(types, s, 2 * k) is None,
    ensures
        meeting_from(types, s, k) is None,
    decreases types.len() + 1 - k,
{
    if k <= types.len() {
        lemma_chain_ended(types, s, 2 * k, 2 * (k + 1));
        lemma_no_meeting_after(types, s, k + 1);
    }
}

/// Whether the derivation chain from slot `s` comes back to a type it has
/// already passed.
pub open spec fn chain_loops(types: Seq<TypeDefinition>, s: nat) -> bool {
    exists|a: nat, b: nat|
        a < b && (#[trigger] nth_base(types, s, a)) is Some && nth_base(types, s, a) == #[trigger] nth_base(
            types,
            s,
            b,
        )
}

/// Each step depends on the type reached alone.
proof fn lemma_step_follows(types: Seq<TypeDefinition>, s: nat, j: nat, q: nat)
    requires
        nth_base(types, s, j) == nth_base(types, s, q),
    ensures
        nth_base(types, s, j + 1) == nth_base(types, s, q + 1),
{
}

/// Once the chain is back where it was `p` steps before, it repeats with
/// period `p`.
proof fn lemma_periodic(types: Seq<TypeDefinition>, s: nat, a: nat, p: nat, j: nat)
    requires
        nth_base(types, s, a) == nth_base(types, s, a + p),
        a <= j,
    ensures
        nth_base(types, s, j + p) == nth_base(types, s, j),
    decreases j - a,
{
    if j > a {
        lemma_periodic(types, s, a, p, (j - 1) as nat);
        lemma_step_follows(types, s, (j - 1) as nat, (j - 1 + p) as nat);
    }
}

/// Going round the period `m` times comes back to the same type.
proof fn lemma_periodic_times(types: Seq<TypeDefinition>, s: nat, a: nat, p: nat, j: nat, m: nat)
    requires
        nth_base(types, s, a) == nth_base(types, s, a + p),
        a <= j,
    ensures
        nth_base(types, s, j + m * p) == nth_base(types, s, j),
    decreases m,
{
    if m > 0 {
        lemma_periodic_times(types, s, a, p, j, (m - 1) as nat);
        assert(j + m * p == (j + (m - 1) * p) + p) by (nonlinear_arith);
        lemma_periodic(types, s, a, p, (j + (m - 1) * p) as nat);
    } else {
        assert(m * p == 0) by (nonlinear_arith)
            requires
                m == 0,
        ;
    }
}

/// A positive multiple of `p` at least `a` and at most `a + p`.
proof fn lemma_multiple_above(a: nat, p: nat) -> (m: nat)
    requires
        p >= 1,
    ensures
        m >= 1,
        a <= m * p <= a + p,
    decreases a,
{
    if a <= p {
        assert(1 * p == p);
        1
    } else {
        let m1 = lemma_multiple_above((a - p) as nat, p);
        assert((m1 + 1) * p == m1 * p + p) by (nonlinear_arith);
        m1 + 1
    }
}

/// A chain that loops never ends.
proof fn lemma_loop_continues(types: Seq<TypeDefinition>, s: nat, a: nat, p: nat, j: nat)
    requires
        p >= 1,
        nth_base(types, s, a) is Some,
        nth_base(types, s, a) == nth_base(types, s, a + p),
    ensures
        nth_base(types, s, j) is Some,
    decreases j,
{
    if j <= a + p {
        if nth_base(types, s, j) is None {
            lemma_chain_ended(types, s, j, a + p);
        }
    } else {
        lemma_periodic(types, s, a, p, (j - p) as nat);
        lemma_loop_continues(types, s, a, p, (j - p) as nat);
    }
}

/// Among the first `len + 1` types of an endless chain, two are the same.
proof fn lemma_pigeonhole(types: Seq<TypeDefinition>, s: nat) -> (r: (nat, nat))
    requires
        forall|j: nat| (#[trigger] nth_base(types, s, j)) is Some,
    ensures
        r.0 < r.1 <= types.len(),
        nth_base(types, s, r.0) == nth_base(types, s, r.1),
{
    let n = types.len() as int;
    let f = |j: int| nth_base(types, s, j as nat)->0 as int;
    let dom = set_int_range(0, n + 1);
    let img = set_int_range(0, n);
    lemma_int_range(0, n + 1);
    lemma_int_range(0, n);
    assert forall|j: int| dom.contains(j) implies img.contains(f(j)) by {
        let x = nth_base(types, s, j as nat)->0;
        if x >= types.len() {
            lemma_chain_leaves(types, s, j as nat);
            assert(nth_base(types, s, (j + 1) as nat) is Some);
        }
    }
    if injective_on(f, dom) {
        lemma_map_size(dom, dom.map(f), f);
        assert(dom.map(f).subset_of(img));
        lemma_len_subset(dom.map(f), img);
        assert(false);
    }
    let (x, y) = choose|x: int, y: int| dom.contains(x) && dom.contains(y) && #[trigger] f(x) == #[trigger] f(y) && x != y;
    let (a, b) = if x < y { (x as nat, y as nat) } else { (y as nat, x as nat) };
    assert(nth_base(types, s, a) == nth_base(types, s, b));
    (a, b)
}

/// A meeting at step `k` is found by a search starting at or before it.
proof fn lemma_meeting_found(types: Seq<TypeDefinition>, s: nat, j: nat, k: nat)
    requires
        1 <= j <= k <= types.len(),
        meets_at(types, s, k),
    ensures
        meeting_from(types, s, j) is Some,
    decreases k - j,
{
    if j < k && !meets_at(types, s, j) {
        lemma_meeting_found(types, s, j + 1, k);
    }
}

/// What a search finds is a meeting.
proof fn lemma_found_meets(types: Seq<TypeDefinition>, s: nat, j: nat) -> (k: nat)
    requires
        meeting_from(types, s, j) is Some,
    ensures
        meets_at(types, s, k),
    decreases types.len() + 1 - j,
{
    if meets_at(types, s, j) {
        j
    } else {
        lemma_found_meets(types, s, j + 1)
    }
}

/// A type is found on a cycle exactly when its derivation chain comes back
/// to a type it has passed: walking as many steps as there are types misses
/// no cycle.
pub proof fn law_meeting_iff_loop(types: Seq<TypeDefinition>, s: nat)
    ensures
        first_meeting(types, s) is Some <==> chain_loops(types, s),
{
    if first_meeting(types, s) is Some {
        let k = lemma_found_meets(types, s, 1);
        assert(k < 2 * k);
        assert(nth_base(types, s, k) is Some);
        assert(chain_loops(types, s));
    }
    if chain_loops(types, s) {
        let (a0, b0) = choose|a: nat, b: nat|
            a < b && (#[trigger] nth_base(types, s, a)) is Some && nth_base(types, s, a) == #[trigger] nth_base(
                types,
                s,
                b,
            );
        let p0 = (b0 - a0) as nat;
        assert forall|j: nat| (#[trigger] nth_base(types, s, j)) is Some by {
            lemma_loop_continues(types, s, a0, p0, j);
        }
        let (a, b) = lemma_pigeonhole(types, s);
        let p = (b - a) as nat;
        let m = lemma_multiple_above(a, p);
        let k = m * p;
        assert(k >= 1) by (nonlinear_arith)
            requires
                k == m * p,
                m >= 1,
                p >= 1,
        ;
        lemma_periodic_times(types, s, a, p, k, m);
        assert(nth_base(types, s, 2 * k) is Some);
        assert(nth_base(types, s, 2 * k) == nth_base(types, s, k));
        assert(meets_at(types, s, k));
        lemma_meeting_found(types, s, 1, k);
    }
}

/// Reports are only ever added to.
proof fn lemma_reports_grow(types: Seq<TypeDefinition>, i: nat, j: nat, x: nat)
    requires
        i <= j,
        cycle_reports(types, i).contains(x),
    ensures
        cycle_reports(types, j).contains(x),
    decreases j - i,
{
    if i < j {
        lemma_reports_grow(types, i, (j - 1) as nat, x);
        let prev = cycle_reports(types, (j - 1) as nat);
        let idx = choose|q: int| 0 <= q < prev.len() && prev[q] == x;
        match first_meeting(types, (j - 1) as nat) {
            Some(t) => if !prev.contains(t) {
                assert(prev.push(t)[idx] == x);
            },
            None => {},
        }
    }
}

/// Every type whose derivation chain loops has the type where its chain
/// closes among the reported ones.
pub proof fn law_every_cycle_reported(types: Seq<TypeDefinition>, s: nat)
    requires
        s < types.len(),
        chain_loops(types, s),
    ensures
        first_meeting(types, s) is Some,
        cycle_reports(types, types.len()).contains(first_meeting(types, s)->0),
{
    law_meeting_iff_loop(types, s);
    let t = first_meeting(types, s)->0;
    let prev = cycle_reports(types, s);
    if !prev.contains(t) {
        assert(prev.push(t)[prev.len() as int] == t);
    }
    assert(cycle_reports(types, s + 1).contains(t));
    lemma_reports_grow(types, s + 1, types.len(), t);
}

impl Loader {
    /// The step from `id` to its base, as [`next_slot`] gives it.
    fn next_base(&self, id: TypeId) -> (r: Option<TypeId>)
        requires
            self.wf(),
        ensures
            match r {
                Some(b) => next_slot(self.types@, id@) == Some(b@),
                None => next_slot(self.types@, id@) is None,
            },
    {
        if id.is_placeholder() || id.index() >= self.types.len() {
            return None;
        }
        let base = self.types.at(id.index()).base();
        if base.index() == id.index() || base.is_placeholder() {
            None
        } else {
            Some(base)
        }
    }

    /// Walks the derivation chain from `start` one step and two steps at a
    /// time, and gives the type where the walks meet, if they do before the
    /// chain ends.
    fn meeting_point(&self, start: TypeId) -> (r: Option<TypeId>)
        requires
            self.wf(),
            start@ < self.types@.len(),
        ensures
            match r {
                Some(t) => first_meeting(self.types@, start@) == Some(t@) && t@ < self.types@.len(),
                None => first_meeting(self.types@, start@) is None,
            },
    {
        let ghost types = self.types@;
        let ghost s = start@;
        let n = self.types.len();
        let mut slow = start;
        let mut fast = start;
        let mut k: usize = 0;
        assert(nth_base(types, s, 0) == Some(s));
        loop
            invariant
                types == self.types@,
                self.wf(),
                n == types.len(),
                s == start@,
                s < n,
                k <= n,
                nth_base(types, s, k as nat) == Some(slow@),
                nth_base(types, s, 2 * k as nat) == Some(fast@),
                first_meeting(types, s) == meeting_from(types, s, (k + 1) as nat),
            decreases n - k,
        {
            if k >= n {
                return None;
            }
            let f1 = match self.next_base(fast) {
                Some(f) => f,
                None => {
                    proof {
                        assert(nth_base(types, s, (2 * k + 1) as nat) is None);
                        lemma_chain_ended(types, s, (2 * k + 1) as nat, (2 * (k + 1)) as nat);
                        lemma_no_meeting_after(types, s, (k + 1) as nat);
                    }
                    return None;
                },
            };
            assert(nth_base(types, s, (2 * k + 1) as nat) == Some(f1@));
            let f2 = match self.next_base(f1) {
                Some(f) => f,
                None => {
                    proof {
                        assert(nth_base(types, s, (2 * k + 2) as nat) is None);
                        lemma_no_meeting_after(types, s, (k + 1) as nat);
                    }
                    return None;
                },
            };
            assert(nth_base(types, s, (2 * k + 2) as nat) == Some(f2@));
            let s1 = match self.next_base(slow) {
                Some(x) => x,
                None => {
                    proof {
                        assert(nth_base(types, s, (k + 1) as nat) is None);
                        lemma_chain_ended(types, s, (k + 1) as nat, (2 * k + 2) as nat);
                    }
                    return None;
                },
            };
            assert(nth_base(types, s, (k + 1) as nat) == Some(s1@));
            fast = f2;
            slow = s1;
            k += 1;
            assert(2 * k as nat == (2 * (k - 1) + 2) as nat);
            if slow.index() == fast.index() {
                proof {
                    assert(meets_at(types, s, k as nat));
                    lemma_meeting_held(types, s, k as nat);
                }
                return Some(slow);
            }
            assert(!meets_at(types, s, k as nat));
        }
    }

    /// Reports each type that its own derivation chain runs back into, once,
    /// at the type where the chain first closes on itself.
    fn check_cycles(&mut self)
        requires
            old(self).wf(),
            type_names_in_range(old(self).type_defs(), old(self).interned()),
        ensures
            final(self).wf(),
            final(self).agrees_but(*old(self), LoaderPart::Diags),
            cycles_reported(*old(self), *final(self)),
    {
        let ghost start = *self;
        let ghost types = self.types@;
        let ghost n0 = self.diags@.len();
        let n = self.types.len();
        let mut reported: Vec<TypeId> = Vec::new();
        let mut i: usize = 0;
        while i < n
            invariant
                n == types.len(),
                types == self.types@,
                i <= n,
                self.wf(),
                self.agrees_but(start, LoaderPart::Diags),
                start.wf(),
                type_names_in_range(types, self.names@),
                reported@.map_values(|t: TypeId| t@) == cycle_reports(types, i as nat),
                forall|k: int| 0 <= k < reported@.len() ==> (#[trigger] reported@[k])@ < n,
                self.diags@.len() == n0 + reported@.len(),
                self.diags@.take(n0 as int) == start.diags@,
                forall|k: int|
                    0 <= k < reported@.len() ==> reports_cycle(
                        #[trigger] self.diags@[n0 + k],
                        types[reported@[k]@ as int],
                        self.names@,
                    ),
            decreases n - i,
        {
            let id = TypeId::from_index(i);
            let met = self.meeting_point(id);
            let ghost before = reported@.map_values(|t: TypeId| t@);
            match met {
                Some(t) => {
                    let mut seen = false;
                    let mut j: usize = 0;
                    while j < reported.len()
                        invariant
                            j <= reported@.len(),
                            seen == exists|m: int| 0 <= m < j && (#[trigger] reported@[m])@ == t@,
                        decreases reported@.len() - j,
                    {
                        if reported[j].index() == t.index() {
                            seen = true;
                        }
                        j += 1;
                    }
                    proof {
                        if seen {
                            let m = choose|m: int| 0 <= m < reported@.len() && (#[trigger] reported@[m])@ == t@;
                            assert(before[m] == t@);
                        } else {
                            assert forall|m: int| 0 <= m < before.len() implies before[m] != t@ by {
                                assert(reported@[m]@ == before[m]);
                            }
                        }
                        assert(before.contains(t@) == seen);
                    }
                    if !seen {
                        let def = self.types.at(t.index());
                        let mut msg: Vec<char> = Vec::new();
                        push_str(&mut msg, "type `");
                        match def.name() {
                            Some(q) => {
                                let shown = self.names.display(q);
                                push_str(&mut msg, shown.as_str());
                            },
                            None => push_str(&mut msg, "<anonymous>"),
                        }
                        push_str(&mut msg, "` is derived from itself");
                        let text = string_from_chars(&msg);
                        let d = Diagnostic::error(DiagCode::CircularDefinition, text.as_str()).at(
                            def.span().duplicate(),
                        );
                        let ghost diags_before = self.diags@;
                        self.diags.push(d);
                        reported.push(t);
                        proof {
                            assert(msg@ =~= "type `"@ + shown_type(types[t@ as int], self.names@)
                                + "` is derived from itself"@);
                            assert(d.spans@ =~= seq![type_span(types[t@ as int])]);
                            assert(self.diags@.take(n0 as int) =~= diags_before.take(n0 as int));
                            assert(reported@.map_values(|t: TypeId| t@) =~= before.push(t@));
                            assert forall|k: int| 0 <= k < reported@.len() implies reports_cycle(
                                #[trigger] self.diags@[n0 + k],
                                types[reported@[k]@ as int],
                                self.names@,
                            ) by {
                                if k < reported@.len() - 1 {
                                    assert(self.diags@[n0 + k] == diags_before[n0 + k]);
                                }
                            }
                        }
                    }
                },
                None => {},
            }
            i += 1;
        }
        proof {
            assert(reported@.map_values(|t: TypeId| t@).len() == reported@.len());
        }
    }
}

/// Whether `s` and `d` are what the loader `l` compiles to: its arenas,
/// names and tables as they stand, the substitution groups closed over its
/// elements, and its diagnostics.
pub open spec fn assembled(l: Loader, s: Schemas, d: Diagnostics) -> bool {
    &&& s.type_defs() == l.type_defs()
    &&& s.element_decls() == l.element_decls()
    &&& s.attribute_decls() == l.attribute_decls()
    &&& s.particle_defs() == l.particle_defs()
    &&& s.group_defs() == l.group_defs()
    &&& s.attribute_group_defs() == l.attribute_group_defs()
    &&& s.constraint_defs() == l.constraint_defs()
    &&& s.notation_defs() == l.notation_defs()
    &&& s.annotation_defs() == l.annotation_defs()
    &&& s.interned() == l.interned()
    &&& s.symbols() == l.symbols()
    &&& s.builtin_ids() == l.builtin_ids()
    &&& s.document_list() == l.document_list()
    &&& s.version_read() == l.version_read()
    &&& forall|x: ElementId|
        x@ < s.element_decls().len() ==> element_slots(#[trigger] s.closure_of(x)) == substitutes_below(
            s.element_decls(),
            x@ as int,
            s.element_decls().len(),
        )
}


/// A schema set with the same components as one assembled from a loader is
/// assembled from it too.
proof fn lemma_assembled_alike(l: Loader, a: Schemas, b: Schemas, d: Diagnostics)
    requires
        assembled(l, a, d),
        same_components(a, b),
    ensures
        assembled(l, b, d),
{
    assert forall|x: ElementId| x@ < b.element_decls().len() implies element_slots(#[trigger] b.closure_of(x))
        == substitutes_below(b.element_decls(), x@ as int, b.element_decls().len()) by {
        assert(a.closure_of(x) == b.closure_of(x));
    }
}

/// After references are settled and what never resolved is dropped, every
/// group reference names a group held here, and every group's name is
/// interned.
proof fn lemma_merge_ready(loader: Loader, resolved: Loader, pruned_: Loader, mode: Conformance)
    requires
        loader.wf(),
        refs_in_range(loader),
        resolution(loader, resolved, mode),
        pruned(resolved, pruned_),
    ensures
        group_refs_held(pruned_.type_defs(), pruned_.attribute_group_defs()),
        group_names_in_range(pruned_.attribute_group_defs(), pruned_.interned()),
{
    let n = loader.attribute_group_defs().len();
    let fs = loader.pending();
    let g = loader.symbols();
    assert forall|i: int, k: int|
        0 <= i < pruned_.attribute_group_defs().len() && 0 <= k < (
        #[trigger] pruned_.attribute_group_defs()[i]).attribute_group_refs@.len() implies (
    #[trigger] pruned_.attribute_group_defs()[i].attribute_group_refs@[k])@ < pruned_.attribute_group_defs().len() by {
        let gid = attr_group_id_at(i as nat);
        assert(group_resolved(
            loader.attribute_group_defs()[gid@ as int],
            resolved.attribute_group_defs()[gid@ as int],
            gid,
            fs,
            g,
        ));
        let x = loader.attribute_group_defs()[i];
        assert(refs_open_or_below(x.attribute_group_refs@, n));
        lemma_group_refs_after_held(fs, AttrOwner::AttributeGroup(gid), x.attribute_group_refs@, g, n);
        let y = resolved.attribute_group_defs()[i];
        lemma_pruned_refs_held(y.attribute_group_refs@, n);
        assert(pruned_.attribute_group_defs()[i].attribute_group_refs@ == refs_kept(y.attribute_group_refs@));
        assert(refs_kept(y.attribute_group_refs@)[k]@ < n);
    }
    assert forall|i: int, k: int|
        0 <= i < pruned_.type_defs().len() && 0 <= k < type_group_refs(#[trigger] pruned_.type_defs()[i]).len() implies (
    #[trigger] type_group_refs(pruned_.type_defs()[i])[k])@ < pruned_.attribute_group_defs().len() by {
        let tid = type_id_at(i as nat);
        assert(type_resolved(
            loader.type_defs()[tid@ as int],
            resolved.type_defs()[tid@ as int],
            tid,
            fs,
            g,
            loader.type_defs(),
        ));
        let x = loader.type_defs()[i];
        assert(refs_open_or_below(type_group_refs(x), n));
        assert(resolved.type_defs()[i] == resolved.type_defs()[tid@ as int]);
        match (x, resolved.type_defs()[i]) {
            (TypeDefinition::Complex(a), TypeDefinition::Complex(b)) => {
                lemma_group_refs_after_held(fs, AttrOwner::ComplexType(tid), a.attribute_group_refs@, g, n);
                lemma_pruned_refs_held(b.attribute_group_refs@, n);
                match pruned_.type_defs()[i] {
                    TypeDefinition::Complex(c) => {
                        assert(c.attribute_group_refs@ == refs_kept(b.attribute_group_refs@));
                        assert(refs_kept(b.attribute_group_refs@)[k]@ < n);
                    },
                    TypeDefinition::Simple(_) => {},
                }
            },
            _ => {},
        }
    }
    assert forall|i: int| 0 <= i < pruned_.attribute_group_defs().len() implies {
        &&& (#[trigger] pruned_.attribute_group_defs()[i]).name.local@ < pruned_.interned().len()
        &&& pruned_.attribute_group_defs()[i].name.ns matches Some(m) ==> m@ < pruned_.interned().len()
    } by {
        let gid = attr_group_id_at(i as nat);
        assert(group_resolved(
            loader.attribute_group_defs()[gid@ as int],
            resolved.attribute_group_defs()[gid@ as int],
            gid,
            fs,
            g,
        ));
        assert(loader.attribute_group_defs()[i].name == pruned_.attribute_group_defs()[i].name);
    }
}

/// Turns loaded components into a resolved [`Schemas`], with every
/// diagnostic the loader and the compiler found.
///
/// Runs as ordered steps, each finished before the next begins: references
/// are resolved and what never resolved is dropped, attribute groups are
/// flattened, simple content is settled, derivation cycles are reported, and
/// substitution groups are closed; then the content model of every complex
/// type is compiled.
pub fn compile(loader: Loader, mode: Conformance) -> (r: (Schemas, Diagnostics))
    requires
        loader.wf(),
        refs_in_range(loader),
    ensures
        exists|resolved: Loader, pruned_: Loader, merged: Loader, settled: Loader, checked: Loader|
            {
                &&& resolution(loader, resolved, mode)
                &&& pruned(resolved, pruned_)
                &&& groups_merged(pruned_, merged)
                &&& content_resolution(merged, settled)
                &&& cycles_reported(settled, checked)
                &&& assembled(checked, r.0, r.1)
                &&& crate::upa::upa_reported(r.0, mode, checked.reported(), r.1@)
            },
        exists|base: Schemas| #[trigger] same_components(base, r.0) && contents_compiled(base, r.0.contents()),
{
    let mut l = loader;
    l.resolve_references(mode);
    let ghost resolved = l;
    l.prune_placeholders();
    let ghost pruned_ = l;
    proof {
        assert forall|i: int| 0 <= i < l.types@.len() implies match name_of(#[trigger] l.types@[i]) {
            Some(q) => q.local@ < l.names@.len() && (q.ns matches Some(n) ==> n@ < l.names@.len()),
            None => true,
        } by {
            let tid = type_id_at(i as nat);
            assert(type_resolved(
                loader.type_defs()[tid@ as int],
                resolved.type_defs()[tid@ as int],
                tid,
                loader.pending(),
                loader.symbols(),
                loader.type_defs(),
            ));
            assert(name_of(loader.types@[i]) == name_of(resolved.types@[i]));
            assert(name_of(resolved.types@[i]) == name_of(l.types@[i]));
        }
    }
    proof {
        lemma_merge_ready(loader, resolved, pruned_, mode);
    }
    l.merge_attribute_groups();
    let ghost merged = l;
    proof {
        assert forall|i: int| 0 <= i < l.types@.len() implies match name_of(#[trigger] l.types@[i]) {
            Some(q) => q.local@ < l.names@.len() && (q.ns matches Some(n) ==> n@ < l.names@.len()),
            None => true,
        } by {
            assert(name_of(pruned_.types@[i]) == name_of(l.types@[i]));
        }
    }
    l.resolve_simple_content();
    let ghost settled = l;
    proof {
        assert forall|i: int| 0 <= i < l.types@.len() implies match name_of(#[trigger] l.types@[i]) {
            Some(q) => q.local@ < l.names@.len() && (q.ns matches Some(n) ==> n@ < l.names@.len()),
            None => true,
        } by {
            assert(content_settled(merged.types@[i], l.types@[i], merged.types@, i as nat));
            assert(name_of(merged.types@[i]) == name_of(l.types@[i]));
        }
    }
    l.check_cycles();
    let ghost checked = l;
    proof {
        assert(l.builtins@[0]@ < l.types@.len());
        assert forall|e: int| 0 <= e < l.elements@.len() implies (#[trigger] l.elements@[e]).type_id@
            < l.types@.len() by {
            let x = resolved.elements@[e];
            assert(l.elements@[e].type_id@ == if x.type_id@ < resolved.types@.len() {
                x.type_id@
            } else {
                0
            });
        }
    }
    let closure = build_substitution_closure(&l.elements);
    let Loader {
        types,
        elements,
        attributes,
        particles,
        model_groups,
        attribute_groups,
        identity_constraints,
        notations,
        annotations,
        names,
        globals,
        builtins,
        fixups: _,
        diags,
        documents,
        version,
    } = l;
    let assembled_set = Schemas::assemble(
        types,
        elements,
        attributes,
        particles,
        model_groups,
        attribute_groups,
        identity_constraints,
        notations,
        annotations,
        names,
        globals,
        builtins,
        closure,
        documents,
        version,
    );
    assert(assembled(checked, assembled_set, diags));
    assert(diags@ == checked.reported());
    let ghost base = assembled_set;
    let ghost reported = diags;
    let out = compile_contents(assembled_set, diags, mode);
    proof {
        lemma_assembled_alike(checked, base, out.0, reported);
    }
    out
}


/// Whether `q`'s parts are among the first `n` interned strings.
fn name_below(q: QName, n: usize) -> (r: bool)
    ensures
        r == (q.local@ < n && (q.ns matches Some(x) ==> x@ < n)),
{
    q.local.index() < n && match q.ns {
        Some(x) => x.symbol().index() < n,
        None => true,
    }
}

/// The name a fixup resolves.
fn fixup_qname(f: &Fixup) -> (r: QName)
    ensures
        r == fixup_name(*f),
{
    match f {
        Fixup::ElementType { name, .. } => *name,
        Fixup::ElementSubstGroup { name, .. } => *name,
        Fixup::AttributeType { name, .. } => *name,
        Fixup::SimpleBase { name, .. } => *name,
        Fixup::SimpleItem { name, .. } => *name,
        Fixup::SimpleMember { name, .. } => *name,
        Fixup::ComplexBase { name, .. } => *name,
        Fixup::ParticleElementRef { name, .. } => *name,
        Fixup::ParticleGroupRef { name, .. } => *name,
        Fixup::AttrUseRef { name, .. } => *name,
        Fixup::AttrGroupRef { name, .. } => *name,
        Fixup::KeyRefRefer { name, .. } => *name,
        Fixup::ElementIdcRef { name, .. } => *name,
    }
}

/// Whether every id of `refs` is a placeholder or below `n`.
fn group_refs_ok(refs: &Vec<AttrGroupId>, n: usize) -> (r: bool)
    ensures
        r == refs_open_or_below(refs@, n as nat),
{
    let mut k: usize = 0;
    while k < refs.len()
        invariant
            k <= refs@.len(),
            forall|j: int| 0 <= j < k ==> (#[trigger] refs@[j])@ == u32::MAX || refs@[j]@ < n,
        decreases refs.len() - k,
    {
        if !(refs[k].is_placeholder() || refs[k].index() < n) {
            assert(!((refs@[k as int])@ == u32::MAX || refs@[k as int]@ < n));
            return false;
        }
        k += 1;
    }
    true
}

impl Loader {
    /// Checks what compiling relies on reading to have left in place: every
    /// type and attribute group name interned, every global type and
    /// attribute group entry naming a component held here, every group
    /// reference open or held, and every fixup naming a slot held here and
    /// an interned name.
    pub fn refs_ok(&self) -> (r: bool)
        ensures
            r == refs_in_range(*self),
    {
        let n = self.names.len();
        let nt = self.types.len();
        let ng = self.attribute_groups.len();
        let mut i: usize = 0;
        while i < nt
            invariant
                i <= nt,
                nt == self.type_defs().len(),
                ng == self.attribute_group_defs().len(),
                n == self.interned().len(),
                forall|j: int|
                    0 <= j < i ==> match name_of(#[trigger] self.type_defs()[j]) {
                        Some(q) => q.local@ < n && (q.ns matches Some(x) ==> x@ < n),
                        None => true,
                    },
                forall|j: int| 0 <= j < i ==> refs_open_or_below(type_group_refs(#[trigger] self.type_defs()[j]), ng as nat),
            decreases nt - i,
        {
            let t = self.types.at(i);
            let ok = match t.name() {
                Some(q) => name_below(q, n),
                None => true,
            } && match t {
                TypeDefinition::Complex(c) => group_refs_ok(&c.attribute_group_refs, ng),
                TypeDefinition::Simple(_) => true,
            };
            if !ok {
                assert(!type_names_in_range(self.type_defs(), self.interned()) || !group_refs_open_or_held(
                    self.type_defs(),
                    self.attribute_group_defs(),
                )) by {
                    assert(self.type_defs()[i as int] == *t);
                }
                return false;
            }
            i += 1;
        }
        let mut g: usize = 0;
        while g < ng
            invariant
                g <= ng,
                ng == self.attribute_group_defs().len(),
                n == self.interned().len(),
                forall|j: int|
                    0 <= j < g ==> {
                        &&& (#[trigger] self.attribute_group_defs()[j]).name.local@ < n
                        &&& self.attribute_group_defs()[j].name.ns matches Some(x) ==> x@ < n
                    },
                forall|j: int|
                    0 <= j < g ==> refs_open_or_below((#[trigger] self.attribute_group_defs()[j]).attribute_group_refs@, ng as nat),
            decreases ng - g,
        {
            let d = self.attribute_groups.at(g);
            if !(name_below(d.name, n) && group_refs_ok(&d.attribute_group_refs, ng)) {
                assert(self.attribute_group_defs()[g as int] == *d);
                return false;
            }
            g += 1;
        }
        let ag = self.globals.attribute_groups.entries();
        let mut k: usize = 0;
        while k < ag.len()
            invariant
                k <= ag@.len(),
                ag@ == self.symbols().attribute_groups@,
                ng == self.attribute_group_defs().len(),
                forall|j: int| 0 <= j < k ==> (#[trigger] ag@[j]).1@ < ng,
            decreases ag.len() - k,
        {
            if ag[k].1.index() >= ng {
                assert(!(ag@[k as int].1@ < ng));
                return false;
            }
            k += 1;
        }
        let ty = self.globals.types.entries();
        let mut k: usize = 0;
        while k < ty.len()
            invariant
                k <= ty@.len(),
                ty@ == self.symbols().types@,
                nt == self.type_defs().len(),
                forall|j: int| 0 <= j < k ==> (#[trigger] ty@[j]).1@ < nt,
            decreases ty.len() - k,
        {
            if ty[k].1.index() >= nt {
                assert(!(ty@[k as int].1@ < nt));
                return false;
            }
            k += 1;
        }
        let ne = self.elements.len();
        let na = self.attributes.len();
        let np = self.particles.len();
        let nc = self.identity_constraints.len();
        let mut k: usize = 0;
        while k < self.fixups.len()
            invariant
                k <= self.pending().len(),
                self.fixups@ == self.pending(),
                n == self.interned().len(),
                ne == self.element_decls().len(),
                na == self.attribute_decls().len(),
                nt == self.type_defs().len(),
                np == self.particle_defs().len(),
                ng == self.attribute_group_defs().len(),
                nc == self.constraint_defs().len(),
                forall|j: int| 0 <= j < k ==> #[trigger] fixup_in_range(*self, self.pending()[j]),
            decreases self.fixups.len() - k,
        {
            let f = &self.fixups[k];
            let slot = match f {
                Fixup::ElementType { element, .. } => element.index() < ne,
                Fixup::ElementSubstGroup { element, .. } => element.index() < ne,
                Fixup::ElementIdcRef { element, .. } => element.index() < ne,
                Fixup::AttributeType { attribute, .. } => attribute.index() < na,
                Fixup::SimpleBase { type_, .. } => type_.index() < nt,
                Fixup::SimpleItem { type_, .. } => type_.index() < nt,
                Fixup::SimpleMember { type_, .. } => type_.index() < nt,
                Fixup::ComplexBase { type_, .. } => type_.index() < nt,
                Fixup::ParticleElementRef { particle, .. } => particle.index() < np,
                Fixup::ParticleGroupRef { particle, .. } => particle.index() < np,
                Fixup::AttrUseRef { owner, .. } => match owner {
                    AttrOwner::ComplexType(t) => t.index() < nt,
                    AttrOwner::AttributeGroup(g) => g.index() < ng,
                },
                Fixup::AttrGroupRef { owner, .. } => match owner {
                    AttrOwner::ComplexType(t) => t.index() < nt,
                    AttrOwner::AttributeGroup(g) => g.index() < ng,
                },
                Fixup::KeyRefRefer { idc, .. } => idc.index() < nc,
            };
            if !(slot && name_below(fixup_qname(f), n)) {
                assert(!fixup_in_range(*self, self.pending()[k as int]));
                return false;
            }
            k += 1;
        }
        true
    }
}

// ---------------------------------------------------------------------------
// 1. Reference resolution
// ---------------------------------------------------------------------------

/// Whether every slot a fixup names, and every declared type, is a component
/// the loader holds, and every fixup's name is interned: what reading a
/// document guarantees, and what settling the fixups relies on.
pub open spec fn refs_in_range(l: Loader) -> bool {
    &&& type_names_in_range(l.type_defs(), l.interned())
    &&& group_names_in_range(l.attribute_group_defs(), l.interned())
    &&& forall|i: int|
        0 <= i < l.symbols().attribute_groups@.len() ==> (#[trigger] l.symbols().attribute_groups@[i]).1@
            < l.attribute_group_defs().len()
    &&& group_refs_open_or_held(l.type_defs(), l.attribute_group_defs())
    &&& forall|i: int|
        0 <= i < l.symbols().types@.len() ==> (#[trigger] l.symbols().types@[i]).1@ < l.type_defs().len()
    &&& forall|i: int| 0 <= i < l.pending().len() ==> #[trigger] fixup_in_range(l, l.pending()[i])
}

/// Whether every group reference, in a group or a complex type, is still
/// open or names a group held here.
pub open spec fn group_refs_open_or_held(types: Seq<TypeDefinition>, groups: Seq<AttributeGroupDef>) -> bool {
    &&& forall|g: int|
        0 <= g < groups.len() ==> refs_open_or_below((#[trigger] groups[g]).attribute_group_refs@, groups.len())
    &&& forall|i: int| 0 <= i < types.len() ==> refs_open_or_below(type_group_refs(#[trigger] types[i]), groups.len())
}

/// Whether each of `refs` is a placeholder or below `n`.
pub open spec fn refs_open_or_below(refs: Seq<AttrGroupId>, n: nat) -> bool {
    forall|k: int| 0 <= k < refs.len() ==> (#[trigger] refs[k])@ == u32::MAX || refs[k]@ < n
}

/// Settling group references keeps each one open or below `n`, when every
/// group the table declares is below `n`.
proof fn lemma_group_refs_after_held(fs: Seq<Fixup>, owner: AttrOwner, init: Seq<AttrGroupId>, g: SymbolTables, n: nat)
    requires
        refs_open_or_below(init, n),
        forall|i: int| 0 <= i < g.attribute_groups@.len() ==> (#[trigger] g.attribute_groups@[i]).1@ < n,
    ensures
        refs_open_or_below(group_refs_after(fs, owner, init, g), n),
    decreases fs.len(),
{
    if fs.len() > 0 {
        lemma_group_refs_after_held(fs.drop_last(), owner, init, g, n);
        match fs.last() {
            Fixup::AttrGroupRef { owner: o, index, name, .. } => {
                if o == owner && has_key(g.attribute_groups@, name) {
                    lemma_lookup_found(g.attribute_groups@, name);
                }
            },
            _ => {},
        }
    }
}

/// The references that survive pruning.
pub open spec fn refs_kept(refs: Seq<AttrGroupId>) -> Seq<AttrGroupId> {
    refs.filter(|g: AttrGroupId| group_ref_resolved(g))
}

/// What survives pruning of references open or below `n` is below `n`.
proof fn lemma_pruned_refs_held(refs: Seq<AttrGroupId>, n: nat)
    requires
        refs_open_or_below(refs, n),
    ensures
        forall|k: int| 0 <= k < refs_kept(refs).len() ==> (#[trigger] refs_kept(refs)[k])@ < n,
{
    let f = |g: AttrGroupId| group_ref_resolved(g);
    refs.filter_lemma(f);
    assert forall|k: int| 0 <= k < refs_kept(refs).len() implies (#[trigger] refs_kept(refs)[k])@ < n by {
        let x = refs.filter(f)[k];
        assert(refs.filter(f).contains(x));
        refs.lemma_filter_contains_rev(f, x);
        let j = choose|j: int| 0 <= j < refs.len() && refs[j] == x;
        assert(refs[j]@ == u32::MAX || refs[j]@ < n);
    }
}

/// Whether the slot `f` names is held, and its name is interned.
pub open spec fn fixup_in_range(l: Loader, f: Fixup) -> bool {
    &&& fixup_name(f).local@ < l.interned().len()
    &&& fixup_name(f).ns matches Some(n) ==> n@ < l.interned().len()
    &&& match f {
        Fixup::ElementType { element, .. } => element@ < l.element_decls().len(),
        Fixup::ElementSubstGroup { element, .. } => element@ < l.element_decls().len(),
        Fixup::ElementIdcRef { element, .. } => element@ < l.element_decls().len(),
        Fixup::AttributeType { attribute, .. } => attribute@ < l.attribute_decls().len(),
        Fixup::SimpleBase { type_, .. } => type_@ < l.type_defs().len(),
        Fixup::SimpleItem { type_, .. } => type_@ < l.type_defs().len(),
        Fixup::SimpleMember { type_, .. } => type_@ < l.type_defs().len(),
        Fixup::ComplexBase { type_, .. } => type_@ < l.type_defs().len(),
        Fixup::ParticleElementRef { particle, .. } => particle@ < l.particle_defs().len(),
        Fixup::ParticleGroupRef { particle, .. } => particle@ < l.particle_defs().len(),
        Fixup::AttrUseRef { owner, .. } => owner_in_range(l, owner),
        Fixup::AttrGroupRef { owner, .. } => owner_in_range(l, owner),
        Fixup::KeyRefRefer { idc, .. } => idc@ < l.constraint_defs().len(),
    }
}

pub open spec fn owner_in_range(l: Loader, o: AttrOwner) -> bool {
    match o {
        AttrOwner::ComplexType(t) => t@ < l.type_defs().len(),
        AttrOwner::AttributeGroup(g) => g@ < l.attribute_group_defs().len(),
    }
}

/// Whether type `t` (at id `tid`) became `u` by the fixups `fs`.
pub open spec fn type_resolved(
    t: TypeDefinition,
    u: TypeDefinition,
    tid: TypeId,
    fs: Seq<Fixup>,
    g: SymbolTables,
    types: Seq<TypeDefinition>,
) -> bool {
    match (t, u) {
        (TypeDefinition::Simple(a), TypeDefinition::Simple(b)) => {
            &&& b.base == base_after(fs, tid@, a.base, g, true)
            &&& b.primitive == primitive_after(fs, tid@, types, g)
            &&& b.item_type == item_after(fs, tid@, a.item_type, g)
            &&& b.member_types@ == members_after(fs, tid@, a.member_types@, g)
            &&& b.name == a.name && b.variety == a.variety && b.builtin == a.builtin
            &&& b.facets == a.facets && b.final_ == a.final_ && b.annotation == a.annotation
            &&& b.span == a.span
        },
        (TypeDefinition::Complex(a), TypeDefinition::Complex(b)) => {
            &&& b.base == base_after(fs, tid@, a.base, g, false)
            &&& b.attribute_uses@ == uses_after(fs, AttrOwner::ComplexType(tid), a.attribute_uses@, g)
            &&& b.attribute_group_refs@ == group_refs_after(
                fs,
                AttrOwner::ComplexType(tid),
                a.attribute_group_refs@,
                g,
            )
            &&& b.name == a.name && b.derivation == a.derivation && b.content == a.content
            &&& b.attribute_wildcard == a.attribute_wildcard && b.open_content == a.open_content
            &&& b.is_abstract == a.is_abstract && b.block == a.block && b.final_ == a.final_
            &&& b.annotation == a.annotation && b.span == a.span
        },
        _ => false,
    }
}

/// The type arena of `b` is `a`'s with the fixups `fs` applied.
pub open spec fn types_resolved(a: Loader, b: Loader, fs: Seq<Fixup>) -> bool {
    &&& b.type_defs().len() == a.type_defs().len()
    &&& forall|tid: TypeId|
        tid@ < a.type_defs().len() ==> #[trigger] type_resolved(
            a.type_defs()[tid@ as int],
            b.type_defs()[tid@ as int],
            tid,
            fs,
            a.symbols(),
            a.type_defs(),
        )
}

/// Whether element `y` is `x` (at `e`) with the fixups `fs` applied.
pub open spec fn element_resolved(x: ElementDecl, y: ElementDecl, e: nat, fs: Seq<Fixup>, g: SymbolTables, any: TypeId) -> bool {
    &&& y.type_id == element_type_after(fs, e, x.type_id, g, any)
    &&& y.substitution_group@ == heads_after(fs, e, x.substitution_group@, g)
    &&& y.identity_constraints@ == element_idcs_after(fs, e, x.identity_constraints@, g)
    &&& y.name == x.name && y.scope == x.scope && y.nillable == x.nillable
    &&& y.is_abstract == x.is_abstract && y.value_constraint == x.value_constraint
    &&& y.block == x.block && y.final_ == x.final_ && y.annotation == x.annotation
    &&& y.span == x.span
}

/// The element arena of `b` is `a`'s with the fixups `fs` applied.
pub open spec fn elements_resolved(a: Loader, b: Loader, fs: Seq<Fixup>) -> bool {
    &&& b.element_decls().len() == a.element_decls().len()
    &&& forall|e: int|
        0 <= e < a.element_decls().len() ==> #[trigger] element_resolved(
            a.element_decls()[e],
            b.element_decls()[e],
            e as nat,
            fs,
            a.symbols(),
            a.builtin_ids()[Builtin::AnyType.spec_index()],
        )
}

/// The attribute arena of `b` is `a`'s with the fixups `fs` applied.
pub open spec fn attributes_resolved(a: Loader, b: Loader, fs: Seq<Fixup>) -> bool {
    &&& b.attribute_decls().len() == a.attribute_decls().len()
    &&& forall|i: int|
        0 <= i < a.attribute_decls().len() ==> {
            let (x, y) = (#[trigger] a.attribute_decls()[i], b.attribute_decls()[i]);
            &&& y.type_id == attribute_type_after(
                fs,
                i as nat,
                x.type_id,
                a.symbols(),
                a.builtin_ids()[Builtin::AnySimpleType.spec_index()],
            )
            &&& y == AttributeDecl { type_id: y.type_id, ..x }
        }
}

/// The particle arena of `b` is `a`'s with the fixups `fs` applied.
pub open spec fn particles_resolved(a: Loader, b: Loader, fs: Seq<Fixup>) -> bool {
    &&& b.particle_defs().len() == a.particle_defs().len()
    &&& forall|i: int|
        0 <= i < a.particle_defs().len() ==> {
            let (x, y) = (#[trigger] a.particle_defs()[i], b.particle_defs()[i]);
            &&& y.term == term_after(fs, i as nat, x.term, a.symbols())
            &&& y.min_occurs == x.min_occurs && y.max_occurs == x.max_occurs && y.span == x.span
        }
}

/// Whether attribute group `y` is `x` (at `gid`) with the fixups applied.
pub open spec fn group_resolved(x: AttributeGroupDef, y: AttributeGroupDef, gid: AttrGroupId, fs: Seq<Fixup>, g: SymbolTables) -> bool {
    &&& y.attribute_uses@ == uses_after(fs, AttrOwner::AttributeGroup(gid), x.attribute_uses@, g)
    &&& y.attribute_group_refs@ == group_refs_after(fs, AttrOwner::AttributeGroup(gid), x.attribute_group_refs@, g)
    &&& y.name == x.name && y.attribute_wildcard == x.attribute_wildcard
    &&& y.annotation == x.annotation && y.span == x.span
}

/// The attribute group arena of `b` is `a`'s with the fixups `fs` applied.
pub open spec fn groups_resolved(a: Loader, b: Loader, fs: Seq<Fixup>) -> bool {
    &&& b.attribute_group_defs().len() == a.attribute_group_defs().len()
    &&& forall|gid: AttrGroupId|
        gid@ < a.attribute_group_defs().len() ==> #[trigger] group_resolved(
            a.attribute_group_defs()[gid@ as int],
            b.attribute_group_defs()[gid@ as int],
            gid,
            fs,
            a.symbols(),
        )
}

/// The identity-constraint arena of `b` is `a`'s with the fixups applied.
pub open spec fn constraints_resolved(a: Loader, b: Loader, fs: Seq<Fixup>) -> bool {
    &&& b.constraint_defs().len() == a.constraint_defs().len()
    &&& forall|i: int|
        0 <= i < a.constraint_defs().len() ==> {
            let (x, y) = (#[trigger] a.constraint_defs()[i], b.constraint_defs()[i]);
            &&& y.refer == refer_after(fs, i as nat, x.refer, a.symbols())
            &&& y == IdentityConstraint { refer: y.refer, ..x }
        }
}

/// Whether the arenas of `b` are those of `a` with the fixups `fs` applied,
/// in order, against `a`'s symbol tables.
pub open spec fn resolved_by(a: Loader, b: Loader, fs: Seq<Fixup>) -> bool {
    &&& types_resolved(a, b, fs)
    &&& elements_resolved(a, b, fs)
    &&& attributes_resolved(a, b, fs)
    &&& particles_resolved(a, b, fs)
    &&& groups_resolved(a, b, fs)
    &&& constraints_resolved(a, b, fs)
}

/// The diagnostic for a fixup whose name was never declared: an error, or a
/// warning under lax conformance.
pub open spec fn reports_unresolved(d: Diagnostic, f: Fixup, st: Seq<Seq<char>>, mode: Conformance) -> bool {
    let q = fixup_name(f);
    &&& d.code == DiagCode::UnresolvedReference
    &&& d.severity == if mode == Conformance::Lax {
        Severity::Warning
    } else {
        Severity::Error
    }
    &&& d.spans@ == seq![fixup_span(f)]
    &&& d.help matches Some(h) && h@ == "check the spelling, or add an xs:import for its namespace"@
    &&& d.message@ == "no "@ + fixup_space(f).spec_as_str()@ + " named `"@ + clark_chars(
        match q.ns {
            Some(n) => Some(st[n@ as int]),
            None => None,
        },
        st[q.local@ as int],
    ) + "`"@
}

/// The fixups of `fs` whose names were never declared, in order.
pub open spec fn unresolved_in(fs: Seq<Fixup>, g: SymbolTables) -> Seq<Fixup> {
    fs.filter(|f: Fixup| !fixup_resolves(f, g))
}

/// Whether a fixup writes into the type arena.
pub open spec fn touches_types(f: Fixup) -> bool {
    match f {
        Fixup::SimpleBase { .. } | Fixup::SimpleItem { .. } | Fixup::SimpleMember { .. } | Fixup::ComplexBase {
            ..
        } => true,
        Fixup::AttrUseRef { owner, .. } => owner is ComplexType,
        Fixup::AttrGroupRef { owner, .. } => owner is ComplexType,
        _ => false,
    }
}

/// Whether a fixup writes into the attribute group arena.
pub open spec fn touches_groups(f: Fixup) -> bool {
    match f {
        Fixup::AttrUseRef { owner, .. } => owner is AttributeGroup,
        Fixup::AttrGroupRef { owner, .. } => owner is AttributeGroup,
        _ => false,
    }
}

proof fn lemma_types_frame(a: Loader, b: Loader, fs: Seq<Fixup>, f: Fixup)
    requires
        types_resolved(a, b, fs),
        !touches_types(f),
    ensures
        types_resolved(a, b, fs.push(f)),
{
    let fs2 = fs.push(f);
    assert(fs2.drop_last() =~= fs);
    assert forall|tid: TypeId| tid@ < a.type_defs().len() implies #[trigger] type_resolved(
        a.type_defs()[tid@ as int],
        b.type_defs()[tid@ as int],
        tid,
        fs2,
        a.symbols(),
        a.type_defs(),
    ) by {
        assert(type_resolved(a.type_defs()[tid@ as int], b.type_defs()[tid@ as int], tid, fs, a.symbols(), a.type_defs()));
        assert(primitive_after(fs2, tid@, a.type_defs(), a.symbols()) == primitive_after(fs, tid@, a.type_defs(), a.symbols()));
    }
}

proof fn lemma_elements_frame(a: Loader, b: Loader, fs: Seq<Fixup>, f: Fixup)
    requires
        elements_resolved(a, b, fs),
        !(f is ElementType || f is ElementSubstGroup || f is ElementIdcRef),
    ensures
        elements_resolved(a, b, fs.push(f)),
{
    let fs2 = fs.push(f);
    assert(fs2.drop_last() =~= fs);
    assert forall|e: int| 0 <= e < a.element_decls().len() implies #[trigger] element_resolved(
        a.element_decls()[e],
        b.element_decls()[e],
        e as nat,
        fs2,
        a.symbols(),
        a.builtin_ids()[Builtin::AnyType.spec_index()],
    ) by {
        assert(element_resolved(a.element_decls()[e], b.element_decls()[e], e as nat, fs, a.symbols(), a.builtin_ids()[Builtin::AnyType.spec_index()]));
    }
}

proof fn lemma_attributes_frame(a: Loader, b: Loader, fs: Seq<Fixup>, f: Fixup)
    requires
        attributes_resolved(a, b, fs),
        !(f is AttributeType),
    ensures
        attributes_resolved(a, b, fs.push(f)),
{
    let fs2 = fs.push(f);
    assert(fs2.drop_last() =~= fs);
}

proof fn lemma_particles_frame(a: Loader, b: Loader, fs: Seq<Fixup>, f: Fixup)
    requires
        particles_resolved(a, b, fs),
        !(f is ParticleElementRef || f is ParticleGroupRef),
    ensures
        particles_resolved(a, b, fs.push(f)),
{
    let fs2 = fs.push(f);
    assert(fs2.drop_last() =~= fs);
}

proof fn lemma_groups_frame(a: Loader, b: Loader, fs: Seq<Fixup>, f: Fixup)
    requires
        groups_resolved(a, b, fs),
        !touches_groups(f),
    ensures
        groups_resolved(a, b, fs.push(f)),
{
    let fs2 = fs.push(f);
    assert(fs2.drop_last() =~= fs);
    assert forall|gid: AttrGroupId| gid@ < a.attribute_group_defs().len() implies #[trigger] group_resolved(
        a.attribute_group_defs()[gid@ as int],
        b.attribute_group_defs()[gid@ as int],
        gid,
        fs2,
        a.symbols(),
    ) by {
        assert(group_resolved(a.attribute_group_defs()[gid@ as int], b.attribute_group_defs()[gid@ as int], gid, fs, a.symbols()));
    }
}

proof fn lemma_constraints_frame(a: Loader, b: Loader, fs: Seq<Fixup>, f: Fixup)
    requires
        constraints_resolved(a, b, fs),
        !(f is KeyRefRefer),
    ensures
        constraints_resolved(a, b, fs.push(f)),
{
    let fs2 = fs.push(f);
    assert(fs2.drop_last() =~= fs);
}

/// The arenas a fixup does not write into stay resolved through it.
proof fn lemma_frames(a: Loader, ob: Loader, b: Loader, fs: Seq<Fixup>, f: Fixup)
    requires
        resolved_by(a, ob, fs),
        !touches_types(f) ==> b.type_defs() == ob.type_defs(),
        !(f is ElementType || f is ElementSubstGroup || f is ElementIdcRef) ==> b.element_decls() == ob.element_decls(),
        !(f is AttributeType) ==> b.attribute_decls() == ob.attribute_decls(),
        !(f is ParticleElementRef || f is ParticleGroupRef) ==> b.particle_defs() == ob.particle_defs(),
        !touches_groups(f) ==> b.attribute_group_defs() == ob.attribute_group_defs(),
        !(f is KeyRefRefer) ==> b.constraint_defs() == ob.constraint_defs(),
    ensures
        !touches_types(f) ==> types_resolved(a, b, fs.push(f)),
        !(f is ElementType || f is ElementSubstGroup || f is ElementIdcRef) ==> elements_resolved(a, b, fs.push(f)),
        !(f is AttributeType) ==> attributes_resolved(a, b, fs.push(f)),
        !(f is ParticleElementRef || f is ParticleGroupRef) ==> particles_resolved(a, b, fs.push(f)),
        !touches_groups(f) ==> groups_resolved(a, b, fs.push(f)),
        !(f is KeyRefRefer) ==> constraints_resolved(a, b, fs.push(f)),
{
    if !touches_types(f) {
        lemma_types_frame(a, b, fs, f);
    }
    if !(f is ElementType || f is ElementSubstGroup || f is ElementIdcRef) {
        lemma_elements_frame(a, b, fs, f);
    }
    if !(f is AttributeType) {
        lemma_attributes_frame(a, b, fs, f);
    }
    if !(f is ParticleElementRef || f is ParticleGroupRef) {
        lemma_particles_frame(a, b, fs, f);
    }
    if !touches_groups(f) {
        lemma_groups_frame(a, b, fs, f);
    }
    if !(f is KeyRefRefer) {
        lemma_constraints_frame(a, b, fs, f);
    }
}

/// One `AttrUseRef` step: the use it names is pointed at the declaration
/// found, for its owner; any other owner's uses are untouched.
proof fn lemma_uses_step(prefix: Seq<Fixup>, f: Fixup, owner: AttrOwner, init: Seq<AttributeUse>, g: SymbolTables)
    ensures
        ({
            let prev = uses_after(prefix, owner, init, g);
            match f {
                Fixup::AttrUseRef { owner: o, index, name, .. } => uses_after(prefix.push(f), owner, init, g)
                    == if o == owner && g.attributes.lookup(name) is Some && index < prev.len() {
                    prev.update(
                        index as int,
                        AttributeUse { attribute: g.attributes.lookup(name)->0, ..prev[index as int] },
                    )
                } else {
                    prev
                },
                _ => uses_after(prefix.push(f), owner, init, g) == prev,
            }
        }),
{
    assert(prefix.push(f).drop_last() =~= prefix);
}

/// Points the use at `index` at the declaration `a`, keeping the rest of it.
fn set_use_attribute(v: &mut Vec<AttributeUse>, index: usize, a: AttributeId)
    requires
        index < old(v)@.len(),
    ensures
        final(v)@ == old(v)@.update(index as int, AttributeUse { attribute: a, ..old(v)@[index as int] }),
{
    let mut u = v.remove(index);
    u.attribute = a;
    v.insert(index, u);
    assert(final(v)@ =~= old(v)@.update(index as int, AttributeUse { attribute: a, ..old(v)@[index as int] }));
}

/// Ready to apply one more fixup: the loader is well formed, resolved by
/// `prefix` from `start`, and the fixup's slot is held.
spec fn step_ready(start: Loader, cur: Loader, prefix: Seq<Fixup>, f: Fixup) -> bool {
    &&& cur.wf()
    &&& start.wf()
    &&& resolved_by(start, cur, prefix)
    &&& fixup_in_range(start, f)
    &&& forall|i: int|
        0 <= i < start.symbols().types@.len() ==> (#[trigger] start.symbols().types@[i]).1@ < start.type_defs().len()
    &&& cur.globals == start.globals
    &&& cur.builtins == start.builtins
    &&& cur.names == start.names
}

/// One fixup applied: `after` is resolved by `prefix` and `f`, `r` says
/// whether `f`'s name was declared, and nothing else changed.
spec fn step_done(start: Loader, before: Loader, after: Loader, prefix: Seq<Fixup>, f: Fixup, r: bool) -> bool {
    &&& after.wf()
    &&& resolved_by(start, after, prefix.push(f))
    &&& r == fixup_resolves(f, start.symbols())
    &&& after.globals == before.globals
    &&& after.builtins == before.builtins
    &&& after.names == before.names
    &&& after.model_groups == before.model_groups
    &&& after.notations == before.notations
    &&& after.annotations == before.annotations
    &&& after.fixups == before.fixups
    &&& after.diags == before.diags
    &&& after.documents == before.documents
    &&& after.version == before.version
}

impl Loader {
    /// Applies one fixup against the symbol tables, returning whether its
    /// name was declared.
    fn apply_fixup(&mut self, f: &Fixup, Ghost(start): Ghost<Loader>, Ghost(prefix): Ghost<Seq<Fixup>>) -> (r:
        bool)
        requires
            step_ready(start, *old(self), prefix, *f),
        ensures
            step_done(start, *old(self), *final(self), prefix, *f, r),
    {
        match f {
            Fixup::ElementType { element, name, .. } => self.fix_element_type(*element, *name, Ghost(*f), Ghost(start), Ghost(prefix)),
            Fixup::ElementSubstGroup { element, name, .. } => self.fix_element_subst_group(*element, *name, Ghost(*f), Ghost(start), Ghost(prefix)),
            Fixup::ElementIdcRef { element, index, name, .. } => self.fix_element_idc_ref(*element, *index, *name, Ghost(*f), Ghost(start), Ghost(prefix)),
            Fixup::AttributeType { attribute, name, .. } => self.fix_attribute_type(*attribute, *name, Ghost(*f), Ghost(start), Ghost(prefix)),
            Fixup::SimpleBase { type_, name, .. } => self.fix_simple_base(*type_, *name, Ghost(*f), Ghost(start), Ghost(prefix)),
            Fixup::SimpleItem { type_, name, .. } => self.fix_simple_item(*type_, *name, Ghost(*f), Ghost(start), Ghost(prefix)),
            Fixup::SimpleMember { type_, index, name, .. } => self.fix_simple_member(*type_, *index, *name, Ghost(*f), Ghost(start), Ghost(prefix)),
            Fixup::ComplexBase { type_, name, .. } => self.fix_complex_base(*type_, *name, Ghost(*f), Ghost(start), Ghost(prefix)),
            Fixup::ParticleElementRef { particle, name, .. } => self.fix_particle_element_ref(*particle, *name, Ghost(*f), Ghost(start), Ghost(prefix)),
            Fixup::ParticleGroupRef { particle, name, .. } => self.fix_particle_group_ref(*particle, *name, Ghost(*f), Ghost(start), Ghost(prefix)),
            Fixup::AttrUseRef { owner, index, name, .. } => self.fix_attr_use_ref(*owner, *index, *name, Ghost(*f), Ghost(start), Ghost(prefix)),
            Fixup::AttrGroupRef { owner, index, name, .. } => self.fix_attr_group_ref(*owner, *index, *name, Ghost(*f), Ghost(start), Ghost(prefix)),
            Fixup::KeyRefRefer { idc, name, .. } => self.fix_key_ref_refer(*idc, *name, Ghost(*f), Ghost(start), Ghost(prefix)),
        }
    }

    #[verifier::rlimit(100)]
    #[verifier::spinoff_prover]
    fn fix_element_type(&mut self, element: ElementId, name: QName, Ghost(f): Ghost<Fixup>, Ghost(start): Ghost<Loader>, Ghost(prefix): Ghost<Seq<Fixup>>) -> (r: bool)
        requires
            step_ready(start, *old(self), prefix, f),
            f matches Fixup::ElementType { element: element_, name: name_, .. } && element_ == element && name_ == name,
        ensures
            step_done(start, *old(self), *final(self), prefix, f, r),
    {
        let ghost fs = prefix.push(f);
        let ghost before = *self;
        assert(fs.drop_last() =~= prefix);
        assert(fs.last() == f);
        proof {
            crate::datatypes::law_table_and_index_agree();
        }
        let r = {
        let t = match self.globals.types.get(name) {
            Some(t) => t,
            None => self.builtins[Builtin::AnyType.slot()],
        };
        let e = self.elements.get_mut(element.index());
        e.type_id = t;
        proof {
            assert forall|x: int| 0 <= x < start.element_decls().len() implies #[trigger] element_resolved(
                start.element_decls()[x],
                self.element_decls()[x],
                x as nat,
                fs,
                start.symbols(),
                start.builtin_ids()[Builtin::AnyType.spec_index()],
            ) by {
                assert(element_resolved(
                    start.element_decls()[x],
                    before.element_decls()[x],
                    x as nat,
                    prefix,
                    start.symbols(),
                    start.builtin_ids()[Builtin::AnyType.spec_index()],
                ));
            }
        }
        self.globals.types.get(name).is_some()
        };
        proof {
            lemma_frames(start, before, *self, prefix, f);
        }
        r
    }

    #[verifier::rlimit(100)]
    #[verifier::spinoff_prover]
    fn fix_element_subst_group(&mut self, element: ElementId, name: QName, Ghost(f): Ghost<Fixup>, Ghost(start): Ghost<Loader>, Ghost(prefix): Ghost<Seq<Fixup>>) -> (r: bool)
        requires
            step_ready(start, *old(self), prefix, f),
            f matches Fixup::ElementSubstGroup { element: element_, name: name_, .. } && element_ == element && name_ == name,
        ensures
            step_done(start, *old(self), *final(self), prefix, f, r),
    {
        let ghost fs = prefix.push(f);
        let ghost before = *self;
        assert(fs.drop_last() =~= prefix);
        assert(fs.last() == f);
        proof {
            crate::datatypes::law_table_and_index_agree();
        }
        let r = {
        match self.globals.elements.get(name) {
            Some(h) => {
                let e = self.elements.get_mut(element.index());
                e.substitution_group.push(h);
                proof {
                    assert forall|x: int| 0 <= x < start.element_decls().len() implies #[trigger] element_resolved(
                        start.element_decls()[x],
                        self.element_decls()[x],
                        x as nat,
                        fs,
                        start.symbols(),
                        start.builtin_ids()[Builtin::AnyType.spec_index()],
                    ) by {
                        assert(element_resolved(
                            start.element_decls()[x],
                            before.element_decls()[x],
                            x as nat,
                            prefix,
                            start.symbols(),
                            start.builtin_ids()[Builtin::AnyType.spec_index()],
                        ));
                    }
                }
                true
            },
            None => false,
        }
        };
        proof {
            assert forall|x: int| 0 <= x < start.element_decls().len() implies #[trigger] element_resolved(
                start.element_decls()[x],
                self.element_decls()[x],
                x as nat,
                fs,
                start.symbols(),
                start.builtin_ids()[Builtin::AnyType.spec_index()],
            ) by {
                assert(element_resolved(
                    start.element_decls()[x],
                    before.element_decls()[x],
                    x as nat,
                    prefix,
                    start.symbols(),
                    start.builtin_ids()[Builtin::AnyType.spec_index()],
                ));
            }
        }
        proof {
            lemma_frames(start, before, *self, prefix, f);
        }
        r
    }

    #[verifier::rlimit(100)]
    #[verifier::spinoff_prover]
    fn fix_element_idc_ref(&mut self, element: ElementId, index: usize, name: QName, Ghost(f): Ghost<Fixup>, Ghost(start): Ghost<Loader>, Ghost(prefix): Ghost<Seq<Fixup>>) -> (r: bool)
        requires
            step_ready(start, *old(self), prefix, f),
            f matches Fixup::ElementIdcRef { element: element_, index: index_, name: name_, .. } && element_ == element && index_ == index && name_ == name,
        ensures
            step_done(start, *old(self), *final(self), prefix, f, r),
    {
        let ghost fs = prefix.push(f);
        let ghost before = *self;
        assert(fs.drop_last() =~= prefix);
        assert(fs.last() == f);
        proof {
            crate::datatypes::law_table_and_index_agree();
        }
        let r = {
        match self.globals.identity_constraints.get(name) {
            Some(k) => {
                let e = self.elements.get_mut(element.index());
                if index < e.identity_constraints.len() {
                    e.identity_constraints.set(index, k);
                }
                proof {
                    assert forall|x: int| 0 <= x < start.element_decls().len() implies #[trigger] element_resolved(
                        start.element_decls()[x],
                        self.element_decls()[x],
                        x as nat,
                        fs,
                        start.symbols(),
                        start.builtin_ids()[Builtin::AnyType.spec_index()],
                    ) by {
                        assert(element_resolved(
                            start.element_decls()[x],
                            before.element_decls()[x],
                            x as nat,
                            prefix,
                            start.symbols(),
                            start.builtin_ids()[Builtin::AnyType.spec_index()],
                        ));
                    }
                }
                true
            },
            None => false,
        }
        };
        proof {
            assert forall|x: int| 0 <= x < start.element_decls().len() implies #[trigger] element_resolved(
                start.element_decls()[x],
                self.element_decls()[x],
                x as nat,
                fs,
                start.symbols(),
                start.builtin_ids()[Builtin::AnyType.spec_index()],
            ) by {
                assert(element_resolved(
                    start.element_decls()[x],
                    before.element_decls()[x],
                    x as nat,
                    prefix,
                    start.symbols(),
                    start.builtin_ids()[Builtin::AnyType.spec_index()],
                ));
            }
        }
        proof {
            lemma_frames(start, before, *self, prefix, f);
        }
        r
    }

    #[verifier::rlimit(100)]
    #[verifier::spinoff_prover]
    fn fix_attribute_type(&mut self, attribute: AttributeId, name: QName, Ghost(f): Ghost<Fixup>, Ghost(start): Ghost<Loader>, Ghost(prefix): Ghost<Seq<Fixup>>) -> (r: bool)
        requires
            step_ready(start, *old(self), prefix, f),
            f matches Fixup::AttributeType { attribute: attribute_, name: name_, .. } && attribute_ == attribute && name_ == name,
        ensures
            step_done(start, *old(self), *final(self), prefix, f, r),
    {
        let ghost fs = prefix.push(f);
        let ghost before = *self;
        assert(fs.drop_last() =~= prefix);
        assert(fs.last() == f);
        proof {
            crate::datatypes::law_table_and_index_agree();
        }
        let r = {
        let t = match self.globals.types.get(name) {
            Some(t) => t,
            None => self.builtins[Builtin::AnySimpleType.slot()],
        };
        let a = self.attributes.get_mut(attribute.index());
        a.type_id = t;
        self.globals.types.get(name).is_some()
        };
        proof {
            lemma_frames(start, before, *self, prefix, f);
        }
        r
    }

    #[verifier::rlimit(100)]
    #[verifier::spinoff_prover]
    fn fix_simple_base(&mut self, type_: TypeId, name: QName, Ghost(f): Ghost<Fixup>, Ghost(start): Ghost<Loader>, Ghost(prefix): Ghost<Seq<Fixup>>) -> (r: bool)
        requires
            step_ready(start, *old(self), prefix, f),
            f matches Fixup::SimpleBase { type_: type__, name: name_, .. } && type__ == type_ && name_ == name,
        ensures
            step_done(start, *old(self), *final(self), prefix, f, r),
    {
        let ghost fs = prefix.push(f);
        let ghost before = *self;
        assert(fs.drop_last() =~= prefix);
        assert(fs.last() == f);
        proof {
            crate::datatypes::law_table_and_index_agree();
        }
        let r = {
        match self.globals.types.get(name) {
            Some(b) => {
                let primitive = match self.types.at(b.index()) {
                    TypeDefinition::Simple(bs) => match bs.primitive {
                        Some(p) => Some(p),
                        None => bs.builtin,
                    },
                    TypeDefinition::Complex(_) => None,
                };
                proof {
                    let tbl = start.symbols().types@;
                    crate::schemas::lemma_lookup_found(tbl, name);
                    let i = choose|i: int|
                        0 <= i < tbl.len() && (#[trigger] tbl[i]).0 == name && lookup_in(tbl, name) == Some(
                            tbl[i].1,
                        );
                    assert(tbl[i].1 == b);
                    assert(b@ < start.type_defs().len());
                    assert(type_resolved(
                        start.type_defs()[b@ as int],
                        before.type_defs()[b@ as int],
                        b,
                        prefix,
                        start.symbols(),
                        start.type_defs(),
                    ));
                }
                match self.types.get_mut(type_.index()) {
                    TypeDefinition::Simple(s) => {
                        s.base = b;
                        if s.primitive.is_none() {
                            s.primitive = primitive;
                        }
                    },
                    TypeDefinition::Complex(_) => {},
                }
                proof {
                    assert forall|tid: TypeId| tid@ < start.type_defs().len() implies #[trigger] type_resolved(
                        start.type_defs()[tid@ as int],
                        self.type_defs()[tid@ as int],
                        tid,
                        fs,
                        start.symbols(),
                        start.type_defs(),
                    ) by {
                        assert(type_resolved(
                            start.type_defs()[tid@ as int],
                            before.type_defs()[tid@ as int],
                            tid,
                            prefix,
                            start.symbols(),
                            start.type_defs(),
                        ));
                    }
                }
                true
            },
            None => false,
        }
        };
        proof {
            assert forall|tid: TypeId| tid@ < start.type_defs().len() implies #[trigger] type_resolved(
                start.type_defs()[tid@ as int],
                self.type_defs()[tid@ as int],
                tid,
                fs,
                start.symbols(),
                start.type_defs(),
            ) by {
                assert(type_resolved(
                    start.type_defs()[tid@ as int],
                    before.type_defs()[tid@ as int],
                    tid,
                    prefix,
                    start.symbols(),
                    start.type_defs(),
                ));
            }
        }
        proof {
            lemma_frames(start, before, *self, prefix, f);
        }
        r
    }

    #[verifier::rlimit(100)]
    #[verifier::spinoff_prover]
    fn fix_simple_item(&mut self, type_: TypeId, name: QName, Ghost(f): Ghost<Fixup>, Ghost(start): Ghost<Loader>, Ghost(prefix): Ghost<Seq<Fixup>>) -> (r: bool)
        requires
            step_ready(start, *old(self), prefix, f),
            f matches Fixup::SimpleItem { type_: type__, name: name_, .. } && type__ == type_ && name_ == name,
        ensures
            step_done(start, *old(self), *final(self), prefix, f, r),
    {
        let ghost fs = prefix.push(f);
        let ghost before = *self;
        assert(fs.drop_last() =~= prefix);
        assert(fs.last() == f);
        proof {
            crate::datatypes::law_table_and_index_agree();
        }
        let r = {
        match self.globals.types.get(name) {
            Some(b) => {
                match self.types.get_mut(type_.index()) {
                    TypeDefinition::Simple(s) => {
                        s.item_type = Some(b);
                    },
                    TypeDefinition::Complex(_) => {},
                }
                proof {
                    assert forall|tid: TypeId| tid@ < start.type_defs().len() implies #[trigger] type_resolved(
                        start.type_defs()[tid@ as int],
                        self.type_defs()[tid@ as int],
                        tid,
                        fs,
                        start.symbols(),
                        start.type_defs(),
                    ) by {
                        assert(type_resolved(
                            start.type_defs()[tid@ as int],
                            before.type_defs()[tid@ as int],
                            tid,
                            prefix,
                            start.symbols(),
                            start.type_defs(),
                        ));
                    }
                }
                true
            },
            None => false,
        }
        };
        proof {
            assert forall|tid: TypeId| tid@ < start.type_defs().len() implies #[trigger] type_resolved(
                start.type_defs()[tid@ as int],
                self.type_defs()[tid@ as int],
                tid,
                fs,
                start.symbols(),
                start.type_defs(),
            ) by {
                assert(type_resolved(
                    start.type_defs()[tid@ as int],
                    before.type_defs()[tid@ as int],
                    tid,
                    prefix,
                    start.symbols(),
                    start.type_defs(),
                ));
                assert(primitive_after(fs, tid@, start.type_defs(), start.symbols()) == primitive_after(
                    prefix,
                    tid@,
                    start.type_defs(),
                    start.symbols(),
                ));
            }
        }
        proof {
            lemma_frames(start, before, *self, prefix, f);
        }
        r
    }

    #[verifier::rlimit(100)]
    #[verifier::spinoff_prover]
    fn fix_simple_member(&mut self, type_: TypeId, index: usize, name: QName, Ghost(f): Ghost<Fixup>, Ghost(start): Ghost<Loader>, Ghost(prefix): Ghost<Seq<Fixup>>) -> (r: bool)
        requires
            step_ready(start, *old(self), prefix, f),
            f matches Fixup::SimpleMember { type_: type__, index: index_, name: name_, .. } && type__ == type_ && index_ == index && name_ == name,
        ensures
            step_done(start, *old(self), *final(self), prefix, f, r),
    {
        let ghost fs = prefix.push(f);
        let ghost before = *self;
        assert(fs.drop_last() =~= prefix);
        assert(fs.last() == f);
        proof {
            crate::datatypes::law_table_and_index_agree();
        }
        let r = {
        match self.globals.types.get(name) {
            Some(m) => {
                match self.types.get_mut(type_.index()) {
                    TypeDefinition::Simple(s) => {
                        if index < s.member_types.len() {
                            s.member_types.set(index, m);
                        }
                    },
                    TypeDefinition::Complex(_) => {},
                }
                proof {
                    assert forall|tid: TypeId| tid@ < start.type_defs().len() implies #[trigger] type_resolved(
                        start.type_defs()[tid@ as int],
                        self.type_defs()[tid@ as int],
                        tid,
                        fs,
                        start.symbols(),
                        start.type_defs(),
                    ) by {
                        assert(type_resolved(
                            start.type_defs()[tid@ as int],
                            before.type_defs()[tid@ as int],
                            tid,
                            prefix,
                            start.symbols(),
                            start.type_defs(),
                        ));
                    }
                }
                true
            },
            None => false,
        }
        };
        proof {
            assert forall|tid: TypeId| tid@ < start.type_defs().len() implies #[trigger] type_resolved(
                start.type_defs()[tid@ as int],
                self.type_defs()[tid@ as int],
                tid,
                fs,
                start.symbols(),
                start.type_defs(),
            ) by {
                assert(type_resolved(
                    start.type_defs()[tid@ as int],
                    before.type_defs()[tid@ as int],
                    tid,
                    prefix,
                    start.symbols(),
                    start.type_defs(),
                ));
                assert(primitive_after(fs, tid@, start.type_defs(), start.symbols()) == primitive_after(
                    prefix,
                    tid@,
                    start.type_defs(),
                    start.symbols(),
                ));
            }
        }
        proof {
            lemma_frames(start, before, *self, prefix, f);
        }
        r
    }

    #[verifier::rlimit(100)]
    #[verifier::spinoff_prover]
    fn fix_complex_base(&mut self, type_: TypeId, name: QName, Ghost(f): Ghost<Fixup>, Ghost(start): Ghost<Loader>, Ghost(prefix): Ghost<Seq<Fixup>>) -> (r: bool)
        requires
            step_ready(start, *old(self), prefix, f),
            f matches Fixup::ComplexBase { type_: type__, name: name_, .. } && type__ == type_ && name_ == name,
        ensures
            step_done(start, *old(self), *final(self), prefix, f, r),
    {
        let ghost fs = prefix.push(f);
        let ghost before = *self;
        assert(fs.drop_last() =~= prefix);
        assert(fs.last() == f);
        proof {
            crate::datatypes::law_table_and_index_agree();
        }
        let r = {
        match self.globals.types.get(name) {
            Some(b) => {
                match self.types.get_mut(type_.index()) {
                    TypeDefinition::Complex(c) => {
                        c.base = b;
                    },
                    TypeDefinition::Simple(_) => {},
                }
                proof {
                    assert forall|tid: TypeId| tid@ < start.type_defs().len() implies #[trigger] type_resolved(
                        start.type_defs()[tid@ as int],
                        self.type_defs()[tid@ as int],
                        tid,
                        fs,
                        start.symbols(),
                        start.type_defs(),
                    ) by {
                        assert(type_resolved(
                            start.type_defs()[tid@ as int],
                            before.type_defs()[tid@ as int],
                            tid,
                            prefix,
                            start.symbols(),
                            start.type_defs(),
                        ));
                    }
                }
                true
            },
            None => false,
        }
        };
        proof {
            assert forall|tid: TypeId| tid@ < start.type_defs().len() implies #[trigger] type_resolved(
                start.type_defs()[tid@ as int],
                self.type_defs()[tid@ as int],
                tid,
                fs,
                start.symbols(),
                start.type_defs(),
            ) by {
                assert(type_resolved(
                    start.type_defs()[tid@ as int],
                    before.type_defs()[tid@ as int],
                    tid,
                    prefix,
                    start.symbols(),
                    start.type_defs(),
                ));
                assert(primitive_after(fs, tid@, start.type_defs(), start.symbols()) == primitive_after(
                    prefix,
                    tid@,
                    start.type_defs(),
                    start.symbols(),
                ));
            }
        }
        proof {
            lemma_frames(start, before, *self, prefix, f);
        }
        r
    }

    #[verifier::rlimit(100)]
    #[verifier::spinoff_prover]
    fn fix_particle_element_ref(&mut self, particle: ParticleId, name: QName, Ghost(f): Ghost<Fixup>, Ghost(start): Ghost<Loader>, Ghost(prefix): Ghost<Seq<Fixup>>) -> (r: bool)
        requires
            step_ready(start, *old(self), prefix, f),
            f matches Fixup::ParticleElementRef { particle: particle_, name: name_, .. } && particle_ == particle && name_ == name,
        ensures
            step_done(start, *old(self), *final(self), prefix, f, r),
    {
        let ghost fs = prefix.push(f);
        let ghost before = *self;
        assert(fs.drop_last() =~= prefix);
        assert(fs.last() == f);
        proof {
            crate::datatypes::law_table_and_index_agree();
        }
        let r = {
        match self.globals.elements.get(name) {
            Some(e) => {
                let p = self.particles.get_mut(particle.index());
                p.term = Term::Element(e);
                true
            },
            None => false,
        }
        };
        proof {
            lemma_frames(start, before, *self, prefix, f);
        }
        r
    }

    #[verifier::rlimit(100)]
    #[verifier::spinoff_prover]
    fn fix_particle_group_ref(&mut self, particle: ParticleId, name: QName, Ghost(f): Ghost<Fixup>, Ghost(start): Ghost<Loader>, Ghost(prefix): Ghost<Seq<Fixup>>) -> (r: bool)
        requires
            step_ready(start, *old(self), prefix, f),
            f matches Fixup::ParticleGroupRef { particle: particle_, name: name_, .. } && particle_ == particle && name_ == name,
        ensures
            step_done(start, *old(self), *final(self), prefix, f, r),
    {
        let ghost fs = prefix.push(f);
        let ghost before = *self;
        assert(fs.drop_last() =~= prefix);
        assert(fs.last() == f);
        proof {
            crate::datatypes::law_table_and_index_agree();
        }
        let r = {
        match self.globals.model_groups.get(name) {
            Some(g) => {
                let p = self.particles.get_mut(particle.index());
                p.term = Term::GroupRef(g);
                true
            },
            None => false,
        }
        };
        proof {
            lemma_frames(start, before, *self, prefix, f);
        }
        r
    }

    #[verifier::rlimit(100)]
    #[verifier::spinoff_prover]
    fn fix_attr_use_ref(&mut self, owner: AttrOwner, index: usize, name: QName, Ghost(f): Ghost<Fixup>, Ghost(start): Ghost<Loader>, Ghost(prefix): Ghost<Seq<Fixup>>) -> (r: bool)
        requires
            step_ready(start, *old(self), prefix, f),
            f matches Fixup::AttrUseRef { owner: owner_, index: index_, name: name_, .. } && owner_ == owner && index_ == index && name_ == name,
        ensures
            step_done(start, *old(self), *final(self), prefix, f, r),
    {
        let ghost fs = prefix.push(f);
        let ghost before = *self;
        assert(fs.drop_last() =~= prefix);
        assert(fs.last() == f);
        proof {
            crate::datatypes::law_table_and_index_agree();
        }
        let r = {
        match self.globals.attributes.get(name) {
            Some(a) => {
                match owner {
                    AttrOwner::ComplexType(t) => {
                        match self.types.get_mut(t.index()) {
                            TypeDefinition::Complex(c) => {
                                let ghost old_uses = c.attribute_uses@;
                                if index < c.attribute_uses.len() {
                                    set_use_attribute(&mut c.attribute_uses, index, a);
                                }
                                assert(c.attribute_uses@ == if index < old_uses.len() {
                                    old_uses.update(index as int, AttributeUse { attribute: a, ..old_uses[index as int] })
                                } else {
                                    old_uses
                                });
                            },
                            TypeDefinition::Simple(_) => {},
                        }
                            proof {
                                assert forall|tid: TypeId| tid@ < start.type_defs().len() implies #[trigger] type_resolved(
                                    start.type_defs()[tid@ as int],
                                    self.type_defs()[tid@ as int],
                                    tid,
                                    fs,
                                    start.symbols(),
                                    start.type_defs(),
                                ) by {
                                    if tid@ == t@ {
                                        crate::model::lemma_type_id_view(tid, t);
                                    }
                                    match start.type_defs()[tid@ as int] {
                                        TypeDefinition::Complex(x) => lemma_uses_step(
                                            prefix,
                                            f,
                                            AttrOwner::ComplexType(tid),
                                            x.attribute_uses@,
                                            start.symbols(),
                                        ),
                                        _ => {},
                                    }
                                    assert(type_resolved(
                                        start.type_defs()[tid@ as int],
                                        before.type_defs()[tid@ as int],
                                        tid,
                                        prefix,
                                        start.symbols(),
                                        start.type_defs(),
                                    ));
                                    assert(primitive_after(fs, tid@, start.type_defs(), start.symbols())
                                        == primitive_after(prefix, tid@, start.type_defs(), start.symbols()));
                                }
                            }
                    },
                    AttrOwner::AttributeGroup(g) => {
                        let grp = self.attribute_groups.get_mut(g.index());
                        if index < grp.attribute_uses.len() {
                            set_use_attribute(&mut grp.attribute_uses, index, a);
                        }
                        proof {
                            assert forall|gid: AttrGroupId| gid@ < start.attribute_group_defs().len() implies #[trigger] group_resolved(
                                start.attribute_group_defs()[gid@ as int],
                                self.attribute_group_defs()[gid@ as int],
                                gid,
                                fs,
                                start.symbols(),
                            ) by {
                                if gid@ == g@ {
                                    crate::model::lemma_attr_group_id_view(gid, g);
                                }
                                lemma_uses_step(
                                    prefix,
                                    f,
                                    AttrOwner::AttributeGroup(gid),
                                    start.attribute_group_defs()[gid@ as int].attribute_uses@,
                                    start.symbols(),
                                );
                                assert(group_resolved(
                                    start.attribute_group_defs()[gid@ as int],
                                    before.attribute_group_defs()[gid@ as int],
                                    gid,
                                    prefix,
                                    start.symbols(),
                                ));
                            }
                        }
                    },
                }
                true
            },
            None => false,
        }
        };
        proof {
            match owner {
                AttrOwner::ComplexType(t) => {
            assert forall|tid: TypeId| tid@ < start.type_defs().len() implies #[trigger] type_resolved(
                        start.type_defs()[tid@ as int],
                        self.type_defs()[tid@ as int],
                        tid,
                        fs,
                        start.symbols(),
                        start.type_defs(),
                    ) by {
                        if tid@ == t@ {
                            crate::model::lemma_type_id_view(tid, t);
                        }
                        match start.type_defs()[tid@ as int] {
                            TypeDefinition::Complex(x) => lemma_uses_step(
                                prefix,
                                f,
                                AttrOwner::ComplexType(tid),
                                x.attribute_uses@,
                                start.symbols(),
                            ),
                            _ => {},
                        }
                        assert(type_resolved(
                            start.type_defs()[tid@ as int],
                            before.type_defs()[tid@ as int],
                            tid,
                            prefix,
                            start.symbols(),
                            start.type_defs(),
                        ));
                        assert(primitive_after(fs, tid@, start.type_defs(), start.symbols()) == primitive_after(
                            prefix,
                            tid@,
                            start.type_defs(),
                            start.symbols(),
                        ));
                    }
                },
                AttrOwner::AttributeGroup(g) => {
            assert forall|gid: AttrGroupId| gid@ < start.attribute_group_defs().len() implies #[trigger] group_resolved(
                        start.attribute_group_defs()[gid@ as int],
                        self.attribute_group_defs()[gid@ as int],
                        gid,
                        fs,
                        start.symbols(),
                    ) by {
                        if gid@ == g@ {
                            crate::model::lemma_attr_group_id_view(gid, g);
                        }
                        lemma_uses_step(
                            prefix,
                            f,
                            AttrOwner::AttributeGroup(gid),
                            start.attribute_group_defs()[gid@ as int].attribute_uses@,
                            start.symbols(),
                        );
                        assert(group_resolved(
                            start.attribute_group_defs()[gid@ as int],
                            before.attribute_group_defs()[gid@ as int],
                            gid,
                            prefix,
                            start.symbols(),
                        ));
                    }
                },
            }
        }
        proof {
            lemma_frames(start, before, *self, prefix, f);
        }
        r
    }

    #[verifier::rlimit(100)]
    #[verifier::spinoff_prover]
    fn fix_attr_group_ref(&mut self, owner: AttrOwner, index: usize, name: QName, Ghost(f): Ghost<Fixup>, Ghost(start): Ghost<Loader>, Ghost(prefix): Ghost<Seq<Fixup>>) -> (r: bool)
        requires
            step_ready(start, *old(self), prefix, f),
            f matches Fixup::AttrGroupRef { owner: owner_, index: index_, name: name_, .. } && owner_ == owner && index_ == index && name_ == name,
        ensures
            step_done(start, *old(self), *final(self), prefix, f, r),
    {
        let ghost fs = prefix.push(f);
        let ghost before = *self;
        assert(fs.drop_last() =~= prefix);
        assert(fs.last() == f);
        proof {
            crate::datatypes::law_table_and_index_agree();
        }
        let r = {
        match self.globals.attribute_groups.get(name) {
            Some(r) => {
                match owner {
                    AttrOwner::ComplexType(t) => {
                        match self.types.get_mut(t.index()) {
                            TypeDefinition::Complex(c) => {
                                if index < c.attribute_group_refs.len() {
                                    c.attribute_group_refs.set(index, r);
                                }
                            },
                            TypeDefinition::Simple(_) => {},
                        }
                            proof {
                                assert forall|tid: TypeId| tid@ < start.type_defs().len() implies #[trigger] type_resolved(
                                    start.type_defs()[tid@ as int],
                                    self.type_defs()[tid@ as int],
                                    tid,
                                    fs,
                                    start.symbols(),
                                    start.type_defs(),
                                ) by {
                                    if tid@ == t@ {
                                        crate::model::lemma_type_id_view(tid, t);
                                    }
                                    assert(type_resolved(
                                        start.type_defs()[tid@ as int],
                                        before.type_defs()[tid@ as int],
                                        tid,
                                        prefix,
                                        start.symbols(),
                                        start.type_defs(),
                                    ));
                                    assert(primitive_after(fs, tid@, start.type_defs(), start.symbols())
                                        == primitive_after(prefix, tid@, start.type_defs(), start.symbols()));
                                }
                            }
                    },
                    AttrOwner::AttributeGroup(g) => {
                        let grp = self.attribute_groups.get_mut(g.index());
                        if index < grp.attribute_group_refs.len() {
                            grp.attribute_group_refs.set(index, r);
                        }
                        proof {
                            assert forall|gid: AttrGroupId| gid@ < start.attribute_group_defs().len() implies #[trigger] group_resolved(
                                start.attribute_group_defs()[gid@ as int],
                                self.attribute_group_defs()[gid@ as int],
                                gid,
                                fs,
                                start.symbols(),
                            ) by {
                                if gid@ == g@ {
                                    crate::model::lemma_attr_group_id_view(gid, g);
                                }
                                assert(group_resolved(
                                    start.attribute_group_defs()[gid@ as int],
                                    before.attribute_group_defs()[gid@ as int],
                                    gid,
                                    prefix,
                                    start.symbols(),
                                ));
                            }
                        }
                    },
                }
                true
            },
            None => false,
        }
        };
        proof {
            match owner {
                AttrOwner::ComplexType(t) => {
            assert forall|tid: TypeId| tid@ < start.type_defs().len() implies #[trigger] type_resolved(
                        start.type_defs()[tid@ as int],
                        self.type_defs()[tid@ as int],
                        tid,
                        fs,
                        start.symbols(),
                        start.type_defs(),
                    ) by {
                        if tid@ == t@ {
                            crate::model::lemma_type_id_view(tid, t);
                        }
                        assert(type_resolved(
                            start.type_defs()[tid@ as int],
                            before.type_defs()[tid@ as int],
                            tid,
                            prefix,
                            start.symbols(),
                            start.type_defs(),
                        ));
                        assert(primitive_after(fs, tid@, start.type_defs(), start.symbols()) == primitive_after(
                            prefix,
                            tid@,
                            start.type_defs(),
                            start.symbols(),
                        ));
                    }
                },
                AttrOwner::AttributeGroup(g) => {
            assert forall|gid: AttrGroupId| gid@ < start.attribute_group_defs().len() implies #[trigger] group_resolved(
                        start.attribute_group_defs()[gid@ as int],
                        self.attribute_group_defs()[gid@ as int],
                        gid,
                        fs,
                        start.symbols(),
                    ) by {
                        if gid@ == g@ {
                            crate::model::lemma_attr_group_id_view(gid, g);
                        }
                        assert(group_resolved(
                            start.attribute_group_defs()[gid@ as int],
                            before.attribute_group_defs()[gid@ as int],
                            gid,
                            prefix,
                            start.symbols(),
                        ));
                    }
                },
            }
        }
        proof {
            lemma_frames(start, before, *self, prefix, f);
        }
        r
    }

    #[verifier::rlimit(100)]
    #[verifier::spinoff_prover]
    fn fix_key_ref_refer(&mut self, idc: IdcId, name: QName, Ghost(f): Ghost<Fixup>, Ghost(start): Ghost<Loader>, Ghost(prefix): Ghost<Seq<Fixup>>) -> (r: bool)
        requires
            step_ready(start, *old(self), prefix, f),
            f matches Fixup::KeyRefRefer { idc: idc_, name: name_, .. } && idc_ == idc && name_ == name,
        ensures
            step_done(start, *old(self), *final(self), prefix, f, r),
    {
        let ghost fs = prefix.push(f);
        let ghost before = *self;
        assert(fs.drop_last() =~= prefix);
        assert(fs.last() == f);
        proof {
            crate::datatypes::law_table_and_index_agree();
        }
        let r = {
        match self.globals.identity_constraints.get(name) {
            Some(k) => {
                let c = self.identity_constraints.get_mut(idc.index());
                c.refer = Some(k);
                true
            },
            None => false,
        }
        };
        proof {
            lemma_frames(start, before, *self, prefix, f);
        }
        r
    }
}

/// What settling the fixups does: `b` is `a` with `a`'s fixups applied, no
/// fixup left, and one report per name never declared appended to `a`'s
/// diagnostics; nothing else changes.
pub open spec fn resolution(a: Loader, b: Loader, mode: Conformance) -> bool {
    let u = unresolved_in(a.pending(), a.symbols());
    let n = a.reported().len();
    &&& resolved_by(a, b, a.pending())
    &&& b.pending().len() == 0
    &&& b.reported().len() == n + u.len()
    &&& b.reported().take(n as int) == a.reported()
    &&& forall|k: int| 0 <= k < u.len() ==> reports_unresolved(#[trigger] b.reported()[n + k], u[k], a.interned(), mode)
    &&& b.symbols() == a.symbols()
    &&& b.builtin_ids() == a.builtin_ids()
    &&& b.interned() == a.interned()
    &&& b.group_defs() == a.group_defs()
    &&& b.notation_defs() == a.notation_defs()
    &&& b.annotation_defs() == a.annotation_defs()
    &&& b.document_list() == a.document_list()
    &&& b.version_read() == a.version_read()
}

/// A fixup's symbol space, name and span, taking it apart.
fn fixup_parts(f: Fixup) -> (r: (SymbolSpace, QName, Span))
    ensures
        r == (fixup_space(f), fixup_name(f), fixup_span(f)),
{
    match f {
        Fixup::ElementType { name, span, .. } => (SymbolSpace::Type, name, span),
        Fixup::ElementSubstGroup { name, span, .. } => (SymbolSpace::Element, name, span),
        Fixup::AttributeType { name, span, .. } => (SymbolSpace::Type, name, span),
        Fixup::SimpleBase { name, span, .. } => (SymbolSpace::Type, name, span),
        Fixup::SimpleItem { name, span, .. } => (SymbolSpace::Type, name, span),
        Fixup::SimpleMember { name, span, .. } => (SymbolSpace::Type, name, span),
        Fixup::ComplexBase { name, span, .. } => (SymbolSpace::Type, name, span),
        Fixup::ParticleElementRef { name, span, .. } => (SymbolSpace::Element, name, span),
        Fixup::ParticleGroupRef { name, span, .. } => (SymbolSpace::ModelGroup, name, span),
        Fixup::AttrUseRef { name, span, .. } => (SymbolSpace::Attribute, name, span),
        Fixup::AttrGroupRef { name, span, .. } => (SymbolSpace::AttributeGroup, name, span),
        Fixup::KeyRefRefer { name, span, .. } => (SymbolSpace::IdentityConstraint, name, span),
        Fixup::ElementIdcRef { name, span, .. } => (SymbolSpace::IdentityConstraint, name, span),
    }
}

/// With no fixups applied, every arena is resolved by nothing.
proof fn lemma_resolved_by_nothing(a: Loader, b: Loader)
    requires
        a.type_defs() == b.type_defs(),
        a.element_decls() == b.element_decls(),
        a.attribute_decls() == b.attribute_decls(),
        a.particle_defs() == b.particle_defs(),
        a.attribute_group_defs() == b.attribute_group_defs(),
        a.constraint_defs() == b.constraint_defs(),
    ensures
        resolved_by(a, b, Seq::empty()),
{
    let fs = Seq::<Fixup>::empty();
    assert forall|tid: TypeId| tid@ < a.type_defs().len() implies #[trigger] type_resolved(
        a.type_defs()[tid@ as int],
        b.type_defs()[tid@ as int],
        tid,
        fs,
        a.symbols(),
        a.type_defs(),
    ) by {}
    assert forall|e: int| 0 <= e < a.element_decls().len() implies #[trigger] element_resolved(
        a.element_decls()[e],
        b.element_decls()[e],
        e as nat,
        fs,
        a.symbols(),
        a.builtin_ids()[Builtin::AnyType.spec_index()],
    ) by {}
    assert forall|gid: AttrGroupId| gid@ < a.attribute_group_defs().len() implies #[trigger] group_resolved(
        a.attribute_group_defs()[gid@ as int],
        b.attribute_group_defs()[gid@ as int],
        gid,
        fs,
        a.symbols(),
    ) by {}
}

impl Loader {
    /// Settles every fixup in the order recorded, then reports each name
    /// that was never declared: as an error, or as a warning under lax
    /// conformance. A slot whose name was never declared keeps what it held,
    /// except an element's or attribute's type, which becomes `xs:anyType`
    /// or `xs:anySimpleType` so the graph stays traversable.
    pub(crate) fn resolve_references(&mut self, mode: Conformance)
        requires
            old(self).wf(),
            refs_in_range(*old(self)),
        ensures
            final(self).wf(),
            resolution(*old(self), *final(self), mode),
    {
        let ghost start = *old(self);
        let ghost orig = old(self).fixups@;
        let mut fixups: Vec<Fixup> = Vec::new();
        std::mem::swap(&mut fixups, &mut self.fixups);
        proof {
            lemma_resolved_by_nothing(start, *self);
            assert(orig.take(0) =~= Seq::<Fixup>::empty());
            reveal(Seq::filter);
            assert(unresolved_in(orig.take(0), start.symbols()) =~= Seq::<Fixup>::empty());
        }
        let mut unresolved: Vec<Fixup> = Vec::new();
        while fixups.len() > 0
            invariant
                fixups@.len() <= orig.len(),
                fixups@ == orig.skip(orig.len() - fixups@.len()),
                orig == start.pending(),
                refs_in_range(start),
                start.wf(),
                self.wf(),
                resolved_by(start, *self, orig.take(orig.len() - fixups@.len())),
                unresolved@ == unresolved_in(orig.take(orig.len() - fixups@.len()), start.symbols()),
                forall|k: int| 0 <= k < unresolved@.len() ==> #[trigger] fixup_in_range(start, unresolved@[k]),
                self.globals == start.globals,
                self.builtins == start.builtins,
                self.names == start.names,
                self.model_groups == start.model_groups,
                self.notations == start.notations,
                self.annotations == start.annotations,
                self.documents == start.documents,
                self.version == start.version,
                self.diags == start.diags,
                self.fixups@.len() == 0,
            decreases fixups.len(),
        {
            let ghost k = orig.len() - fixups@.len();
            let f = fixups.remove(0);
            proof {
                assert(f == orig[k]);
                assert(fixup_in_range(start, orig[k]));
                assert(fixups@ =~= orig.skip(k + 1));
            }
            let ok = self.apply_fixup(&f, Ghost(start), Ghost(orig.take(k)));
            proof {
                assert(orig.take(k).push(f) =~= orig.take(k + 1));
                reveal(Seq::filter);
                assert(orig.take(k + 1).drop_last() =~= orig.take(k));
            }
            if !ok {
                unresolved.push(f);
            }
        }
        assert(orig.take(orig.len() as int) =~= orig);
        let ghost u = unresolved@;
        let total = unresolved.len();
        let ghost n = start.diags@.len();
        assert(self.diags@.take(n as int) =~= start.diags@);
        let mut j: usize = 0;
        while unresolved.len() > 0
            invariant
                u.len() == j + unresolved@.len(),
                unresolved@ == u.skip(j as int),
                self.wf(),
                self.diags@.len() == n + j,
                self.diags@.take(n as int) == start.diags@,
                u.len() == total,
                forall|k: int| 0 <= k < u.len() ==> #[trigger] fixup_in_range(start, u[k]),
                forall|k: int| 0 <= k < j ==> reports_unresolved(#[trigger] self.diags@[n + k], u[k], start.interned(), mode),
                start.wf(),
                resolved_by(start, *self, orig),
                self.names == start.names,
                self.globals == start.globals,
                self.builtins == start.builtins,
                self.model_groups == start.model_groups,
                self.notations == start.notations,
                self.annotations == start.annotations,
                self.documents == start.documents,
                self.version == start.version,
                self.fixups@.len() == 0,
            decreases unresolved.len(),
        {
            let f = unresolved.remove(0);
            assert(f == u[j as int]);
            assert(fixup_in_range(start, u[j as int]));
            let (space, name, span) = fixup_parts(f);
            let shown = self.names.display(name);
            let mut msg: Vec<char> = Vec::new();
            push_str(&mut msg, "no ");
            push_str(&mut msg, space.as_str());
            push_str(&mut msg, " named `");
            push_str(&mut msg, shown.as_str());
            push_str(&mut msg, "`");
            let text = string_from_chars(&msg);
            let d = match mode {
                Conformance::Lax => Diagnostic::warning(DiagCode::UnresolvedReference, text.as_str()),
                Conformance::Strict => Diagnostic::error(DiagCode::UnresolvedReference, text.as_str()),
            };
            let d = d.at(span).with_help("check the spelling, or add an xs:import for its namespace");
            let ghost before = self.diags@;
            self.diags.push(d);
            proof {
                assert(msg@ =~= "no "@ + space.spec_as_str()@ + " named `"@ + shown@ + "`"@);
                assert(d.spans@ =~= seq![fixup_span(f)]);
                assert(self.diags@[n + j] == d);
                assert(self.diags@.take(n as int) =~= before.take(n as int));
                assert(unresolved@ =~= u.skip(j + 1));
            }
            j += 1;
        }
    }
}

} // verus!
