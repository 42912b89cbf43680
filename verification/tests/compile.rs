use xsdkit::compile::{compile, Fixup, Loader};
use xsdkit::datatypes::{Builtin, FacetSet, Variety};
use xsdkit::derivation::check_all as check_derivations;
use xsdkit::declarations::is_id;
use xsdkit::diagnostics::{DiagCode, Severity, Span};
use xsdkit::groups::check_all as check_groups;
use xsdkit::load::{Conformance, Version};
use xsdkit::model::{
    AttrGroupId, AttributeDecl, AttributeGroupDef, AttributeUse, AttributeUseKind, Compositor, ComplexType,
    ContentType, DerivationMethod, DerivationSet, MaxOccurs, ModelGroup, ModelGroupDef, Particle, Scope,
    SimpleType, Term, TypeDefinition, TypeId,
};
use xsdkit::names::QName;

fn none() -> DerivationSet {
    DerivationSet { extension: false, restriction: false, substitution: false, list: false, union: false }
}

fn span(line: u32) -> Span {
    Span::new("mem:test", line)
}

fn simple(name: Option<QName>, base: TypeId, line: u32) -> TypeDefinition {
    TypeDefinition::Simple(SimpleType {
        name,
        base,
        variety: Variety::Atomic,
        primitive: None,
        builtin: None,
        item_type: None,
        member_types: Vec::new(),
        facets: FacetSet::default(),
        final_: none(),
        annotation: None,
        span: span(line),
    })
}

fn complex(name: Option<QName>, base: TypeId, content: ContentType, line: u32) -> ComplexType {
    ComplexType {
        name,
        base,
        derivation: DerivationMethod::Restriction,
        content,
        attribute_uses: Vec::new(),
        attribute_group_refs: Vec::new(),
        attribute_wildcard: None,
        open_content: None,
        is_abstract: false,
        block: none(),
        final_: none(),
        annotation: None,
        span: span(line),
    }
}

fn attribute(l: &mut Loader, local: &str) -> xsdkit::model::AttributeId {
    let name = l.qname(None, local);
    let string = l.builtin(Builtin::String);
    l.add_attribute(AttributeDecl {
        name,
        type_id: string,
        scope: Scope::Global,
        value_constraint: None,
        annotation: None,
        span: span(1),
    })
}

fn uses(a: xsdkit::model::AttributeId) -> AttributeUse {
    AttributeUse { attribute: a, kind: AttributeUseKind::Optional, value_constraint: None }
}

fn group(l: &mut Loader, local: &str, own: Vec<AttributeUse>, refs: Vec<AttrGroupId>, line: u32) -> AttrGroupId {
    let name = l.qname(Some("urn:x"), local);
    let id = l.add_attribute_group(AttributeGroupDef {
        name,
        attribute_uses: own,
        attribute_group_refs: refs,
        attribute_wildcard: None,
        annotation: None,
        span: span(line),
    });
    l.globals_mut().attribute_groups.insert(name, id);
    id
}

#[test]
fn a_base_written_by_name_resolves_to_the_declared_type() {
    let mut l = Loader::new();
    let name = l.qname(Some("urn:x"), "size");
    let t = l.add_type(simple(Some(name), TypeId::placeholder(), 3));
    l.globals_mut().types.insert(name, t);
    let int = l.qname(Some(xsdkit::names::XS), "int");
    l.add_fixup(Fixup::SimpleBase { type_: t, name: int, span: span(3) });
    let (s, diags) = compile(l, Conformance::Strict);
    assert!(diags.is_empty());
    assert_eq!(s.get_type(t).unwrap().base(), s.builtin(Builtin::Int));
    assert!(s.derives_from(t, s.builtin(Builtin::Decimal)));
}

#[test]
fn a_name_never_declared_is_reported_with_its_symbol_space() {
    let mut l = Loader::new();
    let t = l.add_type(simple(None, TypeId::placeholder(), 4));
    let missing = l.qname(Some("urn:x"), "missing");
    l.add_fixup(Fixup::SimpleBase { type_: t, name: missing, span: span(4) });
    let (_, diags) = compile(l, Conformance::Strict);
    assert_eq!(diags.len(), 1);
    let d = &diags.iter()[0];
    assert_eq!(d.code, DiagCode::UnresolvedReference);
    assert_eq!(d.severity, Severity::Error);
    assert_eq!(d.message, "no type named `{urn:x}missing`");
    assert_eq!(d.help.as_deref(), Some("check the spelling, or add an xs:import for its namespace"));
    assert_eq!(d.spans[0].line, 4);
}

#[test]
fn lax_conformance_makes_an_unresolved_name_a_warning() {
    let mut l = Loader::new();
    let t = l.add_type(simple(None, TypeId::placeholder(), 4));
    let missing = l.qname(None, "gone");
    l.add_fixup(Fixup::SimpleBase { type_: t, name: missing, span: span(4) });
    let (_, diags) = compile(l, Conformance::Lax);
    assert_eq!(diags.len(), 1);
    assert_eq!(diags.iter()[0].severity, Severity::Warning);
    assert_eq!(diags.iter()[0].message, "no type named `gone`");
    assert!(!diags.has_errors());
}

#[test]
fn attribute_groups_flatten_into_the_types_that_use_them() {
    let mut l = Loader::new();
    let a = attribute(&mut l, "a");
    let b = attribute(&mut l, "b");
    let c = attribute(&mut l, "c");
    let inner = group(&mut l, "inner", vec![uses(b), uses(a)], vec![], 2);
    let outer = group(&mut l, "outer", vec![uses(a)], vec![inner], 3);
    let any = l.builtin(Builtin::AnyType);
    let mut ct = complex(None, any, ContentType::Empty, 5);
    ct.attribute_uses = vec![uses(c), uses(b)];
    ct.attribute_group_refs = vec![outer];
    let t = l.add_type(TypeDefinition::Complex(ct));
    let (s, diags) = compile(l, Conformance::Strict);
    assert!(diags.is_empty());
    let outer_uses: Vec<_> = s.get_attribute_group(outer).unwrap().attribute_uses.iter().map(|u| u.attribute).collect();
    assert_eq!(outer_uses, vec![a, b]);
    let type_uses: Vec<_> = s.attribute_uses(t).iter().map(|u| u.attribute).collect();
    assert_eq!(type_uses, vec![c, b, a]);
}

#[test]
fn an_attribute_group_that_refers_to_itself_is_reported_once() {
    let mut l = Loader::new();
    let a = attribute(&mut l, "a");
    let g0 = AttrGroupId::from_index(0);
    let g1 = AttrGroupId::from_index(1);
    let first = group(&mut l, "first", vec![uses(a)], vec![g1], 7);
    let second = group(&mut l, "second", vec![], vec![g0], 8);
    assert_eq!((first, second), (g0, g1));
    let (s, diags) = compile(l, Conformance::Strict);
    assert_eq!(diags.len(), 1);
    let d = &diags.iter()[0];
    assert_eq!(d.code, DiagCode::CircularDefinition);
    assert_eq!(d.message, "attribute group `{urn:x}first` references itself");
    assert_eq!(d.spans[0].line, 7);
    let second_uses: Vec<_> = s.get_attribute_group(second).unwrap().attribute_uses.iter().map(|u| u.attribute).collect();
    assert!(second_uses.is_empty());
    let first_uses: Vec<_> = s.get_attribute_group(first).unwrap().attribute_uses.iter().map(|u| u.attribute).collect();
    assert_eq!(first_uses, vec![a]);
}

#[test]
fn simple_content_takes_its_simple_base() {
    let mut l = Loader::new();
    let decimal = l.builtin(Builtin::Decimal);
    let price = l.add_type(TypeDefinition::Complex(complex(None, decimal, ContentType::Simple(TypeId::placeholder()), 2)));
    let discounted = l.add_type(TypeDefinition::Complex(complex(None, price, ContentType::Simple(TypeId::placeholder()), 3)));
    let (s, _) = compile(l, Conformance::Strict);
    match s.get_type(price).unwrap() {
        TypeDefinition::Complex(c) => assert_eq!(c.content, ContentType::Simple(decimal)),
        _ => panic!("complex"),
    }
    match s.get_type(discounted).unwrap() {
        TypeDefinition::Complex(c) => assert_eq!(c.content, ContentType::Simple(decimal)),
        _ => panic!("complex"),
    }
}

#[test]
fn types_derived_from_themselves_are_reported_once_each_where_the_walks_meet() {
    let mut l = Loader::new();
    let n0 = l.qname(Some("urn:x"), "a");
    let n1 = l.qname(Some("urn:x"), "b");
    let first = TypeId::from_index(51);
    let second = TypeId::from_index(52);
    assert_eq!(l.add_type(simple(Some(n0), second, 10)), first);
    assert_eq!(l.add_type(simple(Some(n1), first, 11)), second);
    let below = l.add_type(simple(None, first, 12));
    let (s, diags) = compile(l, Conformance::Strict);
    // The walks from `a` meet at `a`, those from `b` at `b`; the walks from
    // the type below meet at `b` again, which is not reported twice.
    assert_eq!(diags.len(), 2);
    let d = &diags.iter()[0];
    assert_eq!(d.code, DiagCode::CircularDefinition);
    assert_eq!(d.severity, Severity::Error);
    assert_eq!(d.message, "type `{urn:x}a` is derived from itself");
    assert_eq!(d.spans[0].line, 10);
    assert_eq!(diags.iter()[1].message, "type `{urn:x}b` is derived from itself");
    assert_eq!(diags.iter()[1].spans[0].line, 11);
    assert!(s.get_type(below).is_some());
}

#[test]
fn anonymous_types_on_a_cycle_are_named_so_and_a_top_type_is_none() {
    let mut l = Loader::new();
    let looped = TypeId::from_index(51);
    assert_eq!(l.add_type(simple(None, TypeId::from_index(52), 5)), looped);
    l.add_type(simple(None, looped, 6));
    // A type that is its own base is the top of a branch, not a cycle.
    l.add_type(simple(None, TypeId::from_index(53), 7));
    let (_, diags) = compile(l, Conformance::Strict);
    assert_eq!(diags.len(), 2);
    assert_eq!(diags.iter()[0].message, "type `<anonymous>` is derived from itself");
}

#[test]
fn a_sealed_base_refuses_the_derivation_its_final_names() {
    let mut l = Loader::new();
    let sealed = l.qname(Some("urn:x"), "sealed");
    let mut def = simple(Some(sealed), l.builtin(Builtin::String), 2);
    if let TypeDefinition::Simple(s) = &mut def {
        s.final_ = DerivationSet { restriction: true, ..none() };
    }
    let base = l.add_type(def);
    let child = l.qname(Some("urn:x"), "child");
    l.add_type(simple(Some(child), base, 3));
    let (s, diags) = compile(l, Conformance::Strict);
    assert!(diags.is_empty());
    let found = check_derivations(&s);
    assert_eq!(found.len(), 1);
    let d = &found.iter()[0];
    assert_eq!(d.code, DiagCode::DerivationBlocked);
    assert_eq!(d.message, "{urn:x}child cannot derive from {urn:x}sealed by restriction");
    assert_eq!(d.help.as_deref(), Some("its `final` forbids restriction"));
    assert_eq!(d.spans[0].line, 3);
}

#[test]
fn an_anonymous_type_is_named_so_in_a_refusal() {
    let mut l = Loader::new();
    let mut def = simple(None, l.builtin(Builtin::String), 2);
    if let TypeDefinition::Simple(s) = &mut def {
        s.final_ = DerivationSet { list: true, ..none() };
    }
    let item = l.add_type(def);
    l.add_type(TypeDefinition::Simple(SimpleType {
        name: None,
        base: l.builtin(Builtin::AnySimpleType),
        variety: Variety::List,
        primitive: None,
        builtin: None,
        item_type: Some(item),
        member_types: Vec::new(),
        facets: FacetSet::default(),
        final_: none(),
        annotation: None,
        span: span(4),
    }));
    let (s, _) = compile(l, Conformance::Strict);
    let found = check_derivations(&s);
    assert_eq!(found.len(), 1);
    assert_eq!(found.iter()[0].message, "an anonymous type cannot derive from an anonymous type by list");
}

#[test]
fn the_builtins_seal_nothing() {
    let (s, _) = compile(Loader::new(), Conformance::Strict);
    assert!(check_derivations(&s).is_empty());
    assert!(check_groups(&s).is_empty());
}

fn particle(l: &mut Loader, min: u32, max: MaxOccurs, term: Term, line: u32) -> xsdkit::model::ParticleId {
    l.add_particle(Particle { min_occurs: min, max_occurs: max, term, span: span(line) })
}

#[test]
fn an_all_group_inside_a_sequence_is_out_of_place() {
    let mut l = Loader::new();
    let inner = particle(&mut l, 1, MaxOccurs::Bounded(1), Term::Group(ModelGroup { compositor: Compositor::All, particles: vec![] }), 6);
    let outer = particle(&mut l, 1, MaxOccurs::Bounded(1), Term::Group(ModelGroup { compositor: Compositor::Sequence, particles: vec![inner] }), 5);
    let any = l.builtin(Builtin::AnyType);
    l.add_type(TypeDefinition::Complex(complex(None, any, ContentType::ElementOnly(outer), 4)));
    let (s, _) = compile(l, Conformance::Strict);
    let found = check_groups(&s);
    assert_eq!(found.len(), 1);
    let d = &found.iter()[0];
    assert_eq!(d.code, DiagCode::InvalidOccurrence);
    assert_eq!(
        d.message,
        "an `xs:all` group may only be a complex type's whole content model, or a named group definition"
    );
    assert_eq!(d.spans[0].line, 6);
}

#[test]
fn a_repeated_all_member_is_refused_in_xsd_1_0_only() {
    let build = |v: Version| {
        let mut l = Loader::new();
        l.set_version(v);
        let member = particle(&mut l, 0, MaxOccurs::Unbounded, Term::Group(ModelGroup { compositor: Compositor::Sequence, particles: vec![] }), 7);
        let all = particle(&mut l, 1, MaxOccurs::Bounded(1), Term::Group(ModelGroup { compositor: Compositor::All, particles: vec![member] }), 6);
        let any = l.builtin(Builtin::AnyType);
        l.add_type(TypeDefinition::Complex(complex(None, any, ContentType::ElementOnly(all), 4)));
        compile(l, Conformance::Strict).0
    };
    let found = check_groups(&build(Version::Xsd10));
    assert_eq!(found.len(), 1);
    assert_eq!(found.iter()[0].message, "a member of an `xs:all` may not have `maxOccurs` greater than 1");
    assert_eq!(found.iter()[0].spans[0].line, 7);
    assert!(check_groups(&build(Version::Xsd11)).is_empty());
}

#[test]
fn a_group_referenced_inside_an_all_must_be_an_all() {
    let mut l = Loader::new();
    l.set_version(Version::Xsd11);
    let name = l.qname(Some("urn:x"), "seq");
    let g = l.add_model_group(ModelGroupDef {
        name,
        group: ModelGroup { compositor: Compositor::Sequence, particles: vec![] },
        annotation: None,
        span: span(20),
    });
    let member = particle(&mut l, 1, MaxOccurs::Bounded(1), Term::GroupRef(g), 7);
    let all = particle(&mut l, 1, MaxOccurs::Bounded(1), Term::Group(ModelGroup { compositor: Compositor::All, particles: vec![member] }), 6);
    let any = l.builtin(Builtin::AnyType);
    l.add_type(TypeDefinition::Complex(complex(None, any, ContentType::ElementOnly(all), 4)));
    let (s, _) = compile(l, Conformance::Strict);
    let found = check_groups(&s);
    assert_eq!(found.len(), 1);
    let d = &found.iter()[0];
    assert_eq!(d.message, "`{urn:x}seq` is referenced inside an `xs:all`, but it is not an `xs:all` group");
    assert_eq!(d.spans.len(), 2);
    assert_eq!(d.spans[1].line, 20);
    assert_eq!(d.spans[1].label.as_deref(), Some("defined here"));
}

#[test]
fn an_id_is_recognised_through_its_derivations() {
    let mut l = Loader::new();
    let id = l.builtin(Builtin::Id);
    let mine = l.add_type(simple(None, id, 2));
    let (s, _) = compile(l, Conformance::Strict);
    assert!(is_id(&s, mine));
    assert!(is_id(&s, s.builtin(Builtin::Id)));
    assert!(!is_id(&s, s.builtin(Builtin::NcName)));
}

#[test]
fn what_compiling_relies_on_can_be_checked_first() {
    let l = Loader::new();
    assert!(l.refs_ok());
    let mut bad = Loader::new();
    let name = bad.qname(Some("urn:x"), "t");
    bad.add_fixup(Fixup::ElementType {
        element: xsdkit::model::ElementId::from_index(7),
        name,
        span: span(3),
    });
    assert!(!bad.refs_ok());
}
