use xsdkit::datatypes::Builtin;
use xsdkit::diagnostics::Span;
use xsdkit::load::Conformance;
use xsdkit::model::{
    DerivationSet, ElementDecl, ElementId, Scope, TypeDefinition, TypeId,
};
use xsdkit::names::XS;
use xsdkit::compile::{compile, Loader};

fn none() -> DerivationSet {
    DerivationSet { extension: false, restriction: false, substitution: false, list: false, union: false }
}

fn element(l: &mut Loader, local: &str, type_id: TypeId, heads: Vec<ElementId>, is_abstract: bool) -> ElementId {
    let name = l.qname(Some("urn:x"), local);
    let id = l.add_element(ElementDecl {
        name,
        type_id,
        scope: Scope::Global,
        nillable: false,
        is_abstract,
        substitution_group: heads,
        value_constraint: None,
        block: none(),
        final_: none(),
        identity_constraints: Vec::new(),
        annotation: None,
        span: Span::new("mem:test", 1),
    });
    l.globals_mut().elements.insert(name, id);
    id
}

#[test]
fn a_new_loader_holds_the_builtins_and_predeclared_attributes() {
    let l = Loader::new();
    let (s, diags) = compile(l, Conformance::Strict);
    assert!(diags.is_empty());
    let counts = s.component_counts();
    assert_eq!(counts.types, 51);
    assert_eq!(counts.attributes, 8);
    let string = s.type_id(Some(XS), "string").unwrap();
    assert_eq!(string, s.builtin(Builtin::String));
    assert_eq!(s.as_builtin(string), Some(Builtin::String));
    let lang = s.attribute_id(Some("http://www.w3.org/XML/1998/namespace"), "lang").unwrap();
    let decl = s.get_attribute(lang).unwrap();
    assert_eq!(decl.type_id, s.builtin(Builtin::Language));
    assert!(s.attribute_id(Some("http://www.w3.org/2001/XMLSchema-instance"), "nil").is_some());
    assert!(s.type_id(Some(XS), "nonsense").is_none());
    assert!(s.type_id(None, "string").is_none());
    assert_eq!(s.display_name(s.get_type(string).unwrap().name().unwrap()), "{http://www.w3.org/2001/XMLSchema}string");
}

#[test]
fn base_chains_climb_to_any_type() {
    let (s, _) = compile(Loader::new(), Conformance::Strict);
    let int = s.builtin(Builtin::Int);
    let chain: Vec<TypeId> = s.base_chain(int);
    let expected: Vec<TypeId> = [Builtin::Int, Builtin::Long, Builtin::Integer, Builtin::Decimal, Builtin::AnyAtomicType, Builtin::AnySimpleType, Builtin::AnyType]
        .iter()
        .map(|b| s.builtin(*b))
        .collect();
    assert_eq!(chain, expected);
    // xs:anyType is complex, so it is no simple built-in.
    assert_eq!(s.as_builtin(s.builtin(Builtin::AnyType)), None);
    assert!(s.derives_from(int, s.builtin(Builtin::Decimal)));
    assert!(!s.derives_from(s.builtin(Builtin::Decimal), int));
    let restriction_only = DerivationSet { restriction: true, ..none() };
    assert!(!s.derives_from_unblocked(int, s.builtin(Builtin::Decimal), restriction_only));
    assert!(s.derives_from_unblocked(int, int, restriction_only));
    assert!(s.derives_from_unblocked(int, s.builtin(Builtin::Decimal), none()));
    match s.get_type(s.builtin(Builtin::AnyType)).unwrap() {
        TypeDefinition::Complex(c) => assert_eq!(c.base, s.builtin(Builtin::AnyType)),
        TypeDefinition::Simple(_) => panic!("xs:anyType is complex"),
    }
}

#[test]
fn substitution_is_transitive_and_skips_abstract_members() {
    let mut l = Loader::new();
    let any = l.builtin(Builtin::AnyType);
    let head = element(&mut l, "shape", any, vec![], true);
    let middle = element(&mut l, "polygon", any, vec![head], true);
    let square = element(&mut l, "square", any, vec![middle], false);
    let circle = element(&mut l, "circle", any, vec![head], false);
    let loner = element(&mut l, "loner", any, vec![], false);
    let (s, _) = compile(l, Conformance::Strict);
    // The head is abstract, so it is not among what may appear.
    assert_eq!(s.substitution_closure(head), vec![square, circle]);
    assert_eq!(s.substitution_closure(middle), vec![square]);
    assert_eq!(s.substitution_closure(loner), vec![loner]);
    assert_eq!(s.substitutable_for(head), vec![square, circle]);
    assert_eq!(s.element_id(Some("urn:x"), "square"), Some(square));
    assert_eq!(s.element_id(Some("urn:y"), "square"), None);
}

#[test]
fn an_element_whose_type_never_resolved_becomes_any_type() {
    let mut l = Loader::new();
    let e = element(&mut l, "orphan", TypeId::placeholder(), vec![], false);
    let (s, _) = compile(l, Conformance::Strict);
    assert_eq!(s.get_element(e).unwrap().type_id, s.builtin(Builtin::AnyType));
}
