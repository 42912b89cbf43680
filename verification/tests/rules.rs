use xsdkit::content::{extend_unique, wildcards_overlap};
use xsdkit::datatypes::{FacetKind, FacetSet, Variety, WhiteSpace};
use xsdkit::declarations::keyword;
use xsdkit::derivation::blocks;
use xsdkit::diagnostics::{DiagCode, Diagnostic, Diagnostics, Span};
use xsdkit::groups::{check_position, GroupPosition};
use xsdkit::instance::{count_lines, declared_namespaces, predefined_entity, RawAttr, ValidationReport};
use xsdkit::load::Version;
use xsdkit::model::{
    DerivationSet, ElementId, MaxOccurs, NamespaceConstraint, Particle, ProcessContents, SimpleType, Term, TypeId,
    ValueConstraint, Wildcard,
};
use xsdkit::names::Interner;

fn simple(facets: FacetSet) -> SimpleType {
    SimpleType {
        name: None,
        base: TypeId::from_index(0),
        variety: Variety::Atomic,
        primitive: None,
        builtin: None,
        item_type: None,
        member_types: vec![],
        facets,
        final_: DerivationSet::default(),
        annotation: None,
        span: Span::new("u", 3),
    }
}

#[test]
fn contradictory_facets_at_one_step_are_each_reported() {
    let mut f = FacetSet::new();
    f.length = Some(3);
    f.min_length = Some(5);
    f.max_length = Some(4);
    f.total_digits = Some(0);
    f.fraction_digits = Some(2);
    let mut diags = Diagnostics::new();
    let span = Span::labelled("file:///t.xsd", 9, "here");
    xsdkit::facets::consistent(&simple(f), &span, &mut diags);
    let msgs: Vec<String> = diags.iter().iter().map(|d| d.message.clone()).collect();
    assert_eq!(
        msgs,
        vec![
            "`xs:length` and `xs:minLength` cannot both be declared here",
            "`xs:length` and `xs:maxLength` cannot both be declared here",
            "`xs:minLength` 5 exceeds `xs:maxLength` 4",
            "`xs:fractionDigits` 2 exceeds `xs:totalDigits` 0",
            "`xs:totalDigits` must be at least 1",
        ]
    );
    assert!(diags.iter().iter().all(|d| d.code == DiagCode::ConflictingFacets && d.spans[0] == span));
    let mut none = Diagnostics::new();
    xsdkit::facets::consistent(&simple(FacetSet::new()), &span, &mut none);
    assert!(none.is_empty());
}

#[test]
fn declared_kinds_follow_the_facet_list() {
    let mut f = FacetSet::new();
    f.white_space = Some(WhiteSpace::Collapse);
    f.length = Some(1);
    f.assertions = vec!["$value > 0".to_string()];
    assert_eq!(
        xsdkit::facets::declared_kinds(&f),
        vec![FacetKind::Length, FacetKind::WhiteSpace, FacetKind::Assertion]
    );
    assert!(xsdkit::facets::declared_kinds(&FacetSet::new()).is_empty());
}

#[test]
fn final_bars_the_methods_it_names() {
    let set = DerivationSet::parse("extension list");
    assert!(blocks(set, "extension"));
    assert!(blocks(set, "list"));
    assert!(!blocks(set, "restriction"));
    assert!(!blocks(DerivationSet::all(), "substitution"));
    assert_eq!(keyword(&ValueConstraint::Fixed("1".into())), "fixed");
    assert_eq!(keyword(&ValueConstraint::Default("1".into())), "default");
}

fn particle(min: u32, max: MaxOccurs) -> Particle {
    Particle { min_occurs: min, max_occurs: max, term: Term::Element(ElementId::from_index(0)), span: Span::new("g", 2) }
}

#[test]
fn an_all_group_may_only_sit_where_the_version_allows() {
    let mut diags = Diagnostics::new();
    check_position(&particle(1, MaxOccurs::Bounded(1)), GroupPosition::ContentModel, Version::Xsd10, &mut diags);
    check_position(&particle(1, MaxOccurs::Bounded(1)), GroupPosition::InsideAll, Version::Xsd11, &mut diags);
    assert!(diags.is_empty());
    check_position(&particle(1, MaxOccurs::Unbounded), GroupPosition::ContentModel, Version::Xsd10, &mut diags);
    check_position(&particle(1, MaxOccurs::Bounded(1)), GroupPosition::InsideAll, Version::Xsd10, &mut diags);
    check_position(&particle(0, MaxOccurs::Bounded(1)), GroupPosition::InsideAll, Version::Xsd11, &mut diags);
    check_position(&particle(1, MaxOccurs::Bounded(1)), GroupPosition::InsideOrdered, Version::Xsd11, &mut diags);
    assert_eq!(diags.len(), 4);
    let first = &diags.iter()[0];
    assert_eq!(first.message, "an `xs:all` group may not have `maxOccurs` greater than 1");
    assert_eq!(first.code, DiagCode::InvalidOccurrence);
    assert_eq!(first.help.as_deref(), Some("an `xs:all` matches its members in any order, which cannot be repeated"));
    assert_eq!(diags.iter()[1].help.as_deref(), Some("nesting an `xs:all` needs XSD 1.1"));
}

#[test]
fn instance_reading_rules() {
    assert_eq!(predefined_entity("amp"), Some("&"));
    assert_eq!(predefined_entity("apos"), Some("'"));
    assert_eq!(predefined_entity("nbsp"), None);
    assert_eq!(count_lines("a\nb\nc", 0), 1);
    assert_eq!(count_lines("a\nb\nc", 2), 2);
    assert_eq!(count_lines("a\nb\nc", 99), 3);
    let attrs = vec![
        RawAttr { namespace: Some("http://www.w3.org/2000/xmlns/".into()), local: "p".into(), value: "urn:p".into() },
        RawAttr { namespace: None, local: "xmlns".into(), value: "urn:d".into() },
        RawAttr { namespace: None, local: "id".into(), value: "x".into() },
    ];
    assert_eq!(
        declared_namespaces(&attrs),
        vec![(Some("p".to_string()), "urn:p".to_string()), (None, "urn:d".to_string())]
    );
    let mut d = Diagnostics::new();
    d.push(Diagnostic::warning(DiagCode::Unsupported, "w"));
    let mut report = ValidationReport { diagnostics: d };
    assert!(report.is_valid());
    report.diagnostics.push(Diagnostic::error(DiagCode::InvalidValue, "e"));
    assert!(!report.is_valid());
}

#[test]
fn extending_keeps_positions_unique() {
    let mut v = vec![3, 1];
    extend_unique(&mut v, &[1, 4, 4, 2, 3]);
    assert_eq!(v, vec![3, 1, 4, 2]);
}

#[test]
fn wildcards_overlap_where_some_namespace_meets_both() {
    let mut i = Interner::new();
    let a = i.opt_namespace("urn:a");
    let b = i.opt_namespace("urn:b");
    let w = |ns: NamespaceConstraint| Wildcard {
        namespace: ns,
        process_contents: ProcessContents::Lax,
        not_qname: vec![],
        not_defined: false,
        not_defined_sibling: false,
    };
    assert!(wildcards_overlap(&w(NamespaceConstraint::Any), &w(NamespaceConstraint::Enumeration(vec![]))));
    assert!(!wildcards_overlap(&w(NamespaceConstraint::Enumeration(vec![a])), &w(NamespaceConstraint::Enumeration(vec![b]))));
    assert!(wildcards_overlap(&w(NamespaceConstraint::Enumeration(vec![a, b])), &w(NamespaceConstraint::Enumeration(vec![b]))));
    assert!(!wildcards_overlap(&w(NamespaceConstraint::Enumeration(vec![a])), &w(NamespaceConstraint::Not(vec![a]))));
    assert!(wildcards_overlap(&w(NamespaceConstraint::Not(vec![a])), &w(NamespaceConstraint::Enumeration(vec![None]))));
    assert!(wildcards_overlap(&w(NamespaceConstraint::Not(vec![a])), &w(NamespaceConstraint::Not(vec![b]))));
}
