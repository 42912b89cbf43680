use xsdkit::model::{
    Annotation, AppInfo, Arena, ContentType, DerivationSet, MaxOccurs, NamespaceConstraint, ParticleId,
    ProcessContents, SymbolSpace, TypeId, ValueConstraint, Wildcard,
};
use xsdkit::names::{Interner, QName};

#[test]
fn derivation_sets_parse() {
    assert_eq!(DerivationSet::parse("#all"), DerivationSet::all());
    let d = DerivationSet::parse("extension restriction");
    assert!(d.extension && d.restriction && !d.substitution);
    assert!(DerivationSet::parse("").is_empty());
    assert!(DerivationSet::parse("nonsense").is_empty());
}

#[test]
fn max_occurs_repetition() {
    assert!(!MaxOccurs::Bounded(1).is_repeating());
    assert!(!MaxOccurs::Bounded(0).is_repeating());
    assert!(MaxOccurs::Bounded(2).is_repeating());
    assert!(MaxOccurs::Unbounded.is_repeating());
    assert_eq!(MaxOccurs::Unbounded.as_u32(), None);
}

#[test]
fn namespace_constraints_admit_the_right_names() {
    let any = NamespaceConstraint::Any;
    assert!(any.admits(None));
    let not_none = NamespaceConstraint::Not(vec![None]);
    assert!(!not_none.admits(None));
    let enumerated = NamespaceConstraint::Enumeration(vec![None]);
    assert!(enumerated.admits(None));
}

#[test]
fn placeholders_are_recognisable() {
    assert!(TypeId::placeholder().is_placeholder());
    assert!(!TypeId::from_index(0).is_placeholder());
}

#[test]
fn derivation_set_words_need_not_be_alone() {
    let d = DerivationSet::parse("  list\tunion  extension\n");
    assert!(d.list && d.union && d.extension && !d.restriction && !d.substitution);
    // `#all` only counts alone.
    let e = DerivationSet::parse("#all list");
    assert!(e.list && !e.extension);
    assert_eq!(DerivationSet::parse(" #all "), DerivationSet::all());
    let u = DerivationSet::parse("list").union(DerivationSet::parse("substitution"));
    assert!(u.list && u.substitution && !u.union);
    assert_eq!(DerivationSet::keywords()[2], "substitution");
}

fn namespaces() -> (Interner, Option<xsdkit::names::Namespace>, Option<xsdkit::names::Namespace>) {
    let mut i = Interner::new();
    let a = i.opt_namespace("urn:a");
    let b = i.opt_namespace("urn:b");
    (i, a, b)
}

#[test]
fn wildcard_intersection_admits_what_both_admit() {
    let (_, a, b) = namespaces();
    let not_a = NamespaceConstraint::Not(vec![a]);
    let only_ab = NamespaceConstraint::Enumeration(vec![a, b, None]);
    let both = not_a.intersect(&only_ab);
    assert_eq!(both, NamespaceConstraint::Enumeration(vec![b, None]));
    let nots = not_a.intersect(&NamespaceConstraint::Not(vec![b, a]));
    assert_eq!(nots, NamespaceConstraint::Not(vec![a, b]));
    assert_eq!(NamespaceConstraint::Any.intersect(&not_a), not_a);
    for ns in [a, b, None] {
        assert_eq!(both.admits(ns), not_a.admits(ns) && only_ab.admits(ns));
    }
}

#[test]
fn wildcard_union_admits_what_either_admits() {
    let (_, a, b) = namespaces();
    let not_a = NamespaceConstraint::Not(vec![a, None]);
    let only_a = NamespaceConstraint::Enumeration(vec![a]);
    let either = not_a.union(&only_a);
    assert_eq!(either, NamespaceConstraint::Not(vec![None]));
    assert!(either.admits(a) && either.admits(b) && !either.admits(None));
    let lists = only_a.union(&NamespaceConstraint::Enumeration(vec![b, a]));
    assert_eq!(lists, NamespaceConstraint::Enumeration(vec![a, b]));
    assert_eq!(not_a.union(&NamespaceConstraint::Any), NamespaceConstraint::Any);
    let nots = not_a.union(&NamespaceConstraint::Not(vec![None, b]));
    assert_eq!(nots, NamespaceConstraint::Not(vec![None]));
}

#[test]
fn wildcards_exclude_what_either_excludes_when_intersected() {
    let mut i = Interner::new();
    let x = i.qname(None, "x");
    let y = i.qname(None, "y");
    let w1 = Wildcard {
        namespace: NamespaceConstraint::Any,
        process_contents: ProcessContents::Lax,
        not_qname: vec![x],
        not_defined: true,
        not_defined_sibling: false,
    };
    let w2 = Wildcard {
        namespace: NamespaceConstraint::Enumeration(vec![None]),
        process_contents: ProcessContents::Strict,
        not_qname: vec![y, x],
        not_defined: false,
        not_defined_sibling: true,
    };
    let both = w1.intersect(&w2);
    assert_eq!(both.not_qname, vec![x, y]);
    assert_eq!(both.process_contents, ProcessContents::Lax);
    assert!(both.not_defined && both.not_defined_sibling);
    assert_eq!(both.namespace, NamespaceConstraint::Enumeration(vec![None]));
    let either = w1.union(&w2);
    assert_eq!(either.not_qname, vec![x]);
    assert!(!either.not_defined && !either.not_defined_sibling);
    assert_eq!(either.namespace, NamespaceConstraint::Any);
    let _: QName = x;
}

#[test]
fn small_components_answer_directly() {
    assert_eq!(ValueConstraint::Fixed("3".to_string()).value(), "3");
    assert!(ValueConstraint::Fixed("3".to_string()).is_fixed());
    assert!(!ValueConstraint::Default("3".to_string()).is_fixed());
    let p = ParticleId::from_index(4);
    assert_eq!(ContentType::Mixed(p).particle(), Some(p));
    assert_eq!(ContentType::ElementOnly(ParticleId::placeholder()).particle(), None);
    assert_eq!(ContentType::Empty.particle(), None);
    assert!(ContentType::Mixed(p).is_mixed());
    assert_eq!(SymbolSpace::AttributeGroup.as_str(), "attribute group");
    let mut arena: Arena<u8> = Arena::new();
    assert!(arena.is_empty());
    assert_eq!(arena.push(7), 0);
    assert_eq!(arena.push(9), 1);
    assert_eq!(*arena.get(1), 9);
    assert_eq!(arena.iter(), &[7, 9]);
    assert_eq!(arena.len(), 2);
    let a = Annotation {
        documentation: vec!["one".to_string(), "two".to_string()],
        appinfo: vec![AppInfo { source: None, xml: String::new() }],
    };
    assert_eq!(a.doc(), "one\n\ntwo");
    assert!(!a.is_empty());
    assert!(Annotation::default().is_empty());
    assert_eq!(TypeId::from_index(3).index(), 3);
}

#[test]
fn a_namespace_uri_is_admitted_by_what_it_is_interned_as() {
    let mut names = Interner::new();
    let x = names.intern("urn:x");
    let ns = xsdkit::names::Namespace::from_symbol(x);
    let only_x = NamespaceConstraint::Enumeration(vec![Some(ns)]);
    let not_x = NamespaceConstraint::Not(vec![Some(ns)]);
    assert!(only_x.admits_uri(&names, Some("urn:x")));
    assert!(!only_x.admits_uri(&names, Some("urn:never")));
    assert!(!only_x.admits_uri(&names, None));
    assert!(!not_x.admits_uri(&names, Some("urn:x")));
    assert!(not_x.admits_uri(&names, Some("urn:never")));
    assert!(not_x.admits_uri(&names, Some("")));
    assert!(NamespaceConstraint::Any.admits_uri(&names, Some("urn:never")));
}
