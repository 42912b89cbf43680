use xsdkit::identity::{parse, Path, PathFault, Paths, Step};
use xsdkit::names::{is_ncname, Interner, XML};
use xsdkit::{Conformance, Resolver, Version};

#[test]
fn a_path_without_descendant_matches_the_whole_stack() {
    let mut i = Interner::new();
    let a = i.qname(None, "a");
    let b = i.qname(Some("urn:x"), "b");
    let p = Path { descendant_or_self: false, steps: vec![Step::Element(Some(a)), Step::Element(None)], attribute: None };
    assert!(p.matches(&[a, b]));
    assert!(!p.matches(&[b, a]));
    assert!(!p.matches(&[a]));
    assert!(!p.matches(&[a, b, b]));
    let tail = Path { descendant_or_self: true, steps: vec![Step::AnyIn(b.ns)], attribute: Some(Some(a)) };
    assert!(tail.matches(&[a, a, b]));
    assert!(!tail.matches(&[a, b, a]));
    assert!(!tail.matches(&[]));
    let paths = Paths(vec![p.clone(), tail.clone()]);
    assert!(paths.matches(&[b, b]));
    assert_eq!(paths.attribute_for(&[b]), Some(Some(a)));
    assert_eq!(paths.attribute_for(&[a, b]), Some(Some(a)));
    assert_eq!(Paths(vec![p]).attribute_for(&[a, b]), None);
}

struct Fixed;

impl Resolver for Fixed {
    fn resolve(&self, location: &str, _base: Option<&str>) -> Result<(String, Vec<u8>), String> {
        Ok((location.to_string(), b"<xs:schema/>".to_vec()))
    }
}

#[test]
fn a_builder_takes_every_setting() {
    let _ = xsdkit::SchemaSetBuilder::new()
        .resolver(Fixed)
        .search_path("schemas/")
        .version(Version::Xsd11)
        .nodes_limit(10)
        .conformance(Conformance::Lax)
        .file("a.xsd")
        .text("<xs:schema/>", "mem:a")
        .bytes(b"<xs:schema/>".to_vec(), "mem:b");
    let _ = xsdkit::SchemaSetBuilder::default();
    assert_eq!(Fixed.resolve("x", None).unwrap().0, "x");
}

fn bindings() -> Vec<(String, String)> {
    vec![("p".to_string(), "urn:p".to_string()), ("q".to_string(), "urn:q".to_string()), ("p".to_string(), "urn:shadowed".to_string())]
}

#[test]
fn selectors_and_fields_parse_into_steps() {
    let mut i = Interner::new();
    let b = bindings();
    let paths = parse(".//p:a/child::b | ./c", false, &b, &mut i).unwrap();
    assert_eq!(paths.0.len(), 2);
    let first = &paths.0[0];
    assert!(first.descendant_or_self);
    let pa = i.qname(Some("urn:p"), "a");
    let nb = i.qname(None, "b");
    let nc = i.qname(None, "c");
    assert_eq!(first.steps, vec![Step::Element(Some(pa)), Step::Element(Some(nb))]);
    assert_eq!(first.attribute, None);
    // `.` adds no step.
    let second = &paths.0[1];
    assert!(!second.descendant_or_self);
    assert_eq!(second.steps, vec![Step::Element(Some(nc))]);

    let field = parse("q:*/*/@p:id", true, &b, &mut i).unwrap();
    let q = i.opt_namespace("urn:q");
    let pid = i.qname(Some("urn:p"), "id");
    assert_eq!(field.0[0].steps, vec![Step::AnyIn(q), Step::Element(None)]);
    assert_eq!(field.0[0].attribute, Some(Some(pid)));

    let xml = parse("@xml:lang", true, &[], &mut i).unwrap();
    let lang = i.qname(Some(XML), "lang");
    assert_eq!(xml.0[0].attribute, Some(Some(lang)));
    assert!(xml.0[0].steps.is_empty());

    let any = parse("attribute::*", true, &[], &mut i).unwrap();
    assert_eq!(any.0[0].attribute, Some(None));
    let itself = parse(".", true, &[], &mut i).unwrap();
    assert!(itself.0[0].steps.is_empty() && itself.0[0].attribute.is_none());
}

#[test]
fn malformed_paths_say_why() {
    let mut i = Interner::new();
    let b = bindings();
    let fault = |t: &str, field: bool, i: &mut Interner| parse(t, field, &b, i).err().map(|e| e.fault);
    assert_eq!(fault("", false, &mut i), Some(PathFault::EmptyPath));
    assert_eq!(fault("a|", false, &mut i), Some(PathFault::EmptyPath));
    assert_eq!(fault(".//", false, &mut i), Some(PathFault::NoStepAfterDescendant));
    assert_eq!(fault("a//b", false, &mut i), Some(PathFault::EmptyStep));
    assert_eq!(fault("@a", false, &mut i), Some(PathFault::AttributeInSelector));
    assert_eq!(fault("@a/b", true, &mut i), Some(PathFault::AttributeNotLast));
    assert_eq!(fault("1a", false, &mut i), Some(PathFault::NotAName));
    assert_eq!(fault("a:b:c", false, &mut i), Some(PathFault::NotAName));
    assert_eq!(fault("z:a", false, &mut i), Some(PathFault::UndeclaredPrefix));
    assert_eq!(fault("z:*", false, &mut i), Some(PathFault::UndeclaredPrefix));
    let e = parse("z:a", false, &b, &mut i).err().unwrap();
    assert_eq!(e.reason, "undeclared prefix `z`");
}

#[test]
fn ncnames_follow_the_xml_name_production() {
    assert!(is_ncname("a"));
    assert!(is_ncname("_x-1.\u{b7}"));
    assert!(is_ncname("\u{e9}t\u{e9}"));
    assert!(!is_ncname(""));
    assert!(!is_ncname("1a"));
    assert!(!is_ncname("-a"));
    assert!(!is_ncname("a:b"));
    assert!(!is_ncname("a b"));
}
