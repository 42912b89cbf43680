use xsdkit::diagnostics::{DiagCode, Diagnostics};
use xsdkit::names::XS;
use xsdkit::representation::{check_representation, XmlAttribute, XmlDocument, XmlElement};

struct Doc(XmlDocument);

impl Doc {
    fn new() -> Doc {
        Doc(XmlDocument { uri: "mem:doc.xsd".to_string(), elements: Vec::new() })
    }

    fn add(&mut self, parent: Option<usize>, local: &str, attrs: &[(&str, &str)], line: u32) -> usize {
        self.add_in(parent, Some(XS), local, attrs, line, true)
    }

    fn add_in(
        &mut self,
        parent: Option<usize>,
        ns: Option<&str>,
        local: &str,
        attrs: &[(&str, &str)],
        line: u32,
        included: bool,
    ) -> usize {
        let i = self.0.elements.len();
        self.0.elements.push(XmlElement {
            namespace: ns.map(|s| s.to_string()),
            local: local.to_string(),
            attributes: attrs
                .iter()
                .map(|(k, v)| XmlAttribute { namespace: None, local: k.to_string(), value: v.to_string() })
                .collect(),
            children: Vec::new(),
            parent,
            line,
            included,
        });
        if let Some(p) = parent {
            self.0.elements[p].children.push(i);
        }
        i
    }

    fn check(&self) -> Vec<(DiagCode, String, Option<String>, u32)> {
        let mut d = Diagnostics::new();
        check_representation(&self.0, &mut d);
        d.iter()
            .iter()
            .map(|x| {
                assert_eq!(x.spans.len(), 1);
                assert_eq!(x.spans[0].uri, "mem:doc.xsd");
                (x.code, x.message.clone(), x.help.clone(), x.spans[0].line)
            })
            .collect()
    }
}

#[test]
fn ids_must_be_ncnames_and_unique() {
    let mut d = Doc::new();
    let s = d.add(None, "schema", &[], 1);
    d.add(Some(s), "element", &[("name", "a"), ("id", "one")], 2);
    d.add(Some(s), "element", &[("name", "b"), ("id", "one")], 3);
    d.add(Some(s), "element", &[("name", "c"), ("id", "1st")], 4);
    let found = d.check();
    assert_eq!(found.len(), 2);
    assert_eq!(found[0].0, DiagCode::DuplicateGlobal);
    assert_eq!(found[0].1, "`id` `one` is used more than once in this document");
    assert_eq!(found[0].2.as_deref(), Some("an `xs:ID` is unique within the document that carries it"));
    assert_eq!(found[0].3, 3);
    assert_eq!(found[1].0, DiagCode::InvalidAttributeValue);
    assert_eq!(found[1].1, "`id` is `1st`, which is not an NCName");
    assert_eq!(found[1].3, 4);
}

#[test]
fn block_and_final_name_only_derivation_methods() {
    let mut d = Doc::new();
    let s = d.add(None, "schema", &[("blockDefault", " #all ")], 1);
    d.add(Some(s), "complexType", &[("name", "t"), ("final", "extension #all restrictoin")], 2);
    let found = d.check();
    assert_eq!(found.len(), 2);
    assert_eq!(found[0].1, "`final` contains `#all`, which is not a derivation method");
    assert_eq!(found[0].2.as_deref(), Some("`#all` is the whole value or none of it"));
    assert_eq!(found[1].1, "`final` contains `restrictoin`, which is not a derivation method");
    assert_eq!(
        found[1].2.as_deref(),
        Some("expected `#all`, or a list of `extension`, `restriction`, `substitution`, `list` and `union`")
    );
}

#[test]
fn a_reference_says_nothing_of_its_own() {
    let mut d = Doc::new();
    let s = d.add(None, "schema", &[], 1);
    let seq = d.add(Some(s), "sequence", &[], 2);
    let r = d.add(Some(seq), "element", &[("ref", "x"), ("name", "y"), ("type", "t"), ("default", "1"), ("fixed", "1")], 3);
    d.add(Some(r), "complexType", &[], 4);
    let found = d.check();
    let messages: Vec<&str> = found.iter().map(|f| f.1.as_str()).collect();
    assert_eq!(
        messages,
        vec![
            "`xs:element` has both `default` and `fixed`",
            "`xs:element` has both `name` and `ref`",
            "`xs:element` may not carry `default` beside `ref`",
            "`xs:element` may not carry `fixed` beside `ref`",
            "`xs:element` may not carry `type` beside `ref`",
            "`xs:element` may not contain `xs:complexType` beside `ref`",
        ]
    );
    assert_eq!(found[5].3, 4);
}

#[test]
fn open_content_and_its_wildcard_agree() {
    let mut d = Doc::new();
    let s = d.add(None, "schema", &[], 1);
    d.add(Some(s), "defaultOpenContent", &[], 2);
    let none = d.add(Some(s), "defaultOpenContent", &[("mode", "none")], 3);
    d.add(Some(none), "any", &[], 4);
    let found = d.check();
    assert_eq!(found.len(), 2);
    assert_eq!(found[0].0, DiagCode::MissingElement);
    assert_eq!(found[0].1, "`xs:defaultOpenContent` with `mode=\"interleave\"` needs an `xs:any`");
    assert_eq!(found[1].1, "`xs:defaultOpenContent` with `mode=\"none\"` may not carry an `xs:any`");
}

#[test]
fn mixed_must_agree_and_wildcards_pick_one_namespace_attribute() {
    let mut d = Doc::new();
    let s = d.add(None, "schema", &[], 1);
    let ct = d.add(Some(s), "complexType", &[("mixed", "true")], 2);
    let cc = d.add(Some(ct), "complexContent", &[("mixed", " 0 ")], 3);
    let r = d.add(Some(cc), "restriction", &[("base", "xs:anyType")], 4);
    d.add(Some(r), "anyAttribute", &[("namespace", "##any"), ("notNamespace", "urn:x")], 5);
    let found = d.check();
    assert_eq!(found.len(), 2);
    assert_eq!(found[0].1, "`mixed` on `xs:complexType` contradicts the one on `xs:complexContent`");
    assert_eq!(found[0].2, None);
    assert_eq!(found[1].1, "`xs:anyAttribute` has both `namespace` and `notNamespace`");
}

#[test]
fn a_local_target_namespace_needs_a_restriction_of_a_named_type() {
    let mut d = Doc::new();
    let s = d.add(None, "schema", &[("targetNamespace", "urn:a")], 1);
    d.add(Some(s), "element", &[("name", "top"), ("targetNamespace", "urn:a")], 2);
    let ct = d.add(Some(s), "complexType", &[("name", "t")], 3);
    let sq = d.add(Some(ct), "sequence", &[], 4);
    d.add(Some(sq), "element", &[("name", "same"), ("targetNamespace", "urn:a")], 5);
    d.add(Some(sq), "element", &[("name", "other"), ("targetNamespace", "urn:b")], 6);
    d.add(Some(sq), "element", &[("name", "formed"), ("form", "qualified"), ("targetNamespace", "urn:a")], 7);
    let ct2 = d.add(Some(s), "complexType", &[("name", "u")], 8);
    let cc = d.add(Some(ct2), "complexContent", &[], 9);
    let r = d.add(Some(cc), "restriction", &[("base", "a:t")], 10);
    let sq2 = d.add(Some(r), "sequence", &[], 11);
    d.add(Some(sq2), "element", &[("name", "other"), ("targetNamespace", "urn:b")], 12);
    let found = d.check();
    let lines: Vec<u32> = found.iter().map(|f| f.3).collect();
    assert_eq!(lines, vec![2, 6, 7]);
    assert_eq!(found[0].1, "`xs:element` may not carry `targetNamespace` here");
    assert_eq!(found[0].2.as_deref(), Some("a top-level declaration is already in the document's namespace"));
    assert_eq!(
        found[1].2.as_deref(),
        Some("naming another namespace needs an `xs:restriction` of a type other than `xs:anyType`")
    );
    assert_eq!(found[2].2.as_deref(), Some("`form` already decides the namespace"));
}

#[test]
fn a_named_group_holds_exactly_one_model_group() {
    let mut d = Doc::new();
    let s = d.add(None, "schema", &[], 1);
    let g = d.add(Some(s), "group", &[("name", "g")], 2);
    d.add(Some(g), "sequence", &[], 3);
    d.add(Some(g), "choice", &[], 4);
    let ok = d.add(Some(s), "group", &[("name", "h")], 5);
    d.add(Some(ok), "all", &[], 6);
    let found = d.check();
    assert_eq!(found.len(), 1);
    assert_eq!(found[0].0, DiagCode::ConflictingTypeDefinition);
    assert_eq!(found[0].1, "`xs:group` must contain exactly one of `xs:all`, `xs:choice` or `xs:sequence`, found 2");
}

#[test]
fn annotations_come_first_and_once() {
    let mut d = Doc::new();
    let s = d.add(None, "schema", &[], 1);
    d.add(Some(s), "annotation", &[], 2);
    let e = d.add(Some(s), "element", &[("name", "e")], 3);
    d.add(Some(e), "complexType", &[], 4);
    d.add(Some(e), "annotation", &[], 5);
    d.add(Some(e), "annotation", &[], 6);
    let found = d.check();
    assert_eq!(found.len(), 2);
    assert_eq!(found[0].0, DiagCode::MisplacedAnnotation);
    assert_eq!(found[0].1, "`xs:annotation` must be the first child of `xs:element`");
    assert_eq!(found[0].3, 5);
    assert_eq!(found[1].1, "`xs:element` may have only one `xs:annotation`");
    assert_eq!(found[1].3, 6);
}

#[test]
fn elements_not_read_are_not_checked() {
    let mut d = Doc::new();
    let s = d.add(None, "schema", &[], 1);
    d.add_in(Some(s), Some(XS), "element", &[("name", "a"), ("default", "1"), ("fixed", "1")], 2, false);
    d.add_in(Some(s), Some("urn:other"), "element", &[("name", "b"), ("default", "1"), ("fixed", "1")], 3, true);
    assert!(d.check().is_empty());
}
