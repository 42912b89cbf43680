use xsdkit::datatypes::Builtin;
use xsdkit::load::{
    boolean_value, component_available, escape_attr, not_a_facet, refuse_network, strip_file_scheme,
    Conformance, FileResolver, LineIndex, Version,
};

/// The line index has to agree with roxmltree's own line counting
/// everywhere — including the awkward offsets: the very first byte, a byte
/// just past a newline, a blank line, and the end of the document.
#[test]
fn the_line_index_agrees_with_roxmltree() {
    let src = "<a>\n  <b/>\n\n\t<c\n     x='1'/>\r\n<!--k-->\n</a>";
    let doc = roxmltree::Document::parse(src).expect("valid XML");
    let index = LineIndex::build(src);

    for node in doc.descendants() {
        let offset = node.range().start;
        assert_eq!(
            index.line(offset),
            doc.text_pos_at(offset).row,
            "line disagreed at byte {offset} ({node:?})"
        );
    }
    // Every byte, not just the ones a node happens to start at.
    for offset in 0..=src.len() {
        assert_eq!(index.line(offset), doc.text_pos_at(offset).row, "line disagreed at byte {offset}");
    }
}

/// A document with no newline at all is one line, and an empty one is
/// still line 1 — never 0, which would render as a span with no position.
#[test]
fn the_line_index_is_one_based_at_the_edges() {
    assert_eq!(LineIndex::build("").line(0), 1);
    assert_eq!(LineIndex::build("<a/>").line(3), 1);
    assert_eq!(LineIndex::build("\n").line(0), 1);
    assert_eq!(LineIndex::build("\n").line(1), 2);
}

#[test]
fn booleans_read_the_way_the_datatype_says() {
    assert_eq!(boolean_value("true"), Some(true));
    assert_eq!(boolean_value(" 1\n"), Some(true));
    assert_eq!(boolean_value("0"), Some(false));
    assert_eq!(boolean_value("\tfalse"), Some(false));
    assert_eq!(boolean_value("TRUE"), None);
    assert_eq!(boolean_value("yes"), None);
    assert_eq!(boolean_value(""), None);
}

#[test]
fn defaults_are_the_strict_reading_of_xsd_1_0() {
    assert_eq!(Version::default(), Version::Xsd10);
    assert_eq!(Conformance::default(), Conformance::Strict);
    let r = FileResolver::new().with_search_path("a").with_search_path("b/c");
    assert_eq!(r.search_paths, vec!["a".to_string(), "b/c".to_string()]);
    assert!(FileResolver::default().search_paths.is_empty());
}

#[test]
fn small_lexical_rules() {
    assert!(not_a_facet("annotation"));
    assert!(not_a_facet("assert"));
    assert!(!not_a_facet("minLength"));
    assert!(component_available("xs:string", Version::Xsd10));
    assert!(!component_available("xs:dayTimeDuration", Version::Xsd10));
    assert!(component_available("dayTimeDuration", Version::Xsd11));
    assert!(component_available("my:own", Version::Xsd10));
    assert_eq!(Builtin::from_local_name("anyAtomicType"), Some(Builtin::AnyAtomicType));
    assert!(!component_available("a:b:anyAtomicType", Version::Xsd10));
    assert_eq!(escape_attr(r#"a<b & "c""#), "a&lt;b &amp; &quot;c&quot;");
    assert_eq!(strip_file_scheme("file:///tmp/x.xsd"), "/tmp/x.xsd");
    assert_eq!(strip_file_scheme("x.xsd"), "x.xsd");
    assert!(refuse_network("x.xsd").is_ok());
    assert_eq!(
        refuse_network("https://example.org/a.xsd").unwrap_err(),
        "refusing to fetch `https://example.org/a.xsd` over the network; supply a resolver or a local copy"
    );
}
