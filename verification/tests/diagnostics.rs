use xsdkit::diagnostics::{DiagCode, Diagnostic, Diagnostics, Severity, Span};

#[test]
fn codes_are_unique() {
    let all = [
        DiagCode::MalformedXml,
        DiagCode::NotASchemaDocument,
        DiagCode::UnknownSchemaElement,
        DiagCode::MissingAttribute,
        DiagCode::MisplacedAnnotation,
        DiagCode::MissingElement,
        DiagCode::InvalidAttributeValue,
        DiagCode::UnsupportedEncoding,
        DiagCode::MalformedEncoding,
        DiagCode::UnresolvedSchemaLocation,
        DiagCode::IncludeNamespaceMismatch,
        DiagCode::ImportNamespaceMismatch,
        DiagCode::Unsupported,
        DiagCode::UnresolvedReference,
        DiagCode::DuplicateGlobal,
        DiagCode::CircularDefinition,
        DiagCode::ConflictingSimpleTypeVariety,
        DiagCode::InvalidOccurrence,
        DiagCode::ConflictingTypeDefinition,
        DiagCode::AmbiguousContentModel,
        DiagCode::ElementNotDeclared,
        DiagCode::UnexpectedElement,
        DiagCode::IncompleteContent,
        DiagCode::InvalidValue,
        DiagCode::AttributeNotAllowed,
        DiagCode::MissingRequiredAttribute,
        DiagCode::UnexpectedText,
        DiagCode::InvalidXsiType,
        DiagCode::NilElementNotEmpty,
        DiagCode::AbstractType,
    ];
    let mut seen = std::collections::HashSet::new();
    for c in all {
        assert!(seen.insert(c.as_str()), "duplicate code {}", c.as_str());
        assert!(c.as_str().starts_with("XSD"));
    }
}

#[test]
fn display_includes_code_spans_and_help() {
    let d = Diagnostic::error(DiagCode::UnresolvedReference, "unknown type `{urn:x}Foo`")
        .at(Span::labelled("file:///a.xsd", 12, "referenced here"))
        .with_help("did you forget an xs:import?");
    let s = d.to_string();
    assert!(s.contains("error[XSD1201]"), "{s}");
    assert!(s.contains("file:///a.xsd:12 (referenced here)"), "{s}");
    assert!(s.contains("help: did you forget"), "{s}");
}

#[test]
fn collection_separates_errors_from_warnings() {
    let mut ds = Diagnostics::new();
    ds.push(Diagnostic::warning(DiagCode::Unsupported, "w"));
    assert!(!ds.has_errors());
    ds.push(Diagnostic::error(DiagCode::MalformedXml, "e"));
    assert!(ds.has_errors());
    assert_eq!(ds.len(), 2);
    assert_eq!(ds.errors().len(), 1);
}

#[test]
fn a_diagnostic_renders_exactly() {
    let d = Diagnostic::warning(DiagCode::FacetNotApplicable, "no length here")
        .at(Span::new("file:///b.xsd", 0))
        .at(Span::new("file:///c.xsd", 7));
    assert_eq!(
        d.to_string(),
        "warning[XSD1305]: no length here\n  --> file:///b.xsd\n  --> file:///c.xsd:7"
    );
    assert!(!d.is_error());
}

#[test]
fn every_code_is_xsd_and_four_digits() {
    for c in [DiagCode::MalformedEncoding, DiagCode::InvalidRestriction, DiagCode::AbstractType] {
        let s = c.as_str();
        assert_eq!(s.len(), 7);
        assert!(s[3..].bytes().all(|b| b.is_ascii_digit()));
    }
    assert_eq!(DiagCode::DerivationBlocked.to_string(), "XSD1309");
    assert_eq!(Severity::Note.to_string(), "note");
}

#[test]
fn collections_render_one_diagnostic_per_line_and_keep_only_errors() {
    let mut ds = Diagnostics::new();
    ds.push(Diagnostic::error(DiagCode::DuplicateGlobal, "a"));
    let mut more = Diagnostics::default();
    more.push(Diagnostic::warning(DiagCode::Unsupported, "b"));
    more.push(Diagnostic::error(DiagCode::CircularDefinition, "c").with_help("h"));
    ds.extend(more);
    assert_eq!(ds.len(), 3);
    assert!(!ds.is_empty());
    assert_eq!(ds.iter().len(), 3);
    assert_eq!(
        ds.to_string(),
        "error[XSD1202]: a\nwarning[XSD1104]: b\nerror[XSD1203]: c\n  help: h"
    );
    let errors = ds.into_errors();
    assert_eq!(errors.len(), 2);
    assert_eq!(errors[0].message, "a");
    assert_eq!(errors[1].message, "c");
    assert!(Diagnostics::new().is_empty());
}
