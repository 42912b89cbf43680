//! Structured diagnostics with source spans.
//!
//! Two rules, both load-bearing:
//!
//! 1. **Never bail on the first error.** A schema author fixing a 40-file
//!    import graph needs the whole list, not the first entry.
//! 2. **The rendered text is a stability surface.** Codes and messages are
//!    matched by downstream tooling; don't reword casually.

use vstd::prelude::*;
use crate::text::{decimal_chars, push_decimal, push_str, string_from_chars};

verus! {

/// Where a diagnostic points, in the source schema document.
#[derive(Clone, PartialEq, Eq, Debug)]
pub struct Span {
    /// Absolute URI of the schema document.
    pub uri: String,
    /// 1-based line number, or 0 when unknown.
    pub line: u32,
    /// What this span contributes, e.g. "declared here".
    pub label: Option<String>,
}

/// An optional string as an optional sequence of characters.
pub open spec fn opt_chars(o: Option<String>) -> Option<Seq<char>> {
    match o {
        Some(s) => Some(s@),
        None => None,
    }
}

/// How a span is rendered: `uri:line`, just the URI when the line is
/// unknown, and the label in parentheses when there is one.
pub open spec fn span_chars(uri: Seq<char>, line: nat, label: Option<Seq<char>>) -> Seq<char> {
    uri + (if line > 0 { seq![':'] + decimal_chars(line) } else { Seq::empty() }) + match label {
        Some(l) => seq![' ', '('] + l + seq![')'],
        None => Seq::empty(),
    }
}

impl Span {
    pub fn new(uri: &str, line: u32) -> (r: Span)
        ensures
            r.uri@ == uri@,
            r.line == line,
            r.label is None,
    {
        Span { uri: uri.to_owned(), line, label: None }
    }

    pub fn labelled(uri: &str, line: u32, label: &str) -> (r: Span)
        ensures
            r.uri@ == uri@,
            r.line == line,
            opt_chars(r.label) == Some(label@),
    {
        Span { uri: uri.to_owned(), line, label: Some(label.to_owned()) }
    }

    pub open spec fn spec_chars(&self) -> Seq<char> {
        span_chars(self.uri@, self.line as nat, opt_chars(self.label))
    }

    /// Whether two spans point at the same place with the same label.
    pub open spec fn same_as(&self, other: Span) -> bool {
        self.uri@ == other.uri@ && self.line == other.line && opt_chars(self.label) == opt_chars(other.label)
    }

    /// A copy of this span.
    pub fn duplicate(&self) -> (r: Span)
        ensures
            r.same_as(*self),
            r == *self,
    {
        let label = match &self.label {
            Some(l) => Some(l.clone()),
            None => None,
        };
        Span { uri: self.uri.clone(), line: self.line, label }
    }

    /// Appends the rendered span.
    fn write(&self, out: &mut Vec<char>)
        ensures
            final(out)@ == old(out)@ + self.spec_chars(),
    {
        let ghost base = old(out)@;
        push_str(out, self.uri.as_str());
        if self.line > 0 {
            out.push(':');
            push_decimal(out, self.line as u128);
        }
        let ghost mid = out@;
        assert(mid =~= base + self.uri@ + (if self.line > 0 {
            seq![':'] + decimal_chars(self.line as nat)
        } else {
            Seq::empty()
        }));
        match &self.label {
            Some(l) => {
                out.push(' ');
                out.push('(');
                push_str(out, l.as_str());
                out.push(')');
            },
            None => {},
        }
        assert(out@ =~= base + self.spec_chars());
    }

    /// The rendered span, e.g. `file:///a.xsd:12 (referenced here)`.
    pub fn to_string(&self) -> (r: String)
        ensures
            r@ == self.spec_chars(),
    {
        let mut out: Vec<char> = Vec::new();
        self.write(&mut out);
        assert(out@ =~= self.spec_chars());
        string_from_chars(&out)
    }
}

#[derive(Copy, Clone, PartialEq, Eq, PartialOrd, Ord, Debug, Structural)]
pub enum Severity {
    Error,
    Warning,
    Note,
}

impl Severity {
    pub open spec fn spec_name(self) -> &'static str {
        match self {
            Severity::Error => "error",
            Severity::Warning => "warning",
            Severity::Note => "note",
        }
    }

    /// The lower-case word a rendered diagnostic starts with.
    pub fn name(self) -> (r: &'static str)
        ensures
            r == self.spec_name(),
    {
        match self {
            Severity::Error => "error",
            Severity::Warning => "warning",
            Severity::Note => "note",
        }
    }

    pub fn to_string(self) -> (r: String)
        ensures
            r@ == self.spec_name()@,
    {
        self.name().to_owned()
    }
}

/// A stable, greppable identifier for a class of problem.
///
/// Codes are permanent once released. Adding a variant is non-breaking;
/// renumbering or reusing one is not.
#[derive(Copy, Clone, PartialEq, Eq, Hash, Debug, Structural)]
#[non_exhaustive]
pub enum DiagCode {
    /// The document is not well-formed XML.
    MalformedXml,
    /// The document root is not `xs:schema`.
    NotASchemaDocument,
    /// An element in the XSD namespace that this version does not define.
    UnknownSchemaElement,
    /// A required attribute is missing.
    MissingAttribute,
    /// An `xs:annotation` appears where the schema for schemas does not
    /// allow one: after a sibling, or a second time.
    MisplacedAnnotation,
    /// A child element the schema for schemas requires is absent.
    MissingElement,
    /// An attribute's value does not match its expected form.
    InvalidAttributeValue,
    /// The document declares an encoding this build cannot decode.
    UnsupportedEncoding,
    /// The document's bytes are not valid in the encoding it claims.
    MalformedEncoding,
    /// `schemaLocation` could not be resolved to a document.
    UnresolvedSchemaLocation,
    /// `xs:include` names a document whose target namespace conflicts.
    IncludeNamespaceMismatch,
    /// `xs:import` names a namespace the imported document does not define.
    ImportNamespaceMismatch,
    /// A construct is recognised but not yet implemented.
    Unsupported,
    /// A `ref`, `base`, `type` or `itemType` names something not declared.
    UnresolvedReference,
    /// Two global components share a name within one symbol space.
    DuplicateGlobal,
    /// A derivation, substitution or group chain refers back to itself.
    CircularDefinition,
    /// A simple type declares more than one of restriction/list/union.
    ConflictingSimpleTypeVariety,
    /// `minOccurs` exceeds `maxOccurs`.
    InvalidOccurrence,
    /// An element declaration has both a `type` attribute and inline content.
    ConflictingTypeDefinition,
    /// A content model breaches Unique Particle Attribution: one element
    /// could be matched by two different particles.
    AmbiguousContentModel,
    /// A facet was applied to a datatype that does not admit it, e.g.
    /// `length` on a `xs:duration`.
    FacetNotApplicable,
    /// A facet's own value is not legal — a bound that is not a value of the
    /// type it bounds, or a count the facet's own type forbids.
    InvalidFacetValue,
    /// Two facets on one restriction step cannot both hold, e.g. `length`
    /// beside `minLength`, or `minInclusive` above `maxInclusive`.
    ConflictingFacets,
    /// A `default` or `fixed` value its own type rejects, or one on a
    /// declaration that cannot carry one at all.
    InvalidValueConstraint,
    /// A type derives from a base whose `final` forbids that derivation.
    DerivationBlocked,
    /// A restriction's content model accepts something its base does not.
    InvalidRestriction,
    /// No global element declaration matches the document's root.
    ElementNotDeclared,
    /// An element appeared where its parent's content model does not allow it.
    UnexpectedElement,
    /// An element ended before its content model was satisfied.
    IncompleteContent,
    /// A value is not valid against its type.
    InvalidValue,
    /// An attribute is not permitted on this element.
    AttributeNotAllowed,
    /// A required attribute is absent.
    MissingRequiredAttribute,
    /// Character data appeared where the content model permits none.
    UnexpectedText,
    /// `xsi:type` names a type that is unknown, or not derived from the
    /// declared one.
    InvalidXsiType,
    /// An element marked `xsi:nil="true"` is not empty.
    NilElementNotEmpty,
    /// The type in force for an element is abstract, so no element may be
    /// validated against it — an `xsi:type` naming a concrete derivation is
    /// what an abstract type is for.
    AbstractType,
}

impl DiagCode {
    pub open spec fn spec_as_str(self) -> &'static str {
        match self {
            DiagCode::MalformedXml => "XSD1001",
            DiagCode::NotASchemaDocument => "XSD1002",
            DiagCode::UnknownSchemaElement => "XSD1003",
            DiagCode::MissingAttribute => "XSD1004",
            DiagCode::MisplacedAnnotation => "XSD1008",
            DiagCode::MissingElement => "XSD1009",
            DiagCode::InvalidAttributeValue => "XSD1005",
            DiagCode::UnsupportedEncoding => "XSD1006",
            DiagCode::MalformedEncoding => "XSD1007",
            DiagCode::UnresolvedSchemaLocation => "XSD1101",
            DiagCode::IncludeNamespaceMismatch => "XSD1102",
            DiagCode::ImportNamespaceMismatch => "XSD1103",
            DiagCode::Unsupported => "XSD1104",
            DiagCode::UnresolvedReference => "XSD1201",
            DiagCode::DuplicateGlobal => "XSD1202",
            DiagCode::CircularDefinition => "XSD1203",
            DiagCode::ConflictingSimpleTypeVariety => "XSD1301",
            DiagCode::InvalidOccurrence => "XSD1302",
            DiagCode::ConflictingTypeDefinition => "XSD1303",
            DiagCode::AmbiguousContentModel => "XSD1304",
            DiagCode::FacetNotApplicable => "XSD1305",
            DiagCode::InvalidFacetValue => "XSD1306",
            DiagCode::ConflictingFacets => "XSD1307",
            DiagCode::InvalidValueConstraint => "XSD1308",
            DiagCode::DerivationBlocked => "XSD1309",
            DiagCode::InvalidRestriction => "XSD1310",
            DiagCode::ElementNotDeclared => "XSD2001",
            DiagCode::UnexpectedElement => "XSD2002",
            DiagCode::IncompleteContent => "XSD2003",
            DiagCode::InvalidValue => "XSD2004",
            DiagCode::AttributeNotAllowed => "XSD2005",
            DiagCode::MissingRequiredAttribute => "XSD2006",
            DiagCode::UnexpectedText => "XSD2007",
            DiagCode::InvalidXsiType => "XSD2008",
            DiagCode::NilElementNotEmpty => "XSD2009",
            DiagCode::AbstractType => "XSD2010",
        }
    }

    /// The stable printed form, e.g. `XSD1201`.
    pub fn as_str(self) -> (r: &'static str)
        ensures
            r == self.spec_as_str(),
    {
        match self {
            DiagCode::MalformedXml => "XSD1001",
            DiagCode::NotASchemaDocument => "XSD1002",
            DiagCode::UnknownSchemaElement => "XSD1003",
            DiagCode::MissingAttribute => "XSD1004",
            DiagCode::MisplacedAnnotation => "XSD1008",
            DiagCode::MissingElement => "XSD1009",
            DiagCode::InvalidAttributeValue => "XSD1005",
            DiagCode::UnsupportedEncoding => "XSD1006",
            DiagCode::MalformedEncoding => "XSD1007",
            DiagCode::UnresolvedSchemaLocation => "XSD1101",
            DiagCode::IncludeNamespaceMismatch => "XSD1102",
            DiagCode::ImportNamespaceMismatch => "XSD1103",
            DiagCode::Unsupported => "XSD1104",
            DiagCode::UnresolvedReference => "XSD1201",
            DiagCode::DuplicateGlobal => "XSD1202",
            DiagCode::CircularDefinition => "XSD1203",
            DiagCode::ConflictingSimpleTypeVariety => "XSD1301",
            DiagCode::InvalidOccurrence => "XSD1302",
            DiagCode::ConflictingTypeDefinition => "XSD1303",
            DiagCode::AmbiguousContentModel => "XSD1304",
            DiagCode::FacetNotApplicable => "XSD1305",
            DiagCode::InvalidFacetValue => "XSD1306",
            DiagCode::ConflictingFacets => "XSD1307",
            DiagCode::InvalidValueConstraint => "XSD1308",
            DiagCode::DerivationBlocked => "XSD1309",
            DiagCode::InvalidRestriction => "XSD1310",
            DiagCode::ElementNotDeclared => "XSD2001",
            DiagCode::UnexpectedElement => "XSD2002",
            DiagCode::IncompleteContent => "XSD2003",
            DiagCode::InvalidValue => "XSD2004",
            DiagCode::AttributeNotAllowed => "XSD2005",
            DiagCode::MissingRequiredAttribute => "XSD2006",
            DiagCode::UnexpectedText => "XSD2007",
            DiagCode::InvalidXsiType => "XSD2008",
            DiagCode::NilElementNotEmpty => "XSD2009",
            DiagCode::AbstractType => "XSD2010",
        }
    }

    pub fn to_string(self) -> (r: String)
        ensures
            r@ == self.spec_as_str()@,
    {
        self.as_str().to_owned()
    }
}

#[derive(Clone, PartialEq, Eq, Debug)]
pub struct Diagnostic {
    pub code: DiagCode,
    pub severity: Severity,
    pub message: String,
    pub spans: Vec<Span>,
    pub help: Option<String>,
}

/// The spans of a diagnostic as rendered, each on a line of its own.
pub open spec fn spans_chars(spans: Seq<Span>) -> Seq<char>
    decreases spans.len(),
{
    if spans.len() == 0 {
        Seq::empty()
    } else {
        spans_chars(spans.drop_last()) + seq!['\n', ' ', ' ', '-', '-', '>', ' ']
            + spans.last().spec_chars()
    }
}

/// How a diagnostic is rendered: `severity[code]: message`, then each span
/// after `-->` and the help after `help:`, each on a line of its own.
pub open spec fn diagnostic_chars(d: Diagnostic) -> Seq<char> {
    d.severity.spec_name()@ + seq!['['] + d.code.spec_as_str()@ + seq![']', ':', ' '] + d.message@
        + spans_chars(d.spans@) + match d.help {
        Some(h) => seq!['\n', ' ', ' ', 'h', 'e', 'l', 'p', ':', ' '] + h@,
        None => Seq::empty(),
    }
}

impl Diagnostic {
    pub fn error(code: DiagCode, message: &str) -> (r: Diagnostic)
        ensures
            r.code == code,
            r.severity == Severity::Error,
            r.message@ == message@,
            r.spans@ == Seq::<Span>::empty(),
            r.help is None,
    {
        Diagnostic {
            code,
            severity: Severity::Error,
            message: message.to_owned(),
            spans: Vec::new(),
            help: None,
        }
    }

    pub fn warning(code: DiagCode, message: &str) -> (r: Diagnostic)
        ensures
            r.code == code,
            r.severity == Severity::Warning,
            r.message@ == message@,
            r.spans@ == Seq::<Span>::empty(),
            r.help is None,
    {
        Diagnostic {
            code,
            severity: Severity::Warning,
            message: message.to_owned(),
            spans: Vec::new(),
            help: None,
        }
    }

    /// The same diagnostic, pointing at one more place.
    pub fn at(self, span: Span) -> (r: Diagnostic)
        ensures
            r.spans@ == self.spans@.push(span),
            r.code == self.code,
            r.severity == self.severity,
            r.message == self.message,
            r.help == self.help,
    {
        let mut d = self;
        d.spans.push(span);
        d
    }

    /// The same diagnostic, with a hint on how to fix it.
    pub fn with_help(self, help: &str) -> (r: Diagnostic)
        ensures
            opt_chars(r.help) == Some(help@),
            r.spans == self.spans,
            r.code == self.code,
            r.severity == self.severity,
            r.message == self.message,
    {
        let mut d = self;
        d.help = Some(help.to_owned());
        d
    }

    pub fn is_error(&self) -> (r: bool)
        ensures
            r == (self.severity == Severity::Error),
    {
        match self.severity {
            Severity::Error => true,
            _ => false,
        }
    }

    /// Appends the rendered diagnostic.
    fn write(&self, out: &mut Vec<char>)
        ensures
            final(out)@ == old(out)@ + diagnostic_chars(*self),
    {
        let ghost base = old(out)@;
        push_str(out, self.severity.name());
        out.push('[');
        push_str(out, self.code.as_str());
        out.push(']');
        out.push(':');
        out.push(' ');
        push_str(out, self.message.as_str());
        let mut i: usize = 0;
        while i < self.spans.len()
            invariant
                i <= self.spans.len(),
                out@ == base + self.severity.spec_name()@ + seq!['['] + self.code.spec_as_str()@
                    + seq![']', ':', ' '] + self.message@ + spans_chars(self.spans@.take(i as int)),
            decreases self.spans.len() - i,
        {
            out.push('\n');
            out.push(' ');
            out.push(' ');
            out.push('-');
            out.push('-');
            out.push('>');
            out.push(' ');
            self.spans[i].write(out);
            assert(self.spans@.take(i + 1).drop_last() =~= self.spans@.take(i as int));
            i += 1;
        }
        assert(self.spans@.take(self.spans.len() as int) =~= self.spans@);
        match &self.help {
            Some(h) => {
                push_str(out, "\n  help: ");
                proof {
                    reveal_strlit("\n  help: ");
                }
                push_str(out, h.as_str());
            },
            None => {},
        }
        assert(out@ =~= base + diagnostic_chars(*self));
    }

    /// The rendered diagnostic, e.g.
    /// `error[XSD1201]: unknown type` with its spans and help below.
    pub fn to_string(&self) -> (r: String)
        ensures
            r@ == diagnostic_chars(*self),
    {
        let mut out: Vec<char> = Vec::new();
        self.write(&mut out);
        assert(out@ =~= diagnostic_chars(*self));
        string_from_chars(&out)
    }
}

/// Whether `d` is an error of code `code` saying `message`, pointing at
/// `span` alone, with the help `help`.
pub open spec fn is_error_at(d: Diagnostic, code: DiagCode, message: Seq<char>, span: Span, help: Option<Seq<char>>) -> bool {
    &&& d.code == code
    &&& d.severity == Severity::Error
    &&& d.message@ == message
    &&& d.spans@.len() == 1
    &&& d.spans@[0].same_as(span)
    &&& opt_chars(d.help) == help
}

/// The errors among `s`, in order; warnings and notes dropped.
pub open spec fn errors_of(s: Seq<Diagnostic>) -> Seq<Diagnostic>
    decreases s.len(),
{
    if s.len() == 0 {
        Seq::empty()
    } else if s.last().severity == Severity::Error {
        errors_of(s.drop_last()).push(s.last())
    } else {
        errors_of(s.drop_last())
    }
}

/// Whether any of `s` is an error.
pub open spec fn any_error(s: Seq<Diagnostic>) -> bool {
    exists|i: int| 0 <= i < s.len() && #[trigger] s[i].severity == Severity::Error
}

/// The diagnostics of `s` rendered one per line.
pub open spec fn diagnostics_chars(s: Seq<Diagnostic>) -> Seq<char>
    decreases s.len(),
{
    if s.len() == 0 {
        Seq::empty()
    } else if s.len() == 1 {
        diagnostic_chars(s[0])
    } else {
        diagnostics_chars(s.drop_last()).push('\n') + diagnostic_chars(s.last())
    }
}

/// A collection of diagnostics, returned whole rather than one at a time.
#[derive(Clone, PartialEq, Eq, Debug)]
pub struct Diagnostics(Vec<Diagnostic>);

impl View for Diagnostics {
    type V = Seq<Diagnostic>;

    closed spec fn view(&self) -> Seq<Diagnostic> {
        self.0@
    }
}

impl Default for Diagnostics {
    fn default() -> (r: Diagnostics)
        ensures
            r@ == Seq::<Diagnostic>::empty(),
    {
        Diagnostics(Vec::new())
    }
}

impl Diagnostics {
    pub fn new() -> (r: Diagnostics)
        ensures
            r@ == Seq::<Diagnostic>::empty(),
    {
        Diagnostics(Vec::new())
    }

    pub fn push(&mut self, d: Diagnostic)
        ensures
            final(self)@ == old(self)@.push(d),
    {
        self.0.push(d);
    }

    /// Appends every diagnostic of `other`, in order.
    pub fn extend(&mut self, other: Diagnostics)
        ensures
            final(self)@ == old(self)@ + other@,
    {
        let mut o = other.0;
        self.0.append(&mut o);
    }

    /// Every diagnostic, in the order they were pushed.
    pub fn iter(&self) -> (r: &[Diagnostic])
        ensures
            r@ == self@,
    {
        self.0.as_slice()
    }

    /// The errors, in order; warnings and notes are left out.
    pub fn errors(&self) -> (r: Vec<&Diagnostic>)
        ensures
            r@.len() == errors_of(self@).len(),
            forall|i: int| 0 <= i < r@.len() ==> *r@[i] == errors_of(self@)[i],
    {
        let mut out: Vec<&Diagnostic> = Vec::new();
        let mut i: usize = 0;
        while i < self.0.len()
            invariant
                i <= self.0.len(),
                out@.len() == errors_of(self.0@.take(i as int)).len(),
                forall|j: int| 0 <= j < out@.len() ==> *out@[j] == errors_of(self.0@.take(i as int))[j],
            decreases self.0.len() - i,
        {
            assert(self.0@.take(i + 1).drop_last() =~= self.0@.take(i as int));
            if self.0[i].is_error() {
                out.push(&self.0[i]);
            }
            i += 1;
        }
        assert(self.0@.take(self.0.len() as int) =~= self.0@);
        out
    }

    pub fn has_errors(&self) -> (r: bool)
        ensures
            r == any_error(self@),
    {
        let mut i: usize = 0;
        while i < self.0.len()
            invariant
                i <= self.0.len(),
                forall|j: int| 0 <= j < i ==> self.0@[j].severity != Severity::Error,
            decreases self.0.len() - i,
        {
            if self.0[i].is_error() {
                return true;
            }
            i += 1;
        }
        false
    }

    pub fn len(&self) -> (r: usize)
        ensures
            r == self@.len(),
    {
        self.0.len()
    }

    pub fn is_empty(&self) -> (r: bool)
        ensures
            r == (self@.len() == 0),
    {
        self.0.len() == 0
    }

    /// Drops warnings and notes, keeping only errors.
    pub fn into_errors(self) -> (r: Vec<Diagnostic>)
        ensures
            r@ == errors_of(self@),
    {
        let mut rest = self.0;
        let ghost all = rest@;
        let total = rest.len();
        let mut out: Vec<Diagnostic> = Vec::new();
        let mut i: usize = 0;
        while rest.len() > 0
            invariant
                i + rest@.len() == all.len(),
                all.len() == total,
                rest@ == all.skip(i as int),
                out@ == errors_of(all.take(i as int)),
            decreases rest.len(),
        {
            let d = rest.remove(0);
            assert(all.take(i + 1).drop_last() =~= all.take(i as int));
            assert(d == all[i as int]);
            if d.is_error() {
                out.push(d);
            }
            i += 1;
            assert(rest@ =~= all.skip(i as int));
        }
        assert(all.take(i as int) =~= all);
        out
    }

    /// Every diagnostic rendered, one per line.
    pub fn to_string(&self) -> (r: String)
        ensures
            r@ == diagnostics_chars(self@),
    {
        let mut out: Vec<char> = Vec::new();
        let mut i: usize = 0;
        while i < self.0.len()
            invariant
                i <= self.0.len(),
                out@ == diagnostics_chars(self.0@.take(i as int)),
            decreases self.0.len() - i,
        {
            assert(self.0@.take(i + 1).drop_last() =~= self.0@.take(i as int));
            if i > 0 {
                out.push('\n');
            } else {
                assert(out@ =~= Seq::<char>::empty());
            }
            self.0[i].write(&mut out);
            i += 1;
        }
        assert(self.0@.take(self.0.len() as int) =~= self.0@);
        string_from_chars(&out)
    }
}

/// A collection reports errors exactly when the errors it hands out are not
/// none.
pub proof fn law_has_errors_iff_some_error(s: Seq<Diagnostic>)
    ensures
        any_error(s) <==> errors_of(s).len() > 0,
    decreases s.len(),
{
    if s.len() > 0 {
        law_has_errors_iff_some_error(s.drop_last());
        if any_error(s.drop_last()) {
            let i = choose|i: int| 0 <= i < s.drop_last().len() && #[trigger] s.drop_last()[i].severity
                == Severity::Error;
            assert(s[i].severity == Severity::Error);
        }
        if s.last().severity == Severity::Error {
            assert(s[s.len() - 1].severity == Severity::Error);
        } else if any_error(s) {
            let i = choose|i: int| 0 <= i < s.len() && #[trigger] s[i].severity == Severity::Error;
            assert(s.drop_last()[i].severity == Severity::Error);
        }
    }
}

/// Whether `s` is `XSD` followed by four digits.
pub open spec fn is_code_form(s: Seq<char>) -> bool {
    &&& s.len() == 7
    &&& s[0] == 'X' && s[1] == 'S' && s[2] == 'D'
    &&& forall|k: int| 3 <= k < 7 ==> '0' <= #[trigger] s[k] <= '9'
}

/// Every code is `XSD` followed by four digits, and no two codes share one.
pub proof fn law_codes_are_distinct(a: DiagCode, b: DiagCode)
    ensures
        is_code_form(a.spec_as_str()@),
        a.spec_as_str()@ == b.spec_as_str()@ ==> a == b,
{
        reveal_strlit("XSD1001");
        reveal_strlit("XSD1002");
        reveal_strlit("XSD1003");
        reveal_strlit("XSD1004");
        reveal_strlit("XSD1008");
        reveal_strlit("XSD1009");
        reveal_strlit("XSD1005");
        reveal_strlit("XSD1006");
        reveal_strlit("XSD1007");
        reveal_strlit("XSD1101");
        reveal_strlit("XSD1102");
        reveal_strlit("XSD1103");
        reveal_strlit("XSD1104");
        reveal_strlit("XSD1201");
        reveal_strlit("XSD1202");
        reveal_strlit("XSD1203");
        reveal_strlit("XSD1301");
        reveal_strlit("XSD1302");
        reveal_strlit("XSD1303");
        reveal_strlit("XSD1304");
        reveal_strlit("XSD1305");
        reveal_strlit("XSD1306");
        reveal_strlit("XSD1307");
        reveal_strlit("XSD1308");
        reveal_strlit("XSD1309");
        reveal_strlit("XSD1310");
        reveal_strlit("XSD2001");
        reveal_strlit("XSD2002");
        reveal_strlit("XSD2003");
        reveal_strlit("XSD2004");
        reveal_strlit("XSD2005");
        reveal_strlit("XSD2006");
        reveal_strlit("XSD2007");
        reveal_strlit("XSD2008");
        reveal_strlit("XSD2009");
        reveal_strlit("XSD2010");
    let (x, y) = (a.spec_as_str()@, b.spec_as_str()@);
    assert(x.len() == 7);
    assert(is_code_form(x)) by {
        assert forall|k: int| 3 <= k < 7 implies '0' <= #[trigger] x[k] <= '9' by {
            assert(k == 3 || k == 4 || k == 5 || k == 6);
        }
    }
    if x == y {
        assert(x[3] == y[3] && x[4] == y[4] && x[5] == y[5] && x[6] == y[6]);
    }
}

} // verus!
