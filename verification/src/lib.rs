//! Parse W3C XML Schema (XSD) into a queryable schema component model.
//!
//! XSD is three languages: schema *documents*, schema *components*, and
//! validation *semantics* defined over those components. `xsdkit` builds the
//! middle layer — the graph the specification defines all its semantics
//! against — and hands it to you to query.

pub mod atomic;
pub mod compile;
pub mod content;
pub mod datatypes;
pub mod declarations;
pub mod derivation;
pub mod diagnostics;
pub mod encoding;
pub mod facets;
pub mod groups;
pub mod identity;
pub mod instance;
pub mod load;
pub mod matcher;
pub mod model;
pub mod names;
pub mod precision;
pub mod representation;
pub mod schemas;
pub mod text;
pub mod upa;

pub use content::{AllGroup, AllMember, Child, Content, ContentModel, ContentStats};
pub use matcher::ContentMatcher;
pub use diagnostics::{DiagCode, Diagnostic, Diagnostics, Severity, Span};
pub use load::{Conformance, DEFAULT_NODES_LIMIT, FileResolver, Resolver, Version};
pub use model::{
    Annotation, AppInfo, AttrGroupId, AttributeDecl, AttributeId, AttributeUse, AttributeUseKind,
    ComplexType, ComponentCounts, Compositor, ContentType, DerivationMethod, DerivationSet,
    ElementDecl, ElementId, IdcId, IdcKind, IdentityConstraint, MaxOccurs, ModelGroup, OpenContent,
    OpenContentMode, Particle, ParticleId, Scope, SimpleType, SourceDocument, SymbolSpace,
    Term, TypeDefinition, TypeId, ValueConstraint, Wildcard,
};
pub use names::{Interner, QName};

use vstd::prelude::*;

verus! {

/// A schema document queued for reading.
pub enum Source {
    /// A location, resolved through the resolver.
    Uri(String),
    /// A document already in memory, as text.
    Text { text: String, uri: String },
    /// A document already in memory, as raw bytes.
    Bytes { bytes: Vec<u8>, uri: String },
}

/// What a queued document is, as sequences.
pub enum SourceView {
    Uri(Seq<char>),
    Text(Seq<char>, Seq<char>),
    Bytes(Seq<u8>, Seq<char>),
}

impl View for Source {
    type V = SourceView;

    open spec fn view(&self) -> SourceView {
        match self {
            Source::Uri(u) => SourceView::Uri(u@),
            Source::Text { text, uri } => SourceView::Text(text@, uri@),
            Source::Bytes { bytes, uri } => SourceView::Bytes(bytes@, uri@),
        }
    }
}

/// What a [`SchemaSetBuilder`] has been told so far.
pub struct BuilderView {
    /// Whether a resolver replaced the default filesystem one.
    pub custom_resolver: bool,
    pub search_paths: Seq<Seq<char>>,
    pub mode: Conformance,
    pub version: Version,
    pub nodes_limit: u32,
    pub sources: Seq<SourceView>,
}

/// Reads schema documents, collecting what to read and how.
pub struct SchemaSetBuilder {
    resolver: Option<Box<dyn Resolver>>,
    search_paths: Vec<String>,
    mode: Conformance,
    version: Version,
    nodes_limit: u32,
    sources: Vec<Source>,
}

impl View for SchemaSetBuilder {
    type V = BuilderView;

    closed spec fn view(&self) -> BuilderView {
        BuilderView {
            custom_resolver: self.resolver is Some,
            search_paths: self.search_paths@.map_values(|p: String| p@),
            mode: self.mode,
            version: self.version,
            nodes_limit: self.nodes_limit,
            sources: self.sources@.map_values(|s: Source| s@),
        }
    }
}

impl Default for SchemaSetBuilder {
    fn default() -> (r: SchemaSetBuilder)
        ensures
            r@ == SchemaSetBuilder::spec_new(),
    {
        SchemaSetBuilder::new()
    }
}

impl SchemaSetBuilder {
    /// The default filesystem resolver with no extra directories, strict
    /// conformance, XSD 1.0, the default node cap, and nothing queued.
    pub open spec fn spec_new() -> BuilderView {
        BuilderView {
            custom_resolver: false,
            search_paths: Seq::empty(),
            mode: Conformance::Strict,
            version: Version::Xsd10,
            nodes_limit: DEFAULT_NODES_LIMIT,
            sources: Seq::empty(),
        }
    }

    pub fn new() -> (r: SchemaSetBuilder)
        ensures
            r@ == SchemaSetBuilder::spec_new(),
    {
        let r = SchemaSetBuilder {
            resolver: None,
            search_paths: Vec::new(),
            mode: Conformance::Strict,
            version: Version::Xsd10,
            nodes_limit: DEFAULT_NODES_LIMIT,
            sources: Vec::new(),
        };
        assert(r@.search_paths =~= Seq::<Seq<char>>::empty());
        assert(r@.sources =~= Seq::<SourceView>::empty());
        r
    }

    /// Replaces the resolver used for every `schemaLocation` hint.
    pub fn resolver<R: Resolver + 'static>(self, r: R) -> (b: SchemaSetBuilder)
        ensures
            b@ == (BuilderView { custom_resolver: true, ..self@ }),
    {
        let mut s = self;
        let boxed: Box<dyn Resolver> = Box::new(r);
        s.resolver = Some(boxed);
        s
    }

    /// Adds a directory to the default resolver's search path.
    ///
    /// Ignored once [`Self::resolver`] has replaced the default.
    pub fn search_path(self, p: &str) -> (b: SchemaSetBuilder)
        ensures
            b@ == (BuilderView { search_paths: self@.search_paths.push(p@), ..self@ }),
    {
        let mut s = self;
        let ghost before = s.search_paths@;
        s.search_paths.push(p.to_owned());
        assert(s@.search_paths =~= self@.search_paths.push(p@));
        s
    }

    /// Chooses which XSD version to process as.
    pub fn version(self, v: Version) -> (b: SchemaSetBuilder)
        ensures
            b@ == (BuilderView { version: v, ..self@ }),
    {
        let mut s = self;
        s.version = v;
        s
    }

    /// Caps the XML nodes a single schema document may contain.
    pub fn nodes_limit(self, limit: u32) -> (b: SchemaSetBuilder)
        ensures
            b@ == (BuilderView { nodes_limit: limit, ..self@ }),
    {
        let mut s = self;
        s.nodes_limit = limit;
        s
    }

    /// Chooses how strictly specification violations are treated.
    pub fn conformance(self, mode: Conformance) -> (b: SchemaSetBuilder)
        ensures
            b@ == (BuilderView { mode, ..self@ }),
    {
        let mut s = self;
        s.mode = mode;
        s
    }

    /// Queues a schema document, resolved through the resolver.
    pub fn file(self, path: &str) -> (b: SchemaSetBuilder)
        ensures
            b@ == (BuilderView { sources: self@.sources.push(SourceView::Uri(path@)), ..self@ }),
    {
        let mut s = self;
        s.sources.push(Source::Uri(path.to_owned()));
        assert(s@.sources =~= self@.sources.push(SourceView::Uri(path@)));
        s
    }

    /// Queues a schema document already in memory, as text; `uri` names it
    /// in diagnostics and resolves the relative locations inside it.
    pub fn text(self, xsd: &str, uri: &str) -> (b: SchemaSetBuilder)
        ensures
            b@ == (BuilderView { sources: self@.sources.push(SourceView::Text(xsd@, uri@)), ..self@ }),
    {
        let mut s = self;
        s.sources.push(Source::Text { text: xsd.to_owned(), uri: uri.to_owned() });
        assert(s@.sources =~= self@.sources.push(SourceView::Text(xsd@, uri@)));
        s
    }

    /// Queues a schema document already in memory, as raw bytes, which go
    /// through the same encoding detection as a resolved file.
    pub fn bytes(self, xsd: Vec<u8>, uri: &str) -> (b: SchemaSetBuilder)
        ensures
            b@ == (BuilderView { sources: self@.sources.push(SourceView::Bytes(xsd@, uri@)), ..self@ }),
    {
        let mut s = self;
        let ghost xv = xsd@;
        s.sources.push(Source::Bytes { bytes: xsd, uri: uri.to_owned() });
        assert(s@.sources =~= self@.sources.push(SourceView::Bytes(xv, uri@)));
        s
    }
}

} // verus!
