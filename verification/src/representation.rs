//! Schema Representation Constraints: the rules answerable from a schema
//! document alone, with nothing resolved and no other document consulted.
//!
//! They are about the XML the schema for schemas describes, not about the
//! components it produces, and several of them concern elements nothing else
//! visits. The document is given as its elements in document order, each
//! with its attributes, the positions of its element children, its parent,
//! its line, and whether this processor includes it at all under the
//! `vc:` conditional-inclusion attributes.

use vstd::prelude::*;
use crate::diagnostics::{opt_chars, DiagCode, Diagnostic, Diagnostics, Severity, Span};
use crate::load::boolean_value;
use crate::model::{split_words, words};
use crate::names::{is_ncname, spec_is_ncname, XS};
use crate::text::{decimal_chars, push_decimal, push_str, str_chars, string_from_chars, trim_vec, trimmed};

verus! {

/// An attribute of an element.
pub struct XmlAttribute {
    pub namespace: Option<String>,
    pub local: String,
    pub value: String,
}

/// An element of a schema document.
pub struct XmlElement {
    pub namespace: Option<String>,
    pub local: String,
    pub attributes: Vec<XmlAttribute>,
    /// The positions of its element children, in order.
    pub children: Vec<usize>,
    /// The position of its parent element; none for the document element.
    pub parent: Option<usize>,
    /// The line it starts on, one-based.
    pub line: u32,
    /// Whether this processor reads it, under its `vc:` conditions.
    pub included: bool,
}

/// A schema document: where it came from, and its elements in document
/// order, the document element first.
pub struct XmlDocument {
    pub uri: String,
    pub elements: Vec<XmlElement>,
}

/// Whether every child and parent position names an element of `els`, and
/// every parent comes before its child.
pub open spec fn doc_wf(els: Seq<XmlElement>) -> bool {
    &&& forall|i: int, k: int|
        0 <= i < els.len() && 0 <= k < (#[trigger] els[i]).children@.len() ==> (
        #[trigger] els[i].children@[k]) < els.len()
    &&& forall|i: int|
        0 <= i < els.len() ==> match (#[trigger] els[i]).parent {
            Some(p) => p < i,
            None => true,
        }
}

/// The value of the first attribute of `attrs` whose local name is `local`,
/// whatever its namespace.
pub open spec fn first_attr(attrs: Seq<XmlAttribute>, local: Seq<char>) -> Option<Seq<char>>
    decreases attrs.len(),
{
    if attrs.len() == 0 {
        None
    } else if attrs[0].local@ == local {
        Some(attrs[0].value@)
    } else {
        first_attr(attrs.drop_first(), local)
    }
}

/// The value of `e`'s attribute named `local`.
pub open spec fn attr(e: XmlElement, local: Seq<char>) -> Option<Seq<char>> {
    first_attr(e.attributes@, local)
}

/// Whether `e` is in the XML Schema namespace.
pub open spec fn is_xs(e: XmlElement) -> bool {
    e.namespace matches Some(n) && n@ == XS@
}

/// Whether this processor reads `e`: an XML Schema element its `vc:`
/// conditions include.
pub open spec fn reads(e: XmlElement) -> bool {
    is_xs(e) && e.included
}

/// The children among `cs` that are read, in order.
pub open spec fn kept(els: Seq<XmlElement>, cs: Seq<usize>) -> Seq<usize>
    decreases cs.len(),
{
    if cs.len() == 0 {
        Seq::empty()
    } else {
        let prev = kept(els, cs.drop_last());
        if reads(els[cs.last() as int]) {
            prev.push(cs.last())
        } else {
            prev
        }
    }
}

/// The read children of element `i`.
pub open spec fn read_children(els: Seq<XmlElement>, i: int) -> Seq<usize> {
    kept(els, els[i].children@)
}

/// A finding: its code, its message, its help, and the line it is at.
pub type Finding = (DiagCode, Seq<char>, Option<Seq<char>>, u32);

/// Whether `d` reports the finding `f` in the document at `uri`.
pub open spec fn reports(d: Diagnostic, f: Finding, uri: Seq<char>) -> bool {
    &&& d.code == f.0
    &&& d.severity == Severity::Error
    &&& d.message@ == f.1
    &&& opt_chars(d.help) == f.2
    &&& d.spans@.len() == 1
    &&& d.spans@[0].uri@ == uri
    &&& d.spans@[0].line == f.3
    &&& d.spans@[0].label is None
}

/// Whether `after` is `before` followed by a report for each of `fs`.
pub open spec fn reported(before: Seq<Diagnostic>, after: Seq<Diagnostic>, fs: Seq<Finding>, uri: Seq<char>) -> bool {
    &&& after.len() == before.len() + fs.len()
    &&& after.take(before.len() as int) == before
    &&& forall|k: int| 0 <= k < fs.len() ==> reports(#[trigger] after[before.len() + k], fs[k], uri)
}

/// Reports follow one another.
pub proof fn lemma_reported_chain(
    a: Seq<Diagnostic>,
    b: Seq<Diagnostic>,
    c: Seq<Diagnostic>,
    f1: Seq<Finding>,
    f2: Seq<Finding>,
    uri: Seq<char>,
)
    requires
        reported(a, b, f1, uri),
        reported(b, c, f2, uri),
    ensures
        reported(a, c, f1 + f2, uri),
{
    assert(c.take(a.len() as int) =~= a) by {
        assert forall|k: int| 0 <= k < a.len() implies c[k] == a[k] by {
            assert(c.take(b.len() as int)[k] == b[k]);
            assert(b.take(a.len() as int)[k] == a[k]);
        }
    }
    assert forall|k: int| 0 <= k < (f1 + f2).len() implies reports(#[trigger] c[a.len() + k], (f1 + f2)[k], uri) by {
        if k < f1.len() {
            assert(c.take(b.len() as int)[a.len() + k] == b[a.len() + k]);
        } else {
            assert(c[a.len() + k] == c[b.len() + (k - f1.len())]);
        }
    }
}

/// Nothing reported is nothing appended.
pub proof fn lemma_reported_none(a: Seq<Diagnostic>, uri: Seq<char>)
    ensures
        reported(a, a, Seq::empty(), uri),
{
    assert(a.take(a.len() as int) =~= a);
}

/// The value of `e`'s attribute named `local`.
pub fn attribute<'a>(e: &'a XmlElement, local: &str) -> (r: Option<&'a str>)
    ensures
        match r {
            Some(v) => attr(*e, local@) == Some(v@),
            None => attr(*e, local@) is None,
        },
{
    let mut i: usize = 0;
    assert(e.attributes@.skip(0) =~= e.attributes@);
    while i < e.attributes.len()
        invariant
            i <= e.attributes@.len(),
            attr(*e, local@) == first_attr(e.attributes@.skip(i as int), local@),
        decreases e.attributes@.len() - i,
    {
        let a = &e.attributes[i];
        assert(e.attributes@.skip(i as int)[0] == *a);
        if crate::text::str_eq(a.local.as_str(), local) {
            return Some(a.value.as_str());
        }
        assert(e.attributes@.skip(i as int).drop_first() =~= e.attributes@.skip(i + 1));
        i += 1;
    }
    None
}

/// Whether `e` carries an attribute named `local`.
pub fn has_attribute(e: &XmlElement, local: &str) -> (r: bool)
    ensures
        r == (attr(*e, local@) is Some),
{
    attribute(e, local).is_some()
}

/// Whether `e` is in the XML Schema namespace.
pub fn is_xs_element(e: &XmlElement) -> (r: bool)
    ensures
        r == is_xs(*e),
{
    match &e.namespace {
        Some(n) => crate::text::str_eq(n.as_str(), XS),
        None => false,
    }
}

/// Whether this processor reads `e`.
pub fn read_by_us(e: &XmlElement) -> (r: bool)
    ensures
        r == reads(*e),
{
    is_xs_element(e) && e.included
}

/// The read children of element `i`, in order.
pub fn children_read(doc: &XmlDocument, i: usize) -> (r: Vec<usize>)
    requires
        i < doc.elements@.len(),
        doc_wf(doc.elements@),
    ensures
        r@ == read_children(doc.elements@, i as int),
        forall|k: int| 0 <= k < r@.len() ==> (#[trigger] r@[k]) < doc.elements@.len(),
{
    let ghost els = doc.elements@;
    let e = &doc.elements[i];
    let mut out: Vec<usize> = Vec::new();
    let mut k: usize = 0;
    while k < e.children.len()
        invariant
            els == doc.elements@,
            *e == els[i as int],
            i < els.len(),
            doc_wf(els),
            k <= e.children@.len(),
            out@ == kept(els, e.children@.take(k as int)),
            forall|j: int| 0 <= j < out@.len() ==> (#[trigger] out@[j]) < els.len(),
        decreases e.children@.len() - k,
    {
        let c = e.children[k];
        assert(c < els.len());
        proof {
            assert(e.children@.take(k + 1).drop_last() =~= e.children@.take(k as int));
            assert(e.children@.take(k + 1).last() == c);
        }
        if read_by_us(&doc.elements[c]) {
            out.push(c);
        }
        k += 1;
    }
    assert(e.children@.take(k as int) =~= e.children@);
    out
}

/// Appends the report of a finding: an error at `line` of the document at
/// `uri`, with `help` when there is one.
fn report(diags: &mut Diagnostics, uri: &str, code: DiagCode, msg: &Vec<char>, help: Option<&str>, line: u32)
    ensures
        reported(
            old(diags)@,
            final(diags)@,
            seq![
                (
                    code,
                    msg@,
                    match help {
                        Some(h) => Some(h@),
                        None => None,
                    },
                    line,
                ),
            ],
            uri@,
        ),
{
    let text = string_from_chars(msg);
    let d = Diagnostic::error(code, text.as_str()).at(Span::new(uri, line));
    let d = match help {
        Some(h) => d.with_help(h),
        None => d,
    };
    let ghost before = diags@;
    diags.push(d);
    proof {
        assert(diags@.take(before.len() as int) =~= before);
        assert(diags@[before.len() as int] == d);
    }
}

// ---------------------------------------------------------------------------
// The rules, as findings
// ---------------------------------------------------------------------------

/// Rule: an `id` is an NCName, and unique in its document. Gives the
/// findings and the ids seen after this element.
pub open spec fn id_findings(e: XmlElement, ids: Seq<Seq<char>>) -> (Seq<Finding>, Seq<Seq<char>>) {
    match attr(e, "id"@) {
        Some(id) => if !spec_is_ncname(id) {
            (
                seq![(DiagCode::InvalidAttributeValue, "`id` is `"@ + id + "`, which is not an NCName"@, None, e.line)],
                ids,
            )
        } else if ids.contains(id) {
            (
                seq![
                    (
                        DiagCode::DuplicateGlobal,
                        "`id` `"@ + id + "` is used more than once in this document"@,
                        Some("an `xs:ID` is unique within the document that carries it"@),
                        e.line,
                    ),
                ],
                ids,
            )
        } else {
            (Seq::empty(), ids.push(id))
        },
        None => (Seq::empty(), ids),
    }
}

/// Whether `w` names a derivation method.
pub open spec fn is_method_word(w: Seq<char>) -> bool {
    w == "extension"@ || w == "restriction"@ || w == "substitution"@ || w == "list"@ || w == "union"@
}

/// The help for a word of a `block` or `final` that names no method.
pub open spec fn method_help(tok: Seq<char>) -> Seq<char> {
    if tok == "#all"@ {
        "`#all` is the whole value or none of it"@
    } else {
        "expected `#all`, or a list of `extension`, `restriction`, `substitution`, `list` and `union`"@
    }
}

/// The findings for the words of `toks` that name no method.
pub open spec fn token_findings(name: Seq<char>, toks: Seq<Seq<char>>, line: u32) -> Seq<Finding>
    decreases toks.len(),
{
    if toks.len() == 0 {
        Seq::empty()
    } else {
        let prev = token_findings(name, toks.drop_last(), line);
        let tok = toks.last();
        if is_method_word(tok) {
            prev
        } else {
            prev.push(
                (
                    DiagCode::InvalidAttributeValue,
                    "`"@ + name + "` contains `"@ + tok + "`, which is not a derivation method"@,
                    Some(method_help(tok)),
                    line,
                ),
            )
        }
    }
}

/// Rule: a `block` or `final` names derivation methods, or is `#all`.
pub open spec fn method_findings(e: XmlElement, name: Seq<char>) -> Seq<Finding> {
    match attr(e, name) {
        Some(v) => if trimmed(v) == "#all"@ {
            Seq::empty()
        } else {
            token_findings(name, words(trimmed(v)), e.line)
        },
        None => Seq::empty(),
    }
}

/// Whether `e` declares an element or an attribute.
pub open spec fn is_decl(e: XmlElement) -> bool {
    e.local@ == "element"@ || e.local@ == "attribute"@
}

/// Rule: a declaration has a `default` or a `fixed`, not both.
pub open spec fn default_fixed_findings(e: XmlElement) -> Seq<Finding> {
    if is_decl(e) && attr(e, "default"@) is Some && attr(e, "fixed"@) is Some {
        seq![
            (
                DiagCode::InvalidValueConstraint,
                "`xs:"@ + e.local@ + "` has both `default` and `fixed`"@,
                Some("`default` may be overridden and `fixed` may not, so only one applies"@),
                e.line,
            ),
        ]
    } else {
        Seq::empty()
    }
}

/// The attributes that describe a new declaration, barred beside `ref`.
pub open spec fn banned_beside_ref(e: XmlElement) -> Seq<Seq<char>> {
    if e.local@ == "element"@ {
        seq!["nillable"@, "default"@, "fixed"@, "form"@, "block"@, "type"@]
    } else {
        seq!["form"@, "type"@]
    }
}

/// The findings for the attributes of `list` that `e` carries beside `ref`.
pub open spec fn banned_findings(e: XmlElement, list: Seq<Seq<char>>) -> Seq<Finding>
    decreases list.len(),
{
    if list.len() == 0 {
        Seq::empty()
    } else {
        let prev = banned_findings(e, list.drop_last());
        if attr(e, list.last()) is Some {
            prev.push(
                (
                    DiagCode::InvalidAttributeValue,
                    "`xs:"@ + e.local@ + "` may not carry `"@ + list.last() + "` beside `ref`"@,
                    Some("the referenced declaration already says this"@),
                    e.line,
                ),
            )
        } else {
            prev
        }
    }
}

/// Whether a child named `child` describes a new declaration named `name`.
pub open spec fn describes(name: Seq<char>, child: Seq<char>) -> bool {
    if name == "element"@ {
        child == "simpleType"@ || child == "complexType"@ || child == "key"@ || child == "keyref"@ || child
            == "unique"@
    } else {
        child == "simpleType"@
    }
}

/// The findings for the children of `kids` that describe a new declaration.
pub open spec fn describing_findings(els: Seq<XmlElement>, name: Seq<char>, kids: Seq<usize>) -> Seq<Finding>
    decreases kids.len(),
{
    if kids.len() == 0 {
        Seq::empty()
    } else {
        let prev = describing_findings(els, name, kids.drop_last());
        let c = els[kids.last() as int];
        if describes(name, c.local@) {
            prev.push(
                (
                    DiagCode::InvalidAttributeValue,
                    "`xs:"@ + name + "` may not contain `xs:"@ + c.local@ + "` beside `ref`"@,
                    Some("the referenced declaration already says this"@),
                    c.line,
                ),
            )
        } else {
            prev
        }
    }
}

/// Rule: a declaration by `ref` says nothing of its own.
pub open spec fn ref_findings(els: Seq<XmlElement>, i: int) -> Seq<Finding> {
    let e = els[i];
    if is_decl(e) && attr(e, "ref"@) is Some {
        (if attr(e, "name"@) is Some {
            seq![
                (
                    DiagCode::InvalidAttributeValue,
                    "`xs:"@ + e.local@ + "` has both `name` and `ref`"@,
                    Some("`ref` points at a global declaration; `name` makes a new one"@),
                    e.line,
                ),
            ]
        } else {
            Seq::empty()
        }) + banned_findings(e, banned_beside_ref(e)) + describing_findings(els, e.local@, read_children(els, i))
    } else {
        Seq::empty()
    }
}

/// Whether some child of `kids` is named `local`.
pub open spec fn some_named(els: Seq<XmlElement>, kids: Seq<usize>, local: Seq<char>) -> bool {
    exists|k: int| 0 <= k < kids.len() && els[(#[trigger] kids[k]) as int].local@ == local
}

/// An open content's mode, as written, or its default.
pub open spec fn open_mode(e: XmlElement) -> Seq<char> {
    trimmed(
        match attr(e, "mode"@) {
            Some(m) => m,
            None => "interleave"@,
        },
    )
}

/// Rule: open content names a wildcard exactly when its mode is not `none`.
pub open spec fn open_content_findings(els: Seq<XmlElement>, i: int) -> Seq<Finding> {
    let e = els[i];
    if e.local@ == "openContent"@ || e.local@ == "defaultOpenContent"@ {
        let mode = open_mode(e);
        let any = some_named(els, read_children(els, i), "any"@);
        (if mode != "none"@ && !any {
            seq![
                (
                    DiagCode::MissingElement,
                    "`xs:"@ + e.local@ + "` with `mode=\""@ + mode + "\"` needs an `xs:any`"@,
                    Some("only `mode=\"none\"` may leave the wildcard out"@),
                    e.line,
                ),
            ]
        } else {
            Seq::empty()
        }) + (if mode == "none"@ && any {
            seq![
                (
                    DiagCode::InvalidAttributeValue,
                    "`xs:"@ + e.local@ + "` with `mode=\"none\"` may not carry an `xs:any`"@,
                    Some("`none` says the content is not open, so there is nothing to open it with"@),
                    e.line,
                ),
            ]
        } else {
            Seq::empty()
        })
    } else {
        Seq::empty()
    }
}

/// The first child of `kids` named `local`.
pub open spec fn first_named(els: Seq<XmlElement>, kids: Seq<usize>, local: Seq<char>) -> Option<usize>
    decreases kids.len(),
{
    if kids.len() == 0 {
        None
    } else if els[kids[0] as int].local@ == local {
        Some(kids[0])
    } else {
        first_named(els, kids.drop_first(), local)
    }
}

/// A boolean attribute value, read as `boolean_value` reads it.
pub open spec fn bool_of(v: Seq<char>) -> Option<bool> {
    if trimmed(v) == "true"@ || trimmed(v) == "1"@ {
        Some(true)
    } else if trimmed(v) == "false"@ || trimmed(v) == "0"@ {
        Some(false)
    } else {
        None
    }
}

/// Rule: `mixed` on a complex type and on its complex content agree.
pub open spec fn mixed_findings(els: Seq<XmlElement>, i: int) -> Seq<Finding> {
    let e = els[i];
    if e.local@ == "complexType"@ {
        let inner = match first_named(els, read_children(els, i), "complexContent"@) {
            Some(c) => match attr(els[c as int], "mixed"@) {
                Some(v) => bool_of(v),
                None => None,
            },
            None => None,
        };
        let outer = match attr(e, "mixed"@) {
            Some(v) => bool_of(v),
            None => None,
        };
        if inner is Some && outer is Some && inner != outer {
            seq![
                (
                    DiagCode::InvalidAttributeValue,
                    "`mixed` on `xs:complexType` contradicts the one on `xs:complexContent`"@,
                    None,
                    e.line,
                ),
            ]
        } else {
            Seq::empty()
        }
    } else {
        Seq::empty()
    }
}

/// Rule: a wildcard admits namespaces or refuses them, not both.
pub open spec fn wildcard_findings(e: XmlElement) -> Seq<Finding> {
    if (e.local@ == "any"@ || e.local@ == "anyAttribute"@) && attr(e, "namespace"@) is Some && attr(
        e,
        "notNamespace"@,
    ) is Some {
        seq![
            (
                DiagCode::InvalidAttributeValue,
                "`xs:"@ + e.local@ + "` has both `namespace` and `notNamespace`"@,
                Some("they are alternatives: one admits namespaces, the other refuses them"@),
                e.line,
            ),
        ]
    } else {
        Seq::empty()
    }
}

/// Whether an ancestor of element `i`, nearer than any `schema`, is an
/// `xs:restriction` of something other than `xs:anyType`. An unprefixed
/// `anyType` is not matched, which errs towards accepting.
pub open spec fn within_named_restriction(els: Seq<XmlElement>, i: int) -> bool
    decreases i,
{
    if 0 <= i < els.len() {
        match els[i].parent {
            Some(p) => if p < i {
                let n = els[p as int];
                if n.local@ == "schema"@ {
                    false
                } else if is_xs(n) && n.local@ == "restriction"@ {
                    let base = match attr(n, "base"@) {
                        Some(b) => b,
                        None => Seq::empty(),
                    };
                    base.len() > 0 && !":anyType"@.is_suffix_of(base) && base != "anyType"@
                } else {
                    within_named_restriction(els, p as int)
                }
            } else {
                false
            },
            None => false,
        }
    } else {
        false
    }
}

/// Why a declaration may not carry `targetNamespace` where it stands, if it
/// may not.
pub open spec fn target_namespace_fault(els: Seq<XmlElement>, i: int) -> Option<Seq<char>> {
    let e = els[i];
    let top_level = match e.parent {
        Some(p) => els[p as int].local@ == "schema"@,
        None => false,
    };
    if top_level {
        Some("a top-level declaration is already in the document's namespace"@)
    } else if attr(e, "form"@) is Some {
        Some("`form` already decides the namespace"@)
    } else if attr(e, "targetNamespace"@) != attr(els[0], "targetNamespace"@) && !within_named_restriction(els, i) {
        Some("naming another namespace needs an `xs:restriction` of a type other than `xs:anyType`"@)
    } else {
        None
    }
}

/// Rule: a local declaration names its namespace only where that means
/// something.
pub open spec fn target_namespace_findings(els: Seq<XmlElement>, i: int) -> Seq<Finding> {
    let e = els[i];
    if is_decl(e) && attr(e, "targetNamespace"@) is Some {
        match target_namespace_fault(els, i) {
            Some(why) => seq![
                (
                    DiagCode::InvalidAttributeValue,
                    "`xs:"@ + e.local@ + "` may not carry `targetNamespace` here"@,
                    Some(why),
                    e.line,
                ),
            ],
            None => Seq::empty(),
        }
    } else {
        Seq::empty()
    }
}

/// Whether `local` names a model group.
pub open spec fn is_compositor_name(local: Seq<char>) -> bool {
    local == "all"@ || local == "choice"@ || local == "sequence"@
}

/// How many children of `kids` are model groups.
pub open spec fn compositors(els: Seq<XmlElement>, kids: Seq<usize>) -> nat
    decreases kids.len(),
{
    if kids.len() == 0 {
        0
    } else {
        compositors(els, kids.drop_last()) + if is_compositor_name(els[kids.last() as int].local@) {
            1nat
        } else {
            0nat
        }
    }
}

/// Rule: a named model group holds exactly one model group.
pub open spec fn group_findings(els: Seq<XmlElement>, i: int) -> Seq<Finding> {
    let e = els[i];
    if e.local@ == "group"@ && attr(e, "name"@) is Some {
        let n = compositors(els, read_children(els, i));
        if n != 1 {
            seq![
                (
                    DiagCode::ConflictingTypeDefinition,
                    "`xs:group` must contain exactly one of `xs:all`, `xs:choice` or `xs:sequence`, found "@
                        + decimal_chars(n),
                    None,
                    e.line,
                ),
            ]
        } else {
            Seq::empty()
        }
    } else {
        Seq::empty()
    }
}

/// Every rule at element `i`, in order, with the ids seen so far; gives the
/// findings and the ids seen after it.
pub open spec fn element_findings(els: Seq<XmlElement>, i: int, ids: Seq<Seq<char>>) -> (Seq<Finding>, Seq<Seq<char>>) {
    let e = els[i];
    let (fid, ids2) = id_findings(e, ids);
    (
        fid + method_findings(e, "block"@) + method_findings(e, "final"@) + method_findings(e, "blockDefault"@)
            + method_findings(e, "finalDefault"@) + default_fixed_findings(e) + ref_findings(els, i)
            + open_content_findings(els, i) + mixed_findings(els, i) + wildcard_findings(e)
            + target_namespace_findings(els, i) + group_findings(els, i),
        ids2,
    )
}

/// The findings of the first `n` elements read, in document order, and the
/// ids seen.
pub open spec fn representation_findings(els: Seq<XmlElement>, n: nat) -> (Seq<Finding>, Seq<Seq<char>>)
    decreases n,
{
    if n == 0 {
        (Seq::empty(), Seq::empty())
    } else {
        let (prev, ids) = representation_findings(els, (n - 1) as nat);
        if reads(els[n - 1]) {
            let (here, ids2) = element_findings(els, n - 1, ids);
            (prev + here, ids2)
        } else {
            (prev, ids)
        }
    }
}

/// The findings for the annotations among `kids` from the `k`-th on, with
/// whether one was seen before: a second one, or a first one not first.
pub open spec fn annotation_findings(els: Seq<XmlElement>, owner: Seq<char>, kids: Seq<usize>, k: nat, seen: bool) -> Seq<
    Finding,
>
    decreases kids.len() - k,
{
    if k >= kids.len() {
        Seq::empty()
    } else {
        let c = els[kids[k as int] as int];
        if c.local@ != "annotation"@ {
            annotation_findings(els, owner, kids, k + 1, seen)
        } else if seen {
            seq![(DiagCode::MisplacedAnnotation, "`xs:"@ + owner + "` may have only one `xs:annotation`"@, None, c.line)]
                + annotation_findings(els, owner, kids, k + 1, true)
        } else if k != 0 {
            seq![
                (
                    DiagCode::MisplacedAnnotation,
                    "`xs:annotation` must be the first child of `xs:"@ + owner + "`"@,
                    None,
                    c.line,
                ),
            ] + annotation_findings(els, owner, kids, k + 1, true)
        } else {
            annotation_findings(els, owner, kids, k + 1, true)
        }
    }
}

/// Whether an element's content model lets annotations sit anywhere, or it
/// is one.
pub open spec fn annotations_anywhere(local: Seq<char>) -> bool {
    local == "schema"@ || local == "redefine"@ || local == "override"@ || local == "annotation"@
}

/// The placement findings of the first `n` elements read.
pub open spec fn placement_findings(els: Seq<XmlElement>, n: nat) -> Seq<Finding>
    decreases n,
{
    if n == 0 {
        Seq::empty()
    } else {
        let prev = placement_findings(els, (n - 1) as nat);
        let e = els[n - 1];
        if reads(e) && !annotations_anywhere(e.local@) {
            prev + annotation_findings(els, e.local@, read_children(els, n - 1), 0, false)
        } else {
            prev
        }
    }
}

// ---------------------------------------------------------------------------
// The rules, checked
// ---------------------------------------------------------------------------

/// The views of the ids seen.
pub open spec fn ids_view(ids: Seq<Vec<char>>) -> Seq<Seq<char>> {
    ids.map_values(|v: Vec<char>| v@)
}

/// Rule: an `id` is an NCName, and unique in its document.
fn check_id(doc: &XmlDocument, i: usize, ids: &mut Vec<Vec<char>>, diags: &mut Diagnostics)
    requires
        i < doc.elements@.len(),
    ensures
        ({
            let (f, seen) = id_findings(doc.elements@[i as int], ids_view(old(ids)@));
            &&& reported(old(diags)@, final(diags)@, f, doc.uri@)
            &&& ids_view(final(ids)@) == seen
        }),
{
    let e = &doc.elements[i];
    let ghost before = diags@;
    proof {
        reveal_strlit("id");
    }
    match attribute(e, "id") {
        Some(id) => {
            if !is_ncname(id) {
                let mut m: Vec<char> = Vec::new();
                push_str(&mut m, "`id` is `");
                push_str(&mut m, id);
                push_str(&mut m, "`, which is not an NCName");
                report(diags, doc.uri.as_str(), DiagCode::InvalidAttributeValue, &m, None, e.line);
                return;
            }
            let v = str_chars(id);
            let mut seen = false;
            let mut k: usize = 0;
            while k < ids.len()
                invariant
                    k <= ids@.len(),
                    seen == exists|j: int| 0 <= j < k && (#[trigger] ids@[j])@ == v@,
                decreases ids@.len() - k,
            {
                if crate::text::chars_eq(&ids[k], &v) {
                    seen = true;
                }
                k += 1;
            }
            proof {
                let iv = ids_view(ids@);
                if seen {
                    let j = choose|j: int| 0 <= j < ids@.len() && (#[trigger] ids@[j])@ == v@;
                    assert(iv[j] == v@);
                } else {
                    assert forall|j: int| 0 <= j < iv.len() implies iv[j] != v@ by {
                        assert(iv[j] == ids@[j]@);
                    }
                }
                assert(iv.contains(v@) == seen);
            }
            if seen {
                let mut m: Vec<char> = Vec::new();
                push_str(&mut m, "`id` `");
                push_str(&mut m, id);
                push_str(&mut m, "` is used more than once in this document");
                report(
                    diags,
                    doc.uri.as_str(),
                    DiagCode::DuplicateGlobal,
                    &m,
                    Some("an `xs:ID` is unique within the document that carries it"),
                    e.line,
                );
            } else {
                let ghost old_ids = ids_view(ids@);
                ids.push(v);
                proof {
                    assert(ids_view(ids@) =~= old_ids.push(id@));
                    lemma_reported_none(before, doc.uri@);
                }
            }
        },
        None => {
            proof {
                lemma_reported_none(before, doc.uri@);
            }
        },
    }
}

/// Whether `w` names a derivation method.
fn method_word(w: &Vec<char>) -> (r: bool)
    ensures
        r == is_method_word(w@),
{
    let ws = crate::model::DerivationSet::keywords();
    let mut k: usize = 0;
    let mut found = false;
    proof {
        reveal_strlit("extension");
        reveal_strlit("restriction");
        reveal_strlit("substitution");
        reveal_strlit("list");
        reveal_strlit("union");
    }
    while k < 5
        invariant
            k <= 5,
            ws[0] == "extension",
            ws[1] == "restriction",
            ws[2] == "substitution",
            ws[3] == "list",
            ws[4] == "union",
            found == exists|j: int| 0 <= j < k && w@ == (#[trigger] ws[j])@,
        decreases 5 - k,
    {
        let l = str_chars(ws[k]);
        if crate::text::chars_eq(w, &l) {
            found = true;
        }
        k += 1;
    }
    proof {
        if is_method_word(w@) {
            if w@ == "extension"@ {
                assert(w@ == ws[0]@);
            } else if w@ == "restriction"@ {
                assert(w@ == ws[1]@);
            } else if w@ == "substitution"@ {
                assert(w@ == ws[2]@);
            } else if w@ == "list"@ {
                assert(w@ == ws[3]@);
            } else {
                assert(w@ == ws[4]@);
            }
        }
    }
    found
}

/// Rule: a `block` or `final` names derivation methods, or is `#all`.
fn check_methods(doc: &XmlDocument, i: usize, name: &str, diags: &mut Diagnostics)
    requires
        i < doc.elements@.len(),
    ensures
        reported(old(diags)@, final(diags)@, method_findings(doc.elements@[i as int], name@), doc.uri@),
{
    let e = &doc.elements[i];
    let ghost before = diags@;
    proof {
        lemma_reported_none(before, doc.uri@);
    }
    let value = match attribute(e, name) {
        Some(v) => v,
        None => return,
    };
    let t = trim_vec(&str_chars(value));
    proof {
        reveal_strlit("#all");
    }
    let all = str_chars("#all");
    if crate::text::chars_eq(&t, &all) {
        return;
    }
    let ts = string_from_chars(&t);
    let toks = split_words(ts.as_str());
    let ghost ws = words(trimmed(value@));
    let mut k: usize = 0;
    assert(ws.take(0) =~= Seq::<Seq<char>>::empty());
    while k < toks.len()
        invariant
            k <= toks@.len(),
            toks@.len() == ws.len(),
            forall|j: int| 0 <= j < toks@.len() ==> toks@[j]@ == #[trigger] ws[j],
            reported(before, diags@, token_findings(name@, ws.take(k as int), e.line), doc.uri@),
            e == doc.elements@[i as int],
            all@ == "#all"@,
        decreases toks@.len() - k,
    {
        let tok = &toks[k];
        assert(tok@ == ws[k as int]);
        let ghost mid = diags@;
        proof {
            assert(ws.take(k + 1).drop_last() =~= ws.take(k as int));
            assert(ws.take(k + 1).last() == tok@);
        }
        if !method_word(tok) {
            let mut m: Vec<char> = Vec::new();
            push_str(&mut m, "`");
            push_str(&mut m, name);
            push_str(&mut m, "` contains `");
            let ts2 = string_from_chars(tok);
            push_str(&mut m, ts2.as_str());
            push_str(&mut m, "`, which is not a derivation method");
            proof {
                reveal_strlit("#all");
            }
            let is_all = crate::text::chars_eq(tok, &all);
            assert(is_all == (tok@ == "#all"@));
            let help = if is_all {
                "`#all` is the whole value or none of it"
            } else {
                "expected `#all`, or a list of `extension`, `restriction`, `substitution`, `list` and `union`"
            };
            report(diags, doc.uri.as_str(), DiagCode::InvalidAttributeValue, &m, Some(help), e.line);
            proof {
                assert(help@ == method_help(tok@));
                assert(m@ =~= "`"@ + name@ + "` contains `"@ + tok@ + "`, which is not a derivation method"@);
                lemma_reported_chain(
                    before,
                    mid,
                    diags@,
                    token_findings(name@, ws.take(k as int), e.line),
                    seq![
                        (
                            DiagCode::InvalidAttributeValue,
                            m@,
                            Some(help@),
                            e.line,
                        ),
                    ],
                    doc.uri@,
                );
                assert(token_findings(name@, ws.take(k as int), e.line) + seq![
                    (
                        DiagCode::InvalidAttributeValue,
                        m@,
                        Some(help@),
                        e.line,
                    ),
                ] =~= token_findings(name@, ws.take(k + 1), e.line));
            }
        }
        k += 1;
    }
    assert(ws.take(k as int) =~= ws);
}

/// Rule: a declaration has a `default` or a `fixed`, not both.
fn check_default_fixed(doc: &XmlDocument, i: usize, diags: &mut Diagnostics)
    requires
        i < doc.elements@.len(),
    ensures
        reported(old(diags)@, final(diags)@, default_fixed_findings(doc.elements@[i as int]), doc.uri@),
{
    let e = &doc.elements[i];
    proof {
        reveal_strlit("element");
        reveal_strlit("attribute");
        reveal_strlit("default");
        reveal_strlit("fixed");
        lemma_reported_none(diags@, doc.uri@);
    }
    if is_declaration(e) && has_attribute(e, "default") && has_attribute(e, "fixed") {
        let mut m: Vec<char> = Vec::new();
        push_str(&mut m, "`xs:");
        push_str(&mut m, e.local.as_str());
        push_str(&mut m, "` has both `default` and `fixed`");
        report(
            diags,
            doc.uri.as_str(),
            DiagCode::InvalidValueConstraint,
            &m,
            Some("`default` may be overridden and `fixed` may not, so only one applies"),
            e.line,
        );
    }
}

/// Whether `e` declares an element or an attribute.
fn is_declaration(e: &XmlElement) -> (r: bool)
    ensures
        r == is_decl(*e),
{
    crate::text::str_eq(e.local.as_str(), "element") || crate::text::str_eq(e.local.as_str(), "attribute")
}

/// Rule: a declaration by `ref` says nothing of its own.
fn check_ref(doc: &XmlDocument, i: usize, diags: &mut Diagnostics)
    requires
        i < doc.elements@.len(),
        doc_wf(doc.elements@),
    ensures
        reported(old(diags)@, final(diags)@, ref_findings(doc.elements@, i as int), doc.uri@),
{
    let ghost els = doc.elements@;
    let e = &doc.elements[i];
    let ghost before = diags@;
    proof {
        reveal_strlit("ref");
        reveal_strlit("name");
        lemma_reported_none(before, doc.uri@);
    }
    if !(is_declaration(e) && has_attribute(e, "ref")) {
        return;
    }
    if has_attribute(e, "name") {
        let mut m: Vec<char> = Vec::new();
        push_str(&mut m, "`xs:");
        push_str(&mut m, e.local.as_str());
        push_str(&mut m, "` has both `name` and `ref`");
        report(
            diags,
            doc.uri.as_str(),
            DiagCode::InvalidAttributeValue,
            &m,
            Some("`ref` points at a global declaration; `name` makes a new one"),
            e.line,
        );
    }
    let ghost after_name = diags@;
    let is_element = crate::text::str_eq(e.local.as_str(), "element");
    let banned: Vec<&str> = if is_element {
        vec!["nillable", "default", "fixed", "form", "block", "type"]
    } else {
        vec!["form", "type"]
    };
    proof {
        reveal_strlit("element");
        reveal_strlit("nillable");
        reveal_strlit("default");
        reveal_strlit("fixed");
        reveal_strlit("form");
        reveal_strlit("block");
        reveal_strlit("type");
        assert(banned@.map_values(|s: &str| s@) =~= banned_beside_ref(*e));
    }
    let ghost list = banned_beside_ref(*e);
    let mut k: usize = 0;
    assert(list.take(0) =~= Seq::<Seq<char>>::empty());
    proof {
        lemma_reported_none(after_name, doc.uri@);
    }
    while k < banned.len()
        invariant
            k <= banned@.len(),
            banned@.len() == list.len(),
            forall|j: int| 0 <= j < banned@.len() ==> (#[trigger] banned@[j])@ == list[j],
            reported(after_name, diags@, banned_findings(*e, list.take(k as int)), doc.uri@),
            e == doc.elements@[i as int],
        decreases banned@.len() - k,
    {
        let a = banned[k];
        assert(a@ == list[k as int]);
        let ghost mid = diags@;
        proof {
            assert(list.take(k + 1).drop_last() =~= list.take(k as int));
            assert(list.take(k + 1).last() == a@);
        }
        if has_attribute(e, a) {
            let mut m: Vec<char> = Vec::new();
            push_str(&mut m, "`xs:");
            push_str(&mut m, e.local.as_str());
            push_str(&mut m, "` may not carry `");
            push_str(&mut m, a);
            push_str(&mut m, "` beside `ref`");
            report(
                diags,
                doc.uri.as_str(),
                DiagCode::InvalidAttributeValue,
                &m,
                Some("the referenced declaration already says this"),
                e.line,
            );
            proof {
                let f = seq![(DiagCode::InvalidAttributeValue, m@, Some("the referenced declaration already says this"@), e.line)];
                lemma_reported_chain(after_name, mid, diags@, banned_findings(*e, list.take(k as int)), f, doc.uri@);
                assert(banned_findings(*e, list.take(k as int)) + f =~= banned_findings(*e, list.take(k + 1)));
            }
        }
        k += 1;
    }
    assert(list.take(k as int) =~= list);
    let ghost after_banned = diags@;
    let kids = children_read(doc, i);
    let ghost ks = kids@;
    let mut j: usize = 0;
    assert(ks.take(0) =~= Seq::<usize>::empty());
    proof {
        lemma_reported_none(after_banned, doc.uri@);
    }
    while j < kids.len()
        invariant
            j <= ks.len(),
            ks == kids@,
            ks == read_children(els, i as int),
            els == doc.elements@,
            forall|q: int| 0 <= q < ks.len() ==> (#[trigger] ks[q]) < els.len(),
            reported(after_banned, diags@, describing_findings(els, e.local@, ks.take(j as int)), doc.uri@),
            e == doc.elements@[i as int],
            is_element == (e.local@ == "element"@),
        decreases ks.len() - j,
    {
        let c = &doc.elements[kids[j]];
        assert(*c == els[ks[j as int] as int]);
        assert(is_element == (e.local@ == "element"@));
        let ghost mid = diags@;
        proof {
            assert(ks.take(j + 1).drop_last() =~= ks.take(j as int));
            assert(ks.take(j + 1).last() == kids[j as int]);
        }
        if child_describes(is_element, c) {
            let mut m: Vec<char> = Vec::new();
            push_str(&mut m, "`xs:");
            push_str(&mut m, e.local.as_str());
            push_str(&mut m, "` may not contain `xs:");
            push_str(&mut m, c.local.as_str());
            push_str(&mut m, "` beside `ref`");
            report(
                diags,
                doc.uri.as_str(),
                DiagCode::InvalidAttributeValue,
                &m,
                Some("the referenced declaration already says this"),
                c.line,
            );
            proof {
                assert(m@ =~= "`xs:"@ + e.local@ + "` may not contain `xs:"@ + c.local@ + "` beside `ref`"@);
                let f = seq![(DiagCode::InvalidAttributeValue, m@, Some("the referenced declaration already says this"@), c.line)];
                lemma_reported_chain(after_banned, mid, diags@, describing_findings(els, e.local@, ks.take(j as int)), f, doc.uri@);
                assert(describing_findings(els, e.local@, ks.take(j as int)) + f =~= describing_findings(
                    els,
                    e.local@,
                    ks.take(j + 1),
                ));
            }
        }
        j += 1;
    }
    assert(ks.take(j as int) =~= ks);
    proof {
        let name_f = if attr(*e, "name"@) is Some {
            seq![
                (
                    DiagCode::InvalidAttributeValue,
                    "`xs:"@ + e.local@ + "` has both `name` and `ref`"@,
                    Some("`ref` points at a global declaration; `name` makes a new one"@),
                    e.line,
                ),
            ]
        } else {
            Seq::empty()
        };
        lemma_reported_chain(before, after_name, after_banned, name_f, banned_findings(*e, list), doc.uri@);
        lemma_reported_chain(
            before,
            after_banned,
            diags@,
            name_f + banned_findings(*e, list),
            describing_findings(els, e.local@, ks),
            doc.uri@,
        );
    }
}

/// Whether a child describes a new declaration, `element` telling which kind.
fn child_describes(element: bool, c: &XmlElement) -> (r: bool)
    ensures
        element ==> r == describes("element"@, c.local@),
        !element ==> forall|name: Seq<char>| name != "element"@ ==> r == #[trigger] describes(name, c.local@),
{
    let l = c.local.as_str();
    if element {
        crate::text::str_eq(l, "simpleType") || crate::text::str_eq(l, "complexType") || crate::text::str_eq(l, "key")
            || crate::text::str_eq(l, "keyref") || crate::text::str_eq(l, "unique")
    } else {
        crate::text::str_eq(l, "simpleType")
    }
}

/// Whether some child of `kids` is named `local`.
fn any_named(doc: &XmlDocument, kids: &Vec<usize>, local: &str) -> (r: bool)
    requires
        forall|q: int| 0 <= q < kids@.len() ==> (#[trigger] kids@[q]) < doc.elements@.len(),
    ensures
        r == some_named(doc.elements@, kids@, local@),
{
    let mut k: usize = 0;
    while k < kids.len()
        invariant
            k <= kids@.len(),
            forall|q: int| 0 <= q < kids@.len() ==> (#[trigger] kids@[q]) < doc.elements@.len(),
            forall|q: int| 0 <= q < k ==> doc.elements@[(#[trigger] kids@[q]) as int].local@ != local@,
        decreases kids@.len() - k,
    {
        if crate::text::str_eq(doc.elements[kids[k]].local.as_str(), local) {
            return true;
        }
        k += 1;
    }
    false
}

/// Rule: open content names a wildcard exactly when its mode is not `none`.
fn check_open_content(doc: &XmlDocument, i: usize, diags: &mut Diagnostics)
    requires
        i < doc.elements@.len(),
        doc_wf(doc.elements@),
    ensures
        reported(old(diags)@, final(diags)@, open_content_findings(doc.elements@, i as int), doc.uri@),
{
    let e = &doc.elements[i];
    let ghost before = diags@;
    proof {
        lemma_reported_none(before, doc.uri@);
    }
    if !(crate::text::str_eq(e.local.as_str(), "openContent") || crate::text::str_eq(
        e.local.as_str(),
        "defaultOpenContent",
    )) {
        return;
    }
    let mode = match attribute(e, "mode") {
        Some(m) => trim_vec(&str_chars(m)),
        None => trim_vec(&str_chars("interleave")),
    };
    assert(mode@ == open_mode(*e));
    let kids = children_read(doc, i);
    let any = any_named(doc, &kids, "any");
    let none = str_chars("none");
    let is_none = crate::text::chars_eq(&mode, &none);
    let ms = string_from_chars(&mode);
    if !is_none && !any {
        let mut m: Vec<char> = Vec::new();
        push_str(&mut m, "`xs:");
        push_str(&mut m, e.local.as_str());
        push_str(&mut m, "` with `mode=\"");
        push_str(&mut m, ms.as_str());
        push_str(&mut m, "\"` needs an `xs:any`");
        report(
            diags,
            doc.uri.as_str(),
            DiagCode::MissingElement,
            &m,
            Some("only `mode=\"none\"` may leave the wildcard out"),
            e.line,
        );
        assert(m@ =~= "`xs:"@ + e.local@ + "` with `mode=\""@ + mode@ + "\"` needs an `xs:any`"@);
    }
    let ghost mid = diags@;
    if is_none && any {
        let mut m: Vec<char> = Vec::new();
        push_str(&mut m, "`xs:");
        push_str(&mut m, e.local.as_str());
        push_str(&mut m, "` with `mode=\"none\"` may not carry an `xs:any`");
        report(
            diags,
            doc.uri.as_str(),
            DiagCode::InvalidAttributeValue,
            &m,
            Some("`none` says the content is not open, so there is nothing to open it with"),
            e.line,
        );
        assert(m@ =~= "`xs:"@ + e.local@ + "` with `mode=\"none\"` may not carry an `xs:any`"@);
    } else {
        proof {
            lemma_reported_none(mid, doc.uri@);
        }
    }
    proof {
        if !(!is_none && !any) {
            lemma_reported_none(before, doc.uri@);
        }
        let first = if mode@ != "none"@ && !any {
            seq![
                (
                    DiagCode::MissingElement,
                    "`xs:"@ + e.local@ + "` with `mode=\""@ + mode@ + "\"` needs an `xs:any`"@,
                    Some("only `mode=\"none\"` may leave the wildcard out"@),
                    e.line,
                ),
            ]
        } else {
            Seq::empty()
        };
        let second = if mode@ == "none"@ && any {
            seq![
                (
                    DiagCode::InvalidAttributeValue,
                    "`xs:"@ + e.local@ + "` with `mode=\"none\"` may not carry an `xs:any`"@,
                    Some("`none` says the content is not open, so there is nothing to open it with"@),
                    e.line,
                ),
            ]
        } else {
            Seq::empty()
        };
        lemma_reported_chain(before, mid, diags@, first, second, doc.uri@);
    }
}

/// The first child of `kids` named `local`.
fn first_child_named(doc: &XmlDocument, kids: &Vec<usize>, local: &str) -> (r: Option<usize>)
    requires
        forall|q: int| 0 <= q < kids@.len() ==> (#[trigger] kids@[q]) < doc.elements@.len(),
    ensures
        r == first_named(doc.elements@, kids@, local@),
        r matches Some(c) ==> c < doc.elements@.len(),
{
    let mut k: usize = 0;
    assert(kids@.skip(0) =~= kids@);
    while k < kids.len()
        invariant
            k <= kids@.len(),
            forall|q: int| 0 <= q < kids@.len() ==> (#[trigger] kids@[q]) < doc.elements@.len(),
            first_named(doc.elements@, kids@, local@) == first_named(doc.elements@, kids@.skip(k as int), local@),
        decreases kids@.len() - k,
    {
        assert(kids@.skip(k as int)[0] == kids@[k as int]);
        if crate::text::str_eq(doc.elements[kids[k]].local.as_str(), local) {
            return Some(kids[k]);
        }
        assert(kids@.skip(k as int).drop_first() =~= kids@.skip(k + 1));
        k += 1;
    }
    None
}

/// Rule: `mixed` on a complex type and on its complex content agree.
fn check_mixed(doc: &XmlDocument, i: usize, diags: &mut Diagnostics)
    requires
        i < doc.elements@.len(),
        doc_wf(doc.elements@),
    ensures
        reported(old(diags)@, final(diags)@, mixed_findings(doc.elements@, i as int), doc.uri@),
{
    let e = &doc.elements[i];
    proof {
        lemma_reported_none(diags@, doc.uri@);
    }
    if !crate::text::str_eq(e.local.as_str(), "complexType") {
        return;
    }
    let kids = children_read(doc, i);
    let inner = match first_child_named(doc, &kids, "complexContent") {
        Some(c) => match attribute(&doc.elements[c], "mixed") {
            Some(v) => boolean_value(v),
            None => None,
        },
        None => None,
    };
    let outer = match attribute(e, "mixed") {
        Some(v) => boolean_value(v),
        None => None,
    };
    match (outer, inner) {
        (Some(a), Some(b)) => {
            if a != b {
                let m = str_chars("`mixed` on `xs:complexType` contradicts the one on `xs:complexContent`");
                report(diags, doc.uri.as_str(), DiagCode::InvalidAttributeValue, &m, None, e.line);
            }
        },
        _ => {},
    }
}

/// Rule: a wildcard admits namespaces or refuses them, not both.
fn check_wildcard(doc: &XmlDocument, i: usize, diags: &mut Diagnostics)
    requires
        i < doc.elements@.len(),
    ensures
        reported(old(diags)@, final(diags)@, wildcard_findings(doc.elements@[i as int]), doc.uri@),
{
    let e = &doc.elements[i];
    proof {
        lemma_reported_none(diags@, doc.uri@);
    }
    if (crate::text::str_eq(e.local.as_str(), "any") || crate::text::str_eq(e.local.as_str(), "anyAttribute"))
        && has_attribute(e, "namespace") && has_attribute(e, "notNamespace") {
        let mut m: Vec<char> = Vec::new();
        push_str(&mut m, "`xs:");
        push_str(&mut m, e.local.as_str());
        push_str(&mut m, "` has both `namespace` and `notNamespace`");
        report(
            diags,
            doc.uri.as_str(),
            DiagCode::InvalidAttributeValue,
            &m,
            Some("they are alternatives: one admits namespaces, the other refuses them"),
            e.line,
        );
    }
}

/// Whether `s` ends with `suffix`.
fn ends_with(s: &Vec<char>, suffix: &str) -> (r: bool)
    ensures
        r == suffix@.is_suffix_of(s@),
{
    let t = str_chars(suffix);
    if t.len() > s.len() {
        return false;
    }
    let n = s.len();
    let off = n - t.len();
    let mut k: usize = 0;
    while k < t.len()
        invariant
            k <= t@.len(),
            n == s@.len(),
            off + t@.len() == s@.len(),
            t@ == suffix@,
            forall|q: int| 0 <= q < k ==> s@[off + q] == t@[q],
        decreases t@.len() - k,
    {
        assert(off + k < s@.len());
        if s[off + k] != t[k] {
            assert(s@.subrange(off as int, s@.len() as int)[k as int] != t@[k as int]);
            return false;
        }
        k += 1;
    }
    assert(s@.subrange(off as int, s@.len() as int) =~= t@);
    true
}

/// Whether an ancestor of element `i`, nearer than any `schema`, is an
/// `xs:restriction` of something other than `xs:anyType`.
fn within_restriction_of_a_named_type(doc: &XmlDocument, i: usize) -> (r: bool)
    requires
        i < doc.elements@.len(),
        doc_wf(doc.elements@),
    ensures
        r == within_named_restriction(doc.elements@, i as int),
    decreases i,
{
    let ghost els = doc.elements@;
    let p = match doc.elements[i].parent {
        Some(p) => p,
        None => return false,
    };
    assert(p < i);
    let n = &doc.elements[p];
    if crate::text::str_eq(n.local.as_str(), "schema") {
        return false;
    }
    if is_xs_element(n) && crate::text::str_eq(n.local.as_str(), "restriction") {
        let base = match attribute(n, "base") {
            Some(b) => str_chars(b),
            None => Vec::new(),
        };
        let any_type = str_chars("anyType");
        return base.len() > 0 && !ends_with(&base, ":anyType") && !crate::text::chars_eq(&base, &any_type);
    }
    within_restriction_of_a_named_type(doc, p)
}

/// Rule: a local declaration names its namespace only where that means
/// something.
fn check_target_namespace(doc: &XmlDocument, i: usize, diags: &mut Diagnostics)
    requires
        i < doc.elements@.len(),
        doc_wf(doc.elements@),
    ensures
        reported(old(diags)@, final(diags)@, target_namespace_findings(doc.elements@, i as int), doc.uri@),
{
    let e = &doc.elements[i];
    proof {
        lemma_reported_none(diags@, doc.uri@);
    }
    if !(is_declaration(e) && has_attribute(e, "targetNamespace")) {
        return;
    }
    let top_level = match e.parent {
        Some(p) => crate::text::str_eq(doc.elements[p].local.as_str(), "schema"),
        None => false,
    };
    let why: Option<&str> = if top_level {
        Some("a top-level declaration is already in the document's namespace")
    } else if has_attribute(e, "form") {
        Some("`form` already decides the namespace")
    } else {
        let mine = attribute(e, "targetNamespace");
        let root = attribute(&doc.elements[0], "targetNamespace");
        let same = match (mine, root) {
            (Some(a), Some(b)) => crate::text::str_eq(a, b),
            (None, None) => true,
            _ => false,
        };
        if !same && !within_restriction_of_a_named_type(doc, i) {
            Some("naming another namespace needs an `xs:restriction` of a type other than `xs:anyType`")
        } else {
            None
        }
    };
    assert(match why {
        Some(w) => target_namespace_fault(doc.elements@, i as int) == Some(w@),
        None => target_namespace_fault(doc.elements@, i as int) is None,
    });
    match why {
        Some(w) => {
            let mut m: Vec<char> = Vec::new();
            push_str(&mut m, "`xs:");
            push_str(&mut m, e.local.as_str());
            push_str(&mut m, "` may not carry `targetNamespace` here");
            report(diags, doc.uri.as_str(), DiagCode::InvalidAttributeValue, &m, Some(w), e.line);
        },
        None => {},
    }
}

/// Rule: a named model group holds exactly one model group.
fn check_group(doc: &XmlDocument, i: usize, diags: &mut Diagnostics)
    requires
        i < doc.elements@.len(),
        doc_wf(doc.elements@),
    ensures
        reported(old(diags)@, final(diags)@, group_findings(doc.elements@, i as int), doc.uri@),
{
    let ghost els = doc.elements@;
    let e = &doc.elements[i];
    proof {
        lemma_reported_none(diags@, doc.uri@);
    }
    if !(crate::text::str_eq(e.local.as_str(), "group") && has_attribute(e, "name")) {
        return;
    }
    let kids = children_read(doc, i);
    let mut count: u64 = 0;
    let mut k: usize = 0;
    assert(kids@.take(0) =~= Seq::<usize>::empty());
    while k < kids.len()
        invariant
            k <= kids@.len(),
            els == doc.elements@,
            forall|q: int| 0 <= q < kids@.len() ==> (#[trigger] kids@[q]) < els.len(),
            count == compositors(els, kids@.take(k as int)),
            count <= k,
        decreases kids@.len() - k,
    {
        let l = doc.elements[kids[k]].local.as_str();
        proof {
            assert(kids@.take(k + 1).drop_last() =~= kids@.take(k as int));
            assert(kids@.take(k + 1).last() == kids[k as int]);
        }
        if crate::text::str_eq(l, "all") || crate::text::str_eq(l, "choice") || crate::text::str_eq(l, "sequence") {
            count += 1;
        }
        k += 1;
    }
    assert(kids@.take(k as int) =~= kids@);
    if count != 1 {
        let mut m: Vec<char> = Vec::new();
        push_str(&mut m, "`xs:group` must contain exactly one of `xs:all`, `xs:choice` or `xs:sequence`, found ");
        push_decimal(&mut m, count as u128);
        report(diags, doc.uri.as_str(), DiagCode::ConflictingTypeDefinition, &m, None, e.line);
    }
}

/// Every rule at element `i`, in order.
fn check_element(doc: &XmlDocument, i: usize, ids: &mut Vec<Vec<char>>, diags: &mut Diagnostics)
    requires
        i < doc.elements@.len(),
        doc_wf(doc.elements@),
    ensures
        ({
            let (f, seen) = element_findings(doc.elements@, i as int, ids_view(old(ids)@));
            &&& reported(old(diags)@, final(diags)@, f, doc.uri@)
            &&& ids_view(final(ids)@) == seen
        }),
{
    let ghost els = doc.elements@;
    let ghost e = els[i as int];
    let ghost u = doc.uri@;
    let ghost d0 = diags@;
    check_id(doc, i, ids, diags);
    let ghost d1 = diags@;
    check_methods(doc, i, "block", diags);
    let ghost d2 = diags@;
    check_methods(doc, i, "final", diags);
    let ghost d3 = diags@;
    check_methods(doc, i, "blockDefault", diags);
    let ghost d4 = diags@;
    check_methods(doc, i, "finalDefault", diags);
    let ghost d5 = diags@;
    check_default_fixed(doc, i, diags);
    let ghost d6 = diags@;
    check_ref(doc, i, diags);
    let ghost d7 = diags@;
    check_open_content(doc, i, diags);
    let ghost d8 = diags@;
    check_mixed(doc, i, diags);
    let ghost d9 = diags@;
    check_wildcard(doc, i, diags);
    let ghost d10 = diags@;
    check_target_namespace(doc, i, diags);
    let ghost d11 = diags@;
    check_group(doc, i, diags);
    proof {
        let f1 = id_findings(e, ids_view(old(ids)@)).0;
        let f2 = f1 + method_findings(e, "block"@);
        let f3 = f2 + method_findings(e, "final"@);
        let f4 = f3 + method_findings(e, "blockDefault"@);
        let f5 = f4 + method_findings(e, "finalDefault"@);
        let f6 = f5 + default_fixed_findings(e);
        let f7 = f6 + ref_findings(els, i as int);
        let f8 = f7 + open_content_findings(els, i as int);
        let f9 = f8 + mixed_findings(els, i as int);
        let f10 = f9 + wildcard_findings(e);
        let f11 = f10 + target_namespace_findings(els, i as int);
        lemma_reported_chain(d0, d1, d2, f1, method_findings(e, "block"@), u);
        lemma_reported_chain(d0, d2, d3, f2, method_findings(e, "final"@), u);
        lemma_reported_chain(d0, d3, d4, f3, method_findings(e, "blockDefault"@), u);
        lemma_reported_chain(d0, d4, d5, f4, method_findings(e, "finalDefault"@), u);
        lemma_reported_chain(d0, d5, d6, f5, default_fixed_findings(e), u);
        lemma_reported_chain(d0, d6, d7, f6, ref_findings(els, i as int), u);
        lemma_reported_chain(d0, d7, d8, f7, open_content_findings(els, i as int), u);
        lemma_reported_chain(d0, d8, d9, f8, mixed_findings(els, i as int), u);
        lemma_reported_chain(d0, d9, d10, f9, wildcard_findings(e), u);
        lemma_reported_chain(d0, d10, d11, f10, target_namespace_findings(els, i as int), u);
        lemma_reported_chain(d0, d11, diags@, f11, group_findings(els, i as int), u);
    }
}

/// Where `xs:annotation` may sit: one, first, except where a content model
/// interleaves them.
fn check_annotation_placement(doc: &XmlDocument, diags: &mut Diagnostics)
    requires
        doc_wf(doc.elements@),
    ensures
        reported(old(diags)@, final(diags)@, placement_findings(doc.elements@, doc.elements@.len()), doc.uri@),
{
    let ghost els = doc.elements@;
    let ghost u = doc.uri@;
    let ghost start = diags@;
    proof {
        lemma_reported_none(start, u);
    }
    let mut i: usize = 0;
    while i < doc.elements.len()
        invariant
            i <= els.len(),
            els == doc.elements@,
            u == doc.uri@,
            doc_wf(els),
            reported(start, diags@, placement_findings(els, i as nat), u),
        decreases els.len() - i,
    {
        let e = &doc.elements[i];
        let l = e.local.as_str();
        let anywhere = crate::text::str_eq(l, "schema") || crate::text::str_eq(l, "redefine")
            || crate::text::str_eq(l, "override") || crate::text::str_eq(l, "annotation");
        if read_by_us(e) && !anywhere {
            let kids = children_read(doc, i);
            let ghost ks = kids@;
            let ghost owner = e.local@;
            let ghost at_start = diags@;
            let ghost prior = placement_findings(els, i as nat);
            let ghost mut done: Seq<Finding> = Seq::empty();
            let mut seen = false;
            let mut k: usize = 0;
            proof {
                lemma_reported_none(at_start, u);
            }
            while k < kids.len()
                invariant
                    k <= ks.len(),
                    ks == kids@,
                    els == doc.elements@,
                    u == doc.uri@,
                    owner == e.local@,
                    forall|q: int| 0 <= q < ks.len() ==> (#[trigger] ks[q]) < els.len(),
                    reported(at_start, diags@, done, u),
                    done + annotation_findings(els, owner, ks, k as nat, seen) == annotation_findings(
                        els,
                        owner,
                        ks,
                        0,
                        false,
                    ),
                decreases ks.len() - k,
            {
                let c = &doc.elements[kids[k]];
                let ghost mid = diags@;
                let ghost rest = annotation_findings(els, owner, ks, (k + 1) as nat, true);
                if crate::text::str_eq(c.local.as_str(), "annotation") {
                    if seen {
                        let mut m: Vec<char> = Vec::new();
                        push_str(&mut m, "`xs:");
                        push_str(&mut m, e.local.as_str());
                        push_str(&mut m, "` may have only one `xs:annotation`");
                        report(diags, doc.uri.as_str(), DiagCode::MisplacedAnnotation, &m, None, c.line);
                        proof {
                            let f = seq![(DiagCode::MisplacedAnnotation, m@, None, c.line)];
                            lemma_reported_chain(at_start, mid, diags@, done, f, u);
                            assert(done + annotation_findings(els, owner, ks, k as nat, seen) =~= (done + f) + rest);
                            done = done + f;
                        }
                    } else if k != 0 {
                        let mut m: Vec<char> = Vec::new();
                        push_str(&mut m, "`xs:annotation` must be the first child of `xs:");
                        push_str(&mut m, e.local.as_str());
                        push_str(&mut m, "`");
                        report(diags, doc.uri.as_str(), DiagCode::MisplacedAnnotation, &m, None, c.line);
                        proof {
                            let f = seq![(DiagCode::MisplacedAnnotation, m@, None, c.line)];
                            lemma_reported_chain(at_start, mid, diags@, done, f, u);
                            assert(done + annotation_findings(els, owner, ks, k as nat, seen) =~= (done + f) + rest);
                            done = done + f;
                        }
                    }
                    seen = true;
                }
                k += 1;
            }
            proof {
                assert(annotation_findings(els, owner, ks, k as nat, seen) == Seq::<Finding>::empty());
                assert(done =~= annotation_findings(els, owner, ks, 0, false));
                lemma_reported_chain(start, at_start, diags@, prior, done, u);
            }
        }
        i += 1;
    }
}

/// Checks the Schema Representation Constraints of a document: where its
/// annotations sit, then, element by element in document order, every rule
/// that element is subject to.
pub fn check_representation(doc: &XmlDocument, diags: &mut Diagnostics)
    requires
        doc_wf(doc.elements@),
    ensures
        reported(
            old(diags)@,
            final(diags)@,
            placement_findings(doc.elements@, doc.elements@.len()) + representation_findings(
                doc.elements@,
                doc.elements@.len(),
            ).0,
            doc.uri@,
        ),
{
    let ghost els = doc.elements@;
    let ghost u = doc.uri@;
    let ghost start = diags@;
    check_annotation_placement(doc, diags);
    let ghost placed = diags@;
    let mut ids: Vec<Vec<char>> = Vec::new();
    let mut i: usize = 0;
    proof {
        lemma_reported_none(placed, u);
        assert(ids_view(ids@) =~= Seq::<Seq<char>>::empty());
    }
    while i < doc.elements.len()
        invariant
            i <= els.len(),
            els == doc.elements@,
            u == doc.uri@,
            doc_wf(els),
            reported(placed, diags@, representation_findings(els, i as nat).0, u),
            ids_view(ids@) == representation_findings(els, i as nat).1,
        decreases els.len() - i,
    {
        if read_by_us(&doc.elements[i]) {
            let ghost mid = diags@;
            let ghost prev = representation_findings(els, i as nat);
            check_element(doc, i, &mut ids, diags);
            proof {
                lemma_reported_chain(placed, mid, diags@, prev.0, element_findings(els, i as int, prev.1).0, u);
            }
        }
        i += 1;
    }
    proof {
        lemma_reported_chain(
            start,
            placed,
            diags@,
            placement_findings(els, els.len()),
            representation_findings(els, els.len()).0,
            u,
        );
    }
}

} // verus!
