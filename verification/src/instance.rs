//! What validating an instance document reports, and the small lexical
//! rules reading one needs.

use vstd::prelude::*;
use crate::diagnostics::{any_error, Diagnostics};
use crate::names::XMLNS;
use crate::text::str_eq;

verus! {

/// The outcome of validating a document.
#[derive(Clone, Debug)]
pub struct ValidationReport {
    pub diagnostics: Diagnostics,
}

impl ValidationReport {
    /// Valid exactly when no diagnostic is an error; warnings do not count.
    pub fn is_valid(&self) -> (r: bool)
        ensures
            r == !any_error(self.diagnostics@),
    {
        !self.diagnostics.has_errors()
    }
}

/// The text one of the five entities XML predefines stands for; anything
/// else is declared in a DTD, which this reader does not process.
pub open spec fn spec_predefined_entity(name: Seq<char>) -> Option<Seq<char>> {
    if name == "amp"@ {
        Some("&"@)
    } else if name == "lt"@ {
        Some("<"@)
    } else if name == "gt"@ {
        Some(">"@)
    } else if name == "quot"@ {
        Some("\""@)
    } else if name == "apos"@ {
        Some("'"@)
    } else {
        None
    }
}

/// An optional string slice as optional characters.
pub open spec fn opt_str(o: Option<&'static str>) -> Option<Seq<char>> {
    match o {
        Some(s) => Some(s@),
        None => None,
    }
}

pub fn predefined_entity(name: &str) -> (r: Option<&'static str>)
    ensures
        opt_str(r) == spec_predefined_entity(name@),
{
    if str_eq(name, "amp") {
        Some("&")
    } else if str_eq(name, "lt") {
        Some("<")
    } else if str_eq(name, "gt") {
        Some(">")
    } else if str_eq(name, "quot") {
        Some("\"")
    } else if str_eq(name, "apos") {
        Some("'")
    } else {
        None
    }
}

/// How many line feeds the first `upto` bytes hold.
pub open spec fn feeds_before(bytes: Seq<u8>, upto: int) -> nat
    decreases upto,
{
    if upto <= 0 || upto > bytes.len() {
        0
    } else {
        feeds_before(bytes, upto - 1) + if bytes[upto - 1] == 10 { 1nat } else { 0nat }
    }
}

/// The one-based line of byte offset `upto`, which is clamped to the text.
pub fn count_lines(xml: &str, upto: usize) -> (r: u32)
    requires
        vstd::utf8::encode_utf8(xml@).len() < u32::MAX,
    ensures
        r == feeds_before(
            vstd::utf8::encode_utf8(xml@),
            if upto < vstd::utf8::encode_utf8(xml@).len() { upto as int } else { vstd::utf8::encode_utf8(xml@).len() as int },
        ) + 1,
{
    let bytes = xml.as_bytes();
    let end = if upto < bytes.len() { upto } else { bytes.len() };
    let mut count: usize = 0;
    let mut i: usize = 0;
    while i < end
        invariant
            i <= end <= bytes@.len(),
            bytes@.len() < u32::MAX,
            count == feeds_before(bytes@, i as int),
            count <= i,
        decreases end - i,
    {
        if bytes[i] == 10 {
            count += 1;
        }
        i += 1;
    }
    (count + 1) as u32
}

/// An attribute as read from a document: its namespace, local name and
/// value.
#[derive(Clone, Debug)]
pub struct RawAttr {
    pub namespace: Option<String>,
    pub local: String,
    pub value: String,
}

/// The binding an attribute makes, if it is a namespace declaration:
/// `xmlns:p` binds `p`, and a bare `xmlns` the default namespace.
pub open spec fn binding_of(a: RawAttr) -> Option<(Option<Seq<char>>, Seq<char>)> {
    match a.namespace {
        Some(ns) => if ns@ == XMLNS@ {
            Some((Some(a.local@), a.value@))
        } else {
            None
        },
        None => if a.local@ == "xmlns"@ {
            Some((None, a.value@))
        } else {
            None
        },
    }
}

/// The bindings of `attrs`, in order.
pub open spec fn bindings_of(attrs: Seq<RawAttr>) -> Seq<(Option<Seq<char>>, Seq<char>)>
    decreases attrs.len(),
{
    if attrs.len() == 0 {
        Seq::empty()
    } else {
        match binding_of(attrs.last()) {
            Some(b) => bindings_of(attrs.drop_last()).push(b),
            None => bindings_of(attrs.drop_last()),
        }
    }
}

/// An optional string as optional characters.
pub open spec fn opt_string(o: Option<String>) -> Option<Seq<char>> {
    match o {
        Some(s) => Some(s@),
        None => None,
    }
}

/// The namespace declarations an element carries, as bindings.
pub fn declared_namespaces(attrs: &[RawAttr]) -> (r: Vec<(Option<String>, String)>)
    ensures
        r@.len() == bindings_of(attrs@).len(),
        forall|i: int|
            0 <= i < r@.len() ==> (opt_string((#[trigger] r@[i]).0), r@[i].1@) == bindings_of(attrs@)[i],
{
    let mut out: Vec<(Option<String>, String)> = Vec::new();
    let mut i: usize = 0;
    while i < attrs.len()
        invariant
            i <= attrs@.len(),
            out@.len() == bindings_of(attrs@.take(i as int)).len(),
            forall|j: int|
                0 <= j < out@.len() ==> (opt_string((#[trigger] out@[j]).0), out@[j].1@) == bindings_of(
                    attrs@.take(i as int),
                )[j],
        decreases attrs.len() - i,
    {
        assert(attrs@.take(i + 1).drop_last() =~= attrs@.take(i as int));
        let a = &attrs[i];
        proof {
            reveal_strlit("xmlns");
        }
        match &a.namespace {
            Some(ns) => {
                if str_eq(ns.as_str(), XMLNS) {
                    out.push((Some(a.local.as_str().to_owned()), a.value.as_str().to_owned()));
                }
            },
            None => {
                if str_eq(a.local.as_str(), "xmlns") {
                    out.push((None, a.value.as_str().to_owned()));
                }
            },
        }
        i += 1;
    }
    assert(attrs@.take(attrs@.len() as int) =~= attrs@);
    out
}

} // verus!
