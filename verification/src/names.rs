//! String interning and qualified names.
//!
//! Every name in a compiled schema is a `QName`: a pair of interned ids that
//! is `Copy`, 8 bytes, and comparable without touching a string. Resolution
//! and lookup happen on these, never on `&str`.

use vstd::prelude::*;
use crate::text::{push_str, str_chars, str_eq, string_from_chars};

verus! {

/// The XML Schema namespace. Built-in types live here.
pub const XS: &'static str = "http://www.w3.org/2001/XMLSchema";

/// The XML Schema instance namespace (`xsi:type`, `xsi:nil`, …).
pub const XSI: &'static str = "http://www.w3.org/2001/XMLSchema-instance";

/// The `xml:` namespace, implicitly available to every schema.
pub const XML: &'static str = "http://www.w3.org/XML/1998/namespace";

/// The namespace of namespace declarations themselves.
pub const XMLNS: &'static str = "http://www.w3.org/2000/xmlns/";

/// An interned string: either a namespace URI or a local name.
#[derive(Copy, Clone, PartialEq, Eq, Hash, PartialOrd, Ord, Debug, Structural)]
pub struct Symbol(u32);

impl View for Symbol {
    /// The slot of the interner the string sits in.
    type V = nat;

    closed spec fn view(&self) -> nat {
        self.0 as nat
    }
}

/// An interned namespace URI.
///
/// Absent means "no namespace" — an unqualified name, which is a distinct
/// thing from a name in some default namespace.
#[derive(Copy, Clone, PartialEq, Eq, Hash, PartialOrd, Ord, Debug, Structural)]
pub struct Namespace(Symbol);

impl View for Namespace {
    type V = nat;

    closed spec fn view(&self) -> nat {
        self.0@
    }
}

/// A namespace-qualified name.
///
/// `{ns, local}` is a key for *global* declarations only. Local element and
/// attribute declarations are scoped to their containing type and are not
/// addressable this way.
#[derive(Copy, Clone, PartialEq, Eq, Hash, PartialOrd, Ord, Debug, Structural)]
pub struct QName {
    pub ns: Option<Namespace>,
    pub local: Symbol,
}

impl Symbol {
    /// The slot of the interner this symbol names.
    pub fn index(self) -> (r: usize)
        ensures
            r == self@,
    {
        self.0 as usize
    }

    /// The empty string, present in every [`Interner`] from construction.
    ///
    /// A `Symbol` cannot be made without an interner, and an interner cannot
    /// be written to after compilation — so code that meets a name the schema
    /// never declared has nothing to fall back on. This is that fallback.
    pub fn empty() -> (r: Symbol)
        ensures
            r@ == 0,
    {
        Symbol(0)
    }

    /// Whether this is [`Symbol::empty`].
    pub fn is_empty_symbol(self) -> (r: bool)
        ensures
            r == (self@ == 0),
    {
        self.0 == 0
    }
}

impl QName {
    pub fn new(ns: Option<Namespace>, local: Symbol) -> (r: QName)
        ensures
            r.ns == ns,
            r.local == local,
    {
        QName { ns, local }
    }

    /// A stand-in for a name the schema does not declare: no namespace, and
    /// the empty local name.
    pub fn unknown() -> (r: QName)
        ensures
            r.ns is None,
            r.local@ == 0,
    {
        QName { ns: None, local: Symbol(0) }
    }
}

impl Namespace {
    /// Wraps an already-interned symbol as a namespace.
    pub fn from_symbol(s: Symbol) -> (r: Namespace)
        ensures
            r@ == s@,
    {
        Namespace(s)
    }

    pub fn symbol(self) -> (r: Symbol)
        ensures
            r@ == self@,
    {
        self.0
    }
}

/// Interns strings so names compare as integers.
///
/// Every interner holds the empty string at [`Symbol::empty`] from the moment
/// it is created, so a `Symbol` can always be produced without interning —
/// which matters because interning is impossible once a schema is compiled.
/// No string is held twice, so a string has exactly one symbol.
#[derive(Clone, Debug)]
pub struct Interner {
    vec: Vec<String>,
}

/// Whether no string occurs twice in `v`.
pub open spec fn distinct_strings(v: Seq<Seq<char>>) -> bool {
    forall|i: int, j: int| 0 <= i < v.len() && 0 <= j < v.len() && i != j ==> v[i] != v[j]
}

/// Two namespaces naming one interned string are one namespace.
pub proof fn lemma_one_namespace_per_string(i: Interner, a: Namespace, b: Namespace)
    requires
        i.wf(),
        a@ < i@.len(),
        b@ < i@.len(),
        i@[a@ as int] == i@[b@ as int],
    ensures
        a == b,
{
    assert(distinct_strings(i@));
    assert(a@ == b@);
    assert(a.0@ == b.0@);
    assert(a.0 == b.0);
}

impl View for Interner {
    /// The interned strings, by symbol.
    type V = Seq<Seq<char>>;

    closed spec fn view(&self) -> Seq<Seq<char>> {
        self.vec@.map_values(|s: String| s@)
    }
}

/// How a name is rendered in James Clark notation, given the namespace URI
/// and the local name: `{ns}local`, or `local` with no namespace.
pub open spec fn clark_chars(ns: Option<Seq<char>>, local: Seq<char>) -> Seq<char> {
    match ns {
        Some(u) => seq!['{'] + u + seq!['}'] + local,
        None => local,
    }
}

impl Default for Interner {
    fn default() -> (r: Interner)
        ensures
            r@ == seq![Seq::<char>::empty()],
            r.wf(),
    {
        Interner::new()
    }
}

impl Interner {
    /// The empty string sits at slot 0, no string twice, and every slot has a
    /// `u32` index.
    pub closed spec fn wf(self) -> bool {
        &&& self@.len() >= 1
        &&& self@[0] == Seq::<char>::empty()
        &&& distinct_strings(self@)
        &&& self@.len() <= u32::MAX + 1
    }

    /// Whether `sym` names a string held here.
    pub open spec fn holds(self, sym: Symbol) -> bool {
        sym@ < self@.len()
    }

    pub fn new() -> (r: Interner)
        ensures
            r@ == seq![Seq::<char>::empty()],
            r.wf(),
    {
        let mut vec: Vec<String> = Vec::new();
        vec.push(String::new());
        let r = Interner { vec };
        assert(r@ =~= seq![Seq::<char>::empty()]);
        r
    }

    /// The slot of `s`, if it is held.
    fn find(&self, s: &str) -> (r: Option<usize>)
        ensures
            match r {
                Some(i) => i < self@.len() && self@[i as int] == s@,
                None => !self@.contains(s@),
            },
    {
        let mut i: usize = 0;
        while i < self.vec.len()
            invariant
                i <= self.vec.len(),
                self@.len() == self.vec@.len(),
                forall|j: int| 0 <= j < i ==> self@[j] != s@,
            decreases self.vec.len() - i,
        {
            if str_eq(self.vec[i].as_str(), s) {
                return Some(i);
            }
            i += 1;
        }
        assert forall|j: int| 0 <= j < self@.len() implies self@[j] != s@ by {}
        None
    }

    /// The symbol of `s`, interning it when it is new.
    ///
    /// Interning the same string twice gives the same symbol, and a string
    /// already held changes nothing.
    pub fn intern(&mut self, s: &str) -> (r: Symbol)
        requires
            old(self).wf(),
            old(self)@.contains(s@) || old(self)@.len() <= u32::MAX,
        ensures
            final(self).wf(),
            final(self)@[r@ as int] == s@,
            r@ < final(self)@.len(),
            forall|j: int| 0 <= j < final(self)@.len() && final(self)@[j] == s@ ==> j == r@,
            old(self)@.contains(s@) ==> final(self)@ == old(self)@,
            !old(self)@.contains(s@) ==> final(self)@ == old(self)@.push(s@),
    {
        match self.find(s) {
            Some(i) => {
                return Symbol(i as u32);
            },
            None => {},
        }
        let i = self.vec.len();
        let ghost before = self@;
        self.vec.push(s.to_owned());
        assert(self@ =~= before.push(s@));
        Symbol(i as u32)
    }

    pub fn namespace(&mut self, uri: &str) -> (r: Namespace)
        requires
            old(self).wf(),
            old(self)@.contains(uri@) || old(self)@.len() <= u32::MAX,
        ensures
            final(self).wf(),
            final(self)@[r@ as int] == uri@,
            r@ < final(self)@.len(),
            old(self)@.contains(uri@) ==> final(self)@ == old(self)@,
            !old(self)@.contains(uri@) ==> final(self)@ == old(self)@.push(uri@),
    {
        Namespace(self.intern(uri))
    }

    /// Interns a namespace, mapping the empty URI to "no namespace".
    ///
    /// XSD spells "no target namespace" as an absent `targetNamespace`
    /// attribute; some tools write `targetNamespace=""`, which is invalid but
    /// common enough to accept here.
    pub fn opt_namespace(&mut self, uri: &str) -> (r: Option<Namespace>)
        requires
            old(self).wf(),
            old(self)@.contains(uri@) || old(self)@.len() <= u32::MAX,
        ensures
            final(self).wf(),
            uri@.len() == 0 <==> r is None,
            uri@.len() == 0 ==> final(self)@ == old(self)@,
            r matches Some(ns) ==> final(self)@[ns@ as int] == uri@ && ns@ < final(self)@.len(),
            uri@.len() > 0 && old(self)@.contains(uri@) ==> final(self)@ == old(self)@,
            uri@.len() > 0 && !old(self)@.contains(uri@) ==> final(self)@ == old(self)@.push(uri@),
    {
        if uri.is_empty() {
            None
        } else {
            Some(self.namespace(uri))
        }
    }

    /// Interns both halves of a name; an absent or empty namespace is no
    /// namespace.
    pub fn qname(&mut self, ns: Option<&str>, local: &str) -> (r: QName)
        requires
            old(self).wf(),
            old(self)@.len() + 2 <= u32::MAX + 1,
        ensures
            final(self).wf(),
            final(self)@[r.local@ as int] == local@,
            r.local@ < final(self)@.len(),
            match ns {
                Some(u) => (u@.len() == 0 <==> r.ns is None) && (r.ns matches Some(n)
                    ==> final(self)@[n@ as int] == u@ && n@ < final(self)@.len()),
                None => r.ns is None,
            },
            old(self)@.len() <= final(self)@.len() <= old(self)@.len() + 2,
            forall|j: int| 0 <= j < old(self)@.len() ==> final(self)@[j] == old(self)@[j],
    {
        let n = match ns {
            Some(u) => self.opt_namespace(u),
            None => None,
        };
        let ghost mid = self@;
        let l = self.intern(local);
        proof {
            if let Some(nn) = n {
                assert(self@[nn@ as int] == mid[nn@ as int]);
            }
        }
        QName { ns: n, local: l }
    }

    /// Looks a string up without interning it.
    ///
    /// Returns `None` when the string was never interned, which for a
    /// compiled schema means no component can carry that name.
    pub fn lookup(&self, s: &str) -> (r: Option<Symbol>)
        requires
            self.wf(),
        ensures
            match r {
                Some(sym) => sym@ < self@.len() && self@[sym@ as int] == s@,
                None => !self@.contains(s@),
            },
    {
        match self.find(s) {
            Some(i) => Some(Symbol(i as u32)),
            None => None,
        }
    }

    /// The string a symbol stands for. The empty symbol stands for the empty
    /// string in every interner, however it was made.
    pub fn resolve(&self, s: Symbol) -> (r: &str)
        requires
            self.wf(),
            self.holds(s) || s@ == 0,
        ensures
            r@ == self@[s@ as int],
            s@ == 0 ==> r@ == Seq::<char>::empty(),
    {
        self.vec[s.0 as usize].as_str()
    }

    pub fn resolve_ns(&self, ns: Namespace) -> (r: &str)
        requires
            self.wf(),
            ns@ < self@.len(),
        ensures
            r@ == self@[ns@ as int],
    {
        self.resolve(ns.0)
    }

    /// Renders a `QName` in James Clark notation: `{ns}local`, or `local`
    /// when the name has no namespace.
    pub fn display(&self, q: QName) -> (r: String)
        requires
            self.wf(),
            self.holds(q.local) || q.local@ == 0,
            q.ns matches Some(n) ==> n@ < self@.len(),
        ensures
            r@ == clark_chars(
                match q.ns {
                    Some(n) => Some(self@[n@ as int]),
                    None => None,
                },
                self@[q.local@ as int],
            ),
    {
        let mut out: Vec<char> = Vec::new();
        match q.ns {
            Some(ns) => {
                out.push('{');
                push_str(&mut out, self.resolve_ns(ns));
                out.push('}');
            },
            None => {},
        }
        push_str(&mut out, self.resolve(q.local));
        string_from_chars(&out)
    }

    pub fn len(&self) -> (r: usize)
        ensures
            r == self@.len(),
    {
        self.vec.len()
    }

    /// Never true: the empty string is held from construction on.
    pub fn is_empty(&self) -> (r: bool)
        ensures
            r == (self@.len() == 0),
            self.wf() ==> !r,
    {
        self.vec.len() == 0
    }
}

/// Whether `c` may begin an XML name (`NameStartChar`), the colon aside.
pub open spec fn is_name_start(c: char) -> bool {
    ('A' <= c && c <= 'Z') || c == '_' || ('a' <= c && c <= 'z') || ('\u{C0}' <= c && c <= '\u{D6}')
        || ('\u{D8}' <= c && c <= '\u{F6}') || ('\u{F8}' <= c && c <= '\u{2FF}') || ('\u{370}' <= c
        && c <= '\u{37D}') || ('\u{37F}' <= c && c <= '\u{1FFF}') || ('\u{200C}' <= c && c
        <= '\u{200D}') || ('\u{2070}' <= c && c <= '\u{218F}') || ('\u{2C00}' <= c && c
        <= '\u{2FEF}') || ('\u{3001}' <= c && c <= '\u{D7FF}') || ('\u{F900}' <= c && c
        <= '\u{FDCF}') || ('\u{FDF0}' <= c && c <= '\u{FFFD}') || ('\u{10000}' <= c && c
        <= '\u{EFFFF}')
}

/// Whether `c` may continue an XML name (`NameChar`), the colon aside.
pub open spec fn is_name_char(c: char) -> bool {
    is_name_start(c) || c == '-' || c == '.' || ('0' <= c && c <= '9') || c == '\u{B7}' || ('\u{300}'
        <= c && c <= '\u{36F}') || ('\u{203F}' <= c && c <= '\u{2040}')
}

/// Whether `s` is an `NCName`: an XML name with no colon in it.
pub open spec fn spec_is_ncname(s: Seq<char>) -> bool {
    s.len() > 0 && is_name_start(s[0]) && forall|i: int| 1 <= i < s.len() ==> is_name_char(#[trigger] s[i])
}

fn name_start(c: char) -> (r: bool)
    ensures
        r == is_name_start(c),
{
    ('A' <= c && c <= 'Z') || c == '_' || ('a' <= c && c <= 'z') || ('\u{C0}' <= c && c <= '\u{D6}')
        || ('\u{D8}' <= c && c <= '\u{F6}') || ('\u{F8}' <= c && c <= '\u{2FF}') || ('\u{370}' <= c
        && c <= '\u{37D}') || ('\u{37F}' <= c && c <= '\u{1FFF}') || ('\u{200C}' <= c && c
        <= '\u{200D}') || ('\u{2070}' <= c && c <= '\u{218F}') || ('\u{2C00}' <= c && c
        <= '\u{2FEF}') || ('\u{3001}' <= c && c <= '\u{D7FF}') || ('\u{F900}' <= c && c
        <= '\u{FDCF}') || ('\u{FDF0}' <= c && c <= '\u{FFFD}') || ('\u{10000}' <= c && c
        <= '\u{EFFFF}')
}

fn name_char(c: char) -> (r: bool)
    ensures
        r == is_name_char(c),
{
    name_start(c) || c == '-' || c == '.' || ('0' <= c && c <= '9') || c == '\u{B7}' || ('\u{300}'
        <= c && c <= '\u{36F}') || ('\u{203F}' <= c && c <= '\u{2040}')
}

/// Whether the characters of `s` form an `NCName`.
pub fn ncname_chars(s: &Vec<char>) -> (r: bool)
    ensures
        r == spec_is_ncname(s@),
{
    if s.len() == 0 || !name_start(s[0]) {
        return false;
    }
    let mut i: usize = 1;
    while i < s.len()
        invariant
            1 <= i <= s@.len(),
            forall|j: int| 1 <= j < i ==> is_name_char(#[trigger] s@[j]),
        decreases s.len() - i,
    {
        if !name_char(s[i]) {
            return false;
        }
        i += 1;
    }
    true
}

/// Whether `s` is an `NCName`: an XML name with no colon in it, as
/// namespaces in XML define it.
pub fn is_ncname(s: &str) -> (r: bool)
    ensures
        r == spec_is_ncname(s@),
{
    ncname_chars(&str_chars(s))
}

/// A symbol is its slot: two symbols with one slot are one symbol.
pub proof fn lemma_symbol_view(a: Symbol, b: Symbol)
    requires
        a@ == b@,
    ensures
        a == b,
{
}

/// A namespace is its slot: two namespaces with one slot are one namespace.
pub proof fn lemma_namespace_view(a: Namespace, b: Namespace)
    requires
        a@ == b@,
    ensures
        a == b,
{
}

/// A well-formed interner holds no string twice.
pub proof fn lemma_wf_distinct(i: Interner)
    requires
        i.wf(),
    ensures
        distinct_strings(i@),
{
}

} // verus!
