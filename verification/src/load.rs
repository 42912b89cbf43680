//! What reading schema documents needs besides the documents: where they
//! come from, which XSD they are read as, how strictly, and the small
//! lexical rules the reader applies to attribute values.

use vstd::prelude::*;
use crate::datatypes::Builtin;
use crate::text::{
    has_prefix, is_unicode_ws, push_str, starts_with, str_chars, str_eq, string_from_chars, trim_vec,
    trimmed, unicode_ws,
};

verus! {

/// Where schema documents come from.
///
/// Hands back bytes rather than text: decoding is the library's job, done
/// once, in one place — a byte-order mark, then the XML declaration, then
/// UTF-8.
pub trait Resolver {
    /// Resolves `location`, relative to `base` when `base` is known.
    ///
    /// Returns the absolute URI it resolved to and the document's raw bytes.
    fn resolve(&self, location: &str, base: Option<&str>) -> Result<(String, Vec<u8>), String>;
}

/// Loads schema documents from the local filesystem: the directories here
/// are searched, in order, when a relative location misses.
#[derive(Debug, Clone)]
pub struct FileResolver {
    /// Extra directories searched when a relative location misses.
    pub search_paths: Vec<String>,
}

impl Default for FileResolver {
    fn default() -> (r: FileResolver)
        ensures
            r.search_paths@.len() == 0,
    {
        FileResolver { search_paths: Vec::new() }
    }
}

impl FileResolver {
    pub fn new() -> (r: FileResolver)
        ensures
            r.search_paths@.len() == 0,
    {
        FileResolver { search_paths: Vec::new() }
    }

    /// The same resolver, searching one more directory after the others.
    pub fn with_search_path(self, p: &str) -> (r: FileResolver)
        ensures
            r.search_paths@.len() == self.search_paths@.len() + 1,
            forall|i: int| 0 <= i < self.search_paths@.len() ==> r.search_paths@[i] == self.search_paths@[i],
            r.search_paths@.last()@ == p@,
    {
        let mut s = self;
        s.search_paths.push(p.to_owned());
        s
    }
}

/// A location without its `file://` scheme, if it has one.
pub open spec fn without_file_scheme(s: Seq<char>) -> Seq<char> {
    if starts_with(s, "file://"@) {
        s.skip(7)
    } else {
        s
    }
}

pub fn strip_file_scheme(s: &str) -> (r: String)
    ensures
        r@ == without_file_scheme(s@),
{
    let c = str_chars(s);
    proof {
        reveal_strlit("file://");
    }
    if has_prefix(&c, "file://") {
        let mut out: Vec<char> = Vec::new();
        let mut i: usize = 7;
        while i < c.len()
            invariant
                7 <= i <= c@.len(),
                out@ == c@.subrange(7, i as int),
            decreases c.len() - i,
        {
            out.push(c[i]);
            assert(c@.subrange(7, i + 1) =~= c@.subrange(7, i as int).push(c@[i as int]));
            i += 1;
        }
        assert(c@.subrange(7, c@.len() as int) =~= c@.skip(7));
        string_from_chars(&out)
    } else {
        string_from_chars(&c)
    }
}

/// Whether a location is one the filesystem resolver will not fetch: one
/// reached over the network.
pub open spec fn is_network_location(location: Seq<char>) -> bool {
    starts_with(location, "http://"@) || starts_with(location, "https://"@)
}

/// Refuses a location reached over the network, naming it; the filesystem
/// resolver never fetches one.
pub fn refuse_network(location: &str) -> (r: Result<(), String>)
    ensures
        r is Err <==> is_network_location(location@),
        r matches Err(m) ==> m@ == "refusing to fetch `"@ + location@
            + "` over the network; supply a resolver or a local copy"@,
{
    let c = str_chars(location);
    if has_prefix(&c, "http://") || has_prefix(&c, "https://") {
        let mut out: Vec<char> = Vec::new();
        push_str(&mut out, "refusing to fetch `");
        push_str(&mut out, location);
        push_str(&mut out, "` over the network; supply a resolver or a local copy");
        return Err(string_from_chars(&out));
    }
    Ok(())
}

/// Which version of XSD to process as.
///
/// The two differ in more than added syntax: 1.1 also *relaxes* rules 1.0
/// enforces, most visibly Unique Particle Attribution.
#[derive(Copy, Clone, PartialEq, Eq, Debug, Structural)]
pub enum Version {
    /// XSD 1.0. The default: it is what most shipping schemas are, and it is
    /// the stricter reading, so a 1.0-clean schema is also 1.1-clean.
    Xsd10,
    /// XSD 1.1 — `openContent`, `defaultAttributes`, conditional type
    /// assignment, assertions, and the relaxed UPA rule.
    Xsd11,
}

impl Default for Version {
    fn default() -> (r: Version)
        ensures
            r == Version::Xsd10,
    {
        Version::Xsd10
    }
}

/// How strictly to treat schemas that break the specification.
#[derive(Copy, Clone, PartialEq, Eq, Debug, Structural)]
pub enum Conformance {
    /// Every violation is an error.
    Strict,
    /// Violations that do not prevent building components are downgraded to
    /// warnings.
    Lax,
}

impl Default for Conformance {
    fn default() -> (r: Conformance)
        ensures
            r == Conformance::Strict,
    {
        Conformance::Strict
    }
}

/// The default cap on XML nodes in one schema document.
pub const DEFAULT_NODES_LIMIT: u32 = 10_000_000;

/// The byte offsets at which lines of `bytes` start: offset 0, and the one
/// after each line feed, in ascending order.
pub open spec fn line_starts(bytes: Seq<u8>) -> Seq<usize>
    decreases bytes.len(),
{
    if bytes.len() == 0 {
        seq![0usize]
    } else if bytes.last() == 10 {
        line_starts(bytes.drop_last()).push(bytes.len() as usize)
    } else {
        line_starts(bytes.drop_last())
    }
}

/// How many of `starts` are at or before `offset`.
pub open spec fn starts_at_or_before(starts: Seq<usize>, offset: int) -> nat
    decreases starts.len(),
{
    if starts.len() == 0 {
        0
    } else {
        starts_at_or_before(starts.drop_last(), offset) + if starts.last() <= offset {
            1nat
        } else {
            0nat
        }
    }
}

/// The one-based line of a byte offset: how many lines start at or before
/// it, and never less than one.
pub open spec fn line_at(starts: Seq<usize>, offset: int) -> nat {
    let n = starts_at_or_before(starts, offset);
    if n < 1 {
        1
    } else {
        n
    }
}

/// Where every line of a document starts, so a byte offset becomes a line
/// number without rescanning.
#[derive(Debug)]
pub struct LineIndex {
    /// Byte offset of the first character of each line, ascending.
    starts: Vec<usize>,
}

impl View for LineIndex {
    type V = Seq<usize>;

    closed spec fn view(&self) -> Seq<usize> {
        self.starts@
    }
}

impl LineIndex {
    /// Indexes the lines of `text`, by its UTF-8 bytes.
    pub fn build(text: &str) -> (r: LineIndex)
        ensures
            r@ == line_starts(vstd::utf8::encode_utf8(text@)),
    {
        let bytes = text.as_bytes();
        let mut starts: Vec<usize> = Vec::new();
        starts.push(0);
        let mut i: usize = 0;
        assert(bytes@.take(0) =~= Seq::<u8>::empty());
        while i < bytes.len()
            invariant
                i <= bytes@.len(),
                starts@ == line_starts(bytes@.take(i as int)),
            decreases bytes.len() - i,
        {
            assert(bytes@.take(i + 1).drop_last() =~= bytes@.take(i as int));
            if bytes[i] == 10 {
                starts.push(i + 1);
            }
            i += 1;
        }
        assert(bytes@.take(bytes@.len() as int) =~= bytes@);
        LineIndex { starts }
    }

    /// The one-based line holding `offset`.
    pub fn line(&self, offset: usize) -> (r: u32)
        requires
            self@.len() <= u32::MAX,
        ensures
            r == line_at(self@, offset as int),
    {
        let mut count: usize = 0;
        let mut i: usize = 0;
        while i < self.starts.len()
            invariant
                i <= self@.len(),
                count == starts_at_or_before(self@.take(i as int), offset as int),
                count <= i,
            decreases self.starts.len() - i,
        {
            assert(self@.take(i + 1).drop_last() =~= self@.take(i as int));
            if self.starts[i] <= offset {
                count += 1;
            }
            i += 1;
        }
        assert(self@.take(self@.len() as int) =~= self@);
        if count < 1 {
            1
        } else {
            count as u32
        }
    }
}

/// How many line feeds `bytes` holds.
pub open spec fn line_feeds(bytes: Seq<u8>) -> nat
    decreases bytes.len(),
{
    if bytes.len() == 0 {
        0
    } else {
        line_feeds(bytes.drop_last()) + if bytes.last() == 10 { 1nat } else { 0nat }
    }
}

/// Lines start at the start, and each after a line feed: the index of a
/// text with `k` line feeds has `k + 1` entries, the first at offset 0, in
/// ascending order.
pub proof fn law_one_line_more_than_line_feeds(bytes: Seq<u8>)
    requires
        bytes.len() <= usize::MAX,
    ensures
        line_starts(bytes).len() == line_feeds(bytes) + 1,
        line_starts(bytes)[0] == 0,
        forall|i: int, j: int| 0 <= i < j < line_starts(bytes).len() ==> line_starts(bytes)[i] < line_starts(bytes)[j],
        forall|i: int| 0 <= i < line_starts(bytes).len() ==> line_starts(bytes)[i] <= bytes.len(),
    decreases bytes.len(),
{
    if bytes.len() > 0 {
        let prev = bytes.drop_last();
        law_one_line_more_than_line_feeds(prev);
        if bytes.last() == 10 {
            let l = line_starts(bytes);
            assert(l == line_starts(prev).push(bytes.len() as usize));
            let lp = line_starts(prev);
            assert forall|i: int, j: int| 0 <= i < j < l.len() implies l[i] < l[j] by {
                assert(l[i] == lp[i]);
                if j == l.len() - 1 {
                    assert(lp[i] <= prev.len());
                    assert(l[j] == bytes.len());
                } else {
                    assert(l[j] == lp[j]);
                    assert(lp[i] < lp[j]);
                }
            }
        }
    }
}

/// The characters of `s` with the whitespace at both ends left off.
fn trim_chars(s: &str) -> (r: Vec<char>)
    ensures
        r@ == trimmed(s@),
{
    trim_vec(&str_chars(s))
}

fn chars_are(v: &Vec<char>, lit: &str) -> (r: bool)
    ensures
        r == (v@ == lit@),
{
    let l = str_chars(lit);
    crate::text::chars_eq(v, &l)
}

/// An `xs:boolean` lexical form, or nothing when the text is not one: its
/// lexical space is `true`, `false`, `1` and `0`, and surrounding whitespace
/// is ignored.
pub fn boolean_value(s: &str) -> (r: Option<bool>)
    ensures
        r == (if trimmed(s@) == "true"@ || trimmed(s@) == "1"@ {
            Some(true)
        } else if trimmed(s@) == "false"@ || trimmed(s@) == "0"@ {
            Some(false)
        } else {
            None
        }),
{
    let t = trim_chars(s);
    if chars_are(&t, "true") || chars_are(&t, "1") {
        Some(true)
    } else if chars_are(&t, "false") || chars_are(&t, "0") {
        Some(false)
    } else {
        None
    }
}

/// Children that may sit beside facets without being one.
pub open spec fn spec_not_a_facet(name: Seq<char>) -> bool {
    name == "annotation"@ || name == "simpleType"@ || name == "attribute"@ || name == "attributeGroup"@
        || name == "anyAttribute"@ || name == "assert"@
}

pub fn not_a_facet(name: &str) -> (r: bool)
    ensures
        r == spec_not_a_facet(name@),
{
    str_eq(name, "annotation") || str_eq(name, "simpleType") || str_eq(name, "attribute") || str_eq(
        name,
        "attributeGroup",
    ) || str_eq(name, "anyAttribute") || str_eq(name, "assert")
}

/// The local part of a prefixed name: what follows its last colon.
pub open spec fn local_part(qname: Seq<char>) -> Seq<char>
    decreases qname.len(),
{
    if qname.len() == 0 {
        qname
    } else if qname.last() == ':' {
        Seq::empty()
    } else {
        local_part(qname.drop_last()).push(qname.last())
    }
}

/// Whether a `vc:typeAvailable` entry names a type this build supports.
///
/// Only the XSD namespace is answerable: anything that names no built-in
/// counts as available. The four built-ins new in XSD 1.1 are available
/// only when reading as 1.1.
pub open spec fn spec_component_available(qname: Seq<char>, version: Version) -> bool {
    match Builtin::spec_from_local_name(local_part(qname)) {
        Some(b) => version == Version::Xsd11 || !(b == Builtin::YearMonthDuration || b
            == Builtin::DayTimeDuration || b == Builtin::DateTimeStamp || b == Builtin::AnyAtomicType),
        None => true,
    }
}

pub fn component_available(qname: &str, version: Version) -> (r: bool)
    ensures
        r == spec_component_available(qname@, version),
{
    let c = str_chars(qname);
    let mut start: usize = 0;
    let mut i: usize = 0;
    while i < c.len()
        invariant
            start <= i <= c@.len(),
            local_part(c@.take(i as int)) == c@.subrange(start as int, i as int),
        decreases c.len() - i,
    {
        assert(c@.take(i + 1).drop_last() =~= c@.take(i as int));
        if c[i] == ':' {
            start = i + 1;
            assert(local_part(c@.take(i + 1)) =~= c@.subrange(start as int, i + 1));
        } else {
            assert(c@.subrange(start as int, i + 1) =~= c@.subrange(start as int, i as int).push(c@[i as int]));
        }
        i += 1;
    }
    assert(c@.take(c@.len() as int) =~= c@);
    let mut local: Vec<char> = Vec::new();
    let mut k = start;
    while k < c.len()
        invariant
            start <= k <= c@.len(),
            local@ == c@.subrange(start as int, k as int),
        decreases c.len() - k,
    {
        local.push(c[k]);
        assert(c@.subrange(start as int, k + 1) =~= c@.subrange(start as int, k as int).push(c@[k as int]));
        k += 1;
    }
    let name = string_from_chars(&local);
    match Builtin::from_local_name(name.as_str()) {
        Some(b) => {
            version == Version::Xsd11 || !(b == Builtin::YearMonthDuration || b == Builtin::DayTimeDuration
                || b == Builtin::DateTimeStamp || b == Builtin::AnyAtomicType)
        },
        None => true,
    }
}

/// `s` with `&`, `<` and `"` written as entity references, ready to stand
/// in a double-quoted attribute.
pub open spec fn escaped_attr(s: Seq<char>) -> Seq<char>
    decreases s.len(),
{
    if s.len() == 0 {
        Seq::empty()
    } else {
        escaped_attr(s.drop_last()) + if s.last() == '&' {
            "&amp;"@
        } else if s.last() == '<' {
            "&lt;"@
        } else if s.last() == '"' {
            "&quot;"@
        } else {
            seq![s.last()]
        }
    }
}

pub fn escape_attr(s: &str) -> (r: String)
    ensures
        r@ == escaped_attr(s@),
{
    let c = str_chars(s);
    let mut out: Vec<char> = Vec::new();
    let mut i: usize = 0;
    while i < c.len()
        invariant
            i <= c@.len(),
            c@ == s@,
            out@ == escaped_attr(c@.take(i as int)),
        decreases c.len() - i,
    {
        assert(c@.take(i + 1).drop_last() =~= c@.take(i as int));
        let ch = c[i];
        if ch == '&' {
            push_str(&mut out, "&amp;");
        } else if ch == '<' {
            push_str(&mut out, "&lt;");
        } else if ch == '"' {
            push_str(&mut out, "&quot;");
        } else {
            out.push(ch);
        }
        i += 1;
    }
    assert(c@.take(c@.len() as int) =~= c@);
    string_from_chars(&out)
}

} // verus!
