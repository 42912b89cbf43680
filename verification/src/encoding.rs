//! Turning schema document bytes into text.
//!
//! Every document has to be decoded before it is parsed, and that decoding
//! happens **here and only here**: resolvers hand back bytes precisely so no
//! resolver has to reimplement this and get it wrong in its own way.
//!
//! The order follows XML 1.0 Appendix F:
//!
//! 1. A byte-order mark, if present, decides the encoding outright.
//! 2. Otherwise the `encoding` pseudo-attribute of the XML declaration.
//! 3. Otherwise UTF-8.
//!
//! The decoding itself is the Encoding Standard's, done by `encoding_rs`;
//! what is proved here is which encoding is chosen, which bytes it is given,
//! and what is reported when it refuses them.

use vstd::prelude::*;
use encoding_rs::Encoding;
use crate::diagnostics::{DiagCode, Diagnostic, Span};
use crate::text::{
    is_unicode_ws, push_str, slice_chars, str_chars, string_from_chars, trim_start, unicode_ws,
};

verus! {

#[verifier::external_type_specification]
#[verifier::external_body]
pub struct ExEncoding(encoding_rs::Encoding);

/// A character encoding of the Encoding Standard, together with its
/// canonical name. Made only from `encoding_rs`'s own tables, so the name is
/// always the encoding's.
#[derive(Copy, Clone)]
pub struct Charset {
    encoding: &'static Encoding,
    name: &'static str,
}

impl View for Charset {
    /// The encoding's canonical name, e.g. `windows-1252`.
    type V = Seq<char>;

    closed spec fn view(&self) -> Seq<char> {
        self.name@
    }
}

/// The canonical name of the encoding a label names in the Encoding
/// Standard, when it names one.
pub uninterp spec fn encoding_for_label(label: Seq<u8>) -> Option<Seq<char>>;

/// The text the encoding named `name` decodes `bytes` to, without handling a
/// byte-order mark, or nothing when some sequence is malformed.
pub uninterp spec fn strict_decoding(name: Seq<char>, bytes: Seq<u8>) -> Option<Seq<char>>;

/// The text `bytes` reads as when every malformed UTF-8 sequence is replaced
/// by U+FFFD.
pub uninterp spec fn lossy_utf8(bytes: Seq<u8>) -> Seq<char>;

/// An optional string as optional characters.
pub open spec fn opt_text(o: Option<String>) -> Option<Seq<char>> {
    match o {
        Some(s) => Some(s@),
        None => None,
    }
}

/// `Encoding::for_label`, with the canonical name `Encoding::name` gives
/// the result: the encoding a label names after ASCII-lowercasing and
/// trimming it, or nothing when it names none.
#[verifier::external_body]
fn charset_for_label(label: &[u8]) -> (r: Option<Charset>)
    ensures
        match r {
            Some(c) => encoding_for_label(label@) == Some(c@),
            None => encoding_for_label(label@) is None,
        },
{
    Encoding::for_label(label).map(|e| Charset { encoding: e, name: e.name() })
}

/// `encoding_rs::UTF_8`, whose name is `UTF-8`.
#[verifier::external_body]
fn utf8() -> (r: Charset)
    ensures
        r@ == "UTF-8"@,
{
    Charset { encoding: encoding_rs::UTF_8, name: "UTF-8" }
}

/// `encoding_rs::UTF_16LE`, whose name is `UTF-16LE`.
#[verifier::external_body]
fn utf16le() -> (r: Charset)
    ensures
        r@ == "UTF-16LE"@,
{
    Charset { encoding: encoding_rs::UTF_16LE, name: "UTF-16LE" }
}

/// `encoding_rs::UTF_16BE`, whose name is `UTF-16BE`.
#[verifier::external_body]
fn utf16be() -> (r: Charset)
    ensures
        r@ == "UTF-16BE"@,
{
    Charset { encoding: encoding_rs::UTF_16BE, name: "UTF-16BE" }
}

/// `Encoding::decode_without_bom_handling_and_without_replacement`: the
/// text, or nothing when a sequence is malformed. On UTF-8 it is the text
/// whose UTF-8 form the bytes are, and nothing exactly when they are no
/// such form. It panics only when a buffer size overflows `usize`, which
/// the bound on the length rules out.
#[verifier::external_body]
fn decode_strict(c: Charset, bytes: &[u8]) -> (r: Option<String>)
    requires
        bytes@.len() <= usize::MAX / 8,
    ensures
        opt_text(r) == strict_decoding(c@, bytes@),
        c@ == "UTF-8"@ ==> (r matches Some(t) ==> vstd::utf8::encode_utf8(t@) == bytes@),
        c@ == "UTF-8"@ ==> (r is None ==> forall|s: Seq<char>| vstd::utf8::encode_utf8(s) != bytes@),
{
    c.encoding.decode_without_bom_handling_and_without_replacement(bytes).map(|t| t.into_owned())
}

/// `String::from_utf8_lossy`: the bytes as UTF-8, each malformed sequence
/// replaced by U+FFFD.
#[verifier::external_body]
fn utf8_lossy(bytes: &[u8]) -> (r: String)
    ensures
        r@ == lossy_utf8(bytes@),
{
    String::from_utf8_lossy(bytes).into_owned()
}

/// How the encoding of a document was determined.
#[derive(Copy, Clone, PartialEq, Eq, Debug, Structural)]
pub enum EncodingSource {
    /// A byte-order mark.
    Bom,
    /// The `encoding=` pseudo-attribute of the XML declaration.
    Declaration,
    /// Nothing said; XML's default applies.
    Default,
}

/// What a decode produced, alongside how the encoding was chosen.
#[derive(Clone, Debug)]
pub struct Decoded {
    pub text: String,
    pub encoding: &'static str,
    pub source: EncodingSource,
}

/// Which byte-order mark starts a document.
#[derive(Copy, Clone, PartialEq, Eq, Debug, Structural)]
pub enum Bom {
    Utf8,
    Utf16Le,
    Utf16Be,
}

/// The name of the encoding a byte-order mark names.
pub open spec fn bom_name(b: Bom) -> Seq<char> {
    match b {
        Bom::Utf8 => "UTF-8"@,
        Bom::Utf16Le => "UTF-16LE"@,
        Bom::Utf16Be => "UTF-16BE"@,
    }
}

/// The byte-order mark `bytes` starts with and its length. A UTF-32 mark
/// starts with the same two bytes as UTF-16's, so it is recognised first and
/// claimed by neither.
pub open spec fn bom_of(bytes: Seq<u8>) -> Option<(Bom, int)> {
    if bytes.len() >= 3 && bytes[0] == 0xEF && bytes[1] == 0xBB && bytes[2] == 0xBF {
        Some((Bom::Utf8, 3))
    } else if bytes.len() >= 4 && ((bytes[0] == 0xFF && bytes[1] == 0xFE && bytes[2] == 0x00 && bytes[3]
        == 0x00) || (bytes[0] == 0x00 && bytes[1] == 0x00 && bytes[2] == 0xFE && bytes[3] == 0xFF)) {
        None
    } else if bytes.len() >= 2 && bytes[0] == 0xFF && bytes[1] == 0xFE {
        Some((Bom::Utf16Le, 2))
    } else if bytes.len() >= 2 && bytes[0] == 0xFE && bytes[1] == 0xFF {
        Some((Bom::Utf16Be, 2))
    } else {
        None
    }
}

/// Splits off a byte-order mark, returning which it is and its length.
pub fn strip_bom(bytes: &[u8]) -> (r: Option<(Bom, usize)>)
    ensures
        match r {
            Some((b, n)) => bom_of(bytes@) == Some((b, n as int)),
            None => bom_of(bytes@) is None,
        },
{
    let n = bytes.len();
    if n >= 3 && bytes[0] == 0xEF && bytes[1] == 0xBB && bytes[2] == 0xBF {
        return Some((Bom::Utf8, 3));
    }
    if n >= 4 && ((bytes[0] == 0xFF && bytes[1] == 0xFE && bytes[2] == 0x00 && bytes[3] == 0x00) || (
    bytes[0] == 0x00 && bytes[1] == 0x00 && bytes[2] == 0xFE && bytes[3] == 0xFF)) {
        return None;
    }
    if n >= 2 && bytes[0] == 0xFF && bytes[1] == 0xFE {
        return Some((Bom::Utf16Le, 2));
    }
    if n >= 2 && bytes[0] == 0xFE && bytes[1] == 0xFF {
        return Some((Bom::Utf16Be, 2));
    }
    None
}

/// The first place at or after `i` where `pat` occurs in `s`.
pub open spec fn find_from(s: Seq<char>, pat: Seq<char>, i: int) -> Option<int>
    decreases s.len() + 1 - i,
{
    if i < 0 || i + pat.len() > s.len() {
        None
    } else if s.subrange(i, i + pat.len()) == pat {
        Some(i)
    } else {
        find_from(s, pat, i + 1)
    }
}

/// The label after `encoding`, `=` and an opening quote in the rest of a
/// declaration: the text up to the matching closing quote.
pub open spec fn label_after(decl: Seq<char>) -> Option<Seq<char>> {
    match find_from(decl, "encoding"@, 0) {
        None => None,
        Some(at) => {
            let rest = trim_start(decl.skip(at + 8));
            if rest.len() == 0 || rest[0] != '=' {
                None
            } else {
                let rest2 = trim_start(rest.skip(1));
                if rest2.len() == 0 || (rest2[0] != '"' && rest2[0] != '\'') {
                    None
                } else {
                    let value = rest2.skip(1);
                    match find_from(value, seq![rest2[0]], 0) {
                        None => None,
                        Some(end) => Some(value.take(end)),
                    }
                }
            }
        }
    }
}

/// The `encoding` pseudo-attribute of an XML declaration at the start of
/// `text`: only the declaration itself is read, up to `?>`, and it has to
/// start with `<?xml` once leading whitespace is skipped.
pub open spec fn declared_label(text: Seq<char>) -> Option<Seq<char>> {
    match find_from(text, "?>"@, 0) {
        None => None,
        Some(end) => {
            let decl = text.take(end);
            let t = trim_start(decl);
            if t.len() < 5 || t.take(5) != "<?xml"@ {
                None
            } else {
                label_after(decl)
            }
        }
    }
}

/// The bytes the declaration is looked for in: the first 1024.
pub open spec fn head(bytes: Seq<u8>) -> Seq<u8> {
    if bytes.len() < 1024 {
        bytes
    } else {
        bytes.take(1024)
    }
}

/// The first place at or after `from` where `pat` occurs in `s`.
fn find_chars(s: &Vec<char>, pat: &Vec<char>, from: usize) -> (r: Option<usize>)
    requires
        from <= s@.len(),
    ensures
        match r {
            Some(i) => find_from(s@, pat@, from as int) == Some(i as int) && i + pat@.len() <= s@.len(),
            None => find_from(s@, pat@, from as int) is None,
        },
{
    let n = s.len();
    let m = pat.len();
    let mut i = from;
    while i <= n && m <= n - i
        invariant
            n == s@.len(),
            m == pat@.len(),
            from <= i,
            i <= n + 1,
            find_from(s@, pat@, from as int) == find_from(s@, pat@, i as int),
        decreases n + 1 - i,
    {
        let mut j: usize = 0;
        let mut same = true;
        while j < m
            invariant
                n == s@.len(),
                m == pat@.len(),
                j <= m,
                i + m <= n,
                same == (forall|k: int| 0 <= k < j ==> s@[i + k] == pat@[k]),
            decreases m - j,
        {
            if s[i + j] != pat[j] {
                same = false;
            }
            j += 1;
        }
        if same {
            assert(s@.subrange(i as int, i + m) =~= pat@);
            return Some(i);
        } else {
            assert(s@.subrange(i as int, i + m) != pat@) by {
                let k = choose|k: int| 0 <= k < m && s@[i + k] != pat@[k];
                assert(s@.subrange(i as int, i + m)[k] == s@[i + k]);
            }
        }
        i += 1;
    }
    None
}

/// The position of the first non-whitespace character at or after `i`.
fn skip_ws(s: &Vec<char>, i: usize) -> (r: usize)
    requires
        i <= s@.len(),
    ensures
        i <= r <= s@.len(),
        trim_start(s@.skip(i as int)) == s@.skip(r as int),
{
    let mut k = i;
    while k < s.len() && unicode_ws(s[k])
        invariant
            i <= k <= s@.len(),
            trim_start(s@.skip(i as int)) == trim_start(s@.skip(k as int)),
        decreases s.len() - k,
    {
        assert(s@.skip(k as int).drop_first() =~= s@.skip(k + 1));
        k += 1;
    }
    k
}

/// Reads the `encoding` pseudo-attribute out of an XML declaration.
///
/// Scans only the declaration itself: anything past `?>` is document content,
/// where the word `encoding` carries no such meaning.
pub fn declared_encoding(bytes: &[u8]) -> (r: Option<String>)
    ensures
        opt_text(r) == declared_label(lossy_utf8(head(bytes@))),
{
    let text = if bytes.len() < 1024 {
        utf8_lossy(bytes)
    } else {
        let h: &[u8] = &bytes[0..1024];
        assert(h@ == head(bytes@));
        utf8_lossy(h)
    };
    let t = str_chars(text.as_str());
    let ghost tt = lossy_utf8(head(bytes@));
    assert(t@ == tt);
    proof {
        reveal_strlit("?>");
        reveal_strlit("<?xml");
        reveal_strlit("encoding");
    }
    let close = str_chars("?>");
    let decl_end = match find_chars(&t, &close, 0) {
        Some(e) => e,
        None => return None,
    };
    let decl: Vec<char> = slice_chars(&t, 0, decl_end);
    assert(decl@ == tt.take(decl_end as int));
    let s0 = skip_ws(&decl, 0);
    assert(decl@.skip(0) =~= decl@);
    let opener = str_chars("<?xml");
    if !(decl.len() - s0 >= 5 && starts_at(&decl, s0, &opener)) {
        assert(decl@.skip(s0 as int).len() < 5 || decl@.skip(s0 as int).take(5) != "<?xml"@);
        return None;
    }
    let word = str_chars("encoding");
    let at = match find_chars(&decl, &word, 0) {
        Some(a) => a,
        None => return None,
    };
    let k1 = skip_ws(&decl, at + 8);
    if k1 >= decl.len() || decl[k1] != '=' {
        return None;
    }
    assert(trim_start(decl@.skip(at + 8)).skip(1) =~= decl@.skip(k1 + 1));
    let k2 = skip_ws(&decl, k1 + 1);
    if k2 >= decl.len() || (decl[k2] != '"' && decl[k2] != '\'') {
        return None;
    }
    let quote = decl[k2];
    let value = slice_chars(&decl, k2 + 1, decl.len());
    assert(value@ =~= decl@.skip(k2 as int).skip(1));
    let mut q: Vec<char> = Vec::new();
    q.push(quote);
    assert(q@ =~= seq![quote]);
    let end = match find_chars(&value, &q, 0) {
        Some(e) => e,
        None => return None,
    };
    let label = slice_chars(&value, 0, end);
    assert(label@ =~= value@.take(end as int));
    Some(string_from_chars(&label))
}

/// Whether `pat` occurs in `s` at `at`.
fn starts_at(s: &Vec<char>, at: usize, pat: &Vec<char>) -> (r: bool)
    requires
        at + pat@.len() <= s@.len(),
    ensures
        r == (s@.skip(at as int).take(pat@.len() as int) == pat@),
{
    let n = s.len();
    let mut j: usize = 0;
    while j < pat.len()
        invariant
            n == s@.len(),
            j <= pat@.len(),
            at + pat@.len() <= s@.len(),
            forall|k: int| 0 <= k < j ==> s@[at + k] == pat@[k],
        decreases pat.len() - j,
    {
        if s[at + j] != pat[j] {
            assert(s@.skip(at as int).take(pat@.len() as int)[j as int] != pat@[j as int]);
            return false;
        }
        j += 1;
    }
    assert(s@.skip(at as int).take(pat@.len() as int) =~= pat@);
    true
}

/// What the help of a malformed-bytes diagnostic says, by how the
/// encoding was chosen.
pub open spec fn malformed_help(source: EncodingSource) -> Seq<char> {
    match source {
        EncodingSource::Declaration => "the XML declaration may name the wrong encoding"@,
        EncodingSource::Bom => "the byte-order mark disagrees with the document's contents"@,
        EncodingSource::Default => "no encoding was declared, so UTF-8 was assumed"@,
    }
}

/// Whether `e` is an error of code `code` saying `message`, pointing at the
/// document `uri` as a whole, with the help `help`.
pub open spec fn is_document_error(e: Diagnostic, code: DiagCode, message: Seq<char>, uri: Seq<char>, help: Seq<char>) -> bool {
    &&& e.code == code
    &&& e.severity == crate::diagnostics::Severity::Error
    &&& e.message@ == message
    &&& e.spans@.len() == 1
    &&& e.spans@[0].uri@ == uri
    &&& e.spans@[0].line == 0
    &&& e.spans@[0].label is None
    &&& crate::diagnostics::opt_chars(e.help) == Some(help)
}

/// What decoding with the encoding named `name` comes to: the text when the
/// bytes were well-formed, and otherwise an error naming the encoding.
pub open spec fn decode_outcome(
    r: Result<Decoded, Diagnostic>,
    decoded: Option<Seq<char>>,
    name: Seq<char>,
    source: EncodingSource,
    uri: Seq<char>,
) -> bool {
    match decoded {
        Some(t) => r matches Ok(d) && d.text@ == t && d.encoding@ == name && d.source == source,
        None => r matches Err(e) && is_document_error(
            e,
            DiagCode::MalformedEncoding,
            "bytes are not valid "@ + name,
            uri,
            malformed_help(source),
        ),
    }
}

/// The result of a decode, given what the encoding produced: the text, or
/// an error saying the bytes are not valid in it.
pub fn finish_decoding(
    decoded: Option<String>,
    encoding: &'static str,
    source: EncodingSource,
    uri: &str,
) -> (r: Result<Decoded, Diagnostic>)
    ensures
        decode_outcome(r, opt_text(decoded), encoding@, source, uri@),
{
    match decoded {
        Some(text) => Ok(Decoded { text, encoding, source }),
        None => {
            let mut msg: Vec<char> = Vec::new();
            push_str(&mut msg, "bytes are not valid ");
            push_str(&mut msg, encoding);
            let help = match source {
                EncodingSource::Declaration => "the XML declaration may name the wrong encoding",
                EncodingSource::Bom => "the byte-order mark disagrees with the document's contents",
                EncodingSource::Default => "no encoding was declared, so UTF-8 was assumed",
            };
            let m = string_from_chars(&msg);
            let d = Diagnostic::error(DiagCode::MalformedEncoding, m.as_str()).at(Span::new(uri, 0)).with_help(
                help,
            );
            Err(d)
        },
    }
}

/// Decodes a schema document.
///
/// Returns a diagnostic rather than a string on failure, so an encoding
/// problem reads as an encoding problem.
pub fn decode_document(bytes: &[u8], uri: &str) -> (r: Result<Decoded, Diagnostic>)
    requires
        bytes@.len() <= usize::MAX / 8,
    ensures
        match bom_of(bytes@) {
            Some((b, n)) => decode_outcome(
                r,
                strict_decoding(bom_name(b), bytes@.skip(n)),
                bom_name(b),
                EncodingSource::Bom,
                uri@,
            ),
            None => match declared_label(lossy_utf8(head(bytes@))) {
                Some(label) => match encoding_for_label(vstd::utf8::encode_utf8(label)) {
                    Some(name) => decode_outcome(
                        r,
                        strict_decoding(name, bytes@),
                        name,
                        EncodingSource::Declaration,
                        uri@,
                    ),
                    None => r matches Err(e) && is_document_error(
                        e,
                        DiagCode::UnsupportedEncoding,
                        "unknown encoding `"@ + label + "`"@,
                        uri@,
                        "use an encoding label from the WHATWG Encoding Standard, such as UTF-8"@,
                    ),
                },
                None => decode_outcome(r, strict_decoding("UTF-8"@, bytes@), "UTF-8"@, EncodingSource::Default, uri@),
            },
        },
{
    // 1. A BOM is decisive, and is not part of the document.
    match strip_bom(bytes) {
        Some((b, n)) => {
            let c = match b {
                Bom::Utf8 => utf8(),
                Bom::Utf16Le => utf16le(),
                Bom::Utf16Be => utf16be(),
            };
            let rest: &[u8] = &bytes[n..bytes.len()];
            assert(rest@ == bytes@.skip(n as int));
            let decoded = decode_strict(c, rest);
            return finish_decoding(decoded, c.name, EncodingSource::Bom, uri);
        },
        None => {},
    }
    // 2. The declaration. XML requires a BOM for UTF-16, so anything reaching
    //    here is ASCII-compatible in its first bytes and can be scanned raw.
    match declared_encoding(bytes) {
        Some(label) => {
            match charset_for_label(label.as_str().as_bytes()) {
                Some(c) => {
                    let decoded = decode_strict(c, bytes);
                    return finish_decoding(decoded, c.name, EncodingSource::Declaration, uri);
                },
                None => {
                    let mut msg: Vec<char> = Vec::new();
                    push_str(&mut msg, "unknown encoding `");
                    push_str(&mut msg, label.as_str());
                    push_str(&mut msg, "`");
                    let m = string_from_chars(&msg);
                    let d = Diagnostic::error(DiagCode::UnsupportedEncoding, m.as_str()).at(
                        Span::new(uri, 0),
                    ).with_help("use an encoding label from the WHATWG Encoding Standard, such as UTF-8");
                    return Err(d);
                },
            }
        },
        None => {},
    }
    // 3. XML's default.
    let c = utf8();
    let decoded = decode_strict(c, bytes);
    finish_decoding(decoded, c.name, EncodingSource::Default, uri)
}

} // verus!
