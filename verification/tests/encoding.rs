use xsdkit::diagnostics::DiagCode;
use xsdkit::encoding::{declared_encoding, decode_document, finish_decoding, strip_bom, Bom, EncodingSource};

fn latin1(s: &str) -> Vec<u8> {
    encoding_rs::WINDOWS_1252.encode(s).0.into_owned()
}

#[test]
fn plain_utf8_needs_no_declaration() {
    let d = decode_document(b"<a>hi</a>", "u").unwrap();
    assert_eq!(d.text, "<a>hi</a>");
    assert_eq!(d.source, EncodingSource::Default);
    assert_eq!(d.encoding, "UTF-8");
}

#[test]
fn a_utf8_bom_is_stripped() {
    let mut b = vec![0xEF, 0xBB, 0xBF];
    b.extend_from_slice(b"<a/>");
    let d = decode_document(&b, "u").unwrap();
    assert_eq!(d.text, "<a/>", "the BOM must not survive into the document");
    assert_eq!(d.source, EncodingSource::Bom);
}

/// encoding_rs has no UTF-16 *encoder* — per WHATWG, `encode` falls back
/// to UTF-8 — so these bytes are built by hand.
fn utf16(s: &str, little_endian: bool) -> Vec<u8> {
    let mut out = if little_endian { vec![0xFF, 0xFE] } else { vec![0xFE, 0xFF] };
    for unit in s.encode_utf16() {
        out.extend_from_slice(&if little_endian { unit.to_le_bytes() } else { unit.to_be_bytes() });
    }
    out
}

#[test]
fn utf16_is_recognised_from_its_bom() {
    for little_endian in [true, false] {
        let b = utf16("<a>é 日本</a>", little_endian);
        let d = decode_document(&b, "u").unwrap();
        assert_eq!(d.text, "<a>é 日本</a>", "little_endian={little_endian}");
        assert_eq!(d.source, EncodingSource::Bom);
        assert!(d.encoding.starts_with("UTF-16"), "{}", d.encoding);
    }
}

#[test]
fn utf16_handles_astral_characters() {
    let d = decode_document(&utf16("<a>🜁</a>", true), "u").unwrap();
    assert_eq!(d.text, "<a>🜁</a>");
}

#[test]
fn a_declared_encoding_is_honoured() {
    let doc = r#"<?xml version="1.0" encoding="ISO-8859-1"?><a>Größe</a>"#;
    let d = decode_document(&latin1(doc), "u").unwrap();
    assert!(d.text.contains("Größe"), "{}", d.text);
    assert_eq!(d.source, EncodingSource::Declaration);
    assert_eq!(d.encoding, "windows-1252", "ISO-8859-1 maps to windows-1252 per WHATWG");
}

#[test]
fn single_quotes_and_spacing_are_accepted() {
    let doc = "<?xml version='1.0'  encoding = 'ISO-8859-1' ?><a>ä</a>";
    let d = decode_document(&latin1(doc), "u").unwrap();
    assert!(d.text.contains('ä'));
}

#[test]
fn an_unknown_encoding_is_named_as_such() {
    let doc = br#"<?xml version="1.0" encoding="KOI9-Klingon"?><a/>"#;
    let e = decode_document(doc, "u").unwrap_err();
    assert_eq!(e.code, DiagCode::UnsupportedEncoding);
    assert!(e.message.contains("KOI9-Klingon"), "{}", e.message);
}

#[test]
fn bytes_that_contradict_their_declaration_are_an_error() {
    // Declares UTF-8, contains a lone 0xE9 — valid Latin-1, invalid UTF-8.
    let mut b = br#"<?xml version="1.0" encoding="UTF-8"?><a>"#.to_vec();
    b.push(0xE9);
    b.extend_from_slice(b"</a>");
    let e = decode_document(&b, "u").unwrap_err();
    assert_eq!(e.code, DiagCode::MalformedEncoding);
    assert!(e.help.as_ref().unwrap().contains("wrong encoding"));
}

#[test]
fn undeclared_non_utf8_bytes_are_an_error_not_replacement_characters() {
    let e = decode_document(&[b'<', b'a', b'>', 0xFF, b'<', b'/', b'a', b'>'], "u").unwrap_err();
    assert_eq!(e.code, DiagCode::MalformedEncoding);
    assert!(!e.message.contains('\u{FFFD}'), "must not silently substitute");
}

#[test]
fn encoding_is_only_read_from_the_declaration() {
    let doc = br#"<?xml version="1.0"?><a encoding="ISO-8859-1"/>"#;
    let d = decode_document(doc, "u").unwrap();
    assert_eq!(d.source, EncodingSource::Default);
}

#[test]
fn a_document_with_no_declaration_at_all_is_utf8() {
    let d = decode_document("<a>日本語</a>".as_bytes(), "u").unwrap();
    assert!(d.text.contains("日本語"));
}

#[test]
fn a_utf32_bom_is_not_mistaken_for_utf16() {
    // UTF-32LE starts FF FE 00 00, which is a UTF-16LE BOM plus a NUL.
    let b = [0xFF, 0xFE, 0x00, 0x00, 0x3C, 0x00, 0x00, 0x00];
    // Not claimed as UTF-16; falls through and fails honestly.
    assert!(decode_document(&b, "u").is_err());
}

#[test]
fn the_decision_and_its_reporting_separately() {
    assert_eq!(strip_bom(&[0xEF, 0xBB, 0xBF, b'x']), Some((Bom::Utf8, 3)));
    assert_eq!(strip_bom(&[0xFE, 0xFF]), Some((Bom::Utf16Be, 2)));
    assert_eq!(strip_bom(&[0x00, 0x00, 0xFE, 0xFF]), None);
    assert_eq!(declared_encoding(b"  <?xml encoding=\"latin1\"?>"), Some("latin1".to_string()));
    assert_eq!(declared_encoding(b"<?xml encoding=latin1?>"), None);
    assert_eq!(declared_encoding(b"<a/><?xml encoding='x'?>"), None);
    let e = finish_decoding(None, "UTF-16LE", EncodingSource::Bom, "file:///s.xsd").unwrap_err();
    assert_eq!(e.message, "bytes are not valid UTF-16LE");
    assert_eq!(e.help.as_deref(), Some("the byte-order mark disagrees with the document's contents"));
    assert_eq!(e.spans[0].uri, "file:///s.xsd");
    let d = finish_decoding(Some("t".to_string()), "UTF-8", EncodingSource::Default, "u").unwrap();
    assert_eq!((d.text.as_str(), d.encoding, d.source), ("t", "UTF-8", EncodingSource::Default));
}
