use xsdkit::names::{Interner, Namespace, QName, Symbol, XS};

#[test]
fn interning_is_stable_and_deduplicating() {
    let mut i = Interner::new();
    let a = i.intern("well");
    let b = i.intern("well");
    let c = i.intern("wellbore");
    assert_eq!(a, b);
    assert_ne!(a, c);
    assert_eq!(i.resolve(a), "well");
    // Two distinct strings, plus the empty string every interner reserves
    // at slot 0 so the empty symbol always resolves.
    assert_eq!(i.len(), 3);
}

#[test]
fn the_empty_symbol_resolves_in_every_interner() {
    for i in [Interner::new(), Interner::default()] {
        assert_eq!(i.resolve(Symbol::empty()), "");
    }
    let mut i = Interner::new();
    i.intern("well");
    assert_eq!(i.resolve(Symbol::empty()), "", "interning must not move it");
    assert_eq!(i.display(QName::unknown()), "");
}

#[test]
fn empty_target_namespace_is_no_namespace() {
    let mut i = Interner::new();
    assert_eq!(i.opt_namespace(""), None);
    assert!(i.opt_namespace("urn:x").is_some());
}

#[test]
fn qnames_render_in_clark_notation() {
    let mut i = Interner::new();
    let q = i.qname(Some("urn:x"), "well");
    let u = i.qname(None, "well");
    assert_eq!(i.display(q), "{urn:x}well");
    assert_eq!(i.display(u), "well");
    assert_ne!(q, u);
}

#[test]
fn lookup_finds_only_what_was_interned() {
    let mut i = Interner::new();
    assert_eq!(i.lookup("well"), None);
    let w = i.intern("well");
    assert_eq!(i.lookup("well"), Some(w));
    assert_eq!(i.lookup(""), Some(Symbol::empty()));
    assert!(!i.is_empty());
    let ns = i.namespace(XS);
    assert_eq!(i.resolve_ns(ns), "http://www.w3.org/2001/XMLSchema");
    assert_eq!(Namespace::from_symbol(ns.symbol()), ns);
    let q = QName::new(Some(ns), w);
    assert_eq!(i.display(q), "{http://www.w3.org/2001/XMLSchema}well");
    assert!(Symbol::empty().is_empty_symbol());
    assert!(!w.is_empty_symbol());
    // Interning a string already held does not grow the interner.
    let before = i.len();
    i.intern("well");
    assert_eq!(i.len(), before);
}
