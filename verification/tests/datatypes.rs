use xsdkit::datatypes::{Builtin, BuiltinKind, Facet, FacetKind, FacetSet, Variety, WhiteSpace};

#[test]
fn table_and_enum_agree() {
    let all = Builtin::all();
    assert_eq!(all.len(), Builtin::PrecisionDecimal as usize + 1);
    for (i, &b) in all.iter().enumerate() {
        assert_eq!(b as usize, i, "{b:?} is out of order in ALL_BUILTINS");
    }
}

#[test]
fn there_are_nineteen_primitives_plus_the_optional_one() {
    let n = Builtin::all().iter().filter(|b| b.is_primitive()).count();
    assert_eq!(
        n, 20,
        "XSD 1.1 Part 2 defines 19 required primitives, and `precisionDecimal` \
         is the optional twentieth"
    );
    assert!(Builtin::PrecisionDecimal.is_primitive());
}

#[test]
fn precision_decimal_is_available() {
    assert_eq!(
        Builtin::from_local_name("precisionDecimal"),
        Some(Builtin::PrecisionDecimal)
    );
    assert_eq!(
        Builtin::PrecisionDecimal.primitive(),
        Some(Builtin::PrecisionDecimal)
    );
    assert!(!Builtin::PrecisionDecimal.derives_from(Builtin::Decimal));
}

#[test]
fn lookup_round_trips() {
    for &b in Builtin::all().iter() {
        assert_eq!(Builtin::from_local_name(b.local_name()), Some(b));
    }
}

#[test]
fn derivation_chains_reach_the_ur_type() {
    for &b in Builtin::all().iter() {
        assert!(
            b.derives_from(Builtin::AnyType),
            "{b:?} does not reach xs:anyType"
        );
    }
    assert!(Builtin::PositiveInteger.derives_from(Builtin::Decimal));
    assert!(Builtin::PositiveInteger.derives_from(Builtin::Integer));
    assert!(!Builtin::PositiveInteger.derives_from(Builtin::NegativeInteger));
}

#[test]
fn primitives_resolve_through_long_chains() {
    assert_eq!(Builtin::UnsignedByte.primitive(), Some(Builtin::Decimal));
    assert_eq!(Builtin::Id.primitive(), Some(Builtin::String));
    assert_eq!(Builtin::DateTimeStamp.primitive(), Some(Builtin::DateTime));
    assert_eq!(Builtin::NmTokens.primitive(), None);
}

#[test]
fn list_types_are_lists_of_the_right_item() {
    assert_eq!(
        Builtin::NmTokens.kind(),
        BuiltinKind::List(Builtin::NmToken)
    );
    assert_eq!(Builtin::IdRefs.kind(), BuiltinKind::List(Builtin::IdRef));
    assert_eq!(Builtin::Entities.kind(), BuiltinKind::List(Builtin::Entity));
    assert_eq!(Builtin::NmTokens.variety(), Some(Variety::List));
}

#[test]
fn whitespace_is_fixed_by_ancestry() {
    assert_eq!(Builtin::String.white_space(), WhiteSpace::Preserve);
    assert_eq!(Builtin::NormalizedString.white_space(), WhiteSpace::Replace);
    assert_eq!(Builtin::Token.white_space(), WhiteSpace::Collapse);
    assert_eq!(Builtin::Language.white_space(), WhiteSpace::Collapse);
    assert_eq!(Builtin::Int.white_space(), WhiteSpace::Collapse);
}

#[test]
fn whitespace_normalization() {
    assert_eq!(WhiteSpace::Preserve.normalize(" a\tb "), " a\tb ");
    assert_eq!(WhiteSpace::Replace.normalize(" a\tb\n"), " a b ");
    assert_eq!(WhiteSpace::Collapse.normalize(" a\t\n b  c "), "a b c");
    assert_eq!(WhiteSpace::Collapse.normalize("  "), "");
    assert_eq!(WhiteSpace::Collapse.normalize("plain"), "plain");
}

#[test]
fn collapse_runs_before_lexical_parsing() {
    let raw = " 42 ";
    let ws = Builtin::Int.white_space();
    assert_eq!(ws.normalize(raw), "42");
    assert_eq!(Builtin::String.white_space().normalize(raw), " 42 ");
}

#[test]
fn patterns_or_within_a_step_and_and_across_steps() {
    let base = FacetSet::new();
    let step1 = base.restrict(&[
        Facet::Pattern("[a-z]+".into()),
        Facet::Pattern("[0-9]+".into()),
    ]);
    assert_eq!(
        step1.patterns,
        vec![vec!["[a-z]+".to_string(), "[0-9]+".to_string()]]
    );

    let step2 = step1.restrict(&[Facet::Pattern(".{3}".into())]);
    assert_eq!(
        step2.patterns.len(),
        2,
        "each step is a separate ANDed group"
    );
    assert_eq!(step2.patterns[1], vec![".{3}".to_string()]);
}

#[test]
fn a_step_without_patterns_adds_no_group() {
    let f = FacetSet::new().restrict(&[Facet::MaxLength(4)]);
    assert!(f.patterns.is_empty());
    assert_eq!(f.max_length, Some(4));
}

#[test]
fn inclusive_and_exclusive_bounds_displace_each_other() {
    let f = FacetSet::new()
        .restrict(&[Facet::MinInclusive("0".into())])
        .restrict(&[Facet::MinExclusive("5".into())]);
    assert_eq!(f.min_exclusive.as_deref(), Some("5"));
    assert_eq!(
        f.min_inclusive, None,
        "a bound of the other kind must not linger"
    );
}

#[test]
fn the_innermost_enumeration_wins() {
    let f = FacetSet::new()
        .restrict(&[
            Facet::Enumeration("a".into()),
            Facet::Enumeration("b".into()),
        ])
        .restrict(&[Facet::Enumeration("a".into())]);
    assert_eq!(f.enumeration, Some(vec!["a".to_string()]));
}

#[test]
fn effective_whitespace_falls_back_to_the_builtin() {
    let f = FacetSet::new();
    assert_eq!(
        f.effective_white_space(WhiteSpace::Collapse),
        WhiteSpace::Collapse
    );
    let f = f.restrict(&[Facet::WhiteSpace(WhiteSpace::Preserve)]);
    assert_eq!(
        f.effective_white_space(WhiteSpace::Collapse),
        WhiteSpace::Preserve
    );
}

#[test]
fn facet_names_and_kinds() {
    assert_eq!(FacetKind::MinInclusive.name(), "minInclusive");
    assert!(FacetKind::MaxExclusive.is_bound());
    assert!(!FacetKind::Pattern.is_bound());
    assert_eq!(Facet::TotalDigits(3).kind(), FacetKind::TotalDigits);
    assert_eq!(Facet::Assertion("a".into()).name(), "assertion");
    assert_eq!(Builtin::Int.to_string(), "xs:int");
    assert_eq!(WhiteSpace::Collapse.to_string(), "collapse");
}

#[test]
fn facets_applicable_by_primitive() {
    assert!(!Builtin::Duration.allows_facet(FacetKind::Length));
    assert!(!Builtin::YearMonthDuration.allows_facet(FacetKind::Length));
    assert!(Builtin::Int.allows_facet(FacetKind::FractionDigits));
    assert!(!Builtin::Boolean.allows_facet(FacetKind::Enumeration));
    assert!(Builtin::Boolean.allows_facet(FacetKind::Pattern));
    assert!(Builtin::PrecisionDecimal.allows_facet(FacetKind::MinScale));
    assert!(!Builtin::Decimal.allows_facet(FacetKind::MinScale));
    assert!(Builtin::NmTokens.allows_facet(FacetKind::Length));
    assert!(!Builtin::NmTokens.allows_facet(FacetKind::MaxInclusive));
    assert!(Builtin::AnyType.allows_facet(FacetKind::Length));
    assert!(Builtin::Date.allows_facet(FacetKind::ExplicitTimezone));
    assert_eq!(Builtin::from_local_name("nonsense"), None);
}
