use xsdkit::compile::{compile, Loader};
use xsdkit::content::ContentModel;
use xsdkit::datatypes::Builtin;
use xsdkit::diagnostics::Span;
use xsdkit::load::Conformance;
use xsdkit::model::{
    ComplexType, Compositor, ContentType, DerivationMethod, DerivationSet, ElementDecl, ElementId, MaxOccurs,
    ModelGroup, Particle, ParticleId, Scope, Term, TypeDefinition, TypeId,
};
use xsdkit::schemas::Schemas;

fn none() -> DerivationSet {
    DerivationSet { extension: false, restriction: false, substitution: false, list: false, union: false }
}

fn span() -> Span {
    Span::new("mem:children", 1)
}

fn element(l: &mut Loader, local: &str) -> ElementId {
    let name = l.qname(Some("urn:x"), local);
    let string = l.builtin(Builtin::String);
    let id = l.add_element(ElementDecl {
        name,
        type_id: string,
        scope: Scope::Global,
        nillable: false,
        is_abstract: false,
        substitution_group: Vec::new(),
        value_constraint: None,
        block: none(),
        final_: none(),
        identity_constraints: Vec::new(),
        annotation: None,
        span: span(),
    });
    l.globals_mut().elements.insert(name, id);
    id
}

fn particle(l: &mut Loader, min: u32, max: MaxOccurs, term: Term) -> ParticleId {
    l.add_particle(Particle { min_occurs: min, max_occurs: max, term, span: span() })
}

fn complex(base: TypeId, derivation: DerivationMethod, content: ContentType) -> TypeDefinition {
    TypeDefinition::Complex(ComplexType {
        name: None,
        base,
        derivation,
        content,
        attribute_uses: Vec::new(),
        attribute_group_refs: Vec::new(),
        attribute_wildcard: None,
        open_content: None,
        is_abstract: false,
        block: none(),
        final_: none(),
        annotation: None,
        span: span(),
    })
}

/// A type whose content is `<a/>` once, then `<b/>` any number of times,
/// and a type extending it whose own content is empty.
fn sequence_schema() -> (Schemas, TypeId, TypeId, ElementId, ElementId, ElementId) {
    let mut l = Loader::new();
    let a = element(&mut l, "a");
    let b = element(&mut l, "b");
    let c = element(&mut l, "c");
    let pa = particle(&mut l, 1, MaxOccurs::Bounded(1), Term::Element(a));
    let pb = particle(&mut l, 0, MaxOccurs::Unbounded, Term::Element(b));
    let seq = particle(
        &mut l,
        1,
        MaxOccurs::Bounded(1),
        Term::Group(ModelGroup { compositor: Compositor::Sequence, particles: vec![pa, pb] }),
    );
    let any = l.builtin(Builtin::AnyType);
    let t = l.add_type(complex(any, DerivationMethod::Restriction, ContentType::ElementOnly(seq)));
    let u = l.add_type(complex(t, DerivationMethod::Extension, ContentType::Empty));
    let (s, _) = compile(l, Conformance::Strict);
    (s, t, u, a, b, c)
}

#[test]
fn the_possible_children_of_a_sequence_are_its_elements_in_order() {
    let (s, t, u, a, b, _) = sequence_schema();
    assert_eq!(s.possible_children(t), vec![a, b]);
    assert_eq!(s.possible_children(u), vec![a, b]);
}

#[test]
fn a_child_repeats_only_where_its_range_or_a_cycle_lets_it() {
    let (s, t, _, a, b, c) = sequence_schema();
    assert!(!s.child_repeats(t, a));
    assert!(s.child_repeats(t, b));
    assert!(!s.child_repeats(t, c));
}

#[test]
fn a_child_is_optional_unless_every_path_needs_it() {
    let (s, t, _, a, b, c) = sequence_schema();
    assert!(!s.child_is_optional(t, a));
    assert!(s.child_is_optional(t, b));
    assert!(s.child_is_optional(t, c));
}

#[test]
fn a_compiled_sequence_is_an_automaton_that_needs_its_first_element() {
    let (s, t, _, _, _, _) = sequence_schema();
    match s.content_model(t) {
        Some(ContentModel::Automaton(auto)) => {
            assert_eq!(auto.positions().len(), 2);
            assert_eq!(auto.first(), &[0u32][..]);
            assert_eq!(auto.last(), &[1u32, 0][..]);
            assert!(!auto.is_nullable());
            assert!(!auto.approximated());
            assert!(auto.repeats(1));
            assert!(!auto.repeats(0));
        },
        _ => panic!("expected an automaton"),
    }
}

#[test]
fn simple_types_have_no_compiled_content() {
    let (s, _, _, _, _, _) = sequence_schema();
    let string = s.builtin(Builtin::String);
    assert!(s.content(string).is_none());
    assert!(s.possible_children(string).is_empty());
    assert!(!s.child_repeats(string, ElementId::from_index(0)));
    assert!(s.child_is_optional(string, ElementId::from_index(0)));
}

#[test]
fn an_extension_with_empty_content_is_mixed_when_its_base_is() {
    let mut l = Loader::new();
    let a = element(&mut l, "a");
    let pa = particle(&mut l, 1, MaxOccurs::Bounded(1), Term::Element(a));
    let any = l.builtin(Builtin::AnyType);
    let mixed = l.add_type(complex(any, DerivationMethod::Restriction, ContentType::Mixed(pa)));
    let ext = l.add_type(complex(mixed, DerivationMethod::Extension, ContentType::Empty));
    let res = l.add_type(complex(mixed, DerivationMethod::Restriction, ContentType::Empty));
    let (s, _) = compile(l, Conformance::Strict);
    assert!(s.content_is_mixed(mixed));
    assert!(s.content_is_mixed(ext));
    assert!(!s.content_is_mixed(res));
}

#[test]
fn a_lone_all_is_counted_rather_than_compiled() {
    let mut l = Loader::new();
    let a = element(&mut l, "a");
    let b = element(&mut l, "b");
    let pa = particle(&mut l, 0, MaxOccurs::Bounded(1), Term::Element(a));
    let pb = particle(&mut l, 1, MaxOccurs::Bounded(1), Term::Element(b));
    let all = particle(
        &mut l,
        1,
        MaxOccurs::Bounded(1),
        Term::Group(ModelGroup { compositor: Compositor::All, particles: vec![pa, pb] }),
    );
    let any = l.builtin(Builtin::AnyType);
    let t = l.add_type(complex(any, DerivationMethod::Restriction, ContentType::ElementOnly(all)));
    let (s, _) = compile(l, Conformance::Strict);
    assert!(matches!(s.content_model(t), Some(ContentModel::All(_))));
    assert_eq!(s.possible_children(t), vec![a, b]);
    assert!(s.child_is_optional(t, a));
    assert!(!s.child_is_optional(t, b));
    assert!(!s.child_repeats(t, a));
}

fn automaton_of(s: &Schemas, t: TypeId) -> &xsdkit::content::ContentAutomaton {
    match s.content_model(t) {
        Some(ContentModel::Automaton(a)) => a,
        _ => panic!("expected an automaton"),
    }
}

#[test]
fn a_sequence_of_optional_particles_accepts_empty_content() {
    let mut l = Loader::new();
    let a = element(&mut l, "a");
    let b = element(&mut l, "b");
    let pa = particle(&mut l, 0, MaxOccurs::Bounded(1), Term::Element(a));
    let pb = particle(&mut l, 0, MaxOccurs::Bounded(3), Term::Element(b));
    let pc = particle(&mut l, 1, MaxOccurs::Bounded(1), Term::Element(a));
    let optional = particle(
        &mut l,
        1,
        MaxOccurs::Bounded(1),
        Term::Group(ModelGroup { compositor: Compositor::Sequence, particles: vec![pa, pb] }),
    );
    let choice = particle(
        &mut l,
        1,
        MaxOccurs::Bounded(1),
        Term::Group(ModelGroup { compositor: Compositor::Choice, particles: vec![pc, pa] }),
    );
    let required = particle(
        &mut l,
        1,
        MaxOccurs::Bounded(1),
        Term::Group(ModelGroup { compositor: Compositor::Sequence, particles: vec![pa, pc] }),
    );
    let any = l.builtin(Builtin::AnyType);
    let t1 = l.add_type(complex(any, DerivationMethod::Restriction, ContentType::ElementOnly(optional)));
    let t2 = l.add_type(complex(any, DerivationMethod::Restriction, ContentType::ElementOnly(choice)));
    let t3 = l.add_type(complex(any, DerivationMethod::Restriction, ContentType::ElementOnly(required)));
    let (s, _) = compile(l, Conformance::Strict);
    assert!(automaton_of(&s, t1).is_nullable());
    assert!(!automaton_of(&s, t1).approximated());
    assert_eq!(automaton_of(&s, t1).positions().len(), 4);
    assert!(automaton_of(&s, t2).is_nullable());
    assert!(!automaton_of(&s, t3).is_nullable());
}

#[test]
fn a_range_past_the_unroll_cap_is_widened_and_marked_approximate() {
    let mut l = Loader::new();
    let a = element(&mut l, "a");
    let wide = particle(&mut l, 2, MaxOccurs::Bounded(100), Term::Element(a));
    let any = l.builtin(Builtin::AnyType);
    let t = l.add_type(complex(any, DerivationMethod::Restriction, ContentType::ElementOnly(wide)));
    let (s, _) = compile(l, Conformance::Strict);
    let auto = automaton_of(&s, t);
    assert!(auto.approximated());
    assert_eq!(auto.positions().len(), 64);
    assert!(s.child_repeats(t, a));
    assert!(!auto.is_nullable());
}

#[test]
fn children_answer_every_question_at_once() {
    let (s, t, _, a, b, _) = sequence_schema();
    let kids = s.children(t);
    assert_eq!(kids.len(), 2);
    assert_eq!((kids[0].element, kids[0].repeats, kids[0].optional), (a, false, false));
    assert_eq!((kids[1].element, kids[1].repeats, kids[1].optional), (b, true, true));
    assert!(s.children(s.builtin(Builtin::String)).is_empty());
}

#[test]
fn content_stats_count_each_kind_of_model() {
    let (s, _, _, _, _, _) = sequence_schema();
    let st = s.content_stats();
    assert_eq!(st.automata, 2);
    assert_eq!(st.positions, 4);
    assert!(st.empty >= 1);
    assert_eq!(st.approximated, 0);
    assert_eq!(st.open_content, 0);
    assert_eq!(st.models, st.automata + st.all_groups + st.empty);
}

fn choice_of_twins(mode: Conformance) -> xsdkit::diagnostics::Diagnostics {
    let mut l = Loader::new();
    let a = element(&mut l, "a");
    let b = element(&mut l, "b");
    let first = particle(&mut l, 1, MaxOccurs::Bounded(1), Term::Element(a));
    let second = particle(&mut l, 1, MaxOccurs::Bounded(1), Term::Element(a));
    let other = particle(&mut l, 1, MaxOccurs::Bounded(1), Term::Element(b));
    let choice = particle(
        &mut l,
        1,
        MaxOccurs::Bounded(1),
        Term::Group(ModelGroup { compositor: Compositor::Choice, particles: vec![first, second, other] }),
    );
    let any = l.builtin(Builtin::AnyType);
    l.add_type(complex(any, DerivationMethod::Restriction, ContentType::ElementOnly(choice)));
    compile(l, mode).1
}

#[test]
fn two_particles_competing_for_one_name_are_ambiguous() {
    let diags = choice_of_twins(Conformance::Strict);
    let found: Vec<_> =
        diags.iter().iter().filter(|d| d.code == xsdkit::diagnostics::DiagCode::AmbiguousContentModel).collect();
    assert_eq!(found.len(), 1);
    let d = found[0];
    assert_eq!(d.severity, xsdkit::diagnostics::Severity::Error);
    assert_eq!(d.message, "the content model of an anonymous type is ambiguous: `{urn:x}a` could match either particle");
    assert_eq!(d.help.as_deref(), Some("make the choice explicit, or merge the two particles"));
    assert_eq!(d.spans.len(), 2);
    assert_eq!(d.spans[0].label.as_deref(), Some("one candidate"));
    assert_eq!(d.spans[1].label.as_deref(), Some("the other"));
}

#[test]
fn lax_conformance_makes_an_ambiguity_a_warning() {
    let diags = choice_of_twins(Conformance::Lax);
    let found: Vec<_> =
        diags.iter().iter().filter(|d| d.code == xsdkit::diagnostics::DiagCode::AmbiguousContentModel).collect();
    assert_eq!(found.len(), 1);
    assert_eq!(found[0].severity, xsdkit::diagnostics::Severity::Warning);
}

#[test]
fn a_sequence_of_distinct_names_is_unambiguous() {
    let (_, _, _, _, _, _) = sequence_schema();
    let mut l = Loader::new();
    let a = element(&mut l, "a");
    let b = element(&mut l, "b");
    let pa = particle(&mut l, 0, MaxOccurs::Bounded(1), Term::Element(a));
    let pb = particle(&mut l, 1, MaxOccurs::Bounded(1), Term::Element(b));
    let seq = particle(
        &mut l,
        1,
        MaxOccurs::Bounded(1),
        Term::Group(ModelGroup { compositor: Compositor::Sequence, particles: vec![pa, pb] }),
    );
    let any = l.builtin(Builtin::AnyType);
    l.add_type(complex(any, DerivationMethod::Restriction, ContentType::ElementOnly(seq)));
    let diags = compile(l, Conformance::Strict).1;
    assert!(diags.iter().iter().all(|d| d.code != xsdkit::diagnostics::DiagCode::AmbiguousContentModel));
}

fn element_or_anything(version: xsdkit::load::Version) -> xsdkit::diagnostics::Diagnostics {
    let mut l = Loader::new();
    l.set_version(version);
    let a = element(&mut l, "a");
    let named = particle(&mut l, 1, MaxOccurs::Bounded(1), Term::Element(a));
    let wild = particle(
        &mut l,
        1,
        MaxOccurs::Bounded(1),
        Term::Wildcard(xsdkit::model::Wildcard {
            namespace: xsdkit::model::NamespaceConstraint::Any,
            process_contents: xsdkit::model::ProcessContents::Lax,
            not_qname: Vec::new(),
            not_defined: false,
            not_defined_sibling: false,
        }),
    );
    let choice = particle(
        &mut l,
        1,
        MaxOccurs::Bounded(1),
        Term::Group(ModelGroup { compositor: Compositor::Choice, particles: vec![named, wild] }),
    );
    let any = l.builtin(Builtin::AnyType);
    l.add_type(complex(any, DerivationMethod::Restriction, ContentType::ElementOnly(choice)));
    compile(l, Conformance::Strict).1
}

#[test]
fn an_element_against_a_wildcard_is_ambiguous_only_in_xsd_1_0() {
    let old = element_or_anything(xsdkit::load::Version::Xsd10);
    let found: Vec<_> =
        old.iter().iter().filter(|d| d.code == xsdkit::diagnostics::DiagCode::AmbiguousContentModel).collect();
    assert_eq!(found.len(), 1);
    assert_eq!(
        found[0].message,
        "the content model of an anonymous type is ambiguous: `{urn:x}a` could match either the element particle or the wildcard"
    );
    let new = element_or_anything(xsdkit::load::Version::Xsd11);
    assert!(new.iter().iter().all(|d| d.code != xsdkit::diagnostics::DiagCode::AmbiguousContentModel));
}

fn name_of(s: &Schemas, e: ElementId) -> xsdkit::names::QName {
    s.get_element(e).unwrap().name
}

#[test]
fn a_matcher_walks_a_sequence_and_fails_for_good() {
    let (s, t, _, a, b, _) = sequence_schema();
    let (na, nb) = (name_of(&s, a), name_of(&s, b));
    let mut m = s.match_content(t).unwrap();
    assert!(!m.accepts_end());
    assert!(m.step(na));
    assert_eq!(m.matched(), Some(a));
    assert!(m.accepts_end());
    assert!(m.step(nb));
    assert!(m.step(nb));
    assert_eq!(m.matched(), Some(b));
    assert!(m.accepts_end());
    assert!(!m.step(na));
    assert!(!m.accepts_end());
    assert!(!m.step(nb));
    let mut out_of_order = s.match_content(t).unwrap();
    assert!(!out_of_order.step(nb));
    assert!(!out_of_order.step(na));
    assert!(s.match_content(s.builtin(Builtin::String)).is_none());
}

#[test]
fn a_matcher_counts_the_members_of_an_all() {
    let mut l = Loader::new();
    let a = element(&mut l, "a");
    let b = element(&mut l, "b");
    let pa = particle(&mut l, 0, MaxOccurs::Bounded(1), Term::Element(a));
    let pb = particle(&mut l, 1, MaxOccurs::Bounded(1), Term::Element(b));
    let all = particle(
        &mut l,
        1,
        MaxOccurs::Bounded(1),
        Term::Group(ModelGroup { compositor: Compositor::All, particles: vec![pa, pb] }),
    );
    let any = l.builtin(Builtin::AnyType);
    let t = l.add_type(complex(any, DerivationMethod::Restriction, ContentType::ElementOnly(all)));
    let (s, _) = compile(l, Conformance::Strict);
    let (na, nb) = (name_of(&s, a), name_of(&s, b));
    let mut m = s.match_content(t).unwrap();
    assert!(!m.accepts_end());
    assert!(m.step(nb));
    assert!(m.accepts_end());
    assert!(m.step(na));
    assert!(m.accepts_end());
    assert!(!m.step(nb));
    assert!(!m.accepts_end());
}

#[test]
fn a_wildcard_admits_a_name_without_a_declaration() {
    let mut l = Loader::new();
    l.set_version(xsdkit::load::Version::Xsd11);
    let a = element(&mut l, "a");
    let other = l.qname(Some("urn:other"), "x");
    let named = particle(&mut l, 1, MaxOccurs::Bounded(1), Term::Element(a));
    let wild = particle(
        &mut l,
        1,
        MaxOccurs::Bounded(1),
        Term::Wildcard(xsdkit::model::Wildcard {
            namespace: xsdkit::model::NamespaceConstraint::Any,
            process_contents: xsdkit::model::ProcessContents::Lax,
            not_qname: Vec::new(),
            not_defined: false,
            not_defined_sibling: false,
        }),
    );
    let choice = particle(
        &mut l,
        1,
        MaxOccurs::Bounded(1),
        Term::Group(ModelGroup { compositor: Compositor::Choice, particles: vec![named, wild] }),
    );
    let any = l.builtin(Builtin::AnyType);
    let t = l.add_type(complex(any, DerivationMethod::Restriction, ContentType::ElementOnly(choice)));
    let (s, _) = compile(l, Conformance::Strict);
    let mut m = s.match_content(t).unwrap();
    assert!(m.step(other));
    assert_eq!(m.matched(), None);
    assert_eq!(m.matched_wildcard(), Some(xsdkit::model::ProcessContents::Lax));
    assert!(m.accepts_end());
    let mut n = s.match_content(t).unwrap();
    assert!(n.step(name_of(&s, a)));
    assert_eq!(n.matched(), Some(a));
    assert_eq!(n.matched_wildcard(), None);
    assert_eq!(n.sibling_declaration(name_of(&s, a)), Some(a));
    assert_eq!(n.sibling_declaration(other), None);
}

#[test]
fn a_widened_range_starting_at_zero_still_accepts_empty_content() {
    let mut l = Loader::new();
    let a = element(&mut l, "a");
    let wide = particle(&mut l, 0, MaxOccurs::Bounded(100), Term::Element(a));
    let any = l.builtin(Builtin::AnyType);
    let t = l.add_type(complex(any, DerivationMethod::Restriction, ContentType::ElementOnly(wide)));
    let (s, _) = compile(l, Conformance::Strict);
    let auto = automaton_of(&s, t);
    assert!(auto.approximated());
    assert!(auto.is_nullable());
    let na = s.get_element(a).unwrap().name;
    let mut m = s.match_content(t).unwrap();
    assert!(m.accepts_end());
    for _ in 0..150 {
        assert!(m.step(na));
    }
    assert!(m.accepts_end());
}

#[test]
fn an_undeclared_child_is_admitted_only_by_a_wildcard() {
    let mut l = Loader::new();
    l.set_version(xsdkit::load::Version::Xsd11);
    let a = element(&mut l, "a");
    let excluded = l.qname(Some("urn:other"), "no");
    let _ = l.intern("urn:other");
    let named = particle(&mut l, 1, MaxOccurs::Bounded(1), Term::Element(a));
    let wild = particle(
        &mut l,
        0,
        MaxOccurs::Unbounded,
        Term::Wildcard(xsdkit::model::Wildcard {
            namespace: xsdkit::model::NamespaceConstraint::Any,
            process_contents: xsdkit::model::ProcessContents::Skip,
            not_qname: vec![excluded],
            not_defined: false,
            not_defined_sibling: false,
        }),
    );
    let seq = particle(
        &mut l,
        1,
        MaxOccurs::Bounded(1),
        Term::Group(ModelGroup { compositor: Compositor::Sequence, particles: vec![named, wild] }),
    );
    let any = l.builtin(Builtin::AnyType);
    let t = l.add_type(complex(any, DerivationMethod::Restriction, ContentType::ElementOnly(seq)));
    let (s, _) = compile(l, Conformance::Strict);
    let mut m = s.match_content(t).unwrap();
    assert!(!m.step_foreign(Some("urn:never"), "x"));
    let mut n = s.match_content(t).unwrap();
    assert!(n.step(s.get_element(a).unwrap().name));
    assert!(n.step_foreign(Some("urn:never"), "x"));
    assert_eq!(n.matched(), None);
    assert_eq!(n.matched_wildcard(), Some(xsdkit::model::ProcessContents::Skip));
    assert!(n.step_foreign(None, "y"));
    assert!(!n.step_foreign(Some("urn:other"), "no"));
    assert!(!n.accepts_end());
}

fn repeated(min: u32, max: MaxOccurs) -> (Schemas, TypeId, xsdkit::names::QName) {
    let mut l = Loader::new();
    let a = element(&mut l, "a");
    let p = particle(&mut l, min, max, Term::Element(a));
    let any = l.builtin(Builtin::AnyType);
    let t = l.add_type(complex(any, DerivationMethod::Restriction, ContentType::ElementOnly(p)));
    let (s, _) = compile(l, Conformance::Strict);
    let name = s.get_element(a).unwrap().name;
    (s, t, name)
}

fn accepts(s: &Schemas, t: TypeId, name: xsdkit::names::QName, count: usize) -> bool {
    let mut m = s.match_content(t).unwrap();
    for _ in 0..count {
        if !m.step(name) {
            return false;
        }
    }
    m.accepts_end()
}

#[test]
fn an_unbounded_range_accepts_every_count_from_its_lower_bound() {
    let (s, t, a) = repeated(2, MaxOccurs::Unbounded);
    assert!(!accepts(&s, t, a, 0));
    assert!(!accepts(&s, t, a, 1));
    for k in 2..12 {
        assert!(accepts(&s, t, a, k), "{k} children");
    }
}

#[test]
fn a_widened_range_accepts_everything_the_range_does() {
    let (s, t, a) = repeated(10, MaxOccurs::Bounded(100));
    assert!(!accepts(&s, t, a, 9));
    for k in 10..=100 {
        assert!(accepts(&s, t, a, k), "{k} children");
    }
    assert!(accepts(&s, t, a, 150));
    let (s, t, a) = repeated(3, MaxOccurs::Bounded(5));
    assert!(!accepts(&s, t, a, 2));
    assert!(accepts(&s, t, a, 3));
    assert!(accepts(&s, t, a, 5));
    assert!(!accepts(&s, t, a, 6));
}
