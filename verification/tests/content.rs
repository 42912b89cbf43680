use xsdkit::content::{
    forces, positions_on_a_cycle, reaches_end_avoiding, required_children, AllGroup, AllMember,
    ContentAutomaton, ContentModel, Label, Position,
};
use xsdkit::model::{ElementId, MaxOccurs, ParticleId};

fn pos(i: usize, admits: &[usize]) -> Position {
    Position {
        particle: ParticleId::from_index(i),
        label: Label::Element(ElementId::from_index(admits[0])),
        admits: admits.iter().map(|&e| ElementId::from_index(e)).collect(),
    }
}

/// `(a, b*, c?)`
fn sequence() -> ContentAutomaton {
    ContentAutomaton::from_parts(
        vec![pos(0, &[0]), pos(1, &[1]), pos(2, &[2])],
        vec![0],
        vec![vec![1, 2], vec![1, 2], vec![]],
        vec![0, 1, 2],
        false,
        false,
    )
    .expect("a well-formed automaton")
}

#[test]
fn a_starred_position_repeats_and_the_others_do_not() {
    let a = sequence();
    assert!(!a.repeats(0));
    assert!(a.repeats(1));
    assert!(!a.repeats(2));
    assert_eq!(positions_on_a_cycle(&a), vec![false, true, false]);
}

#[test]
fn only_what_every_path_passes_is_required() {
    let a = sequence();
    assert!(!reaches_end_avoiding(&a, &[0]));
    assert!(reaches_end_avoiding(&a, &[1]));
    assert!(reaches_end_avoiding(&a, &[2]));
    let forced = vec![1u64, 2, 4];
    let required = required_children(&a, &forced, 1);
    assert_eq!(required, vec![1u64]);
}

#[test]
fn an_automaton_accepting_nothing_requires_everything_and_empty_content_nothing() {
    let none = ContentAutomaton::from_parts(vec![pos(0, &[0])], vec![0], vec![vec![]], vec![], false, false)
        .unwrap();
    assert_eq!(required_children(&none, &[1], 1), vec![u64::MAX]);
    let empty_ok = ContentAutomaton::from_parts(vec![pos(0, &[0])], vec![0], vec![vec![]], vec![0], true, false)
        .unwrap();
    assert_eq!(required_children(&empty_ok, &[1], 1), vec![0]);
    assert!(empty_ok.is_nullable());
}

#[test]
fn ill_formed_parts_are_refused() {
    assert!(ContentAutomaton::from_parts(vec![pos(0, &[0])], vec![1], vec![vec![]], vec![], false, false).is_none());
    assert!(ContentAutomaton::from_parts(vec![pos(0, &[0])], vec![0], vec![], vec![], false, false).is_none());
    assert!(ContentAutomaton::from_parts(vec![pos(0, &[0])], vec![0], vec![vec![3]], vec![], false, false).is_none());
}

#[test]
fn a_substitution_group_position_forces_none_of_its_members() {
    let p = pos(0, &[4, 5]);
    assert!(!forces(&p, ElementId::from_index(4)));
    assert!(forces(&pos(1, &[4]), ElementId::from_index(4)));
}

#[test]
fn admitted_elements_keep_first_appearance_order_without_repeats() {
    let a = ContentAutomaton::from_parts(
        vec![pos(0, &[3, 1]), pos(1, &[1, 2]), pos(2, &[3])],
        vec![0],
        vec![vec![1], vec![2], vec![]],
        vec![2],
        false,
        false,
    )
    .unwrap();
    assert_eq!(a.first(), &[0]);
    assert_eq!(a.follow(1), &[2]);
    assert_eq!(a.last(), &[2]);
    assert_eq!(a.positions().len(), 3);
    assert_eq!(a.position(1).admits.len(), 2);
    assert!(!a.approximated());
    let m = ContentModel::Automaton(a);
    let ids: Vec<usize> = m.admitted_elements().iter().map(|e| e.index()).collect();
    assert_eq!(ids, vec![3, 1, 2]);
    assert!(!m.is_nullable());
    assert!(ContentModel::Empty.is_nullable());
    assert!(ContentModel::Empty.admitted_elements().is_empty());
}

#[test]
fn an_all_group_is_nullable_when_every_member_is_optional() {
    let member = |min: u32| AllMember {
        particle: ParticleId::from_index(0),
        label: Label::Wildcard,
        admits: vec![ElementId::from_index(min as usize)],
        min_occurs: min,
        max_occurs: MaxOccurs::Bounded(1),
    };
    let g = AllGroup { members: vec![member(0), member(0)] };
    assert!(g.is_nullable());
    let h = AllGroup { members: vec![member(0), member(1)] };
    assert!(!h.is_nullable());
    let m = ContentModel::All(h);
    assert!(!m.is_nullable());
    let ids: Vec<usize> = m.admitted_elements().iter().map(|e| e.index()).collect();
    assert_eq!(ids, vec![0, 1]);
}
