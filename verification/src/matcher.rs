//! Walking a compiled content model over a sequence of child element names.
//!
//! The automaton is simulated as a nondeterministic one rather than
//! determinised, so a model that breaches Unique Particle Attribution still
//! matches, as lax conformance needs. An `xs:all` model counts its members.
//! XSD 1.1 open content may admit a child the declared model rejects,
//! without advancing the model.

use vstd::prelude::*;
use crate::content::{AllGroup, AllMember, AutomatonView, Content, ContentAutomaton, ContentModel, Label, Position};
use crate::model::{ElementId, MaxOccurs, OpenContentMode, ParticleId, ProcessContents, Term};
use crate::names::QName;
use crate::schemas::Schemas;
use crate::upa::{admits_name, element_name, wildcard_admits};

verus! {

/// Where a walk stands: whether a child has been matched yet, the active
/// positions of an automaton, the count of each member of an `xs:all`,
/// whether the walk has failed, the declaration the last child matched, and
/// how the wildcard that admitted it says it must be processed.
pub type MatchView = (bool, Seq<u32>, Seq<u32>, bool, Option<ElementId>, Option<ProcessContents>);

/// The first declaration of `es` from the `k`-th on that is held and named
/// `name`.
pub open spec fn first_named(s: Schemas, es: Seq<ElementId>, name: QName, k: nat) -> Option<ElementId>
    decreases es.len() - k,
{
    if k >= es.len() {
        None
    } else if es[k as int]@ < s.element_decls().len() && element_name(s, es[k as int]) == name {
        Some(es[k as int])
    } else {
        first_named(s, es, name, k + 1)
    }
}

/// The wildcard of particle `pid`, when it is held and is one.
pub open spec fn wildcard_of_particle(s: Schemas, pid: ParticleId) -> Option<crate::model::Wildcard> {
    if pid@ < s.particle_defs().len() {
        match s.particle_defs()[pid@ as int].term {
            Term::Wildcard(w) => Some(w),
            _ => None,
        }
    } else {
        None
    }
}

/// What a position or member labelled `label` admits a child named `name`
/// as: a declaration it admits by that name, or, for a wildcard that admits
/// the name, no declaration; nothing when it does not admit it.
pub open spec fn admitted_as(
    s: Schemas,
    label: Label,
    admits: Seq<ElementId>,
    pid: ParticleId,
    name: QName,
    siblings: Seq<QName>,
) -> Option<Option<ElementId>> {
    match label {
        Label::Element(_) => match first_named(s, admits, name, 0) {
            Some(e) => Some(Some(e)),
            None => None,
        },
        Label::Wildcard => match wildcard_of_particle(s, pid) {
            Some(w) => if wildcard_admits(s, w, name, siblings) {
                Some(None)
            } else {
                None
            },
            None => None,
        },
    }
}

/// How particle `pid`'s wildcard says what it admits must be processed.
pub open spec fn process_of(s: Schemas, pid: ParticleId) -> Option<ProcessContents> {
    match wildcard_of_particle(s, pid) {
        Some(w) => Some(w.process_contents),
        None => None,
    }
}

/// The successors of the positions `active`, in order, repeats kept.
pub open spec fn successors(a: AutomatonView, active: Seq<u32>) -> Seq<u32>
    decreases active.len(),
{
    if active.len() == 0 {
        Seq::empty()
    } else {
        successors(a, active.drop_last()) + a.follow[active.last() as int]@
    }
}

/// The positions the next child may take: the start positions before any
/// child, the successors of the active ones after.
pub open spec fn candidates(a: AutomatonView, st: MatchView) -> Seq<u32> {
    if st.0 {
        successors(a, st.1)
    } else {
        a.first
    }
}

/// Scanning candidates `cs` from the `k`-th on for a child named `name`:
/// the positions admitting it, each once, in order; the first declaration
/// one of them names; the processing the first admitting wildcard asks.
pub open spec fn scan(
    s: Schemas,
    a: AutomatonView,
    cs: Seq<u32>,
    name: QName,
    siblings: Seq<QName>,
    k: nat,
    next: Seq<u32>,
    matched: Option<ElementId>,
    wildcard: Option<ProcessContents>,
) -> (Seq<u32>, Option<ElementId>, Option<ProcessContents>)
    decreases cs.len() - k,
{
    if k >= cs.len() {
        (next, matched, wildcard)
    } else {
        let p = a.positions[cs[k as int] as int];
        match admitted_as(s, p.label, p.admits@, p.particle, name, siblings) {
            Some(d) => scan(
                s,
                a,
                cs,
                name,
                siblings,
                k + 1,
                if next.contains(cs[k as int]) {
                    next
                } else {
                    next.push(cs[k as int])
                },
                if matched is None {
                    d
                } else {
                    matched
                },
                if wildcard is None && d is None {
                    process_of(s, p.particle)
                } else {
                    wildcard
                },
            ),
            None => scan(s, a, cs, name, siblings, k + 1, next, matched, wildcard),
        }
    }
}

/// One child named `name` through automaton `a`: refused, and nothing
/// changed, when no candidate admits it; else the admitting candidates
/// become the active positions, and the declaration matched, or failing
/// one the first wildcard's processing, is recorded.
pub open spec fn automaton_step(s: Schemas, a: AutomatonView, st: MatchView, name: QName, siblings: Seq<QName>) -> (MatchView, bool) {
    let (next, matched, wildcard) = scan(s, a, candidates(a, st), name, siblings, 0, Seq::empty(), None, None);
    if next.len() == 0 {
        (st, false)
    } else {
        (
            (
                true,
                next,
                st.2,
                st.3,
                matched,
                if matched is None {
                    wildcard
                } else {
                    None
                },
            ),
            true,
        )
    }
}

/// Whether member `m` has room for one more occurrence at count `n`.
pub open spec fn has_room(m: AllMember, n: u32) -> bool {
    match m.max_occurs {
        MaxOccurs::Unbounded => true,
        MaxOccurs::Bounded(b) => n < b,
    }
}

/// The first member of `ms` from the `i`-th on admitting `name` with room
/// for it, and what it admits it as.
pub open spec fn member_for(
    s: Schemas,
    ms: Seq<AllMember>,
    counts: Seq<u32>,
    name: QName,
    siblings: Seq<QName>,
    i: nat,
) -> Option<(nat, Option<ElementId>)>
    decreases ms.len() - i,
{
    if i >= ms.len() {
        None
    } else {
        match admitted_as(s, ms[i as int].label, ms[i as int].admits@, ms[i as int].particle, name, siblings) {
            Some(d) => if has_room(ms[i as int], counts[i as int]) {
                Some((i, d))
            } else {
                member_for(s, ms, counts, name, siblings, i + 1)
            },
            None => member_for(s, ms, counts, name, siblings, i + 1),
        }
    }
}

/// One child named `name` through an `xs:all`: the first member admitting
/// it with room counts it, and records the declaration, or the wildcard's
/// processing; refused, with nothing changed, when none does.
pub open spec fn all_step(s: Schemas, g: AllGroup, st: MatchView, name: QName, siblings: Seq<QName>) -> (MatchView, bool) {
    match member_for(s, g.members@, st.2, name, siblings, 0) {
        Some((i, d)) => (
            (
                st.0,
                st.1,
                st.2.update(i as int, if st.2[i as int] < u32::MAX { (st.2[i as int] + 1) as u32 } else { st.2[i as int] }),
                st.3,
                d,
                if d is None {
                    match process_of(s, g.members@[i as int].particle) {
                        Some(pc) => Some(pc),
                        None => st.5,
                    }
                } else {
                    st.5
                },
            ),
            true,
        ),
        None => (st, false),
    }
}

/// Whether the model accepts the content seen so far as complete.
pub open spec fn model_accepts_end(m: ContentModel, st: MatchView) -> bool {
    match m {
        ContentModel::Empty => !st.0,
        ContentModel::Automaton(a) => if !st.0 {
            a@.nullable
        } else {
            exists|k: int| 0 <= k < st.1.len() && a@.last.contains(#[trigger] st.1[k])
        },
        ContentModel::All(g) => forall|i: int|
            0 <= i < g.members@.len() ==> st.2[i] >= (#[trigger] g.members@[i]).min_occurs,
    }
}

/// Whether open content admits a child named `name` here: its wildcard
/// admits the name, anywhere when it interleaves, and only once the model
/// is complete when it is a suffix.
pub open spec fn open_admits(s: Schemas, c: Content, st: MatchView, name: QName) -> bool {
    match c.open {
        Some(o) => wildcard_admits(s, o.wildcard, name, c.siblings@) && match o.mode {
            OpenContentMode::Interleave => true,
            OpenContentMode::Suffix => model_accepts_end(c.model, st),
        },
        None => false,
    }
}

/// One child named `name`: refused once the walk has failed; otherwise the
/// model takes it, or else open content does, without advancing the model;
/// or the walk fails.
pub open spec fn step_spec(s: Schemas, c: Content, st: MatchView, name: QName) -> (MatchView, bool) {
    if st.3 {
        (st, false)
    } else {
        let st0 = (st.0, st.1, st.2, st.3, st.4, None);
        let (st1, ok) = match c.model {
            ContentModel::Empty => (st0, false),
            ContentModel::Automaton(a) => automaton_step(s, a@, st0, name, c.siblings@),
            ContentModel::All(g) => all_step(s, g, st0, name, c.siblings@),
        };
        if ok {
            (st1, true)
        } else if open_admits(s, c, st1, name) {
            (
                (
                    st1.0,
                    st1.1,
                    st1.2,
                    st1.3,
                    None,
                    match c.open {
                        Some(o) => Some(o.wildcard.process_contents),
                        None => None,
                    },
                ),
                true,
            )
        } else {
            ((st1.0, st1.1, st1.2, true, st1.4, st1.5), false)
        }
    }
}

/// Whether name `q`, with its parts interned in `st`, is written `local`
/// in the namespace written `uri`: no namespace matches no URI or an empty
/// one.
pub open spec fn spelled(st: Seq<Seq<char>>, q: QName, uri: Option<Seq<char>>, local: Seq<char>) -> bool {
    &&& match (q.ns, uri) {
        (None, None) => true,
        (None, Some(u)) => u.len() == 0,
        (Some(n), Some(u)) => n@ < st.len() && st[n@ as int] == u,
        (Some(_), None) => false,
    }
    &&& q.local@ < st.len()
    &&& st[q.local@ as int] == local
}

/// Whether wildcard `w`'s name exclusions exclude the name written `local`
/// in the namespace written `uri`.
pub open spec fn excluded(st: Seq<Seq<char>>, w: crate::model::Wildcard, uri: Option<Seq<char>>, local: Seq<char>) -> bool {
    exists|k: int| 0 <= k < w.not_qname@.len() && spelled(st, #[trigger] w.not_qname@[k], uri, local)
}

/// Whether wildcard `w` admits a name the schema never declared, written
/// `local` in the namespace written `uri`.
pub open spec fn admits_foreign(s: Schemas, w: crate::model::Wildcard, uri: Option<Seq<char>>, local: Seq<char>) -> bool {
    crate::model::uri_admitted(w.namespace@, s.interned(), uri) && !excluded(s.interned(), w, uri, local)
}

/// Scanning candidates `cs` from the `k`-th on for an undeclared child: the
/// wildcard positions admitting it, each once, and the processing the
/// first of them asks.
pub open spec fn foreign_scan(
    s: Schemas,
    a: AutomatonView,
    cs: Seq<u32>,
    uri: Option<Seq<char>>,
    local: Seq<char>,
    k: nat,
    next: Seq<u32>,
    wildcard: Option<ProcessContents>,
) -> (Seq<u32>, Option<ProcessContents>)
    decreases cs.len() - k,
{
    if k >= cs.len() {
        (next, wildcard)
    } else {
        let p = a.positions[cs[k as int] as int];
        match (p.label, wildcard_of_particle(s, p.particle)) {
            (Label::Wildcard, Some(w)) => if admits_foreign(s, w, uri, local) && !next.contains(cs[k as int]) {
                foreign_scan(
                    s,
                    a,
                    cs,
                    uri,
                    local,
                    k + 1,
                    next.push(cs[k as int]),
                    if next.len() == 0 {
                        Some(w.process_contents)
                    } else {
                        wildcard
                    },
                )
            } else {
                foreign_scan(s, a, cs, uri, local, k + 1, next, wildcard)
            },
            _ => foreign_scan(s, a, cs, uri, local, k + 1, next, wildcard),
        }
    }
}

/// One undeclared child through automaton `a`: only wildcards may admit
/// it; refused, with nothing changed, when none does.
pub open spec fn automaton_foreign_step(s: Schemas, a: AutomatonView, st: MatchView, uri: Option<Seq<char>>, local: Seq<char>) -> (MatchView, bool) {
    let (next, wildcard) = foreign_scan(s, a, candidates(a, st), uri, local, 0, Seq::empty(), st.5);
    if next.len() == 0 {
        (st, false)
    } else {
        ((true, next, st.2, st.3, st.4, wildcard), true)
    }
}

/// The first wildcard member of `ms` from the `i`-th on admitting an
/// undeclared child with room for it.
pub open spec fn foreign_member(s: Schemas, ms: Seq<AllMember>, counts: Seq<u32>, uri: Option<Seq<char>>, local: Seq<char>, i: nat) -> Option<nat>
    decreases ms.len() - i,
{
    if i >= ms.len() {
        None
    } else {
        match (ms[i as int].label, wildcard_of_particle(s, ms[i as int].particle)) {
            (Label::Wildcard, Some(w)) => if admits_foreign(s, w, uri, local) && has_room(ms[i as int], counts[i as int]) {
                Some(i)
            } else {
                foreign_member(s, ms, counts, uri, local, i + 1)
            },
            _ => foreign_member(s, ms, counts, uri, local, i + 1),
        }
    }
}

/// One undeclared child through an `xs:all`.
pub open spec fn all_foreign_step(s: Schemas, g: AllGroup, st: MatchView, uri: Option<Seq<char>>, local: Seq<char>) -> (MatchView, bool) {
    match foreign_member(s, g.members@, st.2, uri, local, 0) {
        Some(i) => (
            (
                st.0,
                st.1,
                st.2.update(i as int, if st.2[i as int] < u32::MAX { (st.2[i as int] + 1) as u32 } else { st.2[i as int] }),
                st.3,
                st.4,
                process_of(s, g.members@[i as int].particle),
            ),
            true,
        ),
        None => (st, false),
    }
}

/// One undeclared child: only a wildcard, of the model or of open content,
/// may admit it, and then no declaration is matched.
pub open spec fn foreign_step_spec(s: Schemas, c: Content, st: MatchView, uri: Option<Seq<char>>, local: Seq<char>) -> (MatchView, bool) {
    if st.3 {
        (st, false)
    } else {
        let st0 = (st.0, st.1, st.2, st.3, st.4, None);
        let (st1, ok) = match c.model {
            ContentModel::Empty => (st0, false),
            ContentModel::Automaton(a) => automaton_foreign_step(s, a@, st0, uri, local),
            ContentModel::All(g) => all_foreign_step(s, g, st0, uri, local),
        };
        if ok {
            ((st1.0, st1.1, st1.2, st1.3, None, st1.5), true)
        } else if match c.open {
            Some(o) => admits_foreign(s, o.wildcard, uri, local) && match o.mode {
                OpenContentMode::Interleave => true,
                OpenContentMode::Suffix => model_accepts_end(c.model, st1),
            },
            None => false,
        } {
            (
                (
                    st1.0,
                    st1.1,
                    st1.2,
                    st1.3,
                    None,
                    match c.open {
                        Some(o) => Some(o.wildcard.process_contents),
                        None => None,
                    },
                ),
                true,
            )
        } else {
            ((st1.0, st1.1, st1.2, true, st1.4, st1.5), false)
        }
    }
}

/// Whether position `x` of `a` admits a child named `n`.
pub open spec fn admits_at(s: Schemas, a: AutomatonView, siblings: Seq<QName>, x: u32, n: QName) -> bool {
    x < a.positions.len() && admitted_as(
        s,
        a.positions[x as int].label,
        a.positions[x as int].admits@,
        a.positions[x as int].particle,
        n,
        siblings,
    ) is Some
}

/// The positions reading the children `names` can end at: walks from a
/// start position through successors, each position admitting the child
/// read there.
pub open spec fn ends(s: Schemas, a: AutomatonView, siblings: Seq<QName>, names: Seq<QName>) -> Set<u32>
    decreases names.len(),
{
    if names.len() == 0 {
        Set::empty()
    } else if names.len() == 1 {
        Set::new(|x: u32| a.first.contains(x) && admits_at(s, a, siblings, x, names[0]))
    } else {
        let prev = ends(s, a, siblings, names.drop_last());
        Set::new(
            |x: u32|
                admits_at(s, a, siblings, x, names.last()) && exists|p: u32|
                    #[trigger] prev.contains(p) && a.follow[p as int]@.contains(x),
        )
    }
}

/// Whether reading the children `names` can end at position `x`.
pub open spec fn reach(s: Schemas, a: AutomatonView, siblings: Seq<QName>, names: Seq<QName>, x: u32) -> bool {
    ends(s, a, siblings, names).contains(x)
}

/// Whether automaton `a` accepts the children `names`: none when it
/// accepts empty content, else a walk reading them ending at an end
/// position.
pub open spec fn accepts_children(s: Schemas, a: AutomatonView, siblings: Seq<QName>, names: Seq<QName>) -> bool {
    if names.len() == 0 {
        a.nullable
    } else {
        exists|x: u32| #[trigger] reach(s, a, siblings, names, x) && a.last.contains(x)
    }
}

/// A walk over `c` from the start, one child named at a time.
pub open spec fn walk(s: Schemas, c: Content, names: Seq<QName>) -> MatchView
    decreases names.len(),
{
    if names.len() == 0 {
        (
            false,
            Seq::empty(),
            match c.model {
                ContentModel::All(g) => Seq::new(g.members@.len(), |i: int| 0u32),
                _ => Seq::empty(),
            },
            false,
            None,
            None,
        )
    } else {
        step_spec(s, c, walk(s, c, names.drop_last()), names.last()).0
    }
}

/// The successors of `active` are exactly the positions some active one
/// leads to.
proof fn lemma_successors(a: AutomatonView, active: Seq<u32>, x: u32)
    ensures
        successors(a, active).contains(x) <==> exists|k: int|
            0 <= k < active.len() && (#[trigger] a.follow[active[k] as int])@.contains(x),
    decreases active.len(),
{
    if active.len() > 0 {
        lemma_successors(a, active.drop_last(), x);
        let pre = successors(a, active.drop_last());
        let f = a.follow[active.last() as int]@;
        if (pre + f).contains(x) {
            let i = choose|i: int| 0 <= i < (pre + f).len() && (pre + f)[i] == x;
            if i < pre.len() {
                assert(pre[i] == x);
                let k = choose|k: int| 0 <= k < active.drop_last().len() && (#[trigger] a.follow[active.drop_last()[k] as int])@.contains(x);
                assert(active[k] == active.drop_last()[k]);
            } else {
                assert(f[i - pre.len()] == x);
                assert(a.follow[active[active.len() - 1] as int]@.contains(x));
            }
        }
        if exists|k: int| 0 <= k < active.len() && (#[trigger] a.follow[active[k] as int])@.contains(x) {
            let k = choose|k: int| 0 <= k < active.len() && (#[trigger] a.follow[active[k] as int])@.contains(x);
            if k < active.len() - 1 {
                assert(active.drop_last()[k] == active[k]);
                assert(pre.contains(x));
                let i = choose|i: int| 0 <= i < pre.len() && pre[i] == x;
                assert((pre + f)[i] == x);
            } else {
                let i = choose|i: int| 0 <= i < f.len() && f[i] == x;
                assert((pre + f)[pre.len() + i] == x);
            }
        }
    }
}

/// A scan keeps what it had and adds exactly the candidates from the
/// `k`-th on that admit the child.
proof fn lemma_scan(
    s: Schemas,
    a: AutomatonView,
    cs: Seq<u32>,
    name: QName,
    siblings: Seq<QName>,
    k: nat,
    next: Seq<u32>,
    matched: Option<ElementId>,
    wildcard: Option<ProcessContents>,
    x: u32,
)
    requires
        forall|j: int| 0 <= j < cs.len() ==> (#[trigger] cs[j]) < a.positions.len(),
    ensures
        scan(s, a, cs, name, siblings, k, next, matched, wildcard).0.contains(x) <==> (next.contains(x) || exists|j: int|
            k <= j < cs.len() && #[trigger] cs[j] == x && admits_at(s, a, siblings, x, name)),
    decreases cs.len() - k,
{
    if k < cs.len() {
        let p = a.positions[cs[k as int] as int];
        match admitted_as(s, p.label, p.admits@, p.particle, name, siblings) {
            Some(d) => {
                let n2 = if next.contains(cs[k as int]) {
                    next
                } else {
                    next.push(cs[k as int])
                };
                let m2 = if matched is None {
                    d
                } else {
                    matched
                };
                let w2 = if wildcard is None && d is None {
                    process_of(s, p.particle)
                } else {
                    wildcard
                };
                lemma_scan(s, a, cs, name, siblings, k + 1, n2, m2, w2, x);
                if n2.contains(x) && !next.contains(x) {
                    let i = choose|i: int| 0 <= i < n2.len() && n2[i] == x;
                    assert(i == next.len());
                    assert(cs[k as int] == x);
                }
                if next.contains(x) {
                    let i = choose|i: int| 0 <= i < next.len() && next[i] == x;
                    assert(n2[i] == x);
                }
                if cs[k as int] == x {
                    if !next.contains(x) {
                        assert(n2[next.len() as int] == x);
                    }
                }
            },
            None => {
                lemma_scan(s, a, cs, name, siblings, k + 1, next, matched, wildcard, x);
            },
        }
    }
}

/// Reading one more child ends at `x` exactly when `x` admits it and some
/// position the children before can end at leads to it.
proof fn lemma_reach_push(s: Schemas, a: AutomatonView, siblings: Seq<QName>, names: Seq<QName>, n: QName, x: u32)
    ensures
        reach(s, a, siblings, names.push(n), x) == (admits_at(s, a, siblings, x, n) && if names.len() == 0 {
            a.first.contains(x)
        } else {
            exists|p: u32| #[trigger] reach(s, a, siblings, names, p) && a.follow[p as int]@.contains(x)
        }),
{
    let longer = names.push(n);
    assert(longer.len() == names.len() + 1);
    assert(longer.drop_last() =~= names);
    assert(longer.last() == n);
    if names.len() == 0 {
        assert(longer[0] == n);
    } else {
        assert(longer.len() >= 2);
        let prev = ends(s, a, siblings, longer.drop_last());
        assert(prev == ends(s, a, siblings, names));
        if exists|p: u32| #[trigger] reach(s, a, siblings, names, p) && a.follow[p as int]@.contains(x) {
            let p = choose|p: u32| #[trigger] reach(s, a, siblings, names, p) && a.follow[p as int]@.contains(x);
            assert(prev.contains(p));
        }
        if reach(s, a, siblings, longer, x) {
            let p = choose|p: u32| #[trigger] prev.contains(p) && a.follow[p as int]@.contains(x);
            assert(reach(s, a, siblings, names, p));
        }
    }
}

/// A walk over an automaton without open content tracks exactly the
/// positions reading the children can end at, and fails exactly when no
/// position can.
proof fn lemma_walk_tracks(s: Schemas, c: Content, a: ContentAutomaton, names: Seq<QName>)
    requires
        c.model == ContentModel::Automaton(a),
        c.open is None,
        crate::content::automaton_wf(a@),
    ensures
        names.len() == 0 ==> !walk(s, c, names).0 && !walk(s, c, names).3,
        names.len() > 0 && !walk(s, c, names).3 ==> walk(s, c, names).0,
        !walk(s, c, names).3 ==> forall|x: u32| #[trigger] walk(s, c, names).1.contains(x) == reach(s, a@, c.siblings@, names, x),
        walk(s, c, names).3 ==> forall|x: u32| !#[trigger] reach(s, a@, c.siblings@, names, x),
        forall|k: int| 0 <= k < walk(s, c, names).1.len() ==> (#[trigger] walk(s, c, names).1[k]) < a@.positions.len(),
    decreases names.len(),
{
    let sib = c.siblings@;
    if names.len() > 0 {
        let pre = names.drop_last();
        let n = names.last();
        assert(pre.push(n) =~= names);
        lemma_walk_tracks(s, c, a, pre);
        let st = walk(s, c, pre);
        if st.3 {
            assert forall|x: u32| !#[trigger] reach(s, a@, sib, names, x) by {
                lemma_reach_push(s, a@, sib, pre, n, x);
                if pre.len() == 0 {
                } else {
                    if exists|p: u32| #[trigger] reach(s, a@, sib, pre, p) && a@.follow[p as int]@.contains(x) {
                        let p = choose|p: u32| #[trigger] reach(s, a@, sib, pre, p) && a@.follow[p as int]@.contains(x);
                    }
                }
            }
        } else {
            let st0 = (st.0, st.1, st.2, st.3, st.4, None::<ProcessContents>);
            let cs = candidates(a@, st0);
            assert forall|j: int| 0 <= j < cs.len() implies (#[trigger] cs[j]) < a@.positions.len() by {
                if st.0 {
                    lemma_successors(a@, st.1, cs[j]);
                    assert(successors(a@, st.1)[j] == cs[j]);
                    assert(successors(a@, st.1).contains(cs[j]));
                    let k = choose|k: int| 0 <= k < st.1.len() && (#[trigger] a@.follow[st.1[k] as int])@.contains(cs[j]);
                    let i = choose|i: int| 0 <= i < a@.follow[st.1[k] as int]@.len() && a@.follow[st.1[k] as int]@[i] == cs[j];
                    assert(st.1[k] < a@.positions.len());
                } else {
                    assert(a@.first[j] == cs[j]);
                }
            }
            let sc = scan(s, a@, cs, n, sib, 0, Seq::empty(), None, None);
            assert forall|x: u32| #[trigger] sc.0.contains(x) == reach(s, a@, sib, names, x) by {
                lemma_scan(s, a@, cs, n, sib, 0, Seq::empty(), None, None, x);
                lemma_reach_push(s, a@, sib, pre, n, x);
                if pre.len() == 0 {
                    assert(!st.0);
                    if a@.first.contains(x) {
                        let j = choose|j: int| 0 <= j < a@.first.len() && a@.first[j] == x;
                        assert(cs[j] == x);
                    }
                    if exists|j: int| 0 <= j < cs.len() && #[trigger] cs[j] == x && admits_at(s, a@, sib, x, n) {
                        let j = choose|j: int| 0 <= j < cs.len() && #[trigger] cs[j] == x && admits_at(s, a@, sib, x, n);
                        assert(a@.first[j] == x);
                    }
                } else {
                    assert(st.0);
                    lemma_successors(a@, st.1, x);
                    if exists|p: u32| #[trigger] reach(s, a@, sib, pre, p) && a@.follow[p as int]@.contains(x) {
                        let p = choose|p: u32| #[trigger] reach(s, a@, sib, pre, p) && a@.follow[p as int]@.contains(x);
                        assert(st.1.contains(p));
                        let k = choose|k: int| 0 <= k < st.1.len() && st.1[k] == p;
                        assert(a@.follow[st.1[k] as int]@.contains(x));
                        assert(successors(a@, st.1).contains(x));
                        let j = choose|j: int| 0 <= j < cs.len() && cs[j] == x;
                        assert(cs[j] == x);
                    }
                    if exists|j: int| 0 <= j < cs.len() && #[trigger] cs[j] == x && admits_at(s, a@, sib, x, n) {
                        let j = choose|j: int| 0 <= j < cs.len() && #[trigger] cs[j] == x && admits_at(s, a@, sib, x, n);
                        assert(successors(a@, st.1).contains(x));
                        let k = choose|k: int| 0 <= k < st.1.len() && (#[trigger] a@.follow[st.1[k] as int])@.contains(x);
                        assert(st.1.contains(st.1[k]));
                        assert(reach(s, a@, sib, pre, st.1[k]));
                    }
                }
            }
            if sc.0.len() == 0 {
                assert forall|x: u32| !#[trigger] reach(s, a@, sib, names, x) by {
                    assert(!sc.0.contains(x));
                }
            }
            assert forall|k: int| 0 <= k < sc.0.len() implies (#[trigger] sc.0[k]) < a@.positions.len() by {
                lemma_scan(s, a@, cs, n, sib, 0, Seq::empty(), None, None, sc.0[k]);
                assert(sc.0.contains(sc.0[k]));
            }
        }
    }
}

/// A walk over an automaton without open content ends in acceptance
/// exactly when the automaton accepts the children read: the matcher is
/// the automaton run on them.
pub proof fn law_matcher_runs_the_automaton(s: Schemas, c: Content, a: ContentAutomaton, names: Seq<QName>)
    requires
        c.model == ContentModel::Automaton(a),
        c.open is None,
        crate::content::automaton_wf(a@),
    ensures
        (!walk(s, c, names).3 && model_accepts_end(c.model, walk(s, c, names))) == accepts_children(
            s,
            a@,
            c.siblings@,
            names,
        ),
{
    lemma_walk_tracks(s, c, a, names);
    let st = walk(s, c, names);
    if names.len() > 0 && !st.3 {
        if exists|k: int| 0 <= k < st.1.len() && a@.last.contains(#[trigger] st.1[k]) {
            let k = choose|k: int| 0 <= k < st.1.len() && a@.last.contains(#[trigger] st.1[k]);
            assert(st.1.contains(st.1[k]));
            assert(reach(s, a@, c.siblings@, names, st.1[k]));
        }
        if exists|x: u32| #[trigger] reach(s, a@, c.siblings@, names, x) && a@.last.contains(x) {
            let x = choose|x: u32| #[trigger] reach(s, a@, c.siblings@, names, x) && a@.last.contains(x);
            assert(st.1.contains(x));
            let k = choose|k: int| 0 <= k < st.1.len() && st.1[k] == x;
            assert(a@.last.contains(st.1[k]));
        }
    }
    if names.len() > 0 && st.3 {
        if exists|x: u32| #[trigger] reach(s, a@, c.siblings@, names, x) && a@.last.contains(x) {
            let x = choose|x: u32| #[trigger] reach(s, a@, c.siblings@, names, x) && a@.last.contains(x);
        }
    }
}

/// Walks a content model over a sequence of child element names.
pub struct ContentMatcher<'a> {
    schemas: &'a Schemas,
    content: &'a Content,
    active: Vec<u32>,
    counts: Vec<u32>,
    started: bool,
    failed: bool,
    matched: Option<ElementId>,
    matched_wildcard: Option<ProcessContents>,
}

impl<'a> View for ContentMatcher<'a> {
    type V = MatchView;

    closed spec fn view(&self) -> MatchView {
        (self.started, self.active@, self.counts@, self.failed, self.matched, self.matched_wildcard)
    }
}

/// Whether `st` is a state of a walk over `m`: active positions naming
/// positions, one count per member.
pub open spec fn state_fits(m: ContentModel, st: MatchView) -> bool {
    match m {
        ContentModel::Empty => true,
        ContentModel::Automaton(a) => forall|k: int| 0 <= k < st.1.len() ==> (#[trigger] st.1[k]) < a@.positions.len(),
        ContentModel::All(g) => st.2.len() == g.members@.len(),
    }
}

impl<'a> ContentMatcher<'a> {
    /// Whether the walk's state fits its model.
    pub closed spec fn fits(self) -> bool {
        state_fits(self.content.model, self@)
    }

    /// The schema set the walk reads.
    pub closed spec fn schemas_read(self) -> Schemas {
        *self.schemas
    }

    /// The content walked.
    pub closed spec fn content_walked(self) -> Content {
        *self.content
    }

    /// Starts a walk: nothing matched, no member counted.
    pub fn new(schemas: &'a Schemas, content: &'a Content) -> (r: ContentMatcher<'a>)
        ensures
            r.schemas_read() == *schemas,
            r.content_walked() == *content,
            r@.0 == false,
            r@.1.len() == 0,
            r@.2 == (match content.model {
                ContentModel::All(g) => Seq::new(g.members@.len(), |i: int| 0u32),
                _ => Seq::empty(),
            }),
            r@.3 == false,
            r@.4 is None,
            r@.5 is None,
            r.fits(),
    {
        let counts = match &content.model {
            ContentModel::All(g) => zeros(g.members.len()),
            _ => Vec::new(),
        };
        ContentMatcher {
            schemas,
            content,
            active: Vec::new(),
            counts,
            started: false,
            failed: false,
            matched: None,
            matched_wildcard: None,
        }
    }

    /// The declaration the last accepted child matched; none when a
    /// wildcard admitted it.
    pub fn matched(&self) -> (r: Option<ElementId>)
        ensures
            r == self@.4,
    {
        self.matched
    }

    /// How the wildcard that admitted the last child says it must be
    /// processed, when a wildcard rather than a declaration admitted it.
    pub fn matched_wildcard(&self) -> (r: Option<ProcessContents>)
        ensures
            r == self@.5,
    {
        self.matched_wildcard
    }

    /// Whether the content seen so far is a complete, valid match.
    pub fn accepts_end(&self) -> (r: bool)
        requires
            self.fits(),
        ensures
            r == (!self@.3 && model_accepts_end(self.content_walked().model, self@)),
    {
        if self.failed {
            return false;
        }
        self.model_accepts_end()
    }

    fn model_accepts_end(&self) -> (r: bool)
        requires
            self.fits(),
        ensures
            r == model_accepts_end(self.content_walked().model, self@),
    {
        match &self.content.model {
            ContentModel::Empty => !self.started,
            ContentModel::Automaton(a) => if !self.started {
                a.is_nullable()
            } else {
                let last = a.last();
                let mut k: usize = 0;
                while k < self.active.len()
                    invariant
                        self.content.model == ContentModel::Automaton(*a),
                        self.started,
                        k <= self.active@.len(),
                        last@ == a@.last,
                        forall|j: int| 0 <= j < k ==> !a@.last.contains(#[trigger] self.active@[j]),
                    decreases self.active.len() - k,
                {
                    if holds_id(last, self.active[k]) {
                        assert(a@.last.contains(self@.1[k as int]));
                        return true;
                    }
                    k += 1;
                }
                false
            },
            ContentModel::All(g) => {
                let mut i: usize = 0;
                while i < g.members.len()
                    invariant
                        self.content.model == ContentModel::All(*g),
                        i <= g.members@.len(),
                        self.counts@.len() == g.members@.len(),
                        forall|j: int| 0 <= j < i ==> self.counts@[j] >= (#[trigger] g.members@[j]).min_occurs,
                    decreases g.members.len() - i,
                {
                    if self.counts[i] < g.members[i].min_occurs {
                        assert(!(self.counts@[i as int] >= g.members@[i as int].min_occurs));
                        return false;
                    }
                    i += 1;
                }
                true
            },
        }
    }
}


impl<'a> ContentMatcher<'a> {
    /// The declaration the walked model writes out for `name`, if any: the
    /// first the model carries by that name.
    pub fn sibling_declaration(&self, name: QName) -> (r: Option<ElementId>)
        ensures
            r == first_declared(self.content_walked().sibling_decls@, name, 0),
    {
        let decls = &self.content.sibling_decls;
        let mut k: usize = 0;
        while k < decls.len()
            invariant
                k <= decls@.len(),
                decls@ == self.content_walked().sibling_decls@,
                first_declared(decls@, name, k as nat) == first_declared(decls@, name, 0),
            decreases decls.len() - k,
        {
            if decls[k].0 == name {
                return Some(decls[k].1);
            }
            k += 1;
        }
        None
    }
}

/// The declaration of the first entry of `ds` from the `k`-th on named
/// `name`.
pub open spec fn first_declared(ds: Seq<(QName, ElementId)>, name: QName, k: nat) -> Option<ElementId>
    decreases ds.len() - k,
{
    if k >= ds.len() {
        None
    } else if ds[k as int].0 == name {
        Some(ds[k as int].1)
    } else {
        first_declared(ds, name, k + 1)
    }
}

impl Schemas {
    /// Starts walking the compiled content of type `id` over its children;
    /// `None` when the type has no compiled content.
    pub fn match_content(&self, id: crate::model::TypeId) -> (r: Option<ContentMatcher<'_>>)
        ensures
            match r {
                Some(m) => id@ < self.contents().len() && self.contents()[id@ as int] == Some(m.content_walked())
                    && m.schemas_read() == *self && m.fits() && !m@.0 && m@.1.len() == 0 && !m@.3 && m@.4 is None
                    && m@.5 is None && m@.2 == (match m.content_walked().model {
                    ContentModel::All(g) => Seq::new(g.members@.len(), |i: int| 0u32),
                    _ => Seq::empty(),
                }),
                None => !(id@ < self.contents().len() && self.contents()[id@ as int] is Some),
            },
    {
        match self.content(id) {
            Some(c) => Some(ContentMatcher::new(self, c)),
            None => None,
        }
    }
}

/// The first declaration of `es` held and named `name`.
fn find_named(s: &Schemas, es: &Vec<ElementId>, name: QName) -> (r: Option<ElementId>)
    ensures
        r == first_named(*s, es@, name, 0),
{
    let mut k: usize = 0;
    while k < es.len()
        invariant
            k <= es@.len(),
            first_named(*s, es@, name, k as nat) == first_named(*s, es@, name, 0),
        decreases es.len() - k,
    {
        match s.get_element(es[k]) {
            Some(d) => if d.name == name {
                return Some(es[k]);
            },
            None => {},
        }
        k += 1;
    }
    None
}

/// The wildcard of particle `pid`, when it is held and is one.
fn particle_wildcard<'b>(s: &'b Schemas, pid: ParticleId) -> (r: Option<&'b crate::model::Wildcard>)
    ensures
        r == (match wildcard_of_particle(*s, pid) {
            Some(w) => Some(&w),
            None => None,
        }),
{
    match s.get_particle(pid) {
        Some(p) => match &p.term {
            Term::Wildcard(w) => Some(w),
            _ => None,
        },
        None => None,
    }
}

/// What a position or member admits a child named `name` as.
fn admission(
    s: &Schemas,
    label: &Label,
    admits: &Vec<ElementId>,
    pid: ParticleId,
    name: QName,
    siblings: &Vec<QName>,
) -> (r: Option<Option<ElementId>>)
    ensures
        r == admitted_as(*s, *label, admits@, pid, name, siblings@),
{
    match label {
        Label::Element(_) => match find_named(s, admits, name) {
            Some(e) => Some(Some(e)),
            None => None,
        },
        Label::Wildcard => match particle_wildcard(s, pid) {
            Some(w) => if admits_name(s, w, name, siblings) {
                Some(None)
            } else {
                None
            },
            None => None,
        },
    }
}

/// How particle `pid`'s wildcard asks for what it admits to be processed.
fn processing(s: &Schemas, pid: ParticleId) -> (r: Option<ProcessContents>)
    ensures
        r == process_of(*s, pid),
{
    match particle_wildcard(s, pid) {
        Some(w) => Some(w.process_contents),
        None => None,
    }
}

impl<'a> ContentMatcher<'a> {
    /// Consumes one child element named `name`. Returns `false` once the
    /// sequence has become invalid; further calls keep returning `false`.
    pub fn step(&mut self, name: QName) -> (r: bool)
        requires
            old(self).fits(),
        ensures
            final(self).fits(),
            final(self).schemas_read() == old(self).schemas_read(),
            final(self).content_walked() == old(self).content_walked(),
            (final(self)@, r) == step_spec(old(self).schemas_read(), old(self).content_walked(), old(self)@, name),
    {
        if self.failed {
            return false;
        }
        self.matched_wildcard = None;
        assert(self@.1 == old(self)@.1 && self@.2 == old(self)@.2);
        assert(self.fits());
        let content = self.content;
        let ok = match &content.model {
            ContentModel::Empty => false,
            ContentModel::Automaton(a) => self.step_automaton(a, name),
            ContentModel::All(g) => self.step_all(g, name),
        };
        if ok {
            return true;
        }
        if self.open_admits(name) {
            self.matched = None;
            self.matched_wildcard = match &content.open {
                Some(o) => Some(o.wildcard.process_contents),
                None => None,
            };
            return true;
        }
        self.failed = true;
        false
    }

    fn open_admits(&self, name: QName) -> (r: bool)
        requires
            self.fits(),
        ensures
            r == open_admits(self.schemas_read(), self.content_walked(), self@, name),
    {
        match &self.content.open {
            Some(o) => admits_name(self.schemas, &o.wildcard, name, &self.content.siblings) && match o.mode {
                OpenContentMode::Interleave => true,
                OpenContentMode::Suffix => self.model_accepts_end(),
            },
            None => false,
        }
    }

    /// The positions the next child may take.
    fn candidate_list(&self, a: &ContentAutomaton) -> (r: Vec<u32>)
        requires
            self.content_walked().model == ContentModel::Automaton(*a),
            self.fits(),
        ensures
            r@ == candidates(a@, self@),
            forall|j: int| 0 <= j < r@.len() ==> (#[trigger] r@[j]) < a@.positions.len(),
    {
        proof {
            use_type_invariant(a);
            assert(self.content.model == ContentModel::Automaton(*a));
            assert(forall|j: int| 0 <= j < self@.1.len() ==> (#[trigger] self@.1[j]) < a@.positions.len());
            assert(self@.1 == self.active@);
        }
        let mut cs: Vec<u32> = Vec::new();
        if self.started {
            let mut k: usize = 0;
            while k < self.active.len()
                invariant
                    self.content.model == ContentModel::Automaton(*a),
                    crate::content::automaton_wf(a@),
                    forall|j: int| 0 <= j < self.active@.len() ==> (#[trigger] self.active@[j]) < a@.positions.len(),
                    k <= self.active@.len(),
                    cs@ == successors(a@, self.active@.take(k as int)),
                    forall|j: int| 0 <= j < cs@.len() ==> (#[trigger] cs@[j]) < a@.positions.len(),
                decreases self.active.len() - k,
            {
                let p = self.active[k];
                let f = a.follow(p);
                let mut j: usize = 0;
                let ghost base = cs@;
                while j < f.len()
                    invariant
                        j <= f@.len(),
                        cs@ == base + f@.take(j as int),
                        f@ == a@.follow[p as int]@,
                        crate::content::automaton_wf(a@),
                        p < a@.positions.len(),
                        forall|i: int| 0 <= i < cs@.len() ==> (#[trigger] cs@[i]) < a@.positions.len(),
                    decreases f.len() - j,
                {
                    cs.push(f[j]);
                    assert(f@.take(j + 1) =~= f@.take(j as int).push(f@[j as int]));
                    j += 1;
                }
                assert(f@.take(j as int) =~= f@);
                assert(self.active@.take(k + 1).drop_last() =~= self.active@.take(k as int));
                k += 1;
            }
            assert(self.active@.take(k as int) =~= self.active@);
        } else {
            let f = a.first();
            let mut j: usize = 0;
            while j < f.len()
                invariant
                    j <= f@.len(),
                    cs@ == f@.take(j as int),
                    f@ == a@.first,
                    crate::content::automaton_wf(a@),
                    forall|i: int| 0 <= i < cs@.len() ==> (#[trigger] cs@[i]) < a@.positions.len(),
                decreases f.len() - j,
            {
                cs.push(f[j]);
                assert(f@.take(j + 1) =~= f@.take(j as int).push(f@[j as int]));
                j += 1;
            }
            assert(f@.take(j as int) =~= f@);
        }
        cs
    }

    fn step_automaton(&mut self, a: &ContentAutomaton, name: QName) -> (r: bool)
        requires
            old(self).content_walked().model == ContentModel::Automaton(*a),
            old(self).fits(),
        ensures
            final(self).fits(),
            final(self).schemas_read() == old(self).schemas_read(),
            final(self).content_walked() == old(self).content_walked(),
            (final(self)@, r) == automaton_step(
                old(self).schemas_read(),
                a@,
                old(self)@,
                name,
                old(self).content_walked().siblings@,
            ),
    {
        proof {
            use_type_invariant(a);
        }
        let cs = self.candidate_list(a);
        assert(cs@ == candidates(a@, self@));
        let ghost target = scan(
            *self.schemas,
            a@,
            cs@,
            name,
            self.content.siblings@,
            0,
            Seq::empty(),
            None,
            None,
        );
        let mut next: Vec<u32> = Vec::new();
        let mut matched: Option<ElementId> = None;
        let mut wildcard: Option<ProcessContents> = None;
        let mut k: usize = 0;
        while k < cs.len()
            invariant
                crate::content::automaton_wf(a@),
                forall|j: int| 0 <= j < cs@.len() ==> (#[trigger] cs@[j]) < a@.positions.len(),
                k <= cs@.len(),
                scan(*self.schemas, a@, cs@, name, self.content.siblings@, k as nat, next@, matched, wildcard) == target,
                forall|j: int| 0 <= j < next@.len() ==> (#[trigger] next@[j]) < a@.positions.len(),
            decreases cs.len() - k,
        {
            let c = cs[k];
            let p = a.position(c);
            match admission(self.schemas, &p.label, &p.admits, p.particle, name, &self.content.siblings) {
                Some(d) => {
                    if !holds_id(next.as_slice(), c) {
                        next.push(c);
                    }
                    if matched.is_none() {
                        matched = d;
                    }
                    if wildcard.is_none() && d.is_none() {
                        wildcard = processing(self.schemas, p.particle);
                    }
                },
                None => {},
            }
            k += 1;
        }
        if next.len() == 0 {
            return false;
        }
        self.started = true;
        self.active = next;
        self.matched = matched;
        self.matched_wildcard = if matched.is_none() {
            wildcard
        } else {
            None
        };
        true
    }

    fn step_all(&mut self, g: &AllGroup, name: QName) -> (r: bool)
        requires
            old(self).content_walked().model == ContentModel::All(*g),
            old(self).fits(),
        ensures
            final(self).fits(),
            final(self).schemas_read() == old(self).schemas_read(),
            final(self).content_walked() == old(self).content_walked(),
            (final(self)@, r) == all_step(old(self).schemas_read(), *g, old(self)@, name, old(self).content_walked().siblings@),
    {
        let mut i: usize = 0;
        while i < g.members.len()
            invariant
                self.schemas == old(self).schemas,
                self.content == old(self).content,
                self.content.model == ContentModel::All(*g),
                self@ == old(self)@,
                i <= g.members@.len(),
                self.counts@.len() == g.members@.len(),
                member_for(*self.schemas, g.members@, self.counts@, name, self.content.siblings@, i as nat)
                    == member_for(*self.schemas, g.members@, self.counts@, name, self.content.siblings@, 0),
            decreases g.members.len() - i,
        {
            let m = &g.members[i];
            match admission(self.schemas, &m.label, &m.admits, m.particle, name, &self.content.siblings) {
                Some(d) => {
                    let room = match m.max_occurs {
                        MaxOccurs::Unbounded => true,
                        MaxOccurs::Bounded(n) => self.counts[i] < n,
                    };
                    if room {
                        let c = self.counts[i];
                        let bumped = if c < u32::MAX {
                            c + 1
                        } else {
                            c
                        };
                        self.counts = with_value(&self.counts, i, bumped);
                        self.matched = d;
                        if d.is_none() {
                            match processing(self.schemas, m.particle) {
                                Some(pc) => self.matched_wildcard = Some(pc),
                                None => {},
                            }
                        }
                        assert(self@.2.len() == g.members@.len());
                        assert(self.content == old(self).content);
                        assert(old(self).content_walked() == *old(self).content);
                        assert(self.content.model == ContentModel::All(*g));
                        assert(self.fits());
                        return true;
                    }
                },
                None => {},
            }
            i += 1;
        }
        false
    }
}

/// A URI as characters.
pub open spec fn uri_chars(uri: Option<&str>) -> Option<Seq<char>> {
    match uri {
        Some(u) => Some(u@),
        None => None,
    }
}

/// Whether `q` is written `local` in the namespace written `uri`.
fn is_spelled(names: &crate::names::Interner, q: QName, uri: Option<&str>, local: &str) -> (r: bool)
    requires
        names.wf(),
    ensures
        r == spelled(names@, q, uri_chars(uri), local@),
{
    let n = names.len();
    let ns_ok = match (q.ns, uri) {
        (None, None) => true,
        (None, Some(u)) => crate::text::str_chars(u).len() == 0,
        (Some(x), Some(u)) => x.symbol().index() < n && crate::text::str_eq(names.resolve(x.symbol()), u),
        (Some(_), None) => false,
    };
    ns_ok && q.local.index() < n && crate::text::str_eq(names.resolve(q.local), local)
}

/// Whether `w`'s exclusions exclude `local` in the namespace written `uri`.
fn is_excluded(names: &crate::names::Interner, w: &crate::model::Wildcard, uri: Option<&str>, local: &str) -> (r: bool)
    requires
        names.wf(),
    ensures
        r == excluded(names@, *w, uri_chars(uri), local@),
{
    let mut k: usize = 0;
    while k < w.not_qname.len()
        invariant
            names.wf(),
            k <= w.not_qname@.len(),
            forall|j: int| 0 <= j < k ==> !spelled(names@, #[trigger] w.not_qname@[j], uri_chars(uri), local@),
        decreases w.not_qname.len() - k,
    {
        if is_spelled(names, w.not_qname[k], uri, local) {
            return true;
        }
        k += 1;
    }
    false
}

/// Whether `w` admits an undeclared child.
fn foreign_admitted(s: &Schemas, w: &crate::model::Wildcard, uri: Option<&str>, local: &str) -> (r: bool)
    ensures
        r == admits_foreign(*s, *w, uri_chars(uri), local@),
{
    let names = s.names();
    w.namespace.admits_uri(names, uri) && !is_excluded(names, w, uri, local)
}

impl<'a> ContentMatcher<'a> {
    /// Consumes one child element whose name the schema never declared,
    /// written `local` in the namespace written `ns_uri`: only a wildcard
    /// can admit it.
    pub fn step_foreign(&mut self, ns_uri: Option<&str>, local: &str) -> (r: bool)
        requires
            old(self).fits(),
        ensures
            final(self).fits(),
            final(self).schemas_read() == old(self).schemas_read(),
            final(self).content_walked() == old(self).content_walked(),
            (final(self)@, r) == foreign_step_spec(
                old(self).schemas_read(),
                old(self).content_walked(),
                old(self)@,
                uri_chars(ns_uri),
                local@,
            ),
    {
        if self.failed {
            return false;
        }
        self.matched_wildcard = None;
        assert(self@.1 == old(self)@.1 && self@.2 == old(self)@.2);
        assert(self.fits());
        let content = self.content;
        let ok = match &content.model {
            ContentModel::Empty => false,
            ContentModel::Automaton(a) => self.step_automaton_foreign(a, ns_uri, local),
            ContentModel::All(g) => self.step_all_foreign(g, ns_uri, local),
        };
        if ok {
            let ghost before = *self;
            assert(before.fits());
            self.matched = None;
            assert(self@.1 == before@.1 && self@.2 == before@.2 && self.content == before.content);
            assert(self.fits());
            return true;
        }
        let open = match &content.open {
            Some(o) => foreign_admitted(self.schemas, &o.wildcard, ns_uri, local) && match o.mode {
                OpenContentMode::Interleave => true,
                OpenContentMode::Suffix => self.model_accepts_end(),
            },
            None => false,
        };
        if open {
            self.matched = None;
            self.matched_wildcard = match &content.open {
                Some(o) => Some(o.wildcard.process_contents),
                None => None,
            };
            return true;
        }
        self.failed = true;
        false
    }

    fn step_automaton_foreign(&mut self, a: &ContentAutomaton, ns_uri: Option<&str>, local: &str) -> (r: bool)
        requires
            old(self).content_walked().model == ContentModel::Automaton(*a),
            old(self).fits(),
        ensures
            final(self).fits(),
            final(self).schemas_read() == old(self).schemas_read(),
            final(self).content_walked() == old(self).content_walked(),
            (final(self)@, r) == automaton_foreign_step(old(self).schemas_read(), a@, old(self)@, uri_chars(ns_uri), local@),
    {
        let cs = self.candidate_list(a);
        let ghost target = foreign_scan(*self.schemas, a@, cs@, uri_chars(ns_uri), local@, 0, Seq::empty(), self.matched_wildcard);
        let mut next: Vec<u32> = Vec::new();
        let mut wildcard = self.matched_wildcard;
        let mut k: usize = 0;
        while k < cs.len()
            invariant
                forall|j: int| 0 <= j < cs@.len() ==> (#[trigger] cs@[j]) < a@.positions.len(),
                k <= cs@.len(),
                foreign_scan(*self.schemas, a@, cs@, uri_chars(ns_uri), local@, k as nat, next@, wildcard) == target,
                forall|j: int| 0 <= j < next@.len() ==> (#[trigger] next@[j]) < a@.positions.len(),
            decreases cs.len() - k,
        {
            let c = cs[k];
            let p = a.position(c);
            match (&p.label, particle_wildcard(self.schemas, p.particle)) {
                (Label::Wildcard, Some(w)) => {
                    if foreign_admitted(self.schemas, w, ns_uri, local) && !holds_id(next.as_slice(), c) {
                        if next.len() == 0 {
                            wildcard = Some(w.process_contents);
                        }
                        next.push(c);
                    }
                },
                _ => {},
            }
            k += 1;
        }
        if next.len() == 0 {
            return false;
        }
        self.started = true;
        self.active = next;
        self.matched_wildcard = wildcard;
        assert(self.content.model == ContentModel::Automaton(*a));
        assert(self.fits());
        true
    }

    fn step_all_foreign(&mut self, g: &AllGroup, ns_uri: Option<&str>, local: &str) -> (r: bool)
        requires
            old(self).content_walked().model == ContentModel::All(*g),
            old(self).fits(),
        ensures
            final(self).fits(),
            final(self).schemas_read() == old(self).schemas_read(),
            final(self).content_walked() == old(self).content_walked(),
            (final(self)@, r) == all_foreign_step(old(self).schemas_read(), *g, old(self)@, uri_chars(ns_uri), local@),
    {
        let mut i: usize = 0;
        while i < g.members.len()
            invariant
                self.schemas == old(self).schemas,
                self.content == old(self).content,
                self.content.model == ContentModel::All(*g),
                self@ == old(self)@,
                i <= g.members@.len(),
                self.counts@.len() == g.members@.len(),
                foreign_member(*self.schemas, g.members@, self.counts@, uri_chars(ns_uri), local@, i as nat)
                    == foreign_member(*self.schemas, g.members@, self.counts@, uri_chars(ns_uri), local@, 0),
            decreases g.members.len() - i,
        {
            let m = &g.members[i];
            match (&m.label, particle_wildcard(self.schemas, m.particle)) {
                (Label::Wildcard, Some(w)) => {
                    let room = match m.max_occurs {
                        MaxOccurs::Unbounded => true,
                        MaxOccurs::Bounded(n) => self.counts[i] < n,
                    };
                    if foreign_admitted(self.schemas, w, ns_uri, local) && room {
                        let c = self.counts[i];
                        let bumped = if c < u32::MAX {
                            c + 1
                        } else {
                            c
                        };
                        self.counts = with_value(&self.counts, i, bumped);
                        self.matched_wildcard = Some(w.process_contents);
                        assert(self@.2.len() == g.members@.len());
                        assert(self.fits());
                        return true;
                    }
                },
                _ => {},
            }
            i += 1;
        }
        false
    }
}

/// `v` with its `i`-th item `x`.
fn with_value(v: &Vec<u32>, i: usize, x: u32) -> (r: Vec<u32>)
    requires
        i < v@.len(),
    ensures
        r@ == v@.update(i as int, x),
{
    let mut r: Vec<u32> = Vec::new();
    let mut k: usize = 0;
    while k < v.len()
        invariant
            k <= v@.len(),
            i < v@.len(),
            r@ == v@.update(i as int, x).take(k as int),
        decreases v.len() - k,
    {
        r.push(if k == i {
            x
        } else {
            v[k]
        });
        assert(v@.update(i as int, x).take(k + 1) =~= v@.update(i as int, x).take(k as int).push(
            v@.update(i as int, x)[k as int],
        ));
        k += 1;
    }
    assert(v@.update(i as int, x).take(k as int) =~= v@.update(i as int, x));
    r
}

/// `n` zeros.
fn zeros(n: usize) -> (r: Vec<u32>)
    ensures
        r@ == Seq::new(n as nat, |i: int| 0u32),
{
    let mut r: Vec<u32> = Vec::new();
    while r.len() < n
        invariant
            r@.len() <= n,
            forall|i: int| 0 <= i < r@.len() ==> r@[i] == 0u32,
        decreases n - r.len(),
    {
        r.push(0);
    }
    assert(r@ =~= Seq::new(n as nat, |i: int| 0u32));
    r
}

/// Whether `ids` holds `x`.
fn holds_id(ids: &[u32], x: u32) -> (r: bool)
    ensures
        r == ids@.contains(x),
{
    let mut i: usize = 0;
    while i < ids.len()
        invariant
            i <= ids@.len(),
            forall|j: int| 0 <= j < i ==> ids@[j] != x,
        decreases ids.len() - i,
    {
        if ids[i] == x {
            return true;
        }
        i += 1;
    }
    false
}

} // verus!
