//! Content models compiled to position automata.
//!
//! Every complex type's particle tree is compiled once into a Glushkov
//! (position) automaton. Three things fall out of that single structure:
//!
//! - **Unique Particle Attribution.** A content model is 1-unambiguous
//!   exactly when its position automaton is deterministic.
//! - **Which elements may appear here** — the transition labels, expanded
//!   through substitution groups.
//! - **Whether an element may repeat** — whether its position can reach
//!   itself.
//!
//! The questions below are all questions of reachability in the follow
//! graph, and each is answered exactly: a position repeats precisely when
//! some walk leads from it back to itself, and a child is optional precisely
//! when some accepting walk avoids every position that forces it.

use vstd::prelude::*;
use crate::model::{
    lemma_push_contains, Compositor, ContentType, DerivationMethod, ElementId, GroupId, MaxOccurs,
    NamespaceConstraint, NsSet, Particle, ParticleId, Term, TypeDefinition, TypeId, Wildcard,
};
use crate::schemas::{same_components, Schemas};
use crate::diagnostics::Diagnostics;
use crate::names::{Namespace, QName};

verus! {

/// Cap on positions per content model, bounding total model size.
pub const MAX_POSITIONS: usize = 4096;

/// Cap on unrolled copies of a single particle.
pub const MAX_UNROLL: u32 = 64;

/// What a position matches.
#[derive(Clone, PartialEq, Eq, Debug)]
pub enum Label {
    /// An element particle. Admits the element itself plus every member of
    /// its substitution group, so the admitted set is usually larger than
    /// one name.
    Element(ElementId),
    /// A wildcard particle; the constraint lives on the particle's term.
    Wildcard,
}

/// One occurrence of an element or wildcard in a content model.
#[derive(Clone, Debug)]
pub struct Position {
    /// The particle this position came from. Several positions share one
    /// particle when a numeric range was unrolled.
    pub particle: ParticleId,
    pub label: Label,
    /// Every element declaration this position admits — the substitution
    /// closure, precomputed. Empty for wildcards, whose admission is a
    /// predicate rather than a set.
    pub admits: Vec<ElementId>,
}

// ---------------------------------------------------------------------------
// Walks in a follow graph
// ---------------------------------------------------------------------------

/// Whether the follow graph `g` has an edge from `p` to `q`.
pub open spec fn edge(g: Seq<Vec<u32>>, p: int, q: int) -> bool {
    0 <= p < g.len() && 0 <= q <= u32::MAX && g[p]@.contains(q as u32)
}

/// Step `j` of `path` follows an edge into a position `blocked` does not
/// mark.
pub open spec fn step(g: Seq<Vec<u32>>, path: Seq<int>, j: int, blocked: Seq<bool>) -> bool {
    edge(g, path[j - 1], path[j]) && !blocked[path[j]]
}

/// Whether `path` is a walk in `g` that enters no position `blocked` marks
/// (its first position may be one).
pub open spec fn is_walk(g: Seq<Vec<u32>>, path: Seq<int>, blocked: Seq<bool>) -> bool {
    &&& path.len() >= 1
    &&& forall|j: int| 0 < j < path.len() ==> #[trigger] step(g, path, j, blocked)
}

/// Whether some walk from one of `starts` reaches `v`.
pub open spec fn reachable_from(g: Seq<Vec<u32>>, starts: Seq<u32>, v: int, blocked: Seq<bool>) -> bool {
    exists|i: int, path: Seq<int>|
        #![trigger is_walk(g, path, blocked), starts[i]]
        0 <= i < starts.len() && is_walk(g, path, blocked) && path[0] == starts[i] as int
            && path.last() == v
}

/// Every edge of `g` leads to a position of `g`.
pub open spec fn graph_wf(g: Seq<Vec<u32>>) -> bool {
    forall|p: int, j: int| 0 <= p < g.len() && 0 <= j < g[p]@.len() ==> (#[trigger] g[p]@[j]) < g.len()
}

/// A walk extended by one more edge at its end.
pub proof fn lemma_walk_extend(g: Seq<Vec<u32>>, path: Seq<int>, w: int, blocked: Seq<bool>)
    requires
        is_walk(g, path, blocked),
        edge(g, path.last(), w),
        !blocked[w],
    ensures
        is_walk(g, path.push(w), blocked),
{
    let q = path.push(w);
    assert forall|j: int| 0 < j < q.len() implies #[trigger] step(g, q, j, blocked) by {
        if j < path.len() {
            assert(step(g, path, j, blocked));
        }
    }
}

/// A set closed under the graph's unblocked edges holds every position of
/// a walk that starts in it, up to position `j`.
pub proof fn lemma_closed_holds_walks(
    g: Seq<Vec<u32>>,
    seen: Seq<bool>,
    path: Seq<int>,
    j: int,
    blocked: Seq<bool>,
)
    requires
        seen.len() == g.len(),
        graph_wf(g),
        is_walk(g, path, blocked),
        0 <= j < path.len(),
        0 <= path[0] < g.len(),
        seen[path[0]],
        forall|a: int, b: int| 0 <= a < g.len() && seen[a] && edge(g, a, b) && !blocked[b] ==> seen[b],
    ensures
        0 <= path[j] < g.len(),
        seen[path[j]],
    decreases j,
{
    if j > 0 {
        lemma_closed_holds_walks(g, seen, path, j - 1, blocked);
        assert(step(g, path, j, blocked));
        let prev = g[path[j - 1]]@;
        let t = choose|t: int| 0 <= t < prev.len() && #[trigger] prev[t] == path[j] as u32;
        assert(prev[t] < g.len());
    }
}

/// How many of `s` are set.
pub open spec fn count_true(s: Seq<bool>) -> nat
    decreases s.len(),
{
    if s.len() == 0 {
        0
    } else {
        count_true(s.drop_last()) + if s.last() { 1nat } else { 0nat }
    }
}

pub proof fn lemma_count_true_bound(s: Seq<bool>)
    ensures
        count_true(s) <= s.len(),
    decreases s.len(),
{
    if s.len() > 0 {
        lemma_count_true_bound(s.drop_last());
    }
}

pub proof fn lemma_count_true_set(s: Seq<bool>, i: int)
    requires
        0 <= i < s.len(),
        !s[i],
    ensures
        count_true(s.update(i, true)) == count_true(s) + 1,
    decreases s.len(),
{
    if i == s.len() - 1 {
        assert(s.update(i, true).drop_last() =~= s.drop_last());
    } else {
        lemma_count_true_set(s.drop_last(), i);
        assert(s.update(i, true).drop_last() =~= s.drop_last().update(i, true));
    }
}

pub proof fn lemma_count_true_none(s: Seq<bool>)
    requires
        forall|i: int| 0 <= i < s.len() ==> !s[i],
    ensures
        count_true(s) == 0,
    decreases s.len(),
{
    if s.len() > 0 {
        lemma_count_true_none(s.drop_last());
    }
}

/// Every position some walk from `starts` reaches through positions that
/// `blocked` does not mark; the starts themselves count as reached.
pub(crate) fn reachable(g: &Vec<Vec<u32>>, starts: &Vec<u32>, blocked: &Vec<bool>) -> (seen: Vec<bool>)
    requires
        graph_wf(g@),
        g@.len() <= u32::MAX,
        blocked@.len() == g@.len(),
        forall|i: int| 0 <= i < starts@.len() ==> starts@[i] < g@.len(),
    ensures
        seen@.len() == g@.len(),
        forall|v: int| 0 <= v < g@.len() ==> (seen@[v] <==> reachable_from(g@, starts@, v, blocked@)),
{
    let n = g.len();
    let mut seen: Vec<bool> = Vec::new();
    while seen.len() < n
        invariant
            seen@.len() <= n,
            n == g@.len(),
            forall|v: int| 0 <= v < seen@.len() ==> !seen@[v],
        decreases n - seen.len(),
    {
        seen.push(false);
    }
    proof {
        lemma_count_true_none(seen@);
    }
    let mut stack: Vec<u32> = Vec::new();
    let mut i: usize = 0;
    while i < starts.len()
        invariant
            i <= starts@.len(),
            n == g@.len(),
            seen@.len() == n,
            blocked@.len() == n,
            forall|j: int| 0 <= j < starts@.len() ==> starts@[j] < n,
            forall|j: int| 0 <= j < i ==> seen@[starts@[j] as int],
            forall|v: int| 0 <= v < n && seen@[v] ==> reachable_from(g@, starts@, v, blocked@),
            forall|v: int| 0 <= v < n && seen@[v] ==> stack@.contains(v as u32),
            forall|j: int| 0 <= j < stack@.len() ==> stack@[j] < n && seen@[stack@[j] as int],
            count_true(seen@) <= n,
        decreases starts.len() - i,
    {
        let s = starts[i];
        if !seen[s as usize] {
            proof {
                lemma_count_true_set(seen@, s as int);
                lemma_count_true_bound(seen@.update(s as int, true));
                assert(is_walk(g@, seq![s as int], blocked@));
                assert(seq![s as int].last() == s as int);
            }
            let ghost before = stack@;
            seen.set(s as usize, true);
            stack.push(s);
            proof {
                assert forall|v: int| 0 <= v < n && seen@[v] implies stack@.contains(v as u32) by {
                    lemma_push_contains(before, s, v as u32);
                }
            }
        }
        i += 1;
    }
    while stack.len() > 0
        invariant
            n == g@.len(),
            n <= u32::MAX,
            graph_wf(g@),
            seen@.len() == n,
            blocked@.len() == n,
            forall|j: int| 0 <= j < starts@.len() ==> starts@[j] < n && seen@[starts@[j] as int],
            forall|v: int| 0 <= v < n && seen@[v] ==> reachable_from(g@, starts@, v, blocked@),
            forall|j: int| 0 <= j < stack@.len() ==> stack@[j] < n && seen@[stack@[j] as int],
            forall|a: int, b: int|
                0 <= a < n && seen@[a] && !stack@.contains(a as u32) && edge(g@, a, b) && !blocked@[b]
                    ==> seen@[b],
            count_true(seen@) <= n,
        decreases n - count_true(seen@), stack.len(),
    {
        let ghost whole = stack@;
        let v = stack.pop().unwrap();
        let ghost popped = stack@;
        let ghost c0 = count_true(seen@);
        assert(whole == popped.push(v));
        proof {
            assert forall|a: int, b: int|
                0 <= a < n && a != v && seen@[a] && !stack@.contains(a as u32) && edge(g@, a, b)
                    && !blocked@[b] implies seen@[b] by {
                lemma_push_contains(popped, v, a as u32);
                assert(!whole.contains(a as u32));
                assert(0 <= a < n && seen@[a] && !whole.contains(a as u32) && edge(g@, a, b) && !blocked@[b]);
            }
        }
        let succs = &g[v as usize];
        let mut j: usize = 0;
        while j < succs.len()
            invariant
                n == g@.len(),
                n <= u32::MAX,
                graph_wf(g@),
                0 <= v < n,
                *succs == g@[v as int],
                j <= succs@.len(),
                seen@.len() == n,
                blocked@.len() == n,
                seen@[v as int],
                whole == popped.push(v),
                forall|t: int| 0 <= t < starts@.len() ==> starts@[t] < n && seen@[starts@[t] as int],
                forall|w: int| 0 <= w < n && seen@[w] ==> reachable_from(g@, starts@, w, blocked@),
                forall|t: int| 0 <= t < stack@.len() ==> stack@[t] < n && seen@[stack@[t] as int],
                stack@.len() >= popped.len(),
                stack@.take(popped.len() as int) == popped,
                forall|t: int| 0 <= t < j ==> blocked@[succs@[t] as int] || seen@[succs@[t] as int],
                forall|a: int, b: int|
                    0 <= a < n && a != v && seen@[a] && !stack@.contains(a as u32) && edge(g@, a, b)
                        && !blocked@[b] ==> seen@[b],
                count_true(seen@) <= n,
                count_true(seen@) >= c0,
                stack@.len() == popped.len() + (count_true(seen@) - c0),
            decreases succs.len() - j,
        {
            let w = succs[j];
            assert(succs@[j as int] < n);
            if !blocked[w as usize] && !seen[w as usize] {
                proof {
                    lemma_count_true_set(seen@, w as int);
                    lemma_count_true_bound(seen@.update(w as int, true));
                    assert(edge(g@, v as int, w as int)) by {
                        assert(g@[v as int]@[j as int] == w);
                    }
                    let (si, path) = choose|si: int, path: Seq<int>|
                        #![trigger is_walk(g@, path, blocked@), starts@[si]]
                        0 <= si < starts@.len() && is_walk(g@, path, blocked@) && path[0]
                            == starts@[si] as int && path.last() == v as int;
                    lemma_walk_extend(g@, path, w as int, blocked@);
                    assert(path.push(w as int)[0] == starts@[si] as int);
                    assert(path.push(w as int).last() == w as int);
                }
                let ghost before = stack@;
                seen.set(w as usize, true);
                stack.push(w);
                assert(stack@.take(popped.len() as int) =~= before.take(popped.len() as int));
                proof {
                    assert forall|a: int, b: int|
                        0 <= a < n && a != v && seen@[a] && !stack@.contains(a as u32) && edge(g@, a, b)
                            && !blocked@[b] implies seen@[b] by {
                        lemma_push_contains(before, w, a as u32);
                    }
                }
            }
            j += 1;
        }
        proof {
            assert forall|a: int, b: int|
                0 <= a < n && seen@[a] && !stack@.contains(a as u32) && edge(g@, a, b) && !blocked@[b]
                    implies seen@[b] by {
                if a == v {
                    let t = choose|t: int| 0 <= t < g@[a]@.len() && g@[a]@[t] == b as u32;
                    assert(blocked@[succs@[t] as int] || seen@[succs@[t] as int]);
                }
            }
        }
    }
    proof {
        assert forall|x: int| 0 <= x < n implies (seen@[x] <==> reachable_from(g@, starts@, x, blocked@)) by {
            if reachable_from(g@, starts@, x, blocked@) {
                let (si, path) = choose|si: int, path: Seq<int>|
                    #![trigger is_walk(g@, path, blocked@), starts@[si]]
                    0 <= si < starts@.len() && is_walk(g@, path, blocked@) && path[0]
                        == starts@[si] as int && path.last() == x;
                lemma_closed_holds_walks(g@, seen@, path, path.len() - 1, blocked@);
            }
        }
    }
    seen
}

// ---------------------------------------------------------------------------
// The automaton
// ---------------------------------------------------------------------------

/// What a [`ContentAutomaton`] holds: its positions, the positions a match
/// may start at, each position's successors, the positions a match may end
/// at, whether empty content is accepted, and whether a range was widened.
pub struct AutomatonView {
    pub positions: Seq<Position>,
    pub first: Seq<u32>,
    pub follow: Seq<Vec<u32>>,
    pub last: Seq<u32>,
    pub nullable: bool,
    pub approximated: bool,
}

/// A Glushkov position automaton over a content model.
#[derive(Debug)]
pub struct ContentAutomaton {
    positions: Vec<Position>,
    first: Vec<u32>,
    follow: Vec<Vec<u32>>,
    last: Vec<u32>,
    nullable: bool,
    approximated: bool,
}

impl View for ContentAutomaton {
    type V = AutomatonView;

    closed spec fn view(&self) -> AutomatonView {
        AutomatonView {
            positions: self.positions@,
            first: self.first@,
            follow: self.follow@,
            last: self.last@,
            nullable: self.nullable,
            approximated: self.approximated,
        }
    }
}

/// Every position id of `ids` names one of `n` positions.
pub open spec fn ids_below(ids: Seq<u32>, n: int) -> bool {
    forall|i: int| 0 <= i < ids.len() ==> (#[trigger] ids[i]) < n
}

/// One successor list per position, every id naming a position, and ids
/// that fit the `u32` they are held in.
pub open spec fn automaton_wf(v: AutomatonView) -> bool {
    &&& v.follow.len() == v.positions.len()
    &&& v.positions.len() <= u32::MAX
    &&& graph_wf(v.follow)
    &&& ids_below(v.first, v.positions.len() as int)
    &&& ids_below(v.last, v.positions.len() as int)
}

/// No position is blocked.
pub open spec fn unblocked(n: nat) -> Seq<bool> {
    Seq::new(n, |i: int| false)
}

/// Whether a walk leads from one of `p`'s successors back to `p`: whether
/// the element at `p` may repeat.
pub open spec fn reaches_itself(g: Seq<Vec<u32>>, p: int) -> bool {
    reachable_from(g, g[p]@, p, unblocked(g.len()))
}

/// Whether some accepting content enters no position `blocked` marks: empty
/// content when that is accepted, or a walk from a start position to an end
/// position through unmarked positions only.
pub open spec fn accepts_avoiding(v: AutomatonView, blocked: Seq<bool>) -> bool {
    v.nullable || exists|path: Seq<int>|
        #[trigger] is_walk(v.follow, path, blocked) && !blocked[path[0]] && lists(v.first, path[0])
            && lists(v.last, path.last())
}

/// Whether the id list `ids` holds position `x`.
pub open spec fn lists(ids: Seq<u32>, x: int) -> bool {
    exists|i: int| 0 <= i < ids.len() && #[trigger] ids[i] as int == x
}

/// Whether `avoid` lists position `q`.
pub open spec fn avoided(avoid: Seq<u32>, n: nat) -> Seq<bool> {
    Seq::new(n, |q: int| avoid.contains(q as u32))
}

/// A vector of `n` falses.
fn falses(n: usize) -> (r: Vec<bool>)
    ensures
        r@ == unblocked(n as nat),
{
    let mut r: Vec<bool> = Vec::new();
    while r.len() < n
        invariant
            r@.len() <= n,
            forall|i: int| 0 <= i < r@.len() ==> !r@[i],
        decreases n - r.len(),
    {
        r.push(false);
    }
    assert(r@ =~= unblocked(n as nat));
    r
}

impl ContentAutomaton {
    /// Every automaton is well formed: one successor list per position and
    /// every id naming a position.
    #[verifier::type_invariant]
    pub open spec fn well_formed(self) -> bool {
        automaton_wf(self@)
    }

    /// Assembles an automaton, or refuses parts that do not describe one:
    /// a successor list missing, or an id naming no position.
    pub fn from_parts(
        positions: Vec<Position>,
        first: Vec<u32>,
        follow: Vec<Vec<u32>>,
        last: Vec<u32>,
        nullable: bool,
        approximated: bool,
    ) -> (r: Option<ContentAutomaton>)
        ensures
            match r {
                Some(a) => a@ == (AutomatonView {
                    positions: positions@,
                    first: first@,
                    follow: follow@,
                    last: last@,
                    nullable,
                    approximated,
                }),
                None => !automaton_wf(
                    AutomatonView {
                        positions: positions@,
                        first: first@,
                        follow: follow@,
                        last: last@,
                        nullable,
                        approximated,
                    },
                ),
            },
    {
        let n = positions.len();
        if follow.len() != n || n > 4294967295 {
            return None;
        }
        if !all_below(&first, n) || !all_below(&last, n) {
            return None;
        }
        let mut p: usize = 0;
        while p < n
            invariant
                p <= n,
                n == follow@.len(),
                forall|q: int, j: int| 0 <= q < p && 0 <= j < follow@[q]@.len() ==> (#[trigger] follow@[q]@[j]) < n,
            decreases n - p,
        {
            if !all_below(&follow[p], n) {
                assert(!graph_wf(follow@)) by {
                    let j = choose|j: int| 0 <= j < follow@[p as int]@.len() && #[trigger] follow@[p as int]@[j] >= n;
                }
                return None;
            }
            p += 1;
        }
        Some(ContentAutomaton { positions, first, follow, last, nullable, approximated })
    }

    pub fn positions(&self) -> (r: &[Position])
        ensures
            r@ == self@.positions,
    {
        self.positions.as_slice()
    }

    pub fn position(&self, p: u32) -> (r: &Position)
        requires
            p < self@.positions.len(),
        ensures
            *r == self@.positions[p as int],
    {
        &self.positions[p as usize]
    }

    /// Positions a match may start at.
    pub fn first(&self) -> (r: &[u32])
        ensures
            r@ == self@.first,
    {
        self.first.as_slice()
    }

    /// Positions reachable immediately after `p`.
    pub fn follow(&self, p: u32) -> (r: &[u32])
        requires
            automaton_wf(self@),
            p < self@.positions.len(),
        ensures
            r@ == self@.follow[p as int]@,
    {
        self.follow[p as usize].as_slice()
    }

    /// Positions a match may end at.
    pub fn last(&self) -> (r: &[u32])
        ensures
            r@ == self@.last,
    {
        self.last.as_slice()
    }

    /// Whether empty content is accepted.
    pub fn is_nullable(&self) -> (r: bool)
        ensures
            r == self@.nullable,
    {
        self.nullable
    }

    /// Whether unrolling hit a cap and a range was widened to unbounded. An
    /// approximated model accepts a superset of its true language.
    pub fn approximated(&self) -> (r: bool)
        ensures
            r == self@.approximated,
    {
        self.approximated
    }

    /// Whether `p` can reach itself, i.e. whether its element may repeat.
    pub fn repeats(&self, p: u32) -> (r: bool)
        requires
            automaton_wf(self@),
            p < self@.positions.len(),
        ensures
            r == reaches_itself(self@.follow, p as int),
    {
        let blocked = falses(self.follow.len());
        let seen = reachable(&self.follow, &self.follow[p as usize], &blocked);
        seen[p as usize]
    }
}

/// Whether every id of `ids` is below `n`.
fn all_below(ids: &Vec<u32>, n: usize) -> (r: bool)
    ensures
        r == ids_below(ids@, n as int),
{
    let mut i: usize = 0;
    while i < ids.len()
        invariant
            i <= ids.len(),
            forall|j: int| 0 <= j < i ==> ids@[j] < n,
        decreases ids.len() - i,
    {
        if ids[i] as usize >= n {
            assert(!ids_below(ids@, n as int)) by {
                assert(ids@[i as int] >= n);
            }
            return false;
        }
        i += 1;
    }
    true
}

/// Which positions lie on a cycle, for the whole automaton at once: a
/// position may repeat exactly when it can reach itself.
pub fn positions_on_a_cycle(a: &ContentAutomaton) -> (r: Vec<bool>)
    requires
        automaton_wf(a@),
    ensures
        r@.len() == a@.positions.len(),
        forall|p: int| 0 <= p < r@.len() ==> r@[p] == reaches_itself(a@.follow, p),
{
    let n = a.positions.len();
    let mut out: Vec<bool> = Vec::new();
    while out.len() < n
        invariant
            automaton_wf(a@),
            n == a@.positions.len(),
            out@.len() <= n,
            forall|p: int| 0 <= p < out@.len() ==> out@[p] == reaches_itself(a@.follow, p),
        decreases n - out.len(),
    {
        let p = out.len() as u32;
        let c = a.repeats(p);
        out.push(c);
    }
    out
}

/// Whether reaching `p` obliges the content to contain `child`: only when
/// `p` admits nothing else. A position of a substitution group admits every
/// member, and reaching it means matching *one* of them, so it forces none
/// of them in particular.
pub open spec fn spec_forces(p: Position, child: ElementId) -> bool {
    p.admits@.len() == 1 && p.admits@[0] == child
}

pub fn forces(p: &Position, child: ElementId) -> (r: bool)
    ensures
        r == spec_forces(*p, child),
{
    p.admits.len() == 1 && p.admits[0] == child
}

/// Whether some accepting content avoids every position `blocked` marks.
fn accepts_avoiding_exec(a: &ContentAutomaton, blocked: &Vec<bool>) -> (r: bool)
    requires
        automaton_wf(a@),
        blocked@.len() == a@.positions.len(),
    ensures
        r == accepts_avoiding(a@, blocked@),
{
    if a.nullable {
        return true;
    }
    let n = a.positions.len();
    let mut starts: Vec<u32> = Vec::new();
    let mut i: usize = 0;
    while i < a.first.len()
        invariant
            automaton_wf(a@),
            n == a@.positions.len(),
            blocked@.len() == n,
            i <= a@.first.len(),
            forall|j: int| 0 <= j < starts@.len() ==> (#[trigger] starts@[j]) < n && !blocked@[starts@[j] as int]
                && a@.first.contains(starts@[j]),
            forall|j: int| 0 <= j < i && !blocked@[a@.first[j] as int] ==> starts@.contains(
                #[trigger] a@.first[j],
            ),
        decreases a.first.len() - i,
    {
        let f = a.first[i];
        assert(a@.first[i as int] < n);
        if !blocked[f as usize] {
            let ghost before = starts@;
            starts.push(f);
            proof {
                assert forall|j: int| 0 <= j <= i && !blocked@[a@.first[j] as int] implies starts@.contains(
                    #[trigger] a@.first[j],
                ) by {
                    lemma_push_contains(before, f, a@.first[j]);
                }
            }
        }
        i += 1;
    }
    let seen = reachable(&a.follow, &starts, blocked);
    let mut k: usize = 0;
    while k < a.last.len()
        invariant
            automaton_wf(a@),
            n == a@.positions.len(),
            k <= a@.last.len(),
            seen@.len() == n,
            blocked@.len() == n,
            !a@.nullable,
            forall|v: int| 0 <= v < n ==> (seen@[v] <==> reachable_from(a@.follow, starts@, v, blocked@)),
            forall|j: int| 0 <= j < starts@.len() ==> (#[trigger] starts@[j]) < n && !blocked@[starts@[j] as int]
                && a@.first.contains(starts@[j]),
            forall|j: int| 0 <= j < a@.first.len() && !blocked@[a@.first[j] as int] ==> starts@.contains(
                #[trigger] a@.first[j],
            ),
            forall|j: int| 0 <= j < k ==> !seen@[#[trigger] a@.last[j] as int],
        decreases a.last.len() - k,
    {
        let l = a.last[k];
        assert(a@.last[k as int] < n);
        if seen[l as usize] {
            proof {
                let (si, path) = choose|si: int, path: Seq<int>|
                    #![trigger is_walk(a@.follow, path, blocked@), starts@[si]]
                    0 <= si < starts@.len() && is_walk(a@.follow, path, blocked@) && path[0]
                        == starts@[si] as int && path.last() == l as int;
                assert(starts@[si] < n);
                assert(a@.last[k as int] == l);
                let fi = choose|fi: int| 0 <= fi < a@.first.len() && a@.first[fi] == starts@[si];
                assert(a@.first[fi] as int == path[0]);
                assert(a@.last[k as int] as int == path.last());
                assert(is_walk(a@.follow, path, blocked@) && !blocked@[path[0]] && lists(a@.first, path[0])
                    && lists(a@.last, path.last()));
            }
            return true;
        }
        k += 1;
    }
    proof {
        if accepts_avoiding(a@, blocked@) {
            let path = choose|path: Seq<int>|
                #[trigger] is_walk(a@.follow, path, blocked@) && !blocked@[path[0]] && lists(a@.first, path[0])
                    && lists(a@.last, path.last());
            let fi = choose|fi: int| 0 <= fi < a@.first.len() && #[trigger] a@.first[fi] as int == path[0];
            assert(a@.first[fi] < n);
            assert(starts@.contains(a@.first[fi]));
            let si = choose|si: int| 0 <= si < starts@.len() && starts@[si] == a@.first[fi];
            assert(reachable_from(a@.follow, starts@, path.last(), blocked@));
            let li = choose|li: int| 0 <= li < a@.last.len() && #[trigger] a@.last[li] as int == path.last();
            assert(a@.last[li] < n);
            assert(!seen@[a@.last[li] as int]);
        }
    }
    false
}

/// Whether the automaton has an accepting path that touches none of
/// `avoid` — i.e. whether the element those positions carry is skippable.
pub fn reaches_end_avoiding(a: &ContentAutomaton, avoid: &[u32]) -> (r: bool)
    requires
        automaton_wf(a@),
    ensures
        r == accepts_avoiding(a@, avoided(avoid@, a@.positions.len())),
{
    let n = a.positions.len();
    let mut blocked: Vec<bool> = Vec::new();
    while blocked.len() < n
        invariant
            blocked@.len() <= n,
            n == a@.positions.len(),
            n <= u32::MAX,
            forall|q: int| 0 <= q < blocked@.len() ==> blocked@[q] == avoid@.contains(q as u32),
        decreases n - blocked.len(),
    {
        let q = blocked.len() as u32;
        let mut hit = false;
        let mut i: usize = 0;
        while i < avoid.len()
            invariant
                i <= avoid@.len(),
                hit == avoid@.take(i as int).contains(q),
            decreases avoid.len() - i,
        {
            proof {
                lemma_push_contains(avoid@.take(i as int), avoid@[i as int], q);
                assert(avoid@.take(i + 1) =~= avoid@.take(i as int).push(avoid@[i as int]));
            }
            if avoid[i] == q {
                hit = true;
            }
            i += 1;
        }
        assert(avoid@.take(avoid@.len() as int) =~= avoid@);
        blocked.push(hit);
    }
    assert(blocked@ =~= avoided(avoid@, n as nat));
    accepts_avoiding_exec(a, &blocked)
}

/// Bit `b` of `w`.
pub open spec fn bit_of(w: u64, b: int) -> bool {
    (w >> (b as u64)) & 1 == 1
}

/// Which positions force child `k`, read from bit sets of `words` words per
/// position.
pub open spec fn forcing(forced: Seq<u64>, words: int, k: int, n: nat) -> Seq<bool> {
    Seq::new(n, |p: int| bit_of(forced[p * words + k / 64], k % 64))
}

proof fn lemma_set_bit(w: u64, b: u64, c: u64)
    requires
        b < 64,
        c < 64,
    ensures
        ((w | (1u64 << b)) >> c) & 1 == (if c == b { 1u64 } else { (w >> c) & 1 }),
{
    assert(((w | (1u64 << b)) >> c) & 1 == (if c == b { 1u64 } else { (w >> c) & 1 })) by (bit_vector)
        requires
            b < 64,
            c < 64,
    ;
}

proof fn lemma_no_bits(c: u64)
    requires
        c < 64,
    ensures
        (0u64 >> c) & 1 == 0,
{
    assert((0u64 >> c) & 1 == 0) by (bit_vector)
        requires
            c < 64,
    ;
}

proof fn lemma_bit_is_zero_or_one(w: u64, c: u64)
    ensures
        (w >> c) & 1 == 0 || (w >> c) & 1 == 1,
{
    assert((w >> c) & 1 == 0 || (w >> c) & 1 == 1) by (bit_vector);
}

/// Which positions force child `wi * 64 + b`.
fn forcing_positions(a: &ContentAutomaton, forced: &[u64], words: usize, wi: usize, b: u64) -> (r: Vec<bool>)
    requires
        automaton_wf(a@),
        forced@.len() == a@.positions.len() * words,
        wi < words,
        b < 64,
    ensures
        r@ == forcing(forced@, words as int, wi * 64 + b, a@.positions.len()),
{
    let n = a.positions.len();
    let total = forced.len();
    let mut r: Vec<bool> = Vec::new();
    while r.len() < n
        invariant
            r@.len() <= n,
            n == a@.positions.len(),
            total == forced@.len(),
            forced@.len() == n * words,
            wi < words,
            b < 64,
            forall|p: int| 0 <= p < r@.len() ==> r@[p] == bit_of(forced@[p * words + wi], b as int),
        decreases n - r.len(),
    {
        let p = r.len();
        assert(p * words + wi < n * words) by (nonlinear_arith)
            requires
                p < n,
                wi < words,
        ;
        assert(p * words <= p * words + wi);
        assert(p * words + wi < total);
        let idx: usize = p * words + wi;
        let w = forced[idx];
        proof {
            lemma_bit_is_zero_or_one(w, b);
        }
        r.push((w >> b) & 1 == 1);
    }
    proof {
        let k = wi * 64 + b;
        assert(k / 64 == wi && k % 64 == b) by (nonlinear_arith)
            requires
                k == wi * 64 + b,
                b < 64,
        ;
        assert(r@ =~= forcing(forced@, words as int, k, n as nat));
    }
    r
}

/// Which children every accepting path must pass through, as bit sets of
/// `words` words: bit `k` is set exactly when no accepting content avoids
/// every position that forces child `k`. With empty content accepted,
/// nothing is required; with no accepting content at all, everything is.
pub fn required_children(a: &ContentAutomaton, forced: &[u64], words: usize) -> (r: Vec<u64>)
    requires
        automaton_wf(a@),
        forced@.len() == a@.positions.len() * words,
    ensures
        r@.len() == words,
        forall|k: int|
            0 <= k < words * 64 ==> #[trigger] bit_of(r@[k / 64], k % 64) == !accepts_avoiding(
                a@,
                forcing(forced@, words as int, k, a@.positions.len()),
            ),
{
    let n = a.positions.len();
    let mut out: Vec<u64> = Vec::new();
    while out.len() < words
        invariant
            automaton_wf(a@),
            n == a@.positions.len(),
            forced@.len() == n * words,
            out@.len() <= words,
            forall|wj: int, c: int|
                0 <= wj < out@.len() && 0 <= c < 64 ==> #[trigger] bit_of(out@[wj], c) == !accepts_avoiding(
                    a@,
                    forcing(forced@, words as int, wj * 64 + c, n as nat),
                ),
        decreases words - out.len(),
    {
        let wi = out.len();
        let mut word: u64 = 0;
        let mut b: u64 = 0;
        proof {
            assert forall|c: int| 0 <= c < 64 implies !bit_of(word, c) by {
                lemma_no_bits(c as u64);
            }
        }
        while b < 64
            invariant
                automaton_wf(a@),
                n == a@.positions.len(),
                forced@.len() == n * words,
                wi < words,
                b <= 64,
                forall|c: int|
                    0 <= c < 64 ==> bit_of(word, c) == (c < b && !accepts_avoiding(
                        a@,
                        forcing(forced@, words as int, wi * 64 + c, n as nat),
                    )),
            decreases 64 - b,
        {
            let blocked = forcing_positions(a, forced, words, wi, b);
            let required = !accepts_avoiding_exec(a, &blocked);
            let ghost old_word = word;
            if required {
                word = word | (1u64 << b);
            }
            proof {
                assert forall|c: int| 0 <= c < 64 implies bit_of(word, c) == (c < b + 1 && !accepts_avoiding(
                    a@,
                    forcing(forced@, words as int, wi * 64 + c, n as nat),
                )) by {
                    assert(bit_of(old_word, c) == (c < b && !accepts_avoiding(
                        a@,
                        forcing(forced@, words as int, wi * 64 + c, n as nat),
                    )));
                    if required {
                        lemma_set_bit(old_word, b, c as u64);
                    }
                }
            }
            b += 1;
        }
        out.push(word);
    }
    proof {
        assert forall|k: int| 0 <= k < words * 64 implies #[trigger] bit_of(out@[k / 64], k % 64) == !accepts_avoiding(
            a@,
            forcing(forced@, words as int, k, n as nat),
        ) by {
            let wj = k / 64;
            let c = k % 64;
            assert(wj * 64 + c == k && 0 <= wj < words && 0 <= c < 64) by (nonlinear_arith)
                requires
                    wj == k / 64,
                    c == k % 64,
                    0 <= k < words * 64,
            ;
        }
    }
    out
}

// ---------------------------------------------------------------------------
// `xs:all` and the compiled model
// ---------------------------------------------------------------------------

/// An `xs:all` group: every member may appear in any order, each within its
/// own occurrence bounds.
///
/// Modelled separately rather than as an automaton — the interleaving of `n`
/// members is `n!` paths as a regex, and a per-member counter is both
/// smaller and exactly what the specification describes.
#[derive(Clone, Debug)]
pub struct AllGroup {
    pub members: Vec<AllMember>,
}

#[derive(Clone, Debug)]
pub struct AllMember {
    pub particle: ParticleId,
    pub label: Label,
    pub admits: Vec<ElementId>,
    pub min_occurs: u32,
    pub max_occurs: MaxOccurs,
}

impl AllGroup {
    pub open spec fn spec_is_nullable(&self) -> bool {
        forall|i: int| 0 <= i < self.members@.len() ==> (#[trigger] self.members@[i]).min_occurs == 0
    }

    /// Whether empty content satisfies every member's lower bound.
    pub fn is_nullable(&self) -> (r: bool)
        ensures
            r == self.spec_is_nullable(),
    {
        let mut i: usize = 0;
        while i < self.members.len()
            invariant
                i <= self.members@.len(),
                forall|j: int| 0 <= j < i ==> (#[trigger] self.members@[j]).min_occurs == 0,
            decreases self.members.len() - i,
        {
            if self.members[i].min_occurs != 0 {
                return false;
            }
            i += 1;
        }
        true
    }
}

/// The compiled form of a complex type's content.
#[derive(Debug)]
pub enum ContentModel {
    /// No child elements are permitted.
    Empty,
    Automaton(ContentAutomaton),
    All(AllGroup),
}

/// The declarations the lists of `lists` admit, one after another.
pub open spec fn flatten_admits(lists: Seq<Seq<ElementId>>) -> Seq<ElementId>
    decreases lists.len(),
{
    if lists.len() == 0 {
        Seq::empty()
    } else {
        flatten_admits(lists.drop_last()) + lists.last()
    }
}

/// `s` with every repeat of an earlier item left out, in first-appearance
/// order.
pub open spec fn first_seen(s: Seq<ElementId>) -> Seq<ElementId>
    decreases s.len(),
{
    if s.len() == 0 {
        Seq::empty()
    } else if first_seen(s.drop_last()).contains(s.last()) {
        first_seen(s.drop_last())
    } else {
        first_seen(s.drop_last()).push(s.last())
    }
}

/// What each position of an automaton admits.
pub open spec fn position_admits(ps: Seq<Position>) -> Seq<Seq<ElementId>> {
    ps.map_values(|p: Position| p.admits@)
}

/// What each member of an `xs:all` group admits.
pub open spec fn member_admits(ms: Seq<AllMember>) -> Seq<Seq<ElementId>> {
    ms.map_values(|m: AllMember| m.admits@)
}

/// Appends the items of `more` that `out` lacks, keeping `out` free of
/// repeats.
fn push_new(out: &mut Vec<ElementId>, more: &Vec<ElementId>)
    ensures
        forall|s: Seq<ElementId>| old(out)@ == #[trigger] first_seen(s) ==> final(out)@ == first_seen(s + more@),
{
    let ghost start = out@;
    let mut i: usize = 0;
    while i < more.len()
        invariant
            i <= more@.len(),
            forall|s: Seq<ElementId>| start == #[trigger] first_seen(s) ==> out@ == first_seen(s + more@.take(i as int)),
        decreases more.len() - i,
    {
        let e = more[i];
        let mut found = false;
        let mut j: usize = 0;
        while j < out.len()
            invariant
                j <= out@.len(),
                found == out@.take(j as int).contains(e),
            decreases out.len() - j,
        {
            proof {
                lemma_push_contains(out@.take(j as int), out@[j as int], e);
                assert(out@.take(j + 1) =~= out@.take(j as int).push(out@[j as int]));
            }
            if out[j] == e {
                found = true;
            }
            j += 1;
        }
        assert(out@.take(out@.len() as int) =~= out@);
        proof {
            assert forall|s: Seq<ElementId>| start == #[trigger] first_seen(s) implies (if found {
                out@
            } else {
                out@.push(e)
            }) == first_seen(s + more@.take(i + 1)) by {
                assert((s + more@.take(i + 1)).drop_last() =~= s + more@.take(i as int));
                assert((s + more@.take(i + 1)).last() == e);
            }
        }
        if !found {
            out.push(e);
        }
        i += 1;
    }
    proof {
        assert(more@.take(more@.len() as int) =~= more@);
    }
}

impl ContentModel {
    pub open spec fn spec_is_nullable(&self) -> bool {
        match self {
            ContentModel::Empty => true,
            ContentModel::Automaton(a) => a@.nullable,
            ContentModel::All(g) => g.spec_is_nullable(),
        }
    }

    pub fn is_nullable(&self) -> (r: bool)
        ensures
            r == self.spec_is_nullable(),
    {
        match self {
            ContentModel::Empty => true,
            ContentModel::Automaton(a) => a.is_nullable(),
            ContentModel::All(a) => a.is_nullable(),
        }
    }

    /// Every element declaration this model may admit directly, in first
    /// appearance order, with substitution groups expanded and duplicates
    /// removed.
    pub fn admitted_elements(&self) -> (r: Vec<ElementId>)
        ensures
            r@ == match self {
                ContentModel::Empty => Seq::<ElementId>::empty(),
                ContentModel::Automaton(a) => first_seen(flatten_admits(position_admits(a@.positions))),
                ContentModel::All(g) => first_seen(flatten_admits(member_admits(g.members@))),
            },
    {
        let mut out: Vec<ElementId> = Vec::new();
        match self {
            ContentModel::Empty => {},
            ContentModel::Automaton(a) => {
                let ps = a.positions();
                let ghost lists = position_admits(ps@);
                let mut i: usize = 0;
                assert(out@ =~= first_seen(flatten_admits(lists.take(0))));
                while i < ps.len()
                    invariant
                        i <= ps@.len(),
                        lists == position_admits(ps@),
                        out@ == first_seen(flatten_admits(lists.take(i as int))),
                    decreases ps.len() - i,
                {
                    assert(lists.take(i + 1).drop_last() =~= lists.take(i as int));
                    assert(lists.take(i + 1).last() == ps@[i as int].admits@);
                    push_new(&mut out, &ps[i].admits);
                    i += 1;
                }
                assert(lists.take(ps@.len() as int) =~= lists);
            },
            ContentModel::All(g) => {
                let ghost lists = member_admits(g.members@);
                let mut i: usize = 0;
                assert(out@ =~= first_seen(flatten_admits(lists.take(0))));
                while i < g.members.len()
                    invariant
                        i <= g.members@.len(),
                        lists == member_admits(g.members@),
                        out@ == first_seen(flatten_admits(lists.take(i as int))),
                    decreases g.members.len() - i,
                {
                    assert(lists.take(i + 1).drop_last() =~= lists.take(i as int));
                    assert(lists.take(i + 1).last() == g.members@[i as int].admits@);
                    push_new(&mut out, &g.members[i].admits);
                    i += 1;
                }
                assert(lists.take(g.members@.len() as int) =~= lists);
            },
        }
        out
    }
}

// ---------------------------------------------------------------------------
// Children and statistics
// ---------------------------------------------------------------------------

/// An element that may appear directly inside a type, and what its
/// occurrence allows.
///
/// The two flags are the questions a config or schema generator asks of
/// every child: does it repeat (a table rather than a column), and may it be
/// absent (a nullable column).
#[derive(Copy, Clone, PartialEq, Eq, Debug, Structural)]
pub struct Child {
    pub element: ElementId,
    /// Whether it may appear more than once, whether from its own
    /// `maxOccurs` or from a repeating ancestor group.
    pub repeats: bool,
    /// Whether some valid content leaves it out.
    pub optional: bool,
}

/// Content-model statistics, for diagnostics and tests.
#[derive(Copy, Clone, Default, PartialEq, Eq, Debug, Structural)]
pub struct ContentStats {
    pub models: usize,
    pub automata: usize,
    pub all_groups: usize,
    pub empty: usize,
    pub positions: usize,
    pub approximated: usize,
    /// Models carrying XSD 1.1 open content.
    pub open_content: usize,
}

/// `dst` followed by the items of `src` it does not hold yet, each once.
pub open spec fn with_new_items(dst: Seq<u32>, src: Seq<u32>) -> Seq<u32>
    decreases src.len(),
{
    if src.len() == 0 {
        dst
    } else {
        let before = with_new_items(dst, src.drop_last());
        if before.contains(src.last()) {
            before
        } else {
            before.push(src.last())
        }
    }
}

/// Appends the positions of `src` that `dst` lacks, keeping `dst` free of
/// repeats.
pub fn extend_unique(dst: &mut Vec<u32>, src: &[u32])
    ensures
        final(dst)@ == with_new_items(old(dst)@, src@),
{
    let mut i: usize = 0;
    while i < src.len()
        invariant
            i <= src@.len(),
            dst@ == with_new_items(old(dst)@, src@.take(i as int)),
        decreases src.len() - i,
    {
        assert(src@.take(i + 1).drop_last() =~= src@.take(i as int));
        let s = src[i];
        let mut found = false;
        let mut j: usize = 0;
        while j < dst.len()
            invariant
                j <= dst@.len(),
                found == dst@.take(j as int).contains(s),
            decreases dst.len() - j,
        {
            proof {
                lemma_push_contains(dst@.take(j as int), dst@[j as int], s);
                assert(dst@.take(j + 1) =~= dst@.take(j as int).push(dst@[j as int]));
            }
            if dst[j] == s {
                found = true;
            }
            j += 1;
        }
        assert(dst@.take(dst@.len() as int) =~= dst@);
        if !found {
            dst.push(s);
        }
        i += 1;
    }
    assert(src@.take(src@.len() as int) =~= src@);
}

/// Whether two wildcards' namespace constraints can both admit some name:
/// two lists share a namespace, a list names one a negation does not bar,
/// and anything meets `##any` or another negation, whose lists are finite.
pub open spec fn spec_wildcards_overlap(a: NsSet, b: NsSet) -> bool {
    match (a, b) {
        (NsSet::Any, _) => true,
        (_, NsSet::Any) => true,
        (NsSet::Only(x), NsSet::Only(y)) => some_listed(x, y, true),
        (NsSet::Only(x), NsSet::Not(y)) => some_listed(x, y, false),
        (NsSet::Not(y), NsSet::Only(x)) => some_listed(x, y, false),
        (NsSet::Not(_), NsSet::Not(_)) => true,
    }
}

/// Whether some item of `x` is (`inside`) or is not in `y`.
pub open spec fn some_listed(x: Seq<Option<Namespace>>, y: Seq<Option<Namespace>>, inside: bool) -> bool {
    exists|i: int| 0 <= i < x.len() && y.contains(#[trigger] x[i]) == inside
}

/// Whether some item of `x` is (`inside`) or is not in `y`.
fn any_listed(x: &Vec<Option<Namespace>>, y: &Vec<Option<Namespace>>, inside: bool) -> (r: bool)
    ensures
        r == some_listed(x@, y@, inside),
{
    let mut i: usize = 0;
    while i < x.len()
        invariant
            i <= x@.len(),
            forall|j: int| 0 <= j < i ==> y@.contains(#[trigger] x@[j]) != inside,
        decreases x.len() - i,
    {
        if crate::model::ns_list_contains(y, x[i]) == inside {
            return true;
        }
        i += 1;
    }
    false
}

/// Whether two wildcards can both match some name.
pub fn wildcards_overlap(a: &Wildcard, b: &Wildcard) -> (r: bool)
    ensures
        r == spec_wildcards_overlap(a.namespace@, b.namespace@),
{
    match (&a.namespace, &b.namespace) {
        (NamespaceConstraint::Any, _) => true,
        (_, NamespaceConstraint::Any) => true,
        (NamespaceConstraint::Enumeration(x), NamespaceConstraint::Enumeration(y)) => any_listed(x, y, true),
        (NamespaceConstraint::Enumeration(x), NamespaceConstraint::Not(y)) => any_listed(x, y, false),
        (NamespaceConstraint::Not(y), NamespaceConstraint::Enumeration(x)) => any_listed(x, y, false),
        (NamespaceConstraint::Not(_), NamespaceConstraint::Not(_)) => true,
    }
}

// ---------------------------------------------------------------------------
// Construction
// ---------------------------------------------------------------------------

/// A partially built model fragment, in Glushkov terms: the positions a
/// match may start and end at, and whether it may be empty.
pub struct Frag {
    pub first: Vec<u32>,
    pub last: Vec<u32>,
    pub nullable: bool,
}

impl Frag {
    /// The fragment matching only the empty sequence.
    pub fn empty() -> (r: Frag)
        ensures
            r.first@.len() == 0,
            r.last@.len() == 0,
            r.nullable,
            frag_view(r) == empty_frag(),
    {
        let r = Frag { first: Vec::new(), last: Vec::new(), nullable: true };
        assert(frag_view(r) =~= empty_frag());
        r
    }
}

/// Whether every particle id the particles and model groups hold, every
/// element and group they refer to, names a component held here.
pub open spec fn particle_refs_held(s: Schemas) -> bool {
    &&& forall|i: int|
        0 <= i < s.particle_defs().len() ==> term_held(s, (#[trigger] s.particle_defs()[i]).term)
    &&& forall|g: int|
        0 <= g < s.group_defs().len() ==> ids_held((#[trigger] s.group_defs()[g]).group.particles@, s.particle_defs().len())
}

/// Whether the particle ids of `ps` are below `n`.
pub open spec fn ids_held(ps: Seq<ParticleId>, n: nat) -> bool {
    forall|k: int| 0 <= k < ps.len() ==> (#[trigger] ps[k])@ < n
}

/// Whether what a term refers to is held.
pub open spec fn term_held(s: Schemas, t: Term) -> bool {
    match t {
        Term::Element(e) => e@ < s.element_decls().len(),
        Term::Group(g) => ids_held(g.particles@, s.particle_defs().len()),
        Term::GroupRef(g) => g@ < s.group_defs().len(),
        Term::Wildcard(_) => true,
    }
}

/// Whether `p` is a position for the particle it names: an element
/// particle's element with what may substitute for it, or a wildcard.
pub open spec fn position_of(s: Schemas, p: Position) -> bool {
    &&& p.particle@ < s.particle_defs().len()
    &&& match s.particle_defs()[p.particle@ as int].term {
        Term::Element(e) => p.label == Label::Element(e) && p.admits@ == s.substitutes_of(e),
        Term::Wildcard(_) => p.label == Label::Wildcard && p.admits@.len() == 0,
        _ => false,
    }
}

/// Positions being built: one successor list each, none listing a
/// position twice, every id naming a position, each position one of a
/// particle, no more than the cap.
pub open spec fn built_wf(s: Schemas, positions: Seq<Position>, follow: Seq<Vec<u32>>) -> bool {
    &&& positions.len() == follow.len()
    &&& positions.len() <= MAX_POSITIONS
    &&& graph_wf(follow)
    &&& rows_distinct(follow)
    &&& forall|p: int| 0 <= p < positions.len() ==> position_of(s, #[trigger] positions[p])
}

/// Whether no successor list names a position twice.
pub open spec fn rows_distinct(follow: Seq<Vec<u32>>) -> bool {
    forall|p: int| 0 <= p < follow.len() ==> (#[trigger] follow[p])@.no_duplicates()
}

/// Whether a fragment's ids name positions below `n`, each once.
pub open spec fn frag_wf(f: Frag, n: nat) -> bool {
    &&& ids_below(f.first@, n as int) && ids_below(f.last@, n as int)
    &&& f.first@.no_duplicates() && f.last@.no_duplicates()
}

/// Adding the new items of a list to one free of repeats leaves it free of
/// repeats.
proof fn lemma_new_items_distinct(d: Seq<u32>, s: Seq<u32>)
    requires
        d.no_duplicates(),
    ensures
        with_new_items(d, s).no_duplicates(),
    decreases s.len(),
{
    if s.len() > 0 {
        lemma_new_items_distinct(d, s.drop_last());
        let before = with_new_items(d, s.drop_last());
        if !before.contains(s.last()) {
            let after = before.push(s.last());
            assert forall|i: int, j: int| 0 <= i < after.len() && 0 <= j < after.len() && i != j implies after[i]
                != after[j] by {
                if i < before.len() && j < before.len() {
                    assert(after[i] == before[i] && after[j] == before[j]);
                } else if i < before.len() {
                    assert(after[i] == before[i]);
                } else {
                    assert(after[j] == before[j]);
                }
            }
        }
    }
}

/// A fragment as values: its first positions, its last, whether it may be
/// empty.
pub type FragView = (Seq<u32>, Seq<u32>, bool);

/// A fragment's values.
pub open spec fn frag_view(f: Frag) -> FragView {
    (f.first@, f.last@, f.nullable)
}

/// The successor lists as values.
pub open spec fn follow_view(f: Seq<Vec<u32>>) -> Seq<Seq<u32>> {
    f.map_values(|v: Vec<u32>| v@)
}

/// Every position of `from` followed, besides its successors, by each
/// position of `to` it is not followed by yet.
pub open spec fn linked(follow: Seq<Seq<u32>>, from: Seq<u32>, to: Seq<u32>) -> Seq<Seq<u32>> {
    Seq::new(
        follow.len(),
        |f: int|
            if lists(from, f) {
                with_new_items(follow[f], to)
            } else {
                follow[f]
            },
    )
}

/// What is added is held afterwards, and what was there stays.
proof fn lemma_new_items_hold(d: Seq<u32>, s: Seq<u32>)
    ensures
        forall|k: int| 0 <= k < s.len() ==> with_new_items(d, s).contains(#[trigger] s[k]),
        forall|k: int| 0 <= k < d.len() ==> with_new_items(d, s).contains(#[trigger] d[k]),
    decreases s.len(),
{
    if s.len() > 0 {
        lemma_new_items_hold(d, s.drop_last());
        let w = with_new_items(d, s.drop_last());
        assert forall|k: int| 0 <= k < s.len() implies with_new_items(d, s).contains(#[trigger] s[k]) by {
            if k < s.len() - 1 {
                assert(s.drop_last()[k] == s[k]);
                let j = choose|j: int| 0 <= j < w.len() && w[j] == s[k];
                if !w.contains(s.last()) {
                    assert(w.push(s.last())[j] == s[k]);
                }
            } else if !w.contains(s.last()) {
                assert(w.push(s.last())[w.len() as int] == s.last());
            }
        }
        assert forall|k: int| 0 <= k < d.len() implies with_new_items(d, s).contains(#[trigger] d[k]) by {
            let j = choose|j: int| 0 <= j < w.len() && w[j] == d[k];
            if !w.contains(s.last()) {
                assert(w.push(s.last())[j] == d[k]);
            }
        }
    }
}

/// Adding what is all there already adds nothing.
proof fn lemma_new_items_none(d: Seq<u32>, s: Seq<u32>)
    requires
        forall|k: int| 0 <= k < s.len() ==> d.contains(#[trigger] s[k]),
    ensures
        with_new_items(d, s) == d,
    decreases s.len(),
{
    if s.len() > 0 {
        assert forall|k: int| 0 <= k < s.drop_last().len() implies d.contains(#[trigger] s.drop_last()[k]) by {
            assert(s.drop_last()[k] == s[k]);
        }
        lemma_new_items_none(d, s.drop_last());
        assert(d.contains(s[s.len() - 1]));
    }
}

/// Adding the same items twice adds them once.
proof fn lemma_new_items_twice(d: Seq<u32>, s: Seq<u32>)
    ensures
        with_new_items(with_new_items(d, s), s) == with_new_items(d, s),
{
    lemma_new_items_hold(d, s);
    lemma_new_items_none(with_new_items(d, s), s);
}

/// The state of a model under construction.
pub struct Builder {
    pub positions: Vec<Position>,
    pub follow: Vec<Vec<u32>>,
    pub approximated: bool,
    /// The group definitions being expanded, outermost first: a definition
    /// that reaches itself builds nothing there.
    pub visiting: Vec<GroupId>,
}

/// A copy of the ids `v`.
fn copy_ids(v: &Vec<u32>) -> (r: Vec<u32>)
    ensures
        r@ == v@,
{
    let mut r: Vec<u32> = Vec::new();
    let mut i: usize = 0;
    while i < v.len()
        invariant
            i <= v@.len(),
            r@ == v@.take(i as int),
        decreases v@.len() - i,
    {
        r.push(v[i]);
        assert(v@.take(i + 1) =~= v@.take(i as int).push(v@[i as int]));
        i += 1;
    }
    assert(v@.take(i as int) =~= v@);
    r
}

/// `with_new_items` keeps ids below a bound.
proof fn lemma_new_items_below(dst: Seq<u32>, src: Seq<u32>, n: int)
    requires
        ids_below(dst, n),
        ids_below(src, n),
    ensures
        ids_below(with_new_items(dst, src), n),
    decreases src.len(),
{
    if src.len() > 0 {
        lemma_new_items_below(dst, src.drop_last(), n);
    }
}

/// Ids below a bound stay below a larger one.
proof fn lemma_below_grows(ids: Seq<u32>, n: int, m: int)
    requires
        ids_below(ids, n),
        n <= m,
    ensures
        ids_below(ids, m),
{
}

impl Builder {
    pub fn new() -> (r: Builder)
        ensures
            r.positions@.len() == 0,
            r.follow@.len() == 0,
            !r.approximated,
            r.visiting@.len() == 0,
    {
        Builder { positions: Vec::new(), follow: Vec::new(), approximated: false, visiting: Vec::new() }
    }

    /// Adds a position for particle `pid`, with no successors yet.
    fn add_position(&mut self, s: &Schemas, pid: ParticleId, label: Label) -> (r: u32)
        requires
            built_wf(*s, old(self).positions@, old(self).follow@),
            old(self).positions@.len() < MAX_POSITIONS,
            pid@ < s.particle_defs().len(),
            match s.particle_defs()[pid@ as int].term {
                Term::Element(e) => label == Label::Element(e) && e@ < s.element_decls().len(),
                Term::Wildcard(_) => label == Label::Wildcard,
                _ => false,
            },
        ensures
            built_wf(*s, final(self).positions@, final(self).follow@),
            r == old(self).positions@.len(),
            final(self).positions@.len() == old(self).positions@.len() + 1,
            final(self).visiting@ == old(self).visiting@,
            final(self).approximated == old(self).approximated,
            build_view(*final(self)) == (
                build_view(*old(self)).0.push(pid),
                build_view(*old(self)).1.push(Seq::empty()),
                build_view(*old(self)).2,
                build_view(*old(self)).3,
            ),
    {
        let admits = match &label {
            Label::Element(e) => s.substitutable_for(*e),
            Label::Wildcard => Vec::new(),
        };
        let id = self.positions.len() as u32;
        self.positions.push(Position { particle: pid, label, admits });
        self.follow.push(Vec::new());
        proof {
            assert forall|p: int, j: int|
                0 <= p < self.follow@.len() && 0 <= j < self.follow@[p]@.len() implies (
            #[trigger] self.follow@[p]@[j]) < self.follow@.len() by {
                assert(p < old(self).follow@.len());
                assert(self.follow@[p] == old(self).follow@[p]);
            }
            assert forall|p: int| 0 <= p < self.positions@.len() implies position_of(*s, #[trigger] self.positions@[p]) by {
                if p < old(self).positions@.len() {
                    assert(self.positions@[p] == old(self).positions@[p]);
                }
            }
            assert(build_view(*self).0 =~= build_view(*old(self)).0.push(pid));
            assert(build_view(*self).1 =~= build_view(*old(self)).1.push(Seq::empty()));
        }
        id
    }

    /// Lets each position of `from` be followed by each of `to`.
    fn link(&mut self, from: &Vec<u32>, to: &Vec<u32>)
        requires
            graph_wf(old(self).follow@),
            rows_distinct(old(self).follow@),
            ids_below(from@, old(self).follow@.len() as int),
            ids_below(to@, old(self).follow@.len() as int),
        ensures
            graph_wf(final(self).follow@),
            rows_distinct(final(self).follow@),
            final(self).follow@.len() == old(self).follow@.len(),
            final(self).positions == old(self).positions,
            final(self).visiting@ == old(self).visiting@,
            final(self).approximated == old(self).approximated,
            follow_view(final(self).follow@) == linked(follow_view(old(self).follow@), from@, to@),
    {
        let ghost start = follow_view(self.follow@);
        let n = self.follow.len();
        let mut i: usize = 0;
        while i < from.len()
            invariant
                i <= from@.len(),
                n == self.follow@.len(),
                n == old(self).follow@.len(),
                graph_wf(self.follow@),
                rows_distinct(self.follow@),
                ids_below(from@, n as int),
                ids_below(to@, n as int),
                self.positions == old(self).positions,
                self.visiting@ == old(self).visiting@,
                self.approximated == old(self).approximated,
                start == follow_view(old(self).follow@),
                forall|f: int|
                    0 <= f < n ==> #[trigger] self.follow@[f]@ == if lists(from@.take(i as int), f) {
                        with_new_items(start[f], to@)
                    } else {
                        start[f]
                    },
            decreases from@.len() - i,
        {
            let f = from[i] as usize;
            assert(from@[i as int] < n);
            let ghost before = self.follow@;
            let mut row = copy_ids(&self.follow[f]);
            extend_unique(&mut row, to.as_slice());
            proof {
                assert(ids_below(before[f as int]@, n as int)) by {
                    assert forall|j: int| 0 <= j < before[f as int]@.len() implies (#[trigger] before[f as int]@[j])
                        < n by {
                    }
                }
                lemma_new_items_below(before[f as int]@, to@, n as int);
                lemma_new_items_distinct(before[f as int]@, to@);
            }
            self.follow.set(f, row);
            proof {
                assert forall|p: int, j: int|
                    0 <= p < self.follow@.len() && 0 <= j < self.follow@[p]@.len() implies (
                #[trigger] self.follow@[p]@[j]) < self.follow@.len() by {
                    if p != f as int {
                        assert(self.follow@[p] == before[p]);
                    }
                }
                assert forall|p: int| 0 <= p < self.follow@.len() implies (#[trigger] self.follow@[p])@.no_duplicates() by {
                    if p != f as int {
                        assert(self.follow@[p] == before[p]);
                    }
                }
                assert(from@.take(i + 1) =~= from@.take(i as int).push(from@[i as int]));
                assert forall|g: int| 0 <= g < n implies #[trigger] self.follow@[g]@ == if lists(
                    from@.take(i + 1),
                    g,
                ) {
                    with_new_items(start[g], to@)
                } else {
                    start[g]
                } by {
                    assert(start[g] == old(self).follow@[g]@);
                    if g == f as int {
                        assert(from@.take(i + 1)[i as int] as int == g);
                        assert(lists(from@.take(i + 1), g));
                        if lists(from@.take(i as int), g) {
                            lemma_new_items_twice(start[g], to@);
                        }
                    } else {
                        assert(self.follow@[g] == before[g]);
                        if lists(from@.take(i + 1), g) {
                            let q = choose|q: int| 0 <= q < from@.take(i + 1).len() && #[trigger] from@.take(i + 1)[q] as int == g;
                            assert(q < i);
                            assert(from@.take(i as int)[q] == from@.take(i + 1)[q]);
                        }
                        if lists(from@.take(i as int), g) {
                            let q = choose|q: int| 0 <= q < from@.take(i as int).len() && #[trigger] from@.take(i as int)[q] as int == g;
                            assert(from@.take(i + 1)[q] == from@.take(i as int)[q]);
                        }
                    }
                }
            }
            i += 1;
        }
        assert(from@.take(i as int) =~= from@);
        assert(follow_view(self.follow@) =~= linked(start, from@, to@));
    }
}

/// The first and last positions and the emptiness of a choice among `fs`.
pub open spec fn union_of(fs: Seq<FragView>) -> FragView
    decreases fs.len(),
{
    if fs.len() == 0 {
        (Seq::empty(), Seq::empty(), false)
    } else {
        let (f, l, n) = union_of(fs.drop_last());
        (with_new_items(f, fs.last().0), with_new_items(l, fs.last().1), n || fs.last().2)
    }
}

/// The values of fragments.
pub open spec fn frags_view(fs: Seq<Frag>) -> Seq<FragView> {
    fs.map_values(|f: Frag| frag_view(f))
}

/// A build as values: each position's particle, each position's
/// successors, whether a range was widened or a part left out, and the
/// group definitions being expanded.
pub type BuildView = (Seq<ParticleId>, Seq<Seq<u32>>, bool, Seq<GroupId>);

/// A builder's values.
pub open spec fn build_view(b: Builder) -> BuildView {
    (b.positions@.map_values(|p: Position| p.particle), follow_view(b.follow@), b.approximated, b.visiting@)
}

/// The fragment matching only the empty sequence.
pub open spec fn empty_frag() -> FragView {
    (Seq::empty(), Seq::empty(), true)
}

/// `st` marked as approximate.
pub open spec fn approximate(st: BuildView) -> BuildView {
    (st.0, st.1, true, st.3)
}

/// `a` followed by `b`, `b_optional` treating `b` as `b?`: the last
/// positions of `a` are followed by the first of `b`.
pub open spec fn concat_spec(st: BuildView, a: FragView, b: FragView, b_optional: bool) -> (BuildView, FragView) {
    (
        (st.0, linked(st.1, a.1, b.0), st.2, st.3),
        (
            if a.2 {
                with_new_items(a.0, b.0)
            } else {
                a.0
            },
            if b.2 || b_optional {
                with_new_items(b.1, a.1)
            } else {
                b.1
            },
            a.2 && (b.2 || b_optional),
        ),
    )
}

/// Building the term of particle `pid`: past the position cap, nothing,
/// and the model is approximate; an element or a wildcard, one new position
/// with no successors; a group, its model group; a reference to a group
/// definition, the definition's model group, unless the definition is
/// being expanded already; a group nested deeper than `depth`, nothing,
/// and the model is approximate.
pub open spec fn term_spec(s: Schemas, st: BuildView, pid: ParticleId, depth: nat) -> (BuildView, FragView)
    decreases depth, 1nat, 0nat,
{
    if st.0.len() >= MAX_POSITIONS {
        (approximate(st), empty_frag())
    } else {
        match s.particle_defs()[pid@ as int].term {
            Term::Element(_) => {
                let id = st.0.len() as u32;
                ((st.0.push(pid), st.1.push(Seq::empty()), st.2, st.3), (seq![id], seq![id], false))
            },
            Term::Wildcard(_) => {
                let id = st.0.len() as u32;
                ((st.0.push(pid), st.1.push(Seq::empty()), st.2, st.3), (seq![id], seq![id], false))
            },
            Term::Group(g) => if depth == 0 {
                (approximate(st), empty_frag())
            } else {
                model_group_spec(s, st, g.compositor, g.particles@, (depth - 1) as nat)
            },
            Term::GroupRef(gid) => if depth == 0 {
                (approximate(st), empty_frag())
            } else if st.3.contains(gid) {
                (st, empty_frag())
            } else {
                let g = s.group_defs()[gid@ as int].group;
                let (st2, f) = model_group_spec(
                    s,
                    (st.0, st.1, st.2, st.3.push(gid)),
                    g.compositor,
                    g.particles@,
                    (depth - 1) as nat,
                );
                ((st2.0, st2.1, st2.2, st.3), f)
            },
        }
    }
}

/// How many copies of a particle's term are built: the upper bound, or the
/// lower one (at least one) for an unbounded range, capped at `MAX_UNROLL`
/// and at what the positions left allow; and whether the range was widened,
/// and whether the model is approximate after that.
pub open spec fn copies_of(p: Particle, per_copy: nat, len: nat, approximated: bool) -> (nat, bool, bool) {
    let unbounded = p.max_occurs == MaxOccurs::Unbounded;
    let copies0: nat = match p.max_occurs {
        MaxOccurs::Unbounded => if p.min_occurs > 1 {
            p.min_occurs as nat
        } else {
            1
        },
        MaxOccurs::Bounded(n) => n as nat,
    };
    let (copies1, widened1, approx1) = if copies0 > MAX_UNROLL {
        (MAX_UNROLL as nat, true, true)
    } else {
        (copies0, unbounded, approximated)
    };
    let left: nat = if MAX_POSITIONS > len {
        (MAX_POSITIONS - len) as nat
    } else {
        0
    };
    if per_copy > 0 && copies1 > 1 && copies1 > left / per_copy + 1 {
        (
            if left / per_copy + 1 > 1 {
                left / per_copy + 1
            } else {
                1
            },
            true,
            true,
        )
    } else {
        (copies1, widened1, approx1)
    }
}

/// Building the copies of `pid`'s term from the `i`-th on, each after the
/// ones before, optional from the `min`-th on; with the fragment of the
/// last copy built, `latest` when no more are.
pub open spec fn copies_spec(
    s: Schemas,
    st: BuildView,
    pid: ParticleId,
    depth: nat,
    i: nat,
    copies: nat,
    min: nat,
    acc: FragView,
    latest: FragView,
) -> (BuildView, FragView, FragView)
    decreases depth, 1nat, copies + 1 - i,
{
    if i >= copies {
        (st, acc, latest)
    } else {
        let (st1, next) = term_spec(s, st, pid, depth);
        let (st2, acc2) = concat_spec(st1, acc, next, i >= min);
        copies_spec(s, st2, pid, depth, i + 1, copies, min, acc2, next)
    }
}

/// The copies built do not depend on which copy was last before them.
proof fn lemma_copies_latest(
    s: Schemas,
    st: BuildView,
    pid: ParticleId,
    depth: nat,
    i: nat,
    copies: nat,
    min: nat,
    acc: FragView,
    l1: FragView,
    l2: FragView,
)
    ensures
        copies_spec(s, st, pid, depth, i, copies, min, acc, l1).0 == copies_spec(s, st, pid, depth, i, copies, min, acc, l2).0,
        copies_spec(s, st, pid, depth, i, copies, min, acc, l1).1 == copies_spec(s, st, pid, depth, i, copies, min, acc, l2).1,
        i < copies ==> copies_spec(s, st, pid, depth, i, copies, min, acc, l1).2 == copies_spec(
            s,
            st,
            pid,
            depth,
            i,
            copies,
            min,
            acc,
            l2,
        ).2,
    decreases copies + 1 - i,
{
}

/// Building particle `pid`: nothing for `maxOccurs="0"`; otherwise its
/// term, then further copies as [`copies_of`] says, a widened range letting
/// its last copy repeat, so that it accepts every count from its lower
/// bound up, and a range starting at zero optional.
pub open spec fn particle_spec(s: Schemas, st: BuildView, pid: ParticleId, depth: nat) -> (BuildView, FragView)
    decreases depth, 2nat, 0nat,
{
    let p = s.particle_defs()[pid@ as int];
    if p.max_occurs == MaxOccurs::Bounded(0) {
        (st, empty_frag())
    } else {
        let (st1, acc) = term_spec(s, st, pid, depth);
        let (copies, widened, approximated) = copies_of(p, (st1.0.len() - st.0.len()) as nat, st1.0.len(), st1.2);
        let (st2, acc2, last_copy) = copies_spec(
            s,
            (st1.0, st1.1, approximated, st1.3),
            pid,
            depth,
            1,
            copies,
            p.min_occurs as nat,
            acc,
            acc,
        );
        let st3 = if widened {
            (st2.0, linked(st2.1, last_copy.1, last_copy.0), st2.2, st2.3)
        } else {
            st2
        };
        (
            st3,
            if p.min_occurs == 0 {
                (acc2.0, acc2.1, true)
            } else {
                acc2
            },
        )
    }
}

/// Building the particles of `ps` from the `k`-th on, each after the ones
/// before.
pub open spec fn sequence_spec(
    s: Schemas,
    st: BuildView,
    ps: Seq<ParticleId>,
    k: nat,
    acc: FragView,
    depth: nat,
) -> (BuildView, FragView)
    decreases depth, 3nat, ps.len() - k,
{
    if k >= ps.len() {
        (st, acc)
    } else {
        let (st1, f) = particle_spec(s, st, ps[k as int], depth);
        let (st2, acc2) = concat_spec(st1, acc, f, false);
        sequence_spec(s, st2, ps, k + 1, acc2, depth)
    }
}

/// Building each of the particles of `ps` from the `k`-th on, apart.
pub open spec fn particles_spec(
    s: Schemas,
    st: BuildView,
    ps: Seq<ParticleId>,
    k: nat,
    fs: Seq<FragView>,
    depth: nat,
) -> (BuildView, Seq<FragView>)
    decreases depth, 3nat, ps.len() - k,
{
    if k >= ps.len() {
        (st, fs)
    } else {
        let (st1, f) = particle_spec(s, st, ps[k as int], depth);
        particles_spec(s, st1, ps, k + 1, fs.push(f), depth)
    }
}

/// Building a model group: a sequence concatenates its particles; a choice
/// unites them, and an empty choice matches nothing; a nested `xs:all` is
/// approximated as a repeated choice.
pub open spec fn model_group_spec(
    s: Schemas,
    st: BuildView,
    compositor: Compositor,
    ps: Seq<ParticleId>,
    depth: nat,
) -> (BuildView, FragView)
    decreases depth, 4nat, 0nat,
{
    match compositor {
        Compositor::Sequence => sequence_spec(s, st, ps, 0, empty_frag(), depth),
        Compositor::Choice => if ps.len() == 0 {
            (st, (Seq::empty(), Seq::empty(), false))
        } else {
            let (st2, fs) = particles_spec(s, st, ps, 0, Seq::empty(), depth);
            (st2, union_of(fs))
        },
        Compositor::All => {
            let (st2, fs) = particles_spec(s, approximate(st), ps, 0, Seq::empty(), depth);
            let u = union_of(fs);
            ((st2.0, linked(st2.1, u.1, u.0), st2.2, st2.3), u)
        },
    }
}

/// How many positions a build holds.
pub open spec fn position_count(st: BuildView) -> nat {
    st.0.len()
}

/// Whether particle `pid` may match nothing: it may occur zero times, or
/// its term may match nothing. `visiting` lists the group definitions being
/// expanded, one met again inside itself matching nothing.
pub open spec fn particle_nullable(s: Schemas, pid: ParticleId, depth: nat, visiting: Seq<GroupId>) -> bool
    decreases depth, 2nat, 0nat,
{
    let p = s.particle_defs()[pid@ as int];
    p.min_occurs == 0 || p.max_occurs == MaxOccurs::Bounded(0) || term_nullable(s, pid, depth, visiting)
}

/// Whether the term of particle `pid` may match nothing: never an element
/// or a wildcard; a group or a referenced group definition by its
/// compositor.
pub open spec fn term_nullable(s: Schemas, pid: ParticleId, depth: nat, visiting: Seq<GroupId>) -> bool
    decreases depth, 1nat, 0nat,
{
    match s.particle_defs()[pid@ as int].term {
        Term::Element(_) => false,
        Term::Wildcard(_) => false,
        Term::Group(g) => depth == 0 || group_nullable(s, g.compositor, g.particles@, (depth - 1) as nat, visiting),
        Term::GroupRef(gid) => depth == 0 || visiting.contains(gid) || {
            let g = s.group_defs()[gid@ as int].group;
            group_nullable(s, g.compositor, g.particles@, (depth - 1) as nat, visiting.push(gid))
        },
    }
}

/// Whether a model group may match nothing: a sequence when every particle
/// may, a choice or an `xs:all` when one may.
pub open spec fn group_nullable(
    s: Schemas,
    compositor: Compositor,
    ps: Seq<ParticleId>,
    depth: nat,
    visiting: Seq<GroupId>,
) -> bool
    decreases depth, 4nat, 0nat,
{
    match compositor {
        Compositor::Sequence => all_nullable(s, ps, 0, depth, visiting),
        _ => any_nullable(s, ps, 0, depth, visiting),
    }
}

/// Whether every particle of `ps` from the `k`-th on may match nothing.
pub open spec fn all_nullable(s: Schemas, ps: Seq<ParticleId>, k: nat, depth: nat, visiting: Seq<GroupId>) -> bool
    decreases depth, 3nat, ps.len() - k,
{
    if k >= ps.len() {
        true
    } else {
        particle_nullable(s, ps[k as int], depth, visiting) && all_nullable(s, ps, k + 1, depth, visiting)
    }
}

/// Whether some particle of `ps` from the `k`-th on may match nothing.
pub open spec fn any_nullable(s: Schemas, ps: Seq<ParticleId>, k: nat, depth: nat, visiting: Seq<GroupId>) -> bool
    decreases depth, 3nat, ps.len() - k,
{
    if k >= ps.len() {
        false
    } else {
        particle_nullable(s, ps[k as int], depth, visiting) || any_nullable(s, ps, k + 1, depth, visiting)
    }
}

/// Building a term never clears the approximate mark nor changes the group
/// definitions being expanded, and, unless it reaches the position cap,
/// matches nothing exactly when the term may match nothing.
proof fn lemma_term_nullable(s: Schemas, st: BuildView, pid: ParticleId, depth: nat)
    ensures
        st.2 ==> term_spec(s, st, pid, depth).0.2,
        term_spec(s, st, pid, depth).0.3 == st.3,
        position_count(term_spec(s, st, pid, depth).0) >= position_count(st),
        position_count(term_spec(s, st, pid, depth).0) < MAX_POSITIONS ==> term_spec(s, st, pid, depth).1.2 == term_nullable(s, pid, depth, st.3),
    decreases depth, 1nat, 0nat,
{
    if st.0.len() < MAX_POSITIONS {
        match s.particle_defs()[pid@ as int].term {
            Term::Group(g) => if depth > 0 {
                lemma_group_nullable(s, st, g.compositor, g.particles@, (depth - 1) as nat);
            },
            Term::GroupRef(gid) => if depth > 0 && !st.3.contains(gid) {
                let g = s.group_defs()[gid@ as int].group;
                lemma_group_nullable(s, (st.0, st.1, st.2, st.3.push(gid)), g.compositor, g.particles@, (depth - 1) as nat);
            },
            _ => {},
        }
    }
}

/// The copies of a particle's term from the `i`-th on, each optional from
/// the `min`-th on, leave the fragment built so far able to match nothing
/// exactly when it could and either no copy is left, the term may match
/// nothing, or the first copy left is already optional.
proof fn lemma_copies_nullable(
    s: Schemas,
    st: BuildView,
    pid: ParticleId,
    depth: nat,
    i: nat,
    copies: nat,
    min: nat,
    acc: FragView,
    latest: FragView,
)
    ensures
        st.2 ==> copies_spec(s, st, pid, depth, i, copies, min, acc, latest).0.2,
        copies_spec(s, st, pid, depth, i, copies, min, acc, latest).0.3 == st.3,
        position_count(copies_spec(s, st, pid, depth, i, copies, min, acc, latest).0) >= position_count(st),
        position_count(copies_spec(s, st, pid, depth, i, copies, min, acc, latest).0) < MAX_POSITIONS ==> copies_spec(s, st, pid, depth, i, copies, min, acc, latest).1.2
            == (acc.2 && (i >= copies || term_nullable(s, pid, depth, st.3) || i >= min)),
    decreases depth, 1nat, copies + 1 - i,
{
    if i < copies {
        let (st1, next) = term_spec(s, st, pid, depth);
        lemma_term_nullable(s, st, pid, depth);
        let (st2, acc2) = concat_spec(st1, acc, next, i >= min);
        lemma_copies_nullable(s, st2, pid, depth, i + 1, copies, min, acc2, next);
    }
}

/// Building a particle keeps the approximate mark and the group definitions
/// being expanded, and, unless it reaches the position cap, matches
/// nothing exactly when the particle may.
proof fn lemma_particle_nullable(s: Schemas, st: BuildView, pid: ParticleId, depth: nat)
    ensures
        st.2 ==> particle_spec(s, st, pid, depth).0.2,
        particle_spec(s, st, pid, depth).0.3 == st.3,
        position_count(particle_spec(s, st, pid, depth).0) >= position_count(st),
        position_count(particle_spec(s, st, pid, depth).0) < MAX_POSITIONS ==> particle_spec(s, st, pid, depth).1.2 == particle_nullable(
            s,
            pid,
            depth,
            st.3,
        ),
    decreases depth, 2nat, 0nat,
{
    let p = s.particle_defs()[pid@ as int];
    if p.max_occurs != MaxOccurs::Bounded(0) {
        let (st1, acc) = term_spec(s, st, pid, depth);
        lemma_term_nullable(s, st, pid, depth);
        let (copies, widened, approximated) = copies_of(p, (st1.0.len() - st.0.len()) as nat, st1.0.len(), st1.2);
        lemma_copies_nullable(s, (st1.0, st1.1, approximated, st1.3), pid, depth, 1, copies, p.min_occurs as nat, acc, acc);
    }
}

/// Building the particles of `ps` from the `k`-th on as a sequence keeps the
/// approximate mark and the group definitions being expanded, and, unless
/// it makes the model approximate, matches nothing exactly when the
/// fragment so far could and every particle left may.
proof fn lemma_sequence_nullable(s: Schemas, st: BuildView, ps: Seq<ParticleId>, k: nat, acc: FragView, depth: nat)
    ensures
        st.2 ==> sequence_spec(s, st, ps, k, acc, depth).0.2,
        sequence_spec(s, st, ps, k, acc, depth).0.3 == st.3,
        position_count(sequence_spec(s, st, ps, k, acc, depth).0) >= position_count(st),
        position_count(sequence_spec(s, st, ps, k, acc, depth).0) < MAX_POSITIONS ==> sequence_spec(s, st, ps, k, acc, depth).1.2 == (acc.2
            && all_nullable(s, ps, k, depth, st.3)),
    decreases depth, 3nat, ps.len() - k,
{
    if k < ps.len() {
        let (st1, f) = particle_spec(s, st, ps[k as int], depth);
        lemma_particle_nullable(s, st, ps[k as int], depth);
        let (st2, acc2) = concat_spec(st1, acc, f, false);
        lemma_sequence_nullable(s, st2, ps, k + 1, acc2, depth);
    }
}

/// Building each particle of `ps` from the `k`-th on apart keeps the
/// approximate mark and the group definitions being expanded, and, unless
/// it makes the model approximate, the choice among all the fragments
/// matches nothing exactly when one built so far could or a particle left
/// may.
proof fn lemma_particles_nullable(s: Schemas, st: BuildView, ps: Seq<ParticleId>, k: nat, fs: Seq<FragView>, depth: nat)
    ensures
        st.2 ==> particles_spec(s, st, ps, k, fs, depth).0.2,
        particles_spec(s, st, ps, k, fs, depth).0.3 == st.3,
        position_count(particles_spec(s, st, ps, k, fs, depth).0) >= position_count(st),
        position_count(particles_spec(s, st, ps, k, fs, depth).0) < MAX_POSITIONS ==> union_of(particles_spec(s, st, ps, k, fs, depth).1).2 == (
        union_of(fs).2 || any_nullable(s, ps, k, depth, st.3)),
    decreases depth, 3nat, ps.len() - k,
{
    if k < ps.len() {
        let (st1, f) = particle_spec(s, st, ps[k as int], depth);
        lemma_particle_nullable(s, st, ps[k as int], depth);
        assert(fs.push(f).drop_last() =~= fs);
        lemma_particles_nullable(s, st1, ps, k + 1, fs.push(f), depth);
    }
}

/// Building a model group keeps the approximate mark and the group
/// definitions being expanded, and, unless it reaches the position cap,
/// matches nothing exactly when the group may.
proof fn lemma_group_nullable(s: Schemas, st: BuildView, compositor: Compositor, ps: Seq<ParticleId>, depth: nat)
    ensures
        st.2 ==> model_group_spec(s, st, compositor, ps, depth).0.2,
        model_group_spec(s, st, compositor, ps, depth).0.3 == st.3,
        position_count(model_group_spec(s, st, compositor, ps, depth).0) >= position_count(st),
        position_count(model_group_spec(s, st, compositor, ps, depth).0) < MAX_POSITIONS ==> model_group_spec(s, st, compositor, ps, depth).1.2
            == group_nullable(s, compositor, ps, depth, st.3),
    decreases depth, 4nat, 0nat,
{
    match compositor {
        Compositor::Sequence => lemma_sequence_nullable(s, st, ps, 0, empty_frag(), depth),
        Compositor::Choice => {
            lemma_particles_nullable(s, st, ps, 0, Seq::empty(), depth);
        },
        Compositor::All => {
            lemma_particles_nullable(s, approximate(st), ps, 0, Seq::empty(), depth);
        },
    }
}

/// A compiled content model that stays below the position cap accepts empty
/// content exactly when every particle of it may match nothing, widened
/// ranges and all: a particle may when
/// it may occur zero times or its term may; a sequence when each of its
/// particles may, a choice when one may; an element or a wildcard never;
/// a group definition met again inside itself, or a group nested deeper than
/// there are particles, matches nothing.
pub proof fn law_nullable_rule(s: Schemas, ps: Seq<ParticleId>)
    ensures
        position_count(compiled(s, ps).0) < MAX_POSITIONS ==> compiled(s, ps).1.2 == all_nullable(
            s,
            ps,
            0,
            s.particle_defs().len(),
            Seq::empty(),
        ),
{
    lemma_sequence_nullable(s, build_start(), ps, 0, empty_frag(), s.particle_defs().len());
}

/// Compiling never clears the approximate mark: once one particle's range
/// is widened or a part is left out, the whole model is approximate.
pub proof fn law_approximate_stays(s: Schemas, st: BuildView, ps: Seq<ParticleId>, k: nat, acc: FragView, depth: nat)
    ensures
        st.2 ==> sequence_spec(s, st, ps, k, acc, depth).0.2,
{
    lemma_sequence_nullable(s, st, ps, k, acc, depth);
}

/// A particle whose upper bound exceeds `MAX_UNROLL` is widened, and the
/// model is marked approximate (what the widened range still accepts:
/// [`law_element_range_counts`]).
pub proof fn law_wide_range_approximates(s: Schemas, st: BuildView, pid: ParticleId, depth: nat)
    requires
        s.particle_defs()[pid@ as int].max_occurs matches MaxOccurs::Bounded(n) && n > MAX_UNROLL,
    ensures
        particle_spec(s, st, pid, depth).0.2,
{
    let p = s.particle_defs()[pid@ as int];
    let (st1, acc) = term_spec(s, st, pid, depth);
    let (copies, widened, approximated) = copies_of(p, (st1.0.len() - st.0.len()) as nat, st1.0.len(), st1.2);
    assert(approximated);
    lemma_copies_nullable(s, (st1.0, st1.1, approximated, st1.3), pid, depth, 1, copies, p.min_occurs as nat, acc, acc);
}

/// Whether positions `xs`, read in order, are a walk through fragment `f`
/// under successor lists `follow`: none when `f` matches the empty
/// sequence, else from a start position, each followed by the next, to an
/// end position.
pub open spec fn walks(follow: Seq<Seq<u32>>, f: FragView, xs: Seq<u32>) -> bool {
    if xs.len() == 0 {
        f.2
    } else {
        &&& f.0.contains(xs[0])
        &&& f.1.contains(xs.last())
        &&& forall|i: int| 0 <= i < xs.len() - 1 ==> #[trigger] follow[xs[i] as int].contains(xs[i + 1])
    }
}

/// Linking keeps every successor and adds `to` after each position of
/// `from`.
proof fn lemma_linked_holds(follow: Seq<Seq<u32>>, from: Seq<u32>, to: Seq<u32>)
    ensures
        linked(follow, from, to).len() == follow.len(),
        forall|f: int, x: u32|
            0 <= f < follow.len() && follow[f].contains(x) ==> #[trigger] linked(follow, from, to)[f].contains(x),
        forall|f: int, x: u32|
            0 <= f < follow.len() && from.contains(f as u32) && f == f as u32 && to.contains(x)
                ==> #[trigger] linked(follow, from, to)[f].contains(x),
{
    assert forall|f: int, x: u32|
        0 <= f < follow.len() && follow[f].contains(x) implies #[trigger] linked(follow, from, to)[f].contains(x) by {
        if lists(from, f) {
            lemma_new_items_hold(follow[f], to);
            let k = choose|k: int| 0 <= k < follow[f].len() && follow[f][k] == x;
            assert(with_new_items(follow[f], to).contains(follow[f][k]));
        }
    }
    assert forall|f: int, x: u32|
        0 <= f < follow.len() && from.contains(f as u32) && f == f as u32 && to.contains(x)
            implies #[trigger] linked(follow, from, to)[f].contains(x) by {
        let i = choose|i: int| 0 <= i < from.len() && from[i] == f as u32;
        assert(from[i] as int == f);
        assert(lists(from, f));
        lemma_new_items_hold(follow[f], to);
        let k = choose|k: int| 0 <= k < to.len() && to[k] == x;
        assert(with_new_items(follow[f], to).contains(to[k]));
    }
}

/// The copies of an element or wildcard particle's term, from the `i`-th on: one new
/// position each, the `j`-th at `base + j`, each followed by the next, the
/// first the only start, and the last and every one from the `min`-th on
/// (counted from one) an end.
proof fn lemma_element_copies(
    s: Schemas,
    st: BuildView,
    pid: ParticleId,
    depth: nat,
    i: nat,
    copies: nat,
    min: nat,
    acc: FragView,
    latest: FragView,
    base: nat,
)
    requires
        pid@ < s.particle_defs().len(),
        s.particle_defs()[pid@ as int].term is Element || s.particle_defs()[pid@ as int].term is Wildcard,
        1 <= i <= copies,
        base + copies <= MAX_POSITIONS,
        st.0.len() == base + i,
        st.1.len() == st.0.len(),
        acc.0 == seq![base as u32],
        !acc.2,
        latest == (seq![(base + i - 1) as u32], seq![(base + i - 1) as u32], false),
        forall|j: nat| j < i && (j + 1 == i || j + 1 >= min) ==> acc.1.contains(#[trigger] ((base + j) as u32)),
        forall|j: nat| j + 1 < i ==> (#[trigger] st.1[(base + j) as int]).contains((base + j + 1) as u32),
        forall|j: int| base <= j < st.0.len() ==> st.0[j] == pid,
    ensures
        ({
            let r = copies_spec(s, st, pid, depth, i, copies, min, acc, latest);
            &&& r.0.0.len() == base + copies
            &&& r.0.1.len() == base + copies
            &&& r.1.0 == seq![base as u32]
            &&& !r.1.2
            &&& r.2 == (seq![(base + copies - 1) as u32], seq![(base + copies - 1) as u32], false)
            &&& forall|j: nat|
                j < copies && (j + 1 == copies || j + 1 >= min) ==> r.1.1.contains(#[trigger] ((base + j) as u32))
            &&& forall|j: nat| j + 1 < copies ==> (#[trigger] r.0.1[(base + j) as int]).contains((base + j + 1) as u32)
            &&& forall|j: int| base <= j < r.0.0.len() ==> r.0.0[j] == pid
        }),
    decreases copies - i,
{
    if i < copies {
        let (st1, next) = term_spec(s, st, pid, depth);
        let id = (base + i) as u32;
        assert(st1 == (st.0.push(pid), st.1.push(Seq::<u32>::empty()), st.2, st.3));
        assert(next == (seq![id], seq![id], false));
        let (st2, acc2) = concat_spec(st1, acc, next, i >= min);
        lemma_linked_holds(st1.1, acc.1, next.0);
        assert(seq![id].contains(id)) by {
            assert(seq![id][0] == id);
        }
        assert forall|j: nat| j < i + 1 && (j + 1 == i + 1 || j + 1 >= min) implies acc2.1.contains(
            #[trigger] ((base + j) as u32),
        ) by {
            if i >= min {
                lemma_new_items_hold(seq![id], acc.1);
                if j < i {
                    let k = choose|k: int| 0 <= k < acc.1.len() && acc.1[k] == (base + j) as u32;
                    assert(with_new_items(seq![id], acc.1).contains(acc.1[k]));
                } else {
                    assert(seq![id][0] == id);
                    assert(with_new_items(seq![id], acc.1).contains(seq![id][0]));
                }
            } else {
                assert(j == i);
            }
        }
        assert forall|j: nat| j + 1 < i + 1 implies (#[trigger] st2.1[(base + j) as int]).contains((base + j + 1) as u32) by {
            if j + 1 < i {
                assert(st1.1[(base + j) as int] == st.1[(base + j) as int]);
                assert(st1.1[(base + j) as int].contains((base + j + 1) as u32));
            } else {
                assert(j + 1 == i);
                assert(acc.1.contains(((base + j) as u32)));
                assert((base + j) as u32 as int == base + j);
            }
        }
        assert(st2.0 == st1.0);
        lemma_element_copies(s, st2, pid, depth, i + 1, copies, min, acc2, next, base);
    }
}

/// An element or wildcard particle accepts every count its range admits:
/// for each `k` from `minOccurs` up to `maxOccurs` (every `k` from
/// `minOccurs` on when unbounded), its fragment has a walk of `k` positions, each one of that
/// particle. A range cut down to `MAX_UNROLL` copies, or to the positions
/// left, lets its last copy repeat, so the counts past the cut are still
/// accepted: widening accepts more than the range, never less.
pub proof fn law_element_range_counts(s: Schemas, st: BuildView, pid: ParticleId, depth: nat, k: nat)
    requires
        pid@ < s.particle_defs().len(),
        s.particle_defs()[pid@ as int].term is Element || s.particle_defs()[pid@ as int].term is Wildcard,
        s.particle_defs()[pid@ as int].max_occurs != MaxOccurs::Bounded(0),
        st.0.len() < MAX_POSITIONS,
        st.1.len() == st.0.len(),
        s.particle_defs()[pid@ as int].min_occurs <= k,
        s.particle_defs()[pid@ as int].max_occurs matches MaxOccurs::Bounded(n) ==> k <= n,
    ensures
        exists|xs: Seq<u32>|
            {
                &&& xs.len() == k
                &&& #[trigger] walks(particle_spec(s, st, pid, depth).0.1, particle_spec(s, st, pid, depth).1, xs)
                &&& forall|i: int|
                    0 <= i < xs.len() ==> xs[i] < particle_spec(s, st, pid, depth).0.0.len()
                        && particle_spec(s, st, pid, depth).0.0[xs[i] as int] == pid
            },
{
    let p = s.particle_defs()[pid@ as int];
    let base = st.0.len();
    let (st1, acc) = term_spec(s, st, pid, depth);
    assert(st1 == (st.0.push(pid), st.1.push(Seq::<u32>::empty()), st.2, st.3));
    assert(acc == (seq![base as u32], seq![base as u32], false));
    let (copies, widened, approximated) = copies_of(p, (st1.0.len() - st.0.len()) as nat, st1.0.len(), st1.2);
    let stc = (st1.0, st1.1, approximated, st1.3);
    assert(seq![base as u32].contains(((base + 0) as u32))) by {
        assert(seq![base as u32][0] == base as u32);
    }
    lemma_element_copies(s, stc, pid, depth, 1, copies, p.min_occurs as nat, acc, acc, base);
    let (st2, acc2, last_copy) = copies_spec(s, stc, pid, depth, 1, copies, p.min_occurs as nat, acc, acc);
    let st3 = if widened {
        (st2.0, linked(st2.1, last_copy.1, last_copy.0), st2.2, st2.3)
    } else {
        st2
    };
    let f = if p.min_occurs == 0 {
        (acc2.0, acc2.1, true)
    } else {
        acc2
    };
    assert(particle_spec(s, st, pid, depth) == (st3, f));
    let c = copies;
    let xs = Seq::new(k, |i: int| (if i < c - 1 { base + i } else { base + c - 1 }) as u32);
    lemma_linked_holds(st2.1, last_copy.1, last_copy.0);
    assert(!widened ==> k <= c);
    if k > 0 {
        let j: nat = if k - 1 < c - 1 { (k - 1) as nat } else { (c - 1) as nat };
        assert(xs.last() == (base + j) as u32);
        assert(acc2.1.contains(((base + j) as u32)));
        assert(f.0.contains(xs[0])) by {
            assert(seq![base as u32][0] == base as u32);
        }
        assert forall|i: int| 0 <= i < xs.len() - 1 implies #[trigger] st3.1[xs[i] as int].contains(xs[i + 1]) by {
            if i + 1 < c {
                let jj = i as nat;
                assert(st2.1[(base + jj) as int].contains((base + jj + 1) as u32));
            } else {
                assert(widened);
                let l = (base + c - 1) as u32;
                assert(last_copy.1 == seq![l]);
                assert(seq![l][0] == l);
                assert(xs[i] == l && xs[i + 1] == l);
                assert(l as int == base + c - 1);
            }
        }
    }
    assert(walks(st3.1, f, xs));
    assert(forall|i: int| 0 <= i < xs.len() ==> xs[i] < st3.0.len() && st3.0[xs[i] as int] == pid);
    assert(particle_spec(s, st, pid, depth).0 == st3);
    assert(particle_spec(s, st, pid, depth).1 == f);
    assert(xs.len() == k);
    assert(walks(particle_spec(s, st, pid, depth).0.1, particle_spec(s, st, pid, depth).1, xs));
}

/// A content model of one element or wildcard particle accepts every count
/// its range admits, widened or not: for each `k` from `minOccurs`
/// up to `maxOccurs`, the compiled automaton has a walk of `k` positions,
/// each one of that particle.
pub proof fn law_lone_element_counts(s: Schemas, pid: ParticleId, k: nat)
    requires
        pid@ < s.particle_defs().len(),
        s.particle_defs()[pid@ as int].term is Element || s.particle_defs()[pid@ as int].term is Wildcard,
        s.particle_defs()[pid@ as int].max_occurs != MaxOccurs::Bounded(0),
        s.particle_defs()[pid@ as int].min_occurs <= k,
        s.particle_defs()[pid@ as int].max_occurs matches MaxOccurs::Bounded(n) ==> k <= n,
    ensures
        exists|xs: Seq<u32>|
            {
                &&& xs.len() == k
                &&& #[trigger] walks(compiled(s, seq![pid]).0.1, compiled(s, seq![pid]).1, xs)
                &&& forall|i: int|
                    0 <= i < xs.len() ==> xs[i] < compiled(s, seq![pid]).0.0.len()
                        && compiled(s, seq![pid]).0.0[xs[i] as int] == pid
            },
{
    let ps = seq![pid];
    let d = s.particle_defs().len();
    law_element_range_counts(s, build_start(), pid, d, k);
    let (st1, f) = particle_spec(s, build_start(), pid, d);
    let xs = choose|xs: Seq<u32>|
        {
            &&& xs.len() == k
            &&& #[trigger] walks(particle_spec(s, build_start(), pid, d).0.1, particle_spec(s, build_start(), pid, d).1, xs)
            &&& forall|i: int|
                0 <= i < xs.len() ==> xs[i] < particle_spec(s, build_start(), pid, d).0.0.len()
                    && particle_spec(s, build_start(), pid, d).0.0[xs[i] as int] == pid
        };
    let (st2, acc2) = concat_spec(st1, empty_frag(), f, false);
    assert(ps[0] == pid);
    assert(sequence_spec(s, st2, ps, 1, acc2, d) == (st2, acc2));
    assert(compiled(s, ps) == (st2, acc2));
    assert(st2.1 =~= st1.1);
    assert(acc2.1 == f.1);
    assert(acc2.2 == f.2);
    if k > 0 {
        lemma_new_items_hold(Seq::<u32>::empty(), f.0);
        let j = choose|j: int| 0 <= j < f.0.len() && f.0[j] == xs[0];
        assert(acc2.0.contains(f.0[j]));
    }
    assert(walks(compiled(s, ps).0.1, compiled(s, ps).1, xs));
}

/// Whether `v` holds `g`.
fn holds_group(v: &Vec<GroupId>, g: GroupId) -> (r: bool)
    ensures
        r == v@.contains(g),
{
    let mut k: usize = 0;
    while k < v.len()
        invariant
            k <= v@.len(),
            forall|j: int| 0 <= j < k ==> v@[j] != g,
        decreases v@.len() - k,
    {
        if v[k] == g {
            return true;
        }
        k += 1;
    }
    false
}

/// A copy of the particle ids `v`.
fn copy_pids(v: &Vec<ParticleId>) -> (r: Vec<ParticleId>)
    ensures
        r@ == v@,
{
    let mut r: Vec<ParticleId> = Vec::new();
    let mut i: usize = 0;
    while i < v.len()
        invariant
            i <= v@.len(),
            r@ == v@.take(i as int),
        decreases v@.len() - i,
    {
        r.push(v[i]);
        assert(v@.take(i + 1) =~= v@.take(i as int).push(v@[i as int]));
        i += 1;
    }
    assert(v@.take(i as int) =~= v@);
    r
}

impl Builder {
    /// `a` followed by `b`; `b_optional` treats `b` as `b?`.
    fn concat(&mut self, a: Frag, b: Frag, b_optional: bool) -> (r: Frag)
        requires
            graph_wf(old(self).follow@),
            rows_distinct(old(self).follow@),
            frag_wf(a, old(self).follow@.len()),
            frag_wf(b, old(self).follow@.len()),
        ensures
            graph_wf(final(self).follow@),
            rows_distinct(final(self).follow@),
            final(self).follow@.len() == old(self).follow@.len(),
            final(self).positions == old(self).positions,
            final(self).visiting@ == old(self).visiting@,
            final(self).approximated == old(self).approximated,
            frag_wf(r, old(self).follow@.len()),
            r.first@ == if a.nullable {
                with_new_items(a.first@, b.first@)
            } else {
                a.first@
            },
            r.last@ == if b.nullable || b_optional {
                with_new_items(b.last@, a.last@)
            } else {
                b.last@
            },
            r.nullable == (a.nullable && (b.nullable || b_optional)),
            (build_view(*final(self)), frag_view(r)) == concat_spec(
                build_view(*old(self)),
                frag_view(a),
                frag_view(b),
                b_optional,
            ),
    {
        let ghost n = self.follow@.len();
        self.link(&a.last, &b.first);
        let b_nullable = b.nullable || b_optional;
        let mut first = copy_ids(&a.first);
        if a.nullable {
            extend_unique(&mut first, b.first.as_slice());
        }
        let mut last = copy_ids(&b.last);
        if b_nullable {
            extend_unique(&mut last, a.last.as_slice());
        }
        proof {
            lemma_new_items_below(a.first@, b.first@, n as int);
            lemma_new_items_below(b.last@, a.last@, n as int);
            lemma_new_items_distinct(a.first@, b.first@);
            lemma_new_items_distinct(b.last@, a.last@);
        }
        Frag { first, last, nullable: a.nullable && b_nullable }
    }

    /// Any one of `frags`.
    fn union(&self, frags: &Vec<Frag>) -> (r: Frag)
        requires
            forall|k: int| 0 <= k < frags@.len() ==> frag_wf(#[trigger] frags@[k], self.follow@.len()),
        ensures
            frag_view(r) == union_of(frags_view(frags@)),
            frag_wf(r, self.follow@.len()),
    {
        let ghost n = self.follow@.len();
        let mut out = Frag { first: Vec::new(), last: Vec::new(), nullable: false };
        let mut k: usize = 0;
        assert(frags@.take(0) =~= Seq::<Frag>::empty());
        assert(frags_view(frags@.take(0)) =~= Seq::<FragView>::empty());
        while k < frags.len()
            invariant
                k <= frags@.len(),
                n == self.follow@.len(),
                forall|j: int| 0 <= j < frags@.len() ==> frag_wf(#[trigger] frags@[j], n),
                frag_view(out) == union_of(frags_view(frags@.take(k as int))),
                frag_wf(out, n),
            decreases frags@.len() - k,
        {
            let f = &frags[k];
            assert(frag_wf(*f, n));
            proof {
                lemma_new_items_below(out.first@, f.first@, n as int);
                lemma_new_items_below(out.last@, f.last@, n as int);
                lemma_new_items_distinct(out.first@, f.first@);
                lemma_new_items_distinct(out.last@, f.last@);
                assert(frags_view(frags@.take(k + 1)).drop_last() =~= frags_view(frags@.take(k as int)));
                assert(frags_view(frags@.take(k + 1)).last() == frag_view(*f));
            }
            extend_unique(&mut out.first, f.first.as_slice());
            extend_unique(&mut out.last, f.last.as_slice());
            out.nullable = out.nullable || f.nullable;
            k += 1;
        }
        assert(frags@.take(k as int) =~= frags@);
        out
    }

    /// Builds a particle, unrolling its occurrence range: up to
    /// `MAX_UNROLL` copies of its term, and no more than the positions left
    /// allow; a range cut short, or unbounded, lets its last copy repeat,
    /// looping that copy's end back to its start, so that every count from
    /// the lower bound up is accepted: more than the range, never less.
    fn particle(&mut self, s: &Schemas, pid: ParticleId, depth: usize) -> (r: Frag)
        requires
            built_wf(*s, old(self).positions@, old(self).follow@),
            pid@ < s.particle_defs().len(),
            particle_refs_held(*s),
        ensures
            built_wf(*s, final(self).positions@, final(self).follow@),
            final(self).positions@.len() >= old(self).positions@.len(),
            frag_wf(r, final(self).positions@.len()),
            final(self).visiting@ == old(self).visiting@,
            old(self).approximated ==> final(self).approximated,
            (build_view(*final(self)), frag_view(r)) == particle_spec(*s, build_view(*old(self)), pid, depth as nat),
        decreases depth, 2nat,
    {
        let p = match s.get_particle(pid) {
            Some(p) => p,
            None => return Frag::empty(),
        };
        let min = p.min_occurs;
        let max = p.max_occurs;
        if max == MaxOccurs::Bounded(0) {
            return Frag::empty();
        }
        let before = self.positions.len();
        let mut acc = self.term(s, pid, depth);
        let ghost st1 = build_view(*self);
        let ghost acc0 = frag_view(acc);
        let per_copy = self.positions.len() - before;
        let unbounded = max == MaxOccurs::Unbounded;
        let mut copies: u32 = match max {
            MaxOccurs::Unbounded => if min > 1 {
                min
            } else {
                1
            },
            MaxOccurs::Bounded(n) => n,
        };
        let mut widened = unbounded;
        if copies > MAX_UNROLL {
            copies = MAX_UNROLL;
            widened = true;
            self.approximated = true;
        }
        if per_copy > 0 && copies > 1 {
            let left: usize = if MAX_POSITIONS > self.positions.len() {
                MAX_POSITIONS - self.positions.len()
            } else {
                0
            };
            let room = left / per_copy + 1;
            if copies as usize > room {
                copies = if room > 1 {
                    room as u32
                } else {
                    1
                };
                widened = true;
                self.approximated = true;
            }
        }
        let ghost target = copies_spec(
            *s,
            (st1.0, st1.1, self.approximated, st1.3),
            pid,
            depth as nat,
            1,
            copies as nat,
            min as nat,
            acc0,
            acc0,
        );
        proof {
            assert((copies as nat, widened, self.approximated) == copies_of(
                *p,
                per_copy as nat,
                st1.0.len(),
                st1.2,
            ));
            assert(build_view(*self) == (st1.0, st1.1, self.approximated, st1.3));
        }
        let mut latest_first = copy_ids(&acc.first);
        let mut latest_last = copy_ids(&acc.last);
        let mut i: u32 = 1;
        while i < copies
            invariant
                copies_spec(
                    *s,
                    build_view(*self),
                    pid,
                    depth as nat,
                    i as nat,
                    copies as nat,
                    min as nat,
                    frag_view(acc),
                    (latest_first@, latest_last@, true),
                ).0 == target.0,
                copies_spec(
                    *s,
                    build_view(*self),
                    pid,
                    depth as nat,
                    i as nat,
                    copies as nat,
                    min as nat,
                    frag_view(acc),
                    (latest_first@, latest_last@, true),
                ).1 == target.1,
                copies_spec(
                    *s,
                    build_view(*self),
                    pid,
                    depth as nat,
                    i as nat,
                    copies as nat,
                    min as nat,
                    frag_view(acc),
                    (latest_first@, latest_last@, true),
                ).2.0 == target.2.0,
                copies_spec(
                    *s,
                    build_view(*self),
                    pid,
                    depth as nat,
                    i as nat,
                    copies as nat,
                    min as nat,
                    frag_view(acc),
                    (latest_first@, latest_last@, true),
                ).2.1 == target.2.1,
                built_wf(*s, self.positions@, self.follow@),
                self.positions@.len() >= old(self).positions@.len(),
                frag_wf(acc, self.positions@.len()),
                ids_below(latest_first@, self.positions@.len() as int),
                ids_below(latest_last@, self.positions@.len() as int),
                self.visiting@ == old(self).visiting@,
                old(self).approximated ==> self.approximated,
                pid@ < s.particle_defs().len(),
                particle_refs_held(*s),
            decreases copies - i,
        {
            let next = self.term(s, pid, depth);
            latest_first = copy_ids(&next.first);
            latest_last = copy_ids(&next.last);
            let ghost nv = frag_view(next);
            acc = self.concat(acc, next, i >= min);
            proof {
                lemma_copies_latest(
                    *s,
                    build_view(*self),
                    pid,
                    depth as nat,
                    (i + 1) as nat,
                    copies as nat,
                    min as nat,
                    frag_view(acc),
                    nv,
                    (latest_first@, latest_last@, true),
                );
            }
            i += 1;
        }
        if widened {
            self.link(&latest_last, &latest_first);
        }
        if min == 0 {
            acc.nullable = true;
        }
        acc
    }

    /// Builds a particle's term, ignoring its occurrence range. Past the
    /// position cap, or nested deeper than `depth`, nothing is built and the
    /// model is marked approximate; a group definition met again inside
    /// itself builds nothing.
    fn term(&mut self, s: &Schemas, pid: ParticleId, depth: usize) -> (r: Frag)
        requires
            built_wf(*s, old(self).positions@, old(self).follow@),
            pid@ < s.particle_defs().len(),
            particle_refs_held(*s),
        ensures
            built_wf(*s, final(self).positions@, final(self).follow@),
            final(self).positions@.len() >= old(self).positions@.len(),
            frag_wf(r, final(self).positions@.len()),
            final(self).visiting@ == old(self).visiting@,
            old(self).approximated ==> final(self).approximated,
            (build_view(*final(self)), frag_view(r)) == term_spec(*s, build_view(*old(self)), pid, depth as nat),
        decreases depth, 1nat,
    {
        if self.positions.len() >= MAX_POSITIONS {
            self.approximated = true;
            return Frag::empty();
        }
        let p = match s.get_particle(pid) {
            Some(p) => p,
            None => return Frag::empty(),
        };
        proof {
            assert(term_held(*s, s.particle_defs()[pid@ as int].term));
        }
        match &p.term {
            Term::Element(e) => {
                let id = self.add_position(s, pid, Label::Element(*e));
                let r = Frag { first: vec![id], last: vec![id], nullable: false };
                assert(frag_view(r) =~= (seq![id], seq![id], false));
                r
            },
            Term::Wildcard(_) => {
                let id = self.add_position(s, pid, Label::Wildcard);
                let r = Frag { first: vec![id], last: vec![id], nullable: false };
                assert(frag_view(r) =~= (seq![id], seq![id], false));
                r
            },
            Term::Group(g) => {
                if depth == 0 {
                    self.approximated = true;
                    return Frag::empty();
                }
                let ps = copy_pids(&g.particles);
                self.model_group(s, g.compositor, &ps, depth - 1)
            },
            Term::GroupRef(gid) => {
                if depth == 0 {
                    self.approximated = true;
                    return Frag::empty();
                }
                if holds_group(&self.visiting, *gid) {
                    return Frag::empty();
                }
                let def = match s.get_model_group(*gid) {
                    Some(d) => d,
                    None => return Frag::empty(),
                };
                proof {
                    assert(ids_held(s.group_defs()[gid@ as int].group.particles@, s.particle_defs().len()));
                }
                let ps = copy_pids(&def.group.particles);
                let ghost vis = self.visiting@;
                self.visiting.push(*gid);
                let f = self.model_group(s, def.group.compositor, &ps, depth - 1);
                self.visiting.pop();
                assert(self.visiting@ =~= vis);
                f
            },
        }
    }

    /// Builds a model group: a sequence concatenates its particles, a choice
    /// unites them, and a nested `xs:all` is approximated as a repeated
    /// choice.
    fn model_group(&mut self, s: &Schemas, compositor: Compositor, ps: &Vec<ParticleId>, depth: usize) -> (r: Frag)
        requires
            built_wf(*s, old(self).positions@, old(self).follow@),
            ids_held(ps@, s.particle_defs().len()),
            particle_refs_held(*s),
        ensures
            built_wf(*s, final(self).positions@, final(self).follow@),
            final(self).positions@.len() >= old(self).positions@.len(),
            frag_wf(r, final(self).positions@.len()),
            final(self).visiting@ == old(self).visiting@,
            old(self).approximated ==> final(self).approximated,
            (build_view(*final(self)), frag_view(r)) == model_group_spec(
                *s,
                build_view(*old(self)),
                compositor,
                ps@,
                depth as nat,
            ),
        decreases depth, 4nat,
    {
        match compositor {
            Compositor::Sequence => {
                let mut acc = Frag::empty();
                let mut k: usize = 0;
                while k < ps.len()
                    invariant
                        sequence_spec(*s, build_view(*self), ps@, k as nat, frag_view(acc), depth as nat)
                            == sequence_spec(*s, build_view(*old(self)), ps@, 0, empty_frag(), depth as nat),
                        k <= ps@.len(),
                        built_wf(*s, self.positions@, self.follow@),
                        self.positions@.len() >= old(self).positions@.len(),
                        frag_wf(acc, self.positions@.len()),
                        self.visiting@ == old(self).visiting@,
                        old(self).approximated ==> self.approximated,
                        ids_held(ps@, s.particle_defs().len()),
                        particle_refs_held(*s),
                    decreases ps@.len() - k,
                {
                    let f = self.particle(s, ps[k], depth);
                    acc = self.concat(acc, f, false);
                    k += 1;
                }
                acc
            },
            Compositor::Choice => {
                if ps.len() == 0 {
                    let r = Frag { first: Vec::new(), last: Vec::new(), nullable: false };
                    assert(frag_view(r) =~= (Seq::empty(), Seq::empty(), false));
                    return r;
                }
                let frags = self.particles_of(s, ps, depth);
                self.union(&frags)
            },
            Compositor::All => {
                self.approximated = true;
                let frags = self.particles_of(s, ps, depth);
                let f = self.union(&frags);
                let first = copy_ids(&f.first);
                let last = copy_ids(&f.last);
                self.link(&last, &first);
                f
            },
        }
    }

    /// Builds each of `ps`, in order.
    fn particles_of(&mut self, s: &Schemas, ps: &Vec<ParticleId>, depth: usize) -> (r: Vec<Frag>)
        requires
            built_wf(*s, old(self).positions@, old(self).follow@),
            ids_held(ps@, s.particle_defs().len()),
            particle_refs_held(*s),
        ensures
            built_wf(*s, final(self).positions@, final(self).follow@),
            final(self).positions@.len() >= old(self).positions@.len(),
            forall|k: int| 0 <= k < r@.len() ==> frag_wf(#[trigger] r@[k], final(self).positions@.len()),
            final(self).visiting@ == old(self).visiting@,
            old(self).approximated ==> final(self).approximated,
            (build_view(*final(self)), frags_view(r@)) == particles_spec(
                *s,
                build_view(*old(self)),
                ps@,
                0,
                Seq::empty(),
                depth as nat,
            ),
        decreases depth, 3nat,
    {
        let mut frags: Vec<Frag> = Vec::new();
        let mut k: usize = 0;
        assert(frags_view(frags@) =~= Seq::<FragView>::empty());
        while k < ps.len()
            invariant
                particles_spec(*s, build_view(*self), ps@, k as nat, frags_view(frags@), depth as nat)
                    == particles_spec(*s, build_view(*old(self)), ps@, 0, Seq::empty(), depth as nat),
                k <= ps@.len(),
                built_wf(*s, self.positions@, self.follow@),
                self.positions@.len() >= old(self).positions@.len(),
                forall|j: int| 0 <= j < frags@.len() ==> frag_wf(#[trigger] frags@[j], self.positions@.len()),
                self.visiting@ == old(self).visiting@,
                old(self).approximated ==> self.approximated,
                ids_held(ps@, s.particle_defs().len()),
                particle_refs_held(*s),
            decreases ps@.len() - k,
        {
            let f = self.particle(s, ps[k], depth);
            let ghost before = frags@;
            frags.push(f);
            assert(frags_view(frags@) =~= frags_view(before).push(frag_view(f)));
            k += 1;
        }
        frags
    }
}

impl ContentAutomaton {
    /// Assembles an automaton from parts that describe one.
    pub(crate) fn assemble(
        positions: Vec<Position>,
        first: Vec<u32>,
        follow: Vec<Vec<u32>>,
        last: Vec<u32>,
        nullable: bool,
        approximated: bool,
    ) -> (r: ContentAutomaton)
        requires
            automaton_wf(
                AutomatonView {
                    positions: positions@,
                    first: first@,
                    follow: follow@,
                    last: last@,
                    nullable,
                    approximated,
                },
            ),
        ensures
            r@ == (AutomatonView {
                positions: positions@,
                first: first@,
                follow: follow@,
                last: last@,
                nullable,
                approximated,
            }),
    {
        ContentAutomaton { positions, first, follow, last, nullable, approximated }
    }
}

/// The particles of `ps` that may be members of an `xs:all`: element and
/// wildcard particles, in order.
pub open spec fn all_member_particles(s: Schemas, ps: Seq<ParticleId>) -> Seq<ParticleId>
    decreases ps.len(),
{
    if ps.len() == 0 {
        Seq::empty()
    } else {
        let prev = all_member_particles(s, ps.drop_last());
        match s.particle_defs()[ps.last()@ as int].term {
            Term::Element(_) => prev.push(ps.last()),
            Term::Wildcard(_) => prev.push(ps.last()),
            _ => prev,
        }
    }
}

/// Whether `m` is the member of an `xs:all` for particle `pid`: its label,
/// what it admits, and its occurrence bounds.
pub open spec fn member_of(s: Schemas, m: AllMember, pid: ParticleId) -> bool {
    let p = s.particle_defs()[pid@ as int];
    &&& m.particle == pid
    &&& m.min_occurs == p.min_occurs
    &&& m.max_occurs == p.max_occurs
    &&& match p.term {
        Term::Element(e) => m.label == Label::Element(e) && m.admits@ == s.substitutes_of(e),
        Term::Wildcard(_) => m.label == Label::Wildcard && m.admits@.len() == 0,
        _ => false,
    }
}

/// Whether `g` holds a member for each of the particles of `ps` that may
/// be one, in order.
pub open spec fn all_group_of(s: Schemas, g: AllGroup, ps: Seq<ParticleId>) -> bool {
    let ms = all_member_particles(s, ps);
    &&& g.members@.len() == ms.len()
    &&& forall|k: int| 0 <= k < ms.len() ==> member_of(s, #[trigger] g.members@[k], ms[k])
}

/// The counters for an `xs:all` group's members; only element and wildcard
/// particles may be members.
pub fn build_all_group(s: &Schemas, ps: &Vec<ParticleId>) -> (r: AllGroup)
    requires
        ids_held(ps@, s.particle_defs().len()),
        particle_refs_held(*s),
    ensures
        all_group_of(*s, r, ps@),
{
    let mut members: Vec<AllMember> = Vec::new();
    let mut k: usize = 0;
    assert(ps@.take(0) =~= Seq::<ParticleId>::empty());
    while k < ps.len()
        invariant
            k <= ps@.len(),
            ids_held(ps@, s.particle_defs().len()),
            particle_refs_held(*s),
            all_group_of(*s, AllGroup { members }, ps@.take(k as int)),
        decreases ps@.len() - k,
    {
        let pid = ps[k];
        proof {
            assert(ps@.take(k + 1).drop_last() =~= ps@.take(k as int));
            assert(ps@.take(k + 1).last() == pid);
        }
        let p = match s.get_particle(pid) {
            Some(p) => p,
            None => {
                k += 1;
                continue;
            },
        };
        proof {
            assert(term_held(*s, s.particle_defs()[pid@ as int].term));
        }
        let label = match &p.term {
            Term::Element(e) => Label::Element(*e),
            Term::Wildcard(_) => Label::Wildcard,
            _ => {
                k += 1;
                continue;
            },
        };
        let admits = match &p.term {
            Term::Element(e) => s.substitutable_for(*e),
            _ => Vec::new(),
        };
        members.push(
            AllMember { particle: pid, label, admits, min_occurs: p.min_occurs, max_occurs: p.max_occurs },
        );
        k += 1;
    }
    assert(ps@.take(k as int) =~= ps@);
    AllGroup { members }
}

/// The members of the lone `xs:all` a model consists of, when it is one
/// occurring at most once: such a model is counted, not compiled.
pub open spec fn lone_all(s: Schemas, ps: Seq<ParticleId>) -> Option<Seq<ParticleId>> {
    if ps.len() == 1 {
        let p = s.particle_defs()[ps[0]@ as int];
        if p.max_occurs.spec_is_repeating() {
            None
        } else {
            match p.term {
                Term::Group(g) => if g.compositor == Compositor::All {
                    Some(g.particles@)
                } else {
                    None
                },
                Term::GroupRef(gid) => {
                    let g = s.group_defs()[gid@ as int].group;
                    if g.compositor == Compositor::All {
                        Some(g.particles@)
                    } else {
                        None
                    }
                },
                _ => None,
            }
        }
    } else {
        None
    }
}

/// The state a build starts from: no positions, nothing approximate, no
/// group definition being expanded.
pub open spec fn build_start() -> BuildView {
    (Seq::empty(), Seq::empty(), false, Seq::empty())
}

/// Building the particles of `ps` as one sequence from nothing, groups
/// nested no deeper than there are particles.
pub open spec fn compiled(s: Schemas, ps: Seq<ParticleId>) -> (BuildView, FragView) {
    sequence_spec(s, build_start(), ps, 0, empty_frag(), s.particle_defs().len())
}

/// Whether automaton `v` is the build `st` ending in fragment `f`: its
/// positions those of the particles `st` lists, its successor lists those
/// of `st`, its start and end positions and emptiness those of `f`, and it
/// is approximate exactly when `st` is.
pub open spec fn automaton_is(v: AutomatonView, st: BuildView, f: FragView) -> bool {
    &&& v.positions.map_values(|p: Position| p.particle) == st.0
    &&& follow_view(v.follow) == st.1
    &&& v.approximated == st.2
    &&& v.first == f.0
    &&& v.last == f.1
    &&& v.nullable == f.2
}

/// Whether `m` is what the particles `ps` compile to: member counters for
/// a lone `xs:all` occurring at most once, else the position automaton of
/// their sequence, every position one of a particle, and no start, end or
/// successor list naming a position twice.
pub open spec fn model_of(s: Schemas, ps: Seq<ParticleId>, m: ContentModel) -> bool {
    match lone_all(s, ps) {
        Some(members) => m matches ContentModel::All(g) && all_group_of(s, g, members),
        None => m matches ContentModel::Automaton(a) && automaton_wf(a@) && (forall|p: int|
            0 <= p < a@.positions.len() ==> position_of(s, #[trigger] a@.positions[p]))
            && automaton_is(a@, compiled(s, ps).0, compiled(s, ps).1) && a@.first.no_duplicates()
            && a@.last.no_duplicates() && rows_distinct(a@.follow),
    }
}

/// Compiles the particles of one content model, in order: a lone `xs:all`
/// occurring at most once into member counters, anything else into the
/// position automaton of their sequence, every position one of a particle,
/// and no start, end or successor list naming a position twice.
pub fn build_one(s: &Schemas, ps: &Vec<ParticleId>) -> (r: ContentModel)
    requires
        ids_held(ps@, s.particle_defs().len()),
        particle_refs_held(*s),
    ensures
        model_of(*s, ps@, r),
{
    if ps.len() == 1 {
        let p = match s.get_particle(ps[0]) {
            Some(p) => p,
            None => return ContentModel::Empty,
        };
        proof {
            assert(term_held(*s, s.particle_defs()[ps[0]@ as int].term));
        }
        if !p.max_occurs.is_repeating() {
            match &p.term {
                Term::Group(g) => if g.compositor == Compositor::All {
                    return ContentModel::All(build_all_group(s, &g.particles));
                },
                Term::GroupRef(gid) => match s.get_model_group(*gid) {
                    Some(def) => if def.group.compositor == Compositor::All {
                        proof {
                            assert(ids_held(s.group_defs()[gid@ as int].group.particles@, s.particle_defs().len()));
                        }
                        return ContentModel::All(build_all_group(s, &def.group.particles));
                    },
                    None => {},
                },
                _ => {},
            }
        }
    }
    let depth = s.iter_particles().len();
    let mut b = Builder::new();
    let mut frag = Frag::empty();
    let mut k: usize = 0;
    assert(build_view(b) =~= build_start());
    while k < ps.len()
        invariant
            sequence_spec(*s, build_view(b), ps@, k as nat, frag_view(frag), depth as nat) == compiled(*s, ps@),
            depth == s.particle_defs().len(),
            k <= ps@.len(),
            built_wf(*s, b.positions@, b.follow@),
            frag_wf(frag, b.positions@.len()),
            ids_held(ps@, s.particle_defs().len()),
            particle_refs_held(*s),
        decreases ps@.len() - k,
    {
        let f = b.particle(s, ps[k], depth);
        frag = b.concat(frag, f, false);
        k += 1;
    }
    let ghost built = build_view(b);
    let Builder { positions, follow, approximated, visiting: _ } = b;
    assert(positions@.map_values(|p: Position| p.particle) == built.0);
    ContentModel::Automaton(
        ContentAutomaton::assemble(positions, frag.first, follow, frag.last, frag.nullable, approximated),
    )
}

/// The compiled content of a complex type: its model, the open content
/// around it, and the element names the model writes out, with the
/// declaration each first carries.
#[derive(Debug)]
pub struct Content {
    pub model: ContentModel,
    pub open: Option<crate::model::OpenContent>,
    /// Every element name written out in the model, which is what
    /// `notQName="##definedSibling"` excludes.
    pub siblings: Vec<QName>,
    /// The declaration each of those names first carries.
    pub sibling_decls: Vec<(QName, ElementId)>,
}

/// The particles of type `t`'s effective content model, outermost base
/// first.
pub open spec fn effective(s: Schemas, t: TypeId) -> Seq<ParticleId> {
    gathered(s.type_defs(), extension_chain(s.type_defs(), t, 0), extension_chain(s.type_defs(), t, 0).len())
}

/// Whether `c` is the compiled content of type `t`: none for a simple type;
/// for a complex one, the model of its effective particles (empty content
/// when it has none), its open content, and the names its particles write
/// out.
pub open spec fn content_built(s: Schemas, t: TypeId, c: Option<Content>) -> bool {
    match s.type_defs()[t@ as int] {
        TypeDefinition::Simple(_) => c is None,
        TypeDefinition::Complex(ct) => c matches Some(x) && {
            let ps = effective(s, t);
            let decls = names_walk(s, ps, 0, (Seq::empty(), Seq::empty()), s.particle_defs().len()).0;
            &&& if ps.len() == 0 {
                x.model is Empty
            } else {
                model_of(s, ps, x.model)
            }
            &&& crate::model::same_open(x.open, ct.open_content)
            &&& x.sibling_decls@ == decls
            &&& x.siblings@ == decls.map_values(|d: (QName, ElementId)| d.0)
        },
    }
}

/// Compiles the content of every complex type, at the type's position.
pub fn build_all(s: &Schemas) -> (r: Vec<Option<Content>>)
    requires
        models_ready(*s),
    ensures
        r@.len() == s.type_defs().len(),
        forall|t: TypeId| t@ < s.type_defs().len() ==> content_built(*s, t, #[trigger] r@[t@ as int]),
{
    let types = s.iter_types();
    let mut out: Vec<Option<Content>> = Vec::new();
    let mut i: usize = 0;
    while i < types.len()
        invariant
            i <= types@.len(),
            types@ == s.type_defs(),
            types@.len() <= u32::MAX,
            models_ready(*s),
            out@.len() == i,
            forall|t: TypeId| t@ < i ==> content_built(*s, t, #[trigger] out@[t@ as int]),
        decreases types.len() - i,
    {
        let id = TypeId::from_index(i);
        let c = match &types[i] {
            TypeDefinition::Simple(_) => None,
            TypeDefinition::Complex(ct) => {
                let ps = effective_particles(s, id);
                let model = if ps.len() == 0 {
                    ContentModel::Empty
                } else {
                    build_one(s, &ps)
                };
                let open = match &ct.open_content {
                    Some(o) => Some(o.duplicate()),
                    None => None,
                };
                let siblings = named_elements(s, &ps);
                let sibling_decls = named_declarations(s, &ps);
                Some(Content { model, open, siblings, sibling_decls })
            },
        };
        proof {
            assert forall|t: TypeId| t@ < i + 1 implies content_built(*s, t, #[trigger] out@.push(c)[t@ as int]) by {
                if t@ == i {
                    crate::model::lemma_type_id_view(t, id);
                } else {
                    assert(out@.push(c)[t@ as int] == out@[t@ as int]);
                }
            }
        }
        out.push(c);
        i += 1;
    }
    out
}

/// Whether `contents` is the content of each type of `s` compiled, when
/// what compiling reads is held; nothing compiled otherwise.
pub open spec fn contents_compiled(s: Schemas, contents: Seq<Option<Content>>) -> bool {
    if models_ready(s) {
        &&& contents.len() == s.type_defs().len()
        &&& forall|t: TypeId| t@ < s.type_defs().len() ==> content_built(s, t, #[trigger] contents[t@ as int])
    } else {
        contents.len() == 0
    }
}

/// `s` with the content of each of its types compiled, when what compiling
/// reads is held, and nothing else changed; `d` followed by a report of
/// each Unique Particle Attribution contest of the compiled automata.
pub(crate) fn compile_contents(s: Schemas, d: Diagnostics, mode: crate::load::Conformance) -> (r: (Schemas, Diagnostics))
    requires
        s.contents().len() == 0,
    ensures
        same_components(s, r.0),
        contents_compiled(s, r.0.contents()),
        exists|b: Schemas| #[trigger] same_components(b, r.0) && contents_compiled(b, r.0.contents()),
        crate::upa::upa_reported(r.0, mode, d@, r.1@),
{
    let mut out = s;
    if check_models_ready(&out) {
        let models = build_all(&out);
        out.set_contents(models);
    }
    assert(same_components(s, out) && contents_compiled(s, out.contents()));
    let mut diags = d;
    crate::upa::check_upa_all(&out, mode, &mut diags);
    (out, diags)
}

/// What `m` admits directly, in first appearance order, each once.
pub open spec fn admitted(m: ContentModel) -> Seq<ElementId> {
    match m {
        ContentModel::Empty => Seq::empty(),
        ContentModel::Automaton(a) => first_seen(flatten_admits(position_admits(a@.positions))),
        ContentModel::All(g) => first_seen(flatten_admits(member_admits(g.members@))),
    }
}

/// Whether particle `pid` is held and may occur more than once.
pub open spec fn particle_repeats(s: Schemas, pid: ParticleId) -> bool {
    pid@ < s.particle_defs().len() && s.particle_defs()[pid@ as int].max_occurs.spec_is_repeating()
}

/// Whether `child` may occur more than once in content modelled by `m`: a
/// member admitting it may, or a position admitting it is one of a
/// repeating particle or lies on a cycle.
pub open spec fn repeats_in(s: Schemas, m: ContentModel, child: ElementId) -> bool {
    match m {
        ContentModel::Empty => false,
        ContentModel::All(g) => exists|k: int|
            0 <= k < g.members@.len() && (#[trigger] g.members@[k]).admits@.contains(child)
                && g.members@[k].max_occurs.spec_is_repeating(),
        ContentModel::Automaton(a) => exists|p: int|
            0 <= p < a@.positions.len() && (#[trigger] a@.positions[p]).admits@.contains(child) && (
            particle_repeats(s, a@.positions[p].particle) || reaches_itself(a@.follow, p)),
    }
}

/// The positions of `ps` before `k` that force `child`, in order.
pub open spec fn positions_forcing(ps: Seq<Position>, child: ElementId, k: nat) -> Seq<u32>
    decreases k,
{
    if k == 0 || k > ps.len() {
        Seq::empty()
    } else if spec_forces(ps[k - 1], child) {
        positions_forcing(ps, child, (k - 1) as nat).push((k - 1) as u32)
    } else {
        positions_forcing(ps, child, (k - 1) as nat)
    }
}

/// Whether content modelled by `m` may leave `child` out: every member
/// admitting it is optional; no position forces it, or some accepting
/// content avoids every position that does.
pub open spec fn optional_in(m: ContentModel, child: ElementId) -> bool {
    match m {
        ContentModel::Empty => true,
        ContentModel::All(g) => forall|k: int|
            0 <= k < g.members@.len() && (#[trigger] g.members@[k]).admits@.contains(child) ==> g.members@[k].min_occurs
                == 0,
        ContentModel::Automaton(a) => {
            let forced = positions_forcing(a@.positions, child, a@.positions.len());
            forced.len() == 0 || accepts_avoiding(a@, avoided(forced, a@.positions.len()))
        },
    }
}

/// Whether a type's content admits character data, walking up from `cur`:
/// mixed content does; empty content of an extension defers to its base; a
/// restriction, a particle or simple content settles it otherwise.
pub open spec fn mixed_from(types: Seq<TypeDefinition>, cur: TypeId, g: nat) -> bool
    decreases types.len() + 1 - g,
{
    if cur@ >= types.len() {
        false
    } else {
        match types[cur@ as int] {
            TypeDefinition::Simple(_) => false,
            TypeDefinition::Complex(c) => match c.content {
                ContentType::Mixed(_) => true,
                ContentType::Empty => if c.derivation != DerivationMethod::Extension {
                    false
                } else if c.base == cur || c.base@ == u32::MAX || g + 1 > types.len() {
                    false
                } else {
                    mixed_from(types, c.base, g + 1)
                },
                _ => false,
            },
        }
    }
}

impl Schemas {
    /// The compiled content of a complex type: its model and the open
    /// content around it. `None` for a simple type, and before content is
    /// compiled.
    pub fn content(&self, id: TypeId) -> (r: Option<&Content>)
        ensures
            r == (if id@ < self.contents().len() {
                match self.contents()[id@ as int] {
                    Some(c) => Some(&c),
                    None => None,
                }
            } else {
                None
            }),
    {
        let all = self.content_list();
        if id.index() < all.len() {
            match &all[id.index()] {
                Some(c) => Some(c),
                None => None,
            }
        } else {
            None
        }
    }

    /// The compiled content model of a complex type, without its open
    /// content.
    pub fn content_model(&self, id: TypeId) -> (r: Option<&ContentModel>)
        ensures
            r == (if id@ < self.contents().len() {
                match self.contents()[id@ as int] {
                    Some(c) => Some(&c.model),
                    None => None,
                }
            } else {
                None
            }),
    {
        match self.content(id) {
            Some(c) => Some(&c.model),
            None => None,
        }
    }

    /// Whether a type's content admits character data. An extension whose
    /// own content is empty takes its base's content whole, so it is mixed
    /// when the base is; restriction states its content in full.
    pub fn content_is_mixed(&self, id: TypeId) -> (r: bool)
        ensures
            r == mixed_from(self.type_defs(), id, 0),
    {
        let types = self.iter_types();
        let limit = types.len();
        let mut cur = id;
        let mut guard: usize = 0;
        loop
            invariant
                types@ == self.type_defs(),
                limit == types@.len(),
                guard <= limit,
                mixed_from(types@, cur, guard as nat) == mixed_from(types@, id, 0),
            decreases limit - guard,
        {
            if cur.index() >= limit {
                return false;
            }
            let c = match &types[cur.index()] {
                TypeDefinition::Complex(c) => c,
                TypeDefinition::Simple(_) => return false,
            };
            match c.content {
                ContentType::Mixed(_) => return true,
                ContentType::Empty => {},
                _ => return false,
            }
            if c.derivation != DerivationMethod::Extension {
                return false;
            }
            let base = c.base;
            if base.index() == cur.index() || base.is_placeholder() || guard >= limit {
                proof {
                    if base@ == cur@ {
                        crate::model::lemma_type_id_view(base, cur);
                    }
                }
                return false;
            }
            proof {
                assert(base != cur);
            }
            guard += 1;
            cur = base;
        }
    }

    /// Every element that may appear directly inside this type, with
    /// substitution groups expanded, in first appearance order.
    pub fn possible_children(&self, id: TypeId) -> (r: Vec<ElementId>)
        ensures
            r@ == (if id@ < self.contents().len() {
                match self.contents()[id@ as int] {
                    Some(c) => admitted(c.model),
                    None => Seq::empty(),
                }
            } else {
                Seq::empty()
            }),
    {
        match self.content_model(id) {
            Some(m) => m.admitted_elements(),
            None => Vec::new(),
        }
    }

    /// Whether `child` may appear more than once inside `parent`: a
    /// position admitting it is of a repeating particle, or can reach
    /// itself, which a repeating ancestor group makes it do.
    pub fn child_repeats(&self, parent: TypeId, child: ElementId) -> (r: bool)
        ensures
            r == (if parent@ < self.contents().len() {
                match self.contents()[parent@ as int] {
                    Some(c) => repeats_in(*self, c.model, child),
                    None => false,
                }
            } else {
                false
            }),
    {
        let model = match self.content_model(parent) {
            Some(m) => m,
            None => return false,
        };
        assert(parent@ < self.contents().len());
        assert(self.contents()[parent@ as int] is Some);
        assert(self.contents()[parent@ as int]->0.model == *model);
        match model {
            ContentModel::Empty => false,
            ContentModel::All(g) => {
                let mut k: usize = 0;
                while k < g.members.len()
                    invariant
                        parent@ < self.contents().len(),
                        self.contents()[parent@ as int] is Some,
                        self.contents()[parent@ as int]->0.model == *model,
                        *model == ContentModel::All(*g),
                        k <= g.members@.len(),
                        forall|j: int|
                            0 <= j < k ==> !((#[trigger] g.members@[j]).admits@.contains(child)
                                && g.members@[j].max_occurs.spec_is_repeating()),
                    decreases g.members.len() - k,
                {
                    if holds_element(&g.members[k].admits, child) && g.members[k].max_occurs.is_repeating() {
                        assert(g.members@[k as int].admits@.contains(child));
                        assert(repeats_in(*self, *model, child));
                        return true;
                    }
                    k += 1;
                }
                false
            },
            ContentModel::Automaton(a) => {
                proof {
                    use_type_invariant(a);
                }
                let ps = a.positions();
                let mut p: usize = 0;
                while p < ps.len()
                    invariant
                        parent@ < self.contents().len(),
                        self.contents()[parent@ as int] is Some,
                        self.contents()[parent@ as int]->0.model == *model,
                        *model == ContentModel::Automaton(*a),
                        p <= ps@.len(),
                        ps@ == a@.positions,
                        automaton_wf(a@),
                        forall|j: int|
                            0 <= j < p ==> !((#[trigger] a@.positions[j]).admits@.contains(child) && (
                            particle_repeats(*self, a@.positions[j].particle) || reaches_itself(a@.follow, j))),
                    decreases ps.len() - p,
                {
                    if holds_element(&ps[p].admits, child) {
                        let rep = match self.get_particle(ps[p].particle) {
                            Some(d) => d.max_occurs.is_repeating(),
                            None => false,
                        };
                        if rep || a.repeats(p as u32) {
                            assert(a@.positions[p as int].admits@.contains(child));
                            assert(repeats_in(*self, *model, child));
                            return true;
                        }
                    }
                    p += 1;
                }
                false
            },
        }
    }

    /// Whether `child` may be absent from `parent`: optional unless every
    /// accepting path goes through a position that forces it.
    pub fn child_is_optional(&self, parent: TypeId, child: ElementId) -> (r: bool)
        ensures
            r == (if parent@ < self.contents().len() {
                match self.contents()[parent@ as int] {
                    Some(c) => optional_in(c.model, child),
                    None => true,
                }
            } else {
                true
            }),
    {
        let model = match self.content_model(parent) {
            Some(m) => m,
            None => return true,
        };
        assert(parent@ < self.contents().len());
        assert(self.contents()[parent@ as int] is Some);
        assert(self.contents()[parent@ as int]->0.model == *model);
        match model {
            ContentModel::Empty => true,
            ContentModel::All(g) => {
                let mut k: usize = 0;
                while k < g.members.len()
                    invariant
                        parent@ < self.contents().len(),
                        self.contents()[parent@ as int] is Some,
                        self.contents()[parent@ as int]->0.model == *model,
                        *model == ContentModel::All(*g),
                        k <= g.members@.len(),
                        forall|j: int|
                            0 <= j < k && (#[trigger] g.members@[j]).admits@.contains(child) ==> g.members@[j].min_occurs
                                == 0,
                    decreases g.members.len() - k,
                {
                    if holds_element(&g.members[k].admits, child) && g.members[k].min_occurs != 0 {
                        assert(g.members@[k as int].admits@.contains(child));
                        assert(!optional_in(*model, child));
                        return false;
                    }
                    k += 1;
                }
                true
            },
            ContentModel::Automaton(a) => {
                proof {
                    use_type_invariant(a);
                }
                let ps = a.positions();
                let mut forced: Vec<u32> = Vec::new();
                let mut p: usize = 0;
                while p < ps.len()
                    invariant
                        parent@ < self.contents().len(),
                        self.contents()[parent@ as int] is Some,
                        self.contents()[parent@ as int]->0.model == *model,
                        *model == ContentModel::Automaton(*a),
                        p <= ps@.len(),
                        ps@ == a@.positions,
                        automaton_wf(a@),
                        forced@ == positions_forcing(a@.positions, child, p as nat),
                    decreases ps.len() - p,
                {
                    if forces(&ps[p], child) {
                        forced.push(p as u32);
                    }
                    p += 1;
                }
                if forced.len() == 0 {
                    return true;
                }
                reaches_end_avoiding(a, forced.as_slice())
            },
        }
    }
}


/// The counts over the first `k` entries of `cs`, as (models, automata,
/// all groups, empty, positions, approximate, open content).
pub open spec fn stats_of(cs: Seq<Option<Content>>, k: nat) -> (nat, nat, nat, nat, nat, nat, nat)
    decreases k,
{
    if k == 0 || k > cs.len() {
        (0, 0, 0, 0, 0, 0, 0)
    } else {
        let t = stats_of(cs, (k - 1) as nat);
        match cs[k - 1] {
            None => t,
            Some(c) => {
                let open: nat = if c.open is Some { 1 } else { 0 };
                match c.model {
                    ContentModel::Empty => (t.0 + 1, t.1, t.2, t.3 + 1, t.4, t.5, t.6 + open),
                    ContentModel::All(_) => (t.0 + 1, t.1, t.2 + 1, t.3, t.4, t.5, t.6 + open),
                    ContentModel::Automaton(a) => (
                        t.0 + 1,
                        t.1 + 1,
                        t.2,
                        t.3,
                        t.4 + a@.positions.len(),
                        t.5 + if a@.approximated { 1nat } else { 0nat },
                        t.6 + open,
                    ),
                }
            },
        }
    }
}

/// Counting more entries never counts fewer positions.
proof fn lemma_positions_counted_grow(cs: Seq<Option<Content>>, k: nat, m: nat)
    requires
        k <= m <= cs.len(),
    ensures
        stats_of(cs, k).4 <= stats_of(cs, m).4,
    decreases m - k,
{
    if k < m {
        lemma_positions_counted_grow(cs, k, (m - 1) as nat);
    }
}

impl Schemas {
    /// Every element that may appear directly inside `ty`, in first
    /// appearance order, with whether it repeats and whether it is optional,
    /// answered together.
    pub fn children(&self, ty: TypeId) -> (r: Vec<Child>)
        ensures
            r@.len() == (if ty@ < self.contents().len() {
                match self.contents()[ty@ as int] {
                    Some(c) => admitted(c.model).len(),
                    None => 0,
                }
            } else {
                0
            }),
            forall|k: int|
                0 <= k < r@.len() ==> {
                    let c = self.contents()[ty@ as int]->0;
                    &&& (#[trigger] r@[k]).element == admitted(c.model)[k]
                    &&& r@[k].repeats == repeats_in(*self, c.model, r@[k].element)
                    &&& r@[k].optional == optional_in(c.model, r@[k].element)
                },
    {
        let elements = self.possible_children(ty);
        let mut out: Vec<Child> = Vec::new();
        let mut k: usize = 0;
        while k < elements.len()
            invariant
                k <= elements@.len(),
                out@.len() == k,
                elements@ == (if ty@ < self.contents().len() {
                    match self.contents()[ty@ as int] {
                        Some(c) => admitted(c.model),
                        None => Seq::empty(),
                    }
                } else {
                    Seq::empty()
                }),
                forall|j: int|
                    0 <= j < k ==> {
                        let c = self.contents()[ty@ as int]->0;
                        &&& (#[trigger] out@[j]).element == elements@[j]
                        &&& out@[j].repeats == repeats_in(*self, c.model, out@[j].element)
                        &&& out@[j].optional == optional_in(c.model, out@[j].element)
                    },
            decreases elements.len() - k,
        {
            let e = elements[k];
            let repeats = self.child_repeats(ty, e);
            let optional = self.child_is_optional(ty, e);
            out.push(Child { element: e, repeats, optional });
            k += 1;
        }
        out
    }

    /// Counts the compiled models by kind.
    pub fn content_stats(&self) -> (r: ContentStats)
        requires
            stats_of(self.contents(), self.contents().len()).4 <= usize::MAX,
        ensures
            (r.models as nat, r.automata as nat, r.all_groups as nat, r.empty as nat, r.positions as nat, r.approximated
                as nat, r.open_content as nat) == stats_of(self.contents(), self.contents().len()),
    {
        let cs = self.content_list();
        let mut st = ContentStats {
            models: 0,
            automata: 0,
            all_groups: 0,
            empty: 0,
            positions: 0,
            approximated: 0,
            open_content: 0,
        };
        let mut k: usize = 0;
        while k < cs.len()
            invariant
                k <= cs@.len(),
                cs@ == self.contents(),
                (st.models as nat, st.automata as nat, st.all_groups as nat, st.empty as nat, st.positions as nat,
                    st.approximated as nat, st.open_content as nat) == stats_of(cs@, k as nat),
                st.models <= k,
                st.automata <= k,
                st.all_groups <= k,
                st.empty <= k,
                st.approximated <= k,
                st.open_content <= k,
                stats_of(cs@, cs@.len()).4 <= usize::MAX,
            decreases cs.len() - k,
        {
            proof {
                lemma_positions_counted_grow(cs@, (k + 1) as nat, cs@.len());
            }
            match &cs[k] {
                None => {},
                Some(c) => {
                    st.models = st.models + 1;
                    if c.open.is_some() {
                        st.open_content = st.open_content + 1;
                    }
                    match &c.model {
                        ContentModel::Empty => st.empty = st.empty + 1,
                        ContentModel::All(_) => st.all_groups = st.all_groups + 1,
                        ContentModel::Automaton(a) => {
                            st.automata = st.automata + 1;
                            st.positions = st.positions + a.positions().len();
                            if a.approximated() {
                                st.approximated = st.approximated + 1;
                            }
                        },
                    }
                },
            }
            k += 1;
        }
        st
    }
}

/// Whether `v` holds `e`.
fn holds_element(v: &Vec<ElementId>, e: ElementId) -> (r: bool)
    ensures
        r == v@.contains(e),
{
    let mut i: usize = 0;
    while i < v.len()
        invariant
            i <= v@.len(),
            forall|j: int| 0 <= j < i ==> v@[j] != e,
        decreases v.len() - i,
    {
        if v[i] == e {
            return true;
        }
        i += 1;
    }
    false
}

/// Whether the content particle of every complex type is held.
pub open spec fn content_particles_held(types: Seq<TypeDefinition>, n: nat) -> bool {
    forall|i: int|
        0 <= i < types.len() ==> match #[trigger] types[i] {
            TypeDefinition::Complex(c) => crate::groups::content_particle(c.content) matches Some(p) ==> p@ < n,
            TypeDefinition::Simple(_) => true,
        }
}

/// Whether what compiling the content models reads is held: every base,
/// every content particle, and whatever particles and model groups refer
/// to.
pub open spec fn models_ready(s: Schemas) -> bool {
    &&& bases_held(s.type_defs())
    &&& content_particles_held(s.type_defs(), s.particle_defs().len())
    &&& particle_refs_held(s)
}

/// Whether every id of `ps` is below `n`.
fn pids_below(ps: &Vec<ParticleId>, n: usize) -> (r: bool)
    ensures
        r == ids_held(ps@, n as nat),
{
    let mut i: usize = 0;
    while i < ps.len()
        invariant
            i <= ps@.len(),
            forall|j: int| 0 <= j < i ==> (#[trigger] ps@[j])@ < n,
        decreases ps.len() - i,
    {
        if ps[i].index() >= n {
            return false;
        }
        i += 1;
    }
    true
}

/// Checks what compiling the content models reads, which reading and
/// resolving the documents leave in place.
pub fn check_models_ready(s: &Schemas) -> (r: bool)
    ensures
        r == models_ready(*s),
{
    let types = s.iter_types();
    let np = s.iter_particles().len();
    let ne = s.iter_elements().len();
    let ng = s.iter_model_groups().len();
    let mut i: usize = 0;
    while i < types.len()
        invariant
            i <= types@.len(),
            types@ == s.type_defs(),
            np == s.particle_defs().len(),
            forall|j: int|
                0 <= j < i ==> match #[trigger] types@[j] {
                    TypeDefinition::Complex(c) => (c.base@ == u32::MAX || c.base@ < types@.len()) && (
                    crate::groups::content_particle(c.content) matches Some(p) ==> p@ < np),
                    TypeDefinition::Simple(_) => true,
                },
        decreases types.len() - i,
    {
        match &types[i] {
            TypeDefinition::Complex(c) => {
                if !(c.base.is_placeholder() || c.base.index() < types.len()) {
                    assert(!bases_held(s.type_defs())) by {
                        assert(types@[i as int] matches TypeDefinition::Complex(_));
                    }
                    return false;
                }
                match c.content.particle() {
                    Some(p) => if p.index() >= np {
                        assert(!content_particles_held(s.type_defs(), np as nat)) by {
                            assert(types@[i as int] matches TypeDefinition::Complex(_));
                        }
                        return false;
                    },
                    None => {},
                }
            },
            TypeDefinition::Simple(_) => {},
        }
        i += 1;
    }
    let parts = s.iter_particles();
    let mut k: usize = 0;
    while k < parts.len()
        invariant
            k <= parts@.len(),
            parts@ == s.particle_defs(),
            ne == s.element_decls().len(),
            ng == s.group_defs().len(),
            forall|j: int| 0 <= j < k ==> term_held(*s, (#[trigger] parts@[j]).term),
        decreases parts.len() - k,
    {
        let ok = match &parts[k].term {
            Term::Element(e) => e.index() < ne,
            Term::Group(g) => pids_below(&g.particles, parts.len()),
            Term::GroupRef(g) => g.index() < ng,
            Term::Wildcard(_) => true,
        };
        if !ok {
            assert(!particle_refs_held(*s)) by {
                assert(!term_held(*s, s.particle_defs()[k as int].term));
            }
            return false;
        }
        k += 1;
    }
    let groups = s.iter_model_groups();
    let mut g: usize = 0;
    while g < groups.len()
        invariant
            g <= groups@.len(),
            groups@ == s.group_defs(),
            np == s.particle_defs().len(),
            forall|j: int| 0 <= j < g ==> ids_held((#[trigger] groups@[j]).group.particles@, np as nat),
        decreases groups.len() - g,
    {
        if !pids_below(&groups[g].group.particles, np) {
            assert(!particle_refs_held(*s)) by {
                assert(!ids_held(s.group_defs()[g as int].group.particles@, np as nat));
            }
            return false;
        }
        g += 1;
    }
    true
}

/// Whether every complex type's base is held, or a placeholder.
pub open spec fn bases_held(types: Seq<TypeDefinition>) -> bool {
    forall|i: int|
        0 <= i < types.len() ==> match #[trigger] types[i] {
            TypeDefinition::Complex(c) => c.base@ == u32::MAX || c.base@ < types.len(),
            TypeDefinition::Simple(_) => true,
        }
}

/// The types an extension chain from `cur` gathers, nearest first: a
/// restriction states its model in full, so the chain stops there; it stops
/// too at a simple type, at the top of a branch, at a placeholder, and after
/// as many steps as there are types.
pub open spec fn extension_chain(types: Seq<TypeDefinition>, cur: TypeId, g: nat) -> Seq<TypeId>
    decreases types.len() + 1 - g,
{
    seq![cur] + match types[cur@ as int] {
        TypeDefinition::Complex(c) => if c.derivation == DerivationMethod::Restriction {
            Seq::empty()
        } else if c.base == cur || c.base@ == u32::MAX || g + 1 > types.len() {
            Seq::empty()
        } else {
            extension_chain(types, c.base, g + 1)
        },
        TypeDefinition::Simple(_) => Seq::empty(),
    }
}

/// The content particles of the last `k` types of `chain`, the last first.
pub open spec fn gathered(types: Seq<TypeDefinition>, chain: Seq<TypeId>, k: nat) -> Seq<ParticleId>
    decreases k,
{
    if k == 0 || k > chain.len() {
        Seq::empty()
    } else {
        gathered(types, chain, (k - 1) as nat) + match types[chain[chain.len() - k]@ as int] {
            TypeDefinition::Complex(c) => match crate::groups::content_particle(c.content) {
                Some(p) => seq![p],
                None => Seq::empty(),
            },
            TypeDefinition::Simple(_) => Seq::empty(),
        }
    }
}

/// The particles making up a type's effective content model, outermost
/// base first: extension appends to the base's content, restriction states
/// the model in full.
pub fn effective_particles(s: &Schemas, id: TypeId) -> (r: Vec<ParticleId>)
    requires
        id@ < s.type_defs().len(),
        bases_held(s.type_defs()),
    ensures
        r@ == gathered(
            s.type_defs(),
            extension_chain(s.type_defs(), id, 0),
            extension_chain(s.type_defs(), id, 0).len(),
        ),
        content_particles_held(s.type_defs(), s.particle_defs().len()) ==> ids_held(r@, s.particle_defs().len()),
{
    let ghost types = s.type_defs();
    let n = s.iter_types().len();
    let mut chain: Vec<TypeId> = Vec::new();
    let mut cur = id;
    let mut guard: usize = 0;
    loop
        invariant_except_break
            guard <= n,
            n == types.len(),
            cur@ < types.len(),
            bases_held(types),
            types == s.type_defs(),
            chain@ + extension_chain(types, cur, guard as nat) == extension_chain(types, id, 0),
            forall|q: int| 0 <= q < chain@.len() ==> (#[trigger] chain@[q])@ < types.len(),
        ensures
            chain@ == extension_chain(types, id, 0),
            types == s.type_defs(),
            forall|q: int| 0 <= q < chain@.len() ==> (#[trigger] chain@[q])@ < types.len(),
        decreases n - guard,
    {
        chain.push(cur);
        let c = match s.get_type(cur) {
            Some(TypeDefinition::Complex(c)) => c,
            _ => {
                break;
            },
        };
        if c.derivation == DerivationMethod::Restriction {
            break;
        }
        let base = c.base;
        if base.index() == cur.index() || base.is_placeholder() || guard >= n {
            proof {
                if base@ == cur@ {
                    crate::model::lemma_type_id_view(base, cur);
                }
            }
            break;
        }
        proof {
            assert(base != cur);
        }
        guard += 1;
        cur = base;
    }
    let ghost ch = chain@;
    let mut out: Vec<ParticleId> = Vec::new();
    let mut j: usize = 0;
    while j < chain.len()
        invariant
            j <= ch.len(),
            ch == chain@,
            types == s.type_defs(),
            out@ == gathered(types, ch, j as nat),
            forall|q: int| 0 <= q < ch.len() ==> (#[trigger] ch[q])@ < types.len(),
            content_particles_held(types, s.particle_defs().len()) ==> ids_held(out@, s.particle_defs().len()),
        decreases ch.len() - j,
    {
        let t = chain[chain.len() - 1 - j];
        proof {
            assert(ch[ch.len() - 1 - j]@ < types.len());
        }
        match s.get_type(t) {
            Some(TypeDefinition::Complex(c)) => match c.content.particle() {
                Some(p) => out.push(p),
                None => {},
            },
            _ => {},
        }
        j += 1;
    }
    out
}

/// Where naming the declarations of a model stands: each name written out,
/// with the declaration it first carried, and the group definitions walked.
pub type NameWalk = (Seq<(QName, ElementId)>, Seq<GroupId>);

/// Whether `decls` has an entry for `n`.
pub open spec fn names_entry(decls: Seq<(QName, ElementId)>, n: QName) -> bool {
    exists|k: int| 0 <= k < decls.len() && (#[trigger] decls[k]).0 == n
}

/// Walking particle `p`: an element particle records its name with its
/// declaration, unless the name is recorded already; a group is walked
/// member by member; a group definition is walked the first time it is
/// met, never again. Nested deeper than `fuel`, nothing is walked.
pub open spec fn name_walk(s: Schemas, p: ParticleId, st: NameWalk, fuel: nat) -> NameWalk
    decreases fuel, 0nat, 0nat,
{
    if fuel == 0 {
        st
    } else {
        match s.particle_defs()[p@ as int].term {
            Term::Element(e) => if e@ != u32::MAX {
                let n = s.element_decls()[e@ as int].name;
                if names_entry(st.0, n) {
                    st
                } else {
                    (st.0.push((n, e)), st.1)
                }
            } else {
                st
            },
            Term::Group(g) => names_walk(s, g.particles@, 0, st, (fuel - 1) as nat),
            Term::GroupRef(gid) => if gid@ != u32::MAX && !st.1.contains(gid) {
                names_walk(s, s.group_defs()[gid@ as int].group.particles@, 0, (st.0, st.1.push(gid)), (fuel - 1) as nat)
            } else {
                st
            },
            _ => st,
        }
    }
}

/// Walking the particles of `ps` from the `k`-th on.
pub open spec fn names_walk(s: Schemas, ps: Seq<ParticleId>, k: nat, st: NameWalk, fuel: nat) -> NameWalk
    decreases fuel, 1nat, ps.len() - k,
{
    if k >= ps.len() {
        st
    } else {
        names_walk(s, ps, k + 1, name_walk(s, ps[k as int], st, fuel), fuel)
    }
}

/// Whether a name walk's state refers only to held components.
pub open spec fn walk_held(s: Schemas, st: NameWalk) -> bool {
    &&& forall|k: int| 0 <= k < st.1.len() ==> (#[trigger] st.1[k])@ < s.group_defs().len()
}

/// Whether `decls` has an entry for `n`.
fn has_name(decls: &Vec<(QName, ElementId)>, n: QName) -> (r: bool)
    ensures
        r == names_entry(decls@, n),
{
    let mut k: usize = 0;
    while k < decls.len()
        invariant
            k <= decls@.len(),
            forall|j: int| 0 <= j < k ==> (#[trigger] decls@[j]).0 != n,
        decreases decls@.len() - k,
    {
        if decls[k].0 == n {
            return true;
        }
        k += 1;
    }
    false
}

/// Walks particle `p`, as [`name_walk`] says.
fn walk_names(
    s: &Schemas,
    p: ParticleId,
    decls: &mut Vec<(QName, ElementId)>,
    seen: &mut Vec<GroupId>,
    fuel: usize,
)
    requires
        particle_refs_held(*s),
        p@ < s.particle_defs().len(),
    ensures
        (final(decls)@, final(seen)@) == name_walk(*s, p, (old(decls)@, old(seen)@), fuel as nat),
    decreases fuel, 0nat, 0nat,
{
    if fuel == 0 {
        return;
    }
    let t = match s.get_particle(p) {
        Some(t) => t,
        None => return,
    };
    proof {
        assert(term_held(*s, s.particle_defs()[p@ as int].term));
    }
    match &t.term {
        Term::Element(e) => {
            if e.is_placeholder() {
                return;
            }
            let n = match s.get_element(*e) {
                Some(d) => d.name,
                None => return,
            };
            if has_name(decls, n) {
                return;
            }
            decls.push((n, *e));
        },
        Term::Group(g) => {
            let ps = copy_pids(&g.particles);
            walk_all_names(s, &ps, 0, decls, seen, fuel - 1);
        },
        Term::GroupRef(gid) => {
            if gid.is_placeholder() || holds_group(seen, *gid) {
                return;
            }
            let def = match s.get_model_group(*gid) {
                Some(d) => d,
                None => return,
            };
            proof {
                assert(ids_held(s.group_defs()[gid@ as int].group.particles@, s.particle_defs().len()));
            }
            seen.push(*gid);
            let ps = copy_pids(&def.group.particles);
            walk_all_names(s, &ps, 0, decls, seen, fuel - 1);
        },
        _ => {},
    }
}

/// Walks the particles of `ps` from the `k`-th on, as [`names_walk`] says.
fn walk_all_names(
    s: &Schemas,
    ps: &Vec<ParticleId>,
    k: usize,
    decls: &mut Vec<(QName, ElementId)>,
    seen: &mut Vec<GroupId>,
    fuel: usize,
)
    requires
        particle_refs_held(*s),
        ids_held(ps@, s.particle_defs().len()),
        k <= ps@.len(),
    ensures
        (final(decls)@, final(seen)@) == names_walk(*s, ps@, k as nat, (old(decls)@, old(seen)@), fuel as nat),
    decreases fuel, 1nat, ps@.len() - k,
{
    if k >= ps.len() {
        return;
    }
    walk_names(s, ps[k], decls, seen, fuel);
    walk_all_names(s, ps, k + 1, decls, seen, fuel);
}

/// The declaration each element name written out in `ps` carries, the
/// first one met when a name is written twice, in the order the names are
/// met; group references are expanded, each definition once.
pub fn named_declarations(s: &Schemas, ps: &Vec<ParticleId>) -> (r: Vec<(QName, ElementId)>)
    requires
        particle_refs_held(*s),
        ids_held(ps@, s.particle_defs().len()),
    ensures
        r@ == names_walk(*s, ps@, 0, (Seq::empty(), Seq::empty()), s.particle_defs().len()).0,
{
    let mut decls: Vec<(QName, ElementId)> = Vec::new();
    let mut seen: Vec<GroupId> = Vec::new();
    let fuel = s.iter_particles().len();
    walk_all_names(s, ps, 0, &mut decls, &mut seen, fuel);
    decls
}

/// The element names `ps` writes out, with group references expanded: the
/// names of [`named_declarations`], in the same order.
pub fn named_elements(s: &Schemas, ps: &Vec<ParticleId>) -> (r: Vec<QName>)
    requires
        particle_refs_held(*s),
        ids_held(ps@, s.particle_defs().len()),
    ensures
        r@ == names_walk(*s, ps@, 0, (Seq::empty(), Seq::empty()), s.particle_defs().len()).0.map_values(
            |d: (QName, ElementId)| d.0,
        ),
{
    let decls = named_declarations(s, ps);
    let mut out: Vec<QName> = Vec::new();
    let mut k: usize = 0;
    while k < decls.len()
        invariant
            k <= decls@.len(),
            out@ == decls@.take(k as int).map_values(|d: (QName, ElementId)| d.0),
        decreases decls@.len() - k,
    {
        out.push(decls[k].0);
        assert(decls@.take(k + 1).map_values(|d: (QName, ElementId)| d.0) =~= decls@.take(k as int).map_values(
            |d: (QName, ElementId)| d.0,
        ).push(decls@[k as int].0));
        k += 1;
    }
    assert(decls@.take(k as int) =~= decls@);
    out
}

} // verus!
