//! Unique Particle Attribution: in every state of a content automaton, no
//! two positions of different particles may compete for one child.
//!
//! Two element positions compete when they admit a declaration of one name;
//! an element and a wildcard when the wildcard admits a name the element
//! position admits; two wildcards when their namespaces overlap. Two copies
//! of one unrolled particle are a chain, never a choice. XSD 1.1 settles an
//! element competing with a wildcard in favour of the element. Each pair of
//! particles is reported once, as an error, or as a warning when the model
//! is approximate or conformance is lax.

use vstd::prelude::*;
use crate::compile::name_of;
use crate::content::{automaton_wf, spec_wildcards_overlap, wildcards_overlap, AutomatonView, ContentAutomaton, Label, Position};
use crate::diagnostics::{opt_chars, DiagCode, Diagnostic, Diagnostics, Severity, Span};
use crate::load::{Conformance, Version};
use crate::model::{ns_admits, ElementId, ParticleId, Term, TypeDefinition, Wildcard};
use crate::names::{clark_chars, QName};
use crate::schemas::{has_key, Schemas};
use crate::text::{push_str, string_from_chars};

verus! {

/// What two competing positions have in common.
#[derive(Copy, Clone, PartialEq, Eq, Debug, Structural)]
pub enum Overlap {
    /// Both are element positions admitting this name.
    Name(QName),
    /// An element position competes with a wildcard over this name.
    ElementAndWildcard(QName),
    /// Two wildcards admit overlapping namespaces.
    Wildcards,
}

/// The name of declaration `e`.
pub open spec fn element_name(s: Schemas, e: ElementId) -> QName {
    s.element_decls()[e@ as int].name
}

/// The names of the declarations `es`.
pub open spec fn names_of(s: Schemas, es: Seq<ElementId>) -> Seq<QName> {
    es.map_values(|e: ElementId| element_name(s, e))
}

/// The first name among the declarations of `es` from the `k`-th on that
/// one of `qs` carries too.
pub open spec fn first_shared(s: Schemas, es: Seq<ElementId>, qs: Seq<ElementId>, k: nat) -> Option<QName>
    decreases es.len() - k,
{
    if k >= es.len() {
        None
    } else if names_of(s, qs).contains(element_name(s, es[k as int])) {
        Some(element_name(s, es[k as int]))
    } else {
        first_shared(s, es, qs, k + 1)
    }
}

/// Whether wildcard `w` admits `name`, given the names its model writes
/// out: its namespace must admit it, and none of its exclusions apply.
pub open spec fn wildcard_admits(s: Schemas, w: Wildcard, name: QName, siblings: Seq<QName>) -> bool {
    &&& ns_admits(w.namespace@, name.ns)
    &&& !w.not_qname@.contains(name)
    &&& !(w.not_defined_sibling && siblings.contains(name))
    &&& !(w.not_defined && has_key(s.symbols().elements@, name))
}

/// The first name among the declarations of `es` from the `k`-th on that
/// `w` admits.
pub open spec fn first_admitted(s: Schemas, w: Wildcard, es: Seq<ElementId>, siblings: Seq<QName>, k: nat) -> Option<QName>
    decreases es.len() - k,
{
    if k >= es.len() {
        None
    } else if wildcard_admits(s, w, element_name(s, es[k as int]), siblings) {
        Some(element_name(s, es[k as int]))
    } else {
        first_admitted(s, w, es, siblings, k + 1)
    }
}

/// The wildcard of position `p`'s particle, if it is one.
pub open spec fn wildcard_at(s: Schemas, p: Position) -> Option<Wildcard> {
    match s.particle_defs()[p.particle@ as int].term {
        Term::Wildcard(w) => Some(w),
        _ => None,
    }
}

/// What positions `p` and `q` compete over, if anything.
pub open spec fn overlap_of(s: Schemas, p: Position, q: Position, siblings: Seq<QName>) -> Option<Overlap> {
    match (p.label, q.label) {
        (Label::Element(_), Label::Element(_)) => match first_shared(s, p.admits@, q.admits@, 0) {
            Some(n) => Some(Overlap::Name(n)),
            None => None,
        },
        (Label::Element(_), Label::Wildcard) => match wildcard_at(s, q) {
            Some(w) => match first_admitted(s, w, p.admits@, siblings, 0) {
                Some(n) => Some(Overlap::ElementAndWildcard(n)),
                None => None,
            },
            None => None,
        },
        (Label::Wildcard, Label::Element(_)) => match wildcard_at(s, p) {
            Some(w) => match first_admitted(s, w, q.admits@, siblings, 0) {
                Some(n) => Some(Overlap::ElementAndWildcard(n)),
                None => None,
            },
            None => None,
        },
        (Label::Wildcard, Label::Wildcard) => match (wildcard_at(s, p), wildcard_at(s, q)) {
            (Some(x), Some(y)) => if spec_wildcards_overlap(x.namespace@, y.namespace@) {
                Some(Overlap::Wildcards)
            } else {
                None
            },
            _ => None,
        },
    }
}

/// What the positions `x` and `y` of `a` compete over and count as an
/// ambiguity: never two copies of one particle, and under XSD 1.1 never an
/// element against a wildcard.
pub open spec fn contest(s: Schemas, a: AutomatonView, x: u32, y: u32, siblings: Seq<QName>, version: Version) -> Option<Overlap> {
    let (p, q) = (a.positions[x as int], a.positions[y as int]);
    if p.particle == q.particle {
        None
    } else {
        match overlap_of(s, p, q, siblings) {
            Some(o) => if version == Version::Xsd11 && o is ElementAndWildcard {
                None
            } else {
                Some(o)
            },
            None => None,
        }
    }
}

/// The pair of particles of positions `x` and `y`, the lower id first.
pub open spec fn particle_pair(a: AutomatonView, x: u32, y: u32) -> (ParticleId, ParticleId) {
    let (p, q) = (a.positions[x as int].particle, a.positions[y as int].particle);
    if p@ < q@ {
        (p, q)
    } else {
        (q, p)
    }
}

/// A contest found: the two positions and what they compete over.
pub type Contest = (u32, u32, Overlap);

/// Scanning the pairs of `ts` from the `i`-th and `j`-th on, each in order,
/// after the contests `found` and the particle pairs `seen` already
/// reported: the contests found then, and the pairs reported then.
pub open spec fn scan_state(
    s: Schemas,
    a: AutomatonView,
    ts: Seq<u32>,
    siblings: Seq<QName>,
    version: Version,
    i: nat,
    j: nat,
    seen: Seq<(ParticleId, ParticleId)>,
    found: Seq<Contest>,
) -> (Seq<Contest>, Seq<(ParticleId, ParticleId)>)
    decreases ts.len() - i, ts.len() + 1 - j,
{
    if i >= ts.len() {
        (found, seen)
    } else if j >= ts.len() {
        scan_state(s, a, ts, siblings, version, i + 1, i + 2, seen, found)
    } else {
        match contest(s, a, ts[i as int], ts[j as int], siblings, version) {
            Some(o) => {
                let key = particle_pair(a, ts[i as int], ts[j as int]);
                if seen.contains(key) {
                    scan_state(s, a, ts, siblings, version, i, j + 1, seen, found)
                } else {
                    scan_state(s, a, ts, siblings, version, i, j + 1, seen.push(key), found.push((ts[i as int], ts[j as int], o)))
                }
            },
            None => scan_state(s, a, ts, siblings, version, i, j + 1, seen, found),
        }
    }
}

/// The positions of state `k` of `a`: the start positions first, then the
/// successors of each position in turn.
pub open spec fn state_targets(a: AutomatonView, k: nat) -> Seq<u32> {
    if k == 0 {
        a.first
    } else {
        a.follow[k - 1]@
    }
}

/// Scanning the states of `a` from the `k`-th on.
pub open spec fn scan_states(
    s: Schemas,
    a: AutomatonView,
    siblings: Seq<QName>,
    version: Version,
    k: nat,
    seen: Seq<(ParticleId, ParticleId)>,
    found: Seq<Contest>,
) -> Seq<Contest>
    decreases a.positions.len() + 1 - k,
{
    if k > a.positions.len() {
        found
    } else {
        let (f2, s2) = scan_state(s, a, state_targets(a, k), siblings, version, 0, 1, seen, found);
        scan_states(s, a, siblings, version, k + 1, s2, f2)
    }
}

/// Every contest of `a`, in the order the states and pairs are scanned.
pub open spec fn contests(s: Schemas, a: AutomatonView, siblings: Seq<QName>, version: Version) -> Seq<Contest> {
    scan_states(s, a, siblings, version, 0, Seq::empty(), Seq::empty())
}

/// A name as written in a finding: in Clark notation, in backquotes.
pub open spec fn quoted(st: Seq<Seq<char>>, q: QName) -> Seq<char> {
    "`"@ + clark_chars(
        match q.ns {
            Some(n) => Some(st[n@ as int]),
            None => None,
        },
        st[q.local@ as int],
    ) + "`"@
}

/// How the type owning a model is named in a finding.
pub open spec fn owner_shown(def: TypeDefinition, st: Seq<Seq<char>>) -> Seq<char> {
    match name_of(def) {
        Some(q) => quoted(st, q),
        None => "an anonymous type"@,
    }
}

/// What a finding says the two positions compete over.
pub open spec fn overlap_shown(o: Overlap, st: Seq<Seq<char>>) -> Seq<char> {
    match o {
        Overlap::Name(n) => quoted(st, n) + " could match either particle"@,
        Overlap::ElementAndWildcard(n) => quoted(st, n) + " could match either the element particle or the wildcard"@,
        Overlap::Wildcards => "two wildcards admit overlapping namespaces"@,
    }
}

/// The help a finding gives.
pub open spec fn overlap_help(o: Overlap) -> Seq<char> {
    match o {
        Overlap::Name(_) => "make the choice explicit, or merge the two particles"@,
        Overlap::ElementAndWildcard(_) => "XSD 1.1 resolves this in favour of the element particle; XSD 1.0 rejects it"@,
        Overlap::Wildcards => "narrow one wildcard's `namespace` constraint"@,
    }
}

/// Whether `d` reports contest `c` of the model of `def`: the ambiguity
/// and what the positions compete over, at the two particles, an error
/// unless the model is approximate, which the message says, or conformance
/// is lax.
pub open spec fn reports_contest(d: Diagnostic, s: Schemas, def: TypeDefinition, a: AutomatonView, c: Contest, mode: Conformance) -> bool {
    let st = s.interned();
    let p = s.particle_defs()[a.positions[c.0 as int].particle@ as int];
    let q = s.particle_defs()[a.positions[c.1 as int].particle@ as int];
    &&& d.code == DiagCode::AmbiguousContentModel
    &&& d.severity == if a.approximated || mode == Conformance::Lax {
        Severity::Warning
    } else {
        Severity::Error
    }
    &&& d.message@ == "the content model of "@ + owner_shown(def, st) + " is ambiguous: "@ + overlap_shown(c.2, st) + if a.approximated {
        " (occurrence ranges were widened; verdict is approximate)"@
    } else {
        Seq::empty()
    }
    &&& d.spans@.len() == 2
    &&& d.spans@[0].uri@ == p.span.uri@ && d.spans@[0].line == p.span.line
    &&& opt_chars(d.spans@[0].label) == Some("one candidate"@)
    &&& d.spans@[1].uri@ == q.span.uri@ && d.spans@[1].line == q.span.line
    &&& opt_chars(d.spans@[1].label) == Some("the other"@)
    &&& opt_chars(d.help) == Some(overlap_help(c.2))
}

/// Whether a name's parts are interned.
pub open spec fn name_interned(st: Seq<Seq<char>>, q: QName) -> bool {
    q.local@ < st.len() && (q.ns matches Some(n) ==> n@ < st.len())
}

/// What checking `a` reads is held: every position's particle, and every
/// declaration a position admits, with its name interned; and the owning
/// type's name interned.
pub open spec fn upa_ready(s: Schemas, def: TypeDefinition, a: AutomatonView) -> bool {
    &&& automaton_wf(a)
    &&& forall|x: int| 0 <= x < a.positions.len() ==> (#[trigger] a.positions[x]).particle@ < s.particle_defs().len()
    &&& forall|x: int, k: int|
        0 <= x < a.positions.len() && 0 <= k < (#[trigger] a.positions[x]).admits@.len() ==> {
            &&& (#[trigger] a.positions[x].admits@[k])@ < s.element_decls().len()
            &&& name_interned(s.interned(), element_name(s, a.positions[x].admits@[k]))
        }
    &&& name_of(def) matches Some(q) ==> name_interned(s.interned(), q)
}

/// The name of declaration `e`.
fn name_of_element(s: &Schemas, e: ElementId) -> (r: QName)
    requires
        e@ < s.element_decls().len(),
    ensures
        r == element_name(*s, e),
{
    match s.get_element(e) {
        Some(d) => d.name,
        None => QName { ns: None, local: crate::names::Symbol::empty() },
    }
}

/// Whether some declaration of `qs` is named `n`.
fn names_hold(s: &Schemas, qs: &Vec<ElementId>, n: QName) -> (r: bool)
    requires
        forall|k: int| 0 <= k < qs@.len() ==> (#[trigger] qs@[k])@ < s.element_decls().len(),
    ensures
        r == names_of(*s, qs@).contains(n),
{
    let mut k: usize = 0;
    while k < qs.len()
        invariant
            k <= qs@.len(),
            forall|m: int| 0 <= m < qs@.len() ==> (#[trigger] qs@[m])@ < s.element_decls().len(),
            forall|m: int| 0 <= m < k ==> element_name(*s, #[trigger] qs@[m]) != n,
        decreases qs.len() - k,
    {
        if name_of_element(s, qs[k]) == n {
            assert(names_of(*s, qs@)[k as int] == n);
            return true;
        }
        k += 1;
    }
    assert(!names_of(*s, qs@).contains(n)) by {
        assert forall|m: int| 0 <= m < names_of(*s, qs@).len() implies names_of(*s, qs@)[m] != n by {
            assert(element_name(*s, qs@[m]) != n);
        }
    }
    false
}

/// The first name of `es` that a declaration of `qs` carries too.
fn shared_name(s: &Schemas, es: &Vec<ElementId>, qs: &Vec<ElementId>) -> (r: Option<QName>)
    requires
        forall|k: int| 0 <= k < qs@.len() ==> (#[trigger] qs@[k])@ < s.element_decls().len(),
        forall|k: int| 0 <= k < es@.len() ==> (#[trigger] es@[k])@ < s.element_decls().len(),
    ensures
        r == first_shared(*s, es@, qs@, 0),
{
    let mut k: usize = 0;
    while k < es.len()
        invariant
            k <= es@.len(),
            forall|m: int| 0 <= m < qs@.len() ==> (#[trigger] qs@[m])@ < s.element_decls().len(),
            forall|m: int| 0 <= m < es@.len() ==> (#[trigger] es@[m])@ < s.element_decls().len(),
            first_shared(*s, es@, qs@, k as nat) == first_shared(*s, es@, qs@, 0),
        decreases es.len() - k,
    {
        let n = name_of_element(s, es[k]);
        if names_hold(s, qs, n) {
            return Some(n);
        }
        k += 1;
    }
    None
}

/// Whether `v` holds `q`.
fn holds_name(v: &Vec<QName>, q: QName) -> (r: bool)
    ensures
        r == v@.contains(q),
{
    let mut i: usize = 0;
    while i < v.len()
        invariant
            i <= v@.len(),
            forall|j: int| 0 <= j < i ==> v@[j] != q,
        decreases v.len() - i,
    {
        if v[i] == q {
            return true;
        }
        i += 1;
    }
    false
}

/// Whether wildcard `w` admits `name`.
pub fn admits_name(s: &Schemas, w: &Wildcard, name: QName, siblings: &Vec<QName>) -> (r: bool)
    ensures
        r == wildcard_admits(*s, *w, name, siblings@),
{
    w.namespace.admits(name.ns) && !holds_name(&w.not_qname, name) && !(w.not_defined_sibling && holds_name(
        siblings,
        name,
    )) && !(w.not_defined && s.globals().elements.get(name).is_some())
}

/// The first name of `es` that `w` admits.
fn admitted_name(s: &Schemas, w: &Wildcard, es: &Vec<ElementId>, siblings: &Vec<QName>) -> (r: Option<QName>)
    requires
        forall|k: int| 0 <= k < es@.len() ==> (#[trigger] es@[k])@ < s.element_decls().len(),
    ensures
        r == first_admitted(*s, *w, es@, siblings@, 0),
{
    let mut k: usize = 0;
    while k < es.len()
        invariant
            k <= es@.len(),
            forall|m: int| 0 <= m < es@.len() ==> (#[trigger] es@[m])@ < s.element_decls().len(),
            first_admitted(*s, *w, es@, siblings@, k as nat) == first_admitted(*s, *w, es@, siblings@, 0),
        decreases es.len() - k,
    {
        let n = name_of_element(s, es[k]);
        if admits_name(s, w, n, siblings) {
            return Some(n);
        }
        k += 1;
    }
    None
}

/// The wildcard of position `p`'s particle, if it is one.
fn wildcard_of<'a>(s: &'a Schemas, p: &Position) -> (r: Option<&'a Wildcard>)
    requires
        p.particle@ < s.particle_defs().len(),
    ensures
        r == (match wildcard_at(*s, *p) {
            Some(w) => Some(&w),
            None => None,
        }),
{
    match s.get_particle(p.particle) {
        Some(d) => match &d.term {
            Term::Wildcard(w) => Some(w),
            _ => None,
        },
        None => None,
    }
}

/// What positions `p` and `q` compete over, if anything.
fn overlap(s: &Schemas, p: &Position, q: &Position, siblings: &Vec<QName>) -> (r: Option<Overlap>)
    requires
        p.particle@ < s.particle_defs().len(),
        q.particle@ < s.particle_defs().len(),
        forall|k: int| 0 <= k < p.admits@.len() ==> (#[trigger] p.admits@[k])@ < s.element_decls().len(),
        forall|k: int| 0 <= k < q.admits@.len() ==> (#[trigger] q.admits@[k])@ < s.element_decls().len(),
    ensures
        r == overlap_of(*s, *p, *q, siblings@),
{
    match (&p.label, &q.label) {
        (Label::Element(_), Label::Element(_)) => match shared_name(s, &p.admits, &q.admits) {
            Some(n) => Some(Overlap::Name(n)),
            None => None,
        },
        (Label::Element(_), Label::Wildcard) => match wildcard_of(s, q) {
            Some(w) => match admitted_name(s, w, &p.admits, siblings) {
                Some(n) => Some(Overlap::ElementAndWildcard(n)),
                None => None,
            },
            None => None,
        },
        (Label::Wildcard, Label::Element(_)) => match wildcard_of(s, p) {
            Some(w) => match admitted_name(s, w, &q.admits, siblings) {
                Some(n) => Some(Overlap::ElementAndWildcard(n)),
                None => None,
            },
            None => None,
        },
        (Label::Wildcard, Label::Wildcard) => match (wildcard_of(s, p), wildcard_of(s, q)) {
            (Some(x), Some(y)) => if wildcards_overlap(x, y) {
                Some(Overlap::Wildcards)
            } else {
                None
            },
            _ => None,
        },
    }
}

/// What positions `x` and `y` of `a` compete over, as an ambiguity.
fn contest_of(s: &Schemas, def: &TypeDefinition, a: &ContentAutomaton, x: u32, y: u32, siblings: &Vec<QName>, version: Version) -> (r: Option<Overlap>)
    requires
        upa_ready(*s, *def, a@),
        x < a@.positions.len(),
        y < a@.positions.len(),
    ensures
        r == contest(*s, a@, x, y, siblings@, version),
{
    let p = a.position(x);
    let q = a.position(y);
    if p.particle == q.particle {
        return None;
    }
    match overlap(s, p, q, siblings) {
        Some(o) => match o {
            Overlap::ElementAndWildcard(_) => if version == Version::Xsd11 {
                None
            } else {
                Some(o)
            },
            _ => Some(o),
        },
        None => None,
    }
}

/// Appends `q` in backquotes.
fn push_quoted(s: &Schemas, out: &mut Vec<char>, q: QName)
    requires
        name_interned(s.interned(), q),
    ensures
        final(out)@ == old(out)@ + quoted(s.interned(), q),
{
    push_str(out, "`");
    let shown = s.display_name(q);
    push_str(out, shown.as_str());
    push_str(out, "`");
}

/// The finding for contest `c` of the model of `def`.
fn upa_diagnostic(s: &Schemas, def: &TypeDefinition, a: &ContentAutomaton, c: (u32, u32, Overlap), mode: Conformance) -> (r: Diagnostic)
    requires
        upa_ready(*s, *def, a@),
        c.0 < a@.positions.len(),
        c.1 < a@.positions.len(),
        match c.2 {
            Overlap::Name(n) => name_interned(s.interned(), n),
            Overlap::ElementAndWildcard(n) => name_interned(s.interned(), n),
            Overlap::Wildcards => true,
        },
    ensures
        reports_contest(r, *s, *def, a@, c, mode),
{
    let mut m: Vec<char> = Vec::new();
    push_str(&mut m, "the content model of ");
    match def.name() {
        Some(q) => push_quoted(s, &mut m, q),
        None => push_str(&mut m, "an anonymous type"),
    }
    push_str(&mut m, " is ambiguous: ");
    let help = match c.2 {
        Overlap::Name(n) => {
            push_quoted(s, &mut m, n);
            push_str(&mut m, " could match either particle");
            "make the choice explicit, or merge the two particles"
        },
        Overlap::ElementAndWildcard(n) => {
            push_quoted(s, &mut m, n);
            push_str(&mut m, " could match either the element particle or the wildcard");
            "XSD 1.1 resolves this in favour of the element particle; XSD 1.0 rejects it"
        },
        Overlap::Wildcards => {
            push_str(&mut m, "two wildcards admit overlapping namespaces");
            "narrow one wildcard's `namespace` constraint"
        },
    };
    let approximated = a.approximated();
    if approximated {
        push_str(&mut m, " (occurrence ranges were widened; verdict is approximate)");
    }
    assert(m@ =~= "the content model of "@ + owner_shown(*def, s.interned()) + " is ambiguous: "@ + overlap_shown(
        c.2,
        s.interned(),
    ) + if a@.approximated {
        " (occurrence ranges were widened; verdict is approximate)"@
    } else {
        Seq::empty()
    });
    let message = string_from_chars(&m);
    let d = if approximated || mode == Conformance::Lax {
        Diagnostic::warning(DiagCode::AmbiguousContentModel, message.as_str())
    } else {
        Diagnostic::error(DiagCode::AmbiguousContentModel, message.as_str())
    };
    let pp = a.position(c.0).particle;
    let qp = a.position(c.1).particle;
    let (ps, qs) = match (s.get_particle(pp), s.get_particle(qp)) {
        (Some(x), Some(y)) => (&x.span, &y.span),
        _ => {
            return d;
        },
    };
    let first = Span::labelled(ps.uri.as_str(), ps.line, "one candidate");
    let second = Span::labelled(qs.uri.as_str(), qs.line, "the other");
    let r = d.at(first).at(second).with_help(help);
    assert(r.spans@[0] == first);
    assert(r.spans@[1] == second);
    r
}

/// Whether `v` holds the pair `k`.
fn holds_pair(v: &Vec<(ParticleId, ParticleId)>, k: (ParticleId, ParticleId)) -> (r: bool)
    ensures
        r == v@.contains(k),
{
    let mut i: usize = 0;
    while i < v.len()
        invariant
            i <= v@.len(),
            forall|j: int| 0 <= j < i ==> v@[j] != k,
        decreases v.len() - i,
    {
        if v[i].0 == k.0 && v[i].1 == k.1 {
            return true;
        }
        i += 1;
    }
    false
}

/// Whether `after` is `before` followed by a report of each of `cs`.
pub open spec fn contests_reported(
    before: Seq<Diagnostic>,
    after: Seq<Diagnostic>,
    s: Schemas,
    def: TypeDefinition,
    a: AutomatonView,
    cs: Seq<Contest>,
    mode: Conformance,
) -> bool {
    &&& after.len() == before.len() + cs.len()
    &&& after.take(before.len() as int) == before
    &&& forall|k: int| 0 <= k < cs.len() ==> reports_contest(#[trigger] after[before.len() + k], s, def, a, cs[k], mode)
}

/// A contest names what it competes over by a declaration's name, which is
/// interned.
proof fn lemma_contest_names_interned(s: Schemas, def: TypeDefinition, a: AutomatonView, x: u32, y: u32, siblings: Seq<QName>, version: Version)
    requires
        upa_ready(s, def, a),
        x < a.positions.len(),
        y < a.positions.len(),
    ensures
        contest(s, a, x, y, siblings, version) matches Some(o) ==> match o {
            Overlap::Name(n) => name_interned(s.interned(), n),
            Overlap::ElementAndWildcard(n) => name_interned(s.interned(), n),
            Overlap::Wildcards => true,
        },
{
    let (p, q) = (a.positions[x as int], a.positions[y as int]);
    lemma_first_shared_interned(s, def, a, x as int, q.admits@, 0);
    if let Some(w) = wildcard_at(s, q) {
        lemma_first_admitted_interned(s, def, a, x as int, w, siblings, 0);
    }
    if let Some(w) = wildcard_at(s, p) {
        lemma_first_admitted_interned(s, def, a, y as int, w, siblings, 0);
    }
}

proof fn lemma_first_shared_interned(s: Schemas, def: TypeDefinition, a: AutomatonView, x: int, qs: Seq<ElementId>, k: nat)
    requires
        upa_ready(s, def, a),
        0 <= x < a.positions.len(),
    ensures
        first_shared(s, a.positions[x].admits@, qs, k) matches Some(n) ==> name_interned(s.interned(), n),
    decreases a.positions[x].admits@.len() - k,
{
    let es = a.positions[x].admits@;
    if k < es.len() {
        assert(name_interned(s.interned(), element_name(s, es[k as int])));
        lemma_first_shared_interned(s, def, a, x, qs, k + 1);
    }
}

proof fn lemma_first_admitted_interned(s: Schemas, def: TypeDefinition, a: AutomatonView, x: int, w: Wildcard, siblings: Seq<QName>, k: nat)
    requires
        upa_ready(s, def, a),
        0 <= x < a.positions.len(),
    ensures
        first_admitted(s, w, a.positions[x].admits@, siblings, k) matches Some(n) ==> name_interned(s.interned(), n),
    decreases a.positions[x].admits@.len() - k,
{
    let es = a.positions[x].admits@;
    if k < es.len() {
        assert(name_interned(s.interned(), element_name(s, es[k as int])));
        lemma_first_admitted_interned(s, def, a, x, w, siblings, k + 1);
    }
}

/// Checks Unique Particle Attribution in the automaton `a` of the content
/// model of `def`: reports each contest, in the order the states (the start
/// positions, then each position's successors) and their pairs are
/// scanned, once per pair of particles.
pub fn check_upa(
    s: &Schemas,
    def: &TypeDefinition,
    a: &ContentAutomaton,
    siblings: &Vec<QName>,
    mode: Conformance,
    version: Version,
    diags: &mut Diagnostics,
)
    requires
        upa_ready(*s, *def, a@),
    ensures
        contests_reported(old(diags)@, final(diags)@, *s, *def, a@, contests(*s, a@, siblings@, version), mode),
{
    let ghost start = diags@;
    let ghost target = contests(*s, a@, siblings@, version);
    let n = a.positions().len() as u64;
    let mut seen: Vec<(ParticleId, ParticleId)> = Vec::new();
    let ghost mut found: Seq<Contest> = Seq::empty();
    let mut k: u64 = 0;
    proof {
        assert(diags@.take(start.len() as int) =~= start);
    }
    while k <= n
        invariant
            n == a@.positions.len(),
            n <= u32::MAX,
            upa_ready(*s, *def, a@),
            k <= n + 1,
            scan_states(*s, a@, siblings@, version, k as nat, seen@, found) == target,
            contests_reported(start, diags@, *s, *def, a@, found, mode),
        decreases n + 1 - k,
    {
        let ts: &[u32] = if k == 0 {
            a.first()
        } else {
            a.follow((k - 1) as u32)
        };
        assert(ts@ == state_targets(a@, k as nat));
        let ghost seen0 = seen@;
        let ghost found0 = found;
        let mut i: usize = 0;
        while i < ts.len()
            invariant
                n == a@.positions.len(),
                upa_ready(*s, *def, a@),
                ts@ == state_targets(a@, k as nat),
                forall|t: int| 0 <= t < ts@.len() ==> (#[trigger] ts@[t]) < n,
                i <= ts@.len(),
                scan_state(*s, a@, ts@, siblings@, version, i as nat, (i + 1) as nat, seen@, found)
                    == scan_state(*s, a@, ts@, siblings@, version, 0, 1, seen0, found0),
                contests_reported(start, diags@, *s, *def, a@, found, mode),
            decreases ts.len() - i,
        {
            let mut j: usize = i + 1;
            while j < ts.len()
                invariant
                    n == a@.positions.len(),
                    upa_ready(*s, *def, a@),
                    forall|t: int| 0 <= t < ts@.len() ==> (#[trigger] ts@[t]) < n,
                    i < ts@.len(),
                    i + 1 <= j <= ts@.len(),
                    scan_state(*s, a@, ts@, siblings@, version, i as nat, j as nat, seen@, found)
                        == scan_state(*s, a@, ts@, siblings@, version, 0, 1, seen0, found0),
                    contests_reported(start, diags@, *s, *def, a@, found, mode),
                decreases ts.len() - j,
            {
                let x = ts[i];
                let y = ts[j];
                proof {
                    lemma_contest_names_interned(*s, *def, a@, x, y, siblings@, version);
                }
                match contest_of(s, def, a, x, y, siblings, version) {
                    Some(o) => {
                        let px = a.position(x).particle;
                        let py = a.position(y).particle;
                        let key = if px.index() < py.index() {
                            (px, py)
                        } else {
                            (py, px)
                        };
                        if !holds_pair(&seen, key) {
                            let d = upa_diagnostic(s, def, a, (x, y, o), mode);
                            let ghost before = diags@;
                            diags.push(d);
                            seen.push(key);
                            proof {
                                let f2 = found.push((x, y, o));
                                assert(diags@.take(start.len() as int) =~= start) by {
                                    assert(before.take(start.len() as int) =~= start);
                                    assert forall|t: int| 0 <= t < start.len() implies diags@[t] == start[t] by {
                                        assert(before.take(start.len() as int)[t] == start[t]);
                                    }
                                }
                                assert forall|t: int| 0 <= t < f2.len() implies reports_contest(
                                    #[trigger] diags@[start.len() + t],
                                    *s,
                                    *def,
                                    a@,
                                    f2[t],
                                    mode,
                                ) by {
                                    if t < found.len() {
                                        assert(diags@[start.len() + t] == before[start.len() + t]);
                                    }
                                }
                                found = f2;
                            }
                        }
                    },
                    None => {},
                }
                j += 1;
            }
            i += 1;
        }
        k += 1;
    }
}

/// The automaton compiled for type `t` and the names its model writes out,
/// when it has one and checking it reads only what is held.
pub open spec fn checked_model(s: Schemas, t: int) -> Option<(AutomatonView, Seq<QName>)> {
    if 0 <= t < s.contents().len() && t < s.type_defs().len() {
        match s.contents()[t] {
            Some(c) => match c.model {
                crate::content::ContentModel::Automaton(a) => if upa_ready(s, s.type_defs()[t], a@) {
                    Some((a@, c.siblings@))
                } else {
                    None
                },
                _ => None,
            },
            None => None,
        }
    } else {
        None
    }
}

/// The contests of the models of the first `k` types, each with its type.
pub open spec fn contests_through(s: Schemas, k: nat) -> Seq<(int, Contest)>
    decreases k,
{
    if k == 0 {
        Seq::empty()
    } else {
        contests_through(s, (k - 1) as nat) + match checked_model(s, k - 1) {
            Some((a, sib)) => contests(s, a, sib, s.version_read()).map_values(|c: Contest| (k - 1, c)),
            None => Seq::empty(),
        }
    }
}

/// Whether `after` is `before` followed by a report of each contest of
/// the compiled models of `s`, type by type.
pub open spec fn upa_reported(s: Schemas, mode: Conformance, before: Seq<Diagnostic>, after: Seq<Diagnostic>) -> bool {
    let cs = contests_through(s, s.contents().len());
    &&& after.len() == before.len() + cs.len()
    &&& after.take(before.len() as int) == before
    &&& forall|k: int|
        0 <= k < cs.len() ==> {
            let (t, c) = cs[k];
            reports_contest(#[trigger] after[before.len() + k], s, s.type_defs()[t], checked_model(s, t).unwrap().0, c, mode)
        }
}

/// Whether checking the automaton `a` of `def` reads only what is held.
fn check_upa_ready(s: &Schemas, def: &TypeDefinition, a: &ContentAutomaton) -> (r: bool)
    ensures
        r == upa_ready(*s, *def, a@),
{
    proof {
        use_type_invariant(a);
    }
    let ps = a.positions();
    let np = s.iter_particles().len();
    let ne = s.iter_elements().len();
    let nn = s.names().len();
    let mut x: usize = 0;
    while x < ps.len()
        invariant
            x <= ps@.len(),
            ps@ == a@.positions,
            automaton_wf(a@),
            np == s.particle_defs().len(),
            ne == s.element_decls().len(),
            nn == s.interned().len(),
            forall|y: int| 0 <= y < x ==> (#[trigger] a@.positions[y]).particle@ < np,
            forall|y: int, k: int|
                0 <= y < x && 0 <= k < (#[trigger] a@.positions[y]).admits@.len() ==> {
                    &&& (#[trigger] a@.positions[y].admits@[k])@ < ne
                    &&& name_interned(s.interned(), element_name(*s, a@.positions[y].admits@[k]))
                },
        decreases ps.len() - x,
    {
        if ps[x].particle.index() >= np {
            assert(a@.positions[x as int].particle@ >= np);
            return false;
        }
        let admits = &ps[x].admits;
        let mut k: usize = 0;
        while k < admits.len()
            invariant
                x < a@.positions.len(),
                k <= admits@.len(),
                admits@ == a@.positions[x as int].admits@,
                ne == s.element_decls().len(),
                nn == s.interned().len(),
                forall|j: int|
                    0 <= j < k ==> {
                        &&& (#[trigger] admits@[j])@ < ne
                        &&& name_interned(s.interned(), element_name(*s, admits@[j]))
                    },
            decreases admits.len() - k,
        {
            if admits[k].index() >= ne {
                assert(a@.positions[x as int].admits@[k as int]@ >= ne);
                return false;
            }
            let q = name_of_element(s, admits[k]);
            assert(admits@[k as int] == a@.positions[x as int].admits@[k as int]);
            let ok = q.local.index() < nn && match q.ns {
                Some(n) => n.symbol().index() < nn,
                None => true,
            };
            if !ok {
                assert(!name_interned(s.interned(), element_name(*s, a@.positions[x as int].admits@[k as int])));
                return false;
            }
            k += 1;
        }
        proof {
            assert forall|y: int, k2: int|
                0 <= y < x + 1 && 0 <= k2 < (#[trigger] a@.positions[y]).admits@.len() implies {
                    &&& (#[trigger] a@.positions[y].admits@[k2])@ < ne
                    &&& name_interned(s.interned(), element_name(*s, a@.positions[y].admits@[k2]))
                } by {
                if y == x as int {
                    assert(admits@[k2] == a@.positions[y].admits@[k2]);
                }
            }
        }
        x += 1;
    }
    match def.name() {
        Some(q) => q.local.index() < nn && match q.ns {
            Some(n) => n.symbol().index() < nn,
            None => true,
        },
        None => true,
    }
}

/// Checks Unique Particle Attribution in every compiled automaton, type by
/// type, reporting each contest once per pair of particles.
pub fn check_upa_all(s: &Schemas, mode: Conformance, diags: &mut Diagnostics)
    ensures
        upa_reported(*s, mode, old(diags)@, final(diags)@),
{
    let ghost start = diags@;
    let version = s.xsd_version();
    let cs = s.content_list();
    let types = s.iter_types();
    let mut t: usize = 0;
    assert(diags@.take(start.len() as int) =~= start);
    while t < cs.len()
        invariant
            t <= cs@.len(),
            cs@ == s.contents(),
            types@ == s.type_defs(),
            version == s.version_read(),
            diags@.len() == start.len() + contests_through(*s, t as nat).len(),
            diags@.take(start.len() as int) == start,
            forall|k: int|
                0 <= k < contests_through(*s, t as nat).len() ==> {
                    let (u, c) = contests_through(*s, t as nat)[k];
                    reports_contest(#[trigger] diags@[start.len() + k], *s, s.type_defs()[u], checked_model(*s, u).unwrap().0, c, mode)
                },
        decreases cs.len() - t,
    {
        let ghost before = diags@;
        let ghost done = contests_through(*s, t as nat);
        if t < types.len() {
            match &cs[t] {
                Some(c) => match &c.model {
                    crate::content::ContentModel::Automaton(a) => {
                        let def = &types[t];
                        if check_upa_ready(s, def, a) {
                            check_upa(s, def, a, &c.siblings, mode, version, diags);
                            proof {
                                let mine = contests(*s, a@, c.siblings@, version);
                                let tagged = mine.map_values(|x: Contest| (t as int, x));
                                assert(s.contents()[t as int] == Some(*c));
                                assert(checked_model(*s, t as int) == Some((a@, c.siblings@)));
                                assert(contests_through(*s, (t + 1) as nat) =~= done + tagged);
                                assert(diags@.take(start.len() as int) =~= start) by {
                                    assert forall|i: int| 0 <= i < start.len() implies diags@[i] == start[i] by {
                                        assert(diags@.take(before.len() as int)[i] == before[i]);
                                        assert(before.take(start.len() as int)[i] == start[i]);
                                    }
                                }
                                assert forall|k: int| 0 <= k < contests_through(*s, (t + 1) as nat).len() implies {
                                    let (u, x) = contests_through(*s, (t + 1) as nat)[k];
                                    reports_contest(#[trigger] diags@[start.len() + k], *s, s.type_defs()[u], checked_model(*s, u).unwrap().0, x, mode)
                                } by {
                                    if k < done.len() {
                                        assert(diags@.take(before.len() as int)[start.len() + k] == before[start.len() + k]);
                                    } else {
                                        let m = k - done.len();
                                        assert(contests_through(*s, (t + 1) as nat)[k] == tagged[m]);
                                        assert(tagged[m] == (t as int, mine[m]));
                                        assert(diags@[before.len() + m] == diags@[start.len() + k]);
                                        assert(reports_contest(diags@[before.len() + m], *s, *def, a@, mine[m], mode));
                                    }
                                }
                            }
                        } else {
                            assert(contests_through(*s, (t + 1) as nat) =~= done);
                        }
                    },
                    _ => {
                        assert(contests_through(*s, (t + 1) as nat) =~= done);
                    },
                },
                None => {
                    assert(contests_through(*s, (t + 1) as nat) =~= done);
                },
            }
        } else {
            assert(contests_through(*s, (t + 1) as nat) =~= done);
        }
        t += 1;
    }
}

} // verus!
