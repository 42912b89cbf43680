//! Where an `xs:all` group may appear: *All Group Limited*, one of the few
//! constraints the two versions state differently rather than one merely
//! adding to the other.
//!
//! An `all` group is not a regular expression. Its members are matched in
//! any order, which is why the specification confines it to positions where
//! per-member counters are enough.

use vstd::prelude::*;
use crate::diagnostics::{is_error_at, opt_chars, DiagCode, Diagnostic, Diagnostics, Severity, Span};
use crate::load::Version;
use crate::model::{
    Compositor, ContentType, MaxOccurs, ModelGroup, ModelGroupDef, Particle, ParticleId, Term, TypeDefinition,
};
use crate::names::clark_chars;
use crate::schemas::Schemas;
use crate::text::{push_str, string_from_chars};

verus! {

/// Where a particle sits, which is what decides whether its term may be an
/// `all` group.
#[derive(Copy, Clone, PartialEq, Eq, Debug, Structural)]
pub enum GroupPosition {
    /// The `{particle}` of a complex type's `{content type}` — clause 1.2.
    ContentModel,
    /// Inside an `all` — clause 1.3, and 1.1 only.
    InsideAll,
    /// Inside a sequence or a choice, where an `all` is never allowed.
    InsideOrdered,
}

/// What is wrong with an `all` group's particle at `position`, as the end of
/// a sentence starting "an `xs:all` group", and the help that goes with it;
/// nothing when it is where it may be.
pub open spec fn position_fault(particle: Particle, position: GroupPosition, version: Version) -> Option<(Seq<char>, Seq<char>)> {
    match position {
        GroupPosition::ContentModel => if particle.max_occurs != MaxOccurs::Bounded(1) {
            Some(
                (
                    "may not have `maxOccurs` greater than 1"@,
                    "an `xs:all` matches its members in any order, which cannot be repeated"@,
                ),
            )
        } else {
            None
        },
        GroupPosition::InsideAll => if version == Version::Xsd11 {
            if particle.min_occurs != 1 || particle.max_occurs != MaxOccurs::Bounded(1) {
                Some(
                    (
                        "nested in another `xs:all` must have `minOccurs` and `maxOccurs` of 1"@,
                        "XSD 1.1 allows the nesting, but only for exactly one occurrence"@,
                    ),
                )
            } else {
                None
            }
        } else {
            Some(("may not appear inside another `xs:all` in XSD 1.0"@, "nesting an `xs:all` needs XSD 1.1"@))
        },
        GroupPosition::InsideOrdered => Some(
            (
                "may only be a complex type's whole content model, or a named group definition"@,
                "an `xs:all` cannot sit inside an `xs:sequence` or an `xs:choice`"@,
            ),
        ),
    }
}

/// A finding: its message, its help, the particle it is at, and, for a
/// reference to a group, where that group is defined.
pub type GroupFault = (Seq<char>, Seq<char>, Span, Option<Span>);

/// Whether `d` reports the finding `f`.
pub open spec fn reports_fault(d: Diagnostic, f: GroupFault) -> bool {
    match f.3 {
        None => is_error_at(d, DiagCode::InvalidOccurrence, f.0, f.2, Some(f.1)),
        Some(def) => {
            &&& d.code == DiagCode::InvalidOccurrence
            &&& d.severity == Severity::Error
            &&& d.message@ == f.0
            &&& opt_chars(d.help) == Some(f.1)
            &&& d.spans@.len() == 2
            &&& d.spans@[0].same_as(f.2)
            &&& d.spans@[1].uri@ == def.uri@
            &&& d.spans@[1].line == def.line
            &&& opt_chars(d.spans@[1].label) == Some("defined here"@)
        },
    }
}

/// Whether `after` is `before` followed by one report for each of `fs`.
pub open spec fn faults_reported(before: Seq<Diagnostic>, after: Seq<Diagnostic>, fs: Seq<GroupFault>) -> bool {
    &&& after.len() == before.len() + fs.len()
    &&& after.take(before.len() as int) == before
    &&& forall|k: int| 0 <= k < fs.len() ==> reports_fault(#[trigger] after[before.len() + k], fs[k])
}

/// Reports follow one another.
pub proof fn lemma_faults_chain(a: Seq<Diagnostic>, b: Seq<Diagnostic>, c: Seq<Diagnostic>, f1: Seq<GroupFault>, f2: Seq<GroupFault>)
    requires
        faults_reported(a, b, f1),
        faults_reported(b, c, f2),
    ensures
        faults_reported(a, c, f1 + f2),
{
    assert(c.take(a.len() as int) =~= b.take(a.len() as int)) by {
        assert forall|k: int| 0 <= k < a.len() implies c[k] == b[k] by {
            assert(c.take(b.len() as int)[k] == b[k]);
        }
    }
    assert forall|k: int| 0 <= k < (f1 + f2).len() implies reports_fault(#[trigger] c[a.len() + k], (f1 + f2)[k]) by {
        if k < f1.len() {
            assert(c.take(b.len() as int)[a.len() + k] == b[a.len() + k]);
        } else {
            assert(c[a.len() + k] == c[b.len() + (k - f1.len())]);
        }
    }
}

/// The finding for an `all` group's particle out of place, if it is.
pub open spec fn position_faults(particle: Particle, position: GroupPosition, version: Version) -> Seq<GroupFault> {
    match position_fault(particle, position, version) {
        Some((what, help)) => seq![("an `xs:all` group "@ + what, help, particle.span, None)],
        None => Seq::empty(),
    }
}

/// Clause 1: the positions an `all` may occupy. Reports at most one error,
/// at the particle carrying the group.
pub fn check_position(particle: &Particle, position: GroupPosition, version: Version, diags: &mut Diagnostics)
    ensures
        faults_reported(old(diags)@, final(diags)@, position_faults(*particle, position, version)),
{
    let ghost before = diags@;
    let fault: Option<(&str, &str)> = match position {
        GroupPosition::ContentModel => if particle.max_occurs != MaxOccurs::Bounded(1) {
            Some(
                (
                    "may not have `maxOccurs` greater than 1",
                    "an `xs:all` matches its members in any order, which cannot be repeated",
                ),
            )
        } else {
            None
        },
        GroupPosition::InsideAll => if version == Version::Xsd11 {
            if particle.min_occurs != 1 || particle.max_occurs != MaxOccurs::Bounded(1) {
                Some(
                    (
                        "nested in another `xs:all` must have `minOccurs` and `maxOccurs` of 1",
                        "XSD 1.1 allows the nesting, but only for exactly one occurrence",
                    ),
                )
            } else {
                None
            }
        } else {
            Some(("may not appear inside another `xs:all` in XSD 1.0", "nesting an `xs:all` needs XSD 1.1"))
        },
        GroupPosition::InsideOrdered => Some(
            (
                "may only be a complex type's whole content model, or a named group definition",
                "an `xs:all` cannot sit inside an `xs:sequence` or an `xs:choice`",
            ),
        ),
    };
    match fault {
        None => {
            assert(diags@.take(before.len() as int) =~= before);
        },
        Some((what, help)) => {
            let mut m: Vec<char> = Vec::new();
            push_str(&mut m, "an `xs:all` group ");
            push_str(&mut m, what);
            let msg = string_from_chars(&m);
            let d = Diagnostic::error(DiagCode::InvalidOccurrence, msg.as_str()).at(particle.span.duplicate()).with_help(
                help,
            );
            diags.push(d);
            proof {
                assert(diags@.take(before.len() as int) =~= before);
                assert(diags@[before.len() as int] == d);
            }
        },
    }
}

/// What a member of an `all` may be, as findings: in 1.0, at most once; in
/// 1.1, a reference to a group must name an `all` group and occur exactly
/// once.
pub open spec fn member_faults(
    member: Particle,
    groups: Seq<ModelGroupDef>,
    st: Seq<Seq<char>>,
    version: Version,
) -> Seq<GroupFault> {
    if version == Version::Xsd10 {
        if member.max_occurs != MaxOccurs::Bounded(0) && member.max_occurs != MaxOccurs::Bounded(1) {
            seq![
                (
                    "a member of an `xs:all` may not have `maxOccurs` greater than 1"@,
                    "XSD 1.1 lifted this; in 1.0 an `xs:all` member occurs at most once"@,
                    member.span,
                    None,
                ),
            ]
        } else {
            Seq::empty()
        }
    } else {
        match member.term {
            Term::GroupRef(gid) => {
                let r = groups[gid@ as int];
                let shown = clark_chars(
                    match r.name.ns {
                        Some(n) => Some(st[n@ as int]),
                        None => None,
                    },
                    st[r.name.local@ as int],
                );
                if r.group.compositor != Compositor::All {
                    seq![
                        (
                            "`"@ + shown + "` is referenced inside an `xs:all`, but it is not an `xs:all` group"@,
                            "only an `xs:all` group may be referenced from inside an `xs:all`"@,
                            member.span,
                            Some(r.span),
                        ),
                    ]
                } else if member.min_occurs != 1 || member.max_occurs != MaxOccurs::Bounded(1) {
                    seq![
                        (
                            "`"@ + shown + "` is referenced inside an `xs:all`, so it must occur exactly once"@,
                            "`minOccurs` and `maxOccurs` must both be 1 on the reference"@,
                            member.span,
                            None,
                        ),
                    ]
                } else {
                    Seq::empty()
                }
            },
            _ => Seq::empty(),
        }
    }
}

/// Where the members of a group sit.
pub open spec fn inside(g: ModelGroup) -> GroupPosition {
    match g.compositor {
        Compositor::All => GroupPosition::InsideAll,
        _ => GroupPosition::InsideOrdered,
    }
}

/// The findings of a particle at `position`: those of an `all` group it
/// carries for where it sits, then those of the group's members. A group is
/// walked `fuel` levels deep at most.
pub open spec fn particle_faults(
    ps: Seq<Particle>,
    groups: Seq<ModelGroupDef>,
    st: Seq<Seq<char>>,
    p: Particle,
    position: GroupPosition,
    version: Version,
    fuel: nat,
) -> Seq<GroupFault>
    decreases fuel, 0nat, 1nat,
{
    match p.term {
        Term::Group(g) => (if g.compositor == Compositor::All {
            position_faults(p, position, version)
        } else {
            Seq::empty()
        }) + group_faults(ps, groups, st, g, version, fuel),
        _ => Seq::empty(),
    }
}

/// The findings of a group's members, in order.
pub open spec fn group_faults(
    ps: Seq<Particle>,
    groups: Seq<ModelGroupDef>,
    st: Seq<Seq<char>>,
    g: ModelGroup,
    version: Version,
    fuel: nat,
) -> Seq<GroupFault>
    decreases fuel, 0nat, 0nat,
{
    if fuel == 0 {
        Seq::empty()
    } else {
        members_faults(ps, groups, st, g, g.particles@.len(), version, (fuel - 1) as nat)
    }
}

/// The findings of the first `k` members of a group: for each, what it may
/// be as a member of an `all`, then its own.
pub open spec fn members_faults(
    ps: Seq<Particle>,
    groups: Seq<ModelGroupDef>,
    st: Seq<Seq<char>>,
    g: ModelGroup,
    k: nat,
    version: Version,
    fuel: nat,
) -> Seq<GroupFault>
    decreases fuel, 1nat, k,
{
    if k == 0 || k > g.particles@.len() {
        Seq::empty()
    } else {
        let m = ps[g.particles@[k - 1]@ as int];
        members_faults(ps, groups, st, g, (k - 1) as nat, version, fuel) + (if g.compositor == Compositor::All {
            member_faults(m, groups, st, version)
        } else {
            Seq::empty()
        }) + particle_faults(ps, groups, st, m, inside(g), version, fuel)
    }
}

/// Whether every particle id a group holds, and every group a particle
/// refers to, is held here.
pub open spec fn group_ids_held(g: ModelGroup, np: nat) -> bool {
    forall|k: int| 0 <= k < g.particles@.len() ==> (#[trigger] g.particles@[k])@ < np
}

/// Whether the particles, groups and types refer only to particles and
/// groups held here, and every group's name is interned.
pub open spec fn particles_held(
    ps: Seq<Particle>,
    groups: Seq<ModelGroupDef>,
    types: Seq<TypeDefinition>,
    st: Seq<Seq<char>>,
) -> bool {
    &&& forall|i: int|
        0 <= i < ps.len() ==> match (#[trigger] ps[i]).term {
            Term::Group(g) => group_ids_held(g, ps.len()),
            Term::GroupRef(gid) => gid@ < groups.len(),
            _ => true,
        }
    &&& forall|i: int| 0 <= i < groups.len() ==> group_ids_held((#[trigger] groups[i]).group, ps.len())
    &&& forall|i: int|
        0 <= i < groups.len() ==> {
            &&& (#[trigger] groups[i]).name.local@ < st.len()
            &&& groups[i].name.ns matches Some(n) ==> n@ < st.len()
        }
    &&& forall|i: int|
        0 <= i < types.len() ==> match #[trigger] types[i] {
            TypeDefinition::Complex(c) => match content_particle(c.content) {
                Some(pid) => pid@ < ps.len(),
                None => true,
            },
            TypeDefinition::Simple(_) => true,
        }
}

/// A complex type's content particle, if it has one.
pub open spec fn content_particle(c: ContentType) -> Option<ParticleId> {
    match c {
        ContentType::ElementOnly(p) => if p@ == u32::MAX {
            None
        } else {
            Some(p)
        },
        ContentType::Mixed(p) => if p@ == u32::MAX {
            None
        } else {
            Some(p)
        },
        _ => None,
    }
}

/// The findings of the first `i` named groups' own groups.
pub open spec fn defs_faults(
    ps: Seq<Particle>,
    groups: Seq<ModelGroupDef>,
    st: Seq<Seq<char>>,
    version: Version,
    i: nat,
) -> Seq<GroupFault>
    decreases i,
{
    if i == 0 || i > groups.len() {
        Seq::empty()
    } else {
        defs_faults(ps, groups, st, version, (i - 1) as nat) + group_faults(
            ps,
            groups,
            st,
            groups[i - 1].group,
            version,
            ps.len(),
        )
    }
}

/// The findings of the first `i` types' content particles.
pub open spec fn types_faults(
    ps: Seq<Particle>,
    groups: Seq<ModelGroupDef>,
    types: Seq<TypeDefinition>,
    st: Seq<Seq<char>>,
    version: Version,
    i: nat,
) -> Seq<GroupFault>
    decreases i,
{
    if i == 0 || i > types.len() {
        Seq::empty()
    } else {
        types_faults(ps, groups, types, st, version, (i - 1) as nat) + match types[i - 1] {
            TypeDefinition::Complex(c) => match content_particle(c.content) {
                Some(pid) => particle_faults(ps, groups, st, ps[pid@ as int], GroupPosition::ContentModel, version, ps.len()),
                None => Seq::empty(),
            },
            TypeDefinition::Simple(_) => Seq::empty(),
        }
    }
}

/// What a member of an `all` may be. The two versions disagree about this
/// more than about anything else in the rule.
fn check_member(schemas: &Schemas, member: &Particle, version: Version, diags: &mut Diagnostics)
    requires
        particles_held(schemas.particle_defs(), schemas.group_defs(), schemas.type_defs(), schemas.interned()),
        version == Version::Xsd11 ==> (member.term matches Term::GroupRef(gid) ==> gid@ < schemas.group_defs().len()),
    ensures
        faults_reported(
            old(diags)@,
            final(diags)@,
            member_faults(*member, schemas.group_defs(), schemas.interned(), version),
        ),
{
    let ghost before = diags@;
    if version == Version::Xsd10 {
        if member.max_occurs != MaxOccurs::Bounded(0) && member.max_occurs != MaxOccurs::Bounded(1) {
            let d = Diagnostic::error(
                DiagCode::InvalidOccurrence,
                "a member of an `xs:all` may not have `maxOccurs` greater than 1",
            ).at(member.span.duplicate()).with_help(
                "XSD 1.1 lifted this; in 1.0 an `xs:all` member occurs at most once",
            );
            diags.push(d);
            proof {
                assert(diags@.take(before.len() as int) =~= before);
                assert(diags@[before.len() as int] == d);
            }
        } else {
            assert(diags@.take(before.len() as int) =~= before);
        }
        return;
    }
    let gid = match member.term {
        Term::GroupRef(gid) => gid,
        _ => {
            assert(diags@.take(before.len() as int) =~= before);
            return;
        },
    };
    let referenced = match schemas.get_model_group(gid) {
        Some(r) => r,
        None => {
            assert(diags@.take(before.len() as int) =~= before);
            return;
        },
    };
    proof {
        assert(schemas.group_defs()[gid@ as int] == *referenced);
    }
    if referenced.group.compositor != Compositor::All {
        let shown = schemas.display_name(referenced.name);
        let mut m: Vec<char> = Vec::new();
        push_str(&mut m, "`");
        push_str(&mut m, shown.as_str());
        push_str(&mut m, "` is referenced inside an `xs:all`, but it is not an `xs:all` group");
        let msg = string_from_chars(&m);
        let d = Diagnostic::error(DiagCode::InvalidOccurrence, msg.as_str()).at(member.span.duplicate()).at(
            Span::labelled(referenced.span.uri.as_str(), referenced.span.line, "defined here"),
        ).with_help("only an `xs:all` group may be referenced from inside an `xs:all`");
        diags.push(d);
        proof {
            assert(diags@.take(before.len() as int) =~= before);
            assert(diags@[before.len() as int] == d);
        }
        return;
    }
    if member.min_occurs != 1 || member.max_occurs != MaxOccurs::Bounded(1) {
        let shown = schemas.display_name(referenced.name);
        let mut m: Vec<char> = Vec::new();
        push_str(&mut m, "`");
        push_str(&mut m, shown.as_str());
        push_str(&mut m, "` is referenced inside an `xs:all`, so it must occur exactly once");
        let msg = string_from_chars(&m);
        let d = Diagnostic::error(DiagCode::InvalidOccurrence, msg.as_str()).at(member.span.duplicate()).with_help(
            "`minOccurs` and `maxOccurs` must both be 1 on the reference",
        );
        diags.push(d);
        proof {
            assert(diags@.take(before.len() as int) =~= before);
            assert(diags@[before.len() as int] == d);
        }
    } else {
        assert(diags@.take(before.len() as int) =~= before);
    }
}

/// Checks a particle at `position`: an `all` group it carries for where it
/// sits, then the group's members. A reference to a named group is checked
/// where it sits, as a member; the group it names is walked from its
/// definition, once, however many places point at it.
fn walk_particle(
    schemas: &Schemas,
    particle: &Particle,
    position: GroupPosition,
    version: Version,
    diags: &mut Diagnostics,
    fuel: usize,
)
    requires
        particles_held(schemas.particle_defs(), schemas.group_defs(), schemas.type_defs(), schemas.interned()),
        particle.term matches Term::Group(g) ==> group_ids_held(g, schemas.particle_defs().len()),
    ensures
        faults_reported(
            old(diags)@,
            final(diags)@,
            particle_faults(
                schemas.particle_defs(),
                schemas.group_defs(),
                schemas.interned(),
                *particle,
                position,
                version,
                fuel as nat,
            ),
        ),
    decreases fuel, 0nat, 1nat,
{
    let ghost before = diags@;
    match &particle.term {
        Term::Group(group) => {
            let ghost mid0 = diags@;
            if group.compositor == Compositor::All {
                check_position(particle, position, version, diags);
            } else {
                assert(diags@.take(before.len() as int) =~= before);
            }
            let ghost mid = diags@;
            walk_group(schemas, group, version, diags, fuel);
            proof {
                lemma_faults_chain(
                    before,
                    mid,
                    diags@,
                    if group.compositor == Compositor::All {
                        position_faults(*particle, position, version)
                    } else {
                        Seq::empty()
                    },
                    group_faults(
                        schemas.particle_defs(),
                        schemas.group_defs(),
                        schemas.interned(),
                        *group,
                        version,
                        fuel as nat,
                    ),
                );
            }
        },
        _ => {
            assert(diags@.take(before.len() as int) =~= before);
        },
    }
}

/// Checks each member of `group`, in order.
fn walk_group(schemas: &Schemas, group: &ModelGroup, version: Version, diags: &mut Diagnostics, fuel: usize)
    requires
        particles_held(schemas.particle_defs(), schemas.group_defs(), schemas.type_defs(), schemas.interned()),
        group_ids_held(*group, schemas.particle_defs().len()),
    ensures
        faults_reported(
            old(diags)@,
            final(diags)@,
            group_faults(schemas.particle_defs(), schemas.group_defs(), schemas.interned(), *group, version, fuel as nat),
        ),
    decreases fuel, 0nat, 0nat,
{
    let ghost before = diags@;
    let ghost ps = schemas.particle_defs();
    let ghost groups = schemas.group_defs();
    let ghost st = schemas.interned();
    if fuel == 0 {
        assert(diags@.take(before.len() as int) =~= before);
        return;
    }
    let position = match group.compositor {
        Compositor::All => GroupPosition::InsideAll,
        Compositor::Sequence | Compositor::Choice => GroupPosition::InsideOrdered,
    };
    assert(position == inside(*group));
    let mut k: usize = 0;
    assert(diags@.take(before.len() as int) =~= before);
    while k < group.particles.len()
        invariant
            k <= group.particles@.len(),
            fuel >= 1,
            position == inside(*group),
            ps == schemas.particle_defs(),
            groups == schemas.group_defs(),
            st == schemas.interned(),
            particles_held(ps, groups, schemas.type_defs(), st),
            group_ids_held(*group, ps.len()),
            faults_reported(before, diags@, members_faults(ps, groups, st, *group, k as nat, version, (fuel - 1) as nat)),
        decreases group.particles@.len() - k,
    {
        let pid = group.particles[k];
        assert(pid@ < ps.len());
        let member = match schemas.get_particle(pid) {
            Some(m) => m,
            None => {
                return;
            },
        };
        let ghost m = ps[pid@ as int];
        assert(*member == m);
        let ghost at_start = diags@;
        if group.compositor == Compositor::All {
            proof {
                assert(particles_held(ps, groups, schemas.type_defs(), st));
                assert(match ps[pid@ as int].term {
                    Term::Group(g) => group_ids_held(g, ps.len()),
                    Term::GroupRef(gid) => gid@ < groups.len(),
                    _ => true,
                });
            }
            check_member(schemas, member, version, diags);
        } else {
            assert(diags@.take(at_start.len() as int) =~= at_start);
        }
        let ghost mid = diags@;
        proof {
            assert(match ps[pid@ as int].term {
                Term::Group(g) => group_ids_held(g, ps.len()),
                Term::GroupRef(gid) => gid@ < groups.len(),
                _ => true,
            });
        }
        walk_particle(schemas, member, position, version, diags, fuel - 1);
        proof {
            let f1 = if group.compositor == Compositor::All {
                member_faults(m, groups, st, version)
            } else {
                Seq::empty()
            };
            let f2 = particle_faults(ps, groups, st, m, inside(*group), version, (fuel - 1) as nat);
            lemma_faults_chain(at_start, mid, diags@, f1, f2);
            lemma_faults_chain(before, at_start, diags@, members_faults(ps, groups, st, *group, k as nat, version, (fuel - 1) as nat), f1 + f2);
            assert(members_faults(ps, groups, st, *group, (k + 1) as nat, version, (fuel - 1) as nat) =~= members_faults(
                ps,
                groups,
                st,
                *group,
                k as nat,
                version,
                (fuel - 1) as nat,
            ) + (f1 + f2));
        }
        k += 1;
    }
}

/// Checks where every `all` group sits and what its members are: each named
/// group's own group, whose position a named group permits, then each
/// complex type's content particle, in order. Groups are walked as deep as
/// there are particles: deeper nesting could only come from particles that
/// contain themselves, and stops there.
pub fn check_all(schemas: &Schemas) -> (r: Diagnostics)
    requires
        particles_held(schemas.particle_defs(), schemas.group_defs(), schemas.type_defs(), schemas.interned()),
    ensures
        faults_reported(
            Seq::empty(),
            r@,
            defs_faults(
                schemas.particle_defs(),
                schemas.group_defs(),
                schemas.interned(),
                schemas.version_read(),
                schemas.group_defs().len(),
            ) + types_faults(
                schemas.particle_defs(),
                schemas.group_defs(),
                schemas.type_defs(),
                schemas.interned(),
                schemas.version_read(),
                schemas.type_defs().len(),
            ),
        ),
{
    let ghost ps = schemas.particle_defs();
    let ghost groups = schemas.group_defs();
    let ghost types = schemas.type_defs();
    let ghost st = schemas.interned();
    let mut diags = Diagnostics::new();
    let version = schemas.xsd_version();
    let budget = schemas.iter_particles().len();
    let defs = schemas.iter_model_groups();
    let mut i: usize = 0;
    assert(diags@.take(0) =~= Seq::<Diagnostic>::empty());
    while i < defs.len()
        invariant
            defs@ == groups,
            i <= groups.len(),
            budget == ps.len(),
            version == schemas.version_read(),
            ps == schemas.particle_defs(),
            groups == schemas.group_defs(),
            types == schemas.type_defs(),
            st == schemas.interned(),
            particles_held(ps, groups, types, st),
            faults_reported(Seq::empty(), diags@, defs_faults(ps, groups, st, version, i as nat)),
        decreases groups.len() - i,
    {
        let ghost at_start = diags@;
        assert(group_ids_held(groups[i as int].group, ps.len()));
        walk_group(schemas, &defs[i].group, version, &mut diags, budget);
        proof {
            lemma_faults_chain(
                Seq::empty(),
                at_start,
                diags@,
                defs_faults(ps, groups, st, version, i as nat),
                group_faults(ps, groups, st, groups[i as int].group, version, ps.len()),
            );
        }
        i += 1;
    }
    let ghost after_defs = diags@;
    let defs_total = Ghost(defs_faults(ps, groups, st, version, groups.len()));
    let tdefs = schemas.iter_types();
    let mut t: usize = 0;
    assert(diags@.take(after_defs.len() as int) =~= after_defs);
    while t < tdefs.len()
        invariant
            tdefs@ == types,
            t <= types.len(),
            budget == ps.len(),
            version == schemas.version_read(),
            ps == schemas.particle_defs(),
            groups == schemas.group_defs(),
            types == schemas.type_defs(),
            st == schemas.interned(),
            particles_held(ps, groups, types, st),
            faults_reported(Seq::empty(), after_defs, defs_total@),
            faults_reported(after_defs, diags@, types_faults(ps, groups, types, st, version, t as nat)),
        decreases types.len() - t,
    {
        let ghost at_start = diags@;
        let ghost here = match types[t as int] {
            TypeDefinition::Complex(c) => match content_particle(c.content) {
                Some(pid) => particle_faults(ps, groups, st, ps[pid@ as int], GroupPosition::ContentModel, version, ps.len()),
                None => Seq::empty(),
            },
            TypeDefinition::Simple(_) => Seq::empty(),
        };
        assert(match types[t as int] {
            TypeDefinition::Complex(c) => match content_particle(c.content) {
                Some(pid) => pid@ < ps.len(),
                None => true,
            },
            TypeDefinition::Simple(_) => true,
        });
        match &tdefs[t] {
            TypeDefinition::Complex(c) => {
                match c.content.particle() {
                    Some(pid) => {
                        match schemas.get_particle(pid) {
                            Some(p) => {
                                proof {
                                    assert(match ps[pid@ as int].term {
                                        Term::Group(g) => group_ids_held(g, ps.len()),
                                        Term::GroupRef(gid) => gid@ < groups.len(),
                                        _ => true,
                                    });
                                }
                                walk_particle(schemas, p, GroupPosition::ContentModel, version, &mut diags, budget);
                            },
                            None => {},
                        }
                    },
                    None => {
                        assert(diags@.take(at_start.len() as int) =~= at_start);
                    },
                }
            },
            TypeDefinition::Simple(_) => {
                assert(diags@.take(at_start.len() as int) =~= at_start);
            },
        }
        proof {
            lemma_faults_chain(after_defs, at_start, diags@, types_faults(ps, groups, types, st, version, t as nat), here);
        }
        t += 1;
    }
    proof {
        lemma_faults_chain(
            Seq::empty(),
            after_defs,
            diags@,
            defs_total@,
            types_faults(ps, groups, types, st, version, types.len()),
        );
    }
    diags
}

} // verus!
