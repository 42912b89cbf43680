//! May this type derive from that one?
//!
//! A type's `final` names the derivations it refuses to be the base of. It is
//! how a schema author says "this is the last word".

use vstd::prelude::*;
use crate::compile::{name_of, type_names_in_range, type_span};
use crate::datatypes::Variety;
use crate::diagnostics::{is_error_at, DiagCode, Diagnostic, Diagnostics};
use crate::model::{DerivationMethod, DerivationSet, TypeDefinition, TypeId};
use crate::names::clark_chars;
use crate::schemas::Schemas;
use crate::text::{push_str, str_eq, string_from_chars};

verus! {

/// Whether `set` bars the derivation method named `method`; a name that is
/// no method is barred by nothing.
pub open spec fn spec_blocks(set: DerivationSet, method: Seq<char>) -> bool {
    if method == "extension"@ {
        set.extension
    } else if method == "restriction"@ {
        set.restriction
    } else if method == "list"@ {
        set.list
    } else if method == "union"@ {
        set.union
    } else {
        false
    }
}

pub fn blocks(set: DerivationSet, method: &str) -> (r: bool)
    ensures
        r == spec_blocks(set, method@),
{
    if str_eq(method, "extension") {
        set.extension
    } else if str_eq(method, "restriction") {
        set.restriction
    } else if str_eq(method, "list") {
        set.list
    } else if str_eq(method, "union") {
        set.union
    } else {
        false
    }
}

/// A type definition's `final`.
pub open spec fn spec_final_of(t: TypeDefinition) -> DerivationSet {
    match t {
        TypeDefinition::Simple(s) => s.final_,
        TypeDefinition::Complex(c) => c.final_,
    }
}

/// The name of a derivation method, as it is written in a `final`.
pub open spec fn method_name(m: DerivationMethod) -> Seq<char> {
    match m {
        DerivationMethod::Extension => "extension"@,
        DerivationMethod::Restriction => "restriction"@,
    }
}

/// The types a definition is derived from, each with the method it is
/// derived by, in the order they are checked: a complex type's base by its
/// derivation; an atomic simple type's base by restriction; a list's item
/// type by list; a union's member types by union.
pub open spec fn seal_checks(t: TypeDefinition) -> Seq<(TypeId, Seq<char>)> {
    match t {
        TypeDefinition::Complex(c) => seq![(c.base, method_name(c.derivation))],
        TypeDefinition::Simple(s) => match s.variety {
            Variety::Atomic => seq![(s.base, "restriction"@)],
            Variety::List => match s.item_type {
                Some(it) => seq![(it, "list"@)],
                None => Seq::empty(),
            },
            Variety::Union => s.member_types@.map_values(|m: TypeId| (m, "union"@)),
        },
    }
}

/// Whether the type at slot `i` may not be derived from `base` by `method`:
/// `base` is another type, not a placeholder, whose `final` bars `method`.
pub open spec fn refused(types: Seq<TypeDefinition>, i: nat, base: TypeId, method: Seq<char>) -> bool {
    &&& base@ != i
    &&& base@ != u32::MAX
    &&& spec_blocks(spec_final_of(types[base@ as int]), method)
}

/// The refused derivations among `checks` of the type at slot `i`, in order.
pub open spec fn refusals_among(types: Seq<TypeDefinition>, i: nat, checks: Seq<(TypeId, Seq<char>)>) -> Seq<
    (nat, TypeId, Seq<char>),
>
    decreases checks.len(),
{
    if checks.len() == 0 {
        Seq::empty()
    } else {
        let rest = refusals_among(types, i, checks.drop_last());
        let (b, m) = checks.last();
        if refused(types, i, b, m) {
            rest.push((i, b, m))
        } else {
            rest
        }
    }
}

/// The refused derivations of the first `n` types, in order.
pub open spec fn refusals(types: Seq<TypeDefinition>, n: nat) -> Seq<(nat, TypeId, Seq<char>)>
    decreases n,
{
    if n == 0 {
        Seq::empty()
    } else {
        refusals(types, (n - 1) as nat) + refusals_among(types, (n - 1) as nat, seal_checks(types[n - 1]))
    }
}

/// Whether every type a definition is derived from is one held, apart from
/// the type itself and placeholders.
pub open spec fn derived_from_held(types: Seq<TypeDefinition>) -> bool {
    forall|i: int, k: int|
        0 <= i < types.len() && 0 <= k < seal_checks(#[trigger] types[i]).len() ==> {
            let b = (#[trigger] seal_checks(types[i])[k]).0@;
            b == i || b == u32::MAX || b < types.len()
        }
}

/// How a type is named in a finding: its name in Clark notation, or "an
/// anonymous type".
pub open spec fn shown_in_finding(t: TypeDefinition, st: Seq<Seq<char>>) -> Seq<char> {
    match name_of(t) {
        Some(q) => clark_chars(
            match q.ns {
                Some(n) => Some(st[n@ as int]),
                None => None,
            },
            st[q.local@ as int],
        ),
        None => "an anonymous type"@,
    }
}

/// The diagnostic for the refused derivation `f`: an error at the derived
/// type, naming both types and the method.
pub open spec fn reports_refusal(d: Diagnostic, f: (nat, TypeId, Seq<char>), types: Seq<TypeDefinition>, st: Seq<Seq<char>>) -> bool {
    let (i, b, m) = f;
    is_error_at(
        d,
        DiagCode::DerivationBlocked,
        shown_in_finding(types[i as int], st) + " cannot derive from "@ + shown_in_finding(types[b@ as int], st)
            + " by "@ + m,
        type_span(types[i as int]),
        Some("its `final` forbids "@ + m),
    )
}

/// A definition with one check refuses it or nothing.
proof fn lemma_single_check(types: Seq<TypeDefinition>, i: nat, checks: Seq<(TypeId, Seq<char>)>)
    requires
        checks.len() == 1,
    ensures
        refusals_among(types, i, checks) == if refused(types, i, checks[0].0, checks[0].1) {
            seq![(i, checks[0].0, checks[0].1)]
        } else {
            Seq::empty()
        },
{
    assert(checks.drop_last() =~= Seq::<(TypeId, Seq<char>)>::empty());
    assert(refusals_among(types, i, checks.drop_last()) == Seq::<(nat, TypeId, Seq<char>)>::empty());
}

/// A type definition's `final`.
pub fn final_of(t: &TypeDefinition) -> (r: DerivationSet)
    ensures
        r == spec_final_of(*t),
{
    match t {
        TypeDefinition::Simple(s) => s.final_,
        TypeDefinition::Complex(c) => c.final_,
    }
}

/// How the type `id` is named in a finding.
fn finding_name(schemas: &Schemas, id: TypeId, out: &mut Vec<char>)
    requires
        id@ < schemas.type_defs().len(),
        type_names_in_range(schemas.type_defs(), schemas.interned()),
    ensures
        final(out)@ == old(out)@ + shown_in_finding(schemas.type_defs()[id@ as int], schemas.interned()),
{
    match schemas.get_type(id) {
        Some(def) => match def.name() {
            Some(q) => {
                assert(name_of(schemas.type_defs()[id@ as int]) == Some(q));
                let shown = schemas.display_name(q);
                push_str(out, shown.as_str());
            },
            None => push_str(out, "an anonymous type"),
        },
        None => {},
    }
}

/// Reports the derivation of `derived` from `base` by `method` if `base`
/// seals itself against it.
///
/// A type is its own base at the top of each branch, and the built-ins seal
/// nothing, so neither case can produce a finding.
fn seal(schemas: &Schemas, derived: TypeId, base: TypeId, method: &str, diags: &mut Diagnostics)
    requires
        derived@ < schemas.type_defs().len(),
        base@ == derived@ || base@ == u32::MAX || base@ < schemas.type_defs().len(),
        type_names_in_range(schemas.type_defs(), schemas.interned()),
    ensures
        if refused(schemas.type_defs(), derived@, base, method@) {
            &&& final(diags)@.len() == old(diags)@.len() + 1
            &&& final(diags)@.take(old(diags)@.len() as int) == old(diags)@
            &&& reports_refusal(final(diags)@.last(), (derived@, base, method@), schemas.type_defs(), schemas.interned())
        } else {
            final(diags)@ == old(diags)@
        },
{
    if base.index() == derived.index() || base.is_placeholder() {
        return;
    }
    let base_def = match schemas.get_type(base) {
        Some(d) => d,
        None => return,
    };
    if !blocks(final_of(base_def), method) {
        return;
    }
    let derived_def = match schemas.get_type(derived) {
        Some(d) => d,
        None => return,
    };
    let mut msg: Vec<char> = Vec::new();
    finding_name(schemas, derived, &mut msg);
    push_str(&mut msg, " cannot derive from ");
    finding_name(schemas, base, &mut msg);
    push_str(&mut msg, " by ");
    push_str(&mut msg, method);
    let text = string_from_chars(&msg);
    let mut h: Vec<char> = Vec::new();
    push_str(&mut h, "its `final` forbids ");
    push_str(&mut h, method);
    let help = string_from_chars(&h);
    let d = Diagnostic::error(DiagCode::DerivationBlocked, text.as_str()).at(derived_def.span().duplicate()).with_help(
        help.as_str(),
    );
    let ghost before = diags@;
    diags.push(d);
    proof {
        assert(d.spans@ =~= seq![type_span(schemas.type_defs()[derived@ as int])]);
        assert(diags@.take(before.len() as int) =~= before);
    }
}

/// Reports every type that derives from a type whose `final` forbids the
/// method it uses, in the order of the types and, within a union, of its
/// members.
pub fn check_all(schemas: &Schemas) -> (r: Diagnostics)
    requires
        derived_from_held(schemas.type_defs()),
        type_names_in_range(schemas.type_defs(), schemas.interned()),
    ensures
        r@.len() == refusals(schemas.type_defs(), schemas.type_defs().len()).len(),
        forall|k: int|
            0 <= k < r@.len() ==> reports_refusal(
                #[trigger] r@[k],
                refusals(schemas.type_defs(), schemas.type_defs().len())[k],
                schemas.type_defs(),
                schemas.interned(),
            ),
{
    let ghost types = schemas.type_defs();
    let ghost st = schemas.interned();
    let mut diags = Diagnostics::new();
    let defs = schemas.iter_types();
    let mut i: usize = 0;
    while i < defs.len()
        invariant
            defs@ == types,
            types.len() <= u32::MAX,
            types == schemas.type_defs(),
            st == schemas.interned(),
            i <= types.len(),
            derived_from_held(types),
            type_names_in_range(types, st),
            diags@.len() == refusals(types, i as nat).len(),
            forall|k: int|
                0 <= k < diags@.len() ==> reports_refusal(#[trigger] diags@[k], refusals(types, i as nat)[k], types, st),
        decreases types.len() - i,
    {
        let id = TypeId::from_index(i);
        let ghost checks = seal_checks(types[i as int]);
        let ghost before = diags@;
        let ghost found = refusals(types, i as nat);
        proof {
            assert forall|k: int| 0 <= k < checks.len() implies {
                let b = (#[trigger] checks[k]).0@;
                b == i || b == u32::MAX || b < types.len()
            } by {
                assert(seal_checks(types[i as int])[k] == checks[k]);
            }
        }
        match &defs[i] {
            TypeDefinition::Complex(c) => {
                let method = match c.derivation {
                    DerivationMethod::Extension => "extension",
                    DerivationMethod::Restriction => "restriction",
                };
                assert(checks[0] == (c.base, method@));
                seal(schemas, id, c.base, method, &mut diags);
                proof {
                    lemma_single_check(types, i as nat, checks);
                }
            },
            TypeDefinition::Simple(s) => match s.variety {
                Variety::Atomic => {
                    assert(checks[0] == (s.base, "restriction"@));
                    seal(schemas, id, s.base, "restriction", &mut diags);
                    proof {
                        lemma_single_check(types, i as nat, checks);
                    }
                },
                Variety::List => {
                    match s.item_type {
                        Some(item) => {
                            assert(checks[0] == (item, "list"@));
                            seal(schemas, id, item, "list", &mut diags);
                            proof {
                                lemma_single_check(types, i as nat, checks);
                            }
                        },
                        None => {
                            assert(checks.len() == 0);
                        },
                    }
                },
                Variety::Union => {
                    let mut j: usize = 0;
                    while j < s.member_types.len()
                        invariant
                            checks == s.member_types@.map_values(|m: TypeId| (m, "union"@)),
                            j <= s.member_types@.len(),
                            forall|k: int| 0 <= k < checks.len() ==> {
                                let b = (#[trigger] checks[k]).0@;
                                b == i || b == u32::MAX || b < types.len()
                            },
                            id@ == i,
                            i < types.len(),
                            types == schemas.type_defs(),
                            st == schemas.interned(),
                            type_names_in_range(types, st),
                            diags@.len() == before.len() + refusals_among(types, i as nat, checks.take(j as int)).len(),
                            diags@.take(before.len() as int) == before,
                            forall|k: int|
                                0 <= k < diags@.len() - before.len() ==> reports_refusal(
                                    #[trigger] diags@[before.len() + k],
                                    refusals_among(types, i as nat, checks.take(j as int))[k],
                                    types,
                                    st,
                                ),
                        decreases s.member_types@.len() - j,
                    {
                        let m = s.member_types[j];
                        assert(checks[j as int] == (m, "union"@));
                        let ghost mid = diags@;
                        seal(schemas, id, m, "union", &mut diags);
                        proof {
                            let prev = refusals_among(types, i as nat, checks.take(j as int));
                            assert(checks.take(j + 1).drop_last() =~= checks.take(j as int));
                            assert(checks.take(j + 1).last() == (m, "union"@));
                            assert(diags@.take(before.len() as int) =~= mid.take(before.len() as int));
                            let now = refusals_among(types, i as nat, checks.take(j + 1));
                            assert forall|k: int| 0 <= k < diags@.len() - before.len() implies reports_refusal(
                                #[trigger] diags@[before.len() + k],
                                now[k],
                                types,
                                st,
                            ) by {
                                if k < prev.len() {
                                    assert(diags@[before.len() + k] == mid[before.len() + k]);
                                    assert(now[k] == prev[k]);
                                }
                            }
                        }
                        j += 1;
                    }
                    proof {
                        assert(checks.take(j as int) =~= checks);
                    }
                },
            },
        }
        proof {
            let among = refusals_among(types, i as nat, checks);
            assert(diags@.len() == before.len() + among.len());
            assert(diags@.take(before.len() as int) == before);
            assert(forall|k: int| 0 <= k < among.len() ==> reports_refusal(
                #[trigger] diags@[before.len() + k],
                among[k],
                types,
                st,
            ));
            assert(refusals(types, (i + 1) as nat) == found + among);
            assert forall|k: int| 0 <= k < diags@.len() implies reports_refusal(
                #[trigger] diags@[k],
                refusals(types, (i + 1) as nat)[k],
                types,
                st,
            ) by {
                if k < found.len() {
                    assert(diags@[k] == diags@.take(before.len() as int)[k]);
                } else {
                    assert(diags@[k] == diags@[before.len() + (k - found.len())]);
                }
            }
        }
        i += 1;
    }
    diags
}

} // verus!
