//! Are an element's or attribute's declared properties consistent with its
//! type? What the diagnostics about a value constraint call it.

use vstd::prelude::*;
use crate::datatypes::Builtin;
use crate::model::{TypeDefinition, TypeId, ValueConstraint};
use crate::schemas::{Schemas, bases_above};

verus! {

/// The attribute a value constraint was written with.
pub open spec fn spec_keyword(vc: ValueConstraint) -> &'static str {
    if vc is Fixed {
        "fixed"
    } else {
        "default"
    }
}

pub fn keyword(vc: &ValueConstraint) -> (r: &'static str)
    ensures
        r == spec_keyword(*vc),
{
    if vc.is_fixed() {
        "fixed"
    } else {
        "default"
    }
}

/// The built-in a type definition is, when it is one.
pub open spec fn builtin_of(t: TypeDefinition) -> Option<Builtin> {
    match t {
        TypeDefinition::Simple(s) => s.builtin,
        TypeDefinition::Complex(_) => None,
    }
}

/// The type `id` followed by its bases, nearest first.
pub open spec fn chain_of(types: Seq<TypeDefinition>, id: TypeId) -> Seq<TypeId> {
    seq![id] + bases_above(types, id, types.len())
}

/// Whether some type of `chain` is `xs:ID`.
pub open spec fn reaches_id(types: Seq<TypeDefinition>, chain: Seq<TypeId>) -> bool {
    exists|k: int| 0 <= k < chain.len() && builtin_of(types[(#[trigger] chain[k])@ as int]) == Some(Builtin::Id)
}

/// Whether the type is `xs:ID` or derived from it.
pub fn is_id(schemas: &Schemas, ty: TypeId) -> (r: bool)
    requires
        forall|k: int|
            0 <= k < chain_of(schemas.type_defs(), ty).len() ==> (#[trigger] chain_of(schemas.type_defs(), ty)[k])@
                < schemas.type_defs().len(),
    ensures
        r == reaches_id(schemas.type_defs(), chain_of(schemas.type_defs(), ty)),
{
    let ghost types = schemas.type_defs();
    let chain = schemas.base_chain(ty);
    let mut i: usize = 0;
    while i < chain.len()
        invariant
            types == schemas.type_defs(),
            chain@ == chain_of(types, ty),
            i <= chain@.len(),
            forall|k: int| 0 <= k < chain@.len() ==> (#[trigger] chain@[k])@ < types.len(),
            forall|k: int| 0 <= k < i ==> builtin_of(types[(#[trigger] chain@[k])@ as int]) != Some(Builtin::Id),
        decreases chain@.len() - i,
    {
        let t = chain[i];
        assert(t@ < types.len());
        match schemas.get_type(t) {
            Some(TypeDefinition::Simple(s)) => match s.builtin {
                Some(b) => if b == Builtin::Id {
                    return true;
                },
                None => {},
            },
            _ => {},
        }
        i += 1;
    }
    false
}

} // verus!
