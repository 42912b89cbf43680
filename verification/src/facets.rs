//! Facet rules that hold within one restriction step.

use vstd::prelude::*;
use crate::datatypes::{FacetKind, FacetSet};
use crate::diagnostics::{is_error_at, DiagCode, Diagnostic, Diagnostics, Span};
use crate::model::SimpleType;
use crate::text::{decimal_chars, push_decimal, push_str, string_from_chars};

verus! {

/// What the facets declared at one step contradict, in the order they are
/// checked: `length` beside `minLength`, `length` beside `maxLength`,
/// `minLength` above `maxLength`, `fractionDigits` above `totalDigits`, and
/// a `totalDigits` of zero.
pub open spec fn conflict_messages(f: FacetSet) -> Seq<Seq<char>> {
    (if f.length is Some && f.min_length is Some {
        seq!["`xs:length` and `xs:minLength` cannot both be declared here"@]
    } else {
        Seq::empty()
    }) + (if f.length is Some && f.max_length is Some {
        seq!["`xs:length` and `xs:maxLength` cannot both be declared here"@]
    } else {
        Seq::empty()
    }) + (match (f.min_length, f.max_length) {
        (Some(min), Some(max)) => if min > max {
            seq![
                "`xs:minLength` "@ + decimal_chars(min as nat) + " exceeds `xs:maxLength` "@ + decimal_chars(
                    max as nat,
                ),
            ]
        } else {
            Seq::empty()
        },
        _ => Seq::empty(),
    }) + (match (f.total_digits, f.fraction_digits) {
        (Some(t), Some(fd)) => if fd > t {
            seq![
                "`xs:fractionDigits` "@ + decimal_chars(fd as nat) + " exceeds `xs:totalDigits` "@
                    + decimal_chars(t as nat),
            ]
        } else {
            Seq::empty()
        },
        _ => Seq::empty(),
    }) + (if f.total_digits == Some(0u32) {
        seq!["`xs:totalDigits` must be at least 1"@]
    } else {
        Seq::empty()
    })
}

/// Appends a conflicting-facets error saying `msg` at `span`.
fn conflict(diags: &mut Diagnostics, msg: &Vec<char>, span: &Span)
    ensures
        final(diags)@.len() == old(diags)@.len() + 1,
        final(diags)@.take(old(diags)@.len() as int) == old(diags)@,
        is_error_at(final(diags)@.last(), DiagCode::ConflictingFacets, msg@, *span, None),
{
    let m = string_from_chars(msg);
    let d = Diagnostic::error(DiagCode::ConflictingFacets, m.as_str()).at(span.duplicate());
    diags.push(d);
    assert(diags@.take(old(diags)@.len() as int) =~= old(diags)@);
}

/// Rule 3: pairs declared at this step that cannot both hold, each reported
/// as an error at `span`.
pub fn consistent(s: &SimpleType, span: &Span, diags: &mut Diagnostics)
    ensures
        final(diags)@.len() == old(diags)@.len() + conflict_messages(s.facets).len(),
        final(diags)@.take(old(diags)@.len() as int) == old(diags)@,
        forall|i: int|
            0 <= i < conflict_messages(s.facets).len() ==> is_error_at(
                #[trigger] final(diags)@[old(diags)@.len() + i],
                DiagCode::ConflictingFacets,
                conflict_messages(s.facets)[i],
                *span,
                None,
            ),
{
    let f = &s.facets;
    let ghost base = old(diags)@;
    let ghost mut said: Seq<Seq<char>> = Seq::empty();
    proof {
        reveal_strlit("`xs:length` and `xs:minLength` cannot both be declared here");
        reveal_strlit("`xs:length` and `xs:maxLength` cannot both be declared here");
        reveal_strlit("`xs:minLength` ");
        reveal_strlit(" exceeds `xs:maxLength` ");
        reveal_strlit("`xs:fractionDigits` ");
        reveal_strlit(" exceeds `xs:totalDigits` ");
        reveal_strlit("`xs:totalDigits` must be at least 1");
    }
    if f.length.is_some() && f.min_length.is_some() {
        let mut m: Vec<char> = Vec::new();
        push_str(&mut m, "`xs:length` and `xs:minLength` cannot both be declared here");
        conflict(diags, &m, span);
        proof {
            said = said.push(m@);
        }
    }
    if f.length.is_some() && f.max_length.is_some() {
        let mut m: Vec<char> = Vec::new();
        push_str(&mut m, "`xs:length` and `xs:maxLength` cannot both be declared here");
        conflict(diags, &m, span);
        proof {
            said = said.push(m@);
        }
    }
    match (f.min_length, f.max_length) {
        (Some(min), Some(max)) => {
            if min > max {
                let mut m: Vec<char> = Vec::new();
                push_str(&mut m, "`xs:minLength` ");
                push_decimal(&mut m, min as u128);
                push_str(&mut m, " exceeds `xs:maxLength` ");
                push_decimal(&mut m, max as u128);
                conflict(diags, &m, span);
                proof {
                    said = said.push(m@);
                }
            }
        },
        _ => {},
    }
    match (f.total_digits, f.fraction_digits) {
        (Some(t), Some(fd)) => {
            if fd > t {
                let mut m: Vec<char> = Vec::new();
                push_str(&mut m, "`xs:fractionDigits` ");
                push_decimal(&mut m, fd as u128);
                push_str(&mut m, " exceeds `xs:totalDigits` ");
                push_decimal(&mut m, t as u128);
                conflict(diags, &m, span);
                proof {
                    said = said.push(m@);
                }
            }
        },
        _ => {},
    }
    match f.total_digits {
        Some(0) => {
            let mut m: Vec<char> = Vec::new();
            push_str(&mut m, "`xs:totalDigits` must be at least 1");
            conflict(diags, &m, span);
            proof {
                said = said.push(m@);
            }
        },
        _ => {},
    }
    assert(said =~= conflict_messages(s.facets));
}

/// Which facets a step declared, in the order of the facet list.
pub open spec fn spec_declared_kinds(f: FacetSet) -> Seq<FacetKind> {
    (if f.length is Some { seq![FacetKind::Length] } else { Seq::empty() })
        + (if f.min_length is Some { seq![FacetKind::MinLength] } else { Seq::empty() })
        + (if f.max_length is Some { seq![FacetKind::MaxLength] } else { Seq::empty() })
        + (if f.patterns@.len() > 0 { seq![FacetKind::Pattern] } else { Seq::empty() })
        + (if f.enumeration is Some { seq![FacetKind::Enumeration] } else { Seq::empty() })
        + (if f.white_space is Some { seq![FacetKind::WhiteSpace] } else { Seq::empty() })
        + (if f.max_inclusive is Some { seq![FacetKind::MaxInclusive] } else { Seq::empty() })
        + (if f.max_exclusive is Some { seq![FacetKind::MaxExclusive] } else { Seq::empty() })
        + (if f.min_inclusive is Some { seq![FacetKind::MinInclusive] } else { Seq::empty() })
        + (if f.min_exclusive is Some { seq![FacetKind::MinExclusive] } else { Seq::empty() })
        + (if f.total_digits is Some { seq![FacetKind::TotalDigits] } else { Seq::empty() })
        + (if f.fraction_digits is Some { seq![FacetKind::FractionDigits] } else { Seq::empty() })
        + (if f.explicit_timezone is Some { seq![FacetKind::ExplicitTimezone] } else { Seq::empty() })
        + (if f.assertions@.len() > 0 { seq![FacetKind::Assertion] } else { Seq::empty() })
}

fn add_if(out: &mut Vec<FacetKind>, present: bool, k: FacetKind)
    ensures
        final(out)@ == old(out)@ + (if present { seq![k] } else { Seq::empty() }),
{
    if present {
        out.push(k);
    } else {
        assert(old(out)@ + Seq::<FacetKind>::empty() =~= old(out)@);
    }
}

/// Which facets this step actually declared.
pub fn declared_kinds(f: &FacetSet) -> (r: Vec<FacetKind>)
    ensures
        r@ == spec_declared_kinds(*f),
{
    let mut out: Vec<FacetKind> = Vec::new();
    add_if(&mut out, f.length.is_some(), FacetKind::Length);
    add_if(&mut out, f.min_length.is_some(), FacetKind::MinLength);
    add_if(&mut out, f.max_length.is_some(), FacetKind::MaxLength);
    add_if(&mut out, f.patterns.len() > 0, FacetKind::Pattern);
    add_if(&mut out, f.enumeration.is_some(), FacetKind::Enumeration);
    add_if(&mut out, f.white_space.is_some(), FacetKind::WhiteSpace);
    add_if(&mut out, f.max_inclusive.is_some(), FacetKind::MaxInclusive);
    add_if(&mut out, f.max_exclusive.is_some(), FacetKind::MaxExclusive);
    add_if(&mut out, f.min_inclusive.is_some(), FacetKind::MinInclusive);
    add_if(&mut out, f.min_exclusive.is_some(), FacetKind::MinExclusive);
    add_if(&mut out, f.total_digits.is_some(), FacetKind::TotalDigits);
    add_if(&mut out, f.fraction_digits.is_some(), FacetKind::FractionDigits);
    add_if(&mut out, f.explicit_timezone.is_some(), FacetKind::ExplicitTimezone);
    add_if(&mut out, f.assertions.len() > 0, FacetKind::Assertion);
    assert(out@ =~= spec_declared_kinds(*f));
    out
}

} // verus!
