//! The strand of an alignment and the filter on it.

use vstd::prelude::*;
use bio_types::strand::Same;
use bio_types::strand::Strand;


verus! {

/// `bio_types`' strand of an alignment: `Forward`, `Reverse` or `Unknown`.
/// Declared with its variants, which Verus reads from the crate itself.
#[verifier::external_type_specification]
pub struct ExStrand(Strand);

/// `bio_types`' `Same::same` on two strands: true exactly when both are the
/// same variant (two unknown strands count as the same).
#[verifier::external_body]
pub(crate) fn same_strand(a: &Strand, b: &Strand) -> (r: bool)
    ensures
        r == (*a == *b),
{
    a.same(b)
}

/// `bio_types`' `Strand::is_unknown`: true exactly for `Strand::Unknown`.
pub assume_specification[ Strand::is_unknown ](s: &Strand) -> (r: bool)
    ensures
        r == (*s == Strand::Unknown),
;

/// Whether an alignment on the forward (`forward`) or reverse strand passes
/// the filter `expected`: an unknown expectation lets every alignment pass.
pub open spec fn strand_passes(expected: Strand, forward: bool) -> bool {
    match expected {
        Strand::Forward => forward,
        Strand::Reverse => !forward,
        Strand::Unknown => true,
    }
}

/// Decides whether an alignment passes the orientation filter.
pub fn passes_filter(expected: &Strand, forward: bool) -> (r: bool)
    ensures
        r == strand_passes(*expected, forward),
{
    let strand = if forward {
        Strand::Forward
    } else {
        Strand::Reverse
    };
    same_strand(expected, &strand) || expected.is_unknown()
}

} // verus!
