//! The capability a key type must offer to be indexed by the tree.

use vstd::prelude::*;

verus! {

/// A spatial or interval-like key.
///
/// The tree never looks inside a region: it only asks whether a stored region
/// overlaps a query, whether two regions are the same key, and for a region
/// that encloses two others. Everything the tree promises is promised for
/// implementations that keep the contracts below.
///
/// `overlaps` and `overlaps_reflexive` exist for the verifier only. An
/// implementation that is compiled without it writes `overlaps` as a call of
/// `collapses_with` and gives `overlaps_reflexive` an empty body.
pub trait Region: Sized {
    /// The overlap relation between a stored region and a query.
    spec fn overlaps(&self, query: &Self) -> bool;

    /// Every region overlaps itself.
    proof fn overlaps_reflexive(&self)
        ensures
            self.overlaps(self),
    ;

    /// Decides the overlap relation.
    fn collapses_with(&self, query: &Self) -> (hit: bool)
        ensures
            hit == self.overlaps(query),
    ;

    /// Decides whether two regions are the same key.
    fn same_as(&self, other: &Self) -> (same: bool)
        ensures
            same == (*self == *other),
    ;

    /// A region that overlaps every query that `self` or `other` overlaps.
    fn cover_of(&self, other: &Self) -> (cover: Self)
        ensures
            forall|q: Self| #[trigger] self.overlaps(&q) ==> cover.overlaps(&q),
            forall|q: Self| #[trigger] other.overlaps(&q) ==> cover.overlaps(&q),
    ;
}

/// `outer` overlaps every query that `inner` overlaps.
pub open spec fn encloses<R: Region>(outer: &R, inner: &R) -> bool {
    forall|q: R| #[trigger] inner.overlaps(&q) ==> outer.overlaps(&q)
}

} // verus!
