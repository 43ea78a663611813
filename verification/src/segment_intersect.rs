use crate::edge::Edge;
use vstd::prelude::*;

verus! {

/// Whether two edges join the same two points in the same direction.
pub open spec fn duplicates(e1: Edge, e2: Edge) -> bool {
    e1.i == e2.i && e1.j == e2.j
}

/// Whether one of two edges starts where the other ends.
pub open spec fn chained(e1: Edge, e2: Edge) -> bool {
    e1.i == e2.j || e2.i == e1.j
}

/// The verdict on two edges: duplicates intersect, edges that follow one
/// another in a chain do not, and for every other pair `crossing` decides,
/// which says whether the two segments cross in the plane.
pub open spec fn intersecting(e1: Edge, e2: Edge, crossing: bool) -> bool {
    if duplicates(e1, e2) {
        true
    } else if chained(e1, e2) {
        false
    } else {
        crossing
    }
}

/// Decides whether two edges count as intersecting.
///
/// `crossing` is the outcome of the parametric test on the two segments: true
/// when the point where their lines meet lies on both of them, false when it
/// does not or when the lines are parallel. It is consulted only for edges
/// that are neither duplicates nor chained.
pub fn edges_intersect(e1: &Edge, e2: &Edge, crossing: bool) -> (verdict: bool)
    ensures
        verdict == intersecting(*e1, *e2, crossing),
{
    if e1.i == e2.i && e1.j == e2.j {
        true
    } else if e1.i == e2.j || e2.i == e1.j {
        false
    } else {
        crossing
    }
}

/// Two distinct edges that share the point where one ends and the other
/// starts are never reported as intersecting, whatever their segments do in
/// the plane.
pub proof fn lemma_chained_edges_never_intersect(e1: Edge, e2: Edge, crossing: bool)
    requires
        chained(e1, e2),
        !duplicates(e1, e2),
    ensures
        !intersecting(e1, e2, crossing),
        !intersecting(e2, e1, crossing),
{
}

/// The verdict does not depend on the order of the two edges when the
/// outcome of the parametric test does not.
pub proof fn lemma_intersecting_symmetric(e1: Edge, e2: Edge, crossing: bool)
    ensures
        intersecting(e1, e2, crossing) == intersecting(e2, e1, crossing),
{
}

} // verus!
