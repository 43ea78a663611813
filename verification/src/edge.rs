use std::cmp::Ordering;
use vstd::prelude::*;

verus! {

/// A directed segment of the boundary, from point `i` to point `j` of the cloud.
///
/// Two edges are equal when they join the same points in the same direction.
/// They are ordered by their squared length alone.
#[derive(Debug, Clone, Copy)]
pub struct Edge {
    /// Index of the first point.
    pub i: usize,
    /// Index of the second point.
    pub j: usize,
    /// Squared length of the segment, on an integer scale that keeps the order
    /// of the squared lengths.
    pub norm: u64,
}

impl PartialEq for Edge {
    fn eq(&self, other: &Self) -> (same: bool) {
        self.i == other.i && self.j == other.j
    }
}

impl Eq for Edge {

}

impl vstd::std_specs::cmp::PartialEqSpecImpl for Edge {
    open spec fn obeys_eq_spec() -> bool {
        true
    }

    open spec fn eq_spec(&self, other: &Self) -> bool {
        self.i == other.i && self.j == other.j
    }
}

impl PartialOrd for Edge {
    fn partial_cmp(&self, other: &Self) -> (order: Option<Ordering>) {
        if self.norm < other.norm {
            Some(Ordering::Less)
        } else if self.norm == other.norm {
            Some(Ordering::Equal)
        } else {
            Some(Ordering::Greater)
        }
    }
}

impl vstd::std_specs::cmp::PartialOrdSpecImpl for Edge {
    open spec fn obeys_partial_cmp_spec() -> bool {
        true
    }

    open spec fn partial_cmp_spec(&self, other: &Self) -> Option<Ordering> {
        if self.norm < other.norm {
            Some(Ordering::Less)
        } else if self.norm == other.norm {
            Some(Ordering::Equal)
        } else {
            Some(Ordering::Greater)
        }
    }
}

impl Edge {
    /// The pair of point indices that the edge joins.
    pub open spec fn link(self) -> (usize, usize) {
        (self.i, self.j)
    }

    /// The edge from point `i` to point `j`, of squared length `norm`.
    pub fn new(i: usize, j: usize, norm: u64) -> (edge: Edge)
        ensures
            edge == (Edge { i, j, norm }),
    {
        Edge { i, j, norm }
    }

    /// The edge that leaves the point `idx` for the point after it, counting
    /// around a ring of `total_edges` points: the first follows the last.
    pub fn from_points_and_idx(idx: usize, total_edges: usize, norm: u64) -> (edge: Edge)
        requires
            total_edges > 0,
            idx < usize::MAX,
        ensures
            edge.i == idx,
            edge.j == (idx + 1) % (total_edges as int),
            edge.norm == norm,
    {
        Edge { i: idx, j: (idx + 1) % total_edges, norm }
    }

    /// The squared length of the edge.
    pub fn norm_squared(&self) -> (norm: u64)
        ensures
            norm == self.norm,
    {
        self.norm
    }

    /// The two edges that take the place of this one when the point `idx` is
    /// put between its ends: from `i` to `idx`, of squared length
    /// `first_norm`, and from `idx` to `j`, of squared length `second_norm`.
    pub fn split_by(&self, idx: usize, first_norm: u64, second_norm: u64) -> (halves: (Edge, Edge))
        ensures
            halves.0 == (Edge { i: self.i, j: idx, norm: first_norm }),
            halves.1 == (Edge { i: idx, j: self.j, norm: second_norm }),
    {
        let first = Edge { i: self.i, j: idx, norm: first_norm };
        let second = Edge { i: idx, j: self.j, norm: second_norm };
        (first, second)
    }
}

} // verus!
