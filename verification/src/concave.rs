use crate::candidate::{best_candidate, lemma_best_exists};
use crate::edge::Edge;
use crate::queue::{lemma_longest_exists, longest, EdgeQueue};
use crate::reconstruct::reconstruct;
use crate::ring::{closes, lemma_ring_edges_close, ring_edges};
use crate::segment_intersect::{edges_intersect, intersecting};
use crate::state::{
    lemma_accepted, lemma_after_wf, lemma_cycle_not_empty, lemma_opened, lemma_settle,
    lemma_settle_step, Answer, Request, State,
};
use std::collections::HashSet;
use vstd::prelude::*;
use vstd::seq_lib::group_to_multiset_ensures;

verus! {

/// Whether the set holds the points of the boundary and no others.
spec fn marks(boundary: Set<usize>, cycle: Seq<usize>) -> bool {
    forall|v: usize| #[trigger] boundary.contains(v) <==> cycle.contains(v)
}

/// The refinement of a convex hull into a concave one, between two requests.
///
/// It is made by [`concave_hull`] and moved on by [`Refinement::hull`],
/// [`Refinement::scores`] and [`Refinement::crossings`], each of which takes
/// the answer to the request that [`Refinement::request`] shows. Once that is
/// [`Request::Done`], [`Refinement::ring`] holds the hull.
pub struct Refinement {
    points: usize,
    limit: u64,
    pending: EdgeQueue,
    finalized: Vec<Edge>,
    boundary: HashSet<usize>,
    request: Request,
    ring: Vec<usize>,
    cycle: Ghost<Seq<usize>>,
}

impl View for Refinement {
    type V = State;

    closed spec fn view(&self) -> State {
        State {
            points: self.points as nat,
            limit: self.limit,
            cycle: self.cycle@,
            finalized: self.finalized@,
            pending: self.pending@,
            request: self.request,
            ring: self.ring@,
        }
    }
}

/// Takes up a cloud of `points` points, to give it a hull no edge of which is
/// left longer than `limit` where it can be opened. `limit` is the square of
/// the concavity, on the scale of the squared lengths of the edges: a limit
/// below all of them has every edge opened that can be opened, a limit that
/// none of them exceeds leaves the convex hull as it is.
///
/// For a cloud of at most two points the ring is complete at once and lists
/// the points of the cloud in their order. Any other cloud asks for its
/// convex hull first.
pub fn concave_hull(points: usize, limit: u64) -> (refinement: Refinement)
    ensures
        refinement@ == State::start(points as nat, limit),
        refinement.wf(),
{
    let mut ring: Vec<usize> = Vec::new();
    if points == 1 || points == 2 {
        ring.push(0);
    }
    if points == 2 {
        ring.push(1);
    }
    let request = if points <= 2 {
        Request::Done
    } else {
        Request::Hull
    };
    let refinement = Refinement {
        points,
        limit,
        pending: EdgeQueue::with_capacity(0),
        finalized: Vec::new(),
        boundary: HashSet::new(),
        request,
        ring,
        cycle: Ghost(Seq::empty()),
    };
    proof {
        assert(refinement.ring@ =~= State::start(points as nat, limit).ring);
        assert(refinement.cycle@ =~= Seq::<usize>::empty());
    }
    refinement
}

impl Refinement {
    /// What holds of every refinement: its state is well-formed.
    pub closed spec fn wf(&self) -> bool {
        &&& self@.wf()
        &&& self.request is Scores || self.request is Crossings ==> marks(
            self.boundary@,
            self.cycle@,
        )
    }

    /// The state of a refinement is well-formed.
    pub proof fn lemma_state_wf(&self)
        requires
            self.wf(),
        ensures
            self@.wf(),
    {
    }

    /// What the refinement waits for.
    pub fn request(&self) -> (request: Request)
        ensures
            request == self@.request,
    {
        self.request
    }

    /// The number of points in the cloud.
    pub fn points(&self) -> (points: usize)
        ensures
            points == self@.points,
    {
        self.points
    }

    /// The ring: the indices of the points of the hull in order around it,
    /// the first following the last. It is empty until the request is
    /// [`Request::Done`].
    pub fn ring(&self) -> (ring: &Vec<usize>)
        ensures
            ring@ == self@.ring,
    {
        &self.ring
    }

    /// The edges accepted as final so far, in the order of their acceptance.
    pub fn finalized(&self) -> (finalized: &Vec<Edge>)
        ensures
            finalized@ == self@.finalized,
    {
        &self.finalized
    }

    /// The edges of the boundary against which the two halves of an opened
    /// edge are to be tested, in the order in which
    /// [`Refinement::crossings`] expects the outcomes.
    pub fn edges(&self) -> (edges: Vec<Edge>)
        ensures
            edges@ == self@.edges(),
    {
        let mut edges: Vec<Edge> = Vec::with_capacity(self.finalized.len());
        let mut k: usize = 0;
        while k < self.finalized.len()
            invariant
                k <= self.finalized.len(),
                edges@ == self.finalized@.subrange(0, k as int),
            decreases self.finalized.len() - k,
        {
            edges.push(self.finalized[k]);
            k += 1;
            proof {
                assert(edges@ =~= self.finalized@.subrange(0, k as int));
            }
        }
        let mut k: usize = 0;
        while k < self.pending.len()
            invariant
                k <= self.pending@.len(),
                edges@ == self.finalized@ + self.pending@.subrange(0, k as int),
            decreases self.pending@.len() - k,
        {
            edges.push(self.pending.get(k));
            k += 1;
            proof {
                assert(edges@ =~= self.finalized@ + self.pending@.subrange(0, k as int));
            }
        }
        proof {
            assert(edges@ =~= self@.edges());
        }
        edges
    }

    /// Takes the convex hull of the cloud: the indices of its points in
    /// order around it, and in `norms[k]` the squared length of its edge from
    /// `indices[k]` to the point after it. A hull that names a point twice or
    /// a point that the cloud does not have, or that is empty though the
    /// cloud has more than three points, is not taken, nor is one that was
    /// not asked for.
    pub fn hull(self, indices: &Vec<usize>, norms: &Vec<u64>) -> (next: Refinement)
        requires
            self.wf(),
        ensures
            next@ == self@.with_hull(indices@, norms@),
            next.wf(),
    {
        match self.request {
            Request::Hull => {},
            _ => {
                return self;
            },
        }
        if norms.len() != indices.len() {
            return self;
        }
        if self.points > 3 && indices.len() == 0 {
            return self;
        }
        let mut seen: HashSet<usize> = HashSet::with_capacity(indices.len());
        let mut k: usize = 0;
        while k < indices.len()
            invariant
                self.wf(),
                k <= indices.len(),
                forall|p: int| 0 <= p < k ==> #[trigger] indices[p] < self.points,
                forall|p: int, q: int| 0 <= p < q < k ==> indices[p] != indices[q],
                forall|w: usize|
                    #[trigger] seen@.contains(w) <==> exists|p: int| 0 <= p < k && indices[p] == w,
            decreases indices.len() - k,
        {
            let w = indices[k];
            if w >= self.points {
                return self;
            }
            let fresh = seen.insert(w);
            if !fresh {
                proof {
                    let p = choose|p: int| 0 <= p < k && indices[p] == w;
                    assert(indices@[p] == indices@[k as int]);
                }
                return self;
            }
            k += 1;
        }
        proof {
            assert(self@.takes_hull(indices@, norms@));
            lemma_after_wf(self@, Answer::Hull { indices: indices@, norms: norms@ });
        }
        let mut next = self;
        if next.points <= 3 {
            let mut ring: Vec<usize> = Vec::with_capacity(indices.len());
            let mut k: usize = 0;
            while k < indices.len()
                invariant
                    k <= indices.len(),
                    ring@ == indices@.subrange(0, k as int),
                decreases indices.len() - k,
            {
                ring.push(indices[k]);
                k += 1;
                proof {
                    assert(ring@ =~= indices@.subrange(0, k as int));
                }
            }
            proof {
                assert(ring@ =~= indices@);
            }
            next.ring = ring;
            next.request = Request::Done;
            return next;
        }
        let total = indices.len();
        let mut pending = EdgeQueue::with_capacity(total);
        let mut k: usize = 0;
        while k < total
            invariant
                k <= total,
                total == indices.len(),
                total == norms.len(),
                pending@ == ring_edges(indices@, norms@).subrange(0, k as int),
            decreases total - k,
        {
            let j: usize = if k + 1 == total {
                0
            } else {
                k + 1
            };
            pending.push(Edge::new(indices[k], indices[j], norms[k]));
            k += 1;
            proof {
                assert(pending@ =~= ring_edges(indices@, norms@).subrange(0, k as int));
            }
        }
        proof {
            assert(pending@ =~= ring_edges(indices@, norms@));
            lemma_ring_edges_close(indices@, norms@);
            assert forall|w: usize| #[trigger] seen@.contains(w) <==> indices@.contains(w) by {
                if seen@.contains(w) {
                    let p = choose|p: int| 0 <= p < indices.len() && indices[p] == w;
                    assert(indices@[p] == w);
                }
            }
        }
        next.pending = pending;
        next.boundary = seen;
        next.cycle = Ghost(indices@);
        proof {
            broadcast use group_to_multiset_ensures;

            assert(next@.loose() =~= ring_edges(indices@, norms@).to_multiset());
        }
        next.settle()
    }

    /// Takes the scores of the points against the edge that the request
    /// names, `scores[k]` for the point `k`: the wider of the two angles
    /// under which the point sees the edge from its ends, on an integer
    /// scale that keeps the order of the angles. Scores that were not asked
    /// for, or that are not one for each point, are not taken.
    pub fn scores(self, scores: &Vec<u64>) -> (next: Refinement)
        requires
            self.wf(),
        ensures
            next@ == self@.with_scores(scores@),
            next.wf(),
    {
        let e = match self.request {
            Request::Scores(e) => e,
            _ => {
                return self;
            },
        };
        if scores.len() != self.points {
            return self;
        }
        proof {
            lemma_best_exists(e, scores@);
            lemma_after_wf(self@, Answer::Scores { scores: scores@ });
            lemma_cycle_not_empty(self@.bag(), self.cycle@, e);
        }
        match best_candidate(&e, scores) {
            Some(c) => {
                let mut next = self;
                if next.boundary.contains(&c) {
                    next.finalized.push(e);
                    proof {
                        lemma_accepted(self@, e);
                        assert(next@ == self@.accepted(e));
                    }
                    next.settle()
                } else {
                    next.request = Request::Crossings(e, c);
                    next
                }
            },
            None => self,
        }
    }

    /// Takes the outcome of opening the edge that the request names through
    /// the point that it names: the squared lengths of the first half, from
    /// the start of the edge to the point, and of the second, from the point
    /// to its end, and for the `k`-th of [`Refinement::edges`] whether its
    /// segment crosses that of the first half and whether it crosses that of
    /// the second. An outcome that was not asked for, or that does not speak
    /// of each of those edges once, is not taken.
    pub fn crossings(
        self,
        first_norm: u64,
        second_norm: u64,
        first: &Vec<bool>,
        second: &Vec<bool>,
    ) -> (next: Refinement)
        requires
            self.wf(),
        ensures
            next@ == self@.with_crossings(first_norm, second_norm, first@, second@),
            next.wf(),
    {
        let (e, c) = match self.request {
            Request::Crossings(e, c) => (e, c),
            _ => {
                return self;
            },
        };
        let settled = self.finalized.len();
        if first.len() < settled || first.len() - settled != self.pending.len() || second.len()
            != first.len() {
            return self;
        }
        let (first_half, second_half) = e.split_by(c, first_norm, second_norm);
        let blocked = self.blocked(&first_half, &second_half, first, second);
        let ghost old_state = self@;
        let mut next = self;
        if blocked {
            next.finalized.push(e);
            proof {
                lemma_accepted(old_state, e);
                assert(next@ == old_state.accepted(e));
            }
            next.settle()
        } else {
            next.pending.push(first_half);
            next.pending.push(second_half);
            next.boundary.insert(c);
            next.cycle = Ghost(old_state.cycle.insert(old_state.cycle.index_of(e.i) + 1, c));
            proof {
                lemma_opened(old_state, first_norm, second_norm);
                assert(next@.pending =~= old_state.opened(e, c, first_norm, second_norm).pending);
                assert(next@ == old_state.opened(e, c, first_norm, second_norm));
                assert forall|v: usize| #[trigger]
                    next.boundary@.contains(v) <==> next.cycle@.contains(v) by {
                    assert(next.cycle@.contains(v) <==> v == c || old_state.cycle.contains(v));
                }
            }
            next.settle()
        }
    }

    /// Whether one of the two halves intersects an edge of the boundary.
    fn blocked(
        &self,
        first_half: &Edge,
        second_half: &Edge,
        first: &Vec<bool>,
        second: &Vec<bool>,
    ) -> (blocked: bool)
        requires
            first.len() == self@.edges().len(),
            second.len() == self@.edges().len(),
        ensures
            blocked == self@.blocked(*first_half, *second_half, first@, second@),
    {
        let ghost edges = self@.edges();
        let settled = self.finalized.len();
        let waiting = self.pending.len();
        let mut k: usize = 0;
        while k < settled
            invariant
                k <= settled,
                settled == self.finalized@.len(),
                edges == self.finalized@ + self.pending@,
                edges == self@.edges(),
                first.len() == edges.len(),
                second.len() == edges.len(),
                forall|p: int|
                    0 <= p < k ==> !intersecting(#[trigger] edges[p], *first_half, first@[p])
                        && !intersecting(edges[p], *second_half, second@[p]),
            decreases settled - k,
        {
            if edges_intersect(&self.finalized[k], first_half, first[k]) || edges_intersect(
                &self.finalized[k],
                second_half,
                second[k],
            ) {
                proof {
                    assert(edges[k as int] == self.finalized@[k as int]);
                }
                return true;
            }
            proof {
                assert(edges[k as int] == self.finalized@[k as int]);
            }
            k += 1;
        }
        let mut k: usize = 0;
        while k < waiting
            invariant
                k <= waiting,
                waiting == self.pending@.len(),
                settled == self.finalized@.len(),
                edges == self.finalized@ + self.pending@,
                edges == self@.edges(),
                first.len() == edges.len(),
                second.len() == edges.len(),
                forall|p: int|
                    0 <= p < settled + k ==> !intersecting(#[trigger] edges[p], *first_half, first@[p])
                        && !intersecting(edges[p], *second_half, second@[p]),
            decreases waiting - k,
        {
            let f = self.pending.get(k);
            proof {
                assert(edges[settled + k] == self.pending@[k as int]);
            }
            if edges_intersect(&f, first_half, first[settled + k]) || edges_intersect(
                &f,
                second_half,
                second[settled + k],
            ) {
                return true;
            }
            k += 1;
        }
        false
    }

    /// Takes edges from the queue, longest first, and accepts them as final
    /// until one is longer than the limit or none is left.
    fn settle(self) -> (next: Refinement)
        requires
            self.points > 3,
            self@.grounded(),
            self.ring@.len() == 0,
            self.cycle@.len() > 0,
            closes(self@.loose(), self.cycle@),
            marks(self.boundary@, self.cycle@),
        ensures
            next@ == self@.settle(),
            next.wf(),
    {
        let ghost goal = self@.settle();
        let mut next = self;
        proof {
            lemma_settle(next@);
        }
        loop
            invariant
                next.points > 3,
                next@.grounded(),
                next.ring@.len() == 0,
                next.cycle@.len() > 0,
                closes(next@.loose(), next.cycle@),
                marks(next.boundary@, next.cycle@),
                next@.settle() == goal,
                self@.settle() == goal,
                goal.wf(),
            decreases next.pending@.len(),
        {
            let ghost before = next@;
            match next.pending.pop() {
                Some(e) => {
                    if e.norm > next.limit {
                        next.request = Request::Scores(e);
                        proof {
                            lemma_longest_exists(before.pending);
                            assert(next@ == before.settle());
                        }
                        return next;
                    }
                    next.finalized.push(e);
                    proof {
                        lemma_longest_exists(before.pending);
                        lemma_settle_step(before);
                        assert(next@ == (State {
                            pending: before.pending.remove(longest(before.pending)),
                            finalized: before.finalized.push(before.pending[longest(before.pending)]),
                            ..before
                        }));
                    }
                },
                None => {
                    proof {
                        broadcast use group_to_multiset_ensures;

                        assert(before.pending.to_multiset().len() == 0);
                        assert(before.loose() =~= before.finalized.to_multiset());
                    }
                    let edges = next.finalized.clone();
                    proof {
                        assert(edges@ =~= next.finalized@);
                    }
                    next.ring = reconstruct(edges);
                    next.request = Request::Done;
                    proof {
                        assert(next@ == before.settle());
                    }
                    return next;
                },
            }
        }
    }
}

} // verus!
