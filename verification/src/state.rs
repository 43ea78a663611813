use crate::candidate::{best, lemma_best_exists};
use crate::edge::Edge;
use crate::queue::{lemma_longest_exists, longest};
use crate::reconstruct::{lemma_ordered_turns_ring, ordered};
use crate::ring::{
    closes, leaves, lemma_closes_split, lemma_edge_position, lemma_ring_edges_close,
    lemma_widened, ring_edges, shifted,
};
use crate::segment_intersect::intersecting;
use vstd::multiset::Multiset;
use vstd::prelude::*;
use vstd::seq_lib::group_to_multiset_ensures;

verus! {

/// What has to be worked out on the coordinates before the refinement can
/// go on.
#[derive(Debug, Clone, Copy, PartialEq, Eq)]
pub enum Request {
    /// The convex hull of the cloud, as the indices of its points in order
    /// around it, and the squared length of each of its edges.
    Hull,
    /// The score of every point of the cloud against this edge.
    Scores(Edge),
    /// The squared lengths of the two halves into which this point opens
    /// this edge, and for each edge of the boundary whether it crosses the
    /// first half and whether it crosses the second.
    Crossings(Edge, usize),
    /// Nothing more: the ring is complete.
    Done,
}

/// What comes back for a request.
pub ghost enum Answer {
    /// The convex hull, and `norms[k]` for its edge from `indices[k]` to the
    /// next.
    Hull { indices: Seq<usize>, norms: Seq<u64> },
    /// `scores[k]` for the point `k`.
    Scores { scores: Seq<u64> },
    /// The squared lengths of the two halves, and `first[k]` and `second[k]`
    /// for the `k`-th edge of the boundary.
    Crossings { first_norm: u64, second_norm: u64, first: Seq<bool>, second: Seq<bool> },
}

/// The refinement at a moment between two requests.
pub ghost struct State {
    /// The number of points in the cloud.
    pub points: nat,
    /// The squared length up to which an edge is accepted as it is.
    pub limit: u64,
    /// The boundary so far: the points committed to the hull, in order
    /// around it.
    pub cycle: Seq<usize>,
    /// The edges accepted as final, in the order of their acceptance.
    pub finalized: Seq<Edge>,
    /// The edges that wait in the queue, in the order of their arrival.
    pub pending: Seq<Edge>,
    /// What the refinement waits for.
    pub request: Request,
    /// The result, once the request is `Done`.
    pub ring: Seq<usize>,
}

impl State {
    /// The state in which a cloud of `points` points is taken up. A cloud of
    /// at most two points is its own hull: the ring lists its points in the
    /// order in which the cloud has them. Any larger cloud asks for its
    /// convex hull.
    pub open spec fn start(points: nat, limit: u64) -> State {
        State {
            points,
            limit,
            cycle: Seq::empty(),
            finalized: Seq::empty(),
            pending: Seq::empty(),
            request: if points <= 2 {
                Request::Done
            } else {
                Request::Hull
            },
            ring: if points <= 2 {
                Seq::new(points, |k: int| k as usize)
            } else {
                Seq::empty()
            },
        }
    }

    /// The edges against which the halves of an opened edge are tested: the
    /// final ones, then the pending ones.
    pub open spec fn edges(self) -> Seq<Edge> {
        self.finalized + self.pending
    }

    /// The final and the pending edges, without regard to order.
    pub open spec fn loose(self) -> Multiset<Edge> {
        self.finalized.to_multiset().add(self.pending.to_multiset())
    }

    /// All edges of the boundary: the final ones, the pending ones and the
    /// one that a request speaks of.
    pub open spec fn bag(self) -> Multiset<Edge> {
        match self.request {
            Request::Scores(e) => self.loose().insert(e),
            Request::Crossings(e, _) => self.loose().insert(e),
            _ => self.loose(),
        }
    }

    /// Whether every point of the boundary is a point of the cloud.
    pub open spec fn grounded(self) -> bool {
        forall|k: int| 0 <= k < self.cycle.len() ==> #[trigger] self.cycle[k] < self.points
    }

    /// What holds of every state that the transitions reach: the edges of
    /// the boundary form one closed cycle through points of the cloud, and a
    /// complete ring holds no point twice.
    pub open spec fn wf(self) -> bool {
        &&& self.grounded()
        &&& match self.request {
            Request::Hull => {
                &&& self.points >= 3
                &&& self.cycle.len() == 0
                &&& self.finalized.len() == 0
                &&& self.pending.len() == 0
                &&& self.ring.len() == 0
            },
            Request::Scores(e) => {
                &&& self.points > 3
                &&& self.ring.len() == 0
                &&& closes(self.bag(), self.cycle)
            },
            Request::Crossings(e, c) => {
                &&& self.points > 3
                &&& self.ring.len() == 0
                &&& closes(self.bag(), self.cycle)
                &&& c < self.points
                &&& !self.cycle.contains(c)
            },
            Request::Done => {
                &&& self.pending.len() == 0
                &&& self.ring.no_duplicates()
                &&& forall|k: int| 0 <= k < self.ring.len() ==> #[trigger] self.ring[k] < self.points
                &&& self.points <= 3 ==> self.finalized.len() == 0 && self.cycle.len() == 0
                &&& self.points > 3 ==> {
                    &&& self.finalized.len() > 0
                    &&& closes(self.finalized.to_multiset(), self.cycle)
                    &&& self.ring == ordered(self.finalized)
                }
            },
        }
    }

    /// Takes edges from the queue, longest first, and accepts them as final
    /// while they are no longer than the limit. The first longer one becomes
    /// the subject of a request for scores. When the queue runs empty the
    /// final edges are put in order and the ring is complete.
    pub open spec fn settle(self) -> State
        decreases self.pending.len(),
    {
        if self.pending.len() == 0 {
            State { request: Request::Done, ring: ordered(self.finalized), ..self }
        } else {
            proof {
                lemma_longest_exists(self.pending);
            }
            let k = longest(self.pending);
            let e = self.pending[k];
            let rest = self.pending.remove(k);
            if e.norm > self.limit {
                State { pending: rest, request: Request::Scores(e), ..self }
            } else {
                State { pending: rest, finalized: self.finalized.push(e), ..self }.settle()
            }
        }
    }

    /// Whether a convex hull can be taken: it is asked for, it names points
    /// of the cloud, none of them twice, with a squared length for each of
    /// its edges, and it is not empty unless the cloud has at most three
    /// points.
    pub open spec fn takes_hull(self, indices: Seq<usize>, norms: Seq<u64>) -> bool {
        &&& self.request is Hull
        &&& norms.len() == indices.len()
        &&& indices.no_duplicates()
        &&& forall|k: int| 0 <= k < indices.len() ==> #[trigger] indices[k] < self.points
        &&& self.points > 3 ==> indices.len() > 0
    }

    /// The state after the convex hull came in. For a cloud of three points
    /// the hull is the ring. For a larger one its edges are queued and the
    /// refinement begins.
    pub open spec fn with_hull(self, indices: Seq<usize>, norms: Seq<u64>) -> State {
        if !self.takes_hull(indices, norms) {
            self
        } else if self.points <= 3 {
            State { request: Request::Done, ring: indices, ..self }
        } else {
            State { cycle: indices, pending: ring_edges(indices, norms), ..self }.settle()
        }
    }

    /// Whether scores can be taken: they are asked for, one for each point.
    pub open spec fn takes_scores(self, scores: Seq<u64>) -> bool {
        self.request is Scores && scores.len() == self.points
    }

    /// The state in which the edge `e` has been accepted as final.
    pub open spec fn accepted(self, e: Edge) -> State {
        State { finalized: self.finalized.push(e), ..self }
    }

    /// The state in which the two halves of the edge `e` through the point
    /// `c` wait in the queue and `c` stands on the boundary after the start
    /// of `e`.
    pub open spec fn opened(self, e: Edge, c: usize, first_norm: u64, second_norm: u64) -> State {
        State {
            pending: self.pending.push(Edge { i: e.i, j: c, norm: first_norm }).push(
                Edge { i: c, j: e.j, norm: second_norm },
            ),
            cycle: self.cycle.insert(self.cycle.index_of(e.i) + 1, c),
            ..self
        }
    }

    /// The state after the scores came in. The edge is accepted as final if
    /// the best point is on the boundary already. Otherwise the next request
    /// asks how the two halves through that point lie.
    pub open spec fn with_scores(self, scores: Seq<u64>) -> State {
        if !self.takes_scores(scores) {
            self
        } else {
            let e = self.request->Scores_0;
            let c = best(e, scores) as usize;
            if self.cycle.contains(c) {
                self.accepted(e).settle()
            } else {
                State { request: Request::Crossings(e, c), ..self }
            }
        }
    }

    /// Whether one of the two halves intersects an edge of the boundary.
    pub open spec fn blocked(
        self,
        first_half: Edge,
        second_half: Edge,
        first: Seq<bool>,
        second: Seq<bool>,
    ) -> bool {
        exists|k: int|
            0 <= k < self.edges().len() && (intersecting(
                #[trigger] self.edges()[k],
                first_half,
                first[k],
            ) || intersecting(self.edges()[k], second_half, second[k]))
    }

    /// Whether crossings can be taken: they are asked for, two for each edge
    /// of the boundary.
    pub open spec fn takes_crossings(self, first: Seq<bool>, second: Seq<bool>) -> bool {
        &&& self.request is Crossings
        &&& first.len() == self.edges().len()
        &&& second.len() == self.edges().len()
    }

    /// The state after the crossings came in. If a half intersects an edge
    /// of the boundary the edge is accepted as final. Otherwise the two
    /// halves are queued in its place and the point joins the boundary.
    pub open spec fn with_crossings(
        self,
        first_norm: u64,
        second_norm: u64,
        first: Seq<bool>,
        second: Seq<bool>,
    ) -> State {
        if !self.takes_crossings(first, second) {
            self
        } else {
            let e = self.request->Crossings_0;
            let c = self.request->Crossings_1;
            let first_half = Edge { i: e.i, j: c, norm: first_norm };
            let second_half = Edge { i: c, j: e.j, norm: second_norm };
            if self.blocked(first_half, second_half, first, second) {
                self.accepted(e).settle()
            } else {
                self.opened(e, c, first_norm, second_norm).settle()
            }
        }
    }

    /// Whether an answer is one that the state can take.
    pub open spec fn takes(self, answer: Answer) -> bool {
        match answer {
            Answer::Hull { indices, norms } => self.takes_hull(indices, norms),
            Answer::Scores { scores } => self.takes_scores(scores),
            Answer::Crossings { first_norm, second_norm, first, second } => self.takes_crossings(
                first,
                second,
            ),
        }
    }

    /// Whether an answer that the state takes has the queue settled: a hull
    /// of a cloud of more than three points, scores whose best point is on
    /// the boundary already, and every outcome of opening an edge.
    pub open spec fn settles(self, answer: Answer) -> bool {
        match answer {
            Answer::Hull { indices, norms } => self.points > 3,
            Answer::Scores { scores } => self.cycle.contains(
                best(self.request->Scores_0, scores) as usize,
            ),
            Answer::Crossings { first_norm, second_norm, first, second } => true,
        }
    }

    /// What an answer that settles the queue leaves to be settled: the edges
    /// of the hull in the queue, or the edge that the request spoke of
    /// either accepted or opened.
    pub open spec fn unsettled(self, answer: Answer) -> State {
        match answer {
            Answer::Hull { indices, norms } => State {
                cycle: indices,
                pending: ring_edges(indices, norms),
                ..self
            },
            Answer::Scores { scores } => self.accepted(self.request->Scores_0),
            Answer::Crossings { first_norm, second_norm, first, second } => {
                let e = self.request->Crossings_0;
                let c = self.request->Crossings_1;
                if self.blocked(
                    Edge { i: e.i, j: c, norm: first_norm },
                    Edge { i: c, j: e.j, norm: second_norm },
                    first,
                    second,
                ) {
                    self.accepted(e)
                } else {
                    self.opened(e, c, first_norm, second_norm)
                }
            },
        }
    }

    /// The state after a series of answers, each given to the state that the
    /// answers before it led to.
    pub open spec fn run(self, answers: Seq<Answer>) -> State
        decreases answers.len(),
    {
        if answers.len() == 0 {
            self
        } else {
            self.run(answers.drop_last()).after(answers.last())
        }
    }

    /// The state after an answer. One that the state cannot take leaves it
    /// as it is.
    pub open spec fn after(self, answer: Answer) -> State {
        match answer {
            Answer::Hull { indices, norms } => self.with_hull(indices, norms),
            Answer::Scores { scores } => self.with_scores(scores),
            Answer::Crossings { first_norm, second_norm, first, second } => self.with_crossings(
                first_norm,
                second_norm,
                first,
                second,
            ),
        }
    }
}

/// Settling a closed boundary gives a well-formed state over the same
/// boundary and the same edges.
pub proof fn lemma_settle(s: State)
    requires
        s.points > 3,
        s.grounded(),
        s.ring.len() == 0,
        s.cycle.len() > 0,
        closes(s.loose(), s.cycle),
    ensures
        s.settle().wf(),
        s.settle().points == s.points,
        s.settle().limit == s.limit,
        s.settle().cycle == s.cycle,
        s.settle().bag() == s.loose(),
        !(s.settle().request is Hull),
        !(s.settle().request is Crossings),
        s.finalized.is_prefix_of(s.settle().finalized),
    decreases s.pending.len(),
{
    broadcast use group_to_multiset_ensures;

    if s.pending.len() == 0 {
        let d = s.settle();
        assert(s.pending.to_multiset().len() == 0);
        assert(s.loose() =~= s.finalized.to_multiset());
        assert(s.finalized.len() > 0);
        lemma_ordered_turns_ring(s.finalized, s.cycle);
        assert forall|k: int| 0 <= k < d.ring.len() implies #[trigger] d.ring[k] < s.points by {
            assert(leaves(s.loose(), d.ring[k]));
            let e = choose|e: Edge|
                #![trigger s.loose().count(e)]
                s.loose().count(e) > 0 && e.i == d.ring[k];
            lemma_edge_position(s.loose(), s.cycle, 0, e);
        }
    } else {
        lemma_longest_exists(s.pending);
        let k = longest(s.pending);
        let e = s.pending[k];
        let rest = s.pending.remove(k);
        assert(rest.to_multiset() == s.pending.to_multiset().remove(e));
        assert(s.pending.to_multiset().count(e) > 0) by {
            assert(s.pending.contains(e));
        }
        if e.norm > s.limit {
            let n = State { pending: rest, request: Request::Scores(e), ..s };
            assert(n.bag() =~= s.loose());
        } else {
            let n = State { pending: rest, finalized: s.finalized.push(e), ..s };
            assert(n.loose() =~= s.loose());
            lemma_settle(n);
        }
    }
}

/// Accepting the edge that a request speaks of leaves a boundary that can
/// be settled, with the same edges.
pub proof fn lemma_accepted(s: State, e: Edge)
    requires
        s.wf(),
        s.request is Scores || s.request is Crossings,
        s.bag() == s.loose().insert(e),
    ensures
        s.accepted(e).grounded(),
        s.accepted(e).cycle.len() > 0,
        closes(s.accepted(e).loose(), s.accepted(e).cycle),
        s.accepted(e).loose() == s.bag(),
{
    broadcast use group_to_multiset_ensures;

    assert(s.accepted(e).loose() =~= s.bag());
    lemma_cycle_not_empty(s.bag(), s.cycle, e);
}

/// Opening the edge that a request speaks of through the point that it
/// names leaves a boundary that can be settled: the point has joined it,
/// and the two halves have taken the place of the edge.
pub proof fn lemma_opened(s: State, first_norm: u64, second_norm: u64)
    requires
        s.wf(),
        s.request is Crossings,
    ensures
        ({
            let e = s.request->Crossings_0;
            let c = s.request->Crossings_1;
            let n = s.opened(e, c, first_norm, second_norm);
            &&& n.grounded()
            &&& n.cycle.len() == s.cycle.len() + 1
            &&& closes(n.loose(), n.cycle)
            &&& n.loose() == s.bag().remove(e).insert(Edge { i: e.i, j: c, norm: first_norm }).insert(
                Edge { i: c, j: e.j, norm: second_norm },
            )
            &&& forall|v: usize| n.cycle.contains(v) <==> v == c || s.cycle.contains(v)
        }),
{
    broadcast use group_to_multiset_ensures;

    let e = s.request->Crossings_0;
    let c = s.request->Crossings_1;
    let first_half = Edge { i: e.i, j: c, norm: first_norm };
    let second_half = Edge { i: c, j: e.j, norm: second_norm };
    let n = s.opened(e, c, first_norm, second_norm);
    let k = s.cycle.index_of(e.i);
    let wide = n.cycle;
    lemma_closes_split(s.bag(), s.cycle, e, c, first_norm, second_norm);
    assert(n.loose() =~= s.bag().remove(e).insert(first_half).insert(second_half));
    lemma_edge_position(s.bag(), s.cycle, 0, e);
    lemma_widened(s.cycle, k, c);
    assert forall|p: int| 0 <= p < wide.len() implies #[trigger] wide[p] < s.points by {
        if p != k + 1 {
            let a = if p <= k { p } else { p - 1 };
            assert(shifted(a, k) == p);
            assert(s.cycle[a] == wide[p]);
        }
    }
    assert forall|v: usize| wide.contains(v) <==> v == c || s.cycle.contains(v) by {
        if v == c {
            assert(wide[k + 1] == c);
        } else if s.cycle.contains(v) {
            let p = s.cycle.index_of(v);
            assert(s.cycle[p] == wide[shifted(p, k)]);
        } else if wide.contains(v) {
            let p = wide.index_of(v);
            let a = if p <= k { p } else { p - 1 };
            assert(shifted(a, k) == p);
            assert(s.cycle[a] == wide[p]);
        }
    }
}

/// What an answer that settles the queue leads to. What it leaves to be
/// settled is a closed boundary that has lost no point and no final edge,
/// and whose edges are those of the hull, those of the boundary before, or
/// those with the two halves in the place of the opened edge. Settling it
/// gives the state after the answer: well-formed, over the same boundary
/// and the same edges, with no final edge lost, and waiting for scores or
/// for nothing.
pub proof fn lemma_after_settles(s: State, answer: Answer)
    requires
        s.wf(),
        s.takes(answer),
        s.settles(answer),
    ensures
        s.after(answer) == s.unsettled(answer).settle(),
        s.unsettled(answer).points == s.points,
        s.unsettled(answer).limit == s.limit,
        s.unsettled(answer).grounded(),
        s.unsettled(answer).cycle.len() > 0,
        closes(s.unsettled(answer).loose(), s.unsettled(answer).cycle),
        s.finalized.is_prefix_of(s.unsettled(answer).finalized),
        forall|v: usize| s.cycle.contains(v) ==> s.unsettled(answer).cycle.contains(v),
        match answer {
            Answer::Hull { indices, norms } => s.unsettled(answer).loose() == ring_edges(
                indices,
                norms,
            ).to_multiset(),
            Answer::Scores { scores } => s.unsettled(answer).loose() == s.bag(),
            Answer::Crossings { first_norm, second_norm, first, second } => {
                let e = s.request->Crossings_0;
                let c = s.request->Crossings_1;
                let first_half = Edge { i: e.i, j: c, norm: first_norm };
                let second_half = Edge { i: c, j: e.j, norm: second_norm };
                s.unsettled(answer).loose() == (if s.blocked(
                    first_half,
                    second_half,
                    first,
                    second,
                ) {
                    s.bag()
                } else {
                    s.bag().remove(e).insert(first_half).insert(second_half)
                })
            },
        },
        s.after(answer).wf(),
        s.after(answer).points == s.points,
        s.after(answer).limit == s.limit,
        s.after(answer).cycle == s.unsettled(answer).cycle,
        s.after(answer).bag() == s.unsettled(answer).loose(),
        s.unsettled(answer).finalized.is_prefix_of(s.after(answer).finalized),
        !(s.after(answer).request is Hull),
        !(s.after(answer).request is Crossings),
{
    broadcast use group_to_multiset_ensures;

    let n = s.unsettled(answer);
    match answer {
        Answer::Hull { indices, norms } => {
            lemma_ring_edges_close(indices, norms);
            assert(n.loose() =~= ring_edges(indices, norms).to_multiset());
        },
        Answer::Scores { scores } => {
            lemma_accepted(s, s.request->Scores_0);
        },
        Answer::Crossings { first_norm, second_norm, first, second } => {
            let e = s.request->Crossings_0;
            let c = s.request->Crossings_1;
            let first_half = Edge { i: e.i, j: c, norm: first_norm };
            let second_half = Edge { i: c, j: e.j, norm: second_norm };
            if s.blocked(first_half, second_half, first, second) {
                lemma_accepted(s, e);
            } else {
                lemma_opened(s, first_norm, second_norm);
            }
        },
    }
    lemma_settle(n);
}

/// Every answer leaves a well-formed state well-formed.
pub proof fn lemma_after_wf(s: State, answer: Answer)
    requires
        s.wf(),
    ensures
        s.after(answer).wf(),
        s.after(answer).points == s.points,
        s.after(answer).limit == s.limit,
{
    if s.takes(answer) {
        if s.settles(answer) {
            lemma_after_settles(s, answer);
        } else if let Answer::Scores { scores } = answer {
            lemma_best_exists(s.request->Scores_0, scores);
        }
    }
}

/// A ring that closes a bag with an edge in it has a point.
pub proof fn lemma_cycle_not_empty(bag: Multiset<Edge>, ring: Seq<usize>, e: Edge)
    requires
        closes(bag, ring),
        bag.count(e) > 0,
    ensures
        ring.len() > 0,
{
    lemma_edge_position(bag, ring, 0, e);
}

/// One step of settling: accepting the longest pending edge changes neither
/// the boundary nor what settling leads to.
pub proof fn lemma_settle_step(s: State)
    requires
        s.pending.len() > 0,
        s.pending[longest(s.pending)].norm <= s.limit,
    ensures
        s.settle() == (State {
            pending: s.pending.remove(longest(s.pending)),
            finalized: s.finalized.push(s.pending[longest(s.pending)]),
            ..s
        }).settle(),
        (State {
            pending: s.pending.remove(longest(s.pending)),
            finalized: s.finalized.push(s.pending[longest(s.pending)]),
            ..s
        }).loose() == s.loose(),
{
    broadcast use group_to_multiset_ensures;

    lemma_longest_exists(s.pending);
    let k = longest(s.pending);
    let e = s.pending[k];
    let n = State { pending: s.pending.remove(k), finalized: s.finalized.push(e), ..s };
    assert(s.pending.contains(e));
    assert(n.loose() =~= s.loose());
}

} // verus!
