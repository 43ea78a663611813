use crate::candidate::best;
use crate::edge::Edge;
use crate::queue::{
    lemma_longest_exists, lemma_shortest_exists, lemma_shortest_stays, longest, shortest,
};
use crate::reconstruct::{lemma_ordered_turns_ring, ordered};
use crate::ring::{closes, lemma_edge_position, ring_edges, turned, turned_to};
use crate::segment_intersect::{
    chained, duplicates, intersecting, lemma_intersecting_symmetric,
};
use crate::state::{lemma_after_settles, lemma_after_wf, lemma_opened, Answer, Request, State};
use vstd::multiset::Multiset;
use vstd::prelude::*;
use vstd::seq_lib::group_to_multiset_ensures;

verus! {

/// A cloud of at most two points is its own hull, whatever the limit:
/// nothing is asked, and the ring lists its points in the order in which the
/// cloud has them.
pub proof fn lemma_tiny_cloud_is_its_hull(points: nat, limit: u64)
    requires
        points <= 2,
    ensures
        State::start(points, limit).request is Done,
        points == 0 ==> State::start(points, limit).ring == Seq::<usize>::empty(),
        points == 1 ==> State::start(points, limit).ring == seq![0usize],
        points == 2 ==> State::start(points, limit).ring == seq![0usize, 1usize],
{
    assert(points == 0 ==> State::start(points, limit).ring =~= Seq::<usize>::empty());
    assert(points == 1 ==> State::start(points, limit).ring =~= seq![0usize]);
    assert(points == 2 ==> State::start(points, limit).ring =~= seq![0usize, 1usize]);
}

/// No answer changes the ring of a cloud of at most two points.
pub proof fn lemma_tiny_cloud_takes_no_answer(points: nat, limit: u64, answers: Seq<Answer>)
    requires
        points <= 2,
    ensures
        State::start(points, limit).run(answers) == State::start(points, limit),
    decreases answers.len(),
{
    if answers.len() > 0 {
        lemma_tiny_cloud_takes_no_answer(points, limit, answers.drop_last());
    }
}

/// For a cloud of three points the convex hull is the ring, whatever the
/// limit.
pub proof fn lemma_small_cloud_keeps_hull(s: State, indices: Seq<usize>, norms: Seq<u64>)
    requires
        s.wf(),
        s.points == 3,
        s.takes_hull(indices, norms),
    ensures
        s.with_hull(indices, norms).request is Done,
        s.with_hull(indices, norms).ring == indices,
{
}

/// Whether no edge of the sequence is longer than the limit.
pub open spec fn all_short(edges: Seq<Edge>, limit: u64) -> bool {
    forall|k: int| 0 <= k < edges.len() ==> (#[trigger] edges[k]).norm <= limit
}

/// Whether every edge of the sequence is longer than the limit.
pub open spec fn all_long(edges: Seq<Edge>, limit: u64) -> bool {
    forall|k: int| 0 <= k < edges.len() ==> (#[trigger] edges[k]).norm > limit
}

/// Where no pending edge is longer than the limit every one of them is
/// accepted: settling ends with a complete ring, and the edge accepted last
/// is the one that leaves the queue last.
pub proof fn lemma_settle_accepts_all(s: State)
    requires
        all_short(s.pending, s.limit),
        s.pending.len() > 0,
    ensures
        s.settle().request is Done,
        s.settle().cycle == s.cycle,
        s.settle().finalized.len() > 0,
        s.settle().finalized.last() == s.pending[shortest(s.pending)],
        s.settle().ring == ordered(s.settle().finalized),
    decreases s.pending.len(),
{
    lemma_longest_exists(s.pending);
    lemma_shortest_exists(s.pending);
    let k = longest(s.pending);
    let e = s.pending[k];
    let n = State { pending: s.pending.remove(k), finalized: s.finalized.push(e), ..s };
    assert(s.settle() == n.settle());
    if n.pending.len() == 0 {
        assert(shortest(s.pending) == 0);
    } else {
        assert forall|m: int| 0 <= m < n.pending.len() implies (#[trigger] n.pending[m]).norm
            <= n.limit by {
            let x = if m < k { m } else { m + 1 };
            assert(n.pending[m] == s.pending[x]);
        }
        lemma_settle_accepts_all(n);
        lemma_shortest_stays(s.pending);
    }
}

/// Where no edge of the convex hull is longer than the limit, as with an
/// infinite concavity, the ring is the convex hull: no edge is opened and no
/// score is asked for. The ring is read from the start of the shortest edge
/// of the hull on (of equally short ones, the last), so that it is the hull
/// as it came where that edge is its first.
pub proof fn lemma_high_limit_keeps_hull(s: State, indices: Seq<usize>, norms: Seq<u64>)
    requires
        s.wf(),
        s.points > 3,
        s.takes_hull(indices, norms),
        forall|k: int| 0 <= k < norms.len() ==> #[trigger] norms[k] <= s.limit,
    ensures
        s.with_hull(indices, norms).request is Done,
        s.with_hull(indices, norms).ring == turned(
            indices,
            shortest(ring_edges(indices, norms)),
        ),
        shortest(ring_edges(indices, norms)) == 0 ==> s.with_hull(indices, norms).ring == indices,
{
    let answer = Answer::Hull { indices, norms };
    let edges = ring_edges(indices, norms);
    let n = s.unsettled(answer);
    lemma_after_settles(s, answer);
    assert forall|k: int| 0 <= k < edges.len() implies (#[trigger] edges[k]).norm <= n.limit by {
        assert(edges[k].norm == norms[k]);
    }
    lemma_settle_accepts_all(n);
    lemma_ordered_turns_ring(n.settle().finalized, indices);
    lemma_shortest_exists(edges);
    let k = shortest(edges);
    assert(edges[k].i == indices[k]);
    assert(indices.index_of(indices[k]) == k);
    assert(turned(indices, 0) =~= indices);
}

/// Whether the answer has the edge that the request speaks of rejected: the
/// best point to open it through is on the boundary already, or one of its
/// halves would intersect an edge of the boundary.
pub open spec fn rejects(s: State, answer: Answer) -> bool {
    match answer {
        Answer::Hull { indices, norms } => false,
        Answer::Scores { scores } => s.request is Scores && s.cycle.contains(
            best(s.request->Scores_0, scores) as usize,
        ),
        Answer::Crossings { first_norm, second_norm, first, second } => s.request is Crossings
            && s.blocked(
            Edge { i: s.request->Crossings_0.i, j: s.request->Crossings_1, norm: first_norm },
            Edge { i: s.request->Crossings_1, j: s.request->Crossings_0.j, norm: second_norm },
            first,
            second,
        ),
    }
}

/// Whether every edge that the answer brings is longer than the limit.
pub open spec fn brings_long(answer: Answer, limit: u64) -> bool {
    match answer {
        Answer::Hull { indices, norms } => forall|k: int|
            0 <= k < norms.len() ==> #[trigger] norms[k] > limit,
        Answer::Scores { scores } => true,
        Answer::Crossings { first_norm, second_norm, first, second } => first_norm > limit
            && second_norm > limit,
    }
}

/// The edge that a request speaks of.
pub open spec fn subject(request: Request) -> Edge {
    match request {
        Request::Scores(e) => e,
        Request::Crossings(e, _) => e,
        _ => arbitrary(),
    }
}

/// Where every pending edge is longer than the limit, settling accepts
/// nothing: it asks for the scores against the longest pending edge.
pub proof fn lemma_settle_accepts_none(s: State)
    requires
        all_long(s.pending, s.limit),
    ensures
        s.settle().finalized == s.finalized,
        s.settle().limit == s.limit,
        all_long(s.settle().pending, s.limit),
        s.pending.len() > 0 ==> s.settle().request is Scores,
{
    if s.pending.len() > 0 {
        lemma_longest_exists(s.pending);
        let k = longest(s.pending);
        let rest = s.pending.remove(k);
        assert forall|m: int| 0 <= m < rest.len() implies (#[trigger] rest[m]).norm > s.limit by {
            let x = if m < k { m } else { m + 1 };
            assert(rest[m] == s.pending[x]);
        }
    }
}

/// Where every edge is longer than the limit, as with the concavity zero in
/// a cloud that has no two points in one place, an edge is accepted as final
/// only when it was rejected: each answer leaves the final edges as they
/// were, or adds the edge that the request spoke of because its best point
/// was on the boundary or one of its halves would have intersected the
/// boundary.
pub proof fn lemma_low_limit_accepts_only_rejected(s: State, answer: Answer)
    requires
        s.wf(),
        all_long(s.pending, s.limit),
        brings_long(answer, s.limit),
    ensures
        all_long(s.after(answer).pending, s.limit),
        s.after(answer).limit == s.limit,
        s.after(answer).finalized == s.finalized || (rejects(s, answer) && s.after(
            answer,
        ).finalized == s.finalized.push(subject(s.request))),
{
    if s.takes(answer) && s.settles(answer) {
        let n = s.unsettled(answer);
        if let Answer::Hull { indices, norms } = answer {
            assert forall|k: int| 0 <= k < n.pending.len() implies (#[trigger] n.pending[k]).norm
                > n.limit by {
                assert(n.pending[k].norm == norms[k]);
            }
        }
        lemma_settle_accepts_none(n);
    }
}

/// The refinement is determined by what it is given: the same answers for
/// the same cloud and the same limit lead to the same state, and so to the
/// same ring.
pub proof fn lemma_same_answers_same_ring(
    points: nat,
    limit: u64,
    first: Seq<Answer>,
    second: Seq<Answer>,
)
    requires
        first == second,
    ensures
        State::start(points, limit).run(first) == State::start(points, limit).run(second),
        State::start(points, limit).run(first).ring == State::start(points, limit).run(second).ring,
{
}

/// Whether no two different edges of the bag intersect, `crossing` telling
/// of two edges whether their segments cross.
pub open spec fn clear(bag: Multiset<Edge>, crossing: spec_fn(Edge, Edge) -> bool) -> bool {
    forall|e: Edge, f: Edge|
        #![trigger bag.count(e), bag.count(f)]
        bag.count(e) > 0 && bag.count(f) > 0 && e != f ==> !intersecting(e, f, crossing(e, f))
}

/// Whether two segments cross whichever of them is named first.
pub open spec fn symmetric(crossing: spec_fn(Edge, Edge) -> bool) -> bool {
    forall|e: Edge, f: Edge| #[trigger] crossing(e, f) == crossing(f, e)
}

/// Whether the answer says of the segments what `crossing` says: the edges
/// of a convex hull do not intersect one another, and the outcomes for the
/// two halves of an opened edge are those of `crossing`.
pub open spec fn told_by(s: State, answer: Answer, crossing: spec_fn(Edge, Edge) -> bool) -> bool {
    match answer {
        Answer::Hull { indices, norms } => clear(ring_edges(indices, norms).to_multiset(), crossing),
        Answer::Scores { scores } => true,
        Answer::Crossings { first_norm, second_norm, first, second } => s.request is Crossings
            ==> forall|k: int|
            #![trigger s.edges()[k]]
            0 <= k < s.edges().len() ==> first[k] == crossing(
                s.edges()[k],
                Edge { i: s.request->Crossings_0.i, j: s.request->Crossings_1, norm: first_norm },
            ) && second[k] == crossing(
                s.edges()[k],
                Edge { i: s.request->Crossings_1, j: s.request->Crossings_0.j, norm: second_norm },
            ),
    }
}

/// An edge of the final or the pending ones has a place among the edges
/// that a split is tested against.
proof fn lemma_loose_has_place(s: State, f: Edge)
    requires
        s.loose().count(f) > 0,
    ensures
        exists|k: int| 0 <= k < s.edges().len() && #[trigger] s.edges()[k] == f,
{
    broadcast use group_to_multiset_ensures;

    if s.finalized.to_multiset().count(f) > 0 {
        assert(s.finalized.contains(f));
        let k = choose|k: int| 0 <= k < s.finalized.len() && s.finalized[k] == f;
        assert(s.edges()[k] == f);
    } else {
        assert(s.pending.to_multiset().count(f) > 0);
        assert(s.pending.contains(f));
        let k = choose|k: int| 0 <= k < s.pending.len() && s.pending[k] == f;
        assert(s.edges()[s.finalized.len() + k] == f);
    }
}

/// Two halves that were found to intersect no edge of the boundary can take
/// the place of the edge they come from: as no two edges of the boundary
/// intersected before, none do after.
proof fn lemma_halves_stay_clear(
    s: State,
    first_norm: u64,
    second_norm: u64,
    first: Seq<bool>,
    second: Seq<bool>,
    crossing: spec_fn(Edge, Edge) -> bool,
)
    requires
        s.wf(),
        s.request is Crossings,
        symmetric(crossing),
        clear(s.bag(), crossing),
        told_by(s, Answer::Crossings { first_norm, second_norm, first, second }, crossing),
        !s.blocked(
            Edge { i: s.request->Crossings_0.i, j: s.request->Crossings_1, norm: first_norm },
            Edge { i: s.request->Crossings_1, j: s.request->Crossings_0.j, norm: second_norm },
            first,
            second,
        ),
    ensures
        clear(
            s.opened(s.request->Crossings_0, s.request->Crossings_1, first_norm, second_norm).loose(),
            crossing,
        ),
{
    let e = s.request->Crossings_0;
    let c = s.request->Crossings_1;
    let first_half = Edge { i: e.i, j: c, norm: first_norm };
    let second_half = Edge { i: c, j: e.j, norm: second_norm };
    let bag = s.opened(e, c, first_norm, second_norm).loose();
    lemma_opened(s, first_norm, second_norm);
    assert(s.bag().remove(e) =~= s.loose()) by {
        assert(s.bag().count(e) <= 1);
    }
    lemma_edge_position(s.bag(), s.cycle, 0, e);
    assert forall|f: Edge, g: Edge|
        #![trigger bag.count(f), bag.count(g)]
        bag.count(f) > 0 && bag.count(g) > 0 && f != g implies !intersecting(
        f,
        g,
        crossing(f, g),
    ) by {
        let f_new = f == first_half || f == second_half;
        let g_new = g == first_half || g == second_half;
        if f_new && g_new {
            assert(chained(f, g));
            assert(!duplicates(f, g));
        } else if !f_new && !g_new {
            assert(s.bag().count(f) > 0);
            assert(s.bag().count(g) > 0);
        } else {
            let old = if f_new { g } else { f };
            let new = if f_new { f } else { g };
            assert(s.loose().count(old) > 0);
            lemma_loose_has_place(s, old);
            let k = choose|k: int| 0 <= k < s.edges().len() && #[trigger] s.edges()[k] == old;
            assert(!intersecting(s.edges()[k], first_half, first[k]));
            assert(!intersecting(s.edges()[k], second_half, second[k]));
            assert(crossing(old, new) == crossing(new, old));
            lemma_intersecting_symmetric(old, new, crossing(old, new));
        }
    }
}

/// The boundary never intersects itself: if no two edges of the boundary
/// intersect before an answer, and the answer says of the segments what a
/// symmetric `crossing` says, no two edges of the boundary intersect after
/// it.
pub proof fn lemma_boundary_stays_clear(
    s: State,
    answer: Answer,
    crossing: spec_fn(Edge, Edge) -> bool,
)
    requires
        s.wf(),
        symmetric(crossing),
        clear(s.bag(), crossing),
        told_by(s, answer, crossing),
    ensures
        clear(s.after(answer).bag(), crossing),
{
    if s.takes(answer) {
        if s.settles(answer) {
            lemma_after_settles(s, answer);
            if let Answer::Crossings { first_norm, second_norm, first, second } = answer {
                let e = s.request->Crossings_0;
                let c = s.request->Crossings_1;
                let first_half = Edge { i: e.i, j: c, norm: first_norm };
                let second_half = Edge { i: c, j: e.j, norm: second_norm };
                if !s.blocked(first_half, second_half, first, second) {
                    lemma_halves_stay_clear(s, first_norm, second_norm, first, second, crossing);
                }
            }
        } else {
            assert(s.after(answer).bag() =~= s.bag());
        }
    }
}

/// Whether each answer of a series says of the segments what `crossing`
/// says, to the state that the answers before it led to.
pub open spec fn all_told_by(
    s: State,
    answers: Seq<Answer>,
    crossing: spec_fn(Edge, Edge) -> bool,
) -> bool {
    forall|k: int|
        0 <= k < answers.len() ==> told_by(
            s.run(answers.subrange(0, k)),
            #[trigger] answers[k],
            crossing,
        )
}

/// Whatever the answers, the refinement of a cloud stays well-formed.
pub proof fn lemma_run_wf(points: nat, limit: u64, answers: Seq<Answer>)
    ensures
        State::start(points, limit).run(answers).wf(),
        State::start(points, limit).run(answers).points == points,
        State::start(points, limit).run(answers).limit == limit,
    decreases answers.len(),
{
    let s = State::start(points, limit);
    if answers.len() == 0 {
        assert(s.ring.no_duplicates());
    } else {
        lemma_run_wf(points, limit, answers.drop_last());
        lemma_after_wf(s.run(answers.drop_last()), answers.last());
    }
}

/// The hull does not intersect itself: if the answers say of the segments
/// what a symmetric `crossing` says, among them that the edges of the convex
/// hull do not intersect one another, then at every moment of the
/// refinement no two different edges of the boundary intersect, and so none
/// of the final edges that close a complete ring.
pub proof fn lemma_hull_never_intersects_itself(
    points: nat,
    limit: u64,
    answers: Seq<Answer>,
    crossing: spec_fn(Edge, Edge) -> bool,
)
    requires
        symmetric(crossing),
        all_told_by(State::start(points, limit), answers, crossing),
    ensures
        clear(State::start(points, limit).run(answers).bag(), crossing),
        State::start(points, limit).run(answers).request is Done ==> clear(
            State::start(points, limit).run(answers).finalized.to_multiset(),
            crossing,
        ),
    decreases answers.len(),
{
    broadcast use group_to_multiset_ensures;

    let s = State::start(points, limit);
    if answers.len() == 0 {
        assert(s.bag() =~= Multiset::<Edge>::empty());
    } else {
        let front = answers.drop_last();
        assert forall|k: int| 0 <= k < front.len() implies told_by(
            s.run(front.subrange(0, k)),
            #[trigger] front[k],
            crossing,
        ) by {
            assert(front.subrange(0, k) =~= answers.subrange(0, k));
            assert(front[k] == answers[k]);
        }
        lemma_hull_never_intersects_itself(points, limit, front, crossing);
        lemma_run_wf(points, limit, front);
        assert(answers.subrange(0, answers.len() - 1) =~= front);
        assert(told_by(s.run(front), answers[answers.len() - 1], crossing));
        lemma_boundary_stays_clear(s.run(front), answers.last(), crossing);
    }
    let d = s.run(answers);
    lemma_run_wf(points, limit, answers);
    if d.request is Done {
        assert(d.pending.to_multiset().len() == 0);
        assert(d.bag() =~= d.finalized.to_multiset());
    }
}

/// A point that stands on the boundary stays on it, and an edge that was
/// accepted as final stays final.
pub proof fn lemma_boundary_only_grows(s: State, answer: Answer)
    requires
        s.wf(),
    ensures
        forall|v: usize| s.cycle.contains(v) ==> s.after(answer).cycle.contains(v),
        s.finalized.is_prefix_of(s.after(answer).finalized),
{
    if s.takes(answer) && s.settles(answer) {
        lemma_after_settles(s, answer);
    }
}

/// A complete ring of a cloud of more than three points is closed by the
/// final edges: each of them joins a point of the ring to the next, the
/// last to the first, and no point stands on the ring twice.
pub proof fn lemma_ring_is_closed(s: State)
    requires
        s.wf(),
        s.request is Done,
        s.points > 3,
    ensures
        closes(s.finalized.to_multiset(), s.ring),
        s.ring == turned_to(s.cycle, s.finalized.last().i),
        s.ring.len() == s.cycle.len(),
{
    lemma_ordered_turns_ring(s.finalized, s.cycle);
}

/// A complete ring names points of the cloud, none of them twice.
pub proof fn lemma_ring_is_distinct(s: State)
    requires
        s.wf(),
        s.request is Done,
    ensures
        s.ring.no_duplicates(),
        forall|k: int| 0 <= k < s.ring.len() ==> #[trigger] s.ring[k] < s.points,
{
}

/// Whether two requests ask for the same thing of the same edge and point.
pub open spec fn alike(a: Request, b: Request) -> bool {
    match (a, b) {
        (Request::Hull, Request::Hull) => true,
        (Request::Scores(e), Request::Scores(f)) => e.link() == f.link(),
        (Request::Crossings(e, c), Request::Crossings(f, d)) => e.link() == f.link() && c == d,
        (Request::Done, Request::Done) => true,
        _ => false,
    }
}

/// An answer that is taken moves the refinement on: the next request is not
/// the one that was answered. A request that stays is the sign of an answer
/// that was not taken.
pub proof fn lemma_taken_answer_moves_on(s: State, answer: Answer)
    requires
        s.wf(),
        s.takes(answer),
    ensures
        !alike(s.after(answer).request, s.request),
{
    broadcast use group_to_multiset_ensures;

    if s.settles(answer) {
        lemma_after_settles(s, answer);
        let d = s.after(answer);
        if s.request is Scores && d.request is Scores {
            // The edge that was asked about is final now, and no edge of a
            // closed boundary is both final and asked about.
            let e = s.request->Scores_0;
            let f = d.request->Scores_0;
            assert(d.finalized[s.finalized.len() as int] == e);
            assert(d.finalized.contains(e));
            assert(d.loose().count(e) > 0);
            assert(d.bag().count(e) > 0);
            assert(d.bag().count(f) > 0);
            assert(d.bag().count(f) <= 1);
            assert(e != f);
        }
    }
}

/// A sequence of different numbers below a bound is no longer than the
/// bound.
pub proof fn lemma_distinct_below(items: Seq<usize>, bound: nat)
    requires
        items.no_duplicates(),
        forall|k: int| 0 <= k < items.len() ==> #[trigger] items[k] < bound,
    ensures
        items.len() <= bound,
    decreases bound,
{
    if items.len() > 0 {
        if bound == 0 {
            assert(items[0] < bound);
        } else {
            let top = (bound - 1) as usize;
            let rest = if items.contains(top) {
                items.remove(items.index_of(top))
            } else {
                items
            };
            assert forall|k: int| 0 <= k < rest.len() implies #[trigger] rest[k] < bound - 1 by {
                if items.contains(top) {
                    let at = items.index_of(top);
                    let x = if k < at { k } else { k + 1 };
                    assert(rest[k] == items[x]);
                    assert(items[x] != items[at]);
                } else {
                    assert(items.contains(rest[k]));
                }
            }
            assert(rest.no_duplicates()) by {
                if items.contains(top) {
                    let at = items.index_of(top);
                    assert forall|p: int, q: int|
                        0 <= p < rest.len() && 0 <= q < rest.len() && p != q implies rest[p]
                        != rest[q] by {
                        let x = if p < at { p } else { p + 1 };
                        let y = if q < at { q } else { q + 1 };
                        assert(rest[p] == items[x]);
                        assert(rest[q] == items[y]);
                    }
                }
            }
            lemma_distinct_below(rest, (bound - 1) as nat);
        }
    }
}

/// A bound on the number of answers that a state can still take.
pub open spec fn fuel(s: State) -> int {
    let open = 3 * (s.points - s.cycle.len()) + s.pending.len();
    match s.request {
        Request::Done => 0int,
        Request::Hull => 6 * (s.points as int),
        Request::Scores(_) => 2 * (open + 1) + 1,
        Request::Crossings(_, _) => 2 * (open + 1),
    }
}

/// Settling uses no more fuel than the pending edges stand for.
proof fn lemma_settle_fuel(s: State)
    requires
        s.cycle.len() <= s.points,
    ensures
        0 <= fuel(s.settle()) <= 2 * (3 * (s.points - s.cycle.len()) + s.pending.len()) + 1,
    decreases s.pending.len(),
{
    if s.pending.len() > 0 {
        lemma_longest_exists(s.pending);
        let k = longest(s.pending);
        let e = s.pending[k];
        if e.norm <= s.limit {
            lemma_settle_fuel(
                State { pending: s.pending.remove(k), finalized: s.finalized.push(e), ..s },
            );
        }
    }
}

/// What a well-formed state has of points on its boundary: no more than the
/// cloud has, one or more while an edge is the subject of a request, and
/// room for the point that a request names.
proof fn lemma_boundary_size(s: State)
    requires
        s.wf(),
    ensures
        s.cycle.len() <= s.points,
        s.request is Scores || s.request is Crossings ==> s.cycle.len() > 0,
        s.request is Crossings ==> s.cycle.len() < s.points,
{
    lemma_distinct_below(s.cycle, s.points);
    if s.request is Scores || s.request is Crossings {
        lemma_edge_position(s.bag(), s.cycle, 0, subject(s.request));
    }
    if s.request is Crossings {
        let e = s.request->Crossings_0;
        let c = s.request->Crossings_1;
        let wide = s.cycle.insert(s.cycle.index_of(e.i) + 1, c);
        lemma_opened(s, 0, 0);
        assert(s.opened(e, c, 0, 0).cycle == wide);
        lemma_distinct_below(wide, s.points);
    }
}

/// The refinement comes to an end: every answer that a state takes uses up
/// fuel, of which a state has no more than six times the number of points
/// and never less than none.
pub proof fn lemma_answers_use_fuel(s: State, answer: Answer)
    requires
        s.wf(),
        s.takes(answer),
    ensures
        0 <= fuel(s.after(answer)) < fuel(s),
        fuel(s) <= 6 * s.points,
{
    lemma_boundary_size(s);
    if s.request is Scores || s.request is Crossings {
        lemma_pending_size(s);
    }
    if s.settles(answer) {
        let n = s.unsettled(answer);
        lemma_after_settles(s, answer);
        lemma_distinct_below(n.cycle, n.points);
        match answer {
            Answer::Hull { indices, norms } => {
                assert(n.pending.len() == indices.len());
            },
            Answer::Scores { scores } => {},
            Answer::Crossings { first_norm, second_norm, first, second } => {
                let e = s.request->Crossings_0;
                let c = s.request->Crossings_1;
                lemma_opened(s, first_norm, second_norm);
                assert(s.opened(e, c, first_norm, second_norm).pending.len() == s.pending.len()
                    + 2);
            },
        }
        lemma_settle_fuel(n);
    }
}

/// While an edge is the subject of a request, fewer edges are pending than
/// the boundary has points.
proof fn lemma_pending_size(s: State)
    requires
        s.wf(),
        s.request is Scores || s.request is Crossings,
    ensures
        s.pending.len() < s.cycle.len(),
{
    broadcast use group_to_multiset_ensures;

    assert(s.bag().len() == s.cycle.len());
    assert(s.bag().len() == s.loose().len() + 1);
    assert(s.loose().len() == s.finalized.len() + s.pending.len());
}

} // verus!
