use crate::edge::Edge;
use crate::ring::{
    closes, closes_from, following, leaves, lemma_closes_turned, lemma_edge_position, lies_on,
    link_at, turned, turned_to,
};
use vstd::multiset::Multiset;
use vstd::prelude::*;
use vstd::seq_lib::group_to_multiset_ensures;

verus! {

/// Whether the edges form exactly one closed directed cycle.
pub open spec fn is_cycle(edges: Seq<Edge>) -> bool {
    edges.len() > 0 && exists|ring: Seq<usize>| closes(edges.to_multiset(), ring)
}

/// The point at which the edge that starts at `v` ends.
pub open spec fn successor(edges: Seq<Edge>, v: usize) -> usize {
    (choose|e: Edge| edges.contains(e) && e.i == v).j
}

/// The `count` points met by starting at `start` and following the edges.
pub open spec fn trail(edges: Seq<Edge>, start: usize, count: nat) -> Seq<usize>
    decreases count,
{
    if count == 0 {
        Seq::empty()
    } else {
        seq![start] + trail(edges, successor(edges, start), (count - 1) as nat)
    }
}

/// The points of a cycle in the order in which its edges visit them, from
/// the start of the last edge on.
pub open spec fn ordered(edges: Seq<Edge>) -> Seq<usize> {
    if edges.len() == 0 {
        Seq::empty()
    } else {
        trail(edges, edges.last().i, edges.len())
    }
}

/// The edge that starts at a point of the ring ends at the next.
proof fn lemma_successor(edges: Seq<Edge>, ring: Seq<usize>, p: int)
    requires
        closes(edges.to_multiset(), ring),
        0 <= p < ring.len(),
    ensures
        successor(edges, ring[p]) == ring[following(p, ring.len() as int)],
{
    broadcast use group_to_multiset_ensures;

    let bag = edges.to_multiset();
    assert(leaves(bag, ring[p]));
    let w = choose|e: Edge| #![trigger bag.count(e)] bag.count(e) > 0 && e.i == ring[p];
    assert(edges.contains(w) && w.i == ring[p]);
    let e = choose|e: Edge| edges.contains(e) && e.i == ring[p];
    assert(bag.count(e) > 0);
    lemma_edge_position(bag, ring, 0, e);
    assert(ring.index_of(e.i) == p);
}

/// Following the edges from position `p` of the ring to its end meets the
/// points of the ring from `p` on.
proof fn lemma_trail(edges: Seq<Edge>, ring: Seq<usize>, p: int)
    requires
        closes(edges.to_multiset(), ring),
        0 <= p < ring.len(),
    ensures
        trail(edges, ring[p], (ring.len() - p) as nat) == ring.subrange(p, ring.len() as int),
    decreases ring.len() - p,
{
    let m = ring.len() as int;
    lemma_successor(edges, ring, p);
    if p + 1 < m {
        lemma_trail(edges, ring, p + 1);
        assert(ring.subrange(p, m) =~= seq![ring[p]] + ring.subrange(p + 1, m));
    } else {
        assert(trail(edges, successor(edges, ring[p]), 0) =~= Seq::<usize>::empty());
        assert(ring.subrange(p, m) =~= seq![ring[p]] + Seq::<usize>::empty());
    }
}

/// The order of a cycle is the ring that its edges close, read from the
/// start of the last edge on: it holds every point of the ring once.
pub proof fn lemma_ordered_turns_ring(edges: Seq<Edge>, ring: Seq<usize>)
    requires
        edges.len() > 0,
        closes(edges.to_multiset(), ring),
    ensures
        ring.contains(edges.last().i),
        ordered(edges) == turned_to(ring, edges.last().i),
        ordered(edges).len() == ring.len(),
        ordered(edges).no_duplicates(),
        closes(edges.to_multiset(), ordered(edges)),
{
    broadcast use group_to_multiset_ensures;

    let bag = edges.to_multiset();
    let last = edges.last();
    assert(edges.contains(last));
    lemma_edge_position(bag, ring, 0, last);
    let k = ring.index_of(last.i);
    lemma_closes_turned(bag, ring, k);
    let t = turned(ring, k);
    lemma_trail(edges, t, 0);
    assert(t.subrange(0, t.len() as int) =~= t);
}

/// Puts the edges of a cycle end to end and lists the points where they
/// start: first that of the last edge, then that of the edge which starts
/// where the last one ends, and so on around the cycle.
pub fn reconstruct(edges: Vec<Edge>) -> (sorted: Vec<usize>)
    requires
        is_cycle(edges@),
    ensures
        sorted@ == ordered(edges@),
{
    broadcast use group_to_multiset_ensures;

    let ghost whole = edges@;
    let ghost ring = choose|ring: Seq<usize>| closes(whole.to_multiset(), ring);
    let ghost start = ring.index_of(whole.last().i);
    let ghost t = turned(ring, start);
    let mut rest = edges;
    let mut sorted: Vec<usize> = Vec::with_capacity(rest.len());
    let mut curr = rest.remove(rest.len() - 1);
    proof {
        let bag = whole.to_multiset();
        assert(whole.contains(curr));
        lemma_edge_position(bag, ring, 0, curr);
        lemma_closes_turned(bag, ring, start);
        lemma_ordered_turns_ring(whole, ring);
        lemma_edge_position(bag, t, 0, curr);
        assert(t.index_of(curr.i) == 0);
        lemma_rest_closes(bag, t, 0, curr);
    }
    while rest.len() > 0
        invariant
            t.len() == whole.len(),
            sorted.len() + rest.len() + 1 == whole.len(),
            closes_from(rest@.to_multiset(), t, sorted.len() + 1),
            curr.link() == link_at(t, sorted.len() as int),
            sorted@ == t.subrange(0, sorted.len() as int),
        decreases rest.len(),
    {
        let ghost q = sorted.len() as int;
        let ghost bag = rest@.to_multiset();
        let mut next: usize = 0;
        proof {
            rest@.to_multiset_ensures();
            assert(curr.j == t[q + 1]);
            assert(leaves(bag, t[q + 1]));
        }
        while next < rest.len() && rest[next].i != curr.j
            invariant
                next <= rest.len(),
                forall|p: int| 0 <= p < next ==> rest[p].i != curr.j,
                leaves(rest@.to_multiset(), curr.j),
            decreases rest.len() - next,
        {
            next += 1;
        }
        proof {
            rest@.to_multiset_ensures();
            if next == rest.len() {
                let w = choose|e: Edge| #![trigger bag.count(e)] bag.count(e) > 0 && e.i == curr.j;
                assert(rest@.contains(w));
            }
            lemma_edge_position(bag, t, q + 1, rest[next as int]);
            assert(rest@.contains(rest[next as int]));
            lemma_rest_closes(bag, t, q + 1, rest[next as int]);
        }
        let ghost before = rest@;
        let found = rest.remove(next);
        sorted.push(curr.i);
        curr = found;
        proof {
            before.to_multiset_ensures();
            assert(rest@.to_multiset() == bag.remove(found));
            assert(sorted@ =~= t.subrange(0, q + 1));
        }
    }
    sorted.push(curr.i);
    proof {
        assert(sorted@ =~= t);
    }
    sorted
}

/// Taking the edge that leaves the first open position out of a bag leaves
/// what closes the ring from the next position on.
proof fn lemma_rest_closes(bag: Multiset<Edge>, ring: Seq<usize>, from: int, e: Edge)
    requires
        closes_from(bag, ring, from),
        bag.count(e) > 0,
        from < ring.len(),
        e.i == ring[from],
    ensures
        closes_from(bag.remove(e), ring, from + 1),
        e.link() == link_at(ring, from),
{
    let less = bag.remove(e);
    lemma_edge_position(bag, ring, from, e);
    assert(ring.index_of(e.i) == from);
    assert forall|f: Edge| #![trigger less.count(f)] less.count(f) > 0 implies lies_on(
        f,
        ring,
        from + 1,
    ) by {
        assert(bag.count(f) > 0);
        assert(f != e);
        let k = choose|k: int| from <= k < ring.len() && #[trigger] link_at(ring, k) == f.link();
        assert(ring[k] == f.i);
        assert(k != from);
    }
    assert forall|k: int| from + 1 <= k < ring.len() implies leaves(less, #[trigger] ring[k]) by {
        assert(leaves(bag, ring[k]));
        let f = choose|f: Edge| #![trigger bag.count(f)] bag.count(f) > 0 && f.i == ring[k];
        assert(f != e);
        assert(less.count(f) > 0);
    }
}

} // verus!
