use crate::edge::Edge;
use vstd::multiset::Multiset;
use vstd::prelude::*;
use vstd::seq_lib::group_to_multiset_ensures;

verus! {

/// The position that follows `k` on a ring of `len` positions.
pub open spec fn following(k: int, len: int) -> int {
    if k + 1 == len {
        0
    } else {
        k + 1
    }
}

/// The two points joined by the segment that leaves position `k` of a ring.
pub open spec fn link_at(ring: Seq<usize>, k: int) -> (usize, usize) {
    (ring[k], ring[following(k, ring.len() as int)])
}

/// Whether an edge is the segment that leaves some position of the ring at
/// or after `from`.
pub open spec fn lies_on(e: Edge, ring: Seq<usize>, from: int) -> bool {
    exists|k: int| from <= k < ring.len() && #[trigger] link_at(ring, k) == e.link()
}

/// Whether some edge of the bag starts at the point `v`.
pub open spec fn leaves(bag: Multiset<Edge>, v: usize) -> bool {
    exists|e: Edge| #![trigger bag.count(e)] bag.count(e) > 0 && e.i == v
}

/// Whether the bag holds exactly the segments that leave the positions of the
/// ring from `from` on, each of them once, the ring passing through no point
/// twice.
pub open spec fn closes_from(bag: Multiset<Edge>, ring: Seq<usize>, from: int) -> bool {
    &&& ring.no_duplicates()
    &&& 0 <= from <= ring.len()
    &&& bag.len() == ring.len() - from
    &&& forall|e: Edge| #![trigger bag.count(e)] bag.count(e) > 0 ==> lies_on(e, ring, from)
    &&& forall|k: int| from <= k < ring.len() ==> leaves(bag, #[trigger] ring[k])
    &&& forall|e: Edge, f: Edge|
        #![trigger bag.count(e), bag.count(f)]
        bag.count(e) > 0 && bag.count(f) > 0 && e.i == f.i ==> e == f
    &&& forall|e: Edge| #![trigger bag.count(e)] bag.count(e) <= 1
}

/// Whether the edges of the bag form one closed directed cycle that visits
/// the points of the ring in order.
pub open spec fn closes(bag: Multiset<Edge>, ring: Seq<usize>) -> bool {
    closes_from(bag, ring, 0)
}

/// The ring read from position `k` on, the positions before `k` following
/// the last.
pub open spec fn turned(ring: Seq<usize>, k: int) -> Seq<usize> {
    ring.subrange(k, ring.len() as int) + ring.subrange(0, k)
}

/// The ring read from the point `v` on.
pub open spec fn turned_to(ring: Seq<usize>, v: usize) -> Seq<usize> {
    turned(ring, ring.index_of(v))
}

/// The segments of a ring whose `k`-th segment has squared length `norms[k]`.
pub open spec fn ring_edges(ring: Seq<usize>, norms: Seq<u64>) -> Seq<Edge> {
    Seq::new(
        ring.len(),
        |k: int| Edge { i: ring[k], j: ring[following(k, ring.len() as int)], norm: norms[k] },
    )
}

/// The position on the unturned ring of what stands at position `p` after
/// the ring was turned by `k`.
pub open spec fn source(p: int, k: int, len: int) -> int {
    if p + k < len {
        p + k
    } else {
        p + k - len
    }
}

/// An edge of a closed bag starts at a point of the ring and ends at the
/// point that follows it.
pub proof fn lemma_edge_position(bag: Multiset<Edge>, ring: Seq<usize>, from: int, e: Edge)
    requires
        closes_from(bag, ring, from),
        bag.count(e) > 0,
    ensures
        ring.contains(e.i),
        from <= ring.index_of(e.i) < ring.len(),
        ring[ring.index_of(e.i)] == e.i,
        e.j == ring[following(ring.index_of(e.i), ring.len() as int)],
{
    let k = choose|k: int| from <= k < ring.len() && #[trigger] link_at(ring, k) == e.link();
    assert(ring[k] == e.i);
    let x = ring.index_of(e.i);
    assert(0 <= x < ring.len() && ring[x] == e.i);
    assert(x == k);
}

/// What stands at position `p` of a turned ring, and the segment that
/// leaves it, are those of the position it came from.
pub proof fn lemma_turned_position(ring: Seq<usize>, k: int, p: int)
    requires
        0 <= k < ring.len(),
        0 <= p < ring.len(),
    ensures
        turned(ring, k).len() == ring.len(),
        0 <= source(p, k, ring.len() as int) < ring.len(),
        turned(ring, k)[p] == ring[source(p, k, ring.len() as int)],
        link_at(turned(ring, k), p) == link_at(ring, source(p, k, ring.len() as int)),
{
    let t = turned(ring, k);
    let m = ring.len() as int;
    let n = following(p, m);
    assert(t[p] == ring[source(p, k, m)]);
    assert(t[n] == ring[source(n, k, m)]);
    assert(source(n, k, m) == following(source(p, k, m), m));
}

/// A turned ring passes through no point twice if the ring does not.
pub proof fn lemma_turned_distinct(ring: Seq<usize>, k: int)
    requires
        ring.no_duplicates(),
        0 <= k < ring.len(),
    ensures
        turned(ring, k).no_duplicates(),
{
    let t = turned(ring, k);
    assert forall|p: int, q: int| 0 <= p < t.len() && 0 <= q < t.len() && p != q implies t[p]
        != t[q] by {
        lemma_turned_position(ring, k, p);
        lemma_turned_position(ring, k, q);
    }
}

/// A ring keeps closing a bag of edges from whichever of its points it is
/// read.
pub proof fn lemma_closes_turned(bag: Multiset<Edge>, ring: Seq<usize>, k: int)
    requires
        closes(bag, ring),
        0 <= k < ring.len(),
    ensures
        closes(bag, turned(ring, k)),
        turned(ring, k).len() == ring.len(),
        turned(ring, k)[0] == ring[k],
{
    let t = turned(ring, k);
    let m = ring.len() as int;
    lemma_turned_position(ring, k, 0);
    lemma_turned_distinct(ring, k);
    assert forall|e: Edge| #![trigger bag.count(e)] bag.count(e) > 0 implies lies_on(e, t, 0) by {
        let x = choose|x: int| 0 <= x < ring.len() && #[trigger] link_at(ring, x) == e.link();
        let p = if x >= k {
            x - k
        } else {
            x - k + m
        };
        lemma_turned_position(ring, k, p);
        assert(link_at(t, p) == e.link());
    }
    assert forall|p: int| 0 <= p < t.len() implies leaves(bag, #[trigger] t[p]) by {
        lemma_turned_position(ring, k, p);
        assert(leaves(bag, ring[source(p, k, m)]));
    }
}

/// The segments of a ring that passes through no point twice close it.
pub proof fn lemma_ring_edges_close(ring: Seq<usize>, norms: Seq<u64>)
    requires
        ring.no_duplicates(),
        norms.len() == ring.len(),
    ensures
        closes(ring_edges(ring, norms).to_multiset(), ring),
{
    broadcast use group_to_multiset_ensures;

    let edges = ring_edges(ring, norms);
    let bag = edges.to_multiset();
    assert forall|p: int, q: int| 0 <= p < edges.len() && 0 <= q < edges.len() && p != q implies edges[p]
        != edges[q] by {
        assert(edges[p].i == ring[p]);
        assert(edges[q].i == ring[q]);
    }
    assert(edges.no_duplicates());
    edges.lemma_multiset_has_no_duplicates();
    assert forall|e: Edge| #![trigger bag.count(e)] bag.count(e) > 0 implies lies_on(e, ring, 0) by {
        assert(edges.contains(e));
        let q = choose|q: int| 0 <= q < edges.len() && edges[q] == e;
        assert(link_at(ring, q) == e.link());
    }
    assert forall|k: int| 0 <= k < ring.len() implies leaves(bag, #[trigger] ring[k]) by {
        assert(edges[k].i == ring[k]);
        assert(edges.contains(edges[k]));
        assert(bag.count(edges[k]) > 0);
    }
    assert forall|e: Edge, f: Edge|
        #![trigger bag.count(e), bag.count(f)]
        bag.count(e) > 0 && bag.count(f) > 0 && e.i == f.i implies e == f by {
        assert(edges.contains(e));
        assert(edges.contains(f));
        let p = choose|p: int| 0 <= p < edges.len() && edges[p] == e;
        let q = choose|q: int| 0 <= q < edges.len() && edges[q] == f;
        assert(ring[p] == ring[q]);
    }
    assert forall|e: Edge| #![trigger bag.count(e)] bag.count(e) <= 1 by {
        if bag.count(e) > 0 {
            assert(bag.contains(e));
        }
    }
}

/// The position on the widened ring of what stood at position `p` before a
/// point was put in after position `k`.
pub open spec fn shifted(p: int, k: int) -> int {
    if p <= k {
        p
    } else {
        p + 1
    }
}

/// Putting a new point on a ring after position `k` splits the segment that
/// leaves `k` in two and keeps every other segment.
pub proof fn lemma_widened(ring: Seq<usize>, k: int, c: usize)
    requires
        ring.no_duplicates(),
        0 <= k < ring.len(),
        !ring.contains(c),
    ensures
        ring.insert(k + 1, c).len() == ring.len() + 1,
        ring.insert(k + 1, c).no_duplicates(),
        ring.insert(k + 1, c)[k + 1] == c,
        forall|p: int|
            0 <= p < ring.len() ==> #[trigger] ring[p] == ring.insert(k + 1, c)[shifted(p, k)],
        link_at(ring.insert(k + 1, c), k) == (ring[k], c),
        link_at(ring.insert(k + 1, c), k + 1) == (c, ring[following(k, ring.len() as int)]),
        forall|p: int|
            0 <= p < ring.len() && p != k ==> #[trigger] link_at(ring, p) == link_at(
                ring.insert(k + 1, c),
                shifted(p, k),
            ),
{
    let m = ring.len() as int;
    let wide = ring.insert(k + 1, c);
    assert(wide.len() == m + 1);
    assert forall|p: int| 0 <= p < m implies #[trigger] ring[p] == wide[shifted(p, k)] by {}
    assert forall|p: int, q: int| 0 <= p < wide.len() && 0 <= q < wide.len() && p != q implies wide[p]
        != wide[q] by {
        let a = if p <= k { p } else { p - 1 };
        let b = if q <= k { q } else { q - 1 };
        if p != k + 1 {
            assert(wide[p] == ring[a]);
            assert(ring.contains(ring[a]));
        }
        if q != k + 1 {
            assert(wide[q] == ring[b]);
            assert(ring.contains(ring[b]));
        }
    }
    assert(link_at(wide, k + 1) == (c, ring[following(k, m)])) by {
        let n = following(k + 1, m + 1);
        assert(wide[n] == ring[following(k, m)]);
    }
    assert forall|p: int| 0 <= p < m && p != k implies #[trigger] link_at(ring, p) == link_at(
        wide,
        shifted(p, k),
    ) by {
        let w = shifted(p, k);
        let n = following(w, m + 1);
        assert(wide[n] == ring[following(p, m)]);
    }
}

/// Opening an edge of a closed ring through a point that is not on it gives
/// a closed ring again: the two halves take the place of the edge, and the
/// point stands on the ring right after the point where the edge starts.
pub proof fn lemma_closes_split(
    bag: Multiset<Edge>,
    ring: Seq<usize>,
    e: Edge,
    c: usize,
    first_norm: u64,
    second_norm: u64,
)
    requires
        closes(bag, ring),
        bag.count(e) > 0,
        !ring.contains(c),
    ensures
        closes(
            bag.remove(e).insert(Edge { i: e.i, j: c, norm: first_norm }).insert(
                Edge { i: c, j: e.j, norm: second_norm },
            ),
            ring.insert(ring.index_of(e.i) + 1, c),
        ),
{
    let k = ring.index_of(e.i);
    let m = ring.len() as int;
    lemma_edge_position(bag, ring, 0, e);
    lemma_widened(ring, k, c);
    let e1 = Edge { i: e.i, j: c, norm: first_norm };
    let e2 = Edge { i: c, j: e.j, norm: second_norm };
    let less = bag.remove(e);
    let more = less.insert(e1).insert(e2);
    let wide = ring.insert(k + 1, c);
    assert(link_at(wide, k) == e1.link());
    assert(link_at(wide, k + 1) == e2.link());
    assert(less.count(e) == 0);
    assert(e1 != e2);
    assert forall|f: Edge| #![trigger less.count(f)] less.count(f) > 0 implies bag.count(f) > 0
        && f != e && f.i != e.i && f.i != c && ring.contains(f.i) by {
        assert(bag.count(f) > 0);
        lemma_edge_position(bag, ring, 0, f);
    }
    assert(less.count(e1) == 0);
    assert(less.count(e2) == 0);
    assert(more.len() == wide.len());
    assert forall|f: Edge| #![trigger more.count(f)] more.count(f) > 0 implies lies_on(f, wide, 0) by {
        if f == e2 {
            assert(link_at(wide, k + 1) == f.link());
        } else if f == e1 {
            assert(link_at(wide, k) == f.link());
        } else {
            assert(less.count(f) > 0);
            lemma_edge_position(bag, ring, 0, f);
            let p = ring.index_of(f.i);
            assert(link_at(ring, p) == f.link());
            assert(link_at(wide, shifted(p, k)) == f.link());
        }
    }
    assert forall|p: int| 0 <= p < wide.len() implies leaves(more, #[trigger] wide[p]) by {
        if p == k {
            assert(more.count(e1) > 0);
        } else if p == k + 1 {
            assert(more.count(e2) > 0);
        } else {
            let a = if p < k { p } else { p - 1 };
            assert(shifted(a, k) == p);
            assert(wide[p] == ring[a]);
            assert(leaves(bag, ring[a]));
            let f = choose|f: Edge| #![trigger bag.count(f)] bag.count(f) > 0 && f.i == ring[a];
            assert(f != e);
            assert(less.count(f) > 0);
            assert(more.count(f) > 0);
        }
    }
    assert forall|f: Edge, g: Edge|
        #![trigger more.count(f), more.count(g)]
        more.count(f) > 0 && more.count(g) > 0 && f.i == g.i implies f == g by {
        if f != e1 && f != e2 {
            assert(less.count(f) > 0);
        }
        if g != e1 && g != e2 {
            assert(less.count(g) > 0);
        }
    }
    assert forall|f: Edge| #![trigger more.count(f)] more.count(f) <= 1 by {
        if f != e1 && f != e2 {
            assert(more.count(f) == less.count(f));
        }
    }
}

} // verus!
