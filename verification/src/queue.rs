use crate::edge::Edge;
use vstd::prelude::*;

verus! {

/// Whether position `k` holds the edge that leaves the queue next: none in
/// the queue is longer, and every edge that came before it is shorter.
pub open spec fn is_longest(items: Seq<Edge>, k: int) -> bool {
    &&& 0 <= k < items.len()
    &&& forall|m: int| 0 <= m < items.len() ==> (#[trigger] items[m]).norm <= items[k].norm
    &&& forall|m: int| 0 <= m < k ==> (#[trigger] items[m]).norm < items[k].norm
}

/// The position of the edge that leaves the queue next.
pub open spec fn longest(items: Seq<Edge>) -> int {
    choose|k: int| is_longest(items, k)
}

/// At most one position holds the edge that leaves next.
pub proof fn lemma_longest_unique(items: Seq<Edge>, a: int, b: int)
    requires
        is_longest(items, a),
        is_longest(items, b),
    ensures
        a == b,
{
    if a < b {
        assert(items[a].norm < items[b].norm);
    } else if b < a {
        assert(items[b].norm < items[a].norm);
    }
}

/// A queue that is not empty has an edge that leaves next.
pub proof fn lemma_longest_exists(items: Seq<Edge>)
    requires
        items.len() > 0,
    ensures
        is_longest(items, longest(items)),
    decreases items.len(),
{
    if items.len() == 1 {
        assert(is_longest(items, 0));
    } else {
        let front = items.drop_last();
        lemma_longest_exists(front);
        let k = longest(front);
        let last = items.len() - 1;
        if items[last].norm > front[k].norm {
            assert forall|m: int| 0 <= m < items.len() implies (#[trigger] items[m]).norm
                <= items[last].norm by {
                if m < last {
                    assert(front[m].norm <= front[k].norm);
                }
            }
            assert forall|m: int| 0 <= m < last implies (#[trigger] items[m]).norm
                < items[last].norm by {
                assert(front[m].norm <= front[k].norm);
            }
            assert(is_longest(items, last));
        } else {
            assert forall|m: int| 0 <= m < items.len() implies (#[trigger] items[m]).norm
                <= items[k].norm by {
                if m < last {
                    assert(front[m].norm <= front[k].norm);
                }
            }
            assert forall|m: int| 0 <= m < k implies (#[trigger] items[m]).norm < items[k].norm by {
                assert(front[m].norm < front[k].norm);
            }
            assert(is_longest(items, k));
        }
    }
}

/// Whether position `k` holds the edge that leaves the queue last: none in
/// the queue is shorter, and every edge that came after it is longer.
pub open spec fn is_shortest(items: Seq<Edge>, k: int) -> bool {
    &&& 0 <= k < items.len()
    &&& forall|m: int| 0 <= m < items.len() ==> items[k].norm <= (#[trigger] items[m]).norm
    &&& forall|m: int| k < m < items.len() ==> items[k].norm < (#[trigger] items[m]).norm
}

/// The position of the edge that leaves the queue last.
pub open spec fn shortest(items: Seq<Edge>) -> int {
    choose|k: int| is_shortest(items, k)
}

/// At most one position holds the edge that leaves last.
pub proof fn lemma_shortest_unique(items: Seq<Edge>, a: int, b: int)
    requires
        is_shortest(items, a),
        is_shortest(items, b),
    ensures
        a == b,
{
    if a < b {
        assert(items[a].norm < items[b].norm);
    } else if b < a {
        assert(items[b].norm < items[a].norm);
    }
}

/// A queue that is not empty has an edge that leaves last.
pub proof fn lemma_shortest_exists(items: Seq<Edge>)
    requires
        items.len() > 0,
    ensures
        is_shortest(items, shortest(items)),
    decreases items.len(),
{
    if items.len() == 1 {
        assert(is_shortest(items, 0));
    } else {
        let front = items.drop_last();
        lemma_shortest_exists(front);
        let k = shortest(front);
        let last = items.len() - 1;
        if items[last].norm <= front[k].norm {
            assert forall|m: int| 0 <= m < items.len() implies items[last].norm <= (
            #[trigger] items[m]).norm by {
                if m < last {
                    assert(front[k].norm <= front[m].norm);
                }
            }
            assert(is_shortest(items, last));
        } else {
            assert forall|m: int| 0 <= m < items.len() implies items[k].norm <= (
            #[trigger] items[m]).norm by {
                if m < last {
                    assert(front[k].norm <= front[m].norm);
                }
            }
            assert forall|m: int| k < m < items.len() implies items[k].norm < (
            #[trigger] items[m]).norm by {
                if m < last {
                    assert(front[k].norm < front[m].norm);
                }
            }
            assert(is_shortest(items, k));
        }
    }
}

/// Taking the edge that leaves next out of a queue of two or more leaves the
/// edge that leaves last where it is in the order of the rest.
pub proof fn lemma_shortest_stays(items: Seq<Edge>)
    requires
        items.len() >= 2,
    ensures
        longest(items) != shortest(items),
        items.remove(longest(items))[shortest(items.remove(longest(items)))] == items[shortest(
            items,
        )],
{
    lemma_longest_exists(items);
    lemma_shortest_exists(items);
    let l = longest(items);
    let s = shortest(items);
    if l == s {
        let m = if l == 0 {
            1
        } else {
            0
        };
        assert(items[m].norm <= items[l].norm);
        assert(items[s].norm <= items[m].norm);
    }
    let rest = items.remove(l);
    let t = if s < l {
        s
    } else {
        s - 1
    };
    assert(rest[t] == items[s]);
    assert forall|m: int| 0 <= m < rest.len() implies rest[t].norm <= (#[trigger] rest[m]).norm by {
        let x = if m < l { m } else { m + 1 };
        assert(rest[m] == items[x]);
        assert(items[s].norm <= items[x].norm);
    }
    assert forall|m: int| t < m < rest.len() implies rest[t].norm < (#[trigger] rest[m]).norm by {
        let x = if m < l { m } else { m + 1 };
        assert(rest[m] == items[x]);
        assert(items[s].norm < items[x].norm);
    }
    assert(is_shortest(rest, t));
    lemma_shortest_exists(rest);
    lemma_shortest_unique(rest, t, shortest(rest));
}

/// The pending edges, handed out longest first; of edges equally long, the
/// one that was put in first leaves first.
pub struct EdgeQueue {
    items: Vec<Edge>,
}

impl View for EdgeQueue {
    type V = Seq<Edge>;

    /// The edges in the order in which they were put in.
    closed spec fn view(&self) -> Seq<Edge> {
        self.items@
    }
}

impl EdgeQueue {
    /// An empty queue with room for `capacity` edges.
    pub fn with_capacity(capacity: usize) -> (queue: EdgeQueue)
        ensures
            queue@ == Seq::<Edge>::empty(),
    {
        EdgeQueue { items: Vec::with_capacity(capacity) }
    }

    /// The number of edges in the queue.
    pub fn len(&self) -> (len: usize)
        ensures
            len == self@.len(),
    {
        self.items.len()
    }

    /// Whether the queue holds no edge.
    pub fn is_empty(&self) -> (empty: bool)
        ensures
            empty == (self@.len() == 0),
    {
        self.items.len() == 0
    }

    /// The edge that was put in as the `k`-th of those still in the queue.
    pub fn get(&self, k: usize) -> (edge: Edge)
        requires
            k < self@.len(),
        ensures
            edge == self@[k as int],
    {
        self.items[k]
    }

    /// Puts an edge in.
    pub fn push(&mut self, edge: Edge)
        ensures
            final(self)@ == old(self)@.push(edge),
    {
        self.items.push(edge);
    }

    /// Takes the longest edge out, or gives `None` when the queue is empty.
    pub fn pop(&mut self) -> (popped: Option<Edge>)
        ensures
            old(self)@.len() == 0 ==> popped.is_none() && final(self)@ == old(self)@,
            old(self)@.len() > 0 ==> popped == Some(old(self)@[longest(old(self)@)]) && final(self)@
                == old(self)@.remove(longest(old(self)@)),
    {
        if self.items.len() == 0 {
            return None;
        }
        let mut at: usize = 0;
        let mut k: usize = 1;
        while k < self.items.len()
            invariant
                0 <= at < k <= self.items.len(),
                forall|m: int|
                    0 <= m < k ==> (#[trigger] self.items[m]).norm <= self.items[at as int].norm,
                forall|m: int|
                    0 <= m < at ==> (#[trigger] self.items[m]).norm < self.items[at as int].norm,
            decreases self.items.len() - k,
        {
            if self.items[k].norm > self.items[at].norm {
                at = k;
            }
            k += 1;
        }
        proof {
            assert(is_longest(self.items@, at as int));
            lemma_longest_exists(self.items@);
            lemma_longest_unique(self.items@, at as int, longest(self.items@));
        }
        Some(self.items.remove(at))
    }
}

} // verus!
