use crate::edge::Edge;
use vstd::prelude::*;

verus! {

/// Whether the point `k` may be put between the ends of the edge: it is
/// neither of them.
pub open spec fn eligible(e: Edge, k: int) -> bool {
    k != e.i && k != e.j
}

/// Whether `c` is the point through which the edge is opened: of the
/// eligible points it has the least score, and every eligible point before
/// it has a greater one.
pub open spec fn is_best(e: Edge, scores: Seq<u64>, c: int) -> bool {
    &&& 0 <= c < scores.len()
    &&& eligible(e, c)
    &&& forall|k: int|
        0 <= k < scores.len() && eligible(e, k) ==> scores[c] <= #[trigger] scores[k]
    &&& forall|k: int| 0 <= k < c && eligible(e, k) ==> scores[c] < #[trigger] scores[k]
}

/// The point through which the edge is opened.
pub open spec fn best(e: Edge, scores: Seq<u64>) -> int {
    choose|c: int| is_best(e, scores, c)
}

/// No two points are both the point through which an edge is opened.
pub proof fn lemma_best_unique(e: Edge, scores: Seq<u64>, a: int, b: int)
    requires
        is_best(e, scores, a),
        is_best(e, scores, b),
    ensures
        a == b,
{
    if a < b {
        assert(scores[b] < scores[a]);
        assert(scores[a] <= scores[b]);
    } else if b < a {
        assert(scores[a] < scores[b]);
        assert(scores[b] <= scores[a]);
    }
}

/// Picks the point through which to open an edge. `scores[k]` is the score of
/// the point `k` against the edge: the wider of the two angles under which
/// the point sees the edge from its ends, on an integer scale that keeps the
/// order of the angles. The least score wins, and of equal scores the first.
/// The result is `None` when the cloud has no point besides the two ends of
/// the edge.
pub fn best_candidate(edge: &Edge, scores: &Vec<u64>) -> (found: Option<usize>)
    ensures
        match found {
            Some(c) => is_best(*edge, scores@, c as int) && c == best(*edge, scores@),
            None => forall|k: int| 0 <= k < scores.len() ==> !eligible(*edge, k),
        },
{
    let mut found: Option<usize> = None;
    let mut k: usize = 0;
    while k < scores.len()
        invariant
            k <= scores.len(),
            match found {
                Some(c) => {
                    &&& c < k
                    &&& eligible(*edge, c as int)
                    &&& forall|m: int|
                        0 <= m < k && eligible(*edge, m) ==> scores[c as int]
                            <= #[trigger] scores[m]
                    &&& forall|m: int|
                        0 <= m < c && eligible(*edge, m) ==> scores[c as int]
                            < #[trigger] scores[m]
                },
                None => forall|m: int| 0 <= m < k ==> !eligible(*edge, m),
            },
        decreases scores.len() - k,
    {
        if k != edge.i && k != edge.j {
            let better = match found {
                Some(c) => scores[c] > scores[k],
                None => true,
            };
            if better {
                found = Some(k);
            }
        }
        k += 1;
    }
    proof {
        if let Some(c) = found {
            lemma_best_unique(*edge, scores@, c as int, best(*edge, scores@));
        }
    }
    found
}

/// A cloud of at least three points has a point besides the two ends of an
/// edge, so that one of its points is the best.
pub proof fn lemma_best_exists(e: Edge, scores: Seq<u64>)
    requires
        scores.len() >= 3,
    ensures
        is_best(e, scores, best(e, scores)),
        0 <= best(e, scores) < scores.len(),
{
    let w: int = if eligible(e, 0) {
        0
    } else if eligible(e, 1) {
        1
    } else {
        2
    };
    assert(eligible(e, w));
    lemma_least_exists(e, scores, scores.len() as int, w);
}

/// Among the first `upto` points, of which `w` is eligible, one is the
/// best.
proof fn lemma_least_exists(e: Edge, scores: Seq<u64>, upto: int, w: int)
    requires
        0 <= w < upto <= scores.len(),
        eligible(e, w),
    ensures
        exists|c: int| is_best(e, scores.subrange(0, upto), c),
        upto == scores.len() ==> is_best(e, scores, best(e, scores)),
    decreases upto,
{
    let part = scores.subrange(0, upto);
    let short = scores.subrange(0, upto - 1);
    if upto == w + 1 {
        if exists|x: int| 0 <= x < w && eligible(e, x) {
            let x = choose|x: int| 0 <= x < w && eligible(e, x);
            lemma_least_exists(e, scores, upto - 1, x);
            let c = choose|c: int| is_best(e, short, c);
            lemma_extend_least(e, scores, upto, c);
        } else {
            assert(is_best(e, part, w));
        }
    } else {
        lemma_least_exists(e, scores, upto - 1, w);
        let c = choose|c: int| is_best(e, short, c);
        lemma_extend_least(e, scores, upto, c);
    }
    if upto == scores.len() {
        assert(part =~= scores);
    }
}

/// If one of the first `upto - 1` points is the best of them, one of the
/// first `upto` points is the best of those.
proof fn lemma_extend_least(e: Edge, scores: Seq<u64>, upto: int, c: int)
    requires
        0 < upto <= scores.len(),
        is_best(e, scores.subrange(0, upto - 1), c),
    ensures
        exists|d: int| is_best(e, scores.subrange(0, upto), d),
{
    let short = scores.subrange(0, upto - 1);
    let part = scores.subrange(0, upto);
    let last = upto - 1;
    assert forall|k: int| 0 <= k < last implies #[trigger] part[k] == short[k] by {}
    if eligible(e, last) && part[last] < part[c] {
        assert forall|k: int| 0 <= k < part.len() && eligible(e, k) implies part[last]
            <= #[trigger] part[k] by {
            if k < last {
                assert(short[c] <= short[k]);
            }
        }
        assert forall|k: int| 0 <= k < last && eligible(e, k) implies part[last]
            < #[trigger] part[k] by {
            assert(short[c] <= short[k]);
        }
        assert(is_best(e, part, last));
    } else {
        assert forall|k: int| 0 <= k < part.len() && eligible(e, k) implies part[c]
            <= #[trigger] part[k] by {
            if k < last {
                assert(short[c] <= short[k]);
            }
        }
        assert forall|k: int| 0 <= k < c && eligible(e, k) implies part[c] < #[trigger] part[k] by {
            assert(short[c] < short[k]);
        }
        assert(is_best(e, part, c));
    }
}

} // verus!
