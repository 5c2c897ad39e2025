//! Which edges of a closed polygon ring must be tested against each other
//! for self-intersection.
//!
//! Edge `i` of a ring of `n` vertices joins vertex `i` to vertex
//! `(i + 1) % n`. Neighbouring edges always meet at their shared vertex, so a
//! simple-polygon check tests only pairs of edges that share no vertex; the
//! segment intersection test itself is floating-point work of the caller.

use vstd::prelude::*;

verus! {

/// Edges `i < j` of a ring of `n` vertices share a vertex: they are
/// consecutive, or they are the first and the last edge.
pub open spec fn edges_share_vertex(n: nat, i: nat, j: nat) -> bool {
    j == i + 1 || (i == 0 && j + 1 == n)
}

/// A pair of edges, by edge index, that must be tested for crossing.
pub open spec fn is_crossing_candidate(n: nat, pair: (usize, usize)) -> bool {
    pair.0 < pair.1 < n && !edges_share_vertex(n, pair.0 as nat, pair.1 as nat)
}

/// Lexicographic order on edge pairs.
pub open spec fn pair_before(a: (usize, usize), b: (usize, usize)) -> bool {
    a.0 < b.0 || (a.0 == b.0 && a.1 < b.1)
}

/// The pairs of edges of a ring of `n` vertices that share no vertex, in
/// lexicographic order.
pub fn crossing_candidates(n: usize) -> (pairs: Vec<(usize, usize)>)
    ensures
        forall|k: int| 0 <= k < pairs.len() ==> is_crossing_candidate(n as nat, #[trigger] pairs@[k]),
        forall|a: int, b: int|
            #![trigger pairs@[a], pairs@[b]]
            0 <= a < b < pairs.len() ==> pair_before(pairs@[a], pairs@[b]),
        forall|a: int, b: int|
            #![trigger pairs@[a], pairs@[b]]
            0 <= a < b < pairs.len() ==> pairs@[a].0 < pairs@[b].0 || (pairs@[a].0 == pairs@[b].0
                && pairs@[a].1 < pairs@[b].1),
        forall|pair: (usize, usize)| is_crossing_candidate(n as nat, pair) ==> pairs@.contains(pair),
        forall|i: usize, j: usize|
            pairs@.contains((i, j)) <==> (i < j < n && j != i + 1 && !(i == 0 && j + 1 == n)),
{
    let mut pairs: Vec<(usize, usize)> = Vec::new();
    let mut i: usize = 0;
    while i < n
        invariant
            i <= n,
            forall|k: int| 0 <= k < pairs.len() ==> is_crossing_candidate(n as nat, #[trigger] pairs@[k]) && pairs@[k].0 < i,
            forall|a: int, b: int|
                #![trigger pairs@[a], pairs@[b]]
                0 <= a < b < pairs.len() ==> pair_before(pairs@[a], pairs@[b]),
            forall|pair: (usize, usize)| is_crossing_candidate(n as nat, pair) && pair.0 < i ==> pairs@.contains(pair),
        decreases n - i,
    {
        let mut j: usize = i + 1;
        while j < n
            invariant
                i < n,
                i + 1 <= j <= n,
                forall|k: int|
                    0 <= k < pairs.len() ==> is_crossing_candidate(n as nat, #[trigger] pairs@[k])
                        && (pairs@[k].0 < i || (pairs@[k].0 == i && pairs@[k].1 < j)),
                forall|a: int, b: int|
                    #![trigger pairs@[a], pairs@[b]]
                    0 <= a < b < pairs.len() ==> pair_before(pairs@[a], pairs@[b]),
                forall|pair: (usize, usize)|
                    is_crossing_candidate(n as nat, pair) && (pair.0 < i || (pair.0 == i && pair.1 < j))
                        ==> pairs@.contains(pair),
            decreases n - j,
        {
            let adjacent = j == i + 1 || (i == 0 && j == n - 1);
            if !adjacent {
                let ghost before = pairs@;
                pairs.push((i, j));
                proof {
                    assert forall|pair: (usize, usize)|
                        is_crossing_candidate(n as nat, pair) && (pair.0 < i || (pair.0 == i && pair.1 < j + 1))
                            implies pairs@.contains(pair) by {
                        if pair == (i, j) {
                            assert(pairs@[before.len() as int] == pair);
                        } else {
                            assert(before.contains(pair));
                            let k = choose|k: int| 0 <= k < before.len() && before[k] == pair;
                            assert(pairs@[k] == pair);
                        }
                    }
                }
            }
            j = j + 1;
        }
        i = i + 1;
    }
    proof {
        lemma_crossing_candidates_are_non_adjacent_pairs(n as nat, pairs@);
    }
    pairs
}

/// The edge pairs to test are exactly the pairs `i < j` of a ring of `n`
/// vertices other than consecutive edges (`j == i + 1`) and the closing pair
/// (first edge and last edge): every other pair, however far apart, is
/// listed.
pub proof fn lemma_crossing_candidates_are_non_adjacent_pairs(n: nat, pairs: Seq<(usize, usize)>)
    requires
        forall|k: int| 0 <= k < pairs.len() ==> is_crossing_candidate(n, #[trigger] pairs[k]),
        forall|pair: (usize, usize)| is_crossing_candidate(n, pair) ==> pairs.contains(pair),
    ensures
        forall|i: usize, j: usize|
            pairs.contains((i, j)) <==> (i < j < n && j != i + 1 && !(i == 0 && j + 1 == n)),
{
    assert forall|i: usize, j: usize|
        pairs.contains((i, j)) <==> (i < j < n && j != i + 1 && !(i == 0 && j + 1 == n)) by {
        if pairs.contains((i, j)) {
            let k = choose|k: int| 0 <= k < pairs.len() && pairs[k] == (i, j);
            assert(is_crossing_candidate(n, pairs[k]));
        }
        if i < j < n && j != i + 1 && !(i == 0 && j + 1 == n) {
            assert(is_crossing_candidate(n, (i, j)));
        }
    }
}

} // verus!
