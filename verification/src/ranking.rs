//! Deterministic ranking of evaluated catalogue objects.
//!
//! The geometry of one object against a pointing (separation, frame
//! membership) is floating-point work done by the caller, who reduces it to a
//! [`Candidate`]: the object's catalogue index, an integer that orders
//! separations, and the two membership outcomes the query modes read.

use vstd::prelude::*;

verus! {

/// One evaluated catalogue object, as ranking sees it.
#[derive(Debug, Clone, Copy, PartialEq, Eq, Structural)]
pub struct Candidate {
    /// Position of the object in the caller's catalogue.
    pub index: usize,
    /// Order-preserving integer image of the object's separation from the
    /// pointing (equal separations have equal keys).
    pub order: u64,
    /// Whether the object lies inside the active membership shape.
    pub in_frame: bool,
    /// Whether the separation is within the query's maximum radius (true
    /// when the query has none).
    pub within_radius: bool,
}

/// What to return from a match.
#[derive(Debug, Clone, Copy, PartialEq, Eq, Structural)]
pub enum RankQuery {
    /// Every object inside the membership shape, ranked nearest-first.
    AllWithinField,
    /// The single nearest in-frame object.
    NearestOne,
    /// The `n` nearest objects by separation, in frame or not, each within
    /// the query's maximum radius when it has one.
    NearestN {
        /// Maximum number of results.
        n: usize,
    },
}

/// Whether a query keeps a candidate before ranking.
pub open spec fn keeps(candidate: Candidate, query: RankQuery) -> bool {
    match query {
        RankQuery::AllWithinField | RankQuery::NearestOne => candidate.in_frame,
        RankQuery::NearestN { .. } => candidate.within_radius,
    }
}

/// How many of `kept` candidates a query returns.
pub open spec fn result_len(query: RankQuery, kept: nat) -> nat {
    match query {
        RankQuery::AllWithinField => kept,
        RankQuery::NearestOne => if kept < 1 {
            kept
        } else {
            1
        },
        RankQuery::NearestN { n } => if kept < n {
            kept
        } else {
            n as nat
        },
    }
}

/// Ranking order: by separation key, ties broken by catalogue index.
pub open spec fn ranks_before(a: Candidate, b: Candidate) -> bool {
    a.order < b.order || (a.order == b.order && a.index < b.index)
}

/// No two candidates describe the same catalogue object.
pub open spec fn indices_distinct(candidates: Seq<Candidate>) -> bool {
    forall|i: int, j: int|
        0 <= i < candidates.len() && 0 <= j < candidates.len() && i != j
            ==> #[trigger] candidates[i].index != #[trigger] candidates[j].index
}

/// The candidates a query keeps.
pub open spec fn kept_set(candidates: Seq<Candidate>, query: RankQuery) -> Set<Candidate> {
    Set::new(|c: Candidate| candidates.contains(c) && keeps(c, query))
}

/// `ranked` is the answer to `query` over `candidates`: the kept candidates
/// in ranking order, cut to the query's length — every kept candidate left
/// out ranks after all that are returned.
pub open spec fn is_ranking(candidates: Seq<Candidate>, query: RankQuery, ranked: Seq<Candidate>) -> bool {
    let kept = kept_set(candidates, query);
    &&& forall|a: int, b: int|
        #![trigger ranked[a], ranked[b]]
        0 <= a < b < ranked.len() ==> ranks_before(ranked[a], ranked[b])
    &&& forall|k: int| 0 <= k < ranked.len() ==> kept.contains(#[trigger] ranked[k])
    &&& ranked.len() == result_len(query, kept.len())
    &&& forall|c: Candidate, k: int|
        #![trigger kept.contains(c), ranked[k]]
        kept.contains(c) && !ranked.contains(c) && 0 <= k < ranked.len() ==> ranks_before(
            ranked[k],
            c,
        )
}

/// Whether `query` keeps `candidate`.
pub fn keep(candidate: &Candidate, query: RankQuery) -> (kept: bool)
    ensures
        kept == keeps(*candidate, query),
        kept == (if query is NearestN {
            candidate.within_radius
        } else {
            candidate.in_frame
        }),
{
    match query {
        RankQuery::AllWithinField | RankQuery::NearestOne => candidate.in_frame,
        RankQuery::NearestN { .. } => candidate.within_radius,
    }
}

/// Whether `a` ranks before `b`.
fn before(a: &Candidate, b: &Candidate) -> (earlier: bool)
    ensures
        earlier == ranks_before(*a, *b),
{
    a.order < b.order || (a.order == b.order && a.index < b.index)
}

/// Filter, rank and cut the candidates of one query.
///
/// The result is ascending by separation with ties broken by catalogue index;
/// `NearestOne` keeps the first, `NearestN { n }` the first `n`.
pub fn rank_candidates(candidates: &Vec<Candidate>, query: RankQuery) -> (ranked: Vec<Candidate>)
    requires
        indices_distinct(candidates@),
    ensures
        is_ranking(candidates@, query, ranked@),
        forall|a: int, b: int|
            #![trigger ranked@[a], ranked@[b]]
            0 <= a < b < ranked.len() ==> ranked@[a].order < ranked@[b].order || (ranked@[a].order
                == ranked@[b].order && ranked@[a].index < ranked@[b].index),
{
    let ghost cs = candidates@;
    let mut sorted: Vec<Candidate> = Vec::new();
    let mut i: usize = 0;
    while i < candidates.len()
        invariant
            cs == candidates@,
            indices_distinct(cs),
            i <= cs.len(),
            forall|a: int, b: int|
                #![trigger sorted@[a], sorted@[b]]
                0 <= a < b < sorted.len() ==> ranks_before(sorted@[a], sorted@[b]),
            forall|c: Candidate|
                #[trigger] sorted@.contains(c) <==> (cs.subrange(0, i as int).contains(c) && keeps(
                    c,
                    query,
                )),
        decreases cs.len() - i,
    {
        let c = candidates[i];
        let ghost prev = sorted@;
        let ghost mut at: int = 0;
        if keep(&c, query) {
            let mut pos: usize = 0;
            while pos < sorted.len() && before(&sorted[pos], &c)
                invariant
                    prev == sorted@,
                    pos <= sorted.len(),
                    forall|k: int| 0 <= k < pos ==> ranks_before(#[trigger] sorted@[k], c),
                decreases sorted.len() - pos,
            {
                pos = pos + 1;
            }
            proof {
                assert forall|k: int| pos <= k < prev.len() implies ranks_before(
                    c,
                    #[trigger] prev[k],
                ) by {
                    let s = prev[k];
                    assert(prev.contains(s));
                    assert(cs.subrange(0, i as int).contains(s));
                    let m = choose|m: int| 0 <= m < i && cs.subrange(0, i as int)[m] == s;
                    assert(cs[m] == s);
                    assert(cs[i as int] == c);
                    assert(s.index != c.index);
                    if k > pos {
                        assert(ranks_before(prev[pos as int], s));
                    }
                }
            }
            sorted.insert(pos, c);
            proof {
                at = pos as int;
                assert forall|a: int, b: int|
                    #![trigger sorted@[a], sorted@[b]]
                    0 <= a < b < sorted.len() implies ranks_before(sorted@[a], sorted@[b]) by {
                    if a < pos && b == pos {
                        assert(sorted@[a] == prev[a]);
                    } else if a == pos {
                        assert(sorted@[b] == prev[b - 1]);
                    } else if a < pos && b > pos {
                        assert(sorted@[a] == prev[a]);
                        assert(sorted@[b] == prev[b - 1]);
                        assert(ranks_before(prev[a], c));
                        assert(ranks_before(c, prev[b - 1]));
                    } else if b < pos {
                        assert(sorted@[a] == prev[a]);
                        assert(sorted@[b] == prev[b]);
                    } else {
                        assert(sorted@[a] == prev[a - 1]);
                        assert(sorted@[b] == prev[b - 1]);
                    }
                }
            }
        }
        proof {
            let now = cs.subrange(0, i + 1);
            assert(now =~= cs.subrange(0, i as int).push(c));
            assert forall|d: Candidate| sorted@.contains(d) <==> (now.contains(d) && keeps(d, query)) by {
                if sorted@.contains(d) {
                    let k = choose|k: int| 0 <= k < sorted@.len() && sorted@[k] == d;
                    if keeps(c, query) {
                        if k != at {
                            let kk = if k < at { k } else { k - 1 };
                            assert(prev[kk] == d);
                            assert(prev.contains(d));
                        }
                    } else {
                        assert(prev.contains(d));
                    }
                    if d != c {
                        assert(prev.contains(d));
                        assert(cs.subrange(0, i as int).contains(d));
                        let m = choose|m: int| 0 <= m < i && cs.subrange(0, i as int)[m] == d;
                        assert(now[m] == d);
                    } else {
                        assert(now[i as int] == d);
                    }
                }
                if now.contains(d) && keeps(d, query) {
                    let m = choose|m: int| 0 <= m < now.len() && now[m] == d;
                    if m == i {
                        assert(d == c);
                        assert(sorted@[at] == c);
                    } else {
                        assert(cs.subrange(0, i as int)[m] == d);
                        assert(prev.contains(d));
                        let k = choose|k: int| 0 <= k < prev.len() && prev[k] == d;
                        if keeps(c, query) {
                            if k < at {
                                assert(sorted@[k] == d);
                            } else {
                                assert(sorted@[k + 1] == d);
                            }
                        } else {
                            assert(sorted@[k] == d);
                        }
                    }
                }
            }
        }
        i = i + 1;
    }
    proof {
        assert(cs.subrange(0, cs.len() as int) =~= cs);
        assert forall|c: Candidate| #[trigger] sorted@.contains(c) <==> (cs.contains(c) && keeps(c, query)) by {
            assert(sorted@.contains(c) <==> (cs.subrange(0, cs.len() as int).contains(c) && keeps(c, query)));
        }
        lemma_sorted_len_is_kept_len(cs, query, sorted@);
    }
    let ghost full = sorted@;
    let limit: usize = match query {
        RankQuery::AllWithinField => sorted.len(),
        RankQuery::NearestOne => 1,
        RankQuery::NearestN { n } => n,
    };
    sorted.truncate(limit);
    proof {
        let kept = kept_set(cs, query);
        assert forall|k: int| 0 <= k < sorted.len() implies kept.contains(#[trigger] sorted@[k]) by {
            assert(full.contains(full[k]));
        }
        assert forall|d: Candidate, k: int|
            #![trigger kept.contains(d), sorted@[k]]
            kept.contains(d) && !sorted@.contains(d) && 0 <= k < sorted.len() implies ranks_before(
            sorted@[k],
            d,
        ) by {
            assert(full.contains(d));
            let m = choose|m: int| 0 <= m < full.len() && full[m] == d;
            if m < sorted.len() {
                assert(sorted@[m] == d);
            }
            assert(sorted@[k] == full[k]);
        }
        lemma_ranking_is_nearest_first(cs, query, sorted@);
    }
    sorted
}

/// A ranking-ordered listing of exactly the kept candidates is as long as the
/// kept set is large.
proof fn lemma_sorted_len_is_kept_len(cs: Seq<Candidate>, query: RankQuery, sorted: Seq<Candidate>)
    requires
        forall|a: int, b: int|
            #![trigger sorted[a], sorted[b]]
            0 <= a < b < sorted.len() ==> ranks_before(sorted[a], sorted[b]),
        forall|c: Candidate| #[trigger] sorted.contains(c) <==> (cs.contains(c) && keeps(c, query)),
    ensures
        sorted.len() == kept_set(cs, query).len(),
        sorted.to_set() == kept_set(cs, query),
{
    assert(sorted.no_duplicates()) by {
        assert forall|a: int, b: int| 0 <= a < sorted.len() && 0 <= b < sorted.len() && a != b implies sorted[a] != sorted[b] by {
            if a < b {
                assert(ranks_before(sorted[a], sorted[b]));
            } else {
                assert(ranks_before(sorted[b], sorted[a]));
            }
        }
    }
    sorted.unique_seq_to_set();
    assert(sorted.to_set() =~= kept_set(cs, query));
}

/// Ranking depends on nothing but the set of kept candidates: two candidate
/// lists whose queries keep the same candidates are ranked identically.
pub proof fn lemma_ranking_determined_by_kept(
    a: Seq<Candidate>,
    b: Seq<Candidate>,
    query: RankQuery,
    ranked_a: Seq<Candidate>,
    ranked_b: Seq<Candidate>,
)
    requires
        indices_distinct(a),
        kept_set(a, query) == kept_set(b, query),
        is_ranking(a, query, ranked_a),
        is_ranking(b, query, ranked_b),
    ensures
        ranked_a == ranked_b,
{
    assert forall|j: int| 0 <= j < ranked_a.len() implies ranked_a[j] == ranked_b[j] by {
        lemma_rankings_agree_up_to(a, b, query, ranked_a, ranked_b, j);
    }
    assert(ranked_a =~= ranked_b);
}

/// Two rankings of the same kept set agree on every position up to `j`.
proof fn lemma_rankings_agree_up_to(
    a: Seq<Candidate>,
    b: Seq<Candidate>,
    query: RankQuery,
    ranked_a: Seq<Candidate>,
    ranked_b: Seq<Candidate>,
    j: int,
)
    requires
        indices_distinct(a),
        kept_set(a, query) == kept_set(b, query),
        is_ranking(a, query, ranked_a),
        is_ranking(b, query, ranked_b),
        0 <= j < ranked_a.len(),
    ensures
        forall|i: int| 0 <= i <= j ==> ranked_a[i] == ranked_b[i],
    decreases j,
{
    if j > 0 {
        lemma_rankings_agree_up_to(a, b, query, ranked_a, ranked_b, j - 1);
    }
    let kept = kept_set(a, query);
    let x = ranked_a[j];
    let y = ranked_b[j];
    assert(kept.contains(x));
    assert(kept.contains(y));
    if x != y {
        let px = choose|p: int| 0 <= p < a.len() && a[p] == x;
        let py = choose|p: int| 0 <= p < a.len() && a[p] == y;
        assert(px != py);
        assert(x.index != y.index);
        if ranks_before(x, y) {
            lemma_no_earlier_at_same_place(ranked_a, ranked_b, kept, x, y, j);
        } else {
            assert(ranks_before(y, x));
            lemma_no_earlier_at_same_place(ranked_b, ranked_a, kept, y, x, j);
        }
    }
}

/// When two rankings of one kept set agree before position `j`, the candidate
/// at `j` in `one` does not rank before the candidate at `j` in `other`.
proof fn lemma_no_earlier_at_same_place(
    one: Seq<Candidate>,
    other: Seq<Candidate>,
    kept: Set<Candidate>,
    first: Candidate,
    second: Candidate,
    j: int,
)
    requires
        0 <= j < one.len(),
        j < other.len(),
        one[j] == first,
        other[j] == second,
        kept.contains(first),
        forall|i: int| 0 <= i < j ==> one[i] == other[i],
        forall|x: int, y: int|
            #![trigger one[x], one[y]]
            0 <= x < y < one.len() ==> ranks_before(one[x], one[y]),
        forall|x: int, y: int|
            #![trigger other[x], other[y]]
            0 <= x < y < other.len() ==> ranks_before(other[x], other[y]),
        forall|c: Candidate, k: int|
            #![trigger kept.contains(c), other[k]]
            kept.contains(c) && !other.contains(c) && 0 <= k < other.len() ==> ranks_before(
                other[k],
                c,
            ),
    ensures
        !ranks_before(first, second),
{
    if !ranks_before(first, second) {
    } else if other.contains(first) {
        let m = choose|m: int| 0 <= m < other.len() && other[m] == first;
        if m < j {
            assert(one[m] == first);
            assert(ranks_before(one[m], one[j]));
        } else if m > j {
            assert(ranks_before(other[j], other[m]));
        }
    } else {
        assert(ranks_before(other[j], first));
    }
}

/// A candidate list that holds every candidate of the full catalogue the
/// query keeps (and nothing from outside it) is ranked exactly like the full
/// catalogue: the declination band of a prebuilt index changes no result.
pub proof fn lemma_band_ranking_matches_full_scan(
    all: Seq<Candidate>,
    band: Seq<Candidate>,
    query: RankQuery,
    full_ranking: Seq<Candidate>,
    band_ranking: Seq<Candidate>,
)
    requires
        indices_distinct(all),
        forall|c: Candidate| band.contains(c) ==> all.contains(c),
        forall|c: Candidate| all.contains(c) && keeps(c, query) ==> band.contains(c),
        is_ranking(all, query, full_ranking),
        is_ranking(band, query, band_ranking),
    ensures
        full_ranking == band_ranking,
{
    assert(kept_set(all, query) =~= kept_set(band, query));
    lemma_ranking_determined_by_kept(all, band, query, full_ranking, band_ranking);
}

/// What a ranking returns, in terms of the candidates' fields alone:
///
/// - results come nearest first: by separation key, ties by catalogue index,
///   whatever their membership flags;
/// - every result is a candidate of the list that the query keeps: in frame
///   for all-within-field and nearest-one, within the maximum radius for
///   nearest-N (in frame or not);
/// - a kept candidate that is left out is farther than every result (or tied
///   and later in the catalogue);
/// - nearest-one returns at most one result and nearest-N at most `n`, and a
///   kept candidate is left out only when that count is reached.
pub proof fn lemma_ranking_is_nearest_first(
    candidates: Seq<Candidate>,
    query: RankQuery,
    ranked: Seq<Candidate>,
)
    requires
        indices_distinct(candidates),
        is_ranking(candidates, query, ranked),
    ensures
        forall|a: int, b: int|
            #![trigger ranked[a], ranked[b]]
            0 <= a < b < ranked.len() ==> ranked[a].order < ranked[b].order || (ranked[a].order
                == ranked[b].order && ranked[a].index < ranked[b].index),
        forall|k: int|
            0 <= k < ranked.len() ==> candidates.contains(#[trigger] ranked[k]) && (if query is NearestN {
                ranked[k].within_radius
            } else {
                ranked[k].in_frame
            }),
        forall|c: Candidate, k: int|
            #![trigger candidates.contains(c), ranked[k]]
            candidates.contains(c) && (if query is NearestN {
                c.within_radius
            } else {
                c.in_frame
            }) && !ranked.contains(c) && 0 <= k < ranked.len() ==> ranked[k].order < c.order || (
            ranked[k].order == c.order && ranked[k].index < c.index),
        query is NearestOne ==> ranked.len() <= 1,
        query matches RankQuery::NearestN { n } ==> ranked.len() <= n,
        forall|c: Candidate|
            #[trigger] candidates.contains(c) && (if query is NearestN {
                c.within_radius
            } else {
                c.in_frame
            }) && !ranked.contains(c) ==> (query is NearestOne && ranked.len() == 1) || (
            query matches RankQuery::NearestN { n } && ranked.len() == n),
{
    let kept = kept_set(candidates, query);
    assert forall|k: int| 0 <= k < ranked.len() implies candidates.contains(#[trigger] ranked[k]) && (
    if query is NearestN {
        ranked[k].within_radius
    } else {
        ranked[k].in_frame
    }) by {
        assert(kept.contains(ranked[k]));
    }
    assert forall|c: Candidate, k: int|
        #![trigger candidates.contains(c), ranked[k]]
        candidates.contains(c) && (if query is NearestN {
            c.within_radius
        } else {
            c.in_frame
        }) && !ranked.contains(c) && 0 <= k < ranked.len() implies ranked[k].order < c.order || (
    ranked[k].order == c.order && ranked[k].index < c.index) by {
        assert(kept.contains(c));
        assert(ranks_before(ranked[k], c));
    }
    // Cardinality: the results are distinct members of the finite kept set.
    assert(kept.subset_of(candidates.to_set()));
    vstd::set_lib::lemma_len_subset(kept, candidates.to_set());
    assert(ranked.no_duplicates()) by {
        assert forall|a: int, b: int|
            0 <= a < ranked.len() && 0 <= b < ranked.len() && a != b implies ranked[a] != ranked[b] by {
            if a < b {
                assert(ranks_before(ranked[a], ranked[b]));
            } else {
                assert(ranks_before(ranked[b], ranked[a]));
            }
        }
    }
    ranked.unique_seq_to_set();
    let listed = ranked.to_set();
    assert(listed.subset_of(kept)) by {
        assert forall|c: Candidate| listed.contains(c) implies kept.contains(c) by {
            let k = choose|k: int| 0 <= k < ranked.len() && ranked[k] == c;
            assert(kept.contains(ranked[k]));
        }
    }
    vstd::set_lib::lemma_len_subset(listed, kept);
    assert forall|c: Candidate|
        #[trigger] candidates.contains(c) && (if query is NearestN {
            c.within_radius
        } else {
            c.in_frame
        }) && !ranked.contains(c) implies (query is NearestOne && ranked.len() == 1) || (
    query matches RankQuery::NearestN { n } && ranked.len() == n) by {
        assert(kept.contains(c));
        if listed.len() == kept.len() {
            vstd::set_lib::lemma_subset_equality(listed, kept);
            assert(listed.contains(c));
        }
    }
}

} // verus!
