//! Footprint identities, containment evidence and the ordering of panels in a
//! captured union.
//!
//! The planar geometry (projection, polygon areas, point position tests) is
//! floating-point work done by the caller; the values here carry and combine
//! its outcomes.

use vstd::prelude::*;

use crate::error::Error;
use crate::text::{
    blank, is_blank, lemma_lex_asymmetric, lemma_lex_irreflexive, lemma_lex_total,
    lemma_lex_transitive, lemma_trimmed_empty_iff_blank, lex_le, lex_lt, text_less, trimmed,
};

verus! {

/// Whether a solved image transform preserves or mirrors handedness.
///
/// Parity is reported separately from sky-axis rotation. It never changes the
/// footprint's polygon or rotation residual.
#[derive(Debug, Clone, Copy, PartialEq, Eq, Hash, Structural)]
pub enum ImageParity {
    /// The image transform preserves handedness.
    Direct,
    /// The image transform mirrors handedness.
    Mirrored,
}

/// Opaque caller-supplied identity for the evidence behind a footprint.
///
/// The value can be a stable image, panel, WCS-solution, or evidence digest.
/// It is compared and returned but never interpreted.
#[derive(Debug, PartialEq, Eq, Hash, PartialOrd, Ord)]
pub struct FootprintProvenance(String);

impl Clone for FootprintProvenance {
    fn clone(&self) -> (copy: Self)
        ensures
            copy@ == self@,
    {
        proof {
            use_type_invariant(self);
        }
        FootprintProvenance(self.0.clone())
    }
}

impl View for FootprintProvenance {
    type V = Seq<char>;

    closed spec fn view(&self) -> Seq<char> {
        self.0@
    }
}

/// The reason given when a provenance identity is blank.
pub open spec fn empty_provenance_reason() -> Seq<char> {
    "provenance must not be empty"@
}

/// Whether `error` reports an invalid footprint for `provenance` because of
/// `reason`.
pub open spec fn is_invalid_footprint(error: Error, provenance: Seq<char>, reason: Seq<char>) -> bool {
    match error {
        Error::InvalidFootprint { provenance: p, reason: r } => p@ == provenance && r@ == reason,
        _ => false,
    }
}

impl FootprintProvenance {
    /// A provenance identity is never empty or white space only.
    #[verifier::type_invariant]
    spec fn not_blank(self) -> bool {
        !is_blank(self.0@)
    }

    /// Construct a non-empty provenance identity.
    ///
    /// Fails with `Error::InvalidFootprint` (carrying `value` and the reason
    /// "provenance must not be empty") when `value` is empty or only white
    /// space.
    pub fn new(value: &str) -> (result: Result<FootprintProvenance, Error>)
        ensures
            result is Ok <==> trimmed(value@).len() != 0,
            result matches Ok(provenance) ==> provenance@ == value@,
            result matches Err(error) ==> is_invalid_footprint(
                error,
                value@,
                empty_provenance_reason(),
            ),
    {
        proof {
            lemma_trimmed_empty_iff_blank(value@);
        }
        if blank(value) {
            return Err(
                Error::InvalidFootprint {
                    provenance: String::from_str(value),
                    reason: String::from_str("provenance must not be empty"),
                },
            );
        }
        Ok(FootprintProvenance(String::from_str(value)))
    }

    /// Return the caller-supplied identity (never blank).
    pub fn as_str(&self) -> (text: &str)
        ensures
            text@ == self@,
            trimmed(text@).len() != 0,
    {
        proof {
            use_type_invariant(self);
            lemma_trimmed_empty_iff_blank(self.0@);
        }
        self.0.as_str()
    }
}

/// The typed error for an invalid footprint with the given provenance.
pub fn invalid_footprint(provenance: &FootprintProvenance, reason: &str) -> (error: Error)
    ensures
        is_invalid_footprint(error, provenance@, reason@),
{
    Error::InvalidFootprint {
        provenance: provenance.0.clone(),
        reason: String::from_str(reason),
    }
}

/// Position of a point relative to a footprint union or one of its members.
#[derive(Debug, Clone, Copy, PartialEq, Eq, Structural)]
pub enum Containment {
    /// The point is outside the captured area.
    Outside,
    /// The point lies on a captured boundary and counts as covered.
    Boundary,
    /// The point lies inside the captured area.
    Interior,
}

impl Containment {
    /// Inclusive-boundary coverage: everything but `Outside`.
    pub open spec fn spec_is_covered(self) -> bool {
        !(self is Outside)
    }

    /// Whether the point counts as covered under the inclusive-boundary rule.
    #[verifier::when_used_as_spec(spec_is_covered)]
    pub fn is_covered(self) -> (covered: bool)
        ensures
            covered == self.spec_is_covered(),
            covered <==> (self == Containment::Interior || self == Containment::Boundary),
    {
        match self {
            Containment::Outside => false,
            _ => true,
        }
    }
}

/// Point-containment evidence for one input panel.
#[derive(Debug, Clone, PartialEq, Eq)]
pub struct PanelContainmentEvidence {
    /// Caller-supplied panel or image evidence identity.
    pub provenance: FootprintProvenance,
    /// Position relative to this panel's footprint.
    pub containment: Containment,
}

/// The indices, in increasing order, of the positions that count as covered.
pub open spec fn covered_indices(positions: Seq<Containment>) -> Seq<usize>
    decreases positions.len(),
{
    if positions.len() == 0 {
        Seq::empty()
    } else {
        let earlier = covered_indices(positions.drop_last());
        if positions.last().spec_is_covered() {
            earlier.push((positions.len() - 1) as usize)
        } else {
            earlier
        }
    }
}

/// Point-containment result for the captured union.
#[derive(Debug, Clone, PartialEq, Eq)]
pub struct PointContainmentEvidence {
    /// Position relative to the complete captured union.
    pub containment: Containment,
    /// Stable indices of union components that contain or bound the point.
    pub component_indices: Vec<usize>,
    /// Per-panel evidence, sorted by provenance.
    pub panels: Vec<PanelContainmentEvidence>,
}

impl PointContainmentEvidence {
    /// Assemble the evidence from the point's position relative to the whole
    /// union, to each union component (in component order), and to each panel.
    /// A component is listed when the point is inside it or on its boundary.
    pub fn from_positions(
        containment: Containment,
        components: &Vec<Containment>,
        panels: Vec<PanelContainmentEvidence>,
    ) -> (evidence: PointContainmentEvidence)
        ensures
            evidence.containment == containment,
            evidence.component_indices@ == covered_indices(components@),
            evidence.panels@ == panels@,
            forall|k: usize|
                evidence.component_indices@.contains(k) <==> (k < components.len() && components@[k as int]
                    != Containment::Outside),
            forall|a: int, b: int|
                #![trigger evidence.component_indices@[a], evidence.component_indices@[b]]
                0 <= a < b < evidence.component_indices.len() ==> evidence.component_indices@[a]
                    < evidence.component_indices@[b],
    {
        proof {
            assert(components@.len() == components.len());
            lemma_covered_indices_lists_covering_positions(components@);
        }
        let mut component_indices: Vec<usize> = Vec::new();
        let mut i: usize = 0;
        while i < components.len()
            invariant
                i <= components.len(),
                component_indices@ == covered_indices(components@.subrange(0, i as int)),
            decreases components.len() - i,
        {
            let ghost next = components@.subrange(0, i + 1);
            assert(next.drop_last() =~= components@.subrange(0, i as int));
            if components[i].is_covered() {
                component_indices.push(i);
            }
            i = i + 1;
        }
        assert(components@.subrange(0, components.len() as int) =~= components@);
        PointContainmentEvidence { containment, component_indices, panels }
    }
}

/// Captured-union coverage state for an object.
#[derive(Debug, Clone, Copy, PartialEq, Eq, Structural)]
pub enum CoverageState {
    /// The object has zero captured area, or a point is outside the union.
    NotCovered,
    /// Some but not all object area is captured.
    Partial,
    /// All object area is captured, or a point is inside/on the boundary.
    Full,
}

impl CoverageState {
    /// Coverage of a point object: full when the union covers it (boundary
    /// included), none otherwise.
    pub fn for_point(containment: Containment) -> (state: CoverageState)
        ensures
            state == (if containment.spec_is_covered() {
                CoverageState::Full
            } else {
                CoverageState::NotCovered
            }),
            state == CoverageState::Full <==> containment != Containment::Outside,
            state == CoverageState::NotCovered <==> containment == Containment::Outside,
    {
        if containment.is_covered() {
            CoverageState::Full
        } else {
            CoverageState::NotCovered
        }
    }
}

/// The identity text of footprint `i`.
pub open spec fn identity(provenances: Seq<FootprintProvenance>, i: int) -> Seq<char> {
    provenances[i]@
}

/// No two footprints share a provenance identity.
pub open spec fn identities_distinct(provenances: Seq<FootprintProvenance>) -> bool {
    forall|i: int, j: int|
        0 <= i < provenances.len() && 0 <= j < provenances.len() && i != j ==> identity(
            provenances,
            i,
        ) != identity(provenances, j)
}

/// `order` lists every index of `0..n` exactly once.
pub open spec fn is_index_permutation(order: Seq<usize>, n: nat) -> bool {
    &&& order.len() == n
    &&& forall|k: int| 0 <= k < n ==> #[trigger] order[k] < n
    &&& forall|a: int, b: int| 0 <= a < b < n ==> order[a] != order[b]
    &&& forall|i: usize| i < n ==> order.contains(i)
}

/// `order` visits the footprints in strictly increasing provenance order.
pub open spec fn ascending_by_identity(provenances: Seq<FootprintProvenance>, order: Seq<usize>) -> bool {
    forall|a: int, b: int|
        0 <= a < b < order.len() ==> lex_lt(
            identity(provenances, order[a] as int),
            identity(provenances, order[b] as int),
        )
}

/// `text` is the smallest identity that two different footprints share.
pub open spec fn is_smallest_shared_identity(provenances: Seq<FootprintProvenance>, text: Seq<char>) -> bool {
    &&& exists|i: int, j: int|
        0 <= i < provenances.len() && 0 <= j < provenances.len() && i != j && identity(
            provenances,
            i,
        ) == text && identity(provenances, j) == text
    &&& forall|i: int, j: int|
        0 <= i < provenances.len() && 0 <= j < provenances.len() && i != j && identity(
            provenances,
            i,
        ) == identity(provenances, j) ==> lex_le(text, identity(provenances, i))
}

/// Order in which a captured union processes its panels: ascending by
/// provenance, so that input order never changes the union's evidence.
///
/// Fails with `Error::EmptyFootprintSet` for no footprints, and with
/// `Error::DuplicateFootprintProvenance` naming the smallest shared identity
/// when two footprints share one.
pub fn union_panel_order(provenances: &Vec<FootprintProvenance>) -> (result: Result<Vec<usize>, Error>)
    ensures
        (result matches Err(Error::EmptyFootprintSet)) <==> provenances.len() == 0,
        result is Ok <==> provenances.len() > 0 && identities_distinct(provenances@),
        provenances.len() > 0 && !identities_distinct(provenances@) ==> (result matches Err(
            Error::DuplicateFootprintProvenance(text),
        ) && is_smallest_shared_identity(provenances@, text@)),
        result matches Ok(order) ==> is_index_permutation(order@, provenances.len() as nat)
            && ascending_by_identity(provenances@, order@),
{
    let n = provenances.len();
    if n == 0 {
        return Err(Error::EmptyFootprintSet);
    }
    let ghost p = provenances@;
    let mut order: Vec<usize> = Vec::new();
    let mut j: usize = 0;
    while j < n
        invariant
            n == provenances.len(),
            p == provenances@,
            j <= n,
            order.len() == j,
            forall|k: int| 0 <= k < j ==> #[trigger] order@[k] < j,
            forall|a: int, b: int| 0 <= a < b < j ==> order@[a] != order@[b],
            forall|i: usize| i < j ==> order@.contains(i),
            forall|a: int, b: int|
                #![trigger order@[a], order@[b]]
                0 <= a < b < j ==> lex_le(
                    identity(p, order@[a] as int),
                    identity(p, order@[b] as int),
                ),
        decreases n - j,
    {
        let mut pos: usize = 0;
        while pos < order.len() && !text_less(provenances[j].as_str(), provenances[order[pos]].as_str())
            invariant
                n == provenances.len(),
                p == provenances@,
                j < n,
                order.len() == j,
                pos <= j,
                forall|k: int| 0 <= k < j ==> #[trigger] order@[k] < j,
                forall|a: int|
                    0 <= a < pos ==> lex_le(
                        identity(p, #[trigger] order@[a] as int),
                        identity(p, j as int),
                    ),
            decreases j - pos,
        {
            proof {
                let x = identity(p, order@[pos as int] as int);
                let y = identity(p, j as int);
                if x != y {
                    lemma_lex_total(x, y);
                }
            }
            pos = pos + 1;
        }
        let ghost before = order@;
        proof {
            if pos < j {
                let y = identity(p, j as int);
                assert(lex_lt(y, identity(p, before[pos as int] as int)));
                assert forall|b: int| pos <= b < j implies lex_lt(
                    y,
                    identity(p, #[trigger] before[b] as int),
                ) by {
                    if b > pos {
                        let z = identity(p, before[pos as int] as int);
                        let w = identity(p, before[b] as int);
                        assert(lex_le(z, w));
                        if z != w {
                            lemma_lex_transitive(y, z, w);
                        }
                    }
                }
            }
        }
        order.insert(pos, j);
        proof {
            assert forall|a: int, b: int| 0 <= a < b < j + 1 implies lex_le(
                identity(p, order@[a] as int),
                identity(p, order@[b] as int),
            ) by {
                let y = identity(p, j as int);
                if a < pos && b == pos {
                } else if a == pos && b > pos {
                    assert(order@[b] == before[b - 1]);
                } else if a < pos && b > pos {
                    assert(order@[b] == before[b - 1]);
                    assert(order@[a] == before[a]);
                    let x = identity(p, before[a] as int);
                    let w = identity(p, before[b - 1] as int);
                    assert(lex_le(x, y));
                    if x != y {
                        lemma_lex_transitive(x, y, w);
                    }
                } else if b < pos {
                    assert(order@[a] == before[a]);
                    assert(order@[b] == before[b]);
                } else {
                    assert(order@[a] == before[a - 1]);
                    assert(order@[b] == before[b - 1]);
                }
            }
            assert forall|i: usize| i < j + 1 implies order@.contains(i) by {
                if i == j {
                    assert(order@[pos as int] == j);
                } else {
                    assert(before.contains(i));
                    let k = choose|k: int| 0 <= k < before.len() && before[k] == i;
                    if k < pos {
                        assert(order@[k] == i);
                    } else {
                        assert(order@[k + 1] == i);
                    }
                }
            }
            assert forall|k: int| 0 <= k < j + 1 implies #[trigger] order@[k] < j + 1 by {
                if k < pos {
                    assert(order@[k] == before[k]);
                } else if k > pos {
                    assert(order@[k] == before[k - 1]);
                }
            }
            assert forall|a: int, b: int| 0 <= a < b < j + 1 implies order@[a] != order@[b] by {
                if a < pos {
                    assert(order@[a] == before[a]);
                } else if a > pos {
                    assert(order@[a] == before[a - 1]);
                }
                if b < pos {
                    assert(order@[b] == before[b]);
                } else if b > pos {
                    assert(order@[b] == before[b - 1]);
                }
            }
        }
        j = j + 1;
    }
    let mut k: usize = 0;
    while k + 1 < n
        invariant
            n == provenances.len(),
            p == provenances@,
            n > 0,
            k < n,
            is_index_permutation(order@, n as nat),
            forall|a: int, b: int|
                #![trigger order@[a], order@[b]]
                0 <= a < b < n ==> lex_le(
                    identity(p, order@[a] as int),
                    identity(p, order@[b] as int),
                ),
            forall|a: int|
                0 <= a < k ==> identity(p, #[trigger] order@[a] as int) != identity(
                    p,
                    order@[a + 1] as int,
                ),
        decreases n - k,
    {
        if provenances[order[k]].0 == provenances[order[k + 1]].0 {
            let shared = provenances[order[k]].0.clone();
            proof {
                lemma_smallest_shared(p, order@, k as int);
            }
            return Err(Error::DuplicateFootprintProvenance(shared));
        }
        k = k + 1;
    }
    proof {
        lemma_adjacent_strict_gives_distinct(p, order@);
    }
    Ok(order)
}

/// In a non-decreasing listing, the first adjacent pair with equal identities
/// names the smallest identity that two different footprints share.
proof fn lemma_smallest_shared(p: Seq<FootprintProvenance>, order: Seq<usize>, k: int)
    requires
        p.len() <= usize::MAX,
        is_index_permutation(order, p.len()),
        0 <= k,
        k + 1 < p.len(),
        forall|a: int, b: int|
            #![trigger order[a], order[b]]
            0 <= a < b < p.len() ==> lex_le(identity(p, order[a] as int), identity(p, order[b] as int)),
        forall|a: int|
            0 <= a < k ==> identity(p, #[trigger] order[a] as int) != identity(p, order[a + 1] as int),
        identity(p, order[k] as int) == identity(p, order[k + 1] as int),
    ensures
        is_smallest_shared_identity(p, identity(p, order[k] as int)),
{
    let text = identity(p, order[k] as int);
    assert(order[k] != order[k + 1]);
    assert(0 <= order[k] < p.len() && 0 <= order[k + 1] < p.len());
    assert forall|i: int, j: int|
        0 <= i < p.len() && 0 <= j < p.len() && i != j && identity(p, i) == identity(p, j) implies lex_le(
        text,
        identity(p, i),
    ) by {
        let w = identity(p, i);
        assert(order.contains(i as usize));
        assert(order.contains(j as usize));
        let pi = choose|x: int| 0 <= x < order.len() && order[x] == i as usize;
        let pj = choose|x: int| 0 <= x < order.len() && order[x] == j as usize;
        let (lo, hi) = if pi < pj {
            (pi, pj)
        } else {
            (pj, pi)
        };
        assert(identity(p, order[lo] as int) == w);
        assert(identity(p, order[hi] as int) == w);
        let next = identity(p, order[lo + 1] as int);
        if lo + 1 < hi {
            if next != w {
                assert(lex_lt(w, next));
                assert(lex_le(next, w));
                lemma_lex_asymmetric(w, next);
            }
        }
        assert(next == w);
        if lo < k {
            assert(false);
        }
        if lo > k {
            assert(lex_le(text, identity(p, order[lo] as int)));
        }
    }
}

/// A non-decreasing listing without equal neighbours lists every identity
/// once: all identities are distinct.
proof fn lemma_adjacent_strict_gives_distinct(p: Seq<FootprintProvenance>, order: Seq<usize>)
    requires
        p.len() <= usize::MAX,
        p.len() > 0,
        is_index_permutation(order, p.len()),
        forall|a: int, b: int|
            #![trigger order[a], order[b]]
            0 <= a < b < p.len() ==> lex_le(identity(p, order[a] as int), identity(p, order[b] as int)),
        forall|a: int|
            0 <= a < p.len() - 1 ==> identity(p, #[trigger] order[a] as int) != identity(
                p,
                order[a + 1] as int,
            ),
    ensures
        identities_distinct(p),
        ascending_by_identity(p, order),
{
    assert forall|a: int, b: int| 0 <= a < b < order.len() implies lex_lt(
        identity(p, order[a] as int),
        identity(p, order[b] as int),
    ) by {
        let x = identity(p, order[a] as int);
        let y = identity(p, order[a + 1] as int);
        let z = identity(p, order[b] as int);
        assert(x != y);
        assert(lex_lt(x, y));
        if a + 1 < b {
            assert(lex_le(y, z));
            if y != z {
                lemma_lex_transitive(x, y, z);
            }
        }
    }
    assert forall|i: int, j: int|
        0 <= i < p.len() && 0 <= j < p.len() && i != j implies identity(p, i) != identity(p, j) by {
        assert(order.contains(i as usize));
        assert(order.contains(j as usize));
        let pi = choose|x: int| 0 <= x < order.len() && order[x] == i as usize;
        let pj = choose|x: int| 0 <= x < order.len() && order[x] == j as usize;
        if pi < pj {
            lemma_lex_irreflexive(identity(p, i));
        } else {
            lemma_lex_irreflexive(identity(p, j));
        }
    }
}

/// The identities of the footprints, in the order `order` visits them.
pub open spec fn listed_identities(provenances: Seq<FootprintProvenance>, order: Seq<usize>) -> Seq<Seq<char>> {
    order.map_values(|i: usize| provenances[i as int]@)
}

/// `text` is the identity of some footprint.
pub open spec fn has_identity(provenances: Seq<FootprintProvenance>, text: Seq<char>) -> bool {
    exists|i: int| 0 <= i < provenances.len() && identity(provenances, i) == text
}

/// Input order never changes a union's panel order: two footprint lists with
/// the same identities (one a reordering of the other) are processed in the
/// same identity order.
pub proof fn lemma_panel_order_ignores_input_order(
    p: Seq<FootprintProvenance>,
    q: Seq<FootprintProvenance>,
    order_p: Seq<usize>,
    order_q: Seq<usize>,
)
    requires
        p.len() <= usize::MAX,
        q.len() <= usize::MAX,
        forall|t: Seq<char>| has_identity(p, t) <==> has_identity(q, t),
        is_index_permutation(order_p, p.len()),
        ascending_by_identity(p, order_p),
        is_index_permutation(order_q, q.len()),
        ascending_by_identity(q, order_q),
    ensures
        listed_identities(p, order_p) == listed_identities(q, order_q),
{
    let lp = listed_identities(p, order_p);
    let lq = listed_identities(q, order_q);
    assert forall|t: Seq<char>| lp.contains(t) <==> lq.contains(t) by {
        if lp.contains(t) {
            let k = choose|k: int| 0 <= k < lp.len() && lp[k] == t;
            assert(identity(p, order_p[k] as int) == t);
            assert(has_identity(p, t));
            assert(has_identity(q, t));
            let i = choose|i: int| 0 <= i < q.len() && identity(q, i) == t;
            assert(order_q.contains(i as usize));
            let m = choose|m: int| 0 <= m < order_q.len() && order_q[m] == i as usize;
            assert(lq[m] == t);
        }
        if lq.contains(t) {
            let k = choose|k: int| 0 <= k < lq.len() && lq[k] == t;
            assert(identity(q, order_q[k] as int) == t);
            assert(has_identity(q, t));
            assert(has_identity(p, t));
            let i = choose|i: int| 0 <= i < p.len() && identity(p, i) == t;
            assert(order_p.contains(i as usize));
            let m = choose|m: int| 0 <= m < order_p.len() && order_p[m] == i as usize;
            assert(lp[m] == t);
        }
    }
    assert forall|a: int, b: int| #![trigger lp[a], lp[b]] 0 <= a < b < lp.len() implies lex_lt(lp[a], lp[b]) by {
        assert(lex_lt(identity(p, order_p[a] as int), identity(p, order_p[b] as int)));
    }
    assert forall|a: int, b: int| #![trigger lq[a], lq[b]] 0 <= a < b < lq.len() implies lex_lt(lq[a], lq[b]) by {
        assert(lex_lt(identity(q, order_q[a] as int), identity(q, order_q[b] as int)));
    }
    lemma_ascending_texts_equal(lp, lq);
}

/// Strictly ascending lists of texts.
pub open spec fn texts_ascending(s: Seq<Seq<char>>) -> bool {
    forall|a: int, b: int| #![trigger s[a], s[b]] 0 <= a < b < s.len() ==> lex_lt(s[a], s[b])
}

/// Two strictly ascending lists holding the same texts are equal.
proof fn lemma_ascending_texts_equal(a: Seq<Seq<char>>, b: Seq<Seq<char>>)
    requires
        texts_ascending(a),
        texts_ascending(b),
        forall|t: Seq<char>| a.contains(t) <==> b.contains(t),
    ensures
        a == b,
{
    lemma_ascending_no_duplicates(a);
    lemma_ascending_no_duplicates(b);
    a.unique_seq_to_set();
    b.unique_seq_to_set();
    assert(a.to_set() =~= b.to_set());
    assert forall|j: int| 0 <= j < a.len() implies a[j] == b[j] by {
        lemma_ascending_texts_agree_up_to(a, b, j);
    }
    assert(a =~= b);
}

/// A strictly ascending list has no repeated text.
proof fn lemma_ascending_no_duplicates(a: Seq<Seq<char>>)
    requires
        texts_ascending(a),
    ensures
        a.no_duplicates(),
{
    assert forall|i: int, j: int| 0 <= i < a.len() && 0 <= j < a.len() && i != j implies a[i] != a[j] by {
        if i < j {
            lemma_lex_irreflexive(a[i]);
        } else {
            lemma_lex_irreflexive(a[j]);
        }
    }
}

/// Two ascending lists of the same texts agree up to position `j`.
proof fn lemma_ascending_texts_agree_up_to(a: Seq<Seq<char>>, b: Seq<Seq<char>>, j: int)
    requires
        texts_ascending(a),
        texts_ascending(b),
        forall|t: Seq<char>| a.contains(t) <==> b.contains(t),
        a.len() == b.len(),
        0 <= j < a.len(),
    ensures
        forall|i: int| 0 <= i <= j ==> a[i] == b[i],
    decreases j,
{
    if j > 0 {
        lemma_ascending_texts_agree_up_to(a, b, j - 1);
    }
    let x = a[j];
    let y = b[j];
    if x != y {
        assert(a.contains(x));
        assert(b.contains(y));
        let mx = choose|m: int| 0 <= m < b.len() && b[m] == x;
        let my = choose|m: int| 0 <= m < a.len() && a[m] == y;
        lemma_lex_total(x, y);
        if lex_lt(x, y) {
            if mx < j {
                assert(a[mx] == x);
                lemma_lex_irreflexive(x);
            } else {
                assert(mx > j);
                assert(lex_lt(y, x));
                lemma_lex_asymmetric(x, y);
            }
        } else {
            if my < j {
                assert(b[my] == y);
                lemma_lex_irreflexive(y);
            } else {
                assert(my > j);
                assert(lex_lt(x, y));
                lemma_lex_asymmetric(y, x);
            }
        }
    }
}

/// The covering indices of a list of positions are exactly the positions
/// that are not `Outside` (the first one included), listed once each in
/// increasing order.
pub proof fn lemma_covered_indices_lists_covering_positions(positions: Seq<Containment>)
    requires
        positions.len() <= usize::MAX,
    ensures
        forall|k: usize|
            covered_indices(positions).contains(k) <==> (k < positions.len() && positions[k as int]
                != Containment::Outside),
        forall|a: int, b: int|
            #![trigger covered_indices(positions)[a], covered_indices(positions)[b]]
            0 <= a < b < covered_indices(positions).len() ==> covered_indices(positions)[a]
                < covered_indices(positions)[b],
        forall|a: int|
            0 <= a < covered_indices(positions).len() ==> #[trigger] covered_indices(positions)[a]
                < positions.len(),
    decreases positions.len(),
{
    if positions.len() > 0 {
        let rest = positions.drop_last();
        lemma_covered_indices_lists_covering_positions(rest);
        let earlier = covered_indices(rest);
        let now = covered_indices(positions);
        let last = (positions.len() - 1) as usize;
        assert forall|k: usize|
            now.contains(k) <==> (k < positions.len() && positions[k as int] != Containment::Outside) by {
            if k < rest.len() {
                assert(rest[k as int] == positions[k as int]);
            }
            if now.contains(k) {
                let m = choose|m: int| 0 <= m < now.len() && now[m] == k;
                if m < earlier.len() {
                    assert(earlier[m] == k);
                    assert(earlier.contains(k));
                }
            }
            if k < rest.len() && positions[k as int] != Containment::Outside {
                assert(earlier.contains(k));
                let m = choose|m: int| 0 <= m < earlier.len() && earlier[m] == k;
                assert(now[m] == k);
            }
            if k == last && positions[k as int] != Containment::Outside {
                assert(positions.last().spec_is_covered());
                assert(now == earlier.push(last));
                assert(now[now.len() - 1] == k);
            }
        }
        assert forall|a: int, b: int|
            #![trigger now[a], now[b]]
            0 <= a < b < now.len() implies now[a] < now[b] by {
            if b < earlier.len() {
                assert(now[a] == earlier[a] && now[b] == earlier[b]);
            } else {
                assert(now == earlier.push(last));
                assert(now[a] == earlier[a]);
                assert(earlier[a] < rest.len());
            }
        }
        assert forall|a: int| 0 <= a < now.len() implies #[trigger] now[a] < positions.len() by {
            if a < earlier.len() {
                assert(now[a] == earlier[a]);
            }
        }
    }
}

} // verus!
