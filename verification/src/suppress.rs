//! Greedy non-maximum suppression.
//!
//! Proposals are visited from the highest score down.  One is kept unless
//! it overlaps too much with a proposal that was kept before it.  Classes
//! play no part: only the rectangles and the scores decide.

use vstd::prelude::*;
use crate::geometry::Rect;
use crate::score::Score;

verus! {

/// Bit pattern of the single 0.25: a proposal with a lower score is never
/// kept.
pub const NMS_SCORE_THRESHOLD_BITS: u32 = 0x3e80_0000;

/// A scored rectangle with the class that the decoder chose for it.
#[derive(Debug, Clone, Copy, PartialEq, Eq, Structural)]
pub struct Proposal {
    pub class_id: usize,
    pub score: Score,
    pub rect: Rect,
}

/// The least score that takes part in suppression.
pub open spec fn score_floor() -> Score {
    Score { bits: NMS_SCORE_THRESHOLD_BITS }
}

/// Whether `i` is the index of a proposal whose score is a number of at
/// least 0.25.
pub open spec fn eligible(proposals: Seq<Proposal>, i: int) -> bool {
    0 <= i < proposals.len() && proposals[i].score.reaches(score_floor())
}

/// Whether proposal `i` is visited before proposal `j`: it has the higher
/// score, or the same score and the lower index.
pub open spec fn precedes(proposals: Seq<Proposal>, i: int, j: int) -> bool {
    let a = proposals[i].score.rank();
    let b = proposals[j].score.rank();
    a > b || (a == b && i < j)
}

/// Whether `i` occurs in `indices`.
pub open spec fn holds(indices: Seq<usize>, i: int) -> bool {
    exists|k: int| 0 <= k < indices.len() && #[trigger] indices[k] == i
}

/// Whether `order` lists the eligible indices, each once, in the order of
/// the visit.
pub open spec fn is_ranking(proposals: Seq<Proposal>, order: Seq<usize>) -> bool {
    &&& forall|k: int| 0 <= k < order.len() ==> eligible(proposals, #[trigger] order[k] as int)
    &&& forall|a: int, b: int|
        0 <= a < b < order.len() ==> precedes(
            proposals,
            #[trigger] order[a] as int,
            #[trigger] order[b] as int,
        )
    &&& forall|i: int| #[trigger] eligible(proposals, i) ==> holds(order, i)
}

/// Whether proposal `i` overlaps too much with a proposal of `kept` that is
/// visited before it.
pub open spec fn suppressed_by(proposals: Seq<Proposal>, kept: Seq<usize>, i: int) -> bool {
    exists|k: int|
        0 <= k < kept.len() && precedes(proposals, #[trigger] kept[k] as int, i)
            && proposals[kept[k] as int].rect.overlaps(proposals[i].rect)
}

/// Whether `kept` is the outcome of greedy suppression on `proposals`:
/// it holds eligible indices only, in the order of the visit, and an
/// eligible index is in it exactly when no earlier member suppresses it.
pub open spec fn is_suppression(proposals: Seq<Proposal>, kept: Seq<usize>) -> bool {
    &&& forall|k: int| 0 <= k < kept.len() ==> eligible(proposals, #[trigger] kept[k] as int)
    &&& forall|a: int, b: int|
        0 <= a < b < kept.len() ==> precedes(
            proposals,
            #[trigger] kept[a] as int,
            #[trigger] kept[b] as int,
        )
    &&& forall|i: int| #[trigger]
        eligible(proposals, i) ==> (holds(kept, i) <==> !suppressed_by(proposals, kept, i))
}

/// The visit order is a strict total order of the indices: no index comes
/// before itself, of two different indices exactly one comes first, and
/// the order is transitive.
pub proof fn lemma_precedes_is_strict_total_order(proposals: Seq<Proposal>, i: int, j: int, k: int)
    ensures
        !precedes(proposals, i, i),
        i != j ==> (precedes(proposals, i, j) <==> !precedes(proposals, j, i)),
        precedes(proposals, i, j) && precedes(proposals, j, k) ==> precedes(proposals, i, k),
{
}

/// Where two suppressions agree on their first `m` members and the first
/// has a member `m`, the second has one too, and the first's is not visited
/// before the second's.
proof fn lemma_next_member(
    proposals: Seq<Proposal>,
    first: Seq<usize>,
    second: Seq<usize>,
    m: int,
)
    requires
        is_suppression(proposals, first),
        is_suppression(proposals, second),
        0 <= m < first.len(),
        m <= second.len(),
        forall|k: int| 0 <= k < m ==> first[k] == second[k],
    ensures
        m < second.len(),
        !precedes(proposals, first[m] as int, second[m] as int),
{
    let x = first[m] as int;
    if m >= second.len() || precedes(proposals, x, second[m] as int) {
        assert(eligible(proposals, first[m] as int));
        assert(holds(first, x));
        assert(!suppressed_by(proposals, first, x));
        if suppressed_by(proposals, second, x) {
            let k = choose|k: int|
                0 <= k < second.len() && precedes(proposals, #[trigger] second[k] as int, x)
                    && proposals[second[k] as int].rect.overlaps(proposals[x].rect);
            if k < m {
                assert(first[k] == second[k]);
                assert(suppressed_by(proposals, first, x));
            } else if k > m {
                assert(precedes(proposals, second[m] as int, second[k] as int));
            }
            assert(false);
        } else {
            assert(holds(second, x));
            let j = choose|j: int| 0 <= j < second.len() && #[trigger] second[j] == x;
            if j < m {
                assert(first[j] == second[j]);
                assert(precedes(proposals, first[j] as int, first[m] as int));
            } else if j > m {
                assert(precedes(proposals, second[m] as int, second[j] as int));
            }
            assert(false);
        }
    }
}

/// Two suppressions of the same proposals agree on their first `n` members.
proof fn lemma_common_prefix(
    proposals: Seq<Proposal>,
    first: Seq<usize>,
    second: Seq<usize>,
    n: nat,
)
    requires
        is_suppression(proposals, first),
        is_suppression(proposals, second),
        n <= first.len(),
        n <= second.len(),
    ensures
        forall|k: int| 0 <= k < n ==> first[k] == second[k],
    decreases n,
{
    if n > 0 {
        let m = n - 1;
        lemma_common_prefix(proposals, first, second, m as nat);
        lemma_next_member(proposals, first, second, m);
        lemma_next_member(proposals, second, first, m);
    }
}

/// Greedy suppression has one outcome: `is_suppression` holds of at most
/// one list of indices.
pub proof fn lemma_suppression_unique(
    proposals: Seq<Proposal>,
    first: Seq<usize>,
    second: Seq<usize>,
)
    requires
        is_suppression(proposals, first),
        is_suppression(proposals, second),
    ensures
        first == second,
{
    if first.len() <= second.len() {
        lemma_common_prefix(proposals, first, second, first.len());
        if first.len() < second.len() {
            lemma_next_member(proposals, second, first, first.len() as int);
        }
    } else {
        lemma_common_prefix(proposals, first, second, second.len());
        lemma_next_member(proposals, first, second, second.len() as int);
    }
    assert(first =~= second);
}

/// No two kept proposals overlap too much.
pub proof fn lemma_kept_are_apart(proposals: Seq<Proposal>, kept: Seq<usize>, a: int, b: int)
    requires
        is_suppression(proposals, kept),
        0 <= a < b < kept.len(),
    ensures
        !proposals[kept[a] as int].rect.overlaps(proposals[kept[b] as int].rect),
        !proposals[kept[b] as int].rect.overlaps(proposals[kept[a] as int].rect),
{
    let x = kept[b] as int;
    assert(eligible(proposals, kept[b] as int));
    assert(holds(kept, x));
    assert(!suppressed_by(proposals, kept, x));
    assert(precedes(proposals, kept[a] as int, kept[b] as int));
    proposals[kept[a] as int].rect.lemma_overlap_symmetric(proposals[x].rect);
}

/// The eligible proposal that is visited before all others is always kept,
/// and it is the first one kept.
pub proof fn lemma_best_is_kept(proposals: Seq<Proposal>, kept: Seq<usize>, best: int)
    requires
        is_suppression(proposals, kept),
        eligible(proposals, best),
        forall|i: int| #[trigger] eligible(proposals, i) && i != best ==> precedes(proposals, best, i),
    ensures
        kept.len() > 0,
        kept[0] == best,
{
    if suppressed_by(proposals, kept, best) {
        let k = choose|k: int|
            0 <= k < kept.len() && precedes(proposals, #[trigger] kept[k] as int, best)
                && proposals[kept[k] as int].rect.overlaps(proposals[best].rect);
        assert(eligible(proposals, kept[k] as int));
    }
    assert(holds(kept, best));
    let j = choose|j: int| 0 <= j < kept.len() && #[trigger] kept[j] == best;
    if j > 0 {
        assert(eligible(proposals, kept[0] as int));
        assert(precedes(proposals, kept[0] as int, kept[j] as int));
    }
}

/// Computes `precedes`.
fn visited_before(proposals: &Vec<Proposal>, i: usize, j: usize) -> (before: bool)
    requires
        i < proposals.len(),
        j < proposals.len(),
    ensures
        before == precedes(proposals@, i as int, j as int),
{
    let a: i64 = proposals[i].score.rank_key();
    let b: i64 = proposals[j].score.rank_key();
    a > b || (a == b && i < j)
}

/// The indices of the proposals whose score is at least 0.25, from the
/// highest score down; proposals of equal score stay in their given order.
pub fn ranking(proposals: &Vec<Proposal>) -> (order: Vec<usize>)
    ensures
        is_ranking(proposals@, order@),
{
    let floor = Score::from_bits(NMS_SCORE_THRESHOLD_BITS);
    let mut order: Vec<usize> = Vec::new();
    let mut i: usize = 0;
    while i < proposals.len()
        invariant
            i <= proposals.len(),
            floor == score_floor(),
            forall|k: int|
                0 <= k < order.len() ==> eligible(proposals@, #[trigger] order[k] as int)
                    && order[k] < i,
            forall|a: int, b: int|
                0 <= a < b < order.len() ==> precedes(
                    proposals@,
                    #[trigger] order[a] as int,
                    #[trigger] order[b] as int,
                ),
            forall|j: int| 0 <= j < i && #[trigger] eligible(proposals@, j) ==> holds(order@, j),
        decreases proposals.len() - i,
    {
        if proposals[i].score.at_least(floor) {
            let mut pos: usize = 0;
            while pos < order.len() && !visited_before(proposals, i, order[pos])
                invariant
                    pos <= order.len(),
                    i < proposals.len(),
                    forall|k: int| 0 <= k < order.len() ==> #[trigger] order[k] < i,
                    forall|k: int|
                        0 <= k < pos ==> precedes(
                            proposals@,
                            #[trigger] order[k] as int,
                            i as int,
                        ),
                decreases order.len() - pos,
            {
                pos += 1;
            }
            let ghost before = order@;
            order.insert(pos, i);
            proof {
                before.insert_ensures(pos as int, i);
                assert forall|k: int| 0 <= k < order.len() implies (#[trigger] order[k] == i
                    && k == pos) || (k < pos && order[k] == before[k]) || (k > pos && order[k]
                    == before[k - 1]) by {}
                assert forall|j: int| 0 <= j < i + 1 && #[trigger] eligible(
                    proposals@,
                    j,
                ) implies holds(order@, j) by {
                    if j == i {
                        assert(order[pos as int] == j);
                    } else {
                        let k = choose|k: int| 0 <= k < before.len() && #[trigger] before[k] == j;
                        if k < pos {
                            assert(order[k] == j);
                        } else {
                            assert(order[k + 1] == j);
                        }
                    }
                }
                assert forall|a: int, b: int| 0 <= a < b < order.len() implies precedes(
                    proposals@,
                    #[trigger] order[a] as int,
                    #[trigger] order[b] as int,
                ) by {
                    if b == pos {
                        assert(order[a] == before[a]);
                    } else if a == pos {
                        assert(order[b] == before[b - 1]);
                        assert(before[pos as int] == before[pos as int]);
                        if b - 1 > pos {
                            assert(precedes(
                                proposals@,
                                before[pos as int] as int,
                                before[b - 1] as int,
                            ));
                        }
                    } else {
                        let a0 = if a < pos { a } else { a - 1 };
                        let b0 = if b < pos { b } else { b - 1 };
                        assert(order[a] == before[a0]);
                        assert(order[b] == before[b0]);
                    }
                }
            }
        }
        i += 1;
    }
    order
}

/// Whether proposal `i` overlaps too much with a member of `kept`.
fn overlaps_kept(proposals: &Vec<Proposal>, kept: &Vec<usize>, i: usize) -> (hit: bool)
    requires
        i < proposals.len(),
        forall|k: int| 0 <= k < kept.len() ==> #[trigger] kept[k] < proposals.len(),
    ensures
        hit == exists|k: int|
            0 <= k < kept.len() && proposals[#[trigger] kept[k] as int].rect.overlaps(
                proposals[i as int].rect,
            ),
{
    let mut k: usize = 0;
    while k < kept.len()
        invariant
            k <= kept.len(),
            i < proposals.len(),
            forall|j: int| 0 <= j < kept.len() ==> #[trigger] kept[j] < proposals.len(),
            forall|j: int|
                0 <= j < k ==> !proposals[#[trigger] kept[j] as int].rect.overlaps(
                    proposals[i as int].rect,
                ),
        decreases kept.len() - k,
    {
        if proposals[kept[k]].rect.overlaps_with(&proposals[i].rect) {
            return true;
        }
        k += 1;
    }
    false
}

/// Greedy non-maximum suppression: the indices of the proposals to keep,
/// from the highest score down.
///
/// Only proposals with a score of at least 0.25 are considered.  They are
/// visited from the highest score down, equal scores in their given order,
/// and one is kept unless its intersection over union with a proposal kept
/// before it exceeds 45/100.
pub fn suppress(proposals: &Vec<Proposal>) -> (kept: Vec<usize>)
    ensures
        is_suppression(proposals@, kept@),
{
    let order = ranking(proposals);
    let mut kept: Vec<usize> = Vec::new();
    let mut p: usize = 0;
    while p < order.len()
        invariant
            p <= order.len(),
            is_ranking(proposals@, order@),
            forall|k: int| 0 <= k < kept.len() ==> eligible(proposals@, #[trigger] kept[k] as int),
            forall|k: int|
                0 <= k < kept.len() ==> exists|q: int|
                    0 <= q < p && #[trigger] order[q] == #[trigger] kept[k],
            forall|a: int, b: int|
                0 <= a < b < kept.len() ==> precedes(
                    proposals@,
                    #[trigger] kept[a] as int,
                    #[trigger] kept[b] as int,
                ),
            forall|q: int|
                0 <= q < p ==> (holds(kept@, #[trigger] order[q] as int) <==> !suppressed_by(
                    proposals@,
                    kept@,
                    order[q] as int,
                )),
        decreases order.len() - p,
    {
        let i = order[p];
        let ghost before = kept@;
        assert(eligible(proposals@, order[p as int] as int));
        assert forall|k: int| 0 <= k < before.len() implies precedes(
            proposals@,
            #[trigger] before[k] as int,
            i as int,
        ) by {
            let q = choose|q: int| 0 <= q < p && #[trigger] order[q] == before[k];
            assert(precedes(proposals@, order[q] as int, order[p as int] as int));
        }
        let hit = overlaps_kept(proposals, &kept, i);
        if !hit {
            kept.push(i);
            proof {
                assert(kept@[before.len() as int] == i);
                assert forall|k: int| 0 <= k < kept.len() implies exists|q: int|
                    0 <= q < p + 1 && #[trigger] order[q] == #[trigger] kept[k] by {
                    if k < before.len() {
                        let q = choose|q: int| 0 <= q < p && #[trigger] order[q] == before[k];
                        assert(order[q] == kept[k]);
                    } else {
                        assert(order[p as int] == kept[k]);
                    }
                }
                assert forall|q: int| 0 <= q < p + 1 implies (holds(
                    kept@,
                    #[trigger] order[q] as int,
                ) <==> !suppressed_by(proposals@, kept@, order[q] as int)) by {
                    let x = order[q] as int;
                    if q < p {
                        assert(precedes(proposals@, order[q] as int, order[p as int] as int));
                        if holds(before, x) {
                            let k = choose|k: int| 0 <= k < before.len() && #[trigger] before[k] == x;
                            assert(kept@[k] == x);
                        }
                        if holds(kept@, x) {
                            let k = choose|k: int| 0 <= k < kept.len() && #[trigger] kept@[k] == x;
                            assert(before[k] == x);
                        }
                        if suppressed_by(proposals@, before, x) {
                            let k = choose|k: int|
                                0 <= k < before.len() && precedes(
                                    proposals@,
                                    #[trigger] before[k] as int,
                                    x,
                                ) && proposals@[before[k] as int].rect.overlaps(proposals@[x].rect);
                            assert(kept@[k] == before[k]);
                        }
                        if suppressed_by(proposals@, kept@, x) {
                            let k = choose|k: int|
                                0 <= k < kept.len() && precedes(
                                    proposals@,
                                    #[trigger] kept@[k] as int,
                                    x,
                                ) && proposals@[kept@[k] as int].rect.overlaps(proposals@[x].rect);
                            assert(before[k] == kept@[k]);
                        }
                    } else {
                        assert(kept@[before.len() as int] == x);
                        if suppressed_by(proposals@, kept@, x) {
                            let k = choose|k: int|
                                0 <= k < kept.len() && precedes(
                                    proposals@,
                                    #[trigger] kept@[k] as int,
                                    x,
                                ) && proposals@[kept@[k] as int].rect.overlaps(proposals@[x].rect);
                            if k < before.len() {
                                assert(before[k] == kept@[k]);
                            }
                        }
                    }
                }
            }
        } else {
            proof {
                let x = i as int;
                let k = choose|k: int|
                    0 <= k < kept.len() && proposals@[#[trigger] kept[k] as int].rect.overlaps(
                        proposals@[x].rect,
                    );
                assert(precedes(proposals@, before[k] as int, x));
                assert(suppressed_by(proposals@, kept@, x));
                if holds(kept@, x) {
                    let j = choose|j: int| 0 <= j < kept.len() && #[trigger] kept@[j] == x;
                    assert(precedes(proposals@, before[j] as int, x));
                }
            }
        }
        p += 1;
    }
    proof {
        assert forall|i: int| #[trigger] eligible(proposals@, i) implies (holds(kept@, i)
            <==> !suppressed_by(proposals@, kept@, i)) by {
            assert(holds(order@, i));
            let q = choose|q: int| 0 <= q < order.len() && #[trigger] order[q] == i;
            assert(order[q] as int == i);
        }
    }
    kept
}

} // verus!
