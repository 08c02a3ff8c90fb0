//! Decoding of the raw network output into candidates.
//!
//! The network answers with a tensor of shape `(1, 4 + C, N)`: for each of
//! `N` anchors a column of four box numbers and `C` class scores.  Every
//! number arrives as the bit pattern of its IEEE-754 single, the tensor in
//! row-major order, so that number `field` of anchor `row` is element
//! `field * N + row` of the buffer.

use vstd::prelude::*;
use crate::error::DetectError;
use crate::score::Score;

verus! {

/// Bit pattern of the single 0.2: an anchor whose best class score is lower
/// gives no candidate.
pub const CONFIDENCE_THRESHOLD_BITS: u32 = 0x3e4c_cccd;

/// Number of box numbers at the head of each anchor's column.
pub const BOX_FIELDS: usize = 4;

/// The raw output of the network.
#[derive(Debug, Clone, PartialEq, Eq)]
pub struct RawOutput {
    /// Extent of each axis.
    pub shape: Vec<usize>,
    /// The elements in row-major order, as bit patterns.
    pub data: Vec<u32>,
}

/// An anchor that the decoder retained: its best class, that class's score
/// and the four box numbers as the network gave them, as bit patterns.
#[derive(Debug, Clone, Copy, PartialEq, Eq, Structural)]
pub struct Candidate {
    pub class_id: usize,
    pub score: Score,
    pub center_x: u32,
    pub center_y: u32,
    pub width: u32,
    pub height: u32,
}

/// The least score that makes an anchor a candidate.
pub open spec fn confidence_floor() -> Score {
    Score { bits: CONFIDENCE_THRESHOLD_BITS }
}

/// Index of the greatest of the first `n` scores; of several greatest
/// scores the first.
pub open spec fn first_max(scores: Seq<Score>, n: nat) -> int
    decreases n,
{
    if n <= 1 {
        0
    } else {
        let best = first_max(scores, (n - 1) as nat);
        if scores[n - 1].rank() > scores[best].rank() {
            n - 1
        } else {
            best
        }
    }
}

/// `first_max` is an index among the first `n`, no score among them is
/// greater than the one it points to, and every score before it is less.
pub proof fn lemma_first_max(scores: Seq<Score>, n: nat)
    requires
        0 < n <= scores.len(),
    ensures
        0 <= first_max(scores, n) < n,
        forall|c: int|
            0 <= c < n ==> (#[trigger] scores[c]).rank() <= scores[first_max(scores, n)].rank(),
        forall|c: int|
            0 <= c < first_max(scores, n) ==> (#[trigger] scores[c]).rank() < scores[first_max(
                scores,
                n,
            )].rank(),
    decreases n,
{
    if n > 1 {
        lemma_first_max(scores, (n - 1) as nat);
    }
}

impl RawOutput {
    /// Whether the shape is `(1, 4 + C, N)` with at least one class and the
    /// buffer holds exactly one element for each position.
    pub open spec fn well_shaped(self) -> bool {
        &&& self.shape.len() == 3
        &&& self.shape[0] == 1
        &&& self.shape[1] > BOX_FIELDS
        &&& self.data.len() == self.shape[1] * self.shape[2]
    }

    /// Number of anchors.
    pub open spec fn rows(self) -> int {
        self.shape[2] as int
    }

    /// Number of classes.
    pub open spec fn classes(self) -> int {
        self.shape[1] - BOX_FIELDS
    }

    /// Number `field` of anchor `row`.
    pub open spec fn entry(self, field: int, row: int) -> u32 {
        self.data[field * self.rows() + row]
    }

    /// The class scores of anchor `row`, by class index.
    pub open spec fn class_scores(self, row: int) -> Seq<Score> {
        Seq::new(self.classes() as nat, |c: int| Score { bits: self.entry(BOX_FIELDS + c, row) })
    }

    /// Whether some class score of anchor `row` is not a number.
    pub open spec fn row_has_nan(self, row: int) -> bool {
        exists|c: int| 0 <= c < self.classes() && (#[trigger] self.class_scores(row)[c]).is_nan()
    }

    /// Whether some class score of some anchor is not a number.
    pub open spec fn has_nan(self) -> bool {
        exists|row: int| 0 <= row < self.rows() && #[trigger] self.row_has_nan(row)
    }

    /// What anchor `row` gives when it is retained.
    pub open spec fn candidate_at(self, row: int) -> Candidate {
        let scores = self.class_scores(row);
        let best = first_max(scores, scores.len());
        Candidate {
            class_id: best as usize,
            score: scores[best],
            center_x: self.entry(0, row),
            center_y: self.entry(1, row),
            width: self.entry(2, row),
            height: self.entry(3, row),
        }
    }

    /// Whether the best class score of anchor `row` is at least 0.2.
    pub open spec fn is_confident(self, row: int) -> bool {
        self.candidate_at(row).score.reaches(confidence_floor())
    }

    /// The candidates of the first `n` anchors, in the order of the anchors.
    pub open spec fn decoded(self, n: nat) -> Seq<Candidate>
        decreases n,
    {
        if n == 0 {
            Seq::empty()
        } else {
            let earlier = self.decoded((n - 1) as nat);
            if self.is_confident(n - 1) {
                earlier.push(self.candidate_at(n - 1))
            } else {
                earlier
            }
        }
    }

    /// Every decoded candidate stems from a confident anchor among the
    /// first `n`, there are at most `n` of them, and where no such anchor is
    /// confident there is none.
    pub proof fn lemma_decoded(self, n: nat)
        ensures
            self.decoded(n).len() <= n,
            forall|k: int|
                0 <= k < self.decoded(n).len() ==> exists|row: int|
                    0 <= row < n && self.is_confident(row) && #[trigger] self.decoded(n)[k]
                        == #[trigger] self.candidate_at(row),
            (forall|row: int| 0 <= row < n ==> !self.is_confident(row)) ==> self.decoded(n).len()
                == 0,
        decreases n,
    {
        if n > 0 {
            let m = (n - 1) as nat;
            self.lemma_decoded(m);
            let earlier = self.decoded(m);
            assert forall|k: int| 0 <= k < self.decoded(n).len() implies exists|row: int|
                0 <= row < n && self.is_confident(row) && #[trigger] self.decoded(n)[k]
                    == #[trigger] self.candidate_at(row) by {
                if k < earlier.len() {
                    let row = choose|row: int|
                        0 <= row < m && self.is_confident(row) && #[trigger] earlier[k]
                            == #[trigger] self.candidate_at(row);
                    assert(self.decoded(n)[k] == self.candidate_at(row));
                } else {
                    assert(self.decoded(n)[k] == self.candidate_at(n - 1));
                }
            }
        }
    }

    /// Every candidate of a well-shaped output names one of its classes and
    /// has a score of at least 0.2.
    pub proof fn lemma_candidates_are_confident(self, n: nat, k: int)
        requires
            self.well_shaped(),
            0 <= k < self.decoded(n).len(),
        ensures
            self.decoded(n)[k].class_id < self.classes(),
            self.decoded(n)[k].score.reaches(confidence_floor()),
    {
        self.lemma_decoded(n);
        let row = choose|row: int|
            0 <= row < n && self.is_confident(row) && #[trigger] self.decoded(n)[k]
                == #[trigger] self.candidate_at(row);
        let scores = self.class_scores(row);
        lemma_first_max(scores, scores.len());
    }

    /// Reads number `field` of anchor `row`.
    fn get(&self, field: usize, row: usize) -> (bits: u32)
        requires
            self.well_shaped(),
            field < self.shape[1],
            row < self.shape[2],
        ensures
            bits == self.entry(field as int, row as int),
    {
        let rows: usize = self.shape[2];
        assert(field * rows + row < self.shape[1] * rows) by (nonlinear_arith)
            requires
                0 <= field < self.shape[1],
                0 <= row < rows,
        ;
        assert(0 <= field * rows <= field * rows + row) by (nonlinear_arith)
            requires
                0 <= field,
                0 <= rows,
                0 <= row,
        ;
        self.data[field * rows + row]
    }

    /// The best class of anchor `row`, or nothing where one of its class
    /// scores is not a number.
    fn best_class(&self, row: usize) -> (best: Option<usize>)
        requires
            self.well_shaped(),
            row < self.shape[2],
        ensures
            best.is_none() <==> self.row_has_nan(row as int),
            best matches Some(c) ==> c == first_max(
                self.class_scores(row as int),
                self.class_scores(row as int).len(),
            ) && c < self.classes(),
    {
        let classes: usize = self.shape[1] - BOX_FIELDS;
        let ghost scores = self.class_scores(row as int);
        let mut best: usize = 0;
        let mut best_key: i64 = 0;
        let mut c: usize = 0;
        while c < classes
            invariant
                self.well_shaped(),
                row < self.shape[2],
                classes == self.classes(),
                scores == self.class_scores(row as int),
                c <= classes,
                forall|d: int| 0 <= d < c ==> !(#[trigger] scores[d]).is_nan(),
                c > 0 ==> best == first_max(scores, c as nat) && best < c && best_key
                    == scores[best as int].rank(),
                c == 0 ==> best == 0,
            decreases classes - c,
        {
            let score = Score::from_bits(self.get(BOX_FIELDS + c, row));
            assert(score == scores[c as int]);
            if score.is_not_a_number() {
                return None;
            }
            let key: i64 = score.rank_key();
            if c == 0 || key > best_key {
                best = c;
                best_key = key;
            }
            c += 1;
        }
        Some(best)
    }
}

/// Decodes the raw output of the network.
///
/// The output is refused unless it has the shape `(1, 4 + C, N)` with at
/// least one class, a buffer of matching length, and class scores that are
/// all numbers.  Otherwise each anchor whose greatest class score is at
/// least 0.2 gives one candidate, in the order of the anchors: the class of
/// that score (of equal greatest scores the first), the score, and the
/// anchor's four box numbers.  Where no anchor reaches 0.2 the list is
/// empty, which is no failure.
pub fn decode(raw: &RawOutput) -> (result: Result<Vec<Candidate>, DetectError>)
    ensures
        result.is_ok() <==> raw.well_shaped() && !raw.has_nan(),
        result matches Ok(list) ==> list@ == raw.decoded(raw.rows() as nat),
        result matches Ok(list) ==> list.len() <= raw.rows(),
        result matches Ok(list) ==> ((forall|row: int|
            0 <= row < raw.rows() ==> !raw.is_confident(row)) ==> list.len() == 0),
        result matches Err(e) ==> e == DetectError::Decode,
{
    if raw.shape.len() != 3 || raw.shape[0] != 1 || raw.shape[1] <= BOX_FIELDS {
        return Err(DetectError::Decode);
    }
    let fields: usize = raw.shape[1];
    let rows: usize = raw.shape[2];
    assert(0 <= fields * rows <= 0xffff_ffff_ffff_ffff * 0xffff_ffff_ffff_ffff) by (nonlinear_arith)
        requires
            0 <= fields <= 0xffff_ffff_ffff_ffff,
            0 <= rows <= 0xffff_ffff_ffff_ffff,
    ;
    if fields as u128 * rows as u128 != raw.data.len() as u128 {
        return Err(DetectError::Decode);
    }
    let threshold = Score::from_bits(CONFIDENCE_THRESHOLD_BITS);
    let mut list: Vec<Candidate> = Vec::new();
    let mut row: usize = 0;
    while row < rows
        invariant
            raw.well_shaped(),
            rows == raw.rows(),
            row <= rows,
            threshold == confidence_floor(),
            forall|r: int| 0 <= r < row ==> !#[trigger] raw.row_has_nan(r),
            list@ == raw.decoded(row as nat),
        decreases rows - row,
    {
        match raw.best_class(row) {
            None => {
                return Err(DetectError::Decode);
            },
            Some(class_id) => {
                let score = Score::from_bits(raw.get(BOX_FIELDS + class_id, row));
                assert(score == raw.class_scores(row as int)[class_id as int]);
                if score.at_least(threshold) {
                    list.push(
                        Candidate {
                            class_id,
                            score,
                            center_x: raw.get(0, row),
                            center_y: raw.get(1, row),
                            width: raw.get(2, row),
                            height: raw.get(3, row),
                        },
                    );
                }
            },
        }
        row += 1;
    }
    proof {
        raw.lemma_decoded(rows as nat);
    }
    Ok(list)
}

} // verus!
