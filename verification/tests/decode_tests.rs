use nude_detection::{decode, Candidate, DetectError, RawOutput, Score};

const CLASSES: usize = 18;
const FIELDS: usize = 4 + CLASSES;

/// A raw output of shape (1, 22, rows.len()) from one column of 22 numbers
/// for each anchor.
fn raw_from_rows(rows: &[[f32; FIELDS]]) -> RawOutput {
    let n = rows.len();
    let mut data = vec![0u32; FIELDS * n];
    for (r, row) in rows.iter().enumerate() {
        for (k, value) in row.iter().enumerate() {
            data[k * n + r] = value.to_bits();
        }
    }
    RawOutput { shape: vec![1, FIELDS, n], data }
}

fn row(geometry: [f32; 4], scores: &[(usize, f32)]) -> [f32; FIELDS] {
    let mut out = [0.0f32; FIELDS];
    out[..4].copy_from_slice(&geometry);
    for &(class, score) in scores {
        out[4 + class] = score;
    }
    out
}

fn candidate(class_id: usize, score: f32, geometry: [f32; 4]) -> Candidate {
    Candidate {
        class_id,
        score: Score::from_bits(score.to_bits()),
        center_x: geometry[0].to_bits(),
        center_y: geometry[1].to_bits(),
        width: geometry[2].to_bits(),
        height: geometry[3].to_bits(),
    }
}

#[test]
fn dominant_row_is_decoded() {
    let geometry = [160.0, 120.5, 40.0, 20.0];
    let raw = raw_from_rows(&[row(geometry, &[(3, 0.9), (5, 0.3)])]);
    assert_eq!(decode(&raw), Ok(vec![candidate(3, 0.9, geometry)]));
}

#[test]
fn score_of_exactly_one_fifth_is_kept() {
    let geometry = [1.0, 2.0, 3.0, 4.0];
    let raw = raw_from_rows(&[row(geometry, &[(0, 0.2)])]);
    assert_eq!(decode(&raw), Ok(vec![candidate(0, 0.2, geometry)]));
}

#[test]
fn score_just_below_one_fifth_is_dropped() {
    let raw = raw_from_rows(&[row([1.0, 2.0, 3.0, 4.0], &[(0, 0.199999)])]);
    assert_eq!(decode(&raw), Ok(Vec::new()));
}

#[test]
fn no_confident_row_gives_the_empty_list() {
    let raw = raw_from_rows(&[
        row([1.0, 2.0, 3.0, 4.0], &[(0, 0.1)]),
        row([5.0, 6.0, 7.0, 8.0], &[(17, 0.19)]),
        row([9.0, 9.0, 9.0, 9.0], &[]),
    ]);
    assert_eq!(decode(&raw), Ok(Vec::new()));
}

#[test]
fn no_rows_give_the_empty_list() {
    let raw = raw_from_rows(&[]);
    assert_eq!(decode(&raw), Ok(Vec::new()));
}

#[test]
fn first_of_equal_maxima_wins() {
    let geometry = [0.0, 0.0, 1.0, 1.0];
    let raw = raw_from_rows(&[row(geometry, &[(4, 0.7), (9, 0.7), (2, 0.5), (16, 0.7)])]);
    assert_eq!(decode(&raw), Ok(vec![candidate(4, 0.7, geometry)]));
}

#[test]
fn last_class_can_win() {
    let geometry = [0.0, 0.0, 1.0, 1.0];
    let raw = raw_from_rows(&[row(geometry, &[(0, 0.5), (17, 0.51)])]);
    assert_eq!(decode(&raw), Ok(vec![candidate(17, 0.51, geometry)]));
}

#[test]
fn rows_are_read_across_the_fields() {
    let first = [10.0, 11.0, 12.0, 13.0];
    let second = [20.0, 21.0, 22.0, 23.0];
    let third = [30.0, 31.0, 32.0, 33.0];
    let raw = raw_from_rows(&[
        row(first, &[(1, 0.4)]),
        row(second, &[(2, 0.1)]),
        row(third, &[(6, 0.8), (7, 0.3)]),
    ]);
    assert_eq!(raw.data[0], 10.0f32.to_bits());
    assert_eq!(raw.data[1], 20.0f32.to_bits());
    assert_eq!(raw.data[3], 11.0f32.to_bits());
    assert_eq!(
        decode(&raw),
        Ok(vec![candidate(1, 0.4, first), candidate(6, 0.8, third)])
    );
}

#[test]
fn negative_scores_never_pass() {
    let mut only = [0.0f32; FIELDS];
    for value in only.iter_mut().skip(4) {
        *value = -0.5;
    }
    let raw = raw_from_rows(&[only]);
    assert_eq!(decode(&raw), Ok(Vec::new()));
}

#[test]
fn geometry_may_be_anything() {
    let geometry = [f32::NAN, f32::INFINITY, -3.0, 0.0];
    let raw = raw_from_rows(&[row(geometry, &[(8, 1.0)])]);
    assert_eq!(decode(&raw), Ok(vec![candidate(8, 1.0, geometry)]));
}

#[test]
fn score_that_is_no_number_is_refused() {
    let raw = raw_from_rows(&[
        row([1.0, 2.0, 3.0, 4.0], &[(0, 0.9)]),
        row([1.0, 2.0, 3.0, 4.0], &[(0, 0.9), (11, f32::NAN)]),
    ]);
    assert_eq!(decode(&raw), Err(DetectError::Decode));
}

#[test]
fn wrong_rank_is_refused() {
    let flat = RawOutput { shape: vec![FIELDS, 1], data: vec![0; FIELDS] };
    assert_eq!(decode(&flat), Err(DetectError::Decode));
    let deep = RawOutput { shape: vec![1, 1, FIELDS, 1], data: vec![0; FIELDS] };
    assert_eq!(decode(&deep), Err(DetectError::Decode));
    let none = RawOutput { shape: Vec::new(), data: Vec::new() };
    assert_eq!(decode(&none), Err(DetectError::Decode));
}

#[test]
fn batch_other_than_one_is_refused() {
    let two = RawOutput { shape: vec![2, FIELDS, 1], data: vec![0; 2 * FIELDS] };
    assert_eq!(decode(&two), Err(DetectError::Decode));
    let zero = RawOutput { shape: vec![0, FIELDS, 1], data: Vec::new() };
    assert_eq!(decode(&zero), Err(DetectError::Decode));
}

#[test]
fn output_without_classes_is_refused() {
    let bare = RawOutput { shape: vec![1, 4, 2], data: vec![0; 8] };
    assert_eq!(decode(&bare), Err(DetectError::Decode));
    let short = RawOutput { shape: vec![1, 3, 2], data: vec![0; 6] };
    assert_eq!(decode(&short), Err(DetectError::Decode));
}

#[test]
fn buffer_that_does_not_match_the_shape_is_refused() {
    let short = RawOutput { shape: vec![1, FIELDS, 2], data: vec![0; 2 * FIELDS - 1] };
    assert_eq!(decode(&short), Err(DetectError::Decode));
    let long = RawOutput { shape: vec![1, FIELDS, 2], data: vec![0; 2 * FIELDS + 1] };
    assert_eq!(decode(&long), Err(DetectError::Decode));
    let huge = RawOutput { shape: vec![1, usize::MAX, usize::MAX], data: vec![0; 1] };
    assert_eq!(decode(&huge), Err(DetectError::Decode));
}

#[test]
fn any_number_of_classes_is_decoded() {
    // one class only
    let one = RawOutput {
        shape: vec![1, 5, 1],
        data: vec![
            1.0f32.to_bits(),
            2.0f32.to_bits(),
            3.0f32.to_bits(),
            4.0f32.to_bits(),
            0.5f32.to_bits(),
        ],
    };
    assert_eq!(decode(&one), Ok(vec![candidate(0, 0.5, [1.0, 2.0, 3.0, 4.0])]));
    // nineteen classes: the decoder reports the index, the label table refuses it later
    let mut data = vec![0u32; 23];
    data[22] = 0.9f32.to_bits();
    let many = RawOutput { shape: vec![1, 23, 1], data };
    assert_eq!(decode(&many), Ok(vec![candidate(18, 0.9, [0.0, 0.0, 0.0, 0.0])]));
}
