use nude_detection::scale::resize_factor;
use nude_detection::{
    decode, post_process, preprocess, remap, select, Candidate, DetectError, Detection, Image,
    Label, Letterboxed, Proposal, RawOutput, Rect, Score,
};

/// The scale between the picture and its scaled copy, by floats.
fn factor_by_floats(prepared: &Letterboxed) -> f32 {
    let (w, h) = (prepared.source_width as f32, prepared.source_height as f32);
    let (rw, rh) = (prepared.resized_width as f32, prepared.resized_height as f32);
    ((w.powi(2) + h.powi(2)) / (rw.powi(2) + rh.powi(2))).sqrt()
}

/// The rectangle of a candidate on the picture, by floats.
fn remap_by_floats(candidate: &Candidate, factor: f32, pad_top: u32, pad_left: u32) -> Proposal {
    let center_x = f32::from_bits(candidate.center_x);
    let center_y = f32::from_bits(candidate.center_y);
    let w = f32::from_bits(candidate.width);
    let h = f32::from_bits(candidate.height);
    let x = ((center_x - w * 0.5 - pad_left as f32).round() * factor) as i32;
    let y = ((center_y - h * 0.5 - pad_top as f32).round() * factor) as i32;
    let width = (w * factor).round() as i32;
    let height = (h * factor).round() as i32;
    Proposal {
        class_id: candidate.class_id,
        score: candidate.score,
        rect: Rect { x, y, width, height },
    }
}

fn grey(width: u32, height: u32, level: u8) -> Image {
    let mut pixels = Vec::new();
    for _ in 0..(width as usize * height as usize) {
        pixels.extend_from_slice(&[level, level, level, 255]);
    }
    Image { width, height, pixels }
}

fn raw_with(rows: usize, entries: &[(usize, usize, f32)]) -> RawOutput {
    let mut data = vec![0u32; 22 * rows];
    for &(field, row, value) in entries {
        data[field * rows + row] = value.to_bits();
    }
    RawOutput { shape: vec![1, 22, rows], data }
}

fn factor_of(prepared: &Letterboxed) -> u32 {
    let computed = resize_factor(
        prepared.source_width,
        prepared.source_height,
        prepared.resized_width,
        prepared.resized_height,
    );
    assert_eq!(prepared.resize_factor, computed);
    computed
}

#[test]
fn round_trip_of_one_dominant_row() {
    let prepared = preprocess(&grey(640, 480, 200)).unwrap();
    assert_eq!(prepared.tensor.len(), 3 * 320 * 320);
    let values: Vec<f32> = prepared.tensor.iter().map(|&b| f32::from_bits(b)).collect();
    assert!(values.iter().all(|v| (0.0..=1.0).contains(v)));
    assert_eq!(f32::from_bits(factor_of(&prepared)), 2.0);
    assert_eq!(factor_by_floats(&prepared), 2.0);
    assert_eq!((prepared.padding.top, prepared.padding.left), (40, 0));

    let raw = raw_with(
        5,
        &[
            (0, 2, 160.0),
            (1, 2, 160.0),
            (2, 2, 40.0),
            (3, 2, 20.0),
            (4 + 3, 2, 0.9),
            (4 + 1, 2, 0.15),
            (4 + 6, 4, 0.1),
        ],
    );
    let detections = post_process(
        &raw,
        factor_of(&prepared),
        prepared.padding.top,
        prepared.padding.left,
    )
    .unwrap();
    assert_eq!(
        detections,
        vec![Detection {
            class: Label::FemaleBreastExposed,
            score: Score::from_bits(0.9f32.to_bits()),
            rect: Rect { x: 280, y: 220, width: 80, height: 40 },
        }]
    );
    assert_eq!(f32::from_bits(detections[0].score.bits), 0.9);
}

#[test]
fn grey_picture_stays_grey_inside_and_black_in_the_margins() {
    let prepared = preprocess(&grey(640, 480, 200)).unwrap();
    for c in 0..3 {
        for y in 0..320 {
            for x in 0..320 {
                let value = f32::from_bits(prepared.tensor[(c * 320 + y) * 320 + x]);
                if (40..280).contains(&y) {
                    assert_eq!(value, 200.0 / 255.0);
                } else {
                    assert_eq!(value, 0.0);
                }
            }
        }
    }
}

#[test]
fn picture_without_confident_row_has_no_detections() {
    let prepared = preprocess(&grey(64, 64, 0)).unwrap();
    let raw = raw_with(3, &[(4, 0, 0.19), (9, 1, 0.1), (0, 2, 55.0)]);
    assert!(decode(&raw).unwrap().is_empty());
    assert_eq!(
        post_process(&raw, factor_of(&prepared), prepared.padding.top, prepared.padding.left),
        Ok(Vec::new())
    );
}

#[test]
fn output_that_cannot_be_decoded_fails_the_call() {
    let bad = RawOutput { shape: vec![1, 22], data: vec![0; 22] };
    assert_eq!(post_process(&bad, 1.0f32.to_bits(), 0, 0), Err(DetectError::Decode));
    let nan = raw_with(2, &[(4 + 3, 0, 0.9), (4 + 2, 1, f32::NAN)]);
    assert_eq!(post_process(&nan, 1.0f32.to_bits(), 0, 0), Err(DetectError::Decode));
}

#[test]
fn class_without_label_fails_the_call() {
    let mut data = vec![0u32; 23 * 2];
    data[2 * 2] = 10.0f32.to_bits();
    data[3 * 2] = 10.0f32.to_bits();
    data[22 * 2] = 0.9f32.to_bits();
    let raw = RawOutput { shape: vec![1, 23, 2], data };
    assert_eq!(
        post_process(&raw, 1.0f32.to_bits(), 0, 0),
        Err(DetectError::InvalidClassIndex(18))
    );
}

#[test]
fn overlapping_rows_leave_the_more_confident_one() {
    let prepared = preprocess(&grey(320, 320, 17)).unwrap();
    assert_eq!(factor_of(&prepared), 1.0f32.to_bits());
    assert_eq!((prepared.padding.top, prepared.padding.left), (0, 0));
    let raw = raw_with(
        3,
        &[
            (0, 0, 100.0),
            (1, 0, 100.0),
            (2, 0, 50.0),
            (3, 0, 50.0),
            (4 + 12, 0, 0.6),
            (0, 1, 102.0),
            (1, 1, 101.0),
            (2, 1, 50.0),
            (3, 1, 50.0),
            (4 + 1, 1, 0.8),
            (0, 2, 250.0),
            (1, 2, 30.0),
            (2, 2, 20.0),
            (3, 2, 10.0),
            (4 + 7, 2, 0.3),
        ],
    );
    let detections = post_process(&raw, factor_of(&prepared), 0, 0).unwrap();
    assert_eq!(
        detections,
        vec![
            Detection {
                class: Label::FaceFemale,
                score: Score::from_bits(0.8f32.to_bits()),
                rect: Rect { x: 77, y: 76, width: 50, height: 50 },
            },
            Detection {
                class: Label::FeetExposed,
                score: Score::from_bits(0.3f32.to_bits()),
                rect: Rect { x: 240, y: 25, width: 20, height: 10 },
            },
        ]
    );
}

#[test]
fn post_process_is_decode_then_remap_then_select() {
    let prepared = preprocess(&grey(333, 77, 90)).unwrap();
    let factor = factor_of(&prepared);
    let mut entries = Vec::new();
    for row in 0..40usize {
        entries.push((0, row, 20.0 + (row * 37 % 280) as f32 + 0.37));
        entries.push((1, row, 130.0 + (row * 11 % 60) as f32 + 0.61));
        entries.push((2, row, 30.0 + (row % 7) as f32 * 9.5));
        entries.push((3, row, 12.0 + (row % 5) as f32 * 3.25));
        entries.push((4 + row % 18, row, 0.15 + (row * 13 % 80) as f32 / 100.0));
    }
    let raw = raw_with(40, &entries);
    let candidates = decode(&raw).unwrap();
    assert!(candidates.len() > 10);
    let proposals: Vec<Proposal> = candidates
        .iter()
        .map(|c| remap(c, factor, prepared.padding.top, prepared.padding.left))
        .collect();
    let detections = post_process(&raw, factor, prepared.padding.top, prepared.padding.left);
    assert_eq!(detections, select(&proposals));
    assert!(!detections.unwrap().is_empty());
}

#[test]
fn remap_agrees_with_the_floats_on_plausible_boxes() {
    for (width, height) in [(640u32, 480u32), (200, 300), (333, 77), (1920, 1080), (320, 320), (17, 3000)] {
        let prepared = preprocess(&grey(width, height, 1)).unwrap();
        let factor = factor_of(&prepared);
        assert_eq!(factor, factor_by_floats(&prepared).to_bits());
        for step in 0..4000u32 {
            let candidate = Candidate {
                class_id: (step % 18) as usize,
                score: Score::from_bits(0.5f32.to_bits()),
                center_x: ((step * 7919 % 3200) as f32 / 10.0 + 0.013 * step as f32).to_bits(),
                center_y: ((step * 104729 % 3200) as f32 / 10.0).to_bits(),
                width: ((step * 31 % 2000) as f32 / 7.0).to_bits(),
                height: ((step * 17 % 2000) as f32 / 3.0).to_bits(),
            };
            let ours = remap(&candidate, factor, prepared.padding.top, prepared.padding.left);
            let theirs = remap_by_floats(
                &candidate,
                f32::from_bits(factor),
                prepared.padding.top,
                prepared.padding.left,
            );
            assert_eq!(ours, theirs);
        }
    }
}

#[test]
fn remap_agrees_with_the_floats_on_any_patterns() {
    let mut state: u64 = 99;
    let mut next = || {
        state = state.wrapping_mul(6364136223846793005).wrapping_add(1442695040888963407);
        (state >> 32) as u32
    };
    for _ in 0..200_000 {
        let candidate = Candidate {
            class_id: 0,
            score: Score::from_bits(next()),
            center_x: next(),
            center_y: next(),
            width: next(),
            height: next(),
        };
        let factor = next();
        let (pad_top, pad_left) = (next() % 400, next());
        let ours = remap(&candidate, factor, pad_top, pad_left);
        let theirs = remap_by_floats(&candidate, f32::from_bits(factor), pad_top, pad_left);
        assert_eq!(ours, theirs);
    }
}

#[test]
fn remap_takes_the_margins_away_and_scales() {
    let candidate = Candidate {
        class_id: 4,
        score: Score::from_bits(0.75f32.to_bits()),
        center_x: 100.0f32.to_bits(),
        center_y: 200.0f32.to_bits(),
        width: 31.0f32.to_bits(),
        height: 50.0f32.to_bits(),
    };
    // x: round(100 - 15.5 - 10) = round(74.5) = 75, times 1.5 = 112.5, cut to 112
    // y: round(200 - 25 - 20) = 155, times 1.5 = 232.5, cut to 232
    // width: round(46.5) = 47; height: round(75) = 75
    let proposal = remap(&candidate, 1.5f32.to_bits(), 20, 10);
    assert_eq!(proposal.class_id, 4);
    assert_eq!(proposal.score, candidate.score);
    assert_eq!(proposal.rect, Rect { x: 112, y: 232, width: 47, height: 75 });
}

#[test]
fn remap_does_not_clamp() {
    let candidate = Candidate {
        class_id: 0,
        score: Score::from_bits(0.75f32.to_bits()),
        center_x: 5.0f32.to_bits(),
        center_y: (-3.0e9f32).to_bits(),
        width: 400.0f32.to_bits(),
        height: (-8.0f32).to_bits(),
    };
    let proposal = remap(&candidate, 2.0f32.to_bits(), 0, 50);
    assert_eq!(proposal.rect, Rect { x: -490, y: i32::MIN, width: 800, height: -16 });
}
