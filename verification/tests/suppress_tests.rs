use nude_detection::suppress::ranking;
use nude_detection::{suppress, Proposal, Rect, Score};

fn proposal(class_id: usize, score: f32, x: i32, y: i32, width: i32, height: i32) -> Proposal {
    Proposal {
        class_id,
        score: Score::from_bits(score.to_bits()),
        rect: Rect { x, y, width, height },
    }
}

#[test]
fn nothing_in_nothing_out() {
    assert_eq!(suppress(&Vec::new()), Vec::<usize>::new());
    assert_eq!(ranking(&Vec::new()), Vec::<usize>::new());
}

#[test]
fn lower_score_is_suppressed_at_iou_forty_six() {
    let proposals = vec![
        proposal(2, 0.9, 0, 0, 73, 1),
        proposal(2, 0.8, 27, 0, 73, 1),
    ];
    assert_eq!(suppress(&proposals), vec![0]);
}

#[test]
fn lower_score_is_suppressed_whatever_its_position() {
    let proposals = vec![
        proposal(2, 0.8, 27, 0, 73, 1),
        proposal(2, 0.9, 0, 0, 73, 1),
    ];
    assert_eq!(suppress(&proposals), vec![1]);
}

#[test]
fn both_are_kept_at_iou_forty_four() {
    let proposals = vec![
        proposal(2, 0.9, 0, 0, 72, 1),
        proposal(2, 0.8, 28, 0, 72, 1),
    ];
    assert_eq!(suppress(&proposals), vec![0, 1]);
}

#[test]
fn both_are_kept_at_iou_of_exactly_forty_five() {
    let proposals = vec![
        proposal(2, 0.9, 0, 0, 72, 1),
        proposal(2, 0.8, 27, 0, 73, 1),
    ];
    assert_eq!(suppress(&proposals), vec![0, 1]);
}

#[test]
fn suppression_ignores_the_class() {
    let proposals = vec![
        proposal(1, 0.9, 0, 0, 73, 1),
        proposal(7, 0.8, 27, 0, 73, 1),
    ];
    assert_eq!(suppress(&proposals), vec![0]);
}

#[test]
fn kept_indices_come_from_the_highest_score_down() {
    let proposals = vec![
        proposal(0, 0.30, 0, 0, 10, 10),
        proposal(0, 0.90, 100, 0, 10, 10),
        proposal(0, 0.60, 200, 0, 10, 10),
        proposal(0, 0.75, 300, 0, 10, 10),
    ];
    assert_eq!(ranking(&proposals), vec![1, 3, 2, 0]);
    assert_eq!(suppress(&proposals), vec![1, 3, 2, 0]);
}

#[test]
fn equal_scores_keep_their_given_order() {
    let proposals = vec![
        proposal(0, 0.5, 0, 0, 10, 10),
        proposal(0, 0.7, 100, 0, 10, 10),
        proposal(0, 0.5, 200, 0, 10, 10),
        proposal(0, 0.7, 300, 0, 10, 10),
        proposal(0, 0.5, 400, 0, 10, 10),
    ];
    assert_eq!(ranking(&proposals), vec![1, 3, 0, 2, 4]);
    assert_eq!(suppress(&proposals), vec![1, 3, 0, 2, 4]);
}

#[test]
fn of_two_equal_proposals_the_first_stays() {
    let proposals = vec![
        proposal(0, 0.5, 0, 0, 10, 10),
        proposal(0, 0.5, 0, 0, 10, 10),
    ];
    assert_eq!(suppress(&proposals), vec![0]);
}

#[test]
fn least_score_is_inclusive() {
    let proposals = vec![
        proposal(0, 0.25, 0, 0, 10, 10),
        proposal(0, 0.249999, 100, 0, 10, 10),
        proposal(0, 0.2, 200, 0, 10, 10),
        proposal(0, 0.26, 300, 0, 10, 10),
    ];
    assert_eq!(ranking(&proposals), vec![3, 0]);
    assert_eq!(suppress(&proposals), vec![3, 0]);
}

#[test]
fn scores_that_are_no_numbers_are_left_out() {
    let proposals = vec![
        proposal(0, f32::NAN, 0, 0, 10, 10),
        proposal(0, 0.5, 100, 0, 10, 10),
        proposal(0, -f32::NAN, 200, 0, 10, 10),
        proposal(0, f32::INFINITY, 300, 0, 10, 10),
        proposal(0, -1.0, 400, 0, 10, 10),
    ];
    assert_eq!(suppress(&proposals), vec![3, 1]);
}

#[test]
fn a_suppressed_proposal_suppresses_nothing() {
    // 1 overlaps 0 and 2, but 0 and 2 are apart: 1 falls to 0, and 2 stays.
    let proposals = vec![
        proposal(0, 0.9, 0, 0, 100, 10),
        proposal(0, 0.8, 30, 0, 100, 10),
        proposal(0, 0.7, 60, 0, 100, 10),
    ];
    assert_eq!(suppress(&proposals), vec![0, 2]);
}

#[test]
fn empty_rectangles_never_suppress() {
    let proposals = vec![
        proposal(0, 0.9, 0, 0, 0, 0),
        proposal(0, 0.8, 0, 0, 0, 0),
        proposal(0, 0.7, 0, 0, -5, 10),
    ];
    assert_eq!(suppress(&proposals), vec![0, 1, 2]);
}

#[test]
fn kept_rectangles_are_pairwise_apart() {
    let mut proposals = Vec::new();
    for i in 0..40 {
        let score = 0.3 + (((i * 7) % 40) as f32) / 100.0;
        proposals.push(proposal(i % 18, score, (i as i32 * 13) % 97, (i as i32 * 29) % 53, 30, 20));
    }
    let kept = suppress(&proposals);
    assert!(!kept.is_empty());
    for a in 0..kept.len() {
        for b in 0..a {
            assert!(!proposals[kept[a]].rect.overlaps_with(&proposals[kept[b]].rect));
            assert!(proposals[kept[b]].score.rank_key() >= proposals[kept[a]].score.rank_key());
        }
    }
    for i in 0..proposals.len() {
        if !kept.contains(&i) {
            assert!(kept.iter().any(|&k| {
                proposals[k].rect.overlaps_with(&proposals[i].rect)
                    && (proposals[k].score.rank_key() > proposals[i].score.rank_key()
                        || (proposals[k].score.rank_key() == proposals[i].score.rank_key() && k < i))
            }));
        }
    }
}
