use nude_detection::detect::detection;
use nude_detection::{collect, select, DetectError, Detection, Label, Proposal, Rect, Score};

fn proposal(class_id: usize, score: f32, x: i32, y: i32, width: i32, height: i32) -> Proposal {
    Proposal {
        class_id,
        score: Score::from_bits(score.to_bits()),
        rect: Rect { x, y, width, height },
    }
}

fn found(class: Label, score: f32, x: i32, y: i32, width: i32, height: i32) -> Detection {
    Detection {
        class,
        score: Score::from_bits(score.to_bits()),
        rect: Rect { x, y, width, height },
    }
}

#[test]
fn proposal_gets_the_label_of_its_class() {
    assert_eq!(
        detection(&proposal(3, 0.9, 1, 2, 3, 4)),
        Ok(found(Label::FemaleBreastExposed, 0.9, 1, 2, 3, 4))
    );
    assert_eq!(
        detection(&proposal(18, 0.9, 1, 2, 3, 4)),
        Err(DetectError::InvalidClassIndex(18))
    );
}

#[test]
fn no_proposals_give_no_detections() {
    assert_eq!(select(&Vec::new()), Ok(Vec::new()));
}

#[test]
fn proposals_below_the_least_score_give_no_detections() {
    let proposals = vec![proposal(1, 0.2, 0, 0, 10, 10), proposal(99, 0.24, 50, 0, 10, 10)];
    assert_eq!(select(&proposals), Ok(Vec::new()));
}

#[test]
fn detections_come_from_the_highest_score_down() {
    let proposals = vec![
        proposal(12, 0.5, 0, 0, 10, 10),
        proposal(1, 0.9, 100, 0, 10, 10),
        proposal(17, 0.7, 200, 0, 10, 10),
    ];
    assert_eq!(
        select(&proposals),
        Ok(vec![
            found(Label::FaceFemale, 0.9, 100, 0, 10, 10),
            found(Label::ButtocksCovered, 0.7, 200, 0, 10, 10),
            found(Label::FaceMale, 0.5, 0, 0, 10, 10),
        ])
    );
}

#[test]
fn suppressed_proposals_give_no_detection() {
    let proposals = vec![
        proposal(5, 0.8, 27, 0, 73, 1),
        proposal(6, 0.9, 0, 0, 73, 1),
        proposal(7, 0.4, -500, -500, 20, 20),
    ];
    assert_eq!(
        select(&proposals),
        Ok(vec![
            found(Label::AnusExposed, 0.9, 0, 0, 73, 1),
            found(Label::FeetExposed, 0.4, -500, -500, 20, 20),
        ])
    );
}

#[test]
fn rectangles_outside_the_picture_pass_unchanged() {
    let proposals = vec![proposal(0, 0.9, -40, -7, 9000, -3)];
    assert_eq!(
        select(&proposals),
        Ok(vec![found(Label::FemaleGenitaliaCovered, 0.9, -40, -7, 9000, -3)])
    );
}

#[test]
fn kept_class_without_label_fails_the_call() {
    let proposals = vec![
        proposal(1, 0.9, 0, 0, 10, 10),
        proposal(18, 0.8, 100, 0, 10, 10),
        proposal(2, 0.7, 200, 0, 10, 10),
    ];
    assert_eq!(select(&proposals), Err(DetectError::InvalidClassIndex(18)));
}

#[test]
fn first_kept_class_without_label_is_reported() {
    let proposals = vec![
        proposal(40, 0.6, 0, 0, 10, 10),
        proposal(30, 0.8, 100, 0, 10, 10),
        proposal(2, 0.9, 200, 0, 10, 10),
    ];
    assert_eq!(select(&proposals), Err(DetectError::InvalidClassIndex(30)));
}

#[test]
fn class_without_label_that_is_not_kept_does_no_harm() {
    let proposals = vec![
        proposal(1, 0.9, 0, 0, 73, 1),
        proposal(18, 0.8, 27, 0, 73, 1),
        proposal(19, 0.1, 500, 0, 10, 10),
    ];
    assert_eq!(
        select(&proposals),
        Ok(vec![found(Label::FaceFemale, 0.9, 0, 0, 73, 1)])
    );
}

#[test]
fn collect_follows_the_given_indices() {
    let proposals = vec![
        proposal(0, 0.9, 0, 0, 1, 1),
        proposal(1, 0.1, 1, 0, 1, 1),
        proposal(2, 0.5, 2, 0, 1, 1),
    ];
    assert_eq!(
        collect(&proposals, &vec![2, 0, 2]),
        Ok(vec![
            found(Label::ButtocksExposed, 0.5, 2, 0, 1, 1),
            found(Label::FemaleGenitaliaCovered, 0.9, 0, 0, 1, 1),
            found(Label::ButtocksExposed, 0.5, 2, 0, 1, 1),
        ])
    );
    assert_eq!(collect(&proposals, &Vec::new()), Ok(Vec::new()));
}

#[test]
fn collect_reports_the_first_class_without_label() {
    let proposals = vec![
        proposal(0, 0.9, 0, 0, 1, 1),
        proposal(21, 0.1, 1, 0, 1, 1),
        proposal(20, 0.5, 2, 0, 1, 1),
    ];
    assert_eq!(
        collect(&proposals, &vec![0, 2, 1]),
        Err(DetectError::InvalidClassIndex(20))
    );
}
