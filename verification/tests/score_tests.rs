use nude_detection::decode::CONFIDENCE_THRESHOLD_BITS;
use nude_detection::suppress::NMS_SCORE_THRESHOLD_BITS;
use nude_detection::Score;

fn score(value: f32) -> Score {
    Score::from_bits(value.to_bits())
}

const SAMPLES: [f32; 17] = [
    f32::NEG_INFINITY,
    f32::MIN,
    -1.0e10,
    -2.5,
    -1.0,
    -0.2,
    -f32::MIN_POSITIVE,
    -1.0e-45,
    0.0,
    1.0e-45,
    f32::MIN_POSITIVE,
    0.199999,
    0.2,
    0.25,
    1.0,
    f32::MAX,
    f32::INFINITY,
];

#[test]
fn thresholds_are_the_bits_of_their_numbers() {
    assert_eq!(CONFIDENCE_THRESHOLD_BITS, 0.2f32.to_bits());
    assert_eq!(NMS_SCORE_THRESHOLD_BITS, 0.25f32.to_bits());
}

#[test]
fn from_bits_keeps_the_pattern() {
    assert_eq!(Score::from_bits(0x3f66_6666).bits, 0x3f66_6666);
    assert_eq!(score(0.9).bits, 0.9f32.to_bits());
}

#[test]
fn rank_orders_as_the_numbers_do() {
    for a in SAMPLES {
        for b in SAMPLES {
            assert_eq!(score(a).rank_key() < score(b).rank_key(), a < b);
            assert_eq!(score(a).rank_key() == score(b).rank_key(), a == b);
        }
    }
}

#[test]
fn both_zeros_have_rank_zero() {
    assert_eq!(score(0.0).rank_key(), 0);
    assert_eq!(score(-0.0).rank_key(), 0);
    assert_ne!(score(0.0), score(-0.0));
}

#[test]
fn rank_of_one_is_its_pattern() {
    assert_eq!(score(1.0).rank_key(), 0x3f80_0000);
    assert_eq!(score(-1.0).rank_key(), -0x3f80_0000);
}

#[test]
fn nan_is_recognised() {
    assert!(score(f32::NAN).is_not_a_number());
    assert!(Score::from_bits(0x7f80_0001).is_not_a_number());
    assert!(Score::from_bits(0xffff_ffff).is_not_a_number());
    assert!(Score::from_bits(0xff80_0001).is_not_a_number());
    for a in SAMPLES {
        assert!(!score(a).is_not_a_number());
    }
}

#[test]
fn at_least_agrees_with_the_numbers() {
    for a in SAMPLES {
        for b in SAMPLES {
            assert_eq!(score(a).at_least(score(b)), a >= b);
        }
    }
}

#[test]
fn nothing_compares_with_nan() {
    let nan = score(f32::NAN);
    for a in SAMPLES {
        assert!(!score(a).at_least(nan));
        assert!(!nan.at_least(score(a)));
    }
    assert!(!nan.at_least(nan));
}

#[test]
fn confidence_boundary_is_inclusive() {
    let floor = Score::from_bits(CONFIDENCE_THRESHOLD_BITS);
    assert!(score(0.2).at_least(floor));
    assert!(!score(0.199999).at_least(floor));
    assert!(!Score::from_bits(CONFIDENCE_THRESHOLD_BITS - 1).at_least(floor));
    assert!(Score::from_bits(CONFIDENCE_THRESHOLD_BITS + 1).at_least(floor));
}
