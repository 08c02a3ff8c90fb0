use nude_detection::label::CLASS_COUNT;
use nude_detection::{DetectError, Label};

const TABLE: [Label; 18] = [
    Label::FemaleGenitaliaCovered,
    Label::FaceFemale,
    Label::ButtocksExposed,
    Label::FemaleBreastExposed,
    Label::FemaleGenitaliaExposed,
    Label::MaleBreastExposed,
    Label::AnusExposed,
    Label::FeetExposed,
    Label::BellyCovered,
    Label::FeetCovered,
    Label::ArmpitsCovered,
    Label::ArmpitsExposed,
    Label::FaceMale,
    Label::BellyExposed,
    Label::MaleGenitaliaExposed,
    Label::AnusCovered,
    Label::FemaleBreastCovered,
    Label::ButtocksCovered,
];

#[test]
fn every_index_has_its_label() {
    assert_eq!(CLASS_COUNT, 18);
    for (index, label) in TABLE.iter().enumerate() {
        assert_eq!(Label::try_from(index), Ok(*label));
    }
}

#[test]
fn labels_are_pairwise_distinct() {
    for a in 0..TABLE.len() {
        for b in 0..TABLE.len() {
            assert_eq!(TABLE[a] == TABLE[b], a == b);
        }
    }
}

#[test]
fn index_three_is_female_breast_exposed() {
    assert_eq!(Label::try_from(3usize), Ok(Label::FemaleBreastExposed));
}

#[test]
fn index_eighteen_is_refused() {
    assert_eq!(
        Label::try_from(18usize),
        Err(DetectError::InvalidClassIndex(18))
    );
}

#[test]
fn largest_index_is_refused() {
    assert_eq!(
        Label::try_from(usize::MAX),
        Err(DetectError::InvalidClassIndex(usize::MAX))
    );
}

#[test]
fn try_into_goes_through_the_same_table() {
    let label: Result<Label, DetectError> = 12usize.try_into();
    assert_eq!(label, Ok(Label::FaceMale));
    let none: Result<Label, DetectError> = 99usize.try_into();
    assert_eq!(none, Err(DetectError::InvalidClassIndex(99)));
}

#[test]
fn label_prints_its_name() {
    assert_eq!(format!("{:?}", Label::ButtocksCovered), "ButtocksCovered");
}
