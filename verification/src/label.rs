//! The closed table of class labels.

use vstd::prelude::*;
use vstd::std_specs::convert::TryFromSpecImpl;
use crate::error::DetectError;

verus! {

/// Number of classes that the network distinguishes.
pub const CLASS_COUNT: usize = 18;

/// What a detected region shows.  Each label belongs to exactly one class
/// index in `0..CLASS_COUNT`, in the order of declaration.
#[derive(Debug, Clone, Copy, PartialEq, Eq, Structural)]
pub enum Label {
    FemaleGenitaliaCovered,
    FaceFemale,
    ButtocksExposed,
    FemaleBreastExposed,
    FemaleGenitaliaExposed,
    MaleBreastExposed,
    AnusExposed,
    FeetExposed,
    BellyCovered,
    FeetCovered,
    ArmpitsCovered,
    ArmpitsExposed,
    FaceMale,
    BellyExposed,
    MaleGenitaliaExposed,
    AnusCovered,
    FemaleBreastCovered,
    ButtocksCovered,
}

impl Label {
    /// The class index of a label.
    pub open spec fn index(self) -> int {
        match self {
            Label::FemaleGenitaliaCovered => 0,
            Label::FaceFemale => 1,
            Label::ButtocksExposed => 2,
            Label::FemaleBreastExposed => 3,
            Label::FemaleGenitaliaExposed => 4,
            Label::MaleBreastExposed => 5,
            Label::AnusExposed => 6,
            Label::FeetExposed => 7,
            Label::BellyCovered => 8,
            Label::FeetCovered => 9,
            Label::ArmpitsCovered => 10,
            Label::ArmpitsExposed => 11,
            Label::FaceMale => 12,
            Label::BellyExposed => 13,
            Label::MaleGenitaliaExposed => 14,
            Label::AnusCovered => 15,
            Label::FemaleBreastCovered => 16,
            Label::ButtocksCovered => 17,
        }
    }

    /// The label of a class index, where there is one.
    pub open spec fn at(index: int) -> Option<Label> {
        if index == 0 {
            Some(Label::FemaleGenitaliaCovered)
        } else if index == 1 {
            Some(Label::FaceFemale)
        } else if index == 2 {
            Some(Label::ButtocksExposed)
        } else if index == 3 {
            Some(Label::FemaleBreastExposed)
        } else if index == 4 {
            Some(Label::FemaleGenitaliaExposed)
        } else if index == 5 {
            Some(Label::MaleBreastExposed)
        } else if index == 6 {
            Some(Label::AnusExposed)
        } else if index == 7 {
            Some(Label::FeetExposed)
        } else if index == 8 {
            Some(Label::BellyCovered)
        } else if index == 9 {
            Some(Label::FeetCovered)
        } else if index == 10 {
            Some(Label::ArmpitsCovered)
        } else if index == 11 {
            Some(Label::ArmpitsExposed)
        } else if index == 12 {
            Some(Label::FaceMale)
        } else if index == 13 {
            Some(Label::BellyExposed)
        } else if index == 14 {
            Some(Label::MaleGenitaliaExposed)
        } else if index == 15 {
            Some(Label::AnusCovered)
        } else if index == 16 {
            Some(Label::FemaleBreastCovered)
        } else if index == 17 {
            Some(Label::ButtocksCovered)
        } else {
            None
        }
    }

    /// What the conversion from a class index returns: the label of the
    /// index, or the index itself as an invalid one.
    pub open spec fn lookup(index: usize) -> Result<Label, DetectError> {
        match Label::at(index as int) {
            Some(label) => Ok(label),
            None => Err(DetectError::InvalidClassIndex(index)),
        }
    }

    /// The table is one to one between the labels and `0..CLASS_COUNT`: an
    /// index has a label exactly when it lies in that range, the label found
    /// at an index has that index, and every label is found at its own index.
    pub proof fn lemma_table_is_bijection(index: int, label: Label)
        ensures
            Label::at(index).is_some() <==> 0 <= index < CLASS_COUNT,
            Label::at(index) == Some(label) <==> label.index() == index,
            0 <= label.index() < CLASS_COUNT,
    {
    }
}

impl TryFrom<usize> for Label {
    type Error = DetectError;

    /// The label of class index `value`; an index of `CLASS_COUNT` or more
    /// is refused and never mapped to a label.
    fn try_from(value: usize) -> (ret: Result<Label, DetectError>)
        ensures
            ret == Label::lookup(value),
            ret.is_ok() <==> value < CLASS_COUNT,
    {
        match value {
            0 => Ok(Label::FemaleGenitaliaCovered),
            1 => Ok(Label::FaceFemale),
            2 => Ok(Label::ButtocksExposed),
            3 => Ok(Label::FemaleBreastExposed),
            4 => Ok(Label::FemaleGenitaliaExposed),
            5 => Ok(Label::MaleBreastExposed),
            6 => Ok(Label::AnusExposed),
            7 => Ok(Label::FeetExposed),
            8 => Ok(Label::BellyCovered),
            9 => Ok(Label::FeetCovered),
            10 => Ok(Label::ArmpitsCovered),
            11 => Ok(Label::ArmpitsExposed),
            12 => Ok(Label::FaceMale),
            13 => Ok(Label::BellyExposed),
            14 => Ok(Label::MaleGenitaliaExposed),
            15 => Ok(Label::AnusCovered),
            16 => Ok(Label::FemaleBreastCovered),
            17 => Ok(Label::ButtocksCovered),
            _ => Err(DetectError::InvalidClassIndex(value)),
        }
    }
}

impl TryFromSpecImpl<usize> for Label {
    open spec fn obeys_try_from_spec() -> bool {
        true
    }

    open spec fn try_from_spec(value: usize) -> Result<Label, DetectError> {
        Label::lookup(value)
    }
}

} // verus!
