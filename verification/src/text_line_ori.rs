use vstd::prelude::*;

use crate::preprocessing::{rotation_of_angle, rotation_degrees, Rotation};

verus! {

/// The line classifier says the line is upside down: both class scores are
/// comparable (neither is NaN, given as `None`) and the flipped class scores
/// strictly higher than the upright one.
pub open spec fn line_is_flipped(upright: Option<i64>, flipped: Option<i64>) -> bool {
    match (upright, flipped) {
        (Some(u), Some(f)) => u < f,
        _ => false,
    }
}

/// The rotation recorded for a text line: the rotation it was given before
/// classification (a quarter turn for a tall crop), turned a further half
/// turn when the classifier finds the line upside down. The two class scores
/// are order keys of the classifier's probabilities, `None` for NaN.
pub fn text_line_rotation(initial: Rotation, upright: Option<i64>, flipped: Option<i64>) -> (r:
    Rotation)
    ensures
        line_is_flipped(upright, flipped) ==> rotation_of_angle(rotation_degrees(initial) + 180)
            == Some(r),
        !line_is_flipped(upright, flipped) ==> r == initial,
{
    let flip = match (upright, flipped) {
        (Some(u), Some(f)) => u < f,
        _ => false,
    };
    if flip {
        initial.rotate_by(180)
    } else {
        initial
    }
}

} // verus!
