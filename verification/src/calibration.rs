//! Which part of the window shows the board.
use crate::clicks::SubBound;
use crate::common::{bound_seen, detections_bound, Detection, ModelSize};
use vstd::prelude::*;

verus! {

impl SubBound {
    /// The bound as whole numbers: left, top, width and height.
    pub open spec fn sides(self) -> (int, int, int, int) {
        (self.x as int, self.y as int, self.w as int, self.h as int)
    }
}

/// The part of a screenshot of the given size to watch at the start: the board,
/// or all of it where no board is found.
pub fn start_bound(image_w: u32, image_h: u32, detections: &[Detection], model: ModelSize) -> (r:
    SubBound)
    requires
        model.valid(),
    ensures
        match bound_seen(image_w, image_h, detections@, model) {
            Some(bound) => r.sides() == bound,
            None => r == (SubBound { x: 0, y: 0, w: image_w, h: image_h }),
        },
{
    match detections_bound(image_w, image_h, detections, model) {
        Ok((x, y, w, h)) => SubBound { x, y, w, h },
        Err(_) => SubBound { x: 0, y: 0, w: image_w, h: image_h },
    }
}

/// The part of a screenshot of the given size to watch from now on, if the
/// detector gave an answer and a board is found in it.
pub fn recalibrate_board_bound(
    image_w: u32,
    image_h: u32,
    prediction: Option<&[Detection]>,
    model: ModelSize,
) -> (r: Option<SubBound>)
    requires
        model.valid(),
    ensures
        match r {
            Some(bound) => prediction matches Some(detections) && bound_seen(
                image_w,
                image_h,
                detections@,
                model,
            ) == Some(bound.sides()),
            None => prediction matches Some(detections) ==> bound_seen(
                image_w,
                image_h,
                detections@,
                model,
            ) is None,
        },
{
    if let Some(detections) = prediction {
        if let Ok((x, y, w, h)) = detections_bound(image_w, image_h, detections, model) {
            return Some(SubBound { x, y, w, h });
        }
    }
    None
}

} // verus!
