use vstd::prelude::*;
use crate::geometry::Point;

verus! {

/// What a frame's input did to the click target.
#[derive(Clone, Copy, Debug, PartialEq, Eq, Structural)]
pub enum ClickOutcome {
    /// The right button was not pressed this frame.
    NotPressed,
    /// The click resolved to a world point, which is now the target.
    Updated,
    /// The click could not be placed in the world; the target is kept.
    Unresolved,
}

/// The last world point that a right click resolved to.
#[derive(Clone, Copy, Debug, PartialEq, Eq, Structural)]
pub struct MouseClickLoc {
    pub point: Point,
}

impl MouseClickLoc {
    /// A tracker whose target starts at the origin.
    pub fn new() -> (r: MouseClickLoc)
        ensures
            r.point.x == 0,
            r.point.y == 0,
    {
        MouseClickLoc { point: Point::origin() }
    }

    /// Handles one frame of input: on the frame the right button goes down,
    /// the target becomes the clicked world point if there is one; otherwise
    /// the target is left as it was.
    pub fn mouse_click(&mut self, right_just_pressed: bool, world_coords: Option<Point>) -> (r: ClickOutcome)
        ensures
            right_just_pressed && world_coords.is_some() ==> final(self).point == world_coords.unwrap()
                && r == ClickOutcome::Updated,
            right_just_pressed && world_coords.is_none() ==> *final(self) == *old(self)
                && r == ClickOutcome::Unresolved,
            !right_just_pressed ==> *final(self) == *old(self) && r == ClickOutcome::NotPressed,
    {
        if right_just_pressed {
            match world_coords {
                Some(coords) => {
                    self.point = coords;
                    ClickOutcome::Updated
                },
                None => ClickOutcome::Unresolved,
            }
        } else {
            ClickOutcome::NotPressed
        }
    }
}

} // verus!
