use vstd::prelude::*;
use crate::geometry::Point;
use crate::mover::{Rectangle, move_rectangle, next_pos};
use crate::tracker::{ClickOutcome, MouseClickLoc};

verus! {

/// Everything one frame reads and writes: the click target, the sprite and
/// where the sprite stands.
#[derive(Clone, Copy, Debug, PartialEq, Eq, Structural)]
pub struct Scene {
    pub mouse_loc: MouseClickLoc,
    pub rectangle: Rectangle,
    pub position: Point,
}

impl Scene {
    /// Idle: the sprite stands on the target. Otherwise it is moving.
    pub open spec fn is_idle(&self) -> bool {
        self.position == self.mouse_loc.point
    }

    /// A scene with the target and the sprite both at the origin.
    pub fn new(speed: u32) -> (r: Scene)
        ensures
            r.rectangle.speed == speed,
            r.position.x == 0 && r.position.y == 0,
            r.mouse_loc.point.x == 0 && r.mouse_loc.point.y == 0,
            r.is_idle(),
    {
        Scene { mouse_loc: MouseClickLoc::new(), rectangle: Rectangle::new(speed), position: Point::origin() }
    }

    /// Runs one frame: the click is handled first, then the sprite moves
    /// toward the target as it stands after the click.
    pub fn frame(&mut self, right_just_pressed: bool, world_coords: Option<Point>) -> (r: ClickOutcome)
        ensures
            final(self).rectangle == old(self).rectangle,
            final(self).mouse_loc.point == (if right_just_pressed && world_coords.is_some() {
                world_coords.unwrap()
            } else {
                old(self).mouse_loc.point
            }),
            final(self).position == next_pos(
                final(self).mouse_loc.point,
                old(self).position,
                old(self).rectangle.speed as int,
            ),
            r == (if !right_just_pressed {
                ClickOutcome::NotPressed
            } else if world_coords.is_some() {
                ClickOutcome::Updated
            } else {
                ClickOutcome::Unresolved
            }),
    {
        let r = self.mouse_loc.mouse_click(right_just_pressed, world_coords);
        self.position = move_rectangle(&self.mouse_loc, &self.rectangle, self.position);
        r
    }
}

} // verus!
