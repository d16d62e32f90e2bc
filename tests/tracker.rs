use click_to_move::geometry::Point;
use click_to_move::scene::Scene;
use click_to_move::tracker::{ClickOutcome, MouseClickLoc};

#[test]
fn tracker_starts_at_origin() {
    assert_eq!(MouseClickLoc::new().point, Point::new(0, 0));
}

#[test]
fn click_updates_target() {
    let mut loc = MouseClickLoc::new();
    let r = loc.mouse_click(true, Some(Point::new(40, -2)));
    assert_eq!(r, ClickOutcome::Updated);
    assert_eq!(loc.point, Point::new(40, -2));
}

#[test]
fn unresolved_click_keeps_target() {
    let mut loc = MouseClickLoc { point: Point::new(1, 2) };
    let r = loc.mouse_click(true, None);
    assert_eq!(r, ClickOutcome::Unresolved);
    assert_eq!(loc.point, Point::new(1, 2));
}

#[test]
fn held_button_does_nothing() {
    let mut loc = MouseClickLoc { point: Point::new(1, 2) };
    let r = loc.mouse_click(false, Some(Point::new(9, 9)));
    assert_eq!(r, ClickOutcome::NotPressed);
    assert_eq!(loc.point, Point::new(1, 2));
}

#[test]
fn scene_handles_click_before_moving() {
    let mut scene = Scene::new(5);
    assert_eq!(scene.frame(true, Some(Point::new(10, 0))), ClickOutcome::Updated);
    assert_eq!(scene.position, Point::new(5, 0));
    assert_eq!(scene.frame(false, None), ClickOutcome::NotPressed);
    assert_eq!(scene.position, Point::new(10, 0));
    assert_eq!(scene.frame(true, None), ClickOutcome::Unresolved);
    assert_eq!(scene.position, Point::new(10, 0));
    assert_eq!(scene.mouse_loc.point, Point::new(10, 0));
}
