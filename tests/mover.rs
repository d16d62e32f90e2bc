use click_to_move::geometry::{isqrt, Point};
use click_to_move::mover::{calc_next_pos, clamp_axis, move_rectangle, Rectangle};
use click_to_move::tracker::MouseClickLoc;

fn step_n(target: Point, mut pos: Point, speed: u32, n: usize) -> Point {
    for _ in 0..n {
        pos = calc_next_pos(target, pos, speed);
    }
    pos
}

#[test]
fn straight_line_reaches_target_in_two_steps() {
    let target = Point::new(10, 0);
    let start = Point::new(0, 0);
    let one = calc_next_pos(target, start, 5);
    assert_eq!(one, Point::new(5, 0));
    let two = calc_next_pos(target, one, 5);
    assert_eq!(two, Point::new(10, 0));
    let three = calc_next_pos(target, two, 5);
    assert_eq!(three, Point::new(10, 0));
}

#[test]
fn step_equal_to_distance_lands_exactly() {
    let r = calc_next_pos(Point::new(3, 4), Point::new(0, 0), 5);
    assert_eq!(r, Point::new(3, 4));
}

#[test]
fn vertical_target_needs_no_division_by_zero() {
    let target = Point::new(0, 10);
    let r = calc_next_pos(target, Point::new(0, 0), 4);
    assert_eq!(r, Point::new(0, 4));
    assert_eq!(step_n(target, Point::new(0, 0), 4, 3), target);
}

#[test]
fn negative_direction_moves_down_and_left() {
    let target = Point::new(-30, -40);
    let r = calc_next_pos(target, Point::new(0, 0), 10);
    assert_eq!(r, Point::new(-6, -8));
    assert_eq!(step_n(target, Point::new(0, 0), 10, 5), target);
}

#[test]
fn diagonal_step_rounds_away_from_start() {
    // distance sqrt(2) rounds down to 1, so each axis moves its whole gap
    let r = calc_next_pos(Point::new(1, 1), Point::new(0, 0), 1);
    assert_eq!(r, Point::new(1, 1));
    // distance 5 to (4, 3); one unit of speed moves ceil(4/5) and ceil(3/5)
    let r = calc_next_pos(Point::new(4, 3), Point::new(0, 0), 1);
    assert_eq!(r, Point::new(1, 1));
}

#[test]
fn converges_within_rounded_up_distance_over_speed() {
    let cases = [
        (Point::new(0, 0), Point::new(100, 37), 7u32),
        (Point::new(-50, 20), Point::new(13, -90), 3u32),
        (Point::new(5, 5), Point::new(6, 1000), 9u32),
        (Point::new(0, 0), Point::new(1, 0), 1u32),
    ];
    for (start, target, speed) in cases {
        let dx = (target.x as f64) - (start.x as f64);
        let dy = (target.y as f64) - (start.y as f64);
        let frames = ((dx * dx + dy * dy).sqrt() / speed as f64).ceil() as usize;
        let mut pos = start;
        for _ in 0..frames {
            let next = calc_next_pos(target, pos, speed);
            assert!((target.x - next.x).abs() <= (target.x - pos.x).abs());
            assert!((target.y - next.y).abs() <= (target.y - pos.y).abs());
            pos = next;
        }
        assert_eq!(pos, target);
    }
}

#[test]
fn target_is_terminal() {
    let t = Point::new(-7, 12);
    assert_eq!(step_n(t, t, 5, 10), t);
}

#[test]
fn zero_speed_never_moves() {
    let r = calc_next_pos(Point::new(10, 10), Point::new(0, 0), 0);
    assert_eq!(r, Point::new(0, 0));
}

#[test]
fn extreme_coordinates_do_not_overflow() {
    let lo = Point::new(i32::MIN, i32::MIN);
    let hi = Point::new(i32::MAX, i32::MAX);
    // the diagonal is about 6.07e9 long, longer than the largest speed
    let r = calc_next_pos(hi, lo, u32::MAX);
    assert_eq!(r, Point::new(889_516_852, 889_516_852));
    assert_eq!(calc_next_pos(hi, r, u32::MAX), hi);
    let r = calc_next_pos(lo, hi, 1_000_000);
    assert_eq!(r, Point::new(i32::MAX - 707_107, i32::MAX - 707_107));
}

#[test]
fn clamp_axis_snaps_only_past_the_target() {
    assert_eq!(clamp_axis(0, 10, 12), 10);
    assert_eq!(clamp_axis(0, 10, 7), 7);
    assert_eq!(clamp_axis(10, 0, -3), 0);
    assert_eq!(clamp_axis(10, 0, 4), 4);
    assert_eq!(clamp_axis(5, 5, 9), 5);
}

#[test]
fn isqrt_rounds_down() {
    assert_eq!(isqrt(0), 0);
    assert_eq!(isqrt(1), 1);
    assert_eq!(isqrt(24), 4);
    assert_eq!(isqrt(25), 5);
    assert_eq!(isqrt(26), 5);
    let big: u128 = 2 * (u32::MAX as u128) * (u32::MAX as u128);
    let r = isqrt(big);
    assert!(r * r <= big && (r + 1) * (r + 1) > big);
}

#[test]
fn move_rectangle_stays_on_target() {
    let loc = MouseClickLoc { point: Point::new(3, 3) };
    let rect = Rectangle::new(5);
    assert_eq!(move_rectangle(&loc, &rect, Point::new(3, 3)), Point::new(3, 3));
    assert_eq!(move_rectangle(&loc, &rect, Point::new(3, 13)), Point::new(3, 8));
}
