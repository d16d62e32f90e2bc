use vstd::prelude::*;
use vstd::arithmetic::div_mod::lemma_fundamental_div_mod;
use crate::tracker::MouseClickLoc;
use crate::geometry::{Point, abs, dist_sq, floor_sqrt, is_floor_sqrt, lemma_floor_sqrt, isqrt};

verus! {

/// A sprite that walks toward the click target at a fixed speed, in world
/// units per frame.
#[derive(Clone, Copy, Debug, PartialEq, Eq, Structural)]
pub struct Rectangle {
    pub speed: u32,
}

impl Rectangle {
    pub fn new(speed: u32) -> (r: Rectangle)
        ensures
            r.speed == speed,
    {
        Rectangle { speed }
    }
}

/// Where one axis ends up after a step: a candidate that moved past the
/// target, away from the current coordinate, snaps to the target.
pub open spec fn clamped(cur: int, target: int, next: int) -> int {
    if (next < cur && next < target) || (next > cur && next > target) {
        target
    } else {
        next
    }
}

/// `x / d` rounded up, for a positive `d`.
pub open spec fn ceil_div(x: int, d: int) -> int {
    (x + d - 1) / d
}

/// One axis of the unclamped step: the axis's share `|delta| / len` of the
/// direction toward the target, scaled by `speed` and rounded away from the
/// current coordinate, so that the whole step is at least `speed` long.
pub open spec fn candidate(cur: int, target: int, speed: int, len: int) -> int {
    if target > cur {
        cur + ceil_div((target - cur) * speed, len)
    } else if target < cur {
        cur - ceil_div((cur - target) * speed, len)
    } else {
        cur
    }
}

/// One axis of the clamped step.
pub open spec fn advance(cur: int, target: int, speed: int, len: int) -> int {
    clamped(cur, target, candidate(cur, target, speed, len))
}

/// The distance to the target, rounded down to whole units.
pub open spec fn step_len(target: Point, pos: Point) -> int {
    floor_sqrt(dist_sq(target, pos) as nat) as int
}

/// The position after one frame: unchanged at the target, else one clamped
/// step of length `speed` toward it.
pub open spec fn next_pos(target: Point, pos: Point, speed: int) -> Point {
    if pos == target {
        pos
    } else {
        let len = step_len(target, pos);
        Point {
            x: advance(pos.x as int, target.x as int, speed, len) as i32,
            y: advance(pos.y as int, target.y as int, speed, len) as i32,
        }
    }
}

/// The position after `n` frames.
pub open spec fn after_steps(target: Point, pos: Point, speed: int, n: nat) -> Point
    decreases n,
{
    if n == 0 {
        pos
    } else {
        after_steps(target, next_pos(target, pos, speed), speed, (n - 1) as nat)
    }
}

/// Clamps one axis of a candidate position so that it never crosses the target.
pub fn clamp_axis(cur: i64, target: i64, next: i64) -> (r: i64)
    ensures
        r as int == clamped(cur as int, target as int, next as int),
{
    if (next < cur && next < target) || (next > cur && next > target) {
        target
    } else {
        next
    }
}

proof fn lemma_ceil_div(x: int, d: int)
    requires
        x >= 0,
        d > 0,
    ensures
        ceil_div(x, d) * d >= x,
        ceil_div(x, d) >= 0,
{
    lemma_fundamental_div_mod(x + d - 1, d);
    assert(ceil_div(x, d) >= 0) by (nonlinear_arith)
        requires x >= 0, d > 0, ceil_div(x, d) == (x + d - 1) / d;
}

/// One axis of a step stays between the current coordinate and the target;
/// it reaches the target when the rounded distance is at most `speed`, and
/// otherwise shrinks the remaining gap by the factor `(len - speed) / len`.
proof fn lemma_advance(cur: int, target: int, speed: int, len: int)
    requires
        len > 0,
        speed >= 0,
        abs(target - cur) <= len,
    ensures
        ({
            let r = advance(cur, target, speed, len);
            &&& (cur <= target ==> cur <= r <= target)
            &&& (target <= cur ==> target <= r <= cur)
            &&& (len <= speed ==> r == target)
            &&& (len > speed ==> abs(target - r) * len <= abs(target - cur) * (len - speed))
        }),
{
    if target > cur {
        let a = target - cur;
        let q = ceil_div(a * speed, len);
        assert(a * speed >= 0) by (nonlinear_arith)
            requires a > 0, speed >= 0;
        lemma_ceil_div(a * speed, len);
        if len <= speed {
            assert(q >= a) by (nonlinear_arith)
                requires q * len >= a * speed, len <= speed, len > 0, a > 0;
        } else {
            assert(a * (len - speed) >= 0) by (nonlinear_arith)
                requires a > 0, len > speed;
        }
        if len > speed && q < a {
            assert((a - q) * len <= a * (len - speed)) by (nonlinear_arith)
                requires q * len >= a * speed;
        }
    } else if target < cur {
        let a = cur - target;
        let q = ceil_div(a * speed, len);
        assert(a * speed >= 0) by (nonlinear_arith)
            requires a > 0, speed >= 0;
        lemma_ceil_div(a * speed, len);
        if len <= speed {
            assert(q >= a) by (nonlinear_arith)
                requires q * len >= a * speed, len <= speed, len > 0, a > 0;
        } else {
            assert(a * (len - speed) >= 0) by (nonlinear_arith)
                requires a > 0, len > speed;
        }
        if len > speed && q < a {
            assert((a - q) * len <= a * (len - speed)) by (nonlinear_arith)
                requires q * len >= a * speed;
        }
    } else {
        assert(0 * len == 0 && 0 * (len - speed) == 0);
    }
}

proof fn lemma_abs_sq(v: int)
    ensures
        abs(v) * abs(v) == v * v,
        abs(v) >= 0,
{
    if v < 0 {
        assert((-v) * (-v) == v * v) by (nonlinear_arith);
    }
}

/// Facts about the rounded distance of two distinct points.
proof fn lemma_step_len(target: Point, pos: Point)
    requires
        pos != target,
    ensures
        step_len(target, pos) > 0,
        abs(target.x - pos.x) <= step_len(target, pos),
        abs(target.y - pos.y) <= step_len(target, pos),
        step_len(target, pos) * step_len(target, pos) <= dist_sq(target, pos),
{
    let dx = target.x - pos.x;
    let dy = target.y - pos.y;
    lemma_abs_sq(dx);
    lemma_abs_sq(dy);
    assert(dx * dx >= 0 && dy * dy >= 0) by (nonlinear_arith);
    let n = dist_sq(target, pos) as nat;
    lemma_floor_sqrt(n);
    let l = step_len(target, pos);
    assert(is_floor_sqrt(n, l as nat));
    if l == 0 {
        assert(dx * dx + dy * dy < 1);
        assert(dx == 0) by (nonlinear_arith)
            requires dx * dx + dy * dy < 1, dy * dy >= 0;
        assert(dy == 0) by (nonlinear_arith)
            requires dx * dx + dy * dy < 1, dx * dx >= 0;
        assert(false);
    }
    let a = abs(dx);
    let b = abs(dy);
    assert(a <= l) by (nonlinear_arith)
        requires a * a <= n, n < (l + 1) * (l + 1), a >= 0, l >= 0;
    assert(b <= l) by (nonlinear_arith)
        requires b * b <= n, n < (l + 1) * (l + 1), b >= 0, l >= 0;
}

/// Each axis of a frame's step ends between the current coordinate and the
/// target, so no step ever moves away from the target on either axis.
pub proof fn lemma_step_never_recedes(target: Point, pos: Point, speed: int)
    requires
        speed >= 0,
    ensures
        ({
            let next = next_pos(target, pos, speed);
            &&& (pos.x <= target.x ==> pos.x <= next.x <= target.x)
            &&& (target.x <= pos.x ==> target.x <= next.x <= pos.x)
            &&& (pos.y <= target.y ==> pos.y <= next.y <= target.y)
            &&& (target.y <= pos.y ==> target.y <= next.y <= pos.y)
            &&& abs(target.x - next.x) <= abs(target.x - pos.x)
            &&& abs(target.y - next.y) <= abs(target.y - pos.y)
        }),
{
    if pos != target {
        let len = step_len(target, pos);
        lemma_step_len(target, pos);
        lemma_advance(pos.x as int, target.x as int, speed, len);
        lemma_advance(pos.y as int, target.y as int, speed, len);
    }
}

/// One axis of the clamped step, with `len` the rounded distance to the target.
fn advance_axis(cur: i32, target: i32, speed: u32, len: u128) -> (r: i32)
    requires
        len > 0,
        len < 0x4_0000_0000,
        abs(target - cur) <= len,
    ensures
        r as int == advance(cur as int, target as int, speed as int, len as int),
{
    proof {
        lemma_advance(cur as int, target as int, speed as int, len as int);
    }
    if target == cur {
        return cur;
    }
    let a: u128 = if target > cur {
        (target as i64 - cur as i64) as u128
    } else {
        (cur as i64 - target as i64) as u128
    };
    assert(a * (speed as u128) <= 0x1_0000_0000 * 0x1_0000_0000) by (nonlinear_arith)
        requires a <= 0x1_0000_0000, speed <= 0xffff_ffff;
    let num: u128 = a * (speed as u128) + (len - 1);
    let q: u128 = num / len;
    assert(q <= speed as u128 + 1) by (nonlinear_arith)
        requires
            num == a * speed + len - 1,
            q == num / len,
            a <= len,
            len > 0,
    {
        assert(a * speed <= len * speed) by (nonlinear_arith)
            requires a <= len, speed >= 0;
        assert(len * (speed + 1) == len * speed + len) by (nonlinear_arith);
    }
    let next: i64 = if target > cur {
        cur as i64 + q as i64
    } else {
        cur as i64 - q as i64
    };
    let r = clamp_axis(cur as i64, target as i64, next);
    r as i32
}

/// The position after one frame of moving from `current_loc` toward
/// `click_loc` at `speed` units per frame, never past the target on either axis.
pub fn calc_next_pos(click_loc: Point, current_loc: Point, speed: u32) -> (r: Point)
    ensures
        r == next_pos(click_loc, current_loc, speed as int),
        abs(click_loc.x - r.x) <= abs(click_loc.x - current_loc.x),
        abs(click_loc.y - r.y) <= abs(click_loc.y - current_loc.y),
{
    proof {
        lemma_step_never_recedes(click_loc, current_loc, speed as int);
    }
    if current_loc == click_loc {
        return current_loc;
    }
    let dx: i128 = click_loc.x as i128 - current_loc.x as i128;
    let dy: i128 = click_loc.y as i128 - current_loc.y as i128;
    assert(dx * dx <= 0x1_0000_0000 * 0x1_0000_0000) by (nonlinear_arith)
        requires -0x1_0000_0000 <= dx <= 0x1_0000_0000;
    assert(dy * dy <= 0x1_0000_0000 * 0x1_0000_0000) by (nonlinear_arith)
        requires -0x1_0000_0000 <= dy <= 0x1_0000_0000;
    assert(dx * dx >= 0 && dy * dy >= 0) by (nonlinear_arith);
    let n: u128 = (dx * dx + dy * dy) as u128;
    assert(n as int == dist_sq(click_loc, current_loc));
    let len = isqrt(n);
    proof {
        lemma_step_len(click_loc, current_loc);
    }
    Point {
        x: advance_axis(current_loc.x, click_loc.x, speed, len),
        y: advance_axis(current_loc.y, click_loc.y, speed, len),
    }
}

proof fn lemma_dist_sq_zero(target: Point, pos: Point)
    requires
        dist_sq(target, pos) <= 0,
    ensures
        pos == target,
{
    let dx = target.x - pos.x;
    let dy = target.y - pos.y;
    assert(dx * dx >= 0 && dy * dy >= 0) by (nonlinear_arith);
    assert(dx == 0) by (nonlinear_arith)
        requires dx * dx + dy * dy <= 0, dy * dy >= 0;
    assert(dy == 0) by (nonlinear_arith)
        requires dx * dx + dy * dy <= 0, dx * dx >= 0;
}

/// A frame that starts within `n * speed` of the target ends within
/// `(n - 1) * speed` of it.
proof fn lemma_step_progress(target: Point, pos: Point, speed: int, n: int)
    requires
        speed >= 0,
        n >= 1,
        dist_sq(target, pos) <= (n * speed) * (n * speed),
    ensures
        dist_sq(target, next_pos(target, pos, speed)) <= ((n - 1) * speed) * ((n - 1) * speed),
{
    let m = (n - 1) * speed;
    assert(m * m >= 0) by (nonlinear_arith);
    if pos == target {
        let dx = target.x - pos.x;
        let dy = target.y - pos.y;
        assert(dx * dx + dy * dy == 0) by (nonlinear_arith)
            requires dx == 0, dy == 0;
    } else {
        let next = next_pos(target, pos, speed);
        let l = step_len(target, pos);
        lemma_step_len(target, pos);
        lemma_advance(pos.x as int, target.x as int, speed, l);
        lemma_advance(pos.y as int, target.y as int, speed, l);
        let a = abs(target.x - pos.x);
        let b = abs(target.y - pos.y);
        let a2 = abs(target.x - next.x);
        let b2 = abs(target.y - next.y);
        lemma_abs_sq(target.x - pos.x);
        lemma_abs_sq(target.y - pos.y);
        lemma_abs_sq(target.x - next.x);
        lemma_abs_sq(target.y - next.y);
        let d = dist_sq(target, pos);
        let d2 = dist_sq(target, next);
        assert(d == a * a + b * b);
        assert(d2 == a2 * a2 + b2 * b2);
        if l <= speed {
            assert(a2 == 0 && b2 == 0);
            assert(d2 == 0) by (nonlinear_arith)
                requires a2 == 0, b2 == 0, d2 == a2 * a2 + b2 * b2;
        } else {
            let k = l - speed;
            assert(a2 * l <= a * k && b2 * l <= b * k);
            assert((a2 * l) * (a2 * l) <= (a * k) * (a * k)) by (nonlinear_arith)
                requires 0 <= a2 * l <= a * k, a2 >= 0, l > 0;
            assert((b2 * l) * (b2 * l) <= (b * k) * (b * k)) by (nonlinear_arith)
                requires 0 <= b2 * l <= b * k, b2 >= 0, l > 0;
            assert(l * l * d2 == (a2 * l) * (a2 * l) + (b2 * l) * (b2 * l)) by (nonlinear_arith)
                requires d2 == a2 * a2 + b2 * b2;
            assert(d * (k * k) == (a * k) * (a * k) + (b * k) * (b * k)) by (nonlinear_arith)
                requires d == a * a + b * b;
            assert(l <= n * speed) by (nonlinear_arith)
                requires l * l <= d, d <= (n * speed) * (n * speed), l > 0, n >= 1, speed >= 0;
            assert(n * k <= (n - 1) * l) by (nonlinear_arith)
                requires l <= n * speed, k == l - speed;
            assert((n * k) * (n * k) <= ((n - 1) * l) * ((n - 1) * l)) by (nonlinear_arith)
                requires 0 <= n * k <= (n - 1) * l, k > 0, n >= 1;
            assert(d * (k * k) <= (n * speed) * (n * speed) * (k * k)) by (nonlinear_arith)
                requires d <= (n * speed) * (n * speed);
            assert(l * l * d2 <= l * l * (m * m)) by (nonlinear_arith)
                requires
                    l * l * d2 <= d * (k * k),
                    d * (k * k) <= (n * speed) * (n * speed) * (k * k),
                    (n * k) * (n * k) <= ((n - 1) * l) * ((n - 1) * l),
                    m == (n - 1) * speed,
                    speed >= 0;
            assert(d2 <= m * m) by (nonlinear_arith)
                requires l * l * d2 <= l * l * (m * m), l > 0;
        }
    }
}

/// Starting anywhere, the sprite stands exactly on the target after `n`
/// frames once `n * speed` covers the distance; the least such `n` is the
/// distance divided by the speed, rounded up.
pub proof fn lemma_reaches_target(target: Point, pos: Point, speed: int, n: nat)
    requires
        speed >= 0,
        dist_sq(target, pos) <= (n * speed) * (n * speed),
    ensures
        after_steps(target, pos, speed, n) == target,
    decreases n,
{
    if n == 0 {
        assert((n * speed) * (n * speed) == 0) by (nonlinear_arith)
            requires n == 0;
        lemma_dist_sq_zero(target, pos);
        assert(after_steps(target, pos, speed, 0) == pos);
    } else {
        lemma_step_progress(target, pos, speed, n as int);
        lemma_reaches_target(target, next_pos(target, pos, speed), speed, (n - 1) as nat);
    }
}

/// Once the sprite stands on the target, every further frame leaves it there.
pub proof fn lemma_target_is_terminal(target: Point, speed: int, n: nat)
    ensures
        next_pos(target, target, speed) == target,
        after_steps(target, target, speed, n) == target,
    decreases n,
{
    if n > 0 {
        lemma_target_is_terminal(target, speed, (n - 1) as nat);
    }
}

/// One frame of the mover: the sprite at `translation` stays put when it is
/// on the click target and otherwise takes one clamped step toward it.
pub fn move_rectangle(mouse_loc: &MouseClickLoc, rectangle: &Rectangle, translation: Point) -> (r: Point)
    ensures
        r == next_pos(mouse_loc.point, translation, rectangle.speed as int),
        translation == mouse_loc.point ==> r == translation,
{
    if translation.x != mouse_loc.point.x || translation.y != mouse_loc.point.y {
        calc_next_pos(mouse_loc.point, translation, rectangle.speed)
    } else {
        translation
    }
}

} // verus!
