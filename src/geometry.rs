use vstd::prelude::*;

verus! {

/// A point in world space, in whole world units.
#[derive(Clone, Copy, Debug, PartialEq, Eq, Structural)]
pub struct Point {
    pub x: i32,
    pub y: i32,
}

impl Point {
    pub fn new(x: i32, y: i32) -> (r: Point)
        ensures
            r.x == x,
            r.y == y,
    {
        Point { x, y }
    }

    /// The origin, where the click target starts.
    pub fn origin() -> (r: Point)
        ensures
            r.x == 0,
            r.y == 0,
    {
        Point { x: 0, y: 0 }
    }
}

pub open spec fn abs(v: int) -> int {
    if v < 0 {
        -v
    } else {
        v
    }
}

/// The squared Euclidean distance between two points.
pub open spec fn dist_sq(a: Point, b: Point) -> int {
    (a.x - b.x) * (a.x - b.x) + (a.y - b.y) * (a.y - b.y)
}

/// The largest root not above `r` whose square is at most `n`.
pub open spec fn sqrt_at_most(n: nat, r: nat) -> nat
    decreases r,
{
    if r * r <= n || r == 0 {
        r
    } else {
        sqrt_at_most(n, (r - 1) as nat)
    }
}

/// The integer square root: the largest `r` with `r * r <= n`.
pub open spec fn floor_sqrt(n: nat) -> nat {
    sqrt_at_most(n, n)
}

/// A root is the floor square root exactly when it brackets `n`.
pub open spec fn is_floor_sqrt(n: nat, r: nat) -> bool {
    r * r <= n && n < (r + 1) * (r + 1)
}

proof fn lemma_sqrt_at_most(n: nat, r: nat)
    requires
        n < (r + 1) * (r + 1),
    ensures
        is_floor_sqrt(n, sqrt_at_most(n, r)),
    decreases r,
{
    if r * r <= n {
    } else if r == 0 {
        assert(r * r == 0) by (nonlinear_arith)
            requires r == 0;
    } else {
        let p = (r - 1) as nat;
        assert(n < (p + 1) * (p + 1));
        lemma_sqrt_at_most(n, p);
    }
}

proof fn lemma_floor_sqrt_unique(n: nat, r1: nat, r2: nat)
    requires
        is_floor_sqrt(n, r1),
        is_floor_sqrt(n, r2),
    ensures
        r1 == r2,
{
    if r1 < r2 {
        assert((r1 + 1) * (r1 + 1) <= r2 * r2) by (nonlinear_arith)
            requires r1 + 1 <= r2;
    } else if r2 < r1 {
        assert((r2 + 1) * (r2 + 1) <= r1 * r1) by (nonlinear_arith)
            requires r2 + 1 <= r1;
    }
}

/// `floor_sqrt` is the one root that brackets its argument.
pub proof fn lemma_floor_sqrt(n: nat)
    ensures
        is_floor_sqrt(n, floor_sqrt(n)),
        forall|r: nat| is_floor_sqrt(n, r) ==> r == floor_sqrt(n),
{
    assert(n < (n + 1) * (n + 1)) by (nonlinear_arith);
    lemma_sqrt_at_most(n, n);
    assert forall|r: nat| is_floor_sqrt(n, r) implies r == floor_sqrt(n) by {
        lemma_floor_sqrt_unique(n, r, floor_sqrt(n));
    }
}

/// Integer square root by bisection.
pub fn isqrt(n: u128) -> (r: u128)
    requires
        n < 0x4_0000_0000_0000_0000,
    ensures
        r as nat == floor_sqrt(n as nat),
        r < 0x2_0000_0000,
{
    let mut lo: u128 = 0;
    let mut hi: u128 = 0x2_0000_0000;
    assert(hi * hi == 0x4_0000_0000_0000_0000);
    while lo + 1 < hi
        invariant
            lo < hi,
            hi <= 0x2_0000_0000,
            lo * lo <= n,
            n < hi * hi,
        decreases hi - lo,
    {
        let mid: u128 = lo + (hi - lo) / 2;
        assert(mid * mid <= 0x2_0000_0000 * 0x2_0000_0000) by (nonlinear_arith)
            requires mid <= 0x2_0000_0000;
        if mid * mid <= n {
            lo = mid;
        } else {
            hi = mid;
        }
    }
    proof {
        assert(hi == lo + 1);
        lemma_floor_sqrt(n as nat);
        assert(is_floor_sqrt(n as nat, lo as nat));
    }
    lo
}

} // verus!
