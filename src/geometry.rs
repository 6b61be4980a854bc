use vstd::prelude::*;

verus! {

/// Largest absolute value of a coordinate, a velocity or an acceleration.
/// Values that would leave this range stop at its edge.
pub const LIMIT: i64 = 1_000_000_000_000;

/// A point or a direction in the plane, in integer units.
#[derive(Clone, Copy, Debug, PartialEq, Eq, Structural)]
pub struct Vec2 {
    pub x: i64,
    pub y: i64,
}

/// Bound on the dividends that `div_floor` accepts.
pub const DIV_RANGE: i128 = 0x4000_0000_0000_0000_0000_0000_0000_0000;

/// `v` lies in the square of half-width `LIMIT`.
pub open spec fn in_bounds(v: Vec2) -> bool {
    -LIMIT <= v.x <= LIMIT && -LIMIT <= v.y <= LIMIT
}

/// Squared Euclidean distance between `a` and `b`.
pub open spec fn sq_dist(a: Vec2, b: Vec2) -> int {
    (a.x - b.x) * (a.x - b.x) + (a.y - b.y) * (a.y - b.y)
}

/// `r` is the integer square root of `n`, rounded down.
pub open spec fn is_floor_sqrt(n: int, r: int) -> bool {
    0 <= r && r * r <= n && n < (r + 1) * (r + 1)
}

/// The integer square root of `n`, rounded down (`n >= 0`).
pub open spec fn floor_sqrt(n: int) -> int {
    choose|r: int| is_floor_sqrt(n, r)
}

/// `a / b` rounded towards negative infinity, for `b > 0`.
pub open spec fn floor_div(a: int, b: int) -> int {
    a / b
}

/// `v` moved into `[-LIMIT, LIMIT]`.
pub open spec fn clamp_spec(v: int) -> int {
    if v < -LIMIT {
        -LIMIT as int
    } else if v > LIMIT {
        LIMIT as int
    } else {
        v
    }
}

/// The floor square root is unique.
pub proof fn lemma_floor_sqrt_unique(n: int, r: int)
    requires
        is_floor_sqrt(n, r),
    ensures
        floor_sqrt(n) == r,
{
    let s = floor_sqrt(n);
    assert(is_floor_sqrt(n, s));
    if s < r {
        assert((s + 1) * (s + 1) <= r * r) by (nonlinear_arith)
            requires 0 <= s, s + 1 <= r;
    } else if s > r {
        assert((r + 1) * (r + 1) <= s * s) by (nonlinear_arith)
            requires 0 <= r, r + 1 <= s;
    }
}

/// Integer square root of `n`, rounded down.
pub fn isqrt(n: u128) -> (r: u128)
    requires
        n < 0x1_0000_0000_0000_0000_0000_0000u128,
    ensures
        is_floor_sqrt(n as int, r as int),
        r == floor_sqrt(n as int),
        r < 0x1_0000_0000_0000u128,
        n > 0 ==> r > 0,
{
    let mut lo: u128 = 0;
    let mut hi: u128 = 0x1_0000_0000_0000u128;
    assert(hi * hi == 0x1_0000_0000_0000_0000_0000_0000u128) by (nonlinear_arith)
        requires hi == 0x1_0000_0000_0000u128;
    while hi - lo > 1
        invariant
            lo < hi <= 0x1_0000_0000_0000u128,
            lo * lo <= n,
            n < hi * hi,
        decreases hi - lo,
    {
        let mid: u128 = lo + (hi - lo) / 2;
        assert(mid * mid <= 0x1_0000_0000_0000_0000_0000_0000u128) by (nonlinear_arith)
            requires mid <= 0x1_0000_0000_0000u128;
        if mid * mid <= n {
            lo = mid;
        } else {
            hi = mid;
        }
    }
    assert(hi == lo + 1);
    proof {
        lemma_floor_sqrt_unique(n as int, lo as int);
        if lo == 0 {
            assert(hi * hi == 1) by (nonlinear_arith) requires hi == 1u128;
        }
    }
    lo
}

/// `v` moved into `[-LIMIT, LIMIT]`.
pub fn clamp(v: i128) -> (r: i64)
    ensures
        r == clamp_spec(v as int),
{
    if v < -(LIMIT as i128) {
        -LIMIT
    } else if v > LIMIT as i128 {
        LIMIT
    } else {
        v as i64
    }
}

/// `a / b` rounded towards negative infinity.
pub fn div_floor(a: i128, b: i128) -> (r: i128)
    requires
        b > 0,
        -DIV_RANGE <= a <= DIV_RANGE,
    ensures
        r == floor_div(a as int, b as int),
        a >= 0 ==> 0 <= r <= a,
        a < 0 ==> a <= r < 0,
{
    proof {
        let q = a as int / b as int;
        let m = a as int % b as int;
        vstd::arithmetic::div_mod::lemma_fundamental_div_mod(a as int, b as int);
        assert((a >= 0 ==> 0 <= q <= a) && (a < 0 ==> a <= q < 0)) by (nonlinear_arith)
            requires
                a == b * q + m,
                0 <= m < b,
                b >= 1,
                -DIV_RANGE <= a <= DIV_RANGE,
        ;
    }
    a.checked_div_euclid(b).unwrap()
}

/// Squared distance between two points of the bounded square.
pub fn sq_distance(a: Vec2, b: Vec2) -> (r: u128)
    requires
        in_bounds(a),
        in_bounds(b),
    ensures
        r == sq_dist(a, b),
        r <= 8_000_000_000_000_000_000_000_000u128,
{
    let dx: i128 = a.x as i128 - b.x as i128;
    let dy: i128 = a.y as i128 - b.y as i128;
    assert(dx * dx <= 4_000_000_000_000_000_000_000_000 && dx * dx >= 0) by (nonlinear_arith)
        requires -2_000_000_000_000 <= dx <= 2_000_000_000_000;
    assert(dy * dy <= 4_000_000_000_000_000_000_000_000 && dy * dy >= 0) by (nonlinear_arith)
        requires -2_000_000_000_000 <= dy <= 2_000_000_000_000;
    (dx * dx + dy * dy) as u128
}

} // verus!
