//! Fixed-point plane geometry: positions, circle-overlap tests, integer
//! square roots and approximate unit vectors.
//!
//! A world unit (one pixel of the game's art) is `COORD_UNIT` coordinate
//! steps. Directions are scaled by `DIR_ONE` (a unit vector has components
//! in `-DIR_ONE ..= DIR_ONE`), and scalar magnitudes by `SCALAR_ONE`, so
//! that a knockback displacement `direction * strength` lands back in
//! coordinate steps with no rounding at all.

use vstd::prelude::*;

verus! {

/// Coordinate steps per world unit.
pub const COORD_UNIT: i64 = 25600;

/// Scale of direction vectors: a unit direction has length `DIR_ONE`.
pub const DIR_ONE: i64 = 256;

/// Scale of scalar magnitudes: `SCALAR_ONE` is 1.0 point.
pub const SCALAR_ONE: i64 = 100;

/// Positions live in `-POS_LIMIT ..= POS_LIMIT` on each axis.
pub const POS_LIMIT: i64 = 0x4000_0000;

/// The largest single-tick displacement any system produces.
pub const DISP_LIMIT: i64 = 0x1_0000_0000;

#[derive(Clone, Copy, PartialEq, Eq, Structural, Debug)]
pub struct Vec2 {
    pub x: i64,
    pub y: i64,
}

impl Vec2 {
    pub open spec fn in_world(self) -> bool {
        -POS_LIMIT <= self.x <= POS_LIMIT && -POS_LIMIT <= self.y <= POS_LIMIT
    }

    pub fn new(x: i64, y: i64) -> (r: Vec2)
        ensures
            r.x == x && r.y == y,
    {
        Vec2 { x, y }
    }
}

/// Squared Euclidean distance between two positions.
pub open spec fn dist_sq(a: Vec2, b: Vec2) -> int {
    (a.x - b.x) * (a.x - b.x) + (a.y - b.y) * (a.y - b.y)
}

/// Truncating division (rounds toward zero), as Rust's `/` does.
pub open spec fn tdiv(a: int, d: int) -> int
    recommends
        d > 0,
{
    if a >= 0 {
        a / d
    } else {
        -((-a) / d)
    }
}

/// Clamp a coordinate into the world range.
pub open spec fn clamp_coord(x: int) -> int {
    if x < -POS_LIMIT {
        -POS_LIMIT as int
    } else if x > POS_LIMIT {
        POS_LIMIT as int
    } else {
        x
    }
}

/// The integer square root: the greatest `r` with `r * r <= n`.
pub open spec fn sqrt_floor(n: nat) -> nat
    decreases n,
{
    if n == 0 {
        0
    } else {
        let r = sqrt_floor((n - 1) as nat);
        if (r + 1) * (r + 1) <= n {
            r + 1
        } else {
            r
        }
    }
}

/// `sqrt_floor(n)` lies between the two consecutive squares around `n`.
pub proof fn lemma_sqrt_floor_bracket(n: nat)
    ensures
        sqrt_floor(n) * sqrt_floor(n) <= n,
        n < (sqrt_floor(n) + 1) * (sqrt_floor(n) + 1),
    decreases n,
{
    if n == 0 {
        assert(sqrt_floor(0nat) == 0);
        assert((sqrt_floor(n) + 1) * (sqrt_floor(n) + 1) == 1) by (nonlinear_arith)
            requires
                sqrt_floor(n) == 0,
        ;
    } else {
        lemma_sqrt_floor_bracket((n - 1) as nat);
        let r = sqrt_floor((n - 1) as nat);
        if (r + 1) * (r + 1) <= n {
            assert(sqrt_floor(n) == r + 1);
            assert((r + 1) * (r + 1) < (r + 2) * (r + 2)) by (nonlinear_arith)
                requires
                    r >= 0,
            ;
            assert(n - 1 < (r + 1) * (r + 1));
            assert(n < (r + 2) * (r + 2));
        } else {
            assert(sqrt_floor(n) == r);
        }
    }
}

/// Any value bracketing `n` between consecutive squares is `sqrt_floor(n)`.
pub proof fn lemma_sqrt_floor_unique(n: nat, r: nat)
    requires
        r * r <= n,
        n < (r + 1) * (r + 1),
    ensures
        r == sqrt_floor(n),
{
    lemma_sqrt_floor_bracket(n);
    let s = sqrt_floor(n);
    if r < s {
        assert((r + 1) * (r + 1) <= s * s) by (nonlinear_arith)
            requires
                0 <= r + 1 <= s,
        ;
    }
    if s < r {
        assert((s + 1) * (s + 1) <= r * r) by (nonlinear_arith)
            requires
                0 <= s + 1 <= r,
        ;
    }
}

/// Integer square root by bisection.
pub fn isqrt(n: u64) -> (r: u64)
    ensures
        r == sqrt_floor(n as nat),
        r <= 0xFFFF_FFFF,
    decreases n,
{
    if n >= 0xFFFF_FFFE_0000_0001 {
        proof {
            assert(0xFFFF_FFFFnat * 0xFFFF_FFFFnat == 0xFFFF_FFFE_0000_0001nat);
            assert(0x1_0000_0000nat * 0x1_0000_0000nat == 0x1_0000_0000_0000_0000nat);
            lemma_sqrt_floor_unique(n as nat, 0xFFFF_FFFFnat);
        }
        return 0xFFFF_FFFF;
    }
    proof {
        assert(0xFFFF_FFFFu64 * 0xFFFF_FFFFu64 == 0xFFFF_FFFE_0000_0001u64);
    }
    let mut lo: u64 = 0;
    let mut hi: u64 = 0xFFFF_FFFF;
    while hi - lo > 1
        invariant
            lo < hi <= 0xFFFF_FFFF,
            lo * lo <= n,
            n < hi * hi,
        decreases hi - lo,
    {
        let mid = lo + (hi - lo) / 2;
        proof {
            assert(mid * mid <= 0xFFFF_FFFFu64 * 0xFFFF_FFFFu64) by (nonlinear_arith)
                requires
                    0 <= mid <= 0xFFFF_FFFFu64,
            ;
            assert(0xFFFF_FFFFu64 * 0xFFFF_FFFFu64 == 0xFFFF_FFFE_0000_0001u64);
        }
        if mid * mid <= n {
            lo = mid;
        } else {
            hi = mid;
        }
    }
    proof {
        lemma_sqrt_floor_unique(n as nat, lo as nat);
    }
    lo
}

/// `|a - b|` for values within twice the world range.
pub fn abs_diff(a: i64, b: i64) -> (r: u64)
    requires
        -2 * POS_LIMIT <= a <= 2 * POS_LIMIT,
        -2 * POS_LIMIT <= b <= 2 * POS_LIMIT,
    ensures
        r == if a >= b {
            a - b
        } else {
            b - a
        },
{
    if a >= b {
        (a - b) as u64
    } else {
        (b - a) as u64
    }
}

/// The floor square root of `dx * dx + dy * dy`, without overflow.
pub fn delta_len(dx: i64, dy: i64) -> (r: u64)
    requires
        -2 * POS_LIMIT <= dx <= 2 * POS_LIMIT,
        -2 * POS_LIMIT <= dy <= 2 * POS_LIMIT,
    ensures
        r == sqrt_floor((dx * dx + dy * dy) as nat),
        r <= 0xFFFF_FFFF,
{
    let ax = abs_diff(dx, 0);
    let ay = abs_diff(dy, 0);
    proof {
        lemma_abs_sq_bound(ax as int, dx as int);
        lemma_abs_sq_bound(ay as int, dy as int);
    }
    isqrt(ax * ax + ay * ay)
}

/// Squaring the absolute value gives the square, bounded by the world range.
proof fn lemma_abs_sq_bound(a: int, c: int)
    requires
        a == c || a == -c,
        -0x8000_0000 <= c <= 0x8000_0000,
    ensures
        a * a == c * c,
        0 <= a * a <= 0x4000_0000_0000_0000,
{
    assert(a * a == c * c) by (nonlinear_arith)
        requires
            a == c || a == -c,
    ;
    let m = if a >= 0 {
        a
    } else {
        -a
    };
    assert(m * m == a * a) by (nonlinear_arith)
        requires
            m == a || m == -a,
    ;
    assert(m * m <= 0x8000_0000 * 0x8000_0000) by (nonlinear_arith)
        requires
            0 <= m <= 0x8000_0000,
    ;
}

/// Squared distance, computed without overflow.
pub fn dist_sq_exec(a: Vec2, b: Vec2) -> (r: u64)
    requires
        a.in_world(),
        b.in_world(),
    ensures
        r == dist_sq(a, b),
{
    let dx = abs_diff(a.x, b.x);
    let dy = abs_diff(a.y, b.y);
    proof {
        lemma_abs_sq_bound(dx as int, a.x - b.x);
        lemma_abs_sq_bound(dy as int, a.y - b.y);
    }
    dx * dx + dy * dy
}

/// Whether `a` and `b` lie strictly within `threshold` coordinate steps of
/// each other: the circle-overlap test every collision system uses.
pub fn overlaps(a: Vec2, b: Vec2, threshold: i64) -> (r: bool)
    requires
        a.in_world(),
        b.in_world(),
        0 <= threshold <= 2 * POS_LIMIT,
    ensures
        r == (dist_sq(a, b) < threshold * threshold),
{
    let d2 = dist_sq_exec(a, b);
    let t = threshold as u64;
    proof {
        assert(t * t <= 0x8000_0000u64 * 0x8000_0000u64) by (nonlinear_arith)
            requires
                0 <= t <= 0x8000_0000u64,
        ;
        assert(0x8000_0000u64 * 0x8000_0000u64 == 0x4000_0000_0000_0000u64);
    }
    d2 < t * t
}

/// Truncating division on machine integers, matching `tdiv`.
pub fn tdiv_i64(a: i64, d: i64) -> (r: i64)
    requires
        d > 0,
        -0x4000_0000_0000_0000 < a < 0x4000_0000_0000_0000,
    ensures
        r == tdiv(a as int, d as int),
{
    if a >= 0 {
        ((a as u64) / (d as u64)) as i64
    } else {
        let q = ((-a) as u64) / (d as u64);
        -(q as i64)
    }
}

/// Truncating division never grows a value's magnitude.
pub proof fn lemma_tdiv_bounds(a: int, d: int, bound: int)
    requires
        d >= 1,
        0 <= bound,
        -bound <= a <= bound,
    ensures
        -bound <= tdiv(a, d) <= bound,
{
    if a >= 0 {
        vstd::arithmetic::div_mod::lemma_div_nonincreasing(a, d);
        vstd::arithmetic::div_mod::lemma_div_pos_is_pos(a, d);
    } else {
        vstd::arithmetic::div_mod::lemma_div_nonincreasing(-a, d);
        vstd::arithmetic::div_mod::lemma_div_pos_is_pos(-a, d);
    }
}

/// Clamp a displaced coordinate back into the world range.
pub fn move_coord(x: i64, dx: i64) -> (r: i64)
    requires
        -POS_LIMIT <= x <= POS_LIMIT,
        -DISP_LIMIT <= dx <= DISP_LIMIT,
    ensures
        r == clamp_coord(x + dx),
{
    let moved = x + dx;
    if moved < -POS_LIMIT {
        -POS_LIMIT
    } else if moved > POS_LIMIT {
        POS_LIMIT
    } else {
        moved
    }
}

/// The specification of `move_pos`.
pub open spec fn moved_pos(p: Vec2, dx: int, dy: int) -> Vec2 {
    Vec2 { x: clamp_coord(p.x + dx) as i64, y: clamp_coord(p.y + dy) as i64 }
}

/// Displace a position, clamped to the world range on each axis.
pub fn move_pos(p: Vec2, dx: i64, dy: i64) -> (r: Vec2)
    requires
        p.in_world(),
        -DISP_LIMIT <= dx <= DISP_LIMIT,
        -DISP_LIMIT <= dy <= DISP_LIMIT,
    ensures
        r == moved_pos(p, dx as int, dy as int),
        r.in_world(),
{
    Vec2 { x: move_coord(p.x, dx), y: move_coord(p.y, dy) }
}

/// An approximate unit vector along `d`, scaled by `DIR_ONE`: each
/// component is `d * DIR_ONE / |d|`, rounded toward zero. The zero vector
/// maps to the zero direction.
pub open spec fn unit_dir(d: Vec2) -> Vec2 {
    if d.x == 0 && d.y == 0 {
        Vec2 { x: 0, y: 0 }
    } else {
        let len = sqrt_floor((d.x * d.x + d.y * d.y) as nat);
        Vec2 {
            x: tdiv(d.x * DIR_ONE, len as int) as i64,
            y: tdiv(d.y * DIR_ONE, len as int) as i64,
        }
    }
}

/// A direction is in range when both components are within `DIR_ONE`.
pub open spec fn dir_in_range(d: Vec2) -> bool {
    -DIR_ONE <= d.x <= DIR_ONE && -DIR_ONE <= d.y <= DIR_ONE
}

/// Each component of a vector is bounded by the floor square root of its
/// squared length.
pub proof fn lemma_component_le_len(c: int, other: int, len: nat)
    requires
        len == sqrt_floor((c * c + other * other) as nat),
        c * c + other * other >= 0,
    ensures
        -(len as int) <= c <= len as int,
{
    lemma_sqrt_floor_bracket((c * c + other * other) as nat);
    let a = if c >= 0 {
        c
    } else {
        -c
    };
    assert(a * a == c * c) by (nonlinear_arith)
        requires
            a == c || a == -c,
    ;
    assert(other * other >= 0) by (nonlinear_arith);
    if a > len {
        assert((len + 1) * (len + 1) <= a * a) by (nonlinear_arith)
            requires
                0 <= len + 1 <= a,
        ;
    }
}

/// Scaling a component by `DIR_ONE` and dividing by a length at least as
/// large keeps the quotient within `DIR_ONE`.
proof fn lemma_tdiv_scale_bound(c: int, len: int)
    requires
        len > 0,
        -len <= c <= len,
    ensures
        -DIR_ONE <= tdiv(c * DIR_ONE, len) <= DIR_ONE,
{
    let m = if c >= 0 {
        c
    } else {
        -c
    };
    assert(m * DIR_ONE == c * DIR_ONE || m * DIR_ONE == -(c * DIR_ONE)) by (nonlinear_arith)
        requires
            m == c || m == -c,
    ;
    assert(0 <= m * DIR_ONE <= len * DIR_ONE) by (nonlinear_arith)
        requires
            0 <= m <= len,
    ;
    assert(m * DIR_ONE / len <= len * DIR_ONE / len) by (nonlinear_arith)
        requires
            len > 0 && m * DIR_ONE <= len * DIR_ONE,
    ;
    assert(len * DIR_ONE / len == DIR_ONE) by (nonlinear_arith)
        requires
            len > 0,
    ;
    assert(m * DIR_ONE / len >= 0) by (nonlinear_arith)
        requires
            len > 0 && m * DIR_ONE >= 0,
    ;
}

/// Scaling a component by a nonnegative factor and dividing by a length
/// at least as large keeps the quotient within the factor.
pub proof fn lemma_tdiv_mul_le(c: int, m: int, len: int)
    requires
        len > 0,
        -len <= c <= len,
        0 <= m,
    ensures
        -m <= tdiv(c * m, len) <= m,
{
    let a = if c >= 0 {
        c
    } else {
        -c
    };
    assert(a * m == c * m || a * m == -(c * m)) by (nonlinear_arith)
        requires
            a == c || a == -c,
    ;
    assert(0 <= a * m <= len * m) by (nonlinear_arith)
        requires
            0 <= a <= len && 0 <= m,
    ;
    assert(a * m / len <= len * m / len) by (nonlinear_arith)
        requires
            len > 0 && a * m <= len * m,
    ;
    assert(len * m / len == m) by (nonlinear_arith)
        requires
            len > 0,
    ;
    assert(a * m / len >= 0) by (nonlinear_arith)
        requires
            len > 0 && a * m >= 0,
    ;
}

/// An approximate unit vector is always in direction range.
pub proof fn lemma_unit_dir_in_range(d: Vec2)
    ensures
        dir_in_range(unit_dir(d)),
{
    if d.x == 0 && d.y == 0 {
    } else {
        let len = sqrt_floor((d.x * d.x + d.y * d.y) as nat);
        lemma_sqrt_floor_bracket((d.x * d.x + d.y * d.y) as nat);
        if d.x != 0 {
            assert(d.x * d.x >= 1 && d.y * d.y >= 0) by (nonlinear_arith)
                requires
                    d.x != 0,
            ;
        } else {
            assert(d.y * d.y >= 1 && d.x * d.x >= 0) by (nonlinear_arith)
                requires
                    d.y != 0,
            ;
        }
        if len == 0 {
            assert((len as int + 1) * (len as int + 1) == 1) by (nonlinear_arith)
                requires
                    len as int == 0,
            ;
        }
        assert(len >= 1);
        lemma_component_le_len(d.x as int, d.y as int, len);
        lemma_component_le_len(d.y as int, d.x as int, len);
        lemma_tdiv_scale_bound(d.x as int, len as int);
        lemma_tdiv_scale_bound(d.y as int, len as int);
    }
}

/// Compute the approximate unit vector along `b - a`.
pub fn unit_toward(a: Vec2, b: Vec2) -> (r: Vec2)
    requires
        a.in_world(),
        b.in_world(),
    ensures
        r == unit_dir(Vec2 { x: (b.x - a.x) as i64, y: (b.y - a.y) as i64 }),
        dir_in_range(r),
{
    let dx = b.x - a.x;
    let dy = b.y - a.y;
    if dx == 0 && dy == 0 {
        return Vec2 { x: 0, y: 0 };
    }
    let len = delta_len(dx, dy);
    proof {
        lemma_sqrt_floor_bracket((dx * dx + dy * dy) as nat);
        if dx != 0 {
            assert(dx * dx >= 1 && dy * dy >= 0) by (nonlinear_arith)
                requires
                    dx != 0,
            ;
        } else {
            assert(dy * dy >= 1 && dx * dx >= 0) by (nonlinear_arith)
                requires
                    dy != 0,
            ;
        }
        if len == 0 {
            assert((len as int + 1) * (len as int + 1) == 1) by (nonlinear_arith)
                requires
                    len as int == 0,
            ;
        }
        assert(len >= 1);
        lemma_component_le_len(dx as int, dy as int, len as nat);
        lemma_component_le_len(dy as int, dx as int, len as nat);
        lemma_tdiv_scale_bound(dx as int, len as int);
        lemma_tdiv_scale_bound(dy as int, len as int);
    }
    let ux = tdiv_i64(dx * DIR_ONE, len as i64);
    let uy = tdiv_i64(dy * DIR_ONE, len as i64);
    Vec2 { x: ux, y: uy }
}

} // verus!
