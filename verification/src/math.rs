//! Small integer vector types used for chunk and voxel coordinates.
//!
//! Chunk positions, voxel positions and grid indices are all small integers
//! (the grid is bounded by `MAX_CHUNKS`), so every operation here carries an
//! explicit no-overflow precondition that callers discharge from the grid
//! bounds.

use vstd::prelude::*;

verus! {

/// A 3-component vector of `i32`, used for chunk positions and voxel
/// positions in the world.
#[derive(Clone, Copy, Debug, PartialEq, Eq, Structural, Hash)]
pub struct Int3 {
    pub x: i32,
    pub y: i32,
    pub z: i32,
}

/// A 3-component vector of `usize`, used for grid dimensions and
/// 3-dimensional grid indices.
#[derive(Clone, Copy, Debug, PartialEq, Eq, Structural, Hash)]
pub struct USize3 {
    pub x: usize,
    pub y: usize,
    pub z: usize,
}

impl Int3 {
    pub fn new(x: i32, y: i32, z: i32) -> (r: Int3)
        ensures
            r == (Int3 { x, y, z }),
    {
        Int3 { x, y, z }
    }

    pub fn zero() -> (r: Int3)
        ensures
            r == (Int3 { x: 0i32, y: 0i32, z: 0i32 }),
    {
        Int3 { x: 0, y: 0, z: 0 }
    }

    /// Componentwise sum.
    pub fn plus(self, o: Int3) -> (r: Int3)
        requires
            i32::MIN <= self.x + o.x <= i32::MAX,
            i32::MIN <= self.y + o.y <= i32::MAX,
            i32::MIN <= self.z + o.z <= i32::MAX,
        ensures
            r.x == self.x + o.x,
            r.y == self.y + o.y,
            r.z == self.z + o.z,
    {
        Int3 { x: self.x + o.x, y: self.y + o.y, z: self.z + o.z }
    }

    /// Componentwise difference.
    pub fn minus(self, o: Int3) -> (r: Int3)
        requires
            i32::MIN <= self.x - o.x <= i32::MAX,
            i32::MIN <= self.y - o.y <= i32::MAX,
            i32::MIN <= self.z - o.z <= i32::MAX,
        ensures
            r.x == self.x - o.x,
            r.y == self.y - o.y,
            r.z == self.z - o.z,
    {
        Int3 { x: self.x - o.x, y: self.y - o.y, z: self.z - o.z }
    }

    /// Componentwise product with a scalar.
    pub fn scaled(self, k: i32) -> (r: Int3)
        requires
            i32::MIN <= self.x * k <= i32::MAX,
            i32::MIN <= self.y * k <= i32::MAX,
            i32::MIN <= self.z * k <= i32::MAX,
        ensures
            r.x == self.x * k,
            r.y == self.y * k,
            r.z == self.z * k,
    {
        Int3 { x: self.x * k, y: self.y * k, z: self.z * k }
    }
}

/// Floor division of `x` by a positive divisor `d`; agrees with the
/// mathematical (Euclidean) quotient for positive divisors. Only
/// non-negative values are handed to the machine division, so its truncation
/// never shows.
pub fn floor_div(x: i32, d: i32) -> (r: i32)
    requires
        0 < d,
        i32::MIN < x,
    ensures
        r == (x as int) / (d as int),
{
    if x >= 0 {
        x / d
    } else {
        let n: i32 = -x;
        let q: i32 = n / d;
        let rem: i32 = n % d;
        proof {
            lemma_neg_floor_div(x as int, d as int);
        }
        if rem == 0 {
            -q
        } else {
            -q - 1
        }
    }
}

/// Remainder of `x` modulo a positive divisor `d`, always in `[0, d)`.
pub fn floor_rem(x: i32, d: i32) -> (r: i32)
    requires
        0 < d,
        i32::MIN < x,
    ensures
        r == (x as int) % (d as int),
        0 <= r < d,
{
    if x >= 0 {
        x % d
    } else {
        let n: i32 = -x;
        let rem: i32 = n % d;
        proof {
            lemma_neg_floor_div(x as int, d as int);
        }
        if rem == 0 {
            0
        } else {
            d - rem
        }
    }
}

/// The Euclidean quotient and remainder of a negative `x`, written through
/// the quotient and remainder of `-x`.
pub proof fn lemma_neg_floor_div(x: int, d: int)
    requires
        0 < d,
        x < 0,
    ensures
        (-x) % d == 0 ==> x / d == -((-x) / d) && x % d == 0,
        (-x) % d != 0 ==> x / d == -((-x) / d) - 1 && x % d == d - (-x) % d,
{
    let n = -x;
    assert(n == d * (n / d) + n % d) by (nonlinear_arith)
        requires 0 < d && 0 < n;
    if n % d == 0 {
        assert(x == d * (-(n / d))) by (nonlinear_arith)
            requires n == d * (n / d) && x == -n;
        assert(x / d == -(n / d) && x % d == 0) by (nonlinear_arith)
            requires 0 < d && x == d * (-(n / d));
    } else {
        assert(x == d * (-(n / d) - 1) + (d - n % d)) by (nonlinear_arith)
            requires n == d * (n / d) + n % d && x == -n;
        assert(x / d == -(n / d) - 1 && x % d == d - n % d) by (nonlinear_arith)
            requires
                0 < d,
                x == d * (-(n / d) - 1) + (d - n % d),
                0 < n % d < d;
    }
}

} // verus!
