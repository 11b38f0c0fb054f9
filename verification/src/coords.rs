//! Planar coordinates in exact integer units, squared distances, and the
//! floor square root used for polyline segment lengths.

use vstd::prelude::*;

verus! {

/// Largest magnitude a coordinate component may have.
///
/// The bound (2^30 - 1) keeps every squared distance between two in-bounds
/// points strictly below `i64::MAX`, so distance arithmetic never overflows,
/// neither here nor inside the point spatial index.
pub const COORD_LIMIT: i64 = 0x3fffffff;

/// A point in a two-dimensional coordinate reference system.
///
/// Components are exact integers in scaled units of the CRS the containing
/// graph declares (a projected CRS uses scaled metres, a geographic CRS uses
/// microdegrees, with `x` the easting or longitude and `y` the northing or
/// latitude). Two coordinates are the same point exactly when both
/// components are equal: there is no snapping tolerance.
#[derive(Debug, Clone, Copy, PartialEq, Eq, Structural, Hash)]
pub struct Coord {
    pub x: i64,
    pub y: i64,
}

/// Whether both components are within `COORD_LIMIT`.
pub open spec fn coord_in_bounds(c: Coord) -> bool {
    -COORD_LIMIT <= c.x <= COORD_LIMIT && -COORD_LIMIT <= c.y <= COORD_LIMIT
}

/// Whether every coordinate of the sequence is within `COORD_LIMIT`.
pub open spec fn coords_in_bounds(s: Seq<Coord>) -> bool {
    forall|i: int| 0 <= i < s.len() ==> coord_in_bounds(#[trigger] s[i])
}

/// The squared Euclidean distance between two points, as a mathematical
/// integer.
pub open spec fn sq_dist(a: Coord, b: Coord) -> int {
    (a.x - b.x) * (a.x - b.x) + (a.y - b.y) * (a.y - b.y)
}

/// Squared distances of in-bounds points stay below `i64::MAX`.
pub proof fn lemma_sq_dist_bound(a: Coord, b: Coord)
    requires
        coord_in_bounds(a),
        coord_in_bounds(b),
    ensures
        0 <= sq_dist(a, b) < i64::MAX,
{
    let dx = a.x - b.x;
    let dy = a.y - b.y;
    assert(-2 * COORD_LIMIT <= dx <= 2 * COORD_LIMIT);
    assert(-2 * COORD_LIMIT <= dy <= 2 * COORD_LIMIT);
    assert(0 <= dx * dx <= (2 * COORD_LIMIT) * (2 * COORD_LIMIT)) by (nonlinear_arith)
        requires
            -2 * COORD_LIMIT <= dx <= 2 * COORD_LIMIT,
    ;
    assert(0 <= dy * dy <= (2 * COORD_LIMIT) * (2 * COORD_LIMIT)) by (nonlinear_arith)
        requires
            -2 * COORD_LIMIT <= dy <= 2 * COORD_LIMIT,
    ;
}

/// Computes the squared Euclidean distance between two in-bounds points.
pub fn squared_distance(a: Coord, b: Coord) -> (r: i64)
    requires
        coord_in_bounds(a),
        coord_in_bounds(b),
    ensures
        r == sq_dist(a, b),
{
    proof {
        lemma_sq_dist_bound(a, b);
    }
    let dx: i64 = a.x - b.x;
    let dy: i64 = a.y - b.y;
    proof {
        assert(0 <= (dx as int) * (dx as int) <= (2 * COORD_LIMIT) * (2 * COORD_LIMIT))
            by (nonlinear_arith)
            requires
                -2 * COORD_LIMIT <= dx <= 2 * COORD_LIMIT,
        ;
        assert(0 <= (dy as int) * (dy as int) <= (2 * COORD_LIMIT) * (2 * COORD_LIMIT))
            by (nonlinear_arith)
            requires
                -2 * COORD_LIMIT <= dy <= 2 * COORD_LIMIT,
        ;
    }
    let s: i128 = (dx as i128) * (dx as i128) + (dy as i128) * (dy as i128);
    s as i64
}

/// Squared distance is symmetric in its arguments.
pub proof fn lemma_sq_dist_symmetric(a: Coord, b: Coord)
    ensures
        sq_dist(a, b) == sq_dist(b, a),
{
    assert((a.x - b.x) * (a.x - b.x) == (b.x - a.x) * (b.x - a.x)) by (nonlinear_arith);
    assert((a.y - b.y) * (a.y - b.y) == (b.y - a.y) * (b.y - a.y)) by (nonlinear_arith);
}

/// The floor of the square root of a non-negative integer, defined by
/// counting up. `sqrt_floor(n)` is the unique `r >= 0` with
/// `r * r <= n < (r + 1) * (r + 1)` (see `lemma_sqrt_floor_bounds`).
pub open spec fn sqrt_floor(n: int) -> int
    decreases n,
{
    if n <= 0 {
        0
    } else {
        let p = sqrt_floor(n - 1);
        if (p + 1) * (p + 1) <= n {
            p + 1
        } else {
            p
        }
    }
}

/// `sqrt_floor(n)` squares to at most `n`, and the next integer squares to
/// more than `n`.
pub proof fn lemma_sqrt_floor_bounds(n: int)
    requires
        0 <= n,
    ensures
        0 <= sqrt_floor(n),
        sqrt_floor(n) * sqrt_floor(n) <= n,
        n < (sqrt_floor(n) + 1) * (sqrt_floor(n) + 1),
    decreases n,
{
    if n == 0 {
    } else {
        lemma_sqrt_floor_bounds(n - 1);
        let p = sqrt_floor(n - 1);
        if (p + 1) * (p + 1) <= n {
            assert((p + 2) * (p + 2) > n) by (nonlinear_arith)
                requires
                    n - 1 < (p + 1) * (p + 1),
                    0 <= p,
            ;
        }
    }
}

/// Any `r` meeting the floor-square-root bounds is `sqrt_floor(n)`.
pub proof fn lemma_sqrt_floor_unique(n: int, r: int)
    requires
        0 <= n,
        0 <= r,
        r * r <= n,
        n < (r + 1) * (r + 1),
    ensures
        r == sqrt_floor(n),
{
    lemma_sqrt_floor_bounds(n);
    let s = sqrt_floor(n);
    if r < s {
        assert((r + 1) * (r + 1) <= s * s) by (nonlinear_arith)
            requires
                0 <= r,
                r + 1 <= s,
        ;
    }
    if s < r {
        assert((s + 1) * (s + 1) <= r * r) by (nonlinear_arith)
            requires
                0 <= s,
                s + 1 <= r,
        ;
    }
}

/// Computes the floor of the square root of `n` by binary search.
pub fn isqrt(n: u64) -> (r: u64)
    ensures
        r == sqrt_floor(n as int),
{
    let mut lo: u64 = 0;
    let mut hi: u64 = 0x1_0000_0000;
    proof {
        assert((hi as int) * (hi as int) > n as int) by (nonlinear_arith)
            requires
                hi == 0x1_0000_0000u64,
                n <= u64::MAX,
        ;
    }
    while lo + 1 < hi
        invariant
            0 <= lo < hi <= 0x1_0000_0000,
            (lo as int) * (lo as int) <= n as int,
            (hi as int) * (hi as int) > n as int,
        decreases hi - lo,
    {
        let mid: u64 = lo + (hi - lo) / 2;
        proof {
            assert((mid as int) * (mid as int) <= 0x1_0000_0000 * 0x1_0000_0000)
                by (nonlinear_arith)
                requires
                    0 <= mid <= 0x1_0000_0000u64,
            ;
        }
        if (mid as u128) * (mid as u128) <= n as u128 {
            lo = mid;
        } else {
            hi = mid;
        }
    }
    proof {
        lemma_sqrt_floor_unique(n as int, lo as int);
    }
    lo
}

/// The floor square root is never negative, whatever its argument.
pub proof fn lemma_sqrt_floor_nonneg(n: int)
    ensures
        sqrt_floor(n) >= 0,
    decreases n,
{
    if n > 0 {
        lemma_sqrt_floor_nonneg(n - 1);
    }
}

/// The length of the straight segment from `a` to `b`: the floor square
/// root of the squared distance. Zero exactly when `a == b`.
pub open spec fn seg_len(a: Coord, b: Coord) -> int {
    sqrt_floor(sq_dist(a, b))
}

/// Computes the segment length `seg_len(a, b)`.
pub fn segment_length(a: Coord, b: Coord) -> (r: u64)
    requires
        coord_in_bounds(a),
        coord_in_bounds(b),
    ensures
        r == seg_len(a, b),
        r < 0x1_0000_0000,
{
    proof {
        lemma_sq_dist_bound(a, b);
    }
    let sq: i64 = squared_distance(a, b);
    let r = isqrt(sq as u64);
    proof {
        lemma_sqrt_floor_bounds(sq as int);
        if r >= 0x1_0000_0000 {
            assert((r as int) * (r as int) >= 0x1_0000_0000 * 0x1_0000_0000) by (nonlinear_arith)
                requires
                    r as int >= 0x1_0000_0000,
            ;
        }
    }
    r
}

} // verus!
