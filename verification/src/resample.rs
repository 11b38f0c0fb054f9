//! Resampling of polyline edges into evenly spaced road points.
//!
//! An edge of total length `L` (the sum of its segments' integer lengths)
//! is divided into `n = max(1, L / resampling_distance)` equal parts; the
//! produced points sit at arc positions `k * L / n` for `k = 0 .. n`, so
//! consecutive points are spaced exactly `L / n` apart along the edge. The
//! first and last point are the edge's own first and last coordinate. Each
//! point carries the azimuth of the segment it lies on, as a direction
//! normalized to a non-negative x component.

use vstd::prelude::*;

use crate::coords::{
    coord_in_bounds, coords_in_bounds, seg_len, segment_length, sq_dist, sqrt_floor, Coord,
    COORD_LIMIT,
};

verus! {

/// Largest number of vertices one edge may have: keeps every intermediate
/// product of the sampling arithmetic inside 128 bits.
pub const MAX_EDGE_VERTICES: usize = 0x1000_0000;

/// A heading as a direction vector, normalized so that the x component is
/// non-negative, and pointing up when vertical: a vertical segment reports
/// one canonical direction independent of its vertex order. The angle it
/// stands for is `atan2(dy, dx)`, in `(-pi/2, pi/2]`.
#[derive(Debug, Clone, Copy, PartialEq, Eq, Structural)]
pub struct Azimuth {
    pub dx: i64,
    pub dy: i64,
}

/// The normalized direction of the segment delta `(dx, dy)`: mirrored so
/// the x component is non-negative, and a downward vertical flipped up.
pub open spec fn azimuth_spec(dx: int, dy: int) -> (int, int) {
    if dx < 0 || (dx == 0 && dy < 0) {
        (-dx, -dy)
    } else {
        (dx, dy)
    }
}

/// Computes the normalized azimuth of the segment from `a` to `b`.
pub fn get_normalized_line_azimuth(a: Coord, b: Coord) -> (r: Azimuth)
    requires
        coord_in_bounds(a),
        coord_in_bounds(b),
    ensures
        (r.dx as int, r.dy as int) == azimuth_spec(b.x - a.x, b.y - a.y),
{
    let dx: i64 = b.x - a.x;
    let dy: i64 = b.y - a.y;
    if dx < 0 || (dx == 0 && dy < 0) {
        Azimuth { dx: -dx, dy: -dy }
    } else {
        Azimuth { dx, dy }
    }
}

/// A resampled point: a coordinate plus the heading of the segment it was
/// placed on. The heading is produced during resampling and kept for
/// heading-aware consumers; matching does not consult it.
#[derive(Debug, Clone, Copy, PartialEq, Eq, Structural)]
pub struct RoadPoint {
    pub coord: Coord,
    pub azimuth: Azimuth,
}

/// The total length of the first `j` segments of `line`.
pub open spec fn prefix_len(line: Seq<Coord>, j: int) -> int
    decreases j,
{
    if j <= 0 {
        0
    } else {
        prefix_len(line, j - 1) + seg_len(line[j - 1], line[j])
    }
}

/// The length of the whole edge: the sum of all its segment lengths.
pub open spec fn edge_len(line: Seq<Coord>) -> int {
    prefix_len(line, line.len() - 1)
}

/// The number of equal parts an edge of length `l` is divided into for a
/// resampling distance `d`: `floor(l / d)`, but at least one part.
pub open spec fn num_parts(l: int, d: int) -> int {
    if l / d == 0 {
        1
    } else {
        l / d
    }
}

/// One coordinate component linearly interpolated from `a` towards `b` by
/// `off` of `l`, rounded towards `a`.
pub open spec fn interp_1d(a: int, b: int, off: int, l: int) -> int {
    if b >= a {
        a + (b - a) * off / l
    } else {
        a - (a - b) * off / l
    }
}

/// Walks the segments of `line` to arc position `pos / n` and yields the
/// interpolated point there together with the delta of the segment it lies
/// on: the first segment whose far end lies strictly beyond the position
/// takes it; segments wholly before it (zero-length ones included) are
/// skipped. Falls back to the last coordinate past the final segment.
pub open spec fn sample_point(line: Seq<Coord>, pos: int, n: int) -> (int, int, int, int)
    decreases line.len(),
{
    if line.len() < 2 {
        if line.len() == 0 {
            (0, 0, 0, 0)
        } else {
            (line[0].x as int, line[0].y as int, 0, 0)
        }
    } else {
        let l = seg_len(line[0], line[1]);
        if n * l > pos {
            (
                interp_1d(line[0].x as int, line[1].x as int, pos / n, l),
                interp_1d(line[0].y as int, line[1].y as int, pos / n, l),
                line[1].x - line[0].x,
                line[1].y - line[0].y,
            )
        } else {
            sample_point(line.drop_first(), pos - n * l, n)
        }
    }
}

/// Segment lengths are non-negative and below 2^32 for in-bounds points.
pub proof fn lemma_seg_len_bounds(a: Coord, b: Coord)
    requires
        coord_in_bounds(a),
        coord_in_bounds(b),
    ensures
        0 <= seg_len(a, b) < 0x1_0000_0000,
{
    crate::coords::lemma_sq_dist_bound(a, b);
    crate::coords::lemma_sqrt_floor_bounds(sq_dist(a, b));
    let s = sqrt_floor(sq_dist(a, b));
    if s >= 0x1_0000_0000 {
        assert(s * s >= 0x1_0000_0000 * 0x1_0000_0000) by (nonlinear_arith)
            requires
                s >= 0x1_0000_0000,
        ;
    }
}

/// Prefix lengths grow monotonically and stay below `j * 2^32`.
pub proof fn lemma_prefix_len_bounds(line: Seq<Coord>, j: int)
    requires
        coords_in_bounds(line),
        0 <= j < line.len(),
    ensures
        0 <= prefix_len(line, j) < j * 0x1_0000_0000 + 1,
        forall|j2: int| 0 <= j2 <= j ==> #[trigger] prefix_len(line, j2) <= prefix_len(line, j),
    decreases j,
{
    if j == 0 {
    } else {
        lemma_prefix_len_bounds(line, j - 1);
        lemma_seg_len_bounds(line[j - 1], line[j]);
    }
}

/// Dropping the first coordinate shifts prefix lengths by the first
/// segment's length.
proof fn lemma_prefix_len_drop_first(line: Seq<Coord>, j: int)
    requires
        line.len() >= 2,
        0 <= j <= line.len() - 2,
    ensures
        prefix_len(line.drop_first(), j) == prefix_len(line, j + 1) - seg_len(line[0], line[1]),
    decreases j,
{
    if j <= 0 {
        assert(prefix_len(line.drop_first(), 0) == 0);
        assert(prefix_len(line, 0) == 0);
        assert(prefix_len(line, 1) == prefix_len(line, 0) + seg_len(line[0], line[1]));
    } else {
        lemma_prefix_len_drop_first(line, j - 1);
        assert(line.drop_first()[j - 1] == line[j]);
        assert(line.drop_first()[j] == line[j + 1]);
    }
}

/// Where the sample walker lands: when the segments before `j` all end at
/// or before arc position `pos / n`, and segment `j` reaches strictly
/// beyond it, the walker interpolates within segment `j`.
proof fn lemma_sample_point_at_segment(line: Seq<Coord>, pos: int, n: int, j: int)
    requires
        n > 0,
        line.len() >= 2,
        0 <= j < line.len() - 1,
        forall|j2: int| 1 <= j2 <= j ==> n * #[trigger] prefix_len(line, j2) <= pos,
        n * prefix_len(line, j) <= pos,
        pos < n * (prefix_len(line, j) + seg_len(line[j], line[j + 1])),
    ensures
        ({
            let l = seg_len(line[j], line[j + 1]);
            let off = (pos - n * prefix_len(line, j)) / n;
            sample_point(line, pos, n) == (
                interp_1d(line[j].x as int, line[j + 1].x as int, off, l),
                interp_1d(line[j].y as int, line[j + 1].y as int, off, l),
                line[j + 1].x - line[j].x,
                line[j + 1].y - line[j].y,
            )
        }),
    decreases j,
{
    let l0 = seg_len(line[0], line[1]);
    if j == 0 {
        assert(n * l0 > pos);
    } else {
        assert(prefix_len(line, 0) == 0);
        assert(prefix_len(line, 1) == prefix_len(line, 0) + seg_len(line[0], line[1]));
        assert(prefix_len(line, 1) == l0);
        assert(n * prefix_len(line, 1) <= pos);
        assert(!(n * l0 > pos));
        let rest = line.drop_first();
        let pos2 = pos - n * l0;
        lemma_prefix_len_drop_first(line, j - 1);
        lemma_prefix_len_drop_first(line, j);
        assert(rest[j - 1] == line[j]);
        assert(rest[j] == line[j + 1]);
        assert(n * prefix_len(rest, j - 1) == n * (prefix_len(line, j) - l0)) by (nonlinear_arith)
            requires
                prefix_len(rest, j - 1) == prefix_len(line, j) - l0,
        ;
        assert(n * (prefix_len(line, j) - l0) == n * prefix_len(line, j) - n * l0)
            by (nonlinear_arith);
        assert forall|j2: int| 1 <= j2 <= j - 1 implies n * #[trigger] prefix_len(rest, j2)
            <= pos2 by {
            lemma_prefix_len_drop_first(line, j2);
            assert(n * prefix_len(line, j2 + 1) <= pos);
            assert(n * (prefix_len(line, j2 + 1) - l0) == n * prefix_len(line, j2 + 1) - n * l0)
                by (nonlinear_arith);
        }
        assert(n * (prefix_len(rest, j - 1) + seg_len(rest[j - 1], rest[j])) == n * (prefix_len(
            line,
            j,
        ) + seg_len(line[j], line[j + 1])) - n * l0) by (nonlinear_arith)
            requires
                prefix_len(rest, j - 1) == prefix_len(line, j) - l0,
                rest[j - 1] == line[j],
                rest[j] == line[j + 1],
        ;
        lemma_sample_point_at_segment(rest, pos2, n, j - 1);
        assert((pos2 - n * prefix_len(rest, j - 1)) == (pos - n * prefix_len(line, j)))
            by (nonlinear_arith)
            requires
                pos2 == pos - n * l0,
                prefix_len(rest, j - 1) == prefix_len(line, j) - l0,
        ;
    }
}

/// Computes one interpolated coordinate component: from `a` towards `b` by
/// `off` of `l`, rounded towards `a`. The result stays between `a` and `b`.
fn interp_coord(a: i64, b: i64, off: u64, l: u64) -> (r: i64)
    requires
        -COORD_LIMIT <= a <= COORD_LIMIT,
        -COORD_LIMIT <= b <= COORD_LIMIT,
        0 < l < 0x1_0000_0000,
        off < l,
    ensures
        r as int == interp_1d(a as int, b as int, off as int, l as int),
        -COORD_LIMIT <= r <= COORD_LIMIT,
{
    if b >= a {
        let delta: u128 = (b - a) as u128;
        proof {
            assert((delta as int) * (off as int) < 0x1_0000_0000_0000_0000) by (nonlinear_arith)
                requires
                    0 <= delta <= 0x1_0000_0000,
                    0 <= off < 0x1_0000_0000,
            ;
            assert((delta as int) * (off as int) / (l as int) < delta as int || delta == 0)
                by (nonlinear_arith)
                requires
                    0 <= off < l,
                    0 < l,
                    0 <= delta,
            ;
        }
        let part: u128 = delta * (off as u128) / (l as u128);
        proof {
            if delta == 0 {
                assert(delta * (off as u128) == 0) by (nonlinear_arith)
                    requires
                        delta == 0,
                ;
                vstd::arithmetic::div_mod::lemma_div_of0(l as int);
                assert(part == 0);
            }
            assert(part <= delta);
        }
        a + (part as i64)
    } else {
        let delta: u128 = (a - b) as u128;
        proof {
            assert((delta as int) * (off as int) < 0x1_0000_0000_0000_0000) by (nonlinear_arith)
                requires
                    0 <= delta <= 0x1_0000_0000,
                    0 <= off < 0x1_0000_0000,
            ;
            assert((delta as int) * (off as int) / (l as int) < delta as int || delta == 0)
                by (nonlinear_arith)
                requires
                    0 <= off < l,
                    0 < l,
                    0 <= delta,
            ;
        }
        let part: u128 = delta * (off as u128) / (l as u128);
        proof {
            if delta == 0 {
                assert(delta * (off as u128) == 0) by (nonlinear_arith)
                    requires
                        delta == 0,
                ;
                vstd::arithmetic::div_mod::lemma_div_of0(l as int);
                assert(part == 0);
            }
            assert(part <= delta);
        }
        a - (part as i64)
    }
}

/// Compares two products of 64-bit values exactly.
fn mul_gt(a: u64, b: u64, c: u64, d: u64) -> (r: bool)
    ensures
        r == ((a as int) * (b as int) > (c as int) * (d as int)),
{
    proof {
        assert((a as int) * (b as int) < 0x1_0000_0000_0000_0000_0000_0000_0000_0000)
            by (nonlinear_arith)
            requires
                0 <= a <= 0xffff_ffff_ffff_ffff,
                0 <= b <= 0xffff_ffff_ffff_ffff,
        ;
        assert((c as int) * (d as int) < 0x1_0000_0000_0000_0000_0000_0000_0000_0000)
            by (nonlinear_arith)
            requires
                0 <= c <= 0xffff_ffff_ffff_ffff,
                0 <= d <= 0xffff_ffff_ffff_ffff,
        ;
    }
    (a as u128) * (b as u128) > (c as u128) * (d as u128)
}

/// The number of points resampling produces on one edge.
pub open spec fn sample_count(line: Seq<Coord>, d: int) -> int {
    if line.len() < 2 || d <= 0 {
        0
    } else {
        num_parts(edge_len(line), d) + 1
    }
}

/// Whether every produced point's coordinate is within `COORD_LIMIT`.
pub open spec fn road_points_in_bounds(s: Seq<RoadPoint>) -> bool {
    forall|i: int| 0 <= i < s.len() ==> coord_in_bounds((#[trigger] s[i]).coord)
}

/// What resampling one edge produces.
///
/// Too-short edges and non-positive distances give nothing. Otherwise, for
/// `n = num_parts(edge_len(line), d)`, there are `n + 1` points: point `k`
/// sits at arc position `k * edge_len(line) / n` (so consecutive points are
/// spaced `edge_len(line) / n` apart along the edge), the first and last
/// are exactly the edge's first and last coordinate, and each point carries
/// the normalized azimuth of the segment it sits on.
pub open spec fn is_resampling_of(line: Seq<Coord>, d: int, out: Seq<RoadPoint>) -> bool {
    if line.len() < 2 || d <= 0 {
        out.len() == 0
    } else {
        let gl = edge_len(line);
        let n = num_parts(gl, d);
        &&& out.len() == n + 1
        &&& out[0].coord == line[0]
        &&& (out[0].azimuth.dx as int, out[0].azimuth.dy as int) == azimuth_spec(
            line[1].x - line[0].x,
            line[1].y - line[0].y,
        )
        &&& out[n].coord == line.last()
        &&& (out[n].azimuth.dx as int, out[n].azimuth.dy as int) == azimuth_spec(
            line.last().x - line[line.len() - 2].x,
            line.last().y - line[line.len() - 2].y,
        )
        &&& forall|k: int|
            1 <= k < n ==> {
                let sp = #[trigger] sample_point(line, k * gl, n);
                &&& out[k].coord.x as int == sp.0
                &&& out[k].coord.y as int == sp.1
                &&& (out[k].azimuth.dx as int, out[k].azimuth.dy as int) == azimuth_spec(
                    sp.2,
                    sp.3,
                )
            }
    }
}

/// Sample evenly spaced points along one edge; see `is_resampling_of` for
/// the exact shape of the output.
pub fn sample_points_on_line(line: &Vec<Coord>, resampling_distance: i64) -> (r: Vec<RoadPoint>)
    requires
        coords_in_bounds(line@),
        line@.len() <= MAX_EDGE_VERTICES,
    ensures
        is_resampling_of(line@, resampling_distance as int, r@),
        road_points_in_bounds(r@),
{
    let m = line.len();
    if m < 2 || resampling_distance <= 0 {
        return Vec::new();
    }
    let ghost lv = line@;

    // Total edge length.
    let mut total: u64 = 0;
    let mut j: usize = 0;
    while j < m - 1
        invariant
            m == lv.len(),
            lv == line@,
            2 <= m <= MAX_EDGE_VERTICES,
            coords_in_bounds(lv),
            0 <= j <= m - 1,
            total == prefix_len(lv, j as int),
            total <= (j as int) * 0x1_0000_0000,
        decreases m - 1 - j,
    {
        proof {
            lemma_seg_len_bounds(lv[j as int], lv[j as int + 1]);
            assert((j as int) * 0x1_0000_0000 + 0x1_0000_0000 == (j as int + 1) * 0x1_0000_0000)
                by (nonlinear_arith);
            assert((j as int + 1) * 0x1_0000_0000 <= 0x1000_0000 * 0x1_0000_0000)
                by (nonlinear_arith)
                requires
                    j as int + 1 <= 0x1000_0000,
            ;
        }
        let sl = segment_length(line[j], line[j + 1]);
        total = total + sl;
        j += 1;
    }
    let l_total: u64 = total;
    proof {
        assert(l_total == edge_len(lv));
        assert((m - 1) as int * 0x1_0000_0000 <= 0x1000_0000 * 0x1_0000_0000) by (nonlinear_arith)
            requires
                m - 1 <= 0x1000_0000,
        ;
        assert(l_total <= 0x1000_0000 * 0x1_0000_0000);
    }
    let d: u64 = resampling_distance as u64;
    let np: u64 = l_total / d;
    let n: u64 = if np == 0 {
        1
    } else {
        np
    };
    let ghost gl = l_total as int;
    let ghost gn = n as int;
    proof {
        assert(gn == num_parts(gl, resampling_distance as int));
        vstd::arithmetic::div_mod::lemma_div_nonincreasing(gl, d as int);
        assert(1 <= gn <= gl + 1);
    }

    let mut out: Vec<RoadPoint> = Vec::new();
    out.push(RoadPoint { coord: line[0], azimuth: get_normalized_line_azimuth(line[0], line[1]) });
    let mut k: u64 = 1;
    let mut prev_vert: u64 = 0;
    let mut j: usize = 0;
    while j < m - 1
        invariant
            m == lv.len(),
            lv == line@,
            2 <= m <= MAX_EDGE_VERTICES,
            coords_in_bounds(lv),
            resampling_distance > 0,
            gl == edge_len(lv),
            gl == l_total as int,
            0 <= gl <= 0x1000_0000 * 0x1_0000_0000,
            gn == n as int,
            gn == num_parts(gl, resampling_distance as int),
            1 <= gn <= gl + 1,
            0 <= j <= m - 1,
            prev_vert as int == prefix_len(lv, j as int),
            prev_vert <= l_total,
            1 <= k <= gn,
            out@.len() == k,
            out@[0].coord == lv[0],
            (out@[0].azimuth.dx as int, out@[0].azimuth.dy as int) == azimuth_spec(
                lv[1].x - lv[0].x,
                lv[1].y - lv[0].y,
            ),
            forall|k2: int|
                1 <= k2 < k ==> {
                    let sp = #[trigger] sample_point(lv, k2 * gl, gn);
                    &&& out@[k2].coord.x as int == sp.0
                    &&& out@[k2].coord.y as int == sp.1
                    &&& (out@[k2].azimuth.dx as int, out@[k2].azimuth.dy as int) == azimuth_spec(
                        sp.2,
                        sp.3,
                    )
                },
            road_points_in_bounds(out@),
            gn * (prev_vert as int) <= (k as int) * gl,
            (k as int == gn) || (forall|j2: int|
                1 <= j2 <= j ==> gn * #[trigger] prefix_len(lv, j2) <= (k as int) * gl),
        decreases m - 1 - j,
    {
        let a = line[j];
        let b = line[j + 1];
        let sl: u64 = segment_length(a, b);
        proof {
            lemma_prefix_len_bounds(lv, (m - 1) as int);
            assert(prefix_len(lv, j as int + 1) == prefix_len(lv, j as int) + seg_len(
                lv[j as int],
                lv[j as int + 1],
            ));
            assert(prefix_len(lv, j as int + 1) <= prefix_len(lv, (m - 1) as int));
        }
        let next_vert: u64 = prev_vert + sl;
        let az = get_normalized_line_azimuth(a, b);
        while k < n && mul_gt(n, next_vert, k, l_total)
            invariant
                m == lv.len(),
                lv == line@,
                2 <= m <= MAX_EDGE_VERTICES,
                coords_in_bounds(lv),
                resampling_distance > 0,
                gl == edge_len(lv),
                gl == l_total as int,
                0 <= gl <= 0x1000_0000 * 0x1_0000_0000,
                gn == n as int,
                gn == num_parts(gl, resampling_distance as int),
                1 <= gn <= gl + 1,
                0 <= j < m - 1,
                a == lv[j as int],
                b == lv[j as int + 1],
                sl == seg_len(a, b),
                prev_vert as int == prefix_len(lv, j as int),
                next_vert as int == prefix_len(lv, j as int + 1),
                next_vert <= l_total,
                (az.dx as int, az.dy as int) == azimuth_spec(b.x - a.x, b.y - a.y),
                1 <= k <= gn,
                out@.len() == k,
                out@[0].coord == lv[0],
                (out@[0].azimuth.dx as int, out@[0].azimuth.dy as int) == azimuth_spec(
                    lv[1].x - lv[0].x,
                    lv[1].y - lv[0].y,
                ),
                forall|k2: int|
                    1 <= k2 < k ==> {
                        let sp = #[trigger] sample_point(lv, k2 * gl, gn);
                        &&& out@[k2].coord.x as int == sp.0
                        &&& out@[k2].coord.y as int == sp.1
                        &&& (out@[k2].azimuth.dx as int, out@[k2].azimuth.dy as int)
                            == azimuth_spec(sp.2, sp.3)
                    },
                road_points_in_bounds(out@),
                gn * (prev_vert as int) <= (k as int) * gl,
                (k as int == gn) || (forall|j2: int|
                    1 <= j2 <= j ==> gn * #[trigger] prefix_len(lv, j2) <= (k as int) * gl),
            decreases gn - k,
        {
            proof {
                assert((k as int) * gl < gn * (next_vert as int));
                assert(gn * (next_vert as int) == gn * (prev_vert as int) + gn * (sl as int))
                    by (nonlinear_arith)
                    requires
                        next_vert as int == prev_vert as int + sl as int,
                ;
                assert((k as int) * (l_total as int) < 0x1_0000_0000_0000_0000_0000_0000_0000_0000)
                    by (nonlinear_arith)
                    requires
                        0 <= k <= 0xffff_ffff_ffff_ffff,
                        0 <= l_total <= 0xffff_ffff_ffff_ffff,
                ;
                assert((n as int) * (prev_vert as int) < 0x1_0000_0000_0000_0000_0000_0000_0000_0000)
                    by (nonlinear_arith)
                    requires
                        0 <= n <= 0xffff_ffff_ffff_ffff,
                        0 <= prev_vert <= 0xffff_ffff_ffff_ffff,
                ;
                assert((k as u128) * (l_total as u128) >= (n as u128) * (prev_vert as u128));
            }
            let off_num: u128 = (k as u128) * (l_total as u128) - (n as u128)
                * (prev_vert as u128);
            proof {
                assert(off_num < gn * (sl as int));
                assert(sl > 0) by (nonlinear_arith)
                    requires
                        0 <= off_num < gn * (sl as int),
                        0 <= sl,
                ;
                assert(off_num as int / gn < sl as int) by (nonlinear_arith)
                    requires
                        0 <= off_num,
                        off_num < gn * (sl as int),
                        gn > 0,
                ;
                lemma_seg_len_bounds(a, b);
            }
            let off: u64 = (off_num / (n as u128)) as u64;
            let x = interp_coord(a.x, b.x, off, sl);
            let y = interp_coord(a.y, b.y, off, sl);
            out.push(RoadPoint { coord: Coord { x, y }, azimuth: az });
            proof {
                if k < gn {
                    lemma_sample_point_at_segment(lv, (k as int) * gl, gn, j as int);
                }
                assert((k as int + 1) * gl == (k as int) * gl + gl) by (nonlinear_arith);
            }
            k += 1;
        }
        proof {
            if k < n {
                assert(!((n as int) * (next_vert as int) > (k as int) * (l_total as int)));
                assert(gn * prefix_len(lv, j as int + 1) <= (k as int) * gl);
            } else {
                assert(k == n);
                assert(gn * (next_vert as int) <= gn * gl) by (nonlinear_arith)
                    requires
                        next_vert as int <= gl,
                        gn >= 0,
                ;
            }
        }
        prev_vert = next_vert;
        j += 1;
    }
    proof {
        assert(prev_vert as int == edge_len(lv));
        if (k as int) < gn {
            assert(gn * gl <= (k as int) * gl);
            if gl > 0 {
                assert(gn <= k as int) by (nonlinear_arith)
                    requires
                        gn * gl <= (k as int) * gl,
                        gl > 0,
                ;
            } else {
                assert(gl == 0);
                assert(gl / (resampling_distance as int) == 0);
                assert(gn == 1);
            }
            assert(false);
        }
        assert(k as int == gn);
    }
    let last_az = get_normalized_line_azimuth(line[m - 2], line[m - 1]);
    out.push(RoadPoint { coord: line[m - 1], azimuth: last_az });
    proof {
        assert(out@[gn].coord == lv.last());
        assert(is_resampling_of(lv, resampling_distance as int, out@));
    }
    out
}

/// The total number of points resampling produces on a set of edges.
pub open spec fn total_samples(ls: Seq<Seq<Coord>>, d: int) -> int
    decreases ls.len(),
{
    if ls.len() == 0 {
        0
    } else {
        total_samples(ls.drop_last(), d) + sample_count(ls.last(), d)
    }
}

/// Every edge contributes a non-negative number of points.
pub proof fn lemma_total_samples_bounds(ls: Seq<Seq<Coord>>, d: int)
    ensures
        0 <= total_samples(ls, d),
        forall|i: int|
            0 <= i <= ls.len() ==> #[trigger] total_samples(ls.take(i), d) <= total_samples(ls, d),
    decreases ls.len(),
{
    if ls.len() == 0 {
        assert forall|i: int| 0 <= i <= ls.len() implies #[trigger] total_samples(ls.take(i), d)
            <= total_samples(ls, d) by {
            assert(ls.take(i) =~= ls);
        }
    } else {
        lemma_total_samples_bounds(ls.drop_last(), d);
        lemma_sample_count_nonneg(ls.last(), d);
        assert forall|i: int| 0 <= i <= ls.len() implies #[trigger] total_samples(ls.take(i), d)
            <= total_samples(ls, d) by {
            if i == ls.len() {
                assert(ls.take(i) =~= ls);
            } else {
                assert(ls.take(i) =~= ls.drop_last().take(i));
            }
        }
    }
}

/// Whether `out` is the concatenation, in edge order, of resamplings of the
/// edges of `ls`: the block of edge `e` starts at the total count of the
/// edges before it.
pub open spec fn is_resampling_of_lines(ls: Seq<Seq<Coord>>, d: int, out: Seq<RoadPoint>) -> bool {
    &&& out.len() == total_samples(ls, d)
    &&& forall|e: int|
        0 <= e < ls.len() ==> is_resampling_of(
            ls[e],
            d,
            out.subrange(
                total_samples(ls.take(e), d),
                #[trigger] total_samples(ls.take(e + 1), d),
            ),
        )
}

/// Sample evenly spaced points along every edge, flattened in edge order.
/// Each edge is resampled independently of the others.
pub fn sample_points_on_lines(lines: &Vec<Vec<Coord>>, resampling_distance: i64) -> (r: Vec<
    RoadPoint,
>)
    requires
        forall|i: int| 0 <= i < lines@.len() ==> coords_in_bounds((#[trigger] lines@[i])@),
        forall|i: int| 0 <= i < lines@.len() ==> (#[trigger] lines@[i])@.len() <= MAX_EDGE_VERTICES,
    ensures
        is_resampling_of_lines(crate::graph::vecs_view(lines@), resampling_distance as int, r@),
        road_points_in_bounds(r@),
{
    let ghost lsv = crate::graph::vecs_view(lines@);
    let mut out: Vec<RoadPoint> = Vec::new();
    let mut e: usize = 0;
    while e < lines.len()
        invariant
            lsv == crate::graph::vecs_view(lines@),
            forall|i: int| 0 <= i < lines@.len() ==> coords_in_bounds((#[trigger] lines@[i])@),
            forall|i: int|
                0 <= i < lines@.len() ==> (#[trigger] lines@[i])@.len() <= MAX_EDGE_VERTICES,
            0 <= e <= lines@.len(),
            out@.len() == total_samples(lsv.take(e as int), resampling_distance as int),
            forall|e2: int|
                0 <= e2 < e ==> is_resampling_of(
                    lsv[e2],
                    resampling_distance as int,
                    out@.subrange(
                        total_samples(lsv.take(e2), resampling_distance as int),
                        #[trigger] total_samples(lsv.take(e2 + 1), resampling_distance as int),
                    ),
                ),
            road_points_in_bounds(out@),
        decreases lines@.len() - e,
    {
        let ghost out_before = out@;
        let mut pts = sample_points_on_line(&lines[e], resampling_distance);
        let ghost pv = pts@;
        out.append(&mut pts);
        proof {
            assert(out@ == out_before + pv);
            assert(lsv.take(e as int + 1).drop_last() =~= lsv.take(e as int));
            assert(lsv.take(e as int + 1).last() == lsv[e as int]);
            assert(lsv[e as int] == lines@[e as int]@);
            lemma_total_samples_bounds(lsv.take(e as int), resampling_distance as int);
            assert(out@.subrange(
                total_samples(lsv.take(e as int), resampling_distance as int),
                total_samples(lsv.take(e as int + 1), resampling_distance as int),
            ) =~= pv);
            assert forall|e2: int| 0 <= e2 < e + 1 implies is_resampling_of(
                lsv[e2],
                resampling_distance as int,
                out@.subrange(
                    total_samples(lsv.take(e2), resampling_distance as int),
                    #[trigger] total_samples(lsv.take(e2 + 1), resampling_distance as int),
                ),
            ) by {
                if e2 < e {
                    lemma_total_samples_bounds(lsv.take(e2), resampling_distance as int);
                    lemma_total_samples_bounds(lsv.take(e2 + 1), resampling_distance as int);
                    assert(lsv.take(e2) =~= lsv.take(e as int).take(e2));
                    assert(lsv.take(e2 + 1) =~= lsv.take(e as int).take(e2 + 1));
                    lemma_total_samples_prefix(lsv.take(e as int), e2 + 1, resampling_distance as int);
                    lemma_total_samples_prefix(lsv.take(e as int), e2, resampling_distance as int);
                    assert(lsv.take(e2 + 1).drop_last() =~= lsv.take(e2));
                    assert(lsv.take(e2 + 1).last() == lsv[e2]);
                    lemma_sample_count_nonneg(lsv[e2], resampling_distance as int);
                    assert(total_samples(lsv.take(e2), resampling_distance as int) <= total_samples(
                        lsv.take(e2 + 1),
                        resampling_distance as int,
                    ));
                    assert(out@.subrange(
                        total_samples(lsv.take(e2), resampling_distance as int),
                        total_samples(lsv.take(e2 + 1), resampling_distance as int),
                    ) =~= out_before.subrange(
                        total_samples(lsv.take(e2), resampling_distance as int),
                        total_samples(lsv.take(e2 + 1), resampling_distance as int),
                    ));
                }
            }
        }
        e += 1;
    }
    proof {
        assert(lsv.take(lines@.len() as int) =~= lsv);
    }
    out
}

/// Prefix totals never exceed the whole and are monotone in the prefix.
proof fn lemma_total_samples_prefix(ls: Seq<Seq<Coord>>, i: int, d: int)
    requires
        0 <= i <= ls.len(),
    ensures
        0 <= total_samples(ls.take(i), d) <= total_samples(ls, d),
    decreases ls.len() - i,
{
    if i == ls.len() {
        assert(ls.take(i) =~= ls);
        lemma_total_samples_bounds(ls, d);
    } else {
        lemma_total_samples_prefix(ls.take(ls.len() - 1), i, d);
        assert(ls.take(ls.len() - 1) =~= ls.drop_last());
        assert(ls.take(ls.len() - 1).take(i) =~= ls.take(i));
        lemma_sample_count_nonneg(ls.last(), d);
    }
}

/// A single edge's sample count is never negative.
proof fn lemma_sample_count_nonneg(line: Seq<Coord>, d: int)
    ensures
        sample_count(line, d) >= 0,
{
    if !(line.len() < 2 || d <= 0) {
        lemma_prefix_len_nonneg(line, line.len() - 1);
        vstd::arithmetic::div_mod::lemma_div_pos_is_pos(edge_len(line), d);
    }
}

/// Prefix lengths are never negative.
proof fn lemma_prefix_len_nonneg(line: Seq<Coord>, j: int)
    ensures
        prefix_len(line, j) >= 0,
    decreases j,
{
    if j > 0 {
        lemma_prefix_len_nonneg(line, j - 1);
        crate::coords::lemma_sqrt_floor_nonneg(sq_dist(line[j - 1], line[j]));
    }
}

/// A segment has length zero exactly when its endpoints coincide.
proof fn lemma_seg_len_zero_iff(a: Coord, b: Coord)
    ensures
        seg_len(a, b) == 0 <==> a == b,
{
    let dx = a.x - b.x;
    let dy = a.y - b.y;
    assert(sq_dist(a, b) == dx * dx + dy * dy);
    assert(dx * dx >= 0) by (nonlinear_arith);
    assert(dy * dy >= 0) by (nonlinear_arith);
    crate::coords::lemma_sqrt_floor_bounds(dx * dx + dy * dy);
    if seg_len(a, b) == 0 {
        assert(sqrt_floor(dx * dx + dy * dy) == 0);
        assert(dx * dx + dy * dy < (sqrt_floor(dx * dx + dy * dy) + 1) * (sqrt_floor(
            dx * dx + dy * dy,
        ) + 1));
        assert(dx * dx + dy * dy < 1 * 1) by (nonlinear_arith)
            requires
                dx * dx + dy * dy < (0 + 1) * (0 + 1),
        ;
        assert(dx * dx + dy * dy <= 0);
        assert(dx == 0) by (nonlinear_arith)
            requires
                dx * dx + dy * dy <= 0,
                dx * dx >= 0,
                dy * dy >= 0,
        ;
        assert(dy == 0) by (nonlinear_arith)
            requires
                dx * dx + dy * dy <= 0,
                dx * dx >= 0,
                dy * dy >= 0,
        ;
        assert(a.x == b.x && a.y == b.y);
    } else {
        if a == b {
            assert(dx == 0 && dy == 0);
            assert(dx * dx + dy * dy == 0) by (nonlinear_arith)
                requires
                    dx == 0,
                    dy == 0,
            ;
            assert(seg_len(a, b) == 0);
        }
    }
}

/// Prefix lengths never shrink as more segments are added.
proof fn lemma_prefix_len_monotone(line: Seq<Coord>, j1: int, j2: int)
    requires
        j1 <= j2,
    ensures
        prefix_len(line, j1) <= prefix_len(line, j2),
    decreases j2 - j1,
{
    if j1 < j2 {
        lemma_prefix_len_monotone(line, j1, j2 - 1);
        crate::coords::lemma_sqrt_floor_nonneg(sq_dist(line[j2 - 1], line[j2]));
    }
}

/// The sample walker at arc position zero yields the first coordinate.
proof fn lemma_sample_point_zero(line: Seq<Coord>, n: int)
    requires
        n > 0,
        line.len() >= 1,
    ensures
        sample_point(line, 0, n).0 == line[0].x as int,
        sample_point(line, 0, n).1 == line[0].y as int,
    decreases line.len(),
{
    if line.len() >= 2 {
        let l0 = seg_len(line[0], line[1]);
        crate::coords::lemma_sqrt_floor_nonneg(sq_dist(line[0], line[1]));
        if n * l0 > 0 {
            assert(l0 > 0) by (nonlinear_arith)
                requires
                    n * l0 > 0,
                    n > 0,
                    l0 >= 0,
            ;
            vstd::arithmetic::div_mod::lemma_div_of0(n);
            vstd::arithmetic::div_mod::lemma_div_of0(l0);
            assert((line[1].x - line[0].x) * 0 == 0) by (nonlinear_arith);
            assert((line[0].x - line[1].x) * 0 == 0) by (nonlinear_arith);
            assert((line[1].y - line[0].y) * 0 == 0) by (nonlinear_arith);
            assert((line[0].y - line[1].y) * 0 == 0) by (nonlinear_arith);
        } else {
            assert(l0 == 0) by (nonlinear_arith)
                requires
                    !(n * l0 > 0),
                    n > 0,
                    l0 >= 0,
            ;
            lemma_seg_len_zero_iff(line[0], line[1]);
            assert(n * l0 == 0) by (nonlinear_arith)
                requires
                    l0 == 0,
            ;
            lemma_sample_point_zero(line.drop_first(), n);
            assert(line.drop_first()[0] == line[1]);
        }
    }
}

/// The sample walker at the full arc length yields the last coordinate.
proof fn lemma_sample_point_end(line: Seq<Coord>, n: int)
    requires
        n > 0,
        line.len() >= 2,
    ensures
        sample_point(line, n * edge_len(line), n).0 == line.last().x as int,
        sample_point(line, n * edge_len(line), n).1 == line.last().y as int,
    decreases line.len(),
{
    let l0 = seg_len(line[0], line[1]);
    let gl = edge_len(line);
    assert(prefix_len(line, 1) == prefix_len(line, 0) + l0);
    lemma_prefix_len_monotone(line, 1, line.len() - 1);
    assert(l0 <= gl);
    assert(n * l0 <= n * gl) by (nonlinear_arith)
        requires
            l0 <= gl,
            n > 0,
    ;
    assert(!(n * l0 > n * gl));
    let rest = line.drop_first();
    assert(sample_point(line, n * gl, n) == sample_point(rest, n * gl - n * l0, n));
    if line.len() == 2 {
        assert(gl == l0);
        assert(n * gl - n * l0 == 0);
        assert(rest.len() == 1);
        assert(rest[0] == line[1]);
        assert(line.last() == line[1]);
        assert(sample_point(rest, 0, n).0 == rest[0].x as int);
    } else {
        lemma_prefix_len_drop_first(line, line.len() - 2);
        assert(edge_len(rest) == gl - l0);
        assert(n * gl - n * l0 == n * (gl - l0)) by (nonlinear_arith);
        lemma_sample_point_end(rest, n);
        assert(rest.last() == line.last());
    }
}

/// The first and last resampled point of any edge with at least two
/// coordinates and a positive resampling distance are exactly the edge's
/// own first and last coordinate.
pub proof fn lemma_resampling_keeps_endpoints(line: Seq<Coord>, d: int, out: Seq<RoadPoint>)
    requires
        is_resampling_of(line, d, out),
        line.len() >= 2,
        d > 0,
    ensures
        out.len() >= 2,
        out[0].coord == line[0],
        out.last().coord == line.last(),
{
    lemma_prefix_len_nonneg(line, line.len() - 1);
    vstd::arithmetic::div_mod::lemma_div_pos_is_pos(edge_len(line), d);
}

/// A non-positive resampling distance, or an edge with fewer than two
/// coordinates, yields an empty point sequence.
pub proof fn lemma_resampling_empty(line: Seq<Coord>, d: int, out: Seq<RoadPoint>)
    requires
        is_resampling_of(line, d, out),
        line.len() < 2 || d <= 0,
    ensures
        out.len() == 0,
{
}

/// Resampled points are evenly spaced: point `k` lies at arc position
/// `k * edge_len(line) / num_parts`, for every `k` from the first point to
/// the last, so the positions of consecutive points differ by exactly
/// `edge_len(line) / num_parts(edge_len(line), d)` — the whole edge length
/// divided evenly. The position is stated through the sample walker, whose
/// argument is the position's numerator over the denominator `num_parts`.
pub proof fn lemma_resampled_points_evenly_spaced(
    line: Seq<Coord>,
    d: int,
    out: Seq<RoadPoint>,
    k: int,
)
    requires
        is_resampling_of(line, d, out),
        line.len() >= 2,
        d > 0,
        0 <= k <= num_parts(edge_len(line), d),
    ensures
        out[k].coord.x as int == sample_point(line, k * edge_len(line), num_parts(
            edge_len(line),
            d,
        )).0,
        out[k].coord.y as int == sample_point(line, k * edge_len(line), num_parts(
            edge_len(line),
            d,
        )).1,
{
    let gl = edge_len(line);
    let n = num_parts(gl, d);
    lemma_prefix_len_nonneg(line, line.len() - 1);
    vstd::arithmetic::div_mod::lemma_div_pos_is_pos(gl, d);
    if k == 0 {
        lemma_sample_point_zero(line, n);
        assert(0 * gl == 0) by (nonlinear_arith);
    } else if k == n {
        lemma_sample_point_end(line, n);
    }
}

/// The azimuth of a horizontal segment, in either direction, points along
/// the positive x axis: the heading angle `atan2(dy, dx)` is zero.
pub proof fn lemma_azimuth_horizontal(dx: int, dy: int)
    requires
        dy == 0,
        dx != 0,
    ensures
        azimuth_spec(dx, dy).0 > 0,
        azimuth_spec(dx, dy).1 == 0,
{
}

/// The azimuth of a vertical segment, in either direction, points along
/// the positive y axis: the heading angle is `+pi/2`, one canonical value
/// independent of the vertex order.
pub proof fn lemma_azimuth_vertical(dx: int, dy: int)
    requires
        dx == 0,
        dy != 0,
    ensures
        azimuth_spec(dx, dy).0 == 0,
        azimuth_spec(dx, dy).1 > 0,
{
}

/// The azimuth of a diagonal segment points at `+pi/4` or `-pi/4` after
/// x-mirroring: at `+pi/4` exactly when the segment's deltas share a sign.
pub proof fn lemma_azimuth_diagonal(dx: int, dy: int)
    requires
        dx != 0,
        dy == dx || dy == -dx,
    ensures
        azimuth_spec(dx, dy).0 > 0,
        azimuth_spec(dx, dy).1 == azimuth_spec(dx, dy).0 || azimuth_spec(dx, dy).1 == -azimuth_spec(
            dx,
            dy,
        ).0,
        azimuth_spec(dx, dy).1 == azimuth_spec(dx, dy).0 <==> (dx > 0 <==> dy > 0),
{
}

} // verus!
