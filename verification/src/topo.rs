//! The TOPO metric: resample both road networks into evenly spaced points,
//! match proposal points greedily against ground-truth points within the
//! hole radius, and score the match.
//!
//! Matching is greedy and first-come: proposal points are processed in
//! ascending id order, and each takes the first ground-truth candidate in
//! its candidate list that no earlier proposal point has claimed. Candidate
//! lists come from the spatial index in no specified order, so the outcome
//! is deterministic only for a fixed index iteration order; what holds of
//! every order is stated and proved here: each ground-truth point is
//! claimed at most once (`lemma_ground_truth_claimed_once`), and a proposal
//! point stays unmatched only when all its in-range candidates are claimed
//! (`lemma_unmatched_is_exhausted`).

use vstd::prelude::*;

use crate::coords::{coord_in_bounds, sq_dist, squared_distance, Coord};
use crate::errors::TopoError;
use crate::graph::{flat_edge_geometries, GeoGraph};
use crate::resample::{is_resampling_of_lines, sample_points_on_lines, RoadPoint,
    MAX_EDGE_VERTICES};
use crate::spatial_index::{index_points, PointIndex};

verus! {

broadcast use vstd::seq_lib::group_to_multiset_ensures, vstd::multiset::group_multiset_axioms;

/// Configuration of the TOPO computation: the target spacing of resampled
/// points, and the largest distance at which a proposal point may claim a
/// ground-truth point. A non-positive `resampling_distance` yields empty
/// point sets (not an error); `hole_radius` is passed through to the range
/// query as it is, squared.
#[derive(Debug, Clone, Copy, PartialEq, Eq, Structural)]
pub struct TopoParams {
    pub resampling_distance: i64,
    pub hole_radius: i64,
}

/// An exact non-negative rational, kept unreduced. A zero denominator
/// arises exactly where the score formulas divide by zero (empty inputs);
/// converting such a ratio to floating point yields the NaN those
/// divisions would produce.
#[derive(Debug, Clone, Copy, PartialEq, Eq, Structural)]
pub struct Ratio {
    pub num: u128,
    pub den: u128,
}

/// The TOPO score: precision, recall and F1, as exact ratios.
#[derive(Debug, Clone, Copy, PartialEq, Eq, Structural)]
pub struct F1ScoreResult {
    pub precision: Ratio,
    pub recall: Ratio,
    pub f1_score: Ratio,
}

/// A resampled point wrapped for matching: a sequential id (ids count
/// separately per side), the matched flag, and the exact squared distance
/// of the match when there is one. Created unmatched, claimed at most once
/// during matching, immutable afterward.
#[derive(Debug, Clone, Copy, PartialEq, Eq, Structural)]
pub struct TopoNode {
    pub road_point: RoadPoint,
    pub id: u64,
    pub matched: bool,
    pub match_squared_distance: Option<i64>,
}

impl TopoNode {
    /// Wrap a road point under the given id, unmatched.
    pub fn new(point: RoadPoint, id: u64) -> (r: TopoNode)
        ensures
            r.road_point == point,
            r.id == id,
            !r.matched,
            r.match_squared_distance is None,
    {
        TopoNode { road_point: point, id, matched: false, match_squared_distance: None }
    }
}

/// The outcome of the TOPO computation: the score and both fully annotated
/// point sets.
pub struct TopoResult {
    pub f1_score_result: F1ScoreResult,
    pub ground_truth_nodes: Vec<TopoNode>,
    pub proposal_nodes: Vec<TopoNode>,
}

/// Wrap road points into unmatched nodes with sequential ids.
pub fn road_points_to_topo_nodes(road_points: Vec<RoadPoint>) -> (r: Vec<TopoNode>)
    ensures
        r@.len() == road_points@.len(),
        forall|i: int|
            0 <= i < r@.len() ==> (#[trigger] r@[i]) == (TopoNode {
                road_point: road_points@[i],
                id: i as u64,
                matched: false,
                match_squared_distance: None,
            }),
{
    let mut out: Vec<TopoNode> = Vec::new();
    let mut i: usize = 0;
    while i < road_points.len()
        invariant
            0 <= i <= road_points@.len(),
            out@.len() == i,
            forall|k: int|
                0 <= k < i ==> (#[trigger] out@[k]) == (TopoNode {
                    road_point: road_points@[k],
                    id: k as u64,
                    matched: false,
                    match_squared_distance: None,
                }),
        decreases road_points@.len() - i,
    {
        out.push(TopoNode::new(road_points[i], i as u64));
        i += 1;
    }
    out
}

/// The first candidate in list order whose ground-truth id is not yet
/// claimed.
pub open spec fn first_unclaimed(cands: Seq<(i64, u64)>, claimed: Set<u64>) -> Option<(i64, u64)>
    decreases cands.len(),
{
    if cands.len() == 0 {
        None
    } else if !claimed.contains(cands[0].1) {
        Some(cands[0])
    } else {
        first_unclaimed(cands.drop_first(), claimed)
    }
}

/// The set of ground-truth ids claimed after the first `i` proposal points
/// have taken their turns, each claiming the first unclaimed entry of its
/// candidate list.
pub open spec fn claimed_after(cands: Seq<Seq<(i64, u64)>>, i: int) -> Set<u64>
    decreases i,
{
    if i <= 0 {
        Set::<u64>::empty()
    } else {
        let prev = claimed_after(cands, i - 1);
        match first_unclaimed(cands[i - 1], prev) {
            Some(p) => prev.insert(p.1),
            None => prev,
        }
    }
}

/// What proposal point `i` claims: the first entry of its candidate list
/// not claimed by an earlier proposal point.
pub open spec fn greedy_choice(cands: Seq<Seq<(i64, u64)>>, i: int) -> Option<(i64, u64)> {
    first_unclaimed(cands[i], claimed_after(cands, i))
}

/// What `first_unclaimed` returns: an element of the list whose id is
/// unclaimed, or `None` exactly when every listed id is claimed.
pub proof fn lemma_first_unclaimed_props(cands: Seq<(i64, u64)>, claimed: Set<u64>)
    ensures
        match first_unclaimed(cands, claimed) {
            Some(p) => cands.contains(p) && !claimed.contains(p.1),
            None => forall|q: int| 0 <= q < cands.len() ==> claimed.contains((#[trigger] cands[q]).1),
        },
    decreases cands.len(),
{
    if cands.len() == 0 {
    } else if !claimed.contains(cands[0].1) {
    } else {
        lemma_first_unclaimed_props(cands.drop_first(), claimed);
        match first_unclaimed(cands.drop_first(), claimed) {
            Some(p) => {
                assert(cands.drop_first().contains(p));
                let q = choose|q: int|
                    0 <= q < cands.drop_first().len() && cands.drop_first()[q] == p;
                assert(cands[q + 1] == p);
            },
            None => {
                assert forall|q: int| 0 <= q < cands.len() implies claimed.contains(
                    (#[trigger] cands[q]).1,
                ) by {
                    if q > 0 {
                        assert(cands.drop_first()[q - 1] == cands[q]);
                    }
                }
            },
        }
    }
}

/// The claimed set is finite and grows by at most one per proposal point.
pub proof fn lemma_claimed_after_finite(cands: Seq<Seq<(i64, u64)>>, i: int)
    ensures
        claimed_after(cands, i).finite(),
        claimed_after(cands, i).len() <= if i <= 0 {
            0int
        } else {
            i
        },
    decreases i,
{
    if i > 0 {
        lemma_claimed_after_finite(cands, i - 1);
    }
}

/// Claims only grow as later proposal points take their turns.
pub proof fn lemma_claimed_after_monotone(cands: Seq<Seq<(i64, u64)>>, i: int, j: int)
    requires
        i <= j,
    ensures
        claimed_after(cands, i).subset_of(claimed_after(cands, j)),
    decreases j - i,
{
    if i < j {
        lemma_claimed_after_monotone(cands, i, j - 1);
    }
}

/// A successful choice claims an id that was unclaimed before that turn
/// and is claimed from the next turn on.
pub proof fn lemma_choice_claims(cands: Seq<Seq<(i64, u64)>>, i: int)
    requires
        0 <= i < cands.len(),
        greedy_choice(cands, i) is Some,
    ensures
        !claimed_after(cands, i).contains(greedy_choice(cands, i)->Some_0.1),
        claimed_after(cands, i + 1).contains(greedy_choice(cands, i)->Some_0.1),
        cands[i].contains(greedy_choice(cands, i)->Some_0),
{
    lemma_first_unclaimed_props(cands[i], claimed_after(cands, i));
}

/// Exactly-once matching: no ground-truth id is claimed by two distinct
/// proposal points. Holds whatever order each candidate list is in.
pub proof fn lemma_ground_truth_claimed_once(cands: Seq<Seq<(i64, u64)>>, i: int, j: int)
    requires
        0 <= i < j < cands.len(),
        greedy_choice(cands, i) is Some,
        greedy_choice(cands, j) is Some,
    ensures
        greedy_choice(cands, i)->Some_0.1 != greedy_choice(cands, j)->Some_0.1,
{
    lemma_choice_claims(cands, i);
    lemma_choice_claims(cands, j);
    lemma_claimed_after_monotone(cands, i + 1, j);
}

/// Greedy matching is exhaustive: a proposal point stays unmatched only
/// when, by the end, every id on its candidate list is claimed by some
/// proposal point. Holds whatever order each candidate list is in.
pub proof fn lemma_unmatched_is_exhausted(cands: Seq<Seq<(i64, u64)>>, i: int, q: int)
    requires
        0 <= i < cands.len(),
        greedy_choice(cands, i) is None,
        0 <= q < cands[i].len(),
    ensures
        claimed_after(cands, cands.len() as int).contains(cands[i][q].1),
{
    lemma_first_unclaimed_props(cands[i], claimed_after(cands, i));
    lemma_claimed_after_monotone(cands, i, cands.len() as int);
}

/// An id is claimed by the end exactly when some proposal point chose it.
pub proof fn lemma_claimed_iff_chosen(cands: Seq<Seq<(i64, u64)>>, i: int, g: u64)
    requires
        0 <= i <= cands.len(),
    ensures
        claimed_after(cands, i).contains(g) <==> exists|p: int|
            0 <= p < i && (#[trigger] greedy_choice(cands, p) matches Some(c) && c.1 == g),
    decreases i,
{
    if i > 0 {
        lemma_claimed_iff_chosen(cands, i - 1, g);
        if claimed_after(cands, i).contains(g) {
            if claimed_after(cands, i - 1).contains(g) {
                let p = choose|p: int|
                    0 <= p < i - 1 && (#[trigger] greedy_choice(cands, p) matches Some(c) && c.1
                        == g);
                assert(0 <= p < i && (greedy_choice(cands, p) matches Some(c) && c.1 == g));
            } else {
                assert((greedy_choice(cands, i - 1) matches Some(c) && c.1 == g));
            }
        } else {
            assert forall|p: int|
                !(0 <= p < i && (#[trigger] greedy_choice(cands, p) matches Some(c) && c.1
                    == g)) by {
                if 0 <= p < i - 1 {
                } else if p == i - 1 {
                    if greedy_choice(cands, i - 1) matches Some(c) && c.1 == g {
                        assert(claimed_after(cands, i).contains(g));
                    }
                }
            }
        }
    }
}

/// The spatial-index entries that stand for a node list: node `i`'s
/// coordinate with id `i`.
pub open spec fn node_point_entries(s: Seq<TopoNode>) -> Seq<(i64, i64, u64)> {
    Seq::new(s.len(), |i: int| (s[i].road_point.coord.x, s[i].road_point.coord.y, i as u64))
}

/// Whether every node's coordinate is within `COORD_LIMIT`.
pub open spec fn nodes_in_bounds(s: Seq<TopoNode>) -> bool {
    forall|i: int| 0 <= i < s.len() ==> coord_in_bounds((#[trigger] s[i]).road_point.coord)
}

/// The squared hole radius, as a mathematical integer.
pub open spec fn hole_sq(h: i64) -> int {
    h * h
}

/// The views of a vector of candidate lists.
pub open spec fn cand_views(c: Seq<Vec<(i64, u64)>>) -> Seq<Seq<(i64, u64)>> {
    Seq::new(c.len(), |i: int| c[i]@)
}

/// Build the point spatial index over all ground-truth nodes, keyed by
/// coordinate and carrying the node id.
fn build_kdtree_from_nodes(topo_nodes: &Vec<TopoNode>) -> (r: Result<PointIndex, TopoError>)
    requires
        nodes_in_bounds(topo_nodes@),
    ensures
        match r {
            Ok(t) => index_points(t) == node_point_entries(topo_nodes@).to_multiset(),
            Err(_) => false,
        },
{
    let mut t = PointIndex::new();
    let mut i: usize = 0;
    proof {
        assert(node_point_entries(topo_nodes@.take(0)) =~= Seq::<(i64, i64, u64)>::empty());
        assert(index_points(t) =~= node_point_entries(topo_nodes@.take(0)).to_multiset());
    }
    while i < topo_nodes.len()
        invariant
            nodes_in_bounds(topo_nodes@),
            0 <= i <= topo_nodes@.len(),
            index_points(t) == node_point_entries(topo_nodes@.take(i as int)).to_multiset(),
        decreases topo_nodes@.len() - i,
    {
        let c = topo_nodes[i].road_point.coord;
        t.insert(c.x, c.y, i as u64);
        proof {
            assert(node_point_entries(topo_nodes@.take(i as int + 1)) =~= node_point_entries(
                topo_nodes@.take(i as int),
            ).push((c.x, c.y, i as u64)));
            assert(node_point_entries(topo_nodes@.take(i as int)).push(
                (c.x, c.y, i as u64),
            ).to_multiset() =~= node_point_entries(topo_nodes@.take(i as int)).to_multiset().insert(
                (c.x, c.y, i as u64),
            ));
            assert(index_points(t) =~= node_point_entries(
                topo_nodes@.take(i as int + 1),
            ).to_multiset());
        }
        i += 1;
    }
    proof {
        assert(topo_nodes@.take(topo_nodes@.len() as int) =~= topo_nodes@);
    }
    Ok(t)
}

/// For every proposal node, all ground-truth nodes within the hole radius:
/// pairs of exact squared distance and ground-truth id, in the unspecified
/// order the spatial index returns them.
fn collect_candidates(
    index: &PointIndex,
    ground_truth_nodes: &Vec<TopoNode>,
    proposal_nodes: &Vec<TopoNode>,
    hole_radius: i64,
) -> (cands: Vec<Vec<(i64, u64)>>)
    requires
        index_points(*index) == node_point_entries(ground_truth_nodes@).to_multiset(),
        nodes_in_bounds(ground_truth_nodes@),
        nodes_in_bounds(proposal_nodes@),
    ensures
        cands@.len() == proposal_nodes@.len(),
        forall|i: int, q: int|
            0 <= i < cands@.len() && 0 <= q < cands@[i]@.len() ==> {
                let pr = (#[trigger] cands@[i]@[q]);
                &&& (pr.1 as int) < ground_truth_nodes@.len()
                &&& pr.0 == sq_dist(
                    proposal_nodes@[i].road_point.coord,
                    ground_truth_nodes@[pr.1 as int].road_point.coord,
                )
                &&& pr.0 <= hole_sq(hole_radius)
            },
        forall|i: int, g: int|
            0 <= i < proposal_nodes@.len() && 0 <= g < ground_truth_nodes@.len() && sq_dist(
                (#[trigger] proposal_nodes@[i]).road_point.coord,
                (#[trigger] ground_truth_nodes@[g]).road_point.coord,
            ) <= hole_sq(hole_radius) ==> exists|q: int|
                0 <= q < cands@[i]@.len() && (#[trigger] cands@[i]@[q]).1 == g as u64,
{
    let gtn = ground_truth_nodes.len();
    let ghost gts = ground_truth_nodes@;
    // The squared radius handed to the index, clamped to i64: every real
    // squared distance of in-bounds points is below i64::MAX, so clamping
    // changes no outcome.
    proof {
        assert(0 <= (hole_radius as int) * (hole_radius as int)
            <= 0x4000_0000_0000_0000_0000_0000_0000_0000) by (nonlinear_arith)
            requires
                -0x8000_0000_0000_0000 <= hole_radius as int <= 0x7fff_ffff_ffff_ffff,
        ;
    }
    let h128: i128 = (hole_radius as i128) * (hole_radius as i128);
    let r2: i64 = if h128 > 0x7fff_ffff_ffff_ffff_i128 {
        0x7fff_ffff_ffff_ffff_i64
    } else {
        h128 as i64
    };
    let mut cands: Vec<Vec<(i64, u64)>> = Vec::new();
    let mut i: usize = 0;
    while i < proposal_nodes.len()
        invariant
            index_points(*index) == node_point_entries(gts).to_multiset(),
            gts == ground_truth_nodes@,
            gtn == gts.len(),
            nodes_in_bounds(gts),
            nodes_in_bounds(proposal_nodes@),
            h128 == (hole_radius as int) * (hole_radius as int),
            h128 >= 0,
            r2 as int == if h128 > i64::MAX {
                i64::MAX as int
            } else {
                h128 as int
            },
            0 <= i <= proposal_nodes@.len(),
            cands@.len() == i,
            forall|i2: int, q: int|
                0 <= i2 < i && 0 <= q < cands@[i2]@.len() ==> {
                    let pr = (#[trigger] cands@[i2]@[q]);
                    &&& (pr.1 as int) < gts.len()
                    &&& pr.0 == sq_dist(
                        proposal_nodes@[i2].road_point.coord,
                        gts[pr.1 as int].road_point.coord,
                    )
                    &&& pr.0 <= hole_sq(hole_radius)
                },
            forall|i2: int, g: int|
                0 <= i2 < i && 0 <= g < gts.len() && sq_dist(
                    (#[trigger] proposal_nodes@[i2]).road_point.coord,
                    (#[trigger] gts[g]).road_point.coord,
                ) <= hole_sq(hole_radius) ==> exists|q: int|
                    0 <= q < cands@[i2]@.len() && (#[trigger] cands@[i2]@[q]).1 == g as u64,
        decreases proposal_nodes@.len() - i,
    {
        let p = proposal_nodes[i].road_point.coord;
        proof {
            assert forall|e: (i64, i64, u64)| index_points(*index).contains(
                e,
            ) implies crate::spatial_index::entry_in_bounds(e) by {
                assert(node_point_entries(gts).contains(e));
                let k = choose|k: int|
                    0 <= k < node_point_entries(gts).len() && node_point_entries(gts)[k] == e;
                assert(coord_in_bounds(gts[k].road_point.coord));
            }
        }
        let raw = index.within_squared_radius(p.x, p.y, r2);
        let ghost rawv = raw@;
        let ghost filterfn = |e: (i64, i64, u64)|
            crate::spatial_index::entry_sq_dist(e, p.x, p.y) <= r2;
        let mut list: Vec<(i64, u64)> = Vec::new();
        let mut q: usize = 0;
        while q < raw.len()
            invariant
                gts == ground_truth_nodes@,
                gtn == gts.len(),
                nodes_in_bounds(gts),
                coord_in_bounds(p),
                h128 == (hole_radius as int) * (hole_radius as int),
                h128 >= 0,
                r2 as int == if h128 > i64::MAX {
                    i64::MAX as int
                } else {
                    h128 as int
                },
                rawv == raw@,
                rawv.to_multiset() == node_point_entries(gts).to_multiset().filter(filterfn),
                filterfn == (|e: (i64, i64, u64)|
                    crate::spatial_index::entry_sq_dist(e, p.x, p.y) <= r2),
                0 <= q <= rawv.len(),
                list@.len() == q,
                forall|q2: int|
                    0 <= q2 < q ==> {
                        let pr = (#[trigger] list@[q2]);
                        &&& pr.1 == rawv[q2].2
                        &&& (pr.1 as int) < gts.len()
                        &&& pr.0 == sq_dist(p, gts[pr.1 as int].road_point.coord)
                        &&& pr.0 <= hole_sq(hole_radius)
                    },
            decreases rawv.len() - q,
        {
            let e = raw[q];
            proof {
                assert(rawv.contains(rawv[q as int]));
                assert(rawv.to_multiset().contains(rawv[q as int]));
                assert(node_point_entries(gts).to_multiset().filter(filterfn).count(rawv[q as int])
                    > 0);
                assert(node_point_entries(gts).to_multiset().count(rawv[q as int]) > 0
                    && filterfn(rawv[q as int]));
                assert(node_point_entries(gts).contains(rawv[q as int]));
                let k = choose|k: int|
                    0 <= k < node_point_entries(gts).len() && node_point_entries(gts)[k]
                        == rawv[q as int];
                assert(gts[k].road_point.coord.x == e.0 && gts[k].road_point.coord.y == e.1
                    && k as u64 == e.2);
                assert(coord_in_bounds(gts[k].road_point.coord));
                assert(gts[k].road_point.coord == (Coord { x: e.0, y: e.1 }));
                assert(filterfn(rawv[q as int]));
                crate::coords::lemma_sq_dist_bound(p, gts[k].road_point.coord);
                assert(crate::spatial_index::entry_sq_dist(rawv[q as int], p.x, p.y) == sq_dist(
                    gts[k].road_point.coord,
                    p,
                ));
                crate::coords::lemma_sq_dist_symmetric(gts[k].road_point.coord, p);
                assert(0 <= k < gtn <= usize::MAX);
                assert(e.2 as int == k);
            }
            let d = squared_distance(p, Coord { x: e.0, y: e.1 });
            list.push((d, e.2));
            q += 1;
        }
        proof {
            // Completeness: every in-range ground-truth node id appears.
            assert forall|g: int|
                0 <= g < gts.len() && sq_dist(p, (#[trigger] gts[g]).road_point.coord) <= hole_sq(
                    hole_radius,
                ) implies exists|q2: int|
                0 <= q2 < list@.len() && (#[trigger] list@[q2]).1 == g as u64 by {
                let eg = (gts[g].road_point.coord.x, gts[g].road_point.coord.y, g as u64);
                assert(node_point_entries(gts)[g] == eg);
                assert(node_point_entries(gts).contains(eg));
                assert(node_point_entries(gts).to_multiset().contains(eg));
                crate::coords::lemma_sq_dist_bound(p, gts[g].road_point.coord);
                assert(crate::spatial_index::entry_sq_dist(eg, p.x, p.y) == sq_dist(
                    gts[g].road_point.coord,
                    p,
                ));
                crate::coords::lemma_sq_dist_symmetric(gts[g].road_point.coord, p);
                assert(filterfn(eg));
                assert(node_point_entries(gts).to_multiset().count(eg) > 0);
                assert(node_point_entries(gts).to_multiset().filter(filterfn).count(eg) > 0);
                assert(rawv.to_multiset().contains(eg));
                assert(rawv.contains(eg));
                let q2 = choose|q2: int| 0 <= q2 < rawv.len() && rawv[q2] == eg;
                assert(list@[q2].1 == g as u64);
            }
        }
        let ghost pre_cands = cands@;
        cands.push(list);
        proof {
            let iv = i as int;
            assert(cands@[iv]@ == list@);
            assert forall|i2: int, g: int|
                0 <= i2 < iv && 0 <= g < gts.len() && sq_dist(
                    (#[trigger] proposal_nodes@[i2]).road_point.coord,
                    (#[trigger] gts[g]).road_point.coord,
                ) <= hole_sq(hole_radius) implies exists|q: int|
                0 <= q < cands@[i2]@.len() && (#[trigger] cands@[i2]@[q]).1 == g as u64 by {
                assert(cands@[i2] == pre_cands[i2]);
                let q = choose|q: int|
                    0 <= q < pre_cands[i2]@.len() && (#[trigger] pre_cands[i2]@[q]).1 == g as u64;
                assert(cands@[i2]@[q].1 == g as u64);
            }
            assert forall|g: int|
                0 <= g < gts.len() && sq_dist(
                    proposal_nodes@[iv].road_point.coord,
                    (#[trigger] gts[g]).road_point.coord,
                ) <= hole_sq(hole_radius) implies exists|q2: int|
                0 <= q2 < cands@[iv]@.len() && (#[trigger] cands@[iv]@[q2]).1 == g as u64 by {
                let q2 = choose|q2: int|
                    0 <= q2 < list@.len() && (#[trigger] list@[q2]).1 == g as u64;
                assert(cands@[iv]@[q2].1 == g as u64);
            }
        }
        i += 1;
    }
    cands
}

/// When the first `q` entries of a candidate list are claimed and entry `q`
/// is not, entry `q` is the first unclaimed one.
proof fn lemma_first_unclaimed_at(cands: Seq<(i64, u64)>, claimed: Set<u64>, q: int)
    requires
        0 <= q < cands.len(),
        forall|q2: int| 0 <= q2 < q ==> claimed.contains((#[trigger] cands[q2]).1),
        !claimed.contains(cands[q].1),
    ensures
        first_unclaimed(cands, claimed) == Some(cands[q]),
    decreases q,
{
    if q == 0 {
    } else {
        assert forall|q2: int|
            0 <= q2 < q - 1 implies claimed.contains(
            (#[trigger] cands.drop_first()[q2]).1,
        ) by {
            assert(cands.drop_first()[q2] == cands[q2 + 1]);
        }
        assert(cands.drop_first()[q - 1] == cands[q]);
        lemma_first_unclaimed_at(cands.drop_first(), claimed, q - 1);
    }
}

/// When every entry of a candidate list is claimed, there is no first
/// unclaimed one.
proof fn lemma_first_unclaimed_none(cands: Seq<(i64, u64)>, claimed: Set<u64>)
    requires
        forall|q: int| 0 <= q < cands.len() ==> claimed.contains((#[trigger] cands[q]).1),
    ensures
        first_unclaimed(cands, claimed) is None,
    decreases cands.len(),
{
    if cands.len() > 0 {
        assert forall|q: int|
            0 <= q < cands.drop_first().len() implies claimed.contains(
            (#[trigger] cands.drop_first()[q]).1,
        ) by {
            assert(cands.drop_first()[q] == cands[q + 1]);
        }
        lemma_first_unclaimed_none(cands.drop_first(), claimed);
    }
}

/// The sequential claim phase: proposal nodes take their turns in
/// ascending id order; each claims the first entry of its candidate list
/// whose ground-truth id is unclaimed, and both sides of the claim record
/// the match and its exact squared distance. This is the one step of the
/// computation that must run with a single writer, in this fixed order.
///
/// Returns the annotated proposal nodes, the annotated ground-truth nodes,
/// and the number of claims.
fn determine_matches(
    proposal_nodes: Vec<TopoNode>,
    ground_truth_nodes: Vec<TopoNode>,
    cands: &Vec<Vec<(i64, u64)>>,
) -> (res: (Vec<TopoNode>, Vec<TopoNode>, usize))
    requires
        proposal_nodes@.len() == cands@.len(),
        forall|i: int|
            0 <= i < proposal_nodes@.len() ==> !(#[trigger] proposal_nodes@[i]).matched && (
            proposal_nodes@[i].match_squared_distance is None),
        forall|g: int|
            0 <= g < ground_truth_nodes@.len() ==> !(#[trigger] ground_truth_nodes@[g]).matched
                && (ground_truth_nodes@[g].match_squared_distance is None),
        forall|i: int, q: int|
            0 <= i < cands@.len() && 0 <= q < cands@[i]@.len() ==> ((
            #[trigger] cands@[i]@[q]).1 as int) < ground_truth_nodes@.len(),
    ensures
        ({
            let cv = cand_views(cands@);
            let n = cands@.len() as int;
            &&& res.0@.len() == proposal_nodes@.len()
            &&& res.1@.len() == ground_truth_nodes@.len()
            &&& forall|i: int|
                0 <= i < n ==> (#[trigger] res.0@[i]).road_point == proposal_nodes@[i].road_point
                    && res.0@[i].id == proposal_nodes@[i].id
            &&& forall|g: int|
                0 <= g < res.1@.len() ==> (#[trigger] res.1@[g]).road_point
                    == ground_truth_nodes@[g].road_point && res.1@[g].id
                    == ground_truth_nodes@[g].id
            &&& forall|i: int|
                0 <= i < n ==> match greedy_choice(cv, i) {
                    Some(c) => (#[trigger] res.0@[i]).matched
                        && res.0@[i].match_squared_distance == Some(c.0),
                    None => !(#[trigger] res.0@[i]).matched && (
                    res.0@[i].match_squared_distance is None),
                }
            &&& forall|g: int|
                0 <= g < res.1@.len() ==> ((#[trigger] res.1@[g]).matched <==> claimed_after(
                    cv,
                    n,
                ).contains(g as u64))
            &&& forall|g: int|
                0 <= g < res.1@.len() && (#[trigger] res.1@[g]).matched ==> exists|p: int|
                    0 <= p < n && (#[trigger] greedy_choice(cv, p) matches Some(c) && c.1
                        == g as u64 && res.1@[g].match_squared_distance == Some(c.0))
            &&& forall|g: int|
                0 <= g < res.1@.len() && !(#[trigger] res.1@[g]).matched ==> (
                res.1@[g].match_squared_distance is None)
            &&& res.2 == claimed_after(cv, n).len()
        }),
{
    let ghost cv = cand_views(cands@);
    let n = cands.len();
    let gtn = ground_truth_nodes.len();
    let mut props = proposal_nodes;
    let mut gts_out = ground_truth_nodes;
    let ghost props0 = props@;
    let ghost gts0 = gts_out@;

    let mut claimed: Vec<bool> = Vec::new();
    let mut z: usize = 0;
    while z < gtn
        invariant
            0 <= z <= gtn,
            claimed@.len() == z,
            forall|g: int| 0 <= g < z ==> !(#[trigger] claimed@[g]),
        decreases gtn - z,
    {
        claimed.push(false);
        z += 1;
    }

    let mut count: usize = 0;
    let mut i: usize = 0;
    while i < n
        invariant
            cv == cand_views(cands@),
            n == cands@.len(),
            gtn == gts0.len(),
            props0.len() == n,
            gts0 == ground_truth_nodes@,
            forall|i2: int|
                0 <= i2 < n ==> !(#[trigger] props0[i2]).matched && (
                props0[i2].match_squared_distance is None),
            forall|g: int|
                0 <= g < gtn ==> !(#[trigger] gts0[g]).matched && (
                gts0[g].match_squared_distance is None),
            forall|i2: int, q: int|
                0 <= i2 < n && 0 <= q < cv[i2].len() ==> ((#[trigger] cv[i2][q]).1 as int) < gtn,
            0 <= i <= n,
            props@.len() == n,
            gts_out@.len() == gtn,
            claimed@.len() == gtn,
            forall|g: int|
                0 <= g < gtn ==> (#[trigger] claimed@[g] == claimed_after(cv, i as int).contains(
                    g as u64,
                )),
            count == claimed_after(cv, i as int).len(),
            claimed_after(cv, i as int).finite(),
            forall|i2: int| i <= i2 < n ==> (#[trigger] props@[i2]) == props0[i2],
            forall|i2: int|
                0 <= i2 < i ==> (#[trigger] props@[i2]).road_point == props0[i2].road_point
                    && props@[i2].id == props0[i2].id,
            forall|i2: int|
                0 <= i2 < i ==> match greedy_choice(cv, i2) {
                    Some(c) => (#[trigger] props@[i2]).matched
                        && props@[i2].match_squared_distance == Some(c.0),
                    None => !(#[trigger] props@[i2]).matched && (
                    props@[i2].match_squared_distance is None),
                },
            forall|g: int|
                0 <= g < gtn ==> (#[trigger] gts_out@[g]).road_point == gts0[g].road_point
                    && gts_out@[g].id == gts0[g].id,
            forall|g: int|
                0 <= g < gtn ==> ((#[trigger] gts_out@[g]).matched <==> claimed_after(
                    cv,
                    i as int,
                ).contains(g as u64)),
            forall|g: int|
                0 <= g < gtn && (#[trigger] gts_out@[g]).matched ==> exists|p: int|
                    0 <= p < i && (#[trigger] greedy_choice(cv, p) matches Some(c) && c.1
                        == g as u64 && gts_out@[g].match_squared_distance == Some(c.0)),
            forall|g: int|
                0 <= g < gtn && !(#[trigger] gts_out@[g]).matched ==> (
                gts_out@[g].match_squared_distance is None),
        decreases n - i,
    {
        let ghost iv = i as int;
        let ghost claimed_set = claimed_after(cv, iv);
        let list = &cands[i];
        proof {
            assert(cv[iv] == list@);
        }
        let mut q: usize = 0;
        let mut chosen: Option<(i64, u64)> = None;
        while q < list.len() && chosen.is_none()
            invariant
                cv == cand_views(cands@),
                0 <= iv < cands@.len(),
                cv[iv] == list@,
                claimed_set == claimed_after(cv, iv),
                gtn == claimed@.len(),
                forall|q2: int| 0 <= q2 < list@.len() ==> ((#[trigger] list@[q2]).1 as int) < gtn,
                forall|g: int|
                    0 <= g < gtn ==> (#[trigger] claimed@[g] == claimed_set.contains(g as u64)),
                0 <= q <= list@.len(),
                chosen is None ==> forall|q2: int|
                    0 <= q2 < q ==> claimed_set.contains((#[trigger] list@[q2]).1),
                chosen matches Some(c) ==> first_unclaimed(list@, claimed_set) == Some(c),
            decreases list@.len() - q,
        {
            let pr = list[q];
            proof {
                assert((pr.1 as int) < gtn);
            }
            if !claimed[pr.1 as usize] {
                proof {
                    assert(!claimed_set.contains(pr.1));
                    lemma_first_unclaimed_at(list@, claimed_set, q as int);
                }
                chosen = Some(pr);
            }
            q += 1;
        }
        match chosen {
            Some(pr) => {
                proof {
                    assert(greedy_choice(cv, iv) == Some(pr));
                    lemma_first_unclaimed_props(cv[iv], claimed_set);
                    assert(!claimed_set.contains(pr.1));
                    lemma_claimed_after_finite(cv, iv);
                    assert(claimed_after(cv, iv + 1) == claimed_set.insert(pr.1));
                    assert(claimed_set.insert(pr.1).len() == claimed_set.len() + 1);
                    assert(count < n);
                }
                let old_p = props[i];
                props.set(
                    i,
                    TopoNode {
                        road_point: old_p.road_point,
                        id: old_p.id,
                        matched: true,
                        match_squared_distance: Some(pr.0),
                    },
                );
                let gidx = pr.1 as usize;
                let ghost pre_gts = gts_out@;
                let old_g = gts_out[gidx];
                gts_out.set(
                    gidx,
                    TopoNode {
                        road_point: old_g.road_point,
                        id: old_g.id,
                        matched: true,
                        match_squared_distance: Some(pr.0),
                    },
                );
                count += 1;
                proof {
                    assert forall|g: int|
                        0 <= g < gtn implies ((#[trigger] gts_out@[g]).matched
                        <==> claimed_after(cv, iv + 1).contains(g as u64)) by {
                        if g == pr.1 as int {
                        } else {
                            assert(g as u64 != pr.1);
                        }
                    }
                    assert forall|g: int|
                        0 <= g < gtn && (#[trigger] gts_out@[g]).matched implies exists|p: int|
                        0 <= p < iv + 1 && (#[trigger] greedy_choice(cv, p) matches Some(c) && c.1
                            == g as u64 && gts_out@[g].match_squared_distance == Some(c.0)) by {
                        if g == pr.1 as int {
                            assert(0 <= iv < iv + 1 && (greedy_choice(cv, iv) matches Some(c)
                                && c.1 == g as u64 && gts_out@[g].match_squared_distance == Some(
                                c.0,
                            )));
                        } else {
                            let p = choose|p: int|
                                0 <= p < iv && (#[trigger] greedy_choice(cv, p) matches Some(c)
                                    && c.1 == g as u64 && pre_gts[g].match_squared_distance
                                    == Some(c.0));
                        }
                    }
                }
            },
            None => {
                proof {
                    lemma_first_unclaimed_none(cv[iv], claimed_set);
                    assert(greedy_choice(cv, iv) is None);
                    assert(claimed_after(cv, iv + 1) =~= claimed_set);
                }
            },
        }
        let ghost new_set = claimed_after(cv, iv + 1);
        match chosen {
            Some(pr) => {
                claimed.set(pr.1 as usize, true);
                proof {
                    assert forall|g: int|
                        0 <= g < gtn implies (#[trigger] claimed@[g] == new_set.contains(
                        g as u64,
                    )) by {
                        if g != pr.1 as int {
                            assert(g as u64 != pr.1);
                        }
                    }
                }
            },
            None => {},
        }
        i += 1;
    }
    (props, gts_out, count)
}

/// How many nodes of a sequence carry the matched flag.
pub open spec fn count_matched(s: Seq<TopoNode>) -> int
    decreases s.len(),
{
    if s.len() == 0 {
        0
    } else {
        count_matched(s.drop_last()) + if s.last().matched {
            1int
        } else {
            0int
        }
    }
}

/// A matched-count is between zero and the sequence length.
pub proof fn lemma_count_matched_bounds(s: Seq<TopoNode>)
    ensures
        0 <= count_matched(s) <= s.len(),
    decreases s.len(),
{
    if s.len() > 0 {
        lemma_count_matched_bounds(s.drop_last());
    }
}

/// How many of the ids `0 .. g` a claimed set holds.
spec fn claimed_below(s: Set<u64>, g: int) -> int
    decreases g,
{
    if g <= 0 {
        0
    } else {
        claimed_below(s, g - 1) + if s.contains((g - 1) as u64) {
            1int
        } else {
            0int
        }
    }
}

/// Counting membership below `g` sees only membership below `g`.
proof fn lemma_claimed_below_congruent(s: Set<u64>, t: Set<u64>, g: int)
    requires
        forall|x: u64| (x as int) < g ==> (s.contains(x) <==> t.contains(x)),
    ensures
        claimed_below(s, g) == claimed_below(t, g),
    decreases g,
{
    if g > 0 {
        lemma_claimed_below_congruent(s, t, g - 1);
    }
}

/// For a finite set whose members all lie below `g`, counting membership
/// below `g` counts the whole set.
proof fn lemma_claimed_below_is_len(s: Set<u64>, g: int)
    requires
        s.finite(),
        0 <= g <= u64::MAX + 1,
        forall|x: u64| s.contains(x) ==> (x as int) < g,
    ensures
        claimed_below(s, g) == s.len(),
    decreases g,
{
    if g == 0 {
        if s.len() > 0 {
            let x = s.choose();
            assert(s.contains(x));
        }
    } else {
        let gm = (g - 1) as u64;
        if s.contains(gm) {
            let t = s.remove(gm);
            assert forall|x: u64| (x as int) < g - 1 implies (s.contains(x) <==> t.contains(x)) by {
                assert(x != gm);
            }
            lemma_claimed_below_is_len(t, g - 1);
            lemma_claimed_below_congruent(s, t, g - 1);
            assert(s.len() == t.len() + 1);
        } else {
            lemma_claimed_below_is_len(s, g - 1);
        }
    }
}

/// Matched flags that mirror a claimed set count exactly its size.
proof fn lemma_count_matched_is_claimed(s: Seq<TopoNode>, claimed: Set<u64>, g: int)
    requires
        0 <= g <= s.len(),
        forall|g2: int|
            0 <= g2 < s.len() ==> ((#[trigger] s[g2]).matched <==> claimed.contains(g2 as u64)),
    ensures
        count_matched(s.take(g)) == claimed_below(claimed, g),
    decreases g,
{
    if g > 0 {
        lemma_count_matched_is_claimed(s, claimed, g - 1);
        assert(s.take(g).drop_last() =~= s.take(g - 1));
        assert(s.take(g).last() == s[g - 1]);
    }
}

/// Proposal nodes whose flags follow the greedy choices count exactly the
/// claims made.
proof fn lemma_count_matched_is_choices(s: Seq<TopoNode>, cv: Seq<Seq<(i64, u64)>>, i: int)
    requires
        0 <= i <= s.len(),
        s.len() == cv.len(),
        forall|i2: int|
            0 <= i2 < s.len() ==> ((#[trigger] s[i2]).matched <==> greedy_choice(cv, i2) is Some),
    ensures
        count_matched(s.take(i)) == claimed_after(cv, i).len(),
    decreases i,
{
    if i > 0 {
        lemma_count_matched_is_choices(s, cv, i - 1);
        assert(s.take(i).drop_last() =~= s.take(i - 1));
        assert(s.take(i).last() == s[i - 1]);
        lemma_claimed_after_finite(cv, i - 1);
        match greedy_choice(cv, i - 1) {
            Some(c) => {
                lemma_choice_claims(cv, i - 1);
            },
            None => {},
        }
    }
}

/// Derive the TOPO score from the claim count and both point counts.
///
/// With `tp` claims, `fp = proposal_count - tp` and
/// `fn = ground_truth_count - tp`, the score is
/// `precision = tp / (tp + fp)`, `recall = tp / (tp + fn)` and
/// `f1 = 2 * precision * recall / (precision + recall)`, which simplifies
/// to `2 * tp / (proposal_count + ground_truth_count)`. The ratios are kept
/// exact and unreduced; empty inputs give a zero denominator, the exact
/// counterpart of those divisions by zero.
fn compute_f1_score(tp: usize, proposal_count: usize, ground_truth_count: usize) -> (r:
    F1ScoreResult)
    requires
        tp <= proposal_count,
        tp <= ground_truth_count,
    ensures
        r.precision == (Ratio { num: tp as u128, den: proposal_count as u128 }),
        r.recall == (Ratio { num: tp as u128, den: ground_truth_count as u128 }),
        r.f1_score == (Ratio {
            num: (2 * tp) as u128,
            den: (proposal_count + ground_truth_count) as u128,
        }),
{
    let num2: u128 = 2u128 * (tp as u128);
    let den2: u128 = (proposal_count as u128) + (ground_truth_count as u128);
    proof {
        assert(num2 == (2 * tp) as u128);
        assert(den2 == (proposal_count + ground_truth_count) as u128);
    }
    F1ScoreResult {
        precision: Ratio { num: tp as u128, den: proposal_count as u128 },
        recall: Ratio { num: tp as u128, den: ground_truth_count as u128 },
        f1_score: Ratio { num: num2, den: den2 },
    }
}

/// Whether a graph's edge geometries fit the resampling arithmetic: every
/// coordinate within `COORD_LIMIT` and no edge with more vertices than
/// `MAX_EDGE_VERTICES`.
pub open spec fn graph_lines_ok(g: &GeoGraph) -> bool {
    let ls = flat_edge_geometries(g.edge_graph.entries@);
    &&& forall|i: int| 0 <= i < ls.len() ==> crate::coords::coords_in_bounds(#[trigger] ls[i])
    &&& forall|i: int| 0 <= i < ls.len() ==> (#[trigger] ls[i]).len() <= MAX_EDGE_VERTICES as int
}

/// What `calculate_topo` promises of a result, over the two graphs' edge
/// geometry lists and the parameters.
///
/// Both node sets are exactly the resamplings of their edge sets, wrapped
/// with sequential ids. Every match records the exact squared distance
/// between the two coordinates, which is within the hole radius, and is
/// mirrored on the claimed ground-truth node. The matching is maximal: a
/// proposal node stays unmatched only when every ground-truth node within
/// the hole radius is claimed. Matched proposal and ground-truth nodes are
/// equally many, and the score is derived from that count: with
/// `tp = count_matched`, precision is `tp` over the proposal count, recall
/// is `tp` over the ground-truth count, and F1 is `2 * tp` over the sum.
pub open spec fn topo_result_matches(
    res: TopoResult,
    proposal_lines: Seq<Seq<Coord>>,
    ground_truth_lines: Seq<Seq<Coord>>,
    params: TopoParams,
) -> bool {
    let pn = res.proposal_nodes@;
    let gn = res.ground_truth_nodes@;
    let d = params.resampling_distance as int;
    &&& is_resampling_of_lines(proposal_lines, d, road_points_of(pn))
    &&& is_resampling_of_lines(ground_truth_lines, d, road_points_of(gn))
    &&& forall|i: int| 0 <= i < pn.len() ==> (#[trigger] pn[i]).id == i as u64
    &&& forall|g: int| 0 <= g < gn.len() ==> (#[trigger] gn[g]).id == g as u64
    &&& forall|i: int|
        0 <= i < pn.len() && (#[trigger] pn[i]).matched ==> exists|g: int|
            0 <= g < gn.len() && (#[trigger] gn[g]).matched && (match pn[i].match_squared_distance {
                Some(dist) => {
                    &&& dist == sq_dist(pn[i].road_point.coord, gn[g].road_point.coord)
                    &&& dist <= hole_sq(params.hole_radius)
                    &&& gn[g].match_squared_distance == Some(dist)
                },
                None => false,
            })
    &&& forall|i: int|
        0 <= i < pn.len() && !(#[trigger] pn[i]).matched ==> (
        pn[i].match_squared_distance is None)
    &&& forall|g: int|
        0 <= g < gn.len() && !(#[trigger] gn[g]).matched ==> (
        gn[g].match_squared_distance is None)
    &&& forall|i: int, g: int|
        0 <= i < pn.len() && 0 <= g < gn.len() && !(#[trigger] pn[i]).matched && sq_dist(
            pn[i].road_point.coord,
            (#[trigger] gn[g]).road_point.coord,
        ) <= hole_sq(params.hole_radius) ==> gn[g].matched
    &&& count_matched(pn) == count_matched(gn)
    &&& res.f1_score_result.precision == (Ratio {
        num: count_matched(pn) as u128,
        den: pn.len() as u128,
    })
    &&& res.f1_score_result.recall == (Ratio {
        num: count_matched(pn) as u128,
        den: gn.len() as u128,
    })
    &&& res.f1_score_result.f1_score == (Ratio {
        num: (2 * count_matched(pn)) as u128,
        den: (pn.len() + gn.len()) as u128,
    })
}

/// The road points of a node sequence, in order.
pub open spec fn road_points_of(s: Seq<TopoNode>) -> Seq<RoadPoint> {
    Seq::new(s.len(), |i: int| s[i].road_point)
}

/// Compute the TOPO metric of a proposal road graph against a ground-truth
/// road graph, both already in one common linear CRS: resample both edge
/// sets, match greedily within the hole radius, and score.
pub fn calculate_topo(
    proposal_graph: &GeoGraph,
    ground_truth_graph: &GeoGraph,
    params: &TopoParams,
) -> (r: Result<TopoResult, TopoError>)
    requires
        graph_lines_ok(proposal_graph),
        graph_lines_ok(ground_truth_graph),
    ensures
        match r {
            Ok(res) => topo_result_matches(
                res,
                flat_edge_geometries(proposal_graph.edge_graph.entries@),
                flat_edge_geometries(ground_truth_graph.edge_graph.entries@),
                *params,
            ),
            Err(_) => false,
        },
{
    let proposal_edges = proposal_graph.edge_geometries();
    let ground_truth_edges = ground_truth_graph.edge_geometries();
    let ghost plines = flat_edge_geometries(proposal_graph.edge_graph.entries@);
    let ghost glines = flat_edge_geometries(ground_truth_graph.edge_graph.entries@);

    proof {
        assert forall|i: int| 0 <= i < proposal_edges@.len() implies crate::coords::coords_in_bounds(
            (#[trigger] proposal_edges@[i])@,
        ) && proposal_edges@[i]@.len() <= MAX_EDGE_VERTICES as int by {
            assert(crate::graph::vecs_view(proposal_edges@)[i] == proposal_edges@[i]@);
            assert(plines[i] == proposal_edges@[i]@);
        }
        assert forall|i: int|
            0 <= i < ground_truth_edges@.len() implies crate::coords::coords_in_bounds(
            (#[trigger] ground_truth_edges@[i])@,
        ) && ground_truth_edges@[i]@.len() <= MAX_EDGE_VERTICES as int by {
            assert(crate::graph::vecs_view(ground_truth_edges@)[i] == ground_truth_edges@[i]@);
            assert(glines[i] == ground_truth_edges@[i]@);
        }
    }
    let proposal_points = sample_points_on_lines(&proposal_edges, params.resampling_distance);
    let ghost ppv = proposal_points@;
    let proposal_nodes = road_points_to_topo_nodes(proposal_points);
    let ground_truth_points = sample_points_on_lines(
        &ground_truth_edges,
        params.resampling_distance,
    );
    let ghost gpv = ground_truth_points@;
    let ground_truth_nodes = road_points_to_topo_nodes(ground_truth_points);
    proof {
        assert(road_points_of(proposal_nodes@) =~= ppv);
        assert(road_points_of(ground_truth_nodes@) =~= gpv);
    }

    let index = match build_kdtree_from_nodes(&ground_truth_nodes) {
        Ok(t) => t,
        Err(e) => {
            return Err(e);
        },
    };
    let cands = collect_candidates(&index, &ground_truth_nodes, &proposal_nodes, params.hole_radius);
    let ghost cv = cand_views(cands@);
    let ghost pn0 = proposal_nodes@;
    let ghost gn0 = ground_truth_nodes@;
    let (out_props, out_gts, tp) = determine_matches(proposal_nodes, ground_truth_nodes, &cands);
    let ghost n = cv.len();
    let out_gts_len = out_gts.len();

    proof {
        assert(gn0.len() == out_gts_len <= usize::MAX);
        // Matched proposal nodes count the claims.
        assert forall|i2: int|
            0 <= i2 < out_props@.len() implies ((#[trigger] out_props@[i2]).matched
            <==> greedy_choice(cv, i2) is Some) by {}
        lemma_count_matched_is_choices(out_props@, cv, n as int);
        assert(out_props@.take(n as int) =~= out_props@);
        lemma_claimed_after_finite(cv, n as int);
        // Matched ground-truth nodes count the same claims.
        lemma_count_matched_is_claimed(out_gts@, claimed_after(cv, n as int), gn0.len() as int);
        assert(out_gts@.take(gn0.len() as int) =~= out_gts@);
        assert forall|x: u64| claimed_after(cv, n as int).contains(x) implies (x as int)
            < gn0.len() by {
            lemma_claimed_iff_chosen(cv, n as int, x);
            let p = choose|p: int|
                0 <= p < n && (#[trigger] greedy_choice(cv, p) matches Some(c) && c.1 == x);
            lemma_choice_claims(cv, p);
            let c = greedy_choice(cv, p)->Some_0;
            assert(cv[p].contains(c));
            let q = choose|q: int| 0 <= q < cv[p].len() && cv[p][q] == c;
            assert(cands@[p]@[q] == c);
        }
        lemma_claimed_below_is_len(claimed_after(cv, n as int), gn0.len() as int);
        lemma_count_matched_bounds(out_props@);
        lemma_count_matched_bounds(out_gts@);
        assert(road_points_of(out_props@) =~= road_points_of(pn0));
        assert(road_points_of(out_gts@) =~= road_points_of(gn0));
    }

    let score = compute_f1_score(tp, out_props.len(), out_gts.len());

    proof {
        // Soundness of each match, and maximality of the matching.
        assert forall|i2: int|
            0 <= i2 < out_props@.len() && (#[trigger] out_props@[i2]).matched implies exists|g: int|
            0 <= g < out_gts@.len() && (#[trigger] out_gts@[g]).matched && (match out_props@[i2].match_squared_distance {
                Some(dist) => {
                    &&& dist == sq_dist(
                        out_props@[i2].road_point.coord,
                        out_gts@[g].road_point.coord,
                    )
                    &&& dist <= hole_sq(params.hole_radius)
                    &&& out_gts@[g].match_squared_distance == Some(dist)
                },
                None => false,
            }) by {
            let c = greedy_choice(cv, i2)->Some_0;
            lemma_choice_claims(cv, i2);
            let q = choose|q: int| 0 <= q < cv[i2].len() && cv[i2][q] == c;
            assert(cands@[i2]@[q] == c);
            let g = c.1 as int;
            assert(c.0 == sq_dist(pn0[i2].road_point.coord, gn0[g].road_point.coord));
            lemma_claimed_after_monotone(cv, i2 + 1, n as int);
            assert(claimed_after(cv, n as int).contains(c.1));
            assert(out_gts@[g].matched);
            // The node that claimed g is i2 itself: claims are unique.
            let p = choose|p: int|
                0 <= p < n && (#[trigger] greedy_choice(cv, p) matches Some(cc) && cc.1
                    == g as u64 && out_gts@[g].match_squared_distance == Some(cc.0));
            if p != i2 {
                if p < i2 {
                    lemma_ground_truth_claimed_once(cv, p, i2);
                } else {
                    lemma_ground_truth_claimed_once(cv, i2, p);
                }
            }
            assert(out_gts@[g].match_squared_distance == Some(c.0));
        }
        assert forall|i2: int, g: int|
            0 <= i2 < out_props@.len() && 0 <= g < out_gts@.len() && !(
            #[trigger] out_props@[i2]).matched && sq_dist(
                out_props@[i2].road_point.coord,
                (#[trigger] out_gts@[g]).road_point.coord,
            ) <= hole_sq(params.hole_radius) implies out_gts@[g].matched by {
            assert(greedy_choice(cv, i2) is None);
            let q = choose|q: int| 0 <= q < cands@[i2]@.len() && (#[trigger] cands@[i2]@[q]).1 == g as u64;
            assert(cv[i2][q].1 == g as u64);
            lemma_unmatched_is_exhausted(cv, i2, q);
            assert(claimed_after(cv, n as int).contains(g as u64));
        }
    }

    Ok(TopoResult { f1_score_result: score, ground_truth_nodes: out_gts, proposal_nodes: out_props })
}

} // verus!
