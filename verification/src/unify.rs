//! Bringing two graphs into one common projected CRS.
//!
//! All downstream distance computations assume a linear (metre-based)
//! coordinate system: Euclidean distances in geographic degrees would be
//! meaningless. The decisions live here, verified; the coordinate
//! transform itself is a collaborator's job (a PROJ pipeline), whose output
//! is handed back to `project_geograph`, which checks it against the
//! graph's shape and the edge-endpoint invariant before applying it.

use vstd::prelude::*;

use crate::coords::Coord;
use crate::crs::{Crs, CrsCode, CrsKind, EpsgCode};
use crate::errors::TopoError;
use crate::graph::{copy_coords, GeoEdge, GeoGraph, GeoNode, NodeIdx};

verus! {

/// How to bring a ground-truth and a proposal graph into one projected CRS.
#[derive(Debug, Clone, Copy, PartialEq, Eq, Structural)]
pub enum UnificationPlan {
    /// Both graphs already share one projected CRS: nothing to transform,
    /// every coordinate stays exactly as it is.
    AlreadyCommon,
    /// The ground truth is projected and the proposal differs: reproject
    /// the proposal into the ground truth's CRS, whose code this carries.
    ProjectProposalToGroundTruth(EpsgCode),
    /// The ground truth is geographic: resolve a UTM zone from its first
    /// node and reproject both graphs into it.
    ProjectBothToUtm,
}

/// Decide how to unify the two graphs' coordinate reference systems.
///
/// When the ground truth is projected, both CRS must expose numeric
/// authority codes (else `InvalidCrsAuthority`); equal codes need no work,
/// different codes send the proposal into the ground truth's CRS. A
/// geographic ground truth sends both graphs into a UTM zone.
pub fn crs_unification_plan(ground_truth_crs: &Crs, proposal_crs: &Crs) -> (r: Result<
    UnificationPlan,
    TopoError,
>)
    ensures
        match r {
            Ok(plan) => match plan {
                UnificationPlan::AlreadyCommon => ground_truth_crs.kind is Projected
                    && ground_truth_crs.code is Epsg && proposal_crs.code
                    == ground_truth_crs.code,
                UnificationPlan::ProjectProposalToGroundTruth(code) => {
                    &&& ground_truth_crs.kind is Projected
                    &&& ground_truth_crs.code == CrsCode::Epsg(code)
                    &&& proposal_crs.code is Epsg
                    &&& proposal_crs.code != ground_truth_crs.code
                },
                UnificationPlan::ProjectBothToUtm => ground_truth_crs.kind is Geographic,
            },
            Err(e) => e == TopoError::InvalidCrsAuthority && ground_truth_crs.kind is Projected
                && (ground_truth_crs.code is Unknown || proposal_crs.code is Unknown),
        },
{
    match ground_truth_crs.kind {
        CrsKind::Projected => {
            let gt_code = match ground_truth_crs.code {
                CrsCode::Epsg(c) => c,
                CrsCode::Unknown => {
                    return Err(TopoError::InvalidCrsAuthority);
                },
            };
            let prop_code = match proposal_crs.code {
                CrsCode::Epsg(c) => c,
                CrsCode::Unknown => {
                    return Err(TopoError::InvalidCrsAuthority);
                },
            };
            if gt_code == prop_code {
                Ok(UnificationPlan::AlreadyCommon)
            } else {
                Ok(UnificationPlan::ProjectProposalToGroundTruth(gt_code))
            }
        },
        CrsKind::Geographic => Ok(UnificationPlan::ProjectBothToUtm),
    }
}

/// The coordinate of the graph's first node, when it has one.
pub fn first_node_coordinate(geograph: &GeoGraph) -> (r: Option<Coord>)
    ensures
        match r {
            Some(c) => geograph.node_map.entries@.len() > 0 && c
                == geograph.node_map.entries@[0].1.geometry,
            None => geograph.node_map.entries@.len() == 0,
        },
{
    if geograph.node_map.entries.len() == 0 {
        None
    } else {
        Some(geograph.node_map.entries[0].1.geometry)
    }
}

/// The EPSG code of a WGS 84 UTM zone: the northern series starts at
/// 32600, the southern at 32700, plus the zone number.
pub fn utm_zone_epsg_code(zone_number: u8, zone_letter: char) -> (r: EpsgCode)
    ensures
        r as int == (if crate::crs::zone_letter_is_south(zone_letter) {
            32700int
        } else {
            32600int
        }) + zone_number as int,
{
    if zone_letter as u32 <= 'M' as u32 {
        32700 + (zone_number as u32)
    } else {
        32600 + (zone_number as u32)
    }
}

/// Select the UTM zone for a graph from the registry codes resolved for
/// its first node's coordinate.
///
/// Fails with `InvalidParameter` when the graph is not geographic, and
/// with `NoProjectedCrsFound` when it has no nodes or `utm_codes` is empty;
/// otherwise the first resolved code wins.
pub fn get_utm_zone_for_graph(geograph: &GeoGraph, utm_codes: &Vec<EpsgCode>) -> (r: Result<
    EpsgCode,
    TopoError,
>)
    ensures
        match r {
            Ok(code) => geograph.crs.kind is Geographic && geograph.node_map.entries@.len() > 0
                && utm_codes@.len() > 0 && code == utm_codes@[0],
            Err(e) => {
                if !(geograph.crs.kind is Geographic) {
                    e == TopoError::InvalidParameter
                } else {
                    e == TopoError::NoProjectedCrsFound && (geograph.node_map.entries@.len() == 0
                        || utm_codes@.len() == 0)
                }
            },
        },
{
    if !geograph.crs.is_geographic() {
        return Err(TopoError::InvalidParameter);
    }
    if geograph.node_map.entries.len() == 0 {
        return Err(TopoError::NoProjectedCrsFound);
    }
    if utm_codes.len() == 0 {
        return Err(TopoError::NoProjectedCrsFound);
    }
    Ok(utm_codes[0])
}

/// Whether transformed coordinates fit a graph: one coordinate per node in
/// node order; per edge-store entry, one geometry per parallel edge, each
/// with the original vertex count; and every transformed edge geometry
/// begins and ends exactly at its endpoint nodes' transformed coordinates,
/// so the edge-endpoint invariant survives the transform.
pub open spec fn reprojection_fits(
    g: &GeoGraph,
    node_geoms: Seq<Coord>,
    edge_geoms: Seq<Vec<Vec<Coord>>>,
) -> bool {
    let ns = g.node_map.entries@;
    let es = g.edge_graph.entries@;
    &&& node_geoms.len() == ns.len()
    &&& edge_geoms.len() == es.len()
    &&& forall|j: int| 0 <= j < es.len() ==> (#[trigger] edge_geoms[j])@.len() == es[j].2@.len()
    &&& forall|j: int, p: int|
        0 <= j < es.len() && 0 <= p < es[j].2@.len() ==> {
            let newg = (#[trigger] edge_geoms[j]@[p])@;
            &&& newg.len() == es[j].2@[p].geometry@.len()
            &&& newg.len() >= 2
            &&& (exists|k: int|
                0 <= k < ns.len() && (#[trigger] ns[k]).0 == es[j].0 && node_geoms[k] == newg[0])
            &&& (exists|k: int|
                0 <= k < ns.len() && (#[trigger] ns[k]).0 == es[j].1 && node_geoms[k]
                    == newg.last())
        }
}

/// What a successful reprojection leaves behind: the CRS replaced, every
/// node and edge keeping its key and data but carrying its transformed
/// geometry.
pub open spec fn reprojected(
    before: &GeoGraph,
    after: &GeoGraph,
    to_crs: Crs,
    node_geoms: Seq<Coord>,
    edge_geoms: Seq<Vec<Vec<Coord>>>,
) -> bool {
    let ns0 = before.node_map.entries@;
    let ns1 = after.node_map.entries@;
    let es0 = before.edge_graph.entries@;
    let es1 = after.edge_graph.entries@;
    &&& after.crs == to_crs
    &&& ns1.len() == ns0.len()
    &&& forall|k: int|
        0 <= k < ns0.len() ==> (#[trigger] ns1[k]).0 == ns0[k].0 && ns1[k].1.geometry
            == node_geoms[k] && ns1[k].1.data == ns0[k].1.data
    &&& es1.len() == es0.len()
    &&& forall|j: int|
        0 <= j < es0.len() ==> (#[trigger] es1[j]).0 == es0[j].0 && es1[j].1 == es0[j].1
            && es1[j].2@.len() == es0[j].2@.len()
    &&& forall|j: int, p: int|
        0 <= j < es0.len() && 0 <= p < es0[j].2@.len() ==> (#[trigger] es1[j].2@[p]).geometry@
            == edge_geoms[j]@[p]@ && es1[j].2@[p].data == es0[j].2@[p].data
}

/// Replace the graph's geometry with transformed coordinates and its CRS
/// with the transform's target.
///
/// `node_geoms` carries one coordinate per node in node order; `edge_geoms`
/// one geometry per parallel edge, grouped per edge-store entry. The whole
/// replacement is validated first — shape and the edge-endpoint invariant —
/// and applied only as a whole: on `InvalidGeometry` the graph is exactly
/// as it was.
pub fn project_geograph(
    geograph: &mut GeoGraph,
    to_crs: &Crs,
    node_geoms: &Vec<Coord>,
    edge_geoms: &Vec<Vec<Vec<Coord>>>,
) -> (r: Result<(), TopoError>)
    requires
        old(geograph).wf(),
    ensures
        final(geograph).wf(),
        match r {
            Ok(()) => reprojection_fits(old(geograph), node_geoms@, edge_geoms@) && reprojected(
                old(geograph),
                final(geograph),
                *to_crs,
                node_geoms@,
                edge_geoms@,
            ),
            Err(e) => e == TopoError::InvalidGeometry && !reprojection_fits(
                old(geograph),
                node_geoms@,
                edge_geoms@,
            ) && *final(geograph) == *old(geograph),
        },
{
    let ghost ns = geograph.node_map.entries@;
    let ghost es = geograph.edge_graph.entries@;

    // Validation pass: shape, then the endpoint invariant.
    if node_geoms.len() != geograph.node_map.entries.len() {
        return Err(TopoError::InvalidGeometry);
    }
    if edge_geoms.len() != geograph.edge_graph.entries.len() {
        return Err(TopoError::InvalidGeometry);
    }
    let mut j: usize = 0;
    while j < geograph.edge_graph.entries.len()
        invariant
            *geograph == *old(geograph),
            ns == geograph.node_map.entries@,
            es == geograph.edge_graph.entries@,
            old(geograph).wf(),
            node_geoms@.len() == ns.len(),
            edge_geoms@.len() == es.len(),
            0 <= j <= es.len(),
            forall|j2: int| 0 <= j2 < j ==> (#[trigger] edge_geoms@[j2])@.len() == es[j2].2@.len(),
            forall|j2: int, p: int|
                0 <= j2 < j && 0 <= p < es[j2].2@.len() ==> {
                    let newg = (#[trigger] edge_geoms@[j2]@[p])@;
                    &&& newg.len() == es[j2].2@[p].geometry@.len()
                    &&& newg.len() >= 2
                    &&& (exists|k: int|
                        0 <= k < ns.len() && (#[trigger] ns[k]).0 == es[j2].0 && node_geoms@[k]
                            == newg[0])
                    &&& (exists|k: int|
                        0 <= k < ns.len() && (#[trigger] ns[k]).0 == es[j2].1 && node_geoms@[k]
                            == newg.last())
                },
        decreases es.len() - j,
    {
        let entry_len = geograph.edge_graph.entries[j].2.len();
        if edge_geoms[j].len() != entry_len {
            return Err(TopoError::InvalidGeometry);
        }
        let start_key = geograph.edge_graph.entries[j].0;
        let end_key = geograph.edge_graph.entries[j].1;
        proof {
            // A well-formed graph holds both endpoint nodes of every edge.
            assert(es[j as int].2@.len() > 0);
            assert(crate::graph::node_geom_is(
                ns,
                es[j as int].0,
                es[j as int].2@[0].geometry@[0],
            ));
            assert(crate::graph::node_geom_is(
                ns,
                es[j as int].1,
                es[j as int].2@[0].geometry@.last(),
            ));
        }
        let start_pos = match find_node_position(&geograph.node_map.entries, start_key) {
            Some(k) => k,
            None => {
                proof {
                    assert(false);
                }
                return Err(TopoError::InvalidGeometry);
            },
        };
        let end_pos = match find_node_position(&geograph.node_map.entries, end_key) {
            Some(k) => k,
            None => {
                proof {
                    assert(false);
                }
                return Err(TopoError::InvalidGeometry);
            },
        };
        let mut p: usize = 0;
        while p < entry_len
            invariant
                *geograph == *old(geograph),
                ns == geograph.node_map.entries@,
                es == geograph.edge_graph.entries@,
                old(geograph).wf(),
                node_geoms@.len() == ns.len(),
                edge_geoms@.len() == es.len(),
                0 <= j < es.len(),
                entry_len == es[j as int].2@.len(),
                edge_geoms@[j as int]@.len() == entry_len,
                0 <= start_pos < ns.len(),
                ns[start_pos as int].0 == es[j as int].0,
                0 <= end_pos < ns.len(),
                ns[end_pos as int].0 == es[j as int].1,
                0 <= p <= entry_len,
                forall|p2: int|
                    0 <= p2 < p ==> {
                        let newg = (#[trigger] edge_geoms@[j as int]@[p2])@;
                        &&& newg.len() == es[j as int].2@[p2].geometry@.len()
                        &&& newg.len() >= 2
                        &&& node_geoms@[start_pos as int] == newg[0]
                        &&& node_geoms@[end_pos as int] == newg.last()
                    },
        decreases entry_len - p,
        {
            let newg = &edge_geoms[j][p];
            if newg.len() != geograph.edge_graph.entries[j].2[p].geometry.len() || newg.len() < 2 {
                return Err(TopoError::InvalidGeometry);
            }
            if !(newg[0] == node_geoms[start_pos]) || !(newg[newg.len() - 1]
                == node_geoms[end_pos]) {
                return Err(TopoError::InvalidGeometry);
            }
            p += 1;
        }
        j += 1;
    }
    proof {
        assert(reprojection_fits(old(geograph), node_geoms@, edge_geoms@));
    }

    // Application pass: replace node geometries, then edge geometries,
    // then the CRS.
    let mut k: usize = 0;
    while k < geograph.node_map.entries.len()
        invariant
            es == geograph.edge_graph.entries@,
            geograph.node_map.entries@.len() == ns.len(),
            node_geoms@.len() == ns.len(),
            0 <= k <= ns.len(),
            forall|k2: int|
                0 <= k2 < k ==> (#[trigger] geograph.node_map.entries@[k2]).0 == ns[k2].0
                    && geograph.node_map.entries@[k2].1.geometry == node_geoms@[k2]
                    && geograph.node_map.entries@[k2].1.data == ns[k2].1.data,
            forall|k2: int| k <= k2 < ns.len() ==> (#[trigger] geograph.node_map.entries@[k2]) == ns[k2],
        decreases ns.len() - k,
    {
        let (key, node) = geograph.node_map.entries.remove(k);
        geograph.node_map.entries.insert(
            k,
            (key, GeoNode { geometry: node_geoms[k], data: node.data }),
        );
        proof {
            assert forall|k2: int|
                k + 1 <= k2 < ns.len() implies (#[trigger] geograph.node_map.entries@[k2])
                == ns[k2] by {}
        }
        k += 1;
    }
    let ghost ns1 = geograph.node_map.entries@;

    let mut j: usize = 0;
    while j < geograph.edge_graph.entries.len()
        invariant
            es == old(geograph).edge_graph.entries@,
            geograph.node_map.entries@ == ns1,
            geograph.edge_graph.entries@.len() == es.len(),
            edge_geoms@.len() == es.len(),
            reprojection_fits(old(geograph), node_geoms@, edge_geoms@),
            0 <= j <= es.len(),
            forall|j2: int|
                0 <= j2 < j ==> (#[trigger] geograph.edge_graph.entries@[j2]).0 == es[j2].0
                    && geograph.edge_graph.entries@[j2].1 == es[j2].1
                    && geograph.edge_graph.entries@[j2].2@.len() == es[j2].2@.len(),
            forall|j2: int, p: int|
                0 <= j2 < j && 0 <= p < es[j2].2@.len() ==> (
                #[trigger] geograph.edge_graph.entries@[j2].2@[p]).geometry@ == edge_geoms@[j2]@[p]@
                    && geograph.edge_graph.entries@[j2].2@[p].data == es[j2].2@[p].data,
            forall|j2: int|
                j <= j2 < es.len() ==> (#[trigger] geograph.edge_graph.entries@[j2]) == es[j2],
        decreases es.len() - j,
    {
        proof {
            assert(edge_geoms@[j as int]@.len() == es[j as int].2@.len());
        }
        let (a, b, mut list) = geograph.edge_graph.entries.remove(j);
        let ghost list0 = list@;
        let mut new_list: Vec<GeoEdge> = Vec::new();
        let mut p: usize = 0;
        let list_len = list.len();
        while p < list_len
            invariant
                0 <= j < es.len(),
                edge_geoms@.len() == es.len(),
                list0 == es[j as int].2@,
                list_len == list0.len(),
                edge_geoms@[j as int]@.len() == list0.len(),
                0 <= p <= list_len,
                list@ == list0.skip(p as int),
                new_list@.len() == p,
                forall|p2: int|
                    0 <= p2 < p ==> (#[trigger] new_list@[p2]).geometry@
                        == edge_geoms@[j as int]@[p2]@ && new_list@[p2].data == list0[p2].data,
            decreases list_len - p,
        {
            let edge = list.remove(0);
            proof {
                assert(edge == list0[p as int]);
                assert(list@ =~= list0.skip(p as int + 1));
            }
            new_list.push(
                GeoEdge { geometry: copy_coords(&edge_geoms[j][p]), data: edge.data },
            );
            p += 1;
        }
        geograph.edge_graph.entries.insert(j, (a, b, new_list));
        proof {
            assert forall|j2: int|
                j + 1 <= j2 < es.len() implies (#[trigger] geograph.edge_graph.entries@[j2])
                == es[j2] by {}
        }
        j += 1;
    }
    geograph.crs = *to_crs;

    proof {
        lemma_reprojected_wf(old(geograph), geograph, *to_crs, node_geoms@, edge_geoms@);
    }
    Ok(())
}

/// The position of the node entry with key `key`.
fn find_node_position(entries: &Vec<(NodeIdx, GeoNode)>, key: NodeIdx) -> (r: Option<usize>)
    ensures
        match r {
            Some(k) => 0 <= k < entries@.len() && entries@[k as int].0 == key,
            None => !crate::graph::has_node_key(entries@, key),
        },
{
    let mut k: usize = 0;
    while k < entries.len()
        invariant
            0 <= k <= entries@.len(),
            forall|k2: int| 0 <= k2 < k ==> (#[trigger] entries@[k2]).0 != key,
        decreases entries@.len() - k,
    {
        if entries[k].0 == key {
            return Some(k);
        }
        k += 1;
    }
    None
}

/// A validated reprojection keeps the graph well-formed.
proof fn lemma_reprojected_wf(
    before: &GeoGraph,
    after: &GeoGraph,
    to_crs: Crs,
    node_geoms: Seq<Coord>,
    edge_geoms: Seq<Vec<Vec<Coord>>>,
)
    requires
        before.wf(),
        reprojection_fits(before, node_geoms, edge_geoms),
        reprojected(before, after, to_crs, node_geoms, edge_geoms),
    ensures
        after.wf(),
{
    let ns0 = before.node_map.entries@;
    let ns1 = after.node_map.entries@;
    let es0 = before.edge_graph.entries@;
    let es1 = after.edge_graph.entries@;
    assert forall|i: int, j: int|
        0 <= i < j < ns1.len() implies (#[trigger] ns1[i]).0 != (#[trigger] ns1[j]).0 by {
        assert(ns0[i].0 == ns1[i].0 && ns0[j].0 == ns1[j].0);
    }
    assert forall|i: int, j: int|
        0 <= i < j < es1.len() implies ((#[trigger] es1[i]).0 != (#[trigger] es1[j]).0 || es1[i].1
        != es1[j].1) by {
        assert(es0[i].0 == es1[i].0 && es0[j].0 == es1[j].0);
        assert(es0[i].1 == es1[i].1 && es0[j].1 == es1[j].1);
    }
    assert forall|i: int, j: int|
        #![trigger after.edge_graph.entries@[i].2@[j]]
        0 <= i < es1.len() && 0 <= j < es1[i].2@.len() implies {
        let entry = es1[i];
        let g = entry.2@[j].geometry@;
        &&& g.len() >= 2
        &&& crate::graph::node_geom_is(ns1, entry.0, g[0])
        &&& crate::graph::node_geom_is(ns1, entry.1, g.last())
    } by {
        let g = es1[i].2@[j].geometry@;
        assert(g == edge_geoms[i]@[j]@);
        let k0 = choose|k: int|
            0 <= k < ns0.len() && (#[trigger] ns0[k]).0 == es0[i].0 && node_geoms[k] == g[0];
        assert(ns1[k0].0 == es1[i].0 && ns1[k0].1.geometry == g[0]);
        let k1 = choose|k: int|
            0 <= k < ns0.len() && (#[trigger] ns0[k]).0 == es0[i].1 && node_geoms[k] == g.last();
        assert(ns1[k1].0 == es1[i].1 && ns1[k1].1.geometry == g.last());
    }
}

} // verus!
