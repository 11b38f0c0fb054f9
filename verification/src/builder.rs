//! Topology construction: deduplicating node indexing over a point spatial
//! index, and building a graph from independent polylines.

use vstd::multiset::Multiset;
use vstd::prelude::*;

use crate::coords::{coord_in_bounds, coords_in_bounds, Coord};
use crate::crs;
use crate::crs::{Crs, CrsCode, CrsKind};
use crate::errors::TopoError;
use crate::graph::{copy_coords, edge_insert_ok, has_edge_pair, has_node_key, node_conflict,
    node_entries_after_insert, vecs_view, AttributeValue, GeoEdge, GeoGraph, GeoNode, NodeIdx};
use crate::spatial_index::{index_points, PointIndex};

verus! {

broadcast use vstd::seq_lib::group_to_multiset_ensures;

/// The index entries that stand for a node list: node `i` at `points[i]`.
pub open spec fn point_entries(points: Seq<Coord>) -> Seq<(i64, i64, u64)> {
    Seq::new(points.len(), |i: int| (points[i].x, points[i].y, i as u64))
}

/// Whether the coordinates of `points` are pairwise distinct.
pub open spec fn points_distinct(points: Seq<Coord>) -> bool {
    forall|i: int, j: int|
        0 <= i < j < points.len() ==> (#[trigger] points[i]) != (#[trigger] points[j])
}

/// Assigns sequential ids to coordinates in order of first appearance,
/// using exact-coordinate lookup in a point spatial index: no snapping
/// tolerance, coordinates differing by any amount are distinct nodes.
pub struct NodeIndexer {
    pub rtree: PointIndex,
    /// The coordinate of each id handed out so far, in id order. Mirrors
    /// the spatial index exactly (see `wf`).
    pub points: Vec<Coord>,
}

impl NodeIndexer {
    /// Well-formed: the spatial index holds exactly one entry per id,
    /// coordinates are distinct and in bounds.
    pub open spec fn wf(&self) -> bool {
        &&& index_points(self.rtree) == point_entries(self.points@).to_multiset()
        &&& points_distinct(self.points@)
        &&& coords_in_bounds(self.points@)
    }

    /// Create an indexer with no coordinates.
    pub fn new() -> (r: NodeIndexer)
        ensures
            r.wf(),
            r.points@.len() == 0,
    {
        let r = NodeIndexer { rtree: PointIndex::new(), points: Vec::new() };
        proof {
            assert(point_entries(r.points@) =~= Seq::<(i64, i64, u64)>::empty());
            assert(point_entries(r.points@).to_multiset() =~= Multiset::<(i64, i64, u64)>::empty());
        }
        r
    }

    /// The id of the node at exactly `coord`: the existing one when the
    /// coordinate was seen before, else the next sequential id, under which
    /// the coordinate is recorded.
    pub fn get_index_for_coordinate(&mut self, coord: &Coord) -> (r: NodeIdx)
        requires
            old(self).wf(),
            coord_in_bounds(*coord),
        ensures
            final(self).wf(),
            if old(self).points@.contains(*coord) {
                &&& final(self).points@ == old(self).points@
                &&& r < old(self).points@.len()
                &&& final(self).points@[r as int] == *coord
            } else {
                &&& r == old(self).points@.len()
                &&& final(self).points@ == old(self).points@.push(*coord)
            },
    {
        let n: usize = self.points.len();
        let ghost ps = self.points@;
        proof {
            assert forall|e: (i64, i64, u64)|
                index_points(self.rtree).contains(e) implies crate::spatial_index::entry_in_bounds(
                e,
            ) by {
                assert(point_entries(ps).contains(e));
                let i = choose|i: int| 0 <= i < point_entries(ps).len() && point_entries(ps)[i] == e;
                assert(coord_in_bounds(ps[i]));
            }
        }
        match self.rtree.locate_at_point(coord.x, coord.y) {
            Some(id) => {
                proof {
                    let e = (coord.x, coord.y, id);
                    assert(point_entries(ps).contains(e));
                    let i = choose|i: int|
                        0 <= i < point_entries(ps).len() && point_entries(ps)[i] == e;
                    assert(ps[i] == *coord);
                    assert(id == i as u64);
                    assert(0 <= i < n <= usize::MAX);
                    assert(id as int == i);
                    assert(ps.contains(*coord));
                }
                id
            },
            None => {
                proof {
                    if ps.contains(*coord) {
                        let i = choose|i: int| 0 <= i < ps.len() && ps[i] == *coord;
                        assert(point_entries(ps)[i] == (coord.x, coord.y, i as u64));
                        assert(point_entries(ps).contains((coord.x, coord.y, i as u64)));
                        assert(index_points(self.rtree).contains((coord.x, coord.y, i as u64)));
                        assert(false);
                    }
                }
                let id: u64 = self.points.len() as u64;
                self.rtree.insert(coord.x, coord.y, id);
                self.points.push(*coord);
                proof {
                    assert(point_entries(self.points@) =~= point_entries(ps).push(
                        (coord.x, coord.y, id),
                    ));
                    assert(index_points(self.rtree) =~= point_entries(self.points@).to_multiset());
                }
                id
            },
        }
    }
}

/// The node coordinates after indexing the endpoints of one line: a line
/// with fewer than two coordinates adds nothing; otherwise its first and
/// then its last coordinate are appended, each only when not yet present.
pub open spec fn line_endpoint_nodes(ns: Seq<Coord>, line: Seq<Coord>) -> Seq<Coord> {
    if line.len() < 2 {
        ns
    } else {
        let ns1 = if ns.contains(line[0]) {
            ns
        } else {
            ns.push(line[0])
        };
        if ns1.contains(line.last()) {
            ns1
        } else {
            ns1.push(line.last())
        }
    }
}

/// The node coordinates of a line set, in order of first appearance of the
/// lines' endpoints; node `i` of the built graph sits at index `i`.
pub open spec fn endpoint_nodes(ls: Seq<Seq<Coord>>) -> Seq<Coord>
    decreases ls.len(),
{
    if ls.len() == 0 {
        Seq::<Coord>::empty()
    } else {
        line_endpoint_nodes(endpoint_nodes(ls.drop_last()), ls.last())
    }
}

/// The edges inserted between node ids `a` and `b` when the lines `ls` with
/// data `ds` are built into a graph: the lines with at least two
/// coordinates whose endpoint node ids are exactly `(a, b)`, in input
/// order, paired with their data.
pub open spec fn edges_between(
    ls: Seq<Seq<Coord>>,
    ds: Seq<AttributeValue>,
    a: NodeIdx,
    b: NodeIdx,
) -> Seq<(Seq<Coord>, AttributeValue)>
    decreases ls.len(),
{
    if ls.len() == 0 {
        Seq::<(Seq<Coord>, AttributeValue)>::empty()
    } else {
        let rest = edges_between(ls.drop_last(), ds.drop_last(), a, b);
        let l = ls.last();
        let ns = endpoint_nodes(ls);
        if l.len() >= 2 && ns.index_of(l[0]) == a as int && ns.index_of(l.last()) == b as int {
            rest.push((l, ds.last()))
        } else {
            rest
        }
    }
}

/// The node-map entries that stand for a node coordinate list.
pub open spec fn node_entries_of(ps: Seq<Coord>) -> Seq<(NodeIdx, GeoNode)> {
    Seq::new(
        ps.len(),
        |k: int| (k as u64, (GeoNode { geometry: ps[k], data: AttributeValue::Null })),
    )
}

/// The geometry views and data of a parallel-edge list.
pub open spec fn edge_list_view(l: Seq<GeoEdge>) -> Seq<(Seq<Coord>, AttributeValue)> {
    Seq::new(l.len(), |k: int| (l[k].geometry@, l[k].data))
}

/// What `build_geograph_from_lines_with_data` promises of its graph: nodes
/// are numbered from zero in order of first appearance of the endpoints of
/// `ls`, carrying exactly those coordinates; and the parallel-edge list of
/// every endpoint pair holds exactly the lines inserted between that pair,
/// in input order, with their data.
pub open spec fn built_graph_matches(
    g: GeoGraph,
    ls: Seq<Seq<Coord>>,
    ds: Seq<AttributeValue>,
) -> bool {
    let ns = endpoint_nodes(ls);
    &&& g.node_map.entries@.len() == ns.len()
    &&& forall|k: int|
        0 <= k < ns.len() ==> (#[trigger] g.node_map.entries@[k]) == (
        k as u64,
        (GeoNode { geometry: ns[k], data: AttributeValue::Null }),
    )
    &&& forall|j: int|
        0 <= j < g.edge_graph.entries@.len() ==> edge_list_view(
            (#[trigger] g.edge_graph.entries@[j]).2@,
        ) == edges_between(ls, ds, g.edge_graph.entries@[j].0, g.edge_graph.entries@[j].1)
    &&& forall|a: NodeIdx, b: NodeIdx|
        #[trigger] edges_between(ls, ds, a, b).len() > 0 ==> has_edge_pair(
            g.edge_graph.entries@,
            a,
            b,
        )
}

/// Build a topologically consistent graph from the given polylines, with
/// each edge carrying the data item at its line's position.
///
/// Lines that share an endpoint coordinate exactly share the node there;
/// node ids count up from zero in order of first appearance; a line with
/// fewer than two coordinates is silently skipped. The graph starts out in
/// the geographic WGS 84 CRS, as built lines usually are; callers replace
/// it when they know better. Fails only when `lines` and `data` differ in
/// length.
pub fn build_geograph_from_lines_with_data(
    lines: Vec<Vec<Coord>>,
    data: Vec<AttributeValue>,
) -> (r: Result<GeoGraph, TopoError>)
    requires
        forall|i: int| 0 <= i < lines@.len() ==> coords_in_bounds((#[trigger] lines@[i])@),
    ensures
        match r {
            Ok(g) => {
                &&& lines@.len() == data@.len()
                &&& g.wf()
                &&& g.crs == (Crs { kind: CrsKind::Geographic, code: CrsCode::Epsg(4326) })
                &&& built_graph_matches(g, vecs_view(lines@), data@)
            },
            Err(e) => e == TopoError::InvalidParameter && lines@.len() != data@.len(),
        },
{
    if lines.len() != data.len() {
        return Err(TopoError::InvalidParameter);
    }
    let n = lines.len();
    let ghost lsv = vecs_view(lines@);
    let ghost dsv = data@;

    // Reverse the data so each item can be taken owned, in input order.
    let mut rev_data: Vec<AttributeValue> = Vec::new();
    let mut dtmp = data;
    proof {
        assert(dtmp@ =~= dsv.take(dtmp@.len() as int));
    }
    while dtmp.len() > 0
        invariant
            dtmp@ == dsv.take(dtmp@.len() as int),
            dtmp@.len() <= dsv.len(),
            rev_data@.len() == dsv.len() - dtmp@.len(),
            forall|k: int|
                0 <= k < rev_data@.len() ==> rev_data@[k] == dsv[dsv.len() - 1 - k],
        decreases dtmp@.len(),
    {
        let d = dtmp.pop().unwrap();
        rev_data.push(d);
        proof {
            assert(dtmp@ =~= dsv.take(dtmp@.len() as int));
        }
    }

    let mut node_indexer = NodeIndexer::new();
    let mut geograph = GeoGraph::new(crs::epsg_4326());
    let mut i: usize = 0;
    while i < n
        invariant
            0 <= i <= n,
            n == lsv.len(),
            n == dsv.len(),
            n == lines@.len(),
            n <= usize::MAX,
            lsv == vecs_view(lines@),
            forall|k: int| 0 <= k < lines@.len() ==> coords_in_bounds((#[trigger] lines@[k])@),
            rev_data@.len() == n - i,
            forall|k: int|
                0 <= k < rev_data@.len() ==> rev_data@[k] == dsv[dsv.len() - 1 - k],
            node_indexer.wf(),
            node_indexer.points@ == endpoint_nodes(lsv.take(i as int)),
            geograph.wf(),
            geograph.crs == (Crs { kind: CrsKind::Geographic, code: CrsCode::Epsg(4326) }),
            geograph.node_map.entries@ == node_entries_of(node_indexer.points@),
            forall|j: int|
                0 <= j < geograph.edge_graph.entries@.len() ==> edge_list_view(
                    (#[trigger] geograph.edge_graph.entries@[j]).2@,
                ) == edges_between(
                    lsv.take(i as int),
                    dsv.take(i as int),
                    geograph.edge_graph.entries@[j].0,
                    geograph.edge_graph.entries@[j].1,
                ),
            forall|a: NodeIdx, b: NodeIdx|
                #[trigger] edges_between(lsv.take(i as int), dsv.take(i as int), a, b).len() > 0
                    ==> has_edge_pair(geograph.edge_graph.entries@, a, b),
        decreases n - i,
    {
        let line = copy_coords(&lines[i]);
        let d = rev_data.pop().unwrap();
        proof {
            assert(d == dsv[i as int]);
            assert(line@ == lsv[i as int]);
            assert(lsv.take(i + 1 as int).drop_last() =~= lsv.take(i as int));
            assert(dsv.take(i + 1 as int).drop_last() =~= dsv.take(i as int));
            assert(lsv.take(i + 1 as int).last() == lsv[i as int]);
            assert(dsv.take(i + 1 as int).last() == dsv[i as int]);
        }
        if line.len() < 2 {
            proof {
                assert(endpoint_nodes(lsv.take(i + 1 as int)) == endpoint_nodes(
                    lsv.take(i as int),
                ));
                assert forall|a: NodeIdx, b: NodeIdx|
                    #[trigger] edges_between(lsv.take(i + 1 as int), dsv.take(i + 1 as int), a, b)
                        == edges_between(lsv.take(i as int), dsv.take(i as int), a, b) by {}
            }
            i += 1;
            continue ;
        }
        let start_c = line[0];
        let end_c = line[line.len() - 1];
        let ghost p0 = node_indexer.points@;
        let sid = node_indexer.get_index_for_coordinate(&start_c);
        let ghost p1 = node_indexer.points@;
        let eid = node_indexer.get_index_for_coordinate(&end_c);
        let ghost p2 = node_indexer.points@;
        let np = node_indexer.points.len();
        proof {
            assert(p1 == (if p0.contains(start_c) {
                p0
            } else {
                p0.push(start_c)
            }));
            assert(p2 == line_endpoint_nodes(p0, lsv[i as int]));
            assert(endpoint_nodes(lsv.take(i + 1 as int)) == p2);
            // Pin the two node ids as the unique indices of the endpoints.
            assert(p2[sid as int] == start_c && sid < p2.len());
            assert(p2[eid as int] == end_c && eid < p2.len());
            assert(p2.contains(start_c) && p2.contains(end_c));
            let si = p2.index_of(start_c);
            assert(0 <= si < p2.len() && p2[si] == start_c);
            assert(si == sid as int);
            let ei = p2.index_of(end_c);
            assert(0 <= ei < p2.len() && p2[ei] == end_c);
            assert(ei == eid as int);
        }
        let ghost nm0 = geograph.node_map.entries@;
        let ghost eg0 = geograph.edge_graph.entries@;
        let ghost lineview = line@;
        proof {
            // Inserting this edge cannot fail: the node map mirrors the
            // indexer's points, which place both endpoints consistently.
            assert(!node_conflict(nm0, sid, start_c)) by {
                assert forall|k: int|
                    0 <= k < nm0.len() && (#[trigger] nm0[k]).0 == sid implies nm0[k].1.geometry
                    == start_c by {
                    assert(k as u64 == sid);
                    assert(k == sid as int);
                    assert(p0[k] == start_c);
                }
            }
            assert(node_entries_after_insert(nm0, sid, start_c) =~= node_entries_of(p1)) by {
                if p0.contains(start_c) {
                    assert(nm0[sid as int].0 == sid);
                    assert(has_node_key(nm0, sid));
                } else {
                    if has_node_key(nm0, sid) {
                        let k = choose|k: int|
                            0 <= k < nm0.len() && (#[trigger] nm0[k]).0 == sid;
                        assert(k == sid as int);
                        assert(false);
                    }
                }
            }
            let nm1 = node_entries_of(p1);
            assert(!node_conflict(nm1, eid, end_c)) by {
                assert forall|k: int|
                    0 <= k < nm1.len() && (#[trigger] nm1[k]).0 == eid implies nm1[k].1.geometry
                    == end_c by {
                    assert(k as u64 == eid);
                    assert(k == eid as int);
                    assert(p1[k] == end_c);
                }
            }
            assert(node_entries_after_insert(nm1, eid, end_c) =~= node_entries_of(p2)) by {
                if p1.contains(end_c) {
                    assert(p1[eid as int] == end_c);
                    assert(nm1[eid as int].0 == eid);
                    assert(has_node_key(nm1, eid));
                } else {
                    if has_node_key(nm1, eid) {
                        let k = choose|k: int|
                            0 <= k < nm1.len() && (#[trigger] nm1[k]).0 == eid;
                        assert(k == eid as int);
                        assert(false);
                    }
                }
            }
            assert(edge_insert_ok(nm0, sid, eid, lineview));
        }
        let res = geograph.insert_edge_with_data(sid, eid, line, d);
        proof {
            assert(res is Ok);
            assert(geograph.node_map.entries@ == node_entries_of(p2));
            // How this step extends the edges between each endpoint pair.
            assert forall|a: NodeIdx, b: NodeIdx| #[trigger] edges_between(
                lsv.take(i + 1 as int),
                dsv.take(i + 1 as int),
                a,
                b,
            ) == (if a == sid && b == eid {
                edges_between(lsv.take(i as int), dsv.take(i as int), a, b).push(
                    (lineview, dsv[i as int]),
                )
            } else {
                edges_between(lsv.take(i as int), dsv.take(i as int), a, b)
            }) by {
                assert(endpoint_nodes(lsv.take(i + 1 as int)).index_of(lineview[0]) == sid as int);
                assert(endpoint_nodes(lsv.take(i + 1 as int)).index_of(lineview.last())
                    == eid as int);
            }
            let eg1 = geograph.edge_graph.entries@;
            if has_edge_pair(eg0, sid, eid) {
                let j0 = choose|j: int|
                    0 <= j < eg0.len() && (#[trigger] eg0[j]).0 == sid && eg0[j].1 == eid
                        && eg1[j].0 == sid && eg1[j].1 == eid && eg1[j].2@.len() == eg0[j].2@.len()
                        + 1 && eg1[j].2@.drop_last() == eg0[j].2@ && eg1[j].2@.last().geometry@
                        == lineview && eg1[j].2@.last().data == dsv[i as int] && (forall|k: int|
                        0 <= k < eg0.len() && k != j ==> eg1[k] == eg0[k]);
                assert(edge_list_view(eg1[j0].2@) =~= edge_list_view(eg0[j0].2@).push(
                    (lineview, dsv[i as int]),
                ));
                assert forall|j: int|
                    0 <= j < eg1.len() implies edge_list_view((#[trigger] eg1[j]).2@)
                    == edges_between(
                    lsv.take(i + 1 as int),
                    dsv.take(i + 1 as int),
                    eg1[j].0,
                    eg1[j].1,
                ) by {
                    if j != j0 {
                        assert(eg1[j] == eg0[j]);
                        assert(eg0[j].0 != sid || eg0[j].1 != eid);
                    }
                }
                assert forall|a: NodeIdx, b: NodeIdx| #[trigger] edges_between(
                    lsv.take(i + 1 as int),
                    dsv.take(i + 1 as int),
                    a,
                    b,
                ).len() > 0 implies has_edge_pair(eg1, a, b) by {
                    if a == sid && b == eid {
                        assert(eg1[j0].0 == a && eg1[j0].1 == b);
                    } else {
                        assert(edges_between(lsv.take(i as int), dsv.take(i as int), a, b).len()
                            > 0);
                        let k = choose|k: int|
                            0 <= k < eg0.len() && (#[trigger] eg0[k]).0 == a && eg0[k].1 == b;
                        assert(eg1[k].0 == a && eg1[k].1 == b);
                    }
                }
            } else {
                assert(eg1.len() == eg0.len() + 1);
                assert(edge_list_view(eg1.last().2@) =~= Seq::<(
                    Seq<Coord>,
                    AttributeValue,
                )>::empty().push((lineview, dsv[i as int])));
                assert(edges_between(lsv.take(i as int), dsv.take(i as int), sid, eid).len() == 0)
                    by {
                    if edges_between(lsv.take(i as int), dsv.take(i as int), sid, eid).len() > 0 {
                        assert(has_edge_pair(eg0, sid, eid));
                    }
                }
                assert forall|j: int|
                    0 <= j < eg1.len() implies edge_list_view((#[trigger] eg1[j]).2@)
                    == edges_between(
                    lsv.take(i + 1 as int),
                    dsv.take(i + 1 as int),
                    eg1[j].0,
                    eg1[j].1,
                ) by {
                    if j < eg0.len() {
                        assert(eg1[j] == eg0[j]);
                        assert(eg0[j].0 != sid || eg0[j].1 != eid);
                    } else {
                        assert(edge_list_view(eg1[j].2@) =~= edges_between(
                            lsv.take(i as int),
                            dsv.take(i as int),
                            sid,
                            eid,
                        ).push((lineview, dsv[i as int])));
                    }
                }
                assert forall|a: NodeIdx, b: NodeIdx| #[trigger] edges_between(
                    lsv.take(i + 1 as int),
                    dsv.take(i + 1 as int),
                    a,
                    b,
                ).len() > 0 implies has_edge_pair(eg1, a, b) by {
                    if a == sid && b == eid {
                        assert(eg1[eg0.len() as int].0 == a && eg1[eg0.len() as int].1 == b);
                    } else {
                        assert(edges_between(lsv.take(i as int), dsv.take(i as int), a, b).len()
                            > 0);
                        let k = choose|k: int|
                            0 <= k < eg0.len() && (#[trigger] eg0[k]).0 == a && eg0[k].1 == b;
                        assert(eg1[k].0 == a && eg1[k].1 == b);
                    }
                }
            }
        }
        i += 1;
    }
    proof {
        assert(lsv.take(n as int) =~= lsv);
        assert(dsv.take(n as int) =~= dsv);
    }
    Ok(geograph)
}

/// Build a topologically consistent graph from the given polylines, with
/// default edge and node data: see `build_geograph_from_lines_with_data`.
pub fn build_geograph_from_lines(lines: Vec<Vec<Coord>>) -> (r: Result<GeoGraph, TopoError>)
    requires
        forall|i: int| 0 <= i < lines@.len() ==> coords_in_bounds((#[trigger] lines@[i])@),
    ensures
        match r {
            Ok(g) => {
                &&& g.wf()
                &&& g.crs == (Crs { kind: CrsKind::Geographic, code: CrsCode::Epsg(4326) })
                &&& built_graph_matches(
                    g,
                    vecs_view(lines@),
                    Seq::new(lines@.len(), |k: int| AttributeValue::Null),
                )
            },
            Err(_) => false,
        },
{
    let n = lines.len();
    let mut data: Vec<AttributeValue> = Vec::new();
    let mut i: usize = 0;
    while i < n
        invariant
            0 <= i <= n,
            data@.len() == i,
            forall|k: int| 0 <= k < i ==> (#[trigger] data@[k]) is Null,
        decreases n - i,
    {
        data.push(AttributeValue::Null);
        i += 1;
    }
    proof {
        assert(data@ =~= Seq::new(lines@.len(), |k: int| AttributeValue::Null));
    }
    let r = build_geograph_from_lines_with_data(lines, data);
    proof {
        assert(r is Ok);
    }
    r
}

} // verus!
