//! The geospatial multigraph: nodes with integer ids and point geometries,
//! edges with polyline geometries, parallel edges kept as lists.
//!
//! Invariant (see `GeoGraph::wf`): every edge's first and last coordinate
//! equals exactly the point geometry of its two endpoint nodes.

use vstd::prelude::*;

use crate::coords::Coord;
use crate::crs::Crs;
use crate::errors::TopoError;

verus! {

/// Index type used for nodes of a geospatial graph.
pub type NodeIdx = u64;

/// A closed attribute payload carried by nodes and edges, so the graph stays
/// reusable across import and export collaborators. Fractional values are
/// carried as text by those collaborators.
#[derive(Debug, Clone, PartialEq)]
pub enum AttributeValue {
    Text(String),
    Integer(i64),
    Null,
}

impl Default for AttributeValue {
    /// The default payload is `Null`.
    fn default() -> (r: AttributeValue)
        ensures
            r is Null,
    {
        AttributeValue::Null
    }
}

/// Node of a geospatial graph: a point geometry plus associated data.
pub struct GeoNode {
    pub geometry: Coord,
    pub data: AttributeValue,
}

impl GeoNode {
    /// Create a new node with given geometry and default data.
    pub fn new(geometry: Coord) -> (r: GeoNode)
        ensures
            r.geometry == geometry,
            r.data is Null,
    {
        GeoNode { geometry, data: AttributeValue::Null }
    }

    /// Create a new node with given geometry and data.
    pub fn new_with_data(geometry: Coord, data: AttributeValue) -> (r: GeoNode)
        ensures
            r.geometry == geometry,
            r.data == data,
    {
        GeoNode { geometry, data }
    }
}

/// Edge of a geospatial graph: a polyline geometry plus associated data.
/// Its endpoint node ids live in the key of the `EdgeGraph` entry that
/// holds it.
pub struct GeoEdge {
    pub geometry: Vec<Coord>,
    pub data: AttributeValue,
}

impl GeoEdge {
    /// Create a new edge with given geometry and default data.
    pub fn new(geometry: Vec<Coord>) -> (r: GeoEdge)
        ensures
            r.geometry == geometry,
            r.data is Null,
    {
        GeoEdge { geometry, data: AttributeValue::Null }
    }

    /// Create a new edge with given geometry and data.
    pub fn new_with_data(geometry: Vec<Coord>, data: AttributeValue) -> (r: GeoEdge)
        ensures
            r.geometry == geometry,
            r.data == data,
    {
        GeoEdge { geometry, data }
    }
}

/// Map from node index to node, kept as an association list in insertion
/// order with unique keys.
pub struct NodeMap {
    pub entries: Vec<(NodeIdx, GeoNode)>,
}

/// Whether `s` holds an entry with key `k`.
pub open spec fn has_node_key(s: Seq<(NodeIdx, GeoNode)>, k: NodeIdx) -> bool {
    exists|i: int| 0 <= i < s.len() && (#[trigger] s[i]).0 == k
}

/// Whether the keys of `s` are pairwise distinct.
pub open spec fn node_keys_unique(s: Seq<(NodeIdx, GeoNode)>) -> bool {
    forall|i: int, j: int|
        0 <= i < j < s.len() ==> (#[trigger] s[i]).0 != (#[trigger] s[j]).0
}

impl NodeMap {
    /// Well-formed: keys are unique.
    pub open spec fn wf(&self) -> bool {
        node_keys_unique(self.entries@)
    }

    /// Create an empty node map.
    pub fn new() -> (r: NodeMap)
        ensures
            r.entries@.len() == 0,
            r.wf(),
    {
        NodeMap { entries: Vec::new() }
    }

    /// The number of nodes.
    pub fn len(&self) -> (r: usize)
        ensures
            r == self.entries@.len(),
    {
        self.entries.len()
    }

    /// Look the node with index `idx` up by linear scan.
    pub fn get(&self, idx: NodeIdx) -> (r: Option<&GeoNode>)
        requires
            self.wf(),
        ensures
            match r {
                Some(n) => exists|i: int|
                    0 <= i < self.entries@.len() && (#[trigger] self.entries@[i]).0 == idx
                        && self.entries@[i].1 == *n,
                None => !has_node_key(self.entries@, idx),
            },
    {
        let mut i: usize = 0;
        while i < self.entries.len()
            invariant
                0 <= i <= self.entries@.len(),
                forall|j: int| 0 <= j < i ==> (#[trigger] self.entries@[j]).0 != idx,
            decreases self.entries@.len() - i,
        {
            if self.entries[i].0 == idx {
                return Some(&self.entries[i].1);
            }
            i += 1;
        }
        None
    }
}

/// The edge store: entries keyed by the ordered pair of endpoint node ids,
/// in insertion order of the pair, each holding the list of parallel edges
/// between those endpoints in insertion order.
pub struct EdgeGraph {
    pub entries: Vec<(NodeIdx, NodeIdx, Vec<GeoEdge>)>,
}

/// Whether `s` holds an entry with the endpoint pair `(a, b)`.
pub open spec fn has_edge_pair(s: Seq<(NodeIdx, NodeIdx, Vec<GeoEdge>)>, a: NodeIdx, b: NodeIdx) -> bool {
    exists|i: int| 0 <= i < s.len() && (#[trigger] s[i]).0 == a && s[i].1 == b
}

/// Whether the endpoint pairs of `s` are pairwise distinct.
pub open spec fn edge_pairs_unique(s: Seq<(NodeIdx, NodeIdx, Vec<GeoEdge>)>) -> bool {
    forall|i: int, j: int|
        0 <= i < j < s.len() ==> ((#[trigger] s[i]).0 != (#[trigger] s[j]).0 || s[i].1 != s[j].1)
}

impl EdgeGraph {
    /// Well-formed: endpoint pairs are unique and no parallel-edge list is
    /// empty.
    pub open spec fn wf(&self) -> bool {
        &&& edge_pairs_unique(self.entries@)
        &&& forall|i: int|
            0 <= i < self.entries@.len() ==> (#[trigger] self.entries@[i]).2@.len() > 0
    }

    /// Create an empty edge store.
    pub fn new() -> (r: EdgeGraph)
        ensures
            r.entries@.len() == 0,
            r.wf(),
    {
        EdgeGraph { entries: Vec::new() }
    }

    /// The number of distinct endpoint pairs that have edges (parallel
    /// edges count once).
    pub fn edge_count(&self) -> (r: usize)
        ensures
            r == self.entries@.len(),
    {
        self.entries.len()
    }

    /// The parallel-edge list between `a` and `b`, if any, by linear scan.
    pub fn edge_weight(&self, a: NodeIdx, b: NodeIdx) -> (r: Option<&Vec<GeoEdge>>)
        requires
            self.wf(),
        ensures
            match r {
                Some(v) => exists|i: int|
                    0 <= i < self.entries@.len() && (#[trigger] self.entries@[i]).0 == a
                        && self.entries@[i].1 == b && self.entries@[i].2 == *v,
                None => !has_edge_pair(self.entries@, a, b),
            },
    {
        let mut i: usize = 0;
        while i < self.entries.len()
            invariant
                0 <= i <= self.entries@.len(),
                forall|j: int|
                    0 <= j < i ==> ((#[trigger] self.entries@[j]).0 != a || self.entries@[j].1
                        != b),
            decreases self.entries@.len() - i,
        {
            if self.entries[i].0 == a && self.entries[i].1 == b {
                return Some(&self.entries[i].2);
            }
            i += 1;
        }
        None
    }
}

/// Whether `ns` holds a node with key `k` whose geometry is exactly `c`.
pub open spec fn node_geom_is(ns: Seq<(NodeIdx, GeoNode)>, k: NodeIdx, c: Coord) -> bool {
    exists|i: int|
        0 <= i < ns.len() && (#[trigger] ns[i]).0 == k && ns[i].1.geometry == c
}

/// Whether `ns` holds a node with key `k` whose geometry differs from `c`:
/// the one situation in which inserting `(k, c)` must fail.
pub open spec fn node_conflict(ns: Seq<(NodeIdx, GeoNode)>, k: NodeIdx, c: Coord) -> bool {
    exists|i: int|
        0 <= i < ns.len() && (#[trigger] ns[i]).0 == k && ns[i].1.geometry != c
}

/// The node entries after inserting `(k, c)`: unchanged when the key is
/// already present, else extended by a fresh node with default data.
pub open spec fn node_entries_after_insert(
    ns: Seq<(NodeIdx, GeoNode)>,
    k: NodeIdx,
    c: Coord,
) -> Seq<(NodeIdx, GeoNode)> {
    if has_node_key(ns, k) {
        ns
    } else {
        ns.push((k, (GeoNode { geometry: c, data: AttributeValue::Null })))
    }
}

/// Whether inserting an edge with geometry `g` between `start` and `end`
/// succeeds: the geometry has at least two coordinates and neither endpoint
/// id is already taken by a different point.
pub open spec fn edge_insert_ok(
    ns: Seq<(NodeIdx, GeoNode)>,
    start: NodeIdx,
    end: NodeIdx,
    g: Seq<Coord>,
) -> bool {
    &&& g.len() >= 2
    &&& !node_conflict(ns, start, g[0])
    &&& !node_conflict(node_entries_after_insert(ns, start, g[0]), end, g.last())
}

/// Geospatial graph: an edge store keyed by ordered endpoint-id pairs, a
/// node map, and the coordinate reference system of all its geometry.
///
/// Endpoint pairs are kept in the orientation in which the edge was
/// inserted.
pub struct GeoGraph {
    pub edge_graph: EdgeGraph,
    pub node_map: NodeMap,
    pub crs: Crs,
}

impl GeoGraph {
    /// Well-formed: the node and edge stores are well-formed, every edge
    /// geometry has at least two coordinates, and every edge's first and
    /// last coordinate equals the geometry of its endpoint nodes.
    pub open spec fn wf(&self) -> bool {
        &&& self.node_map.wf()
        &&& self.edge_graph.wf()
        &&& forall|i: int, j: int|
            #![trigger self.edge_graph.entries@[i].2@[j]]
            0 <= i < self.edge_graph.entries@.len() && 0 <= j
                < self.edge_graph.entries@[i].2@.len() ==> {
                let entry = self.edge_graph.entries@[i];
                let g = entry.2@[j].geometry@;
                &&& g.len() >= 2
                &&& node_geom_is(self.node_map.entries@, entry.0, g[0])
                &&& node_geom_is(self.node_map.entries@, entry.1, g.last())
            }
    }

    /// Create an empty graph in the given coordinate reference system.
    pub fn new(crs: Crs) -> (r: GeoGraph)
        ensures
            r.wf(),
            r.edge_graph.entries@.len() == 0,
            r.node_map.entries@.len() == 0,
            r.crs == crs,
    {
        GeoGraph { edge_graph: EdgeGraph::new(), node_map: NodeMap::new(), crs }
    }

    /// The edge store.
    pub fn edge_graph(&self) -> (r: &EdgeGraph)
        ensures
            *r == self.edge_graph,
    {
        &self.edge_graph
    }

    /// The node map.
    pub fn node_map(&self) -> (r: &NodeMap)
        ensures
            *r == self.node_map,
    {
        &self.node_map
    }

    /// Insert a node with the given index and point geometry.
    ///
    /// Succeeds, changing nothing, when the index already maps to exactly
    /// this geometry; fails with `InvalidGeometry`, changing nothing, when
    /// the index already maps to a different geometry.
    pub fn insert_node(&mut self, idx: NodeIdx, geometry: Coord) -> (r: Result<(), TopoError>)
        requires
            old(self).wf(),
        ensures
            final(self).wf(),
            final(self).edge_graph == old(self).edge_graph,
            final(self).crs == old(self).crs,
            match r {
                Ok(()) => !node_conflict(old(self).node_map.entries@, idx, geometry)
                    && final(self).node_map.entries@ == node_entries_after_insert(
                    old(self).node_map.entries@,
                    idx,
                    geometry,
                ),
                Err(e) => e == TopoError::InvalidGeometry && node_conflict(
                    old(self).node_map.entries@,
                    idx,
                    geometry,
                ) && final(self).node_map == old(self).node_map,
            },
    {
        match self.node_map.get(idx) {
            Some(n) => {
                if n.geometry == geometry {
                    return Ok(());
                }
                return Err(TopoError::InvalidGeometry);
            },
            None => {},
        }
        self.node_map.entries.push((idx, GeoNode::new(geometry)));
        proof {
            let ns0 = old(self).node_map.entries@;
            let ns1 = self.node_map.entries@;
            assert(!has_node_key(ns0, idx));
            assert forall|i: int, j: int|
                0 <= i < j < ns1.len() implies (#[trigger] ns1[i]).0 != (#[trigger] ns1[j]).0 by {
                assert(ns1[i] == ns0[i]);
                if j < ns1.len() - 1 {
                    assert(ns1[j] == ns0[j]);
                } else {
                    assert(ns0[i].0 != idx);
                }
            }
            assert forall|i: int, j: int|
                #![trigger self.edge_graph.entries@[i].2@[j]]
                0 <= i < self.edge_graph.entries@.len() && 0 <= j
                    < self.edge_graph.entries@[i].2@.len() implies {
                let entry = self.edge_graph.entries@[i];
                let g = entry.2@[j].geometry@;
                &&& g.len() >= 2
                &&& node_geom_is(ns1, entry.0, g[0])
                &&& node_geom_is(ns1, entry.1, g.last())
            } by {
                let entry = self.edge_graph.entries@[i];
                let g = entry.2@[j].geometry@;
                assert(node_geom_is(ns0, entry.0, g[0]));
                assert(node_geom_is(ns0, entry.1, g.last()));
                let k0 = choose|k: int|
                    0 <= k < ns0.len() && (#[trigger] ns0[k]).0 == entry.0 && ns0[k].1.geometry
                        == g[0];
                assert(ns1[k0] == ns0[k0]);
                let k1 = choose|k: int|
                    0 <= k < ns0.len() && (#[trigger] ns0[k]).0 == entry.1 && ns0[k].1.geometry
                        == g.last();
                assert(ns1[k1] == ns0[k1]);
            }
        }
        Ok(())
    }

    /// Insert an edge between the two node indices, with default data.
    pub fn insert_edge(
        &mut self,
        start_node_idx: NodeIdx,
        end_node_idx: NodeIdx,
        geometry: Vec<Coord>,
    ) -> (r: Result<(), TopoError>)
        requires
            old(self).wf(),
        ensures
            final(self).wf(),
            final(self).crs == old(self).crs,
            match r {
                Ok(()) => edge_insert_ok(
                    old(self).node_map.entries@,
                    start_node_idx,
                    end_node_idx,
                    geometry@,
                ) && edge_inserted(
                    old(self),
                    final(self),
                    start_node_idx,
                    end_node_idx,
                    geometry@,
                    AttributeValue::Null,
                ),
                Err(e) => e == TopoError::InvalidGeometry && !edge_insert_ok(
                    old(self).node_map.entries@,
                    start_node_idx,
                    end_node_idx,
                    geometry@,
                ) && final(self).edge_graph == old(self).edge_graph && final(self).node_map == old(
                    self,
                ).node_map,
            },
    {
        self.insert_edge_with_data(start_node_idx, end_node_idx, geometry, AttributeValue::Null)
    }

    /// Insert an edge between the two node indices, carrying `data`.
    ///
    /// The endpoint nodes are created from the geometry's first and last
    /// coordinate when absent; when an endpoint id is already taken by a
    /// different point, or the geometry has fewer than two coordinates, the
    /// call fails with `InvalidGeometry` and the graph is unchanged.
    /// Parallel edges between one endpoint pair are appended to that pair's
    /// list, never merged or rejected.
    pub fn insert_edge_with_data(
        &mut self,
        start_node_idx: NodeIdx,
        end_node_idx: NodeIdx,
        geometry: Vec<Coord>,
        data: AttributeValue,
    ) -> (r: Result<(), TopoError>)
        requires
            old(self).wf(),
        ensures
            final(self).wf(),
            final(self).crs == old(self).crs,
            match r {
                Ok(()) => edge_insert_ok(
                    old(self).node_map.entries@,
                    start_node_idx,
                    end_node_idx,
                    geometry@,
                ) && edge_inserted(
                    old(self),
                    final(self),
                    start_node_idx,
                    end_node_idx,
                    geometry@,
                    data,
                ),
                Err(e) => e == TopoError::InvalidGeometry && !edge_insert_ok(
                    old(self).node_map.entries@,
                    start_node_idx,
                    end_node_idx,
                    geometry@,
                ) && final(self).edge_graph == old(self).edge_graph && final(self).node_map == old(
                    self,
                ).node_map,
            },
    {
        if geometry.len() < 2 {
            return Err(TopoError::InvalidGeometry);
        }
        let start_coord = geometry[0];
        let end_coord = geometry[geometry.len() - 1];

        // Validate both endpoint insertions before changing anything, so a
        // failure leaves the graph exactly as it was.
        let ghost ns0 = old(self).node_map.entries@;
        match self.node_map.get(start_node_idx) {
            Some(n) => {
                if !(n.geometry == start_coord) {
                    return Err(TopoError::InvalidGeometry);
                }
                proof {
                    assert(node_geom_is(ns0, start_node_idx, start_coord));
                }
            },
            None => {},
        }
        proof {
            assert(!node_conflict(ns0, start_node_idx, start_coord));
        }
        let ghost nodes1 = node_entries_after_insert(ns0, start_node_idx, start_coord);
        if start_node_idx == end_node_idx {
            if !(start_coord == end_coord) {
                proof {
                    if has_node_key(ns0, start_node_idx) {
                        let k = choose|k: int|
                            0 <= k < ns0.len() && (#[trigger] ns0[k]).0 == start_node_idx
                                && ns0[k].1.geometry == start_coord;
                        assert(nodes1[k].0 == end_node_idx && nodes1[k].1.geometry != end_coord);
                    } else {
                        let k = nodes1.len() - 1;
                        assert(nodes1[k].0 == end_node_idx && nodes1[k].1.geometry != end_coord);
                    }
                    assert(node_conflict(nodes1, end_node_idx, end_coord));
                }
                return Err(TopoError::InvalidGeometry);
            }
        } else {
            match self.node_map.get(end_node_idx) {
                Some(n) => {
                    if !(n.geometry == end_coord) {
                        proof {
                            let k = choose|k: int|
                                0 <= k < ns0.len() && (#[trigger] ns0[k]).0 == end_node_idx
                                    && ns0[k].1 == *n;
                            assert(nodes1[k].0 == end_node_idx && nodes1[k].1.geometry
                                != end_coord);
                            assert(node_conflict(nodes1, end_node_idx, end_coord));
                        }
                        return Err(TopoError::InvalidGeometry);
                    }
                    proof {
                        assert(node_geom_is(ns0, end_node_idx, end_coord));
                    }
                },
                None => {},
            }
        }
        proof {
            assert forall|k: int|
                0 <= k < nodes1.len() && (#[trigger] nodes1[k]).0
                    == end_node_idx implies nodes1[k].1.geometry == end_coord by {
                if k < ns0.len() {
                    assert(nodes1[k] == ns0[k]);
                    let want: Coord = if start_node_idx == end_node_idx {
                        start_coord
                    } else {
                        end_coord
                    };
                    assert(has_node_key(ns0, end_node_idx));
                    assert(node_geom_is(ns0, end_node_idx, want));
                    let i = choose|i: int|
                        0 <= i < ns0.len() && (#[trigger] ns0[i]).0 == end_node_idx
                            && ns0[i].1.geometry == want;
                    assert(i == k);
                }
            }
            assert(!node_conflict(nodes1, end_node_idx, end_coord));
        }

        let r1 = self.insert_node(start_node_idx, start_coord);
        proof {
            assert(r1 is Ok);
        }
        let r2 = self.insert_node(end_node_idx, end_coord);
        proof {
            assert(r2 is Ok);
        }
        let ghost gmid: GeoGraph = *self;
        let ghost ns2 = self.node_map.entries@;
        proof {
            assert(node_geom_is(ns2, start_node_idx, start_coord)) by {
                if has_node_key(ns0, start_node_idx) {
                    let k = choose|k: int|
                        0 <= k < ns0.len() && (#[trigger] ns0[k]).0 == start_node_idx
                            && ns0[k].1.geometry == start_coord;
                    assert(ns2[k] == ns0[k]);
                } else {
                    assert(nodes1[ns0.len() as int].0 == start_node_idx);
                    assert(ns2[ns0.len() as int] == nodes1[ns0.len() as int]);
                }
            }
            assert(node_geom_is(ns2, end_node_idx, end_coord)) by {
                if has_node_key(nodes1, end_node_idx) {
                    let k = choose|k: int|
                        0 <= k < nodes1.len() && (#[trigger] nodes1[k]).0 == end_node_idx;
                    assert(nodes1[k].1.geometry == end_coord);
                    assert(ns2[k] == nodes1[k]);
                } else {
                    assert(ns2.last().0 == end_node_idx && ns2.last().1.geometry == end_coord);
                }
            }
        }

        let new_edge = GeoEdge { geometry, data };
        let pos = find_edge_pair(&self.edge_graph, start_node_idx, end_node_idx);
        match pos {
            Some(i) => {
                let (a, b, mut list) = self.edge_graph.entries.remove(i);
                list.push(new_edge);
                self.edge_graph.entries.insert(i, (a, b, list));
                proof {
                    let oe = gmid.edge_graph.entries@;
                    let ne = self.edge_graph.entries@;
                    assert(ne[i as int].2@.drop_last() == oe[i as int].2@);
                    assert(ne =~= oe.update(i as int, ne[i as int]));
                    lemma_wf_after_edge_update(gmid, *self, i as int, start_node_idx, end_node_idx);
                }
            },
            None => {
                let mut list: Vec<GeoEdge> = Vec::new();
                list.push(new_edge);
                self.edge_graph.entries.push((start_node_idx, end_node_idx, list));
                proof {
                    let oe = gmid.edge_graph.entries@;
                    let ne = self.edge_graph.entries@;
                    assert(!has_edge_pair(oe, start_node_idx, end_node_idx));
                    assert forall|x: int, y: int|
                        0 <= x < y < ne.len() implies ((#[trigger] ne[x]).0 != (#[trigger] ne[y]).0
                        || ne[x].1 != ne[y].1) by {
                        assert(ne[x] == oe[x]);
                        if y < ne.len() - 1 {
                            assert(ne[y] == oe[y]);
                        }
                    }
                    assert forall|x: int, j: int|
                        #![trigger self.edge_graph.entries@[x].2@[j]]
                        0 <= x < ne.len() && 0 <= j < ne[x].2@.len() implies {
                        let entry = ne[x];
                        let g = entry.2@[j].geometry@;
                        &&& g.len() >= 2
                        &&& node_geom_is(ns2, entry.0, g[0])
                        &&& node_geom_is(ns2, entry.1, g.last())
                    } by {
                        if x < ne.len() - 1 {
                            assert(ne[x] == oe[x]);
                            assert(gmid.wf());
                        } else {
                            assert(ne[x].2@[j].geometry@ == geometry@);
                        }
                    }
                }
            },
        }
        Ok(())
    }
}

/// The geometries of a parallel-edge list, in list order.
pub open spec fn geometries_of(l: Seq<GeoEdge>) -> Seq<Seq<Coord>> {
    Seq::new(l.len(), |k: int| l[k].geometry@)
}

/// All edge geometries of an edge store: entries in store order, parallel
/// edges of one entry in insertion order, concatenated.
pub open spec fn flat_edge_geometries(s: Seq<(NodeIdx, NodeIdx, Vec<GeoEdge>)>) -> Seq<Seq<Coord>>
    decreases s.len(),
{
    if s.len() == 0 {
        Seq::<Seq<Coord>>::empty()
    } else {
        flat_edge_geometries(s.drop_last()) + geometries_of(s.last().2@)
    }
}

/// The views of a vector of coordinate vectors.
pub open spec fn vecs_view(s: Seq<Vec<Coord>>) -> Seq<Seq<Coord>> {
    Seq::new(s.len(), |i: int| s[i]@)
}

/// Copies a coordinate vector.
pub fn copy_coords(v: &Vec<Coord>) -> (r: Vec<Coord>)
    ensures
        r@ == v@,
{
    let mut out: Vec<Coord> = Vec::new();
    let mut i: usize = 0;
    while i < v.len()
        invariant
            0 <= i <= v@.len(),
            out@ == v@.take(i as int),
        decreases v@.len() - i,
    {
        out.push(v[i]);
        proof {
            assert(out@ =~= v@.take(i + 1 as int));
        }
        i += 1;
    }
    proof {
        assert(v@.take(v@.len() as int) =~= v@);
    }
    out
}

impl GeoGraph {
    /// All edge geometries of the graph, copied out: entries in store
    /// order, parallel edges in insertion order.
    pub fn edge_geometries(&self) -> (r: Vec<Vec<Coord>>)
        ensures
            vecs_view(r@) == flat_edge_geometries(self.edge_graph.entries@),
    {
        let ghost es = self.edge_graph.entries@;
        let mut out: Vec<Vec<Coord>> = Vec::new();
        let mut i: usize = 0;
        while i < self.edge_graph.entries.len()
            invariant
                es == self.edge_graph.entries@,
                0 <= i <= es.len(),
                vecs_view(out@) == flat_edge_geometries(es.take(i as int)),
            decreases es.len() - i,
        {
            let list = &self.edge_graph.entries[i].2;
            let mut j: usize = 0;
            while j < list.len()
                invariant
                    es == self.edge_graph.entries@,
                    0 <= i < es.len(),
                    *list == es[i as int].2,
                    0 <= j <= list@.len(),
                    vecs_view(out@) == flat_edge_geometries(es.take(i as int)) + geometries_of(
                        list@.take(j as int),
                    ),
                decreases list@.len() - j,
            {
                let ghost prev = out@;
                let copied = copy_coords(&list[j].geometry);
                out.push(copied);
                proof {
                    assert(geometries_of(list@.take(j + 1 as int)) =~~= geometries_of(
                        list@.take(j as int),
                    ).push(list@[j as int].geometry@));
                    assert(vecs_view(out@) =~~= vecs_view(prev).push(copied@));
                    assert(vecs_view(prev).push(copied@) =~~= flat_edge_geometries(
                        es.take(i as int),
                    ) + geometries_of(list@.take(j as int)).push(list@[j as int].geometry@));
                    assert(vecs_view(out@) =~~= flat_edge_geometries(es.take(i as int))
                        + geometries_of(list@.take(j + 1 as int)));
                }
                j += 1;
            }
            proof {
                assert(list@.take(list@.len() as int) =~= list@);
                assert(es.take(i + 1 as int).drop_last() =~= es.take(i as int));
                assert(es.take(i + 1 as int).last() == es[i as int]);
                assert(flat_edge_geometries(es.take(i + 1 as int)) == flat_edge_geometries(
                    es.take(i as int),
                ) + geometries_of(es[i as int].2@));
            }
            i += 1;
        }
        proof {
            assert(es.take(es.len() as int) =~= es);
        }
        out
    }
}

/// How a successful edge insertion relates the new graph to the old one:
/// the node map is extended by the (possibly new) endpoint nodes, and the
/// edge is appended to its endpoint pair's list, which moves to the end of
/// the store when the pair is new.
pub open spec fn edge_inserted(
    before: &GeoGraph,
    after: &GeoGraph,
    start: NodeIdx,
    end: NodeIdx,
    g: Seq<Coord>,
    data: AttributeValue,
) -> bool {
    let ns1 = node_entries_after_insert(before.node_map.entries@, start, g[0]);
    let oe = before.edge_graph.entries@;
    let ne = after.edge_graph.entries@;
    &&& after.node_map.entries@ == node_entries_after_insert(ns1, end, g.last())
    &&& if has_edge_pair(oe, start, end) {
        &&& ne.len() == oe.len()
        &&& exists|i: int|
            0 <= i < oe.len() && (#[trigger] oe[i]).0 == start && oe[i].1 == end && ne[i].0
                == start && ne[i].1 == end && ne[i].2@.len() == oe[i].2@.len() + 1
                && ne[i].2@.drop_last() == oe[i].2@ && ne[i].2@.last().geometry@ == g
                && ne[i].2@.last().data == data && (forall|j: int|
                0 <= j < oe.len() && j != i ==> ne[j] == oe[j])
    } else {
        &&& ne.len() == oe.len() + 1
        &&& forall|j: int| 0 <= j < oe.len() ==> ne[j] == oe[j]
        &&& ne.last().0 == start
        &&& ne.last().1 == end
        &&& ne.last().2@.len() == 1
        &&& ne.last().2@[0].geometry@ == g
        &&& ne.last().2@[0].data == data
    }
}

/// Appending one well-placed edge to an existing endpoint pair's list keeps
/// a graph well-formed.
proof fn lemma_wf_after_edge_update(
    before: GeoGraph,
    after: GeoGraph,
    i: int,
    start: NodeIdx,
    end: NodeIdx,
)
    requires
        before.wf(),
        after.node_map == before.node_map,
        0 <= i < before.edge_graph.entries@.len(),
        after.edge_graph.entries@.len() == before.edge_graph.entries@.len(),
        forall|j: int|
            0 <= j < before.edge_graph.entries@.len() && j != i
                ==> (#[trigger] after.edge_graph.entries@[j]) == before.edge_graph.entries@[j],
        after.edge_graph.entries@[i].0 == start,
        after.edge_graph.entries@[i].1 == end,
        before.edge_graph.entries@[i].0 == start,
        before.edge_graph.entries@[i].1 == end,
        after.edge_graph.entries@[i].2@.len() == before.edge_graph.entries@[i].2@.len() + 1,
        after.edge_graph.entries@[i].2@.drop_last() == before.edge_graph.entries@[i].2@,
        after.edge_graph.entries@[i].2@.last().geometry@.len() >= 2,
        node_geom_is(
            after.node_map.entries@,
            start,
            after.edge_graph.entries@[i].2@.last().geometry@[0],
        ),
        node_geom_is(
            after.node_map.entries@,
            end,
            after.edge_graph.entries@[i].2@.last().geometry@.last(),
        ),
    ensures
        after.wf(),
{
    let oe = before.edge_graph.entries@;
    let ne = after.edge_graph.entries@;
    assert forall|x: int, y: int|
        0 <= x < y < ne.len() implies ((#[trigger] ne[x]).0 != (#[trigger] ne[y]).0 || ne[x].1
        != ne[y].1) by {
        assert(ne[x].0 == oe[x].0 && ne[x].1 == oe[x].1);
        assert(ne[y].0 == oe[y].0 && ne[y].1 == oe[y].1);
    }
    assert forall|x: int, j: int|
        #![trigger after.edge_graph.entries@[x].2@[j]]
        0 <= x < ne.len() && 0 <= j < ne[x].2@.len() implies {
        let entry = ne[x];
        let g = entry.2@[j].geometry@;
        &&& g.len() >= 2
        &&& node_geom_is(after.node_map.entries@, entry.0, g[0])
        &&& node_geom_is(after.node_map.entries@, entry.1, g.last())
    } by {
        if x != i {
            assert(ne[x] == oe[x]);
            assert(before.wf());
        } else if j < ne[i].2@.len() - 1 {
            assert(ne[i].2@[j] == ne[i].2@.drop_last()[j]);
            assert(ne[i].2@[j] == oe[i].2@[j]);
        }
    }
}

/// Find the position of the entry with endpoint pair `(a, b)`.
fn find_edge_pair(eg: &EdgeGraph, a: NodeIdx, b: NodeIdx) -> (r: Option<usize>)
    ensures
        match r {
            Some(i) => 0 <= i < eg.entries@.len() && eg.entries@[i as int].0 == a
                && eg.entries@[i as int].1 == b,
            None => !has_edge_pair(eg.entries@, a, b),
        },
{
    let mut i: usize = 0;
    while i < eg.entries.len()
        invariant
            0 <= i <= eg.entries@.len(),
            forall|j: int|
                0 <= j < i ==> ((#[trigger] eg.entries@[j]).0 != a || eg.entries@[j].1 != b),
        decreases eg.entries@.len() - i,
    {
        if eg.entries[i].0 == a && eg.entries[i].1 == b {
            return Some(i);
        }
        i += 1;
    }
    None
}

} // verus!
