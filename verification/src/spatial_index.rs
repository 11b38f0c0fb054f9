//! The 2D point spatial index: an r-tree of integer points, each carrying a
//! numeric id.
//!
//! The index is the one outside collection the library leans on. The
//! `PointIndex` struct hides the r-tree itself; its contents are modelled by
//! the uninterpreted `index_points` multiset, and every method the library
//! calls is a trusted wrapper whose contract states, over that multiset,
//! what the r-tree's source shows. Queries return elements in no specified
//! order, so contracts speak of multisets, never of positions.

use vstd::multiset::Multiset;
use vstd::prelude::*;

use crate::coords::COORD_LIMIT;

verus! {

/// A point spatial index over `(x, y)` integer points carrying `u64` ids.
///
/// Holds an `rstar::RTree` of `GeomWithData<[i64; 2], u64>` elements; the
/// struct is opaque to verification and is spoken of only through
/// `index_points`.
#[verifier::external_body]
pub struct PointIndex {
    tree: rstar::RTree<rstar::primitives::GeomWithData<[i64; 2], u64>>,
}

/// What the index holds: the multiset of `(x, y, id)` triples inserted so
/// far.
pub uninterp spec fn index_points(t: PointIndex) -> Multiset<(i64, i64, u64)>;

/// Whether an element's point is within `COORD_LIMIT`, so that the r-tree's
/// internal `i64` distance arithmetic cannot overflow.
pub open spec fn entry_in_bounds(e: (i64, i64, u64)) -> bool {
    -COORD_LIMIT <= e.0 <= COORD_LIMIT && -COORD_LIMIT <= e.1 <= COORD_LIMIT
}

/// Whether every element the index holds is in bounds.
pub open spec fn index_in_bounds(t: PointIndex) -> bool {
    forall|e: (i64, i64, u64)| index_points(t).contains(e) ==> entry_in_bounds(e)
}

/// The squared distance from an element's point to the query point `(x, y)`.
pub open spec fn entry_sq_dist(e: (i64, i64, u64), x: i64, y: i64) -> int {
    (e.0 - x) * (e.0 - x) + (e.1 - y) * (e.1 - y)
}

impl PointIndex {
    /// Relies on `rstar::RTree::new`: creates an empty r-tree.
    #[verifier::external_body]
    pub(crate) fn new() -> (t: PointIndex)
        ensures
            index_points(t) == Multiset::<(i64, i64, u64)>::empty(),
    {
        PointIndex { tree: rstar::RTree::new() }
    }

    /// Relies on `rstar::RTree::insert`: adds one element to the tree and
    /// changes nothing else.
    #[verifier::external_body]
    pub(crate) fn insert(&mut self, x: i64, y: i64, id: u64)
        requires
            -COORD_LIMIT <= x <= COORD_LIMIT,
            -COORD_LIMIT <= y <= COORD_LIMIT,
        ensures
            index_points(*final(self)) == index_points(*old(self)).insert((x, y, id)),
    {
        self.tree.insert(rstar::primitives::GeomWithData::new([x, y], id));
    }

    /// Relies on `rstar::RTree::locate_at_point`: returns an element whose
    /// point equals the query point exactly, or `None` when the tree holds
    /// no such element. When several elements share the point, which one is
    /// returned is not specified.
    #[verifier::external_body]
    pub(crate) fn locate_at_point(&self, x: i64, y: i64) -> (r: Option<u64>)
        requires
            -COORD_LIMIT <= x <= COORD_LIMIT,
            -COORD_LIMIT <= y <= COORD_LIMIT,
            index_in_bounds(*self),
        ensures
            match r {
                Some(id) => index_points(*self).contains((x, y, id)),
                None => forall|id: u64| !index_points(*self).contains((x, y, id)),
            },
    {
        match self.tree.locate_at_point([x, y]) {
            Some(e) => Some(e.data),
            None => None,
        }
    }

    /// Relies on `rstar::RTree::locate_within_distance`: yields exactly the
    /// elements whose squared distance to the query point is at most
    /// `max_sq_radius`, in no specified order.
    #[verifier::external_body]
    pub(crate) fn within_squared_radius(&self, x: i64, y: i64, max_sq_radius: i64) -> (r: Vec<
        (i64, i64, u64),
    >)
        requires
            -COORD_LIMIT <= x <= COORD_LIMIT,
            -COORD_LIMIT <= y <= COORD_LIMIT,
            index_in_bounds(*self),
        ensures
            r@.to_multiset() == index_points(*self).filter(
                |e: (i64, i64, u64)| entry_sq_dist(e, x, y) <= max_sq_radius,
            ),
    {
        let mut out: Vec<(i64, i64, u64)> = Vec::new();
        for e in self.tree.locate_within_distance([x, y], max_sq_radius) {
            let g = e.geom();
            out.push((g[0], g[1], e.data));
        }
        out
    }
}

} // verus!
