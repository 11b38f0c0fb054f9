//! Error kinds shared by the whole crate.
//!
//! Every failure is terminal for the operation that raised it: there is no
//! retry and no partial result.

use vstd::prelude::*;

verus! {

/// The closed set of failures the library can report.
#[derive(Debug, Clone, Copy, PartialEq, Eq, Structural)]
pub enum TopoError {
    /// A node id was reused with a conflicting point geometry, or an edge
    /// geometry does not fit the graph it is applied to.
    InvalidGeometry,
    /// A parameter is outside its valid range (for example a UTM zone
    /// letter past the last valid letter, or a CRS that is not geographic
    /// where a geographic one is needed).
    InvalidParameter,
    /// No projected UTM coordinate reference system could be resolved for a
    /// geographic CRS.
    NoProjectedCrsFound,
    /// A coordinate reference system has no extractable numeric authority
    /// code.
    InvalidCrsAuthority,
    /// The point spatial index could not be built or queried.
    SpatialIndexFailure,
}

impl TopoError {
    /// A short, stable text for logs and error reporting.
    pub fn message(&self) -> (r: &'static str)
        ensures
            r@ == self.spec_message(),
    {
        match self {
            TopoError::InvalidGeometry => "invalid geometry",
            TopoError::InvalidParameter => "invalid parameter",
            TopoError::NoProjectedCrsFound => "no projected CRS found",
            TopoError::InvalidCrsAuthority => "invalid CRS authority",
            TopoError::SpatialIndexFailure => "spatial index failure",
        }
    }

    /// The text that `message` returns for each variant.
    pub open spec fn spec_message(&self) -> Seq<char> {
        match self {
            TopoError::InvalidGeometry => "invalid geometry"@,
            TopoError::InvalidParameter => "invalid parameter"@,
            TopoError::NoProjectedCrsFound => "no projected CRS found"@,
            TopoError::InvalidCrsAuthority => "invalid CRS authority"@,
            TopoError::SpatialIndexFailure => "spatial index failure"@,
        }
    }
}

} // verus!
