//! What a polyline needs of the points it is made from.

use vstd::prelude::*;

verus! {

/// Why a list of points is not a polyline: it has fewer than two.
#[derive(Debug, Clone, Copy, PartialEq, Eq, Structural)]
pub struct TooFewPoints;

} // verus!
