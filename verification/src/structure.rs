//! Tunnels and bridges: their identities.

use vstd::prelude::*;

verus! {

/// An opaque structure identifier. Not a position in the structure list:
/// look structures up by identity.
#[derive(Debug, Clone, Copy, PartialEq, Eq, Hash, Structural)]
pub struct StructureId(pub usize);

} // verus!
