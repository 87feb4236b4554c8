//! The latitude-longitude rectangle region.
use vstd::prelude::*;

verus! {

/// A closed latitude-longitude rectangle. Latitude-longitude space is taken
/// to be cylindrical, so a pole may appear in some of its representations
/// and not in others.
#[derive(Debug)]
pub struct S2LatLngRect {}

} // verus!
