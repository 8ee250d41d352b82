//! The choice of reinforcements offered for a tile.

use vstd::prelude::*;
use crate::types::MapPos;
use crate::unit::UnitTypeId;

verus! {

/// The unit types that can be placed, each with where it would stand.
#[derive(Clone, Debug, PartialEq, Eq)]
pub struct Options {
    pub unit_types: Vec<(UnitTypeId, MapPos)>,
}

impl Options {
    /// No choice yet.
    pub fn new() -> (o: Options)
        ensures
            o.unit_types@.len() == 0,
    {
        Options { unit_types: Vec::new() }
    }
}

} // verus!
