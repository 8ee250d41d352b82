//! What the interface keeps of each tile's fog of war.

use vstd::prelude::*;
use crate::view::scene::NodeId;

verus! {

/// Whether a tile is seen, and the scene node that darkens it when not.
#[derive(Clone, Copy, Debug, PartialEq, Eq, Structural)]
pub struct FowInfoTile {
    pub is_visible: bool,
    pub node_id: NodeId,
}

} // verus!
