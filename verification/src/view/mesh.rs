//! Ids of meshes and how they are drawn.

use vstd::prelude::*;

verus! {

/// Identity of a mesh.
#[derive(Clone, Copy, Debug, PartialEq, Eq, Structural, Hash, PartialOrd, Ord)]
pub struct MeshId {
    pub id: i32,
}

/// How a mesh is drawn.
#[derive(Clone, Copy, Debug, PartialEq, Eq, Structural)]
pub enum MeshType {
    Normal,
    Wire,
    NoDepth,
}

/// The ids of the meshes the tactical screen draws.
#[derive(Clone, Copy, Debug, PartialEq, Eq, Structural)]
pub struct MeshIdManager {
    pub big_building_mesh_id: MeshId,
    pub building_mesh_id: MeshId,
    pub big_building_mesh_w_id: MeshId,
    pub building_mesh_w_id: MeshId,
    pub road_mesh_id: MeshId,
    pub trees_mesh_id: MeshId,
    pub shell_mesh_id: MeshId,
    pub marker_mesh_id: MeshId,
    pub walkable_mesh_id: MeshId,
    pub targets_mesh_id: MeshId,
    pub map_mesh_id: MeshId,
    pub water_mesh_id: MeshId,
    pub selection_marker_mesh_id: MeshId,
    pub smoke_mesh_id: MeshId,
    pub fow_tile_mesh_id: MeshId,
    pub reinforcement_sector_tile_mesh_id: MeshId,
}

/// Where on its tile an object stands: one of the tile's slots, the
/// whole tile, two tiles, or the air above it.
#[derive(Clone, Copy, Debug, PartialEq, Eq, Structural)]
pub enum SlotId {
    Id(u8),
    WholeTile,
    TwoTiles(crate::dir::Dir),
    Air,
}

/// The mesh of a building standing on `slot_id`: the small building in a
/// slot, the big one on a whole tile.
pub fn building_mesh_id(mesh_ids: &MeshIdManager, slot_id: &SlotId) -> (id: MeshId)
    requires
        *slot_id is Id || *slot_id is WholeTile,
    ensures
        *slot_id is Id ==> id == mesh_ids.building_mesh_id,
        *slot_id is WholeTile ==> id == mesh_ids.big_building_mesh_id,
{
    match slot_id {
        SlotId::WholeTile => mesh_ids.big_building_mesh_id,
        _ => mesh_ids.building_mesh_id,
    }
}

/// The wireframe mesh of a building standing on `slot_id`: the small
/// building's in a slot, the big one's on a whole tile.
pub fn wireframe_building_mesh_id(mesh_ids: &MeshIdManager, slot_id: &SlotId) -> (id: MeshId)
    requires
        *slot_id is Id || *slot_id is WholeTile,
    ensures
        *slot_id is Id ==> id == mesh_ids.building_mesh_w_id,
        *slot_id is WholeTile ==> id == mesh_ids.big_building_mesh_w_id,
{
    match slot_id {
        SlotId::WholeTile => mesh_ids.big_building_mesh_w_id,
        _ => mesh_ids.building_mesh_w_id,
    }
}

/// Hands out mesh ids, counting up from zero.
pub struct MeshIdAllocator {
    next_id: MeshId,
}

impl MeshIdAllocator {
    /// The id the next mesh gets.
    pub closed spec fn spec_next(&self) -> int {
        self.next_id.id as int
    }

    /// No id handed out yet.
    pub fn new() -> (a: MeshIdAllocator)
        ensures
            a.spec_next() == 0,
    {
        MeshIdAllocator { next_id: MeshId { id: 0 } }
    }

    /// A new mesh id, one above the last one.
    pub fn allocate_id(&mut self) -> (id: MeshId)
        requires
            old(self).spec_next() < i32::MAX,
        ensures
            id.id == old(self).spec_next(),
            final(self).spec_next() == old(self).spec_next() + 1,
    {
        let id = self.next_id;
        self.next_id = MeshId { id: self.next_id.id + 1 };
        id
    }
}

} // verus!
