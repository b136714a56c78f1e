use vstd::prelude::*;

verus! {

/// Material tag of a region that holds nothing itself; only such a region
/// may be subdivided.
pub const EMPTY: i32 = 0;

/// Material tag of an occupied leaf.
pub const SOLID: i32 = 1;

/// One position of the octree, in the layout that is handed to the renderer:
/// sixteen 4-byte signed integers.
///
/// `sub_voxels[i]` is `0` where octant `i` is absent, else the index of the
/// child in the arena. Bit 0 of `i` is the X axis, bit 1 the Y axis, bit 2
/// the Z axis. `ropes[d]` is `-1` where the node touches the boundary of the
/// tree in direction `d`, else the index of the node across that face.
#[derive(Clone, Copy, Debug, PartialEq, Eq)]
pub struct Node {
    pub material_id: i32,
    pub level: i32,
    pub sub_voxels: [i32; 8],
    pub ropes: [i32; 6],
}

impl Node {
    /// A node as the generators first push it: the given material, level 0,
    /// no children, and every rope still 0.
    pub open spec fn is_blank(self, material: i32) -> bool {
        &&& self.material_id == material
        &&& self.level == 0
        &&& forall|slot: int| 0 <= slot < 8 ==> self.sub_voxels@[slot] == 0
        &&& forall|dir: int| 0 <= dir < 6 ==> self.ropes@[dir] == 0
    }

    /// Whether the node has no child in any octant.
    pub open spec fn is_leaf(self) -> bool {
        forall|slot: int| 0 <= slot < 8 ==> self.sub_voxels@[slot] == 0
    }

    pub fn with_material(material: i32) -> (node: Node)
        ensures
            node.is_blank(material),
    {
        Node { material_id: material, level: 0, sub_voxels: [0; 8], ropes: [0; 6] }
    }
}

impl Default for Node {
    fn default() -> (node: Node)
        ensures
            node.is_blank(EMPTY),
    {
        Node::with_material(EMPTY)
    }
}

} // verus!
