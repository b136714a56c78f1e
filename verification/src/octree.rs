use vstd::prelude::*;
use crate::node::{Node, SOLID};
use crate::links::{links, child, links_forward};

verus! {

/// An octree in a flat arena: the nodes in pre-order, the root at index 0.
pub struct Octree {
    pub data: Vec<Node>,
    /// The number of levels that the generator was asked for.
    pub depth: i32,
    /// The edge length of the root cube in world units, as the bit pattern of
    /// a single-precision number. The library carries it and never reads it.
    pub size: u32,
}

impl Octree {
    /// What holds of every tree that is built in pre-order: there is a root
    /// at index 0; every slot holds 0, for no child, or the index of a node
    /// behind its parent, so that the root is the child of no node; and a
    /// solid node is a leaf.
    pub open spec fn wf(&self) -> bool {
        &&& links_forward(links(self.data@))
        &&& forall|n: int|
            0 <= n < self.data@.len() && (#[trigger] self.data@[n]).material_id == SOLID
                ==> self.data@[n].is_leaf()
    }

    /// Whether the links of `data` are those of an arena built in
    /// pre-order, which is what the resolution of ropes asks of its input.
    pub fn has_forward_links(data: &Vec<Node>) -> (ok: bool)
        ensures
            ok == links_forward(links(data@)),
    {
        let len = data.len();
        if len == 0 || len > 0x7fff_ffff {
            return false;
        }
        let ghost table = links(data@);
        let mut n: usize = 0;
        while n < len
            invariant
                0 <= n <= len,
                len == data@.len(),
                0 < len <= i32::MAX,
                table == links(data@),
                forall|m: int, slot: int|
                    0 <= m < n && 0 <= slot < 8 ==> {
                        ||| #[trigger] child(table, m, slot) == 0
                        ||| m < child(table, m, slot) < len
                    },
            decreases len - n,
        {
            let mut slot: usize = 0;
            while slot < 8
                invariant
                    0 <= slot <= 8,
                    0 <= n < len,
                    len == data@.len(),
                    0 < len <= i32::MAX,
                    table == links(data@),
                    forall|other: int|
                        0 <= other < slot ==> {
                            ||| #[trigger] child(table, n as int, other) == 0
                            ||| n < child(table, n as int, other) < len
                        },
                decreases 8 - slot,
            {
                let link = data[n].sub_voxels[slot];
                assert(link == child(table, n as int, slot as int));
                if link != 0 && (link <= n as i32 || link >= len as i32) {
                    return false;
                }
                slot += 1;
            }
            n += 1;
        }
        true
    }
}

} // verus!
