use vstd::prelude::*;
use crate::node::{Node, EMPTY, SOLID};
use crate::octree::Octree;
use crate::links::{links, unshared};
use crate::ways::reachable;
use crate::growth::{Growth, grown, grown_upto, lemma_offsets, lemma_grown_step, lemma_grown_done,
    lemma_wall_fits};
use crate::shape::{lemma_grown_node, lemma_grown_links};

verus! {

impl Octree {
    /// A tree of `depth` levels below its root in the wall pattern: a slab
    /// of solid leaves that fills the half of the root cube on the negative
    /// X side. The ropes are not resolved yet.
    ///
    /// Deeper than 15 levels the indices of the nodes would not fit their
    /// 4-byte slots.
    pub fn new_wall(depth: i32, size: u32) -> (tree: Octree)
        requires
            depth <= 15,
        ensures
            tree.depth == depth,
            tree.size == size,
            grown(tree.data@, Growth::Wall, depth as int, 0),
            tree.wf(),
            unshared(links(tree.data@)),
            forall|n: int| 0 <= n < tree.data@.len() ==> reachable(links(tree.data@), 0, n),
            forall|n: int, slot: int|
                0 <= n < tree.data@.len() && 0 <= slot < 8 && slot % 2 == 1
                    ==> #[trigger] tree.data@[n].sub_voxels@[slot] == 0,
            forall|n: int|
                0 <= n < tree.data@.len() ==> ((#[trigger] tree.data@[n]).material_id == SOLID
                    <==> tree.data@[n].is_leaf()),
    {
        let mut data = Vec::new();
        proof {
            lemma_wall_fits(depth as int);
        }
        Self::new_wall_internal(depth, &mut data);
        proof {
            assert(data@.skip(0) =~= data@);
            lemma_grown_links(data@, Growth::Wall, depth as int);
            assert forall|n: int| 0 <= n < data@.len() implies {
                &&& ((#[trigger] data@[n]).material_id == SOLID <==> data@[n].is_leaf())
                &&& forall|slot: int|
                    0 <= slot < 8 && slot % 2 == 1 ==> #[trigger] data@[n].sub_voxels@[slot] == 0
            } by {
                lemma_grown_node(data@, Growth::Wall, depth as int, 0, n);
            }
        }
        Octree { data, depth, size }
    }

    /// Appends to `data` the tree that the wall pattern grows over `depth`
    /// levels: a node is solid at depth 0 and else subdivides in its four
    /// octants on the negative X side. A depth below 0 counts as 0.
    pub fn new_wall_internal(depth: i32, data: &mut Vec<Node>)
        requires
            old(data)@.len() + Growth::Wall.size(depth as int) <= i32::MAX,
        ensures
            final(data)@.len() == old(data)@.len() + Growth::Wall.size(depth as int),
            final(data)@.take(old(data)@.len() as int) == old(data)@,
            grown(
                final(data)@.skip(old(data)@.len() as int),
                Growth::Wall,
                depth as int,
                old(data)@.len() as int,
            ),
        decreases depth,
    {
        let ghost plan = Growth::Wall;
        let ghost before = data@;
        let base = data.len();
        data.push(Node::with_material(if depth <= 0 { SOLID } else { EMPTY }));
        assert(data@.take(base as int) =~= before);
        if depth <= 0 {
            return ;
        }
        let mut i: usize = 0;
        proof {
            lemma_offsets(plan, depth as int, 0);
        }
        while i < 8
            invariant
                0 <= i <= 8,
                depth > 0,
                plan == Growth::Wall,
                base == before.len(),
                base + plan.size(depth as int) <= i32::MAX,
                data@.take(base as int) == before,
                grown_upto(data@, plan, depth as int, base as int, i as int),
            decreases 8 - i,
        {
            proof {
                lemma_offsets(plan, depth as int, i as int);
            }
            if i & 1 == 0 {
                assert(i & 1 == 0 ==> i % 2 == 0) by (bit_vector);
                let new_address = data.len();
                let ghost start = data@;
                data[base].sub_voxels[i] = new_address as i32;
                let ghost linked = data@;
                Self::new_wall_internal(depth - 1, data);
                proof {
                    lemma_grown_step(
                        plan,
                        depth as int,
                        base as int,
                        i as int,
                        start,
                        linked,
                        data@,
                    );
                    assert(data@.take(base as int) =~= linked.take(base as int));
                    assert(linked.take(base as int) =~= start.take(base as int));
                }
            } else {
                assert(i & 1 != 0 ==> i % 2 != 0) by (bit_vector);
            }
            i += 1;
        }
        proof {
            lemma_offsets(plan, depth as int, 7);
            lemma_grown_done(plan, depth as int, base as int, data@);
        }
    }
}

} // verus!
