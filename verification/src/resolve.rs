use vstd::prelude::*;
use std::collections::VecDeque;
use crate::node::Node;
use crate::octree::Octree;
use crate::links::{links, child, links_forward, links_in_range, lemma_forward_in_range};
use crate::ways::{reachable, last_octant, last_path, lemma_last_octant, lemma_reachable_behind};
use crate::rope::{rope_target, octants, frames_follow, frame_linked};

verus! {

/// Whether two arenas differ in their ropes at most.
pub open spec fn same_but_ropes(before: Seq<Node>, after: Seq<Node>) -> bool {
    &&& after.len() == before.len()
    &&& forall|n: int|
        0 <= n < before.len() ==> {
            &&& (#[trigger] after[n]).material_id == before[n].material_id
            &&& after[n].level == before[n].level
            &&& after[n].sub_voxels == before[n].sub_voxels
        }
}

/// What a walk in pre-order from `root`, which lies at the octant path
/// `octs`, makes of the arena `before`: every node that it comes to has the
/// ropes of the way on which the walk came to it last, and every other node
/// has the ropes that it had.
pub open spec fn resolved_from(
    before: Seq<Node>,
    after: Seq<Node>,
    octs: Seq<int>,
    root: int,
) -> bool {
    &&& same_but_ropes(before, after)
    &&& forall|n: int, dir: int|
        0 <= n < before.len() && 0 <= dir < 6 ==> #[trigger] after[n].ropes@[dir] == if reachable(
            links(before),
            root,
            n,
        ) {
            rope_target(links(before), octs + last_path(links(before), root, n), dir)
        } else {
            before[n].ropes@[dir] as int
        }
}

/// What the resolution of ropes makes of the arena `before`.
pub open spec fn resolved(before: Seq<Node>, after: Seq<Node>) -> bool {
    resolved_from(before, after, Seq::empty(), 0)
}

/// The rope of node `n` in direction `dir` while the walk is at `root` and
/// has done the octants below `upto`.
pub open spec fn rope_so_far(
    before: Seq<Node>,
    octs: Seq<int>,
    root: int,
    upto: int,
    n: int,
    dir: int,
) -> int {
    let table = links(before);
    let slot = last_octant(table, root, n, upto);
    if slot >= 0 {
        rope_target(table, octs.push(slot) + last_path(table, child(table, root, slot), n), dir)
    } else if n == root {
        rope_target(table, octs, dir)
    } else {
        before[n].ropes@[dir] as int
    }
}

/// Arenas that differ in their ropes at most have the same links.
pub proof fn lemma_same_links(before: Seq<Node>, after: Seq<Node>)
    requires
        same_but_ropes(before, after),
    ensures
        links(after) == links(before),
{
    assert(links(after) =~= links(before));
}

impl Octree {
    /// Resolves the six ropes of `root`, whose path from the root of the
    /// tree is `stack`, and then of every node below it, in pre-order.
    fn generate_ropes_internal(
        root: i32,
        data: &mut Vec<Node>,
        stack: &mut VecDeque<(i32, i32)>,
    )
        requires
            links_forward(links(old(data)@)),
            frames_follow(links(old(data)@), old(stack)@),
            old(stack)@.last().0 == root,
        ensures
            final(stack)@ == old(stack)@,
            resolved_from(old(data)@, final(data)@, octants(old(stack)@), root as int),
        decreases old(data)@.len() - root,
    {
        let ghost before = data@;
        let ghost table = links(before);
        let ghost frames = stack@;
        let ghost octs = octants(frames);
        let at = root as usize;
        proof {
            lemma_forward_in_range(table);
        }
        let mut dir: usize = 0;
        while dir < 6
            invariant
                0 <= dir <= 6,
                at == root,
                0 <= root < before.len(),
                table == links(before),
                links_in_range(table),
                frames == stack@,
                octs == octants(frames),
                frames_follow(table, frames),
                same_but_ropes(before, data@),
                forall|n: int|
                    0 <= n < before.len() && n != root ==> (#[trigger] data@[n]).ropes
                        == before[n].ropes,
                forall|d: int|
                    0 <= d < dir ==> #[trigger] data@[root as int].ropes@[d] == rope_target(
                        table,
                        octs,
                        d,
                    ),
                forall|d: int|
                    dir <= d < 6 ==> #[trigger] data@[root as int].ropes@[d]
                        == before[root as int].ropes@[d],
            decreases 6 - dir,
        {
            proof {
                lemma_same_links(before, data@);
            }
            let rope = Self::generate_rope(stack, data.as_slice(), dir as i32);
            data[at].ropes[dir] = rope;
            dir += 1;
        }
        assert forall|n: int, d: int|
            0 <= n < before.len() && 0 <= d < 6 implies #[trigger] data@[n].ropes@[d]
            == rope_so_far(before, octs, root as int, 0, n, d) by {}
        let mut i: usize = 0;
        while i < 8
            invariant
                0 <= i <= 8,
                at == root,
                before == old(data)@,
                0 <= root < before.len(),
                table == links(before),
                links_forward(table),
                frames == stack@,
                octs == octants(frames),
                frames_follow(table, frames),
                frames.last().0 == root,
                same_but_ropes(before, data@),
                forall|n: int, d: int|
                    0 <= n < before.len() && 0 <= d < 6 ==> #[trigger] data@[n].ropes@[d]
                        == rope_so_far(before, octs, root as int, i as int, n, d),
            decreases 8 - i,
        {
            proof {
                lemma_same_links(before, data@);
                assert(table[root as int] == data@[root as int].sub_voxels@);
            }
            let sub_voxel = data[at].sub_voxels[i];
            assert(sub_voxel == child(table, root as int, i as int));
            if sub_voxel != 0 {
                let ghost entry = data@;
                stack.push_back((sub_voxel, i as i32));
                proof {
                    let deeper = stack@;
                    assert forall|k: int| 1 <= k < deeper.len() implies #[trigger] frame_linked(
                        table,
                        deeper,
                        k,
                    ) by {
                        if k < frames.len() {
                            assert(frame_linked(table, frames, k));
                        }
                    }
                    assert(octants(deeper) =~= octs.push(i as int));
                }
                Self::generate_ropes_internal(sub_voxel, data, stack);
                stack.pop_back();
                proof {
                    assert(stack@ =~= frames);
                    lemma_same_links(before, entry);
                    assert forall|n: int, d: int|
                        0 <= n < before.len() && 0 <= d < 6 implies #[trigger] data@[n].ropes@[d]
                        == rope_so_far(before, octs, root as int, i + 1, n, d) by {
                        assert(entry[n].ropes@[d] == rope_so_far(
                            before,
                            octs,
                            root as int,
                            i as int,
                            n,
                            d,
                        ));
                    }
                }
            }
            i += 1;
        }
        proof {
            assert forall|n: int, d: int|
                0 <= n < before.len() && 0 <= d < 6 implies #[trigger] data@[n].ropes@[d]
                == if reachable(table, root as int, n) {
                rope_target(table, octs + last_path(table, root as int, n), d)
            } else {
                before[n].ropes@[d] as int
            } by {
                lemma_last_octant(table, root as int, n, 8);
                let slot = last_octant(table, root as int, n, 8);
                if slot >= 0 {
                    lemma_reachable_behind(table, child(table, root as int, slot), n);
                    let rest = last_path(table, child(table, root as int, slot), n);
                    assert(octs.push(slot) + rest =~= octs + (seq![slot] + rest));
                } else if n == root {
                    assert(octs + Seq::<int>::empty() =~= octs);
                }
            }
        }
    }

    /// Resolves the ropes of every node of the tree in `data`, in place.
    ///
    /// A rope is -1 where the node lies against the boundary of the tree,
    /// and else the index of the node of the same size across that face or,
    /// where the tree is not subdivided that far on the other side, of the
    /// smallest node there that holds the place of it. Nothing but the ropes
    /// changes, and a node that is not below the root keeps its ropes.
    ///
    /// The links must point forward, as they do in every arena built in
    /// pre-order: the walk would not end on links that lead back.
    pub fn generate_ropes(data: &mut Vec<Node>)
        requires
            links_forward(links(old(data)@)),
        ensures
            resolved(old(data)@, final(data)@),
    {
        let mut stack: VecDeque<(i32, i32)> = VecDeque::new();
        stack.push_back((0, 0));
        assert(octants(stack@) =~= Seq::<int>::empty());
        Self::generate_ropes_internal(0, data, &mut stack);
    }
}

} // verus!
