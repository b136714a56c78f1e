use vstd::prelude::*;
use rand::Rng;
use crate::node::{Node, EMPTY, SOLID};
use crate::octree::Octree;
use crate::links::{links, unshared};
use crate::ways::reachable;
use crate::growth::{Chance, Growth, grown, grown_upto, lemma_offsets, lemma_grown_step,
    lemma_grown_done, lemma_random_fits};
use crate::shape::{lemma_grown_node, lemma_grown_links};

verus! {

/// One roll for a leaf, by `rand::Rng::gen_ratio` on the generator that
/// `rand::thread_rng` gives the calling thread.
///
/// Believed of it, from its documentation: with a numerator of 0 the roll
/// never hits, and with a numerator equal to the denominator it always
/// does. Nothing is claimed of any other chance. `gen_ratio` panics on a
/// denominator of 0 and on a numerator above the denominator, which the
/// precondition leaves out. `thread_rng` panics where the operating system
/// has no seed for it, which no argument can rule out.
#[verifier::external_body]
fn roll(chance: Chance) -> (hit: bool)
    requires
        chance.wf(),
    ensures
        chance.never() ==> !hit,
        chance.always() ==> hit,
{
    rand::thread_rng().gen_ratio(chance.numerator, chance.denominator)
}

/// The material of a leaf whose roll came out as `hit`.
pub fn rolled_material(hit: bool) -> (material: i32)
    ensures
        material == if hit {
            SOLID
        } else {
            EMPTY
        },
{
    if hit {
        SOLID
    } else {
        EMPTY
    }
}

impl Octree {
    /// A tree of `depth` levels below its root in which every node above
    /// depth 0 subdivides in all eight octants and every node at depth 0 is
    /// a leaf that is solid with `chance`. The ropes are not resolved yet.
    ///
    /// Which leaves are solid is left to the rolls, but for the chances 0
    /// and 1: then none is, or every one. Deeper than 10 levels the indices
    /// of the nodes would not fit their 4-byte slots.
    pub fn new_random(depth: i32, size: u32, chance: Chance) -> (tree: Octree)
        requires
            depth <= 10,
            chance.wf(),
        ensures
            tree.depth == depth,
            tree.size == size,
            grown(tree.data@, Growth::Random(chance), depth as int, 0),
            tree.wf(),
            unshared(links(tree.data@)),
            forall|n: int| 0 <= n < tree.data@.len() ==> reachable(links(tree.data@), 0, n),
            forall|n: int|
                0 <= n < tree.data@.len() ==> {
                    ||| (#[trigger] tree.data@[n]).material_id == EMPTY
                    ||| tree.data@[n].material_id == SOLID
                },
            chance.never() ==> forall|n: int|
                0 <= n < tree.data@.len() ==> (#[trigger] tree.data@[n]).material_id == EMPTY,
            chance.always() ==> forall|n: int|
                0 <= n < tree.data@.len() && (#[trigger] tree.data@[n]).is_leaf()
                    ==> tree.data@[n].material_id == SOLID,
    {
        let mut data = Vec::new();
        proof {
            lemma_random_fits(chance, depth as int);
        }
        Self::new_random_internal(depth, &mut data, chance);
        proof {
            let plan = Growth::Random(chance);
            assert(data@.skip(0) =~= data@);
            lemma_grown_links(data@, plan, depth as int);
            assert forall|n: int| 0 <= n < data@.len() implies {
                &&& (#[trigger] data@[n]).material_id == EMPTY || data@[n].material_id == SOLID
                &&& data@[n].material_id == SOLID ==> data@[n].is_leaf()
                &&& data@[n].is_leaf() ==> plan.leaf_material(data@[n].material_id)
            } by {
                lemma_grown_node(data@, plan, depth as int, 0, n);
            }
        }
        Octree { data, depth, size }
    }

    /// Appends to `data` a tree in which every node above depth 0 is empty
    /// and subdivides in all eight octants, and every node at depth 0 is a
    /// leaf whose material is rolled with `chance`. A depth below 0 counts
    /// as 0.
    pub(crate) fn new_random_internal(depth: i32, data: &mut Vec<Node>, chance: Chance)
        requires
            chance.wf(),
            old(data)@.len() + Growth::Random(chance).size(depth as int) <= i32::MAX,
        ensures
            final(data)@.len() == old(data)@.len() + Growth::Random(chance).size(depth as int),
            final(data)@.take(old(data)@.len() as int) == old(data)@,
            grown(
                final(data)@.skip(old(data)@.len() as int),
                Growth::Random(chance),
                depth as int,
                old(data)@.len() as int,
            ),
        decreases depth,
    {
        let ghost plan = Growth::Random(chance);
        let ghost before = data@;
        let base = data.len();
        let material = if depth <= 0 {
            rolled_material(roll(chance))
        } else {
            EMPTY
        };
        data.push(Node::with_material(material));
        assert(data@.take(base as int) =~= before);
        if depth <= 0 {
            return ;
        }
        let mut i: usize = 0;
        proof {
            lemma_offsets(plan, depth as int, 0);
        }
        while i < 8
            invariant
                0 <= i <= 8,
                depth > 0,
                chance.wf(),
                plan == Growth::Random(chance),
                base == before.len(),
                base + plan.size(depth as int) <= i32::MAX,
                data@.take(base as int) == before,
                grown_upto(data@, plan, depth as int, base as int, i as int),
            decreases 8 - i,
        {
            proof {
                lemma_offsets(plan, depth as int, i as int);
            }
            let new_address = data.len();
            let ghost start = data@;
            data[base].sub_voxels[i] = new_address as i32;
            let ghost linked = data@;
            Self::new_random_internal(depth - 1, data, chance);
            proof {
                lemma_grown_step(
                    plan,
                    depth as int,
                    base as int,
                    i as int,
                    start,
                    linked,
                    data@,
                );
                assert(data@.take(base as int) =~= linked.take(base as int));
                assert(linked.take(base as int) =~= start.take(base as int));
            }
            i += 1;
        }
        proof {
            lemma_offsets(plan, depth as int, 7);
            lemma_grown_done(plan, depth as int, base as int, data@);
        }
    }
}

} // verus!
