use vstd::prelude::*;
use crate::node::Node;

verus! {

/// The child table of an arena: for each node its eight child slots.
/// Everything that the resolution of ropes reads is in this table.
pub open spec fn links(nodes: Seq<Node>) -> Seq<Seq<i32>> {
    Seq::new(nodes.len(), |n: int| nodes[n].sub_voxels@)
}

/// The entry of node `n` for octant `slot`: 0 where the octant is absent.
pub open spec fn child(links: Seq<Seq<i32>>, n: int, slot: int) -> int {
    links[n][slot] as int
}

/// Every row has eight slots and every slot holds 0 or the index of a node.
pub open spec fn links_in_range(links: Seq<Seq<i32>>) -> bool {
    &&& forall|n: int| 0 <= n < links.len() ==> (#[trigger] links[n]).len() == 8
    &&& forall|n: int, slot: int|
        0 <= n < links.len() && 0 <= slot < 8 ==> 0 <= #[trigger] child(links, n, slot)
            < links.len()
}

/// The links of an arena that was built in pre-order: there is a root, the
/// indices fit the 4-byte slots, and every child lies behind its parent.
pub open spec fn links_forward(links: Seq<Seq<i32>>) -> bool {
    &&& 0 < links.len() <= i32::MAX
    &&& forall|n: int| 0 <= n < links.len() ==> (#[trigger] links[n]).len() == 8
    &&& forall|n: int, slot: int|
        0 <= n < links.len() && 0 <= slot < 8 ==> {
            ||| #[trigger] child(links, n, slot) == 0
            ||| n < child(links, n, slot) < links.len()
        }
}

/// Links that point forward point into the arena.
pub proof fn lemma_forward_in_range(links: Seq<Seq<i32>>)
    requires
        links_forward(links),
    ensures
        links_in_range(links),
{
}

/// Whether no node is the child of two slots. Links that point forward and
/// are not shared make the arena a tree.
pub open spec fn unshared(links: Seq<Seq<i32>>) -> bool {
    forall|n1: int, s1: int, n2: int, s2: int|
        0 <= n1 < links.len() && 0 <= s1 < 8 && 0 <= n2 < links.len() && 0 <= s2 < 8
            && #[trigger] child(links, n1, s1) != 0 && child(links, n1, s1) == #[trigger] child(
            links,
            n2,
            s2,
        ) ==> n1 == n2 && s1 == s2
}

} // verus!
