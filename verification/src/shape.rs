use vstd::prelude::*;
use crate::node::{Node, EMPTY, SOLID};
use crate::links::{links, child, links_forward, unshared};
use crate::ways::{reachable, lemma_last_octant};
use crate::growth::{Growth, grown, lemma_offsets, lemma_offsets_ordered, lemma_size_positive};

verus! {

/// What holds of the node at index `at` of a tree that `plan` has grown and
/// that ends before index `end`.
pub open spec fn node_grown(node: Node, plan: Growth, at: int, end: int) -> bool {
    &&& forall|slot: int|
        0 <= slot < 8 ==> {
            ||| #[trigger] node.sub_voxels@[slot] == 0
            ||| at < node.sub_voxels@[slot] < end
        }
    &&& forall|slot: int|
        0 <= slot < 8 && !plan.subdivides(slot) ==> #[trigger] node.sub_voxels@[slot] == 0
    &&& node.material_id == SOLID || node.material_id == EMPTY
    &&& node.material_id == SOLID ==> node.is_leaf()
    &&& node.is_leaf() ==> plan.leaf_material(node.material_id)
}

/// The octant in whose subtree the node at offset `m` behind the root lies.
pub proof fn lemma_subtree_of(plan: Growth, depth: int, m: int, upto: int) -> (slot: int)
    requires
        depth > 0,
        0 <= upto <= 8,
        1 <= m < plan.offset(depth, upto),
    ensures
        0 <= slot < upto,
        plan.subdivides(slot),
        plan.offset(depth, slot) <= m < plan.offset(depth, slot + 1),
    decreases upto,
{
    if upto == 0 {
        lemma_offsets(plan, depth, 0);
        0
    } else {
        lemma_offsets(plan, depth, upto - 1);
        if m >= plan.offset(depth, upto - 1) {
            upto - 1
        } else {
            lemma_subtree_of(plan, depth, m, upto - 1)
        }
    }
}

/// Every node of a grown tree has its children behind it and inside the
/// tree, only in the octants that subdivide, and is solid only as a leaf.
pub proof fn lemma_grown_node(nodes: Seq<Node>, plan: Growth, depth: int, base: int, m: int)
    requires
        grown(nodes, plan, depth, base),
        0 <= base,
        0 <= m < nodes.len(),
    ensures
        node_grown(nodes[m], plan, base + m, base + nodes.len()),
    decreases depth,
{
    if depth > 0 {
        lemma_size_positive(plan, depth - 1);
        if m == 0 {
            assert forall|slot: int| 0 <= slot < 8 implies {
                ||| #[trigger] nodes[0].sub_voxels@[slot] == 0
                ||| base < nodes[0].sub_voxels@[slot] < base + nodes.len()
            } by {
                lemma_offsets(plan, depth, slot);
                lemma_offsets_ordered(plan, depth, slot + 1, 8);
                lemma_offsets(plan, depth, 7);
            }
            lemma_offsets(plan, depth, 0);
            assert(nodes[0].sub_voxels@[0] != 0);
        } else {
            lemma_offsets(plan, depth, 7);
            let slot = lemma_subtree_of(plan, depth, m, 8);
            let from = plan.offset(depth, slot);
            let to = plan.offset(depth, slot + 1);
            lemma_offsets(plan, depth, slot);
            lemma_offsets_ordered(plan, depth, slot + 1, 8);
            let sub = nodes.subrange(from, to);
            assert(sub[m - from] == nodes[m]);
            lemma_grown_node(sub, plan, depth - 1, base + from, m - from);
        }
    }
}

/// No node of a grown tree is the child of two slots.
pub proof fn lemma_grown_unshared(
    nodes: Seq<Node>,
    plan: Growth,
    depth: int,
    base: int,
    m1: int,
    s1: int,
    m2: int,
    s2: int,
)
    requires
        grown(nodes, plan, depth, base),
        0 <= base,
        0 <= m1 < nodes.len(),
        0 <= m2 < nodes.len(),
        0 <= s1 < 8,
        0 <= s2 < 8,
        nodes[m1].sub_voxels@[s1] != 0,
        nodes[m1].sub_voxels@[s1] == nodes[m2].sub_voxels@[s2],
    ensures
        m1 == m2,
        s1 == s2,
    decreases depth,
{
    lemma_grown_node(nodes, plan, depth, base, m1);
    lemma_grown_node(nodes, plan, depth, base, m2);
    if depth > 0 {
        lemma_size_positive(plan, depth - 1);
        lemma_offsets(plan, depth, 7);
        lemma_offsets(plan, depth, s1);
        lemma_offsets(plan, depth, s2);
        if m1 == 0 && m2 == 0 {
            if s1 < s2 {
                lemma_offsets_ordered(plan, depth, s1 + 1, s2);
            } else if s2 < s1 {
                lemma_offsets_ordered(plan, depth, s2 + 1, s1);
            }
        } else if m1 == 0 {
            lemma_root_link_apart(nodes, plan, depth, base, s1, m2, s2);
        } else if m2 == 0 {
            lemma_root_link_apart(nodes, plan, depth, base, s2, m1, s1);
        } else {
            let j1 = lemma_subtree_of(plan, depth, m1, 8);
            let j2 = lemma_subtree_of(plan, depth, m2, 8);
            let from1 = plan.offset(depth, j1);
            let from2 = plan.offset(depth, j2);
            lemma_offsets(plan, depth, j1);
            lemma_offsets(plan, depth, j2);
            lemma_offsets_ordered(plan, depth, j1 + 1, 8);
            lemma_offsets_ordered(plan, depth, j2 + 1, 8);
            let sub1 = nodes.subrange(from1, plan.offset(depth, j1 + 1));
            let sub2 = nodes.subrange(from2, plan.offset(depth, j2 + 1));
            assert(sub1[m1 - from1] == nodes[m1]);
            assert(sub2[m2 - from2] == nodes[m2]);
            lemma_grown_node(sub1, plan, depth - 1, base + from1, m1 - from1);
            lemma_grown_node(sub2, plan, depth - 1, base + from2, m2 - from2);
            if j1 < j2 {
                lemma_offsets_ordered(plan, depth, j1 + 1, j2);
            } else if j2 < j1 {
                lemma_offsets_ordered(plan, depth, j2 + 1, j1);
            } else {
                lemma_grown_unshared(
                    sub1,
                    plan,
                    depth - 1,
                    base + from1,
                    m1 - from1,
                    s1,
                    m2 - from1,
                    s2,
                );
            }
        }
    }
}

/// A link of the root is not a link of any node below it.
proof fn lemma_root_link_apart(
    nodes: Seq<Node>,
    plan: Growth,
    depth: int,
    base: int,
    s1: int,
    m2: int,
    s2: int,
)
    requires
        depth > 0,
        0 <= base,
        grown(nodes, plan, depth, base),
        0 < m2 < nodes.len(),
        0 <= s1 < 8,
        0 <= s2 < 8,
        nodes[0].sub_voxels@[s1] != 0,
    ensures
        nodes[0].sub_voxels@[s1] != nodes[m2].sub_voxels@[s2],
{
    lemma_size_positive(plan, depth - 1);
    lemma_offsets(plan, depth, 7);
    let j = lemma_subtree_of(plan, depth, m2, 8);
    let from = plan.offset(depth, j);
    lemma_offsets(plan, depth, j);
    lemma_offsets(plan, depth, s1);
    lemma_offsets_ordered(plan, depth, j + 1, 8);
    let sub = nodes.subrange(from, plan.offset(depth, j + 1));
    assert(sub[m2 - from] == nodes[m2]);
    lemma_grown_node(sub, plan, depth - 1, base + from, m2 - from);
    if s1 <= j {
        lemma_offsets_ordered(plan, depth, s1, j);
    } else {
        lemma_offsets_ordered(plan, depth, j + 1, s1);
    }
}

/// Every node of a grown tree is its root or lies below it.
pub proof fn lemma_grown_reachable(all: Seq<Node>, plan: Growth, depth: int, base: int, m: int)
    requires
        0 <= base,
        base + plan.size(depth) <= all.len(),
        grown(all.subrange(base, base + plan.size(depth)), plan, depth, base),
        0 <= m < plan.size(depth),
    ensures
        reachable(links(all), base, base + m),
    decreases depth,
{
    if depth > 0 && m > 0 {
        let table = links(all);
        let tree = all.subrange(base, base + plan.size(depth));
        lemma_size_positive(plan, depth - 1);
        lemma_offsets(plan, depth, 7);
        let slot = lemma_subtree_of(plan, depth, m, 8);
        let from = plan.offset(depth, slot);
        let to = plan.offset(depth, slot + 1);
        lemma_offsets(plan, depth, slot);
        lemma_offsets_ordered(plan, depth, slot + 1, 8);
        assert(tree.subrange(from, to) =~= all.subrange(base + from, base + to));
        lemma_grown_reachable(all, plan, depth - 1, base + from, m - from);
        assert(tree[0] == all[base]);
        assert(table[base] == all[base].sub_voxels@);
        assert(child(table, base, slot) == base + from);
        lemma_last_octant(table, base, base + m, 8);
    }
}

/// A grown tree that fills its arena is linked as pre-order links a tree:
/// every child lies behind its parent, no node has two parents, and every
/// node is the root or lies below it.
pub proof fn lemma_grown_links(nodes: Seq<Node>, plan: Growth, depth: int)
    requires
        grown(nodes, plan, depth, 0),
        nodes.len() <= i32::MAX,
    ensures
        links_forward(links(nodes)),
        unshared(links(nodes)),
        forall|n: int| 0 <= n < nodes.len() ==> reachable(links(nodes), 0, n),
{
    let table = links(nodes);
    lemma_size_positive(plan, depth);
    assert forall|n: int| 0 <= n < nodes.len() implies reachable(table, 0, n) by {
        assert(nodes.subrange(0, plan.size(depth)) =~= nodes);
        lemma_grown_reachable(nodes, plan, depth, 0, n);
    }
    assert forall|n: int, slot: int| 0 <= n < table.len() && 0 <= slot < 8 implies {
        ||| #[trigger] child(table, n, slot) == 0
        ||| n < child(table, n, slot) < table.len()
    } by {
        lemma_grown_node(nodes, plan, depth, 0, n);
    }
    assert forall|n1: int, s1: int, n2: int, s2: int|
        0 <= n1 < table.len() && 0 <= s1 < 8 && 0 <= n2 < table.len() && 0 <= s2 < 8
            && #[trigger] child(table, n1, s1) != 0 && child(table, n1, s1) == #[trigger] child(
            table,
            n2,
            s2,
        ) implies n1 == n2 && s1 == s2 by {
        lemma_grown_unshared(nodes, plan, depth, 0, n1, s1, n2, s2);
    }
}

} // verus!
