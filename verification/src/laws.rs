use vstd::prelude::*;
use crate::node::Node;
use crate::links::{links, child, links_forward, unshared, lemma_forward_in_range};
use crate::ways::{octants_valid, linked, walk, steps, reachable, last_path, lemma_tree_path,
    lemma_walk_steps, lemma_walk_behind, lemma_linked_prefix, lemma_steps_prefix, lemma_last_path};
use crate::direction::{axis_of, axis_bit, faces_positive, opposite, has_bit, sibling_across, pivot,
    neighbor_octants, lemma_pivot, lemma_pivot_none, lemma_flip};
use crate::rope::{rope_target, lemma_rope_target_in_range};
use crate::resolve::resolved;
use crate::geometry::{face_neighbors, lemma_neighbor_octants, lemma_face_neighbors_back};

verus! {

/// After the resolution of a tree, the node at the end of a way from the
/// root has the ropes of that way.
pub proof fn lemma_resolved_rope(before: Seq<Node>, after: Seq<Node>, octs: Seq<int>, dir: int)
    requires
        links_forward(links(before)),
        unshared(links(before)),
        resolved(before, after),
        octants_valid(octs),
        linked(links(before), 0, octs),
        0 <= dir < 6,
    ensures
        0 <= walk(links(before), 0, octs) < after.len(),
        after[walk(links(before), 0, octs)].ropes@[dir] == rope_target(links(before), octs, dir),
{
    let table = links(before);
    lemma_tree_path(table, octs);
    assert(Seq::<int>::empty() + octs =~= octs);
}

/// A rope never names a node that does not exist: after the resolution,
/// every rope of every node below the root is -1 or the index of a node of
/// the arena, whether the arena is a tree or shares nodes.
pub proof fn ropes_in_range(before: Seq<Node>, after: Seq<Node>)
    requires
        links_forward(links(before)),
        resolved(before, after),
    ensures
        forall|n: int, dir: int|
            0 <= n < before.len() && 0 <= dir < 6 && reachable(links(before), 0, n) ==> -1
                <= #[trigger] after[n].ropes@[dir] < before.len(),
{
    let table = links(before);
    lemma_forward_in_range(table);
    assert forall|n: int, dir: int|
        0 <= n < before.len() && 0 <= dir < 6 && reachable(table, 0, n) implies -1
        <= #[trigger] after[n].ropes@[dir] < before.len() by {
        let way = last_path(table, 0, n);
        lemma_last_path(table, 0, n);
        assert(Seq::<int>::empty() + way =~= way);
        lemma_rope_target_in_range(table, way, dir);
    }
}

/// Ropes are symmetric: in a resolved tree, where the cell of node `b` is
/// the cell of the same size across the face `dir` of the cell of node `a`,
/// the rope of `a` in direction `dir` is `b`, and the rope of `b` in the
/// opposite direction is `a`. The nodes are named by their ways from the
/// root.
pub proof fn rope_symmetry(
    before: Seq<Node>,
    after: Seq<Node>,
    a: Seq<int>,
    b: Seq<int>,
    dir: int,
)
    requires
        links_forward(links(before)),
        unshared(links(before)),
        resolved(before, after),
        0 <= dir < 6,
        octants_valid(a),
        octants_valid(b),
        linked(links(before), 0, a),
        linked(links(before), 0, b),
        face_neighbors(a, b, dir),
    ensures
        after[walk(links(before), 0, a)].ropes@[dir] == walk(links(before), 0, b),
        after[walk(links(before), 0, b)].ropes@[opposite(dir)] == walk(links(before), 0, a),
{
    lemma_neighbor_octants(a, b, dir);
    lemma_resolved_rope(before, after, a, dir);
    lemma_face_neighbors_back(a, b, dir);
    lemma_neighbor_octants(b, a, opposite(dir));
    lemma_resolved_rope(before, after, b, opposite(dir));
}

/// A node against the boundary has no rope: in a resolved tree, where the
/// node and each of its ancestors lies in an octant on the side of its
/// parent to which `dir` points, the rope of the node in direction `dir`
/// is -1. The root has no rope in any direction.
pub proof fn boundary_rope(before: Seq<Node>, after: Seq<Node>, octs: Seq<int>, dir: int)
    requires
        links_forward(links(before)),
        unshared(links(before)),
        resolved(before, after),
        0 <= dir < 6,
        octants_valid(octs),
        linked(links(before), 0, octs),
        forall|k: int|
            0 <= k < octs.len() ==> #[trigger] has_bit(octs[k], axis_bit(axis_of(dir)))
                == faces_positive(dir),
    ensures
        after[walk(links(before), 0, octs)].ropes@[dir] == -1,
{
    assert forall|k: int| 0 <= k < octs.len() implies !sibling_across(#[trigger] octs[k], dir) by {
        assert(has_bit(octs[k], axis_bit(axis_of(dir))) == faces_positive(dir));
    }
    lemma_pivot_none(octs, dir);
    lemma_resolved_rope(before, after, octs, dir);
}

/// A rope to a coarser node: in a resolved tree, where a node does not lie
/// against the boundary in direction `dir`, its rope is a node of the
/// arena, never -1. It is the node at which the way from the root towards
/// the cell across the face ends: that way has every step up to the pivot,
/// and where it ends early the node has no child in the next octant.
pub proof fn coarser_rope(before: Seq<Node>, after: Seq<Node>, octs: Seq<int>, dir: int)
    requires
        links_forward(links(before)),
        unshared(links(before)),
        resolved(before, after),
        0 <= dir < 6,
        octants_valid(octs),
        linked(links(before), 0, octs),
        exists|k: int| 0 <= k < octs.len() && sibling_across(#[trigger] octs[k], dir),
    ensures
        ({
            let table = links(before);
            let rope = after[walk(table, 0, octs)].ropes@[dir] as int;
            let across = neighbor_octants(octs, dir);
            let made = steps(table, 0, across);
            &&& 0 <= rope < before.len()
            &&& 0 <= pivot(octs, dir) <= made <= across.len()
            &&& linked(table, 0, across.take(made))
            &&& rope == walk(table, 0, across.take(made))
            &&& made < across.len() ==> child(table, rope, across[made]) == 0
        }),
{
    let table = links(before);
    let across = neighbor_octants(octs, dir);
    let top = pivot(octs, dir);
    lemma_pivot(octs, dir);
    let k = choose|k: int| 0 <= k < octs.len() && sibling_across(#[trigger] octs[k], dir);
    assert(top >= 0);
    lemma_resolved_rope(before, after, octs, dir);
    lemma_walk_steps(table, 0, across);
    let made = steps(table, 0, across);
    // The way across shares its steps above the pivot with the way of the node.
    assert(across.take(top) =~= octs.take(top));
    lemma_linked_prefix(table, 0, octs, top);
    lemma_steps_prefix(table, 0, across, top);
    // The end of the way is a node of the arena.
    let head = across.take(made);
    assert forall|j: int| 0 <= j < head.len() implies 0 <= #[trigger] head[j] < 8 by {
        assert(head[j] == across[j]);
        if j >= top {
            lemma_flip(octs[j], axis_of(dir));
        }
    }
    lemma_walk_behind(table, 0, head);
}

} // verus!
