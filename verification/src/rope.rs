use vstd::prelude::*;
use std::collections::VecDeque;
use crate::node::Node;
use crate::octree::Octree;
use crate::links::{links, child, links_in_range};
use crate::ways::{octants_valid, walk, lemma_walk_in_range};
use crate::direction::{axis_of, axis_bit, sibling_across, pivot, neighbor_octants, flip,
    lemma_flip, lemma_octant_bits, lemma_pivot_is, lemma_pivot_none};

verus! {

/// The rope of the cell at octant path `octs` in direction `dir`: -1 where
/// the cell lies against the boundary of the root cube, else the deepest
/// node that exists on the way from the root to the cell of equal size
/// across that face.
pub open spec fn rope_target(links: Seq<Seq<i32>>, octs: Seq<int>, dir: int) -> int {
    if pivot(octs, dir) < 0 {
        -1
    } else {
        walk(links, 0, neighbor_octants(octs, dir))
    }
}

/// A rope is -1 or a node of the arena.
pub proof fn lemma_rope_target_in_range(links: Seq<Seq<i32>>, octs: Seq<int>, dir: int)
    requires
        links_in_range(links),
        0 < links.len(),
        octants_valid(octs),
        0 <= dir < 6,
    ensures
        -1 <= rope_target(links, octs, dir) < links.len(),
{
    let across = neighbor_octants(octs, dir);
    assert forall|k: int| 0 <= k < across.len() implies 0 <= #[trigger] across[k] < 8 by {
        lemma_flip(octs[k], axis_of(dir));
    }
    lemma_walk_in_range(links, 0, across);
}

/// The octants of a path stack, without that of the frame of the root.
pub open spec fn octants(frames: Seq<(i32, i32)>) -> Seq<int> {
    Seq::new((frames.len() - 1) as nat, |k: int| frames[k + 1].1 as int)
}

/// Whether frame `k` holds one of the eight octants and the child that its
/// parent, the node of the frame before, has in that octant.
pub open spec fn frame_linked(links: Seq<Seq<i32>>, frames: Seq<(i32, i32)>, k: int) -> bool {
    &&& 0 <= frames[k].1 < 8
    &&& frames[k].0 != 0
    &&& frames[k].0 == child(links, frames[k - 1].0 as int, frames[k].1 as int)
}

/// Whether `frames` is the way from the root to one of its descendants:
/// a frame for the root, then for each step the child and the octant of
/// its parent in which it lies.
pub open spec fn frames_follow(links: Seq<Seq<i32>>, frames: Seq<(i32, i32)>) -> bool {
    &&& frames.len() >= 1
    &&& frames[0].0 == 0
    &&& forall|k: int| 0 <= k < frames.len() ==> 0 <= (#[trigger] frames[k]).0 < links.len()
    &&& forall|k: int| 1 <= k < frames.len() ==> #[trigger] frame_linked(links, frames, k)
}

/// The octants of the frames after frame `from`, each on the other side
/// along the axis of `bit`.
pub open spec fn mirrored(frames: Seq<(i32, i32)>, from: int, bit: int) -> Seq<int> {
    Seq::new((frames.len() - 1 - from) as nat, |m: int| flip(frames[from + 1 + m].1 as int, bit))
}

/// A way that shares its first `k` steps with the way of `frames` passes
/// through the node of frame `k`.
proof fn lemma_walk_shared(
    links: Seq<Seq<i32>>,
    frames: Seq<(i32, i32)>,
    octs: Seq<int>,
    k: int,
)
    requires
        frames_follow(links, frames),
        octs.len() == frames.len() - 1,
        0 <= k <= octs.len(),
        forall|j: int| 0 <= j < k ==> #[trigger] octs[j] == frames[j + 1].1,
    ensures
        walk(links, 0, octs) == walk(links, frames[k].0 as int, octs.skip(k)),
    decreases k,
{
    if k == 0 {
        assert(octs.skip(0) =~= octs);
    } else {
        lemma_walk_shared(links, frames, octs, k - 1);
        let rest = octs.skip(k - 1);
        assert(rest[0] == octs[k - 1]);
        assert(frame_linked(links, frames, k));
        assert(rest.drop_first() =~= octs.skip(k));
    }
}

impl Octree {
    /// Follows the mirrored octants of the frames after `from` down from the
    /// node of frame `from`, as far as the links exist.
    fn descend(path: &VecDeque<(i32, i32)>, data: &[Node], from: usize, bit: u32) -> (end: i32)
        requires
            links_in_range(links(data@)),
            frames_follow(links(data@), path@),
            from < path@.len(),
            bit == 1 || bit == 2 || bit == 4,
        ensures
            end == walk(
                links(data@),
                path@[from as int].0 as int,
                mirrored(path@, from as int, bit as int),
            ),
            0 <= end < data@.len(),
    {
        let ghost table = links(data@);
        let ghost way = mirrored(path@, from as int, bit as int);
        let total = path.len();
        let mut current = path[from].0;
        let mut j: usize = from;
        assert(way.skip(0) =~= way);
        while j < total - 1
            invariant
                from <= j <= total - 1,
                total == path@.len(),
                table == links(data@),
                way == mirrored(path@, from as int, bit as int),
                bit == 1 || bit == 2 || bit == 4,
                links_in_range(table),
                frames_follow(table, path@),
                0 <= current < data@.len(),
                walk(table, path@[from as int].0 as int, way) == walk(
                    table,
                    current as int,
                    way.skip(j - from),
                ),
            decreases total - 1 - j,
        {
            assert(frame_linked(table, path@, j + 1));
            let below = path[j + 1].1 as u32;
            let ghost rest = way.skip(j - from);
            proof {
                lemma_octant_bits(below, bit);
                assert(rest[0] == flip(below as int, bit as int));
                assert(rest.drop_first() =~= way.skip(j + 1 - from));
                assert(table[current as int] == data@[current as int].sub_voxels@);
            }
            let next = data[current as usize].sub_voxels[(below ^ bit) as usize];
            assert(next == child(table, current as int, rest[0]));
            if next == 0 {
                return current;
            }
            current = next;
            j += 1;
        }
        current
    }

    /// Resolves the rope of the node at the top of `path` in direction `dir`.
    ///
    /// Walks up the path to the deepest frame from whose octant a step in
    /// direction `dir` stays inside the parent, and from that parent down again
    /// through the mirrored octants. Where a mirrored octant is absent the
    /// descent ends, and the rope is the node reached so far.
    pub fn generate_rope(path: &VecDeque<(i32, i32)>, data: &[Node], dir: i32) -> (rope: i32)
        requires
            0 <= dir < 6,
            links_in_range(links(data@)),
            frames_follow(links(data@), path@),
        ensures
            rope == rope_target(links(data@), octants(path@), dir as int),
            -1 <= rope < data@.len(),
    {
        let ghost table = links(data@);
        let ghost octs = octants(path@);
        let total = path.len();
        let bit: u32 = if dir < 2 {
            1
        } else if dir < 4 {
            2
        } else {
            4
        };
        let positive = dir % 2 == 1;
        let mut i: usize = 1;
        while i < total
            invariant
                1 <= i <= total,
                total == path@.len(),
                octs == octants(path@),
                table == links(data@),
                0 <= dir < 6,
                bit == axis_bit(axis_of(dir as int)),
                positive == (dir % 2 == 1),
                links_in_range(table),
                frames_follow(table, path@),
                forall|j: int|
                    total - i <= j < octs.len() ==> !sibling_across(#[trigger] octs[j], dir as int),
            decreases total - i,
        {
            assert(frame_linked(table, path@, total - i));
            let octant = path[total - i].1 as u32;
            proof {
                lemma_octant_bits(octant, bit);
                assert(octs[total - i - 1] == octant);
            }
            if (octant & bit != 0) != positive {
                let end = Self::descend(path, data, total - i - 1, bit);
                proof {
                    let k = total - i - 1;
                    let across = neighbor_octants(octs, dir as int);
                    lemma_pivot_is(octs, dir as int, k);
                    lemma_walk_shared(table, path@, across, k);
                    assert(across.skip(k) =~= mirrored(path@, k, bit as int));
                }
                return end;
            }
            i += 1;
        }
        proof {
            lemma_pivot_none(octs, dir as int);
        }
        -1
    }
}

} // verus!
