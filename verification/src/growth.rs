use vstd::prelude::*;
use crate::node::{Node, EMPTY, SOLID};

verus! {

/// How likely a leaf is to be solid: `numerator` in `denominator`.
#[derive(Clone, Copy, Debug, PartialEq, Eq)]
pub struct Chance {
    pub numerator: u32,
    pub denominator: u32,
}

impl Chance {
    /// A chance is a ratio between 0 and 1.
    pub open spec fn wf(self) -> bool {
        0 < self.denominator && self.numerator <= self.denominator
    }

    /// The chance 0: no leaf is solid.
    pub open spec fn never(self) -> bool {
        self.numerator == 0
    }

    /// The chance 1: every leaf is solid.
    pub open spec fn always(self) -> bool {
        self.numerator == self.denominator
    }
}

/// The two ways of growing a tree.
pub enum Growth {
    /// Only the four octants on the negative X side subdivide, and every
    /// leaf is solid.
    Wall,
    /// Every octant subdivides, and each leaf is solid with the given chance.
    Random(Chance),
}

impl Growth {
    /// Whether a node above the leaves has a child in octant `slot`.
    pub open spec fn subdivides(self, slot: int) -> bool {
        match self {
            Growth::Wall => slot % 2 == 0,
            Growth::Random(_) => true,
        }
    }

    /// The number of octants before `slot` that subdivide.
    pub open spec fn rank(self, slot: int) -> int {
        match self {
            Growth::Wall => (slot + 1) / 2,
            Growth::Random(_) => slot,
        }
    }

    /// The number of nodes of a tree with `depth` levels below its root.
    pub open spec fn size(self, depth: int) -> int
        decreases depth,
    {
        if depth <= 0 {
            1
        } else {
            1 + self.rank(8) * self.size(depth - 1)
        }
    }

    /// Where the subtree of octant `slot` begins, counted from the root of a
    /// tree with `depth` levels below it: behind the root and the subtrees
    /// of the octants before.
    pub open spec fn offset(self, depth: int, slot: int) -> int {
        1 + self.rank(slot) * self.size(depth - 1)
    }

    /// The material that a leaf may have.
    pub open spec fn leaf_material(self, material: i32) -> bool {
        match self {
            Growth::Wall => material == SOLID,
            Growth::Random(chance) => {
                &&& material == SOLID || material == EMPTY
                &&& chance.never() ==> material == EMPTY
                &&& chance.always() ==> material == SOLID
            },
        }
    }
}

/// Whether `nodes` is a tree of `depth` levels below its root as `plan`
/// grows it, laid out in pre-order from index `base` of its arena: the root,
/// then the subtree of each octant that subdivides, in the order of the
/// octants.
pub open spec fn grown(nodes: Seq<Node>, plan: Growth, depth: int, base: int) -> bool
    decreases depth,
{
    &&& nodes.len() == plan.size(depth)
    &&& nodes[0].level == 0
    &&& forall|dir: int| 0 <= dir < 6 ==> nodes[0].ropes@[dir] == 0
    &&& if depth <= 0 {
        &&& nodes[0].is_leaf()
        &&& plan.leaf_material(nodes[0].material_id)
    } else {
        &&& nodes[0].material_id == EMPTY
        &&& forall|slot: int|
            0 <= slot < 8 ==> #[trigger] nodes[0].sub_voxels@[slot] == if plan.subdivides(slot) {
                base + plan.offset(depth, slot)
            } else {
                0
            }
        &&& forall|slot: int|
            0 <= slot < 8 && plan.subdivides(slot) ==> grown(
                #[trigger] nodes.subrange(
                    plan.offset(depth, slot),
                    plan.offset(depth, slot + 1),
                ),
                plan,
                depth - 1,
                base + plan.offset(depth, slot),
            )
    }
}

/// The size of a tree is positive.
pub proof fn lemma_size_positive(plan: Growth, depth: int)
    ensures
        plan.size(depth) >= 1,
    decreases depth,
{
    if depth > 0 {
        lemma_size_positive(plan, depth - 1);
        assert(plan.rank(8) * plan.size(depth - 1) >= 0) by (nonlinear_arith)
            requires
                plan.rank(8) >= 0,
                plan.size(depth - 1) >= 1,
        ;
    }
}

/// A deeper tree has no fewer nodes.
pub proof fn lemma_size_grows(plan: Growth, low: int, high: int)
    requires
        low <= high,
    ensures
        plan.size(low) <= plan.size(high),
    decreases high - low,
{
    if low < high {
        lemma_size_grows(plan, low, high - 1);
        lemma_size_positive(plan, high - 1);
        if high > 0 {
            assert(plan.rank(8) * plan.size(high - 1) >= plan.size(high - 1)) by (nonlinear_arith)
                requires
                    plan.rank(8) >= 1,
                    plan.size(high - 1) >= 1,
            ;
        }
    }
}

/// A wall of at most 15 levels has indices that fit the 4-byte slots.
pub proof fn lemma_wall_fits(depth: int)
    requires
        depth <= 15,
    ensures
        Growth::Wall.size(depth) <= 1431655765,
{
    let plan = Growth::Wall;
    assert(plan.size(0) == 1);
    assert(plan.size(1) == 5);
    assert(plan.size(2) == 21);
    assert(plan.size(3) == 85);
    assert(plan.size(4) == 341);
    assert(plan.size(5) == 1365);
    assert(plan.size(6) == 5461);
    assert(plan.size(7) == 21845);
    assert(plan.size(8) == 87381);
    assert(plan.size(9) == 349525);
    assert(plan.size(10) == 1398101);
    assert(plan.size(11) == 5592405);
    assert(plan.size(12) == 22369621);
    assert(plan.size(13) == 89478485);
    assert(plan.size(14) == 357913941);
    assert(plan.size(15) == 1431655765);
    lemma_size_grows(Growth::Wall, depth, 15);
}

/// A random tree of at most 10 levels has indices that fit the 4-byte
/// slots.
pub proof fn lemma_random_fits(chance: Chance, depth: int)
    requires
        depth <= 10,
    ensures
        Growth::Random(chance).size(depth) <= 1227133513,
{
    let plan = Growth::Random(chance);
    assert(plan.size(0) == 1);
    assert(plan.size(1) == 9);
    assert(plan.size(2) == 73);
    assert(plan.size(3) == 585);
    assert(plan.size(4) == 4681);
    assert(plan.size(5) == 37449);
    assert(plan.size(6) == 299593);
    assert(plan.size(7) == 2396745);
    assert(plan.size(8) == 19173961);
    assert(plan.size(9) == 153391689);
    assert(plan.size(10) == 1227133513);
    lemma_size_grows(Growth::Random(chance), depth, 10);
}

/// The subtrees of a node lie one behind the other, and the last one ends
/// where the tree ends.
pub proof fn lemma_offsets(plan: Growth, depth: int, slot: int)
    requires
        depth > 0,
        0 <= slot < 8,
    ensures
        1 <= plan.offset(depth, slot) <= plan.offset(depth, slot + 1) <= plan.size(depth),
        plan.offset(depth, 0) == 1,
        plan.offset(depth, 8) == plan.size(depth),
        plan.subdivides(slot) ==> plan.offset(depth, slot + 1) == plan.offset(depth, slot)
            + plan.size(depth - 1),
        !plan.subdivides(slot) ==> plan.offset(depth, slot + 1) == plan.offset(depth, slot),
{
    lemma_size_positive(plan, depth - 1);
    let unit = plan.size(depth - 1);
    let here = plan.rank(slot);
    let next = plan.rank(slot + 1);
    let all = plan.rank(8);
    assert(0 <= here <= next <= all);
    assert(plan.subdivides(slot) ==> next == here + 1);
    assert(!plan.subdivides(slot) ==> next == here);
    assert(0 <= here * unit <= next * unit <= all * unit) by (nonlinear_arith)
        requires
            0 <= here <= next <= all,
            unit >= 1,
    ;
    assert((here + 1) * unit == here * unit + unit) by (nonlinear_arith);
    assert(plan.rank(0) * unit == 0) by (nonlinear_arith)
        requires
            plan.rank(0) == 0,
    ;
}

/// The subtree of an earlier octant begins no later than that of a later
/// one.
pub proof fn lemma_offsets_ordered(plan: Growth, depth: int, low: int, high: int)
    requires
        depth > 0,
        0 <= low <= high <= 8,
    ensures
        plan.offset(depth, low) <= plan.offset(depth, high),
    decreases high - low,
{
    if low < high {
        lemma_offsets(plan, depth, high - 1);
        lemma_offsets_ordered(plan, depth, low, high - 1);
    }
}

/// What a generator has built below the root at `base` once the octants
/// before `upto` are done: the root with their links, and behind it their
/// subtrees.
pub open spec fn grown_upto(
    nodes: Seq<Node>,
    plan: Growth,
    depth: int,
    base: int,
    upto: int,
) -> bool {
    &&& 0 <= base
    &&& nodes.len() == base + plan.offset(depth, upto)
    &&& nodes[base].material_id == EMPTY
    &&& nodes[base].level == 0
    &&& forall|dir: int| 0 <= dir < 6 ==> nodes[base].ropes@[dir] == 0
    &&& forall|slot: int|
        0 <= slot < 8 ==> #[trigger] nodes[base].sub_voxels@[slot] == if slot < upto
            && plan.subdivides(slot) {
            base + plan.offset(depth, slot)
        } else {
            0
        }
    &&& forall|slot: int|
        0 <= slot < upto && plan.subdivides(slot) ==> grown(
            #[trigger] nodes.subrange(
                base + plan.offset(depth, slot),
                base + plan.offset(depth, slot + 1),
            ),
            plan,
            depth - 1,
            base + plan.offset(depth, slot),
        )
}

/// Writing the link of octant `slot` into the root and appending the subtree
/// of that octant completes the octant.
pub proof fn lemma_grown_step(
    plan: Growth,
    depth: int,
    base: int,
    slot: int,
    start: Seq<Node>,
    linked: Seq<Node>,
    end: Seq<Node>,
)
    requires
        depth > 0,
        0 <= slot < 8,
        plan.subdivides(slot),
        grown_upto(start, plan, depth, base, slot),
        linked.len() == start.len(),
        base < start.len(),
        forall|m: int| 0 <= m < start.len() && m != base ==> #[trigger] linked[m] == start[m],
        linked[base].material_id == EMPTY,
        linked[base].level == 0,
        linked[base].ropes == start[base].ropes,
        linked[base].sub_voxels@ == start[base].sub_voxels@.update(slot, start.len() as i32),
        start.len() <= i32::MAX,
        end.len() == linked.len() + plan.size(depth - 1),
        end.take(linked.len() as int) == linked,
        grown(end.skip(linked.len() as int), plan, depth - 1, linked.len() as int),
    ensures
        grown_upto(end, plan, depth, base, slot + 1),
{
    lemma_offsets(plan, depth, slot);
    lemma_size_positive(plan, depth - 1);
    let cut = linked.len() as int;
    assert(end[base] == linked[base]) by {
        assert(end.take(cut)[base] == end[base]);
    }
    assert forall|other: int| 0 <= other < slot + 1 && plan.subdivides(other) implies grown(
        #[trigger] end.subrange(
            base + plan.offset(depth, other),
            base + plan.offset(depth, other + 1),
        ),
        plan,
        depth - 1,
        base + plan.offset(depth, other),
    ) by {
        let from = base + plan.offset(depth, other);
        let to = base + plan.offset(depth, other + 1);
        if other < slot {
            lemma_offsets(plan, depth, other);
            lemma_offsets_ordered(plan, depth, other + 1, slot);
            assert(end.subrange(from, to) =~= start.subrange(from, to)) by {
                assert forall|m: int| from <= m < to implies end[m] == start[m] by {
                    assert(end.take(cut)[m] == end[m]);
                }
            }
        } else {
            assert(end.subrange(from, to) =~= end.skip(cut));
        }
    }
}

/// A root with all its octants done is a tree.
pub proof fn lemma_grown_done(plan: Growth, depth: int, base: int, nodes: Seq<Node>)
    requires
        depth > 0,
        grown_upto(nodes, plan, depth, base, 8),
    ensures
        grown(nodes.skip(base), plan, depth, base),
{
    let tree = nodes.skip(base);
    lemma_offsets(plan, depth, 0);
    assert forall|slot: int| 0 <= slot < 8 && plan.subdivides(slot) implies grown(
        #[trigger] tree.subrange(plan.offset(depth, slot), plan.offset(depth, slot + 1)),
        plan,
        depth - 1,
        base + plan.offset(depth, slot),
    ) by {
        lemma_offsets(plan, depth, slot);
        lemma_offsets_ordered(plan, depth, slot + 1, 8);
        assert(tree.subrange(plan.offset(depth, slot), plan.offset(depth, slot + 1))
            =~= nodes.subrange(
            base + plan.offset(depth, slot),
            base + plan.offset(depth, slot + 1),
        ));
    }
}

} // verus!
