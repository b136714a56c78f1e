use vstd::prelude::*;

verus! {

/// The axis along which direction `dir` points: 0 is X, 1 is Y, 2 is Z.
pub open spec fn axis_of(dir: int) -> int {
    dir / 2
}

/// The bit that an octant index carries for `axis`.
pub open spec fn axis_bit(axis: int) -> int {
    if axis == 0 {
        1
    } else if axis == 1 {
        2
    } else {
        4
    }
}

/// Odd directions point towards the positive end of their axis.
pub open spec fn faces_positive(dir: int) -> bool {
    dir % 2 == 1
}

/// The direction along the same axis with the other sign.
pub open spec fn opposite(dir: int) -> int {
    if dir % 2 == 0 {
        dir + 1
    } else {
        dir - 1
    }
}

/// Whether `octant` lies on the positive side of its parent along the axis
/// of `bit`.
pub open spec fn has_bit(octant: int, bit: int) -> bool {
    (octant / bit) % 2 == 1
}

/// The octant on the other side of the parent along the axis of `bit`.
pub open spec fn flip(octant: int, bit: int) -> int {
    if has_bit(octant, bit) {
        octant - bit
    } else {
        octant + bit
    }
}

/// Whether a step in direction `dir` out of `octant` ends in a sibling
/// octant of the same parent.
pub open spec fn sibling_across(octant: int, dir: int) -> bool {
    has_bit(octant, axis_bit(axis_of(dir))) != faces_positive(dir)
}

/// The position in `octs` of the deepest octant from which a step in
/// direction `dir` stays inside the parent, or -1 where there is none: the
/// cell then lies against the boundary of the root cube.
pub open spec fn pivot(octs: Seq<int>, dir: int) -> int
    decreases octs.len(),
{
    if octs.len() == 0 {
        -1
    } else if sibling_across(octs.last(), dir) {
        octs.len() - 1
    } else {
        pivot(octs.drop_last(), dir)
    }
}

/// The octant path of the cell of equal size across the face `dir`: from
/// the pivot down, every octant changes side along the axis.
pub open spec fn neighbor_octants(octs: Seq<int>, dir: int) -> Seq<int> {
    Seq::new(
        octs.len(),
        |k: int|
            if k >= pivot(octs, dir) {
                flip(octs[k], axis_bit(axis_of(dir)))
            } else {
                octs[k]
            },
    )
}

/// An octant changes side along one axis and keeps its side along the
/// other two.
pub proof fn lemma_flip(octant: int, axis: int)
    requires
        0 <= octant < 8,
        0 <= axis < 3,
    ensures
        0 <= flip(octant, axis_bit(axis)) < 8,
        forall|other: int|
            0 <= other < 3 ==> #[trigger] has_bit(flip(octant, axis_bit(axis)), axis_bit(other))
                == (has_bit(octant, axis_bit(other)) != (other == axis)),
{
    assert forall|other: int| 0 <= other < 3 implies #[trigger] has_bit(
        flip(octant, axis_bit(axis)),
        axis_bit(other),
    ) == (has_bit(octant, axis_bit(other)) != (other == axis)) by {
        assert(other == 0 || other == 1 || other == 2);
        assert(axis == 0 || axis == 1 || axis == 2);
        assert(octant == 0 || octant == 1 || octant == 2 || octant == 3 || octant == 4 || octant
            == 5 || octant == 6 || octant == 7);
    }
}

/// The bit operations on octant indices, in terms of arithmetic.
pub proof fn lemma_octant_bits(octant: u32, bit: u32)
    by (bit_vector)
    requires
        octant < 8,
        bit == 1 || bit == 2 || bit == 4,
    ensures
        (octant & bit != 0) == ((octant / bit) % 2 == 1),
        octant ^ bit < 8,
        octant & bit != 0 ==> octant ^ bit == octant - bit,
        octant & bit == 0 ==> octant ^ bit == octant + bit,
{
}

/// The pivot is a position of the path, and a step from it stays inside the
/// parent while a step from no deeper position does.
pub proof fn lemma_pivot(octs: Seq<int>, dir: int)
    ensures
        -1 <= pivot(octs, dir) < octs.len(),
        pivot(octs, dir) >= 0 ==> sibling_across(octs[pivot(octs, dir)], dir),
        forall|j: int|
            pivot(octs, dir) < j < octs.len() ==> !sibling_across(#[trigger] octs[j], dir),
    decreases octs.len(),
{
    if octs.len() > 0 && !sibling_across(octs.last(), dir) {
        let up = octs.drop_last();
        lemma_pivot(up, dir);
        assert forall|j: int| pivot(octs, dir) < j < octs.len() implies !sibling_across(
            #[trigger] octs[j],
            dir,
        ) by {
            if j < up.len() {
                assert(up[j] == octs[j]);
            }
        }
    }
}

/// A position is the pivot if a step from it stays inside the parent and a
/// step from no deeper position does.
pub proof fn lemma_pivot_is(octs: Seq<int>, dir: int, k: int)
    requires
        0 <= k < octs.len(),
        sibling_across(octs[k], dir),
        forall|j: int| k < j < octs.len() ==> !sibling_across(#[trigger] octs[j], dir),
    ensures
        pivot(octs, dir) == k,
{
    lemma_pivot(octs, dir);
}

/// There is no pivot if a step from no position stays inside the parent.
pub proof fn lemma_pivot_none(octs: Seq<int>, dir: int)
    requires
        forall|j: int| 0 <= j < octs.len() ==> !sibling_across(#[trigger] octs[j], dir),
    ensures
        pivot(octs, dir) == -1,
{
    lemma_pivot(octs, dir);
}

} // verus!
