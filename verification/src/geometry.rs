use vstd::prelude::*;
use crate::ways::octants_valid;
use crate::direction::{axis_of, axis_bit, faces_positive, opposite, has_bit, flip, sibling_across,
    pivot, neighbor_octants, lemma_pivot, lemma_flip};

verus! {

/// The position along `axis` of the cell at octant path `octs`, counted in
/// cells of its own size from the negative face of the root cube: each
/// level doubles the count and adds the side on which the octant lies.
pub open spec fn coord(octs: Seq<int>, axis: int) -> int
    decreases octs.len(),
{
    if octs.len() == 0 {
        0
    } else {
        2 * coord(octs.drop_last(), axis) + if has_bit(octs.last(), axis_bit(axis)) {
            1int
        } else {
            0int
        }
    }
}

/// How far one step in direction `dir` moves a cell along `axis`.
pub open spec fn step_along(dir: int, axis: int) -> int {
    if axis != axis_of(dir) {
        0
    } else if faces_positive(dir) {
        1
    } else {
        -1
    }
}

/// Whether the cell at `b` is the cell of the same size that touches the
/// cell at `a` across its face in direction `dir`.
pub open spec fn face_neighbors(a: Seq<int>, b: Seq<int>, dir: int) -> bool {
    &&& a.len() == b.len()
    &&& forall|axis: int|
        0 <= axis < 3 ==> #[trigger] coord(b, axis) == coord(a, axis) + step_along(dir, axis)
}

/// An octant is known by its sides along the three axes.
pub proof fn lemma_octant_by_sides(x: int, y: int)
    requires
        0 <= x < 8,
        0 <= y < 8,
        forall|axis: int|
            0 <= axis < 3 ==> #[trigger] has_bit(x, axis_bit(axis)) == has_bit(y, axis_bit(axis)),
    ensures
        x == y,
{
    assert(has_bit(x, axis_bit(0)) == has_bit(y, axis_bit(0)));
    assert(has_bit(x, axis_bit(1)) == has_bit(y, axis_bit(1)));
    assert(has_bit(x, axis_bit(2)) == has_bit(y, axis_bit(2)));
}

/// A cell is known by its size and its position along the three axes.
pub proof fn lemma_cell_by_coords(a: Seq<int>, b: Seq<int>)
    requires
        a.len() == b.len(),
        octants_valid(a),
        octants_valid(b),
        forall|axis: int| 0 <= axis < 3 ==> #[trigger] coord(a, axis) == coord(b, axis),
    ensures
        a == b,
    decreases a.len(),
{
    if a.len() == 0 {
        assert(a =~= b);
    } else {
        let ua = a.drop_last();
        let ub = b.drop_last();
        assert forall|axis: int| 0 <= axis < 3 implies {
            &&& #[trigger] coord(ua, axis) == coord(ub, axis)
            &&& has_bit(a.last(), axis_bit(axis)) == has_bit(b.last(), axis_bit(axis))
        } by {
            assert(coord(a, axis) == coord(b, axis));
        }
        assert forall|axis: int| 0 <= axis < 3 implies #[trigger] has_bit(a.last(), axis_bit(axis))
            == has_bit(b.last(), axis_bit(axis)) by {
            assert(coord(ua, axis) == coord(ub, axis));
        }
        lemma_octant_by_sides(a.last(), b.last());
        lemma_cell_by_coords(ua, ub);
        assert(a =~= ua.push(a.last()));
        assert(b =~= ub.push(b.last()));
    }
}

/// The octant path that the resolution of ropes follows is that of the
/// cell across the face: if there is a cell of the same size across the
/// face in direction `dir`, then the path has a pivot, and mirroring it from
/// the pivot down gives the path of that cell.
pub proof fn lemma_neighbor_octants(a: Seq<int>, b: Seq<int>, dir: int)
    requires
        0 <= dir < 6,
        octants_valid(a),
        octants_valid(b),
        face_neighbors(a, b, dir),
    ensures
        pivot(a, dir) >= 0,
        neighbor_octants(a, dir) == b,
    decreases a.len(),
{
    let axis = axis_of(dir);
    let bit = axis_bit(axis);
    if a.len() == 0 {
        assert(coord(b, axis) == coord(a, axis) + step_along(dir, axis));
    } else {
        let ua = a.drop_last();
        let ub = b.drop_last();
        let x = a.last();
        let y = b.last();
        lemma_flip(x, axis);
        assert forall|other: int| 0 <= other < 3 implies {
            &&& #[trigger] has_bit(y, axis_bit(other)) == has_bit(flip(x, bit), axis_bit(other))
            &&& coord(ub, other) == coord(ua, other) + if sibling_across(x, dir) {
                0
            } else {
                step_along(dir, other)
            }
        } by {
            assert(coord(b, other) == coord(a, other) + step_along(dir, other));
        }
        lemma_octant_by_sides(y, flip(x, bit));
        if sibling_across(x, dir) {
            assert forall|other: int| 0 <= other < 3 implies #[trigger] coord(ua, other) == coord(
                ub,
                other,
            ) by {
                assert(has_bit(y, axis_bit(other)) == has_bit(flip(x, bit), axis_bit(other)));
            }
            lemma_cell_by_coords(ua, ub);
            assert(pivot(a, dir) == a.len() - 1);
            assert forall|k: int| 0 <= k < a.len() implies neighbor_octants(a, dir)[k] == b[k] by {
                if k < a.len() - 1 {
                    assert(ua[k] == a[k]);
                    assert(ub[k] == b[k]);
                }
            }
            assert(neighbor_octants(a, dir) =~= b);
        } else {
            assert forall|other: int| 0 <= other < 3 implies #[trigger] coord(ub, other) == coord(
                ua,
                other,
            ) + step_along(dir, other) by {
                assert(has_bit(y, axis_bit(other)) == has_bit(flip(x, bit), axis_bit(other)));
            }
            lemma_neighbor_octants(ua, ub, dir);
            lemma_pivot(ua, dir);
            assert(pivot(a, dir) == pivot(ua, dir));
            assert forall|k: int| 0 <= k < a.len() implies neighbor_octants(a, dir)[k] == b[k] by {
                if k < a.len() - 1 {
                    assert(neighbor_octants(ua, dir)[k] == ub[k]);
                    assert(ua[k] == a[k]);
                    assert(ub[k] == b[k]);
                }
            }
            assert(neighbor_octants(a, dir) =~= b);
        }
    }
}

/// The cell across a face has this cell across the opposite face.
pub proof fn lemma_face_neighbors_back(a: Seq<int>, b: Seq<int>, dir: int)
    requires
        0 <= dir < 6,
        face_neighbors(a, b, dir),
    ensures
        0 <= opposite(dir) < 6,
        face_neighbors(b, a, opposite(dir)),
{
    assert forall|axis: int| 0 <= axis < 3 implies #[trigger] coord(a, axis) == coord(b, axis)
        + step_along(opposite(dir), axis) by {
        assert(coord(b, axis) == coord(a, axis) + step_along(dir, axis));
    }
}

} // verus!
