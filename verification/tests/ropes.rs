use std::collections::VecDeque;
use voxel_octree::node::{EMPTY, SOLID};
use voxel_octree::{Chance, Node, Octree};

fn node(material_id: i32, sub_voxels: [i32; 8]) -> Node {
    Node { material_id, level: 0, sub_voxels, ropes: [0; 6] }
}

/// The root with a child in every octant, each of which has one leaf of its
/// own in the octant in which it lies itself.
fn corners() -> Vec<Node> {
    let mut data = vec![node(EMPTY, [1, 2, 3, 4, 5, 6, 7, 8])];
    for octant in 0..8 {
        let mut links = [0; 8];
        links[octant] = 9 + octant as i32;
        data.push(node(EMPTY, links));
    }
    for _ in 0..8 {
        data.push(node(SOLID, [0; 8]));
    }
    data
}

/// The root with a child in every octant, all of which share one leaf.
fn converging() -> Vec<Node> {
    let mut data = vec![node(EMPTY, [1, 2, 3, 4, 5, 6, 7, 8])];
    for octant in 0..8 {
        let mut links = [0; 8];
        links[octant] = 9;
        data.push(node(EMPTY, links));
    }
    data.push(node(SOLID, [0; 8]));
    data
}

/// Every way from the root, with the node at its end, in pre-order.
fn ways(data: &[Node]) -> Vec<(usize, Vec<usize>)> {
    fn visit(data: &[Node], at: usize, way: &mut Vec<usize>, out: &mut Vec<(usize, Vec<usize>)>) {
        out.push((at, way.clone()));
        for octant in 0..8 {
            let link = data[at].sub_voxels[octant];
            if link != 0 {
                way.push(octant);
                visit(data, link as usize, way, out);
                way.pop();
            }
        }
    }
    let mut out = Vec::new();
    visit(data, 0, &mut Vec::new(), &mut out);
    out
}

/// The position of a cell along the three axes, in cells of its own size.
fn coords(way: &[usize]) -> [i64; 3] {
    let mut at = [0i64; 3];
    for &octant in way {
        for axis in 0..3 {
            at[axis] = 2 * at[axis] + ((octant >> axis) & 1) as i64;
        }
    }
    at
}

/// The rope by geometry: the deepest node on the way to the cell whose
/// position is one further in direction `dir`.
fn rope_by_position(data: &[Node], way: &[usize], dir: usize) -> i32 {
    let levels = way.len();
    let mut at = coords(way);
    at[dir / 2] += if dir % 2 == 1 { 1 } else { -1 };
    if at[dir / 2] < 0 || at[dir / 2] >= 1i64 << levels {
        return -1;
    }
    let mut current = 0;
    for level in 0..levels {
        let shift = levels - 1 - level;
        let mut octant = 0;
        for axis in 0..3 {
            octant |= (((at[axis] >> shift) & 1) as usize) << axis;
        }
        let link = data[current as usize].sub_voxels[octant];
        if link == 0 {
            break;
        }
        current = link;
    }
    current
}

/// A tree in pre-order in which a step of a small generator decides for
/// each octant whether it subdivides.
fn sparse(depth: u32, state: &mut u64, data: &mut Vec<Node>) {
    let at = data.len();
    data.push(node(if depth == 0 { SOLID } else { EMPTY }, [0; 8]));
    if depth == 0 {
        return;
    }
    for octant in 0..8 {
        *state = state.wrapping_mul(6364136223846793005).wrapping_add(1442695040888963407);
        if (*state >> 33) % 3 != 0 {
            data[at].sub_voxels[octant] = data.len() as i32;
            sparse(depth - 1, state, data);
        }
    }
}

fn assert_ropes_by_position(before: &[Node]) {
    let mut data = before.to_vec();
    Octree::generate_ropes(&mut data);
    assert_eq!(data.len(), before.len());
    let all = ways(before);
    assert_eq!(all.len(), before.len());
    for (at, way) in &all {
        for dir in 0..6 {
            assert_eq!(
                data[*at].ropes[dir],
                rope_by_position(before, way, dir),
                "node {} direction {}",
                at,
                dir
            );
        }
        assert_eq!(data[*at].material_id, before[*at].material_id);
        assert_eq!(data[*at].level, before[*at].level);
        assert_eq!(data[*at].sub_voxels, before[*at].sub_voxels);
    }
}

#[test]
fn converging_chains_have_matching_ropes() {
    let mut data = converging();
    Octree::generate_ropes(&mut data);
    assert_eq!(data.len(), 10);
    assert_eq!(data[0].ropes, [-1; 6]);
    assert_eq!(data[1].ropes[1], 2);
    assert_eq!(data[2].ropes[0], 1);
    assert_eq!(data[1].ropes, [-1, 2, -1, 3, -1, 5]);
    assert_eq!(data[2].ropes, [1, -1, -1, 4, -1, 6]);
    assert_eq!(data[8].ropes, [7, -1, 6, -1, 4, -1]);
    for octant in 0..8usize {
        for dir in 0..6usize {
            let bit = 1 << (dir / 2);
            let inside = (octant & bit != 0) != (dir % 2 == 1);
            let expected = if inside { (octant ^ bit) as i32 + 1 } else { -1 };
            assert_eq!(data[octant + 1].ropes[dir], expected);
            if inside {
                assert_eq!(data[expected as usize].ropes[dir ^ 1], octant as i32 + 1);
            }
        }
    }
}

#[test]
fn shared_leaf_has_the_ropes_of_its_last_way() {
    let mut data = converging();
    Octree::generate_ropes(&mut data);
    assert_eq!(data[9].ropes, [8, -1, 8, -1, 8, -1]);
}

#[test]
fn corner_leaves_have_ropes_to_their_coarser_neighbours() {
    let mut data = corners();
    let before = data.clone();
    Octree::generate_ropes(&mut data);
    assert_eq!(data.len(), 17);
    assert_eq!(data[0].ropes, [-1; 6]);
    assert_eq!(data[1].ropes, [-1, 2, -1, 3, -1, 5]);
    assert_eq!(data[4].ropes, [3, -1, 2, -1, -1, 8]);
    assert_eq!(data[8].ropes, [7, -1, 6, -1, 4, -1]);
    assert_eq!(data[9].ropes, [-1, 1, -1, 1, -1, 1]);
    assert_eq!(data[10].ropes, [2, -1, -1, 2, -1, 2]);
    assert_eq!(data[16].ropes, [8, -1, 8, -1, 8, -1]);
    for n in 0..17 {
        assert_eq!(data[n].material_id, before[n].material_id);
        assert_eq!(data[n].level, before[n].level);
        assert_eq!(data[n].sub_voxels, before[n].sub_voxels);
        for dir in 0..6 {
            assert!(data[n].ropes[dir] >= -1 && data[n].ropes[dir] < 17);
        }
    }
}

#[test]
fn single_node_has_no_rope() {
    let mut data = vec![node(SOLID, [0; 8])];
    Octree::generate_ropes(&mut data);
    assert_eq!(data[0].ropes, [-1; 6]);
}

#[test]
fn node_that_is_not_below_the_root_keeps_its_ropes() {
    let mut data = vec![
        node(EMPTY, [0, 0, 0, 2, 0, 0, 0, 0]),
        node(EMPTY, [0; 8]),
        node(SOLID, [0; 8]),
    ];
    data[1].ropes = [5, 4, 3, 2, 1, 0];
    data[1].level = 9;
    Octree::generate_ropes(&mut data);
    assert_eq!(data[1].ropes, [5, 4, 3, 2, 1, 0]);
    assert_eq!(data[1].level, 9);
    assert_eq!(data[0].ropes, [-1; 6]);
    assert_eq!(data[2].ropes, [0, -1, 0, -1, -1, 0]);
}

#[test]
fn rope_of_one_path_in_each_direction() {
    // root -> octant 5 (node 1) -> octant 2 (node 2). The neighbours of node 2
    // towards +X, -Y and +Z lie below node 1, the others below other octants
    // of the root, of which only octant 4 exists.
    let mut data = vec![
        node(EMPTY, [0, 0, 0, 0, 3, 1, 0, 0]),
        node(EMPTY, [5, 0, 2, 6, 0, 0, 0, 0]),
        node(SOLID, [0; 8]),
        node(EMPTY, [0, 0, 0, 4, 0, 0, 0, 0]),
        node(SOLID, [0; 8]),
        node(SOLID, [0; 8]),
        node(SOLID, [0; 8]),
    ];
    let path = VecDeque::from([(0, 0), (1, 5), (2, 2)]);
    assert_eq!(Octree::generate_rope(&path, &data, 0), 4);
    assert_eq!(Octree::generate_rope(&path, &data, 1), 6);
    assert_eq!(Octree::generate_rope(&path, &data, 2), 5);
    assert_eq!(Octree::generate_rope(&path, &data, 3), 0);
    assert_eq!(Octree::generate_rope(&path, &data, 4), 0);
    assert_eq!(Octree::generate_rope(&path, &data, 5), 1);
    let root = VecDeque::from([(0, 0)]);
    for dir in 0..6 {
        assert_eq!(Octree::generate_rope(&root, &data, dir), -1);
    }
    Octree::generate_ropes(&mut data);
    assert_eq!(data[2].ropes, [4, 6, 5, 0, 0, 1]);
}

#[test]
fn ropes_of_a_full_tree_are_its_geometric_neighbours() {
    let half = Chance { numerator: 1, denominator: 2 };
    assert_ropes_by_position(&Octree::new_random(2, 0, half).data);
    assert_ropes_by_position(&Octree::new_random(3, 0, half).data);
}

#[test]
fn ropes_of_a_wall_are_its_geometric_neighbours() {
    assert_ropes_by_position(&Octree::new_wall(1, 0).data);
    assert_ropes_by_position(&Octree::new_wall(3, 0).data);
}

#[test]
fn ropes_of_sparse_trees_are_their_geometric_neighbours() {
    for seed in 0..20u64 {
        let mut state = seed;
        let mut data = Vec::new();
        sparse(4, &mut state, &mut data);
        assert!(Octree::has_forward_links(&data));
        assert_ropes_by_position(&data);
    }
}

#[test]
fn ropes_of_neighbours_of_one_size_point_at_each_other() {
    let mut tree = Octree::new_random(3, 0, Chance { numerator: 1, denominator: 3 });
    let all = ways(&tree.data);
    Octree::generate_ropes(&mut tree.data);
    let mut pairs = 0;
    for (a, way_a) in &all {
        for (b, way_b) in &all {
            if way_a.len() != way_b.len() {
                continue;
            }
            let (at_a, at_b) = (coords(way_a), coords(way_b));
            for dir in 0..6usize {
                let mut moved = at_a;
                moved[dir / 2] += if dir % 2 == 1 { 1 } else { -1 };
                if moved == at_b {
                    assert_eq!(tree.data[*a].ropes[dir], *b as i32);
                    assert_eq!(tree.data[*b].ropes[dir ^ 1], *a as i32);
                    pairs += 1;
                }
            }
        }
    }
    // In each of the 6 directions, all cells of a level but one layer have a
    // neighbour: 1 * 4 cells at level 1, 3 * 16 at level 2, 7 * 64 at level 3.
    assert_eq!(pairs, 6 * (4 + 48 + 448));
}

#[test]
fn nodes_against_the_boundary_have_no_rope() {
    let mut tree = Octree::new_wall(3, 0);
    let all = ways(&tree.data);
    Octree::generate_ropes(&mut tree.data);
    let mut seen = 0;
    for (at, way) in &all {
        for dir in 0..6usize {
            let bit = 1 << (dir / 2);
            if way.iter().all(|octant| (octant & bit != 0) == (dir % 2 == 1)) {
                assert_eq!(tree.data[*at].ropes[dir], -1);
                seen += 1;
            } else {
                assert!(tree.data[*at].ropes[dir] >= 0);
                assert!((tree.data[*at].ropes[dir] as usize) < tree.data.len());
            }
        }
    }
    assert!(seen > 6);
}

#[test]
fn wall_has_ropes_to_the_coarser_node_on_its_open_side() {
    let mut tree = Octree::new_wall(2, 0);
    Octree::generate_ropes(&mut tree.data);
    // Node 1 is octant 0 of the root; octant 1 beside it is absent.
    assert_eq!(tree.data[1].ropes, [-1, 0, -1, 6, -1, 11]);
    // Node 2 is octant 0 of node 1; octant 1 of node 1 is absent.
    assert_eq!(tree.data[2].ropes, [-1, 1, -1, 3, -1, 4]);
    // Node 3 is octant 2 of node 1; across +Y lies octant 0 of node 6.
    assert_eq!(tree.data[3].ropes, [-1, 1, 2, 7, -1, 5]);
}
