use voxel_octree::node::{EMPTY, SOLID};
use voxel_octree::random::rolled_material;
use voxel_octree::{Chance, Node, Octree};

const NEVER: Chance = Chance { numerator: 0, denominator: 1 };
const ALWAYS: Chance = Chance { numerator: 1, denominator: 1 };
const HALF: Chance = Chance { numerator: 1, denominator: 2 };

fn is_leaf(node: &Node) -> bool {
    node.sub_voxels.iter().all(|&link| link == 0)
}

fn assert_built_in_preorder(data: &[Node]) {
    assert!(!data.is_empty());
    let mut parents = vec![0usize; data.len()];
    for (n, node) in data.iter().enumerate() {
        for &link in node.sub_voxels.iter() {
            if link != 0 {
                assert!(link as usize > n, "child {} of node {} lies before it", link, n);
                assert!((link as usize) < data.len());
                parents[link as usize] += 1;
            }
        }
        if node.material_id == SOLID {
            assert!(is_leaf(node), "solid node {} has a child", n);
        }
        assert_eq!(node.level, 0);
        assert_eq!(node.ropes, [0; 6]);
    }
    assert_eq!(parents[0], 0, "the root is the child of a node");
    for n in 1..data.len() {
        assert_eq!(parents[n], 1, "node {} has {} parents", n, parents[n]);
    }
}

#[test]
fn default_node_is_blank_and_empty() {
    let node = Node::default();
    assert_eq!(node.material_id, EMPTY);
    assert_eq!(node.level, 0);
    assert_eq!(node.sub_voxels, [0; 8]);
    assert_eq!(node.ropes, [0; 6]);
    assert_eq!(Node::with_material(SOLID).material_id, SOLID);
    assert_eq!(EMPTY, 0);
    assert_eq!(SOLID, 1);
}

#[test]
fn rolled_material_follows_the_roll() {
    assert_eq!(rolled_material(true), SOLID);
    assert_eq!(rolled_material(false), EMPTY);
}

#[test]
fn wall_of_depth_zero_is_one_solid_leaf() {
    let tree = Octree::new_wall(0, 8.0f32.to_bits());
    assert_eq!(tree.depth, 0);
    assert_eq!(f32::from_bits(tree.size), 8.0);
    assert_eq!(tree.data.len(), 1);
    assert_eq!(tree.data[0], Node::with_material(SOLID));
}

#[test]
fn wall_of_negative_depth_counts_as_depth_zero() {
    let tree = Octree::new_wall(-3, 1.0f32.to_bits());
    assert_eq!(tree.depth, -3);
    assert_eq!(tree.data, vec![Node::with_material(SOLID)]);
}

#[test]
fn wall_of_depth_one_has_four_solid_children() {
    let tree = Octree::new_wall(1, 8.0f32.to_bits());
    assert_eq!(tree.data.len(), 5);
    assert_eq!(tree.data[0].material_id, EMPTY);
    assert_eq!(tree.data[0].sub_voxels, [1, 0, 2, 0, 3, 0, 4, 0]);
    for n in 1..5 {
        assert_eq!(tree.data[n], Node::with_material(SOLID));
    }
}

#[test]
fn wall_of_depth_two_is_laid_out_in_preorder() {
    let tree = Octree::new_wall(2, 8.0f32.to_bits());
    assert_eq!(tree.data.len(), 21);
    assert_eq!(tree.data[0].sub_voxels, [1, 0, 6, 0, 11, 0, 16, 0]);
    assert_eq!(tree.data[1].sub_voxels, [2, 0, 3, 0, 4, 0, 5, 0]);
    assert_eq!(tree.data[6].sub_voxels, [7, 0, 8, 0, 9, 0, 10, 0]);
    assert_eq!(tree.data[11].sub_voxels, [12, 0, 13, 0, 14, 0, 15, 0]);
    assert_eq!(tree.data[16].sub_voxels, [17, 0, 18, 0, 19, 0, 20, 0]);
    for n in [2, 3, 4, 5, 7, 10, 12, 15, 17, 20] {
        assert_eq!(tree.data[n], Node::with_material(SOLID));
    }
    assert_built_in_preorder(&tree.data);
}

#[test]
fn wall_sizes_follow_the_formula() {
    let expected = [1usize, 5, 21, 85, 341, 1365];
    for (depth, &size) in expected.iter().enumerate() {
        assert_eq!(Octree::new_wall(depth as i32, 0).data.len(), size);
    }
}

#[test]
fn wall_never_links_an_odd_octant() {
    let tree = Octree::new_wall(4, 8.0f32.to_bits());
    assert_built_in_preorder(&tree.data);
    for node in &tree.data {
        for slot in [1, 3, 5, 7] {
            assert_eq!(node.sub_voxels[slot], 0);
        }
        assert_eq!(node.material_id == SOLID, is_leaf(node));
    }
}

#[test]
fn wall_internal_appends_behind_what_is_there() {
    let mut data = vec![Node::with_material(EMPTY); 3];
    data[1].level = 7;
    Octree::new_wall_internal(1, &mut data);
    assert_eq!(data.len(), 8);
    assert_eq!(data[0], Node::with_material(EMPTY));
    assert_eq!(data[1].level, 7);
    assert_eq!(data[3].sub_voxels, [4, 0, 5, 0, 6, 0, 7, 0]);
    assert_eq!(data[3].material_id, EMPTY);
    for n in 4..8 {
        assert_eq!(data[n], Node::with_material(SOLID));
    }
}

#[test]
fn random_with_chance_zero_is_all_empty() {
    for depth in 0..4 {
        let tree = Octree::new_random(depth, 8.0f32.to_bits(), NEVER);
        for node in &tree.data {
            assert_eq!(node.material_id, EMPTY);
        }
        assert_built_in_preorder(&tree.data);
    }
}

#[test]
fn random_with_chance_one_has_every_leaf_solid() {
    for depth in 0..4 {
        let tree = Octree::new_random(depth, 8.0f32.to_bits(), ALWAYS);
        for node in &tree.data {
            assert_eq!(node.material_id == SOLID, is_leaf(node));
        }
        assert_built_in_preorder(&tree.data);
    }
    let leaf = Octree::new_random(0, 0, ALWAYS);
    assert_eq!(leaf.data, vec![Node::with_material(SOLID)]);
}

#[test]
fn random_of_depth_one_links_all_eight_octants() {
    let tree = Octree::new_random(1, 8.0f32.to_bits(), HALF);
    assert_eq!(tree.depth, 1);
    assert_eq!(f32::from_bits(tree.size), 8.0);
    assert_eq!(tree.data.len(), 9);
    assert_eq!(tree.data[0].material_id, EMPTY);
    assert_eq!(tree.data[0].sub_voxels, [1, 2, 3, 4, 5, 6, 7, 8]);
    for n in 1..9 {
        assert!(is_leaf(&tree.data[n]));
        assert!(tree.data[n].material_id == SOLID || tree.data[n].material_id == EMPTY);
    }
}

#[test]
fn random_of_depth_two_is_laid_out_in_preorder() {
    let tree = Octree::new_random(2, 8.0f32.to_bits(), HALF);
    assert_eq!(tree.data.len(), 73);
    assert_eq!(tree.data[0].sub_voxels, [1, 10, 19, 28, 37, 46, 55, 64]);
    assert_eq!(tree.data[10].sub_voxels, [11, 12, 13, 14, 15, 16, 17, 18]);
    assert_eq!(tree.data[64].sub_voxels, [65, 66, 67, 68, 69, 70, 71, 72]);
    assert_built_in_preorder(&tree.data);
}

#[test]
fn random_sizes_follow_the_formula() {
    let expected = [1usize, 9, 73, 585, 4681];
    for (depth, &size) in expected.iter().enumerate() {
        assert_eq!(Octree::new_random(depth as i32, 0, HALF).data.len(), size);
    }
}

#[test]
fn random_of_negative_depth_counts_as_depth_zero() {
    let tree = Octree::new_random(-1, 0, NEVER);
    assert_eq!(tree.data, vec![Node::with_material(EMPTY)]);
}

#[test]
fn random_rolls_both_materials_at_an_even_chance() {
    let tree = Octree::new_random(3, 0, HALF);
    let leaves: Vec<&Node> = tree.data.iter().filter(|node| is_leaf(node)).collect();
    assert_eq!(leaves.len(), 512);
    assert!(leaves.iter().any(|node| node.material_id == SOLID));
    assert!(leaves.iter().any(|node| node.material_id == EMPTY));
    for node in &tree.data {
        if !is_leaf(node) {
            assert_eq!(node.material_id, EMPTY);
        }
    }
}

#[test]
fn generated_trees_have_forward_links() {
    assert!(Octree::has_forward_links(&Octree::new_wall(3, 0).data));
    assert!(Octree::has_forward_links(&Octree::new_random(2, 0, HALF).data));
}

#[test]
fn forward_links_are_told_from_others() {
    assert!(!Octree::has_forward_links(&Vec::new()));
    let mut data = vec![Node::with_material(EMPTY); 3];
    assert!(Octree::has_forward_links(&data));
    data[0].sub_voxels[5] = 2;
    data[1].sub_voxels[0] = 2;
    assert!(Octree::has_forward_links(&data));
    data[2].sub_voxels[0] = 2;
    assert!(!Octree::has_forward_links(&data));
    data[2].sub_voxels[0] = 1;
    assert!(!Octree::has_forward_links(&data));
    data[2].sub_voxels[0] = 0;
    data[1].sub_voxels[7] = 3;
    assert!(!Octree::has_forward_links(&data));
    data[1].sub_voxels[7] = -1;
    assert!(!Octree::has_forward_links(&data));
}
