use multithread_raycaster_game::voxel::{
    hash_function, OctreeNode, SparseVoxelOctree, SpatialHashTable, Voxel, VoxelColor, MAX_DEPTH,
};

fn reference_hash(x: usize, y: usize, z: usize) -> usize {
    (((x as u64).wrapping_mul(73856093) ^ (y as u64).wrapping_mul(19349663) ^ (z as u64).wrapping_mul(83492791))
        & 0xFFFF_FFFF_FFFF) as usize
}

fn voxel(r: u8, g: u8, b: u8, a: u8) -> Voxel {
    Voxel { color: VoxelColor { r, g, b, a } }
}

#[test]
fn hash_of_origin_is_zero() {
    assert_eq!(hash_function(0, 0, 0), 0);
}

#[test]
fn hash_of_unit_points_are_the_primes() {
    assert_eq!(hash_function(1, 0, 0), 73856093);
    assert_eq!(hash_function(0, 1, 0), 19349663);
    assert_eq!(hash_function(0, 0, 1), 83492791);
    assert_eq!(hash_function(1, 1, 1), 73856093 ^ 19349663 ^ 83492791);
}

#[test]
fn hash_matches_formula_and_keeps_48_bits() {
    for &(x, y, z) in &[(10usize, 20usize, 30usize), (123456789, 987654321, 5), (usize::MAX, 7, usize::MAX - 3)] {
        let h = hash_function(x, y, z);
        assert_eq!(h, reference_hash(x, y, z));
        assert!(h < (1usize << 48));
    }
}

#[test]
fn get_after_insert() {
    let mut svo = SparseVoxelOctree::new();
    assert!(svo.get(10, 20, 30).is_none());
    svo.insert(10, 20, 30, voxel(255, 0, 0, 255));
    let v = svo.get(10, 20, 30).expect("inserted voxel");
    assert_eq!((v.color.r, v.color.g, v.color.b, v.color.a), (255, 0, 0, 255));
    assert!(svo.get(10, 20, 31).is_none());
}

#[test]
fn insert_replaces_voxel() {
    let mut svo = SparseVoxelOctree::new();
    svo.insert(1, 2, 3, voxel(1, 1, 1, 1));
    svo.insert(1, 2, 3, voxel(9, 8, 7, 6));
    let v = svo.get(1, 2, 3).unwrap();
    assert_eq!((v.color.r, v.color.g, v.color.b, v.color.a), (9, 8, 7, 6));
}

#[test]
fn remove_drops_voxel_but_keeps_tree() {
    let mut svo = SparseVoxelOctree::new();
    svo.insert(4, 5, 6, voxel(1, 2, 3, 4));
    svo.insert(7, 8, 9, voxel(5, 6, 7, 8));
    let before = svo.dfs().len();
    svo.remove(4, 5, 6);
    assert!(svo.get(4, 5, 6).is_none());
    assert!(svo.get(7, 8, 9).is_some());
    assert_eq!(svo.dfs().len(), before);
    assert_ne!(svo.root.bitmask, 0);
}

#[test]
fn spatial_hash_table_roundtrip() {
    let mut t = SpatialHashTable::new();
    t.insert(3, 3, 3, voxel(3, 3, 3, 3));
    assert_eq!(t.get(3, 3, 3).unwrap().color.r, 3);
    t.remove(3, 3, 3);
    assert!(t.get(3, 3, 3).is_none());
}

#[test]
fn new_node_is_empty() {
    let n = OctreeNode::new();
    assert_eq!(n.bitmask, 0);
    assert!(n.voxel.is_none());
    assert!(n.children.iter().all(|c| c.is_none()));
}

#[test]
fn node_insert_builds_one_path() {
    let mut n = OctreeNode::new();
    n.insert(0, 10, 20, 30, voxel(0, 0, 0, 0));
    // bit 15 of every coordinate is 0: octant 0 at the top
    assert_eq!(n.bitmask, 1);
    let visits = n.oc_dfs();
    assert_eq!(visits.len(), MAX_DEPTH + 1);
    for (k, v) in visits.iter().enumerate() {
        assert_eq!(v.1, k);
    }
    let leaf = visits.last().unwrap();
    assert_eq!((leaf.1, leaf.2, leaf.3, leaf.4), (MAX_DEPTH, 10, 20, 30));
    assert_eq!(leaf.0.bitmask, 0);
}

#[test]
fn node_insert_at_max_depth_does_nothing() {
    let mut n = OctreeNode::new();
    n.insert(MAX_DEPTH, 1, 2, 3, voxel(0, 0, 0, 0));
    assert_eq!(n.bitmask, 0);
    assert_eq!(n.oc_dfs().len(), 1);
}

#[test]
fn top_octant_follows_high_bits() {
    let mut n = OctreeNode::new();
    // bit 15 set in x only: octant 4
    n.insert(0, 1 << 15, 0, 0, voxel(0, 0, 0, 0));
    assert_eq!(n.bitmask, 1 << 4);
    // bit 15 set in y and z: octant 3
    n.insert(0, 0, 1 << 15, 1 << 15, voxel(0, 0, 0, 0));
    assert_eq!(n.bitmask, (1 << 4) | (1 << 3));
}

#[test]
fn cells_are_the_low_16_bits() {
    let mut svo = SparseVoxelOctree::new();
    svo.insert(5, 6, 7, voxel(0, 0, 0, 0));
    let nodes = svo.dfs().len();
    // same low 16 bits: same cell, no new node
    svo.insert(5 + 65536, 6, 7 + 3 * 65536, voxel(0, 0, 0, 0));
    assert_eq!(svo.dfs().len(), nodes);
}

#[test]
fn dfs_visits_children_in_order_depth_first() {
    let mut svo = SparseVoxelOctree::new();
    svo.insert(0, 0, 1, voxel(0, 0, 0, 0));
    svo.insert(0, 0, 0, voxel(0, 0, 0, 0));
    let visits = svo.dfs();
    // shared path of 15 inner nodes below the root, then two leaves
    assert_eq!(visits.len(), 1 + 15 + 2);
    let leaves: Vec<(usize, usize, usize, usize)> =
        visits.iter().filter(|v| v.1 == MAX_DEPTH).map(|v| (v.1, v.2, v.3, v.4)).collect();
    assert_eq!(leaves, vec![(MAX_DEPTH, 0, 0, 0), (MAX_DEPTH, 0, 0, 1)]);
    assert_eq!(visits[16].4, 0);
    assert_eq!(visits[17].4, 1);
}

#[test]
fn dfs_finishes_a_subtree_before_the_next() {
    let mut svo = SparseVoxelOctree::new();
    svo.insert(1 << 15, 0, 0, voxel(0, 0, 0, 0));
    svo.insert(0, 0, 0, voxel(0, 0, 0, 0));
    let depths: Vec<usize> = svo.dfs().iter().map(|v| v.1).collect();
    let mut expected = vec![0];
    expected.extend(1..=16);
    expected.extend(1..=16);
    assert_eq!(depths, expected);
    let leaves: Vec<usize> = svo.dfs().iter().filter(|v| v.1 == 16).map(|v| v.2).collect();
    assert_eq!(leaves, vec![0, 1 << 15]);
}

#[test]
fn bfs_visits_level_by_level() {
    let mut svo = SparseVoxelOctree::new();
    svo.insert(1 << 15, 0, 0, voxel(0, 0, 0, 0));
    svo.insert(0, 0, 0, voxel(0, 0, 0, 0));
    let depths: Vec<usize> = svo.bfs().iter().map(|v| v.1).collect();
    let mut expected = vec![0];
    for d in 1..=16 {
        expected.push(d);
        expected.push(d);
    }
    assert_eq!(depths, expected);
}

#[test]
fn bfs_and_dfs_visit_the_same_number_of_nodes() {
    let mut svo = SparseVoxelOctree::new();
    for &(x, y, z) in &[(10usize, 20usize, 30usize), (11, 20, 30), (31, 0, 2), (0, 31, 31)] {
        svo.insert(x, y, z, voxel(1, 1, 1, 1));
    }
    assert_eq!(svo.bfs().len(), svo.dfs().len());
}

#[test]
fn empty_octree_traversals_visit_the_root() {
    let svo = SparseVoxelOctree::new();
    assert_eq!(svo.dfs().len(), 1);
    assert_eq!(svo.bfs().len(), 1);
}

#[test]
fn cloned_table_holds_the_same_voxels() {
    let mut t = SpatialHashTable::new();
    t.insert(1, 2, 3, voxel(4, 5, 6, 7));
    let c = t.clone();
    t.remove(1, 2, 3);
    assert!(t.get(1, 2, 3).is_none());
    assert_eq!(c.get(1, 2, 3).unwrap().color.b, 6);
}

#[test]
fn insert_model_takes_palette_colors() {
    let mut svo = SparseVoxelOctree::new();
    let palette = vec![VoxelColor { r: 1, g: 2, b: 3, a: 4 }, VoxelColor { r: 9, g: 9, b: 9, a: 9 }];
    svo.insert_model(&vec![(1, 1, 1, 1), (2, 2, 2, 0), (1, 1, 1, 0)], &palette);
    assert_eq!(svo.get(1, 1, 1).unwrap().color.r, 1);
    assert_eq!(svo.get(2, 2, 2).unwrap().color.g, 2);
    let leaves = svo.dfs().iter().filter(|v| v.1 == MAX_DEPTH).count();
    assert_eq!(leaves, 2);
}

#[test]
fn insert_builds_only_the_path() {
    let mut n = OctreeNode::new();
    n.insert(14, 2, 1, 3, voxel(1, 2, 3, 4));
    assert_eq!(n.bitmask, 32);
    assert!(n.voxel.is_none());
    for (i, c) in n.children.iter().enumerate() {
        assert_eq!(c.is_some(), i == 5);
    }
    let c = n.children[5].as_ref().unwrap();
    assert_eq!(c.bitmask, 8);
    assert!(c.voxel.is_none());
    for (i, g) in c.children.iter().enumerate() {
        assert_eq!(g.is_some(), i == 3);
    }
    let leaf = c.children[3].as_ref().unwrap();
    assert_eq!(leaf.bitmask, 0);
    assert!(leaf.voxel.is_none());
    assert!(leaf.children.iter().all(|g| g.is_none()));
}

#[test]
fn dfs_of_two_points_in_order() {
    let mut r = OctreeNode::new();
    r.insert(0, 1, 0, 0, voxel(0, 0, 0, 0));
    r.insert(0, 0, 0, 1, voxel(0, 0, 0, 0));
    let log: Vec<(usize, usize, usize, usize)> = r.oc_dfs().iter().map(|v| (v.1, v.2, v.3, v.4)).collect();
    assert_eq!(log.len(), 18);
    for k in 0..16 {
        assert_eq!(log[k], (k, 0, 0, 0));
    }
    assert_eq!(log[16], (16, 0, 0, 1));
    assert_eq!(log[17], (16, 1, 0, 0));
}

fn masks_match_everywhere(n: &OctreeNode) -> bool {
    n.children.iter().enumerate().all(|(i, c)| ((n.bitmask >> i) & 1 == 1) == c.is_some())
        && n.children.iter().flatten().all(|c| masks_match_everywhere(c))
}

#[test]
fn insert_keeps_masks_even_below_max_depth() {
    // a hand-built tree with a node below MAX_DEPTH
    let mut deep = OctreeNode::new();
    deep.bitmask = 1;
    deep.children[0] = Some(Box::new(OctreeNode::new()));
    let mut n = OctreeNode::new();
    n.bitmask = 1 << 7;
    n.children[7] = Some(Box::new(deep));
    assert!(masks_match_everywhere(&n));
    n.insert(15, 1, 1, 1, voxel(0, 0, 0, 0));
    n.insert(15, 0, 0, 0, voxel(0, 0, 0, 0));
    assert_eq!(n.bitmask, (1 << 7) | 1);
    assert!(masks_match_everywhere(&n));
}

#[test]
fn hash_repeats_every_2_pow_48() {
    let p: usize = 1 << 48;
    for &(x, y, z) in &[(0usize, 0usize, 0usize), (10, 20, 30), (12345, 678, 91011)] {
        let h = hash_function(x, y, z);
        assert_eq!(hash_function(x + p, y, z), h);
        assert_eq!(hash_function(x, y + p, z), h);
        assert_eq!(hash_function(x, y, z + 3 * p), h);
    }
    assert_ne!(hash_function(1, 0, 0), hash_function(2, 0, 0));
}

#[test]
fn inserts_in_either_order_give_the_same_octree() {
    let mut a = SparseVoxelOctree::new();
    a.insert(3, 4, 5, voxel(1, 0, 0, 0));
    a.insert(60000, 2, 9, voxel(2, 0, 0, 0));
    let mut b = SparseVoxelOctree::new();
    b.insert(60000, 2, 9, voxel(2, 0, 0, 0));
    b.insert(3, 4, 5, voxel(1, 0, 0, 0));
    let da: Vec<(usize, usize, usize, usize, u8)> = a.dfs().iter().map(|v| (v.1, v.2, v.3, v.4, v.0.bitmask)).collect();
    let db: Vec<(usize, usize, usize, usize, u8)> = b.dfs().iter().map(|v| (v.1, v.2, v.3, v.4, v.0.bitmask)).collect();
    assert_eq!(da, db);
    assert_eq!(a.get(3, 4, 5).unwrap().color.r, 1);
    assert_eq!(b.get(60000, 2, 9).unwrap().color.r, 2);
}

#[test]
fn leaves_visited_are_the_inserted_cells() {
    let mut svo = SparseVoxelOctree::new();
    let points = [(3usize, 4usize, 5usize), (65536 + 7, 1, 2), (100, 200, 300)];
    for &(x, y, z) in &points {
        svo.insert(x, y, z, voxel(0, 0, 0, 0));
    }
    let mut leaves: Vec<(usize, usize, usize)> =
        svo.dfs().iter().filter(|v| v.1 == MAX_DEPTH).map(|v| (v.2, v.3, v.4)).collect();
    leaves.sort();
    let mut cells: Vec<(usize, usize, usize)> = points.iter().map(|&(x, y, z)| (x % 65536, y % 65536, z % 65536)).collect();
    cells.sort();
    assert_eq!(leaves, cells);
}

fn morton(x: usize, y: usize, z: usize) -> u64 {
    let mut code = 0u64;
    for s in (0..16).rev() {
        code = (code << 3) | (((x >> s) & 1) << 2 | ((y >> s) & 1) << 1 | ((z >> s) & 1)) as u64;
    }
    code
}

#[test]
fn leaves_come_in_morton_order() {
    let mut svo = SparseVoxelOctree::new();
    for &(x, y, z) in &[(5usize, 0usize, 0usize), (0, 0, 5), (1, 1, 0), (40000, 3, 3), (7, 7, 7), (0, 9, 1)] {
        svo.insert(x, y, z, voxel(0, 0, 0, 0));
    }
    let codes: Vec<u64> = svo.dfs().iter().filter(|v| v.1 == MAX_DEPTH).map(|v| morton(v.2, v.3, v.4)).collect();
    assert_eq!(codes.len(), 6);
    for w in codes.windows(2) {
        assert!(w[0] < w[1]);
    }
}
