use octree::aabb::AABB;
use octree::intersect::triangle_aabb_intersection;
use octree::mesh::Mesh;
use octree::octree::{populate, Octree, OctreeNode};
use octree::partition::partition;
use octree::vec3::{ceil_to_unit, floor_to_unit, Vec3, Vector3Ext, UNIT};

fn v(x: i64, y: i64, z: i64) -> Vec3 {
    Vec3::new(x, y, z)
}

fn bx(a: (i64, i64, i64), b: (i64, i64, i64)) -> AABB {
    AABB::new(v(a.0, a.1, a.2), v(b.0, b.1, b.2))
}

fn hits(t: [Vec3; 3], b: &AABB) -> bool {
    let tb = AABB::from(&t);
    triangle_aabb_intersection(&t, &tb, b)
}

fn volume(b: &AABB) -> i64 {
    let s = b.size();
    s.x * s.y * s.z
}

fn contains(b: &AABB, p: Vec3) -> bool {
    b.min.x <= p.x && p.x <= b.max.x && b.min.y <= p.y && p.y <= b.max.y && b.min.z <= p.z && p.z <= b.max.z
}

#[test]
fn split_tiles_the_box() {
    let b = bx((0, 0, 0), (8, 6, 4));
    let c = b.split();
    for k in 0..8 {
        assert_eq!(volume(&c[k]) * 8, volume(&b));
    }
    assert_eq!(c[0], bx((0, 0, 0), (4, 3, 2)));
    assert_eq!(c[1], bx((4, 0, 0), (8, 3, 2)));
    assert_eq!(c[2], bx((0, 3, 0), (4, 6, 2)));
    assert_eq!(c[7], bx((4, 3, 2), (8, 6, 4)));
    for x in -1..10 {
        for y in -1..8 {
            for z in -1..6 {
                let p = v(x, y, z);
                let inside = c.iter().filter(|o| contains(o, p)).count();
                assert_eq!(contains(&b, p), inside > 0);
                // a point strictly inside an octant is in no other octant
                let strictly = c.iter().filter(|o| {
                    o.min.x < x && x < o.max.x && o.min.y < y && y < o.max.y && o.min.z < z && z < o.max.z
                }).count();
                assert!(strictly <= 1);
            }
        }
    }
}

#[test]
fn split_odd_sides_still_cover() {
    let b = bx((-3, 0, 1), (4, 1, 6));
    let c = b.split();
    assert_eq!(c[0], bx((-3, 0, 1), (0, 0, 3)));
    assert_eq!(c[7], bx((0, 0, 3), (4, 1, 6)));
    let total: i64 = c.iter().map(volume).sum();
    assert_eq!(total, volume(&b));
}

#[test]
fn box_measures() {
    let b = bx((-3, 2, 10), (5, 7, 10));
    assert_eq!(b.center(), v(1, 4, 10));
    assert_eq!(b.size(), v(8, 5, 0));
    assert_eq!(b.half_size(), v(4, 2, 0));
    assert_eq!(b.min_size(), 0);
    assert!(b.overlap(&bx((5, 7, 10), (6, 8, 11))));
    assert!(!b.overlap(&bx((6, 7, 10), (7, 8, 11))));
}

#[test]
fn bounding_box_of_points() {
    let b = AABB::from(&[v(3, -1, 2), v(0, 4, 2), v(1, 1, -5)]);
    assert_eq!(b, bx((0, -1, -5), (3, 4, 2)));
}

#[test]
fn unit_rounding() {
    assert_eq!(floor_to_unit(0), 0);
    assert_eq!(floor_to_unit(1500), 1024);
    assert_eq!(floor_to_unit(-1), -1024);
    assert_eq!(floor_to_unit(-2048), -2048);
    assert_eq!(ceil_to_unit(1), 1024);
    assert_eq!(ceil_to_unit(-1500), -1024);
    assert_eq!(v(1500, -1, 2048).floor(), v(1024, -1024, 2048));
    assert_eq!(v(1500, -1, 2048).ceil(), v(2048, 0, 2048));
}

#[test]
fn sat_separated() {
    let t = [v(0, 0, 0), v(1, 0, 0), v(0, 1, 0)];
    assert!(!hits(t, &bx((2, 2, 2), (3, 3, 3))));
}

#[test]
fn sat_contained() {
    let t = [v(0, 0, 0), v(1, 0, 0), v(0, 1, 0)];
    assert!(hits(t, &bx((-1, -1, -1), (1, 1, 1))));
}

#[test]
fn sat_touching_boundary() {
    // one vertex lies on the face x = 1, the rest outside the box
    let t = [v(1, 0, 0), v(3, 0, 0), v(3, 1, 0)];
    assert!(hits(t, &bx((-1, -1, -1), (1, 1, 1))));
    // an edge touching a box edge only
    let e = [v(2, 0, 0), v(0, 2, 0), v(2, 2, 0)];
    assert!(hits(e, &bx((0, 0, 0), (1, 1, 1))));
}

#[test]
fn sat_rejects_on_edge_axis() {
    // bounding boxes overlap, but the slanted triangle passes beside the box corner
    let t = [v(3, 0, 0), v(0, 3, 0), v(0, 0, 3)];
    assert!(!hits(t, &bx((0, 0, 0), (0, 0, 0))));
    assert!(hits(t, &bx((0, 0, 0), (1, 1, 1))));
    assert!(!hits(t, &bx((-2, -2, -2), (0, 0, 0))));
}

#[test]
fn sat_degenerate_triangle() {
    // repeated vertex: zero edge, zero cross products and zero normal
    let t = [v(0, 0, 0), v(0, 0, 0), v(2, 2, 2)];
    assert!(hits(t, &bx((1, 1, 1), (3, 3, 3))));
    assert!(!hits(t, &bx((3, 3, 3), (4, 4, 4))));
}

#[test]
fn subdivision_depth() {
    let t = Octree::with_root(bx((0, 0, 0), (8, 8, 8)), 1).unwrap();
    assert_eq!(t.leaves.len(), 512);
    assert_eq!(t.nodes.len(), 1 + 8 + 64 + 512);
    for &l in &t.leaves {
        assert_eq!(t.nodes[l].aabb.size(), v(1, 1, 1));
        assert!(t.nodes[l].children.is_none());
    }
    let root = t.root();
    assert_eq!(root.aabb, bx((0, 0, 0), (8, 8, 8)));
    assert!(root.children.is_some());
}

#[test]
fn subdivision_small_root_is_leaf() {
    let t = Octree::with_root(bx((0, 0, 0), (1, 5, 5)), 1).unwrap();
    assert_eq!(t.leaves, vec![0]);
    assert_eq!(t.nodes.len(), 1);
}

#[test]
fn root_cube_from_mesh() {
    let m = Mesh::new(vec![v(0, 0, 0), v(3 * UNIT, 0, 0), v(0, 3 * UNIT, 0)], vec![[0, 1, 2]]);
    assert_eq!(m.aabb, bx((0, 0, 0), (3 * UNIT, 3 * UNIT, 0)));
    let t = Octree::new(&m).unwrap();
    assert_eq!(t.root().aabb, bx((-UNIT, -UNIT, -UNIT), (4 * UNIT, 4 * UNIT, 4 * UNIT)));
    assert_eq!(t.leaves.len(), 512);
    assert_eq!(t.leaf_size, UNIT);
}

fn assign_all(t: &mut Octree, m: &Mesh, workers: usize) {
    let boxes = m.face_boxes();
    for (start, end) in partition(t.leaves.len(), workers) {
        let mut cells = t.leaf_nodes(start, end);
        populate(&mut cells, m, &boxes);
        t.store_faces(start, cells);
    }
}

#[test]
fn assignment_precision() {
    // a triangle strictly inside the cell [2,3]x[5,6]x[1,2]
    let m = Mesh::new(vec![v(2100, 5200, 1100), v(2900, 5300, 1500), v(2300, 5900, 1900)], vec![[0, 1, 2]]);
    let mut t = Octree::with_root(bx((0, 0, 0), (8 * 1024, 8 * 1024, 8 * 1024)), 1024).unwrap();
    assign_all(&mut t, &m, 16);
    let hit: Vec<usize> = t.leaves.iter().copied().filter(|&l| !t.nodes[l].faces.is_empty()).collect();
    assert_eq!(hit.len(), 1);
    let n = &t.nodes[hit[0]];
    assert_eq!(n.aabb, bx((2048, 5120, 1024), (3072, 6144, 2048)));
    assert_eq!(n.faces, vec![0]);
}

#[test]
fn face_lists_ascend() {
    let m = Mesh::new(
        vec![v(100, 100, 100), v(900, 100, 100), v(100, 900, 100), v(100, 100, 900)],
        vec![[0, 1, 2], [0, 1, 3], [0, 2, 3], [1, 2, 3]],
    );
    let mut t = Octree::with_root(bx((0, 0, 0), (2048, 2048, 2048)), 1024).unwrap();
    assign_all(&mut t, &m, 3);
    let first = t.leaves[0];
    assert_eq!(t.nodes[first].faces, vec![0, 1, 2, 3]);
    for &l in &t.leaves[1..] {
        assert!(t.nodes[l].faces.is_empty());
    }
}

#[test]
fn insert_face_on_node() {
    let mut n = OctreeNode::new(bx((0, 0, 0), (4, 4, 4)));
    let t = [v(1, 1, 1), v(2, 1, 1), v(1, 2, 1)];
    let far = [v(10, 10, 10), v(11, 10, 10), v(10, 11, 10)];
    n.insert_face(7, &t, &AABB::from(&t));
    n.insert_face(8, &far, &AABB::from(&far));
    assert_eq!(n.faces, vec![7]);
    assert!(n.children.is_none());
}

#[test]
fn prune_collapses_faceless_tree() {
    let mut t = Octree::with_root(bx((0, 0, 0), (8, 8, 8)), 1).unwrap();
    t.prune();
    assert!(t.root().children.is_none());
    assert!(t.root().faces.is_empty());
    let children: Vec<_> = t.nodes.iter().map(|n| n.children).collect();
    t.prune();
    let again: Vec<_> = t.nodes.iter().map(|n| n.children).collect();
    assert_eq!(children, again);
    assert_eq!(t.leaves.len(), 512);
}

#[test]
fn prune_keeps_branch_with_faces() {
    let m = Mesh::new(vec![v(100, 100, 100), v(400, 100, 100), v(100, 400, 100)], vec![[0, 1, 2]]);
    let mut t = Octree::with_root(bx((0, 0, 0), (4096, 4096, 4096)), 1024).unwrap();
    assign_all(&mut t, &m, 4);
    t.prune();
    let root = t.root();
    let c = root.children.unwrap();
    // only the first octant holds the face; the others collapse to leaves
    assert!(t.nodes[c[0]].children.is_some());
    for k in 1..8 {
        assert!(t.nodes[c[k]].children.is_none());
    }
    let first_leaf = t.nodes[c[0]].children.unwrap()[0];
    assert_eq!(t.nodes[first_leaf].faces, vec![0]);
    let before: Vec<_> = t.nodes.iter().map(|n| n.children).collect();
    t.prune();
    let after: Vec<_> = t.nodes.iter().map(|n| n.children).collect();
    assert_eq!(before, after);
}

#[test]
fn partition_covers_every_leaf() {
    let r = partition(10, 3);
    assert_eq!(r, vec![(0, 3), (3, 6), (6, 10)]);
    let r = partition(512, 16);
    assert_eq!(r.len(), 16);
    assert_eq!(r[15], (480, 512));
    let r = partition(5, 16);
    assert_eq!(r[0], (0, 0));
    assert_eq!(r[15], (0, 5));
    for n in 0..40usize {
        for w in 1..9usize {
            let r = partition(n, w);
            for j in 0..n {
                assert_eq!(r.iter().filter(|(s, e)| *s <= j && j < *e).count(), 1);
            }
        }
    }
}

#[test]
fn mesh_face_boxes() {
    let m = Mesh::new(vec![v(0, 0, 0), v(5, -2, 1), v(1, 7, 3), v(-4, 0, 0)], vec![[0, 1, 2], [3, 0, 2]]);
    let b = m.face_boxes();
    assert_eq!(b, vec![bx((0, -2, 0), (5, 7, 3)), bx((-4, 0, 0), (1, 7, 3))]);
    assert_eq!(m.face(1), [v(-4, 0, 0), v(0, 0, 0), v(1, 7, 3)]);
    assert_eq!(m.aabb, bx((-4, -2, 0), (5, 7, 3)));
}

#[test]
fn mesh_try_new_checks_input() {
    assert!(Mesh::try_new(vec![], vec![]).is_none());
    assert!(Mesh::try_new(vec![v(0, 0, 0), v(1, 1, 1)], vec![[0, 1, 2]]).is_none());
    assert!(Mesh::try_new(vec![v(0, 0, 1 << 40)], vec![]).is_none());
    let m = Mesh::try_new(vec![v(0, 0, 0), v(1, 1, 1), v(2, 0, 1)], vec![[0, 1, 2], [2, 2, 0]]).unwrap();
    assert_eq!(m.indices.len(), 2);
    assert_eq!(m.aabb, bx((0, 0, 0), (2, 1, 1)));
}

fn max_depth(t: &Octree, i: usize) -> usize {
    match t.nodes[i].children {
        Some(c) => 1 + c.iter().map(|&k| max_depth(t, k)).max().unwrap(),
        None => 0,
    }
}

fn min_depth(t: &Octree, i: usize) -> usize {
    match t.nodes[i].children {
        Some(c) => 1 + c.iter().map(|&k| min_depth(t, k)).min().unwrap(),
        None => 0,
    }
}

#[test]
fn subdivision_depth_is_three_everywhere() {
    let t = Octree::with_root(bx((0, 0, 0), (8, 8, 8)), 1).unwrap();
    assert_eq!(max_depth(&t, 0), 3);
    assert_eq!(min_depth(&t, 0), 3);
}

#[test]
fn subdivision_uses_one_depth_for_uneven_halves() {
    // a side of 2049 halves unevenly, yet every branch stops at depth two
    let t = Octree::with_root(bx((0, 0, 0), (2049, 2049, 2049)), 1024).unwrap();
    assert_eq!(t.leaves.len(), 64);
    assert_eq!(t.nodes.len(), 1 + 8 + 64);
    assert_eq!(max_depth(&t, 0), 2);
    assert_eq!(min_depth(&t, 0), 2);
    for (j, n) in t.nodes.iter().enumerate() {
        assert_eq!(n.children.is_none(), t.leaves.contains(&j));
    }
}

#[test]
fn assign_faces_reaches_trailing_leaves() {
    // 512 leaves over 3 workers: 512 % 3 leaves sit past the equal chunks
    let m = Mesh::new(
        vec![v(7200, 7200, 7200), v(7800, 7300, 7400), v(7300, 7800, 7600), v(100, 100, 100), v(900, 100, 100), v(100, 900, 100)],
        vec![[0, 1, 2], [3, 4, 5]],
    );
    let boxes = m.face_boxes();
    let mut t = Octree::with_root(bx((0, 0, 0), (8 * 1024, 8 * 1024, 8 * 1024)), 1024).unwrap();
    t.assign_faces(&m, &boxes, 3);
    let last = t.leaves[511];
    assert_eq!(t.nodes[last].aabb, bx((7168, 7168, 7168), (8192, 8192, 8192)));
    assert_eq!(t.nodes[last].faces, vec![0]);
    assert_eq!(t.nodes[t.leaves[0]].faces, vec![1]);
    let nonempty = t.leaves.iter().filter(|&&l| !t.nodes[l].faces.is_empty()).count();
    assert_eq!(nonempty, 2);
    // the same as a sequential test of every face against every leaf
    for &l in &t.leaves {
        let mut expect = vec![];
        for f in 0..2 {
            if triangle_aabb_intersection(&m.face(f), &boxes[f], &t.nodes[l].aabb) {
                expect.push(f);
            }
        }
        assert_eq!(t.nodes[l].faces, expect);
    }
}
