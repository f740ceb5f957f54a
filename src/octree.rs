use vstd::prelude::*;
use crate::aabb::{vec3_of, AABB};
use crate::intersect::{sat_overlap, tri_in_range, triangle_aabb_intersection};
use crate::mesh::Mesh;
use crate::partition::{chunk_end, chunk_start, lemma_chunk_bounds, partition};
use crate::vec3::{ceil_to_unit, ceil_unit, floor_to_unit, floor_unit, Vec3, COORD_LIMIT, UNIT};

verus! {

/// A cell of the octree: its box, the indices of its eight children in the
/// tree's arena (or none for a leaf), and the faces assigned to it.
#[derive(Debug)]
pub struct OctreeNode {
    pub aabb: AABB,
    pub children: Option<[usize; 8]>,
    pub faces: Vec<usize>,
}

/// Number of halvings after which a side of length `s` is at most `leaf`:
/// the least `k` with `s <= leaf * 2^k` (zero for a threshold below one).
pub open spec fn leaf_depth(s: int, leaf: int) -> nat
    decreases s,
{
    if leaf < 1 || s <= leaf {
        0
    } else {
        1 + leaf_depth((s + 1) / 2, leaf)
    }
}

pub open spec fn pow2(k: nat) -> int
    decreases k,
{
    if k == 0 {
        1
    } else {
        2 * pow2((k - 1) as nat)
    }
}

pub open spec fn pow8(k: nat) -> nat
    decreases k,
{
    if k == 0 {
        1
    } else {
        8 * pow8((k - 1) as nat)
    }
}

/// Number of nodes of a complete octree of depth `d`.
pub open spec fn node_total(d: nat) -> nat
    decreases d,
{
    if d == 0 {
        1
    } else {
        1 + 8 * node_total((d - 1) as nat)
    }
}

/// The leaf cells of `b` subdivided uniformly `d` times, in visiting order:
/// `b` itself at depth zero, else the cells of its octants in turn.
pub open spec fn leaf_cells(b: AABB, d: nat) -> Seq<AABB>
    decreases d,
{
    if d == 0 {
        seq![b]
    } else {
        let e = (d - 1) as nat;
        leaf_cells(b.octant(0), e) + leaf_cells(b.octant(1), e) + leaf_cells(b.octant(2), e)
            + leaf_cells(b.octant(3), e) + leaf_cells(b.octant(4), e) + leaf_cells(b.octant(5), e)
            + leaf_cells(b.octant(6), e) + leaf_cells(b.octant(7), e)
    }
}

/// Leaf cells of the first `k` octants of `b`, each subdivided `d` times.
pub open spec fn octant_cells(b: AABB, d: nat, k: int) -> Seq<AABB>
    decreases k,
{
    if k <= 0 {
        seq![]
    } else {
        octant_cells(b, d, k - 1) + leaf_cells(b.octant(k - 1), d)
    }
}

proof fn lemma_split_cells(b: AABB, d: nat)
    requires
        d >= 1,
    ensures
        leaf_cells(b, d) == octant_cells(b, (d - 1) as nat, 8),
{
    reveal_with_fuel(octant_cells, 9);
    assert(leaf_cells(b, d) =~= octant_cells(b, (d - 1) as nat, 8));
}

/// A uniform subdivision of depth `d` has `8^d` cells.
pub proof fn lemma_leaf_cells_len(b: AABB, d: nat)
    ensures
        leaf_cells(b, d).len() == pow8(d),
    decreases d,
{
    if d > 0 {
        let e = (d - 1) as nat;
        lemma_leaf_cells_len(b.octant(0), e);
        lemma_leaf_cells_len(b.octant(1), e);
        lemma_leaf_cells_len(b.octant(2), e);
        lemma_leaf_cells_len(b.octant(3), e);
        lemma_leaf_cells_len(b.octant(4), e);
        lemma_leaf_cells_len(b.octant(5), e);
        lemma_leaf_cells_len(b.octant(6), e);
        lemma_leaf_cells_len(b.octant(7), e);
        assert(pow8(d) == 8 * pow8(e));
    }
}

/// `leaf_depth` is the least number of halvings that brings a side of
/// length `s` to at most `leaf`.
pub proof fn lemma_leaf_depth_least(s: int, leaf: int)
    requires
        leaf >= 1,
        s >= 0,
    ensures
        s <= leaf * pow2(leaf_depth(s, leaf)),
        leaf_depth(s, leaf) > 0 ==> s > leaf * pow2((leaf_depth(s, leaf) - 1) as nat),
    decreases s,
{
    if s > leaf {
        let h = (s + 1) / 2;
        lemma_leaf_depth_least(h, leaf);
        let e = leaf_depth(h, leaf);
        let p = pow2(e);
        assert(h <= leaf * p);
        assert(s <= leaf * (2 * p)) by (nonlinear_arith)
            requires
                h == (s + 1) / 2,
                h <= leaf * p,
        ;
        assert(pow2(e + 1) == 2 * p);
        if e > 0 {
            let q = pow2((e - 1) as nat);
            assert(p == 2 * q);
            assert(h > leaf * q);
            assert(s > leaf * p) by (nonlinear_arith)
                requires
                    h == (s + 1) / 2,
                    h > leaf * q,
                    p == 2 * q,
            ;
        } else {
            assert(pow2(0) == 1);
        }
    } else {
        assert(pow2(0) == 1);
    }
}

/// The boxes of the nodes listed in `ls`.
pub open spec fn cells_of(nodes: Seq<OctreeNode>, ls: Seq<usize>) -> Seq<AABB> {
    Seq::new(ls.len(), |k: int| nodes[ls[k] as int].aabb)
}

/// Index of child `k` of node `p`, or -1 when `p` has no children.
pub open spec fn child_of(nodes: Seq<OctreeNode>, p: int, k: int) -> int {
    match nodes[p].children {
        Some(c) => c@[k] as int,
        None => -1,
    }
}

/// Node `j` is a child of a node that comes before it.
pub open spec fn has_parent(nodes: Seq<OctreeNode>, j: int) -> bool {
    exists|p: int, k: int| 0 <= p < j && 0 <= k < 8 && #[trigger] child_of(nodes, p, k) == j
}

/// The subtree at node `i` is complete of depth `d`: nodes above depth `d`
/// have eight children, and the nodes at depth `d` are childless and listed
/// in `ls`.
pub open spec fn full_shape(nodes: Seq<OctreeNode>, ls: Seq<usize>, i: int, d: nat) -> bool
    decreases d,
{
    &&& 0 <= i < nodes.len()
    &&& if d == 0 {
        nodes[i].children is None && ls.contains(i as usize)
    } else {
        &&& nodes[i].children is Some
        &&& forall|k: int|
            0 <= k < 8 ==> full_shape(nodes, ls, #[trigger] child_of(nodes, i, k), (d - 1) as nat)
    }
}

/// Node `j` is either subdivided or listed in `ls`.
pub open spec fn settled(nodes: Seq<OctreeNode>, ls: Seq<usize>, j: int) -> bool {
    nodes[j].children is Some || ls.contains(j as usize)
}

/// From `n1` to `n2` no node lost or changed its children.
pub open spec fn children_kept(n1: Seq<OctreeNode>, n2: Seq<OctreeNode>) -> bool {
    &&& n1.len() <= n2.len()
    &&& forall|j: int|
        0 <= j < n1.len() && (#[trigger] n1[j]).children is Some ==> n2[j].children
            == n1[j].children
}

proof fn lemma_node_total_grows(m: nat, n: nat)
    requires
        m <= n,
    ensures
        node_total(m) <= node_total(n),
    decreases n - m,
{
    if m < n {
        lemma_node_total_grows(m, (n - 1) as nat);
    }
}

proof fn lemma_shape_stable(
    n1: Seq<OctreeNode>,
    l1: Seq<usize>,
    n2: Seq<OctreeNode>,
    l2: Seq<usize>,
    i: int,
    d: nat,
)
    requires
        full_shape(n1, l1, i, d),
        i <= usize::MAX,
        children_kept(n1, n2),
        forall|x: usize| l1.contains(x) ==> #[trigger] l2.contains(x),
        forall|q: int| 0 <= q < l2.len() ==> #[trigger] l2[q] < n2.len(),
        forall|q: int| 0 <= q < l2.len() ==> n2[#[trigger] l2[q] as int].children is None,
    ensures
        full_shape(n2, l2, i, d),
    decreases d,
{
    assert(0 <= i < n2.len());
    if d == 0 {
        assert(l1.contains(i as usize));
        assert(l2.contains(i as usize));
        let q = choose|q: int| 0 <= q < l2.len() && l2[q] == i as usize;
        assert(n2[l2[q] as int].children is None);
        assert(n2[i].children is None);
    } else {
        assert(n2[i].children == n1[i].children);
        assert forall|k: int| 0 <= k < 8 implies full_shape(n2, l2, #[trigger] child_of(n2, i, k), (d - 1) as nat) by {
            assert(child_of(n2, i, k) == child_of(n1, i, k));
            assert(child_of(n1, i, k) <= usize::MAX);
            lemma_shape_stable(n1, l1, n2, l2, child_of(n1, i, k), (d - 1) as nat);
        }
    }
}

proof fn lemma_parent_stable(n1: Seq<OctreeNode>, n2: Seq<OctreeNode>, j: int)
    requires
        has_parent(n1, j),
        j <= n1.len(),
        children_kept(n1, n2),
    ensures
        has_parent(n2, j),
{
    let (p, k) = choose|p: int, k: int| 0 <= p < j && 0 <= k < 8 && #[trigger] child_of(n1, p, k) == j;
    assert(n1[p].children is Some);
    assert(child_of(n2, p, k) == j);
}

/// Every node of the arena has an empty face list.
pub open spec fn all_faces_empty(nodes: Seq<OctreeNode>) -> bool {
    forall|j: int| 0 <= j < nodes.len() ==> (#[trigger] nodes[j]).faces@.len() == 0
}

proof fn lemma_cells_of_concat(nodes: Seq<OctreeNode>, a: Seq<usize>, b: Seq<usize>)
    ensures
        cells_of(nodes, a + b) == cells_of(nodes, a) + cells_of(nodes, b),
{
    assert(cells_of(nodes, a + b) =~= cells_of(nodes, a) + cells_of(nodes, b));
}

/// Boxes read through `ls` stay the same while the boxes of those nodes do.
proof fn lemma_cells_of_stable(n1: Seq<OctreeNode>, n2: Seq<OctreeNode>, ls: Seq<usize>, bound: int)
    requires
        bound <= n1.len(),
        bound <= n2.len(),
        forall|k: int| 0 <= k < ls.len() ==> #[trigger] ls[k] < bound,
        forall|j: int| 0 <= j < bound ==> #[trigger] n1[j].aabb == n2[j].aabb,
    ensures
        cells_of(n1, ls) == cells_of(n2, ls),
{
    assert forall|k: int| 0 <= k < ls.len() implies n1[ls[k] as int].aabb == n2[ls[k] as int].aabb by {
        assert(ls[k] < bound);
    }
    assert(cells_of(n1, ls) =~= cells_of(n2, ls));
}

/// The root cube for a mesh with bounding box `m`: from its lowest
/// coordinate rounded down to whole units, less one unit, to its highest
/// coordinate rounded up, plus one unit; one more unit is added should that
/// span equal the mesh's own extent.
pub open spec fn root_box(m: AABB) -> AABB {
    let lo = floor_unit(m.min.min_component()) - UNIT;
    let hi0 = ceil_unit(m.max.max_component()) + UNIT;
    let extent = m.max.max_component() - m.min.min_component();
    let hi = if hi0 - lo == extent {
        hi0 + UNIT
    } else {
        hi0
    };
    AABB { min: vec3_of(lo, lo, lo), max: vec3_of(hi, hi, hi) }
}

/// The mesh's box leaves room for the root's margins inside the coordinate range.
pub open spec fn root_fits(m: AABB) -> bool {
    &&& m.wf()
    &&& -COORD_LIMIT + 3 * UNIT <= m.min.min_component()
    &&& m.max.max_component() <= COORD_LIMIT - 3 * UNIT
}

/// No node in the subtree below node `i` (itself included) holds a face.
pub open spec fn subtree_empty(nodes: Seq<OctreeNode>, i: int) -> bool
    decreases nodes.len() - i,
{
    if 0 <= i < nodes.len() {
        &&& nodes[i].faces@.len() == 0
        &&& match nodes[i].children {
            None => true,
            Some(c) => forall|k: int|
                0 <= k < 8 ==> (i < #[trigger] c@[k] < nodes.len() ==> subtree_empty(nodes, c@[k] as int)),
        }
    } else {
        true
    }
}

/// Children of node `i` after pruning: an internal node whose subtree holds
/// no face becomes a leaf; every other node keeps its children.
pub open spec fn pruned_children(nodes: Seq<OctreeNode>, i: int) -> Option<[usize; 8]> {
    if nodes[i].children is Some && subtree_empty(nodes, i) {
        None
    } else {
        nodes[i].children
    }
}

/// `after` is `before` pruned: same boxes and face lists, and each node's
/// children as `pruned_children` gives them.
pub open spec fn is_pruned(before: Seq<OctreeNode>, after: Seq<OctreeNode>) -> bool {
    &&& after.len() == before.len()
    &&& forall|j: int|
        0 <= j < before.len() ==> {
            &&& (#[trigger] after[j]).aabb == before[j].aabb
            &&& after[j].faces == before[j].faces
            &&& after[j].children == pruned_children(before, j)
        }
}

/// The faces among the first `n` of `mesh` whose triangle meets `b`, in
/// ascending order; `boxes` holds the faces' bounding boxes.
pub open spec fn hits(mesh: Mesh, boxes: Seq<AABB>, b: AABB, n: int) -> Seq<usize>
    decreases n,
{
    if n <= 0 {
        seq![]
    } else if sat_overlap(mesh.triangle(n - 1), boxes[n - 1], b) {
        hits(mesh, boxes, b, n - 1).push((n - 1) as usize)
    } else {
        hits(mesh, boxes, b, n - 1)
    }
}

/// In an arena where no node holds a face, every subtree is empty.
proof fn lemma_no_faces_all_empty(nodes: Seq<OctreeNode>, i: int)
    requires
        all_faces_empty(nodes),
    ensures
        subtree_empty(nodes, i),
    decreases nodes.len() - i,
{
    if 0 <= i < nodes.len() {
        assert(nodes[i].faces@.len() == 0);
        if let Some(c) = nodes[i].children {
            assert forall|k: int| 0 <= k < 8 implies (i < #[trigger] c@[k] < nodes.len()
                ==> subtree_empty(nodes, c@[k] as int)) by {
                if i < c@[k] < nodes.len() {
                    lemma_no_faces_all_empty(nodes, c@[k] as int);
                }
            }
        }
    }
}

/// Pruning a tree in which no node holds a face leaves a bare root: no
/// children and no faces.
pub proof fn lemma_prune_faceless(before: Seq<OctreeNode>, after: Seq<OctreeNode>)
    requires
        before.len() >= 1,
        nodes_wf(before),
        all_faces_empty(before),
        is_pruned(before, after),
    ensures
        after[0].children is None,
        after[0].faces@.len() == 0,
{
    lemma_no_faces_all_empty(before, 0);
    assert(after[0].children == pruned_children(before, 0));
    assert(before[0].faces@.len() == 0);
}

/// Pruning keeps each subtree's emptiness.
proof fn lemma_pruned_keeps_empty(before: Seq<OctreeNode>, after: Seq<OctreeNode>, i: int)
    requires
        nodes_wf(before),
        is_pruned(before, after),
    ensures
        subtree_empty(after, i) == subtree_empty(before, i),
    decreases before.len() - i,
{
    if 0 <= i < before.len() {
        assert(node_wf(before, i));
        assert(after[i].children == pruned_children(before, i));
        if let Some(c) = before[i].children {
            if !subtree_empty(before, i) {
                assert forall|k: int| 0 <= k < 8 implies (i < #[trigger] c@[k] < after.len()
                    ==> subtree_empty(after, c@[k] as int)) == (i < c@[k] < before.len()
                    ==> subtree_empty(before, c@[k] as int)) by {
                    lemma_pruned_keeps_empty(before, after, c@[k] as int);
                }
            }
        }
    }
}

/// Pruning twice gives the same tree as pruning once.
pub proof fn lemma_prune_idempotent(
    before: Seq<OctreeNode>,
    once: Seq<OctreeNode>,
    twice: Seq<OctreeNode>,
)
    requires
        nodes_wf(before),
        is_pruned(before, once),
        is_pruned(once, twice),
    ensures
        twice == once,
{
    assert forall|j: int| 0 <= j < once.len() implies #[trigger] twice[j] == once[j] by {
        lemma_pruned_keeps_empty(before, once, j);
        assert(twice[j].children == pruned_children(once, j));
        assert(once[j].children == pruned_children(before, j));
    }
    assert(twice =~= once);
}

/// Node `i` has a valid box, and its children (if any) come after it in the
/// arena and hold the octants of its box in order.
pub open spec fn node_wf(nodes: Seq<OctreeNode>, i: int) -> bool {
    &&& nodes[i].aabb.wf()
    &&& match nodes[i].children {
        None => true,
        Some(c) => forall|k: int|
            0 <= k < 8 ==> i < #[trigger] c@[k] < nodes.len() && nodes[c@[k] as int].aabb
                == nodes[i].aabb.octant(k),
    }
}

pub open spec fn nodes_wf(nodes: Seq<OctreeNode>) -> bool {
    forall|i: int| 0 <= i < nodes.len() ==> #[trigger] node_wf(nodes, i)
}

/// Every entry of `ls` names a distinct childless node of the arena.
pub open spec fn leaves_wf(nodes: Seq<OctreeNode>, ls: Seq<usize>) -> bool {
    &&& forall|k: int| 0 <= k < ls.len() ==> #[trigger] ls[k] < nodes.len()
    &&& forall|k: int| 0 <= k < ls.len() ==> nodes[#[trigger] ls[k] as int].children is None
    &&& forall|k: int, m: int| 0 <= k < m < ls.len() ==> #[trigger] ls[k] != #[trigger] ls[m]
}

impl OctreeNode {
    /// A childless node with no faces.
    pub fn new(aabb: AABB) -> (r: OctreeNode)
        ensures
            r.aabb == aabb,
            r.children is None,
            r.faces@ == Seq::<usize>::empty(),
    {
        OctreeNode { aabb, children: None, faces: Vec::new() }
    }

    /// Record `face_index` on this node when the triangle meets its box.
    pub fn insert_face(&mut self, face_index: usize, vertices: &[Vec3; 3], face_aabb: &AABB)
        requires
            tri_in_range(vertices@),
            old(self).aabb.wf(),
        ensures
            final(self).aabb == old(self).aabb,
            final(self).children == old(self).children,
            final(self).faces@ == if sat_overlap(vertices@, *face_aabb, old(self).aabb) {
                old(self).faces@.push(face_index)
            } else {
                old(self).faces@
            },
    {
        if triangle_aabb_intersection(vertices, face_aabb, &self.aabb) {
            self.faces.push(face_index);
        }
    }
}

/// An octree held in an arena: node 0 is the root, every node's children
/// follow it, and `leaves` lists the cells of the uniform subdivision.
#[derive(Debug)]
pub struct Octree {
    pub nodes: Vec<OctreeNode>,
    pub leaves: Vec<usize>,
    pub leaf_size: i64,
}

impl Octree {
    pub open spec fn wf(&self) -> bool {
        &&& self.nodes@.len() >= 1
        &&& self.leaf_size >= 1
        &&& nodes_wf(self.nodes@)
        &&& leaves_wf(self.nodes@, self.leaves@)
    }

    /// Give node `i` eight children, appended to the arena, holding the
    /// octants of its box. A node that already has children is left as it is.
    fn subdivide(&mut self, i: usize)
        requires
            old(self).wf(),
            i < old(self).nodes@.len(),
            old(self).nodes@.len() + 8 <= usize::MAX,
            old(self).nodes@[i as int].children is None ==> !old(self).leaves@.contains(i),
        ensures
            final(self).leaf_size == old(self).leaf_size,
            final(self).leaves == old(self).leaves,
            old(self).nodes@[i as int].children is Some ==> *final(self) == *old(self),
            old(self).nodes@[i as int].children is None ==> final(self).wf(),
            old(self).nodes@[i as int].children is None ==> final(self).nodes@.len() == old(self).nodes@.len() + 8,
            old(self).nodes@[i as int].children is None ==> forall|j: int|
                0 <= j < old(self).nodes@.len() && j != i ==> final(self).nodes@[j] == old(self).nodes@[j],
            old(self).nodes@[i as int].children is None ==> final(self).nodes@[i as int].aabb == old(self).nodes@[i as int].aabb,
            old(self).nodes@[i as int].children is None ==> final(self).nodes@[i as int].faces == old(self).nodes@[i as int].faces,
            old(self).nodes@[i as int].children is None ==> final(self).nodes@[i as int].children == Some(
                [
                    (old(self).nodes@.len()) as usize,
                    (old(self).nodes@.len() + 1) as usize,
                    (old(self).nodes@.len() + 2) as usize,
                    (old(self).nodes@.len() + 3) as usize,
                    (old(self).nodes@.len() + 4) as usize,
                    (old(self).nodes@.len() + 5) as usize,
                    (old(self).nodes@.len() + 6) as usize,
                    (old(self).nodes@.len() + 7) as usize,
                ],
            ),
            old(self).nodes@[i as int].children is None ==> forall|k: int|
                0 <= k < 8 ==> {
                    let n = #[trigger] final(self).nodes@[old(self).nodes@.len() + k];
                    &&& n.aabb == old(self).nodes@[i as int].aabb.octant(k)
                    &&& n.children is None
                    &&& n.faces@.len() == 0
                },
    {
        if self.nodes[i].children.is_some() {
            return;
        }
        let len = self.nodes.len();
        proof {
            assert(node_wf(self.nodes@, i as int));
        }
        let boxes = self.nodes[i].aabb.split();
        let ghost old_nodes = self.nodes@;
        let mut k: usize = 0;
        while k < 8
            invariant
                k <= 8,
                i < len,
                len == old_nodes.len(),
                self.nodes@.len() == len + k,
                self.leaves == old(self).leaves,
                self.leaf_size == old(self).leaf_size,
                old_nodes == old(self).nodes@,
                forall|j: int| 0 <= j < len ==> self.nodes@[j] == old_nodes[j],
                forall|m: int| 0 <= m < 8 ==> #[trigger] boxes@[m] == old_nodes[i as int].aabb.octant(m),
                forall|m: int| 0 <= m < 8 ==> (#[trigger] boxes@[m]).wf(),
                forall|m: int|
                    0 <= m < k ==> {
                        let n = #[trigger] self.nodes@[len + m];
                        &&& n.aabb == old_nodes[i as int].aabb.octant(m)
                        &&& n.children is None
                        &&& n.faces@.len() == 0
                    },
            decreases 8 - k,
        {
            self.nodes.push(OctreeNode::new(boxes[k]));
            k = k + 1;
        }
        let c: [usize; 8] = [len, len + 1, len + 2, len + 3, len + 4, len + 5, len + 6, len + 7];
        self.nodes[i].children = Some(c);
        proof {
            let nodes = self.nodes@;
            assert forall|j: int| 0 <= j < nodes.len() implies #[trigger] node_wf(nodes, j) by {
                if j == i {
                    assert forall|k: int| 0 <= k < 8 implies i < #[trigger] c@[k] < nodes.len()
                        && nodes[c@[k] as int].aabb == nodes[i as int].aabb.octant(k) by {
                        assert(c@[k] == len + k);
                        assert(nodes[len + k].aabb == old_nodes[i as int].aabb.octant(k));
                    }
                } else if j < len {
                    assert(node_wf(old_nodes, j));
                    assert(nodes[j] == old_nodes[j]);
                    if let Some(cc) = nodes[j].children {
                        assert forall|k: int| 0 <= k < 8 implies j < #[trigger] cc@[k]
                            < nodes.len() && nodes[cc@[k] as int].aabb == nodes[j].aabb.octant(
                            k,
                        ) by {
                            assert(old_nodes[cc@[k] as int].aabb == nodes[cc@[k] as int].aabb);
                        }
                    }
                } else {
                    let m = j - len;
                    assert(nodes[len + m].aabb == old_nodes[i as int].aabb.octant(m));
                    assert(node_wf(old_nodes, i as int));
                    assert(boxes@[m].wf());
                }
            }
            assert forall|k: int| 0 <= k < self.leaves@.len() implies nodes[#[trigger] self.leaves@[k] as int].children is None by {
                assert(self.leaves@[k] != i);
            }
        }
    }

    /// Subdivide node `i` uniformly `depth` times, appending the cells at
    /// that depth to `leaves` in visiting order.
    fn initialize(&mut self, i: usize, depth: u64)
        requires
            old(self).wf(),
            i < old(self).nodes@.len(),
            old(self).nodes@[i as int].children is None,
            !old(self).leaves@.contains(i),
            all_faces_empty(old(self).nodes@),
            old(self).nodes@.len() + node_total(depth as nat) - 1 <= usize::MAX,
        ensures
            final(self).leaf_size == old(self).leaf_size,
            final(self).wf(),
            all_faces_empty(final(self).nodes@),
            final(self).nodes@.len() == old(self).nodes@.len() + node_total(depth as nat) - 1,
            forall|j: int|
                0 <= j < old(self).nodes@.len() && j != i ==> final(self).nodes@[j] == old(self).nodes@[j],
            final(self).nodes@[i as int].aabb == old(self).nodes@[i as int].aabb,
            children_kept(old(self).nodes@, final(self).nodes@),
            final(self).leaves@.len() >= old(self).leaves@.len(),
            final(self).leaves@.subrange(0, old(self).leaves@.len() as int) == old(self).leaves@,
            cells_of(
                final(self).nodes@,
                final(self).leaves@.subrange(
                    old(self).leaves@.len() as int,
                    final(self).leaves@.len() as int,
                ),
            ) == leaf_cells(old(self).nodes@[i as int].aabb, depth as nat),
            forall|q: int|
                old(self).leaves@.len() <= q < final(self).leaves@.len() ==> #[trigger] final(self).leaves@[q] == i
                    || old(self).nodes@.len() <= final(self).leaves@[q],
            full_shape(final(self).nodes@, final(self).leaves@, i as int, depth as nat),
            settled(final(self).nodes@, final(self).leaves@, i as int),
            forall|j: int|
                old(self).nodes@.len() <= j < final(self).nodes@.len() ==> #[trigger] settled(
                    final(self).nodes@,
                    final(self).leaves@,
                    j,
                ),
            forall|j: int|
                old(self).nodes@.len() <= j < final(self).nodes@.len() ==> #[trigger] has_parent(
                    final(self).nodes@,
                    j,
                ),
        decreases depth,
    {
        let ghost pre = *self;
        let ghost b = self.nodes@[i as int].aabb;
        let ghost l0 = self.leaves@.len() as int;
        let ghost len0 = self.nodes@.len() as int;
        if depth == 0 {
            self.leaves.push(i);
            proof {
                let nodes = self.nodes@;
                let ls = self.leaves@;
                assert forall|k: int, m: int| 0 <= k < m < ls.len() implies #[trigger] ls[k]
                    != #[trigger] ls[m] by {
                    if m == ls.len() - 1 {
                        assert(pre.leaves@[k] == ls[k]);
                        assert(pre.leaves@.contains(ls[k]));
                    }
                }
                assert(self.leaves@.subrange(l0, l0 + 1) =~= seq![i]);
                assert(cells_of(nodes, seq![i]) =~= seq![b]);
                assert(self.leaves@.subrange(0, l0) =~= pre.leaves@);
                assert(ls[l0] == i);
                assert(ls.contains(i));
            }
            return;
        }
        let ghost e = (depth - 1) as nat;
        let ghost nt = node_total(e);
        proof {
            lemma_split_cells(b, depth as nat);
            assert(node_total(depth as nat) == 1 + 8 * nt);
            assert(nt >= 1);
        }
        self.subdivide(i);
        let len = self.nodes.len() - 8;
        proof {
            assert forall|j: int| 0 <= j < self.nodes@.len() implies (
            #[trigger] self.nodes@[j]).faces@.len() == 0 by {
                if j < len0 {
                    assert(pre.nodes@[j].faces@.len() == 0);
                } else {
                    assert(self.nodes@[len0 + (j - len0)].faces@.len() == 0);
                }
            }
            assert(8 * (nt - 1) == 0 * (nt - 1) + 8 * (nt - 1));
            assert forall|j: int| len0 <= j < self.nodes@.len() implies #[trigger] has_parent(self.nodes@, j) by {
                assert(child_of(self.nodes@, i as int, j - len0) == j);
            }
        }
        let mut k: usize = 0;
        while k < 8
            invariant
                k <= 8,
                len == len0,
                i < len0,
                depth >= 1,
                e == depth - 1,
                nt == node_total(e),
                nt >= 1,
                node_total(depth as nat) == 1 + 8 * nt,
                len0 + node_total(depth as nat) - 1 <= usize::MAX,
                leaf_cells(b, depth as nat) == octant_cells(b, e, 8),
                b == pre.nodes@[i as int].aabb,
                self.leaf_size == pre.leaf_size,
                pre == *old(self),
                l0 == pre.leaves@.len(),
                len0 == pre.nodes@.len(),
                self.wf(),
                pre.wf(),
                all_faces_empty(self.nodes@),
                self.nodes@.len() == len0 + 8 + k * (nt - 1),
                forall|j: int| 0 <= j < len0 && j != i ==> self.nodes@[j] == pre.nodes@[j],
                children_kept(pre.nodes@, self.nodes@),
                self.nodes@[i as int].aabb == b,
                self.nodes@[i as int].children == Some(
                    [
                        len0 as usize,
                        (len0 + 1) as usize,
                        (len0 + 2) as usize,
                        (len0 + 3) as usize,
                        (len0 + 4) as usize,
                        (len0 + 5) as usize,
                        (len0 + 6) as usize,
                        (len0 + 7) as usize,
                    ],
                ),
                forall|m: int| 0 <= m < 8 ==> (#[trigger] self.nodes@[len0 + m]).aabb == b.octant(m),
                forall|m: int| k <= m < 8 ==> (#[trigger] self.nodes@[len0 + m]).children is None,
                forall|m: int| 0 <= m < k ==> full_shape(self.nodes@, self.leaves@, #[trigger] (len0 + m), e),
                forall|j: int|
                    len0 <= j < self.nodes@.len() && !(len0 + k <= j < len0 + 8) ==> #[trigger] settled(
                        self.nodes@,
                        self.leaves@,
                        j,
                    ),
                forall|j: int| len0 <= j < self.nodes@.len() ==> #[trigger] has_parent(self.nodes@, j),
                self.leaves@.len() >= l0,
                self.leaves@.subrange(0, l0) == pre.leaves@,
                cells_of(self.nodes@, self.leaves@.subrange(l0, self.leaves@.len() as int))
                    == octant_cells(b, e, k as int),
                forall|q: int|
                    l0 <= q < self.leaves@.len() ==> len0 <= #[trigger] self.leaves@[q] && (
                    self.leaves@[q] < len0 + 8 ==> self.leaves@[q] < len0 + k),
            decreases 8 - k,
        {
            let ghost mid = *self;
            let ghost lm = self.leaves@.len() as int;
            let ghost lenm = self.nodes@.len() as int;
            proof {
                assert(k * (nt - 1) <= 8 * (nt - 1)) by (nonlinear_arith)
                    requires
                        k <= 8,
                        nt >= 1,
                ;
                assert((k + 1) * (nt - 1) <= 8 * (nt - 1)) by (nonlinear_arith)
                    requires
                        k < 8,
                        nt >= 1,
                ;
                assert((k + 1) * (nt - 1) == k * (nt - 1) + (nt - 1)) by (nonlinear_arith);
            }
            let c = len + k;
            proof {
                assert(self.nodes@[len0 + k].aabb == b.octant(k as int));
                assert(!self.leaves@.contains(c)) by {
                    if self.leaves@.contains(c) {
                        let q = choose|q: int| 0 <= q < self.leaves@.len() && self.leaves@[q] == c;
                        if q < l0 {
                            assert(self.leaves@.subrange(0, l0)[q] == c);
                            assert(pre.leaves@[q] == c);
                            assert(c < len0);
                        }
                    }
                }
            }
            self.initialize(c, depth - 1);
            proof {
                let nodes = self.nodes@;
                assert(nodes.len() == lenm + nt - 1);
                assert forall|j: int| 0 <= j < lenm implies #[trigger] nodes[j].aabb == mid.nodes@[j].aabb by {
                    if j != c {
                        assert(nodes[j] == mid.nodes@[j]);
                    }
                }
                let old_part = mid.leaves@.subrange(l0, lm);
                let new_part = self.leaves@.subrange(lm, self.leaves@.len() as int);
                assert(self.leaves@.subrange(0, lm) == mid.leaves@);
                assert(self.leaves@.subrange(l0, self.leaves@.len() as int) =~= old_part + new_part);
                assert forall|q: int| 0 <= q < old_part.len() implies #[trigger] old_part[q] < lenm by {
                    assert(old_part[q] == mid.leaves@[l0 + q]);
                }
                lemma_cells_of_stable(mid.nodes@, nodes, old_part, lenm);
                lemma_cells_of_concat(nodes, old_part, new_part);
                assert(self.leaves@.subrange(0, l0) =~= pre.leaves@) by {
                    assert(self.leaves@.subrange(0, l0) =~= mid.leaves@.subrange(0, l0));
                }
                assert forall|q: int| l0 <= q < self.leaves@.len() implies len0 <= #[trigger] self.leaves@[q]
                    && (self.leaves@[q] < len0 + 8 ==> self.leaves@[q] < len0 + k + 1) by {
                    if q < lm {
                        assert(self.leaves@[q] == mid.leaves@[q]);
                    }
                }
                assert forall|m: int| 0 <= m < 8 implies (#[trigger] self.nodes@[len0 + m]).aabb == b.octant(m) by {
                    assert(mid.nodes@[len0 + m].aabb == b.octant(m));
                }
                assert forall|m: int| k < m < 8 implies (#[trigger] self.nodes@[len0 + m]).children is None by {
                    assert(mid.nodes@[len0 + m].children is None);
                }
                assert(self.nodes@[i as int] == mid.nodes@[i as int]);
                // what held before the call still holds
                assert forall|x: usize| mid.leaves@.contains(x) implies #[trigger] self.leaves@.contains(x) by {
                    let q = choose|q: int| 0 <= q < mid.leaves@.len() && mid.leaves@[q] == x;
                    assert(self.leaves@.subrange(0, lm)[q] == x);
                }
                assert forall|j: int| 0 <= j < pre.nodes@.len() && (#[trigger] pre.nodes@[j]).children is Some
                    implies nodes[j].children == pre.nodes@[j].children by {
                    assert(mid.nodes@[j].children == pre.nodes@[j].children);
                }
                assert forall|m: int| 0 <= m < k + 1 implies full_shape(nodes, self.leaves@, #[trigger] (len0 + m), e) by {
                    if m < k {
                        lemma_shape_stable(mid.nodes@, mid.leaves@, nodes, self.leaves@, len0 + m, e);
                    }
                }
                assert forall|j: int|
                    len0 <= j < nodes.len() && !(len0 + k + 1 <= j < len0 + 8) implies #[trigger] settled(
                        nodes,
                        self.leaves@,
                        j,
                    ) by {
                    if j < lenm && j != c {
                        assert(settled(mid.nodes@, mid.leaves@, j));
                        if mid.nodes@[j].children is None {
                            assert(mid.leaves@.contains(j as usize));
                        }
                    }
                }
                assert forall|j: int| len0 <= j < nodes.len() implies #[trigger] has_parent(nodes, j) by {
                    if j < lenm {
                        lemma_parent_stable(mid.nodes@, nodes, j);
                    }
                }
            }
            k = k + 1;
        }
        proof {
            let nodes = self.nodes@;
            assert forall|q: int| l0 <= q < self.leaves@.len() implies #[trigger] self.leaves@[q] == i
                || len0 <= self.leaves@[q] by {}
            assert forall|m: int| 0 <= m < 8 implies full_shape(nodes, self.leaves@, #[trigger] child_of(nodes, i as int, m), e) by {
                assert(child_of(nodes, i as int, m) == len0 + m);
            }
            assert(full_shape(nodes, self.leaves@, i as int, depth as nat));
        }
    }

    /// The depth of the uniform subdivision: halvings of the smallest side
    /// `s` until it is at most `leaf`.
    fn depth_for(s: i64, leaf: i64) -> (r: u64)
        requires
            leaf >= 1,
            0 <= s <= 0x1_0000_0000,
        ensures
            r == leaf_depth(s as int, leaf as int),
    {
        let mut cur = s;
        let mut d: u64 = 0;
        while cur > leaf
            invariant
                leaf >= 1,
                s <= 0x1_0000_0000,
                0 <= cur <= s,
                d + cur <= s,
                d + leaf_depth(cur as int, leaf as int) == leaf_depth(s as int, leaf as int),
            decreases cur,
        {
            cur = (cur + 1) / 2;
            d = d + 1;
        }
        d
    }

    /// `node_total(d)`, when it fits in a `usize`.
    fn nodes_needed(d: u64) -> (r: Option<usize>)
        ensures
            r matches Some(n) ==> n == node_total(d as nat),
            r is None ==> node_total(d as nat) > usize::MAX,
    {
        let mut total: usize = 1;
        let mut k: u64 = 0;
        while k < d
            invariant
                k <= d,
                total == node_total(k as nat),
            decreases d - k,
        {
            if total > (usize::MAX - 1) / 8 {
                proof {
                    vstd::arithmetic::div_mod::lemma_fundamental_div_mod(usize::MAX - 1, 8);
                    vstd::arithmetic::div_mod::lemma_mod_bound(usize::MAX - 1, 8);
                    assert(node_total((k + 1) as nat) == 1 + 8 * total);
                    lemma_node_total_grows((k + 1) as nat, d as nat);
                }
                return None;
            }
            total = 1 + 8 * total;
            k = k + 1;
        }
        Some(total)
    }

    /// The uniform subdivision of `aabb`: every branch is halved the same
    /// number of times, `leaf_depth` of its smallest side, giving `8^d`
    /// leaf cells and no faces yet. `None` when the tree would need more
    /// nodes than an arena index can count.
    pub fn with_root(aabb: AABB, leaf_size: i64) -> (r: Option<Octree>)
        requires
            aabb.wf(),
            leaf_size >= 1,
        ensures
            ({
                let d = leaf_depth(aabb.min_dim(), leaf_size as int);
                match r {
                    Some(t) => {
                        &&& t.wf()
                        &&& t.leaf_size == leaf_size
                        &&& t.nodes@[0].aabb == aabb
                        &&& t.nodes@.len() == node_total(d)
                        &&& t.leaves@.len() == pow8(d)
                        &&& cells_of(t.nodes@, t.leaves@) == leaf_cells(aabb, d)
                        &&& full_shape(t.nodes@, t.leaves@, 0, d)
                        &&& forall|j: int|
                            0 <= j < t.nodes@.len() ==> ((#[trigger] t.nodes@[j]).children is None
                                <==> t.leaves@.contains(j as usize))
                        &&& forall|j: int| 1 <= j < t.nodes@.len() ==> #[trigger] has_parent(t.nodes@, j)
                        &&& all_faces_empty(t.nodes@)
                    },
                    None => node_total(d) > usize::MAX,
                }
            }),
    {
        proof {
            assert(aabb.min_dim() <= aabb.side(0));
        }
        let depth = Octree::depth_for(aabb.min_size(), leaf_size);
        let total = Octree::nodes_needed(depth);
        if total.is_none() {
            return None;
        }
        let mut nodes: Vec<OctreeNode> = Vec::new();
        nodes.push(OctreeNode::new(aabb));
        let mut t = Octree { nodes, leaves: Vec::new(), leaf_size };
        proof {
            assert(node_wf(t.nodes@, 0));
            assert(t.leaves@.subrange(0, 0) =~= t.leaves@);
        }
        t.initialize(0, depth);
        proof {
            let d = depth as nat;
            assert(t.leaves@.subrange(0, t.leaves@.len() as int) =~= t.leaves@);
            lemma_leaf_cells_len(aabb, d);
            assert(cells_of(t.nodes@, t.leaves@).len() == t.leaves@.len());
            assert forall|j: int| 0 <= j < t.nodes@.len() implies ((#[trigger] t.nodes@[j]).children is None
                <==> t.leaves@.contains(j as usize)) by {
                if j == 0 {
                    assert(settled(t.nodes@, t.leaves@, 0));
                } else {
                    assert(settled(t.nodes@, t.leaves@, j));
                }
                if t.leaves@.contains(j as usize) {
                    let q = choose|q: int| 0 <= q < t.leaves@.len() && t.leaves@[q] == j as usize;
                    assert(t.nodes@[t.leaves@[q] as int].children is None);
                }
            }
        }
        Some(t)
    }

    /// The octree of a mesh: the root cube `root_box` of its bounding box,
    /// subdivided uniformly down to cells of at most one unit.
    pub fn new(mesh: &Mesh) -> (r: Option<Octree>)
        requires
            root_fits(mesh.aabb),
        ensures
            ({
                let root = root_box(mesh.aabb);
                let d = leaf_depth(root.min_dim(), UNIT as int);
                match r {
                    Some(t) => {
                        &&& t.wf()
                        &&& t.leaf_size == UNIT
                        &&& t.nodes@[0].aabb == root
                        &&& t.nodes@.len() == node_total(d)
                        &&& t.leaves@.len() == pow8(d)
                        &&& cells_of(t.nodes@, t.leaves@) == leaf_cells(root, d)
                        &&& full_shape(t.nodes@, t.leaves@, 0, d)
                        &&& forall|j: int|
                            0 <= j < t.nodes@.len() ==> ((#[trigger] t.nodes@[j]).children is None
                                <==> t.leaves@.contains(j as usize))
                        &&& forall|j: int| 1 <= j < t.nodes@.len() ==> #[trigger] has_parent(t.nodes@, j)
                        &&& all_faces_empty(t.nodes@)
                    },
                    None => node_total(d) > usize::MAX,
                }
            }),
    {
        let m = mesh.aabb;
        let low = m.min.min();
        let high = m.max.max();
        let lo = floor_to_unit(low) - UNIT;
        let mut hi = ceil_to_unit(high) + UNIT;
        if hi - lo == high - low {
            hi = hi + UNIT;
        }
        let root = AABB { min: Vec3 { x: lo, y: lo, z: lo }, max: Vec3 { x: hi, y: hi, z: hi } };
        assert(root == root_box(m));
        Octree::with_root(root, UNIT)
    }

    /// Face assignment over the whole tree, worker chunk by worker chunk as
    /// `partition` cuts the leaf list: each chunk is copied out, filled by
    /// `populate` and stored back. Every leaf, the ones past the last equal
    /// chunk included, ends up with exactly the faces that meet it, in
    /// ascending order, whatever the number of workers.
    pub fn assign_faces(&mut self, mesh: &Mesh, face_boxes: &Vec<AABB>, workers: usize)
        requires
            old(self).wf(),
            mesh.wf(),
            face_boxes@.len() == mesh.indices@.len(),
            workers >= 1,
        ensures
            final(self).wf(),
            final(self).leaves == old(self).leaves,
            final(self).leaf_size == old(self).leaf_size,
            final(self).nodes@.len() == old(self).nodes@.len(),
            forall|j: int|
                0 <= j < old(self).nodes@.len() ==> {
                    &&& (#[trigger] final(self).nodes@[j]).aabb == old(self).nodes@[j].aabb
                    &&& final(self).nodes@[j].children == old(self).nodes@[j].children
                },
            forall|q: int|
                0 <= q < old(self).leaves@.len() ==> (#[trigger] final(self).nodes@[old(self).leaves@[q] as int]).faces@
                    == old(self).nodes@[old(self).leaves@[q] as int].faces@ + hits(
                    *mesh,
                    face_boxes@,
                    old(self).nodes@[old(self).leaves@[q] as int].aabb,
                    mesh.indices@.len() as int,
                ),
    {
        let ghost pre = self.nodes@;
        let ghost ls = self.leaves@;
        let n = self.leaves.len();
        let chunks = partition(n, workers);
        let mut w: usize = 0;
        while w < workers
            invariant
                self.wf(),
                mesh.wf(),
                face_boxes@.len() == mesh.indices@.len(),
                workers >= 1,
                w <= workers,
                n == ls.len(),
                self.leaves == old(self).leaves,
                ls == old(self).leaves@,
                pre == old(self).nodes@,
                self.leaf_size == old(self).leaf_size,
                self.nodes@.len() == pre.len(),
                chunks@.len() == workers,
                forall|v: int|
                    0 <= v < workers ==> (#[trigger] chunks@[v]).0 == chunk_start(n as int, workers as int, v)
                        && chunks@[v].1 == chunk_end(n as int, workers as int, v),
                forall|j: int|
                    0 <= j < pre.len() ==> {
                        &&& (#[trigger] self.nodes@[j]).aabb == pre[j].aabb
                        &&& self.nodes@[j].children == pre[j].children
                    },
                forall|q: int|
                    0 <= q < n ==> (#[trigger] self.nodes@[ls[q] as int]).faces@ == if q < (if w < workers {
                        chunk_start(n as int, workers as int, w as int)
                    } else {
                        n as int
                    }) {
                        pre[ls[q] as int].faces@ + hits(
                            *mesh,
                            face_boxes@,
                            pre[ls[q] as int].aabb,
                            mesh.indices@.len() as int,
                        )
                    } else {
                        pre[ls[q] as int].faces@
                    },
            decreases workers - w,
        {
            let (start, end) = chunks[w];
            proof {
                lemma_chunk_bounds(n as int, workers as int, w as int);
            }
            let ghost mid = self.nodes@;
            let mut cells = self.leaf_nodes(start, end);
            proof {
                assert forall|k: int| 0 <= k < cells@.len() implies (#[trigger] cells@[k]).aabb.wf() by {
                    assert(node_wf(self.nodes@, ls[start + k] as int));
                }
            }
            let ghost copies = cells@;
            populate(&mut cells, mesh, face_boxes);
            self.store_faces(start, cells);
            proof {
                let nodes = self.nodes@;
                let done = if w + 1 < workers {
                    chunk_start(n as int, workers as int, w + 1)
                } else {
                    n as int
                };
                assert(done == end);
                assert forall|q: int| 0 <= q < n implies (#[trigger] nodes[ls[q] as int]).faces@ == if q < done {
                    pre[ls[q] as int].faces@ + hits(
                        *mesh,
                        face_boxes@,
                        pre[ls[q] as int].aabb,
                        mesh.indices@.len() as int,
                    )
                } else {
                    pre[ls[q] as int].faces@
                } by {
                    if start <= q < end {
                        let k = q - start;
                        assert(ls[start + k] == ls[q]);
                        assert(copies[k].faces@ == Seq::<usize>::empty());
                        assert(mid[ls[q] as int].faces@ == pre[ls[q] as int].faces@);
                        assert(Seq::<usize>::empty() + hits(*mesh, face_boxes@, copies[k].aabb, mesh.indices@.len() as int)
                            =~= hits(*mesh, face_boxes@, copies[k].aabb, mesh.indices@.len() as int));
                    } else {
                        assert(ls[q] < pre.len());
                        assert forall|k: int| 0 <= k < end - start implies #[trigger] ls[start + k] != ls[q] by {
                            assert(start + k != q);
                        }
                    }
                }
            }
            w = w + 1;
        }
    }

    /// The root node.
    pub fn root(&self) -> (r: &OctreeNode)
        requires
            self.wf(),
        ensures
            *r == self.nodes@[0],
    {
        &self.nodes[0]
    }

    /// Whether node `j` is a leaf without faces.
    fn is_empty_leaf(&self, j: usize) -> (r: bool)
        requires
            j < self.nodes@.len(),
        ensures
            r == (self.nodes@[j as int].children is None && self.nodes@[j as int].faces@.len() == 0),
    {
        self.nodes[j].children.is_none() && self.nodes[j].faces.len() == 0
    }

    /// Collapse every internal node whose subtree holds no face into a
    /// leaf. A node collapses only when all eight of its children are empty;
    /// a node with a face anywhere below it keeps its children. Boxes, face
    /// lists and `leaves` are left as they are.
    pub fn prune(&mut self)
        requires
            old(self).wf(),
        ensures
            final(self).wf(),
            final(self).leaves == old(self).leaves,
            final(self).leaf_size == old(self).leaf_size,
            is_pruned(old(self).nodes@, final(self).nodes@),
    {
        let ghost pre = self.nodes@;
        let mut i: usize = self.nodes.len();
        while i > 0
            invariant
                i <= pre.len(),
                self.nodes@.len() == pre.len(),
                old(self).wf(),
                pre == old(self).nodes@,
                self.leaves == old(self).leaves,
                self.leaf_size == old(self).leaf_size,
                forall|j: int|
                    0 <= j < pre.len() ==> {
                        &&& (#[trigger] self.nodes@[j]).aabb == pre[j].aabb
                        &&& self.nodes@[j].faces == pre[j].faces
                        &&& self.nodes@[j].children == if j >= i {
                            pruned_children(pre, j)
                        } else {
                            pre[j].children
                        }
                    },
            decreases i,
        {
            i = i - 1;
            proof {
                assert(node_wf(pre, i as int));
            }
            if let Some(c) = self.nodes[i].children {
                let mut all_empty = self.nodes[i].faces.len() == 0;
                let mut k: usize = 0;
                while k < 8
                    invariant
                        k <= 8,
                        i < pre.len(),
                        self.nodes@.len() == pre.len(),
                        pre[i as int].children == Some(c),
                        node_wf(pre, i as int),
                        forall|j: int|
                            0 <= j < pre.len() ==> {
                                &&& (#[trigger] self.nodes@[j]).aabb == pre[j].aabb
                                &&& self.nodes@[j].faces == pre[j].faces
                                &&& self.nodes@[j].children == if j > i {
                                    pruned_children(pre, j)
                                } else {
                                    pre[j].children
                                }
                            },
                        all_empty == (pre[i as int].faces@.len() == 0 && forall|m: int|
                            0 <= m < k ==> subtree_empty(pre, #[trigger] c@[m] as int)),
                    decreases 8 - k,
                {
                    let ck = c[k];
                    proof {
                        assert(i < c@[k as int] < pre.len());
                        let n = self.nodes@[ck as int];
                        assert(n.faces == pre[ck as int].faces);
                        reveal_with_fuel(subtree_empty, 2);
                    }
                    if !self.is_empty_leaf(ck) {
                        all_empty = false;
                    }
                    k = k + 1;
                }
                proof {
                    reveal_with_fuel(subtree_empty, 2);
                    assert(all_empty == subtree_empty(pre, i as int));
                }
                if all_empty {
                    self.nodes[i].children = None;
                }
            }
        }
        proof {
            let nodes = self.nodes@;
            assert forall|j: int| 0 <= j < nodes.len() implies #[trigger] node_wf(nodes, j) by {
                assert(node_wf(pre, j));
                if let Some(cc) = nodes[j].children {
                    assert forall|k: int| 0 <= k < 8 implies j < #[trigger] cc@[k] < nodes.len()
                        && nodes[cc@[k] as int].aabb == nodes[j].aabb.octant(k) by {
                        assert(pre[j].children == Some(cc));
                    }
                }
            }
            assert forall|k: int| 0 <= k < self.leaves@.len() implies nodes[#[trigger] self.leaves@[k] as int].children is None by {
                assert(pre[self.leaves@[k] as int].children is None);
            }
        }
    }

    /// Fresh, faceless copies of the leaves `leaves[start..end]`, for a
    /// worker to fill.
    pub fn leaf_nodes(&self, start: usize, end: usize) -> (r: Vec<OctreeNode>)
        requires
            self.wf(),
            start <= end <= self.leaves@.len(),
        ensures
            r@.len() == end - start,
            forall|k: int|
                0 <= k < r@.len() ==> {
                    &&& (#[trigger] r@[k]).aabb == self.nodes@[self.leaves@[start + k] as int].aabb
                    &&& r@[k].children is None
                    &&& r@[k].faces@.len() == 0
                },
    {
        let mut r: Vec<OctreeNode> = Vec::new();
        let mut q: usize = start;
        while q < end
            invariant
                self.wf(),
                start <= q <= end <= self.leaves@.len(),
                r@.len() == q - start,
                forall|k: int|
                    0 <= k < r@.len() ==> {
                        &&& (#[trigger] r@[k]).aabb == self.nodes@[self.leaves@[start + k] as int].aabb
                        &&& r@[k].children is None
                        &&& r@[k].faces@.len() == 0
                    },
            decreases end - q,
        {
            let l = self.leaves[q];
            r.push(OctreeNode::new(self.nodes[l].aabb));
            q = q + 1;
        }
        r
    }

    /// Append to leaf `leaves[start + k]` the faces that `cells[k]` holds,
    /// for each `k`; no other node changes.
    pub fn store_faces(&mut self, start: usize, cells: Vec<OctreeNode>)
        requires
            old(self).wf(),
            start + cells@.len() <= old(self).leaves@.len(),
        ensures
            final(self).wf(),
            final(self).leaves == old(self).leaves,
            final(self).leaf_size == old(self).leaf_size,
            final(self).nodes@.len() == old(self).nodes@.len(),
            forall|j: int|
                0 <= j < old(self).nodes@.len() ==> {
                    &&& (#[trigger] final(self).nodes@[j]).aabb == old(self).nodes@[j].aabb
                    &&& final(self).nodes@[j].children == old(self).nodes@[j].children
                },
            forall|k: int|
                0 <= k < cells@.len() ==> (#[trigger] final(self).nodes@[old(self).leaves@[start
                    + k] as int]).faces@ == old(self).nodes@[old(self).leaves@[start
                    + k] as int].faces@ + cells@[k].faces@,
            forall|j: int|
                0 <= j < old(self).nodes@.len() && (forall|k: int|
                    0 <= k < cells@.len() ==> #[trigger] old(self).leaves@[start + k] != j)
                    ==> (#[trigger] final(self).nodes@[j]).faces == old(self).nodes@[j].faces,
    {
        let ghost pre = self.nodes@;
        let ghost given = cells@;
        let mut cells = cells;
        let n_leaves = self.leaves.len();
        let mut k: usize = 0;
        while k < cells.len()
            invariant
                old(self).wf(),
                pre == old(self).nodes@,
                self.leaves == old(self).leaves,
                self.leaf_size == old(self).leaf_size,
                cells@.len() == given.len(),
                start + given.len() <= self.leaves@.len(),
                n_leaves == self.leaves@.len(),
                k <= given.len(),
                self.nodes@.len() == pre.len(),
                forall|m: int| k <= m < given.len() ==> (#[trigger] cells@[m]).faces == given[m].faces,
                forall|j: int|
                    0 <= j < pre.len() ==> {
                        &&& (#[trigger] self.nodes@[j]).aabb == pre[j].aabb
                        &&& self.nodes@[j].children == pre[j].children
                    },
                forall|m: int|
                    0 <= m < k ==> (#[trigger] self.nodes@[self.leaves@[start + m] as int]).faces@
                        == pre[self.leaves@[start + m] as int].faces@ + given[m].faces@,
                forall|j: int|
                    0 <= j < pre.len() && (forall|m: int|
                        0 <= m < k ==> #[trigger] self.leaves@[start + m] != j) ==> (
                    #[trigger] self.nodes@[j]).faces == pre[j].faces,
            decreases given.len() - k,
        {
            let l = self.leaves[start + k];
            proof {
                assert(l < pre.len());
                assert forall|m: int| 0 <= m < k implies #[trigger] self.leaves@[start + m] != l by {
                    assert(start + m < start + k);
                }
            }
            self.nodes[l].faces.append(&mut cells[k].faces);
            proof {
                assert forall|m: int| 0 <= m < k + 1 implies (#[trigger] self.nodes@[self.leaves@[start
                    + m] as int]).faces@ == pre[self.leaves@[start + m] as int].faces@
                    + given[m].faces@ by {
                    if m < k {
                        assert(self.leaves@[start + m] != l);
                    }
                }
                assert forall|j: int| 0 <= j < pre.len() && (forall|m: int|
                    0 <= m < k + 1 ==> #[trigger] self.leaves@[start + m] != j) implies (
                #[trigger] self.nodes@[j]).faces == pre[j].faces by {
                    assert(self.leaves@[start + k] != j);
                }
            }
            k = k + 1;
        }
        proof {
            let nodes = self.nodes@;
            assert forall|j: int| 0 <= j < nodes.len() implies #[trigger] node_wf(nodes, j) by {
                assert(node_wf(pre, j));
                if let Some(cc) = nodes[j].children {
                    assert forall|m: int| 0 <= m < 8 implies j < #[trigger] cc@[m] < nodes.len()
                        && nodes[cc@[m] as int].aabb == nodes[j].aabb.octant(m) by {
                        assert(nodes[cc@[m] as int].aabb == pre[cc@[m] as int].aabb);
                    }
                }
            }
            assert forall|q: int| 0 <= q < self.leaves@.len() implies nodes[#[trigger] self.leaves@[q] as int].children is None by {
                assert(pre[self.leaves@[q] as int].children is None);
            }
        }
    }
}

/// The work of one worker: test every face of `mesh` against every node of
/// `cells` and record the faces that meet it, in ascending order.
/// `face_boxes[f]` is the bounding box of face `f`.
pub fn populate(cells: &mut Vec<OctreeNode>, mesh: &Mesh, face_boxes: &Vec<AABB>)
    requires
        mesh.wf(),
        face_boxes@.len() == mesh.indices@.len(),
        forall|k: int| 0 <= k < old(cells)@.len() ==> (#[trigger] old(cells)@[k]).aabb.wf(),
    ensures
        final(cells)@.len() == old(cells)@.len(),
        forall|k: int|
            0 <= k < old(cells)@.len() ==> {
                &&& (#[trigger] final(cells)@[k]).aabb == old(cells)@[k].aabb
                &&& final(cells)@[k].children == old(cells)@[k].children
                &&& final(cells)@[k].faces@ == old(cells)@[k].faces@ + hits(
                    *mesh,
                    face_boxes@,
                    old(cells)@[k].aabb,
                    mesh.indices@.len() as int,
                )
            },
{
    let ghost pre = cells@;
    let n_faces = mesh.indices.len();
    let mut k: usize = 0;
    while k < cells.len()
        invariant
            mesh.wf(),
            face_boxes@.len() == mesh.indices@.len(),
            n_faces == mesh.indices@.len(),
            cells@.len() == pre.len(),
            k <= pre.len(),
            pre == old(cells)@,
            forall|m: int| 0 <= m < pre.len() ==> (#[trigger] pre[m]).aabb.wf(),
            forall|m: int| k <= m < pre.len() ==> #[trigger] cells@[m] == pre[m],
            forall|m: int|
                0 <= m < k ==> {
                    &&& (#[trigger] cells@[m]).aabb == pre[m].aabb
                    &&& cells@[m].children == pre[m].children
                    &&& cells@[m].faces@ == pre[m].faces@ + hits(
                        *mesh,
                        face_boxes@,
                        pre[m].aabb,
                        n_faces as int,
                    )
                },
        decreases pre.len() - k,
    {
        let ghost before = cells@;
        let mut f: usize = 0;
        while f < n_faces
            invariant
                mesh.wf(),
                face_boxes@.len() == mesh.indices@.len(),
                n_faces == mesh.indices@.len(),
                cells@.len() == pre.len(),
                k < pre.len(),
                f <= n_faces,
                forall|m: int| 0 <= m < pre.len() ==> (#[trigger] pre[m]).aabb.wf(),
                before.len() == pre.len(),
                forall|m: int| 0 <= m < pre.len() && m != k ==> #[trigger] cells@[m] == before[m],
                cells@[k as int].aabb == pre[k as int].aabb,
                cells@[k as int].children == pre[k as int].children,
                cells@[k as int].faces@ == pre[k as int].faces@ + hits(
                    *mesh,
                    face_boxes@,
                    pre[k as int].aabb,
                    f as int,
                ),
            decreases n_faces - f,
        {
            let t = mesh.face(f);
            cells[k].insert_face(f, &t, &face_boxes[f]);
            proof {
                let h = hits(*mesh, face_boxes@, pre[k as int].aabb, f as int);
                if sat_overlap(mesh.triangle(f as int), face_boxes@[f as int], pre[k as int].aabb) {
                    assert(pre[k as int].faces@ + h.push(f) =~= (pre[k as int].faces@ + h).push(f));
                }
            }
            f = f + 1;
        }
        proof {
            assert forall|m: int| k < m < pre.len() implies #[trigger] cells@[m] == pre[m] by {
                assert(cells@[m] == before[m]);
            }
            assert forall|m: int| 0 <= m < k + 1 implies (#[trigger] cells@[m]).faces@ == pre[m].faces@
                + hits(*mesh, face_boxes@, pre[m].aabb, n_faces as int) by {
                if m < k {
                    assert(cells@[m] == before[m]);
                }
            }
        }
        k = k + 1;
    }
}

} // verus!
