use vstd::prelude::*;
use crate::aabb::{lemma_octant_bits_differ, lemma_octant_bounds, octant_bit, AABB};
use crate::vec3::{Vec3, COORD_LIMIT};

verus! {

/// A direction in space, exact.
pub type Axis = (int, int, int);

/// A direction as held by executable code.
pub type AxisI = (i128, i128, i128);

pub open spec fn axis_view(a: AxisI) -> Axis {
    (a.0 as int, a.1 as int, a.2 as int)
}

pub open spec fn dot(p: Vec3, a: Axis) -> int {
    p.x * a.0 + p.y * a.1 + p.z * a.2
}

pub open spec fn cross(u: Axis, v: Axis) -> Axis {
    (u.1 * v.2 - u.2 * v.1, u.2 * v.0 - u.0 * v.2, u.0 * v.1 - u.1 * v.0)
}

/// The box axis `j` (0 = x, 1 = y, 2 = z).
pub open spec fn unit_axis(j: int) -> Axis {
    if j == 0 {
        (1, 0, 0)
    } else if j == 1 {
        (0, 1, 0)
    } else {
        (0, 0, 1)
    }
}

/// Edge `e` of triangle `t`, from vertex `e` to the next vertex.
pub open spec fn edge(t: Seq<Vec3>, e: int) -> Axis {
    let p = t[e];
    let q = t[(e + 1) % 3];
    (q.x - p.x, q.y - p.y, q.z - p.z)
}

/// The thirteen candidate separating axes of triangle `t` against a box:
/// the three box axes, the nine products of an edge with a box axis, and the
/// face normal. Edge directions are used unnormalised: scaling an axis by a
/// positive factor does not change whether it separates.
pub open spec fn sat_axis(t: Seq<Vec3>, n: int) -> Axis {
    if n < 3 {
        unit_axis(n)
    } else if n < 12 {
        cross(edge(t, (n - 3) / 3), unit_axis((n - 3) % 3))
    } else {
        cross(edge(t, 0), edge(t, 1))
    }
}

pub open spec fn min3(a: int, b: int, c: int) -> int {
    if a <= b && a <= c {
        a
    } else if b <= c {
        b
    } else {
        c
    }
}

pub open spec fn max3(a: int, b: int, c: int) -> int {
    if a >= b && a >= c {
        a
    } else if b >= c {
        b
    } else {
        c
    }
}

/// Lowest projection of the triangle's vertices on `a`.
pub open spec fn tri_lo(t: Seq<Vec3>, a: Axis) -> int {
    min3(dot(t[0], a), dot(t[1], a), dot(t[2], a))
}

/// Highest projection of the triangle's vertices on `a`.
pub open spec fn tri_hi(t: Seq<Vec3>, a: Axis) -> int {
    max3(dot(t[0], a), dot(t[1], a), dot(t[2], a))
}

/// Corner `k` of the box: the upper end along axis `j` when bit `j` of `k` is set.
pub open spec fn corner(b: AABB, k: int) -> Vec3 {
    Vec3 {
        x: if k % 2 == 0 { b.min.x } else { b.max.x },
        y: if (k / 2) % 2 == 0 { b.min.y } else { b.max.y },
        z: if (k / 4) % 2 == 0 { b.min.z } else { b.max.z },
    }
}

/// Lowest projection on `a` of corners `0..n` of the box.
pub open spec fn box_lo_upto(b: AABB, a: Axis, n: int) -> int
    decreases n,
{
    if n <= 1 {
        dot(corner(b, 0), a)
    } else {
        let m = box_lo_upto(b, a, n - 1);
        let d = dot(corner(b, n - 1), a);
        if d < m {
            d
        } else {
            m
        }
    }
}

/// Highest projection on `a` of corners `0..n` of the box.
pub open spec fn box_hi_upto(b: AABB, a: Axis, n: int) -> int
    decreases n,
{
    if n <= 1 {
        dot(corner(b, 0), a)
    } else {
        let m = box_hi_upto(b, a, n - 1);
        let d = dot(corner(b, n - 1), a);
        if d > m {
            d
        } else {
            m
        }
    }
}

pub open spec fn box_lo(b: AABB, a: Axis) -> int {
    box_lo_upto(b, a, 8)
}

pub open spec fn box_hi(b: AABB, a: Axis) -> int {
    box_hi_upto(b, a, 8)
}

/// `a` is a real direction and the projections of triangle and box on it
/// leave a gap. A zero axis never separates.
pub open spec fn separates(t: Seq<Vec3>, b: AABB, a: Axis) -> bool {
    a != (0int, 0int, 0int) && (tri_hi(t, a) < box_lo(b, a) || box_hi(b, a) < tri_lo(t, a))
}

/// The separating-axis test: the triangle's bounding box `tb` meets the box,
/// and none of the thirteen candidate axes separates triangle and box.
pub open spec fn sat_overlap(t: Seq<Vec3>, tb: AABB, b: AABB) -> bool {
    tb.overlaps(b) && forall|n: int| 0 <= n < 13 ==> !#[trigger] separates(t, b, sat_axis(t, n))
}

pub open spec fn tri_in_range(t: Seq<Vec3>) -> bool {
    t.len() == 3 && t[0].in_range() && t[1].in_range() && t[2].in_range()
}

/// Largest magnitude of an axis component.
pub const AXIS_LIMIT: i128 = 0x4_0000_0000_0000_0000;

pub open spec fn axis_bounded(a: AxisI, lim: int) -> bool {
    -lim <= a.0 <= lim && -lim <= a.1 <= lim && -lim <= a.2 <= lim
}

proof fn lemma_mul_bound(x: int, y: int)
    requires
        -COORD_LIMIT <= x <= COORD_LIMIT,
        -AXIS_LIMIT <= y <= AXIS_LIMIT,
    ensures
        -0x2_0000_0000_0000_0000_0000_0000 <= x * y <= 0x2_0000_0000_0000_0000_0000_0000,
{
    assert(-0x2_0000_0000_0000_0000_0000_0000 <= x * y <= 0x2_0000_0000_0000_0000_0000_0000)
        by (nonlinear_arith)
        requires
            -0x8000_0000 <= x <= 0x8000_0000,
            -0x4_0000_0000_0000_0000 <= y <= 0x4_0000_0000_0000_0000,
    ;
}

proof fn lemma_mul_bound_small(x: int, y: int)
    requires
        -0x1_0000_0000 <= x <= 0x1_0000_0000,
        -0x1_0000_0000 <= y <= 0x1_0000_0000,
    ensures
        -0x1_0000_0000_0000_0000 <= x * y <= 0x1_0000_0000_0000_0000,
{
    assert(-0x1_0000_0000_0000_0000 <= x * y <= 0x1_0000_0000_0000_0000) by (nonlinear_arith)
        requires
            -0x1_0000_0000 <= x <= 0x1_0000_0000,
            -0x1_0000_0000 <= y <= 0x1_0000_0000,
    ;
}

/// Projection of `p` on `a`.
fn dot_exec(p: &Vec3, a: &AxisI) -> (r: i128)
    requires
        p.in_range(),
        axis_bounded(*a, AXIS_LIMIT as int),
    ensures
        r == dot(*p, axis_view(*a)),
{
    proof {
        lemma_mul_bound(p.x as int, a.0 as int);
        lemma_mul_bound(p.y as int, a.1 as int);
        lemma_mul_bound(p.z as int, a.2 as int);
    }
    (p.x as i128) * a.0 + (p.y as i128) * a.1 + (p.z as i128) * a.2
}

fn cross_exec(u: &AxisI, v: &AxisI) -> (r: AxisI)
    requires
        axis_bounded(*u, 0x1_0000_0000),
        axis_bounded(*v, 0x1_0000_0000),
    ensures
        axis_view(r) == cross(axis_view(*u), axis_view(*v)),
        axis_bounded(r, AXIS_LIMIT as int),
{
    proof {
        lemma_mul_bound_small(u.1 as int, v.2 as int);
        lemma_mul_bound_small(u.2 as int, v.1 as int);
        lemma_mul_bound_small(u.2 as int, v.0 as int);
        lemma_mul_bound_small(u.0 as int, v.2 as int);
        lemma_mul_bound_small(u.0 as int, v.1 as int);
        lemma_mul_bound_small(u.1 as int, v.0 as int);
    }
    (u.1 * v.2 - u.2 * v.1, u.2 * v.0 - u.0 * v.2, u.0 * v.1 - u.1 * v.0)
}

fn unit_axis_exec(j: usize) -> (r: AxisI)
    requires
        j < 3,
    ensures
        axis_view(r) == unit_axis(j as int),
        axis_bounded(r, 1),
{
    if j == 0 {
        (1, 0, 0)
    } else if j == 1 {
        (0, 1, 0)
    } else {
        (0, 0, 1)
    }
}

fn edge_exec(t: &[Vec3; 3], e: usize) -> (r: AxisI)
    requires
        tri_in_range(t@),
        e < 3,
    ensures
        axis_view(r) == edge(t@, e as int),
        axis_bounded(r, 0x1_0000_0000),
{
    let p = t[e];
    let q = t[(e + 1) % 3];
    ((q.x - p.x) as i128, (q.y - p.y) as i128, (q.z - p.z) as i128)
}

/// Candidate separating axis `n` of the triangle.
fn sat_axis_exec(t: &[Vec3; 3], n: usize) -> (r: AxisI)
    requires
        tri_in_range(t@),
        n < 13,
    ensures
        axis_view(r) == sat_axis(t@, n as int),
        axis_bounded(r, AXIS_LIMIT as int),
{
    if n < 3 {
        unit_axis_exec(n)
    } else if n < 12 {
        cross_exec(&edge_exec(t, (n - 3) / 3), &unit_axis_exec((n - 3) % 3))
    } else {
        cross_exec(&edge_exec(t, 0), &edge_exec(t, 1))
    }
}

/// Lowest and highest projection of the triangle's vertices on `axis`.
fn project_triangle_on_axis(t: &[Vec3; 3], axis: &AxisI) -> (r: (i128, i128))
    requires
        tri_in_range(t@),
        axis_bounded(*axis, AXIS_LIMIT as int),
    ensures
        r.0 == tri_lo(t@, axis_view(*axis)),
        r.1 == tri_hi(t@, axis_view(*axis)),
{
    let d0 = dot_exec(&t[0], axis);
    let d1 = dot_exec(&t[1], axis);
    let d2 = dot_exec(&t[2], axis);
    let lo = if d0 <= d1 && d0 <= d2 {
        d0
    } else if d1 <= d2 {
        d1
    } else {
        d2
    };
    let hi = if d0 >= d1 && d0 >= d2 {
        d0
    } else if d1 >= d2 {
        d1
    } else {
        d2
    };
    (lo, hi)
}

fn corner_exec(b: &AABB, k: usize) -> (r: Vec3)
    requires
        k < 8,
    ensures
        r == corner(*b, k as int),
{
    Vec3 {
        x: if k % 2 == 0 { b.min.x } else { b.max.x },
        y: if (k / 2) % 2 == 0 { b.min.y } else { b.max.y },
        z: if (k / 4) % 2 == 0 { b.min.z } else { b.max.z },
    }
}

/// Lowest and highest projection of the box's eight corners on `axis`.
fn project_aabb_on_axis(b: &AABB, axis: &AxisI) -> (r: (i128, i128))
    requires
        b.wf(),
        axis_bounded(*axis, AXIS_LIMIT as int),
    ensures
        r.0 == box_lo(*b, axis_view(*axis)),
        r.1 == box_hi(*b, axis_view(*axis)),
{
    let ghost a = axis_view(*axis);
    let mut lo = dot_exec(&corner_exec(b, 0), axis);
    let mut hi = lo;
    let mut k: usize = 1;
    while k < 8
        invariant
            1 <= k <= 8,
            b.wf(),
            axis_bounded(*axis, AXIS_LIMIT as int),
            a == axis_view(*axis),
            lo == box_lo_upto(*b, a, k as int),
            hi == box_hi_upto(*b, a, k as int),
        decreases 8 - k,
    {
        let c = corner_exec(b, k);
        assert(c.in_range());
        let d = dot_exec(&c, axis);
        if d < lo {
            lo = d;
        }
        if d > hi {
            hi = d;
        }
        k = k + 1;
    }
    (lo, hi)
}

/// Whether `axis` fails to separate the triangle from the box.
fn overlap_on_axis(t: &[Vec3; 3], b: &AABB, axis: &AxisI) -> (r: bool)
    requires
        tri_in_range(t@),
        b.wf(),
        axis_bounded(*axis, AXIS_LIMIT as int),
    ensures
        r == !separates(t@, *b, axis_view(*axis)),
{
    if axis.0 == 0 && axis.1 == 0 && axis.2 == 0 {
        return true;
    }
    let (tri_min, tri_max) = project_triangle_on_axis(t, axis);
    let (box_min, box_max) = project_aabb_on_axis(b, axis);
    tri_max >= box_min && box_max >= tri_min
}

/// Exact test whether the triangle `vertices` meets the box `aabb` (closed
/// sets: touching counts). `tri_box` is the triangle's bounding box, used
/// first to reject quickly.
pub fn triangle_aabb_intersection(vertices: &[Vec3; 3], tri_box: &AABB, aabb: &AABB) -> (r: bool)
    requires
        tri_in_range(vertices@),
        aabb.wf(),
    ensures
        r == sat_overlap(vertices@, *tri_box, *aabb),
{
    if !tri_box.overlap(aabb) {
        return false;
    }
    let mut n: usize = 0;
    while n < 13
        invariant
            n <= 13,
            tri_in_range(vertices@),
            aabb.wf(),
            forall|m: int| 0 <= m < n ==> !#[trigger] separates(vertices@, *aabb, sat_axis(vertices@, m)),
        decreases 13 - n,
    {
        let axis = sat_axis_exec(vertices, n);
        if !overlap_on_axis(vertices, aabb, &axis) {
            return false;
        }
        n = n + 1;
    }
    true
}

proof fn lemma_box_lo_upto_le(b: AABB, a: Axis, n: int, m: int)
    requires
        0 <= m < n,
    ensures
        box_lo_upto(b, a, n) <= dot(corner(b, m), a),
    decreases n,
{
    if n > 1 && m < n - 1 {
        lemma_box_lo_upto_le(b, a, n - 1, m);
    }
}

proof fn lemma_box_hi_upto_ge(b: AABB, a: Axis, n: int, m: int)
    requires
        0 <= m < n,
    ensures
        box_hi_upto(b, a, n) >= dot(corner(b, m), a),
    decreases n,
{
    if n > 1 && m < n - 1 {
        lemma_box_hi_upto_ge(b, a, n - 1, m);
    }
}

proof fn lemma_mul_le(s: int, x: int, y: int)
    requires
        x <= y,
    ensures
        s >= 0 ==> s * x <= s * y,
        s < 0 ==> s * x >= s * y,
{
    if s >= 0 {
        assert(s * x <= s * y) by (nonlinear_arith)
            requires
                s >= 0,
                x <= y,
        ;
    } else {
        assert(s * x >= s * y) by (nonlinear_arith)
            requires
                s < 0,
                x <= y,
        ;
    }
}

/// A point of a box projects between the box's lowest and highest corner.
pub proof fn lemma_point_in_box_projection(b: AABB, a: Axis, p: Vec3)
    requires
        b.contains(p),
    ensures
        box_lo(b, a) <= dot(p, a) <= box_hi(b, a),
{
    assert(b.lo(0) <= p.at(0) <= b.hi(0));
    assert(b.lo(1) <= p.at(1) <= b.hi(1));
    assert(b.lo(2) <= p.at(2) <= b.hi(2));
    lemma_mul_le(a.0, b.min.x as int, p.x as int);
    lemma_mul_le(a.0, p.x as int, b.max.x as int);
    lemma_mul_le(a.1, b.min.y as int, p.y as int);
    lemma_mul_le(a.1, p.y as int, b.max.y as int);
    lemma_mul_le(a.2, b.min.z as int, p.z as int);
    lemma_mul_le(a.2, p.z as int, b.max.z as int);
    let klo = (if a.0 >= 0 { 0int } else { 1int }) + (if a.1 >= 0 { 0int } else { 2int }) + (if a.2
        >= 0 { 0int } else { 4int });
    let khi = 7 - klo;
    assert(0 <= klo < 8 && klo % 2 == (if a.0 >= 0 { 0int } else { 1int }) && (klo / 2) % 2 == (
    if a.1 >= 0 { 0int } else { 1int }) && (klo / 4) % 2 == (if a.2 >= 0 { 0int } else { 1int }));
    assert(khi % 2 == 1 - klo % 2 && (khi / 2) % 2 == 1 - (klo / 2) % 2 && (khi / 4) % 2 == 1 - (klo
        / 4) % 2);
    let lo_c = corner(b, klo);
    let hi_c = corner(b, khi);
    assert(a.0 * lo_c.x <= a.0 * p.x && a.1 * lo_c.y <= a.1 * p.y && a.2 * lo_c.z <= a.2 * p.z);
    assert(a.0 * hi_c.x >= a.0 * p.x && a.1 * hi_c.y >= a.1 * p.y && a.2 * hi_c.z >= a.2 * p.z);
    lemma_box_lo_upto_le(b, a, 8, klo);
    lemma_box_hi_upto_ge(b, a, 8, khi);
}

/// A triangle with a vertex in the box (its boundary included) is found to
/// meet the box, when `tb` is the triangle's bounding box.
pub proof fn lemma_vertex_in_box_meets(t: Seq<Vec3>, tb: AABB, b: AABB, i: int)
    requires
        tri_in_range(t),
        tb.bounds(t),
        0 <= i < 3,
        b.contains(t[i]),
    ensures
        sat_overlap(t, tb, b),
{
    let p = t[i];
    assert forall|j: int| 0 <= j < 3 implies tb.lo(j) <= #[trigger] p.at(j) <= tb.hi(j)
        && b.lo(j) <= p.at(j) <= b.hi(j) by {
        assert(tb.contains(t[i]));
    }
    assert(tb.overlaps(b)) by {
        assert(tb.lo(0) <= p.at(0) <= tb.hi(0) && b.lo(0) <= p.at(0) <= b.hi(0));
        assert(tb.lo(1) <= p.at(1) <= tb.hi(1) && b.lo(1) <= p.at(1) <= b.hi(1));
        assert(tb.lo(2) <= p.at(2) <= tb.hi(2) && b.lo(2) <= p.at(2) <= b.hi(2));
    }
    assert forall|n: int| 0 <= n < 13 implies !#[trigger] separates(t, b, sat_axis(t, n)) by {
        lemma_point_in_box_projection(b, sat_axis(t, n), p);
    }
}

/// A triangle strictly inside octant `k` of `b` is found to meet that
/// octant and none of the seven others, when `tb` is its bounding box.
pub proof fn lemma_interior_triangle_one_octant(b: AABB, k: int, t: Seq<Vec3>, tb: AABB)
    requires
        b.wf(),
        0 <= k < 8,
        tri_in_range(t),
        tb.bounds(t),
        forall|i: int, j: int|
            0 <= i < 3 && 0 <= j < 3 ==> b.octant(k).lo(j) < #[trigger] t[i].at(j) < b.octant(k).hi(j),
    ensures
        sat_overlap(t, tb, b.octant(k)),
        forall|m: int| 0 <= m < 8 && m != k ==> !#[trigger] sat_overlap(t, tb, b.octant(m)),
{
    let c = b.octant(k);
    lemma_octant_bounds(b, k);
    assert forall|j: int| 0 <= j < 3 implies c.lo(j) <= #[trigger] tb.lo(j) && tb.hi(j) <= c.hi(j) by {
        let i1 = choose|i: int| 0 <= i < t.len() && tb.lo(j) == (#[trigger] t[i]).at(j);
        let i2 = choose|i: int| 0 <= i < t.len() && tb.hi(j) == (#[trigger] t[i]).at(j);
        assert(c.lo(j) < t[i1].at(j) < c.hi(j));
        assert(c.lo(j) < t[i2].at(j) < c.hi(j));
    }
    assert(c.contains(t[0])) by {
        assert forall|j: int| 0 <= j < 3 implies c.lo(j) <= #[trigger] t[0].at(j) <= c.hi(j) by {
            assert(c.lo(j) < t[0].at(j) < c.hi(j));
        }
    }
    lemma_vertex_in_box_meets(t, tb, c, 0);
    assert forall|m: int| 0 <= m < 8 && m != k implies !#[trigger] sat_overlap(t, tb, b.octant(m)) by {
        lemma_octant_bits_differ(k, m);
        let j = choose|j: int| 0 <= j < 3 && #[trigger] octant_bit(k, j) != octant_bit(m, j);
        lemma_octant_bounds(b, m);
        let d = b.octant(m);
        assert(c.lo(j) <= tb.lo(j) && tb.hi(j) <= c.hi(j));
        let i1 = choose|i: int| 0 <= i < t.len() && tb.lo(j) == (#[trigger] t[i]).at(j);
        let i2 = choose|i: int| 0 <= i < t.len() && tb.hi(j) == (#[trigger] t[i]).at(j);
        assert(c.lo(j) < t[i1].at(j) < c.hi(j));
        assert(c.lo(j) < t[i2].at(j) < c.hi(j));
        assert(tb.hi(j) < d.lo(j) || d.hi(j) < tb.lo(j));
        if j == 0 {
        } else if j == 1 {
        } else {
        }
        assert(!tb.overlaps(d));
    }
}

} // verus!
