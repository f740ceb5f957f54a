use vstd::prelude::*;
use crate::vec3::{Vec3, COORD_LIMIT};

verus! {

/// An axis-aligned box given by its lowest and highest corners.
#[derive(Clone, Copy, Debug, PartialEq, Eq, Structural)]
pub struct AABB {
    pub min: Vec3,
    pub max: Vec3,
}

/// Bit `j` of octant index `k`: 0 picks the lower half along axis `j`.
pub open spec fn octant_bit(k: int, j: int) -> int {
    if j == 0 {
        k % 2
    } else if j == 1 {
        (k / 2) % 2
    } else {
        (k / 4) % 2
    }
}

/// The point where an interval is cut in two (rounded down).
pub open spec fn midpoint(lo: int, hi: int) -> int {
    lo + (hi - lo) / 2
}

/// A Vec3 from three integers.
pub open spec fn vec3_of(x: int, y: int, z: int) -> Vec3 {
    Vec3 { x: x as i64, y: y as i64, z: z as i64 }
}

impl AABB {
    /// Corners ordered componentwise and inside the coordinate range.
    pub open spec fn wf(&self) -> bool {
        &&& self.min.in_range()
        &&& self.max.in_range()
        &&& self.min.x <= self.max.x
        &&& self.min.y <= self.max.y
        &&& self.min.z <= self.max.z
    }

    pub open spec fn lo(&self, j: int) -> int {
        self.min.at(j)
    }

    pub open spec fn hi(&self, j: int) -> int {
        self.max.at(j)
    }

    /// Length of the box along axis `j`.
    pub open spec fn side(&self, j: int) -> int {
        self.hi(j) - self.lo(j)
    }

    pub open spec fn min_dim(&self) -> int {
        if self.side(0) <= self.side(1) && self.side(0) <= self.side(2) {
            self.side(0)
        } else if self.side(1) <= self.side(2) {
            self.side(1)
        } else {
            self.side(2)
        }
    }

    pub open spec fn volume(&self) -> int {
        self.side(0) * self.side(1) * self.side(2)
    }

    pub open spec fn contains(&self, p: Vec3) -> bool {
        forall|j: int| 0 <= j < 3 ==> self.lo(j) <= #[trigger] p.at(j) <= self.hi(j)
    }

    /// Both boxes meet on every axis (touching counts).
    pub open spec fn overlaps(&self, o: AABB) -> bool {
        &&& self.lo(0) <= o.hi(0) && o.lo(0) <= self.hi(0)
        &&& self.lo(1) <= o.hi(1) && o.lo(1) <= self.hi(1)
        &&& self.lo(2) <= o.hi(2) && o.lo(2) <= self.hi(2)
    }

    /// Lower bound of octant `k` along axis `j`.
    pub open spec fn octant_lo(&self, k: int, j: int) -> int {
        if octant_bit(k, j) == 0 {
            self.lo(j)
        } else {
            midpoint(self.lo(j), self.hi(j))
        }
    }

    /// Upper bound of octant `k` along axis `j`.
    pub open spec fn octant_hi(&self, k: int, j: int) -> int {
        if octant_bit(k, j) == 0 {
            midpoint(self.lo(j), self.hi(j))
        } else {
            self.hi(j)
        }
    }

    /// Octant `k` of the box: the lower or upper half along each axis.
    pub open spec fn octant(&self, k: int) -> AABB {
        AABB {
            min: vec3_of(self.octant_lo(k, 0), self.octant_lo(k, 1), self.octant_lo(k, 2)),
            max: vec3_of(self.octant_hi(k, 0), self.octant_hi(k, 1), self.octant_hi(k, 2)),
        }
    }

    /// The tightest box around `pts`: it holds every point, and each of its
    /// faces touches one.
    pub open spec fn bounds(&self, pts: Seq<Vec3>) -> bool {
        &&& self.wf()
        &&& forall|i: int| 0 <= i < pts.len() ==> self.contains(#[trigger] pts[i])
        &&& forall|j: int|
            0 <= j < 3 ==> exists|i: int| 0 <= i < pts.len() && #[trigger] self.lo(j) == (#[trigger] pts[i]).at(j)
        &&& forall|j: int|
            0 <= j < 3 ==> exists|i: int| 0 <= i < pts.len() && #[trigger] self.hi(j) == (#[trigger] pts[i]).at(j)
    }

    pub fn new(min: Vec3, max: Vec3) -> (r: AABB)
        ensures
            r.min == min,
            r.max == max,
    {
        AABB { min, max }
    }

    /// The tightest box holding all of `points`.
    pub fn from(points: &[Vec3]) -> (r: AABB)
        requires
            points@.len() >= 1,
            forall|i: int| 0 <= i < points@.len() ==> (#[trigger] points@[i]).in_range(),
        ensures
            r.bounds(points@),
    {
        let mut lo = points[0];
        let mut hi = points[0];
        let mut n: usize = 1;
        while n < points.len()
            invariant
                1 <= n <= points@.len(),
                forall|i: int| 0 <= i < points@.len() ==> (#[trigger] points@[i]).in_range(),
                lo.in_range(),
                hi.in_range(),
                lo.x <= hi.x && lo.y <= hi.y && lo.z <= hi.z,
                forall|i: int, j: int|
                    0 <= i < n && 0 <= j < 3 ==> lo.at(j) <= #[trigger] points@[i].at(j) <= hi.at(j),
                forall|j: int|
                    0 <= j < 3 ==> exists|i: int| 0 <= i < n && #[trigger] lo.at(j) == (#[trigger] points@[i]).at(j),
                forall|j: int|
                    0 <= j < 3 ==> exists|i: int| 0 <= i < n && #[trigger] hi.at(j) == (#[trigger] points@[i]).at(j),
            decreases points@.len() - n,
        {
            let p = points[n];
            let ghost (lo0, hi0) = (lo, hi);
            if p.x < lo.x {
                lo.x = p.x;
            }
            if p.y < lo.y {
                lo.y = p.y;
            }
            if p.z < lo.z {
                lo.z = p.z;
            }
            if p.x > hi.x {
                hi.x = p.x;
            }
            if p.y > hi.y {
                hi.y = p.y;
            }
            if p.z > hi.z {
                hi.z = p.z;
            }
            proof {
                assert forall|j: int| 0 <= j < 3 implies exists|i: int|
                    0 <= i < n + 1 && #[trigger] lo.at(j) == (#[trigger] points@[i]).at(j) by {
                    if lo.at(j) == p.at(j) {
                        assert(points@[n as int] == p);
                    } else {
                        assert(lo.at(j) == lo0.at(j));
                        let i = choose|i: int| 0 <= i < n && lo0.at(j) == (#[trigger] points@[i]).at(j);
                        assert(points@[i].at(j) == lo.at(j));
                    }
                }
                assert forall|j: int| 0 <= j < 3 implies exists|i: int|
                    0 <= i < n + 1 && #[trigger] hi.at(j) == (#[trigger] points@[i]).at(j) by {
                    if hi.at(j) == p.at(j) {
                        assert(points@[n as int] == p);
                    } else {
                        assert(hi.at(j) == hi0.at(j));
                        let i = choose|i: int| 0 <= i < n && hi0.at(j) == (#[trigger] points@[i]).at(j);
                        assert(points@[i].at(j) == hi.at(j));
                    }
                }
            }
            n = n + 1;
        }
        let r = AABB { min: lo, max: hi };
        assert forall|i: int| 0 <= i < points@.len() implies r.contains(#[trigger] points@[i]) by {
            assert forall|j: int| 0 <= j < 3 implies r.lo(j) <= #[trigger] points@[i].at(j) <= r.hi(j) by {}
        }
        assert forall|j: int| 0 <= j < 3 implies exists|i: int|
            0 <= i < points@.len() && #[trigger] r.lo(j) == (#[trigger] points@[i]).at(j) by {}
        assert forall|j: int| 0 <= j < 3 implies exists|i: int|
            0 <= i < points@.len() && #[trigger] r.hi(j) == (#[trigger] points@[i]).at(j) by {}
        r
    }

    /// Middle of the box (rounded down on each axis).
    pub fn center(&self) -> (r: Vec3)
        requires
            self.wf(),
        ensures
            forall|j: int| 0 <= j < 3 ==> #[trigger] r.at(j) == midpoint(self.lo(j), self.hi(j)),
    {
        Vec3 {
            x: mid_of(self.min.x, self.max.x),
            y: mid_of(self.min.y, self.max.y),
            z: mid_of(self.min.z, self.max.z),
        }
    }

    /// Extent of the box along each axis.
    pub fn size(&self) -> (r: Vec3)
        requires
            self.wf(),
        ensures
            forall|j: int| 0 <= j < 3 ==> #[trigger] r.at(j) == self.side(j),
    {
        Vec3 { x: self.max.x - self.min.x, y: self.max.y - self.min.y, z: self.max.z - self.min.z }
    }

    /// Half the extent along each axis (rounded down).
    pub fn half_size(&self) -> (r: Vec3)
        requires
            self.wf(),
        ensures
            forall|j: int| 0 <= j < 3 ==> #[trigger] r.at(j) == self.side(j) / 2,
    {
        Vec3 {
            x: (self.max.x - self.min.x) / 2,
            y: (self.max.y - self.min.y) / 2,
            z: (self.max.z - self.min.z) / 2,
        }
    }

    /// The smallest extent over the three axes.
    pub fn min_size(&self) -> (r: i64)
        requires
            self.wf(),
        ensures
            r == self.min_dim(),
    {
        let s = self.size();
        assert(s.at(0) == self.side(0) && s.at(1) == self.side(1) && s.at(2) == self.side(2));
        s.min()
    }

    /// Whether the boxes meet on all three axes (shared faces count).
    pub fn overlap(&self, other: &AABB) -> (r: bool)
        ensures
            r == self.overlaps(*other),
    {
        let r = self.min.x <= other.max.x && other.min.x <= self.max.x && self.min.y <= other.max.y
            && other.min.y <= self.max.y && self.min.z <= other.max.z && other.min.z <= self.max.z;
        r
    }

    /// Octant `k` of the box.
    fn octant_at(&self, k: usize) -> (r: AABB)
        requires
            self.wf(),
            k < 8,
        ensures
            r == self.octant(k as int),
            r.wf(),
    {
        let mx = mid_of(self.min.x, self.max.x);
        let my = mid_of(self.min.y, self.max.y);
        let mz = mid_of(self.min.z, self.max.z);
        let (x0, x1) = if k % 2 == 0 { (self.min.x, mx) } else { (mx, self.max.x) };
        let (y0, y1) = if (k / 2) % 2 == 0 { (self.min.y, my) } else { (my, self.max.y) };
        let (z0, z1) = if (k / 4) % 2 == 0 { (self.min.z, mz) } else { (mz, self.max.z) };
        AABB { min: Vec3 { x: x0, y: y0, z: z0 }, max: Vec3 { x: x1, y: y1, z: z1 } }
    }

    /// The eight octants; octant `i` takes the upper half along axis `j`
    /// exactly when bit `j` of `i` is set.
    pub fn split(&self) -> (r: [AABB; 8])
        requires
            self.wf(),
        ensures
            forall|k: int| 0 <= k < 8 ==> #[trigger] r@[k] == self.octant(k),
            forall|k: int| 0 <= k < 8 ==> (#[trigger] r@[k]).wf(),
    {
        let r = [
            self.octant_at(0),
            self.octant_at(1),
            self.octant_at(2),
            self.octant_at(3),
            self.octant_at(4),
            self.octant_at(5),
            self.octant_at(6),
            self.octant_at(7),
        ];
        assert forall|k: int| 0 <= k < 8 implies #[trigger] r@[k] == self.octant(k) && r@[k].wf() by {
            if k == 0 {} else if k == 1 {} else if k == 2 {} else if k == 3 {}
            else if k == 4 {} else if k == 5 {} else if k == 6 {} else {}
        }
        r
    }
}

/// The midpoint of `[lo, hi]`, rounded down.
fn mid_of(lo: i64, hi: i64) -> (r: i64)
    requires
        -COORD_LIMIT <= lo <= hi <= COORD_LIMIT,
    ensures
        r == midpoint(lo as int, hi as int),
        lo <= r <= hi,
{
    lo + (hi - lo) / 2
}

/// Bounds of octant `k` along each axis, read off its corners.
pub proof fn lemma_octant_bounds(b: AABB, k: int)
    requires
        b.wf(),
        0 <= k < 8,
    ensures
        forall|j: int| 0 <= j < 3 ==> #[trigger] b.octant(k).lo(j) == b.octant_lo(k, j),
        forall|j: int| 0 <= j < 3 ==> #[trigger] b.octant(k).hi(j) == b.octant_hi(k, j),
        forall|j: int|
            0 <= j < 3 ==> b.lo(j) <= #[trigger] midpoint(b.lo(j), b.hi(j)) <= b.hi(j),
        b.octant(k).wf(),
{
    assert forall|j: int| 0 <= j < 3 implies b.lo(j) <= #[trigger] midpoint(b.lo(j), b.hi(j))
        <= b.hi(j) by {
        if j == 0 {} else if j == 1 {} else {}
    }
    let m0 = midpoint(b.lo(0), b.hi(0));
    let m1 = midpoint(b.lo(1), b.hi(1));
    let m2 = midpoint(b.lo(2), b.hi(2));
    assert(b.lo(0) <= m0 <= b.hi(0) && b.lo(1) <= m1 <= b.hi(1) && b.lo(2) <= m2 <= b.hi(2));
    assert forall|j: int| 0 <= j < 3 implies #[trigger] b.octant(k).lo(j) == b.octant_lo(k, j)
        && b.octant(k).hi(j) == b.octant_hi(k, j) by {
        if j == 0 {} else if j == 1 {} else {}
    }
}

/// Octant index whose octant holds `p`, a point of `b`.
pub open spec fn octant_index_of(b: AABB, p: Vec3) -> int {
    (if p.x <= midpoint(b.lo(0), b.hi(0)) { 0int } else { 1int })
        + (if p.y <= midpoint(b.lo(1), b.hi(1)) { 0int } else { 2int })
        + (if p.z <= midpoint(b.lo(2), b.hi(2)) { 0int } else { 4int })
}

/// Two distinct octant indices differ in some bit.
pub proof fn lemma_octant_bits_differ(k: int, m: int)
    requires
        0 <= k < 8,
        0 <= m < 8,
        k != m,
    ensures
        exists|j: int| 0 <= j < 3 && #[trigger] octant_bit(k, j) != octant_bit(m, j),
{
    if octant_bit(k, 0) != octant_bit(m, 0) {
        assert(octant_bit(k, 0) != octant_bit(m, 0));
    } else if octant_bit(k, 1) != octant_bit(m, 1) {
        assert(octant_bit(k, 1) != octant_bit(m, 1));
    } else {
        assert(octant_bit(k, 2) != octant_bit(m, 2));
    }
}

/// Along some axis one of the two octants ends where the other begins, so
/// they share at most a boundary plane.
pub open spec fn octants_apart(b: AABB, k: int, m: int) -> bool {
    exists|j: int|
        0 <= j < 3 && (#[trigger] b.octant(k).hi(j) <= b.octant(m).lo(j) || b.octant(m).hi(j)
            <= b.octant(k).lo(j))
}

/// Splitting a box tiles it. A point lies in the box exactly when it lies in
/// one of the eight octants; two different octants share at most a boundary
/// plane (along some axis one ends where the other begins); and when every
/// side has even length each octant has exactly an eighth of the volume.
pub proof fn lemma_split_tiles(b: AABB)
    requires
        b.wf(),
    ensures
        forall|p: Vec3|
            #[trigger] b.contains(p) <==> exists|k: int|
                0 <= k < 8 && #[trigger] b.octant(k).contains(p),
        forall|k: int, m: int|
            0 <= k < 8 && 0 <= m < 8 && k != m ==> #[trigger] octants_apart(b, k, m),
        b.side(0) % 2 == 0 && b.side(1) % 2 == 0 && b.side(2) % 2 == 0 ==> forall|k: int|
            0 <= k < 8 ==> #[trigger] b.octant(k).volume() * 8 == b.volume(),
{
    assert forall|p: Vec3| #[trigger] b.contains(p) <==> exists|k: int|
        0 <= k < 8 && #[trigger] b.octant(k).contains(p) by {
        if b.contains(p) {
            let k = octant_index_of(b, p);
            lemma_octant_bounds(b, k);
            assert(b.lo(0) <= p.at(0) <= b.hi(0));
            assert(b.lo(1) <= p.at(1) <= b.hi(1));
            assert(b.lo(2) <= p.at(2) <= b.hi(2));
            assert forall|j: int| 0 <= j < 3 implies b.octant(k).lo(j) <= #[trigger] p.at(j)
                <= b.octant(k).hi(j) by {
                if j == 0 {} else if j == 1 {} else {}
            }
            assert(b.octant(k).contains(p));
        }
        if exists|k: int| 0 <= k < 8 && #[trigger] b.octant(k).contains(p) {
            let k = choose|k: int| 0 <= k < 8 && #[trigger] b.octant(k).contains(p);
            lemma_octant_bounds(b, k);
            assert forall|j: int| 0 <= j < 3 implies b.lo(j) <= #[trigger] p.at(j) <= b.hi(j) by {
                assert(b.octant(k).lo(j) <= p.at(j) <= b.octant(k).hi(j));
            }
        }
    }
    assert forall|k: int, m: int| 0 <= k < 8 && 0 <= m < 8 && k != m implies #[trigger] octants_apart(
        b,
        k,
        m,
    ) by {
        lemma_octant_bits_differ(k, m);
        let j = choose|j: int| 0 <= j < 3 && #[trigger] octant_bit(k, j) != octant_bit(m, j);
        lemma_octant_bounds(b, k);
        lemma_octant_bounds(b, m);
        assert(b.octant(k).hi(j) <= b.octant(m).lo(j) || b.octant(m).hi(j) <= b.octant(k).lo(j));
    }
    if b.side(0) % 2 == 0 && b.side(1) % 2 == 0 && b.side(2) % 2 == 0 {
        assert forall|k: int| 0 <= k < 8 implies #[trigger] b.octant(k).volume() * 8
            == b.volume() by {
            lemma_octant_bounds(b, k);
            let c = b.octant(k);
            assert forall|j: int| 0 <= j < 3 implies #[trigger] c.side(j) * 2 == b.side(j) by {
                assert(c.lo(j) == b.octant_lo(k, j) && c.hi(j) == b.octant_hi(k, j));
                if j == 0 {} else if j == 1 {} else {}
            }
            let (a0, a1, a2) = (c.side(0), c.side(1), c.side(2));
            assert(a0 * a1 * a2 * 8 == (a0 * 2) * (a1 * 2) * (a2 * 2)) by (nonlinear_arith);
        }
    }
}

} // verus!
