use vstd::prelude::*;
use vstd::arithmetic::div_mod::lemma_hoist_over_denominator;

verus! {

/// Number of fixed-point steps in one length unit.
pub const UNIT: i64 = 1024;

/// Largest magnitude a coordinate of a mesh point or box corner may have.
pub const COORD_LIMIT: i64 = 0x8000_0000;

/// A point or a direction with integer coordinates.
#[derive(Clone, Copy, Debug, PartialEq, Eq, Structural)]
pub struct Vec3 {
    pub x: i64,
    pub y: i64,
    pub z: i64,
}

/// Round down to a whole number of units.
pub open spec fn floor_unit(v: int) -> int {
    (v / UNIT as int) * UNIT
}

/// Round up to a whole number of units.
pub open spec fn ceil_unit(v: int) -> int {
    -floor_unit(-v)
}

impl Vec3 {
    pub open spec fn in_range(&self) -> bool {
        -COORD_LIMIT <= self.x <= COORD_LIMIT && -COORD_LIMIT <= self.y <= COORD_LIMIT
            && -COORD_LIMIT <= self.z <= COORD_LIMIT
    }

    /// Coordinate `j` (0 = x, 1 = y, 2 = z).
    pub open spec fn at(&self, j: int) -> int {
        if j == 0 {
            self.x as int
        } else if j == 1 {
            self.y as int
        } else {
            self.z as int
        }
    }

    pub open spec fn min_component(&self) -> int {
        if self.x <= self.y && self.x <= self.z {
            self.x as int
        } else if self.y <= self.z {
            self.y as int
        } else {
            self.z as int
        }
    }

    pub open spec fn max_component(&self) -> int {
        if self.x >= self.y && self.x >= self.z {
            self.x as int
        } else if self.y >= self.z {
            self.y as int
        } else {
            self.z as int
        }
    }

    pub fn new(x: i64, y: i64, z: i64) -> (r: Vec3)
        ensures
            r.x == x,
            r.y == y,
            r.z == z,
    {
        Vec3 { x, y, z }
    }

    /// Coordinate `j` (0 = x, 1 = y, 2 = z).
    pub fn get(&self, j: usize) -> (r: i64)
        requires
            j < 3,
        ensures
            r == self.at(j as int),
    {
        if j == 0 {
            self.x
        } else if j == 1 {
            self.y
        } else {
            self.z
        }
    }

    /// The smallest of the three coordinates.
    pub fn min(&self) -> (r: i64)
        ensures
            r == self.min_component(),
    {
        if self.x <= self.y && self.x <= self.z {
            self.x
        } else if self.y <= self.z {
            self.y
        } else {
            self.z
        }
    }

    /// The largest of the three coordinates.
    pub fn max(&self) -> (r: i64)
        ensures
            r == self.max_component(),
    {
        if self.x >= self.y && self.x >= self.z {
            self.x
        } else if self.y >= self.z {
            self.y
        } else {
            self.z
        }
    }
}

/// Rounding of every coordinate to whole units.
pub trait Vector3Ext {
    spec fn coords_in_range(&self) -> bool;

    spec fn coord(&self, j: int) -> int;

    fn ceil(&self) -> (r: Vec3)
        requires
            self.coords_in_range(),
        ensures
            forall|j: int| 0 <= j < 3 ==> #[trigger] r.at(j) == ceil_unit(self.coord(j)),
    ;

    fn floor(&self) -> (r: Vec3)
        requires
            self.coords_in_range(),
        ensures
            forall|j: int| 0 <= j < 3 ==> #[trigger] r.at(j) == floor_unit(self.coord(j)),
    ;
}

/// `v` rounded down to a whole number of units.
pub fn floor_to_unit(v: i64) -> (r: i64)
    requires
        -COORD_LIMIT <= v <= COORD_LIMIT,
    ensures
        r == floor_unit(v as int),
        v - UNIT < r <= v,
{
    let shifted: i64 = v + COORD_LIMIT;
    let q: i64 = shifted / UNIT;
    proof {
        lemma_hoist_over_denominator(v as int, 0x20_0000, UNIT as nat);
        assert(shifted / UNIT == v as int / UNIT as int + 0x20_0000);
        vstd::arithmetic::div_mod::lemma_fundamental_div_mod(v as int, UNIT as int);
        vstd::arithmetic::div_mod::lemma_mod_bound(v as int, UNIT as int);
    }
    q * UNIT - COORD_LIMIT
}

/// `v` rounded up to a whole number of units.
pub fn ceil_to_unit(v: i64) -> (r: i64)
    requires
        -COORD_LIMIT <= v <= COORD_LIMIT,
    ensures
        r == ceil_unit(v as int),
        v <= r < v + UNIT,
{
    -floor_to_unit(-v)
}

impl Vector3Ext for Vec3 {
    open spec fn coords_in_range(&self) -> bool {
        self.in_range()
    }

    open spec fn coord(&self, j: int) -> int {
        self.at(j)
    }

    fn ceil(&self) -> (r: Vec3) {
        Vec3 { x: ceil_to_unit(self.x), y: ceil_to_unit(self.y), z: ceil_to_unit(self.z) }
    }

    fn floor(&self) -> (r: Vec3) {
        Vec3 { x: floor_to_unit(self.x), y: floor_to_unit(self.y), z: floor_to_unit(self.z) }
    }
}

} // verus!
