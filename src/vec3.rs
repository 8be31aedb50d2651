use vstd::prelude::*;

verus! {

/// Largest magnitude a coordinate may have.
pub const COORD_LIMIT: i64 = 4398046511104;

/// A point or displacement on the integer lattice.
#[derive(Clone, Copy, PartialEq, Eq, Debug, Structural)]
pub struct Vec3 {
    pub x: i64,
    pub y: i64,
    pub z: i64,
}

impl Vec3 {
    /// Component on axis `i` (0, 1, 2 for x, y, z).
    pub open spec fn axis(self, i: int) -> int {
        if i == 0 {
            self.x as int
        } else if i == 1 {
            self.y as int
        } else {
            self.z as int
        }
    }

    /// Every component lies within `COORD_LIMIT` of the origin.
    pub open spec fn in_range(self) -> bool {
        &&& -COORD_LIMIT <= self.x <= COORD_LIMIT
        &&& -COORD_LIMIT <= self.y <= COORD_LIMIT
        &&& -COORD_LIMIT <= self.z <= COORD_LIMIT
    }

    pub open spec fn splat_spec(v: int) -> Vec3 {
        Vec3 { x: v as i64, y: v as i64, z: v as i64 }
    }

    pub open spec fn add_spec(self, o: Vec3) -> Vec3 {
        Vec3 { x: (self.x + o.x) as i64, y: (self.y + o.y) as i64, z: (self.z + o.z) as i64 }
    }

    /// Componentwise sum; the exact sum must be in range.
    pub fn add(&self, o: &Vec3) -> (r: Vec3)
        requires
            self.in_range(),
            o.in_range(),
        ensures
            r == self.add_spec(*o),
            forall|i: int| 0 <= i < 3 ==> #[trigger] r.axis(i) == self.axis(i) + o.axis(i),
    {
        Vec3 { x: self.x + o.x, y: self.y + o.y, z: self.z + o.z }
    }

    pub fn new(x: i64, y: i64, z: i64) -> (r: Self)
        ensures
            r.x == x && r.y == y && r.z == z,
    {
        Vec3 { x, y, z }
    }

    pub fn splat(v: i64) -> (r: Self)
        ensures
            r.x == v && r.y == v && r.z == v,
    {
        Vec3 { x: v, y: v, z: v }
    }

    /// Component on axis `i`.
    pub fn get(&self, i: usize) -> (r: i64)
        requires
            i < 3,
        ensures
            r == self.axis(i as int),
    {
        if i == 0 {
            self.x
        } else if i == 1 {
            self.y
        } else {
            self.z
        }
    }
}

/// Largest denominator of a scaled point.
pub const SCALE_LIMIT: i128 = 4611686018427387904;

/// Largest magnitude of a scaled point's numerators.
pub const SCALED_LIMIT: i128 = 1267650600228229401496703205376;

/// The point `(x / scale, y / scale, z / scale)` with rational coordinates.
#[derive(Clone, Copy, PartialEq, Eq, Debug, Structural)]
pub struct RatPoint {
    pub x: i128,
    pub y: i128,
    pub z: i128,
    pub scale: i128,
}

impl RatPoint {
    pub open spec fn axis(self, i: int) -> int {
        if i == 0 {
            self.x as int
        } else if i == 1 {
            self.y as int
        } else {
            self.z as int
        }
    }

    /// Positive denominator and numerators of bounded size.
    pub open spec fn wf(self) -> bool {
        &&& 1 <= self.scale <= SCALE_LIMIT
        &&& -SCALED_LIMIT <= self.x <= SCALED_LIMIT
        &&& -SCALED_LIMIT <= self.y <= SCALED_LIMIT
        &&& -SCALED_LIMIT <= self.z <= SCALED_LIMIT
    }

    /// The lattice point `v` with denominator one.
    pub fn from_vec3(v: Vec3) -> (r: RatPoint)
        requires
            v.in_range(),
        ensures
            r.wf(),
            r.scale == 1,
            forall|i: int| 0 <= i < 3 ==> #[trigger] r.axis(i) == v.axis(i),
    {
        RatPoint { x: v.x as i128, y: v.y as i128, z: v.z as i128, scale: 1 }
    }
}

} // verus!
