use vstd::prelude::*;

use vstd::math::abs;

use crate::vec3::{RatPoint, Vec3, COORD_LIMIT};

verus! {

/// The sign of each axis of an octant: `true` is the positive half.
#[derive(Clone, Copy, PartialEq, Eq, Debug, Structural)]
pub struct Octant {
    pub x: bool,
    pub y: bool,
    pub z: bool,
}

impl Octant {
    pub open spec fn positive(self, i: int) -> bool {
        if i == 0 {
            self.x
        } else if i == 1 {
            self.y
        } else {
            self.z
        }
    }

    /// Position of this octant in a node's children array.
    pub open spec fn index(self) -> int {
        (if self.x { 4int } else { 0int }) + (if self.y { 2int } else { 0int }) + (if self.z {
            1int
        } else {
            0int
        })
    }

    /// The octant stored at position `k` of a children array.
    pub open spec fn of_index(k: int) -> Octant {
        Octant { x: k / 4 == 1, y: (k / 2) % 2 == 1, z: k % 2 == 1 }
    }

    pub fn new(x: bool, y: bool, z: bool) -> (r: Self)
        ensures
            r == (Octant { x, y, z }),
    {
        Octant { x, y, z }
    }
}

/// Round-toward-negative-infinity midpoint of two integers.
pub open spec fn mid(a: int, b: int) -> int {
    (a + b) / 2
}

/// Midpoint of two in-range coordinates, rounded toward negative infinity.
pub fn midpoint(a: i64, b: i64) -> (r: i64)
    requires
        -COORD_LIMIT <= a <= COORD_LIMIT,
        -COORD_LIMIT <= b <= COORD_LIMIT,
    ensures
        r == mid(a as int, b as int),
{
    let s: i64 = a + b;
    if s >= 0 {
        s / 2
    } else {
        let n: i64 = -s + 1;
        let h: i64 = n / 2;
        assert(h == (-(a + b) + 1) / 2);
        assert(-h == (a + b) / 2) by (nonlinear_arith)
            requires
                h == (-(a + b) + 1) / 2,
                a + b < 0,
        ;
        -h
    }
}

/// Comparison of `a` with `b`.
pub open spec fn compare(a: int, b: int) -> std::cmp::Ordering {
    if a < b {
        std::cmp::Ordering::Less
    } else if a == b {
        std::cmp::Ordering::Equal
    } else {
        std::cmp::Ordering::Greater
    }
}

/// Axis-aligned bounding box with inclusive corners `min` and `max`.
#[derive(Clone, Copy, PartialEq, Eq, Debug, Structural)]
pub struct AABB {
    pub min: Vec3,
    pub max: Vec3,
}

impl AABB {
    pub open spec fn lo(self, i: int) -> int {
        self.min.axis(i)
    }

    pub open spec fn hi(self, i: int) -> int {
        self.max.axis(i)
    }

    /// `min` does not exceed `max` on any axis and both corners are in range.
    pub open spec fn wf(self) -> bool {
        &&& self.min.in_range()
        &&& self.max.in_range()
        &&& self.min.x <= self.max.x
        &&& self.min.y <= self.max.y
        &&& self.min.z <= self.max.z
    }

    pub open spec fn len(self, i: int) -> int {
        self.hi(i) - self.lo(i)
    }

    pub open spec fn center_at(self, i: int) -> int {
        mid(self.lo(i), self.hi(i))
    }

    /// The lattice point `p` lies in the box, faces included.
    pub open spec fn contains_point(self, p: (int, int, int)) -> bool {
        &&& self.lo(0) <= p.0 <= self.hi(0)
        &&& self.lo(1) <= p.1 <= self.hi(1)
        &&& self.lo(2) <= p.2 <= self.hi(2)
    }

    /// `other` lies inside this box, faces included.
    pub open spec fn covers(self, other: AABB) -> bool {
        &&& self.min.x <= other.min.x && other.max.x <= self.max.x
        &&& self.min.y <= other.min.y && other.max.y <= self.max.y
        &&& self.min.z <= other.min.z && other.max.z <= self.max.z
    }

    /// The interiors overlap: bounds are exclusive.
    pub open spec fn overlaps(self, other: AABB) -> bool {
        &&& self.min.x < other.max.x && self.max.x > other.min.x
        &&& self.min.y < other.max.y && self.max.y > other.min.y
        &&& self.min.z < other.max.z && self.max.z > other.min.z
    }

    /// Sign of the box on axis `i` around the plane at `c`: strictly positive side,
    /// strictly negative side, or neither.
    pub open spec fn side_pos(self, c: int, i: int) -> bool {
        self.lo(i) >= c && self.hi(i) > c
    }

    pub open spec fn side_neg(self, c: int, i: int) -> bool {
        self.lo(i) < c && self.hi(i) <= c
    }

    /// Octant of the box around point `c`, if it falls on one side of every plane.
    pub open spec fn octant_around_spec(self, c: Vec3) -> Option<Octant> {
        if (self.side_pos(c.x as int, 0) || self.side_neg(c.x as int, 0)) && (self.side_pos(
            c.y as int,
            1,
        ) || self.side_neg(c.y as int, 1)) && (self.side_pos(c.z as int, 2) || self.side_neg(
            c.z as int,
            2,
        )) {
            Some(
                Octant {
                    x: self.side_pos(c.x as int, 0),
                    y: self.side_pos(c.y as int, 1),
                    z: self.side_pos(c.z as int, 2),
                },
            )
        } else {
            None
        }
    }

    /// Lower and upper bound of the sub-box on axis `i` for the given side.
    pub open spec fn octant_lo(self, o: Octant, i: int) -> int {
        if o.positive(i) {
            self.center_at(i)
        } else {
            self.lo(i)
        }
    }

    pub open spec fn octant_hi(self, o: Octant, i: int) -> int {
        if o.positive(i) {
            self.hi(i)
        } else {
            self.center_at(i)
        }
    }

    /// The sub-box of octant `o`, split at this box's center.
    pub open spec fn octant_box(self, o: Octant) -> AABB {
        AABB {
            min: Vec3 {
                x: self.octant_lo(o, 0) as i64,
                y: self.octant_lo(o, 1) as i64,
                z: self.octant_lo(o, 2) as i64,
            },
            max: Vec3 {
                x: self.octant_hi(o, 0) as i64,
                y: self.octant_hi(o, 1) as i64,
                z: self.octant_hi(o, 2) as i64,
            },
        }
    }

    /// The box with corners `min` and `max`; `min` may not exceed `max` on any axis.
    pub fn new(min: Vec3, max: Vec3) -> (r: Self)
        requires
            min.in_range(),
            max.in_range(),
            min.x <= max.x && min.y <= max.y && min.z <= max.z,
        ensures
            r.min == min && r.max == max,
            r.wf(),
    {
        AABB { min, max }
    }

    pub fn min(&self) -> (r: Vec3)
        ensures
            r == self.min,
    {
        self.min
    }

    pub fn max(&self) -> (r: Vec3)
        ensures
            r == self.max,
    {
        self.max
    }

    /// Cube of edge `size` (its magnitude, rounded down to even) centered at the origin.
    pub fn from_size(size: i64) -> (r: Self)
        requires
            -2 * COORD_LIMIT <= size <= 2 * COORD_LIMIT,
        ensures
            r.wf(),
            r.max == Vec3::splat_spec((abs(size as int) / 2) as int),
            r.min == Vec3::splat_spec(-(abs(size as int) / 2)),
    {
        let a: i64 = if size < 0 { -size } else { size };
        let h: i64 = a / 2;
        Self::new(Vec3::splat(-h), Vec3::splat(h))
    }

    /// Cube of edge `size` (rounded down to even) centered at `offset`.
    pub fn from_size_offset(size: i64, offset: Vec3) -> (r: Self)
        requires
            -2 * COORD_LIMIT <= size <= 2 * COORD_LIMIT,
            forall|i: int|
                0 <= i < 3 ==> -COORD_LIMIT <= #[trigger] offset.axis(i) - abs(size as int) / 2
                    && offset.axis(i) + abs(size as int) / 2 <= COORD_LIMIT,
        ensures
            r.wf(),
            forall|i: int|
                0 <= i < 3 ==> #[trigger] r.lo(i) == offset.axis(i) - abs(size as int) / 2
                    && r.hi(i) == offset.axis(i) + abs(size as int) / 2,
    {
        let a: i64 = if size < 0 { -size } else { size };
        let h: i64 = a / 2;
        assert(-COORD_LIMIT <= offset.axis(0) - h && offset.axis(0) + h <= COORD_LIMIT);
        assert(-COORD_LIMIT <= offset.axis(1) - h && offset.axis(1) + h <= COORD_LIMIT);
        assert(-COORD_LIMIT <= offset.axis(2) - h && offset.axis(2) + h <= COORD_LIMIT);
        let lo = Vec3::new(offset.x - h, offset.y - h, offset.z - h);
        let hi = Vec3::new(offset.x + h, offset.y + h, offset.z + h);
        Self::new(lo, hi)
    }

    /// Tightest box holding every point of `points` moved by `pos`.
    pub fn from_points(points: &Vec<Vec3>, pos: Vec3) -> (r: Self)
        requires
            points.len() >= 3,
            pos.in_range(),
            forall|j: int| 0 <= j < points.len() ==> #[trigger] points[j].in_range(),
            forall|j: int| 0 <= j < points.len() ==> #[trigger] points[j].add_spec(pos).in_range(),
        ensures
            r.wf(),
            forall|j: int| 0 <= j < points.len() ==> r.covers_point(#[trigger] points[j].add_spec(pos)),
            forall|i: int|
                0 <= i < 3 ==> (exists|j: int|
                    0 <= j < points.len() && #[trigger] r.lo(i) == points[j].add_spec(pos).axis(i)),
            forall|i: int|
                0 <= i < 3 ==> (exists|j: int|
                    0 <= j < points.len() && #[trigger] r.hi(i) == points[j].add_spec(pos).axis(i)),
    {
        assert(points[0].in_range());
        let first = points[0].add(&pos);
        let mut lo = first;
        let mut hi = first;
        assert(points[0].add_spec(pos).in_range());
        let mut k: usize = 1;
        while k < points.len()
            invariant
                1 <= k <= points.len(),
                pos.in_range(),
                forall|j: int| 0 <= j < points.len() ==> #[trigger] points[j].in_range(),
                forall|j: int| 0 <= j < points.len() ==> #[trigger] points[j].add_spec(pos).in_range(),
                lo.in_range(),
                hi.in_range(),
                lo.x <= hi.x && lo.y <= hi.y && lo.z <= hi.z,
                forall|j: int|
                    0 <= j < k ==> (AABB { min: lo, max: hi }).covers_point(
                        #[trigger] points[j].add_spec(pos),
                    ),
                forall|i: int|
                    0 <= i < 3 ==> (exists|j: int|
                        0 <= j < k && #[trigger] lo.axis(i) == points[j].add_spec(pos).axis(i)),
                forall|i: int|
                    0 <= i < 3 ==> (exists|j: int|
                        0 <= j < k && #[trigger] hi.axis(i) == points[j].add_spec(pos).axis(i)),
            decreases points.len() - k,
        {
            assert(points[k as int].add_spec(pos).in_range());
            assert(points[k as int].in_range());
            let p = points[k].add(&pos);
            let ghost (lo0, hi0) = (lo, hi);
            if p.x < lo.x { lo.x = p.x; }
            if p.y < lo.y { lo.y = p.y; }
            if p.z < lo.z { lo.z = p.z; }
            if p.x > hi.x { hi.x = p.x; }
            if p.y > hi.y { hi.y = p.y; }
            if p.z > hi.z { hi.z = p.z; }
            assert forall|i: int| 0 <= i < 3 implies (exists|j: int|
                0 <= j < k + 1 && #[trigger] lo.axis(i) == points[j].add_spec(pos).axis(i)) by {
                if lo.axis(i) == p.axis(i) {
                    assert(lo.axis(i) == points[k as int].add_spec(pos).axis(i));
                } else {
                    assert(lo.axis(i) == lo0.axis(i));
                    let j = choose|j: int| 0 <= j < k && #[trigger] lo0.axis(i) == points[j].add_spec(pos).axis(i);
                    assert(lo.axis(i) == points[j].add_spec(pos).axis(i));
                }
            }
            assert forall|i: int| 0 <= i < 3 implies (exists|j: int|
                0 <= j < k + 1 && #[trigger] hi.axis(i) == points[j].add_spec(pos).axis(i)) by {
                if hi.axis(i) == p.axis(i) {
                    assert(hi.axis(i) == points[k as int].add_spec(pos).axis(i));
                } else {
                    assert(hi.axis(i) == hi0.axis(i));
                    let j = choose|j: int| 0 <= j < k && #[trigger] hi0.axis(i) == points[j].add_spec(pos).axis(i);
                    assert(hi.axis(i) == points[j].add_spec(pos).axis(i));
                }
            }
            assert forall|j: int| 0 <= j < k + 1 implies (AABB { min: lo, max: hi }).covers_point(
                #[trigger] points[j].add_spec(pos),
            ) by {
                if j < k {
                    assert((AABB { min: lo0, max: hi0 }).covers_point(points[j].add_spec(pos)));
                }
            }
            k = k + 1;
        }
        Self::new(lo, hi)
    }

    /// The lattice point `p` lies in the box, faces included.
    pub open spec fn covers_point(self, p: Vec3) -> bool {
        &&& self.min.x <= p.x <= self.max.x
        &&& self.min.y <= p.y <= self.max.y
        &&& self.min.z <= p.z <= self.max.z
    }

    /// Edge lengths.
    pub fn length(&self) -> (r: Vec3)
        requires
            self.wf(),
        ensures
            forall|i: int| 0 <= i < 3 ==> #[trigger] r.axis(i) == self.len(i),
            r.x == self.len(0) && r.y == self.len(1) && r.z == self.len(2),
    {
        Vec3::new(self.max.x - self.min.x, self.max.y - self.min.y, self.max.z - self.min.z)
    }

    pub fn x_length(&self) -> (r: i64)
        requires
            self.wf(),
        ensures
            r == self.len(0),
    {
        self.max.x - self.min.x
    }

    pub fn y_length(&self) -> (r: i64)
        requires
            self.wf(),
        ensures
            r == self.len(1),
    {
        self.max.y - self.min.y
    }

    pub fn z_length(&self) -> (r: i64)
        requires
            self.wf(),
        ensures
            r == self.len(2),
    {
        self.max.z - self.min.z
    }

    /// Center, each coordinate rounded toward negative infinity.
    pub fn center(&self) -> (r: Vec3)
        requires
            self.wf(),
        ensures
            forall|i: int| 0 <= i < 3 ==> #[trigger] r.axis(i) == self.center_at(i),
            r.x == self.center_at(0) && r.y == self.center_at(1) && r.z == self.center_at(2),
            r.in_range(),
    {
        let r = Vec3::new(self.center_x(), self.center_y(), self.center_z());
        assert(forall|i: int| 0 <= i < 3 ==> #[trigger] r.axis(i) == self.center_at(i));
        r
    }

    pub fn center_x(&self) -> (r: i64)
        requires
            self.wf(),
        ensures
            r == self.center_at(0),
            self.lo(0) <= r <= self.hi(0),
    {
        assert(self.lo(0) <= self.hi(0));
        midpoint(self.min.x, self.max.x)
    }

    pub fn center_y(&self) -> (r: i64)
        requires
            self.wf(),
        ensures
            r == self.center_at(1),
            self.lo(1) <= r <= self.hi(1),
    {
        assert(self.lo(1) <= self.hi(1));
        midpoint(self.min.y, self.max.y)
    }

    pub fn center_z(&self) -> (r: i64)
        requires
            self.wf(),
        ensures
            r == self.center_at(2),
            self.lo(2) <= r <= self.hi(2),
    {
        assert(self.lo(2) <= self.hi(2));
        midpoint(self.min.z, self.max.z)
    }

    /// Octant of the box around point `c`.
    pub fn octant_around(&self, c: &Vec3) -> (r: Option<Octant>)
        ensures
            r == self.octant_around_spec(*c),
    {
        let x_p = self.min.x >= c.x && self.max.x > c.x;
        let x_n = self.min.x < c.x && self.max.x <= c.x;
        let y_p = self.min.y >= c.y && self.max.y > c.y;
        let y_n = self.min.y < c.y && self.max.y <= c.y;
        let z_p = self.min.z >= c.z && self.max.z > c.z;
        let z_n = self.min.z < c.z && self.max.z <= c.z;
        if (x_p || x_n) && (y_p || y_n) && (z_p || z_n) {
            Some(Octant { x: x_p, y: y_p, z: z_p })
        } else {
            None
        }
    }

    /// Octant around the origin that holds the box, or `None` if it straddles a plane.
    pub fn octant(&self) -> (r: Option<Octant>)
        ensures
            r == self.octant_around_spec(Vec3 { x: 0, y: 0, z: 0 }),
    {
        self.octant_around(&Vec3 { x: 0, y: 0, z: 0 })
    }

    /// Sub-box of octant `o` around this box's center.
    pub fn get_octant(&self, o: Octant) -> (r: AABB)
        requires
            self.wf(),
        ensures
            r == self.octant_box(o),
            r.wf(),
    {
        let cx = self.center_x();
        let cy = self.center_y();
        let cz = self.center_z();
        let (min_x, max_x) = if o.x { (cx, self.max.x) } else { (self.min.x, cx) };
        let (min_y, max_y) = if o.y { (cy, self.max.y) } else { (self.min.y, cy) };
        let (min_z, max_z) = if o.z { (cz, self.max.z) } else { (self.min.z, cz) };
        AABB::new(Vec3::new(min_x, min_y, min_z), Vec3::new(max_x, max_y, max_z))
    }

    /// Per axis, whether `p` lies below, on, or above the plane through the center.
    pub fn is_on_octant(&self, p: &RatPoint) -> (r: [std::cmp::Ordering; 3])
        requires
            self.wf(),
            p.wf(),
        ensures
            forall|i: int|
                0 <= i < 3 ==> #[trigger] r@[i] == compare(p.axis(i), self.center_at(i) * p.scale),
    {
        let c = self.center();
        let a = Self::compare_scaled(p.x, c.x, p.scale);
        let b = Self::compare_scaled(p.y, c.y, p.scale);
        let d = Self::compare_scaled(p.z, c.z, p.scale);
        let r = [a, b, d];
        assert forall|i: int|
            0 <= i < 3 implies #[trigger] r@[i] == compare(p.axis(i), self.center_at(i) * p.scale) by {
            if i == 0 {
                assert(r@[0] == a);
            } else if i == 1 {
                assert(r@[1] == b);
            } else {
                assert(r@[2] == d);
            }
        }
        r
    }

    fn compare_scaled(v: i128, c: i64, scale: i128) -> (r: std::cmp::Ordering)
        requires
            -COORD_LIMIT <= c <= COORD_LIMIT,
            1 <= scale <= crate::vec3::SCALE_LIMIT,
        ensures
            r == compare(v as int, c * scale),
    {
        assert(-COORD_LIMIT * crate::vec3::SCALE_LIMIT <= c * scale <= COORD_LIMIT
            * crate::vec3::SCALE_LIMIT) by (nonlinear_arith)
            requires
                -COORD_LIMIT <= c <= COORD_LIMIT,
                1 <= scale <= crate::vec3::SCALE_LIMIT,
        ;
        let w: i128 = (c as i128) * scale;
        if v < w {
            std::cmp::Ordering::Less
        } else if v == w {
            std::cmp::Ordering::Equal
        } else {
            std::cmp::Ordering::Greater
        }
    }

    /// Overlap test with exclusive bounds.
    pub fn intersects(&self, other: &AABB) -> (r: bool)
        ensures
            r == self.overlaps(*other),
    {
        self.min.x < other.max.x && self.min.y < other.max.y && self.min.z < other.max.z
            && self.max.x > other.min.x && self.max.y > other.min.y && self.max.z > other.min.z
    }

    /// The point lies strictly inside the box.
    pub fn overlaps_point(&self, p: &Vec3) -> (r: bool)
        ensures
            r == (self.min.x < p.x < self.max.x && self.min.y < p.y < self.max.y && self.min.z
                < p.z < self.max.z),
    {
        self.min.x < p.x && p.x < self.max.x && self.min.y < p.y && p.y < self.max.y && self.min.z
            < p.z && p.z < self.max.z
    }

    /// Some axis of `other` reaches below this box.
    pub open spec fn needs_min(self, other: AABB) -> bool {
        self.min.x > other.min.x || self.min.y > other.min.y || self.min.z > other.min.z
    }

    /// Some axis of `other` reaches above this box.
    pub open spec fn needs_max(self, other: AABB) -> bool {
        self.max.x < other.max.x || self.max.y < other.max.y || self.max.z < other.max.z
    }

    /// The box doubled toward negative infinity on every axis.
    pub open spec fn grown_min(self) -> AABB {
        AABB {
            min: Vec3 {
                x: (2 * self.min.x - self.max.x) as i64,
                y: (2 * self.min.y - self.max.y) as i64,
                z: (2 * self.min.z - self.max.z) as i64,
            },
            max: self.max,
        }
    }

    /// The box doubled toward positive infinity on every axis.
    pub open spec fn grown_max(self) -> AABB {
        AABB {
            min: self.min,
            max: Vec3 {
                x: (2 * self.max.x - self.min.x) as i64,
                y: (2 * self.max.y - self.min.y) as i64,
                z: (2 * self.max.z - self.min.z) as i64,
            },
        }
    }

    /// One doubling toward `other`: the low side first, then the high side.
    pub open spec fn grow_step(self, other: AABB) -> AABB {
        if self.needs_min(other) {
            self.grown_min()
        } else {
            self.grown_max()
        }
    }

    /// The box after `n` doublings toward `other`.
    pub open spec fn grown(self, other: AABB, n: nat) -> AABB
        decreases n,
    {
        if n == 0 {
            self
        } else {
            self.grown(other, (n - 1) as nat).grow_step(other)
        }
    }

    /// `steps` is the doubling sequence from this box until `other` is covered:
    /// each entry is one more doubling, taken only while `other` is not covered.
    pub open spec fn is_growth(self, other: AABB, steps: Seq<AABB>) -> bool {
        &&& forall|t: int| 0 <= t < steps.len() ==> #[trigger] steps[t] == self.grown(other, (t + 1) as nat)
        &&& forall|t: nat| t < steps.len() ==> !(#[trigger] self.grown(other, t)).covers(other)
        &&& self.grown(other, steps.len()).covers(other)
    }

    /// A valid box with an edge of at least one on every axis.
    pub open spec fn positive(self) -> bool {
        &&& self.wf()
        &&& self.len(0) >= 1 && self.len(1) >= 1 && self.len(2) >= 1
    }

    /// The next doubling toward `other` keeps every coordinate in range.
    pub open spec fn step_in_range(self, other: AABB) -> bool {
        if self.needs_min(other) {
            &&& -COORD_LIMIT <= 2 * self.min.x - self.max.x
            &&& -COORD_LIMIT <= 2 * self.min.y - self.max.y
            &&& -COORD_LIMIT <= 2 * self.min.z - self.max.z
        } else {
            &&& 2 * self.max.x - self.min.x <= COORD_LIMIT
            &&& 2 * self.max.y - self.min.y <= COORD_LIMIT
            &&& 2 * self.max.z - self.min.z <= COORD_LIMIT
        }
    }

    /// Doubling toward `other` covers it after some `n` steps, and every step
    /// before that stays in the coordinate range.
    pub open spec fn growth_fits(self, other: AABB) -> bool {
        exists|n: nat|
            #[trigger] self.grown(other, n).covers(other) && forall|k: nat|
                k < n ==> (#[trigger] self.grown(other, k)).step_in_range(other)
    }

    pub proof fn lemma_covers_iff(self, other: AABB)
        ensures
            self.covers(other) <==> !self.needs_min(other) && !self.needs_max(other),
    {
    }

    /// One doubling in range keeps a box positive, doubles every edge, covers
    /// the box, and leaves it as one octant of the grown box.
    pub proof fn lemma_grow_step(self, other: AABB)
        requires
            self.positive(),
            !self.covers(other),
            self.step_in_range(other),
        ensures
            ({
                let g = self.grow_step(other);
                let o = Octant { x: self.needs_min(other), y: self.needs_min(other), z: self.needs_min(other) };
                &&& g.positive()
                &&& g.len(0) == 2 * self.len(0) && g.len(1) == 2 * self.len(1) && g.len(2) == 2 * self.len(2)
                &&& g.covers(self)
                &&& g.octant_box(o) == self
                &&& self.octant_around_spec(
                    Vec3 { x: g.center_at(0) as i64, y: g.center_at(1) as i64, z: g.center_at(2) as i64 },
                ) == Some(o)
            }),
    {
        let g = self.grow_step(other);
        let o = Octant { x: self.needs_min(other), y: self.needs_min(other), z: self.needs_min(other) };
        if self.needs_min(other) {
            assert(g.center_at(0) == self.lo(0));
            assert(g.center_at(1) == self.lo(1));
            assert(g.center_at(2) == self.lo(2));
        } else {
            assert(g.center_at(0) == self.hi(0));
            assert(g.center_at(1) == self.hi(1));
            assert(g.center_at(2) == self.hi(2));
        }
        let q = g.octant_box(o);
        assert(q.min == self.min);
        assert(q.max == self.max);
    }

    /// Whether this box covers `other`, faces included.
    pub fn contains(&self, other: &AABB) -> (r: bool)
        ensures
            r == self.covers(*other),
    {
        proof {
            self.lemma_covers_iff(*other);
        }
        !(self.min.x > other.min.x || self.min.y > other.min.y || self.min.z > other.min.z
            || self.max.x < other.max.x || self.max.y < other.max.y || self.max.z < other.max.z)
    }

    /// One doubling of this box toward `other`: on its low side while some
    /// axis of `other` reaches below it, else on its high side.
    pub fn grow_toward(&self, other: &AABB) -> (r: AABB)
        requires
            self.positive(),
            !self.covers(*other),
            self.step_in_range(*other),
        ensures
            r == self.grow_step(*other),
            r.positive(),
            r.len(0) == 2 * self.len(0) && r.len(1) == 2 * self.len(1) && r.len(2) == 2 * self.len(2),
            r.covers(*self),
    {
        proof {
            self.lemma_grow_step(*other);
        }
        let l = self.length();
        if self.min.x > other.min.x || self.min.y > other.min.y || self.min.z > other.min.z {
            AABB {
                min: Vec3::new(self.min.x - l.x, self.min.y - l.y, self.min.z - l.z),
                max: self.max,
            }
        } else {
            AABB {
                min: self.min,
                max: Vec3::new(self.max.x + l.x, self.max.y + l.y, self.max.z + l.z),
            }
        }
    }

    /// Doubling steps that grow this box until it covers `other`: none when it
    /// already does.
    pub fn extend_for(&self, other: &AABB) -> (r: Vec<AABB>)
        requires
            self.positive(),
            self.growth_fits(*other),
        ensures
            self.is_growth(*other, r@),
            forall|t: int| 0 <= t < r.len() ==> (#[trigger] r@[t]).positive(),
            forall|t: int| 0 <= t < r.len() ==> (#[trigger] r@[t]).covers(*self),
            forall|k: nat| k < r.len() ==> (#[trigger] self.grown(*other, k)).step_in_range(*other),
    {
        let ghost n = choose|n: nat|
            #[trigger] self.grown(*other, n).covers(*other) && forall|k: nat|
                k < n ==> (#[trigger] self.grown(*other, k)).step_in_range(*other);
        let mut steps: Vec<AABB> = Vec::new();
        let mut cur = *self;
        while !cur.contains(other)
            invariant
                self.positive(),
                self.grown(*other, n).covers(*other),
                forall|k: nat| k < n ==> (#[trigger] self.grown(*other, k)).step_in_range(*other),
                steps.len() <= n,
                cur.positive(),
                cur.covers(*self),
                cur == self.grown(*other, steps.len() as nat),
                forall|t: int| 0 <= t < steps.len() ==> #[trigger] steps@[t] == self.grown(*other, (t + 1) as nat),
                forall|t: nat| t < steps.len() ==> !(#[trigger] self.grown(*other, t)).covers(*other),
                forall|t: int| 0 <= t < steps.len() ==> (#[trigger] steps@[t]).positive(),
                forall|t: int| 0 <= t < steps.len() ==> (#[trigger] steps@[t]).covers(*self),
            decreases n - steps.len(),
        {
            assert(steps.len() < n);
            assert(cur.step_in_range(*other));
            let next = cur.grow_toward(other);
            steps.push(next);
            cur = next;
        }
        steps
    }

    /// Both corners moved by `k` on every axis.
    pub fn add_scalar(&self, k: i64) -> (r: AABB)
        requires
            self.wf(),
            -COORD_LIMIT <= k <= COORD_LIMIT,
            -COORD_LIMIT <= self.min.x + k && self.max.x + k <= COORD_LIMIT,
            -COORD_LIMIT <= self.min.y + k && self.max.y + k <= COORD_LIMIT,
            -COORD_LIMIT <= self.min.z + k && self.max.z + k <= COORD_LIMIT,
        ensures
            r.wf(),
            forall|i: int| 0 <= i < 3 ==> #[trigger] r.lo(i) == self.lo(i) + k && r.hi(i) == self.hi(i) + k,
    {
        let v = Vec3::splat(k);
        self.add_vec(&v)
    }

    /// Both corners moved by `-k` on every axis.
    pub fn sub_scalar(&self, k: i64) -> (r: AABB)
        requires
            self.wf(),
            -COORD_LIMIT <= k <= COORD_LIMIT,
            -COORD_LIMIT <= self.min.x - k && self.max.x - k <= COORD_LIMIT,
            -COORD_LIMIT <= self.min.y - k && self.max.y - k <= COORD_LIMIT,
            -COORD_LIMIT <= self.min.z - k && self.max.z - k <= COORD_LIMIT,
        ensures
            r.wf(),
            forall|i: int| 0 <= i < 3 ==> #[trigger] r.lo(i) == self.lo(i) - k && r.hi(i) == self.hi(i) - k,
    {
        let v = Vec3::splat(-k);
        self.add_vec(&v)
    }

    /// Both corners moved by `v`.
    pub fn add_vec(&self, v: &Vec3) -> (r: AABB)
        requires
            self.wf(),
            v.in_range(),
            self.min.add_spec(*v).in_range(),
            self.max.add_spec(*v).in_range(),
        ensures
            r.wf(),
            r.min == self.min.add_spec(*v),
            r.max == self.max.add_spec(*v),
            forall|i: int| 0 <= i < 3 ==> #[trigger] r.lo(i) == self.lo(i) + v.axis(i) && r.hi(i) == self.hi(i) + v.axis(i),
    {
        AABB { min: self.min.add(v), max: self.max.add(v) }
    }

    /// Both corners moved by `-v`.
    pub fn sub_vec(&self, v: &Vec3) -> (r: AABB)
        requires
            self.wf(),
            v.in_range(),
            -COORD_LIMIT <= self.min.x - v.x && self.max.x - v.x <= COORD_LIMIT,
            -COORD_LIMIT <= self.min.y - v.y && self.max.y - v.y <= COORD_LIMIT,
            -COORD_LIMIT <= self.min.z - v.z && self.max.z - v.z <= COORD_LIMIT,
        ensures
            r.wf(),
            forall|i: int| 0 <= i < 3 ==> #[trigger] r.lo(i) == self.lo(i) - v.axis(i) && r.hi(i) == self.hi(i) - v.axis(i),
    {
        let n = Vec3::new(-v.x, -v.y, -v.z);
        self.add_vec(&n)
    }

    /// Both corners scaled by the non-negative factor `k`.
    pub fn mul_assign(&mut self, k: i64)
        requires
            old(self).wf(),
            0 <= k,
            k * old(self).min.x >= -COORD_LIMIT && k * old(self).max.x <= COORD_LIMIT,
            k * old(self).min.y >= -COORD_LIMIT && k * old(self).max.y <= COORD_LIMIT,
            k * old(self).min.z >= -COORD_LIMIT && k * old(self).max.z <= COORD_LIMIT,
        ensures
            final(self).wf(),
            forall|i: int| 0 <= i < 3 ==> #[trigger] final(self).lo(i) == k * old(self).lo(i) && final(self).hi(i) == k * old(self).hi(i),
    {
        proof {
            let b = *self;
            assert(k * b.min.x <= k * b.max.x && k * b.min.y <= k * b.max.y && k * b.min.z <= k
                * b.max.z) by (nonlinear_arith)
                requires
                    0 <= k,
                    b.min.x <= b.max.x,
                    b.min.y <= b.max.y,
                    b.min.z <= b.max.z,
            ;
            assert(-COORD_LIMIT <= k * b.min.x <= k * b.max.x <= COORD_LIMIT);
        }
        self.min = Vec3::new(k * self.min.x, k * self.min.y, k * self.min.z);
        self.max = Vec3::new(k * self.max.x, k * self.max.y, k * self.max.z);
    }
}

/// The eight octant boxes of a box lie inside it, together cover each of its
/// lattice points, and two different ones share at most a face: their
/// interiors do not overlap.
pub proof fn lemma_octants_partition(b: AABB)
    requires
        b.wf(),
    ensures
        forall|o: Octant| #[trigger] b.covers(b.octant_box(o)),
        forall|o: Octant| (#[trigger] b.octant_box(o)).wf(),
        forall|p: (int, int, int)|
            #[trigger] b.contains_point(p) ==> exists|o: Octant| #[trigger] b.octant_box(o).contains_point(p),
        forall|o1: Octant, o2: Octant|
            o1 != o2 ==> !(#[trigger] b.octant_box(o1)).overlaps(#[trigger] b.octant_box(o2)),
{
    assert(b.lo(0) <= b.center_at(0) <= b.hi(0));
    assert(b.lo(1) <= b.center_at(1) <= b.hi(1));
    assert(b.lo(2) <= b.center_at(2) <= b.hi(2));
    assert forall|p: (int, int, int)| #[trigger] b.contains_point(p) implies exists|o: Octant|
        #[trigger] b.octant_box(o).contains_point(p) by {
        let o = Octant { x: p.0 >= b.center_at(0), y: p.1 >= b.center_at(1), z: p.2 >= b.center_at(2) };
        assert(b.octant_box(o).contains_point(p));
    }
    assert forall|o1: Octant, o2: Octant| o1 != o2 implies !(#[trigger] b.octant_box(o1)).overlaps(
        #[trigger] b.octant_box(o2),
    ) by {
        if o1.x != o2.x {
        } else if o1.y != o2.y {
        } else {
        }
    }
}

/// Overlap is symmetric.
pub proof fn lemma_intersects_symmetric(a: AABB, b: AABB)
    ensures
        a.overlaps(b) == b.overlaps(a),
{
}

/// An octant of a box is no longer than half the box, rounded up.
pub proof fn lemma_octant_len(b: AABB, o: Octant)
    requires
        b.wf(),
    ensures
        2 * b.octant_box(o).len(0) <= b.len(0) + 1,
        2 * b.octant_box(o).len(1) <= b.len(1) + 1,
        2 * b.octant_box(o).len(2) <= b.len(2) + 1,
        b.octant_box(o).wf(),
{
    lemma_octants_partition(b);
}

/// A box inside `b` that falls on one side of every plane through `b`'s center
/// lies inside the octant box on those sides.
pub proof fn lemma_fits_octant(b: AABB, q: AABB, o: Octant)
    requires
        b.wf(),
        b.covers(q),
        q.octant_around_spec(
            Vec3 { x: b.center_at(0) as i64, y: b.center_at(1) as i64, z: b.center_at(2) as i64 },
        ) == Some(o),
    ensures
        b.octant_box(o).covers(q),
{
    lemma_octants_partition(b);
}

/// A box on one side of every plane through `b`'s center does not overlap the
/// octant boxes on other sides.
pub proof fn lemma_other_octant_disjoint(b: AABB, q: AABB, o: Octant, o2: Octant)
    requires
        b.wf(),
        q.octant_around_spec(
            Vec3 { x: b.center_at(0) as i64, y: b.center_at(1) as i64, z: b.center_at(2) as i64 },
        ) == Some(o),
        o2 != o,
    ensures
        !b.octant_box(o2).overlaps(q),
{
    lemma_octants_partition(b);
}

/// A box that overlaps `q` makes every box covering it overlap `q` too.
pub proof fn lemma_covers_overlaps(x: AABB, b: AABB, q: AABB)
    requires
        x.covers(b),
        b.overlaps(q),
    ensures
        x.overlaps(q),
{
}

} // verus!
