use vstd::prelude::*;

use crate::aabb::{compare, Octant, AABB};
use std::cmp::Ordering;
use crate::vec3::{RatPoint, Vec3, COORD_LIMIT};

verus! {

/// Largest magnitude of a ray direction component.
pub const DIR_LIMIT: i64 = 1048576;

/// Largest magnitude of a ray parameter's numerator.
pub const PARAM_LIMIT: i128 = 35184372088832;

/// A ray parameter `num / den`, kept as an exact fraction with positive denominator.
#[derive(Clone, Copy, PartialEq, Eq, Debug, Structural)]
pub struct Param {
    pub num: i128,
    pub den: i128,
}

/// `a < b` as fractions.
pub open spec fn p_lt(a: Param, b: Param) -> bool {
    a.num * b.den < b.num * a.den
}

/// `a <= b` as fractions.
pub open spec fn p_le(a: Param, b: Param) -> bool {
    a.num * b.den <= b.num * a.den
}

/// The larger of a running maximum and `p`; an absent maximum stands for minus infinity.
pub open spec fn p_max(a: Option<Param>, p: Param) -> Option<Param> {
    match a {
        None => Some(p),
        Some(x) => if p_lt(x, p) {
            Some(p)
        } else {
            Some(x)
        },
    }
}

/// The smaller of a running minimum and `p`; an absent minimum stands for plus infinity.
pub open spec fn p_min(a: Option<Param>, p: Param) -> Option<Param> {
    match a {
        None => Some(p),
        Some(x) => if p_lt(p, x) {
            Some(p)
        } else {
            Some(x)
        },
    }
}

impl Param {
    pub open spec fn wf(self) -> bool {
        &&& 1 <= self.den <= DIR_LIMIT
        &&& -PARAM_LIMIT <= self.num <= PARAM_LIMIT
    }

    pub fn new(num: i128, den: i128) -> (r: Param)
        ensures
            r == (Param { num, den }),
    {
        Param { num, den }
    }

    /// Zero.
    pub fn zero() -> (r: Param)
        ensures
            r == (Param { num: 0, den: 1 }),
            r.wf(),
    {
        Param { num: 0, den: 1 }
    }

    /// Cross-multiplied comparison: `self < other` as fractions.
    pub fn lt(&self, other: &Param) -> (r: bool)
        requires
            self.wf(),
            other.wf(),
        ensures
            r == p_lt(*self, *other),
    {
        proof {
            lemma_param_products(*self, *other);
        }
        self.num * other.den < other.num * self.den
    }

    /// `self <= other` as fractions.
    pub fn le(&self, other: &Param) -> (r: bool)
        requires
            self.wf(),
            other.wf(),
        ensures
            r == p_le(*self, *other),
    {
        proof {
            lemma_param_products(*self, *other);
        }
        self.num * other.den <= other.num * self.den
    }
}

proof fn lemma_param_products(a: Param, b: Param)
    requires
        a.wf(),
        b.wf(),
    ensures
        -PARAM_LIMIT * DIR_LIMIT <= a.num * b.den <= PARAM_LIMIT * DIR_LIMIT,
        -PARAM_LIMIT * DIR_LIMIT <= b.num * a.den <= PARAM_LIMIT * DIR_LIMIT,
{
    assert(-PARAM_LIMIT * DIR_LIMIT <= a.num * b.den <= PARAM_LIMIT * DIR_LIMIT) by (nonlinear_arith)
        requires
            a.wf(),
            b.wf(),
    ;
    assert(-PARAM_LIMIT * DIR_LIMIT <= b.num * a.den <= PARAM_LIMIT * DIR_LIMIT) by (nonlinear_arith)
        requires
            a.wf(),
            b.wf(),
    ;
}

/// A half-line from `origin` along `dir`, with points `origin + dir * t` for `t >= 0`.
#[derive(Clone, Copy, PartialEq, Eq, Debug, Structural)]
pub struct Ray {
    pub origin: Vec3,
    pub dir: Vec3,
}

impl Ray {
    /// Origin in range, direction nonzero with components of bounded size.
    pub open spec fn wf(self) -> bool {
        &&& self.origin.in_range()
        &&& -DIR_LIMIT <= self.dir.x <= DIR_LIMIT
        &&& -DIR_LIMIT <= self.dir.y <= DIR_LIMIT
        &&& -DIR_LIMIT <= self.dir.z <= DIR_LIMIT
        &&& (self.dir.x != 0 || self.dir.y != 0 || self.dir.z != 0)
    }

    pub open spec fn o(self, i: int) -> int {
        self.origin.axis(i)
    }

    pub open spec fn d(self, i: int) -> int {
        self.dir.axis(i)
    }

    /// Parameter at which the ray enters the slab of `b` on axis `i` (nonzero direction).
    pub open spec fn near(self, b: AABB, i: int) -> Param {
        if self.d(i) > 0 {
            Param { num: (b.lo(i) - self.o(i)) as i128, den: self.d(i) as i128 }
        } else {
            Param { num: (self.o(i) - b.hi(i)) as i128, den: -self.d(i) as i128 }
        }
    }

    /// Parameter at which the ray leaves the slab of `b` on axis `i` (nonzero direction).
    pub open spec fn far(self, b: AABB, i: int) -> Param {
        if self.d(i) > 0 {
            Param { num: (b.hi(i) - self.o(i)) as i128, den: self.d(i) as i128 }
        } else {
            Param { num: (self.o(i) - b.lo(i)) as i128, den: -self.d(i) as i128 }
        }
    }

    /// Latest slab entry over the first `k` axes; axes the ray runs parallel to are skipped.
    pub open spec fn entry_upto(self, b: AABB, k: int) -> Option<Param>
        decreases k,
    {
        if k <= 0 {
            None
        } else if self.d(k - 1) == 0 {
            self.entry_upto(b, k - 1)
        } else {
            p_max(self.entry_upto(b, k - 1), self.near(b, k - 1))
        }
    }

    /// Earliest slab exit over the first `k` axes.
    pub open spec fn exit_upto(self, b: AABB, k: int) -> Option<Param>
        decreases k,
    {
        if k <= 0 {
            None
        } else if self.d(k - 1) == 0 {
            self.exit_upto(b, k - 1)
        } else {
            p_min(self.exit_upto(b, k - 1), self.far(b, k - 1))
        }
    }

    /// On axis `i` the ray runs parallel to the slab of `b` without lying strictly inside it.
    pub open spec fn parallel_miss(self, b: AABB, i: int) -> bool {
        self.d(i) == 0 && !(b.lo(i) < self.o(i) < b.hi(i))
    }

    /// Slab test: entry and exit parameters, or `None` when the box lies behind
    /// the ray or the ray misses it.
    pub open spec fn slab(self, b: AABB) -> Option<(Param, Param)> {
        if self.parallel_miss(b, 0) || self.parallel_miss(b, 1) || self.parallel_miss(b, 2) {
            None
        } else {
            match (self.entry_upto(b, 3), self.exit_upto(b, 3)) {
                (Some(n), Some(f)) => if f.num <= 0 || !p_lt(n, f) {
                    None
                } else {
                    Some((n, f))
                },
                _ => None,
            }
        }
    }

    /// Hit distance: the entry, or the exit when the origin is already inside.
    pub open spec fn hit(self, b: AABB) -> Option<Param> {
        match self.slab(b) {
            Some((n, f)) => Some(
                if n.num <= 0 {
                    f
                } else {
                    n
                },
            ),
            None => None,
        }
    }

    /// The point at parameter `t`, as a scaled point with denominator `t.den`.
    pub open spec fn point_at(self, t: Param) -> RatPoint {
        RatPoint {
            x: (self.origin.x * t.den + self.dir.x * t.num) as i128,
            y: (self.origin.y * t.den + self.dir.y * t.num) as i128,
            z: (self.origin.z * t.den + self.dir.z * t.num) as i128,
            scale: t.den,
        }
    }

    pub fn new(origin: Vec3, dir: Vec3) -> (r: Ray)
        requires
            origin.in_range(),
            -DIR_LIMIT <= dir.x <= DIR_LIMIT,
            -DIR_LIMIT <= dir.y <= DIR_LIMIT,
            -DIR_LIMIT <= dir.z <= DIR_LIMIT,
            dir.x != 0 || dir.y != 0 || dir.z != 0,
        ensures
            r.origin == origin && r.dir == dir,
            r.wf(),
    {
        Ray { origin, dir }
    }

    /// `origin + dir * t`.
    pub fn point(&self, t: &Param) -> (r: RatPoint)
        requires
            self.wf(),
            t.wf(),
        ensures
            r == self.point_at(*t),
            r.wf(),
    {
        proof {
            lemma_point_bounds(self.origin.x as int, self.dir.x as int, *t);
            lemma_point_bounds(self.origin.y as int, self.dir.y as int, *t);
            lemma_point_bounds(self.origin.z as int, self.dir.z as int, *t);
        }
        RatPoint {
            x: (self.origin.x as i128) * t.den + (self.dir.x as i128) * t.num,
            y: (self.origin.y as i128) * t.den + (self.dir.y as i128) * t.num,
            z: (self.origin.z as i128) * t.den + (self.dir.z as i128) * t.num,
            scale: t.den,
        }
    }

    /// Parameter at which the ray meets the plane through `v` across axis `i`,
    /// or `None` when the ray runs parallel to it.
    pub fn t(&self, v: &Vec3, i: usize) -> (r: Option<Param>)
        requires
            self.wf(),
            v.in_range(),
            i < 3,
        ensures
            self.d(i as int) == 0 ==> r is None,
            self.d(i as int) != 0 ==> r == Some(
                if self.d(i as int) > 0 {
                    Param {
                        num: (v.axis(i as int) - self.o(i as int)) as i128,
                        den: self.d(i as int) as i128,
                    }
                } else {
                    Param {
                        num: (self.o(i as int) - v.axis(i as int)) as i128,
                        den: -self.d(i as int) as i128,
                    }
                },
            ),
            r matches Some(p) ==> p.wf(),
    {
        let d = self.dir.get(i);
        let o = self.origin.get(i);
        let c = v.get(i);
        if d == 0 {
            None
        } else if d > 0 {
            Some(Param { num: (c - o) as i128, den: d as i128 })
        } else {
            Some(Param { num: (o - c) as i128, den: -d as i128 })
        }
    }
}

proof fn lemma_point_bounds(o: int, d: int, t: Param)
    requires
        -COORD_LIMIT <= o <= COORD_LIMIT,
        -DIR_LIMIT <= d <= DIR_LIMIT,
        t.wf(),
    ensures
        -COORD_LIMIT * DIR_LIMIT <= o * t.den <= COORD_LIMIT * DIR_LIMIT,
        -DIR_LIMIT * PARAM_LIMIT <= d * t.num <= DIR_LIMIT * PARAM_LIMIT,
        -COORD_LIMIT * DIR_LIMIT - DIR_LIMIT * PARAM_LIMIT <= o * t.den + d * t.num
            <= COORD_LIMIT * DIR_LIMIT + DIR_LIMIT * PARAM_LIMIT,
{
    assert(-COORD_LIMIT * DIR_LIMIT <= o * t.den <= COORD_LIMIT * DIR_LIMIT) by (nonlinear_arith)
        requires
            -COORD_LIMIT <= o <= COORD_LIMIT,
            t.wf(),
    ;
    assert(-DIR_LIMIT * PARAM_LIMIT <= d * t.num <= DIR_LIMIT * PARAM_LIMIT) by (nonlinear_arith)
        requires
            -DIR_LIMIT <= d <= DIR_LIMIT,
            t.wf(),
    ;
}

/// Resolves a point lying on a splitting plane by the sign of the direction there.
pub open spec fn tie_break(c: Ordering, d: int) -> Ordering {
    if c == Ordering::Equal {
        if d > 0 {
            Ordering::Greater
        } else if d < 0 {
            Ordering::Less
        } else {
            Ordering::Equal
        }
    } else {
        c
    }
}

/// Which axes hold the largest of three magnitudes; all tied axes are marked.
pub open spec fn widest(ax: int, ay: int, az: int) -> (bool, bool, bool) {
    if ax > ay {
        if ax > az {
            (true, false, false)
        } else if az > ax {
            (false, false, true)
        } else {
            (true, false, true)
        }
    } else if ay > ax {
        if ay > az {
            (false, true, false)
        } else if az > ay {
            (false, false, true)
        } else {
            (false, true, true)
        }
    } else {
        if ax > az {
            (true, true, false)
        } else if az > ax {
            (false, false, true)
        } else {
            (true, true, true)
        }
    }
}

pub open spec fn abs_int(a: int) -> int {
    if a < 0 {
        -a
    } else {
        a
    }
}

impl Ray {
    /// Octant of `b` in which the ray lies at parameter `pivot`. A coordinate on a
    /// splitting plane is resolved by the direction on that axis; `None` when the
    /// direction is zero there too.
    pub open spec fn octant_at_spec(self, pivot: Param, b: AABB) -> Option<Octant> {
        let p = self.point_at(pivot);
        let sx = tie_break(compare(p.axis(0), b.center_at(0) * p.scale), self.d(0));
        let sy = tie_break(compare(p.axis(1), b.center_at(1) * p.scale), self.d(1));
        let sz = tie_break(compare(p.axis(2), b.center_at(2) * p.scale), self.d(2));
        if sx == Ordering::Equal || sy == Ordering::Equal || sz == Ordering::Equal {
            None
        } else {
            Some(
                Octant {
                    x: sx == Ordering::Greater,
                    y: sy == Ordering::Greater,
                    z: sz == Ordering::Greater,
                },
            )
        }
    }

    /// Offset on axis `i` from the center of octant `o` of `b` to the ray's point
    /// at `pivot`, scaled by the positive factor `2 * pivot.den`.
    pub open spec fn offset(self, o: Octant, pivot: Param, b: AABB, i: int) -> int {
        let q = b.octant_box(o);
        2 * self.point_at(pivot).axis(i) - (q.lo(i) + q.hi(i)) * pivot.den
    }

    /// The neighbouring octant the ray moves into: the axes of largest offset from
    /// the current octant's center take the side the point lies on.
    pub open spec fn next_octant_spec(self, o: Octant, pivot: Param, b: AABB) -> Octant {
        let (wx, wy, wz) = widest(
            abs_int(self.offset(o, pivot, b, 0)),
            abs_int(self.offset(o, pivot, b, 1)),
            abs_int(self.offset(o, pivot, b, 2)),
        );
        Octant {
            x: if wx {
                self.offset(o, pivot, b, 0) > 0
            } else {
                o.x
            },
            y: if wy {
                self.offset(o, pivot, b, 1) > 0
            } else {
                o.y
            },
            z: if wz {
                self.offset(o, pivot, b, 2) > 0
            } else {
                o.z
            },
        }
    }

    /// Octant of `b` holding the ray's point at `pivot`.
    pub fn octant_at(&self, pivot: &Param, b: &AABB) -> (r: Option<Octant>)
        requires
            self.wf(),
            pivot.wf(),
            b.wf(),
        ensures
            r == self.octant_at_spec(*pivot, *b),
    {
        let p = self.point(pivot);
        let s = b.is_on_octant(&p);
        let x = resolve(s[0], self.dir.x);
        let y = resolve(s[1], self.dir.y);
        let z = resolve(s[2], self.dir.z);
        assert(s@[0] == compare(p.axis(0), b.center_at(0) * p.scale));
        assert(s@[1] == compare(p.axis(1), b.center_at(1) * p.scale));
        assert(s@[2] == compare(p.axis(2), b.center_at(2) * p.scale));
        if matches!(x, Ordering::Equal) || matches!(y, Ordering::Equal) || matches!(z, Ordering::Equal) {
            None
        } else {
            Some(
                Octant {
                    x: matches!(x, Ordering::Greater),
                    y: matches!(y, Ordering::Greater),
                    z: matches!(z, Ordering::Greater),
                },
            )
        }
    }

    /// Octant entered after leaving octant `o` of `b` at parameter `pivot`. Equal
    /// to `o` when the walk cannot go on.
    pub fn next_octant(&self, o: Octant, pivot: &Param, b: &AABB) -> (r: Octant)
        requires
            self.wf(),
            pivot.wf(),
            b.wf(),
        ensures
            r == self.next_octant_spec(o, *pivot, *b),
    {
        let p = self.point(pivot);
        let q = b.get_octant(o);
        let cx = axis_offset(p.x, q.min.x, q.max.x, pivot.den);
        let cy = axis_offset(p.y, q.min.y, q.max.y, pivot.den);
        let cz = axis_offset(p.z, q.min.z, q.max.z, pivot.den);
        let ax = if cx < 0 { -cx } else { cx };
        let ay = if cy < 0 { -cy } else { cy };
        let az = if cz < 0 { -cz } else { cz };
        let (wx, wy, wz) = if ax > ay {
            if ax > az {
                (true, false, false)
            } else if az > ax {
                (false, false, true)
            } else {
                (true, false, true)
            }
        } else if ay > ax {
            if ay > az {
                (false, true, false)
            } else if az > ay {
                (false, false, true)
            } else {
                (false, true, true)
            }
        } else {
            if ax > az {
                (true, true, false)
            } else if az > ax {
                (false, false, true)
            } else {
                (true, true, true)
            }
        };
        let mut r = o;
        if wx {
            r.x = cx > 0;
        }
        if wy {
            r.y = cy > 0;
        }
        if wz {
            r.z = cz > 0;
        }
        r
    }
}

fn resolve(c: Ordering, d: i64) -> (r: Ordering)
    ensures
        r == tie_break(c, d as int),
{
    if matches!(c, Ordering::Equal) {
        if d > 0 {
            Ordering::Greater
        } else if d < 0 {
            Ordering::Less
        } else {
            Ordering::Equal
        }
    } else {
        c
    }
}

/// `2 * p - (lo + hi) * den` for a scaled coordinate `p`.
fn axis_offset(p: i128, lo: i64, hi: i64, den: i128) -> (r: i128)
    requires
        -crate::vec3::SCALED_LIMIT <= p <= crate::vec3::SCALED_LIMIT,
        -COORD_LIMIT <= lo <= COORD_LIMIT,
        -COORD_LIMIT <= hi <= COORD_LIMIT,
        1 <= den <= DIR_LIMIT,
    ensures
        r == 2 * p - (lo + hi) * den,
        -4 * crate::vec3::SCALED_LIMIT <= r <= 4 * crate::vec3::SCALED_LIMIT,
{
    assert(-2 * COORD_LIMIT * DIR_LIMIT <= (lo + hi) * den <= 2 * COORD_LIMIT * DIR_LIMIT) by (nonlinear_arith)
        requires
            -2 * COORD_LIMIT <= lo + hi <= 2 * COORD_LIMIT,
            1 <= den <= DIR_LIMIT,
    ;
    2 * p - ((lo as i128) + (hi as i128)) * den
}

impl AABB {
    /// Slab test against `ray`: entry and exit parameters while the box is ahead.
    pub fn intersects_ray_raw(&self, ray: &Ray) -> (r: Option<(Param, Param)>)
        requires
            self.wf(),
            ray.wf(),
        ensures
            r == ray.slab(*self),
            r matches Some((n, f)) ==> n.wf() && f.wf(),
    {
        let mut t_min: Option<Param> = None;
        let mut t_max: Option<Param> = None;
        let mut i: usize = 0;
        while i < 3
            invariant
                self.wf(),
                ray.wf(),
                i <= 3,
                t_min == ray.entry_upto(*self, i as int),
                t_max == ray.exit_upto(*self, i as int),
                t_min matches Some(p) ==> p.wf(),
                t_max matches Some(p) ==> p.wf(),
                forall|j: int| 0 <= j < i ==> !#[trigger] ray.parallel_miss(*self, j),
            decreases 3 - i,
        {
            let d = ray.dir.get(i);
            let o = ray.origin.get(i);
            let lo = self.min.get(i);
            let hi = self.max.get(i);
            if d == 0 {
                if !(lo < o && o < hi) {
                    assert(ray.parallel_miss(*self, i as int));
                    return None;
                }
            } else {
                let (near, far) = if d > 0 {
                    (Param { num: (lo - o) as i128, den: d as i128 }, Param { num: (hi - o) as i128, den: d as i128 })
                } else {
                    (Param { num: (o - hi) as i128, den: -d as i128 }, Param { num: (o - lo) as i128, den: -d as i128 })
                };
                assert(near == ray.near(*self, i as int));
                assert(far == ray.far(*self, i as int));
                t_min = match t_min {
                    None => Some(near),
                    Some(m) => if m.lt(&near) {
                        Some(near)
                    } else {
                        Some(m)
                    },
                };
                t_max = match t_max {
                    None => Some(far),
                    Some(m) => if far.lt(&m) {
                        Some(far)
                    } else {
                        Some(m)
                    },
                };
            }
            i = i + 1;
        }
        assert(!ray.parallel_miss(*self, 0) && !ray.parallel_miss(*self, 1) && !ray.parallel_miss(*self, 2));
        match (t_min, t_max) {
            (Some(n), Some(f)) => {
                if f.num <= 0 || !n.lt(&f) {
                    None
                } else {
                    Some((n, f))
                }
            },
            _ => None,
        }
    }

    /// Distance along `ray` to this box: the entry, or the exit when the origin is inside.
    pub fn intersects_ray(&self, ray: &Ray) -> (r: Option<Param>)
        requires
            self.wf(),
            ray.wf(),
        ensures
            r == ray.hit(*self),
            r matches Some(t) ==> t.wf(),
    {
        match self.intersects_ray_raw(ray) {
            Some((n, f)) => Some(
                if n.num <= 0 {
                    f
                } else {
                    n
                },
            ),
            None => None,
        }
    }
}

proof fn lemma_le_lt_trans(a: Param, b: Param, c: Param)
    requires
        a.den >= 1,
        b.den >= 1,
        c.den >= 1,
        p_le(a, b),
        p_lt(b, c),
    ensures
        p_lt(a, c),
{
    assert(a.num * c.den < c.num * a.den) by (nonlinear_arith)
        requires
            a.den >= 1,
            b.den >= 1,
            c.den >= 1,
            a.num * b.den <= b.num * a.den,
            b.num * c.den < c.num * b.den,
    ;
}

pub proof fn lemma_lt_le_trans(a: Param, b: Param, c: Param)
    requires
        a.den >= 1,
        b.den >= 1,
        c.den >= 1,
        p_lt(a, b),
        p_le(b, c),
    ensures
        p_lt(a, c),
{
    assert(a.num * c.den < c.num * a.den) by (nonlinear_arith)
        requires
            a.den >= 1,
            b.den >= 1,
            c.den >= 1,
            a.num * b.den < b.num * a.den,
            b.num * c.den <= c.num * b.den,
    ;
}

proof fn lemma_le_trans(a: Param, b: Param, c: Param)
    requires
        a.den >= 1,
        b.den >= 1,
        c.den >= 1,
        p_le(a, b),
        p_le(b, c),
    ensures
        p_le(a, c),
{
    assert(a.num * c.den <= c.num * a.den) by (nonlinear_arith)
        requires
            a.den >= 1,
            b.den >= 1,
            c.den >= 1,
            a.num * b.den <= b.num * a.den,
            b.num * c.den <= c.num * b.den,
    ;
}

impl Ray {
    pub proof fn lemma_slab_params_wf(self, b: AABB, i: int)
        requires
            self.wf(),
            b.wf(),
            0 <= i < 3,
            self.d(i) != 0,
        ensures
            self.near(b, i).wf(),
            self.far(b, i).wf(),
    {
    }

    /// The running entry is the entry of one of the first `k` axes, and no axis
    /// among them is entered later.
    pub proof fn lemma_entry_upto(self, b: AABB, k: int)
        requires
            self.wf(),
            b.wf(),
            0 <= k <= 3,
        ensures
            self.entry_upto(b, k) matches Some(n) ==> {
                &&& n.wf()
                &&& exists|a: int| 0 <= a < k && self.d(a) != 0 && n == #[trigger] self.near(b, a)
                &&& forall|i: int| 0 <= i < k && self.d(i) != 0 ==> p_le(#[trigger] self.near(b, i), n)
            },
            self.entry_upto(b, k) is None ==> forall|i: int| 0 <= i < k ==> #[trigger] self.d(i) == 0,
        decreases k,
    {
        if k > 0 {
            self.lemma_entry_upto(b, k - 1);
            if self.d(k - 1) != 0 {
                self.lemma_slab_params_wf(b, k - 1);
                let p = self.near(b, k - 1);
                match self.entry_upto(b, k - 1) {
                    None => {
                        assert(p_le(p, p));
                    },
                    Some(x) => {
                        if p_lt(x, p) {
                            assert forall|i: int| 0 <= i < k && self.d(i) != 0 implies p_le(#[trigger] self.near(b, i), p) by {
                                if i < k - 1 {
                                    lemma_le_lt_trans(self.near(b, i), x, p);
                                }
                            }
                        } else {
                            assert(p_le(p, x));
                        }
                    },
                }
            }
        }
    }

    /// The running exit is the exit of one of the first `k` axes, and no axis
    /// among them is left earlier.
    pub proof fn lemma_exit_upto(self, b: AABB, k: int)
        requires
            self.wf(),
            b.wf(),
            0 <= k <= 3,
        ensures
            self.exit_upto(b, k) matches Some(f) ==> {
                &&& f.wf()
                &&& exists|a: int| 0 <= a < k && self.d(a) != 0 && f == #[trigger] self.far(b, a)
                &&& forall|i: int| 0 <= i < k && self.d(i) != 0 ==> p_le(f, #[trigger] self.far(b, i))
            },
            self.exit_upto(b, k) is None ==> forall|i: int| 0 <= i < k ==> #[trigger] self.d(i) == 0,
        decreases k,
    {
        if k > 0 {
            self.lemma_exit_upto(b, k - 1);
            if self.d(k - 1) != 0 {
                self.lemma_slab_params_wf(b, k - 1);
                let p = self.far(b, k - 1);
                match self.exit_upto(b, k - 1) {
                    None => {
                        assert(p_le(p, p));
                    },
                    Some(x) => {
                        if p_lt(p, x) {
                            assert forall|i: int| 0 <= i < k && self.d(i) != 0 implies p_le(p, #[trigger] self.far(b, i)) by {
                                if i < k - 1 {
                                    assert(p_le(p, x)) by (nonlinear_arith)
                                        requires
                                            p.num * x.den < x.num * p.den,
                                    ;
                                    lemma_le_trans(p, x, self.far(b, i));
                                }
                            }
                        } else {
                            assert(p_le(x, p)) by (nonlinear_arith)
                                requires
                                    !(p.num * x.den < x.num * p.den),
                            ;
                        }
                    },
                }
            }
        }
    }
}

/// Between the slab entry and exit of axis `i`, the ray's point lies within the
/// box on that axis; at the entry or exit it lies on a face.
proof fn lemma_axis_between(ray: Ray, b: AABB, i: int, t: Param)
    requires
        ray.wf(),
        b.wf(),
        0 <= i < 3,
        ray.d(i) != 0,
        t.wf(),
        p_le(ray.near(b, i), t),
        p_le(t, ray.far(b, i)),
    ensures
        b.lo(i) * t.den <= ray.point_at(t).axis(i) <= b.hi(i) * t.den,
        t == ray.near(b, i) || t == ray.far(b, i) ==> ray.point_at(t).axis(i) == b.lo(i) * t.den
            || ray.point_at(t).axis(i) == b.hi(i) * t.den,
{
    lemma_point_bounds(ray.o(0), ray.d(0), t);
    lemma_point_bounds(ray.o(1), ray.d(1), t);
    lemma_point_bounds(ray.o(2), ray.d(2), t);
    let o = ray.o(i);
    let d = ray.d(i);
    let lo = b.lo(i);
    let hi = b.hi(i);
    let pv = o * t.den + d * t.num;
    assert(ray.point_at(t).axis(i) == pv);
    if d > 0 {
        assert(lo * t.den <= pv <= hi * t.den) by (nonlinear_arith)
            requires
                d > 0,
                t.den >= 1,
                (lo - o) * t.den <= t.num * d,
                t.num * d <= (hi - o) * t.den,
                pv == o * t.den + d * t.num,
        ;
    } else {
        assert(lo * t.den <= pv <= hi * t.den) by (nonlinear_arith)
            requires
                d < 0,
                t.den >= 1,
                (o - hi) * t.den <= t.num * (-d),
                t.num * (-d) <= (o - lo) * t.den,
                pv == o * t.den + d * t.num,
        ;
    }
    if t == ray.near(b, i) || t == ray.far(b, i) {
        if d > 0 {
            if t == ray.near(b, i) {
                assert(pv == lo * t.den) by (nonlinear_arith)
                    requires
                        t.num == lo - o,
                        t.den == d,
                        pv == o * t.den + d * t.num,
                ;
            } else {
                assert(pv == hi * t.den) by (nonlinear_arith)
                    requires
                        t.num == hi - o,
                        t.den == d,
                        pv == o * t.den + d * t.num,
                ;
            }
        } else {
            if t == ray.near(b, i) {
                assert(pv == hi * t.den) by (nonlinear_arith)
                    requires
                        t.num == o - hi,
                        t.den == -d,
                        pv == o * t.den + d * t.num,
                ;
            } else {
                assert(pv == lo * t.den) by (nonlinear_arith)
                    requires
                        t.num == o - lo,
                        t.den == -d,
                        pv == o * t.den + d * t.num,
                ;
            }
        }
    }
}

/// Where a ray hits a box, its point lies on the box's boundary: within the box
/// on every axis and on a face of one axis. Coordinates are compared scaled by
/// the hit distance's denominator.
pub proof fn lemma_hit_on_boundary(ray: Ray, b: AABB)
    requires
        ray.wf(),
        b.wf(),
        ray.hit(b) is Some,
    ensures
        ({
            let t = ray.hit(b).unwrap();
            let p = ray.point_at(t);
            &&& forall|i: int| 0 <= i < 3 ==> b.lo(i) * p.scale <= #[trigger] p.axis(i) <= b.hi(i) * p.scale
            &&& exists|i: int|
                0 <= i < 3 && (#[trigger] p.axis(i) == b.lo(i) * p.scale || p.axis(i) == b.hi(i) * p.scale)
        }),
{
    ray.lemma_entry_upto(b, 3);
    ray.lemma_exit_upto(b, 3);
    let n = ray.entry_upto(b, 3).unwrap();
    let f = ray.exit_upto(b, 3).unwrap();
    let t = ray.hit(b).unwrap();
    let p = ray.point_at(t);
    assert(p_lt(n, f));
    assert(p_le(n, t) && p_le(t, f)) by {
        assert(p_le(n, n) && p_le(f, f));
        assert(p_le(n, f)) by (nonlinear_arith)
            requires
                n.num * f.den < f.num * n.den,
        ;
    }
    assert forall|i: int| 0 <= i < 3 implies b.lo(i) * p.scale <= #[trigger] p.axis(i) <= b.hi(i) * p.scale by {
        if ray.d(i) != 0 {
            lemma_le_trans(ray.near(b, i), n, t);
            lemma_le_trans(t, f, ray.far(b, i));
            lemma_axis_between(ray, b, i, t);
        } else {
            lemma_point_bounds(ray.o(i), ray.d(i), t);
            assert(!ray.parallel_miss(b, i));
            assert(p.axis(i) == ray.o(i) * t.den);
            assert(b.lo(i) * t.den <= ray.o(i) * t.den <= b.hi(i) * t.den) by (nonlinear_arith)
                requires
                    b.lo(i) < ray.o(i) < b.hi(i),
                    t.den >= 1,
            ;
        }
    }
    let a = if t == n {
        choose|a: int| 0 <= a < 3 && ray.d(a) != 0 && n == #[trigger] ray.near(b, a)
    } else {
        choose|a: int| 0 <= a < 3 && ray.d(a) != 0 && f == #[trigger] ray.far(b, a)
    };
    lemma_le_trans(ray.near(b, a), n, t);
    lemma_le_trans(t, f, ray.far(b, a));
    lemma_axis_between(ray, b, a, t);
    assert(p.axis(a) == b.lo(a) * p.scale || p.axis(a) == b.hi(a) * p.scale);
}

/// A ray that hits a box also meets every box covering it.
pub proof fn lemma_hit_covering(ray: Ray, b: AABB, outer: AABB)
    requires
        ray.wf(),
        b.wf(),
        outer.wf(),
        outer.covers(b),
        ray.slab(b) is Some,
    ensures
        ray.slab(outer) is Some,
        p_le(ray.entry_upto(outer, 3).unwrap(), ray.entry_upto(b, 3).unwrap()),
{
    ray.lemma_entry_upto(b, 3);
    ray.lemma_exit_upto(b, 3);
    ray.lemma_entry_upto(outer, 3);
    ray.lemma_exit_upto(outer, 3);
    assert(!ray.parallel_miss(b, 0) && !ray.parallel_miss(b, 1) && !ray.parallel_miss(b, 2));
    assert(outer.lo(0) <= b.lo(0) && b.hi(0) <= outer.hi(0));
    assert(outer.lo(1) <= b.lo(1) && b.hi(1) <= outer.hi(1));
    assert(outer.lo(2) <= b.lo(2) && b.hi(2) <= outer.hi(2));
    assert(!ray.parallel_miss(outer, 0) && !ray.parallel_miss(outer, 1) && !ray.parallel_miss(outer, 2));
    let n = ray.entry_upto(b, 3).unwrap();
    let f = ray.exit_upto(b, 3).unwrap();
    let n2 = ray.entry_upto(outer, 3).unwrap();
    let f2 = ray.exit_upto(outer, 3).unwrap();
    let a = choose|a: int| 0 <= a < 3 && ray.d(a) != 0 && n2 == #[trigger] ray.near(outer, a);
    let a2 = choose|a: int| 0 <= a < 3 && ray.d(a) != 0 && f2 == #[trigger] ray.far(outer, a);
    lemma_near_far_outer(ray, b, outer, a);
    lemma_near_far_outer(ray, b, outer, a2);
    ray.lemma_slab_params_wf(b, a);
    ray.lemma_slab_params_wf(outer, a);
    ray.lemma_slab_params_wf(b, a2);
    ray.lemma_slab_params_wf(outer, a2);
    lemma_le_trans(n2, ray.near(b, a), n);
    lemma_le_trans(f, ray.far(b, a2), f2);
    lemma_le_lt_trans(n2, n, f);
    assert(p_lt(n2, f2)) by {
        assert(n2.num * f2.den < f2.num * n2.den) by (nonlinear_arith)
            requires
                n2.den >= 1,
                f.den >= 1,
                f2.den >= 1,
                n2.num * f.den < f.num * n2.den,
                f.num * f2.den <= f2.num * f.den,
        ;
    }
    assert(f2.num > 0) by (nonlinear_arith)
        requires
            f.num > 0,
            f.den >= 1,
            f2.den >= 1,
            f.num * f2.den <= f2.num * f.den,
    ;
}

/// On each axis a covering box is entered no later and left no earlier.
proof fn lemma_near_far_outer(ray: Ray, b: AABB, outer: AABB, i: int)
    requires
        ray.wf(),
        b.wf(),
        outer.wf(),
        outer.covers(b),
        0 <= i < 3,
        ray.d(i) != 0,
    ensures
        p_le(ray.near(outer, i), ray.near(b, i)),
        p_le(ray.far(b, i), ray.far(outer, i)),
{
    assert(outer.lo(i) <= b.lo(i) && b.hi(i) <= outer.hi(i));
    let d = ray.d(i);
    let o = ray.o(i);
    if d > 0 {
        assert((outer.lo(i) - o) * d <= (b.lo(i) - o) * d) by (nonlinear_arith)
            requires
                d > 0,
                outer.lo(i) <= b.lo(i),
        ;
        assert((b.hi(i) - o) * d <= (outer.hi(i) - o) * d) by (nonlinear_arith)
            requires
                d > 0,
                b.hi(i) <= outer.hi(i),
        ;
    } else {
        assert((o - outer.hi(i)) * (-d) <= (o - b.hi(i)) * (-d)) by (nonlinear_arith)
            requires
                d < 0,
                b.hi(i) <= outer.hi(i),
        ;
        assert((o - b.lo(i)) * (-d) <= (o - outer.lo(i)) * (-d)) by (nonlinear_arith)
            requires
                d < 0,
                outer.lo(i) <= b.lo(i),
        ;
    }
}

/// A hit distance is a well-formed parameter.
pub proof fn lemma_hit_wf(ray: Ray, b: AABB)
    requires
        ray.wf(),
        b.wf(),
        ray.hit(b) is Some,
    ensures
        ray.hit(b).unwrap().wf(),
{
    ray.lemma_entry_upto(b, 3);
    ray.lemma_exit_upto(b, 3);
}

/// `a` is at most `b`, where an absent bound stands for plus infinity.
pub open spec fn le_opt(a: Option<Param>, b: Option<Param>) -> bool {
    match (a, b) {
        (_, None) => true,
        (None, Some(_)) => false,
        (Some(x), Some(y)) => p_le(x, y),
    }
}

pub proof fn lemma_le_opt_trans(a: Option<Param>, b: Option<Param>, c: Option<Param>)
    requires
        a matches Some(x) ==> x.wf(),
        b matches Some(x) ==> x.wf(),
        c matches Some(x) ==> x.wf(),
        le_opt(a, b),
        le_opt(b, c),
    ensures
        le_opt(a, c),
{
    if a is Some && b is Some && c is Some {
        lemma_le_trans(a.unwrap(), b.unwrap(), c.unwrap());
    }
}

} // verus!
