use octree_index::aabb::{Octant, AABB};
use octree_index::ray::{Param, Ray};
use octree_index::vec3::{RatPoint, Vec3};

fn bx(min: (i64, i64, i64), max: (i64, i64, i64)) -> AABB {
    AABB::new(Vec3::new(min.0, min.1, min.2), Vec3::new(max.0, max.1, max.2))
}

fn ray(o: (i64, i64, i64), d: (i64, i64, i64)) -> Ray {
    Ray::new(Vec3::new(o.0, o.1, o.2), Vec3::new(d.0, d.1, d.2))
}

#[test]
fn param_compares_as_fractions() {
    let a = Param::new(1, 3);
    let b = Param::new(2, 5);
    assert!(a.lt(&b));
    assert!(!b.lt(&a));
    assert!(Param::new(2, 4).le(&Param::new(1, 2)));
    assert!(!Param::new(2, 4).lt(&Param::new(1, 2)));
    assert_eq!(Param::zero(), Param::new(0, 1));
}

#[test]
fn ray_point_is_scaled() {
    let r = ray((1, 2, 3), (2, 0, -1));
    assert_eq!(r.point(&Param::new(3, 2)), RatPoint { x: 8, y: 4, z: 3, scale: 2 });
}

#[test]
fn ray_t_per_axis() {
    let r = ray((1, 2, 3), (2, 0, -4));
    let v = Vec3::new(5, 7, -1);
    assert_eq!(r.t(&v, 0), Some(Param::new(4, 2)));
    assert_eq!(r.t(&v, 1), None);
    assert_eq!(r.t(&v, 2), Some(Param::new(4, 4)));
}

#[test]
fn slab_hit_ahead() {
    let b = bx((2, -1, -1), (4, 1, 1));
    let r = ray((0, 0, 0), (1, 0, 0));
    assert_eq!(b.intersects_ray_raw(&r), Some((Param::new(2, 1), Param::new(4, 1))));
    assert_eq!(b.intersects_ray(&r), Some(Param::new(2, 1)));
}

#[test]
fn slab_box_behind() {
    let b = bx((-4, -1, -1), (-2, 1, 1));
    let r = ray((0, 0, 0), (1, 0, 0));
    assert_eq!(b.intersects_ray_raw(&r), None);
    assert_eq!(b.intersects_ray(&r), None);
}

#[test]
fn slab_origin_inside_gives_exit() {
    let b = bx((-2, -2, -2), (2, 2, 2));
    let r = ray((0, 0, 0), (0, 0, -2));
    assert_eq!(b.intersects_ray_raw(&r), Some((Param::new(-2, 2), Param::new(2, 2))));
    assert_eq!(b.intersects_ray(&r), Some(Param::new(2, 2)));
}

#[test]
fn slab_parallel_axis() {
    let b = bx((2, -1, -1), (4, 1, 1));
    assert_eq!(b.intersects_ray(&ray((0, 1, 0), (1, 0, 0))), None);
    assert_eq!(b.intersects_ray(&ray((0, 3, 0), (1, 0, 0))), None);
    assert_eq!(b.intersects_ray(&ray((0, 0, 0), (1, 0, 0))), Some(Param::new(2, 1)));
}

#[test]
fn slab_diagonal_miss() {
    let b = bx((2, 2, -1), (3, 3, 1));
    assert_eq!(b.intersects_ray(&ray((0, 0, 0), (1, -1, 0))), None);
    assert_eq!(b.intersects_ray(&ray((0, 0, 0), (1, 1, 0))), Some(Param::new(2, 1)));
}

#[test]
fn hit_point_lies_on_boundary() {
    let b = bx((3, -2, -5), (7, 6, 5));
    let r = ray((0, 1, 1), (2, 1, -1));
    let t = b.intersects_ray(&r).unwrap();
    let p = r.point(&t);
    let s = p.scale;
    let coords = [(p.x, 3, 7), (p.y, -2, 6), (p.z, -5, 5)];
    let mut on_face = false;
    for (v, lo, hi) in coords {
        assert!((lo as i128) * s <= v && v <= (hi as i128) * s);
        if v == (lo as i128) * s || v == (hi as i128) * s {
            on_face = true;
        }
    }
    assert!(on_face);
    assert_eq!(t, Param::new(3, 2));
}

#[test]
fn octant_at_breaks_ties_by_direction() {
    let b = bx((0, 0, 0), (10, 10, 10));
    let r = ray((5, 2, 8), (0, 1, 1));
    assert_eq!(r.octant_at(&Param::zero(), &b), None);
    let r1 = ray((5, 2, 8), (1, 1, 0));
    assert_eq!(r1.octant_at(&Param::zero(), &b), Some(Octant::new(true, false, true)));
    let r2 = ray((5, 2, 8), (-1, 1, 1));
    assert_eq!(r2.octant_at(&Param::zero(), &b), Some(Octant::new(false, false, true)));
    let r3 = ray((1, 2, 8), (1, 1, 0));
    assert_eq!(r3.octant_at(&Param::new(1, 1), &b), Some(Octant::new(false, false, true)));
}

#[test]
fn next_octant_steps_across_plane() {
    let b = bx((0, 0, 0), (10, 10, 10));
    let r = ray((-5, 2, 2), (1, 0, 0));
    let from = Octant::new(false, false, false);
    assert_eq!(r.next_octant(from, &Param::new(10, 1), &b), Octant::new(true, false, false));
    let same = r.next_octant(Octant::new(true, false, false), &Param::new(15, 1), &b);
    assert_eq!(same, Octant::new(true, false, false));
}
