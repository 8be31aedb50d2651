use octree_index::aabb::{Octant, AABB};
use octree_index::vec3::{RatPoint, Vec3};
use std::cmp::Ordering;

fn bx(min: (i64, i64, i64), max: (i64, i64, i64)) -> AABB {
    AABB::new(Vec3::new(min.0, min.1, min.2), Vec3::new(max.0, max.1, max.2))
}

#[test]
fn vec3_components() {
    let v = Vec3::new(1, 2, 3);
    assert_eq!(v.get(0), 1);
    assert_eq!(v.get(1), 2);
    assert_eq!(v.get(2), 3);
    assert_eq!(Vec3::splat(4), Vec3::new(4, 4, 4));
    assert_eq!(v.add(&Vec3::new(10, -20, 30)), Vec3::new(11, -18, 33));
}

#[test]
fn box_new_keeps_corners() {
    let b = bx((-1, -2, -3), (4, 5, 6));
    assert_eq!(b.min(), Vec3::new(-1, -2, -3));
    assert_eq!(b.max(), Vec3::new(4, 5, 6));
}

#[test]
fn box_new_accepts_flat_box() {
    let b = bx((1, 1, 1), (1, 2, 3));
    assert_eq!(b.x_length(), 0);
}

#[test]
fn from_size_is_centered() {
    let b = AABB::from_size(10);
    assert_eq!(b.min(), Vec3::splat(-5));
    assert_eq!(b.max(), Vec3::splat(5));
    let n = AABB::from_size(-10);
    assert_eq!(n, b);
    let odd = AABB::from_size(7);
    assert_eq!(odd.max(), Vec3::splat(3));
}

#[test]
fn from_size_offset_moves_cube() {
    let b = AABB::from_size_offset(4, Vec3::new(10, 20, 30));
    assert_eq!(b.min(), Vec3::new(8, 18, 28));
    assert_eq!(b.max(), Vec3::new(12, 22, 32));
}

#[test]
fn from_points_is_tightest() {
    let pts = vec![Vec3::new(0, 5, -1), Vec3::new(3, -2, 4), Vec3::new(-7, 1, 0)];
    let b = AABB::from_points(&pts, Vec3::new(1, 1, 1));
    assert_eq!(b.min(), Vec3::new(-6, -1, 0));
    assert_eq!(b.max(), Vec3::new(4, 6, 5));
}

#[test]
fn length_and_center() {
    let b = bx((-3, 0, 2), (5, 4, 3));
    assert_eq!(b.length(), Vec3::new(8, 4, 1));
    assert_eq!((b.x_length(), b.y_length(), b.z_length()), (8, 4, 1));
    assert_eq!(b.center(), Vec3::new(1, 2, 2));
    assert_eq!((b.center_x(), b.center_y(), b.center_z()), (1, 2, 2));
}

#[test]
fn center_rounds_down() {
    let b = bx((-3, -3, -3), (0, 0, 0));
    assert_eq!(b.center(), Vec3::splat(-2));
    let c = bx((1, 1, 1), (2, 2, 2));
    assert_eq!(c.center(), Vec3::splat(1));
}

#[test]
fn octant_classifies_sides() {
    assert_eq!(bx((1, 1, 1), (2, 2, 2)).octant(), Some(Octant::new(true, true, true)));
    assert_eq!(bx((-2, 1, -2), (-1, 2, -1)).octant(), Some(Octant::new(false, true, false)));
    assert_eq!(bx((0, 0, -2), (2, 2, 0)).octant(), Some(Octant::new(true, true, false)));
    assert_eq!(bx((-1, 1, 1), (1, 2, 2)).octant(), None);
}

#[test]
fn octant_around_point() {
    let b = bx((10, 10, 10), (20, 20, 20));
    assert_eq!(b.octant_around(&Vec3::new(5, 25, 10)), Some(Octant::new(true, false, true)));
    assert_eq!(b.octant_around(&Vec3::new(15, 0, 0)), None);
}

#[test]
fn get_octant_halves() {
    let b = bx((0, 0, 0), (10, 10, 10));
    assert_eq!(b.get_octant(Octant::new(false, false, false)), bx((0, 0, 0), (5, 5, 5)));
    assert_eq!(b.get_octant(Octant::new(true, false, true)), bx((5, 0, 5), (10, 5, 10)));
    let odd = bx((0, 0, 0), (5, 5, 5));
    assert_eq!(odd.get_octant(Octant::new(true, true, true)), bx((2, 2, 2), (5, 5, 5)));
}

#[test]
fn octants_partition_box() {
    let b = bx((-4, 0, 3), (7, 9, 10));
    let mut octs = Vec::new();
    for k in 0..8 {
        octs.push(b.get_octant(Octant::new(k & 4 != 0, k & 2 != 0, k & 1 != 0)));
    }
    for x in -4..=7 {
        for y in 0..=9 {
            for z in 3..=10 {
                let found = octs.iter().any(|o| {
                    o.min().x <= x && x <= o.max().x && o.min().y <= y && y <= o.max().y && o.min().z <= z
                        && z <= o.max().z
                });
                assert!(found);
            }
        }
    }
    for i in 0..8 {
        assert!(b.contains(&octs[i]));
        for j in 0..8 {
            if i != j {
                assert!(!octs[i].intersects(&octs[j]));
            }
        }
    }
}

#[test]
fn is_on_octant_compares_with_center() {
    let b = bx((0, 0, 0), (10, 10, 10));
    let r = b.is_on_octant(&RatPoint::from_vec3(Vec3::new(2, 5, 9)));
    assert_eq!(r, [Ordering::Less, Ordering::Equal, Ordering::Greater]);
    let half = RatPoint { x: 11, y: 10, z: 9, scale: 2 };
    assert_eq!(b.is_on_octant(&half), [Ordering::Greater, Ordering::Equal, Ordering::Less]);
}

#[test]
fn intersects_is_symmetric_and_exclusive() {
    let a = bx((0, 0, 0), (2, 2, 2));
    let b = bx((1, 1, 1), (3, 3, 3));
    let c = bx((2, 0, 0), (4, 2, 2));
    assert!(a.intersects(&b));
    assert!(b.intersects(&a));
    assert!(!a.intersects(&c));
    assert!(!c.intersects(&a));
    assert_eq!(b.intersects(&c), c.intersects(&b));
}

#[test]
fn overlaps_point_is_strict() {
    let a = bx((0, 0, 0), (2, 2, 2));
    assert!(a.overlaps_point(&Vec3::new(1, 1, 1)));
    assert!(!a.overlaps_point(&Vec3::new(0, 1, 1)));
    assert!(!a.overlaps_point(&Vec3::new(3, 1, 1)));
}

#[test]
fn contains_box() {
    let a = bx((0, 0, 0), (4, 4, 4));
    assert!(a.contains(&bx((0, 1, 2), (4, 3, 3))));
    assert!(!a.contains(&bx((0, 1, 2), (5, 3, 3))));
}

#[test]
fn extend_for_doubles_until_covered() {
    let a = bx((0, 0, 0), (2, 2, 2));
    let steps = a.extend_for(&bx((-3, 1, 1), (1, 1, 1)));
    assert_eq!(steps, vec![bx((-2, -2, -2), (2, 2, 2)), bx((-6, -6, -6), (2, 2, 2))]);
    let up = a.extend_for(&bx((1, 1, 1), (5, 1, 1)));
    assert_eq!(up, vec![bx((0, 0, 0), (4, 4, 4)), bx((0, 0, 0), (8, 8, 8))]);
    let both = a.extend_for(&bx((-1, 0, 0), (3, 1, 1)));
    assert_eq!(both, vec![bx((-2, -2, -2), (2, 2, 2)), bx((-2, -2, -2), (6, 6, 6))]);
    assert!(a.extend_for(&bx((0, 0, 0), (1, 1, 1))).is_empty());
}

#[test]
fn grow_toward_one_step() {
    let a = bx((0, 0, 0), (2, 2, 2));
    assert_eq!(a.grow_toward(&bx((0, 0, 0), (3, 1, 1))), bx((0, 0, 0), (4, 4, 4)));
}

#[test]
fn translate_and_scale() {
    let a = bx((0, 1, 2), (3, 4, 5));
    assert_eq!(a.add_scalar(2), bx((2, 3, 4), (5, 6, 7)));
    assert_eq!(a.sub_scalar(1), bx((-1, 0, 1), (2, 3, 4)));
    assert_eq!(a.add_vec(&Vec3::new(1, -1, 0)), bx((1, 0, 2), (4, 3, 5)));
    assert_eq!(a.sub_vec(&Vec3::new(1, -1, 0)), bx((-1, 2, 2), (2, 5, 5)));
    let mut m = a;
    m.mul_assign(3);
    assert_eq!(m, bx((0, 3, 6), (9, 12, 15)));
}

#[test]
fn extend_for_flat_box() {
    let a = bx((0, 0, 0), (4, 1, 2));
    let steps = a.extend_for(&bx((-1, 0, 0), (1, 1, 1)));
    assert_eq!(steps, vec![bx((-4, -1, -2), (4, 1, 2))]);
    let up = a.extend_for(&bx((0, 0, 0), (1, 3, 1)));
    assert_eq!(up, vec![bx((0, 0, 0), (8, 2, 4)), bx((0, 0, 0), (16, 4, 8))]);
}
