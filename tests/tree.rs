use octree_index::aabb::AABB;
use octree_index::func::Action;
use octree_index::octree::{Octree, OctreeEntity, OctreeNode, RayHitInfo, NULL_INDEX};
use octree_index::ray::{Param, Ray};
use octree_index::vec3::{RatPoint, Vec3};
use octree_index::Collides;

fn bx(min: (i64, i64, i64), max: (i64, i64, i64)) -> AABB {
    AABB::new(Vec3::new(min.0, min.1, min.2), Vec3::new(max.0, max.1, max.2))
}

fn cube(lo: i64, hi: i64) -> AABB {
    AABB::new(Vec3::splat(lo), Vec3::splat(hi))
}

fn tree() -> Octree {
    Octree::new(16, Vec3::splat(10), cube(-100, 100))
}

#[test]
fn new_tree_is_empty() {
    let t = tree();
    assert_eq!(t.len(), 0);
    assert!(t.is_empty());
    assert_eq!(*t.base_aabb(), cube(-100, 100));
}

#[test]
fn from_size_offset_sets_bound() {
    let t = Octree::from_size_offset(4, Vec3::splat(1), 20, Vec3::new(5, 0, -5));
    assert_eq!(*t.base_aabb(), bx((-5, -10, -15), (15, 10, 5)));
    assert!(t.is_empty());
}

#[test]
fn insert_then_remove_restores_count() {
    let mut t = tree();
    let b = cube(20, 30);
    assert!(t.insert(OctreeEntity::new(7, b)));
    assert_eq!(t.len(), 1);
    assert!(t.remove(7, b));
    assert_eq!(t.len(), 0);
    assert!(t.is_empty());
}

#[test]
fn insert_same_handle_twice() {
    let mut t = tree();
    let b = cube(20, 30);
    assert!(t.insert(OctreeEntity::new(7, b)));
    assert!(!t.insert(OctreeEntity::new(7, b)));
    assert_eq!(t.len(), 1);
}

#[test]
fn remove_absent_handle() {
    let mut t = tree();
    assert!(!t.remove(3, cube(20, 30)));
    assert!(t.insert(OctreeEntity::new(7, cube(20, 30))));
    assert!(!t.remove(3, cube(20, 30)));
    assert_eq!(t.len(), 1);
}

#[test]
fn raycast_on_empty_tree() {
    let t = tree();
    let r = Ray::new(Vec3::new(-500, 25, 25), Vec3::new(1, 0, 0));
    assert!(t.raycast(&r).is_none());
}

#[test]
fn raycast_scenario_two_boxes() {
    let mut t = tree();
    assert!(t.insert(OctreeEntity::new(1, cube(20, 30))));
    assert_eq!(t.len(), 1);
    assert!(t.insert(OctreeEntity::new(2, cube(-30, -20))));
    assert_eq!(t.len(), 2);
    let r = Ray::new(Vec3::new(-500, 25, 25), Vec3::new(1, 0, 0));
    let hit = t.raycast(&r).unwrap();
    assert_eq!(hit.entity, 1);
    assert_eq!(hit.aabb, cube(20, 30));
    assert_eq!(hit.t, Param::new(520, 1));
}

#[test]
fn raycast_takes_nearest_in_one_node() {
    let mut t = tree();
    assert!(t.insert(OctreeEntity::new(5, bx((40, -10, -10), (50, 10, 10)))));
    assert!(t.insert(OctreeEntity::new(4, bx((60, -10, -10), (70, 10, 10)))));
    let r = Ray::new(Vec3::new(0, 0, 0), Vec3::new(1, 0, 0));
    let hit = t.raycast(&r).unwrap();
    assert_eq!(hit.entity, 5);
    assert_eq!(hit.t, Param::new(40, 1));
}

#[test]
fn raycast_misses_everything() {
    let mut t = tree();
    assert!(t.insert(OctreeEntity::new(1, cube(20, 30))));
    let r = Ray::new(Vec3::new(-500, 80, 80), Vec3::new(1, 0, 0));
    assert!(t.raycast(&r).is_none());
}

#[test]
fn raycast_hit_moves_point_back() {
    let mut t = tree();
    assert!(t.insert(OctreeEntity::new(1, cube(20, 30))));
    let r = Ray::new(Vec3::new(-500, 25, 25), Vec3::new(2, 0, 0));
    let (hit, p) = t.raycast_hit(&r, 1).unwrap();
    assert_eq!(hit.t, Param::new(520, 2));
    assert_eq!(p, RatPoint { x: -500 * 2 + 2 * 519, y: 50, z: 50, scale: 2 });
}

#[test]
fn growth_keeps_records() {
    let mut t = tree();
    assert!(t.insert(OctreeEntity::new(1, cube(20, 30))));
    let far = cube(300, 310);
    assert!(t.insert(OctreeEntity::new(9, far)));
    assert_eq!(t.len(), 2);
    assert!(t.base_aabb().contains(&far));
    assert_eq!(*t.base_aabb(), cube(-100, 700));
    let r = Ray::new(Vec3::new(-500, 25, 25), Vec3::new(1, 0, 0));
    assert_eq!(t.raycast(&r).unwrap().entity, 1);
    assert_eq!(t.intersect(cube(25, 26)), vec![1]);
    let r2 = Ray::new(Vec3::new(305, 305, -900), Vec3::new(0, 0, 1));
    assert_eq!(t.raycast(&r2).unwrap().entity, 9);
    assert!(t.remove(1, cube(20, 30)));
    assert!(t.remove(9, far));
    assert!(t.is_empty());
}

#[test]
fn growth_on_low_side() {
    let mut t = tree();
    assert!(t.insert(OctreeEntity::new(1, cube(20, 30))));
    assert!(t.insert(OctreeEntity::new(2, cube(-150, -140))));
    assert_eq!(*t.base_aabb(), cube(-300, 100));
    assert_eq!(t.intersect(cube(-149, -148)), vec![2]);
    assert_eq!(t.intersect(cube(21, 22)), vec![1]);
}

#[test]
fn growth_of_empty_tree_moves_bound_only() {
    let mut t = tree();
    assert!(t.insert(OctreeEntity::new(3, cube(150, 160))));
    assert_eq!(*t.base_aabb(), cube(-100, 300));
    assert_eq!(t.len(), 1);
}

#[test]
fn intersect_finds_overlaps() {
    let mut t = tree();
    assert!(t.insert(OctreeEntity::new(1, cube(20, 30))));
    assert!(t.insert(OctreeEntity::new(2, cube(-30, -20))));
    assert!(t.insert(OctreeEntity::new(3, bx((-5, -5, -5), (5, 5, 5)))));
    let mut all = t.intersect(cube(-25, 25));
    all.sort();
    assert_eq!(all, vec![1, 2, 3]);
    assert_eq!(t.intersect(cube(25, 26)), vec![1]);
    assert!(t.intersect(cube(60, 70)).is_empty());
    assert!(t.intersect(cube(30, 40)).is_empty());
}

#[test]
fn straddling_box_stays_at_root() {
    let mut t = tree();
    assert!(t.insert(OctreeEntity::new(3, bx((-5, -5, -5), (5, 5, 5)))));
    let r = Ray::new(Vec3::new(0, 0, -50), Vec3::new(0, 0, 1));
    assert_eq!(t.raycast(&r).unwrap().t, Param::new(45, 1));
    assert!(t.remove(3, bx((-5, -5, -5), (5, 5, 5))));
}

#[test]
fn small_octant_keeps_record_in_parent() {
    let mut t = Octree::new(0, Vec3::splat(60), cube(-100, 100));
    assert!(t.insert(OctreeEntity::new(1, cube(20, 30))));
    assert!(t.insert(OctreeEntity::new(2, cube(40, 50))));
    assert_eq!(t.len(), 2);
    assert!(!t.insert(OctreeEntity::new(1, cube(20, 30))));
    assert!(t.remove(2, cube(40, 50)));
    assert!(t.remove(1, cube(20, 30)));
    assert!(t.is_empty());
}

#[test]
fn removed_node_slot_is_reused() {
    let mut t = tree();
    assert!(t.insert(OctreeEntity::new(1, cube(20, 30))));
    assert!(t.remove(1, cube(20, 30)));
    assert!(t.insert(OctreeEntity::new(2, cube(-30, -20))));
    assert!(t.insert(OctreeEntity::new(1, cube(20, 30))));
    assert_eq!(t.len(), 2);
    let r = Ray::new(Vec3::new(-500, -25, -25), Vec3::new(1, 0, 0));
    assert_eq!(t.raycast(&r).unwrap().entity, 2);
}

#[test]
fn node_helpers() {
    let n = OctreeNode::new(cube(0, 8), NULL_INDEX);
    assert_eq!(n.children_len, 0);
    assert!(n.entities.is_empty());
    assert_eq!(n.get_child_index(octree_index::aabb::Octant::new(true, false, true)), NULL_INDEX);
    assert_eq!(OctreeNode::octant_to_index(octree_index::aabb::Octant::new(true, false, true)), 5);
    assert_eq!(OctreeNode::octant_to_index(octree_index::aabb::Octant::new(false, true, true)), 3);
}

#[test]
fn hit_info_fields() {
    let h = RayHitInfo::new(4, cube(0, 1), Param::new(3, 2));
    assert_eq!(h.entity, 4);
    assert_eq!(h.t, Param::new(3, 2));
    let e = OctreeEntity::new(4, cube(0, 1));
    assert_eq!(e.entity, 4);
}

#[test]
fn action_holds_callable() {
    let a = Action::new(3u8);
    assert_eq!(a.0, 3);
    let _c = Collides;
}

#[test]
fn raycast_nearest_of_root_records() {
    let mut t = tree();
    assert!(t.insert(OctreeEntity::new(8, bx((-5, -5, 10), (5, 5, 20)))));
    assert!(t.insert(OctreeEntity::new(6, bx((-5, -5, -20), (5, 5, -10)))));
    let up = Ray::new(Vec3::new(0, 0, -50), Vec3::new(0, 0, 1));
    let hit = t.raycast(&up).unwrap();
    assert_eq!(hit.entity, 6);
    assert_eq!(hit.t, Param::new(30, 1));
    let down = Ray::new(Vec3::new(0, 0, 50), Vec3::new(0, 0, -1));
    assert_eq!(t.raycast(&down).unwrap().entity, 8);
}

#[test]
fn growth_of_flat_bound() {
    let mut t = Octree::new(0, Vec3::splat(1), bx((0, 0, 0), (40, 4, 2)));
    assert!(t.insert(OctreeEntity::new(1, bx((1, 1, 0), (2, 2, 1)))));
    assert!(t.insert(OctreeEntity::new(2, bx((10, 30, 5), (12, 33, 6)))));
    assert_eq!(*t.base_aabb(), bx((0, 0, 0), (640, 64, 32)));
    assert_eq!(t.intersect(bx((10, 30, 5), (11, 31, 6))), vec![2]);
    assert_eq!(t.intersect(bx((1, 1, 0), (2, 2, 1))), vec![1]);
    let r = Ray::new(Vec3::new(11, 31, -40), Vec3::new(0, 0, 1));
    assert_eq!(t.raycast(&r).unwrap().entity, 2);
}
