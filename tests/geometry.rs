use broadphase::morton::{morton_partition_3, to_hilbert, to_morton, to_positive};
use broadphase::position::{new_fixed_vec, BlockPos, EntityPos, AABB};

fn cube(lo: i32, hi: i32) -> AABB {
    AABB::new(EntityPos::from_primitives(lo, lo, lo), EntityPos::from_primitives(hi, hi, hi))
}

#[test]
fn union_is_tightest_hull() {
    let a = AABB::new(EntityPos::from_primitives(0, 5, -3), EntityPos::from_primitives(2, 9, 1));
    let b = AABB::new(EntityPos::from_primitives(-4, 6, 0), EntityPos::from_primitives(1, 12, 4));
    let u = a.union(&b);
    assert_eq!(*u.min(), EntityPos::from_primitives(-4, 5, -3));
    assert_eq!(*u.max(), EntityPos::from_primitives(2, 12, 4));
    assert_eq!(u, b.union(&a));
}

#[test]
fn intersects_is_symmetric_and_closed() {
    let a = cube(0, 10);
    let touching = cube(10, 20);
    let apart = cube(11, 20);
    assert!(a.intersects(&touching));
    assert!(touching.intersects(&a));
    assert!(!a.intersects(&apart));
    assert!(!apart.intersects(&a));
    let edge = AABB::new(EntityPos::from_primitives(10, 10, -5), EntityPos::from_primitives(15, 15, 0));
    assert!(a.intersects(&edge));
    assert!(edge.intersects(&a));
}

#[test]
fn center_and_block() {
    let b = AABB::new(EntityPos::from_primitives(-3, 0, 4), EntityPos::from_primitives(0, 1, 10));
    let c = b.center();
    assert_eq!(c.x, -(3i64 << 31));
    assert_eq!(c.y, 1i64 << 31);
    assert_eq!(c.z, 7i64 << 32);
    assert_eq!(c.block_pos(), BlockPos { x: -2, y: 0, z: 7 });
}

#[test]
fn from_center_and_empty() {
    let b = AABB::from_center(new_fixed_vec(5, 5, 5), new_fixed_vec(2, 3, 4));
    assert_eq!(*b.min(), EntityPos::from_primitives(3, 2, 1));
    assert_eq!(*b.max(), EntityPos::from_primitives(7, 8, 9));
    let e = AABB::empty();
    assert_eq!(*e.min(), EntityPos::from_primitives(0, 0, 0));
    assert_eq!(*e.max(), EntityPos::from_primitives(0, 0, 0));
}

#[test]
fn sign_flip_keeps_order() {
    assert_eq!(to_positive(i32::MIN), 0);
    assert_eq!(to_positive(-1), 0x7FFF_FFFF);
    assert_eq!(to_positive(0), 0x8000_0000);
    assert_eq!(to_positive(i32::MAX), u32::MAX);
}

#[test]
fn morton_spreads_bits() {
    assert_eq!(morton_partition_3(0), 1u128 << 60);
    assert_eq!(morton_partition_3(5), (1u128 << 60) | 0b1000001);
    assert_eq!(morton_partition_3(-1), 0x0249249249249249);
    assert_eq!(morton_partition_3(-0x10_0000), 0);
    assert_eq!(morton_partition_3(0x0F_FFFF), 0x1249249249249249);
    let p = BlockPos { x: 1, y: 0, z: 0 };
    assert_eq!(to_morton(p), (1u128 << 60) | (1u128 << 61) | (1u128 << 62) | 1);
}

#[test]
fn morton_keeps_order_across_origin() {
    assert!(morton_partition_3(-1) < morton_partition_3(0));
    assert!(morton_partition_3(-7) < morton_partition_3(3));
    let a = BlockPos { x: -1, y: 0, z: 0 };
    let b = BlockPos { x: 0, y: 0, z: 0 };
    assert!(to_morton(a) < to_morton(b));
    let c = BlockPos { x: -5, y: -2, z: 9 };
    let d = BlockPos { x: 4, y: -2, z: 10 };
    assert!(to_morton(c) <= to_morton(d));
}

#[test]
fn hilbert_is_deterministic() {
    let p = BlockPos { x: 12, y: -7, z: 300 };
    assert_eq!(to_hilbert(p), to_hilbert(p));
    let origin = BlockPos { x: 0, y: 0, z: 0 };
    let next = BlockPos { x: 1, y: 0, z: 0 };
    assert_ne!(to_hilbert(origin), to_hilbert(next));
    let q = BlockPos { x: 12, y: -7, z: 301 };
    assert_ne!(to_hilbert(p), to_hilbert(q));
}
