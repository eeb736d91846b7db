use broadphase::arena::check_capacity;
use broadphase::bvh2;
use broadphase::bvh3;
use broadphase::bvh4;
use broadphase::bvh6;
use broadphase::count::brute_force_count;
use broadphase::position::{EntityPos, AABB};

fn cube(lo: i32, hi: i32) -> AABB {
    AABB::new(EntityPos::from_primitives(lo, lo, lo), EntityPos::from_primitives(hi, hi, hi))
}

fn boxed(x: (i32, i32), y: (i32, i32), z: (i32, i32)) -> AABB {
    AABB::new(EntityPos::from_primitives(x.0, y.0, z.0), EntityPos::from_primitives(x.1, y.1, z.1))
}

/// Every strategy and traversal on the same boxes.
fn all_counts(boxes: &Vec<AABB>) -> Vec<usize> {
    let mut out = Vec::new();
    let mut t2 = bvh2::BVH::new();
    assert!(t2.build(boxes.clone()).is_ok());
    out.push(t2.get_collision());
    let mut t3 = bvh3::BVH::new();
    assert!(t3.build(boxes.clone()).is_ok());
    out.push(t3.get_collision());
    out.push(t3.get_collision_par());
    let mut t4 = bvh4::BVH::new();
    assert!(t4.build(boxes.clone()).is_ok());
    out.push(t4.get_collision_recursive());
    out.push(t4.get_collision_par());
    let mut t4p = bvh4::BVH::new();
    assert!(t4p.build_par(boxes.clone()).is_ok());
    out.push(t4p.get_collision_recursive());
    out.push(t4p.get_collision_par());
    let mut t6 = bvh6::BVH::new();
    assert!(t6.build(boxes.clone()).is_ok());
    out.push(t6.get_collision_par());
    out.push(t6.get_collision_rev_par());
    out
}

fn assert_all(boxes: &Vec<AABB>, expected: usize) {
    assert_eq!(brute_force_count(boxes), expected);
    for c in all_counts(boxes) {
        assert_eq!(c, expected);
    }
}

/// A small deterministic pseudo-random box set.
fn scatter(n: usize, seed: u64) -> Vec<AABB> {
    let mut state = seed;
    let mut next = move || {
        state = state.wrapping_mul(6364136223846793005).wrapping_add(1442695040888963407);
        ((state >> 33) % 200) as i32 - 100
    };
    let mut v = Vec::new();
    for _ in 0..n {
        let (x, y, z) = (next(), next(), next());
        let h = (next().rem_euclid(15)) + 1;
        v.push(boxed((x, x + h), (y, y + h), (z, z + h)));
    }
    v
}

#[test]
fn empty_set_counts_zero() {
    assert_all(&Vec::new(), 0);
}

#[test]
fn single_box_counts_zero() {
    assert_all(&vec![cube(0, 10)], 0);
}

#[test]
fn identical_boxes_count_one() {
    assert_all(&vec![cube(0, 10), cube(0, 10)], 1);
}

#[test]
fn disjoint_boxes_count_zero() {
    assert_all(&vec![cube(0, 10), boxed((0, 10), (0, 10), (11, 20))], 0);
    assert_all(&vec![cube(0, 10), boxed((20, 30), (0, 10), (0, 10))], 0);
}

#[test]
fn touching_boxes_count_one() {
    assert_all(&vec![cube(0, 10), boxed((10, 20), (0, 10), (0, 10))], 1);
    assert_all(&vec![cube(0, 10), boxed((10, 20), (10, 20), (0, 10))], 1);
    assert_all(&vec![cube(0, 10), cube(10, 20)], 1);
}

#[test]
fn three_box_scenario() {
    assert_all(&vec![cube(0, 10), cube(5, 15), cube(20, 30)], 1);
}

#[test]
fn chain_scenario() {
    let chain = vec![
        boxed((0, 10), (0, 1), (0, 1)),
        boxed((9, 20), (0, 1), (0, 1)),
        boxed((19, 30), (0, 1), (0, 1)),
        boxed((29, 40), (0, 1), (0, 1)),
    ];
    assert_all(&chain, 3);
}

#[test]
fn all_overlapping_counts_every_pair() {
    let v: Vec<AABB> = (0..9).map(|i| cube(i, i + 20)).collect();
    assert_all(&v, 36);
}

#[test]
fn random_sets_match_brute_force() {
    for n in 0..40 {
        let v = scatter(n, 7 + n as u64);
        let expected = brute_force_count(&v);
        for c in all_counts(&v) {
            assert_eq!(c, expected);
        }
    }
    let big = scatter(600, 99);
    let expected = brute_force_count(&big);
    assert!(expected > 0);
    for c in all_counts(&big) {
        assert_eq!(c, expected);
    }
}

#[test]
fn permuted_input_same_count() {
    let v = scatter(120, 3);
    let mut r = v.clone();
    r.reverse();
    let mut rot = v.clone();
    rot.rotate_left(37);
    let a = all_counts(&v);
    assert_eq!(a, all_counts(&r));
    assert_eq!(a, all_counts(&rot));
}

#[test]
fn serial_and_parallel_agree_repeatedly() {
    let v = scatter(300, 11);
    let mut t6 = bvh6::BVH::new();
    assert!(t6.build(v.clone()).is_ok());
    let first = t6.get_collision_par();
    for _ in 0..5 {
        assert_eq!(t6.get_collision_par(), first);
        assert_eq!(t6.get_collision_rev_par(), first);
    }
    let mut t3 = bvh3::BVH::new();
    assert!(t3.build(v.clone()).is_ok());
    assert_eq!(t3.get_collision(), first);
    assert_eq!(t3.get_collision_par(), first);
}

#[test]
fn rebuild_replaces_state() {
    let mut t = bvh4::BVH::new();
    assert!(t.build(vec![cube(0, 10), cube(5, 15)]).is_ok());
    assert_eq!(t.get_collision_recursive(), 1);
    assert!(t.build(vec![cube(0, 1), cube(5, 6), cube(10, 11)]).is_ok());
    assert_eq!(t.get_collision_recursive(), 0);
    assert_eq!(t.get_collision_par(), 0);
    assert!(t.build(Vec::new()).is_ok());
    assert_eq!(t.get_collision_par(), 0);
}

#[test]
fn capacity_limit() {
    assert!(check_capacity(0));
    assert!(check_capacity(1));
    assert!(check_capacity(500_000));
    assert!(!check_capacity(usize::MAX));
    let root = (usize::MAX as f64).sqrt() as usize;
    let mut r = root.saturating_sub(2);
    while r.checked_mul(r + 1).is_some() && (r + 1).checked_mul(r + 1).is_some() {
        r += 1;
    }
    assert!(check_capacity(r));
    assert!(!check_capacity(r + 1));
}

#[test]
fn bvh2_rebuild_and_edges() {
    let mut t = bvh2::BVH::new();
    assert_eq!(t.get_collision(), 0);
    assert!(t.build(vec![cube(0, 10)]).is_ok());
    assert_eq!(t.get_collision(), 0);
    assert!(t.build(vec![cube(0, 10), cube(0, 10), cube(0, 10)]).is_ok());
    assert_eq!(t.get_collision(), 3);
}

#[test]
fn brute_force_reference() {
    assert_eq!(brute_force_count(&Vec::new()), 0);
    assert_eq!(brute_force_count(&vec![cube(0, 1), cube(1, 2), cube(2, 3)]), 2);
}
