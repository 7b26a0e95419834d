use std::collections::BTreeMap;

use msp_rigid_body::crbtree::{
    crb_tree_create, crb_tree_insert, crb_tree_len, crb_tree_query_aabb, crb_tree_query_aabb_count,
    crb_tree_query_aabb_counts, crb_tree_query_aabb_unsorted, crb_tree_query_aabbs, crb_tree_remove,
    crb_tree_remove_batch, crb_tree_update, crb_tree_update_batch, CRbTreeIndex,
};
use msp_rigid_body::ffi::Bool;
use msp_rigid_body::geometry::{Aabb, AabbDesc, Vec3};

fn key(f: f64) -> i64 {
    let b = f.to_bits() as i64;
    b ^ ((((b >> 63) as u64) >> 1) as i64)
}

fn vec3(x: f64, y: f64, z: f64) -> Vec3 {
    Vec3 { x: key(x), y: key(y), z: key(z) }
}

fn aabb(min: f64, max: f64) -> AabbDesc {
    AabbDesc { mins: vec3(min, min, min), maxs: vec3(max, max, max) }
}

const TRUE: Bool = Bool(1);
const FALSE: Bool = Bool(0);

#[test]
fn crb_tree_queries_intersections_in_id_order() {
    let mut tree = crb_tree_create();

    assert_eq!(crb_tree_insert(&mut tree, 20, aabb(2.0, 3.0)), TRUE);
    assert_eq!(crb_tree_insert(&mut tree, 10, aabb(0.0, 1.0)), TRUE);
    assert_eq!(crb_tree_insert(&mut tree, 30, aabb(4.0, 5.0)), TRUE);

    assert_eq!(crb_tree_query_aabb_count(&tree, aabb(0.5, 2.5)), 2);

    let mut ids = [0; 4];
    let written = crb_tree_query_aabb(&tree, aabb(0.5, 2.5), &mut ids);
    assert_eq!(written, 2);
    assert_eq!(&ids[..2], &[10, 20]);
}

#[test]
fn crb_tree_update_remove_and_reject_invalid_bounds() {
    let mut tree = crb_tree_create();

    assert_eq!(crb_tree_insert(&mut tree, 7, aabb(0.0, 1.0)), TRUE);
    assert_eq!(crb_tree_update(&mut tree, 7, aabb(10.0, 11.0)), TRUE);
    assert_eq!(crb_tree_query_aabb_count(&tree, aabb(0.0, 1.0)), 0);
    assert_eq!(crb_tree_query_aabb_count(&tree, aabb(10.5, 10.6)), 1);
    assert_eq!(crb_tree_remove(&mut tree, 7), TRUE);
    assert_eq!(crb_tree_remove(&mut tree, 7), FALSE);
    assert_eq!(crb_tree_insert(&mut tree, 0, aabb(0.0, 1.0)), FALSE);
    assert_eq!(
        crb_tree_insert(&mut tree, 1, AabbDesc { mins: vec3(1.0, 0.0, 0.0), maxs: vec3(0.0, 1.0, 1.0) }),
        FALSE
    );
}

#[test]
fn crb_tree_keeps_min_x_index_in_sync() {
    let mut index = CRbTreeIndex::new();
    assert!(index.insert(1, Aabb::from_desc(aabb(0.0, 1.0)).unwrap()));
    assert!(index.insert(2, Aabb::from_desc(aabb(2.0, 3.0)).unwrap()));
    assert!(index.insert(1, Aabb::from_desc(aabb(4.0, 5.0)).unwrap()));
    assert!(index.remove(2));
    assert!(index.check_invariants());
    assert_eq!(index.query_count(Aabb::from_desc(aabb(4.5, 4.6)).unwrap()), 1);
}

fn float_intersects(a: ([f64; 3], [f64; 3]), b: ([f64; 3], [f64; 3])) -> bool {
    (0..3).all(|i| a.0[i] <= b.1[i] && a.1[i] >= b.0[i])
}

#[test]
fn crb_tree_matches_linear_scan_for_many_queries() {
    let mut index = CRbTreeIndex::new();
    let mut reference = BTreeMap::new();

    for i in 1..128u64 {
        let x = ((i * 37) % 41) as f64 * 0.25;
        let y = ((i * 17) % 31) as f64 * 0.25;
        let z = ((i * 23) % 29) as f64 * 0.25;
        let mins = [x, y, z];
        let maxs = [x + 0.5, y + 0.75, z + 1.0];
        let bounds = Aabb { mins: vec3(mins[0], mins[1], mins[2]), maxs: vec3(maxs[0], maxs[1], maxs[2]) };
        assert!(index.insert(i, bounds));
        reference.insert(i, (mins, maxs));
    }

    for q in 0..64u64 {
        let min = ((q * 13) % 23) as f64 * 0.25;
        let qmins = [min, min * 0.5, min * 0.25];
        let qmaxs = [min + 2.0, min * 0.5 + 1.5, min * 0.25 + 1.0];
        let query = Aabb { mins: vec3(qmins[0], qmins[1], qmins[2]), maxs: vec3(qmaxs[0], qmaxs[1], qmaxs[2]) };
        let expected: Vec<u64> = reference
            .iter()
            .filter(|(_, bounds)| float_intersects(**bounds, (qmins, qmaxs)))
            .map(|(id, _)| *id)
            .collect();
        let mut actual = vec![0; expected.len() + 8];
        let written = index.query(query, &mut actual) as usize;
        assert_eq!(&actual[..written], expected.as_slice());
        assert_eq!(index.query_count(query) as usize, expected.len());
    }
}

#[test]
fn crb_tree_query_aabb_counts_batches_queries() {
    let mut tree = crb_tree_create();
    assert_eq!(crb_tree_insert(&mut tree, 10, aabb(0.0, 1.0)), TRUE);
    assert_eq!(crb_tree_insert(&mut tree, 20, aabb(2.0, 3.0)), TRUE);

    let queries = [aabb(0.5, 0.75), aabb(0.5, 2.5), aabb(4.0, 5.0)];
    let mut counts = [99u32; 3];
    assert_eq!(crb_tree_query_aabb_counts(&tree, &queries, &mut counts), 3);
    assert_eq!(counts, [1, 2, 0]);
}

#[test]
fn crb_tree_update_and_remove_batches_keep_index_in_sync() {
    let mut tree = crb_tree_create();
    assert_eq!(crb_tree_insert(&mut tree, 1, aabb(0.0, 1.0)), TRUE);
    assert_eq!(crb_tree_insert(&mut tree, 2, aabb(2.0, 3.0)), TRUE);
    assert_eq!(crb_tree_insert(&mut tree, 3, aabb(4.0, 5.0)), TRUE);

    let update_ids = [1, 3, 99];
    let updates = [aabb(10.0, 11.0), aabb(12.0, 13.0), aabb(0.0, 1.0)];
    assert_eq!(crb_tree_update_batch(&mut tree, &update_ids, &updates), 2);
    assert_eq!(crb_tree_query_aabb_count(&tree, aabb(0.0, 5.0)), 1);
    assert_eq!(crb_tree_query_aabb_count(&tree, aabb(10.5, 12.5)), 2);

    let remove_ids = [2, 99, 1];
    assert_eq!(crb_tree_remove_batch(&mut tree, &remove_ids), 2);
    assert_eq!(crb_tree_len(&tree), 1);
    assert!(tree.check_invariants());
}

#[test]
fn crb_tree_query_aabbs_batches_hits_with_offsets() {
    let mut tree = crb_tree_create();
    assert_eq!(crb_tree_insert(&mut tree, 10, aabb(0.0, 1.0)), TRUE);
    assert_eq!(crb_tree_insert(&mut tree, 20, aabb(2.0, 3.0)), TRUE);

    let queries = [aabb(0.5, 0.75), aabb(0.5, 2.5), aabb(4.0, 5.0)];
    let mut offsets = [99u32; 4];
    let mut ids = [0u64; 8];
    assert_eq!(crb_tree_query_aabbs(&tree, &queries, &mut offsets, &mut ids), 3);
    assert_eq!(offsets, [0, 1, 3, 3]);
    assert_eq!(&ids[..3], &[10, 10, 20]);
}

#[test]
fn crb_tree_query_stops_when_the_buffer_is_full() {
    let mut tree = crb_tree_create();
    for id in 1..=5u64 {
        assert_eq!(crb_tree_insert(&mut tree, id, aabb(0.0, 1.0)), TRUE);
    }
    let mut ids = [0u64; 3];
    assert_eq!(crb_tree_query_aabb(&tree, aabb(0.0, 1.0), &mut ids), 3);
    assert_eq!(ids, [1, 2, 3]);
    let mut all = [0u64; 8];
    let n = crb_tree_query_aabb_unsorted(&tree, aabb(0.0, 1.0), &mut all) as usize;
    assert_eq!(n, 5);
    let mut got = all[..n].to_vec();
    got.sort();
    assert_eq!(got, vec![1, 2, 3, 4, 5]);
}

#[test]
fn crb_tree_touching_boxes_intersect_and_signed_zeros_match() {
    let mut tree = crb_tree_create();
    assert_eq!(crb_tree_insert(&mut tree, 1, aabb(-1.0, -0.0)), TRUE);
    assert_eq!(crb_tree_query_aabb_count(&tree, aabb(0.0, 1.0)), 1);
    assert_eq!(crb_tree_query_aabb_count(&tree, aabb(0.5, 1.0)), 0);
    assert_eq!(crb_tree_insert(&mut tree, 2, aabb(f64::NAN, 1.0)), FALSE);
    assert_eq!(crb_tree_insert(&mut tree, 3, aabb(0.0, f64::INFINITY)), FALSE);
    assert_eq!(crb_tree_len(&tree), 1);
}

#[test]
fn crb_tree_query_with_negative_zero_maximum_finds_touching_box() {
    let mut tree = crb_tree_create();
    assert_eq!(crb_tree_insert(&mut tree, 5, aabb(0.0, 1.0)), TRUE);
    assert_eq!(crb_tree_query_aabb_count(&tree, aabb(-1.0, -0.0)), 1);
    let mut ids = [0u64; 2];
    assert_eq!(crb_tree_query_aabb(&tree, aabb(-1.0, -0.0), &mut ids), 1);
    assert_eq!(ids, [5, 0]);
    let mut all = [0u64; 2];
    assert_eq!(crb_tree_query_aabb_unsorted(&tree, aabb(-1.0, -0.0), &mut all), 1);
    assert_eq!(all[0], 5);
    assert_eq!(crb_tree_query_aabb_count(&tree, aabb(-1.0, -0.5)), 0);
}
