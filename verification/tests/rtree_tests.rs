use msp_rigid_body::ffi::Bool;
use msp_rigid_body::geometry::{Aabb, AabbDesc, Vec3};
use msp_rigid_body::rtree::{
    rtree_contains, rtree_contains_batch, rtree_create, rtree_height, rtree_insert, rtree_insert_batch,
    rtree_is_dirty, rtree_len, rtree_node_count, rtree_query_aabb, rtree_query_aabb_count,
    rtree_query_aabb_counts, rtree_query_aabbs, rtree_rebuild, rtree_remove, rtree_remove_batch, rtree_stats,
    rtree_update, rtree_update_batch, SplitMetric,
};

fn key(f: f64) -> i64 {
    let b = f.to_bits() as i64;
    b ^ ((((b >> 63) as u64) >> 1) as i64)
}

fn val(k: i64) -> f64 {
    let b = k ^ ((((k >> 63) as u64) >> 1) as i64);
    f64::from_bits(b as u64)
}

fn axis_of(v: Vec3, axis: usize) -> f64 {
    match axis {
        0 => val(v.x),
        1 => val(v.y),
        _ => val(v.z),
    }
}

/// Splits along the longest extent, at box centers, in double precision.
struct FloatMetric;

impl SplitMetric for FloatMetric {
    fn longest_axis(&self, bounds: &Aabb) -> usize {
        let x = axis_of(bounds.maxs, 0) - axis_of(bounds.mins, 0);
        let y = axis_of(bounds.maxs, 1) - axis_of(bounds.mins, 1);
        let z = axis_of(bounds.maxs, 2) - axis_of(bounds.mins, 2);
        if x >= y && x >= z {
            0
        } else if y >= z {
            1
        } else {
            2
        }
    }

    fn center_key(&self, bounds: &Aabb, axis: usize) -> i64 {
        key((axis_of(bounds.mins, axis) + axis_of(bounds.maxs, axis)) * 0.5)
    }
}

fn vec3(x: f64, y: f64, z: f64) -> Vec3 {
    Vec3 { x: key(x), y: key(y), z: key(z) }
}

fn aabb(min: f64, max: f64) -> AabbDesc {
    AabbDesc { mins: vec3(min, min, min), maxs: vec3(max, max, max) }
}

const TRUE: Bool = Bool(1);
const FALSE: Bool = Bool(0);

#[test]
fn rtree_queries_intersections() {
    let m = FloatMetric;
    let mut tree = rtree_create();
    assert_eq!(rtree_is_dirty(&tree), FALSE);

    assert_eq!(rtree_insert(&mut tree, 10, aabb(0.0, 1.0)), TRUE);
    assert_eq!(rtree_insert(&mut tree, 20, aabb(2.0, 3.0)), TRUE);
    assert_eq!(rtree_insert(&mut tree, 30, aabb(4.0, 5.0)), TRUE);
    assert_eq!(rtree_is_dirty(&tree), TRUE);
    assert_eq!(rtree_contains(&tree, 20), TRUE);
    assert_eq!(rtree_contains(&tree, 99), FALSE);

    assert_eq!(rtree_query_aabb_count(&mut tree, aabb(0.5, 2.5), &m), 2);
    assert_eq!(rtree_is_dirty(&tree), TRUE);

    let mut ids = [0; 4];
    let written = rtree_query_aabb(&mut tree, aabb(0.5, 2.5), &mut ids, &m);
    assert_eq!(written, 2);
    assert_eq!(&ids[..2], &[10, 20]);
    assert_eq!(rtree_node_count(&mut tree, &m), 1);
    assert_eq!(rtree_height(&mut tree, &m), 1);
    assert_eq!(rtree_is_dirty(&tree), FALSE);
    let stats = rtree_stats(&mut tree, &m);
    assert_eq!(stats.len, 3);
    assert_eq!(stats.node_count, 1);
    assert_eq!(stats.height, 1);
    assert_eq!(stats.dirty, FALSE);
}

#[test]
fn rtree_update_and_remove() {
    let m = FloatMetric;
    let mut tree = rtree_create();

    assert_eq!(rtree_insert(&mut tree, 7, aabb(0.0, 1.0)), TRUE);
    assert_eq!(rtree_update(&mut tree, 7, aabb(10.0, 11.0)), TRUE);
    assert_eq!(rtree_query_aabb_count(&mut tree, aabb(0.0, 1.0), &m), 0);
    assert_eq!(rtree_query_aabb_count(&mut tree, aabb(10.5, 10.6), &m), 1);

    assert_eq!(rtree_remove(&mut tree, 7), TRUE);
    assert_eq!(rtree_remove(&mut tree, 7), FALSE);
    assert_eq!(rtree_len(&tree), 0);
    assert!(tree.check_invariants());
}

#[test]
fn rtree_rejects_invalid_bounds() {
    let mut tree = rtree_create();
    assert_eq!(
        rtree_insert(&mut tree, 1, AabbDesc { mins: vec3(1.0, 0.0, 0.0), maxs: vec3(0.0, 1.0, 1.0) }),
        FALSE
    );
    assert_eq!(rtree_insert(&mut tree, 0, aabb(0.0, 1.0)), FALSE);
}

#[test]
fn rtree_insert_batch_skips_invalid_entries() {
    let m = FloatMetric;
    let mut tree = rtree_create();
    let ids = [1, 2, 0, 3];
    let aabbs = [
        aabb(0.0, 1.0),
        AabbDesc { mins: vec3(2.0, 0.0, 0.0), maxs: vec3(1.0, 1.0, 1.0) },
        aabb(2.0, 3.0),
        aabb(4.0, 5.0),
    ];

    assert_eq!(rtree_insert_batch(&mut tree, &ids, &aabbs), 2);
    assert_eq!(rtree_len(&tree), 2);
    assert_eq!(rtree_query_aabb_count(&mut tree, aabb(0.5, 4.5), &m), 2);
    assert!(tree.check_invariants());
}

#[test]
fn rtree_update_and_remove_batches_keep_index_in_sync() {
    let m = FloatMetric;
    let mut tree = rtree_create();
    let ids = [1, 2, 3];
    let aabbs = [aabb(0.0, 1.0), aabb(2.0, 3.0), aabb(4.0, 5.0)];
    assert_eq!(rtree_insert_batch(&mut tree, &ids, &aabbs), 3);

    let update_ids = [1, 3, 99];
    let updates = [aabb(10.0, 11.0), aabb(12.0, 13.0), aabb(0.0, 1.0)];
    assert_eq!(rtree_update_batch(&mut tree, &update_ids, &updates), 2);
    assert_eq!(rtree_query_aabb_count(&mut tree, aabb(0.0, 5.0), &m), 1);
    assert_eq!(rtree_query_aabb_count(&mut tree, aabb(10.5, 12.5), &m), 2);

    let remove_ids = [2, 99, 1];
    assert_eq!(rtree_remove_batch(&mut tree, &remove_ids), 2);
    assert_eq!(rtree_len(&tree), 1);
    assert!(tree.check_invariants());
}

#[test]
fn rtree_contains_batch_writes_flags() {
    let mut tree = rtree_create();
    assert_eq!(rtree_insert(&mut tree, 10, aabb(0.0, 1.0)), TRUE);
    assert_eq!(rtree_insert(&mut tree, 20, aabb(2.0, 3.0)), TRUE);

    let ids = [10, 11, 20];
    let mut values = [FALSE; 3];
    assert_eq!(rtree_contains_batch(&tree, &ids, &mut values), 3);
    assert_eq!(values, [TRUE, FALSE, TRUE]);
}

#[test]
fn rtree_query_aabb_counts_batches_queries() {
    let m = FloatMetric;
    let mut tree = rtree_create();
    assert_eq!(rtree_insert(&mut tree, 10, aabb(0.0, 1.0)), TRUE);
    assert_eq!(rtree_insert(&mut tree, 20, aabb(2.0, 3.0)), TRUE);

    let queries = [aabb(0.5, 0.75), aabb(0.5, 2.5), aabb(4.0, 5.0)];
    let mut counts = [99u32; 3];
    assert_eq!(rtree_query_aabb_counts(&mut tree, &queries, &mut counts, &m), 3);
    assert_eq!(counts, [1, 2, 0]);
}

#[test]
fn rtree_query_aabbs_batches_hits_with_offsets() {
    let m = FloatMetric;
    let mut tree = rtree_create();
    assert_eq!(rtree_insert(&mut tree, 10, aabb(0.0, 1.0)), TRUE);
    assert_eq!(rtree_insert(&mut tree, 20, aabb(2.0, 3.0)), TRUE);

    let queries = [aabb(0.5, 0.75), aabb(0.5, 2.5), aabb(4.0, 5.0)];
    let mut offsets = [99u32; 4];
    let mut ids = [0u64; 8];
    assert_eq!(rtree_query_aabbs(&mut tree, &queries, &mut offsets, &mut ids, &m), 3);
    assert_eq!(offsets, [0, 1, 3, 3]);
    assert_eq!(&ids[..3], &[10, 10, 20]);
}

#[test]
fn rtree_large_tree_matches_linear_scan() {
    let m = FloatMetric;
    let mut tree = rtree_create();
    let mut boxes = Vec::new();
    for i in 1..200u64 {
        let x = ((i * 37) % 41) as f64 * 0.5;
        let y = ((i * 17) % 31) as f64 * 0.5;
        let z = ((i * 23) % 29) as f64 * 0.5;
        let desc = AabbDesc { mins: vec3(x, y, z), maxs: vec3(x + 1.0, y + 1.5, z + 2.0) };
        assert_eq!(rtree_insert(&mut tree, i, desc), TRUE);
        boxes.push((i, [x, y, z], [x + 1.0, y + 1.5, z + 2.0]));
    }
    rtree_rebuild(&mut tree, &m);
    assert!(tree.check_invariants());
    assert!(rtree_node_count(&mut tree, &m) > 1);
    assert!(rtree_height(&mut tree, &m) > 1);
    for q in 0..40u64 {
        let lo = ((q * 7) % 19) as f64;
        let hi = lo + 3.0;
        let mut expected: Vec<u64> = boxes
            .iter()
            .filter(|(_, mn, mx)| (0..3).all(|a| mn[a] <= hi && mx[a] >= lo))
            .map(|(id, _, _)| *id)
            .collect();
        expected.sort();
        assert_eq!(rtree_query_aabb_count(&mut tree, aabb(lo, hi), &m) as usize, expected.len());
        let mut out = vec![0u64; 256];
        let n = rtree_query_aabb(&mut tree, aabb(lo, hi), &mut out, &m) as usize;
        let mut got = out[..n].to_vec();
        got.sort();
        assert_eq!(got, expected);
    }
}
