use msp_rigid_body::dop::{kdop_axes, xyz_value_count, KdopPreset};
use msp_rigid_body::events::{
    clear_events, collision_record, contact_filter_flags, intersection_filter_allows, CollectingEventHandler,
    CollisionEventParts, CollisionRecord,
};
use msp_rigid_body::ffi::{pack_parts, Bool};
use msp_rigid_body::jni::{body_status, jlong_to_const, jlong_to_mut, ptr_to_jlong, BodyStatus};
use msp_rigid_body::query::{feature_id_to_u32, FeatureKind};

#[test]
fn event_handler_records_in_order_and_clears() {
    let mut h: CollectingEventHandler<u32, (u8, u8)> = CollectingEventHandler::new();
    h.push_collision_event(5);
    h.push_collision_event(7);
    h.push_contact_force_event((1, 2));
    assert_eq!(h.collision_event_count(), 2);
    assert_eq!(h.collision_event(1), Some(7));
    assert_eq!(h.collision_event(2), None);
    assert_eq!(h.contact_force_event_count(), 1);
    assert_eq!(h.contact_force_event(0), Some((1, 2)));
    h.clear();
    assert_eq!(h.collision_event_count(), 0);
    assert_eq!(h.contact_force_event_count(), 0);
    assert_eq!(h.collision_event(0), None);
}

#[test]
fn clear_events_empties_large_logs() {
    let mut v: Vec<u64> = (0..10_000).collect();
    clear_events(&mut v);
    assert!(v.is_empty());
    assert!(v.capacity() <= 8192);
}

#[test]
fn filter_answers() {
    assert_eq!(contact_filter_flags(u32::MAX), None);
    assert_eq!(contact_filter_flags(1), Some(1));
    assert_eq!(contact_filter_flags(0), Some(0));
    assert!(intersection_filter_allows(Bool(2)));
    assert!(!intersection_filter_allows(Bool(0)));
}

#[test]
fn jlong_addresses_round_trip() {
    let addr = 0x1234_5678usize;
    assert_eq!(ptr_to_jlong(addr), 0x1234_5678);
    assert_eq!(jlong_to_mut(ptr_to_jlong(addr)), addr);
    assert_eq!(jlong_to_const(ptr_to_jlong(usize::MAX)), usize::MAX);
    assert_eq!(ptr_to_jlong(usize::MAX), -1);
}

#[test]
fn body_status_codes() {
    assert_eq!(body_status(0), BodyStatus::Dynamic);
    assert_eq!(body_status(1), BodyStatus::Fixed);
    assert_eq!(body_status(2), BodyStatus::KinematicPositionBased);
    assert_eq!(body_status(3), BodyStatus::KinematicVelocityBased);
    assert_eq!(body_status(4), BodyStatus::Fixed);
    assert_eq!(body_status(-1), BodyStatus::Fixed);
}

#[test]
fn kdop_axes_per_preset() {
    assert_eq!(kdop_axes(KdopPreset::K6).len(), 3);
    assert_eq!(kdop_axes(KdopPreset::K14).len(), 7);
    assert_eq!(kdop_axes(KdopPreset::K18).len(), 9);
    let k26 = kdop_axes(KdopPreset::K26);
    assert_eq!(k26.len(), 13);
    assert_eq!(k26[0], (1, 0, 0));
    assert_eq!(k26[6], (-1, 1, 1));
    assert_eq!(k26[12], (0, 1, -1));
}

#[test]
fn feature_ids_pack_kind_and_index() {
    assert_eq!(feature_id_to_u32(FeatureKind::Unknown), 0);
    assert_eq!(feature_id_to_u32(FeatureKind::Vertex(5)), 0x1000_0005);
    assert_eq!(feature_id_to_u32(FeatureKind::Edge(7)), 0x2000_0007);
    assert_eq!(feature_id_to_u32(FeatureKind::Face(0x0FFF_FFFF)), 0x3FFF_FFFF);
}

#[test]
fn feature_ids_decode_kind_and_index() {
    for (feature, kind, index) in [
        (FeatureKind::Vertex(12), 1u32, 12u32),
        (FeatureKind::Edge(0x0ABC_DEF0), 2, 0x0ABC_DEF0),
        (FeatureKind::Face(0), 3, 0),
        (FeatureKind::Unknown, 0, 0),
    ] {
        let word = feature_id_to_u32(feature);
        assert_eq!(word >> 28, kind);
        assert_eq!(word & 0x0FFF_FFFF, index);
    }
}

#[test]
fn xyz_value_counts() {
    assert_eq!(xyz_value_count(4, 4), Some(12));
    assert_eq!(xyz_value_count(3, 4), None);
    assert_eq!(xyz_value_count(3, 3), Some(9));
    assert_eq!(xyz_value_count(0, 0), Some(0));
}

#[test]
fn handles_pack_generation_high_and_index_plus_one_low() {
    assert_eq!(pack_parts(0, 0), 1);
    assert_eq!(pack_parts(4, 0), 5);
    assert_eq!(pack_parts(3, 2), (2u64 << 32) + 4);
    assert_eq!(pack_parts(u32::MAX - 1, u32::MAX), (u64::from(u32::MAX) << 32) + u64::from(u32::MAX));
    assert_eq!(pack_parts(u32::MAX, 2), 3u64 << 32);
}

#[test]
fn collision_events_become_records_read_back_in_order() {
    let mut h: CollectingEventHandler<CollisionRecord, u8> = CollectingEventHandler::new();
    let first = CollisionEventParts { started: true, collider1: (0, 0), collider2: (3, 2), flags: 1 };
    let second = CollisionEventParts { started: false, collider1: (4, 1), collider2: (0, 0), flags: 2 };
    h.handle_collision_event(first);
    h.handle_collision_event(second);
    assert_eq!(h.collision_event_count(), 2);
    assert_eq!(
        h.collision_event(0),
        Some(CollisionRecord { started: Bool(1), collider1: 1, collider2: (2u64 << 32) + 4, sensor: Bool(1), removed: Bool(0) })
    );
    assert_eq!(
        h.collision_event(1),
        Some(CollisionRecord { started: Bool(0), collider1: (1u64 << 32) + 5, collider2: 1, sensor: Bool(0), removed: Bool(1) })
    );
    assert_eq!(h.collision_event(2), None);
    let both = collision_record(CollisionEventParts { started: false, collider1: (1, 0), collider2: (2, 0), flags: 3 });
    assert_eq!(both.sensor, Bool(1));
    assert_eq!(both.removed, Bool(1));
    h.clear();
    assert_eq!(h.collision_event(0), None);
}
