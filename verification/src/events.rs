//! Event logs collected during a simulation step, and the answers of the
//! user's pair filters.
use vstd::prelude::*;
use crate::ffi::{bool_of, pack_parts, packed_handle, Bool};

verus! {

/// Below this capacity a cleared log keeps its storage.
pub const EVENT_RETAIN_CAPACITY: usize = 1024;

/// Above this capacity a cleared log gives storage back, down to
/// `EVENT_RETAIN_CAPACITY`.
pub const EVENT_SHRINK_THRESHOLD: usize = 8192;

/// `Vec::capacity`. Nothing is stated of the result: it is whatever the
/// allocator handed out.
#[verifier::external_body]
fn vec_capacity<T>(events: &Vec<T>) -> usize {
    events.capacity()
}

/// `Vec::shrink_to`: lowers the capacity toward `min_capacity`, leaving the
/// elements as they are.
#[verifier::external_body]
fn vec_shrink_to<T>(events: &mut Vec<T>, min_capacity: usize)
    ensures
        final(events)@ == old(events)@,
{
    events.shrink_to(min_capacity)
}

/// Empties an event log; a log that grew past `EVENT_SHRINK_THRESHOLD` also
/// gives storage back.
pub fn clear_events<T>(events: &mut Vec<T>)
    ensures
        final(events)@ == Seq::<T>::empty(),
{
    events.clear();
    if vec_capacity(events) > EVENT_SHRINK_THRESHOLD {
        vec_shrink_to(events, EVENT_RETAIN_CAPACITY);
    }
}

/// Collects collision events (`C`) and contact force events (`F`) in the
/// order they are reported.
pub struct CollectingEventHandler<C, F> {
    collision_events: Vec<C>,
    contact_force_events: Vec<F>,
}

impl<C: Copy, F: Copy> CollectingEventHandler<C, F> {
    /// The collision events, oldest first.
    pub closed spec fn collisions(&self) -> Seq<C> {
        self.collision_events@
    }

    /// The contact force events, oldest first.
    pub closed spec fn contact_forces(&self) -> Seq<F> {
        self.contact_force_events@
    }

    /// What reading the collision event at `index` gives.
    pub open spec fn collision_at(&self, index: int) -> Option<C> {
        if 0 <= index < self.collisions().len() {
            Some(self.collisions()[index])
        } else {
            None
        }
    }

    /// What reading the contact force event at `index` gives.
    pub open spec fn contact_force_at(&self, index: int) -> Option<F> {
        if 0 <= index < self.contact_forces().len() {
            Some(self.contact_forces()[index])
        } else {
            None
        }
    }

    /// An empty handler.
    pub fn new() -> (r: Self)
        ensures
            r.collisions() == Seq::<C>::empty(),
            r.contact_forces() == Seq::<F>::empty(),
    {
        CollectingEventHandler { collision_events: Vec::new(), contact_force_events: Vec::new() }
    }

    /// Forgets every event.
    pub fn clear(&mut self)
        ensures
            final(self).collisions() == Seq::<C>::empty(),
            final(self).contact_forces() == Seq::<F>::empty(),
    {
        clear_events(&mut self.collision_events);
        clear_events(&mut self.contact_force_events);
    }

    /// Records a collision event.
    pub fn push_collision_event(&mut self, record: C)
        ensures
            final(self).collisions() == old(self).collisions().push(record),
            final(self).contact_forces() == old(self).contact_forces(),
    {
        self.collision_events.push(record);
    }

    /// Records a contact force event.
    pub fn push_contact_force_event(&mut self, record: F)
        ensures
            final(self).collisions() == old(self).collisions(),
            final(self).contact_forces() == old(self).contact_forces().push(record),
    {
        self.contact_force_events.push(record);
    }

    /// How many collision events are recorded.
    pub fn collision_event_count(&self) -> (r: usize)
        ensures
            r == self.collisions().len(),
    {
        self.collision_events.len()
    }

    /// The collision event at `index`, if there is one.
    pub fn collision_event(&self, index: usize) -> (r: Option<C>)
        ensures
            r == self.collision_at(index as int),
    {
        if index < self.collision_events.len() {
            Some(self.collision_events[index])
        } else {
            None
        }
    }

    /// How many contact force events are recorded.
    pub fn contact_force_event_count(&self) -> (r: usize)
        ensures
            r == self.contact_forces().len(),
    {
        self.contact_force_events.len()
    }

    /// The contact force event at `index`, if there is one.
    pub fn contact_force_event(&self, index: usize) -> (r: Option<F>)
        ensures
            r == self.contact_force_at(index as int),
    {
        if index < self.contact_force_events.len() {
            Some(self.contact_force_events[index])
        } else {
            None
        }
    }
}

/// The engine's flag bit for a pair where one collider is a sensor.
pub const SENSOR_FLAG: u32 = 1;

/// The engine's flag bit for a stop caused by removing a collider.
pub const REMOVED_FLAG: u32 = 2;

/// A collision event as the engine reports it, in plain values: whether the
/// pair started or stopped touching, each collider's arena (index,
/// generation), and the event's flag bits.
#[derive(Clone, Copy, Debug)]
pub struct CollisionEventParts {
    pub started: bool,
    pub collider1: (u32, u32),
    pub collider2: (u32, u32),
    pub flags: u32,
}

/// What is recorded of a collision event: started or stopped, the two
/// colliders' raw handles, and whether the sensor and removed flags are set.
#[derive(Clone, Copy, Debug, PartialEq, Eq, Structural)]
pub struct CollisionRecord {
    pub started: Bool,
    pub collider1: u64,
    pub collider2: u64,
    pub sensor: Bool,
    pub removed: Bool,
}

/// The record of collision event `e`.
pub open spec fn collision_record_of(e: CollisionEventParts) -> CollisionRecord {
    CollisionRecord {
        started: bool_of(e.started),
        collider1: packed_handle(e.collider1.0, e.collider1.1),
        collider2: packed_handle(e.collider2.0, e.collider2.1),
        sensor: bool_of(e.flags & SENSOR_FLAG != 0),
        removed: bool_of(e.flags & REMOVED_FLAG != 0),
    }
}

/// A collision record says what its event says: `started` exactly for a
/// started event; `sensor` exactly when bit 0 (`SENSOR_FLAG`) of the event's
/// flags is set, and `removed` exactly when bit 1 (`REMOVED_FLAG`) is, each
/// whatever the started flag and the other bits; and the colliders' raw
/// handles, from which the arena index and generation read back.
pub proof fn lemma_collision_record_fields(e: CollisionEventParts)
    ensures
        collision_record_of(e).started == (if e.started { Bool(1) } else { Bool(0) }),
        collision_record_of(e).sensor == (if e.flags % 2 == 1 { Bool(1) } else { Bool(0) }),
        collision_record_of(e).removed == (if (e.flags / 2) % 2 == 1 { Bool(1) } else { Bool(0) }),
        e.collider1.0 < u32::MAX ==> collision_record_of(e).collider1 % 0x1_0000_0000 == e.collider1.0 + 1
            && collision_record_of(e).collider1 / 0x1_0000_0000 == e.collider1.1,
        e.collider2.0 < u32::MAX ==> collision_record_of(e).collider2 % 0x1_0000_0000 == e.collider2.0 + 1
            && collision_record_of(e).collider2 / 0x1_0000_0000 == e.collider2.1,
{
    let f = e.flags;
    assert((f & 1u32 != 0) == (f % 2 == 1)) by (bit_vector);
    assert((f & 2u32 != 0) == ((f / 2) % 2 == 1)) by (bit_vector);
    lemma_packed_parts(e.collider1.0, e.collider1.1);
    lemma_packed_parts(e.collider2.0, e.collider2.1);
}

proof fn lemma_packed_parts(index: u32, generation: u32)
    ensures
        index < u32::MAX ==> packed_handle(index, generation) % 0x1_0000_0000 == index + 1
            && packed_handle(index, generation) / 0x1_0000_0000 == generation,
{
    if index < u32::MAX {
        let v = generation as int * 0x1_0000_0000 + index as int + 1;
        assert(0 <= v < 0x1_0000_0000_0000_0000) by (nonlinear_arith)
            requires
                v == generation as int * 0x1_0000_0000 + index as int + 1,
                generation <= 0xffff_ffff,
                index < 0xffff_ffff,
        ;
        assert(v % 0x1_0000_0000 == index + 1 && v / 0x1_0000_0000 == generation) by (nonlinear_arith)
            requires
                v == generation as int * 0x1_0000_0000 + index as int + 1,
                0 <= index + 1 < 0x1_0000_0000,
                generation >= 0,
        ;
    }
}

/// Builds the record of a collision event.
pub fn collision_record(e: CollisionEventParts) -> (r: CollisionRecord)
    ensures
        r == collision_record_of(e),
{
    CollisionRecord {
        started: Bool::from_bool(e.started),
        collider1: pack_parts(e.collider1.0, e.collider1.1),
        collider2: pack_parts(e.collider2.0, e.collider2.1),
        sensor: Bool::from_bool(e.flags & SENSOR_FLAG != 0),
        removed: Bool::from_bool(e.flags & REMOVED_FLAG != 0),
    }
}

impl<F: Copy> CollectingEventHandler<CollisionRecord, F> {
    /// Records a collision event reported by the engine.
    pub fn handle_collision_event(&mut self, e: CollisionEventParts)
        ensures
            final(self).collisions() == old(self).collisions().push(collision_record_of(e)),
            final(self).contact_forces() == old(self).contact_forces(),
    {
        let record = collision_record(e);
        self.push_collision_event(record);
    }
}

/// Collision events are read back in the order the engine reported them,
/// each as its record: when `states` is a run of handlers that starts empty
/// (just made or cleared) and where each next handler is the one before
/// after handling `events[i]`, reading index `i` of the last handler gives
/// the record of `events[i]` below their count and nothing from there on.
pub proof fn lemma_collision_events_read_back<F: Copy>(
    states: Seq<CollectingEventHandler<CollisionRecord, F>>,
    events: Seq<CollisionEventParts>,
)
    requires
        states.len() == events.len() + 1,
        states[0].collisions() == Seq::<CollisionRecord>::empty(),
        forall|i: int|
            0 <= i < events.len() ==> #[trigger] states[i + 1].collisions() == states[i].collisions().push(
                collision_record_of(events[i]),
            ),
    ensures
        states.last().collisions().len() == events.len(),
        forall|i: int|
            #[trigger] states.last().collision_at(i) == if 0 <= i < events.len() {
                Some(collision_record_of(events[i]))
            } else {
                None
            },
{
    let records = events.map_values(|e: CollisionEventParts| collision_record_of(e));
    assert forall|i: int| 0 <= i < records.len() implies #[trigger] states[i + 1].collisions()
        == states[i].collisions().push(records[i]) by {
        assert(states[i + 1].collisions() == states[i].collisions().push(collision_record_of(events[i])));
    }
    lemma_collisions_read_back(states, records);
    assert forall|i: int| #[trigger] states.last().collision_at(i) == if 0 <= i < events.len() {
        Some(collision_record_of(events[i]))
    } else {
        None
    } by {
        assert(states.last().collision_at(i) == if 0 <= i < records.len() {
            Some(records[i])
        } else {
            None
        });
    }
}

/// Events are read back in the order they were recorded: when `states` is a
/// run of handlers that starts empty (just made or cleared) and where each
/// next handler is the one before with `records[i]` pushed as a collision
/// event, the last handler holds exactly `records`; reading index `i` gives
/// `records[i]` below their count and nothing from there on.
pub proof fn lemma_collisions_read_back<C: Copy, F: Copy>(
    states: Seq<CollectingEventHandler<C, F>>,
    records: Seq<C>,
)
    requires
        states.len() == records.len() + 1,
        states[0].collisions() == Seq::<C>::empty(),
        forall|i: int|
            0 <= i < records.len() ==> #[trigger] states[i + 1].collisions() == states[i].collisions().push(
                records[i],
            ),
    ensures
        states.last().collisions() == records,
        forall|i: int|
            #[trigger] states.last().collision_at(i) == if 0 <= i < records.len() {
                Some(records[i])
            } else {
                None
            },
    decreases records.len(),
{
    if records.len() > 0 {
        let n = records.len() - 1;
        let prefix = states.subrange(0, n + 1);
        assert forall|i: int| 0 <= i < records.drop_last().len() implies #[trigger] prefix[i + 1].collisions()
            == prefix[i].collisions().push(records.drop_last()[i]) by {
            assert(states[i + 1].collisions() == states[i].collisions().push(records[i]));
        }
        lemma_collisions_read_back(prefix, records.drop_last());
        assert(states[n + 1].collisions() == states[n].collisions().push(records[n]));
        assert(states.last().collisions() =~= records);
    } else {
        assert(states.last().collisions() =~= records);
    }
}

/// Contact force events are read back in the order they were recorded: the
/// same law as `lemma_collisions_read_back`, for the other log.
pub proof fn lemma_contact_forces_read_back<C: Copy, F: Copy>(
    states: Seq<CollectingEventHandler<C, F>>,
    records: Seq<F>,
)
    requires
        states.len() == records.len() + 1,
        states[0].contact_forces() == Seq::<F>::empty(),
        forall|i: int|
            0 <= i < records.len() ==> #[trigger] states[i + 1].contact_forces()
                == states[i].contact_forces().push(records[i]),
    ensures
        states.last().contact_forces() == records,
        forall|i: int|
            #[trigger] states.last().contact_force_at(i) == if 0 <= i < records.len() {
                Some(records[i])
            } else {
                None
            },
    decreases records.len(),
{
    if records.len() > 0 {
        let n = records.len() - 1;
        let prefix = states.subrange(0, n + 1);
        assert forall|i: int| 0 <= i < records.drop_last().len() implies #[trigger] prefix[i + 1].contact_forces()
            == prefix[i].contact_forces().push(records.drop_last()[i]) by {
            assert(states[i + 1].contact_forces() == states[i].contact_forces().push(records[i]));
        }
        lemma_contact_forces_read_back(prefix, records.drop_last());
        assert(states[n + 1].contact_forces() == states[n].contact_forces().push(records[n]));
        assert(states.last().contact_forces() =~= records);
    } else {
        assert(states.last().contact_forces() =~= records);
    }
}

/// What a contact filter's answer means: `u32::MAX` rejects the pair
/// (`None`); anything else is the set of solver flags to use.
pub fn contact_filter_flags(answer: u32) -> (r: Option<u32>)
    ensures
        r == if answer == u32::MAX {
            None
        } else {
            Some(answer)
        },
{
    if answer == u32::MAX {
        None
    } else {
        Some(answer)
    }
}

/// Whether an intersection filter's answer lets the pair through.
pub fn intersection_filter_allows(answer: Bool) -> (r: bool)
    ensures
        r == (answer.0 != 0),
{
    answer.0 != 0
}

} // verus!
