//! Values passed across the Java boundary: object addresses carried in a
//! `jlong`, and body types carried in a `jint`.
use vstd::prelude::*;

verus! {

/// The address of a native object as a Java `long`.
pub fn ptr_to_jlong(addr: usize) -> (r: i64)
    ensures
        r == addr as isize as i64,
{
    addr as isize as i64
}

/// The address that a Java `long` carries, for an object to be changed.
pub fn jlong_to_mut(value: i64) -> (r: usize)
    ensures
        r == value as isize as usize,
{
    value as isize as usize
}

/// The address that a Java `long` carries, for an object to be read.
pub fn jlong_to_const(value: i64) -> (r: usize)
    ensures
        r == value as isize as usize,
{
    value as isize as usize
}

/// An address survives the trip through a Java `long`.
pub proof fn lemma_jlong_round_trip(addr: usize)
    ensures
        (addr as isize as i64) as isize as usize == addr,
{
    assert((addr as isize as i64) as isize as usize == addr) by (bit_vector);
}

/// How a rigid body moves.
#[derive(Clone, Copy, Debug, PartialEq, Eq, Structural)]
pub enum BodyStatus {
    Dynamic,
    Fixed,
    KinematicPositionBased,
    KinematicVelocityBased,
}

/// The body type a Java `int` names: 0 dynamic, 1 fixed, 2 kinematic by
/// position, 3 kinematic by velocity; any other value is fixed.
pub fn body_status(value: i32) -> (r: BodyStatus)
    ensures
        r == if value == 0 {
            BodyStatus::Dynamic
        } else if value == 2 {
            BodyStatus::KinematicPositionBased
        } else if value == 3 {
            BodyStatus::KinematicVelocityBased
        } else {
            BodyStatus::Fixed
        },
{
    match value {
        0 => BodyStatus::Dynamic,
        1 => BodyStatus::Fixed,
        2 => BodyStatus::KinematicPositionBased,
        3 => BodyStatus::KinematicVelocityBased,
        _ => BodyStatus::Fixed,
    }
}

} // verus!
