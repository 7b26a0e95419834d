//! Coordinates, vectors and axis-aligned boxes.
//!
//! A coordinate is the total-order key of a double: the integer that
//! `f64::total_cmp` compares (the bits of the double, with the magnitude bits
//! flipped for negative values). Two keys compare as their doubles do under
//! `total_cmp`. Under the ordinary comparison of doubles, `-0.0` and `+0.0`
//! are equal, while their keys (`-1` and `0`) differ; `rank` identifies them.
use vstd::prelude::*;

verus! {

/// Key of the most negative finite double.
pub const MIN_FINITE_KEY: i64 = -0x7FF0_0000_0000_0000;

/// Key of the largest finite double.
pub const MAX_FINITE_KEY: i64 = 0x7FEF_FFFF_FFFF_FFFF;

/// A key denotes a finite double.
pub open spec fn key_is_finite(k: i64) -> bool {
    MIN_FINITE_KEY <= k <= MAX_FINITE_KEY
}

/// The position of a key in the ordinary order of doubles: `-0.0` ranks with `+0.0`.
pub open spec fn rank(k: i64) -> int {
    if k == -1 {
        0
    } else {
        k as int
    }
}

/// `a <= b` for the doubles that the keys denote.
pub open spec fn coord_le(a: i64, b: i64) -> bool {
    rank(a) <= rank(b)
}

/// Whether a key denotes a finite double.
pub fn is_finite_key(k: i64) -> (r: bool)
    ensures
        r == key_is_finite(k),
{
    MIN_FINITE_KEY <= k && k <= MAX_FINITE_KEY
}

/// `a <= b` for the doubles that the keys denote.
pub fn coord_le_exec(a: i64, b: i64) -> (r: bool)
    ensures
        r == coord_le(a, b),
{
    let ra: i64 = if a == -1 { 0 } else { a };
    let rb: i64 = if b == -1 { 0 } else { b };
    ra <= rb
}

/// The smaller of two coordinates; of `-0.0` and `+0.0`, either may come back.
pub fn coord_min(a: i64, b: i64) -> (r: i64)
    ensures
        r == a || r == b,
        rank(r) <= rank(a),
        rank(r) <= rank(b),
{
    if coord_le_exec(a, b) {
        a
    } else {
        b
    }
}

/// The larger of two coordinates; of `-0.0` and `+0.0`, either may come back.
pub fn coord_max(a: i64, b: i64) -> (r: i64)
    ensures
        r == a || r == b,
        rank(a) <= rank(r),
        rank(b) <= rank(r),
{
    if coord_le_exec(a, b) {
        b
    } else {
        a
    }
}

#[derive(Clone, Copy, Debug, PartialEq, Eq, Structural)]
pub struct Vec3 {
    pub x: i64,
    pub y: i64,
    pub z: i64,
}

/// The component of `v` along `axis`; any axis from 2 on is the z axis.
pub open spec fn vec_axis(v: Vec3, axis: int) -> i64 {
    if axis == 0 {
        v.x
    } else if axis == 1 {
        v.y
    } else {
        v.z
    }
}

/// A box as callers describe it, not yet checked.
#[derive(Clone, Copy, Debug, PartialEq, Eq, Structural)]
pub struct AabbDesc {
    pub mins: Vec3,
    pub maxs: Vec3,
}

/// A checked box.
#[derive(Clone, Copy, Debug, PartialEq, Eq, Structural)]
pub struct Aabb {
    pub mins: Vec3,
    pub maxs: Vec3,
}

/// A description is accepted when every coordinate is finite and every
/// minimum is at most the matching maximum.
pub open spec fn desc_is_valid(d: AabbDesc) -> bool {
    &&& key_is_finite(d.mins.x)
    &&& key_is_finite(d.mins.y)
    &&& key_is_finite(d.mins.z)
    &&& key_is_finite(d.maxs.x)
    &&& key_is_finite(d.maxs.y)
    &&& key_is_finite(d.maxs.z)
    &&& coord_le(d.mins.x, d.maxs.x)
    &&& coord_le(d.mins.y, d.maxs.y)
    &&& coord_le(d.mins.z, d.maxs.z)
}

/// Two boxes overlap (touching counts) on every axis.
pub open spec fn boxes_intersect(a: Aabb, b: Aabb) -> bool {
    &&& coord_le(a.mins.x, b.maxs.x)
    &&& coord_le(b.mins.x, a.maxs.x)
    &&& coord_le(a.mins.y, b.maxs.y)
    &&& coord_le(b.mins.y, a.maxs.y)
    &&& coord_le(a.mins.z, b.maxs.z)
    &&& coord_le(b.mins.z, a.maxs.z)
}

/// `outer` contains `inner` on every axis.
pub open spec fn box_contains(outer: Aabb, inner: Aabb) -> bool {
    &&& coord_le(outer.mins.x, inner.mins.x)
    &&& coord_le(outer.mins.y, inner.mins.y)
    &&& coord_le(outer.mins.z, inner.mins.z)
    &&& coord_le(inner.maxs.x, outer.maxs.x)
    &&& coord_le(inner.maxs.y, outer.maxs.y)
    &&& coord_le(inner.maxs.z, outer.maxs.z)
}

impl Aabb {
    /// Checks a description: `Some` exactly when it is valid, with its corners.
    pub fn from_desc(desc: AabbDesc) -> (r: Option<Aabb>)
        ensures
            r is Some <==> desc_is_valid(desc),
            r matches Some(b) ==> b.mins == desc.mins && b.maxs == desc.maxs,
    {
        let mins = desc.mins;
        let maxs = desc.maxs;
        if !is_finite_key(mins.x) || !is_finite_key(mins.y) || !is_finite_key(mins.z)
            || !is_finite_key(maxs.x) || !is_finite_key(maxs.y) || !is_finite_key(maxs.z)
            || !coord_le_exec(mins.x, maxs.x) || !coord_le_exec(mins.y, maxs.y)
            || !coord_le_exec(mins.z, maxs.z) {
            return None;
        }
        Some(Aabb { mins, maxs })
    }

    /// Whether two boxes overlap; touching faces count.
    pub fn intersects(self, other: Aabb) -> (r: bool)
        ensures
            r == boxes_intersect(self, other),
    {
        coord_le_exec(self.mins.x, other.maxs.x) && coord_le_exec(other.mins.x, self.maxs.x)
            && coord_le_exec(self.mins.y, other.maxs.y) && coord_le_exec(other.mins.y, self.maxs.y)
            && coord_le_exec(self.mins.z, other.maxs.z) && coord_le_exec(other.mins.z, self.maxs.z)
    }

    /// The smallest box that holds both boxes.
    pub fn union(self, other: Aabb) -> (r: Aabb)
        ensures
            box_contains(r, self),
            box_contains(r, other),
            r.mins.x == self.mins.x || r.mins.x == other.mins.x,
            r.mins.y == self.mins.y || r.mins.y == other.mins.y,
            r.mins.z == self.mins.z || r.mins.z == other.mins.z,
            r.maxs.x == self.maxs.x || r.maxs.x == other.maxs.x,
            r.maxs.y == self.maxs.y || r.maxs.y == other.maxs.y,
            r.maxs.z == self.maxs.z || r.maxs.z == other.maxs.z,
    {
        Aabb {
            mins: Vec3 {
                x: coord_min(self.mins.x, other.mins.x),
                y: coord_min(self.mins.y, other.mins.y),
                z: coord_min(self.mins.z, other.mins.z),
            },
            maxs: Vec3 {
                x: coord_max(self.maxs.x, other.maxs.x),
                y: coord_max(self.maxs.y, other.maxs.y),
                z: coord_max(self.maxs.z, other.maxs.z),
            },
        }
    }

    /// The minimum along `axis` (any axis from 2 on is z).
    pub fn min_axis(self, axis: usize) -> (r: i64)
        ensures
            r == vec_axis(self.mins, axis as int),
    {
        match axis {
            0 => self.mins.x,
            1 => self.mins.y,
            _ => self.mins.z,
        }
    }

    /// The maximum along `axis` (any axis from 2 on is z).
    pub fn max_axis(self, axis: usize) -> (r: i64)
        ensures
            r == vec_axis(self.maxs, axis as int),
    {
        match axis {
            0 => self.maxs.x,
            1 => self.maxs.y,
            _ => self.maxs.z,
        }
    }
}

/// Containment is transitive.
pub proof fn lemma_contains_trans(a: Aabb, b: Aabb, c: Aabb)
    requires
        box_contains(a, b),
        box_contains(b, c),
    ensures
        box_contains(a, c),
{
}

/// A box that meets a query box lies in a container that meets it too.
pub proof fn lemma_contained_intersects(outer: Aabb, inner: Aabb, q: Aabb)
    requires
        box_contains(outer, inner),
        boxes_intersect(inner, q),
    ensures
        boxes_intersect(outer, q),
{
}

} // verus!
