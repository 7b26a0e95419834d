//! Plain values exchanged with callers.
use vstd::prelude::*;

verus! {

/// A one-byte boolean: 0 is false, anything else is true.
#[derive(Clone, Copy, Debug, PartialEq, Eq, Structural)]
pub struct Bool(pub u8);

impl Bool {
    /// `TRUE` for `true`, `FALSE` for `false`.
    pub fn from_bool(b: bool) -> (r: Bool)
        ensures
            r == bool_of(b),
    {
        if b {
            Bool(1)
        } else {
            Bool(0)
        }
    }
}

/// The raw handle of arena slot `index` at `generation`.
pub open spec fn packed_handle(index: u32, generation: u32) -> u64 {
    if index < u32::MAX {
        (generation as int * 0x1_0000_0000 + index as int + 1) as u64
    } else {
        ((generation | 1u32) as int * 0x1_0000_0000) as u64
    }
}

/// Packs an arena index and its generation into one raw handle: the
/// generation in the high 32 bits and the index plus one below it, so that 0
/// never names a handle.
pub fn pack_parts(index: u32, generation: u32) -> (r: u64)
    ensures
        r == packed_handle(index, generation),
        index < u32::MAX ==> r == generation as int * 0x1_0000_0000 + index as int + 1,
        index == u32::MAX ==> r == (generation | 1u32) as int * 0x1_0000_0000,
        r != 0,
{
    let hi: u64 = (generation as u64) << 32u64;
    let lo: u64 = (index as u64) + 1;
    let g: u64 = generation as u64;
    proof {
        assert(g <= 0xffff_ffff && 1 <= lo <= 0xffff_ffff && hi == g << 32u64 ==> (hi | lo) == g * 0x1_0000_0000
            + lo) by (bit_vector);
        assert(1 <= lo ==> (hi | lo) != 0) by (bit_vector);
        assert(g <= 0xffff_ffff && lo == 0x1_0000_0000 && hi == g << 32u64 ==> (hi | lo) == (g | 1u64)
            * 0x1_0000_0000) by (bit_vector);
        assert(index == u32::MAX || lo <= 0xffff_ffff);
        assert((g | 1u64) == (generation | 1u32) as u64) by (bit_vector)
            requires
                g == generation as u64,
        ;
    }
    hi | lo
}

/// The `Bool` that stands for `b`.
pub open spec fn bool_of(b: bool) -> Bool {
    if b {
        Bool(1)
    } else {
        Bool(0)
    }
}

} // verus!
