use vstd::prelude::*;

pub mod blocks;
pub mod builder;
pub mod cake;
pub mod signature;
pub mod timer;
pub mod ram_block;

verus! {

/// Ticks per second of the integer timeline that the note index is keyed by.
pub const TICKS_PER_SECOND: u32 = 10000;

} // verus!
