use vstd::prelude::*;

verus! {

/// The playback clock, in microseconds. It starts `start_delay` before zero,
/// so that playback begins after that delay, and moves only by `advance`
/// and `seek`.
pub struct TimeKeeper {
    position: i64,
}

impl TimeKeeper {
    pub closed spec fn view(&self) -> int {
        self.position as int
    }

    pub closed spec fn from_position(position: i64) -> Self {
        TimeKeeper { position }
    }

    pub proof fn lemma_from_position(position: i64)
        ensures
            Self::from_position(position)@ == position,
    {
    }

    pub fn new(start_delay_micros: u32) -> (r: Self)
        ensures
            r@ == -(start_delay_micros as int),
    {
        TimeKeeper { position: -(start_delay_micros as i64) }
    }

    /// Current position, in microseconds.
    pub fn get_time(&self) -> (r: i64)
        ensures
            r == self@,
    {
        self.position
    }

    /// Moves the clock to `to`, forward or backward.
    pub fn seek(&mut self, to: i64)
        ensures
            final(self)@ == to,
            *final(self) == Self::from_position(to),
    {
        self.position = to;
    }

    /// Moves the clock forward by `elapsed` microseconds of playback,
    /// stopping at the largest position it can hold.
    pub fn advance(&mut self, elapsed: u64)
        ensures
            final(self)@ == if old(self)@ + elapsed <= i64::MAX {
                old(self)@ + elapsed
            } else {
                i64::MAX as int
            },
    {
        let sum: i128 = self.position as i128 + elapsed as i128;
        if sum > i64::MAX as i128 {
            self.position = i64::MAX;
        } else {
            self.position = sum as i64;
        }
    }
}

} // verus!
