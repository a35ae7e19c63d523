use vstd::prelude::*;

verus! {

/// A note of an in-memory block: its length, once known, and its
/// channel-track.
#[derive(Clone, Copy, Debug, PartialEq, Eq, Structural)]
pub struct BasicMIDINote {
    pub len: i64,
    pub track_chan: u32,
}

/// Notes that all start at one time, in microseconds; each note's length is
/// filled in when it ends, and `max_length` is the longest of them.
pub struct InRamNoteBlock {
    pub start: i64,
    pub max_length: i64,
    pub notes: Vec<BasicMIDINote>,
}

impl InRamNoteBlock {
    /// A block whose notes carry the given channel-tracks, with lengths of zero
    /// until they end.
    pub fn new_from_trackchans(time: i64, track_chans: &Vec<u32>) -> (r: Self)
        ensures
            r.start == time,
            r.max_length == 0,
            r.notes@.len() == track_chans@.len(),
            forall|i: int|
                0 <= i < r.notes@.len() ==> (#[trigger] r.notes@[i]) == (BasicMIDINote {
                    len: 0,
                    track_chan: track_chans@[i],
                }),
    {
        let mut notes: Vec<BasicMIDINote> = Vec::with_capacity(track_chans.len());
        let mut i: usize = 0;
        while i < track_chans.len()
            invariant
                i <= track_chans@.len(),
                notes@.len() == i,
                forall|j: int|
                    0 <= j < i ==> (#[trigger] notes@[j]) == (BasicMIDINote {
                        len: 0,
                        track_chan: track_chans@[j],
                    }),
            decreases track_chans@.len() - i,
        {
            notes.push(BasicMIDINote { len: 0, track_chan: track_chans[i] });
            i = i + 1;
        }
        InRamNoteBlock { start: time, notes, max_length: 0 }
    }

    /// Records that note `note_index` ends at `end_time`.
    pub fn set_note_end_time(&mut self, note_index: usize, end_time: i64)
        requires
            note_index < old(self).notes@.len(),
            i64::MIN <= end_time - old(self).start <= i64::MAX,
        ensures
            final(self).start == old(self).start,
            final(self).notes@ == old(self).notes@.update(
                note_index as int,
                BasicMIDINote {
                    len: (end_time - old(self).start) as i64,
                    track_chan: old(self).notes@[note_index as int].track_chan,
                },
            ),
            final(self).max_length == if end_time - old(self).start > old(self).max_length {
                (end_time - old(self).start) as i64
            } else {
                old(self).max_length
            },
    {
        let len = end_time - self.start;
        let track_chan = self.notes[note_index].track_chan;
        self.notes.set(note_index, BasicMIDINote { len, track_chan });
        if len > self.max_length {
            self.max_length = len;
        }
    }
}

} // verus!
