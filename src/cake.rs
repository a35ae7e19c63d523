use vstd::prelude::*;

use crate::blocks::CakeBlock;
use crate::builder::{started_counts, sum_nat, NoteEvent, ThreadedTreeSerializers, KEY_COUNT};
use crate::signature::{CakeSignature, MIDIFileUniqueSignature};
use crate::timer::TimeKeeper;
use crate::TICKS_PER_SECOND;

verus! {

/// A note on or off, already placed on the integer tick timeline.
#[derive(Clone, Copy, Debug, PartialEq, Eq, Structural)]
pub struct TickEvent {
    pub tick: i32,
    pub track: u32,
    pub channel: u8,
    pub key: u8,
    pub on: bool,
}

/// Why a file could not be turned into a note index.
#[derive(Clone, Copy, Debug, PartialEq, Eq, Structural)]
pub enum LoadError {
    /// A tick is negative, goes backward, or lies past the end of the file.
    UnorderedEvents,
    /// A note names a channel above 15 or a key above 127.
    InvalidEvent,
    /// A note's channel and track have no color in the palette.
    ColorPaletteTooSmall,
}

/// Totals that a player shows.
#[derive(Clone, Copy, Debug, PartialEq, Eq, Structural)]
pub struct MIDIFileStats {
    pub total_notes: Option<u64>,
    pub passed_notes: Option<u64>,
}

/// Channel and track folded into one id: `channel + 16 * track`.
pub open spec fn channel_track_of(e: TickEvent) -> int {
    e.channel as int + 16 * e.track as int
}

pub open spec fn ordered(events: Seq<TickEvent>, final_tick: i32) -> bool {
    &&& final_tick >= 0
    &&& forall|i: int| 0 <= i < events.len() ==> 0 <= #[trigger] events[i].tick <= final_tick
    &&& forall|i: int, j: int| 0 <= i <= j < events.len() ==> events[i].tick <= events[j].tick
}

pub open spec fn is_midi_note(e: TickEvent) -> bool {
    e.channel < 16 && e.key < 128
}

pub open spec fn has_color(e: TickEvent, palette_len: nat) -> bool {
    channel_track_of(e) < palette_len && channel_track_of(e) <= i32::MAX
}

/// Number of note starts among `events`.
pub open spec fn count_on(events: Seq<TickEvent>) -> nat
    decreases events.len(),
{
    if events.len() == 0 {
        0
    } else {
        count_on(events.drop_last()) + if events.last().on { 1nat } else { 0nat }
    }
}

/// Ticks of the note starts of pitch `key`, in order.
pub open spec fn on_ticks(events: Seq<TickEvent>, key: int) -> Seq<i32>
    decreases events.len(),
{
    if events.len() == 0 {
        Seq::empty()
    } else {
        let rest = on_ticks(events.drop_last(), key);
        if events.last().on && events.last().key == key {
            rest.push(events.last().tick)
        } else {
            rest
        }
    }
}

/// There are never more note starts than events.
pub proof fn lemma_count_on_le_len(events: Seq<TickEvent>)
    ensures
        count_on(events) <= events.len(),
    decreases events.len(),
{
    if events.len() > 0 {
        lemma_count_on_le_len(events.drop_last());
    }
}

/// Colors of the note starts of pitch `key`, in order, each taken from the
/// palette at the note's channel-track.
pub open spec fn on_colors(events: Seq<TickEvent>, key: int, palette: Seq<u32>) -> Seq<i32>
    decreases events.len(),
{
    if events.len() == 0 {
        Seq::empty()
    } else {
        let rest = on_colors(events.drop_last(), key, palette);
        if events.last().on && events.last().key == key {
            rest.push(palette[channel_track_of(events.last())] as i32)
        } else {
            rest
        }
    }
}

/// End ticks recorded for pitch `key`, and the channel-tracks of its notes
/// still open, after `events`: an off ends the oldest open note of its
/// channel-track and is ignored where there is none.
pub open spec fn pitch_model(events: Seq<TickEvent>, key: int) -> (Seq<i32>, Seq<i32>)
    decreases events.len(),
{
    if events.len() == 0 {
        (Seq::empty(), Seq::empty())
    } else {
        let (ends, open) = pitch_model(events.drop_last(), key);
        let e = events.last();
        let ct = channel_track_of(e) as i32;
        if e.key != key {
            (ends, open)
        } else if e.on {
            (ends, open.push(ct))
        } else {
            match open.index_of_first(ct) {
                Some(k) => (ends.push(e.tick), open.remove(k)),
                None => (ends, open),
            }
        }
    }
}

/// End ticks of pitch `key` once the notes still open close at `final_tick`.
pub open spec fn sealed_ends(events: Seq<TickEvent>, key: int, final_tick: i32) -> Seq<i32> {
    pitch_model(events, key).0 + Seq::new(pitch_model(events, key).1.len(), |j: int| final_tick)
}

/// Division that drops the fraction, as a cast from seconds to ticks does.
pub open spec fn trunc_div(x: int, d: int) -> int {
    if x >= 0 {
        x / d
    } else {
        -((-x) / d)
    }
}

/// The tick at `micros` microseconds, held to the range of `i32`.
pub open spec fn tick_at(micros: int, ticks_per_second: int) -> int {
    let t = trunc_div(micros * ticks_per_second, 1_000_000);
    if t > i32::MAX {
        i32::MAX as int
    } else if t < i32::MIN {
        i32::MIN as int
    } else {
        t
    }
}

/// Notes in each block.
pub open spec fn block_counts(blocks: Seq<CakeBlock>) -> Seq<nat> {
    Seq::new(blocks.len(), |p: int| blocks[p].spec_len())
}

/// Notes sounding at tick `t`, over all blocks.
pub open spec fn passed_sum(blocks: Seq<CakeBlock>, t: int) -> int
    decreases blocks.len(),
{
    if blocks.len() == 0 {
        0
    } else {
        passed_sum(blocks.drop_last(), t) + blocks.last().spec_passed_at(t)
    }
}

/// A prefix of counts never sums to more than the whole.
pub proof fn lemma_sum_nat_prefix(s: Seq<nat>, k: int)
    requires
        0 <= k <= s.len(),
    ensures
        sum_nat(s.take(k)) <= sum_nat(s),
    decreases s.len() - k,
{
    if k < s.len() {
        assert(s.take(k + 1).drop_last() =~= s.take(k));
        lemma_sum_nat_prefix(s, k + 1);
    } else {
        assert(s.take(k) =~= s);
    }
}

/// Sounding notes over all blocks never exceed the notes they hold.
pub proof fn lemma_passed_sum_bounds(blocks: Seq<CakeBlock>, t: int)
    requires
        forall|p: int| 0 <= p < blocks.len() ==> (#[trigger] blocks[p]).wf(),
    ensures
        0 <= passed_sum(blocks, t) <= sum_nat(block_counts(blocks)),
    decreases blocks.len(),
{
    if blocks.len() > 0 {
        let d = blocks.drop_last();
        assert forall|p: int| 0 <= p < d.len() implies (#[trigger] d[p]).wf() by {
            assert(d[p] == blocks[p]);
        }
        lemma_passed_sum_bounds(d, t);
        assert(block_counts(blocks).drop_last() =~= block_counts(d));
        crate::blocks::lemma_passed_bounds(&blocks.last(), t);
    }
}

/// A MIDI file indexed for playback: one sealed note index per pitch and the
/// clock that playback runs on.
pub struct CakeMIDIFile {
    blocks: Vec<CakeBlock>,
    timer: TimeKeeper,
    length_micros: u64,
    note_count: u64,
    ticks_per_second: u32,
    signature: MIDIFileUniqueSignature,
}

impl CakeMIDIFile {
    pub closed spec fn blocks_view(&self) -> Seq<CakeBlock> {
        self.blocks@
    }

    pub closed spec fn timer_view(&self) -> TimeKeeper {
        self.timer
    }

    pub closed spec fn length_view(&self) -> u64 {
        self.length_micros
    }

    pub closed spec fn note_count_view(&self) -> u64 {
        self.note_count
    }

    pub closed spec fn ticks_per_second_view(&self) -> u32 {
        self.ticks_per_second
    }

    pub closed spec fn signature_view(&self) -> MIDIFileUniqueSignature {
        self.signature
    }

    pub open spec fn wf(&self) -> bool {
        &&& self.blocks_view().len() == KEY_COUNT
        &&& forall|p: int| 0 <= p < KEY_COUNT ==> (#[trigger] self.blocks_view()[p]).wf()
        &&& self.note_count_view() == sum_nat(block_counts(self.blocks_view()))
        &&& self.ticks_per_second_view() == TICKS_PER_SECOND
    }

    /// The file as it stands after its clock is moved to `to`.
    pub closed spec fn seeked(&self, to: i64) -> Self {
        CakeMIDIFile { timer: TimeKeeper::from_position(to), ..*self }
    }

    /// Notes sounding at the clock's current position.
    pub open spec fn passed_now(&self) -> int {
        passed_sum(
            self.blocks_view(),
            tick_at(self.timer_view()@, self.ticks_per_second_view() as int),
        )
    }

    /// What a load of `events`, under `signature`, holds.
    pub open spec fn loaded_from(
        &self,
        signature: MIDIFileUniqueSignature,
        events: Seq<TickEvent>,
        final_tick: i32,
    ) -> bool {
        &&& self.wf()
        &&& self.signature_view() == signature
        &&& self.note_count_view() == count_on(events)
        &&& forall|p: int|
            0 <= p < KEY_COUNT ==> (#[trigger] self.blocks_view()[p]).starts_view() == on_ticks(
                events,
                p,
            )
        &&& forall|p: int|
            0 <= p < KEY_COUNT ==> (#[trigger] self.blocks_view()[p]).ends_view() == sealed_ends(
                events,
                p,
                final_tick,
            )
        &&& forall|p: int|
            0 <= p < KEY_COUNT ==> (#[trigger] self.blocks_view()[p]).end_time_view()
                == final_tick as u32
        &&& forall|p: int|
            0 <= p < KEY_COUNT ==> (#[trigger] self.blocks_view()[p]).start_time_view() == 0
    }

    /// Builds the note index of a file from its note events, which must come
    /// in time order. `file_bytes` are the file's contents, which the
    /// signature is taken over; `colors` holds one packed RGB color per
    /// channel-track; the clock starts `start_delay_micros` before zero.
    pub fn load_from_events(
        file_bytes: &[u8],
        events: &Vec<TickEvent>,
        final_tick: i32,
        length_micros: u64,
        colors: &Vec<u32>,
        start_delay_micros: u32,
    ) -> (r: Result<Self, LoadError>)
        ensures
            r is Err <==> load_error(events@, final_tick, colors@.len()) is Some,
            r matches Err(e) ==> load_error(events@, final_tick, colors@.len()) == Some(e),
            r matches Ok(f) ==> {
                &&& f.loaded_from(
                    MIDIFileUniqueSignature::spec_of_bytes(file_bytes@),
                    events@,
                    final_tick,
                )
                &&& f.timer_view()@ == -(start_delay_micros as int)
                &&& f.length_view() == length_micros
                &&& forall|p: int|
                    0 <= p < KEY_COUNT ==> (#[trigger] f.blocks_view()[p]).colors_view()
                        == on_colors(events@, p, colors@)
            },
    {
        match check_events(events, final_tick, colors.len()) {
            Err(e) => {
                return Err(e);
            },
            Ok(()) => {},
        }
        let signature = MIDIFileUniqueSignature::of_bytes(file_bytes);
        let mut trees = ThreadedTreeSerializers::new();
        proof {
            assert(events@.take(0) =~= Seq::<TickEvent>::empty());
            assert forall|p: int| 0 <= p < KEY_COUNT implies {
                &&& (#[trigger] trees@[p]).starts_view() == on_ticks(events@.take(0), p)
                &&& trees@[p].colors_view() == on_colors(events@.take(0), p, colors@)
                &&& trees@[p].ends_view() == pitch_model(events@.take(0), p).0
                &&& trees@[p].open_view() == pitch_model(events@.take(0), p).1
            } by {
                assert(trees@[p].starts_view() =~= Seq::<i32>::empty());
                assert(trees@[p].ends_view() =~= Seq::<i32>::empty());
                assert(trees@[p].colors_view() =~= Seq::<i32>::empty());
                assert(trees@[p].open_view() =~= Seq::<i32>::empty());
            }
        }
        let mut note_count: usize = 0;
        let mut i: usize = 0;
        while i < events.len()
            invariant
                i <= events@.len(),
                load_error(events@, final_tick, colors@.len()) is None,
                trees.wf(),
                i == 0 ==> trees.last_time_view() == i32::MIN,
                i > 0 ==> trees.last_time_view() == events@[i - 1].tick,
                note_count == count_on(events@.take(i as int)),
                trees.started() == count_on(events@.take(i as int)),
                forall|p: int|
                    0 <= p < KEY_COUNT ==> (#[trigger] trees@[p]).starts_view() == on_ticks(
                        events@.take(i as int),
                        p,
                    ),
                forall|p: int|
                    0 <= p < KEY_COUNT ==> (#[trigger] trees@[p]).colors_view() == on_colors(
                        events@.take(i as int),
                        p,
                        colors@,
                    ),
                forall|p: int|
                    0 <= p < KEY_COUNT ==> (#[trigger] trees@[p]).ends_view() == pitch_model(
                        events@.take(i as int),
                        p,
                    ).0,
                forall|p: int|
                    0 <= p < KEY_COUNT ==> (#[trigger] trees@[p]).open_view() == pitch_model(
                        events@.take(i as int),
                        p,
                    ).1,
            decreases events@.len() - i,
        {
            let e = events[i];
            proof {
                assert(is_midi_note(events@[i as int]));
                assert(has_color(events@[i as int], colors@.len()));
                if i > 0 {
                    assert(events@[i - 1].tick <= events@[i as int].tick);
                }
                lemma_count_on_le_len(events@.take(i as int));
                assert(events@.take(i as int + 1).drop_last() =~= events@.take(i as int));
            }
            let ct: u64 = e.channel as u64 + 16 * (e.track as u64);
            assert(ct as int == channel_track_of(events@[i as int]));
            let color = colors[ct as usize] as i32;
            let event = if e.on {
                NoteEvent::On { time: e.tick, channel_track: ct as i32, color }
            } else {
                NoteEvent::Off { time: e.tick, channel_track: ct as i32, color }
            };
            let ghost before = trees@;
            trees.push_event(e.key as usize, event);
            if e.on {
                note_count = note_count + 1;
            }
            proof {
                assert forall|p: int| 0 <= p < KEY_COUNT implies {
                    &&& (#[trigger] trees@[p]).starts_view() == on_ticks(events@.take(i as int + 1), p)
                    &&& trees@[p].colors_view() == on_colors(events@.take(i as int + 1), p, colors@)
                    &&& trees@[p].ends_view() == pitch_model(events@.take(i as int + 1), p).0
                    &&& trees@[p].open_view() == pitch_model(events@.take(i as int + 1), p).1
                } by {
                    if p != e.key as int {
                        assert(trees@[p] == before[p]);
                    }
                }
            }
            i = i + 1;
        }
        proof {
            assert(events@.take(events@.len() as int) =~= events@);
        }
        let ghost built = trees@;
        let blocks = trees.seal(final_tick);
        proof {
            assert(block_counts(blocks@) =~= started_counts(built));
            lemma_count_on_le_len(events@);
        }
        Ok(CakeMIDIFile {
            blocks,
            timer: TimeKeeper::new(start_delay_micros),
            length_micros,
            note_count: note_count as u64,
            ticks_per_second: TICKS_PER_SECOND,
            signature,
        })
    }

    /// The sealed note index of every pitch, by key.
    pub fn key_blocks(&self) -> (r: &[CakeBlock])
        ensures
            r@ == self.blocks_view(),
    {
        self.blocks.as_slice()
    }

    pub fn ticks_per_second(&self) -> (r: u32)
        ensures
            r == self.ticks_per_second_view(),
    {
        self.ticks_per_second
    }

    /// Position of the playback clock, in microseconds.
    pub fn current_time(&self) -> (r: i64)
        ensures
            r == self.timer_view()@,
    {
        self.timer.get_time()
    }

    /// Length of the music, in microseconds.
    pub fn midi_length(&self) -> (r: Option<u64>)
        ensures
            r == Some(self.length_view()),
    {
        Some(self.length_micros)
    }

    /// How far the file has been read; the whole file is read at load.
    pub fn parsed_up_to(&self) -> (r: Option<u64>)
        ensures
            r is None,
    {
        None
    }

    pub fn timer(&self) -> (r: &TimeKeeper)
        ensures
            *r == self.timer_view(),
    {
        &self.timer
    }

    /// The index is keyed by tick, so the clock may go back.
    pub fn allows_seeking_backward(&self) -> (r: bool)
        ensures
            r,
    {
        true
    }

    pub fn signature(&self) -> (r: &MIDIFileUniqueSignature)
        ensures
            *r == self.signature_view(),
    {
        &self.signature
    }

    /// Moves the playback clock to `to` microseconds, forward or backward.
    pub fn seek(&mut self, to: i64)
        ensures
            *final(self) == old(self).seeked(to),
            final(self).timer_view()@ == to,
            final(self).blocks_view() == old(self).blocks_view(),
            final(self).note_count_view() == old(self).note_count_view(),
            final(self).signature_view() == old(self).signature_view(),
            final(self).length_view() == old(self).length_view(),
            final(self).ticks_per_second_view() == old(self).ticks_per_second_view(),
            old(self).wf() ==> final(self).wf(),
    {
        self.timer.seek(to);
        proof {
            TimeKeeper::lemma_from_position(to);
        }
    }

    /// Moves the playback clock forward by `elapsed` microseconds.
    pub fn advance(&mut self, elapsed: u64)
        requires
            old(self).wf(),
        ensures
            final(self).wf(),
            final(self).blocks_view() == old(self).blocks_view(),
            final(self).note_count_view() == old(self).note_count_view(),
            final(self).signature_view() == old(self).signature_view(),
            final(self).length_view() == old(self).length_view(),
            final(self).ticks_per_second_view() == old(self).ticks_per_second_view(),
            final(self).timer_view()@ == if old(self).timer_view()@ + elapsed <= i64::MAX {
                old(self).timer_view()@ + elapsed
            } else {
                i64::MAX as int
            },
    {
        self.timer.advance(elapsed);
    }

    /// Notes sounding at tick `tick`, over all pitches.
    pub fn passed_notes_at(&self, tick: i32) -> (r: u64)
        requires
            self.wf(),
        ensures
            r == passed_sum(self.blocks_view(), tick as int),
    {
        let mut acc: u64 = 0;
        let mut i: usize = 0;
        while i < self.blocks.len()
            invariant
                self.wf(),
                i <= self.blocks@.len(),
                acc == passed_sum(self.blocks@.take(i as int), tick as int),
            decreases self.blocks@.len() - i,
        {
            let ghost pre = self.blocks@.take(i as int);
            let ghost next = self.blocks@.take(i as int + 1);
            proof {
                assert(next.drop_last() =~= pre);
                assert forall|p: int| 0 <= p < next.len() implies (#[trigger] next[p]).wf() by {
                    assert(next[p] == self.blocks@[p]);
                }
                lemma_passed_sum_bounds(next, tick as int);
                assert(block_counts(next) =~= block_counts(self.blocks@).take(i as int + 1));
                lemma_sum_nat_prefix(block_counts(self.blocks@), i as int + 1);
                crate::blocks::lemma_passed_bounds(&self.blocks@[i as int], tick as int);
            }
            let x = self.blocks[i].get_notes_passed_at(tick);
            acc = acc + x;
            i = i + 1;
        }
        proof {
            assert(self.blocks@.take(self.blocks@.len() as int) =~= self.blocks@);
        }
        acc
    }

    /// Total notes, and notes sounding at the clock's current position.
    pub fn stats(&self) -> (r: MIDIFileStats)
        requires
            self.wf(),
        ensures
            r.total_notes == Some(self.note_count_view()),
            r.passed_notes == Some(self.passed_now() as u64),
            self.passed_now() >= 0,
    {
        let time = self.timer.get_time();
        let prod: i128 = time as i128 * self.ticks_per_second as i128;
        let q: i128 = if prod >= 0 {
            prod / 1_000_000
        } else {
            -((-prod) / 1_000_000)
        };
        let tick: i32 = if q > i32::MAX as i128 {
            i32::MAX
        } else if q < i32::MIN as i128 {
            i32::MIN
        } else {
            q as i32
        };
        let passed = self.passed_notes_at(tick);
        proof {
            lemma_passed_sum_bounds(self.blocks@, tick as int);
        }
        MIDIFileStats { total_notes: Some(self.note_count), passed_notes: Some(passed) }
    }

    /// The fingerprint of what this file shows.
    pub fn cake_signature(&self) -> (r: CakeSignature)
        requires
            self.wf(),
        ensures
            (r.file_signature, r.note_count, r.buffer_sizes@) == self.spec_cake_signature_parts(),
    {
        let mut sizes: Vec<usize> = Vec::new();
        let mut i: usize = 0;
        while i < self.blocks.len()
            invariant
                i <= self.blocks@.len(),
                sizes@ == Seq::new(i as nat, |p: int| self.blocks@[p].spec_len() as usize),
            decreases self.blocks@.len() - i,
        {
            sizes.push(self.blocks[i].len());
            proof {
                assert(sizes@ =~= Seq::new(i as nat + 1, |p: int| self.blocks@[p].spec_len() as usize));
            }
            i = i + 1;
        }
        CakeSignature { file_signature: self.signature, note_count: self.note_count, buffer_sizes: sizes }
    }

    /// The fingerprint that `cake_signature` gives, in terms of the model.
    pub open spec fn spec_cake_signature_parts(&self) -> (MIDIFileUniqueSignature, u64, Seq<usize>) {
        (
            self.signature_view(),
            self.note_count_view(),
            Seq::new(self.blocks_view().len(), |p: int| self.blocks_view()[p].spec_len() as usize),
        )
    }
}

/// Which error a load of `events` gives, if any: order is checked first,
/// then that every note is a MIDI note, then that every note has a color.
pub open spec fn load_error(
    events: Seq<TickEvent>,
    final_tick: i32,
    palette_len: nat,
) -> Option<LoadError> {
    if !ordered(events, final_tick) {
        Some(LoadError::UnorderedEvents)
    } else if exists|i: int| 0 <= i < events.len() && !is_midi_note(#[trigger] events[i]) {
        Some(LoadError::InvalidEvent)
    } else if exists|i: int| 0 <= i < events.len() && !has_color(#[trigger] events[i], palette_len) {
        Some(LoadError::ColorPaletteTooSmall)
    } else {
        None
    }
}

/// Checks, before any event is read, that the palette holds a color for every
/// channel of every track.
pub fn check_palette(track_count: usize, palette_len: usize) -> (r: Result<(), LoadError>)
    ensures
        r == if palette_len >= 16 * track_count {
            Ok::<(), LoadError>(())
        } else {
            Err(LoadError::ColorPaletteTooSmall)
        },
{
    if track_count as u128 * 16 > palette_len as u128 {
        Err(LoadError::ColorPaletteTooSmall)
    } else {
        Ok(())
    }
}

/// Checks the events against the conditions of `load_error`.
pub fn check_events(events: &Vec<TickEvent>, final_tick: i32, palette_len: usize) -> (r: Result<
    (),
    LoadError,
>)
    ensures
        r == match load_error(events@, final_tick, palette_len as nat) {
            Some(e) => Err(e),
            None => Ok(()),
        },
{
    if final_tick < 0 {
        return Err(LoadError::UnorderedEvents);
    }
    let mut i: usize = 0;
    let mut prev: i32 = 0;
    while i < events.len()
        invariant
            final_tick >= 0,
            i <= events@.len(),
            0 <= prev <= final_tick,
            i == 0 ==> prev == 0,
            i > 0 ==> prev == events@[i - 1].tick,
            forall|j: int| 0 <= j < i ==> 0 <= #[trigger] events@[j].tick <= prev,
            forall|j: int, k: int| 0 <= j <= k < i ==> events@[j].tick <= events@[k].tick,
        decreases events@.len() - i,
    {
        let t = events[i].tick;
        if t < prev || t > final_tick {
            proof {
                if t < prev && i > 0 {
                    assert(events@[i - 1].tick > events@[i as int].tick);
                }
            }
            return Err(LoadError::UnorderedEvents);
        }
        prev = t;
        i = i + 1;
    }
    assert(ordered(events@, final_tick));
    let mut i: usize = 0;
    while i < events.len()
        invariant
            i <= events@.len(),
            ordered(events@, final_tick),
            forall|j: int| 0 <= j < i ==> is_midi_note(#[trigger] events@[j]),
        decreases events@.len() - i,
    {
        if events[i].channel >= 16 || events[i].key >= 128 {
            assert(!is_midi_note(events@[i as int]));
            return Err(LoadError::InvalidEvent);
        }
        i = i + 1;
    }
    let mut i: usize = 0;
    while i < events.len()
        invariant
            i <= events@.len(),
            ordered(events@, final_tick),
            forall|j: int| 0 <= j < events@.len() ==> is_midi_note(#[trigger] events@[j]),
            forall|j: int| 0 <= j < i ==> has_color(#[trigger] events@[j], palette_len as nat),
        decreases events@.len() - i,
    {
        let ct: u64 = events[i].channel as u64 + 16 * (events[i].track as u64);
        if ct >= palette_len as u64 || ct > i32::MAX as u64 {
            assert(!has_color(events@[i as int], palette_len as nat));
            return Err(LoadError::ColorPaletteTooSmall);
        }
        i = i + 1;
    }
    Ok(())
}

/// Seeking back to any position and then forward to `to` gives the same
/// count of sounding notes as seeking straight to `to`: queries depend on the
/// clock's position alone, never on how it got there.
pub proof fn lemma_seek_back_then_forward(f: CakeMIDIFile, back: i64, to: i64)
    ensures
        f.seeked(back).seeked(to).passed_now() == f.seeked(to).passed_now(),
        f.seeked(back).seeked(to) == f.seeked(to),
{
    TimeKeeper::lemma_from_position(to);
}

/// Two loads of the same bytes with the same note events give equal
/// fingerprints.
pub proof fn lemma_same_input_same_fingerprint(
    f1: CakeMIDIFile,
    f2: CakeMIDIFile,
    bytes: Seq<u8>,
    events: Seq<TickEvent>,
    final_tick: i32,
)
    requires
        f1.loaded_from(MIDIFileUniqueSignature::spec_of_bytes(bytes), events, final_tick),
        f2.loaded_from(MIDIFileUniqueSignature::spec_of_bytes(bytes), events, final_tick),
    ensures
        f1.spec_cake_signature_parts() == f2.spec_cake_signature_parts(),
{
    let s1 = f1.spec_cake_signature_parts().2;
    let s2 = f2.spec_cake_signature_parts().2;
    assert forall|p: int| 0 <= p < s1.len() implies s1[p] == s2[p] by {
        assert(f1.blocks_view()[p].starts_view() == on_ticks(events, p));
        assert(f2.blocks_view()[p].starts_view() == on_ticks(events, p));
    }
    assert(s1 =~= s2);
}

/// Loads whose events start a different number of notes on some pitch give
/// different fingerprints, whatever their bytes: moving, adding or removing a
/// note on one key changes that key's block size. A change that keeps every
/// pitch's note count (a note's time or channel) is told apart by the file
/// digest alone.
pub proof fn lemma_other_pitch_counts_other_fingerprint(
    f1: CakeMIDIFile,
    f2: CakeMIDIFile,
    bytes1: Seq<u8>,
    bytes2: Seq<u8>,
    events1: Seq<TickEvent>,
    events2: Seq<TickEvent>,
    final1: i32,
    final2: i32,
    key: int,
)
    requires
        f1.loaded_from(MIDIFileUniqueSignature::spec_of_bytes(bytes1), events1, final1),
        f2.loaded_from(MIDIFileUniqueSignature::spec_of_bytes(bytes2), events2, final2),
        0 <= key < KEY_COUNT,
        on_ticks(events1, key).len() != on_ticks(events2, key).len(),
        on_ticks(events1, key).len() <= usize::MAX,
        on_ticks(events2, key).len() <= usize::MAX,
    ensures
        f1.spec_cake_signature_parts() != f2.spec_cake_signature_parts(),
{
    assert(f1.blocks_view()[key].starts_view() == on_ticks(events1, key));
    assert(f2.blocks_view()[key].starts_view() == on_ticks(events2, key));
    assert(f1.spec_cake_signature_parts().2[key] != f2.spec_cake_signature_parts().2[key]);
}

/// The note count of a load is the number of note starts among its events,
/// and `stats` reports exactly that total.
pub proof fn lemma_note_count_is_note_ons(
    f: CakeMIDIFile,
    bytes: Seq<u8>,
    events: Seq<TickEvent>,
    final_tick: i32,
)
    requires
        f.loaded_from(MIDIFileUniqueSignature::spec_of_bytes(bytes), events, final_tick),
    ensures
        f.note_count_view() == count_on(events),
        count_on(events) == sum_nat(block_counts(f.blocks_view())),
{
}

} // verus!
