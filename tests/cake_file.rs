use cake_midi::blocks::count_le_sorted;
use cake_midi::cake::{check_palette, CakeMIDIFile, LoadError, TickEvent};
use cake_midi::ram_block::{BasicMIDINote, InRamNoteBlock};
use cake_midi::signature::{CakeSignature, MIDIFileUniqueSignature};
use cake_midi::timer::TimeKeeper;

fn ev(tick: i32, track: u32, channel: u8, key: u8, on: bool) -> TickEvent {
    TickEvent { tick, track, channel, key, on }
}

fn palette(n: usize) -> Vec<u32> {
    (0..n as u32).map(|i| 0x10_20_30 + i).collect()
}

fn load(events: &[TickEvent], final_tick: i32) -> CakeMIDIFile {
    CakeMIDIFile::load_from_events(b"MThd", &events.to_vec(), final_tick, 0, &palette(32), 0)
        .unwrap()
}

#[test]
fn two_track_single_note_is_sounding_only_inside_its_interval() {
    let events = vec![ev(0, 0, 0, 60, true), ev(10000, 0, 0, 60, false)];
    let f = load(&events, 10000);
    assert_eq!(f.ticks_per_second(), 10000);
    assert_eq!(f.passed_notes_at(5000), 1);
    assert_eq!(f.passed_notes_at(15000), 0);
}

#[test]
fn note_count_equals_note_ons() {
    let events = vec![
        ev(0, 0, 0, 60, true),
        ev(0, 1, 3, 61, true),
        ev(5, 0, 0, 60, false),
        ev(7, 0, 0, 60, true),
        ev(9, 1, 3, 61, false),
        ev(9, 0, 0, 62, false),
    ];
    let f = load(&events, 20);
    let stats = f.stats();
    assert_eq!(stats.total_notes, Some(3));
    let total: usize = f.key_blocks().iter().map(|b| b.len()).sum();
    assert_eq!(total, 3);
}

#[test]
fn nothing_sounds_before_the_first_note() {
    let events = vec![ev(100, 0, 0, 60, true), ev(200, 0, 0, 60, false)];
    let f = load(&events, 300);
    assert_eq!(f.passed_notes_at(0), 0);
    assert_eq!(f.passed_notes_at(99), 0);
    assert_eq!(f.passed_notes_at(-5), 0);
    assert_eq!(f.passed_notes_at(100), 1);
}

#[test]
fn sounding_count_grows_while_no_note_ends() {
    let events = vec![
        ev(0, 0, 0, 60, true),
        ev(10, 0, 0, 61, true),
        ev(20, 0, 0, 62, true),
        ev(30, 0, 0, 60, false),
    ];
    let f = load(&events, 40);
    let mut prev = 0;
    for t in 0..30 {
        let now = f.passed_notes_at(t);
        assert!(now >= prev);
        prev = now;
    }
    assert_eq!(f.passed_notes_at(29), 3);
    assert_eq!(f.passed_notes_at(30), 2);
}

#[test]
fn seeking_back_then_forward_matches_direct_seek() {
    let events = vec![ev(0, 0, 0, 60, true), ev(10000, 0, 0, 60, false)];
    let mut a = load(&events, 20000);
    let mut b = load(&events, 20000);
    a.seek(1_500_000);
    a.seek(0);
    a.seek(500_000);
    b.seek(500_000);
    assert_eq!(a.stats(), b.stats());
    assert_eq!(a.stats().passed_notes, Some(1));
    assert_eq!(a.current_time(), 500_000);
}

#[test]
fn stats_reads_the_clock_in_ticks() {
    let events = vec![ev(0, 0, 0, 60, true), ev(10000, 0, 0, 60, false)];
    let mut f = load(&events, 10000);
    f.seek(999_999);
    assert_eq!(f.stats().passed_notes, Some(1));
    f.seek(1_000_000);
    assert_eq!(f.stats().passed_notes, Some(0));
    f.seek(-50);
    assert_eq!(f.stats().passed_notes, Some(1));
    f.seek(-100);
    assert_eq!(f.stats().passed_notes, Some(0));
}

#[test]
fn start_delay_puts_the_clock_before_zero() {
    let events = vec![ev(0, 0, 0, 60, true)];
    let f = CakeMIDIFile::load_from_events(b"x", &events, 10, 7, &palette(16), 2_000_000).unwrap();
    assert_eq!(f.current_time(), -2_000_000);
    assert_eq!(f.stats().passed_notes, Some(0));
    assert_eq!(f.midi_length(), Some(7));
    assert_eq!(f.parsed_up_to(), None);
    assert!(f.allows_seeking_backward());
}

#[test]
fn advance_moves_the_clock_forward() {
    let events = vec![ev(0, 0, 0, 60, true)];
    let mut f = CakeMIDIFile::load_from_events(b"x", &events, 10, 7, &palette(16), 100).unwrap();
    f.advance(150);
    assert_eq!(f.current_time(), 50);
    f.advance(u64::MAX);
    assert_eq!(f.current_time(), i64::MAX);
}

#[test]
fn unended_notes_close_at_the_final_tick() {
    let events = vec![ev(0, 0, 0, 60, true)];
    let f = load(&events, 20000);
    assert_eq!(f.passed_notes_at(19999), 1);
    assert_eq!(f.passed_notes_at(20000), 0);
    assert_eq!(f.key_blocks()[60].end_time(), 20000);
    assert_eq!(f.key_blocks()[60].start_time(), 0);
}

#[test]
fn note_off_ends_only_its_own_channel_track() {
    let events = vec![
        ev(0, 0, 0, 60, true),
        ev(5, 1, 0, 60, false),
        ev(8, 0, 1, 60, false),
    ];
    let f = load(&events, 20);
    assert_eq!(f.passed_notes_at(10), 1);
    assert_eq!(f.passed_notes_at(20), 0);
}

#[test]
fn note_color_comes_from_the_channel_track() {
    let events = vec![ev(3, 1, 2, 70, true)];
    let f = load(&events, 5);
    assert_eq!(f.key_blocks()[70].note_start(0), (3, (0x10_20_30 + 18) as i32));
}

#[test]
fn identical_loads_give_equal_fingerprints() {
    let events = vec![ev(0, 0, 0, 60, true), ev(10, 0, 0, 60, false)];
    let a = CakeMIDIFile::load_from_events(b"abc", &events, 10, 0, &palette(16), 0).unwrap();
    let b = CakeMIDIFile::load_from_events(b"abc", &events, 10, 0, &palette(16), 0).unwrap();
    assert!(a.cake_signature() == b.cake_signature());
    assert_eq!(a.cake_signature().buffer_sizes.len(), 128);
}

#[test]
fn a_changed_note_changes_the_fingerprint() {
    let events = vec![ev(0, 0, 0, 60, true), ev(10, 0, 0, 60, false)];
    let changed = vec![ev(0, 0, 0, 61, true), ev(10, 0, 0, 61, false)];
    let a = CakeMIDIFile::load_from_events(b"abc<", &events, 10, 0, &palette(16), 0).unwrap();
    let b = CakeMIDIFile::load_from_events(b"abc=", &changed, 10, 0, &palette(16), 0).unwrap();
    assert!(a.cake_signature() != b.cake_signature());
    assert!(a.signature() != b.signature());
}

#[test]
fn decreasing_ticks_are_refused() {
    let events = vec![ev(10, 0, 0, 60, true), ev(5, 0, 0, 60, false)];
    let r = CakeMIDIFile::load_from_events(b"", &events, 20, 0, &palette(16), 0);
    assert_eq!(r.err(), Some(LoadError::UnorderedEvents));
}

#[test]
fn ticks_past_the_end_are_refused() {
    let events = vec![ev(10, 0, 0, 60, true)];
    let r = CakeMIDIFile::load_from_events(b"", &events, 5, 0, &palette(16), 0);
    assert_eq!(r.err(), Some(LoadError::UnorderedEvents));
    let r = CakeMIDIFile::load_from_events(b"", &vec![], -1, 0, &palette(16), 0);
    assert_eq!(r.err(), Some(LoadError::UnorderedEvents));
}

#[test]
fn out_of_range_key_or_channel_is_refused() {
    let r = CakeMIDIFile::load_from_events(b"", &vec![ev(0, 0, 0, 128, true)], 5, 0, &palette(16), 0);
    assert_eq!(r.err(), Some(LoadError::InvalidEvent));
    let r = CakeMIDIFile::load_from_events(b"", &vec![ev(0, 0, 16, 1, true)], 5, 0, &palette(32), 0);
    assert_eq!(r.err(), Some(LoadError::InvalidEvent));
}

#[test]
fn a_track_without_colors_is_refused() {
    let r = CakeMIDIFile::load_from_events(b"", &vec![ev(0, 1, 0, 60, true)], 5, 0, &palette(16), 0);
    assert_eq!(r.err(), Some(LoadError::ColorPaletteTooSmall));
}

#[test]
fn empty_file_has_empty_blocks() {
    let f = load(&[], 0);
    assert_eq!(f.key_blocks().len(), 128);
    assert_eq!(f.stats().total_notes, Some(0));
    assert_eq!(f.stats().passed_notes, Some(0));
}

#[test]
fn file_signature_is_fnv1a_of_the_bytes() {
    assert_eq!(
        MIDIFileUniqueSignature::of_bytes(b""),
        MIDIFileUniqueSignature { byte_len: 0, digest: 0xcbf29ce484222325 }
    );
    assert_eq!(
        MIDIFileUniqueSignature::of_bytes(b"a"),
        MIDIFileUniqueSignature { byte_len: 1, digest: 0xaf63dc4c8601ec8c }
    );
}

#[test]
fn cake_signatures_compare_all_fields() {
    let s = MIDIFileUniqueSignature { byte_len: 1, digest: 2 };
    let a = CakeSignature { file_signature: s, note_count: 3, buffer_sizes: vec![1, 2] };
    let b = CakeSignature { file_signature: s, note_count: 3, buffer_sizes: vec![1, 2] };
    let c = CakeSignature { file_signature: s, note_count: 3, buffer_sizes: vec![1, 3] };
    let d = CakeSignature { file_signature: s, note_count: 4, buffer_sizes: vec![1, 2] };
    assert!(a == b);
    assert!(a != c);
    assert!(a != d);
}

#[test]
fn binary_search_counts_elements_at_most_t() {
    let v = vec![1, 3, 3, 5, 9];
    assert_eq!(count_le_sorted(&v, 0), 0);
    assert_eq!(count_le_sorted(&v, 3), 3);
    assert_eq!(count_le_sorted(&v, 4), 3);
    assert_eq!(count_le_sorted(&v, 9), 5);
    assert_eq!(count_le_sorted(&vec![], 9), 0);
}

#[test]
fn time_keeper_seeks_and_saturates() {
    let mut t = TimeKeeper::new(10);
    assert_eq!(t.get_time(), -10);
    t.advance(25);
    assert_eq!(t.get_time(), 15);
    t.seek(-3);
    assert_eq!(t.get_time(), -3);
}

#[test]
fn in_ram_block_tracks_lengths() {
    let mut b = InRamNoteBlock::new_from_trackchans(100, &vec![4, 9]);
    assert_eq!(b.start, 100);
    assert_eq!(b.max_length, 0);
    assert_eq!(b.notes[1].track_chan, 9);
    b.set_note_end_time(1, 130);
    assert_eq!(b.notes[1].len, 30);
    assert_eq!(b.max_length, 30);
    b.set_note_end_time(0, 110);
    assert_eq!(b.notes[0].len, 10);
    assert_eq!(b.max_length, 30);
    assert_eq!(b.notes[0].track_chan, 4);
    let _ = BasicMIDINote { len: 0, track_chan: 0 };
}

#[test]
fn a_note_moved_to_another_key_changes_the_fingerprint_with_equal_bytes() {
    let events = vec![ev(0, 0, 0, 60, true), ev(10, 0, 0, 60, false)];
    let moved = vec![ev(0, 0, 0, 61, true), ev(10, 0, 0, 61, false)];
    let a = CakeMIDIFile::load_from_events(b"same", &events, 10, 0, &palette(16), 0).unwrap();
    let b = CakeMIDIFile::load_from_events(b"same", &moved, 10, 0, &palette(16), 0).unwrap();
    assert!(a.cake_signature() != b.cake_signature());
    assert_eq!(a.cake_signature().buffer_sizes[60], 1);
    assert_eq!(b.cake_signature().buffer_sizes[60], 0);
}

#[test]
fn a_note_moved_in_time_changes_the_fingerprint_through_the_digest() {
    let a = CakeMIDIFile::load_from_events(b"\x00\x10", &vec![ev(0, 0, 0, 60, true)], 20, 0, &palette(16), 0)
        .unwrap();
    let b = CakeMIDIFile::load_from_events(b"\x00\x11", &vec![ev(5, 0, 0, 60, true)], 20, 0, &palette(16), 0)
        .unwrap();
    assert!(a.cake_signature() != b.cake_signature());
}

#[test]
fn seeking_keeps_everything_but_the_clock() {
    let events = vec![ev(0, 0, 0, 60, true), ev(10000, 0, 0, 60, false)];
    let mut f = CakeMIDIFile::load_from_events(b"abc", &events, 10000, 1_000_000, &palette(16), 0).unwrap();
    let sig = f.cake_signature();
    let total = f.stats().total_notes;
    f.seek(-7);
    f.seek(3_000_000);
    assert_eq!(f.current_time(), 3_000_000);
    assert_eq!(f.midi_length(), Some(1_000_000));
    assert_eq!(f.stats().total_notes, total);
    assert!(f.cake_signature() == sig);
    assert_eq!(f.key_blocks()[60].start_time(), 0);
    assert_eq!(f.key_blocks()[60].end_time(), 10000);
}

#[test]
fn palette_must_cover_every_track() {
    assert_eq!(check_palette(2, 32), Ok(()));
    assert_eq!(check_palette(2, 31), Err(LoadError::ColorPaletteTooSmall));
    assert_eq!(check_palette(0, 0), Ok(()));
}
