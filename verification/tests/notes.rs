use prelude_player::event::MidiEvent;
use prelude_player::notes::{note_intervals, NoteData};

fn on(t: u128, ch: u8, key: u8, vel: u8) -> (u128, MidiEvent) {
    (t, MidiEvent::NoteOn { channel: ch, key, velocity: vel })
}

fn off(t: u128, ch: u8, key: u8) -> (u128, MidiEvent) {
    (t, MidiEvent::NoteOff { channel: ch, key, velocity: 0 })
}

#[test]
fn note_on_and_off_pair_into_one_note() {
    let notes = note_intervals(&vec![on(10, 0, 60, 90), off(30, 0, 60)], 30);
    assert_eq!(notes, vec![NoteData { time: 10, duration: 20, midi: 60, channel: 0 }]);
}

#[test]
fn same_key_pairs_last_in_first_out() {
    let evs = vec![on(0, 0, 60, 90), on(5, 0, 60, 90), off(10, 0, 60), off(20, 0, 60)];
    let notes = note_intervals(&evs, 20);
    assert_eq!(
        notes,
        vec![
            NoteData { time: 0, duration: 20, midi: 60, channel: 0 },
            NoteData { time: 5, duration: 5, midi: 60, channel: 0 },
        ]
    );
}

#[test]
fn repeated_key_in_seconds_closes_the_latest_note_first() {
    let s = 1_000_000_000;
    let evs = vec![on(0, 0, 60, 100), on(s, 0, 60, 100), off(2 * s, 0, 60), off(3 * s, 0, 60)];
    let notes = note_intervals(&evs, 3 * s);
    assert_eq!(
        notes,
        vec![
            NoteData { time: 0, duration: 3 * s, midi: 60, channel: 0 },
            NoteData { time: s, duration: s, midi: 60, channel: 0 },
        ]
    );
}

#[test]
fn dangling_notes_extend_to_the_end() {
    let evs = vec![on(0, 1, 40, 90), on(50, 2, 41, 90), (70, MidiEvent::ProgramChange { channel: 0, program: 3 })];
    let notes = note_intervals(&evs, 100);
    assert_eq!(
        notes,
        vec![
            NoteData { time: 0, duration: 100, midi: 40, channel: 1 },
            NoteData { time: 50, duration: 50, midi: 41, channel: 2 },
        ]
    );
}

#[test]
fn orphan_note_off_is_ignored() {
    let notes = note_intervals(&vec![off(5, 0, 60), on(6, 0, 61, 1), off(7, 1, 61)], 10);
    assert_eq!(notes, vec![NoteData { time: 6, duration: 4, midi: 61, channel: 0 }]);
}

#[test]
fn channels_are_kept_apart() {
    let evs = vec![on(0, 0, 60, 90), on(1, 1, 60, 90), off(2, 1, 60), off(3, 0, 60)];
    let notes = note_intervals(&evs, 3);
    assert_eq!(
        notes,
        vec![
            NoteData { time: 0, duration: 3, midi: 60, channel: 0 },
            NoteData { time: 1, duration: 1, midi: 60, channel: 1 },
        ]
    );
}

#[test]
fn zero_velocity_note_on_starts_nothing() {
    let notes = note_intervals(&vec![on(0, 0, 60, 0), off(5, 0, 60)], 5);
    assert!(notes.is_empty());
}

#[test]
fn notes_are_sorted_by_start_and_counted_once() {
    // The late note ends first, so it is finished first; sorting puts it after.
    let evs = vec![on(0, 0, 50, 9), on(10, 0, 51, 9), off(11, 0, 51), off(20, 0, 50), on(30, 0, 52, 9)];
    let notes = note_intervals(&evs, 40);
    assert_eq!(notes.len(), 3);
    assert_eq!(notes[0], NoteData { time: 0, duration: 20, midi: 50, channel: 0 });
    assert_eq!(notes[1], NoteData { time: 10, duration: 1, midi: 51, channel: 0 });
    assert_eq!(notes[2], NoteData { time: 30, duration: 10, midi: 52, channel: 0 });
    for n in &notes {
        assert!(n.time + n.duration <= 40);
    }
}
