use prelude_player::event::MidiEvent;
use prelude_player::flatten::{flatten, LoadError};
use prelude_player::smf::{RawEvent, RawKind, RawMessage, RawSmf};

fn midi(delta: u32, channel: u8, message: RawMessage) -> RawEvent {
    RawEvent { delta, kind: RawKind::Midi { channel, message } }
}

fn meta(delta: u32, kind: RawKind) -> RawEvent {
    RawEvent { delta, kind }
}

#[test]
fn single_track_note() {
    let smf = RawSmf {
        timing: Some(480),
        tracks: vec![vec![
            midi(0, 0, RawMessage::NoteOn(60, 100)),
            midi(480, 0, RawMessage::NoteOff(60, 64)),
            meta(0, RawKind::Other),
        ]],
    };
    let p = flatten(&smf).unwrap();
    assert_eq!(
        p.events,
        vec![
            (0, MidiEvent::NoteOn { channel: 0, key: 60, velocity: 100 }),
            (500_000_000, MidiEvent::NoteOff { channel: 0, key: 60, velocity: 64 }),
        ]
    );
    assert_eq!(p.total_length, 500_000_000);
    assert_eq!(p.timing.tpq, 480);
    assert_eq!(p.timing.tempos, vec![(0, 500_000)]);
    assert!(p.timing.meters.is_empty());
}

#[test]
fn timecode_files_are_refused() {
    let smf = RawSmf { timing: None, tracks: vec![] };
    assert_eq!(flatten(&smf).unwrap_err(), LoadError::Timecode);
}

#[test]
fn zero_ticks_per_quarter_is_refused() {
    let smf = RawSmf { timing: Some(0), tracks: vec![vec![midi(0, 0, RawMessage::NoteOn(1, 1))]] };
    assert_eq!(flatten(&smf).unwrap_err(), LoadError::ZeroTicksPerQuarter);
}

#[test]
fn tracks_merge_in_time_order_keeping_track_order_on_ties() {
    let smf = RawSmf {
        timing: Some(96),
        tracks: vec![
            vec![midi(96, 0, RawMessage::ProgramChange(1)), midi(96, 0, RawMessage::ProgramChange(3))],
            vec![midi(96, 1, RawMessage::ProgramChange(2)), midi(48, 1, RawMessage::ProgramChange(4))],
        ],
    };
    let p = flatten(&smf).unwrap();
    assert_eq!(
        p.events,
        vec![
            (500_000_000, MidiEvent::ProgramChange { channel: 0, program: 1 }),
            (500_000_000, MidiEvent::ProgramChange { channel: 1, program: 2 }),
            (750_000_000, MidiEvent::ProgramChange { channel: 1, program: 4 }),
            (1_000_000_000, MidiEvent::ProgramChange { channel: 0, program: 3 }),
        ]
    );
    assert_eq!(p.total_length, 1_000_000_000);
}

#[test]
fn tempo_in_one_track_times_every_track() {
    let smf = RawSmf {
        timing: Some(480),
        tracks: vec![
            vec![meta(480, RawKind::Tempo(1_000_000)), meta(0, RawKind::TimeSignature(3, 2))],
            vec![midi(960, 2, RawMessage::Controller(7, 90))],
        ],
    };
    let p = flatten(&smf).unwrap();
    assert_eq!(p.events, vec![(1_500_000_000, MidiEvent::ControlChange { channel: 2, control: 7, value: 90 })]);
    assert_eq!(p.timing.tempos, vec![(0, 500_000), (480, 1_000_000)]);
    assert_eq!(p.timing.meters, vec![(480, 3, 2)]);
}

#[test]
fn tempo_changes_and_meters_are_sorted_by_tick() {
    let smf = RawSmf {
        timing: Some(480),
        tracks: vec![
            vec![meta(960, RawKind::Tempo(400_000)), meta(0, RawKind::TimeSignature(5, 2))],
            vec![meta(0, RawKind::Tempo(600_000)), meta(480, RawKind::TimeSignature(2, 1))],
        ],
    };
    let p = flatten(&smf).unwrap();
    assert_eq!(p.timing.tempos, vec![(0, 500_000), (0, 600_000), (960, 400_000)]);
    assert_eq!(p.timing.meters, vec![(480, 2, 1), (960, 5, 2)]);
    assert!(p.events.is_empty());
    assert_eq!(p.total_length, 0);
}

#[test]
fn sysex_dumps_are_framed() {
    let smf = RawSmf {
        timing: Some(480),
        tracks: vec![vec![
            meta(0, RawKind::SysEx(vec![0x43, 0x12])),
            meta(0, RawKind::SysEx(vec![0x41, 0xF7])),
            meta(0, RawKind::SysEx(vec![])),
        ]],
    };
    let p = flatten(&smf).unwrap();
    assert_eq!(
        p.events,
        vec![
            (0, MidiEvent::Sysex(vec![0xF0, 0x43, 0x12, 0xF7])),
            (0, MidiEvent::Sysex(vec![0xF0, 0x41, 0xF7])),
            (0, MidiEvent::Sysex(vec![0xF0, 0xF7])),
        ]
    );
}

#[test]
fn note_on_of_velocity_zero_becomes_note_off() {
    let smf = RawSmf { timing: Some(480), tracks: vec![vec![midi(0, 5, RawMessage::NoteOn(70, 0))]] };
    let p = flatten(&smf).unwrap();
    assert_eq!(p.events, vec![(0, MidiEvent::NoteOff { channel: 5, key: 70, velocity: 0 })]);
}

#[test]
fn load_error_variants_are_distinct() {
    assert_ne!(LoadError::Timecode, LoadError::ZeroTicksPerQuarter);
    assert_ne!(LoadError::TickOverflow, LoadError::TempoStall);
    assert_eq!(LoadError::Parse("x".to_string()), LoadError::Parse("x".to_string()));
}

#[test]
fn load_error_messages() {
    assert_eq!(LoadError::Parse("invalid midi: not a midi file".to_string()).message(), "Failed to parse MIDI file: invalid midi: not a midi file");
    assert_eq!(LoadError::Timecode.message(), "SMPTE timecode MIDI files are not supported");
    assert_eq!(LoadError::ZeroTicksPerQuarter.message(), "invalid MIDI timing: ticks per quarter note is 0");
    assert_eq!(LoadError::TickOverflow.message(), "invalid MIDI timing: track ticks exceed the supported range");
    assert_eq!(LoadError::TempoStall.message(), "invalid MIDI tempo: 0 microseconds per quarter note");
}
