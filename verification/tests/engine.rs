use prelude_player::engine::{MidiEngine, State};
use prelude_player::event::MidiEvent;
use prelude_player::flatten::LoadError;
use prelude_player::measures::Measure;
use prelude_player::notes::NoteData;
use prelude_player::smf::{parse_midi_file, RawEvent, RawKind, RawMessage};

fn smf_bytes(division: [u8; 2], tracks: &[Vec<u8>]) -> Vec<u8> {
    let mut out = b"MThd".to_vec();
    out.extend_from_slice(&[0, 0, 0, 6, 0, 1]);
    out.extend_from_slice(&(tracks.len() as u16).to_be_bytes());
    out.extend_from_slice(&division);
    for t in tracks {
        out.extend_from_slice(b"MTrk");
        out.extend_from_slice(&(t.len() as u32).to_be_bytes());
        out.extend_from_slice(t);
    }
    out
}

/// One note: key 60 on at tick 0, off at tick 480 (delta 0x83 0x60).
fn one_note_track() -> Vec<u8> {
    vec![0x00, 0x90, 0x3C, 0x64, 0x83, 0x60, 0x80, 0x3C, 0x40, 0x00, 0xFF, 0x2F, 0x00]
}

fn one_note_song() -> Vec<u8> {
    smf_bytes([0x01, 0xE0], &[one_note_track()])
}

fn loaded_engine() -> MidiEngine {
    let mut eng = MidiEngine::new();
    eng.load(&one_note_song(), "song.mid".to_string()).unwrap();
    eng
}

#[test]
fn new_engine_is_empty_and_stopped() {
    let eng = MidiEngine::new();
    assert_eq!(eng.state(), State::Stopped);
    assert_eq!(eng.elapsed(), 0);
    assert_eq!(eng.total_length(), 0);
    assert_eq!(eng.file_name(), "");
    assert!(eng.measures().is_empty());
    assert!(eng.notes().is_empty());
}

#[test]
fn parse_copies_the_file() {
    let raw = parse_midi_file(&one_note_song()).unwrap();
    assert_eq!(raw.timing, Some(480));
    assert_eq!(raw.tracks.len(), 1);
    assert_eq!(
        raw.tracks[0],
        vec![
            RawEvent { delta: 0, kind: RawKind::Midi { channel: 0, message: RawMessage::NoteOn(60, 100) } },
            RawEvent { delta: 480, kind: RawKind::Midi { channel: 0, message: RawMessage::NoteOff(60, 64) } },
            RawEvent { delta: 0, kind: RawKind::Other },
        ]
    );
}

#[test]
fn parse_reads_meta_and_sysex_events() {
    let track = vec![
        0x00, 0xFF, 0x51, 0x03, 0x07, 0xA1, 0x20, // tempo 500000
        0x00, 0xFF, 0x58, 0x04, 0x03, 0x02, 0x18, 0x08, // 3/4
        0x00, 0xF0, 0x03, 0x43, 0x12, 0xF7, // sysex
        0x00, 0xE1, 0x00, 0x40, // pitch bend centre on channel 1
        0x00, 0xFF, 0x2F, 0x00,
    ];
    let raw = parse_midi_file(&smf_bytes([0x00, 0x60], &[track])).unwrap();
    assert_eq!(raw.timing, Some(96));
    let kinds: Vec<RawKind> = raw.tracks[0].iter().map(|e| e.kind.clone()).collect();
    assert_eq!(
        kinds,
        vec![
            RawKind::Tempo(500_000),
            RawKind::TimeSignature(3, 2),
            RawKind::SysEx(vec![0x43, 0x12, 0xF7]),
            RawKind::Midi { channel: 1, message: RawMessage::PitchBend(0) },
            RawKind::Other,
        ]
    );
}

#[test]
fn load_builds_the_song() {
    let mut eng = MidiEngine::new();
    let name = eng.load(&one_note_song(), "song.mid".to_string()).unwrap();
    assert_eq!(name, "song.mid");
    assert_eq!(eng.file_name(), "song.mid");
    assert_eq!(eng.total_length(), 500_000_000);
    assert_eq!(eng.state(), State::Stopped);
    assert_eq!(
        eng.measures(),
        &[
            Measure { start: 0, end: 2_000_000_000, quarter: 500_000_000 },
            Measure { start: 2_000_000_000, end: 4_000_000_000, quarter: 500_000_000 },
            Measure { start: 4_000_000_000, end: 6_000_000_000, quarter: 500_000_000 },
        ]
    );
    assert_eq!(eng.notes(), &[NoteData { time: 0, duration: 500_000_000, midi: 60, channel: 0 }]);
}

#[test]
fn unparsable_bytes_leave_the_engine_alone() {
    let mut eng = loaded_engine();
    eng.play_at(0);
    let err = eng.load(b"not a midi file", "x.mid".to_string()).unwrap_err();
    assert!(matches!(err, LoadError::Parse(_)));
    assert_eq!(eng.state(), State::Playing);
    assert_eq!(eng.file_name(), "song.mid");
    assert_eq!(eng.total_length(), 500_000_000);
}

#[test]
fn timecode_file_is_refused() {
    let mut eng = MidiEngine::new();
    let err = eng.load(&smf_bytes([0xE7, 0x28], &[one_note_track()]), "t.mid".to_string()).unwrap_err();
    assert_eq!(err, LoadError::Timecode);
}

#[test]
fn zero_division_is_refused() {
    let mut eng = MidiEngine::new();
    let err = eng.load(&smf_bytes([0x00, 0x00], &[one_note_track()]), "z.mid".to_string()).unwrap_err();
    assert_eq!(err, LoadError::ZeroTicksPerQuarter);
}

#[test]
fn final_zero_tempo_is_refused() {
    let track = vec![0x00, 0xFF, 0x51, 0x03, 0x00, 0x00, 0x00, 0x00, 0x90, 0x3C, 0x64, 0x00, 0xFF, 0x2F, 0x00];
    let mut eng = MidiEngine::new();
    let err = eng.load(&smf_bytes([0x01, 0xE0], &[track]), "s.mid".to_string()).unwrap_err();
    assert_eq!(err, LoadError::TempoStall);
    assert_eq!(eng.total_length(), 0);
}

#[test]
fn zero_tempo_far_after_the_end_is_accepted() {
    // Tempo 0 only from tick 48000 (50 s), well past the song's end + 5 s.
    let track = vec![
        0x00, 0x90, 0x3C, 0x64, // note on at 0
        0x82, 0xF7, 0x00, 0xFF, 0x51, 0x03, 0x00, 0x00, 0x00, // delta 48000: tempo 0
        0x00, 0xFF, 0x2F, 0x00,
    ];
    let mut eng = MidiEngine::new();
    assert!(eng.load(&smf_bytes([0x01, 0xE0], &[track]), "late.mid".to_string()).is_ok());
    assert_eq!(eng.total_length(), 0);
    assert_eq!(eng.measures().len(), 3);
}

#[test]
fn playback_hands_out_events_in_time() {
    let mut eng = loaded_engine();
    eng.play_at(1_000);
    assert_eq!(eng.state(), State::Playing);
    assert_eq!(eng.tick_at(1_000), vec![MidiEvent::NoteOn { channel: 0, key: 60, velocity: 100 }]);
    assert_eq!(eng.elapsed(), 0);
    assert_eq!(eng.tick_at(1_000 + 499_999_999), Vec::<MidiEvent>::new());
    assert_eq!(eng.elapsed(), 499_999_999);
    assert_eq!(eng.tick_at(1_000 + 500_000_000), vec![MidiEvent::NoteOff { channel: 0, key: 60, velocity: 64 }]);
    assert_eq!(eng.state(), State::Stopped);
    assert_eq!(eng.elapsed(), 500_000_000);
    assert_eq!(eng.tick_at(9_000_000_000), Vec::<MidiEvent>::new());
}

#[test]
fn a_late_tick_hands_out_everything_due() {
    let mut eng = loaded_engine();
    eng.play_at(0);
    assert_eq!(
        eng.tick_at(2_000_000_000),
        vec![
            MidiEvent::NoteOn { channel: 0, key: 60, velocity: 100 },
            MidiEvent::NoteOff { channel: 0, key: 60, velocity: 64 },
        ]
    );
    assert_eq!(eng.state(), State::Stopped);
}

#[test]
fn play_at_the_end_rewinds() {
    let mut eng = loaded_engine();
    eng.play_at(0);
    eng.tick_at(600_000_000);
    assert_eq!(eng.state(), State::Stopped);
    assert_eq!(eng.elapsed(), 500_000_000);
    eng.play_at(7_000);
    assert_eq!(eng.state(), State::Playing);
    assert_eq!(eng.elapsed(), 0);
    assert_eq!(eng.tick_at(7_000), vec![MidiEvent::NoteOn { channel: 0, key: 60, velocity: 100 }]);
}

#[test]
fn pause_freezes_and_resume_continues() {
    let mut eng = loaded_engine();
    eng.play_at(0);
    assert!(eng.pause_at(250_000_000));
    assert_eq!(eng.state(), State::Paused);
    assert_eq!(eng.elapsed(), 250_000_000);
    assert_eq!(eng.tick_at(900_000_000), Vec::<MidiEvent>::new());
    assert!(!eng.pause_at(900_000_000));
    eng.play_at(1_000_000_000);
    assert_eq!(eng.tick_at(1_000_000_000 + 249_999_999), Vec::<MidiEvent>::new());
    assert_eq!(eng.tick_at(1_000_000_000 + 250_000_000), vec![MidiEvent::NoteOff { channel: 0, key: 60, velocity: 64 }]);
}

#[test]
fn pause_position_is_clamped_to_the_song() {
    let mut eng = loaded_engine();
    eng.play_at(0);
    assert!(eng.pause_at(9_000_000_000));
    assert_eq!(eng.elapsed(), 500_000_000);
}

#[test]
fn toggle_switches_between_playing_and_paused() {
    let mut eng = loaded_engine();
    assert!(!eng.toggle_play_pause_at(0));
    assert_eq!(eng.state(), State::Playing);
    assert!(eng.toggle_play_pause_at(100));
    assert_eq!(eng.state(), State::Paused);
    assert_eq!(eng.elapsed(), 100);
    assert!(!eng.toggle_play_pause_at(200));
    assert_eq!(eng.state(), State::Playing);
}

#[test]
fn play_without_a_song_does_nothing() {
    let mut eng = MidiEngine::new();
    eng.play_at(5);
    assert_eq!(eng.state(), State::Stopped);
    assert_eq!(eng.tick_at(10), Vec::<MidiEvent>::new());
}

#[test]
fn stop_rewinds() {
    let mut eng = loaded_engine();
    eng.play_at(0);
    eng.tick_at(300_000_000);
    eng.stop();
    assert_eq!(eng.state(), State::Stopped);
    assert_eq!(eng.elapsed(), 0);
    eng.play_at(0);
    assert_eq!(eng.tick_at(0), vec![MidiEvent::NoteOn { channel: 0, key: 60, velocity: 100 }]);
}

#[test]
fn seek_while_playing_replays_from_the_position() {
    let mut eng = loaded_engine();
    eng.play_at(0);
    eng.tick_at(100);
    eng.seek_at(0, 5_000);
    assert_eq!(eng.elapsed(), 0);
    assert_eq!(eng.tick_at(5_000), vec![MidiEvent::NoteOn { channel: 0, key: 60, velocity: 100 }]);
}

#[test]
fn seek_is_clamped_and_skips_earlier_events() {
    let mut eng = loaded_engine();
    eng.play_at(0);
    eng.seek_at(9_000_000_000, 10);
    assert_eq!(eng.elapsed(), 500_000_000);
    assert_eq!(eng.tick_at(10), vec![MidiEvent::NoteOff { channel: 0, key: 60, velocity: 64 }]);
}

#[test]
fn seek_while_stopped_stays_stopped() {
    let mut eng = loaded_engine();
    eng.seek_at(250_000_000, 99);
    assert_eq!(eng.state(), State::Stopped);
    assert_eq!(eng.elapsed(), 250_000_000);
    eng.play_at(1_000);
    assert_eq!(eng.tick_at(1_000 + 250_000_000), vec![MidiEvent::NoteOff { channel: 0, key: 60, velocity: 64 }]);
}

#[test]
fn clock_driven_calls_keep_the_engine_consistent() {
    let mut eng = loaded_engine();
    eng.play();
    assert_eq!(eng.state(), State::Playing);
    let first = eng.tick();
    assert!(first.len() <= 2);
    eng.seek(0);
    assert!(eng.pause());
    assert_eq!(eng.state(), State::Paused);
    assert!(!eng.toggle_play_pause());
    assert_eq!(eng.state(), State::Playing);
}

#[test]
fn density_counts_notes_per_bin() {
    let eng = loaded_engine();
    assert_eq!(eng.note_density_counts(4), vec![1, 1, 1, 1]);
    assert_eq!(eng.note_density_counts(0), Vec::<u64>::new());
    assert_eq!(MidiEngine::new().note_density_counts(3), vec![0, 0, 0]);
}

#[test]
fn density_with_overlapping_notes() {
    // Two notes: key 60 over ticks 0..480, key 62 over ticks 240..480; song ends at tick 480.
    let track = vec![
        0x00, 0x90, 0x3C, 0x64, //
        0x81, 0x70, 0x90, 0x3E, 0x64, // delta 240
        0x81, 0x70, 0x80, 0x3C, 0x00, // delta 240
        0x00, 0x80, 0x3E, 0x00, //
        0x00, 0xFF, 0x2F, 0x00,
    ];
    let mut eng = MidiEngine::new();
    eng.load(&smf_bytes([0x01, 0xE0], &[track]), "two.mid".to_string()).unwrap();
    assert_eq!(eng.note_density_counts(4), vec![1, 1, 2, 2]);
    assert_eq!(eng.note_density_counts(3), vec![1, 2, 2]);
}

#[test]
fn consecutive_ticks_hand_out_each_event_once() {
    // Three notes on keys 60, 62, 64 at ticks 0, 240, 480, each released 120 ticks later.
    let track = vec![
        0x00, 0x90, 0x3C, 0x64, 0x78, 0x80, 0x3C, 0x00, //
        0x78, 0x90, 0x3E, 0x64, 0x78, 0x80, 0x3E, 0x00, //
        0x78, 0x90, 0x40, 0x64, 0x78, 0x80, 0x40, 0x00, //
        0x00, 0xFF, 0x2F, 0x00,
    ];
    let mut eng = MidiEngine::new();
    eng.load(&smf_bytes([0x01, 0xE0], &[track]), "three.mid".to_string()).unwrap();
    eng.play_at(0);
    let mut all = Vec::new();
    for step in 0..40u128 {
        all.extend(eng.tick_at(step * 20_000_000));
    }
    let keys: Vec<(bool, u8)> = all
        .iter()
        .map(|e| match e {
            MidiEvent::NoteOn { key, .. } => (true, *key),
            MidiEvent::NoteOff { key, .. } => (false, *key),
            _ => (false, 0),
        })
        .collect();
    assert_eq!(keys, vec![(true, 60), (false, 60), (true, 62), (false, 62), (true, 64), (false, 64)]);
    assert_eq!(eng.state(), State::Stopped);
    assert_eq!(eng.elapsed(), 625_000_000);
}

#[test]
fn load_error_text_for_the_user() {
    let mut eng = MidiEngine::new();
    let err = eng.load(&smf_bytes([0xE7, 0x28], &[one_note_track()]), "t.mid".to_string()).unwrap_err();
    assert_eq!(err.message(), "SMPTE timecode MIDI files are not supported");
    let err = eng.load(b"junk", "j.mid".to_string()).unwrap_err();
    assert!(err.message().starts_with("Failed to parse MIDI file: "));
}

#[test]
fn playing_through_hands_out_every_event_once_and_on_time() {
    // Keys 60, 62, 64 on at 0, 250 ms, 500 ms, each released 125 ms later.
    let track = vec![
        0x00, 0x90, 0x3C, 0x64, 0x78, 0x80, 0x3C, 0x00, //
        0x78, 0x90, 0x3E, 0x64, 0x78, 0x80, 0x3E, 0x00, //
        0x78, 0x90, 0x40, 0x64, 0x78, 0x80, 0x40, 0x00, //
        0x00, 0xFF, 0x2F, 0x00,
    ];
    let times: Vec<u128> = vec![0, 125_000_000, 250_000_000, 375_000_000, 500_000_000, 625_000_000];
    let mut eng = MidiEngine::new();
    eng.load(&smf_bytes([0x01, 0xE0], &[track]), "three.mid".to_string()).unwrap();
    let start = 7_000;
    eng.play_at(start);
    let mut all = Vec::new();
    let mut now = start;
    while eng.state() != State::Stopped {
        let due = eng.tick_at(now);
        for _ in &due {
            assert!(times[all.len()] <= now - start);
            all.push(());
        }
        now += 37_000_000;
    }
    assert_eq!(all.len(), times.len());
    assert_eq!(eng.elapsed(), 625_000_000);
    assert_eq!(eng.tick_at(now), Vec::<MidiEvent>::new());
}

#[test]
fn density_takes_any_number_of_bins() {
    let eng = loaded_engine();
    let counts = eng.note_density_counts(2_000_000);
    assert_eq!(counts.len(), 2_000_000);
    assert!(counts.iter().all(|&c| c == 1));
}

#[test]
fn file_messages_are_in_range() {
    let raw = parse_midi_file(&one_note_song()).unwrap();
    for e in &raw.tracks[0] {
        if let RawKind::Midi { channel, message } = &e.kind {
            assert!(*channel < 16);
            match message {
                RawMessage::NoteOn(k, v) | RawMessage::NoteOff(k, v) => assert!(*k < 0x80 && *v < 0x80),
                _ => {},
            }
        }
    }
}
