use prelude_player::event::{
    all_notes_off_messages, encode_aftertouch, encode_cc, encode_channel_pressure, encode_event,
    encode_note_off, encode_note_on, encode_pitch_bend, encode_program_change, midi_message_to_event,
    MidiEvent,
};
use prelude_player::smf::RawMessage;

#[test]
fn note_on_bytes() {
    assert_eq!(encode_note_on(1, 60, 100), vec![0x91, 60, 100]);
}

#[test]
fn note_off_bytes() {
    assert_eq!(encode_note_off(15, 0x7F, 0), vec![0x8F, 0x7F, 0]);
}

#[test]
fn control_change_bytes() {
    assert_eq!(encode_cc(3, 7, 127), vec![0xB3, 7, 127]);
}

#[test]
fn program_change_bytes() {
    assert_eq!(encode_program_change(2, 5), vec![0xC2, 5]);
}

#[test]
fn pitch_bend_centre_bytes() {
    assert_eq!(encode_pitch_bend(0, 0x2000), vec![0xE0, 0x00, 0x40]);
}

#[test]
fn pitch_bend_extremes_bytes() {
    assert_eq!(encode_pitch_bend(9, 0x3FFF), vec![0xE9, 0x7F, 0x7F]);
    assert_eq!(encode_pitch_bend(9, 0), vec![0xE9, 0x00, 0x00]);
    assert_eq!(encode_pitch_bend(0, 0x1234), vec![0xE0, 0x34, 0x24]);
}

#[test]
fn aftertouch_bytes() {
    assert_eq!(encode_aftertouch(4, 64, 33), vec![0xA4, 64, 33]);
}

#[test]
fn channel_pressure_bytes() {
    assert_eq!(encode_channel_pressure(6, 90), vec![0xD6, 90]);
}

#[test]
fn encode_event_dispatches_by_kind() {
    assert_eq!(encode_event(&MidiEvent::NoteOn { channel: 2, key: 61, velocity: 80 }), vec![0x92, 61, 80]);
    assert_eq!(encode_event(&MidiEvent::NoteOff { channel: 2, key: 61, velocity: 0 }), vec![0x82, 61, 0]);
    assert_eq!(encode_event(&MidiEvent::ControlChange { channel: 0, control: 64, value: 127 }), vec![0xB0, 64, 127]);
    assert_eq!(encode_event(&MidiEvent::ProgramChange { channel: 10, program: 1 }), vec![0xCA, 1]);
    assert_eq!(encode_event(&MidiEvent::PitchBend { channel: 1, value: 0x2000 }), vec![0xE1, 0x00, 0x40]);
    assert_eq!(encode_event(&MidiEvent::Aftertouch { channel: 1, key: 2, pressure: 3 }), vec![0xA1, 2, 3]);
    assert_eq!(encode_event(&MidiEvent::ChannelPressure { channel: 1, pressure: 9 }), vec![0xD1, 9]);
}

#[test]
fn encode_sysex_is_passed_through() {
    let dump = vec![0xF0, 0x43, 0x10, 0x4C, 0xF7];
    assert_eq!(encode_event(&MidiEvent::Sysex(dump.clone())), dump);
}

#[test]
fn all_notes_off_covers_every_channel() {
    let msgs = all_notes_off_messages();
    assert_eq!(msgs.len(), 32);
    assert_eq!(msgs[0], vec![0xB0, 123, 0]);
    assert_eq!(msgs[1], vec![0xB0, 120, 0]);
    assert_eq!(msgs[10], vec![0xB5, 123, 0]);
    assert_eq!(msgs[31], vec![0xBF, 120, 0]);
}

#[test]
fn note_on_with_zero_velocity_is_note_off() {
    let ev = midi_message_to_event(3, &RawMessage::NoteOn(60, 0));
    assert_eq!(ev, MidiEvent::NoteOff { channel: 3, key: 60, velocity: 0 });
    let ev = midi_message_to_event(3, &RawMessage::NoteOn(60, 1));
    assert_eq!(ev, MidiEvent::NoteOn { channel: 3, key: 60, velocity: 1 });
}

#[test]
fn messages_map_to_events() {
    assert_eq!(
        midi_message_to_event(1, &RawMessage::NoteOff(62, 40)),
        MidiEvent::NoteOff { channel: 1, key: 62, velocity: 40 }
    );
    assert_eq!(
        midi_message_to_event(1, &RawMessage::Controller(7, 100)),
        MidiEvent::ControlChange { channel: 1, control: 7, value: 100 }
    );
    assert_eq!(
        midi_message_to_event(1, &RawMessage::ProgramChange(42)),
        MidiEvent::ProgramChange { channel: 1, program: 42 }
    );
    assert_eq!(
        midi_message_to_event(1, &RawMessage::Aftertouch(60, 12)),
        MidiEvent::Aftertouch { channel: 1, key: 60, pressure: 12 }
    );
    assert_eq!(
        midi_message_to_event(1, &RawMessage::ChannelAftertouch(77)),
        MidiEvent::ChannelPressure { channel: 1, pressure: 77 }
    );
}

#[test]
fn pitch_bend_is_recentred() {
    assert_eq!(
        midi_message_to_event(0, &RawMessage::PitchBend(-0x2000)),
        MidiEvent::PitchBend { channel: 0, value: 0 }
    );
    assert_eq!(
        midi_message_to_event(0, &RawMessage::PitchBend(0)),
        MidiEvent::PitchBend { channel: 0, value: 0x2000 }
    );
    assert_eq!(
        midi_message_to_event(0, &RawMessage::PitchBend(0x1FFF)),
        MidiEvent::PitchBend { channel: 0, value: 0x3FFF }
    );
}

#[test]
fn status_byte_law_on_concrete_event() {
    let bytes = encode_event(&MidiEvent::ControlChange { channel: 13, control: 1, value: 2 });
    assert_eq!(bytes[0] >> 4, 0xB);
    assert_eq!(bytes[0] & 0x0F, 13);
    let pb = encode_pitch_bend(0, 0x2ABC);
    assert_eq!(((pb[2] as u16) << 7) | pb[1] as u16, 0x2ABC);
}

#[test]
fn file_messages_go_out_as_their_wire_bytes() {
    assert_eq!(encode_event(&midi_message_to_event(5, &RawMessage::NoteOn(60, 100))), vec![0x95, 60, 100]);
    assert_eq!(encode_event(&midi_message_to_event(5, &RawMessage::NoteOn(60, 0))), vec![0x85, 60, 0]);
    assert_eq!(encode_event(&midi_message_to_event(15, &RawMessage::NoteOff(1, 2))), vec![0x8F, 1, 2]);
    assert_eq!(encode_event(&midi_message_to_event(2, &RawMessage::Controller(7, 127))), vec![0xB2, 7, 127]);
    assert_eq!(encode_event(&midi_message_to_event(2, &RawMessage::ProgramChange(9))), vec![0xC2, 9]);
    assert_eq!(encode_event(&midi_message_to_event(2, &RawMessage::Aftertouch(3, 4))), vec![0xA2, 3, 4]);
    assert_eq!(encode_event(&midi_message_to_event(2, &RawMessage::ChannelAftertouch(5))), vec![0xD2, 5]);
    assert_eq!(encode_event(&midi_message_to_event(0, &RawMessage::PitchBend(-0x2000))), vec![0xE0, 0, 0]);
    assert_eq!(encode_event(&midi_message_to_event(0, &RawMessage::PitchBend(1))), vec![0xE0, 0x01, 0x40]);
    assert_eq!(encode_event(&midi_message_to_event(0, &RawMessage::PitchBend(0x1FFF))), vec![0xE0, 0x7F, 0x7F]);
}
