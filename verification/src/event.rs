//! MIDI events and their wire encoding.

use vstd::prelude::*;
use crate::smf::RawMessage;

verus! {

/// A MIDI event that can be sent to an output port.
#[derive(Clone, Debug, PartialEq, Eq)]
pub enum MidiEvent {
    NoteOn { channel: u8, key: u8, velocity: u8 },
    NoteOff { channel: u8, key: u8, velocity: u8 },
    ControlChange { channel: u8, control: u8, value: u8 },
    ProgramChange { channel: u8, program: u8 },
    PitchBend { channel: u8, value: u16 },
    Aftertouch { channel: u8, key: u8, pressure: u8 },
    ChannelPressure { channel: u8, pressure: u8 },
    Sysex(Vec<u8>),
}

/// The mathematical value of a [`MidiEvent`]: the same variants, with the
/// SysEx payload seen as a sequence of bytes.
pub enum EventModel {
    NoteOn { channel: u8, key: u8, velocity: u8 },
    NoteOff { channel: u8, key: u8, velocity: u8 },
    ControlChange { channel: u8, control: u8, value: u8 },
    ProgramChange { channel: u8, program: u8 },
    PitchBend { channel: u8, value: u16 },
    Aftertouch { channel: u8, key: u8, pressure: u8 },
    ChannelPressure { channel: u8, pressure: u8 },
    Sysex(Seq<u8>),
}

impl DeepView for MidiEvent {
    type V = EventModel;

    open spec fn deep_view(&self) -> EventModel {
        match self {
            MidiEvent::NoteOn { channel, key, velocity } => EventModel::NoteOn {
                channel: *channel,
                key: *key,
                velocity: *velocity,
            },
            MidiEvent::NoteOff { channel, key, velocity } => EventModel::NoteOff {
                channel: *channel,
                key: *key,
                velocity: *velocity,
            },
            MidiEvent::ControlChange { channel, control, value } => EventModel::ControlChange {
                channel: *channel,
                control: *control,
                value: *value,
            },
            MidiEvent::ProgramChange { channel, program } => EventModel::ProgramChange {
                channel: *channel,
                program: *program,
            },
            MidiEvent::PitchBend { channel, value } => EventModel::PitchBend {
                channel: *channel,
                value: *value,
            },
            MidiEvent::Aftertouch { channel, key, pressure } => EventModel::Aftertouch {
                channel: *channel,
                key: *key,
                pressure: *pressure,
            },
            MidiEvent::ChannelPressure { channel, pressure } => EventModel::ChannelPressure {
                channel: *channel,
                pressure: *pressure,
            },
            MidiEvent::Sysex(bytes) => EventModel::Sysex(bytes@),
        }
    }
}

impl MidiEvent {
    /// A copy of this event with the same value.
    pub fn duplicate(&self) -> (r: MidiEvent)
        ensures
            r.deep_view() == self.deep_view(),
    {
        match self {
            MidiEvent::NoteOn { channel, key, velocity } => MidiEvent::NoteOn {
                channel: *channel,
                key: *key,
                velocity: *velocity,
            },
            MidiEvent::NoteOff { channel, key, velocity } => MidiEvent::NoteOff {
                channel: *channel,
                key: *key,
                velocity: *velocity,
            },
            MidiEvent::ControlChange { channel, control, value } => MidiEvent::ControlChange {
                channel: *channel,
                control: *control,
                value: *value,
            },
            MidiEvent::ProgramChange { channel, program } => MidiEvent::ProgramChange {
                channel: *channel,
                program: *program,
            },
            MidiEvent::PitchBend { channel, value } => MidiEvent::PitchBend {
                channel: *channel,
                value: *value,
            },
            MidiEvent::Aftertouch { channel, key, pressure } => MidiEvent::Aftertouch {
                channel: *channel,
                key: *key,
                pressure: *pressure,
            },
            MidiEvent::ChannelPressure { channel, pressure } => MidiEvent::ChannelPressure {
                channel: *channel,
                pressure: *pressure,
            },
            MidiEvent::Sysex(bytes) => {
                let copy = bytes.clone();
                assert(copy@ =~= bytes@);
                MidiEvent::Sysex(copy)
            },
        }
    }
}

/// The playback event for a channel message on `channel`: a Note On of
/// velocity 0 is a Note Off of velocity 0, and the pitch bend is re-centred
/// to `0..0x4000`.
pub open spec fn message_event(channel: u8, message: RawMessage) -> EventModel {
    match message {
        RawMessage::NoteOn(key, vel) => if vel == 0 {
            EventModel::NoteOff { channel, key, velocity: 0 }
        } else {
            EventModel::NoteOn { channel, key, velocity: vel }
        },
        RawMessage::NoteOff(key, vel) => EventModel::NoteOff { channel, key, velocity: vel },
        RawMessage::Controller(control, value) => EventModel::ControlChange { channel, control, value },
        RawMessage::ProgramChange(program) => EventModel::ProgramChange { channel, program },
        RawMessage::PitchBend(bend) => EventModel::PitchBend { channel, value: (bend + 0x2000) as u16 },
        RawMessage::Aftertouch(key, vel) => EventModel::Aftertouch { channel, key, pressure: vel },
        RawMessage::ChannelAftertouch(vel) => EventModel::ChannelPressure { channel, pressure: vel },
    }
}

/// Converts a channel message of a track into a playback event.
pub fn midi_message_to_event(channel: u8, message: &RawMessage) -> (r: MidiEvent)
    ensures
        r.deep_view() == message_event(channel, *message),
{
    let ch = channel;
    match *message {
        RawMessage::NoteOn(key, vel) if vel == 0 => MidiEvent::NoteOff { channel: ch, key, velocity: 0 },
        RawMessage::NoteOn(key, vel) => MidiEvent::NoteOn { channel: ch, key, velocity: vel },
        RawMessage::NoteOff(key, vel) => MidiEvent::NoteOff { channel: ch, key, velocity: vel },
        RawMessage::Controller(control, value) => MidiEvent::ControlChange { channel: ch, control, value },
        RawMessage::ProgramChange(program) => MidiEvent::ProgramChange { channel: ch, program },
        RawMessage::PitchBend(bend) => MidiEvent::PitchBend {
            channel: ch,
            value: (bend as i32 + 0x2000) as u16,
        },
        RawMessage::Aftertouch(key, vel) => MidiEvent::Aftertouch { channel: ch, key, pressure: vel },
        RawMessage::ChannelAftertouch(vel) => MidiEvent::ChannelPressure { channel: ch, pressure: vel },
    }
}

/// The bytes that put `ev` on the wire.
pub open spec fn event_bytes(ev: EventModel) -> Seq<u8> {
    match ev {
        EventModel::NoteOn { channel, key, velocity } => seq![0x90u8 | channel, key, velocity],
        EventModel::NoteOff { channel, key, velocity } => seq![0x80u8 | channel, key, velocity],
        EventModel::ControlChange { channel, control, value } => seq![0xB0u8 | channel, control, value],
        EventModel::ProgramChange { channel, program } => seq![0xC0u8 | channel, program],
        EventModel::PitchBend { channel, value } => seq![
            0xE0u8 | channel,
            (value & 0x7F) as u8,
            ((value >> 7u16) & 0x7F) as u8,
        ],
        EventModel::Aftertouch { channel, key, pressure } => seq![0xA0u8 | channel, key, pressure],
        EventModel::ChannelPressure { channel, pressure } => seq![0xD0u8 | channel, pressure],
        EventModel::Sysex(bytes) => bytes,
    }
}

/// Encodes an event into the raw MIDI bytes that are sent to a port.
pub fn encode_event(ev: &MidiEvent) -> (r: Vec<u8>)
    ensures
        r@ == event_bytes(ev.deep_view()),
{
    match ev {
        MidiEvent::NoteOn { channel, key, velocity } => encode_note_on(*channel, *key, *velocity),
        MidiEvent::NoteOff { channel, key, velocity } => encode_note_off(*channel, *key, *velocity),
        MidiEvent::ControlChange { channel, control, value } => encode_cc(*channel, *control, *value),
        MidiEvent::ProgramChange { channel, program } => encode_program_change(*channel, *program),
        MidiEvent::PitchBend { channel, value } => encode_pitch_bend(*channel, *value),
        MidiEvent::Aftertouch { channel, key, pressure } => encode_aftertouch(*channel, *key, *pressure),
        MidiEvent::ChannelPressure { channel, pressure } => encode_channel_pressure(*channel, *pressure),
        MidiEvent::Sysex(bytes) => {
            let copy = bytes.clone();
            assert(copy@ =~= bytes@);
            copy
        },
    }
}

/// Note On: status `0x9n`, key, velocity.
pub fn encode_note_on(ch: u8, key: u8, vel: u8) -> (r: Vec<u8>)
    ensures
        r@ == seq![0x90u8 | ch, key, vel],
{
    vec![0x90 | ch, key, vel]
}

/// Note Off: status `0x8n`, key, velocity.
pub fn encode_note_off(ch: u8, key: u8, vel: u8) -> (r: Vec<u8>)
    ensures
        r@ == seq![0x80u8 | ch, key, vel],
{
    vec![0x80 | ch, key, vel]
}

/// Control Change: status `0xBn`, controller, value.
pub fn encode_cc(ch: u8, control: u8, value: u8) -> (r: Vec<u8>)
    ensures
        r@ == seq![0xB0u8 | ch, control, value],
{
    vec![0xB0 | ch, control, value]
}

/// Program Change: status `0xCn`, program.
pub fn encode_program_change(ch: u8, program: u8) -> (r: Vec<u8>)
    ensures
        r@ == seq![0xC0u8 | ch, program],
{
    vec![0xC0 | ch, program]
}

/// Pitch Bend: status `0xEn`, then the low and the high seven bits of the
/// 14-bit value.
pub fn encode_pitch_bend(ch: u8, value: u16) -> (r: Vec<u8>)
    ensures
        r@ == seq![0xE0u8 | ch, (value & 0x7F) as u8, ((value >> 7u16) & 0x7F) as u8],
{
    vec![0xE0 | ch, (value & 0x7F) as u8, ((value >> 7) & 0x7F) as u8]
}

/// Polyphonic Aftertouch: status `0xAn`, key, pressure.
pub fn encode_aftertouch(ch: u8, key: u8, pressure: u8) -> (r: Vec<u8>)
    ensures
        r@ == seq![0xA0u8 | ch, key, pressure],
{
    vec![0xA0 | ch, key, pressure]
}

/// Channel Pressure: status `0xDn`, pressure.
pub fn encode_channel_pressure(ch: u8, pressure: u8) -> (r: Vec<u8>)
    ensures
        r@ == seq![0xD0u8 | ch, pressure],
{
    vec![0xD0 | ch, pressure]
}

/// The kind of a channel message, as the high nibble of its status byte
/// (none for SysEx).
pub open spec fn status_nibble(ev: EventModel) -> u8 {
    match ev {
        EventModel::NoteOff { .. } => 0x8,
        EventModel::NoteOn { .. } => 0x9,
        EventModel::Aftertouch { .. } => 0xA,
        EventModel::ControlChange { .. } => 0xB,
        EventModel::ProgramChange { .. } => 0xC,
        EventModel::ChannelPressure { .. } => 0xD,
        EventModel::PitchBend { .. } => 0xE,
        EventModel::Sysex(_) => 0,
    }
}

/// The channel of a channel message (0 for SysEx).
pub open spec fn event_channel(ev: EventModel) -> u8 {
    match ev {
        EventModel::NoteOff { channel, .. } => channel,
        EventModel::NoteOn { channel, .. } => channel,
        EventModel::Aftertouch { channel, .. } => channel,
        EventModel::ControlChange { channel, .. } => channel,
        EventModel::ProgramChange { channel, .. } => channel,
        EventModel::ChannelPressure { channel, .. } => channel,
        EventModel::PitchBend { channel, .. } => channel,
        EventModel::Sysex(_) => 0,
    }
}

/// A channel message on a channel below 16 is sent as a status byte that
/// carries the message kind in its high nibble (with the top bit set) and
/// the channel in its low nibble, followed by two data bytes, or one for
/// Program Change and Channel Pressure.
pub proof fn lemma_status_byte(ev: EventModel)
    requires
        !(ev is Sysex),
        event_channel(ev) < 16,
    ensures
        event_bytes(ev).len() == if ev is ProgramChange || ev is ChannelPressure {
            2int
        } else {
            3int
        },
        event_bytes(ev)[0] >> 4u8 == status_nibble(ev),
        event_bytes(ev)[0] & 0x0Fu8 == event_channel(ev),
        event_bytes(ev)[0] >= 0x80,
{
    let ch = event_channel(ev);
    let b = event_bytes(ev)[0];
    let k: u8 = status_nibble(ev) << 4u8;
    assert(b == (k | ch)) by {
        assert(0x8u8 << 4u8 == 0x80u8) by (bit_vector);
        assert(0x9u8 << 4u8 == 0x90u8) by (bit_vector);
        assert(0xAu8 << 4u8 == 0xA0u8) by (bit_vector);
        assert(0xBu8 << 4u8 == 0xB0u8) by (bit_vector);
        assert(0xCu8 << 4u8 == 0xC0u8) by (bit_vector);
        assert(0xDu8 << 4u8 == 0xD0u8) by (bit_vector);
        assert(0xEu8 << 4u8 == 0xE0u8) by (bit_vector);
    }
    let n = status_nibble(ev);
    assert(8 <= n <= 14);
    assert((((n << 4u8) | ch) >> 4u8) == n && (((n << 4u8) | ch) & 0x0Fu8) == ch && ((n << 4u8) | ch) >= 0x80)
        by (bit_vector)
        requires
            8 <= n <= 14,
            ch < 16,
    ;
}

/// A pitch bend value below `0x4000` is sent as two 7-bit data bytes, low
/// bits first, that put the value back together.
pub proof fn lemma_pitch_bend_bytes(channel: u8, value: u16)
    requires
        value < 0x4000,
    ensures
        ({
            let b = event_bytes(EventModel::PitchBend { channel, value });
            &&& b[1] < 0x80
            &&& b[2] < 0x80
            &&& ((b[2] as u16) << 7u16) | (b[1] as u16) == value
        }),
{
    let lo = (value & 0x7F) as u8;
    let hi = ((value >> 7u16) & 0x7F) as u8;
    assert(lo < 0x80 && hi < 0x80 && (((hi as u16) << 7u16) | (lo as u16)) == value) by (bit_vector)
        requires
            value < 0x4000,
            lo == (value & 0x7F) as u8,
            hi == ((value >> 7u16) & 0x7F) as u8,
    ;
}

/// A channel message as a MIDI file can hold it: a channel below 16, data
/// values below `0x80`, and a pitch bend in `-0x2000..0x2000`.
pub open spec fn message_in_range(channel: u8, message: RawMessage) -> bool {
    channel < 16 && message_values_in_range(message)
}

/// The data values of a channel message are below `0x80`, and a pitch bend
/// lies in `-0x2000..0x2000`.
pub open spec fn message_values_in_range(message: RawMessage) -> bool {
    match message {
        RawMessage::NoteOff(key, vel) => key < 0x80 && vel < 0x80,
        RawMessage::NoteOn(key, vel) => key < 0x80 && vel < 0x80,
        RawMessage::Aftertouch(key, vel) => key < 0x80 && vel < 0x80,
        RawMessage::Controller(control, value) => control < 0x80 && value < 0x80,
        RawMessage::ProgramChange(program) => program < 0x80,
        RawMessage::ChannelAftertouch(vel) => vel < 0x80,
        RawMessage::PitchBend(bend) => -0x2000 <= bend < 0x2000,
    }
}

/// The standard wire bytes of a channel message on `channel`: the status
/// byte (kind in the high nibble, channel in the low one), then its data
/// bytes; a pitch bend as the 14-bit value `bend + 0x2000`, low seven bits
/// first.
pub open spec fn wire_bytes(channel: u8, message: RawMessage) -> Seq<u8> {
    match message {
        RawMessage::NoteOff(key, vel) => seq![0x80u8 | channel, key, vel],
        RawMessage::NoteOn(key, vel) => seq![0x90u8 | channel, key, vel],
        RawMessage::Aftertouch(key, vel) => seq![0xA0u8 | channel, key, vel],
        RawMessage::Controller(control, value) => seq![0xB0u8 | channel, control, value],
        RawMessage::ProgramChange(program) => seq![0xC0u8 | channel, program],
        RawMessage::ChannelAftertouch(vel) => seq![0xD0u8 | channel, vel],
        RawMessage::PitchBend(bend) => seq![
            0xE0u8 | channel,
            ((bend + 0x2000) % 128) as u8,
            ((bend + 0x2000) / 128) as u8,
        ],
    }
}

/// A channel message of a file goes to the port as it stood in the file: its
/// playback event is sent as the message's standard wire bytes, except that
/// a Note On of velocity 0 is sent as the Note Off it stands for; every data
/// byte sent is below `0x80`.
pub proof fn lemma_message_round_trip(channel: u8, message: RawMessage)
    requires
        message_in_range(channel, message),
    ensures
        event_bytes(message_event(channel, message)) == match message {
            RawMessage::NoteOn(key, vel) => if vel == 0 {
                seq![0x80u8 | channel, key, 0u8]
            } else {
                wire_bytes(channel, message)
            },
            _ => wire_bytes(channel, message),
        },
        forall|i: int|
            1 <= i < event_bytes(message_event(channel, message)).len() ==> #[trigger] event_bytes(
                message_event(channel, message),
            )[i] < 0x80,
{
    match message {
        RawMessage::PitchBend(bend) => {
            let value = (bend + 0x2000) as u16;
            assert(value == bend + 0x2000);
            assert((value & 0x7F) as u8 == (value % 128) as u8 && ((value >> 7u16) & 0x7F) as u8 == (value / 128) as u8
                && value % 128 < 0x80 && value / 128 < 0x80) by (bit_vector)
                requires
                    value < 0x4000,
            ;
            let b = event_bytes(message_event(channel, message));
            assert(b =~= wire_bytes(channel, message));
        },
        _ => {},
    }
}

/// The messages that silence every channel: for each channel 0..16 in
/// turn, "all notes off" (controller 123) then "all sound off" (controller
/// 120), both with value 0.
pub open spec fn silence_message(i: int) -> Seq<u8> {
    let ch = (i / 2) as u8;
    if i % 2 == 0 {
        seq![0xB0u8 | ch, 123u8, 0u8]
    } else {
        seq![0xB0u8 | ch, 120u8, 0u8]
    }
}

/// The messages that silence every channel (see [`silence_message`]).
pub fn all_notes_off_messages() -> (r: Vec<Vec<u8>>)
    ensures
        r.len() == 32,
        forall|i: int| 0 <= i < 32 ==> (#[trigger] r[i])@ == silence_message(i),
{
    let mut r: Vec<Vec<u8>> = Vec::new();
    let mut ch: u8 = 0;
    while ch < 16
        invariant
            ch <= 16,
            r.len() == 2 * ch,
            forall|i: int| 0 <= i < 2 * ch ==> (#[trigger] r[i])@ == silence_message(i),
        decreases 16 - ch,
    {
        r.push(encode_cc(ch, 123, 0));
        r.push(encode_cc(ch, 120, 0));
        ch = ch + 1;
    }
    r
}

} // verus!
