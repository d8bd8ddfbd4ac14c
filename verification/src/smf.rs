//! A Standard MIDI File as plain values, and the parse that produces it.
//!
//! The parse itself is `midly`'s; this module declares what the library
//! believes of it and copies the parsed file into the library's own types.

use vstd::prelude::*;
use midly::{MetaMessage, MidiMessage, Timing, TrackEventKind};
use crate::event::{message_in_range, message_values_in_range};

verus! {

/// A channel message of a track, with the 7-bit values as bytes and the
/// pitch bend as a signed offset from the centre (`-0x2000..0x2000`).
#[derive(Clone, Copy, Debug, PartialEq, Eq)]
pub enum RawMessage {
    /// Key, velocity.
    NoteOff(u8, u8),
    /// Key, velocity.
    NoteOn(u8, u8),
    /// Key, pressure.
    Aftertouch(u8, u8),
    /// Controller, value.
    Controller(u8, u8),
    /// Program.
    ProgramChange(u8),
    /// Pressure.
    ChannelAftertouch(u8),
    /// Bend, as an offset from the centre.
    PitchBend(i16),
}

/// What a track event carries, as far as playback reads it.
#[derive(Clone, Debug, PartialEq, Eq)]
pub enum RawKind {
    /// A channel message.
    Midi { channel: u8, message: RawMessage },
    /// A tempo change, in microseconds per quarter note.
    Tempo(u32),
    /// A time signature: numerator and the denominator as a power of two.
    TimeSignature(u8, u8),
    /// A system-exclusive dump, without its leading `0xF0`.
    SysEx(Vec<u8>),
    /// Anything else (other meta events, escapes).
    Other,
}

/// A track event: the ticks since the previous event of the track, and
/// what it carries.
#[derive(Clone, Debug, PartialEq, Eq)]
pub struct RawEvent {
    pub delta: u32,
    pub kind: RawKind,
}

/// A parsed Standard MIDI File: its ticks per quarter note (`None` for
/// SMPTE timecode timing) and its tracks.
#[derive(Clone, Debug, PartialEq, Eq)]
pub struct RawSmf {
    pub timing: Option<u16>,
    pub tracks: Vec<Vec<RawEvent>>,
}

/// The value of a [`RawSmf`].
pub struct SmfModel {
    pub timing: Option<u16>,
    pub tracks: Seq<Seq<RawEvent>>,
}

impl View for RawSmf {
    type V = SmfModel;

    open spec fn view(&self) -> SmfModel {
        SmfModel {
            timing: self.timing,
            tracks: self.tracks@.map_values(|t: Vec<RawEvent>| t@),
        }
    }
}

#[verifier::external_type_specification]
#[verifier::external_body]
pub struct ExSmf<'a>(midly::Smf<'a>);

/// What `midly::Smf::parse` makes of the bytes `data`: the timing and tracks
/// of the file, or the text of the error it reports.
pub uninterp spec fn smf_parse(data: Seq<u8>) -> Result<(Option<u16>, Seq<Seq<RawEvent>>), Seq<char>>;

/// The tracks that a parsed `midly::Smf` holds, each event copied into a
/// [`RawEvent`].
pub uninterp spec fn smf_tracks(smf: midly::Smf) -> Seq<Seq<RawEvent>>;

/// The ticks per quarter note of a parsed `midly::Smf` (`None` for timecode).
pub uninterp spec fn smf_timing(smf: midly::Smf) -> Option<u16>;

/// Calls `midly::Smf::parse`. Claims: the result is `Ok` exactly when the
/// named parse of `data` succeeds, with that timing and those tracks, and the
/// error text is the one the named parse reports.
#[verifier::external_body]
fn midly_parse(data: &[u8]) -> (r: Result<midly::Smf<'_>, String>)
    ensures
        match r {
            Ok(s) => smf_parse(data@) == Ok::<(Option<u16>, Seq<Seq<RawEvent>>), Seq<char>>(
                (smf_timing(s), smf_tracks(s)),
            ),
            Err(msg) => smf_parse(data@) == Err::<(Option<u16>, Seq<Seq<RawEvent>>), Seq<char>>(
                msg@,
            ),
        },
{
    midly::Smf::parse(data).map_err(|e| e.to_string())
}

/// The event `i` of track `t` of `smf`.
pub open spec fn smf_event(smf: midly::Smf, t: int, i: int) -> RawEvent {
    smf_tracks(smf)[t][i]
}

/// Reads the timing of the header of `smf`: `Some(ticks per quarter)` for
/// metrical timing, `None` for timecode. Claims it is the named timing.
#[verifier::external_body]
fn header_timing(smf: &midly::Smf) -> (r: Option<u16>)
    ensures
        r == smf_timing(*smf),
{
    match smf.header.timing {
        Timing::Metrical(tpq) => Some(tpq.as_int()),
        Timing::Timecode(..) => None,
    }
}

/// Reads `smf.tracks.len()`. Claims it is the number of named tracks.
#[verifier::external_body]
fn track_count(smf: &midly::Smf) -> (r: usize)
    ensures
        r == smf_tracks(*smf).len(),
{
    smf.tracks.len()
}

/// Reads the length of track `t`. Claims it is the length of the named track.
#[verifier::external_body]
fn track_len(smf: &midly::Smf, t: usize) -> (r: usize)
    requires
        t < smf_tracks(*smf).len(),
    ensures
        r == smf_tracks(*smf)[t as int].len(),
{
    smf.tracks[t].len()
}

/// Reads the delta time (`u28`) of event `i` of track `t`. Claims it is the
/// named event's delta.
#[verifier::external_body]
fn event_delta(smf: &midly::Smf, t: usize, i: usize) -> (r: u32)
    requires
        t < smf_tracks(*smf).len(),
        i < smf_tracks(*smf)[t as int].len(),
    ensures
        r == smf_event(*smf, t as int, i as int).delta,
{
    smf.tracks[t][i].delta.as_int()
}

/// Reads the channel of event `i` of track `t` when it is a channel message.
/// Claims it is the channel of the named event, `None` when that is not a
/// channel message, and that it is below 16 (`u4::as_int`).
#[verifier::external_body]
fn event_channel(smf: &midly::Smf, t: usize, i: usize) -> (r: Option<u8>)
    requires
        t < smf_tracks(*smf).len(),
        i < smf_tracks(*smf)[t as int].len(),
    ensures
        r == match smf_event(*smf, t as int, i as int).kind {
            RawKind::Midi { channel, .. } => Some(channel),
            _ => None,
        },
        r matches Some(c) ==> c < 16,
{
    match smf.tracks[t][i].kind {
        TrackEventKind::Midi { channel, .. } => Some(channel.as_int()),
        _ => None,
    }
}

/// Copies the channel message of event `i` of track `t`, variant by variant
/// (pitch bend through `PitchBend::as_int`). Claims it is the message of
/// the named event, `None` when that is not a channel message, and that its
/// values lie in their ranges: below `0x80` (`u7::as_int`), the pitch bend
/// in `-0x2000..0x2000` (`PitchBend::as_int`).
#[verifier::external_body]
fn event_message(smf: &midly::Smf, t: usize, i: usize) -> (r: Option<RawMessage>)
    requires
        t < smf_tracks(*smf).len(),
        i < smf_tracks(*smf)[t as int].len(),
    ensures
        r == match smf_event(*smf, t as int, i as int).kind {
            RawKind::Midi { message, .. } => Some(message),
            _ => None,
        },
        r matches Some(m) ==> message_values_in_range(m),
{
    match smf.tracks[t][i].kind {
        TrackEventKind::Midi { message, .. } => Some(match message {
            MidiMessage::NoteOff { key, vel } => RawMessage::NoteOff(key.as_int(), vel.as_int()),
            MidiMessage::NoteOn { key, vel } => RawMessage::NoteOn(key.as_int(), vel.as_int()),
            MidiMessage::Aftertouch { key, vel } => RawMessage::Aftertouch(key.as_int(), vel.as_int()),
            MidiMessage::Controller { controller, value } => RawMessage::Controller(controller.as_int(), value.as_int()),
            MidiMessage::ProgramChange { program } => RawMessage::ProgramChange(program.as_int()),
            MidiMessage::ChannelAftertouch { vel } => RawMessage::ChannelAftertouch(vel.as_int()),
            MidiMessage::PitchBend { bend } => RawMessage::PitchBend(bend.as_int()),
        }),
        _ => None,
    }
}

/// Copies what event `i` of track `t` carries when it is not a channel
/// message: a tempo (`u24`), a time signature (numerator and denominator
/// power), a SysEx dump, or `Other` for the remaining kinds. Claims it is
/// the kind of the named event, `None` when that is a channel message.
#[verifier::external_body]
fn event_other_kind(smf: &midly::Smf, t: usize, i: usize) -> (r: Option<RawKind>)
    requires
        t < smf_tracks(*smf).len(),
        i < smf_tracks(*smf)[t as int].len(),
    ensures
        r == match smf_event(*smf, t as int, i as int).kind {
            RawKind::Midi { .. } => None,
            k => Some(k),
        },
{
    match smf.tracks[t][i].kind {
        TrackEventKind::Midi { .. } => None,
        TrackEventKind::Meta(MetaMessage::Tempo(us)) => Some(RawKind::Tempo(us.as_int())),
        TrackEventKind::Meta(MetaMessage::TimeSignature(num, den, _, _)) => Some(RawKind::TimeSignature(num, den)),
        TrackEventKind::SysEx(data) => Some(RawKind::SysEx(data.to_vec())),
        _ => Some(RawKind::Other),
    }
}

/// A channel message of the event has its values in range.
pub open spec fn event_in_range(e: RawEvent) -> bool {
    e.kind matches RawKind::Midi { channel, message } ==> message_in_range(channel, message)
}

/// Every channel message of the tracks has its values in range.
pub open spec fn tracks_in_range(tracks: Seq<Seq<RawEvent>>) -> bool {
    forall|t: int, i: int| 0 <= t < tracks.len() && 0 <= i < tracks[t].len() ==> event_in_range(#[trigger] tracks[t][i])
}

/// Event `i` of track `t` of `smf`, copied.
fn read_event(smf: &midly::Smf, t: usize, i: usize) -> (r: RawEvent)
    requires
        t < smf_tracks(*smf).len(),
        i < smf_tracks(*smf)[t as int].len(),
    ensures
        r == smf_event(*smf, t as int, i as int),
        event_in_range(r),
{
    let delta = event_delta(smf, t, i);
    let kind = match event_other_kind(smf, t, i) {
        Some(k) => k,
        None => {
            let channel = event_channel(smf, t, i);
            let message = event_message(smf, t, i);
            match (channel, message) {
                (Some(c), Some(m)) => RawKind::Midi { channel: c, message: m },
                _ => {
                    assert(false);
                    RawKind::Other
                },
            }
        },
    };
    RawEvent { delta, kind }
}

/// The whole of a parsed `midly::Smf`, copied into plain values.
fn read_smf(smf: &midly::Smf) -> (r: RawSmf)
    ensures
        r@.timing == smf_timing(*smf),
        r@.tracks == smf_tracks(*smf),
        tracks_in_range(r@.tracks),
{
    let timing = header_timing(smf);
    let n = track_count(smf);
    let mut tracks: Vec<Vec<RawEvent>> = Vec::new();
    let mut t: usize = 0;
    while t < n
        invariant
            n == smf_tracks(*smf).len(),
            t <= n,
            tracks.len() == t,
            tracks@.map_values(|v: Vec<RawEvent>| v@) == smf_tracks(*smf).take(t as int),
            tracks_in_range(smf_tracks(*smf).take(t as int)),
        decreases n - t,
    {
        let len = track_len(smf, t);
        let mut track: Vec<RawEvent> = Vec::new();
        let mut i: usize = 0;
        while i < len
            invariant
                n == smf_tracks(*smf).len(),
                t < n,
                len == smf_tracks(*smf)[t as int].len(),
                i <= len,
                track@ == smf_tracks(*smf)[t as int].take(i as int),
                forall|j: int| 0 <= j < i ==> event_in_range(#[trigger] track@[j]),
            decreases len - i,
        {
            track.push(read_event(smf, t, i));
            i = i + 1;
            assert(track@ =~= smf_tracks(*smf)[t as int].take(i as int));
        }
        assert(track@ =~= smf_tracks(*smf)[t as int]);
        let ghost before = tracks@;
        let ghost added = track@;
        tracks.push(track);
        t = t + 1;
        assert forall|k: int| 0 <= k < t implies #[trigger] tracks@[k]@ == smf_tracks(*smf)[k] by {
            if k < t - 1 {
                assert(tracks@[k] == before[k]);
                assert(before.map_values(|v: Vec<RawEvent>| v@)[k] == smf_tracks(*smf).take(
                    t - 1,
                )[k]);
            } else {
                assert(tracks@[k]@ == added);
            }
        }
        assert(tracks@.map_values(|v: Vec<RawEvent>| v@) =~= smf_tracks(*smf).take(t as int));
        assert forall|a: int, b: int|
            0 <= a < t && 0 <= b < smf_tracks(*smf).take(t as int)[a].len() implies event_in_range(
            #[trigger] smf_tracks(*smf).take(t as int)[a][b],
        ) by {
            if a < t - 1 {
                assert(smf_tracks(*smf).take(t as int)[a] == smf_tracks(*smf).take(t - 1)[a]);
            } else {
                assert(smf_tracks(*smf).take(t as int)[a] == added);
            }
        }
    }
    assert(smf_tracks(*smf).take(n as int) =~= smf_tracks(*smf));
    RawSmf { timing, tracks }
}

/// Parses the bytes of a Standard MIDI File with `midly` and copies the
/// result into plain values; on failure, the text of `midly`'s error.
pub fn parse_midi_file(data: &[u8]) -> (r: Result<RawSmf, String>)
    ensures
        match r {
            Ok(raw) => smf_parse(data@) == Ok::<(Option<u16>, Seq<Seq<RawEvent>>), Seq<char>>(
                (raw@.timing, raw@.tracks),
            ) && tracks_in_range(raw@.tracks),
            Err(msg) => smf_parse(data@) == Err::<(Option<u16>, Seq<Seq<RawEvent>>), Seq<char>>(
                msg@,
            ),
        },
{
    match midly_parse(data) {
        Ok(smf) => Ok(read_smf(&smf)),
        Err(msg) => Err(msg),
    }
}

} // verus!
