//! Flattening a parsed MIDI file into one time-ordered event stream, plus the
//! tempo and time-signature changes that the measure map needs.

use vstd::prelude::*;
use vstd::string::StringExecFns;
use crate::event::{message_event, midi_message_to_event, EventModel, MidiEvent};
use crate::measures::{lemma_tick_nanos_bound, meter_keys, meters_sorted, sorted_meters, time_bound};
use crate::order::{
    arrange, is_stable_order, key_before, lemma_stable_order_covers, lemma_stable_order_of, stable_order, stable_order_of,
    stably_sorted,
};
use crate::smf::{RawEvent, RawKind, RawSmf};
use crate::timing::{nanos_for_tick, tick_nanos, ticks_sorted, DEFAULT_TEMPO};

verus! {

/// Why a MIDI file cannot be loaded.
#[derive(Clone, Debug, PartialEq, Eq)]
pub enum LoadError {
    /// The bytes are not a MIDI file `midly` can parse; the text is its error.
    Parse(String),
    /// The file is timed in SMPTE timecode, which is not supported.
    Timecode,
    /// The file declares 0 ticks per quarter note.
    ZeroTicksPerQuarter,
    /// A track's ticks run past the `u64` range.
    TickOverflow,
    /// The tempo map ends in 0 µs per quarter no later than five seconds
    /// after the song, so time stops before the measure map could end.
    TempoStall,
}

impl LoadError {
    /// The text shown to the user for this error.
    pub fn message(&self) -> (r: String)
        ensures
            r@ == match self {
                LoadError::Parse(e) => "Failed to parse MIDI file: "@ + e@,
                LoadError::Timecode => "SMPTE timecode MIDI files are not supported"@,
                LoadError::ZeroTicksPerQuarter => "invalid MIDI timing: ticks per quarter note is 0"@,
                LoadError::TickOverflow => "invalid MIDI timing: track ticks exceed the supported range"@,
                LoadError::TempoStall => "invalid MIDI tempo: 0 microseconds per quarter note"@,
            },
    {
        match self {
            LoadError::Parse(e) => {
                let mut r = String::from_str("Failed to parse MIDI file: ");
                r.append(e.as_str());
                r
            },
            LoadError::Timecode => String::from_str("SMPTE timecode MIDI files are not supported"),
            LoadError::ZeroTicksPerQuarter => String::from_str("invalid MIDI timing: ticks per quarter note is 0"),
            LoadError::TickOverflow => String::from_str("invalid MIDI timing: track ticks exceed the supported range"),
            LoadError::TempoStall => String::from_str("invalid MIDI tempo: 0 microseconds per quarter note"),
        }
    }
}

/// The timing data that the measure map is built from.
#[derive(Debug)]
pub struct SmfTiming {
    pub tpq: u16,
    /// Tempo changes `(tick, µs per quarter)`, sorted by tick.
    pub tempos: Vec<(u64, u32)>,
    /// Time signatures `(tick, numerator, denominator power)`, sorted by tick.
    pub meters: Vec<(u64, u8, u8)>,
}

/// A flattened MIDI file: the time-ordered event stream, its length, and the
/// timing data.
#[derive(Debug)]
pub struct ParsedSmf {
    /// `(time in ns, event)`, in time order.
    pub events: Vec<(u128, MidiEvent)>,
    /// The time of the last event (0 for none).
    pub total_length: u128,
    pub timing: SmfTiming,
}

/// The ticks of the first `n` events of a track: the sum of their deltas.
pub open spec fn ticks_upto(track: Seq<RawEvent>, n: nat) -> int
    decreases n,
{
    if n == 0 {
        0
    } else {
        ticks_upto(track, (n - 1) as nat) + track[n - 1].delta
    }
}

/// The events of a track with their absolute ticks.
pub open spec fn timed_track(track: Seq<RawEvent>) -> Seq<(int, RawKind)> {
    Seq::new(track.len(), |i: int| (ticks_upto(track, (i + 1) as nat), track[i].kind))
}

/// The events of all tracks with their absolute ticks, track after track.
pub open spec fn timed_events(tracks: Seq<Seq<RawEvent>>) -> Seq<(int, RawKind)>
    decreases tracks.len(),
{
    if tracks.len() == 0 {
        Seq::empty()
    } else {
        timed_events(tracks.drop_last()) + timed_track(tracks.last())
    }
}

/// Every track's ticks stay within the `u64` range.
pub open spec fn ticks_fit(tracks: Seq<Seq<RawEvent>>) -> bool {
    forall|t: int| 0 <= t < tracks.len() ==> ticks_upto(#[trigger] tracks[t], tracks[t].len()) <= u64::MAX
}

/// The tempo changes among `s`, in order.
pub open spec fn tempo_entries(s: Seq<(int, RawKind)>) -> Seq<(u64, u32)>
    decreases s.len(),
{
    if s.len() == 0 {
        Seq::empty()
    } else {
        let rest = tempo_entries(s.drop_last());
        match s.last().1 {
            RawKind::Tempo(us) => rest.push((s.last().0 as u64, us)),
            _ => rest,
        }
    }
}

/// The time signatures among `s`, in order.
pub open spec fn meter_entries(s: Seq<(int, RawKind)>) -> Seq<(u64, u8, u8)>
    decreases s.len(),
{
    if s.len() == 0 {
        Seq::empty()
    } else {
        let rest = meter_entries(s.drop_last());
        match s.last().1 {
            RawKind::TimeSignature(num, den) => rest.push((s.last().0 as u64, num, den)),
            _ => rest,
        }
    }
}

/// A SysEx dump as sent: `0xF0`, the dump, and a closing `0xF7` unless the
/// dump already ends with one.
pub open spec fn sysex_frame(dump: Seq<u8>) -> Seq<u8> {
    let s = seq![0xF0u8] + dump;
    if s.last() == 0xF7 {
        s
    } else {
        s.push(0xF7)
    }
}

/// The events among `s` that are sent to the port (channel messages and
/// SysEx dumps), in order, with their ticks.
pub open spec fn playable_entries(s: Seq<(int, RawKind)>) -> Seq<(u64, EventModel)>
    decreases s.len(),
{
    if s.len() == 0 {
        Seq::empty()
    } else {
        let rest = playable_entries(s.drop_last());
        let tick = s.last().0 as u64;
        match s.last().1 {
            RawKind::Midi { channel, message } => rest.push((tick, message_event(channel, message))),
            RawKind::SysEx(dump) => rest.push((tick, EventModel::Sysex(sysex_frame(dump@)))),
            _ => rest,
        }
    }
}

/// The ticks of tempo changes, as sort keys.
pub open spec fn tempo_keys(m: Seq<(u64, u32)>) -> Seq<u128> {
    Seq::new(m.len(), |i: int| m[i].0 as u128)
}

/// The tempo map of a file: 120 BPM at tick 0, then the file's tempo
/// changes, stably sorted by tick.
pub open spec fn tempo_map_of(tracks: Seq<Seq<RawEvent>>) -> Seq<(u64, u32)> {
    let raw = seq![(0u64, DEFAULT_TEMPO)] + tempo_entries(timed_events(tracks));
    stably_sorted(raw, tempo_keys(raw))
}

/// The time signatures of a file, stably sorted by tick.
pub open spec fn meter_map_of(tracks: Seq<Seq<RawEvent>>) -> Seq<(u64, u8, u8)> {
    let raw = meter_entries(timed_events(tracks));
    stably_sorted(raw, meter_keys(raw))
}

/// The events of a timed event list are in non-decreasing time order.
pub open spec fn time_sorted(s: Seq<(u128, EventModel)>) -> bool {
    forall|i: int, j: int| 0 <= i <= j < s.len() ==> #[trigger] s[i].0 <= #[trigger] s[j].0
}

/// The times of a timed event list, as sort keys.
pub open spec fn time_keys(s: Seq<(u128, EventModel)>) -> Seq<u128> {
    Seq::new(s.len(), |i: int| s[i].0)
}

/// The playable events of a file, each at the time of its tick.
pub open spec fn timed_playable(tracks: Seq<Seq<RawEvent>>, tpq: u16) -> Seq<(u128, EventModel)> {
    let p = playable_entries(timed_events(tracks));
    let map = tempo_map_of(tracks);
    Seq::new(p.len(), |i: int| (tick_nanos(map, tpq, p[i].0 as int) as u128, p[i].1))
}

/// The event stream of a file: its playable events stably sorted by time.
pub open spec fn event_stream(tracks: Seq<Seq<RawEvent>>, tpq: u16) -> Seq<(u128, EventModel)> {
    let e = timed_playable(tracks, tpq);
    stably_sorted(e, time_keys(e))
}

/// The length of an event stream: the time of its last event (0 for none).
pub open spec fn stream_length(s: Seq<(u128, EventModel)>) -> u128 {
    if s.len() == 0 {
        0
    } else {
        s.last().0
    }
}

/// The event stream holds every channel message and SysEx dump of the file,
/// once, in time order.
pub proof fn lemma_event_stream(tracks: Seq<Seq<RawEvent>>, tpq: u16)
    requires
        playable_entries(timed_events(tracks)).len() <= usize::MAX,
    ensures
        event_stream(tracks, tpq).len() == playable_entries(timed_events(tracks)).len(),
        time_sorted(event_stream(tracks, tpq)),
{
    let e = timed_playable(tracks, tpq);
    lemma_stable_order_of(time_keys(e));
    let p = stable_order_of(time_keys(e));
    let s = event_stream(tracks, tpq);
    assert forall|i: int, j: int| 0 <= i <= j < s.len() implies #[trigger] s[i].0 <= #[trigger] s[j].0 by {
        if i < j {
            assert(key_before(time_keys(e), p[i] as int, p[j] as int));
        }
    }
}

/// What [`flatten`] makes of a parsed file.
pub open spec fn flatten_result(timing: Option<u16>, tracks: Seq<Seq<RawEvent>>, r: Result<ParsedSmf, LoadError>) -> bool {
    match timing {
        None => r == Err::<ParsedSmf, LoadError>(LoadError::Timecode),
        Some(tpq) => if tpq == 0 {
            r == Err::<ParsedSmf, LoadError>(LoadError::ZeroTicksPerQuarter)
        } else if !ticks_fit(tracks) {
            r == Err::<ParsedSmf, LoadError>(LoadError::TickOverflow)
        } else {
            &&& r is Ok
            &&& r->Ok_0.timing.tpq == tpq
            &&& r->Ok_0.timing.tempos@ == tempo_map_of(tracks)
            &&& r->Ok_0.timing.meters@ == meter_map_of(tracks)
            &&& r->Ok_0.events.deep_view() == event_stream(tracks, tpq)
            &&& r->Ok_0.total_length == stream_length(event_stream(tracks, tpq))
        },
    }
}

proof fn lemma_ticks_monotone(track: Seq<RawEvent>, a: nat, b: nat)
    requires
        a <= b,
    ensures
        ticks_upto(track, a) <= ticks_upto(track, b),
    decreases b,
{
    if a < b {
        lemma_ticks_monotone(track, a, (b - 1) as nat);
    }
}

proof fn lemma_timed_events_step(tracks: Seq<Seq<RawEvent>>, t: int)
    requires
        0 <= t < tracks.len(),
    ensures
        timed_events(tracks.take(t + 1)) == timed_events(tracks.take(t)) + timed_track(tracks[t]),
{
    assert(tracks.take(t + 1).drop_last() =~= tracks.take(t));
}

/// The event sent to the port for a track event, if it is one: a channel
/// message as its playback event, a SysEx dump framed.
pub open spec fn sent_event(kind: RawKind) -> Option<EventModel> {
    match kind {
        RawKind::Midi { channel, message } => Some(message_event(channel, message)),
        RawKind::SysEx(dump) => Some(EventModel::Sysex(sysex_frame(dump@))),
        _ => None,
    }
}

/// The number of events of a track that are sent to the port.
pub open spec fn sent_in_track(track: Seq<RawEvent>) -> nat
    decreases track.len(),
{
    if track.len() == 0 {
        0
    } else {
        sent_in_track(track.drop_last()) + if sent_event(track.last().kind) is Some {
            1nat
        } else {
            0nat
        }
    }
}

/// The number of events of a file that are sent to the port.
pub open spec fn sent_in_file(tracks: Seq<Seq<RawEvent>>) -> nat
    decreases tracks.len(),
{
    if tracks.len() == 0 {
        0
    } else {
        sent_in_file(tracks.drop_last()) + sent_in_track(tracks.last())
    }
}

proof fn lemma_playable_concat(a: Seq<(int, RawKind)>, b: Seq<(int, RawKind)>)
    ensures
        playable_entries(a + b) == playable_entries(a) + playable_entries(b),
    decreases b.len(),
{
    if b.len() == 0 {
        assert(a + b =~= a);
        assert(playable_entries(a) + playable_entries(b) =~= playable_entries(a));
    } else {
        assert((a + b).drop_last() =~= a + b.drop_last());
        assert((a + b).last() == b.last());
        lemma_playable_concat(a, b.drop_last());
        let pa = playable_entries(a);
        let pb = playable_entries(b.drop_last());
        match b.last().1 {
            RawKind::Midi { channel, message } => {
                assert((pa + pb).push((b.last().0 as u64, message_event(channel, message))) =~= pa + pb.push(
                    (b.last().0 as u64, message_event(channel, message)),
                ));
            },
            RawKind::SysEx(dump) => {
                assert((pa + pb).push((b.last().0 as u64, EventModel::Sysex(sysex_frame(dump@)))) =~= pa + pb.push(
                    (b.last().0 as u64, EventModel::Sysex(sysex_frame(dump@))),
                ));
            },
            _ => {},
        }
    }
}

proof fn lemma_playable_count(s: Seq<(int, RawKind)>, track: Seq<RawEvent>)
    requires
        s.len() == track.len(),
        forall|i: int| 0 <= i < s.len() ==> #[trigger] s[i].1 == track[i].kind,
    ensures
        playable_entries(s).len() == sent_in_track(track),
    decreases s.len(),
{
    if s.len() > 0 {
        assert(s.last() == s[s.len() - 1]);
        assert forall|i: int| 0 <= i < s.drop_last().len() implies #[trigger] s.drop_last()[i].1
            == track.drop_last()[i].kind by {
            assert(s.drop_last()[i] == s[i]);
        }
        lemma_playable_count(s.drop_last(), track.drop_last());
    }
}

proof fn lemma_playable_file_count(tracks: Seq<Seq<RawEvent>>)
    ensures
        playable_entries(timed_events(tracks)).len() == sent_in_file(tracks),
    decreases tracks.len(),
{
    if tracks.len() > 0 {
        lemma_playable_file_count(tracks.drop_last());
        lemma_playable_concat(timed_events(tracks.drop_last()), timed_track(tracks.last()));
        lemma_playable_count(timed_track(tracks.last()), tracks.last());
    }
}

proof fn lemma_timed_events_hold(tracks: Seq<Seq<RawEvent>>, t: int, i: int)
    requires
        0 <= t < tracks.len(),
        0 <= i < tracks[t].len(),
    ensures
        exists|j: int|
            0 <= j < timed_events(tracks).len() && #[trigger] timed_events(tracks)[j] == (
                ticks_upto(tracks[t], (i + 1) as nat),
                tracks[t][i].kind,
            ),
    decreases tracks.len(),
{
    let d = tracks.drop_last();
    let front = timed_events(d);
    let back = timed_track(tracks.last());
    if t == tracks.len() - 1 {
        let j = front.len() + i;
        assert(timed_events(tracks)[j] == back[i]);
    } else {
        assert(d[t] == tracks[t]);
        lemma_timed_events_hold(d, t, i);
        let j = choose|j: int| 0 <= j < front.len() && #[trigger] front[j] == (
            ticks_upto(tracks[t], (i + 1) as nat),
            tracks[t][i].kind,
        );
        assert(timed_events(tracks)[j] == front[j]);
    }
}

proof fn lemma_playable_holds(s: Seq<(int, RawKind)>, j: int)
    requires
        0 <= j < s.len(),
        sent_event(s[j].1) is Some,
    ensures
        exists|q: int|
            0 <= q < playable_entries(s).len() && #[trigger] playable_entries(s)[q] == (
                s[j].0 as u64,
                sent_event(s[j].1).unwrap(),
            ),
    decreases s.len(),
{
    let rest = playable_entries(s.drop_last());
    if j == s.len() - 1 {
        assert(s.last() == s[j]);
        assert(playable_entries(s)[rest.len() as int] == (s[j].0 as u64, sent_event(s[j].1).unwrap()));
    } else {
        assert(s.drop_last()[j] == s[j]);
        lemma_playable_holds(s.drop_last(), j);
        let q = choose|q: int| 0 <= q < rest.len() && #[trigger] rest[q] == (s[j].0 as u64, sent_event(s[j].1).unwrap());
        assert(playable_entries(s)[q] == rest[q]);
    }
}

/// The event stream of a file holds one event for each channel message and
/// SysEx dump of its tracks, and nothing else.
pub proof fn lemma_stream_length(tracks: Seq<Seq<RawEvent>>, tpq: u16)
    requires
        sent_in_file(tracks) <= usize::MAX,
    ensures
        event_stream(tracks, tpq).len() == sent_in_file(tracks),
{
    lemma_playable_file_count(tracks);
    lemma_event_stream(tracks, tpq);
}

/// Every channel message and SysEx dump of the file is in the event stream:
/// event `i` of track `t`, at the absolute tick of the deltas up to it, is
/// played as its event at the time of that tick under the file's tempo map.
pub proof fn lemma_stream_holds_every_event(tracks: Seq<Seq<RawEvent>>, tpq: u16, t: int, i: int)
    requires
        ticks_fit(tracks),
        sent_in_file(tracks) <= usize::MAX,
        0 <= t < tracks.len(),
        0 <= i < tracks[t].len(),
        sent_event(tracks[t][i].kind) is Some,
    ensures
        exists|k: int|
            0 <= k < event_stream(tracks, tpq).len() && #[trigger] event_stream(tracks, tpq)[k] == (
                tick_nanos(tempo_map_of(tracks), tpq, ticks_upto(tracks[t], (i + 1) as nat)) as u128,
                sent_event(tracks[t][i].kind).unwrap(),
            ),
{
    let tick = ticks_upto(tracks[t], (i + 1) as nat);
    lemma_ticks_monotone(tracks[t], (i + 1) as nat, tracks[t].len());
    assert(0 <= tick <= u64::MAX) by {
        lemma_ticks_nonneg(tracks[t], (i + 1) as nat);
    }
    let te = timed_events(tracks);
    lemma_timed_events_hold(tracks, t, i);
    let j = choose|j: int| 0 <= j < te.len() && #[trigger] te[j] == (tick, tracks[t][i].kind);
    lemma_playable_holds(te, j);
    let pe = playable_entries(te);
    let q = choose|q: int| 0 <= q < pe.len() && #[trigger] pe[q] == (te[j].0 as u64, sent_event(te[j].1).unwrap());
    let e = timed_playable(tracks, tpq);
    assert(e[q] == (tick_nanos(tempo_map_of(tracks), tpq, tick) as u128, sent_event(tracks[t][i].kind).unwrap()));
    lemma_playable_file_count(tracks);
    lemma_stable_order_of(time_keys(e));
    let order = stable_order_of(time_keys(e));
    lemma_stable_order_covers(time_keys(e), order, q);
    let k = choose|k: int| 0 <= k < order.len() && order[k] == q;
    assert(event_stream(tracks, tpq)[k] == e[q]);
}

proof fn lemma_ticks_nonneg(track: Seq<RawEvent>, n: nat)
    requires
        n <= track.len(),
    ensures
        ticks_upto(track, n) >= 0,
    decreases n,
{
    if n > 0 {
        lemma_ticks_nonneg(track, (n - 1) as nat);
    }
}

/// The number of events of a track whose kind satisfies `pred`.
pub open spec fn count_kinds(track: Seq<RawEvent>, pred: spec_fn(RawKind) -> bool) -> nat
    decreases track.len(),
{
    if track.len() == 0 {
        0
    } else {
        count_kinds(track.drop_last(), pred) + if pred(track.last().kind) {
            1nat
        } else {
            0nat
        }
    }
}

/// The number of events of a file whose kind satisfies `pred`.
pub open spec fn count_kinds_in_file(tracks: Seq<Seq<RawEvent>>, pred: spec_fn(RawKind) -> bool) -> nat
    decreases tracks.len(),
{
    if tracks.len() == 0 {
        0
    } else {
        count_kinds_in_file(tracks.drop_last(), pred) + count_kinds(tracks.last(), pred)
    }
}

/// A tempo change.
pub open spec fn is_tempo(k: RawKind) -> bool {
    k is Tempo
}

/// A time signature.
pub open spec fn is_meter(k: RawKind) -> bool {
    k is TimeSignature
}

proof fn lemma_entries_concat(a: Seq<(int, RawKind)>, b: Seq<(int, RawKind)>)
    ensures
        tempo_entries(a + b) == tempo_entries(a) + tempo_entries(b),
        meter_entries(a + b) == meter_entries(a) + meter_entries(b),
    decreases b.len(),
{
    if b.len() == 0 {
        assert(a + b =~= a);
        assert(tempo_entries(a) + tempo_entries(b) =~= tempo_entries(a));
        assert(meter_entries(a) + meter_entries(b) =~= meter_entries(a));
    } else {
        assert((a + b).drop_last() =~= a + b.drop_last());
        assert((a + b).last() == b.last());
        lemma_entries_concat(a, b.drop_last());
        let ta = tempo_entries(a);
        let tb = tempo_entries(b.drop_last());
        let ma = meter_entries(a);
        let mb = meter_entries(b.drop_last());
        match b.last().1 {
            RawKind::Tempo(us) => {
                assert((ta + tb).push((b.last().0 as u64, us)) =~= ta + tb.push((b.last().0 as u64, us)));
            },
            RawKind::TimeSignature(num, den) => {
                assert((ma + mb).push((b.last().0 as u64, num, den)) =~= ma + mb.push((b.last().0 as u64, num, den)));
            },
            _ => {},
        }
    }
}

proof fn lemma_entries_count(s: Seq<(int, RawKind)>, track: Seq<RawEvent>)
    requires
        s.len() == track.len(),
        forall|i: int| 0 <= i < s.len() ==> #[trigger] s[i].1 == track[i].kind,
    ensures
        tempo_entries(s).len() == count_kinds(track, |k: RawKind| is_tempo(k)),
        meter_entries(s).len() == count_kinds(track, |k: RawKind| is_meter(k)),
    decreases s.len(),
{
    if s.len() > 0 {
        assert(s.last() == s[s.len() - 1]);
        assert forall|i: int| 0 <= i < s.drop_last().len() implies #[trigger] s.drop_last()[i].1
            == track.drop_last()[i].kind by {
            assert(s.drop_last()[i] == s[i]);
        }
        lemma_entries_count(s.drop_last(), track.drop_last());
    }
}

proof fn lemma_entries_file_count(tracks: Seq<Seq<RawEvent>>)
    ensures
        tempo_entries(timed_events(tracks)).len() == count_kinds_in_file(tracks, |k: RawKind| is_tempo(k)),
        meter_entries(timed_events(tracks)).len() == count_kinds_in_file(tracks, |k: RawKind| is_meter(k)),
    decreases tracks.len(),
{
    if tracks.len() > 0 {
        lemma_entries_file_count(tracks.drop_last());
        lemma_entries_concat(timed_events(tracks.drop_last()), timed_track(tracks.last()));
        lemma_entries_count(timed_track(tracks.last()), tracks.last());
    }
}

proof fn lemma_entries_hold(s: Seq<(int, RawKind)>, j: int)
    requires
        0 <= j < s.len(),
    ensures
        s[j].1 matches RawKind::Tempo(us) ==> exists|q: int|
            0 <= q < tempo_entries(s).len() && #[trigger] tempo_entries(s)[q] == (s[j].0 as u64, us),
        s[j].1 matches RawKind::TimeSignature(num, den) ==> exists|q: int|
            0 <= q < meter_entries(s).len() && #[trigger] meter_entries(s)[q] == (s[j].0 as u64, num, den),
    decreases s.len(),
{
    let tr = tempo_entries(s.drop_last());
    let mr = meter_entries(s.drop_last());
    if j == s.len() - 1 {
        assert(s.last() == s[j]);
        match s[j].1 {
            RawKind::Tempo(us) => {
                assert(tempo_entries(s)[tr.len() as int] == (s[j].0 as u64, us));
            },
            RawKind::TimeSignature(num, den) => {
                assert(meter_entries(s)[mr.len() as int] == (s[j].0 as u64, num, den));
            },
            _ => {},
        }
    } else {
        assert(s.drop_last()[j] == s[j]);
        lemma_entries_hold(s.drop_last(), j);
        match s[j].1 {
            RawKind::Tempo(us) => {
                let q = choose|q: int| 0 <= q < tr.len() && #[trigger] tr[q] == (s[j].0 as u64, us);
                assert(tempo_entries(s)[q] == tr[q]);
            },
            RawKind::TimeSignature(num, den) => {
                let q = choose|q: int| 0 <= q < mr.len() && #[trigger] mr[q] == (s[j].0 as u64, num, den);
                assert(meter_entries(s)[q] == mr[q]);
            },
            _ => {},
        }
    }
}

/// The tempo map of a file holds 120 BPM at tick 0 and one entry for each
/// tempo change of its tracks, and nothing else; the time signatures hold
/// one entry for each time signature of its tracks, and nothing else.
pub proof fn lemma_timing_lengths(tracks: Seq<Seq<RawEvent>>)
    requires
        count_kinds_in_file(tracks, |k: RawKind| is_tempo(k)) < usize::MAX,
        count_kinds_in_file(tracks, |k: RawKind| is_meter(k)) <= usize::MAX,
    ensures
        tempo_map_of(tracks).len() == 1 + count_kinds_in_file(tracks, |k: RawKind| is_tempo(k)),
        meter_map_of(tracks).len() == count_kinds_in_file(tracks, |k: RawKind| is_meter(k)),
        exists|q: int| 0 <= q < tempo_map_of(tracks).len() && #[trigger] tempo_map_of(tracks)[q] == (0u64, DEFAULT_TEMPO),
        ticks_sorted(tempo_map_of(tracks)),
        meters_sorted(meter_map_of(tracks)),
{
    lemma_entries_file_count(tracks);
    let traw = seq![(0u64, DEFAULT_TEMPO)] + tempo_entries(timed_events(tracks));
    let mraw = meter_entries(timed_events(tracks));
    lemma_stable_order_of(tempo_keys(traw));
    lemma_stable_order_of(meter_keys(mraw));
    let order = stable_order_of(tempo_keys(traw));
    lemma_stable_order_covers(tempo_keys(traw), order, 0);
    let k = choose|k: int| 0 <= k < order.len() && order[k] == 0;
    assert(tempo_map_of(tracks)[k] == traw[0]);
    let tm = tempo_map_of(tracks);
    assert forall|i: int, j: int| 0 <= i <= j < tm.len() implies #[trigger] tm[i].0 <= #[trigger] tm[j].0 by {
        if i < j {
            assert(key_before(tempo_keys(traw), order[i] as int, order[j] as int));
        }
    }
    let morder = stable_order_of(meter_keys(mraw));
    let mm = meter_map_of(tracks);
    assert forall|i: int, j: int| 0 <= i <= j < mm.len() implies #[trigger] mm[i].0 <= #[trigger] mm[j].0 by {
        if i < j {
            assert(key_before(meter_keys(mraw), morder[i] as int, morder[j] as int));
        }
    }
}

/// Every tempo change and time signature of the file's tracks is in the
/// tempo map or the time signatures, at the absolute tick of the deltas up
/// to it.
pub proof fn lemma_timing_holds_every_change(tracks: Seq<Seq<RawEvent>>, t: int, i: int)
    requires
        count_kinds_in_file(tracks, |k: RawKind| is_tempo(k)) < usize::MAX,
        count_kinds_in_file(tracks, |k: RawKind| is_meter(k)) <= usize::MAX,
        0 <= t < tracks.len(),
        0 <= i < tracks[t].len(),
    ensures
        tracks[t][i].kind matches RawKind::Tempo(us) ==> exists|q: int|
            0 <= q < tempo_map_of(tracks).len() && #[trigger] tempo_map_of(tracks)[q] == (
                ticks_upto(tracks[t], (i + 1) as nat) as u64,
                us,
            ),
        tracks[t][i].kind matches RawKind::TimeSignature(num, den) ==> exists|q: int|
            0 <= q < meter_map_of(tracks).len() && #[trigger] meter_map_of(tracks)[q] == (
                ticks_upto(tracks[t], (i + 1) as nat) as u64,
                num,
                den,
            ),
{
    let tick = ticks_upto(tracks[t], (i + 1) as nat);
    let te = timed_events(tracks);
    lemma_timed_events_hold(tracks, t, i);
    let j = choose|j: int| 0 <= j < te.len() && #[trigger] te[j] == (tick, tracks[t][i].kind);
    lemma_entries_hold(te, j);
    lemma_entries_file_count(tracks);
    match tracks[t][i].kind {
        RawKind::Tempo(us) => {
            let tr = tempo_entries(te);
            let q = choose|q: int| 0 <= q < tr.len() && #[trigger] tr[q] == (tick as u64, us);
            let traw = seq![(0u64, DEFAULT_TEMPO)] + tr;
            assert(traw[q + 1] == tr[q]);
            lemma_stable_order_of(tempo_keys(traw));
            let order = stable_order_of(tempo_keys(traw));
            lemma_stable_order_covers(tempo_keys(traw), order, q + 1);
            let k = choose|k: int| 0 <= k < order.len() && order[k] == q + 1;
            assert(tempo_map_of(tracks)[k] == traw[q + 1]);
        },
        RawKind::TimeSignature(num, den) => {
            let mr = meter_entries(te);
            let q = choose|q: int| 0 <= q < mr.len() && #[trigger] mr[q] == (tick as u64, num, den);
            lemma_stable_order_of(meter_keys(mr));
            let order = stable_order_of(meter_keys(mr));
            lemma_stable_order_covers(meter_keys(mr), order, q);
            let k = choose|k: int| 0 <= k < order.len() && order[k] == q;
            assert(meter_map_of(tracks)[k] == mr[q]);
        },
        _ => {},
    }
}

/// The stable sort of a tempo list by tick.
fn sort_tempos(m: &Vec<(u64, u32)>) -> (r: Vec<(u64, u32)>)
    ensures
        r@ == stably_sorted(m@, tempo_keys(m@)),
        r.len() == m.len(),
        ticks_sorted(r@),
{
    let mut keys: Vec<u128> = Vec::new();
    let mut i: usize = 0;
    while i < m.len()
        invariant
            i <= m.len(),
            keys@ == tempo_keys(m@).take(i as int),
        decreases m.len() - i,
    {
        keys.push(m[i].0 as u128);
        i = i + 1;
        assert(keys@ =~= tempo_keys(m@).take(i as int));
    }
    assert(keys@ =~= tempo_keys(m@));
    let order = stable_order(&keys);
    let mut r: Vec<(u64, u32)> = Vec::new();
    let mut k: usize = 0;
    while k < order.len()
        invariant
            k <= order.len(),
            is_stable_order(keys@, order@),
            keys@ == tempo_keys(m@),
            r@ == arrange(m@, order@).take(k as int),
        decreases order.len() - k,
    {
        r.push(m[order[k]]);
        k = k + 1;
        assert(r@ =~= arrange(m@, order@).take(k as int));
    }
    assert(r@ =~= arrange(m@, order@));
    assert forall|i: int, j: int| 0 <= i <= j < r@.len() implies #[trigger] r@[i].0
        <= #[trigger] r@[j].0 by {
        if i < j {
            assert(key_before(keys@, order@[i] as int, order@[j] as int));
        }
    }
    r
}

/// The stable sort of a timed event list by time.
fn sort_by_time(e: &Vec<(u128, MidiEvent)>) -> (r: Vec<(u128, MidiEvent)>)
    ensures
        r.deep_view() == stably_sorted(e.deep_view(), time_keys(e.deep_view())),
        time_sorted(r.deep_view()),
{
    let ghost ev = e.deep_view();
    let mut keys: Vec<u128> = Vec::new();
    let mut i: usize = 0;
    while i < e.len()
        invariant
            i <= e.len(),
            ev == e.deep_view(),
            keys@ == time_keys(ev).take(i as int),
        decreases e.len() - i,
    {
        keys.push(e[i].0);
        i = i + 1;
        assert(keys@ =~= time_keys(ev).take(i as int));
    }
    assert(keys@ =~= time_keys(ev));
    let order = stable_order(&keys);
    let mut r: Vec<(u128, MidiEvent)> = Vec::new();
    let mut k: usize = 0;
    while k < order.len()
        invariant
            k <= order.len(),
            ev == e.deep_view(),
            is_stable_order(keys@, order@),
            keys@ == time_keys(ev),
            r.deep_view() == arrange(ev, order@).take(k as int),
        decreases order.len() - k,
    {
        let j = order[k];
        let item = (e[j].0, e[j].1.duplicate());
        assert(item.deep_view() == ev[j as int]);
        let ghost before = r.deep_view();
        r.push(item);
        assert(r.deep_view() =~= before.push(item.deep_view()));
        k = k + 1;
        assert(r.deep_view() =~= arrange(ev, order@).take(k as int));
    }
    assert(r.deep_view() =~= arrange(ev, order@));
    assert forall|i: int, j: int| 0 <= i <= j < r.deep_view().len() implies #[trigger] r.deep_view()[i].0
        <= #[trigger] r.deep_view()[j].0 by {
        if i < j {
            assert(key_before(keys@, order@[i] as int, order@[j] as int));
        }
    }
    r
}

/// Flattens a parsed file: every track's events get absolute ticks; tempo
/// changes (after 120 BPM at tick 0) and time signatures are collected and
/// stably sorted by tick; channel messages and SysEx dumps become playback
/// events at the time of their tick, stably sorted by time.  Fails for
/// timecode timing, for 0 ticks per quarter note, and when a track's ticks
/// leave the `u64` range.
pub fn flatten(smf: &RawSmf) -> (r: Result<ParsedSmf, LoadError>)
    ensures
        flatten_result(smf@.timing, smf@.tracks, r),
        r matches Ok(p) ==> time_sorted(p.events.deep_view()),
        r matches Ok(p) ==> ticks_sorted(p.timing.tempos@) && p.timing.tempos.len() >= 1,
        r matches Ok(p) ==> p.total_length <= time_bound(),
{
    let tpq = match smf.timing {
        Some(t) => t,
        None => {
            return Err(LoadError::Timecode);
        },
    };
    if tpq == 0 {
        return Err(LoadError::ZeroTicksPerQuarter);
    }
    let ghost tracks = smf@.tracks;
    let mut tempo_changes: Vec<(u64, u32)> = Vec::new();
    tempo_changes.push((0, DEFAULT_TEMPO));
    let mut meters: Vec<(u64, u8, u8)> = Vec::new();
    let mut raw: Vec<(u64, MidiEvent)> = Vec::new();
    let n = smf.tracks.len();
    let mut t: usize = 0;
    assert(tracks.take(0) =~= Seq::<Seq<RawEvent>>::empty());
    assert(timed_events(tracks.take(0)) =~= Seq::<(int, RawKind)>::empty());
    while t < n
        invariant
            tracks == smf@.tracks,
            smf@.timing == Some(tpq),
            tpq != 0,
            n == tracks.len(),
            t <= n,
            forall|u: int| 0 <= u < t ==> ticks_upto(#[trigger] tracks[u], tracks[u].len()) <= u64::MAX,
            tempo_changes@ == seq![(0u64, DEFAULT_TEMPO)] + tempo_entries(timed_events(tracks.take(t as int))),
            meters@ == meter_entries(timed_events(tracks.take(t as int))),
            raw.deep_view() == playable_entries(timed_events(tracks.take(t as int))),
        decreases n - t,
    {
        let track = &smf.tracks[t];
        assert(track@ == tracks[t as int]);
        let ghost pre = timed_events(tracks.take(t as int));
        let ghost tt = timed_track(tracks[t as int]);
        let mut abs_tick: u64 = 0;
        let mut i: usize = 0;
        assert(pre + tt.take(0) =~= pre);
        while i < track.len()
            invariant
                tracks == smf@.tracks,
                smf@.timing == Some(tpq),
                tpq != 0,
                n == tracks.len(),
                t < n,
                track@ == tracks[t as int],
                tt == timed_track(tracks[t as int]),
                i <= track.len(),
                abs_tick == ticks_upto(track@, i as nat),
                tempo_changes@ == seq![(0u64, DEFAULT_TEMPO)] + tempo_entries(pre + tt.take(i as int)),
                meters@ == meter_entries(pre + tt.take(i as int)),
                raw.deep_view() == playable_entries(pre + tt.take(i as int)),
            decreases track.len() - i,
        {
            let ev = &track[i];
            abs_tick = match abs_tick.checked_add(ev.delta as u64) {
                Some(v) => v,
                None => {
                    proof {
                        lemma_ticks_monotone(track@, (i + 1) as nat, track@.len());
                        assert(!ticks_fit(tracks));
                    }
                    return Err(LoadError::TickOverflow);
                },
            };
            let ghost cur = pre + tt.take(i as int);
            let ghost next = pre + tt.take(i + 1);
            assert(next =~= cur.push((abs_tick as int, ev.kind)));
            assert(next.drop_last() =~= cur);
            match &ev.kind {
                RawKind::Tempo(us) => {
                    tempo_changes.push((abs_tick, *us));
                },
                RawKind::TimeSignature(num, den) => {
                    meters.push((abs_tick, *num, *den));
                },
                RawKind::Midi { channel, message } => {
                    raw.push((abs_tick, midi_message_to_event(*channel, message)));
                },
                RawKind::SysEx(data) => {
                    let mut sysex: Vec<u8> = Vec::new();
                    sysex.push(0xF0);
                    let mut k: usize = 0;
                    while k < data.len()
                        invariant
                            k <= data.len(),
                            sysex@ == seq![0xF0u8] + data@.take(k as int),
                        decreases data.len() - k,
                    {
                        sysex.push(data[k]);
                        k = k + 1;
                        assert(sysex@ =~= seq![0xF0u8] + data@.take(k as int));
                    }
                    assert(data@.take(k as int) =~= data@);
                    if sysex[sysex.len() - 1] != 0xF7 {
                        sysex.push(0xF7);
                    }
                    assert(sysex@ == sysex_frame(data@));
                    raw.push((abs_tick, MidiEvent::Sysex(sysex)));
                },
                RawKind::Other => {},
            }
            i = i + 1;
            assert(tempo_changes@ =~= seq![(0u64, DEFAULT_TEMPO)] + tempo_entries(next));
            assert(raw.deep_view() =~= playable_entries(next));
        }
        assert(tt.take(i as int) =~= tt);
        proof {
            lemma_timed_events_step(tracks, t as int);
        }
        t = t + 1;
    }
    assert(tracks.take(n as int) =~= tracks);
    assert(ticks_fit(tracks));
    let ghost all = timed_events(tracks);
    let tempos = sort_tempos(&tempo_changes);
    let meters = sorted_meters(&meters);
    assert(tempos@ == tempo_map_of(tracks));
    let ghost playable = playable_entries(all);
    let mut timed: Vec<(u128, MidiEvent)> = Vec::new();
    let mut j: usize = 0;
    while j < raw.len()
        invariant
            j <= raw.len(),
            raw.deep_view() == playable,
            ticks_sorted(tempos@),
            tempos@ == tempo_map_of(tracks),
            playable == playable_entries(timed_events(tracks)),
            timed.deep_view() == timed_playable(tracks, tpq).take(j as int),
            forall|k: int| 0 <= k < j ==> #[trigger] timed.deep_view()[k].0 <= time_bound(),
        decreases raw.len() - j,
    {
        proof {
            lemma_tick_nanos_bound(tempos@, tpq, raw[j as int].0 as int);
        }
        let when = nanos_for_tick(raw[j].0, tpq, &tempos);
        let item = (when, raw[j].1.duplicate());
        assert(raw.deep_view()[j as int] == (raw[j as int].0, raw[j as int].1.deep_view()));
        assert(item.deep_view() == timed_playable(tracks, tpq)[j as int]);
        let ghost before = timed.deep_view();
        timed.push(item);
        assert(timed.deep_view() =~= before.push(item.deep_view()));
        j = j + 1;
        assert(timed.deep_view() =~= timed_playable(tracks, tpq).take(j as int));
    }
    assert(timed.deep_view() =~= timed_playable(tracks, tpq));
    let events = sort_by_time(&timed);
    proof {
        let keys = time_keys(timed.deep_view());
        lemma_stable_order_of(keys);
        let p = stable_order_of(keys);
        assert(events.deep_view().len() == events.len());
        assert(timed.deep_view().len() == timed.len());
        assert(keys.len() == timed.len());
        assert(p.len() == keys.len());
        if events.len() > 0 {
            let last: int = events.len() - 1;
            assert(stably_sorted(timed.deep_view(), keys)[last] == timed.deep_view()[p[last] as int]);
            assert(events.deep_view()[last] == timed.deep_view()[p[last] as int]);
            assert(p[last] < timed.len());
            assert(timed.deep_view()[p[last] as int].0 <= time_bound());
            assert(events.deep_view()[last].0 == events[last].0);
        }
    }
    let total_length = if events.len() == 0 {
        0
    } else {
        events[events.len() - 1].0
    };
    Ok(ParsedSmf { events, total_length, timing: SmfTiming { tpq, tempos, meters } })
}

} // verus!
