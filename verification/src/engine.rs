//! The playback engine: a loaded song and a play / pause / stop / seek state
//! machine that hands out the events that are due.
//!
//! The engine reads a monotonic clock (nanoseconds since it was created);
//! each clock-driven operation has a twin (`*_at`) that takes the clock
//! reading as an argument and whose contract is exact.  Sending events to a
//! port is left to the caller.

use vstd::prelude::*;
use crate::event::{EventModel, MidiEvent};
use crate::flatten::{event_stream, flatten, meter_map_of, stream_length, tempo_map_of, ticks_fit, time_sorted, LoadError};
use crate::measures::{calculate_measure_map, lemma_measure_map_tiles, measure_map, tempo_stalls, tiles, time_bound, Measure};
use crate::notes::{lemma_notes_within_song, note_intervals, note_intervals_of, notes_end_by, notes_sorted, NoteData};
use crate::smf::{parse_midi_file, smf_parse, RawEvent};

verus! {

/// State of the engine.
#[derive(Clone, Copy, Debug, PartialEq, Eq, Structural)]
pub enum State {
    Stopped,
    Playing,
    Paused,
}

#[verifier::external_type_specification]
#[verifier::external_body]
pub struct ExInstant(std::time::Instant);

/// Calls `std::time::Instant::now`. Nothing is claimed of the result.
#[verifier::external_body]
fn clock_origin() -> std::time::Instant {
    std::time::Instant::now()
}

/// Calls `Instant::elapsed` on `origin` and reads it in whole nanoseconds.
/// The result depends on the time, so nothing is claimed of it.
#[verifier::external_body]
fn clock_nanos(origin: &std::time::Instant) -> u128 {
    origin.elapsed().as_nanos()
}

/// The value of a [`MidiEngine`].
pub struct EngineModel {
    /// `(time, event)` in time order.
    pub events: Seq<(u128, EventModel)>,
    /// The index of the next event to hand out.
    pub next_idx: int,
    /// While playing: a clock reading and the song position at that reading.
    pub anchor: Option<(u128, u128)>,
    pub state: State,
    /// The song position, in nanoseconds.
    pub elapsed: u128,
    pub total_length: u128,
    pub file_name: Seq<char>,
    pub measures: Seq<Measure>,
    pub notes: Seq<NoteData>,
}

/// The song position at clock reading `now`, for an anchor taken at clock
/// reading `at` with the song at position `pos`.
pub open spec fn position_at(at: u128, pos: u128, now: u128) -> int {
    pos + if now > at {
        now - at
    } else {
        0
    }
}

/// The song position `pos` clamped to `total`.
pub open spec fn clamp_position(pos: int, total: u128) -> u128 {
    if pos < total {
        pos as u128
    } else {
        total
    }
}

/// The index of the first event at or after `pos` (`strict`) or after `pos`
/// (not `strict`), in a time-ordered stream.
pub open spec fn is_partition_point(events: Seq<(u128, EventModel)>, pos: int, strict: bool, p: int) -> bool {
    &&& 0 <= p <= events.len()
    &&& forall|k: int| 0 <= k < p ==> if strict {
        #[trigger] events[k].0 < pos
    } else {
        events[k].0 <= pos
    }
    &&& forall|k: int| p <= k < events.len() ==> if strict {
        #[trigger] events[k].0 >= pos
    } else {
        events[k].0 > pos
    }
}

/// The events handed out by a tick that reaches position `pos` from
/// `next_idx`: the index just past them.
pub open spec fn is_due_end(events: Seq<(u128, EventModel)>, next_idx: int, pos: int, j: int) -> bool {
    &&& next_idx <= j <= events.len()
    &&& forall|k: int| next_idx <= k < j ==> #[trigger] events[k].0 <= pos
    &&& j == events.len() || events[j].0 > pos
}

/// The events of the stream from index `a` up to (not including) `b`.
pub open spec fn events_between(s: Seq<(u128, EventModel)>, a: int, b: int) -> Seq<EventModel> {
    Seq::new((b - a) as nat, |k: int| s[a + k].1)
}

/// The icon of the play/pause button: "pause" while playing, "play"
/// otherwise.
pub fn transport_icon_name(state: State) -> (r: &'static str)
    ensures
        r@ == if state == State::Playing {
            "media-playback-pause-symbolic"@
        } else {
            "media-playback-start-symbolic"@
        },
{
    match state {
        State::Playing => "media-playback-pause-symbolic",
        _ => "media-playback-start-symbolic",
    }
}

/// The first density bin a note falls into: `⌊time · bins / total⌋`.
pub open spec fn first_bin(n: NoteData, total: u128, bins: int) -> int {
    (n.time * bins) / (total as int)
}

/// One past the last density bin a note reaches:
/// `⌈(time + duration) · bins / total⌉`, at most `bins`.
pub open spec fn end_bin(n: NoteData, total: u128, bins: int) -> int {
    let c = ((n.time + n.duration) * bins + total - 1) / (total as int);
    if c < bins {
        c
    } else {
        bins
    }
}

/// The number of notes that reach density bin `i`.
pub open spec fn bin_count(notes: Seq<NoteData>, total: u128, bins: int, i: int) -> nat
    decreases notes.len(),
{
    if notes.len() == 0 {
        0
    } else {
        let n = notes.last();
        bin_count(notes.drop_last(), total, bins, i) + if first_bin(n, total, bins) <= i < end_bin(n, total, bins) {
            1nat
        } else {
            0nat
        }
    }
}

/// `x · b` divided by `t`, as quotient and remainder, without leaving the
/// `u128` range: the bits of `b` are taken from the most significant down.
fn mul_div(x: u128, b: u64, t: u128) -> (r: (u64, u128))
    requires
        0 < t <= time_bound(),
        x <= t,
    ensures
        r.0 * t + r.1 == x * b,
        r.1 < t,
        r.0 <= b,
    decreases b,
{
    if b == 0 {
        assert(x * b == 0);
        return (0, 0);
    }
    let half = b / 2;
    let (q1, r1) = mul_div(x, half, t);
    let s: u128 = if b % 2 == 1 {
        2 * r1 + x
    } else {
        2 * r1
    };
    let ghost bit: int = (b % 2) as int;
    let ghost q: int = 2 * q1 + s / t;
    proof {
        assert(s == 2 * r1 + bit * x) by (nonlinear_arith)
            requires
                bit == 0 || bit == 1,
                bit == 1 ==> s == 2 * r1 + x,
                bit == 0 ==> s == 2 * r1,
        ;
        assert(s / t <= 2) by (nonlinear_arith)
            requires
                s < 3 * t,
                t > 0,
                s >= 0,
        ;
        assert(s == (s / t) * t + s % t) by (nonlinear_arith)
            requires
                t > 0,
        ;
        assert(x * b == 2 * (x * half) + bit * x) by (nonlinear_arith)
            requires
                b == 2 * half + bit,
        ;
        assert(q * t + s % t == x * b) by (nonlinear_arith)
            requires
                q == 2 * q1 + s / t,
                s == (s / t) * t + s % t,
                q1 * t + r1 == x * half,
                s == 2 * r1 + bit * x,
                x * b == 2 * (x * half) + bit * x,
        ;
        assert(q <= b) by (nonlinear_arith)
            requires
                q * t + s % t == x * b,
                s % t >= 0,
                x <= t,
                t > 0,
                b >= 0,
        ;
    }
    (2 * q1 + (s / t) as u64, s % t)
}

/// The first and one-past-last density bins of a note, computed.
fn note_bins(n: NoteData, total: u128, bins: usize) -> (r: (usize, usize))
    requires
        0 < total <= time_bound(),
        n.time + n.duration <= total,
        bins > 0,
    ensures
        r.0 == first_bin(n, total, bins as int),
        r.1 == end_bin(n, total, bins as int),
        r.0 <= bins,
        r.1 <= bins,
{
    let (lo, lo_rem) = mul_div(n.time, bins as u64, total);
    proof {
        vstd::arithmetic::div_mod::lemma_fundamental_div_mod_converse(n.time * bins, total as int, lo as int, lo_rem as int);
    }
    let end = n.time + n.duration;
    let (hq, hr) = mul_div(end, bins as u64, total);
    let up: u64 = if hr > 0 {
        1
    } else {
        0
    };
    proof {
        if hr > 0 {
            assert(end * bins + total - 1 == (hq + 1) * total + (hr - 1)) by (nonlinear_arith)
                requires
                    hq * total + hr == end * bins,
            ;
            vstd::arithmetic::div_mod::lemma_fundamental_div_mod_converse(
                end * bins + total - 1,
                total as int,
                hq + 1,
                hr - 1,
            );
        } else {
            vstd::arithmetic::div_mod::lemma_fundamental_div_mod_converse(
                end * bins + total - 1,
                total as int,
                hq as int,
                total - 1,
            );
        }
    }
    let hi: usize = if hq < bins as u64 && hq + up < bins as u64 {
        (hq + up) as usize
    } else {
        bins
    };
    (lo as usize, hi)
}

/// Note `n` reaches density bin `i` of `bins` equal slices of a song of
/// `total` nanoseconds: it starts in or before that slice, and its end lies
/// after the slice begins.
pub open spec fn reaches_bin(n: NoteData, total: u128, bins: int, i: int) -> bool {
    &&& (n.time * bins) / (total as int) <= i
    &&& i * total < (n.time + n.duration) * bins
}

/// Each density bin counts exactly the notes that reach into its slice of
/// the song.
pub proof fn lemma_density_bins(notes: Seq<NoteData>, total: u128, bins: int, i: int)
    requires
        total > 0,
        0 <= i < bins,
    ensures
        bin_count(notes, total, bins, i) == notes.filter(|n: NoteData| reaches_bin(n, total, bins, i)).len(),
    decreases notes.len(),
{
    let pred = |n: NoteData| reaches_bin(n, total, bins, i);
    if notes.len() > 0 {
        lemma_density_bins(notes.drop_last(), total, bins, i);
        let n = notes.last();
        let x = (n.time + n.duration) * bins;
        let t = total as int;
        let c = (x + t - 1) / t;
        assert(x + t - 1 == c * t + (x + t - 1) % t && 0 <= (x + t - 1) % t < t) by {
            vstd::arithmetic::div_mod::lemma_fundamental_div_mod(x + t - 1, t);
            vstd::arithmetic::div_mod::lemma_mod_pos_bound(x + t - 1, t);
        }
        assert((i < c) == (i * t < x)) by (nonlinear_arith)
            requires
                x + t - 1 == c * t + (x + t - 1) % t,
                0 <= (x + t - 1) % t < t,
                t > 0,
                x >= 0,
        ;
        assert((first_bin(n, total, bins) <= i < end_bin(n, total, bins)) == pred(n));
        reveal(Seq::filter);
        assert(notes.filter(pred) == if pred(n) {
            notes.drop_last().filter(pred).push(n)
        } else {
            notes.drop_last().filter(pred)
        });
    }
}

/// The model of a stopped engine holding `m`'s song.
pub open spec fn stopped(m: EngineModel) -> EngineModel {
    EngineModel { anchor: None, elapsed: 0, next_idx: 0, state: State::Stopped, ..m }
}

/// Why the song of a parsed file cannot be played (none when it can).
pub open spec fn song_error(timing: Option<u16>, tracks: Seq<Seq<RawEvent>>) -> Option<LoadError> {
    match timing {
        None => Some(LoadError::Timecode),
        Some(tpq) => if tpq == 0 {
            Some(LoadError::ZeroTicksPerQuarter)
        } else if !ticks_fit(tracks) {
            Some(LoadError::TickOverflow)
        } else if song_stalls(tracks, tpq) {
            Some(LoadError::TempoStall)
        } else {
            None
        },
    }
}

/// The tempo map of the tracks stops time before the measure map of their
/// song can end.
pub open spec fn song_stalls(tracks: Seq<Seq<RawEvent>>, tpq: u16) -> bool {
    tempo_stalls(tempo_map_of(tracks), tpq, stream_length(event_stream(tracks, tpq)) as int)
}

/// The model of an engine that has just loaded the song of a parsed file
/// (stopped at the start).
pub open spec fn loaded(
    m: EngineModel,
    tracks: Seq<Seq<RawEvent>>,
    tpq: u16,
    file_name: Seq<char>,
) -> EngineModel {
    let events = event_stream(tracks, tpq);
    let total = stream_length(events);
    EngineModel {
        events,
        next_idx: 0,
        anchor: None,
        state: State::Stopped,
        elapsed: 0,
        total_length: total,
        file_name,
        measures: measure_map(tpq, tempo_map_of(tracks), meter_map_of(tracks), total as int),
        notes: note_intervals_of(events, total),
    }
}

/// The MIDI playback engine.
pub struct MidiEngine {
    events: Vec<(u128, MidiEvent)>,
    next_idx: usize,
    clock: std::time::Instant,
    anchor: Option<(u128, u128)>,
    state: State,
    elapsed: u128,
    total_length: u128,
    file_name: String,
    measures: Vec<Measure>,
    notes: Vec<NoteData>,
}

impl View for MidiEngine {
    type V = EngineModel;

    closed spec fn view(&self) -> EngineModel {
        EngineModel {
            events: self.events.deep_view(),
            next_idx: self.next_idx as int,
            anchor: self.anchor,
            state: self.state,
            elapsed: self.elapsed,
            total_length: self.total_length,
            file_name: self.file_name@,
            measures: self.measures@,
            notes: self.notes@,
        }
    }
}

impl MidiEngine {
    /// The engine's invariant: the events are in time order, the song ends
    /// with its last event, the position lies within the song, and the next
    /// event index lies within the stream.
    pub open spec fn wf(&self) -> bool {
        let m = self@;
        &&& time_sorted(m.events)
        &&& m.total_length == stream_length(m.events)
        &&& m.elapsed <= m.total_length
        &&& 0 <= m.next_idx <= m.events.len()
        &&& m.total_length <= time_bound()
        &&& tiles(m.measures)
        &&& notes_end_by(m.notes, m.total_length)
        &&& notes_sorted(m.notes)
    }

    /// An engine with no song, stopped.
    pub fn new() -> (r: Self)
        ensures
            r.wf(),
            r@.events.len() == 0,
            r@.next_idx == 0,
            r@.anchor is None,
            r@.state == State::Stopped,
            r@.elapsed == 0,
            r@.total_length == 0,
            r@.file_name.len() == 0,
            r@.measures.len() == 0,
            r@.notes.len() == 0,
    {
        let r = MidiEngine {
            events: Vec::new(),
            next_idx: 0,
            clock: clock_origin(),
            anchor: None,
            state: State::Stopped,
            elapsed: 0,
            total_length: 0,
            file_name: String::new(),
            measures: Vec::new(),
            notes: Vec::new(),
        };
        assert(r@.events =~= Seq::<(u128, EventModel)>::empty());
        r
    }

    /// Loads the MIDI file `data` (named `file_name`): parses it, flattens
    /// it into the event stream, lays out the measure map and the note
    /// intervals, then stops and takes the new song.  A failed load leaves
    /// the engine as it was.
    pub fn load(&mut self, data: &[u8], file_name: String) -> (r: Result<String, LoadError>)
        requires
            old(self).wf(),
        ensures
            final(self).wf(),
            match smf_parse(data@) {
                Err(msg) => r matches Err(LoadError::Parse(text)) && text@ == msg
                    && final(self)@ == old(self)@,
                Ok((timing, tracks)) => match song_error(timing, tracks) {
                    Some(e) => r == Err::<String, LoadError>(e) && final(self)@ == old(self)@,
                    None => r matches Ok(name) && name@ == file_name@
                        && final(self)@ == loaded(old(self)@, tracks, timing.unwrap(), file_name@),
                },
            },
    {
        let raw = match parse_midi_file(data) {
            Ok(raw) => raw,
            Err(msg) => {
                return Err(LoadError::Parse(msg));
            },
        };
        let parsed = match flatten(&raw) {
            Ok(p) => p,
            Err(e) => {
                return Err(e);
            },
        };
        let tpq = parsed.timing.tpq;
        let tempos = &parsed.timing.tempos;
        let ghost tracks = raw@.tracks;
        proof {
            assert(tempos@ == tempo_map_of(tracks));
        }
        let measures = match calculate_measure_map(tpq, tempos, &parsed.timing.meters, parsed.total_length) {
            Ok(ms) => ms,
            Err(e) => {
                return Err(e);
            },
        };
        let notes = note_intervals(&parsed.events, parsed.total_length);
        proof {
            lemma_measure_map_tiles(tpq, tempos@, parsed.timing.meters@, parsed.total_length);
            let evs = parsed.events.deep_view();
            assert forall|i: int| 0 <= i < evs.len() implies #[trigger] evs[i].0 <= parsed.total_length by {
                assert(evs[i].0 <= evs[evs.len() - 1].0);
            }
            assert(evs.len() == parsed.events.len());
            lemma_notes_within_song(evs, parsed.total_length);
        }
        self.stop();
        self.measures = measures;
        self.notes = notes;
        self.events = parsed.events;
        self.total_length = parsed.total_length;
        self.file_name = file_name;
        Ok(self.file_name.clone())
    }

    /// Starts (or resumes) playback at the current position, reading the
    /// clock.  Does nothing without a song or while playing; at the end of
    /// the song it rewinds to the start first.
    pub fn play(&mut self)
        requires
            old(self).wf(),
        ensures
            final(self).wf(),
            exists|now: u128| final(self)@ == play_model(old(self)@, now),
    {
        let now = clock_nanos(&self.clock);
        self.play_at(now);
    }

    /// [`MidiEngine::play`] at clock reading `now`.
    pub fn play_at(&mut self, now: u128)
        requires
            old(self).wf(),
        ensures
            final(self).wf(),
            final(self)@ == play_model(old(self)@, now),
    {
        if self.events.len() == 0 || self.state == State::Playing {
            return;
        }
        if self.total_length > 0 && self.elapsed >= self.total_length {
            self.elapsed = 0;
            self.next_idx = 0;
        }
        self.anchor = Some((now, self.elapsed));
        self.state = State::Playing;
    }

    /// Pauses playback, reading the clock; returns whether it paused (then
    /// the sounding notes must be silenced).  Only a playing engine pauses:
    /// the position is taken from the clock (clamped to the song) and the
    /// next event is the first one after it.
    pub fn pause(&mut self) -> (r: bool)
        requires
            old(self).wf(),
        ensures
            final(self).wf(),
            r == (old(self)@.state == State::Playing),
            exists|now: u128| pause_model(old(self)@, now, final(self)@),
    {
        let now = clock_nanos(&self.clock);
        self.pause_at(now)
    }

    /// [`MidiEngine::pause`] at clock reading `now`.
    pub fn pause_at(&mut self, now: u128) -> (r: bool)
        requires
            old(self).wf(),
        ensures
            final(self).wf(),
            r == (old(self)@.state == State::Playing),
            pause_model(old(self)@, now, final(self)@),
    {
        if self.state != State::Playing {
            return false;
        }
        if let Some((at, pos)) = self.anchor {
            let since = if now > at {
                now - at
            } else {
                0
            };
            let reached = pos.saturating_add(since);
            self.elapsed = if reached < self.total_length {
                reached
            } else {
                self.total_length
            };
            self.next_idx = partition_point(&self.events, self.elapsed, false);
        }
        self.state = State::Paused;
        true
    }

    /// Toggles between playing and paused (a stopped engine starts playing),
    /// reading the clock; returns whether it paused.
    pub fn toggle_play_pause(&mut self) -> (r: bool)
        requires
            old(self).wf(),
        ensures
            final(self).wf(),
            r == (old(self)@.state == State::Playing),
            exists|now: u128| if old(self)@.state == State::Playing {
                pause_model(old(self)@, now, final(self)@)
            } else {
                final(self)@ == play_model(old(self)@, now)
            },
    {
        let now = clock_nanos(&self.clock);
        self.toggle_play_pause_at(now)
    }

    /// [`MidiEngine::toggle_play_pause`] at clock reading `now`.
    pub fn toggle_play_pause_at(&mut self, now: u128) -> (r: bool)
        requires
            old(self).wf(),
        ensures
            final(self).wf(),
            r == (old(self)@.state == State::Playing),
            if old(self)@.state == State::Playing {
                pause_model(old(self)@, now, final(self)@)
            } else {
                final(self)@ == play_model(old(self)@, now)
            },
    {
        match self.state {
            State::Playing => self.pause_at(now),
            _ => {
                self.play_at(now);
                false
            },
        }
    }

    /// Stops playback and rewinds to the start (the sounding notes must be
    /// silenced).
    pub fn stop(&mut self)
        requires
            old(self).wf(),
        ensures
            final(self).wf(),
            final(self)@ == stopped(old(self)@),
    {
        self.anchor = None;
        self.elapsed = 0;
        self.next_idx = 0;
        self.state = State::Stopped;
    }

    /// Moves to `position` nanoseconds (clamped to the song), reading the
    /// clock; the sounding notes must be silenced.
    pub fn seek(&mut self, position: u128)
        requires
            old(self).wf(),
        ensures
            final(self).wf(),
            exists|now: u128| seek_model(old(self)@, position, now, final(self)@),
    {
        let now = clock_nanos(&self.clock);
        self.seek_at(position, now);
    }

    /// [`MidiEngine::seek`] at clock reading `now`: the position becomes
    /// `position` clamped to the song and the next event is the first one at
    /// or after it; a playing engine keeps playing from there, a stopped one
    /// stays stopped, a paused one stays paused.
    pub fn seek_at(&mut self, position: u128, now: u128)
        requires
            old(self).wf(),
        ensures
            final(self).wf(),
            seek_model(old(self)@, position, now, final(self)@),
    {
        let position = if position < self.total_length {
            position
        } else {
            self.total_length
        };
        self.elapsed = position;
        self.next_idx = partition_point(&self.events, position, true);
        match self.state {
            State::Playing => {
                self.anchor = Some((now, position));
            },
            State::Stopped => {
                self.anchor = None;
            },
            State::Paused => {},
        }
    }

    /// Hands out the events that are due, reading the clock.
    pub fn tick(&mut self) -> (r: Vec<MidiEvent>)
        requires
            old(self).wf(),
        ensures
            final(self).wf(),
            exists|now: u128| tick_model(old(self)@, now, final(self)@, r.deep_view()),
    {
        let now = clock_nanos(&self.clock);
        self.tick_at(now)
    }

    /// [`MidiEngine::tick`] at clock reading `now`: while playing, the
    /// position moves to where the clock says and every event from the next
    /// one up to that position is handed out, in order; after the last
    /// event the engine stops at the end of the song.
    pub fn tick_at(&mut self, now: u128) -> (r: Vec<MidiEvent>)
        requires
            old(self).wf(),
        ensures
            final(self).wf(),
            tick_model(old(self)@, now, final(self)@, r.deep_view()),
    {
        let mut due: Vec<MidiEvent> = Vec::new();
        if self.state != State::Playing {
            return due;
        }
        let (at, pos) = match self.anchor {
            Some(a) => a,
            None => {
                return due;
            },
        };
        let since = if now > at {
            now - at
        } else {
            0
        };
        let new_elapsed = pos.saturating_add(since);
        let ghost start = self.next_idx as int;
        let ghost evs = self.events.deep_view();
        let mut idx = self.next_idx;
        let len = self.events.len();
        while idx < len && self.events[idx].0 <= new_elapsed
            invariant
                evs == self.events.deep_view(),
                len == self.events.len(),
                evs.len() == len,
                start <= idx <= len,
                forall|k: int| start <= k < idx ==> #[trigger] evs[k].0 <= new_elapsed,
                due.deep_view() == events_between(evs, start, idx as int),
            decreases len - idx,
        {
            let ev = self.events[idx].1.duplicate();
            assert(ev.deep_view() == evs[idx as int].1);
            let ghost before = due.deep_view();
            due.push(ev);
            assert(due.deep_view() =~= before.push(evs[idx as int].1));
            idx = idx + 1;
            assert(due.deep_view() =~= events_between(evs, start, idx as int));
        }
        self.next_idx = idx;
        if idx < len {
            assert(evs[idx as int].0 <= evs[evs.len() - 1].0);
            self.elapsed = new_elapsed;
        } else {
            self.state = State::Stopped;
            self.elapsed = self.total_length;
        }
        due
    }

    /// How many notes sound in each of `bins` equal slices of the song
    /// (all zero without notes, for a song of length 0, or for 0 bins).
    pub fn note_density_counts(&self, bins: usize) -> (r: Vec<u64>)
        requires
            self.wf(),
        ensures
            r.len() == bins,
            forall|i: int| 0 <= i < bins ==> #[trigger] r[i] == if self@.notes.len() == 0 || self@.total_length == 0 {
                0
            } else {
                bin_count(self@.notes, self@.total_length, bins as int, i)
            },
    {
        let mut counts: Vec<u64> = Vec::new();
        let mut b: usize = 0;
        while b < bins
            invariant
                b <= bins,
                counts.len() == b,
                forall|i: int| 0 <= i < b ==> #[trigger] counts[i] == 0,
            decreases bins - b,
        {
            counts.push(0);
            b = b + 1;
        }
        if self.notes.len() == 0 || self.total_length == 0 || bins == 0 {
            return counts;
        }
        let total = self.total_length;
        let ghost notes = self.notes@;
        let mut k: usize = 0;
        assert forall|i: int| 0 <= i < bins implies #[trigger] counts[i] == bin_count(notes.take(0), total, bins as int, i) by {
            assert(notes.take(0).len() == 0);
        }
        while k < self.notes.len()
            invariant
                self.wf(),
                notes == self.notes@,
                total == self.total_length,
                total > 0,
                0 < bins,
                k <= notes.len(),
                counts.len() == bins,
                forall|i: int| 0 <= i < bins ==> #[trigger] counts[i] == bin_count(notes.take(k as int), total, bins as int, i),
                forall|i: int| 0 <= i < bins ==> #[trigger] counts[i] <= k,
            decreases notes.len() - k,
        {
            let n = self.notes[k];
            assert(n.time + n.duration <= total);
            let (lo, hi) = note_bins(n, total, bins);
            let ghost before = counts@;
            let mut j: usize = lo;
            while j < hi
                invariant
                    lo <= bins,
                    hi <= bins,
                    lo <= j <= bins,
                    j <= hi || j == lo,
                    counts.len() == bins,
                    forall|i: int| 0 <= i < bins ==> #[trigger] counts[i] == before[i] + if lo <= i < j {
                        1int
                    } else {
                        0int
                    },
                    forall|i: int| 0 <= i < bins ==> #[trigger] before[i] <= k,
                    k < notes.len() <= usize::MAX,
                decreases hi - j,
            {
                let c = counts[j] + 1;
                counts.set(j, c);
                j = j + 1;
            }
            k = k + 1;
            assert forall|i: int| 0 <= i < bins implies #[trigger] counts[i] == bin_count(
                notes.take(k as int),
                total,
                bins as int,
                i,
            ) by {
                assert(notes.take(k as int).drop_last() =~= notes.take(k - 1));
                assert(notes.take(k as int).last() == n);
            }
        }
        assert(notes.take(k as int) =~= notes);
        counts
    }

    /// The state of the engine.
    pub fn state(&self) -> (r: State)
        ensures
            r == self@.state,
    {
        self.state
    }

    /// The song position, in nanoseconds.
    pub fn elapsed(&self) -> (r: u128)
        ensures
            r == self@.elapsed,
    {
        self.elapsed
    }

    /// The length of the song (the time of its last event), in nanoseconds.
    pub fn total_length(&self) -> (r: u128)
        ensures
            r == self@.total_length,
    {
        self.total_length
    }

    /// The name of the loaded file.
    pub fn file_name(&self) -> (r: &str)
        ensures
            r@ == self@.file_name,
    {
        self.file_name.as_str()
    }

    /// The measure map of the song.
    pub fn measures(&self) -> (r: &[Measure])
        ensures
            r@ == self@.measures,
    {
        self.measures.as_slice()
    }

    /// The note intervals of the song.
    pub fn notes(&self) -> (r: &[NoteData])
        ensures
            r@ == self@.notes,
    {
        self.notes.as_slice()
    }
}

/// The model after `play` at clock reading `now`.
pub open spec fn play_model(m: EngineModel, now: u128) -> EngineModel {
    if m.events.len() == 0 || m.state == State::Playing {
        m
    } else {
        let rewind = m.total_length > 0 && m.elapsed >= m.total_length;
        let elapsed: u128 = if rewind {
            0
        } else {
            m.elapsed
        };
        EngineModel {
            elapsed,
            next_idx: if rewind {
                0
            } else {
                m.next_idx
            },
            anchor: Some((now, elapsed)),
            state: State::Playing,
            ..m
        }
    }
}

/// `n` is the model after `pause` of `m` at clock reading `now`.
pub open spec fn pause_model(m: EngineModel, now: u128, n: EngineModel) -> bool {
    if m.state != State::Playing {
        n == m
    } else {
        match m.anchor {
            None => n == EngineModel { state: State::Paused, ..m },
            Some((at, pos)) => {
                let elapsed = clamp_position(position_at(at, pos, now), m.total_length);
                &&& is_partition_point(m.events, elapsed as int, false, n.next_idx)
                &&& n == EngineModel { state: State::Paused, elapsed, next_idx: n.next_idx, ..m }
            },
        }
    }
}

/// `n` is the model after `seek(position)` of `m` at clock reading `now`.
pub open spec fn seek_model(m: EngineModel, position: u128, now: u128, n: EngineModel) -> bool {
    let pos = clamp_position(position as int, m.total_length);
    &&& is_partition_point(m.events, pos as int, true, n.next_idx)
    &&& n == EngineModel {
        elapsed: pos,
        next_idx: n.next_idx,
        anchor: match m.state {
            State::Playing => Some((now, pos)),
            State::Stopped => None,
            State::Paused => m.anchor,
        },
        ..m
    }
}

/// `n` is the model after `tick` of `m` at clock reading `now`, which
/// handed out the events `due`.
pub open spec fn tick_model(m: EngineModel, now: u128, n: EngineModel, due: Seq<EventModel>) -> bool {
    if m.state != State::Playing || m.anchor is None {
        n == m && due.len() == 0
    } else {
        let (at, pos) = m.anchor.unwrap();
        let reached = clamp_position(position_at(at, pos, now), u128::MAX);
        let j = n.next_idx;
        &&& is_due_end(m.events, m.next_idx, reached as int, j)
        &&& due == events_between(m.events, m.next_idx, j)
        &&& if j < m.events.len() {
            n == EngineModel { next_idx: j, elapsed: reached, ..m }
        } else {
            n == EngineModel { next_idx: j, elapsed: m.total_length, state: State::Stopped, ..m }
        }
    }
}

/// A tick of a playing engine holds nothing back: it hands out, in order,
/// every event from the next one up to the position the clock reading gives,
/// and every event it leaves lies after that position.
pub proof fn lemma_tick_leaves_nothing_due(m: EngineModel, now: u128, n: EngineModel, due: Seq<EventModel>)
    requires
        tick_model(m, now, n, due),
        m.state == State::Playing,
        m.anchor is Some,
        0 <= m.next_idx <= m.events.len(),
        time_sorted(m.events),
    ensures
        due.len() == n.next_idx - m.next_idx,
        forall|k: int| 0 <= k < due.len() ==> #[trigger] due[k] == m.events[m.next_idx + k].1,
        forall|k: int| m.next_idx <= k < n.next_idx ==> #[trigger] m.events[k].0 <= position_at(
            m.anchor.unwrap().0,
            m.anchor.unwrap().1,
            now,
        ),
        forall|k: int| n.next_idx <= k < m.events.len() ==> #[trigger] m.events[k].0 > position_at(
            m.anchor.unwrap().0,
            m.anchor.unwrap().1,
            now,
        ),
{
    let (at, pos) = m.anchor.unwrap();
    let reached = clamp_position(position_at(at, pos, now), u128::MAX);
    assert forall|k: int| n.next_idx <= k < m.events.len() implies #[trigger] m.events[k].0 > position_at(at, pos, now) by {
        assert(m.events[n.next_idx].0 > reached);
        assert(m.events[n.next_idx].0 <= m.events[k].0);
    }
}

/// A seek works in every state: the song position becomes the sought
/// position (at most the song's length), the next event is the first one at
/// or after it, and the state stays; a play that follows from a stopped or
/// paused engine (not at the end) resumes from the sought position.
pub proof fn lemma_seek_sets_position(m: EngineModel, position: u128, now: u128, n: EngineModel)
    requires
        seek_model(m, position, now, n),
    ensures
        n.elapsed == if position < m.total_length {
            position
        } else {
            m.total_length
        },
        n.state == m.state,
        n.events == m.events,
        0 <= n.next_idx <= m.events.len(),
        forall|k: int| 0 <= k < n.next_idx ==> #[trigger] m.events[k].0 < n.elapsed,
        forall|k: int| n.next_idx <= k < m.events.len() ==> #[trigger] m.events[k].0 >= n.elapsed,
        forall|now2: u128|
            m.state != State::Playing && m.events.len() > 0 && (n.elapsed < m.total_length || m.total_length == 0)
                ==> #[trigger] play_model(n, now2).anchor == Some((now2, n.elapsed)) && play_model(n, now2).next_idx
                == n.next_idx && play_model(n, now2).elapsed == n.elapsed,
{
}

/// Consecutive ticks hand out the stream once, in order: what two ticks in
/// a row hand out is exactly the run of events from where the first began
/// to where the second stopped.
pub proof fn lemma_consecutive_ticks(
    m: EngineModel,
    now1: u128,
    n1: EngineModel,
    d1: Seq<EventModel>,
    now2: u128,
    n2: EngineModel,
    d2: Seq<EventModel>,
)
    requires
        tick_model(m, now1, n1, d1),
        tick_model(n1, now2, n2, d2),
        0 <= m.next_idx <= m.events.len(),
    ensures
        n2.events == m.events,
        m.next_idx <= n2.next_idx <= m.events.len(),
        d1 + d2 == events_between(m.events, m.next_idx, n2.next_idx),
{
    if m.state != State::Playing || m.anchor is None {
        assert(d1 + d2 =~= d2);
        if !(n1.state != State::Playing || n1.anchor is None) {
            assert(d2 =~= events_between(m.events, m.next_idx, n2.next_idx));
        } else {
            assert(d2 =~= events_between(m.events, m.next_idx, n2.next_idx));
        }
    } else if n1.state != State::Playing || n1.anchor is None {
        assert(d1 + d2 =~= events_between(m.events, m.next_idx, n2.next_idx));
    } else {
        assert(d1 + d2 =~= events_between(m.events, m.next_idx, n2.next_idx));
    }
}

/// After a seek, no event before the new position is handed out: the next
/// tick of a playing engine hands out a run of events that all lie at or
/// after the (clamped) position.
pub proof fn lemma_seek_then_tick(
    m: EngineModel,
    position: u128,
    now1: u128,
    n1: EngineModel,
    now2: u128,
    n2: EngineModel,
    due: Seq<EventModel>,
)
    requires
        m.state == State::Playing,
        seek_model(m, position, now1, n1),
        tick_model(n1, now2, n2, due),
    ensures
        forall|k: int| 0 <= k < n1.next_idx ==> #[trigger] m.events[k].0 < clamp_position(position as int, m.total_length),
        forall|k: int| n1.next_idx <= k < n2.next_idx ==> #[trigger] m.events[k].0 >= clamp_position(position as int, m.total_length),
        due == events_between(m.events, n1.next_idx, n2.next_idx),
{
}

/// Resuming continues from the paused position: after a pause (before the
/// end of the song) and a resume, the next tick hands out exactly the events
/// after the paused position, up to the paused position plus the clock time
/// since the resume.
pub proof fn lemma_pause_resume(
    m: EngineModel,
    now1: u128,
    n1: EngineModel,
    now2: u128,
    now3: u128,
    n3: EngineModel,
    due: Seq<EventModel>,
)
    requires
        m.state == State::Playing,
        m.anchor is Some,
        m.events.len() > 0,
        pause_model(m, now1, n1),
        n1.elapsed < n1.total_length,
        tick_model(play_model(n1, now2), now3, n3, due),
    ensures
        due == events_between(m.events, n1.next_idx, n3.next_idx),
        forall|k: int| n1.next_idx <= k < n3.next_idx ==> n1.elapsed < #[trigger] m.events[k].0
            && m.events[k].0 <= position_at(now2, n1.elapsed, now3),
{
}

/// Stopping rewinds: after a stop and a play, the first tick hands out
/// exactly the events from the start of the song up to the clock time since
/// playing began.
pub proof fn lemma_stop_then_play(m: EngineModel, now1: u128, now2: u128, n: EngineModel, due: Seq<EventModel>)
    requires
        m.events.len() > 0,
        tick_model(play_model(stopped(m), now1), now2, n, due),
    ensures
        due == events_between(m.events, 0, n.next_idx),
        forall|k: int| 0 <= k < n.next_idx ==> #[trigger] m.events[k].0 <= position_at(now1, 0, now2),
{
}

/// `ms` are the models of an engine through a run of ticks from `m`: tick
/// `i`, at clock reading `nows[i]`, takes `ms[i]` to `ms[i + 1]` and hands
/// out `dues[i]`.
pub open spec fn tick_run(m: EngineModel, nows: Seq<u128>, ms: Seq<EngineModel>, dues: Seq<Seq<EventModel>>) -> bool {
    &&& ms.len() == nows.len() + 1
    &&& dues.len() == nows.len()
    &&& ms[0] == m
    &&& forall|i: int| #![trigger dues[i]] 0 <= i < nows.len() ==> tick_model(ms[i], nows[i], ms[i + 1], dues[i])
}

/// Any run of ticks hands out the stream once, in order: together the ticks
/// hand out exactly the run of events from where the first began to where
/// the last stopped; every event comes from a tick whose clock reading puts
/// the song at or past it; and the run ends playing from the same anchor, or
/// stopped at the end of the stream (a run that does not start playing
/// changes nothing).
pub proof fn lemma_tick_run(m: EngineModel, nows: Seq<u128>, ms: Seq<EngineModel>, dues: Seq<Seq<EventModel>>)
    requires
        tick_run(m, nows, ms, dues),
        0 <= m.next_idx <= m.events.len(),
    ensures
        ms.last().events == m.events,
        ms.last().anchor == m.anchor,
        m.next_idx <= ms.last().next_idx <= m.events.len(),
        dues.flatten() == events_between(m.events, m.next_idx, ms.last().next_idx),
        m.state != State::Playing || m.anchor is None ==> ms.last() == m,
        m.state == State::Playing ==> ms.last().state == State::Playing || (ms.last().state == State::Stopped
            && ms.last().next_idx == m.events.len()),
        forall|i: int, k: int|
            #![trigger m.events[k], nows[i]]
            0 <= i < nows.len() && ms[i].next_idx <= k < ms[i + 1].next_idx ==> m.events[k].0
                <= position_at(m.anchor.unwrap().0, m.anchor.unwrap().1, nows[i]),
    decreases nows.len(),
{
    if nows.len() == 0 {
        assert(dues.flatten() =~= events_between(m.events, m.next_idx, ms.last().next_idx));
    } else {
        let m1 = ms[1];
        assert(tick_model(ms[0], nows[0], ms[1], dues[0]));
        assert(m1.events == m.events && m1.anchor == m.anchor);
        assert(m.next_idx <= m1.next_idx <= m.events.len());
        assert(dues[0] =~= events_between(m.events, m.next_idx, m1.next_idx));
        let t_nows = nows.drop_first();
        let t_ms = ms.drop_first();
        let t_dues = dues.drop_first();
        assert forall|i: int| #![trigger t_dues[i]] 0 <= i < t_nows.len() implies tick_model(
            t_ms[i],
            t_nows[i],
            t_ms[i + 1],
            t_dues[i],
        ) by {
            assert(tick_model(ms[i + 1], nows[i + 1], ms[i + 2], dues[i + 1]));
        }
        lemma_tick_run(m1, t_nows, t_ms, t_dues);
        assert(t_ms.last() == ms.last());
        assert(dues.flatten() == dues[0] + t_dues.flatten());
        assert(events_between(m.events, m.next_idx, m1.next_idx) + events_between(
            m.events,
            m1.next_idx,
            ms.last().next_idx,
        ) =~= events_between(m.events, m.next_idx, ms.last().next_idx));
        assert forall|i: int, k: int|
            #![trigger m.events[k], nows[i]]
            0 <= i < nows.len() && ms[i].next_idx <= k < ms[i + 1].next_idx implies m.events[k].0
                <= position_at(m.anchor.unwrap().0, m.anchor.unwrap().1, nows[i]) by {
            if i > 0 {
                assert(ms[i] == t_ms[i - 1] && ms[i + 1] == t_ms[i] && nows[i] == t_nows[i - 1]);
                assert(m1.events[k] == m.events[k]);
            } else {
                assert(tick_model(m, nows[0], m1, dues[0]));
            }
        }
    }
}

/// Playing a song through: when a stopped engine at the start of its song
/// starts playing at clock reading `now0` and is then ticked until it stops,
/// the ticks hand out every event of the song exactly once and in order,
/// and each event only at a clock reading at least its time past `now0`.
pub proof fn lemma_play_through(
    m: EngineModel,
    now0: u128,
    nows: Seq<u128>,
    ms: Seq<EngineModel>,
    dues: Seq<Seq<EventModel>>,
)
    requires
        m.state == State::Stopped,
        m.next_idx == 0,
        m.elapsed == 0,
        m.events.len() > 0,
        tick_run(play_model(m, now0), nows, ms, dues),
        ms.last().state == State::Stopped,
    ensures
        dues.flatten() == m.events.map_values(|e: (u128, EventModel)| e.1),
        forall|i: int, k: int|
            #![trigger m.events[k], nows[i]]
            0 <= i < nows.len() && ms[i].next_idx <= k < ms[i + 1].next_idx ==> m.events[k].0
                <= position_at(now0, 0, nows[i]),
{
    let p = play_model(m, now0);
    lemma_tick_run(p, nows, ms, dues);
    assert(events_between(m.events, 0, m.events.len() as int) =~= m.events.map_values(
        |e: (u128, EventModel)| e.1,
    ));
}

/// The index of the first event at or after `pos` (`strict`) or after `pos`
/// (not `strict`) in a time-ordered stream, by binary search.
fn partition_point(events: &Vec<(u128, MidiEvent)>, pos: u128, strict: bool) -> (r: usize)
    requires
        time_sorted(events.deep_view()),
    ensures
        is_partition_point(events.deep_view(), pos as int, strict, r as int),
{
    let ghost evs = events.deep_view();
    let mut lo: usize = 0;
    let mut hi: usize = events.len();
    while lo < hi
        invariant
            evs == events.deep_view(),
            time_sorted(evs),
            lo <= hi <= events.len(),
            forall|k: int| 0 <= k < lo ==> if strict {
                #[trigger] evs[k].0 < pos
            } else {
                evs[k].0 <= pos
            },
            forall|k: int| hi <= k < evs.len() ==> if strict {
                #[trigger] evs[k].0 >= pos
            } else {
                evs[k].0 > pos
            },
        decreases hi - lo,
    {
        let mid = lo + (hi - lo) / 2;
        let t = events[mid].0;
        assert(evs[mid as int].0 == t);
        let before = if strict {
            t < pos
        } else {
            t <= pos
        };
        if before {
            assert forall|k: int| 0 <= k < mid + 1 implies if strict {
                #[trigger] evs[k].0 < pos
            } else {
                evs[k].0 <= pos
            } by {
                assert(evs[k].0 <= evs[mid as int].0);
            }
            lo = mid + 1;
        } else {
            assert forall|k: int| mid <= k < evs.len() implies if strict {
                #[trigger] evs[k].0 >= pos
            } else {
                evs[k].0 > pos
            } by {
                assert(evs[mid as int].0 <= evs[k].0);
            }
            hi = mid;
        }
    }
    lo
}

} // verus!
