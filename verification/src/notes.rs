//! Note intervals: pairing each Note On with the Note Off that ends it.

use vstd::prelude::*;
use crate::event::EventModel;
use crate::order::{arrange, is_stable_order, key_before, lemma_stable_order_of, stable_order, stable_order_of, stably_sorted};

verus! {

/// A played note: when it starts, how long it sounds, its key and channel.
#[derive(Clone, Copy, Debug, PartialEq, Eq)]
pub struct NoteData {
    pub time: u128,
    pub duration: u128,
    pub midi: u8,
    pub channel: u8,
}

/// A note that has started and not yet ended: channel, key, start time.
pub type Pending = (u8, u8, u128);

/// `a - b`, or 0 when `b` is larger.
pub open spec fn diff_or_zero(a: u128, b: u128) -> u128 {
    if a > b {
        (a - b) as u128
    } else {
        0
    }
}

/// The position of the most recent pending note on `channel` and `key`
/// (-1 for none).
pub open spec fn last_pending(p: Seq<Pending>, channel: u8, key: u8) -> int
    decreases p.len(),
{
    if p.len() == 0 {
        -1
    } else if p.last().0 == channel && p.last().1 == key {
        p.len() - 1
    } else {
        last_pending(p.drop_last(), channel, key)
    }
}

/// One event of the stream applied to (pending notes, finished notes): a
/// Note On of non-zero velocity starts a note; a Note Off ends the most
/// recent pending note on its channel and key (last in, first out), and is
/// ignored when there is none.
pub open spec fn pair_step(state: (Seq<Pending>, Seq<NoteData>), item: (u128, EventModel)) -> (
    Seq<Pending>,
    Seq<NoteData>,
) {
    let (pending, notes) = state;
    let t = item.0;
    match item.1 {
        EventModel::NoteOn { channel, key, velocity } => if velocity > 0 {
            (pending.push((channel, key, t)), notes)
        } else {
            state
        },
        EventModel::NoteOff { channel, key, .. } => {
            let pos = last_pending(pending, channel, key);
            if pos < 0 {
                state
            } else {
                let (c, k, start) = pending[pos];
                (
                    pending.remove(pos),
                    notes.push(NoteData { time: start, duration: diff_or_zero(t, start), midi: k, channel: c }),
                )
            }
        },
        _ => state,
    }
}

/// The pending and finished notes after the events of `s`, in order.
pub open spec fn pair_notes(s: Seq<(u128, EventModel)>) -> (Seq<Pending>, Seq<NoteData>)
    decreases s.len(),
{
    if s.len() == 0 {
        (Seq::empty(), Seq::empty())
    } else {
        pair_step(pair_notes(s.drop_last()), s.last())
    }
}

/// A note still pending at the end, extended to the end of the song.
pub open spec fn dangling_note(p: Pending, total_length: u128) -> NoteData {
    NoteData { time: p.2, duration: diff_or_zero(total_length, p.2), midi: p.1, channel: p.0 }
}

/// The start times of notes, as sort keys.
pub open spec fn note_keys(s: Seq<NoteData>) -> Seq<u128> {
    Seq::new(s.len(), |i: int| s[i].time)
}

/// The note intervals of an event stream: finished notes in the order they
/// ended, then the notes left pending, extended to `total_length`; all
/// stably sorted by start time.
pub open spec fn note_intervals_of(events: Seq<(u128, EventModel)>, total_length: u128) -> Seq<NoteData> {
    let (pending, notes) = pair_notes(events);
    let all = notes + pending.map_values(|p: Pending| dangling_note(p, total_length));
    stably_sorted(all, note_keys(all))
}

/// Every note ends by `total`.
pub open spec fn notes_end_by(notes: Seq<NoteData>, total: u128) -> bool {
    forall|k: int| 0 <= k < notes.len() ==> #[trigger] notes[k].time + notes[k].duration <= total
}

/// The notes are in order of their start times.
pub open spec fn notes_sorted(notes: Seq<NoteData>) -> bool {
    forall|i: int, j: int| 0 <= i <= j < notes.len() ==> #[trigger] notes[i].time <= #[trigger] notes[j].time
}

/// The number of Note On events of non-zero velocity in `s`.
pub open spec fn note_on_count(s: Seq<(u128, EventModel)>) -> nat
    decreases s.len(),
{
    if s.len() == 0 {
        0
    } else {
        note_on_count(s.drop_last()) + match s.last().1 {
            EventModel::NoteOn { velocity, .. } => if velocity > 0 {
                1nat
            } else {
                0nat
            },
            _ => 0nat,
        }
    }
}

proof fn lemma_last_pending_range(p: Seq<Pending>, channel: u8, key: u8)
    ensures
        -1 <= last_pending(p, channel, key) < p.len(),
        last_pending(p, channel, key) >= 0 ==> p[last_pending(p, channel, key)].0 == channel
            && p[last_pending(p, channel, key)].1 == key,
        forall|j: int| last_pending(p, channel, key) < j < p.len() ==> !(#[trigger] p[j].0 == channel && p[j].1 == key),
    decreases p.len(),
{
    if p.len() > 0 {
        lemma_last_pending_range(p.drop_last(), channel, key);
        assert forall|j: int| last_pending(p, channel, key) < j < p.len() implies !(#[trigger] p[j].0 == channel
            && p[j].1 == key) by {
            if j < p.len() - 1 {
                assert(p.drop_last()[j] == p[j]);
            }
        }
    }
}

proof fn lemma_pair_count(s: Seq<(u128, EventModel)>)
    ensures
        pair_notes(s).0.len() + pair_notes(s).1.len() == note_on_count(s),
        note_on_count(s) <= s.len(),
    decreases s.len(),
{
    if s.len() > 0 {
        lemma_pair_count(s.drop_last());
        match s.last().1 {
            EventModel::NoteOff { channel, key, .. } => {
                lemma_last_pending_range(pair_notes(s.drop_last()).0, channel, key);
            },
            _ => {},
        }
    }
}

proof fn lemma_pair_within(s: Seq<(u128, EventModel)>, total: u128)
    requires
        forall|i: int| 0 <= i < s.len() ==> #[trigger] s[i].0 <= total,
    ensures
        forall|i: int| 0 <= i < pair_notes(s).0.len() ==> #[trigger] pair_notes(s).0[i].2 <= total,
        forall|i: int| 0 <= i < pair_notes(s).1.len()
            ==> #[trigger] pair_notes(s).1[i].time + pair_notes(s).1[i].duration <= total,
    decreases s.len(),
{
    if s.len() > 0 {
        let d = s.drop_last();
        assert forall|i: int| 0 <= i < d.len() implies #[trigger] d[i].0 <= total by {
            assert(d[i] == s[i]);
        }
        lemma_pair_within(d, total);
        assert(s.last() == s[s.len() - 1]);
        match s.last().1 {
            EventModel::NoteOff { channel, key, .. } => {
                let pd = pair_notes(d).0;
                let nd = pair_notes(d).1;
                lemma_last_pending_range(pd, channel, key);
                let pos = last_pending(pd, channel, key);
                if pos >= 0 {
                    assert(pd[pos].2 <= total);
                    let ns = pair_notes(s).1;
                    assert forall|i: int| 0 <= i < ns.len() implies #[trigger] ns[i].time + ns[i].duration <= total by {
                        if i < nd.len() {
                            assert(ns[i] == nd[i]);
                        }
                    }
                }
            },
            _ => {},
        }
    }
}

/// Every Note On of non-zero velocity yields exactly one note interval.
pub proof fn lemma_note_count(events: Seq<(u128, EventModel)>, total_length: u128)
    requires
        events.len() <= usize::MAX,
    ensures
        note_intervals_of(events, total_length).len() == note_on_count(events),
{
    lemma_pair_count(events);
    let (pending, notes) = pair_notes(events);
    let all = notes + pending.map_values(|p: Pending| dangling_note(p, total_length));
    lemma_stable_order_of(note_keys(all));
}

/// When no event lies after `total_length`, every note interval ends by
/// `total_length`, and the intervals are in order of their start times.
pub proof fn lemma_notes_within_song(events: Seq<(u128, EventModel)>, total_length: u128)
    requires
        events.len() <= usize::MAX,
        forall|i: int| 0 <= i < events.len() ==> #[trigger] events[i].0 <= total_length,
    ensures
        notes_end_by(note_intervals_of(events, total_length), total_length),
        notes_sorted(note_intervals_of(events, total_length)),
{
    lemma_pair_count(events);
    lemma_pair_within(events, total_length);
    let (pending, notes) = pair_notes(events);
    let dang = pending.map_values(|p: Pending| dangling_note(p, total_length));
    let all = notes + dang;
    lemma_stable_order_of(note_keys(all));
    let p = stable_order_of(note_keys(all));
    let r = note_intervals_of(events, total_length);
    assert forall|x: int| 0 <= x < all.len() implies #[trigger] all[x].time + all[x].duration <= total_length by {
        if x >= notes.len() {
            assert(all[x] == dang[x - notes.len()]);
            assert(pending[x - notes.len()].2 <= total_length);
        }
    }
    assert forall|k: int| 0 <= k < r.len() implies #[trigger] r[k].time + r[k].duration <= total_length by {
        assert(r[k] == all[p[k] as int]);
    }
    assert forall|i: int, j: int| 0 <= i <= j < r.len() implies #[trigger] r[i].time <= #[trigger] r[j].time by {
        if i < j {
            assert(key_before(note_keys(all), p[i] as int, p[j] as int));
        }
    }
}

proof fn lemma_last_pending(p: Seq<Pending>, channel: u8, key: u8, k: int)
    requires
        -1 <= k < p.len(),
        forall|j: int| k < j < p.len() ==> !(#[trigger] p[j].0 == channel && p[j].1 == key),
        k >= 0 ==> p[k].0 == channel && p[k].1 == key,
    ensures
        last_pending(p, channel, key) == k,
    decreases p.len(),
{
    if p.len() > 0 && k < p.len() - 1 {
        assert(!(p[p.len() - 1].0 == channel && p[p.len() - 1].1 == key));
        assert forall|j: int| k < j < p.drop_last().len() implies !(#[trigger] p.drop_last()[j].0 == channel
            && p.drop_last()[j].1 == key) by {
            assert(p.drop_last()[j] == p[j]);
        }
        lemma_last_pending(p.drop_last(), channel, key, k);
    }
}

/// Event `p` of `events` starts note `n`: a Note On of non-zero velocity on
/// its channel and key, at its start time.
pub open spec fn starts_note(events: Seq<(u128, EventModel)>, n: NoteData, p: int) -> bool {
    &&& 0 <= p < events.len()
    &&& events[p].0 == n.time
    &&& events[p].1 matches EventModel::NoteOn { channel, key, velocity } && channel == n.channel && key == n.midi
        && velocity > 0
}

/// Events `p` and `q` of `events` start and end note `n`: the Note On that
/// starts it, then a later Note Off on the same channel and key, at the end
/// of the note (the note lasts 0 when the Note Off is not later in time).
pub open spec fn ends_note(events: Seq<(u128, EventModel)>, n: NoteData, p: int, q: int) -> bool {
    &&& starts_note(events, n, p)
    &&& p < q < events.len()
    &&& events[q].1 matches EventModel::NoteOff { channel, key, .. } && channel == n.channel && key == n.midi
    &&& n.duration == diff_or_zero(events[q].0, n.time)
}

/// Event `p` of `events` starts the pending note `x`.
pub open spec fn starts_pending(events: Seq<(u128, EventModel)>, x: Pending, p: int) -> bool {
    starts_note(events, NoteData { time: x.2, duration: 0, midi: x.1, channel: x.0 }, p)
}

/// Some event of `events` starts the pending note `x`.
pub open spec fn pending_sourced(events: Seq<(u128, EventModel)>, x: Pending) -> bool {
    exists|p: int| #[trigger] starts_pending(events, x, p)
}

/// Some Note On and later Note Off of `events` start and end note `n`.
pub open spec fn note_sourced(events: Seq<(u128, EventModel)>, n: NoteData) -> bool {
    exists|p: int, q: int| #[trigger] ends_note(events, n, p, q)
}

/// Note `n` comes from `events`: a Note On and a later Note Off start and
/// end it, or a Note On starts it and it lasts to the end of the song at
/// `total_length`.
pub open spec fn note_from_events(events: Seq<(u128, EventModel)>, total_length: u128, n: NoteData) -> bool {
    ||| note_sourced(events, n)
    ||| (exists|p: int| #[trigger] starts_note(events, n, p)) && n.duration == diff_or_zero(total_length, n.time)
}

proof fn lemma_pair_sources(s: Seq<(u128, EventModel)>)
    ensures
        forall|i: int| 0 <= i < pair_notes(s).0.len() ==> pending_sourced(s, #[trigger] pair_notes(s).0[i]),
        forall|i: int| 0 <= i < pair_notes(s).1.len() ==> note_sourced(s, #[trigger] pair_notes(s).1[i]),
    decreases s.len(),
{
    if s.len() > 0 {
        let d = s.drop_last();
        lemma_pair_sources(d);
        let pd = pair_notes(d).0;
        let nd = pair_notes(d).1;
        let ps = pair_notes(s).0;
        let ns = pair_notes(s).1;
        let last = s.len() - 1;
        assert(s.last() == s[last]);
        assert forall|i: int| 0 <= i < pd.len() implies pending_sourced(s, #[trigger] pd[i]) by {
            let p = choose|p: int| starts_pending(d, pd[i], p);
            assert(d[p] == s[p]);
            assert(starts_pending(s, pd[i], p));
        }
        assert forall|i: int| 0 <= i < nd.len() implies note_sourced(s, #[trigger] nd[i]) by {
            let (p, q) = choose|p: int, q: int| ends_note(d, nd[i], p, q);
            assert(d[p] == s[p] && d[q] == s[q]);
            assert(ends_note(s, nd[i], p, q));
        }
        match s.last().1 {
            EventModel::NoteOn { channel, key, velocity } => {
                if velocity > 0 {
                    assert forall|i: int| 0 <= i < ps.len() implies pending_sourced(s, #[trigger] ps[i]) by {
                        if i == pd.len() {
                            assert(starts_pending(s, ps[i], last));
                        } else {
                            assert(ps[i] == pd[i]);
                        }
                    }
                } else {
                    assert(ps == pd);
                }
                assert(ns == nd);
            },
            EventModel::NoteOff { channel, key, .. } => {
                let pos = last_pending(pd, channel, key);
                lemma_last_pending_range(pd, channel, key);
                if pos >= 0 {
                    let x = pd[pos];
                    assert forall|i: int| 0 <= i < ps.len() implies pending_sourced(s, #[trigger] ps[i]) by {
                        if i < pos {
                            assert(ps[i] == pd[i]);
                        } else {
                            assert(ps[i] == pd[i + 1]);
                        }
                    }
                    assert(pending_sourced(s, x));
                    let p = choose|p: int| starts_pending(s, x, p);
                    assert forall|i: int| 0 <= i < ns.len() implies note_sourced(s, #[trigger] ns[i]) by {
                        if i == nd.len() {
                            assert(ends_note(s, ns[i], p, last));
                        } else {
                            assert(ns[i] == nd[i]);
                        }
                    }
                } else {
                    assert(ps == pd && ns == nd);
                }
            },
            _ => {
                assert(ps == pd && ns == nd);
            },
        }
    }
}

/// Every note interval comes from the stream: from a Note On on its channel
/// and key at its start time, and either a later Note Off on the same
/// channel and key at its end, or, for a note left sounding, the end of the
/// song.  A Note Off never ends a note of another channel or key.
pub proof fn lemma_notes_from_events(events: Seq<(u128, EventModel)>, total_length: u128)
    requires
        events.len() <= usize::MAX,
    ensures
        forall|k: int|
            0 <= k < note_intervals_of(events, total_length).len() ==> note_from_events(
                events,
                total_length,
                #[trigger] note_intervals_of(events, total_length)[k],
            ),
{
    lemma_pair_count(events);
    lemma_pair_sources(events);
    let pending = pair_notes(events).0;
    let notes = pair_notes(events).1;
    let dang = pending.map_values(|p: Pending| dangling_note(p, total_length));
    let all = notes + dang;
    lemma_stable_order_of(note_keys(all));
    let order = stable_order_of(note_keys(all));
    let r = note_intervals_of(events, total_length);
    assert forall|k: int| 0 <= k < r.len() implies note_from_events(events, total_length, #[trigger] r[k]) by {
        let x = order[k] as int;
        assert(r[k] == all[x]);
        if x < notes.len() {
            assert(all[x] == notes[x]);
            assert(note_sourced(events, notes[x]));
        } else {
            let y = x - notes.len();
            assert(all[x] == dangling_note(pending[y], total_length));
            assert(pending_sourced(events, pending[y]));
            let p = choose|p: int| starts_pending(events, pending[y], p);
            assert(starts_note(events, r[k], p));
        }
    }
}

/// Notes `a` and `b` are on the same channel and key.
pub open spec fn same_key(a: NoteData, b: NoteData) -> bool {
    a.channel == b.channel && a.midi == b.midi
}

/// When `b` starts while `a` of the same channel and key is sounding, `b`
/// ends no later than `a`.
pub open spec fn nests(a: NoteData, b: NoteData) -> bool {
    same_key(a, b) && a.time < b.time < a.time + a.duration ==> b.time + b.duration <= a.time + a.duration
}

/// The notes of each channel and key nest: a note that starts while another
/// of the same key sounds ends first (last in, first out).
pub open spec fn notes_nest(ns: Seq<NoteData>) -> bool {
    forall|i: int, j: int| 0 <= i < ns.len() && 0 <= j < ns.len() ==> nests(#[trigger] ns[i], #[trigger] ns[j])
}

/// The finished note `a` of the same channel and key as the pending note `y`
/// did not sound when `y` started.
pub open spec fn clear_of(a: NoteData, y: Pending) -> bool {
    a.channel == y.0 && a.midi == y.1 ==> !(a.time < y.2 < a.time + a.duration)
}

/// The time of the last event of `s` (0 for none).
pub open spec fn last_time(s: Seq<(u128, EventModel)>) -> int {
    if s.len() == 0 {
        0
    } else {
        s.last().0 as int
    }
}

/// What pairing keeps over a time-ordered stream: pending notes in order of
/// their start, everything started and finished by the last event, finished
/// notes of a key nesting, and no pending note started inside a finished
/// note of its key.
pub open spec fn pairing_nests(s: Seq<(u128, EventModel)>, pd: Seq<Pending>, nd: Seq<NoteData>) -> bool {
    &&& forall|i: int, j: int| 0 <= i <= j < pd.len() ==> #[trigger] pd[i].2 <= #[trigger] pd[j].2
    &&& forall|i: int| 0 <= i < pd.len() ==> #[trigger] pd[i].2 <= last_time(s)
    &&& forall|i: int| 0 <= i < nd.len() ==> #[trigger] nd[i].time + nd[i].duration <= last_time(s)
    &&& notes_nest(nd)
    &&& forall|i: int, j: int| 0 <= i < nd.len() && 0 <= j < pd.len() ==> clear_of(#[trigger] nd[i], #[trigger] pd[j])
}

proof fn lemma_pairing_nests(s: Seq<(u128, EventModel)>)
    requires
        forall|i: int, j: int| 0 <= i <= j < s.len() ==> #[trigger] s[i].0 <= #[trigger] s[j].0,
    ensures
        pairing_nests(s, pair_notes(s).0, pair_notes(s).1),
    decreases s.len(),
{
    if s.len() > 0 {
        let d = s.drop_last();
        assert forall|i: int, j: int| 0 <= i <= j < d.len() implies #[trigger] d[i].0 <= #[trigger] d[j].0 by {
            assert(d[i] == s[i] && d[j] == s[j]);
        }
        lemma_pairing_nests(d);
        let pd = pair_notes(d).0;
        let nd = pair_notes(d).1;
        let ps = pair_notes(s).0;
        let ns = pair_notes(s).1;
        let t = s.last().0;
        assert(last_time(d) <= t) by {
            if d.len() > 0 {
                assert(d.last() == s[s.len() - 2]);
                assert(s.last() == s[s.len() - 1]);
            }
        }
        assert(last_time(s) == t);
        match s.last().1 {
            EventModel::NoteOn { channel, key, velocity } => {
                if velocity > 0 {
                    assert(ps == pd.push((channel, key, t)));
                    assert forall|i: int, j: int| 0 <= i <= j < ps.len() implies #[trigger] ps[i].2 <= #[trigger] ps[j].2 by {
                        if j < pd.len() {
                            assert(ps[i] == pd[i] && ps[j] == pd[j]);
                        } else if i < pd.len() {
                            assert(ps[i] == pd[i]);
                        }
                    }
                    assert forall|i: int, j: int| 0 <= i < ns.len() && 0 <= j < ps.len() implies clear_of(
                        #[trigger] ns[i],
                        #[trigger] ps[j],
                    ) by {
                        if j < pd.len() {
                            assert(ps[j] == pd[j]);
                        }
                    }
                } else {
                    assert(ps == pd);
                }
            },
            EventModel::NoteOff { channel, key, .. } => {
                let pos = last_pending(pd, channel, key);
                lemma_last_pending_range(pd, channel, key);
                if pos >= 0 {
                    let x = pd[pos];
                    let n = NoteData { time: x.2, duration: diff_or_zero(t, x.2), midi: x.1, channel: x.0 };
                    assert(ps == pd.remove(pos));
                    assert(ns == nd.push(n));
                    assert(n.time + n.duration == t);
                    assert forall|i: int| 0 <= i < ps.len() implies #[trigger] ps[i] == if i < pos {
                        pd[i]
                    } else {
                        pd[i + 1]
                    } by {}
                    assert forall|i: int, j: int| 0 <= i <= j < ps.len() implies #[trigger] ps[i].2 <= #[trigger] ps[j].2 by {
                        let ii = if i < pos { i } else { i + 1 };
                        let jj = if j < pos { j } else { j + 1 };
                        assert(pd[ii].2 <= pd[jj].2);
                    }
                    assert forall|i: int, j: int| 0 <= i < ns.len() && 0 <= j < ns.len() implies nests(
                        #[trigger] ns[i],
                        #[trigger] ns[j],
                    ) by {
                        if i < nd.len() && j == nd.len() {
                            assert(clear_of(nd[i], x));
                        }
                    }
                    assert forall|i: int, j: int| 0 <= i < ns.len() && 0 <= j < ps.len() implies clear_of(
                        #[trigger] ns[i],
                        #[trigger] ps[j],
                    ) by {
                        let jj = if j < pos { j } else { j + 1 };
                        assert(ps[j] == pd[jj]);
                        if i == nd.len() {
                            if jj < pos {
                                assert(pd[jj].2 <= pd[pos].2);
                            }
                        }
                    }
                } else {
                    assert(ps == pd && ns == nd);
                }
            },
            _ => {
                assert(ps == pd && ns == nd);
            },
        }
    }
}

/// Notes of the same channel and key nest: over a time-ordered stream that
/// ends by `total_length`, a note that starts while another of its key is
/// sounding ends no later than that one, since a Note Off ends the most
/// recent pending note of its key (last in, first out).
pub proof fn lemma_notes_nest(events: Seq<(u128, EventModel)>, total_length: u128)
    requires
        events.len() <= usize::MAX,
        forall|i: int, j: int| 0 <= i <= j < events.len() ==> #[trigger] events[i].0 <= #[trigger] events[j].0,
        forall|i: int| 0 <= i < events.len() ==> #[trigger] events[i].0 <= total_length,
    ensures
        notes_nest(note_intervals_of(events, total_length)),
{
    lemma_pair_count(events);
    lemma_pairing_nests(events);
    let pending = pair_notes(events).0;
    let notes = pair_notes(events).1;
    let dang = pending.map_values(|p: Pending| dangling_note(p, total_length));
    let all = notes + dang;
    assert(last_time(events) <= total_length) by {
        if events.len() > 0 {
            assert(events.last() == events[events.len() - 1]);
        }
    }
    assert forall|i: int| 0 <= i < dang.len() implies #[trigger] dang[i].time + dang[i].duration == total_length by {
        assert(pending[i].2 <= last_time(events));
    }
    assert forall|i: int, j: int| 0 <= i < all.len() && 0 <= j < all.len() implies nests(#[trigger] all[i], #[trigger] all[j]) by {
        if i < notes.len() && j < notes.len() {
            assert(nests(notes[i], notes[j]));
        } else if i < notes.len() {
            assert(clear_of(notes[i], pending[j - notes.len()]));
        } else if j < notes.len() {
            assert(all[i] == dang[i - notes.len()]);
        } else {
            assert(all[i] == dang[i - notes.len()] && all[j] == dang[j - notes.len()]);
        }
    }
    lemma_stable_order_of(note_keys(all));
    let order = stable_order_of(note_keys(all));
    let r = note_intervals_of(events, total_length);
    assert forall|i: int, j: int| 0 <= i < r.len() && 0 <= j < r.len() implies nests(#[trigger] r[i], #[trigger] r[j]) by {
        assert(r[i] == all[order[i] as int] && r[j] == all[order[j] as int]);
    }
}

/// The stable sort of notes by start time.
fn sort_notes(s: &Vec<NoteData>) -> (r: Vec<NoteData>)
    ensures
        r@ == stably_sorted(s@, note_keys(s@)),
{
    let mut keys: Vec<u128> = Vec::new();
    let mut i: usize = 0;
    while i < s.len()
        invariant
            i <= s.len(),
            keys@ == note_keys(s@).take(i as int),
        decreases s.len() - i,
    {
        keys.push(s[i].time);
        i = i + 1;
        assert(keys@ =~= note_keys(s@).take(i as int));
    }
    assert(keys@ =~= note_keys(s@));
    let order = stable_order(&keys);
    let mut r: Vec<NoteData> = Vec::new();
    let mut k: usize = 0;
    while k < order.len()
        invariant
            k <= order.len(),
            is_stable_order(keys@, order@),
            keys@ == note_keys(s@),
            r@ == arrange(s@, order@).take(k as int),
        decreases order.len() - k,
    {
        r.push(s[order[k]]);
        k = k + 1;
        assert(r@ =~= arrange(s@, order@).take(k as int));
    }
    assert(r@ =~= arrange(s@, order@));
    r
}

/// Pairs Note On / Note Off events of a time-ordered stream into note
/// intervals: each Note Off ends the most recent pending note on its
/// channel and key (last in, first out); notes still pending at the end are
/// extended to `total_length`; the result is stably sorted by start time.
pub fn note_intervals(events: &Vec<(u128, crate::event::MidiEvent)>, total_length: u128) -> (r: Vec<NoteData>)
    ensures
        r@ == note_intervals_of(events.deep_view(), total_length),
{
    let ghost evs = events.deep_view();
    let mut pending: Vec<Pending> = Vec::new();
    let mut notes: Vec<NoteData> = Vec::new();
    let mut idx: usize = 0;
    while idx < events.len()
        invariant
            idx <= events.len(),
            evs == events.deep_view(),
            (pending@, notes@) == pair_notes(evs.take(idx as int)),
        decreases events.len() - idx,
    {
        let t = events[idx].0;
        let ghost item = evs[idx as int];
        assert(item == (t, events[idx as int].1.deep_view()));
        assert(evs.take(idx + 1).drop_last() =~= evs.take(idx as int));
        assert(evs.take(idx + 1).last() == item);
        match &events[idx].1 {
            crate::event::MidiEvent::NoteOn { channel, key, velocity } => {
                if *velocity > 0 {
                    pending.push((*channel, *key, t));
                }
            },
            crate::event::MidiEvent::NoteOff { channel, key, .. } => {
                let mut k: usize = pending.len();
                while k > 0 && !(pending[k - 1].0 == *channel && pending[k - 1].1 == *key)
                    invariant
                        k <= pending.len(),
                        forall|j: int| k <= j < pending.len() ==> !(#[trigger] pending@[j].0 == *channel
                            && pending@[j].1 == *key),
                    decreases k,
                {
                    k = k - 1;
                }
                proof {
                    lemma_last_pending(pending@, *channel, *key, k - 1);
                }
                if k > 0 {
                    let (c, key_found, start) = pending.remove(k - 1);
                    let duration = if t > start {
                        t - start
                    } else {
                        0
                    };
                    notes.push(NoteData { time: start, duration, midi: key_found, channel: c });
                }
            },
            _ => {},
        }
        idx = idx + 1;
    }
    assert(evs.take(idx as int) =~= evs);
    let ghost finished = notes@;
    let ghost left = pending@;
    let mut j: usize = 0;
    while j < pending.len()
        invariant
            j <= pending.len(),
            pending@ == left,
            notes@ == finished + left.map_values(|p: Pending| dangling_note(p, total_length)).take(j as int),
        decreases pending.len() - j,
    {
        let (c, key, start) = pending[j];
        let duration = if total_length > start {
            total_length - start
        } else {
            0
        };
        notes.push(NoteData { time: start, duration, midi: key, channel: c });
        j = j + 1;
        assert(notes@ =~= finished + left.map_values(|p: Pending| dangling_note(p, total_length)).take(j as int));
    }
    assert(left.map_values(|p: Pending| dangling_note(p, total_length)).take(j as int)
        =~= left.map_values(|p: Pending| dangling_note(p, total_length)));
    sort_notes(&notes)
}

} // verus!
