//! The page-turn view's decisions: which measure is playing, which page it
//! is on, when a page turn animates, and which (clipped) notes a page shows.

use vstd::prelude::*;
use crate::measures::Measure;
use crate::notes::NoteData;

verus! {

/// Measures shown on one page.
pub const MEASURES_PER_PAGE: usize = 1;

/// The measure starts never decrease.
pub open spec fn starts_sorted(ms: Seq<Measure>) -> bool {
    forall|i: int, j: int| 0 <= i <= j < ms.len() ==> #[trigger] ms[i].start <= #[trigger] ms[j].start
}

/// The index of the measure containing `time`: the last measure that starts
/// at or before `time` (0 when none does, and for no measures).
pub fn find_measure(measures: &[Measure], time: u128) -> (r: usize)
    ensures
        measures@.len() == 0 ==> r == 0,
        measures@.len() > 0 ==> r < measures@.len(),
        starts_sorted(measures@) ==> (r == 0 || measures@[r as int].start <= time),
        starts_sorted(measures@) ==> (r + 1 >= measures@.len() || measures@[r + 1].start > time),
{
    let ghost ms = measures@;
    let mut lo: usize = 0;
    let mut hi: usize = measures.len();
    while lo < hi
        invariant
            ms == measures@,
            lo <= hi <= ms.len(),
            starts_sorted(ms) ==> forall|k: int| 0 <= k < lo ==> #[trigger] ms[k].start <= time,
            starts_sorted(ms) ==> forall|k: int| hi <= k < ms.len() ==> #[trigger] ms[k].start > time,
        decreases hi - lo,
    {
        let mid = lo + (hi - lo) / 2;
        if measures[mid].start <= time {
            proof {
                if starts_sorted(ms) {
                    assert forall|k: int| 0 <= k < mid + 1 implies #[trigger] ms[k].start <= time by {
                        assert(ms[k].start <= ms[mid as int].start);
                    }
                }
            }
            lo = mid + 1;
        } else {
            proof {
                if starts_sorted(ms) {
                    assert forall|k: int| mid <= k < ms.len() implies #[trigger] ms[k].start > time by {
                        assert(ms[mid as int].start <= ms[k].start);
                    }
                }
            }
            hi = mid;
        }
    }
    if lo == 0 {
        0
    } else {
        lo - 1
    }
}

/// The page that shows measure `active`.
pub fn page_of_measure(active: usize) -> (r: usize)
    ensures
        r == active / MEASURES_PER_PAGE,
{
    active / MEASURES_PER_PAGE
}

/// How the view changes when the playing page changes.
#[derive(Clone, Copy, Debug, PartialEq, Eq, Structural)]
pub enum PageTurn {
    /// Same page: nothing to do.
    Stay,
    /// The next page after the last one shown: animate the turn, keeping the
    /// old page for the wipe.
    Forward,
    /// Any other change (a seek, a backward step, a skip): switch at once.
    Jump,
}

/// Decides how to go from the page last shown (`-1` for none) to `page`.
pub fn page_turn(last_page: i32, page: i32) -> (r: PageTurn)
    ensures
        r == if page == last_page {
            PageTurn::Stay
        } else if last_page >= 0 && page == last_page + 1 {
            PageTurn::Forward
        } else {
            PageTurn::Jump
        },
{
    if page == last_page {
        PageTurn::Stay
    } else if last_page >= 0 && page as i64 == last_page as i64 + 1 {
        PageTurn::Forward
    } else {
        PageTurn::Jump
    }
}

/// The first and last measure indices of `page` among `len` measures
/// (clamped to the last measure).
pub open spec fn page_measure_range(len: int, page: int) -> (int, int) {
    let first = if page * MEASURES_PER_PAGE < len - 1 {
        page * MEASURES_PER_PAGE
    } else {
        len - 1
    };
    let last = if first + MEASURES_PER_PAGE - 1 < len - 1 {
        first + MEASURES_PER_PAGE - 1
    } else {
        len - 1
    };
    (first, last)
}

/// The first measure of `page` and the time span of the page: from the
/// start of its first measure to the end of its last.
pub fn page_bounds(measures: &[Measure], page: usize) -> (r: (usize, u128, u128))
    requires
        measures@.len() >= 1,
    ensures
        ({
            let (first, last) = page_measure_range(measures@.len() as int, page as int);
            r == (first as usize, measures@[first].start, measures@[last].end)
        }),
{
    let len = measures.len();
    let first = if page < len - 1 {
        page * MEASURES_PER_PAGE
    } else {
        len - 1
    };
    let last = if first + MEASURES_PER_PAGE - 1 < len - 1 {
        first + MEASURES_PER_PAGE - 1
    } else {
        len - 1
    };
    (first, measures[first].start, measures[last].end)
}

/// A note clipped to the span of a page.
#[derive(Clone, Copy, Debug, PartialEq, Eq)]
pub struct PageNote {
    pub start: u128,
    pub end: u128,
    pub midi: u8,
    pub channel: u8,
}

/// The end of a note (saturating at `u128::MAX`).
pub open spec fn note_end(n: NoteData) -> u128 {
    if n.time + n.duration <= u128::MAX {
        (n.time + n.duration) as u128
    } else {
        u128::MAX
    }
}

/// `n` clipped to `[page_start, page_end]`, when it overlaps the page by
/// more than an instant.
pub open spec fn clip_note(n: NoteData, page_start: u128, page_end: u128) -> Option<PageNote> {
    let s = if n.time > page_start {
        n.time
    } else {
        page_start
    };
    let e = if note_end(n) < page_end {
        note_end(n)
    } else {
        page_end
    };
    if note_end(n) < page_start || n.time > page_end || s >= e {
        None
    } else {
        Some(PageNote { start: s, end: e, midi: n.midi, channel: n.channel })
    }
}

/// The clipped notes among `s`, in order.
pub open spec fn clipped_notes(s: Seq<NoteData>, page_start: u128, page_end: u128) -> Seq<PageNote>
    decreases s.len(),
{
    if s.len() == 0 {
        Seq::empty()
    } else {
        let rest = clipped_notes(s.drop_last(), page_start, page_end);
        match clip_note(s.last(), page_start, page_end) {
            Some(c) => rest.push(c),
            None => rest,
        }
    }
}

/// The index of the first note that starts after `page_end` (or the end).
pub open spec fn scan_end(notes: Seq<NoteData>, page_end: u128, b: int) -> bool {
    &&& 0 <= b <= notes.len()
    &&& forall|k: int| 0 <= k < b ==> #[trigger] notes[k].time <= page_end
    &&& b == notes.len() || notes[b].time > page_end
}

/// The notes a page shows: scanning the start-ordered notes until one
/// starts after the page, each note that overlaps the page, clipped to it.
pub fn page_notes(notes: &[NoteData], page_start: u128, page_end: u128) -> (r: Vec<PageNote>)
    ensures
        exists|b: int| scan_end(notes@, page_end, b) && r@ == clipped_notes(notes@.take(b), page_start, page_end),
{
    let ghost ns = notes@;
    let mut r: Vec<PageNote> = Vec::new();
    let mut k: usize = 0;
    while k < notes.len()
        invariant_except_break
            ns == notes@,
            k <= ns.len(),
            forall|j: int| 0 <= j < k ==> #[trigger] ns[j].time <= page_end,
            r@ == clipped_notes(ns.take(k as int), page_start, page_end),
        ensures
            scan_end(ns, page_end, k as int),
            r@ == clipped_notes(ns.take(k as int), page_start, page_end),
        decreases ns.len() - k,
    {
        let n = notes[k];
        if n.time > page_end {
            break;
        }
        let note_end = n.time.saturating_add(n.duration);
        assert(ns.take(k + 1).drop_last() =~= ns.take(k as int));
        assert(ns.take(k + 1).last() == n);
        if !(note_end < page_start || n.time > page_end) {
            let clip_start = if n.time > page_start {
                n.time
            } else {
                page_start
            };
            let clip_end = if note_end < page_end {
                note_end
            } else {
                page_end
            };
            if clip_start < clip_end {
                r.push(PageNote { start: clip_start, end: clip_end, midi: n.midi, channel: n.channel });
            }
        }
        k = k + 1;
    }
    r
}

/// For notes in start order, scanning up to the first note past the page
/// misses nothing: every later note starts after the page and shows nothing.
pub proof fn lemma_page_scan_complete(notes: Seq<NoteData>, page_start: u128, page_end: u128, b: int)
    requires
        scan_end(notes, page_end, b),
        forall|i: int, j: int| 0 <= i <= j < notes.len() ==> #[trigger] notes[i].time <= #[trigger] notes[j].time,
    ensures
        clipped_notes(notes.take(b), page_start, page_end) == clipped_notes(notes, page_start, page_end),
    decreases notes.len() - b,
{
    if b < notes.len() {
        let n = notes.len() - 1;
        assert(notes[b].time <= notes[n].time);
        assert(notes.drop_last().take(b) =~= notes.take(b));
        assert(forall|i: int, j: int| 0 <= i <= j < notes.drop_last().len() ==> #[trigger] notes.drop_last()[i].time
            <= #[trigger] notes.drop_last()[j].time);
        if b < n {
            lemma_page_scan_complete(notes.drop_last(), page_start, page_end, b);
        } else {
            assert(notes.drop_last() =~= notes.take(b));
        }
    } else {
        assert(notes.take(b) =~= notes);
    }
}

/// Growth animations started per frame at most.
pub const MAX_GROWTH_SPAWNS_PER_TICK: usize = 16;

/// The notes whose growth starts this frame: while playing, the first
/// `budget` notes (in order) that have not started and whose start time has
/// been reached; none while not playing.
pub open spec fn growth_picks(notes: Seq<(bool, u128)>, elapsed: u128, playing: bool, budget: nat) -> Seq<usize>
    decreases notes.len(),
{
    if !playing || notes.len() == 0 {
        Seq::empty()
    } else {
        let front = growth_picks(notes.drop_last(), elapsed, playing, budget);
        let (started, time) = notes.last();
        if front.len() < budget && !started && elapsed >= time {
            front.push((notes.len() - 1) as usize)
        } else {
            front
        }
    }
}

/// Which notes start growing this frame: `notes` lists, for each cached
/// note, whether its growth has started and its start time.
pub fn notes_to_grow(notes: &[(bool, u128)], elapsed: u128, playing: bool, budget: usize) -> (r: Vec<usize>)
    ensures
        r@ == growth_picks(notes@, elapsed, playing, budget as nat),
{
    let mut r: Vec<usize> = Vec::new();
    if !playing {
        return r;
    }
    let mut k: usize = 0;
    while k < notes.len()
        invariant
            playing,
            k <= notes@.len(),
            r@ == growth_picks(notes@.take(k as int), elapsed, playing, budget as nat),
            r.len() <= budget,
        decreases notes@.len() - k,
    {
        assert(notes@.take(k + 1).drop_last() =~= notes@.take(k as int));
        if r.len() >= budget {
            proof {
                lemma_growth_picks_full(notes@, elapsed, budget as nat, k as int);
            }
            assert(notes@.take(notes@.len() as int) =~= notes@);
            return r;
        }
        let (started, time) = notes[k];
        if !started && elapsed >= time {
            r.push(k);
        }
        k = k + 1;
    }
    assert(notes@.take(k as int) =~= notes@);
    r
}

/// Note `k` of `notes` may start growing at position `elapsed`: it has not
/// started yet and its start time has been reached.
pub open spec fn growth_due(notes: Seq<(bool, u128)>, elapsed: u128, k: int) -> bool {
    0 <= k < notes.len() && !notes[k].0 && notes[k].1 <= elapsed
}

/// The limits on the notes picked to grow in one frame: none while not
/// playing; at most `budget`; each one a distinct note, in list order, that
/// has not started and whose start time has been reached; and a note that
/// is due and not picked is left only because the budget is spent on notes
/// before it in the list (so the current page, listed first, goes first).
pub proof fn lemma_growth_picks(notes: Seq<(bool, u128)>, elapsed: u128, playing: bool, budget: nat)
    requires
        notes.len() <= usize::MAX,
    ensures
        ({
            let picks = growth_picks(notes, elapsed, playing, budget);
            &&& !playing ==> picks.len() == 0
            &&& picks.len() <= budget
            &&& forall|i: int| 0 <= i < picks.len() ==> growth_due(notes, elapsed, #[trigger] picks[i] as int)
            &&& forall|i: int, j: int| 0 <= i < j < picks.len() ==> #[trigger] picks[i] < #[trigger] picks[j]
            &&& forall|k: int|
                #![trigger growth_due(notes, elapsed, k)]
                playing && growth_due(notes, elapsed, k) && !picks.contains(k as usize) ==> picks.len() == budget
                    && forall|i: int| 0 <= i < picks.len() ==> #[trigger] picks[i] < k
        }),
    decreases notes.len(),
{
    let picks = growth_picks(notes, elapsed, playing, budget);
    if playing && notes.len() > 0 {
        let d = notes.drop_last();
        let n = notes.len() - 1;
        lemma_growth_picks(d, elapsed, playing, budget);
        let front = growth_picks(d, elapsed, playing, budget);
        assert forall|k: int| growth_due(d, elapsed, k) <==> #[trigger] growth_due(notes, elapsed, k) && k < n by {
            if 0 <= k < n {
                assert(d[k] == notes[k]);
            }
        }
        assert forall|i: int| 0 <= i < front.len() implies #[trigger] front[i] < n by {
            assert(growth_due(d, elapsed, front[i] as int));
        }
        if picks.len() > front.len() {
            assert(picks == front.push(n as usize));
            assert forall|k: int|
                #![trigger growth_due(notes, elapsed, k)]
                growth_due(notes, elapsed, k) && !picks.contains(k as usize) implies picks.len() == budget
                    && forall|i: int| 0 <= i < picks.len() ==> #[trigger] picks[i] < k by {
                if k == n {
                    assert(picks[front.len() as int] == n as usize);
                } else {
                    assert(growth_due(d, elapsed, k));
                    if front.contains(k as usize) {
                        let i = choose|i: int| 0 <= i < front.len() && front[i] == k as usize;
                        assert(picks[i] == front[i]);
                    }
                }
            }
            assert forall|i: int| 0 <= i < picks.len() implies growth_due(notes, elapsed, #[trigger] picks[i] as int) by {
                if i < front.len() {
                    assert(picks[i] == front[i]);
                    assert(growth_due(d, elapsed, front[i] as int));
                }
            }
            assert forall|i: int, j: int| 0 <= i < j < picks.len() implies #[trigger] picks[i] < #[trigger] picks[j] by {
                assert(picks[i] == front[i]);
                if j < front.len() {
                    assert(picks[j] == front[j]);
                }
            }
        } else {
            assert(picks == front);
            assert forall|k: int|
                #![trigger growth_due(notes, elapsed, k)]
                growth_due(notes, elapsed, k) && !picks.contains(k as usize) implies picks.len() == budget
                    && forall|i: int| 0 <= i < picks.len() ==> #[trigger] picks[i] < k by {
                if k < n {
                    assert(growth_due(d, elapsed, k));
                }
            }
            assert forall|i: int| 0 <= i < picks.len() implies growth_due(notes, elapsed, #[trigger] picks[i] as int) by {
                assert(growth_due(d, elapsed, front[i] as int));
            }
        }
    }
}

/// A note is picked to grow at most once: once the picked notes are marked
/// as started, no later frame picks any of them again.
pub proof fn lemma_growth_once(
    notes: Seq<(bool, u128)>,
    elapsed: u128,
    budget: nat,
    later: u128,
    later_budget: nat,
)
    requires
        notes.len() <= usize::MAX,
    ensures
        ({
            let picks = growth_picks(notes, elapsed, true, budget);
            let marked = mark_started(notes, picks);
            let again = growth_picks(marked, later, true, later_budget);
            forall|i: int, j: int| 0 <= i < picks.len() && 0 <= j < again.len() ==> #[trigger] picks[i] != #[trigger] again[j]
        }),
{
    let picks = growth_picks(notes, elapsed, true, budget);
    let marked = mark_started(notes, picks);
    lemma_growth_picks(notes, elapsed, true, budget);
    lemma_growth_picks(marked, later, true, later_budget);
    let again = growth_picks(marked, later, true, later_budget);
    assert forall|i: int, j: int| 0 <= i < picks.len() && 0 <= j < again.len() implies #[trigger] picks[i] != #[trigger] again[j] by {
        assert(growth_due(marked, later, again[j] as int));
        assert(growth_due(notes, elapsed, picks[i] as int));
        if picks[i] == again[j] {
            assert(picks.contains(picks[i]));
            assert(marked[picks[i] as int].0);
        }
    }
}

/// `notes` with the growth of the notes in `picks` marked as started.
pub open spec fn mark_started(notes: Seq<(bool, u128)>, picks: Seq<usize>) -> Seq<(bool, u128)> {
    Seq::new(notes.len(), |k: int| if picks.contains(k as usize) {
        (true, notes[k].1)
    } else {
        notes[k]
    })
}

proof fn lemma_growth_picks_full(notes: Seq<(bool, u128)>, elapsed: u128, budget: nat, k: int)
    requires
        0 <= k <= notes.len(),
        growth_picks(notes.take(k), elapsed, true, budget).len() >= budget,
    ensures
        growth_picks(notes, elapsed, true, budget) == growth_picks(notes.take(k), elapsed, true, budget),
    decreases notes.len() - k,
{
    if k == notes.len() {
        assert(notes.take(k) =~= notes);
    } else {
        let d = notes.drop_last();
        assert(d.take(k) =~= notes.take(k));
        lemma_growth_picks_full(d, elapsed, budget, k);
    }
}

} // verus!
