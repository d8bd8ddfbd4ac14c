//! The bar (measure) map of a song: consecutive measures laid out in the
//! tick domain by the time signatures, timed by the tempo map.

use vstd::prelude::*;
use vstd::arithmetic::power2::{lemma2_to64, pow2};
use crate::flatten::LoadError;
use crate::order::{
    arrange, is_stable_order, key_before, lemma_stable_order_covers, lemma_stable_order_is_chosen, lemma_stable_order_of,
    stable_order, stable_order_of, stably_sorted,
};
use crate::timing::{lemma_numer_bound, lemma_tick_nanos_monotone, nanos_for_tick, tempo_numer, tick_nanos, ticks_sorted};

verus! {

/// A bar (measure), in nanoseconds from the start of the song.
#[derive(Clone, Copy, Debug, PartialEq, Eq)]
pub struct Measure {
    pub start: u128,
    pub end: u128,
    /// Length of a quarter note within this measure (tempo-aware).
    pub quarter: u128,
}

/// The time signature assumed where none is given: 4/4 (denominator 2^2).
pub open spec fn default_meter() -> (u64, u8, u8) {
    (0, 4, 2)
}

/// The ticks of the time-signature changes, as sort keys.
pub open spec fn meter_keys(meters: Seq<(u64, u8, u8)>) -> Seq<u128> {
    Seq::new(meters.len(), |i: int| meters[i].0 as u128)
}

/// The time signatures by tick (stable), with 4/4 at tick 0 when none starts
/// there.
pub open spec fn meter_list(meters: Seq<(u64, u8, u8)>) -> Seq<(u64, u8, u8)> {
    let s = stably_sorted(meters, meter_keys(meters));
    if s.len() == 0 {
        seq![default_meter()]
    } else if s[0].0 > 0 {
        seq![default_meter()] + s
    } else {
        s
    }
}

/// The entries of a time-signature list are in non-decreasing tick order.
pub open spec fn meters_sorted(ms: Seq<(u64, u8, u8)>) -> bool {
    forall|i: int, j: int| 0 <= i <= j < ms.len() ==> #[trigger] ms[i].0 <= #[trigger] ms[j].0
}

/// The index of the time signature in force at `tick`: the last entry at or
/// before `tick`, or the first entry.
pub open spec fn meter_index(ms: Seq<(u64, u8, u8)>, tick: int) -> int
    decreases ms.len(),
{
    if ms.len() <= 1 {
        0
    } else if ms.last().0 <= tick {
        ms.len() - 1
    } else {
        meter_index(ms.drop_last(), tick)
    }
}

/// Numerator of a time signature, with 0 read as 1.
pub open spec fn beats_num(num: u8) -> u64 {
    if num == 0 {
        1
    } else {
        num as u64
    }
}

/// Denominator of a time signature given as a power of two (capped at 2^16).
pub open spec fn beat_den(den_pow: u8) -> u64 {
    1u64 << (if den_pow > 16 {
        16u8
    } else {
        den_pow
    })
}

/// Ticks in one measure of `num/2^den_pow` at `tpq` ticks per quarter.
pub open spec fn ticks_per_measure(tpq: u16, num: u8, den_pow: u8) -> int {
    (beats_num(num) * tpq * 4) as int / (beat_den(den_pow) as int)
}

/// Whether the measure starting at `tick` is cut short by a time-signature
/// change: the next time signature begins strictly inside it.
pub open spec fn cut_by_meter(ms: Seq<(u64, u8, u8)>, idx: int, tick: int, tpm: int) -> bool {
    idx + 1 < ms.len() && tick < ms[idx + 1].0 && ms[idx + 1].0 < tick + tpm
}

/// The measures that follow a measure boundary at `tick`, reached at `time`:
/// each spans the ticks of the time signature in force at its start, and ends
/// early at the tick where the next time signature begins when that falls
/// inside it; the map ends with the first measure that ends after `limit`,
/// before a measure of zero ticks, or where the ticks would leave the `u64`
/// range.  A full measure's quarter is its length over its beats in quarters;
/// a measure cut short holds its length over its ticks in quarters.
pub open spec fn measures_from(
    tpq: u16,
    tempos: Seq<(u64, u32)>,
    ms: Seq<(u64, u8, u8)>,
    limit: int,
    tick: u64,
    time: int,
) -> Seq<Measure>
    decreases u64::MAX - tick,
{
    let idx = meter_index(ms, tick as int);
    let m = ms[idx];
    let tpm = ticks_per_measure(tpq, m.1, m.2);
    if tpm <= 0 || tick + tpm > u64::MAX {
        Seq::empty()
    } else {
        let cut = cut_by_meter(ms, idx, tick as int, tpm);
        let end_tick: u64 = if cut {
            ms[idx + 1].0
        } else {
            (tick + tpm) as u64
        };
        let t = tick_nanos(tempos, tpq, end_tick as int);
        let end_time = if t > time {
            t
        } else {
            time
        };
        let quarter = if cut {
            (end_time - time) * tpq / (end_tick - tick)
        } else {
            (end_time - time) * beat_den(m.2) / (4 * beats_num(m.1))
        };
        let meas = Measure { start: time as u128, end: end_time as u128, quarter: quarter as u128 };
        if end_time > limit {
            seq![meas]
        } else {
            seq![meas] + measures_from(tpq, tempos, ms, limit, end_tick, end_time)
        }
    }
}

/// The measures tile the song: no measure ends before it starts, each one
/// ends where the next one starts, and the starts never decrease.
pub open spec fn tiles(ms: Seq<Measure>) -> bool {
    &&& forall|k: int| 0 <= k < ms.len() ==> #[trigger] ms[k].start <= ms[k].end
    &&& forall|k: int| 0 <= k < ms.len() - 1 ==> #[trigger] ms[k].end == ms[k + 1].start
    &&& forall|i: int, j: int| 0 <= i <= j < ms.len() ==> #[trigger] ms[i].start <= #[trigger] ms[j].start
}

/// The measure that stands in when no measure can be laid out: one 4/4 bar
/// over the whole song, at least two seconds long.
pub open spec fn fallback_measure(total_length: int) -> Measure {
    let end = if total_length > 2_000_000_000 {
        total_length
    } else {
        2_000_000_000
    };
    Measure { start: 0, end: end as u128, quarter: (end / 4) as u128 }
}

/// The measures laid out for a song of `total_length` nanoseconds: from
/// tick 0 until one ends more than five seconds after the song.
pub open spec fn laid_measures(
    tpq: u16,
    tempos: Seq<(u64, u32)>,
    meters: Seq<(u64, u8, u8)>,
    total_length: int,
) -> Seq<Measure> {
    measures_from(tpq, tempos, meter_list(meters), total_length + 5_000_000_000, 0, 0)
}

/// The measure map of a song of `total_length` nanoseconds: the measures
/// laid out, or the stand-in bar when none could be.
pub open spec fn measure_map(
    tpq: u16,
    tempos: Seq<(u64, u32)>,
    meters: Seq<(u64, u8, u8)>,
    total_length: int,
) -> Seq<Measure> {
    let laid = laid_measures(tpq, tempos, meters, total_length);
    if laid.len() == 0 {
        seq![fallback_measure(total_length)]
    } else {
        laid
    }
}

/// An upper bound on every time this crate computes from ticks.
pub open spec fn time_bound() -> int {
    0x1_0000_0000_0000_0000_0000_0000 * 1000int
}

pub proof fn lemma_tick_nanos_bound(tempos: Seq<(u64, u32)>, tpq: u16, tick: int)
    requires
        0 <= tick <= u64::MAX,
    ensures
        0 <= tick_nanos(tempos, tpq, tick) <= time_bound(),
{
    lemma_numer_bound(tempos, tick);
    let n = tempo_numer(tempos, tick);
    assert(n <= 0x1_0000_0000_0000_0000_0000_0000int) by (nonlinear_arith)
        requires
            n <= tick * 0xFFFF_FFFF,
            0 <= tick <= u64::MAX,
    ;
    if tpq > 0 {
        assert(n * 1000 / (tpq as int) <= n * 1000) by (nonlinear_arith)
            requires
                n >= 0,
                tpq >= 1,
        ;
    }
}

proof fn lemma_measures_from_tile(
    tpq: u16,
    tempos: Seq<(u64, u32)>,
    ms: Seq<(u64, u8, u8)>,
    limit: int,
    tick: u64,
    time: int,
)
    requires
        0 <= time <= time_bound(),
    ensures
        tiles(measures_from(tpq, tempos, ms, limit, tick, time)),
        forall|k: int| 0 <= k < measures_from(tpq, tempos, ms, limit, tick, time).len()
            ==> #[trigger] measures_from(tpq, tempos, ms, limit, tick, time)[k].start >= time,
        measures_from(tpq, tempos, ms, limit, tick, time).len() >= 1
            ==> measures_from(tpq, tempos, ms, limit, tick, time)[0].start == time,
    decreases u64::MAX - tick,
{
    let s = measures_from(tpq, tempos, ms, limit, tick, time);
    let idx = meter_index(ms, tick as int);
    let m = ms[idx];
    let tpm = ticks_per_measure(tpq, m.1, m.2);
    if !(tpm <= 0 || tick + tpm > u64::MAX) {
        let end_tick: u64 = if cut_by_meter(ms, idx, tick as int, tpm) {
            ms[idx + 1].0
        } else {
            (tick + tpm) as u64
        };
        lemma_tick_nanos_bound(tempos, tpq, end_tick as int);
        let t = tick_nanos(tempos, tpq, end_tick as int);
        let end_time = if t > time {
            t
        } else {
            time
        };
        if end_time <= limit {
            lemma_measures_from_tile(tpq, tempos, ms, limit, end_tick, end_time);
            let rest = measures_from(tpq, tempos, ms, limit, end_tick, end_time);
            assert(s == seq![s[0]] + rest);
            assert forall|k: int| 0 <= k < s.len() - 1 implies #[trigger] s[k].end == s[k + 1].start by {
                if k > 0 {
                    assert(s[k] == rest[k - 1] && s[k + 1] == rest[k]);
                }
            }
            assert forall|i: int, j: int| 0 <= i <= j < s.len() implies #[trigger] s[i].start
                <= #[trigger] s[j].start by {
                if i > 0 {
                    assert(s[i] == rest[i - 1] && s[j] == rest[j - 1]);
                } else if j > 0 {
                    assert(s[j] == rest[j - 1]);
                }
            }
            assert forall|k: int| 0 <= k < s.len() implies #[trigger] s[k].start <= s[k].end by {
                if k > 0 {
                    assert(s[k] == rest[k - 1]);
                }
            }
            assert forall|k: int| 0 <= k < s.len() implies #[trigger] s[k].start >= time by {
                if k > 0 {
                    assert(s[k] == rest[k - 1]);
                }
            }
        }
    }
}

/// The measure map tiles the song from time 0: it holds at least one
/// measure, the first starts at 0, no measure ends before it starts, each
/// ends where the next starts, and the starts never decrease.
pub proof fn lemma_measure_map_tiles(
    tpq: u16,
    tempos: Seq<(u64, u32)>,
    meters: Seq<(u64, u8, u8)>,
    total_length: u128,
)
    ensures
        measure_map(tpq, tempos, meters, total_length as int).len() >= 1,
        measure_map(tpq, tempos, meters, total_length as int)[0].start == 0,
        tiles(measure_map(tpq, tempos, meters, total_length as int)),
{
    lemma_measures_from_tile(tpq, tempos, meter_list(meters), total_length + 5_000_000_000, 0, 0);
}

/// The time signature in force is the last one at or before the tick.
proof fn lemma_meter_index(ms: Seq<(u64, u8, u8)>, tick: int, idx: int)
    requires
        meters_sorted(ms),
        0 <= idx < ms.len(),
        idx == 0 || ms[idx].0 <= tick,
        idx + 1 >= ms.len() || ms[idx + 1].0 > tick,
    ensures
        meter_index(ms, tick) == idx,
    decreases ms.len(),
{
    if ms.len() > 1 {
        if ms.last().0 <= tick {
            if idx + 1 < ms.len() {
                assert(ms[idx + 1].0 <= ms[ms.len() - 1].0);
            }
        } else {
            lemma_meter_index(ms.drop_last(), tick, idx);
        }
    }
}

/// The time signature in force at a tick, over a sorted list: an entry at
/// or before the tick (or the first one), with the next entry after it.
proof fn lemma_meter_index_bounds(ms: Seq<(u64, u8, u8)>, tick: int)
    requires
        meters_sorted(ms),
        ms.len() >= 1,
    ensures
        0 <= meter_index(ms, tick) < ms.len(),
        meter_index(ms, tick) == 0 || ms[meter_index(ms, tick)].0 <= tick,
        meter_index(ms, tick) + 1 >= ms.len() || ms[meter_index(ms, tick) + 1].0 > tick,
    decreases ms.len(),
{
    if ms.len() > 1 && ms.last().0 > tick {
        let d = ms.drop_last();
        assert(meters_sorted(d)) by {
            assert forall|i: int, j: int| 0 <= i <= j < d.len() implies #[trigger] d[i].0 <= #[trigger] d[j].0 by {
                assert(d[i] == ms[i] && d[j] == ms[j]);
            }
        }
        lemma_meter_index_bounds(d, tick);
        let mi = meter_index(d, tick);
        assert(d[mi] == ms[mi]);
        if mi + 1 < d.len() {
            assert(d[mi + 1] == ms[mi + 1]);
        }
    }
}

/// Over a sorted tempo map, the measures from a barline reached at the time
/// of its tick never hold the time of a time-signature change of `ms`
/// strictly inside them.
proof fn lemma_barlines_from(
    tpq: u16,
    tempos: Seq<(u64, u32)>,
    ms: Seq<(u64, u8, u8)>,
    limit: int,
    tick: u64,
    time: int,
    c: int,
)
    requires
        ticks_sorted(tempos),
        meters_sorted(ms),
        ms.len() >= 1,
        ms[0].0 <= tick,
        time == tick_nanos(tempos, tpq, tick as int),
        0 <= c < ms.len(),
    ensures
        forall|k: int| 0 <= k < measures_from(tpq, tempos, ms, limit, tick, time).len() ==> !(
            #[trigger] measures_from(tpq, tempos, ms, limit, tick, time)[k].start < tick_nanos(
                tempos,
                tpq,
                ms[c].0 as int,
            ) < measures_from(tpq, tempos, ms, limit, tick, time)[k].end),
    decreases u64::MAX - tick,
{
    let s = measures_from(tpq, tempos, ms, limit, tick, time);
    let tc = tick_nanos(tempos, tpq, ms[c].0 as int);
    let idx = meter_index(ms, tick as int);
    lemma_meter_index_bounds(ms, tick as int);
    let m = ms[idx];
    let tpm = ticks_per_measure(tpq, m.1, m.2);
    if !(tpm <= 0 || tick + tpm > u64::MAX) {
        let end_tick: u64 = if cut_by_meter(ms, idx, tick as int, tpm) {
            ms[idx + 1].0
        } else {
            (tick + tpm) as u64
        };
        lemma_tick_nanos_bound(tempos, tpq, tick as int);
        lemma_tick_nanos_bound(tempos, tpq, end_tick as int);
        lemma_tick_nanos_monotone(tempos, tpq, tick as int, end_tick as int);
        let end_time = tick_nanos(tempos, tpq, end_tick as int);
        assert(s[0].start == time && s[0].end == end_time);
        if ms[c].0 <= tick {
            lemma_tick_nanos_monotone(tempos, tpq, ms[c].0 as int, tick as int);
        } else {
            if c <= idx {
                assert(ms[c].0 <= ms[idx].0);
            }
            assert(ms[idx + 1].0 <= ms[c].0);
            lemma_tick_nanos_monotone(tempos, tpq, end_tick as int, ms[c].0 as int);
        }
        assert(!(s[0].start < tc < s[0].end));
        if end_time <= limit {
            lemma_barlines_from(tpq, tempos, ms, limit, end_tick, end_time, c);
            let rest = measures_from(tpq, tempos, ms, limit, end_tick, end_time);
            assert forall|k: int| 0 <= k < s.len() implies !(#[trigger] s[k].start < tc < s[k].end) by {
                if k > 0 {
                    assert(s[k] == rest[k - 1]);
                }
            }
        }
    }
}

/// A time-signature change never falls inside a measure: where the measures
/// could be laid out (no stand-in bar), the time of each change lies at or
/// before the start, or at or after the end, of every measure; a change
/// within a bar cuts the bar there.
pub proof fn lemma_meter_changes_at_barlines(
    tpq: u16,
    tempos: Seq<(u64, u32)>,
    meters: Seq<(u64, u8, u8)>,
    total_length: u128,
    i: int,
)
    requires
        ticks_sorted(tempos),
        meters.len() <= usize::MAX,
        0 <= i < meters.len(),
        laid_measures(tpq, tempos, meters, total_length as int).len() > 0,
    ensures
        forall|k: int| 0 <= k < measure_map(tpq, tempos, meters, total_length as int).len() ==> !(
            #[trigger] measure_map(tpq, tempos, meters, total_length as int)[k].start < tick_nanos(
                tempos,
                tpq,
                meters[i].0 as int,
            ) < measure_map(tpq, tempos, meters, total_length as int)[k].end),
{
    let keys = meter_keys(meters);
    lemma_stable_order_of(keys);
    let p = stable_order_of(keys);
    lemma_meter_list_sorted(meters, p);
    lemma_stable_order_covers(keys, p, i);
    let j = choose|j: int| 0 <= j < p.len() && p[j] == i;
    let sorted = stably_sorted(meters, keys);
    assert(sorted[j] == meters[i]);
    let ml = meter_list(meters);
    let c = if sorted.len() > 0 && sorted[0].0 > 0 {
        j + 1
    } else {
        j
    };
    assert(ml[c] == meters[i]);
    lemma_numer_zero(tempos);
    lemma_barlines_from(tpq, tempos, ml, total_length + 5_000_000_000, 0, 0, c);
}

/// At tick 0 no time has passed.
proof fn lemma_numer_zero(tempos: Seq<(u64, u32)>)
    ensures
        tempo_numer(tempos, 0) == 0,
    decreases tempos.len(),
{
    if tempos.len() > 1 {
        lemma_numer_zero(tempos.drop_last());
    }
}

/// Time signature `j` of `ms` is the one in force at tick `a`: the last one
/// at or before it.
pub open spec fn in_force(ms: Seq<(u64, u8, u8)>, j: int, a: int) -> bool {
    &&& 0 <= j < ms.len()
    &&& ms[j].0 <= a
    &&& j + 1 == ms.len() || ms[j + 1].0 > a
}

/// The ticks of a full measure of time signature `m` at `tpq` ticks per
/// quarter: `num · tpq · 4 / 2^den`, a numerator of 0 read as 1 and the
/// denominator power capped at 16.
pub open spec fn full_ticks(tpq: u16, m: (u64, u8, u8)) -> int {
    let num: int = if m.1 == 0 {
        1
    } else {
        m.1 as int
    };
    num * tpq * 4 / (pow2(
        if m.2 > 16 {
            16nat
        } else {
            m.2 as nat
        },
    ) as int)
}

/// Measure `bar` spans ticks `a` to `b` of a song with time signatures
/// `ms`: the time signature in force at `a` gives a full measure of
/// [`full_ticks`], which ends early at the next time signature when that
/// comes first; the measure starts and ends at the times of its ticks under
/// the tempo map, and a full measure's quarter is its length over its beats
/// in quarters.
pub open spec fn bar_spans(
    tpq: u16,
    tempos: Seq<(u64, u32)>,
    ms: Seq<(u64, u8, u8)>,
    bar: Measure,
    a: int,
    b: int,
) -> bool {
    &&& exists|j: int|
        #![trigger in_force(ms, j, a)]
        in_force(ms, j, a) && {
            let len = full_ticks(tpq, ms[j]);
            let num: int = if ms[j].1 == 0 {
                1
            } else {
                ms[j].1 as int
            };
            let den: int = pow2(
                if ms[j].2 > 16 {
                    16nat
                } else {
                    ms[j].2 as nat
                },
            ) as int;
            &&& 0 < len
            &&& a + len <= u64::MAX
            &&& b == if j + 1 < ms.len() && ms[j + 1].0 < a + len {
                ms[j + 1].0 as int
            } else {
                a + len
            }
            &&& b == a + len ==> bar.quarter == (bar.end - bar.start) * den / (4 * num)
        }
    &&& bar.start == tick_nanos(tempos, tpq, a)
    &&& bar.end == tick_nanos(tempos, tpq, b)
}

/// No measure can follow tick `b`: the time signature in force there has
/// measures of no ticks, or one would run past the `u64` range.
pub open spec fn layout_stops(tpq: u16, ms: Seq<(u64, u8, u8)>, b: int) -> bool {
    forall|j: int| #[trigger] in_force(ms, j, b) ==> full_ticks(tpq, ms[j]) <= 0 || b + full_ticks(tpq, ms[j]) > u64::MAX
}

/// How the measures from tick `tick` are laid out: bar `k` spans ticks
/// `ticks[k]` to `ticks[k + 1]`, starting at `tick`; every bar but the last
/// ends by `limit`; and the layout ends with a bar that ends after `limit`
/// or where no bar can follow.
pub open spec fn laid_out(
    tpq: u16,
    tempos: Seq<(u64, u32)>,
    ms: Seq<(u64, u8, u8)>,
    limit: int,
    tick: int,
    bars: Seq<Measure>,
    ticks: Seq<int>,
) -> bool {
    &&& ticks.len() == bars.len() + 1
    &&& ticks[0] == tick
    &&& forall|k: int| 0 <= k < bars.len() ==> bar_spans(tpq, tempos, ms, #[trigger] bars[k], ticks[k], ticks[k + 1])
    &&& forall|k: int| 0 <= k < bars.len() - 1 ==> #[trigger] bars[k].end <= limit
    &&& (bars.len() > 0 && bars.last().end > limit) || layout_stops(tpq, ms, ticks.last())
}

proof fn lemma_beat_den_pow2(d: u8)
    ensures
        beat_den(d) as int == pow2(
            if d > 16 {
                16nat
            } else {
                d as nat
            },
        ),
        1 <= beat_den(d) <= 65536,
{
    lemma2_to64();
    let s: u8 = if d > 16 {
        16
    } else {
        d
    };
    assert({
        &&& (s == 0 ==> (1u64 << s) == 1)
        &&& (s == 1 ==> (1u64 << s) == 2)
        &&& (s == 2 ==> (1u64 << s) == 4)
        &&& (s == 3 ==> (1u64 << s) == 8)
        &&& (s == 4 ==> (1u64 << s) == 16)
        &&& (s == 5 ==> (1u64 << s) == 32)
        &&& (s == 6 ==> (1u64 << s) == 64)
        &&& (s == 7 ==> (1u64 << s) == 128)
        &&& (s == 8 ==> (1u64 << s) == 256)
        &&& (s == 9 ==> (1u64 << s) == 512)
        &&& (s == 10 ==> (1u64 << s) == 1024)
        &&& (s == 11 ==> (1u64 << s) == 2048)
        &&& (s == 12 ==> (1u64 << s) == 4096)
        &&& (s == 13 ==> (1u64 << s) == 8192)
        &&& (s == 14 ==> (1u64 << s) == 16384)
        &&& (s == 15 ==> (1u64 << s) == 32768)
        &&& (s == 16 ==> (1u64 << s) == 65536)
        &&& 1 <= (1u64 << s) <= 65536
    }) by (bit_vector)
        requires
            s <= 16,
    ;
}

proof fn lemma_in_force_unique(ms: Seq<(u64, u8, u8)>, j: int, j2: int, a: int)
    requires
        meters_sorted(ms),
        in_force(ms, j, a),
        in_force(ms, j2, a),
    ensures
        j == j2,
{
    if j < j2 {
        assert(ms[j + 1].0 <= ms[j2].0);
    } else if j2 < j {
        assert(ms[j2 + 1].0 <= ms[j].0);
    }
}

proof fn lemma_laid_out_from(
    tpq: u16,
    tempos: Seq<(u64, u32)>,
    ms: Seq<(u64, u8, u8)>,
    limit: int,
    tick: u64,
    time: int,
)
    requires
        ticks_sorted(tempos),
        meters_sorted(ms),
        ms.len() >= 1,
        ms[0].0 <= tick,
        time == tick_nanos(tempos, tpq, tick as int),
    ensures
        exists|ticks: Seq<int>|
            #[trigger] laid_out(tpq, tempos, ms, limit, tick as int, measures_from(tpq, tempos, ms, limit, tick, time), ticks),
    decreases u64::MAX - tick,
{
    let s = measures_from(tpq, tempos, ms, limit, tick, time);
    let idx = meter_index(ms, tick as int);
    lemma_meter_index_bounds(ms, tick as int);
    let m = ms[idx];
    let tpm = ticks_per_measure(tpq, m.1, m.2);
    lemma_beat_den_pow2(m.2);
    assert(in_force(ms, idx, tick as int));
    assert(full_ticks(tpq, m) == tpm);
    if tpm <= 0 || tick + tpm > u64::MAX {
        let ticks = seq![tick as int];
        assert forall|j: int| #[trigger] in_force(ms, j, tick as int) implies full_ticks(tpq, ms[j]) <= 0 || tick
            + full_ticks(tpq, ms[j]) > u64::MAX by {
            lemma_in_force_unique(ms, j, idx, tick as int);
        }
        assert(laid_out(tpq, tempos, ms, limit, tick as int, s, ticks));
    } else {
        let end_tick: u64 = if cut_by_meter(ms, idx, tick as int, tpm) {
            ms[idx + 1].0
        } else {
            (tick + tpm) as u64
        };
        lemma_tick_nanos_bound(tempos, tpq, tick as int);
        lemma_tick_nanos_bound(tempos, tpq, end_tick as int);
        lemma_tick_nanos_monotone(tempos, tpq, tick as int, end_tick as int);
        let end_time = tick_nanos(tempos, tpq, end_tick as int);
        let dt = end_time - time;
        assert(0 <= dt * beat_den(m.2) <= time_bound() * 65536) by (nonlinear_arith)
            requires
                0 <= dt <= time_bound(),
                1 <= beat_den(m.2) <= 65536,
        ;
        assert(bar_spans(tpq, tempos, ms, s[0], tick as int, end_tick as int));
        if end_time > limit {
            let ticks = seq![tick as int, end_tick as int];
            assert(s.len() == 1);
            assert(laid_out(tpq, tempos, ms, limit, tick as int, s, ticks));
        } else {
            lemma_laid_out_from(tpq, tempos, ms, limit, end_tick, end_time);
            let rest = measures_from(tpq, tempos, ms, limit, end_tick, end_time);
            let rt = choose|rt: Seq<int>| laid_out(tpq, tempos, ms, limit, end_tick as int, rest, rt);
            let ticks = seq![tick as int] + rt;
            assert(s == seq![s[0]] + rest);
            assert forall|k: int| 0 <= k < s.len() implies bar_spans(tpq, tempos, ms, #[trigger] s[k], ticks[k], ticks[k + 1]) by {
                if k > 0 {
                    assert(s[k] == rest[k - 1] && ticks[k] == rt[k - 1] && ticks[k + 1] == rt[k]);
                }
            }
            assert forall|k: int| 0 <= k < s.len() - 1 implies #[trigger] s[k].end <= limit by {
                if k > 0 {
                    assert(s[k] == rest[k - 1]);
                }
            }
            assert(ticks.last() == rt.last());
            if rest.len() > 0 {
                assert(s.last() == rest.last());
            }
            assert(laid_out(tpq, tempos, ms, limit, tick as int, s, ticks));
        }
    }
}

/// How the measure map is laid out: from tick 0, each measure spans the
/// ticks of the time signature in force at its start (`num · tpq · 4 /
/// 2^den`, cut short only by the next time-signature change), and the next
/// measure starts at the tick where it ends; every measure but the last ends
/// by five seconds after the song, and the last ends after that or where no
/// measure can follow.  When no measure can be laid out from tick 0, the
/// single stand-in bar is the map.
pub proof fn lemma_measure_layout(
    tpq: u16,
    tempos: Seq<(u64, u32)>,
    meters: Seq<(u64, u8, u8)>,
    total_length: u128,
)
    requires
        ticks_sorted(tempos),
        meters.len() <= usize::MAX,
    ensures
        exists|ticks: Seq<int>|
            #[trigger] laid_out(
                tpq,
                tempos,
                meter_list(meters),
                total_length + 5_000_000_000,
                0,
                laid_measures(tpq, tempos, meters, total_length as int),
                ticks,
            ),
        laid_measures(tpq, tempos, meters, total_length as int).len() == 0 ==> measure_map(
            tpq,
            tempos,
            meters,
            total_length as int,
        ) == seq![fallback_measure(total_length as int)],
        laid_measures(tpq, tempos, meters, total_length as int).len() > 0 ==> measure_map(
            tpq,
            tempos,
            meters,
            total_length as int,
        ) == laid_measures(tpq, tempos, meters, total_length as int),
{
    let keys = meter_keys(meters);
    lemma_stable_order_of(keys);
    lemma_meter_list_sorted(meters, stable_order_of(keys));
    lemma_numer_zero(tempos);
    let ml = meter_list(meters);
    let limit = total_length + 5_000_000_000;
    lemma_laid_out_from(tpq, tempos, ml, limit, 0, 0);
    let laid = measures_from(tpq, tempos, ml, limit, 0, 0);
    let ticks = choose|ticks: Seq<int>| laid_out(tpq, tempos, ml, limit, 0, laid, ticks);
    assert(laid == laid_measures(tpq, tempos, meters, total_length as int));
    assert(laid_out(tpq, tempos, ml, limit, 0, laid_measures(tpq, tempos, meters, total_length as int), ticks));
}

/// A stably sorted list of time signatures is in tick order, and so is the
/// meter list built from it.
pub proof fn lemma_meter_list_sorted(meters: Seq<(u64, u8, u8)>, p: Seq<usize>)
    requires
        is_stable_order(meter_keys(meters), p),
    ensures
        meters_sorted(meter_list(meters)),
        meter_list(meters).len() >= 1,
        meter_list(meters)[0].0 == 0,
{
    lemma_stable_order_is_chosen(meter_keys(meters), p);
    let s = stably_sorted(meters, meter_keys(meters));
    assert forall|i: int, j: int| 0 <= i <= j < s.len() implies #[trigger] s[i].0
        <= #[trigger] s[j].0 by {
        if i < j {
            assert(key_before(meter_keys(meters), p[i] as int, p[j] as int));
        }
    }
    let l = meter_list(meters);
    if s.len() > 0 && s[0].0 > 0 {
        assert forall|i: int, j: int| 0 <= i <= j < l.len() implies #[trigger] l[i].0
            <= #[trigger] l[j].0 by {
            if i > 0 {
                assert(l[i] == s[i - 1] && l[j] == s[j - 1]);
            }
        }
    }
}

/// The time signatures of `meters`, sorted by tick (stable).
pub fn sorted_meters(meters: &Vec<(u64, u8, u8)>) -> (r: Vec<(u64, u8, u8)>)
    ensures
        r@ == stably_sorted(meters@, meter_keys(meters@)),
        is_stable_order(meter_keys(meters@), stable_order_of(meter_keys(meters@))),
{
    let mut keys: Vec<u128> = Vec::new();
    let mut i: usize = 0;
    while i < meters.len()
        invariant
            i <= meters.len(),
            keys@ == meter_keys(meters@).take(i as int),
        decreases meters.len() - i,
    {
        keys.push(meters[i].0 as u128);
        i = i + 1;
        assert(keys@ =~= meter_keys(meters@).take(i as int));
    }
    assert(keys@ =~= meter_keys(meters@));
    let order = stable_order(&keys);
    let mut r: Vec<(u64, u8, u8)> = Vec::new();
    let mut k: usize = 0;
    while k < order.len()
        invariant
            k <= order.len(),
            is_stable_order(keys@, order@),
            keys@ == meter_keys(meters@),
            r@ == arrange(meters@, order@).take(k as int),
        decreases order.len() - k,
    {
        r.push(meters[order[k]]);
        k = k + 1;
        assert(r@ =~= arrange(meters@, order@).take(k as int));
    }
    assert(r@ =~= arrange(meters@, order@));
    r
}

fn max_u128(a: u128, b: u128) -> (r: u128)
    ensures
        r == if a > b {
            a
        } else {
            b
        },
{
    if a > b {
        a
    } else {
        b
    }
}

/// The tempo map ends in a tempo of 0 µs per quarter that begins no later
/// than five seconds after a song of `total_length` nanoseconds: time stops
/// before the measure map could end.
pub open spec fn tempo_stalls(tempos: Seq<(u64, u32)>, tpq: u16, total_length: int) -> bool {
    &&& tempos.len() > 0
    &&& tempos.last().1 == 0
    &&& tick_nanos(tempos, tpq, tempos.last().0 as int) <= total_length + 5_000_000_000
}

/// Lays out the measure map: from tick 0, each measure spans the ticks of the
/// time signature in force at its start (4/4 where none is given), ends early
/// where a time-signature change falls inside it, and is timed by the tempo
/// map; the map ends with the first measure that ends more than five seconds
/// after `total_length`.  When not even one measure can be laid out, one 4/4
/// bar over the whole song (at least two seconds) stands in.  A tempo map
/// whose time stops before that point is refused.
pub fn calculate_measure_map(
    tpq: u16,
    tempo_changes: &Vec<(u64, u32)>,
    meters: &Vec<(u64, u8, u8)>,
    total_length: u128,
) -> (r: Result<Vec<Measure>, LoadError>)
    requires
        ticks_sorted(tempo_changes@),
    ensures
        match r {
            Ok(v) => !tempo_stalls(tempo_changes@, tpq, total_length as int)
                && v@ == measure_map(tpq, tempo_changes@, meters@, total_length as int),
            Err(e) => tempo_stalls(tempo_changes@, tpq, total_length as int) && e == LoadError::TempoStall,
        },
{
    if tempo_changes.len() > 0 {
        let last = tempo_changes[tempo_changes.len() - 1];
        if last.1 == 0 {
            let frozen = nanos_for_tick(last.0, tpq, tempo_changes);
            if frozen <= total_length || frozen - total_length <= 5_000_000_000 {
                return Err(LoadError::TempoStall);
            }
        }
    }
    let mut ms = sorted_meters(meters);
    proof {
        lemma_meter_list_sorted(meters@, stable_order_of(meter_keys(meters@)));
    }
    if ms.len() == 0 {
        ms.push((0, 4, 2));
    } else if ms[0].0 > 0 {
        ms.insert(0, (0, 4, 2));
    }
    assert(ms@ =~= meter_list(meters@));
    let ghost limit: int = total_length + 5_000_000_000;
    let ghost whole = measures_from(tpq, tempo_changes@, ms@, limit, 0, 0);
    let mut measures: Vec<Measure> = Vec::new();
    let mut current_tick: u64 = 0;
    let mut current_time: u128 = 0;
    let mut meter_idx: usize = 0;
    loop
        invariant_except_break
            ms@ == meter_list(meters@),
            meters_sorted(ms@),
            ms.len() >= 1,
            ticks_sorted(tempo_changes@),
            limit == total_length + 5_000_000_000,
            meter_idx < ms.len(),
            meter_idx == 0 || ms[meter_idx as int].0 <= current_tick,
            current_time <= time_bound(),
            measures@ + measures_from(tpq, tempo_changes@, ms@, limit, current_tick, current_time as int)
                == whole,
        ensures
            measures@ == whole,
        decreases u64::MAX - current_tick,
    {
        while meter_idx + 1 < ms.len() && current_tick >= ms[meter_idx + 1].0
            invariant
                meters_sorted(ms@),
                meter_idx < ms.len(),
                meter_idx == 0 || ms[meter_idx as int].0 <= current_tick,
            decreases ms.len() - meter_idx,
        {
            meter_idx = meter_idx + 1;
        }
        proof {
            lemma_meter_index(ms@, current_tick as int, meter_idx as int);
        }
        let (_, num_raw, den_pow) = ms[meter_idx];
        let num: u64 = if num_raw == 0 {
            1
        } else {
            num_raw as u64
        };
        let shift: u8 = if den_pow > 16 {
            16
        } else {
            den_pow
        };
        let den: u64 = 1u64 << shift;
        assert(1 <= (1u64 << shift) <= 65536) by (bit_vector)
            requires
                shift <= 16,
        ;
        assert(den == beat_den(den_pow));
        assert(num * tpq as u64 * 4 <= 255 * 65535 * 4) by (nonlinear_arith)
            requires
                num <= 255,
                tpq <= 65535,
        ;
        let ticks_per_measure: u64 = num * tpq as u64 * 4 / den;
        let ghost rest = measures_from(tpq, tempo_changes@, ms@, limit, current_tick, current_time as int);
        if ticks_per_measure == 0 {
            assert(rest =~= Seq::<Measure>::empty());
            assert(measures@ =~= whole);
            break;
        }
        let bar_end = match current_tick.checked_add(ticks_per_measure) {
            Some(e) => e,
            None => {
                assert(rest =~= Seq::<Measure>::empty());
                assert(measures@ =~= whole);
                break;
            },
        };
        let cut = meter_idx + 1 < ms.len() && ms[meter_idx + 1].0 < bar_end;
        assert(cut == cut_by_meter(ms@, meter_idx as int, current_tick as int, ticks_per_measure as int));
        let end_tick: u64 = if cut {
            ms[meter_idx + 1].0
        } else {
            bar_end
        };
        proof {
            lemma_tick_nanos_bound(tempo_changes@, tpq, end_tick as int);
        }
        let end_time = max_u128(nanos_for_tick(end_tick, tpq, tempo_changes), current_time);
        assert((end_time - current_time) * den <= time_bound() * 65536) by (nonlinear_arith)
            requires
                end_time - current_time <= time_bound(),
                den <= 65536,
        ;
        let quarter = if cut {
            assert((end_time - current_time) * (tpq as int) <= time_bound() * 65535) by (nonlinear_arith)
                requires
                    end_time - current_time <= time_bound(),
                    tpq <= 65535,
            ;
            (end_time - current_time) * tpq as u128 / ((end_tick - current_tick) as u128)
        } else {
            (end_time - current_time) * den as u128 / (4 * num as u128)
        };
        let meas = Measure { start: current_time, end: end_time, quarter };
        let ghost old_measures = measures@;
        measures.push(meas);
        let ghost old_tick = current_tick;
        current_tick = end_tick;
        current_time = end_time;
        if current_time > total_length && current_time - total_length > 5_000_000_000 {
            assert(rest =~= seq![meas]);
            assert(measures@ =~= old_measures + rest);
            break;
        }
        assert(rest =~= seq![meas] + measures_from(
            tpq,
            tempo_changes@,
            ms@,
            limit,
            current_tick,
            current_time as int,
        ));
        assert(measures@ + measures_from(tpq, tempo_changes@, ms@, limit, current_tick, current_time as int)
            =~= old_measures + rest);
    }
    if measures.len() == 0 {
        let end: u128 = if total_length > 2_000_000_000 {
            total_length
        } else {
            2_000_000_000
        };
        measures.push(Measure { start: 0, end, quarter: end / 4 });
        assert(measures@ =~= seq![fallback_measure(total_length as int)]);
    }
    Ok(measures)
}

} // verus!
