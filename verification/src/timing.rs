//! Tick-to-time conversion over a tempo map.
//!
//! A tempo map lists `(tick, microseconds per quarter note)` changes, sorted
//! by tick.  The time of a tick is the sum, over the tempo segments that lie
//! before it, of `ticks × µs per quarter`, divided by the ticks per quarter
//! note.  Times are whole nanoseconds (rounded down).

use vstd::prelude::*;

verus! {

/// The tempo in force before any tempo change: 120 beats per minute.
pub const DEFAULT_TEMPO: u32 = 500_000;

/// The entries of a tempo map are in non-decreasing tick order.
pub open spec fn ticks_sorted(map: Seq<(u64, u32)>) -> bool {
    forall|i: int, j: int| 0 <= i <= j < map.len() ==> #[trigger] map[i].0 <= #[trigger] map[j].0
}

/// `tick` ticks from the start, measured in tick·microseconds per quarter:
/// each tick lasts the tempo of the latest change at or before it (the first
/// entry's tempo before the first change, [`DEFAULT_TEMPO`] for an empty map).
pub open spec fn tempo_numer(map: Seq<(u64, u32)>, tick: int) -> int
    decreases map.len(),
{
    if map.len() == 0 {
        tick * DEFAULT_TEMPO
    } else if map.len() == 1 {
        tick * map[0].1
    } else {
        let t = map.last().0 as int;
        if t >= tick {
            tempo_numer(map.drop_last(), tick)
        } else {
            tempo_numer(map.drop_last(), t) + (tick - t) * map.last().1
        }
    }
}

/// The time of `tick`, in nanoseconds, for `tpq` ticks per quarter note
/// (0 when `tpq` is 0).
pub open spec fn tick_nanos(map: Seq<(u64, u32)>, tpq: u16, tick: int) -> int {
    if tpq == 0 {
        0
    } else {
        tempo_numer(map, tick) * 1000 / (tpq as int)
    }
}

proof fn lemma_mul_sub(x: int, a: int, b: int)
    ensures
        b * x == a * x + (b - a) * x,
{
    assert(b * x == a * x + (b - a) * x) by (nonlinear_arith);
}

/// Past the last change, time grows linearly at the last tempo.
proof fn lemma_numer_extend(s: Seq<(u64, u32)>, a: int, b: int)
    requires
        s.len() >= 1,
        s.len() == 1 || s.last().0 <= a,
        a <= b,
    ensures
        tempo_numer(s, b) == tempo_numer(s, a) + (b - a) * s.last().1,
{
    let us = s.last().1 as int;
    if s.len() == 1 {
        lemma_mul_sub(us, a, b);
    } else {
        let t = s.last().0 as int;
        if t < a {
            lemma_mul_sub(us, a - t, b - t);
        } else if t < b {
            lemma_mul_sub(us, 0, b - a);
        }
    }
}

/// Changes at or after `tick` do not affect the time of `tick`.
proof fn lemma_numer_prefix(s: Seq<(u64, u32)>, k: int, tick: int)
    requires
        1 <= k <= s.len(),
        forall|i: int| k <= i < s.len() ==> #[trigger] s[i].0 >= tick,
    ensures
        tempo_numer(s, tick) == tempo_numer(s.take(k), tick),
    decreases s.len(),
{
    if k == s.len() {
        assert(s.take(k) =~= s);
    } else {
        assert(s.drop_last().take(k) =~= s.take(k));
        lemma_numer_prefix(s.drop_last(), k, tick);
    }
}

/// The time of a tick is at most `tick × u32::MAX`.
pub proof fn lemma_numer_bound(s: Seq<(u64, u32)>, tick: int)
    requires
        tick >= 0,
    ensures
        0 <= tempo_numer(s, tick) <= tick * 0xFFFF_FFFF,
    decreases s.len(),
{
    if s.len() <= 1 {
        let us: int = if s.len() == 0 { DEFAULT_TEMPO as int } else { s[0].1 as int };
        assert(0 <= tick * us <= tick * 0xFFFF_FFFF) by (nonlinear_arith)
            requires
                tick >= 0,
                0 <= us <= 0xFFFF_FFFF,
        ;
    } else {
        let t = s.last().0 as int;
        let us = s.last().1 as int;
        if t >= tick {
            lemma_numer_bound(s.drop_last(), tick);
        } else {
            lemma_numer_bound(s.drop_last(), t);
            assert(0 <= (tick - t) * us <= (tick - t) * 0xFFFF_FFFF) by (nonlinear_arith)
                requires
                    tick - t >= 0,
                    0 <= us <= 0xFFFF_FFFF,
            ;
            assert(t * 0xFFFF_FFFF + (tick - t) * 0xFFFF_FFFF == tick * 0xFFFF_FFFF)
                by (nonlinear_arith);
        }
    }
}

/// Time never runs backwards: over a tick-sorted tempo map, a later tick
/// has an equal or later time.
pub proof fn lemma_tick_nanos_monotone(map: Seq<(u64, u32)>, tpq: u16, a: int, b: int)
    requires
        ticks_sorted(map),
        0 <= a <= b,
    ensures
        tick_nanos(map, tpq, a) <= tick_nanos(map, tpq, b),
{
    lemma_numer_monotone(map, a, b);
    if tpq > 0 {
        let x = tempo_numer(map, a);
        let y = tempo_numer(map, b);
        assert(x * 1000 / (tpq as int) <= y * 1000 / (tpq as int)) by (nonlinear_arith)
            requires
                x <= y,
                tpq > 0,
        ;
    }
}

proof fn lemma_numer_monotone(map: Seq<(u64, u32)>, a: int, b: int)
    requires
        ticks_sorted(map),
        0 <= a <= b,
    ensures
        tempo_numer(map, a) <= tempo_numer(map, b),
    decreases map.len(),
{
    if map.len() <= 1 {
        let us: int = if map.len() == 0 { DEFAULT_TEMPO as int } else { map[0].1 as int };
        assert(a * us <= b * us) by (nonlinear_arith)
            requires
                a <= b,
                us >= 0,
        ;
    } else {
        let d = map.drop_last();
        assert(ticks_sorted(d)) by {
            assert forall|i: int, j: int| 0 <= i <= j < d.len() implies #[trigger] d[i].0 <= #[trigger] d[j].0 by {
                assert(d[i] == map[i] && d[j] == map[j]);
            }
        }
        let t = map.last().0 as int;
        let us = map.last().1 as int;
        if t >= b {
            lemma_numer_monotone(d, a, b);
        } else if t < a {
            assert((a - t) * us <= (b - t) * us) by (nonlinear_arith)
                requires
                    a <= b,
                    us >= 0,
            ;
        } else {
            lemma_numer_monotone(d, a, t);
            assert(0 <= (b - t) * us) by (nonlinear_arith)
                requires
                    t <= b,
                    us >= 0,
            ;
        }
    }
}

/// Under a single tempo of `us` µs per quarter from tick 0, tick `t` falls
/// at `t · us · 1000 / tpq` nanoseconds.
pub proof fn lemma_single_tempo(us: u32, tpq: u16, t: int)
    requires
        tpq > 0,
    ensures
        tick_nanos(seq![(0u64, us)], tpq, t) == t * us * 1000 / (tpq as int),
{
}

/// The time of `tick` in nanoseconds, for `tpq` ticks per quarter note and a
/// tempo map sorted by tick.
pub fn nanos_for_tick(tick: u64, tpq: u16, tempo_map: &Vec<(u64, u32)>) -> (r: u128)
    requires
        ticks_sorted(tempo_map@),
    ensures
        r == tick_nanos(tempo_map@, tpq, tick as int),
{
    let ghost map = tempo_map@;
    let len = tempo_map.len();
    if len == 0 {
        proof {
            lemma_numer_bound(map, tick as int);
        }
        let numer = tick as u128 * DEFAULT_TEMPO as u128;
        return if tpq == 0 {
            0
        } else {
            numer * 1000 / tpq as u128
        };
    }
    let mut acc: u128 = 0;
    let mut last: u64 = 0;
    let mut cur: u32 = tempo_map[0].1;
    let mut k: usize = 0;
    while k < len
        invariant_except_break
            len == tempo_map.len(),
            map == tempo_map@,
            len >= 1,
            ticks_sorted(map),
            k <= len,
            k == 0 ==> last == 0 && acc == 0 && cur == map[0].1,
            k >= 1 ==> last == map[k - 1].0 && last < tick && cur == map[k - 1].1,
            k >= 1 ==> acc == tempo_numer(map.take(k as int), last as int),
        ensures
            k >= 1 ==> last == map[k - 1].0 && last < tick && cur == map[k - 1].1,
            k >= 1 ==> acc == tempo_numer(map.take(k as int), last as int),
            k == 0 ==> last == 0 && acc == 0 && cur == map[0].1,
            forall|i: int| k <= i < len ==> #[trigger] map[i].0 >= tick,
            k <= len,
        decreases len - k,
    {
        let (t, us) = tempo_map[k];
        if t >= tick {
            assert forall|i: int| k <= i < len implies #[trigger] map[i].0 >= tick by {
                assert(map[k as int].0 <= map[i].0);
            }
            break;
        }
        proof {
            if k >= 1 {
                assert(map[k - 1].0 <= map[k as int].0);
                lemma_numer_extend(map.take(k as int), last as int, t as int);
                assert(map.take(k + 1).drop_last() =~= map.take(k as int));
            }
            lemma_numer_bound(map.take(k + 1), t as int);
            assert(t as int * 0xFFFF_FFFF <= 0xFFFF_FFFF_FFFF_FFFF * 0xFFFF_FFFF)
                by (nonlinear_arith)
                requires
                    t <= 0xFFFF_FFFF_FFFF_FFFF,
            ;
        }
        if t > last {
            acc = acc + (t - last) as u128 * cur as u128;
            last = t;
        }
        cur = us;
        k = k + 1;
    }
    let kk: usize = if k == 0 {
        1
    } else {
        k
    };
    proof {
        if k == 0 {
            assert(map.take(1).len() == 1);
        }
        lemma_numer_extend(map.take(kk as int), last as int, tick as int);
        lemma_numer_prefix(map, kk as int, tick as int);
        lemma_numer_bound(map, tick as int);
        lemma_numer_bound(map.take(kk as int), last as int);
        assert(tick as int * 0xFFFF_FFFF <= 0xFFFF_FFFF_FFFF_FFFF * 0xFFFF_FFFF)
            by (nonlinear_arith)
            requires
                tick <= 0xFFFF_FFFF_FFFF_FFFF,
        ;
    }
    let numer = acc + (tick - last) as u128 * cur as u128;
    if tpq == 0 {
        0
    } else {
        numer * 1000 / tpq as u128
    }
}

} // verus!
