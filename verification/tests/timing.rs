use prelude_player::flatten::LoadError;
use prelude_player::measures::{calculate_measure_map, Measure};
use prelude_player::order::stable_order;
use prelude_player::timing::nanos_for_tick;

#[test]
fn one_quarter_at_default_tempo_is_half_a_second() {
    assert_eq!(nanos_for_tick(480, 480, &vec![(0, 500_000)]), 500_000_000);
}

#[test]
fn empty_tempo_map_uses_default_tempo() {
    assert_eq!(nanos_for_tick(960, 480, &vec![]), 1_000_000_000);
}

#[test]
fn tempo_change_splits_the_time() {
    let map = vec![(0, 500_000), (960, 250_000)];
    assert_eq!(nanos_for_tick(960, 480, &map), 1_000_000_000);
    assert_eq!(nanos_for_tick(1440, 480, &map), 1_250_000_000);
    assert_eq!(nanos_for_tick(480, 480, &map), 500_000_000);
}

#[test]
fn first_entry_tempo_applies_before_first_change() {
    let map = vec![(100, 1_000_000)];
    assert_eq!(nanos_for_tick(50, 100, &map), 500_000_000);
}

#[test]
fn duplicate_ticks_take_the_later_tempo() {
    let map = vec![(0, 500_000), (0, 1_000_000)];
    assert_eq!(nanos_for_tick(480, 480, &map), 1_000_000_000);
}

#[test]
fn times_round_down_to_nanoseconds() {
    assert_eq!(nanos_for_tick(1, 3, &vec![(0, 1)]), 333);
}

#[test]
fn zero_ticks_per_quarter_gives_zero() {
    assert_eq!(nanos_for_tick(1000, 0, &vec![(0, 500_000)]), 0);
}

#[test]
fn stable_order_keeps_ties_in_place() {
    assert_eq!(stable_order(&vec![5, 1, 5, 0, 1]), vec![3, 1, 4, 0, 2]);
    assert_eq!(stable_order(&vec![]), Vec::<usize>::new());
}

#[test]
fn four_four_measures_until_five_seconds_past_the_end() {
    let ms = calculate_measure_map(480, &vec![(0, 500_000)], &vec![], 0).unwrap();
    assert_eq!(
        ms,
        vec![
            Measure { start: 0, end: 2_000_000_000, quarter: 500_000_000 },
            Measure { start: 2_000_000_000, end: 4_000_000_000, quarter: 500_000_000 },
            Measure { start: 4_000_000_000, end: 6_000_000_000, quarter: 500_000_000 },
        ]
    );
}

#[test]
fn three_four_measures() {
    let ms = calculate_measure_map(480, &vec![(0, 500_000)], &vec![(0, 3, 2)], 0).unwrap();
    assert_eq!(ms.len(), 4);
    assert_eq!(ms[0], Measure { start: 0, end: 1_500_000_000, quarter: 500_000_000 });
    assert_eq!(ms[3], Measure { start: 4_500_000_000, end: 6_000_000_000, quarter: 500_000_000 });
}

#[test]
fn default_meter_until_the_first_time_signature() {
    // 6/8 from tick 1920: the first bar is 4/4 (1920 ticks), then 6/8 bars of 1440 ticks.
    let ms = calculate_measure_map(480, &vec![(0, 500_000)], &vec![(1920, 6, 3)], 0).unwrap();
    assert_eq!(ms[0], Measure { start: 0, end: 2_000_000_000, quarter: 500_000_000 });
    assert_eq!(ms[1], Measure { start: 2_000_000_000, end: 3_500_000_000, quarter: 500_000_000 });
}

#[test]
fn meter_change_inside_a_bar_cuts_the_bar() {
    // 3/4 from tick 960, half-way through the first 4/4 bar: that bar ends at the change.
    let ms = calculate_measure_map(480, &vec![(0, 500_000)], &vec![(0, 4, 2), (960, 3, 2)], 0).unwrap();
    assert_eq!(ms[0], Measure { start: 0, end: 1_000_000_000, quarter: 500_000_000 });
    assert_eq!(ms[1], Measure { start: 1_000_000_000, end: 2_500_000_000, quarter: 500_000_000 });
    let ms = calculate_measure_map(480, &vec![(0, 500_000)], &vec![(0, 4, 2), (960, 2, 2)], 0).unwrap();
    assert_eq!(ms[0], Measure { start: 0, end: 1_000_000_000, quarter: 500_000_000 });
    assert_eq!(ms[1], Measure { start: 1_000_000_000, end: 2_000_000_000, quarter: 500_000_000 });
}

#[test]
fn a_cut_bar_keeps_the_quarter_of_its_tempo() {
    // 4/4 at 1 s per quarter, 2/4 from tick 240 (a quarter in): the cut bar lasts 1 s.
    let ms = calculate_measure_map(240, &vec![(0, 1_000_000)], &vec![(0, 4, 2), (240, 2, 2)], 0).unwrap();
    assert_eq!(ms[0], Measure { start: 0, end: 1_000_000_000, quarter: 1_000_000_000 });
    assert_eq!(ms[1], Measure { start: 1_000_000_000, end: 3_000_000_000, quarter: 1_000_000_000 });
}

#[test]
fn a_final_zero_tempo_is_refused() {
    assert_eq!(calculate_measure_map(480, &vec![(0, 0)], &vec![], 0), Err(LoadError::TempoStall));
    assert_eq!(
        calculate_measure_map(480, &vec![(0, 500_000), (1920, 0)], &vec![], 0),
        Err(LoadError::TempoStall)
    );
    // Time stops ten seconds in, after the map has ended: the map is laid out.
    let ms = calculate_measure_map(480, &vec![(0, 500_000), (9600, 0)], &vec![], 0).unwrap();
    assert_eq!(ms.len(), 3);
}

#[test]
fn tempo_changes_set_the_quarter_length() {
    let ms = calculate_measure_map(480, &vec![(0, 500_000), (1920, 1_000_000)], &vec![], 0).unwrap();
    assert_eq!(ms[0], Measure { start: 0, end: 2_000_000_000, quarter: 500_000_000 });
    assert_eq!(ms[1], Measure { start: 2_000_000_000, end: 6_000_000_000, quarter: 1_000_000_000 });
    assert_eq!(ms.len(), 2);
}

#[test]
fn zero_numerator_reads_as_one() {
    let ms = calculate_measure_map(480, &vec![(0, 500_000)], &vec![(0, 0, 2)], 0).unwrap();
    assert_eq!(ms[0], Measure { start: 0, end: 500_000_000, quarter: 500_000_000 });
}

#[test]
fn degenerate_timing_falls_back_to_one_bar() {
    // 1 tick per quarter, 1/16: 1 * 1 * 4 / 16 = 0 ticks per measure.
    let ms = calculate_measure_map(1, &vec![(0, 500_000)], &vec![(0, 1, 4)], 3_000_000_000).unwrap();
    assert_eq!(ms, vec![Measure { start: 0, end: 3_000_000_000, quarter: 750_000_000 }]);
    let ms = calculate_measure_map(1, &vec![(0, 500_000)], &vec![(0, 1, 4)], 5).unwrap();
    assert_eq!(ms, vec![Measure { start: 0, end: 2_000_000_000, quarter: 500_000_000 }]);
}

#[test]
fn measures_tile_the_song() {
    let ms = calculate_measure_map(96, &vec![(0, 500_000), (700, 300_000)], &vec![(0, 7, 3), (500, 5, 2)], 9_000_000_000).unwrap();
    assert_eq!(ms[0].start, 0);
    for k in 0..ms.len() - 1 {
        assert!(ms[k].start <= ms[k].end);
        assert_eq!(ms[k].end, ms[k + 1].start);
    }
    assert!(ms[ms.len() - 1].end > 14_000_000_000);
}

#[test]
fn time_never_runs_backwards() {
    let map = vec![(0, 500_000), (100, 0), (200, 2_000_000), (200, 10)];
    let mut prev = 0;
    for tick in 0..400u64 {
        let t = nanos_for_tick(tick, 96, &map);
        assert!(t >= prev);
        prev = t;
    }
    // Frozen between ticks 100 and 200.
    assert_eq!(nanos_for_tick(150, 96, &map), nanos_for_tick(100, 96, &map));
}
