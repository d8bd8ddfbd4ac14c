use prelude_player::measures::Measure;
use prelude_player::notes::NoteData;
use prelude_player::page::{find_measure, notes_to_grow, page_bounds, page_notes, page_of_measure, page_turn, PageNote, PageTurn, MAX_GROWTH_SPAWNS_PER_TICK};

fn bars() -> Vec<Measure> {
    vec![
        Measure { start: 0, end: 100, quarter: 25 },
        Measure { start: 100, end: 200, quarter: 25 },
        Measure { start: 200, end: 300, quarter: 25 },
    ]
}

#[test]
fn measure_lookup() {
    let ms = bars();
    assert_eq!(find_measure(&ms, 0), 0);
    assert_eq!(find_measure(&ms, 99), 0);
    assert_eq!(find_measure(&ms, 100), 1);
    assert_eq!(find_measure(&ms, 250), 2);
    assert_eq!(find_measure(&ms, 10_000), 2);
    assert_eq!(find_measure(&[], 5), 0);
}

#[test]
fn one_measure_per_page() {
    assert_eq!(page_of_measure(0), 0);
    assert_eq!(page_of_measure(7), 7);
}

#[test]
fn page_turn_decisions() {
    assert_eq!(page_turn(3, 3), PageTurn::Stay);
    assert_eq!(page_turn(3, 4), PageTurn::Forward);
    assert_eq!(page_turn(3, 2), PageTurn::Jump);
    assert_eq!(page_turn(3, 6), PageTurn::Jump);
    assert_eq!(page_turn(-1, 0), PageTurn::Jump);
    assert_eq!(page_turn(i32::MAX, 0), PageTurn::Jump);
}

#[test]
fn page_spans_are_clamped_to_the_last_measure() {
    let ms = bars();
    assert_eq!(page_bounds(&ms, 0), (0, 0, 100));
    assert_eq!(page_bounds(&ms, 2), (2, 200, 300));
    assert_eq!(page_bounds(&ms, 9), (2, 200, 300));
}

#[test]
fn notes_are_clipped_to_the_page() {
    let notes = vec![
        NoteData { time: 50, duration: 100, midi: 60, channel: 0 },
        NoteData { time: 100, duration: 0, midi: 61, channel: 1 },
        NoteData { time: 120, duration: 30, midi: 62, channel: 2 },
        NoteData { time: 190, duration: 50, midi: 63, channel: 3 },
        NoteData { time: 201, duration: 5, midi: 64, channel: 4 },
    ];
    assert_eq!(
        page_notes(&notes, 100, 200),
        vec![
            PageNote { start: 100, end: 150, midi: 60, channel: 0 },
            PageNote { start: 120, end: 150, midi: 62, channel: 2 },
            PageNote { start: 190, end: 200, midi: 63, channel: 3 },
        ]
    );
    assert!(page_notes(&notes, 400, 500).is_empty());
}

#[test]
fn growth_starts_for_reached_notes_within_budget() {
    let notes = vec![(false, 10), (true, 5), (false, 30), (false, 20), (false, 15)];
    assert_eq!(notes_to_grow(&notes, 20, true, 16), vec![0, 3, 4]);
    assert_eq!(notes_to_grow(&notes, 20, true, 2), vec![0, 3]);
    assert_eq!(notes_to_grow(&notes, 20, false, 16), Vec::<usize>::new());
    assert_eq!(notes_to_grow(&notes, 20, true, 0), Vec::<usize>::new());
    assert_eq!(MAX_GROWTH_SPAWNS_PER_TICK, 16);
}

#[test]
fn growth_picks_the_earliest_due_notes_once() {
    // Current page first (0..3), then the outgoing page (3..5).
    let mut notes = vec![(false, 10), (false, 50), (false, 20), (false, 5), (false, 15)];
    let first = notes_to_grow(&notes, 30, true, 2);
    assert_eq!(first, vec![0, 2]);
    for &i in &first {
        notes[i].0 = true;
    }
    let second = notes_to_grow(&notes, 30, true, 16);
    assert_eq!(second, vec![3, 4]);
    for &i in &second {
        notes[i].0 = true;
    }
    assert_eq!(notes_to_grow(&notes, 100, true, 16), vec![1]);
}
