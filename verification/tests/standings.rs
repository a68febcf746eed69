//! Aggregation, ranking and the standings report.

use festive_bot::event::{Event, Identifier, Score};
use festive_bot::standings::{aggregate, rank, sort_entries};

const UNLOCK_2023_01: i64 = 1701406800; // 2023-12-01T05:00:00Z

fn ident(name: &str, numeric: u64) -> Identifier {
    Identifier { name: String::from(name), numeric }
}

fn scenario_events() -> Vec<Event> {
    vec![
        Event::new(UNLOCK_2023_01, 2023, 1, 1, ident("A", 11)),
        Event::new(UNLOCK_2023_01 + 86400, 2023, 1, 1, ident("B", 22)),
        Event::new(UNLOCK_2023_01 + 2 * 86400, 2023, 1, 2, ident("A", 11)),
    ]
}

#[test]
fn scenario_scores_are_exact() {
    // A completed on the day and two days late: 1 + 1/3 = 4/3; B one day late: 1/2
    let entries = aggregate(&scenario_events()).unwrap();
    assert_eq!(entries.len(), 2);
    assert_eq!(entries[0].0.name, "A");
    assert_eq!(entries[0].1.fraction(), "4/3");
    assert_eq!(entries[1].0.name, "B");
    assert_eq!(entries[1].1.fraction(), "1/2");
    // 4/3 equals 1/3 taken four times, exactly
    let mut four_thirds = Score::from_term(3);
    four_thirds.absorb(&Score::from_term(3));
    four_thirds.absorb(&Score::from_term(3));
    four_thirds.absorb(&Score::from_term(3));
    assert_eq!(entries[0].1.value_cmp(&four_thirds), core::cmp::Ordering::Equal);
}

#[test]
fn scenario_rank_order() {
    let mut entries = aggregate(&scenario_events()).unwrap();
    sort_entries(&mut entries);
    let groups = rank(&entries);
    assert_eq!(groups.len(), 2);
    assert_eq!(groups[0].0, 1);
    assert_eq!(groups[0].1.len(), 1);
    assert_eq!(groups[0].1[0].0.name, "A");
    assert_eq!(groups[1].0, 2);
    assert_eq!(groups[1].1[0].0.name, "B");
}

#[test]
fn tied_scores_share_a_position() {
    // two participants on the day, one a day late: positions 1, 1, 3
    let events = vec![
        Event::new(UNLOCK_2023_01, 2023, 1, 1, ident("x", 1)),
        Event::new(UNLOCK_2023_01 + 10, 2023, 1, 1, ident("y", 2)),
        Event::new(UNLOCK_2023_01 + 86400, 2023, 1, 1, ident("z", 3)),
    ];
    let mut entries = aggregate(&events).unwrap();
    sort_entries(&mut entries);
    let groups = rank(&entries);
    assert_eq!(groups.len(), 2);
    assert_eq!(groups[0].0, 1);
    assert_eq!(groups[0].1.len(), 2);
    // identifier order breaks the tie within the shared position
    assert_eq!(groups[0].1[0].0.name, "x");
    assert_eq!(groups[0].1[1].0.name, "y");
    // the next distinct score stands at 1 + the size of the tied group
    assert_eq!(groups[1].0, 3);
    assert_eq!(groups[1].1[0].0.name, "z");
}

#[test]
fn scenario_report_text() {
    let report = Event::standings(&scenario_events()).unwrap();
    assert_eq!(report, "1) A: 1.33\n2) B: 0.50\n");
}

#[test]
fn report_columns_align_to_the_widest_entry() {
    let events = vec![
        Event::new(UNLOCK_2023_01, 2023, 1, 1, ident("longername", 1)),
        Event::new(UNLOCK_2023_01 + 86400, 2023, 1, 1, ident("b", 2)),
    ];
    let report = Event::standings(&events).unwrap();
    assert_eq!(report, "1) longername: 1.00\n2) b:          0.50\n");
}

#[test]
fn empty_event_set_reports_nothing() {
    let report = Event::standings(&Vec::new()).unwrap();
    assert_eq!(report, "");
}

#[test]
fn unscorable_event_fails_standings() {
    // the term degenerates to zero between one and two days early
    let events = vec![Event::new(UNLOCK_2023_01 - 86401, 2023, 1, 1, ident("a", 1))];
    assert_eq!(
        Event::standings(&events).unwrap_err(),
        festive_bot::error::FestiveError::Conv
    );
}
