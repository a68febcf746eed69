//! Window triggering, checkpointed replay, and the per-pass plans.

use festive_bot::error::FestiveError;
use festive_bot::event::Event;
use festive_bot::schedule::{
    checkpoint_filename, checkpoint_or_default, checkpoint_record, december_plan, delivery_steps,
    heartbeat_due, heartbeat_message, initial_live_years, leaderboard_url, live_extension_due,
    next_wake, replay_events, year_added_message, years_to_poll, REPLAY_HORIZON_SECS,
};
use festive_bot::time::triggered;
use festive_bot::webhook::Webhook;

const UNLOCK_2023_01: i64 = 1701406800; // 2023-12-01T05:00:00Z
const UNLOCK_2023_05: i64 = 1701752400; // 2023-12-05T05:00:00Z

fn ident(name: &str, numeric: u64) -> festive_bot::event::Identifier {
    festive_bot::event::Identifier { name: String::from(name), numeric }
}

#[test]
fn window_triggering_is_half_open() {
    let t = 1_700_000_000;
    let p = 3600;
    assert!(!triggered(t, t + p, t));
    assert!(triggered(t, t + p, t + 1));
    assert!(triggered(t, t + p, t + p));
    assert!(!triggered(t, t + p, t + p + 1));
}

#[test]
fn missing_checkpoint_defaults_to_the_replay_horizon() {
    let end = UNLOCK_2023_05;
    assert_eq!(checkpoint_or_default(None, end), end - REPLAY_HORIZON_SECS);
    assert_eq!(REPLAY_HORIZON_SECS, 28 * 86400);
    // an unreadable record also falls back
    assert_eq!(checkpoint_or_default(Some("not a timestamp"), end), end - REPLAY_HORIZON_SECS);
}

#[test]
fn checkpoint_record_round_trips() {
    let ts = UNLOCK_2023_01 + 12345;
    let record = checkpoint_record(ts);
    assert_eq!(record, "2023-12-01T08:25:45+00:00");
    assert_eq!(checkpoint_or_default(Some(&record), UNLOCK_2023_05), ts);
}

#[test]
fn replay_selects_strictly_between_checkpoint_and_window_end() {
    let events = vec![
        Event::new(1000, 2023, 1, 1, ident("a", 1)),
        Event::new(2000, 2023, 1, 1, ident("b", 2)),
        Event::new(3000, 2023, 1, 2, ident("a", 1)),
        Event::new(4000, 2023, 2, 1, ident("b", 2)),
    ];
    let out = replay_events(&events, 1000, 4000);
    assert_eq!(out.len(), 2);
    assert_eq!(out[0].timestamp(), 2000);
    assert_eq!(out[1].timestamp(), 3000);
}

#[test]
fn resumption_is_idempotent() {
    // first pass from the default horizon delivers all three, in order;
    // a second pass from the persisted checkpoint delivers nothing
    let events = vec![
        Event::new(UNLOCK_2023_01, 2023, 1, 1, ident("A", 11)),
        Event::new(UNLOCK_2023_01 + 86400, 2023, 1, 1, ident("B", 22)),
        Event::new(UNLOCK_2023_01 + 2 * 86400, 2023, 1, 2, ident("A", 11)),
    ];
    let window_end = UNLOCK_2023_05;
    let cp = checkpoint_or_default(None, window_end);
    let first = replay_events(&events, cp, window_end);
    assert_eq!(first.len(), 3);
    let steps = delivery_steps(&first).unwrap();
    assert_eq!(steps.len(), 3);
    assert!(steps[0].0.content.contains("] A has completed puzzle 01, part one"));
    assert_eq!(steps[0].0.channel, Webhook::Notify);
    // persist each event's record as it is delivered; keep the last
    let last_record = steps.last().unwrap().1.clone();
    let cp2 = checkpoint_or_default(Some(&last_record), window_end);
    assert_eq!(cp2, UNLOCK_2023_01 + 2 * 86400);
    let second = replay_events(&events, cp2, window_end);
    assert_eq!(second.len(), 0);
}

#[test]
fn events_at_or_before_the_horizon_are_never_delivered() {
    let window_end = UNLOCK_2023_05;
    let horizon = checkpoint_or_default(None, window_end);
    let events = vec![
        Event::new(horizon - 10, 2023, 1, 1, ident("old", 1)),
        Event::new(horizon, 2023, 1, 1, ident("edge", 2)),
        Event::new(horizon + 1, 2023, 1, 1, ident("new", 3)),
    ];
    let out = replay_events(&events, horizon, window_end);
    assert_eq!(out.len(), 1);
    assert_eq!(out[0].timestamp(), horizon + 1);
}

#[test]
fn heartbeat_fires_on_aligned_instants() {
    let prev = UNLOCK_2023_05 - 3600;
    let current = UNLOCK_2023_05;
    // the unlock instant is hourly aligned at the UTC-05:00 offset
    assert_eq!(heartbeat_due(prev, current, Some(3600)).unwrap(), Some(current));
    assert_eq!(heartbeat_due(prev, current, None).unwrap(), None);
    assert_eq!(heartbeat_due(prev, current, Some(0)).unwrap_err(), FestiveError::Conv);
    // an instant aligned before the window does not fire
    assert_eq!(heartbeat_due(prev, current - 1, Some(86400)).unwrap(), None);
}

#[test]
fn heartbeat_message_text() {
    assert_eq!(heartbeat_message(1448946000), "🦀 Heartbeat 2015-12-01 05:00:00 UTC");
}

#[test]
fn live_years_extend_when_the_opening_puzzle_unlocks() {
    let live = vec![2015, 2016];
    let prev = UNLOCK_2023_01 - 3600;
    let current = UNLOCK_2023_01;
    assert!(live_extension_due(prev, current, 2023, &live).unwrap());
    // an already-live year never re-fires
    assert!(!live_extension_due(prev, current, 2016, &vec![2015, 2016]).unwrap());
    // outside the window nothing fires
    assert!(!live_extension_due(prev - 7200, prev - 3600, 2023, &live).unwrap());
    assert_eq!(year_added_message(2023), "🦀 Adding 2023 to live years!");
}

#[test]
fn initial_live_years_follow_the_calendar() {
    // mid-June: the current year's puzzles have not unlocked
    let june = 1686000000; // 2023-06-05T21:20:00Z
    let (live, year) = initial_live_years(june);
    assert_eq!(year, 2023);
    assert_eq!(live, (2015..2023).collect::<Vec<i32>>());
    // the day after the year's first unlock, the year is live
    let december = UNLOCK_2023_01 + 86400;
    let (live, year) = initial_live_years(december);
    assert_eq!(year, 2023);
    assert_eq!(live, (2015..2024).collect::<Vec<i32>>());
}

#[test]
fn years_to_poll_respects_the_all_years_flag() {
    let live = vec![2015, 2016, 2023];
    assert_eq!(years_to_poll(&live, true, 2023), vec![2015, 2016, 2023]);
    assert_eq!(years_to_poll(&live, false, 2023), vec![2023]);
    assert_eq!(years_to_poll(&live, false, 2024), Vec::<i32>::new());
}

#[test]
fn december_plan_announces_the_day_and_the_standings() {
    let current = UNLOCK_2023_05;
    let prev = current - 3600;
    let events = vec![Event::new(UNLOCK_2023_01, 2023, 1, 1, ident("A", 11))];
    // daily standings interval: the unlock instant is day-aligned
    let plan = december_plan(prev, current, 86400, 2023, 2023, 12, 5, 2023, &events).unwrap();
    assert_eq!(plan.len(), 2);
    assert_eq!(plan[0].content, "🎄 [2023] Puzzle 05 is now unlocked! 🔓");
    assert!(plan[0].attachments.is_empty());
    assert_eq!(plan[1].content, "🎄 [2023] Current Standings 🏆");
    assert_eq!(plan[1].attachments.len(), 1);
    assert_eq!(plan[1].attachments[0].0, "standings_2023_12_05.txt");
    assert_eq!(plan[1].attachments[0].1, "1) A: 1.00\n");
}

#[test]
fn december_plan_opens_the_year_and_signs_off() {
    // day one: the opening fanfare precedes the puzzle announcement
    let current = UNLOCK_2023_01;
    let prev = current - 3600;
    let plan = december_plan(prev, current, 86400, 2023, 2023, 12, 1, 2023, &Vec::new()).unwrap();
    assert_eq!(plan[0].content, "🎄 [2023] Advent of Code is now live! 🎉");
    assert_eq!(plan[1].content, "🎄 [2023] Puzzle 01 is now unlocked! 🔓");
    // the empty event set gets the placeholder standings
    assert_eq!(plan[2].attachments[0].1, "No scores yet: get programming!\n");
    // a pass whose next window starts in the new year signs off
    let plan = december_plan(prev, current, 86400, 2023, 2023, 12, 1, 2024, &Vec::new()).unwrap();
    assert_eq!(
        plan.last().unwrap().content,
        "🎄 [2023] Festive Bot signing off. Happy New Year! 👋"
    );
    // outside December nothing is announced
    let plan = december_plan(prev, current, 86400, 2023, 2023, 11, 30, 2023, &Vec::new()).unwrap();
    assert!(plan.is_empty());
}

#[test]
fn wake_and_urls() {
    assert_eq!(next_wake(1000, 3600), 4600);
    assert_eq!(
        leaderboard_url(2023, "12345"),
        "https://adventofcode.com/2023/leaderboard/private/view/12345.json"
    );
    assert_eq!(checkpoint_filename(2023, "12345"), "timestamp_2023_12345");
}

#[test]
fn non_canonical_records_still_resume() {
    // the zulu form parses to the same instant as the rendered form
    let ts = UNLOCK_2023_01 + 12345;
    assert_eq!(
        checkpoint_or_default(Some("2023-12-01T08:25:45Z"), UNLOCK_2023_05),
        ts
    );
    assert_eq!(
        checkpoint_or_default(Some("2023-12-01T03:25:45-05:00"), UNLOCK_2023_05),
        ts
    );
}
