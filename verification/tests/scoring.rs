//! Scoring and event-message behaviour, against the real calendar crate.

use festive_bot::config::Var;
use festive_bot::error::FestiveError;
use festive_bot::event::{Event, Identifier, Score};

fn ident(name: &str, numeric: u64) -> Identifier {
    Identifier { name: String::from(name), numeric }
}

const UNLOCK_2023_05: i64 = 1701752400; // 2023-12-05T05:00:00Z
const UNLOCK_2015_01: i64 = 1448946000; // 2015-12-01T05:00:00Z

#[test]
fn puzzle_unlock_matches_calendar() {
    assert_eq!(Event::puzzle_unlock(2015, 1).unwrap(), UNLOCK_2015_01);
    assert_eq!(Event::puzzle_unlock(2023, 5).unwrap(), UNLOCK_2023_05);
    assert_eq!(Event::puzzle_unlock(2024, 25).unwrap(), 1735102800);
    assert!(Event::puzzle_unlock(2023, 0).is_err());
    assert!(Event::puzzle_unlock(2023, 32).is_err());
}

#[test]
fn same_day_completion_scores_one_point() {
    let e = Event::new(UNLOCK_2023_05 + 3600, 2023, 5, 1, ident("alice", 1));
    let s = e.score().unwrap();
    assert!(s.is_one());
    assert_eq!(s.fraction(), "1");
}

#[test]
fn two_days_late_scores_a_third() {
    let e = Event::new(UNLOCK_2023_05 + 2 * 86400, 2023, 5, 2, ident("alice", 1));
    let s = e.score().unwrap();
    assert!(!s.is_one());
    assert_eq!(s.fraction(), "1/3");
}

#[test]
fn score_is_one_only_on_the_unlock_day() {
    // one second before the next unlock still scores one point
    let e = Event::new(UNLOCK_2023_05 + 86399, 2023, 5, 1, ident("a", 1));
    assert!(e.score().unwrap().is_one());
    // exactly one full day later no longer does
    let e = Event::new(UNLOCK_2023_05 + 86400, 2023, 5, 1, ident("a", 1));
    assert!(!e.score().unwrap().is_one());
}

#[test]
fn early_completion_is_tolerated_without_panicking() {
    // completion recorded two days before the unlock: a negative day count
    let e = Event::new(UNLOCK_2023_05 - 2 * 86400, 2023, 5, 1, ident("a", 1));
    let s = e.score().unwrap();
    assert_eq!(s.fraction(), "-1");
    // between one and two days before the unlock the term degenerates to zero
    let e = Event::new(UNLOCK_2023_05 - 86400 - 1, 2023, 5, 1, ident("a", 1));
    assert_eq!(e.score().unwrap_err(), FestiveError::Conv);
}

#[test]
fn event_message_text() {
    let e = Event::new(UNLOCK_2023_05, 2023, 5, 1, ident("alice", 7));
    assert_eq!(
        e.fmt().unwrap(),
        ":christmas_tree: [2023] alice has completed puzzle 05, part one, scoring 1 point! :star:"
    );
    let e = Event::new(UNLOCK_2023_05 + 2 * 86400, 2023, 5, 2, ident("bob", 8));
    assert_eq!(
        e.fmt().unwrap(),
        ":christmas_tree: [2023] bob has completed puzzle 05, part two, scoring 1/3 points! :star: :star:"
    );
}

#[test]
fn bad_star_fails_to_format() {
    let e = Event::new(UNLOCK_2023_05, 2023, 5, 3, ident("a", 1));
    assert_eq!(e.fmt().unwrap_err(), FestiveError::Parse);
}

#[test]
fn score_comparison_is_exact() {
    // 1/3 + 1/3 + 1/3 equals 1, which floating point would miss
    let mut thirds = Score::from_term(3);
    thirds.absorb(&Score::from_term(3));
    thirds.absorb(&Score::from_term(3));
    assert!(thirds.is_one());
    assert_eq!(
        thirds.value_cmp(&Score::from_term(1)),
        core::cmp::Ordering::Equal
    );
}

#[test]
fn score_centi_rounds_half_away_from_zero() {
    // 1/2 + 1 = 3/2 -> 150; 1/3 -> 33; 2/3 -> 67
    let mut s = Score::from_term(2);
    s.absorb(&Score::from_term(1));
    assert_eq!(s.centi(), 150);
    assert_eq!(Score::from_term(3).centi(), 33);
    let mut s = Score::from_term(3);
    s.absorb(&Score::from_term(3));
    assert_eq!(s.centi(), 67);
}

#[test]
fn truncation_aligns_to_the_unlock_offset() {
    // the unlock instant lies on a day boundary of UTC-05:00
    assert_eq!(Event::trunc_ts(UNLOCK_2015_01 + 100, 3600).unwrap(), UNLOCK_2015_01);
    assert_eq!(Event::trunc_ts(UNLOCK_2015_01 + 100, 86400).unwrap(), UNLOCK_2015_01);
    assert_eq!(Event::trunc_ts(UNLOCK_2015_01 + 86399, 86400).unwrap(), UNLOCK_2015_01);
    assert_eq!(Event::trunc_ts(UNLOCK_2015_01 + 86400, 86400).unwrap(), UNLOCK_2015_01 + 86400);
    // a non-positive duration cannot be truncated to
    assert_eq!(Event::trunc_ts(UNLOCK_2015_01, 0).unwrap_err(), FestiveError::Conv);
    assert_eq!(Event::trunc_ts(UNLOCK_2015_01, -60).unwrap_err(), FestiveError::Conv);
}

#[test]
fn error_messages() {
    assert_eq!(FestiveError::Conv.message(), "conversion error");
    assert_eq!(FestiveError::Http.message(), "HTTP error");
    assert_eq!(FestiveError::Parse.message(), "parse error");
    assert_eq!(FestiveError::File.message(), "filesystem error");
    assert_eq!(FestiveError::Init.message(), "initialisation error");
    assert_eq!(
        FestiveError::Var(Var::Session).message(),
        "required environment variable FESTIVE_BOT_SESSION is unset"
    );
}

#[test]
fn out_of_band_day_cannot_be_scored() {
    // a feed may carry any day number; scoring rejects one with no unlock
    let e = Event::new(UNLOCK_2023_05, 2023, 99, 1, ident("a", 1));
    assert_eq!(e.score().unwrap_err(), FestiveError::Conv);
}

#[test]
fn unlocks_exist_for_every_calendar_year() {
    // December 1969 lies thirty-one days before the epoch
    assert_eq!(Event::puzzle_unlock(1969, 1).unwrap(), -31 * 86400 + 18000);
    let e = Event::new(0, 1969, 1, 1, ident("early", 1));
    // thirty days after the 1969-12-01 unlock
    assert_eq!(e.score().unwrap().fraction(), "1/31");
}
