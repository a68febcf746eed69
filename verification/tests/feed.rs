//! Feed parsing: raw payloads through the real decoder into validated,
//! chronologically ordered events.

use festive_bot::error::FestiveError;
use festive_bot::event::Event;
use festive_bot::feed::{parse_i64, parse_u32, parse_u64, parse_u8};

const UNLOCK_2023_01: i64 = 1701406800; // 2023-12-01T05:00:00Z

fn feed_payload() -> String {
    // A: day 1 star 1 at the unlock; B: one day later; A: star 2 two days later
    format!(
        r#"{{"event":"2023","owner_id":11,"members":{{
            "11":{{"name":"A","completion_day_level":{{"1":{{"2":{{"get_star_ts":{}}},"1":{{"get_star_ts":{}}}}}}}}},
            "22":{{"name":"B","completion_day_level":{{"1":{{"1":{{"get_star_ts":{}}}}}}}}}
        }}}}"#,
        UNLOCK_2023_01 + 2 * 86400,
        UNLOCK_2023_01,
        UNLOCK_2023_01 + 86400,
    )
}

#[test]
fn parse_sorts_events_chronologically() {
    let mut events: Vec<Event> = Vec::new();
    Event::parse(&feed_payload(), &mut events).unwrap();
    assert_eq!(events.len(), 3);
    assert_eq!(events[0].timestamp(), UNLOCK_2023_01);
    assert_eq!(events[1].timestamp(), UNLOCK_2023_01 + 86400);
    assert_eq!(events[2].timestamp(), UNLOCK_2023_01 + 2 * 86400);
    // delivery order carries the participants A, B, A
    assert!(events[0].fmt().unwrap().contains("] A has completed puzzle 01, part one"));
    assert!(events[1].fmt().unwrap().contains("] B has completed puzzle 01, part one"));
    assert!(events[2].fmt().unwrap().contains("] A has completed puzzle 01, part two"));
}

#[test]
fn anonymous_members_get_synthesized_names() {
    let payload = format!(
        r#"{{"event":"2023","members":{{"42":{{"name":null,"completion_day_level":{{"3":{{"1":{{"get_star_ts":{}}}}}}}}}}}}}"#,
        UNLOCK_2023_01
    );
    let mut events: Vec<Event> = Vec::new();
    Event::parse(&payload, &mut events).unwrap();
    assert_eq!(events.len(), 1);
    assert!(events[0].fmt().unwrap().contains("anonymous user #42 has completed puzzle 03"));
}

#[test]
fn malformed_payload_is_a_parse_error() {
    let mut events: Vec<Event> = Vec::new();
    assert_eq!(
        Event::parse("this is not json", &mut events).unwrap_err(),
        FestiveError::Parse
    );
    // a required field of the wrong shape
    let payload = r#"{"event":"2023","members":{"42":{"name":17,"completion_day_level":{}}}}"#;
    assert_eq!(Event::parse(payload, &mut events).unwrap_err(), FestiveError::Parse);
    // a missing completion timestamp
    let payload =
        r#"{"event":"2023","members":{"42":{"name":"x","completion_day_level":{"1":{"1":{}}}}}}"#;
    assert_eq!(Event::parse(payload, &mut events).unwrap_err(), FestiveError::Parse);
}

#[test]
fn unrepresentable_timestamp_is_a_conversion_error() {
    let payload = r#"{"event":"2023","members":{"42":{"name":"x","completion_day_level":{"1":{"1":{"get_star_ts":-5}}}}}}"#;
    let mut events: Vec<Event> = Vec::new();
    assert_eq!(Event::parse(payload, &mut events).unwrap_err(), FestiveError::Conv);
}

#[test]
fn empty_members_parse_to_no_events() {
    let mut events: Vec<Event> = Vec::new();
    Event::parse(r#"{"event":"2023","members":{}}"#, &mut events).unwrap();
    assert_eq!(events.len(), 0);
}

#[test]
fn decimal_literals() {
    assert_eq!(parse_u64("123"), Some(123));
    assert_eq!(parse_u64("+7"), Some(7));
    assert_eq!(parse_u64(""), None);
    assert_eq!(parse_u64("12a"), None);
    assert_eq!(parse_u64("-3"), None);
    assert_eq!(parse_u64("18446744073709551615"), Some(u64::MAX));
    assert_eq!(parse_u64("18446744073709551616"), None);
    assert_eq!(parse_i64("-42"), Some(-42));
    assert_eq!(parse_i64("9223372036854775807"), Some(i64::MAX));
    assert_eq!(parse_i64("-9223372036854775808"), Some(i64::MIN));
    assert_eq!(parse_i64("-9223372036854775809"), None);
    assert_eq!(parse_u32("4294967295"), Some(u32::MAX));
    assert_eq!(parse_u32("4294967296"), None);
    assert_eq!(parse_u8("255"), Some(255));
    assert_eq!(parse_u8("256"), None);
}

#[test]
fn numeric_event_year_is_accepted() {
    let payload = format!(
        r#"{{"event":2023,"members":{{"9":{{"name":"n","completion_day_level":{{"1":{{"1":{{"get_star_ts":{}}}}}}}}}}}}}"#,
        UNLOCK_2023_01
    );
    let mut events: Vec<Event> = Vec::new();
    Event::parse(&payload, &mut events).unwrap();
    assert_eq!(events.len(), 1);
    assert!(events[0].fmt().unwrap().starts_with(":christmas_tree: [2023]"));
}

#[test]
fn unparseable_member_id_is_a_parse_error() {
    let payload = format!(
        r#"{{"event":"2023","members":{{"not-a-number":{{"name":"n","completion_day_level":{{"1":{{"1":{{"get_star_ts":{}}}}}}}}}}}}}"#,
        UNLOCK_2023_01
    );
    let mut events: Vec<Event> = Vec::new();
    assert_eq!(Event::parse(&payload, &mut events).unwrap_err(), FestiveError::Parse);
}

#[test]
fn members_without_completions_contribute_nothing() {
    let payload = r#"{"event":"2023","members":{"9":{"name":"idle","completion_day_level":{}}}}"#;
    let mut events: Vec<Event> = Vec::new();
    Event::parse(payload, &mut events).unwrap();
    assert_eq!(events.len(), 0);
}

#[test]
fn parse_replaces_previous_contents() {
    let mut events: Vec<Event> = Vec::new();
    Event::parse(&feed_payload(), &mut events).unwrap();
    assert_eq!(events.len(), 3);
    // a second parse starts afresh; nothing of the first feed survives
    Event::parse(r#"{"event":"2023","members":{}}"#, &mut events).unwrap();
    assert_eq!(events.len(), 0);
}

#[test]
fn extreme_payload_numbers_convert_exactly_or_not_at_all() {
    // the most negative 64-bit integer is denoted exactly, and then
    // rejected as an instant outside the engine's range
    let payload = r#"{"event":"2023","members":{"42":{"name":"x","completion_day_level":{"1":{"1":{"get_star_ts":-9223372036854775808}}}}}}"#;
    let mut events: Vec<Event> = Vec::new();
    assert_eq!(Event::parse(payload, &mut events).unwrap_err(), FestiveError::Conv);
    // a number beyond the signed range denotes no integer at all: a
    // non-coercible field, not a wrapped negative
    let payload = r#"{"event":18446744073709551611,"members":{"42":{"name":"x","completion_day_level":{"1":{"1":{"get_star_ts":1701406800}}}}}}"#;
    assert_eq!(Event::parse(payload, &mut events).unwrap_err(), FestiveError::Parse);
    let payload = r#"{"event":"2023","members":{"42":{"name":"x","completion_day_level":{"1":{"1":{"get_star_ts":9223372036854775808}}}}}}"#;
    assert_eq!(Event::parse(payload, &mut events).unwrap_err(), FestiveError::Parse);
    // a fractional or scaled number denotes no integer either
    let payload = r#"{"event":"2023","members":{"42":{"name":"x","completion_day_level":{"1":{"1":{"get_star_ts":1.5}}}}}}"#;
    assert_eq!(Event::parse(payload, &mut events).unwrap_err(), FestiveError::Parse);
}
