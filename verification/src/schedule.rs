//! Trigger scheduler and the per-window plans: which instants fall in the
//! just-elapsed window, which events are replay candidates past the
//! checkpoint, and which announcements a pass must send.

use vstd::prelude::*;
use crate::error::{FestiveError, FestiveResult};
use crate::event::{event_message, event_wf, scoreable, sorted_by_ts, Event, EventV};
use crate::standings::{ranking_of, report_text, EntryV};
use crate::text::{int_text, nat_text, two_digit_text};
use crate::time::{
    in_window, parse_rfc3339_ts, rfc3339_of_ts, rfc3339_utc, trunc_instant, ts_in_range,
    unlock_instant, unlock_ts, TS_MAX,
};
use crate::webhook::Webhook;

verus! {

/// The default replay horizon: twenty-eight days before the window's end.
pub const REPLAY_HORIZON_SECS: i64 = 2_419_200;

/// The next wakeup: one period after the previous one.
pub fn next_wake(prev: i64, period: i64) -> (r: i64)
    requires
        ts_in_range(prev as int),
        0 < period,
        prev + period <= TS_MAX,
    ensures
        r == prev + period,
        ts_in_range(r as int),
{
    prev + period
}

/// The heartbeat instant due in the elapsed window, if a heartbeat
/// interval is set and its aligned instant fell inside the window.
pub fn heartbeat_due(prev: i64, current: i64, heartbeat: Option<i64>) -> (r: FestiveResult<
    Option<i64>,
>)
    requires
        ts_in_range(current as int),
    ensures
        heartbeat is None ==> r == Ok::<Option<i64>, FestiveError>(None),
        heartbeat is Some && heartbeat->0 > 0 ==> r is Ok,
        heartbeat is Some && heartbeat->0 > 0 && r is Ok ==> ((r->Ok_0 is Some) <==> in_window(
            prev as int,
            current as int,
            trunc_instant(current as int, heartbeat->0 as int),
        )),
        heartbeat is Some && heartbeat->0 > 0 && r is Ok && r->Ok_0 is Some ==> r->Ok_0->0 as int
            == trunc_instant(current as int, heartbeat->0 as int),
        heartbeat is Some && heartbeat->0 <= 0 ==> r == Err::<Option<i64>, FestiveError>(
            FestiveError::Conv,
        ),
{
    match heartbeat {
        None => Ok(None),
        Some(d) => match crate::time::trunc_ts_core(current, d) {
            Ok(ts) => {
                if crate::time::triggered(prev, current, ts) {
                    Ok(Some(ts))
                } else {
                    Ok(None)
                }
            },
            Err(e) => Err(e),
        },
    }
}

/// Whether this window first saw the year's opening puzzle unlock, so the
/// year joins the live set.
pub fn live_extension_due(prev: i64, current: i64, year: i32, live: &Vec<i32>) -> (r: FestiveResult<
    bool,
>)
    ensures
        r matches Ok(b) ==> b == (in_window(prev as int, current as int, unlock_instant(year as int, 1))
            && !live@.contains(year)),
        -262143 <= year <= 262142 ==> r is Ok,
        r matches Err(e) ==> e == FestiveError::Conv,
{
    match unlock_ts(year, 1) {
        None => Err(FestiveError::Conv),
        Some(u) => {
            let fired = crate::time::triggered(prev, current, u);
            if !fired {
                return Ok(false);
            }
            let n = live.len();
            let mut i: usize = 0;
            while i < n
                invariant
                    i <= n,
                    n == live@.len(),
                    forall|p: int| 0 <= p < i ==> live@[p] != year,
                decreases n - i,
            {
                if live[i] == year {
                    return Ok(false);
                }
                i += 1;
            }
            proof {
                assert(!live@.contains(year));
            }
            Ok(true)
        },
    }
}

/// The years to poll this pass: every live year when `all_years` is set,
/// otherwise only the current year.
pub fn years_to_poll(live: &Vec<i32>, all_years: bool, year: i32) -> (r: Vec<i32>)
    ensures
        r@ == live@.filter(|y: i32| all_years || y == year),
{
    let n = live.len();
    let mut out: Vec<i32> = Vec::new();
    let mut i: usize = 0;
    proof {
        reveal(Seq::filter);
        assert(live@.take(0) =~= Seq::<i32>::empty());
    }
    while i < n
        invariant
            i <= n,
            n == live@.len(),
            out@ == live@.take(i as int).filter(|y: i32| all_years || y == year),
        decreases n - i,
    {
        let ghost pre = live@.take(i as int);
        if all_years || live[i] == year {
            out.push(live[i]);
        }
        proof {
            reveal(Seq::filter);
            assert(live@.take(i as int + 1).drop_last() =~= pre);
            assert(live@.take(i as int + 1).last() == live@[i as int]);
        }
        i += 1;
    }
    proof {
        assert(live@.take(n as int) =~= live@);
    }
    out
}

/// The replay horizon for a pass: the persisted record's instant when one
/// parses, otherwise twenty-eight days before the window's end.
pub fn checkpoint_or_default(record: Option<&str>, window_end: i64) -> (r: i64)
    requires
        ts_in_range(window_end as int),
    ensures
        record is None ==> r == window_end - REPLAY_HORIZON_SECS,
        record matches Some(s) ==> r as int == (match crate::time::rfc3339_parsed(s@) {
            Some(t) => t as int,
            None => window_end as int - REPLAY_HORIZON_SECS as int,
        }),
        record matches Some(s) ==> (forall|t: int|
            0 <= t <= TS_MAX as int && s@ == #[trigger] rfc3339_utc(t) ==> r == t),
{
    match record {
        None => window_end - REPLAY_HORIZON_SECS,
        Some(s) => match parse_rfc3339_ts(s) {
            Some(t) => t,
            None => window_end - REPLAY_HORIZON_SECS,
        },
    }
}

/// The persisted form of a checkpoint instant.
pub fn checkpoint_record(ts: i64) -> (r: String)
    requires
        ts_in_range(ts as int),
    ensures
        r@ == rfc3339_utc(ts as int),
{
    rfc3339_of_ts(ts)
}

/// The replay candidates of a pass: the events strictly after the
/// checkpoint and strictly before the window's end, in order.
pub open spec fn replay_spec(events: Seq<EventV>, cp: int, end: int) -> Seq<EventV>
    decreases events.len(),
{
    if events.len() == 0 {
        Seq::empty()
    } else {
        let rest = replay_spec(events.drop_last(), cp, end);
        if cp < events.last().timestamp < end {
            rest + seq![events.last()]
        } else {
            rest
        }
    }
}

/// Every replay candidate lies strictly between the checkpoint and the
/// window's end.
pub proof fn lemma_replay_pred(events: Seq<EventV>, cp: int, end: int)
    ensures
        forall|k: int|
            0 <= k < replay_spec(events, cp, end).len() ==> cp < (#[trigger] replay_spec(
                events,
                cp,
                end,
            )[k]).timestamp < end,
    decreases events.len(),
{
    if events.len() > 0 {
        lemma_replay_pred(events.drop_last(), cp, end);
        let rest = replay_spec(events.drop_last(), cp, end);
        let full = replay_spec(events, cp, end);
        assert forall|k: int| 0 <= k < full.len() implies cp < (#[trigger] full[k]).timestamp
            < end by {
            if k < rest.len() {
                assert(full[k] == rest[k]);
            }
        }
    }
}

/// When no event lies in the window, nothing is replayed.
pub proof fn lemma_replay_none(events: Seq<EventV>, cp: int, end: int)
    requires
        forall|i: int| 0 <= i < events.len() ==> !(cp < (#[trigger] events[i]).timestamp < end),
    ensures
        replay_spec(events, cp, end).len() == 0,
    decreases events.len(),
{
    if events.len() > 0 {
        lemma_replay_none(events.drop_last(), cp, end);
    }
}

/// Select the replay candidates of a chronologically ordered pass.
pub fn replay_events(events: &Vec<Event>, checkpoint: i64, window_end: i64) -> (r: Vec<Event>)
    ensures
        r.deep_view() == replay_spec(events.deep_view(), checkpoint as int, window_end as int),
{
    let n = events.len();
    let mut out: Vec<Event> = Vec::new();
    let mut i: usize = 0;
    proof {
        assert(events.deep_view().take(0) =~= Seq::<EventV>::empty());
        assert(out.deep_view() =~= Seq::<EventV>::empty());
    }
    while i < n
        invariant
            i <= n,
            n == events@.len(),
            out.deep_view() == replay_spec(
                events.deep_view().take(i as int),
                checkpoint as int,
                window_end as int,
            ),
        decreases n - i,
    {
        let ghost pre = out.deep_view();
        let e = &events[i];
        if checkpoint < e.timestamp() && e.timestamp() < window_end {
            let d = e.duplicate();
            out.push(d);
            proof {
                assert(out.deep_view() =~= pre.push(events.deep_view()[i as int]));
            }
        }
        proof {
            assert(events.deep_view().take(i as int + 1).drop_last() =~= events.deep_view().take(
                i as int,
            ));
            assert(events.deep_view().take(i as int + 1).last() == events.deep_view()[i as int]);
            if (checkpoint as int) < events.deep_view()[i as int].timestamp
                && events.deep_view()[i as int].timestamp < (window_end as int) {
                assert(out.deep_view() =~= pre + seq![events.deep_view()[i as int]]);
            }
        }
        i += 1;
    }
    proof {
        assert(events.deep_view().take(n as int) =~= events.deep_view());
    }
    out
}

/// Replayed events keep their chronological order.
pub proof fn lemma_replay_sorted(events: Seq<EventV>, cp: int, end: int)
    requires
        sorted_by_ts(events),
    ensures
        sorted_by_ts(replay_spec(events, cp, end)),
    decreases events.len(),
{
    if events.len() > 0 {
        assert(sorted_by_ts(events.drop_last()));
        lemma_replay_sorted(events.drop_last(), cp, end);
        lemma_replay_below(events.drop_last(), cp, end, events.last().timestamp);
    }
}

/// Replay candidates of events no later than `bound` stay no later than
/// `bound`.
proof fn lemma_replay_below(events: Seq<EventV>, cp: int, end: int, bound: int)
    requires
        forall|i: int| 0 <= i < events.len() ==> (#[trigger] events[i]).timestamp <= bound,
    ensures
        forall|k: int|
            0 <= k < replay_spec(events, cp, end).len() ==> (#[trigger] replay_spec(
                events,
                cp,
                end,
            )[k]).timestamp <= bound,
    decreases events.len(),
{
    if events.len() > 0 {
        lemma_replay_below(events.drop_last(), cp, end, bound);
        let rest = replay_spec(events.drop_last(), cp, end);
        let full = replay_spec(events, cp, end);
        assert forall|k: int| 0 <= k < full.len() implies (#[trigger] full[k]).timestamp
            <= bound by {
            if k < rest.len() {
                assert(full[k] == rest[k]);
            } else {
                assert(events[events.len() - 1].timestamp <= bound);
            }
        }
    }
}

/// Idempotent resumption: after delivering every replay candidate and
/// persisting the last one's instant as the checkpoint, replaying the
/// same chronologically ordered feed against that checkpoint delivers
/// nothing.
pub proof fn lemma_idempotent_resumption(events: Seq<EventV>, cp: int, end: int)
    requires
        sorted_by_ts(events),
        replay_spec(events, cp, end).len() > 0,
    ensures
        replay_spec(events, replay_spec(events, cp, end).last().timestamp, end).len() == 0,
    decreases events.len(),
{
    let full = replay_spec(events, cp, end);
    let es = events.drop_last();
    let x = events.last();
    assert(sorted_by_ts(es));
    if cp < x.timestamp < end {
        // the last event is the last candidate; everything earlier in the
        // feed is no later, so nothing lies strictly after it
        assert(full.last() == x);
        assert forall|i: int| 0 <= i < events.len() implies !(x.timestamp < (
        #[trigger] events[i]).timestamp < end) by {
            assert(events[i].timestamp <= x.timestamp);
        }
        lemma_replay_none(events, x.timestamp, end);
    } else {
        assert(full == replay_spec(es, cp, end));
        lemma_idempotent_resumption(es, cp, end);
        let cp2 = full.last().timestamp;
        lemma_replay_pred(events, cp, end);
        assert(cp < cp2 < end);
        assert(replay_spec(events, cp2, end) == if cp2 < x.timestamp < end {
            replay_spec(es, cp2, end) + seq![x]
        } else {
            replay_spec(es, cp2, end)
        });
        if cp2 < x.timestamp < end {
            // the feed's last event would have been a candidate already
            assert(cp < x.timestamp < end);
        }
    }
}

/// An event at or before the replay horizon is never delivered.
pub proof fn lemma_horizon_excluded(events: Seq<EventV>, cp: int, end: int, k: int)
    requires
        0 <= k < events.len(),
        events[k].timestamp <= cp,
    ensures
        !replay_spec(events, cp, end).contains(events[k]),
{
    lemma_replay_pred(events, cp, end);
    if replay_spec(events, cp, end).contains(events[k]) {
        let w = choose|w: int|
            0 <= w < replay_spec(events, cp, end).len() && replay_spec(events, cp, end)[w]
                == events[k];
    }
}

/// One outbound notification: the channel, the text content, and named
/// text attachments.
pub struct Outgoing {
    pub channel: Webhook,
    pub content: String,
    pub attachments: Vec<(String, String)>,
}

/// Mathematical view of an outbound notification.
#[verifier::ext_equal]
pub struct OutgoingV {
    pub channel: Webhook,
    pub content: Seq<char>,
    pub attachments: Seq<(Seq<char>, Seq<char>)>,
}

impl View for Outgoing {
    type V = OutgoingV;

    open spec fn view(&self) -> OutgoingV {
        OutgoingV {
            channel: self.channel,
            content: self.content@,
            attachments: Seq::new(self.attachments@.len(), |i: int| (self.attachments@[i].0@, self.attachments@[i].1@)),
        }
    }
}

pub open spec fn outgoing_views(s: Seq<Outgoing>) -> Seq<OutgoingV> {
    Seq::new(s.len(), |i: int| s[i]@)
}

/// A plain notification without attachments.
pub open spec fn notice(content: Seq<char>) -> OutgoingV {
    OutgoingV { channel: Webhook::Notify, content: content, attachments: Seq::empty() }
}

pub open spec fn new_year_text(year: int) -> Seq<char> {
    "🎄 ["@ + int_text(year) + "] Advent of Code is now live! 🎉"@
}

pub open spec fn puzzle_text(year: int, day: int) -> Seq<char> {
    "🎄 ["@ + int_text(year) + "] Puzzle "@ + two_digit_text(day) + " is now unlocked! 🔓"@
}

pub open spec fn standings_header_text(year: int) -> Seq<char> {
    "🎄 ["@ + int_text(year) + "] Current Standings 🏆"@
}

pub open spec fn standings_attachment_name(year: int, day: int) -> Seq<char> {
    "standings_"@ + int_text(year) + "_12_"@ + two_digit_text(day) + ".txt"@
}

pub open spec fn sign_off_text(year: int) -> Seq<char> {
    "🎄 ["@ + int_text(year) + "] Festive Bot signing off. Happy New Year! 👋"@
}

pub open spec fn year_added_text(year: int) -> Seq<char> {
    "🦀 Adding "@ + int_text(year) + " to live years!"@
}

/// The placeholder standings body for an empty event set.
pub open spec fn placeholder_text() -> Seq<char> {
    "No scores yet: get programming!\n"@
}

/// Build a notification with one literal prefix, a year, and a suffix.
fn year_framed(prefix: &str, year: i32, suffix: &str) -> (r: String)
    ensures
        r@ == prefix@ + int_text(year as int) + suffix@,
{
    let mut s = String::from_str(prefix);
    crate::text::push_int(&mut s, year as i64);
    s.append(suffix);
    proof {
        assert(s@ =~= prefix@ + int_text(year as int) + suffix@);
    }
    s
}

/// The message announcing a year newly added to the live set.
pub fn year_added_message(year: i32) -> (r: String)
    ensures
        r@ == year_added_text(year as int),
{
    year_framed("🦀 Adding ", year, " to live years!")
}

/// The per-year upstream feed location.
pub fn leaderboard_url(year: i32, leaderboard: &str) -> (r: String)
    ensures
        r@ == "https://adventofcode.com/"@ + int_text(year as int)
            + "/leaderboard/private/view/"@ + leaderboard@ + ".json"@,
{
    let mut s = String::from_str("https://adventofcode.com/");
    crate::text::push_int(&mut s, year as i64);
    s.append("/leaderboard/private/view/");
    s.append(leaderboard);
    s.append(".json");
    proof {
        assert(s@ =~= "https://adventofcode.com/"@ + int_text(year as int)
            + "/leaderboard/private/view/"@ + leaderboard@ + ".json"@);
    }
    s
}

/// The checkpoint record's durable location, named from the year and the
/// leaderboard identity.
pub fn checkpoint_filename(year: i32, leaderboard: &str) -> (r: String)
    ensures
        r@ == "timestamp_"@ + int_text(year as int) + "_"@ + leaderboard@,
{
    let mut s = String::from_str("timestamp_");
    crate::text::push_int(&mut s, year as i64);
    s.append("_");
    s.append(leaderboard);
    proof {
        assert(s@ =~= "timestamp_"@ + int_text(year as int) + "_"@ + leaderboard@);
    }
    s
}

/// The calendar clock rendering of a civil date and time, as in
/// `2023-12-01 05:00:00 UTC`.
pub open spec fn clock_text(y: int, mo: int, d: int, h: int, mi: int, s: int) -> Seq<char> {
    nat_text(y) + seq!['-'] + two_digit_text(mo) + seq!['-'] + two_digit_text(d) + seq![' ']
        + two_digit_text(h) + seq![':'] + two_digit_text(mi) + seq![':'] + two_digit_text(s)
        + " UTC"@
}

/// Render a civil date and clock time.
pub fn clock_string(y: i32, mo: u32, d: u32, h: u32, mi: u32, s: u32) -> (r: String)
    requires
        y >= 0,
    ensures
        r@ == clock_text(y as int, mo as int, d as int, h as int, mi as int, s as int),
{
    let mut t = String::new();
    crate::text::push_nat(&mut t, y as u64);
    t.append("-");
    crate::text::push_two_digit(&mut t, mo as u64);
    t.append("-");
    crate::text::push_two_digit(&mut t, d as u64);
    t.append(" ");
    crate::text::push_two_digit(&mut t, h as u64);
    t.append(":");
    crate::text::push_two_digit(&mut t, mi as u64);
    t.append(":");
    crate::text::push_two_digit(&mut t, s as u64);
    t.append(" UTC");
    proof {
        reveal_strlit("-");
        reveal_strlit(" ");
        reveal_strlit(":");
        assert(t@ =~= clock_text(y as int, mo as int, d as int, h as int, mi as int, s as int));
    }
    t
}

/// The heartbeat status message for an aligned instant.
pub fn heartbeat_message(ts: i64) -> (r: String)
    requires
        ts_in_range(ts as int),
    ensures
        exists|y: int, mo: int, d: int, h: int, mi: int, s: int|
            {
                &&& crate::time::days_from_civil(y, mo, d) == ts as int / (
                crate::time::SECS_PER_DAY as int)
                &&& h * 3600 + mi * 60 + s == ts as int % (crate::time::SECS_PER_DAY as int)
                &&& 1 <= mo <= 12
                &&& 1 <= d <= crate::time::days_in_month(y, mo)
                &&& 0 <= h <= 23
                &&& 0 <= mi <= 59
                &&& 0 <= s <= 59
                &&& r@ == "🦀 Heartbeat "@ + clock_text(y, mo, d, h, mi, s)
            },
{
    let c = match crate::time::civil_from_ts(ts) {
        Some(c) => c,
        None => (1970, 1, 1, 0, 0, 0),
    };
    let mut m = String::from_str("🦀 Heartbeat ");
    let clock = clock_string(c.0, c.1, c.2, c.3, c.4, c.5);
    m.append(clock.as_str());
    proof {
        assert(m@ =~= "🦀 Heartbeat "@ + clock_text(
            c.0 as int,
            c.1 as int,
            c.2 as int,
            c.3 as int,
            c.4 as int,
            c.5 as int,
        ));
    }
    m
}

/// The years from the epoch year `2015` up to but not including `year`.
pub open spec fn years_from_epoch(year: int) -> Seq<i32>
    decreases year - 2015,
{
    if year <= 2015 {
        Seq::empty()
    } else {
        years_from_epoch(year - 1).push((year - 1) as i32)
    }
}

/// The years `2015` up to but not including `year`, then `year` itself
/// when its first puzzle has already unlocked.
pub open spec fn year_span(year: int, include_current: bool) -> Seq<i32> {
    years_from_epoch(year) + (if include_current {
        seq![year as i32]
    } else {
        Seq::empty()
    })
}

/// The initially live years at startup instant `now`: every year from the
/// epoch year through the year of `now`, the latter only once its first
/// puzzle has unlocked. Also returns the year of `now`.
pub fn initial_live_years(now: i64) -> (r: (Vec<i32>, i32))
    requires
        ts_in_range(now as int),
    ensures
        1970 <= r.1 <= 9999,
        exists|mo: int, d: int|
            1 <= mo <= 12 && 1 <= d <= 31 && crate::time::days_from_civil(r.1 as int, mo, d) == (
            now as int) / (crate::time::SECS_PER_DAY as int),
        r.0@ == year_span(r.1 as int, unlock_instant(r.1 as int, 1) <= now as int),
{
    let c = match crate::time::civil_from_ts(now) {
        Some(c) => c,
        None => (1970, 1, 1, 0, 0, 0),
    };
    let year = c.0;
    let unlocked = match unlock_ts(year, 1) {
        Some(u) => u <= now,
        None => false,
    };
    let mut live: Vec<i32> = Vec::new();
    let mut y: i32 = 2015;
    proof {
        assert(crate::time::days_from_civil(year as int, c.1 as int, c.2 as int) == (now as int)
            / (crate::time::SECS_PER_DAY as int));
        assert(years_from_epoch(2015) =~= Seq::<i32>::empty());
    }
    while y < year
        invariant
            2015 <= y,
            y <= year || y == 2015,
            1970 <= year <= 9999,
            live@ == years_from_epoch(y as int),
        decreases year - y,
    {
        live.push(y);
        y += 1;
    }
    if unlocked {
        live.push(year);
    }
    proof {
        if year <= 2015 {
            assert(years_from_epoch(year as int) =~= Seq::<i32>::empty());
        }
        assert(live@ =~= year_span(year as int, unlocked));
        assert(exists|mo: int, d: int|
            1 <= mo <= 12 && 1 <= d <= 31 && #[trigger] crate::time::days_from_civil(
                year as int,
                mo,
                d,
            ) == (now as int) / (crate::time::SECS_PER_DAY as int)) by {
            assert(1 <= c.1 as int <= 12 && 1 <= c.2 as int <= 31
                && crate::time::days_from_civil(year as int, c.1 as int, c.2 as int) == (
            now as int) / (crate::time::SECS_PER_DAY as int));
        }
    }
    (live, year)
}

/// The December announcements of one pass over one year: the daily
/// puzzle unlock (with the year's opening fanfare on the first), the
/// periodic standings, and the year's sign-off, in that order, each only
/// when its instant fell inside the elapsed window. `cyear`, `cmonth` and
/// `cday` are the civil date of the window's end; `next_year` is the
/// year one period later; `body` is the standings attachment body.
pub open spec fn december_plan_spec(
    prev: int,
    current: int,
    standings_dur: int,
    request_year: int,
    cyear: int,
    cmonth: int,
    cday: int,
    next_year: int,
    body: Seq<char>,
) -> Seq<OutgoingV> {
    if !(request_year == cyear && cmonth == 12) {
        Seq::empty()
    } else {
        (if cday <= 25 && in_window(prev, current, unlock_instant(cyear, cday)) {
            (if cday == 1 {
                seq![notice(new_year_text(cyear))]
            } else {
                Seq::empty()
            }) + seq![notice(puzzle_text(cyear, cday))]
        } else {
            Seq::empty()
        }) + (if in_window(prev, current, trunc_instant(current, standings_dur)) {
            seq![
                OutgoingV {
                    channel: Webhook::Notify,
                    content: standings_header_text(cyear),
                    attachments: seq![(standings_attachment_name(cyear, cday), body)],
                },
            ]
        } else {
            Seq::empty()
        }) + (if next_year != request_year {
            seq![notice(sign_off_text(cyear))]
        } else {
            Seq::empty()
        })
    }
}

/// Plan the December announcements of one pass over `request_year`.
pub fn december_plan(
    prev: i64,
    current: i64,
    standings_dur: i64,
    request_year: i32,
    cyear: i32,
    cmonth: u32,
    cday: u32,
    next_year: i32,
    events: &Vec<Event>,
) -> (r: FestiveResult<Vec<Outgoing>>)
    requires
        ts_in_range(current as int),
        1970 <= cyear <= 9999,
        1 <= cday <= 31,
        forall|i: int| 0 <= i < events@.len() ==> event_wf(#[trigger] events@[i]@),
        events@.len() <= 0x1000_0000_0000,
    ensures
        r matches Ok(plan) ==> exists|body: Seq<char>|
            {
                &&& outgoing_views(plan@) == december_plan_spec(
                    prev as int,
                    current as int,
                    standings_dur as int,
                    request_year as int,
                    cyear as int,
                    cmonth as int,
                    cday as int,
                    next_year as int,
                    body,
                )
                &&& ((request_year == cyear && cmonth == 12 && in_window(
                    prev as int,
                    current as int,
                    trunc_instant(current as int, standings_dur as int),
                )) ==> ((events@.len() == 0 ==> body == placeholder_text()) && (events@.len() > 0
                    ==> exists|gs: Seq<(int, Seq<EntryV>)>|
                    ranking_of(crate::standings::events_view(events@), gs) && body == report_text(
                        gs,
                    ))))
            },
        r matches Err(e) ==> e == FestiveError::Conv,
        standings_dur > 0 && (forall|i: int|
            0 <= i < events@.len() ==> scoreable(#[trigger] events@[i]@)) ==> r is Ok,
{
    let mut plan: Vec<Outgoing> = Vec::new();
    if !(request_year == cyear && cmonth == 12) {
        proof {
            assert(outgoing_views(plan@) =~= Seq::<OutgoingV>::empty());
            assert(outgoing_views(plan@) == december_plan_spec(
                prev as int,
                current as int,
                standings_dur as int,
                request_year as int,
                cyear as int,
                cmonth as int,
                cday as int,
                next_year as int,
                placeholder_text(),
            ));
            assert(exists|b: Seq<char>|
                outgoing_views(plan@) == #[trigger] december_plan_spec(
                    prev as int,
                    current as int,
                    standings_dur as int,
                    request_year as int,
                    cyear as int,
                    cmonth as int,
                    cday as int,
                    next_year as int,
                    b,
                ) && true);
        }
        return Ok(plan);
    }
    // daily puzzle unlock announcement
    if cday <= 25 {
        let unlock = match unlock_ts(cyear, cday) {
            Some(u) => u,
            None => {
                return Err(FestiveError::Conv);
            },
        };
        if crate::time::triggered(prev, current, unlock) {
            if cday == 1 {
                plan.push(
                    Outgoing {
                        channel: Webhook::Notify,
                        content: year_framed("🎄 [", cyear, "] Advent of Code is now live! 🎉"),
                        attachments: Vec::new(),
                    },
                );
            }
            let mut puzzle = year_framed("🎄 [", cyear, "] Puzzle ");
            crate::text::push_two_digit(&mut puzzle, cday as u64);
            puzzle.append(" is now unlocked! 🔓");
            plan.push(
                Outgoing { channel: Webhook::Notify, content: puzzle, attachments: Vec::new() },
            );
        }
    }
    let ghost unlock_part = outgoing_views(plan@);
    proof {
        let full = december_plan_spec(
            prev as int,
            current as int,
            standings_dur as int,
            request_year as int,
            cyear as int,
            cmonth as int,
            cday as int,
            next_year as int,
            placeholder_text(),
        );
        assert(unlock_part =~~= (if cday <= 25 && in_window(
            prev as int,
            current as int,
            unlock_instant(cyear as int, cday as int),
        ) {
            (if cday == 1 {
                seq![notice(new_year_text(cyear as int))]
            } else {
                Seq::<OutgoingV>::empty()
            }) + seq![notice(puzzle_text(cyear as int, cday as int))]
        } else {
            Seq::<OutgoingV>::empty()
        }));
    }
    // periodic standings announcement
    let standings_ts = match crate::time::trunc_ts_core(current, standings_dur) {
        Ok(t) => t,
        Err(e) => {
            return Err(e);
        },
    };
    let ghost body: Seq<char> = placeholder_text();
    if crate::time::triggered(prev, current, standings_ts) {
        let report: String = if events.len() == 0 {
            String::from_str("No scores yet: get programming!\n")
        } else {
            match Event::standings(events.as_slice()) {
                Ok(s) => s,
                Err(e) => {
                    return Err(e);
                },
            }
        };
        proof {
            body = report@;
        }
        let mut name = String::from_str("standings_");
        crate::text::push_int(&mut name, cyear as i64);
        name.append("_12_");
        crate::text::push_two_digit(&mut name, cday as u64);
        name.append(".txt");
        let mut attachments: Vec<(String, String)> = Vec::new();
        attachments.push((name, report));
        let header = year_framed("🎄 [", cyear, "] Current Standings 🏆");
        plan.push(Outgoing { channel: Webhook::Notify, content: header, attachments });
    }
    let ghost standings_part = outgoing_views(plan@);
    proof {
        assert(standings_part =~~= unlock_part + (if in_window(
            prev as int,
            current as int,
            trunc_instant(current as int, standings_dur as int),
        ) {
            seq![
                OutgoingV {
                    channel: Webhook::Notify,
                    content: standings_header_text(cyear as int),
                    attachments: seq![
                        (standings_attachment_name(cyear as int, cday as int), body),
                    ],
                },
            ]
        } else {
            Seq::<OutgoingV>::empty()
        }));
    }
    // sign off for the year
    if next_year != request_year {
        plan.push(
            Outgoing {
                channel: Webhook::Notify,
                content: year_framed("🎄 [", cyear, "] Festive Bot signing off. Happy New Year! 👋"),
                attachments: Vec::new(),
            },
        );
    }
    proof {
        assert(outgoing_views(plan@) =~~= standings_part + (if next_year != request_year {
            seq![notice(sign_off_text(cyear as int))]
        } else {
            Seq::<OutgoingV>::empty()
        }));
        assert(outgoing_views(plan@) =~~= december_plan_spec(
            prev as int,
            current as int,
            standings_dur as int,
            request_year as int,
            cyear as int,
            cmonth as int,
            cday as int,
            next_year as int,
            body,
        ));
        assert(exists|b: Seq<char>|
            outgoing_views(plan@) == #[trigger] december_plan_spec(
                prev as int,
                current as int,
                standings_dur as int,
                request_year as int,
                cyear as int,
                cmonth as int,
                cday as int,
                next_year as int,
                b,
            ) && ((request_year == cyear && cmonth == 12 && in_window(
                prev as int,
                current as int,
                trunc_instant(current as int, standings_dur as int),
            )) ==> ((events@.len() == 0 ==> b == placeholder_text()) && (events@.len() > 0
                ==> exists|gs: Seq<(int, Seq<EntryV>)>|
                ranking_of(crate::standings::events_view(events@), gs) && b == report_text(
                    gs,
                ))))) by {
            assert(outgoing_views(plan@) == december_plan_spec(
                prev as int,
                current as int,
                standings_dur as int,
                request_year as int,
                cyear as int,
                cmonth as int,
                cday as int,
                next_year as int,
                body,
            ));
        }
    }
    Ok(plan)
}

/// The delivery steps of a pass's replay candidates, in order: for each
/// event, its announcement and the checkpoint record to persist once that
/// announcement is delivered.
pub fn delivery_steps(replayed: &Vec<Event>) -> (r: FestiveResult<Vec<(Outgoing, String)>>)
    requires
        forall|i: int| 0 <= i < replayed@.len() ==> event_wf(#[trigger] replayed@[i]@),
    ensures
        r matches Ok(v) ==> v@.len() == replayed@.len(),
        r matches Ok(v) ==> forall|k: int|
            0 <= k < v@.len() ==> (#[trigger] v@[k].0)@ == notice(
                event_message(replayed.deep_view()[k]),
            ) && v@[k].1@ == rfc3339_utc(replayed.deep_view()[k].timestamp),
        r matches Err(e) ==> e == FestiveError::Parse || e == FestiveError::Conv,
        (forall|i: int|
            0 <= i < replayed@.len() ==> scoreable(#[trigger] replayed@[i]@) && ((
            replayed@[i]@).star == 1 || (replayed@[i]@).star == 2)) ==> r is Ok,
{
    let n = replayed.len();
    let mut out: Vec<(Outgoing, String)> = Vec::new();
    let mut i: usize = 0;
    while i < n
        invariant
            i <= n,
            n == replayed@.len(),
            out@.len() == i as int,
            forall|p: int| 0 <= p < replayed@.len() ==> event_wf(#[trigger] replayed@[p]@),
            forall|k: int|
                0 <= k < i as int ==> (#[trigger] out@[k].0)@ == notice(
                    event_message(replayed.deep_view()[k]),
                ) && out@[k].1@ == rfc3339_utc(replayed.deep_view()[k].timestamp),
        decreases n - i,
    {
        let e = &replayed[i];
        let message = match e.fmt() {
            Ok(m) => m,
            Err(er) => {
                return Err(er);
            },
        };
        let record = checkpoint_record(e.timestamp());
        out.push(
            (
                Outgoing { channel: Webhook::Notify, content: message, attachments: Vec::new() },
                record,
            ),
        );
        proof {
            assert(out@[i as int].0@ =~~= notice(event_message(replayed.deep_view()[i as int])));
            assert(out@[i as int].1@ == rfc3339_utc(replayed.deep_view()[i as int].timestamp));
        }
        i += 1;
    }
    Ok(out)
}

} // verus!
