//! Puzzle completion events: one recorded star-completion fact per
//! participant, with the custom reciprocal-of-days scoring and the
//! chronological ordering every downstream consumer depends on.

use vstd::prelude::*;
use core::cmp::Ordering;
use crate::error::{FestiveError, FestiveResult};
use crate::rational::{
    all_nonzero, fraction_text, rat_cmp, rat_eq, rat_one, rat_plus, rat_text, rat_zero,
    sum_recips, Rational,
};
use crate::text::{chars_lt, int_text, two_digit_text};
use crate::time::{div_trunc, ts_in_range, unlock_instant, unlock_ts, SECS_PER_DAY, TS_MAX};

verus! {

/// Mathematical view of a participant identifier.
pub struct IdentifierV {
    pub name: Seq<char>,
    pub numeric: int,
}

/// Unique identifier for a participant on the leaderboard: the display
/// name (possibly synthesized for anonymous users) and the upstream
/// numeric account id, so distinct accounts never collide.
pub struct Identifier {
    pub name: String,
    pub numeric: u64,
}

impl View for Identifier {
    type V = IdentifierV;

    open spec fn view(&self) -> IdentifierV {
        IdentifierV { name: self.name@, numeric: self.numeric as int }
    }
}

/// Strict ordering of identifiers: by name, then by numeric id.
pub open spec fn id_lt(a: IdentifierV, b: IdentifierV) -> bool {
    chars_lt(a.name, b.name) || (a.name == b.name && a.numeric < b.numeric)
}

impl Identifier {
    /// An identical copy.
    pub fn duplicate(&self) -> (r: Identifier)
        ensures
            r == *self,
    {
        Identifier { name: self.name.clone(), numeric: self.numeric }
    }

    /// Whether two identifiers are the same account.
    pub fn same(&self, other: &Identifier) -> (r: bool)
        ensures
            r == (self@ == other@),
    {
        self.numeric == other.numeric && crate::text::str_eq(self.name.as_str(), other.name.as_str())
    }

    /// Whether this identifier orders strictly before `other`.
    pub fn lt(&self, other: &Identifier) -> (r: bool)
        ensures
            r == id_lt(self@, other@),
    {
        if crate::text::str_lt(self.name.as_str(), other.name.as_str()) {
            true
        } else if crate::text::str_eq(self.name.as_str(), other.name.as_str()) {
            self.numeric < other.numeric
        } else {
            false
        }
    }
}

/// Identifier order is transitive.
pub proof fn lemma_id_lt_trans(a: IdentifierV, b: IdentifierV, c: IdentifierV)
    requires
        id_lt(a, b),
        id_lt(b, c),
    ensures
        id_lt(a, c),
{
    if chars_lt(a.name, b.name) && chars_lt(b.name, c.name) {
        crate::text::lemma_chars_lt_trans(a.name, b.name, c.name);
    }
}

/// Identifier order is asymmetric.
pub proof fn lemma_id_asym(a: IdentifierV, b: IdentifierV)
    requires
        id_lt(a, b),
    ensures
        !id_lt(b, a),
{
    if chars_lt(a.name, b.name) {
        crate::text::lemma_chars_lt_asym(a.name, b.name);
        if b.name == a.name {
            crate::text::lemma_chars_lt_irrefl(a.name);
        }
    } else {
        if chars_lt(b.name, a.name) {
            crate::text::lemma_chars_lt_irrefl(a.name);
        }
    }
}

/// Two identifiers neither of which orders before the other are the same.
pub proof fn lemma_id_connected(a: IdentifierV, b: IdentifierV)
    requires
        !id_lt(a, b),
        !id_lt(b, a),
    ensures
        a == b,
{
    crate::text::lemma_chars_connected(a.name, b.name);
}

/// Mathematical view of an event.
pub struct EventV {
    pub timestamp: int,
    pub year: int,
    pub day: int,
    pub star: int,
    pub id: IdentifierV,
}

/// One puzzle completion event parsed from the upstream feed. The year and
/// day fields match the calendar components of the completion instant's
/// year's puzzles; `star` distinguishes the two daily puzzle parts.
pub struct Event {
    pub(crate) timestamp: i64,
    pub(crate) year: i32,
    pub(crate) day: u32,
    pub(crate) star: u8,
    pub(crate) id: Identifier,
}

impl View for Event {
    type V = EventV;

    closed spec fn view(&self) -> EventV {
        EventV {
            timestamp: self.timestamp as int,
            year: self.year as int,
            day: self.day as int,
            star: self.star as int,
            id: self.id@,
        }
    }
}

impl DeepView for Event {
    type V = EventV;

    open spec fn deep_view(&self) -> EventV {
        self@
    }
}

/// The view of an event decomposes into the views of its parts.
pub(crate) proof fn lemma_event_parts(e: &Event)
    ensures
        e@.id == e.id@,
        e@.timestamp == e.timestamp as int,
        e@.year == e.year as int,
        e@.day == e.day as int,
        e@.star == e.star as int,
{
}

/// Events hold instants of the engine's range.
pub open spec fn event_wf(e: EventV) -> bool {
    ts_in_range(e.timestamp)
}

/// Full days from the puzzle's unlock instant to the completion instant,
/// truncated toward zero.
pub open spec fn day_count(e: EventV) -> int {
    div_trunc(e.timestamp - unlock_instant(e.year, e.day), SECS_PER_DAY as int)
}

/// The scoring term of an event: one more than its day count. The score
/// of the event is the reciprocal of this term.
pub open spec fn score_term(e: EventV) -> int {
    1 + day_count(e)
}

/// Whether an event lies where scoring is assured: a day with an unlock,
/// a year the calendar crate represents, and a non-degenerate scoring
/// term.
pub open spec fn scoreable(e: EventV) -> bool {
    1 <= e.day <= 31 && -262143 <= e.year <= 262142 && score_term(e) != 0
}

/// An exact rational score, held as the list of day-count terms whose
/// reciprocals sum to it.
#[derive(Debug)]
pub struct Score {
    terms: Vec<i64>,
}

impl View for Score {
    type V = Seq<i64>;

    closed spec fn view(&self) -> Seq<i64> {
        self.terms@
    }
}

impl Score {
    /// The mathematical value of this score.
    pub open spec fn value(&self) -> Rational {
        sum_recips(self@)
    }

    pub open spec fn wf(&self) -> bool {
        all_nonzero(self@)
    }

    /// The score of a single event with scoring term `term`.
    pub fn from_term(term: i64) -> (r: Score)
        requires
            term != 0,
        ensures
            r@ == seq![term],
    {
        let mut terms = Vec::new();
        terms.push(term);
        Score { terms }
    }

    /// Add another score to this one.
    pub fn absorb(&mut self, other: &Score)
        ensures
            final(self)@ == old(self)@ + other@,
    {
        let n = other.terms.len();
        let mut i: usize = 0;
        while i < n
            invariant
                i <= n,
                n == other@.len(),
                self@ == old(self)@ + other@.take(i as int),
            decreases n - i,
        {
            self.terms.push(other.terms[i]);
            proof {
                assert(old(self)@ + other@.take(i as int) + seq![other@[i as int]] =~= old(self)@
                    + other@.take(i as int + 1));
            }
            i += 1;
        }
        proof {
            assert(other@.take(n as int) =~= other@);
        }
    }

    /// An identical copy.
    pub fn duplicate(&self) -> (r: Score)
        ensures
            r@ == self@,
    {
        let n = self.terms.len();
        let mut terms: Vec<i64> = Vec::new();
        let mut i: usize = 0;
        while i < n
            invariant
                i <= n,
                n == self@.len(),
                terms@ == self@.take(i as int),
            decreases n - i,
        {
            terms.push(self.terms[i]);
            proof {
                assert(self@.take(i as int).push(self@[i as int]) =~= self@.take(i as int + 1));
            }
            i += 1;
        }
        proof {
            assert(self@.take(n as int) =~= self@);
        }
        Score { terms }
    }

    /// How this score's exact value compares to another's.
    pub fn value_cmp(&self, other: &Score) -> (r: Ordering)
        requires
            self.wf(),
            other.wf(),
        ensures
            (r == Ordering::Less) <==> crate::rational::rat_lt(self.value(), other.value()),
            (r == Ordering::Greater) <==> crate::rational::rat_lt(other.value(), self.value()),
            (r == Ordering::Equal) <==> rat_eq(self.value(), other.value()),
    {
        rat_cmp(&self.terms, &other.terms)
    }

    /// Whether this score's exact value is one point.
    pub fn is_one(&self) -> (r: bool)
        requires
            self.wf(),
        ensures
            r == rat_eq(self.value(), rat_one()),
    {
        let mut one_terms: Vec<i64> = Vec::new();
        one_terms.push(1);
        proof {
            assert(one_terms@ =~= seq![1i64]);
            assert(one_terms@.drop_last() =~= Seq::<i64>::empty());
            assert(sum_recips(Seq::<i64>::empty()) == rat_zero());
            assert(one_terms@.last() == 1i64);
            let q = sum_recips(one_terms@);
            assert(q == rat_plus(rat_zero(), crate::rational::recip_of(1)));
            assert(q.num == 0 * 1 + 1 * 1 && q.den == 1 * 1);
            assert(q == rat_one());
        }
        match rat_cmp(&self.terms, &one_terms) {
            Ordering::Equal => true,
            _ => false,
        }
    }

    /// This score's exact value, rendered in lowest terms.
    pub fn fraction(&self) -> (r: String)
        requires
            self.wf(),
        ensures
            r@ == fraction_text(self.value()),
    {
        rat_text(&self.terms)
    }

    /// One hundred times this score's exact value, rounded to the nearest
    /// integer half away from zero.
    pub fn centi(&self) -> (r: i64)
        requires
            self.wf(),
            self@.len() <= 0x1000_0000_0000,
        ensures
            r as int == crate::rational::centi_round(self.value()),
    {
        crate::rational::rat_centi(&self.terms)
    }
}

/// The notification message for an event, as announced downstream.
pub open spec fn event_message(e: EventV) -> Seq<char>
    recommends
        e.star == 1 || e.star == 2,
{
    let score = sum_recips(seq![score_term(e) as i64]);
    ":christmas_tree: ["@ + int_text(e.year) + "] "@ + e.id.name + " has completed puzzle "@
        + two_digit_text(e.day) + ", part "@ + (if e.star == 1 {
        "one"@
    } else {
        "two"@
    }) + ", scoring "@ + fraction_text(score) + " point"@ + (if rat_eq(score, rat_one()) {
        Seq::<char>::empty()
    } else {
        "s"@
    }) + "! "@ + (if e.star == 1 {
        ":star:"@
    } else {
        ":star: :star:"@
    })
}

impl Event {
    /// The completion instant.
    pub fn timestamp(&self) -> (r: i64)
        ensures
            r as int == self@.timestamp,
    {
        self.timestamp
    }

    /// Construct an event from its parts.
    pub fn new(timestamp: i64, year: i32, day: u32, star: u8, id: Identifier) -> (r: Event)
        requires
            ts_in_range(timestamp as int),
        ensures
            r@ == (EventV {
                timestamp: timestamp as int,
                year: year as int,
                day: day as int,
                star: star as int,
                id: id@,
            }),
            event_wf(r@),
    {
        Event { timestamp, year, day, star, id }
    }

    /// An identical copy.
    pub fn duplicate(&self) -> (r: Event)
        ensures
            r == *self,
    {
        Event {
            timestamp: self.timestamp,
            year: self.year,
            day: self.day,
            star: self.star,
            id: self.id.duplicate(),
        }
    }

    /// The custom score of this event: the reciprocal of one plus the
    /// number of full days between the puzzle's unlock instant and the
    /// completion instant. Scoring fails only when the unlock instant
    /// cannot be constructed or the scoring term degenerates to zero.
    pub fn score(&self) -> (r: FestiveResult<Score>)
        requires
            event_wf(self@),
        ensures
            r matches Ok(s) ==> s@ == seq![score_term(self@) as i64] && score_term(self@) != 0
                && s.wf(),
            r matches Err(e) ==> e == FestiveError::Conv,
            scoreable(self@) ==> r is Ok,
            score_term(self@) == 0 ==> r is Err,
            r is Err ==> !scoreable(self@),
    {
        match unlock_ts(self.year, self.day) {
            None => Err(FestiveError::Conv),
            Some(unlock) => {
                let diff: i64 = self.timestamp - unlock;
                let days: i64 = if diff >= 0 {
                    ((diff as u64) / 86400) as i64
                } else {
                    -((((-diff) as u64) / 86400) as i64)
                };
                assert(days as int == div_trunc(diff as int, SECS_PER_DAY as int));
                let term = 1 + days;
                if term == 0 {
                    Err(FestiveError::Conv)
                } else {
                    Ok(Score::from_term(term))
                }
            },
        }
    }

    /// The puzzle unlock instant: 05:00 UTC on `day` December of `year`.
    /// Also used for the daily standings announcements late in December.
    pub fn puzzle_unlock(year: i32, day: u32) -> (r: FestiveResult<i64>)
        ensures
            r matches Ok(t) ==> t as int == unlock_instant(year as int, day as int),
            r matches Ok(t) ==> -9_000_000_000_000 <= t <= 9_000_000_000_000,
            1 <= day <= 31 && -262143 <= year <= 262142 ==> r is Ok,
            day < 1 || day > 31 || year < -262143 || year > 262142 ==> r is Err,
            r matches Err(e) ==> e == FestiveError::Conv,
    {
        match unlock_ts(year, day) {
            Some(t) => Ok(t),
            None => Err(FestiveError::Conv),
        }
    }

    /// Truncate an instant down to the nearest multiple of a duration (in
    /// seconds), centred on the unlock offset of UTC-05:00.
    pub fn trunc_ts(ts: i64, dur_secs: i64) -> (r: FestiveResult<i64>)
        requires
            ts_in_range(ts as int),
        ensures
            dur_secs > 0 ==> r == Ok::<i64, FestiveError>(
                crate::time::trunc_instant(ts as int, dur_secs as int) as i64,
            ),
            dur_secs <= 0 ==> r == Err::<i64, FestiveError>(FestiveError::Conv),
            r matches Ok(v) ==> v <= ts && ts < v + dur_secs,
            r matches Ok(v) ==> v as int == crate::time::trunc_instant(ts as int, dur_secs as int),
    {
        crate::time::trunc_ts_core(ts, dur_secs)
    }

    /// The notification message announcing this event, or `Parse` when the
    /// star is not one of the two daily parts, or `Conv` when the event
    /// cannot be scored.
    pub fn fmt(&self) -> (r: FestiveResult<String>)
        requires
            event_wf(self@),
        ensures
            r matches Ok(m) ==> (self@.star == 1 || self@.star == 2) && m@ == event_message(self@),
            self@.star != 1 && self@.star != 2 ==> r == Err::<String, FestiveError>(
                FestiveError::Parse,
            ),
            r matches Err(e) ==> e == FestiveError::Parse || e == FestiveError::Conv,
            (self@.star == 1 || self@.star == 2) && scoreable(self@) ==> r is Ok,
            (self@.star == 1 || self@.star == 2) && r is Err ==> r == Err::<String, FestiveError>(
                FestiveError::Conv,
            ) && !scoreable(self@),
    {
        let (part, stars): (&str, &str) = match self.star {
            1u8 => ("one", ":star:"),
            2u8 => ("two", ":star: :star:"),
            _ => {
                return Err(FestiveError::Parse);
            },
        };
        let score = match self.score() {
            Ok(s) => s,
            Err(e) => {
                return Err(e);
            },
        };
        let mut m = String::from_str(":christmas_tree: [");
        crate::text::push_int(&mut m, self.year as i64);
        m.append("] ");
        m.append(self.id.name.as_str());
        m.append(" has completed puzzle ");
        crate::text::push_two_digit(&mut m, self.day as u64);
        m.append(", part ");
        m.append(part);
        m.append(", scoring ");
        let frac = score.fraction();
        m.append(frac.as_str());
        m.append(" point");
        if !score.is_one() {
            m.append("s");
        }
        m.append("! ");
        m.append(stars);
        proof {
            assert(m@ =~= event_message(self@));
        }
        Ok(m)
    }
}

/// Ascending by completion instant.
pub open spec fn sorted_by_ts(s: Seq<EventV>) -> bool {
    forall|i: int, j: int| 0 <= i <= j < s.len() ==> s[i].timestamp <= s[j].timestamp
}

/// Sort events chronologically (stable, so feed order breaks ties).
/// An event placed into a chronological arrangement, after every event
/// not later than it, so tied instants keep their existing order.
pub open spec fn insert_by_ts(s: Seq<EventV>, x: EventV) -> Seq<EventV>
    decreases s.len(),
{
    if s.len() == 0 {
        seq![x]
    } else if x.timestamp < s.last().timestamp {
        insert_by_ts(s.drop_last(), x).push(s.last())
    } else {
        s.push(x)
    }
}

/// The stable chronological arrangement of a sequence of events: sorted
/// ascending by completion instant, tied instants in their input order.
pub open spec fn sort_by_ts_spec(s: Seq<EventV>) -> Seq<EventV>
    decreases s.len(),
{
    if s.len() == 0 {
        s
    } else {
        insert_by_ts(sort_by_ts_spec(s.drop_last()), s.last())
    }
}

proof fn lemma_insert_by_ts_len(s: Seq<EventV>, x: EventV)
    ensures
        insert_by_ts(s, x).len() == s.len() + 1,
    decreases s.len(),
{
    if s.len() > 0 && x.timestamp < s.last().timestamp {
        lemma_insert_by_ts_len(s.drop_last(), x);
    }
}

/// The stable arrangement keeps the length.
pub proof fn lemma_sort_by_ts_len(s: Seq<EventV>)
    ensures
        sort_by_ts_spec(s).len() == s.len(),
    decreases s.len(),
{
    if s.len() > 0 {
        lemma_sort_by_ts_len(s.drop_last());
        lemma_insert_by_ts_len(sort_by_ts_spec(s.drop_last()), s.last());
    }
}

/// Where the insertion lands: after the entries not later than `x`,
/// before the strictly later ones.
proof fn lemma_insert_by_ts_at(s: Seq<EventV>, x: EventV, j: int)
    requires
        0 <= j <= s.len(),
        forall|q: int| j <= q < s.len() ==> x.timestamp < (#[trigger] s[q]).timestamp,
        j > 0 ==> s[j - 1].timestamp <= x.timestamp,
    ensures
        insert_by_ts(s, x) == s.take(j) + seq![x] + s.skip(j),
    decreases s.len(),
{
    if s.len() == 0 {
        assert(s.take(j) + seq![x] + s.skip(j) =~= seq![x]);
    } else if x.timestamp < s.last().timestamp {
        assert(j < s.len());
        let dl = s.drop_last();
        assert(forall|q: int| j <= q < dl.len() ==> x.timestamp < (#[trigger] dl[q]).timestamp);
        lemma_insert_by_ts_at(dl, x, j);
        assert(dl.take(j) =~= s.take(j));
        assert(insert_by_ts(s, x) =~= s.take(j) + seq![x] + s.skip(j));
    } else {
        assert(j == s.len());
        assert(s.push(x) =~= s.take(j) + seq![x] + s.skip(j));
    }
}

/// The first `k` entries are in chronological order.
spec fn sorted_prefix(s: Seq<Event>, k: int) -> bool {
    forall|p: int, q: int| 0 <= p <= q < k <= s.len() ==> s[p]@.timestamp <= s[q]@.timestamp
}

pub fn sort_events(events: &mut Vec<Event>)
    ensures
        final(events)@.to_multiset() == old(events)@.to_multiset(),
        final(events).deep_view().to_multiset() == old(events).deep_view().to_multiset(),
        sorted_by_ts(final(events).deep_view()),
        final(events)@.len() == old(events)@.len(),
        final(events).deep_view() == sort_by_ts_spec(old(events).deep_view()),
{
    let ghost odv = old(events).deep_view();
    let n = events.len();
    if n < 2 {
        proof {
            assert(sorted_by_ts(events.deep_view()));
            if n == 1 {
                assert(odv.drop_last() =~= Seq::<EventV>::empty());
                assert(sort_by_ts_spec(Seq::<EventV>::empty()) == Seq::<EventV>::empty());
                assert(insert_by_ts(Seq::<EventV>::empty(), odv.last()) == seq![odv.last()]);
                assert(events.deep_view() =~= seq![odv.last()]);
            }
        }
        return ;
    }
    proof {
        assert(odv.take(1).drop_last() =~= Seq::<EventV>::empty());
        assert(sort_by_ts_spec(Seq::<EventV>::empty()) == Seq::<EventV>::empty());
        assert(odv.take(1).last() == odv[0]);
        assert(sort_by_ts_spec(odv.take(1)) == seq![odv[0]]);
        assert(events.deep_view() =~= seq![odv[0]] + odv.skip(1));
    }
    let mut i: usize = 1;
    while i < n
        invariant
            1 <= i <= n,
            n == events@.len(),
            n == odv.len(),
            odv == old(events).deep_view(),
            events@.to_multiset() == old(events)@.to_multiset(),
            events.deep_view().to_multiset() == old(events).deep_view().to_multiset(),
            sorted_prefix(events@, i as int),
            events.deep_view() == sort_by_ts_spec(odv.take(i as int)) + odv.skip(i as int),
        decreases n - i,
    {
        let ghost s_pre = sort_by_ts_spec(odv.take(i as int));
        let ghost x = odv[i as int];
        proof {
            lemma_sort_by_ts_len(odv.take(i as int));
            assert(s_pre.take(i as int) =~= s_pre);
            assert(s_pre.skip(i as int) =~= Seq::<EventV>::empty());
            assert(odv.skip(i as int) =~= seq![x] + odv.skip(i as int + 1));
            assert(events.deep_view() =~= s_pre.take(i as int) + seq![x] + s_pre.skip(i as int)
                + odv.skip(i as int + 1));
        }
        let mut j: usize = i;
        while j > 0 && events[j - 1].timestamp > events[j].timestamp
            invariant
                0 <= j <= i < n,
                n == events@.len(),
                n == odv.len(),
                odv == old(events).deep_view(),
                events@.to_multiset() == old(events)@.to_multiset(),
                events.deep_view().to_multiset() == old(events).deep_view().to_multiset(),
                forall|p: int, q: int|
                    0 <= p <= q <= i && q != j as int ==> events@[p]@.timestamp
                        <= events@[q]@.timestamp,
                forall|q: int|
                    j < q <= i ==> events@[j as int]@.timestamp <= events@[q]@.timestamp,
                s_pre == sort_by_ts_spec(odv.take(i as int)),
                x == odv[i as int],
                s_pre.len() == i as int,
                events.deep_view() == s_pre.take(j as int) + seq![x] + s_pre.skip(j as int)
                    + odv.skip(i as int + 1),
                forall|q: int| j as int <= q < i as int ==> x.timestamp < (#[trigger] s_pre[q]).timestamp,
            decreases j,
        {
            let ghost pre = events@;
            let ghost dpre = events.deep_view();
            let x_exec = events.remove(j);
            events.insert(j - 1, x_exec);
            proof {
                broadcast use vstd::seq_lib::group_to_multiset_ensures;

                assert(events@ =~= pre.update(j as int, pre[j - 1]).update(j - 1, pre[j as int]));
                assert(forall|p: int|
                    0 <= p < n && p != j as int && p != j as int - 1 ==> events@[p] == pre[p]);
                assert(events@[j as int - 1] == pre[j as int] && events@[j as int] == pre[j as int
                    - 1]);
                lemma_insert_multiset(pre.remove(j as int), j as int - 1, pre[j as int]);
                assert(pre.contains(pre[j as int]));
                assert(events@.to_multiset() =~= pre.to_multiset());
                assert(events.deep_view() =~= dpre.remove(j as int).insert(
                    j as int - 1,
                    dpre[j as int],
                ));
                lemma_insert_multiset(dpre.remove(j as int), j as int - 1, dpre[j as int]);
                assert(dpre.contains(dpre[j as int]));
                assert(events.deep_view().to_multiset() =~= dpre.to_multiset());
                // the displaced entry was strictly later than the moving one
                assert(dpre[j as int - 1] == s_pre[j as int - 1] && dpre[j as int] == x);
                assert(x.timestamp < s_pre[j as int - 1].timestamp);
                assert(events.deep_view() =~= s_pre.take(j as int - 1) + seq![x] + s_pre.skip(
                    j as int - 1,
                ) + odv.skip(i as int + 1));
            }
            j -= 1;
        }
        proof {
            assert forall|p: int, q: int| 0 <= p <= q < i as int + 1 <= events@.len() implies
                events@[p]@.timestamp <= events@[q]@.timestamp by {
                if q == j as int && p < q {
                    assert(events@[p]@.timestamp <= events@[j as int - 1]@.timestamp);
                    assert(events@[j as int - 1]@.timestamp <= events@[j as int]@.timestamp);
                }
            }
            assert(sorted_prefix(events@, i as int + 1));
            // the moving entry came to rest exactly where the stable
            // insertion places it
            if j > 0 {
                assert(events.deep_view()[j as int - 1] == s_pre[j as int - 1]
                    && events.deep_view()[j as int] == x);
                assert(s_pre[j as int - 1].timestamp <= x.timestamp);
            }
            lemma_insert_by_ts_at(s_pre, x, j as int);
            assert(odv.take(i as int + 1).drop_last() =~= odv.take(i as int));
            assert(odv.take(i as int + 1).last() == x);
            assert(sort_by_ts_spec(odv.take(i as int + 1)) == insert_by_ts(s_pre, x));
            assert(events.deep_view() =~= sort_by_ts_spec(odv.take(i as int + 1)) + odv.skip(
                i as int + 1,
            ));
        }
        i += 1;
    }
    proof {
        assert forall|p: int, q: int|
            0 <= p <= q < final(events).deep_view().len() implies final(events).deep_view()[p].timestamp
            <= final(events).deep_view()[q].timestamp by {
            assert(events@[p]@.timestamp <= events@[q]@.timestamp);
        }
        assert(odv.take(n as int) =~= odv);
        assert(odv.skip(n as int) =~= Seq::<EventV>::empty());
        assert(events.deep_view() =~= sort_by_ts_spec(odv));
    }
}

/// Inserting an element anywhere adds it to the sequence's multiset.
pub(crate) proof fn lemma_insert_multiset<A>(s: Seq<A>, i: int, a: A)
    requires
        0 <= i <= s.len(),
    ensures
        s.insert(i, a).to_multiset() == s.to_multiset().insert(a),
{
    broadcast use vstd::seq_lib::group_to_multiset_ensures;

    let t = s.insert(i, a);
    assert(t.remove(i) =~= s);
    assert(t[i] == a);
    assert(s.to_multiset() =~= t.to_multiset().remove(a));
    assert(t.contains(a));
    assert(t.to_multiset().count(a) > 0);
    assert(t.to_multiset() =~= s.to_multiset().insert(a));
}

} // verus!
