//! The upstream feed: a model of the decoded leaderboard payload and the
//! conversion of a raw payload into a validated, chronologically ordered
//! sequence of events.

use vstd::prelude::*;
use crate::error::{FestiveError, FestiveResult};
use crate::event::{sorted_by_ts, Event, EventV, Identifier, IdentifierV};
use crate::text::str_eq;
use crate::time::{ts_in_range, TS_MAX};

verus! {

/// A decoded structured-data value, holding as plain values exactly what
/// the feed logic reads: a number is kept as the 64-bit integer it
/// denotes, when it denotes one.
pub enum JsonVal {
    Null,
    Bool(bool),
    Num(Option<i64>),
    Str(String),
    Obj(Vec<(String, JsonVal)>),
    Arr(Vec<JsonVal>),
}

/// Ghost mirror of a decoded value, over mathematical sequences alone, so
/// that what the decoder returns can be named as a pure value.
pub enum JsonV {
    Null,
    Bool(bool),
    Num(Option<i64>),
    Str(Seq<char>),
    Obj(Seq<(Seq<char>, JsonV)>),
    Arr(Seq<JsonV>),
}

/// The mathematical value a decoded tree holds. (The out-of-range closure
/// arms are never read; they only keep the recursion visibly bounded.)
pub open spec fn json_view(j: JsonVal) -> JsonV
    decreases j,
    via json_view_decreases
{
    match j {
        JsonVal::Null => JsonV::Null,
        JsonVal::Bool(b) => JsonV::Bool(b),
        JsonVal::Num(n) => JsonV::Num(n),
        JsonVal::Str(s) => JsonV::Str(s@),
        JsonVal::Obj(es) => JsonV::Obj(
            Seq::new(
                es@.len(),
                |i: int|
                    if 0 <= i < es@.len() {
                        (es@[i].0@, json_view(es@[i].1))
                    } else {
                        (Seq::empty(), JsonV::Null)
                    },
            ),
        ),
        JsonVal::Arr(vs) => JsonV::Arr(
            Seq::new(
                vs@.len(),
                |i: int|
                    if 0 <= i < vs@.len() {
                        json_view(vs@[i])
                    } else {
                        JsonV::Null
                    },
            ),
        ),
    }
}

#[via_fn]
proof fn json_view_decreases(j: JsonVal) {
    broadcast use vstd::std_specs::vec::axiom_vec_index_decreases;

    match j {
        JsonVal::Obj(es) => {
            assert forall|i: int| 0 <= i < es@.len() implies decreases_to!(j => es@[i].1) by {
                assert(decreases_to!(j => es));
                assert(decreases_to!(es => es[i]));
            }
        },
        JsonVal::Arr(vs) => {
            assert forall|i: int| 0 <= i < vs@.len() implies decreases_to!(j => vs@[i]) by {
                assert(decreases_to!(j => vs));
                assert(decreases_to!(vs => vs[i]));
            }
        },
        _ => (),
    }
}

/// Names what the decoder yields for a payload text: the mathematical
/// value of the decoded tree, or nothing when the text is malformed. The
/// decode is a function of the text alone.
pub uninterp spec fn json_decoded(s: Seq<char>) -> Option<JsonV>;

/// The entries of an object value; anything else has none.
pub open spec fn obj_entries(j: JsonVal) -> Seq<(String, JsonVal)> {
    match j {
        JsonVal::Obj(es) => es@,
        _ => Seq::empty(),
    }
}

/// First-match lookup among entries; `Null` when the key is absent.
pub open spec fn obj_get_from(es: Seq<(String, JsonVal)>, key: Seq<char>) -> JsonVal
    decreases es.len(),
{
    if es.len() == 0 {
        JsonVal::Null
    } else if es[0].0@ == key {
        es[0].1
    } else {
        obj_get_from(es.skip(1), key)
    }
}

/// Field lookup on a value: `Null` when the value is not an object or the
/// key is absent.
pub open spec fn obj_get(j: JsonVal, key: Seq<char>) -> JsonVal {
    obj_get_from(obj_entries(j), key)
}

/// Find a field of an object value.
pub fn obj_find<'a>(j: &'a JsonVal, key: &str) -> (r: Option<&'a JsonVal>)
    ensures
        r matches Some(v) ==> *v == obj_get(*j, key@),
        r is None ==> obj_get(*j, key@) == JsonVal::Null,
{
    match j {
        JsonVal::Obj(es) => {
            let n = es.len();
            let mut i: usize = 0;
            proof {
                assert(es@.skip(0) =~= es@);
            }
            while i < n
                invariant
                    i <= n,
                    n == es@.len(),
                    obj_get(*j, key@) == obj_get_from(es@.skip(i as int), key@),
                decreases n - i,
            {
                if str_eq(es[i].0.as_str(), key) {
                    return Some(&es[i].1);
                }
                proof {
                    assert(es@.skip(i as int).skip(1) =~= es@.skip(i as int + 1));
                }
                i += 1;
            }
            None
        },
        _ => None,
    }
}

/// Whether a character is a decimal digit.
pub open spec fn is_digit(c: char) -> bool {
    48 <= c as u32 <= 57
}

pub open spec fn digit_of(c: char) -> int {
    c as u32 - 48
}

pub open spec fn all_digits(s: Seq<char>) -> bool {
    forall|i: int| 0 <= i < s.len() ==> is_digit(#[trigger] s[i])
}

/// The value of a digit string.
pub open spec fn digits_val(s: Seq<char>) -> int
    recommends
        all_digits(s),
    decreases s.len(),
{
    if s.len() == 0 {
        0
    } else {
        digits_val(s.drop_last()) * 10 + digit_of(s.last())
    }
}

/// The number an unsigned decimal literal denotes, mirroring how the
/// standard library reads unsigned integers: an optional leading `+`,
/// then one or more digits. `None` on any other shape; the caller checks
/// the range.
pub open spec fn dec_uint_of(s: Seq<char>) -> Option<int> {
    let digits = if s.len() > 0 && s[0] == '+' {
        s.skip(1)
    } else {
        s
    };
    if digits.len() > 0 && all_digits(digits) {
        Some(digits_val(digits))
    } else {
        None
    }
}

/// The number a signed decimal literal denotes, mirroring how the
/// standard library reads signed integers: an optional leading `+` or
/// `-`, then one or more digits.
pub open spec fn dec_int_of(s: Seq<char>) -> Option<int> {
    if s.len() > 0 && s[0] == '-' {
        let digits = s.skip(1);
        if digits.len() > 0 && all_digits(digits) {
            Some(-digits_val(digits))
        } else {
            None
        }
    } else {
        dec_uint_of(s)
    }
}

/// An unsigned decimal literal never denotes a negative number.
pub proof fn lemma_dec_uint_nonneg(s: Seq<char>)
    ensures
        dec_uint_of(s) is Some ==> dec_uint_of(s)->Some_0 >= 0,
{
    let digits = if s.len() > 0 && s[0] == '+' {
        s.skip(1)
    } else {
        s
    };
    if dec_uint_of(s) is Some {
        lemma_digits_val_bounds(digits);
    }
}

/// A digit string's value never shrinks as digits are appended.
proof fn lemma_digits_val_bounds(s: Seq<char>)
    requires
        all_digits(s),
    ensures
        digits_val(s) >= 0,
        s.len() > 0 ==> digits_val(s) >= digits_val(s.drop_last()),
    decreases s.len(),
{
    if s.len() > 0 {
        assert(all_digits(s.drop_last()));
        lemma_digits_val_bounds(s.drop_last());
        assert(digits_val(s.drop_last()) * 10 >= digits_val(s.drop_last())) by (nonlinear_arith)
            requires
                digits_val(s.drop_last()) >= 0,
        ;
    }
}

/// Prefix values only grow: the value of a longer digit prefix is at
/// least the value of a shorter one.
proof fn lemma_digits_val_prefix_mono(s: Seq<char>, a: int, b: int)
    requires
        all_digits(s),
        0 <= a <= b <= s.len(),
    ensures
        digits_val(s.take(a)) <= digits_val(s.take(b)),
    decreases b - a,
{
    if a < b {
        lemma_digits_val_prefix_mono(s, a, b - 1);
        assert(all_digits(s.take(b)));
        assert(s.take(b).drop_last() =~= s.take(b - 1));
        lemma_digits_val_bounds(s.take(b));
    }
}

/// Read the digits of `s` from `start` on as a `u64`; `None` when there
/// are none, when any character is not a digit, or when the value
/// overflows.
fn parse_u64_digits(s: &str, start: usize) -> (r: Option<u64>)
    requires
        start as int <= s@.len(),
    ensures
        ({
            let digits = s@.skip(start as int);
            match r {
                Some(v) => digits.len() > 0 && all_digits(digits) && v as int == digits_val(
                    digits,
                ),
                None => digits.len() == 0 || !all_digits(digits) || digits_val(digits)
                    > u64::MAX as int,
            }
        }),
{
    let len = s.unicode_len();
    if start == len {
        return None;
    }
    let ghost digits = s@.skip(start as int);
    let mut acc: u64 = 0;
    let mut i: usize = start;
    while i < len
        invariant
            start <= i <= len,
            len == s@.len(),
            start as int <= s@.len(),
            digits == s@.skip(start as int),
            all_digits(digits.take(i - start)),
            acc as int == digits_val(digits.take(i - start)),
        decreases len - i,
    {
        let c = s.get_char(i);
        let cv = c as u32;
        if cv < 48 || cv > 57 {
            assert(digits[i - start] == s@[i as int]);
            assert(!is_digit(digits[i - start]));
            return None;
        }
        let d = (cv - 48) as u64;
        if acc > (u64::MAX - d) / 10 {
            // Any completion of the digits read so far can only be larger.
            proof {
                assert(digits.take(i - start + 1).drop_last() =~= digits.take(i - start));
                assert(digits.take(i - start + 1).last() == digits[i - start]);
                assert(digits_val(digits.take(i - start + 1)) == acc as int * 10 + d);
                assert(acc as int * 10 + d > u64::MAX as int) by (nonlinear_arith)
                    requires
                        acc as int > ((u64::MAX - d) as int) / 10,
                        0 <= d <= 9,
                ;
                if all_digits(digits) {
                    lemma_digits_val_prefix_mono(digits, i - start + 1, digits.len() as int);
                    assert(digits.take(digits.len() as int) =~= digits);
                }
            }
            return None;
        }
        proof {
            assert(digits.take(i - start + 1).drop_last() =~= digits.take(i - start));
            assert(digits.take(i - start + 1).last() == digits[i - start]);
        }
        acc = acc * 10 + d;
        i += 1;
    }
    proof {
        assert(digits.take(len - start) =~= digits);
    }
    Some(acc)
}

/// Read an unsigned decimal literal, as the standard library does for
/// `u64`: an optional leading `+`, one or more digits, no overflow.
pub fn parse_u64(s: &str) -> (r: Option<u64>)
    ensures
        match dec_uint_of(s@) {
            Some(v) => if v <= u64::MAX as int {
                r == Some(v as u64)
            } else {
                r is None
            },
            None => r is None,
        },
{
    let len = s.unicode_len();
    if len == 0 {
        return None;
    }
    let first = s.get_char(0);
    if first == '+' {
        parse_u64_digits(s, 1)
    } else {
        proof {
            assert(s@.skip(0) =~= s@);
        }
        parse_u64_digits(s, 0)
    }
}

/// Read a signed decimal literal, as the standard library does for
/// `i64`: an optional sign, one or more digits, no overflow.
pub fn parse_i64(s: &str) -> (r: Option<i64>)
    ensures
        match dec_int_of(s@) {
            Some(v) => if i64::MIN as int <= v <= i64::MAX as int {
                r == Some(v as i64)
            } else {
                r is None
            },
            None => r is None,
        },
{
    let len = s.unicode_len();
    if len == 0 {
        return None;
    }
    let first = s.get_char(0);
    if first == '-' {
        match parse_u64_digits(s, 1) {
            Some(m) => {
                if m <= 0x8000_0000_0000_0000u64 {
                    let r: i64 = if m == 0x8000_0000_0000_0000u64 {
                        i64::MIN
                    } else {
                        -(m as i64)
                    };
                    Some(r)
                } else {
                    None
                }
            },
            None => None,
        }
    } else if first == '+' {
        match parse_u64_digits(s, 1) {
            Some(m) => {
                if m <= i64::MAX as u64 {
                    Some(m as i64)
                } else {
                    None
                }
            },
            None => None,
        }
    } else {
        proof {
            assert(s@.skip(0) =~= s@);
        }
        match parse_u64_digits(s, 0) {
            Some(m) => {
                if m <= i64::MAX as u64 {
                    Some(m as i64)
                } else {
                    None
                }
            },
            None => None,
        }
    }
}

/// Read an unsigned decimal literal into a `u32`.
pub fn parse_u32(s: &str) -> (r: Option<u32>)
    ensures
        r == as_u32_spec(s@),
{
    proof {
        lemma_dec_uint_nonneg(s@);
    }
    match parse_u64(s) {
        Some(v) => if v <= u32::MAX as u64 {
            Some(v as u32)
        } else {
            None
        },
        None => {
            proof {
                if dec_uint_of(s@) is Some {
                    assert(dec_uint_of(s@)->Some_0 > u32::MAX as int);
                }
            }
            None
        },
    }
}

/// Read an unsigned decimal literal into a `u8`.
pub fn parse_u8(s: &str) -> (r: Option<u8>)
    ensures
        r == as_u8_spec(s@),
{
    proof {
        lemma_dec_uint_nonneg(s@);
    }
    match parse_u64(s) {
        Some(v) => if v <= u8::MAX as u64 {
            Some(v as u8)
        } else {
            None
        },
        None => {
            proof {
                if dec_uint_of(s@) is Some {
                    assert(dec_uint_of(s@)->Some_0 > u8::MAX as int);
                }
            }
            None
        },
    }
}

/// Read a signed decimal literal into an `i32`.
pub fn parse_i32(s: &str) -> (r: Option<i32>)
    ensures
        r == as_i32_spec(s@),
{
    match parse_i64(s) {
        Some(v) => if i32::MIN as i64 <= v && v <= i32::MAX as i64 {
            Some(v as i32)
        } else {
            None
        },
        None => {
            proof {
                if dec_int_of(s@) is Some {
                    assert(!(i32::MIN as int <= dec_int_of(s@)->Some_0 <= i32::MAX as int));
                }
            }
            None
        },
    }
}

/// `dec_uint_of`, range-checked for `u64`.
pub open spec fn as_u64_spec(s: Seq<char>) -> Option<u64> {
    match dec_uint_of(s) {
        Some(v) => if 0 <= v <= u64::MAX as int {
            Some(v as u64)
        } else {
            None
        },
        None => None,
    }
}

/// `dec_uint_of`, range-checked for `u32`.
pub open spec fn as_u32_spec(s: Seq<char>) -> Option<u32> {
    match dec_uint_of(s) {
        Some(v) => if 0 <= v <= u32::MAX as int {
            Some(v as u32)
        } else {
            None
        },
        None => None,
    }
}

/// `dec_uint_of`, range-checked for `u8`.
pub open spec fn as_u8_spec(s: Seq<char>) -> Option<u8> {
    match dec_uint_of(s) {
        Some(v) => if 0 <= v <= u8::MAX as int {
            Some(v as u8)
        } else {
            None
        },
        None => None,
    }
}

/// `dec_int_of`, range-checked for `i32`.
pub open spec fn as_i32_spec(s: Seq<char>) -> Option<i32> {
    match dec_int_of(s) {
        Some(v) => if i32::MIN as int <= v <= i32::MAX as int {
            Some(v as i32)
        } else {
            None
        },
        None => None,
    }
}

/// The event year the feed declares: the `event` field read as a 32-bit
/// integer, whether it arrives as a string of digits or as a number.
pub open spec fn year_val(j: JsonVal) -> Option<i32> {
    match obj_get(j, "event"@) {
        JsonVal::Str(s) => as_i32_spec(s@),
        JsonVal::Num(n) => match n {
            Some(k) => if i32::MIN as i64 <= k <= i32::MAX as i64 {
                Some(k as i32)
            } else {
                None
            },
            None => None,
        },
        _ => None,
    }
}

/// The display name of a member: the `name` field when it is a string, a
/// synthesized `anonymous user #<id>` when it is null, nothing otherwise.
pub open spec fn name_of(member: JsonVal, id_text: Seq<char>) -> Option<Seq<char>> {
    match obj_get(member, "name"@) {
        JsonVal::Null => Some("anonymous user #"@ + id_text),
        JsonVal::Str(s) => Some(s@),
        _ => None,
    }
}

/// One completion entry of one member: the event it denotes, `Parse` when
/// a required field is missing or not coercible, `Conv` when the
/// completion timestamp is an integer outside the engine's instant range.
pub open spec fn entry_spec(
    j: JsonVal,
    id_text: Seq<char>,
    name: Seq<char>,
    day_text: Seq<char>,
    star_text: Seq<char>,
    contents: JsonVal,
) -> Result<EventV, FestiveError> {
    match obj_get(contents, "get_star_ts"@) {
        JsonVal::Num(ts_opt) => match ts_opt {
            Some(ts) => if !ts_in_range(ts as int) {
                Err(FestiveError::Conv)
            } else {
                match (year_val(j), as_u32_spec(day_text), as_u8_spec(star_text), as_u64_spec(
                    id_text,
                )) {
                    (Some(y), Some(d), Some(st), Some(num)) => Ok(
                        EventV {
                            timestamp: ts as int,
                            year: y as int,
                            day: d as int,
                            star: st as int,
                            id: IdentifierV { name: name, numeric: num as int },
                        },
                    ),
                    _ => Err(FestiveError::Parse),
                }
            },
            None => Err(FestiveError::Parse),
        },
        _ => Err(FestiveError::Parse),
    }
}

/// All completion entries of one member's one day, in feed order; the
/// first failing entry's error.
pub open spec fn stars_spec(
    j: JsonVal,
    id_text: Seq<char>,
    name: Seq<char>,
    day_text: Seq<char>,
    ss: Seq<(String, JsonVal)>,
) -> Result<Seq<EventV>, FestiveError>
    decreases ss.len(),
{
    if ss.len() == 0 {
        Ok(Seq::empty())
    } else {
        match entry_spec(j, id_text, name, day_text, ss[0].0@, ss[0].1) {
            Ok(e) => match stars_spec(j, id_text, name, day_text, ss.skip(1)) {
                Ok(rest) => Ok(seq![e] + rest),
                Err(er) => Err(er),
            },
            Err(er) => Err(er),
        }
    }
}

/// All completion entries of one member, day by day in feed order.
pub open spec fn days_spec(
    j: JsonVal,
    id_text: Seq<char>,
    name: Seq<char>,
    ds: Seq<(String, JsonVal)>,
) -> Result<Seq<EventV>, FestiveError>
    decreases ds.len(),
{
    if ds.len() == 0 {
        Ok(Seq::empty())
    } else {
        match stars_spec(j, id_text, name, ds[0].0@, obj_entries(ds[0].1)) {
            Ok(es) => match days_spec(j, id_text, name, ds.skip(1)) {
                Ok(rest) => Ok(es + rest),
                Err(er) => Err(er),
            },
            Err(er) => Err(er),
        }
    }
}

/// All events of one member: the name resolved first, then every
/// completion entry under `completion_day_level`.
pub open spec fn member_spec(j: JsonVal, id_text: Seq<char>, member: JsonVal) -> Result<
    Seq<EventV>,
    FestiveError,
> {
    match name_of(member, id_text) {
        Some(name) => days_spec(
            j,
            id_text,
            name,
            obj_entries(obj_get(member, "completion_day_level"@)),
        ),
        None => Err(FestiveError::Parse),
    }
}

/// All events of a feed's members, in feed order.
pub open spec fn members_spec(j: JsonVal, ms: Seq<(String, JsonVal)>) -> Result<
    Seq<EventV>,
    FestiveError,
>
    decreases ms.len(),
{
    if ms.len() == 0 {
        Ok(Seq::empty())
    } else {
        match member_spec(j, ms[0].0@, ms[0].1) {
            Ok(es) => match members_spec(j, ms.skip(1)) {
                Ok(rest) => Ok(es + rest),
                Err(er) => Err(er),
            },
            Err(er) => Err(er),
        }
    }
}

/// The validated event sequence a decoded feed denotes, in feed order.
pub open spec fn feed_events(j: JsonVal) -> Result<Seq<EventV>, FestiveError> {
    members_spec(j, obj_entries(obj_get(j, "members"@)))
}

/// Every extracted event holds an instant of the engine's range.
pub proof fn lemma_feed_events_wf(j: JsonVal)
    requires
        feed_events(j) is Ok,
    ensures
        forall|k: int|
            0 <= k < feed_events(j)->Ok_0.len() ==> crate::event::event_wf(
                #[trigger] feed_events(j)->Ok_0[k],
            ),
{
    lemma_members_wf(j, obj_entries(obj_get(j, "members"@)));
}

proof fn lemma_members_wf(j: JsonVal, ms: Seq<(String, JsonVal)>)
    requires
        members_spec(j, ms) is Ok,
    ensures
        forall|k: int|
            0 <= k < members_spec(j, ms)->Ok_0.len() ==> crate::event::event_wf(
                #[trigger] members_spec(j, ms)->Ok_0[k],
            ),
    decreases ms.len(),
{
    if ms.len() > 0 {
        lemma_member_wf(j, ms[0].0@, ms[0].1);
        lemma_members_wf(j, ms.skip(1));
    }
}

proof fn lemma_member_wf(j: JsonVal, id_text: Seq<char>, member: JsonVal)
    requires
        member_spec(j, id_text, member) is Ok,
    ensures
        forall|k: int|
            0 <= k < member_spec(j, id_text, member)->Ok_0.len() ==> crate::event::event_wf(
                #[trigger] member_spec(j, id_text, member)->Ok_0[k],
            ),
{
    let name = name_of(member, id_text)->Some_0;
    lemma_days_wf(j, id_text, name, obj_entries(obj_get(member, "completion_day_level"@)));
}

proof fn lemma_days_wf(j: JsonVal, id_text: Seq<char>, name: Seq<char>, ds: Seq<(String, JsonVal)>)
    requires
        days_spec(j, id_text, name, ds) is Ok,
    ensures
        forall|k: int|
            0 <= k < days_spec(j, id_text, name, ds)->Ok_0.len() ==> crate::event::event_wf(
                #[trigger] days_spec(j, id_text, name, ds)->Ok_0[k],
            ),
    decreases ds.len(),
{
    if ds.len() > 0 {
        lemma_stars_wf(j, id_text, name, ds[0].0@, obj_entries(ds[0].1));
        lemma_days_wf(j, id_text, name, ds.skip(1));
    }
}

proof fn lemma_stars_wf(
    j: JsonVal,
    id_text: Seq<char>,
    name: Seq<char>,
    day_text: Seq<char>,
    ss: Seq<(String, JsonVal)>,
)
    requires
        stars_spec(j, id_text, name, day_text, ss) is Ok,
    ensures
        forall|k: int|
            0 <= k < stars_spec(j, id_text, name, day_text, ss)->Ok_0.len()
                ==> crate::event::event_wf(
                #[trigger] stars_spec(j, id_text, name, day_text, ss)->Ok_0[k],
            ),
    decreases ss.len(),
{
    if ss.len() > 0 {
        lemma_stars_wf(j, id_text, name, day_text, ss.skip(1));
    }
}

/// A synthesized display name for an anonymous member.
fn synth_name(id_text: &str) -> (r: String)
    ensures
        r@ == "anonymous user #"@ + id_text@,
{
    let mut s = String::from_str("anonymous user #");
    s.append(id_text);
    s
}

/// The event year the feed declares, read from the decoded payload.
fn year_of_exec(j: &JsonVal) -> (r: Option<i32>)
    ensures
        r == year_val(*j),
{
    match obj_find(j, "event") {
        Some(v) => match v {
            JsonVal::Str(s) => parse_i32(s.as_str()),
            JsonVal::Num(opt) => match opt {
                Some(k) => if i32::MIN as i64 <= *k && *k <= i32::MAX as i64 {
                    Some(*k as i32)
                } else {
                    None
                },
                None => None,
            },
            _ => None,
        },
        None => None,
    }
}

/// Build the event one completion entry denotes.
fn extract_entry(
    j: &JsonVal,
    id_text: &str,
    name: &str,
    day_text: &str,
    star_text: &str,
    contents: &JsonVal,
) -> (r: FestiveResult<Event>)
    ensures
        r matches Ok(e) ==> entry_spec(*j, id_text@, name@, day_text@, star_text@, *contents)
            == Ok::<EventV, FestiveError>(e@),
        r matches Err(er) ==> entry_spec(*j, id_text@, name@, day_text@, star_text@, *contents)
            == Err::<EventV, FestiveError>(er),
{
    let ts: i64 = match obj_find(contents, "get_star_ts") {
        Some(v) => match v {
            JsonVal::Num(opt) => match opt {
                Some(t) => *t,
                None => {
                    return Err(FestiveError::Parse);
                },
            },
            _ => {
                return Err(FestiveError::Parse);
            },
        },
        None => {
            return Err(FestiveError::Parse);
        },
    };
    if ts < 0 || ts > TS_MAX {
        return Err(FestiveError::Conv);
    }
    let year: i32 = match year_of_exec(j) {
        Some(y) => y,
        None => {
            return Err(FestiveError::Parse);
        },
    };
    let day: u32 = match parse_u32(day_text) {
        Some(d) => d,
        None => {
            return Err(FestiveError::Parse);
        },
    };
    let star: u8 = match parse_u8(star_text) {
        Some(st) => st,
        None => {
            return Err(FestiveError::Parse);
        },
    };
    let numeric: u64 = match parse_u64_str(id_text) {
        Some(n) => n,
        None => {
            return Err(FestiveError::Parse);
        },
    };
    let id = Identifier { name: String::from_str(name), numeric };
    Ok(Event::new(ts, year, day, star, id))
}

/// Read a `u64` decimal literal, range-checked.
fn parse_u64_str(s: &str) -> (r: Option<u64>)
    ensures
        r == as_u64_spec(s@),
{
    proof {
        lemma_dec_uint_nonneg(s@);
    }
    parse_u64(s)
}

/// Append the events of one member's one day, in feed order.
fn extract_stars(
    j: &JsonVal,
    id_text: &str,
    name: &str,
    day_text: &str,
    stars: &Vec<(String, JsonVal)>,
    events: &mut Vec<Event>,
) -> (r: FestiveResult<()>)
    ensures
        r is Ok <==> stars_spec(*j, id_text@, name@, day_text@, stars@) is Ok,
        r is Ok ==> final(events).deep_view() == old(events).deep_view() + stars_spec(
            *j,
            id_text@,
            name@,
            day_text@,
            stars@,
        )->Ok_0,
        r matches Err(er) ==> stars_spec(*j, id_text@, name@, day_text@, stars@) == Err::<
            Seq<EventV>,
            FestiveError,
        >(er),
{
    let ghost full = stars_spec(*j, id_text@, name@, day_text@, stars@);
    let ghost base = old(events).deep_view().len() as int;
    let n = stars.len();
    let mut i: usize = 0;
    proof {
        assert(stars@.skip(0) =~= stars@);
        assert(events.deep_view().skip(base) =~= Seq::<EventV>::empty());
        assert(events.deep_view().take(base) =~= old(events).deep_view());
    }
    while i < n
        invariant
            i <= n,
            n == stars@.len(),
            base == old(events).deep_view().len() as int,
            events.deep_view().len() >= base,
            events.deep_view().take(base) == old(events).deep_view(),
            full == stars_spec(*j, id_text@, name@, day_text@, stars@),
            stars_spec(*j, id_text@, name@, day_text@, stars@.skip(i as int)) is Err ==> full
                == stars_spec(*j, id_text@, name@, day_text@, stars@.skip(i as int)),
            stars_spec(*j, id_text@, name@, day_text@, stars@.skip(i as int)) is Ok ==> full
                == Ok::<Seq<EventV>, FestiveError>(
                events.deep_view().skip(base) + stars_spec(
                    *j,
                    id_text@,
                    name@,
                    day_text@,
                    stars@.skip(i as int),
                )->Ok_0,
            ),
        decreases n - i,
    {
        let star_text = &stars[i].0;
        let contents = &stars[i].1;
        let ghost pre = events.deep_view();
        proof {
            assert(stars@.skip(i as int)[0] == stars@[i as int]);
            assert(stars@.skip(i as int).skip(1) =~= stars@.skip(i as int + 1));
        }
        match extract_entry(j, id_text, name, day_text, star_text.as_str(), contents) {
            Ok(e) => {
                events.push(e);
                proof {
                    assert(events.deep_view() =~= pre + seq![e@]);
                    assert(events.deep_view().take(base) =~= pre.take(base));
                    let tail = stars_spec(*j, id_text@, name@, day_text@, stars@.skip(i as int + 1));
                    if tail is Ok {
                        assert(events.deep_view().skip(base) =~= pre.skip(base) + seq![e@]);
                        assert((pre.skip(base) + seq![e@]) + tail->Ok_0 =~= pre.skip(base) + (
                        seq![e@] + tail->Ok_0));
                    }
                }
            },
            Err(er) => {
                return Err(er);
            },
        }
        i += 1;
    }
    proof {
        assert(stars@.skip(n as int) =~= Seq::<(String, JsonVal)>::empty());
        assert(stars_spec(*j, id_text@, name@, day_text@, Seq::<(String, JsonVal)>::empty())
            == Ok::<Seq<EventV>, FestiveError>(Seq::<EventV>::empty()));
        assert(events.deep_view().skip(base) + Seq::<EventV>::empty() =~= events.deep_view().skip(
            base,
        ));
        assert(events.deep_view() =~= events.deep_view().take(base) + events.deep_view().skip(
            base,
        ));
    }
    Ok(())
}

/// Append every event of one member, day by day in feed order.
fn extract_member(j: &JsonVal, id_text: &str, member: &JsonVal, events: &mut Vec<Event>) -> (r:
    FestiveResult<()>)
    ensures
        r is Ok <==> member_spec(*j, id_text@, *member) is Ok,
        r is Ok ==> final(events).deep_view() == old(events).deep_view() + member_spec(
            *j,
            id_text@,
            *member,
        )->Ok_0,
        r matches Err(er) ==> member_spec(*j, id_text@, *member) == Err::<
            Seq<EventV>,
            FestiveError,
        >(er),
{
    let name: String = match obj_find(member, "name") {
        None => synth_name(id_text),
        Some(v) => match v {
            JsonVal::Null => synth_name(id_text),
            JsonVal::Str(s) => s.clone(),
            _ => {
                return Err(FestiveError::Parse);
            },
        },
    };
    proof {
        assert(name_of(*member, id_text@) == Some(name@));
    }
    let ghost nm = name@;
    let ghost days = obj_entries(obj_get(*member, "completion_day_level"@));
    let ghost full = days_spec(*j, id_text@, nm, days);
    let ghost base = old(events).deep_view().len() as int;
    match obj_find(member, "completion_day_level") {
        Some(v) => match v {
            JsonVal::Obj(ds) => {
                let n = ds.len();
                let mut i: usize = 0;
                proof {
                    assert(ds@.skip(0) =~= ds@);
                    assert(events.deep_view().skip(base) =~= Seq::<EventV>::empty());
                    assert(events.deep_view().take(base) =~= old(events).deep_view());
                }
                while i < n
                    invariant
                        i <= n,
                        n == ds@.len(),
                        days == ds@,
                        days == obj_entries(obj_get(*member, "completion_day_level"@)),
                        nm == name@,
                        name_of(*member, id_text@) == Some(nm),
                        base == old(events).deep_view().len() as int,
                        events.deep_view().len() >= base,
                        events.deep_view().take(base) == old(events).deep_view(),
                        full == days_spec(*j, id_text@, nm, days),
                        days_spec(*j, id_text@, nm, days.skip(i as int)) is Err ==> full
                            == days_spec(*j, id_text@, nm, days.skip(i as int)),
                        days_spec(*j, id_text@, nm, days.skip(i as int)) is Ok ==> full == Ok::<
                            Seq<EventV>,
                            FestiveError,
                        >(
                            events.deep_view().skip(base) + days_spec(
                                *j,
                                id_text@,
                                nm,
                                days.skip(i as int),
                            )->Ok_0,
                        ),
                    decreases n - i,
                {
                    let day_text = &ds[i].0;
                    let day_val = &ds[i].1;
                    let ghost pre = events.deep_view();
                    proof {
                        assert(days.skip(i as int)[0] == days[i as int]);
                        assert(days.skip(i as int).skip(1) =~= days.skip(i as int + 1));
                    }
                    let ghost day_result = stars_spec(
                        *j,
                        id_text@,
                        nm,
                        day_text@,
                        obj_entries(ds@[i as int].1),
                    );
                    match day_val {
                        JsonVal::Obj(ss) => {
                            proof {
                                assert(obj_entries(ds@[i as int].1) == ss@);
                            }
                            match extract_stars(
                                j,
                                id_text,
                                name.as_str(),
                                day_text.as_str(),
                                ss,
                                events,
                            ) {
                                Ok(()) => {
                                    proof {
                                        let tail = days_spec(
                                            *j,
                                            id_text@,
                                            nm,
                                            days.skip(i as int + 1),
                                        );
                                        assert(events.deep_view().take(base) =~= pre.take(base));
                                        if tail is Ok {
                                            assert(events.deep_view().skip(base) =~= pre.skip(base)
                                                + day_result->Ok_0);
                                            assert((pre.skip(base) + day_result->Ok_0)
                                                + tail->Ok_0 =~= pre.skip(base) + (
                                            day_result->Ok_0 + tail->Ok_0));
                                        }
                                    }
                                },
                                Err(er) => {
                                    proof {
                                        assert(day_result == Err::<Seq<EventV>, FestiveError>(er));
                                        assert(days_spec(*j, id_text@, nm, days.skip(i as int))
                                            == Err::<Seq<EventV>, FestiveError>(er));
                                        assert(full == Err::<Seq<EventV>, FestiveError>(er));
                                    }
                                    return Err(er);
                                },
                            }
                        },
                        _ => {
                            proof {
                                assert(obj_entries(ds@[i as int].1) =~= Seq::<
                                    (String, JsonVal),
                                >::empty());
                                assert(day_result == Ok::<Seq<EventV>, FestiveError>(
                                    Seq::<EventV>::empty(),
                                ));
                                let tail = days_spec(*j, id_text@, nm, days.skip(i as int + 1));
                                if tail is Ok {
                                    assert(Seq::<EventV>::empty() + tail->Ok_0 =~= tail->Ok_0);
                                }
                            }
                        },
                    }
                    i += 1;
                }
                proof {
                    assert(days.skip(n as int) =~= Seq::<(String, JsonVal)>::empty());
                    assert(days_spec(*j, id_text@, nm, Seq::<(String, JsonVal)>::empty()) == Ok::<
                        Seq<EventV>,
                        FestiveError,
                    >(Seq::<EventV>::empty()));
                    assert(events.deep_view().skip(base) + Seq::<EventV>::empty()
                        =~= events.deep_view().skip(base));
                    assert(events.deep_view() =~= events.deep_view().take(base)
                        + events.deep_view().skip(base));
                }
                Ok(())
            },
            _ => {
                proof {
                    assert(days =~= Seq::<(String, JsonVal)>::empty());
                    assert(full == Ok::<Seq<EventV>, FestiveError>(Seq::<EventV>::empty()));
                    assert(events.deep_view() + Seq::<EventV>::empty() =~= events.deep_view());
                }
                Ok(())
            },
        },
        None => {
            proof {
                assert(days =~= Seq::<(String, JsonVal)>::empty());
                assert(full == Ok::<Seq<EventV>, FestiveError>(Seq::<EventV>::empty()));
                assert(events.deep_view() + Seq::<EventV>::empty() =~= events.deep_view());
            }
            Ok(())
        },
    }
}

/// Append every event the decoded feed denotes, member by member in feed
/// order.
pub fn extract_events(j: &JsonVal, events: &mut Vec<Event>) -> (r: FestiveResult<()>)
    ensures
        r is Ok <==> feed_events(*j) is Ok,
        r is Ok ==> final(events).deep_view() == old(events).deep_view() + feed_events(*j)->Ok_0,
        r matches Err(er) ==> feed_events(*j) == Err::<Seq<EventV>, FestiveError>(er),
{
    let ghost ms_seq = obj_entries(obj_get(*j, "members"@));
    let ghost full = members_spec(*j, ms_seq);
    let ghost base = old(events).deep_view().len() as int;
    match obj_find(j, "members") {
        Some(v) => match v {
            JsonVal::Obj(ms) => {
                proof {
                    assert(ms_seq == ms@);
                }
                let n = ms.len();
                let mut i: usize = 0;
                proof {
                    assert(ms@.skip(0) =~= ms@);
                    assert(events.deep_view().skip(base) =~= Seq::<EventV>::empty());
                    assert(events.deep_view().take(base) =~= old(events).deep_view());
                }
                while i < n
                    invariant
                        i <= n,
                        n == ms@.len(),
                        ms_seq == ms@,
                        ms_seq == obj_entries(obj_get(*j, "members"@)),
                        base == old(events).deep_view().len() as int,
                        events.deep_view().len() >= base,
                        events.deep_view().take(base) == old(events).deep_view(),
                        full == members_spec(*j, ms_seq),
                        members_spec(*j, ms_seq.skip(i as int)) is Err ==> full == members_spec(
                            *j,
                            ms_seq.skip(i as int),
                        ),
                        members_spec(*j, ms_seq.skip(i as int)) is Ok ==> full == Ok::<
                            Seq<EventV>,
                            FestiveError,
                        >(
                            events.deep_view().skip(base) + members_spec(
                                *j,
                                ms_seq.skip(i as int),
                            )->Ok_0,
                        ),
                    decreases n - i,
                {
                    let id_text = &ms[i].0;
                    let member = &ms[i].1;
                    let ghost pre = events.deep_view();
                    proof {
                        assert(ms_seq.skip(i as int)[0] == ms_seq[i as int]);
                        assert(ms_seq.skip(i as int).skip(1) =~= ms_seq.skip(i as int + 1));
                    }
                    let ghost m_result = member_spec(*j, id_text@, ms@[i as int].1);
                    match extract_member(j, id_text.as_str(), member, events) {
                        Ok(()) => {
                            proof {
                                let tail = members_spec(*j, ms_seq.skip(i as int + 1));
                                assert(events.deep_view().take(base) =~= pre.take(base));
                                if tail is Ok {
                                    assert(events.deep_view().skip(base) =~= pre.skip(base)
                                        + m_result->Ok_0);
                                    assert((pre.skip(base) + m_result->Ok_0) + tail->Ok_0
                                        =~= pre.skip(base) + (m_result->Ok_0 + tail->Ok_0));
                                }
                            }
                        },
                        Err(er) => {
                            proof {
                                assert(m_result == Err::<Seq<EventV>, FestiveError>(er));
                                assert(members_spec(*j, ms_seq.skip(i as int)) == Err::<
                                    Seq<EventV>,
                                    FestiveError,
                                >(er));
                                assert(full == Err::<Seq<EventV>, FestiveError>(er));
                            }
                            return Err(er);
                        },
                    }
                    i += 1;
                }
                proof {
                    assert(ms_seq.skip(n as int) =~= Seq::<(String, JsonVal)>::empty());
                    assert(members_spec(*j, Seq::<(String, JsonVal)>::empty()) == Ok::<
                        Seq<EventV>,
                        FestiveError,
                    >(Seq::<EventV>::empty()));
                    assert(events.deep_view().skip(base) + Seq::<EventV>::empty()
                        =~= events.deep_view().skip(base));
                    assert(events.deep_view() =~= events.deep_view().take(base)
                        + events.deep_view().skip(base));
                }
                Ok(())
            },
            _ => {
                proof {
                    assert(ms_seq =~= Seq::<(String, JsonVal)>::empty());
                    assert(full == Ok::<Seq<EventV>, FestiveError>(Seq::<EventV>::empty()));
                    assert(events.deep_view() + Seq::<EventV>::empty() =~= events.deep_view());
                }
                Ok(())
            },
        },
        None => {
            proof {
                assert(ms_seq =~= Seq::<(String, JsonVal)>::empty());
                assert(full == Ok::<Seq<EventV>, FestiveError>(Seq::<EventV>::empty()));
                assert(events.deep_view() + Seq::<EventV>::empty() =~= events.deep_view());
            }
            Ok(())
        },
    }
}

#[verifier::external_type_specification]
#[verifier::external_body]
pub struct ExJsonValue(json::JsonValue);

#[verifier::external_type_specification]
#[verifier::external_body]
pub struct ExJsonNumber(json::number::Number);

/// The exact `i64` a payload number denotes, if it denotes one.
///
/// Relies on json's `Number::as_parts`: the sign, the decimal mantissa,
/// and the decimal exponent. A number denotes an `i64` exactly when its
/// exponent is zero and its mantissa is in range — up to `i64::MAX` when
/// positive, up to one beyond it when negative (that extreme mantissa
/// denotes `i64::MIN`, reached by a wrapping negation so that no input
/// can overflow). Everything else is kept as no integer.
#[verifier::external_body]
fn int_of_number(n: json::number::Number) -> Option<i64> {
    let (positive, mantissa, exponent) = n.as_parts();
    if exponent != 0 {
        None
    } else if positive {
        i64::try_from(mantissa).ok()
    } else if mantissa <= 9_223_372_036_854_775_808u64 {
        Some((mantissa as i64).wrapping_neg())
    } else {
        None
    }
}

/// Carry one decoded value across, variant by variant.
///
/// Relies on json's `JsonValue`: `Short` and `String` both hold string
/// values, a `Number` keeps exactly the `i64` it denotes when it denotes
/// one (`int_of_number`), and `Object` iteration yields its entries in
/// insertion order with unique keys.
#[verifier::external_body]
fn convert_json(v: json::JsonValue) -> JsonVal {
    match v {
        json::JsonValue::Null => JsonVal::Null,
        json::JsonValue::Boolean(b) => JsonVal::Bool(b),
        json::JsonValue::Number(n) => JsonVal::Num(int_of_number(n)),
        json::JsonValue::Short(s) => JsonVal::Str(s.as_str().to_owned()),
        json::JsonValue::String(s) => JsonVal::Str(s),
        json::JsonValue::Object(o) => JsonVal::Obj(
            o.iter().map(|(k, x)| (k.to_owned(), convert_json(x.clone()))).collect(),
        ),
        json::JsonValue::Array(a) => JsonVal::Arr(a.into_iter().map(convert_json).collect()),
    }
}

/// Decode a raw payload into the feed model.
///
/// Relies on json's `parse`: it decodes JSON text, failing exactly on
/// malformed input, and both the decode and the variant-by-variant
/// conversion behind it are functions of the text alone, so the
/// mathematical value of the result carries the name `json_decoded`.
#[verifier::external_body]
fn parse_json(s: &str) -> (r: Result<JsonVal, FestiveError>)
    ensures
        r matches Ok(v) ==> json_decoded(s@) == Some(json_view(v)),
        r is Err ==> json_decoded(s@) is None,
        r matches Err(e) ==> e == FestiveError::Parse,
{
    match json::parse(s) {
        Ok(v) => Ok(convert_json(v)),
        Err(_) => Err(FestiveError::Parse),
    }
}

/// Trees with the same mathematical value hold corresponding entries.
proof fn lemma_entries_cong(a: JsonVal, b: JsonVal)
    requires
        json_view(a) == json_view(b),
    ensures
        obj_entries(a).len() == obj_entries(b).len(),
        forall|i: int|
            0 <= i < obj_entries(a).len() ==> (#[trigger] obj_entries(a)[i]).0@ == obj_entries(
                b,
            )[i].0@ && json_view(obj_entries(a)[i].1) == json_view(obj_entries(b)[i].1),
{
    match a {
        JsonVal::Obj(ea) => {
            match b {
                JsonVal::Obj(eb) => {
                    let va = json_view(a)->Obj_0;
                    let vb = json_view(b)->Obj_0;
                    assert(va == vb);
                    assert(va.len() == ea@.len() && vb.len() == eb@.len());
                    assert forall|i: int| 0 <= i < obj_entries(a).len() implies (
                    #[trigger] obj_entries(a)[i]).0@ == obj_entries(b)[i].0@ && json_view(
                        obj_entries(a)[i].1,
                    ) == json_view(obj_entries(b)[i].1) by {
                        assert(va[i] == (ea@[i].0@, json_view(ea@[i].1)));
                        assert(vb[i] == (eb@[i].0@, json_view(eb@[i].1)));
                    }
                },
                _ => {},
            }
        },
        _ => {
            match b {
                JsonVal::Obj(eb) => {},
                _ => {
                    assert(obj_entries(a) =~= Seq::<(String, JsonVal)>::empty());
                    assert(obj_entries(b) =~= Seq::<(String, JsonVal)>::empty());
                },
            }
        },
    }
}

/// Corresponding entry runs look fields up to values with the same
/// mathematical value.
proof fn lemma_obj_get_from_cong(
    ea: Seq<(String, JsonVal)>,
    eb: Seq<(String, JsonVal)>,
    key: Seq<char>,
)
    requires
        ea.len() == eb.len(),
        forall|i: int|
            0 <= i < ea.len() ==> (#[trigger] ea[i]).0@ == eb[i].0@ && json_view(ea[i].1)
                == json_view(eb[i].1),
    ensures
        json_view(obj_get_from(ea, key)) == json_view(obj_get_from(eb, key)),
    decreases ea.len(),
{
    if ea.len() > 0 {
        if ea[0].0@ == key {
        } else {
            assert(forall|i: int|
                0 <= i < ea.skip(1).len() ==> #[trigger] ea.skip(1)[i] == ea[i + 1] && eb.skip(
                    1,
                )[i] == eb[i + 1]);
            lemma_obj_get_from_cong(ea.skip(1), eb.skip(1), key);
        }
    }
}

/// Field lookup respects the mathematical value.
proof fn lemma_obj_get_cong(a: JsonVal, b: JsonVal, key: Seq<char>)
    requires
        json_view(a) == json_view(b),
    ensures
        json_view(obj_get(a, key)) == json_view(obj_get(b, key)),
{
    lemma_entries_cong(a, b);
    lemma_obj_get_from_cong(obj_entries(a), obj_entries(b), key);
}

/// The declared event year respects the mathematical value.
proof fn lemma_year_val_cong(a: JsonVal, b: JsonVal)
    requires
        json_view(a) == json_view(b),
    ensures
        year_val(a) == year_val(b),
{
    lemma_obj_get_cong(a, b, "event"@);
}

/// A member's display name respects the mathematical value.
proof fn lemma_name_of_cong(a: JsonVal, b: JsonVal, id_text: Seq<char>)
    requires
        json_view(a) == json_view(b),
    ensures
        name_of(a, id_text) == name_of(b, id_text),
{
    lemma_obj_get_cong(a, b, "name"@);
}

/// One completion entry's outcome respects the mathematical values.
proof fn lemma_entry_cong(
    ja: JsonVal,
    jb: JsonVal,
    id_text: Seq<char>,
    name: Seq<char>,
    day_text: Seq<char>,
    star_text: Seq<char>,
    ca: JsonVal,
    cb: JsonVal,
)
    requires
        json_view(ja) == json_view(jb),
        json_view(ca) == json_view(cb),
    ensures
        entry_spec(ja, id_text, name, day_text, star_text, ca) == entry_spec(
            jb,
            id_text,
            name,
            day_text,
            star_text,
            cb,
        ),
{
    lemma_obj_get_cong(ca, cb, "get_star_ts"@);
    lemma_year_val_cong(ja, jb);
}

/// One day's completion entries respect the mathematical values.
proof fn lemma_stars_cong(
    ja: JsonVal,
    jb: JsonVal,
    id_text: Seq<char>,
    name: Seq<char>,
    day_text: Seq<char>,
    sa: Seq<(String, JsonVal)>,
    sb: Seq<(String, JsonVal)>,
)
    requires
        json_view(ja) == json_view(jb),
        sa.len() == sb.len(),
        forall|i: int|
            0 <= i < sa.len() ==> (#[trigger] sa[i]).0@ == sb[i].0@ && json_view(sa[i].1)
                == json_view(sb[i].1),
    ensures
        stars_spec(ja, id_text, name, day_text, sa) == stars_spec(jb, id_text, name, day_text, sb),
    decreases sa.len(),
{
    if sa.len() > 0 {
        lemma_entry_cong(ja, jb, id_text, name, day_text, sa[0].0@, sa[0].1, sb[0].1);
        assert(forall|i: int|
            0 <= i < sa.skip(1).len() ==> #[trigger] sa.skip(1)[i] == sa[i + 1] && sb.skip(1)[i]
                == sb[i + 1]);
        lemma_stars_cong(ja, jb, id_text, name, day_text, sa.skip(1), sb.skip(1));
    }
}

/// A member's days respect the mathematical values.
proof fn lemma_days_cong(
    ja: JsonVal,
    jb: JsonVal,
    id_text: Seq<char>,
    name: Seq<char>,
    da: Seq<(String, JsonVal)>,
    db: Seq<(String, JsonVal)>,
)
    requires
        json_view(ja) == json_view(jb),
        da.len() == db.len(),
        forall|i: int|
            0 <= i < da.len() ==> (#[trigger] da[i]).0@ == db[i].0@ && json_view(da[i].1)
                == json_view(db[i].1),
    ensures
        days_spec(ja, id_text, name, da) == days_spec(jb, id_text, name, db),
    decreases da.len(),
{
    if da.len() > 0 {
        lemma_entries_cong(da[0].1, db[0].1);
        lemma_stars_cong(
            ja,
            jb,
            id_text,
            name,
            da[0].0@,
            obj_entries(da[0].1),
            obj_entries(db[0].1),
        );
        assert(forall|i: int|
            0 <= i < da.skip(1).len() ==> #[trigger] da.skip(1)[i] == da[i + 1] && db.skip(1)[i]
                == db[i + 1]);
        lemma_days_cong(ja, jb, id_text, name, da.skip(1), db.skip(1));
    }
}

/// One member's events respect the mathematical values.
proof fn lemma_member_cong(ja: JsonVal, jb: JsonVal, id_text: Seq<char>, ma: JsonVal, mb: JsonVal)
    requires
        json_view(ja) == json_view(jb),
        json_view(ma) == json_view(mb),
    ensures
        member_spec(ja, id_text, ma) == member_spec(jb, id_text, mb),
{
    lemma_name_of_cong(ma, mb, id_text);
    if name_of(ma, id_text) is Some {
        lemma_obj_get_cong(ma, mb, "completion_day_level"@);
        lemma_entries_cong(
            obj_get(ma, "completion_day_level"@),
            obj_get(mb, "completion_day_level"@),
        );
        lemma_days_cong(
            ja,
            jb,
            id_text,
            name_of(ma, id_text)->Some_0,
            obj_entries(obj_get(ma, "completion_day_level"@)),
            obj_entries(obj_get(mb, "completion_day_level"@)),
        );
    }
}

/// The member run respects the mathematical values.
proof fn lemma_members_cong(
    ja: JsonVal,
    jb: JsonVal,
    ma: Seq<(String, JsonVal)>,
    mb: Seq<(String, JsonVal)>,
)
    requires
        json_view(ja) == json_view(jb),
        ma.len() == mb.len(),
        forall|i: int|
            0 <= i < ma.len() ==> (#[trigger] ma[i]).0@ == mb[i].0@ && json_view(ma[i].1)
                == json_view(mb[i].1),
    ensures
        members_spec(ja, ma) == members_spec(jb, mb),
    decreases ma.len(),
{
    if ma.len() > 0 {
        lemma_member_cong(ja, jb, ma[0].0@, ma[0].1, mb[0].1);
        assert(forall|i: int|
            0 <= i < ma.skip(1).len() ==> #[trigger] ma.skip(1)[i] == ma[i + 1] && mb.skip(1)[i]
                == mb[i + 1]);
        lemma_members_cong(ja, jb, ma.skip(1), mb.skip(1));
    }
}

/// Two decoded trees with the same mathematical value denote the same
/// events: the feed's meaning depends on the decoded value alone.
pub proof fn lemma_feed_events_cong(a: JsonVal, b: JsonVal)
    requires
        json_view(a) == json_view(b),
    ensures
        feed_events(a) == feed_events(b),
{
    lemma_obj_get_cong(a, b, "members"@);
    lemma_entries_cong(obj_get(a, "members"@), obj_get(b, "members"@));
    lemma_members_cong(
        a,
        b,
        obj_entries(obj_get(a, "members"@)),
        obj_entries(obj_get(b, "members"@)),
    );
}

/// The validated event sequence a decoded mathematical value denotes.
pub open spec fn feed_of(d: JsonV) -> Result<Seq<EventV>, FestiveError> {
    feed_events(choose|j: JsonVal| json_view(j) == d)
}

/// On the image of real trees, `feed_of` agrees with the tree-level
/// extraction.
pub proof fn lemma_feed_of_view(j: JsonVal)
    ensures
        feed_of(json_view(j)) == feed_events(j),
{
    assert(json_view(j) == json_view(j));
    let w = choose|w: JsonVal| json_view(w) == json_view(j);
    assert(json_view(w) == json_view(j));
    lemma_feed_events_cong(w, j);
}

/// Whatever multiset a sequence is rearranged into, a property of every
/// element carries over.
proof fn lemma_wf_carries_over(a: Seq<Event>, b: Seq<Event>)
    requires
        a.to_multiset() == b.to_multiset(),
        forall|k: int| 0 <= k < a.len() ==> crate::event::event_wf(#[trigger] a[k]@),
    ensures
        forall|k: int| 0 <= k < b.len() ==> crate::event::event_wf(#[trigger] b[k]@),
{
    broadcast use vstd::seq_lib::group_to_multiset_ensures;

    assert forall|k: int| 0 <= k < b.len() implies crate::event::event_wf(#[trigger] b[k]@) by {
        assert(b.contains(b[k]));
        assert(b.to_multiset().count(b[k]) > 0);
        assert(a.contains(b[k]));
        let i = choose|i: int| 0 <= i < a.len() && a[i] == b[k];
        assert(crate::event::event_wf(a[i]@));
    }
}

impl Event {
    /// Convert a raw leaderboard payload into a validated sequence of
    /// events, replacing any previous contents of `events`: the payload is
    /// decoded (`json_decoded` names the decoded value), each completion
    /// entry is validated against `feed_of`, and the result is the stable
    /// chronological arrangement of those events — ascending by completion
    /// instant, tied instants in feed order. The outcome depends on the
    /// response alone.
    pub fn parse(response: &str, events: &mut Vec<Event>) -> (r: FestiveResult<()>)
        ensures
            r is Ok <==> (json_decoded(response@) is Some && feed_of(
                json_decoded(response@)->Some_0,
            ) is Ok),
            json_decoded(response@) is None ==> r == Err::<(), FestiveError>(FestiveError::Parse),
            r is Ok ==> final(events).deep_view() == crate::event::sort_by_ts_spec(
                feed_of(json_decoded(response@)->Some_0)->Ok_0,
            ),
            r is Ok ==> final(events).deep_view().to_multiset() == feed_of(
                json_decoded(response@)->Some_0,
            )->Ok_0.to_multiset(),
            r is Ok ==> final(events)@.len() == feed_of(
                json_decoded(response@)->Some_0,
            )->Ok_0.len(),
            r is Ok ==> sorted_by_ts(final(events).deep_view()),
            r is Ok ==> forall|k: int|
                0 <= k < final(events)@.len() ==> crate::event::event_wf(
                    #[trigger] final(events)@[k]@,
                ),
            r is Err && json_decoded(response@) is Some ==> feed_of(
                json_decoded(response@)->Some_0,
            ) == Err::<Seq<EventV>, FestiveError>(r->Err_0),
            r matches Err(e) ==> e == FestiveError::Parse || e == FestiveError::Conv,
    {
        events.clear();
        let tree = match parse_json(response) {
            Ok(t) => t,
            Err(e) => {
                return Err(e);
            },
        };
        proof {
            lemma_feed_of_view(tree);
            assert(json_decoded(response@) == Some(json_view(tree)));
            assert(feed_of(json_decoded(response@)->Some_0) == feed_events(tree));
        }
        match extract_events(&tree, events) {
            Ok(()) => {
                proof {
                    lemma_feed_events_wf(tree);
                    assert(Seq::<EventV>::empty() + feed_events(tree)->Ok_0 =~= feed_events(
                        tree,
                    )->Ok_0);
                    assert(events.deep_view() == feed_events(tree)->Ok_0);
                    assert(forall|k: int|
                        0 <= k < events@.len() ==> crate::event::event_wf(
                            #[trigger] events@[k]@,
                        )) by {
                        assert(forall|k: int|
                            0 <= k < events@.len() ==> events.deep_view()[k] == #[trigger] events@[k]@);
                    }
                }
                let ghost before = events@;
                crate::event::sort_events(events);
                proof {
                    lemma_wf_carries_over(before, events@);
                }
                Ok(())
            },
            Err(e) => {
                proof {
                    lemma_feed_errors(tree);
                }
                Err(e)
            },
        }
    }
}

/// Extraction fails only with a parse or a conversion error.
proof fn lemma_feed_errors(j: JsonVal)
    ensures
        feed_events(j) matches Err(e) ==> e == FestiveError::Parse || e == FestiveError::Conv,
{
    lemma_members_errors(j, obj_entries(obj_get(j, "members"@)));
}

proof fn lemma_members_errors(j: JsonVal, ms: Seq<(String, JsonVal)>)
    ensures
        members_spec(j, ms) matches Err(e) ==> e == FestiveError::Parse || e == FestiveError::Conv,
    decreases ms.len(),
{
    if ms.len() > 0 {
        lemma_member_errors(j, ms[0].0@, ms[0].1);
        lemma_members_errors(j, ms.skip(1));
    }
}

proof fn lemma_member_errors(j: JsonVal, id_text: Seq<char>, member: JsonVal)
    ensures
        member_spec(j, id_text, member) matches Err(e) ==> e == FestiveError::Parse || e
            == FestiveError::Conv,
{
    if name_of(member, id_text) is Some {
        lemma_days_errors(
            j,
            id_text,
            name_of(member, id_text)->Some_0,
            obj_entries(obj_get(member, "completion_day_level"@)),
        );
    }
}

proof fn lemma_days_errors(
    j: JsonVal,
    id_text: Seq<char>,
    name: Seq<char>,
    ds: Seq<(String, JsonVal)>,
)
    ensures
        days_spec(j, id_text, name, ds) matches Err(e) ==> e == FestiveError::Parse || e
            == FestiveError::Conv,
    decreases ds.len(),
{
    if ds.len() > 0 {
        lemma_stars_errors(j, id_text, name, ds[0].0@, obj_entries(ds[0].1));
        lemma_days_errors(j, id_text, name, ds.skip(1));
    }
}

proof fn lemma_stars_errors(
    j: JsonVal,
    id_text: Seq<char>,
    name: Seq<char>,
    day_text: Seq<char>,
    ss: Seq<(String, JsonVal)>,
)
    ensures
        stars_spec(j, id_text, name, day_text, ss) matches Err(e) ==> e == FestiveError::Parse
            || e == FestiveError::Conv,
    decreases ss.len(),
{
    if ss.len() > 0 {
        lemma_stars_errors(j, id_text, name, day_text, ss.skip(1));
    }
}

} // verus!
