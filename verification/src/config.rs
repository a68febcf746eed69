//! Configuration surface: environment-variable handles, command-line
//! options, and the explicit configuration value the engine is driven by.

use vstd::prelude::*;
use crate::feed::dec_int_of;
use crate::text::str_eq;

verus! {

/// Environment variable handles.
#[derive(Debug, Clone, Copy, PartialEq, Eq, Structural)]
pub enum Var {
    Leaderboard,
    Session,
    Notify,
    Status,
}

/// The environment key each handle stands for.
pub open spec fn key_spec(v: Var) -> Seq<char> {
    match v {
        Var::Leaderboard => "FESTIVE_BOT_LEADERBOARD"@,
        Var::Session => "FESTIVE_BOT_SESSION"@,
        Var::Notify => "FESTIVE_BOT_NOTIFY"@,
        Var::Status => "FESTIVE_BOT_STATUS"@,
    }
}

impl Var {
    pub fn key(&self) -> (r: &'static str)
        ensures
            r@ == key_spec(*self),
    {
        match self {
            Var::Leaderboard => "FESTIVE_BOT_LEADERBOARD",
            Var::Session => "FESTIVE_BOT_SESSION",
            Var::Notify => "FESTIVE_BOT_NOTIFY",
            Var::Status => "FESTIVE_BOT_STATUS",
        }
    }
}

/// The explicit configuration value the engine is driven by, constructed
/// once at startup; the engine never reads the process environment.
pub struct Config {
    /// The leaderboard identity.
    pub leaderboard: String,
    /// The upstream session credential.
    pub session: String,
    /// Outbound channel for puzzle, standings and event announcements.
    pub notify: Option<String>,
    /// Outbound channel for lifecycle and heartbeat announcements.
    pub status: Option<String>,
}

/// Minutes per hour, day and week, for the option defaults and bounds.
pub const MINS_HOUR: i64 = 60;

pub const MINS_DAY: i64 = 1440;

pub const MINS_WEEK: i64 = 10080;

/// Options passed as command-line arguments; also used as states for the
/// argument parser.
#[derive(Debug, Clone, Copy, PartialEq, Eq, Structural)]
pub enum Opt {
    AllYears,
    Period,
    Standings,
    Heartbeat,
}

/// The usage fragment of each option.
pub open spec fn usage_spec(o: Opt) -> Seq<char> {
    match o {
        Opt::AllYears => "[--all-years]"@,
        Opt::Period => "[--period mins]"@,
        Opt::Standings => "[--standings mins]"@,
        Opt::Heartbeat => "[--heartbeat mins]"@,
    }
}

impl Opt {
    /// Describe this option's parameters.
    pub fn usage(self) -> (r: &'static str)
        ensures
            r@ == usage_spec(self),
    {
        match self {
            Opt::AllYears => "[--all-years]",
            Opt::Period => "[--period mins]",
            Opt::Standings => "[--standings mins]",
            Opt::Heartbeat => "[--heartbeat mins]",
        }
    }

    /// All options, in usage order.
    pub fn iter() -> (r: Vec<Opt>)
        ensures
            r@ == seq![Opt::AllYears, Opt::Period, Opt::Standings, Opt::Heartbeat],
    {
        let mut v = Vec::new();
        v.push(Opt::AllYears);
        v.push(Opt::Period);
        v.push(Opt::Standings);
        v.push(Opt::Heartbeat);
        proof {
            assert(v@ =~= seq![Opt::AllYears, Opt::Period, Opt::Standings, Opt::Heartbeat]);
        }
        v
    }
}

/// Why the command line was rejected: a faulty option parameter, or an
/// argument that is no option at all.
#[derive(Debug)]
pub enum ArgError {
    Opt(Opt),
    Unexpected(String),
}

/// Command-line arguments; the intervals are held in seconds.
pub struct Args {
    /// Report on all tracked years each pass, not only the current one.
    pub all_years: bool,
    /// The poll period.
    pub period: i64,
    /// The interval between standings announcements.
    pub standings: i64,
    /// The interval between heartbeat messages, when set.
    pub heartbeat: Option<i64>,
}

/// A valid `--period` parameter: at least a quarter hour, dividing the
/// day evenly.
pub open spec fn valid_period_mins(m: int) -> bool {
    15 <= m && (MINS_DAY as int) % m == 0
}

/// A valid `--standings` or `--heartbeat` parameter: positive and no more
/// than a week. (The announcement intervals must be positive multiples of
/// the poll period.)
pub open spec fn interval_mins_accepted(m: int) -> bool {
    1 <= m <= MINS_WEEK as int
}

impl Args {
    /// The default arguments: only the current year, an hourly poll, daily
    /// standings, no heartbeat.
    pub fn new() -> (r: Args)
        ensures
            r.all_years == false,
            r.period as int == MINS_HOUR as int * 60,
            r.standings as int == MINS_DAY as int * 60,
            r.heartbeat is None,
    {
        Args { all_years: false, period: MINS_HOUR * 60, standings: MINS_DAY * 60, heartbeat: None }
    }
}

/// Ghost mirror of an argument error.
pub enum ArgErrorV {
    Opt(Opt),
    Unexpected(Seq<char>),
}

pub open spec fn arg_error_view(e: ArgError) -> ArgErrorV {
    match e {
        ArgError::Opt(o) => ArgErrorV::Opt(o),
        ArgError::Unexpected(s) => ArgErrorV::Unexpected(s@),
    }
}

pub open spec fn strings_view(s: Seq<String>) -> Seq<Seq<char>> {
    Seq::new(s.len(), |i: int| s[i]@)
}

/// One pass of the argument scanner over the remaining arguments,
/// mirroring how the options drive the parser's state.
pub open spec fn parse_scan(
    args: Seq<Seq<char>>,
    i: int,
    state: Option<Opt>,
    all: bool,
    mp: int,
    ms: int,
    mh: Option<int>,
) -> Result<(bool, int, int, Option<int>), ArgErrorV>
    decreases args.len() - i,
{
    if i < 0 || i >= args.len() {
        match state {
            Some(o) => Err(ArgErrorV::Opt(o)),
            None => Ok((all, mp, ms, mh)),
        }
    } else {
        let a = args[i];
        match state {
            None => {
                if a == "--all-years"@ {
                    parse_scan(args, i + 1, None, true, mp, ms, mh)
                } else if a == "--period"@ {
                    parse_scan(args, i + 1, Some(Opt::Period), all, mp, ms, mh)
                } else if a == "--standings"@ {
                    parse_scan(args, i + 1, Some(Opt::Standings), all, mp, ms, mh)
                } else if a == "--heartbeat"@ {
                    parse_scan(args, i + 1, Some(Opt::Heartbeat), all, mp, ms, mh)
                } else {
                    Err(ArgErrorV::Unexpected(a))
                }
            },
            Some(o) => match o {
                Opt::Period => match dec_int_of(a) {
                    Some(v) => if i64::MIN as int <= v <= i64::MAX as int && valid_period_mins(v) {
                        parse_scan(args, i + 1, None, all, v, ms, mh)
                    } else {
                        Err(ArgErrorV::Opt(Opt::Period))
                    },
                    None => Err(ArgErrorV::Opt(Opt::Period)),
                },
                Opt::Standings => match dec_int_of(a) {
                    Some(v) => if i64::MIN as int <= v <= i64::MAX as int
                        && interval_mins_accepted(v) {
                        parse_scan(args, i + 1, None, all, mp, v, mh)
                    } else {
                        Err(ArgErrorV::Opt(Opt::Standings))
                    },
                    None => Err(ArgErrorV::Opt(Opt::Standings)),
                },
                Opt::Heartbeat => match dec_int_of(a) {
                    Some(v) => if i64::MIN as int <= v <= i64::MAX as int
                        && interval_mins_accepted(v) {
                        parse_scan(args, i + 1, None, all, mp, ms, Some(v))
                    } else {
                        Err(ArgErrorV::Opt(Opt::Heartbeat))
                    },
                    None => Err(ArgErrorV::Opt(Opt::Heartbeat)),
                },
                Opt::AllYears => Err(ArgErrorV::Opt(Opt::AllYears)),
            },
        }
    }
}

/// The outcome of the command line: scan the options, then hold the
/// standings and heartbeat intervals to multiples of the poll period, and
/// convert minutes to seconds.
pub open spec fn parse_args_spec(args: Seq<Seq<char>>) -> Result<
    (bool, int, int, Option<int>),
    ArgErrorV,
> {
    match parse_scan(args, 0, None, false, MINS_HOUR as int, MINS_DAY as int, None) {
        Err(e) => Err(e),
        Ok((all, mp, ms, mh)) => {
            if ms % mp != 0 {
                Err(ArgErrorV::Opt(Opt::Standings))
            } else if mh matches Some(m) && m % mp != 0 {
                Err(ArgErrorV::Opt(Opt::Heartbeat))
            } else {
                Ok(
                    (
                        all,
                        mp * 60,
                        ms * 60,
                        match mh {
                            Some(m) => Some(m * 60),
                            None => None,
                        },
                    ),
                )
            }
        },
    }
}

impl Args {
    /// Parse command-line arguments (the program name already removed).
    /// The defaults stand for anything not given; a faulty parameter, an
    /// unknown argument, a dangling option, a non-positive interval, or an
    /// interval that is no multiple of the poll period is rejected.
    pub fn parse(args: &Vec<String>) -> (r: Result<Args, ArgError>)
        ensures
            r matches Ok(a) ==> parse_args_spec(strings_view(args@)) == Ok::<
                (bool, int, int, Option<int>),
                ArgErrorV,
            >(
                (
                    a.all_years,
                    a.period as int,
                    a.standings as int,
                    match a.heartbeat {
                        Some(h) => Some(h as int),
                        None => None,
                    },
                ),
            ),
            r matches Err(e) ==> parse_args_spec(strings_view(args@)) == Err::<
                (bool, int, int, Option<int>),
                ArgErrorV,
            >(arg_error_view(e)),
    {
        let ghost sv = strings_view(args@);
        let n = args.len();
        let mut state: Option<Opt> = None;
        let mut all: bool = false;
        let mut mp: i64 = MINS_HOUR;
        let mut ms: i64 = MINS_DAY;
        let mut mh: Option<i64> = None;
        let mut i: usize = 0;
        while i < n
            invariant
                i <= n,
                n == sv.len(),
                sv == strings_view(args@),
                15 <= mp <= MINS_DAY,
                1 <= ms <= MINS_WEEK,
                mh matches Some(h) ==> 1 <= h <= MINS_WEEK,
                parse_scan(sv, 0, None, false, MINS_HOUR as int, MINS_DAY as int, None)
                    == parse_scan(
                    sv,
                    i as int,
                    state,
                    all,
                    mp as int,
                    ms as int,
                    match mh {
                        Some(h) => Some(h as int),
                        None => None,
                    },
                ),
            decreases n - i,
        {
            let a = &args[i];
            proof {
                assert(sv[i as int] == a@);
            }
            match state {
                None => {
                    if str_eq(a.as_str(), "--all-years") {
                        all = true;
                    } else if str_eq(a.as_str(), "--period") {
                        state = Some(Opt::Period);
                    } else if str_eq(a.as_str(), "--standings") {
                        state = Some(Opt::Standings);
                    } else if str_eq(a.as_str(), "--heartbeat") {
                        state = Some(Opt::Heartbeat);
                    } else {
                        return Err(ArgError::Unexpected(a.clone()));
                    }
                },
                Some(o) => {
                    let parsed = crate::feed::parse_i64(a.as_str());
                    match o {
                        Opt::Period => match parsed {
                            Some(v) => if 15 <= v && MINS_DAY % v == 0 {
                                proof {
                                    if v > MINS_DAY {
                                        vstd::arithmetic::div_mod::lemma_small_mod(
                                            MINS_DAY as nat,
                                            v as nat,
                                        );
                                    }
                                }
                                mp = v;
                                state = None;
                            } else {
                                return Err(ArgError::Opt(Opt::Period));
                            },
                            None => {
                                return Err(ArgError::Opt(Opt::Period));
                            },
                        },
                        Opt::Standings => match parsed {
                            Some(v) => if 1 <= v && v <= MINS_WEEK {
                                ms = v;
                                state = None;
                            } else {
                                return Err(ArgError::Opt(Opt::Standings));
                            },
                            None => {
                                return Err(ArgError::Opt(Opt::Standings));
                            },
                        },
                        Opt::Heartbeat => match parsed {
                            Some(v) => if 1 <= v && v <= MINS_WEEK {
                                mh = Some(v);
                                state = None;
                            } else {
                                return Err(ArgError::Opt(Opt::Heartbeat));
                            },
                            None => {
                                return Err(ArgError::Opt(Opt::Heartbeat));
                            },
                        },
                        Opt::AllYears => {
                            return Err(ArgError::Opt(Opt::AllYears));
                        },
                    }
                },
            }
            i += 1;
        }
        if let Some(o) = state {
            return Err(ArgError::Opt(o));
        }
        if ms % mp != 0 {
            return Err(ArgError::Opt(Opt::Standings));
        }
        if let Some(h) = mh {
            if h % mp != 0 {
                return Err(ArgError::Opt(Opt::Heartbeat));
            }
        }
        Ok(
            Args {
                all_years: all,
                period: mp * 60,
                standings: ms * 60,
                heartbeat: match mh {
                    Some(h) => Some(h * 60),
                    None => None,
                },
            },
        )
    }
}

} // verus!
