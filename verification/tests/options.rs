//! Command-line options, environment handles, and channel dispatch.

use festive_bot::config::{ArgError, Args, Config, Opt, Var};
use festive_bot::error::FestiveError;
use festive_bot::webhook::{send_disposition, SendStep, Webhook};

fn strings(items: &[&str]) -> Vec<String> {
    items.iter().map(|s| String::from(*s)).collect()
}

#[test]
fn defaults_without_arguments() {
    let a = Args::parse(&Vec::new()).unwrap();
    assert!(!a.all_years);
    assert_eq!(a.period, 3600);
    assert_eq!(a.standings, 86400);
    assert_eq!(a.heartbeat, None);
}

#[test]
fn all_options_parse() {
    let a = Args::parse(&strings(&[
        "--all-years",
        "--period",
        "30",
        "--standings",
        "120",
        "--heartbeat",
        "60",
    ]))
    .unwrap();
    assert!(a.all_years);
    assert_eq!(a.period, 1800);
    assert_eq!(a.standings, 7200);
    assert_eq!(a.heartbeat, Some(3600));
}

#[test]
fn faulty_parameters_name_their_option() {
    // below the quarter-hour minimum
    assert!(matches!(
        Args::parse(&strings(&["--period", "7"])),
        Err(ArgError::Opt(Opt::Period))
    ));
    // does not divide the day evenly
    assert!(matches!(
        Args::parse(&strings(&["--period", "25"])),
        Err(ArgError::Opt(Opt::Period))
    ));
    // over a week
    assert!(matches!(
        Args::parse(&strings(&["--standings", "20000"])),
        Err(ArgError::Opt(Opt::Standings))
    ));
    // not a multiple of the period
    assert!(matches!(
        Args::parse(&strings(&["--period", "60", "--standings", "90"])),
        Err(ArgError::Opt(Opt::Standings))
    ));
    assert!(matches!(
        Args::parse(&strings(&["--heartbeat", "90", "--period", "60"])),
        Err(ArgError::Opt(Opt::Heartbeat))
    ));
    // a dangling option wants its parameter
    assert!(matches!(
        Args::parse(&strings(&["--period"])),
        Err(ArgError::Opt(Opt::Period))
    ));
    // unknown arguments are rejected with their text
    match Args::parse(&strings(&["--bogus"])) {
        Err(ArgError::Unexpected(s)) => assert_eq!(s, "--bogus"),
        _ => panic!("expected an unexpected-argument error"),
    }
}

#[test]
fn usage_strings() {
    assert_eq!(Opt::AllYears.usage(), "[--all-years]");
    assert_eq!(Opt::Period.usage(), "[--period mins]");
    assert_eq!(Opt::Standings.usage(), "[--standings mins]");
    assert_eq!(Opt::Heartbeat.usage(), "[--heartbeat mins]");
    assert_eq!(
        Opt::iter(),
        vec![Opt::AllYears, Opt::Period, Opt::Standings, Opt::Heartbeat]
    );
}

#[test]
fn environment_keys() {
    assert_eq!(Var::Leaderboard.key(), "FESTIVE_BOT_LEADERBOARD");
    assert_eq!(Var::Session.key(), "FESTIVE_BOT_SESSION");
    assert_eq!(Var::Notify.key(), "FESTIVE_BOT_NOTIFY");
    assert_eq!(Var::Status.key(), "FESTIVE_BOT_STATUS");
}

#[test]
fn webhook_urls_come_from_the_configuration() {
    let config = Config {
        leaderboard: String::from("123"),
        session: String::from("SECRET-REDACTED"),
        notify: Some(String::from("https://example.test/notify")),
        status: None,
    };
    assert_eq!(
        Webhook::Notify.url(&config).unwrap(),
        "https://example.test/notify"
    );
    match Webhook::Status.url(&config) {
        Err(FestiveError::Var(Var::Status)) => {},
        _ => panic!("expected the status variable to be reported unset"),
    }
}

#[test]
fn send_dispositions() {
    assert_eq!(send_disposition(200), SendStep::Done);
    assert_eq!(send_disposition(204), SendStep::Done);
    assert_eq!(send_disposition(429), SendStep::Retry);
    assert_eq!(send_disposition(500), SendStep::Fail);
    assert_eq!(send_disposition(404), SendStep::Fail);
}

#[test]
fn non_positive_intervals_are_rejected() {
    assert!(matches!(
        Args::parse(&strings(&["--standings", "0"])),
        Err(ArgError::Opt(Opt::Standings))
    ));
    assert!(matches!(
        Args::parse(&strings(&["--standings", "-60"])),
        Err(ArgError::Opt(Opt::Standings))
    ));
    assert!(matches!(
        Args::parse(&strings(&["--heartbeat", "0"])),
        Err(ArgError::Opt(Opt::Heartbeat))
    ));
}
