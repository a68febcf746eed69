//! Handles for the outbound channels and the dispatch decisions the
//! engine makes about them.

use vstd::prelude::*;
use crate::config::{Config, Var};
use crate::error::{FestiveError, FestiveResult};

verus! {

/// Handles for the two outbound channels.
#[derive(Debug, Clone, Copy, PartialEq, Eq, Structural)]
pub enum Webhook {
    /// Puzzle, standings and event announcements.
    Notify,
    /// Lifecycle, heartbeat and error announcements.
    Status,
}

impl Webhook {
    /// This channel's URL from the configuration, or the environment
    /// variable that should have supplied it.
    pub fn url(&self, config: &Config) -> (r: FestiveResult<String>)
        ensures
            *self == Webhook::Notify && config.notify is Some ==> (r matches Ok(u) && u@
                == config.notify->0@),
            *self == Webhook::Status && config.status is Some ==> (r matches Ok(u) && u@
                == config.status->0@),
            *self == Webhook::Notify && config.notify is None ==> r == Err::<String, FestiveError>(
                FestiveError::Var(Var::Notify),
            ),
            *self == Webhook::Status && config.status is None ==> r == Err::<String, FestiveError>(
                FestiveError::Var(Var::Status),
            ),
    {
        match self {
            Webhook::Notify => match &config.notify {
                Some(u) => Ok(u.clone()),
                None => Err(FestiveError::Var(Var::Notify)),
            },
            Webhook::Status => match &config.status {
                Some(u) => Ok(u.clone()),
                None => Err(FestiveError::Var(Var::Status)),
            },
        }
    }
}

/// What the dispatcher does next with an outbound request's status code.
#[derive(Debug, Clone, Copy, PartialEq, Eq, Structural)]
pub enum SendStep {
    /// The request was delivered.
    Done,
    /// The channel is rate limited; wait as told, then retry the
    /// identical request.
    Retry,
    /// The channel failed.
    Fail,
}

/// Classify an outbound response: 200 and 204 deliver, 429 backs off and
/// retries, anything else is fatal.
pub fn send_disposition(status: u16) -> (r: SendStep)
    ensures
        r == SendStep::Done <==> (status == 200 || status == 204),
        r == SendStep::Retry <==> status == 429,
        r == SendStep::Fail <==> !(status == 200 || status == 204 || status == 429),
{
    if status == 200 || status == 204 {
        SendStep::Done
    } else if status == 429 {
        SendStep::Retry
    } else {
        SendStep::Fail
    }
}

} // verus!
