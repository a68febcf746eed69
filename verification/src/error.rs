//! Unified error kind for every failure the library reports.

use vstd::prelude::*;
use crate::config::{key_spec, Var};

verus! {

pub type FestiveResult<T> = Result<T, FestiveError>;

#[derive(Debug, Clone, Copy, PartialEq, Eq, Structural)]
pub enum FestiveError {
    /// A required environment variable is unset.
    Var(Var),
    /// Initialisation failed.
    Init,
    /// A calendar or numeric value could not be constructed.
    Conv,
    /// Checkpoint persistence failed.
    File,
    /// The upstream transport failed.
    Http,
    /// The upstream payload is malformed.
    Parse,
}

/// The text each error kind is described by.
pub open spec fn message_spec(e: FestiveError) -> Seq<char> {
    match e {
        FestiveError::Var(v) => "required environment variable "@ + key_spec(v) + " is unset"@,
        FestiveError::Init => "initialisation error"@,
        FestiveError::Conv => "conversion error"@,
        FestiveError::File => "filesystem error"@,
        FestiveError::Http => "HTTP error"@,
        FestiveError::Parse => "parse error"@,
    }
}

impl FestiveError {
    /// A human-readable description of this error.
    pub fn message(&self) -> (r: String)
        ensures
            r@ == message_spec(*self),
    {
        match self {
            FestiveError::Var(v) => {
                let mut s = String::from_str("required environment variable ");
                s.append(v.key());
                s.append(" is unset");
                s
            },
            FestiveError::Init => String::from_str("initialisation error"),
            FestiveError::Conv => String::from_str("conversion error"),
            FestiveError::File => String::from_str("filesystem error"),
            FestiveError::Http => String::from_str("HTTP error"),
            FestiveError::Parse => String::from_str("parse error"),
        }
    }
}

} // verus!
