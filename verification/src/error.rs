//! The error replies of the protocol.

use vstd::prelude::*;

verus! {

/// A failure that the client is told as a single upper-case word.
#[derive(Clone, Copy, Debug, PartialEq, Eq, Structural)]
pub enum Error {
    /// Malformed command line, unknown verb, bad name, integer overflow.
    BadFormat,
    /// The body of a `put` is not followed by `\r\n`.
    ExpectedCrlf,
    /// The body of a `put` is longer than the configured ceiling.
    JobTooBig,
    /// The job does not exist, or is not held by the asking connection.
    NotFound,
    /// `ignore` would leave the watch-set empty.
    NotIgnored,
    /// A reserved job has less than a second of its time-to-run left.
    DeadlineSoon,
    /// A `reserve-with-timeout` elapsed.
    TimedOut,
    /// The server no longer accepts new jobs.
    Draining,
    /// An unexpected condition, such as a name that is not UTF-8.
    InternalError,
}

impl Error {
    /// The word that names the error on the wire.
    pub open spec fn word(self) -> Seq<char> {
        match self {
            Error::BadFormat => "BAD_FORMAT"@,
            Error::ExpectedCrlf => "EXPECTED_CRLF"@,
            Error::JobTooBig => "JOB_TOO_BIG"@,
            Error::NotFound => "NOT_FOUND"@,
            Error::NotIgnored => "NOT_IGNORED"@,
            Error::DeadlineSoon => "DEADLINE_SOON"@,
            Error::TimedOut => "TIMED_OUT"@,
            Error::Draining => "DRAINING"@,
            Error::InternalError => "INTERNAL_ERROR"@,
        }
    }

    /// The error's word as an owned string.
    pub fn to_string(&self) -> (out: String)
        ensures
            out@ == self.word(),
    {
        match self {
            Error::BadFormat => "BAD_FORMAT".to_owned(),
            Error::ExpectedCrlf => "EXPECTED_CRLF".to_owned(),
            Error::JobTooBig => "JOB_TOO_BIG".to_owned(),
            Error::NotFound => "NOT_FOUND".to_owned(),
            Error::NotIgnored => "NOT_IGNORED".to_owned(),
            Error::DeadlineSoon => "DEADLINE_SOON".to_owned(),
            Error::TimedOut => "TIMED_OUT".to_owned(),
            Error::Draining => "DRAINING".to_owned(),
            Error::InternalError => "INTERNAL_ERROR".to_owned(),
        }
    }
}

} // verus!
