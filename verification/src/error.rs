//! Errors of the semaphore service, their messages and the HTTP status codes they are answered
//! with.
use crate::text::{append_signed_decimal, signed_decimal};
use vstd::prelude::*;
use vstd::string::*;

verus! {

/// Enumerates errors which can occur interacting with server state.
#[derive(Debug, Clone, Copy, PartialEq, Eq)]
pub enum ThrottleError {
    UnknownSemaphore,
    UnknownPeer,
    Never { asked: i64, max: i64 },
    Deadlock { current: i32, requested: i32 },
    AlreadyPending,
    InvalidLockCount { count: i64 },
    ChangeThroughRestore,
    ShrinkingLockCount,
}

/// The human readable message of an error.
pub open spec fn error_message(e: ThrottleError) -> Seq<char> {
    match e {
        ThrottleError::UnknownSemaphore => "Unknown semaphore"@,
        ThrottleError::UnknownPeer => "Unknown peer"@,
        ThrottleError::Never { asked, max } => "Lock can never be acquired. Lock asks for count "@
            + signed_decimal(asked as int) + " yet full count is only "@ + signed_decimal(max as int)
            + "."@,
        ThrottleError::Deadlock { current, requested } =>
            "Lock hierachy violation. This may deadlock. The current lock level is "@
            + signed_decimal(current as int) + " the\n        requested lock level was "@
            + signed_decimal(requested as int) + "."@,
        ThrottleError::AlreadyPending => "Already pending. Only one pendig lock per peer is allowed."@,
        ThrottleError::InvalidLockCount { count } => "Lock count must be a positive number. Found: "@
            + signed_decimal(count as int) + "."@,
        ThrottleError::ChangeThroughRestore => "Restore is not allowed to change existing peers."@,
        ThrottleError::ShrinkingLockCount =>
            "Shrinking the count of an existing lock is currently not implemented."@,
    }
}

/// HTTP status code an error is answered with: `400 Bad Request` for requests naming what the
/// service does not know or a count that is not positive, `409 Conflict` for requests that
/// contradict the state of the service, `501 Not Implemented` for shrinking a lock.
pub open spec fn error_status(e: ThrottleError) -> u16 {
    match e {
        ThrottleError::UnknownPeer | ThrottleError::UnknownSemaphore | ThrottleError::InvalidLockCount { .. } => 400,
        ThrottleError::Never { .. } | ThrottleError::Deadlock { .. } | ThrottleError::ChangeThroughRestore
        | ThrottleError::AlreadyPending => 409,
        ThrottleError::ShrinkingLockCount => 501,
    }
}

impl ThrottleError {
    /// The human readable message of the error.
    pub fn message(&self) -> (m: String)
        ensures
            m@ == error_message(*self),
    {
        let mut m = String::new();
        match *self {
            ThrottleError::UnknownSemaphore => {
                m.append("Unknown semaphore");
            },
            ThrottleError::UnknownPeer => {
                m.append("Unknown peer");
            },
            ThrottleError::Never { asked, max } => {
                m.append("Lock can never be acquired. Lock asks for count ");
                append_signed_decimal(&mut m, asked);
                m.append(" yet full count is only ");
                append_signed_decimal(&mut m, max);
                m.append(".");
            },
            ThrottleError::Deadlock { current, requested } => {
                m.append("Lock hierachy violation. This may deadlock. The current lock level is ");
                append_signed_decimal(&mut m, current as i64);
                m.append(" the\n        requested lock level was ");
                append_signed_decimal(&mut m, requested as i64);
                m.append(".");
            },
            ThrottleError::AlreadyPending => {
                m.append("Already pending. Only one pendig lock per peer is allowed.");
            },
            ThrottleError::InvalidLockCount { count } => {
                m.append("Lock count must be a positive number. Found: ");
                append_signed_decimal(&mut m, count);
                m.append(".");
            },
            ThrottleError::ChangeThroughRestore => {
                m.append("Restore is not allowed to change existing peers.");
            },
            ThrottleError::ShrinkingLockCount => {
                m.append("Shrinking the count of an existing lock is currently not implemented.");
            },
        }
        proof {
            assert(m@ =~= error_message(*self));
        }
        m
    }

    /// HTTP status code the error is answered with.
    pub fn status_code(&self) -> (code: u16)
        ensures
            code == error_status(*self),
    {
        match self {
            ThrottleError::UnknownPeer | ThrottleError::UnknownSemaphore | ThrottleError::InvalidLockCount { .. } => 400,
            ThrottleError::Never { .. } | ThrottleError::Deadlock { .. } | ThrottleError::ChangeThroughRestore
            | ThrottleError::AlreadyPending => 409,
            ThrottleError::ShrinkingLockCount => 501,
        }
    }
}

} // verus!
