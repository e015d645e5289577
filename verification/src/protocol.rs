//! How outcomes of the semaphore service travel over HTTP: the status codes the server answers
//! with and how a client reads them back.
use crate::error::{ThrottleError, error_status};
use vstd::prelude::*;

verus! {

/// Status of the answer to a request for a lock: `200 Ok` if the lock is acquired, `202 Accepted`
/// if it is pending.
pub open spec fn acquire_status_spec(acquired: bool) -> u16 {
    if acquired { 200 } else { 202 }
}

/// Status code the server answers a request for a lock with.
pub fn acquire_status(acquired: bool) -> (code: u16)
    ensures
        code == acquire_status_spec(acquired),
{
    if acquired { 200 } else { 202 }
}

/// How a client reads the status of the answer to a request for a lock: `Some(true)` for acquired,
/// `Some(false)` for pending, `None` for an answer a throttle server does not give.
pub fn acquired_from_status(code: u16) -> (r: Option<bool>)
    ensures
        r == (if code == 200 {
            Some(true)
        } else if code == 202 {
            Some(false)
        } else {
            None::<bool>
        }),
{
    if code == 200 {
        Some(true)
    } else if code == 202 {
        Some(false)
    } else {
        None
    }
}

/// Whether a client reports an answer with this status as an error of the domain, carrying the
/// message of the server: `400 Bad Request` and `409 Conflict`.
pub fn is_domain_error(code: u16) -> (r: bool)
    ensures
        r == (code == 400 || code == 409),
{
    code == 400 || code == 409
}

/// A client reads back whether the lock it asked for is acquired from the status the server
/// answered with.
pub proof fn law_acquire_status_round_trip(acquired: bool)
    ensures
        acquire_status_spec(acquired) == 200 <==> acquired,
        acquire_status_spec(acquired) == 200 || acquire_status_spec(acquired) == 202,
{
}

/// Every error but shrinking a lock reaches a client as an error of the domain.
pub proof fn law_errors_reach_client(e: ThrottleError)
    ensures
        (error_status(e) == 400 || error_status(e) == 409) <==> !(e is ShrinkingLockCount),
{
}

} // verus!
