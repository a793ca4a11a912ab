//! Three-way classification of a check's status code.

use vstd::prelude::*;

verus! {

/// Status code recorded when a check got no HTTP response at all
/// (connection refused, DNS failure, timeout).
pub const UNREACHABLE: i64 = 0;

/// The category of a recorded status code.
#[derive(Clone, Copy, Debug, PartialEq, Eq, Structural)]
pub enum Status {
    Success,
    Redirect,
    Failure,
}

/// The category of `code`: 2xx is a success, 3xx a redirect, anything else a failure.
pub open spec fn classify_spec(code: int) -> Status {
    if 200 <= code <= 299 {
        Status::Success
    } else if 300 <= code <= 399 {
        Status::Redirect
    } else {
        Status::Failure
    }
}

/// Classifies a status code.
pub fn classify(code: i64) -> (status: Status)
    ensures
        status == classify_spec(code as int),
        status == Status::Success <==> 200 <= code <= 299,
        status == Status::Redirect <==> 300 <= code <= 399,
        status == Status::Failure <==> !(200 <= code <= 399),
{
    if 200 <= code && code <= 299 {
        Status::Success
    } else if 300 <= code && code <= 399 {
        Status::Redirect
    } else {
        Status::Failure
    }
}

} // verus!
