//! The wall clock, read once at each command's boundary and passed into the
//! verified operations as a plain instant.

use vstd::prelude::*;

use crate::time::{MAX_TS, Timestamp};

verus! {

/// Relies on chrono::Utc::now: the wall clock, as whole seconds since
/// 1970-01-01T00:00:00 UTC. Nothing can be promised of a clock reading.
#[verifier::external_body]
fn now_unix_seconds() -> i64 {
    chrono::Utc::now().timestamp()
}

/// The current instant, pinned into the representable span: a clock reading
/// before 1970 comes back as the span's first instant, one past the year 9999
/// as its last.
pub fn now_timestamp() -> (r: Timestamp)
    ensures
        r.wf(),
{
    let s = now_unix_seconds();
    if s < 0 {
        Timestamp { seconds: 0 }
    } else if s > MAX_TS {
        Timestamp { seconds: MAX_TS }
    } else {
        Timestamp { seconds: s }
    }
}

} // verus!
