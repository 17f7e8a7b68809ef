//! The two record types of the store, and per-session time accounting.

use vstd::prelude::*;

use crate::time::{TimeDelta, Timestamp};

verus! {

/// A client (also called a project): the party a work session is billed to.
///
/// `id` is assigned by the store and is a stable identity; `name` is unique
/// across the store.
#[derive(Clone, Debug, PartialEq, Eq)]
pub struct Client {
    pub id: i32,
    pub name: String,
    pub note: Option<String>,
}

/// One work session. An absent `end_timestamp` means the session is still
/// open (active); at most one session in a store is open at any time.
/// `offset_minutes` is a manual signed correction added to the elapsed time.
#[derive(Clone, Debug, PartialEq, Eq)]
pub struct Session {
    pub id: i32,
    pub client_id: i32,
    pub start_timestamp: Timestamp,
    pub end_timestamp: Option<Timestamp>,
    pub note: Option<String>,
    pub offset_minutes: i32,
}

/// The elapsed time of a session at instant `now`, in seconds: the span from
/// its start to its end (or to `now` while it is still open), plus its manual
/// offset. Negative when a large negative offset outweighs the span.
pub open spec fn spec_duration_seconds(s: Session, now: Timestamp) -> int {
    let end = match s.end_timestamp {
        Some(e) => e.seconds as int,
        None => now.seconds as int,
    };
    end - s.start_timestamp.seconds + 60 * (s.offset_minutes as int)
}

impl Session {
    /// The session's instants lie within the representable span.
    pub open spec fn times_wf(self) -> bool {
        &&& self.start_timestamp.wf()
        &&& match self.end_timestamp {
            Some(e) => e.wf(),
            None => true,
        }
    }

    /// The session is still open: it has not been ended yet.
    pub open spec fn spec_is_open(self) -> bool {
        self.end_timestamp is None
    }

    /// Whether the session is still open.
    pub fn is_open(&self) -> (r: bool)
        ensures
            r == self.spec_is_open(),
    {
        self.end_timestamp.is_none()
    }

    /// Elapsed time at instant `now`: `(end - start) + offset`, where a still
    /// open session ends at `now`. May be negative; callers must not assume
    /// otherwise.
    pub fn get_timedelta(&self, now: Timestamp) -> (r: TimeDelta)
        requires
            self.times_wf(),
            now.wf(),
        ensures
            r.seconds == spec_duration_seconds(*self, now),
    {
        let end: i64 = match &self.end_timestamp {
            Some(e) => e.seconds,
            None => now.seconds,
        };
        let base: i64 = end - self.start_timestamp.seconds;
        let offset: i64 = (self.offset_minutes as i64) * 60;
        TimeDelta { seconds: base + offset }
    }

    /// A copy of this session, equal to it field by field.
    pub fn duplicate(&self) -> (r: Session)
        ensures
            r == *self,
    {
        Session {
            id: self.id,
            client_id: self.client_id,
            start_timestamp: self.start_timestamp,
            end_timestamp: self.end_timestamp,
            note: copy_note(&self.note),
            offset_minutes: self.offset_minutes,
        }
    }
}

impl Client {
    /// A copy of this client, equal to it field by field.
    pub fn duplicate(&self) -> (r: Client)
        ensures
            r == *self,
    {
        Client {
            id: self.id,
            name: self.name.clone(),
            note: copy_note(&self.note),
        }
    }
}

/// A copy of an optional free-text note.
fn copy_note(n: &Option<String>) -> (r: Option<String>)
    ensures
        r == *n,
{
    match n {
        Some(s) => Some(s.clone()),
        None => None,
    }
}

} // verus!
