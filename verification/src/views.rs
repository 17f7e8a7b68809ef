//! A session joined with the name of its client, ready for display.

use vstd::prelude::*;

use crate::models::Session;
use crate::store::{Store, StoreError, get_client_by_id, spec_client_by_id};

verus! {

/// A session together with its client's name.
#[derive(Clone, Debug, PartialEq, Eq)]
pub struct SessionView {
    pub session: Session,
    pub client_name: String,
}

impl SessionView {
    /// Joins a session with its client's name; fails with `NotFound` if the
    /// store holds no client under the session's client id.
    pub fn from_session(store: &Store, session: Session) -> (r: Result<SessionView, StoreError>)
        requires
            store.wf(),
        ensures
            match r {
                Ok(v) => {
                    &&& v.session == session
                    &&& spec_client_by_id(store.clients@, session.client_id as int) matches Some(c)
                        && c.name@ == v.client_name@
                },
                Err(e) => e == StoreError::NotFound && spec_client_by_id(
                    store.clients@,
                    session.client_id as int,
                ) is None,
            },
    {
        let client = match get_client_by_id(store, session.client_id) {
            Ok(c) => c,
            Err(e) => {
                return Err(e);
            },
        };
        Ok(SessionView { session, client_name: client.name })
    }
}

} // verus!
