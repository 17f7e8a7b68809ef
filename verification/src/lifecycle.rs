//! The session lifecycle: a state machine over the single logical "active
//! session" slot. `start_session` opens a session when none is open,
//! `end_session` closes the open one and reports its duration,
//! `patch_session` adjusts the open one's manual offset, and
//! `switch_session` ends whatever is open and starts anew.
//!
//! Each operation's whole behaviour is captured by a `..._post` relation
//! between the store before and after the call; the proof functions at the
//! end derive the lifecycle's laws from those relations alone.

use vstd::prelude::*;

use crate::models::Session;
use crate::store::{
    Store, StoreError, client_exists, find_open_session, has_client, has_open_session,
    open_session_index, spec_active_session, store_session,
};
use crate::time::{TimeDelta, Timestamp};

verus! {

/// The session a successful start appends: started at `now`, open, with no
/// manual offset yet.
pub open spec fn new_session(id: i32, client_id: i32, note: Option<String>, now: Timestamp) -> Session {
    Session {
        id,
        client_id,
        start_timestamp: now,
        end_timestamp: None,
        note,
        offset_minutes: 0,
    }
}

/// The same session, closed at `now`.
pub open spec fn close_session(s: Session, now: Timestamp) -> Session {
    Session { end_timestamp: Some(now), ..s }
}

/// The same session, with `minutes` added to its manual offset.
pub open spec fn patch_session_record(s: Session, minutes: i32) -> Session {
    Session { offset_minutes: (s.offset_minutes + minutes) as i32, ..s }
}

/// The session records after the open session, if any, is closed at `now`.
pub open spec fn spec_close_open(ss: Seq<Session>, now: Timestamp) -> Seq<Session> {
    if has_open_session(ss) {
        ss.update(open_session_index(ss), close_session(ss[open_session_index(ss)], now))
    } else {
        ss
    }
}

/// Everything `start_session` guarantees: it fails with `AlreadyActive`
/// exactly when a session is already open — for any client, existing or not —
/// and otherwise, for an existing client, appends a fresh open session
/// started at `now`. On failure the store is untouched.
pub open spec fn start_post(
    s0: Store,
    s1: Store,
    r: Result<i32, StoreError>,
    client_id: i32,
    note: Option<String>,
    now: Timestamp,
) -> bool {
    &&& s1.wf()
    &&& s1.clients@ == s0.clients@
    &&& s1.next_client_id == s0.next_client_id
    &&& (r == Result::<i32, StoreError>::Err(StoreError::AlreadyActive) <==> has_open_session(
        s0.sessions@,
    ))
    &&& match r {
        Err(e) => {
            &&& s1 == s0
            &&& (e == StoreError::AlreadyActive || (e == StoreError::NotFound && !has_client(
                s0.clients@,
                client_id as int,
            )))
        },
        Ok(id) => {
            &&& !has_open_session(s0.sessions@)
            &&& has_client(s0.clients@, client_id as int)
            &&& id == s0.next_session_id
            &&& s1.sessions@ == s0.sessions@.push(new_session(id, client_id, note, now))
            &&& s1.next_session_id == s0.next_session_id + 1
            &&& has_open_session(s1.sessions@)
        },
    }
}

/// Opens a session for `client_id` at `now`. Fails with `AlreadyActive` if
/// any session is open — whatever its client — and with `NotFound` if the
/// client does not exist.
pub fn start_session(
    store: &mut Store,
    client_id: i32,
    note: Option<String>,
    now: Timestamp,
) -> (r: Result<i32, StoreError>)
    requires
        old(store).wf(),
        old(store).next_session_id < 0x7fff_ffff,
        now.wf(),
    ensures
        start_post(*old(store), *final(store), r, client_id, note, now),
{
    if find_open_session(store).is_some() {
        return Err(StoreError::AlreadyActive);
    }
    if !client_exists(store, client_id) {
        return Err(StoreError::NotFound);
    }
    let fresh = Session {
        id: 0,
        client_id,
        start_timestamp: now,
        end_timestamp: None,
        note,
        offset_minutes: 0,
    };
    match store_session(store, &fresh) {
        Ok(id) => {
            proof {
                assert(final(store).sessions@.last() == new_session(id, client_id, note, now));
                assert(final(store).sessions@.last().spec_is_open());
                assert(has_open_session(final(store).sessions@));
            }
            Ok(id)
        },
        Err(e) => {
            proof {
                assert(false);
            }
            Err(e)
        },
    }
}

/// Everything `end_session` guarantees: it fails with `NoActiveSession`
/// exactly when no session is open, and otherwise closes the open session at
/// `now` and reports its duration — `(now - start) + offset`, exactly, for
/// any integer offset. On failure the store is untouched.
pub open spec fn end_post(
    s0: Store,
    s1: Store,
    r: Result<TimeDelta, StoreError>,
    now: Timestamp,
) -> bool {
    &&& s1.wf()
    &&& s1.clients@ == s0.clients@
    &&& s1.next_client_id == s0.next_client_id
    &&& s1.next_session_id == s0.next_session_id
    &&& match r {
        Err(e) => {
            &&& e == StoreError::NoActiveSession
            &&& s1 == s0
            &&& !has_open_session(s0.sessions@)
        },
        Ok(d) => {
            &&& has_open_session(s0.sessions@)
            &&& {
                let idx = open_session_index(s0.sessions@);
                let s = s0.sessions@[idx];
                &&& s1.sessions@ == s0.sessions@.update(idx, close_session(s, now))
                &&& d.seconds == now.seconds - s.start_timestamp.seconds + 60 * (
                s.offset_minutes as int)
            }
        },
    }
}

/// Closes the open session at `now` and returns its duration. Fails with
/// `NoActiveSession` if none is open. The duration can be negative if a large
/// negative offset was patched onto a short session.
pub fn end_session(store: &mut Store, now: Timestamp) -> (r: Result<TimeDelta, StoreError>)
    requires
        old(store).wf(),
        now.wf(),
    ensures
        end_post(*old(store), *final(store), r, now),
{
    let i = match find_open_session(store) {
        Some(i) => i,
        None => {
            return Err(StoreError::NoActiveSession);
        },
    };
    proof {
        assert(has_open_session(store.sessions@));
        assert(open_session_index(store.sessions@) == i as int) by {
            let oi = open_session_index(store.sessions@);
            assert(store.sessions@[oi].spec_is_open());
        }
    }
    let open = store.sessions[i].duplicate();
    let closed = Session {
        id: open.id,
        client_id: open.client_id,
        start_timestamp: open.start_timestamp,
        end_timestamp: Some(now),
        note: open.note,
        offset_minutes: open.offset_minutes,
    };
    let delta = closed.get_timedelta(now);
    store.sessions[i] = closed;
    proof {
        let idx = i as int;
        let s = old(store).sessions@[idx];
        assert(store.sessions@ == old(store).sessions@.update(idx, close_session(s, now)));
        assert(crate::store::at_most_one_open(store.sessions@)) by {
            assert forall|a: int, b: int|
                0 <= a < store.sessions@.len() && 0 <= b < store.sessions@.len()
                    && store.sessions@[a].spec_is_open() && store.sessions@[b].spec_is_open()
                implies a == b by {
                assert(a != idx && store.sessions@[a].spec_is_open() ==> old(
                    store,
                ).sessions@[a].spec_is_open());
                assert(b != idx && store.sessions@[b].spec_is_open() ==> old(
                    store,
                ).sessions@[b].spec_is_open());
            }
        }
        assert(crate::store::session_ids_unique(store.sessions@)) by {
            assert forall|a: int, b: int|
                0 <= a < b < store.sessions@.len() implies store.sessions@[a].id
                != store.sessions@[b].id by {
                assert(old(store).sessions@[a].id != old(store).sessions@[b].id);
            }
        }
        assert(store.wf());
    }
    Ok(delta)
}

/// Everything `patch_session` guarantees: it fails with `NoActiveSession`
/// exactly when no session is open, and otherwise adds `minutes` to the open
/// session's manual offset. On failure the store is untouched.
pub open spec fn patch_post(
    s0: Store,
    s1: Store,
    r: Result<(), StoreError>,
    minutes: i32,
) -> bool {
    &&& s1.wf()
    &&& s1.clients@ == s0.clients@
    &&& s1.next_client_id == s0.next_client_id
    &&& s1.next_session_id == s0.next_session_id
    &&& match r {
        Err(e) => {
            &&& e == StoreError::NoActiveSession
            &&& s1 == s0
            &&& !has_open_session(s0.sessions@)
        },
        Ok(()) => {
            &&& has_open_session(s0.sessions@)
            &&& {
                let idx = open_session_index(s0.sessions@);
                s1.sessions@ == s0.sessions@.update(
                    idx,
                    patch_session_record(s0.sessions@[idx], minutes),
                )
            }
        },
    }
}

/// Adds `minutes` — positive or negative — to the open session's manual
/// offset. Fails with `NoActiveSession` if none is open.
pub fn patch_session(store: &mut Store, minutes: i32) -> (r: Result<(), StoreError>)
    requires
        old(store).wf(),
        match spec_active_session(old(store).sessions@) {
            Some(s) => -0x8000_0000 <= s.offset_minutes + minutes <= 0x7fff_ffff,
            None => true,
        },
    ensures
        patch_post(*old(store), *final(store), r, minutes),
{
    let i = match find_open_session(store) {
        Some(i) => i,
        None => {
            return Err(StoreError::NoActiveSession);
        },
    };
    proof {
        assert(has_open_session(store.sessions@));
        assert(open_session_index(store.sessions@) == i as int) by {
            let oi = open_session_index(store.sessions@);
            assert(store.sessions@[oi].spec_is_open());
        }
    }
    let open = store.sessions[i].duplicate();
    let patched = Session {
        id: open.id,
        client_id: open.client_id,
        start_timestamp: open.start_timestamp,
        end_timestamp: open.end_timestamp,
        note: open.note,
        offset_minutes: open.offset_minutes + minutes,
    };
    store.sessions[i] = patched;
    proof {
        let idx = i as int;
        let s = old(store).sessions@[idx];
        assert(store.sessions@ == old(store).sessions@.update(
            idx,
            patch_session_record(s, minutes),
        ));
        assert(crate::store::at_most_one_open(store.sessions@)) by {
            assert forall|a: int, b: int|
                0 <= a < store.sessions@.len() && 0 <= b < store.sessions@.len()
                    && store.sessions@[a].spec_is_open() && store.sessions@[b].spec_is_open()
                implies a == b by {
                assert(a != idx && store.sessions@[a].spec_is_open() ==> old(
                    store,
                ).sessions@[a].spec_is_open());
                assert(b != idx && store.sessions@[b].spec_is_open() ==> old(
                    store,
                ).sessions@[b].spec_is_open());
                assert(idx < store.sessions@.len() && store.sessions@[idx].spec_is_open());
            }
        }
        assert(crate::store::session_ids_unique(store.sessions@)) by {
            assert forall|a: int, b: int|
                0 <= a < b < store.sessions@.len() implies store.sessions@[a].id
                != store.sessions@[b].id by {
                assert(old(store).sessions@[a].id != old(store).sessions@[b].id);
            }
        }
        assert(store.wf());
    }
    Ok(())
}

/// Everything `switch_session` guarantees: whatever was open is closed at
/// `now`, and a fresh session for `client_id` is started at `now` — or, if
/// that client does not exist, nothing is started and `NotFound` comes back,
/// the closing having still happened.
pub open spec fn switch_post(
    s0: Store,
    s1: Store,
    r: Result<i32, StoreError>,
    client_id: i32,
    note: Option<String>,
    now: Timestamp,
) -> bool {
    &&& s1.wf()
    &&& s1.clients@ == s0.clients@
    &&& s1.next_client_id == s0.next_client_id
    &&& match r {
        Err(e) => {
            &&& e == StoreError::NotFound
            &&& !has_client(s0.clients@, client_id as int)
            &&& s1.sessions@ == spec_close_open(s0.sessions@, now)
            &&& s1.next_session_id == s0.next_session_id
        },
        Ok(id) => {
            &&& has_client(s0.clients@, client_id as int)
            &&& id == s0.next_session_id
            &&& s1.sessions@ == spec_close_open(s0.sessions@, now).push(
                new_session(id, client_id, note, now),
            )
            &&& s1.next_session_id == s0.next_session_id + 1
        },
    }
}

/// Ends whatever session is open — switching with nothing active degrades to
/// a plain start — and starts a session for `client_id` at `now`. Fails with
/// `NotFound`, after the ending, if the client does not exist.
pub fn switch_session(
    store: &mut Store,
    client_id: i32,
    note: Option<String>,
    now: Timestamp,
) -> (r: Result<i32, StoreError>)
    requires
        old(store).wf(),
        old(store).next_session_id < 0x7fff_ffff,
        now.wf(),
    ensures
        switch_post(*old(store), *final(store), r, client_id, note, now),
{
    let ghost s0 = *old(store);
    let _ = end_session(store, now);
    let ghost mid = *store;
    proof {
        assert(mid.sessions@ == spec_close_open(s0.sessions@, now));
        assert(!has_open_session(mid.sessions@)) by {
            if has_open_session(s0.sessions@) {
                let idx = open_session_index(s0.sessions@);
                assert forall|k: int|
                    0 <= k < mid.sessions@.len() implies !(#[trigger] mid.sessions@[k]).spec_is_open() by {
                    if k != idx {
                        assert(mid.sessions@[k] == s0.sessions@[k]);
                        assert(!s0.sessions@[k].spec_is_open());
                    }
                }
            }
        }
    }
    match start_session(store, client_id, note, now) {
        Ok(id) => Ok(id),
        Err(e) => {
            proof {
                assert(e != StoreError::AlreadyActive);
                assert(e == StoreError::NotFound);
            }
            Err(StoreError::NotFound)
        },
    }
}

/// One session at a time: once a start has succeeded, a second start — for
/// any client whatsoever, at any later instant — is refused with
/// `AlreadyActive` and leaves the store untouched.
pub proof fn lemma_second_start_already_active(
    s0: Store,
    s1: Store,
    s2: Store,
    r2: Result<i32, StoreError>,
    id1: i32,
    a: i32,
    note_a: Option<String>,
    t1: Timestamp,
    b: i32,
    note_b: Option<String>,
    t2: Timestamp,
)
    requires
        start_post(s0, s1, Ok(id1), a, note_a, t1),
        start_post(s1, s2, r2, b, note_b, t2),
    ensures
        r2 == Result::<i32, StoreError>::Err(StoreError::AlreadyActive),
        s2 == s1,
{
    assert(has_open_session(s1.sessions@));
}

/// Ending a session that a start opened, at an instant not before its start
/// and with its offset untouched, reports a non-negative duration — exactly
/// the wall-clock span from start to end.
pub proof fn lemma_end_after_start_nonnegative(
    s0: Store,
    s1: Store,
    s2: Store,
    r2: Result<TimeDelta, StoreError>,
    id1: i32,
    c: i32,
    note: Option<String>,
    t1: Timestamp,
    t2: Timestamp,
)
    requires
        start_post(s0, s1, Ok(id1), c, note, t1),
        end_post(s1, s2, r2, t2),
        t1.seconds <= t2.seconds,
    ensures
        r2 is Ok,
        r2->Ok_0.seconds == t2.seconds - t1.seconds,
        r2->Ok_0.seconds >= 0,
{
    assert(has_open_session(s1.sessions@));
    let started = new_session(id1, c, note, t1);
    let n = s1.sessions@.len() - 1;
    assert(s1.sessions@[n] == started);
    let idx = open_session_index(s1.sessions@);
    assert(s1.sessions@[idx].spec_is_open());
    assert(idx == n) by {
        if idx != n {
            assert(s1.sessions@[idx] == s0.sessions@[idx]);
            assert(has_open_session(s0.sessions@));
        }
    }
}

/// Patching the open session by `m` minutes moves the duration that a later
/// end reports by exactly `m` minutes (60·m seconds), compared with ending
/// the unpatched store at the same instant.
pub proof fn lemma_patch_shifts_duration(
    s0: Store,
    sp: Store,
    s1: Store,
    s2: Store,
    m: i32,
    t: Timestamp,
    dp: TimeDelta,
    d0: TimeDelta,
)
    requires
        s0.wf(),
        patch_post(s0, sp, Ok(()), m),
        end_post(sp, s1, Ok(dp), t),
        end_post(s0, s2, Ok(d0), t),
        -0x8000_0000 <= spec_active_session(s0.sessions@)->Some_0.offset_minutes + m
            <= 0x7fff_ffff,
    ensures
        dp.seconds == d0.seconds + 60 * m,
{
    let idx = open_session_index(s0.sessions@);
    assert(s0.sessions@[idx].spec_is_open());
    let patched = patch_session_record(s0.sessions@[idx], m);
    assert(sp.sessions@ == s0.sessions@.update(idx, patched));
    assert(sp.sessions@[idx] == patched);
    assert(patched.spec_is_open());
    assert(has_open_session(sp.sessions@));
    let pidx = open_session_index(sp.sessions@);
    assert(sp.sessions@[pidx].spec_is_open());
    assert(pidx == idx) by {
        if pidx != idx {
            assert(sp.sessions@[pidx] == s0.sessions@[pidx]);
            assert(s0.sessions@[pidx].spec_is_open());
        }
    }
    assert(spec_active_session(s0.sessions@) == Some(s0.sessions@[idx]));
    assert(patched.offset_minutes == s0.sessions@[idx].offset_minutes + m);
    assert(patched.start_timestamp == s0.sessions@[idx].start_timestamp);
    assert(dp.seconds == t.seconds - patched.start_timestamp.seconds + 60 * (
    patched.offset_minutes as int));
    assert(d0.seconds == t.seconds - s0.sessions@[idx].start_timestamp.seconds + 60 * (
    s0.sessions@[idx].offset_minutes as int));
}

} // verus!
