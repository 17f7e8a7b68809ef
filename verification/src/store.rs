//! The entity store: every client and session record, with the store-wide
//! invariants — unique ids, unique client names, referential integrity of
//! sessions, and at most one open session.

use vstd::prelude::*;

use crate::models::{Client, Session};
use crate::time::Timestamp;

verus! {

broadcast use
    vstd::seq_lib::group_seq_lib_default,
    vstd::seq_lib::group_to_multiset_ensures,
    vstd::prelude::Seq::lemma_filter_push,
    vstd::prelude::Seq::lemma_take_succ_push,
    vstd::prelude::Seq::lemma_take_len;


/// Why a store operation was refused. Every variant is an expected,
/// recoverable outcome, not a fault.
#[derive(Clone, Copy, Debug, PartialEq, Eq, Structural)]
pub enum StoreError {
    /// A client with this name already exists.
    AlreadyExists,
    /// No record with the given id (or name) exists.
    NotFound,
    /// The client is still referenced by at least one session.
    ReferencedByForeignRows,
    /// A session is already open, so no second one may be opened.
    AlreadyActive,
    /// No session is open.
    NoActiveSession,
}

/// The whole store: client and session records plus the next free id of each
/// kind, as the backing database would assign them.
pub struct Store {
    pub clients: Vec<Client>,
    pub sessions: Vec<Session>,
    pub next_client_id: i32,
    pub next_session_id: i32,
}

/// No two clients share an id.
pub open spec fn client_ids_unique(cs: Seq<Client>) -> bool {
    forall|i: int, j: int| 0 <= i < j < cs.len() ==> cs[i].id != cs[j].id
}

/// No two clients share a name.
pub open spec fn client_names_unique(cs: Seq<Client>) -> bool {
    forall|i: int, j: int| 0 <= i < j < cs.len() ==> cs[i].name@ != cs[j].name@
}

/// No two sessions share an id.
pub open spec fn session_ids_unique(ss: Seq<Session>) -> bool {
    forall|i: int, j: int| 0 <= i < j < ss.len() ==> ss[i].id != ss[j].id
}

/// At most one session is open.
pub open spec fn at_most_one_open(ss: Seq<Session>) -> bool {
    forall|i: int, j: int|
        0 <= i < ss.len() && 0 <= j < ss.len() && ss[i].spec_is_open() && ss[j].spec_is_open()
            ==> i == j
}

/// Some session is open.
pub open spec fn has_open_session(ss: Seq<Session>) -> bool {
    exists|i: int| 0 <= i < ss.len() && ss[i].spec_is_open()
}

/// A client with this id exists.
pub open spec fn has_client(cs: Seq<Client>, id: int) -> bool {
    exists|i: int| 0 <= i < cs.len() && cs[i].id == id
}

/// The position of the client with this id.
pub open spec fn client_index(cs: Seq<Client>, id: int) -> int {
    choose|i: int| 0 <= i < cs.len() && cs[i].id == id
}

/// A client with this name exists.
pub open spec fn has_client_name(cs: Seq<Client>, name: Seq<char>) -> bool {
    exists|i: int| 0 <= i < cs.len() && cs[i].name@ == name
}

/// The client with this id, if any.
pub open spec fn spec_client_by_id(cs: Seq<Client>, id: int) -> Option<Client> {
    if has_client(cs, id) {
        Some(cs[client_index(cs, id)])
    } else {
        None
    }
}

/// The id of the client with this name, if any.
pub open spec fn spec_client_id_by_name(cs: Seq<Client>, name: Seq<char>) -> Option<i32> {
    if has_client_name(cs, name) {
        Some(cs[choose|i: int| 0 <= i < cs.len() && cs[i].name@ == name].id)
    } else {
        None
    }
}

/// A session with this id exists.
pub open spec fn has_session(ss: Seq<Session>, id: int) -> bool {
    exists|i: int| 0 <= i < ss.len() && ss[i].id == id
}

/// The position of the session with this id.
pub open spec fn session_index(ss: Seq<Session>, id: int) -> int {
    choose|i: int| 0 <= i < ss.len() && ss[i].id == id
}

/// The session with this id, if any.
pub open spec fn spec_session_by_id(ss: Seq<Session>, id: int) -> Option<Session> {
    if has_session(ss, id) {
        Some(ss[session_index(ss, id)])
    } else {
        None
    }
}

/// Some session references this client.
pub open spec fn client_referenced(ss: Seq<Session>, id: int) -> bool {
    exists|i: int| 0 <= i < ss.len() && ss[i].client_id == id
}

/// The position of the open session.
pub open spec fn open_session_index(ss: Seq<Session>) -> int {
    choose|i: int| 0 <= i < ss.len() && ss[i].spec_is_open()
}

/// The open session, if any.
pub open spec fn spec_active_session(ss: Seq<Session>) -> Option<Session> {
    if has_open_session(ss) {
        Some(ss[open_session_index(ss)])
    } else {
        None
    }
}

/// An open session other than the one with this id exists.
pub open spec fn other_open_session(ss: Seq<Session>, id: int) -> bool {
    exists|i: int| 0 <= i < ss.len() && ss[i].spec_is_open() && ss[i].id != id
}

impl Store {
    /// The store-wide invariants: unique ids below the next free ones, unique
    /// client names, every session referencing an existing client with
    /// representable instants, and at most one open session.
    pub open spec fn wf(self) -> bool {
        &&& client_ids_unique(self.clients@)
        &&& client_names_unique(self.clients@)
        &&& session_ids_unique(self.sessions@)
        &&& at_most_one_open(self.sessions@)
        &&& forall|i: int|
            0 <= i < self.clients@.len() ==> 1 <= (#[trigger] self.clients@[i]).id
                < self.next_client_id
        &&& forall|i: int|
            0 <= i < self.sessions@.len() ==> {
                &&& 1 <= (#[trigger] self.sessions@[i]).id < self.next_session_id
                &&& has_client(self.clients@, self.sessions@[i].client_id as int)
                &&& self.sessions@[i].times_wf()
            }
        &&& 1 <= self.next_client_id
        &&& 1 <= self.next_session_id
    }

    /// A fresh, empty store.
    pub fn new() -> (r: Store)
        ensures
            r.wf(),
            r.clients@ == Seq::<Client>::empty(),
            r.sessions@ == Seq::<Session>::empty(),
            r.next_client_id == 1,
            r.next_session_id == 1,
    {
        Store { clients: Vec::new(), sessions: Vec::new(), next_client_id: 1, next_session_id: 1 }
    }
}

/// Inserts a new client. A duplicate name is a no-op, not an error: the store
/// is unchanged and no id is allocated. Otherwise the client is appended with
/// the next free id, which is returned.
pub fn store_client(store: &mut Store, client: &Client) -> (r: Option<i32>)
    requires
        old(store).wf(),
        old(store).next_client_id < 0x7fff_ffff,
    ensures
        final(store).wf(),
        final(store).sessions@ == old(store).sessions@,
        final(store).next_session_id == old(store).next_session_id,
        match r {
            None => {
                &&& has_client_name(old(store).clients@, client.name@)
                &&& final(store).clients@ == old(store).clients@
                &&& final(store).next_client_id == old(store).next_client_id
            },
            Some(id) => {
                &&& !has_client_name(old(store).clients@, client.name@)
                &&& id == old(store).next_client_id
                &&& final(store).clients@ == old(store).clients@.push(
                    Client { id, name: client.name, note: client.note },
                )
                &&& final(store).next_client_id == old(store).next_client_id + 1
            },
        },
{
    let n = store.clients.len();
    let mut i: usize = 0;
    while i < n
        invariant
            *store == *old(store),
            old(store).wf(),
            n == store.clients@.len(),
            0 <= i <= n,
            forall|k: int| 0 <= k < i ==> store.clients@[k].name@ != client.name@,
        decreases n - i,
    {
        if store.clients[i].name == client.name {
            proof {
                assert(has_client_name(store.clients@, client.name@));
            }
            return None;
        }
        i += 1;
    }
    let id = store.next_client_id;
    let fresh = Client { id, name: client.name.clone(), note: copy_opt_string(&client.note) };
    let ghost cs = store.clients@;
    store.clients.push(fresh);
    store.next_client_id = id + 1;
    proof {
        assert(store.clients@ == cs.push(Client { id, name: client.name, note: client.note }));
        assert forall|k: int|
            0 <= k < store.sessions@.len() implies has_client(
            store.clients@,
            (#[trigger] store.sessions@[k]).client_id as int,
        ) by {
            lemma_push_preserves_has_client(
                cs,
                Client { id, name: client.name, note: client.note },
                store.sessions@[k].client_id as int,
            );
        }
        assert(store.wf());
    }
    Some(id)
}

/// Appending a client leaves every already-present client id present.
proof fn lemma_push_preserves_has_client(cs: Seq<Client>, x: Client, id: int)
    requires
        has_client(cs, id),
    ensures
        has_client(cs.push(x), id),
{
    let i = choose|i: int| 0 <= i < cs.len() && cs[i].id == id;
    assert(cs.push(x)[i].id == id);
}

/// Dropping the client at `at` leaves every other client id present.
proof fn lemma_remove_preserves_has_client(cs: Seq<Client>, at: int, id: int)
    requires
        0 <= at < cs.len(),
        has_client(cs, id),
        cs[at].id != id,
    ensures
        has_client(cs.remove(at), id),
{
    let i = choose|i: int| 0 <= i < cs.len() && cs[i].id == id;
    if i < at {
        assert(cs.remove(at)[i].id == id);
    } else {
        assert(cs.remove(at)[i - 1].id == id);
    }
}

/// The client with this id, or `NotFound`.
pub fn get_client_by_id(store: &Store, id: i32) -> (r: Result<Client, StoreError>)
    requires
        store.wf(),
    ensures
        match r {
            Ok(c) => spec_client_by_id(store.clients@, id as int) == Some(c),
            Err(e) => e == StoreError::NotFound && spec_client_by_id(store.clients@, id as int)
                is None,
        },
{
    let n = store.clients.len();
    let mut i: usize = 0;
    while i < n
        invariant
            store.wf(),
            n == store.clients@.len(),
            0 <= i <= n,
            forall|k: int| 0 <= k < i ==> store.clients@[k].id != id,
        decreases n - i,
    {
        if store.clients[i].id == id {
            return Ok(store.clients[i].duplicate());
        }
        i += 1;
    }
    Err(StoreError::NotFound)
}

/// The id of the client with this name, if any.
pub fn get_client_id_by_name(store: &Store, name: String) -> (r: Option<i32>)
    requires
        store.wf(),
    ensures
        r == spec_client_id_by_name(store.clients@, name@),
{
    let n = store.clients.len();
    let mut i: usize = 0;
    while i < n
        invariant
            store.wf(),
            n == store.clients@.len(),
            0 <= i <= n,
            forall|k: int| 0 <= k < i ==> store.clients@[k].name@ != name@,
        decreases n - i,
    {
        if store.clients[i].name == name {
            return Some(store.clients[i].id);
        }
        i += 1;
    }
    None
}

/// Removes the client with this id. Fails with `ReferencedByForeignRows`,
/// leaving every record intact, while any session still references it; fails
/// with `NotFound` if no such client exists.
pub fn remove_client(store: &mut Store, id: i32) -> (r: Result<(), StoreError>)
    requires
        old(store).wf(),
    ensures
        final(store).wf(),
        final(store).sessions@ == old(store).sessions@,
        final(store).next_client_id == old(store).next_client_id,
        final(store).next_session_id == old(store).next_session_id,
        match r {
            Ok(()) => {
                &&& has_client(old(store).clients@, id as int)
                &&& !client_referenced(old(store).sessions@, id as int)
                &&& final(store).clients@ == old(store).clients@.remove(
                    client_index(old(store).clients@, id as int),
                )
            },
            Err(e) => final(store).clients@ == old(store).clients@ && ((e == StoreError::NotFound
                && !has_client(old(store).clients@, id as int)) || (e
                == StoreError::ReferencedByForeignRows && has_client(old(store).clients@, id as int)
                && client_referenced(old(store).sessions@, id as int))),
        },
{
    let cn = store.clients.len();
    let mut i: usize = 0;
    let mut found: bool = false;
    let mut at: usize = 0;
    while i < cn
        invariant
            store.wf(),
            cn == store.clients@.len(),
            0 <= i <= cn,
            !found ==> forall|k: int| 0 <= k < i ==> store.clients@[k].id != id,
            found ==> at < i && store.clients@[at as int].id == id,
        decreases cn - i,
    {
        if store.clients[i].id == id {
            found = true;
            at = i;
        }
        i += 1;
    }
    if !found {
        return Err(StoreError::NotFound);
    }
    let sn = store.sessions.len();
    let mut j: usize = 0;
    while j < sn
        invariant
            store.wf(),
            sn == store.sessions@.len(),
            0 <= j <= sn,
            forall|k: int| 0 <= k < j ==> store.sessions@[k].client_id != id,
        decreases sn - j,
    {
        if store.sessions[j].client_id == id {
            return Err(StoreError::ReferencedByForeignRows);
        }
        j += 1;
    }
    proof {
        assert(store.clients@[at as int].id == id);
        assert(has_client(store.clients@, id as int));
        assert(client_index(store.clients@, id as int) == at as int) by {
            let ci = client_index(store.clients@, id as int);
            assert(store.clients@[ci].id == id);
        }
    }
    let ghost cs = store.clients@;
    store.clients.remove(at);
    proof {
        assert forall|k: int|
            0 <= k < store.sessions@.len() implies has_client(
            store.clients@,
            (#[trigger] store.sessions@[k]).client_id as int,
        ) by {
            assert(store.sessions@[k].client_id != id);
            lemma_remove_preserves_has_client(
                cs,
                at as int,
                store.sessions@[k].client_id as int,
            );
        }
        assert(store.wf());
    }
    Ok(())
}

/// Every client, in insertion order.
pub fn list_clients(store: &Store) -> (r: Vec<Client>)
    requires
        store.wf(),
    ensures
        r@ == store.clients@,
{
    let n = store.clients.len();
    let mut out: Vec<Client> = Vec::new();
    let mut i: usize = 0;
    while i < n
        invariant
            n == store.clients@.len(),
            0 <= i <= n,
            out@ == store.clients@.take(i as int),
        decreases n - i,
    {
        out.push(store.clients[i].duplicate());
        proof {
            assert(out@ == store.clients@.take(i + 1 as int)) by {
                assert(store.clients@.take(i + 1 as int) == store.clients@.take(i as int).push(
                    store.clients@[i as int],
                ));
            }
        }
        i += 1;
    }
    proof {
        assert(store.clients@.take(n as int) == store.clients@);
    }
    out
}

/// Inserts a session with the next free id; the id of the given record is
/// ignored, as the backing database would assign its own. Fails with
/// `NotFound` if the referenced client does not exist, and with
/// `AlreadyActive` if the record is open while another open session exists:
/// both would break the store's invariants.
pub fn store_session(store: &mut Store, session: &Session) -> (r: Result<i32, StoreError>)
    requires
        old(store).wf(),
        old(store).next_session_id < 0x7fff_ffff,
        session.times_wf(),
    ensures
        final(store).wf(),
        final(store).clients@ == old(store).clients@,
        final(store).next_client_id == old(store).next_client_id,
        match r {
            Ok(id) => {
                &&& has_client(old(store).clients@, session.client_id as int)
                &&& session.spec_is_open() ==> !has_open_session(old(store).sessions@)
                &&& id == old(store).next_session_id
                &&& final(store).sessions@ == old(store).sessions@.push(
                    Session {
                        id,
                        client_id: session.client_id,
                        start_timestamp: session.start_timestamp,
                        end_timestamp: session.end_timestamp,
                        note: session.note,
                        offset_minutes: session.offset_minutes,
                    },
                )
                &&& final(store).next_session_id == old(store).next_session_id + 1
            },
            Err(e) => *final(store) == *old(store) && ((e == StoreError::NotFound && !has_client(
                old(store).clients@,
                session.client_id as int,
            )) || (e == StoreError::AlreadyActive && has_client(
                old(store).clients@,
                session.client_id as int,
            ) && session.spec_is_open() && has_open_session(old(store).sessions@))),
        },
{
    if !client_exists(store, session.client_id) {
        return Err(StoreError::NotFound);
    }
    if session.end_timestamp.is_none() && find_open_session(store).is_some() {
        return Err(StoreError::AlreadyActive);
    }
    let id = store.next_session_id;
    let fresh = Session {
        id,
        client_id: session.client_id,
        start_timestamp: session.start_timestamp,
        end_timestamp: session.end_timestamp,
        note: copy_opt_string(&session.note),
        offset_minutes: session.offset_minutes,
    };
    let ghost ss = store.sessions@;
    let ghost fresh_v = Session {
        id,
        client_id: session.client_id,
        start_timestamp: session.start_timestamp,
        end_timestamp: session.end_timestamp,
        note: session.note,
        offset_minutes: session.offset_minutes,
    };
    store.sessions.push(fresh);
    store.next_session_id = id + 1;
    proof {
        assert(store.sessions@ == ss.push(fresh_v));
        assert(at_most_one_open(store.sessions@)) by {
            if fresh_v.spec_is_open() {
                assert(!has_open_session(ss));
            }
        }
        assert(store.wf());
    }
    Ok(id)
}

/// Whether a client with this id exists.
pub(crate) fn client_exists(store: &Store, id: i32) -> (r: bool)
    requires
        store.wf(),
    ensures
        r == has_client(store.clients@, id as int),
{
    let n = store.clients.len();
    let mut i: usize = 0;
    while i < n
        invariant
            n == store.clients@.len(),
            0 <= i <= n,
            forall|k: int| 0 <= k < i ==> store.clients@[k].id != id,
        decreases n - i,
    {
        if store.clients[i].id == id {
            return true;
        }
        i += 1;
    }
    false
}

/// The position of the session with this id, if any.
fn find_session_index(store: &Store, id: i32) -> (r: Option<usize>)
    requires
        store.wf(),
    ensures
        match r {
            Some(i) => i < store.sessions@.len() && store.sessions@[i as int].id == id,
            None => !has_session(store.sessions@, id as int),
        },
{
    let n = store.sessions.len();
    let mut i: usize = 0;
    while i < n
        invariant
            n == store.sessions@.len(),
            0 <= i <= n,
            forall|k: int| 0 <= k < i ==> store.sessions@[k].id != id,
        decreases n - i,
    {
        if store.sessions[i].id == id {
            return Some(i);
        }
        i += 1;
    }
    None
}

/// The position of the open session, if any.
pub(crate) fn find_open_session(store: &Store) -> (r: Option<usize>)
    requires
        store.wf(),
    ensures
        match r {
            Some(i) => i < store.sessions@.len() && store.sessions@[i as int].spec_is_open(),
            None => !has_open_session(store.sessions@),
        },
{
    let n = store.sessions.len();
    let mut i: usize = 0;
    while i < n
        invariant
            n == store.sessions@.len(),
            0 <= i <= n,
            forall|k: int| 0 <= k < i ==> !store.sessions@[k].spec_is_open(),
        decreases n - i,
    {
        if store.sessions[i].end_timestamp.is_none() {
            return Some(i);
        }
        i += 1;
    }
    None
}

/// The session with this id, or `NotFound`.
pub fn get_session_by_id(store: &Store, id: i32) -> (r: Result<Session, StoreError>)
    requires
        store.wf(),
    ensures
        match r {
            Ok(s) => spec_session_by_id(store.sessions@, id as int) == Some(s),
            Err(e) => e == StoreError::NotFound && spec_session_by_id(store.sessions@, id as int)
                is None,
        },
{
    let n = store.sessions.len();
    let mut i: usize = 0;
    while i < n
        invariant
            store.wf(),
            n == store.sessions@.len(),
            0 <= i <= n,
            forall|k: int| 0 <= k < i ==> store.sessions@[k].id != id,
        decreases n - i,
    {
        if store.sessions[i].id == id {
            return Ok(store.sessions[i].duplicate());
        }
        i += 1;
    }
    Err(StoreError::NotFound)
}

/// Removes the session with this id; removing an absent id changes nothing.
pub fn remove_session(store: &mut Store, id: i32)
    requires
        old(store).wf(),
    ensures
        final(store).wf(),
        final(store).clients@ == old(store).clients@,
        final(store).next_client_id == old(store).next_client_id,
        final(store).next_session_id == old(store).next_session_id,
        has_session(old(store).sessions@, id as int) ==> final(store).sessions@ == old(
            store,
        ).sessions@.remove(session_index(old(store).sessions@, id as int)),
        !has_session(old(store).sessions@, id as int) ==> final(store).sessions@ == old(
            store,
        ).sessions@,
{
    let n = store.sessions.len();
    let mut i: usize = 0;
    while i < n
        invariant
            *store == *old(store),
            old(store).wf(),
            n == store.sessions@.len(),
            0 <= i <= n,
            forall|k: int| 0 <= k < i ==> store.sessions@[k].id != id,
        decreases n - i,
    {
        if store.sessions[i].id == id {
            proof {
                assert(has_session(store.sessions@, id as int));
                assert(session_index(store.sessions@, id as int) == i as int) by {
                    let si = session_index(store.sessions@, id as int);
                    assert(store.sessions@[si].id == id);
                }
            }
            store.sessions.remove(i);
            return ;
        }
        i += 1;
    }
}

/// The open session, if any: the unique record with no end instant.
pub fn get_active_session(store: &Store) -> (r: Option<Session>)
    requires
        store.wf(),
    ensures
        r == spec_active_session(store.sessions@),
{
    match find_open_session(store) {
        Some(i) => {
            proof {
                assert(has_open_session(store.sessions@));
                assert(open_session_index(store.sessions@) == i as int) by {
                    let oi = open_session_index(store.sessions@);
                    assert(store.sessions@[oi].spec_is_open());
                }
            }
            Some(store.sessions[i].duplicate())
        },
        None => None,
    }
}

/// Replaces the whole session record whose id matches; an absent id changes
/// nothing. Fails with `NotFound` if the new record references a missing
/// client, and with `AlreadyActive` if it is open while a different open
/// session exists: both would break the store's invariants.
pub fn commit_session_changes(store: &mut Store, session: &Session) -> (r: Result<
    (),
    StoreError,
>)
    requires
        old(store).wf(),
        session.times_wf(),
    ensures
        final(store).wf(),
        final(store).clients@ == old(store).clients@,
        final(store).next_client_id == old(store).next_client_id,
        final(store).next_session_id == old(store).next_session_id,
        !has_session(old(store).sessions@, session.id as int) ==> r is Ok && *final(store) == *old(store),
        has_session(old(store).sessions@, session.id as int) && !has_client(
            old(store).clients@,
            session.client_id as int,
        ) ==> r == Result::<(), StoreError>::Err(StoreError::NotFound) && *final(store) == *old(store),
        has_session(old(store).sessions@, session.id as int) && has_client(
            old(store).clients@,
            session.client_id as int,
        ) && session.spec_is_open() && other_open_session(old(store).sessions@, session.id as int)
            ==> r == Result::<(), StoreError>::Err(StoreError::AlreadyActive) && *final(store)
            == *old(store),
        has_session(old(store).sessions@, session.id as int) && has_client(
            old(store).clients@,
            session.client_id as int,
        ) && (session.spec_is_open() ==> !other_open_session(
            old(store).sessions@,
            session.id as int,
        )) ==> r is Ok && final(store).sessions@ == old(store).sessions@.update(
            session_index(old(store).sessions@, session.id as int),
            *session,
        ),
{
    let i = match find_session_index(store, session.id) {
        Some(i) => i,
        None => {
            return Ok(());
        },
    };
    proof {
        assert(has_session(store.sessions@, session.id as int));
        assert(session_index(store.sessions@, session.id as int) == i as int) by {
            let si = session_index(store.sessions@, session.id as int);
            assert(store.sessions@[si].id == session.id);
        }
    }
    if !client_exists(store, session.client_id) {
        return Err(StoreError::NotFound);
    }
    if session.end_timestamp.is_none() {
        let m = store.sessions.len();
        let mut j: usize = 0;
        while j < m
            invariant
                *store == *old(store),
                old(store).wf(),
                has_session(store.sessions@, session.id as int),
                has_client(store.clients@, session.client_id as int),
                session.spec_is_open(),
                m == store.sessions@.len(),
                0 <= j <= m,
                forall|k: int|
                    0 <= k < j ==> !(store.sessions@[k].spec_is_open() && store.sessions@[k].id
                        != session.id),
            decreases m - j,
        {
            if store.sessions[j].end_timestamp.is_none() && store.sessions[j].id != session.id {
                proof {
                    assert(other_open_session(store.sessions@, session.id as int));
                }
                return Err(StoreError::AlreadyActive);
            }
            j += 1;
        }
        proof {
            assert(!other_open_session(store.sessions@, session.id as int));
        }
    }
    let replacement = session.duplicate();
    store.sessions[i] = replacement;
    proof {
        assert(store.sessions@ == old(store).sessions@.update(i as int, *session));
        assert(at_most_one_open(store.sessions@)) by {
            assert forall|a: int, b: int|
                0 <= a < store.sessions@.len() && 0 <= b < store.sessions@.len()
                    && store.sessions@[a].spec_is_open() && store.sessions@[b].spec_is_open()
                implies a == b by {
                if session.spec_is_open() {
                    if a != i as int && store.sessions@[a].spec_is_open() {
                        assert(old(store).sessions@[a].spec_is_open());
                        assert(old(store).sessions@[a].id != session.id);
                    }
                    if b != i as int && store.sessions@[b].spec_is_open() {
                        assert(old(store).sessions@[b].spec_is_open());
                        assert(old(store).sessions@[b].id != session.id);
                    }
                }
            }
        }
        assert(session_ids_unique(store.sessions@)) by {
            assert(old(store).sessions@[i as int].id == session.id);
            assert forall|a: int, b: int|
                0 <= a < b < store.sessions@.len() implies store.sessions@[a].id
                != store.sessions@[b].id by {
                assert(old(store).sessions@[a].id != old(store).sessions@[b].id);
            }
        }
        assert(store.wf());
    }
    Ok(())
}

/// A copy of an optional string.
fn copy_opt_string(n: &Option<String>) -> (r: Option<String>)
    ensures
        r == *n,
{
    match n {
        Some(s) => Some(s.clone()),
        None => None,
    }
}

/// Replaces the whole client record whose id matches; an absent id changes
/// nothing. Fails with `AlreadyExists` if the new name is already another
/// client's name.
pub fn commit_client_changes(store: &mut Store, client: &Client) -> (r: Result<(), StoreError>)
    requires
        old(store).wf(),
    ensures
        final(store).wf(),
        final(store).sessions@ == old(store).sessions@,
        final(store).next_client_id == old(store).next_client_id,
        final(store).next_session_id == old(store).next_session_id,
        !has_client(old(store).clients@, client.id as int) ==> r is Ok && *final(store) == *old(
            store,
        ),
        has_client(old(store).clients@, client.id as int) && other_client_named(
            old(store).clients@,
            client.name@,
            client.id as int,
        ) ==> r == Result::<(), StoreError>::Err(StoreError::AlreadyExists) && *final(store)
            == *old(store),
        has_client(old(store).clients@, client.id as int) && !other_client_named(
            old(store).clients@,
            client.name@,
            client.id as int,
        ) ==> r is Ok && final(store).clients@ == old(store).clients@.update(
            client_index(old(store).clients@, client.id as int),
            *client,
        ),
{
    let n = store.clients.len();
    let mut i: usize = 0;
    let mut found: bool = false;
    let mut at: usize = 0;
    while i < n
        invariant
            *store == *old(store),
            old(store).wf(),
            n == store.clients@.len(),
            0 <= i <= n,
            !found ==> forall|k: int| 0 <= k < i ==> store.clients@[k].id != client.id,
            found ==> at < i && store.clients@[at as int].id == client.id,
        decreases n - i,
    {
        if store.clients[i].id == client.id {
            found = true;
            at = i;
        }
        i += 1;
    }
    if !found {
        return Ok(());
    }
    proof {
        assert(has_client(store.clients@, client.id as int));
        assert(client_index(store.clients@, client.id as int) == at as int) by {
            let ci = client_index(store.clients@, client.id as int);
            assert(store.clients@[ci].id == client.id);
        }
    }
    let mut j: usize = 0;
    while j < n
        invariant
            *store == *old(store),
            old(store).wf(),
            has_client(store.clients@, client.id as int),
            n == store.clients@.len(),
            0 <= j <= n,
            forall|k: int|
                0 <= k < j ==> !(store.clients@[k].name@ == client.name@ && store.clients@[k].id
                    != client.id),
        decreases n - j,
    {
        if store.clients[j].name == client.name && store.clients[j].id != client.id {
            proof {
                assert(other_client_named(store.clients@, client.name@, client.id as int));
            }
            return Err(StoreError::AlreadyExists);
        }
        j += 1;
    }
    proof {
        assert(!other_client_named(store.clients@, client.name@, client.id as int));
    }
    let replacement = client.duplicate();
    store.clients[at] = replacement;
    proof {
        assert(store.clients@ == old(store).clients@.update(at as int, *client));
        assert(old(store).clients@[at as int].id == client.id);
        assert(client_ids_unique(store.clients@)) by {
            assert forall|a: int, b: int|
                0 <= a < b < store.clients@.len() implies store.clients@[a].id
                != store.clients@[b].id by {
                assert(old(store).clients@[a].id != old(store).clients@[b].id);
            }
        }
        assert(client_names_unique(store.clients@)) by {
            assert forall|a: int, b: int|
                0 <= a < b < store.clients@.len() implies store.clients@[a].name@
                != store.clients@[b].name@ by {
                assert(old(store).clients@[a].name@ != old(store).clients@[b].name@);
                if a == at as int {
                    assert(old(store).clients@[b].id != client.id);
                }
                if b == at as int {
                    assert(old(store).clients@[a].id != client.id);
                }
            }
        }
        assert forall|k: int|
            0 <= k < store.sessions@.len() implies has_client(
            store.clients@,
            (#[trigger] store.sessions@[k]).client_id as int,
        ) by {
            let cid = store.sessions@[k].client_id as int;
            assert(has_client(old(store).clients@, cid));
            let w = choose|w: int|
                0 <= w < old(store).clients@.len() && old(store).clients@[w].id == cid;
            if w == at as int {
                assert(store.clients@[w].id == cid);
            } else {
                assert(store.clients@[w].id == cid);
            }
        }
        assert(store.wf());
    }
    Ok(())
}

/// A client other than the one with this id bears this name.
pub open spec fn other_client_named(cs: Seq<Client>, name: Seq<char>, id: int) -> bool {
    exists|i: int| 0 <= i < cs.len() && cs[i].name@ == name && cs[i].id != id
}

/// Whether a session belongs to the optionally-given client (no filter when
/// none is given).
pub open spec fn matches_client(s: Session, cid: Option<i32>) -> bool {
    match cid {
        Some(c) => s.client_id == c,
        None => true,
    }
}

/// The sessions of the optionally-given client, in store order.
pub open spec fn sessions_of_client(ss: Seq<Session>, cid: Option<i32>) -> Seq<Session> {
    ss.filter(|s: Session| matches_client(s, cid))
}

/// The session starts inside the window `[lo, hi]` (inclusive at both ends).
pub open spec fn in_window(s: Session, lo: Timestamp, hi: Timestamp) -> bool {
    lo.seconds <= s.start_timestamp.seconds <= hi.seconds
}

/// The sessions starting inside the window, in store order.
pub open spec fn sessions_in_window(ss: Seq<Session>, lo: Timestamp, hi: Timestamp) -> Seq<
    Session,
> {
    ss.filter(|s: Session| in_window(s, lo, hi))
}

/// Start instants never decrease along the sequence.
pub open spec fn sorted_asc_by_start(ss: Seq<Session>) -> bool {
    forall|i: int, j: int|
        0 <= i < j < ss.len() ==> ss[i].start_timestamp.seconds <= ss[j].start_timestamp.seconds
}

/// Start instants never increase along the sequence.
pub open spec fn sorted_desc_by_start(ss: Seq<Session>) -> bool {
    forall|i: int, j: int|
        0 <= i < j < ss.len() ==> ss[i].start_timestamp.seconds >= ss[j].start_timestamp.seconds
}

/// Inserts a session into a sequence kept ascending by start instant.
fn sorted_insert_asc(out: &mut Vec<Session>, x: Session)
    requires
        sorted_asc_by_start(old(out)@),
    ensures
        sorted_asc_by_start(final(out)@),
        final(out)@.to_multiset() == old(out)@.to_multiset().insert(x),
        final(out)@.len() == old(out)@.len() + 1,
{
    let pos = find_pos_after_asc(out, x.start_timestamp.seconds);
    let ghost before = out@;
    let ghost p = pos as int;
    out.insert(pos, x);
    proof {
        before.insert_ensures(p, x);
        assert forall|i: int, j: int|
            0 <= i < j < out@.len() implies out@[i].start_timestamp.seconds
            <= out@[j].start_timestamp.seconds by {
            if i < p && j < p {
            } else if i < p && j == p {
            } else if i < p && j > p {
                assert(out@[j] == before[j - 1]);
            } else if i == p {
                assert(out@[j] == before[j - 1]);
                assert(before[p].start_timestamp.seconds <= before[j - 1].start_timestamp.seconds);
            } else {
                assert(out@[i] == before[i - 1]);
                assert(out@[j] == before[j - 1]);
            }
        }
    }
}

/// In an ascending sequence, the first position whose start instant exceeds
/// the key (or the length, if none does).
fn find_pos_after_asc(out: &Vec<Session>, key: i64) -> (pos: usize)
    requires
        sorted_asc_by_start(out@),
    ensures
        pos <= out@.len(),
        forall|k: int| 0 <= k < pos ==> out@[k].start_timestamp.seconds <= key,
        pos < out@.len() ==> out@[pos as int].start_timestamp.seconds > key,
{
    let n = out.len();
    let mut pos: usize = 0;
    while pos < n
        invariant
            n == out@.len(),
            0 <= pos <= n,
            forall|k: int| 0 <= k < pos ==> out@[k].start_timestamp.seconds <= key,
        decreases n - pos,
    {
        if out[pos].start_timestamp.seconds > key {
            return pos;
        }
        pos += 1;
    }
    pos
}

/// Inserts a session into a sequence kept descending by start instant.
fn sorted_insert_desc(out: &mut Vec<Session>, x: Session)
    requires
        sorted_desc_by_start(old(out)@),
    ensures
        sorted_desc_by_start(final(out)@),
        final(out)@.to_multiset() == old(out)@.to_multiset().insert(x),
        final(out)@.len() == old(out)@.len() + 1,
{
    let pos = find_pos_after_desc(out, x.start_timestamp.seconds);
    let ghost before = out@;
    let ghost p = pos as int;
    out.insert(pos, x);
    proof {
        before.insert_ensures(p, x);
        assert forall|i: int, j: int|
            0 <= i < j < out@.len() implies out@[i].start_timestamp.seconds
            >= out@[j].start_timestamp.seconds by {
            if i < p && j < p {
            } else if i < p && j == p {
            } else if i < p && j > p {
                assert(out@[j] == before[j - 1]);
            } else if i == p {
                assert(out@[j] == before[j - 1]);
                assert(before[p].start_timestamp.seconds >= before[j - 1].start_timestamp.seconds);
            } else {
                assert(out@[i] == before[i - 1]);
                assert(out@[j] == before[j - 1]);
            }
        }
    }
}

/// In a descending sequence, the first position whose start instant falls
/// below the key (or the length, if none does).
fn find_pos_after_desc(out: &Vec<Session>, key: i64) -> (pos: usize)
    requires
        sorted_desc_by_start(out@),
    ensures
        pos <= out@.len(),
        forall|k: int| 0 <= k < pos ==> out@[k].start_timestamp.seconds >= key,
        pos < out@.len() ==> out@[pos as int].start_timestamp.seconds < key,
{
    let n = out.len();
    let mut pos: usize = 0;
    while pos < n
        invariant
            n == out@.len(),
            0 <= pos <= n,
            forall|k: int| 0 <= k < pos ==> out@[k].start_timestamp.seconds >= key,
        decreases n - pos,
    {
        if out[pos].start_timestamp.seconds < key {
            return pos;
        }
        pos += 1;
    }
    pos
}

/// Every session — of one client when an id is given, of all clients when
/// none is — ordered by start instant, newest first.
pub fn list_sessions(store: &Store, client_id: Option<i32>) -> (r: Vec<Session>)
    requires
        store.wf(),
    ensures
        r@.to_multiset() == sessions_of_client(store.sessions@, client_id).to_multiset(),
        sorted_desc_by_start(r@),
{
    let n = store.sessions.len();
    let mut out: Vec<Session> = Vec::new();
    let mut i: usize = 0;
    proof {
        assert(store.sessions@.take(0).filter(|s: Session| matches_client(s, client_id))
            =~= Seq::<Session>::empty());
        assert(out@.to_multiset() =~= Seq::<Session>::empty().to_multiset());
    }
    while i < n
        invariant
            store.wf(),
            n == store.sessions@.len(),
            0 <= i <= n,
            sorted_desc_by_start(out@),
            out@.to_multiset() == store.sessions@.take(i as int).filter(
                |s: Session| matches_client(s, client_id),
            ).to_multiset(),
        decreases n - i,
    {
        let keep = match client_id {
            Some(c) => store.sessions[i].client_id == c,
            None => true,
        };
        if keep {
            sorted_insert_desc(&mut out, store.sessions[i].duplicate());
        }
        i += 1;
    }
    out
}

/// Every session whose start instant lies in `[start, end]`, ordered by start
/// instant, oldest first. A session that starts inside the window is counted
/// whole, wherever it ends; one that starts before the window is excluded,
/// even if it ends inside it.
pub fn get_sessions_within_range(store: &Store, start: Timestamp, end: Timestamp) -> (r: Vec<
    Session,
>)
    requires
        store.wf(),
    ensures
        r@.to_multiset() == sessions_in_window(store.sessions@, start, end).to_multiset(),
        sorted_asc_by_start(r@),
        forall|i: int| 0 <= i < r@.len() ==> in_window(#[trigger] r@[i], start, end),
        forall|i: int| 0 <= i < r@.len() ==> store.sessions@.contains(#[trigger] r@[i]),
{
    let n = store.sessions.len();
    let mut out: Vec<Session> = Vec::new();
    let mut i: usize = 0;
    proof {
        assert(store.sessions@.take(0).filter(|s: Session| in_window(s, start, end)) =~= Seq::<
            Session,
        >::empty());
        assert(out@.to_multiset() =~= Seq::<Session>::empty().to_multiset());
    }
    while i < n
        invariant
            store.wf(),
            n == store.sessions@.len(),
            0 <= i <= n,
            sorted_asc_by_start(out@),
            forall|k: int| 0 <= k < out@.len() ==> in_window(#[trigger] out@[k], start, end),
            forall|k: int| 0 <= k < out@.len() ==> store.sessions@.contains(#[trigger] out@[k]),
            out@.to_multiset() == store.sessions@.take(i as int).filter(
                |s: Session| in_window(s, start, end),
            ).to_multiset(),
        decreases n - i,
    {
        let s = &store.sessions[i];
        if start.seconds <= s.start_timestamp.seconds && s.start_timestamp.seconds <= end.seconds {
            let ghost before = out@;
            sorted_insert_asc(&mut out, s.duplicate());
            proof {
                assert forall|k: int|
                    0 <= k < out@.len() implies in_window(#[trigger] out@[k], start, end)
                    && store.sessions@.contains(out@[k]) by {
                    assert(out@.to_multiset().contains(out@[k]));
                    assert(before.to_multiset().insert(store.sessions@[i as int]).contains(
                        out@[k],
                    ));
                    if out@[k] != store.sessions@[i as int] {
                        assert(before.to_multiset().contains(out@[k]));
                        assert(before.contains(out@[k]));
                    } else {
                        assert(store.sessions@[i as int] == out@[k]);
                    }
                }
            }
        }
        i += 1;
    }
    out
}

} // verus!
