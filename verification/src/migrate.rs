//! The schema-versioned image of the persisted store, and its forward-only
//! migrations. The version is kept as a single record that only this module
//! writes; each migration step applies exactly when the recorded version
//! calls for it, so re-running against an already-migrated image changes
//! nothing.

use vstd::prelude::*;

use crate::models::{Client, Session};
use crate::store::{
    Store, at_most_one_open, client_ids_unique, client_names_unique, has_client,
    session_ids_unique,
};
use crate::time::Timestamp;

verus! {

/// The schema version every migration leads to.
pub const CURRENT_SCHEMA_VERSION: u32 = 2;

/// A session row as the backing tables hold it. Under schema version 1 the
/// manual-offset column does not exist yet, so the field is optional here.
#[derive(Clone, Debug, PartialEq, Eq)]
pub struct RawSession {
    pub id: i32,
    pub client_id: i32,
    pub start_timestamp: Timestamp,
    pub end_timestamp: Option<Timestamp>,
    pub note: Option<String>,
    pub offset_minutes: Option<i32>,
}

/// Everything the backing tables hold: the recorded schema version and the
/// raw rows. Version zero stands for a store whose version record is missing
/// or unreadable.
pub struct DbImage {
    pub schema_version: u32,
    pub clients: Vec<Client>,
    pub sessions: Vec<RawSession>,
}

impl DbImage {
    /// The rows agree with the recorded version: the manual-offset column
    /// exists exactly from version 2 on.
    pub open spec fn wf(self) -> bool {
        &&& self.schema_version < 2 ==> forall|k: int|
            0 <= k < self.sessions@.len() ==> (#[trigger] self.sessions@[k]).offset_minutes
                is None
        &&& self.schema_version >= 2 ==> forall|k: int|
            0 <= k < self.sessions@.len() ==> (#[trigger] self.sessions@[k]).offset_minutes
                is Some
    }
}

/// Reads the recorded schema version.
pub fn get_schema_version(img: &DbImage) -> (r: u32)
    ensures
        r == img.schema_version,
{
    img.schema_version
}

/// Records a new schema version; nothing else changes.
pub fn update_schema_version(img: &mut DbImage, new_version: u32)
    ensures
        final(img).schema_version == new_version,
        final(img).clients@ == old(img).clients@,
        final(img).sessions@ == old(img).sessions@,
{
    img.schema_version = new_version;
}

/// Prepares a fresh store: a store with no version record yet is seeded at
/// version 1; an existing store is left as it is, rows untouched.
pub fn init_schema(img: &mut DbImage)
    ensures
        final(img).schema_version == if old(img).schema_version == 0 {
            1u32
        } else {
            old(img).schema_version
        },
        final(img).clients@ == old(img).clients@,
        final(img).sessions@ == old(img).sessions@,
{
    if img.schema_version == 0 {
        img.schema_version = 1;
    }
}

/// The session row with its manual offset set.
pub open spec fn with_offset(s: RawSession, minutes: i32) -> RawSession {
    RawSession { offset_minutes: Some(minutes), ..s }
}

/// Everything `apply_migrations` guarantees. An image below version 2 gains
/// the manual-offset column with every prior row defaulted to zero and is
/// recorded at version 2; an image at version 2 or above is left untouched.
pub open spec fn migrate_post(s0: DbImage, s1: DbImage) -> bool {
    &&& s1.clients@ == s0.clients@
    &&& if s0.schema_version < 2 {
        &&& s1.schema_version == 2
        &&& s1.sessions@.len() == s0.sessions@.len()
        &&& forall|k: int|
            0 <= k < s0.sessions@.len() ==> s1.sessions@[k] == with_offset(
                #[trigger] s0.sessions@[k],
                0,
            )
    } else {
        &&& s1.schema_version == s0.schema_version
        &&& s1.sessions@ == s0.sessions@
    }
}

/// Applies every pending migration step in increasing order, recording the
/// new version after each step. The recorded version gates re-application:
/// running against an already-migrated image is a no-op.
pub fn apply_migrations(img: &mut DbImage)
    requires
        old(img).wf(),
    ensures
        final(img).wf(),
        migrate_post(*old(img), *final(img)),
{
    let version = get_schema_version(img);
    if version < 2 {
        let n = img.sessions.len();
        let mut i: usize = 0;
        while i < n
            invariant
                n == img.sessions@.len(),
                img.schema_version == old(img).schema_version,
                img.clients@ == old(img).clients@,
                0 <= i <= n,
                forall|k: int|
                    0 <= k < i ==> img.sessions@[k] == with_offset(
                        #[trigger] old(img).sessions@[k],
                        0,
                    ),
                forall|k: int| i <= k < n ==> img.sessions@[k] == old(img).sessions@[k],
            decreases n - i,
        {
            let row = RawSession {
                id: img.sessions[i].id,
                client_id: img.sessions[i].client_id,
                start_timestamp: img.sessions[i].start_timestamp,
                end_timestamp: img.sessions[i].end_timestamp,
                note: clone_note(&img.sessions[i].note),
                offset_minutes: Some(0),
            };
            img.sessions[i] = row;
            i += 1;
        }
        update_schema_version(img, CURRENT_SCHEMA_VERSION);
        proof {
            assert forall|k: int|
                0 <= k < img.sessions@.len() implies (#[trigger] img.sessions@[k]).offset_minutes
                is Some by {
                assert(img.sessions@[k] == with_offset(old(img).sessions@[k], 0));
            }
        }
    }
}

/// A copy of an optional free-text note.
fn clone_note(n: &Option<String>) -> (r: Option<String>)
    ensures
        r == *n,
{
    match n {
        Some(s) => Some(s.clone()),
        None => None,
    }
}

/// Migrating twice is the same as migrating once: the recorded version gates
/// re-application, so the second run changes nothing.
pub proof fn lemma_migrations_idempotent(s0: DbImage, s1: DbImage, s2: DbImage)
    requires
        migrate_post(s0, s1),
        migrate_post(s1, s2),
    ensures
        s2.schema_version == s1.schema_version,
        s2.sessions@ == s1.sessions@,
        s2.clients@ == s1.clients@,
{
}

/// The image can be loaded into a working store: it is fully migrated, its
/// rows satisfy every store invariant, and its instants lie in the
/// representable span.
pub open spec fn loadable(img: DbImage) -> bool {
    &&& img.schema_version == 2
    &&& client_ids_unique(img.clients@)
    &&& client_names_unique(img.clients@)
    &&& forall|k: int|
        0 <= k < img.clients@.len() ==> 1 <= (#[trigger] img.clients@[k]).id < 0x7fff_ffff
    &&& session_ids_unique(cooked_sessions(img.sessions@))
    &&& at_most_one_open(cooked_sessions(img.sessions@))
    &&& forall|k: int|
        0 <= k < img.sessions@.len() ==> {
            &&& 1 <= (#[trigger] img.sessions@[k]).id < 0x7fff_ffff
            &&& has_client(img.clients@, img.sessions@[k].client_id as int)
            &&& img.sessions@[k].offset_minutes is Some
            &&& img.sessions@[k].start_timestamp.wf()
            &&& (img.sessions@[k].end_timestamp matches Some(e) ==> e.wf())
        }
}

/// The session records a raw row stands for, offsets unwrapped (a missing
/// offset reads as zero).
pub open spec fn cooked_session(s: RawSession) -> Session {
    Session {
        id: s.id,
        client_id: s.client_id,
        start_timestamp: s.start_timestamp,
        end_timestamp: s.end_timestamp,
        note: s.note,
        offset_minutes: match s.offset_minutes {
            Some(m) => m,
            None => 0,
        },
    }
}

/// The session records of all raw rows, in order.
pub open spec fn cooked_sessions(ss: Seq<RawSession>) -> Seq<Session> {
    ss.map_values(|s: RawSession| cooked_session(s))
}

/// The largest client id, or zero when there are none.
pub open spec fn max_client_id(cs: Seq<Client>) -> int
    decreases cs.len(),
{
    if cs.len() == 0 {
        0
    } else if max_client_id(cs.drop_last()) >= cs.last().id {
        max_client_id(cs.drop_last())
    } else {
        cs.last().id as int
    }
}

/// The largest session id, or zero when there are none.
pub open spec fn max_session_id(ss: Seq<RawSession>) -> int
    decreases ss.len(),
{
    if ss.len() == 0 {
        0
    } else if max_session_id(ss.drop_last()) >= ss.last().id {
        max_session_id(ss.drop_last())
    } else {
        ss.last().id as int
    }
}

/// Loads a fully migrated image into a working store, validating every store
/// invariant on the way; an image that breaks one — or is not at the current
/// schema version — is refused.
pub fn store_from_image(img: &DbImage) -> (r: Option<Store>)
    ensures
        match r {
            Some(st) => {
                &&& loadable(*img)
                &&& st.wf()
                &&& st.clients@ == img.clients@
                &&& st.sessions@ == cooked_sessions(img.sessions@)
                &&& st.next_client_id == max_client_id(img.clients@) + 1
                &&& st.next_session_id == max_session_id(img.sessions@) + 1
            },
            None => !loadable(*img),
        },
{
    if img.schema_version != CURRENT_SCHEMA_VERSION {
        return None;
    }
    let cn = img.clients.len();
    let mut i: usize = 0;
    let mut max_cid: i32 = 0;
    while i < cn
        invariant
            cn == img.clients@.len(),
            0 <= i <= cn,
            forall|k: int| 0 <= k < i ==> 1 <= (#[trigger] img.clients@[k]).id < 0x7fff_ffff,
            forall|k1: int, k2: int|
                0 <= k1 < k2 < i ==> img.clients@[k1].id != img.clients@[k2].id,
            forall|k1: int, k2: int|
                0 <= k1 < k2 < i ==> img.clients@[k1].name@ != img.clients@[k2].name@,
            0 <= max_cid < 0x7fff_ffff,
            max_cid as int == max_client_id(img.clients@.take(i as int)),
        decreases cn - i,
    {
        let c = &img.clients[i];
        if c.id < 1 || c.id == i32::MAX {
            return None;
        }
        let mut j: usize = 0;
        while j < i
            invariant
                cn == img.clients@.len(),
                0 <= j <= i < cn,
                forall|k: int|
                    0 <= k < j ==> img.clients@[k].id != img.clients@[i as int].id
                        && img.clients@[k].name@ != img.clients@[i as int].name@,
            decreases i - j,
        {
            if img.clients[j].id == img.clients[i].id {
                return None;
            }
            if img.clients[j].name == img.clients[i].name {
                return None;
            }
            j += 1;
        }
        if c.id > max_cid {
            max_cid = c.id;
        }
        proof {
            assert(img.clients@.take(i + 1 as int).drop_last() =~= img.clients@.take(i as int));
        }
        i += 1;
    }
    let sn = img.sessions.len();
    let mut si: usize = 0;
    let mut max_sid: i32 = 0;
    let mut seen_open: bool = false;
    while si < sn
        invariant
            cn == img.clients@.len(),
            sn == img.sessions@.len(),
            0 <= si <= sn,
            forall|k: int|
                0 <= k < si ==> {
                    &&& 1 <= (#[trigger] img.sessions@[k]).id < 0x7fff_ffff
                    &&& has_client(img.clients@, img.sessions@[k].client_id as int)
                    &&& img.sessions@[k].offset_minutes is Some
                    &&& img.sessions@[k].start_timestamp.wf()
                    &&& (img.sessions@[k].end_timestamp matches Some(e) ==> e.wf())
                },
            forall|k1: int, k2: int|
                0 <= k1 < k2 < si ==> img.sessions@[k1].id != img.sessions@[k2].id,
            !seen_open ==> forall|k: int|
                0 <= k < si ==> (#[trigger] img.sessions@[k]).end_timestamp is Some,
            seen_open ==> exists|k: int|
                0 <= k < si && (#[trigger] img.sessions@[k]).end_timestamp is None,
            seen_open ==> forall|k1: int, k2: int|
                0 <= k1 < k2 < si ==> !((#[trigger] img.sessions@[k1]).end_timestamp is None && (
                #[trigger] img.sessions@[k2]).end_timestamp is None),
            0 <= max_sid < 0x7fff_ffff,
            max_sid as int == max_session_id(img.sessions@.take(si as int)),
        decreases sn - si,
    {
        let s = &img.sessions[si];
        if s.id < 1 || s.id == i32::MAX {
            return None;
        }
        if s.offset_minutes.is_none() {
            return None;
        }
        if s.start_timestamp.seconds < 0 || s.start_timestamp.seconds > crate::time::MAX_TS {
            return None;
        }
        match &s.end_timestamp {
            Some(e) => {
                if e.seconds < 0 || e.seconds > crate::time::MAX_TS {
                    return None;
                }
            },
            None => {
                if seen_open {
                    proof {
                        let w = choose|k: int|
                            0 <= k < si && (#[trigger] img.sessions@[k]).end_timestamp is None;
                        assert(cooked_sessions(img.sessions@)[w].spec_is_open());
                        assert(cooked_sessions(img.sessions@)[si as int].spec_is_open());
                        assert(!at_most_one_open(cooked_sessions(img.sessions@)));
                    }
                    return None;
                }
                seen_open = true;
            },
        }
        let mut fc: usize = 0;
        let mut client_found: bool = false;
        while fc < cn
            invariant
                cn == img.clients@.len(),
                sn == img.sessions@.len(),
                0 <= fc <= cn,
                si < sn,
                !client_found ==> forall|k: int|
                    0 <= k < fc ==> img.clients@[k].id != img.sessions@[si as int].client_id,
                client_found ==> has_client(
                    img.clients@,
                    img.sessions@[si as int].client_id as int,
                ),
            decreases cn - fc,
        {
            if img.clients[fc].id == img.sessions[si].client_id {
                client_found = true;
            }
            fc += 1;
        }
        if !client_found {
            return None;
        }
        let mut sj: usize = 0;
        while sj < si
            invariant
                sn == img.sessions@.len(),
                0 <= sj <= si < sn,
                forall|k: int| 0 <= k < sj ==> img.sessions@[k].id != img.sessions@[si as int].id,
            decreases si - sj,
        {
            if img.sessions[sj].id == img.sessions[si].id {
                proof {
                    assert(cooked_sessions(img.sessions@)[sj as int].id == cooked_sessions(
                        img.sessions@,
                    )[si as int].id);
                }
                return None;
            }
            sj += 1;
        }
        if img.sessions[si].id > max_sid {
            max_sid = img.sessions[si].id;
        }
        proof {
            assert(img.sessions@.take(si + 1 as int).drop_last() =~= img.sessions@.take(
                si as int,
            ));
        }
        si += 1;
    }
    let mut clients: Vec<Client> = Vec::new();
    let mut ci: usize = 0;
    while ci < cn
        invariant
            cn == img.clients@.len(),
            0 <= ci <= cn,
            clients@ == img.clients@.take(ci as int),
        decreases cn - ci,
    {
        clients.push(img.clients[ci].duplicate());
        proof {
            assert(img.clients@.take(ci + 1 as int) =~= img.clients@.take(ci as int).push(
                img.clients@[ci as int],
            ));
        }
        ci += 1;
    }
    let mut sessions: Vec<Session> = Vec::new();
    let mut sc: usize = 0;
    while sc < sn
        invariant
            sn == img.sessions@.len(),
            0 <= sc <= sn,
            sessions@ == cooked_sessions(img.sessions@).take(sc as int),
        decreases sn - sc,
    {
        let raw = &img.sessions[sc];
        let offset = match raw.offset_minutes {
            Some(m) => m,
            None => 0,
        };
        let cooked = Session {
            id: raw.id,
            client_id: raw.client_id,
            start_timestamp: raw.start_timestamp,
            end_timestamp: raw.end_timestamp,
            note: clone_note(&raw.note),
            offset_minutes: offset,
        };
        sessions.push(cooked);
        proof {
            assert(cooked_sessions(img.sessions@).take(sc + 1 as int) =~= cooked_sessions(
                img.sessions@,
            ).take(sc as int).push(cooked_sessions(img.sessions@)[sc as int]));
        }
        sc += 1;
    }
    proof {
        assert(img.clients@.take(cn as int) =~= img.clients@);
        assert(img.sessions@.take(sn as int) =~= img.sessions@);
        assert(cooked_sessions(img.sessions@).take(sn as int) =~= cooked_sessions(img.sessions@));
        assert(loadable(*img)) by {
            if seen_open {
            }
        }
    }
    let st = Store {
        clients,
        sessions,
        next_client_id: max_cid + 1,
        next_session_id: max_sid + 1,
    };
    proof {
        lemma_max_client_id_bounds(img.clients@);
        lemma_max_session_id_bounds(img.sessions@);
        assert(st.wf());
    }
    Some(st)
}

/// Every client id is at most the maximum.
proof fn lemma_max_client_id_bounds(cs: Seq<Client>)
    ensures
        forall|k: int| 0 <= k < cs.len() ==> (#[trigger] cs[k]).id <= max_client_id(cs),
        max_client_id(cs) >= 0,
    decreases cs.len(),
{
    if cs.len() > 0 {
        lemma_max_client_id_bounds(cs.drop_last());
        assert forall|k: int| 0 <= k < cs.len() implies (#[trigger] cs[k]).id <= max_client_id(
            cs,
        ) by {
            if k < cs.len() - 1 {
                assert(cs[k] == cs.drop_last()[k]);
            }
        }
    }
}

/// Every session id is at most the maximum.
proof fn lemma_max_session_id_bounds(ss: Seq<RawSession>)
    ensures
        forall|k: int| 0 <= k < ss.len() ==> (#[trigger] ss[k]).id <= max_session_id(ss),
        max_session_id(ss) >= 0,
    decreases ss.len(),
{
    if ss.len() > 0 {
        lemma_max_session_id_bounds(ss.drop_last());
        assert forall|k: int| 0 <= k < ss.len() implies (#[trigger] ss[k]).id <= max_session_id(
            ss,
        ) by {
            if k < ss.len() - 1 {
                assert(ss[k] == ss.drop_last()[k]);
            }
        }
    }
}

} // verus!
