//! The range aggregator: per-client totals of elapsed minutes over a time
//! window, plus the grand total.

use vstd::prelude::*;

use crate::models::{Session, spec_duration_seconds};
use crate::store::{Store, get_sessions_within_range, sessions_in_window};
use crate::time::{Timestamp, trunc_div};

verus! {

broadcast use
    vstd::seq_lib::group_seq_lib_default,
    vstd::seq_lib::group_to_multiset_ensures,
    vstd::prelude::Seq::lemma_filter_push,
    vstd::prelude::Seq::lemma_take_succ_push,
    vstd::prelude::Seq::lemma_take_len;

/// The three canonical summary windows.
#[derive(Clone, Copy, Debug, PartialEq, Eq, Structural)]
pub enum SummaryRange {
    /// The current UTC day, midnight to midnight.
    Daily,
    /// The current pay week: Saturday 00:00:00 through Friday 23:59:59 UTC.
    Weekly,
    /// The current month, first day 00:00:00 through last day 23:59:59 UTC.
    Monthly,
}

/// The chosen summary window around `now`, as `current_day_range`,
/// `current_week_range` and `current_month_range` derive it.
pub fn summary_window(range: SummaryRange, now: Timestamp) -> (r: (Timestamp, Timestamp))
    requires
        now.wf(),
        2 <= now.spec_epoch_day() <= crate::calendar::MAX_EPOCH_DAY - 6,
    ensures
        r.0.wf(),
        r.1.wf(),
        r.0.seconds <= now.seconds,
        match range {
            SummaryRange::Daily => {
                &&& r.0.seconds == now.spec_epoch_day() * 86400
                &&& r.1.seconds == r.0.seconds + 86400
            },
            SummaryRange::Weekly => {
                &&& crate::calendar::spec_weekday_of_day(r.0.seconds as int / 86400)
                    == crate::calendar::SATURDAY
                &&& r.0.seconds % 86400 == 0
                &&& now.spec_epoch_day() < r.0.seconds as int / 86400 + 7
                &&& r.1.seconds == r.0.seconds + 6 * 86400 + 86399
            },
            SummaryRange::Monthly => {
                let y = crate::calendar::spec_year_of(now);
                let m = crate::calendar::spec_month_of(now);
                &&& r.0.seconds == crate::calendar::spec_epoch_days(y, m, 1) * 86400
                &&& r.1.seconds == crate::calendar::spec_epoch_days(
                    y,
                    m,
                    crate::calendar::spec_days_in_month(y, m),
                ) * 86400 + 86399
                &&& now.seconds <= r.1.seconds
            },
        },
{
    match range {
        SummaryRange::Daily => crate::calendar::current_day_range(now),
        SummaryRange::Weekly => crate::calendar::current_week_range(now),
        SummaryRange::Monthly => crate::calendar::current_month_range(now),
    }
}

/// A per-session magnitude bound on elapsed minutes: representable instants
/// span fewer than 2^39 seconds, and the manual offset at most 2^31 minutes.
pub const SESSION_MINUTES_BOUND: i64 = 0x80_0000_0000;

/// The most sessions a store may hold for a summary to be computed without
/// any running total leaving the machine's integer range.
pub const MAX_SUMMARY_SESSIONS: usize = 0x40_0000;

/// One client's total over the window, in whole minutes (truncated toward
/// zero per session, as the per-session display is).
#[derive(Clone, Copy, Debug, PartialEq, Eq, Structural)]
pub struct ClientTotal {
    pub client_id: i32,
    pub minutes: i64,
}

/// Per-client totals over a window — one entry per client that has a session
/// starting in it, in no specified order — and their grand total.
#[derive(Clone, Debug, PartialEq, Eq)]
pub struct Summary {
    pub per_client: Vec<ClientTotal>,
    pub total_minutes: i64,
}

/// A session's elapsed time at `now` in whole minutes, truncated toward zero.
pub open spec fn spec_session_minutes(s: Session, now: Timestamp) -> int {
    trunc_div(spec_duration_seconds(s, now), 60)
}

/// The sessions of one client, in order.
pub open spec fn client_sessions(ss: Seq<Session>, cid: i32) -> Seq<Session> {
    ss.filter(|s: Session| s.client_id == cid)
}

/// Total elapsed minutes of a sequence of sessions at `now`.
pub open spec fn sum_minutes(ss: Seq<Session>, now: Timestamp) -> int
    decreases ss.len(),
{
    if ss.len() == 0 {
        0
    } else {
        sum_minutes(ss.drop_last(), now) + spec_session_minutes(ss.last(), now)
    }
}

/// The sum of the recorded per-client totals.
pub open spec fn sum_totals(es: Seq<ClientTotal>) -> int
    decreases es.len(),
{
    if es.len() == 0 {
        0
    } else {
        sum_totals(es.drop_last()) + es.last().minutes as int
    }
}

/// Some entry records this client.
pub open spec fn has_total(es: Seq<ClientTotal>, cid: i32) -> bool {
    exists|i: int| 0 <= i < es.len() && es[i].client_id == cid
}

/// No two entries record the same client.
pub open spec fn totals_unique(es: Seq<ClientTotal>) -> bool {
    forall|i: int, j: int| 0 <= i < j < es.len() ==> es[i].client_id != es[j].client_id
}

/// A session within the representable span contributes fewer than
/// `SESSION_MINUTES_BOUND` minutes in magnitude.
proof fn lemma_session_minutes_bound(s: Session, now: Timestamp)
    requires
        s.times_wf(),
        now.wf(),
    ensures
        -SESSION_MINUTES_BOUND < spec_session_minutes(s, now) < SESSION_MINUTES_BOUND,
{
    let sec = spec_duration_seconds(s, now);
    assert(-SESSION_MINUTES_BOUND < sec < SESSION_MINUTES_BOUND);
    if sec >= 0 {
        assert(0 <= sec / 60 <= sec) by {
            vstd::arithmetic::div_mod::lemma_div_nonincreasing(sec, 60);
            vstd::arithmetic::div_mod::lemma_div_pos_is_pos(sec, 60);
        }
    } else {
        assert(0 <= (-sec) / 60 <= -sec) by {
            vstd::arithmetic::div_mod::lemma_div_nonincreasing(-sec, 60);
            vstd::arithmetic::div_mod::lemma_div_pos_is_pos(-sec, 60);
        }
    }
}

/// The total of `n` sessions is below `n` times the per-session bound.
proof fn lemma_sum_minutes_bound(ss: Seq<Session>, now: Timestamp)
    requires
        forall|i: int| 0 <= i < ss.len() ==> (#[trigger] ss[i]).times_wf(),
        now.wf(),
    ensures
        -(ss.len() as int) * SESSION_MINUTES_BOUND <= sum_minutes(ss, now) <= (ss.len() as int)
            * SESSION_MINUTES_BOUND,
    decreases ss.len(),
{
    if ss.len() > 0 {
        lemma_sum_minutes_bound(ss.drop_last(), now);
        lemma_session_minutes_bound(ss.last(), now);
    }
}

/// Appending a session adds its minutes to the total.
proof fn lemma_sum_minutes_push(ss: Seq<Session>, s: Session, now: Timestamp)
    ensures
        sum_minutes(ss.push(s), now) == sum_minutes(ss, now) + spec_session_minutes(s, now),
{
    assert(ss.push(s).drop_last() =~= ss);
    assert(ss.push(s).last() == s);
}

/// Appending an entry adds its minutes to the recorded sum.
proof fn lemma_sum_totals_push(es: Seq<ClientTotal>, e: ClientTotal)
    ensures
        sum_totals(es.push(e)) == sum_totals(es) + e.minutes,
{
    assert(es.push(e).drop_last() =~= es);
    assert(es.push(e).last() == e);
}

/// Replacing one entry moves the recorded sum by the difference.
proof fn lemma_sum_totals_update(es: Seq<ClientTotal>, k: int, e: ClientTotal)
    requires
        0 <= k < es.len(),
    ensures
        sum_totals(es.update(k, e)) == sum_totals(es) - es[k].minutes + e.minutes,
    decreases es.len(),
{
    if k == es.len() - 1 {
        assert(es.update(k, e).drop_last() =~= es.drop_last());
        assert(es.update(k, e).last() == e);
    } else {
        assert(es.update(k, e).drop_last() =~= es.drop_last().update(k, e));
        assert(es.update(k, e).last() == es.last());
        lemma_sum_totals_update(es.drop_last(), k, e);
    }
}

/// Every session of one client's slice comes from the underlying sequence
/// and belongs to that client.
proof fn lemma_client_sessions_member(ss: Seq<Session>, cid: i32, k: int)
    requires
        0 <= k < client_sessions(ss, cid).len(),
    ensures
        ss.contains(client_sessions(ss, cid)[k]),
        client_sessions(ss, cid)[k].client_id == cid,
    decreases ss.len(),
{
    let cs = client_sessions(ss, cid);
    if ss.len() > 0 {
        let s0 = ss.drop_last();
        let x = ss.last();
        assert(ss =~= s0.push(x));
        let cs0 = client_sessions(s0, cid);
        if x.client_id == cid {
            assert(cs == cs0.push(x));
            if k < cs0.len() {
                lemma_client_sessions_member(s0, cid, k);
                assert(s0.contains(cs0[k]));
                let w = choose|w: int| 0 <= w < s0.len() && s0[w] == cs0[k];
                assert(ss[w] == cs[k]);
            } else {
                assert(cs[k] == x);
                assert(ss[ss.len() - 1] == x);
            }
        } else {
            assert(cs == cs0);
            lemma_client_sessions_member(s0, cid, k);
            let w = choose|w: int| 0 <= w < s0.len() && s0[w] == cs0[k];
            assert(ss[w] == cs[k]);
        }
    }
}

/// The position of the entry recording this client, if any.
fn find_total_index(per: &Vec<ClientTotal>, cid: i32) -> (r: Option<usize>)
    ensures
        match r {
            Some(k) => k < per@.len() && per@[k as int].client_id == cid,
            None => !has_total(per@, cid),
        },
{
    let n = per.len();
    let mut i: usize = 0;
    while i < n
        invariant
            n == per@.len(),
            0 <= i <= n,
            forall|k: int| 0 <= k < i ==> per@[k].client_id != cid,
        decreases n - i,
    {
        if per[i].client_id == cid {
            return Some(i);
        }
        i += 1;
    }
    None
}

/// Sums the elapsed minutes of every session starting in `[start, end]` at
/// instant `now`, per client and overall. A session starting inside the
/// window is counted whole, wherever it ends; one starting before it is
/// excluded, even if it ends inside it. Each client with a session in the
/// window gets exactly one entry, whose minutes are the sum over its window
/// sessions; the grand total equals the sum of the per-client totals.
pub fn summarize(store: &Store, start: Timestamp, end: Timestamp, now: Timestamp) -> (r: Summary)
    requires
        store.wf(),
        now.wf(),
        store.sessions@.len() <= MAX_SUMMARY_SESSIONS,
    ensures
        ({
            let win = sessions_in_window(store.sessions@, start, end);
            &&& totals_unique(r.per_client@)
            &&& forall|k: int|
                0 <= k < r.per_client@.len() ==> (#[trigger] r.per_client@[k]).minutes
                    == sum_minutes(client_sessions(win, r.per_client@[k].client_id), now)
            &&& forall|k: int|
                0 <= k < r.per_client@.len() ==> client_sessions(
                    win,
                    (#[trigger] r.per_client@[k]).client_id,
                ).len() > 0
            &&& forall|j: int|
                0 <= j < win.len() ==> has_total(r.per_client@, (#[trigger] win[j]).client_id)
            &&& r.total_minutes == sum_totals(r.per_client@)
            &&& r.total_minutes == sum_minutes(win, now)
        }),
{
    let win = get_sessions_within_range(store, start, end);
    let ghost winv = sessions_in_window(store.sessions@, start, end);
    proof {
        vstd::seq_lib::to_multiset_len(win@);
        vstd::seq_lib::to_multiset_len(winv);
        assert(win@.len() == winv.len());
        assert(winv.len() <= store.sessions@.len());
    }
    let n = win.len();
    let mut per: Vec<ClientTotal> = Vec::new();
    let mut total: i64 = 0;
    let mut i: usize = 0;
    proof {
        assert(win@.take(0) =~= Seq::<Session>::empty());
        assert forall|k: int| 0 <= k < n implies (#[trigger] win@[k]).times_wf() by {
            assert(store.sessions@.contains(win@[k]));
            let w = choose|w: int|
                0 <= w < store.sessions@.len() && store.sessions@[w] == win@[k];
            assert(store.sessions@[w].times_wf());
        }
    }
    while i < n
        invariant
            store.wf(),
            now.wf(),
            n == win@.len(),
            n <= MAX_SUMMARY_SESSIONS,
            0 <= i <= n,
            forall|k: int| 0 <= k < n ==> (#[trigger] win@[k]).times_wf(),
            totals_unique(per@),
            forall|k: int|
                0 <= k < per@.len() ==> (#[trigger] per@[k]).minutes == sum_minutes(
                    client_sessions(win@.take(i as int), per@[k].client_id),
                    now,
                ),
            forall|k: int|
                0 <= k < per@.len() ==> client_sessions(
                    win@.take(i as int),
                    (#[trigger] per@[k]).client_id,
                ).len() > 0,
            forall|j: int|
                0 <= j < i ==> has_total(per@, (#[trigger] win@[j]).client_id),
            total == sum_totals(per@),
            total == sum_minutes(win@.take(i as int), now),
        decreases n - i,
    {
        let s = &win[i];
        let cid = s.client_id;
        let minutes = s.get_timedelta(now).num_minutes();
        proof {
            lemma_session_minutes_bound(win@[i as int], now);
            lemma_sum_minutes_push(win@.take(i as int), win@[i as int], now);
            lemma_sum_minutes_bound(win@.take(i as int), now);
        }
        let ghost pre = per@;
        match find_total_index(&per, cid) {
            Some(k) => {
                proof {
                    let csk = client_sessions(win@.take(i as int), cid);
                    assert forall|q: int| 0 <= q < csk.len() implies (#[trigger] csk[q]).times_wf() by {
                        lemma_client_sessions_member(win@.take(i as int), cid, q);
                        let w = choose|w: int|
                            0 <= w < win@.take(i as int).len() && win@.take(i as int)[w] == csk[q];
                        assert(win@[w].times_wf());
                    }
                    lemma_sum_minutes_bound(csk, now);
                    assert(csk.len() <= win@.take(i as int).len());
                    lemma_sum_minutes_push(csk, win@[i as int], now);
                    lemma_sum_totals_update(
                        pre,
                        k as int,
                        ClientTotal { client_id: cid, minutes: (pre[k as int].minutes as int
                            + spec_session_minutes(win@[i as int], now)) as i64 },
                    );
                }
                let updated = ClientTotal { client_id: cid, minutes: per[k].minutes + minutes };
                per[k] = updated;
                proof {
                    assert forall|q: int|
                        0 <= q < per@.len() implies (#[trigger] per@[q]).minutes == sum_minutes(
                        client_sessions(win@.take(i + 1 as int), per@[q].client_id),
                        now,
                    ) by {
                        if q != k as int {
                            assert(per@[q] == pre[q]);
                            assert(pre[q].client_id != cid);
                            assert(client_sessions(win@.take(i + 1 as int), pre[q].client_id)
                                == client_sessions(win@.take(i as int), pre[q].client_id));
                        }
                    }
                    assert forall|j: int|
                        0 <= j < i + 1 implies has_total(per@, (#[trigger] win@[j]).client_id) by {
                        if j < i {
                            assert(has_total(pre, win@[j].client_id));
                            let w = choose|w: int|
                                0 <= w < pre.len() && pre[w].client_id == win@[j].client_id;
                            assert(per@[w].client_id == win@[j].client_id);
                        } else {
                            assert(per@[k as int].client_id == cid);
                        }
                    }
                }
            },
            None => {
                proof {
                    let cs0 = client_sessions(win@.take(i as int), cid);
                    assert(cs0.len() == 0) by {
                        if cs0.len() > 0 {
                            lemma_client_sessions_member(win@.take(i as int), cid, 0);
                            assert(win@.take(i as int).contains(cs0[0]));
                            let w = choose|w: int|
                                0 <= w < win@.take(i as int).len() && win@.take(i as int)[w]
                                    == cs0[0];
                            assert(win@[w].client_id == cid);
                            assert(has_total(pre, cid));
                        }
                    }
                    assert(sum_minutes(cs0, now) == 0);
                    lemma_sum_minutes_push(cs0, win@[i as int], now);
                    lemma_sum_totals_push(
                        pre,
                        ClientTotal {
                            client_id: cid,
                            minutes: spec_session_minutes(win@[i as int], now) as i64,
                        },
                    );
                }
                per.push(ClientTotal { client_id: cid, minutes });
                proof {
                    assert forall|q: int|
                        0 <= q < per@.len() implies (#[trigger] per@[q]).minutes == sum_minutes(
                        client_sessions(win@.take(i + 1 as int), per@[q].client_id),
                        now,
                    ) by {
                        if q < pre.len() {
                            assert(per@[q] == pre[q]);
                            assert(pre[q].client_id != cid) by {
                                assert(!has_total(pre, cid));
                            }
                            assert(client_sessions(win@.take(i + 1 as int), pre[q].client_id)
                                == client_sessions(win@.take(i as int), pre[q].client_id));
                        }
                    }
                    assert forall|j: int|
                        0 <= j < i + 1 implies has_total(per@, (#[trigger] win@[j]).client_id) by {
                        if j < i {
                            let w = choose|w: int|
                                0 <= w < pre.len() && pre[w].client_id == win@[j].client_id;
                            assert(per@[w].client_id == win@[j].client_id);
                        } else {
                            assert(per@[pre.len() as int].client_id == cid);
                        }
                    }
                    assert(totals_unique(per@)) by {
                        assert forall|a: int, b: int|
                            0 <= a < b < per@.len() implies per@[a].client_id
                            != per@[b].client_id by {
                            if b == pre.len() as int {
                                assert(!has_total(pre, cid));
                                assert(pre[a].client_id != cid);
                            }
                        }
                    }
                }
            },
        }
        total = total + minutes;
        i += 1;
    }
    proof {
        assert(win@.take(n as int) == win@);
        lemma_sum_window_agrees(win@, winv, now);
        assert forall|j: int|
            0 <= j < winv.len() implies has_total(per@, (#[trigger] winv[j]).client_id) by {
            assert(winv.contains(winv[j]));
            assert(winv.to_multiset().contains(winv[j]));
            assert(win@.to_multiset().contains(winv[j]));
            assert(win@.contains(winv[j]));
            let w = choose|w: int| 0 <= w < win@.len() && win@[w] == winv[j];
            assert(has_total(per@, win@[w].client_id));
        }
    }
    Summary { per_client: per, total_minutes: total }
}

/// `sum_minutes` is the fold of adding each session's minutes.
proof fn lemma_sum_is_fold(ss: Seq<Session>, now: Timestamp, v: int)
    ensures
        ss.fold_right(|s: Session, acc: int| acc + spec_session_minutes(s, now), v) == v
            + sum_minutes(ss, now),
    decreases ss.len(),
{
    if ss.len() > 0 {
        lemma_sum_is_fold(ss.drop_last(), now, v + spec_session_minutes(ss.last(), now));
    }
}

/// Sequences holding the same sessions in any order have the same total.
proof fn lemma_sum_minutes_permutation(a: Seq<Session>, b: Seq<Session>, now: Timestamp)
    requires
        a.to_multiset() == b.to_multiset(),
    ensures
        sum_minutes(a, now) == sum_minutes(b, now),
{
    let f = |s: Session, acc: int| acc + spec_session_minutes(s, now);
    assert(vstd::seq_lib::commutative_foldr(f));
    vstd::seq_lib::lemma_fold_right_permutation(a, b, f, 0);
    lemma_sum_is_fold(a, now, 0);
    lemma_sum_is_fold(b, now, 0);
}

/// Filtering a sequence and taking the multiset commutes with taking the
/// multiset and filtering it.
proof fn lemma_filter_to_multiset(s: Seq<Session>, p: spec_fn(Session) -> bool)
    ensures
        s.filter(p).to_multiset() == s.to_multiset().filter(p),
    decreases s.len(),
{
    broadcast use vstd::seq_lib::group_to_multiset_ensures;
    broadcast use vstd::multiset::group_multiset_axioms;

    if s.len() == 0 {
        assert(s.filter(p) =~= Seq::<Session>::empty());
        assert(s.filter(p).to_multiset() =~= s.to_multiset().filter(p));
    } else {
        let s0 = s.drop_last();
        let x = s.last();
        lemma_filter_to_multiset(s0, p);
        assert(s =~= s0.push(x));
        assert(s0.push(x).filter(p) == if p(x) {
            s0.filter(p).push(x)
        } else {
            s0.filter(p)
        });
        if p(x) {
            assert(s.filter(p).to_multiset() == s0.filter(p).to_multiset().insert(x));
            assert(s.to_multiset() == s0.to_multiset().insert(x));
            assert(s0.to_multiset().insert(x).filter(p) =~= s0.to_multiset().filter(p).insert(x));
        } else {
            assert(s.to_multiset() == s0.to_multiset().insert(x));
            assert(s0.to_multiset().insert(x).filter(p) =~= s0.to_multiset().filter(p));
        }
    }
}

/// Two sequences holding the same sessions in any order have the same total,
/// and the same per-client totals.
proof fn lemma_sum_window_agrees(a: Seq<Session>, b: Seq<Session>, now: Timestamp)
    requires
        a.to_multiset() == b.to_multiset(),
    ensures
        sum_minutes(a, now) == sum_minutes(b, now),
        forall|cid: i32|
            sum_minutes(#[trigger] client_sessions(a, cid), now) == sum_minutes(
                client_sessions(b, cid),
                now,
            ),
        forall|cid: i32|
            client_sessions(a, cid).len() == (#[trigger] client_sessions(b, cid)).len(),
{
    broadcast use vstd::seq_lib::group_to_multiset_ensures;

    lemma_sum_minutes_permutation(a, b, now);
    assert forall|cid: i32|
        sum_minutes(#[trigger] client_sessions(a, cid), now) == sum_minutes(
        client_sessions(b, cid),
        now,
    ) && client_sessions(a, cid).len() == client_sessions(b, cid).len() by {
        let p = |s: Session| s.client_id == cid;
        lemma_filter_to_multiset(a, p);
        lemma_filter_to_multiset(b, p);
        assert(client_sessions(a, cid).to_multiset() == client_sessions(b, cid).to_multiset());
        lemma_sum_minutes_permutation(client_sessions(a, cid), client_sessions(b, cid), now);
        vstd::seq_lib::to_multiset_len(client_sessions(a, cid));
        vstd::seq_lib::to_multiset_len(client_sessions(b, cid));
    }
}

} // verus!
