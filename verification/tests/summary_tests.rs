use timber::models::{Client, Session};
use timber::store::{Store, get_sessions_within_range, store_client, store_session};
use timber::summary::{SummaryRange, summarize, summary_window};
use timber::time::Timestamp;

fn seeded_store() -> Store {
    let mut store = Store::new();
    for name in ["Acme", "Globex"] {
        store_client(
            &mut store,
            &Client {
                id: 0,
                name: name.into(),
                note: None,
            },
        )
        .unwrap();
    }
    // (client, start, end, offset)
    let rows = [
        (1, 1_000, 4_600, 0),    // 60 minutes for Acme
        (2, 2_000, 3_200, 0),    // 20 minutes for Globex
        (1, 5_000, 5_300, 10),   // 5 + 10 minutes for Acme
        (1, 90_000, 93_600, 0),  // outside the window below
    ];
    for (client_id, start, end, offset) in rows {
        let session = Session {
            id: 0,
            client_id,
            start_timestamp: Timestamp::new(start),
            end_timestamp: Some(Timestamp::new(end)),
            note: None,
            offset_minutes: offset,
        };
        store_session(&mut store, &session).unwrap();
    }
    store
}

#[test]
fn range_query_is_inclusive_and_ascending() {
    let store = seeded_store();
    let found = get_sessions_within_range(&store, Timestamp::new(2_000), Timestamp::new(5_000));
    let starts: Vec<i64> = found.iter().map(|s| s.start_timestamp.seconds).collect();
    assert_eq!(starts, vec![2_000, 5_000]);
    // A session that starts before the window but ends inside it is excluded.
    assert!(!starts.contains(&1_000));
}

#[test]
fn summarize_totals_each_client_and_the_grand_total() {
    let store = seeded_store();
    let now = Timestamp::new(100_000);
    let summary = summarize(&store, Timestamp::new(0), Timestamp::new(10_000), now);

    let mut per: Vec<(i32, i64)> = summary
        .per_client
        .iter()
        .map(|e| (e.client_id, e.minutes))
        .collect();
    per.sort();
    assert_eq!(per, vec![(1, 75), (2, 20)]);
    assert_eq!(summary.total_minutes, 95);

    // The grand total is the sum of the per-client totals.
    let recomputed: i64 = summary.per_client.iter().map(|e| e.minutes).sum();
    assert_eq!(summary.total_minutes, recomputed);
}

#[test]
fn summarize_counts_an_open_session_up_to_now() {
    let mut store = seeded_store();
    let open = Session {
        id: 0,
        client_id: 2,
        start_timestamp: Timestamp::new(6_000),
        end_timestamp: None,
        note: None,
        offset_minutes: 0,
    };
    store_session(&mut store, &open).unwrap();

    let now = Timestamp::new(6_000 + 1_200);
    let summary = summarize(&store, Timestamp::new(5_500), Timestamp::new(7_000), now);
    assert_eq!(summary.per_client.len(), 1);
    assert_eq!(summary.per_client[0].client_id, 2);
    assert_eq!(summary.per_client[0].minutes, 20);
    assert_eq!(summary.total_minutes, 20);
}

#[test]
fn an_empty_window_sums_to_nothing() {
    let store = seeded_store();
    let summary = summarize(
        &store,
        Timestamp::new(20_000),
        Timestamp::new(30_000),
        Timestamp::new(100_000),
    );
    assert!(summary.per_client.is_empty());
    assert_eq!(summary.total_minutes, 0);
}

#[test]
fn summary_window_dispatches_to_the_three_ranges() {
    let noon_tuesday = Timestamp::new(1718107200); // 2024-06-11T12:00:00Z
    let (day_start, day_end) = summary_window(SummaryRange::Daily, noon_tuesday);
    assert_eq!((day_start.seconds, day_end.seconds), (1718064000, 1718150400));

    let (week_start, week_end) = summary_window(SummaryRange::Weekly, noon_tuesday);
    assert_eq!(
        (week_start.seconds, week_end.seconds),
        (1717804800, 1718409599)
    );

    let (month_start, month_end) = summary_window(SummaryRange::Monthly, noon_tuesday);
    assert_eq!(
        (month_start.seconds, month_end.seconds),
        (1717200000, 1719791999)
    );
}
