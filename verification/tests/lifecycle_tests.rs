use timber::lifecycle::{end_session, patch_session, start_session, switch_session};
use timber::models::Client;
use timber::store::{Store, StoreError, get_active_session, store_client};
use timber::time::Timestamp;

fn store_with_clients(names: &[&str]) -> Store {
    let mut store = Store::new();
    for name in names {
        store_client(
            &mut store,
            &Client {
                id: 0,
                name: (*name).into(),
                note: None,
            },
        )
        .unwrap();
    }
    store
}

#[test]
fn second_start_fails_with_already_active_regardless_of_client() {
    let mut store = store_with_clients(&["A", "B"]);
    let t0 = Timestamp::new(1_000_000);
    assert!(start_session(&mut store, 1, None, t0).is_ok());

    // An existing client is refused...
    assert_eq!(
        start_session(&mut store, 2, None, Timestamp::new(1_000_100)),
        Err(StoreError::AlreadyActive)
    );
    // ...and so is one that does not even exist.
    assert_eq!(
        start_session(&mut store, 99, None, Timestamp::new(1_000_200)),
        Err(StoreError::AlreadyActive)
    );
}

#[test]
fn start_for_missing_client_fails_with_not_found() {
    let mut store = store_with_clients(&["A"]);
    assert_eq!(
        start_session(&mut store, 42, None, Timestamp::new(5)),
        Err(StoreError::NotFound)
    );
}

#[test]
fn end_reports_exact_elapsed_time() {
    let mut store = store_with_clients(&["C"]);
    let t0 = Timestamp::new(10_000);
    start_session(&mut store, 1, None, t0).unwrap();

    let t1 = Timestamp::new(10_000 + 3_600);
    let delta = end_session(&mut store, t1).unwrap();
    assert_eq!(delta.seconds, 3_600);
    assert!(delta.seconds >= 0);
    assert_eq!(delta.num_minutes(), 60);
    assert!(get_active_session(&store).is_none());
}

#[test]
fn end_without_active_session_fails() {
    let mut store = store_with_clients(&["C"]);
    assert_eq!(
        end_session(&mut store, Timestamp::new(7)),
        Err(StoreError::NoActiveSession)
    );
}

#[test]
fn patch_without_active_session_fails() {
    let mut store = store_with_clients(&["C"]);
    assert_eq!(
        patch_session(&mut store, 10),
        Err(StoreError::NoActiveSession)
    );
}

#[test]
fn patch_moves_the_duration_by_exactly_its_minutes() {
    let start = Timestamp::new(50_000);
    let end = Timestamp::new(50_000 + 1_800);

    // Ending an unpatched session...
    let mut plain = store_with_clients(&["C"]);
    start_session(&mut plain, 1, None, start).unwrap();
    let unpatched = end_session(&mut plain, end).unwrap();

    // ...and ending the same session patched by m minutes.
    let m = 25;
    let mut patched = store_with_clients(&["C"]);
    start_session(&mut patched, 1, None, start).unwrap();
    patch_session(&mut patched, m).unwrap();
    let with_patch = end_session(&mut patched, end).unwrap();

    assert_eq!(with_patch.seconds, unpatched.seconds + 60 * m as i64);
}

#[test]
fn patch_accumulates_on_the_active_session() {
    let mut store = store_with_clients(&["C"]);
    start_session(&mut store, 1, None, Timestamp::new(100)).unwrap();
    patch_session(&mut store, 15).unwrap();
    patch_session(&mut store, -40).unwrap();
    let active = get_active_session(&store).unwrap();
    assert_eq!(active.offset_minutes, -25);
}

#[test]
fn duration_can_be_negative_after_a_large_negative_patch() {
    let mut store = store_with_clients(&["C"]);
    start_session(&mut store, 1, None, Timestamp::new(1000)).unwrap();
    patch_session(&mut store, -60).unwrap();
    let delta = end_session(&mut store, Timestamp::new(1000 + 600)).unwrap();
    assert_eq!(delta.seconds, 600 - 3600);
    assert_eq!(delta.num_minutes(), -50);
}

#[test]
fn switch_ends_the_open_session_and_starts_anew() {
    let mut store = store_with_clients(&["A", "B"]);
    start_session(&mut store, 1, None, Timestamp::new(200)).unwrap();
    let new_id = switch_session(&mut store, 2, None, Timestamp::new(500)).unwrap();
    let active = get_active_session(&store).unwrap();
    assert_eq!(active.id, new_id);
    assert_eq!(active.client_id, 2);
    assert_eq!(active.start_timestamp.seconds, 500);
}

#[test]
fn switch_with_nothing_active_degrades_to_a_plain_start() {
    let mut store = store_with_clients(&["A"]);
    assert!(switch_session(&mut store, 1, None, Timestamp::new(300)).is_ok());
    assert_eq!(get_active_session(&store).unwrap().client_id, 1);
}

#[test]
fn scenario_patch_then_end_totals_105_minutes() {
    // Start a session for client "Acme" at T0; 90 minutes later patch by
    // -15; 30 minutes after that, end: 90 + 30 - 15 = 105 minutes = 1h 45m.
    let mut store = store_with_clients(&["Acme"]);
    let t0 = Timestamp::new(1_000_000);
    start_session(&mut store, 1, Some("spec work".into()), t0).unwrap();

    // 90 minutes pass; the patch itself takes effect whenever it is issued.
    patch_session(&mut store, -15).unwrap();

    let t_end = Timestamp::new(1_000_000 + (90 + 30) * 60);
    let delta = end_session(&mut store, t_end).unwrap();
    assert_eq!(delta.num_minutes(), 105);

    let (hours, minutes) = timber::time::split_minutes(delta.num_minutes() as u32);
    assert_eq!((hours, minutes), (1, 45));
}
