use timber::clock::now_timestamp;
use timber::models::{Client, Session};
use timber::store::{
    Store, StoreError, commit_client_changes, commit_session_changes, get_active_session,
    get_client_by_id, get_client_id_by_name, get_session_by_id, list_clients, list_sessions,
    remove_client, remove_session, store_client, store_session,
};

fn insert_test_client(store: &mut Store) -> i32 {
    let client = Client {
        id: 0,
        name: "Alice".into(),
        note: Some("test client".into()),
    };

    store_client(store, &client).expect("This is a test and should not fail")
}

fn insert_test_session(store: &mut Store) -> i32 {
    insert_test_client(store); // We need a client to insert a session
    let session = Session {
        client_id: 1,
        id: 0,
        start_timestamp: now_timestamp(),
        end_timestamp: Option::None,
        note: Option::Some("testing".to_string()),
        offset_minutes: 5,
    };

    store_session(store, &session).unwrap()
}

#[test]
fn test_store_client() {
    let mut store = Store::new();

    let client_id = insert_test_client(&mut store);
    assert!(client_id > 0);
}

#[test]
fn test_get_client() {
    let mut store = Store::new();

    let client_id = insert_test_client(&mut store);
    assert!(get_client_by_id(&store, client_id).unwrap().id == client_id) // Assert we pull the right client
}

#[test]
fn test_store_session() {
    let mut store = Store::new();

    let session_id = insert_test_session(&mut store);

    assert!(session_id > 0);
}

#[test]
fn test_get_session() {
    let mut store = Store::new();

    let session_id = insert_test_session(&mut store);
    assert!(get_client_by_id(&store, session_id).unwrap().id == session_id) // Assert we pull the right client
}

#[test]
fn test_get_unfinished_session_empty_db() {
    let store = Store::new();

    assert!(get_active_session(&store).is_none());
}

#[test]
fn test_get_unfinished_session() {
    let mut store = Store::new();
    let session_id = insert_test_session(&mut store);
    match get_active_session(&store) {
        Some(sesh) => assert!(sesh.id == session_id),
        None => panic!("Unexpected!"),
    };
}

#[test]
fn duplicate_client_name_is_a_no_op() {
    let mut store = Store::new();
    let first = store_client(
        &mut store,
        &Client {
            id: 0,
            name: "Acme".into(),
            note: None,
        },
    );
    assert_eq!(first, Some(1));
    let clients_before = list_clients(&store).len();
    let next_before = store.next_client_id;

    let second = store_client(
        &mut store,
        &Client {
            id: 0,
            name: "Acme".into(),
            note: Some("another note".into()),
        },
    );
    assert_eq!(second, None);
    assert_eq!(list_clients(&store).len(), clients_before);
    assert_eq!(store.next_client_id, next_before);
}

#[test]
fn remove_client_without_sessions_succeeds() {
    let mut store = Store::new();
    let id = insert_test_client(&mut store);
    assert!(remove_client(&mut store, id).is_ok());
    assert!(matches!(
        get_client_by_id(&store, id),
        Err(StoreError::NotFound)
    ));
}

#[test]
fn remove_referenced_client_fails_and_keeps_rows() {
    let mut store = Store::new();
    let session_id = insert_test_session(&mut store);
    let client_id = 1;
    assert_eq!(
        remove_client(&mut store, client_id),
        Err(StoreError::ReferencedByForeignRows)
    );
    assert!(get_client_by_id(&store, client_id).is_ok());
    assert!(get_session_by_id(&store, session_id).is_ok());
}

#[test]
fn remove_missing_client_reports_not_found() {
    let mut store = Store::new();
    assert_eq!(remove_client(&mut store, 7), Err(StoreError::NotFound));
}

#[test]
fn get_client_id_by_name_finds_clients() {
    let mut store = Store::new();
    insert_test_client(&mut store);
    assert_eq!(get_client_id_by_name(&store, "Alice".into()), Some(1));
    assert_eq!(get_client_id_by_name(&store, "Bob".into()), None);
}

#[test]
fn store_session_rejects_missing_client() {
    let mut store = Store::new();
    let session = Session {
        id: 0,
        client_id: 3,
        start_timestamp: now_timestamp(),
        end_timestamp: None,
        note: None,
        offset_minutes: 0,
    };
    assert_eq!(store_session(&mut store, &session), Err(StoreError::NotFound));
}

#[test]
fn store_session_rejects_second_open_session() {
    let mut store = Store::new();
    insert_test_session(&mut store);
    let another = Session {
        id: 0,
        client_id: 1,
        start_timestamp: now_timestamp(),
        end_timestamp: None,
        note: None,
        offset_minutes: 0,
    };
    assert_eq!(
        store_session(&mut store, &another),
        Err(StoreError::AlreadyActive)
    );
}

#[test]
fn remove_session_deletes_the_row() {
    let mut store = Store::new();
    let session_id = insert_test_session(&mut store);
    remove_session(&mut store, session_id);
    assert!(matches!(
        get_session_by_id(&store, session_id),
        Err(StoreError::NotFound)
    ));
}

#[test]
fn list_sessions_orders_newest_first() {
    let mut store = Store::new();
    insert_test_client(&mut store);
    for (start, end) in [(100, 200), (500, 600), (300, 400)] {
        let session = Session {
            id: 0,
            client_id: 1,
            start_timestamp: timber::time::Timestamp::new(start),
            end_timestamp: Some(timber::time::Timestamp::new(end)),
            note: None,
            offset_minutes: 0,
        };
        store_session(&mut store, &session).unwrap();
    }
    let all = list_sessions(&store, None);
    let starts: Vec<i64> = all.iter().map(|s| s.start_timestamp.seconds).collect();
    assert_eq!(starts, vec![500, 300, 100]);

    let of_client = list_sessions(&store, Some(1));
    assert_eq!(of_client.len(), 3);
    let of_other = list_sessions(&store, Some(2));
    assert!(of_other.is_empty());
}

#[test]
fn commit_session_changes_replaces_the_row() {
    let mut store = Store::new();
    let session_id = insert_test_session(&mut store);
    let mut session = get_session_by_id(&store, session_id).unwrap();
    session.end_timestamp = Some(timber::time::Timestamp::new(123456));
    session.offset_minutes = -10;
    assert!(commit_session_changes(&mut store, &session).is_ok());
    let stored = get_session_by_id(&store, session_id).unwrap();
    assert_eq!(stored.offset_minutes, -10);
    assert_eq!(stored.end_timestamp.map(|t| t.seconds), Some(123456));
}

#[test]
fn commit_client_changes_respects_name_uniqueness() {
    let mut store = Store::new();
    store_client(
        &mut store,
        &Client {
            id: 0,
            name: "Acme".into(),
            note: None,
        },
    )
    .unwrap();
    store_client(
        &mut store,
        &Client {
            id: 0,
            name: "Globex".into(),
            note: None,
        },
    )
    .unwrap();
    let renamed = Client {
        id: 2,
        name: "Acme".into(),
        note: None,
    };
    assert_eq!(
        commit_client_changes(&mut store, &renamed),
        Err(StoreError::AlreadyExists)
    );
    let retitled = Client {
        id: 2,
        name: "Globex LLC".into(),
        note: Some("renamed".into()),
    };
    assert!(commit_client_changes(&mut store, &retitled).is_ok());
    assert_eq!(get_client_by_id(&store, 2).unwrap().name, "Globex LLC");
}
