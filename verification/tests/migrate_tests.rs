use timber::migrate::{
    DbImage, RawSession, apply_migrations, get_schema_version, init_schema, store_from_image,
    update_schema_version,
};
use timber::models::Client;
use timber::time::Timestamp;

fn version_one_image() -> DbImage {
    DbImage {
        schema_version: 1,
        clients: vec![
            Client {
                id: 1,
                name: "Acme".into(),
                note: None,
            },
            Client {
                id: 2,
                name: "Globex".into(),
                note: Some("second".into()),
            },
        ],
        sessions: vec![
            RawSession {
                id: 1,
                client_id: 1,
                start_timestamp: Timestamp::new(1000),
                end_timestamp: Some(Timestamp::new(2000)),
                note: None,
                offset_minutes: None,
            },
            RawSession {
                id: 2,
                client_id: 2,
                start_timestamp: Timestamp::new(3000),
                end_timestamp: None,
                note: Some("open".into()),
                offset_minutes: None,
            },
        ],
    }
}

#[test]
fn init_schema_seeds_version_one_once() {
    let mut fresh = DbImage {
        schema_version: 0,
        clients: vec![],
        sessions: vec![],
    };
    init_schema(&mut fresh);
    assert_eq!(get_schema_version(&fresh), 1);

    let mut migrated = version_one_image();
    update_schema_version(&mut migrated, 2);
    init_schema(&mut migrated);
    assert_eq!(get_schema_version(&migrated), 2);
}

#[test]
fn migrating_a_version_one_store_defaults_every_offset_to_zero() {
    let mut img = version_one_image();
    apply_migrations(&mut img);
    assert_eq!(get_schema_version(&img), 2);
    assert_eq!(img.sessions.len(), 2);
    for row in &img.sessions {
        assert_eq!(row.offset_minutes, Some(0));
    }
    // The rest of each row is untouched.
    assert_eq!(img.sessions[0].start_timestamp.seconds, 1000);
    assert_eq!(img.sessions[1].note.as_deref(), Some("open"));
    assert_eq!(img.clients.len(), 2);
}

#[test]
fn rerunning_migrations_changes_nothing() {
    let mut img = version_one_image();
    apply_migrations(&mut img);
    let version = get_schema_version(&img);
    let sessions = img.sessions.clone();
    let clients = img.clients.clone();

    apply_migrations(&mut img);
    assert_eq!(get_schema_version(&img), version);
    assert_eq!(img.sessions, sessions);
    assert_eq!(img.clients, clients);
}

#[test]
fn a_migrated_image_loads_into_a_store() {
    let mut img = version_one_image();
    apply_migrations(&mut img);
    let store = store_from_image(&img).expect("the image should load");
    assert_eq!(store.clients.len(), 2);
    assert_eq!(store.sessions.len(), 2);
    assert_eq!(store.sessions[0].offset_minutes, 0);
    assert_eq!(store.next_client_id, 3);
    assert_eq!(store.next_session_id, 3);
}

#[test]
fn an_unmigrated_image_is_refused() {
    let img = version_one_image();
    assert!(store_from_image(&img).is_none());
}

#[test]
fn an_image_with_two_open_sessions_is_refused() {
    let mut img = version_one_image();
    apply_migrations(&mut img);
    img.sessions[0].end_timestamp = None;
    assert!(store_from_image(&img).is_none());
}

#[test]
fn an_image_with_a_dangling_session_is_refused() {
    let mut img = version_one_image();
    apply_migrations(&mut img);
    img.sessions[0].client_id = 9;
    assert!(store_from_image(&img).is_none());
}

#[test]
fn an_image_with_duplicate_client_names_is_refused() {
    let mut img = version_one_image();
    apply_migrations(&mut img);
    img.clients[1].name = "Acme".into();
    assert!(store_from_image(&img).is_none());
}
