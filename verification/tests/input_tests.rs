use timber::input::{UserInput, handle_user_client_input, parse_input};
use timber::models::Client;
use timber::store::{Store, store_client};
use timber::views::SessionView;

#[test]
fn numeric_strings_parse_as_ids() {
    assert_eq!(parse_input("7"), Ok(UserInput::ById(7)));
    assert_eq!(parse_input("-3"), Ok(UserInput::ById(-3)));
    assert_eq!(parse_input("+42"), Ok(UserInput::ById(42)));
    assert_eq!(parse_input("2147483647"), Ok(UserInput::ById(i32::MAX)));
    assert_eq!(parse_input("-2147483648"), Ok(UserInput::ById(i32::MIN)));
}

#[test]
fn other_strings_parse_as_names() {
    assert_eq!(
        parse_input("Acme"),
        Ok(UserInput::ByName("Acme".to_string()))
    );
    assert_eq!(parse_input(""), Ok(UserInput::ByName(String::new())));
    assert_eq!(parse_input("12a"), Ok(UserInput::ByName("12a".to_string())));
    assert_eq!(parse_input("-"), Ok(UserInput::ByName("-".to_string())));
    // Numbers outside the 32-bit range fall back to names.
    assert_eq!(
        parse_input("2147483648"),
        Ok(UserInput::ByName("2147483648".to_string()))
    );
    assert_eq!(
        parse_input("-2147483649"),
        Ok(UserInput::ByName("-2147483649".to_string()))
    );
    assert_eq!(
        parse_input("99999999999999999999"),
        Ok(UserInput::ByName("99999999999999999999".to_string()))
    );
}

#[test]
fn client_references_resolve_to_ids() {
    let mut store = Store::new();
    store_client(
        &mut store,
        &Client {
            id: 0,
            name: "Acme".into(),
            note: None,
        },
    )
    .unwrap();

    assert_eq!(
        handle_user_client_input(&store, Some(UserInput::ById(5))),
        Some(5)
    );
    assert_eq!(
        handle_user_client_input(&store, Some(UserInput::ByName("Acme".into()))),
        Some(1)
    );
    assert_eq!(
        handle_user_client_input(&store, Some(UserInput::ByName("Globex".into()))),
        None
    );
    assert_eq!(handle_user_client_input(&store, None), None);
}

#[test]
fn session_views_carry_the_client_name() {
    let mut store = Store::new();
    store_client(
        &mut store,
        &Client {
            id: 0,
            name: "Acme".into(),
            note: None,
        },
    )
    .unwrap();
    let session = timber::models::Session {
        id: 0,
        client_id: 1,
        start_timestamp: timber::time::Timestamp::new(100),
        end_timestamp: None,
        note: None,
        offset_minutes: 0,
    };
    let id = timber::store::store_session(&mut store, &session).unwrap();
    let stored = timber::store::get_session_by_id(&store, id).unwrap();
    let view = SessionView::from_session(&store, stored).unwrap();
    assert_eq!(view.client_name, "Acme");
    assert_eq!(view.session.id, id);

    let orphan = timber::models::Session {
        id: 9,
        client_id: 42,
        start_timestamp: timber::time::Timestamp::new(100),
        end_timestamp: None,
        note: None,
        offset_minutes: 0,
    };
    assert!(SessionView::from_session(&store, orphan).is_err());
}
