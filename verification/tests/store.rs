use secret_book_server::db::Event;
use secret_book_server::db::SecretError;
use secret_book_server::db::Store;

fn ev(event_type: &str, data_id: &str, content: &str) -> Event {
    Event {
        id: format!("evt-{}", data_id),
        name: format!("name-{}", data_id),
        date: "2024-01-01T00:00:00".to_string(),
        event_type: event_type.to_string(),
        data_id: data_id.to_string(),
        data_type: "secret".to_string(),
        content: content.to_string(),
        desc: format!("desc-{}", data_id),
        from: "client-1".to_string(),
    }
}

#[test]
fn empty_store_answers_every_read_empty() {
    let store = Store::new();
    assert_eq!(store.fetch_states("secret".to_string(), None).len(), 0);
    assert_eq!(store.fetch_events(None).len(), 0);
    assert_eq!(store.fetch_state("example.com".to_string()).len(), 0);
}

#[test]
fn create_appears_in_listing() {
    let mut store = Store::new();
    store.push_event(ev("create", "x", "payload")).unwrap();
    let rows = store.fetch_states("secret".to_string(), None);
    assert_eq!(rows.len(), 1);
    assert_eq!(rows[0].id, "x");
    assert_eq!(rows[0].name, "name-x");
    assert_eq!(rows[0].content, "payload");
    assert_eq!(rows[0].desc, "desc-x");
    assert_eq!(rows[0].data_type, "secret");
}

#[test]
fn update_overwrites_in_place() {
    let mut store = Store::new();
    store.push_event(ev("create", "x", "first")).unwrap();
    store.push_event(ev("update", "x", "second")).unwrap();
    let rows = store.fetch_states("secret".to_string(), None);
    assert_eq!(rows.len(), 1);
    assert_eq!(rows[0].id, "x");
    assert_eq!(rows[0].content, "second");
}

#[test]
fn create_over_existing_row_silently_overwrites() {
    let mut store = Store::new();
    store.push_event(ev("create", "x", "first")).unwrap();
    store.push_event(ev("create", "x", "again")).unwrap();
    let rows = store.fetch_states("secret".to_string(), None);
    assert_eq!(rows.len(), 1);
    assert_eq!(rows[0].content, "again");
}

#[test]
fn delete_removes_the_row() {
    let mut store = Store::new();
    store.push_event(ev("create", "x", "payload")).unwrap();
    store.push_event(ev("delete", "x", "payload")).unwrap();
    let rows = store.fetch_states("secret".to_string(), None);
    assert_eq!(rows.len(), 0);
}

#[test]
fn delete_of_absent_row_succeeds_twice() {
    let mut store = Store::new();
    assert!(store.push_event(ev("delete", "ghost", "c")).is_ok());
    assert!(store.push_event(ev("delete", "ghost", "c")).is_ok());
    let rows = store.fetch_states("secret".to_string(), None);
    assert_eq!(rows.len(), 0);
    // both deletes were still logged
    let log = store.fetch_events(None);
    assert_eq!(log.len(), 2);
}

#[test]
fn delete_log_row_keys_on_the_event_id() {
    let mut store = Store::new();
    let mut e = ev("delete", "x", "c");
    e.id = "the-event-id".to_string();
    store.push_event(e).unwrap();
    let log = store.fetch_events(None);
    assert_eq!(log.len(), 1);
    assert_eq!(log[0].data_id, "the-event-id");
}

#[test]
fn create_log_row_keys_on_the_data_id() {
    let mut store = Store::new();
    let mut e = ev("create", "x", "c");
    e.id = "the-event-id".to_string();
    store.push_event(e).unwrap();
    let log = store.fetch_events(None);
    assert_eq!(log.len(), 1);
    assert_eq!(log[0].data_id, "x");
}

#[test]
fn rejected_kind_fails_and_mutates_nothing() {
    let mut store = Store::new();
    let r = store.push_event(ev("archive", "x", "payload"));
    match r {
        Err(SecretError::InvalidEventType(m)) => {
            assert_eq!(m, "archive is not a valid types");
        }
        _ => panic!("expected InvalidEventType"),
    }
    assert_eq!(store.fetch_states("secret".to_string(), None).len(), 0);
    assert_eq!(store.fetch_events(None).len(), 0);
}

#[test]
fn pushed_event_round_trips_through_the_codec() {
    let mut store = Store::new();
    store.push_event(ev("update", "x", "payload")).unwrap();
    let log = store.fetch_events(None);
    assert_eq!(log.len(), 1);
    assert!(matches!(
        secret_book_server::db::Types::parse(&log[0].event_type),
        Ok(secret_book_server::db::Types::UPDATE)
    ));
}

#[test]
fn log_rows_take_a_fresh_36_character_id() {
    let mut store = Store::new();
    let mut e = ev("create", "x", "payload");
    e.id = "short".to_string();
    store.push_event(e).unwrap();
    let log = store.fetch_events(None);
    assert_eq!(log.len(), 1);
    assert_eq!(log[0].id.chars().count(), 36);
    assert_ne!(log[0].id, "short");
}

#[test]
fn log_row_carries_snapshot_and_originator() {
    let mut store = Store::new();
    store.push_event(ev("create", "x", "payload")).unwrap();
    let log = store.fetch_events(None);
    assert_eq!(log.len(), 1);
    assert_eq!(log[0].name, "name-x");
    assert_eq!(log[0].event_type, "create");
    assert_eq!(log[0].content, "payload");
    assert_eq!(log[0].desc, "desc-x");
    assert_eq!(log[0].from, "client-1");
    assert_eq!(log[0].data_type, "secret");
}
