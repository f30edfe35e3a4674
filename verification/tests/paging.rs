use secret_book_server::db::Event;
use secret_book_server::db::Store;

fn ev(date: &str, data_id: &str, data_type: &str) -> Event {
    Event {
        id: format!("evt-{}", data_id),
        name: format!("name-{}", data_id),
        date: date.to_string(),
        event_type: "create".to_string(),
        data_id: data_id.to_string(),
        data_type: data_type.to_string(),
        content: "c".to_string(),
        desc: "d".to_string(),
        from: "f".to_string(),
    }
}

#[test]
fn states_pages_cap_at_ten_and_enumerate_once() {
    let mut store = Store::new();
    for i in 0..12 {
        let id = format!("id-{:02}", i);
        store.push_event(ev("2024-01-01", &id, "secret")).unwrap();
    }
    let page1 = store.fetch_states("secret".to_string(), None);
    assert_eq!(page1.len(), 10);
    for w in page1.windows(2) {
        assert!(w[0].id < w[1].id);
    }
    let cursor = page1.last().unwrap().id.clone();
    assert_eq!(cursor, "id-09");
    let page2 = store.fetch_states("secret".to_string(), Some(cursor));
    assert_eq!(page2.len(), 2);
    assert_eq!(page2[0].id, "id-10");
    assert_eq!(page2[1].id, "id-11");
    let page3 = store.fetch_states("secret".to_string(), Some(page2[1].id.clone()));
    assert_eq!(page3.len(), 0);
}

#[test]
fn states_listing_filters_by_category() {
    let mut store = Store::new();
    store.push_event(ev("2024-01-01", "a", "secret")).unwrap();
    store.push_event(ev("2024-01-01", "b", "note")).unwrap();
    let secrets = store.fetch_states("secret".to_string(), None);
    assert_eq!(secrets.len(), 1);
    assert_eq!(secrets[0].id, "a");
    let notes = store.fetch_states("note".to_string(), None);
    assert_eq!(notes.len(), 1);
    assert_eq!(notes[0].id, "b");
    assert_eq!(store.fetch_states("absent".to_string(), None).len(), 0);
}

#[test]
fn states_cursor_is_strictly_exclusive() {
    let mut store = Store::new();
    store.push_event(ev("2024-01-01", "a", "secret")).unwrap();
    store.push_event(ev("2024-01-01", "b", "secret")).unwrap();
    let rows = store.fetch_states("secret".to_string(), Some("a".to_string()));
    assert_eq!(rows.len(), 1);
    assert_eq!(rows[0].id, "b");
}

#[test]
fn events_pages_cap_at_ten_and_advance_by_date() {
    let mut store = Store::new();
    for i in 0..12 {
        let id = format!("id-{:02}", i);
        let date = format!("2024-01-01T00:00:{:02}", i);
        store.push_event(ev(&date, &id, "secret")).unwrap();
    }
    let page1 = store.fetch_events(None);
    assert_eq!(page1.len(), 10);
    for w in page1.windows(2) {
        assert!(w[0].date < w[1].date);
    }
    let cursor = page1.last().unwrap().date.clone();
    let page2 = store.fetch_events(Some(cursor));
    assert_eq!(page2.len(), 2);
    assert_eq!(page2[0].date, "2024-01-01T00:00:10");
    assert_eq!(page2[1].date, "2024-01-01T00:00:11");
    let page3 = store.fetch_events(Some(page2[1].date.clone()));
    assert_eq!(page3.len(), 0);
}

#[test]
fn events_replay_is_ordered_by_date_not_arrival() {
    let mut store = Store::new();
    store.push_event(ev("2024-03-01", "late", "secret")).unwrap();
    store.push_event(ev("2024-01-01", "early", "secret")).unwrap();
    let log = store.fetch_events(None);
    assert_eq!(log.len(), 2);
    assert_eq!(log[0].data_id, "early");
    assert_eq!(log[1].data_id, "late");
}
