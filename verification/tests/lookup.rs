use secret_book_server::db::Event;
use secret_book_server::db::Store;

fn ev(data_id: &str, name: &str, desc: &str) -> Event {
    Event {
        id: format!("evt-{}", data_id),
        name: name.to_string(),
        date: "2024-01-01".to_string(),
        event_type: "create".to_string(),
        data_id: data_id.to_string(),
        data_type: "secret".to_string(),
        content: "c".to_string(),
        desc: desc.to_string(),
        from: "f".to_string(),
    }
}

#[test]
fn finds_by_substring_of_name_or_desc() {
    let mut store = Store::new();
    store.push_event(ev("a", "mail service", "x")).unwrap();
    store.push_event(ev("b", "x", "the mail host")).unwrap();
    store.push_event(ev("c", "other", "other")).unwrap();
    let rows = store.fetch_state("mail".to_string());
    assert_eq!(rows.len(), 2);
    assert_eq!(rows[0].id, "a");
    assert_eq!(rows[1].id, "b");
}

#[test]
fn falls_back_to_parent_domains() {
    let mut store = Store::new();
    store.push_event(ev("a", "login for example.com", "x")).unwrap();
    // no row mentions mail.corp.example.com or corp.example.com;
    // stripping twice reaches example.com, which matches
    let rows = store.fetch_state("mail.corp.example.com".to_string());
    assert_eq!(rows.len(), 1);
    assert_eq!(rows[0].id, "a");
}

#[test]
fn prefers_the_most_specific_match() {
    let mut store = Store::new();
    store.push_event(ev("a", "corp.example.com portal", "x")).unwrap();
    store.push_event(ev("b", "example.com site", "x")).unwrap();
    let rows = store.fetch_state("mail.corp.example.com".to_string());
    // one strip reaches corp.example.com, which already matches both
    // the portal row (directly) and nothing else
    assert_eq!(rows.len(), 1);
    assert_eq!(rows[0].id, "a");
}

#[test]
fn stops_at_two_labels_even_if_unmatched() {
    let mut store = Store::new();
    store.push_event(ev("a", "unrelated", "unrelated")).unwrap();
    let rows = store.fetch_state("mail.corp.example.com".to_string());
    assert_eq!(rows.len(), 0);
}

#[test]
fn empty_host_matches_every_row() {
    let mut store = Store::new();
    store.push_event(ev("a", "n", "d")).unwrap();
    store.push_event(ev("b", "m", "e")).unwrap();
    // the empty string is a substring of every name
    let rows = store.fetch_state(String::new());
    assert_eq!(rows.len(), 2);
}

#[test]
fn two_label_host_is_not_stripped() {
    let mut store = Store::new();
    // would match "org" after a strip, but no strip may happen
    store.push_event(ev("a", "org", "x")).unwrap();
    let rows = store.fetch_state("missing.org".to_string());
    assert_eq!(rows.len(), 0);
}
