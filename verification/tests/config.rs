use secret_book_server::configurations::ApplicationUrl;
use secret_book_server::configurations::Settings;
use secret_book_server::route::FetchStateParam;
use secret_book_server::route::FetchStatesParam;

#[test]
fn default_settings_hold_the_documented_values() {
    let s = Settings::default();
    assert_eq!(s.application.host, "localhost");
    assert_eq!(s.application.port, 12345);
    assert_eq!(s.database.url, ".secret/secret.db");
    assert_eq!(s.log.dir, ".secret/logs/");
    assert_eq!(s.log.level, "info");
}

#[test]
fn query_parameters_carry_plain_values() {
    let p = FetchStatesParam { data_type: "secret".to_string(), last_sync_id: None };
    assert_eq!(p.data_type, "secret");
    assert!(p.last_sync_id.is_none());
    let q = FetchStateParam { host: "example.com".to_string() };
    assert_eq!(q.host, "example.com");
    let u = ApplicationUrl("localhost:12345".to_string());
    assert_eq!(u.0, "localhost:12345");
}
