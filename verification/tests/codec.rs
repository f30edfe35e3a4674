use secret_book_server::db::Types;

#[test]
fn parse_accepts_the_three_kinds() {
    assert!(matches!(Types::parse("create"), Ok(Types::CREATE)));
    assert!(matches!(Types::parse("update"), Ok(Types::UPDATE)));
    assert!(matches!(Types::parse("delete"), Ok(Types::DELETE)));
}

#[test]
fn parse_is_case_sensitive_and_names_the_offender() {
    let err = Types::parse("CREATE").unwrap_err();
    assert_eq!(err, "CREATE is not a valid types");
    let err = Types::parse("archive").unwrap_err();
    assert_eq!(err, "archive is not a valid types");
    assert!(Types::parse("").is_err());
}

#[test]
fn as_str_round_trips_through_parse() {
    for t in [Types::CREATE, Types::UPDATE, Types::DELETE] {
        let s = t.as_str();
        let back = Types::parse(s).unwrap();
        assert_eq!(back, t);
    }
}

#[test]
fn as_str_serializes_lowercase() {
    assert_eq!(Types::CREATE.as_str(), "create");
    assert_eq!(Types::UPDATE.as_str(), "update");
    assert_eq!(Types::DELETE.as_str(), "delete");
}
