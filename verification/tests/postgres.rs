use ntl::postgres::{PostgresConfig, UNIMPLEMENTED};

#[test]
fn the_unavailability_message_names_the_alternative() {
    // Whoever picks this backend should learn what to do instead, not just
    // that something failed.
    assert!(UNIMPLEMENTED.contains("sqlite"));
    assert!(UNIMPLEMENTED.contains("openntl.org"));
}

#[test]
fn default_schema_is_not_public() {
    assert_eq!(PostgresConfig::at("postgres://localhost/ntl").schema, "ntl");
}

#[test]
fn a_connection_has_defaults() {
    let config = PostgresConfig::at("postgres://localhost/ntl");
    assert_eq!(config.url, "postgres://localhost/ntl");
    assert_eq!(config.max_connections, 16);
}
