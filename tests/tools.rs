use map_model::tools::{nice_country_name, same_str, version};

#[test]
fn country_names() {
    assert_eq!(nice_country_name("at"), "Austria");
    assert_eq!(nice_country_name("us"), "United States of America");
    assert_eq!(nice_country_name("nz"), "New Zealand");
    assert_eq!(nice_country_name("xx"), "xx");
    assert_eq!(nice_country_name(""), "");
}

#[test]
fn version_is_dev() {
    assert_eq!(version(), "dev");
}

#[test]
fn string_equality() {
    assert!(same_str("ab", "ab"));
    assert!(!same_str("ab", "abc"));
    assert!(!same_str("ab", "ac"));
}
