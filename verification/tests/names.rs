use henosis::names::{
    parse_address, parse_kind, require_protocol, validate_api_name, validate_kind_name, validate_logical_name,
};

#[test]
fn api_names_accept_camel_case_while_logical_names_stay_strict() {
    for name in ["apiUrl", "URL2", "restUrl"] {
        validate_api_name(name, "API name").expect("camel-case API name should be valid");
    }
    for name in ["api_url", "api-url", "2api", ""] {
        assert!(validate_api_name(name, "API name").is_err(), "{name:?}");
    }
    validate_logical_name("source_component", "component name").expect("logical names retain underscores");
    assert!(validate_logical_name("sourceComponent", "component name").is_err());
}

#[test]
fn name_errors_quote_the_value() {
    let error = validate_logical_name("Bad", "component name").unwrap_err();
    assert_eq!(
        error.message,
        "invalid component name \"Bad\"; expected 1-63 lowercase letters, digits, underscores, or hyphens, beginning with a letter"
    );
    let error = validate_api_name("a_b", "input name").unwrap_err();
    assert_eq!(error.message, "invalid input name \"a_b\"; expected 1-63 ASCII letters or digits, beginning with a letter");
}

#[test]
fn names_are_at_most_sixty_three_characters() {
    let long = "a".repeat(63);
    assert!(validate_logical_name(&long, "name").is_ok());
    assert!(validate_api_name(&long, "name").is_ok());
    let longer = "a".repeat(64);
    assert!(validate_logical_name(&longer, "name").is_err());
    assert!(validate_api_name(&longer, "name").is_err());
}

#[test]
fn kind_names_have_two_segments() {
    assert!(validate_kind_name("supabase/schema").is_ok());
    assert!(validate_kind_name("cloudflare/worker-2").is_ok());
    for bad in ["supabase", "supabase/", "/schema", "a/b/c", "Supabase/schema", "a/2b"] {
        assert!(validate_kind_name(bad).is_err(), "{bad:?}");
    }
    assert_eq!(
        validate_kind_name("a/b/c").unwrap_err().message,
        "invalid resource kind \"a/b/c\"; expected namespace/kind with lowercase letters, digits, and hyphens"
    );
}

#[test]
fn kinds_carry_a_non_zero_version() {
    let kind = parse_kind("supabase/schema@1").unwrap();
    assert_eq!(kind.name, "supabase/schema");
    assert_eq!(kind.version, 1);
    assert_eq!(parse_kind("cloudflare/worker@+12").unwrap().version, 12);
    assert_eq!(parse_kind("cloudflare/worker@4294967295").unwrap().version, u32::MAX);
    assert_eq!(
        parse_kind("supabase/schema").unwrap_err().message,
        "resource kind \"supabase/schema\" has no version suffix"
    );
    assert_eq!(
        parse_kind("supabase/schema@0").unwrap_err().message,
        "invalid resource kind version \"supabase/schema@0\""
    );
    assert!(parse_kind("supabase/schema@4294967296").is_err());
    assert!(parse_kind("supabase/schema@x").is_err());
    assert!(parse_kind("supabase/schema@").is_err());
    assert!(parse_kind("Supabase/schema@1").is_err());
}

#[test]
fn addresses_split_at_the_last_slash() {
    let address = parse_address("supabase/schema@1/catalog").unwrap();
    assert_eq!(address.kind.name, "supabase/schema");
    assert_eq!(address.kind.version, 1);
    assert_eq!(address.name, "catalog");
    assert_eq!(parse_address("catalog").unwrap_err().message, "invalid resource address \"catalog\"");
}

#[test]
fn only_the_current_protocol_is_spoken() {
    assert!(require_protocol(1).is_ok());
    assert_eq!(require_protocol(2).unwrap_err().message, "result protocol version 2 does not match 1");
}
