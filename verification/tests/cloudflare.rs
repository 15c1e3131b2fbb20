use henosis::cloudflare::{hostname_from_pattern, managed_name, require_owned_name, CloudflareError};

#[test]
fn route_hostname_discards_scheme_wildcard_and_path() {
    assert_eq!(hostname_from_pattern("https://*.example.com/api/*"), "example.com");
}

#[test]
fn managed_names_are_provider_safe_and_owned() {
    let name = managed_name("Front_end/Production", "07070707");
    assert!(name.starts_with("henosis-"));
    assert!(name.len() <= 63);
    assert!(name
        .bytes()
        .all(|byte| byte.is_ascii_lowercase() || byte.is_ascii_digit() || byte == b'-'));
    assert_eq!(name, "henosis-ront-end--roduction-07070707");
}

#[test]
fn unmanaged_names_are_refused() {
    assert!(require_owned_name("henosis-api").is_ok());
    match require_owned_name("api") {
        Err(CloudflareError::Config(message)) => assert_eq!(
            message,
            "refusing to mutate unmanaged Cloudflare resource \"api\"; managed names start with henosis-"
        ),
        other => panic!("unexpected {other:?}"),
    }
}
