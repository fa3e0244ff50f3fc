use chat_relay::AllowedOrigins;

fn bytes(s: &str) -> Vec<u8> {
    s.as_bytes().to_vec()
}

#[test]
fn allowlist_single_host() {
    let g = AllowedOrigins::from_config(&bytes("example.com"));
    assert!(g.is_allowed(Some(&bytes("https://example.com"))));
    assert!(g.is_allowed(Some(&bytes("http://example.com"))));
    assert!(!g.is_allowed(Some(&bytes("https://evil.com"))));
    assert!(!g.is_allowed(None));
}

#[test]
fn allow_all_wildcard() {
    let g = AllowedOrigins::from_config(&bytes("*"));
    assert!(g.is_allowed(Some(&bytes("https://anything.at.all"))));
    assert!(g.is_allowed(None));
}

#[test]
fn allow_all_empty_config() {
    let g = AllowedOrigins::from_config(&bytes(""));
    assert!(g.is_allowed(None));
    let g2 = AllowedOrigins::from_config(&bytes("   "));
    assert!(g2.is_allowed(Some(&bytes("https://x.y"))));
    let g3 = AllowedOrigins::from_config(&bytes(",,"));
    assert!(g3.is_allowed(None));
}

#[test]
fn allow_all_constructor() {
    let g = AllowedOrigins::allow_all();
    assert!(g.is_allowed(None));
    assert!(g.is_allowed(Some(&bytes("https://whatever"))));
}

#[test]
fn origin_match_is_case_insensitive() {
    let g = AllowedOrigins::from_config(&bytes("EXAMPLE.com"));
    assert!(g.is_allowed(Some(&bytes("https://Example.COM"))));
    assert!(g.is_allowed(Some(&bytes("HTTP://example.com"))));
}

#[test]
fn entry_with_scheme_matches_exactly() {
    let g = AllowedOrigins::from_config(&bytes("http://example.com"));
    assert!(g.is_allowed(Some(&bytes("http://example.com"))));
    assert!(g.is_allowed(Some(&bytes("HTTP://EXAMPLE.COM"))));
    assert!(!g.is_allowed(Some(&bytes("https://example.com"))));
}

#[test]
fn comma_separated_entries_are_trimmed() {
    let g = AllowedOrigins::from_config(&bytes(" a.com , b.com ,,"));
    assert!(g.is_allowed(Some(&bytes("https://a.com"))));
    assert!(g.is_allowed(Some(&bytes("http://b.com"))));
    assert!(!g.is_allowed(Some(&bytes("https://c.com"))));
    assert!(!g.is_allowed(None));
}
