use matterless_view::open::{scheme_of, worth_opening};

/// The web, and only the web.
#[test]
fn only_a_web_link_is_worth_opening() {
    assert!(worth_opening("https://example.invalid/thing"));
    assert!(worth_opening("http://example.invalid/thing?a=1&b=2"));
    assert!(worth_opening("HTTPS://EXAMPLE.INVALID/"));
    assert!(!worth_opening("file:///c:/windows/system32"));
    assert!(!worth_opening("javascript:alert(1)"));
    assert!(!worth_opening("ms-settings://x"));
    assert!(!worth_opening("mailto:someone@example.invalid"));
    assert!(!worth_opening("example.invalid"));
    assert!(!worth_opening(""));
}

/// A newline inside a link is not a link.
#[test]
fn a_control_character_disqualifies_it() {
    assert!(!worth_opening("https://example.invalid/\nsomething"));
    assert!(!worth_opening("https://example.invalid/\u{0}"));
    assert!(!worth_opening("https://example.invalid/\r\n"));
}

/// The characters a shell would have eaten are ordinary here.
#[test]
fn a_query_string_survives_intact() {
    let awkward = "https://example.invalid/a?x=1&y=%20two&z=a b";
    assert!(worth_opening(awkward));
}

#[test]
fn the_scheme_is_what_comes_before_the_first_mark() {
    assert_eq!(scheme_of("https://a://b"), Some("https"));
    assert_eq!(scheme_of("://x"), Some(""));
    assert_eq!(scheme_of("mailto:x"), None);
    assert_eq!(scheme_of(""), None);
}

#[test]
fn a_delete_or_a_c1_control_is_a_control_too() {
    assert!(!worth_opening("https://example.invalid/\u{7f}"));
    assert!(!worth_opening("https://example.invalid/\u{85}"));
    assert!(worth_opening("https://example.invalid/\u{a0}"));
}

#[test]
fn a_scheme_in_mixed_case_is_still_the_web() {
    assert!(worth_opening("HtTp://example.invalid"));
    assert!(!worth_opening("httpx://example.invalid"));
    assert!(!worth_opening("htt://example.invalid"));
}
