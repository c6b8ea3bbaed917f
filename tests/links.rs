use fadex::link::{canonicalize, is_crawlable_scheme, parse_canonical, resolve_link, sanitize_link, strip_fragment};

#[test]
fn sanitize_rejects_mailto() {
    assert_eq!(sanitize_link("mailto:a@b.com"), None);
}

#[test]
fn sanitize_strips_fragment() {
    assert_eq!(sanitize_link("https://x.com/a#frag"), Some("https://x.com/a".to_string()));
}

#[test]
fn sanitize_rejects_javascript() {
    assert_eq!(sanitize_link("javascript:void(0)"), None);
}

#[test]
fn sanitize_rejects_unparsable() {
    assert_eq!(sanitize_link("not a url"), None);
    assert_eq!(sanitize_link(""), None);
}

#[test]
fn sanitize_normalizes_serialization() {
    assert_eq!(sanitize_link("HTTP://X.com"), Some("http://x.com/".to_string()));
    assert_eq!(sanitize_link("https://x.com/p?q=1"), Some("https://x.com/p?q=1".to_string()));
}

#[test]
fn resolve_relative_parent() {
    assert_eq!(resolve_link("../y", "https://x.com/dir/"), Some("https://x.com/y".to_string()));
}

#[test]
fn resolve_absolute_path_and_other_host() {
    assert_eq!(resolve_link("/a", "https://x.com"), Some("https://x.com/a".to_string()));
    assert_eq!(
        resolve_link("https://other.com/b#top", "https://x.com"),
        Some("https://other.com/b".to_string())
    );
}

#[test]
fn resolve_drops_other_schemes_and_bad_base() {
    assert_eq!(resolve_link("mailto:a@b.com", "https://x.com/"), None);
    assert_eq!(resolve_link("/a", "not a base"), None);
}

#[test]
fn strip_fragment_cuts_at_first_hash() {
    assert_eq!(strip_fragment("a#b#c"), "a");
    assert_eq!(strip_fragment("abc"), "abc");
    assert_eq!(strip_fragment("#x"), "");
    assert_eq!(strip_fragment(""), "");
}

#[test]
fn crawlable_schemes() {
    assert!(is_crawlable_scheme("http"));
    assert!(is_crawlable_scheme("https"));
    assert!(!is_crawlable_scheme("ftp"));
    assert!(!is_crawlable_scheme("HTTP"));
}

#[test]
fn canonicalize_exact() {
    assert_eq!(canonicalize("https", "https://x.com/a#f"), Some("https://x.com/a".to_string()));
    assert_eq!(canonicalize("mailto", "mailto:a@b.com"), None);
}

#[test]
fn parse_canonical_outcomes() {
    assert_eq!(parse_canonical("https://x.com/#f"), Ok(Some("https://x.com/".to_string())));
    assert_eq!(parse_canonical("ftp://x.com/"), Ok(None));
    assert_eq!(parse_canonical("/relative"), Err(url::ParseError::RelativeUrlWithoutBase));
}
