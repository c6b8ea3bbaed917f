use fadex::parser::{
    extract_links, find_element_by_id, get_elements_by_cls, get_meta_and_title, meta_from_matches,
    page_links, prefixed, present_values, resolve_all,
};

const PAGE: &str = r#"<html><head><title>Hello World</title>
<meta name="description" content="A page"></head>
<body><div id="main"><p class="c">one</p><p class="c">two</p></div>
<a href="https://a.com/x">a</a><a href="/rel">r</a><a href="mailto:m@x.com">m</a>
<a href="http://b.com/">b</a><a>no href</a></body></html>"#;

#[test]
fn meta_and_title() {
    let (title, description) = get_meta_and_title(PAGE);
    assert_eq!(title, Some("Hello World".to_string()));
    assert_eq!(description, Some("A page".to_string()));
}

#[test]
fn meta_and_title_missing() {
    assert_eq!(get_meta_and_title("<p>x</p>"), (None, None));
}

#[test]
fn meta_from_matches_picks_first() {
    let r = meta_from_matches(
        Some(vec!["t1".to_string(), "t2".to_string()]),
        Some(vec![None, Some("d".to_string())]),
    );
    assert_eq!(r, (Some("t1".to_string()), None));
    assert_eq!(meta_from_matches(Some(vec![]), None), (None, None));
}

#[test]
fn extract_links_returns_raw_hrefs() {
    assert_eq!(
        extract_links(PAGE),
        vec![
            "https://a.com/x".to_string(),
            "/rel".to_string(),
            "mailto:m@x.com".to_string(),
            "http://b.com/".to_string()
        ]
    );
    assert!(extract_links("").is_empty());
}

#[test]
fn extract_links_keeps_relative_links() {
    assert_eq!(
        extract_links("<a href='/a'>a</a><a href='https://other.com/b'>b</a>"),
        vec!["/a".to_string(), "https://other.com/b".to_string()]
    );
}

#[test]
fn elements_keep_attribute_order() {
    let html = r#"<p class="a" id="x" title="t">v</p>"#;
    let expected = vec![r#"<p class="a" id="x" title="t">v</p>"#.to_string()];
    assert_eq!(get_elements_by_cls(html, "a"), expected);
    assert_eq!(get_elements_by_cls(html, "a"), expected);
    assert_eq!(find_element_by_id(html, "x"), Some(expected[0].clone()));
}

#[test]
fn element_by_id() {
    let found = find_element_by_id(PAGE, "main").unwrap();
    assert!(found.starts_with("<div id=\"main\">"));
    assert_eq!(find_element_by_id(PAGE, "absent"), None);
    assert_eq!(find_element_by_id(PAGE, "1bad id"), None);
}

#[test]
fn elements_by_class() {
    assert_eq!(
        get_elements_by_cls(PAGE, "c"),
        vec!["<p class=\"c\">one</p>".to_string(), "<p class=\"c\">two</p>".to_string()]
    );
    assert!(get_elements_by_cls(PAGE, "none").is_empty());
    assert!(get_elements_by_cls(PAGE, "").is_empty());
}

#[test]
fn selector_prefixes() {
    assert_eq!(prefixed("#", "main"), "#main");
    assert_eq!(prefixed(".", ""), ".");
}

#[test]
fn present_values_in_order() {
    let v = vec![None, Some("a".to_string()), None, Some("b".to_string())];
    assert_eq!(present_values(&v), vec!["a".to_string(), "b".to_string()]);
}

#[test]
fn page_links_resolves_against_base() {
    assert_eq!(
        page_links(PAGE, "https://x.com/dir/"),
        vec![
            "https://a.com/x".to_string(),
            "https://x.com/rel".to_string(),
            "http://b.com/".to_string()
        ]
    );
}

#[test]
fn resolve_all_filters() {
    let hrefs = vec!["../y".to_string(), "javascript:void(0)".to_string(), "z#f".to_string()];
    assert_eq!(
        resolve_all(&hrefs, "https://x.com/dir/"),
        vec!["https://x.com/y".to_string(), "https://x.com/dir/z".to_string()]
    );
}
