use link_crawler::address::{get_link, get_link_checked, origin_from_parts, parse_address};

#[test]
fn parse_address_adds_https() {
    assert_eq!(parse_address("example.com".to_string()), "https://example.com");
    assert_eq!(parse_address("".to_string()), "https://");
}

#[test]
fn parse_address_keeps_a_scheme() {
    assert_eq!(parse_address("http://example.com".to_string()), "http://example.com");
    assert_eq!(parse_address("https://example.com/a".to_string()), "https://example.com/a");
    assert_eq!(parse_address("go to http://x".to_string()), "go to http://x");
}

#[test]
fn parse_address_twice_is_once() {
    for raw in ["example.com", "http://a.b", "", "ftp://host"] {
        let once = parse_address(raw.to_string());
        assert_eq!(parse_address(once.clone()), once);
    }
}

#[test]
fn get_link_gives_the_origin() {
    assert_eq!(get_link(&"https://www.example.com/path/page?q=1".to_string()), "https://www.example.com");
    assert_eq!(get_link(&"http://host:8080/x".to_string()), "http://host:8080");
    assert_eq!(get_link_checked(&"http://host:8080/x".to_string()), Some("http://host:8080".to_string()));
}

#[test]
fn get_link_refuses_what_lacks_scheme_or_authority() {
    assert_eq!(get_link_checked(&"/relative/path".to_string()), None);
    assert_eq!(get_link_checked(&"not a uri at all".to_string()), None);
}

#[test]
fn origin_from_parts_needs_both_parts() {
    assert_eq!(origin_from_parts(Some((Some("https".to_string()), Some("a.example".to_string())))), Some("https://a.example".to_string()));
    assert_eq!(origin_from_parts(Some((None, Some("a.example".to_string())))), None);
    assert_eq!(origin_from_parts(Some((Some("https".to_string()), None))), None);
    assert_eq!(origin_from_parts(None), None);
}
