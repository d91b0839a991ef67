use link_crawler::links::{ignored_extensions, LinkRegistry};

const PAGE: &str = r#"<a href="/a">A</a><a href="/b">B</a><a href="/a">again</a>
<a href="https://ext.example/x">e</a><a href="//cdn.example/y">c</a>
<a href="javascript:void(0)">j</a><a href="/c#frag">f</a><a href="/img.png">i</a>"#;

fn s(x: &str) -> String {
    x.to_string()
}

#[test]
fn parse_body_keeps_new_paths_on_the_site() {
    let mut reg = LinkRegistry::new();
    let links = reg.parse_body(&s("https://site.example"), &s(PAGE), &vec![s(".png")]);
    assert_eq!(links, vec![s("https://site.example/a"), s("https://site.example/b")]);
    assert_eq!(reg.entries(), vec![s("/a"), s("/b")]);
    assert!(reg.contains(&s("/a")));
    assert!(!reg.contains(&s("/c#frag")));
}

#[test]
fn parse_body_without_extensions_keeps_files() {
    let mut reg = LinkRegistry::new();
    let links = reg.parse_body(&s("p"), &s(PAGE), &vec![]);
    assert_eq!(links, vec![s("p/a"), s("p/b"), s("p/img.png")]);
}

#[test]
fn parse_body_with_an_empty_extension_keeps_nothing() {
    let mut reg = LinkRegistry::new();
    let links = reg.parse_body(&s("p"), &s(PAGE), &vec![s("")]);
    assert!(links.is_empty());
    assert_eq!(reg.len(), 0);
}

#[test]
fn parse_body_of_a_page_without_links() {
    let mut reg = LinkRegistry::new();
    let links = reg.parse_body(&s("p"), &s("<p>href=nothing</p>"), &vec![]);
    assert!(links.is_empty());
}

#[test]
fn a_path_is_followed_only_once() {
    let mut reg = LinkRegistry::new();
    let first = reg.parse_body(&s("p"), &s(r#"<a href="/a"></a>"#), &vec![]);
    assert_eq!(first, vec![s("p/a")]);
    let second = reg.parse_body(&s("q"), &s(r#"<a href="/a"></a><a href="/d"></a>"#), &vec![]);
    assert_eq!(second, vec![s("q/d")]);
}

#[test]
fn record_page_reports_counts() {
    let mut reg = LinkRegistry::new();
    let (links, stat) = reg.record_page(&s("https://site.example"), &s(PAGE), &vec![s(".png")]);
    assert_eq!(links.len(), 2);
    assert_eq!(stat.count, 123);
    assert_eq!(stat.data_string, "Found 2 links; added 2; links in vector 4");
    assert_eq!(
        stat.link_vector,
        vec![s("/a"), s("/b"), s("https://site.example/a"), s("https://site.example/b")]
    );
    let (links2, stat2) = reg.record_page(&s("https://site.example"), &s(PAGE), &vec![]);
    assert_eq!(links2, vec![s("https://site.example/img.png")]);
    assert_eq!(stat2.data_string, "Found 1 links; added 1; links in vector 6");
}

#[test]
fn record_links_counts_only_new_ones() {
    let mut reg = LinkRegistry::new();
    let added = reg.record_links(&vec![s("a"), s("b"), s("a")]);
    assert_eq!(added, 2);
    let added = reg.record_links(&vec![s("b"), s("c")]);
    assert_eq!(added, 1);
    assert_eq!(reg.entries(), vec![s("a"), s("b"), s("c")]);
}

#[test]
fn ignored_extensions_are_split_by_lines() {
    assert_eq!(ignored_extensions(&s(".png\r\n.jpg\r\n")), vec![s(".png"), s(".jpg"), s("")]);
    assert_eq!(ignored_extensions(&s("")), vec![s("")]);
}

#[test]
fn select_links_takes_found_targets() {
    let mut reg = LinkRegistry::new();
    let caps = vec![s("/x"), s("/y"), s("/x"), s("mailto:a#b"), s("/z.pdf")];
    let links = reg.select_links(&s("base"), &caps, &vec![s(".pdf")]);
    assert_eq!(links, vec![s("base/x"), s("base/y")]);
    let again = reg.select_links(&s("base"), &caps, &vec![]);
    assert_eq!(again, vec![s("base/z.pdf")]);
}

#[test]
fn href_targets_follow_the_pattern() {
    let mut reg = LinkRegistry::new();
    // a line feed before the closing quote: no match there, the search goes on
    let body = "href=\"/broken\nstill\" then href=\"/ok\" href=\"\" and href=\"/a href=\"/b\"";
    let links = reg.parse_body(&s("p"), &s(body), &vec![]);
    assert_eq!(links, vec![s("p/ok"), s("p"), s("p/a href=")]);
}

#[test]
fn more_ignored_extensions_keep_fewer_links() {
    let mut r1 = LinkRegistry::new();
    let mut r2 = LinkRegistry::new();
    let few = r1.parse_body(&s("p"), &s(PAGE), &vec![s(".png")]);
    let more = r2.parse_body(&s("p"), &s(PAGE), &vec![s(".png"), s("/b")]);
    assert_eq!(few, vec![s("p/a"), s("p/b")]);
    assert_eq!(more, vec![s("p/a")]);
}
