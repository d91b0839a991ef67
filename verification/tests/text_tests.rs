use link_crawler::text::{chars_of, contains, decimal_string, split_text};

#[test]
fn decimal_string_matches_format() {
    assert_eq!(decimal_string(0), "0");
    assert_eq!(decimal_string(7), "7");
    assert_eq!(decimal_string(10), "10");
    assert_eq!(decimal_string(1234567890), "1234567890");
    assert_eq!(decimal_string(u64::MAX), format!("{}", u64::MAX));
}

#[test]
fn contains_finds_substrings() {
    assert!(contains("https://example.com", "https://"));
    assert!(contains("abc", ""));
    assert!(contains("", ""));
    assert!(!contains("ab", "abc"));
    assert!(!contains("/page#top", "//"));
    assert!(contains("/page#top", "#"));
    assert!(contains("héllo wörld", "ö"));
}

#[test]
fn chars_of_keeps_every_character() {
    assert_eq!(chars_of("aé∂"), vec!['a', 'é', '∂']);
}

#[test]
fn split_text_keeps_empty_pieces() {
    assert_eq!(split_text(".png\r\n.jpg", "\r\n"), vec![".png", ".jpg"]);
    assert_eq!(split_text(".png\r\n", "\r\n"), vec![".png", ""]);
    assert_eq!(split_text("", "\r\n"), vec![""]);
    assert_eq!(split_text("\r\n\r\n", "\r\n"), vec!["", "", ""]);
    assert_eq!(split_text("a\nb", "\r\n"), vec!["a\nb"]);
    assert_eq!(split_text("aaa", "aa"), vec!["", "a"]);
}

#[test]
fn split_then_join_gives_back_the_text() {
    for text in ["a\r\nb\r\n", "", "\r\n", "x"] {
        let pieces = split_text(text, "\r\n");
        assert_eq!(pieces.join("\r\n"), text);
        assert_eq!(pieces, text.split("\r\n").collect::<Vec<_>>());
    }
}
