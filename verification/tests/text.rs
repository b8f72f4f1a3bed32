use kyuko_bot::text::{escape, str_contains};

#[test]
fn escape_breaks_mentions() {
    assert_eq!(&escape("#tag"), "# tag");
    assert_eq!(&escape("a@b$c"), "a@ b$ c");
    assert_eq!(&escape("＃全角＠も"), "＃ 全角＠ も");
    assert_eq!(&escape("plain"), "plain");
    assert_eq!(&escape(""), "");
}

#[test]
fn substring_search() {
    assert!(str_contains("解析学I", "解析"));
    assert!(str_contains("解析学I", ""));
    assert!(str_contains("abc", "abc"));
    assert!(!str_contains("abc", "abd"));
    assert!(!str_contains("ab", "abc"));
    assert!(str_contains("aab", "ab"));
}
