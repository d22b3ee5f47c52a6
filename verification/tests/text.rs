use terminox::text::{decimal_string, replace_char, trim_str};

#[test]
fn trim_matches_std() {
    for s in ["", "  ", " a ", "\u{85}x\u{2029}", "\u{200b}x", "a b", "\t\r\n"] {
        assert_eq!(trim_str(s), s.trim());
    }
}

#[test]
fn decimal_matches_to_string() {
    for n in [0u64, 7, 10, 99, 100, 12345, u64::MAX] {
        assert_eq!(decimal_string(n), n.to_string());
    }
}

#[test]
fn replace_matches_std() {
    assert_eq!(replace_char("a/b//c", '/', "\\"), "a\\b\\\\c");
    assert_eq!(replace_char("", 'x', "yy"), "");
    assert_eq!(replace_char("xax", 'x', "yy"), "yyayy");
}
