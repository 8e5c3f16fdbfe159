use flatdata::text::{chars_of, schema_diff, str_eq};

#[test]
fn texts_are_equal_when_all_characters_are() {
    assert!(str_eq("", ""));
    assert!(str_eq("struct Meta { }", "struct Meta { }"));
    assert!(!str_eq("struct Meta { }", "struct Meta {}"));
    assert!(!str_eq("abc", "abd"));
    assert!(!str_eq("abc", "ab"));
    assert!(!str_eq("", " "));
    assert!(str_eq("h\u{e9}llo \u{4e16}\u{754c}", "h\u{e9}llo \u{4e16}\u{754c}"));
    assert!(!str_eq("h\u{e9}llo", "hello"));
}

#[test]
fn chars_of_gives_each_character_once() {
    assert_eq!(chars_of(""), Vec::<char>::new());
    assert_eq!(chars_of("a\nb"), vec!['a', '\n', 'b']);
    assert_eq!(chars_of("\u{e9}\u{4e16}!"), vec!['\u{e9}', '\u{4e16}', '!']);
}

#[test]
fn the_diff_shows_the_lines_that_differ() {
    assert_eq!(schema_diff("a\nb\nc", "a\nx\nc"), "--- stored\nb\n+++ expected\nx\n");
    assert_eq!(
        schema_diff("first\nsecond line\nthird", "first\nsecond word\nthird"),
        "--- stored\nsecond line\n+++ expected\nsecond word\n"
    );
    assert_eq!(
        schema_diff("one\ntwo\nthree\nfour", "one\n2\n3\nfour"),
        "--- stored\ntwo\nthree\n+++ expected\n2\n3\n"
    );
}

#[test]
fn the_diff_shows_lines_that_only_one_text_has() {
    assert_eq!(schema_diff("a\nc", "a\nb\nc"), "--- stored\nc\n+++ expected\nb\nc\n");
    assert_eq!(schema_diff("a\nb\nc", "a\nc"), "--- stored\nb\nc\n+++ expected\nc\n");
    assert_eq!(schema_diff("", "x"), "--- stored\n\n+++ expected\nx\n");
    assert_eq!(schema_diff("x\ny", ""), "--- stored\nx\ny\n+++ expected\n\n");
    assert_eq!(schema_diff("a", "a\nb"), "--- stored\na\n+++ expected\na\nb\n");
    assert_eq!(schema_diff("b", "a\nb"), "--- stored\nb\n+++ expected\na\nb\n");
}

#[test]
fn the_diff_is_never_empty() {
    assert_eq!(schema_diff("", ""), "--- stored\n\n+++ expected\n\n");
    assert_eq!(schema_diff("a\nb", "a\nb"), "--- stored\nb\n+++ expected\nb\n");
    assert!(!schema_diff("x", "y").is_empty());
}

#[test]
fn the_diff_keeps_characters_of_several_bytes_whole() {
    assert_eq!(
        schema_diff("n\u{e9}e : u32;\nx", "n\u{e9}\u{e9} : u32;\nx"),
        "--- stored\nn\u{e9}e : u32;\n+++ expected\nn\u{e9}\u{e9} : u32;\n"
    );
    assert_eq!(
        schema_diff("\u{4e16}1", "\u{4e16}2"),
        "--- stored\n\u{4e16}1\n+++ expected\n\u{4e16}2\n"
    );
}
