use treecopy::paths::{destination_path, is_blank_char, normalize_destination_root, relative_path};

#[test]
fn source_root_is_taken_off_the_front() {
    assert_eq!(relative_path("/src/a/b.txt", "/src"), "/a/b.txt");
    assert_eq!(relative_path("/src", "/src"), "");
    assert_eq!(relative_path("src/a", "src/"), "a");
}

#[test]
fn only_the_leading_root_is_removed() {
    assert_eq!(relative_path("/a/b/a/c", "/a"), "/b/a/c");
    assert_eq!(relative_path("/x/src/y", "/src"), "/x/src/y");
}

#[test]
fn path_without_the_root_is_kept() {
    assert_eq!(relative_path("/other/file", "/src"), "/other/file");
    assert_eq!(relative_path("/sr", "/src"), "/sr");
}

#[test]
fn empty_root_removes_nothing() {
    assert_eq!(relative_path("/a/b", ""), "/a/b");
    assert_eq!(relative_path("", ""), "");
}

#[test]
fn surrounding_whitespace_is_trimmed() {
    assert_eq!(relative_path("/src/ a b \t\n", "/src/"), "a b");
    assert_eq!(relative_path("/src/\u{a0}x\u{3000}", "/src/"), "x");
    assert_eq!(relative_path("/src/   ", "/src/"), "");
    assert_eq!(relative_path("  /src/a", "/src"), "/src/a");
}

#[test]
fn inner_whitespace_and_other_characters_stay() {
    assert_eq!(relative_path("/src/a  b/c\u{e9}", "/src"), "/a  b/c\u{e9}");
    assert_eq!(relative_path("/src/\u{200b}x", "/src/"), "\u{200b}x");
}

#[test]
fn relative_path_agrees_with_trim_after_strip() {
    let cases = [
        ("/root/one", "/root"),
        ("/root/ two ", "/root/"),
        ("/root\u{2003}/three\u{2028}", "/root"),
        ("unrelated ", "/root"),
    ];
    for (absolute, root) in cases {
        let expected = absolute.strip_prefix(root).unwrap_or(absolute).trim();
        assert_eq!(relative_path(absolute, root), expected);
    }
}

#[test]
fn blank_characters_are_those_of_the_white_space_property() {
    for code in 0..=0x11_0000u32 {
        if let Some(c) = char::from_u32(code) {
            assert_eq!(is_blank_char(c), c.is_whitespace(), "U+{:04X}", code);
        }
    }
}

#[test]
fn destination_path_appends_without_normalising() {
    assert_eq!(destination_path("/dst", "/a/b"), "/dst/a/b");
    assert_eq!(destination_path("/dst", "a"), "/dsta");
    assert_eq!(destination_path("/dst/", "/a"), "/dst//a");
    assert_eq!(destination_path("", ""), "");
}

#[test]
fn one_trailing_separator_is_removed_from_the_root() {
    assert_eq!(normalize_destination_root("/dst/"), "/dst");
    assert_eq!(normalize_destination_root("/dst"), "/dst");
    assert_eq!(normalize_destination_root("/dst//"), "/dst/");
    assert_eq!(normalize_destination_root("/"), "");
    assert_eq!(normalize_destination_root(""), "");
    assert_eq!(normalize_destination_root("/d\u{e9}/"), "/d\u{e9}");
}
