use mdtree::meta::split_meta;

fn s(x: &str) -> String {
    x.to_string()
}

#[test]
fn front_matter_is_split_off() {
    let (meta, body) = split_meta("---\ntitle: A Title\nauthor:me\n---\n# Head\ntext");
    assert_eq!(meta, vec![(s("title"), s("A Title")), (s("author"), s("me"))]);
    assert_eq!(body, "# Head\ntext");
}

#[test]
fn later_keys_overwrite() {
    let (meta, body) = split_meta("---\na: 1\nb: 2\na: 3\n---\nrest");
    assert_eq!(meta, vec![(s("a"), s("3")), (s("b"), s("2"))]);
    assert_eq!(body, "rest");
}

#[test]
fn no_delimiter_keeps_text() {
    let text = "# Head\n\ntext: not meta\n";
    let (meta, body) = split_meta(text);
    assert!(meta.is_empty());
    assert_eq!(body, text);
}

#[test]
fn leading_blank_lines_are_skipped() {
    let (meta, body) = split_meta("\n   \n---\nk: v\n\n---\nbody");
    assert_eq!(meta, vec![(s("k"), s("v"))]);
    assert_eq!(body, "body");
}

#[test]
fn unterminated_block_takes_everything() {
    let (meta, body) = split_meta("---\nk: v\nother");
    assert_eq!(meta, vec![(s("k"), s("v")), (s("other"), s(""))]);
    assert_eq!(body, "");
}

#[test]
fn line_without_colon_is_key_untrimmed() {
    let (meta, _) = split_meta("---\n  flag \n x : y : z \n---\n");
    assert_eq!(meta, vec![(s("  flag "), s("")), (s("x"), s("y : z"))]);
}

#[test]
fn empty_text() {
    let (meta, body) = split_meta("");
    assert!(meta.is_empty());
    assert_eq!(body, "");
}

#[test]
fn body_keeps_trailing_newline() {
    let (meta, body) = split_meta("---\n---\nx\n");
    assert!(meta.is_empty());
    assert_eq!(body, "x\n");
}

#[test]
fn body_keeps_crlf_text() {
    let (meta, body) = split_meta("---\r\nk: v\r\n---\r\na\r\n\r\nb\r\n");
    assert_eq!(meta, vec![(s("k"), s("v"))]);
    assert_eq!(body, "a\r\n\r\nb\r\n");
}

#[test]
fn body_keeps_inner_blank_lines_and_spacing() {
    let (_, body) = split_meta("---\na: 1\n---\n\n  x  \n\n\n");
    assert_eq!(body, "\n  x  \n\n\n");
}

#[test]
fn closing_delimiter_without_newline_gives_empty_body() {
    let (meta, body) = split_meta("---\na: 1\n---");
    assert_eq!(meta, vec![(s("a"), s("1"))]);
    assert_eq!(body, "");
}

#[test]
fn keys_are_unique() {
    let (meta, _) = split_meta("---\nk: 1\nj: 2\nk: 3\nj: 4\nk: 5\n---\n");
    assert_eq!(meta, vec![(s("k"), s("5")), (s("j"), s("4"))]);
}
