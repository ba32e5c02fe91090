use mdtree::lexer::{get_list_level, is_ordered_ident, lex, LineKind};

fn kinds(text: &str) -> Vec<LineKind> {
    lex(text).unwrap()
}

fn s(x: &str) -> String {
    x.to_string()
}

#[test]
fn classify_header_one() {
    assert_eq!(kinds("# Title"), vec![LineKind::Header(1, s("Title"))]);
}

#[test]
fn classify_header_three_words_joined() {
    assert_eq!(kinds("###   A    B  "), vec![LineKind::Header(3, s("A B"))]);
    assert_eq!(kinds("### A B"), vec![LineKind::Header(3, s("A B"))]);
}

#[test]
fn classify_rule() {
    assert_eq!(kinds("---"), vec![LineKind::Horizontal]);
    assert_eq!(kinds("  --- trailing"), vec![LineKind::Horizontal]);
}

#[test]
fn classify_unordered_levels() {
    assert_eq!(kinds("- item"), vec![LineKind::Unordered(0, s("item"))]);
    assert_eq!(kinds("    - item"), vec![LineKind::Unordered(1, s("item"))]);
    assert_eq!(kinds("       + x y"), vec![LineKind::Unordered(1, s("x y"))]);
    assert_eq!(kinds("        * z"), vec![LineKind::Unordered(2, s("z"))]);
}

#[test]
fn classify_ordered() {
    assert_eq!(kinds("1. first"), vec![LineKind::Ordered(0, s("first"))]);
    assert_eq!(kinds("    12. second"), vec![LineKind::Ordered(1, s("second"))]);
}

#[test]
fn classify_quote_and_empty() {
    assert_eq!(kinds("> quoted"), vec![LineKind::Quote(s("quoted"))]);
    assert_eq!(kinds("   \t "), vec![LineKind::Empty]);
    assert_eq!(kinds(""), Vec::<LineKind>::new());
    assert_eq!(kinds("a\n\nb"), vec![LineKind::Plain(s("a")), LineKind::Empty, LineKind::Plain(s("b"))]);
}

#[test]
fn classify_plain_is_trimmed_not_rejoined() {
    assert_eq!(kinds("  hello   world  "), vec![LineKind::Plain(s("hello   world"))]);
}

#[test]
fn unrecognized_markers_are_plain() {
    assert_eq!(kinds("-+ x"), vec![LineKind::Plain(s("-+ x"))]);
    assert_eq!(kinds("1.2. x"), vec![LineKind::Plain(s("1.2. x"))]);
    assert_eq!(kinds(". x"), vec![LineKind::Plain(s(". x"))]);
    assert_eq!(kinds(">x"), vec![LineKind::Plain(s(">x"))]);
    assert_eq!(kinds("#x"), vec![LineKind::Plain(s("#x"))]);
}

#[test]
fn crlf_line_endings() {
    assert_eq!(
        kinds("# A\r\ntext\r\n"),
        vec![LineKind::Header(1, s("A")), LineKind::Plain(s("text"))]
    );
}

#[test]
fn ordered_ident_rule() {
    assert!(is_ordered_ident("1."));
    assert!(is_ordered_ident("0042."));
    assert!(is_ordered_ident("123456789012345678901234567890."));
    assert!(!is_ordered_ident("."));
    assert!(!is_ordered_ident("1"));
    assert!(!is_ordered_ident("+1."));
    assert!(!is_ordered_ident("1a."));
}

#[test]
fn list_level_counts_spaces() {
    assert_eq!(get_list_level("- a"), 0);
    assert_eq!(get_list_level("   - a"), 0);
    assert_eq!(get_list_level("    - a"), 1);
    assert_eq!(get_list_level("         - a"), 2);
    assert_eq!(get_list_level("\t- a"), 0);
}

#[test]
fn reconstruction_is_fixed_point() {
    for line in ["  ##   Two   words ", ">   quoted    text", "  plain   words  here "] {
        let k = kinds(line);
        let rebuilt = match &k[0] {
            LineKind::Header(l, t) => format!("{} {}", "#".repeat(*l), t),
            LineKind::Quote(t) => format!("> {}", t),
            LineKind::Plain(t) => t.clone(),
            other => panic!("unexpected {:?}", other),
        };
        assert_eq!(kinds(&rebuilt), k);
    }
}

#[test]
fn classify_empty_line() {
    assert_eq!(mdtree::lexer::classify_line(&Vec::new()), LineKind::Empty);
    assert_eq!(kinds("\n"), vec![LineKind::Empty]);
    assert_eq!(kinds("x\n\n"), vec![LineKind::Plain(s("x")), LineKind::Empty]);
}

#[test]
fn classify_unicode_whitespace() {
    assert_eq!(kinds("\u{3000}#\u{00A0}T\u{2003}U"), vec![LineKind::Header(1, s("T U"))]);
}
