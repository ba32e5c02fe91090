use mdtree::builder::{build, StructuralError};
use mdtree::doc::{Content, NestedList, Part, Section};
use mdtree::lexer::{lex, LineKind};
use mdtree::parse;

fn s(x: &str) -> String {
    x.to_string()
}

fn parts_of(lines: &[&str]) -> Result<Vec<Part>, StructuralError> {
    let ks: Vec<LineKind> = lex(&lines.join("\n")).unwrap();
    build(&ks)
}

fn section(level: usize, header: &str, content: Vec<Part>) -> Part {
    Part::Section(Section { level, header: s(header), content })
}

fn leaf(x: &str) -> NestedList {
    NestedList::Line(s(x))
}

#[test]
fn equal_headers_are_siblings() {
    assert_eq!(
        parts_of(&["# A", "# B"]).unwrap(),
        vec![section(1, "A", vec![]), section(1, "B", vec![])]
    );
}

#[test]
fn deeper_header_nests_and_owns_content() {
    assert_eq!(
        parts_of(&["# A", "## B", "text"]).unwrap(),
        vec![section(
            1,
            "A",
            vec![section(2, "B", vec![Part::Content(vec![Content::Paragraph(vec![s("text")])])])]
        )]
    );
}

#[test]
fn nested_unordered_list() {
    assert_eq!(
        parts_of(&["- a", "    - b", "- c"]).unwrap(),
        vec![Part::Content(vec![Content::Unordered(vec![
            leaf("a"),
            NestedList::More(vec![leaf("b")]),
            leaf("c"),
        ])])]
    );
}

#[test]
fn plain_lines_merge_into_one_paragraph() {
    assert_eq!(
        parts_of(&["one", "two"]).unwrap(),
        vec![Part::Content(vec![Content::Paragraph(vec![s("one"), s("two")])])]
    );
}

#[test]
fn empty_line_splits_paragraphs() {
    assert_eq!(
        parts_of(&["one", "", "two"]).unwrap(),
        vec![Part::Content(vec![
            Content::Paragraph(vec![s("one")]),
            Content::Paragraph(vec![s("two")]),
        ])]
    );
}

#[test]
fn quotes_rules_and_list_kinds() {
    assert_eq!(
        parts_of(&["> a", "> b", "---", "---", "- x", "1. y", "2. z", "text"]).unwrap(),
        vec![Part::Content(vec![
            Content::Quote(vec![s("a"), s("b")]),
            Content::Horizontal,
            Content::Horizontal,
            Content::Unordered(vec![leaf("x")]),
            Content::Ordered(vec![leaf("y"), leaf("z")]),
            Content::Paragraph(vec![s("text")]),
        ])]
    );
}

#[test]
fn list_depth_jumps_and_returns() {
    assert_eq!(
        parts_of(&["- a", "        - b", "    - c", "- d"]).unwrap(),
        vec![Part::Content(vec![Content::Unordered(vec![
            leaf("a"),
            NestedList::More(vec![leaf("b"), leaf("c")]),
            leaf("d"),
        ])])]
    );
}

#[test]
fn content_before_and_between_sections() {
    assert_eq!(
        parts_of(&["intro", "# A", "body", "## B", "# C"]).unwrap(),
        vec![
            Part::Content(vec![Content::Paragraph(vec![s("intro")])]),
            section(
                1,
                "A",
                vec![
                    Part::Content(vec![Content::Paragraph(vec![s("body")])]),
                    section(2, "B", vec![]),
                ]
            ),
            section(1, "C", vec![]),
        ]
    );
}

#[test]
fn blank_lines_make_no_content_part() {
    assert_eq!(parts_of(&["", "  ", "# A", ""]).unwrap(), vec![section(1, "A", vec![])]);
}

#[test]
fn level_gap_is_refused() {
    assert_eq!(parts_of(&["# A", "### C"]), Err(StructuralError::LevelGap));
    assert_eq!(parts_of(&["# A", "## B", "# C", "### D"]), Err(StructuralError::LevelGap));
}

#[test]
fn shallower_first_header_is_no_gap() {
    assert_eq!(
        parts_of(&["### X", "# Y", "## Z"]).unwrap(),
        vec![section(3, "X", vec![]), section(1, "Y", vec![section(2, "Z", vec![])])]
    );
}

#[test]
fn parse_whole_document() {
    let md = parse("---\ntitle: Hello\n---\n# A\ntext").unwrap();
    assert_eq!(md.meta, vec![(s("title"), s("Hello"))]);
    assert_eq!(
        md.parts,
        vec![section(1, "A", vec![Part::Content(vec![Content::Paragraph(vec![s("text")])])])]
    );
}

#[test]
fn parse_reports_level_gap() {
    assert_eq!(parse("# A\n### B"), Err(StructuralError::LevelGap));
}
