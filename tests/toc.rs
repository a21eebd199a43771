use pdfmark::command_parser::{
    bookmark_step, extract_target, may_write_output, unlock_step, BookmarkStep, ExtractTarget,
    UnlockStep,
};
use pdfmark::convert::{outline_from_text, text_from_outline, validate_text, TocError};
use pdfmark::grammar::{parse_toc, render_toc, LineFault, SyntaxError};
use pdfmark::outline::{build_outline, build_toc, new_outline, OutlineNode, StructureError};
use pdfmark::toc_format::{Toc, TocEntry};

fn entry(depth: u32, page: u32, title: &str) -> TocEntry {
    TocEntry { depth, page, title: title.to_string() }
}

fn leaf(title: &str, page: u32) -> OutlineNode {
    OutlineNode { title: title.to_string(), uri: None, page: Some(page), down: vec![] }
}

#[test]
fn chapters_build_two_roots() {
    let mut toc = parse_toc("0 Chapter 1\n+1 Section 1.1\n+1 Section 1.2\n0 Chapter 2").unwrap();
    let depths: Vec<u32> = toc.entries.iter().map(|e| e.depth).collect();
    assert_eq!(depths, vec![0, 1, 1, 0]);
    // The first line names page 0, which pages counting from 1 refuse.
    assert_eq!(build_outline(&toc).unwrap_err(), StructureError::InvalidPage { index: 0 });
    toc.page_offset(1);
    let forest = build_outline(&toc).unwrap();
    assert_eq!(forest.len(), 2);
    assert_eq!(forest[0].title, "Chapter 1");
    assert_eq!(forest[0].down.len(), 2);
    assert_eq!(forest[0].down[0].title, "Section 1.1");
    assert_eq!(forest[0].down[1].title, "Section 1.2");
    assert!(forest[0].down[0].down.is_empty());
    assert_eq!(forest[0].page, Some(0));
    assert_eq!(forest[0].down[0].page, Some(1));
    assert_eq!(forest[1].title, "Chapter 2");
    assert!(forest[1].down.is_empty());
}

#[test]
fn first_entry_not_at_root_depth() {
    let toc = parse_toc("+1 Foo").unwrap();
    assert_eq!(build_outline(&toc).unwrap_err(), StructureError::RootDepth);
}

#[test]
fn depth_jump_of_two_is_refused() {
    let mut toc = parse_toc("0 A\n++2 B").unwrap();
    assert_eq!(toc.entries, vec![entry(0, 0, "A"), entry(2, 2, "B")]);
    // Page 0 of the first line is met before the jump into the second.
    assert_eq!(build_outline(&toc).unwrap_err(), StructureError::InvalidPage { index: 0 });
    toc.page_offset(1);
    assert_eq!(build_outline(&toc).unwrap_err(), StructureError::DepthJump { index: 1 });
}

#[test]
fn page_zero_is_refused_by_builder() {
    let toc = parse_toc("0 Title 0").unwrap();
    assert_eq!(toc.entries, vec![entry(0, 0, "Title 0")]);
    assert_eq!(build_outline(&toc).unwrap_err(), StructureError::InvalidPage { index: 0 });
}

#[test]
fn empty_text_gives_empty_forest() {
    let toc = parse_toc("").unwrap();
    assert!(toc.entries.is_empty());
    assert!(build_outline(&toc).unwrap().is_empty());
}

#[test]
fn flatten_then_render_three_lines() {
    let root = OutlineNode {
        title: "Root".to_string(),
        uri: None,
        page: Some(0),
        down: vec![leaf("A", 1), leaf("B", 2)],
    };
    let toc = build_toc(&[root]).unwrap();
    assert_eq!(toc.entries, vec![entry(0, 1, "Root"), entry(1, 2, "A"), entry(1, 3, "B")]);
    assert_eq!(render_toc(&toc), "1 Root\n+2 A\n+3 B");
    assert_eq!(toc.to_text(), "1 Root\n+2 A\n+3 B");
}

#[test]
fn build_then_flatten_round_trip() {
    let text = "1 A\n+2 B\n++3 C\n+4 D\n5 E";
    let toc = parse_toc(text).unwrap();
    let forest = build_outline(&toc).unwrap();
    let back = build_toc(&forest).unwrap();
    assert_eq!(back, toc);
    assert_eq!(back.to_text(), text);
}

#[test]
fn render_then_parse_round_trip() {
    let toc = Toc { entries: vec![entry(0, 12, "Intro: a b"), entry(1, 4294967295, ""), entry(0, 7, "é ü")] };
    let text = render_toc(&toc);
    assert_eq!(text, "12 Intro: a b\n+4294967295 \n7 é ü");
    assert_eq!(parse_toc(&text).unwrap(), toc);
}

#[test]
fn parse_reads_depth_page_title() {
    let toc = parse_toc("+++42 Deep title  with spaces").unwrap();
    assert_eq!(toc.entries, vec![entry(3, 42, "Deep title  with spaces")]);
}

#[test]
fn trailing_newline_ends_last_line() {
    let toc = parse_toc("1 A\n2 B\n").unwrap();
    assert_eq!(toc.entries, vec![entry(0, 1, "A"), entry(0, 2, "B")]);
}

#[test]
fn empty_line_is_refused() {
    assert_eq!(
        parse_toc("1 A\n\n2 B").unwrap_err(),
        SyntaxError { line: 2, fault: LineFault::MissingPage }
    );
}

#[test]
fn missing_space_is_refused() {
    assert_eq!(
        parse_toc("1 A\n+12B").unwrap_err(),
        SyntaxError { line: 2, fault: LineFault::MissingSpace }
    );
    assert_eq!(
        parse_toc("7").unwrap_err(),
        SyntaxError { line: 1, fault: LineFault::MissingSpace }
    );
}

#[test]
fn page_overflow_is_refused() {
    assert_eq!(
        parse_toc("4294967296 Big").unwrap_err(),
        SyntaxError { line: 1, fault: LineFault::PageOverflow }
    );
    assert_eq!(parse_toc("4294967295 Max").unwrap().entries[0].page, u32::MAX);
}

#[test]
fn missing_page_is_refused() {
    assert_eq!(
        parse_toc("+Title").unwrap_err(),
        SyntaxError { line: 1, fault: LineFault::MissingPage }
    );
}

#[test]
fn leading_zeros_are_read() {
    assert_eq!(parse_toc("007 Bond").unwrap().entries, vec![entry(0, 7, "Bond")]);
}

#[test]
fn from_str_matches_parse() {
    let toc: Toc = "1 A\n+2 B".parse().unwrap();
    assert_eq!(toc, parse_toc("1 A\n+2 B").unwrap());
}

#[test]
fn entry_line_text() {
    assert_eq!(entry(2, 30, "Sub").to_line(), "++30 Sub");
    assert_eq!(entry(0, 0, "").to_line(), "0 ");
}

#[test]
fn first_fault_in_order_wins() {
    let toc = Toc { entries: vec![entry(0, 1, "A"), entry(1, 0, "B"), entry(3, 1, "C")] };
    assert_eq!(build_outline(&toc).unwrap_err(), StructureError::InvalidPage { index: 1 });
    let toc = Toc { entries: vec![entry(0, 1, "A"), entry(2, 0, "B")] };
    assert_eq!(build_outline(&toc).unwrap_err(), StructureError::DepthJump { index: 1 });
}

#[test]
fn depth_may_drop_several_levels() {
    let toc = parse_toc("1 A\n+2 B\n++3 C\n4 D").unwrap();
    let forest = build_outline(&toc).unwrap();
    assert_eq!(forest.len(), 2);
    assert_eq!(forest[0].down[0].down[0].title, "C");
    assert_eq!(forest[1].title, "D");
    assert_eq!(forest[1].page, Some(3));
}

#[test]
fn flatten_node_without_page_points_at_first() {
    let node = OutlineNode { title: "X".to_string(), uri: None, page: None, down: vec![] };
    assert_eq!(build_toc(&[node]).unwrap().entries, vec![entry(0, 1, "X")]);
    assert_eq!(build_toc(&[leaf("M", u32::MAX)]).unwrap().entries, vec![entry(0, u32::MAX, "M")]);
}

#[test]
fn page_offset_moves_and_saturates() {
    let mut toc = Toc { entries: vec![entry(0, 1, "A"), entry(1, 10, "B"), entry(0, u32::MAX - 1, "C")] };
    toc.page_offset(5);
    assert_eq!(toc.entries, vec![entry(0, 6, "A"), entry(1, 15, "B"), entry(0, u32::MAX, "C")]);
    toc.page_offset(-10);
    assert_eq!(toc.entries, vec![entry(0, 0, "A"), entry(1, 5, "B"), entry(0, u32::MAX - 10, "C")]);
}

#[test]
fn page_offset_composes() {
    let base = Toc { entries: vec![entry(0, 3, "A"), entry(1, 100, "B")] };
    let mut twice = base.clone();
    twice.page_offset(4);
    twice.page_offset(-2);
    let mut once = base.clone();
    once.page_offset(2);
    assert_eq!(twice, once);
    assert_eq!(once.entries[0].page, 5);
}

#[test]
fn decisions_of_commands() {
    assert_eq!(unlock_step(false, true), UnlockStep::Open);
    assert_eq!(unlock_step(true, true), UnlockStep::Authenticate);
    assert_eq!(unlock_step(true, false), UnlockStep::MissingPassword);
    assert_eq!(bookmark_step(false, false), BookmarkStep::Install);
    assert_eq!(bookmark_step(true, true), BookmarkStep::ReplaceExisting);
    assert_eq!(bookmark_step(true, false), BookmarkStep::Refuse);
    assert!(may_write_output(false, false));
    assert!(may_write_output(true, true));
    assert!(!may_write_output(true, false));
    assert_eq!(extract_target(true, false), ExtractTarget::Print);
    assert_eq!(extract_target(false, true), ExtractTarget::File);
    assert_eq!(extract_target(false, false), ExtractTarget::MissingOutput);
}

#[test]
fn new_outline_counts_pages_from_one() {
    assert!(new_outline("T".to_string(), 0).is_none());
    let node = new_outline("T".to_string(), 5).unwrap();
    assert_eq!(node.title, "T");
    assert_eq!(node.page, Some(4));
    assert!(node.uri.is_none());
    assert!(node.down.is_empty());
}

#[test]
fn outline_from_text_with_offset() {
    let forest = outline_from_text("0 A\n+1 B", Some(10)).unwrap();
    assert_eq!(forest.len(), 1);
    assert_eq!(forest[0].page, Some(9));
    assert_eq!(forest[0].down[0].page, Some(10));
    assert_eq!(
        outline_from_text("0 A", None).unwrap_err(),
        TocError::Structure(StructureError::InvalidPage { index: 0 })
    );
    assert_eq!(
        outline_from_text("1 A\nB", Some(1)).unwrap_err(),
        TocError::Syntax(SyntaxError { line: 2, fault: LineFault::MissingPage })
    );
}

#[test]
fn validate_text_reports_each_kind() {
    assert_eq!(validate_text(""), Ok(()));
    assert_eq!(validate_text("1 A\n+2 B"), Ok(()));
    assert_eq!(validate_text("+1 A"), Err(TocError::Structure(StructureError::RootDepth)));
    assert_eq!(
        validate_text("1 A\n2B"),
        Err(TocError::Syntax(SyntaxError { line: 2, fault: LineFault::MissingSpace }))
    );
}

#[test]
fn text_from_outline_lists_pre_order() {
    let forest = vec![
        OutlineNode {
            title: "One".to_string(),
            uri: Some("x".to_string()),
            page: Some(4),
            down: vec![OutlineNode {
                title: "Inner".to_string(),
                uri: None,
                page: Some(5),
                down: vec![leaf("Deep", 6)],
            }],
        },
        leaf("Two", 9),
    ];
    assert_eq!(text_from_outline(&forest).unwrap(), "5 One\n+6 Inner\n++7 Deep\n10 Two");
    assert_eq!(text_from_outline(&[]).unwrap(), "");
}

#[test]
fn fault_after_a_finished_level_is_found() {
    let toc = parse_toc("1 A\n+2 B\n+3 C\n4 D\n+++5 E").unwrap();
    assert_eq!(build_outline(&toc).unwrap_err(), StructureError::DepthJump { index: 4 });
    let toc = parse_toc("1 A\n+2 B\n++0 C").unwrap();
    assert_eq!(build_outline(&toc).unwrap_err(), StructureError::InvalidPage { index: 2 });
}

#[test]
fn from_str_reads_scenario_texts() {
    let toc: Toc = "0 Chapter 1\n+1 Section 1.1\n+1 Section 1.2\n0 Chapter 2".parse().unwrap();
    assert_eq!(
        toc.entries,
        vec![entry(0, 0, "Chapter 1"), entry(1, 1, "Section 1.1"), entry(1, 1, "Section 1.2"), entry(0, 0, "Chapter 2")]
    );
    assert_eq!("+1 Foo".parse::<Toc>().unwrap().entries, vec![entry(1, 1, "Foo")]);
    assert_eq!("0 A\n++2 B".parse::<Toc>().unwrap().entries, vec![entry(0, 0, "A"), entry(2, 2, "B")]);
    assert_eq!("0 Title 0".parse::<Toc>().unwrap().entries, vec![entry(0, 0, "Title 0")]);
    assert!("".parse::<Toc>().unwrap().entries.is_empty());
}

#[test]
fn from_str_refuses_malformed_lines() {
    assert!("1Foo".parse::<Toc>().is_err());
    assert!("+3".parse::<Toc>().is_err());
    assert!("1 A\n+3Foo".parse::<Toc>().is_err());
    assert!("4294967296 A".parse::<Toc>().is_err());
    assert!("A".parse::<Toc>().is_err());
    assert!("+ A".parse::<Toc>().is_err());
    assert!("1 A\n\n1 B".parse::<Toc>().is_err());
    assert_eq!("+007 A".parse::<Toc>().unwrap().entries, vec![entry(1, 7, "A")]);
    assert_eq!("1 ".parse::<Toc>().unwrap().entries, vec![entry(0, 1, "")]);
    assert_eq!("++3 A +1 B".parse::<Toc>().unwrap().entries, vec![entry(2, 3, "A +1 B")]);
}

#[test]
fn parsed_text_renders_back() {
    let text = "1 A\n+20 B b\n++300 \n4 D +5";
    let toc: Toc = text.parse().unwrap();
    assert_eq!(toc.to_text(), text);
}
