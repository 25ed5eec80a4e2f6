use crabmd::assets::path;
use crabmd::display::{project, BlockExtra};
use crabmd::document::BlockKind;
use crabmd::editor::{
    heading_jump, search_all_matches, search_position, table_sel_display_range, window_title,
    MATCH_CAP,
};

#[test]
fn icon_paths() {
    assert_eq!(path("star"), "icons/star.svg");
}

#[test]
fn titles_show_file_and_dirty_mark() {
    assert_eq!(window_title("/a/notes.md", false), "notes.md — crabmd");
    assert_eq!(window_title("/a/notes.md", true), "• notes.md — crabmd");
    assert_eq!(window_title("", false), "untitled — crabmd");
}

use crabmd::editor::{indent_width, is_bare_video, source_offset_for_line_col, TableRect};

#[test]
fn line_col_to_offset() {
    let s = "ab\ncdé\nx";
    assert_eq!(source_offset_for_line_col(s, 1, 1), 0);
    assert_eq!(source_offset_for_line_col(s, 0, 0), 0);
    assert_eq!(source_offset_for_line_col(s, 2, 3), 5);
    assert_eq!(source_offset_for_line_col(s, 2, 4), 7);
    assert_eq!(source_offset_for_line_col(s, 2, 99), 7);
    assert_eq!(source_offset_for_line_col(s, 3, 2), 9);
    assert_eq!(source_offset_for_line_col(s, 9, 1), s.len());
}

#[test]
fn bare_video_lines() {
    assert!(is_bare_video("  <VIDEO src=a.mp4>"));
    assert!(!is_bare_video("text <video>"));
}

#[test]
fn indents_count_tabs_double() {
    assert_eq!(indent_width("\t  x"), 4);
    assert_eq!(indent_width("x  "), 0);
}

#[test]
fn table_rects_normalize() {
    let r = TableRect { block_ix: 0, r0: 3, c0: 1, r1: 1, c1: 2 };
    assert!(r.contains(2, 2));
    assert!(!r.contains(4, 1));
    assert!(r.is_multi());
    assert_eq!(r.row_count(), 3);
    assert_eq!(r.col_count(), 2);
    let one = TableRect { block_ix: 0, r0: 1, c0: 1, r1: 1, c1: 1 };
    assert!(!one.is_multi());
}

#[test]
fn search_finds_non_overlapping_matches() {
    assert_eq!(search_all_matches("aaaa", "aa"), vec![0..2, 2..4]);
    assert_eq!(search_all_matches("one two one", "one"), vec![0..3, 8..11]);
    assert!(search_all_matches("abc", "").is_empty());
    assert!(search_all_matches("abc", "x").is_empty());
    assert_eq!(search_all_matches("héllo héllo", "é"), vec![1..3, 8..10]);
}

#[test]
fn search_is_capped() {
    let text = "a".repeat(MATCH_CAP + 10);
    let m = search_all_matches(&text, "a");
    assert_eq!(m.len(), MATCH_CAP);
    assert_eq!(m.last().unwrap().clone(), MATCH_CAP - 1..MATCH_CAP);
}

#[test]
fn search_position_counts_from_caret() {
    let m = search_all_matches("x.x.x", "x");
    assert_eq!(search_position(&m, 0), Some((1, 3)));
    assert_eq!(search_position(&m, 1), Some((2, 3)));
    assert_eq!(search_position(&m, 4), Some((3, 3)));
    assert_eq!(search_position(&m, 5), Some((1, 3)));
    assert_eq!(search_position(&[], 0), None);
}

#[test]
fn table_selection_spans_selected_cells() {
    let src = "| a | b |\n| --- | --- |\n| 1 | 2 |";
    let p = project(src);
    let BlockExtra::Table { cells, .. } = &p.blocks[0].extra else {
        panic!("not a table");
    };
    let b = cells.iter().find(|c| c.row == 0 && c.col == 1).unwrap().display.clone();
    let two = cells.iter().find(|c| c.row == 1 && c.col == 1).unwrap().display.clone();
    assert_eq!(&p.display[b.clone()], "b");
    assert_eq!(&p.display[two.clone()], "2");
    // Corners given bottom-up: the rectangle is normalized first.
    let rect = TableRect { block_ix: 0, r0: 1, c0: 1, r1: 0, c1: 1 };
    assert_eq!(table_sel_display_range(&p, Some(rect), 3), b.start..two.end);
    assert_eq!(table_sel_display_range(&p, None, 3), 3..3);
    let off = TableRect { block_ix: 0, r0: 5, c0: 5, r1: 6, c1: 6 };
    assert_eq!(table_sel_display_range(&p, Some(off), 4), 4..4);
    let missing = TableRect { block_ix: 9, r0: 0, c0: 0, r1: 0, c1: 0 };
    assert_eq!(table_sel_display_range(&p, Some(missing), 1), 1..1);
}

#[test]
fn heading_jumps_count_headings() {
    let p = project("# A\n\npara\n\n## B\n\ntext");
    let heads: Vec<usize> = p
        .blocks
        .iter()
        .filter(|b| matches!(b.kind, BlockKind::Heading(_)))
        .map(|b| b.display.start)
        .collect();
    assert_eq!(heads.len(), 2);
    let last = p.blocks.last().unwrap().display.start;
    assert!(last > heads[1]);
    assert_eq!(heading_jump(&p, 0, true, 1), heads[1]);
    assert_eq!(heading_jump(&p, 0, true, 0), heads[1]);
    assert_eq!(heading_jump(&p, 0, true, 5), last);
    assert_eq!(heading_jump(&p, last, false, 1), heads[1]);
    assert_eq!(heading_jump(&p, last, false, 2), heads[0]);
    let empty = project("");
    let expected = empty.blocks.first().map(|b| b.display.start).unwrap_or(7);
    assert_eq!(heading_jump(&empty, 7, true, 1), expected);
}
