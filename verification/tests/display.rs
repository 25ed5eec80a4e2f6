use crabmd::display::{
    details_block_range, flatten_table_cell_text, list_sibling_index, ordered_marker, project,
    serialize_table, wrap_cols_for, Affinity, BlockExtra, ListItem,
};
use crabmd::document::BlockKind;


#[test]
fn heading_hides_hashes() {
    let p = project("# Hello");
    assert_eq!(p.display, "Hello");
    assert_eq!(p.to_source(0, Affinity::Inside), 2);
    assert_eq!(p.to_display(2), 0);
    assert_eq!(p.to_display(0), 0);
}

#[test]
fn bold_hides_stars() {
    let p = project("hello **world**");
    assert_eq!(p.display, "hello world");
    assert!(p.marks_at(6, Affinity::Inside).bold);
    assert!(!p.marks_at(4, Affinity::Inside).bold);
    let src = p.to_source(6, Affinity::Inside);
    assert_eq!(&"hello **world**"[src..src + 1], "w");
    let outside = p.to_source(p.display.len(), Affinity::Outside);
    assert_eq!(outside, "hello **world**".len());
}

#[test]
fn unclosed_stars_stay_visible() {
    let p = project("hello **world");
    assert!(p.display.contains("**"), "{}", p.display);
}

#[test]
fn code_fence_hidden() {
    let src = "```rust\nfn main() {}\n```";
    let p = project(src);
    assert_eq!(p.display, "fn main() {}");
    match &p.blocks[0].extra {
        BlockExtra::Code { lang, .. } => assert_eq!(lang, "rust"),
        other => panic!("{other:?}"),
    }
}

#[test]
fn list_hides_markers() {
    let p = project("- one\n- two");
    assert_eq!(p.display, "one\ntwo");
    let BlockExtra::List { items, .. } = &p.blocks[0].extra else {
        panic!("not list");
    };
    assert_eq!(items.len(), 2);
}

#[test]
fn nested_list_keeps_parent() {
    let src = "- parent\n  - child\n    - grand\n- sibling";
    let p = project(src);
    let BlockExtra::List { items, .. } = &p.blocks[0].extra else {
        panic!("not list: {:?}", p.blocks[0].extra);
    };
    assert_eq!(items.len(), 4, "items={items:?} display={:?}", p.display);
    assert_eq!(&p.display[items[0].display.clone()], "parent");
    assert_eq!(&p.display[items[1].display.clone()], "child");
    assert_eq!(&p.display[items[2].display.clone()], "grand");
    assert_eq!(&p.display[items[3].display.clone()], "sibling");
    assert_eq!(items[0].indent, 0);
    assert_eq!(items[1].indent, 1);
    assert_eq!(items[2].indent, 2);
    assert_eq!(items[3].indent, 0);
}

#[test]
fn two_blocks_separated() {
    let p = project("# H\n\npara");
    assert_eq!(p.display, "H\npara");
    assert_eq!(p.blocks.len(), 2);
    assert_eq!(p.to_display(0), 0);
    let d = p.to_display("p".len() + p.display.find('p').unwrap_or(2));
    let _ = d;
    assert!(p.display.contains("para"));
}

#[test]
fn table_cells() {
    let src = "| a | b |\n| --- | --- |\n| 1 | 2 |";
    let p = project(src);
    let BlockExtra::Table { cells, cols, .. } = &p.blocks[0].extra else {
        panic!("{:?}", p.blocks[0].extra);
    };
    assert!(*cols >= 2, "{cells:?} display={}", p.display);
    assert!(p.display.contains('a'));
    assert!(p.display.contains('1'));
    assert!(!p.display.contains("---"));
}

#[test]
fn table_multiline_cell_flattens_newlines() {
    assert_eq!(flatten_table_cell_text("foo\nbar"), "foo\u{001e}bar");
    assert_eq!(
        flatten_table_cell_text("foo\r\nbar"),
        "foo\u{001e}\u{001e}bar"
    );
    assert_eq!(flatten_table_cell_text("plain"), "plain");

    let src = "| a | b |\n| --- | --- |\n| 1 | 2 |";
    let p = project(src);
    let BlockExtra::Table { rows, cols, .. } = &p.blocks[0].extra else {
        panic!("{:?}", p.blocks[0].extra);
    };
    assert_eq!(*rows, 2);
    assert_eq!(*cols, 2);
    let table = &p.display[p.blocks[0].display.clone()];
    assert_eq!(
        table.matches('\n').count(),
        1,
        "one row separator: {table:?}"
    );
    assert!(table.contains('\t'), "{table:?}");

    let src = "| a | b |\n| --- | --- |\n| foo<br>bar | 2 |";
    let p = project(src);
    let BlockExtra::Table { rows, cols, .. } = &p.blocks[0].extra else {
        panic!("{:?}", p.blocks[0].extra);
    };
    assert_eq!(*rows, 2);
    assert_eq!(*cols, 2);
    let table = &p.display[p.blocks[0].display.clone()];
    assert_eq!(
        table.matches('\n').count(),
        1,
        "br in a cell is not a row break: {table:?}"
    );
    assert!(table.contains("foo"), "{table:?}");
    assert!(table.contains("bar"), "{table:?}");

    let gfm = serialize_table(&["h".into()], &[vec!["a\nb".into()]]);
    assert_eq!(gfm, "| h |\n| --- |\n| a<br>b |");
}

#[test]
fn wrap_cols_positive() {
    assert!(wrap_cols_for(15, true).unwrap() > 20);
    assert_eq!(wrap_cols_for(15, false), None);
}

#[test]
fn heading_end_stays_in_heading() {
    let src = "# Hello\n\npara";
    let p = project(src);
    let end = p.blocks[0].display.end;
    let off = p.to_source(end, Affinity::Inside);
    assert!(
        off <= p.blocks[0].source.end,
        "mapped to {off} past heading {:?}",
        p.blocks[0].source
    );
    assert_eq!(&src[..off], "# Hello");
    assert_eq!(p.to_display(off), end);
}

#[test]
fn trailing_blank_is_empty_paragraph() {
    let src = "# Hello\n\n";
    let p = project(src);
    assert!(
        p.blocks.len() >= 2,
        "blocks={:?} display={:?}",
        p.blocks.iter().map(|b| b.kind).collect::<Vec<_>>(),
        p.display
    );
    let last = p.blocks.last().unwrap();
    assert_eq!(last.kind, BlockKind::Paragraph);
    assert_eq!(last.display.start, last.display.end);
}

#[test]
fn trailing_spaces_kept() {
    let p = project("hello ");
    assert_eq!(p.display, "hello ");
    let p = project("# Hi ");
    assert_eq!(p.display, "Hi ");
    let p = project("- something ");
    assert_eq!(p.display, "something ");
    let p = project("- [ ] something ");
    assert_eq!(p.display, "something ");
    let p = project("1. something ");
    assert_eq!(p.display, "something ");
}

#[test]
fn empty_alert_caret_is_in_body() {
    let src = "> [!NOTE]\n>";
    let p = project(src);
    assert!(
        matches!(p.blocks[0].kind, BlockKind::Alert(_)),
        "{:?}",
        p.blocks[0].kind
    );
    assert!(
        p.display.trim().is_empty(),
        "label is chrome, not display: {:?}",
        p.display
    );
    let at = p.to_source(p.blocks[0].display.start, Affinity::Inside);
    assert!(
        at > src.find("[!NOTE]").unwrap(),
        "caret after label, got {at} in {src:?}"
    );
    assert!(
        src[..at].ends_with("> ") || src[..at].ends_with('>'),
        "caret on body line: {:?} at={at}",
        &src[..at]
    );
}

#[test]
fn heading_keeps_trailing_hash() {
    let p = project("# Hello there   #");
    assert_eq!(p.display, "Hello there   #");
    let p = project("# Hello there#");
    assert_eq!(p.display, "Hello there#");
}

#[test]
fn table_cell_links_keep_marks() {
    let src = "| Font | Desc |\n| --- | --- |\n| [Zed](https://x.com) | plain |";
    let p = project(src);
    assert_eq!(p.links, vec!["https://x.com".to_string()]);
    let d = p.display.find("Zed").unwrap();
    assert_eq!(p.link_at(d).map(|(_, u)| u), Some("https://x.com"));
    assert!(p.marks_at(d, Affinity::Inside).link.is_some());
}

#[test]
fn table_cell_code_and_bold_keep_marks() {
    let src = "| A |\n| --- |\n| `~/x` and **B** |";
    let p = project(src);
    let d = p.display.find("~/x").unwrap();
    assert!(p.marks_at(d, Affinity::Inside).code, "{:?}", p.display);
    let b = p.display.find('B').unwrap();
    assert!(p.marks_at(b, Affinity::Inside).bold);
}

#[test]
fn nested_fence_in_list_splits_to_code_block() {
    let src = "- Install [Brew](https://brew.sh/)\n\n  ```sh\n  /bin/bash hi\n  ```\n";
    let p = project(src);
    // Bullet stays a list, fence becomes its own Code block with language.
    assert!(matches!(p.blocks[0].extra, BlockExtra::List { .. }), "{:?}", p.blocks[0].extra);
    let code = p.blocks.iter().find(|b| matches!(b.extra, BlockExtra::Code { .. }));
    assert!(code.is_some(), "no code block: {:?}", p.blocks.iter().map(|b| &b.extra).collect::<Vec<_>>());
    match &code.unwrap().extra {
        BlockExtra::Code { lang, .. } => assert_eq!(lang, "sh"),
        other => panic!("{other:?}"),
    }
    assert_eq!(p.display.lines().next().unwrap_or(""), "Install Brew");
    assert!(p.display.contains("/bin/bash hi"));
    // No merge of bullet text and code on one line.
    assert!(!p.display.contains(")brew") && !p.display.contains(")/bin"));
}

#[test]
fn plain_fence_stays_code_block() {
    let src = "```\n/bin/bash hi\n```\n";
    let p = project(src);
    assert!(matches!(p.blocks[0].extra, BlockExtra::Code { .. }));
    match &p.blocks[0].extra {
        BlockExtra::Code { lang, .. } => assert_eq!(lang, ""),
        other => panic!("{other:?}"),
    }
    assert_eq!(p.display.trim_end(), "/bin/bash hi");
}

#[test]
fn html_heading_renders_as_heading() {
    let p = project("<h1>🐟 Carlo's Dotfiles</h1>\n");
    assert_eq!(p.display, "🐟 Carlo's Dotfiles");
    assert!(matches!(p.blocks[0].extra, BlockExtra::HtmlHeading(1)));
    // Caret maps inside the tags, so typing preserves them.
    let s = p.to_source(0, Affinity::Inside);
    assert_eq!("<h1>🐟 Carlo's Dotfiles</h1>"[s..].chars().next(), Some('🐟'));
    let p = project("<h2>Table of Contents</h2>\n");
    assert_eq!(p.display, "Table of Contents");
    assert!(matches!(p.blocks[0].extra, BlockExtra::HtmlHeading(2)));
}

#[test]
fn details_open_close_project() {
    let src = "<details>\n  <summary>\n    ⭐️ MacOS Improvements\n  </summary>\n\n- [x] Better drag\n\n</details>\n";
    let p = project(src);
    assert!(matches!(p.blocks[0].extra, BlockExtra::Details { .. }));
    assert_eq!(p.display.lines().next().unwrap_or(""), "⭐️ MacOS Improvements");
    let last = p.blocks.last().unwrap();
    assert!(matches!(last.extra, BlockExtra::DetailsClose));
    assert_eq!(last.display.start, last.display.end);
    let (a, b) = details_block_range(&p, 0).unwrap();
    assert_eq!((a, b), (0, p.blocks.len() - 1));
}


fn item(indent: usize) -> ListItem {
    ListItem {
        display: 0..0,
        source: 0..0,
        indent,
        checked: None,
    }
}

#[test]
fn cycles_1_a_i_by_indent() {
    assert_eq!(ordered_marker(0, 0), "1.");
    assert_eq!(ordered_marker(0, 1), "2.");
    assert_eq!(ordered_marker(1, 0), "a.");
    assert_eq!(ordered_marker(1, 1), "b.");
    assert_eq!(ordered_marker(2, 0), "i.");
    assert_eq!(ordered_marker(2, 1), "ii.");
    assert_eq!(ordered_marker(2, 3), "iv.");
    assert_eq!(ordered_marker(3, 0), "1.");
    assert_eq!(ordered_marker(4, 0), "a.");
    assert_eq!(ordered_marker(5, 0), "i.");
}

#[test]
fn sibling_index_resets_under_parent() {
    let items = vec![
        item(0), // 1
        item(1), // a
        item(1), // b
        item(2), // i
        item(0), // 2
        item(1), // a again
    ];
    assert_eq!(list_sibling_index(&items, 0), 0);
    assert_eq!(list_sibling_index(&items, 1), 0);
    assert_eq!(list_sibling_index(&items, 2), 1);
    assert_eq!(list_sibling_index(&items, 3), 0);
    assert_eq!(list_sibling_index(&items, 4), 1);
    assert_eq!(list_sibling_index(&items, 5), 0);
}

#[test]
fn selecting_bold_text_takes_its_stars() {
    let src = "hello **world** end";
    let p = project(src);
    assert_eq!(p.display, "hello world end");
    // "world" fully selected: the source range takes in both `**`.
    let r = p.display_range_to_source(6..11, Affinity::Inside);
    assert_eq!(&src[r.clone()], "**world**");
    // Part of "world": no widening.
    let r = p.display_range_to_source(7..9, Affinity::Inside);
    assert_eq!(&src[r], "or");
    // Empty range: the caret's offset, both ends.
    let r = p.display_range_to_source(3..3, Affinity::Inside);
    assert_eq!(r, 3..3);
    // A reversed range is clamped to an empty one.
    let r = p.display_range_to_source(5..2, Affinity::Inside);
    assert!(r.start <= r.end);
}

#[test]
fn selecting_bold_at_block_end_takes_its_closing_stars() {
    let src = "hello **world**";
    let p = project(src);
    assert_eq!(p.display, "hello world");
    let r = p.display_range_to_source(6..11, Affinity::Inside);
    assert_eq!(r, 6..15);
    assert_eq!(&src[..r.start], "hello ");
    assert_eq!(&src[r.end..], "");
}
