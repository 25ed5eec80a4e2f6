use crabmd::document::{
    delete_block_index, ensure_trailing_paragraph, extract_links, infer_kind, join_line,
    join_line_at, merge_blocks, merge_caret, parse_blocks, parse_ranges, raw_span, replace_block,
    serialize, slash_query, slash_query_at, sole_image, splice, split_task_line, has_task_line,
    toggle_task_line, AlertKind, Block, BlockIds, BlockKind,
};

const KITCHEN: &str = r#"# Title

A paragraph with **bold**, *italic*, ~~strike~~, `code`, and a [link](https://example.com).

## Subhead

- bullet
- nested parent

1. one
2. two

- [ ] todo
- [x] done

> a quote

> [!NOTE]
> This is a note.

> [!WARNING]
> Careful.

```rust
fn main() {}
```

| a | b |
| --- | --- |
| 1 | 2 |

---

https://github.com/blankeos/crabmd

Visit <https://spec.commonmark.org>.
"#;

fn parse(src: &str) -> Vec<Block> {
    parse_blocks(src, &mut BlockIds::new())
}

#[test]
fn kitchen_sink_kinds() {
    let blocks = parse(KITCHEN);
    let kinds: Vec<_> = blocks.iter().map(|b| b.kind).collect();
    assert!(
        kinds.contains(&BlockKind::Heading(1)),
        "missing h1: {kinds:?}"
    );
    assert!(kinds.contains(&BlockKind::Heading(2)));
    assert!(kinds.contains(&BlockKind::Paragraph));
    assert!(kinds.contains(&BlockKind::List { ordered: false }));
    assert!(kinds.contains(&BlockKind::List { ordered: true }));
    assert!(kinds.contains(&BlockKind::Quote));
    assert!(kinds.contains(&BlockKind::Alert(AlertKind::Note)));
    assert!(kinds.contains(&BlockKind::Alert(AlertKind::Warning)));
    assert!(kinds.contains(&BlockKind::Code));
    assert!(kinds.contains(&BlockKind::Table));
    assert!(kinds.contains(&BlockKind::Rule));
}

#[test]
fn serialize_is_valid_gfm() {
    let blocks = parse(KITCHEN);
    let out = serialize(&blocks);
    let again = parse(&out);
    let kinds: Vec<_> = again.iter().map(|b| b.kind).collect();
    assert!(kinds.contains(&BlockKind::Alert(AlertKind::Note)));
    assert!(kinds.contains(&BlockKind::Table));
    assert!(kinds.contains(&BlockKind::Code));
    assert!(out.contains("~~strike~~"));
    assert!(out.contains("- [ ] todo"));
    assert!(out.contains("- [x] done"));
    assert!(out.contains("> [!NOTE]"));
    assert!(out.contains("| a | b |"));
    assert!(out.contains("```rust"));
}

#[test]
fn empty_parses_to_nothing() {
    assert!(parse("").is_empty());
    assert!(parse("   \n\n").is_empty());
    assert_eq!(serialize(&[]), "");
}

#[test]
fn task_list_round_trip() {
    let src = "- [ ] open\n- [x] closed\n";
    let blocks = parse(src);
    assert_eq!(blocks.len(), 1);
    assert_eq!(blocks[0].kind, BlockKind::List { ordered: false });
    let out = serialize(&blocks);
    assert!(out.contains("- [ ] open"));
    assert!(out.contains("- [x] closed"));
}

#[test]
fn alert_templates_parse() {
    for kind in [
        AlertKind::Note,
        AlertKind::Tip,
        AlertKind::Important,
        AlertKind::Warning,
        AlertKind::Caution,
    ] {
        let src = format!("> [!{}]\n> body\n", kind.as_str());
        let blocks = parse(&src);
        assert_eq!(
            blocks[0].kind,
            BlockKind::Alert(kind),
            "failed for {}",
            kind.as_str()
        );
    }
}

#[test]
fn replace_block_splits_paragraphs() {
    let mut ids = BlockIds::new();
    let mut blocks = parse_blocks("hello\n", &mut ids);
    replace_block(&mut blocks, 0, "one\n\ntwo".into(), &mut ids);
    assert_eq!(blocks.len(), 2);
    assert_eq!(blocks[0].kind, BlockKind::Paragraph);
    assert_eq!(blocks[1].kind, BlockKind::Paragraph);
}

#[test]
fn slash_query_detects() {
    assert_eq!(slash_query("/"), Some(""));
    assert_eq!(slash_query("/head"), Some("head"));
    assert_eq!(slash_query("  /table"), Some("table"));
    assert_eq!(slash_query("not a slash"), None);
    assert_eq!(slash_query("/ heading"), Some("heading"));
}

#[test]
fn toggle_task_flips_box() {
    let src = "- [ ] open\n- [x] done";
    let out = toggle_task_line(src, 0).unwrap();
    assert_eq!(out, "- [x] open\n- [x] done");
    let out = toggle_task_line(&out, 1).unwrap();
    assert_eq!(out, "- [x] open\n- [ ] done");
    assert!(toggle_task_line("- bullet", 0).is_none());
}

#[test]
fn toggle_task_keeps_trailing_newline() {
    let src = "- [x] item 1\n- [x] item 2\n";
    let out = toggle_task_line(src, 0).unwrap();
    assert_eq!(out, "- [ ] item 1\n- [x] item 2\n");
    // Splicing this into `list\n\n## Quote` must keep the blank separator.
    let doc = format!("{src}\n## Quote\nbody\n");
    let start = 0;
    let end = src.len();
    let spliced = splice(&doc, start..end, &out);
    assert!(
        spliced.contains("item 2\n\n## Quote"),
        "separator collapsed: {spliced:?}"
    );
}

#[test]
fn sole_image_detects() {
    assert_eq!(
        sole_image("![cat](cat.png)\n"),
        Some(("cat".into(), "cat.png".into()))
    );
    assert_eq!(sole_image("hello ![x](y.png)"), None);
    assert_eq!(sole_image("![a](b.png)\n\nmore"), None);
}

#[test]
fn extract_links_skips_images() {
    let links = extract_links(
        "see [gfm](https://example.com) and ![pic](pic.png) plus <https://spec.commonmark.org> and https://zed.dev.",
    );
    let urls: Vec<_> = links.iter().map(|l| l.url.as_str()).collect();
    assert!(urls.contains(&"https://example.com"));
    assert!(urls.contains(&"https://spec.commonmark.org"));
    assert!(urls.contains(&"https://zed.dev"));
    assert!(!urls.iter().any(|u| u.contains("pic.png")));
}

#[test]
fn merge_blocks_concat() {
    assert_eq!(merge_blocks("", "b"), "b");
    assert_eq!(merge_blocks("a", ""), "a");
    assert_eq!(merge_blocks("hello", "world"), "helloworld");
    assert_eq!(merge_blocks("hello\n", "world"), "helloworld");
    assert_eq!(merge_caret("hello", "world"), 5);
    assert_eq!(merge_caret("", "world"), 0);
    assert_eq!(merge_caret("ab\n", "c"), 2);
}

#[test]
fn join_line_strips_one_newline() {
    let (out, caret) = join_line("hello", "## Quota and hsh");
    assert_eq!(out, "hello## Quota and hsh");
    assert_eq!(caret, 5);
    let (out, caret) = join_line("hello\n", "## Quota and hsh");
    assert_eq!(out, "hello## Quota and hsh");
    assert_eq!(caret, 5);
    let (out, caret) = join_line("hello\n\n", "world");
    assert_eq!(out, "hello\nworld");
    assert_eq!(caret, 6);
    let (out, caret) = join_line("ab\r\n", "cd");
    assert_eq!(out, "abcd");
    assert_eq!(caret, 2);
}

#[test]
fn join_line_at_deletes_newline() {
    let (out, caret) = join_line_at("aa\nbb", 3).unwrap();
    assert_eq!(out, "aabb");
    assert_eq!(caret, 2);
    let (out, caret) = join_line_at("## Quota and hsh\nnext", 17).unwrap();
    assert_eq!(out, "## Quota and hshnext");
    assert_eq!(caret, 16);
    assert!(join_line_at("aabb", 2).is_none());
    assert!(join_line_at("aa\nbb", 0).is_none());
    let (out, caret) = join_line_at("aa\r\nbb", 4).unwrap();
    assert_eq!(out, "aabb");
    assert_eq!(caret, 2);
}

#[test]
fn delete_block_picks_next_or_prev() {
    assert_eq!(delete_block_index(0, 0), None);
    assert_eq!(delete_block_index(1, 0), Some(0));
    assert_eq!(delete_block_index(3, 0), Some(0));
    assert_eq!(delete_block_index(3, 1), Some(1));
    assert_eq!(delete_block_index(3, 2), Some(1));
    assert_eq!(delete_block_index(2, 1), Some(0));
}

#[test]
fn parse_ranges_cover_source() {
    let src = "# H\n\npara";
    let ranges = parse_ranges(src);
    assert_eq!(ranges.first().unwrap().range.start, 0);
    assert_eq!(ranges.last().unwrap().range.end, src.len());
    let kinds: Vec<_> = ranges.iter().map(|r| r.kind).collect();
    assert!(kinds.contains(&BlockKind::Heading(1)), "{kinds:?}");
    assert!(kinds.contains(&BlockKind::Paragraph), "{kinds:?}");
    let joined: String = ranges.iter().map(|r| r.slice(src)).collect();
    assert_eq!(joined, src);
}

#[test]
fn raw_span_merges_adjacent_selection() {
    let src = "# H\n\npara";
    let ranges = parse_ranges(src);
    let heading = ranges
        .iter()
        .find(|r| r.kind == BlockKind::Heading(1))
        .unwrap();
    let para = ranges
        .iter()
        .find(|r| r.kind == BlockKind::Paragraph)
        .unwrap();
    let only = raw_span(&ranges, src.len(), heading.range.start, None);
    assert_eq!(only, heading.range);
    let span = raw_span(
        &ranges,
        src.len(),
        heading.range.start,
        Some(heading.range.start..para.range.start + 1),
    );
    assert_eq!(span.start, heading.range.start);
    assert_eq!(span.end, para.range.end);
    assert!(span.end > heading.range.end);
}

#[test]
fn splice_replaces_range() {
    assert_eq!(splice("hello", 1..4, "i"), "hio");
    assert_eq!(splice("# H\n\npara", 0..3, "## X"), "## X\n\npara");
}

#[test]
fn slash_query_at_line_start() {
    assert_eq!(slash_query_at("/head", 1), Some("head"));
    assert_eq!(slash_query_at("para\n/h1", 6), Some("h1"));
    assert_eq!(slash_query_at("not /a slash", 4), None);
    assert_eq!(slash_query_at("hello", 0), None);
}

// ---- further cases ----

#[test]
fn block_ids_increase_in_document_order() {
    let mut ids = BlockIds::new();
    let blocks = parse_blocks("# a\n\nb\n\nc\n", &mut ids);
    assert_eq!(blocks.len(), 3);
    assert_eq!(blocks[0].id, 1);
    assert_eq!(blocks[1].id, 2);
    assert_eq!(blocks[2].id, 3);
    assert_eq!(ids.next, 4);
}

#[test]
fn parse_blocks_keeps_sources_without_trailing_breaks() {
    let blocks = parse("# Title\n\nsome text\n");
    assert_eq!(blocks.len(), 2);
    assert_eq!(blocks[0].source, "# Title");
    assert_eq!(blocks[1].source, "some text");
}

#[test]
fn serialize_joins_with_blank_lines_and_ends_in_newline() {
    let mut ids = BlockIds::new();
    let blocks = vec![
        Block::paragraph(&mut ids, "one  ".to_string()),
        Block::paragraph(&mut ids, "   ".to_string()),
        Block::paragraph(&mut ids, "two".to_string()),
    ];
    assert_eq!(serialize(&blocks), "one\n\ntwo\n");
}

#[test]
fn trailing_paragraph_added_once() {
    let mut ids = BlockIds::new();
    let mut blocks = parse_blocks("# H\n", &mut ids);
    ensure_trailing_paragraph(&mut blocks, &mut ids);
    assert_eq!(blocks.len(), 2);
    assert_eq!(blocks[1].kind, BlockKind::Paragraph);
    assert!(blocks[1].is_empty());
    ensure_trailing_paragraph(&mut blocks, &mut ids);
    assert_eq!(blocks.len(), 2);
}

#[test]
fn replace_block_past_end_appends_paragraph() {
    let mut ids = BlockIds::new();
    let mut blocks = parse_blocks("a\n", &mut ids);
    let last = replace_block(&mut blocks, 5, "tail".into(), &mut ids);
    assert_eq!(last, 1);
    assert_eq!(blocks[1].source, "tail");
    let again = replace_block(&mut blocks, 0, "  ".into(), &mut ids);
    assert_eq!(again, 0);
    assert_eq!(blocks[0].kind, BlockKind::Paragraph);
    assert_eq!(blocks[0].source, "");
}

#[test]
fn infer_kind_reads_first_block() {
    assert_eq!(infer_kind("## two"), BlockKind::Heading(2));
    assert_eq!(infer_kind("- item"), BlockKind::List { ordered: false });
    assert_eq!(infer_kind("   "), BlockKind::Paragraph);
    assert_eq!(infer_kind("> [!TIP]\n> x"), BlockKind::Alert(AlertKind::Tip));
}

#[test]
fn extract_links_texts_and_fragments() {
    let links = extract_links("[a](#top) [b](  http://x.y/z  \"t\" ) <mailto:q> https://e.f/g?h=1).");
    assert_eq!(links.len(), 2);
    assert_eq!(links[0].text, "b");
    assert_eq!(links[0].url, "http://x.y/z");
    assert_eq!(links[1].text, "https://e.f/g?h=1");
}

#[test]
fn task_lines_split_and_detect() {
    assert_eq!(
        split_task_line("  1. [X] done"),
        Some(("  1. ".to_string(), true, " done".to_string()))
    );
    assert_eq!(split_task_line("- [?] no"), None);
    assert!(has_task_line("text\n* [ ] a\n"));
    assert!(!has_task_line("text\n* a\n"));
    assert_eq!(toggle_task_line("a\n- [ ] b", 5), None);
}

#[test]
fn toggle_task_twice_restores_source() {
    let src = "intro\n  1. [ ] first\n  2) [x] second\n";
    for line in 1..3 {
        let once = toggle_task_line(src, line).unwrap();
        assert_ne!(once, src);
        assert_eq!(toggle_task_line(&once, line).unwrap(), src);
    }
    let upper = "* [X] shout";
    let once = toggle_task_line(upper, 0).unwrap();
    assert_eq!(once, "* [ ] shout");
    assert_eq!(toggle_task_line(&once, 0).unwrap(), "* [x] shout");
}

#[test]
fn trailing_paragraph_is_not_written() {
    let mut ids = BlockIds::new();
    let mut blocks = parse_blocks("# T\n\nbody\n", &mut ids);
    let before = serialize(&blocks);
    ensure_trailing_paragraph(&mut blocks, &mut ids);
    assert_eq!(blocks.last().unwrap().source, "");
    assert_eq!(serialize(&blocks), before);
    assert_eq!(before, "# T\n\nbody\n");
}

#[test]
fn raw_span_covers_every_touched_range() {
    let src = "# H\n\none\n\ntwo\n\nthree\n";
    let ranges = parse_ranges(src);
    // Selection given backwards, from inside "three" to inside "one".
    let a = src.find("thr").unwrap() + 1;
    let b = src.find("one").unwrap() + 1;
    let span = raw_span(&ranges, src.len(), b, Some(a..b));
    for r in &ranges {
        if r.range.start < a.max(b) && a.min(b) < r.range.end {
            assert!(span.start <= r.range.start && r.range.end <= span.end, "{r:?} {span:?}");
        }
    }
    assert_eq!(&src[span.clone()].trim_end(), &"one\n\ntwo\n\nthree");
}

#[test]
fn task_lines_are_the_toggleable_ones() {
    let with = "a\n  - [x] b\nc";
    assert!(has_task_line(with));
    assert!(toggle_task_line(with, 1).is_some());
    assert!(toggle_task_line(with, 0).is_none());
    let without = "a\n- b\n1. c";
    assert!(!has_task_line(without));
    assert!((0..4).all(|j| toggle_task_line(without, j).is_none()));
}

#[test]
fn splice_is_undone_by_splicing_back() {
    let src = "hello brave world";
    let out = splice(src, 6..11, "new");
    assert_eq!(out, "hello new world");
    assert_eq!(splice(&out, 6..9, &src[6..11]), src);
    // Clamped past the end.
    let out = splice(src, 11..99, "!");
    assert_eq!(out, "hello brave!");
    assert_eq!(splice(&out, 11..12, &src[11..]), src);
}

#[test]
fn toggling_changes_only_the_box_byte() {
    let src = "intro\n  3) [X] done\n- [ ] todo\n";
    for line in 1..3 {
        let t = toggle_task_line(src, line).unwrap();
        assert_eq!(t.len(), src.len());
        let diff: Vec<usize> = (0..src.len())
            .filter(|&k| src.as_bytes()[k] != t.as_bytes()[k])
            .collect();
        assert_eq!(diff.len(), 1);
    }
}

#[test]
fn task_line_shapes() {
    assert_eq!(
        split_task_line("  - [x] done"),
        Some(("  - ".to_string(), true, " done".to_string()))
    );
    assert_eq!(
        split_task_line("12) [X] y"),
        Some(("12) ".to_string(), true, " y".to_string()))
    );
    assert_eq!(
        split_task_line("* [ ]"),
        Some(("* ".to_string(), false, "".to_string()))
    );
    assert_eq!(split_task_line("- bullet"), None);
    assert_eq!(split_task_line("- [y] odd"), None);
    assert_eq!(split_task_line("1 [ ] no dot"), None);
}

#[test]
fn alert_labels_read_back() {
    for k in [
        AlertKind::Note,
        AlertKind::Tip,
        AlertKind::Important,
        AlertKind::Warning,
        AlertKind::Caution,
    ] {
        assert_eq!(AlertKind::parse(k.as_str()), Some(k));
        assert_eq!(AlertKind::parse(&k.as_str().to_ascii_lowercase()), Some(k));
        assert_eq!(AlertKind::parse(&format!("  {}  ", k.as_str())), Some(k));
    }
    assert_eq!(AlertKind::parse(" note "), Some(AlertKind::Note));
    assert_eq!(AlertKind::parse("info"), None);
}
