use crabmd::frontmatter::{
    line_for_prop, parse, plain_inlines, quote_if_needed, row_to_yaml, serialize_block, split,
    Frontmatter,
};

#[test]
fn splits_leading_block() {
    let src = "---\ntitle: Hi\n---\n\n# Body\n";
    let (start, inner) = split(src).unwrap();
    assert!(inner.contains("title: Hi"));
    assert!(src[start..].contains("# Body"));
}

#[test]
fn no_frontmatter() {
    assert!(split("# Just a doc\n").is_none());
    assert!(split("---\nno close").is_none());
}

#[test]
fn parses_example() {
    let src = "---\ntitle: Terminal Keymaps\ndescription: Line jumps\n---\n\n# Hi\n";
    let (fm, _) = parse(src).unwrap();
    assert_eq!(fm.props.len(), 2);
    assert_eq!(fm.props[0].key, "title");
    assert_eq!(fm.props[1].value, "Line jumps");
}

#[test]
fn roundtrip_block_list() {
    let src = "---\ntags:\n  - a\n  - b\n---\n\nHi\n";
    let (fm, _) = parse(src).unwrap();
    assert_eq!(fm.props[0].value, "a, b");
}

#[test]
fn hr_not_frontmatter() {
    // `---` later in the doc is a rule, not frontmatter.
    assert!(split("# T\n\n---\n\ntext\n").is_none());
}

#[test]
fn folds_literal_newlines() {
    let src = "---\ndesc: |\n  line one\n  line two\n---\n\nHi\n";
    let (fm, _) = parse(src).unwrap();
    assert_eq!(fm.props[0].value, "line one line two");
}

// ---- further cases ----

#[test]
fn split_reports_body_start_and_inner() {
    let src = "---\na: 1\n...\nbody";
    let (start, inner) = split(src).unwrap();
    assert_eq!(inner, "a: 1\n");
    assert_eq!(&src[start..], "body");
}

#[test]
fn parse_strips_quotes_and_skips_comments() {
    let src = "---\n# note\n\"quoted key\": 'v'\nfree text here\nempty:\n---\n";
    let (fm, start) = parse(src).unwrap();
    assert_eq!(start, src.len());
    assert_eq!(fm.props.len(), 2);
    assert_eq!(fm.props[0].key, "quoted key");
    assert_eq!(fm.props[0].value, "v");
    assert_eq!(fm.props[1].key, "empty");
    assert_eq!(fm.props[1].value, "");
    assert!(!fm.is_empty());
    assert!(Frontmatter::default().is_empty());
}

#[test]
fn prop_lines() {
    assert_eq!(line_for_prop("title", "Hi"), "title: Hi");
    assert_eq!(line_for_prop("title", ""), "title: ");
}

#[test]
fn quoting_only_when_yaml_would_misread() {
    assert_eq!(quote_if_needed("plain words"), "plain words");
    assert_eq!(quote_if_needed(""), "");
    assert_eq!(quote_if_needed("a: b"), "\"a: b\"");
    assert_eq!(quote_if_needed("#tag"), "\"#tag\"");
    assert_eq!(quote_if_needed(" pad"), "\" pad\"");
    assert_eq!(quote_if_needed("say \"hi\" #now"), "\"say \\\"hi\\\" #now\"");
    assert_eq!(quote_if_needed("two\nlines"), "two lines");
}

#[test]
fn rows_back_to_yaml() {
    assert_eq!(row_to_yaml("  "), "untitled: ");
    assert_eq!(row_to_yaml("title:  Hello "), "title: Hello");
    assert_eq!(row_to_yaml(": orphan"), ": orphan");
    assert_eq!(row_to_yaml("bare"), "bare: ");
    assert_eq!(row_to_yaml("k: -x"), "k: \"-x\"");
    assert_eq!(
        serialize_block(&["a: 1".to_string(), "b".to_string()]),
        "---\na: 1\nb: \n---\n"
    );
}

#[test]
fn plain_inline_is_one_unmarked_run() {
    let runs = plain_inlines("a\nb\rc");
    assert_eq!(runs.len(), 1);
    assert_eq!(runs[0].text, "a b c");
    assert!(!runs[0].marks.bold);
    assert!(plain_inlines("").is_empty());
}

#[test]
fn parsed_props_write_back_symmetrically() {
    let src = "---\ntitle: Hi: there\ntags:\n  - a\n  - b\nempty:\nnote: plain\n---\n";
    let (fm, _) = parse(src).unwrap();
    let rows: Vec<String> = fm
        .props
        .iter()
        .map(|p| row_to_yaml(&line_for_prop(&p.key, &p.value)))
        .collect();
    let expected: Vec<String> = fm
        .props
        .iter()
        .map(|p| format!("{}: {}", p.key, quote_if_needed(&p.value)))
        .collect();
    assert_eq!(rows, expected);
    assert_eq!(rows[0], "title: \"Hi: there\"");
    assert_eq!(rows[1], "tags: a, b");
    assert_eq!(rows[2], "empty: ");
    assert_eq!(rows[3], "note: plain");
}

#[test]
fn written_block_reads_back() {
    let rows: Vec<String> = ["title: Hi", "---", "...", "bare", ""]
        .iter()
        .map(|s| s.to_string())
        .collect();
    let block = serialize_block(&rows);
    assert_eq!(block, "---\ntitle: Hi\n---: \n...: \nbare: \nuntitled: \n---\n");
    let (end, inner) = split(&block).unwrap();
    assert_eq!(end, block.len());
    assert_eq!(inner, "title: Hi\n---: \n...: \nbare: \nuntitled: \n");
    let (fm, _) = parse(&block).unwrap();
    let keys: Vec<&str> = fm.props.iter().map(|p| p.key.as_str()).collect();
    assert_eq!(keys, vec!["title", "---", "...", "bare", "untitled"]);
}
