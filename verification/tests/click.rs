use crabmd::click::{click_step, ClickAction, ClickState, EditMode, Granularity};
use crabmd::config::EditorKind;
use crabmd::display::{project, Affinity};

fn state(editor: EditorKind, mode: EditMode) -> ClickState {
    ClickState {
        caret: 0,
        sel: None,
        mode,
        editor,
        visual_anchor: None,
        mouse_anchor: None,
        mouse_unit: None,
        granularity: Granularity::Char,
        affinity: Affinity::Outside,
        table_anchor: None,
        table_sel: None,
        media_sel: None,
        link_open: true,
        view_source: false,
        palette_open: false,
        mouse_dragging: false,
    }
}

#[test]
fn click_places_caret_without_forcing_insert() {
    let src = "hello world";
    let p = project(src);
    let (s, a) = click_step(state(EditorKind::Helix, EditMode::Select), &p, src, 3, false, false, 1, None);
    assert_eq!(a, ClickAction::Place);
    assert_eq!(s.caret, 3);
    assert_eq!(s.mode, EditMode::Normal);
    assert!(s.sel.is_none());
    assert!(!s.link_open);
    assert!(s.mouse_dragging);
    let (s, _) = click_step(state(EditorKind::Vim, EditMode::Insert), &p, src, 4, false, false, 1, None);
    assert_eq!(s.mode, EditMode::Insert);
    assert_eq!(s.caret, 4);
}

#[test]
fn shift_click_extends_the_selection() {
    let src = "hello world";
    let p = project(src);
    let mut st = state(EditorKind::Helix, EditMode::Normal);
    st.caret = 2;
    let (s, _) = click_step(st, &p, src, 8, true, false, 1, None);
    assert_eq!(s.mode, EditMode::Select);
    assert_eq!(s.sel, Some(2..8));
    assert_eq!(s.visual_anchor, Some(2));
    assert_eq!(s.caret, 8);
}

#[test]
fn double_click_selects_the_unit() {
    let src = "hello world";
    let p = project(src);
    let (s, a) = click_step(state(EditorKind::Notion, EditMode::Insert), &p, src, 7, false, false, 2, Some(6..11));
    assert_eq!(a, ClickAction::Place);
    assert_eq!(s.sel, Some(6..11));
    assert_eq!(s.caret, 11);
    assert_eq!(s.granularity, Granularity::Word);
}

#[test]
fn links_select_or_open() {
    let src = "see [docs](https://x.dev) now";
    let p = project(src);
    let d = p.display.find("docs").unwrap() + 1;
    let (_, a) = click_step(state(EditorKind::Helix, EditMode::Normal), &p, src, d, false, true, 1, None);
    assert_eq!(a, ClickAction::OpenLink);
    let (s, a) = click_step(state(EditorKind::Helix, EditMode::Normal), &p, src, d, false, false, 1, None);
    assert_eq!(a, ClickAction::SelectLink);
    let r = s.sel.unwrap();
    assert_eq!(&p.display[r.clone()], "docs");
    assert_eq!(s.caret, r.end);
}

#[test]
fn ignored_while_the_palette_is_open() {
    let src = "abc";
    let p = project(src);
    let mut st = state(EditorKind::Vim, EditMode::Normal);
    st.palette_open = true;
    let (s, a) = click_step(st, &p, src, 1, false, false, 1, None);
    assert_eq!(a, ClickAction::Ignore);
    assert_eq!(s.caret, 0);
}

#[test]
fn clicks_in_tables_anchor_a_cell_selection() {
    let src = "| a | b |\n| --- | --- |\n| 1 | 2 |";
    let p = project(src);
    let at = |t: &str| p.display.find(t).unwrap();
    let (s, _) = click_step(state(EditorKind::Vim, EditMode::Normal), &p, src, at("a"), false, false, 1, None);
    assert_eq!(s.table_anchor, Some((0, 0, 0)));
    let (s, _) = click_step(s, &p, src, at("2"), true, false, 1, None);
    let rect = s.table_sel.unwrap();
    assert_eq!((rect.r0, rect.c0, rect.r1, rect.c1), (0, 0, 1, 1));
    let sel = s.sel.unwrap();
    assert!(sel.start <= at("a") && at("2") < sel.end);
}
