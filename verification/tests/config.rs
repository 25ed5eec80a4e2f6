use crabmd::config::{
    config_path, default_buffer_font, default_markdown_font, default_ui_font, Config, EditorKind,
    FontSpec, RawConfig,
};

fn raw() -> RawConfig {
    RawConfig {
        editor: EditorKind::default(),
        theme: "opencode".to_string(),
        wrap_motions: true,
        full_width: false,
        ui_font: None,
        markdown_font: None,
        buffer_font: None,
        font_family: None,
        font_size: None,
    }
}

#[test]
fn default_is_helix_opencode_wrap_on_without_keys() {
    let cfg = Config::from_raw(raw());
    assert_eq!(cfg.editor, EditorKind::Helix);
    assert_eq!(cfg.theme, "opencode");
    assert!(cfg.wrap_motions);
    assert!(!cfg.full_width);
    assert_eq!(cfg.markdown_font.family, "IBM Plex Sans");
    assert_eq!(cfg.markdown_font.size, 15);
    assert_eq!(cfg.buffer_font.size, 14);
    let d = Config::default();
    assert_eq!(d.theme, "opencode");
    assert_eq!(d.ui_font.size, 13);
}

#[test]
fn legacy_font_keys_fill_markdown_and_buffer() {
    let mut r = raw();
    r.editor = EditorKind::Vim;
    r.font_family = Some("Menlo".to_string());
    r.font_size = Some(18);
    let cfg = Config::from_raw(r);
    assert_eq!(cfg.editor, EditorKind::Vim);
    assert_eq!(cfg.markdown_font.family, "Menlo");
    assert_eq!(cfg.markdown_font.size, 18);
    assert_eq!(cfg.buffer_font.family, "Menlo");
    assert_eq!(cfg.buffer_font.size, 18);
    // UI keeps its own default unless overridden.
    assert_eq!(cfg.ui_font.family, default_ui_font().family);
}

#[test]
fn fonts_are_clamped() {
    let mut r = raw();
    r.ui_font = Some(FontSpec { family: "  ".to_string(), size: 2 });
    r.buffer_font = Some(FontSpec { family: "Mono".to_string(), size: 99 });
    let cfg = Config::from_raw(r);
    assert_eq!(cfg.ui_font.family, "IBM Plex Sans");
    assert_eq!(cfg.ui_font.size, 13);
    assert_eq!(cfg.buffer_font.size, 20);
    assert_eq!(FontSpec::new("x", 100).size, 20);
    assert_eq!(FontSpec::new("x", 30).size, 20);
    assert_eq!(FontSpec::new("x", 12).size, 13);
    assert_eq!(FontSpec::new("x", 17).size, 17);
}

#[test]
fn editor_names() {
    assert_eq!(EditorKind::Notion.as_str(), "notion");
    assert!(!EditorKind::Notion.is_modal());
    assert!(EditorKind::Helix.is_modal());
    assert_eq!(EditorKind::Vim.as_str(), "vim");
}

#[test]
fn default_fonts() {
    assert_eq!(default_markdown_font().size, 15);
    assert_eq!(default_buffer_font().family, "JetBrains Mono");
}

#[test]
fn config_file_joins_dir() {
    assert_eq!(config_path("/h/.config/crabmd"), "/h/.config/crabmd/config.toml");
    assert_eq!(config_path("/d/"), "/d/config.toml");
    assert_eq!(config_path(""), "config.toml");
}
