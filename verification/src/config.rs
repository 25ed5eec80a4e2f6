//! User settings: editor, theme and fonts, as stored in
//! `~/.config/crabmd/config.toml`. Reading and writing the file happen
//! outside the library; this module holds the values and the rules that
//! turn what the file said into settings.
use vstd::prelude::*;

use crate::document::blank_text;
use crate::text::utf8;

verus! {

/// Helix, Vim or Notion key handling.
#[derive(Clone, Copy, Debug, PartialEq, Eq, Structural)]
pub enum EditorKind {
    Helix,
    Vim,
    Notion,
}

impl Default for EditorKind {
    fn default() -> (r: EditorKind)
        ensures
            r == EditorKind::Helix,
    {
        EditorKind::Helix
    }
}

impl EditorKind {
    pub open spec fn name(self) -> Seq<char> {
        match self {
            EditorKind::Helix => "helix"@,
            EditorKind::Vim => "vim"@,
            EditorKind::Notion => "notion"@,
        }
    }

    /// The name written in the settings file.
    pub fn as_str(self) -> (r: &'static str)
        ensures
            r@ == self.name(),
    {
        match self {
            EditorKind::Helix => "helix",
            EditorKind::Vim => "vim",
            EditorKind::Notion => "notion",
        }
    }

    /// Helix and Vim have modes; Notion does not.
    pub fn is_modal(self) -> (r: bool)
        ensures
            r == !(self is Notion),
    {
        !matches!(self, EditorKind::Notion)
    }
}

/// One font face and size, shared by the UI, markdown and buffer slots.
#[derive(Debug)]
pub struct FontSpec {
    pub family: String,
    pub size: u32,
}

/// A font as (family, size).
pub open spec fn font_view(f: FontSpec) -> (Seq<char>, u32) {
    (f.family@, f.size)
}

/// `s` clamped to `13..=20`, the sizes the settings offer.
pub open spec fn clamp_size(s: u32) -> u32 {
    if s < 13 {
        13
    } else if s > 20 {
        20
    } else {
        s
    }
}

pub open spec fn plex_sans() -> Seq<char> {
    "IBM Plex Sans"@
}

pub open spec fn jetbrains_mono() -> Seq<char> {
    "JetBrains Mono"@
}

pub open spec fn default_ui() -> (Seq<char>, u32) {
    (plex_sans(), 13)
}

pub open spec fn default_markdown() -> (Seq<char>, u32) {
    (plex_sans(), 15)
}

pub open spec fn default_buffer() -> (Seq<char>, u32) {
    (jetbrains_mono(), 14)
}

/// Size clamped; a blank family replaced by the UI default family.
pub open spec fn clamped(f: (Seq<char>, u32)) -> (Seq<char>, u32) {
    (
        if blank_text(utf8(f.0)) {
            plex_sans()
        } else {
            f.0
        },
        clamp_size(f.1),
    )
}

fn clamp_size_exec(s: u32) -> (r: u32)
    ensures
        r == clamp_size(s),
{
    if s < 13 {
        13
    } else if s > 20 {
        20
    } else {
        s
    }
}

impl FontSpec {
    /// A font with its size clamped to `13..=20`.
    pub fn new(family: &str, size: u32) -> (r: FontSpec)
        ensures
            font_view(r) == (family@, clamp_size(size)),
    {
        FontSpec { family: crate::text::owned(family), size: clamp_size_exec(size) }
    }

    /// Size clamped to `13..=20`; a blank family becomes the UI default.
    pub fn clamp(self) -> (r: FontSpec)
        ensures
            font_view(r) == clamped(font_view(self)),
    {
        let size = clamp_size_exec(self.size);
        let b = crate::text::bytes_of(self.family.as_str());
        let n: usize = b.len();
        if crate::text::trim_start_idx(b, 0, n) >= n {
            FontSpec { family: crate::text::owned("IBM Plex Sans"), size }
        } else {
            FontSpec { family: self.family, size }
        }
    }
}

pub fn default_ui_font() -> (r: FontSpec)
    ensures
        font_view(r) == default_ui(),
{
    FontSpec::new("IBM Plex Sans", 13)
}

pub fn default_markdown_font() -> (r: FontSpec)
    ensures
        font_view(r) == default_markdown(),
{
    FontSpec::new("IBM Plex Sans", 15)
}

pub fn default_buffer_font() -> (r: FontSpec)
    ensures
        font_view(r) == default_buffer(),
{
    FontSpec::new("JetBrains Mono", 14)
}

/// The theme used when the file names none.
pub open spec fn default_theme_name() -> Seq<char> {
    "opencode"@
}

fn default_theme() -> (r: String)
    ensures
        r@ == default_theme_name(),
{
    crate::text::owned("opencode")
}

/// The settings.
#[derive(Debug)]
pub struct Config {
    /// Helix, Vim, or Notion.
    pub editor: EditorKind,
    pub theme: String,
    /// When true, `j`/`k` count wrapped visual lines in source view.
    pub wrap_motions: bool,
    /// When true, markdown is not held to a fixed column width.
    pub full_width: bool,
    /// Titlebar, footer, settings chrome.
    pub ui_font: FontSpec,
    /// Prose, headings, lists, quotes.
    pub markdown_font: FontSpec,
    /// Fenced code blocks.
    pub buffer_font: FontSpec,
}

impl Default for Config {
    fn default() -> (r: Config)
        ensures
            r.editor == EditorKind::Helix,
            r.theme@ == default_theme_name(),
            r.wrap_motions,
            !r.full_width,
            font_view(r.ui_font) == default_ui(),
            font_view(r.markdown_font) == default_markdown(),
            font_view(r.buffer_font) == default_buffer(),
    {
        Config {
            editor: EditorKind::Helix,
            theme: default_theme(),
            wrap_motions: true,
            full_width: false,
            ui_font: default_ui_font(),
            markdown_font: default_markdown_font(),
            buffer_font: default_buffer_font(),
        }
    }
}

/// What the settings file said, with the keys it may leave out as
/// `None`, and the older single `font_family` / `font_size` keys.
#[derive(Debug)]
pub struct RawConfig {
    pub editor: EditorKind,
    pub theme: String,
    pub wrap_motions: bool,
    pub full_width: bool,
    pub ui_font: Option<FontSpec>,
    pub markdown_font: Option<FontSpec>,
    pub buffer_font: Option<FontSpec>,
    pub font_family: Option<String>,
    pub font_size: Option<u32>,
}

pub open spec fn opt_font(f: Option<FontSpec>) -> Option<(Seq<char>, u32)> {
    match f {
        Some(x) => Some(font_view(x)),
        None => None,
    }
}

/// The font named by the older keys: `font_family` at `font_size`
/// (15 when missing), size clamped.
pub open spec fn legacy_font(raw: RawConfig) -> Option<(Seq<char>, u32)> {
    match raw.font_family {
        Some(f) => Some(
            (
                f@,
                clamp_size(
                    match raw.font_size {
                        Some(s) => s,
                        None => 15,
                    },
                ),
            ),
        ),
        None => None,
    }
}

/// `a`, else `b`, else `c`.
pub open spec fn first_of3(
    a: Option<(Seq<char>, u32)>,
    b: Option<(Seq<char>, u32)>,
    c: (Seq<char>, u32),
) -> (Seq<char>, u32) {
    match a {
        Some(x) => x,
        None => match b {
            Some(y) => y,
            None => c,
        },
    }
}

fn legacy_exec(family: &Option<String>, size: Option<u32>) -> (r: Option<FontSpec>)
    ensures
        opt_font(r) == match family {
            Some(f) => Some(
                (
                    f@,
                    clamp_size(
                        match size {
                            Some(s) => s,
                            None => 15u32,
                        },
                    ),
                ),
            ),
            None => None::<(Seq<char>, u32)>,
        },
{
    match family {
        Some(f) => Some(
            FontSpec::new(
                f.as_str(),
                match size {
                    Some(s) => s,
                    None => 15,
                },
            ),
        ),
        None => None,
    }
}

impl Config {
    /// Settings from what the file said: missing fonts take their
    /// defaults, the older keys fill the markdown and buffer fonts, and
    /// every font is clamped.
    pub fn from_raw(raw: RawConfig) -> (r: Config)
        ensures
            r.editor == raw.editor,
            r.theme == raw.theme,
            r.wrap_motions == raw.wrap_motions,
            r.full_width == raw.full_width,
            font_view(r.ui_font) == clamped(first_of3(opt_font(raw.ui_font), None, default_ui())),
            font_view(r.markdown_font) == clamped(
                first_of3(opt_font(raw.markdown_font), legacy_font(raw), default_markdown()),
            ),
            font_view(r.buffer_font) == clamped(
                first_of3(opt_font(raw.buffer_font), legacy_font(raw), default_buffer()),
            ),
    {
        let ghost raw0 = raw;
        let legacy_md = legacy_exec(&raw.font_family, raw.font_size);
        let legacy_buf = legacy_exec(&raw.font_family, raw.font_size);
        let ui = match raw.ui_font {
            Some(f) => f,
            None => default_ui_font(),
        };
        let md = match raw.markdown_font {
            Some(f) => f,
            None => match legacy_md {
                Some(l) => l,
                None => default_markdown_font(),
            },
        };
        let buf = match raw.buffer_font {
            Some(f) => f,
            None => match legacy_buf {
                Some(l) => l,
                None => default_buffer_font(),
            },
        };
        Config {
            editor: raw.editor,
            theme: raw.theme,
            wrap_motions: raw.wrap_motions,
            full_width: raw.full_width,
            ui_font: ui.clamp(),
            markdown_font: md.clamp(),
            buffer_font: buf.clamp(),
        }
    }
}

/// `config.toml` inside the settings directory `dir`, joined the way
/// `Path::join` joins a relative name on Unix.
pub open spec fn config_file_in(dir: Seq<u8>) -> Seq<u8> {
    let name = seq![99u8, 111, 110, 102, 105, 103, 46, 116, 111, 109, 108];
    if dir.len() == 0 {
        name
    } else if dir.last() == 47 {
        dir + name
    } else {
        dir + seq![47u8] + name
    }
}

/// Path of the settings file inside the settings directory `dir`.
pub fn config_path(dir: &str) -> (r: String)
    ensures
        utf8(r@) == config_file_in(utf8(dir@)),
{
    let d = crate::text::bytes_of(dir);
    let n: usize = d.len();
    let name: [u8; 11] = [99, 111, 110, 102, 105, 103, 46, 116, 111, 109, 108];
    assert(name@ =~= seq![99u8, 111, 110, 102, 105, 103, 46, 116, 111, 109, 108]);
    let mut out = crate::text::slice_vec(d, 0, n);
    let ghost base = out@;
    if n > 0 && d[n - 1] != 47 {
        out.push(47);
    }
    let ghost mid = out@;
    crate::text::extend_from(&mut out, name.as_slice(), 0, 11);
    proof {
        assert(d@.subrange(0, n as int) =~= d@);
        assert(name@.subrange(0, 11) =~= name@);
        assert(out@ =~= mid + name@);
        assert(out@ =~= config_file_in(d@));
        crate::text::lemma_ascii_valid(name@);
        crate::text::lemma_ascii_valid(seq![47u8]);
        if n > 0 && d@[n - 1] != 47 {
            assert(mid =~= d@ + seq![47u8]);
            crate::text::lemma_valid_concat(d@, seq![47u8]);
        }
        crate::text::lemma_valid_concat(mid, name@);
    }
    crate::text::string_of_bytes(out)
}

/// Every font the settings end up with has a size in `13..=20` and a
/// family that is not blank.
pub proof fn lemma_clamped_font(f: (Seq<char>, u32))
    ensures
        13 <= clamped(f).1 <= 20,
        !blank_text(utf8(clamped(f).0)),
{
    if blank_text(utf8(f.0)) {
        assert(!blank_text(utf8(plex_sans()))) by {
            reveal_strlit("IBM Plex Sans");
            crate::text::lemma_ascii_lit("IBM Plex Sans");
            let b = utf8(plex_sans());
            assert(b[0] == 73u8);
            assert(crate::text::ws_at(b, 0) == 0);
        }
    }
}

} // verus!
