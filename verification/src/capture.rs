//! Key capture: which handler a key press goes to, decided from the key,
//! its modifiers and which overlays and pending commands are open. The
//! window performs the action that comes back.
use vstd::prelude::*;
use vstd::utf8::*;

use crate::text::utf8;

verus! {

/// Modifier keys held with a key press.
#[derive(Clone, Copy, Debug, PartialEq, Eq, Structural)]
pub struct KeyMods {
    pub platform: bool,
    pub control: bool,
    pub alt: bool,
    pub shift: bool,
}

/// What of the editor's state the key capture looks at.
#[derive(Clone, Copy, Debug, PartialEq, Eq, Structural)]
pub struct CaptureState {
    /// `cmd-k` was pressed and waits for its second key.
    pub pending_chord: bool,
    pub palette_open: bool,
    /// The palette shows a submenu, not its root list.
    pub palette_submenu: bool,
    pub palette_query_empty: bool,
    pub link_open: bool,
    pub command_open: bool,
    pub search_open: bool,
    pub view_source: bool,
    pub settings_open: bool,
    /// A text input of a panel has the keyboard focus.
    pub overlay_focused: bool,
    /// One of the settings' font size inputs has the keyboard focus.
    pub size_field_focused: bool,
    pub pending_replace: bool,
    pub pending_find: bool,
    pub pending_bracket: bool,
    /// A text object waits for its delimiter (`di`, `ca`, …).
    pub pending_obj_inner: bool,
    pub pending_g: bool,
    /// Helix or Vim in a normal, visual or select mode.
    pub modal_nav: bool,
    /// Insert mode, or the Notion editor.
    pub insert_like: bool,
    pub slash_open: bool,
    /// The caret is on a video that is ready to play.
    pub video_at_caret: bool,
    /// The open overlay's line field was offered this key and left it.
    pub field_declined: bool,
}

/// An overlay with a one-line text field.
#[derive(Clone, Copy, Debug, PartialEq, Eq, Structural)]
pub enum Overlay {
    Palette,
    Link,
    Command,
    Search,
}

/// A caret move of the arrow and home / end keys.
#[derive(Clone, Copy, Debug, PartialEq, Eq, Structural)]
pub enum NavMove {
    WordBack,
    WordForward,
    LineStart,
    LineEnd,
    Left,
    Right,
    Up,
    Down,
}

/// What the window does with the key.
#[derive(Clone, Copy, Debug, PartialEq, Eq, Structural)]
pub enum CaptureAction {
    /// Start the `cmd-k` chord (status `cmd-k … (t themes)`).
    StartChord,
    /// Second key of the chord: open the theme picker.
    OpenThemes,
    /// Not handled here: let the key reach the key bindings.
    PassOn,
    /// Handled by doing nothing.
    Swallow,
    /// A non-digit typed into a font size input: dropped.
    RejectSizeKey,
    /// Offer the key to the overlay's line field first (delete and caret
    /// keys); when the field leaves it, ask again with `field_declined`.
    OfferToField(Overlay),
    PaletteCancel,
    PaletteBack,
    PaletteMove(bool),
    PaletteResetIndex,
    Insert(Overlay, char),
    Backspace(Overlay),
    Close(Overlay),
    Submit(Overlay),
    SearchCycleBack,
    CancelReplace,
    Replace(char),
    CancelFind,
    Find(char),
    CancelBracket,
    /// Finish a pending `[` / `]` with this key.
    Bracket,
    TextObject(char),
    FirstNonBlank,
    /// Break the line (`true`: shift held).
    Newline(bool),
    ToggleVideo,
    /// Move in the slash menu (`true`: down).
    SlashMove(bool),
    /// Move the caret (`true`: extend the selection).
    Move(NavMove, bool),
}

/// A control character (`Cc`).
pub open spec fn is_control(c: char) -> bool {
    (c as u32) <= 0x1f || (0x7f <= (c as u32) && (c as u32) <= 0x9f)
}

/// The one character of a one-character key name.
pub open spec fn single(key: Seq<char>) -> Option<char> {
    if key.len() == 1 {
        Some(key[0])
    } else {
        None
    }
}

/// A key that types `c`: one character that is no control character.
pub open spec fn typed(key: Seq<char>) -> Option<char> {
    match single(key) {
        Some(c) => if is_control(c) {
            None
        } else {
            Some(c)
        },
        None => None,
    }
}

/// `space` as a blank, or the typed character.
pub open spec fn typed_or_space(key: Seq<char>) -> Option<char> {
    if key == "space"@ {
        Some(' ')
    } else {
        typed(key)
    }
}

pub open spec fn any_cmd(m: KeyMods) -> bool {
    m.platform || m.control
}

pub open spec fn held(m: KeyMods) -> bool {
    m.control || m.platform || m.alt
}

/// No overlay owns the keyboard.
pub open spec fn no_overlay(s: CaptureState) -> bool {
    !s.command_open && !s.search_open && !s.palette_open && !s.link_open
}

pub open spec fn object_delim(c: char) -> bool {
    c == '"' || c == '\'' || c == '`' || c == '(' || c == ')' || c == '[' || c == ']' || c == '{'
        || c == '}' || c == '<' || c == '>' || c == 'b' || c == 'B'
}

/// Keys of an overlay's line field once the field left them.
pub open spec fn field_key(s: CaptureState, o: Overlay, key: Seq<char>, m: KeyMods) -> CaptureAction {
    if !s.field_declined {
        CaptureAction::OfferToField(o)
    } else if o != Overlay::Link && held(m) {
        CaptureAction::Swallow
    } else if key == "escape"@ {
        match o {
            Overlay::Palette => if s.palette_submenu {
                CaptureAction::PaletteBack
            } else {
                CaptureAction::PaletteCancel
            },
            _ => CaptureAction::Close(o),
        }
    } else if key == "enter"@ {
        if o == Overlay::Search && m.shift {
            CaptureAction::SearchCycleBack
        } else {
            CaptureAction::Submit(o)
        }
    } else if o == Overlay::Palette && key == "up"@ {
        CaptureAction::PaletteMove(false)
    } else if o == Overlay::Palette && key == "down"@ {
        CaptureAction::PaletteMove(true)
    } else if key == "backspace"@ {
        match o {
            Overlay::Palette => if s.palette_query_empty && s.palette_submenu {
                CaptureAction::PaletteBack
            } else {
                CaptureAction::PaletteResetIndex
            },
            _ => CaptureAction::Backspace(o),
        }
    } else if key == "space"@ {
        CaptureAction::Insert(o, ' ')
    } else if o == Overlay::Link && any_cmd(m) {
        CaptureAction::Swallow
    } else {
        match typed(key) {
            Some(c) => CaptureAction::Insert(o, c),
            None => CaptureAction::Swallow,
        }
    }
}

/// A pending replace or find: escape cancels, a typed key completes it.
pub open spec fn pending_char(key: Seq<char>, m: KeyMods, find: bool) -> CaptureAction {
    if key == "escape"@ {
        if find {
            CaptureAction::CancelFind
        } else {
            CaptureAction::CancelReplace
        }
    } else if held(m) {
        CaptureAction::Swallow
    } else {
        match typed_or_space(key) {
            Some(c) => if find {
                CaptureAction::Find(c)
            } else {
                CaptureAction::Replace(c)
            },
            None => CaptureAction::Swallow,
        }
    }
}

/// The caret move of an arrow, home or end key.
pub open spec fn nav_move(key: Seq<char>, m: KeyMods) -> Option<NavMove> {
    let word = m.alt || (m.control && !m.platform);
    if key == "left"@ {
        Some(
            if word {
                NavMove::WordBack
            } else if m.platform {
                NavMove::LineStart
            } else {
                NavMove::Left
            },
        )
    } else if key == "right"@ {
        Some(
            if word {
                NavMove::WordForward
            } else if m.platform {
                NavMove::LineEnd
            } else {
                NavMove::Right
            },
        )
    } else if key == "up"@ {
        Some(NavMove::Up)
    } else if key == "down"@ {
        Some(NavMove::Down)
    } else if key == "home"@ {
        Some(NavMove::LineStart)
    } else if key == "end"@ {
        Some(NavMove::LineEnd)
    } else {
        None
    }
}

/// Keys left once no overlay and no pending command took them.
pub open spec fn editing_key(s: CaptureState, key: Seq<char>, m: KeyMods) -> CaptureAction {
    if key == "enter"@ && !held(m) && s.insert_like && no_overlay(s) && !s.view_source {
        CaptureAction::Newline(m.shift)
    } else if key == "space"@ && !held(m) && no_overlay(s) && !s.view_source && !s.settings_open
        && !s.slash_open && !s.overlay_focused && !s.pending_replace && !s.pending_find
        && !s.pending_bracket && !s.pending_g && s.video_at_caret {
        CaptureAction::ToggleVideo
    } else if (s.modal_nav || s.insert_like) && no_overlay(s) && !s.view_source && !s.pending_replace
        && !s.pending_find && !s.pending_bracket {
        if s.slash_open && key == "up"@ {
            CaptureAction::SlashMove(false)
        } else if s.slash_open && key == "down"@ {
            CaptureAction::SlashMove(true)
        } else {
            match nav_move(key, m) {
                Some(mv) => CaptureAction::Move(mv, m.shift),
                None => CaptureAction::PassOn,
            }
        }
    } else {
        CaptureAction::PassOn
    }
}

/// Keys after the chord and clipboard checks: overlays first, then the
/// pending commands, then editing.
pub open spec fn routed_key(s: CaptureState, key: Seq<char>, m: KeyMods) -> (CaptureState, CaptureAction) {
    if s.settings_open && no_overlay(s) && !held(m) && !m.shift && s.size_field_focused && (match typed(key) {
        Some(c) => !('0' <= c && c <= '9'),
        None => false,
    }) {
        (s, CaptureAction::RejectSizeKey)
    } else if s.palette_open {
        if key == "p"@ && any_cmd(m) && m.shift && !m.alt {
            (s, CaptureAction::PaletteCancel)
        } else {
            (s, field_key(s, Overlay::Palette, key, m))
        }
    } else if s.link_open {
        (s, field_key(s, Overlay::Link, key, m))
    } else if s.pending_replace && s.modal_nav {
        (s, pending_char(key, m, false))
    } else if s.pending_find && s.modal_nav {
        (s, pending_char(key, m, true))
    } else if s.pending_bracket && s.modal_nav {
        (s, if key == "escape"@ {
            CaptureAction::CancelBracket
        } else {
            CaptureAction::Bracket
        })
    } else if s.pending_obj_inner && s.modal_nav && !held(m) && (match single(key) {
        Some(c) => object_delim(c),
        None => false,
    }) {
        (s, CaptureAction::TextObject(key[0]))
    } else if s.pending_g && s.modal_nav && key == "s"@ && !any_cmd(m) {
        (CaptureState { pending_g: false, ..s }, CaptureAction::FirstNonBlank)
    } else if s.command_open {
        (s, field_key(s, Overlay::Command, key, m))
    } else if s.search_open {
        (s, field_key(s, Overlay::Search, key, m))
    } else {
        (s, editing_key(s, key, m))
    }
}

/// Where key `key` with modifiers `m` goes, and the state after it.
pub open spec fn capture_of(s: CaptureState, key: Seq<char>, m: KeyMods) -> (CaptureState, CaptureAction) {
    if (key == "k"@ || key == "K"@) && any_cmd(m) && !m.shift && !m.alt && !s.pending_chord
        && no_overlay(s) && !s.view_source && !s.settings_open && !s.overlay_focused {
        (CaptureState { pending_chord: true, ..s }, CaptureAction::StartChord)
    } else {
        let s2 = CaptureState { pending_chord: false, ..s };
        if s.pending_chord && no_overlay(s) && !s.view_source && !s.settings_open && (key == "t"@
            || key == "T"@) && !m.alt {
            (s2, CaptureAction::OpenThemes)
        } else if (key == "c"@ || key == "x"@ || key == "v"@) && any_cmd(m) && !m.alt && !m.shift {
            (s2, CaptureAction::PassOn)
        } else {
            routed_key(s2, key, m)
        }
    }
}

/// `key` is the key name `name`.
fn key_is(key: &str, name: &str) -> (r: bool)
    ensures
        r == (key@ == name@),
{
    let r = crate::inline::bytes_eq(crate::text::bytes_of(key), crate::text::bytes_of(name));
    proof {
        encode_utf8_decode_utf8(key@);
        encode_utf8_decode_utf8(name@);
    }
    r
}

/// The one character of a one-character key.
fn single_exec(key: &str) -> (r: Option<char>)
    ensures
        r == single(key@),
{
    broadcast use vstd::string::axiom_spec_iter, vstd::string::next_postcondition;

    let mut it = key.chars();
    let a = it.next();
    match a {
        None => None,
        Some(c) => {
            let b = it.next();
            if b.is_none() {
                Some(c)
            } else {
                None
            }
        },
    }
}

fn is_control_exec(c: char) -> (r: bool)
    ensures
        r == is_control(c),
{
    let u = c as u32;
    u <= 0x1f || (0x7f <= u && u <= 0x9f)
}

fn typed_exec(key: &str) -> (r: Option<char>)
    ensures
        r == typed(key@),
{
    match single_exec(key) {
        Some(c) => if is_control_exec(c) {
            None
        } else {
            Some(c)
        },
        None => None,
    }
}

fn field_key_exec(s: CaptureState, o: Overlay, key: &str, m: KeyMods) -> (r: CaptureAction)
    ensures
        r == field_key(s, o, key@, m),
{
    if !s.field_declined {
        CaptureAction::OfferToField(o)
    } else if o != Overlay::Link && (m.control || m.platform || m.alt) {
        CaptureAction::Swallow
    } else if key_is(key, "escape") {
        match o {
            Overlay::Palette => if s.palette_submenu {
                CaptureAction::PaletteBack
            } else {
                CaptureAction::PaletteCancel
            },
            _ => CaptureAction::Close(o),
        }
    } else if key_is(key, "enter") {
        if o == Overlay::Search && m.shift {
            CaptureAction::SearchCycleBack
        } else {
            CaptureAction::Submit(o)
        }
    } else if o == Overlay::Palette && key_is(key, "up") {
        CaptureAction::PaletteMove(false)
    } else if o == Overlay::Palette && key_is(key, "down") {
        CaptureAction::PaletteMove(true)
    } else if key_is(key, "backspace") {
        match o {
            Overlay::Palette => if s.palette_query_empty && s.palette_submenu {
                CaptureAction::PaletteBack
            } else {
                CaptureAction::PaletteResetIndex
            },
            _ => CaptureAction::Backspace(o),
        }
    } else if key_is(key, "space") {
        CaptureAction::Insert(o, ' ')
    } else if o == Overlay::Link && (m.platform || m.control) {
        CaptureAction::Swallow
    } else {
        match typed_exec(key) {
            Some(c) => CaptureAction::Insert(o, c),
            None => CaptureAction::Swallow,
        }
    }
}

fn pending_char_exec(key: &str, m: KeyMods, find: bool) -> (r: CaptureAction)
    ensures
        r == pending_char(key@, m, find),
{
    if key_is(key, "escape") {
        if find {
            CaptureAction::CancelFind
        } else {
            CaptureAction::CancelReplace
        }
    } else if m.control || m.platform || m.alt {
        CaptureAction::Swallow
    } else {
        let ch = if key_is(key, "space") {
            Some(' ')
        } else {
            typed_exec(key)
        };
        match ch {
            Some(c) => if find {
                CaptureAction::Find(c)
            } else {
                CaptureAction::Replace(c)
            },
            None => CaptureAction::Swallow,
        }
    }
}

fn nav_move_exec(key: &str, m: KeyMods) -> (r: Option<NavMove>)
    ensures
        r == nav_move(key@, m),
{
    let word = m.alt || (m.control && !m.platform);
    if key_is(key, "left") {
        Some(
            if word {
                NavMove::WordBack
            } else if m.platform {
                NavMove::LineStart
            } else {
                NavMove::Left
            },
        )
    } else if key_is(key, "right") {
        Some(
            if word {
                NavMove::WordForward
            } else if m.platform {
                NavMove::LineEnd
            } else {
                NavMove::Right
            },
        )
    } else if key_is(key, "up") {
        Some(NavMove::Up)
    } else if key_is(key, "down") {
        Some(NavMove::Down)
    } else if key_is(key, "home") {
        Some(NavMove::LineStart)
    } else if key_is(key, "end") {
        Some(NavMove::LineEnd)
    } else {
        None
    }
}

fn editing_key_exec(s: CaptureState, key: &str, m: KeyMods) -> (r: CaptureAction)
    ensures
        r == editing_key(s, key@, m),
{
    let held = m.control || m.platform || m.alt;
    let no_overlay = !s.command_open && !s.search_open && !s.palette_open && !s.link_open;
    if key_is(key, "enter") && !held && s.insert_like && no_overlay && !s.view_source {
        CaptureAction::Newline(m.shift)
    } else if key_is(key, "space") && !held && no_overlay && !s.view_source && !s.settings_open
        && !s.slash_open && !s.overlay_focused && !s.pending_replace && !s.pending_find
        && !s.pending_bracket && !s.pending_g && s.video_at_caret {
        CaptureAction::ToggleVideo
    } else if (s.modal_nav || s.insert_like) && no_overlay && !s.view_source && !s.pending_replace
        && !s.pending_find && !s.pending_bracket {
        if s.slash_open && key_is(key, "up") {
            CaptureAction::SlashMove(false)
        } else if s.slash_open && key_is(key, "down") {
            CaptureAction::SlashMove(true)
        } else {
            match nav_move_exec(key, m) {
                Some(mv) => CaptureAction::Move(mv, m.shift),
                None => CaptureAction::PassOn,
            }
        }
    } else {
        CaptureAction::PassOn
    }
}

fn routed_key_exec(s: CaptureState, key: &str, m: KeyMods) -> (r: (CaptureState, CaptureAction))
    ensures
        r == routed_key(s, key@, m),
{
    let held = m.control || m.platform || m.alt;
    let no_overlay = !s.command_open && !s.search_open && !s.palette_open && !s.link_open;
    let non_digit = match typed_exec(key) {
        Some(c) => !('0' <= c && c <= '9'),
        None => false,
    };
    if s.settings_open && no_overlay && !held && !m.shift && s.size_field_focused && non_digit {
        (s, CaptureAction::RejectSizeKey)
    } else if s.palette_open {
        if key_is(key, "p") && (m.platform || m.control) && m.shift && !m.alt {
            (s, CaptureAction::PaletteCancel)
        } else {
            (s, field_key_exec(s, Overlay::Palette, key, m))
        }
    } else if s.link_open {
        (s, field_key_exec(s, Overlay::Link, key, m))
    } else if s.pending_replace && s.modal_nav {
        (s, pending_char_exec(key, m, false))
    } else if s.pending_find && s.modal_nav {
        (s, pending_char_exec(key, m, true))
    } else if s.pending_bracket && s.modal_nav {
        (s, if key_is(key, "escape") {
            CaptureAction::CancelBracket
        } else {
            CaptureAction::Bracket
        })
    } else {
        let delim = match single_exec(key) {
            Some(c) => if c == '"' || c == '\'' || c == '`' || c == '(' || c == ')' || c == '['
                || c == ']' || c == '{' || c == '}' || c == '<' || c == '>' || c == 'b' || c
                == 'B' {
                Some(c)
            } else {
                None
            },
            None => None,
        };
        if s.pending_obj_inner && s.modal_nav && !held && delim.is_some() {
            let c = delim.unwrap();
            (s, CaptureAction::TextObject(c))
        } else if s.pending_g && s.modal_nav && key_is(key, "s") && !(m.platform || m.control) {
            (CaptureState { pending_g: false, ..s }, CaptureAction::FirstNonBlank)
        } else if s.command_open {
            (s, field_key_exec(s, Overlay::Command, key, m))
        } else if s.search_open {
            (s, field_key_exec(s, Overlay::Search, key, m))
        } else {
            (s, editing_key_exec(s, key, m))
        }
    }
}

/// Where a key press goes: the state after it and the action for the
/// window to perform.
pub fn capture_step(st: &CaptureState, key: &str, mods: KeyMods) -> (r: (CaptureState, CaptureAction))
    ensures
        r == capture_of(*st, key@, mods),
{
    let s = *st;
    let m = mods;
    let no_overlay = !s.command_open && !s.search_open && !s.palette_open && !s.link_open;
    if (key_is(key, "k") || key_is(key, "K")) && (m.platform || m.control) && !m.shift && !m.alt
        && !s.pending_chord && no_overlay && !s.view_source && !s.settings_open
        && !s.overlay_focused {
        return (CaptureState { pending_chord: true, ..s }, CaptureAction::StartChord);
    }
    let s2 = CaptureState { pending_chord: false, ..s };
    if s.pending_chord && no_overlay && !s.view_source && !s.settings_open && (key_is(key, "t")
        || key_is(key, "T")) && !m.alt {
        (s2, CaptureAction::OpenThemes)
    } else if (key_is(key, "c") || key_is(key, "x") || key_is(key, "v")) && (m.platform
        || m.control) && !m.alt && !m.shift {
        (s2, CaptureAction::PassOn)
    } else {
        routed_key_exec(s2, key, m)
    }
}

/* ---------- what key capture never does ---------- */

/// A key the window performs as an edit of the document or a caret move.
pub open spec fn edits_document(a: CaptureAction) -> bool {
    ||| a is Newline
    ||| a is ToggleVideo
    ||| a is SlashMove
    ||| a is Move
}

/// While an overlay (palette, link, command line, search) owns the
/// keyboard, no key edits the document or moves its caret; `cmd-c`,
/// `cmd-x` and `cmd-v` always reach the clipboard actions.
pub proof fn lemma_overlays_keep_keys(s: CaptureState, key: Seq<char>, m: KeyMods)
    ensures
        !no_overlay(s) ==> !edits_document(capture_of(s, key, m).1),
        (key == "c"@ || key == "x"@ || key == "v"@) && any_cmd(m) && !m.alt && !m.shift
            && !(s.pending_chord && no_overlay(s) && !s.view_source && !s.settings_open && (key
            == "t"@ || key == "T"@)) ==> capture_of(s, key, m).1 == CaptureAction::PassOn,
{
    reveal_strlit("c");
    reveal_strlit("x");
    reveal_strlit("v");
    reveal_strlit("k");
    reveal_strlit("K");
    assert("c"@[0] == 'c' && "x"@[0] == 'x' && "v"@[0] == 'v');
    assert("k"@[0] == 'k' && "K"@[0] == 'K');
    if key == "c"@ || key == "x"@ || key == "v"@ {
        assert(key != "k"@ && key != "K"@) by {
            assert(key[0] != 'k' && key[0] != 'K');
        }
    }
}

} // verus!
