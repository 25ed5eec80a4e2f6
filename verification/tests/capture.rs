use crabmd::capture::{capture_step, CaptureAction, CaptureState, KeyMods, NavMove, Overlay};

fn idle() -> CaptureState {
    CaptureState {
        pending_chord: false,
        palette_open: false,
        palette_submenu: false,
        palette_query_empty: true,
        link_open: false,
        command_open: false,
        search_open: false,
        view_source: false,
        settings_open: false,
        overlay_focused: false,
        size_field_focused: false,
        pending_replace: false,
        pending_find: false,
        pending_bracket: false,
        pending_obj_inner: false,
        pending_g: false,
        modal_nav: true,
        insert_like: false,
        slash_open: false,
        video_at_caret: false,
        field_declined: false,
    }
}

const NONE: KeyMods = KeyMods { platform: false, control: false, alt: false, shift: false };
const CMD: KeyMods = KeyMods { platform: true, control: false, alt: false, shift: false };

#[test]
fn cmd_k_then_t_opens_themes() {
    let (s, a) = capture_step(&idle(), "k", CMD);
    assert_eq!(a, CaptureAction::StartChord);
    assert!(s.pending_chord);
    let (s, a) = capture_step(&s, "t", NONE);
    assert_eq!(a, CaptureAction::OpenThemes);
    assert!(!s.pending_chord);
    // Any other key ends the chord and is handled as usual.
    let (s, _) = capture_step(&idle(), "k", CMD);
    let (s, a) = capture_step(&s, "left", NONE);
    assert!(!s.pending_chord);
    assert_eq!(a, CaptureAction::Move(NavMove::Left, false));
}

#[test]
fn clipboard_keys_pass_on() {
    for k in ["c", "x", "v"] {
        assert_eq!(capture_step(&idle(), k, CMD).1, CaptureAction::PassOn);
    }
    let mut s = idle();
    s.palette_open = true;
    assert_eq!(capture_step(&s, "v", CMD).1, CaptureAction::PassOn);
}

#[test]
fn font_size_inputs_take_digits_only() {
    let mut s = idle();
    s.settings_open = true;
    s.size_field_focused = true;
    assert_eq!(capture_step(&s, "a", NONE).1, CaptureAction::RejectSizeKey);
    assert_eq!(capture_step(&s, "7", NONE).1, CaptureAction::PassOn);
}

#[test]
fn palette_keys() {
    let mut s = idle();
    s.palette_open = true;
    assert_eq!(capture_step(&s, "a", NONE).1, CaptureAction::OfferToField(Overlay::Palette));
    s.field_declined = true;
    assert_eq!(capture_step(&s, "a", NONE).1, CaptureAction::Insert(Overlay::Palette, 'a'));
    assert_eq!(capture_step(&s, "down", NONE).1, CaptureAction::PaletteMove(true));
    assert_eq!(capture_step(&s, "escape", NONE).1, CaptureAction::PaletteCancel);
    s.palette_submenu = true;
    assert_eq!(capture_step(&s, "escape", NONE).1, CaptureAction::PaletteBack);
    assert_eq!(capture_step(&s, "backspace", NONE).1, CaptureAction::PaletteBack);
    let shift_cmd = KeyMods { platform: true, control: false, alt: false, shift: true };
    assert_eq!(capture_step(&s, "p", shift_cmd).1, CaptureAction::PaletteCancel);
}

#[test]
fn pending_replace_takes_the_next_char() {
    let mut s = idle();
    s.pending_replace = true;
    assert_eq!(capture_step(&s, "z", NONE).1, CaptureAction::Replace('z'));
    assert_eq!(capture_step(&s, "space", NONE).1, CaptureAction::Replace(' '));
    assert_eq!(capture_step(&s, "escape", NONE).1, CaptureAction::CancelReplace);
    assert_eq!(capture_step(&s, "enter", NONE).1, CaptureAction::Swallow);
}

#[test]
fn enter_breaks_lines_in_insert_and_arrows_move() {
    let mut s = idle();
    s.modal_nav = false;
    s.insert_like = true;
    let shift = KeyMods { platform: false, control: false, alt: false, shift: true };
    assert_eq!(capture_step(&s, "enter", shift).1, CaptureAction::Newline(true));
    let alt = KeyMods { platform: false, control: false, alt: true, shift: false };
    assert_eq!(capture_step(&s, "left", alt).1, CaptureAction::Move(NavMove::WordBack, false));
    assert_eq!(capture_step(&s, "right", CMD).1, CaptureAction::Move(NavMove::LineEnd, false));
    assert_eq!(capture_step(&s, "q", NONE).1, CaptureAction::PassOn);
}
