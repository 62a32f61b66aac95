use vecview::copy::{CopyMode, Glyph};
use vecview::keys::{Action, Key, KeyCode, Keymap};
use vecview::session::{
    is_due, on_compiler_line, on_drag, on_failed_reload, on_key, on_press, on_release, on_reload,
    on_text, on_visibility, on_wheel, page_unchanged, redraw_due, wait_time, window_seen, Burst,
    Command, Drawing, Pending, Recurrence,
};
use vecview::view::{apply_action, clamp_zoom, ViewState};
use vecview::worker::Fit;

fn state() -> ViewState<i32> {
    ViewState::start(100, 2, 0)
}

fn pan(c: (i32, i32), w: i32, h: i32, dx: i32, dy: i32) -> (i32, i32) {
    (c.0 + w * dx, c.1 + h * dy)
}

fn act(action: Action, pages: usize, s: &mut ViewState<i32>) {
    apply_action(action, pages, s, pan);
}

fn text() -> CopyMode<i32> {
    let glyphs = "abc".chars().map(|ch| Glyph { ch, rect: [0; 4] }).collect();
    CopyMode::new(glyphs, |_, _| false, |g| g.rect[0]).unwrap()
}

fn press_key(code: KeyCode, s: &mut ViewState<i32>, b: &mut Burst) -> Command {
    let km = Keymap::build(&Vec::new());
    on_key(&Key { code, ctrl: false }, true, &km, 3, s, b, |_, _| 0, pan)
}

#[test]
fn zoom_goes_by_half_and_stays_in_range() {
    let mut s = state();
    let mut seen = vec![s.zoom];
    for _ in 0..8 {
        act(Action::ZoomIn, 1, &mut s);
        seen.push(s.zoom);
    }
    assert_eq!(seen, vec![100, 150, 225, 337, 505, 757, 1135, 1600, 1600]);
    act(Action::ZoomOut, 1, &mut s);
    assert_eq!(s.zoom, 1066);
    s.center = Some((1, 1));
    act(Action::ZoomReset, 1, &mut s);
    assert_eq!((s.zoom, s.center), (100, None));
    act(Action::ZoomOut, 1, &mut s);
    assert_eq!(s.zoom, 100);
    assert_eq!((clamp_zoom(-5), clamp_zoom(167), clamp_zoom(99999)), (100, 167, 1600));
    assert_eq!(ViewState::start(5000, 1, 0).zoom, 1600);
}

#[test]
fn pages_turn_within_the_document() {
    let mut s = state();
    s.center = Some((5, 5));
    act(Action::PrevPage, 3, &mut s);
    assert_eq!((s.page, s.center), (0, Some((5, 5))));
    act(Action::NextPage, 3, &mut s);
    assert_eq!((s.page, s.center), (1, None));
    act(Action::PrevPage, 3, &mut s);
    assert_eq!(s.page, 0);
    act(Action::LastPage, 3, &mut s);
    assert_eq!(s.page, 2);
    act(Action::NextPage, 3, &mut s);
    assert_eq!(s.page, 2);
    act(Action::FirstPage, 3, &mut s);
    assert_eq!(s.page, 0);
    act(Action::LastPage, 0, &mut s);
    assert_eq!(s.page, 0);
    s.page = 9;
    s.keep_within(4);
    assert_eq!(s.page, 3);
}

#[test]
fn view_moves_once_it_was_drawn() {
    let mut s = state();
    act(Action::Pan(1, 0), 1, &mut s);
    assert_eq!(s.center, None);
    s.drawn([0, 0, 40, 20], (50, 60));
    act(Action::Pan(1, -1), 1, &mut s);
    assert_eq!(s.center, Some((90, 40)));
    assert_eq!(s.last_viewport, Some([0, 0, 40, 20]));
    act(Action::FitContent(Fit::Height), 1, &mut s);
    assert_eq!(s.take_fit(), Some(Fit::Height));
    assert_eq!(s.take_fit(), None);
    s.fitted(250, (500, 500));
    assert_eq!((s.zoom, s.center), (250, Some((500, 500))));
}

#[test]
fn keys_act_when_no_text_is_selected() {
    let (mut s, mut b) = (state(), Burst::new());
    assert!(matches!(press_key(KeyCode::Char('j'), &mut s, &mut b), Command::Nothing));
    assert_eq!(s.page, 1);
    assert_eq!(b, Burst { dirty: true, ..Burst::new() });
    let mut b = Burst::new();
    assert!(matches!(press_key(KeyCode::Char('y'), &mut s, &mut b), Command::ReadText));
    assert!(b.dirty);
    let mut b = Burst::new();
    assert!(matches!(press_key(KeyCode::Char('e'), &mut s, &mut b), Command::ExportPdf));
    assert_eq!(b, Burst { overlay_only: true, ..Burst::new() });
    let mut b = Burst::new();
    assert!(matches!(press_key(KeyCode::Tab, &mut s, &mut b), Command::Nothing));
    assert_eq!(b, Burst::new());
    assert!(matches!(press_key(KeyCode::Char('q'), &mut s, &mut b), Command::Quit));
    assert!(b.quit);
    let km = Keymap::build(&Vec::new());
    let released = Key { code: KeyCode::Char('j'), ctrl: false };
    let mut b = Burst::new();
    on_key(&released, false, &km, 3, &mut s, &mut b, |_, _| 0, pan);
    assert_eq!((s.page, b), (1, Burst::new()));
}

#[test]
fn any_key_hides_the_list_of_keys() {
    let (mut s, mut b) = (state(), Burst::new());
    press_key(KeyCode::Char('?'), &mut s, &mut b);
    assert!(s.help);
    assert_eq!(b, Burst { help_changed: true, ..Burst::new() });
    press_key(KeyCode::Char('j'), &mut s, &mut b);
    assert!(!s.help);
    assert_eq!(s.page, 0);
    s.help = true;
    assert!(matches!(press_key(KeyCode::Esc, &mut s, &mut b), Command::Quit));
}

#[test]
fn keys_select_text() {
    let (mut s, mut b) = (state(), Burst::new());
    on_text(Some(text()), &mut s);
    press_key(KeyCode::Char('v'), &mut s, &mut b);
    press_key(KeyCode::Char('l'), &mut s, &mut b);
    assert_eq!(b, Burst { overlay_only: true, ..Burst::new() });
    match press_key(KeyCode::Enter, &mut s, &mut b) {
        Command::Copy(t) => assert_eq!(t, "ab"),
        _ => panic!("nothing was copied"),
    }
    assert!(s.copy.is_none());
    assert_eq!(s.status.as_deref(), Some("copied 2 chars"));
    on_text(Some(text()), &mut s);
    press_key(KeyCode::Esc, &mut s, &mut b);
    assert!(s.copy.is_none());
    on_text(None, &mut s);
    assert_eq!(s.status.as_deref(), Some("no selectable text on this page"));
}

#[test]
fn mouse_selects_and_copies() {
    let (mut s, mut b) = (state(), Burst::new());
    on_press(Some(1), &mut s, &mut b);
    assert_eq!(b, Burst::new());
    on_text(Some(text()), &mut s);
    on_press(Some(1), &mut s, &mut b);
    assert!(b.dirty);
    assert_eq!(on_release(&mut s, &mut b), None);
    assert!(s.copy.is_some());
    on_drag(Some(2), &mut s, &mut b);
    on_drag(None, &mut s, &mut b);
    assert_eq!(on_release(&mut s, &mut b).as_deref(), Some("bc"));
    assert!(s.copy.is_none());
    assert_eq!(s.status.as_deref(), Some("copied 2 chars"));
    let mut b = Burst::new();
    assert_eq!(on_release(&mut s, &mut b), None);
    assert_eq!(b, Burst::new());
}

#[test]
fn wheel_turns_pages_and_ends_selecting() {
    let (mut s, mut b) = (state(), Burst::new());
    on_text(Some(text()), &mut s);
    on_wheel(false, 2, &mut s, &mut b);
    assert!(s.copy.is_some() && !b.dirty);
    on_wheel(true, 2, &mut s, &mut b);
    assert!(s.copy.is_none() && b.dirty);
    assert_eq!(s.page, 1);
    on_wheel(true, 2, &mut s, &mut b);
    assert_eq!(s.page, 1);
    on_wheel(false, 2, &mut s, &mut b);
    assert_eq!(s.page, 0);
}

#[test]
fn compiler_lines_are_shown_if_they_matter() {
    let (mut s, mut b) = (state(), Burst::new());
    on_compiler_line("writing to a.svg", &mut s, &mut b);
    assert_eq!((s.status.clone(), b), (None, Burst::new()));
    on_compiler_line("  Error: no\n", &mut s, &mut b);
    assert_eq!(s.status.as_deref(), Some("Error: no"));
    assert!(b.overlay_only);
    on_compiler_line(&format!("error {}", "x".repeat(300)), &mut s, &mut b);
    assert_eq!(s.status.as_deref().unwrap().len(), 200);
    on_compiler_line("compiled Successfully in 3ms", &mut s, &mut b);
    assert_eq!(s.status.as_deref(), Some(""));
}

#[test]
fn reload_draws_what_changed() {
    assert!(page_unchanged(1, None, None));
    assert!(page_unchanged(1, Some(5), Some((1, 5))));
    assert!(!page_unchanged(1, Some(5), Some((1, 6))));
    assert!(!page_unchanged(1, Some(5), Some((2, 5))));
    assert!(!page_unchanged(1, Some(5), None));
    let (mut s, mut b) = (state(), Burst::new());
    s.page = 5;
    on_text(Some(text()), &mut s);
    on_reload(3, false, &mut s, &mut b);
    assert_eq!(s.page, 2);
    assert!(s.copy.is_some() && !b.dirty);
    on_failed_reload(&mut s, &b);
    assert!(s.copy.is_some());
    on_reload(3, true, &mut s, &mut b);
    assert!(s.copy.is_none() && b.dirty);
    on_text(Some(text()), &mut s);
    on_failed_reload(&mut s, &b);
    assert!(s.copy.is_none());
    assert_eq!(s.page, 2);
}

#[test]
fn images_keep_their_distance() {
    let mut p = Pending::none();
    p.take_in(&Burst { dirty: true, overlay_only: true, ..Burst::new() }, false);
    assert_eq!(p, Pending { full: true, overlay: true });
    assert_eq!(p.decide(false, false, true, Some(100), 50, 149), Drawing::Nothing);
    assert_eq!(p, Pending { full: true, overlay: true });
    assert_eq!(p.decide(false, false, false, Some(100), 50, 150), Drawing::Nothing);
    assert_eq!(p.decide(false, false, true, Some(100), 50, 150), Drawing::Full);
    assert_eq!(p, Pending::none());
    assert_eq!(p.decide(false, false, true, None, 50, 150), Drawing::Nothing);
    p.take_in(&Burst { overlay_only: true, ..Burst::new() }, false);
    assert_eq!(p.decide(false, false, true, None, 50, 0), Drawing::Overlay);
}

#[test]
fn list_of_keys_suppresses_images() {
    let mut p = Pending { full: true, overlay: true };
    assert_eq!(p.decide(true, true, true, None, 50, 0), Drawing::Help);
    assert_eq!(p, Pending::none());
    assert_eq!(p.decide(true, false, true, None, 50, 0), Drawing::Nothing);
    p.take_in(&Burst { help_changed: true, ..Burst::new() }, true);
    assert_eq!(p, Pending::none());
    p.take_in(&Burst { help_changed: true, ..Burst::new() }, false);
    assert_eq!(p, Pending { full: true, overlay: false });
}

#[test]
fn waiting_ends_in_time_and_does_not_spin() {
    let drawing = Pending { full: true, overlay: false };
    let nothing = Pending::none();
    assert_eq!(wait_time(None, &nothing, true, None, 80, None, 0), None);
    assert_eq!(wait_time(None, &drawing, true, None, 80, None, 0), Some(0));
    assert_eq!(wait_time(None, &drawing, true, Some(100), 80, None, 130), Some(50));
    assert_eq!(wait_time(Some(20), &drawing, true, Some(100), 80, None, 130), Some(20));
    assert_eq!(wait_time(None, &drawing, false, None, 80, None, 0), None);
    let poll = Some(Recurrence { interval: 500, last: 0 });
    assert_eq!(wait_time(None, &drawing, false, None, 80, poll, 100), Some(400));
    assert_eq!(wait_time(Some(1000), &nothing, true, None, 80, poll, 700), Some(0));
    assert!(is_due(50, 100, 150));
    assert!(!is_due(50, 100, 149));
    assert!(redraw_due(Some(50), false, 100, 150));
    assert!(!redraw_due(Some(50), true, 100, 150));
    assert!(!redraw_due(None, false, 100, 150));
}

#[test]
fn hidden_window_is_cleared_and_drawn_again() {
    let (mut visible, mut p) = (true, Pending::none());
    assert!(!on_visibility(None, &mut visible, &mut p));
    assert!(on_visibility(Some(false), &mut visible, &mut p));
    assert!(!visible);
    assert!(!on_visibility(Some(false), &mut visible, &mut p));
    assert_eq!(p, Pending::none());
    assert!(!on_visibility(Some(true), &mut visible, &mut p));
    assert!(visible);
    assert_eq!(p, Pending { full: true, overlay: false });
}

#[test]
fn window_is_seen_by_what_tmux_says() {
    assert_eq!(window_seen(None), None);
    assert_eq!(window_seen(Some("1\n")), Some(true));
    assert_eq!(window_seen(Some(" 0 ")), Some(false));
    assert_eq!(window_seen(Some("")), Some(false));
}
