use vecview::config::{key_overrides, read_key_overrides, section_overrides, Setting};
use vecview::help::{help_lines, help_screen, overlay_text};
use vecview::keys::{
    default_bindings, parse_key, unknown_keys, Action, Binding, Key, KeyCode, KeyOverride, Keymap,
};
use vecview::worker::Fit;

fn key(code: KeyCode, ctrl: bool) -> Key {
    Key { code, ctrl }
}

#[test]
fn parse_key_forms() {
    assert_eq!(parse_key("q"), Some(key(KeyCode::Char('q'), false)));
    assert_eq!(parse_key("+"), Some(key(KeyCode::Char('+'), false)));
    assert_eq!(parse_key("?"), Some(key(KeyCode::Char('?'), false)));
    assert_eq!(parse_key("ctrl+c"), Some(key(KeyCode::Char('c'), true)));
    assert_eq!(parse_key("left"), Some(key(KeyCode::Left, false)));
    assert_eq!(parse_key("space"), Some(key(KeyCode::Char(' '), false)));
    assert_eq!(parse_key("PageDown"), Some(key(KeyCode::PageDown, false)));
    assert_eq!(parse_key("esc"), Some(key(KeyCode::Esc, false)));
    assert_eq!(parse_key("foo"), None);
}

#[test]
fn parse_key_edges() {
    assert_eq!(parse_key(""), None);
    assert_eq!(parse_key("ctrl+"), None);
    assert_eq!(parse_key("  Ctrl+Left "), Some(key(KeyCode::Left, true)));
    assert_eq!(parse_key("CTRL+c"), None);
    assert_eq!(parse_key("G"), Some(key(KeyCode::Char('G'), false)));
    assert_eq!(parse_key("あ"), Some(key(KeyCode::Char('あ'), false)));
    assert_eq!(parse_key("return"), Some(key(KeyCode::Enter, false)));
    assert_eq!(parse_key("Escape"), Some(key(KeyCode::Esc, false)));
    assert_eq!(parse_key("del"), Some(key(KeyCode::Delete, false)));
    assert_eq!(parse_key("pgup"), Some(key(KeyCode::PageUp, false)));
    assert_eq!(parse_key("pgdn"), Some(key(KeyCode::PageDown, false)));
    assert_eq!(parse_key("tab"), Some(key(KeyCode::Tab, false)));
    assert_eq!(parse_key("home"), Some(key(KeyCode::Home, false)));
    assert_eq!(parse_key("end"), Some(key(KeyCode::End, false)));
}

#[test]
fn default_bindings_match_request() {
    let km = Keymap::build(&Vec::new());
    assert!(matches!(km.action(&key(KeyCode::Up, false)), Some(Action::Pan(0, -1))));
    assert!(matches!(km.action(&key(KeyCode::Down, false)), Some(Action::Pan(0, 1))));
    assert!(matches!(km.action(&key(KeyCode::Left, false)), Some(Action::Pan(-1, 0))));
    assert!(matches!(km.action(&key(KeyCode::Right, false)), Some(Action::Pan(1, 0))));
    assert!(matches!(km.action(&key(KeyCode::Char('j'), false)), Some(Action::NextPage)));
    assert!(matches!(km.action(&key(KeyCode::Char('k'), false)), Some(Action::PrevPage)));
    assert!(matches!(km.action(&key(KeyCode::Char('h'), false)), Some(Action::FirstPage)));
    assert!(matches!(km.action(&key(KeyCode::Char('l'), false)), Some(Action::LastPage)));
    assert!(matches!(km.action(&key(KeyCode::Char('c'), true)), Some(Action::Quit)));
    assert!(matches!(km.action(&key(KeyCode::Char('j'), false)), Some(Action::NextPage)));
}

fn override_of(name: &str, keys: &[&str]) -> KeyOverride {
    KeyOverride {
        name: name.to_string(),
        keys: keys.iter().map(|k| k.to_string()).collect(),
    }
}

#[test]
fn override_replaces_action_keys() {
    let ov = vec![override_of("next_page", &["space"])];
    let km = Keymap::build(&ov);
    assert!(matches!(km.action(&key(KeyCode::Char(' '), false)), Some(Action::NextPage)));
    assert!(km.action(&key(KeyCode::Char('j'), false)).is_none());
    assert!(matches!(km.action(&key(KeyCode::Char('k'), false)), Some(Action::PrevPage)));
}

#[test]
fn later_action_wins_a_shared_key() {
    let km = Keymap::build(&vec![override_of("zoom_in", &["q"]), override_of("zoom_in", &["x"])]);
    assert_eq!(km.action(&key(KeyCode::Char('q'), false)), Some(Action::Quit));
    assert_eq!(km.action(&key(KeyCode::Char('x'), false)), Some(Action::ZoomIn));
    assert_eq!(km.action(&key(KeyCode::Char('+'), false)), None);
    let swapped = Keymap::build(&vec![override_of("quit", &["+"])]);
    assert_eq!(swapped.action(&key(KeyCode::Char('+'), false)), Some(Action::Quit));
}

#[test]
fn every_default_key_is_bound() {
    let km = Keymap::build(&Vec::new());
    for b in default_bindings() {
        assert!(unknown_keys(&b).is_empty());
        for k in &b.keys {
            let key = parse_key(k).unwrap();
            assert_eq!(km.action(&key), Some(b.action));
        }
    }
    assert_eq!(km.action(&key(KeyCode::Char('w'), false)), Some(Action::FitContent(Fit::Width)));
    assert_eq!(km.action(&key(KeyCode::Char('v'), false)), Some(Action::FitContent(Fit::Height)));
    assert_eq!(km.action(&key(KeyCode::Other, false)), None);
    assert_eq!(km.action(&key(KeyCode::Char('j'), true)), None);
}

#[test]
fn unknown_keys_are_named() {
    let b = Binding {
        name: "quit",
        action: Action::Quit,
        keys: vec!["q".to_string(), "nope".to_string(), "".to_string()],
    };
    assert_eq!(unknown_keys(&b), vec!["nope".to_string(), "".to_string()]);
}

#[test]
fn help_lists_names_and_keys() {
    let km = Keymap::build(&vec![override_of("next_page", &["space", "n"])]);
    let lines = help_lines(&km, Some("/tmp/c.toml"));
    assert_eq!(lines.len(), 2 + 17 + 13);
    assert_eq!(lines[0], "vecview - keyboard shortcuts");
    assert_eq!(lines[1], "");
    assert_eq!(lines[2], "  zoom_in      +, =");
    assert_eq!(lines[11], "  next_page    space, n");
    assert_eq!(lines[18], "  quit         q, esc, ctrl+c");
    assert_eq!(lines[29], "  config: /tmp/c.toml");
    assert_eq!(lines[31], "  press any key to close");
    let unset = help_lines(&km, None);
    assert_eq!(unset[29], "  config: ~/.config/vecview/config.toml");
    let screen = help_screen(&vec!["a".to_string(), "b".to_string()]);
    assert_eq!(screen, "\u{1b}[2;3Ha\u{1b}[3;3Hb");
}

#[test]
fn bottom_line_shows_a_message_or_the_hint() {
    assert_eq!(overlay_text(Some("hi"), true, 24), "\u{1b}[24;1H\u{1b}[2Khi");
    assert_eq!(
        overlay_text(None, true, 24),
        "\u{1b}[24;1H\u{1b}[2K-- COPY: hjkl/arrows move, space select, enter yank, esc cancel --"
    );
    assert_eq!(overlay_text(None, false, 24), "");
}

#[test]
fn configuration_file_gives_keys() {
    let file = "top = 1\n[keys]\nquit = \"x\"\nnext_page = [\"n\", 3, \"space\"]\nzoom_in = 5\n";
    let ov = read_key_overrides(file).unwrap();
    assert_eq!(ov.len(), 2);
    let of = |name: &str| ov.iter().find(|o| o.name == name).map(|o| o.keys.clone());
    assert_eq!(of("quit"), Some(vec!["x".to_string()]));
    assert_eq!(of("next_page"), Some(vec!["n".to_string(), "space".to_string()]));
    assert_eq!(of("zoom_in"), None);
    let km = Keymap::build(&ov);
    assert_eq!(km.action(&key(KeyCode::Char('x'), false)), Some(Action::Quit));
    assert_eq!(km.action(&key(KeyCode::Char('q'), false)), None);
    assert_eq!(km.action(&key(KeyCode::Char('+'), false)), Some(Action::ZoomIn));
}

#[test]
fn configuration_file_without_keys_or_without_sense() {
    assert_eq!(read_key_overrides("").unwrap().len(), 0);
    assert_eq!(read_key_overrides("keys = 3\n").unwrap().len(), 0);
    let reason = "[keys\n".parse::<toml::Table>().unwrap_err().to_string();
    assert_eq!(read_key_overrides("[keys\n").err(), Some(reason));
    let file = "[keys]\na = 1\nb = 1.5\nc = true\nd = 1979-05-27\ne = { f = 1 }\ng = \"x\"\nh = [1, \"y\"]\n";
    let ov = read_key_overrides(file).unwrap();
    assert_eq!(ov.iter().map(|o| o.name.as_str()).collect::<Vec<_>>(), vec!["g", "h"]);
    assert_eq!(ov[1].keys, vec!["y".to_string()]);
}

#[test]
fn settings_become_keys() {
    let entries = vec![
        ("a".to_string(), Setting::Text("x".to_string())),
        ("b".to_string(), Setting::Integer),
        ("c".to_string(), Setting::List(vec![None, Some("y".to_string())])),
    ];
    let ov = key_overrides(&entries);
    assert_eq!(ov.len(), 2);
    assert_eq!(section_overrides(&None).len(), 0);
    assert_eq!((ov[0].name.as_str(), ov[0].keys.clone()), ("a", vec!["x".to_string()]));
    assert_eq!((ov[1].name.as_str(), ov[1].keys.clone()), ("c", vec!["y".to_string()]));
    assert_eq!(section_overrides(&Some(entries)).len(), 2);
}
