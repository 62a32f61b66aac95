use vecview::backend::{detect_backend, forced_backend, is_kitty_capable, BackendKind, Environment};

fn bare() -> Environment {
    Environment {
        tmux: false,
        herdr: false,
        kitty_window: false,
        term_program: None,
        term: None,
        windows_terminal: false,
        is_tty: false,
        framebuffer: false,
    }
}

#[test]
fn named_backends() {
    let env = Environment { tmux: true, ..bare() };
    assert_eq!(forced_backend("kitty", &env), BackendKind::Kitty { tmux: false });
    assert_eq!(forced_backend("tmux", &bare()), BackendKind::Kitty { tmux: true });
    assert_eq!(forced_backend("herdr", &env), BackendKind::KittyPlaceholder);
    assert_eq!(forced_backend("sixel", &env), BackendKind::Sixel { tmux: true });
    assert_eq!(forced_backend("sixel", &bare()), BackendKind::Sixel { tmux: false });
    assert_eq!(forced_backend("framebuffer", &env), BackendKind::Framebuffer);
    assert_eq!(forced_backend("whatever", &env), BackendKind::Kitty { tmux: true });
    assert_eq!(detect_backend(Some("sixel"), &bare()), BackendKind::Sixel { tmux: false });
}

#[test]
fn suitable_backends() {
    let detect = |env: Environment| detect_backend(None, &env);
    assert_eq!(detect(bare()), BackendKind::Kitty { tmux: false });
    assert_eq!(
        detect(Environment { herdr: true, kitty_window: true, tmux: true, ..bare() }),
        BackendKind::KittyPlaceholder
    );
    assert_eq!(
        detect(Environment { kitty_window: true, tmux: true, windows_terminal: true, ..bare() }),
        BackendKind::Kitty { tmux: true }
    );
    assert_eq!(
        detect(Environment { windows_terminal: true, tmux: true, ..bare() }),
        BackendKind::Sixel { tmux: true }
    );
    assert_eq!(
        detect(Environment { tmux: true, is_tty: true, framebuffer: true, ..bare() }),
        BackendKind::Kitty { tmux: true }
    );
    assert_eq!(
        detect(Environment { is_tty: true, framebuffer: true, ..bare() }),
        BackendKind::Framebuffer
    );
    assert_eq!(
        detect(Environment { framebuffer: true, ..bare() }),
        BackendKind::Kitty { tmux: false }
    );
}

#[test]
fn kitty_is_known_by_window_program_or_type() {
    assert!(!is_kitty_capable(&bare()));
    let program = |p: &str| Environment { term_program: Some(p.to_string()), ..bare() };
    assert!(is_kitty_capable(&program("ghostty")));
    assert!(is_kitty_capable(&program("WezTerm")));
    assert!(!is_kitty_capable(&program("wezterm")));
    let term = |t: &str| Environment { term: Some(t.to_string()), ..program("other") };
    assert!(is_kitty_capable(&term("xterm-kitty")));
    assert!(!is_kitty_capable(&term("xterm-256color")));
    assert!(is_kitty_capable(&Environment { kitty_window: true, ..bare() }));
}
