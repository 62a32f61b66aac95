use icy_sixel::SixelImage;
use vecview::backend::{DisplayError, OutputBackend, Surroundings};
use vecview::sixel::{pane_active, SixelBackend};

fn around(pane_active: bool) -> Surroundings {
    Surroundings { window: None, pane_active }
}

fn bands() -> (Vec<u8>, usize, usize) {
    let (w, h) = (64usize, 48usize);
    let mut rgba = vec![255u8; w * h * 4];
    for y in 0..h {
        for x in 0..w {
            let i = (y * w + x) * 4;
            let c = match x / 16 {
                0 => [220, 30, 30],
                1 => [30, 200, 60],
                2 => [40, 80, 220],
                _ => [255, 255, 255],
            };
            rgba[i] = c[0];
            rgba[i + 1] = c[1];
            rgba[i + 2] = c[2];
            rgba[i + 3] = 255;
        }
    }
    (rgba, w, h)
}

#[test]
fn sixel_roundtrip() {
    let (rgba, w, h) = bands();
    let mut b = SixelBackend::new(false, false, None);
    let out = b.display(&rgba, w as u32, h as u32, &around(true)).expect("encode");
    let s = out.strip_prefix("\u{1b}[H").unwrap();
    assert!(s.starts_with('\u{1b}') && s.as_bytes()[1] == b'P', "starts with DCS");
    assert!(s.ends_with("\u{1b}\\"), "ends with ST");
    let img = SixelImage::decode(s.as_bytes()).expect("decode");
    assert_eq!((img.width, img.height), (w, h));
}

#[test]
fn redraw_repeats_the_last_image() {
    let (rgba, w, h) = bands();
    let mut b = SixelBackend::new(true, false, None);
    assert_eq!(b.name(), "sixel (tmux passthrough)");
    assert!(b.wants_periodic_redraw());
    assert!(b.asks_for_pane());
    assert_eq!(b.redraw(&around(true)), "");
    let shown = b.display(&rgba, w as u32, h as u32, &around(true)).unwrap();
    assert!(shown.starts_with("\u{1b}[H\u{1b}Ptmux;\u{1b}\u{1b}P"));
    assert!(shown.ends_with("\u{1b}\u{1b}\\\u{1b}\\"));
    assert_eq!(b.redraw(&around(true)), shown);
    assert_eq!(b.redraw(&around(false)), "");
    assert_eq!(b.clear(), "\u{1b}[2J\u{1b}[H");
    assert_eq!(b.redraw(&around(true)), "");
}

#[test]
fn inactive_pane_is_not_drawn_in_but_keeps_the_image() {
    let (rgba, w, h) = bands();
    let mut b = SixelBackend::new(true, false, None);
    assert_eq!(b.display(&rgba, w as u32, h as u32, &around(false)), Ok(String::new()));
    assert!(b.redraw(&around(true)).starts_with("\u{1b}[H\u{1b}Ptmux;"));
}

fn refused(reason: &str) -> Result<String, DisplayError> {
    Err(DisplayError::Encoding(reason.to_string()))
}

#[test]
fn native_sixel_needs_to_be_asked_for_and_known() {
    let native = SixelBackend::new(true, true, Some("256,sixel,title\n"));
    assert_eq!(native.name(), "sixel (tmux native)");
    assert!(!native.wants_periodic_redraw());
    assert_eq!(SixelBackend::new(true, true, Some("256")).name(), "sixel (tmux passthrough)");
    assert_eq!(SixelBackend::new(true, true, None).name(), "sixel (tmux passthrough)");
    assert_eq!(SixelBackend::new(true, false, Some("sixel")).name(), "sixel (tmux passthrough)");
    assert_eq!(SixelBackend::new(false, true, Some("sixel")).name(), "sixel");
}

#[test]
fn refused_image_is_an_error_and_changes_nothing() {
    let (rgba, w, h) = bands();
    let mut b = SixelBackend::new(false, false, None);
    let shown = b.display(&rgba, w as u32, h as u32, &around(false)).unwrap();
    assert_eq!(b.display(&[1, 2, 3], 1, 1, &around(true)), refused("buffer size mismatch: expected 4 bytes, got 3"));
    assert_eq!(b.display(&[], 0, 5, &around(true)), refused("invalid dimensions: 0x5"));
    assert_eq!(b.display(&[], u32::MAX, u32::MAX, &around(true)), refused("integer overflow"));
    let e = b.display(&[], 7, 0, &around(true)).unwrap_err();
    assert_eq!(e.message(), "Sixel encoding failed: invalid dimensions: 7x0");
    assert_eq!(b.redraw(&around(false)), shown);
    assert_eq!(b.enter(), "\u{1b}[?1049h\u{1b}[?25l");
    assert_eq!(b.leave(), "\u{1b}[0m\u{1b}[?25h\u{1b}[?1049l");
}

#[test]
fn pane_is_active_by_what_tmux_says() {
    assert!(pane_active(None));
    assert!(pane_active(Some("1\n")));
    assert!(!pane_active(Some("0\n")));
    assert!(!pane_active(Some("")));
}

#[test]
fn encoded_image_is_shown_as_it_is() {
    let mut b = SixelBackend::new(false, false, None);
    assert_eq!(b.display_encoded(Err("no".to_string()), &around(true)), refused("no"));
    let text = Ok("\u{1b}Pq\u{1b}\\".to_string());
    assert_eq!(b.display_encoded(text, &around(true)), Ok("\u{1b}[H\u{1b}Pq\u{1b}\\".to_string()));
    assert_eq!(b.display_encoded(Err("never".to_string()), &around(true)), refused("never"));
    assert_eq!(b.redraw(&around(true)), "\u{1b}[H\u{1b}Pq\u{1b}\\");
}

#[test]
fn image_beyond_the_limits_is_refused() {
    let mut b = SixelBackend::new(false, false, None);
    let wide = vec![255u8; 1_000_001 * 4];
    assert_eq!(b.display(&wide, 1_000_001, 1, &around(true)), refused("invalid dimensions: 1000001x1"));
    assert!(b.display(&wide[..400], 100, 1, &around(true)).is_ok());
    assert!(b.display(&wide[..400], 1, 100, &around(true)).is_ok());
    assert!(b.display(&vec![0u8; 24], 2, 3, &around(true)).is_ok());
}
