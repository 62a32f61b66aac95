use vecview::cells::{
    available_area, cell_of_window, cell_px, cell_query, counted_area, fallback_cell_px,
    parse_cell_px, parse_cell_reply, parse_size, parse_virtual_size, parse_wxh, reading, CellSize,
    CellStep, DisplaySize, Reading, WindowSize,
};

fn window(columns: u16, rows: u16, width: u16, height: u16) -> Option<WindowSize> {
    Some(WindowSize { columns, rows, width, height })
}

#[test]
fn parse_cell_px_accepts_x_separator_and_clamps() {
    assert_eq!(parse_cell_px("10x17"), Some((10, 17)));
    assert_eq!(parse_cell_px(" 12 X 24 "), Some((12, 24)));
    assert_eq!(parse_cell_px("0x999"), Some((1, 128)));
    assert_eq!(parse_cell_px("8"), None);
    assert_eq!(parse_cell_px("axb"), None);
}

#[test]
fn sizes_are_read_and_brought_into_range() {
    assert_eq!(parse_wxh("0x999"), Some((1, 256)));
    assert_eq!(parse_wxh("9x18"), Some((9, 18)));
    assert_eq!(parse_wxh("9"), None);
    assert_eq!(parse_size("800x1000"), Some((800, 1000)));
    assert_eq!(parse_size("0x1000"), None);
    assert_eq!(parse_size("800x0"), None);
    assert_eq!(parse_size("99999x20000"), Some((16384, 16384)));
    assert_eq!(parse_size("4294967296x1"), None);
    assert_eq!(parse_size("+5x+6"), Some((5, 6)));
    assert_eq!(parse_size("1x2x3"), None);
    assert_eq!(parse_size("-1x2"), None);
    assert_eq!(fallback_cell_px(None), (8, 16));
    assert_eq!(fallback_cell_px(Some("nonsense")), (8, 16));
    assert_eq!(fallback_cell_px(Some("10x20")), (10, 20));
    assert_eq!(parse_virtual_size("1920,1080\n"), Some((1920, 1080)));
    assert_eq!(parse_virtual_size("1920, 1080"), None);
    assert_eq!(parse_virtual_size("1920"), None);
}

#[test]
fn cell_size_takes_the_first_source() {
    let ws = window(80, 24, 800, 480);
    assert_eq!(cell_px(Some("5x6"), ws, Some((7, 8))), Some((5, 6)));
    assert_eq!(cell_px(Some("five"), ws, Some((7, 8))), Some((10, 20)));
    assert_eq!(cell_px(None, window(80, 24, 0, 0), Some((7, 8))), Some((7, 8)));
    assert_eq!(cell_px(None, None, None), None);
    assert_eq!(cell_of_window(window(900, 24, 800, 480)), Some((1, 20)));
    assert_eq!(cell_of_window(window(0, 24, 800, 480)), None);
}

#[test]
fn cell_query_passes_through_tmux() {
    assert_eq!(cell_query(false), "\u{1b}[16t");
    assert_eq!(cell_query(true), "\u{1b}Ptmux;\u{1b}\u{1b}[16t\u{1b}\\");
}

#[test]
fn cell_reply_is_read() {
    assert_eq!(parse_cell_reply(b"\x1b[6;20;10t"), Some((10, 20)));
    assert_eq!(parse_cell_reply(b"junk\x1b[6; 20 ; 10 ;7tmore"), Some((10, 20)));
    assert_eq!(parse_cell_reply(b"\x1b[6;999;10t"), Some((10, 256)));
    assert_eq!(parse_cell_reply(b"\x1b[6;0;10t"), None);
    assert_eq!(parse_cell_reply(b"\x1b[6;20t"), None);
    assert_eq!(parse_cell_reply(b"\x1b[6;20;10"), None);
    assert_eq!(parse_cell_reply(b"\x1b[6;20;10t\xff"), None);
    assert_eq!(parse_cell_reply("あ\u{1b}[6;18;9t".as_bytes()), Some((9, 18)));
}

#[test]
fn reading_ends_with_an_answer_or_its_end() {
    assert_eq!(reading(b"\x1b[6;20"), Reading::More);
    assert_eq!(reading(b"\x1b[6;20;10t"), Reading::Answer { width: 10, height: 20 });
    assert_eq!(reading(b"\x1b[4;20;10t"), Reading::GiveUp);
}

#[test]
fn area_of_terminals_and_framebuffers() {
    let size = |width: u32, height: u32| DisplaySize { width, height };
    let area = |name: &str, fb, ws, scale| available_area(name, fb, ws, None, scale);
    assert_eq!(area("framebuffer", Some((1920, 1080)), None, 1), size(1920, 1080));
    assert_eq!(area("framebuffer", None, None, 1), size(1280, 800));
    assert_eq!(area("kitty", Some((1, 1)), window(80, 24, 640, 480), 4), size(640, 480));
    assert_eq!(area("kitty", None, window(80, 24, 0, 0), 4), size(640, 384));
    assert_eq!(area("kitty (tmux placeholder)", None, window(80, 24, 0, 0), 2), size(1280, 768));
    assert_eq!(area("sixel (tmux passthrough)", None, window(80, 24, 0, 0), 1), size(640, 368));
    assert_eq!(area("sixel (tmux passthrough)", None, window(80, 1, 0, 0), 1), size(640, 16));
    assert_eq!(area("kitty (placeholder)", None, None, 3), size(3840, 2400));
    assert_eq!(
        available_area("sixel", None, window(80, 24, 0, 0), Some((10, 20)), 1),
        size(800, 480)
    );
}

#[test]
fn area_that_is_too_large_is_not_counted() {
    let size = |width, height| Some(DisplaySize { width, height });
    let cell = Some((65535, 65535));
    assert_eq!(counted_area("sixel", None, window(80, 24, 0, 0), cell, 1), size(5242800, 1572840));
    let name = "kitty (placeholder)";
    assert_eq!(counted_area(name, None, window(65535, 65535, 0, 0), cell, 1), size(4294836225, 4294836225));
    assert_eq!(counted_area(name, None, window(65535, 65535, 0, 0), cell, 2), None);
    assert_eq!(counted_area(name, None, window(80, 24, 640, 480), cell, 4), size(640, 480));
    assert_eq!(counted_area(name, None, None, None, u32::MAX), None);
}

#[test]
fn cell_size_is_kept() {
    let mut cell = CellSize::new();
    assert_eq!(cell.look(Some("x"), window(80, 24, 0, 0)), CellStep::Ask);
    assert_eq!(cell.keep(Some((9, 18))), Some((9, 18)));
    assert_eq!(cell.look(Some("10x20"), window(80, 24, 640, 480)), CellStep::Known(Some((9, 18))));
    assert_eq!(cell.keep(None), Some((9, 18)));
    let mut set = CellSize::new();
    assert_eq!(set.look(Some("10x20"), window(80, 24, 640, 480)), CellStep::Known(Some((10, 20))));
    assert_eq!(set.look(None, None), CellStep::Known(Some((10, 20))));
    let mut reported = CellSize::new();
    assert_eq!(reported.look(None, window(80, 24, 640, 480)), CellStep::Known(Some((8, 20))));
    let mut unknown = CellSize::new();
    assert_eq!(unknown.look(None, None), CellStep::Ask);
    assert_eq!(unknown.keep(None), None);
    assert_eq!(unknown.look(Some("10x20"), None), CellStep::Known(None));
    assert_eq!(unknown.keep(Some((1, 1))), None);
}
