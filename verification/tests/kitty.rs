use base64::engine::general_purpose::STANDARD;
use base64::Engine;
use std::io::Read;
use vecview::backend::{OutputBackend, Surroundings};
use vecview::cells::WindowSize;
use vecview::kitty::{cell_footprint, transmit, transmit_packed, KittyBackend};
use vecview::marks::mark_table;

const ESC: char = '\u{1b}';

fn around(window: Option<WindowSize>) -> Surroundings {
    Surroundings { window, pane_active: true }
}

fn cells(columns: u16, rows: u16) -> Option<WindowSize> {
    Some(WindowSize { columns, rows, width: 0, height: 0 })
}

/// Pixels that do not compress to nothing.
fn noise(n: usize) -> Vec<u8> {
    let mut x: u32 = 12345;
    (0..n)
        .map(|_| {
            x = x.wrapping_mul(1664525).wrapping_add(1013904223);
            (x >> 24) as u8
        })
        .collect()
}

/// The bodies of the graphics commands in `s`, in order.
fn bodies(s: &str) -> Vec<String> {
    let mut out = Vec::new();
    let mut rest = s;
    while let Some(i) = rest.find("\u{1b}_G") {
        let body = &rest[i + 3..];
        let end = body.find("\u{1b}\\").unwrap();
        out.push(body[..end].to_string());
        rest = &body[end + 2..];
    }
    out
}

fn received(s: &str) -> Vec<u8> {
    let text: String = bodies(s)
        .iter()
        .filter(|b| b.contains("m="))
        .map(|b| b.split(';').nth(1).unwrap().to_string())
        .collect();
    let packed = STANDARD.decode(text).unwrap();
    let mut out = Vec::new();
    flate2::read::ZlibDecoder::new(&packed[..]).read_to_end(&mut out).unwrap();
    out
}

#[test]
fn sent_image_is_received() {
    let rgba = noise(40_000);
    let mut out = String::new();
    transmit(&mut out, &rgba, "a=T,f=32", false);
    let parts = bodies(&out);
    assert!(parts.len() > 2);
    assert!(parts[0].starts_with("a=T,f=32,o=z,m=1;"));
    assert!(parts[1].starts_with("m=1;"));
    assert!(parts.last().unwrap().starts_with("m=0;"));
    for p in &parts {
        assert!(p.split(';').nth(1).unwrap().len() <= 4096);
    }
    assert_eq!(received(&out), rgba);
}

#[test]
fn small_image_is_one_chunk() {
    let mut out = String::new();
    transmit(&mut out, &[0; 16], "a=T", false);
    let parts = bodies(&out);
    assert_eq!(parts.len(), 1);
    assert!(parts[0].starts_with("a=T,o=z,m=0;"));
    assert_eq!(received(&out), vec![0; 16]);
}

#[test]
fn direct_images_alternate_and_free_the_last() {
    let mut b = KittyBackend::new(false, 7);
    assert_eq!(b.name(), "kitty");
    let first = b.display(&[1; 16], 2, 2, &around(None)).unwrap();
    assert!(first.starts_with("\u{1b}[H\u{1b}_Ga=T,q=2,i=8388615,f=32,s=2,v=2,o=z,m=0;"));
    assert!(!first.contains("a=d"));
    assert_eq!(received(&first), vec![1; 16]);
    let second = b.display(&[2; 16], 2, 2, &around(None)).unwrap();
    assert!(second.contains("i=7,f=32"));
    assert!(second.ends_with("\u{1b}_Ga=d,d=I,i=8388615\u{1b}\\"));
    let third = b.display(&[3; 16], 2, 2, &around(None)).unwrap();
    assert!(third.contains("i=8388615,f=32"));
    assert!(third.ends_with("\u{1b}_Ga=d,d=I,i=7\u{1b}\\"));
}

#[test]
fn image_numbers_come_from_the_process() {
    let mut zero = KittyBackend::new(false, 0x80_0000);
    assert!(zero.display(&[0; 4], 1, 1, &around(None)).unwrap().contains("i=8388609,"));
    let mut high = KittyBackend::new(false, 0xff_ffff);
    assert!(high.display(&[0; 4], 1, 1, &around(None)).unwrap().contains("i=16777215,"));
}

#[test]
fn placeholders_name_the_image_and_their_place() {
    let mut b = KittyBackend::placeholder_raw(0x010203);
    assert_eq!(b.name(), "kitty (placeholder)");
    let out = b.display(&[9; 16 * 32 * 4], 16, 32, &around(cells(80, 24))).unwrap();
    assert!(out.starts_with("\u{1b}[2J\u{1b}[H\u{1b}_Ga=T,q=2,U=1,i=8454659,f=32,s=16,v=32,c=2,r=2,o=z,m=0;"));
    let marks = mark_table();
    let p = '\u{10eeee}';
    let cell = |y: usize, x: usize| format!("{p}{}{}", marks[y], marks[x]);
    let rows = format!(
        "{ESC}[38;2;129;2;3m{ESC}[1;1H{}{}{ESC}[2;1H{}{}{ESC}[0m",
        cell(0, 0),
        cell(0, 1),
        cell(1, 0),
        cell(1, 1)
    );
    assert!(out.ends_with(&rows));
    let again = b.display(&[8; 16 * 32 * 4], 16, 32, &around(cells(80, 24))).unwrap();
    assert!(again.starts_with("\u{1b}_Ga=T,q=2,U=1,i=66051,"));
    assert!(again.contains("\u{1b}[38;2;1;2;3m"));
    assert!(again.ends_with("\u{1b}_Ga=d,d=I,i=8454659\u{1b}\\"));
    let larger = b.display(&[8; 24 * 32 * 4], 24, 32, &around(cells(80, 24))).unwrap();
    assert!(larger.starts_with("\u{1b}[2J\u{1b}[H"));
}

#[test]
fn commands_pass_through_tmux() {
    let mut b = KittyBackend::new(true, 5);
    assert_eq!(b.name(), "kitty (tmux placeholder)");
    let out = b.display(&[1; 16], 2, 2, &around(None)).unwrap();
    assert!(out.contains("\u{1b}Ptmux;\u{1b}\u{1b}_Ga=T,q=2,U=1,i=8388613,"));
    assert!(out.contains("\u{1b}\u{1b}\\\u{1b}\\"));
    assert_eq!(
        b.leave(),
        "\u{1b}Ptmux;\u{1b}\u{1b}_Ga=d,d=I,i=5\u{1b}\u{1b}\\\u{1b}\\\
         \u{1b}Ptmux;\u{1b}\u{1b}_Ga=d,d=I,i=8388613\u{1b}\u{1b}\\\u{1b}\\\
         \u{1b}[0m\u{1b}[?25h\u{1b}[?1049l"
    );
}

#[test]
fn clearing_forgets_what_was_shown() {
    let mut b = KittyBackend::placeholder_raw(5);
    b.display(&[1; 16], 2, 2, &around(None)).unwrap();
    assert_eq!(
        b.clear(),
        "\u{1b}_Ga=d,d=I,i=5\u{1b}\\\u{1b}_Ga=d,d=I,i=8388613\u{1b}\\\u{1b}[2J\u{1b}[H"
    );
    let next = b.display(&[1; 16], 2, 2, &around(None)).unwrap();
    assert!(next.starts_with("\u{1b}[2J\u{1b}[H"));
    assert!(!next.contains("a=d"));
    assert_eq!(b.enter(), "\u{1b}[?1049h\u{1b}[?25l");
    assert_eq!(b.redraw(&around(None)), "");
    assert!(!b.wants_periodic_redraw());
    assert!(b.is_supported(false));
    assert_eq!(b.device(), None);
}

#[test]
fn footprint_is_within_window_and_marks() {
    assert_eq!(cell_footprint(160, 160, None), (20, 10));
    assert_eq!(cell_footprint(9999, 9999, None), (80, 24));
    assert_eq!(cell_footprint(0, 0, None), (1, 1));
    let ws = Some(WindowSize { columns: 100, rows: 50, width: 1000, height: 1000 });
    assert_eq!(cell_footprint(500, 500, ws), (50, 25));
    let wide = Some(WindowSize { columns: 1000, rows: 1000, width: 0, height: 0 });
    assert_eq!(cell_footprint(80_000, 80_000, wide), (297, 297));
}

#[test]
fn marks_are_distinct() {
    let marks = mark_table();
    assert_eq!(marks.len(), 297);
    assert_eq!(marks[0], '\u{305}');
    assert_eq!(marks[7], '\u{33f}');
    assert_eq!(marks[296], '\u{1d244}');
    for pair in marks.windows(2) {
        assert!(pair[0] < pair[1]);
    }
}

#[test]
fn packed_data_is_sent_in_chunks() {
    let mut out = String::new();
    transmit_packed(&mut out, b"abc", "a=T", false);
    assert_eq!(out, "\u{1b}_Ga=T,o=z,m=0;YWJj\u{1b}\\");
    let mut out = String::new();
    transmit_packed(&mut out, &[0; 3073], "a=T", false);
    let first = format!("{ESC}_Ga=T,o=z,m=1;{}{ESC}\\", "A".repeat(4096));
    assert_eq!(out, format!("{first}{ESC}_Gm=0;AA=={ESC}\\"));
    let mut out = String::new();
    transmit_packed(&mut out, &[], "a=T", false);
    assert_eq!(out, "");
}
