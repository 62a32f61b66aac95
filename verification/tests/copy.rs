use vecview::copy::{
    drag, handle_copy_key, page_text, press, release, CopyMode, CopyOutcome, FoundChar, Glyph,
};
use vecview::keys::{Key, KeyCode};

fn glyph(ch: char, x: f32, y: f32) -> Glyph<f32> {
    Glyph { ch, rect: [x, y, 8.0, 10.0] }
}

fn new_line(first: Glyph<f32>, g: Glyph<f32>) -> bool {
    let middle = |g: Glyph<f32>| g.rect[1] + g.rect[3] / 2.0;
    (middle(g) - middle(first)).abs() > g.rect[3].max(1.0) * 0.5
}

fn across(g: Glyph<f32>) -> i32 {
    g.rect[0] as i32
}

fn distance(a: Glyph<f32>, b: Glyph<f32>) -> u32 {
    let middle = |g: Glyph<f32>| g.rect[0] + g.rect[2] / 2.0;
    (middle(b) - middle(a)).abs().to_bits()
}

fn plain(c: char) -> Key {
    Key { code: KeyCode::Char(c), ctrl: false }
}

fn two_lines() -> CopyMode<f32> {
    let glyphs = vec![
        glyph('a', 0.0, 0.0),
        glyph('b', 8.0, 0.0),
        glyph('c', 16.0, 0.0),
        glyph('d', 0.0, 20.0),
        glyph('e', 8.0, 20.0),
        glyph('f', 16.0, 20.0),
    ];
    CopyMode::new(glyphs, new_line, across).unwrap()
}

#[test]
fn copy_mode_groups_lines_and_drops_control_chars() {
    let glyphs = vec![
        glyph('a', 0.0, 0.0),
        glyph('b', 8.0, 0.0),
        Glyph { ch: '\r', rect: [0.0, 0.0, 0.0, 0.0] },
        Glyph { ch: '\n', rect: [0.0, 0.0, 0.0, 0.0] },
        glyph('c', 0.0, 20.0),
        glyph('d', 8.0, 20.0),
    ];
    let cm = CopyMode::new(glyphs, new_line, across).unwrap();
    assert_eq!(cm.glyphs.len(), 4);
    assert_eq!(cm.lines.len(), 2);
    assert_eq!(cm.lines[0], vec![0, 1]);
    assert_eq!(cm.lines[1], vec![2, 3]);
}

#[test]
fn copy_mode_selected_text_inserts_newline_on_line_change() {
    let glyphs = vec![glyph('a', 0.0, 0.0), glyph('b', 8.0, 0.0), glyph('c', 0.0, 20.0)];
    let mut cm = CopyMode::new(glyphs, new_line, across).unwrap();
    cm.anchor = Some(0);
    cm.cursor = 2;
    assert_eq!(cm.selected_text(), "ab\nc");
    cm.anchor = None;
    cm.cursor = 1;
    assert_eq!(cm.selected_text(), "b");
}

#[test]
fn copy_mode_vertical_move_keeps_column() {
    let mut cm = two_lines();
    cm.cursor = 1;
    cm.move_line(1, distance);
    assert_eq!(cm.glyphs[cm.cursor].ch, 'e');
    cm.move_line(-1, distance);
    assert_eq!(cm.glyphs[cm.cursor].ch, 'b');
}

#[test]
fn nothing_to_select_without_glyphs() {
    assert!(CopyMode::new(Vec::new(), new_line, across).is_none());
    assert!(CopyMode::new(vec![glyph('\n', 0.0, 0.0), glyph('\u{85}', 0.0, 0.0)], new_line, across).is_none());
}

#[test]
fn vertical_move_stops_at_the_ends_and_takes_the_first_of_equals() {
    let mut cm = two_lines();
    cm.move_line(-1, distance);
    assert_eq!(cm.cursor, 0);
    cm.move_line(7, distance);
    assert_eq!(cm.cursor, 0);
    cm.move_line(1, |_, _| 5);
    assert_eq!(cm.cursor, 3);
    assert_eq!(cm.nearest(glyph(' ', 9.0, 0.0), |_, g| (g.rect[0] - 9.0).abs().to_bits()), 1);
    assert_eq!(cm.nearest(glyph(' ', 0.0, 0.0), |_, _| 1), 0);
}

#[test]
fn selection_has_no_direction() {
    let mut cm = two_lines();
    cm.cursor = 1;
    cm.anchor = Some(4);
    assert_eq!(cm.range(), (1, 4));
    let there = cm.selected_text();
    cm.cursor = 4;
    cm.anchor = Some(1);
    assert_eq!(cm.range(), (1, 4));
    assert_eq!(cm.selected_text(), there);
    assert_eq!(there, "bc\nde");
    assert_eq!(there.replace('\n', ""), "bcde");
}

#[test]
fn keys_move_the_caret() {
    let mut cm = two_lines();
    let mut press_key = |cm: &mut CopyMode<f32>, k: Key| handle_copy_key(&k, cm, distance);
    assert_eq!(press_key(&mut cm, plain('h')), CopyOutcome::Redraw);
    assert_eq!(cm.cursor, 0);
    press_key(&mut cm, plain('l'));
    assert_eq!(cm.cursor, 1);
    press_key(&mut cm, plain('$'));
    assert_eq!(cm.cursor, 2);
    press_key(&mut cm, plain('j'));
    assert_eq!(cm.cursor, 5);
    press_key(&mut cm, plain('l'));
    assert_eq!(cm.cursor, 5);
    press_key(&mut cm, plain('0'));
    assert_eq!(cm.cursor, 3);
    press_key(&mut cm, plain('k'));
    assert_eq!(cm.cursor, 0);
    press_key(&mut cm, plain('G'));
    assert_eq!(cm.cursor, 5);
    press_key(&mut cm, plain('g'));
    assert_eq!(cm.cursor, 0);
    press_key(&mut cm, plain(' '));
    assert_eq!(cm.anchor, Some(0));
    press_key(&mut cm, plain('v'));
    assert_eq!(cm.anchor, None);
}

#[test]
fn keys_end_the_selection() {
    let mut cm = two_lines();
    let mut outcome = |code: KeyCode, ctrl: bool| handle_copy_key(&Key { code, ctrl }, &mut cm, distance);
    assert_eq!(outcome(KeyCode::Enter, false), CopyOutcome::Yank);
    assert_eq!(outcome(KeyCode::Char('y'), false), CopyOutcome::Yank);
    assert_eq!(outcome(KeyCode::Esc, false), CopyOutcome::Exit);
    assert_eq!(outcome(KeyCode::Char('q'), false), CopyOutcome::Exit);
    assert_eq!(outcome(KeyCode::Char('c'), true), CopyOutcome::Exit);
    assert_eq!(outcome(KeyCode::Char('c'), false), CopyOutcome::Ignore);
    assert_eq!(outcome(KeyCode::Tab, false), CopyOutcome::Ignore);
    assert_eq!(cm.cursor, 0);
    assert_eq!(cm.anchor, None);
}

#[test]
fn mouse_selects() {
    let mut cm = two_lines();
    press(&mut cm, 4);
    assert_eq!((cm.cursor, cm.anchor), (4, Some(4)));
    assert!(!release(&cm));
    drag(&mut cm, 1);
    assert_eq!((cm.cursor, cm.anchor), (1, Some(4)));
    assert!(release(&cm));
}

#[test]
fn found_characters_become_glyphs() {
    let chars = vec![
        FoundChar { ch: Some('a'), rect: Some([1, 2, 3, 4]) },
        FoundChar { ch: None, rect: Some([9, 9, 9, 9]) },
        FoundChar { ch: Some('\n'), rect: None },
        FoundChar { ch: Some('x'), rect: None },
        FoundChar { ch: Some('b'), rect: Some([5, 2, 3, 4]) },
    ];
    let glyphs = page_text(&chars);
    assert_eq!(glyphs.len(), 2);
    assert_eq!((glyphs[0].ch, glyphs[0].rect), ('a', [1, 2, 3, 4]));
    assert_eq!((glyphs[1].ch, glyphs[1].rect), ('b', [5, 2, 3, 4]));
}

#[test]
fn lines_go_from_left_to_right() {
    let cm = CopyMode::new(vec![glyph('b', 8.0, 0.0), glyph('a', 0.0, 0.0)], new_line, across);
    assert_eq!(cm.unwrap().lines, vec![vec![1, 0]]);
    let glyphs = vec![
        glyph('c', 16.0, 0.0),
        glyph('a', 0.0, 0.0),
        glyph('b', 8.0, 0.0),
        glyph('B', 8.0, 0.0),
        glyph('e', 8.0, 20.0),
        glyph('d', 0.0, 20.0),
    ];
    let mut cm = CopyMode::new(glyphs, new_line, across).unwrap();
    assert_eq!(cm.lines, vec![vec![1, 2, 3, 0], vec![5, 4]]);
    assert_eq!(cm.line_of, vec![0, 0, 0, 0, 1, 1]);
    cm.line_edge(false);
    assert_eq!(cm.cursor, 1);
    cm.move_line(1, distance);
    assert_eq!(cm.cursor, 5);
    cm.line_edge(true);
    assert_eq!(cm.cursor, 4);
    cm.anchor = Some(0);
    assert_eq!(cm.selected_text(), "cabB\ne");
}

#[test]
fn selection_is_highlighted_line_by_line() {
    let mut cm = two_lines();
    assert!(cm.selected_spans().is_empty());
    cm.cursor = 1;
    cm.anchor = Some(1);
    assert_eq!(cm.selected_spans(), vec![(1, 1)]);
    cm.cursor = 4;
    assert_eq!(cm.selected_spans(), vec![(1, 2), (3, 4)]);
    cm.anchor = Some(0);
    cm.cursor = 2;
    assert_eq!(cm.selected_spans(), vec![(0, 2)]);
}
