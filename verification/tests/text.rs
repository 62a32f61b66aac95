use vecview::codec::encode_png;
use vecview::terminal::{clipboard_sequence, push_cursor_to, push_passed};
use vecview::text::{
    ascii_lower, chars_of, contains, ends_with, find, find_either, is_text,
    parse_number, parse_size_pair, push_chars, push_decimal, same_chars, starts_with, string_of, trim,
};

fn cs(s: &str) -> Vec<char> {
    chars_of(s)
}

#[test]
fn text_and_characters() {
    assert_eq!(cs("aé日"), vec!['a', 'é', '日']);
    assert_eq!(string_of(&['a', '日']), "a日");
    let mut s = "x".to_string();
    push_chars(&mut s, &['y', 'z']);
    assert_eq!(s, "xyz");
    assert!(is_text(&['a', 'b'], "ab"));
    assert!(!is_text(&['a'], "ab"));
    assert!(same_chars(&[], &[]));
}

#[test]
fn numbers_are_written_and_read_back() {
    for n in [0, 9, 10, 255, 4294967295, u64::MAX] {
        let mut t = String::new();
        push_decimal(&mut t, n);
        assert_eq!(t, n.to_string());
        assert_eq!(parse_number(&cs(&t), u64::MAX), Some(n));
    }
    assert_eq!(parse_number(&cs("256"), 255), None);
    assert_eq!(parse_number(&cs("+7"), 255), Some(7));
    assert_eq!(parse_number(&cs("007"), 255), Some(7));
    for bad in ["", "+", "-1", "1 ", "a", "18446744073709551616"] {
        assert_eq!(parse_number(&cs(bad), u64::MAX), None);
    }
    assert_eq!(parse_number(&cs("9"), 5), None);
}

#[test]
fn white_space_and_case() {
    assert_eq!(trim(&cs(" \t\u{3000}a b\n")), &['a', ' ', 'b']);
    assert_eq!(trim(&cs("  ")), &[] as &[char]);
    assert_eq!(ascii_lower(&cs("AbÉ1")), cs("abÉ1"));
}

#[test]
fn searching() {
    assert_eq!(find(&cs("abcabc"), &cs("bc")), Some(1));
    assert_eq!(find(&cs("abc"), &cs("")), Some(0));
    assert_eq!(find(&cs("abc"), &cs("bcd")), None);
    assert!(contains(&cs("abc"), &cs("c")));
    assert!(starts_with(&cs("abc"), &cs("ab")));
    assert!(ends_with(&cs("abc"), &cs("bc")));
    assert!(!ends_with(&cs("c"), &cs("bc")));
    assert_eq!(find_either(&cs("12X3x"), 'x', 'X'), Some(2));
    assert_eq!(find_either(&cs("12"), 'x', 'X'), None);
    assert_eq!(parse_size_pair(" 3 x 4 "), Some((3, 4)));
    assert_eq!(parse_size_pair("3x4x5"), None);
}

#[test]
fn sequences_pass_through_tmux() {
    let mut out = String::new();
    push_passed(&mut out, "\u{1b}[1m", false);
    assert_eq!(out, "\u{1b}[1m");
    let mut out = String::new();
    push_passed(&mut out, "a\u{1b}\u{1b}b", true);
    assert_eq!(out, "\u{1b}Ptmux;a\u{1b}\u{1b}\u{1b}\u{1b}b\u{1b}\\");
    let mut out = String::new();
    push_cursor_to(&mut out, 12, 1);
    assert_eq!(out, "\u{1b}[12;1H");
}

#[test]
fn clipboard_gets_base64() {
    assert_eq!(clipboard_sequence("hé", false), "\u{1b}]52;c;aMOp\u{7}");
    assert_eq!(clipboard_sequence("", false), "\u{1b}]52;c;\u{7}");
    assert_eq!(clipboard_sequence("a", false), "\u{1b}]52;c;YQ==\u{7}");
    assert_eq!(clipboard_sequence("ab", true), "\u{1b}Ptmux;\u{1b}\u{1b}]52;c;YWI=\u{7}\u{1b}\\");
    assert_eq!(clipboard_sequence("??>>", false), "\u{1b}]52;c;Pz8+Pg==\u{7}");
}

#[test]
fn png_keeps_every_pixel() {
    let rgba: Vec<u8> = (0..4 * 5 * 3).map(|i| (i * 37) as u8).collect();
    let file = encode_png(&rgba, 5, 3).unwrap();
    assert_eq!(&file[..8], &[0x89, b'P', b'N', b'G', 13, 10, 26, 10]);
    let decoded = image::load_from_memory(&file).unwrap().to_rgba8();
    assert_eq!(decoded.dimensions(), (5, 3));
    assert_eq!(decoded.into_raw(), rgba);
    assert!(encode_png(&[], 0, 3).unwrap_err().ends_with("Zero width not allowed"));
    assert!(encode_png(&[], 3, 0).unwrap_err().ends_with("Zero height not allowed"));
}
