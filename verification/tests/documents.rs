use vecview::config::{
    aa_supersample, config_place, default_min_frame_ms, min_frame_ms, redraw_interval_ms,
    resolve_scale, vis_poll_ms, ConfigPlace,
};
use vecview::source::{
    can_export, compiled_page_count, document_kind, drawing_file_name, export_file_name, file_maker,
    owns_drawing, owns_file, owns_page, page_file_name, page_index, stale_pages, viewer_file_name, DocumentKind, PageFile, Source,
    WatchedDir,
};
use vecview::typst::{cmarker_wrapper_src, error_detail};

#[test]
fn scale_precedence_arg_over_env_with_clamp() {
    assert_eq!(resolve_scale(Some(3), None), 3);
    assert_eq!(resolve_scale(Some(9), None), 4);
    assert_eq!(resolve_scale(Some(0), None), 1);
}

#[test]
fn scale_from_the_environment() {
    assert_eq!(resolve_scale(Some(3), Some("2")), 3);
    assert_eq!(resolve_scale(None, Some("2")), 2);
    assert_eq!(resolve_scale(None, Some("9")), 4);
    assert_eq!(resolve_scale(None, Some(" 2")), 1);
    assert_eq!(resolve_scale(None, None), 1);
}

#[test]
fn intervals_have_least_values() {
    assert_eq!(min_frame_ms(None, 80), 80);
    assert_eq!(min_frame_ms(Some("5"), 80), 16);
    assert_eq!(min_frame_ms(Some("33"), 80), 33);
    assert_eq!(min_frame_ms(Some("x"), 200), 200);
    assert_eq!(default_min_frame_ms("kitty"), 80);
    assert_eq!(default_min_frame_ms("kitty (placeholder)"), 200);
    assert_eq!(default_min_frame_ms("sixel (tmux native)"), 200);
    assert_eq!(redraw_interval_ms(None), 1000);
    assert_eq!(redraw_interval_ms(Some("50")), 100);
    assert_eq!(redraw_interval_ms(Some("250")), 250);
    assert_eq!(vis_poll_ms(None), None);
    assert_eq!(vis_poll_ms(Some("0")), None);
    assert_eq!(vis_poll_ms(Some("x")), None);
    assert_eq!(vis_poll_ms(Some(" 5 ")), Some(100));
    assert_eq!(vis_poll_ms(Some("500")), Some(500));
    assert_eq!(aa_supersample(None), 2);
    assert_eq!(aa_supersample(Some(" 3 ")), 3);
    assert_eq!(aa_supersample(Some("0")), 1);
    assert_eq!(aa_supersample(Some("9")), 4);
}

#[test]
fn configuration_is_looked_for_in_order() {
    assert_eq!(config_place(true, true, true), Some(ConfigPlace::Given));
    assert_eq!(config_place(false, true, true), Some(ConfigPlace::ConfigHome));
    assert_eq!(config_place(false, false, true), Some(ConfigPlace::Home));
    assert_eq!(config_place(false, false, false), None);
}

#[test]
fn kinds_of_documents() {
    assert_eq!(document_kind("typ"), Some(DocumentKind::Typst));
    assert_eq!(document_kind("MD"), Some(DocumentKind::Markdown));
    assert_eq!(document_kind("markdown"), Some(DocumentKind::Markdown));
    assert_eq!(document_kind("Svg"), Some(DocumentKind::Svg));
    assert_eq!(document_kind("pdf"), Some(DocumentKind::Pdf));
    assert_eq!(document_kind("txt"), None);
    assert_eq!(document_kind(""), None);
    assert!(can_export(DocumentKind::Typst) && can_export(DocumentKind::Markdown));
    assert!(!can_export(DocumentKind::Pdf) && !can_export(DocumentKind::Svg));
}

#[test]
fn pages_are_numbered_from_one() {
    assert_eq!(page_index(1, 3), Some(0));
    assert_eq!(page_index(0, 3), Some(0));
    assert_eq!(page_index(3, 3), Some(2));
    assert_eq!(page_index(4, 3), None);
    assert_eq!(page_index(1, 0), None);
}

#[test]
fn files_of_viewers_are_told_apart() {
    let name = page_file_name("doc", 12, 0);
    assert_eq!(name, "vecview-doc-12-1.svg");
    assert_eq!(page_file_name("doc", 12, 9), "vecview-doc-12-10.svg");
    assert!(owns_page("doc", 12, &name));
    assert!(!owns_page("doc", 1, &name));
    assert!(!owns_page("doc", 2, &name));
    let wrapper = viewer_file_name("doc", 12, "main.typ");
    assert_eq!(wrapper, "vecview-doc-12-main.typ");
    assert!(!owns_page("doc", 12, &wrapper));
    assert!(owns_file("doc", 12, &wrapper));
    assert!(!owns_file("doc", 1, &wrapper));
    assert!(!owns_file("doc", 12, "vecview-docs-12-1.svg"));
    assert!(!owns_file("do", 12, "vecview-doc-12-1.svg"));
    assert_eq!(drawing_file_name("doc", 12, "{p}.svg"), "vv-render-doc-12-{p}.svg");
    assert_eq!(export_file_name("doc", 12), "vv-export-doc-12.typ");
}

#[test]
fn files_name_their_maker() {
    assert_eq!(file_maker("doc", "vecview-doc-12-1.svg"), Some(12));
    assert_eq!(file_maker("doc", "vecview-doc-4294967295-x"), Some(u32::MAX));
    assert_eq!(file_maker("doc", "vecview-doc-4294967296-x"), None);
    assert_eq!(file_maker("doc", "vecview-doc--1.svg"), None);
    assert_eq!(file_maker("doc", "vecview-other-12-1.svg"), None);
    assert_eq!(file_maker("doc", "vecview-doc-"), None);
    assert_eq!(file_maker("doc", "vecview-doc-12"), None);
    assert_eq!(file_maker("doc", "vecview-doc-12.svg"), None);
}

#[test]
fn files_of_longer_names_are_left_alone() {
    let name = page_file_name("doc-7", 123, 0);
    assert_eq!(name, "vecview-doc-7-123-1.svg");
    assert_eq!(file_maker("doc", &name), None);
    assert_eq!(file_maker("doc-7", &name), Some(123));
    assert!(!owns_file("doc", 7, &name));
    assert!(owns_file("doc-7", 123, &name));
    assert!(!owns_page("doc", 7, &name));
    assert!(owns_page("doc-7", 123, &name));
    let typst = Source::Typst { dir: "/tmp", stem: "doc".to_string(), tag: 7 };
    assert!(!typst.owns(false, true, Some(&name)));
    let drawing = drawing_file_name("doc-7", 123, "1.svg");
    assert!(owns_drawing("doc-7", 123, &drawing));
    assert!(!owns_drawing("doc", 7, &drawing));
    assert!(!owns_drawing("doc-7", 12, &drawing));
}

#[test]
fn sources_know_their_files() {
    let svg = Source::Svg("a.svg");
    assert!(matches!(svg.page_path(3), PageFile::File("a.svg")));
    assert!(matches!(svg.watch_dir(), WatchedDir::Of("a.svg")));
    assert!(svg.owns(true, false, None));
    assert!(!svg.owns(false, true, Some("a.svg")));
    let pdf = Source::Pdf { pdf: "a.pdf" };
    assert!(matches!(pdf.page_path(3), PageFile::File("a.pdf")));
    let typst = Source::Typst { dir: "/tmp", stem: "d".to_string(), tag: 5 };
    assert!(matches!(typst.page_path(1), PageFile::In { dir: "/tmp", name } if name == "vecview-d-5-2.svg"));
    assert!(matches!(typst.watch_dir(), WatchedDir::Dir("/tmp")));
    assert!(typst.owns(false, true, Some("vecview-d-5-2.svg")));
    assert!(!typst.owns(false, false, Some("vecview-d-5-2.svg")));
    assert!(!typst.owns(true, true, None));
}

#[test]
fn pages_are_counted_up_to_the_first_gap() {
    assert_eq!(compiled_page_count(|i| i < 3 || i == 5), 3);
    assert_eq!(compiled_page_count(|_| false), 1);
}

#[test]
fn leftover_pages_are_at_the_end() {
    let s = 1_000_000_000i128;
    assert_eq!(stale_pages(&vec![]), 0);
    assert_eq!(stale_pages(&vec![10 * s, 10 * s + 5, 9 * s]), 1);
    assert_eq!(stale_pages(&vec![10 * s, 10 * s, 9 * s]), 0);
    assert_eq!(stale_pages(&vec![10 * s, 2 * s, 3 * s]), 2);
    assert_eq!(stale_pages(&vec![2 * s, 10 * s]), 0);
    assert_eq!(stale_pages(&vec![-5 * s]), 0);
}

#[test]
fn markdown_is_wrapped() {
    let a4 = "#import \"@preview/cmarker:0.1.9\"\n#set page(paper: \"a4\", margin: 1.5cm)\n#set text(size: 11pt)\n#cmarker.render(read(\"/a \\\"b\\\\c.md\"))\n";
    assert_eq!(cmarker_wrapper_src("/a \"b\\c.md", None), a4);
    assert_eq!(cmarker_wrapper_src("/a \"b\\c.md", Some("  ")), a4);
    assert_eq!(cmarker_wrapper_src("/a \"b\\c.md", Some("a4\", x: \"")), a4);
    let with = |page: &str| cmarker_wrapper_src("x", Some(page)).lines().nth(1).unwrap().to_string();
    assert_eq!(with(" Auto "), "#set page(width: 21cm, height: auto, margin: 1.5cm)");
    assert_eq!(with("US-Letter"), "#set page(paper: \"us-letter\", margin: 1.5cm)");
}

#[test]
fn errors_of_the_compiler_are_found() {
    assert_eq!(error_detail(""), "");
    assert_eq!(error_detail("first\r\n  Error: no file \nerror: second\n"), "Error: no file");
    assert_eq!(error_detail("  just this\nand that"), "just this");
    assert_eq!(error_detail("\n\nx"), "");
    assert_eq!(error_detail("a\nan ERROR"), "an ERROR");
}
