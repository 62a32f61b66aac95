use base64::engine::general_purpose::STANDARD;
use base64::Engine;
use vecview::codec::encode_png;
use vecview::page::{Color, DrawCommand, FillRule, ImageData, PathSegment};
use vecview::svg::{
    convert_fill, convert_stroke, decode_raster, group_found_uses, paint_color, placed_image, prepare,
    rewrite_found_images, rewrite_use_transforms, walk, Paint, Rgb, SvgFill, SvgImage, SvgNode, SvgPath, SvgPicture, SvgStroke,
};

#[test]
fn placed_copies_are_grouped() {
    assert_eq!(
        rewrite_use_transforms("<svg><use href=\"#a\" transform=\"scale(2)\" fill=\"red\" /></svg>"),
        "<svg><g transform=\"scale(2)\"><use href=\"#a\" fill=\"red\"/></g></svg>"
    );
    assert_eq!(
        rewrite_use_transforms("<use transform=\"a\"/>x<use transform=\"b\"/>"),
        "<g transform=\"a\"><use/></g>x<g transform=\"b\"><use/></g>"
    );
}

#[test]
fn other_text_is_left_as_it_is() {
    for s in ["", "<svg/>", "<use href=\"#a\"/>", "<user transform=\"a\"/>", "日本"] {
        assert_eq!(rewrite_use_transforms(s), s);
    }
}

#[test]
fn embedded_documents_are_rewritten_too() {
    let inner = "<svg><use transform=\"t\"/></svg>";
    let outer = format!("<image href=\"data:image/svg+xml;base64,{}\"/>", STANDARD.encode(inner));
    let wanted = STANDARD.encode("<svg><g transform=\"t\"><use/></g></svg>");
    assert_eq!(
        rewrite_use_transforms(&outer),
        format!("<image href=\"data:image/svg+xml;base64,{wanted}\"/>")
    );
    let twice = format!("data:image/svg+xml;base64,{}", STANDARD.encode(&outer));
    let inside = rewrite_use_transforms(&outer);
    assert_eq!(
        rewrite_use_transforms(&twice),
        format!("data:image/svg+xml;base64,{}", STANDARD.encode(inside))
    );
}

#[test]
fn embedded_nonsense_is_left_as_it_is() {
    for code in ["====", "QQ", STANDARD.encode([0xff, 0xfe]).as_str()] {
        let s = format!("<image href=\"data:image/svg+xml;base64,{code}\"/>");
        assert_eq!(rewrite_use_transforms(&s), s);
    }
}

#[test]
fn only_text_is_prepared() {
    assert_eq!(prepare(b"<use transform=\"a\"/>"), b"<g transform=\"a\"><use/></g>".to_vec());
    assert_eq!(prepare(&[0x1f, 0x8b, 0xff]), vec![0x1f, 0x8b, 0xff]);
}

#[test]
fn raster_images_are_decoded() {
    let rgba: Vec<u8> = (0..24).collect();
    let png = encode_png(&rgba, 3, 2).unwrap();
    let image = decode_raster(&png, [1, 2, 3, 4]).unwrap();
    assert_eq!((image.px_width, image.px_height, image.rect), (3, 2, [1, 2, 3, 4]));
    assert_eq!(image.rgba, rgba);
    assert!(decode_raster(b"no image", [0; 4]).is_none());
}

fn rgb(r: u8, g: u8, b: u8) -> Rgb {
    Rgb { r, g, b }
}

#[test]
fn paint_comes_down_to_one_colour() {
    let color = Some(Color::rgba(1, 2, 3, 9));
    assert_eq!(paint_color(&Paint::Color(rgb(1, 2, 3)), 9), color);
    let stops = || vec![rgb(1, 2, 3), rgb(4, 5, 6)];
    assert_eq!(paint_color(&Paint::LinearGradient(stops()), 9), color);
    assert_eq!(paint_color(&Paint::RadialGradient(stops()), 9), color);
    assert_eq!(paint_color(&Paint::LinearGradient(Vec::new()), 9), None);
    assert_eq!(paint_color(&Paint::RadialGradient(Vec::new()), 9), None);
    assert_eq!(paint_color(&Paint::Pattern, 9), None);
    let fill = SvgFill { paint: Paint::Color(rgb(1, 2, 3)), alpha: 9, rule: FillRule::EvenOdd };
    let converted = convert_fill(&Some(fill)).unwrap();
    assert_eq!((Some(converted.color), converted.rule), (color, FillRule::EvenOdd));
    let stroke = SvgStroke { paint: Paint::Pattern, alpha: 9, width: 2 };
    assert!(convert_stroke(&Some(stroke)).is_none());
    assert!(convert_fill(&None).is_none());
}

fn black() -> Paint {
    Paint::Color(rgb(0, 0, 0))
}

fn fill() -> Option<SvgFill> {
    Some(SvgFill { paint: black(), alpha: 255, rule: FillRule::NonZero })
}

fn stroke() -> Option<SvgStroke<i32>> {
    Some(SvgStroke { paint: black(), alpha: 255, width: 5 })
}

fn line() -> Vec<PathSegment<i32>> {
    vec![PathSegment::MoveTo([0, 0]), PathSegment::LineTo([9, 0])]
}

fn drawn(nodes: Vec<SvgNode<i32>>) -> Vec<String> {
    let mut out = Vec::new();
    walk(nodes, &mut out);
    out.iter()
        .map(|c| match c {
            DrawCommand::Path(p) => format!(
                "path {} fill={} stroke={}",
                p.segments.len(),
                p.fill.is_some(),
                p.stroke.is_some()
            ),
            DrawCommand::Image(i) => format!("image {}x{}", i.px_width, i.px_height),
        })
        .collect()
}

fn svg_path(visible: bool) -> SvgPath<i32> {
    SvgPath { visible, segments: line(), fill: fill(), stroke: stroke(), dashes: None }
}

#[test]
fn paths_are_drawn_if_there_is_something_to_draw() {
    assert_eq!(drawn(vec![SvgNode::Path(svg_path(true))]), vec!["path 2 fill=true stroke=true"]);
    assert!(drawn(vec![SvgNode::Path(svg_path(false))]).is_empty());
    let empty = SvgPath { segments: Vec::new(), ..svg_path(true) };
    assert!(drawn(vec![SvgNode::Path(empty)]).is_empty());
    let unpainted = SvgPath { fill: None, stroke: None, ..svg_path(true) };
    assert!(drawn(vec![SvgNode::Path(unpainted)]).is_empty());
}

#[test]
fn dashed_strokes_are_drawn_apart_from_the_fill() {
    let dashed = |fill, stroke, dashes: usize| SvgPath {
        fill,
        stroke,
        dashes: Some(vec![PathSegment::LineTo([0, 0]); dashes]),
        ..svg_path(true)
    };
    assert_eq!(
        drawn(vec![SvgNode::Path(dashed(fill(), stroke(), 6))]),
        vec!["path 2 fill=true stroke=false", "path 6 fill=false stroke=true"]
    );
    assert_eq!(
        drawn(vec![SvgNode::Path(dashed(None, stroke(), 6))]),
        vec!["path 6 fill=false stroke=true"]
    );
    assert_eq!(
        drawn(vec![SvgNode::Path(dashed(fill(), stroke(), 0))]),
        vec!["path 2 fill=true stroke=false"]
    );
    assert_eq!(
        drawn(vec![SvgNode::Path(dashed(fill(), None, 6))]),
        vec!["path 2 fill=true stroke=false"]
    );
}

#[test]
fn nodes_are_drawn_in_document_order() {
    let image = |w: u32, visible: bool| {
        let data = ImageData { rgba: Vec::new(), px_width: w, px_height: 1, rect: [0; 4] };
        SvgNode::Image(SvgImage { visible, picture: SvgPicture::Raster(Some(data)) })
    };
    let nested = |nodes| SvgNode::Image(SvgImage { visible: true, picture: SvgPicture::Nested(nodes) });
    let nodes = vec![
        image(1, true),
        SvgNode::Group(vec![image(2, true), SvgNode::Text, SvgNode::Group(vec![image(3, true)])]),
        image(4, false),
        nested(Some(vec![image(5, true), SvgNode::Path(svg_path(true))])),
        nested(None),
        SvgNode::Image(SvgImage { visible: true, picture: SvgPicture::Raster(None) }),
        image(6, true),
    ];
    assert_eq!(
        drawn(nodes),
        vec![
            "image 1x1",
            "image 2x1",
            "image 3x1",
            "image 5x1",
            "path 2 fill=true stroke=true",
            "image 6x1",
        ]
    );
}

fn strings(v: &[&str]) -> Vec<String> {
    v.iter().map(|s| s.to_string()).collect()
}

#[test]
fn found_copies_are_put_back_in_groups() {
    let found = vec![strings(&["whole", " a", "T", " b"]), strings(&["whole", "", "U", ""])];
    let between = strings(&["<", "-", ">"]);
    assert_eq!(
        group_found_uses(&found, &between),
        "<<g transform=\"T\"><use a b/></g>-<g transform=\"U\"><use/></g>>"
    );
    assert_eq!(group_found_uses(&Vec::new(), &strings(&["x"])), "x");
}

#[test]
fn found_images_are_put_back_rewritten() {
    let code = STANDARD.encode("<use transform=\"T\"/>");
    let found = vec![strings(&["whole", &code]), strings(&["other", "!"])];
    let new = STANDARD.encode("<g transform=\"T\"><use/></g>");
    let between = strings(&["a", "b", "c"]);
    assert_eq!(
        rewrite_found_images(&found, &between, 1000),
        format!("adata:image/svg+xml;base64,{new}botherc")
    );
    assert_eq!(rewrite_found_images(&found, &between, 5), "awholebotherc");
}

#[test]
fn pixels_become_an_image() {
    let image = placed_image(Some((vec![1, 2, 3, 4], 1, 1)), [5, 6, 7, 8]).unwrap();
    assert_eq!((image.rgba, image.px_width, image.px_height), (vec![1, 2, 3, 4], 1, 1));
    assert_eq!(image.rect, [5, 6, 7, 8]);
    assert!(placed_image(None, [0; 4]).is_none());
}
