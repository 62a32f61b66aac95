use vecview::page::{
    content_extents, drawable_images, paint_plan, Color, DrawCommand, Extent, Fill, FillRule,
    ImageData, Page, PaintStep, PathData, PathSegment, Stroke,
};
use vecview::path::{build_path, even_pattern, flatten, BuildStep, Dash, Piece};

fn path(segments: Vec<PathSegment<i32>>) -> DrawCommand<i32> {
    DrawCommand::Path(PathData { segments, fill: None, stroke: None })
}

fn picture(w: u32, h: u32) -> DrawCommand<i32> {
    DrawCommand::Image(ImageData { rgba: Vec::new(), px_width: w, px_height: h, rect: [1, 2, 3, 4] })
}

fn page(commands: Vec<DrawCommand<i32>>) -> Page<i32> {
    Page { width: 10, height: 10, commands }
}

#[test]
fn colour_has_its_components() {
    let c = Color::rgba(1, 2, 3, 4);
    assert_eq!((c.r, c.g, c.b, c.a), (1, 2, 3, 4));
}

#[test]
fn painting_starts_with_the_sheet_and_fills_before_strokes() {
    let red = Color::rgba(255, 0, 0, 255);
    let fill = Some(Fill { color: red, rule: FillRule::EvenOdd });
    let stroke = Some(Stroke { color: red, width: 3 });
    let p = page(vec![
        picture(1, 1),
        DrawCommand::Path(PathData { segments: Vec::new(), fill, stroke }),
        DrawCommand::Path(PathData { segments: Vec::new(), fill: None, stroke }),
    ]);
    let steps = paint_plan(&p);
    assert_eq!(steps.len(), 4);
    assert!(matches!(steps[0], PaintStep::Sheet));
    assert!(matches!(steps[1], PaintStep::Fill { command: 1, fill } if fill.rule == FillRule::EvenOdd));
    assert!(matches!(steps[2], PaintStep::Stroke { command: 1, stroke } if stroke.width == 3));
    assert!(matches!(steps[3], PaintStep::Stroke { command: 2, .. }));
    assert_eq!(paint_plan(&page(Vec::new())).len(), 1);
}

#[test]
fn images_without_pixels_are_not_drawn() {
    let p = page(vec![picture(0, 5), path(Vec::new()), picture(2, 2), picture(5, 0), picture(1, 1)]);
    assert_eq!(drawable_images(&p), vec![2, 4]);
}

#[test]
fn content_covers_points_controls_and_images() {
    let p = page(vec![
        path(vec![
            PathSegment::MoveTo([200, 300]),
            PathSegment::QuadTo([1, 2], [3, 4]),
            PathSegment::Close,
        ]),
        picture(1, 1),
        path(vec![PathSegment::CubicTo([350, 450], [700, 500], [600, 700])]),
    ]);
    let points: Vec<String> = content_extents(&p)
        .iter()
        .map(|e| match e {
            Extent::Point([x, y]) => format!("{x},{y}"),
            Extent::Rect(r) => format!("{r:?}"),
        })
        .collect();
    assert_eq!(
        points,
        vec!["200,300", "1,2", "3,4", "[1, 2, 3, 4]", "350,450", "700,500", "600,700"]
    );
    assert!(content_extents(&page(Vec::new())).is_empty());
}

fn steps_text(segments: &[PathSegment<i32>]) -> Vec<String> {
    build_path(segments)
        .iter()
        .map(|s| match s {
            BuildStep::Begin(p) => format!("begin {p:?}"),
            BuildStep::Line(p) => format!("line {p:?}"),
            BuildStep::Quad(..) => "quad".to_string(),
            BuildStep::Cubic(..) => "cubic".to_string(),
            BuildStep::End { close } => format!("end {close}"),
        })
        .collect()
}

#[test]
fn subpaths_are_begun_and_ended_in_turn() {
    assert_eq!(
        steps_text(&[
            PathSegment::LineTo([9, 9]),
            PathSegment::MoveTo([0, 0]),
            PathSegment::LineTo([1, 0]),
            PathSegment::MoveTo([5, 5]),
            PathSegment::QuadTo([1, 1], [2, 2]),
            PathSegment::CubicTo([1, 1], [2, 2], [3, 3]),
            PathSegment::Close,
            PathSegment::LineTo([8, 8]),
            PathSegment::Close,
            PathSegment::MoveTo([6, 6]),
        ]),
        vec![
            "begin [0, 0]",
            "line [1, 0]",
            "end false",
            "begin [5, 5]",
            "quad",
            "cubic",
            "end true",
            "begin [6, 6]",
            "end false",
        ]
    );
    assert!(steps_text(&[]).is_empty());
}

#[test]
fn polylines_have_at_least_two_points() {
    let polys = flatten(
        &[
            PathSegment::MoveTo([1, 1]),
            PathSegment::MoveTo([2, 2]),
            PathSegment::LineTo([3, 3]),
            PathSegment::Close,
            PathSegment::LineTo([4, 4]),
        ],
        [0, 0],
    );
    assert_eq!(polys.len(), 1);
    let points: Vec<[i32; 2]> = polys[0]
        .iter()
        .map(|p| match p {
            Piece::Point(p) => *p,
            Piece::Curve { .. } => [-1, -1],
        })
        .collect();
    assert_eq!(points, vec![[2, 2], [3, 3], [2, 2], [4, 4]]);
}

#[test]
fn curves_keep_their_controls() {
    let polys = flatten(&[PathSegment::QuadTo([1, 2], [3, 4])], [7, 7]);
    assert_eq!(polys.len(), 1);
    assert!(matches!(
        polys[0][0],
        Piece::Curve { from: [7, 7], controls: [[1, 2], [1, 2]], to: [3, 4], quad: true }
    ));
    let cubic = flatten(
        &[PathSegment::MoveTo([5, 5]), PathSegment::CubicTo([1, 1], [2, 2], [3, 3])],
        [0, 0],
    );
    assert!(matches!(
        cubic[0][1],
        Piece::Curve { from: [5, 5], controls: [[1, 1], [2, 2]], to: [3, 3], quad: false }
    ));
    assert!(flatten::<i32>(&[PathSegment::Close], [0, 0]).is_empty());
}

#[test]
fn odd_patterns_are_gone_through_twice() {
    assert_eq!(even_pattern(&[1, 2, 3]), vec![1, 2, 3, 1, 2, 3]);
    assert_eq!(even_pattern(&[1, 2]), vec![1, 2]);
}

#[test]
fn dashes_begin_with_a_move() {
    let mut d = Dash::start(4);
    let mut out: Vec<PathSegment<i32>> = Vec::new();
    d.draw([0, 0], [1, 0], &mut out);
    d.draw([1, 0], [2, 0], &mut out);
    d.advance();
    assert_eq!(d.entry(), 1);
    d.draw([2, 0], [3, 0], &mut out);
    d.advance();
    d.draw([3, 0], [4, 0], &mut out);
    assert_eq!(
        out,
        vec![
            PathSegment::MoveTo([0, 0]),
            PathSegment::LineTo([1, 0]),
            PathSegment::LineTo([2, 0]),
            PathSegment::MoveTo([3, 0]),
            PathSegment::LineTo([4, 0]),
        ]
    );
    d.advance();
    d.advance();
    assert_eq!(d.entry(), 0);
}

/// The bounds of the content, as x, y, width and height.
fn content_bbox(page: &Page<f32>) -> Option<[f32; 4]> {
    let mut points: Vec<[f32; 2]> = Vec::new();
    for extent in content_extents(page) {
        match extent {
            Extent::Point(p) => points.push(p),
            Extent::Rect([x, y, w, h]) => points.extend([[x, y], [x + w, y + h]]),
        }
    }
    let low = |i: usize| points.iter().map(|p| p[i]).reduce(f32::min);
    let high = |i: usize| points.iter().map(|p| p[i]).reduce(f32::max);
    let (x, y) = (low(0)?, low(1)?);
    Some([x, y, high(0)? - x, high(1)? - y])
}

#[test]
fn content_bbox_spans_all_vertices() {
    let path = |segments| DrawCommand::Path(PathData { segments, fill: None, stroke: None });
    let page = Page {
        width: 1000.0,
        height: 1000.0,
        commands: vec![
            path(vec![PathSegment::MoveTo([200.0, 300.0]), PathSegment::LineTo([400.0, 300.0])]),
            path(vec![
                PathSegment::MoveTo([300.0, 400.0]),
                PathSegment::CubicTo([350.0, 450.0], [700.0, 500.0], [600.0, 700.0]),
            ]),
        ],
    };
    assert_eq!(content_bbox(&page), Some([200.0, 300.0, 500.0, 400.0]));
}

#[test]
fn content_bbox_empty_is_none() {
    let page = Page { width: 100.0, height: 100.0, commands: vec![] };
    assert_eq!(content_bbox(&page), None);
}
