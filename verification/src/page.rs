//! Pages: what a parsed document hands to the renderer.
//!
//! A coordinate is a value of the type parameter `T`. Nothing here computes with coordinates; they
//! are carried from the document to the drawing unchanged. The origin is at the top left, and the
//! second coordinate grows downwards.
use vstd::prelude::*;

verus! {

/// An RGBA colour: each component 0 to 255, the colour not multiplied by its alpha.
#[derive(Clone, Copy, Debug, PartialEq, Eq, Structural)]
pub struct Color {
    pub r: u8,
    pub g: u8,
    pub b: u8,
    pub a: u8,
}

impl Color {
    /// The colour with these components.
    pub fn rgba(r: u8, g: u8, b: u8, a: u8) -> (c: Self)
        ensures
            c == (Color { r, g, b, a }),
    {
        Color { r, g, b, a }
    }
}

/// Which points count as inside a path.
#[derive(Clone, Copy, Debug, PartialEq, Eq, Structural)]
pub enum FillRule {
    NonZero,
    EvenOdd,
}

/// How a path is filled: with one colour.
#[derive(Clone, Copy, Debug)]
pub struct Fill {
    pub color: Color,
    pub rule: FillRule,
}

/// How a path is stroked: with one colour, at one width.
#[derive(Clone, Copy, Debug)]
pub struct Stroke<T> {
    pub color: Color,
    pub width: T,
}

/// A segment of a path, in absolute coordinates.
#[derive(Clone, Copy, Debug, PartialEq)]
pub enum PathSegment<T> {
    MoveTo([T; 2]),
    LineTo([T; 2]),
    /// A quadratic curve: one control point, then the end.
    QuadTo([T; 2], [T; 2]),
    /// A cubic curve: two control points, then the end.
    CubicTo([T; 2], [T; 2], [T; 2]),
    Close,
}

/// A vector path with what to paint it with.
pub struct PathData<T> {
    pub segments: Vec<PathSegment<T>>,
    pub fill: Option<Fill>,
    pub stroke: Option<Stroke<T>>,
}

/// A raster image, scaled into the rectangle `[x, y, width, height]` of the page.
pub struct ImageData<T> {
    /// RGBA, row by row from the top, `px_width * px_height * 4` bytes.
    pub rgba: Vec<u8>,
    pub px_width: u32,
    pub px_height: u32,
    pub rect: [T; 4],
}

/// One thing to draw.
pub enum DrawCommand<T> {
    Path(PathData<T>),
    Image(ImageData<T>),
}

/// One page: its size, and what to draw, in order.
pub struct Page<T> {
    pub width: T,
    pub height: T,
    pub commands: Vec<DrawCommand<T>>,
}

// ---------------------------------------------------------------------------
// What gets painted, and in which order.

/// A step of painting the vector part of a page. `command` is the index of a path among the page's
/// commands.
pub enum PaintStep<T> {
    /// The white sheet that covers the page.
    Sheet,
    Fill { command: usize, fill: Fill },
    Stroke { command: usize, stroke: Stroke<T> },
}

/// How the command at `index` is painted: its fill, then its stroke. Images are not painted here.
pub open spec fn command_steps<T>(command: DrawCommand<T>, index: usize) -> Seq<PaintStep<T>> {
    match command {
        DrawCommand::Image(_) => seq![],
        DrawCommand::Path(p) => {
            let fill = match p.fill {
                Some(fill) => seq![PaintStep::Fill { command: index, fill }],
                None => seq![],
            };
            let stroke = match p.stroke {
                Some(stroke) => seq![PaintStep::Stroke { command: index, stroke }],
                None => seq![],
            };
            fill + stroke
        },
    }
}

/// How a page is painted: the sheet, then its paths in order.
pub open spec fn paint_steps<T>(commands: Seq<DrawCommand<T>>) -> Seq<PaintStep<T>>
    decreases commands.len(),
{
    if commands.len() == 0 {
        seq![PaintStep::Sheet]
    } else {
        paint_steps(commands.drop_last()) + command_steps(
            commands.last(),
            (commands.len() - 1) as usize,
        )
    }
}

/// How `page` is painted.
pub fn paint_plan<T: Copy>(page: &Page<T>) -> (r: Vec<PaintStep<T>>)
    ensures
        r@ == paint_steps(page.commands@),
{
    let ghost all = page.commands@;
    let mut out: Vec<PaintStep<T>> = Vec::new();
    out.push(PaintStep::Sheet);
    assert(out@ =~= paint_steps(all.take(0)));
    for i in 0..page.commands.len()
        invariant
            all == page.commands@,
            out@ == paint_steps(all.take(i as int)),
    {
        assert(all.take(i + 1).drop_last() =~= all.take(i as int));
        let ghost before = out@;
        match &page.commands[i] {
            DrawCommand::Image(_) => {},
            DrawCommand::Path(p) => {
                if let Some(fill) = p.fill {
                    out.push(PaintStep::Fill { command: i, fill });
                }
                if let Some(stroke) = p.stroke {
                    out.push(PaintStep::Stroke { command: i, stroke });
                }
            },
        }
        assert(out@ =~= before + command_steps(all[i as int], i));
    }
    assert(all.take(all.len() as int) =~= all);
    out
}

/// Whether a command is an image that has pixels.
pub open spec fn is_drawable<T>(command: DrawCommand<T>) -> bool {
    match command {
        DrawCommand::Image(image) => image.px_width != 0 && image.px_height != 0,
        DrawCommand::Path(_) => false,
    }
}

/// The indices of the images that have pixels, in order.
pub open spec fn drawable_indices<T>(commands: Seq<DrawCommand<T>>) -> Seq<usize>
    decreases commands.len(),
{
    if commands.len() == 0 {
        seq![]
    } else if is_drawable(commands.last()) {
        drawable_indices(commands.drop_last()).push((commands.len() - 1) as usize)
    } else {
        drawable_indices(commands.drop_last())
    }
}

/// The indices of the images of `page` that are drawn: those that have pixels. They come after all
/// paths, in the order in which they stand.
pub fn drawable_images<T>(page: &Page<T>) -> (r: Vec<usize>)
    ensures
        r@ == drawable_indices(page.commands@),
{
    let ghost all = page.commands@;
    let mut out: Vec<usize> = Vec::new();
    assert(out@ =~= drawable_indices(all.take(0)));
    for i in 0..page.commands.len()
        invariant
            all == page.commands@,
            out@ == drawable_indices(all.take(i as int)),
    {
        assert(all.take(i + 1).drop_last() =~= all.take(i as int));
        if let DrawCommand::Image(image) = &page.commands[i] {
            if image.px_width != 0 && image.px_height != 0 {
                out.push(i);
            }
        }
    }
    assert(all.take(all.len() as int) =~= all);
    out
}

/// The indices of `drawable_images` are those of the drawable images, each once, in order.
pub proof fn law_drawable_images<T>(commands: Seq<DrawCommand<T>>)
    requires
        commands.len() <= usize::MAX,
    ensures
        forall|k: int|
            0 <= k < drawable_indices(commands).len() ==> {
                let i = #[trigger] drawable_indices(commands)[k];
                i < commands.len() && is_drawable(commands[i as int])
            },
        forall|k: int, l: int|
            0 <= k < l < drawable_indices(commands).len() ==> #[trigger] drawable_indices(
                commands,
            )[k] < #[trigger] drawable_indices(commands)[l],
        forall|i: int|
            0 <= i < commands.len() && is_drawable(#[trigger] commands[i])
                ==> drawable_indices(commands).contains(i as usize),
    decreases commands.len(),
{
    if commands.len() > 0 {
        let rest = commands.drop_last();
        law_drawable_images(rest);
        let ds = drawable_indices(commands);
        let rs = drawable_indices(rest);
        assert forall|i: int| 0 <= i < commands.len() && is_drawable(#[trigger] commands[i]) implies
            ds.contains(i as usize) by {
            if i == commands.len() - 1 {
                assert(ds[ds.len() - 1] == i as usize);
            } else {
                assert(rest[i] == commands[i]);
                let k = rs.index_of(i as usize);
                assert(ds[k] == rs[k]);
            }
        }
        assert forall|k: int| 0 <= k < ds.len() implies {
            let i = #[trigger] ds[k];
            i < commands.len() && is_drawable(commands[i as int])
        } by {
            if k < rs.len() {
                assert(rs[k] == ds[k]);
                assert(rest[rs[k] as int] == commands[rs[k] as int]);
            }
        }
    }
}

/// A page is painted sheet first, and each step after it paints a path of the page. No step paints
/// an earlier path than the step before it.
pub proof fn law_paint_order<T>(commands: Seq<DrawCommand<T>>)
    requires
        commands.len() <= usize::MAX,
    ensures
        paint_steps(commands).len() > 0,
        paint_steps(commands)[0] is Sheet,
        forall|k: int|
            0 < k < paint_steps(commands).len() ==> {
                let s = #[trigger] paint_steps(commands)[k];
                s !is Sheet && step_command(s) < commands.len()
                    && commands[step_command(s) as int] is Path
            },
        forall|k: int, l: int|
            0 < k < l < paint_steps(commands).len() ==> step_command(
                #[trigger] paint_steps(commands)[k],
            ) <= step_command(#[trigger] paint_steps(commands)[l]),
    decreases commands.len(),
{
    if commands.len() > 0 {
        let rest = commands.drop_last();
        law_paint_order(rest);
        let ps = paint_steps(commands);
        let rs = paint_steps(rest);
        let n = (commands.len() - 1) as usize;
        assert forall|k: int| 0 < k < ps.len() implies {
            let s = #[trigger] ps[k];
            s !is Sheet && step_command(s) < commands.len() && commands[step_command(s) as int] is Path
        } by {
            if k < rs.len() {
                assert(ps[k] == rs[k]);
                assert(rest[step_command(rs[k]) as int] == commands[step_command(rs[k]) as int]);
            } else {
                assert(ps[k] == command_steps(commands.last(), n)[k - rs.len()]);
            }
        }
        assert forall|k: int, l: int| 0 < k < l < ps.len() implies step_command(#[trigger] ps[k])
            <= step_command(#[trigger] ps[l]) by {
            if l < rs.len() {
                assert(ps[k] == rs[k] && ps[l] == rs[l]);
            } else {
                assert(ps[l] == command_steps(commands.last(), n)[l - rs.len()]);
                if k < rs.len() {
                    assert(ps[k] == rs[k]);
                } else {
                    assert(ps[k] == command_steps(commands.last(), n)[k - rs.len()]);
                }
            }
        }
    }
}

/// The index of the path that a step paints; zero for the sheet.
pub open spec fn step_command<T>(step: PaintStep<T>) -> usize {
    match step {
        PaintStep::Sheet => 0,
        PaintStep::Fill { command, .. } => command,
        PaintStep::Stroke { command, .. } => command,
    }
}

// ---------------------------------------------------------------------------
// Where the content of a page lies.

/// Something that the bounds of a page's content must cover: a point of a path or a control point
/// of one of its curves, or the rectangle of an image.
#[derive(Clone, Copy, Debug)]
pub enum Extent<T> {
    Point([T; 2]),
    Rect([T; 4]),
}

/// The points of a segment, control points included.
pub open spec fn segment_extents<T>(segment: PathSegment<T>) -> Seq<Extent<T>> {
    match segment {
        PathSegment::MoveTo(p) => seq![Extent::Point(p)],
        PathSegment::LineTo(p) => seq![Extent::Point(p)],
        PathSegment::QuadTo(c, p) => seq![Extent::Point(c), Extent::Point(p)],
        PathSegment::CubicTo(c1, c2, p) => seq![
            Extent::Point(c1),
            Extent::Point(c2),
            Extent::Point(p),
        ],
        PathSegment::Close => seq![],
    }
}

/// The points of a path, segment by segment.
pub open spec fn path_extents<T>(segments: Seq<PathSegment<T>>) -> Seq<Extent<T>>
    decreases segments.len(),
{
    if segments.len() == 0 {
        seq![]
    } else {
        path_extents(segments.drop_last()) + segment_extents(segments.last())
    }
}

/// What one command covers.
pub open spec fn command_extents<T>(command: DrawCommand<T>) -> Seq<Extent<T>> {
    match command {
        DrawCommand::Path(p) => path_extents(p.segments@),
        DrawCommand::Image(image) => seq![Extent::Rect(image.rect)],
    }
}

/// What the commands of a page cover, in order.
pub open spec fn page_extents<T>(commands: Seq<DrawCommand<T>>) -> Seq<Extent<T>>
    decreases commands.len(),
{
    if commands.len() == 0 {
        seq![]
    } else {
        page_extents(commands.drop_last()) + command_extents(commands.last())
    }
}

fn push_segment_extents<T: Copy>(segment: PathSegment<T>, out: &mut Vec<Extent<T>>)
    ensures
        final(out)@ == old(out)@ + segment_extents(segment),
{
    match segment {
        PathSegment::MoveTo(p) => {
            out.push(Extent::Point(p));
        },
        PathSegment::LineTo(p) => {
            out.push(Extent::Point(p));
        },
        PathSegment::QuadTo(c, p) => {
            out.push(Extent::Point(c));
            out.push(Extent::Point(p));
        },
        PathSegment::CubicTo(c1, c2, p) => {
            out.push(Extent::Point(c1));
            out.push(Extent::Point(c2));
            out.push(Extent::Point(p));
        },
        PathSegment::Close => {},
    }
    assert(out@ =~= old(out)@ + segment_extents(segment));
}

/// What the content of `page` covers: every point and control point of its paths, and the rectangle
/// of every image. Empty where the page draws nothing.
pub fn content_extents<T: Copy>(page: &Page<T>) -> (r: Vec<Extent<T>>)
    ensures
        r@ == page_extents(page.commands@),
{
    let ghost all = page.commands@;
    let mut out: Vec<Extent<T>> = Vec::new();
    assert(out@ =~= page_extents(all.take(0)));
    for i in 0..page.commands.len()
        invariant
            all == page.commands@,
            out@ == page_extents(all.take(i as int)),
    {
        assert(all.take(i + 1).drop_last() =~= all.take(i as int));
        let ghost before = out@;
        match &page.commands[i] {
            DrawCommand::Image(image) => {
                out.push(Extent::Rect(image.rect));
            },
            DrawCommand::Path(p) => {
                let ghost segs = p.segments@;
                assert(out@ =~= before + path_extents(segs.take(0)));
                for j in 0..p.segments.len()
                    invariant
                        segs == p.segments@,
                        out@ == before + path_extents(segs.take(j as int)),
                {
                    assert(segs.take(j + 1).drop_last() =~= segs.take(j as int));
                    push_segment_extents(p.segments[j], &mut out);
                    assert(out@ =~= before + path_extents(segs.take(j + 1)));
                }
                assert(segs.take(segs.len() as int) =~= segs);
            },
        }
        assert(out@ =~= before + command_extents(all[i as int]));
    }
    assert(all.take(all.len() as int) =~= all);
    out
}

proof fn lemma_path_extents<T>(segments: Seq<PathSegment<T>>)
    ensures
        forall|e: Extent<T>| #[trigger]
            path_extents(segments).contains(e) <==> exists|j: int|
                0 <= j < segments.len() && has_point(#[trigger] segments[j], e),
    decreases segments.len(),
{
    let all = path_extents(segments);
    if segments.len() > 0 {
        let rest = segments.drop_last();
        let before = path_extents(rest);
        let last = segment_extents(segments.last());
        let n = segments.len() - 1;
        lemma_path_extents(rest);
        assert forall|e: Extent<T>| #[trigger] all.contains(e) <==> exists|j: int|
            0 <= j < segments.len() && has_point(#[trigger] segments[j], e) by {
            lemma_in_either(before, last, e);
            assert(last.contains(e) <==> has_point(segments[n], e)) by {
                lemma_segment_extents(segments.last(), e);
            }
            if before.contains(e) {
                let j = choose|j: int| 0 <= j < rest.len() && has_point(#[trigger] rest[j], e);
                assert(has_point(segments[j], e));
            }
            if exists|j: int| 0 <= j < segments.len() && has_point(#[trigger] segments[j], e) {
                let j = choose|j: int|
                    0 <= j < segments.len() && has_point(#[trigger] segments[j], e);
                if j < n {
                    assert(has_point(rest[j], e));
                }
            }
        }
    }
}

proof fn lemma_in_either<A>(a: Seq<A>, b: Seq<A>, e: A)
    ensures
        (a + b).contains(e) <==> a.contains(e) || b.contains(e),
{
    if (a + b).contains(e) {
        let i = choose|i: int| 0 <= i < (a + b).len() && (a + b)[i] == e;
        if i < a.len() {
            assert(a[i] == e);
        } else {
            assert(b[i - a.len()] == e);
        }
    }
    if a.contains(e) {
        let i = choose|i: int| 0 <= i < a.len() && a[i] == e;
        assert((a + b)[i] == e);
    }
    if b.contains(e) {
        let i = choose|i: int| 0 <= i < b.len() && b[i] == e;
        assert((a + b)[i + a.len()] == e);
    }
}

proof fn lemma_segment_extents<T>(segment: PathSegment<T>, e: Extent<T>)
    ensures
        segment_extents(segment).contains(e) <==> has_point(segment, e),
{
    let s = segment_extents(segment);
    match segment {
        PathSegment::MoveTo(p) => {
            assert(s[0] == Extent::Point(p));
        },
        PathSegment::LineTo(p) => {
            assert(s[0] == Extent::Point(p));
        },
        PathSegment::QuadTo(c, p) => {
            assert(s[0] == Extent::Point(c));
            assert(s[1] == Extent::Point(p));
        },
        PathSegment::CubicTo(c, d, p) => {
            assert(s[0] == Extent::Point(c));
            assert(s[1] == Extent::Point(d));
            assert(s[2] == Extent::Point(p));
        },
        PathSegment::Close => {},
    }
}

/// Whether `e` is a point of a segment: its end, or one of its control points.
pub open spec fn has_point<T>(segment: PathSegment<T>, e: Extent<T>) -> bool {
    e matches Extent::Point(q) && match segment {
        PathSegment::MoveTo(end) => q == end,
        PathSegment::LineTo(end) => q == end,
        PathSegment::QuadTo(control, end) => q == control || q == end,
        PathSegment::CubicTo(first, second, end) => q == first || q == second || q == end,
        PathSegment::Close => false,
    }
}

/// Whether `e` belongs to what a command draws: it is a point of one of the segments of a path, or
/// the rectangle of an image.
pub open spec fn belongs_to<T>(command: DrawCommand<T>, e: Extent<T>) -> bool {
    match command {
        DrawCommand::Path(path) => exists|j: int|
            0 <= j < path.segments@.len() && has_point(#[trigger] path.segments@[j], e),
        DrawCommand::Image(image) => e == Extent::Rect(image.rect),
    }
}

/// The content of a page is every point of its paths, ends and control points alike, and every
/// rectangle of an image, and nothing else.
pub proof fn law_content_is_all_that_is_drawn<T>(commands: Seq<DrawCommand<T>>, e: Extent<T>)
    ensures
        page_extents(commands).contains(e) <==> exists|i: int|
            0 <= i < commands.len() && belongs_to(#[trigger] commands[i], e),
    decreases commands.len(),
{
    if commands.len() > 0 {
        let rest = commands.drop_last();
        let n = commands.len() - 1;
        let last = command_extents(commands.last());
        law_content_is_all_that_is_drawn(rest, e);
        lemma_in_either(page_extents(rest), last, e);
        assert(last.contains(e) <==> belongs_to(commands[n], e)) by {
            match commands[n] {
                DrawCommand::Path(path) => {
                    lemma_path_extents(path.segments@);
                },
                DrawCommand::Image(image) => {
                    assert(last[0] == Extent::Rect(image.rect));
                },
            }
        }
        if page_extents(rest).contains(e) {
            let i = choose|i: int| 0 <= i < rest.len() && belongs_to(#[trigger] rest[i], e);
            assert(belongs_to(commands[i], e));
        }
        if exists|i: int| 0 <= i < commands.len() && belongs_to(#[trigger] commands[i], e) {
            let i = choose|i: int| 0 <= i < commands.len() && belongs_to(#[trigger] commands[i], e);
            if i < n {
                assert(belongs_to(rest[i], e));
            }
        }
    }
}

/// Whether a step paints what a command at `index` asks for.
pub open spec fn asked_for<T>(command: DrawCommand<T>, index: int, step: PaintStep<T>) -> bool {
    command matches DrawCommand::Path(path) && match step {
        PaintStep::Sheet => false,
        PaintStep::Fill { command, fill } => command == index && path.fill == Some(fill),
        PaintStep::Stroke { command, stroke } => command == index && path.stroke == Some(stroke),
    }
}

/// Everything that a page asks for is painted, and nothing else: every fill and every stroke of its
/// paths, as the path has them.
pub proof fn law_all_is_painted<T>(commands: Seq<DrawCommand<T>>, step: PaintStep<T>)
    requires
        commands.len() <= usize::MAX,
    ensures
        paint_steps(commands).contains(step) <==> step is Sheet || exists|i: int|
            0 <= i < commands.len() && asked_for(#[trigger] commands[i], i, step),
    decreases commands.len(),
{
    if commands.len() == 0 {
        assert(paint_steps(commands)[0] is Sheet);
    } else {
        let rest = commands.drop_last();
        let n = commands.len() - 1;
        let last = command_steps(commands.last(), n as usize);
        law_all_is_painted(rest, step);
        lemma_in_either(paint_steps(rest), last, step);
        assert(last.contains(step) <==> asked_for(commands[n], n, step)) by {
            if let DrawCommand::Path(path) = commands[n] {
                let filled = match path.fill {
                    Some(fill) => seq![PaintStep::<T>::Fill { command: n as usize, fill }],
                    None => seq![],
                };
                let stroked = match path.stroke {
                    Some(stroke) => seq![PaintStep::Stroke { command: n as usize, stroke }],
                    None => seq![],
                };
                lemma_in_either(filled, stroked, step);
                if path.fill is Some {
                    assert(filled[0] is Fill);
                }
                if path.stroke is Some {
                    assert(stroked[0] is Stroke);
                }
            }
        }
        if exists|i: int| 0 <= i < rest.len() && asked_for(#[trigger] rest[i], i, step) {
            let i = choose|i: int| 0 <= i < rest.len() && asked_for(#[trigger] rest[i], i, step);
            assert(asked_for(commands[i], i, step));
        }
        if exists|i: int| 0 <= i < commands.len() && asked_for(#[trigger] commands[i], i, step) {
            let i = choose|i: int|
                0 <= i < commands.len() && asked_for(#[trigger] commands[i], i, step);
            if i < n {
                assert(asked_for(rest[i], i, step));
            }
        }
    }
}

/// A path is filled before it is stroked, and both at most once: where two steps paint the same
/// path, the first fills it and the second strokes it.
pub proof fn law_fill_lies_under_the_stroke<T>(commands: Seq<DrawCommand<T>>, k: int, l: int)
    requires
        commands.len() <= usize::MAX,
        0 < k < l < paint_steps(commands).len(),
        step_command(paint_steps(commands)[k]) == step_command(paint_steps(commands)[l]),
    ensures
        paint_steps(commands)[k] is Fill,
        paint_steps(commands)[l] is Stroke,
    decreases commands.len(),
{
    if commands.len() > 0 {
        let rest = commands.drop_last();
        let (ps, rs) = (paint_steps(commands), paint_steps(rest));
        let n = (commands.len() - 1) as usize;
        let last = command_steps(commands.last(), n);
        law_paint_order(rest);
        if l < rs.len() {
            assert(ps[k] == rs[k] && ps[l] == rs[l]);
            law_fill_lies_under_the_stroke(rest, k, l);
        } else {
            assert(ps[l] == last[l - rs.len()]);
            if k < rs.len() {
                assert(ps[k] == rs[k]);
                assert(step_command(rs[k]) < rest.len());
                assert(step_command(last[l - rs.len()]) == n);
            } else {
                assert(ps[k] == last[k - rs.len()]);
            }
        }
    }
}

/// The images that are drawn are those that are at least one pixel wide and high.
pub proof fn law_images_with_pixels_are_drawn<T>(commands: Seq<DrawCommand<T>>, i: int)
    requires
        commands.len() <= usize::MAX,
        0 <= i < commands.len(),
    ensures
        drawable_indices(commands).contains(i as usize) <==> (commands[i] matches DrawCommand::Image(
            image,
        ) && image.px_width >= 1 && image.px_height >= 1),
{
    law_drawable_images(commands);
    let ds = drawable_indices(commands);
    if ds.contains(i as usize) {
        let k = choose|k: int| 0 <= k < ds.len() && ds[k] == i as usize;
        assert(is_drawable(commands[ds[k] as int]));
    }
}

} // verus!
