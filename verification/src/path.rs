//! Paths: how their segments are handed to a path builder, cut into polylines, and dashed.
use crate::page::PathSegment;
use vstd::prelude::*;

verus! {

// ---------------------------------------------------------------------------
// Building.

/// A call of a path builder, which takes one subpath at a time: it is begun, extended, and ended.
#[derive(Clone, Copy, Debug)]
pub enum BuildStep<T> {
    Begin([T; 2]),
    Line([T; 2]),
    Quad([T; 2], [T; 2]),
    Cubic([T; 2], [T; 2], [T; 2]),
    /// The subpath ends; `close` says whether a line leads back to its start.
    End { close: bool },
}

/// The steps that build `segments`, where `open` says whether a subpath has been begun. A segment
/// that follows no move, or follows a close, belongs to no subpath and is left out.
pub open spec fn build_steps<T>(segments: Seq<PathSegment<T>>, open: bool) -> Seq<BuildStep<T>>
    decreases segments.len(),
{
    if segments.len() == 0 {
        if open {
            seq![BuildStep::End { close: false }]
        } else {
            seq![]
        }
    } else {
        let rest = segments.drop_first();
        match segments[0] {
            PathSegment::MoveTo(p) => {
                let begin = seq![BuildStep::Begin(p)] + build_steps(rest, true);
                if open {
                    seq![BuildStep::End { close: false }] + begin
                } else {
                    begin
                }
            },
            PathSegment::Close => if open {
                seq![BuildStep::End { close: true }] + build_steps(rest, false)
            } else {
                build_steps(rest, false)
            },
            drawn => if open {
                seq![extension(drawn)] + build_steps(rest, true)
            } else {
                build_steps(rest, false)
            },
        }
    }
}

/// The step that extends a subpath by a line or a curve.
pub open spec fn extension<T>(segment: PathSegment<T>) -> BuildStep<T> {
    match segment {
        PathSegment::LineTo(p) => BuildStep::Line(p),
        PathSegment::QuadTo(c, p) => BuildStep::Quad(c, p),
        PathSegment::CubicTo(c1, c2, p) => BuildStep::Cubic(c1, c2, p),
        PathSegment::MoveTo(p) => BuildStep::Begin(p),
        PathSegment::Close => BuildStep::End { close: true },
    }
}

/// The steps that build the path `segments`.
pub fn build_path<T: Copy>(segments: &[PathSegment<T>]) -> (r: Vec<BuildStep<T>>)
    ensures
        r@ == build_steps(segments@, false),
{
    let mut out: Vec<BuildStep<T>> = Vec::new();
    let mut open = false;
    assert(segments@.skip(0) =~= segments@);
    for i in 0..segments.len()
        invariant
            out@ + build_steps(segments@.skip(i as int), open) =~= build_steps(segments@, false),
    {
        let ghost rest = segments@.skip(i as int);
        let ghost before = out@;
        let ghost was_open = open;
        assert(rest.drop_first() =~= segments@.skip(i + 1));
        match segments[i] {
            PathSegment::MoveTo(p) => {
                if open {
                    out.push(BuildStep::End { close: false });
                }
                out.push(BuildStep::Begin(p));
                open = true;
            },
            PathSegment::LineTo(p) => {
                if open {
                    out.push(BuildStep::Line(p));
                }
            },
            PathSegment::QuadTo(c, p) => {
                if open {
                    out.push(BuildStep::Quad(c, p));
                }
            },
            PathSegment::CubicTo(c1, c2, p) => {
                if open {
                    out.push(BuildStep::Cubic(c1, c2, p));
                }
            },
            PathSegment::Close => {
                if open {
                    out.push(BuildStep::End { close: true });
                    open = false;
                }
            },
        }
        assert(out@ + build_steps(segments@.skip(i + 1), open) =~= before + build_steps(
            rest,
            was_open,
        ));
    }
    if open {
        out.push(BuildStep::End { close: false });
    }
    out
}

/// Whether the steps keep to the builder's protocol: a subpath is begun only where none is open,
/// extended and ended only where one is, and none is left open. `open` says whether a subpath is
/// open before the first step.
pub open spec fn keeps_protocol<T>(steps: Seq<BuildStep<T>>, open: bool) -> bool
    decreases steps.len(),
{
    if steps.len() == 0 {
        !open
    } else {
        let rest = steps.drop_first();
        match steps[0] {
            BuildStep::Begin(_) => !open && keeps_protocol(rest, true),
            BuildStep::End { .. } => open && keeps_protocol(rest, false),
            _ => open && keeps_protocol(rest, true),
        }
    }
}

/// Whatever the segments are, building them keeps to the builder's protocol.
pub proof fn law_building_keeps_protocol<T>(segments: Seq<PathSegment<T>>, open: bool)
    ensures
        keeps_protocol(build_steps(segments, open), open),
    decreases segments.len(),
{
    reveal_with_fuel(keeps_protocol, 2);
    let steps = build_steps(segments, open);
    if segments.len() == 0 {
        if open {
            assert(steps.drop_first() =~= Seq::<BuildStep<T>>::empty());
        }
    } else {
        let rest = segments.drop_first();
        law_building_keeps_protocol(rest, true);
        law_building_keeps_protocol(rest, false);
        match segments[0] {
            PathSegment::MoveTo(p) => {
                let begin = seq![BuildStep::Begin(p)] + build_steps(rest, true);
                assert(begin.drop_first() =~= build_steps(rest, true));
                assert(keeps_protocol(begin, false));
                if open {
                    assert(steps.drop_first() =~= begin);
                }
            },
            PathSegment::Close => {
                if open {
                    assert(steps.drop_first() =~= build_steps(rest, false));
                }
            },
            _ => {
                if open {
                    assert(steps.drop_first() =~= build_steps(rest, true));
                }
            },
        }
    }
}

// ---------------------------------------------------------------------------
// Polylines.

/// A piece of a polyline: a point, or a curve that is yet to be cut into several points.
#[derive(Clone, Copy, Debug)]
pub enum Piece<T> {
    Point([T; 2]),
    /// The curve from `from` to `to`, which the polyline has reached at `from`. A quadratic curve
    /// has its one control point twice.
    Curve { from: [T; 2], controls: [[T; 2]; 2], to: [T; 2], quad: bool },
}

/// Cutting a path into polylines: those that are done, the one under way, the start of its subpath,
/// and the point reached.
pub struct Cut<T> {
    pub done: Seq<Seq<Piece<T>>>,
    pub current: Seq<Piece<T>>,
    pub start: [T; 2],
    pub at: [T; 2],
}

/// Whether a polyline has at least two points. A curve stands for more than one.
pub open spec fn has_length<T>(pieces: Seq<Piece<T>>) -> bool {
    pieces.len() > 1 || (pieces.len() == 1 && pieces[0] is Curve)
}

/// The polylines with `current` among them, if it has a length.
pub open spec fn with_current<T>(done: Seq<Seq<Piece<T>>>, current: Seq<Piece<T>>) -> Seq<
    Seq<Piece<T>>,
> {
    if has_length(current) {
        done.push(current)
    } else {
        done
    }
}

/// One segment more.
pub open spec fn cut_step<T>(s: Cut<T>, segment: PathSegment<T>) -> Cut<T> {
    match segment {
        PathSegment::MoveTo(p) => Cut {
            done: with_current(s.done, s.current),
            current: seq![Piece::Point(p)],
            start: p,
            at: p,
        },
        PathSegment::LineTo(p) => Cut { current: s.current.push(Piece::Point(p)), at: p, ..s },
        PathSegment::QuadTo(c, p) => Cut {
            current: s.current.push(
                Piece::Curve { from: s.at, controls: [c, c], to: p, quad: true },
            ),
            at: p,
            ..s
        },
        PathSegment::CubicTo(c1, c2, p) => Cut {
            current: s.current.push(
                Piece::Curve { from: s.at, controls: [c1, c2], to: p, quad: false },
            ),
            at: p,
            ..s
        },
        PathSegment::Close => Cut {
            current: if s.current.len() > 0 {
                s.current.push(Piece::Point(s.start))
            } else {
                s.current
            },
            at: s.start,
            ..s
        },
    }
}

/// The path `segments` being cut, from a start at `origin`.
pub open spec fn cut<T>(segments: Seq<PathSegment<T>>, origin: [T; 2]) -> Cut<T>
    decreases segments.len(),
{
    if segments.len() == 0 {
        Cut { done: seq![], current: seq![], start: origin, at: origin }
    } else {
        cut_step(cut(segments.drop_last(), origin), segments.last())
    }
}

/// The polylines of a path, one for each subpath that has a length.
pub open spec fn polylines<T>(segments: Seq<PathSegment<T>>, origin: [T; 2]) -> Seq<Seq<Piece<T>>> {
    let s = cut(segments, origin);
    with_current(s.done, s.current)
}

/// The contents of a list of polylines.
pub open spec fn contents<T>(polys: Seq<Vec<Piece<T>>>) -> Seq<Seq<Piece<T>>> {
    Seq::new(polys.len(), |i: int| polys[i]@)
}

fn finish_polyline<T>(current: Vec<Piece<T>>, polys: &mut Vec<Vec<Piece<T>>>)
    ensures
        contents(final(polys)@) == with_current(contents(old(polys)@), current@),
{
    let ghost c = current@;
    let keep = current.len() > 1 || (current.len() == 1 && match &current[0] {
        Piece::Curve { .. } => true,
        Piece::Point(_) => false,
    });
    if keep {
        polys.push(current);
        assert(contents(polys@) =~= contents(old(polys)@).push(c));
    }
}

/// Cuts a path into polylines, one for each subpath that has a length. What comes before the first
/// move starts at `origin`.
pub fn flatten<T: Copy>(segments: &[PathSegment<T>], origin: [T; 2]) -> (r: Vec<Vec<Piece<T>>>)
    ensures
        contents(r@) == polylines(segments@, origin),
{
    let mut polys: Vec<Vec<Piece<T>>> = Vec::new();
    let mut current: Vec<Piece<T>> = Vec::new();
    let mut start = origin;
    let mut at = origin;
    assert(contents(polys@) =~= cut(segments@.take(0), origin).done);
    for i in 0..segments.len()
        invariant
            ({
                let s = cut(segments@.take(i as int), origin);
                &&& s.done == contents(polys@)
                &&& s.current == current@
                &&& s.start == start
                &&& s.at == at
            }),
    {
        assert(segments@.take(i + 1).drop_last() =~= segments@.take(i as int));
        match segments[i] {
            PathSegment::MoveTo(p) => {
                finish_polyline(current, &mut polys);
                current = Vec::new();
                current.push(Piece::Point(p));
                assert(current@ =~= seq![Piece::Point(p)]);
                start = p;
                at = p;
            },
            PathSegment::LineTo(p) => {
                current.push(Piece::Point(p));
                at = p;
            },
            PathSegment::QuadTo(c, p) => {
                current.push(Piece::Curve { from: at, controls: [c, c], to: p, quad: true });
                at = p;
            },
            PathSegment::CubicTo(c1, c2, p) => {
                current.push(Piece::Curve { from: at, controls: [c1, c2], to: p, quad: false });
                at = p;
            },
            PathSegment::Close => {
                if current.len() > 0 {
                    current.push(Piece::Point(start));
                }
                at = start;
            },
        }
    }
    assert(segments@.take(segments@.len() as int) =~= segments@);
    finish_polyline(current, &mut polys);
    polys
}

/// Every polyline of a path has at least two points.
pub proof fn law_polylines_have_length<T>(segments: Seq<PathSegment<T>>, origin: [T; 2])
    ensures
        forall|i: int|
            0 <= i < polylines(segments, origin).len() ==> has_length(
                #[trigger] polylines(segments, origin)[i],
            ),
{
    lemma_done_have_length(segments, origin);
}

proof fn lemma_done_have_length<T>(segments: Seq<PathSegment<T>>, origin: [T; 2])
    ensures
        forall|i: int|
            0 <= i < cut(segments, origin).done.len() ==> has_length(
                #[trigger] cut(segments, origin).done[i],
            ),
    decreases segments.len(),
{
    if segments.len() > 0 {
        lemma_done_have_length(segments.drop_last(), origin);
        let before = cut(segments.drop_last(), origin);
        let after = cut(segments, origin);
        assert forall|i: int| 0 <= i < after.done.len() implies has_length(
            #[trigger] after.done[i],
        ) by {
            if i < before.done.len() {
                assert(after.done[i] == before.done[i]);
            }
        }
    }
}

// ---------------------------------------------------------------------------
// Dashes.

/// A dash pattern with an even number of entries: one with an odd number is gone through twice.
pub open spec fn evened<T>(pattern: Seq<T>) -> Seq<T> {
    if pattern.len() % 2 == 1 {
        pattern + pattern
    } else {
        pattern
    }
}

/// A dash pattern with an even number of entries: one with an odd number is gone through twice.
pub fn even_pattern<T: Copy>(pattern: &[T]) -> (r: Vec<T>)
    ensures
        r@ == evened(pattern@),
        r@.len() % 2 == 0,
{
    let mut out: Vec<T> = Vec::new();
    for i in 0..pattern.len()
        invariant
            out@ == pattern@.take(i as int),
    {
        out.push(pattern[i]);
        assert(out@ =~= pattern@.take(i + 1));
    }
    assert(out@ =~= pattern@);
    if pattern.len() % 2 == 1 {
        for i in 0..pattern.len()
            invariant
                out@ == pattern@ + pattern@.take(i as int),
        {
            out.push(pattern[i]);
            assert(out@ =~= pattern@ + pattern@.take(i + 1));
        }
        assert(out@ =~= pattern@ + pattern@);
    }
    out
}

/// The place in a dash pattern: the entry that is being used up, and whether the pen is down. The
/// entries alternate between a dash and a gap, a dash first.
pub struct Dash {
    len: usize,
    index: usize,
    pen_down: bool,
}

impl Dash {
    /// The pattern has an even number of entries, and at least one; the pen is down only in a dash.
    pub closed spec fn wf(self) -> bool {
        &&& self.len > 0
        &&& self.len % 2 == 0
        &&& self.index < self.len
        &&& self.pen_down ==> self.index % 2 == 0
    }

    /// The number of entries of the pattern.
    pub closed spec fn entries(self) -> nat {
        self.len as nat
    }

    /// The entry that is being used up.
    pub closed spec fn at(self) -> nat {
        self.index as nat
    }

    /// Whether the pen is down.
    pub closed spec fn down(self) -> bool {
        self.pen_down
    }

    /// Whether the present entry is a dash.
    pub open spec fn dashing(self) -> bool {
        self.at() % 2 == 0
    }

    /// The first entry of a pattern of `len` entries, the pen up.
    pub fn start(len: usize) -> (r: Self)
        requires
            len > 0,
            len % 2 == 0,
        ensures
            r.wf(),
            r.entries() == len,
            r.at() == 0,
            !r.down(),
    {
        Dash { len, index: 0, pen_down: false }
    }

    /// The index of the present entry.
    pub fn entry(&self) -> (r: usize)
        requires
            self.wf(),
        ensures
            r == self.at(),
            r < self.entries(),
    {
        self.index
    }

    /// Goes on to the next entry, the first after the last, and lifts the pen. A gap follows a dash
    /// and a dash follows a gap.
    pub fn advance(&mut self)
        requires
            old(self).wf(),
        ensures
            final(self).wf(),
            final(self).entries() == old(self).entries(),
            final(self).at() == if old(self).at() + 1 == old(self).entries() {
                0
            } else {
                old(self).at() + 1
            },
            final(self).dashing() == !old(self).dashing(),
            !final(self).down(),
    {
        if self.index + 1 == self.len {
            self.index = 0;
        } else {
            self.index += 1;
        }
        self.pen_down = false;
    }

    /// Draws from `from` to `to` where the present entry is a dash: a line, and before it a move to
    /// its start where the pen is still up.
    pub fn draw<T>(&mut self, from: [T; 2], to: [T; 2], out: &mut Vec<PathSegment<T>>)
        requires
            old(self).wf(),
        ensures
            final(self).wf(),
            final(self).entries() == old(self).entries(),
            final(self).at() == old(self).at(),
            final(self).down() == (old(self).down() || old(self).dashing()),
            final(out)@ == old(out)@ + dash_drawn(*old(self), from, to),
    {
        if self.index % 2 == 0 {
            if !self.pen_down {
                out.push(PathSegment::MoveTo(from));
                self.pen_down = true;
            }
            out.push(PathSegment::LineTo(to));
        }
        assert(out@ =~= old(out)@ + dash_drawn(*old(self), from, to));
    }
}

/// What is drawn from `from` to `to` at a place in a dash pattern.
pub open spec fn dash_drawn<T>(d: Dash, from: [T; 2], to: [T; 2]) -> Seq<PathSegment<T>> {
    if !d.dashing() {
        seq![]
    } else if d.down() {
        seq![PathSegment::LineTo(to)]
    } else {
        seq![PathSegment::MoveTo(from), PathSegment::LineTo(to)]
    }
}

/// Whether `out` is made of moves and lines, a move first, and holds something if the pen is down.
pub open spec fn well_begun<T>(out: Seq<PathSegment<T>>, down: bool) -> bool {
    &&& forall|i: int|
        0 <= i < out.len() ==> (#[trigger] out[i] is MoveTo || out[i] is LineTo)
    &&& out.len() > 0 ==> out[0] is MoveTo
    &&& down ==> out.len() > 0
}

/// Dashing draws moves and lines only, and never a line before the first move.
pub proof fn law_dashes_begin_with_a_move<T>(
    d: Dash,
    out: Seq<PathSegment<T>>,
    from: [T; 2],
    to: [T; 2],
)
    requires
        d.wf(),
        well_begun(out, d.down()),
    ensures
        well_begun(out + dash_drawn(d, from, to), d.down() || d.dashing()),
        well_begun(out, false),
{
}

// ---------------------------------------------------------------------------
// What is built and cut is the path.

/// Whether a segment draws a line or a curve.
pub open spec fn draws<T>(segment: PathSegment<T>) -> bool {
    segment is LineTo || segment is QuadTo || segment is CubicTo
}

/// Whether the segments are a subpath that is not closed: a move, and then lines and curves.
pub open spec fn is_open_subpath<T>(segments: Seq<PathSegment<T>>) -> bool {
    &&& segments.len() > 0
    &&& segments[0] is MoveTo
    &&& forall|i: int| 0 < i < segments.len() ==> draws(#[trigger] segments[i])
}

/// Whether no segment begins a subpath.
pub open spec fn has_no_move<T>(segments: Seq<PathSegment<T>>) -> bool {
    forall|i: int| 0 <= i < segments.len() ==> !(#[trigger] segments[i] is MoveTo)
}

/// Whether a step of a builder does what a segment of the document asks for: it has the same points,
/// the control points in the same order.
pub open spec fn carries<T>(step: BuildStep<T>, segment: PathSegment<T>) -> bool {
    match step {
        BuildStep::Begin(p) => segment == PathSegment::MoveTo(p),
        BuildStep::Line(p) => segment == PathSegment::LineTo(p),
        BuildStep::Quad(control, p) => segment == PathSegment::QuadTo(control, p),
        BuildStep::Cubic(leaving, arriving, p) => segment == PathSegment::CubicTo(
            leaving,
            arriving,
            p,
        ),
        BuildStep::End { .. } => false,
    }
}

proof fn lemma_drawn_steps<T>(drawn: Seq<PathSegment<T>>, rest: Seq<PathSegment<T>>)
    requires
        forall|i: int| 0 <= i < drawn.len() ==> draws(#[trigger] drawn[i]),
    ensures
        build_steps(drawn + rest, true).len() == drawn.len() + build_steps(rest, true).len(),
        forall|i: int|
            0 <= i < drawn.len() ==> carries(
                #[trigger] build_steps(drawn + rest, true)[i],
                drawn[i],
            ),
        build_steps(drawn + rest, true).skip(drawn.len() as int) == build_steps(rest, true),
    decreases drawn.len(),
{
    let steps = build_steps(drawn + rest, true);
    if drawn.len() == 0 {
        assert(drawn + rest =~= rest);
        assert(steps.skip(0) =~= steps);
    } else {
        let tail = drawn.drop_first();
        assert forall|i: int| 0 <= i < tail.len() implies draws(#[trigger] tail[i]) by {
            assert(draws(drawn[i + 1]));
        }
        lemma_drawn_steps(tail, rest);
        assert(draws(drawn[0]));
        assert((drawn + rest).drop_first() =~= tail + rest);
        let after = build_steps(tail + rest, true);
        assert(steps.drop_first() =~= after);
        assert(steps =~= seq![steps[0]] + after);
        assert forall|i: int| 0 <= i < drawn.len() implies carries(#[trigger] steps[i], drawn[i]) by {
            if i > 0 {
                assert(steps[i] == after[i - 1]);
                assert(carries(after[i - 1], tail[i - 1]));
            }
        }
        assert(steps.skip(drawn.len() as int) =~= after.skip(tail.len() as int));
    }
}

/// An open subpath is built segment by segment: each step has the points of its segment, each in its
/// place, and a last step ends the subpath without closing it.
pub proof fn law_subpath_is_built_point_for_point<T>(segments: Seq<PathSegment<T>>)
    requires
        is_open_subpath(segments),
    ensures
        build_steps(segments, false).len() == segments.len() + 1,
        forall|i: int|
            0 <= i < segments.len() ==> carries(
                #[trigger] build_steps(segments, false)[i],
                segments[i],
            ),
        build_steps(segments, false)[segments.len() as int] == (BuildStep::<T>::End {
            close: false,
        }),
{
    let drawn = segments.drop_first();
    let none = Seq::<PathSegment<T>>::empty();
    assert forall|i: int| 0 <= i < drawn.len() implies draws(#[trigger] drawn[i]) by {
        assert(draws(segments[i + 1]));
    }
    lemma_drawn_steps(drawn, none);
    assert(drawn + none =~= drawn);
    let steps = build_steps(segments, false);
    let after = build_steps(drawn, true);
    let end = build_steps(none, true);
    assert(end =~= seq![BuildStep::<T>::End { close: false }]);
    assert(after[drawn.len() as int] == after.skip(drawn.len() as int)[0]);
    assert(steps =~= seq![steps[0]] + after);
    assert forall|i: int| 0 <= i < segments.len() implies carries(#[trigger] steps[i], segments[i]) by {
        if i > 0 {
            assert(steps[i] == after[i - 1]);
            assert(carries(after[i - 1], drawn[i - 1]));
        }
    }
}

/// A closed subpath is built as an open one, and then closed. What follows it before the next move
/// belongs to no subpath and is left out.
pub proof fn law_closed_subpath_is_built_point_for_point<T>(
    segments: Seq<PathSegment<T>>,
    strays: Seq<PathSegment<T>>,
)
    requires
        is_open_subpath(segments),
        has_no_move(strays),
    ensures
        ({
            let steps = build_steps(segments.push(PathSegment::Close) + strays, false);
            &&& steps.len() == segments.len() + 1
            &&& forall|i: int|
                0 <= i < segments.len() ==> carries(#[trigger] steps[i], segments[i])
            &&& steps[segments.len() as int] == (BuildStep::<T>::End { close: true })
        }),
{
    let drawn = segments.drop_first();
    let rest = seq![PathSegment::<T>::Close] + strays;
    assert forall|i: int| 0 <= i < drawn.len() implies draws(#[trigger] drawn[i]) by {
        assert(draws(segments[i + 1]));
    }
    lemma_drawn_steps(drawn, rest);
    let whole = segments.push(PathSegment::Close) + strays;
    assert(whole.drop_first() =~= drawn + rest);
    assert(rest.drop_first() =~= strays);
    law_strays_are_left_out(strays, seq![]);
    assert(strays + Seq::<PathSegment<T>>::empty() =~= strays);
    assert(build_steps(rest, true) =~= seq![BuildStep::<T>::End { close: true }]);
    let steps = build_steps(whole, false);
    let after = build_steps(drawn + rest, true);
    assert(after[drawn.len() as int] == after.skip(drawn.len() as int)[0]);
    assert(steps =~= seq![steps[0]] + after);
    assert forall|i: int| 0 <= i < segments.len() implies carries(#[trigger] steps[i], segments[i]) by {
        if i > 0 {
            assert(steps[i] == after[i - 1]);
            assert(carries(after[i - 1], drawn[i - 1]));
        }
    }
}

/// Segments before the first move belong to no subpath and are left out.
pub proof fn law_strays_are_left_out<T>(strays: Seq<PathSegment<T>>, path: Seq<PathSegment<T>>)
    requires
        has_no_move(strays),
    ensures
        build_steps(strays + path, false) == build_steps(path, false),
    decreases strays.len(),
{
    if strays.len() == 0 {
        assert(strays + path =~= path);
    } else {
        let tail = strays.drop_first();
        assert(!(strays[0] is MoveTo));
        assert forall|i: int| 0 <= i < tail.len() implies !(#[trigger] tail[i] is MoveTo) by {
            assert(!(strays[i + 1] is MoveTo));
        }
        law_strays_are_left_out(tail, path);
        assert((strays + path).drop_first() =~= tail + path);
    }
}

proof fn lemma_built_apart<T>(a: Seq<PathSegment<T>>, b: Seq<PathSegment<T>>, open: bool)
    requires
        b.len() > 0,
        b[0] is MoveTo,
    ensures
        build_steps(a + b, open) == build_steps(a, open) + build_steps(b, false),
    decreases a.len(),
{
    if a.len() == 0 {
        assert(a + b =~= b);
        assert(build_steps(b, open) =~= build_steps(a, open) + build_steps(b, false));
    } else {
        let tail = a.drop_first();
        assert((a + b).drop_first() =~= tail + b);
        assert((a + b)[0] == a[0]);
        lemma_built_apart(tail, b, true);
        lemma_built_apart(tail, b, false);
        assert(build_steps(a + b, open) =~= build_steps(a, open) + build_steps(b, false));
    }
}

/// Subpaths are built one after the other, and none changes how another is built.
pub proof fn law_subpaths_are_built_apart<T>(a: Seq<PathSegment<T>>, b: Seq<PathSegment<T>>)
    requires
        b.len() > 0,
        b[0] is MoveTo,
    ensures
        build_steps(a + b, false) == build_steps(a, false) + build_steps(b, false),
{
    lemma_built_apart(a, b, false);
}

/// The point that a segment ends at, where it has one.
pub open spec fn end_of<T>(segment: PathSegment<T>) -> [T; 2]
    recommends
        !(segment is Close),
{
    match segment {
        PathSegment::MoveTo(p) => p,
        PathSegment::LineTo(p) => p,
        PathSegment::QuadTo(_, p) => p,
        PathSegment::CubicTo(_, _, p) => p,
        PathSegment::Close => arbitrary(),
    }
}

/// Whether a piece of a polyline is what a segment that begins at `from` draws.
pub open spec fn traces<T>(piece: Piece<T>, segment: PathSegment<T>, from: [T; 2]) -> bool {
    match segment {
        PathSegment::MoveTo(p) => piece == Piece::Point(p),
        PathSegment::LineTo(p) => piece == Piece::Point(p),
        PathSegment::QuadTo(c, p) => piece is Curve && piece->from == from && piece->to == p
            && piece->controls@[0] == c && piece->controls@[1] == c && piece->quad,
        PathSegment::CubicTo(c, d, p) => piece is Curve && piece->from == from && piece->to == p
            && piece->controls@[0] == c && piece->controls@[1] == d && !piece->quad,
        PathSegment::Close => false,
    }
}

/// A subpath is cut segment by segment: each piece has the points of its segment, a curve begins
/// where the segment before it ends, and a closed subpath comes back to where it began.
pub proof fn law_polyline_follows_the_subpath<T>(segments: Seq<PathSegment<T>>, origin: [T; 2])
    requires
        is_open_subpath(segments),
        segments.len() > 1,
    ensures
        polylines(segments, origin).len() == 1,
        polylines(segments, origin)[0].len() == segments.len(),
        forall|i: int|
            0 <= i < segments.len() ==> traces(
                #[trigger] polylines(segments, origin)[0][i],
                segments[i],
                if i > 0 {
                    end_of(segments[i - 1])
                } else {
                    origin
                },
            ),
        polylines(segments.push(PathSegment::Close), origin).len() == 1,
        polylines(segments.push(PathSegment::Close), origin)[0] == polylines(
            segments,
            origin,
        )[0].push(Piece::Point(end_of(segments[0]))),
{
    lemma_cut_follows(segments, origin);
    let s = cut(segments, origin);
    let closed = segments.push(PathSegment::Close);
    assert(closed.drop_last() =~= segments);
    assert(polylines(segments, origin) =~= seq![s.current]);
    assert(polylines(closed, origin) =~= seq![s.current.push(Piece::Point(s.start))]);
}

proof fn lemma_cut_follows<T>(segments: Seq<PathSegment<T>>, origin: [T; 2])
    requires
        is_open_subpath(segments),
    ensures
        ({
            let s = cut(segments, origin);
            &&& s.done.len() == 0
            &&& s.current.len() == segments.len()
            &&& s.start == end_of(segments[0])
            &&& s.at == end_of(segments.last())
            &&& forall|i: int|
                0 <= i < segments.len() ==> traces(
                    #[trigger] s.current[i],
                    segments[i],
                    if i > 0 {
                        end_of(segments[i - 1])
                    } else {
                        origin
                    },
                )
        }),
    decreases segments.len(),
{
    let before = segments.drop_last();
    if before.len() == 0 {
        assert(before =~= Seq::<PathSegment<T>>::empty());
        let none = cut(before, origin);
        assert(none.done.len() == 0 && none.current.len() == 0);
    } else {
        assert forall|i: int| 0 < i < before.len() implies draws(#[trigger] before[i]) by {
            assert(draws(segments[i]));
        }
        lemma_cut_follows(before, origin);
        let n = before.len() as int;
        assert(draws(segments[n]));
        let (b, s) = (cut(before, origin), cut(segments, origin));
        assert forall|i: int| 0 <= i < segments.len() implies traces(
            #[trigger] s.current[i],
            segments[i],
            if i > 0 {
                end_of(segments[i - 1])
            } else {
                origin
            },
        ) by {
            if i < n {
                assert(s.current[i] == b.current[i]);
                assert(before[i] == segments[i]);
                assert(traces(
                    b.current[i],
                    before[i],
                    if i > 0 {
                        end_of(before[i - 1])
                    } else {
                        origin
                    },
                ));
            }
        }
    }
}

proof fn lemma_cut_apart<T>(a: Seq<PathSegment<T>>, b: Seq<PathSegment<T>>, origin: [T; 2])
    requires
        b.len() > 0,
        b[0] is MoveTo,
    ensures
        cut(a + b, origin).done == polylines(a, origin) + cut(b, origin).done,
        cut(a + b, origin).current == cut(b, origin).current,
        cut(a + b, origin).start == cut(b, origin).start,
        cut(a + b, origin).at == cut(b, origin).at,
    decreases b.len(),
{
    let head = b.drop_last();
    assert((a + b).drop_last() =~= a + head);
    assert((a + b).last() == b.last());
    if head.len() == 0 {
        assert(a + head =~= a);
        assert(head =~= Seq::<PathSegment<T>>::empty());
        let none = cut(head, origin);
        assert(none.done =~= Seq::<Seq<Piece<T>>>::empty());
        assert(cut(b, origin).done =~= Seq::<Seq<Piece<T>>>::empty());
        assert(cut(a + b, origin).done =~= polylines(a, origin) + cut(b, origin).done);
    } else {
        assert(head[0] == b[0]);
        lemma_cut_apart(a, head, origin);
        let (s, t) = (cut(a + head, origin), cut(head, origin));
        assert(with_current(s.done, s.current) =~= polylines(a, origin) + with_current(
            t.done,
            t.current,
        ));
        assert(cut(a + b, origin).done =~= polylines(a, origin) + cut(b, origin).done);
    }
}

/// Subpaths are cut one after the other, and none changes how another is cut.
pub proof fn law_subpaths_are_cut_apart<T>(
    a: Seq<PathSegment<T>>,
    b: Seq<PathSegment<T>>,
    origin: [T; 2],
)
    requires
        b.len() > 0,
        b[0] is MoveTo,
    ensures
        polylines(a + b, origin) == polylines(a, origin) + polylines(b, origin),
{
    lemma_cut_apart(a, b, origin);
    assert(polylines(a + b, origin) =~= polylines(a, origin) + polylines(b, origin));
}

/// A dash pattern repeats the entries as they are written: a dash becomes a gap only by going through
/// an odd number of entries twice.
pub proof fn law_pattern_repeats<T>(pattern: Seq<T>, i: int)
    requires
        0 <= i < evened(pattern).len(),
    ensures
        evened(pattern).len() % 2 == 0,
        evened(pattern).len() == pattern.len() || (pattern.len() % 2 == 1 && evened(pattern).len()
            == 2 * pattern.len()),
        evened(pattern)[i] == pattern[i % (pattern.len() as int)],
{
    let n = pattern.len() as int;
    if i < n {
        vstd::arithmetic::div_mod::lemma_small_mod(i as nat, n as nat);
    } else {
        vstd::arithmetic::div_mod::lemma_fundamental_div_mod_converse(i, n, 1, i - n);
    }
}

/// A dash is a line from where it begins to where it ends, and a gap is nothing: what is drawn ends
/// at `to`, and begins at `from` unless the pen is there already.
pub proof fn law_dash_is_drawn_where_it_lies<T>(d: Dash, from: [T; 2], to: [T; 2])
    ensures
        d.at() % 2 == 1 ==> dash_drawn(d, from, to).len() == 0,
        d.at() % 2 == 0 ==> dash_drawn(d, from, to).last() == PathSegment::LineTo(to),
        d.at() % 2 == 0 && d.down() ==> dash_drawn(d, from, to).len() == 1,
        d.at() % 2 == 0 && !d.down() ==> dash_drawn(d, from, to).len() == 2 && dash_drawn(
            d,
            from,
            to,
        )[0] == PathSegment::MoveTo(from),
{
}

/// A move by itself is no polyline, and neither is an empty path.
pub proof fn law_lone_move_is_no_polyline<T>(p: [T; 2], origin: [T; 2])
    ensures
        polylines(seq![PathSegment::MoveTo(p)], origin).len() == 0,
        polylines(Seq::<PathSegment<T>>::empty(), origin).len() == 0,
{
    reveal_with_fuel(cut, 2);
    let one = seq![PathSegment::MoveTo(p)];
    assert(one.drop_last() =~= Seq::<PathSegment<T>>::empty());
}

/// After a subpath is closed, what is drawn goes on from where it began.
pub proof fn law_drawing_goes_on_from_the_start<T>(
    segments: Seq<PathSegment<T>>,
    segment: PathSegment<T>,
    origin: [T; 2],
)
    requires
        is_open_subpath(segments),
        draws(segment),
    ensures
        ({
            let polys = polylines(segments.push(PathSegment::Close).push(segment), origin);
            &&& polys.len() == 1
            &&& polys[0].len() == segments.len() + 2
            &&& polys[0][segments.len() as int] == Piece::Point(end_of(segments[0]))
            &&& traces(polys[0].last(), segment, end_of(segments[0]))
        }),
{
    lemma_cut_follows(segments, origin);
    let closed = segments.push(PathSegment::Close);
    let whole = closed.push(segment);
    assert(closed.drop_last() =~= segments);
    assert(whole.drop_last() =~= closed);
    assert(closed.last() is Close);
    assert(whole.last() == segment);
    let c = cut(closed, origin);
    assert(c == cut_step(cut(segments, origin), PathSegment::Close));
    let s = cut(whole, origin);
    assert(s == cut_step(c, segment));
    assert(polylines(whole, origin) =~= seq![s.current]);
}

/// Segments before the first move are drawn from the origin on.
pub proof fn law_drawing_begins_at_the_origin<T>(segments: Seq<PathSegment<T>>, origin: [T; 2])
    requires
        segments.len() > 1,
        forall|i: int| 0 <= i < segments.len() ==> draws(#[trigger] segments[i]),
    ensures
        polylines(segments, origin).len() == 1,
        polylines(segments, origin)[0].len() == segments.len(),
        forall|i: int|
            0 <= i < segments.len() ==> traces(
                #[trigger] polylines(segments, origin)[0][i],
                segments[i],
                if i > 0 {
                    end_of(segments[i - 1])
                } else {
                    origin
                },
            ),
{
    lemma_cut_from_origin(segments, origin);
    assert(polylines(segments, origin) =~= seq![cut(segments, origin).current]);
}

proof fn lemma_cut_from_origin<T>(segments: Seq<PathSegment<T>>, origin: [T; 2])
    requires
        forall|i: int| 0 <= i < segments.len() ==> draws(#[trigger] segments[i]),
    ensures
        ({
            let s = cut(segments, origin);
            &&& s.done.len() == 0
            &&& s.current.len() == segments.len()
            &&& s.at == (if segments.len() > 0 {
                end_of(segments.last())
            } else {
                origin
            })
            &&& forall|i: int|
                0 <= i < segments.len() ==> traces(
                    #[trigger] s.current[i],
                    segments[i],
                    if i > 0 {
                        end_of(segments[i - 1])
                    } else {
                        origin
                    },
                )
        }),
    decreases segments.len(),
{
    if segments.len() > 0 {
        let before = segments.drop_last();
        assert forall|i: int| 0 <= i < before.len() implies draws(#[trigger] before[i]) by {
            assert(draws(segments[i]));
        }
        lemma_cut_from_origin(before, origin);
        let n = before.len() as int;
        assert(draws(segments[n]));
        let (b, s) = (cut(before, origin), cut(segments, origin));
        assert forall|i: int| 0 <= i < segments.len() implies traces(
            #[trigger] s.current[i],
            segments[i],
            if i > 0 {
                end_of(segments[i - 1])
            } else {
                origin
            },
        ) by {
            if i < n {
                assert(s.current[i] == b.current[i]);
                assert(before[i] == segments[i]);
                assert(traces(
                    b.current[i],
                    before[i],
                    if i > 0 {
                        end_of(before[i - 1])
                    } else {
                        origin
                    },
                ));
            }
        }
    }
}

} // verus!
