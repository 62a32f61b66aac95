//! Selecting text on a page.
use crate::keys::{Key, KeyCode};
use vstd::prelude::*;

verus! {

/// A character of a page and the rectangle `[x, y, width, height]` that it takes up.
#[derive(Clone, Copy, Debug)]
pub struct Glyph<T> {
    pub ch: char,
    pub rect: [T; 4],
}

/// Whether `c` is a control character.
pub open spec fn is_control(c: char) -> bool {
    c as u32 <= 0x1f || 0x7f <= c as u32 <= 0x9f
}

/// The glyphs that are no control characters.
pub open spec fn visible<T>(glyphs: Seq<Glyph<T>>) -> Seq<Glyph<T>>
    decreases glyphs.len(),
{
    if glyphs.len() == 0 {
        seq![]
    } else if is_control(glyphs.last().ch) {
        visible(glyphs.drop_last())
    } else {
        visible(glyphs.drop_last()).push(glyphs.last())
    }
}

/// A character as it is found in a document: which it is, where that is known, and the rectangle
/// that it takes up, if it has one.
#[derive(Clone, Copy, Debug)]
pub struct FoundChar<T> {
    pub ch: Option<char>,
    pub rect: Option<[T; 4]>,
}

/// The glyph of a character that is known and has a rectangle.
pub open spec fn glyph_of<T>(c: FoundChar<T>) -> Option<Glyph<T>> {
    match (c.ch, c.rect) {
        (Some(ch), Some(rect)) => Some(Glyph { ch, rect }),
        _ => None,
    }
}

/// The glyphs of the characters that are known and have a rectangle, in order.
pub open spec fn glyphs_of<T>(chars: Seq<FoundChar<T>>) -> Seq<Glyph<T>>
    decreases chars.len(),
{
    if chars.len() == 0 {
        seq![]
    } else {
        match glyph_of(chars.last()) {
            Some(g) => glyphs_of(chars.drop_last()).push(g),
            None => glyphs_of(chars.drop_last()),
        }
    }
}

/// The text of a page: the glyphs of the characters that are known and have a rectangle, in reading
/// order. The others are skipped.
pub fn page_text<T: Copy>(chars: &Vec<FoundChar<T>>) -> (r: Vec<Glyph<T>>)
    ensures
        r@ == glyphs_of(chars@),
{
    let mut out: Vec<Glyph<T>> = Vec::new();
    assert(out@ =~= glyphs_of(chars@.take(0)));
    for i in 0..chars.len()
        invariant
            out@ == glyphs_of(chars@.take(i as int)),
    {
        assert(chars@.take(i + 1).drop_last() =~= chars@.take(i as int));
        if let (Some(ch), Some(rect)) = (chars[i].ch, chars[i].rect) {
            out.push(Glyph { ch, rect });
        }
    }
    assert(chars@.take(chars@.len() as int) =~= chars@);
    out
}

/// The text of a page while it is selected from: its glyphs in reading order, and its lines, each
/// the indices of its glyphs from the left to the right.
pub struct CopyMode<T> {
    pub glyphs: Vec<Glyph<T>>,
    pub lines: Vec<Vec<usize>>,
    /// The line that each glyph is in.
    pub line_of: Vec<usize>,
    /// The glyph at the caret.
    pub cursor: usize,
    /// The glyph at which the selection was begun.
    pub anchor: Option<usize>,
}

/// Whether a line holds each of the indices from `first` to before `end` once, and no other.
pub open spec fn holds_run(line: Seq<usize>, first: int, end: int) -> bool {
    &&& line.len() == end - first
    &&& line.len() > 0
    &&& forall|k: int| 0 <= k < line.len() ==> first <= #[trigger] line[k] < end
    &&& forall|i: int| first <= i < end ==> #[trigger] line.contains(i as usize)
    &&& forall|j: int, k: int| 0 <= j < k < line.len() ==> line[j] != line[k]
}

/// The glyph, in reading order, that line `l` begins with: as many as there are in the lines before
/// it.
pub open spec fn line_begin(lines: Seq<Vec<usize>>, l: int) -> int
    decreases l,
{
    if l <= 0 {
        0
    } else {
        line_begin(lines, l - 1) + lines[l - 1]@.len()
    }
}

/// Whether line `l` holds the glyphs that follow, in reading order, those of the lines before it.
pub open spec fn follows(lines: Seq<Vec<usize>>, l: int) -> bool {
    holds_run(lines[l]@, line_begin(lines, l), line_begin(lines, l + 1))
}

/// Whether the lines, one after the other, are made of the glyphs `0` to `n`, none of them empty.
pub open spec fn lines_cover(lines: Seq<Vec<usize>>, n: int) -> bool {
    &&& forall|l: int| 0 <= l < lines.len() ==> #[trigger] follows(lines, l)
    &&& n == line_begin(lines, lines.len() as int)
}

/// Where a line begins depends on the lines before it alone.
proof fn lemma_begin_depends_on_before(a: Seq<Vec<usize>>, b: Seq<Vec<usize>>, l: int)
    requires
        0 <= l <= a.len(),
        l <= b.len(),
        forall|k: int| 0 <= k < l ==> a[k] == b[k],
    ensures
        line_begin(a, l) == line_begin(b, l),
    decreases l,
{
    if l > 0 {
        lemma_begin_depends_on_before(a, b, l - 1);
    }
}

/// Line `l` lies within them all.
proof fn lemma_line_bounded(lines: Seq<Vec<usize>>, n: int, l: int)
    requires
        lines_cover(lines, n),
        0 <= l < lines.len(),
    ensures
        follows(lines, l),
        0 <= line_begin(lines, l) < line_begin(lines, l + 1) <= n,
    decreases lines.len() - l,
{
    lemma_begin_not_negative(lines, l);
    assert(follows(lines, l));
    if l + 1 < lines.len() {
        lemma_line_bounded(lines, n, l + 1);
    }
}

proof fn lemma_begin_not_negative(lines: Seq<Vec<usize>>, l: int)
    ensures
        line_begin(lines, l) >= 0,
    decreases l,
{
    if l > 0 {
        lemma_begin_not_negative(lines, l - 1);
    }
}

/// One glyph more, in a line of its own.
proof fn lemma_new_line(before: Seq<Vec<usize>>, line: Vec<usize>, n: usize)
    requires
        lines_cover(before, n as int),
        line@ == seq![n],
    ensures
        lines_cover(before.push(line), n + 1),
        line_begin(before.push(line), before.len() as int) == n,
        forall|l: int|
            0 <= l <= before.len() ==> #[trigger] line_begin(before.push(line), l) == line_begin(
                before,
                l,
            ),
{
    let after = before.push(line);
    assert forall|l: int| 0 <= l <= before.len() implies #[trigger] line_begin(after, l)
        == line_begin(before, l) by {
        lemma_begin_depends_on_before(after, before, l);
    }
    assert forall|l: int| 0 <= l < after.len() implies #[trigger] follows(after, l) by {
        if l < before.len() {
            assert(follows(before, l));
            assert(line_begin(after, l + 1) == line_begin(before, l + 1));
            assert(line_begin(after, l) == line_begin(before, l));
        } else {
            assert(line@[0] == n);
            assert(line@.contains(n));
        }
    }
    assert(line_begin(after, before.len() as int) == n);
    assert(line_begin(after, after.len() as int) == n + 1);
}

/// One glyph more, somewhere in the last line.
proof fn lemma_longer_line(before: Seq<Vec<usize>>, line: Vec<usize>, n: usize, p: int)
    requires
        lines_cover(before, n as int),
        before.len() > 0,
        0 <= p <= before.last()@.len(),
        line@ == before.last()@.insert(p, n),
    ensures
        lines_cover(before.drop_last().push(line), n + 1),
        forall|l: int|
            0 <= l < before.len() ==> #[trigger] line_begin(before.drop_last().push(line), l)
                == line_begin(before, l),
{
    let after = before.drop_last().push(line);
    let last = before.len() - 1;
    assert forall|l: int| 0 <= l < before.len() implies #[trigger] line_begin(after, l)
        == line_begin(before, l) by {
        lemma_begin_depends_on_before(after, before, l);
    }
    assert forall|l: int| 0 <= l < after.len() implies #[trigger] follows(after, l) by {
        assert(follows(before, l));
        assert(line_begin(after, l) == line_begin(before, l));
        if l < last {
            assert(line_begin(after, l + 1) == line_begin(before, l + 1));
        } else {
            lemma_run_grows(before.last()@, line_begin(before, last), n, p);
        }
    }
    assert(line_begin(after, last) == line_begin(before, last));
    assert(line_begin(after, after.len() as int) == n + 1);
}

/// A run with the next index put into it is a run.
proof fn lemma_run_grows(line: Seq<usize>, first: int, n: usize, p: int)
    requires
        holds_run(line, first, n as int),
        0 <= p <= line.len(),
    ensures
        holds_run(line.insert(p, n), first, n + 1),
{
    let after = line.insert(p, n);
    assert forall|i: int| first <= i < n + 1 implies #[trigger] after.contains(i as usize) by {
        if i < n {
            assert(line.contains(i as usize));
            let k = choose|k: int| 0 <= k < line.len() && line[k] == i as usize;
            assert(after[if k < p {
                k
            } else {
                k + 1
            }] == i as usize);
        } else {
            assert(after[p] == n);
        }
    }
    assert forall|j: int, k: int| 0 <= j < k < after.len() implies after[j] != after[k] by {
        let (a, b) = (if j < p {
            j
        } else {
            j - 1
        }, if k < p {
            k
        } else {
            k - 1
        });
        if j != p && k != p {
            assert(after[j] == line[a] && after[k] == line[b]);
        } else if j == p {
            assert(after[k] == line[b]);
        } else {
            assert(after[j] == line[a]);
        }
    }
}

/// Whether glyph `i` is in the line that it is said to be in.
pub open spec fn placed(lines: Seq<Vec<usize>>, line_of: Seq<usize>, i: int) -> bool {
    &&& line_of[i] < lines.len()
    &&& line_begin(lines, line_of[i] as int) <= i < line_begin(lines, line_of[i] + 1)
}

/// Whether glyph `i` begins a new line exactly if `new_line` says so, of the glyph that the line of
/// the glyph before it began with, and of it.
pub open spec fn broken_by<T, F: Fn(Glyph<T>, Glyph<T>) -> bool>(
    new_line: F,
    glyphs: Seq<Glyph<T>>,
    lines: Seq<Vec<usize>>,
    line_of: Seq<usize>,
    i: int,
) -> bool {
    let broken = line_of[i] != line_of[i - 1];
    &&& broken ==> line_of[i] == line_of[i - 1] + 1
    &&& call_ensures(
        new_line,
        (glyphs[line_begin(lines, line_of[i - 1] as int)], glyphs[i]),
        broken,
    )
}

/// Whether `places` are what `across` gives for the glyphs.
pub open spec fn places_of<T, F: Fn(Glyph<T>) -> i32>(
    across: F,
    glyphs: Seq<Glyph<T>>,
    places: Seq<i32>,
) -> bool {
    &&& places.len() == glyphs.len()
    &&& forall|i: int|
        0 <= i < glyphs.len() ==> call_ensures(across, (glyphs[i],), #[trigger] places[i])
}

/// Whether the glyph `a` stands before the glyph `b` in a line: it is further left, or where both
/// are at the same place, it is read first.
pub open spec fn stands_before(places: Seq<i32>, a: usize, b: usize) -> bool {
    places[a as int] < places[b as int] || (places[a as int] == places[b as int] && a < b)
}

/// Whether the glyphs of a line are in the order of their places.
pub open spec fn from_left(places: Seq<i32>, line: Seq<usize>) -> bool {
    forall|j: int, k: int|
        0 <= j < k < line.len() ==> #[trigger] stands_before(places, line[j], line[k])
}

/// Whether the glyphs of each line are in ascending order of what `across` gives for them.
pub open spec fn ascending<T, F: Fn(Glyph<T>) -> i32>(
    across: F,
    glyphs: Seq<Glyph<T>>,
    lines: Seq<Vec<usize>>,
) -> bool {
    exists|places: Seq<i32>| #[trigger]
        places_of(across, glyphs, places) && forall|l: int|
            0 <= l < lines.len() ==> from_left(places, (#[trigger] lines[l])@)
}

/// Puts the glyph `i`, which is read after those of the line, at its place.
fn put_in_place(line: &mut Vec<usize>, i: usize, places: &Vec<i32>) -> (p: usize)
    requires
        i < places@.len(),
        forall|k: int| 0 <= k < old(line)@.len() ==> #[trigger] old(line)@[k] < i,
        from_left(places@, old(line)@),
    ensures
        p <= old(line)@.len(),
        final(line)@ == old(line)@.insert(p as int, i),
        from_left(places@, final(line)@),
{
    let ghost before = line@;
    let n: usize = line.len();
    let mut p: usize = n;
    while p > 0 && places[i] < places[line[p - 1]]
        invariant
            p <= n,
            n == before.len(),
            line@ == before,
            i < places@.len(),
            forall|k: int| 0 <= k < before.len() ==> #[trigger] before[k] < i,
            from_left(places@, before),
            forall|k: int| p <= k < n ==> places@[i as int] < places@[#[trigger] before[k] as int],
        decreases p,
    {
        p = p - 1;
    }
    line.insert(p, i);
    proof {
        let after = line@;
        assert forall|k: int| 0 <= k < p implies places@[#[trigger] before[k] as int]
            <= places@[i as int] by {
            if k < p - 1 {
                assert(stands_before(places@, before[k], before[p - 1]));
            }
        }
        assert forall|j: int, k: int| 0 <= j < k < after.len() implies #[trigger] stands_before(
            places@,
            after[j],
            after[k],
        ) by {
            let (a, b) = (if j < p {
                j
            } else {
                j - 1
            }, if k < p {
                k
            } else {
                k - 1
            });
            if j == p {
                assert(after[k] == before[b]);
            } else if k == p {
                assert(after[j] == before[a]);
            } else {
                assert(after[j] == before[a] && after[k] == before[b]);
                assert(stands_before(places@, before[a], before[b]));
            }
        }
    }
    p
}

/// Whether the glyphs from the first to the second of `span` are on one line.
pub open spec fn on_one_line(line_of: Seq<usize>, span: (usize, usize)) -> bool {
    span.0 <= span.1 && forall|i: int|
        span.0 <= i <= span.1 ==> #[trigger] line_of[i] == line_of[span.0 as int]
}

/// Whether span `k + 1` begins right behind span `k`, on another line.
pub open spec fn next_line(spans: Seq<(usize, usize)>, line_of: Seq<usize>, k: int) -> bool {
    spans[k + 1].0 == spans[k].1 + 1 && line_of[spans[k + 1].0 as int] != line_of[spans[k].1 as int]
}

/// Whether `spans` are the glyphs from `s` to `e`, line by line.
pub open spec fn are_spans(
    spans: Seq<(usize, usize)>,
    line_of: Seq<usize>,
    s: int,
    e: int,
) -> bool {
    &&& spans.len() > 0
    &&& spans[0].0 == s
    &&& spans.last().1 == e
    &&& forall|k: int| 0 <= k < spans.len() ==> on_one_line(line_of, #[trigger] spans[k])
    &&& forall|k: int| 0 <= k < spans.len() - 1 ==> #[trigger] next_line(spans, line_of, k)
}

/// The first of the least of the numbers.
pub open spec fn is_first_least(keys: Seq<u32>, m: int) -> bool {
    &&& 0 <= m < keys.len()
    &&& forall|k: int| 0 <= k < keys.len() ==> keys[m] <= #[trigger] keys[k]
    &&& forall|k: int| 0 <= k < m ==> keys[m] < #[trigger] keys[k]
}

impl<T: Copy> CopyMode<T> {
    /// There is a glyph, the lines hold the glyphs, one line after the other, and the caret and the
    /// start of the selection are glyphs.
    pub open spec fn wf(self) -> bool {
        &&& self.glyphs@.len() > 0
        &&& self.line_of@.len() == self.glyphs@.len()
        &&& lines_cover(self.lines@, self.glyphs@.len() as int)
        &&& forall|i: int|
            0 <= i < self.line_of@.len() ==> #[trigger] placed(self.lines@, self.line_of@, i)
        &&& self.cursor < self.glyphs@.len()
        &&& self.anchor matches Some(a) ==> a < self.glyphs@.len()
    }

    /// Whether the two have the same text and the same lines.
    pub open spec fn same_page(self, other: Self) -> bool {
        &&& self.glyphs == other.glyphs
        &&& self.lines == other.lines
        &&& self.line_of == other.line_of
    }

    /// The line that glyph `i` is in.
    pub open spec fn line_with(self, i: int) -> Seq<usize> {
        self.lines@[self.line_of@[i] as int]@
    }

    /// The text of `n` glyphs from `s` on, with a line break where a new line begins.
    pub open spec fn text_of(self, s: int, n: nat) -> Seq<char>
        decreases n,
    {
        if n == 0 {
            seq![]
        } else {
            let i = s + n - 1;
            let before = self.text_of(s, (n - 1) as nat);
            if n > 1 && self.line_of@[i] != self.line_of@[i - 1] {
                before.push('\n').push(self.glyphs@[i].ch)
            } else {
                before.push(self.glyphs@[i].ch)
            }
        }
    }

    /// The first and the last glyph that are selected: from the start of the selection to the
    /// caret, in reading order, or the one at the caret.
    pub open spec fn selection(self) -> (usize, usize) {
        match self.anchor {
            Some(a) => if a < self.cursor {
                (a, self.cursor)
            } else {
                (self.cursor, a)
            },
            None => (self.cursor, self.cursor),
        }
    }

    /// The text that is selected.
    pub open spec fn selected(self) -> Seq<char> {
        let (s, e) = self.selection();
        self.text_of(s as int, (e - s + 1) as nat)
    }

    /// Groups the glyphs of a page into lines, without its control characters. `new_line` says, of
    /// the glyph that a line began with and a glyph that follows, whether the second begins a new
    /// line. `across` says how far from the left a glyph is; the glyphs of a line are in ascending
    /// order of it. `None` where there is no glyph left.
    pub fn new(
        glyphs: Vec<Glyph<T>>,
        new_line: impl Fn(Glyph<T>, Glyph<T>) -> bool,
        across: impl Fn(Glyph<T>) -> i32,
    ) -> (r: Option<Self>)
        requires
            forall|a: Glyph<T>, b: Glyph<T>| #[trigger] call_requires(new_line, (a, b)),
            forall|a: Glyph<T>| #[trigger] call_requires(across, (a,)),
        ensures
            r is Some == (visible(glyphs@).len() > 0),
            r matches Some(cm) ==> {
                &&& cm.wf()
                &&& cm.glyphs@ == visible(glyphs@)
                &&& cm.cursor == 0
                &&& cm.anchor is None
                &&& cm.line_of@[0] == 0
                &&& forall|i: int|
                    0 < i < cm.glyphs@.len() ==> #[trigger] broken_by(
                        new_line,
                        cm.glyphs@,
                        cm.lines@,
                        cm.line_of@,
                        i,
                    )
                &&& ascending(across, cm.glyphs@, cm.lines@)
            },
    {
        let kept = drop_control(&glyphs);
        if kept.len() == 0 {
            return None;
        }
        let mut places: Vec<i32> = Vec::new();
        for k in 0..kept.len()
            invariant
                forall|a: Glyph<T>| #[trigger] call_requires(across, (a,)),
                places@.len() == k,
                forall|m: int|
                    0 <= m < k ==> call_ensures(across, (kept@[m],), #[trigger] places@[m]),
        {
            places.push(across(kept[k]));
        }
        let mut lines: Vec<Vec<usize>> = Vec::new();
        let mut line_of: Vec<usize> = Vec::new();
        let mut first: usize = 0;
        let mut i: usize = 0;
        while i < kept.len()
            invariant
                forall|a: Glyph<T>, b: Glyph<T>| #[trigger] call_requires(new_line, (a, b)),
                i <= kept@.len(),
                kept@.len() > 0,
                places@.len() == kept@.len(),
                line_of@.len() == i,
                lines@.len() <= i,
                (lines@.len() == 0) == (i == 0),
                lines_cover(lines@, i as int),
                i > 0 ==> first < i && first == line_begin(lines@, lines@.len() - 1),
                forall|k: int| 0 <= k < i ==> #[trigger] placed(lines@, line_of@, k),
                i > 0 ==> line_of@[0] == 0,
                i > 0 ==> line_of@[i - 1] == lines@.len() - 1,
                forall|k: int|
                    0 < k < i ==> #[trigger] broken_by(new_line, kept@, lines@, line_of@, k),
                forall|l: int|
                    0 <= l < lines@.len() ==> from_left(places@, (#[trigger] lines@[l])@),
            decreases kept@.len() - i,
        {
            let ghost old_lines = lines@;
            let ghost old_of = line_of@;
            let begins = if i == 0 {
                true
            } else {
                new_line(kept[first], kept[i])
            };
            if begins {
                let mut line: Vec<usize> = Vec::new();
                line.push(i);
                assert(line@ =~= seq![i]);
                proof {
                    lemma_new_line(lines@, line, i);
                }
                lines.push(line);
                first = i;
            } else {
                proof {
                    lemma_line_bounded(lines@, i as int, lines@.len() - 1);
                }
                let mut line = match lines.pop() {
                    Some(line) => line,
                    None => Vec::new(),
                };
                assert(from_left(places@, old_lines.last()@));
                let p = put_in_place(&mut line, i, &places);
                proof {
                    lemma_longer_line(old_lines, line, i, p as int);
                }
                lines.push(line);
            }
            let at: usize = lines.len() - 1;
            line_of.push(at);
            proof {
                assert(forall|l: int|
                    0 <= l < old_lines.len() ==> #[trigger] line_begin(lines@, l) == line_begin(
                        old_lines,
                        l,
                    ));
                assert forall|k: int| 0 <= k < i + 1 implies #[trigger] placed(
                    lines@,
                    line_of@,
                    k,
                ) by {
                    if k < i {
                        assert(placed(old_lines, old_of, k));
                        let l = old_of[k] as int;
                        assert(line_begin(lines@, l) == line_begin(old_lines, l));
                        if l + 1 < old_lines.len() {
                            assert(line_begin(lines@, l + 1) == line_begin(old_lines, l + 1));
                        }
                    } else {
                        lemma_line_bounded(lines@, i + 1, at as int);
                    }
                }
                assert forall|k: int| 0 < k < i + 1 implies #[trigger] broken_by(
                    new_line,
                    kept@,
                    lines@,
                    line_of@,
                    k,
                ) by {
                    assert(placed(old_lines, old_of, k - 1));
                    let l = old_of[k - 1] as int;
                    assert(line_begin(lines@, l) == line_begin(old_lines, l));
                    if k < i {
                        assert(broken_by(new_line, kept@, old_lines, old_of, k));
                    }
                }
                assert forall|l: int| 0 <= l < lines@.len() implies from_left(
                    places@,
                    (#[trigger] lines@[l])@,
                ) by {
                    if l < at {
                        assert(lines@[l] == old_lines[l]);
                    }
                }
            }
            i += 1;
        }
        assert(places_of(across, kept@, places@));
        Some(CopyMode { glyphs: kept, lines, line_of, cursor: 0, anchor: None })
    }
}

fn drop_control<T: Copy>(glyphs: &Vec<Glyph<T>>) -> (r: Vec<Glyph<T>>)
    ensures
        r@ == visible(glyphs@),
{
    let mut out: Vec<Glyph<T>> = Vec::new();
    assert(out@ =~= visible(glyphs@.take(0)));
    for i in 0..glyphs.len()
        invariant
            out@ == visible(glyphs@.take(i as int)),
    {
        assert(glyphs@.take(i + 1).drop_last() =~= glyphs@.take(i as int));
        let n = glyphs[i].ch as u32;
        if !(n <= 0x1f || (0x7f <= n && n <= 0x9f)) {
            out.push(glyphs[i]);
        }
    }
    assert(glyphs@.take(glyphs@.len() as int) =~= glyphs@);
    out
}

/// Whether `m` is the position of the glyph in `line` that `cost` puts nearest, by what `cost` gives
/// for the glyph `from` and each glyph of the line. The first counts where several are equally near.
pub open spec fn nearest_in<T, F: Fn(Glyph<T>, Glyph<T>) -> u32>(
    glyphs: Seq<Glyph<T>>,
    line: Seq<usize>,
    from: Glyph<T>,
    cost: F,
    m: int,
) -> bool {
    exists|costs: Seq<u32>| #[trigger]
        costs_of(glyphs, line, from, cost, costs) && is_first_least(costs, m)
}

/// Whether `costs` are what `cost` gives for the glyph `from` and each glyph of the line.
pub open spec fn costs_of<T, F: Fn(Glyph<T>, Glyph<T>) -> u32>(
    glyphs: Seq<Glyph<T>>,
    line: Seq<usize>,
    from: Glyph<T>,
    cost: F,
    costs: Seq<u32>,
) -> bool {
    &&& costs.len() == line.len()
    &&& forall|k: int|
        0 <= k < line.len() ==> call_ensures(
            cost,
            (from, glyphs[line[k] as int]),
            #[trigger] costs[k],
        )
}

/// The position of the nearest glyph of a line.
fn find_nearest<T: Copy, F: Fn(Glyph<T>, Glyph<T>) -> u32>(
    glyphs: &Vec<Glyph<T>>,
    line: &Vec<usize>,
    from: Glyph<T>,
    cost: &F,
) -> (m: usize)
    requires
        forall|a: Glyph<T>, b: Glyph<T>| #[trigger] call_requires(*cost, (a, b)),
        line@.len() > 0,
        forall|k: int| 0 <= k < line@.len() ==> (#[trigger] line@[k]) < glyphs@.len(),
    ensures
        m < line@.len(),
        nearest_in(glyphs@, line@, from, *cost, m as int),
{
    let mut best: usize = 0;
    let mut least: u32 = cost(from, glyphs[line[0]]);
    let ghost mut costs: Seq<u32> = seq![least];
    let mut i: usize = 1;
    while i < line.len()
        invariant
            forall|a: Glyph<T>, b: Glyph<T>| #[trigger] call_requires(*cost, (a, b)),
            forall|k: int| 0 <= k < line@.len() ==> (#[trigger] line@[k]) < glyphs@.len(),
            1 <= i <= line@.len(),
            best < i,
            costs.len() == i,
            least == costs[best as int],
            is_first_least(costs, best as int),
            forall|k: int|
                0 <= k < i ==> call_ensures(
                    *cost,
                    (from, glyphs@[line@[k] as int]),
                    #[trigger] costs[k],
                ),
        decreases line@.len() - i,
    {
        let c = cost(from, glyphs[line[i]]);
        proof {
            costs = costs.push(c);
        }
        if c < least {
            least = c;
            best = i;
        }
        i += 1;
    }
    assert(costs_of(glyphs@, line@, from, *cost, costs));
    best
}

/// What a key did while text is selected.
#[derive(Clone, Copy, Debug, PartialEq, Eq, Structural)]
pub enum CopyOutcome {
    /// The caret or the selection changed.
    Redraw,
    /// The selection is copied, and selecting ends.
    Yank,
    /// Selecting ends.
    Exit,
    /// Nothing.
    Ignore,
}

/// A movement of the caret, or a change of the selection.
pub enum CopyStep {
    /// Begins a selection at the caret, or clears it.
    Toggle,
    Back,
    Forward,
    LineStart,
    LineEnd,
    First,
    Last,
}

/// What a key does while text is selected: an end, a change, or a movement by a number of lines.
pub enum CopyMeaning {
    Ends(CopyOutcome),
    Changes(CopyStep),
    MovesLines(int),
    Nothing,
}

/// What a key does while text is selected. Ctrl-C ends selecting; apart from it, Ctrl makes no
/// difference.
pub open spec fn copy_meaning(key: Key) -> CopyMeaning {
    if key.code == KeyCode::Char('c') && key.ctrl {
        CopyMeaning::Ends(CopyOutcome::Exit)
    } else {
        match key.code {
            KeyCode::Esc | KeyCode::Char('q') => CopyMeaning::Ends(CopyOutcome::Exit),
            KeyCode::Enter | KeyCode::Char('y') => CopyMeaning::Ends(CopyOutcome::Yank),
            KeyCode::Char(' ') | KeyCode::Char('v') => CopyMeaning::Changes(CopyStep::Toggle),
            KeyCode::Char('h') | KeyCode::Left => CopyMeaning::Changes(CopyStep::Back),
            KeyCode::Char('l') | KeyCode::Right => CopyMeaning::Changes(CopyStep::Forward),
            KeyCode::Char('j') | KeyCode::Down => CopyMeaning::MovesLines(1),
            KeyCode::Char('k') | KeyCode::Up => CopyMeaning::MovesLines(-1),
            KeyCode::Char('0') | KeyCode::Home => CopyMeaning::Changes(CopyStep::LineStart),
            KeyCode::Char('$') | KeyCode::End => CopyMeaning::Changes(CopyStep::LineEnd),
            KeyCode::Char('g') => CopyMeaning::Changes(CopyStep::First),
            KeyCode::Char('G') => CopyMeaning::Changes(CopyStep::Last),
            _ => CopyMeaning::Nothing,
        }
    }
}

impl<T: Copy> CopyMode<T> {
    /// Whether `after` is `self` with the caret moved `delta` lines, to the glyph that `cost` puts
    /// nearest. Where there is no such line the caret stays.
    pub open spec fn moved_lines<F: Fn(Glyph<T>, Glyph<T>) -> u32>(
        self,
        delta: int,
        cost: F,
        after: Self,
    ) -> bool {
        let target = self.line_of@[self.cursor as int] + delta;
        &&& self.same_page(after)
        &&& self.anchor == after.anchor
        &&& if 0 <= target < self.lines@.len() {
            exists|m: int|
                0 <= m < self.lines@[target]@.len() && after.cursor == self.lines@[target]@[m]
                    && #[trigger] nearest_in(
                    self.glyphs@,
                    self.lines@[target]@,
                    self.glyphs@[self.cursor as int],
                    cost,
                    m,
                )
        } else {
            after.cursor == self.cursor
        }
    }

    /// `self` with the caret at `cursor`.
    pub open spec fn with_cursor(self, cursor: int) -> Self {
        CopyMode { cursor: cursor as usize, ..self }
    }

    /// `self` after a change.
    pub open spec fn changed(self, step: CopyStep) -> Self {
        let last = self.glyphs@.len() - 1;
        match step {
            CopyStep::Toggle => CopyMode {
                anchor: match self.anchor {
                    Some(_) => None,
                    None => Some(self.cursor),
                },
                ..self
            },
            CopyStep::Back => self.with_cursor(
                if self.cursor > 0 {
                    self.cursor - 1
                } else {
                    0
                },
            ),
            CopyStep::Forward => self.with_cursor(
                if self.cursor < last {
                    self.cursor + 1
                } else {
                    last
                },
            ),
            CopyStep::LineStart => self.with_cursor(self.line_with(self.cursor as int)[0] as int),
            CopyStep::LineEnd => self.with_cursor(
                self.line_with(self.cursor as int).last() as int,
            ),
            CopyStep::First => self.with_cursor(0),
            CopyStep::Last => self.with_cursor(last),
        }
    }

    /// The first and the last glyph that are selected.
    pub fn range(&self) -> (r: (usize, usize))
        ensures
            r == self.selection(),
            r.0 <= r.1,
    {
        match self.anchor {
            Some(a) => if a < self.cursor {
                (a, self.cursor)
            } else {
                (self.cursor, a)
            },
            None => (self.cursor, self.cursor),
        }
    }

    /// The text that is selected.
    pub fn selected_text(&self) -> (r: String)
        requires
            self.wf(),
        ensures
            r@ == self.selected(),
    {
        let (s, e) = self.range();
        let mut out = String::new();
        let mut n: usize = 0;
        let count: usize = self.glyphs.len();
        while n <= e - s
            invariant
                count == self.glyphs@.len(),
                self.line_of@.len() == self.glyphs@.len(),
                s <= e < self.glyphs@.len(),
                n <= e - s + 1,
                out@ == self.text_of(s as int, n as nat),
            decreases e - s + 1 - n,
        {
            let i: usize = s + n;
            if n > 0 && self.line_of[i] != self.line_of[i - 1] {
                out.push('\n');
            }
            out.push(self.glyphs[i].ch);
            n += 1;
        }
        out
    }

    /// The selected glyphs line by line, each line from its first to its last selected glyph. Each
    /// is highlighted as one piece, so that no gap shows between its glyphs. Nothing is highlighted
    /// where no selection was begun.
    pub fn selected_spans(&self) -> (r: Vec<(usize, usize)>)
        requires
            self.wf(),
        ensures
            self.anchor is None ==> r@.len() == 0,
            self.anchor is Some ==> are_spans(
                r@,
                self.line_of@,
                self.selection().0 as int,
                self.selection().1 as int,
            ),
    {
        let mut out: Vec<(usize, usize)> = Vec::new();
        if self.anchor.is_none() {
            return out;
        }
        let (s, e) = self.range();
        let ghost line_of = self.line_of@;
        let mut first: usize = s;
        let mut i: usize = s;
        while i < e
            invariant
                s <= first <= i <= e < line_of.len(),
                line_of == self.line_of@,
                first == s ==> out@.len() == 0,
                first > s ==> out@.len() > 0 && out@[0].0 == s && out@.last().1 + 1 == first
                    && line_of[first as int] != line_of[first - 1],
                on_one_line(line_of, (first, i)),
                forall|k: int| 0 <= k < out@.len() ==> on_one_line(line_of, #[trigger] out@[k]),
                forall|k: int| 0 <= k < out@.len() - 1 ==> #[trigger] next_line(out@, line_of, k),
            decreases e - i,
        {
            if self.line_of[i + 1] != self.line_of[i] {
                let ghost before = out@;
                out.push((first, i));
                assert forall|k: int| 0 <= k < out@.len() - 1 implies #[trigger] next_line(
                    out@,
                    line_of,
                    k,
                ) by {
                    if k < before.len() - 1 {
                        assert(next_line(before, line_of, k));
                    }
                }
                first = i + 1;
            }
            i += 1;
        }
        let ghost before = out@;
        out.push((first, e));
        assert forall|k: int| 0 <= k < out@.len() - 1 implies #[trigger] next_line(
            out@,
            line_of,
            k,
        ) by {
            if k < before.len() - 1 {
                assert(next_line(before, line_of, k));
            }
        }
        out
    }

    /// Moves the caret to the leftmost or the rightmost glyph of its line.
    pub fn line_edge(&mut self, end: bool)
        requires
            old(self).wf(),
        ensures
            final(self).wf(),
            *final(self) == old(self).changed(
                if end {
                    CopyStep::LineEnd
                } else {
                    CopyStep::LineStart
                },
            ),
    {
        let l: usize = self.line_of[self.cursor];
        assert(placed(self.lines@, self.line_of@, self.cursor as int));
        proof {
            lemma_line_bounded(self.lines@, self.glyphs@.len() as int, l as int);
        }
        let line = &self.lines[l];
        let n: usize = line.len();
        let edge: usize = if end {
            line[n - 1]
        } else {
            line[0]
        };
        self.cursor = edge;
    }

    /// Moves the caret `delta` lines, to the glyph that `cost` puts nearest to the one at the caret.
    /// Where there is no such line the caret stays.
    pub fn move_line(&mut self, delta: i32, cost: impl Fn(Glyph<T>, Glyph<T>) -> u32)
        requires
            old(self).wf(),
            forall|a: Glyph<T>, b: Glyph<T>| #[trigger] call_requires(cost, (a, b)),
        ensures
            final(self).wf(),
            old(self).moved_lines(delta as int, cost, *final(self)),
    {
        let l: usize = self.line_of[self.cursor];
        let count: usize = self.lines.len();
        let target: i128 = l as i128 + delta as i128;
        if target < 0 || target >= count as i128 {
            return;
        }
        let t: usize = target as usize;
        proof {
            lemma_line_bounded(self.lines@, self.glyphs@.len() as int, t as int);
        }
        let m = find_nearest(&self.glyphs, &self.lines[t], self.glyphs[self.cursor], &cost);
        self.cursor = self.lines[t][m];
    }

    /// The glyph that `cost` puts nearest to `from`. The first counts where several are equally
    /// near.
    pub fn nearest(&self, from: Glyph<T>, cost: impl Fn(Glyph<T>, Glyph<T>) -> u32) -> (r: usize)
        requires
            self.wf(),
            forall|a: Glyph<T>, b: Glyph<T>| #[trigger] call_requires(cost, (a, b)),
        ensures
            r < self.glyphs@.len(),
            nearest_in(
                self.glyphs@,
                Seq::new(self.glyphs@.len(), |i: int| i as usize),
                from,
                cost,
                r as int,
            ),
    {
        let mut all: Vec<usize> = Vec::new();
        for i in 0..self.glyphs.len()
            invariant
                all@.len() == i,
                forall|k: int| 0 <= k < i ==> #[trigger] all@[k] == k,
        {
            all.push(i);
        }
        assert(all@ =~= Seq::new(self.glyphs@.len(), |i: int| i as usize));
        find_nearest(&self.glyphs, &all, from, &cost)
    }
}

/// Carries out a key while text is selected.
pub fn handle_copy_key<T: Copy>(
    key: &Key,
    cm: &mut CopyMode<T>,
    cost: impl Fn(Glyph<T>, Glyph<T>) -> u32,
) -> (r: CopyOutcome)
    requires
        old(cm).wf(),
        forall|a: Glyph<T>, b: Glyph<T>| #[trigger] call_requires(cost, (a, b)),
    ensures
        final(cm).wf(),
        (match copy_meaning(*key) {
            CopyMeaning::Ends(outcome) => r == outcome && *final(cm) == *old(cm),
            CopyMeaning::Changes(step) => r == CopyOutcome::Redraw && *final(cm) == old(
                cm,
            ).changed(step),
            CopyMeaning::MovesLines(delta) => r == CopyOutcome::Redraw && old(cm).moved_lines(
                delta,
                cost,
                *final(cm),
            ),
            CopyMeaning::Nothing => r == CopyOutcome::Ignore && *final(cm) == *old(cm),
        }),
{
    if key.ctrl && key.code == KeyCode::Char('c') {
        return CopyOutcome::Exit;
    }
    let last: usize = cm.glyphs.len() - 1;
    match key.code {
        KeyCode::Esc | KeyCode::Char('q') => CopyOutcome::Exit,
        KeyCode::Enter | KeyCode::Char('y') => CopyOutcome::Yank,
        KeyCode::Char(' ') | KeyCode::Char('v') => {
            cm.anchor = match cm.anchor {
                Some(_) => None,
                None => Some(cm.cursor),
            };
            CopyOutcome::Redraw
        },
        KeyCode::Char('h') | KeyCode::Left => {
            if cm.cursor > 0 {
                cm.cursor = cm.cursor - 1;
            }
            CopyOutcome::Redraw
        },
        KeyCode::Char('l') | KeyCode::Right => {
            if cm.cursor < last {
                cm.cursor = cm.cursor + 1;
            }
            CopyOutcome::Redraw
        },
        KeyCode::Char('j') | KeyCode::Down => {
            cm.move_line(1, cost);
            CopyOutcome::Redraw
        },
        KeyCode::Char('k') | KeyCode::Up => {
            cm.move_line(-1, cost);
            CopyOutcome::Redraw
        },
        KeyCode::Char('0') | KeyCode::Home => {
            cm.line_edge(false);
            CopyOutcome::Redraw
        },
        KeyCode::Char('$') | KeyCode::End => {
            cm.line_edge(true);
            CopyOutcome::Redraw
        },
        KeyCode::Char('g') => {
            cm.cursor = 0;
            CopyOutcome::Redraw
        },
        KeyCode::Char('G') => {
            cm.cursor = last;
            CopyOutcome::Redraw
        },
        _ => CopyOutcome::Ignore,
    }
}

/// The text without its line breaks.
pub open spec fn unbroken(s: Seq<char>) -> Seq<char>
    decreases s.len(),
{
    if s.len() == 0 {
        seq![]
    } else if s.last() == '\n' {
        unbroken(s.drop_last())
    } else {
        unbroken(s.drop_last()).push(s.last())
    }
}

/// The characters of `n` glyphs from `s` on.
pub open spec fn chars_from<T>(glyphs: Seq<Glyph<T>>, s: int, n: nat) -> Seq<char> {
    Seq::new(n, |i: int| glyphs[s + i].ch)
}

/// Without its line breaks, text that is selected is the characters of the glyphs that are
/// selected: nothing is lost, added or put in another place.
pub proof fn law_selected_text_is_the_glyphs<T: Copy>(cm: CopyMode<T>, s: int, n: nat)
    requires
        forall|i: int| s <= i < s + n ==> !is_control(#[trigger] cm.glyphs@[i].ch),
    ensures
        unbroken(cm.text_of(s, n)) == chars_from(cm.glyphs@, s, n),
    decreases n,
{
    reveal_with_fuel(unbroken, 3);
    if n > 0 {
        let k = (n - 1) as nat;
        law_selected_text_is_the_glyphs(cm, s, k);
        let i = s + n - 1;
        let c = cm.glyphs@[i].ch;
        assert(!is_control(cm.glyphs@[i].ch));
        let before = cm.text_of(s, k);
        assert(before.push('\n').drop_last() =~= before);
        assert(before.push('\n').push(c).drop_last() =~= before.push('\n'));
        assert(before.push(c).drop_last() =~= before);
        assert(chars_from(cm.glyphs@, s, n) =~= chars_from(cm.glyphs@, s, k).push(c));
    } else {
        assert(chars_from(cm.glyphs@, s, n) =~= Seq::<char>::empty());
    }
}

/// The glyphs that are left without the control characters hold none.
pub proof fn law_no_control_characters_left<T>(glyphs: Seq<Glyph<T>>)
    ensures
        forall|i: int|
            0 <= i < visible(glyphs).len() ==> !is_control(#[trigger] visible(glyphs)[i].ch),
        visible(visible(glyphs)) == visible(glyphs),
    decreases glyphs.len(),
{
    if glyphs.len() > 0 {
        let rest = glyphs.drop_last();
        law_no_control_characters_left(rest);
        if !is_control(glyphs.last().ch) {
            let v = visible(glyphs);
            assert(v.drop_last() =~= visible(rest));
        }
    }
}

proof fn lemma_begins_ascend(lines: Seq<Vec<usize>>, n: int, l: int, m: int)
    requires
        lines_cover(lines, n),
        0 <= l <= m <= lines.len(),
    ensures
        line_begin(lines, l) <= line_begin(lines, m),
    decreases m - l,
{
    if l < m {
        lemma_begins_ascend(lines, n, l, m - 1);
    }
}

/// Each glyph is in one line, the one that it is said to be in, and in no other; and a line holds
/// nothing but glyphs.
pub proof fn law_glyphs_are_in_one_line<T: Copy>(cm: CopyMode<T>, i: int, l: int)
    requires
        cm.wf(),
        0 <= i < cm.glyphs@.len(),
        0 <= l < cm.lines@.len(),
    ensures
        cm.lines@[l]@.contains(i as usize) <==> l == cm.line_of@[i],
        line_begin(cm.lines@, l + 1) <= cm.glyphs@.len(),
        forall|k: int|
            0 <= k < cm.lines@[l]@.len() ==> (#[trigger] cm.lines@[l]@[k]) < cm.glyphs@.len(),
{
    let lines = cm.lines@;
    let n = cm.glyphs@.len() as int;
    let at = cm.line_of@[i] as int;
    assert(placed(lines, cm.line_of@, i));
    lemma_line_bounded(lines, n, l);
    lemma_line_bounded(lines, n, at);
    assert(i < cm.glyphs.len());
    if l < at {
        lemma_begins_ascend(lines, n, l + 1, at);
    } else if at < l {
        lemma_begins_ascend(lines, n, at + 1, l);
    } else {
        assert(lines[l]@.contains(i as usize));
    }
    if lines[l]@.contains(i as usize) {
        let k = choose|k: int| 0 <= k < lines[l]@.len() && lines[l]@[k] == i as usize;
        assert(line_begin(lines, l) <= lines[l]@[k] < line_begin(lines, l + 1));
    }
}

proof fn lemma_spans_reach(
    spans: Seq<(usize, usize)>,
    line_of: Seq<usize>,
    s: int,
    e: int,
    i: int,
    n: int,
) -> (k: int)
    requires
        are_spans(spans, line_of, s, e),
        0 < n <= spans.len(),
        s <= i <= spans[n - 1].1,
    ensures
        0 <= k < n,
        spans[k].0 <= i <= spans[k].1,
    decreases n,
{
    assert(on_one_line(line_of, spans[n - 1]));
    if i >= spans[n - 1].0 {
        n - 1
    } else {
        assert(next_line(spans, line_of, n - 2));
        lemma_spans_reach(spans, line_of, s, e, i, n - 1)
    }
}

proof fn lemma_spans_inside(
    spans: Seq<(usize, usize)>,
    line_of: Seq<usize>,
    s: int,
    e: int,
    k: int,
    l: int,
)
    requires
        are_spans(spans, line_of, s, e),
        0 <= k <= l < spans.len(),
    ensures
        spans[k].0 <= spans[l].0,
        spans[k].1 <= spans[l].1,
    decreases l - k,
{
    if k < l {
        lemma_spans_inside(spans, line_of, s, e, k, l - 1);
        assert(next_line(spans, line_of, l - 1));
        assert(on_one_line(line_of, spans[l - 1]) && on_one_line(line_of, spans[l]));
    }
}

/// Exactly the glyphs that are selected are highlighted.
pub proof fn law_selection_is_highlighted(
    spans: Seq<(usize, usize)>,
    line_of: Seq<usize>,
    s: int,
    e: int,
    i: int,
)
    requires
        are_spans(spans, line_of, s, e),
    ensures
        (s <= i <= e) <==> exists|k: int|
            0 <= k < spans.len() && (#[trigger] spans[k]).0 <= i && i <= spans[k].1,
{
    if s <= i <= e {
        let k = lemma_spans_reach(spans, line_of, s, e, i, spans.len() as int);
        assert(spans[k].0 <= i && i <= spans[k].1);
    }
    if exists|k: int| 0 <= k < spans.len() && (#[trigger] spans[k]).0 <= i && i <= spans[k].1 {
        let k = choose|k: int|
            0 <= k < spans.len() && (#[trigger] spans[k]).0 <= i && i <= spans[k].1;
        lemma_spans_inside(spans, line_of, s, e, 0, k);
        lemma_spans_inside(spans, line_of, s, e, k, spans.len() - 1);
    }
}

/// Selecting is the same in both directions: it does not matter which end is the caret.
pub proof fn law_selection_has_no_direction<T: Copy>(cm: CopyMode<T>, a: usize, b: usize)
    ensures
        (CopyMode { cursor: a, anchor: Some(b), ..cm }).selected() == (CopyMode {
            cursor: b,
            anchor: Some(a),
            ..cm
        }).selected(),
{
    let there = CopyMode { cursor: a, anchor: Some(b), ..cm };
    let back = CopyMode { cursor: b, anchor: Some(a), ..cm };
    let (s, e) = there.selection();
    lemma_text_depends_on_the_page(there, back, s as int, (e - s + 1) as nat);
}

proof fn lemma_text_depends_on_the_page<T: Copy>(a: CopyMode<T>, b: CopyMode<T>, s: int, n: nat)
    requires
        a.same_page(b),
    ensures
        a.text_of(s, n) == b.text_of(s, n),
    decreases n,
{
    if n > 0 {
        lemma_text_depends_on_the_page(a, b, s, (n - 1) as nat);
    }
}

// ---------------------------------------------------------------------------
// The mouse.

/// Begins a selection at a glyph.
pub fn press<T: Copy>(cm: &mut CopyMode<T>, glyph: usize)
    requires
        old(cm).wf(),
        glyph < old(cm).glyphs@.len(),
    ensures
        final(cm).wf(),
        *final(cm) == (CopyMode { cursor: glyph, anchor: Some(glyph), ..*old(cm) }),
{
    cm.cursor = glyph;
    cm.anchor = Some(glyph);
}

/// Extends the selection to a glyph.
pub fn drag<T: Copy>(cm: &mut CopyMode<T>, glyph: usize)
    requires
        old(cm).wf(),
        glyph < old(cm).glyphs@.len(),
    ensures
        final(cm).wf(),
        *final(cm) == (CopyMode { cursor: glyph, ..*old(cm) }),
{
    cm.cursor = glyph;
}

/// Whether letting go of the button copies the selection: it does after a drag, while a click only
/// places the caret.
pub fn release<T: Copy>(cm: &CopyMode<T>) -> (r: bool)
    ensures
        r == (match cm.anchor {
            Some(a) => a != cm.cursor,
            None => false,
        }),
{
    match cm.anchor {
        Some(a) => a != cm.cursor,
        None => false,
    }
}

// ---------------------------------------------------------------------------
// What is read on a page is what is copied.

/// One glyph is copied as its character.
pub proof fn law_single_glyph_is_copied<T: Copy>(cm: CopyMode<T>, s: int)
    ensures
        cm.text_of(s, 1) == seq![cm.glyphs@[s].ch],
        cm.text_of(s, 0).len() == 0,
{
    assert(cm.text_of(s, 0) =~= Seq::<char>::empty());
    assert(cm.text_of(s, 1) =~= seq![cm.glyphs@[s].ch]);
}

/// Between two glyphs that follow each other, wherever they are in what is selected, a line break is
/// copied exactly if they are on different lines.
pub proof fn law_line_break_between_lines<T: Copy>(cm: CopyMode<T>, s: int, a: nat, b: nat)
    requires
        a > 0,
        b > 0,
    ensures
        cm.line_of@[s + a - 1] == cm.line_of@[s + a] ==> cm.text_of(s, a + b) == cm.text_of(s, a)
            + cm.text_of(s + a, b),
        cm.line_of@[s + a - 1] != cm.line_of@[s + a] ==> cm.text_of(s, a + b) == cm.text_of(s, a)
            + seq!['\n'] + cm.text_of(s + a, b),
    decreases b,
{
    let i = s + a + b - 1;
    assert(((a + b) - 1) as nat == a + (b - 1) as nat);
    if b == 1 {
        law_single_glyph_is_copied(cm, s + a);
        assert(cm.text_of(s, a + b) == (if cm.line_of@[i] != cm.line_of@[i - 1] {
            cm.text_of(s, a).push('\n').push(cm.glyphs@[i].ch)
        } else {
            cm.text_of(s, a).push(cm.glyphs@[i].ch)
        }));
    } else {
        law_line_break_between_lines(cm, s, a, (b - 1) as nat);
        let (whole, tail) = (cm.text_of(s, (a + b - 1) as nat), cm.text_of(s + a, (b - 1) as nat));
        assert(cm.text_of(s, a + b) == (if cm.line_of@[i] != cm.line_of@[i - 1] {
            whole.push('\n').push(cm.glyphs@[i].ch)
        } else {
            whole.push(cm.glyphs@[i].ch)
        }));
        assert(cm.text_of(s + a, b) == (if cm.line_of@[i] != cm.line_of@[i - 1] {
            tail.push('\n').push(cm.glyphs@[i].ch)
        } else {
            tail.push(cm.glyphs@[i].ch)
        }));
    }
}

/// Glyphs on one line are copied as their characters, with nothing between them.
proof fn lemma_one_line_is_copied<T: Copy>(cm: CopyMode<T>, s: int, n: nat)
    requires
        forall|i: int| s < i < s + n ==> #[trigger] cm.line_of@[i] == cm.line_of@[s],
    ensures
        cm.text_of(s, n) == chars_from(cm.glyphs@, s, n),
    decreases n,
{
    if n > 0 {
        let i = s + n - 1;
        lemma_one_line_is_copied(cm, s, (n - 1) as nat);
        assert(n > 1 ==> cm.line_of@[i] == cm.line_of@[s]);
        assert(n > 2 ==> cm.line_of@[i - 1] == cm.line_of@[s]);
        assert(cm.text_of(s, n) =~= chars_from(cm.glyphs@, s, n));
    } else {
        assert(chars_from(cm.glyphs@, s, n) =~= Seq::<char>::empty());
    }
}

/// The characters of each of the first `n` spans, with a line break between two spans.
pub open spec fn joined_lines<T>(
    glyphs: Seq<Glyph<T>>,
    spans: Seq<(usize, usize)>,
    n: nat,
) -> Seq<char>
    decreases n,
{
    if n == 0 {
        seq![]
    } else {
        let span = spans[n - 1];
        let line = chars_from(glyphs, span.0 as int, (span.1 - span.0 + 1) as nat);
        if n == 1 {
            line
        } else {
            joined_lines(glyphs, spans, (n - 1) as nat) + seq!['\n'] + line
        }
    }
}

proof fn lemma_spans_are_copied<T: Copy>(
    cm: CopyMode<T>,
    spans: Seq<(usize, usize)>,
    s: int,
    e: int,
    n: nat,
)
    requires
        are_spans(spans, cm.line_of@, s, e),
        0 < n <= spans.len(),
    ensures
        s <= spans[n - 1].1,
        cm.text_of(s, (spans[n - 1].1 - s + 1) as nat) == joined_lines(cm.glyphs@, spans, n),
    decreases n,
{
    let span = spans[n - 1];
    let count = (span.1 - span.0 + 1) as nat;
    assert(on_one_line(cm.line_of@, span));
    lemma_one_line_is_copied(cm, span.0 as int, count);
    if n > 1 {
        let m = (n - 1) as nat;
        lemma_spans_are_copied(cm, spans, s, e, m);
        assert(next_line(spans, cm.line_of@, n - 2));
        let before = (spans[n - 2].1 - s + 1) as nat;
        assert(s + before == span.0);
        law_line_break_between_lines(cm, s, before, count);
        assert(before + count == (span.1 - s + 1) as nat);
    }
}

/// What is copied is what is highlighted: the characters of each line, from its first to its last
/// selected glyph, with one line break between a line and the next.
pub proof fn law_lines_are_copied_with_breaks_between<T: Copy>(
    cm: CopyMode<T>,
    spans: Seq<(usize, usize)>,
)
    requires
        are_spans(spans, cm.line_of@, cm.selection().0 as int, cm.selection().1 as int),
    ensures
        cm.selected() == joined_lines(cm.glyphs@, spans, spans.len()),
{
    let (s, e) = cm.selection();
    lemma_spans_are_copied(cm, spans, s as int, e as int, spans.len());
}

/// A glyph is on the line of the glyph before it, or on the one that follows.
pub proof fn law_lines_follow_each_other<T: Copy>(cm: CopyMode<T>, i: int)
    requires
        cm.wf(),
        0 < i < cm.glyphs@.len(),
    ensures
        cm.line_of@[i] == cm.line_of@[i - 1] || cm.line_of@[i] == cm.line_of@[i - 1] + 1,
{
    let lines = cm.lines@;
    let n = cm.glyphs@.len() as int;
    assert(placed(lines, cm.line_of@, i - 1));
    assert(placed(lines, cm.line_of@, i));
    let (l, m) = (cm.line_of@[i - 1] as int, cm.line_of@[i] as int);
    if m < l {
        lemma_begins_ascend(lines, n, m + 1, l);
    } else if m > l + 1 {
        lemma_begins_ascend(lines, n, l + 2, m);
        assert(follows(lines, l + 1));
        assert(line_begin(lines, l + 2) == line_begin(lines, l + 1) + lines[l + 1]@.len());
    }
}

/// How many line breaks a text has.
pub open spec fn breaks_in(s: Seq<char>) -> int
    decreases s.len(),
{
    if s.len() == 0 {
        0
    } else {
        breaks_in(s.drop_last()) + if s.last() == '\n' {
            1int
        } else {
            0
        }
    }
}

/// What is copied has as many line breaks as there are lines between its first and its last glyph,
/// one for every line but the first.
pub proof fn law_as_many_breaks_as_lines<T: Copy>(cm: CopyMode<T>, s: int, n: nat)
    requires
        cm.wf(),
        0 <= s,
        0 < n,
        s + n <= cm.glyphs@.len(),
        forall|i: int| 0 <= i < cm.glyphs@.len() ==> !is_control(#[trigger] cm.glyphs@[i].ch),
    ensures
        breaks_in(cm.text_of(s, n)) == cm.line_of@[s + n - 1] - cm.line_of@[s],
    decreases n,
{
    reveal_with_fuel(breaks_in, 3);
    let i = s + n - 1;
    let c = cm.glyphs@[i].ch;
    assert(!is_control(cm.glyphs@[i].ch));
    if n == 1 {
        law_single_glyph_is_copied(cm, s);
        assert(seq![c].drop_last() =~= Seq::<char>::empty());
    } else {
        let before = cm.text_of(s, (n - 1) as nat);
        law_as_many_breaks_as_lines(cm, s, (n - 1) as nat);
        law_lines_follow_each_other(cm, i);
        assert(before.push('\n').drop_last() =~= before);
        assert(before.push('\n').push(c).drop_last() =~= before.push('\n'));
        assert(before.push(c).drop_last() =~= before);
    }
}

/// What is selected lies between the caret and the start of the selection, both included: the caret
/// and the start are its ends.
pub proof fn law_selection_ends_at_the_caret<T: Copy>(cm: CopyMode<T>)
    ensures
        ({
            let start = match cm.anchor {
                Some(a) => a,
                None => cm.cursor,
            };
            let (s, e) = cm.selection();
            s <= e && ((s == start && e == cm.cursor) || (s == cm.cursor && e == start))
        }),
{
}

/// A line is ended exactly where `new_line` says so, of the glyph that the line began with and the
/// glyph that follows.
pub proof fn law_line_is_ended_from_its_first_glyph<T: Copy, F: Fn(Glyph<T>, Glyph<T>) -> bool>(
    cm: CopyMode<T>,
    new_line: F,
    first: int,
    i: int,
)
    requires
        cm.wf(),
        0 <= first < i < cm.glyphs@.len(),
        broken_by(new_line, cm.glyphs@, cm.lines@, cm.line_of@, i),
        cm.line_of@[first] == cm.line_of@[i - 1],
        first > 0 ==> cm.line_of@[first - 1] != cm.line_of@[first],
    ensures
        call_ensures(
            new_line,
            (cm.glyphs@[first], cm.glyphs@[i]),
            cm.line_of@[i] != cm.line_of@[i - 1],
        ),
{
    let lines = cm.lines@;
    let l = cm.line_of@[first] as int;
    assert(placed(lines, cm.line_of@, first));
    if first > line_begin(lines, l) {
        lemma_begin_not_negative(lines, l);
        assert(placed(lines, cm.line_of@, first - 1));
        law_lines_follow_each_other(cm, first);
        let m = cm.line_of@[first - 1] as int;
        lemma_begins_ascend(lines, cm.glyphs@.len() as int, m + 1, l);
    }
}

/// The characters of a page are looked at one by one: what is before a character does not change
/// what becomes of those behind it.
pub proof fn law_glyphs_are_found_one_by_one<T>(a: Seq<FoundChar<T>>, c: char, rect: [T; 4])
    ensures
        glyphs_of(a.push(FoundChar { ch: Some(c), rect: Some(rect) })) == glyphs_of(a).push(
            Glyph { ch: c, rect },
        ),
        glyphs_of(a.push(FoundChar { ch: None, rect: Some(rect) })) == glyphs_of(a),
        glyphs_of(a.push(FoundChar { ch: Some(c), rect: None })) == glyphs_of(a),
        glyphs_of(a.push(FoundChar { ch: None, rect: None })) == glyphs_of(a),
        glyphs_of(Seq::<FoundChar<T>>::empty()).len() == 0,
{
    assert(a.push(FoundChar { ch: Some(c), rect: Some(rect) }).drop_last() =~= a);
    assert(a.push(FoundChar { ch: None, rect: Some(rect) }).drop_last() =~= a);
    assert(a.push(FoundChar { ch: Some(c), rect: None }).drop_last() =~= a);
    assert(a.push(FoundChar { ch: None, rect: None }).drop_last() =~= a);
}

/// Every glyph but the control characters is kept as it is, behind those before it. The control
/// characters are those below the space and those from delete to the last of the second block.
pub proof fn law_other_characters_stay<T>(a: Seq<Glyph<T>>, g: Glyph<T>)
    ensures
        ' ' <= g.ch < '\u{7f}' || '\u{9f}' < g.ch ==> visible(a.push(g)) == visible(a).push(g),
        g.ch < ' ' || '\u{7f}' <= g.ch <= '\u{9f}' ==> visible(a.push(g)) == visible(a),
        visible(Seq::<Glyph<T>>::empty()).len() == 0,
{
    assert(a.push(g).drop_last() =~= a);
}

/// In a line, no glyph is further left than one before it, and of two glyphs at the same place the
/// one that is read first comes first.
pub proof fn law_line_runs_to_the_right(places: Seq<i32>, line: Seq<usize>, j: int, k: int)
    requires
        from_left(places, line),
        0 <= j < k < line.len(),
    ensures
        places[line[j] as int] <= places[line[k] as int],
        places[line[j] as int] == places[line[k] as int] ==> line[j] < line[k],
{
    assert(stands_before(places, line[j], line[k]));
}

/// The start and the end of a line are its leftmost and its rightmost glyph, and the caret stays on
/// its line.
pub proof fn law_line_edges<T: Copy>(cm: CopyMode<T>, places: Seq<i32>, k: int)
    requires
        cm.wf(),
        from_left(places, cm.line_with(cm.cursor as int)),
        0 <= k < cm.line_with(cm.cursor as int).len(),
    ensures
        cm.changed(CopyStep::LineStart).wf(),
        cm.changed(CopyStep::LineEnd).wf(),
        cm.line_of@[cm.changed(CopyStep::LineStart).cursor as int] == cm.line_of@[cm.cursor as int],
        cm.line_of@[cm.changed(CopyStep::LineEnd).cursor as int] == cm.line_of@[cm.cursor as int],
        places[cm.changed(CopyStep::LineStart).cursor as int] <= places[cm.line_with(
            cm.cursor as int,
        )[k] as int],
        places[cm.changed(CopyStep::LineEnd).cursor as int] >= places[cm.line_with(
            cm.cursor as int,
        )[k] as int],
{
    let l = cm.line_of@[cm.cursor as int] as int;
    let line = cm.line_with(cm.cursor as int);
    let last = line.len() - 1;
    assert(placed(cm.lines@, cm.line_of@, cm.cursor as int));
    law_glyphs_are_in_one_line(cm, cm.cursor as int, l);
    assert(line[0] < cm.glyphs@.len() && line[last] < cm.glyphs@.len());
    assert(line.contains(line[0]) && line.contains(line[last]));
    law_glyphs_are_in_one_line(cm, line[0] as int, l);
    law_glyphs_are_in_one_line(cm, line[last] as int, l);
    if k > 0 {
        law_line_runs_to_the_right(places, line, 0, k);
    }
    if k < last {
        law_line_runs_to_the_right(places, line, k, last);
    }
}

/// The caret goes back and forward glyph by glyph in reading order, and to the first and the last
/// glyph. Going forward undoes going back, except at the first glyph. No movement changes where the
/// selection begins.
pub proof fn law_caret_moves<T: Copy>(cm: CopyMode<T>)
    requires
        cm.wf(),
    ensures
        cm.cursor > 0 ==> cm.changed(CopyStep::Back).cursor + 1 == cm.cursor,
        cm.cursor == 0 ==> cm.changed(CopyStep::Back) == cm,
        cm.cursor + 1 < cm.glyphs@.len() ==> cm.changed(CopyStep::Forward).cursor == cm.cursor + 1,
        cm.cursor + 1 == cm.glyphs@.len() ==> cm.changed(CopyStep::Forward) == cm,
        cm.cursor > 0 ==> cm.changed(CopyStep::Back).changed(CopyStep::Forward) == cm,
        cm.changed(CopyStep::First).cursor == 0,
        cm.changed(CopyStep::Last).cursor + 1 == cm.glyphs@.len(),
        forall|step: CopyStep|
            !(step is Toggle) ==> (#[trigger] cm.changed(step)).anchor == cm.anchor,
        forall|step: CopyStep| cm.same_page(#[trigger] cm.changed(step)),
{
    assert(cm.glyphs.len() == cm.glyphs@.len());
}

/// Toggling begins a selection of one glyph at the caret, or clears the selection, and leaves the
/// caret where it is.
pub proof fn law_toggle<T: Copy>(cm: CopyMode<T>)
    ensures
        cm.changed(CopyStep::Toggle).cursor == cm.cursor,
        cm.anchor is None ==> cm.changed(CopyStep::Toggle).anchor == Some(cm.cursor),
        cm.anchor is None ==> cm.changed(CopyStep::Toggle).changed(CopyStep::Toggle) == cm,
        cm.anchor is Some ==> cm.changed(CopyStep::Toggle).anchor is None,
{
}

/// The keys of the caret mean the same as the letters: left, down, up and right are `h`, `j`, `k`
/// and `l`, the home and end keys are `0` and `$`; return copies as `y` does, escape leaves as `q`
/// does, and the space bar selects as `v` does. With or without Ctrl they mean the same.
pub proof fn law_caret_keys_are_letters(ctrl: bool, other: bool)
    ensures
        copy_meaning(Key { code: KeyCode::Left, ctrl }) == copy_meaning(
            Key { code: KeyCode::Char('h'), ctrl: other },
        ),
        copy_meaning(Key { code: KeyCode::Down, ctrl }) == copy_meaning(
            Key { code: KeyCode::Char('j'), ctrl: other },
        ),
        copy_meaning(Key { code: KeyCode::Up, ctrl }) == copy_meaning(
            Key { code: KeyCode::Char('k'), ctrl: other },
        ),
        copy_meaning(Key { code: KeyCode::Right, ctrl }) == copy_meaning(
            Key { code: KeyCode::Char('l'), ctrl: other },
        ),
        copy_meaning(Key { code: KeyCode::Home, ctrl }) == copy_meaning(
            Key { code: KeyCode::Char('0'), ctrl: other },
        ),
        copy_meaning(Key { code: KeyCode::End, ctrl }) == copy_meaning(
            Key { code: KeyCode::Char('$'), ctrl: other },
        ),
        copy_meaning(Key { code: KeyCode::Enter, ctrl }) == copy_meaning(
            Key { code: KeyCode::Char('y'), ctrl: other },
        ),
        copy_meaning(Key { code: KeyCode::Esc, ctrl }) == copy_meaning(
            Key { code: KeyCode::Char('q'), ctrl: other },
        ),
        copy_meaning(Key { code: KeyCode::Char(' '), ctrl }) == copy_meaning(
            Key { code: KeyCode::Char('v'), ctrl: other },
        ),
{
}

/// Which keys do something while text is selected: what a key does says which key it is.
pub proof fn law_what_a_key_does_says_which_it_is(key: Key)
    ensures
        copy_meaning(key) == CopyMeaning::Changes(CopyStep::Back) <==> key.code == KeyCode::Left
            || key.code == KeyCode::Char('h'),
        copy_meaning(key) == CopyMeaning::Changes(CopyStep::Forward) <==> key.code
            == KeyCode::Right || key.code == KeyCode::Char('l'),
        copy_meaning(key) == CopyMeaning::Changes(CopyStep::LineStart) <==> key.code
            == KeyCode::Home || key.code == KeyCode::Char('0'),
        copy_meaning(key) == CopyMeaning::Changes(CopyStep::LineEnd) <==> key.code == KeyCode::End
            || key.code == KeyCode::Char('$'),
        copy_meaning(key) == CopyMeaning::Changes(CopyStep::First) <==> key.code == KeyCode::Char(
            'g',
        ),
        copy_meaning(key) == CopyMeaning::Changes(CopyStep::Last) <==> key.code == KeyCode::Char(
            'G',
        ),
        copy_meaning(key) == CopyMeaning::Changes(CopyStep::Toggle) <==> key.code == KeyCode::Char(
            ' ',
        ) || key.code == KeyCode::Char('v'),
        copy_meaning(key) == CopyMeaning::MovesLines(1) <==> key.code == KeyCode::Down || key.code
            == KeyCode::Char('j'),
        copy_meaning(key) == CopyMeaning::MovesLines(-1) <==> key.code == KeyCode::Up || key.code
            == KeyCode::Char('k'),
        copy_meaning(key) == CopyMeaning::Ends(CopyOutcome::Yank) <==> key.code == KeyCode::Enter
            || key.code == KeyCode::Char('y'),
        copy_meaning(key) == CopyMeaning::Ends(CopyOutcome::Exit) <==> key.code == KeyCode::Esc
            || key.code == KeyCode::Char('q') || (key.ctrl && key.code == KeyCode::Char('c')),
        copy_meaning(key) matches CopyMeaning::MovesLines(n) ==> n == 1 || n == -1,
        !(copy_meaning(key) == CopyMeaning::Ends(CopyOutcome::Ignore)),
{
}

/// The glyph that is nearest is no dearer than any other of its line, and cheaper than each before
/// it.
pub proof fn law_nearest_is_cheapest(costs: Seq<u32>, m: int, k: int)
    requires
        is_first_least(costs, m),
        0 <= k < costs.len(),
    ensures
        costs[m] <= costs[k],
        costs[m] == costs[k] ==> m <= k,
{
}

/// Whether `cost` gives for the way from one glyph to another no more than for the way to a third.
pub open spec fn no_dearer<T, F: Fn(Glyph<T>, Glyph<T>) -> u32>(
    cost: F,
    from: Glyph<T>,
    reached: Glyph<T>,
    other: Glyph<T>,
) -> bool {
    exists|a: u32, b: u32| #[trigger]
        call_ensures(cost, (from, reached), a) && #[trigger] call_ensures(cost, (from, other), b)
            && a <= b
}

/// Moving by lines leads to the line that many lines further, to a glyph of it that is no dearer to
/// reach from the caret than any other, and nowhere where there is no such line. The selection begins
/// where it did.
pub proof fn law_caret_moves_by_lines<T: Copy, F: Fn(Glyph<T>, Glyph<T>) -> u32>(
    cm: CopyMode<T>,
    delta: int,
    cost: F,
    after: CopyMode<T>,
    k: int,
)
    requires
        cm.wf(),
        cm.moved_lines(delta, cost, after),
    ensures
        after.anchor == cm.anchor,
        cm.same_page(after),
        ({
            let target = cm.line_of@[cm.cursor as int] + delta;
            &&& !(0 <= target < cm.lines@.len()) ==> after.cursor == cm.cursor
            &&& 0 <= target < cm.lines@.len() ==> cm.line_of@[after.cursor as int] == target
            &&& 0 <= target < cm.lines@.len() && 0 <= k < cm.lines@[target]@.len() ==> no_dearer(
                cost,
                cm.glyphs@[cm.cursor as int],
                cm.glyphs@[after.cursor as int],
                cm.glyphs@[cm.lines@[target]@[k] as int],
            )
        }),
{
    let target = cm.line_of@[cm.cursor as int] + delta;
    let from = cm.glyphs@[cm.cursor as int];
    if 0 <= target < cm.lines@.len() {
        let line = cm.lines@[target]@;
        let m = choose|m: int|
            0 <= m < line.len() && after.cursor == line[m] && #[trigger] nearest_in(
                cm.glyphs@,
                line,
                from,
                cost,
                m,
            );
        law_glyphs_are_in_one_line(cm, cm.cursor as int, target);
        assert(line[m] < cm.glyphs@.len());
        assert(line.contains(line[m]));
        law_glyphs_are_in_one_line(cm, line[m] as int, target);
        let costs = choose|costs: Seq<u32>| #[trigger]
            costs_of(cm.glyphs@, line, from, cost, costs) && is_first_least(costs, m);
        if 0 <= k < line.len() {
            assert(call_ensures(cost, (from, cm.glyphs@[line[m] as int]), costs[m]));
            assert(call_ensures(cost, (from, cm.glyphs@[line[k] as int]), costs[k]));
        }
    }
}

} // verus!
