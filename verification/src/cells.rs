//! Sizes: of a terminal cell in pixels, and of the area that an image can fill.
use crate::terminal;
use crate::terminal::push_passed;
use crate::text;
use crate::text::{chars_of, find, parse_number, parse_size_pair, trim, utf8_str};
use vstd::prelude::*;
use vstd::slice::slice_subrange;
use vstd::utf8::*;

verus! {

/// What a terminal reports of its window: its size in cells, and in pixels. A size that is not
/// known is reported as zero.
#[derive(Clone, Copy, Debug)]
pub struct WindowSize {
    pub columns: u16,
    pub rows: u16,
    pub width: u16,
    pub height: u16,
}

/// The area of an output in pixels.
#[derive(Clone, Copy, Debug, PartialEq, Eq, Structural)]
pub struct DisplaySize {
    pub width: u32,
    pub height: u32,
}

/// `v`, brought into the range from 1 to `max`.
pub open spec fn at_most(v: nat, max: nat) -> nat {
    if v < 1 {
        1
    } else if v > max {
        max
    } else {
        v
    }
}

/// A size such as `10x20`, each number brought into the range from 1 to `max`.
pub open spec fn clamped_pair(s: Seq<char>, max: nat) -> Option<(nat, nat)> {
    match text::size_pair(s) {
        Some((w, h)) => Some((at_most(w, max), at_most(h, max))),
        None => None,
    }
}

/// The numbers of a pair of sizes.
pub open spec fn pair(r: Option<(u32, u32)>) -> Option<(nat, nat)> {
    match r {
        Some((w, h)) => Some((w as nat, h as nat)),
        None => None,
    }
}

fn clamp_to(v: u32, max: u32) -> (r: u32)
    requires
        max >= 1,
    ensures
        r == at_most(v as nat, max as nat),
{
    if v < 1 {
        1
    } else if v > max {
        max
    } else {
        v
    }
}

/// Reads a cell size such as `10x20`, each number brought into the range from 1 to 256.
pub fn parse_wxh(s: &str) -> (r: Option<(u32, u32)>)
    ensures
        pair(r) == clamped_pair(s@, 256),
{
    match parse_size_pair(s) {
        Some((w, h)) => Some((clamp_to(w, 256), clamp_to(h, 256))),
        None => None,
    }
}

/// Reads a cell size such as `10x20`, each number brought into the range from 1 to 128.
pub fn parse_cell_px(s: &str) -> (r: Option<(u32, u32)>)
    ensures
        pair(r) == clamped_pair(s@, 128),
{
    match parse_size_pair(s) {
        Some((w, h)) => Some((clamp_to(w, 128), clamp_to(h, 128))),
        None => None,
    }
}

/// The cell size to go by where none is found out: the one that is set, or else 8 by 16.
pub fn fallback_cell_px(set: Option<&str>) -> (r: (u32, u32))
    ensures
        (r.0 as nat, r.1 as nat) == (match set {
            Some(s) => match clamped_pair(s@, 128) {
                Some(size) => size,
                None => (8nat, 16nat),
            },
            None => (8nat, 16nat),
        }),
{
    match set {
        Some(s) => match parse_cell_px(s) {
            Some(size) => size,
            None => (8, 16),
        },
        None => (8, 16),
    }
}

/// The size of an image in pixels, such as `800x1000`. Neither number is zero; numbers over 16384
/// are taken as 16384.
pub open spec fn image_size(s: Seq<char>) -> Option<(nat, nat)> {
    match text::size_pair(s) {
        Some((w, h)) => if w == 0 || h == 0 {
            None
        } else {
            Some((at_most(w, 16384), at_most(h, 16384)))
        },
        None => None,
    }
}

/// Reads the size of an image in pixels.
pub fn parse_size(s: &str) -> (r: Option<(u32, u32)>)
    ensures
        pair(r) == image_size(s@),
{
    match parse_size_pair(s) {
        Some((w, h)) => if w == 0 || h == 0 {
            None
        } else {
            Some((clamp_to(w, 16384), clamp_to(h, 16384)))
        },
        None => None,
    }
}

// ---------------------------------------------------------------------------
// The size of a cell.

/// The cell size that follows from what a window reports, where it reports all of it.
pub open spec fn reported_cell(window: Option<WindowSize>) -> Option<(nat, nat)> {
    match window {
        Some(ws) => if ws.width > 0 && ws.height > 0 && ws.columns > 0 && ws.rows > 0 {
            Some(
                (
                    at_most((ws.width / ws.columns) as nat, u16::MAX as nat),
                    at_most((ws.height / ws.rows) as nat, u16::MAX as nat),
                ),
            )
        } else {
            None
        },
        None => None,
    }
}

/// The cell size that follows from what a window reports, where it reports all of it.
pub fn cell_of_window(window: Option<WindowSize>) -> (r: Option<(u32, u32)>)
    ensures
        pair(r) == reported_cell(window),
{
    match window {
        Some(ws) => if ws.width > 0 && ws.height > 0 && ws.columns > 0 && ws.rows > 0 {
            Some(
                (
                    clamp_to((ws.width / ws.columns) as u32, 65535),
                    clamp_to((ws.height / ws.rows) as u32, 65535),
                ),
            )
        } else {
            None
        },
        None => None,
    }
}

/// The cell size: the one that is set, or else what the window reports, or else what the terminal
/// answered when asked.
pub open spec fn cell_size(
    set: Option<Seq<char>>,
    window: Option<WindowSize>,
    answer: Option<(nat, nat)>,
) -> Option<(nat, nat)> {
    let forced = match set {
        Some(s) => clamped_pair(s, 256),
        None => None,
    };
    if forced is Some {
        forced
    } else if reported_cell(window) is Some {
        reported_cell(window)
    } else {
        answer
    }
}

/// The characters of an optional text.
pub open spec fn chars_opt(s: Option<&str>) -> Option<Seq<char>> {
    match s {
        Some(t) => Some(t@),
        None => None,
    }
}

/// The size of a terminal cell in pixels: the one that is set, or else what the window reports, or
/// else what the terminal answered when asked.
pub fn cell_px(set: Option<&str>, window: Option<WindowSize>, answer: Option<(u32, u32)>) -> (r:
    Option<(u32, u32)>)
    ensures
        pair(r) == cell_size(chars_opt(set), window, pair(answer)),
{
    if let Some(s) = set {
        let forced = parse_wxh(s);
        if forced.is_some() {
            return forced;
        }
    }
    let reported = cell_of_window(window);
    if reported.is_some() {
        return reported;
    }
    answer
}

/// What a cell size is looked for by, or found by.
pub enum CellCall {
    /// By what is set and what the window reports.
    Look { set: Option<Seq<char>>, window: Option<WindowSize> },
    /// By what the terminal answered, `None` where it did not.
    Keep { answer: Option<(nat, nat)> },
}

/// What is kept of the cell size after a call, of what was kept before it. What was found out first
/// is kept, be it a size or that there is none; looking finds out nothing where nothing is set or
/// reported.
pub open spec fn kept_after(kept: Option<Option<(nat, nat)>>, call: CellCall) -> Option<
    Option<(nat, nat)>,
> {
    if kept is Some {
        kept
    } else {
        match call {
            CellCall::Look { set, window } => match cell_size(set, window, None) {
                Some(cell) => Some(Some(cell)),
                None => None,
            },
            CellCall::Keep { answer } => Some(answer),
        }
    }
}

/// What is kept of the cell size after calls, one after the other.
pub open spec fn kept_after_all(kept: Option<Option<(nat, nat)>>, calls: Seq<CellCall>) -> Option<
    Option<(nat, nat)>,
>
    decreases calls.len(),
{
    if calls.len() == 0 {
        kept
    } else {
        kept_after(kept_after_all(kept, calls.drop_last()), calls.last())
    }
}

/// What looking for the cell size comes to.
#[derive(Clone, Copy, Debug, PartialEq, Eq)]
pub enum CellStep {
    /// The cell size, or that there is no telling.
    Known(Option<(u32, u32)>),
    /// The terminal has to be asked.
    Ask,
}

/// The size of a terminal cell, which is found out once and kept from then on.
#[derive(Debug)]
pub struct CellSize {
    found: Option<Option<(u32, u32)>>,
}

impl View for CellSize {
    type V = Option<Option<(nat, nat)>>;

    /// What has been found out, if it has.
    closed spec fn view(&self) -> Option<Option<(nat, nat)>> {
        match self.found {
            Some(cell) => Some(pair(cell)),
            None => None,
        }
    }
}

impl CellSize {
    /// Nothing found out yet.
    pub fn new() -> (r: Self)
        ensures
            r@ is None,
    {
        CellSize { found: None }
    }

    /// Looks for the cell size: what is kept, or else the one that is set, or else what the window
    /// reports. Where there is none of these, the terminal has to be asked.
    pub fn look(&mut self, set: Option<&str>, window: Option<WindowSize>) -> (r: CellStep)
        ensures
            final(self)@ == kept_after(old(self)@, CellCall::Look { set: chars_opt(set), window }),
            (match r {
                CellStep::Known(cell) => final(self)@ == Some(pair(cell)),
                CellStep::Ask => final(self)@ is None,
            }),
    {
        if let Some(cell) = self.found {
            return CellStep::Known(cell);
        }
        let cell = cell_px(set, window, None);
        if cell.is_none() {
            return CellStep::Ask;
        }
        self.found = Some(cell);
        CellStep::Known(cell)
    }

    /// Keeps what the terminal answered, unless something is kept already. Gives what is kept.
    pub fn keep(&mut self, answer: Option<(u32, u32)>) -> (r: Option<(u32, u32)>)
        ensures
            final(self)@ == kept_after(old(self)@, CellCall::Keep { answer: pair(answer) }),
            final(self)@ == Some(pair(r)),
    {
        match self.found {
            Some(cell) => cell,
            None => {
                self.found = Some(answer);
                answer
            },
        }
    }
}

/// One cell size is kept: once it has been found out, every later call gives the same, whatever is
/// set, reported or answered then, and the terminal is not asked again.
pub proof fn law_cell_size_is_kept(cell: Option<(nat, nat)>, calls: Seq<CellCall>)
    ensures
        kept_after_all(Some(cell), calls) == Some(cell),
    decreases calls.len(),
{
    if calls.len() > 0 {
        law_cell_size_is_kept(cell, calls.drop_last());
    }
}

/// The terminal is asked at most once: after its answer is kept, even if there was none, something
/// is kept, and it is what looking and asking in that order give.
pub proof fn law_terminal_is_asked_once(
    set: Option<Seq<char>>,
    window: Option<WindowSize>,
    answer: Option<(nat, nat)>,
    later: Seq<CellCall>,
)
    ensures
        kept_after_all(
            kept_after(kept_after(None, CellCall::Look { set, window }), CellCall::Keep { answer }),
            later,
        ) == Some(cell_size(set, window, answer)),
{
    law_cell_size_is_kept(cell_size(set, window, answer), later);
}

/// A cell size has pixels in both directions, whatever is set or reported and whatever bytes the
/// terminal answers with, if it answers.
pub proof fn law_cell_has_sides(
    set: Option<Seq<char>>,
    window: Option<WindowSize>,
    answer: Option<Seq<u8>>,
)
    ensures
        cell_size(
            set,
            window,
            match answer {
                Some(buf) => answered_cell(buf),
                None => None,
            },
        ) matches Some((w, h)) ==> w >= 1 && h >= 1,
{
}

/// What is written to ask the terminal for its cell size.
pub fn cell_query(in_tmux: bool) -> (r: String)
    ensures
        r@ == terminal::passed("\x1b[16t"@, in_tmux),
{
    let mut out = String::new();
    push_passed(&mut out, "\x1b[16t", in_tmux);
    assert(out@ =~= terminal::passed("\x1b[16t"@, in_tmux));
    out
}

/// The first index at which `part` stands in `s`, if it does.
pub open spec fn first_at(s: Seq<char>, part: Seq<char>) -> Option<int> {
    if text::occurs(s, part) {
        Some(
            choose|i: int|
                text::occurs_at(s, part, i) && forall|j: int| j < i ==> !#[trigger] text::occurs_at(
                    s,
                    part,
                    j,
                ),
        )
    } else {
        None
    }
}

/// The cell size that two numbers stand for, the height first. Neither may be zero; each is brought
/// into the range from 1 to 256.
pub open spec fn cell_of_numbers(height: Option<nat>, width: Option<nat>) -> Option<(nat, nat)> {
    match (height, width) {
        (Some(h), Some(w)) => if w > 0 && h > 0 {
            Some((at_most(w, 256), at_most(h, 256)))
        } else {
            None
        },
        _ => None,
    }
}

/// What the fields of an answer mean: the height, a semicolon, and the width, with whatever follows
/// a further semicolon.
pub open spec fn cell_of_fields(fields: Seq<char>) -> Option<(nat, nat)> {
    match text::first_of(fields, ';', ';') {
        Some(i) => {
            let rest = fields.skip(i + 1);
            let width = match text::first_of(rest, ';', ';') {
                Some(j) => rest.take(j),
                None => rest,
            };
            cell_of_numbers(
                text::number(text::trimmed(fields.take(i)), u32::MAX as nat),
                text::number(text::trimmed(width), u32::MAX as nat),
            )
        },
        None => None,
    }
}

/// The cell size in what has been read of an answer: `ESC [ 6 ; height ; width t`, wherever it
/// stands.
pub open spec fn answered_cell(buf: Seq<u8>) -> Option<(nat, nat)> {
    if valid_utf8(buf) {
        let s = decode_utf8(buf);
        match first_at(s, "\x1b[6;"@) {
            Some(i) => {
                let rest = s.skip(i + 4);
                match text::first_of(rest, 't', 't') {
                    Some(end) => cell_of_fields(rest.take(end)),
                    None => None,
                }
            },
            None => None,
        }
    } else {
        None
    }
}

fn parse_fields(fields: &[char]) -> (r: Option<(u32, u32)>)
    ensures
        pair(r) == cell_of_fields(fields@),
{
    let i = match text::find_either(fields, ';', ';') {
        Some(i) => i,
        None => {
            return None;
        },
    };
    let end: usize = fields.len();
    let first = slice_subrange(fields, 0, i);
    let rest = slice_subrange(fields, i + 1, end);
    assert(first@ =~= fields@.take(i as int));
    assert(rest@ =~= fields@.skip(i + 1));
    let second = match text::find_either(rest, ';', ';') {
        Some(j) => slice_subrange(rest, 0, j),
        None => rest,
    };
    assert(match text::first_of(rest@, ';', ';') {
        Some(j) => second@ =~= rest@.take(j),
        None => second@ == rest@,
    });
    match (
        parse_number(trim(first), u32::MAX as u64),
        parse_number(trim(second), u32::MAX as u64),
    ) {
        (Some(h), Some(w)) => if w > 0 && h > 0 {
            Some((clamp_to(w as u32, 256), clamp_to(h as u32, 256)))
        } else {
            None
        },
        _ => None,
    }
}

/// Reads the cell size out of what has been read of an answer.
pub fn parse_cell_reply(buf: &[u8]) -> (r: Option<(u32, u32)>)
    ensures
        pair(r) == answered_cell(buf@),
{
    let s = match utf8_str(buf) {
        Some(s) => s,
        None => {
            return None;
        },
    };
    let cs = chars_of(s);
    let mark = chars_of("\x1b[6;");
    proof {
        reveal_strlit("\x1b[6;");
    }
    let i = match find(cs.as_slice(), mark.as_slice()) {
        Some(i) => i,
        None => {
            return None;
        },
    };
    proof {
        lemma_first_at(cs@, mark@, i as int);
    }
    let end: usize = cs.len();
    let rest = slice_subrange(cs.as_slice(), i + 4, end);
    assert(rest@ =~= cs@.skip(i + 4));
    let t = match text::find_either(rest, 't', 't') {
        Some(t) => t,
        None => {
            return None;
        },
    };
    let fields = slice_subrange(rest, 0, t);
    assert(fields@ =~= rest@.take(t as int));
    parse_fields(fields)
}

proof fn lemma_first_at(s: Seq<char>, part: Seq<char>, i: int)
    requires
        text::occurs_at(s, part, i),
        forall|j: int| j < i ==> !#[trigger] text::occurs_at(s, part, j),
    ensures
        first_at(s, part) == Some(i),
{
    let k = choose|k: int|
        text::occurs_at(s, part, k) && forall|j: int| j < k ==> !#[trigger] text::occurs_at(
            s,
            part,
            j,
        );
    assert(text::occurs_at(s, part, i));
    assert(k == i);
}

/// What to do with what has been read of an answer.
#[derive(Clone, Copy, Debug, PartialEq, Eq, Structural)]
pub enum Reading {
    /// The answer is there.
    Answer { width: u32, height: u32 },
    /// An answer ended without a cell size in it: nothing more is read, so that what is typed later
    /// is not lost.
    GiveUp,
    /// The answer has not ended.
    More,
}

/// Decides what to do with what has been read of an answer.
pub fn reading(buf: &[u8]) -> (r: Reading)
    ensures
        (match r {
            Reading::Answer { width, height } => answered_cell(buf@) == Some(
                (width as nat, height as nat),
            ),
            Reading::GiveUp => answered_cell(buf@) is None && buf@.contains(0x74),
            Reading::More => answered_cell(buf@) is None && !buf@.contains(0x74),
        }),
{
    if let Some((width, height)) = parse_cell_reply(buf) {
        return Reading::Answer { width, height };
    }
    for i in 0..buf.len()
        invariant
            answered_cell(buf@) is None,
            forall|j: int| 0 <= j < i ==> buf@[j] != 0x74,
    {
        if buf[i] == 0x74 {
            assert(buf@[i as int] == 0x74);
            return Reading::GiveUp;
        }
    }
    Reading::More
}

// ---------------------------------------------------------------------------
// The area that an image can fill.

/// The size of a framebuffer, as the system writes it: `width,height`.
pub open spec fn framebuffer_size(s: Seq<char>) -> Option<(nat, nat)> {
    let t = text::trimmed(s);
    match text::first_of(t, ',', ',') {
        Some(i) => match (
            text::number(t.take(i), u32::MAX as nat),
            text::number(t.skip(i + 1), u32::MAX as nat),
        ) {
            (Some(w), Some(h)) => Some((w, h)),
            _ => None,
        },
        None => None,
    }
}

/// Reads the size of a framebuffer.
pub fn parse_virtual_size(s: &str) -> (r: Option<(u32, u32)>)
    ensures
        pair(r) == framebuffer_size(s@),
{
    let cs = chars_of(s);
    let t = trim(cs.as_slice());
    let i = match text::find_either(t, ',', ',') {
        Some(i) => i,
        None => {
            return None;
        },
    };
    let end: usize = t.len();
    let left = slice_subrange(t, 0, i);
    let right = slice_subrange(t, i + 1, end);
    assert(left@ =~= t@.take(i as int));
    assert(right@ =~= t@.skip(i + 1));
    match (parse_number(left, u32::MAX as u64), parse_number(right, u32::MAX as u64)) {
        (Some(w), Some(h)) => Some((w as u32, h as u32)),
        _ => None,
    }
}

/// The pixels of an area on a terminal: what the window reports, or else what its cells come to, or
/// else 1280 by 800. A backend that scales the image into placeholder cells draws `scale` times as
/// many in each direction, unless the window reports its pixels. A backend that passes its image
/// through tmux leaves the last row free: an image that reaches it would scroll the screen.
pub open spec fn area(
    backend_name: Seq<char>,
    window: Option<WindowSize>,
    cell: (nat, nat),
    scale: nat,
) -> (nat, nat) {
    let ss = if text::occurs(backend_name, "placeholder"@) {
        scale
    } else {
        1
    };
    let unknown = (1280 * ss, 800 * ss);
    match window {
        Some(ws) => if ws.width > 0 && ws.height > 0 {
            (ws.width as nat, ws.height as nat)
        } else if ws.columns > 0 && ws.rows > 0 {
            let rows = if text::occurs(backend_name, "passthrough"@) && ws.rows > 1 {
                (ws.rows - 1) as nat
            } else {
                ws.rows as nat
            };
            (ws.columns as nat * cell.0 * ss, rows * cell.1 * ss)
        } else {
            unknown
        },
        None => unknown,
    }
}

/// Whether `s` holds the text `part`.
pub fn names(s: &str, part: &str) -> (r: bool)
    ensures
        r == text::occurs(s@, part@),
{
    let cs = chars_of(s);
    let ps = chars_of(part);
    text::contains(cs.as_slice(), ps.as_slice())
}

/// The pixels to draw for an output. A framebuffer has its own size, where it is known. On a
/// terminal the cell size is the one given, or else 8 by 16.
pub open spec fn drawn_area(
    backend_name: Seq<char>,
    framebuffer: Option<(nat, nat)>,
    window: Option<WindowSize>,
    cell: Option<(nat, nat)>,
    scale: nat,
) -> (nat, nat) {
    match framebuffer {
        Some(size) if text::begins_with(backend_name, "framebuffer"@) => size,
        _ => area(
            backend_name,
            window,
            match cell {
                Some(c) => c,
                None => (8nat, 16nat),
            },
            scale,
        ),
    }
}

/// Whether the sides of an area can be counted.
pub open spec fn is_countable(size: (nat, nat)) -> bool {
    size.0 <= u32::MAX && size.1 <= u32::MAX
}

/// The pixels of `count` cells, each `cell` wide and drawn `times` as wide. `None` where they cannot
/// be counted.
fn side(count: u32, cell: u32, times: u32) -> (r: Option<u32>)
    ensures
        r is Some == (count * cell * times <= u32::MAX),
        r matches Some(v) ==> v == count * cell * times,
{
    assert(0 <= count * cell <= 0xffff_ffff * 0xffff_ffff) by (nonlinear_arith)
        requires
            count <= 0xffff_ffff,
            cell <= 0xffff_ffff,
    ;
    let once: u64 = count as u64 * cell as u64;
    assert(0 <= once * times <= 0xffff_ffff_ffff_ffff * 0xffff_ffff) by (nonlinear_arith)
        requires
            once <= 0xffff_ffff_ffff_ffff,
            times <= 0xffff_ffff,
    ;
    let all: u128 = once as u128 * times as u128;
    if all <= u32::MAX as u128 {
        Some(all as u32)
    } else {
        None
    }
}

/// The pixels to draw for an output. `None` where a side of the area cannot be counted.
pub fn counted_area(
    backend_name: &str,
    framebuffer: Option<(u32, u32)>,
    window: Option<WindowSize>,
    cell: Option<(u32, u32)>,
    scale: u32,
) -> (r: Option<DisplaySize>)
    ensures
        ({
            let drawn = drawn_area(
                backend_name@,
                pair(framebuffer),
                window,
                pair(cell),
                scale as nat,
            );
            &&& r is Some == is_countable(drawn)
            &&& r matches Some(size) ==> (size.width as nat, size.height as nat) == drawn
        }),
{
    let name = chars_of(backend_name);
    let device = chars_of("framebuffer");
    if text::starts_with(name.as_slice(), device.as_slice()) {
        if let Some((width, height)) = framebuffer {
            return Some(DisplaySize { width, height });
        }
    }
    let ss: u32 = if names(backend_name, "placeholder") {
        scale
    } else {
        1
    };
    let (cell_w, cell_h) = match cell {
        Some(c) => c,
        None => (8u32, 16u32),
    };
    let sides = match window {
        Some(ws) => if ws.width > 0 && ws.height > 0 {
            (Some(ws.width as u32), Some(ws.height as u32))
        } else if ws.columns > 0 && ws.rows > 0 {
            let rows: u32 = if names(backend_name, "passthrough") && ws.rows > 1 {
                ws.rows as u32 - 1
            } else {
                ws.rows as u32
            };
            (side(ws.columns as u32, cell_w, ss), side(rows, cell_h, ss))
        } else {
            (side(1, 1280, ss), side(1, 800, ss))
        },
        None => (side(1, 1280, ss), side(1, 800, ss)),
    };
    match sides {
        (Some(width), Some(height)) => Some(DisplaySize { width, height }),
        _ => None,
    }
}

/// The pixels to draw for an output. The sides of the area can be counted.
pub fn available_area(
    backend_name: &str,
    framebuffer: Option<(u32, u32)>,
    window: Option<WindowSize>,
    cell: Option<(u32, u32)>,
    scale: u32,
) -> (r: DisplaySize)
    requires
        is_countable(
            drawn_area(
                backend_name@,
                pair(framebuffer),
                window,
                pair(cell),
                scale as nat,
            ),
        ),
    ensures
        (r.width as nat, r.height as nat) == drawn_area(
            backend_name@,
            pair(framebuffer),
            window,
            pair(cell),
            scale as nat,
        ),
{
    match counted_area(backend_name, framebuffer, window, cell, scale) {
        Some(size) => size,
        None => DisplaySize { width: 0, height: 0 },
    }
}

/// A number that is brought into a range lies in it, is kept if it did before, and otherwise is the
/// end of the range on its side.
pub proof fn law_at_most(v: nat, max: nat)
    requires
        max >= 1,
    ensures
        1 <= at_most(v, max) <= max,
        1 <= v <= max ==> at_most(v, max) == v,
        v > max ==> at_most(v, max) == max,
{
}

/// A size that is written as a width, an `x` and a height is read back in that order, where it is in
/// range. The size of an image must not be zero either way.
pub proof fn law_sizes_read_back(w: nat, h: nat, x: char, max: nat)
    requires
        w <= u32::MAX,
        h <= u32::MAX,
        x == 'x' || x == 'X',
        max >= 1,
    ensures
        ({
            let s = text::decimal(w) + seq![x] + text::decimal(h);
            &&& clamped_pair(s, max) == Some((at_most(w, max), at_most(h, max)))
            &&& w == 0 || h == 0 <==> image_size(s) is None
            &&& w > 0 && h > 0 ==> image_size(s) == Some((at_most(w, 16384), at_most(h, 16384)))
        }),
{
    text::law_size_reads_back(w, h, x);
}

/// A cell is as wide as its share of the window among the columns, and as high as its share among the
/// rows, both rounded down, but not to nothing. There is no telling where one of the four is not
/// known.
pub proof fn law_cell_is_its_share(ws: WindowSize)
    ensures
        reported_cell(Some(ws)) is None <==> ws.columns == 0 || ws.rows == 0 || ws.width == 0
            || ws.height == 0,
        reported_cell(Some(ws)) matches Some((w, h)) ==> {
            &&& w >= 1
            &&& h >= 1
            &&& w * ws.columns <= ws.width || w == 1
            &&& ws.width < (w + 1) * ws.columns
            &&& h * ws.rows <= ws.height || h == 1
            &&& ws.height < (h + 1) * ws.rows
        },
        reported_cell(None) is None,
{
    if ws.columns > 0 && ws.rows > 0 {
        lemma_share(ws.width as int, ws.columns as int);
        lemma_share(ws.height as int, ws.rows as int);
    }
}

proof fn lemma_share(pixels: int, n: int)
    requires
        0 <= pixels <= u16::MAX,
        0 < n,
    ensures
        0 <= pixels / n <= u16::MAX,
        (pixels / n) * n <= pixels < (pixels / n + 1) * n,
        pixels / n == 0 ==> pixels < 2 * n,
{
    vstd::arithmetic::div_mod::lemma_fundamental_div_mod(pixels, n);
    vstd::arithmetic::div_mod::lemma_mod_bound(pixels, n);
    vstd::arithmetic::div_mod::lemma_div_pos_is_pos(pixels, n);
    let q = pixels / n;
    assert(q * n <= pixels < (q + 1) * n) by (nonlinear_arith)
        requires
            pixels == n * q + pixels % n,
            0 <= pixels % n < n,
    ;
    assert(q <= q * n) by (nonlinear_arith)
        requires
            q >= 0,
            n >= 1,
    ;
}

/// What is set counts before what the window reports, and that before what the terminal answered.
pub proof fn law_what_counts_first(
    set: Option<Seq<char>>,
    window: Option<WindowSize>,
    answer: Option<(nat, nat)>,
)
    ensures
        set matches Some(s) && clamped_pair(s, 256) is Some ==> cell_size(set, window, answer)
            == clamped_pair(set->0, 256),
        (set is None || clamped_pair(set->0, 256) is None) && reported_cell(window) is Some
            ==> cell_size(set, window, answer) == reported_cell(window),
        (set is None || clamped_pair(set->0, 256) is None) && reported_cell(window) is None
            ==> cell_size(set, window, answer) == answer,
{
}

proof fn lemma_first_char(a: Seq<char>, c: char, b: Seq<char>)
    requires
        !a.contains(c),
    ensures
        text::first_of(a + seq![c] + b, c, c) == Some(a.len() as int),
{
    let s = a + seq![c] + b;
    text::law_first_of_two(s, c, c);
    let n = a.len() as int;
    assert(s[n] == c);
    match text::first_of(s, c, c) {
        Some(i) => {
            if i < n {
                assert(s[i] == a[i]);
                assert(a.contains(a[i]));
            }
        },
        None => {
            assert(s[n] != c);
        },
    }
}

proof fn lemma_number_field(n: nat, c: char)
    requires
        !text::is_digit(c),
    ensures
        !text::decimal(n).contains(c),
        text::trimmed(text::decimal(n)) == text::decimal(n),
{
    terminal::lemma_digits_hold_no_other(n, c);
    text::law_decimal_reads_back(n);
    let d = text::decimal(n);
    assert(text::is_digit(d[0]) && text::is_digit(d[d.len() - 1]));
    text::law_nothing_to_trim(d);
}

proof fn lemma_fields_read_back(h: nat, w: nat)
    requires
        0 < h <= u32::MAX,
        0 < w <= u32::MAX,
    ensures
        cell_of_fields(text::decimal(h) + seq![';'] + text::decimal(w)) == Some(
            (at_most(w, 256), at_most(h, 256)),
        ),
{
    let (a, b) = (text::decimal(h), text::decimal(w));
    let s = a + seq![';'] + b;
    lemma_number_field(h, ';');
    lemma_number_field(w, ';');
    lemma_first_char(a, ';', b);
    assert(s.take(a.len() as int) =~= a);
    assert(s.skip(a.len() as int + 1) =~= b);
    text::law_first_of_two(b, ';', ';');
    if let Some(j) = text::first_of(b, ';', ';') {
        assert(b.contains(b[j]));
    }
    text::law_number_reads_back(h, u32::MAX as nat);
    text::law_number_reads_back(w, u32::MAX as nat);
}

/// An answer of the terminal, with the height before the width, is read back whatever was typed before
/// it, other than an escape character, and whatever comes behind it.
pub proof fn law_answer_reads_back(typed: Seq<char>, h: nat, w: nat, behind: Seq<char>)
    requires
        0 < h <= u32::MAX,
        0 < w <= u32::MAX,
        !typed.contains(terminal::ESC),
    ensures
        answered_cell(
            encode_utf8(
                typed + "\x1b[6;"@ + text::decimal(h) + seq![';'] + text::decimal(w) + seq!['t']
                    + behind,
            ),
        ) == Some((at_most(w, 256), at_most(h, 256))),
{
    reveal_strlit("\x1b[6;");
    let fields = text::decimal(h) + seq![';'] + text::decimal(w);
    let s = typed + "\x1b[6;"@ + text::decimal(h) + seq![';'] + text::decimal(w) + seq!['t']
        + behind;
    encode_utf8_valid_utf8(s);
    encode_utf8_decode_utf8(s);
    let n = typed.len() as int;
    let mark = "\x1b[6;"@;
    assert(s.subrange(n, n + 4) =~= mark);
    assert(text::occurs_at(s, mark, n));
    assert forall|j: int| j < n implies !#[trigger] text::occurs_at(s, mark, j) by {
        if text::occurs_at(s, mark, j) {
            assert(s.subrange(j, j + 4)[0] == terminal::ESC);
            assert(s[j] == typed[j]);
            assert(typed.contains(typed[j]));
        }
    }
    lemma_first_at(s, mark, n);
    let rest = s.skip(n + 4);
    assert(rest =~= fields + seq!['t'] + behind);
    lemma_number_field(h, 't');
    lemma_number_field(w, 't');
    assert forall|i: int| 0 <= i < fields.len() implies fields[i] != 't' by {
        let a = text::decimal(h);
        if i < a.len() {
            assert(a.contains(a[i]));
        } else if i > a.len() {
            let b = text::decimal(w);
            assert(b.contains(b[i - a.len() - 1]));
        }
    }
    lemma_first_char(fields, 't', behind);
    assert(rest.take(fields.len() as int) =~= fields);
    lemma_fields_read_back(h, w);
}

/// The size of a framebuffer that the system writes, the width before the height, is read back.
pub proof fn law_framebuffer_size_reads_back(w: nat, h: nat)
    requires
        w <= u32::MAX,
        h <= u32::MAX,
    ensures
        framebuffer_size(text::decimal(w) + seq![','] + text::decimal(h) + seq!['\n']) == Some((w, h)),
        framebuffer_size(text::decimal(w) + seq![','] + text::decimal(h)) == Some((w, h)),
{
    let (a, b) = (text::decimal(w), text::decimal(h));
    let t = a + seq![','] + b;
    let s = a + seq![','] + b + seq!['\n'];
    lemma_number_field(w, ',');
    text::law_decimal_reads_back(w);
    text::law_decimal_reads_back(h);
    assert(text::is_digit(a[0]) && text::is_digit(b[b.len() - 1]));
    assert(t[0] == a[0] && t.last() == b[b.len() - 1]);
    text::law_nothing_to_trim(t);
    assert(text::trimmed(s) == t) by {
        let (i, j) = text::law_only_white_space_is_trimmed(s);
        if i > 0 {
            assert(text::is_space(s[0]));
        }
        if j < t.len() {
            assert(text::is_space(s[t.len() - 1]));
        }
        assert(s[s.len() - 1] == '\n');
        assert(s.subrange(0, t.len() as int) =~= t);
    }
    lemma_first_char(a, ',', b);
    assert(t.take(a.len() as int) =~= a);
    assert(t.skip(a.len() as int + 1) =~= b);
    text::law_number_reads_back(w, u32::MAX as nat);
    text::law_number_reads_back(h, u32::MAX as nat);
}

/// How large an image is drawn on a terminal. What the window reports in pixels counts as it is.
/// Otherwise its columns and rows do, as many times as a cell is wide and high; without the last row
/// where the image passes through tmux, and `scale` times as large where it is scaled into cells.
pub proof fn law_area_in_pixels_or_cells(
    name: Seq<char>,
    ws: WindowSize,
    cell: (nat, nat),
    scale: nat,
)
    ensures
        ws.width > 0 && ws.height > 0 ==> area(name, Some(ws), cell, scale).0 == ws.width && area(
            name,
            Some(ws),
            cell,
            scale,
        ).1 == ws.height,
        (ws.width == 0 || ws.height == 0) && ws.columns > 0 && ws.rows > 0 ==> {
            let spread = text::occurs(name, "placeholder"@);
            let free = text::occurs(name, "passthrough"@) && ws.rows > 1;
            let (w, h) = area(name, Some(ws), cell, scale);
            &&& !spread && !free ==> w == ws.columns * cell.0 && h == ws.rows * cell.1
            &&& !spread && free ==> w == ws.columns * cell.0 && h == (ws.rows - 1) * cell.1
            &&& spread && !free ==> w == ws.columns * cell.0 * scale && h == ws.rows * cell.1
                * scale
            &&& spread && free ==> w == ws.columns * cell.0 * scale && h == (ws.rows - 1) * cell.1
                * scale
        },
        !text::occurs(name, "placeholder"@) ==> area(name, None, cell, scale).0 == 1280 && area(
            name,
            None,
            cell,
            scale,
        ).1 == 800,
        text::occurs(name, "placeholder"@) ==> area(name, None, cell, scale).0 == 1280 * scale
            && area(name, None, cell, scale).1 == 800 * scale,
        (ws.width == 0 || ws.height == 0) && (ws.columns == 0 || ws.rows == 0) ==> area(
            name,
            Some(ws),
            cell,
            scale,
        ) == area(name, None, cell, scale),
{
    assert(ws.columns as nat * cell.0 * 1 == ws.columns * cell.0) by (nonlinear_arith);
    assert(ws.rows as nat * cell.1 * 1 == ws.rows * cell.1) by (nonlinear_arith);
}

/// A framebuffer whose size is known is filled; on a terminal, a cell that is not known counts as 8 by
/// 16 pixels.
pub proof fn law_framebuffer_is_filled(
    name: Seq<char>,
    size: (nat, nat),
    window: Option<WindowSize>,
    cell: (nat, nat),
    scale: nat,
)
    ensures
        text::begins_with(name, "framebuffer"@) ==> drawn_area(
            name,
            Some(size),
            window,
            Some(cell),
            scale,
        ) == size,
        !text::begins_with(name, "framebuffer"@) ==> drawn_area(
            name,
            Some(size),
            window,
            Some(cell),
            scale,
        ) == area(name, window, cell, scale),
        drawn_area(name, None, window, Some(cell), scale) == area(name, window, cell, scale),
        drawn_area(name, None, window, None, scale) == area(name, window, (8, 16), scale),
{
}

} // verus!
