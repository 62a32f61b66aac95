//! The kitty graphics protocol.
//!
//! An image is sent as RGBA, compressed and in base64, in chunks. It is either put at the cursor, or
//! sent without a place and shown by placeholder characters, each of which names the image by its
//! colour and a row and a column of the image by its marks. Placeholders are text, which tmux keeps
//! in its pane.
use crate::backend::{DisplayError, OutputBackend, Surroundings};
use crate::cells::WindowSize;
use crate::encoding;
use crate::encoding::base64_encode;
use crate::marks;
use crate::marks::{mark_table, MARK_COUNT};
use crate::terminal;
use crate::terminal::{push_cursor_to, push_passed};
use crate::text;
use crate::text::{chars_of, push_chars, push_decimal};
use flate2::write::ZlibEncoder;
use flate2::Compression;
use std::io::Write;
use vstd::prelude::*;
use vstd::slice::slice_subrange;

verus! {

/// The longest run of base64 text in one chunk.
pub const CHUNK: usize = 4096;

/// The placeholder character.
pub const PLACEHOLDER: char = '\u{10eeee}';

// ---------------------------------------------------------------------------
// Sending.

/// The zlib stream of `data`, compressed for speed.
pub uninterp spec fn zlib(data: Seq<u8>) -> Seq<u8>;

/// `ZlibEncoder` of the `flate2` crate, writing into a `Vec` at its fast level, gives a zlib stream
/// of the data. A stream is never empty: it has a header and a checksum.
#[verifier::external_body]
fn zlib_compress(data: &[u8]) -> (r: Vec<u8>)
    ensures
        r@ == zlib(data@),
        r@.len() > 0,
{
    let mut encoder = ZlibEncoder::new(Vec::new(), Compression::fast());
    let _ = encoder.write_all(data);
    encoder.finish().unwrap_or_default()
}

/// A graphics command: `ESC`, its body, and `ESC \`.
pub open spec fn command(body: Seq<char>, through_tmux: bool) -> Seq<char> {
    terminal::passed("\x1b"@ + body + "\x1b\\"@, through_tmux)
}

/// What stands before the base64 text of a chunk. The first chunk carries the control data; every
/// chunk says whether more follow.
pub open spec fn chunk_head(control: Seq<char>, first: bool, more: bool) -> Seq<char> {
    let m = if more {
        "1"@
    } else {
        "0"@
    };
    if first {
        "_G"@ + control + ",o=z,m="@ + m + ";"@
    } else {
        "_Gm="@ + m + ";"@
    }
}

/// The chunks of a base64 text: all but the last are as long as a chunk may be.
pub open spec fn chunks(payload: Seq<char>) -> Seq<Seq<char>>
    decreases payload.len(),
{
    if payload.len() == 0 {
        seq![]
    } else if payload.len() <= CHUNK {
        seq![payload]
    } else {
        seq![payload.take(CHUNK as int)] + chunks(payload.skip(CHUNK as int))
    }
}

/// The commands that send chunks. `first` says whether none was sent before them.
pub open spec fn sending(parts: Seq<Seq<char>>, control: Seq<char>, first: bool, through_tmux: bool) -> Seq<
    char,
>
    decreases parts.len(),
{
    if parts.len() == 0 {
        seq![]
    } else {
        command(
            chunk_head(control, first, parts.len() > 1) + parts[0],
            through_tmux,
        ) + sending(parts.drop_first(), control, false, through_tmux)
    }
}

/// The commands that send an image whose zlib stream is `packed`.
pub open spec fn sending_packed(packed: Seq<u8>, control: Seq<char>, through_tmux: bool) -> Seq<
    char,
> {
    sending(chunks(encoding::base64_text(packed)), control, true, through_tmux)
}

/// The commands that send an image.
pub open spec fn transmission(rgba: Seq<u8>, control: Seq<char>, through_tmux: bool) -> Seq<char> {
    sending_packed(zlib(rgba), control, through_tmux)
}

fn push_command(out: &mut String, body: &str, through_tmux: bool)
    ensures
        final(out)@ == old(out)@ + command(body@, through_tmux),
{
    let mut whole = "\x1b".to_owned();
    whole.append(body);
    whole.append("\x1b\\");
    push_passed(out, whole.as_str(), through_tmux);
}

fn push_chunk(
    out: &mut String,
    payload: &[char],
    control: &str,
    first: bool,
    more: bool,
    through_tmux: bool,
)
    ensures
        final(out)@ == old(out)@ + command(
            chunk_head(control@, first, more) + payload@,
            through_tmux,
        ),
{
    let mut body = String::new();
    if first {
        body.append("_G");
        body.append(control);
        body.append(",o=z,m=");
    } else {
        body.append("_Gm=");
    }
    if more {
        body.append("1");
    } else {
        body.append("0");
    }
    body.append(";");
    assert(body@ =~= chunk_head(control@, first, more));
    push_chars(&mut body, payload);
    push_command(out, body.as_str(), through_tmux);
}

/// Appends the commands that send an image whose zlib stream is `packed`.
pub fn transmit_packed(out: &mut String, packed: &[u8], control: &str, through_tmux: bool)
    ensures
        final(out)@ == old(out)@ + sending_packed(packed@, control@, through_tmux),
{
    let code = base64_encode(packed);
    let payload = chars_of(code.as_str());
    let total: usize = payload.len();
    let mut at: usize = 0;
    assert(payload@.skip(0) =~= payload@);
    assert(out@ + sending(chunks(payload@), control@, true, through_tmux) =~= old(out)@ + sending_packed(
        packed@,
        control@,
        through_tmux,
    ));
    while at < total
        invariant
            at <= total,
            total == payload@.len(),
            out@ + sending(chunks(payload@.skip(at as int)), control@, at == 0, through_tmux) =~= old(out)@
                + sending_packed(packed@, control@, through_tmux),
        decreases total - at,
    {
        let ghost rest = payload@.skip(at as int);
        let ghost before = out@;
        let more = total - at > CHUNK;
        let next: usize = if more {
            at + CHUNK
        } else {
            total
        };
        let part = slice_subrange(payload.as_slice(), at, next);
        push_chunk(out, part, control, at == 0, more, through_tmux);
        proof {
            if more {
                assert(part@ =~= rest.take(CHUNK as int));
                assert(rest.skip(CHUNK as int) =~= payload@.skip(next as int));
                assert(chunks(rest).drop_first() =~= chunks(payload@.skip(next as int)));
            } else {
                assert(part@ =~= rest);
                assert(payload@.skip(next as int) =~= Seq::<char>::empty());
                assert(chunks(rest).drop_first() =~= Seq::<Seq<char>>::empty());
            }
            assert(out@ + sending(
                chunks(payload@.skip(next as int)),
                control@,
                false,
                through_tmux,
            ) =~= before + sending(chunks(rest), control@, at == 0, through_tmux));
        }
        at = next;
    }
    assert(payload@.skip(at as int) =~= Seq::<char>::empty());
}

/// Appends the commands that send an image. At least one is sent, so that the control data always
/// is.
pub fn transmit(out: &mut String, rgba: &[u8], control: &str, through_tmux: bool)
    ensures
        final(out)@ == old(out)@ + transmission(rgba@, control@, through_tmux),
        chunks(encoding::base64_text(zlib(rgba@))).len() > 0,
{
    let packed = zlib_compress(rgba);
    proof {
        encoding::law_base64_length(packed@);
    }
    transmit_packed(out, packed.as_slice(), control, through_tmux);
}

/// The chunks of a text put together are the text, and none is empty or longer than a chunk may be.
pub proof fn law_chunks_make_up_the_text(payload: Seq<char>)
    ensures
        chunks(payload).flatten() == payload,
        forall|i: int|
            0 <= i < chunks(payload).len() ==> 0 < (#[trigger] chunks(payload)[i]).len() <= CHUNK,
    decreases payload.len(),
{
    if payload.len() > CHUNK {
        let rest = payload.skip(CHUNK as int);
        let head = payload.take(CHUNK as int);
        law_chunks_make_up_the_text(rest);
        let cs = chunks(payload);
        assert(cs.drop_first() =~= chunks(rest));
        assert(cs.flatten() =~= head + rest);
        assert(head + rest =~= payload);
        assert forall|i: int| 0 <= i < cs.len() implies 0 < (#[trigger] cs[i]).len() <= CHUNK by {
            if i > 0 {
                assert(cs[i] == chunks(rest)[i - 1]);
            }
        }
    } else if payload.len() > 0 {
        let cs = chunks(payload);
        reveal_with_fuel(Seq::<_>::flatten, 2);
        assert(cs.drop_first() =~= Seq::<Seq<char>>::empty());
        assert(cs.flatten() =~= payload);
    }
}

// ---------------------------------------------------------------------------
// Placeholders.

/// The lesser of two numbers.
pub open spec fn lesser(a: nat, b: nat) -> nat {
    if a < b {
        a
    } else {
        b
    }
}

/// How many cells `pixels` take up: at least one, at most `cells`, and no more than can be marked.
pub open spec fn cells_for(pixels: nat, cell: nat, cells: nat) -> nat {
    let n = pixels / cell;
    lesser(
        lesser(
            if n < 1 {
                1
            } else {
                n
            },
            cells,
        ),
        MARK_COUNT as nat,
    )
}

/// The columns and rows of cells that an image takes up. Cells of unknown size are taken as 8 by
/// 16, a window of unknown size as 80 by 24 cells.
pub open spec fn footprint(width: nat, height: nat, window: Option<WindowSize>) -> (nat, nat) {
    match window {
        Some(ws) if ws.columns > 0 && ws.rows > 0 => {
            let (cell_w, cell_h) = match crate::cells::reported_cell(window) {
                Some(cell) => cell,
                None => (8nat, 16nat),
            };
            (
                cells_for(width, cell_w, ws.columns as nat),
                cells_for(height, cell_h, ws.rows as nat),
            )
        },
        _ => (cells_for(width, 8, 80), cells_for(height, 16, 24)),
    }
}

fn count_cells(pixels: u32, cell: u32, cells: u32) -> (r: u32)
    requires
        cell > 0,
    ensures
        r == cells_for(pixels as nat, cell as nat, cells as nat),
{
    let mut n: u32 = pixels / cell;
    if n < 1 {
        n = 1;
    }
    if n > cells {
        n = cells;
    }
    if n > MARK_COUNT {
        n = MARK_COUNT;
    }
    n
}

/// The columns and rows of cells that an image takes up.
pub fn cell_footprint(width: u32, height: u32, window: Option<WindowSize>) -> (r: (u32, u32))
    ensures
        (r.0 as nat, r.1 as nat) == footprint(width as nat, height as nat, window),
        1 <= r.0 <= MARK_COUNT,
        1 <= r.1 <= MARK_COUNT,
{
    if let Some(ws) = window {
        if ws.columns > 0 && ws.rows > 0 {
            let (cell_w, cell_h) = match crate::cells::cell_of_window(window) {
                Some(cell) => cell,
                None => (8u32, 16u32),
            };
            return (
                count_cells(width, cell_w, ws.columns as u32),
                count_cells(height, cell_h, ws.rows as u32),
            );
        }
    }
    (count_cells(width, 8, 80), count_cells(height, 16, 24))
}

/// The cells of the first `n` columns of a row: in each a placeholder with the marks of the row and
/// the column.
pub open spec fn row_cells(row: nat, n: nat) -> Seq<char>
    decreases n,
{
    if n == 0 {
        seq![]
    } else {
        row_cells(row, (n - 1) as nat) + seq![
            PLACEHOLDER,
            marks::mark(row),
            marks::mark((n - 1) as nat),
        ]
    }
}

/// The first `n` rows of placeholders, each from the first column of its row.
pub open spec fn placeholder_rows(columns: nat, n: nat) -> Seq<char>
    decreases n,
{
    if n == 0 {
        seq![]
    } else {
        placeholder_rows(columns, (n - 1) as nat) + terminal::cursor_to(n, 1) + row_cells(
            (n - 1) as nat,
            columns,
        )
    }
}

/// The colour that names an image: red, green and blue are the three bytes of its number.
pub open spec fn colour_of(id: nat) -> Seq<char> {
    "\x1b[38;2;"@ + text::decimal(id / 65536 % 256) + ";"@ + text::decimal(id / 256 % 256) + ";"@
        + text::decimal(id % 256) + "m"@
}

/// The placeholders of an image.
pub open spec fn placeholders(id: nat, columns: nat, rows: nat) -> Seq<char> {
    colour_of(id) + placeholder_rows(columns, rows) + "\x1b[0m"@
}

fn push_placeholders(out: &mut String, id: u32, columns: u32, rows: u32)
    requires
        columns <= MARK_COUNT,
        rows <= MARK_COUNT,
    ensures
        final(out)@ == old(out)@ + placeholders(id as nat, columns as nat, rows as nat),
{
    out.append("\x1b[38;2;");
    push_decimal(out, (id / 65536 % 256) as u64);
    out.append(";");
    push_decimal(out, (id / 256 % 256) as u64);
    out.append(";");
    push_decimal(out, (id % 256) as u64);
    out.append("m");
    assert(out@ =~= old(out)@ + colour_of(id as nat));
    let table = mark_table();
    let ghost head = out@;
    assert(head =~= head + placeholder_rows(columns as nat, 0));
    for y in 0..rows
        invariant
            columns <= MARK_COUNT,
            rows <= MARK_COUNT,
            table@.len() == MARK_COUNT,
            forall|n: nat| n < MARK_COUNT ==> #[trigger] table@[n as int] == marks::mark(n),
            out@ == head + placeholder_rows(columns as nat, y as nat),
    {
        let ghost above = out@;
        push_cursor_to(out, y as u64 + 1, 1);
        let ghost start = out@;
        assert(start =~= start + row_cells(y as nat, 0));
        for x in 0..columns
            invariant
                columns <= MARK_COUNT,
                y < rows <= MARK_COUNT,
                table@.len() == MARK_COUNT,
                forall|n: nat| n < MARK_COUNT ==> #[trigger] table@[n as int] == marks::mark(n),
                out@ == start + row_cells(y as nat, x as nat),
        {
            let ghost before = out@;
            out.push(PLACEHOLDER);
            out.push(table[y as usize]);
            out.push(table[x as usize]);
            assert(table@[y as nat as int] == marks::mark(y as nat));
            assert(table@[x as nat as int] == marks::mark(x as nat));
            assert(out@ =~= before + seq![PLACEHOLDER, marks::mark(y as nat), marks::mark(
                x as nat,
            )]);
            assert(out@ =~= start + row_cells(y as nat, (x + 1) as nat));
        }
        assert(out@ =~= head + placeholder_rows(columns as nat, (y + 1) as nat));
    }
    out.append("\x1b[0m");
    assert(out@ =~= old(out)@ + placeholders(id as nat, columns as nat, rows as nat));
}

/// The colour of a placeholder names its image: the number is made up of the three components.
pub proof fn law_colour_names_the_image(id: nat)
    requires
        id < 0x100_0000,
    ensures
        id / 65536 % 256 * 65536 + id / 256 % 256 * 256 + id % 256 == id,
{
}

// ---------------------------------------------------------------------------
// The backend.

/// What distinguishes the second of the two image numbers of a viewer from the first.
pub const SECOND: u32 = 0x80_0000;

/// The state of a backend.
pub struct KittyState {
    /// Whether commands pass through tmux.
    pub through_tmux: bool,
    /// Whether images are shown by placeholders.
    pub placeholder: bool,
    /// The first of the two image numbers of this viewer.
    pub base: nat,
    /// Whether the last image sent had the second number.
    pub second: bool,
    /// The number of the image that is shown.
    pub live: Option<nat>,
    /// The columns and rows of the placeholders that are shown.
    pub shown: Option<(nat, nat)>,
}

impl KittyState {
    /// The first or the second image number.
    pub open spec fn id(self, second: bool) -> nat {
        if second {
            self.base + SECOND as nat
        } else {
            self.base
        }
    }

    /// The number of the next image: the one that the last image did not have.
    pub open spec fn next_id(self) -> nat {
        self.id(!self.second)
    }

    /// The image numbers are three bytes long and not zero, and the image that is shown is the last
    /// one sent.
    pub open spec fn wf(self) -> bool {
        &&& 0 < self.base < SECOND
        &&& self.live matches Some(id) ==> id == self.id(self.second)
    }

    /// The command that frees an image.
    pub open spec fn freeing(self, id: nat) -> Seq<char> {
        command("_Ga=d,d=I,i="@ + text::decimal(id), self.through_tmux)
    }

    /// The commands that free both images.
    pub open spec fn freeing_both(self) -> Seq<char> {
        self.freeing(self.base) + self.freeing(self.base + SECOND as nat)
    }

    /// The command that frees the image that is shown, if one is.
    pub open spec fn freeing_live(self) -> Seq<char> {
        match self.live {
            Some(id) => self.freeing(id),
            None => seq![],
        }
    }

    /// What shows an image at the top left corner: it is sent while the last image still stands,
    /// which is freed when it is covered.
    pub open spec fn direct(self, rgba: Seq<u8>, width: nat, height: nat) -> Seq<char> {
        let control = "a=T,q=2,i="@ + text::decimal(self.next_id()) + ",f=32,s="@ + text::decimal(
            width,
        ) + ",v="@ + text::decimal(height);
        "\x1b[H"@ + transmission(rgba, control, self.through_tmux) + self.freeing_live()
    }

    /// What shows an image by placeholders: it is sent without a place, then the placeholders are
    /// written over those of the last image, then the last image is freed. The screen is cleared
    /// first only where the image takes up other cells than the last.
    pub open spec fn by_placeholders(
        self,
        rgba: Seq<u8>,
        width: nat,
        height: nat,
        columns: nat,
        rows: nat,
    ) -> Seq<char> {
        let control = "a=T,q=2,U=1,i="@ + text::decimal(self.next_id()) + ",f=32,s="@
            + text::decimal(width) + ",v="@ + text::decimal(height) + ",c="@ + text::decimal(
            columns,
        ) + ",r="@ + text::decimal(rows);
        let cleared = if self.shown == Some((columns, rows)) {
            seq![]
        } else {
            "\x1b[2J\x1b[H"@
        };
        cleared + transmission(rgba, control, self.through_tmux) + placeholders(
            self.next_id(),
            columns,
            rows,
        ) + self.freeing_live()
    }

    /// What shows an image.
    pub open spec fn displaying(
        self,
        rgba: Seq<u8>,
        width: nat,
        height: nat,
        window: Option<WindowSize>,
    ) -> Seq<char> {
        if self.placeholder {
            let (columns, rows) = footprint(width, height, window);
            self.by_placeholders(rgba, width, height, columns, rows)
        } else {
            self.direct(rgba, width, height)
        }
    }

    /// The state after an image is shown.
    pub open spec fn after_display(
        self,
        width: nat,
        height: nat,
        window: Option<WindowSize>,
    ) -> KittyState {
        KittyState {
            second: !self.second,
            live: Some(self.next_id()),
            shown: if self.placeholder {
                Some(footprint(width, height, window))
            } else {
                self.shown
            },
            ..self
        }
    }

    /// The state after the screen is cleared.
    pub open spec fn after_clear(self) -> KittyState {
        KittyState { live: None, shown: None, ..self }
    }
}

/// Shows images in a terminal that knows the kitty graphics protocol. Every viewer has two image
/// numbers of its own, made from its process number, and uses them in turn: an image is sent under
/// the one number while the image of the other is shown, which is then freed.
pub struct KittyBackend {
    through_tmux: bool,
    placeholder: bool,
    base: u32,
    second: bool,
    live: Option<u32>,
    shown: Option<(u32, u32)>,
}

impl View for KittyBackend {
    type V = KittyState;

    closed spec fn view(&self) -> KittyState {
        KittyState {
            through_tmux: self.through_tmux,
            placeholder: self.placeholder,
            base: self.base as nat,
            second: self.second,
            live: match self.live {
                Some(id) => Some(id as nat),
                None => None,
            },
            shown: crate::cells::pair(self.shown),
        }
    }
}

/// The first image number of the viewer with the process number `pid`: its lowest 23 bits, or one.
pub open spec fn base_of(pid: nat) -> nat {
    if pid % (SECOND as nat) == 0 {
        1
    } else {
        pid % (SECOND as nat)
    }
}

impl KittyBackend {
    /// The image numbers are in range, and the image that is shown is the last one sent.
    #[verifier::type_invariant]
    spec fn inv(self) -> bool {
        self@.wf()
    }

    fn starting(through_tmux: bool, placeholder: bool, pid: u32) -> (r: Self)
        ensures
            r@ == (KittyState {
                through_tmux,
                placeholder,
                base: base_of(pid as nat),
                second: false,
                live: None,
                shown: None,
            }),
            r@.wf(),
    {
        let low: u32 = pid % SECOND;
        KittyBackend {
            through_tmux,
            placeholder,
            base: if low == 0 {
                1
            } else {
                low
            },
            second: false,
            live: None,
            shown: None,
        }
    }

    /// A backend for the viewer with the process number `pid`. Inside tmux, commands pass through
    /// it and images are shown by placeholders.
    pub fn new(tmux: bool, pid: u32) -> (r: Self)
        ensures
            r@ == (KittyState {
                through_tmux: tmux,
                placeholder: tmux,
                base: base_of(pid as nat),
                second: false,
                live: None,
                shown: None,
            }),
            r@.wf(),
    {
        Self::starting(tmux, tmux, pid)
    }

    /// A backend that shows images by placeholders, for a terminal that takes commands as they are
    /// but reports no cell size.
    pub fn placeholder_raw(pid: u32) -> (r: Self)
        ensures
            r@ == (KittyState {
                through_tmux: false,
                placeholder: true,
                base: base_of(pid as nat),
                second: false,
                live: None,
                shown: None,
            }),
            r@.wf(),
    {
        Self::starting(false, true, pid)
    }

    fn push_freeing(&self, out: &mut String, id: u32)
        ensures
            final(out)@ == old(out)@ + self@.freeing(id as nat),
    {
        let mut body = "_Ga=d,d=I,i=".to_owned();
        push_decimal(&mut body, id as u64);
        push_command(out, body.as_str(), self.through_tmux);
    }

    fn push_freeing_live(&self, out: &mut String)
        ensures
            final(out)@ == old(out)@ + self@.freeing_live(),
    {
        if let Some(id) = self.live {
            self.push_freeing(out, id);
        }
        assert(out@ =~= old(out)@ + self@.freeing_live());
    }

    fn push_freeing_both(&self, out: &mut String)
        ensures
            final(out)@ == old(out)@ + self@.freeing_both(),
    {
        proof {
            use_type_invariant(self);
        }
        self.push_freeing(out, self.base);
        self.push_freeing(out, self.base + SECOND);
        assert(out@ =~= old(out)@ + self@.freeing_both());
    }

    /// The number of the next image.
    fn next_id(&self) -> (r: u32)
        ensures
            r == self@.next_id(),
    {
        proof {
            use_type_invariant(self);
        }
        if self.second {
            self.base
        } else {
            self.base + SECOND
        }
    }

    fn display_direct(&self, out: &mut String, rgba: &[u8], width: u32, height: u32)
        ensures
            final(out)@ == old(out)@ + self@.direct(rgba@, width as nat, height as nat),
    {
        let mut control = "a=T,q=2,i=".to_owned();
        push_decimal(&mut control, self.next_id() as u64);
        control.append(",f=32,s=");
        push_decimal(&mut control, width as u64);
        control.append(",v=");
        push_decimal(&mut control, height as u64);
        out.append("\x1b[H");
        transmit(out, rgba, control.as_str(), self.through_tmux);
        self.push_freeing_live(out);
        assert(out@ =~= old(out)@ + self@.direct(rgba@, width as nat, height as nat));
    }

    fn display_placeholder(
        &self,
        out: &mut String,
        rgba: &[u8],
        width: u32,
        height: u32,
        columns: u32,
        rows: u32,
    )
        requires
            columns <= MARK_COUNT,
            rows <= MARK_COUNT,
        ensures
            final(out)@ == old(out)@ + self@.by_placeholders(
                rgba@,
                width as nat,
                height as nat,
                columns as nat,
                rows as nat,
            ),
    {
        let same = match self.shown {
            Some((c, r)) => c == columns && r == rows,
            None => false,
        };
        if !same {
            out.append("\x1b[2J\x1b[H");
        }
        let mut control = "a=T,q=2,U=1,i=".to_owned();
        let id = self.next_id();
        push_decimal(&mut control, id as u64);
        control.append(",f=32,s=");
        push_decimal(&mut control, width as u64);
        control.append(",v=");
        push_decimal(&mut control, height as u64);
        control.append(",c=");
        push_decimal(&mut control, columns as u64);
        control.append(",r=");
        push_decimal(&mut control, rows as u64);
        transmit(out, rgba, control.as_str(), self.through_tmux);
        push_placeholders(out, id, columns, rows);
        self.push_freeing_live(out);
        assert(out@ =~= old(out)@ + self@.by_placeholders(
            rgba@,
            width as nat,
            height as nat,
            columns as nat,
            rows as nat,
        ));
    }
}

impl OutputBackend for KittyBackend {
    fn name(&self) -> (r: &'static str)
        ensures
            r@ == (if self@.through_tmux {
                "kitty (tmux placeholder)"@
            } else if self@.placeholder {
                "kitty (placeholder)"@
            } else {
                "kitty"@
            }),
    {
        if self.through_tmux {
            "kitty (tmux placeholder)"
        } else if self.placeholder {
            "kitty (placeholder)"
        } else {
            "kitty"
        }
    }

    fn is_supported(&self, device_exists: bool) -> (r: bool)
        ensures
            r,
    {
        true
    }

    fn device(&self) -> (r: Option<&str>)
        ensures
            r is None,
    {
        None
    }

    fn display(&mut self, rgba: &[u8], width: u32, height: u32, around: &Surroundings) -> (r: Result<
        String,
        DisplayError,
    >)
        ensures
            r matches Ok(out) && out@ == old(self)@.displaying(
                rgba@,
                width as nat,
                height as nat,
                around.window,
            ),
            final(self)@ == old(self)@.after_display(width as nat, height as nat, around.window),
    {
        proof {
            use_type_invariant(&*self);
        }
        let mut out = String::new();
        let id = self.next_id();
        let second = !self.second;
        let mut shown = self.shown;
        if self.placeholder {
            let (columns, rows) = cell_footprint(width, height, around.window);
            self.display_placeholder(&mut out, rgba, width, height, columns, rows);
            shown = Some((columns, rows));
        } else {
            self.display_direct(&mut out, rgba, width, height);
        }
        assert(out@ =~= self@.displaying(rgba@, width as nat, height as nat, around.window));
        *self =
        KittyBackend {
            through_tmux: self.through_tmux,
            placeholder: self.placeholder,
            base: self.base,
            second,
            live: Some(id),
            shown,
        };
        Ok(out)
    }

    fn enter(&mut self) -> (r: String)
        ensures
            r@ == "\x1b[?1049h\x1b[?25l"@,
            final(self)@ == old(self)@,
    {
        "\x1b[?1049h\x1b[?25l".to_owned()
    }

    fn leave(&mut self) -> (r: String)
        ensures
            r@ == old(self)@.freeing_both() + "\x1b[0m\x1b[?25h\x1b[?1049l"@,
            final(self)@ == old(self)@,
    {
        let mut out = String::new();
        self.push_freeing_both(&mut out);
        out.append("\x1b[0m\x1b[?25h\x1b[?1049l");
        assert(out@ =~= self@.freeing_both() + "\x1b[0m\x1b[?25h\x1b[?1049l"@);
        out
    }

    fn clear(&mut self) -> (r: String)
        ensures
            r@ == old(self)@.freeing_both() + "\x1b[2J\x1b[H"@,
            final(self)@ == old(self)@.after_clear(),
    {
        proof {
            use_type_invariant(&*self);
        }
        let mut out = String::new();
        self.push_freeing_both(&mut out);
        out.append("\x1b[2J\x1b[H");
        assert(out@ =~= self@.freeing_both() + "\x1b[2J\x1b[H"@);
        self.live = None;
        self.shown = None;
        out
    }

    fn redraw(&mut self, around: &Surroundings) -> (r: String)
        ensures
            r@.len() == 0,
            final(self)@ == old(self)@,
    {
        String::new()
    }

    fn wants_periodic_redraw(&self) -> (r: bool)
        ensures
            !r,
    {
        false
    }
}

/// The images that a terminal holds after one more is sent and the last is freed.
pub open spec fn held_after(held: Set<nat>, s: KittyState) -> Set<nat> {
    match s.live {
        Some(id) => held.insert(s.next_id()).remove(id),
        None => held.insert(s.next_id()),
    }
}

/// However many images are shown, the terminal holds one image of this viewer between two of them:
/// the one that is shown. The image that is freed is never the one that was just sent, and no
/// number is sent again before its image was freed.
pub proof fn law_terminal_holds_one_image(
    held: Set<nat>,
    s: KittyState,
    width: nat,
    height: nat,
    window: Option<WindowSize>,
)
    requires
        s.wf(),
        held == (match s.live {
            Some(id) => set![id],
            None => Set::<nat>::empty(),
        }),
    ensures
        !held.contains(s.next_id()),
        s.after_display(width, height, window).wf(),
        s.after_display(width, height, window).live == Some(s.next_id()),
        held_after(held, s) == set![s.next_id()],
        s.after_display(width, height, window).next_id() != s.next_id(),
{
    assert(held_after(held, s) =~= set![s.next_id()]);
}

/// Two viewers whose process numbers differ in their lowest 23 bits, where they are not zero and one,
/// use different image numbers, so that neither frees or replaces an image of the other.
pub proof fn law_viewers_do_not_share_images(p: nat, q: nat, a: bool, b: bool)
    requires
        p % (SECOND as nat) != q % (SECOND as nat),
        !(p % (SECOND as nat) == 0 && q % (SECOND as nat) == 1),
        !(p % (SECOND as nat) == 1 && q % (SECOND as nat) == 0),
    ensures
        forall|s: KittyState, t: KittyState|
            s.base == base_of(p) && t.base == base_of(q) ==> #[trigger] s.id(a) != #[trigger] t.id(
                b,
            ),
{
}

// ---------------------------------------------------------------------------
// What a terminal reads of a command.

/// What a terminal finds under a key in the control data of a command: keys and values, with `=`
/// between a key and its value and `,` between two pairs.
pub open spec fn value_of(control: Seq<char>, key: char) -> Option<Seq<char>>
    decreases control.len(),
{
    let field = terminal::up_to(control, ',');
    if field.len() >= 2 && field[0] == key && field[1] == '=' {
        Some(field.skip(2))
    } else if field.len() >= control.len() {
        None
    } else {
        value_of(control.skip(field.len() as int + 1), key)
    }
}

/// What reaches the terminal of what is written first: where it passes through tmux, what tmux hands
/// on of it.
pub open spec fn arrives(out: Seq<char>, through_tmux: bool) -> Seq<char> {
    if through_tmux {
        match terminal::unwrapped(out.skip(7)) {
            Some(s) => s,
            None => seq![],
        }
    } else {
        out
    }
}

/// The control data of the command that `out` begins with, as the terminal reads it: what stands
/// between `ESC _ G` and the `;`. `None` where `out` begins with no command.
pub open spec fn control_of(out: Seq<char>, through_tmux: bool) -> Option<Seq<char>> {
    let s = arrives(out, through_tmux);
    if s.len() >= 3 && s.take(3) == seq![terminal::ESC, '_', 'G'] {
        Some(terminal::up_to(s.skip(3), ';'))
    } else {
        None
    }
}

/// Whether control data tells the terminal what the image is: RGBA, compressed, `width` by `height`
/// pixels, numbered `id`, and to be shown.
pub open spec fn declares(control: Seq<char>, id: nat, width: nat, height: nat) -> bool {
    &&& value_of(control, 'a') == Some(seq!['T'])
    &&& value_of(control, 'q') == Some(seq!['2'])
    &&& value_of(control, 'i') == Some(text::decimal(id))
    &&& value_of(control, 'f') == Some(seq!['3', '2'])
    &&& value_of(control, 's') == Some(text::decimal(width))
    &&& value_of(control, 'v') == Some(text::decimal(height))
    &&& value_of(control, 'o') == Some(seq!['z'])
}

/// A key with its value, and the pairs that follow it.
#[verifier::opaque]
spec fn pair(k: char, v: Seq<char>, rest: Seq<char>) -> Seq<char> {
    seq![k, '='] + v + seq![','] + rest
}

proof fn lemma_field(k: char, v: Seq<char>, rest: Seq<char>, key: char)
    requires
        k != ',',
        !v.contains(','),
    ensures
        value_of(pair(k, v, rest), key) == (if k == key {
            Some(v)
        } else {
            value_of(rest, key)
        }),
{
    reveal(pair);
    let field = seq![k, '='] + v;
    let whole = pair(k, v, rest);
    assert forall|i: int| 0 <= i < field.len() implies field[i] != ',' by {
        if i >= 2 {
            assert(v[i - 2] != ',');
        }
    }
    terminal::lemma_up_to(field, ',', seq![','] + rest);
    assert(whole =~= field + (seq![','] + rest));
    assert(field.skip(2) =~= v);
    assert(whole.skip(field.len() as int + 1) =~= rest);
}

/// What stands behind the size of an image in control data.
spec fn ending(more: bool) -> Seq<char> {
    seq!['m', '=', if more {
        '1'
    } else {
        '0'
    }]
}

proof fn lemma_direct_control(i: Seq<char>, w: Seq<char>, h: Seq<char>, more: bool) -> (read: Seq<
    char,
>)
    ensures
        read == "a=T,q=2,i="@ + i + ",f=32,s="@ + w + ",v="@ + h + seq![
            ',',
            'o',
            '=',
            'z',
            ',',
            'm',
            '=',
            if more {
                '1'
            } else {
                '0'
            },
        ],
        read == pair(
            'a',
            seq!['T'],
            pair(
                'q',
                seq!['2'],
                pair(
                    'i',
                    i,
                    pair(
                        'f',
                        seq!['3', '2'],
                        pair('s', w, pair('v', h, pair('o', seq!['z'], ending(more)))),
                    ),
                ),
            ),
        ),
{
    reveal_strlit("a=T,q=2,i=");
    reveal_strlit(",f=32,s=");
    reveal_strlit(",v=");
    reveal(pair);
    let end = pair('o', seq!['z'], ending(more));
    let size = pair('s', w, pair('v', h, end));
    assert(size =~= seq!['s', '='] + w + ",v="@ + h + (seq![','] + end));
    let format = pair('f', seq!['3', '2'], size);
    assert(seq![','] + format =~= ",f=32,s="@ + w + ",v="@ + h + (seq![','] + end));
    let read = pair('a', seq!['T'], pair('q', seq!['2'], pair('i', i, format)));
    assert(read =~= "a=T,q=2,i="@ + i + (seq![','] + format));
    assert(read =~= "a=T,q=2,i="@ + i + ",f=32,s="@ + w + ",v="@ + h + (seq![','] + end));
    assert(seq![','] + end =~= seq![
        ',',
        'o',
        '=',
        'z',
        ',',
        'm',
        '=',
        if more {
            '1'
        } else {
            '0'
        },
    ]);
    read
}

proof fn lemma_cells_control(
    i: Seq<char>,
    w: Seq<char>,
    h: Seq<char>,
    c: Seq<char>,
    r: Seq<char>,
    more: bool,
) -> (read: Seq<char>)
    ensures
        read == "a=T,q=2,U=1,i="@ + i + ",f=32,s="@ + w + ",v="@ + h + ",c="@ + c + ",r="@ + r
            + seq![
            ',',
            'o',
            '=',
            'z',
            ',',
            'm',
            '=',
            if more {
                '1'
            } else {
                '0'
            },
        ],
        read == pair(
            'a',
            seq!['T'],
            pair(
                'q',
                seq!['2'],
                pair(
                    'U',
                    seq!['1'],
                    pair(
                        'i',
                        i,
                        pair(
                            'f',
                            seq!['3', '2'],
                            pair(
                                's',
                                w,
                                pair(
                                    'v',
                                    h,
                                    pair(
                                        'c',
                                        c,
                                        pair('r', r, pair('o', seq!['z'], ending(more))),
                                    ),
                                ),
                            ),
                        ),
                    ),
                ),
            ),
        ),
{
    reveal_strlit("a=T,q=2,U=1,i=");
    reveal_strlit(",f=32,s=");
    reveal_strlit(",v=");
    reveal_strlit(",c=");
    reveal_strlit(",r=");
    reveal(pair);
    let end = pair('o', seq!['z'], ending(more));
    let cells = pair('c', c, pair('r', r, end));
    assert(seq![','] + cells =~= ",c="@ + c + ",r="@ + r + (seq![','] + end));
    let size = pair('s', w, pair('v', h, cells));
    assert(size =~= seq!['s', '='] + w + ",v="@ + h + (seq![','] + cells));
    let format = pair('f', seq!['3', '2'], size);
    assert(seq![','] + format =~= ",f=32,s="@ + w + ",v="@ + h + (seq![','] + cells));
    let read = pair(
        'a',
        seq!['T'],
        pair('q', seq!['2'], pair('U', seq!['1'], pair('i', i, format))),
    );
    assert(read =~= "a=T,q=2,U=1,i="@ + i + (seq![','] + format));
    assert(read =~= "a=T,q=2,U=1,i="@ + i + ",f=32,s="@ + w + ",v="@ + h + (seq![','] + cells));
    assert(read =~= "a=T,q=2,U=1,i="@ + i + ",f=32,s="@ + w + ",v="@ + h + ",c="@ + c + ",r="@ + r
        + (seq![','] + end));
    assert(seq![','] + end =~= seq![
        ',',
        'o',
        '=',
        'z',
        ',',
        'm',
        '=',
        if more {
            '1'
        } else {
            '0'
        },
    ]);
    read
}

proof fn lemma_no_semicolon(i: Seq<char>, w: Seq<char>, h: Seq<char>)
    requires
        !i.contains(';'),
        !w.contains(';'),
        !h.contains(';'),
    ensures
        !("a=T,q=2,i="@ + i + ",f=32,s="@ + w + ",v="@ + h).contains(';'),
        !("a=T,q=2,U=1,i="@ + i + ",f=32,s="@ + w + ",v="@ + h).contains(';'),
{
    reveal_strlit("a=T,q=2,i=");
    reveal_strlit("a=T,q=2,U=1,i=");
    reveal_strlit(",f=32,s=");
    reveal_strlit(",v=");
    lemma_free_of("a=T,q=2,i="@, i, ';');
    lemma_free_of("a=T,q=2,i="@ + i, ",f=32,s="@, ';');
    lemma_free_of("a=T,q=2,i="@ + i + ",f=32,s="@, w, ';');
    lemma_free_of("a=T,q=2,i="@ + i + ",f=32,s="@ + w, ",v="@, ';');
    lemma_free_of("a=T,q=2,i="@ + i + ",f=32,s="@ + w + ",v="@, h, ';');
    lemma_free_of("a=T,q=2,U=1,i="@, i, ';');
    lemma_free_of("a=T,q=2,U=1,i="@ + i, ",f=32,s="@, ';');
    lemma_free_of("a=T,q=2,U=1,i="@ + i + ",f=32,s="@, w, ';');
    lemma_free_of("a=T,q=2,U=1,i="@ + i + ",f=32,s="@ + w, ",v="@, ';');
    lemma_free_of("a=T,q=2,U=1,i="@ + i + ",f=32,s="@ + w + ",v="@, h, ';');
}

proof fn lemma_single(a: char, c: char)
    requires
        a != c,
    ensures
        !seq![a].contains(c),
{
    assert(seq![a][0] == a);
}

proof fn lemma_read_direct(i: Seq<char>, w: Seq<char>, h: Seq<char>, more: bool, read: Seq<char>, key: char)
    requires
        !i.contains(','),
        !w.contains(','),
        !h.contains(','),
        read == pair(
            'a',
            seq!['T'],
            pair(
                'q',
                seq!['2'],
                pair(
                    'i',
                    i,
                    pair(
                        'f',
                        seq!['3', '2'],
                        pair('s', w, pair('v', h, pair('o', seq!['z'], ending(more)))),
                    ),
                ),
            ),
        ),
    ensures
        value_of(read, key) == (if key == 'a' {
            Some(seq!['T'])
        } else if key == 'q' {
            Some(seq!['2'])
        } else if key == 'i' {
            Some(i)
        } else if key == 'f' {
            Some(seq!['3', '2'])
        } else if key == 's' {
            Some(w)
        } else if key == 'v' {
            Some(h)
        } else if key == 'o' {
            Some(seq!['z'])
        } else {
            value_of(ending(more), key)
        }),
{
    let f_o = pair('o', seq!['z'], ending(more));
    let f_v = pair('v', h, f_o);
    let f_s = pair('s', w, f_v);
    let f_f = pair('f', seq!['3', '2'], f_s);
    let f_i = pair('i', i, f_f);
    let f_q = pair('q', seq!['2'], f_i);
    lemma_single('T', ',');
    lemma_single('2', ',');
    lemma_single('z', ',');
    assert(!seq!['3', '2'].contains(','));
    lemma_field('a', seq!['T'], f_q, key);
    lemma_field('q', seq!['2'], f_i, key);
    lemma_field('i', i, f_f, key);
    lemma_field('f', seq!['3', '2'], f_s, key);
    lemma_field('s', w, f_v, key);
    lemma_field('v', h, f_o, key);
    lemma_field('o', seq!['z'], ending(more), key);
}

proof fn lemma_read_cells(
    i: Seq<char>,
    w: Seq<char>,
    h: Seq<char>,
    c: Seq<char>,
    r: Seq<char>,
    more: bool,
    read: Seq<char>,
    key: char,
)
    requires
        !i.contains(','),
        !w.contains(','),
        !h.contains(','),
        !c.contains(','),
        !r.contains(','),
        read == pair(
            'a',
            seq!['T'],
            pair(
                'q',
                seq!['2'],
                pair(
                    'U',
                    seq!['1'],
                    pair(
                        'i',
                        i,
                        pair(
                            'f',
                            seq!['3', '2'],
                            pair(
                                's',
                                w,
                                pair(
                                    'v',
                                    h,
                                    pair(
                                        'c',
                                        c,
                                        pair('r', r, pair('o', seq!['z'], ending(more))),
                                    ),
                                ),
                            ),
                        ),
                    ),
                ),
            ),
        ),
    ensures
        value_of(read, key) == (if key == 'a' {
            Some(seq!['T'])
        } else if key == 'q' {
            Some(seq!['2'])
        } else if key == 'U' {
            Some(seq!['1'])
        } else if key == 'i' {
            Some(i)
        } else if key == 'f' {
            Some(seq!['3', '2'])
        } else if key == 's' {
            Some(w)
        } else if key == 'v' {
            Some(h)
        } else if key == 'c' {
            Some(c)
        } else if key == 'r' {
            Some(r)
        } else if key == 'o' {
            Some(seq!['z'])
        } else {
            value_of(ending(more), key)
        }),
{
    let f_o = pair('o', seq!['z'], ending(more));
    let f_r = pair('r', r, f_o);
    let f_c = pair('c', c, f_r);
    let f_v = pair('v', h, f_c);
    let f_s = pair('s', w, f_v);
    let f_f = pair('f', seq!['3', '2'], f_s);
    let f_i = pair('i', i, f_f);
    let f_u = pair('U', seq!['1'], f_i);
    let f_q = pair('q', seq!['2'], f_u);
    lemma_single('T', ',');
    lemma_single('1', ',');
    lemma_single('2', ',');
    lemma_single('z', ',');
    assert(!seq!['3', '2'].contains(','));
    lemma_field('a', seq!['T'], f_q, key);
    lemma_field('q', seq!['2'], f_u, key);
    lemma_field('U', seq!['1'], f_i, key);
    lemma_field('i', i, f_f, key);
    lemma_field('f', seq!['3', '2'], f_s, key);
    lemma_field('s', w, f_v, key);
    lemma_field('v', h, f_c, key);
    lemma_field('c', c, f_r, key);
    lemma_field('r', r, f_o, key);
    lemma_field('o', seq!['z'], ending(more), key);
}

proof fn lemma_command_passes(body: Seq<char>, through_tmux: bool, behind: Seq<char>)
    ensures
        arrives(command(body, through_tmux) + behind, through_tmux).take(1 + body.len() as int)
            == seq![terminal::ESC] + body,
        arrives(command(body, through_tmux) + behind, through_tmux).len() > body.len(),
        through_tmux ==> (command(body, through_tmux) + behind).take(7) == "\x1bPtmux;"@,
{
    reveal_strlit("\x1b");
    reveal_strlit("\x1bPtmux;");
    let s = "\x1b"@ + body + "\x1b\\"@;
    if through_tmux {
        terminal::law_tmux_ends_where_the_text_ends(s, behind);
        assert((command(body, through_tmux) + behind).take(7) =~= "\x1bPtmux;"@);
    }
    assert(arrives(command(body, through_tmux) + behind, through_tmux).take(1 + body.len() as int)
        =~= seq![terminal::ESC] + body);
}

proof fn lemma_control_arrives(
    parts: Seq<Seq<char>>,
    control: Seq<char>,
    through_tmux: bool,
    behind: Seq<char>,
)
    requires
        parts.len() > 0,
        !control.contains(';'),
    ensures
        control_of(sending(parts, control, true, through_tmux) + behind, through_tmux) == Some(
            control + seq![
                ',',
                'o',
                '=',
                'z',
                ',',
                'm',
                '=',
                if parts.len() > 1 {
                    '1'
                } else {
                    '0'
                },
            ],
        ),
{
    reveal_strlit("_G");
    reveal_strlit(",o=z,m=");
    reveal_strlit("0");
    reveal_strlit("1");
    reveal_strlit(";");
    let more = parts.len() > 1;
    let tail = seq![',', 'o', '=', 'z', ',', 'm', '=', if more {
        '1'
    } else {
        '0'
    }];
    let body = chunk_head(control, true, more) + parts[0];
    let rest = sending(parts.drop_first(), control, false, through_tmux) + behind;
    let out = sending(parts, control, true, through_tmux) + behind;
    assert(out =~= command(body, through_tmux) + rest);
    lemma_command_passes(body, through_tmux, rest);
    let read = control + tail;
    assert(seq![terminal::ESC] + body =~= seq![terminal::ESC, '_', 'G'] + read + seq![';']
        + parts[0]);
    lemma_free_of(control, tail, ';');
    lemma_reads_control(arrives(out, through_tmux), read, parts[0]);
}

proof fn lemma_reads_control(s: Seq<char>, read: Seq<char>, data: Seq<char>)
    requires
        s.len() >= 4 + read.len() + data.len(),
        s.take((4 + read.len() + data.len()) as int) == seq![terminal::ESC, '_', 'G'] + read + seq![
            ';',
        ] + data,
        !read.contains(';'),
    ensures
        s.take(3) == seq![terminal::ESC, '_', 'G'],
        terminal::up_to(s.skip(3), ';') == read,
{
    let n = (4 + read.len() + data.len()) as int;
    let head = seq![terminal::ESC, '_', 'G'] + read + seq![';'] + data;
    let behind = s.skip(3 + read.len() as int);
    assert forall|k: int| 0 <= k < n implies s[k] == head[k] by {
        assert(s.take(n)[k] == s[k]);
    }
    assert(s.take(3) =~= seq![terminal::ESC, '_', 'G']);
    assert(s.skip(3) =~= read + behind);
    assert(behind[0] == s[3 + read.len() as int]);
    terminal::lemma_up_to(read, ';', behind);
}

/// A terminal that reads what shows an image at the top left corner goes there first, and then finds
/// in the control data of the first command what the image is, with its width under `s` and its
/// height under `v`.
pub proof fn law_terminal_reads_the_size_of_the_image(
    s: KittyState,
    rgba: Seq<u8>,
    width: nat,
    height: nat,
)
    requires
        chunks(encoding::base64_text(zlib(rgba))).len() > 0,
    ensures
        s.direct(rgba, width, height).take(3) == seq![terminal::ESC, '[', 'H'],
        control_of(s.direct(rgba, width, height).skip(3), s.through_tmux) matches Some(control)
            && declares(control, s.next_id(), width, height),
{
    let (i, w, h) = (text::decimal(s.next_id()), text::decimal(width), text::decimal(height));
    let control = "a=T,q=2,i="@ + i + ",f=32,s="@ + w + ",v="@ + h;
    let parts = chunks(encoding::base64_text(zlib(rgba)));
    let out = s.direct(rgba, width, height);
    assert(!control.contains(';')) by {
        terminal::lemma_digits_hold_no_other(s.next_id(), ';');
        terminal::lemma_digits_hold_no_other(width, ';');
        terminal::lemma_digits_hold_no_other(height, ';');
        lemma_no_semicolon(i, w, h);
    }
    lemma_control_arrives(parts, control, s.through_tmux, s.freeing_live());
    assert(out.take(3) =~= seq![terminal::ESC, '[', 'H'] && out.skip(3) =~= sending(
        parts,
        control,
        true,
        s.through_tmux,
    ) + s.freeing_live()) by {
        reveal_strlit("\x1b[H");
    }
    let read = lemma_direct_control(i, w, h, parts.len() > 1);
    terminal::lemma_digits_hold_no_other(s.next_id(), ',');
    terminal::lemma_digits_hold_no_other(width, ',');
    terminal::lemma_digits_hold_no_other(height, ',');
    assert(declares(read, s.next_id(), width, height)) by {
        lemma_read_direct(i, w, h, parts.len() > 1, read, 'a');
        lemma_read_direct(i, w, h, parts.len() > 1, read, 'q');
        lemma_read_direct(i, w, h, parts.len() > 1, read, 'i');
        lemma_read_direct(i, w, h, parts.len() > 1, read, 'f');
        lemma_read_direct(i, w, h, parts.len() > 1, read, 's');
        lemma_read_direct(i, w, h, parts.len() > 1, read, 'v');
        lemma_read_direct(i, w, h, parts.len() > 1, read, 'o');
    }
}

/// A terminal that reads what shows an image by placeholders finds in the control data of the first
/// command what the image is, that it has no place of its own, and how many columns and rows of
/// cells it is spread over. What stands before the command clears the screen, and stands there only
/// where the image takes up other cells than the last.
pub proof fn law_terminal_reads_the_cells_of_the_image(
    s: KittyState,
    rgba: Seq<u8>,
    width: nat,
    height: nat,
    columns: nat,
    rows: nat,
)
    requires
        chunks(encoding::base64_text(zlib(rgba))).len() > 0,
    ensures
        ({
            let out = s.by_placeholders(rgba, width, height, columns, rows);
            let cleared = if s.shown == Some((columns, rows)) {
                0int
            } else {
                7
            };
            &&& cleared == 7 ==> out.take(7) == "\x1b[2J\x1b[H"@
            &&& control_of(out.skip(cleared), s.through_tmux) matches Some(control) && declares(
                control,
                s.next_id(),
                width,
                height,
            ) && value_of(control, 'U') == Some(seq!['1']) && value_of(control, 'c') == Some(
                text::decimal(columns),
            ) && value_of(control, 'r') == Some(text::decimal(rows))
        }),
{
    let (i, w, h) = (text::decimal(s.next_id()), text::decimal(width), text::decimal(height));
    let (c, r) = (text::decimal(columns), text::decimal(rows));
    let control = "a=T,q=2,U=1,i="@ + i + ",f=32,s="@ + w + ",v="@ + h + ",c="@ + c + ",r="@ + r;
    let parts = chunks(encoding::base64_text(zlib(rgba)));
    let out = s.by_placeholders(rgba, width, height, columns, rows);
    let behind = placeholders(s.next_id(), columns, rows) + s.freeing_live();
    let cleared = if s.shown == Some((columns, rows)) {
        0int
    } else {
        7
    };
    assert(!control.contains(';')) by {
        terminal::lemma_digits_hold_no_other(s.next_id(), ';');
        terminal::lemma_digits_hold_no_other(width, ';');
        terminal::lemma_digits_hold_no_other(height, ';');
        terminal::lemma_digits_hold_no_other(columns, ';');
        terminal::lemma_digits_hold_no_other(rows, ';');
        lemma_no_semicolon(i, w, h);
        lemma_no_semicolon_in_cells("a=T,q=2,U=1,i="@ + i + ",f=32,s="@ + w + ",v="@ + h, c, r);
    }
    lemma_control_arrives(parts, control, s.through_tmux, behind);
    lemma_cleared_first(
        sending(parts, control, true, s.through_tmux),
        placeholders(s.next_id(), columns, rows),
        s.freeing_live(),
        cleared == 7,
    );
    let more = parts.len() > 1;
    let read = lemma_cells_control(i, w, h, c, r, more);
    terminal::lemma_digits_hold_no_other(s.next_id(), ',');
    terminal::lemma_digits_hold_no_other(width, ',');
    terminal::lemma_digits_hold_no_other(height, ',');
    terminal::lemma_digits_hold_no_other(columns, ',');
    terminal::lemma_digits_hold_no_other(rows, ',');
    lemma_read_cells(i, w, h, c, r, more, read, 'U');
    lemma_read_cells(i, w, h, c, r, more, read, 'c');
    lemma_read_cells(i, w, h, c, r, more, read, 'r');
    assert(declares(read, s.next_id(), width, height)) by {
        lemma_read_cells(i, w, h, c, r, more, read, 'a');
        lemma_read_cells(i, w, h, c, r, more, read, 'q');
        lemma_read_cells(i, w, h, c, r, more, read, 'i');
        lemma_read_cells(i, w, h, c, r, more, read, 'f');
        lemma_read_cells(i, w, h, c, r, more, read, 's');
        lemma_read_cells(i, w, h, c, r, more, read, 'v');
        lemma_read_cells(i, w, h, c, r, more, read, 'o');
    }
}

proof fn lemma_no_semicolon_in_cells(sized: Seq<char>, c: Seq<char>, r: Seq<char>)
    requires
        !sized.contains(';'),
        !c.contains(';'),
        !r.contains(';'),
    ensures
        !(sized + ",c="@ + c + ",r="@ + r).contains(';'),
{
    reveal_strlit(",c=");
    reveal_strlit(",r=");
    lemma_free_of(sized, ",c="@, ';');
    lemma_free_of(sized + ",c="@, c, ';');
    lemma_free_of(sized + ",c="@ + c, ",r="@, ';');
    lemma_free_of(sized + ",c="@ + c + ",r="@, r, ';');
}

proof fn lemma_cleared_first(sent: Seq<char>, cells: Seq<char>, freed: Seq<char>, clears: bool)
    ensures
        clears ==> ("\x1b[2J\x1b[H"@ + sent + cells + freed).take(7) == "\x1b[2J\x1b[H"@,
        clears ==> ("\x1b[2J\x1b[H"@ + sent + cells + freed).skip(7) == sent + (cells + freed),
        !clears ==> (Seq::<char>::empty() + sent + cells + freed).skip(0) == sent + (cells + freed),
{
    reveal_strlit("\x1b[2J\x1b[H");
    assert(("\x1b[2J\x1b[H"@ + sent + cells + freed).take(7) =~= "\x1b[2J\x1b[H"@);
    assert(("\x1b[2J\x1b[H"@ + sent + cells + freed).skip(7) =~= sent + (cells + freed));
    assert((Seq::<char>::empty() + sent + cells + freed).skip(0) =~= sent + (cells + freed));
}

proof fn lemma_free_of(a: Seq<char>, b: Seq<char>, c: char)
    requires
        !a.contains(c),
        !b.contains(c),
    ensures
        !(a + b).contains(c),
{
    assert forall|i: int| 0 <= i < (a + b).len() implies (a + b)[i] != c by {
        if i < a.len() {
            assert(a[i] != c);
        } else {
            assert(b[i - a.len()] != c);
        }
    }
}

/// The image that was shown before is freed last, when the new one covers it, and no other is: a
/// terminal reads of the command that it deletes, that the data goes too, and the number.
pub proof fn law_last_image_is_freed_last(
    s: KittyState,
    rgba: Seq<u8>,
    width: nat,
    height: nat,
    window: Option<WindowSize>,
)
    ensures
        s.live matches Some(id) ==> {
            let out = s.displaying(rgba, width, height, window);
            let n = s.freeing(id).len() as int;
            &&& out.len() >= n
            &&& out.skip(out.len() - n) == s.freeing(id)
        },
        forall|id: nat| #[trigger]
            arrives(s.freeing(id), s.through_tmux) == "\x1b_Ga=d,d=I,i="@ + text::decimal(id)
                + "\x1b\\"@,
{
    if let Some(id) = s.live {
        let out = s.displaying(rgba, width, height, window);
        let n = s.freeing(id).len() as int;
        assert(out.skip(out.len() - n) =~= s.freeing(id));
    }
    assert forall|id: nat| #[trigger] arrives(s.freeing(id), s.through_tmux) == "\x1b_Ga=d,d=I,i="@
        + text::decimal(id) + "\x1b\\"@ by {
        reveal_strlit("\x1b");
        reveal_strlit("_Ga=d,d=I,i=");
        reveal_strlit("\x1b_Ga=d,d=I,i=");
        let whole = "\x1b"@ + ("_Ga=d,d=I,i="@ + text::decimal(id)) + "\x1b\\"@;
        assert(whole =~= "\x1b_Ga=d,d=I,i="@ + text::decimal(id) + "\x1b\\"@);
        if s.through_tmux {
            terminal::law_tmux_hands_on_what_was_wrapped(whole);
        }
    }
}

/// In a row of placeholders each column has three characters: the placeholder, the mark of the row
/// and the mark of the column.
pub proof fn law_placeholders_name_row_and_column(row: nat, columns: nat, x: int)
    requires
        0 <= x < columns,
    ensures
        row_cells(row, columns).len() == 3 * columns,
        row_cells(row, columns)[3 * x] == '\u{10eeee}',
        row_cells(row, columns)[3 * x + 1] == marks::mark(row),
        row_cells(row, columns)[3 * x + 2] == marks::mark(x as nat),
    decreases columns,
{
    let n = (columns - 1) as nat;
    if n > 0 {
        law_placeholders_name_row_and_column(
            row,
            n,
            if x < n {
                x
            } else {
                0
            },
        );
    } else {
        assert(row_cells(row, 0).len() == 0);
    }
}

/// Row `y` of the placeholders is written from the first column of row `y + 1` of the screen on,
/// right behind the rows above it, and the last row is the last thing written.
pub proof fn law_rows_of_placeholders_are_below_each_other(columns: nat, rows: nat, y: nat)
    requires
        y < rows,
    ensures
        ({
            let above = placeholder_rows(columns, y);
            let row = "\x1b["@ + text::decimal(y + 1) + ";1H"@ + row_cells(y, columns);
            let all = placeholder_rows(columns, rows);
            &&& all.len() >= above.len() + row.len()
            &&& all.take((above.len() + row.len()) as int) == above + row
            &&& y + 1 == rows ==> all == above + row
        }),
        placeholder_rows(columns, 0).len() == 0,
    decreases rows,
{
    reveal_strlit("\x1b[");
    reveal_strlit(";");
    reveal_strlit("H");
    reveal_strlit(";1H");
    let above = placeholder_rows(columns, y);
    let row = "\x1b["@ + text::decimal(y + 1) + ";1H"@ + row_cells(y, columns);
    let all = placeholder_rows(columns, rows);
    assert(text::decimal(1) =~= seq!['1']);
    assert(terminal::cursor_to(y + 1, 1) =~= "\x1b["@ + text::decimal(y + 1) + ";1H"@);
    if y + 1 == rows {
        assert(all =~= above + row);
        assert(all.take((above.len() + row.len()) as int) =~= above + row);
    } else {
        law_rows_of_placeholders_are_below_each_other(columns, (rows - 1) as nat, y);
        let before = placeholder_rows(columns, (rows - 1) as nat);
        let n = (above.len() + row.len()) as int;
        assert(all.take(n) =~= before.take(n));
    }
}

/// The colour of the placeholders, read as red, green and blue, makes up the number of the image.
pub proof fn law_colour_is_the_number(id: nat) -> (rgb: (nat, nat, nat))
    requires
        id < 0x100_0000,
    ensures
        rgb.0 < 256,
        rgb.1 < 256,
        rgb.2 < 256,
        rgb.0 * 65536 + rgb.1 * 256 + rgb.2 == id,
        colour_of(id) == "\x1b[38;2;"@ + text::decimal(rgb.0) + ";"@ + text::decimal(rgb.1) + ";"@
            + text::decimal(rgb.2) + "m"@,
{
    (id / 65536 % 256, id / 256 % 256, id % 256)
}

/// An image takes up the cells that it fills, at least one, and no more than the window has or can
/// be marked: one cell more would not be filled, or there is none.
pub proof fn law_cells_are_filled(pixels: nat, cell: nat, cells: nat)
    requires
        cell > 0,
        cells > 0,
    ensures
        1 <= cells_for(pixels, cell, cells) <= cells,
        cells_for(pixels, cell, cells) <= MARK_COUNT,
        cells_for(pixels, cell, cells) * cell <= pixels || cells_for(pixels, cell, cells) == 1,
        cells_for(pixels, cell, cells) == cells || cells_for(pixels, cell, cells) == MARK_COUNT || (
        cells_for(pixels, cell, cells) + 1) * cell > pixels,
{
    let n = (pixels / cell) as int;
    let k = cells_for(pixels, cell, cells) as int;
    let (p, c) = (pixels as int, cell as int);
    vstd::arithmetic::div_mod::lemma_fundamental_div_mod(p, c);
    assert(p % c < c && p % c >= 0);
    assert(n * c <= p < (n + 1) * c) by (nonlinear_arith)
        requires
            p == c * n + p % c,
            0 <= p % c < c,
    ;
    if k > 1 {
        assert(k * c <= n * c) by (nonlinear_arith)
            requires
                k <= n,
                c > 0,
        ;
    }
    if k >= n {
        assert((k + 1) * c >= (n + 1) * c) by (nonlinear_arith)
            requires
                k >= n,
                c > 0,
        ;
    }
}

/// How far an image spreads to the right follows from its width and the width of a cell alone, and
/// how far down from its height and the height of a cell. The columns of the window bound the one,
/// its rows the other. Where the window is not known it counts as 80 columns and 24 rows, and where
/// a cell is not, it counts as 8 by 16 pixels.
pub proof fn law_footprint_is_columns_and_rows(width: nat, height: nat, window: Option<WindowSize>)
    ensures
        window matches Some(ws) && ws.columns > 0 && ws.rows > 0 ==> (match crate::cells::reported_cell(
            window,
        ) {
            Some((cw, ch)) => footprint(width, height, window).0 == cells_for(
                width,
                cw,
                window->0.columns as nat,
            ) && footprint(width, height, window).1 == cells_for(
                height,
                ch,
                window->0.rows as nat,
            ),
            None => footprint(width, height, window).0 == cells_for(
                width,
                8,
                window->0.columns as nat,
            ) && footprint(width, height, window).1 == cells_for(
                height,
                16,
                window->0.rows as nat,
            ),
        }),
        window is None || window->0.columns == 0 || window->0.rows == 0 ==> footprint(
            width,
            height,
            window,
        ).0 == cells_for(width, 8, 80) && footprint(width, height, window).1 == cells_for(
            height,
            16,
            24,
        ),
{
}

/// A viewer uses two numbers in turn, which differ, and each is three bytes long.
pub proof fn law_numbers_take_turns(s: KittyState, width: nat, height: nat, window: Option<WindowSize>)
    requires
        s.wf(),
    ensures
        ({
            let t = s.after_display(width, height, window);
            let u = t.after_display(width, height, window);
            &&& 0 < s.next_id() < 0x100_0000
            &&& t.next_id() != s.next_id()
            &&& u.next_id() == s.next_id()
            &&& t.live == Some(s.next_id())
            &&& u.live == Some(t.next_id())
            &&& s.next_id() == s.base || s.next_id() == s.base + 0x80_0000
        }),
{
}

/// Whatever way an image is shown, the terminal reads of the first command that it is as wide and as
/// high as it is, and, where it is shown by placeholders, that it is spread over the columns and rows
/// that it takes up. The placeholders that are written are those of this image, and as many.
pub proof fn law_display_declares_the_image(
    s: KittyState,
    rgba: Seq<u8>,
    width: nat,
    height: nat,
    window: Option<WindowSize>,
)
    requires
        chunks(encoding::base64_text(zlib(rgba))).len() > 0,
    ensures
        ({
            let out = s.displaying(rgba, width, height, window);
            let (columns, rows) = footprint(width, height, window);
            let at = if !s.placeholder {
                3int
            } else if s.shown == Some((columns, rows)) {
                0
            } else {
                7
            };
            &&& control_of(out.skip(at), s.through_tmux) matches Some(control) && declares(
                control,
                s.next_id(),
                width,
                height,
            ) && (s.placeholder ==> value_of(control, 'c') == Some(text::decimal(columns))
                && value_of(control, 'r') == Some(text::decimal(rows)) && value_of(control, 'U')
                == Some(seq!['1']))
            &&& s.placeholder ==> {
                let end = placeholders(s.next_id(), columns, rows) + s.freeing_live();
                out.len() >= end.len() && out.skip(out.len() - end.len()) == end
            }
        }),
{
    if s.placeholder {
        let (columns, rows) = footprint(width, height, window);
        law_terminal_reads_the_cells_of_the_image(s, rgba, width, height, columns, rows);
        let out = s.displaying(rgba, width, height, window);
        let end = placeholders(s.next_id(), columns, rows) + s.freeing_live();
        assert(out.skip(out.len() - end.len()) =~= end);
    } else {
        law_terminal_reads_the_size_of_the_image(s, rgba, width, height);
    }
}

/// What a terminal takes for the data of an image: of each command what stands between the `;` and
/// the `ESC` behind it, as long as the commands say that more follow.
pub open spec fn data_of(s: Seq<char>) -> Seq<char>
    decreases s.len(),
{
    if s.len() < 3 || s.take(3) != seq![terminal::ESC, '_', 'G'] {
        seq![]
    } else {
        let control = terminal::up_to(s.skip(3), ';');
        let behind = s.skip(4 + control.len() as int);
        let data = terminal::up_to(behind, terminal::ESC);
        if value_of(control, 'm') == Some(seq!['1']) && 6 + control.len() + data.len() <= s.len() {
            data + data_of(behind.skip(2 + data.len() as int))
        } else {
            data
        }
    }
}

/// Whether no pair of the control data has the key.
pub open spec fn lacks(control: Seq<char>, key: char) -> bool {
    value_of(control, key) is None
}

proof fn lemma_up_to_stops(s: Seq<char>, c: char)
    ensures
        terminal::up_to(s, c).len() <= s.len(),
        s.take(terminal::up_to(s, c).len() as int) == terminal::up_to(s, c),
        !terminal::up_to(s, c).contains(c),
        terminal::up_to(s, c).len() < s.len() ==> s[terminal::up_to(s, c).len() as int] == c,
    decreases s.len(),
{
    let u = terminal::up_to(s, c);
    if s.len() > 0 && s[0] != c {
        let rest = s.skip(1);
        lemma_up_to_stops(rest, c);
        let v = terminal::up_to(rest, c);
        assert(u =~= seq![s[0]] + v);
        assert(s.take(u.len() as int) =~= u) by {
            assert forall|i: int| 0 <= i < u.len() implies s[i] == u[i] by {
                if i > 0 {
                    assert(rest.take(v.len() as int)[i - 1] == v[i - 1]);
                }
            }
        }
        assert forall|i: int| 0 <= i < u.len() implies u[i] != c by {
            if i > 0 {
                assert(v[i - 1] != c);
            }
        }
    } else {
        assert(s.take(0) =~= u);
    }
}

proof fn lemma_value_behind(control: Seq<char>, tail: Seq<char>, key: char)
    requires
        lacks(control, key),
    ensures
        value_of(control + seq![','] + tail, key) == value_of(tail, key),
    decreases control.len(),
{
    let field = terminal::up_to(control, ',');
    let whole = control + seq![','] + tail;
    lemma_up_to_stops(control, ',');
    let n = field.len() as int;
    let behind = whole.skip(n);
    assert(whole =~= field + behind) by {
        assert(whole =~= whole.take(n) + whole.skip(n));
        assert(whole.take(n) =~= control.take(n));
    }
    assert(behind.len() > 0 && behind[0] == ',') by {
        if n < control.len() {
            assert(whole[n] == control[n]);
        }
    }
    terminal::lemma_up_to(field, ',', behind);
    if n < control.len() {
        let rest = control.skip(n + 1);
        lemma_value_behind(rest, tail, key);
        assert(whole.skip(n + 1) =~= rest + seq![','] + tail);
    } else {
        assert(whole.skip(n + 1) =~= tail);
    }
}

proof fn lemma_more_is_read(control: Seq<char>, more: bool)
    requires
        lacks(control, 'm'),
    ensures
        value_of(
            control + seq![
                ',',
                'o',
                '=',
                'z',
                ',',
                'm',
                '=',
                if more {
                    '1'
                } else {
                    '0'
                },
            ],
            'm',
        ) == Some(seq![if more {
            '1'
        } else {
            '0'
        }]),
{
    let m = if more {
        '1'
    } else {
        '0'
    };
    let last = ending(more);
    let tail = pair('o', seq!['z'], last);
    lemma_single('z', ',');
    lemma_field('o', seq!['z'], last, 'm');
    lemma_last_field(m);
    assert(tail =~= seq!['o', '=', 'z', ',', 'm', '=', m]) by {
        reveal(pair);
    }
    lemma_value_behind(control, tail, 'm');
    assert(control + seq![',', 'o', '=', 'z', ',', 'm', '=', m] =~= control + seq![','] + tail);
}

proof fn lemma_last_field(m: char)
    requires
        m != ',',
    ensures
        value_of(seq!['m', '=', m], 'm') == Some(seq![m]),
{
    let s = seq!['m', '=', m];
    assert forall|i: int| 0 <= i < s.len() implies s[i] != ',' by {}
    terminal::lemma_up_to(s, ',', seq![]);
    assert(s + Seq::<char>::empty() =~= s);
    assert(s.skip(2) =~= seq![m]);
}

/// One command read, and what the terminal finds behind it.
proof fn lemma_command_is_read(control: Seq<char>, data: Seq<char>, more: bool, behind: Seq<char>)
    requires
        !control.contains(';'),
        !data.contains(terminal::ESC),
        value_of(control, 'm') == Some(seq![if more {
            '1'
        } else {
            '0'
        }]),
    ensures
        ({
            let s = seq![terminal::ESC, '_', 'G'] + control + seq![';'] + data + seq![
                terminal::ESC,
                '\\',
            ] + behind;
            data_of(s) == (if more {
                data + data_of(behind)
            } else {
                data
            })
        }),
{
    let end = seq![terminal::ESC, '\\'] + behind;
    let s = seq![terminal::ESC, '_', 'G'] + control + seq![';'] + data + seq![terminal::ESC, '\\']
        + behind;
    assert(s.take(3) =~= seq![terminal::ESC, '_', 'G']);
    assert(s.skip(3) =~= control + (seq![';'] + data + end));
    terminal::lemma_up_to(control, ';', seq![';'] + data + end);
    let rest = s.skip(4 + control.len() as int);
    assert(rest =~= data + end);
    terminal::lemma_up_to(data, terminal::ESC, end);
    assert(rest.skip(2 + data.len() as int) =~= behind);
    if !more {
        assert(seq!['0'][0] != seq!['1'][0]);
    }
}

proof fn lemma_sent_is_read(parts: Seq<Seq<char>>, control: Seq<char>, first: bool, behind: Seq<char>)
    requires
        parts.len() > 0,
        forall|i: int| 0 <= i < parts.len() ==> !(#[trigger] parts[i]).contains(terminal::ESC),
        !control.contains(';'),
        lacks(control, 'm'),
    ensures
        data_of(sending(parts, control, first, false) + behind) == parts.flatten(),
    decreases parts.len(),
{
    reveal_strlit("\x1b");
    reveal_strlit("\x1b\\");
    reveal_strlit("_G");
    reveal_strlit("_Gm=");
    reveal_strlit(",o=z,m=");
    reveal_strlit("0");
    reveal_strlit("1");
    reveal_strlit(";");
    let more = parts.len() > 1;
    let m = if more {
        '1'
    } else {
        '0'
    };
    let head = if first {
        control + seq![',', 'o', '=', 'z', ',', 'm', '=', m]
    } else {
        seq!['m', '=', m]
    };
    let data = parts[0];
    let rest = parts.drop_first();
    let after = sending(rest, control, false, false) + behind;
    assert(chunk_head(control, first, more) =~= seq!['_', 'G'] + head + seq![';']);
    let whole = sending(parts, control, first, false) + behind;
    assert(whole =~= seq![terminal::ESC, '_', 'G'] + head + seq![';'] + data + seq![
        terminal::ESC,
        '\\',
    ] + after);
    lemma_more_is_read(control, more);
    lemma_last_field(m);
    lemma_free_of(control, seq![',', 'o', '=', 'z', ',', 'm', '=', m], ';');
    assert(!seq!['m', '=', m].contains(';'));
    lemma_command_is_read(head, data, more, after);
    if more {
        assert forall|i: int| 0 <= i < rest.len() implies !(#[trigger] rest[i]).contains(
            terminal::ESC,
        ) by {
            assert(!parts[i + 1].contains(terminal::ESC));
        }
        lemma_sent_is_read(rest, control, false, behind);
        assert(parts.flatten() == data + rest.flatten());
    } else {
        reveal_with_fuel(Seq::<_>::flatten, 2);
        assert(rest =~= Seq::<Seq<char>>::empty());
        assert(parts.flatten() =~= data);
    }
}

/// What a terminal takes for the data of an image, of all the commands that send it, is the base64
/// text of the compressed image: no chunk is lost, sent twice or taken for the last before it is.
pub proof fn law_terminal_reads_the_whole_image(
    packed: Seq<u8>,
    control: Seq<char>,
    behind: Seq<char>,
)
    requires
        packed.len() > 0,
        !control.contains(';'),
        lacks(control, 'm'),
    ensures
        data_of(sending_packed(packed, control, false) + behind) == encoding::base64_text(packed),
{
    let payload = encoding::base64_text(packed);
    let parts = chunks(payload);
    encoding::law_base64_length(packed);
    law_chunks_make_up_the_text(payload);
    assert(parts.len() > 0);
    assert forall|i: int| 0 <= i < parts.len() implies !(#[trigger] parts[i]).contains(
        terminal::ESC,
    ) by {
        lemma_chunk_is_of_the_text(payload, i, terminal::ESC);
        encoding::law_base64_is_plain(packed);
    }
    lemma_sent_is_read(parts, control, true, behind);
}

proof fn lemma_chunk_is_of_the_text(payload: Seq<char>, i: int, c: char)
    requires
        0 <= i < chunks(payload).len(),
    ensures
        chunks(payload)[i].contains(c) ==> payload.contains(c),
    decreases payload.len(),
{
    if payload.len() > CHUNK {
        let head = payload.take(CHUNK as int);
        let rest = payload.skip(CHUNK as int);
        let part = chunks(payload)[i];
        if part.contains(c) {
            if i == 0 {
                let k = choose|k: int| 0 <= k < part.len() && part[k] == c;
                assert(head[k] == payload[k]);
            } else {
                assert(part == chunks(rest)[i - 1]);
                lemma_chunk_is_of_the_text(rest, i - 1, c);
                let k = choose|k: int| 0 <= k < rest.len() && rest[k] == c;
                assert(payload[k + CHUNK] == c);
            }
        }
    }
}

/// A last pair under another key.
proof fn lemma_other_last_field(k: char, v: Seq<char>, key: char)
    requires
        k != ',',
        k != key,
        !v.contains(','),
    ensures
        lacks(seq![k, '='] + v, key),
{
    let s = seq![k, '='] + v;
    assert forall|i: int| 0 <= i < s.len() implies s[i] != ',' by {
        if i >= 2 {
            assert(v[i - 2] != ',');
        }
    }
    terminal::lemma_up_to(s, ',', seq![]);
    assert(s + Seq::<char>::empty() =~= s);
}

proof fn lemma_direct_lacks(i: Seq<char>, w: Seq<char>, h: Seq<char>)
    requires
        !i.contains(','),
        !w.contains(','),
        !h.contains(','),
    ensures
        lacks("a=T,q=2,i="@ + i + ",f=32,s="@ + w + ",v="@ + h, 'm'),
{
    let last = seq!['v', '='] + h;
    let f_s = pair('s', w, last);
    let f_f = pair('f', seq!['3', '2'], f_s);
    let f_i = pair('i', i, f_f);
    let f_q = pair('q', seq!['2'], f_i);
    let f_a = pair('a', seq!['T'], f_q);
    lemma_single('T', ',');
    lemma_single('2', ',');
    assert(!seq!['3', '2'].contains(','));
    lemma_other_last_field('v', h, 'm');
    lemma_field('s', w, last, 'm');
    lemma_field('f', seq!['3', '2'], f_s, 'm');
    lemma_field('i', i, f_f, 'm');
    lemma_field('q', seq!['2'], f_i, 'm');
    lemma_field('a', seq!['T'], f_q, 'm');
    assert("a=T,q=2,i="@ + i + ",f=32,s="@ + w + ",v="@ + h == f_a) by {
        reveal_strlit("a=T,q=2,i=");
        reveal_strlit(",f=32,s=");
        reveal_strlit(",v=");
        reveal(pair);
        assert(f_s =~= seq!['s', '='] + w + ",v="@ + h);
        assert(seq![','] + f_f =~= ",f=32,s="@ + w + ",v="@ + h);
        assert(f_a =~= "a=T,q=2,i="@ + i + (seq![','] + f_f));
        assert(f_a =~= "a=T,q=2,i="@ + i + ",f=32,s="@ + w + ",v="@ + h);
    }
}

/// The data that a terminal reads of what shows an image at the top left corner is the whole image,
/// compressed and in base64.
pub proof fn law_direct_display_sends_the_whole_image(
    s: KittyState,
    rgba: Seq<u8>,
    width: nat,
    height: nat,
)
    requires
        zlib(rgba).len() > 0,
        !s.through_tmux,
    ensures
        data_of(s.direct(rgba, width, height).skip(3)) == encoding::base64_text(zlib(rgba)),
{
    let (i, w, h) = (text::decimal(s.next_id()), text::decimal(width), text::decimal(height));
    let control = "a=T,q=2,i="@ + i + ",f=32,s="@ + w + ",v="@ + h;
    assert(!control.contains(';')) by {
        terminal::lemma_digits_hold_no_other(s.next_id(), ';');
        terminal::lemma_digits_hold_no_other(width, ';');
        terminal::lemma_digits_hold_no_other(height, ';');
        lemma_no_semicolon(i, w, h);
    }
    assert(lacks(control, 'm')) by {
        terminal::lemma_digits_hold_no_other(s.next_id(), ',');
        terminal::lemma_digits_hold_no_other(width, ',');
        terminal::lemma_digits_hold_no_other(height, ',');
        lemma_direct_lacks(i, w, h);
    }
    law_terminal_reads_the_whole_image(zlib(rgba), control, s.freeing_live());
    let out = s.direct(rgba, width, height);
    assert(out.skip(3) =~= sending_packed(zlib(rgba), control, false) + s.freeing_live()) by {
        reveal_strlit("\x1b[H");
    }
}

/// Both images of a viewer are freed, each by its own number.
pub proof fn law_both_images_are_freed(s: KittyState)
    ensures
        s.freeing_both() == s.freeing(s.id(false)) + s.freeing(s.id(true)),
        s.id(false) != s.id(true),
        s.next_id() == s.id(false) || s.next_id() == s.id(true),
{
}

/// After an image is shown it is the one that is shown, and where it is shown by placeholders, in the
/// cells that it takes up. After the screen is cleared nothing is shown. Neither changes anything
/// else.
pub proof fn law_what_is_shown_is_remembered(
    s: KittyState,
    width: nat,
    height: nat,
    window: Option<WindowSize>,
)
    ensures
        ({
            let t = s.after_display(width, height, window);
            &&& t.live == Some(s.next_id())
            &&& t.second != s.second
            &&& s.placeholder ==> t.shown == Some(footprint(width, height, window))
            &&& !s.placeholder ==> t.shown == s.shown
            &&& t.base == s.base && t.placeholder == s.placeholder && t.through_tmux
                == s.through_tmux
        }),
        ({
            let t = s.after_clear();
            &&& t.live is None
            &&& t.shown is None
            &&& t.second == s.second
            &&& t.base == s.base && t.placeholder == s.placeholder && t.through_tmux
                == s.through_tmux
        }),
{
}

/// The placeholders are written in the colour of their image, and what is written behind them is not.
pub proof fn law_colour_ends_with_the_placeholders(id: nat, columns: nat, rows: nat)
    ensures
        ({
            let out = placeholders(id, columns, rows);
            let (colour, cells) = (colour_of(id), placeholder_rows(columns, rows));
            &&& out.take(colour.len() as int) == colour
            &&& out.subrange(colour.len() as int, (colour.len() + cells.len()) as int) == cells
            &&& out.skip((colour.len() + cells.len()) as int) == seq![terminal::ESC, '[', '0', 'm']
        }),
{
    reveal_strlit("\x1b[0m");
    let out = placeholders(id, columns, rows);
    let (colour, cells) = (colour_of(id), placeholder_rows(columns, rows));
    assert(out.take(colour.len() as int) =~= colour);
    assert(out.subrange(colour.len() as int, (colour.len() + cells.len()) as int) =~= cells);
    assert(out.skip((colour.len() + cells.len()) as int) =~= seq![terminal::ESC, '[', '0', 'm']);
}

/// Every chunk but the last has 4096 characters, and the last has no more.
pub proof fn law_chunks_are_full(payload: Seq<char>, i: int)
    requires
        0 <= i < chunks(payload).len(),
    ensures
        i < chunks(payload).len() - 1 ==> chunks(payload)[i].len() == 4096,
        0 < chunks(payload)[i].len() <= 4096,
    decreases payload.len(),
{
    if payload.len() > CHUNK && i > 0 {
        let rest = payload.skip(CHUNK as int);
        assert(chunks(payload)[i] == chunks(rest)[i - 1]);
        law_chunks_are_full(rest, i - 1);
    }
}

/// Through tmux the same commands are sent as without it, one by one, each wrapped by itself.
pub proof fn law_tmux_gets_the_same_commands(parts: Seq<Seq<char>>, control: Seq<char>, first: bool) -> (
    sent: Seq<char>)
    requires
        parts.len() > 0,
    ensures
        sending(parts, control, first, false) == sent + sending(
            parts.drop_first(),
            control,
            false,
            false,
        ),
        sending(parts, control, first, true) == terminal::wrapped(sent) + sending(
            parts.drop_first(),
            control,
            false,
            true,
        ),
{
    command(chunk_head(control, first, parts.len() > 1) + parts[0], false)
}

proof fn lemma_cells_lack(i: Seq<char>, w: Seq<char>, h: Seq<char>, c: Seq<char>, r: Seq<char>)
    requires
        !i.contains(','),
        !w.contains(','),
        !h.contains(','),
        !c.contains(','),
        !r.contains(','),
    ensures
        lacks("a=T,q=2,U=1,i="@ + i + ",f=32,s="@ + w + ",v="@ + h + ",c="@ + c + ",r="@ + r, 'm'),
{
    let last = seq!['r', '='] + r;
    let f_c = pair('c', c, last);
    let f_v = pair('v', h, f_c);
    let f_s = pair('s', w, f_v);
    let f_f = pair('f', seq!['3', '2'], f_s);
    let f_i = pair('i', i, f_f);
    let f_u = pair('U', seq!['1'], f_i);
    let f_q = pair('q', seq!['2'], f_u);
    let f_a = pair('a', seq!['T'], f_q);
    lemma_single('T', ',');
    lemma_single('1', ',');
    lemma_single('2', ',');
    assert(!seq!['3', '2'].contains(','));
    lemma_other_last_field('r', r, 'm');
    lemma_field('c', c, last, 'm');
    lemma_field('v', h, f_c, 'm');
    lemma_field('s', w, f_v, 'm');
    lemma_field('f', seq!['3', '2'], f_s, 'm');
    lemma_field('i', i, f_f, 'm');
    lemma_field('U', seq!['1'], f_i, 'm');
    lemma_field('q', seq!['2'], f_u, 'm');
    lemma_field('a', seq!['T'], f_q, 'm');
    let cells = ",c="@ + c + ",r="@ + r;
    assert(f_v == seq!['v', '='] + h + cells) by {
        reveal_strlit(",c=");
        reveal_strlit(",r=");
        reveal(pair);
        assert(seq![','] + f_c =~= cells);
        assert(f_v =~= seq!['v', '='] + h + (seq![','] + f_c));
    }
    lemma_sized_text(i, w, h, cells);
    assert("a=T,q=2,U=1,i="@ + i + ",f=32,s="@ + w + ",v="@ + h + ",c="@ + c + ",r="@ + r
        =~= "a=T,q=2,U=1,i="@ + i + ",f=32,s="@ + w + ",v="@ + h + cells);
}

proof fn lemma_sized_text(i: Seq<char>, w: Seq<char>, h: Seq<char>, tail: Seq<char>)
    ensures
        pair(
            'a',
            seq!['T'],
            pair(
                'q',
                seq!['2'],
                pair(
                    'U',
                    seq!['1'],
                    pair(
                        'i',
                        i,
                        pair('f', seq!['3', '2'], pair('s', w, seq!['v', '='] + h + tail)),
                    ),
                ),
            ),
        ) == "a=T,q=2,U=1,i="@ + i + ",f=32,s="@ + w + ",v="@ + h + tail,
{
    reveal_strlit("a=T,q=2,U=1,i=");
    reveal_strlit(",f=32,s=");
    reveal_strlit(",v=");
    reveal(pair);
    let size = pair('s', w, seq!['v', '='] + h + tail);
    assert(size =~= seq!['s', '='] + w + ",v="@ + h + tail);
    let format = seq![','] + pair('f', seq!['3', '2'], size);
    assert(format =~= ",f=32,s="@ + w + ",v="@ + h + tail);
    let whole = pair(
        'a',
        seq!['T'],
        pair('q', seq!['2'], pair('U', seq!['1'], pair('i', i, pair('f', seq!['3', '2'], size)))),
    );
    assert(whole =~= "a=T,q=2,U=1,i="@ + i + format);
    assert(whole =~= "a=T,q=2,U=1,i="@ + i + ",f=32,s="@ + w + ",v="@ + h + tail);
}

/// The data that a terminal reads of what shows an image by placeholders is the whole image,
/// compressed and in base64.
pub proof fn law_placeholder_display_sends_the_whole_image(
    s: KittyState,
    rgba: Seq<u8>,
    width: nat,
    height: nat,
    columns: nat,
    rows: nat,
)
    requires
        zlib(rgba).len() > 0,
        !s.through_tmux,
    ensures
        data_of(
            s.by_placeholders(rgba, width, height, columns, rows).skip(
                if s.shown == Some((columns, rows)) {
                    0
                } else {
                    7
                },
            ),
        ) == encoding::base64_text(zlib(rgba)),
{
    let (i, w, h) = (text::decimal(s.next_id()), text::decimal(width), text::decimal(height));
    let (c, r) = (text::decimal(columns), text::decimal(rows));
    let control = "a=T,q=2,U=1,i="@ + i + ",f=32,s="@ + w + ",v="@ + h + ",c="@ + c + ",r="@ + r;
    assert(!control.contains(';')) by {
        terminal::lemma_digits_hold_no_other(s.next_id(), ';');
        terminal::lemma_digits_hold_no_other(width, ';');
        terminal::lemma_digits_hold_no_other(height, ';');
        terminal::lemma_digits_hold_no_other(columns, ';');
        terminal::lemma_digits_hold_no_other(rows, ';');
        lemma_no_semicolon(i, w, h);
        lemma_no_semicolon_in_cells("a=T,q=2,U=1,i="@ + i + ",f=32,s="@ + w + ",v="@ + h, c, r);
    }
    assert(lacks(control, 'm')) by {
        terminal::lemma_digits_hold_no_other(s.next_id(), ',');
        terminal::lemma_digits_hold_no_other(width, ',');
        terminal::lemma_digits_hold_no_other(height, ',');
        terminal::lemma_digits_hold_no_other(columns, ',');
        terminal::lemma_digits_hold_no_other(rows, ',');
        lemma_cells_lack(i, w, h, c, r);
    }
    let behind = placeholders(s.next_id(), columns, rows) + s.freeing_live();
    law_terminal_reads_the_whole_image(zlib(rgba), control, behind);
    lemma_cleared_first(
        sending_packed(zlib(rgba), control, false),
        placeholders(s.next_id(), columns, rows),
        s.freeing_live(),
        s.shown != Some((columns, rows)),
    );
}

} // verus!
