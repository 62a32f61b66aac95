//! Pixels: the size that a page is drawn at, and what happens to the pixels that were drawn.
//!
//! An image is RGBA, four bytes a pixel, row by row from the top.
use vstd::prelude::*;

verus! {

/// The number of bytes that a row of a buffer read back from the renderer is a multiple of.
pub const ROW_ALIGNMENT: u32 = 256;

/// The least multiple of `alignment` that is not less than `value`.
pub open spec fn aligned(value: int, alignment: int) -> int {
    (value + alignment - 1) / alignment * alignment
}

/// The least multiple of `alignment` that is not less than `value`.
pub fn align_up(value: u32, alignment: u32) -> (r: u32)
    requires
        alignment > 0,
        aligned(value as int, alignment as int) <= u32::MAX,
    ensures
        r == aligned(value as int, alignment as int),
        r >= value,
        r - value < alignment,
        r % alignment == 0,
{
    proof {
        lemma_aligned(value as int, alignment as int);
    }
    let n: u64 = (value as u64 + alignment as u64 - 1) / alignment as u64;
    (n * alignment as u64) as u32
}

proof fn lemma_aligned(value: int, alignment: int)
    requires
        alignment > 0,
        value >= 0,
    ensures
        value <= aligned(value, alignment) < value + alignment,
        aligned(value, alignment) % alignment == 0,
        (value + alignment - 1) / alignment >= 0,
{
    let q = (value + alignment - 1) / alignment;
    vstd::arithmetic::div_mod::lemma_fundamental_div_mod(value + alignment - 1, alignment);
    vstd::arithmetic::div_mod::lemma_mod_bound(value + alignment - 1, alignment);
    assert(q * alignment == alignment * q) by (nonlinear_arith);
    vstd::arithmetic::div_mod::lemma_mod_multiples_basic(q, alignment);
    vstd::arithmetic::div_mod::lemma_div_pos_is_pos(value + alignment - 1, alignment);
}

// ---------------------------------------------------------------------------
// The size that a page is drawn at.

/// `n`, but at least one.
pub open spec fn positive(n: nat) -> nat {
    if n == 0 {
        1
    } else {
        n
    }
}

/// Whether a size that is multiplied by `factor` stays within what the renderer can draw.
pub open spec fn drawable(width: nat, height: nat, factor: nat, max: nat) -> bool {
    &&& (width * factor <= max || max >= u32::MAX)
    &&& (height * factor <= max || max >= u32::MAX)
}

/// By how much a page is drawn larger than it is shown: the greatest factor up to `wanted` that the
/// renderer can draw, or one.
pub open spec fn factor_for(width: nat, height: nat, wanted: nat, max: nat) -> nat
    decreases wanted,
{
    if wanted <= 1 || drawable(width, height, wanted, max) {
        wanted
    } else {
        factor_for(width, height, (wanted - 1) as nat, max)
    }
}

fn too_large(n: u32, factor: u32, max: u32) -> (r: bool)
    ensures
        r == (n * factor > max && max < u32::MAX),
{
    assert(n * factor <= u32::MAX * u32::MAX) by (nonlinear_arith)
        requires
            n <= u32::MAX,
            factor <= u32::MAX,
    ;
    max < u32::MAX && n as u64 * factor as u64 > max as u64
}

/// The sizes of one drawing.
#[derive(Clone, Copy, Debug, PartialEq, Eq, Structural)]
pub struct RenderPlan {
    /// The size of the image that comes out. Neither number is zero.
    pub target_w: u32,
    pub target_h: u32,
    /// By how much the page is drawn larger.
    pub factor: u32,
    /// The size that is drawn.
    pub width: u32,
    pub height: u32,
    /// The bytes from the start of a row that was drawn to the start of the next.
    pub bytes_per_row: u32,
}

impl RenderPlan {
    /// The sizes for an image of `width` by `height`, drawn up to `wanted` times as large by a
    /// renderer that can draw at most `max` pixels in each direction.
    pub fn new(width: u32, height: u32, wanted: u32, max: u32) -> (r: Self)
        requires
            1 <= wanted,
            ({
                let w = positive(width as nat);
                let h = positive(height as nat);
                let f = factor_for(w, h, wanted as nat, positive(max as nat));
                &&& aligned((w * f * 4) as int, ROW_ALIGNMENT as int) <= u32::MAX
                &&& h * f <= u32::MAX
            }),
        ensures
            r.target_w == positive(width as nat),
            r.target_h == positive(height as nat),
            r.factor == factor_for(
                positive(width as nat),
                positive(height as nat),
                wanted as nat,
                positive(max as nat),
            ),
            r.width == r.target_w * r.factor,
            r.height == r.target_h * r.factor,
            r.bytes_per_row == aligned(r.width * 4, ROW_ALIGNMENT as int),
    {
        let target_w: u32 = if width == 0 {
            1
        } else {
            width
        };
        let target_h: u32 = if height == 0 {
            1
        } else {
            height
        };
        let limit: u32 = if max == 0 {
            1
        } else {
            max
        };
        let ghost result = factor_for(
            target_w as nat,
            target_h as nat,
            wanted as nat,
            limit as nat,
        );
        let mut factor: u32 = wanted;
        while factor > 1 && (too_large(target_w, factor, limit) || too_large(
            target_h,
            factor,
            limit,
        ))
            invariant
                result == factor_for(
                    target_w as nat,
                    target_h as nat,
                    factor as nat,
                    limit as nat,
                ),
                factor >= 1,
            decreases factor,
        {
            factor -= 1;
        }
        proof {
            lemma_aligned(target_w * factor * 4, ROW_ALIGNMENT as int);
            assert(target_w * factor >= 0) by (nonlinear_arith)
                requires
                    target_w >= 0,
                    factor >= 0,
            ;
        }
        let drawn_w: u32 = target_w * factor;
        let drawn_h: u32 = target_h * factor;
        RenderPlan {
            target_w,
            target_h,
            factor,
            width: drawn_w,
            height: drawn_h,
            bytes_per_row: align_up(drawn_w * 4, ROW_ALIGNMENT),
        }
    }
}

/// A page is drawn at the greatest factor that the renderer can draw, and never at none.
pub proof fn law_factor_is_the_greatest(width: nat, height: nat, wanted: nat, max: nat)
    requires
        wanted >= 1,
    ensures
        1 <= factor_for(width, height, wanted, max) <= wanted,
        factor_for(width, height, wanted, max) == 1 || drawable(
            width,
            height,
            factor_for(width, height, wanted, max),
            max,
        ),
        forall|f: nat|
            factor_for(width, height, wanted, max) < f <= wanted ==> !#[trigger] drawable(
                width,
                height,
                f,
                max,
            ),
    decreases wanted,
{
    if wanted > 1 && !drawable(width, height, wanted, max) {
        law_factor_is_the_greatest(width, height, (wanted - 1) as nat, max);
    }
}

// ---------------------------------------------------------------------------
// Rows without padding.

/// Whether a buffer whose rows lie `stride` bytes apart holds `rows` rows of `len` bytes.
pub open spec fn holds_rows(data: Seq<u8>, stride: nat, len: nat, rows: nat) -> bool {
    rows > 0 ==> (rows - 1) * stride + len <= data.len()
}

/// The first `rows` rows of a buffer, put together without what lies between them.
pub open spec fn packed_rows(data: Seq<u8>, stride: nat, len: nat, rows: nat) -> Seq<u8>
    decreases rows,
{
    if rows == 0 {
        seq![]
    } else {
        packed_rows(data, stride, len, (rows - 1) as nat) + data.subrange(
            (rows - 1) * stride,
            (rows - 1) * stride + len,
        )
    }
}

/// The rows of a buffer, put together without what lies between them.
pub fn pack_rows(data: &[u8], stride: usize, len: usize, rows: usize) -> (r: Vec<u8>)
    requires
        holds_rows(data@, stride as nat, len as nat, rows as nat),
    ensures
        r@ == packed_rows(data@, stride as nat, len as nat, rows as nat),
{
    let mut out: Vec<u8> = Vec::new();
    let total: usize = data.len();
    for y in 0..rows
        invariant
            total == data@.len(),
            holds_rows(data@, stride as nat, len as nat, rows as nat),
            out@ == packed_rows(data@, stride as nat, len as nat, y as nat),
    {
        assert(0 <= y * stride <= (rows - 1) * stride) by (nonlinear_arith)
            requires
                0 <= y <= rows - 1,
                stride >= 0,
        ;
        let start: usize = y * stride;
        let part = vstd::slice::slice_subrange(data, start, start + len);
        out.extend_from_slice(part);
        assert(out@ =~= packed_rows(data@, stride as nat, len as nat, (y + 1) as nat));
    }
    out
}

/// Byte `i` of row `y` of the packed rows is byte `i` of row `y` of the buffer, and nothing else is
/// in them.
pub proof fn law_packing_keeps_the_rows(
    data: Seq<u8>,
    stride: nat,
    len: nat,
    rows: nat,
    y: int,
    i: int,
)
    requires
        holds_rows(data, stride, len, rows),
        0 <= y < rows,
        0 <= i < len,
    ensures
        packed_rows(data, stride, len, rows).len() == rows * len,
        packed_rows(data, stride, len, rows)[y * len + i] == data[y * stride + i],
    decreases rows,
{
    let k = (rows - 1) as nat;
    assert(0 <= k * stride) by (nonlinear_arith)
        requires
            0 <= k,
            0 <= stride,
    ;
    assert(k * len + len == rows * len) by (nonlinear_arith)
        requires
            k + 1 == rows,
    ;
    if k > 0 {
        assert((k - 1) * stride <= k * stride) by (nonlinear_arith)
            requires
                0 <= stride,
        ;
        law_packing_keeps_the_rows(
            data,
            stride,
            len,
            k,
            if y < k {
                y
            } else {
                0
            },
            i,
        );
    }
    let whole = packed_rows(data, stride, len, rows);
    let above = packed_rows(data, stride, len, k);
    let last = data.subrange((rows - 1) * stride, (rows - 1) * stride + len);
    assert(whole == above + last);
    if k == 0 {
        assert(k * len == 0) by (nonlinear_arith)
            requires
                k == 0,
        ;
        assert(above.len() == 0);
    }
    assert(above.len() == k * len);
    if y == k {
        assert(whole[k * len + i] == last[i]);
    }
    if y < k {
        assert(0 <= y * len && y * len + len <= k * len) by (nonlinear_arith)
            requires
                0 <= y,
                y + 1 <= k,
                0 <= len,
        ;
    }
}

// ---------------------------------------------------------------------------
// Averaging.

/// The sum of `n` bytes, each four after the one before, from `at` on.
pub open spec fn run_sum(src: Seq<u8>, at: int, n: nat) -> nat
    decreases n,
{
    if n == 0 {
        0
    } else {
        run_sum(src, at, (n - 1) as nat) + src[at + (n - 1) * 4] as nat
    }
}

/// The sum of component `c` over the first `rows` rows of a block of pixels, `side` wide, with its
/// corner at `x`, `y` of an image `sw` wide.
pub open spec fn block_sum(src: Seq<u8>, sw: nat, x: int, y: int, side: nat, rows: nat, c: int) -> nat
    decreases rows,
{
    if rows == 0 {
        0
    } else {
        block_sum(src, sw, x, y, side, (rows - 1) as nat, c) + run_sum(
            src,
            ((y + rows - 1) * sw + x) * 4 + c,
            side,
        )
    }
}

/// The average of component `c` over a block of `side` by `side` pixels.
pub open spec fn block_average(src: Seq<u8>, sw: nat, x: int, y: int, side: nat, c: int) -> nat {
    block_sum(src, sw, x, y, side, side, c) / (side * side)
}

/// An image made smaller: each of its pixels is the average of the block of `side` by `side` pixels
/// in its place.
pub open spec fn downsampled(src: Seq<u8>, sw: nat, dw: nat, dh: nat, side: nat) -> Seq<u8> {
    Seq::new(
        dw * dh * 4,
        |i: int|
            block_average(
                src,
                sw,
                i / 4 % (dw as int) * side,
                i / 4 / (dw as int) * side,
                side,
                i % 4,
            ) as u8,
    )
}

proof fn lemma_run_bound(src: Seq<u8>, at: int, n: nat)
    ensures
        run_sum(src, at, n) <= 255 * n,
    decreases n,
{
    if n > 0 {
        lemma_run_bound(src, at, (n - 1) as nat);
    }
}

proof fn lemma_block_bound(src: Seq<u8>, sw: nat, x: int, y: int, side: nat, rows: nat, c: int)
    ensures
        block_sum(src, sw, x, y, side, rows, c) <= 255 * (side * rows),
    decreases rows,
{
    if rows > 0 {
        let k = (rows - 1) as nat;
        lemma_block_bound(src, sw, x, y, side, k, c);
        lemma_run_bound(src, ((y + rows - 1) * sw + x) * 4 + c, side);
        assert(side * rows == side * k + side) by (nonlinear_arith)
            requires
                rows == k + 1,
        ;
    }
}

/// The averages of the four components over a block.
fn average_block(src: &[u8], sw: usize, x: usize, y: usize, side: u32) -> (r: (u8, u8, u8, u8))
    requires
        1 <= side <= 4096,
        y + side <= usize::MAX,
        ((y + side - 1) * sw + x + side) * 4 <= src@.len(),
    ensures
        r.0 == block_average(src@, sw as nat, x as int, y as int, side as nat, 0),
        r.1 == block_average(src@, sw as nat, x as int, y as int, side as nat, 1),
        r.2 == block_average(src@, sw as nat, x as int, y as int, side as nat, 2),
        r.3 == block_average(src@, sw as nat, x as int, y as int, side as nat, 3),
{
    let total: usize = src.len();
    let s: usize = side as usize;
    let (mut a0, mut a1, mut a2, mut a3) = (0u32, 0u32, 0u32, 0u32);
    let ghost (gx, gy, gw, gs) = (x as int, y as int, sw as nat, side as nat);
    for oy in 0..s
        invariant
            1 <= side <= 4096,
            s == side,
            total == src@.len(),
            y + side <= usize::MAX,
            ((y + side - 1) * sw + x + side) * 4 <= src@.len(),
            gx == x && gy == y && gw == sw && gs == side,
            a0 == block_sum(src@, gw, gx, gy, gs, oy as nat, 0),
            a1 == block_sum(src@, gw, gx, gy, gs, oy as nat, 1),
            a2 == block_sum(src@, gw, gx, gy, gs, oy as nat, 2),
            a3 == block_sum(src@, gw, gx, gy, gs, oy as nat, 3),
    {
        assert(0 <= (y + oy) * sw <= (y + side - 1) * sw) by (nonlinear_arith)
            requires
                0 <= y,
                0 <= oy <= side - 1,
                0 <= sw,
        ;
        let row: usize = (y + oy) * sw;
        let ghost (s0, s1, s2, s3) = (a0 as nat, a1 as nat, a2 as nat, a3 as nat);
        let ghost base = (row + x) * 4;
        for ox in 0..s
            invariant
                1 <= side <= 4096,
                s == side,
                oy < s,
                total == src@.len(),
                ((y + side - 1) * sw + x + side) * 4 <= src@.len(),
                row == (y + oy) * sw,
                row <= (y + side - 1) * sw,
                base == (row + x) * 4,
                gx == x && gy == y && gw == sw && gs == side,
                s0 == block_sum(src@, gw, gx, gy, gs, oy as nat, 0),
                s1 == block_sum(src@, gw, gx, gy, gs, oy as nat, 1),
                s2 == block_sum(src@, gw, gx, gy, gs, oy as nat, 2),
                s3 == block_sum(src@, gw, gx, gy, gs, oy as nat, 3),
                a0 == s0 + run_sum(src@, base, ox as nat),
                a1 == s1 + run_sum(src@, base + 1, ox as nat),
                a2 == s2 + run_sum(src@, base + 2, ox as nat),
                a3 == s3 + run_sum(src@, base + 3, ox as nat),
        {
            let i: usize = (row + x + ox) * 4;
            proof {
                assert(i == base + ox * 4);
                lemma_block_bound(src@, gw, gx, gy, gs, oy as nat, 0);
                lemma_block_bound(src@, gw, gx, gy, gs, oy as nat, 1);
                lemma_block_bound(src@, gw, gx, gy, gs, oy as nat, 2);
                lemma_block_bound(src@, gw, gx, gy, gs, oy as nat, 3);
                lemma_run_bound(src@, base, ox as nat);
                lemma_run_bound(src@, base + 1, ox as nat);
                lemma_run_bound(src@, base + 2, ox as nat);
                lemma_run_bound(src@, base + 3, ox as nat);
                assert(gs * (oy as nat) <= 4096 * 4096) by (nonlinear_arith)
                    requires
                        gs <= 4096,
                        oy as nat <= 4096,
                ;
            }
            a0 = a0 + src[i] as u32;
            a1 = a1 + src[i + 1] as u32;
            a2 = a2 + src[i + 2] as u32;
            a3 = a3 + src[i + 3] as u32;
        }
    }
    proof {
        lemma_block_bound(src@, gw, gx, gy, gs, gs, 0);
        lemma_block_bound(src@, gw, gx, gy, gs, gs, 1);
        lemma_block_bound(src@, gw, gx, gy, gs, gs, 2);
        lemma_block_bound(src@, gw, gx, gy, gs, gs, 3);
        assert(1 <= gs * gs <= 4096 * 4096) by (nonlinear_arith)
            requires
                1 <= gs <= 4096,
        ;
        lemma_average_is_byte(a0 as nat, gs * gs);
        lemma_average_is_byte(a1 as nat, gs * gs);
        lemma_average_is_byte(a2 as nat, gs * gs);
        lemma_average_is_byte(a3 as nat, gs * gs);
    }
    let n: u32 = side * side;
    ((a0 / n) as u8, (a1 / n) as u8, (a2 / n) as u8, (a3 / n) as u8)
}

proof fn lemma_average_is_byte(sum: nat, n: nat)
    requires
        n > 0,
        sum <= 255 * n,
    ensures
        sum / n <= 255,
{
    assert(sum / n <= 255) by (nonlinear_arith)
        requires
            n > 0,
            sum <= 255 * n,
    ;
}

/// Makes an image smaller: each of the `dw` by `dh` pixels that come out is the average of the block
/// of `ss` by `ss` pixels in its place.
pub fn box_downsample(src: &[u8], sw: u32, dw: u32, dh: u32, ss: u32) -> (r: Vec<u8>)
    requires
        1 <= ss <= 4096,
        dw > 0 && dh > 0 ==> ((dh * ss - 1) * sw + dw * ss) * 4 <= src@.len(),
        dh * ss <= usize::MAX,
    ensures
        r@ == downsampled(src@, sw as nat, dw as nat, dh as nat, ss as nat),
{
    let ghost whole = downsampled(src@, sw as nat, dw as nat, dh as nat, ss as nat);
    let total: usize = src.len();
    let side: usize = ss as usize;
    let mut out: Vec<u8> = Vec::new();
    proof {
        assert(0 * dw == 0);
    }
    for dy in 0..dh
        invariant
            1 <= ss <= 4096,
            side == ss,
            total == src@.len(),
            dw > 0 && dh > 0 ==> ((dh * ss - 1) * sw + dw * ss) * 4 <= src@.len(),
            dh * ss <= usize::MAX,
            whole == downsampled(src@, sw as nat, dw as nat, dh as nat, ss as nat),
            out@.len() == dy * dw * 4,
            out@ =~= whole.take(dy * dw * 4),
    {
        for dx in 0..dw
            invariant
                1 <= ss <= 4096,
                side == ss,
                total == src@.len(),
                dy < dh,
                dw > 0 && dh > 0 ==> ((dh * ss - 1) * sw + dw * ss) * 4 <= src@.len(),
                dh * ss <= usize::MAX,
                whole == downsampled(src@, sw as nat, dw as nat, dh as nat, ss as nat),
                out@.len() == (dy * dw + dx) * 4,
                out@ =~= whole.take((dy * dw + dx) * 4),
        {
            proof {
                lemma_block_in_range(
                    sw as nat,
                    dw as nat,
                    dh as nat,
                    ss as nat,
                    dx as int,
                    dy as int,
                    src@.len(),
                    usize::MAX as nat,
                );
                lemma_pixel_of_index(dw as int, dh as int, dx as int, dy as int, 0);
                lemma_pixel_of_index(dw as int, dh as int, dx as int, dy as int, 1);
                lemma_pixel_of_index(dw as int, dh as int, dx as int, dy as int, 2);
                lemma_pixel_of_index(dw as int, dh as int, dx as int, dy as int, 3);
            }
            let (a, b, c, d) = average_block(
                src,
                sw as usize,
                dx as usize * side,
                dy as usize * side,
                ss,
            );
            let ghost before = out@;
            let ghost at = (dy * dw + dx) * 4;
            out.push(a);
            out.push(b);
            out.push(c);
            out.push(d);
            proof {
                assert(whole[at] == a);
                assert(whole[at + 1] == b);
                assert(whole[at + 2] == c);
                assert(whole[at + 3] == d);
                assert(out@ =~= whole.take((dy * dw + dx + 1) * 4));
            }
        }
        assert((dy + 1) * dw == dy * dw + dw) by (nonlinear_arith);
    }
    assert(dh * dw == dw * dh) by (nonlinear_arith);
    assert(whole.take(whole.len() as int) =~= whole);
    out
}

/// A block of pixels lies within the image.
proof fn lemma_block_in_range(
    sw: nat,
    dw: nat,
    dh: nat,
    ss: nat,
    dx: int,
    dy: int,
    len: nat,
    max: nat,
)
    requires
        ss >= 1,
        0 <= dx < dw,
        0 <= dy < dh,
        ((dh * ss - 1) * sw + dw * ss) * 4 <= len,
        dh * ss <= max,
    ensures
        0 <= dy * ss,
        0 <= dx * ss,
        dy * ss + ss <= max,
        dx * ss <= len,
        ((dy * ss + ss - 1) * sw + dx * ss + ss) * 4 <= len,
{
    assert(dy * ss + ss <= dh * ss && 0 <= dy * ss) by (nonlinear_arith)
        requires
            0 <= dy,
            dy + 1 <= dh,
            0 <= ss,
    ;
    assert(dx * ss + ss <= dw * ss && 0 <= dx * ss) by (nonlinear_arith)
        requires
            0 <= dx,
            dx + 1 <= dw,
            0 <= ss,
    ;
    let low = dy * ss + ss - 1;
    let high = dh * ss - 1;
    assert(0 <= low * sw && low * sw <= high * sw) by (nonlinear_arith)
        requires
            0 <= low <= high,
            0 <= sw,
    ;
}

/// The pixel and the component that an index belongs to.
proof fn lemma_pixel_of_index(dw: int, dh: int, dx: int, dy: int, c: int)
    requires
        0 <= dx < dw,
        0 <= dy < dh,
        0 <= c < 4,
    ensures
        0 <= (dy * dw + dx) * 4,
        (dy * dw + dx) * 4 + 4 <= dw * dh * 4,
        ((dy * dw + dx) * 4 + c) / 4 % dw == dx,
        ((dy * dw + dx) * 4 + c) / 4 / dw == dy,
        ((dy * dw + dx) * 4 + c) % 4 == c,
{
    assert(0 <= dy * dw && dy * dw + dw <= dw * dh) by (nonlinear_arith)
        requires
            0 <= dy,
            dy + 1 <= dh,
            0 <= dw,
    ;
    let p = dy * dw + dx;
    vstd::arithmetic::div_mod::lemma_fundamental_div_mod_converse(p, dw, dy, dx);
    assert((p * 4 + c) / 4 == p);
}

/// Component `c` of the pixel at `dx`, `dy` is the average of the block of pixels in its place.
pub proof fn law_downsampled_pixel(
    src: Seq<u8>,
    sw: nat,
    dw: nat,
    dh: nat,
    side: nat,
    dx: int,
    dy: int,
    c: int,
)
    requires
        side > 0,
        0 <= dx < dw,
        0 <= dy < dh,
        0 <= c < 4,
    ensures
        downsampled(src, sw, dw, dh, side)[(dy * dw + dx) * 4 + c] == block_average(
            src,
            sw,
            dx * side,
            dy * side,
            side,
            c,
        ),
{
    lemma_pixel_of_index(dw as int, dh as int, dx, dy, c);
    lemma_block_bound(src, sw, dx * side, dy * side, side, side, c);
    assert(side * side > 0) by (nonlinear_arith)
        requires
            side > 0,
    ;
    lemma_average_is_byte(block_sum(src, sw, dx * side, dy * side, side, side, c), side * side);
}

/// Whether component `c` is `v` in every pixel of a block.
pub open spec fn block_is(src: Seq<u8>, sw: nat, x: int, y: int, side: nat, rows: nat, c: int, v: u8) -> bool {
    forall|i: int, j: int|
        0 <= i < side && 0 <= j < rows ==> src[#[trigger] (((y + j) * sw + x) * 4 + c + i * 4)] == v
}

proof fn lemma_flat_run(src: Seq<u8>, at: int, n: nat, v: u8)
    requires
        forall|i: int| 0 <= i < n ==> src[#[trigger] (at + i * 4)] == v,
    ensures
        run_sum(src, at, n) == v * n,
    decreases n,
{
    if n > 0 {
        lemma_flat_run(src, at, (n - 1) as nat, v);
        let i = n - 1;
        assert(src[at + i * 4] == v);
        assert(v * n == v * (n - 1) + v) by (nonlinear_arith);
    } else {
        assert(v * n == 0) by (nonlinear_arith)
            requires
                n == 0,
        ;
    }
}

proof fn lemma_flat_block(src: Seq<u8>, sw: nat, x: int, y: int, side: nat, rows: nat, c: int, v: u8)
    requires
        block_is(src, sw, x, y, side, rows, c, v),
    ensures
        block_sum(src, sw, x, y, side, rows, c) == v * (side * rows),
    decreases rows,
{
    if rows > 0 {
        let k = (rows - 1) as nat;
        lemma_flat_block(src, sw, x, y, side, k, c, v);
        let at = ((y + rows - 1) * sw + x) * 4 + c;
        assert forall|i: int| 0 <= i < side implies src[#[trigger] (at + i * 4)] == v by {
            let j = rows - 1;
            assert(at == ((y + j) * sw + x) * 4 + c);
            assert(src[((y + j) * sw + x) * 4 + c + i * 4] == v);
        }
        lemma_flat_run(src, at, side, v);
        assert(v * (side * rows) == v * (side * k) + v * side) by (nonlinear_arith)
            requires
                rows == k + 1,
        ;
    } else {
        assert(v * (side * rows) == 0) by (nonlinear_arith)
            requires
                rows == 0,
        ;
    }
}

/// Averaging changes no plain area: where a component has one value throughout a block, that is its
/// average.
pub proof fn law_plain_area_stays(src: Seq<u8>, sw: nat, x: int, y: int, side: nat, c: int, v: u8)
    requires
        side > 0,
        block_is(src, sw, x, y, side, side, c, v),
    ensures
        block_average(src, sw, x, y, side, c) == v,
{
    lemma_flat_block(src, sw, x, y, side, side, c, v);
    let n = side * side;
    assert(n > 0) by (nonlinear_arith)
        requires
            side > 0,
            n == side * side,
    ;
    assert((v * n) / (n as int) == v) by (nonlinear_arith)
        requires
            n > 0,
    ;
}

// ---------------------------------------------------------------------------
// The area around a page.

/// The grey of the area around a page.
pub const LETTERBOX: u8 = 26;

/// A rectangle of pixels: from `x0`, `y0` up to, but not including, `x1`, `y1`. It can reach beyond
/// the image.
#[derive(Clone, Copy, Debug, PartialEq, Eq, Structural)]
pub struct PixelRect {
    pub x0: i64,
    pub y0: i64,
    pub x1: i64,
    pub y1: i64,
}

impl PixelRect {
    /// Whether a pixel is in the rectangle.
    pub open spec fn has(self, x: int, y: int) -> bool {
        self.x0 <= x < self.x1 && self.y0 <= y < self.y1
    }
}

/// Component `c` of a pixel in the area around a page.
pub open spec fn letterbox_component(c: int) -> u8 {
    if c == 3 {
        255
    } else {
        LETTERBOX
    }
}

/// An image with everything outside the page painted over. What follows the image in the buffer is
/// left as it is.
pub open spec fn letterboxed(rgba: Seq<u8>, w: nat, h: nat, page: PixelRect) -> Seq<u8> {
    Seq::new(
        rgba.len(),
        |i: int|
            if i < w * h * 4 && !page.has(i / 4 % (w as int), i / 4 / (w as int)) {
                letterbox_component(i % 4)
            } else {
                rgba[i]
            },
    )
}

/// Paints over everything outside the page.
pub fn fill_letterbox(rgba: &mut [u8], out_w: u32, out_h: u32, page: PixelRect)
    requires
        out_w * out_h * 4 <= old(rgba)@.len(),
    ensures
        final(rgba)@ == letterboxed(old(rgba)@, out_w as nat, out_h as nat, page),
{
    let ghost whole = letterboxed(old(rgba)@, out_w as nat, out_h as nat, page);
    let total: usize = rgba.len();
    assert(0 * out_w == 0) by (nonlinear_arith);
    for y in 0..out_h
        invariant
            total == old(rgba)@.len(),
            rgba@.len() == total,
            out_w * out_h * 4 <= total,
            whole == letterboxed(old(rgba)@, out_w as nat, out_h as nat, page),
            forall|i: int| 0 <= i < y * out_w * 4 ==> rgba@[i] == whole[i],
            forall|i: int| y * out_w * 4 <= i < total ==> rgba@[i] == old(rgba)@[i],
    {
        let inside_y = y as i64 >= page.y0 && (y as i64) < page.y1;
        for x in 0..out_w
            invariant
                total == old(rgba)@.len(),
                rgba@.len() == total,
                y < out_h,
                out_w * out_h * 4 <= total,
                inside_y == (page.y0 <= y < page.y1),
                whole == letterboxed(old(rgba)@, out_w as nat, out_h as nat, page),
                forall|i: int| 0 <= i < (y * out_w + x) * 4 ==> rgba@[i] == whole[i],
                forall|i: int| (y * out_w + x) * 4 <= i < total ==> rgba@[i] == old(rgba)@[i],
        {
            proof {
                lemma_pixel_of_index(out_w as int, out_h as int, x as int, y as int, 0);
                lemma_pixel_of_index(out_w as int, out_h as int, x as int, y as int, 1);
                lemma_pixel_of_index(out_w as int, out_h as int, x as int, y as int, 2);
                lemma_pixel_of_index(out_w as int, out_h as int, x as int, y as int, 3);
                assert(0 <= y * out_w) by (nonlinear_arith)
                    requires
                        0 <= y,
                        0 <= out_w,
                ;
            }
            let at: usize = (y as usize * out_w as usize + x as usize) * 4;
            let inside = inside_y && x as i64 >= page.x0 && (x as i64) < page.x1;
            assert(inside == page.has(x as int, y as int));
            if !inside {
                rgba[at] = LETTERBOX;
                rgba[at + 1] = LETTERBOX;
                rgba[at + 2] = LETTERBOX;
                rgba[at + 3] = 255;
            }
            assert forall|i: int| 0 <= i < (y * out_w + x + 1) * 4 implies rgba@[i] == whole[i] by {
                if i >= at {
                    assert(i == at || i == at + 1 || i == at + 2 || i == at + 3);
                }
            }
        }
        assert((y + 1) * out_w == y * out_w + out_w) by (nonlinear_arith);
    }
    assert(out_h * out_w == out_w * out_h) by (nonlinear_arith);
    assert(rgba@ =~= whole);
}

/// A page that covers the whole image is left as it is.
pub proof fn law_page_over_all_is_kept(rgba: Seq<u8>, w: nat, h: nat, page: PixelRect)
    requires
        page.x0 <= 0,
        page.y0 <= 0,
        page.x1 >= w,
        page.y1 >= h,
    ensures
        letterboxed(rgba, w, h, page) == rgba,
{
    assert forall|i: int| 0 <= i < rgba.len() && i < w * h * 4 implies page.has(
        i / 4 % (w as int),
        #[trigger] (i / 4 / (w as int)),
    ) by {
        let p = i / 4;
        assert(w > 0) by (nonlinear_arith)
            requires
                0 <= i < w * h * 4,
                w >= 0,
        ;
        vstd::arithmetic::div_mod::lemma_mod_bound(p, w as int);
        vstd::arithmetic::div_mod::lemma_div_pos_is_pos(p, w as int);
        assert(p < h * w) by (nonlinear_arith)
            requires
                i < w * h * 4,
                p == i / 4,
        ;
        vstd::arithmetic::div_mod::lemma_multiply_divide_lt(p, w as int, h as int);
    }
    assert(letterboxed(rgba, w, h, page) =~= rgba);
}

// ---------------------------------------------------------------------------
// Colouring.

/// For each of red, green and blue, what each value becomes.
pub struct Mix {
    pub tables: [[u8; 256]; 3],
}

/// An image with the colours in a rectangle mixed. Transparency stays, and so does a pixel that is
/// not whole.
pub open spec fn blended(rgba: Seq<u8>, w: nat, h: nat, rect: PixelRect, mix: Mix) -> Seq<u8> {
    Seq::new(
        rgba.len(),
        |i: int|
            if i < w * h * 4 && i / 4 * 4 + 3 < rgba.len() && i % 4 < 3 && rect.has(
                i / 4 % (w as int),
                i / 4 / (w as int),
            ) {
                mix.tables@[i % 4]@[rgba[i] as int]
            } else {
                rgba[i]
            },
    )
}

proof fn lemma_index_of_pixel(w: int, i: int)
    requires
        w > 0,
        i >= 0,
    ensures
        i / 4 == (i / 4 / w) * w + i / 4 % w,
        0 <= i / 4 % w < w,
        0 <= i / 4 / w,
{
    vstd::arithmetic::div_mod::lemma_fundamental_div_mod(i / 4, w);
    vstd::arithmetic::div_mod::lemma_mod_bound(i / 4, w);
    vstd::arithmetic::div_mod::lemma_div_pos_is_pos(i / 4, w);
    assert(w * (i / 4 / w) == (i / 4 / w) * w) by (nonlinear_arith);
}

/// Whether the pixel of index `i` comes before the pixel at `x`, `y`.
spec fn comes_before(w: int, i: int, x: int, y: int) -> bool {
    i / 4 / w < y || (i / 4 / w == y && i / 4 % w < x)
}

/// Mixes the colours in a rectangle of an image.
pub fn blend_rect(rgba: &mut [u8], w: u32, h: u32, rect: PixelRect, mix: &Mix)
    ensures
        final(rgba)@ == blended(old(rgba)@, w as nat, h as nat, rect, *mix),
{
    let ghost whole = blended(old(rgba)@, w as nat, h as nat, rect, *mix);
    let total: usize = rgba.len();
    let xa: i64 = if rect.x0 < 0 {
        0
    } else {
        rect.x0
    };
    let xb: i64 = if rect.x1 > w as i64 {
        w as i64
    } else {
        rect.x1
    };
    let ya: i64 = if rect.y0 < 0 {
        0
    } else {
        rect.y0
    };
    let yb: i64 = if rect.y1 > h as i64 {
        h as i64
    } else {
        rect.y1
    };
    if xa >= xb || ya >= yb {
        proof {
            assert forall|i: int| 0 <= i < total && i < w * h * 4 implies !rect.has(
                i / 4 % (w as int),
                #[trigger] (i / 4 / (w as int)),
            ) by {
                lemma_row_in_range(w as int, h as int, i);
            }
            assert(rgba@ =~= whole);
        }
        return;
    }
    let mut y: i64 = ya;
    proof {
        assert forall|i: int| 0 <= i < total && comes_before(w as int, i, xa as int, ya as int) implies
            #[trigger] whole[i] == old(rgba)@[i] by {}
    }
    while y < yb
        invariant
            0 <= ya <= y <= yb <= h,
            0 <= xa < xb <= w,
            xa == (if rect.x0 < 0 {
                0
            } else {
                rect.x0 as int
            }),
            xb == (if rect.x1 > w {
                w as int
            } else {
                rect.x1 as int
            }),
            rect.y0 <= ya,
            yb <= rect.y1,
            total == old(rgba)@.len(),
            rgba@.len() == total,
            whole == blended(old(rgba)@, w as nat, h as nat, rect, *mix),
            forall|i: int|
                0 <= i < total ==> #[trigger] rgba@[i] == (if comes_before(
                    w as int,
                    i,
                    xa as int,
                    y as int,
                ) {
                    whole[i]
                } else {
                    old(rgba)@[i]
                }),
        decreases yb - y,
    {
        let mut x: i64 = xa;
        while x < xb
            invariant
                0 <= ya <= y < yb <= h,
                0 <= xa <= x <= xb <= w,
                rect.x0 <= xa,
                xb <= rect.x1,
                rect.y0 <= ya,
                yb <= rect.y1,
                total == old(rgba)@.len(),
                rgba@.len() == total,
                whole == blended(old(rgba)@, w as nat, h as nat, rect, *mix),
                forall|i: int|
                    0 <= i < total ==> #[trigger] rgba@[i] == (if comes_before(
                        w as int,
                        i,
                        x as int,
                        y as int,
                    ) {
                        whole[i]
                    } else {
                        old(rgba)@[i]
                    }),
            decreases xb - x,
        {
            let ghost before = rgba@;
            proof {
                lemma_pixel_of_index(w as int, h as int, x as int, y as int, 0);
                lemma_pixel_of_index(w as int, h as int, x as int, y as int, 1);
                lemma_pixel_of_index(w as int, h as int, x as int, y as int, 2);
                lemma_pixel_of_index(w as int, h as int, x as int, y as int, 3);
                assert(y * w <= 0xffff_ffff * 0xffff_ffff && 0 <= y * w) by (nonlinear_arith)
                    requires
                        0 <= y <= 0xffff_ffff,
                        0 <= w <= 0xffff_ffff,
                ;
            }
            let at: u128 = (y as u128 * w as u128 + x as u128) * 4;
            assert(at == (y * w + x) * 4);
            if at + 3 < total as u128 {
                let k: usize = at as usize;
                rgba[k] = mix.tables[0][rgba[k] as usize];
                rgba[k + 1] = mix.tables[1][rgba[k + 1] as usize];
                rgba[k + 2] = mix.tables[2][rgba[k + 2] as usize];
            }
            assert forall|i: int| 0 <= i < total implies #[trigger] rgba@[i] == (if comes_before(
                w as int,
                i,
                x + 1,
                y as int,
            ) {
                whole[i]
            } else {
                old(rgba)@[i]
            }) by {
                lemma_index_of_pixel(w as int, i);
                if at <= i < at + 4 {
                    assert(i == at || i == at + 1 || i == at + 2 || i == at + 3);
                    assert(before[i] == old(rgba)@[i]);
                    assert(rect.has(x as int, y as int));
                } else {
                    assert(rgba@[i] == before[i]);
                    assert(!(i / 4 / (w as int) == y && i / 4 % (w as int) == x));
                }
            }
            x += 1;
        }
        assert forall|i: int| 0 <= i < total implies #[trigger] rgba@[i] == (if comes_before(
            w as int,
            i,
            xa as int,
            y + 1,
        ) {
            whole[i]
        } else {
            old(rgba)@[i]
        }) by {
            lemma_index_of_pixel(w as int, i);
            if i / 4 / (w as int) == y && i / 4 % (w as int) >= xb {
                assert(!rect.has(i / 4 % (w as int), i / 4 / (w as int)));
            }
            if i / 4 / (w as int) == y + 1 && i / 4 % (w as int) < xa {
                assert(!rect.has(i / 4 % (w as int), i / 4 / (w as int)));
            }
        }
        y += 1;
    }
    assert forall|i: int| 0 <= i < total implies rgba@[i] == whole[i] by {
        lemma_index_of_pixel(w as int, i);
        if !comes_before(w as int, i, xa as int, yb as int) && i < w * h * 4 {
            lemma_row_in_range(w as int, h as int, i);
        }
    }
    assert(rgba@ =~= whole);
}

proof fn lemma_row_in_range(w: int, h: int, i: int)
    requires
        0 <= i < w * h * 4,
        0 <= w,
        0 <= h,
    ensures
        w > 0,
        0 <= i / 4 % w < w,
        0 <= i / 4 / w < h,
{
    assert(w > 0) by (nonlinear_arith)
        requires
            0 <= i < w * h * 4,
            0 <= w,
    ;
    lemma_index_of_pixel(w, i);
    let p = i / 4;
    assert(p < h * w) by (nonlinear_arith)
        requires
            i < w * h * 4,
            p == i / 4,
    ;
    vstd::arithmetic::div_mod::lemma_multiply_divide_lt(p, w, h);
}

// ---------------------------------------------------------------------------
// What holds pixel by pixel.

/// A page is drawn at a factor at which neither its width nor its height is too large for the
/// renderer, or at one; at every greater factor that was wanted, one of the two is. A renderer
/// without a limit draws at the factor that was wanted.
pub proof fn law_neither_side_is_too_large(width: nat, height: nat, wanted: nat, max: nat, f: nat)
    requires
        wanted >= 1,
    ensures
        ({
            let factor = factor_for(width, height, wanted, max);
            &&& 1 <= factor <= wanted
            &&& max < u32::MAX && factor > 1 ==> width * factor <= max && height * factor <= max
            &&& max < u32::MAX && factor < f <= wanted ==> width * f > max || height * f > max
            &&& max >= u32::MAX ==> factor == wanted
        }),
{
    law_factor_is_the_greatest(width, height, wanted, max);
    let factor = factor_for(width, height, wanted, max);
    if factor < f <= wanted {
        assert(!drawable(width, height, f, max));
    }
    if max >= u32::MAX {
        assert(drawable(width, height, wanted, max));
    }
}

proof fn lemma_run_after_change(src: Seq<u8>, at: int, n: nat, k: int, v: u8)
    requires
        0 <= k < src.len(),
        0 <= at,
        n > 0 ==> at + (n - 1) * 4 < src.len(),
    ensures
        (exists|m: int| 0 <= m < n && k == #[trigger] (at + m * 4)) ==> run_sum(
            src.update(k, v),
            at,
            n,
        ) + src[k] == run_sum(src, at, n) + v,
        !(exists|m: int| 0 <= m < n && k == #[trigger] (at + m * 4)) ==> run_sum(
            src.update(k, v),
            at,
            n,
        ) == run_sum(src, at, n),
    decreases n,
{
    if n > 0 {
        let j = (n - 1) as nat;
        lemma_run_after_change(src, at, j, k, v);
        let last = at + (n - 1) * 4;
        if k == last {
            assert(k == at + j * 4);
            assert(forall|m: int| 0 <= m < j ==> k != #[trigger] (at + m * 4));
        } else if exists|m: int| 0 <= m < n && k == #[trigger] (at + m * 4) {
            let m = choose|m: int| 0 <= m < n && k == #[trigger] (at + m * 4);
            assert(0 <= m < j);
            assert(k == at + m * 4);
        }
    }
}

/// Whether the byte at `k` is component `c` of a pixel of the first `rows` rows of a block.
pub open spec fn in_block(sw: nat, x: int, y: int, side: nat, rows: nat, c: int, k: int) -> bool {
    exists|ox: int, oy: int|
        0 <= ox < side && 0 <= oy < rows && k == #[trigger] component_at(sw, x + ox, y + oy, c)
}

/// Where component `c` of the pixel at `x`, `y` of an image `sw` wide lies.
pub open spec fn component_at(sw: nat, x: int, y: int, c: int) -> int {
    (y * sw + x) * 4 + c
}

proof fn lemma_rows_apart(sw: nat, side: nat, ox: int, oy: int, m: int, j: int, x: int, y: int)
    requires
        side <= sw,
        0 <= ox < side,
        0 <= m < side,
        (y + oy) * sw + x + ox == (y + j) * sw + x + m,
    ensures
        oy == j,
        ox == m,
{
    assert((oy - j) * sw == m - ox) by (nonlinear_arith)
        requires
            (y + oy) * sw + x + ox == (y + j) * sw + x + m,
    ;
    if oy > j {
        assert((oy - j) * sw >= sw) by (nonlinear_arith)
            requires
                oy - j >= 1,
                sw >= 0,
        ;
    } else if oy < j {
        assert((oy - j) * sw <= -sw) by (nonlinear_arith)
            requires
                oy - j <= -1,
                sw >= 0,
        ;
    } else {
        assert((oy - j) * sw == 0) by (nonlinear_arith)
            requires
                oy == j,
        ;
    }
}

/// A row of a block, and the whole of it, counts every pixel of the block once, and no other: a
/// component that changes by some amount changes the sum by that amount where it is in the block, and
/// does not change it elsewhere.
pub proof fn law_every_pixel_counts_once(
    src: Seq<u8>,
    sw: nat,
    x: int,
    y: int,
    side: nat,
    rows: nat,
    c: int,
    k: int,
    v: u8,
)
    requires
        side <= sw,
        side > 0,
        0 <= x,
        0 <= y,
        0 <= c < 4,
        0 <= k < src.len(),
        rows > 0 ==> component_at(sw, x + side - 1, y + rows - 1, c) < src.len(),
    ensures
        in_block(sw, x, y, side, rows, c, k) ==> block_sum(
            src.update(k, v),
            sw,
            x,
            y,
            side,
            rows,
            c,
        ) + src[k] == block_sum(src, sw, x, y, side, rows, c) + v,
        !in_block(sw, x, y, side, rows, c, k) ==> block_sum(
            src.update(k, v),
            sw,
            x,
            y,
            side,
            rows,
            c,
        ) == block_sum(src, sw, x, y, side, rows, c),
    decreases rows,
{
    if rows > 0 {
        let r = (rows - 1) as nat;
        assert((y + rows - 2) * sw <= (y + rows - 1) * sw && 0 <= (y + rows - 1) * sw)
            by (nonlinear_arith)
            requires
                0 <= sw,
                0 <= y,
                rows >= 1,
        ;
        law_every_pixel_counts_once(src, sw, x, y, side, r, c, k, v);
        let at = ((y + rows - 1) * sw + x) * 4 + c;
        lemma_run_after_change(src, at, side, k, v);
        if exists|m: int| 0 <= m < side && k == #[trigger] (at + m * 4) {
            let m = choose|m: int| 0 <= m < side && k == #[trigger] (at + m * 4);
            assert(k == component_at(sw, x + m, y + (rows - 1), c));
            assert(in_block(sw, x, y, side, rows, c, k));
            if in_block(sw, x, y, side, r, c, k) {
                let (ox, oy) = choose|ox: int, oy: int|
                    0 <= ox < side && 0 <= oy < r && k == #[trigger] component_at(
                        sw,
                        x + ox,
                        y + oy,
                        c,
                    );
                lemma_rows_apart(sw, side, ox, oy, m, rows - 1, x, y);
            }
        } else {
            if in_block(sw, x, y, side, rows, c, k) {
                let (ox, oy) = choose|ox: int, oy: int|
                    0 <= ox < side && 0 <= oy < rows && k == #[trigger] component_at(
                        sw,
                        x + ox,
                        y + oy,
                        c,
                    );
                if oy == rows - 1 {
                    assert(k == at + ox * 4);
                }
                assert(k == component_at(sw, x + ox, y + oy, c));
                assert(in_block(sw, x, y, side, r, c, k));
            }
        }
        if in_block(sw, x, y, side, r, c, k) {
            let (ox, oy) = choose|ox: int, oy: int|
                0 <= ox < side && 0 <= oy < r && k == #[trigger] component_at(
                    sw,
                    x + ox,
                    y + oy,
                    c,
                );
            assert(k == component_at(sw, x + ox, y + oy, c));
            assert(in_block(sw, x, y, side, rows, c, k));
        }
    }
}

/// The sum over a block in which a component is zero throughout is zero.
pub proof fn law_black_block_sums_to_nothing(src: Seq<u8>, sw: nat, x: int, y: int, side: nat, c: int)
    requires
        block_is(src, sw, x, y, side, side, c, 0),
    ensures
        block_sum(src, sw, x, y, side, side, c) == 0,
{
    lemma_flat_block(src, sw, x, y, side, side, c, 0);
    assert(0 * (side * side) == 0) by (nonlinear_arith);
}

/// A pixel that comes out is the sum over its block, shared out evenly and rounded down: as many
/// times as the block has pixels it makes up the sum, up to less than one each. What comes out has
/// four bytes for each pixel.
pub proof fn law_pixel_is_the_share_of_its_block(
    src: Seq<u8>,
    sw: nat,
    dw: nat,
    dh: nat,
    side: nat,
    dx: int,
    dy: int,
    c: int,
)
    requires
        side > 0,
        0 <= dx < dw,
        0 <= dy < dh,
        0 <= c < 4,
    ensures
        downsampled(src, sw, dw, dh, side).len() == 4 * (dw * dh),
        ({
            let p = downsampled(src, sw, dw, dh, side)[component_at(dw, dx, dy, c)] as int;
            let sum = block_sum(src, sw, dx * side, dy * side, side, side, c);
            p * (side * side) <= sum < (p + 1) * (side * side)
        }),
{
    law_downsampled_pixel(src, sw, dw, dh, side, dx, dy, c);
    let n = (side * side) as int;
    let sum = block_sum(src, sw, dx * side, dy * side, side, side, c) as int;
    assert(n > 0) by (nonlinear_arith)
        requires
            side > 0,
            n == side * side,
    ;
    vstd::arithmetic::div_mod::lemma_fundamental_div_mod(sum, n);
    vstd::arithmetic::div_mod::lemma_mod_bound(sum, n);
    let p = sum / n;
    assert(p * n <= sum < (p + 1) * n) by (nonlinear_arith)
        requires
            sum == n * p + sum % n,
            0 <= sum % n < n,
    ;
}

/// Around a page everything is the same opaque grey, and on it nothing changes: a pixel is on the
/// page exactly if it is not left of it, above it, right of it or below it. What is behind the image
/// in the buffer stays.
pub proof fn law_only_the_page_is_seen(
    rgba: Seq<u8>,
    w: nat,
    h: nat,
    page: PixelRect,
    x: int,
    y: int,
)
    requires
        w * h * 4 <= rgba.len(),
        0 <= x < w,
        0 <= y < h,
    ensures
        ({
            let out = letterboxed(rgba, w, h, page);
            let at = (y * w + x) * 4;
            if x < page.x0 || y < page.y0 || x >= page.x1 || y >= page.y1 {
                out[at] == 26 && out[at + 1] == 26 && out[at + 2] == 26 && out[at + 3] == 255
            } else {
                out.subrange(at, at + 4) == rgba.subrange(at, at + 4)
            }
        }),
        letterboxed(rgba, w, h, page).len() == rgba.len(),
        letterboxed(rgba, w, h, page).skip((w * h * 4) as int) == rgba.skip((w * h * 4) as int),
{
    lemma_pixel_of_index(w as int, h as int, x, y, 0);
    lemma_pixel_of_index(w as int, h as int, x, y, 1);
    lemma_pixel_of_index(w as int, h as int, x, y, 2);
    lemma_pixel_of_index(w as int, h as int, x, y, 3);
    let out = letterboxed(rgba, w, h, page);
    let at = (y * w + x) * 4;
    assert(out.skip((w * h * 4) as int) =~= rgba.skip((w * h * 4) as int));
    if !(x < page.x0 || y < page.y0 || x >= page.x1 || y >= page.y1) {
        assert(out[at + 0] == rgba[at]);
        assert(out[at + 1] == rgba[at + 1]);
        assert(out[at + 2] == rgba[at + 2]);
        assert(out[at + 3] == rgba[at + 3]);
        assert(out.subrange(at, at + 4) =~= rgba.subrange(at, at + 4));
    }
}

/// In a rectangle each colour component becomes what its own table says, and transparency stays.
/// Outside it nothing changes.
pub proof fn law_only_the_rectangle_is_mixed(
    rgba: Seq<u8>,
    w: nat,
    h: nat,
    rect: PixelRect,
    mix: Mix,
    x: int,
    y: int,
)
    requires
        w * h * 4 <= rgba.len(),
        0 <= x < w,
        0 <= y < h,
    ensures
        ({
            let out = blended(rgba, w, h, rect, mix);
            let at = (y * w + x) * 4;
            if x < rect.x0 || y < rect.y0 || x >= rect.x1 || y >= rect.y1 {
                out.subrange(at, at + 4) == rgba.subrange(at, at + 4)
            } else {
                &&& out[at] == mix.tables@[0]@[rgba[at] as int]
                &&& out[at + 1] == mix.tables@[1]@[rgba[at + 1] as int]
                &&& out[at + 2] == mix.tables@[2]@[rgba[at + 2] as int]
                &&& out[at + 3] == rgba[at + 3]
            }
        }),
        blended(rgba, w, h, rect, mix).len() == rgba.len(),
        blended(rgba, w, h, rect, mix).skip((w * h * 4) as int) == rgba.skip((w * h * 4) as int),
{
    lemma_pixel_of_index(w as int, h as int, x, y, 0);
    lemma_pixel_of_index(w as int, h as int, x, y, 1);
    lemma_pixel_of_index(w as int, h as int, x, y, 2);
    lemma_pixel_of_index(w as int, h as int, x, y, 3);
    let out = blended(rgba, w, h, rect, mix);
    let at = (y * w + x) * 4;
    assert(out.skip((w * h * 4) as int) =~= rgba.skip((w * h * 4) as int));
    assert(out[at + 3] == rgba[at + 3]);
    if x < rect.x0 || y < rect.y0 || x >= rect.x1 || y >= rect.y1 {
        assert(out[at + 0] == rgba[at]);
        assert(out[at + 1] == rgba[at + 1]);
        assert(out[at + 2] == rgba[at + 2]);
        assert(out.subrange(at, at + 4) =~= rgba.subrange(at, at + 4));
    }
}

/// A pixel of which the buffer does not hold all four bytes is not mixed.
pub proof fn law_only_whole_pixels_are_mixed(
    rgba: Seq<u8>,
    w: nat,
    h: nat,
    rect: PixelRect,
    mix: Mix,
    i: int,
)
    requires
        0 <= i < rgba.len(),
        i >= rgba.len() - rgba.len() % 4,
    ensures
        blended(rgba, w, h, rect, mix)[i] == rgba[i],
{
}

} // verus!
