//! Drawing into the memory of a framebuffer.
use crate::backend::{DisplayError, OutputBackend, Surroundings};
use vstd::prelude::*;

verus! {

/// How the pixels of a framebuffer lie in memory.
#[derive(Clone, Copy, Debug)]
pub struct FbInfo {
    pub xres: u32,
    pub yres: u32,
    pub bits_per_pixel: u32,
    /// The bytes from the start of a row to the start of the next. Can be more than a row takes.
    pub line_length: u32,
    pub red_offset: u32,
    pub green_offset: u32,
    pub blue_offset: u32,
    pub transp_offset: u32,
    pub transp_length: u32,
}

/// Where a colour component lies in a pixel, in bits.
#[allow(non_camel_case_types)]
#[derive(Clone, Copy, Debug)]
pub struct fb_bitfield {
    pub offset: u32,
    pub length: u32,
    pub msb_right: u32,
}

/// What the system tells of the present mode of a framebuffer.
#[allow(non_camel_case_types)]
#[derive(Clone, Copy, Debug)]
pub struct fb_var_screeninfo {
    pub xres: u32,
    pub yres: u32,
    pub xres_virtual: u32,
    pub yres_virtual: u32,
    pub xoffset: u32,
    pub yoffset: u32,
    pub bits_per_pixel: u32,
    pub grayscale: u32,
    pub red: fb_bitfield,
    pub green: fb_bitfield,
    pub blue: fb_bitfield,
    pub transp: fb_bitfield,
    pub nonstd: u32,
    pub activate: u32,
    pub height: u32,
    pub width: u32,
    pub accel_flags: u32,
    pub pixclock: u32,
    pub left_margin: u32,
    pub right_margin: u32,
    pub upper_margin: u32,
    pub lower_margin: u32,
    pub hsync_len: u32,
    pub vsync_len: u32,
    pub sync: u32,
    pub vmode: u32,
    pub rotate: u32,
    pub colorspace: u32,
    pub reserved: [u32; 4],
}

/// What the system tells of the hardware of a framebuffer.
#[allow(non_camel_case_types)]
#[derive(Clone, Copy, Debug)]
pub struct fb_fix_screeninfo {
    pub id: [u8; 16],
    pub smem_start: usize,
    pub smem_len: u32,
    pub type_: u32,
    pub type_aux: u32,
    pub visual: u32,
    pub xpanstep: u16,
    pub ypanstep: u16,
    pub ywrapstep: u16,
    pub line_length: u32,
    pub mmio_start: usize,
    pub mmio_len: u32,
    pub accel: u32,
    pub capabilities: u16,
    pub reserved: [u16; 2],
}

/// How the pixels lie in memory, by what the system tells.
pub fn fb_info(var: &fb_var_screeninfo, fix: &fb_fix_screeninfo) -> (r: FbInfo)
    ensures
        r == (FbInfo {
            xres: var.xres,
            yres: var.yres,
            bits_per_pixel: var.bits_per_pixel,
            line_length: fix.line_length,
            red_offset: var.red.offset,
            green_offset: var.green.offset,
            blue_offset: var.blue.offset,
            transp_offset: var.transp.offset,
            transp_length: var.transp.length,
        }),
{
    FbInfo {
        xres: var.xres,
        yres: var.yres,
        bits_per_pixel: var.bits_per_pixel,
        line_length: fix.line_length,
        red_offset: var.red.offset,
        green_offset: var.green.offset,
        blue_offset: var.blue.offset,
        transp_offset: var.transp.offset,
        transp_length: var.transp.length,
    }
}

// ---------------------------------------------------------------------------
// Writing pixels.

/// How many whole bytes a pixel takes.
pub open spec fn pixel_bytes(fb: FbInfo) -> nat {
    (fb.bits_per_pixel / 8) as nat
}

/// Where a pixel lies in memory.
pub open spec fn pixel_at(fb: FbInfo, x: int, y: int) -> int {
    y * fb.line_length + x * pixel_bytes(fb)
}

/// Whether a pixel lies wholly within a memory of `len` bytes.
pub open spec fn fits(len: nat, fb: FbInfo, x: int, y: int) -> bool {
    pixel_at(fb, x, y) + pixel_bytes(fb) <= len
}

/// Whether the pixels have a transparency component.
pub open spec fn has_alpha(fb: FbInfo) -> bool {
    pixel_bytes(fb) >= 4 && fb.transp_length > 0
}

/// `dst` with the components of a pixel written at `at`, each into its byte: red, green, blue, and
/// transparency where the pixels have it.
pub open spec fn with_pixel(dst: Seq<u8>, fb: FbInfo, at: int, r: u8, g: u8, b: u8, a: u8) -> Seq<
    u8,
> {
    let rgb = dst.update(at + fb.red_offset / 8, r).update(at + fb.green_offset / 8, g).update(
        at + fb.blue_offset / 8,
        b,
    );
    if has_alpha(fb) {
        rgb.update(at + fb.transp_offset / 8, a)
    } else {
        rgb
    }
}

/// `dst` with the pixel of the image at `x`, `y` written. One that does not fit is left out.
pub open spec fn with_image_pixel(
    dst: Seq<u8>,
    rgba: Seq<u8>,
    img_w: nat,
    fb: FbInfo,
    x: int,
    y: int,
) -> Seq<u8> {
    let src = (y * img_w + x) * 4;
    if fits(dst.len(), fb, x, y) {
        with_pixel(
            dst,
            fb,
            pixel_at(fb, x, y),
            rgba[src],
            rgba[src + 1],
            rgba[src + 2],
            rgba[src + 3],
        )
    } else {
        dst
    }
}

/// `dst` with the first `n` pixels of row `y` written.
pub open spec fn with_row(dst: Seq<u8>, rgba: Seq<u8>, img_w: nat, fb: FbInfo, y: int, n: nat) -> Seq<
    u8,
>
    decreases n,
{
    if n == 0 {
        dst
    } else {
        with_image_pixel(
            with_row(dst, rgba, img_w, fb, y, (n - 1) as nat),
            rgba,
            img_w,
            fb,
            n - 1,
            y,
        )
    }
}

/// `dst` with the first `w` pixels of each of the first `n` rows written.
pub open spec fn with_rows(dst: Seq<u8>, rgba: Seq<u8>, img_w: nat, fb: FbInfo, w: nat, n: nat) -> Seq<
    u8,
>
    decreases n,
{
    if n == 0 {
        dst
    } else {
        with_row(
            with_rows(dst, rgba, img_w, fb, w, (n - 1) as nat),
            rgba,
            img_w,
            fb,
            n - 1,
            w,
        )
    }
}

/// How many of `n` pixels of an image are shown on a screen of `max`.
pub open spec fn shown(n: u32, max: u32) -> nat {
    if n < max {
        n as nat
    } else {
        max as nat
    }
}

/// `dst` with an image written into it from the top left corner, as far as it is on the screen.
/// Pixels of fewer than three bytes are not written.
pub open spec fn blitted(dst: Seq<u8>, rgba: Seq<u8>, img_w: u32, img_h: u32, fb: FbInfo) -> Seq<
    u8,
> {
    if pixel_bytes(fb) < 3 {
        dst
    } else {
        with_rows(dst, rgba, img_w as nat, fb, shown(img_w, fb.xres), shown(img_h, fb.yres))
    }
}

/// Whether the data of an image covers what is shown of it.
pub open spec fn covers(rgba: Seq<u8>, img_w: u32, img_h: u32, fb: FbInfo) -> bool {
    let w = shown(img_w, fb.xres);
    let h = shown(img_h, fb.yres);
    w > 0 && h > 0 ==> ((h - 1) * img_w + w) * 4 <= rgba.len()
}

/// Whether the components of every pixel that fits lie within a memory of `len` bytes.
pub open spec fn components_fit(len: nat, img_w: u32, img_h: u32, fb: FbInfo) -> bool {
    forall|x: int, y: int|
        0 <= x < shown(img_w, fb.xres) && 0 <= y < shown(img_h, fb.yres) && #[trigger] fits(
            len,
            fb,
            x,
            y,
        ) ==> {
            let at = pixel_at(fb, x, y);
            &&& at + fb.red_offset / 8 < len
            &&& at + fb.green_offset / 8 < len
            &&& at + fb.blue_offset / 8 < len
            &&& has_alpha(fb) ==> at + fb.transp_offset / 8 < len
        }
}

proof fn lemma_source_in_range(img_w: nat, w: nat, h: nat, x: int, y: int, len: nat)
    requires
        0 <= x < w,
        0 <= y < h,
        ((h - 1) * img_w + w) * 4 <= len,
    ensures
        0 <= y * img_w <= (y * img_w + x) * 4,
        (y * img_w + x) * 4 + 4 <= len,
{
    assert(y * img_w <= (h - 1) * img_w) by (nonlinear_arith)
        requires
            y <= h - 1,
            0 <= img_w,
    ;
    assert(0 <= y * img_w) by (nonlinear_arith)
        requires
            0 <= y,
            0 <= img_w,
    ;
}

/// Writes an image into the memory of a framebuffer, from the top left corner, as far as it is on
/// the screen.
pub fn blit(dst: &mut [u8], rgba: &[u8], img_w: u32, img_h: u32, fb: &FbInfo)
    requires
        pixel_bytes(*fb) >= 3 ==> covers(rgba@, img_w, img_h, *fb),
        pixel_bytes(*fb) >= 3 ==> components_fit(old(dst)@.len(), img_w, img_h, *fb),
    ensures
        final(dst)@ == blitted(old(dst)@, rgba@, img_w, img_h, *fb),
{
    let per_pixel: u32 = fb.bits_per_pixel / 8;
    if per_pixel < 3 {
        return;
    }
    let copy_w: u32 = if img_w < fb.xres {
        img_w
    } else {
        fb.xres
    };
    let copy_h: u32 = if img_h < fb.yres {
        img_h
    } else {
        fb.yres
    };
    let len: usize = dst.len();
    let data: usize = rgba.len();
    let red: usize = (fb.red_offset / 8) as usize;
    let green: usize = (fb.green_offset / 8) as usize;
    let blue: usize = (fb.blue_offset / 8) as usize;
    let transp: usize = (fb.transp_offset / 8) as usize;
    let alpha = per_pixel >= 4 && fb.transp_length > 0;
    for y in 0..copy_h
        invariant
            per_pixel == pixel_bytes(*fb),
            per_pixel >= 3,
            copy_w == shown(img_w, fb.xres),
            copy_h == shown(img_h, fb.yres),
            len == old(dst)@.len(),
            dst@.len() == len,
            data == rgba@.len(),
            red == fb.red_offset / 8,
            green == fb.green_offset / 8,
            blue == fb.blue_offset / 8,
            transp == fb.transp_offset / 8,
            alpha == has_alpha(*fb),
            covers(rgba@, img_w, img_h, *fb),
            components_fit(len as nat, img_w, img_h, *fb),
            dst@ == with_rows(old(dst)@, rgba@, img_w as nat, *fb, copy_w as nat, y as nat),
    {
        let ghost above = dst@;
        for x in 0..copy_w
            invariant
                per_pixel == pixel_bytes(*fb),
                per_pixel >= 3,
                y < copy_h,
                copy_w == shown(img_w, fb.xres),
                copy_h == shown(img_h, fb.yres),
                dst@.len() == len,
                data == rgba@.len(),
                red == fb.red_offset / 8,
                green == fb.green_offset / 8,
                blue == fb.blue_offset / 8,
                transp == fb.transp_offset / 8,
                alpha == has_alpha(*fb),
                covers(rgba@, img_w, img_h, *fb),
                components_fit(len as nat, img_w, img_h, *fb),
                dst@ == with_row(above, rgba@, img_w as nat, *fb, y as int, x as nat),
        {
            proof {
                lemma_source_in_range(
                    img_w as nat,
                    copy_w as nat,
                    copy_h as nat,
                    x as int,
                    y as int,
                    rgba@.len(),
                );
                assert(y * fb.line_length <= 0xffff_ffff * 0xffff_ffff) by (nonlinear_arith)
                    requires
                        y <= 0xffff_ffff,
                        fb.line_length <= 0xffff_ffff,
                ;
                assert(x * per_pixel <= 0xffff_ffff * 0xffff_ffff) by (nonlinear_arith)
                    requires
                        x <= 0xffff_ffff,
                        per_pixel <= 0xffff_ffff,
                ;
            }
            let at: u128 = y as u128 * fb.line_length as u128 + x as u128 * per_pixel as u128;
            assert(at == pixel_at(*fb, x as int, y as int));
            if at + per_pixel as u128 <= len as u128 {
                assert(fits(len as nat, *fb, x as int, y as int));
                let src: usize = (y as usize * img_w as usize + x as usize) * 4;
                let off: usize = at as usize;
                dst[off + red] = rgba[src];
                dst[off + green] = rgba[src + 1];
                dst[off + blue] = rgba[src + 2];
                if alpha {
                    dst[off + transp] = rgba[src + 3];
                }
            }
        }
    }
}

/// Whether the components of a pixel lie in different bytes of it.
pub open spec fn components_apart(fb: FbInfo) -> bool {
    let (r, g, b, t) = (
        fb.red_offset / 8,
        fb.green_offset / 8,
        fb.blue_offset / 8,
        fb.transp_offset / 8,
    );
    &&& r < pixel_bytes(fb) && g < pixel_bytes(fb) && b < pixel_bytes(fb)
    &&& r != g && r != b && g != b
    &&& has_alpha(fb) ==> t < pixel_bytes(fb) && t != r && t != g && t != b
}

/// Whether the byte at `i` belongs to the pixel at `x`, `y`.
pub open spec fn in_pixel(fb: FbInfo, x: int, y: int, i: int) -> bool {
    pixel_at(fb, x, y) <= i < pixel_at(fb, x, y) + pixel_bytes(fb)
}

proof fn lemma_pixel_frame(dst: Seq<u8>, rgba: Seq<u8>, img_w: nat, fb: FbInfo, x: int, y: int)
    requires
        components_apart(fb),
        0 <= x,
        0 <= y,
    ensures
        pixel_at(fb, x, y) >= 0,
        with_image_pixel(dst, rgba, img_w, fb, x, y).len() == dst.len(),
        forall|i: int|
            0 <= i < dst.len() && !in_pixel(fb, x, y, i) ==> #[trigger] with_image_pixel(
                dst,
                rgba,
                img_w,
                fb,
                x,
                y,
            )[i] == dst[i],
{
    assert(y * fb.line_length + x * pixel_bytes(fb) >= 0) by (nonlinear_arith)
        requires
            0 <= x,
            0 <= y,
            0 <= fb.line_length,
            0 <= pixel_bytes(fb),
    ;
}

proof fn lemma_row_length(dst: Seq<u8>, rgba: Seq<u8>, img_w: nat, fb: FbInfo, y: int, n: nat)
    requires
        components_apart(fb),
        0 <= y,
    ensures
        with_row(dst, rgba, img_w, fb, y, n).len() == dst.len(),
    decreases n,
{
    if n > 0 {
        let k = (n - 1) as nat;
        lemma_row_length(dst, rgba, img_w, fb, y, k);
        lemma_pixel_frame(with_row(dst, rgba, img_w, fb, y, k), rgba, img_w, fb, k as int, y);
    }
}

proof fn lemma_rows_length(dst: Seq<u8>, rgba: Seq<u8>, img_w: nat, fb: FbInfo, w: nat, n: nat)
    requires
        components_apart(fb),
    ensures
        with_rows(dst, rgba, img_w, fb, w, n).len() == dst.len(),
    decreases n,
{
    if n > 0 {
        let k = (n - 1) as nat;
        lemma_rows_length(dst, rgba, img_w, fb, w, k);
        lemma_row_length(with_rows(dst, rgba, img_w, fb, w, k), rgba, img_w, fb, k as int, w);
    }
}

/// Pixels `m` to `n` of a row leave alone a byte that belongs to none of them.
proof fn lemma_row_frame(
    dst: Seq<u8>,
    rgba: Seq<u8>,
    img_w: nat,
    fb: FbInfo,
    y: int,
    m: nat,
    n: nat,
    i: int,
)
    requires
        components_apart(fb),
        0 <= y,
        m <= n,
        0 <= i < dst.len(),
        forall|x: int| m <= x < n ==> !#[trigger] in_pixel(fb, x, y, i),
    ensures
        with_row(dst, rgba, img_w, fb, y, n)[i] == with_row(dst, rgba, img_w, fb, y, m)[i],
    decreases n,
{
    if m < n {
        let k = (n - 1) as nat;
        lemma_row_frame(dst, rgba, img_w, fb, y, m, k, i);
        lemma_row_length(dst, rgba, img_w, fb, y, k);
        assert(!in_pixel(fb, k as int, y, i));
        lemma_pixel_frame(with_row(dst, rgba, img_w, fb, y, k), rgba, img_w, fb, k as int, y);
    }
}

/// Rows `m` to `n` leave alone a byte that belongs to no pixel of theirs.
proof fn lemma_rows_frame(
    dst: Seq<u8>,
    rgba: Seq<u8>,
    img_w: nat,
    fb: FbInfo,
    w: nat,
    m: nat,
    n: nat,
    i: int,
)
    requires
        components_apart(fb),
        m <= n,
        0 <= i < dst.len(),
        forall|x: int, y: int|
            0 <= x < w && m <= y < n ==> !#[trigger] in_pixel(fb, x, y, i),
    ensures
        with_rows(dst, rgba, img_w, fb, w, n)[i] == with_rows(dst, rgba, img_w, fb, w, m)[i],
    decreases n,
{
    if m < n {
        let k = (n - 1) as nat;
        lemma_rows_frame(dst, rgba, img_w, fb, w, m, k, i);
        lemma_rows_length(dst, rgba, img_w, fb, w, k);
        let above = with_rows(dst, rgba, img_w, fb, w, k);
        lemma_row_frame(above, rgba, img_w, fb, k as int, 0, w, i);
    }
}

/// Two pixels of a screen whose rows do not overlap have no byte in common.
proof fn lemma_pixels_apart(fb: FbInfo, w: nat, x: int, y: int, x2: int, y2: int, i: int)
    requires
        fb.line_length >= w * pixel_bytes(fb),
        0 <= x < w,
        0 <= x2 < w,
        0 <= y,
        0 <= y2,
        x != x2 || y != y2,
        in_pixel(fb, x, y, i),
    ensures
        !in_pixel(fb, x2, y2, i),
{
    let b = pixel_bytes(fb) as int;
    let l = fb.line_length as int;
    assert(x * b >= 0 && x2 * b >= 0 && (x + 1) * b <= w * b && (x2 + 1) * b <= w * b && (x + 1) * b
        == x * b + b && (x2 + 1) * b == x2 * b + b) by (nonlinear_arith)
        requires
            0 <= x < w,
            0 <= x2 < w,
            0 <= b,
    ;
    if y < y2 {
        assert(y2 * l >= y * l + l) by (nonlinear_arith)
            requires
                y + 1 <= y2,
                0 <= l,
        ;
    } else if y2 < y {
        assert(y * l >= y2 * l + l) by (nonlinear_arith)
            requires
                y2 + 1 <= y,
                0 <= l,
        ;
    } else if x < x2 {
        assert(x2 * b >= x * b + b) by (nonlinear_arith)
            requires
                x + 1 <= x2,
                0 <= b,
        ;
    } else {
        assert(x * b >= x2 * b + b) by (nonlinear_arith)
            requires
                x2 + 1 <= x,
                0 <= b,
        ;
    }
}

/// Every pixel that is shown and fits can be read back, each component from its byte, where rows
/// do not overlap and the components of a pixel lie in different bytes of it.
pub proof fn law_blit_writes_each_pixel(
    dst: Seq<u8>,
    rgba: Seq<u8>,
    img_w: u32,
    img_h: u32,
    fb: FbInfo,
    x: int,
    y: int,
)
    requires
        pixel_bytes(fb) >= 3,
        components_apart(fb),
        fb.line_length >= shown(img_w, fb.xres) * pixel_bytes(fb),
        0 <= x < shown(img_w, fb.xres),
        0 <= y < shown(img_h, fb.yres),
        fits(dst.len(), fb, x, y),
    ensures
        ({
            let out = blitted(dst, rgba, img_w, img_h, fb);
            let at = pixel_at(fb, x, y);
            let src = (y * img_w + x) * 4;
            &&& out[at + fb.red_offset / 8] == rgba[src]
            &&& out[at + fb.green_offset / 8] == rgba[src + 1]
            &&& out[at + fb.blue_offset / 8] == rgba[src + 2]
            &&& has_alpha(fb) ==> out[at + fb.transp_offset / 8] == rgba[src + 3]
        }),
{
    let w = shown(img_w, fb.xres);
    let h = shown(img_h, fb.yres);
    let iw = img_w as nat;
    let at = pixel_at(fb, x, y);
    let above = with_rows(dst, rgba, iw, fb, w, y as nat);
    lemma_rows_length(dst, rgba, iw, fb, w, y as nat);
    lemma_row_length(above, rgba, iw, fb, y, x as nat);
    let before = with_row(above, rgba, iw, fb, y, x as nat);
    let after = with_image_pixel(before, rgba, iw, fb, x, y);
    lemma_pixel_frame(before, rgba, iw, fb, x, y);
    assert(after == with_row(above, rgba, iw, fb, y, (x + 1) as nat));
    let out = blitted(dst, rgba, img_w, img_h, fb);
    assert forall|i: int| in_pixel(fb, x, y, i) implies #[trigger] out[i] == after[i] by {
        assert forall|k: int| (x + 1) as nat <= k < w implies !#[trigger] in_pixel(fb, k, y, i) by {
            lemma_pixels_apart(fb, w, x, y, k, y, i);
        }
        lemma_row_frame(above, rgba, iw, fb, y, (x + 1) as nat, w, i);
        assert forall|k: int, r: int|
            0 <= k < w && (y + 1) as nat <= r < h implies !#[trigger] in_pixel(fb, k, r, i) by {
            lemma_pixels_apart(fb, w, x, y, k, r, i);
        }
        lemma_rows_frame(dst, rgba, iw, fb, w, (y + 1) as nat, h, i);
    }
    assert(in_pixel(fb, x, y, at + fb.red_offset / 8));
    assert(in_pixel(fb, x, y, at + fb.green_offset / 8));
    assert(in_pixel(fb, x, y, at + fb.blue_offset / 8));
    if has_alpha(fb) {
        assert(in_pixel(fb, x, y, at + fb.transp_offset / 8));
    }
}

/// A byte that belongs to no pixel that is shown keeps its value, and the memory its length.
pub proof fn law_blit_leaves_the_rest(
    dst: Seq<u8>,
    rgba: Seq<u8>,
    img_w: u32,
    img_h: u32,
    fb: FbInfo,
    i: int,
)
    requires
        components_apart(fb),
        0 <= i < dst.len(),
        forall|x: int, y: int|
            0 <= x < shown(img_w, fb.xres) && 0 <= y < shown(img_h, fb.yres)
                ==> !#[trigger] in_pixel(fb, x, y, i),
    ensures
        blitted(dst, rgba, img_w, img_h, fb).len() == dst.len(),
        blitted(dst, rgba, img_w, img_h, fb)[i] == dst[i],
{
    let w = shown(img_w, fb.xres);
    let h = shown(img_h, fb.yres);
    lemma_rows_length(dst, rgba, img_w as nat, fb, w, h);
    lemma_rows_frame(dst, rgba, img_w as nat, fb, w, 0, h, i);
}

// ---------------------------------------------------------------------------
// The backend.

/// Shows images on a framebuffer. What is shown is written into the memory of its device.
pub struct FramebufferBackend {
    path: String,
}

impl FramebufferBackend {
    /// The path of the device.
    pub closed spec fn path(self) -> Seq<char> {
        self.path@
    }

    /// A backend for the device at `path`.
    pub fn new(path: &str) -> (r: Self)
        ensures
            r.path() == path@,
    {
        FramebufferBackend { path: path.to_owned() }
    }
}

impl OutputBackend for FramebufferBackend {
    fn name(&self) -> (r: &'static str)
        ensures
            r@ == "framebuffer"@,
    {
        "framebuffer"
    }

    fn is_supported(&self, device_exists: bool) -> (r: bool)
        ensures
            r == device_exists,
    {
        device_exists
    }

    fn device(&self) -> (r: Option<&str>)
        ensures
            r matches Some(path) && path@ == self.path(),
    {
        Some(self.path.as_str())
    }

    fn display(&mut self, rgba: &[u8], width: u32, height: u32, around: &Surroundings) -> (r: Result<
        String,
        DisplayError,
    >)
        ensures
            r matches Ok(out) && out@.len() == 0,
            final(self).path() == old(self).path(),
    {
        Ok(String::new())
    }

    fn enter(&mut self) -> (r: String)
        ensures
            r@.len() == 0,
            final(self).path() == old(self).path(),
    {
        String::new()
    }

    fn leave(&mut self) -> (r: String)
        ensures
            r@.len() == 0,
            final(self).path() == old(self).path(),
    {
        String::new()
    }

    fn clear(&mut self) -> (r: String)
        ensures
            r@ == "\x1b[2J\x1b[H"@,
            final(self).path() == old(self).path(),
    {
        "\x1b[2J\x1b[H".to_owned()
    }

    fn redraw(&mut self, around: &Surroundings) -> (r: String)
        ensures
            r@.len() == 0,
            final(self).path() == old(self).path(),
    {
        String::new()
    }

    fn wants_periodic_redraw(&self) -> (r: bool)
        ensures
            !r,
    {
        false
    }
}

/// The screen shows the image: a pixel that both have, and that the memory has, stands in it row by
/// row, each component in the byte that the system tells of it.
pub proof fn law_screen_shows_the_image(
    dst: Seq<u8>,
    rgba: Seq<u8>,
    img_w: u32,
    img_h: u32,
    fb: FbInfo,
    bytes: int,
    x: int,
    y: int,
)
    requires
        bytes == fb.bits_per_pixel / 8,
        bytes >= 3,
        fb.red_offset / 8 < bytes,
        fb.green_offset / 8 < bytes,
        fb.blue_offset / 8 < bytes,
        fb.red_offset / 8 != fb.green_offset / 8,
        fb.red_offset / 8 != fb.blue_offset / 8,
        fb.green_offset / 8 != fb.blue_offset / 8,
        bytes >= 4 && fb.transp_length > 0 ==> {
            &&& fb.transp_offset / 8 < bytes
            &&& fb.transp_offset / 8 != fb.red_offset / 8
            &&& fb.transp_offset / 8 != fb.green_offset / 8
            &&& fb.transp_offset / 8 != fb.blue_offset / 8
        },
        fb.line_length >= fb.xres * bytes,
        0 <= x < img_w,
        x < fb.xres,
        0 <= y < img_h,
        y < fb.yres,
        y * fb.line_length + (x + 1) * bytes <= dst.len(),
    ensures
        ({
            let out = blitted(dst, rgba, img_w, img_h, fb);
            let at = y * fb.line_length + x * bytes;
            let src = (y * img_w + x) * 4;
            &&& out[at + fb.red_offset / 8] == rgba[src]
            &&& out[at + fb.green_offset / 8] == rgba[src + 1]
            &&& out[at + fb.blue_offset / 8] == rgba[src + 2]
            &&& bytes >= 4 && fb.transp_length > 0 ==> out[at + fb.transp_offset / 8] == rgba[src
                + 3]
        }),
{
    let b = pixel_bytes(fb) as int;
    let w = shown(img_w, fb.xres) as int;
    assert(w * b <= fb.xres * b && (x + 1) * b == x * b + b) by (nonlinear_arith)
        requires
            w <= fb.xres,
            0 <= b,
    ;
    law_blit_writes_each_pixel(dst, rgba, img_w, img_h, fb, x, y);
}

/// Nothing is written where no pixel of both the image and the screen is: right of the image or
/// below it, or between the rows of the memory. Where a pixel has fewer than three bytes nothing is
/// written at all.
pub proof fn law_rest_of_the_screen_stays(
    dst: Seq<u8>,
    rgba: Seq<u8>,
    img_w: u32,
    img_h: u32,
    fb: FbInfo,
    bytes: int,
    i: int,
)
    requires
        bytes == fb.bits_per_pixel / 8,
        bytes < 3 || components_apart(fb),
        0 <= i < dst.len(),
        bytes < 3 || forall|x: int, y: int|
            0 <= x < img_w && x < fb.xres && 0 <= y < img_h && y < fb.yres ==> i < #[trigger] (y
                * fb.line_length + x * bytes) || i >= y * fb.line_length + x * bytes + bytes,
    ensures
        blitted(dst, rgba, img_w, img_h, fb).len() == dst.len(),
        blitted(dst, rgba, img_w, img_h, fb)[i] == dst[i],
{
    if bytes >= 3 {
        assert forall|x: int, y: int|
            0 <= x < shown(img_w, fb.xres) && 0 <= y < shown(img_h, fb.yres) implies !#[trigger] in_pixel(
            fb,
            x,
            y,
            i,
        ) by {
            assert(i < y * fb.line_length + x * bytes || i >= y * fb.line_length + x * bytes
                + bytes);
        }
        law_blit_leaves_the_rest(dst, rgba, img_w, img_h, fb, i);
    }
}

} // verus!
