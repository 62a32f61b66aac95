use vecview::backend::{OutputBackend, Surroundings};
use vecview::framebuffer::{
    blit, fb_bitfield, fb_fix_screeninfo, fb_info, fb_var_screeninfo, FbInfo, FramebufferBackend,
};

fn bgra_info(xres: u32, yres: u32, line_length: u32) -> FbInfo {
    FbInfo {
        xres,
        yres,
        bits_per_pixel: 32,
        line_length,
        red_offset: 16,
        green_offset: 8,
        blue_offset: 0,
        transp_offset: 24,
        transp_length: 8,
    }
}

#[test]
fn blit_bgra_respects_offsets() {
    let fb = bgra_info(2, 2, 8);
    let mut dst = vec![0u8; 16];
    let rgba = vec![10, 20, 30, 40, 0, 0, 0, 0, 0, 0, 0, 0, 0, 0, 0, 0];
    blit(&mut dst, &rgba, 2, 2, &fb);
    assert_eq!(&dst[0..4], &[30, 20, 10, 40]);
}

#[test]
fn blit_honors_stride() {
    let fb = bgra_info(2, 2, 12);
    let mut dst = vec![0u8; 24];
    let mut rgba = vec![0u8; 16];
    let src = 8usize;
    rgba[src] = 255;
    rgba[src + 3] = 255;
    blit(&mut dst, &rgba, 2, 2, &fb);
    assert_eq!(dst[12 + 2], 255);
    assert_eq!(dst[12 + 3], 255);
}

#[test]
fn blit_clips_oversize_image() {
    let fb = bgra_info(2, 2, 8);
    let mut dst = vec![0u8; 16];
    let rgba = vec![100u8; 4 * 4 * 4];
    blit(&mut dst, &rgba, 4, 4, &fb);
    assert_eq!(dst[0], 100);
}

#[test]
fn blit_leaves_padding_and_small_pixels_alone() {
    let fb = bgra_info(2, 2, 12);
    let mut dst = vec![7u8; 24];
    blit(&mut dst, &[1u8; 16], 2, 2, &fb);
    assert_eq!(&dst[8..12], &[7, 7, 7, 7]);
    assert_eq!(&dst[20..24], &[7, 7, 7, 7]);

    let mut narrow = fb;
    narrow.bits_per_pixel = 16;
    let mut untouched = vec![9u8; 24];
    blit(&mut untouched, &[1u8; 16], 2, 2, &narrow);
    assert_eq!(untouched, vec![9u8; 24]);
}

#[test]
fn blit_without_transparency_keeps_the_fourth_byte() {
    let mut fb = bgra_info(1, 1, 4);
    fb.transp_length = 0;
    let mut dst = vec![5u8; 4];
    blit(&mut dst, &[1, 2, 3, 4], 1, 1, &fb);
    assert_eq!(dst, vec![3, 2, 1, 5]);
}

#[test]
fn blit_leaves_out_what_does_not_fit() {
    let fb = bgra_info(2, 2, 8);
    let mut dst = vec![0u8; 10];
    blit(&mut dst, &[9u8; 16], 2, 2, &fb);
    assert_eq!(dst, vec![9, 9, 9, 9, 9, 9, 9, 9, 0, 0]);
}

#[test]
fn info_is_taken_from_what_the_system_tells() {
    let field = |offset: u32| fb_bitfield { offset, length: 8, msb_right: 0 };
    let var = fb_var_screeninfo {
        xres: 640,
        yres: 480,
        xres_virtual: 0,
        yres_virtual: 0,
        xoffset: 0,
        yoffset: 0,
        bits_per_pixel: 32,
        grayscale: 0,
        red: field(16),
        green: field(8),
        blue: field(0),
        transp: field(24),
        nonstd: 0,
        activate: 0,
        height: 0,
        width: 0,
        accel_flags: 0,
        pixclock: 0,
        left_margin: 0,
        right_margin: 0,
        upper_margin: 0,
        lower_margin: 0,
        hsync_len: 0,
        vsync_len: 0,
        sync: 0,
        vmode: 0,
        rotate: 0,
        colorspace: 0,
        reserved: [0; 4],
    };
    let fix = fb_fix_screeninfo {
        id: [0; 16],
        smem_start: 0,
        smem_len: 0,
        type_: 0,
        type_aux: 0,
        visual: 0,
        xpanstep: 0,
        ypanstep: 0,
        ywrapstep: 0,
        line_length: 2560,
        mmio_start: 0,
        mmio_len: 0,
        accel: 0,
        capabilities: 0,
        reserved: [0; 2],
    };
    let fb = fb_info(&var, &fix);
    assert_eq!((fb.xres, fb.yres, fb.bits_per_pixel, fb.line_length), (640, 480, 32, 2560));
    assert_eq!((fb.red_offset, fb.green_offset, fb.blue_offset), (16, 8, 0));
    assert_eq!((fb.transp_offset, fb.transp_length), (24, 8));
}

#[test]
fn framebuffer_backend_has_a_device_and_writes_nothing() {
    let mut b = FramebufferBackend::new("/dev/fb0");
    assert_eq!(b.name(), "framebuffer");
    assert_eq!(b.device(), Some("/dev/fb0"));
    assert!(b.is_supported(true));
    assert!(!b.is_supported(false));
    let around = Surroundings { window: None, pane_active: true };
    assert_eq!(b.display(&[0; 4], 1, 1, &around), Ok(String::new()));
    assert_eq!(b.clear(), "\u{1b}[2J\u{1b}[H");
    assert_eq!(b.enter(), "");
    assert_eq!(b.leave(), "");
    assert_eq!(b.redraw(&around), "");
    assert!(!b.wants_periodic_redraw());
}
