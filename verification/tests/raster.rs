use vecview::raster::{
    align_up, blend_rect, box_downsample, fill_letterbox, pack_rows, Mix, PixelRect, RenderPlan,
};

#[test]
fn align_up_reaches_the_next_multiple() {
    assert_eq!(align_up(0, 256), 0);
    assert_eq!(align_up(1, 256), 256);
    assert_eq!(align_up(256, 256), 256);
    assert_eq!(align_up(257, 256), 512);
    assert_eq!(align_up(10, 3), 12);
}

#[test]
fn plan_draws_as_large_as_can_be() {
    let p = RenderPlan::new(100, 50, 2, 8192);
    assert_eq!((p.target_w, p.target_h, p.factor), (100, 50, 2));
    assert_eq!((p.width, p.height, p.bytes_per_row), (200, 100, 1024));
    let limited = RenderPlan::new(3000, 100, 4, 8192);
    assert_eq!((limited.factor, limited.width), (2, 6000));
    let too_large = RenderPlan::new(9000, 100, 4, 8192);
    assert_eq!((too_large.factor, too_large.width), (1, 9000));
    let empty = RenderPlan::new(0, 0, 2, 0);
    assert_eq!((empty.target_w, empty.target_h, empty.factor), (1, 1, 1));
    assert_eq!(empty.bytes_per_row, 256);
}

#[test]
fn packing_drops_what_lies_between_rows() {
    let data = [1, 2, 0, 0, 3, 4, 0, 0, 5, 6];
    assert_eq!(pack_rows(&data, 4, 2, 3), vec![1, 2, 3, 4, 5, 6]);
    assert_eq!(pack_rows(&data, 4, 2, 0), Vec::<u8>::new());
    assert_eq!(pack_rows(&[7, 8], 2, 2, 1), vec![7, 8]);
}

#[test]
fn downsampling_averages_blocks() {
    let px = |v: u8| [v, v.wrapping_add(1), v.wrapping_add(2), 255];
    let src: Vec<u8> = [px(0), px(10), px(100), px(100), px(20), px(31), px(100), px(100)].concat();
    let out = box_downsample(&src, 4, 2, 1, 2);
    assert_eq!(out, vec![15, 16, 17, 255, 100, 101, 102, 255]);
}

#[test]
fn downsampling_by_one_changes_nothing_and_plain_areas_stay() {
    let src: Vec<u8> = (0..24).collect();
    assert_eq!(box_downsample(&src, 3, 3, 2, 1), src);
    let plain = vec![26u8; 6 * 6 * 4];
    assert_eq!(box_downsample(&plain, 6, 2, 2, 3), vec![26u8; 2 * 2 * 4]);
    assert_eq!(box_downsample(&plain, 6, 0, 2, 3), Vec::<u8>::new());
}

#[test]
fn letterbox_is_painted_outside_the_page() {
    let mut rgba = vec![255u8; 4 * 2 * 4];
    fill_letterbox(&mut rgba, 4, 2, PixelRect { x0: 1, y0: -5, x1: 3, y1: 1 });
    let grey = [26, 26, 26, 255];
    let white = [255; 4];
    let expected: Vec<u8> = [grey, white, white, grey, grey, grey, grey, grey].concat();
    assert_eq!(rgba, expected);
}

#[test]
fn page_over_all_is_kept() {
    let before: Vec<u8> = (0..32).collect();
    let mut rgba = before.clone();
    fill_letterbox(&mut rgba, 4, 2, PixelRect { x0: -3, y0: 0, x1: 4, y1: 9 });
    assert_eq!(rgba, before);
}

fn mix() -> Mix {
    let mut tables = [[0u8; 256]; 3];
    for v in 0..256usize {
        tables[0][v] = 255 - v as u8;
        tables[1][v] = v as u8;
        tables[2][v] = 7;
    }
    Mix { tables }
}

#[test]
fn blending_mixes_the_colours_of_a_rectangle() {
    let mut rgba = vec![10u8; 3 * 2 * 4];
    blend_rect(&mut rgba, 3, 2, PixelRect { x0: 1, y0: 0, x1: 2, y1: 1 }, &mix());
    let mut expected = vec![10u8; 3 * 2 * 4];
    expected[4] = 245;
    expected[6] = 7;
    assert_eq!(rgba, expected);
}

#[test]
fn blending_is_cut_off_at_the_image() {
    let mut rgba = vec![0u8; 2 * 2 * 4];
    blend_rect(&mut rgba, 2, 2, PixelRect { x0: -9, y0: 1, x1: 99, y1: 99 }, &mix());
    let expected: Vec<u8> = [[0, 0, 0, 0], [0, 0, 0, 0], [255, 0, 7, 0], [255, 0, 7, 0]].concat();
    assert_eq!(rgba, expected);
    let before = rgba.clone();
    blend_rect(&mut rgba, 2, 2, PixelRect { x0: 5, y0: 0, x1: 9, y1: 2 }, &mix());
    blend_rect(&mut rgba, 2, 2, PixelRect { x0: 1, y0: 0, x1: 1, y1: 2 }, &mix());
    assert_eq!(rgba, before);
}

#[test]
fn blending_leaves_a_pixel_that_is_not_whole() {
    let mut rgba = vec![0u8; 7];
    blend_rect(&mut rgba, 2, 1, PixelRect { x0: 0, y0: 0, x1: 2, y1: 1 }, &mix());
    assert_eq!(rgba, vec![255, 0, 7, 0, 0, 0, 0]);
}
