use multithread_raycaster_game::util::{blit_glyph, text_pixel};

#[test]
fn text_pixel_scales_by_coverage() {
    assert_eq!(text_pixel(255, 255, 255, 255), 0xFFFFFF);
    assert_eq!(text_pixel(255, 0, 0, 0), 0);
    assert_eq!(text_pixel(200, 100, 50, 128), ((200 * 128 / 255) << 16) | ((100 * 128 / 255) << 8) | (50 * 128 / 255));
}

#[test]
fn glyph_lands_above_its_baseline() {
    // 3x2 buffer, 2x1 glyph at x = 1, baseline y = 2: top row 1
    let mut buf = vec![0u32; 6];
    blit_glyph(&mut buf, 3, 2, &[255, 255], 2, 1, 1, 2, 0, 0, 255);
    assert_eq!(buf, vec![0, 0, 0, 0, 255, 255]);
}

#[test]
fn glyph_is_clipped_and_skips_empty_coverage() {
    let mut buf = vec![7u32; 4];
    // 2x2 glyph at x = 1, top row 0 (baseline 1 is not below its height 2)
    blit_glyph(&mut buf, 2, 2, &[255, 255, 0, 255], 2, 2, 1, 1, 255, 0, 0);
    // column 2 is outside the buffer; coverage 0 leaves the pixel
    assert_eq!(buf, vec![7, 0xFF0000, 7, 7]);
}

#[test]
fn glyph_may_overhang_a_short_buffer_where_nothing_is_written() {
    // 2x2 buffer declared, but only 3 pixels: the last pixel gets coverage 0
    let mut buf = vec![0u32; 3];
    assert!(multithread_raycaster_game::util::glyph_fits(3, 2, 2, &[255, 255, 255, 0], 2, 2, 0, 0, 0, 0, 9));
    blit_glyph(&mut buf, 2, 2, &[255, 255, 255, 0], 2, 2, 0, 0, 0, 0, 9);
    assert_eq!(buf, vec![9, 9, 9]);
}

#[test]
fn glyph_writing_past_the_buffer_does_not_fit() {
    assert!(!multithread_raycaster_game::util::glyph_fits(3, 2, 2, &[255, 255, 255, 255], 2, 2, 0, 0, 0, 0, 9));
    assert!(!multithread_raycaster_game::util::glyph_fits(4, 2, 2, &[255], 0, 2, 0, 0, 0, 0, 9));
}
