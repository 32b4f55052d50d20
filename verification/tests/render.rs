use clip_vault::raster::{draw_filled_circle, set_pixel, LineStyle, Rgba};
use clip_vault::shapes::{render_shape, shape_fits, PixelShape};

/// Checks the shape, then burns it in.
fn render(buf: &mut [u8], w: usize, h: usize, shape: PixelShape, c: Rgba, base: Option<&[u8]>) {
    assert!(shape_fits(&shape, buf.len(), w, h));
    render_shape(buf, w, h, &shape, c, base);
}

fn make_filled_buf(w: usize, h: usize, c: Rgba) -> Vec<u8> {
    let mut buf = vec![0u8; w * h * 4];
    for i in 0..(w * h) {
        buf[i * 4] = c.r;
        buf[i * 4 + 1] = c.g;
        buf[i * 4 + 2] = c.b;
        buf[i * 4 + 3] = c.a;
    }
    buf
}

const RED: Rgba = Rgba { r: 255, g: 0, b: 0, a: 255 };
const BLACK: Rgba = Rgba { r: 0, g: 0, b: 0, a: 255 };
const BLUE: Rgba = Rgba { r: 0, g: 0, b: 255, a: 255 };
const GREEN: Rgba = Rgba { r: 0, g: 255, b: 0, a: 255 };
const WHITE: Rgba = Rgba { r: 255, g: 255, b: 255, a: 255 };

#[test]
fn test_eraser_fills_white_bug() {
    let w = 100usize;
    let h = 100usize;
    let mut buf = make_filled_buf(w, h, RED);
    let base_pixels = buf.clone();
    // The eraser over (10,10)-(30,30) with the base image restores it.
    render(&mut buf, w, h, PixelShape::Erase { x0: 10, y0: 10, x1: 30, y1: 30 }, WHITE, Some(base_pixels.as_slice()));
    let mut found_white = false;
    for y in 10..=30 {
        for x in 10..=30 {
            let i = (y * w + x) * 4;
            if buf[i] == 255 && buf[i + 1] == 255 && buf[i + 2] == 255 && buf[i + 3] == 255 {
                found_white = true;
            }
        }
    }
    assert!(!found_white, "Eraser filled pixels with white instead of restoring original red pixels");
}

#[test]
fn test_text_not_rendered_bug() {
    let w = 100usize;
    let h = 100usize;
    let mut buf = make_filled_buf(w, h, BLACK);
    let snapshot_before = buf.clone();
    // Width 16 gives a font size of 64, so each glyph pixel is 9 x 9.
    render(&mut buf, w, h, PixelShape::Text { x: 10, y: 10, scale: 9, text: "A".to_string() }, RED, None);
    let pixels_changed = buf.iter().zip(snapshot_before.iter()).filter(|(a, b)| a != b).count();
    assert!(pixels_changed > 0, "Text annotation produced zero pixel changes");
}

#[test]
fn test_number_no_digit_bug() {
    let w = 100usize;
    let h = 100usize;
    let mut buf = make_filled_buf(w, h, BLACK);
    // p1=(30,30), p2=(60,60): centre (45,45), radius 21, font size 25.2, scale 3.
    render(&mut buf, w, h, PixelShape::Badge { cx: 45, cy: 45, r: 21, number: 3, scale: 3 }, BLUE, None);
    let mut white_pixel_count = 0;
    for y in 40..=50 {
        for x in 40..=50 {
            let i = (y * w + x) * 4;
            if buf[i] == 255 && buf[i + 1] == 255 && buf[i + 2] == 255 && buf[i + 3] == 255 {
                white_pixel_count += 1;
            }
        }
    }
    assert!(white_pixel_count > 0, "Number annotation has no white digit pixels in center");
}

#[test]
fn test_rect_rendering_preserved() {
    let w = 100usize;
    let h = 100usize;
    let mut buf = make_filled_buf(w, h, BLACK);
    let rect = PixelShape::Box { x0: 10, y0: 10, x1: 50, y1: 50, filled: true, lw: 2, style: LineStyle::Solid };
    render(&mut buf, w, h, rect, RED, None);
    for y in 10..=50 {
        for x in 10..=50 {
            let i = (y * w + x) * 4;
            assert_eq!(buf[i], 255, "Rect pixel ({x},{y}) R channel should be 255");
            assert_eq!(buf[i + 1], 0, "Rect pixel ({x},{y}) G channel should be 0");
            assert_eq!(buf[i + 2], 0, "Rect pixel ({x},{y}) B channel should be 0");
            assert_eq!(buf[i + 3], 255, "Rect pixel ({x},{y}) A channel should be 255");
        }
    }
    let i = 0;
    assert_eq!(buf[i], 0, "Pixel outside rect should remain black");
    assert_eq!(buf[i + 1], 0);
    assert_eq!(buf[i + 2], 0);
}

/// The rows of a filled ellipse, as the window computes them.
fn ellipse_rows(cx: i32, cy: i32, rx: i32, ry: i32) -> Vec<(i32, i32, i32)> {
    let mut rows = Vec::new();
    for y in (cy - ry)..=(cy + ry) {
        let dy = (y - cy) as f32 / ry as f32;
        if dy.abs() > 1.0 {
            continue;
        }
        let dx = (1.0 - dy * dy).sqrt() * rx as f32;
        rows.push((y, cx - dx as i32, cx + dx as i32));
    }
    rows
}

#[test]
fn test_ellipse_rendering_preserved() {
    let w = 100usize;
    let h = 100usize;
    let mut buf = make_filled_buf(w, h, BLACK);
    // p1=(30,30), p2=(70,70): centre (50,50), radii 20.
    render(&mut buf, w, h, PixelShape::Rows { rows: ellipse_rows(50, 50, 20, 20) }, BLUE, None);
    let i = (50 * w + 50) * 4;
    assert_eq!(buf[i], 0, "Ellipse center R should be 0");
    assert_eq!(buf[i + 1], 0, "Ellipse center G should be 0");
    assert_eq!(buf[i + 2], 255, "Ellipse center B should be 255");
    assert_eq!(buf[i + 3], 255, "Ellipse center A should be 255");
    assert_eq!(buf[0], 0, "Pixel outside ellipse should remain black");
}

#[test]
fn test_line_rendering_preserved() {
    let w = 100usize;
    let h = 100usize;
    let mut buf = make_filled_buf(w, h, BLACK);
    let snapshot_before = buf.clone();
    render(&mut buf, w, h, PixelShape::Lines { lines: vec![(0, 0, 99, 99)], lw: 3 }, GREEN, None);
    let mut changed_count = 0;
    for d in 0..100 {
        let i = (d * w + d) * 4;
        if buf[i] != snapshot_before[i] || buf[i + 1] != snapshot_before[i + 1] || buf[i + 2] != snapshot_before[i + 2] {
            changed_count += 1;
        }
    }
    assert!(changed_count > 50, "Line should modify most diagonal pixels, but only {changed_count} changed");
    let i_mid = (50 * w + 50) * 4;
    assert_eq!(buf[i_mid + 1], 255, "Diagonal pixel (50,50) G channel should be 255 (green)");
}

#[test]
fn test_mosaic_rendering_preserved() {
    let w = 100usize;
    let h = 100usize;
    let mut buf = vec![0u8; w * h * 4];
    for y in 0..h {
        for x in 0..w {
            let i = (y * w + x) * 4;
            buf[i] = (x * 255 / w) as u8;
            buf[i + 1] = (y * 255 / h) as u8;
            buf[i + 2] = 128;
            buf[i + 3] = 255;
        }
    }
    let snapshot_before = buf.clone();
    // Width 5 gives blocks of max(10, 8) = 10 pixels.
    render(&mut buf, w, h, PixelShape::Mosaic { x0: 20, y0: 20, x1: 60, y1: 60, block: 10 }, WHITE, None);
    let (block_x0, block_y0, block_x1, block_y1) = (20usize, 20usize, 29usize, 29usize);
    let ref_i = (block_y0 * w + block_x0) * 4;
    let (ref_r, ref_g, ref_b) = (buf[ref_i], buf[ref_i + 1], buf[ref_i + 2]);
    for y in block_y0..=block_y1 {
        for x in block_x0..=block_x1 {
            let i = (y * w + x) * 4;
            assert_eq!(buf[i], ref_r, "Mosaic block pixel ({x},{y}) R should be uniform");
            assert_eq!(buf[i + 1], ref_g, "Mosaic block pixel ({x},{y}) G should be uniform");
            assert_eq!(buf[i + 2], ref_b, "Mosaic block pixel ({x},{y}) B should be uniform");
        }
    }
    let mut changed = false;
    for y in block_y0..=block_y1 {
        for x in block_x0..=block_x1 {
            let i = (y * w + x) * 4;
            if buf[i] != snapshot_before[i] || buf[i + 1] != snapshot_before[i + 1] {
                changed = true;
            }
        }
    }
    assert!(changed, "Mosaic should have changed at least some pixels from the original gradient");
    assert_eq!(buf[0], snapshot_before[0], "Pixel outside mosaic should be unchanged");
}

#[test]
fn set_pixel_blends_and_clips() {
    let mut buf = make_filled_buf(4, 4, BLACK);
    set_pixel(&mut buf, 4, 4, 1, 1, Rgba { r: 255, g: 255, b: 255, a: 255 });
    let i = (4 + 1) * 4;
    assert_eq!(&buf[i..i + 4], &[255, 255, 255, 255]);
    let before = buf.clone();
    set_pixel(&mut buf, 4, 4, -1, 2, RED);
    set_pixel(&mut buf, 4, 4, 4, 0, RED);
    assert_eq!(buf, before);
}

#[test]
fn filled_circle_covers_centre_only_within_radius() {
    let mut buf = make_filled_buf(20, 20, BLACK);
    draw_filled_circle(&mut buf, 20, 20, 10, 10, 3, BLUE);
    let at = |x: usize, y: usize| buf[(y * 20 + x) * 4 + 2];
    assert_eq!(at(10, 10), 255);
    assert_eq!(at(13, 10), 255);
    assert_eq!(at(13, 13), 0);
    assert_eq!(at(0, 0), 0);
}

#[test]
fn set_pixel_blends_translucent_colour() {
    let mut buf = make_filled_buf(2, 2, BLACK);
    set_pixel(&mut buf, 2, 2, 0, 0, Rgba { r: 255, g: 0, b: 100, a: 128 });
    // (0 * 127 + 255 * 128) / 255 = 128; (0 * 127 + 100 * 128) / 255 = 50.
    assert_eq!(&buf[0..4], &[128, 0, 50, 255]);
}

#[test]
fn eraser_without_base_paints_white() {
    let mut buf = make_filled_buf(10, 10, RED);
    render(&mut buf, 10, 10, PixelShape::Erase { x0: 2, y0: 2, x1: 3, y1: 3 }, RED, None);
    let at = |b: &Vec<u8>, x: usize, y: usize| b[(y * 10 + x) * 4..(y * 10 + x) * 4 + 4].to_vec();
    assert_eq!(at(&buf, 2, 2), vec![255, 255, 255, 255]);
    assert_eq!(at(&buf, 3, 3), vec![255, 255, 255, 255]);
    assert_eq!(at(&buf, 4, 4), vec![255, 0, 0, 255]);
}

#[test]
fn outlined_box_is_lw_pixels_thick() {
    let mut buf = make_filled_buf(20, 20, BLACK);
    let shape = PixelShape::Box { x0: 2, y0: 2, x1: 17, y1: 17, filled: false, lw: 2, style: LineStyle::Dashed };
    render(&mut buf, 20, 20, shape, RED, None);
    let r = |x: usize, y: usize| buf[(y * 20 + x) * 4];
    assert_eq!(r(2, 10), 255);
    assert_eq!(r(3, 10), 255);
    assert_eq!(r(4, 10), 0);
    assert_eq!(r(10, 10), 0);
    assert_eq!(r(17, 17), 255);
}

#[test]
fn shapes_out_of_range_are_refused() {
    let buf = vec![0u8; 16];
    assert!(!shape_fits(&PixelShape::Rows { rows: vec![] }, buf.len(), 3, 3));
    assert!(shape_fits(&PixelShape::Rows { rows: vec![] }, buf.len(), 2, 2));
    let far = PixelShape::Lines { lines: vec![(i32::MIN, 0, i32::MAX, 0)], lw: 1 };
    assert!(!shape_fits(&far, buf.len(), 2, 2));
    let big_disc = PixelShape::Badge { cx: 0, cy: 0, r: 40_000, number: 1, scale: 1 };
    assert!(!shape_fits(&big_disc, buf.len(), 2, 2));
    let no_block = PixelShape::Mosaic { x0: 0, y0: 0, x1: 2, y1: 2, block: 0 };
    assert!(!shape_fits(&no_block, buf.len(), 2, 2));
    let wide_text = PixelShape::Text { x: i32::MAX - 10, y: 0, scale: 1, text: "ab".to_string() };
    assert!(!shape_fits(&wide_text, buf.len(), 2, 2));
}

#[test]
fn pen_strokes_draw_each_segment() {
    let mut buf = make_filled_buf(10, 10, BLACK);
    render(&mut buf, 10, 10, PixelShape::Lines { lines: vec![(0, 0, 4, 0), (4, 0, 4, 4)], lw: 1 }, GREEN, None);
    let g = |x: usize, y: usize| buf[(y * 10 + x) * 4 + 1];
    assert_eq!(g(2, 0), 255);
    assert_eq!(g(4, 3), 255);
    assert_eq!(g(2, 2), 0);
}

#[test]
fn mosaic_twice_equals_once() {
    let (w, h) = (37usize, 23usize);
    let mut buf: Vec<u8> = (0..w * h * 4).map(|i| ((i * 7 + i / 13) % 256) as u8).collect();
    let shape = || PixelShape::Mosaic { x0: 3, y0: -2, x1: 40, y1: 19, block: 6 };
    render(&mut buf, w, h, shape(), Rgba { r: 0, g: 0, b: 0, a: 255 }, None);
    let once = buf.clone();
    render(&mut buf, w, h, shape(), Rgba { r: 9, g: 9, b: 9, a: 9 }, None);
    assert_eq!(buf, once);
}
