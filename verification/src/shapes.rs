//! Annotations in pixel coordinates, and burning one into an RGBA image with the
//! drawing routines of `raster`.
use vstd::prelude::*;

use crate::raster::{
    badge_ok, canvas_ok, disc_ok, disc_pts, draw_bitmap_text, draw_line_thick_i, draw_number_badge,
    draw_rect_stroke, fill_rect_alpha, frame_pts, in_mosaic, lemma_mosaic_fixed, lemma_paint_len,
    lemma_same_pixels, line_ok, line_pts, min_i,
    mosaic_pixel, mosaic_region, on_canvas, paint, pixel, rect_pts, restore_rect, restored, text_ok, text_pts,
    badge_text_x, badge_text_y, half_width, white, LineStyle, Rgba,
};
use crate::text::dec;

verus! {

/// An annotation with its geometry already in pixels.
pub enum PixelShape {
    /// A rectangle (plain or rounded): filled, or outlined `lw` pixels inwards.
    Box { x0: i32, y0: i32, x1: i32, y1: i32, filled: bool, lw: i32, style: LineStyle },
    /// Thick line segments (x0, y0, x1, y1), drawn in order: lines, arrows, pen
    /// and marker strokes, ellipse outlines.
    Lines { lines: Vec<(i32, i32, i32, i32)>, lw: i32 },
    /// Horizontal spans (y, x_from, x_to), both ends included: filled ellipses.
    Rows { rows: Vec<(i32, i32, i32)> },
    /// Pixelation of [x0, x1) x [y0, y1) in blocks of `block` pixels.
    Mosaic { x0: i32, y0: i32, x1: i32, y1: i32, block: i32 },
    /// Erasing [x0, x1) x [y0, y1): the unannotated image shows again, or white
    /// when there is none.
    Erase { x0: i32, y0: i32, x1: i32, y1: i32 },
    /// Bitmap text from (x, y), `scale` pixels per glyph pixel.
    Text { x: i32, y: i32, scale: i32, text: String },
    /// A numbered badge: a disc of radius r with the number in white.
    Badge { cx: i32, cy: i32, r: i32, number: u32, scale: i32 },
}

/// The segments painted one after the other.
pub open spec fn lines_paint(buf: Seq<u8>, w: int, h: int, lines: Seq<(i32, i32, i32, i32)>, lw: int, c: Rgba) -> Seq<u8>
    decreases lines.len(),
{
    if lines.len() == 0 {
        buf
    } else {
        let l = lines.last();
        paint(lines_paint(buf, w, h, lines.drop_last(), lw, c), w, h, line_pts(l.0 as int, l.1 as int, l.2 as int, l.3 as int, lw), c)
    }
}

/// The spans painted one after the other.
pub open spec fn rows_paint(buf: Seq<u8>, w: int, h: int, rows: Seq<(i32, i32, i32)>, c: Rgba) -> Seq<u8>
    decreases rows.len(),
{
    if rows.len() == 0 {
        buf
    } else {
        let r = rows.last();
        paint(rows_paint(buf, w, h, rows.drop_last(), c), w, h, rect_pts(r.1 as int, r.0 as int, r.2 as int, r.0 as int), c)
    }
}

/// Every pixel routine the shape needs is given arguments it accepts.
pub open spec fn shape_ok(s: PixelShape, len: int, w: int, h: int) -> bool {
    canvas_ok(len, w, h) && args_ok(s, w, h)
}

/// The arguments of the shape's pixel routines are in their ranges.
pub open spec fn args_ok(s: PixelShape, w: int, h: int) -> bool {
    match s {
        PixelShape::Box { x0, y0, x1, y1, filled, lw, .. } => !filled && lw > 0 ==> {
            &&& x0 + lw <= i32::MAX
            &&& y0 + lw <= i32::MAX
            &&& x1 - lw >= i32::MIN
            &&& y1 - lw >= i32::MIN
        },
        PixelShape::Lines { lines, lw } => forall|i: int|
            0 <= i < lines@.len() ==> line_ok(
                (#[trigger] lines@[i]).0 as int,
                lines@[i].1 as int,
                lines@[i].2 as int,
                lines@[i].3 as int,
                lw as int,
            ),
        PixelShape::Rows { .. } => true,
        PixelShape::Mosaic { block, .. } => block > 0 && min_i(block as int, w) * min_i(block as int, h) * 255 <= u32::MAX,
        PixelShape::Erase { .. } => true,
        PixelShape::Text { x, y, scale, text } => text_ok(text@.len() as int, x as int, y as int, scale as int),
        PixelShape::Badge { cx, cy, r, number, scale } => disc_ok(cx as int, cy as int, r as int) && badge_ok(
            cx as int,
            cy as int,
            number,
            scale as int,
        ),
    }
}

/// The pixels of (x, y) and the bytes beyond the image are as `f` and `old` say.
pub open spec fn pointwise(old: Seq<u8>, new: Seq<u8>, w: int, h: int, f: spec_fn(int, int) -> (u8, u8, u8, u8)) -> bool {
    &&& new.len() == old.len()
    &&& forall|x: int, y: int| on_canvas(w, h, x, y) ==> #[trigger] pixel(new, w, x, y) == f(x, y)
    &&& forall|i: int| w * h * 4 <= i < old.len() ==> #[trigger] new[i] == old[i]
}

/// `new` is `old` with shape `s` burnt in, in colour `c`; `base` is the
/// unannotated image, if any.
pub open spec fn rendered(old: Seq<u8>, new: Seq<u8>, w: int, h: int, s: PixelShape, c: Rgba, base: Option<Seq<u8>>) -> bool {
    match s {
        PixelShape::Box { x0, y0, x1, y1, filled, lw, .. } => new == if filled {
            paint(old, w, h, rect_pts(x0 as int, y0 as int, x1 as int, y1 as int), c)
        } else {
            paint(old, w, h, frame_pts(x0 as int, y0 as int, x1 as int, y1 as int, lw as int), c)
        },
        PixelShape::Lines { lines, lw } => new == lines_paint(old, w, h, lines@, lw as int, c),
        PixelShape::Rows { rows } => new == rows_paint(old, w, h, rows@, c),
        PixelShape::Mosaic { x0, y0, x1, y1, block } => pointwise(
            old,
            new,
            w,
            h,
            |x: int, y: int|
                if in_mosaic(w, h, x0 as int, y0 as int, x1 as int, y1 as int, x, y) {
                    mosaic_pixel(old, w, h, x0 as int, y0 as int, x1 as int, y1 as int, block as int, x, y)
                } else {
                    pixel(old, w, x, y)
                },
        ),
        PixelShape::Erase { x0, y0, x1, y1 } => match base {
            Some(b) => pointwise(
                old,
                new,
                w,
                h,
                |x: int, y: int|
                    if restored(w, h, x0 as int, y0 as int, x1 as int, y1 as int, b.len() as int, x, y) {
                        pixel(b, w, x, y)
                    } else {
                        pixel(old, w, x, y)
                    },
            ),
            None => new == paint(old, w, h, rect_pts(x0 as int, y0 as int, x1 as int, y1 as int), white()),
        },
        PixelShape::Text { x, y, scale, text } => new == paint(old, w, h, text_pts(text@, x as int, y as int, scale as int), c),
        PixelShape::Badge { cx, cy, r, number, scale } => new == paint(
            paint(old, w, h, disc_pts(cx as int, cy as int, r as int), c),
            w,
            h,
            text_pts(dec(number as nat), badge_text_x(cx as int, number, scale as int), badge_text_y(cy as int, scale as int), scale as int),
            white(),
        ),
    }
}

/// The view of an optional image.
pub open spec fn base_view(base: Option<&[u8]>) -> Option<Seq<u8>> {
    match base {
        Some(b) => Some(b@),
        None => None,
    }
}

/// Burns `shape` into the image in colour `c`; an eraser restores `base` when it
/// is given.
pub fn render_shape(buf: &mut [u8], w: usize, h: usize, shape: &PixelShape, c: Rgba, base: Option<&[u8]>)
    requires
        shape_ok(*shape, old(buf)@.len() as int, w as int, h as int),
    ensures
        rendered(old(buf)@, final(buf)@, w as int, h as int, *shape, c, base_view(base)),
{
    let ghost orig = buf@;
    match shape {
        PixelShape::Box { x0, y0, x1, y1, filled, lw, style } => {
            if *filled {
                fill_rect_alpha(buf, w, h, *x0, *y0, *x1, *y1, c);
            } else {
                draw_rect_stroke(buf, w, h, *x0, *y0, *x1, *y1, *lw, c, *style);
            }
        },
        PixelShape::Lines { lines, lw } => {
            let mut i: usize = 0;
            while i < lines.len()
                invariant
                    i <= lines@.len(),
                    canvas_ok(orig.len() as int, w as int, h as int),
                    forall|k: int|
                        0 <= k < lines@.len() ==> line_ok(
                            (#[trigger] lines@[k]).0 as int,
                            lines@[k].1 as int,
                            lines@[k].2 as int,
                            lines@[k].3 as int,
                            *lw as int,
                        ),
                    buf@ == lines_paint(orig, w as int, h as int, lines@.take(i as int), *lw as int, c),
                    buf@.len() == orig.len(),
                decreases lines@.len() - i,
            {
                let l = lines[i];
                let ghost before = buf@;
                draw_line_thick_i(buf, w, h, l.0, l.1, l.2, l.3, c, *lw);
                proof {
                    assert(lines@.take(i + 1).drop_last() =~= lines@.take(i as int));
                    assert(lines@.take(i + 1).last() == l);
                    lemma_paint_len(before, w as int, h as int, line_pts(l.0 as int, l.1 as int, l.2 as int, l.3 as int, *lw as int), c);
                }
                i = i + 1;
            }
            proof {
                assert(lines@.take(lines@.len() as int) =~= lines@);
            }
        },
        PixelShape::Rows { rows } => {
            let mut i: usize = 0;
            while i < rows.len()
                invariant
                    i <= rows@.len(),
                    canvas_ok(orig.len() as int, w as int, h as int),
                    buf@ == rows_paint(orig, w as int, h as int, rows@.take(i as int), c),
                    buf@.len() == orig.len(),
                decreases rows@.len() - i,
            {
                let r = rows[i];
                let ghost before = buf@;
                fill_rect_alpha(buf, w, h, r.1, r.0, r.2, r.0, c);
                proof {
                    assert(rows@.take(i + 1).drop_last() =~= rows@.take(i as int));
                    assert(rows@.take(i + 1).last() == r);
                    lemma_paint_len(before, w as int, h as int, rect_pts(r.1 as int, r.0 as int, r.2 as int, r.0 as int), c);
                }
                i = i + 1;
            }
            proof {
                assert(rows@.take(rows@.len() as int) =~= rows@);
            }
        },
        PixelShape::Mosaic { x0, y0, x1, y1, block } => {
            mosaic_region(buf, w, h, *x0, *y0, *x1, *y1, *block);
        },
        PixelShape::Erase { x0, y0, x1, y1 } => {
            match base {
                Some(b) => restore_rect(buf, w, h, *x0, *y0, *x1, *y1, b),
                None => fill_rect_alpha(buf, w, h, *x0, *y0, *x1, *y1, Rgba { r: 255, g: 255, b: 255, a: 255 }),
            }
        },
        PixelShape::Text { x, y, scale, text } => {
            draw_bitmap_text(buf, w, h, text.as_str(), *x, *y, c, *scale);
        },
        PixelShape::Badge { cx, cy, r, number, scale } => {
            draw_number_badge(buf, w, h, *cx, *cy, *r, *number, c, *scale);
        },
    }
}

// ── checking a shape before drawing it ──────────────────────────────────────

fn digit_count(n: u32) -> (r: usize)
    ensures
        r == dec(n as nat).len(),
        r <= 10,
    decreases n,
{
    proof {
        reveal_with_fuel(crate::text::pow10, 11);
        assert(crate::text::pow10(10) == 10_000_000_000nat);
        crate::text::lemma_dec_len(n as nat, 10);
    }
    if n < 10 {
        1
    } else {
        digit_count(n / 10) + 1
    }
}

fn half_of(v: i128) -> (r: i128)
    requires
        i128::MIN < v,
    ensures
        r == half_width(v as int),
{
    if v >= 0 { v / 2 } else { -((-v) / 2) }
}

fn in_i32(v: i128) -> (r: bool)
    ensures
        r == (i32::MIN <= v <= i32::MAX),
{
    i32::MIN as i128 <= v && v <= i32::MAX as i128
}

fn line_fits(l: (i32, i32, i32, i32), lw: i32) -> (r: bool)
    ensures
        r == line_ok(l.0 as int, l.1 as int, l.2 as int, l.3 as int, lw as int),
{
    let (x0, y0, x1, y1) = (l.0 as i128, l.1 as i128, l.2 as i128, l.3 as i128);
    let dx = if x1 - x0 < 0 { x0 - x1 } else { x1 - x0 };
    let dy = if y1 - y0 < 0 { y0 - y1 } else { y1 - y0 };
    if 3 * dx > i32::MAX as i128 || 3 * dy > i32::MAX as i128 {
        return false;
    }
    let half = half_of(lw as i128);
    if half < 0 {
        return true;
    }
    let minx = if x0 <= x1 { x0 } else { x1 };
    let maxx = if x0 >= x1 { x0 } else { x1 };
    let miny = if y0 <= y1 { y0 } else { y1 };
    let maxy = if y0 >= y1 { y0 } else { y1 };
    i32::MIN as i128 <= minx - half && maxx + half <= i32::MAX as i128 && i32::MIN as i128 <= miny - half
        && maxy + half <= i32::MAX as i128
}

fn text_fits(n: usize, x: i32, y: i32, scale: i32) -> (r: bool)
    ensures
        r == text_ok(n as int, x as int, y as int, scale as int),
{
    let s = scale as i128;
    let n = n as i128;
    assert(-(i32::MAX as int) - 1 <= s <= i32::MAX);
    assert(0 <= n <= usize::MAX);
    assert(-0x10_0000_0000_0000_0000_0000_0000i128 <= 6 * s * n <= 0x10_0000_0000_0000_0000_0000_0000i128) by (nonlinear_arith)
        requires
            -0x8000_0000 <= s <= 0x7fff_ffff,
            0 <= n <= 0xffff_ffff_ffff_ffff,
    ;
    in_i32(6 * s) && in_i32(x as i128 + 6 * s * n) && (scale <= 0 || y as i128 + 7 * s <= i32::MAX as i128)
}

fn box_fits(x0: i32, y0: i32, x1: i32, y1: i32, filled: bool, lw: i32) -> (r: bool)
    ensures
        r == (!filled && lw > 0 ==> {
            &&& x0 + lw <= i32::MAX
            &&& y0 + lw <= i32::MAX
            &&& x1 - lw >= i32::MIN
            &&& y1 - lw >= i32::MIN
        }),
{
    if !filled && lw > 0 {
        let a = (x0 as i128) + (lw as i128) <= i32::MAX as i128;
        let b = (y0 as i128) + (lw as i128) <= i32::MAX as i128;
        let c = (x1 as i128) - (lw as i128) >= i32::MIN as i128;
        let d = (y1 as i128) - (lw as i128) >= i32::MIN as i128;
        a && b && c && d
    } else {
        true
    }
}

fn lines_fit(lines: &Vec<(i32, i32, i32, i32)>, lw: i32) -> (r: bool)
    ensures
        r == forall|i: int|
            0 <= i < lines@.len() ==> line_ok(
                (#[trigger] lines@[i]).0 as int,
                lines@[i].1 as int,
                lines@[i].2 as int,
                lines@[i].3 as int,
                lw as int,
            ),
{
    let mut i: usize = 0;
    while i < lines.len()
        invariant
            i <= lines@.len(),
            forall|k: int|
                0 <= k < i ==> line_ok(
                    (#[trigger] lines@[k]).0 as int,
                    lines@[k].1 as int,
                    lines@[k].2 as int,
                    lines@[k].3 as int,
                    lw as int,
                ),
        decreases lines@.len() - i,
    {
        if !line_fits(lines[i], lw) {
            return false;
        }
        i = i + 1;
    }
    true
}

fn mosaic_fits(block: i32, w: usize, h: usize) -> (r: bool)
    requires
        w <= i32::MAX,
        h <= i32::MAX,
    ensures
        r == (block > 0 && min_i(block as int, w as int) * min_i(block as int, h as int) * 255 <= u32::MAX),
{
    if block <= 0 {
        return false;
    }
    let b = block as i128;
    let mw = if b <= w as i128 { b } else { w as i128 };
    let mh = if b <= h as i128 { b } else { h as i128 };
    assert(0 <= mw * mh <= 0x7fff_ffff * 0x7fff_ffff) by (nonlinear_arith)
        requires
            0 <= mw <= 0x7fff_ffff,
            0 <= mh <= 0x7fff_ffff,
    ;
    mw * mh * 255 <= u32::MAX as i128
}

fn badge_fits(cx: i32, cy: i32, r: i32, number: u32, scale: i32) -> (ok: bool)
    ensures
        ok == (disc_ok(cx as int, cy as int, r as int) && badge_ok(cx as int, cy as int, number, scale as int)),
{
    let (cx, cy, r, s) = (cx as i128, cy as i128, r as i128, scale as i128);
    let disc = in_i32(cx - r) && in_i32(cx + r) && in_i32(cy - r) && in_i32(cy + r);
    if !disc {
        return false;
    }
    if r >= 0 {
        assert(0 <= 2 * r * r <= 2 * 0x8000_0000 * 0x8000_0000) by (nonlinear_arith)
            requires
                0 <= r <= 0x8000_0000,
        ;
        if 2 * r * r > i32::MAX as i128 {
            return false;
        }
    }
    let n = digit_count(number) as i128;
    proof {
        reveal_with_fuel(crate::text::pow10, 11);
        assert(crate::text::pow10(10) == 10_000_000_000nat);
        crate::text::lemma_dec_len(number as nat, 10);
    }
    assert(1 <= n <= 10);
    assert(-0x1_0000_0000_0000 <= n * 6 * s <= 0x1_0000_0000_0000) by (nonlinear_arith)
        requires
            1 <= n <= 10,
            -0x8000_0000 <= s <= 0x7fff_ffff,
    ;
    if !(in_i32(n * 6 * s) && in_i32(7 * s)) {
        return false;
    }
    let tx = cx - half_of(n * 6 * s);
    let ty = cy - half_of(7 * s);
    if !(in_i32(tx) && in_i32(ty)) {
        return false;
    }
    text_fits(n as usize, tx as i32, ty as i32, scale)
}

/// Whether `render_shape` accepts `shape` for an image of `len` bytes and
/// `w` x `h` pixels.
pub fn shape_fits(shape: &PixelShape, len: usize, w: usize, h: usize) -> (r: bool)
    ensures
        r == shape_ok(*shape, len as int, w as int, h as int),
{
    if !(w <= i32::MAX as usize && h <= i32::MAX as usize) {
        return false;
    }
    assert(0 <= w * h * 4 <= 0x7fff_ffff * 0x7fff_ffff * 4) by (nonlinear_arith)
        requires
            w <= 0x7fff_ffff,
            h <= 0x7fff_ffff,
    ;
    let area: i128 = (w as i128) * (h as i128) * 4;
    if area > len as i128 {
        return false;
    }
    match shape {
        PixelShape::Box { x0, y0, x1, y1, filled, lw, .. } => box_fits(*x0, *y0, *x1, *y1, *filled, *lw),
        PixelShape::Lines { lines, lw } => lines_fit(lines, *lw),
        PixelShape::Rows { .. } => true,
        PixelShape::Mosaic { block, .. } => mosaic_fits(*block, w, h),
        PixelShape::Erase { .. } => true,
        PixelShape::Text { x, y, scale, text } => text_fits(text.as_str().unicode_len(), *x, *y, *scale),
        PixelShape::Badge { cx, cy, r, number, scale } => badge_fits(*cx, *cy, *r, *number, *scale),
    }
}

/// Pixelating twice is pixelating once: drawing a mosaic over an image that
/// already holds that same mosaic leaves the image as it was.
pub proof fn lemma_mosaic_twice(
    orig: Seq<u8>,
    once: Seq<u8>,
    twice: Seq<u8>,
    w: int,
    h: int,
    s: PixelShape,
    c1: Rgba,
    c2: Rgba,
    b1: Option<Seq<u8>>,
    b2: Option<Seq<u8>>,
)
    requires
        s is Mosaic,
        shape_ok(s, orig.len() as int, w, h),
        rendered(orig, once, w, h, s, c1, b1),
        rendered(once, twice, w, h, s, c2, b2),
    ensures
        twice == once,
{
    if let PixelShape::Mosaic { x0, y0, x1, y1, block } = s {
        let (xi0, yi0, xi1, yi1, bk) = (x0 as int, y0 as int, x1 as int, y1 as int, block as int);
        assert forall|x: int, y: int| on_canvas(w, h, x, y) implies #[trigger] pixel(twice, w, x, y) == pixel(once, w, x, y) by {
            if in_mosaic(w, h, xi0, yi0, xi1, yi1, x, y) {
                lemma_mosaic_fixed(orig, once, w, h, xi0, yi0, xi1, yi1, bk, x, y);
            }
        }
        lemma_same_pixels(twice, once, w, h);
    }
}

} // verus!
