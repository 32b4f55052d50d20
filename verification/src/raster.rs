//! Pixel-level drawing into RGBA8 buffers (row-major, four bytes per pixel).
//!
//! Every drawing routine is specified as `paint`: the buffer that results from
//! plotting a given sequence of points, in order, with one colour. Plotting
//! blends the colour over the pixel with its alpha and makes the pixel opaque.
use vstd::prelude::*;

use crate::text::{dec, dec_string, lemma_dec_len};

verus! {

/// A colour with its four channels as stored in a pixel buffer.
#[derive(Clone, Copy, PartialEq, Eq, Structural, Debug)]
pub struct Rgba {
    pub r: u8,
    pub g: u8,
    pub b: u8,
    pub a: u8,
}

/// A buffer of `len` bytes can hold a `w` x `h` image, and its sides fit in `i32`.
pub open spec fn canvas_ok(len: int, w: int, h: int) -> bool {
    &&& 0 <= w <= i32::MAX
    &&& 0 <= h <= i32::MAX
    &&& w * h * 4 <= len
}

pub open spec fn on_canvas(w: int, h: int, x: int, y: int) -> bool {
    0 <= x < w && 0 <= y < h
}

/// Index of the first byte of pixel (x, y).
pub open spec fn px_index(w: int, x: int, y: int) -> int {
    (y * w + x) * 4
}

/// One channel of `src` blended over `dst` with alpha `a`.
pub open spec fn blend(dst: u8, src: u8, a: u8) -> u8 {
    ((dst * (255 - a) + src * a) / 255) as u8
}

/// The four bytes of pixel (x, y).
pub open spec fn pixel(buf: Seq<u8>, w: int, x: int, y: int) -> (u8, u8, u8, u8) {
    let i = px_index(w, x, y);
    (buf[i], buf[i + 1], buf[i + 2], buf[i + 3])
}

/// The buffer after plotting point `p` with colour `c`: off-canvas points change nothing.
pub open spec fn plot(buf: Seq<u8>, w: int, h: int, p: (int, int), c: Rgba) -> Seq<u8> {
    if on_canvas(w, h, p.0, p.1) {
        let i = px_index(w, p.0, p.1);
        buf.update(i, blend(buf[i], c.r, c.a))
            .update(i + 1, blend(buf[i + 1], c.g, c.a))
            .update(i + 2, blend(buf[i + 2], c.b, c.a))
            .update(i + 3, 255u8)
    } else {
        buf
    }
}

/// The buffer after plotting every point of `pts`, first to last.
pub open spec fn paint(buf: Seq<u8>, w: int, h: int, pts: Seq<(int, int)>, c: Rgba) -> Seq<u8>
    decreases pts.len(),
{
    if pts.len() == 0 {
        buf
    } else {
        plot(paint(buf, w, h, pts.drop_last(), c), w, h, pts.last(), c)
    }
}

/// Points (x0, y) .. (x1, y), left to right.
pub open spec fn row_pts(x0: int, x1: int, y: int) -> Seq<(int, int)> {
    Seq::new(if x0 <= x1 { (x1 - x0 + 1) as nat } else { 0 }, |k: int| (x0 + k, y))
}

/// Points of the rectangle [x0, x1] x [y0, y1], row by row from the top.
pub open spec fn rect_pts(x0: int, y0: int, x1: int, y1: int) -> Seq<(int, int)>
    decreases y1 + 1 - y0,
{
    if y1 < y0 {
        Seq::empty()
    } else {
        rect_pts(x0, y0, x1, y1 - 1) + row_pts(x0, x1, y1)
    }
}

// ── lemmas on the model ─────────────────────────────────────────────────────

proof fn lemma_px_in_range(w: int, h: int, x: int, y: int, len: int)
    requires
        on_canvas(w, h, x, y),
        w * h * 4 <= len,
    ensures
        0 <= px_index(w, x, y),
        px_index(w, x, y) + 4 <= len,
        y * w + x < w * h,
        0 <= y * w <= y * w + x,
{
    assert(0 <= y * w) by (nonlinear_arith)
        requires
            0 <= y,
            0 <= w,
    ;
    assert(y * w + x < w * h) by (nonlinear_arith)
        requires
            0 <= x < w,
            0 <= y < h,
    ;
}

proof fn lemma_cells_distinct(w: int, x1: int, y1: int, x2: int, y2: int)
    requires
        0 <= x1 < w,
        0 <= x2 < w,
        0 <= y1,
        0 <= y2,
        (x1, y1) != (x2, y2),
    ensures
        y1 * w + x1 != y2 * w + x2,
{
    if y1 < y2 {
        assert(y1 * w + x1 < y2 * w + x2) by (nonlinear_arith)
            requires
                0 <= x1 < w,
                0 <= x2,
                y1 < y2,
        ;
    } else if y2 < y1 {
        assert(y2 * w + x2 < y1 * w + x1) by (nonlinear_arith)
            requires
                0 <= x2 < w,
                0 <= x1,
                y2 < y1,
        ;
    }
}

pub proof fn lemma_blend_opaque(dst: u8, src: u8)
    ensures
        blend(dst, src, 255) == src,
{
    assert((dst * (255 - 255u8) + src * 255u8) / 255 == src) by (nonlinear_arith);
}

proof fn lemma_blend_bounded(dst: u8, src: u8, a: u8)
    ensures
        0 <= (dst * (255 - a) + src * a) / 255 <= 255,
        dst as u32 * (255 - a as u32) + src as u32 * a as u32 <= 65025,
{
    assert(0 <= dst * (255 - a) + src * a <= 255 * 255) by (nonlinear_arith)
        requires
            0 <= dst <= 255,
            0 <= src <= 255,
            0 <= a <= 255,
    ;
}

pub proof fn lemma_paint_len(buf: Seq<u8>, w: int, h: int, pts: Seq<(int, int)>, c: Rgba)
    requires
        canvas_ok(buf.len() as int, w, h),
    ensures
        paint(buf, w, h, pts, c).len() == buf.len(),
    decreases pts.len(),
{
    if pts.len() > 0 {
        lemma_paint_len(buf, w, h, pts.drop_last(), c);
        let p = pts.last();
        if on_canvas(w, h, p.0, p.1) {
            lemma_px_in_range(w, h, p.0, p.1, buf.len() as int);
        }
    }
}

pub proof fn lemma_paint_push(buf: Seq<u8>, w: int, h: int, pts: Seq<(int, int)>, p: (int, int), c: Rgba)
    ensures
        paint(buf, w, h, pts.push(p), c) == plot(paint(buf, w, h, pts, c), w, h, p, c),
{
    assert(pts.push(p).drop_last() =~= pts);
}

/// A pixel that no point of `pts` hits keeps its bytes, whatever the colour.
pub proof fn lemma_paint_untouched(buf: Seq<u8>, w: int, h: int, pts: Seq<(int, int)>, c: Rgba, x: int, y: int)
    requires
        canvas_ok(buf.len() as int, w, h),
        on_canvas(w, h, x, y),
        !pts.contains((x, y)),
    ensures
        pixel(paint(buf, w, h, pts, c), w, x, y) == pixel(buf, w, x, y),
    decreases pts.len(),
{
    if pts.len() > 0 {
        let rest = pts.drop_last();
        assert(!rest.contains((x, y))) by {
            if rest.contains((x, y)) {
                let k = choose|k: int| 0 <= k < rest.len() && rest[k] == (x, y);
                assert(pts[k] == (x, y));
            }
        }
        lemma_paint_untouched(buf, w, h, rest, c, x, y);
        lemma_paint_len(buf, w, h, rest, c);
        let p = pts.last();
        assert(p != (x, y)) by {
            assert(pts[pts.len() - 1] == p);
        }
        if on_canvas(w, h, p.0, p.1) {
            lemma_cells_distinct(w, p.0, p.1, x, y);
            lemma_px_in_range(w, h, p.0, p.1, buf.len() as int);
            lemma_px_in_range(w, h, x, y, buf.len() as int);
        }
    }
}

/// Bytes past the image (from `w * h * 4` on) never change.
pub proof fn lemma_paint_tail(buf: Seq<u8>, w: int, h: int, pts: Seq<(int, int)>, c: Rgba, i: int)
    requires
        canvas_ok(buf.len() as int, w, h),
        w * h * 4 <= i < buf.len(),
    ensures
        paint(buf, w, h, pts, c)[i] == buf[i],
    decreases pts.len(),
{
    if pts.len() > 0 {
        lemma_paint_tail(buf, w, h, pts.drop_last(), c, i);
        lemma_paint_len(buf, w, h, pts.drop_last(), c);
        let p = pts.last();
        if on_canvas(w, h, p.0, p.1) {
            lemma_px_in_range(w, h, p.0, p.1, buf.len() as int);
        }
    }
}

/// With an opaque colour, a pixel hit by any point of `pts` ends up exactly that colour.
pub proof fn lemma_paint_opaque(buf: Seq<u8>, w: int, h: int, pts: Seq<(int, int)>, c: Rgba, x: int, y: int)
    requires
        canvas_ok(buf.len() as int, w, h),
        on_canvas(w, h, x, y),
        c.a == 255,
        pts.contains((x, y)),
    ensures
        pixel(paint(buf, w, h, pts, c), w, x, y) == (c.r, c.g, c.b, 255u8),
    decreases pts.len(),
{
    let rest = pts.drop_last();
    let p = pts.last();
    lemma_paint_len(buf, w, h, rest, c);
    let mid = paint(buf, w, h, rest, c);
    lemma_px_in_range(w, h, x, y, buf.len() as int);
    if p == (x, y) {
        let i = px_index(w, x, y);
        lemma_blend_opaque(mid[i], c.r);
        lemma_blend_opaque(mid[i + 1], c.g);
        lemma_blend_opaque(mid[i + 2], c.b);
    } else {
        assert(rest.contains((x, y))) by {
            let k = choose|k: int| 0 <= k < pts.len() && pts[k] == (x, y);
            assert(k != pts.len() - 1);
            assert(rest[k] == (x, y));
        }
        lemma_paint_opaque(buf, w, h, rest, c, x, y);
        if on_canvas(w, h, p.0, p.1) {
            lemma_cells_distinct(w, p.0, p.1, x, y);
            lemma_px_in_range(w, h, p.0, p.1, buf.len() as int);
        }
    }
}

/// The points of a rectangle are exactly those inside it.
pub proof fn lemma_rect_pts_contains(x0: int, y0: int, x1: int, y1: int, x: int, y: int)
    ensures
        rect_pts(x0, y0, x1, y1).contains((x, y)) <==> (x0 <= x <= x1 && y0 <= y <= y1),
    decreases y1 + 1 - y0,
{
    if y1 >= y0 {
        lemma_rect_pts_contains(x0, y0, x1, y1 - 1, x, y);
        let a = rect_pts(x0, y0, x1, y1 - 1);
        let r = row_pts(x0, x1, y1);
        let s = a + r;
        if x0 <= x <= x1 && y0 <= y <= y1 {
            if y == y1 {
                assert(r[x - x0] == (x, y));
                assert(s[a.len() + (x - x0)] == (x, y));
            } else {
                let k = choose|k: int| 0 <= k < a.len() && a[k] == (x, y);
                assert(s[k] == (x, y));
            }
        }
        if s.contains((x, y)) {
            let k = choose|k: int| 0 <= k < s.len() && s[k] == (x, y);
            if k >= a.len() {
                assert(r[k - a.len()] == (x, y));
            } else {
                assert(a[k] == (x, y));
            }
        }
    }
}

// ── executable drawing ──────────────────────────────────────────────────────

/// Blends `c` over pixel (x, y) and makes it opaque; a point off the image does nothing.
pub fn set_pixel(buf: &mut [u8], w: usize, h: usize, x: i32, y: i32, c: Rgba)
    requires
        canvas_ok(old(buf)@.len() as int, w as int, h as int),
    ensures
        final(buf)@ == plot(old(buf)@, w as int, h as int, (x as int, y as int), c),
{
    if x < 0 || y < 0 || x >= w as i32 || y >= h as i32 {
        return;
    }
    let len = buf.len();
    proof {
        lemma_px_in_range(w as int, h as int, x as int, y as int, buf@.len() as int);
    }
    let i = (y as usize * w + x as usize) * 4;
    let a = c.a as u32;
    if a == 255 {
        proof {
            lemma_blend_opaque(buf@[i as int], c.r);
            lemma_blend_opaque(buf@[i + 1], c.g);
            lemma_blend_opaque(buf@[i + 2], c.b);
        }
        buf[i] = c.r;
        buf[i + 1] = c.g;
        buf[i + 2] = c.b;
        buf[i + 3] = 255;
    } else {
        let ia = 255 - a;
        proof {
            lemma_blend_bounded(buf@[i as int], c.r, c.a);
            lemma_blend_bounded(buf@[i + 1], c.g, c.a);
            lemma_blend_bounded(buf@[i + 2], c.b, c.a);
        }
        buf[i] = ((buf[i] as u32 * ia + c.r as u32 * a) / 255) as u8;
        buf[i + 1] = ((buf[i + 1] as u32 * ia + c.g as u32 * a) / 255) as u8;
        buf[i + 2] = ((buf[i + 2] as u32 * ia + c.b as u32 * a) / 255) as u8;
        buf[i + 3] = 255;
    }
}

/// Plots every point of the rectangle [x0, x1] x [y0, y1] (both ends included), row by row.
pub fn fill_rect_alpha(buf: &mut [u8], w: usize, h: usize, x0: i32, y0: i32, x1: i32, y1: i32, c: Rgba)
    requires
        canvas_ok(old(buf)@.len() as int, w as int, h as int),
    ensures
        final(buf)@ == paint(old(buf)@, w as int, h as int, rect_pts(x0 as int, y0 as int, x1 as int, y1 as int), c),
{
    let ghost orig = buf@;
    let mut y: i64 = y0 as i64;
    while y <= y1 as i64
        invariant
            y0 <= y,
            y <= y1 + 1 || y == y0,
            canvas_ok(orig.len() as int, w as int, h as int),
            buf@.len() == orig.len(),
            buf@ == paint(orig, w as int, h as int, rect_pts(x0 as int, y0 as int, x1 as int, y - 1), c),
        decreases y1 + 1 - y,
    {
        let ghost before = rect_pts(x0 as int, y0 as int, x1 as int, y - 1);
        let ghost row = row_pts(x0 as int, x1 as int, y as int);
        let mut x: i64 = x0 as i64;
        while x <= x1 as i64
            invariant
                x0 <= x,
                x <= x1 + 1 || x == x0,
                y0 <= y <= y1,
                before == rect_pts(x0 as int, y0 as int, x1 as int, y - 1),
                row == row_pts(x0 as int, x1 as int, y as int),
                canvas_ok(orig.len() as int, w as int, h as int),
                buf@.len() == orig.len(),
                buf@ == paint(orig, w as int, h as int, before + row.take(x - x0), c),
            decreases x1 + 1 - x,
        {
            let ghost k = x - x0;
            proof {
                assert((before + row.take(k + 1)) =~= (before + row.take(k)).push((x as int, y as int)));
                lemma_paint_push(orig, w as int, h as int, before + row.take(k), (x as int, y as int), c);
                lemma_paint_len(orig, w as int, h as int, before + row.take(k + 1), c);
            }
            set_pixel(buf, w, h, x as i32, y as i32, c);
            x = x + 1;
        }
        proof {
            assert(row.take(x - x0) =~= row);
            assert(rect_pts(x0 as int, y0 as int, x1 as int, y as int) == before + row);
        }
        y = y + 1;
    }
}


// ── outlines ────────────────────────────────────────────────────────────────

/// Line styles of an annotation outline.
#[derive(Clone, Copy, PartialEq, Eq, Structural, Debug)]
pub enum LineStyle {
    Solid,
    Dashed,
    Dotted,
}

/// For each x in [x0, xe], left to right: (x, ya) then (x, yb).
pub open spec fn hpair_pts(x0: int, xe: int, ya: int, yb: int) -> Seq<(int, int)>
    decreases xe + 1 - x0,
{
    if xe < x0 {
        Seq::empty()
    } else {
        hpair_pts(x0, xe - 1, ya, yb).push((xe, ya)).push((xe, yb))
    }
}

/// For each y in [y0, ye], top to bottom: (xa, y) then (xb, y).
pub open spec fn vpair_pts(y0: int, ye: int, xa: int, xb: int) -> Seq<(int, int)>
    decreases ye + 1 - y0,
{
    if ye < y0 {
        Seq::empty()
    } else {
        vpair_pts(y0, ye - 1, xa, xb).push((xa, ye)).push((xb, ye))
    }
}

/// The one-pixel outline of [x0, x1] x [y0, y1]: top and bottom rows, then left and right columns.
pub open spec fn outline_pts(x0: int, y0: int, x1: int, y1: int) -> Seq<(int, int)> {
    hpair_pts(x0, x1, y0, y1) + vpair_pts(y0, y1, x0, x1)
}

proof fn lemma_hpair_contains(x0: int, xe: int, ya: int, yb: int, x: int, y: int)
    ensures
        hpair_pts(x0, xe, ya, yb).contains((x, y)) <==> (x0 <= x <= xe && (y == ya || y == yb)),
    decreases xe + 1 - x0,
{
    if xe >= x0 {
        lemma_hpair_contains(x0, xe - 1, ya, yb, x, y);
        let a = hpair_pts(x0, xe - 1, ya, yb);
        let s = a.push((xe, ya)).push((xe, yb));
        if x0 <= x <= xe && (y == ya || y == yb) {
            if x == xe {
                if y == ya {
                    assert(s[a.len() as int] == (x, y));
                } else {
                    assert(s[a.len() as int + 1] == (x, y));
                }
            } else {
                let k = choose|k: int| 0 <= k < a.len() && a[k] == (x, y);
                assert(s[k] == (x, y));
            }
        }
        if s.contains((x, y)) {
            let k = choose|k: int| 0 <= k < s.len() && s[k] == (x, y);
            if k < a.len() {
                assert(a[k] == (x, y));
            }
        }
    }
}

proof fn lemma_vpair_contains(y0: int, ye: int, xa: int, xb: int, x: int, y: int)
    ensures
        vpair_pts(y0, ye, xa, xb).contains((x, y)) <==> (y0 <= y <= ye && (x == xa || x == xb)),
    decreases ye + 1 - y0,
{
    if ye >= y0 {
        lemma_vpair_contains(y0, ye - 1, xa, xb, x, y);
        let a = vpair_pts(y0, ye - 1, xa, xb);
        let s = a.push((xa, ye)).push((xb, ye));
        if y0 <= y <= ye && (x == xa || x == xb) {
            if y == ye {
                if x == xa {
                    assert(s[a.len() as int] == (x, y));
                } else {
                    assert(s[a.len() as int + 1] == (x, y));
                }
            } else {
                let k = choose|k: int| 0 <= k < a.len() && a[k] == (x, y);
                assert(s[k] == (x, y));
            }
        }
        if s.contains((x, y)) {
            let k = choose|k: int| 0 <= k < s.len() && s[k] == (x, y);
            if k < a.len() {
                assert(a[k] == (x, y));
            }
        }
    }
}

/// The outline holds exactly the points on the border of the rectangle.
pub proof fn lemma_outline_contains(x0: int, y0: int, x1: int, y1: int, x: int, y: int)
    ensures
        outline_pts(x0, y0, x1, y1).contains((x, y)) <==> (
            (x0 <= x <= x1 && (y == y0 || y == y1)) || (y0 <= y <= y1 && (x == x0 || x == x1))),
{
    lemma_hpair_contains(x0, x1, y0, y1, x, y);
    lemma_vpair_contains(y0, y1, x0, x1, x, y);
    let a = hpair_pts(x0, x1, y0, y1);
    let b = vpair_pts(y0, y1, x0, x1);
    let s = a + b;
    if a.contains((x, y)) {
        let k = choose|k: int| 0 <= k < a.len() && a[k] == (x, y);
        assert(s[k] == (x, y));
    }
    if b.contains((x, y)) {
        let k = choose|k: int| 0 <= k < b.len() && b[k] == (x, y);
        assert(s[a.len() + k] == (x, y));
    }
    if s.contains((x, y)) {
        let k = choose|k: int| 0 <= k < s.len() && s[k] == (x, y);
        if k < a.len() {
            assert(a[k] == (x, y));
        } else {
            assert(b[k - a.len()] == (x, y));
        }
    }
}

/// Plots the one-pixel outline of [x0, x1] x [y0, y1].
///
/// Each side is drawn as a run of single-point segments; the dash pattern of
/// every style is "on" at the start of a segment, so all styles draw the same
/// pixels here.
pub fn draw_rect_outline_alpha(
    buf: &mut [u8],
    w: usize,
    h: usize,
    x0: i32,
    y0: i32,
    x1: i32,
    y1: i32,
    c: Rgba,
    style: LineStyle,
)
    requires
        canvas_ok(old(buf)@.len() as int, w as int, h as int),
    ensures
        final(buf)@ == paint(old(buf)@, w as int, h as int, outline_pts(x0 as int, y0 as int, x1 as int, y1 as int), c),
{
    let ghost orig = buf@;
    let ghost (wi, hi) = (w as int, h as int);
    let mut x: i64 = x0 as i64;
    while x <= x1 as i64
        invariant
            x0 <= x,
            x <= x1 + 1 || x == x0,
            canvas_ok(orig.len() as int, wi, hi),
            wi == w,
            hi == h,
            buf@.len() == orig.len(),
            buf@ == paint(orig, wi, hi, hpair_pts(x0 as int, x - 1, y0 as int, y1 as int), c),
        decreases x1 + 1 - x,
    {
        let ghost s0 = hpair_pts(x0 as int, x - 1, y0 as int, y1 as int);
        proof {
            lemma_paint_push(orig, wi, hi, s0, (x as int, y0 as int), c);
            lemma_paint_push(orig, wi, hi, s0.push((x as int, y0 as int)), (x as int, y1 as int), c);
            lemma_paint_len(orig, wi, hi, s0.push((x as int, y0 as int)), c);
            lemma_paint_len(orig, wi, hi, s0.push((x as int, y0 as int)).push((x as int, y1 as int)), c);
        }
        draw_point(buf, w, h, x as i32, y0, c, style);
        draw_point(buf, w, h, x as i32, y1, c, style);
        x = x + 1;
    }
    let ghost top = hpair_pts(x0 as int, x1 as int, y0 as int, y1 as int);
    proof {
        assert(hpair_pts(x0 as int, x - 1, y0 as int, y1 as int) == top);
    }
    let mut y: i64 = y0 as i64;
    while y <= y1 as i64
        invariant
            y0 <= y,
            y <= y1 + 1 || y == y0,
            canvas_ok(orig.len() as int, wi, hi),
            wi == w,
            hi == h,
            top == hpair_pts(x0 as int, x1 as int, y0 as int, y1 as int),
            buf@.len() == orig.len(),
            buf@ == paint(orig, wi, hi, top + vpair_pts(y0 as int, y - 1, x0 as int, x1 as int), c),
        decreases y1 + 1 - y,
    {
        let ghost s0 = top + vpair_pts(y0 as int, y - 1, x0 as int, x1 as int);
        proof {
            assert(top + vpair_pts(y0 as int, y as int, x0 as int, x1 as int) =~= s0.push(
                (x0 as int, y as int),
            ).push((x1 as int, y as int)));
            lemma_paint_push(orig, wi, hi, s0, (x0 as int, y as int), c);
            lemma_paint_push(orig, wi, hi, s0.push((x0 as int, y as int)), (x1 as int, y as int), c);
            lemma_paint_len(orig, wi, hi, s0.push((x0 as int, y as int)), c);
            lemma_paint_len(orig, wi, hi, s0.push((x0 as int, y as int)).push((x1 as int, y as int)), c);
        }
        draw_point(buf, w, h, x0, y as i32, c, style);
        draw_point(buf, w, h, x1, y as i32, c, style);
        y = y + 1;
    }
}

/// Draws a segment of length zero from (x, y) to itself: the single point (x, y).
fn draw_point(buf: &mut [u8], w: usize, h: usize, x: i32, y: i32, c: Rgba, style: LineStyle)
    requires
        canvas_ok(old(buf)@.len() as int, w as int, h as int),
    ensures
        final(buf)@ == plot(old(buf)@, w as int, h as int, (x as int, y as int), c),
{
    let dash: i32 = 12;
    let gap: i32 = 6;
    let t: i32 = 0;
    let on = match style {
        LineStyle::Solid => true,
        LineStyle::Dashed => t % (dash + gap) < dash,
        LineStyle::Dotted => t % gap == 0,
    };
    if on {
        set_pixel(buf, w, h, x, y, c);
    }
}

/// Points t = 0 .. lw - 1 of nested outlines, each one pixel further inside.
pub open spec fn frame_pts(x0: int, y0: int, x1: int, y1: int, t_end: int) -> Seq<(int, int)>
    decreases t_end,
{
    if t_end <= 0 {
        Seq::empty()
    } else {
        frame_pts(x0, y0, x1, y1, t_end - 1) + outline_pts(
            x0 + (t_end - 1),
            y0 + (t_end - 1),
            x1 - (t_end - 1),
            y1 - (t_end - 1),
        )
    }
}

/// Outline of width `lw`: the outlines shrunk by t = 0 .. lw - 1 pixels.
pub fn draw_rect_stroke(
    buf: &mut [u8],
    w: usize,
    h: usize,
    x0: i32,
    y0: i32,
    x1: i32,
    y1: i32,
    lw: i32,
    c: Rgba,
    style: LineStyle,
)
    requires
        canvas_ok(old(buf)@.len() as int, w as int, h as int),
        lw > 0 ==> x0 + lw <= i32::MAX && y0 + lw <= i32::MAX && x1 - lw >= i32::MIN && y1 - lw >= i32::MIN,
    ensures
        final(buf)@ == paint(old(buf)@, w as int, h as int, frame_pts(x0 as int, y0 as int, x1 as int, y1 as int, lw as int), c),
{
    let ghost orig = buf@;
    let mut t: i32 = 0;
    while t < lw
        invariant
            0 <= t,
            t <= lw || t == 0,
            lw > 0 ==> x0 + lw <= i32::MAX && y0 + lw <= i32::MAX && x1 - lw >= i32::MIN && y1 - lw >= i32::MIN,
            canvas_ok(orig.len() as int, w as int, h as int),
            buf@.len() == orig.len(),
            buf@ == paint(orig, w as int, h as int, frame_pts(x0 as int, y0 as int, x1 as int, y1 as int, t as int), c),
        decreases lw - t,
    {
        let ghost before = frame_pts(x0 as int, y0 as int, x1 as int, y1 as int, t as int);
        let ghost mid = buf@;
        draw_rect_outline_alpha(buf, w, h, x0 + t, y0 + t, x1 - t, y1 - t, c, style);
        proof {
            let o = outline_pts(x0 + t, y0 + t, x1 - t, y1 - t);
            lemma_paint_concat(orig, w as int, h as int, before, o, c);
            lemma_paint_len(orig, w as int, h as int, before + o, c);
        }
        t = t + 1;
    }
}

/// Painting two runs of points is painting their concatenation.
pub proof fn lemma_paint_concat(buf: Seq<u8>, w: int, h: int, a: Seq<(int, int)>, b: Seq<(int, int)>, c: Rgba)
    ensures
        paint(buf, w, h, a + b, c) == paint(paint(buf, w, h, a, c), w, h, b, c),
    decreases b.len(),
{
    if b.len() == 0 {
        assert(a + b =~= a);
    } else {
        lemma_paint_concat(buf, w, h, a, b.drop_last(), c);
        assert((a + b).drop_last() =~= a + b.drop_last());
        assert((a + b).last() == b.last());
    }
}

// ── discs ───────────────────────────────────────────────────────────────────

pub open spec fn in_disc(cx: int, cy: int, r: int, x: int, y: int) -> bool {
    (x - cx) * (x - cx) + (y - cy) * (y - cy) <= r * r
}

/// Points of row y with x in [cx - r, xe] that lie in the disc, left to right.
pub open spec fn disc_row_pts(cx: int, cy: int, r: int, y: int, xe: int) -> Seq<(int, int)>
    decreases xe + 1 - (cx - r),
{
    if xe < cx - r {
        Seq::empty()
    } else if in_disc(cx, cy, r, xe, y) {
        disc_row_pts(cx, cy, r, y, xe - 1).push((xe, y))
    } else {
        disc_row_pts(cx, cy, r, y, xe - 1)
    }
}

/// Points of the disc in rows cy - r .. ye, row by row.
pub open spec fn disc_rows_pts(cx: int, cy: int, r: int, ye: int) -> Seq<(int, int)>
    decreases ye + 1 - (cy - r),
{
    if ye < cy - r {
        Seq::empty()
    } else {
        disc_rows_pts(cx, cy, r, ye - 1) + disc_row_pts(cx, cy, r, ye, cx + r)
    }
}

pub open spec fn disc_pts(cx: int, cy: int, r: int) -> Seq<(int, int)> {
    disc_rows_pts(cx, cy, r, cy + r)
}

/// Arguments for which the disc's coordinates and squared distances fit in `i32`.
pub open spec fn disc_ok(cx: int, cy: int, r: int) -> bool {
    &&& i32::MIN <= cx - r <= i32::MAX && i32::MIN <= cx + r <= i32::MAX
    &&& i32::MIN <= cy - r <= i32::MAX && i32::MIN <= cy + r <= i32::MAX
    &&& r >= 0 ==> 2 * r * r <= i32::MAX
}

/// Plots every point of the box [cx - r, cx + r] x [cy - r, cy + r] within distance r of the centre.
pub fn draw_filled_circle(buf: &mut [u8], w: usize, h: usize, cx: i32, cy: i32, r: i32, c: Rgba)
    requires
        canvas_ok(old(buf)@.len() as int, w as int, h as int),
        disc_ok(cx as int, cy as int, r as int),
    ensures
        final(buf)@ == paint(old(buf)@, w as int, h as int, disc_pts(cx as int, cy as int, r as int), c),
{
    let ghost orig = buf@;
    if cy - r > cy + r {
        return;
    }
    assert(r * r <= i32::MAX) by (nonlinear_arith)
        requires
            2 * r * r <= i32::MAX,
    ;
    let mut y: i64 = (cy - r) as i64;
    while y <= (cy + r) as i64
        invariant
            cy - r <= y <= cy + r + 1,
            r >= 0,
            2 * r * r <= i32::MAX,
            r * r <= i32::MAX,
            disc_ok(cx as int, cy as int, r as int),
            canvas_ok(orig.len() as int, w as int, h as int),
            buf@.len() == orig.len(),
            buf@ == paint(orig, w as int, h as int, disc_rows_pts(cx as int, cy as int, r as int, y - 1), c),
        decreases cy + r + 1 - y,
    {
        let ghost before = disc_rows_pts(cx as int, cy as int, r as int, y - 1);
        let mut x: i64 = (cx - r) as i64;
        while x <= (cx + r) as i64
            invariant
                cx - r <= x <= cx + r + 1,
                cy - r <= y <= cy + r,
                r >= 0,
                2 * r * r <= i32::MAX,
                r * r <= i32::MAX,
                disc_ok(cx as int, cy as int, r as int),
                before == disc_rows_pts(cx as int, cy as int, r as int, y - 1),
                canvas_ok(orig.len() as int, w as int, h as int),
                buf@.len() == orig.len(),
                buf@ == paint(orig, w as int, h as int, before + disc_row_pts(cx as int, cy as int, r as int, y as int, x - 1), c),
            decreases cx + r + 1 - x,
        {
            let ghost s0 = before + disc_row_pts(cx as int, cy as int, r as int, y as int, x - 1);
            let xi = x as i32;
            let yi = y as i32;
            assert((xi - cx) * (xi - cx) + (yi - cy) * (yi - cy) <= 2 * r * r) by (nonlinear_arith)
                requires
                    -r <= xi - cx <= r,
                    -r <= yi - cy <= r,
            ;
            assert(0 <= (xi - cx) * (xi - cx)) by (nonlinear_arith);
            assert(0 <= (yi - cy) * (yi - cy)) by (nonlinear_arith);
            if (xi - cx) * (xi - cx) + (yi - cy) * (yi - cy) <= r * r {
                proof {
                    assert(before + disc_row_pts(cx as int, cy as int, r as int, y as int, x as int)
                        =~= s0.push((x as int, y as int)));
                    lemma_paint_push(orig, w as int, h as int, s0, (x as int, y as int), c);
                    lemma_paint_len(orig, w as int, h as int, s0.push((x as int, y as int)), c);
                }
                set_pixel(buf, w, h, xi, yi, c);
            } else {
                assert(before + disc_row_pts(cx as int, cy as int, r as int, y as int, x as int) =~= s0);
            }
            x = x + 1;
        }
        proof {
            assert(disc_rows_pts(cx as int, cy as int, r as int, y as int) == before + disc_row_pts(
                cx as int,
                cy as int,
                r as int,
                y as int,
                cx + r,
            ));
        }
        y = y + 1;
    }
}

proof fn lemma_disc_row_contains(cx: int, cy: int, r: int, y: int, xe: int, x: int, yy: int)
    ensures
        disc_row_pts(cx, cy, r, y, xe).contains((x, yy)) <==> (yy == y && cx - r <= x <= xe && in_disc(cx, cy, r, x, y)),
    decreases xe + 1 - (cx - r),
{
    if xe >= cx - r {
        lemma_disc_row_contains(cx, cy, r, y, xe - 1, x, yy);
        let a = disc_row_pts(cx, cy, r, y, xe - 1);
        if in_disc(cx, cy, r, xe, y) {
            let s = a.push((xe, y));
            if s.contains((x, yy)) {
                let k = choose|k: int| 0 <= k < s.len() && s[k] == (x, yy);
                if k < a.len() {
                    assert(a[k] == (x, yy));
                }
            }
            if yy == y && cx - r <= x <= xe && in_disc(cx, cy, r, x, y) {
                if x == xe {
                    assert(s[a.len() as int] == (x, yy));
                } else {
                    let k = choose|k: int| 0 <= k < a.len() && a[k] == (x, yy);
                    assert(s[k] == (x, yy));
                }
            }
        }
    }
}

proof fn lemma_disc_rows_contains(cx: int, cy: int, r: int, ye: int, x: int, y: int)
    ensures
        disc_rows_pts(cx, cy, r, ye).contains((x, y)) <==> (cy - r <= y <= ye && cx - r <= x <= cx + r && in_disc(cx, cy, r, x, y)),
    decreases ye + 1 - (cy - r),
{
    if ye >= cy - r {
        lemma_disc_rows_contains(cx, cy, r, ye - 1, x, y);
        lemma_disc_row_contains(cx, cy, r, ye, cx + r, x, y);
        let a = disc_rows_pts(cx, cy, r, ye - 1);
        let b = disc_row_pts(cx, cy, r, ye, cx + r);
        let s = a + b;
        if a.contains((x, y)) {
            let k = choose|k: int| 0 <= k < a.len() && a[k] == (x, y);
            assert(s[k] == (x, y));
        }
        if b.contains((x, y)) {
            let k = choose|k: int| 0 <= k < b.len() && b[k] == (x, y);
            assert(s[a.len() + k] == (x, y));
        }
        if s.contains((x, y)) {
            let k = choose|k: int| 0 <= k < s.len() && s[k] == (x, y);
            if k < a.len() {
                assert(a[k] == (x, y));
            } else {
                assert(b[k - a.len()] == (x, y));
            }
        }
    }
}

/// The disc's points are exactly those within distance r of the centre.
pub proof fn lemma_disc_contains(cx: int, cy: int, r: int, x: int, y: int)
    requires
        r >= 0,
    ensures
        disc_pts(cx, cy, r).contains((x, y)) <==> in_disc(cx, cy, r, x, y),
{
    lemma_disc_rows_contains(cx, cy, r, cy + r, x, y);
    assert(0 <= (x - cx) * (x - cx)) by (nonlinear_arith);
    assert(0 <= (y - cy) * (y - cy)) by (nonlinear_arith);
    if in_disc(cx, cy, r, x, y) {
        lemma_square_bound(x - cx, r, (y - cy) * (y - cy));
        lemma_square_bound(y - cy, r, (x - cx) * (x - cx));
    }
}

proof fn lemma_square_bound(d: int, r: int, other: int)
    requires
        r >= 0,
        other >= 0,
        d * d + other <= r * r,
    ensures
        -r <= d <= r,
{
    if d > r {
        assert(d * d > r * r) by (nonlinear_arith)
            requires
                d > r,
                r >= 0,
        ;
    }
    if d < -r {
        assert(d * d > r * r) by (nonlinear_arith)
            requires
                d < -r,
                r >= 0,
        ;
    }
}


// ── thick lines ─────────────────────────────────────────────────────────────

pub open spec fn abs_i(v: int) -> int {
    if v < 0 { -v } else { v }
}

/// Half of a line width, rounded toward zero.
pub open spec fn half_width(lw: int) -> int {
    if lw >= 0 { lw / 2 } else { -((-lw) / 2) }
}

/// Column `x + ox` of a square brush: (x + ox, y - half) .. (x + ox, y + half), top to bottom.
pub open spec fn brush_col(x: int, y: int, half: int, ox: int) -> Seq<(int, int)> {
    Seq::new(if half >= 0 { (2 * half + 1) as nat } else { 0 }, |k: int| (x + ox, y - half + k))
}

/// Columns ox = -half .. oe of a square brush, left to right.
pub open spec fn brush_cols(x: int, y: int, half: int, oe: int) -> Seq<(int, int)>
    decreases oe + 1 + half,
{
    if oe < -half {
        Seq::empty()
    } else {
        brush_cols(x, y, half, oe - 1) + brush_col(x, y, half, oe)
    }
}

/// The square brush of radius `half` centred on (x, y); empty when `half` is negative.
pub open spec fn brush_pts(x: int, y: int, half: int) -> Seq<(int, int)> {
    brush_cols(x, y, half, half)
}

/// Positions visited by the integer line walk from (x, y) toward (x1, y1), at most `fuel` steps.
pub open spec fn bres_walk(
    x: int,
    y: int,
    err: int,
    x1: int,
    y1: int,
    dx: int,
    dy: int,
    sx: int,
    sy: int,
    fuel: nat,
) -> Seq<(int, int)>
    decreases fuel,
{
    if (x == x1 && y == y1) || fuel == 0 {
        seq![(x, y)]
    } else {
        let e2 = 2 * err;
        let xa = if e2 > -dy { x + sx } else { x };
        let ea = if e2 > -dy { err - dy } else { err };
        let yb = if e2 < dx { y + sy } else { y };
        let eb = if e2 < dx { ea + dx } else { ea };
        seq![(x, y)] + bres_walk(xa, yb, eb, x1, y1, dx, dy, sx, sy, (fuel - 1) as nat)
    }
}

/// The pixel path of the line from (x0, y0) to (x1, y1), both ends included.
pub open spec fn line_path(x0: int, y0: int, x1: int, y1: int) -> Seq<(int, int)> {
    let dx = abs_i(x1 - x0);
    let dy = abs_i(y1 - y0);
    let sx = if x0 < x1 { 1int } else { -1int };
    let sy = if y0 < y1 { 1int } else { -1int };
    bres_walk(x0, y0, dx - dy, x1, y1, dx, dy, sx, sy, (dx + dy) as nat)
}

/// A brush stamped at every point of `path`, in order.
pub open spec fn brush_along(path: Seq<(int, int)>, half: int) -> Seq<(int, int)>
    decreases path.len(),
{
    if path.len() == 0 {
        Seq::empty()
    } else {
        brush_along(path.drop_last(), half) + brush_pts(path.last().0, path.last().1, half)
    }
}

/// Points of a line of width `lw`.
pub open spec fn line_pts(x0: int, y0: int, x1: int, y1: int, lw: int) -> Seq<(int, int)> {
    brush_along(line_path(x0, y0, x1, y1), half_width(lw))
}

pub open spec fn min_i(a: int, b: int) -> int {
    if a <= b { a } else { b }
}

pub open spec fn max_i(a: int, b: int) -> int {
    if a >= b { a } else { b }
}

/// Arguments for which the line walk and the brush stay within `i32`.
pub open spec fn line_ok(x0: int, y0: int, x1: int, y1: int, lw: int) -> bool {
    let half = half_width(lw);
    &&& 3 * abs_i(x1 - x0) <= i32::MAX
    &&& 3 * abs_i(y1 - y0) <= i32::MAX
    &&& half >= 0 ==> {
        &&& i32::MIN <= min_i(x0, x1) - half
        &&& max_i(x0, x1) + half <= i32::MAX
        &&& i32::MIN <= min_i(y0, y1) - half
        &&& max_i(y0, y1) + half <= i32::MAX
    }
}

/// Stamps the square brush of radius `half` at (x, y), column by column.
fn stamp(buf: &mut [u8], w: usize, h: usize, x: i32, y: i32, half: i32, c: Rgba)
    requires
        canvas_ok(old(buf)@.len() as int, w as int, h as int),
        half >= 0 ==> i32::MIN <= x - half && x + half <= i32::MAX && i32::MIN <= y - half && y + half <= i32::MAX,
    ensures
        final(buf)@ == paint(old(buf)@, w as int, h as int, brush_pts(x as int, y as int, half as int), c),
{
    let ghost orig = buf@;
    let ghost (wi, hi, hf) = (w as int, h as int, half as int);
    let mut ox: i64 = -(half as i64);
    while ox <= half as i64
        invariant
            -hf <= ox,
            ox <= hf + 1 || ox == -hf,
            hf == half,
            wi == w,
            hi == h,
            half >= 0 ==> i32::MIN <= x - half && x + half <= i32::MAX && i32::MIN <= y - half && y + half <= i32::MAX,
            canvas_ok(orig.len() as int, wi, hi),
            buf@.len() == orig.len(),
            buf@ == paint(orig, wi, hi, brush_cols(x as int, y as int, hf, ox - 1), c),
        decreases hf + 1 - ox,
    {
        let ghost before = brush_cols(x as int, y as int, hf, ox - 1);
        let ghost col = brush_col(x as int, y as int, hf, ox as int);
        let mut oy: i64 = -(half as i64);
        while oy <= half as i64
            invariant
                -hf <= oy <= hf + 1,
                -hf <= ox <= hf,
                hf == half,
                wi == w,
                hi == h,
                half >= 0 ==> i32::MIN <= x - half && x + half <= i32::MAX && i32::MIN <= y - half && y + half <= i32::MAX,
                before == brush_cols(x as int, y as int, hf, ox - 1),
                col == brush_col(x as int, y as int, hf, ox as int),
                canvas_ok(orig.len() as int, wi, hi),
                buf@.len() == orig.len(),
                buf@ == paint(orig, wi, hi, before + col.take(oy + hf), c),
            decreases hf + 1 - oy,
        {
            let ghost k = oy + hf;
            let ghost p = (x + ox, y + oy);
            proof {
                assert(col[k] == p);
                assert(before + col.take(k + 1) =~= (before + col.take(k)).push(p));
                lemma_paint_push(orig, wi, hi, before + col.take(k), p, c);
                lemma_paint_len(orig, wi, hi, before + col.take(k + 1), c);
            }
            set_pixel(buf, w, h, (x as i64 + ox) as i32, (y as i64 + oy) as i32, c);
            oy = oy + 1;
        }
        proof {
            assert(col.take(oy + hf) =~= col);
            assert(brush_cols(x as int, y as int, hf, ox as int) == before + col);
        }
        ox = ox + 1;
    }
}

proof fn lemma_bres_step(dx: int, dy: int, i: int, j: int, err: int)
    requires
        0 <= i <= dx,
        0 <= j <= dy,
        err == dx - dy + j * dx - i * dy,
        -3 * dy <= 2 * err <= 3 * dx,
        !(i == dx && j == dy),
    ensures
        (2 * err > -dy) || (2 * err < dx),
        (2 * err > -dy) ==> i + 1 <= dx,
        (2 * err < dx) ==> j + 1 <= dy,
        ({
            let xs = 2 * err > -dy;
            let ys = 2 * err < dx;
            let i2 = if xs { i + 1 } else { i };
            let j2 = if ys { j + 1 } else { j };
            let ea = if xs { err - dy } else { err };
            let eb = if ys { ea + dx } else { ea };
            &&& eb == dx - dy + j2 * dx - i2 * dy
            &&& -3 * dy <= 2 * eb <= 3 * dx
        }),
{
    if i == dx {
        assert(j * dx - i * dy <= -dx) by (nonlinear_arith)
            requires
                i == dx,
                0 <= j < dy,
                dx >= 0,
        ;
    }
    if j == dy {
        assert(j * dx - i * dy >= dy) by (nonlinear_arith)
            requires
                j == dy,
                0 <= i < dx,
                dy >= 0,
        ;
    }
    assert((i + 1) * dy == i * dy + dy) by (nonlinear_arith);
    assert((j + 1) * dx == j * dx + dx) by (nonlinear_arith);
}

/// Draws the line from (x0, y0) to (x1, y1) with the integer line walk, stamping a
/// square brush of radius `lw / 2` (rounded toward zero) at every step.
pub fn draw_line_thick_i(buf: &mut [u8], w: usize, h: usize, x0: i32, y0: i32, x1: i32, y1: i32, c: Rgba, lw: i32)
    requires
        canvas_ok(old(buf)@.len() as int, w as int, h as int),
        line_ok(x0 as int, y0 as int, x1 as int, y1 as int, lw as int),
    ensures
        final(buf)@ == paint(old(buf)@, w as int, h as int, line_pts(x0 as int, y0 as int, x1 as int, y1 as int, lw as int), c),
{
    let ghost orig = buf@;
    let ghost (wi, hi) = (w as int, h as int);
    let ghost path = line_path(x0 as int, y0 as int, x1 as int, y1 as int);
    let half = lw / 2;
    if x0 == x1 && y0 == y1 {
        stamp(buf, w, h, x0, y0, half, c);
        proof {
            assert(path == seq![(x0 as int, y0 as int)]);
            assert(path.drop_last() =~= Seq::<(int, int)>::empty());
            assert(brush_along(path.drop_last(), half as int) == Seq::<(int, int)>::empty());
            assert(path.last() == (x0 as int, y0 as int));
            assert(brush_along(path, half as int) =~= brush_pts(x0 as int, y0 as int, half as int));
            assert(half == half_width(lw as int));
        }
        return;
    }
    let dx: i32 = if x1 >= x0 { x1 - x0 } else { x0 - x1 };
    let dy: i32 = if y1 >= y0 { y1 - y0 } else { y0 - y1 };
    let sx: i32 = if x0 < x1 { 1 } else { -1 };
    let sy: i32 = if y0 < y1 { 1 } else { -1 };
    let mut err: i32 = dx - dy;
    let mut x: i32 = x0;
    let mut y: i32 = y0;
    let ghost mut i: int = 0;
    let ghost mut j: int = 0;
    let ghost mut fuel: nat = (dx + dy) as nat;
    let ghost mut visited: Seq<(int, int)> = Seq::empty();
    loop
        invariant_except_break
            canvas_ok(orig.len() as int, wi, hi),
            wi == w,
            hi == h,
            line_ok(x0 as int, y0 as int, x1 as int, y1 as int, lw as int),
            half == half_width(lw as int),
            dx == abs_i(x1 - x0),
            dy == abs_i(y1 - y0),
            sx == (if x0 < x1 { 1int } else { -1int }),
            sy == (if y0 < y1 { 1int } else { -1int }),
            0 <= i <= dx,
            0 <= j <= dy,
            x == (if sx == 1 { x0 + i } else { x0 - i }),
            y == (if sy == 1 { y0 + j } else { y0 - j }),
            err == dx - dy + j * dx - i * dy,
            -3 * dy <= 2 * err <= 3 * dx,
            fuel >= (dx - i) + (dy - j),
            path == line_path(x0 as int, y0 as int, x1 as int, y1 as int),
            visited + bres_walk(x as int, y as int, err as int, x1 as int, y1 as int, dx as int, dy as int, sx as int, sy as int, fuel) == path,
            buf@.len() == orig.len(),
            buf@ == paint(orig, wi, hi, brush_along(visited, half as int), c),
        ensures
            buf@ == paint(orig, wi, hi, brush_along(path, half as int), c),
        decreases fuel,
    {
        let ghost before = brush_along(visited, half as int);
        let ghost rest = bres_walk(x as int, y as int, err as int, x1 as int, y1 as int, dx as int, dy as int, sx as int, sy as int, fuel);
        proof {
            assert(x1 == (if sx == 1 { x0 + dx } else { x0 - dx }));
            assert(y1 == (if sy == 1 { y0 + dy } else { y0 - dy }));
        }
        stamp(buf, w, h, x, y, half, c);
        proof {
            lemma_paint_concat(orig, wi, hi, before, brush_pts(x as int, y as int, half as int), c);
            assert(visited.push((x as int, y as int)).drop_last() =~= visited);
            lemma_paint_len(orig, wi, hi, brush_along(visited.push((x as int, y as int)), half as int), c);
        }
        if x == x1 && y == y1 {
            proof {
                assert(rest == seq![(x as int, y as int)]);
                assert(visited + rest =~= visited.push((x as int, y as int)));
            }
            break;
        }
        proof {
            lemma_bres_step(dx as int, dy as int, i, j, err as int);
        }
        let e2 = 2 * err;
        if e2 > -dy {
            err = err - dy;
            x = x + sx;
            proof {
                i = i + 1;
            }
        }
        if e2 < dx {
            err = err + dx;
            y = y + sy;
            proof {
                j = j + 1;
            }
        }
        proof {
            assert(fuel > 0);
            let tail = bres_walk(x as int, y as int, err as int, x1 as int, y1 as int, dx as int, dy as int, sx as int, sy as int, (fuel - 1) as nat);
            assert(rest == seq![(rest[0].0, rest[0].1)] + tail);
            assert(visited.push(rest[0]) + tail =~= visited + rest);
            visited = visited.push(rest[0]);
            fuel = (fuel - 1) as nat;
        }
    }
}


// ── mosaic ──────────────────────────────────────────────────────────────────

/// Sum of channel `ch` over the pixels of row y with x in [xa, xb).
pub open spec fn row_sum(buf: Seq<u8>, w: int, ch: int, xa: int, xb: int, y: int) -> int
    decreases xb - xa,
{
    if xb <= xa {
        0
    } else {
        row_sum(buf, w, ch, xa, xb - 1, y) + buf[px_index(w, xb - 1, y) + ch]
    }
}

/// Sum of channel `ch` over the pixels of [xa, xb) x [ya, yb).
pub open spec fn rect_sum(buf: Seq<u8>, w: int, ch: int, xa: int, xb: int, ya: int, yb: int) -> int
    decreases yb - ya,
{
    if yb <= ya {
        0
    } else {
        rect_sum(buf, w, ch, xa, xb, ya, yb - 1) + row_sum(buf, w, ch, xa, xb, yb - 1)
    }
}

/// The mosaic covers [max(x0, 0), min(x1, w)) x [max(y0, 0), min(y1, h)).
pub open spec fn in_mosaic(w: int, h: int, x0: int, y0: int, x1: int, y1: int, x: int, y: int) -> bool {
    max_i(x0, 0) <= x < min_i(x1, w) && max_i(y0, 0) <= y < min_i(y1, h)
}

/// First coordinate of the block that holds `v`, blocks starting at `v0`.
pub open spec fn block_start(v: int, v0: int, block: int) -> int {
    v0 + ((v - v0) / block) * block
}

/// Pixel (x, y) of the mosaic: the channel averages of its block in `orig`, opaque.
pub open spec fn mosaic_pixel(
    orig: Seq<u8>,
    w: int,
    h: int,
    x0: int,
    y0: int,
    x1: int,
    y1: int,
    block: int,
    x: int,
    y: int,
) -> (u8, u8, u8, u8) {
    let xs = block_start(x, max_i(x0, 0), block);
    let ys = block_start(y, max_i(y0, 0), block);
    let xe = min_i(xs + block, min_i(x1, w));
    let ye = min_i(ys + block, min_i(y1, h));
    let n = (xe - xs) * (ye - ys);
    (
        (rect_sum(orig, w, 0, xs, xe, ys, ye) / n) as u8,
        (rect_sum(orig, w, 1, xs, xe, ys, ye) / n) as u8,
        (rect_sum(orig, w, 2, xs, xe, ys, ye) / n) as u8,
        255u8,
    )
}

/// Pixels of one mosaic block get one colour: two pixels whose columns and rows
/// fall in the same block have the same mosaic pixel.
pub proof fn lemma_mosaic_uniform(
    orig: Seq<u8>,
    w: int,
    h: int,
    x0: int,
    y0: int,
    x1: int,
    y1: int,
    block: int,
    x: int,
    y: int,
    xx: int,
    yy: int,
)
    requires
        block > 0,
        block_start(x, max_i(x0, 0), block) == block_start(xx, max_i(x0, 0), block),
        block_start(y, max_i(y0, 0), block) == block_start(yy, max_i(y0, 0), block),
    ensures
        mosaic_pixel(orig, w, h, x0, y0, x1, y1, block, x, y) == mosaic_pixel(orig, w, h, x0, y0, x1, y1, block, xx, yy),
{
}

proof fn lemma_row_sum_bound(buf: Seq<u8>, w: int, ch: int, xa: int, xb: int, y: int)
    ensures
        0 <= row_sum(buf, w, ch, xa, xb, y) <= 255 * (if xb > xa { xb - xa } else { 0 }),
    decreases xb - xa,
{
    if xb > xa {
        lemma_row_sum_bound(buf, w, ch, xa, xb - 1, y);
    }
}

proof fn lemma_block_of(v: int, v0: int, k: int, block: int, start: int)
    requires
        block > 0,
        k >= 0,
        start == v0 + k * block,
        start <= v < start + block,
    ensures
        block_start(v, v0, block) == start,
{
    vstd::arithmetic::div_mod::lemma_fundamental_div_mod_converse(v - v0, block, k, v - start);
    assert((v - v0) == k * block + (v - start));
}

/// Channel `ch` of a pixel.
pub open spec fn chan(p: (u8, u8, u8, u8), ch: int) -> int {
    if ch == 0 {
        p.0 as int
    } else if ch == 1 {
        p.1 as int
    } else if ch == 2 {
        p.2 as int
    } else {
        p.3 as int
    }
}

proof fn lemma_row_sum_const(buf: Seq<u8>, w: int, ch: int, xa: int, xb: int, y: int, p: (u8, u8, u8, u8))
    requires
        xa <= xb,
        0 <= ch < 4,
        forall|x: int| xa <= x < xb ==> #[trigger] pixel(buf, w, x, y) == p,
    ensures
        row_sum(buf, w, ch, xa, xb, y) == (xb - xa) * chan(p, ch),
    decreases xb - xa,
{
    if xb > xa {
        lemma_row_sum_const(buf, w, ch, xa, xb - 1, y, p);
        assert(pixel(buf, w, xb - 1, y) == p);
        let i = px_index(w, xb - 1, y);
        assert(buf[i + ch] == chan(p, ch)) by {
            if ch == 0 {
                assert(i + ch == i);
            }
        }
        let v = chan(p, ch);
        assert((xb - 1 - xa) * v + v == (xb - xa) * v) by (nonlinear_arith);
    } else {
        let v = chan(p, ch);
        assert((xb - xa) * v == 0) by (nonlinear_arith)
            requires
                xb == xa,
        ;
    }
}

proof fn lemma_rect_sum_const(
    buf: Seq<u8>,
    w: int,
    ch: int,
    xa: int,
    xb: int,
    ya: int,
    yb: int,
    p: (u8, u8, u8, u8),
)
    requires
        xa <= xb,
        ya <= yb,
        0 <= ch < 4,
        forall|x: int, y: int| xa <= x < xb && ya <= y < yb ==> #[trigger] pixel(buf, w, x, y) == p,
    ensures
        rect_sum(buf, w, ch, xa, xb, ya, yb) == (yb - ya) * ((xb - xa) * chan(p, ch)),
    decreases yb - ya,
{
    if yb > ya {
        lemma_rect_sum_const(buf, w, ch, xa, xb, ya, yb - 1, p);
        assert forall|x: int| xa <= x < xb implies #[trigger] pixel(buf, w, x, yb - 1) == p by {}
        lemma_row_sum_const(buf, w, ch, xa, xb, yb - 1, p);
        let r = (xb - xa) * chan(p, ch);
        assert((yb - 1 - ya) * r + r == (yb - ya) * r) by (nonlinear_arith);
    } else {
        let r = (xb - xa) * chan(p, ch);
        assert((yb - ya) * r == 0) by (nonlinear_arith)
            requires
                yb == ya,
        ;
    }
}

/// Where `v >= v0`, the block of `v` starts at `v0 + k * block` for the `k >= 0`
/// that gives `start <= v < start + block`.
proof fn lemma_block_start_facts(v: int, v0: int, block: int)
    requires
        block > 0,
        v0 <= v,
    ensures
        (v - v0) / block >= 0,
        block_start(v, v0, block) == v0 + ((v - v0) / block) * block,
        v0 <= block_start(v, v0, block) <= v < block_start(v, v0, block) + block,
{
    let d = v - v0;
    vstd::arithmetic::div_mod::lemma_div_pos_is_pos(d, block);
    vstd::arithmetic::div_mod::lemma_fundamental_div_mod(d, block);
    vstd::arithmetic::div_mod::lemma_mod_pos_bound(d, block);
    vstd::arithmetic::mul::lemma_mul_is_commutative(block, d / block);
    assert(0 <= (d / block) * block) by (nonlinear_arith)
        requires
            d / block >= 0,
            block > 0,
    ;
}

/// A mosaic is its own mosaic: where `once` holds the mosaic of `orig`, the
/// mosaic of `once` over the same region and block size gives back the pixels
/// of `once`.
pub proof fn lemma_mosaic_fixed(
    orig: Seq<u8>,
    once: Seq<u8>,
    w: int,
    h: int,
    x0: int,
    y0: int,
    x1: int,
    y1: int,
    block: int,
    x: int,
    y: int,
)
    requires
        block > 0,
        in_mosaic(w, h, x0, y0, x1, y1, x, y),
        forall|xx: int, yy: int|
            on_canvas(w, h, xx, yy) ==> #[trigger] pixel(once, w, xx, yy) == if in_mosaic(w, h, x0, y0, x1, y1, xx, yy) {
                mosaic_pixel(orig, w, h, x0, y0, x1, y1, block, xx, yy)
            } else {
                pixel(orig, w, xx, yy)
            },
    ensures
        mosaic_pixel(once, w, h, x0, y0, x1, y1, block, x, y) == pixel(once, w, x, y),
{
    let vx = max_i(x0, 0);
    let vy = max_i(y0, 0);
    lemma_block_start_facts(x, vx, block);
    lemma_block_start_facts(y, vy, block);
    let kx = (x - vx) / block;
    let ky = (y - vy) / block;
    let xs = block_start(x, vx, block);
    let ys = block_start(y, vy, block);
    let xe = min_i(xs + block, min_i(x1, w));
    let ye = min_i(ys + block, min_i(y1, h));
    let p = pixel(once, w, x, y);
    assert(p == mosaic_pixel(orig, w, h, x0, y0, x1, y1, block, x, y));
    assert forall|xx: int, yy: int| xs <= xx < xe && ys <= yy < ye implies #[trigger] pixel(once, w, xx, yy) == p by {
        lemma_block_of(xx, vx, kx, block, xs);
        lemma_block_of(yy, vy, ky, block, ys);
        assert(in_mosaic(w, h, x0, y0, x1, y1, xx, yy));
        lemma_mosaic_uniform(orig, w, h, x0, y0, x1, y1, block, x, y, xx, yy);
    }
    let a = xe - xs;
    let b = ye - ys;
    assert(a >= 1 && b >= 1);
    assert(b * (a * chan(p, 0)) == (a * b) * chan(p, 0)) by (nonlinear_arith);
    assert(b * (a * chan(p, 1)) == (a * b) * chan(p, 1)) by (nonlinear_arith);
    assert(b * (a * chan(p, 2)) == (a * b) * chan(p, 2)) by (nonlinear_arith);
    assert(0 < a * b) by (nonlinear_arith)
        requires
            a >= 1,
            b >= 1,
    ;
    lemma_rect_sum_const(once, w, 0, xs, xe, ys, ye, p);
    lemma_rect_sum_const(once, w, 1, xs, xe, ys, ye, p);
    lemma_rect_sum_const(once, w, 2, xs, xe, ys, ye, p);
    vstd::arithmetic::div_mod::lemma_div_by_multiple(chan(p, 0), a * b);
    vstd::arithmetic::div_mod::lemma_div_by_multiple(chan(p, 1), a * b);
    vstd::arithmetic::div_mod::lemma_div_by_multiple(chan(p, 2), a * b);
    vstd::arithmetic::mul::lemma_mul_is_commutative(chan(p, 0), a * b);
    vstd::arithmetic::mul::lemma_mul_is_commutative(chan(p, 1), a * b);
    vstd::arithmetic::mul::lemma_mul_is_commutative(chan(p, 2), a * b);
}

/// Two buffers of one length that agree on every pixel of a `w` x `h` image
/// and on every byte beyond it are equal.
pub proof fn lemma_same_pixels(a: Seq<u8>, b: Seq<u8>, w: int, h: int)
    requires
        canvas_ok(a.len() as int, w, h),
        a.len() == b.len(),
        forall|x: int, y: int| on_canvas(w, h, x, y) ==> #[trigger] pixel(a, w, x, y) == pixel(b, w, x, y),
        forall|i: int| w * h * 4 <= i < a.len() ==> #[trigger] a[i] == b[i],
    ensures
        a == b,
{
    assert forall|i: int| 0 <= i < a.len() implies #[trigger] a[i] == b[i] by {
        if i < w * h * 4 {
            let q = i / 4;
            vstd::arithmetic::div_mod::lemma_fundamental_div_mod(i, 4);
            vstd::arithmetic::div_mod::lemma_mod_pos_bound(i, 4);
            assert(w > 0) by (nonlinear_arith)
                requires
                    0 <= i < w * h * 4,
                    w >= 0,
                    h >= 0,
            ;
            assert(0 <= q < w * h);
            let y = q / w;
            let x = q % w;
            vstd::arithmetic::div_mod::lemma_fundamental_div_mod(q, w);
            vstd::arithmetic::div_mod::lemma_mod_pos_bound(q, w);
            vstd::arithmetic::div_mod::lemma_div_pos_is_pos(q, w);
            vstd::arithmetic::mul::lemma_mul_is_commutative(w, y);
            assert(y < h) by (nonlinear_arith)
                requires
                    q == w * y + x,
                    0 <= x,
                    q < w * h,
                    w > 0,
            ;
            assert(pixel(a, w, x, y) == pixel(b, w, x, y));
            assert(px_index(w, x, y) == 4 * q);
        }
    }
    assert(a =~= b);
}

/// Replaces each block x block tile of the region [max(x0, 0), min(x1, w)) x
/// [max(y0, 0), min(y1, h)) by the average colour of its pixels (tiles at the
/// right and bottom edges are cut short).
pub fn mosaic_region(buf: &mut [u8], w: usize, h: usize, x0: i32, y0: i32, x1: i32, y1: i32, block: i32)
    requires
        canvas_ok(old(buf)@.len() as int, w as int, h as int),
        block > 0,
        min_i(block as int, w as int) * min_i(block as int, h as int) * 255 <= u32::MAX,
    ensures
        final(buf)@.len() == old(buf)@.len(),
        forall|x: int, y: int|
            on_canvas(w as int, h as int, x, y) ==> #[trigger] pixel(final(buf)@, w as int, x, y) == if in_mosaic(
                w as int,
                h as int,
                x0 as int,
                y0 as int,
                x1 as int,
                y1 as int,
                x,
                y,
            ) {
                mosaic_pixel(old(buf)@, w as int, h as int, x0 as int, y0 as int, x1 as int, y1 as int, block as int, x, y)
            } else {
                pixel(old(buf)@, w as int, x, y)
            },
        forall|i: int| (w * h * 4) as int <= i < old(buf)@.len() ==> #[trigger] final(buf)@[i] == old(buf)@[i],
{
    let ghost orig = buf@;
    let blen = buf.len();
    let ghost (wi, hi, bk) = (w as int, h as int, block as int);
    let ghost (xi0, yi0, xi1, yi1) = (x0 as int, y0 as int, x1 as int, y1 as int);
    let bx_end: i64 = if (x1 as i64) < (w as i64) { x1 as i64 } else { w as i64 };
    let by_end: i64 = if (y1 as i64) < (h as i64) { y1 as i64 } else { h as i64 };
    let bx_start: i64 = if x0 > 0 { x0 as i64 } else { 0 };
    let mut by: i64 = if y0 > 0 { y0 as i64 } else { 0 };
    let ghost mut ky: int = 0;
    while by < by_end
        invariant
            canvas_ok(orig.len() as int, wi, hi),
            orig.len() == blen,
            wi == w,
            hi == h,
            bk == block,
            block > 0,
            min_i(bk, wi) * min_i(bk, hi) * 255 <= u32::MAX,
            xi0 == x0,
            yi0 == y0,
            xi1 == x1,
            yi1 == y1,
            bx_end == min_i(xi1, wi),
            by_end == min_i(yi1, hi),
            bx_start == max_i(xi0, 0),
            ky >= 0,
            by == max_i(yi0, 0) + ky * bk,
            buf@.len() == orig.len(),
            forall|i: int| wi * hi * 4 <= i < orig.len() ==> #[trigger] buf@[i] == orig[i],
            forall|x: int, y: int|
                on_canvas(wi, hi, x, y) ==> #[trigger] pixel(buf@, wi, x, y) == if in_mosaic(
                    wi,
                    hi,
                    xi0,
                    yi0,
                    xi1,
                    yi1,
                    x,
                    y,
                ) && y < by {
                    mosaic_pixel(orig, wi, hi, xi0, yi0, xi1, yi1, bk, x, y)
                } else {
                    pixel(orig, wi, x, y)
                },
        decreases if by < by_end { by_end - by } else { 0 },
    {
        let block_y_end: i64 = if by + (block as i64) < by_end { by + block as i64 } else { by_end };
        let mut bx: i64 = bx_start;
        let ghost mut kx: int = 0;
        while bx < bx_end
            invariant
                canvas_ok(orig.len() as int, wi, hi),
                orig.len() == blen,
                wi == w,
                hi == h,
                bk == block,
                block > 0,
                min_i(bk, wi) * min_i(bk, hi) * 255 <= u32::MAX,
                xi0 == x0,
                yi0 == y0,
                xi1 == x1,
                yi1 == y1,
                bx_end == min_i(xi1, wi),
                by_end == min_i(yi1, hi),
                bx_start == max_i(xi0, 0),
                ky >= 0,
                by == max_i(yi0, 0) + ky * bk,
                0 <= by < by_end,
                block_y_end == min_i(by + bk, by_end as int),
                kx >= 0,
                bx == max_i(xi0, 0) + kx * bk,
                buf@.len() == orig.len(),
                forall|i: int| wi * hi * 4 <= i < orig.len() ==> #[trigger] buf@[i] == orig[i],
                forall|x: int, y: int|
                    on_canvas(wi, hi, x, y) ==> #[trigger] pixel(buf@, wi, x, y) == if in_mosaic(
                        wi,
                        hi,
                        xi0,
                        yi0,
                        xi1,
                        yi1,
                        x,
                        y,
                    ) && (y < by || (y < block_y_end && x < bx)) {
                        mosaic_pixel(orig, wi, hi, xi0, yi0, xi1, yi1, bk, x, y)
                    } else {
                        pixel(orig, wi, x, y)
                    },
            decreases if bx < bx_end { bx_end - bx } else { 0 },
        {
            let block_x_end: i64 = if bx + (block as i64) < bx_end { bx + block as i64 } else { bx_end };
            let ghost cur = buf@;
            proof {
                assert(0 <= bx);
                assert(block_x_end - bx <= min_i(bk, wi));
                assert(block_y_end - by <= min_i(bk, hi));
                assert((block_x_end - bx) * (block_y_end - by) * 255 <= u32::MAX) by (nonlinear_arith)
                    requires
                        0 < block_x_end - bx <= min_i(bk, wi),
                        0 < block_y_end - by <= min_i(bk, hi),
                        min_i(bk, wi) * min_i(bk, hi) * 255 <= u32::MAX,
                ;
            }
            let mut sr: u32 = 0;
            let mut sg: u32 = 0;
            let mut sb: u32 = 0;
            let mut cnt: u32 = 0;
            let mut py: i64 = by;
            while py < block_y_end
                invariant
                    canvas_ok(orig.len() as int, wi, hi),
                    orig.len() == blen,
                    wi == w,
                    hi == h,
                    buf@ == cur,
                    cur.len() == orig.len(),
                    0 <= by <= py <= block_y_end,
                    block_y_end <= hi,
                    0 <= bx < block_x_end <= wi,
                    (block_x_end - bx) * (block_y_end - by) * 255 <= u32::MAX,
                    cnt == (py - by) * (block_x_end - bx),
                    sr == rect_sum(orig, wi, 0, bx as int, block_x_end as int, by as int, py as int),
                    sg == rect_sum(orig, wi, 1, bx as int, block_x_end as int, by as int, py as int),
                    sb == rect_sum(orig, wi, 2, bx as int, block_x_end as int, by as int, py as int),
                    sr <= 255 * cnt,
                    sg <= 255 * cnt,
                    sb <= 255 * cnt,
                    forall|x: int, y: int|
                        bx <= x < block_x_end && by <= y < block_y_end ==> #[trigger] pixel(cur, wi, x, y) == pixel(orig, wi, x, y),
                decreases block_y_end - py,
            {
                let mut px: i64 = bx;
                while px < block_x_end
                    invariant
                        canvas_ok(orig.len() as int, wi, hi),
                        orig.len() == blen,
                        wi == w,
                        hi == h,
                        buf@ == cur,
                    cur.len() == orig.len(),
                        0 <= by <= py < block_y_end,
                        block_y_end <= hi,
                        0 <= bx <= px <= block_x_end,
                        block_x_end <= wi,
                        (block_x_end - bx) * (block_y_end - by) * 255 <= u32::MAX,
                        cnt == (py - by) * (block_x_end - bx) + (px - bx),
                        sr == rect_sum(orig, wi, 0, bx as int, block_x_end as int, by as int, py as int)
                            + row_sum(orig, wi, 0, bx as int, px as int, py as int),
                        sg == rect_sum(orig, wi, 1, bx as int, block_x_end as int, by as int, py as int)
                            + row_sum(orig, wi, 1, bx as int, px as int, py as int),
                        sb == rect_sum(orig, wi, 2, bx as int, block_x_end as int, by as int, py as int)
                            + row_sum(orig, wi, 2, bx as int, px as int, py as int),
                        sr <= 255 * cnt,
                        sg <= 255 * cnt,
                        sb <= 255 * cnt,
                        forall|x: int, y: int|
                            bx <= x < block_x_end && by <= y < block_y_end ==> #[trigger] pixel(cur, wi, x, y) == pixel(orig, wi, x, y),
                    decreases block_x_end - px,
                {
                    proof {
                        lemma_px_in_range(wi, hi, px as int, py as int, orig.len() as int);
                        assert(pixel(cur, wi, px as int, py as int) == pixel(orig, wi, px as int, py as int));
                        assert(cnt + 1 <= (block_x_end - bx) * (block_y_end - by)) by (nonlinear_arith)
                            requires
                                cnt == (py - by) * (block_x_end - bx) + (px - bx),
                                0 <= by <= py < block_y_end,
                                bx <= px < block_x_end,
                        ;
                    }
                    let i = (py as usize * w + px as usize) * 4;
                    sr = sr + buf[i] as u32;
                    sg = sg + buf[i + 1] as u32;
                    sb = sb + buf[i + 2] as u32;
                    cnt = cnt + 1;
                    px = px + 1;
                }
                proof {
                    assert(cnt == (py + 1 - by) * (block_x_end - bx)) by (nonlinear_arith)
                        requires
                            cnt == (py - by) * (block_x_end - bx) + (block_x_end - bx),
                    ;
                }
                py = py + 1;
            }
            proof {
                lemma_rect_sum_bound_all(orig, wi, bx as int, block_x_end as int, by as int, block_y_end as int);
            }
            if cnt > 0 {
                assert(sr / cnt <= 255 && sg / cnt <= 255 && sb / cnt <= 255) by (nonlinear_arith)
                    requires
                        sr <= 255 * cnt,
                        sg <= 255 * cnt,
                        sb <= 255 * cnt,
                        cnt > 0,
                ;
                let color = Rgba {
                    r: (sr / cnt) as u8,
                    g: (sg / cnt) as u8,
                    b: (sb / cnt) as u8,
                    a: 255,
                };
                let ghost mid = buf@;
                fill_rect_alpha(buf, w, h, bx as i32, by as i32, (block_x_end - 1) as i32, (block_y_end - 1) as i32, color);
                proof {
                    let pts = rect_pts(bx as int, by as int, block_x_end - 1, block_y_end - 1);
                    assert(kx * bk >= 0 && ky * bk >= 0) by (nonlinear_arith)
                        requires
                            kx >= 0,
                            ky >= 0,
                            bk > 0,
                    ;
                    assert((block_x_end - bx) * (block_y_end - by) == cnt) by (nonlinear_arith)
                        requires
                            cnt == (block_y_end - by) * (block_x_end - bx),
                    ;
                    lemma_paint_len(mid, wi, hi, pts, color);
                    assert forall|i: int| wi * hi * 4 <= i < orig.len() implies #[trigger] buf@[i] == orig[i] by {
                        lemma_paint_tail(mid, wi, hi, pts, color, i);
                    }
                    assert forall|x: int, y: int| on_canvas(wi, hi, x, y) implies #[trigger] pixel(buf@, wi, x, y) == if in_mosaic(
                        wi,
                        hi,
                        xi0,
                        yi0,
                        xi1,
                        yi1,
                        x,
                        y,
                    ) && (y < by || (y < block_y_end && x < block_x_end)) {
                        mosaic_pixel(orig, wi, hi, xi0, yi0, xi1, yi1, bk, x, y)
                    } else {
                        pixel(orig, wi, x, y)
                    } by {
                        lemma_rect_pts_contains(bx as int, by as int, block_x_end - 1, block_y_end - 1, x, y);
                        if bx <= x < block_x_end && by <= y < block_y_end {
                            lemma_paint_opaque(mid, wi, hi, pts, color, x, y);
                            lemma_block_of(x, max_i(xi0, 0), kx, bk, bx as int);
                            lemma_block_of(y, max_i(yi0, 0), ky, bk, by as int);
                        } else {
                            lemma_paint_untouched(mid, wi, hi, pts, color, x, y);
                        }
                    }
                }
            } else {
                proof {
                    assert(false) by (nonlinear_arith)
                        requires
                            cnt == (block_y_end - by) * (block_x_end - bx),
                            cnt == 0,
                            by < block_y_end,
                            bx < block_x_end,
                    ;
                }
            }
            bx = bx + block as i64;
            proof {
                kx = kx + 1;
                assert(bx == max_i(xi0, 0) + kx * bk) by (nonlinear_arith)
                    requires
                        bx == max_i(xi0, 0) + (kx - 1) * bk + bk,
                ;
            }
        }
        by = by + block as i64;
        proof {
            ky = ky + 1;
            assert(by == max_i(yi0, 0) + ky * bk) by (nonlinear_arith)
                requires
                    by == max_i(yi0, 0) + (ky - 1) * bk + bk,
            ;
        }
    }
}

proof fn lemma_rect_sum_bound_all(buf: Seq<u8>, w: int, xa: int, xb: int, ya: int, yb: int)
    requires
        xa <= xb,
        ya <= yb,
    ensures
        forall|ch: int| 0 <= #[trigger] rect_sum(buf, w, ch, xa, xb, ya, yb) <= 255 * ((xb - xa) * (yb - ya)),
    decreases yb - ya,
{
    assert forall|ch: int| 0 <= #[trigger] rect_sum(buf, w, ch, xa, xb, ya, yb) <= 255 * ((xb - xa) * (yb - ya)) by {
        lemma_rect_sum_bound(buf, w, ch, xa, xb, ya, yb);
    }
}

proof fn lemma_rect_sum_bound(buf: Seq<u8>, w: int, ch: int, xa: int, xb: int, ya: int, yb: int)
    requires
        xa <= xb,
        ya <= yb,
    ensures
        0 <= rect_sum(buf, w, ch, xa, xb, ya, yb) <= 255 * ((xb - xa) * (yb - ya)),
    decreases yb - ya,
{
    if yb > ya {
        lemma_rect_sum_bound(buf, w, ch, xa, xb, ya, yb - 1);
        lemma_row_sum_bound(buf, w, ch, xa, xb, yb - 1);
        assert((xb - xa) * (yb - 1 - ya) + (xb - xa) == (xb - xa) * (yb - ya)) by (nonlinear_arith);
    }
}


// ── restoring from a base image ─────────────────────────────────────────────

/// End of the restored range on one axis: `min(v1, size)`, and `size` when `v1` is
/// negative (a negative end, read as an unsigned index, exceeds every size).
pub open spec fn restore_end(v1: int, size: int) -> int {
    if v1 < 0 { size } else { min_i(v1, size) }
}

/// Pixel (x, y) is restored: it lies in [max(x0, 0), restore_end(x1, w)) x
/// [max(y0, 0), restore_end(y1, h)) and the base image holds all four of its bytes.
pub open spec fn restored(w: int, h: int, x0: int, y0: int, x1: int, y1: int, base_len: int, x: int, y: int) -> bool {
    &&& max_i(x0, 0) <= x < restore_end(x1, w)
    &&& max_i(y0, 0) <= y < restore_end(y1, h)
    &&& px_index(w, x, y) + 4 <= base_len
}

/// Copies the pixels of the rectangle [x0, x1) x [y0, y1) from `base` back into `buf`.
pub fn restore_rect(buf: &mut [u8], w: usize, h: usize, x0: i32, y0: i32, x1: i32, y1: i32, base: &[u8])
    requires
        canvas_ok(old(buf)@.len() as int, w as int, h as int),
    ensures
        final(buf)@.len() == old(buf)@.len(),
        forall|x: int, y: int|
            on_canvas(w as int, h as int, x, y) ==> #[trigger] pixel(final(buf)@, w as int, x, y) == if restored(
                w as int,
                h as int,
                x0 as int,
                y0 as int,
                x1 as int,
                y1 as int,
                base@.len() as int,
                x,
                y,
            ) {
                pixel(base@, w as int, x, y)
            } else {
                pixel(old(buf)@, w as int, x, y)
            },
        forall|i: int| (w * h * 4) as int <= i < old(buf)@.len() ==> #[trigger] final(buf)@[i] == old(buf)@[i],
{
    let ghost orig = buf@;
    let ghost (wi, hi) = (w as int, h as int);
    let blen = buf.len();
    let cx0: usize = if x0 > 0 { x0 as usize } else { 0 };
    let cy0: usize = if y0 > 0 { y0 as usize } else { 0 };
    let cx1: usize = if x1 < 0 { w } else if (x1 as usize) < w { x1 as usize } else { w };
    let cy1: usize = if y1 < 0 { h } else if (y1 as usize) < h { y1 as usize } else { h };
    let mut py: usize = cy0;
    while py < cy1
        invariant
            canvas_ok(orig.len() as int, wi, hi),
            wi == w,
            hi == h,
            orig.len() == blen,
            cy1 <= h,
            cx1 <= w,
            cx0 == max_i(x0 as int, 0),
            cy0 == max_i(y0 as int, 0),
            cx1 == restore_end(x1 as int, wi),
            cy1 == restore_end(y1 as int, hi),
            cy0 <= py,
            py <= cy1 || py == cy0,
            buf@.len() == orig.len(),
            forall|i: int| wi * hi * 4 <= i < orig.len() ==> #[trigger] buf@[i] == orig[i],
            forall|x: int, y: int|
                on_canvas(wi, hi, x, y) ==> #[trigger] pixel(buf@, wi, x, y) == if restored(
                    wi,
                    hi,
                    x0 as int,
                    y0 as int,
                    x1 as int,
                    y1 as int,
                    base@.len() as int,
                    x,
                    y,
                ) && y < py {
                    pixel(base@, wi, x, y)
                } else {
                    pixel(orig, wi, x, y)
                },
        decreases cy1 - py,
    {
        let mut px: usize = cx0;
        while px < cx1
            invariant
                canvas_ok(orig.len() as int, wi, hi),
                wi == w,
                hi == h,
                orig.len() == blen,
                cy1 <= h,
                cx1 <= w,
                cx0 == max_i(x0 as int, 0),
                cy0 == max_i(y0 as int, 0),
                cx1 == restore_end(x1 as int, wi),
                cy1 == restore_end(y1 as int, hi),
                cy0 <= py < cy1,
                cx0 <= px,
                px <= cx1 || px == cx0,
                buf@.len() == orig.len(),
                forall|i: int| wi * hi * 4 <= i < orig.len() ==> #[trigger] buf@[i] == orig[i],
                forall|x: int, y: int|
                    on_canvas(wi, hi, x, y) ==> #[trigger] pixel(buf@, wi, x, y) == if restored(
                        wi,
                        hi,
                        x0 as int,
                        y0 as int,
                        x1 as int,
                        y1 as int,
                        base@.len() as int,
                        x,
                        y,
                    ) && (y < py || (y == py && x < px)) {
                        pixel(base@, wi, x, y)
                    } else {
                        pixel(orig, wi, x, y)
                    },
            decreases cx1 - px,
        {
            proof {
                lemma_px_in_range(wi, hi, px as int, py as int, orig.len() as int);
            }
            let i = (py * w + px) * 4;
            let ghost prev = buf@;
            if i + 4 <= base.len() && i + 4 <= buf.len() {
                buf[i] = base[i];
                buf[i + 1] = base[i + 1];
                buf[i + 2] = base[i + 2];
                buf[i + 3] = base[i + 3];
            }
            proof {
                assert forall|x: int, y: int| on_canvas(wi, hi, x, y) implies #[trigger] pixel(buf@, wi, x, y) == if restored(
                    wi,
                    hi,
                    x0 as int,
                    y0 as int,
                    x1 as int,
                    y1 as int,
                    base@.len() as int,
                    x,
                    y,
                ) && (y < py || (y == py && x < px + 1)) {
                    pixel(base@, wi, x, y)
                } else {
                    pixel(orig, wi, x, y)
                } by {
                    assert(pixel(prev, wi, x, y) == pixel(prev, wi, x, y));
                    if (x, y) != (px as int, py as int) {
                        lemma_cells_distinct(wi, px as int, py as int, x, y);
                        lemma_px_in_range(wi, hi, x, y, orig.len() as int);
                    }
                }
            }
            px = px + 1;
        }
        py = py + 1;
    }
}

// ── bitmap text ─────────────────────────────────────────────────────────────

/// 5x7 glyphs for the printable ASCII characters 32 ..= 126; each row holds five
/// bits, the most significant of them (0x10) being the leftmost pixel.
pub const BITMAP_FONT: [[u8; 7]; 95] = [
    [0x00, 0x00, 0x00, 0x00, 0x00, 0x00, 0x00], // ' '
    [0x04, 0x04, 0x04, 0x04, 0x04, 0x00, 0x04], // '!'
    [0x0A, 0x0A, 0x0A, 0x00, 0x00, 0x00, 0x00], // '"'
    [0x0A, 0x0A, 0x1F, 0x0A, 0x1F, 0x0A, 0x0A], // '#'
    [0x04, 0x0F, 0x14, 0x0E, 0x05, 0x1E, 0x04], // '$'
    [0x18, 0x19, 0x02, 0x04, 0x08, 0x13, 0x03], // '%'
    [0x0C, 0x12, 0x14, 0x08, 0x15, 0x12, 0x0D], // '&'
    [0x04, 0x04, 0x08, 0x00, 0x00, 0x00, 0x00], // "'"
    [0x02, 0x04, 0x08, 0x08, 0x08, 0x04, 0x02], // '('
    [0x08, 0x04, 0x02, 0x02, 0x02, 0x04, 0x08], // ')'
    [0x00, 0x04, 0x15, 0x0E, 0x15, 0x04, 0x00], // '*'
    [0x00, 0x04, 0x04, 0x1F, 0x04, 0x04, 0x00], // '+'
    [0x00, 0x00, 0x00, 0x00, 0x00, 0x04, 0x08], // ','
    [0x00, 0x00, 0x00, 0x1F, 0x00, 0x00, 0x00], // '-'
    [0x00, 0x00, 0x00, 0x00, 0x00, 0x00, 0x04], // '.'
    [0x00, 0x01, 0x02, 0x04, 0x08, 0x10, 0x00], // '/'
    [0x0E, 0x11, 0x13, 0x15, 0x19, 0x11, 0x0E], // '0'
    [0x04, 0x0C, 0x04, 0x04, 0x04, 0x04, 0x0E], // '1'
    [0x0E, 0x11, 0x01, 0x02, 0x04, 0x08, 0x1F], // '2'
    [0x1F, 0x02, 0x04, 0x02, 0x01, 0x11, 0x0E], // '3'
    [0x02, 0x06, 0x0A, 0x12, 0x1F, 0x02, 0x02], // '4'
    [0x1F, 0x10, 0x1E, 0x01, 0x01, 0x11, 0x0E], // '5'
    [0x06, 0x08, 0x10, 0x1E, 0x11, 0x11, 0x0E], // '6'
    [0x1F, 0x01, 0x02, 0x04, 0x08, 0x08, 0x08], // '7'
    [0x0E, 0x11, 0x11, 0x0E, 0x11, 0x11, 0x0E], // '8'
    [0x0E, 0x11, 0x11, 0x0F, 0x01, 0x02, 0x0C], // '9'
    [0x00, 0x00, 0x04, 0x00, 0x04, 0x00, 0x00], // ':'
    [0x00, 0x00, 0x04, 0x00, 0x04, 0x04, 0x08], // ';'
    [0x02, 0x04, 0x08, 0x10, 0x08, 0x04, 0x02], // '<'
    [0x00, 0x00, 0x1F, 0x00, 0x1F, 0x00, 0x00], // '='
    [0x08, 0x04, 0x02, 0x01, 0x02, 0x04, 0x08], // '>'
    [0x0E, 0x11, 0x01, 0x02, 0x04, 0x00, 0x04], // '?'
    [0x0E, 0x11, 0x17, 0x15, 0x17, 0x10, 0x0E], // '@'
    [0x0E, 0x11, 0x11, 0x1F, 0x11, 0x11, 0x11], // 'A'
    [0x1E, 0x11, 0x11, 0x1E, 0x11, 0x11, 0x1E], // 'B'
    [0x0E, 0x11, 0x10, 0x10, 0x10, 0x11, 0x0E], // 'C'
    [0x1C, 0x12, 0x11, 0x11, 0x11, 0x12, 0x1C], // 'D'
    [0x1F, 0x10, 0x10, 0x1E, 0x10, 0x10, 0x1F], // 'E'
    [0x1F, 0x10, 0x10, 0x1E, 0x10, 0x10, 0x10], // 'F'
    [0x0E, 0x11, 0x10, 0x17, 0x11, 0x11, 0x0F], // 'G'
    [0x11, 0x11, 0x11, 0x1F, 0x11, 0x11, 0x11], // 'H'
    [0x0E, 0x04, 0x04, 0x04, 0x04, 0x04, 0x0E], // 'I'
    [0x07, 0x02, 0x02, 0x02, 0x02, 0x12, 0x0C], // 'J'
    [0x11, 0x12, 0x14, 0x18, 0x14, 0x12, 0x11], // 'K'
    [0x10, 0x10, 0x10, 0x10, 0x10, 0x10, 0x1F], // 'L'
    [0x11, 0x1B, 0x15, 0x15, 0x11, 0x11, 0x11], // 'M'
    [0x11, 0x11, 0x19, 0x15, 0x13, 0x11, 0x11], // 'N'
    [0x0E, 0x11, 0x11, 0x11, 0x11, 0x11, 0x0E], // 'O'
    [0x1E, 0x11, 0x11, 0x1E, 0x10, 0x10, 0x10], // 'P'
    [0x0E, 0x11, 0x11, 0x11, 0x15, 0x12, 0x0D], // 'Q'
    [0x1E, 0x11, 0x11, 0x1E, 0x14, 0x12, 0x11], // 'R'
    [0x0F, 0x10, 0x10, 0x0E, 0x01, 0x01, 0x1E], // 'S'
    [0x1F, 0x04, 0x04, 0x04, 0x04, 0x04, 0x04], // 'T'
    [0x11, 0x11, 0x11, 0x11, 0x11, 0x11, 0x0E], // 'U'
    [0x11, 0x11, 0x11, 0x11, 0x11, 0x0A, 0x04], // 'V'
    [0x11, 0x11, 0x11, 0x15, 0x15, 0x15, 0x0A], // 'W'
    [0x11, 0x11, 0x0A, 0x04, 0x0A, 0x11, 0x11], // 'X'
    [0x11, 0x11, 0x11, 0x0A, 0x04, 0x04, 0x04], // 'Y'
    [0x1F, 0x01, 0x02, 0x04, 0x08, 0x10, 0x1F], // 'Z'
    [0x0E, 0x08, 0x08, 0x08, 0x08, 0x08, 0x0E], // '['
    [0x00, 0x10, 0x08, 0x04, 0x02, 0x01, 0x00], // '\\'
    [0x0E, 0x02, 0x02, 0x02, 0x02, 0x02, 0x0E], // ']'
    [0x04, 0x0A, 0x11, 0x00, 0x00, 0x00, 0x00], // '^'
    [0x00, 0x00, 0x00, 0x00, 0x00, 0x00, 0x1F], // '_'
    [0x08, 0x04, 0x02, 0x00, 0x00, 0x00, 0x00], // '`'
    [0x00, 0x00, 0x0E, 0x01, 0x0F, 0x11, 0x0F], // 'a'
    [0x10, 0x10, 0x16, 0x19, 0x11, 0x11, 0x1E], // 'b'
    [0x00, 0x00, 0x0E, 0x10, 0x10, 0x11, 0x0E], // 'c'
    [0x01, 0x01, 0x0D, 0x13, 0x11, 0x11, 0x0F], // 'd'
    [0x00, 0x00, 0x0E, 0x11, 0x1F, 0x10, 0x0E], // 'e'
    [0x06, 0x09, 0x08, 0x1C, 0x08, 0x08, 0x08], // 'f'
    [0x00, 0x0F, 0x11, 0x11, 0x0F, 0x01, 0x0E], // 'g'
    [0x10, 0x10, 0x16, 0x19, 0x11, 0x11, 0x11], // 'h'
    [0x04, 0x00, 0x0C, 0x04, 0x04, 0x04, 0x0E], // 'i'
    [0x02, 0x00, 0x06, 0x02, 0x02, 0x12, 0x0C], // 'j'
    [0x10, 0x10, 0x12, 0x14, 0x18, 0x14, 0x12], // 'k'
    [0x0C, 0x04, 0x04, 0x04, 0x04, 0x04, 0x0E], // 'l'
    [0x00, 0x00, 0x1A, 0x15, 0x15, 0x11, 0x11], // 'm'
    [0x00, 0x00, 0x16, 0x19, 0x11, 0x11, 0x11], // 'n'
    [0x00, 0x00, 0x0E, 0x11, 0x11, 0x11, 0x0E], // 'o'
    [0x00, 0x00, 0x1E, 0x11, 0x1E, 0x10, 0x10], // 'p'
    [0x00, 0x00, 0x0D, 0x13, 0x0F, 0x01, 0x01], // 'q'
    [0x00, 0x00, 0x16, 0x19, 0x10, 0x10, 0x10], // 'r'
    [0x00, 0x00, 0x0E, 0x10, 0x0E, 0x01, 0x1E], // 's'
    [0x08, 0x08, 0x1C, 0x08, 0x08, 0x09, 0x06], // 't'
    [0x00, 0x00, 0x11, 0x11, 0x11, 0x13, 0x0D], // 'u'
    [0x00, 0x00, 0x11, 0x11, 0x11, 0x0A, 0x04], // 'v'
    [0x00, 0x00, 0x11, 0x11, 0x15, 0x15, 0x0A], // 'w'
    [0x00, 0x00, 0x11, 0x0A, 0x04, 0x0A, 0x11], // 'x'
    [0x00, 0x00, 0x11, 0x11, 0x0F, 0x01, 0x0E], // 'y'
    [0x00, 0x00, 0x1F, 0x02, 0x04, 0x08, 0x1F], // 'z'
    [0x02, 0x04, 0x04, 0x08, 0x04, 0x04, 0x02], // '{'
    [0x04, 0x04, 0x04, 0x04, 0x04, 0x04, 0x04], // '|'
    [0x08, 0x04, 0x04, 0x02, 0x04, 0x04, 0x08], // '}'
    [0x00, 0x04, 0x15, 0x0E, 0x00, 0x00, 0x00], // '~'
];

/// Glyph used for `ch`: its own for printable ASCII, the blank one otherwise.
pub open spec fn glyph_index(ch: char) -> int {
    if 32 <= (ch as int) <= 126 { ch as int - 32 } else { 0 }
}

/// Whether the glyph of `ch` has its pixel (col, row) set.
pub open spec fn glyph_bit(ch: char, row: int, col: int) -> bool {
    BITMAP_FONT@[glyph_index(ch)]@[row] & (0x10u8 >> (col as u8)) != 0
}

/// The `scale` x `scale` square that draws glyph pixel (col, row) at origin (x, y).
pub open spec fn cell_pts(x: int, y: int, scale: int, row: int, col: int) -> Seq<(int, int)> {
    rect_pts(x + col * scale, y + row * scale, x + col * scale + scale - 1, y + row * scale + scale - 1)
}

/// Squares of the first `n` glyph pixels, row by row and left to right in each row.
pub open spec fn glyph_cells(ch: char, x: int, y: int, scale: int, n: int) -> Seq<(int, int)>
    decreases n,
{
    if n <= 0 {
        Seq::empty()
    } else if glyph_bit(ch, (n - 1) / 5, (n - 1) % 5) {
        glyph_cells(ch, x, y, scale, n - 1) + cell_pts(x, y, scale, (n - 1) / 5, (n - 1) % 5)
    } else {
        glyph_cells(ch, x, y, scale, n - 1)
    }
}

/// Points of the glyph of `ch` at (x, y), each font pixel a `scale` x `scale` square.
pub open spec fn glyph_pts(ch: char, x: int, y: int, scale: int) -> Seq<(int, int)> {
    glyph_cells(ch, x, y, scale, 35)
}

/// Points of the glyphs of `text`, the k-th one at x + 6 * scale * k.
pub open spec fn text_pts(text: Seq<char>, x: int, y: int, scale: int) -> Seq<(int, int)>
    decreases text.len(),
{
    if text.len() == 0 {
        Seq::empty()
    } else {
        text_pts(text.drop_last(), x, y, scale) + glyph_pts(text.last(), x + 6 * scale * (text.len() - 1), y, scale)
    }
}

/// Draws the glyph of `ch` with its top-left corner at (x, y).
pub fn draw_bitmap_char(buf: &mut [u8], w: usize, h: usize, ch: char, x: i32, y: i32, color: Rgba, scale: i32)
    requires
        canvas_ok(old(buf)@.len() as int, w as int, h as int),
        scale > 0 ==> 6 * scale <= i32::MAX && x + 5 * scale <= i32::MAX && y + 7 * scale <= i32::MAX,
    ensures
        final(buf)@ == paint(old(buf)@, w as int, h as int, glyph_pts(ch, x as int, y as int, scale as int), color),
{
    let ghost orig = buf@;
    let ghost (wi, hi) = (w as int, h as int);
    let idx = ch as u32;
    let g: usize = if idx >= 32 && idx <= 126 { (idx - 32) as usize } else { 0 };
    assert(g == glyph_index(ch));
    let glyph: [u8; 7] = BITMAP_FONT[g];
    let mut row: usize = 0;
    while row < 7
        invariant
            row <= 7,
            canvas_ok(orig.len() as int, wi, hi),
            wi == w,
            hi == h,
            g == glyph_index(ch),
            glyph@ == BITMAP_FONT@[g as int]@,
            scale > 0 ==> 6 * scale <= i32::MAX && x + 5 * scale <= i32::MAX && y + 7 * scale <= i32::MAX,
            buf@.len() == orig.len(),
            buf@ == paint(orig, wi, hi, glyph_cells(ch, x as int, y as int, scale as int, row * 5), color),
        decreases 7 - row,
    {
        let bits = glyph[row];
        let mut col: usize = 0;
        while col < 5
            invariant
                row < 7,
                col <= 5,
                canvas_ok(orig.len() as int, wi, hi),
                wi == w,
                hi == h,
                g == glyph_index(ch),
                glyph@ == BITMAP_FONT@[g as int]@,
                bits == glyph@[row as int],
                scale > 0 ==> 6 * scale <= i32::MAX && x + 5 * scale <= i32::MAX && y + 7 * scale <= i32::MAX,
                buf@.len() == orig.len(),
                buf@ == paint(orig, wi, hi, glyph_cells(ch, x as int, y as int, scale as int, row * 5 + col), color),
            decreases 5 - col,
        {
            let ghost n = row * 5 + col;
            let ghost before = glyph_cells(ch, x as int, y as int, scale as int, n);
            proof {
                assert((n + 1 - 1) / 5 == row as int && (n + 1 - 1) % 5 == col as int);
            }
            if bits & (0x10u8 >> (col as u8)) != 0 {
                if scale > 0 {
                    assert(0 <= col as int * scale <= 4 * scale && 0 <= row as int * scale <= 6 * scale) by (nonlinear_arith)
                        requires
                            col < 5,
                            row < 7,
                            scale > 0,
                    ;
                    let cx = x + col as i32 * scale;
                    let cy = y + row as i32 * scale;
                    let ghost mid = buf@;
                    fill_rect_alpha(buf, w, h, cx, cy, cx + scale - 1, cy + scale - 1, color);
                    proof {
                        lemma_paint_concat(orig, wi, hi, before, cell_pts(x as int, y as int, scale as int, row as int, col as int), color);
                        lemma_paint_len(orig, wi, hi, glyph_cells(ch, x as int, y as int, scale as int, n + 1), color);
                    }
                } else {
                    proof {
                        assert(cell_pts(x as int, y as int, scale as int, row as int, col as int) =~= Seq::<(int, int)>::empty());
                        assert(glyph_cells(ch, x as int, y as int, scale as int, n + 1) =~= before);
                    }
                }
            }
            col = col + 1;
        }
        row = row + 1;
    }
}

/// Arguments for which `text` drawn at (x, y) with `scale` keeps every coordinate in `i32`.
pub open spec fn text_ok(n: int, x: int, y: int, scale: int) -> bool {
    &&& i32::MIN <= 6 * scale <= i32::MAX
    &&& i32::MIN <= x + 6 * scale * n <= i32::MAX
    &&& scale > 0 ==> y + 7 * scale <= i32::MAX
}

/// Draws `text` left to right from (x, y), one glyph every 6 * scale pixels.
pub fn draw_bitmap_text(buf: &mut [u8], w: usize, h: usize, text: &str, x: i32, y: i32, color: Rgba, scale: i32)
    requires
        canvas_ok(old(buf)@.len() as int, w as int, h as int),
        text_ok(text@.len() as int, x as int, y as int, scale as int),
    ensures
        final(buf)@ == paint(old(buf)@, w as int, h as int, text_pts(text@, x as int, y as int, scale as int), color),
{
    let ghost orig = buf@;
    let ghost (wi, hi) = (w as int, h as int);
    let n = text.unicode_len();
    let mut cx: i32 = x;
    for ch in it: text.chars()
        invariant
            canvas_ok(orig.len() as int, wi, hi),
            wi == w,
            hi == h,
            n == text@.len(),
            it.seq() == text@,
            text_ok(n as int, x as int, y as int, scale as int),
            cx == x + 6 * scale * it.index(),
            buf@.len() == orig.len(),
            buf@ == paint(orig, wi, hi, text_pts(text@.take(it.index() as int), x as int, y as int, scale as int), color),
    {
        let ghost k = it.index() as int;
        proof {
            lemma_text_step(x as int, scale as int, k, n as int);
        }
        draw_bitmap_char(buf, w, h, ch, cx, y, color, scale);
        proof {
            let pre = text@.take(k);
            let post = text@.take(k + 1);
            assert(post.drop_last() =~= pre);
            assert(post.last() == ch);
            lemma_paint_concat(orig, wi, hi, text_pts(pre, x as int, y as int, scale as int), glyph_pts(ch, cx as int, y as int, scale as int), color);
            lemma_paint_len(orig, wi, hi, text_pts(post, x as int, y as int, scale as int), color);
        }
        cx = cx + 6 * scale;
    }
    proof {
        assert(text@.take(text@.len() as int) =~= text@);
    }
}

proof fn lemma_text_step(x: int, scale: int, k: int, n: int)
    requires
        0 <= k < n,
        i32::MIN <= 6 * scale <= i32::MAX,
        i32::MIN <= x <= i32::MAX,
        i32::MIN <= x + 6 * scale * n <= i32::MAX,
    ensures
        i32::MIN <= x + 6 * scale * (k + 1) <= i32::MAX,
        x + 6 * scale * (k + 1) == x + 6 * scale * k + 6 * scale,
        scale > 0 ==> x + 6 * scale * k + 5 * scale <= i32::MAX,
{
    assert(6 * scale * (k + 1) == 6 * scale * k + 6 * scale) by (nonlinear_arith);
    if scale >= 0 {
        assert(0 <= 6 * scale * (k + 1) <= 6 * scale * n) by (nonlinear_arith)
            requires
                scale >= 0,
                0 <= k < n,
        ;
    } else {
        assert(6 * scale * n <= 6 * scale * (k + 1) <= 0) by (nonlinear_arith)
            requires
                scale < 0,
                0 <= k < n,
        ;
    }
}


// ── numbered badges ─────────────────────────────────────────────────────────

pub open spec fn white() -> Rgba {
    Rgba { r: 255, g: 255, b: 255, a: 255 }
}

/// Left edge of the label of a badge: the label is centred on cx.
pub open spec fn badge_text_x(cx: int, number: u32, scale: int) -> int {
    cx - half_width(dec(number as nat).len() * 6 * scale)
}

/// Top edge of the label of a badge: the label is centred on cy.
pub open spec fn badge_text_y(cy: int, scale: int) -> int {
    cy - half_width(7 * scale)
}

/// Arguments for which every coordinate of the badge label fits in `i32`.
pub open spec fn badge_ok(cx: int, cy: int, number: u32, scale: int) -> bool {
    let n = dec(number as nat).len() as int;
    &&& i32::MIN <= n * 6 * scale <= i32::MAX
    &&& i32::MIN <= 7 * scale <= i32::MAX
    &&& i32::MIN <= badge_text_x(cx, number, scale) <= i32::MAX
    &&& i32::MIN <= badge_text_y(cy, scale) <= i32::MAX
    &&& text_ok(n, badge_text_x(cx, number, scale), badge_text_y(cy, scale), scale)
}

/// A numbered marker: a filled disc of radius r in `color`, with `number` in white
/// glyphs of the given scale centred on it.
pub fn draw_number_badge(
    buf: &mut [u8],
    w: usize,
    h: usize,
    cx: i32,
    cy: i32,
    r: i32,
    number: u32,
    color: Rgba,
    scale: i32,
)
    requires
        canvas_ok(old(buf)@.len() as int, w as int, h as int),
        disc_ok(cx as int, cy as int, r as int),
        badge_ok(cx as int, cy as int, number, scale as int),
    ensures
        final(buf)@ == paint(
            paint(old(buf)@, w as int, h as int, disc_pts(cx as int, cy as int, r as int), color),
            w as int,
            h as int,
            text_pts(dec(number as nat), badge_text_x(cx as int, number, scale as int), badge_text_y(cy as int, scale as int), scale as int),
            white(),
        ),
{
    let ghost orig = buf@;
    draw_filled_circle(buf, w, h, cx, cy, r, color);
    proof {
        lemma_paint_len(orig, w as int, h as int, disc_pts(cx as int, cy as int, r as int), color);
    }
    let digit_str = dec_string(number as u64);
    proof {
        reveal_with_fuel(crate::text::pow10, 11);
        lemma_dec_len(number as nat, 10);
    }
    let n = digit_str.as_str().unicode_len();
    let text_w = n as i32 * 6 * scale;
    let text_h = 7 * scale;
    let tx = cx - text_w / 2;
    let ty = cy - text_h / 2;
    let white = Rgba { r: 255, g: 255, b: 255, a: 255 };
    draw_bitmap_text(buf, w, h, digit_str.as_str(), tx, ty, white, scale);
}

} // verus!
