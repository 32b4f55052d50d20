//! Joining the grabs of several monitors into one image of their bounding box.
use vstd::prelude::*;

use crate::capture::CaptureResult;

verus! {

/// One monitor's grab: its origin on the virtual desktop and its RGBA pixels.
pub struct ScreenGrab {
    pub x: i32,
    pub y: i32,
    pub width: usize,
    pub height: usize,
    pub pixels: Vec<u8>,
}

pub open spec fn min_i(a: int, b: int) -> int {
    if a < b { a } else { b }
}

pub open spec fn max_i(a: int, b: int) -> int {
    if a > b { a } else { b }
}

/// Left edge of the bounding box of the grabs (`i32::MAX` for none).
pub open spec fn left_edge(gs: Seq<ScreenGrab>) -> int
    decreases gs.len(),
{
    if gs.len() == 0 { i32::MAX as int } else { min_i(left_edge(gs.drop_last()), gs.last().x as int) }
}

/// Top edge of the bounding box of the grabs (`i32::MAX` for none).
pub open spec fn top_edge(gs: Seq<ScreenGrab>) -> int
    decreases gs.len(),
{
    if gs.len() == 0 { i32::MAX as int } else { min_i(top_edge(gs.drop_last()), gs.last().y as int) }
}

/// Right edge (exclusive) of the bounding box of the grabs (`i32::MIN` for none).
pub open spec fn right_edge(gs: Seq<ScreenGrab>) -> int
    decreases gs.len(),
{
    if gs.len() == 0 {
        i32::MIN as int
    } else {
        max_i(right_edge(gs.drop_last()), gs.last().x + gs.last().width)
    }
}

/// Bottom edge (exclusive) of the bounding box of the grabs (`i32::MIN` for none).
pub open spec fn bottom_edge(gs: Seq<ScreenGrab>) -> int
    decreases gs.len(),
{
    if gs.len() == 0 {
        i32::MIN as int
    } else {
        max_i(bottom_edge(gs.drop_last()), gs.last().y + gs.last().height)
    }
}

/// Every grab's extent fits in `i32`, its pixel count in `usize`, and so does the
/// bounding box's.
pub open spec fn grabs_ok(gs: Seq<ScreenGrab>) -> bool {
    &&& forall|i: int| 0 <= i < gs.len() ==> {
        &&& #[trigger] gs[i].x + gs[i].width <= i32::MAX
        &&& gs[i].y + gs[i].height <= i32::MAX
        &&& gs[i].width <= i32::MAX
        &&& gs[i].height <= i32::MAX
        &&& gs[i].width * gs[i].height * 4 <= usize::MAX
    }
    &&& (right_edge(gs) - left_edge(gs)) * (bottom_edge(gs) - top_edge(gs)) * 4 <= usize::MAX
}

/// `buf` with `len` bytes of `src` from `s` copied in at `d`, when both ranges lie
/// inside their buffers; unchanged otherwise.
pub open spec fn paste_row(buf: Seq<u8>, src: Seq<u8>, s: int, d: int, len: int) -> Seq<u8> {
    if s + len <= src.len() && d + len <= buf.len() {
        buf.take(d) + src.subrange(s, s + len) + buf.skip(d + len)
    } else {
        buf
    }
}

/// The first `r` rows of `g` pasted at (ox, oy) into an image `tw` pixels wide.
pub open spec fn paste_rows(buf: Seq<u8>, g: ScreenGrab, ox: int, oy: int, tw: int, r: int) -> Seq<u8>
    decreases r,
{
    if r <= 0 {
        buf
    } else {
        paste_row(
            paste_rows(buf, g, ox, oy, tw, r - 1),
            g.pixels@,
            (r - 1) * g.width * 4,
            ((oy + r - 1) * tw + ox) * 4,
            g.width * 4,
        )
    }
}

/// The first `n` grabs pasted in order, each at its offset from (mx, my).
pub open spec fn paste_all(buf: Seq<u8>, gs: Seq<ScreenGrab>, mx: int, my: int, tw: int, n: int) -> Seq<u8>
    decreases n,
{
    if n <= 0 {
        buf
    } else {
        let g = gs[n - 1];
        paste_rows(paste_all(buf, gs, mx, my, tw, n - 1), g, g.x - mx, g.y - my, tw, g.height as int)
    }
}

/// The joined image: the bounding box, black and transparent, with every grab
/// pasted at its place; later grabs cover earlier ones.
pub open spec fn joined(gs: Seq<ScreenGrab>) -> Seq<u8> {
    let tw = right_edge(gs) - left_edge(gs);
    let th = bottom_edge(gs) - top_edge(gs);
    paste_all(Seq::new((tw * th * 4) as nat, |i: int| 0u8), gs, left_edge(gs), top_edge(gs), tw, gs.len() as int)
}

proof fn lemma_edges(gs: Seq<ScreenGrab>)
    requires
        forall|i: int| 0 <= i < gs.len() ==> {
            &&& #[trigger] gs[i].x + gs[i].width <= i32::MAX
            &&& gs[i].y + gs[i].height <= i32::MAX
        },
    ensures
        forall|i: int| 0 <= i < gs.len() ==> {
            &&& left_edge(gs) <= #[trigger] gs[i].x
            &&& top_edge(gs) <= gs[i].y
            &&& gs[i].x + gs[i].width <= right_edge(gs)
            &&& gs[i].y + gs[i].height <= bottom_edge(gs)
        },
        i32::MIN <= left_edge(gs) <= i32::MAX,
        i32::MIN <= top_edge(gs) <= i32::MAX,
        i32::MIN <= right_edge(gs) <= i32::MAX,
        i32::MIN <= bottom_edge(gs) <= i32::MAX,
    decreases gs.len(),
{
    if gs.len() > 0 {
        let p = gs.drop_last();
        assert forall|i: int| 0 <= i < p.len() implies {
            &&& #[trigger] p[i].x + p[i].width <= i32::MAX
            &&& p[i].y + p[i].height <= i32::MAX
        } by {
            assert(p[i] == gs[i]);
        }
        lemma_edges(p);
        assert(gs[gs.len() - 1] == gs.last());
        assert forall|i: int| 0 <= i < gs.len() implies {
            &&& left_edge(gs) <= #[trigger] gs[i].x
            &&& top_edge(gs) <= gs[i].y
            &&& gs[i].x + gs[i].width <= right_edge(gs)
            &&& gs[i].y + gs[i].height <= bottom_edge(gs)
        } by {
            if i < p.len() {
                assert(gs[i] == p[i]);
            }
        }
    }
}

fn paste_row_exec(buf: &mut Vec<u8>, src: &[u8], s: usize, d: usize, len: usize)
    requires
        s + len <= usize::MAX,
        d + len <= usize::MAX,
    ensures
        final(buf)@ == paste_row(old(buf)@, src@, s as int, d as int, len as int),
{
    if !(s + len <= src.len() && d + len <= buf.len()) {
        return;
    }
    let ghost b0 = buf@;
    let mut k: usize = 0;
    while k < len
        invariant
            s + len <= src.len(),
            d + len <= buf.len(),
            buf@.len() == b0.len(),
            k <= len,
            forall|i: int| 0 <= i < buf@.len() ==> #[trigger] buf@[i] == (if d <= i < d + k {
                src@[s + i - d]
            } else {
                b0[i]
            }),
        decreases len - k,
    {
        buf.set(d + k, src[s + k]);
        k = k + 1;
    }
    proof {
        assert(buf@ =~= paste_row(b0, src@, s as int, d as int, len as int));
    }
}

/// Joins the grabs of all monitors into one image covering their bounding box;
/// `None` when there is no grab.
pub fn composite(grabs: &Vec<ScreenGrab>) -> (r: Option<CaptureResult>)
    requires
        grabs_ok(grabs@),
    ensures
        grabs@.len() == 0 ==> r.is_none(),
        grabs@.len() > 0 ==> (r matches Some(c) && c.width == right_edge(grabs@) - left_edge(grabs@)
            && c.height == bottom_edge(grabs@) - top_edge(grabs@) && c.pixels@ == joined(grabs@)),
{
    if grabs.len() == 0 {
        return None;
    }
    proof {
        lemma_edges(grabs@);
    }
    let mut min_x: i32 = i32::MAX;
    let mut min_y: i32 = i32::MAX;
    let mut max_x: i32 = i32::MIN;
    let mut max_y: i32 = i32::MIN;
    let mut i: usize = 0;
    while i < grabs.len()
        invariant
            i <= grabs@.len(),
            grabs_ok(grabs@),
            min_x == left_edge(grabs@.take(i as int)),
            min_y == top_edge(grabs@.take(i as int)),
            max_x == right_edge(grabs@.take(i as int)),
            max_y == bottom_edge(grabs@.take(i as int)),
        decreases grabs@.len() - i,
    {
        proof {
            assert(grabs@.take(i + 1).drop_last() =~= grabs@.take(i as int));
            assert(grabs@.take(i + 1).last() == grabs@[i as int]);
        }
        let g = &grabs[i];
        assert(g.x + g.width <= i32::MAX);
        assert(g.y + g.height <= i32::MAX);
        let gr = g.x + g.width as i32;
        let gb = g.y + g.height as i32;
        if g.x < min_x { min_x = g.x; }
        if g.y < min_y { min_y = g.y; }
        if gr > max_x { max_x = gr; }
        if gb > max_y { max_y = gb; }
        i = i + 1;
    }
    proof {
        assert(grabs@.take(grabs@.len() as int) =~= grabs@);
        assert(grabs@[0].x + grabs@[0].width <= right_edge(grabs@));
    }
    let total_w = (max_x as i64 - min_x as i64) as usize;
    let total_h = (max_y as i64 - min_y as i64) as usize;
    assert(0 <= total_w * total_h) by (nonlinear_arith)
        requires
            total_w >= 0,
            total_h >= 0,
    ;
    let n = total_w * total_h * 4;
    let mut buf: Vec<u8> = vec![0u8; n];
    proof {
        assert(buf@ =~= Seq::new((total_w * total_h * 4) as nat, |i: int| 0u8));
    }
    let ghost zero = buf@;
    let mut j: usize = 0;
    while j < grabs.len()
        invariant
            j <= grabs@.len(),
            grabs_ok(grabs@),
            min_x == left_edge(grabs@),
            min_y == top_edge(grabs@),
            total_w == right_edge(grabs@) - left_edge(grabs@),
            total_h == bottom_edge(grabs@) - top_edge(grabs@),
            n == total_w * total_h * 4,
            buf@.len() == n,
            zero.len() == n,
            buf@ == paste_all(zero, grabs@, min_x as int, min_y as int, total_w as int, j as int),
            forall|i: int| 0 <= i < grabs@.len() ==> {
                &&& left_edge(grabs@) <= #[trigger] grabs@[i].x
                &&& top_edge(grabs@) <= grabs@[i].y
                &&& grabs@[i].x + grabs@[i].width <= right_edge(grabs@)
                &&& grabs@[i].y + grabs@[i].height <= bottom_edge(grabs@)
            },
        decreases grabs@.len() - j,
    {
        let g = &grabs[j];
        let ox = (g.x as i64 - min_x as i64) as usize;
        let oy = (g.y as i64 - min_y as i64) as usize;
        let sw = g.width;
        let sh = g.height;
        assert(grabs@[j as int].width * grabs@[j as int].height * 4 <= usize::MAX);
        let ghost before = buf@;
        let mut row: usize = 0;
        while row < sh
            invariant
                row <= sh,
                sw == g.width,
                sh == g.height,
                sw * sh * 4 <= usize::MAX,
                ox + sw <= total_w,
                oy + sh <= total_h,
                n == total_w * total_h * 4,
                n <= usize::MAX,
                buf@.len() == n,
                buf@ == paste_rows(before, *g, ox as int, oy as int, total_w as int, row as int),
            decreases sh - row,
        {
            assert(row * sw * 4 <= sw * sh * 4) by (nonlinear_arith)
                requires
                    row < sh,
            ;
            assert(((oy + row) * total_w + ox) * 4 + sw * 4 <= total_w * total_h * 4) by (nonlinear_arith)
                requires
                    row < sh,
                    ox + sw <= total_w,
                    oy + sh <= total_h,
            ;
            assert(row * sw * 4 + sw * 4 <= sw * sh * 4) by (nonlinear_arith)
                requires
                    row < sh,
            ;
            assert(0 <= (oy + row) * total_w) by (nonlinear_arith);
            let src_start = row * sw * 4;
            let dst_start = ((oy + row) * total_w + ox) * 4;
            let len = sw * 4;
            paste_row_exec(&mut buf, g.pixels.as_slice(), src_start, dst_start, len);
            row = row + 1;
        }
        j = j + 1;
    }
    Some(CaptureResult { pixels: buf, width: total_w, height: total_h })
}

} // verus!
