//! Screen captures: the capture history, cropping a selection out of a full-screen
//! image, picking a pixel colour, and the status lines of the capture flow.
use vstd::prelude::*;

use crate::raster::Rgba;
use crate::text::{dec, push_dec, push_str};
use crate::tools::ShapeKind;

verus! {

/// Number of captures kept in the history.
pub const MAX_HISTORY: usize = 10;

/// A past capture: RGBA pixels and size.
pub struct HistoryEntry {
    pub pixels: Vec<u8>,
    pub w: usize,
    pub h: usize,
}

/// A full-screen grab handed over by the capturing thread.
pub struct CaptureResult {
    pub pixels: Vec<u8>,
    pub width: usize,
    pub height: usize,
}

/// Appends a capture to the history, dropping the oldest beyond ten.
pub fn push_capture(history: &mut Vec<HistoryEntry>, e: HistoryEntry)
    ensures
        final(history)@ == (if old(history)@.len() + 1 > MAX_HISTORY {
            old(history)@.push(e).subrange(1, old(history)@.len() as int + 1)
        } else {
            old(history)@.push(e)
        }),
{
    history.push(e);
    if history.len() > MAX_HISTORY {
        history.remove(0);
        proof {
            assert(final(history)@ =~= old(history)@.push(e).subrange(1, old(history)@.len() as int + 1));
        }
    }
}

/// A history that holds at most ten captures still does after a push, and the
/// newest capture is last.
pub proof fn lemma_push_capture_bounded(h: Seq<HistoryEntry>, e: HistoryEntry)
    requires
        h.len() <= MAX_HISTORY,
    ensures
        ({
            let r = if h.len() + 1 > MAX_HISTORY { h.push(e).subrange(1, h.len() as int + 1) } else { h.push(e) };
            r.len() <= MAX_HISTORY && r.last() == e
        }),
{
}

/// The history position reached by stepping `delta` back from `cur` (the newest
/// capture being position `len - 1`, and "no position" counting as `len`),
/// clamped to the history; `None` when the history is empty or the position
/// does not change.
pub open spec fn history_target_spec(len: int, cur: Option<usize>, delta: int) -> Option<usize> {
    if len == 0 {
        None
    } else {
        let c = match cur {
            Some(i) => i as int,
            None => len,
        };
        let t = c - delta;
        let n = if t < 0 { 0 } else if t > len - 1 { len - 1 } else { t };
        if n == c { None } else { Some(n as usize) }
    }
}

/// Stepping through the capture history from one of its positions (or the live
/// capture) stays inside it and always moves: a
/// target is a position of the history other than the current one. From the live
/// capture one step back reaches the newest entry; from an entry one step back
/// reaches the one before it and one step forward the one after it; stepping
/// back from the oldest entry, or forward from the newest, does nothing.
pub proof fn lemma_history_target(len: int, cur: Option<usize>, delta: int, i: usize)
    requires
        0 <= len <= usize::MAX,
        cur matches Some(j) ==> j < len,
    ensures
        history_target_spec(len, cur, delta) matches Some(n) ==> n < len && cur != Some(n),
        len > 0 ==> history_target_spec(len, None, 1) == Some((len - 1) as usize),
        0 < i < len ==> history_target_spec(len, Some(i), 1) == Some((i - 1) as usize),
        i + 1 < len ==> history_target_spec(len, Some(i), -1) == Some((i + 1) as usize),
        len > 0 ==> history_target_spec(len, Some(0usize), 1) is None,
        i + 1 == len ==> history_target_spec(len, Some(i), -1) is None,
        cur is Some ==> history_target_spec(len, cur, 0) is None,
        len == 0 ==> history_target_spec(len, cur, delta) is None,
{
}

pub fn history_target(len: usize, cur: Option<usize>, delta: i32) -> (r: Option<usize>)
    requires
        len <= i32::MAX,
        match cur {
            Some(i) => i <= i32::MAX,
            None => true,
        },
    ensures
        r == history_target_spec(len as int, cur, delta as int),
{
    if len == 0 {
        return None;
    }
    let n = len as i64;
    let c: i64 = match cur {
        Some(i) => i as i64,
        None => n,
    };
    let t = c - delta as i64;
    let k = if t < 0 { 0 } else if t > n - 1 { n - 1 } else { t };
    if k == c {
        None
    } else {
        Some(k as usize)
    }
}

/// "历史记录 i/n" with the 1-based position.
pub fn history_status(idx: usize, len: usize) -> (r: String)
    requires
        idx < usize::MAX,
    ensures
        r@ == "历史记录 "@ + dec((idx + 1) as nat) + "/"@ + dec(len as nat),
{
    let mut s = String::new();
    push_str(&mut s, "历史记录 ");
    push_dec(&mut s, (idx + 1) as u64);
    push_str(&mut s, "/");
    push_dec(&mut s, len as u64);
    proof {
        assert(s@ =~= "历史记录 "@ + dec((idx + 1) as nat) + "/"@ + dec(len as nat));
    }
    s
}

/// "W×H  Enter复制  Ctrl+S保存  Esc关闭", shown once a selection is cropped.
pub fn selection_status(w: usize, h: usize) -> (r: String)
    ensures
        r@ == dec(w as nat) + "×"@ + dec(h as nat) + "  Enter复制  Ctrl+S保存  Esc关闭"@,
{
    let mut s = String::new();
    push_dec(&mut s, w as u64);
    push_str(&mut s, "×");
    push_dec(&mut s, h as u64);
    push_str(&mut s, "  Enter复制  Ctrl+S保存  Esc关闭");
    proof {
        assert(s@ =~= dec(w as nat) + "×"@ + dec(h as nat) + "  Enter复制  Ctrl+S保存  Esc关闭"@);
    }
    s
}

/// "W×H — Win+拖拽截图完成", shown once a Win+drag capture completes.
pub fn drag_capture_status(w: usize, h: usize) -> (r: String)
    ensures
        r@ == dec(w as nat) + "×"@ + dec(h as nat) + " — Win+拖拽截图完成"@,
{
    let mut s = String::new();
    push_dec(&mut s, w as u64);
    push_str(&mut s, "×");
    push_dec(&mut s, h as u64);
    push_str(&mut s, " — Win+拖拽截图完成");
    proof {
        assert(s@ =~= dec(w as nat) + "×"@ + dec(h as nat) + " — Win+拖拽截图完成"@);
    }
    s
}

/// The rectangle spanned by a drag from (sx, sy) to (ex, ey): its top-left corner
/// and its (non-negative) width and height.
pub fn drag_rect(sx: i32, sy: i32, ex: i32, ey: i32) -> (r: (i32, i32, usize, usize))
    ensures
        r.0 == (if sx <= ex { sx } else { ex }),
        r.1 == (if sy <= ey { sy } else { ey }),
        r.2 == (if sx <= ex { ex - sx } else { sx - ex }),
        r.3 == (if sy <= ey { ey - sy } else { sy - ey }),
{
    let x0 = if sx <= ex { sx } else { ex };
    let y0 = if sy <= ey { sy } else { ey };
    let x1 = if sx <= ex { ex } else { sx };
    let y1 = if sy <= ey { ey } else { sy };
    let cw = (x1 as i64 - x0 as i64) as usize;
    let ch = (y1 as i64 - y0 as i64) as usize;
    (x0, y0, cw, ch)
}

/// Whether a selection of this size is kept (both sides at least 4 pixels).
pub fn selection_big_enough(cw: usize, ch: usize) -> (r: bool)
    ensures
        r == (cw >= 4 && ch >= 4),
{
    !(cw < 4 || ch < 4)
}

/// What one frame of the Win+drag capture does.
#[derive(Clone, Copy, PartialEq, Eq, Structural, Debug)]
pub enum SuperAction {
    /// Nothing changes.
    Nothing,
    /// Grab the screen and start a drag at the cursor.
    Begin,
    /// Move the drag's end to the cursor.
    Track,
    /// Move the drag's end to the cursor and capture the dragged rectangle.
    Finish,
    /// Drop the drag.
    Cancel,
}

/// The Win+drag capture's decision for one frame. Nothing happens while another
/// capture is under way (`idle` false). With a Windows key held, a click starts a
/// drag unless one was started; an active drag follows the cursor and ends on a
/// release. Letting go of the Windows key during a drag cancels it.
pub open spec fn super_step_spec(idle: bool, win_held: bool, clicked: bool, released: bool, started: bool, active: bool) -> SuperAction {
    if !idle {
        SuperAction::Nothing
    } else if win_held {
        if clicked && !started {
            SuperAction::Begin
        } else if active {
            if released { SuperAction::Finish } else { SuperAction::Track }
        } else {
            SuperAction::Nothing
        }
    } else if active {
        SuperAction::Cancel
    } else {
        SuperAction::Nothing
    }
}

/// The Win+drag capture acts only when no other capture runs: it begins only on a
/// click with a Windows key held and no drag started, tracks and finishes only an
/// active drag with the key held (finishing exactly on a release), and cancels
/// only an active drag whose key was let go.
pub proof fn lemma_super_step(idle: bool, win_held: bool, clicked: bool, released: bool, started: bool, active: bool)
    ensures
        !idle ==> super_step_spec(idle, win_held, clicked, released, started, active) == SuperAction::Nothing,
        super_step_spec(idle, win_held, clicked, released, started, active) == SuperAction::Begin <==> (idle && win_held
            && clicked && !started),
        super_step_spec(idle, win_held, clicked, released, started, active) == SuperAction::Finish ==> idle && win_held
            && active && released,
        super_step_spec(idle, win_held, clicked, released, started, active) == SuperAction::Track ==> idle && win_held
            && active && !released,
        super_step_spec(idle, win_held, clicked, released, started, active) == SuperAction::Cancel <==> (idle && !win_held
            && active),
        idle && win_held && active && !(clicked && !started) ==> super_step_spec(
            idle,
            win_held,
            clicked,
            released,
            started,
            active,
        ) == if released { SuperAction::Finish } else { SuperAction::Track },
{
}

/// Decides what the Win+drag capture does this frame, from the hooks' state.
pub fn super_capture_step(idle: bool, win_held: bool, clicked: bool, released: bool, started: bool, active: bool) -> (r: SuperAction)
    ensures
        r == super_step_spec(idle, win_held, clicked, released, started, active),
{
    if !idle {
        return SuperAction::Nothing;
    }
    if win_held {
        if clicked && !started {
            SuperAction::Begin
        } else if active {
            if released { SuperAction::Finish } else { SuperAction::Track }
        } else {
            SuperAction::Nothing
        }
    } else if active {
        SuperAction::Cancel
    } else {
        SuperAction::Nothing
    }
}

/// The number the next numbered marker gets after undo: one more than the
/// markers left.
pub open spec fn count_numbers(kinds: Seq<ShapeKind>) -> int
    decreases kinds.len(),
{
    if kinds.len() == 0 {
        0
    } else {
        count_numbers(kinds.drop_last()) + if kinds.last() == ShapeKind::Number { 1int } else { 0int }
    }
}

/// Counting the markers left: an empty list has none, adding a numbered marker
/// adds one, adding any other shape adds none; so the count is the number of
/// numbered markers in the list, and never more than its length.
pub proof fn lemma_count_numbers(kinds: Seq<ShapeKind>, k: ShapeKind)
    ensures
        count_numbers(Seq::<ShapeKind>::empty()) == 0,
        count_numbers(kinds.push(ShapeKind::Number)) == count_numbers(kinds) + 1,
        k != ShapeKind::Number ==> count_numbers(kinds.push(k)) == count_numbers(kinds),
        count_numbers(kinds) == kinds.filter(|x: ShapeKind| x == ShapeKind::Number).len(),
        0 <= count_numbers(kinds) <= kinds.len(),
    decreases kinds.len(),
{
    assert(kinds.push(ShapeKind::Number).drop_last() =~= kinds);
    assert(kinds.push(k).drop_last() =~= kinds);
    reveal(Seq::filter);
    if kinds.len() > 0 {
        lemma_count_numbers(kinds.drop_last(), k);
    }
}

pub fn next_number_after(kinds: &Vec<ShapeKind>) -> (r: u32)
    requires
        kinds@.len() < u32::MAX,
    ensures
        r == count_numbers(kinds@) + 1,
{
    let mut n: u32 = 0;
    let mut i: usize = 0;
    while i < kinds.len()
        invariant
            i <= kinds@.len(),
            kinds@.len() < u32::MAX,
            n == count_numbers(kinds@.take(i as int)),
            n <= i,
        decreases kinds@.len() - i,
    {
        proof {
            assert(kinds@.take(i + 1).drop_last() =~= kinds@.take(i as int));
        }
        if kinds[i] == ShapeKind::Number {
            n = n + 1;
        }
        i = i + 1;
    }
    proof {
        assert(kinds@.take(kinds@.len() as int) =~= kinds@);
    }
    n + 1
}

// ── picking a colour ────────────────────────────────────────────────────────

pub open spec fn clamp(v: int, lo: int, hi: int) -> int {
    if v < lo { lo } else if v > hi { hi } else { v }
}

/// The opaque colour of the pixel nearest to (px, py) inside the image, or `None`
/// when the buffer does not hold that pixel.
pub open spec fn sampled(buf: Seq<u8>, w: int, h: int, px: int, py: int) -> Option<Rgba> {
    let x = clamp(px, 0, w - 1);
    let y = clamp(py, 0, h - 1);
    let i = (y * w + x) * 4;
    if i + 3 >= buf.len() {
        None
    } else {
        Some(Rgba { r: buf[i], g: buf[i + 1], b: buf[i + 2], a: 255 })
    }
}

pub fn sample_color(buf: &[u8], full_w: usize, full_h: usize, px: i32, py: i32) -> (r: Option<Rgba>)
    requires
        1 <= full_w <= i32::MAX,
        1 <= full_h <= i32::MAX,
        full_w * full_h * 4 <= usize::MAX,
    ensures
        r == sampled(buf@, full_w as int, full_h as int, px as int, py as int),
{
    let wmax = full_w as i32 - 1;
    let hmax = full_h as i32 - 1;
    let x = if px < 0 { 0 } else if px > wmax { wmax } else { px } as usize;
    let y = if py < 0 { 0 } else if py > hmax { hmax } else { py } as usize;
    assert(y * full_w + x < full_w * full_h) by (nonlinear_arith)
        requires
            x < full_w,
            y < full_h,
    ;
    assert(0 <= y * full_w) by (nonlinear_arith);
    let i = (y * full_w + x) * 4;
    if i + 3 >= buf.len() {
        return None;
    }
    Some(Rgba { r: buf[i], g: buf[i + 1], b: buf[i + 2], a: 255 })
}

// ── cropping ────────────────────────────────────────────────────────────────

/// First byte of the source row copied into row `row` of the crop: rows past the
/// bottom of the image repeat its last row.
pub open spec fn crop_src(full_w: int, full_h: int, x0: int, y0: int, row: int) -> int {
    let last = if full_h > 0 { full_h - 1 } else { 0 };
    let sy = if y0 + row < last { y0 + row } else { last };
    (sy * full_w + x0) * 4
}

/// Bytes copied for a row starting at `src`: a full row, or what the base holds.
pub open spec fn crop_len(base_len: int, cw: int, src: int) -> int {
    let avail = if base_len > src { base_len - src } else { 0 };
    if cw * 4 < avail { cw * 4 } else { avail }
}

/// The `cw` x `ch` RGBA crop at (x0, y0); bytes the base does not hold are zero.
pub open spec fn cropped(base: Seq<u8>, full_w: int, full_h: int, x0: int, y0: int, cw: int, ch: int) -> Seq<u8> {
    Seq::new(
        (cw * ch * 4) as nat,
        |i: int|
            {
                let row = i / (cw * 4);
                let k = i % (cw * 4);
                let src = crop_src(full_w, full_h, x0, y0, row);
                if k < crop_len(base.len() as int, cw, src) {
                    base[src + k]
                } else {
                    0u8
                }
            },
    )
}

/// Arguments for which every offset the crop computes fits in `usize` and every
/// source row starts inside the base.
pub open spec fn crop_ok(base_len: int, full_w: int, full_h: int, x0: int, y0: int, cw: int, ch: int) -> bool {
    &&& x0 >= 0
    &&& y0 >= 0
    &&& cw * ch * 4 <= usize::MAX
    &&& y0 + ch <= usize::MAX
    &&& (full_h * full_w + x0) * 4 <= usize::MAX
    &&& forall|row: int| 0 <= row < ch ==> #[trigger] crop_src(full_w, full_h, x0, y0, row) <= base_len
}

/// Whether `crop_rgba` accepts these arguments.
pub fn crop_fits(base_len: usize, full_w: usize, full_h: usize, x0: i32, y0: i32, cw: usize, ch: usize) -> (r: bool)
    ensures
        r == crop_ok(base_len as int, full_w as int, full_h as int, x0 as int, y0 as int, cw as int, ch as int),
{
    if x0 < 0 || y0 < 0 {
        return false;
    }
    let area = match cw.checked_mul(ch) {
        Some(a) => a.checked_mul(4),
        None => None,
    };
    if area.is_none() {
        proof {
            if cw * ch <= usize::MAX {
                assert(cw * ch * 4 > usize::MAX);
            } else {
                assert(cw * ch * 4 >= cw * ch) by (nonlinear_arith)
                    requires
                        cw * ch >= 0,
                ;
            }
        }
        return false;
    }
    if (y0 as usize).checked_add(ch).is_none() {
        return false;
    }
    let full = match full_h.checked_mul(full_w) {
        Some(a) => match a.checked_add(x0 as usize) {
            Some(b) => b.checked_mul(4),
            None => None,
        },
        None => None,
    };
    if full.is_none() {
        proof {
            assert(0 <= full_h * full_w) by (nonlinear_arith);
            if full_h * full_w <= usize::MAX && full_h * full_w + x0 <= usize::MAX {
                assert((full_h * full_w + x0) * 4 > usize::MAX);
            } else {
                assert((full_h * full_w + x0) * 4 >= full_h * full_w + x0) by (nonlinear_arith)
                    requires
                        full_h * full_w + x0 >= 0,
                ;
            }
        }
        return false;
    }
    let last = if full_h > 0 { full_h - 1 } else { 0 };
    let mut row: usize = 0;
    while row < ch
        invariant
            x0 >= 0,
            y0 >= 0,
            y0 + ch <= usize::MAX,
            (full_h * full_w + x0) * 4 <= usize::MAX,
            last == (if full_h > 0 { full_h - 1 } else { 0 }),
            row <= ch,
            forall|k: int| 0 <= k < row ==> #[trigger] crop_src(full_w as int, full_h as int, x0 as int, y0 as int, k) <= base_len,
        decreases ch - row,
    {
        let sy0 = y0 as usize + row;
        let sy = if sy0 < last { sy0 } else { last };
        assert(sy * full_w <= full_h * full_w) by (nonlinear_arith)
            requires
                sy <= full_h,
        ;
        assert(0 <= sy * full_w) by (nonlinear_arith);
        let src = (sy * full_w + x0 as usize) * 4;
        assert(src == crop_src(full_w as int, full_h as int, x0 as int, y0 as int, row as int));
        if src > base_len {
            return false;
        }
        row = row + 1;
    }
    true
}

/// Copies the `cw` x `ch` selection at (x0, y0) out of a full-screen RGBA image.
pub fn crop_rgba(base: &[u8], full_w: usize, full_h: usize, x0: i32, y0: i32, cw: usize, ch: usize) -> (out: Vec<u8>)
    requires
        crop_ok(base@.len() as int, full_w as int, full_h as int, x0 as int, y0 as int, cw as int, ch as int),
    ensures
        out@ == cropped(base@, full_w as int, full_h as int, x0 as int, y0 as int, cw as int, ch as int),
{
    let ghost spec_out = cropped(base@, full_w as int, full_h as int, x0 as int, y0 as int, cw as int, ch as int);
    let n = cw * ch * 4;
    let mut out: Vec<u8> = vec![0u8; n];
    let ghost rowlen = cw * 4;
    let mut row: usize = 0;
    assert(0 <= cw * ch) by (nonlinear_arith);
    while row < ch
        invariant
            crop_ok(base@.len() as int, full_w as int, full_h as int, x0 as int, y0 as int, cw as int, ch as int),
            spec_out == cropped(base@, full_w as int, full_h as int, x0 as int, y0 as int, cw as int, ch as int),
            n == cw * ch * 4,
            rowlen == cw * 4,
            row <= ch,
            spec_out.len() == n,
            out@.len() == n,
            forall|i: int| 0 <= i < row * rowlen ==> #[trigger] out@[i] == spec_out[i],
            forall|i: int| row * rowlen <= i < n ==> #[trigger] out@[i] == 0u8,
        decreases ch - row,
    {
        assert((row + 1) * rowlen <= n) by (nonlinear_arith)
            requires
                row < ch,
                rowlen == cw * 4,
                n == cw * ch * 4,
        ;
        assert((row + 1) * rowlen == row * rowlen + rowlen) by (nonlinear_arith);
        assert(0 <= row * rowlen) by (nonlinear_arith)
            requires
                rowlen >= 0,
        ;
        let last = if full_h > 0 { full_h - 1 } else { 0 };
        let sy0 = y0 as usize + row;
        let sy = if sy0 < last { sy0 } else { last };
        assert(sy * full_w <= full_h * full_w) by (nonlinear_arith)
            requires
                sy <= full_h,
                full_w >= 0,
        ;
        assert(0 <= sy * full_w) by (nonlinear_arith);
        let src = (sy * full_w + x0 as usize) * 4;
        assert(src == crop_src(full_w as int, full_h as int, x0 as int, y0 as int, row as int));
        assert(row * cw * 4 <= cw * ch * 4) by (nonlinear_arith)
            requires
                row < ch,
                cw >= 0,
        ;
        let dst = row * cw * 4;
        assert(dst == row * rowlen) by (nonlinear_arith)
            requires
                rowlen == cw * 4,
                dst == row * cw * 4,
        ;
        let avail = if base.len() > src { base.len() - src } else { 0 };
        let len = if cw * 4 < avail { cw * 4 } else { avail };
        let mut k: usize = 0;
        while k < len
            invariant
                spec_out == cropped(base@, full_w as int, full_h as int, x0 as int, y0 as int, cw as int, ch as int),
                n == cw * ch * 4,
                rowlen == cw * 4,
                row < ch,
                dst == row * rowlen,
                dst + rowlen <= n,
                src == crop_src(full_w as int, full_h as int, x0 as int, y0 as int, row as int),
                len == crop_len(base@.len() as int, cw as int, src as int),
                len <= rowlen,
                src + len <= base.len(),
                spec_out.len() == n,
                k <= len,
                out@.len() == n,
                forall|i: int| 0 <= i < dst + k ==> #[trigger] out@[i] == spec_out[i],
                forall|i: int| dst + k <= i < n ==> #[trigger] out@[i] == 0u8,
            decreases len - k,
        {
            proof {
                lemma_crop_index(row as int, k as int, rowlen);
                assert(dst + k < n);
                assert(spec_out[dst + k] == base@[src + k]);
            }
            out.set(dst + k, base[src + k]);
            k = k + 1;
        }
        proof {
            assert forall|i: int| dst + len <= i < dst + rowlen implies #[trigger] out@[i] == spec_out[i] by {
                lemma_crop_index(row as int, i - dst, rowlen);
            }
        }
        row = row + 1;
    }
    proof {
        assert(row * rowlen == n) by (nonlinear_arith)
            requires
                row == ch,
                rowlen == cw * 4,
                n == cw * ch * 4,
        ;
        assert(out@ =~= spec_out);
    }
    out
}

proof fn lemma_crop_index(row: int, k: int, rowlen: int)
    requires
        rowlen > 0,
        0 <= k < rowlen,
        row >= 0,
    ensures
        (row * rowlen + k) / rowlen == row,
        (row * rowlen + k) % rowlen == k,
{
    vstd::arithmetic::div_mod::lemma_fundamental_div_mod_converse(row * rowlen + k, rowlen, row, k);
}

} // verus!
