//! What the low-level input hooks record, and the choice of the window to
//! highlight under the cursor.
use vstd::prelude::*;

verus! {

/// Message of a left-button press.
pub const WM_LBUTTONDOWN: u32 = 0x0201;
/// Message of a left-button release.
pub const WM_LBUTTONUP: u32 = 0x0202;
/// Message of a key press.
pub const WM_KEYDOWN: u32 = 0x0100;
/// Message of a key press while Alt is held.
pub const WM_SYSKEYDOWN: u32 = 0x0104;
/// Virtual key of the left Windows key.
pub const VK_LWIN: u32 = 0x5B;
/// Virtual key of the right Windows key.
pub const VK_RWIN: u32 = 0x5C;
/// Extended style of a tool window.
pub const WS_EX_TOOLWINDOW: u32 = 0x0000_0080;
/// Extended style of a click-through window.
pub const WS_EX_TRANSPARENT: u32 = 0x0000_0020;
/// Cursor travel, in physical pixels, below which the hovered window is not
/// looked up again.
pub const HOVER_THRESHOLD: i32 = 2;

/// Whether a Windows key is held.
#[derive(Clone, Copy, PartialEq, Eq, Structural, Debug)]
pub struct KeyboardState {
    pub win_held: bool,
}

impl Default for KeyboardState {
    fn default() -> (s: Self)
        ensures
            !s.win_held,
    {
        KeyboardState { win_held: false }
    }
}

impl KeyboardState {
    /// A key event: for either Windows key, it is held after a press (plain or with
    /// Alt) and released after anything else; other keys change nothing.
    pub fn on_key(&mut self, vk: u32, msg: u32)
        ensures
            (vk == VK_LWIN || vk == VK_RWIN) ==> final(self).win_held == (msg == WM_KEYDOWN || msg == WM_SYSKEYDOWN),
            !(vk == VK_LWIN || vk == VK_RWIN) ==> *final(self) == *old(self),
    {
        if vk == VK_LWIN || vk == VK_RWIN {
            self.win_held = msg == WM_KEYDOWN || msg == WM_SYSKEYDOWN;
        }
    }
}

/// The cursor position and the left button, as the mouse hook sees them.
#[derive(Clone, Copy, Debug)]
pub struct MouseState {
    pub pos: (i32, i32),
    /// A press happened and was not consumed yet.
    pub clicked: bool,
    /// A release happened and was not consumed yet.
    pub released: bool,
    pub btn_down: bool,
}

impl Default for MouseState {
    fn default() -> (s: Self)
        ensures
            s.pos == (0i32, 0i32),
            !s.clicked,
            !s.released,
            !s.btn_down,
    {
        MouseState { pos: (0, 0), clicked: false, released: false, btn_down: false }
    }
}

impl MouseState {
    /// A mouse event at (x, y): the position follows it; a press sets `clicked`
    /// and `btn_down`, a release sets `released` and clears `btn_down`.
    pub fn on_event(&mut self, x: i32, y: i32, msg: u32)
        ensures
            final(self).pos == (x, y),
            final(self).clicked == (old(self).clicked || msg == WM_LBUTTONDOWN),
            final(self).released == (old(self).released || msg == WM_LBUTTONUP),
            final(self).btn_down == (if msg == WM_LBUTTONDOWN {
                true
            } else if msg == WM_LBUTTONUP {
                false
            } else {
                old(self).btn_down
            }),
    {
        self.pos = (x, y);
        if msg == WM_LBUTTONDOWN {
            self.clicked = true;
            self.btn_down = true;
        }
        if msg == WM_LBUTTONUP {
            self.released = true;
            self.btn_down = false;
        }
    }

    /// Marks the pending press as handled.
    pub fn consume_click(&mut self)
        ensures
            *final(self) == (MouseState { clicked: false, ..*old(self) }),
    {
        self.clicked = false;
    }

    /// Marks the pending release as handled.
    pub fn consume_release(&mut self)
        ensures
            *final(self) == (MouseState { released: false, ..*old(self) }),
    {
        self.released = false;
    }
}

/// |a - b| as an integer.
pub open spec fn dist(a: i32, b: i32) -> int {
    if a >= b { a - b } else { b - a }
}

/// The cursor at (x, y) is within the threshold of `last` on both axes.
pub open spec fn near(x: i32, y: i32, last: (i32, i32)) -> bool {
    dist(x, last.0) <= HOVER_THRESHOLD && dist(y, last.1) <= HOVER_THRESHOLD
}

/// The rectangle of the window to highlight under (x, y). While the cursor stays
/// within two pixels of where the last lookup was made, that lookup's answer is
/// returned; otherwise `query` looks the window up again and both the position
/// and the answer are remembered.
pub fn hovered_window_rect<F: Fn(i32, i32) -> Option<[i32; 4]>>(
    screen_x: i32,
    screen_y: i32,
    query: F,
    last_pos: &mut (i32, i32),
    last_rect: &mut Option<[i32; 4]>,
) -> (r: Option<[i32; 4]>)
    requires
        call_requires(query, (screen_x, screen_y)),
    ensures
        near(screen_x, screen_y, *old(last_pos)) ==> {
            &&& r == *old(last_rect)
            &&& *final(last_pos) == *old(last_pos)
            &&& *final(last_rect) == *old(last_rect)
        },
        !near(screen_x, screen_y, *old(last_pos)) ==> {
            &&& call_ensures(query, (screen_x, screen_y), r)
            &&& *final(last_pos) == (screen_x, screen_y)
            &&& *final(last_rect) == r
        },
{
    let dx: i64 = screen_x as i64 - last_pos.0 as i64;
    let dy: i64 = screen_y as i64 - last_pos.1 as i64;
    let adx: i64 = if dx < 0 { -dx } else { dx };
    let ady: i64 = if dy < 0 { -dy } else { dy };
    if adx <= HOVER_THRESHOLD as i64 && ady <= HOVER_THRESHOLD as i64 {
        return *last_rect;
    }
    *last_pos = (screen_x, screen_y);
    let result = query(screen_x, screen_y);
    *last_rect = result;
    result
}

/// The top-level window of `hwnd`: its root ancestor, or `hwnd` itself when it
/// has none.
pub fn root_window(hwnd: isize, ancestor: isize) -> (r: isize)
    ensures
        r == (if ancestor == 0 { hwnd } else { ancestor }),
{
    if ancestor == 0 { hwnd } else { ancestor }
}

/// `own` holds `h`.
pub fn holds(own: &[isize], h: isize) -> (r: bool)
    ensures
        r == own@.contains(h),
{
    let mut i: usize = 0;
    while i < own.len()
        invariant
            i <= own@.len(),
            forall|k: int| 0 <= k < i ==> own@[k] != h,
        decreases own@.len() - i,
    {
        if own[i] == h {
            proof {
                assert(own@[i as int] == h);
            }
            return true;
        }
        i = i + 1;
    }
    false
}

/// The window under the cursor is highlighted when there is one, neither it nor
/// its root is one of ours, the root is visible, not minimised, neither a tool
/// window nor click-through, its rectangle could be read, and it is more than
/// four pixels wide and high.
pub open spec fn eligible_rect(
    hwnd: isize,
    root: isize,
    own: Seq<isize>,
    visible: bool,
    iconic: bool,
    ex_style: u32,
    rect: Option<[i32; 4]>,
) -> Option<[i32; 4]> {
    if hwnd == 0 || own.contains(root) || own.contains(hwnd) || !visible || iconic
        || ex_style & WS_EX_TOOLWINDOW != 0 || ex_style & WS_EX_TRANSPARENT != 0 {
        None
    } else {
        match rect {
            None => None,
            Some(rc) => if rc[2] - rc[0] <= 4 || rc[3] - rc[1] <= 4 {
                None
            } else {
                Some(rc)
            },
        }
    }
}

/// A highlighted rectangle is the one read for the window, more than four pixels
/// wide and high, of a visible, not minimised window that is not ours (nor is its
/// root) and that is neither a tool window nor click-through; any such window is
/// highlighted.
pub proof fn lemma_eligible_rect(
    hwnd: isize,
    root: isize,
    own: Seq<isize>,
    visible: bool,
    iconic: bool,
    ex_style: u32,
    rect: Option<[i32; 4]>,
)
    ensures
        eligible_rect(hwnd, root, own, visible, iconic, ex_style, rect) matches Some(rc) ==> {
            &&& rect == Some(rc)
            &&& rc[2] - rc[0] > 4 && rc[3] - rc[1] > 4
            &&& hwnd != 0 && visible && !iconic
            &&& !own.contains(root) && !own.contains(hwnd)
            &&& ex_style & WS_EX_TOOLWINDOW == 0 && ex_style & WS_EX_TRANSPARENT == 0
        },
        ({
            &&& rect matches Some(rc) && rc[2] - rc[0] > 4 && rc[3] - rc[1] > 4
            &&& hwnd != 0 && visible && !iconic
            &&& !own.contains(root) && !own.contains(hwnd)
            &&& ex_style & WS_EX_TOOLWINDOW == 0 && ex_style & WS_EX_TRANSPARENT == 0
        }) ==> eligible_rect(hwnd, root, own, visible, iconic, ex_style, rect) == rect,
{
}

/// Decides, from what the system reported about the window under the cursor and
/// its root, which rectangle to highlight.
pub fn select_window_rect(
    hwnd: isize,
    root: isize,
    own: &[isize],
    visible: bool,
    iconic: bool,
    ex_style: u32,
    rect: Option<[i32; 4]>,
) -> (r: Option<[i32; 4]>)
    ensures
        r == eligible_rect(hwnd, root, own@, visible, iconic, ex_style, rect),
{
    if hwnd == 0 {
        return None;
    }
    if holds(own, root) || holds(own, hwnd) {
        return None;
    }
    if !visible || iconic {
        return None;
    }
    if ex_style & WS_EX_TOOLWINDOW != 0 || ex_style & WS_EX_TRANSPARENT != 0 {
        return None;
    }
    match rect {
        None => None,
        Some(rc) => {
            let w: i64 = rc[2] as i64 - rc[0] as i64;
            let h: i64 = rc[3] as i64 - rc[1] as i64;
            if w <= 4 || h <= 4 {
                None
            } else {
                Some(rc)
            }
        },
    }
}

} // verus!
