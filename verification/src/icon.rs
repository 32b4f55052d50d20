//! The 32 x 32 tray icon: a clipboard with a clip bar, three text lines and an
//! outline, drawn into an RGBA buffer.
use vstd::prelude::*;

use crate::raster::Rgba;

verus! {

/// Side of the icon in pixels.
pub const ICON_SIZE: usize = 32;

/// The cut-off corners of the clipboard body.
pub open spec fn icon_corner(x: int, y: int) -> bool {
    (x < 6 && y < 8) || (x > 25 && y < 8) || (x < 6 && y > 27) || (x > 25 && y > 27)
}

/// The clipboard body: x in 3..=28, y in 5..=30.
pub open spec fn icon_body(x: int, y: int) -> bool {
    3 <= x <= 28 && 5 <= y <= 30
}

/// The clip bar at the top, without its hole.
pub open spec fn icon_bar(x: int, y: int) -> bool {
    &&& 10 <= x <= 21 && 3 <= y <= 9
    &&& !(13 <= x <= 18 && 3 <= y <= 6)
}

/// The three text lines, two pixels high each; the last one is shorter.
pub open spec fn icon_text(x: int, y: int) -> bool {
    ||| 7 <= x <= 24 && (y == 13 || y == 14 || y == 18 || y == 19)
    ||| 7 <= x <= 18 && (y == 23 || y == 24)
}

/// The one-pixel outline of the body, without its corners.
pub open spec fn icon_border(x: int, y: int) -> bool {
    &&& icon_body(x, y)
    &&& (x == 3 || x == 28 || y == 5 || y == 30)
    &&& !icon_corner(x, y)
}

/// The colour of pixel (x, y): outline over text over clip bar over the body,
/// whose colour darkens from top to bottom; transparent elsewhere.
pub open spec fn icon_color(x: int, y: int) -> Rgba {
    if icon_border(x, y) {
        Rgba { r: 60, g: 90, b: 180, a: 255 }
    } else if icon_text(x, y) {
        Rgba { r: 255, g: 255, b: 255, a: 200 }
    } else if icon_bar(x, y) {
        Rgba { r: 90, g: 110, b: 160, a: 255 }
    } else if icon_body(x, y) && !icon_corner(x, y) {
        Rgba {
            r: ((800 - 5 * y) / 8) as u8,
            g: ((2400 - 15 * y) / 16) as u8,
            b: ((1840 - 5 * y) / 8) as u8,
            a: 255,
        }
    } else {
        Rgba { r: 0, g: 0, b: 0, a: 0 }
    }
}

/// Channel `k` (0 red, 1 green, 2 blue, 3 alpha) of `c`.
pub open spec fn channel(c: Rgba, k: int) -> u8 {
    if k == 0 { c.r } else if k == 1 { c.g } else if k == 2 { c.b } else { c.a }
}

/// Byte `i` of the icon's row-major RGBA buffer.
pub open spec fn icon_byte(i: int) -> u8 {
    let p = i / 4;
    channel(icon_color(p % 32, p / 32), i % 4)
}

fn icon_pixel(x: u32, y: u32) -> (c: Rgba)
    requires
        x < 32,
        y < 32,
    ensures
        c == icon_color(x as int, y as int),
{
    let corner = (x < 6 && y < 8) || (x > 25 && y < 8) || (x < 6 && y > 27) || (x > 25 && y > 27);
    let body = 3 <= x && x <= 28 && 5 <= y && y <= 30;
    let bar = 10 <= x && x <= 21 && 3 <= y && y <= 9 && !(13 <= x && x <= 18 && 3 <= y && y <= 6);
    let text = (7 <= x && x <= 24 && (y == 13 || y == 14 || y == 18 || y == 19))
        || (7 <= x && x <= 18 && (y == 23 || y == 24));
    let edge = x == 3 || x == 28 || y == 5 || y == 30;
    if body && edge && !corner {
        Rgba { r: 60, g: 90, b: 180, a: 255 }
    } else if text {
        Rgba { r: 255, g: 255, b: 255, a: 200 }
    } else if bar {
        Rgba { r: 90, g: 110, b: 160, a: 255 }
    } else if body && !corner {
        Rgba {
            r: ((800 - 5 * y) / 8) as u8,
            g: ((2400 - 15 * y) / 16) as u8,
            b: ((1840 - 5 * y) / 8) as u8,
            a: 255,
        }
    } else {
        Rgba { r: 0, g: 0, b: 0, a: 0 }
    }
}

/// The 32 x 32 RGBA clipboard icon, row by row.
pub fn make_icon() -> (px: Vec<u8>)
    ensures
        px@.len() == 4096,
        forall|i: int| 0 <= i < 4096 ==> #[trigger] px@[i] == icon_byte(i),
{
    let mut px: Vec<u8> = Vec::new();
    let mut p: u32 = 0;
    while p < 1024
        invariant
            p <= 1024,
            px@.len() == 4 * p,
            forall|i: int| 0 <= i < 4 * p ==> #[trigger] px@[i] == icon_byte(i),
        decreases 1024 - p,
    {
        let c = icon_pixel(p % 32, p / 32);
        px.push(c.r);
        px.push(c.g);
        px.push(c.b);
        px.push(c.a);
        proof {
            assert forall|i: int| 4 * p <= i < 4 * p + 4 implies #[trigger] px@[i] == icon_byte(i) by {
                vstd::arithmetic::div_mod::lemma_fundamental_div_mod_converse(i, 4, p as int, i - 4 * p);
            }
        }
        p = p + 1;
    }
    px
}

} // verus!
