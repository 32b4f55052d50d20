//! Annotation tools: shape kinds, line styles and their labels.
use vstd::prelude::*;

use crate::raster::Rgba;
use crate::text::{dec, push_char, push_dec, push_str};

verus! {

/// The drawing tools offered by the annotation editor.
#[derive(Clone, Copy, PartialEq, Eq, Structural, Debug)]
pub enum ShapeKind {
    Rect,
    RoundRect,
    Ellipse,
    Arrow,
    ArrowDouble,
    Line,
    Pen,
    Marker,
    Mosaic,
    Eraser,
    Text,
    Number,
}

/// The toolbar glyph of each tool.
pub open spec fn shape_label(k: ShapeKind) -> Seq<char> {
    match k {
        ShapeKind::Rect => "▭"@,
        ShapeKind::RoundRect => "▢"@,
        ShapeKind::Ellipse => "◯"@,
        ShapeKind::Arrow => "→"@,
        ShapeKind::ArrowDouble => "↔"@,
        ShapeKind::Line => "╱"@,
        ShapeKind::Pen => "✏"@,
        ShapeKind::Marker => "🖊"@,
        ShapeKind::Mosaic => "⊞"@,
        ShapeKind::Eraser => "⬜"@,
        ShapeKind::Text => "T"@,
        ShapeKind::Number => "①"@,
    }
}

/// The tooltip of each tool.
pub open spec fn shape_tip(k: ShapeKind) -> Seq<char> {
    match k {
        ShapeKind::Rect => "矩形 (R)"@,
        ShapeKind::RoundRect => "圆角矩形"@,
        ShapeKind::Ellipse => "椭圆 (E)"@,
        ShapeKind::Arrow => "箭头 (A)"@,
        ShapeKind::ArrowDouble => "双向箭头"@,
        ShapeKind::Line => "直线"@,
        ShapeKind::Pen => "画笔 (P)"@,
        ShapeKind::Marker => "记号笔"@,
        ShapeKind::Mosaic => "马赛克"@,
        ShapeKind::Eraser => "橡皮擦"@,
        ShapeKind::Text => "文字 (T)"@,
        ShapeKind::Number => "序号"@,
    }
}

impl ShapeKind {
    /// Tooltip of the tool.
    pub fn tip(self) -> (r: &'static str)
        ensures
            r@ == shape_tip(self),
    {
        match self {
            ShapeKind::Rect => "矩形 (R)",
            ShapeKind::RoundRect => "圆角矩形",
            ShapeKind::Ellipse => "椭圆 (E)",
            ShapeKind::Arrow => "箭头 (A)",
            ShapeKind::ArrowDouble => "双向箭头",
            ShapeKind::Line => "直线",
            ShapeKind::Pen => "画笔 (P)",
            ShapeKind::Marker => "记号笔",
            ShapeKind::Mosaic => "马赛克",
            ShapeKind::Eraser => "橡皮擦",
            ShapeKind::Text => "文字 (T)",
            ShapeKind::Number => "序号",
        }
    }

    /// Toolbar glyph of the tool.
    pub fn label(self) -> (r: &'static str)
        ensures
            r@ == shape_label(self),
    {
        match self {
            ShapeKind::Rect => "▭",
            ShapeKind::RoundRect => "▢",
            ShapeKind::Ellipse => "◯",
            ShapeKind::Arrow => "→",
            ShapeKind::ArrowDouble => "↔",
            ShapeKind::Line => "╱",
            ShapeKind::Pen => "✏",
            ShapeKind::Marker => "🖊",
            ShapeKind::Mosaic => "⊞",
            ShapeKind::Eraser => "⬜",
            ShapeKind::Text => "T",
            ShapeKind::Number => "①",
        }
    }
}


// ── colours ─────────────────────────────────────────────────────────────────

/// The channels egui's `Color32::from_rgba_unmultiplied(r, g, b, a)` stores: the
/// colour premultiplied by its alpha through egui's gamma tables.
pub uninterp spec fn unmultiplied_color(r: u8, g: u8, b: u8, a: u8) -> (u8, u8, u8, u8);

/// `egui::Color32::from_rgba_unmultiplied`, read back as its four stored channels.
/// Its source keeps the alpha, maps alpha 255 to the colour itself and alpha 0 to
/// transparent black; the premultiplied channels for other alphas come from its
/// gamma lookup table and are only named here.
#[verifier::external_body]
pub fn color_from_unmultiplied(r: u8, g: u8, b: u8, a: u8) -> (c: Rgba)
    ensures
        (c.r, c.g, c.b, c.a) == unmultiplied_color(r, g, b, a),
        c.a == a,
        a == 255 ==> c == (Rgba { r, g, b, a: 255 }),
        a == 0 ==> c == (Rgba { r: 0, g: 0, b: 0, a: 0 }),
{
    let c = egui::Color32::from_rgba_unmultiplied(r, g, b, a);
    Rgba { r: c.r(), g: c.g(), b: c.b(), a: c.a() }
}

/// The colour remembered for each tool, as its four stored channels.
#[derive(Clone, Copy, Debug)]
pub struct ToolColors {
    pub rect: [u8; 4],
    pub round_rect: [u8; 4],
    pub ellipse: [u8; 4],
    pub arrow: [u8; 4],
    pub arrow_double: [u8; 4],
    pub line: [u8; 4],
    pub pen: [u8; 4],
    pub marker: [u8; 4],
    pub mosaic: [u8; 4],
    pub eraser: [u8; 4],
    pub text: [u8; 4],
    pub number: [u8; 4],
}

/// The channels of a colour, in the order stored.
pub open spec fn channels(c: Rgba) -> Seq<u8> {
    seq![c.r, c.g, c.b, c.a]
}

/// The slot that holds the colour of tool `k`.
pub open spec fn tool_slot(t: ToolColors, k: ShapeKind) -> [u8; 4] {
    match k {
        ShapeKind::Rect => t.rect,
        ShapeKind::RoundRect => t.round_rect,
        ShapeKind::Ellipse => t.ellipse,
        ShapeKind::Arrow => t.arrow,
        ShapeKind::ArrowDouble => t.arrow_double,
        ShapeKind::Line => t.line,
        ShapeKind::Pen => t.pen,
        ShapeKind::Marker => t.marker,
        ShapeKind::Mosaic => t.mosaic,
        ShapeKind::Eraser => t.eraser,
        ShapeKind::Text => t.text,
        ShapeKind::Number => t.number,
    }
}

fn c2a(c: Rgba) -> (a: [u8; 4])
    ensures
        a@ == channels(c),
{
    let a = [c.r, c.g, c.b, c.a];
    assert(a@ =~= channels(c));
    a
}

impl Default for ToolColors {
    /// Red for shapes, arrows, the pen and text; blue for lines and numbers; a
    /// translucent orange marker; grey mosaic; white eraser.
    fn default() -> (r: Self)
        ensures
            r.rect@ == seq![239u8, 68, 68, 255],
            r.round_rect@ == seq![239u8, 68, 68, 255],
            r.ellipse@ == seq![239u8, 68, 68, 255],
            r.arrow@ == seq![239u8, 68, 68, 255],
            r.arrow_double@ == seq![239u8, 68, 68, 255],
            r.line@ == seq![59u8, 130, 246, 255],
            r.pen@ == seq![239u8, 68, 68, 255],
            r.marker@ == channels(
                Rgba {
                    r: unmultiplied_color(249, 115, 22, 160).0,
                    g: unmultiplied_color(249, 115, 22, 160).1,
                    b: unmultiplied_color(249, 115, 22, 160).2,
                    a: unmultiplied_color(249, 115, 22, 160).3,
                },
            ),
            r.mosaic@ == seq![160u8, 160, 160, 255],
            r.eraser@ == seq![255u8, 255, 255, 255],
            r.text@ == seq![239u8, 68, 68, 255],
            r.number@ == seq![59u8, 130, 246, 255],
    {
        let red = c2a(Rgba { r: 239, g: 68, b: 68, a: 255 });
        let blue = c2a(Rgba { r: 59, g: 130, b: 246, a: 255 });
        let marker = c2a(color_from_unmultiplied(249, 115, 22, 160));
        let gray = c2a(Rgba { r: 160, g: 160, b: 160, a: 255 });
        let white = c2a(Rgba { r: 255, g: 255, b: 255, a: 255 });
        ToolColors {
            rect: red,
            round_rect: red,
            ellipse: red,
            arrow: red,
            arrow_double: red,
            line: blue,
            pen: red,
            marker,
            mosaic: gray,
            eraser: white,
            text: red,
            number: blue,
        }
    }
}

impl ToolColors {
    /// The colour remembered for tool `kind`.
    pub fn get(&self, kind: ShapeKind) -> (c: Rgba)
        ensures
            (c.r, c.g, c.b, c.a) == unmultiplied_color(
                tool_slot(*self, kind)@[0],
                tool_slot(*self, kind)@[1],
                tool_slot(*self, kind)@[2],
                tool_slot(*self, kind)@[3],
            ),
            tool_slot(*self, kind)@[3] == 255 ==> channels(c) == tool_slot(*self, kind)@,
    {
        let a = match kind {
            ShapeKind::Rect => self.rect,
            ShapeKind::RoundRect => self.round_rect,
            ShapeKind::Ellipse => self.ellipse,
            ShapeKind::Arrow => self.arrow,
            ShapeKind::ArrowDouble => self.arrow_double,
            ShapeKind::Line => self.line,
            ShapeKind::Pen => self.pen,
            ShapeKind::Marker => self.marker,
            ShapeKind::Mosaic => self.mosaic,
            ShapeKind::Eraser => self.eraser,
            ShapeKind::Text => self.text,
            ShapeKind::Number => self.number,
        };
        let c = color_from_unmultiplied(a[0], a[1], a[2], a[3]);
        proof {
            if a@[3] == 255 {
                assert(channels(c) =~= a@);
            }
        }
        c
    }

    /// Remembers colour `c` for tool `kind`.
    pub fn set(&mut self, kind: ShapeKind, c: Rgba)
        ensures
            tool_slot(*final(self), kind)@ == channels(c),
            forall|k: ShapeKind| k != kind ==> #[trigger] tool_slot(*final(self), k) == tool_slot(*old(self), k),
    {
        let a = c2a(c);
        match kind {
            ShapeKind::Rect => self.rect = a,
            ShapeKind::RoundRect => self.round_rect = a,
            ShapeKind::Ellipse => self.ellipse = a,
            ShapeKind::Arrow => self.arrow = a,
            ShapeKind::ArrowDouble => self.arrow_double = a,
            ShapeKind::Line => self.line = a,
            ShapeKind::Pen => self.pen = a,
            ShapeKind::Marker => self.marker = a,
            ShapeKind::Mosaic => self.mosaic = a,
            ShapeKind::Eraser => self.eraser = a,
            ShapeKind::Text => self.text = a,
            ShapeKind::Number => self.number = a,
        }
    }
}

/// Reading a tool's colour back after setting an opaque colour gives that colour,
/// and setting one tool's colour leaves every other tool's colour as it was.
pub proof fn lemma_set_then_get(t0: ToolColors, t1: ToolColors, kind: ShapeKind, c: Rgba, k: ShapeKind)
    requires
        tool_slot(t1, kind)@ == channels(c),
        forall|j: ShapeKind| j != kind ==> #[trigger] tool_slot(t1, j) == tool_slot(t0, j),
    ensures
        c.a == 255 ==> tool_slot(t1, kind)@[3] == 255 && channels(c) == tool_slot(t1, kind)@,
        k != kind ==> tool_slot(t1, k) == tool_slot(t0, k),
{
}

// ── the palette ─────────────────────────────────────────────────────────────

/// The user's palette of swatches, each as its four stored channels.
#[derive(Clone, Debug)]
pub struct Palette {
    pub colors: Vec<[u8; 4]>,
}

/// The swatches of a new palette: red, orange, yellow, green, blue, purple, pink,
/// white and black, all opaque.
pub open spec fn default_swatches() -> Seq<Seq<u8>> {
    seq![
        seq![239u8, 68, 68, 255],
        seq![249u8, 115, 22, 255],
        seq![234u8, 179, 8, 255],
        seq![34u8, 197, 94, 255],
        seq![59u8, 130, 246, 255],
        seq![168u8, 85, 247, 255],
        seq![236u8, 72, 153, 255],
        seq![255u8, 255, 255, 255],
        seq![0u8, 0, 0, 255],
    ]
}

/// The channels of each swatch.
pub open spec fn swatch_views(s: Seq<[u8; 4]>) -> Seq<Seq<u8>> {
    s.map_values(|a: [u8; 4]| a@)
}

/// `c` is the colour egui makes of the stored channels `a`.
pub open spec fn shows_swatch(c: Rgba, a: [u8; 4]) -> bool {
    (c.r, c.g, c.b, c.a) == unmultiplied_color(a@[0], a@[1], a@[2], a@[3])
}

impl Default for Palette {
    fn default() -> (p: Self)
        ensures
            swatch_views(p.colors@) == default_swatches(),
    {
        let mut v: Vec<[u8; 4]> = Vec::new();
        v.push(c2a(Rgba { r: 239, g: 68, b: 68, a: 255 }));
        v.push(c2a(Rgba { r: 249, g: 115, b: 22, a: 255 }));
        v.push(c2a(Rgba { r: 234, g: 179, b: 8, a: 255 }));
        v.push(c2a(Rgba { r: 34, g: 197, b: 94, a: 255 }));
        v.push(c2a(Rgba { r: 59, g: 130, b: 246, a: 255 }));
        v.push(c2a(Rgba { r: 168, g: 85, b: 247, a: 255 }));
        v.push(c2a(Rgba { r: 236, g: 72, b: 153, a: 255 }));
        v.push(c2a(Rgba { r: 255, g: 255, b: 255, a: 255 }));
        v.push(c2a(Rgba { r: 0, g: 0, b: 0, a: 255 }));
        proof {
            assert(swatch_views(v@) =~= default_swatches());
        }
        Palette { colors: v }
    }
}

impl Palette {
    /// The swatches as colours, in order.
    pub fn colors(&self) -> (r: Vec<Rgba>)
        ensures
            r@.len() == self.colors@.len(),
            forall|i: int| 0 <= i < r@.len() ==> shows_swatch(#[trigger] r@[i], self.colors@[i]),
    {
        let mut r: Vec<Rgba> = Vec::new();
        let mut i: usize = 0;
        while i < self.colors.len()
            invariant
                i <= self.colors@.len(),
                r@.len() == i,
                forall|k: int| 0 <= k < i ==> shows_swatch(#[trigger] r@[k], self.colors@[k]),
            decreases self.colors@.len() - i,
        {
            let a = self.colors[i];
            r.push(color_from_unmultiplied(a[0], a[1], a[2], a[3]));
            i = i + 1;
        }
        r
    }

    /// Brings `cache` up to date with the swatches' colours: it is rebuilt when the
    /// palette changed size, and a slot whose colour differs is replaced.
    pub fn colors_cached(&self, cache: &mut Vec<Rgba>)
        ensures
            final(cache)@.len() == self.colors@.len(),
            forall|i: int| 0 <= i < final(cache)@.len() ==> shows_swatch(#[trigger] final(cache)@[i], self.colors@[i]),
    {
        if cache.len() != self.colors.len() {
            *cache = self.colors();
            return;
        }
        let mut i: usize = 0;
        while i < cache.len()
            invariant
                cache@.len() == self.colors@.len(),
                i <= cache@.len(),
                forall|k: int| 0 <= k < i ==> shows_swatch(#[trigger] cache@[k], self.colors@[k]),
            decreases cache@.len() - i,
        {
            let a = self.colors[i];
            let c = color_from_unmultiplied(a[0], a[1], a[2], a[3]);
            if cache[i] != c {
                cache.set(i, c);
            }
            i = i + 1;
        }
    }
}

// ── colour text ─────────────────────────────────────────────────────────────

/// How a picked colour is written: "#RRGGBB" or "rgb(r,g,b)".
#[derive(Clone, Copy, PartialEq, Eq, Structural, Debug)]
pub enum ColorFmt {
    Hex,
    Rgb,
}

/// Upper-case hexadecimal digit of 0 ..= 15.
pub open spec fn hex_digit(d: int) -> char {
    if d < 10 { ((d + 48) as u8) as char } else { ((d + 55) as u8) as char }
}

pub open spec fn hex2(v: u8) -> Seq<char> {
    seq![hex_digit(v as int / 16), hex_digit(v as int % 16)]
}

pub open spec fn color_text(f: ColorFmt, c: Rgba) -> Seq<char> {
    match f {
        ColorFmt::Hex => "#"@ + hex2(c.r) + hex2(c.g) + hex2(c.b),
        ColorFmt::Rgb => "rgb("@ + dec(c.r as nat) + ","@ + dec(c.g as nat) + ","@ + dec(c.b as nat) + ")"@,
    }
}

/// The value of an upper-case hexadecimal digit.
pub open spec fn hex_value(c: char) -> int {
    if '0' <= c <= '9' {
        c as int - '0' as int
    } else {
        c as int - 'A' as int + 10
    }
}

/// An upper-case hexadecimal digit: '0' ..= '9' or 'A' ..= 'F'.
pub open spec fn is_hex_digit(c: char) -> bool {
    ('0' <= c <= '9') || ('A' <= c <= 'F')
}

/// A colour written in hex is "#RRGGBB": '#' and then each channel as two
/// upper-case hexadecimal digits, high digit first.
pub proof fn lemma_color_hex(c: Rgba)
    ensures
        color_text(ColorFmt::Hex, c).len() == 7,
        color_text(ColorFmt::Hex, c)[0] == '#',
        forall|k: int| 1 <= k < 7 ==> is_hex_digit(#[trigger] color_text(ColorFmt::Hex, c)[k]),
        hex_value(color_text(ColorFmt::Hex, c)[1]) * 16 + hex_value(color_text(ColorFmt::Hex, c)[2]) == c.r,
        hex_value(color_text(ColorFmt::Hex, c)[3]) * 16 + hex_value(color_text(ColorFmt::Hex, c)[4]) == c.g,
        hex_value(color_text(ColorFmt::Hex, c)[5]) * 16 + hex_value(color_text(ColorFmt::Hex, c)[6]) == c.b,
{
    reveal_strlit("#");
    let t = color_text(ColorFmt::Hex, c);
    assert(t =~= seq!['#', hex_digit(c.r as int / 16), hex_digit(c.r as int % 16), hex_digit(c.g as int / 16), hex_digit(
        c.g as int % 16), hex_digit(c.b as int / 16), hex_digit(c.b as int % 16)]);
    lemma_hex_digit(c.r as int / 16);
    lemma_hex_digit(c.r as int % 16);
    lemma_hex_digit(c.g as int / 16);
    lemma_hex_digit(c.g as int % 16);
    lemma_hex_digit(c.b as int / 16);
    lemma_hex_digit(c.b as int % 16);
}

proof fn lemma_hex_digit(d: int)
    requires
        0 <= d < 16,
    ensures
        is_hex_digit(hex_digit(d)),
        hex_value(hex_digit(d)) == d,
{
    if d < 10 {
        assert(((d + 48) as u8) as int == d + 48);
    } else {
        assert(((d + 55) as u8) as int == d + 55);
    }
}

fn push_hex2(s: &mut String, v: u8)
    ensures
        final(s)@ == old(s)@ + hex2(v),
{
    let hi = v / 16;
    let lo = v % 16;
    let ch = if hi < 10 { (hi + 48) as char } else { (hi + 55) as char };
    let cl = if lo < 10 { (lo + 48) as char } else { (lo + 55) as char };
    push_char(s, ch);
    push_char(s, cl);
    proof {
        assert(old(s)@.push(ch).push(cl) =~= old(s)@ + hex2(v));
    }
}

impl ColorFmt {
    /// The colour as text in this format.
    pub fn format(self, c: Rgba) -> (r: String)
        ensures
            r@ == color_text(self, c),
    {
        let mut s = String::new();
        match self {
            ColorFmt::Hex => {
                push_str(&mut s, "#");
                push_hex2(&mut s, c.r);
                push_hex2(&mut s, c.g);
                push_hex2(&mut s, c.b);
            },
            ColorFmt::Rgb => {
                push_str(&mut s, "rgb(");
                push_dec(&mut s, c.r as u64);
                push_str(&mut s, ",");
                push_dec(&mut s, c.g as u64);
                push_str(&mut s, ",");
                push_dec(&mut s, c.b as u64);
                push_str(&mut s, ")");
            },
        }
        proof {
            assert(s@ =~= color_text(self, c));
        }
        s
    }

    /// The other format.
    pub fn toggle(self) -> (r: Self)
        ensures
            r != self,
    {
        match self {
            ColorFmt::Hex => ColorFmt::Rgb,
            ColorFmt::Rgb => ColorFmt::Hex,
        }
    }
}

} // verus!
