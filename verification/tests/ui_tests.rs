use clip_vault::clipview::{contains_str, day_group, entry_at, hover_text, make_status, move_selection, visible_split};
use clip_vault::hooks::{
    hovered_window_rect, root_window, select_window_rect, KeyboardState, MouseState, WM_KEYDOWN, WM_LBUTTONDOWN,
    WM_LBUTTONUP,
};
use clip_vault::hotkey::{HotkeyConfig, HotkeyKey};
use clip_vault::icon::make_icon;
use clip_vault::monitor::{fnv1a, ClipWatch};
use clip_vault::raster::Rgba;
use clip_vault::store::{ClipContent, ClipEntry, LocalDate, LocalTime};
use clip_vault::tools::{ColorFmt, Palette, ShapeKind, ToolColors};
use std::cell::Cell;

#[test]
fn shape_labels_and_tips() {
    assert_eq!(ShapeKind::Rect.label(), "▭");
    assert_eq!(ShapeKind::Number.label(), "①");
    assert_eq!(ShapeKind::Rect.tip(), "矩形 (R)");
    assert_eq!(ShapeKind::Mosaic.tip(), "马赛克");
}

#[test]
fn colour_formats() {
    let c = Rgba { r: 255, g: 128, b: 0, a: 255 };
    assert_eq!(ColorFmt::Hex.format(c), "#FF8000");
    assert_eq!(ColorFmt::Rgb.format(c), "rgb(255,128,0)");
    assert_eq!(ColorFmt::Hex.toggle(), ColorFmt::Rgb);
    assert_eq!(ColorFmt::Rgb.toggle(), ColorFmt::Hex);
}

#[test]
fn tool_colours_remember_per_tool() {
    let mut t = ToolColors::default();
    assert_eq!(t.get(ShapeKind::Rect), Rgba { r: 239, g: 68, b: 68, a: 255 });
    assert_eq!(t.get(ShapeKind::Line), Rgba { r: 59, g: 130, b: 246, a: 255 });
    let green = Rgba { r: 0, g: 200, b: 0, a: 255 };
    t.set(ShapeKind::Pen, green);
    assert_eq!(t.get(ShapeKind::Pen), green);
    assert_eq!(t.get(ShapeKind::Text), Rgba { r: 239, g: 68, b: 68, a: 255 });
    assert_eq!(t.get(ShapeKind::Marker).a, 160);
}

#[test]
fn palette_defaults_and_cache() {
    let p = Palette::default();
    assert_eq!(p.colors.len(), 9);
    assert_eq!(p.colors[8], [0, 0, 0, 255]);
    let cs = p.colors();
    assert_eq!(cs[0], Rgba { r: 239, g: 68, b: 68, a: 255 });
    let mut cache = Vec::new();
    p.colors_cached(&mut cache);
    assert_eq!(cache, cs);
    let mut stale = vec![Rgba { r: 1, g: 1, b: 1, a: 1 }; 9];
    p.colors_cached(&mut stale);
    assert_eq!(stale, cs);
    // Replacing a slot keeps the length; the cache still follows.
    let mut q = p.clone();
    q.colors[2] = [1, 2, 3, 255];
    q.colors_cached(&mut cache);
    assert_eq!(cache[2], Rgba { r: 1, g: 2, b: 3, a: 255 });
    assert_eq!(cache[3], cs[3]);
}

#[test]
fn hotkey_label_and_keys() {
    let d = HotkeyConfig::default();
    assert_eq!(d.label(), "F1");
    let h = HotkeyConfig { ctrl: true, shift: true, alt: false, key: "v".to_string() };
    assert_eq!(h.label(), "Ctrl+Shift+v");
    assert_eq!(h.key_code(), Some(HotkeyKey::Letter('V')));
    assert_eq!(h.armed_key(true, true, false), Some(HotkeyKey::Letter('V')));
    assert_eq!(h.armed_key(true, false, false), None);
    let f = HotkeyConfig { ctrl: false, shift: false, alt: true, key: "f12".to_string() };
    assert_eq!(f.key_code(), Some(HotkeyKey::Function(12)));
    assert_eq!(f.label(), "Alt+f12");
    let bad = HotkeyConfig { ctrl: false, shift: false, alt: false, key: "F13".to_string() };
    assert_eq!(bad.key_code(), None);
    assert_eq!(bad.global_key(), HotkeyKey::Function(1));
}

#[test]
fn fingerprint_values() {
    assert_eq!(fnv1a(&[]), 0xaf63bd4c8601b7df);
    assert_eq!(fnv1a(&[1, 2, 3]), 0xf5d06a87f8f19736);
    let mut a = vec![7u8; 10000];
    let b = a.clone();
    a[9000] = 1;
    assert_eq!(fnv1a(&a), fnv1a(&b));
    a[100] = 1;
    assert_ne!(fnv1a(&a), fnv1a(&b));
    assert_ne!(fnv1a(&vec![0u8; 4]), fnv1a(&vec![0u8; 8]));
}

#[test]
fn watcher_reports_new_text_once() {
    let mut w = ClipWatch::new();
    assert_eq!(w.on_text("  hello \n"), Some("hello".to_string()));
    assert_eq!(w.on_text("hello"), None);
    assert_eq!(w.on_text("   "), None);
    assert_eq!(w.on_text("world"), Some("world".to_string()));
    assert_eq!(w.last_text, "world");
}

#[test]
fn watcher_reports_changed_images() {
    let mut w = ClipWatch::new();
    assert!(w.on_image(&[1, 2, 3, 4]));
    assert!(!w.on_image(&[1, 2, 3, 4]));
    assert!(w.on_image(&[1, 2, 3, 5]));
}

#[test]
fn icon_pixels() {
    let px = make_icon();
    assert_eq!(px.len(), 32 * 32 * 4);
    let at = |x: usize, y: usize| -> [u8; 4] {
        let i = (y * 32 + x) * 4;
        [px[i], px[i + 1], px[i + 2], px[i + 3]]
    };
    assert_eq!(at(0, 0), [0, 0, 0, 0]);
    assert_eq!(at(3, 10), [60, 90, 180, 255]);
    assert_eq!(at(10, 20), [87, 131, 217, 255]);
    assert_eq!(at(7, 13), [255, 255, 255, 200]);
    assert_eq!(at(12, 4), [90, 110, 160, 255]);
    assert_eq!(at(15, 4), [0, 0, 0, 0]);
    assert_eq!(at(4, 6), [0, 0, 0, 0]);
}

#[test]
fn keyboard_hook_tracks_windows_key() {
    let mut k = KeyboardState::default();
    k.on_key(0x5B, WM_KEYDOWN);
    assert!(k.win_held);
    k.on_key(0x41, 0x0101);
    assert!(k.win_held);
    k.on_key(0x5C, 0x0101);
    assert!(!k.win_held);
}

#[test]
fn mouse_hook_tracks_button() {
    let mut m = MouseState::default();
    m.on_event(5, 6, WM_LBUTTONDOWN);
    assert!(m.clicked && m.btn_down && !m.released);
    assert_eq!(m.pos, (5, 6));
    m.consume_click();
    assert!(!m.clicked && m.btn_down);
    m.on_event(7, 8, WM_LBUTTONUP);
    assert!(m.released && !m.btn_down);
    m.consume_release();
    assert!(!m.released);
    assert_eq!(m.pos, (7, 8));
}

#[test]
fn hovered_window_is_throttled() {
    let calls = Cell::new(0);
    let query = |x: i32, y: i32| {
        calls.set(calls.get() + 1);
        Some([x, y, x + 100, y + 100])
    };
    let mut last_pos = (0, 0);
    let mut last_rect = None;
    assert_eq!(hovered_window_rect(1, 2, &query, &mut last_pos, &mut last_rect), None);
    assert_eq!(calls.get(), 0);
    assert_eq!(hovered_window_rect(10, 0, &query, &mut last_pos, &mut last_rect), Some([10, 0, 110, 100]));
    assert_eq!(calls.get(), 1);
    assert_eq!(last_pos, (10, 0));
    assert_eq!(hovered_window_rect(12, -2, &query, &mut last_pos, &mut last_rect), Some([10, 0, 110, 100]));
    assert_eq!(calls.get(), 1);
}

#[test]
fn window_selection_rules() {
    let own = [42isize];
    let rc = Some([0, 0, 100, 50]);
    assert_eq!(root_window(7, 0), 7);
    assert_eq!(root_window(7, 9), 9);
    assert_eq!(select_window_rect(7, 9, &own, true, false, 0, rc), rc);
    assert_eq!(select_window_rect(0, 9, &own, true, false, 0, rc), None);
    assert_eq!(select_window_rect(7, 42, &own, true, false, 0, rc), None);
    assert_eq!(select_window_rect(42, 9, &own, true, false, 0, rc), None);
    assert_eq!(select_window_rect(7, 9, &own, false, false, 0, rc), None);
    assert_eq!(select_window_rect(7, 9, &own, true, true, 0, rc), None);
    assert_eq!(select_window_rect(7, 9, &own, true, false, 0x80, rc), None);
    assert_eq!(select_window_rect(7, 9, &own, true, false, 0x20, rc), None);
    assert_eq!(select_window_rect(7, 9, &own, true, false, 0x10, rc), rc);
    assert_eq!(select_window_rect(7, 9, &own, true, false, 0, Some([0, 0, 4, 50])), None);
    assert_eq!(select_window_rect(7, 9, &own, true, false, 0, None), None);
}

fn entry(id: u64, content: ClipContent, pinned: bool) -> ClipEntry {
    let now = LocalTime { date: LocalDate { year: 2024, month: 1, day: 1 }, hour: 0, minute: 0, timestamp_ms: 0 };
    let mut e = ClipEntry::new_at(id, content, now);
    e.pinned = pinned;
    e
}

#[test]
fn status_lines() {
    assert_eq!(make_status(42, false), "42 条记录  •  Ctrl+Shift+V 呼出");
    assert_eq!(make_status(0, true), "0 条记录  •  已暂停");
}

#[test]
fn substring_search() {
    assert!(contains_str("hello world", "o w"));
    assert!(contains_str("你好世界", "世界"));
    assert!(contains_str("abc", ""));
    assert!(!contains_str("abc", "abcd"));
    assert!(!contains_str("abc", "ac"));
}

#[test]
fn visible_split_filters_and_partitions() {
    let es = vec![
        entry(1, ClipContent::Text("Pinned Note".to_string()), true),
        entry(2, ClipContent::Text("note two".to_string()), false),
        entry(3, ClipContent::Image { width: 1, height: 1, rgba: vec![0; 4] }, false),
        entry(4, ClipContent::Text("other".to_string()), false),
    ];
    assert_eq!(visible_split(&es, ""), (vec![0], vec![1, 2, 3]));
    assert_eq!(visible_split(&es, "note"), (vec![0], vec![1]));
    let (p, r) = visible_split(&es, "note");
    assert_eq!(entry_at(&p, &r, 0), Some(0));
    assert_eq!(entry_at(&p, &r, 1), Some(1));
    assert_eq!(entry_at(&p, &r, 2), None);
}

#[test]
fn arrow_key_selection() {
    assert_eq!(move_selection(None, 3, true, false), Some(0));
    assert_eq!(move_selection(Some(0), 3, true, false), Some(1));
    assert_eq!(move_selection(Some(2), 3, true, false), Some(2));
    assert_eq!(move_selection(Some(0), 3, false, true), Some(0));
    assert_eq!(move_selection(Some(2), 3, false, true), Some(1));
    assert_eq!(move_selection(Some(1), 3, false, false), Some(1));
    assert_eq!(move_selection(Some(1), 0, true, false), None);
}

#[test]
fn day_headings() {
    let d = |n: u32| LocalDate { year: 2024, month: 3, day: n };
    assert_eq!(day_group(d(10), d(10), d(9)), "今天");
    assert_eq!(day_group(d(9), d(10), d(9)), "昨天");
    assert_eq!(day_group(d(1), d(10), d(9)), "更早");
}

#[test]
fn translucent_colours_are_premultiplied() {
    let c = clip_vault::tools::color_from_unmultiplied(255, 255, 255, 128);
    assert_eq!(c.a, 128);
    assert!(c.r < 255 && c.r == c.g && c.g == c.b);
    assert_eq!(clip_vault::tools::color_from_unmultiplied(10, 20, 30, 0), Rgba { r: 0, g: 0, b: 0, a: 0 });
}

#[test]
fn tray_messages_compare() {
    assert_ne!(clip_vault::clipview::TrayMsg::Show, clip_vault::clipview::TrayMsg::Quit);
}

#[test]
fn hover_preview_is_trimmed_and_capped() {
    assert_eq!(hover_text("  abc \n"), "abc…");
    let long: String = std::iter::repeat('字').take(2500).collect();
    assert_eq!(hover_text(&long).chars().count(), 2001);
}
