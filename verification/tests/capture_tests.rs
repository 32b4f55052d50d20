use clip_vault::capture::{
    crop_fits, crop_rgba, drag_capture_status, drag_rect, history_status, history_target, next_number_after, push_capture,
    sample_color, selection_big_enough, selection_status, super_capture_step, HistoryEntry, SuperAction,
};
use clip_vault::raster::Rgba;
use clip_vault::screens::{composite, ScreenGrab};
use clip_vault::tools::ShapeKind;

#[test]
fn capture_history_keeps_ten() {
    let mut h = Vec::new();
    for i in 0..12 {
        push_capture(&mut h, HistoryEntry { pixels: vec![i as u8], w: 1, h: 1 });
    }
    assert_eq!(h.len(), 10);
    assert_eq!(h[0].pixels, vec![2]);
    assert_eq!(h[9].pixels, vec![11]);
}

#[test]
fn history_navigation_targets() {
    assert_eq!(history_target(0, None, 1), None);
    assert_eq!(history_target(3, None, 1), Some(2));
    assert_eq!(history_target(3, Some(2), 1), Some(1));
    assert_eq!(history_target(3, Some(0), 1), None);
    assert_eq!(history_target(3, Some(0), -1), Some(1));
    assert_eq!(history_target(3, None, -1), Some(2));
    assert_eq!(history_target(3, Some(2), -1), None);
    assert_eq!(history_status(0, 3), "历史记录 1/3");
}

#[test]
fn selection_texts_and_rect() {
    assert_eq!(selection_status(640, 480), "640×480  Enter复制  Ctrl+S保存  Esc关闭");
    assert_eq!(drag_capture_status(10, 20), "10×20 — Win+拖拽截图完成");
    assert_eq!(drag_rect(50, 10, 20, 40), (20, 10, 30, 30));
    assert!(selection_big_enough(4, 4));
    assert!(!selection_big_enough(3, 100));
}

#[test]
fn numbering_after_undo() {
    let kinds = vec![ShapeKind::Number, ShapeKind::Rect, ShapeKind::Number];
    assert_eq!(next_number_after(&kinds), 3);
    assert_eq!(next_number_after(&Vec::new()), 1);
}

#[test]
fn colour_picking_clamps() {
    let buf: Vec<u8> = (0..16u8).collect();
    assert_eq!(sample_color(&buf, 2, 2, 1, 0), Some(Rgba { r: 4, g: 5, b: 6, a: 255 }));
    assert_eq!(sample_color(&buf, 2, 2, 9, 9), Some(Rgba { r: 12, g: 13, b: 14, a: 255 }));
    assert_eq!(sample_color(&buf, 2, 2, -3, -3), Some(Rgba { r: 0, g: 1, b: 2, a: 255 }));
    assert_eq!(sample_color(&buf[..8], 2, 2, 1, 1), None);
}

#[test]
fn crop_copies_rows_and_repeats_last() {
    // 3 x 2 image, pixel (x, y) = [10y + x; 4].
    let mut base = Vec::new();
    for y in 0..2u8 {
        for x in 0..3u8 {
            base.extend_from_slice(&[10 * y + x; 4]);
        }
    }
    let out = crop_rgba(&base, 3, 2, 1, 0, 2, 3);
    let px: Vec<u8> = out.chunks(4).map(|c| c[0]).collect();
    assert_eq!(px, vec![1, 2, 11, 12, 11, 12]);
    // A crop running past the end of the buffer leaves zeros.
    let out = crop_rgba(&base, 3, 2, 2, 1, 2, 1);
    assert_eq!(out, vec![12, 12, 12, 12, 0, 0, 0, 0]);
}

#[test]
fn super_capture_decisions() {
    assert_eq!(super_capture_step(false, true, true, false, false, false), SuperAction::Nothing);
    assert_eq!(super_capture_step(true, true, true, false, false, false), SuperAction::Begin);
    assert_eq!(super_capture_step(true, true, false, false, true, true), SuperAction::Track);
    assert_eq!(super_capture_step(true, true, false, true, true, true), SuperAction::Finish);
    assert_eq!(super_capture_step(true, false, false, false, true, true), SuperAction::Cancel);
    assert_eq!(super_capture_step(true, false, true, false, false, false), SuperAction::Nothing);
}

#[test]
fn monitors_are_joined() {
    let grabs = vec![
        ScreenGrab { x: 0, y: 0, width: 2, height: 1, pixels: vec![1; 8] },
        ScreenGrab { x: -1, y: 1, width: 1, height: 1, pixels: vec![2; 4] },
    ];
    let c = composite(&grabs).unwrap();
    assert_eq!((c.width, c.height), (3, 2));
    let px: Vec<u8> = c.pixels.chunks(4).map(|p| p[0]).collect();
    assert_eq!(px, vec![0, 1, 1, 2, 0, 0]);
    assert!(composite(&Vec::new()).is_none());
}

#[test]
fn crop_arguments_are_checked() {
    // A 4 x 4 image holds 64 bytes.
    assert!(crop_fits(64, 4, 4, 1, 1, 2, 2));
    assert!(!crop_fits(64, 4, 4, -1, 1, 2, 2));
    assert!(!crop_fits(64, 4, 4, 1, -1, 2, 2));
    assert!(!crop_fits(10, 4, 4, 1, 1, 2, 2));
    assert!(!crop_fits(64, 4, 4, 0, 0, usize::MAX, 2));
    let out = crop_rgba(&(0u8..64).collect::<Vec<u8>>(), 4, 4, 1, 1, 2, 2);
    assert_eq!(out, vec![20, 21, 22, 23, 24, 25, 26, 27, 36, 37, 38, 39, 40, 41, 42, 43]);
}
