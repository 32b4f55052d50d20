use clip_vault::store::{
    make_preview, make_stats, format_clock, format_date_clock, ClipContent, ClipEntry, LocalDate, LocalTime, Store,
};

fn day(d: u32) -> LocalDate {
    LocalDate { year: 2024, month: 5, day: d }
}

fn at(d: u32, hour: u32, minute: u32) -> LocalTime {
    LocalTime { date: day(d), hour, minute, timestamp_ms: 0 }
}

fn text(s: &str) -> ClipContent {
    ClipContent::Text(s.to_string())
}

fn texts(store: &Store) -> Vec<String> {
    store
        .entries
        .iter()
        .map(|e| match &e.content {
            ClipContent::Text(t) => t.clone(),
            ClipContent::Image { .. } => "<img>".to_string(),
        })
        .collect()
}

fn empty_store() -> Store {
    Store::from_loaded(Vec::new(), day(1))
}

#[test]
fn stats_of_text_and_image() {
    assert_eq!(make_stats(&text("hello")), "5 字");
    assert_eq!(make_stats(&text("a\nbc\nd")), "3 行 6 字");
    assert_eq!(make_stats(&text("中文")), "2 字");
    assert_eq!(make_stats(&ClipContent::Image { width: 1920, height: 1080, rgba: vec![] }), "1920×1080");
}

#[test]
fn preview_trims_and_cuts_at_120_chars() {
    assert_eq!(make_preview(&text("  hi there \n")), "hi there");
    let long: String = std::iter::repeat('x').take(130).collect();
    assert_eq!(make_preview(&text(&long)).chars().count(), 120);
    assert_eq!(make_preview(&ClipContent::Image { width: 1, height: 1, rgba: vec![0, 0, 0, 0] }), "[图片]");
}

#[test]
fn clock_labels() {
    assert_eq!(format_clock(at(3, 9, 5)), "09:05");
    assert_eq!(format_date_clock(at(3, 14, 22)), "05/03 14:22");
}

#[test]
fn new_entry_fields() {
    let e = ClipEntry::new_at(7, text("Hello World"), at(2, 8, 30));
    assert_eq!(e.id, 7);
    assert!(!e.pinned);
    assert_eq!(e.preview, "Hello World");
    assert_eq!(e.stats, "11 字");
    assert_eq!(e.time_str, "08:30");
    assert_eq!(e.text_lc, "hello world");
}

#[test]
fn rebuild_time_str_for_other_day() {
    let mut e = ClipEntry::new_at(1, text("x"), at(2, 23, 59));
    e.rebuild_time_str(day(3));
    assert_eq!(e.time_str, "05/02 23:59");
    e.rebuild_time_str(day(2));
    assert_eq!(e.time_str, "23:59");
}

#[test]
fn push_puts_newest_first_and_dedups() {
    let mut s = empty_store();
    s.push_at(text("a"), at(1, 10, 0));
    s.push_at(text("b"), at(1, 10, 1));
    s.push_at(text("a"), at(1, 10, 2));
    assert_eq!(texts(&s), vec!["a", "b"]);
    assert_eq!(s.entries[0].id, 3);
    assert!(s.needs_save());
}

#[test]
fn pinned_entries_stay_on_top() {
    let mut s = empty_store();
    s.push_at(text("keep"), at(1, 9, 0));
    let id = s.entries[0].id;
    s.toggle_pin(id);
    s.push_at(text("new"), at(1, 9, 1));
    assert_eq!(texts(&s), vec!["keep", "new"]);
    assert!(s.entries[0].pinned);
}

#[test]
fn toggle_twice_restores_pin() {
    let mut s = empty_store();
    s.push_at(text("t"), at(1, 9, 0));
    let id = s.entries[0].id;
    s.toggle_pin(id);
    s.toggle_pin(id);
    assert!(!s.entries[0].pinned);
    s.toggle_pin(999);
    assert!(!s.entries[0].pinned);
}

#[test]
fn remove_and_clear() {
    let mut s = empty_store();
    s.push_at(text("a"), at(1, 9, 0));
    s.push_at(text("b"), at(1, 9, 1));
    s.push_at(text("c"), at(1, 9, 2));
    let b = s.entries.iter().find(|e| matches!(&e.content, ClipContent::Text(t) if t == "b")).unwrap().id;
    s.remove(b);
    assert_eq!(texts(&s), vec!["c", "a"]);
    // The removed text can come back as a new entry.
    s.push_at(text("b"), at(1, 9, 3));
    assert_eq!(texts(&s), vec!["b", "c", "a"]);
    let a = s.entries[2].id;
    s.toggle_pin(a);
    s.clear_unpinned();
    assert_eq!(texts(&s), vec!["a"]);
}

#[test]
fn unpinned_history_is_bounded() {
    let mut s = empty_store();
    s.push_at(text("pinned"), at(1, 0, 0));
    let id = s.entries[0].id;
    s.toggle_pin(id);
    for i in 0..510 {
        s.push_at(text(&format!("item {i}")), at(1, 1, 0));
    }
    assert_eq!(s.entries.len(), 501);
    assert_eq!(texts(&s)[0], "pinned");
    assert_eq!(texts(&s)[1], "item 509");
    assert_eq!(texts(&s)[500], "item 10");
    // A dropped text is no longer remembered: pushing it adds a new entry.
    s.push_at(text("item 0"), at(1, 2, 0));
    assert_eq!(texts(&s)[1], "item 0");
    assert_eq!(s.entries.len(), 501);
}

#[test]
fn images_are_not_deduplicated_nor_saved() {
    let mut s = empty_store();
    let img = || ClipContent::Image { width: 1, height: 1, rgba: vec![1, 2, 3, 4] };
    s.push_at(img(), at(1, 0, 0));
    s.push_at(text("t"), at(1, 0, 1));
    s.push_at(img(), at(1, 0, 2));
    assert_eq!(texts(&s), vec!["<img>", "t", "<img>"]);
    assert_eq!(s.saved_positions(), vec![1]);
}

#[test]
fn debounced_flush() {
    let mut s = empty_store();
    assert!(!s.flush_due(10));
    s.push_at(text("x"), at(1, 0, 0));
    assert!(!s.flush_due(1));
    assert!(s.flush_due(2));
    s.mark_saved();
    assert!(!s.needs_save());
    assert!(!s.flush_due(5));
}

#[test]
fn loading_drops_images_and_continues_ids() {
    let mut a = ClipEntry::new_at(4, text("Abc"), at(1, 7, 0));
    a.text_lc = String::new();
    let b = ClipEntry::new_at(9, ClipContent::Image { width: 2, height: 2, rgba: vec![] }, at(1, 7, 1));
    let c = ClipEntry::new_at(2, text("z"), at(3, 7, 2));
    let mut s = Store::from_loaded(vec![a, b, c], day(3));
    assert_eq!(texts(&s), vec!["Abc", "z"]);
    assert_eq!(s.entries[0].text_lc, "abc");
    assert_eq!(s.entries[0].time_str, "05/01 07:00");
    assert_eq!(s.entries[1].time_str, "07:02");
    assert!(!s.needs_save());
    s.push_at(text("Abc"), at(3, 8, 0));
    assert_eq!(s.entries[0].id, 5);
    assert_eq!(texts(&s), vec!["Abc", "z"]);
}

#[test]
fn new_entry_is_stamped_now() {
    let e = ClipEntry::new(3, text("now"));
    assert_eq!(e.id, 3);
    assert!((1..=12).contains(&e.time.date.month));
    assert_eq!(e.time_str.len(), 5);
    assert_eq!(&e.time_str[2..3], ":");
    assert!(e.time.timestamp_ms > 1_600_000_000_000);
    let mut s = empty_store();
    s.push(text("live"));
    assert_eq!(texts(&s), vec!["live"]);
    assert_eq!(s.next_entry_id(), 2);
}

#[test]
fn saved_entries_load_back() {
    let mut s = empty_store();
    s.push_at(text("one"), at(1, 9, 0));
    s.push_at(ClipContent::Image { width: 1, height: 1, rgba: vec![0; 4] }, at(1, 9, 1));
    s.push_at(text("two"), at(1, 9, 2));
    let id = s.entries.iter().find(|e| matches!(&e.content, ClipContent::Text(t) if t == "one")).unwrap().id;
    s.toggle_pin(id);
    let saved: Vec<ClipEntry> = s.saved_positions().into_iter().map(|i| s.entries[i].clone()).collect();
    let mut back = Store::from_loaded(saved, day(1));
    assert_eq!(texts(&back), vec!["two", "one"]);
    assert!(back.entries[1].pinned);
    assert_eq!(back.next_entry_id(), 4);
    // Copying the text of a pinned entry again keeps that entry, pinned, in place.
    back.push_at(text("one"), at(1, 9, 3));
    assert_eq!(texts(&back), vec!["two", "one"]);
    assert!(back.entries[1].pinned);
    assert_eq!(back.entries[1].id, id);
    assert_eq!(back.next_entry_id(), 4);
    assert!(back.needs_save());
}

#[test]
fn copying_a_pinned_text_again_keeps_the_pin() {
    let mut s = empty_store();
    s.push_at(text("keep"), at(1, 9, 0));
    let id = s.entries[0].id;
    s.toggle_pin(id);
    s.push_at(text("other"), at(1, 9, 1));
    let next = s.next_entry_id();
    s.push_at(text("keep"), at(1, 9, 2));
    assert_eq!(texts(&s), vec!["keep", "other"]);
    let kept: Vec<&ClipEntry> = s.entries.iter().filter(|e| matches!(&e.content, ClipContent::Text(t) if t == "keep")).collect();
    assert_eq!(kept.len(), 1);
    assert!(kept[0].pinned);
    assert_eq!(kept[0].id, id);
    assert_eq!(kept[0].time_str, "09:00");
    assert_eq!(s.next_entry_id(), next);
    // An unpinned text is still replaced by a new entry, first after the pinned ones.
    s.push_at(text("other"), at(1, 9, 3));
    assert_eq!(texts(&s), vec!["keep", "other"]);
    assert_eq!(s.entries[1].id, next);
    assert_eq!(s.next_entry_id(), next + 1);
}

#[test]
fn line_counts_follow_str_lines() {
    assert_eq!(make_stats(&text("a\n")), "2 字");
    assert_eq!(make_stats(&text("")), "0 字");
    assert_eq!(make_stats(&text("a\r\nb")), "2 行 4 字");
    assert_eq!(make_preview(&text("\u{3000}全角\u{3000}")), "全角");
}
