use clip_vault::search::{
    context_before_flags, done_status, highlight_segments, history_step, live_status, pattern_error, push_history, search_start,
    shown_matches, split_path, truncate_display, SearchMode, SearchProgress, SearchStart, Segment,
};

fn strings(v: &[&str]) -> Vec<String> {
    v.iter().map(|s| s.to_string()).collect()
}

#[test]
fn history_moves_value_to_front() {
    let mut h = strings(&["a", "b", "c"]);
    push_history(&mut h, "b".to_string());
    assert_eq!(h, strings(&["b", "a", "c"]));
    push_history(&mut h, "b".to_string());
    assert_eq!(h, strings(&["b", "a", "c"]));
    push_history(&mut h, "d".to_string());
    assert_eq!(h, strings(&["d", "b", "a", "c"]));
}

#[test]
fn history_keeps_twenty() {
    let mut h = Vec::new();
    for i in 0..25 {
        push_history(&mut h, format!("p{i}"));
    }
    assert_eq!(h.len(), 20);
    assert_eq!(h[0], "p24");
    assert_eq!(h[19], "p5");
}

#[test]
fn pattern_history_browsing() {
    assert_eq!(history_step(None, 3, true, false), Some(0));
    assert_eq!(history_step(None, 3, false, true), None);
    assert_eq!(history_step(Some(0), 3, true, false), Some(1));
    assert_eq!(history_step(Some(2), 3, true, false), Some(2));
    assert_eq!(history_step(Some(1), 3, false, true), Some(0));
    assert_eq!(history_step(Some(0), 3, false, true), None);
    assert_eq!(history_step(Some(1), 3, true, true), Some(2));
    assert_eq!(history_step(Some(1), 3, false, false), Some(1));
    assert_eq!(history_step(None, 0, true, false), None);
}

#[test]
fn matches_shown_per_result() {
    assert_eq!(shown_matches(SearchMode::Text, false, false, 12), (5, true));
    assert_eq!(shown_matches(SearchMode::Text, false, false, 3), (3, false));
    assert_eq!(shown_matches(SearchMode::Text, false, false, 5), (5, false));
    assert_eq!(shown_matches(SearchMode::Text, false, true, 12), (12, false));
    assert_eq!(shown_matches(SearchMode::Text, true, true, 12), (0, false));
    assert_eq!(shown_matches(SearchMode::Filename, false, false, 12), (0, false));
}

#[test]
fn long_context_lines_are_cut() {
    let long: String = std::iter::repeat('é').take(250).collect();
    assert_eq!(truncate_display(&long).chars().count(), 200);
    assert_eq!(truncate_display("short"), "short");
}

#[test]
fn paths_split_at_last_slash() {
    assert_eq!(split_path("C:/dir/sub/file.txt"), ("file.txt".to_string(), "C:/dir/sub".to_string()));
    assert_eq!(split_path("file.txt"), ("file.txt".to_string(), String::new()));
    assert_eq!(split_path("/top"), ("top".to_string(), String::new()));
    assert_eq!(split_path("dir/"), (String::new(), "dir".to_string()));
}

#[test]
fn result_intake_caps_at_two_thousand() {
    let mut p = SearchProgress::new();
    for _ in 0..2000 {
        assert_eq!(p.on_result(2), Some(true));
    }
    assert_eq!(p.count, 2000);
    assert_eq!(p.matches, 4000);
    assert_eq!(p.on_result(2), Some(false));
    assert!(p.capped);
    assert_eq!(p.on_result(2), None);
    assert_eq!(p.count, 2000);
}

#[test]
fn search_status_lines() {
    let p = SearchProgress { count: 3, matches: 7, capped: false };
    assert_eq!(live_status(SearchMode::Filename, p), "搜索中… 已找到 3 个文件");
    assert_eq!(live_status(SearchMode::Text, p), "搜索中… 7 处匹配 / 3 个文件");
    let capped = SearchProgress { count: 2000, matches: 9, capped: true };
    assert_eq!(live_status(SearchMode::Filename, capped), "搜索中… 已找到 2000 个文件（已达上限）");
    assert_eq!(done_status(SearchMode::Filename, p, 12), "找到 3 个文件 (12ms)");
    assert_eq!(done_status(SearchMode::Filename, capped, 5), "找到 2000+ 个文件（已截断） (5ms)");
    assert_eq!(done_status(SearchMode::Text, p, 40), "7 处匹配，共 3 个文件 (40ms)");
    assert_eq!(done_status(SearchMode::Text, SearchProgress::new(), 1), "未找到结果 (1ms)");
}

#[test]
fn highlighted_runs() {
    let segs = highlight_segments(&[(2, 4), (6, 20)], 8);
    assert_eq!(
        segs,
        vec![
            Segment { from: 0, to: 2, highlight: false },
            Segment { from: 2, to: 4, highlight: true },
            Segment { from: 4, to: 6, highlight: false },
            Segment { from: 6, to: 8, highlight: true },
        ]
    );
    assert_eq!(highlight_segments(&[], 3), vec![Segment { from: 0, to: 3, highlight: false }]);
    assert_eq!(highlight_segments(&[(0, 0)], 0), vec![]);
}

#[test]
fn pattern_checks() {
    assert_eq!(pattern_error("", true, false), None);
    assert_eq!(pattern_error("a.*b", true, false), None);
    assert!(pattern_error("(", false, false).is_some());
    assert_eq!(pattern_error("(", false, true), None);
    assert_eq!(pattern_error("a+b?[c]", false, true), None);
}

#[test]
fn starting_a_search() {
    assert!(matches!(search_start("", "/x", true, true, false), SearchStart::Skip));
    match search_start("foo", "/nope", false, true, false) {
        SearchStart::BadPath(m) => assert_eq!(m, "路径不存在: /nope"),
        other => panic!("unexpected {other:?}"),
    }
    match search_start("(", "/x", true, true, false) {
        SearchStart::BadRegex(m) => assert!(m.starts_with("无效的正则: ")),
        other => panic!("unexpected {other:?}"),
    }
    match search_start("a.b", "/x", true, true, true) {
        SearchStart::Go(p) => assert_eq!(p, "a\\.b"),
        other => panic!("unexpected {other:?}"),
    }
    match search_start("a.b", "/x", true, true, false) {
        SearchStart::Go(p) => assert_eq!(p, "a.b"),
        other => panic!("unexpected {other:?}"),
    }
}

#[test]
fn context_lines_are_not_repeated() {
    // (line, has a line before, has a line after)
    let rows = vec![(5usize, true, true), (7, true, false), (8, true, true), (20, true, false), (21, false, true)];
    assert_eq!(context_before_flags(&rows), vec![true, false, false, true, false]);
    assert_eq!(context_before_flags(&Vec::new()), Vec::<bool>::new());
}

#[test]
fn dropped_results_need_no_room_in_the_count() {
    let mut p = SearchProgress::new();
    for _ in 0..2000 {
        p.on_result(1);
    }
    assert_eq!(p.on_result(usize::MAX), Some(false));
    assert_eq!(p.on_result(usize::MAX), None);
    assert_eq!(p.matches, 2000);
}

#[test]
fn results_are_kept_in_order_up_to_the_cap() {
    let mut p = SearchProgress::new();
    let mut kept: Vec<u32> = Vec::new();
    for i in 0..2000u32 {
        assert!(!p.take_result(&mut kept, i, 3));
    }
    assert_eq!(kept.len(), 2000);
    assert_eq!(kept[0], 0);
    assert_eq!(kept[1999], 1999);
    assert_eq!(p.matches, 6000);
    // The first result beyond the cap asks for the search to stop; later ones are dropped quietly.
    assert!(p.take_result(&mut kept, 2000, 3));
    assert!(p.capped);
    assert!(!p.take_result(&mut kept, 2001, 3));
    assert_eq!(kept.len(), 2000);
    assert_eq!(p.count, 2000);
}
