use cdh::picker::{
    apply_input_normal, compute_top_margin_bottom, ensure, handle_mouse, is_double_click,
    map_key_normal, pad, panel_height, pick_on_enter,
    reposition_after_filter, trim_mid, Input, Key, MouseAction, MouseKind, State, Step, View,
};

fn items(names: &[&str]) -> Vec<String> {
    names.iter().map(|s| s.to_string()).collect()
}

#[test]
fn view_pages_of_twenty_three_rows() {
    let v = View::new(23);
    assert_eq!(v.view_len(), 23);
    assert_eq!(v.page_count(), 3);
    assert_eq!(v.page_len(1), 10);
    assert_eq!(v.page_len(3), 3);
    assert_eq!(v.get_abs_indices_on_page(3), vec![20, 21, 22]);
    assert_eq!(v.abs_index_from_page_cursor(3, 2), Some(22));
    assert_eq!(v.abs_index_from_page_cursor(3, 3), None);
}

#[test]
fn empty_view_has_one_page() {
    let v = View::new(0);
    assert_eq!(v.page_count(), 1);
    assert_eq!(v.page_len(1), 0);
    assert_eq!(v.abs_index_from_page_cursor(1, 0), None);
}

#[test]
fn filter_is_case_insensitive_and_trimmed() {
    let it = items(&["/home/Alpha", "/tmp/beta", "/srv/ALPHABET"]);
    let mut v = View::new(it.len());
    v.apply_filter(&it, "  alpha ");
    assert_eq!(v.filtered, Some(vec![0, 2]));
    assert_eq!(v.view_len(), 2);
    assert_eq!(v.pos_of_abs(2), Some((1, 1)));
    assert_eq!(v.pos_of_abs(1), None);
    v.apply_filter(&it, "   ");
    assert_eq!(v.filtered, None);
    v.clear_filter(3);
    assert_eq!(v.view_len(), 3);
}

#[test]
fn best_focus_prefers_exact_then_prefix() {
    let it = items(&["xab", "ABC", "ab"]);
    let v = View::new(it.len());
    assert_eq!(v.best_focus(&it, "AB"), Some((1, 2)));
    assert_eq!(v.best_focus(&it, "a"), Some((1, 1)));
    assert_eq!(v.best_focus(&it, "zz"), Some((1, 0)));
    assert_eq!(View::new(0).best_focus(&it, "a"), None);
}

#[test]
fn reposition_keeps_highlighted_item() {
    let names: Vec<String> = (0..25).map(|i| format!("/d/item{}", i)).collect();
    let mut v = View::new(names.len());
    let mut st = State::new(v.page_count());
    reposition_after_filter(&names, &mut v, &mut st, "item2", Some(21));
    // matches: item2, item20..item24 -> positions 0..5; item21 is at 2
    assert_eq!(st.pages, 1);
    assert_eq!((st.page, st.cursor), (1, 2));
    reposition_after_filter(&names, &mut v, &mut st, "item1", Some(21));
    // item21 is filtered out and no path equals or starts with the query
    assert_eq!((st.page, st.cursor), (1, 0));
    reposition_after_filter(&names, &mut v, &mut st, "nothing", None);
    assert_eq!((st.page, st.cursor), (1, 0));
    assert_eq!(v.view_len(), 0);
}

#[test]
fn cursor_moves_across_pages() {
    let v = View::new(15);
    let mut st = State::new(v.page_count());
    st.move_up(&v);
    assert_eq!((st.page, st.cursor), (1, 0));
    for _ in 0..10 {
        st.move_down(&v);
    }
    assert_eq!((st.page, st.cursor), (2, 0));
    st.move_up(&v);
    assert_eq!((st.page, st.cursor), (1, 9));
    st.page_right(&v);
    assert_eq!((st.page, st.cursor), (2, 4));
    st.page_right(&v);
    assert_eq!((st.page, st.cursor), (2, 4));
    st.page_left(&v);
    assert_eq!((st.page, st.cursor), (1, 4));
    st.cursor = 9;
    st.page = 2;
    st.clamp_cursor_on_resize(&v);
    assert_eq!(st.cursor, 4);
    st.reset_pages(0);
    assert_eq!((st.pages, st.page), (1, 1));
}

#[test]
fn normal_mode_keys() {
    let v = View::new(12);
    let mut st = State::new(v.page_count());
    assert_eq!(map_key_normal(Key::Char('j'), false), Input::Down);
    assert_eq!(map_key_normal(Key::Char('c'), true), Input::CtrlC);
    assert_eq!(map_key_normal(Key::Char('7'), false), Input::Digit('7'));
    assert_eq!(map_key_normal(Key::Other, false), Input::Backspace);
    assert_eq!(apply_input_normal(&mut st, Input::Digit('7'), &v), Step::Stay);
    assert_eq!(st.cursor, 7);
    st.page = 2;
    st.cursor = 0;
    assert_eq!(apply_input_normal(&mut st, Input::Digit('5'), &v), Step::Stay);
    assert_eq!(st.cursor, 0);
    assert_eq!(apply_input_normal(&mut st, Input::Enter, &v), Step::SelectAbs(10));
    assert_eq!(apply_input_normal(&mut st, Input::Char('q'), &v), Step::Quit);
}

#[test]
fn mouse_click_and_scroll() {
    let v = View::new(3);
    let st = State::new(v.page_count());
    assert_eq!(handle_mouse(MouseKind::ScrollUp, 0, 5, 12, 0, &st, &v), Some(MouseAction::ScrollUp));
    assert_eq!(handle_mouse(MouseKind::LeftDown, 8, 5, 12, 0, &st, &v), Some(MouseAction::MoveToCursor(2)));
    assert_eq!(handle_mouse(MouseKind::LeftDown, 9, 5, 12, 0, &st, &v), None);
    assert_eq!(handle_mouse(MouseKind::RightDown, 7, 5, 12, 0, &st, &v), None);
}

#[test]
fn panel_margin() {
    assert_eq!(compute_top_margin_bottom(24, 12), 11);
    assert_eq!(compute_top_margin_bottom(12, 12), 0);
    assert_eq!(compute_top_margin_bottom(5, 12), 0);
}

#[test]
fn trim_and_pad_text() {
    assert_eq!(trim_mid("abcdefgh", 5), "ab\u{2026}gh");
    assert_eq!(trim_mid("abcdefgh", 2), "\u{2026}\u{2026}");
    assert_eq!(pad("ab", 5, '.'), "ab...");
    assert_eq!(pad("abcdefgh", 6, '.'), "ab\u{2026}fgh");
}

#[test]
fn pad_counts_wide_characters() {
    // each CJK character takes two columns
    assert_eq!(pad("\u{4e2d}\u{6587}", 6, ' '), "\u{4e2d}\u{6587}  ");
    assert_eq!(trim_mid("\u{4e2d}\u{6587}\u{5b57}\u{7b26}", 5), "\u{4e2d}\u{2026}\u{7b26}");
}

#[test]
fn ensure_fails_when_condition_is_false() {
    assert!(ensure(true, "ok").is_ok());
    assert!(ensure(false, "too small").is_err());
}

#[test]
fn enter_in_search_mode() {
    let it = items(&["/a/x", "/b/x", "/c/y"]);
    let mut v = View::new(it.len());
    let mut st = State::new(v.page_count());
    reposition_after_filter(&it, &mut v, &mut st, "zzz", None);
    assert_eq!(pick_on_enter(&v, &st, &it, "zzz"), None);
    reposition_after_filter(&it, &mut v, &mut st, "y", None);
    assert_eq!(pick_on_enter(&v, &st, &it, "y"), Some(2));
    reposition_after_filter(&it, &mut v, &mut st, "x", None);
    st.cursor = 1;
    assert_eq!(pick_on_enter(&v, &st, &it, "x"), Some(1));
    st.cursor = 5;
    assert_eq!(pick_on_enter(&v, &st, &it, "x"), Some(0));
}

#[test]
fn home_end_and_panel_height() {
    let v = View::new(25);
    let mut st = State::new(v.page_count());
    st.end(&v);
    assert_eq!((st.page, st.cursor), (3, 4));
    st.home();
    assert_eq!((st.page, st.cursor), (1, 0));
    assert_eq!(panel_height(3), 5);
    assert_eq!(panel_height(10), 8);
    assert_eq!(panel_height(40), 12);
}

#[test]
fn double_click_window() {
    assert!(is_double_click(Some(3), 3, Some(300), 300));
    assert!(!is_double_click(Some(3), 3, Some(301), 300));
    assert!(!is_double_click(Some(2), 3, Some(10), 300));
    assert!(!is_double_click(None, 3, None, 300));
}
