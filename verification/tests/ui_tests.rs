use rust_mind_map::app::App;
use rust_mind_map::node::Node;
use rust_mind_map::ui::{
    build_tree_items, centered_rect, edit_popup_text, find_active_node_index, search_popup_text,
    status_text, status_with_name, name_or_blank, popup_percentages, middle_of, rows_can_be_built, Color, Rect,
    StyledSpan,
};
use rust_mind_map::app::Mode;

fn node(id: u128, text: &str, children: Vec<Node>) -> Node {
    Node {
        id,
        text: text.to_string(),
        children,
        collapsed: false,
        rank_positive: 0,
        rank_negative: 0,
        stars: 0,
        symbol: None,
        hidden: false,
    }
}

fn texts(row: &Vec<StyledSpan>) -> Vec<String> {
    row.iter().map(|s| s.text.clone()).collect()
}

#[test]
fn rows_show_markers_metadata_and_styles() {
    let mut a = node(2, "a", vec![node(4, "c", vec![])]);
    a.rank_positive = 2;
    a.rank_negative = 1;
    a.stars = 2;
    a.symbol = Some('\u{2713}');
    let t = node(1, "Top", vec![a, node(3, "b", vec![])]);
    let rows = build_tree_items(&t, 2, &vec![3], 0);
    assert_eq!(rows.len(), 4);
    assert_eq!(texts(&rows[0]), vec!["", "\u{25bc} ", "Top"]);
    assert_eq!(texts(&rows[1]), vec!["  ", "\u{25bc} ", "\u{2713} ", "a", " [+2/-1]", " \u{2605}\u{2605}"]);
    assert!(rows[1][3].style.bold);
    assert_eq!(rows[1][4].style.fg, Some(Color::Green));
    assert_eq!(texts(&rows[2]), vec!["    ", "  ", "c"]);
    assert_eq!(rows[3][2].style.bg, Some(Color::Yellow));
    assert_eq!(rows[3][2].style.fg, Some(Color::Black));
}

#[test]
fn collapsed_rows_hide_children_and_count_them() {
    let mut t = node(1, "Top", vec![node(2, "a", vec![]), node(3, "b", vec![])]);
    t.collapsed = true;
    let rows = build_tree_items(&t, 0, &vec![], 0);
    assert_eq!(rows.len(), 1);
    assert_eq!(texts(&rows[0]), vec!["", "\u{25b6} ", "Top", " (2)"]);
    assert_eq!(rows[0][3].style.fg, Some(Color::Cyan));
}

#[test]
fn generic_root_with_one_child_is_skipped() {
    let t = node(1, "root", vec![node(2, "Project", vec![node(3, "x", vec![])])]);
    let rows = build_tree_items(&t, 0, &vec![], 0);
    assert_eq!(rows.len(), 2);
    assert_eq!(texts(&rows[0])[2], "Project");
    assert_eq!(texts(&rows[1])[0], "  ");
}

#[test]
fn skipped_top_rows_equal_its_childs_rows() {
    let child = || node(2, "Project", vec![node(3, "x", vec![]), node(4, "y", vec![])]);
    let t = node(1, "", vec![child()]);
    let a = build_tree_items(&t, 3, &vec![4], 0);
    let b = build_tree_items(&child(), 3, &vec![4], 0);
    assert_eq!(a.len(), 3);
    assert_eq!(a.len(), b.len());
    for (ra, rb) in a.iter().zip(b.iter()) {
        assert_eq!(texts(ra), texts(rb));
        let sa: Vec<_> = ra.iter().map(|s| s.style).collect();
        let sb: Vec<_> = rb.iter().map(|s| s.style).collect();
        assert_eq!(sa, sb);
    }
}

#[test]
fn rank_colours() {
    let mut t = node(1, "x", vec![]);
    t.rank_positive = 1;
    t.rank_negative = 3;
    let rows = build_tree_items(&t, 0, &vec![], 0);
    assert_eq!(texts(&rows[0])[3], " [+1/-3]");
    assert_eq!(rows[0][3].style.fg, Some(Color::Green));
    t.rank_negative = -3;
    let rows = build_tree_items(&t, 0, &vec![], 0);
    assert_eq!(texts(&rows[0])[3], " [+1/3]");
    assert_eq!(rows[0][3].style.fg, Some(Color::Red));
    t.rank_negative = -1;
    let rows = build_tree_items(&t, 0, &vec![], 0);
    assert_eq!(texts(&rows[0])[3], " [+1/1]");
    assert_eq!(rows[0][3].style.fg, Some(Color::Yellow));
}

#[test]
fn active_index_is_first_row() {
    let t = node(1, "x", vec![]);
    let rows = build_tree_items(&t, 0, &vec![], 0);
    assert_eq!(find_active_node_index(&rows, 1), Some(0));
    assert_eq!(find_active_node_index(&vec![], 1), None);
}

#[test]
fn status_bar_text() {
    let mut app = App::new(None, None);
    assert_eq!(status_text(&app), "NORMAL  Untitled  Press ? for help");
    app.file_manager.filename = Some("dir/map.rmm".to_string());
    app.modified = true;
    assert_eq!(status_text(&app), "NORMAL  map.rmm*  Press ? for help");
    app.set_message("hello".to_string());
    assert_eq!(status_text(&app), "hello");
}

#[test]
fn popup_texts_end_with_cursor_mark() {
    let mut app = App::new(None, None);
    app.edit_buffer = "abc".to_string();
    app.search_query = "q".to_string();
    assert_eq!(edit_popup_text(&app), "abc_");
    assert_eq!(search_popup_text(&app), "q_");
}

#[test]
fn popup_is_centered() {
    let r = centered_rect(60, 20, Rect { x: 0, y: 0, width: 100, height: 50 });
    assert_eq!(r, Rect { x: 20, y: 20, width: 60, height: 10 });
}

#[test]
fn popup_lies_within_its_area() {
    let areas = [
        Rect { x: 0, y: 0, width: 100, height: 50 },
        Rect { x: 7, y: 3, width: 33, height: 11 },
        Rect { x: 1, y: 1, width: 1, height: 1 },
        Rect { x: 5, y: 9, width: 0, height: 0 },
    ];
    for a in areas {
        for (px, py) in [(60, 20), (50, 20), (0, 0), (100, 100), (33, 77)] {
            let c = centered_rect(px, py, a);
            assert!(a.x <= c.x && a.y <= c.y);
            assert!(c.x as u32 + c.width as u32 <= a.x as u32 + a.width as u32);
            assert!(c.y as u32 + c.height as u32 <= a.y as u32 + a.height as u32);
        }
    }
}

#[test]
fn popup_follows_its_percentages() {
    let areas = [
        Rect { x: 0, y: 0, width: 100, height: 50 },
        Rect { x: 7, y: 3, width: 33, height: 11 },
        Rect { x: 2, y: 4, width: 81, height: 23 },
    ];
    let near = |n: u16, p: u16, len: u16| {
        let exact = p as i64 * len as i64;
        (100 * n as i64 - exact).abs() < 100
    };
    for a in areas {
        for (px, py) in [(60, 20), (50, 20), (0, 0), (100, 100), (33, 77)] {
            let c = centered_rect(px, py, a);
            assert!(near(c.width, px, a.width));
            assert!(near(c.height, py, a.height));
            assert!(near(c.x - a.x, (100 - px) / 2, a.width));
            assert!(near(c.y - a.y, (100 - py) / 2, a.height));
        }
    }
    let c = centered_rect(50, 80, Rect { x: 10, y: 0, width: 40, height: 30 });
    assert_eq!(c, Rect { x: 20, y: 3, width: 20, height: 24 });
}

#[test]
fn status_bar_with_a_given_name() {
    let mut app = App::new(None, None);
    app.mode = Mode::Search;
    assert_eq!(status_with_name(&app, "notes"), "SEARCH  notes  Press ? for help");
    app.modified = true;
    app.mode = Mode::Edit;
    assert_eq!(status_with_name(&app, ""), "EDIT  *  Press ? for help");
    app.set_message("Saved".to_string());
    assert_eq!(status_with_name(&app, "notes"), "Saved");
}

#[test]
fn popup_split_percentages_and_middle_part() {
    assert_eq!(popup_percentages(60), vec![20, 60, 20]);
    assert_eq!(popup_percentages(50), vec![25, 50, 25]);
    assert_eq!(popup_percentages(35), vec![32, 35, 32]);
    let parts = vec![
        Rect { x: 0, y: 0, width: 1, height: 1 },
        Rect { x: 5, y: 6, width: 7, height: 8 },
        Rect { x: 9, y: 9, width: 9, height: 9 },
    ];
    assert_eq!(middle_of(&parts), Rect { x: 5, y: 6, width: 7, height: 8 });
}

#[test]
fn rows_cannot_be_built_with_the_smallest_negative_rank() {
    let mut t = node(1, "top", vec![node(2, "a", vec![]), node(3, "b", vec![])]);
    assert!(rows_can_be_built(&t, 0));
    t.children[1].rank_negative = i32::MIN;
    assert!(!rows_can_be_built(&t, 0));
    t.children[1].rank_positive = 1;
    assert!(!rows_can_be_built(&t, 0));
    t.collapsed = true;
    assert!(rows_can_be_built(&t, 0));
}

#[test]
fn a_path_without_a_last_component_shows_no_name() {
    assert_eq!(name_or_blank(None), "");
    assert_eq!(name_or_blank(Some("a.rmm".to_string())), "a.rmm");
    let mut app = App::new(None, None);
    app.file_manager.filename = Some("/".to_string());
    assert_eq!(status_text(&app), "NORMAL    Press ? for help");
}
