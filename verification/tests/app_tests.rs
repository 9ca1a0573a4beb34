use rust_mind_map::app::{App, AppConfig, Mode};
use rust_mind_map::node::Node;
use rust_mind_map::config::{config_location, Platform};

fn node(id: u128, text: &str, children: Vec<Node>) -> Node {
    Node {
        id,
        text: text.to_string(),
        children,
        collapsed: false,
        rank_positive: 0,
        rank_negative: 0,
        stars: 0,
        symbol: None,
        hidden: false,
    }
}

fn app_with_sample() -> App {
    let mut app = App::new(None, None);
    app.root = node(1, "root", vec![node(2, "Alpha", vec![node(4, "gamma", vec![])]), node(3, "beta", vec![])]);
    app.active_node_id = 1;
    app
}

fn texts(n: &Node, out: &mut Vec<String>) {
    out.push(n.text.clone());
    for c in &n.children {
        texts(c, out);
    }
}

fn all_texts(n: &Node) -> Vec<String> {
    let mut v = Vec::new();
    texts(n, &mut v);
    v
}

fn distinct(ids: &[u128]) -> bool {
    let mut v = ids.to_vec();
    v.sort();
    v.dedup();
    v.len() == ids.len()
}

fn msg(app: &App) -> String {
    app.message.clone().unwrap_or_default()
}

#[test]
fn new_app_without_file_has_root() {
    let app = App::new(None, None);
    assert_eq!(app.root.text, "root");
    assert_eq!(app.active_node_id, app.root.id);
    assert_eq!(app.mode, Mode::Normal);
    assert!(app.undo_stack.is_empty());
    assert!(!app.modified);
    assert_eq!(app.config.max_undo_steps, 24);
}

#[test]
fn new_app_reads_the_given_text() {
    let app = App::new(Some("notes.rmm".to_string()), Some("Notes\n\tOne\n\tTwo\n"));
    assert_eq!(app.root.text, "Notes");
    assert_eq!(app.root.children.len(), 2);
    assert_eq!(app.file_manager.filename.as_deref(), Some("notes.rmm"));
}

#[test]
fn default_config_values() {
    let c = AppConfig::default();
    assert_eq!(c.max_parent_node_width, 25);
    assert_eq!(c.max_leaf_node_width, 55);
    assert_eq!(c.line_spacing, 1);
    assert_eq!(c.initial_depth, 1);
    assert!(!c.center_lock && !c.focus_lock && !c.auto_save);
}

#[test]
fn overrides_replace_given_settings_only() {
    let mut c = AppConfig::default();
    c.apply_overrides(Some(30), None, Some(true));
    assert_eq!(c.max_parent_node_width, 30);
    assert_eq!(c.max_leaf_node_width, 55);
    assert!(c.auto_save);
}

#[test]
fn undo_with_empty_history() {
    let mut app = app_with_sample();
    app.undo();
    assert_eq!(msg(&app), "Nothing to undo");
    assert_eq!(app.root.get_all_nodes(), vec![1, 2, 4, 3]);
}

#[test]
fn add_child_then_undo() {
    let mut app = app_with_sample();
    app.active_node_id = 3;
    app.add_child();
    assert_eq!(app.mode, Mode::Edit);
    assert_eq!(app.edit_buffer, "New Node");
    assert_eq!(app.edit_cursor, 8);
    assert_eq!(app.root.children[1].children.len(), 1);
    assert_eq!(app.active_node_id, app.root.children[1].children[0].id);
    assert!(app.modified);
    app.undo();
    assert_eq!(app.root.get_all_nodes(), vec![1, 2, 4, 3]);
    assert_eq!(app.active_node_id, app.root.id);
    assert_eq!(msg(&app), "Undo successful");
}

#[test]
fn add_sibling_adds_after_siblings() {
    let mut app = app_with_sample();
    app.active_node_id = 4;
    app.add_sibling();
    assert_eq!(app.root.children[0].children.len(), 2);
    assert_eq!(app.root.children[0].children[1].text, "New Node");
    app.cancel_edit_mode();
    app.active_node_id = 1;
    app.add_sibling();
    assert_eq!(app.root.children.len(), 3);
}

#[test]
fn edit_mode_sets_text() {
    let mut app = app_with_sample();
    app.active_node_id = 3;
    app.enter_edit_mode();
    assert_eq!(app.edit_buffer, "beta");
    app.edit_buffer = "Beta!".to_string();
    app.exit_edit_mode();
    assert_eq!(app.root.children[1].text, "Beta!");
    assert_eq!(app.mode, Mode::Normal);
    assert_eq!(app.edit_buffer, "");
    assert_eq!(app.undo_stack.len(), 1);
}

#[test]
fn delete_root_is_refused() {
    let mut app = app_with_sample();
    app.delete_node();
    assert_eq!(msg(&app), "Cannot delete root node");
    assert!(app.undo_stack.is_empty());
}

#[test]
fn delete_puts_node_on_clipboard_and_paste_restores() {
    let mut app = app_with_sample();
    app.active_node_id = 2;
    app.delete_node();
    assert_eq!(msg(&app), "Node deleted");
    assert_eq!(app.root.get_all_nodes(), vec![1, 3]);
    assert_eq!(app.active_node_id, 1);
    assert_eq!(app.clipboard.len(), 1);
    assert_eq!(app.clipboard[0].get_all_nodes(), vec![2, 4]);
    app.paste_as_child();
    assert_eq!(all_texts(&app.root), vec!["root", "beta", "Alpha", "gamma"]);
    assert!(distinct(&app.root.get_all_nodes()));
    assert_eq!(msg(&app), "Pasted as child");
}

#[test]
fn copy_then_paste_as_sibling() {
    let mut app = app_with_sample();
    app.paste_as_sibling();
    assert_eq!(msg(&app), "Clipboard is empty");
    app.active_node_id = 4;
    app.copy_node();
    assert_eq!(msg(&app), "Node copied");
    app.paste_as_sibling();
    assert_eq!(all_texts(&app.root), vec!["root", "Alpha", "gamma", "gamma", "beta"]);
    let ids = app.root.get_all_nodes();
    assert!(distinct(&ids));
    assert_eq!(ids[2], 4);
    assert_ne!(ids[3], 4);
    assert_eq!(msg(&app), "Pasted as sibling");
    app.paste_as_sibling();
    assert!(distinct(&app.root.get_all_nodes()));
    assert_eq!(app.root.children[0].children.len(), 3);
}

#[test]
fn ranks_and_stars() {
    let mut app = app_with_sample();
    app.active_node_id = 2;
    app.increase_positive_rank();
    app.increase_positive_rank();
    app.increase_negative_rank();
    assert_eq!(app.root.children[0].rank_positive, 2);
    assert_eq!(app.root.children[0].rank_negative, 1);
    for _ in 0..7 {
        app.add_star();
    }
    assert_eq!(app.root.children[0].stars, 5);
    app.remove_star();
    assert_eq!(app.root.children[0].stars, 4);
}

#[test]
fn symbol_toggle_cycles_through_three_states() {
    let mut app = app_with_sample();
    app.toggle_symbol();
    assert_eq!(app.root.symbol, Some('\u{2713}'));
    app.toggle_symbol();
    assert_eq!(app.root.symbol, Some('\u{2717}'));
    app.toggle_symbol();
    assert_eq!(app.root.symbol, None);
    app.root.symbol = Some('x');
    app.toggle_symbol();
    assert_eq!(app.root.symbol, Some('\u{2713}'));
}

#[test]
fn search_and_cycle_results() {
    let mut app = app_with_sample();
    app.enter_search_mode();
    assert_eq!(app.mode, Mode::Search);
    app.search_query = "A".to_string();
    app.perform_search();
    assert_eq!(app.mode, Mode::Normal);
    assert_eq!(app.search_results, vec![2, 4, 3]);
    assert_eq!(app.active_node_id, 2);
    assert_eq!(msg(&app), "Found 3 results");
    app.next_search_result();
    assert_eq!(app.active_node_id, 4);
    assert_eq!(msg(&app), "Result 2 of 3");
    app.next_search_result();
    app.next_search_result();
    assert_eq!(app.current_search_index, 0);
    assert_eq!(msg(&app), "Result 1 of 3");
    app.previous_search_result();
    assert_eq!(app.active_node_id, 3);
    assert_eq!(msg(&app), "Result 3 of 3");
}

#[test]
fn search_without_results() {
    let mut app = app_with_sample();
    app.search_query = "zzz".to_string();
    app.perform_search();
    assert_eq!(msg(&app), "No results found");
    assert!(app.search_results.is_empty());
}

#[test]
fn save_needs_a_file_name() {
    let mut app = app_with_sample();
    assert!(app.prepare_save().is_none());
    assert_eq!(msg(&app), "No filename specified. Use Save As.");
    let job = app.prepare_save_as("out.rmm".to_string());
    assert_eq!(job.filename, "out.rmm");
    assert_eq!(job.content, "root\n\tAlpha\n\t\tgamma\n\tbeta\n");
    app.modified = true;
    app.finish_save(&job.filename);
    assert!(!app.modified);
    assert_eq!(msg(&app), "Saved to out.rmm");
    assert_eq!(app.prepare_save().unwrap().filename, "out.rmm");
}

#[test]
fn collapse_all_keeps_root_open() {
    let mut app = app_with_sample();
    app.collapse_all();
    assert!(!app.root.collapsed);
    assert!(app.root.children[0].collapsed);
    app.expand_all();
    assert!(!app.root.children[0].collapsed);
    app.collapse_to_level(1);
    assert!(app.root.children[1].collapsed);
    app.toggle_collapse();
    assert!(app.root.collapsed);
}

#[test]
fn undo_history_is_bounded() {
    let mut app = app_with_sample();
    app.config.max_undo_steps = 3;
    for _ in 0..10 {
        app.push_undo_state();
    }
    assert_eq!(app.undo_stack.len(), 3);
}

#[test]
fn html_export_nests_lists() {
    let mut app = App::new(None, None);
    app.root = node(1, "a & b", vec![node(2, "<c>", vec![])]);
    let html = app.export_html();
    assert_eq!(
        html,
        "<!DOCTYPE html>\n<html>\n<head>\n  <title>Mind Map</title>\n</head>\n<body>\n  <ul>\n  <li>\n    a &amp; b\n    <ul>\n      <li>&lt;c&gt;</li>\n    </ul>\n  </li>\n  </ul>\n</body>\n</html>"
    );
}

#[test]
fn messages_set_and_clear() {
    let mut app = app_with_sample();
    app.set_message("hi".to_string());
    assert_eq!(msg(&app), "hi");
    app.clear_message();
    assert!(app.message.is_none());
}

#[test]
fn active_node_lookup() {
    let mut app = app_with_sample();
    app.active_node_id = 4;
    assert_eq!(app.get_active_node().unwrap().text, "gamma");
    app.get_active_node_mut().unwrap().text = "G".to_string();
    assert_eq!(app.root.children[0].children[0].text, "G");
    app.active_node_id = 99;
    assert!(app.get_active_node().is_none());
}

#[test]
fn undo_restores_history_message_and_active_node() {
    let mut app = app_with_sample();
    app.active_node_id = 2;
    app.push_undo_state();
    let before: Vec<u128> = app.root.get_all_nodes();
    app.add_child();
    let new_id = app.active_node_id;
    assert_eq!(new_id >> 76 & 0xf, 4);
    assert_eq!(app.undo_stack.len(), 2);
    app.undo();
    assert_eq!(app.root.get_all_nodes(), before);
    assert_eq!(app.undo_stack.len(), 1);
    assert_eq!(msg(&app), "Undo successful");
    assert!(app.root.find_node(app.active_node_id).is_some());
    app.active_node_id = 4;
    app.delete_node();
    app.undo();
    assert_eq!(app.root.get_all_nodes(), before);
    assert_eq!(app.active_node_id, 1);
}

fn place(base: &str, parts: &[&str]) -> Option<(String, Vec<String>)> {
    Some((base.to_string(), parts.iter().map(|p| p.to_string()).collect()))
}

#[test]
fn configuration_file_locations() {
    let h = || Some("/home/u".to_string());
    let e = || Some("/opt/bin".to_string());
    assert_eq!(
        config_location(None, h(), e(), Platform::Other),
        place("/home/u", &[".config", "rust-mind-map", "config.toml"])
    );
    assert_eq!(
        config_location(None, h(), e(), Platform::MacOs),
        place("/home/u", &["Library", "Preferences", "rust-mind-map", "config.toml"])
    );
    assert_eq!(config_location(None, h(), e(), Platform::Windows), place("/opt/bin", &["config.toml"]));
    assert_eq!(
        config_location(Some("/x".to_string()), h(), e(), Platform::MacOs),
        place("/x", &["rust-mind-map", "config.toml"])
    );
    assert_eq!(config_location(None, None, e(), Platform::Other), None);
    assert_eq!(config_location(None, h(), None, Platform::Windows), None);
}

#[test]
fn a_failed_write_is_reported() {
    let mut app = app_with_sample();
    app.modified = true;
    app.fail_save("disk full");
    assert_eq!(msg(&app), "Save error: disk full");
    assert!(app.modified);
}

#[test]
fn added_nodes_get_identifiers_new_to_the_map() {
    let mut app = app_with_sample();
    app.active_node_id = 4;
    for _ in 0..3 {
        let before = app.root.get_all_nodes();
        app.add_sibling();
        app.exit_edit_mode();
        assert!(!before.contains(&app.active_node_id));
        app.add_child();
        app.exit_edit_mode();
        assert!(distinct(&app.root.get_all_nodes()));
    }
}
