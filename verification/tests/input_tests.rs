use rust_mind_map::app::{App, Mode};
use rust_mind_map::input::{handle_key_event, key_fails, Action, KeyCode, KeyEvent};
use rust_mind_map::node::Node;

fn node(id: u128, text: &str, children: Vec<Node>) -> Node {
    Node {
        id,
        text: text.to_string(),
        children,
        collapsed: false,
        rank_positive: 0,
        rank_negative: 0,
        stars: 0,
        symbol: None,
        hidden: false,
    }
}

fn app_with_sample() -> App {
    let mut app = App::new(None, None);
    app.root = node(1, "root", vec![node(2, "a", vec![node(4, "c", vec![])]), node(3, "b", vec![])]);
    app.active_node_id = 1;
    app
}

fn key(c: char) -> KeyEvent {
    KeyEvent { code: KeyCode::Char(c), ctrl: false }
}

fn code(k: KeyCode) -> KeyEvent {
    KeyEvent { code: k, ctrl: false }
}

fn press(app: &mut App, k: KeyEvent) -> Action {
    assert!(!key_fails(app, k));
    handle_key_event(app, k)
}

#[test]
fn vim_keys_move_through_the_tree() {
    let mut app = app_with_sample();
    press(&mut app, key('j'));
    assert_eq!(app.active_node_id, 1);
    press(&mut app, key('l'));
    assert_eq!(app.active_node_id, 2);
    press(&mut app, code(KeyCode::Down));
    assert_eq!(app.active_node_id, 3);
    press(&mut app, key('j'));
    assert_eq!(app.active_node_id, 3);
    press(&mut app, key('k'));
    assert_eq!(app.active_node_id, 2);
    press(&mut app, code(KeyCode::Up));
    assert_eq!(app.active_node_id, 2);
    press(&mut app, key('l'));
    assert_eq!(app.active_node_id, 4);
    press(&mut app, key('j'));
    assert_eq!(app.active_node_id, 4);
    press(&mut app, key('h'));
    assert_eq!(app.active_node_id, 2);
    press(&mut app, key('G'));
    assert_eq!(app.active_node_id, 3);
    press(&mut app, key('g'));
    assert_eq!(app.active_node_id, 1);
    press(&mut app, key('G'));
    press(&mut app, key('~'));
    assert_eq!(app.active_node_id, 1);
}

#[test]
fn going_to_a_child_expands_it() {
    let mut app = app_with_sample();
    app.root.children[0].collapsed = true;
    press(&mut app, key('l'));
    assert_eq!(app.active_node_id, 2);
    assert!(!app.root.children[0].collapsed);
    press(&mut app, key('l'));
    assert_eq!(app.active_node_id, 4);
    press(&mut app, key('l'));
    assert_eq!(app.active_node_id, 4);
}

#[test]
fn keys_clear_the_message_in_normal_mode() {
    let mut app = app_with_sample();
    app.set_message("old".to_string());
    press(&mut app, key('j'));
    assert!(app.message.is_none());
    press(&mut app, key('H'));
    assert_eq!(app.message.as_deref(), Some("Move node left not implemented yet"));
}

#[test]
fn quit_asks_when_modified() {
    let mut app = app_with_sample();
    app.modified = true;
    press(&mut app, key('q'));
    assert!(!app.should_quit);
    assert_eq!(app.message.as_deref(), Some("Unsaved changes! Use Q to quit without saving."));
    press(&mut app, key('Q'));
    assert!(app.should_quit);
    let mut app = app_with_sample();
    press(&mut app, key('q'));
    assert!(app.should_quit);
    let mut app = app_with_sample();
    press(&mut app, KeyEvent { code: KeyCode::Char('c'), ctrl: true });
    assert!(app.should_quit);
}

#[test]
fn typing_in_edit_mode() {
    let mut app = app_with_sample();
    app.active_node_id = 3;
    press(&mut app, key('e'));
    assert_eq!(app.mode, Mode::Edit);
    assert_eq!(app.edit_buffer, "b");
    press(&mut app, key('x'));
    assert_eq!(app.edit_buffer, "bx");
    press(&mut app, code(KeyCode::Home));
    press(&mut app, key('>'));
    assert_eq!(app.edit_buffer, ">bx");
    press(&mut app, code(KeyCode::Delete));
    assert_eq!(app.edit_buffer, ">x");
    press(&mut app, code(KeyCode::End));
    press(&mut app, code(KeyCode::Backspace));
    assert_eq!(app.edit_buffer, ">");
    press(&mut app, code(KeyCode::Enter));
    assert_eq!(app.mode, Mode::Normal);
    assert_eq!(app.root.children[1].text, ">");
}

#[test]
fn replace_mode_starts_empty_and_escape_cancels() {
    let mut app = app_with_sample();
    press(&mut app, key('I'));
    assert_eq!(app.mode, Mode::Edit);
    assert_eq!(app.edit_buffer, "");
    assert_eq!(app.edit_cursor, 0);
    press(&mut app, key('z'));
    press(&mut app, code(KeyCode::Esc));
    assert_eq!(app.mode, Mode::Normal);
    assert_eq!(app.root.text, "root");
}

#[test]
fn multibyte_insert_leaves_cursor_inside_a_character() {
    let mut app = app_with_sample();
    press(&mut app, key('I'));
    press(&mut app, key('\u{e9}'));
    assert_eq!(app.edit_buffer, "\u{e9}");
    assert_eq!(app.edit_cursor, 1);
    assert!(key_fails(&app, key('x')));
    assert!(!key_fails(&app, code(KeyCode::Backspace)));
    press(&mut app, code(KeyCode::Backspace));
    assert_eq!(app.edit_buffer, "");
}

#[test]
fn search_mode_keys() {
    let mut app = app_with_sample();
    press(&mut app, key('/'));
    assert_eq!(app.mode, Mode::Search);
    press(&mut app, key('c'));
    press(&mut app, key('x'));
    press(&mut app, code(KeyCode::Backspace));
    assert_eq!(app.search_query, "c");
    press(&mut app, code(KeyCode::Enter));
    assert_eq!(app.mode, Mode::Normal);
    assert_eq!(app.active_node_id, 4);
    assert_eq!(app.message.as_deref(), Some("Found 1 results"));
}

#[test]
fn save_key_hands_back_the_write() {
    let mut app = app_with_sample();
    match press(&mut app, key('s')) {
        Action::Nothing => {},
        Action::Write(_) => panic!("no file name"),
    }
    assert_eq!(app.message.as_deref(), Some("No filename specified. Use Save As."));
    app.file_manager.filename = Some("m.rmm".to_string());
    match press(&mut app, key('s')) {
        Action::Write(job) => {
            assert_eq!(job.filename, "m.rmm");
            assert_eq!(job.content, "root\n\ta\n\t\tc\n\tb\n");
        },
        Action::Nothing => panic!("expected a write"),
    }
}

#[test]
fn editing_keys_change_the_tree() {
    let mut app = app_with_sample();
    app.active_node_id = 3;
    press(&mut app, key('='));
    press(&mut app, key('-'));
    press(&mut app, key('*'));
    press(&mut app, key('t'));
    let b = &app.root.children[1];
    assert_eq!((b.rank_positive, b.rank_negative, b.stars, b.symbol), (1, 1, 1, Some('\u{2713}')));
    press(&mut app, key('u'));
    assert_eq!(app.root.children[1].symbol, None);
    press(&mut app, key('d'));
    assert_eq!(app.root.get_all_nodes(), vec![1, 2, 4]);
    press(&mut app, key('p'));
    let ids = app.root.get_all_nodes();
    assert_eq!(ids.len(), 4);
    assert_eq!(&ids[..3], &[1, 2, 4]);
    assert!(![1, 2, 4].contains(&ids[3]));
    assert_eq!(app.root.children[1].text, "b");
    press(&mut app, key('x'));
    assert_eq!(app.message.as_deref(), Some("HTML export created"));
    press(&mut app, key('Z'));
    assert!(app.root.children[0].collapsed);
    press(&mut app, key('b'));
    assert!(!app.root.children[0].collapsed);
    press(&mut app, key('1'));
    assert!(app.root.children[0].collapsed);
}

#[test]
fn rank_at_maximum_cannot_be_raised() {
    let mut app = app_with_sample();
    app.root.rank_positive = i32::MAX;
    assert!(key_fails(&app, key('=')));
    assert!(!key_fails(&app, key('-')));
}

#[test]
fn help_key_shows_help() {
    let mut app = app_with_sample();
    press(&mut app, key('?'));
    assert!(app.message.as_deref().unwrap().contains("KEYBOARD SHORTCUTS"));
}

#[test]
fn down_then_up_comes_back() {
    let mut app = app_with_sample();
    app.active_node_id = 2;
    press(&mut app, key('j'));
    assert_eq!(app.active_node_id, 3);
    press(&mut app, key('k'));
    assert_eq!(app.active_node_id, 2);
    app.active_node_id = 3;
    press(&mut app, key('k'));
    assert_eq!(app.active_node_id, 2);
    press(&mut app, key('j'));
    assert_eq!(app.active_node_id, 3);
}

#[test]
fn down_goes_to_the_next_sibling_not_into_children() {
    let mut app = App::new(None, None);
    let root = node(10, "R", vec![node(11, "A", vec![node(12, "A1", vec![])]), node(13, "B", vec![])]);
    app.root = root;
    app.active_node_id = 11;
    press(&mut app, key('j'));
    assert_eq!(app.active_node_id, 13);
}

#[test]
fn editing_without_typing_keeps_the_map() {
    let mut app = app_with_sample();
    app.active_node_id = 4;
    press(&mut app, key('e'));
    assert_eq!(app.mode, Mode::Edit);
    press(&mut app, code(KeyCode::Enter));
    assert_eq!(app.mode, Mode::Normal);
    assert_eq!(app.root.find_node(4).unwrap().text, "c");
    assert_eq!(app.root.get_all_nodes(), vec![1, 2, 4, 3]);
    assert!(app.modified);
    assert_eq!(app.undo_stack.len(), 1);
}
