//! The key bindings: what each key does in each mode.
use vstd::prelude::*;
use crate::tree::{Tree, position};
use crate::app::{App, AppState, Mode, SaveJob};
use crate::file::serialized;
use crate::node::lemma_views;
use crate::tree::lemma_replace_same;
use crate::text::{
    char_boundary, utf8, inserted_at, removed_at, string_insert, string_remove, string_pop, push_char,
    byte_len,
};

verus! {

/// A key, as far as the bindings tell keys apart.
#[derive(Clone, Copy, Debug, PartialEq, Eq, Structural)]
pub enum KeyCode {
    Char(char),
    Left,
    Right,
    Up,
    Down,
    Enter,
    Esc,
    Backspace,
    Delete,
    Home,
    End,
    Tab,
    Other,
}

/// A key press: the key, and whether Control was held.
#[derive(Clone, Copy, Debug, PartialEq, Eq, Structural)]
pub struct KeyEvent {
    pub code: KeyCode,
    pub ctrl: bool,
}

/// What the caller has to do after a key: nothing, or write a file (then
/// report the outcome with `App::finish_save` or a message).
pub enum Action {
    Nothing,
    Write(SaveJob),
}

/// The help text.
pub open spec fn help_text() -> Seq<char> {
    "\nKEYBOARD SHORTCUTS:\n\nNavigation:\n  h/\u{2190}  - Go to parent\n  j/\u{2193}  - Go down\n  k/\u{2191}  - Go up  \n  l/\u{2192}  - Go to first child\n  g    - Go to top\n  G    - Go to bottom\n  m/~  - Go to root\n\nEditing:\n  i/a/e/Enter - Edit node\n  I/A/E       - Replace node text\n  o           - Add sibling\n  O/Tab       - Add child\n  d           - Delete node\n  y           - Copy node\n  p           - Paste as child\n  P           - Paste as sibling\n  u           - Undo\n\nTree:\n  Space/z     - Toggle collapse\n  Z           - Collapse all\n  b           - Expand all\n  1-5         - Collapse to level\n\nSearch:\n  /           - Search\n  n           - Next result\n  N           - Previous result\n\nRanking:\n  =           - Increase positive rank\n  -           - Increase negative rank\n  *           - Add star\n  t           - Toggle symbol\n\nFiles:\n  s           - Save\n  S           - Save as\n  x           - Export HTML\n  X           - Export text\n  q           - Quit\n  Q           - Quit without saving\n\nPress any key to close help.\n"@
}

/// Whether a key pastes the clipboard in normal mode.
pub open spec fn key_pastes(key: KeyEvent) -> bool {
    key.code == KeyCode::Char('p') || key.code == KeyCode::Char('P')
}

/// Whether a key adds a node in normal mode.
pub open spec fn key_adds_node(key: KeyEvent) -> bool {
    key.code == KeyCode::Char('o') || key.code == KeyCode::Char('O') || key.code == KeyCode::Tab
}

impl AppState {
    /// Whether a key that adds a node finds where to add it: `o` a sibling
    /// of the active node, the others a child.
    pub open spec fn adds_somewhere(self, key: KeyEvent) -> bool {
        if key.code == KeyCode::Char('o') {
            self.sibling_addable()
        } else {
            self.child_addable()
        }
    }

    /// The active node's parent made active.
    pub open spec fn to_parent(self) -> AppState {
        match self.root.parent(self.active) {
            Some(p) => AppState { active: p.id, ..self },
            None => self,
        }
    }

    /// The sibling after the active node (`forward`) or before it made
    /// active: the siblings being the children of the node that `parent`
    /// gives. The active node stays where it has no parent or no such
    /// sibling.
    pub open spec fn moved_sibling(self, forward: bool) -> AppState {
        match self.root.parent(self.active) {
            Some(p) => match position(p.children, self.active, 0) {
                Some(i) => {
                    let j = if forward { i + 1 } else { i - 1 };
                    if 0 <= j < p.children.len() {
                        AppState { active: p.children[j].id, ..self }
                    } else {
                        self
                    }
                },
                None => self,
            },
            None => self,
        }
    }

    /// The next sibling of the active node made active.
    pub open spec fn moved_down(self) -> AppState {
        self.moved_sibling(true)
    }

    /// The previous sibling of the active node made active.
    pub open spec fn moved_up(self) -> AppState {
        self.moved_sibling(false)
    }

    /// The active node's first child made active and expanded.
    pub open spec fn to_child(self) -> AppState {
        match self.active_node() {
            Some(n) => if n.children.len() > 0 {
                let c = n.children[0].id;
                let s = AppState { active: c, ..self };
                match s.root.find(c) {
                    Some(m) => if m.collapsed {
                        s.active_replaced(Tree { collapsed: false, ..m })
                    } else {
                        s
                    },
                    None => s,
                }
            } else {
                self
            },
            None => self,
        }
    }

    /// The root made active.
    pub open spec fn to_root(self) -> AppState {
        AppState { active: self.root.id, ..self }
    }

    /// The last node, in pre-order, made active.
    pub open spec fn to_bottom(self) -> AppState {
        AppState { active: self.root.ids().last(), ..self }
    }

    /// Edit mode on an empty buffer.
    pub open spec fn entered_replace(self) -> AppState {
        AppState { edit_buffer: Seq::empty(), edit_cursor: 0, ..self.entered_edit() }
    }

    /// Every node but the root collapsed.
    pub open spec fn all_collapsed(self) -> AppState {
        AppState { root: Tree { collapsed: false, ..self.root.collapse_all() }, ..self }
    }

    /// Every node expanded.
    pub open spec fn all_expanded(self) -> AppState {
        AppState { root: self.root.expand_all(), ..self }
    }

    /// Collapsed from the given level on.
    pub open spec fn collapsed_to(self, level: int) -> AppState {
        AppState { root: self.root.collapse_to_level(level, 0), ..self }
    }

    /// Quit requested: refused with a warning where there are unsaved
    /// changes.
    pub open spec fn quit_requested(self) -> AppState {
        if self.modified {
            self.with_message("Unsaved changes! Use Q to quit without saving."@)
        } else {
            AppState { should_quit: true, ..self }
        }
    }

    /// Quit.
    pub open spec fn quit(self) -> AppState {
        AppState { should_quit: true, ..self }
    }

    /// Save requested: nothing changes yet where there is a file name (the
    /// file is written by the caller); else the message that asks for one.
    pub open spec fn save_requested(self) -> AppState {
        if self.filename is Some {
            self
        } else {
            self.with_message("No filename specified. Use Save As."@)
        }
    }

    /// The effect of a key in normal mode; `fresh` is the identifier of a
    /// node that the key adds, `copies` the copies of the clipboard's nodes
    /// that it pastes; before them
    /// node that the key adds.
    pub open spec fn normal_key(self, key: KeyEvent, fresh: u128, copies: Seq<Tree>) -> AppState {
        match key.code {
            KeyCode::Char('h') | KeyCode::Left => self.to_parent(),
            KeyCode::Char('j') | KeyCode::Down => self.moved_down(),
            KeyCode::Char('k') | KeyCode::Up => self.moved_up(),
            KeyCode::Char('l') | KeyCode::Right => self.to_child(),
            KeyCode::Char('H') => self.with_message("Move node left not implemented yet"@),
            KeyCode::Char('J') => self.with_message("Move node down not implemented yet"@),
            KeyCode::Char('K') => self.with_message("Move node up not implemented yet"@),
            KeyCode::Char('L') => self.with_message("Move node right not implemented yet"@),
            KeyCode::Char('i') | KeyCode::Char('a') | KeyCode::Char('e') | KeyCode::Enter => self.entered_edit(),
            KeyCode::Char('I') | KeyCode::Char('A') | KeyCode::Char('E') => self.entered_replace(),
            KeyCode::Char('o') => self.added_sibling(fresh),
            KeyCode::Char('O') | KeyCode::Tab => self.added_child(fresh),
            KeyCode::Char('d') => self.deleted(),
            KeyCode::Char('y') => self.copied(),
            KeyCode::Char('p') => self.pasted_child(copies),
            KeyCode::Char('P') => self.pasted_sibling(copies),
            KeyCode::Char('u') => self.undone(),
            KeyCode::Char(' ') | KeyCode::Char('z') => self.toggled_collapse(),
            KeyCode::Char('Z') => self.all_collapsed(),
            KeyCode::Char('b') => self.all_expanded(),
            KeyCode::Char('1') => self.collapsed_to(1),
            KeyCode::Char('2') => self.collapsed_to(2),
            KeyCode::Char('3') => self.collapsed_to(3),
            KeyCode::Char('4') => self.collapsed_to(4),
            KeyCode::Char('5') => self.collapsed_to(5),
            KeyCode::Char('/') => self.entered_search(),
            KeyCode::Char('n') => self.next_result(),
            KeyCode::Char('N') => self.previous_result(),
            KeyCode::Char('=') => self.ranked_positive(),
            KeyCode::Char('-') => self.ranked_negative(),
            KeyCode::Char('*') => self.starred(),
            KeyCode::Char('t') => self.symbol_toggled(),
            KeyCode::Char('s') => self.save_requested(),
            KeyCode::Char('S') => self.with_message("Save As not implemented yet"@),
            KeyCode::Char('x') => self.with_message("HTML export created"@),
            KeyCode::Char('X') => self.with_message("Text export not implemented yet"@),
            KeyCode::Char('g') => self.to_root(),
            KeyCode::Char('G') => self.to_bottom(),
            KeyCode::Char('m') | KeyCode::Char('~') => self.to_root(),
            KeyCode::Char('?') => self.with_message(help_text()),
            KeyCode::Char('q') => self.quit_requested(),
            KeyCode::Char('Q') => self.quit(),
            _ => if key.ctrl {
                match key.code {
                    KeyCode::Char('c') => self.quit(),
                    KeyCode::Char('f') => self.entered_search(),
                    _ => self,
                }
            } else {
                self
            },
        }
    }

    /// Where a key in normal mode cannot be handled: a rank at its maximum,
    /// a search index out of its range, or a tree too deep to be laid out.
    pub open spec fn normal_key_fails(self, key: KeyEvent) -> bool {
        match key.code {
            KeyCode::Char('=') => self.positive_rank_full(),
            KeyCode::Char('-') => self.negative_rank_full(),
            KeyCode::Char('n') => self.search_results.len() > 0 && self.current_search_index == usize::MAX,
            KeyCode::Char('N') => self.search_results.len() > 0
                && self.current_search_index > self.search_results.len(),
            KeyCode::Char('s') | KeyCode::Char('1') | KeyCode::Char('2') | KeyCode::Char('3')
            | KeyCode::Char('4') | KeyCode::Char('5') => self.root.height() >= usize::MAX,
            KeyCode::Char('x') => 2 * (1 + 2 * self.root.height()) > usize::MAX,
            _ => false,
        }
    }

    /// The effect of a key in edit mode; the cursor is a byte position in
    /// the buffer.
    pub open spec fn edit_key(self, key: KeyEvent) -> AppState {
        let len = utf8(self.edit_buffer).len();
        let cur = self.edit_cursor;
        match key.code {
            KeyCode::Esc => self.cancelled_edit(),
            KeyCode::Enter => self.exited_edit(),
            KeyCode::Backspace => if cur > 0 {
                AppState {
                    edit_buffer: removed_at(self.edit_buffer, cur - 1),
                    edit_cursor: (cur - 1) as usize,
                    ..self
                }
            } else {
                self
            },
            KeyCode::Delete => if cur < len {
                AppState { edit_buffer: removed_at(self.edit_buffer, cur as int), ..self }
            } else {
                self
            },
            KeyCode::Left => if cur > 0 {
                AppState { edit_cursor: (cur - 1) as usize, ..self }
            } else {
                self
            },
            KeyCode::Right => if cur < len {
                AppState { edit_cursor: (cur + 1) as usize, ..self }
            } else {
                self
            },
            KeyCode::Home => AppState { edit_cursor: 0, ..self },
            KeyCode::End => AppState { edit_cursor: len as usize, ..self },
            KeyCode::Char(c) => AppState {
                edit_buffer: inserted_at(self.edit_buffer, cur as int, c),
                edit_cursor: (cur + 1) as usize,
                ..self
            },
            _ => self,
        }
    }

    /// Where a key in edit mode cannot be handled: a removal or insertion at
    /// a byte position that is not a character boundary.
    pub open spec fn edit_key_fails(self, key: KeyEvent) -> bool {
        let len = utf8(self.edit_buffer).len();
        let cur = self.edit_cursor;
        match key.code {
            KeyCode::Backspace => cur > 0 && !(cur - 1 < len && char_boundary(self.edit_buffer, cur - 1)),
            KeyCode::Delete => cur < len && !char_boundary(self.edit_buffer, cur as int),
            KeyCode::Char(_) => !char_boundary(self.edit_buffer, cur as int) || cur == usize::MAX,
            _ => false,
        }
    }

    /// The effect of a key in search mode.
    pub open spec fn search_key(self, key: KeyEvent) -> AppState {
        match key.code {
            KeyCode::Esc => self.exited_search(),
            KeyCode::Enter => self.searched(),
            KeyCode::Backspace => if self.search_query.len() > 0 {
                AppState { search_query: self.search_query.drop_last(), ..self }
            } else {
                self
            },
            KeyCode::Char(c) => AppState { search_query: self.search_query.push(c), ..self },
            _ => self,
        }
    }

    /// The effect of a key; `fresh` is the identifier of a node that the key
    /// adds. In normal mode the status message is cleared first.
    pub open spec fn after_key(self, key: KeyEvent, fresh: u128, copies: Seq<Tree>) -> AppState {
        match self.mode {
            Mode::Normal => AppState { message: None, ..self }.normal_key(key, fresh, copies),
            Mode::Edit => self.edit_key(key),
            Mode::Search => self.search_key(key),
        }
    }

    /// Where a key cannot be handled.
    pub open spec fn key_fails(self, key: KeyEvent) -> bool {
        match self.mode {
            Mode::Normal => self.normal_key_fails(key),
            Mode::Edit => self.edit_key_fails(key),
            Mode::Search => false,
        }
    }

    /// Whether a key asks for the map to be written to its file.
    pub open spec fn key_writes(self, key: KeyEvent) -> bool {
        self.mode == Mode::Normal && key.code == KeyCode::Char('s') && self.filename is Some
    }
}

/// Makes the active node's parent active.
pub fn navigate_to_parent(app: &mut App)
    ensures
        final(app)@ == old(app)@.to_parent(),
{
    if let Some(parent) = app.root.find_parent(app.active_node_id) {
        app.active_node_id = parent.id;
    }
    proof {
        assert(app@ =~= old(app)@.to_parent());
    }
}

/// Makes the active node's next sibling (`forward`) or previous one
/// active.
fn navigate_sibling(app: &mut App, forward: bool)
    ensures
        final(app)@ == old(app)@.moved_sibling(forward),
{
    let mut target: Option<u128> = None;
    if let Some(parent) = app.root.find_parent(app.active_node_id) {
        proof {
            lemma_views(parent.children@);
        }
        if let Some(i) = parent.child_position(app.active_node_id) {
            if forward {
                if i < parent.children.len() && parent.children.len() - i > 1 {
                    target = Some(parent.children[i + 1].id);
                }
            } else if i > 0 {
                target = Some(parent.children[i - 1].id);
            }
        }
    }
    if let Some(id) = target {
        app.active_node_id = id;
    }
    proof {
        assert(app@ =~= old(app)@.moved_sibling(forward));
    }
}

/// Makes the active node's next sibling active.
pub fn navigate_down(app: &mut App)
    ensures
        final(app)@ == old(app)@.moved_down(),
{
    navigate_sibling(app, true);
}

/// Makes the active node's previous sibling active.
pub fn navigate_up(app: &mut App)
    ensures
        final(app)@ == old(app)@.moved_up(),
{
    navigate_sibling(app, false);
}

/// Makes the active node's first child active and expands it.
pub fn navigate_to_child(app: &mut App)
    ensures
        final(app)@ == old(app)@.to_child(),
{
    let mut first: Option<u128> = None;
    if let Some(node) = app.root.find_node(app.active_node_id) {
        if node.children.len() > 0 {
            proof {
                lemma_views(node.children@);
            }
            first = Some(node.children[0].id);
        }
    }
    if let Some(c) = first {
        app.active_node_id = c;
        if let Some(node_mut) = app.root.find_node_mut(c) {
            if node_mut.collapsed {
                node_mut.collapsed = false;
            }
        }
        proof {
            if old(app)@.root.find(c) is Some {
                lemma_replace_same(old(app)@.root, c);
            }
        }
    }
    proof {
        assert(app@ =~= old(app)@.to_child());
    }
}

/// Makes the root active.
pub fn navigate_to_root(app: &mut App)
    ensures
        final(app)@ == old(app)@.to_root(),
{
    app.active_node_id = app.root.id;
    proof {
        assert(app@ =~= old(app)@.to_root());
    }
}

/// Makes the first node, in pre-order, active: the root.
pub fn navigate_to_top(app: &mut App)
    ensures
        final(app)@ == old(app)@.to_root(),
{
    let all_nodes = app.root.get_all_nodes();
    if all_nodes.len() > 0 {
        app.active_node_id = all_nodes[0];
    }
    proof {
        assert(app@ =~= old(app)@.to_root());
    }
}

/// Makes the last node, in pre-order, active.
pub fn navigate_to_bottom(app: &mut App)
    ensures
        final(app)@ == old(app)@.to_bottom(),
{
    let all_nodes = app.root.get_all_nodes();
    if all_nodes.len() > 0 {
        app.active_node_id = all_nodes[all_nodes.len() - 1];
    }
    proof {
        assert(app@ =~= old(app)@.to_bottom());
    }
}

pub fn move_node_left(app: &mut App)
    ensures
        final(app)@ == old(app)@.with_message("Move node left not implemented yet"@),
{
    app.set_message("Move node left not implemented yet".to_owned());
}

pub fn move_node_right(app: &mut App)
    ensures
        final(app)@ == old(app)@.with_message("Move node right not implemented yet"@),
{
    app.set_message("Move node right not implemented yet".to_owned());
}

pub fn move_node_up(app: &mut App)
    ensures
        final(app)@ == old(app)@.with_message("Move node up not implemented yet"@),
{
    app.set_message("Move node up not implemented yet".to_owned());
}

pub fn move_node_down(app: &mut App)
    ensures
        final(app)@ == old(app)@.with_message("Move node down not implemented yet"@),
{
    app.set_message("Move node down not implemented yet".to_owned());
}

/// Shows the key bindings.
pub fn show_help(app: &mut App)
    ensures
        final(app)@ == old(app)@.with_message(help_text()),
{
    app.set_message("\nKEYBOARD SHORTCUTS:\n\nNavigation:\n  h/\u{2190}  - Go to parent\n  j/\u{2193}  - Go down\n  k/\u{2191}  - Go up  \n  l/\u{2192}  - Go to first child\n  g    - Go to top\n  G    - Go to bottom\n  m/~  - Go to root\n\nEditing:\n  i/a/e/Enter - Edit node\n  I/A/E       - Replace node text\n  o           - Add sibling\n  O/Tab       - Add child\n  d           - Delete node\n  y           - Copy node\n  p           - Paste as child\n  P           - Paste as sibling\n  u           - Undo\n\nTree:\n  Space/z     - Toggle collapse\n  Z           - Collapse all\n  b           - Expand all\n  1-5         - Collapse to level\n\nSearch:\n  /           - Search\n  n           - Next result\n  N           - Previous result\n\nRanking:\n  =           - Increase positive rank\n  -           - Increase negative rank\n  *           - Add star\n  t           - Toggle symbol\n\nFiles:\n  s           - Save\n  S           - Save as\n  x           - Export HTML\n  X           - Export text\n  q           - Quit\n  Q           - Quit without saving\n\nPress any key to close help.\n".to_owned());
}

/// Handles a key in edit mode.
pub fn handle_edit_mode(app: &mut App, key: KeyEvent)
    requires
        !old(app)@.edit_key_fails(key),
    ensures
        final(app)@ == old(app)@.edit_key(key),
{
    let len = byte_len(app.edit_buffer.as_str());
    match key.code {
        KeyCode::Esc => app.cancel_edit_mode(),
        KeyCode::Enter => app.exit_edit_mode(),
        KeyCode::Backspace => {
            if app.edit_cursor > 0 {
                string_remove(&mut app.edit_buffer, app.edit_cursor - 1);
                app.edit_cursor = app.edit_cursor - 1;
            }
        },
        KeyCode::Delete => {
            if app.edit_cursor < len {
                string_remove(&mut app.edit_buffer, app.edit_cursor);
            }
        },
        KeyCode::Left => {
            if app.edit_cursor > 0 {
                app.edit_cursor = app.edit_cursor - 1;
            }
        },
        KeyCode::Right => {
            if app.edit_cursor < len {
                app.edit_cursor = app.edit_cursor + 1;
            }
        },
        KeyCode::Home => app.edit_cursor = 0,
        KeyCode::End => app.edit_cursor = len,
        KeyCode::Char(c) => {
            string_insert(&mut app.edit_buffer, app.edit_cursor, c);
            app.edit_cursor = app.edit_cursor + 1;
        },
        _ => {},
    }
    proof {
        assert(app@ =~= old(app)@.edit_key(key));
    }
}

/// Handles a key in search mode.
pub fn handle_search_mode(app: &mut App, key: KeyEvent)
    ensures
        final(app)@ == old(app)@.search_key(key),
{
    match key.code {
        KeyCode::Esc => app.exit_search_mode(),
        KeyCode::Enter => app.perform_search(),
        KeyCode::Backspace => {
            string_pop(&mut app.search_query);
        },
        KeyCode::Char(c) => {
            push_char(&mut app.search_query, c);
        },
        _ => {},
    }
    proof {
        assert(app@ =~= old(app)@.search_key(key));
    }
}

/// Handles a key in normal mode; where the key asks for the map to be
/// saved under its file name, the write is handed back to the caller.
pub fn handle_normal_mode(app: &mut App, key: KeyEvent) -> (action: Action)
    requires
        !old(app)@.normal_key_fails(key),
    ensures
        exists|copies: Seq<Tree>|
            #![trigger old(app)@.normal_key(key, final(app).active_node_id, copies)]
            (key_pastes(key) ==> old(app)@.fresh_copies(copies))
                && final(app)@ == old(app)@.normal_key(key, final(app).active_node_id, copies),
        key_pastes(key) && old(app)@.root.ids().no_duplicates() ==> final(app)@.root.ids().no_duplicates(),
        key_adds_node(key) && old(app)@.adds_somewhere(key) ==> !old(app)@.root.ids().contains(
            final(app).active_node_id,
        ),
        key_adds_node(key) && old(app)@.root.ids().no_duplicates() ==> final(app)@.root.ids().no_duplicates(),
        match action {
            Action::Write(job) => key.code == KeyCode::Char('s') && old(app)@.filename == Some(job.filename@)
                && job.content@ == serialized(old(app)@.root, 0),
            Action::Nothing => !(key.code == KeyCode::Char('s') && old(app)@.filename is Some),
        },
{
    if key.code == KeyCode::Char('p') {
        app.paste_as_child();
        proof {
            let c = choose|c: Seq<Tree>| old(app)@.fresh_copies(c) && app@ == old(app)@.pasted_child(c);
            assert(app@ == old(app)@.normal_key(key, app.active_node_id, c));
        }
        return Action::Nothing;
    }
    if key.code == KeyCode::Char('P') {
        app.paste_as_sibling();
        proof {
            let c = choose|c: Seq<Tree>| old(app)@.fresh_copies(c) && app@ == old(app)@.pasted_sibling(c);
            assert(app@ == old(app)@.normal_key(key, app.active_node_id, c));
        }
        return Action::Nothing;
    }
    let action = handle_unpasting_key(app, key);
    proof {
        assert(app@ == old(app)@.normal_key(key, app.active_node_id, Seq::<Tree>::empty()));
    }
    action
}

/// Handles a key in normal mode that does not paste.
fn handle_unpasting_key(app: &mut App, key: KeyEvent) -> (action: Action)
    requires
        !old(app)@.normal_key_fails(key),
        !key_pastes(key),
    ensures
        final(app)@ == old(app)@.normal_key(key, final(app).active_node_id, Seq::<Tree>::empty()),
        key_adds_node(key) && old(app)@.adds_somewhere(key) ==> !old(app)@.root.ids().contains(
            final(app).active_node_id,
        ),
        key_adds_node(key) && old(app)@.root.ids().no_duplicates() ==> final(app)@.root.ids().no_duplicates(),
        match action {
            Action::Write(job) => key.code == KeyCode::Char('s') && old(app)@.filename == Some(job.filename@)
                && job.content@ == serialized(old(app)@.root, 0),
            Action::Nothing => !(key.code == KeyCode::Char('s') && old(app)@.filename is Some),
        },
{
    let mut action = Action::Nothing;
    match key.code {
        KeyCode::Char('h') | KeyCode::Left => navigate_to_parent(app),
        KeyCode::Char('j') | KeyCode::Down => navigate_down(app),
        KeyCode::Char('k') | KeyCode::Up => navigate_up(app),
        KeyCode::Char('l') | KeyCode::Right => navigate_to_child(app),
        KeyCode::Char('H') => move_node_left(app),
        KeyCode::Char('J') => move_node_down(app),
        KeyCode::Char('K') => move_node_up(app),
        KeyCode::Char('L') => move_node_right(app),
        KeyCode::Char('i') | KeyCode::Char('a') | KeyCode::Char('e') | KeyCode::Enter => {
            app.enter_edit_mode();
        },
        KeyCode::Char('I') | KeyCode::Char('A') | KeyCode::Char('E') => {
            app.enter_edit_mode();
            app.edit_buffer = String::new();
            app.edit_cursor = 0;
        },
        KeyCode::Char('o') => app.add_sibling(),
        KeyCode::Char('O') | KeyCode::Tab => app.add_child(),
        KeyCode::Char('d') => app.delete_node(),
        KeyCode::Char('y') => app.copy_node(),
        KeyCode::Char('u') => app.undo(),
        KeyCode::Char(' ') | KeyCode::Char('z') => app.toggle_collapse(),
        KeyCode::Char('Z') => app.collapse_all(),
        KeyCode::Char('b') => app.expand_all(),
        KeyCode::Char('1') => app.collapse_to_level(1),
        KeyCode::Char('2') => app.collapse_to_level(2),
        KeyCode::Char('3') => app.collapse_to_level(3),
        KeyCode::Char('4') => app.collapse_to_level(4),
        KeyCode::Char('5') => app.collapse_to_level(5),
        KeyCode::Char('/') => app.enter_search_mode(),
        KeyCode::Char('n') => app.next_search_result(),
        KeyCode::Char('N') => app.previous_search_result(),
        KeyCode::Char('=') => app.increase_positive_rank(),
        KeyCode::Char('-') => app.increase_negative_rank(),
        KeyCode::Char('*') => app.add_star(),
        KeyCode::Char('t') => app.toggle_symbol(),
        KeyCode::Char('s') => {
            if let Some(job) = app.prepare_save() {
                action = Action::Write(job);
            }
        },
        KeyCode::Char('S') => app.set_message("Save As not implemented yet".to_owned()),
        KeyCode::Char('x') => {
            let _html = app.export_html();
            app.set_message("HTML export created".to_owned());
        },
        KeyCode::Char('X') => app.set_message("Text export not implemented yet".to_owned()),
        KeyCode::Char('g') => navigate_to_top(app),
        KeyCode::Char('G') => navigate_to_bottom(app),
        KeyCode::Char('m') | KeyCode::Char('~') => navigate_to_root(app),
        KeyCode::Char('?') => show_help(app),
        KeyCode::Char('q') => {
            if app.modified {
                app.set_message("Unsaved changes! Use Q to quit without saving.".to_owned());
            } else {
                app.should_quit = true;
            }
        },
        KeyCode::Char('Q') => app.should_quit = true,
        _ => {
            if key.ctrl {
                match key.code {
                    KeyCode::Char('c') => app.should_quit = true,
                    KeyCode::Char('f') => app.enter_search_mode(),
                    _ => {},
                }
            }
        },
    }
    proof {
        assert(app@ =~= old(app)@.normal_key(key, app.active_node_id, Seq::<Tree>::empty()));
    }
    action
}

/// Handles a key: in normal mode the status message is cleared first.
pub fn handle_key_event(app: &mut App, key: KeyEvent) -> (action: Action)
    requires
        !old(app)@.key_fails(key),
    ensures
        exists|copies: Seq<Tree>|
            #![trigger old(app)@.after_key(key, final(app).active_node_id, copies)]
            (old(app).mode == Mode::Normal && key_pastes(key) ==> old(app)@.fresh_copies(copies))
                && final(app)@ == old(app)@.after_key(key, final(app).active_node_id, copies),
        old(app).mode == Mode::Normal && key_pastes(key) && old(app)@.root.ids().no_duplicates()
            ==> final(app)@.root.ids().no_duplicates(),
        old(app).mode == Mode::Normal && key_adds_node(key) && old(app)@.adds_somewhere(key)
            ==> !old(app)@.root.ids().contains(final(app).active_node_id),
        old(app).mode == Mode::Normal && key_adds_node(key) && old(app)@.root.ids().no_duplicates()
            ==> final(app)@.root.ids().no_duplicates(),
        match action {
            Action::Write(job) => old(app)@.key_writes(key) && old(app)@.filename == Some(job.filename@)
                && job.content@ == serialized(old(app)@.root, 0),
            Action::Nothing => !old(app)@.key_writes(key),
        },
{
    match app.mode {
        Mode::Normal => {
            app.clear_message();
            let ghost cleared = app@;
            let action = handle_normal_mode(app, key);
            proof {
                let c = choose|c: Seq<Tree>|
                    (key_pastes(key) ==> cleared.fresh_copies(c)) && app@ == cleared.normal_key(
                        key,
                        app.active_node_id,
                        c,
                    );
                assert(cleared == AppState { message: None, ..old(app)@ });
                assert(app@ == old(app)@.after_key(key, app.active_node_id, c));
            }
            action
        },
        Mode::Edit => {
            handle_edit_mode(app, key);
            proof {
                assert(app@ == old(app)@.after_key(key, app.active_node_id, Seq::<Tree>::empty()));
            }
            Action::Nothing
        },
        Mode::Search => {
            handle_search_mode(app, key);
            proof {
                assert(app@ == old(app)@.after_key(key, app.active_node_id, Seq::<Tree>::empty()));
            }
            Action::Nothing
        },
    }
}

/// Whether `handle_key_event` cannot handle the key in the editor's state
/// (see `AppState::key_fails`).
pub fn key_fails(app: &App, key: KeyEvent) -> (b: bool)
    ensures
        b == app@.key_fails(key),
{
    match app.mode {
        Mode::Normal => match key.code {
            KeyCode::Char('=') => match app.get_active_node() {
                Some(n) => n.rank_positive == i32::MAX,
                None => false,
            },
            KeyCode::Char('-') => match app.get_active_node() {
                Some(n) => n.rank_negative == i32::MAX,
                None => false,
            },
            KeyCode::Char('n') => app.search_results.len() > 0 && app.current_search_index == usize::MAX,
            KeyCode::Char('N') => app.search_results.len() > 0
                && app.current_search_index > app.search_results.len(),
            KeyCode::Char('s') | KeyCode::Char('1') | KeyCode::Char('2') | KeyCode::Char('3')
            | KeyCode::Char('4') | KeyCode::Char('5') => app.root.height() == usize::MAX,
            KeyCode::Char('x') => {
                let h = app.root.height();
                h == usize::MAX || (h as u128) * 4 + 2 > usize::MAX as u128
            },
            _ => false,
        },
        Mode::Edit => {
            let buf = app.edit_buffer.as_str();
            let len = byte_len(buf);
            let cur = app.edit_cursor;
            match key.code {
                KeyCode::Backspace => cur > 0 && !(cur - 1 < len && buf.is_char_boundary(cur - 1)),
                KeyCode::Delete => cur < len && !buf.is_char_boundary(cur),
                KeyCode::Char(_) => !buf.is_char_boundary(cur) || cur == usize::MAX,
                _ => false,
            }
        },
        Mode::Search => false,
    }
}

} // verus!
