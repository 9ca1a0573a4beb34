//! The editor's state and the operations that the keys trigger.
use vstd::prelude::*;
use std::collections::VecDeque;
use crate::tree::{Tree, parent_id_from, lemma_replace_same, lemma_height_child, ids_from};
use crate::node::{Node, views, lemma_views, lemma_views_push, fresh_node, fresh_over, lemma_fresh_over_concat,
    fresh_id};
use crate::laws::{law_append_fresh_keeps_ids_distinct, lemma_ids_from_concat};
use crate::file::{FileManager, lines_readable, parsed_tree, stem_text, serialized};
use crate::text::{decimal, decimal_chars, push_str, push_chars, byte_len};

verus! {

/// The input mode: keys move and edit the tree, edit a node's text, or
/// type a search query.
#[derive(Clone, Copy, Debug, PartialEq, Eq, Structural)]
pub enum Mode {
    Normal,
    Edit,
    Search,
}

/// The editor's settings.
#[derive(Clone, Copy, Debug, PartialEq, Eq, Structural)]
pub struct AppConfig {
    pub max_parent_node_width: usize,
    pub max_leaf_node_width: usize,
    pub line_spacing: usize,
    pub initial_depth: usize,
    pub center_lock: bool,
    pub focus_lock: bool,
    pub max_undo_steps: usize,
    pub auto_save: bool,
}

/// The default settings.
pub open spec fn default_app_config() -> AppConfig {
    AppConfig {
        max_parent_node_width: 25,
        max_leaf_node_width: 55,
        line_spacing: 1,
        initial_depth: 1,
        center_lock: false,
        focus_lock: false,
        max_undo_steps: 24,
        auto_save: false,
    }
}

impl Default for AppConfig {
    fn default() -> (c: AppConfig)
        ensures
            c == default_app_config(),
    {
        AppConfig {
            max_parent_node_width: 25,
            max_leaf_node_width: 55,
            line_spacing: 1,
            initial_depth: 1,
            center_lock: false,
            focus_lock: false,
            max_undo_steps: 24,
            auto_save: false,
        }
    }
}

impl AppConfig {
    /// The settings with the command line's overrides applied.
    pub fn apply_overrides(
        &mut self,
        max_parent_node_width: Option<usize>,
        max_leaf_node_width: Option<usize>,
        auto_save: Option<bool>,
    )
        ensures
            final(self).max_parent_node_width == match max_parent_node_width {
                Some(w) => w,
                None => old(self).max_parent_node_width,
            },
            final(self).max_leaf_node_width == match max_leaf_node_width {
                Some(w) => w,
                None => old(self).max_leaf_node_width,
            },
            final(self).auto_save == match auto_save {
                Some(a) => a,
                None => old(self).auto_save,
            },
            final(self).line_spacing == old(self).line_spacing,
            final(self).initial_depth == old(self).initial_depth,
            final(self).center_lock == old(self).center_lock,
            final(self).focus_lock == old(self).focus_lock,
            final(self).max_undo_steps == old(self).max_undo_steps,
    {
        if let Some(w) = max_parent_node_width {
            self.max_parent_node_width = w;
        }
        if let Some(w) = max_leaf_node_width {
            self.max_leaf_node_width = w;
        }
        if let Some(a) = auto_save {
            self.auto_save = a;
        }
    }
}

/// The editor: the mind map, the active node, the mode and what each mode
/// works on, the clipboard and the undo history.
pub struct App {
    pub root: Node,
    pub active_node_id: u128,
    pub mode: Mode,
    pub config: AppConfig,
    pub file_manager: FileManager,
    pub search_query: String,
    pub search_results: Vec<u128>,
    pub current_search_index: usize,
    pub edit_buffer: String,
    pub edit_cursor: usize,
    pub clipboard: Vec<Node>,
    pub undo_stack: VecDeque<Node>,
    pub message: Option<String>,
    pub should_quit: bool,
    pub modified: bool,
    pub scroll_offset: usize,
}

/// The model of the editor's state.
#[verifier::ext_equal]
pub struct AppState {
    pub root: Tree,
    pub active: u128,
    pub mode: Mode,
    pub config: AppConfig,
    pub filename: Option<Seq<char>>,
    pub search_query: Seq<char>,
    pub search_results: Seq<u128>,
    pub current_search_index: usize,
    pub edit_buffer: Seq<char>,
    pub edit_cursor: usize,
    pub clipboard: Seq<Tree>,
    pub undo_stack: Seq<Tree>,
    pub message: Option<Seq<char>>,
    pub should_quit: bool,
    pub modified: bool,
    pub scroll_offset: usize,
}

impl View for App {
    type V = AppState;

    open spec fn view(&self) -> AppState {
        AppState {
            root: self.root@,
            active: self.active_node_id,
            mode: self.mode,
            config: self.config,
            filename: self.file_manager.filename.deep_view(),
            search_query: self.search_query@,
            search_results: self.search_results@,
            current_search_index: self.current_search_index,
            edit_buffer: self.edit_buffer@,
            edit_cursor: self.edit_cursor,
            clipboard: views(self.clipboard@),
            undo_stack: views(self.undo_stack@),
            message: self.message.deep_view(),
            should_quit: self.should_quit,
            modified: self.modified,
            scroll_offset: self.scroll_offset,
        }
    }
}

/// The state of a new editor on the given tree.
pub open spec fn initial_state(root: Tree, filename: Option<Seq<char>>) -> AppState {
    AppState {
        root,
        active: root.id,
        mode: Mode::Normal,
        config: default_app_config(),
        filename,
        search_query: Seq::empty(),
        search_results: Seq::empty(),
        current_search_index: 0,
        edit_buffer: Seq::empty(),
        edit_cursor: 0,
        clipboard: Seq::empty(),
        undo_stack: Seq::empty(),
        message: None,
        should_quit: false,
        modified: false,
        scroll_offset: 0,
    }
}

impl AppState {
    /// The state with the given status message.
    pub open spec fn with_message(self, m: Seq<char>) -> AppState {
        AppState { message: Some(m), ..self }
    }

    /// The node being worked on.
    pub open spec fn active_node(self) -> Option<Tree> {
        self.root.find(self.active)
    }

    /// The state with the tree saved on the undo history, the oldest saved
    /// tree dropped where the history is full.
    pub open spec fn pushed_undo(self) -> AppState {
        let kept = if self.undo_stack.len() >= self.config.max_undo_steps && self.undo_stack.len() > 0 {
            self.undo_stack.drop_first()
        } else {
            self.undo_stack
        };
        AppState { undo_stack: kept.push(self.root), ..self }
    }

    /// Undo: the last saved tree back, the active node kept where it is in
    /// it (else the root made active).
    pub open spec fn undone(self) -> AppState {
        if self.undo_stack.len() > 0 {
            let prev = self.undo_stack.last();
            let s = AppState { root: prev, undo_stack: self.undo_stack.drop_last(), ..self };
            let s = if prev.find(self.active) is None { AppState { active: prev.id, ..s } } else { s };
            s.with_message("Undo successful"@)
        } else {
            self.with_message("Nothing to undo"@)
        }
    }

    /// Edit mode, the buffer holding the active node's text and the cursor
    /// after its last byte.
    pub open spec fn entered_edit(self) -> AppState {
        let text = match self.active_node() {
            Some(n) => n.text,
            None => Seq::empty(),
        };
        AppState {
            mode: Mode::Edit,
            edit_buffer: text,
            edit_cursor: vstd::utf8::encode_utf8(text).len() as usize,
            ..self
        }
    }

    /// Normal mode, the buffer emptied.
    pub open spec fn cancelled_edit(self) -> AppState {
        AppState { mode: Mode::Normal, edit_buffer: Seq::empty(), edit_cursor: 0, ..self }
    }

    /// The buffer's text given to the active node (the tree first saved on
    /// the undo history), then normal mode.
    pub open spec fn exited_edit(self) -> AppState {
        let s = self.pushed_undo();
        let s = match s.active_node() {
            Some(n) => AppState {
                root: s.root.replace(s.active, Tree { text: self.edit_buffer, ..n }),
                modified: true,
                ..s
            },
            None => s,
        };
        s.cancelled_edit()
    }
}

/// The message that shows which search result is active.
pub open spec fn result_message(i: nat, n: nat) -> Seq<char> {
    "Result "@ + decimal(i + 1) + " of "@ + decimal(n)
}

/// The symbol that follows `s` when it is toggled: none, check mark,
/// cross, none again; any other symbol becomes a check mark.
pub open spec fn next_symbol(s: Option<char>) -> Option<char> {
    match s {
        None => Some('\u{2713}'),
        Some(c) => if c == '\u{2713}' {
            Some('\u{2717}')
        } else if c == '\u{2717}' {
            None
        } else {
            Some('\u{2713}')
        },
    }
}

/// The text of a node that the editor adds.
pub open spec fn new_node_text() -> Seq<char> {
    "New Node"@
}

impl AppState {
    /// Search mode with an empty query.
    pub open spec fn entered_search(self) -> AppState {
        AppState { mode: Mode::Search, search_query: Seq::empty(), ..self }
    }

    /// Normal mode.
    pub open spec fn exited_search(self) -> AppState {
        AppState { mode: Mode::Normal, ..self }
    }

    /// The search run (where the query is not empty): its results kept, the
    /// first made active, the count shown; then normal mode.
    pub open spec fn searched(self) -> AppState {
        let s = if self.search_query.len() == 0 {
            self
        } else {
            let r = self.root.search(self.search_query);
            let s = AppState { search_results: r, current_search_index: 0, ..self };
            if r.len() > 0 {
                AppState { active: r[0], ..s }.with_message("Found "@ + decimal(r.len()) + " results"@)
            } else {
                s.with_message("No results found"@)
            }
        };
        s.exited_search()
    }

    /// The next search result made active, after the last the first.
    pub open spec fn next_result(self) -> AppState {
        let n = self.search_results.len();
        if n > 0 {
            let i = ((self.current_search_index + 1) % (n as int)) as usize;
            AppState { current_search_index: i, active: self.search_results[i as int], ..self }
                .with_message(result_message(i as nat, n))
        } else {
            self
        }
    }

    /// The previous search result made active, before the first the last.
    pub open spec fn previous_result(self) -> AppState {
        let n = self.search_results.len();
        if n > 0 {
            let i = (if self.current_search_index == 0 {
                n - 1
            } else {
                self.current_search_index - 1
            }) as usize;
            AppState { current_search_index: i, active: self.search_results[i as int], ..self }
                .with_message(result_message(i as nat, n))
        } else {
            self
        }
    }

    /// The state with `n` given the new node `fresh` as last child, made
    /// active and opened for editing.
    pub open spec fn with_new_child(self, at: u128, n: Tree, fresh: u128) -> AppState {
        AppState {
            root: self.root.replace(at, n.push_child(fresh_node(fresh, new_node_text()))),
            active: fresh,
            modified: true,
            ..self
        }.entered_edit()
    }

    /// A new sibling of the active node after its siblings (a new child where
    /// the root is active), with identifier `fresh`.
    pub open spec fn added_sibling(self, fresh: u128) -> AppState {
        let s = self.pushed_undo();
        match s.root.parent_id(s.active) {
            Some(pid) => match s.root.find(pid) {
                Some(p) => s.with_new_child(pid, p, fresh),
                None => s,
            },
            None => if s.active == s.root.id {
                AppState {
                    root: s.root.push_child(fresh_node(fresh, new_node_text())),
                    active: fresh,
                    modified: true,
                    ..s
                }.entered_edit()
            } else {
                s
            },
        }
    }

    /// Whether adding a sibling adds a node: the active node's parent is in
    /// the map, or the active node is the root.
    pub open spec fn sibling_addable(self) -> bool {
        match self.root.parent_id(self.active) {
            Some(pid) => self.root.find(pid) is Some,
            None => self.active == self.root.id,
        }
    }

    /// Whether adding a child adds a node: the active node is in the map.
    pub open spec fn child_addable(self) -> bool {
        self.active_node() is Some
    }

    /// A new last child of the active node, with identifier `fresh`.
    pub open spec fn added_child(self, fresh: u128) -> AppState {
        let s = self.pushed_undo();
        match s.active_node() {
            Some(n) => s.with_new_child(s.active, n, fresh),
            None => s,
        }
    }

    /// Whether `copies` are the clipboard's trees with new identifiers: each
    /// the same tree but for its identifiers, which are new to the map and
    /// not repeated.
    pub open spec fn fresh_copies(self, copies: Seq<Tree>) -> bool {
        &&& copies.len() == self.clipboard.len()
        &&& forall|i: int| 0 <= i < copies.len() ==> #[trigger] copies[i].erase_ids() == self.clipboard[i].erase_ids()
        &&& fresh_over(self.root.ids(), ids_from(copies, 0))
    }

    /// Copies of the clipboard's nodes (`copies`) added after the children
    /// of the active node's parent.
    pub open spec fn pasted_sibling(self, copies: Seq<Tree>) -> AppState {
        if self.clipboard.len() == 0 {
            self.with_message("Clipboard is empty"@)
        } else {
            let s = self.pushed_undo();
            match s.root.parent_id(s.active) {
                Some(pid) => match s.root.find(pid) {
                    Some(p) => AppState {
                        root: s.root.replace(pid, p.append_children(copies)),
                        modified: true,
                        ..s
                    }.with_message("Pasted as sibling"@),
                    None => s,
                },
                None => s,
            }
        }
    }

    /// Copies of the clipboard's nodes (`copies`) added after the active
    /// node's children.
    pub open spec fn pasted_child(self, copies: Seq<Tree>) -> AppState {
        if self.clipboard.len() == 0 {
            self.with_message("Clipboard is empty"@)
        } else {
            let s = self.pushed_undo();
            match s.active_node() {
                Some(n) => AppState {
                    root: s.root.replace(s.active, n.append_children(copies)),
                    modified: true,
                    ..s
                }.with_message("Pasted as child"@),
                None => s,
            }
        }
    }

    /// The active node removed from the tree and put on the clipboard, the
    /// root made active; the root itself is not removed.
    pub open spec fn deleted(self) -> AppState {
        if self.active == self.root.id {
            self.with_message("Cannot delete root node"@)
        } else {
            let s = self.pushed_undo();
            match s.root.remove(s.active) {
                Some((r, d)) => AppState {
                    root: r,
                    clipboard: seq![d],
                    active: r.ids()[0],
                    modified: true,
                    ..s
                }.with_message("Node deleted"@),
                None => s,
            }
        }
    }

    /// The active node replaced by `new`.
    pub open spec fn active_replaced(self, new: Tree) -> AppState {
        AppState { root: self.root.replace(self.active, new), ..self }
    }

    /// The active node collapsed or expanded, the other way round.
    pub open spec fn toggled_collapse(self) -> AppState {
        match self.active_node() {
            Some(n) => self.active_replaced(Tree { collapsed: !n.collapsed, ..n }),
            None => self,
        }
    }

    /// The active node copied to the clipboard.
    pub open spec fn copied(self) -> AppState {
        match self.active_node() {
            Some(n) => AppState { clipboard: seq![n], ..self }.with_message("Node copied"@),
            None => self,
        }
    }

    /// The active node's positive rank raised by one.
    pub open spec fn ranked_positive(self) -> AppState {
        let s = self.pushed_undo();
        match s.active_node() {
            Some(n) => AppState {
                modified: true,
                ..s.active_replaced(Tree { rank_positive: (n.rank_positive + 1) as i32, ..n })
            },
            None => s,
        }
    }

    /// The active node's negative rank raised by one.
    pub open spec fn ranked_negative(self) -> AppState {
        let s = self.pushed_undo();
        match s.active_node() {
            Some(n) => AppState {
                modified: true,
                ..s.active_replaced(Tree { rank_negative: (n.rank_negative + 1) as i32, ..n })
            },
            None => s,
        }
    }

    /// One star more on the active node, up to five.
    pub open spec fn starred(self) -> AppState {
        let s = self.pushed_undo();
        match s.active_node() {
            Some(n) => if n.stars < 5 {
                AppState { modified: true, ..s.active_replaced(Tree { stars: (n.stars + 1) as u8, ..n }) }
            } else {
                s
            },
            None => s,
        }
    }

    /// One star less on the active node, down to none.
    pub open spec fn unstarred(self) -> AppState {
        let s = self.pushed_undo();
        match s.active_node() {
            Some(n) => if n.stars > 0 {
                AppState { modified: true, ..s.active_replaced(Tree { stars: (n.stars - 1) as u8, ..n }) }
            } else {
                s
            },
            None => s,
        }
    }

    /// The active node's symbol toggled.
    pub open spec fn symbol_toggled(self) -> AppState {
        let s = self.pushed_undo();
        match s.active_node() {
            Some(n) => AppState {
                modified: true,
                ..s.active_replaced(Tree { symbol: next_symbol(n.symbol), ..n })
            },
            None => s,
        }
    }

    /// Whether the rank or star operations would overflow a rank.
    pub open spec fn positive_rank_full(self) -> bool {
        self.active_node() matches Some(n) && n.rank_positive == i32::MAX
    }

    pub open spec fn negative_rank_full(self) -> bool {
        self.active_node() matches Some(n) && n.rank_negative == i32::MAX
    }
}

impl App {
    /// A new editor. Where a file name and that file's text are given, the
    /// map is read from the text; else it is a single node `root`.
    pub fn new(filename: Option<String>, content: Option<&str>) -> (app: App)
        requires
            content matches Some(c) ==> lines_readable(c@, 0),
        ensures
            app@ == initial_state(app.root@, filename.deep_view()),
            match (filename, content) {
                (Some(f), Some(c)) => app.root@.erase_ids() == parsed_tree(c@, stem_text(f@)),
                _ => app.root@ == fresh_node(app.root.id, "root"@),
            },
    {
        let file_manager = FileManager::new(filename);
        let root = match (&file_manager.filename, content) {
            (Some(f), Some(c)) => file_manager.load_from_file(f.as_str(), c),
            _ => Node::new_root(),
        };
        let active_node_id = root.id;
        let app = App {
            root,
            active_node_id,
            mode: Mode::Normal,
            config: AppConfig::default(),
            file_manager,
            search_query: String::new(),
            search_results: Vec::new(),
            current_search_index: 0,
            edit_buffer: String::new(),
            edit_cursor: 0,
            clipboard: Vec::new(),
            undo_stack: VecDeque::new(),
            message: None,
            should_quit: false,
            modified: false,
            scroll_offset: 0,
        };
        proof {
            assert(views(app.clipboard@) =~= Seq::<Tree>::empty());
            assert(views(app.undo_stack@) =~= Seq::<Tree>::empty());
            assert(app@ =~= initial_state(app.root@, app.file_manager.filename.deep_view()));
        }
        app
    }

    /// Saves the tree on the undo history.
    pub fn push_undo_state(&mut self)
        ensures
            final(self)@ == old(self)@.pushed_undo(),
    {
        if self.undo_stack.len() >= self.config.max_undo_steps {
            self.undo_stack.pop_front();
        }
        let copy = self.root.deep_clone();
        proof {
            lemma_views(self.undo_stack@);
            lemma_views(old(self).undo_stack@);
            lemma_views_push(self.undo_stack@, copy);
            if old(self).undo_stack@.len() >= old(self).config.max_undo_steps && old(self).undo_stack@.len() > 0 {
                assert(views(self.undo_stack@) =~= views(old(self).undo_stack@).drop_first());
            } else {
                assert(views(self.undo_stack@) =~= views(old(self).undo_stack@));
            }
        }
        self.undo_stack.push_back(copy);
        proof {
            assert(self@ =~= old(self)@.pushed_undo());
        }
    }

    /// Restores the last saved tree.
    pub fn undo(&mut self)
        ensures
            final(self)@ == old(self)@.undone(),
    {
        let ghost before = self@;
        proof {
            lemma_views(self.undo_stack@);
        }
        if let Some(previous_state) = self.undo_stack.pop_back() {
            proof {
                lemma_views(self.undo_stack@);
                assert(views(self.undo_stack@) =~= before.undo_stack.drop_last());
            }
            self.root = previous_state;
            if self.root.find_node(self.active_node_id).is_none() {
                self.active_node_id = self.root.id;
            }
            self.set_message("Undo successful".to_owned());
        } else {
            self.set_message("Nothing to undo".to_owned());
        }
        proof {
            assert(self@ =~= before.undone());
        }
    }

    /// The node being worked on.
    pub fn get_active_node(&self) -> (r: Option<&Node>)
        ensures
            match r {
                Some(n) => self@.active_node() == Some(n@),
                None => self@.active_node() is None,
            },
    {
        self.root.find_node(self.active_node_id)
    }

    /// The node being worked on, to be changed in place.
    pub fn get_active_node_mut(&mut self) -> (r: Option<&mut Node>)
        ensures
            r is None ==> old(self)@.active_node() is None && final(self)@ == old(self)@,
            r matches Some(n) ==> old(self)@.active_node() == Some((*n)@),
            r matches Some(n) ==> final(self)@ == (AppState {
                root: old(self)@.root.replace(old(self).active_node_id, (*final(n))@),
                ..old(self)@
            }),
    {
        self.root.find_node_mut(self.active_node_id)
    }

    /// Shows a status message.
    pub fn set_message(&mut self, message: String)
        ensures
            final(self)@ == old(self)@.with_message(message@),
    {
        self.message = Some(message);
        proof {
            assert(self@ =~= old(self)@.with_message(message@));
        }
    }

    /// Hides the status message.
    pub fn clear_message(&mut self)
        ensures
            final(self)@ == (AppState { message: None, ..old(self)@ }),
    {
        self.message = None;
        proof {
            assert(self@ =~= (AppState { message: None, ..old(self)@ }));
        }
    }

    /// Starts editing the active node's text.
    pub fn enter_edit_mode(&mut self)
        ensures
            final(self)@ == old(self)@.entered_edit(),
    {
        let node_text = if let Some(node) = self.get_active_node() {
            node.text.clone()
        } else {
            String::new()
        };
        self.mode = Mode::Edit;
        self.edit_buffer = node_text;
        self.edit_cursor = byte_len(self.edit_buffer.as_str());
        proof {
            assert(self@ =~= old(self)@.entered_edit());
        }
    }

    /// Gives the edited text to the active node and leaves edit mode.
    pub fn exit_edit_mode(&mut self)
        ensures
            final(self)@ == old(self)@.exited_edit(),
    {
        let buffer_clone = self.edit_buffer.clone();
        self.push_undo_state();
        let ghost pushed = self@;
        if let Some(node) = self.root.find_node_mut(self.active_node_id) {
            node.text = buffer_clone;
            self.modified = true;
        }
        self.mode = Mode::Normal;
        self.edit_buffer = String::new();
        self.edit_cursor = 0;
        proof {
            assert(self@ =~= old(self)@.exited_edit());
        }
    }

    /// Leaves edit mode without changing the node.
    pub fn cancel_edit_mode(&mut self)
        ensures
            final(self)@ == old(self)@.cancelled_edit(),
    {
        self.mode = Mode::Normal;
        self.edit_buffer = String::new();
        self.edit_cursor = 0;
        proof {
            assert(self@ =~= old(self)@.cancelled_edit());
        }
    }
}

/// Adds a node `New Node` with the given identifier as the last child.
fn push_new_child(node: &mut Node, id: u128)
    ensures
        final(node)@ == old(node)@.push_child(fresh_node(id, new_node_text())),
{
    let child = Node {
        id,
        text: "New Node".to_owned(),
        children: Vec::new(),
        collapsed: false,
        rank_positive: 0,
        rank_negative: 0,
        stars: 0,
        symbol: None,
        hidden: false,
    };
    proof {
        assert(views(child.children@) =~= Seq::<Tree>::empty());
        lemma_views_push(node.children@, child);
    }
    node.children.push(child);
    proof {
        assert(node@.children =~= old(node)@.children.push(child@));
    }
}

/// Copies of the nodes of `src` with new identifiers, none of them in
/// `avoid` nor repeated; they are added to `avoid`.
fn copies_with_fresh_ids(src: &Vec<Node>, avoid: &mut Vec<u128>) -> (r: Vec<Node>)
    ensures
        views(r@).len() == src@.len(),
        forall|i: int| 0 <= i < src@.len() ==> #[trigger] views(r@)[i].erase_ids() == src@[i]@.erase_ids(),
        final(avoid)@ == old(avoid)@ + ids_from(views(r@), 0),
        fresh_over(old(avoid)@, ids_from(views(r@), 0)),
{
    let mut r: Vec<Node> = Vec::new();
    let n = src.len();
    let mut i: usize = 0;
    let ghost mut acc: Seq<u128> = Seq::empty();
    proof {
        lemma_views(r@);
        assert(fresh_over(old(avoid)@, acc));
        assert(avoid@ =~= old(avoid)@ + acc);
    }
    while i < n
        invariant
            n == src@.len(),
            i <= n,
            r@.len() == i,
            forall|j: int| 0 <= j < i ==> #[trigger] r@[j]@.erase_ids() == src@[j]@.erase_ids(),
            avoid@ == old(avoid)@ + acc,
            acc == ids_from(views(r@), 0),
            fresh_over(old(avoid)@, acc),
        decreases n - i,
    {
        let c = src[i].copy_with_fresh_ids(avoid);
        proof {
            lemma_fresh_over_concat(old(avoid)@, acc, c@.ids());
            lemma_views_push(r@, c);
            lemma_ids_from_concat(views(r@), seq![c@]);
            assert(ids_from(seq![c@], 1) == Seq::<u128>::empty());
            assert(ids_from(seq![c@], 0) =~= c@.ids());
            assert(views(r@.push(c)) =~= views(r@) + seq![c@]);
            assert(avoid@ =~= old(avoid)@ + (acc + c@.ids()));
            acc = acc + c@.ids();
        }
        r.push(c);
        i += 1;
    }
    proof {
        lemma_views(r@);
    }
    r
}

/// "Result `i + 1` of `n`".
fn result_text(i: usize, n: usize) -> (s: String)
    requires
        i < n,
    ensures
        s@ == result_message(i as nat, n as nat),
{
    let mut s = String::new();
    push_str(&mut s, "Result ");
    push_chars(&mut s, &decimal_chars((i + 1) as u64));
    push_str(&mut s, " of ");
    push_chars(&mut s, &decimal_chars(n as u64));
    proof {
        assert(s@ =~= result_message(i as nat, n as nat));
    }
    s
}

impl App {
    /// Starts typing a search query.
    pub fn enter_search_mode(&mut self)
        ensures
            final(self)@ == old(self)@.entered_search(),
    {
        self.mode = Mode::Search;
        self.search_query = String::new();
        proof {
            assert(self@ =~= old(self)@.entered_search());
        }
    }

    /// Leaves search mode.
    pub fn exit_search_mode(&mut self)
        ensures
            final(self)@ == old(self)@.exited_search(),
    {
        self.mode = Mode::Normal;
        proof {
            assert(self@ =~= old(self)@.exited_search());
        }
    }

    /// Runs the search for the typed query.
    pub fn perform_search(&mut self)
        ensures
            final(self)@ == old(self)@.searched(),
    {
        if !self.search_query.as_str().is_empty() {
            self.search_results = self.root.search(self.search_query.as_str());
            self.current_search_index = 0;
            if self.search_results.len() > 0 {
                self.active_node_id = self.search_results[0];
                let mut m = String::new();
                push_str(&mut m, "Found ");
                push_chars(&mut m, &decimal_chars(self.search_results.len() as u64));
                push_str(&mut m, " results");
                self.set_message(m);
            } else {
                self.set_message("No results found".to_owned());
            }
        }
        self.exit_search_mode();
        proof {
            assert(self@ =~= old(self)@.searched());
        }
    }

    /// Makes the next search result active.
    pub fn next_search_result(&mut self)
        requires
            old(self).search_results@.len() > 0 ==> old(self).current_search_index < usize::MAX,
        ensures
            final(self)@ == old(self)@.next_result(),
    {
        if self.search_results.len() > 0 {
            self.current_search_index = (self.current_search_index + 1) % self.search_results.len();
            self.active_node_id = self.search_results[self.current_search_index];
            let m = result_text(self.current_search_index, self.search_results.len());
            self.set_message(m);
        }
        proof {
            assert(self@ =~= old(self)@.next_result());
        }
    }

    /// Makes the previous search result active.
    pub fn previous_search_result(&mut self)
        requires
            old(self).search_results@.len() > 0 ==> old(self).current_search_index <= old(self).search_results@.len(),
        ensures
            final(self)@ == old(self)@.previous_result(),
    {
        if self.search_results.len() > 0 {
            self.current_search_index = if self.current_search_index == 0 {
                self.search_results.len() - 1
            } else {
                self.current_search_index - 1
            };
            self.active_node_id = self.search_results[self.current_search_index];
            let m = result_text(self.current_search_index, self.search_results.len());
            self.set_message(m);
        }
        proof {
            assert(self@ =~= old(self)@.previous_result());
        }
    }

    /// The identifier of the parent of the first node, below the root, with
    /// the given identifier.
    fn find_parent_id(&self, child_id: u128) -> (r: Option<u128>)
        ensures
            r == self@.root.parent_id(child_id),
    {
        Self::find_parent_id_recursive(&self.root, child_id)
    }

    fn find_parent_id_recursive(node: &Node, child_id: u128) -> (r: Option<u128>)
        ensures
            r == node@.parent_id(child_id),
        decreases node,
    {
        proof {
            lemma_views(node.children@);
        }
        let n = node.children.len();
        let mut i: usize = 0;
        while i < n
            invariant
                n == node.children@.len(),
                i <= n,
                views(node.children@).len() == n,
                forall|j: int| 0 <= j < n ==> #[trigger] views(node.children@)[j] == node.children@[j]@,
                node@.parent_id(child_id) == parent_id_from(node@.children, node.id, child_id, i as int),
            decreases n - i,
        {
            if node.children[i].id == child_id {
                return Some(node.id);
            }
            let r = Self::find_parent_id_recursive(&node.children[i], child_id);
            if r.is_some() {
                return r;
            }
            i += 1;
        }
        None
    }

    /// Adds a new node after the active node's siblings and edits it; with
    /// the root active, a new child of the root. The new node's identifier
    /// is new to the map.
    pub fn add_sibling(&mut self)
        ensures
            final(self)@ == old(self)@.added_sibling(final(self).active_node_id),
            old(self)@.sibling_addable() ==> !old(self)@.root.ids().contains(final(self).active_node_id),
            old(self)@.root.ids().no_duplicates() ==> final(self)@.root.ids().no_duplicates(),
    {
        let new_id = fresh_id(&self.root.get_all_nodes());
        self.push_undo_state();
        let ghost x = fresh_node(new_id, new_node_text());
        proof {
            assert(ids_from(seq![x], 1) == Seq::<u128>::empty());
            assert(ids_from(x.children, 0) == Seq::<u128>::empty());
            assert(x.ids() =~= seq![new_id]);
            assert(ids_from(seq![x], 0) =~= seq![new_id]);
        }
        if let Some(parent_id) = self.find_parent_id(self.active_node_id) {
            if let Some(parent) = self.root.find_node_mut(parent_id) {
                push_new_child(parent, new_id);
                self.active_node_id = new_id;
                self.modified = true;
                self.enter_edit_mode();
                proof {
                    let p = old(self)@.root.find(parent_id).unwrap();
                    assert(p.children.push(x) =~= p.children + seq![x]);
                assert(p.push_child(x) =~= p.append_children(seq![x]));
                    if old(self)@.root.ids().no_duplicates() {
                        law_append_fresh_keeps_ids_distinct(old(self)@.root, parent_id, seq![x]);
                    }
                }
            }
        } else if self.active_node_id == self.root.id {
            push_new_child(&mut self.root, new_id);
            self.active_node_id = new_id;
            self.modified = true;
            self.enter_edit_mode();
            proof {
                let r = old(self)@.root;
                assert(r.find(r.id) == Some(r));
                assert(r.replace(r.id, r.push_child(x)) == r.push_child(x));
                assert(r.children.push(x) =~= r.children + seq![x]);
                assert(r.push_child(x) =~= r.append_children(seq![x]));
                if r.ids().no_duplicates() {
                    law_append_fresh_keeps_ids_distinct(r, r.id, seq![x]);
                }
            }
        }
        proof {
            assert(self@ =~= old(self)@.added_sibling(self.active_node_id));
        }
    }

    /// Adds copies of the clipboard's nodes after the active node's siblings;
    /// the copies get identifiers new to the map.
    pub fn paste_as_sibling(&mut self)
        ensures
            exists|copies: Seq<Tree>| old(self)@.fresh_copies(copies) && final(self)@ == old(self)@.pasted_sibling(copies),
            old(self)@.root.ids().no_duplicates() ==> final(self)@.root.ids().no_duplicates(),
    {
        if self.clipboard.len() == 0 {
            proof {
                lemma_views(self.clipboard@);
            }
            self.set_message("Clipboard is empty".to_owned());
            proof {
                assert(old(self)@.fresh_copies(Seq::<Tree>::empty()));
                assert(self@ =~= old(self)@.pasted_sibling(Seq::<Tree>::empty()));
            }
            return;
        }
        proof {
            lemma_views(self.clipboard@);
        }
        let mut avoid = self.root.get_all_nodes();
        let mut copies = copies_with_fresh_ids(&self.clipboard, &mut avoid);
        let ghost cs = views(copies@);
        proof {
            lemma_views(copies@);
            assert(old(self)@.fresh_copies(cs));
        }
        self.push_undo_state();
        if let Some(parent_id) = self.find_parent_id(self.active_node_id) {
            if let Some(parent) = self.root.find_node_mut(parent_id) {
                proof {
                    lemma_views(parent.children@);
                }
                parent.children.append(&mut copies);
                proof {
                    lemma_views(parent.children@);
                    assert(views(parent.children@) =~= old(self)@.root.find(parent_id).unwrap().children + cs);
                }
                self.modified = true;
                self.set_message("Pasted as sibling".to_owned());
            }
        }
        proof {
            assert(self@ =~= old(self)@.pasted_sibling(cs));
            if old(self)@.root.ids().no_duplicates() {
                if let Some(pid) = old(self)@.root.parent_id(old(self)@.active) {
                    if old(self)@.root.find(pid) is Some {
                        law_append_fresh_keeps_ids_distinct(old(self)@.root, pid, cs);
                    }
                }
            }
        }
    }

    /// Adds a new last child to the active node and edits it; its identifier
    /// is new to the map.
    pub fn add_child(&mut self)
        ensures
            final(self)@ == old(self)@.added_child(final(self).active_node_id),
            old(self)@.child_addable() ==> !old(self)@.root.ids().contains(final(self).active_node_id),
            old(self)@.root.ids().no_duplicates() ==> final(self)@.root.ids().no_duplicates(),
    {
        let new_id = fresh_id(&self.root.get_all_nodes());
        self.push_undo_state();
        let ghost x = fresh_node(new_id, new_node_text());
        proof {
            assert(ids_from(seq![x], 1) == Seq::<u128>::empty());
            assert(ids_from(x.children, 0) == Seq::<u128>::empty());
            assert(x.ids() =~= seq![new_id]);
            assert(ids_from(seq![x], 0) =~= seq![new_id]);
        }
        if let Some(node) = self.root.find_node_mut(self.active_node_id) {
            push_new_child(node, new_id);
            self.active_node_id = new_id;
            self.modified = true;
            self.enter_edit_mode();
            proof {
                let n = old(self)@.root.find(old(self)@.active).unwrap();
                assert(n.children.push(x) =~= n.children + seq![x]);
                assert(n.push_child(x) =~= n.append_children(seq![x]));
                if old(self)@.root.ids().no_duplicates() {
                    law_append_fresh_keeps_ids_distinct(old(self)@.root, old(self)@.active, seq![x]);
                }
            }
        }
        proof {
            assert(self@ =~= old(self)@.added_child(self.active_node_id));
        }
    }
}

/// A file to write: its name and its content.
pub struct SaveJob {
    pub filename: String,
    pub content: String,
}

impl App {
    /// Removes the active node, puts it on the clipboard and makes the root
    /// active; the root itself is not removed.
    pub fn delete_node(&mut self)
        ensures
            final(self)@ == old(self)@.deleted(),
    {
        if self.active_node_id == self.root.id {
            self.set_message("Cannot delete root node".to_owned());
            return;
        }
        self.push_undo_state();
        if let Some(deleted_node) = self.root.remove_child(self.active_node_id) {
            let mut clip: Vec<Node> = Vec::new();
            proof {
                lemma_views_push(clip@, deleted_node);
                assert(views(clip@) =~= Seq::<Tree>::empty());
            }
            clip.push(deleted_node);
            self.clipboard = clip;
            let all_nodes = self.root.get_all_nodes();
            if all_nodes.len() > 0 {
                self.active_node_id = all_nodes[0];
            }
            self.modified = true;
            self.set_message("Node deleted".to_owned());
        }
        proof {
            assert(self@ =~= old(self)@.deleted());
        }
    }

    /// Collapses or expands the active node.
    pub fn toggle_collapse(&mut self)
        ensures
            final(self)@ == old(self)@.toggled_collapse(),
    {
        if let Some(node) = self.root.find_node_mut(self.active_node_id) {
            node.collapsed = !node.collapsed;
        }
        proof {
            assert(self@ =~= old(self)@.toggled_collapse());
        }
    }

    /// Copies the active node to the clipboard.
    pub fn copy_node(&mut self)
        ensures
            final(self)@ == old(self)@.copied(),
    {
        if let Some(node) = self.root.find_node(self.active_node_id) {
            let c = node.deep_clone();
            let mut clip: Vec<Node> = Vec::new();
            proof {
                lemma_views_push(clip@, c);
                assert(views(clip@) =~= Seq::<Tree>::empty());
            }
            clip.push(c);
            self.clipboard = clip;
            self.set_message("Node copied".to_owned());
        }
        proof {
            assert(self@ =~= old(self)@.copied());
        }
    }

    /// Adds copies of the clipboard's nodes after the active node's children;
    /// the copies get identifiers new to the map.
    pub fn paste_as_child(&mut self)
        ensures
            exists|copies: Seq<Tree>| old(self)@.fresh_copies(copies) && final(self)@ == old(self)@.pasted_child(copies),
            old(self)@.root.ids().no_duplicates() ==> final(self)@.root.ids().no_duplicates(),
    {
        proof {
            lemma_views(self.clipboard@);
        }
        if self.clipboard.len() == 0 {
            self.set_message("Clipboard is empty".to_owned());
            proof {
                assert(old(self)@.fresh_copies(Seq::<Tree>::empty()));
                assert(self@ =~= old(self)@.pasted_child(Seq::<Tree>::empty()));
            }
            return;
        }
        let mut avoid = self.root.get_all_nodes();
        let mut copies = copies_with_fresh_ids(&self.clipboard, &mut avoid);
        let ghost cs = views(copies@);
        proof {
            lemma_views(copies@);
            assert(old(self)@.fresh_copies(cs));
        }
        self.push_undo_state();
        if let Some(parent) = self.root.find_node_mut(self.active_node_id) {
            proof {
                lemma_views(parent.children@);
            }
            parent.children.append(&mut copies);
            proof {
                lemma_views(parent.children@);
                assert(views(parent.children@) =~= old(self)@.root.find(old(self)@.active).unwrap().children + cs);
            }
            self.modified = true;
            self.set_message("Pasted as child".to_owned());
        }
        proof {
            assert(self@ =~= old(self)@.pasted_child(cs));
            if old(self)@.root.ids().no_duplicates() && old(self)@.root.find(old(self)@.active) is Some {
                law_append_fresh_keeps_ids_distinct(old(self)@.root, old(self)@.active, cs);
            }
        }
    }

    /// Raises the active node's positive rank by one.
    pub fn increase_positive_rank(&mut self)
        requires
            !old(self)@.positive_rank_full(),
        ensures
            final(self)@ == old(self)@.ranked_positive(),
    {
        self.push_undo_state();
        if let Some(node) = self.root.find_node_mut(self.active_node_id) {
            node.rank_positive = node.rank_positive + 1;
            self.modified = true;
        }
        proof {
            assert(self@ =~= old(self)@.ranked_positive());
        }
    }

    /// Raises the active node's negative rank by one.
    pub fn increase_negative_rank(&mut self)
        requires
            !old(self)@.negative_rank_full(),
        ensures
            final(self)@ == old(self)@.ranked_negative(),
    {
        self.push_undo_state();
        if let Some(node) = self.root.find_node_mut(self.active_node_id) {
            node.rank_negative = node.rank_negative + 1;
            self.modified = true;
        }
        proof {
            assert(self@ =~= old(self)@.ranked_negative());
        }
    }

    /// Adds a star to the active node, up to five.
    pub fn add_star(&mut self)
        ensures
            final(self)@ == old(self)@.starred(),
    {
        self.push_undo_state();
        if let Some(node) = self.root.find_node_mut(self.active_node_id) {
            if node.stars < 5 {
                node.stars = node.stars + 1;
                self.modified = true;
            }
        }
        proof {
            if old(self)@.active_node() is Some {
                lemma_replace_same(old(self)@.root, old(self).active_node_id);
            }
            assert(self@ =~= old(self)@.starred());
        }
    }

    /// Removes a star from the active node, down to none.
    pub fn remove_star(&mut self)
        ensures
            final(self)@ == old(self)@.unstarred(),
    {
        self.push_undo_state();
        if let Some(node) = self.root.find_node_mut(self.active_node_id) {
            if node.stars > 0 {
                node.stars = node.stars - 1;
                self.modified = true;
            }
        }
        proof {
            if old(self)@.active_node() is Some {
                lemma_replace_same(old(self)@.root, old(self).active_node_id);
            }
            assert(self@ =~= old(self)@.unstarred());
        }
    }

    /// Toggles the active node's symbol: none, check mark, cross.
    pub fn toggle_symbol(&mut self)
        ensures
            final(self)@ == old(self)@.symbol_toggled(),
    {
        self.push_undo_state();
        if let Some(node) = self.root.find_node_mut(self.active_node_id) {
            node.symbol = match node.symbol {
                None => Some('\u{2713}'),
                Some('\u{2713}') => Some('\u{2717}'),
                Some('\u{2717}') => None,
                _ => Some('\u{2713}'),
            };
            self.modified = true;
        }
        proof {
            assert(self@ =~= old(self)@.symbol_toggled());
        }
    }

    /// Collapses every node but the root.
    pub fn collapse_all(&mut self)
        ensures
            final(self)@ == (AppState {
                root: Tree { collapsed: false, ..old(self)@.root.collapse_all() },
                ..old(self)@
            }),
    {
        self.root.collapse_all();
        self.root.collapsed = false;
        proof {
            assert(self@ =~= (AppState {
                root: Tree { collapsed: false, ..old(self)@.root.collapse_all() },
                ..old(self)@
            }));
        }
    }

    /// Expands every node.
    pub fn expand_all(&mut self)
        ensures
            final(self)@ == (AppState { root: old(self)@.root.expand_all(), ..old(self)@ }),
    {
        self.root.expand_all();
        proof {
            assert(self@ =~= (AppState { root: old(self)@.root.expand_all(), ..old(self)@ }));
        }
    }

    /// Collapses the nodes at the given level or deeper (the root being at
    /// level 0) and expands the others.
    pub fn collapse_to_level(&mut self, level: usize)
        requires
            old(self)@.root.height() < usize::MAX,
        ensures
            final(self)@ == (AppState { root: old(self)@.root.collapse_to_level(level as int, 0), ..old(self)@ }),
    {
        self.root.collapse_to_level(level, 0);
        proof {
            assert(self@ =~= (AppState { root: old(self)@.root.collapse_to_level(level as int, 0), ..old(self)@ }));
        }
    }

    /// What saving writes, where the map has a file name; else the message
    /// that asks for one.
    pub fn prepare_save(&mut self) -> (job: Option<SaveJob>)
        requires
            old(self)@.root.height() < usize::MAX,
        ensures
            match job {
                Some(j) => old(self)@.filename == Some(j.filename@)
                    && j.content@ == serialized(old(self)@.root, 0)
                    && final(self)@ == old(self)@,
                None => old(self)@.filename is None
                    && final(self)@ == old(self)@.with_message("No filename specified. Use Save As."@),
            },
    {
        match &self.file_manager.filename {
            Some(f) => {
                let content = self.file_manager.serialize_tree(&self.root, 0);
                Some(SaveJob { filename: f.clone(), content })
            },
            None => {
                self.set_message("No filename specified. Use Save As.".to_owned());
                None
            },
        }
    }

    /// What saving under a new name writes; the name becomes the map's.
    pub fn prepare_save_as(&mut self, filename: String) -> (job: SaveJob)
        requires
            old(self)@.root.height() < usize::MAX,
        ensures
            job.filename@ == filename@,
            job.content@ == serialized(old(self)@.root, 0),
            final(self)@ == (AppState { filename: Some(filename@), ..old(self)@ }),
    {
        self.file_manager.filename = Some(filename.clone());
        let content = self.file_manager.serialize_tree(&self.root, 0);
        proof {
            assert(self@ =~= (AppState { filename: Some(filename@), ..old(self)@ }));
        }
        SaveJob { filename, content }
    }

    /// Records that the map was written to the given file.
    pub fn finish_save(&mut self, filename: &str)
        ensures
            final(self)@ == (AppState { modified: false, ..old(self)@ }).with_message("Saved to "@ + filename@),
    {
        self.modified = false;
        let mut m = String::new();
        push_str(&mut m, "Saved to ");
        push_str(&mut m, filename);
        self.set_message(m);
        proof {
            assert(self@ =~= (AppState { modified: false, ..old(self)@ }).with_message("Saved to "@ + filename@));
        }
    }

    /// Reports that writing the map failed, with the error's text; the map
    /// stays marked as changed.
    pub fn fail_save(&mut self, error: &str)
        ensures
            final(self)@ == old(self)@.with_message("Save error: "@ + error@),
    {
        let mut m = String::new();
        push_str(&mut m, "Save error: ");
        push_str(&mut m, error);
        self.set_message(m);
    }
}

/// Text as HTML shows it: `&`, `<` and `>` written as entities.
pub open spec fn html_escaped(s: Seq<char>) -> Seq<char>
    decreases s.len(),
{
    if s.len() == 0 {
        Seq::empty()
    } else {
        let c = s[0];
        (if c == '&' {
            "&amp;"@
        } else if c == '<' {
            "&lt;"@
        } else if c == '>' {
            "&gt;"@
        } else {
            seq![c]
        }) + html_escaped(s.drop_first())
    }
}

/// Calls `html_escape::encode_text`, which replaces each `&`, `<` and `>`
/// by `&amp;`, `&lt;` and `&gt;` and keeps every other character: that is
/// what the contract states.
#[verifier::external_body]
fn encode_text(text: &str) -> (r: String)
    ensures
        r@ == html_escaped(text@),
{
    html_escape::encode_text(text).into_owned()
}

/// `2 * n` spaces.
pub open spec fn indent(n: nat) -> Seq<char> {
    Seq::new(2 * n, |i: int| ' ')
}

/// The HTML list item of a subtree at the given indentation level: a leaf
/// on one line, a node with children as an item holding its text and a
/// nested list of its children, two levels deeper.
pub open spec fn node_html(t: Tree, level: nat) -> Seq<char>
    decreases t, 0int,
{
    if t.children.len() == 0 {
        indent(level) + "<li>"@ + html_escaped(t.text) + "</li>\n"@
    } else {
        indent(level) + "<li>\n"@ + indent(level) + "  "@ + html_escaped(t.text) + "\n"@
            + indent(level) + "  <ul>\n"@ + node_html_from(t.children, level + 2, 0)
            + indent(level) + "  </ul>\n"@ + indent(level) + "</li>\n"@
    }
}

pub open spec fn node_html_from(s: Seq<Tree>, level: nat, i: int) -> Seq<char>
    decreases s, s.len() - i,
{
    if 0 <= i < s.len() {
        node_html(s[i], level) + node_html_from(s, level, i + 1)
    } else {
        Seq::empty()
    }
}

/// The HTML page of a mind map: a list with the root's item.
pub open spec fn html_document(root: Tree) -> Seq<char> {
    "<!DOCTYPE html>\n<html>\n<head>\n  <title>Mind Map</title>\n</head>\n<body>\n  <ul>\n"@
        + node_html(root, 1) + "  </ul>\n</body>\n</html>"@
}

fn push_indent(s: &mut String, level: usize)
    requires
        2 * level <= usize::MAX,
    ensures
        final(s)@ == old(s)@ + indent(level as nat),
{
    let n = 2 * level;
    let mut i: usize = 0;
    while i < n
        invariant
            i <= n,
            n == 2 * level,
            s@ == old(s)@ + Seq::new(i as nat, |k: int| ' '),
        decreases n - i,
    {
        push_str(s, " ");
        i += 1;
        proof {
            assert(s@ =~= old(s)@ + Seq::new(i as nat, |k: int| ' ')) by {
                reveal_strlit(" ");
            };
        }
    }
    proof {
        assert(indent(level as nat) =~= Seq::new(n as nat, |k: int| ' '));
    }
}

fn node_to_html(node: &Node, level: usize) -> (r: String)
    requires
        2 * (level + 2 * node@.height()) <= usize::MAX,
    ensures
        r@ == node_html(node@, level as nat),
    decreases node,
{
    let mut html = String::new();
    let n = node.children.len();
    proof {
        lemma_views(node.children@);
    }
    if n == 0 {
        push_indent(&mut html, level);
        push_str(&mut html, "<li>");
        push_str(&mut html, encode_text(node.text.as_str()).as_str());
        push_str(&mut html, "</li>\n");
        proof {
            assert(html@ =~= node_html(node@, level as nat));
        }
        return html;
    }
    proof {
        lemma_height_child(node@.children, 0, 0);
    }
    push_indent(&mut html, level);
    push_str(&mut html, "<li>\n");
    push_indent(&mut html, level);
    push_str(&mut html, "  ");
    push_str(&mut html, encode_text(node.text.as_str()).as_str());
    push_str(&mut html, "\n");
    push_indent(&mut html, level);
    push_str(&mut html, "  <ul>\n");
    let ghost head = html@;
    let mut i: usize = 0;
    while i < n
        invariant
            n == node.children@.len(),
            i <= n,
            2 * (level + 2 * node@.height()) <= usize::MAX,
            node@.height() >= 1,
            views(node.children@).len() == n,
            forall|j: int| 0 <= j < n ==> #[trigger] views(node.children@)[j] == node.children@[j]@,
            html@ + node_html_from(node@.children, (level + 2) as nat, i as int)
                == head + node_html_from(node@.children, (level + 2) as nat, 0),
        decreases n - i,
    {
        proof {
            lemma_height_child(node@.children, 0, i as int);
        }
        let sub = node_to_html(&node.children[i], level + 2);
        proof {
            assert(html@ + sub@ + node_html_from(node@.children, (level + 2) as nat, i + 1)
                =~= html@ + node_html_from(node@.children, (level + 2) as nat, i as int));
        }
        push_str(&mut html, sub.as_str());
        i += 1;
    }
    proof {
        assert(html@ + node_html_from(node@.children, (level + 2) as nat, n as int) =~= html@);
    }
    push_indent(&mut html, level);
    push_str(&mut html, "  </ul>\n");
    push_indent(&mut html, level);
    push_str(&mut html, "</li>\n");
    proof {
        assert(html@ =~= node_html(node@, level as nat));
    }
    html
}

impl App {
    /// The mind map as an HTML page of nested lists.
    pub fn export_html(&self) -> (html: String)
        requires
            2 * (1 + 2 * self@.root.height()) <= usize::MAX,
        ensures
            html@ == html_document(self@.root),
    {
        let mut html = String::new();
        push_str(&mut html, "<!DOCTYPE html>\n<html>\n<head>\n  <title>Mind Map</title>\n</head>\n<body>\n  <ul>\n");
        push_str(&mut html, node_to_html(&self.root, 1).as_str());
        push_str(&mut html, "  </ul>\n</body>\n</html>");
        proof {
            assert(html@ =~= html_document(self@.root));
        }
        html
    }
}

} // verus!
