//! What the screen shows: the rows of the tree view with their styles, the
//! status bar's text, the popups' texts, and where a popup goes.
use vstd::prelude::*;
use crate::tree::Tree;
use crate::node::{Node, views, lemma_views};
use crate::app::{App, AppState, Mode};
use crate::text::{decimal, decimal_chars, push_str, push_chars, push_char};

verus! {

/// The colours that the screen uses.
#[derive(Clone, Copy, Debug, PartialEq, Eq, Structural)]
pub enum Color {
    Green,
    Red,
    Yellow,
    Black,
    Cyan,
    LightYellow,
    Blue,
    White,
}

/// How a piece of text is drawn.
#[derive(Clone, Copy, Debug, PartialEq, Eq, Structural)]
pub struct SpanStyle {
    pub fg: Option<Color>,
    pub bg: Option<Color>,
    pub bold: bool,
}

/// No colour, not bold.
pub open spec fn plain_style() -> SpanStyle {
    SpanStyle { fg: None, bg: None, bold: false }
}

/// A piece of text of a row, with its style.
pub struct StyledSpan {
    pub text: String,
    pub style: SpanStyle,
}

/// The model of a span: its characters and its style.
pub struct SpanView {
    pub text: Seq<char>,
    pub style: SpanStyle,
}

impl View for StyledSpan {
    type V = SpanView;

    open spec fn view(&self) -> SpanView {
        SpanView { text: self.text@, style: self.style }
    }
}

pub open spec fn span(text: Seq<char>, style: SpanStyle) -> SpanView {
    SpanView { text, style }
}

/// The models of a list of rows.
pub open spec fn rows_view(rows: Seq<Vec<StyledSpan>>) -> Seq<Seq<SpanView>> {
    rows.map_values(|row: Vec<StyledSpan>| row@.map_values(|sp: StyledSpan| sp@))
}

/// An integer as `{}` prints it.
pub open spec fn int_text(x: int) -> Seq<char> {
    if x < 0 {
        "-"@ + decimal((-x) as nat)
    } else {
        decimal(x as nat)
    }
}

/// `2 * n` spaces.
pub open spec fn spaces(n: nat) -> Seq<char> {
    Seq::new(2 * n, |i: int| ' ')
}

/// `n` stars.
pub open spec fn star_run(n: nat) -> Seq<char> {
    Seq::new(n, |i: int| '\u{2605}')
}

/// The style of a node's text: bold where it is active, black on yellow
/// where it is a search result.
pub open spec fn text_style(t: Tree, active: u128, results: Seq<u128>) -> SpanStyle {
    let s = SpanStyle { bold: t.id == active, ..plain_style() };
    if results.contains(t.id) {
        SpanStyle { bg: Some(Color::Yellow), fg: Some(Color::Black), ..s }
    } else {
        s
    }
}

/// The colour of a rank: green where the positive one is the larger, red
/// where the negative one is, yellow where they are equal.
pub open spec fn rank_color(rp: i32, rn: i32) -> Color {
    if rp > -rn {
        Color::Green
    } else if rp < -rn {
        Color::Red
    } else {
        Color::Yellow
    }
}

/// The row of a node at the given level: indentation, a collapse marker (a
/// blank for a leaf), the symbol, the text, then the rank, the stars and,
/// for a collapsed node, its number of children.
pub open spec fn node_row(t: Tree, active: u128, results: Seq<u128>, level: nat) -> Seq<SpanView> {
    let marker = if t.children.len() > 0 {
        if t.collapsed {
            "\u{25b6} "@
        } else {
            "\u{25bc} "@
        }
    } else {
        "  "@
    };
    let symbol = match t.symbol {
        Some(c) => seq![span(seq![c] + " "@, SpanStyle { fg: Some(Color::Green), ..plain_style() })],
        None => Seq::empty(),
    };
    let rank = if t.rank_positive != 0 || t.rank_negative != 0 {
        seq![span(
            " [+"@ + int_text(t.rank_positive as int) + "/"@ + int_text(-(t.rank_negative as int)) + "]"@,
            SpanStyle { fg: Some(rank_color(t.rank_positive, t.rank_negative)), ..plain_style() },
        )]
    } else {
        Seq::empty()
    };
    let stars = if t.stars > 0 {
        seq![span(" "@ + star_run(t.stars as nat), SpanStyle { fg: Some(Color::Yellow), ..plain_style() })]
    } else {
        Seq::empty()
    };
    let count = if t.collapsed && t.children.len() > 0 {
        seq![span(" ("@ + decimal(t.children.len()) + ")"@, SpanStyle { fg: Some(Color::Cyan), ..plain_style() })]
    } else {
        Seq::empty()
    };
    seq![span(spaces(level), plain_style()), span(marker, plain_style())] + symbol
        + seq![span(t.text, text_style(t, active, results))] + rank + stars + count
}

/// Whether the tree view skips a top node: one with a single child and the
/// text `root` or none.
pub open spec fn skips_top(t: Tree, level: nat) -> bool {
    level == 0 && t.children.len() == 1 && (t.text == "root"@ || t.text.len() == 0)
}

/// The rows of the tree view for a subtree at the given level: the node's
/// row, then (unless it is collapsed) its children's rows one level deeper;
/// a skipped top node shows as its only child.
pub open spec fn tree_rows(t: Tree, active: u128, results: Seq<u128>, level: nat) -> Seq<Seq<SpanView>>
    decreases t, 0int,
{
    if skips_top(t, level) {
        tree_rows(t.children[0], active, results, 0)
    } else {
        seq![node_row(t, active, results, level)] + (if t.collapsed {
            Seq::empty()
        } else {
            tree_rows_from(t.children, active, results, level + 1, 0)
        })
    }
}

pub open spec fn tree_rows_from(s: Seq<Tree>, active: u128, results: Seq<u128>, level: nat, i: int) -> Seq<Seq<SpanView>>
    decreases s, s.len() - i,
{
    if 0 <= i < s.len() {
        tree_rows(s[i], active, results, level) + tree_rows_from(s, active, results, level, i + 1)
    } else {
        Seq::empty()
    }
}

/// Whether the rows of a subtree can be built: no shown node with a rank
/// has the smallest negative rank (whose negation overflows), and the
/// levels stay within `usize`.
pub open spec fn rows_buildable(t: Tree, level: nat) -> bool
    decreases t, 0int,
{
    if skips_top(t, level) {
        rows_buildable(t.children[0], 0)
    } else {
        &&& 2 * level <= usize::MAX
        &&& !((t.rank_positive != 0 || t.rank_negative != 0) && t.rank_negative == i32::MIN)
        &&& (!t.collapsed && t.children.len() > 0 ==> level < usize::MAX && rows_buildable_from(t.children, level + 1, 0))
    }
}

pub open spec fn rows_buildable_from(s: Seq<Tree>, level: nat, i: int) -> bool
    decreases s, s.len() - i,
{
    if 0 <= i < s.len() {
        rows_buildable(s[i], level) && rows_buildable_from(s, level, i + 1)
    } else {
        true
    }
}

/// The tree view gives a skipped top node no row of its own: its rows are
/// those of its only child at the top level, row for row, and they can be
/// built exactly when the child's can.
pub proof fn law_top_row_skipped(t: Tree, active: u128, results: Seq<u128>)
    requires
        skips_top(t, 0),
    ensures
        tree_rows(t, active, results, 0) == tree_rows(t.children[0], active, results, 0),
        rows_buildable(t, 0) == rows_buildable(t.children[0], 0),
{
}

proof fn lemma_rows_buildable_from(s: Seq<Tree>, level: nat, i: int, j: int)
    requires
        0 <= i <= j < s.len(),
        rows_buildable_from(s, level, i),
    ensures
        rows_buildable(s[j], level),
    decreases j - i,
{
    if i < j {
        lemma_rows_buildable_from(s, level, i + 1, j);
    }
}

fn styled(text: String, style: SpanStyle) -> (s: StyledSpan)
    ensures
        s@ == span(text@, style),
{
    StyledSpan { text, style }
}

fn string_of_str(t: &str) -> (s: String)
    ensures
        s@ == t@,
{
    t.to_owned()
}

fn int_string(x: i64) -> (s: String)
    requires
        x > i64::MIN,
    ensures
        s@ == int_text(x as int),
{
    let mut s = String::new();
    if x < 0 {
        push_str(&mut s, "-");
        push_chars(&mut s, &decimal_chars((-x) as u64));
    } else {
        push_chars(&mut s, &decimal_chars(x as u64));
    }
    proof {
        assert(s@ =~= int_text(x as int));
    }
    s
}

fn contains_id(v: &Vec<u128>, x: u128) -> (b: bool)
    ensures
        b == v@.contains(x),
{
    let n = v.len();
    let mut i: usize = 0;
    while i < n
        invariant
            n == v@.len(),
            i <= n,
            forall|j: int| 0 <= j < i ==> v@[j] != x,
        decreases n - i,
    {
        if v[i] == x {
            return true;
        }
        i += 1;
    }
    false
}

/// The row of a node.
#[verifier::spinoff_prover]
#[verifier::rlimit(40)]
fn node_row_spans(node: &Node, active_id: u128, search_results: &Vec<u128>, level: usize) -> (row: Vec<StyledSpan>)
    requires
        2 * level <= usize::MAX,
        !((node.rank_positive != 0 || node.rank_negative != 0) && node.rank_negative == i32::MIN),
    ensures
        row@.map_values(|sp: StyledSpan| sp@) == node_row(node@, active_id, search_results@, level as nat),
{
    let plain = SpanStyle { fg: None, bg: None, bold: false };
    let mut row: Vec<StyledSpan> = Vec::new();
    let mut indent = String::new();
    let mut k: usize = 0;
    while k < level
        invariant
            k <= level,
            indent@ == Seq::new(2 * k as nat, |i: int| ' '),
        decreases level - k,
    {
        push_str(&mut indent, "  ");
        k += 1;
        proof {
            reveal_strlit("  ");
            assert(indent@ =~= Seq::new(2 * k as nat, |i: int| ' '));
        }
    }
    row.push(styled(indent, plain));
    let n = node.children.len();
    proof {
        lemma_views(node.children@);
    }
    if n > 0 {
        if node.collapsed {
            row.push(styled(string_of_str("\u{25b6} "), plain));
        } else {
            row.push(styled(string_of_str("\u{25bc} "), plain));
        }
    } else {
        row.push(styled(string_of_str("  "), plain));
    }
    let ghost fixed = row@.map_values(|sp: StyledSpan| sp@);
    if let Some(c) = node.symbol {
        let mut t = String::new();
        push_char(&mut t, c);
        push_str(&mut t, " ");
        row.push(styled(t, SpanStyle { fg: Some(Color::Green), bg: None, bold: false }));
    }
    let mut ts = SpanStyle { fg: None, bg: None, bold: false };
    if node.id == active_id {
        ts.bold = true;
    }
    if contains_id(search_results, node.id) {
        ts.bg = Some(Color::Yellow);
        ts.fg = Some(Color::Black);
    }
    row.push(styled(node.text.clone(), ts));
    if node.rank_positive != 0 || node.rank_negative != 0 {
        let rp = node.rank_positive;
        let neg = -node.rank_negative;
        let mut t = String::new();
        push_str(&mut t, " [+");
        push_str(&mut t, int_string(rp as i64).as_str());
        push_str(&mut t, "/");
        push_str(&mut t, int_string(neg as i64).as_str());
        push_str(&mut t, "]");
        let color = if rp > neg {
            Color::Green
        } else if rp < neg {
            Color::Red
        } else {
            Color::Yellow
        };
        row.push(styled(t, SpanStyle { fg: Some(color), bg: None, bold: false }));
    }
    if node.stars > 0 {
        let mut t = String::new();
        push_str(&mut t, " ");
        let mut k: u8 = 0;
        let ghost base = t@;
        while k < node.stars
            invariant
                k <= node.stars,
                t@ == base + Seq::new(k as nat, |i: int| '\u{2605}'),
            decreases node.stars - k,
        {
            push_char(&mut t, '\u{2605}');
            k += 1;
            proof {
                assert(t@ =~= base + Seq::new(k as nat, |i: int| '\u{2605}'));
            }
        }
        row.push(styled(t, SpanStyle { fg: Some(Color::Yellow), bg: None, bold: false }));
    }
    if node.collapsed && n > 0 {
        let mut t = String::new();
        push_str(&mut t, " (");
        push_chars(&mut t, &decimal_chars(n as u64));
        push_str(&mut t, ")");
        row.push(styled(t, SpanStyle { fg: Some(Color::Cyan), bg: None, bold: false }));
    }
    proof {
        assert(row@.map_values(|sp: StyledSpan| sp@) =~= node_row(node@, active_id, search_results@, level as nat));
    }
    row
}

/// Whether the rows of a subtree can be built (see `rows_buildable`).
pub fn rows_can_be_built(node: &Node, level: usize) -> (b: bool)
    ensures
        b == rows_buildable(node@, level as nat),
    decreases node,
{
    proof {
        lemma_views(node.children@);
    }
    let n = node.children.len();
    if level == 0 && n == 1 {
        let root_text = "root".to_owned();
        let is_root_text = node.text == root_text;
        if is_root_text || node.text.as_str().is_empty() {
            return rows_can_be_built(&node.children[0], 0);
        }
    }
    if level > usize::MAX / 2 {
        return false;
    }
    if (node.rank_positive != 0 || node.rank_negative != 0) && node.rank_negative == i32::MIN {
        return false;
    }
    if !node.collapsed && n > 0 {
        if level == usize::MAX {
            return false;
        }
        let mut i: usize = 0;
        while i < n
            invariant
                n == node.children@.len(),
                i <= n,
                level < usize::MAX,
                views(node.children@).len() == n,
                forall|j: int| 0 <= j < n ==> #[trigger] views(node.children@)[j] == node.children@[j]@,
                rows_buildable(node@, level as nat)
                    == rows_buildable_from(node@.children, (level + 1) as nat, i as int),
            decreases n - i,
        {
            if !rows_can_be_built(&node.children[i], level + 1) {
                proof {
                    assert(node@.children[i as int] == node.children@[i as int]@);
                    assert(!rows_buildable_from(node@.children, (level + 1) as nat, i as int));
                }
                return false;
            }
            proof {
                assert(node@.children[i as int] == node.children@[i as int]@);
            }
            i += 1;
        }
    }
    true
}

/// The rows of the tree view for a subtree at the given level.
pub fn build_tree_items(node: &Node, active_id: u128, search_results: &Vec<u128>, level: usize) -> (rows: Vec<Vec<StyledSpan>>)
    requires
        rows_buildable(node@, level as nat),
    ensures
        rows_view(rows@) == tree_rows(node@, active_id, search_results@, level as nat),
    decreases node,
{
    proof {
        lemma_views(node.children@);
    }
    let n = node.children.len();
    if level == 0 && n == 1 {
        let root_text = "root".to_owned();
        let is_root_text = node.text == root_text;
        if is_root_text || node.text.as_str().is_empty() {
            return build_tree_items(&node.children[0], active_id, search_results, 0);
        }
    }
    let mut items: Vec<Vec<StyledSpan>> = Vec::new();
    items.push(node_row_spans(node, active_id, search_results, level));
    proof {
        assert(rows_view(items@) =~= seq![node_row(node@, active_id, search_results@, level as nat)]);
        if node.collapsed {
            assert(rows_view(items@) =~= tree_rows(node@, active_id, search_results@, level as nat));
        }
    }
    if !node.collapsed {
        let mut i: usize = 0;
        while i < n
            invariant
                n == node.children@.len(),
                i <= n,
                !node.collapsed,
                !skips_top(node@, level as nat),
                rows_buildable(node@, level as nat),
                views(node.children@).len() == n,
                forall|j: int| 0 <= j < n ==> #[trigger] views(node.children@)[j] == node.children@[j]@,
                rows_view(items@) + tree_rows_from(node@.children, active_id, search_results@, (level + 1) as nat, i as int)
                    == tree_rows(node@, active_id, search_results@, level as nat),
            decreases n - i,
        {
            proof {
                lemma_rows_buildable_from(node@.children, (level + 1) as nat, 0, i as int);
            }
            let mut sub = build_tree_items(&node.children[i], active_id, search_results, level + 1);
            proof {
                assert(rows_view(items@ + sub@) =~= rows_view(items@) + rows_view(sub@));
                assert(rows_view(items@) + rows_view(sub@)
                    + tree_rows_from(node@.children, active_id, search_results@, (level + 1) as nat, i + 1)
                    =~= rows_view(items@)
                    + tree_rows_from(node@.children, active_id, search_results@, (level + 1) as nat, i as int));
            }
            items.append(&mut sub);
            i += 1;
        }
        proof {
            assert(rows_view(items@) + tree_rows_from(node@.children, active_id, search_results@, (level + 1) as nat, n as int)
                =~= rows_view(items@));
        }
    }
    items
}

/// The row to highlight in the tree view: the first, where there is any.
pub fn find_active_node_index(items: &Vec<Vec<StyledSpan>>, active_id: u128) -> (r: Option<usize>)
    ensures
        r == if items@.len() > 0 { Some(0usize) } else { None::<usize> },
{
    if items.len() > 0 {
        Some(0)
    } else {
        None
    }
}

/// The last component of a path, as `std::path::Path::file_name` gives it
/// (shown lossily), where there is one.
pub uninterp spec fn spec_file_name(path: Seq<char>) -> Option<Seq<char>>;

/// Calls `Path::new(path).file_name()` and hands out the name as a
/// `String`; the result is named `spec_file_name` of the path (a function of
/// the text alone: no file is looked at).
#[verifier::external_body]
fn file_name(path: &str) -> (r: Option<String>)
    ensures
        r.deep_view() == spec_file_name(path@),
{
    std::path::Path::new(path).file_name().map(|n| n.to_string_lossy().into_owned())
}

/// The name under which the status bar shows a file: the path's last
/// component, or nothing where it has none.
pub open spec fn name_or_empty(name: Option<Seq<char>>) -> Seq<char> {
    match name {
        Some(n) => n,
        None => Seq::empty(),
    }
}

/// The name that the status bar shows for a file whose last component is
/// `name`.
pub fn name_or_blank(name: Option<String>) -> (r: String)
    ensures
        r@ == name_or_empty(name.deep_view()),
{
    match name {
        Some(n) => n,
        None => String::new(),
    }
}

/// The name of a mode as the status bar shows it.
pub open spec fn mode_text(m: Mode) -> Seq<char> {
    match m {
        Mode::Normal => "NORMAL"@,
        Mode::Edit => "EDIT"@,
        Mode::Search => "SEARCH"@,
    }
}

/// The status bar's text with the given file name: the message where there
/// is one; else the mode, the name with `*` where there are unsaved changes,
/// and a hint.
pub open spec fn status_line_named(s: AppState, name: Seq<char>) -> Seq<char> {
    match s.message {
        Some(m) => m,
        None => mode_text(s.mode) + "  "@ + name + (if s.modified { "*"@ } else { ""@ }) + "  Press ? for help"@,
    }
}

/// The name of the file as the status bar shows it: its last component, or
/// `Untitled` where there is no file.
pub open spec fn shown_name(s: AppState) -> Seq<char> {
    match s.filename {
        Some(f) => name_or_empty(spec_file_name(f)),
        None => "Untitled"@,
    }
}

/// The status bar's text.
pub open spec fn status_line(s: AppState) -> Seq<char> {
    status_line_named(s, shown_name(s))
}

/// The status bar's text, the file being shown under the given name.
pub fn status_with_name(app: &App, name: &str) -> (r: String)
    ensures
        r@ == status_line_named(app@, name@),
{
    match &app.message {
        Some(m) => m.clone(),
        None => {
            let mut t = String::new();
            match app.mode {
                Mode::Normal => push_str(&mut t, "NORMAL"),
                Mode::Edit => push_str(&mut t, "EDIT"),
                Mode::Search => push_str(&mut t, "SEARCH"),
            }
            push_str(&mut t, "  ");
            push_str(&mut t, name);
            if app.modified {
                push_str(&mut t, "*");
            } else {
                push_str(&mut t, "");
            }
            push_str(&mut t, "  Press ? for help");
            proof {
                assert(t@ =~= status_line_named(app@, name@));
            }
            t
        },
    }
}

/// The status bar's text.
pub fn status_text(app: &App) -> (r: String)
    ensures
        r@ == status_line(app@),
{
    let name = match &app.file_manager.filename {
        Some(f) => name_or_blank(file_name(f.as_str())),
        None => "Untitled".to_owned(),
    };
    status_with_name(app, name.as_str())
}

/// The text of the edit popup: the buffer and a cursor mark.
pub fn edit_popup_text(app: &App) -> (r: String)
    ensures
        r@ == app@.edit_buffer + "_"@,
{
    let mut t = app.edit_buffer.clone();
    push_str(&mut t, "_");
    t
}

/// The text of the search popup: the query and a cursor mark.
pub fn search_popup_text(app: &App) -> (r: String)
    ensures
        r@ == app@.search_query + "_"@,
{
    let mut t = app.search_query.clone();
    push_str(&mut t, "_");
    t
}

/// A rectangle of the screen.
#[derive(Clone, Copy, Debug, PartialEq, Eq, Structural)]
pub struct Rect {
    pub x: u16,
    pub y: u16,
    pub width: u16,
    pub height: u16,
}

impl View for Rect {
    type V = (u16, u16, u16, u16);

    open spec fn view(&self) -> (u16, u16, u16, u16) {
        (self.x, self.y, self.width, self.height)
    }
}

/// Whether `p` lies within `a`.
pub open spec fn within(p: Rect, a: Rect) -> bool {
    &&& a.x <= p.x
    &&& a.y <= p.y
    &&& p.x + p.width <= a.x + a.width
    &&& p.y + p.height <= a.y + a.height
}

/// Whether a part of `a` cut top to bottom (`vertical`) keeps `a`'s full
/// width, or cut left to right keeps its full height.
pub open spec fn across(p: Rect, a: Rect, vertical: bool) -> bool {
    if vertical {
        p.x == a.x && p.width == a.width
    } else {
        p.y == a.y && p.height == a.height
    }
}

/// Where a rectangle starts along a cut: its top for a cut top to bottom
/// (`vertical`), its left edge otherwise.
pub open spec fn lead(p: Rect, vertical: bool) -> int {
    if vertical {
        p.y as int
    } else {
        p.x as int
    }
}

/// How long a rectangle is along a cut: its height for a cut top to bottom
/// (`vertical`), its width otherwise.
pub open spec fn extent(p: Rect, vertical: bool) -> int {
    if vertical {
        p.height as int
    } else {
        p.width as int
    }
}

/// The sum of the percentages.
pub open spec fn percent_total(ps: Seq<u16>) -> int
    decreases ps.len(),
{
    if ps.len() == 0 {
        0
    } else {
        percent_total(ps.drop_last()) + ps.last()
    }
}

/// Whether `n` cells are less than one cell off `p` percent of `len` cells.
pub open spec fn near_percent(n: int, p: int, len: int) -> bool {
    p * len - 100 < 100 * n < p * len + 100
}

/// Whether `parts` cut `area` in order along the cut, one per percentage:
/// the first starts where the area starts, each next one where the one
/// before ends, and each is less than one cell off its percentage of the area.
pub open spec fn cut_in_order(parts: Seq<Rect>, area: Rect, vertical: bool, ps: Seq<u16>) -> bool {
    &&& parts.len() == ps.len()
    &&& parts.len() > 0 ==> lead(parts[0], vertical) == lead(area, vertical)
    &&& forall|i: int|
        #![trigger parts[i]]
        1 <= i < parts.len() ==> lead(parts[i], vertical) == lead(parts[i - 1], vertical) + extent(
            parts[i - 1],
            vertical,
        )
    &&& forall|i: int|
        #![trigger parts[i]]
        0 <= i < parts.len() ==> near_percent(extent(parts[i], vertical), ps[i] as int, extent(area, vertical))
}

/// Splits an area with `ratatui::layout::Layout::split`, top to bottom
/// (`vertical`) or left to right, one `Constraint::Percentage` per given
/// percentage, with the layout's default flex (`Flex::Start`) and no margin.
///
/// What the contract states holds of every outcome of the layout solver:
/// - one part per constraint (`try_split` makes one segment per
///   constraint);
/// - each part within the area, spanning it across the cut: every boundary
///   is a required constraint between the area's start and end, rounded to a
///   whole cell, and `changes_to_rects` copies the other two coordinates;
/// - where the percentages add up to at most 100 and the area ends within
///   `u16` (so that `Rect::bottom` and `Rect::right` do not saturate), the
///   parts cut the area in order, each less than one cell off its percentage.
///   There every constraint of required or strong strength can be met at
///   once (the first spacer and the spacers between parts empty, each part
///   its percentage of the area), and the only weaker ones (the last spacer
///   and equal parts, of medium and weak strength) cannot outweigh a strong
///   one, so the solver meets them all; each boundary is then an exact
///   multiple of a hundredth of a cell, rounded to a cell.
///
/// Which cell a boundary that falls on half a cell is rounded to is left
/// unsaid: the solver computes in floating point and walks hash maps with
/// per-process seeds, so the result is not named.
#[verifier::external_body]
fn split_percentages(vertical: bool, percentages: &Vec<u16>, area: Rect) -> (r: Vec<Rect>)
    ensures
        r@.len() == percentages@.len(),
        forall|i: int| 0 <= i < r@.len() ==> within(#[trigger] r@[i], area) && across(r@[i], area, vertical),
        percent_total(percentages@) <= 100 && lead(area, vertical) + extent(area, vertical) <= u16::MAX
            ==> cut_in_order(r@, area, vertical, percentages@),
{
    let direction = if vertical { ratatui::layout::Direction::Vertical } else { ratatui::layout::Direction::Horizontal };
    let mut constraints = Vec::new();
    for p in percentages.iter() {
        constraints.push(ratatui::layout::Constraint::Percentage(*p));
    }
    let area = ratatui::layout::Rect { x: area.x, y: area.y, width: area.width, height: area.height };
    let parts = ratatui::layout::Layout::default().direction(direction).constraints(constraints).split(area);
    parts.iter().map(|q| Rect { x: q.x, y: q.y, width: q.width, height: q.height }).collect()
}

/// The percentages of a three-way split whose middle part takes `percent`:
/// the rest halved on either side.
pub fn popup_percentages(percent: u16) -> (ps: Vec<u16>)
    requires
        percent <= 100,
    ensures
        ps@ == seq![((100 - percent) / 2) as u16, percent, ((100 - percent) / 2) as u16],
{
    let side: u16 = (100 - percent) / 2;
    let mut ps: Vec<u16> = Vec::new();
    ps.push(side);
    ps.push(percent);
    ps.push(side);
    proof {
        assert(ps@ =~= seq![side, percent, side]);
    }
    ps
}

/// The middle part of a three-way split.
pub fn middle_of(parts: &Vec<Rect>) -> (r: Rect)
    requires
        parts@.len() == 3,
    ensures
        r == parts@[1],
{
    parts[1]
}

/// The middle part of the area split three ways, the middle taking
/// `percent`.
fn middle(vertical: bool, percent: u16, area: Rect) -> (r: Rect)
    requires
        percent <= 100,
    ensures
        within(r, area),
        across(r, area, vertical),
        lead(area, vertical) + extent(area, vertical) <= u16::MAX ==> {
            &&& near_percent(lead(r, vertical) - lead(area, vertical), (100 - percent) / 2, extent(area, vertical))
            &&& near_percent(extent(r, vertical), percent as int, extent(area, vertical))
        },
{
    let ps = popup_percentages(percent);
    let parts = split_percentages(vertical, &ps, area);
    proof {
        let side = ((100 - percent) / 2) as u16;
        assert(ps@.drop_last() =~= seq![side, percent]);
        assert(ps@.drop_last().drop_last() =~= seq![side]);
        assert(ps@.drop_last().drop_last().drop_last() =~= Seq::<u16>::empty());
        let one = ps@.drop_last().drop_last();
        assert(percent_total(one.drop_last()) == 0);
        assert(one.last() == side);
        assert(percent_total(one) == side);
        assert(percent_total(ps@.drop_last()) == side + percent);
        assert(percent_total(ps@) <= 100);
        if lead(area, vertical) + extent(area, vertical) <= u16::MAX {
            assert(parts@[1] == parts@[1]);
            assert(parts@[0] == parts@[0]);
        }
    }
    middle_of(&parts)
}

/// The area of a popup of the given percentages of `r`'s width and height,
/// in its middle: the middle column of the middle row, as the layout solver
/// places them. It lies within `r`; where `r` ends within `u16`, its width
/// and height are less than a cell off the given percentages of `r`'s, and
/// its offsets from `r`'s left and top edges less than a cell off half of
/// what the percentages leave (rounded down to a whole percent).
pub fn centered_rect(percent_x: u16, percent_y: u16, r: Rect) -> (c: Rect)
    requires
        percent_x <= 100,
        percent_y <= 100,
    ensures
        within(c, r),
        r.y + r.height <= u16::MAX ==> {
            &&& near_percent(c.y - r.y, (100 - percent_y) / 2, r.height as int)
            &&& near_percent(c.height as int, percent_y as int, r.height as int)
        },
        r.x + r.width <= u16::MAX ==> {
            &&& near_percent(c.x - r.x, (100 - percent_x) / 2, r.width as int)
            &&& near_percent(c.width as int, percent_x as int, r.width as int)
        },
{
    let row = middle(true, percent_y, r);
    middle(false, percent_x, row)
}

} // verus!
