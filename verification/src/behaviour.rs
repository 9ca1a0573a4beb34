//! What the editor's operations are for, stated over every input: the HTML
//! export lists children in order, the undo history keeps the latest trees,
//! a search replaces the earlier results, a deletion puts only the removed
//! subtree on the clipboard, and the bottom of the map is its last leaf.
use vstd::prelude::*;
use crate::tree::{Tree, ids_from, position, remove_from, find_from};
use crate::app::{AppState, Mode, node_html, node_html_from, indent, html_escaped};
use crate::laws::law_remove_takes_subtree;

verus! {

/// The HTML items of a sequence of subtrees at the given level, one per
/// subtree, in order.
pub open spec fn html_items(s: Seq<Tree>, level: nat) -> Seq<Seq<char>> {
    Seq::new(s.len(), |k: int| node_html(s[k], level))
}

proof fn lemma_html_from_items(s: Seq<Tree>, level: nat, i: int)
    requires
        0 <= i <= s.len(),
    ensures
        node_html_from(s, level, i) == html_items(s.subrange(i, s.len() as int), level).flatten(),
    decreases s.len() - i,
{
    let m = html_items(s.subrange(i, s.len() as int), level);
    if i < s.len() {
        lemma_html_from_items(s, level, i + 1);
        assert(m.drop_first() =~= html_items(s.subrange(i + 1, s.len() as int), level));
        assert(m.first() == node_html(s[i], level));
    } else {
        assert(m =~= Seq::<Seq<char>>::empty());
    }
}

/// The HTML item of a node with children holds, inside its nested list, the
/// items of its children one after the other in the order of its children,
/// each two levels deeper, and nothing else.
pub proof fn law_html_lists_children_in_order(t: Tree, level: nat)
    requires
        t.children.len() > 0,
    ensures
        node_html(t, level) == indent(level) + "<li>\n"@ + indent(level) + "  "@ + html_escaped(t.text) + "\n"@
            + indent(level) + "  <ul>\n"@ + html_items(t.children, level + 2).flatten() + indent(level)
            + "  </ul>\n"@ + indent(level) + "</li>\n"@,
{
    lemma_html_from_items(t.children, level + 2, 0);
    assert(t.children.subrange(0, t.children.len() as int) =~= t.children);
}

/// What the HTML item of a node with children holds before its children's
/// items.
#[verifier::opaque]
pub open spec fn item_head(t: Tree, level: nat) -> Seq<char> {
    indent(level) + "<li>\n"@ + indent(level) + "  "@ + html_escaped(t.text) + "\n"@ + indent(level) + "  <ul>\n"@
}

/// What the HTML item of a node with children holds after its children's
/// items.
#[verifier::opaque]
pub open spec fn item_tail(level: nat) -> Seq<char> {
    indent(level) + "  </ul>\n"@ + indent(level) + "</li>\n"@
}

proof fn lemma_item_parts(t: Tree, level: nat)
    requires
        t.children.len() > 0,
    ensures
        node_html(t, level) == item_head(t, level) + node_html_from(t.children, level + 2, 0) + item_tail(level),
{
    reveal(item_head);
    reveal(item_tail);
}

/// Of two children of a node, the HTML item of the earlier one comes first
/// in the node's HTML item.
pub proof fn law_html_earlier_child_first(t: Tree, level: nat, i: int, j: int)
    requires
        0 <= i < j < t.children.len(),
    ensures
        exists|a: Seq<char>, b: Seq<char>, c: Seq<char>|
            #![trigger a + node_html(t.children[i], level + 2) + b + node_html(t.children[j], level + 2) + c]
            node_html(t, level) == a + node_html(t.children[i], level + 2) + b + node_html(t.children[j], level + 2)
                + c,
{
    let s = t.children;
    let l = (level + 2) as nat;
    lemma_item_parts(t, level);
    let head = item_head(t, level);
    let tail = item_tail(level);
    let a = node_html_from_between(s, l, 0, i);
    let b = node_html_from_between(s, l, i + 1, j);
    let c = node_html_from(s, l, j + 1);
    let xi = node_html(s[i], l);
    let xj = node_html(s[j], l);
    lemma_html_between(s, l, 0, i);
    lemma_html_between(s, l, i + 1, j);
    assert(node_html_from(s, l, i) == xi + node_html_from(s, l, i + 1));
    assert(node_html_from(s, l, j) == xj + c);
    lemma_regroup(head, a, xi, b, xj, c, tail);
}

proof fn lemma_regroup(
    head: Seq<char>,
    a: Seq<char>,
    xi: Seq<char>,
    b: Seq<char>,
    xj: Seq<char>,
    c: Seq<char>,
    tail: Seq<char>,
)
    ensures
        head + (a + (xi + (b + (xj + c)))) + tail == (head + a) + xi + b + xj + (c + tail),
{
    assert(head + (a + (xi + (b + (xj + c)))) + tail =~= (head + a) + xi + b + xj + (c + tail));
}

/// The items of the subtrees from `i` up to `j`, in order.
pub open spec fn node_html_from_between(s: Seq<Tree>, level: nat, i: int, j: int) -> Seq<char>
    decreases j - i,
{
    if i < j {
        node_html(s[i], level) + node_html_from_between(s, level, i + 1, j)
    } else {
        Seq::empty()
    }
}

proof fn lemma_html_between(s: Seq<Tree>, level: nat, i: int, j: int)
    requires
        0 <= i <= j <= s.len(),
    ensures
        node_html_from(s, level, i) == node_html_from_between(s, level, i, j) + node_html_from(s, level, j),
    decreases j - i,
{
    if i < j {
        lemma_html_between(s, level, i + 1, j);
        assert(node_html_from(s, level, i) =~= node_html_from_between(s, level, i, j) + node_html_from(
            s,
            level,
            j,
        ));
    } else {
        assert(node_html_from_between(s, level, i, j) + node_html_from(s, level, j) =~= node_html_from(
            s,
            level,
            j,
        ));
    }
}

/// Saving the tree to the undo history keeps the most recent trees: the
/// history afterwards is the history before with the current tree added
/// last, of which only the oldest tree is dropped, and only when the history
/// is full; nothing else of the state changes.
pub proof fn law_undo_history_keeps_latest(s: AppState)
    ensures
        ({
            let h = s.undo_stack.push(s.root);
            let p = s.pushed_undo().undo_stack;
            &&& p == h.subrange(h.len() - p.len(), h.len() as int)
            &&& p.last() == s.root
            &&& p.len() == (if s.undo_stack.len() >= s.config.max_undo_steps && s.undo_stack.len() > 0 {
                s.undo_stack.len() as int
            } else {
                h.len() as int
            })
        }),
        s.pushed_undo() == (AppState { undo_stack: s.pushed_undo().undo_stack, ..s }),
{
    let h = s.undo_stack.push(s.root);
    let p = s.pushed_undo().undo_stack;
    assert(p =~= h.subrange(h.len() - p.len(), h.len() as int));
}

/// Undoing `k` times after `k` saves of the history gives back the tree
/// saved first of them, as long as the history holds them all: the `k`-th
/// most recent tree of the history is the one saved `k` saves ago.
pub proof fn law_undo_history_order(s: AppState, j: int)
    requires
        0 <= j < s.pushed_undo().undo_stack.len(),
    ensures
        s.pushed_undo().undo_stack[s.pushed_undo().undo_stack.len() - 1 - j] == s.undo_stack.push(s.root)[s.undo_stack.len() - j],
{
    law_undo_history_keeps_latest(s);
}

/// A search on a non-empty query replaces the earlier results: afterwards
/// the results are exactly the nodes whose text matches, in pre-order, the
/// first of them current, whatever results and position there were before;
/// where nothing matches, moving to the next or previous result changes
/// nothing.
pub proof fn law_search_replaces_results(s: AppState, earlier: Seq<u128>, index: usize)
    requires
        s.search_query.len() > 0,
    ensures
        s.searched().search_results == s.root.search(s.search_query),
        s.searched().current_search_index == 0,
        (AppState { search_results: earlier, current_search_index: index, ..s }).searched() == s.searched(),
        s.root.search(s.search_query).len() == 0 ==> s.searched().next_result() == s.searched()
            && s.searched().previous_result() == s.searched(),
        s.root.search(s.search_query).len() > 0 ==> s.searched().active == s.root.search(s.search_query)[0],
        s.root.search(s.search_query).len() == 0 ==> s.searched().active == s.active,
        s.searched().mode == Mode::Normal,
        s.searched().root == s.root,
{
}

proof fn lemma_remove_found(t: Tree, id: u128)
    requires
        t.id != id,
        t.find(id) is Some,
    ensures
        t.remove(id) is Some,
    decreases t, 0int,
{
    if position(t.children, id, 0) is None {
        lemma_remove_from_found(t.children, id, 0);
    }
}

proof fn lemma_remove_from_found(s: Seq<Tree>, id: u128, i: int)
    requires
        0 <= i,
        position(s, id, i) is None,
        find_from(s, id, i) is Some,
    ensures
        remove_from(s, id, i) is Some,
    decreases s, s.len() - i,
{
    if i < s.len() {
        if s[i].find(id) is Some {
            lemma_remove_found(s[i], id);
        } else {
            lemma_remove_from_found(s, id, i + 1);
        }
    }
}

/// Deleting a node other than the root that is in the map puts on the
/// clipboard exactly the subtree taken out of the map, and nothing else:
/// the clipboard holds one tree, with the deleted node's identifier, whose
/// identifiers are a run of the map's that the map no longer has; what the
/// clipboard held before makes no difference.
pub proof fn law_delete_clipboard_holds_removed(s: AppState, earlier: Seq<Tree>)
    requires
        s.active != s.root.id,
        s.root.find(s.active) is Some,
    ensures
        s.root.remove(s.active) is Some,
        s.deleted().clipboard == seq![s.root.remove(s.active).unwrap().1],
        s.deleted().root == s.root.remove(s.active).unwrap().0,
        s.deleted().clipboard[0].id == s.active,
        exists|a: Seq<u128>, b: Seq<u128>|
            #![trigger a + s.deleted().clipboard[0].ids() + b, a + b]
            s.root.ids() == a + s.deleted().clipboard[0].ids() + b && s.deleted().root.ids() == a + b,
        (AppState { clipboard: earlier, ..s }).deleted().clipboard == s.deleted().clipboard,
        s.deleted().active == s.root.id,
        s.deleted().modified,
        s.deleted().undo_stack.last() == s.root,
        s.deleted().message == Some("Node deleted"@),
{
    lemma_remove_found(s.root, s.active);
    law_remove_takes_subtree(s.root, s.active);
}

/// The node that going down the last children of a subtree reaches: a leaf.
pub open spec fn last_leaf(t: Tree) -> Tree
    decreases t,
{
    if t.children.len() == 0 {
        t
    } else {
        last_leaf(t.children[t.children.len() - 1])
    }
}

proof fn lemma_ids_last(t: Tree)
    ensures
        t.ids().len() > 0,
        t.ids().last() == last_leaf(t).id,
    decreases t, 0int,
{
    if t.children.len() > 0 {
        lemma_ids_from_last(t.children, 0);
    } else {
        assert(ids_from(t.children, 0) == Seq::<u128>::empty());
    }
}

proof fn lemma_ids_from_last(s: Seq<Tree>, i: int)
    requires
        0 <= i < s.len(),
    ensures
        ids_from(s, i).len() > 0,
        ids_from(s, i).last() == last_leaf(s[s.len() - 1]).id,
    decreases s, s.len() - i,
{
    lemma_ids_last(s[i]);
    if i + 1 < s.len() {
        lemma_ids_from_last(s, i + 1);
    } else {
        assert(ids_from(s, i + 1) == Seq::<u128>::empty());
        assert(ids_from(s, i) =~= s[i].ids());
    }
}

/// Going to the bottom makes active the last node of the map in pre-order,
/// which is the leaf reached from the root by always taking the last child;
/// nothing else changes.
pub proof fn law_bottom_is_last_leaf(s: AppState)
    ensures
        s.to_bottom().active == last_leaf(s.root).id,
        last_leaf(s.root).children.len() == 0,
        s.to_bottom().active == s.root.ids()[s.root.ids().len() - 1],
        s.to_bottom() == (AppState { active: s.to_bottom().active, ..s }),
{
    lemma_ids_last(s.root);
    lemma_last_leaf_is_leaf(s.root);
}

proof fn lemma_last_leaf_is_leaf(t: Tree)
    ensures
        last_leaf(t).children.len() == 0,
    decreases t,
{
    if t.children.len() > 0 {
        lemma_last_leaf_is_leaf(t.children[t.children.len() - 1]);
    }
}

} // verus!
