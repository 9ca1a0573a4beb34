//! Properties of the mind map's operations that hold across calls.
use vstd::prelude::*;
use crate::tree::{
    Tree, find_from, replace_from, ids_from, lemma_replace_same, collapse_all_from, expand_all_from,
    lemma_collapse_all_from, lemma_expand_all_from, search_from, text_matches, level_from, collapse_to_level_from,
    lemma_collapse_to_level_from, position, remove_from, parent_from,
};
use crate::app::{AppState, Mode, next_symbol};

verus! {

/// The node that `find` gives is found again, as the new node, after it is
/// replaced by a node with the same identifier.
pub proof fn lemma_find_after_replace(t: Tree, id: u128, new: Tree)
    requires
        t.find(id) is Some,
        new.id == id,
    ensures
        t.replace(id, new).find(id) == Some(new),
    decreases t, 0int,
{
    if t.id != id {
        lemma_find_after_replace_from(t.children, id, new, 0);
    }
}

proof fn lemma_find_after_replace_from(s: Seq<Tree>, id: u128, new: Tree, i: int)
    requires
        0 <= i <= s.len(),
        find_from(s, id, i) is Some,
        new.id == id,
    ensures
        find_from(replace_from(s, id, new, i), id, i) == Some(new),
    decreases s, s.len() - i,
{
    if i < s.len() {
        if s[i].find(id) is Some {
            lemma_find_after_replace(s[i], id, new);
            let r = s.update(i, s[i].replace(id, new));
            assert(r[i] == s[i].replace(id, new));
        } else {
            lemma_find_after_replace_from(s, id, new, i + 1);
            let r = replace_from(s, id, new, i + 1);
            lemma_replace_from_keeps_prefix(s, id, new, i + 1);
            assert(r[i] == s[i]);
            assert(r.len() == s.len());
        }
    }
}

proof fn lemma_replace_from_keeps_prefix(s: Seq<Tree>, id: u128, new: Tree, i: int)
    requires
        0 <= i <= s.len(),
    ensures
        replace_from(s, id, new, i).len() == s.len(),
        forall|k: int| 0 <= k < i ==> #[trigger] replace_from(s, id, new, i)[k] == s[k],
    decreases s.len() - i,
{
    if i < s.len() && s[i].find(id) is None {
        lemma_replace_from_keeps_prefix(s, id, new, i + 1);
    }
}

/// Replacing the found node twice is replacing it once with the second
/// node, where the first replacement keeps the identifier.
pub proof fn lemma_replace_twice(t: Tree, id: u128, a: Tree, b: Tree)
    requires
        t.find(id) is Some,
        a.id == id,
    ensures
        t.replace(id, a).replace(id, b) == t.replace(id, b),
    decreases t, 0int,
{
    if t.id != id {
        lemma_replace_twice_from(t.children, id, a, b, 0);
        assert(t.replace(id, a).replace(id, b) =~= t.replace(id, b));
    }
}

proof fn lemma_replace_twice_from(s: Seq<Tree>, id: u128, a: Tree, b: Tree, i: int)
    requires
        0 <= i <= s.len(),
        find_from(s, id, i) is Some,
        a.id == id,
    ensures
        replace_from(replace_from(s, id, a, i), id, b, i) == replace_from(s, id, b, i),
    decreases s, s.len() - i,
{
    if i < s.len() {
        if s[i].find(id) is Some {
            lemma_replace_twice(s[i], id, a, b);
            lemma_find_after_replace(s[i], id, a);
            let r = s.update(i, s[i].replace(id, a));
            assert(r[i].find(id) is Some);
            assert(r.update(i, r[i].replace(id, b)) =~= s.update(i, s[i].replace(id, b)));
        } else {
            lemma_replace_twice_from(s, id, a, b, i + 1);
            lemma_replace_from_keeps_prefix(s, id, a, i + 1);
            let r = replace_from(s, id, a, i + 1);
            assert(r[i] == s[i]);
            assert(replace_from(s, id, a, i) == r);
            assert(replace_from(r, id, b, i) == replace_from(r, id, b, i + 1));
        }
    }
}

/// Toggling the active node's symbol three times gives back the tree, where
/// the symbol is none, a check mark or a cross.
pub proof fn law_symbol_toggle_cycles(s: AppState)
    requires
        s.active_node() matches Some(n) && (n.symbol is None || n.symbol == Some('\u{2713}')
            || n.symbol == Some('\u{2717}')),
    ensures
        s.symbol_toggled().symbol_toggled().symbol_toggled().root == s.root,
{
    let n = s.active_node().unwrap();
    let id = s.active;
    let t = s.root;
    let n1 = Tree { symbol: next_symbol(n.symbol), ..n };
    let s1 = s.symbol_toggled();
    assert(n.id == id) by {
        lemma_found_id(t, id);
    }
    lemma_find_after_replace(t, id, n1);
    assert(s1.root == t.replace(id, n1));
    let n2 = Tree { symbol: next_symbol(n1.symbol), ..n1 };
    let s2 = s1.symbol_toggled();
    lemma_replace_twice(t, id, n1, n2);
    lemma_find_after_replace(t, id, n2);
    assert(s2.root == t.replace(id, n2));
    let n3 = Tree { symbol: next_symbol(n2.symbol), ..n2 };
    let s3 = s2.symbol_toggled();
    lemma_replace_twice(t, id, n2, n3);
    assert(s3.root == t.replace(id, n3));
    assert(n3 == n);
    lemma_replace_same(t, id);
}

/// The node that `find` gives has the identifier looked for.
pub proof fn lemma_found_id(t: Tree, id: u128)
    requires
        t.find(id) is Some,
    ensures
        t.find(id).unwrap().id == id,
    decreases t, 0int,
{
    if t.id != id {
        lemma_found_id_from(t.children, id, 0);
    }
}

proof fn lemma_found_id_from(s: Seq<Tree>, id: u128, i: int)
    requires
        0 <= i <= s.len(),
        find_from(s, id, i) is Some,
    ensures
        find_from(s, id, i).unwrap().id == id,
    decreases s, s.len() - i,
{
    if i < s.len() {
        if s[i].find(id) is Some {
            lemma_found_id(s[i], id);
        } else {
            lemma_found_id_from(s, id, i + 1);
        }
    }
}

/// Undo after an operation that changes the tree gives back the tree as it
/// was before the operation.
pub proof fn law_undo_reverts(s: AppState, fresh: u128, copies: Seq<Tree>)
    ensures
        s.ranked_positive().undone().root == s.root,
        s.ranked_negative().undone().root == s.root,
        s.starred().undone().root == s.root,
        s.unstarred().undone().root == s.root,
        s.symbol_toggled().undone().root == s.root,
        s.exited_edit().undone().root == s.root,
        s.added_child(fresh).undone().root == s.root,
        s.added_sibling(fresh).undone().root == s.root,
        s.clipboard.len() > 0 ==> s.pasted_child(copies).undone().root == s.root,
        s.clipboard.len() > 0 ==> s.pasted_sibling(copies).undone().root == s.root,
        s.active != s.root.id ==> s.deleted().undone().root == s.root,
{
    let p = s.pushed_undo();
    assert(p.undo_stack.len() > 0 && p.undo_stack.last() == s.root);
}

/// What undo gives back after an operation from `s`: the tree and the undo
/// history as they were in `s`, the message that undo succeeded, and an
/// active node that is in the map.
pub open spec fn undo_restores(s: AppState, after: AppState) -> bool {
    let u = after.undone();
    &&& u.root == s.root
    &&& u.undo_stack == s.undo_stack
    &&& u.message == Some("Undo successful"@)
    &&& u.active_node() is Some
}

/// Undo right after an operation that changes the tree gives back the tree
/// and the undo history, says so, and leaves an active node in the map:
/// where the history was not full before the operation.
pub proof fn law_undo_restores(s: AppState, fresh: u128, copies: Seq<Tree>)
    requires
        s.undo_stack.len() < s.config.max_undo_steps,
    ensures
        undo_restores(s, s.ranked_positive()),
        undo_restores(s, s.ranked_negative()),
        undo_restores(s, s.starred()),
        undo_restores(s, s.unstarred()),
        undo_restores(s, s.symbol_toggled()),
        undo_restores(s, s.exited_edit()),
        undo_restores(s, s.added_child(fresh)),
        undo_restores(s, s.added_sibling(fresh)),
        s.clipboard.len() > 0 ==> undo_restores(s, s.pasted_child(copies)),
        s.clipboard.len() > 0 ==> undo_restores(s, s.pasted_sibling(copies)),
        s.active != s.root.id ==> undo_restores(s, s.deleted()),
{
    let p = s.pushed_undo();
    assert(p.undo_stack == s.undo_stack.push(s.root));
    assert(p.undo_stack.drop_last() =~= s.undo_stack);
    assert(s.root.find(s.root.id) == Some(s.root));
}

/// The undo history never holds more trees than the settings allow (at
/// least one).
pub proof fn law_undo_history_bounded(s: AppState)
    requires
        s.undo_stack.len() <= if s.config.max_undo_steps > 0 { s.config.max_undo_steps as int } else { 1 },
    ensures
        s.pushed_undo().undo_stack.len() <= if s.config.max_undo_steps > 0 { s.config.max_undo_steps as int } else { 1 },
{
}

/// Going to the next search result and back to the previous one returns to
/// the same result, and the other way round.
pub proof fn law_next_previous_inverse(s: AppState)
    requires
        s.search_results.len() > 0,
        s.search_results.len() <= usize::MAX,
        s.current_search_index < s.search_results.len(),
    ensures
        s.next_result().previous_result().current_search_index == s.current_search_index,
        s.next_result().previous_result().active == s.search_results[s.current_search_index as int],
        s.previous_result().next_result().current_search_index == s.current_search_index,
        s.previous_result().next_result().active == s.search_results[s.current_search_index as int],
{
    let n = s.search_results.len() as int;
    let i = s.current_search_index as int;
    if i + 1 < n {
        assert((i + 1) % n == i + 1) by (nonlinear_arith)
            requires
                0 <= i + 1 < n,
        ;
    } else {
        assert((i + 1) % n == 0) by (nonlinear_arith)
            requires
                i + 1 == n,
                n > 0,
        ;
    }
    let j = if i == 0 { n - 1 } else { i - 1 };
    if j + 1 < n {
        assert((j + 1) % n == j + 1) by (nonlinear_arith)
            requires
                0 <= j + 1 < n,
        ;
    } else {
        assert((j + 1) % n == 0) by (nonlinear_arith)
            requires
                j + 1 == n,
                n > 0,
        ;
    }
}

/// A node is found by its identifier exactly where the identifier is among
/// those of all nodes.
pub proof fn law_find_iff_listed(t: Tree, id: u128)
    ensures
        t.find(id) is Some <==> t.ids().contains(id),
    decreases t, 0int,
{
    lemma_find_from_iff(t.children, id, 0);
    if t.id == id {
        assert(t.ids()[0] == id);
    } else {
        if t.ids().contains(id) {
            let k = choose|k: int| 0 <= k < t.ids().len() && t.ids()[k] == id;
            assert(k > 0);
            assert(ids_from(t.children, 0).contains(id)) by {
                assert(ids_from(t.children, 0)[k - 1] == id);
            }
        }
        if ids_from(t.children, 0).contains(id) {
            let k = choose|k: int| 0 <= k < ids_from(t.children, 0).len() && ids_from(t.children, 0)[k] == id;
            assert(t.ids()[k + 1] == id);
        }
    }
}

proof fn lemma_find_from_iff(s: Seq<Tree>, id: u128, i: int)
    requires
        0 <= i <= s.len(),
    ensures
        find_from(s, id, i) is Some <==> ids_from(s, i).contains(id),
    decreases s, s.len() - i,
{
    if i < s.len() {
        law_find_iff_listed(s[i], id);
        lemma_find_from_iff(s, id, i + 1);
        let a = s[i].ids();
        let b = ids_from(s, i + 1);
        assert(ids_from(s, i) == a + b);
        if (a + b).contains(id) {
            let k = choose|k: int| 0 <= k < (a + b).len() && (a + b)[k] == id;
            if k < a.len() {
                assert(a[k] == id);
            } else {
                assert(b[k - a.len()] == id);
            }
        }
        if a.contains(id) {
            let k = choose|k: int| 0 <= k < a.len() && a[k] == id;
            assert((a + b)[k] == id);
        }
        if b.contains(id) {
            let k = choose|k: int| 0 <= k < b.len() && b[k] == id;
            assert((a + b)[a.len() + k] == id);
        }
    } else {
        assert(ids_from(s, i) =~= Seq::<u128>::empty());
    }
}

/// Whether no node of the subtree is collapsed.
pub open spec fn none_collapsed(t: Tree) -> bool
    decreases t, 0int,
{
    !t.collapsed && none_collapsed_from(t.children, 0)
}

pub open spec fn none_collapsed_from(s: Seq<Tree>, i: int) -> bool
    decreases s, s.len() - i,
{
    if 0 <= i < s.len() {
        none_collapsed(s[i]) && none_collapsed_from(s, i + 1)
    } else {
        true
    }
}

/// After expanding all nodes none is collapsed.
pub proof fn law_expand_all_expands(t: Tree)
    ensures
        none_collapsed(t.expand_all()),
    decreases t, 0int,
{
    lemma_expand_all_expands_from(t.children, 0);
}

proof fn lemma_expand_all_expands_from(s: Seq<Tree>, j: int)
    requires
        0 <= j <= s.len(),
    ensures
        none_collapsed_from(expand_all_from(s, 0), j),
    decreases s, s.len() - j,
{
    lemma_expand_all_from(s, 0);
    if j < s.len() {
        assert(expand_all_from(s, 0)[j] == s[j].expand_all());
        law_expand_all_expands(s[j]);
        lemma_expand_all_expands_from(s, j + 1);
    }
}

/// Expanding all nodes after collapsing them all gives what expanding them
/// all gives; collapsing twice is collapsing once.
pub proof fn law_collapse_expand(t: Tree)
    ensures
        t.collapse_all().expand_all() == t.expand_all(),
        t.collapse_all().collapse_all() == t.collapse_all(),
    decreases t, 0int,
{
    lemma_collapse_all_from(t.children, 0);
    lemma_expand_all_from(t.children, 0);
    let c = t.collapse_all();
    lemma_expand_all_from(c.children, 0);
    lemma_collapse_all_from(c.children, 0);
    assert forall|k: int| 0 <= k < t.children.len() implies
        #[trigger] expand_all_from(c.children, 0)[k] == expand_all_from(t.children, 0)[k] by {
        law_collapse_expand(t.children[k]);
    }
    assert forall|k: int| 0 <= k < t.children.len() implies
        #[trigger] collapse_all_from(c.children, 0)[k] == c.children[k] by {
        law_collapse_expand(t.children[k]);
        assert(c.children[k] == t.children[k].collapse_all());
    }
    assert(expand_all_from(c.children, 0) =~= expand_all_from(t.children, 0));
    assert(collapse_all_from(c.children, 0) =~= c.children);
    assert(c.expand_all() =~= t.expand_all());
    assert(c.collapse_all() =~= c);
}

/// Adding a star never takes a node's rating above five, and removing one
/// after adding one gives back the tree where the rating was below five.
pub proof fn law_stars_bounded(s: AppState)
    requires
        s.active_node() matches Some(n) && n.stars <= 5,
    ensures
        s.starred().active_node() matches Some(m) && m.stars <= 5,
        s.active_node().unwrap().stars < 5 ==> s.starred().unstarred().root == s.root,
{
    let n = s.active_node().unwrap();
    let id = s.active;
    let t = s.root;
    lemma_found_id(t, id);
    if n.stars < 5 {
        let n1 = Tree { stars: (n.stars + 1) as u8, ..n };
        lemma_find_after_replace(t, id, n1);
        let n2 = Tree { stars: (n1.stars - 1) as u8, ..n1 };
        lemma_replace_twice(t, id, n1, n2);
        assert(n2 == n);
        lemma_replace_same(t, id);
    }
}

/// Pasting as a child right after copying the active node adds a copy of
/// that node, with new identifiers, as its own last child.
pub proof fn law_copy_then_paste(s: AppState, copies: Seq<Tree>)
    requires
        s.active_node() is Some,
        s.copied().fresh_copies(copies),
    ensures
        copies.len() == 1,
        copies[0].erase_ids() == s.active_node().unwrap().erase_ids(),
        s.copied().pasted_child(copies).root == s.root.replace(
            s.active,
            s.active_node().unwrap().push_child(copies[0]),
        ),
{
    let n = s.active_node().unwrap();
    let c = s.copied();
    assert(c.clipboard == seq![n]);
    assert(copies =~= seq![copies[0]]);
    assert(n.children + copies =~= n.children.push(copies[0]));
    assert(n.append_children(copies) =~= n.push_child(copies[0]));
}

/// Every identifier that a search gives is that of a node of the map.
pub proof fn law_search_results_listed(t: Tree, q: Seq<char>)
    ensures
        forall|k: int| 0 <= k < t.search(q).len() ==> t.ids().contains(#[trigger] t.search(q)[k]),
    decreases t, 0int,
{
    lemma_search_listed_from(t.children, q, 0);
    let a = t.search(q);
    let head: Seq<u128> = if text_matches(t.text, q) { seq![t.id] } else { Seq::empty() };
    let rest = search_from(t.children, q, 0);
    assert(a == head + rest);
    assert(t.ids() == seq![t.id] + ids_from(t.children, 0));
    assert forall|k: int| 0 <= k < a.len() implies t.ids().contains(#[trigger] a[k]) by {
        if k < head.len() {
            assert(t.ids()[0] == a[k]);
        } else {
            let m = k - head.len();
            assert(a[k] == rest[m]);
            let w = choose|w: int| 0 <= w < ids_from(t.children, 0).len() && ids_from(t.children, 0)[w] == rest[m];
            assert(t.ids()[1 + w] == rest[m]);
        }
    }
}

proof fn lemma_search_listed_from(s: Seq<Tree>, q: Seq<char>, i: int)
    ensures
        forall|k: int| 0 <= k < search_from(s, q, i).len()
            ==> ids_from(s, i).contains(#[trigger] search_from(s, q, i)[k]),
    decreases s, s.len() - i,
{
    if 0 <= i < s.len() {
        law_search_results_listed(s[i], q);
        lemma_search_listed_from(s, q, i + 1);
        let a = s[i].search(q);
        let b = search_from(s, q, i + 1);
        let x = s[i].ids();
        let y = ids_from(s, i + 1);
        assert(search_from(s, q, i) == a + b);
        assert(ids_from(s, i) == x + y);
        assert forall|k: int| 0 <= k < (a + b).len() implies (x + y).contains(#[trigger] (a + b)[k]) by {
            if k < a.len() {
                assert((a + b)[k] == a[k]);
                let w = choose|w: int| 0 <= w < x.len() && x[w] == a[k];
                assert((x + y)[w] == a[k]);
            } else {
                assert((a + b)[k] == b[k - a.len()]);
                let w = choose|w: int| 0 <= w < y.len() && y[w] == b[k - a.len()];
                assert((x + y)[x.len() + w] == b[k - a.len()]);
            }
        }
    }
}

/// After collapsing to a level, a node is found by an identifier exactly
/// where the identifier has a level, and that node is collapsed exactly
/// where its level is the target level or deeper (the top node being at
/// level `cur`).
pub proof fn law_collapse_to_level_by_level(t: Tree, target: int, cur: int, id: u128)
    ensures
        (t.collapse_to_level(target, cur).find(id) is Some) == (t.level(id, cur) is Some),
        t.collapse_to_level(target, cur).find(id) matches Some(n)
            ==> n.collapsed == (t.level(id, cur).unwrap() >= target),
    decreases t, 0int,
{
    if t.id != id {
        lemma_collapse_level_from(t.children, target, cur + 1, id, 0);
    }
}

proof fn lemma_collapse_level_from(s: Seq<Tree>, target: int, cur: int, id: u128, i: int)
    requires
        0 <= i <= s.len(),
    ensures
        (find_from(collapse_to_level_from(s, target, cur, 0), id, i) is Some)
            == (level_from(s, id, cur, i) is Some),
        find_from(collapse_to_level_from(s, target, cur, 0), id, i) matches Some(n)
            ==> n.collapsed == (level_from(s, id, cur, i).unwrap() >= target),
    decreases s, s.len() - i,
{
    lemma_collapse_to_level_from(s, target, cur, 0);
    if i < s.len() {
        law_collapse_to_level_by_level(s[i], target, cur, id);
        lemma_collapse_level_from(s, target, cur, id, i + 1);
    }
}

/// The identifiers, in pre-order, of the subtrees from `i` up to `k`.
spec fn ids_between(s: Seq<Tree>, i: int, k: int) -> Seq<u128>
    decreases k - i,
{
    if 0 <= i < k && k <= s.len() {
        s[i].ids() + ids_between(s, i + 1, k)
    } else {
        Seq::empty()
    }
}

proof fn lemma_ids_between(s: Seq<Tree>, i: int, k: int)
    requires
        0 <= i <= k <= s.len(),
    ensures
        ids_from(s, i) == ids_between(s, i, k) + ids_from(s, k),
    decreases k - i,
{
    if i < k {
        lemma_ids_between(s, i + 1, k);
        assert(ids_from(s, i) =~= s[i].ids() + (ids_between(s, i + 1, k) + ids_from(s, k)));
    } else {
        assert(ids_between(s, i, k) + ids_from(s, k) =~= ids_from(s, k));
    }
}

proof fn lemma_ids_between_same(s: Seq<Tree>, s2: Seq<Tree>, i: int, k: int)
    requires
        0 <= i <= k <= s.len(),
        k <= s2.len(),
        forall|j: int| i <= j < k ==> s2[j] == s[j],
    ensures
        ids_between(s2, i, k) == ids_between(s, i, k),
    decreases k - i,
{
    if i < k {
        lemma_ids_between_same(s, s2, i + 1, k);
    }
}

proof fn lemma_ids_from_shift(s: Seq<Tree>, s2: Seq<Tree>, i: int, j: int)
    requires
        0 <= i <= s.len(),
        0 <= j <= s2.len(),
        s2.len() - j == s.len() - i,
        forall|k: int| i <= k < s.len() ==> s2[k + j - i] == #[trigger] s[k],
    ensures
        ids_from(s2, j) == ids_from(s, i),
    decreases s.len() - i,
{
    if i < s.len() {
        assert(s2[i + j - i] == s[i]);
        lemma_ids_from_shift(s, s2, i + 1, j + 1);
    }
}

proof fn lemma_position_found(s: Seq<Tree>, id: u128, i: int)
    requires
        0 <= i,
    ensures
        position(s, id, i) matches Some(p) ==> i <= p < s.len() && s[p].id == id,
    decreases s.len() - i,
{
    if i < s.len() && s[i].id != id {
        lemma_position_found(s, id, i + 1);
    }
}

/// Removing a node takes out exactly its subtree: the identifiers of the
/// map, in pre-order, are those before without the run of the removed
/// node's, and the removed node has the identifier asked for. Where no
/// identifier occurs twice in the map, that identifier is no longer in it.
pub proof fn law_remove_takes_subtree(t: Tree, id: u128)
    ensures
        t.remove(id) matches Some((r, d)) ==> d.id == id && exists|a: Seq<u128>, b: Seq<u128>|
            #![trigger a + d.ids() + b, a + b]
            t.ids() == a + d.ids() + b && r.ids() == a + b,
        t.remove(id) matches Some((r, d)) ==> (t.ids().no_duplicates() ==> !r.ids().contains(id)),
    decreases t, 0int,
{
    let cs = t.children;
    lemma_position_found(cs, id, 0);
    match position(cs, id, 0) {
        Some(p) => {
            let r = Tree { children: cs.remove(p), ..t };
            let d = cs[p];
            let a = seq![t.id] + ids_between(cs, 0, p);
            let b = ids_from(cs, p + 1);
            lemma_ids_between(cs, 0, p);
            lemma_ids_between(cs.remove(p), 0, p);
            lemma_ids_between_same(cs, cs.remove(p), 0, p);
            lemma_ids_from_shift(cs, cs.remove(p), p + 1, p);
            assert(ids_from(cs, p) == d.ids() + b);
            assert(t.ids() =~= a + d.ids() + b);
            assert(r.ids() =~= a + b);
            lemma_no_longer_listed(t.ids(), a, d.ids(), b, r.ids(), id);
        },
        None => {
            lemma_remove_from_takes(cs, id, 0);
            match remove_from(cs, id, 0) {
                Some((cs2, d)) => {
                    let r = Tree { children: cs2, ..t };
                    let (a0, b0) = choose|a0: Seq<u128>, b0: Seq<u128>|
                        ids_from(cs, 0) == a0 + d.ids() + b0 && ids_from(cs2, 0) == a0 + b0;
                    let a = seq![t.id] + a0;
                    assert(t.ids() =~= a + d.ids() + b0);
                    assert(r.ids() =~= a + b0);
                    lemma_no_longer_listed(t.ids(), a, d.ids(), b0, r.ids(), id);
                },
                None => {},
            }
        },
    }
}

proof fn lemma_no_longer_listed(all: Seq<u128>, a: Seq<u128>, m: Seq<u128>, b: Seq<u128>, rest: Seq<u128>, id: u128)
    requires
        all == a + m + b,
        rest == a + b,
        m.len() > 0,
        m[0] == id,
    ensures
        all.no_duplicates() ==> !rest.contains(id),
{
    if all.no_duplicates() && rest.contains(id) {
        let j = choose|j: int| 0 <= j < rest.len() && rest[j] == id;
        assert(all[a.len() as int] == id);
        if j < a.len() {
            assert(all[j] == id);
        } else {
            assert(all[j + m.len()] == id);
        }
    }
}

proof fn lemma_remove_from_takes(s: Seq<Tree>, id: u128, i: int)
    requires
        0 <= i,
    ensures
        remove_from(s, id, i) matches Some((s2, d)) ==> {
            &&& d.id == id
            &&& s2.len() == s.len()
            &&& forall|j: int| 0 <= j < i ==> s2[j] == s[j]
            &&& exists|a: Seq<u128>, b: Seq<u128>|
                #![trigger a + d.ids() + b, a + b]
                ids_from(s, i) == a + d.ids() + b && ids_from(s2, i) == a + b
        },
    decreases s, s.len() - i,
{
    if 0 <= i < s.len() {
        law_remove_takes_subtree(s[i], id);
        match s[i].remove(id) {
            Some((c, d)) => {
                let s2 = s.update(i, c);
                let (a0, b0) = choose|a0: Seq<u128>, b0: Seq<u128>|
                    s[i].ids() == a0 + d.ids() + b0 && c.ids() == a0 + b0;
                lemma_ids_from_shift(s, s2, i + 1, i + 1);
                let b = b0 + ids_from(s, i + 1);
                assert(ids_from(s, i) =~= a0 + d.ids() + b);
                assert(ids_from(s2, i) =~= a0 + b);
            },
            None => {
                lemma_remove_from_takes(s, id, i + 1);
                match remove_from(s, id, i + 1) {
                    Some((s2, d)) => {
                        let (a0, b0) = choose|a0: Seq<u128>, b0: Seq<u128>|
                            ids_from(s, i + 1) == a0 + d.ids() + b0 && ids_from(s2, i + 1) == a0 + b0;
                        let a = s[i].ids() + a0;
                        assert(s2[i] == s[i]);
                        assert(ids_from(s, i) =~= a + d.ids() + b0);
                        assert(ids_from(s2, i) =~= a + b0);
                    },
                    None => {},
                }
            },
        }
    }
}

/// Opening the active node for editing and confirming at once, without a
/// key typed, leaves the map as it was; the map is saved on the undo history
/// and marked as changed.
pub proof fn law_edit_without_typing_keeps_map(s: AppState)
    ensures
        s.entered_edit().exited_edit().root == s.root,
        s.entered_edit().exited_edit().mode == Mode::Normal,
{
    let e = s.entered_edit();
    let p = e.pushed_undo();
    assert(p.root == s.root);
    assert(p.active == s.active);
    match s.active_node() {
        Some(n) => {
            assert(e.edit_buffer == n.text);
            assert(p.active_node() == Some(n));
            assert(Tree { text: n.text, ..n } == n);
            lemma_replace_same(s.root, s.active);
        },
        None => {},
    }
}

proof fn lemma_contains_concat(a: Seq<u128>, b: Seq<u128>, x: u128)
    ensures
        a.contains(x) ==> (a + b).contains(x),
        b.contains(x) ==> (a + b).contains(x),
        (a + b).contains(x) ==> a.contains(x) || b.contains(x),
{
    if a.contains(x) {
        let k = choose|k: int| 0 <= k < a.len() && a[k] == x;
        assert((a + b)[k] == x);
    }
    if b.contains(x) {
        let k = choose|k: int| 0 <= k < b.len() && b[k] == x;
        assert((a + b)[a.len() + k] == x);
    }
    if (a + b).contains(x) {
        let k = choose|k: int| 0 <= k < (a + b).len() && (a + b)[k] == x;
        if k < a.len() {
            assert(a[k] == x);
        } else {
            assert(b[k - a.len()] == x);
        }
    }
}

proof fn lemma_distinct_split(a: Seq<u128>, b: Seq<u128>)
    requires
        (a + b).no_duplicates(),
    ensures
        a.no_duplicates(),
        b.no_duplicates(),
        forall|x: u128| a.contains(x) ==> !b.contains(x),
{
    let c = a + b;
    assert forall|i: int, j: int| 0 <= i < a.len() && 0 <= j < a.len() && i != j implies a[i] != a[j] by {
        assert(c[i] == a[i] && c[j] == a[j]);
    }
    assert forall|i: int, j: int| 0 <= i < b.len() && 0 <= j < b.len() && i != j implies b[i] != b[j] by {
        assert(c[a.len() + i] == b[i] && c[a.len() + j] == b[j]);
    }
    assert forall|x: u128| a.contains(x) implies !b.contains(x) by {
        let i = choose|i: int| 0 <= i < a.len() && a[i] == x;
        if b.contains(x) {
            let j = choose|j: int| 0 <= j < b.len() && b[j] == x;
            assert(c[i] == c[a.len() + j]);
        }
    }
}

/// The identifiers of a subtree of `s` from `i` on are among those of `s`.
proof fn lemma_ids_in_from(s: Seq<Tree>, i: int, m: int, x: u128)
    requires
        0 <= i <= m < s.len(),
        s[m].ids().contains(x),
    ensures
        ids_from(s, i).contains(x),
    decreases m - i,
{
    lemma_contains_concat(s[i].ids(), ids_from(s, i + 1), x);
    if i < m {
        lemma_ids_in_from(s, i + 1, m, x);
    }
}

proof fn lemma_ids_in_between(s: Seq<Tree>, i: int, k: int, m: int, x: u128)
    requires
        0 <= i <= m < k <= s.len(),
        s[m].ids().contains(x),
    ensures
        ids_between(s, i, k).contains(x),
    decreases m - i,
{
    lemma_contains_concat(s[i].ids(), ids_between(s, i + 1, k), x);
    if i < m {
        lemma_ids_in_between(s, i + 1, k, m, x);
    }
}

/// A node that has a direct child with identifier `x` lies below the top:
/// `x` is among the identifiers below it.
proof fn lemma_parent_listed(t: Tree, x: u128)
    ensures
        t.parent(x) is Some ==> ids_from(t.children, 0).contains(x),
    decreases t, 0int,
{
    lemma_position_found(t.children, x, 0);
    if position(t.children, x, 0) is Some {
        let k = position(t.children, x, 0).unwrap();
        assert(t.children[k].ids()[0] == x);
        lemma_ids_in_from(t.children, 0, k, x);
    } else {
        lemma_parent_from_listed(t.children, x, 0);
    }
}

proof fn lemma_parent_from_listed(s: Seq<Tree>, x: u128, i: int)
    requires
        0 <= i,
    ensures
        parent_from(s, x, i) is Some ==> ids_from(s, i).contains(x),
    decreases s, s.len() - i,
{
    if 0 <= i < s.len() {
        lemma_parent_listed(s[i], x);
        lemma_parent_from_listed(s, x, i + 1);
        lemma_contains_concat(seq![s[i].id], ids_from(s[i].children, 0), x);
        lemma_contains_concat(s[i].ids(), ids_from(s, i + 1), x);
    }
}

proof fn lemma_parent_from_index(s: Seq<Tree>, x: u128, i: int) -> (k: int)
    requires
        0 <= i,
        parent_from(s, x, i) is Some,
    ensures
        i <= k < s.len(),
        s[k].parent(x) == parent_from(s, x, i),
        forall|m: int| i <= m < k ==> s[m].parent(x) is None,
    decreases s.len() - i,
{
    if s[i].parent(x) is Some {
        i
    } else {
        lemma_parent_from_index(s, x, i + 1)
    }
}

proof fn lemma_parent_from_at(s: Seq<Tree>, x: u128, i: int, k: int)
    requires
        0 <= i <= k < s.len(),
        forall|m: int| i <= m < k ==> s[m].parent(x) is None,
    ensures
        parent_from(s, x, i) == (match s[k].parent(x) {
            Some(p) => Some(p),
            None => parent_from(s, x, k + 1),
        }),
    decreases k - i,
{
    if i < k {
        lemma_parent_from_at(s, x, i + 1, k);
    }
}

proof fn lemma_position_none(s: Seq<Tree>, x: u128, i: int)
    requires
        0 <= i,
        forall|m: int| i <= m < s.len() ==> s[m].id != x,
    ensures
        position(s, x, i) is None,
    decreases s.len() - i,
{
    if i < s.len() {
        lemma_position_none(s, x, i + 1);
    }
}

proof fn lemma_position_at(s: Seq<Tree>, x: u128, i: int, j: int)
    requires
        0 <= i <= j < s.len(),
        s[j].id == x,
        forall|m: int| i <= m < j ==> s[m].id != x,
    ensures
        position(s, x, i) == Some(j),
    decreases j - i,
{
    if i < j {
        lemma_position_at(s, x, i + 1, j);
    }
}

/// The children of a node without repeated identifiers have distinct
/// identifiers: each is found at its own position.
proof fn lemma_child_position(p: Tree, j: int)
    requires
        p.ids().no_duplicates(),
        0 <= j < p.children.len(),
    ensures
        position(p.children, p.children[j].id, 0) == Some(j),
{
    let cs = p.children;
    let x = cs[j].id;
    lemma_distinct_split(seq![p.id], ids_from(cs, 0));
    lemma_ids_between(cs, 0, j);
    lemma_distinct_split(ids_between(cs, 0, j), ids_from(cs, j));
    assert(cs[j].ids()[0] == x);
    lemma_ids_in_from(cs, j, j, x);
    assert forall|m: int| 0 <= m < j implies cs[m].id != x by {
        assert(cs[m].ids()[0] == cs[m].id);
        lemma_ids_in_between(cs, 0, j, m, cs[m].id);
    }
    lemma_position_at(cs, x, 0, j);
}

/// Where no identifier repeats, the node that `parent` gives for one child
/// is the one it gives for each of that node's children, and no identifier
/// repeats below it either.
proof fn lemma_parent_of_sibling(t: Tree, a: u128, j: int)
    requires
        t.ids().no_duplicates(),
        t.parent(a) is Some,
        0 <= j < t.parent(a).unwrap().children.len(),
    ensures
        t.parent(t.parent(a).unwrap().children[j].id) == t.parent(a),
        t.parent(a).unwrap().ids().no_duplicates(),
    decreases t, 0int,
{
    let cs = t.children;
    let p = t.parent(a).unwrap();
    let b = p.children[j].id;
    if position(cs, a, 0) is Some {
        assert(p == t);
        lemma_child_position(t, j);
    } else {
        let k = lemma_parent_from_index(cs, a, 0);
        let c = cs[k];
        lemma_distinct_split(seq![t.id], ids_from(cs, 0));
        lemma_ids_between(cs, 0, k);
        lemma_distinct_split(ids_between(cs, 0, k), ids_from(cs, k));
        lemma_distinct_split(c.ids(), ids_from(cs, k + 1));
        lemma_parent_of_sibling(c, a, j);
        lemma_parent_listed(c, b);
        lemma_distinct_split(seq![c.id], ids_from(c.children, 0));
        lemma_contains_concat(seq![c.id], ids_from(c.children, 0), b);
        assert(c.ids().contains(b));
        lemma_contains_concat(c.ids(), ids_from(cs, k + 1), b);
        assert(ids_from(cs, k) == c.ids() + ids_from(cs, k + 1));
        assert(ids_from(cs, k).contains(b));
        assert forall|m: int| 0 <= m < cs.len() && m != k implies !cs[m].ids().contains(b) by {
            if cs[m].ids().contains(b) {
                if m < k {
                    lemma_ids_in_between(cs, 0, k, m, b);
                    assert(ids_between(cs, 0, k).contains(b));
                } else {
                    lemma_ids_in_from(cs, k + 1, m, b);
                    assert(ids_from(cs, k + 1).contains(b));
                }
            }
        }
        assert forall|m: int| 0 <= m < cs.len() implies cs[m].id != b by {
            assert(cs[m].ids()[0] == cs[m].id);
            if m == k {
                assert(seq![c.id].contains(c.id));
            }
        }
        assert forall|m: int| 0 <= m < k implies cs[m].parent(b) is None by {
            lemma_parent_listed(cs[m], b);
            lemma_contains_concat(seq![cs[m].id], ids_from(cs[m].children, 0), b);
        }
        lemma_position_none(cs, b, 0);
        lemma_parent_from_at(cs, b, 0, k);
    }
}

/// Going down to the next sibling and back up returns to the active node,
/// and so does going up and back down, wherever the first move moves: where
/// no identifier occurs twice in the map.
pub proof fn law_down_up_returns(s: AppState)
    requires
        s.root.ids().no_duplicates(),
    ensures
        s.moved_down().active != s.active ==> s.moved_down().moved_up() == s,
        s.moved_up().active != s.active ==> s.moved_up().moved_down() == s,
{
    let a = s.active;
    if s.root.parent(a) is Some {
        let p = s.root.parent(a).unwrap();
        lemma_position_found(p.children, a, 0);
        if position(p.children, a, 0) is Some {
            let i = position(p.children, a, 0).unwrap();
            if i + 1 < p.children.len() {
                let d = s.moved_down();
                lemma_parent_of_sibling(s.root, a, i + 1);
                lemma_child_position(p, i + 1);
                assert(d.moved_up() =~= s);
            }
            if i > 0 {
                let u = s.moved_up();
                lemma_parent_of_sibling(s.root, a, i - 1);
                lemma_child_position(p, i - 1);
                assert(u.moved_down() =~= s);
            }
        }
    }
}

/// Replacing the node that `find` gives changes only its run of
/// identifiers in pre-order.
pub proof fn lemma_replace_ids(t: Tree, id: u128, m: Tree)
    requires
        t.find(id) is Some,
    ensures
        exists|a: Seq<u128>, b: Seq<u128>|
            #![trigger a + t.find(id).unwrap().ids() + b, a + m.ids() + b]
            t.ids() == a + t.find(id).unwrap().ids() + b && t.replace(id, m).ids() == a + m.ids() + b,
    decreases t, 0int,
{
    let e = Seq::<u128>::empty();
    if t.id == id {
        assert(t.ids() =~= e + t.ids() + e);
        assert(m.ids() =~= e + m.ids() + e);
    } else {
        lemma_replace_ids_from(t.children, id, m, 0);
        let f = t.find(id).unwrap();
        let (a0, b0) = choose|a0: Seq<u128>, b0: Seq<u128>|
            ids_from(t.children, 0) == a0 + f.ids() + b0
                && ids_from(replace_from(t.children, id, m, 0), 0) == a0 + m.ids() + b0;
        let a = seq![t.id] + a0;
        assert(t.ids() =~= a + f.ids() + b0);
        assert(t.replace(id, m).ids() =~= a + m.ids() + b0);
    }
}

proof fn lemma_replace_ids_from(s: Seq<Tree>, id: u128, m: Tree, i: int)
    requires
        0 <= i,
        find_from(s, id, i) is Some,
    ensures
        replace_from(s, id, m, i).len() == s.len(),
        forall|j: int| 0 <= j < i ==> replace_from(s, id, m, i)[j] == s[j],
        exists|a: Seq<u128>, b: Seq<u128>|
            #![trigger a + find_from(s, id, i).unwrap().ids() + b, a + m.ids() + b]
            ids_from(s, i) == a + find_from(s, id, i).unwrap().ids() + b
                && ids_from(replace_from(s, id, m, i), i) == a + m.ids() + b,
    decreases s, s.len() - i,
{
    if 0 <= i < s.len() {
        if s[i].find(id) is Some {
            lemma_replace_ids(s[i], id, m);
            let f = s[i].find(id).unwrap();
            let c = s[i].replace(id, m);
            let s2 = s.update(i, c);
            let (a0, b0) = choose|a0: Seq<u128>, b0: Seq<u128>|
                s[i].ids() == a0 + f.ids() + b0 && c.ids() == a0 + m.ids() + b0;
            lemma_ids_from_shift(s, s2, i + 1, i + 1);
            let b = b0 + ids_from(s, i + 1);
            assert(ids_from(s, i) =~= a0 + f.ids() + b);
            assert(ids_from(s2, i) =~= a0 + m.ids() + b);
        } else {
            lemma_replace_ids_from(s, id, m, i + 1);
            let f = find_from(s, id, i + 1).unwrap();
            let s2 = replace_from(s, id, m, i + 1);
            let (a0, b0) = choose|a0: Seq<u128>, b0: Seq<u128>|
                ids_from(s, i + 1) == a0 + f.ids() + b0 && ids_from(s2, i + 1) == a0 + m.ids() + b0;
            let a = s[i].ids() + a0;
            assert(s2[i] == s[i]);
            assert(ids_from(s, i) =~= a + f.ids() + b0);
            assert(ids_from(s2, i) =~= a + m.ids() + b0);
        }
    }
}

/// The identifiers of a sequence of subtrees followed by more are theirs
/// followed by those of the others.
pub proof fn lemma_ids_from_concat(s: Seq<Tree>, more: Seq<Tree>)
    ensures
        ids_from(s + more, 0) == ids_from(s, 0) + ids_from(more, 0),
{
    let t = s + more;
    lemma_ids_between(t, 0, s.len() as int);
    lemma_ids_between(s, 0, s.len() as int);
    lemma_ids_between_same(s, t, 0, s.len() as int);
    assert forall|k: int| 0 <= k < more.len() implies t[k + s.len() - 0] == #[trigger] more[k] by {}
    lemma_ids_from_shift(more, t, 0, s.len() as int);
    assert(ids_from(s, s.len() as int) == Seq::<u128>::empty());
    assert(ids_from(s, 0) =~= ids_between(s, 0, s.len() as int));
}

/// Adding subtrees with new identifiers under a node of a map without
/// repeated identifiers keeps them distinct.
pub proof fn law_append_fresh_keeps_ids_distinct(t: Tree, id: u128, copies: Seq<Tree>)
    requires
        t.ids().no_duplicates(),
        t.find(id) is Some,
        crate::node::fresh_over(t.ids(), ids_from(copies, 0)),
    ensures
        t.replace(id, t.find(id).unwrap().append_children(copies)).ids().no_duplicates(),
{
    let n = t.find(id).unwrap();
    let m = n.append_children(copies);
    let c = ids_from(copies, 0);
    lemma_replace_ids(t, id, m);
    let (a, b) = choose|a: Seq<u128>, b: Seq<u128>|
        t.ids() == a + n.ids() + b && t.replace(id, m).ids() == a + m.ids() + b;
    lemma_ids_from_concat(n.children, copies);
    assert(m.ids() =~= n.ids() + c);
    let x = a + n.ids();
    let r = t.replace(id, m).ids();
    assert(r =~= x + c + b);
    assert(t.ids() =~= x + b);
    assert forall|i: int, j: int| 0 <= i < r.len() && 0 <= j < r.len() && i != j implies r[i] != r[j] by {
        let xl = x.len() as int;
        let cl = c.len() as int;
        let in_c_i = xl <= i < xl + cl;
        let in_c_j = xl <= j < xl + cl;
        if !in_c_i && !in_c_j {
            let ii = if i < xl { i } else { i - cl };
            let jj = if j < xl { j } else { j - cl };
            assert(t.ids()[ii] == r[i] && t.ids()[jj] == r[j]);
        } else if xl <= i < xl + cl && xl <= j < xl + cl {
            assert(c[i - xl] == r[i] && c[j - xl] == r[j]);
        } else if xl <= i < xl + cl {
            assert(c.contains(r[i]));
            if j < xl {
                assert(t.ids()[j] == r[j]);
            } else {
                assert(t.ids()[j - cl] == r[j]);
            }
        } else {
            assert(c.contains(r[j]));
            if i < xl {
                assert(t.ids()[i] == r[i]);
            } else {
                assert(t.ids()[i - cl] == r[i]);
            }
        }
    }
}

} // verus!
