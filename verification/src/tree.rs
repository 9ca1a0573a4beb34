//! The mathematical model of a mind map: a tree of nodes, each with an
//! identifier, a text, its children in order, and its display metadata.
//!
//! Every query and update of the map is specified here as a spec function over
//! this model. Searches visit the nodes in pre-order (a node before its
//! children, children from first to last), so where an identifier occurs more
//! than once in a map built by hand, the first occurrence in pre-order is the
//! one found. The editor's own operations keep identifiers distinct.
use vstd::prelude::*;
use crate::text::{seq_contains, spec_to_lowercase};

verus! {

/// One node of the model, with its whole subtree.
#[verifier::ext_equal]
pub struct Tree {
    pub id: u128,
    pub text: Seq<char>,
    pub children: Seq<Tree>,
    pub collapsed: bool,
    pub rank_positive: i32,
    pub rank_negative: i32,
    pub stars: u8,
    pub symbol: Option<char>,
    pub hidden: bool,
}

impl Tree {
    /// The first node of the subtree, in pre-order, with the given identifier.
    pub open spec fn find(self, id: u128) -> Option<Tree>
        decreases self, 0int,
    {
        if self.id == id {
            Some(self)
        } else {
            find_from(self.children, id, 0)
        }
    }

    /// The subtree with the node that `find` gives replaced by `new`.
    pub open spec fn replace(self, id: u128, new: Tree) -> Tree
        decreases self, 0int,
    {
        if self.id == id {
            new
        } else {
            Tree { children: replace_from(self.children, id, new, 0), ..self }
        }
    }

    /// The identifiers of all nodes, in pre-order.
    pub open spec fn ids(self) -> Seq<u128>
        decreases self, 0int,
    {
        seq![self.id] + ids_from(self.children, 0)
    }

    /// The identifiers, in pre-order, of the nodes whose text contains the
    /// query, both taken in lower case.
    pub open spec fn search(self, q: Seq<char>) -> Seq<u128>
        decreases self, 0int,
    {
        (if text_matches(self.text, q) {
            seq![self.id]
        } else {
            Seq::empty()
        }) + search_from(self.children, q, 0)
    }

    /// The depth of the subtree: 0 for a leaf.
    pub open spec fn height(self) -> nat
        decreases self, 0int,
    {
        height_from(self.children, 0)
    }

    /// The level of the first node with the given identifier, counting the
    /// root of this subtree as level `cur`.
    pub open spec fn level(self, id: u128, cur: int) -> Option<int>
        decreases self, 0int,
    {
        if self.id == id {
            Some(cur)
        } else {
            level_from(self.children, id, cur + 1, 0)
        }
    }

    /// Every node collapsed.
    pub open spec fn collapse_all(self) -> Tree
        decreases self, 0int,
    {
        Tree { collapsed: true, children: collapse_all_from(self.children, 0), ..self }
    }

    /// Every node expanded.
    pub open spec fn expand_all(self) -> Tree
        decreases self, 0int,
    {
        Tree { collapsed: false, children: expand_all_from(self.children, 0), ..self }
    }

    /// Every node at level `target` or deeper collapsed and every node above
    /// it expanded, the root of this subtree being at level `cur`.
    pub open spec fn collapse_to_level(self, target: int, cur: int) -> Tree
        decreases self, 0int,
    {
        Tree {
            collapsed: cur >= target,
            children: collapse_to_level_from(self.children, target, cur + 1, 0),
            ..self
        }
    }

    /// Removal of the first node with the given identifier below the root:
    /// a direct child of the root is looked for first, then each child's
    /// subtree in order. The result holds the new tree and the removed node.
    pub open spec fn remove(self, id: u128) -> Option<(Tree, Tree)>
        decreases self, 0int,
    {
        match position(self.children, id, 0) {
            Some(p) => Some((Tree { children: self.children.remove(p), ..self }, self.children[p])),
            None => match remove_from(self.children, id, 0) {
                Some((cs, r)) => Some((Tree { children: cs, ..self }, r)),
                None => None,
            },
        }
    }

    /// The node that has a direct child with the given identifier: this node
    /// if one of its own children has it, else the first such node in the
    /// children's subtrees, in order.
    pub open spec fn parent(self, child_id: u128) -> Option<Tree>
        decreases self, 0int,
    {
        if position(self.children, child_id, 0) is Some {
            Some(self)
        } else {
            parent_from(self.children, child_id, 0)
        }
    }

    /// The subtree with the node that `parent` gives replaced by `new`.
    pub open spec fn replace_parent(self, child_id: u128, new: Tree) -> Tree
        decreases self, 0int,
    {
        if position(self.children, child_id, 0) is Some {
            new
        } else {
            Tree { children: replace_parent_from(self.children, child_id, new, 0), ..self }
        }
    }

    /// The identifier of the parent of the first node, in pre-order below the
    /// root, with the given identifier.
    pub open spec fn parent_id(self, child_id: u128) -> Option<u128>
        decreases self, 0int,
    {
        parent_id_from(self.children, self.id, child_id, 0)
    }

    /// The subtree with every identifier set to 0: what remains of it where
    /// identifiers are not compared.
    pub open spec fn erase_ids(self) -> Tree
        decreases self, 0int,
    {
        Tree { id: 0, children: erase_ids_from(self.children, 0), ..self }
    }

    /// This node with `child` added as its last child.
    pub open spec fn push_child(self, child: Tree) -> Tree {
        Tree { children: self.children.push(child), ..self }
    }

    /// This node with the given nodes added, in order, after its children.
    pub open spec fn append_children(self, more: Seq<Tree>) -> Tree {
        Tree { children: self.children + more, ..self }
    }
}

pub open spec fn find_from(s: Seq<Tree>, id: u128, i: int) -> Option<Tree>
    decreases s, s.len() - i,
{
    if 0 <= i < s.len() {
        match s[i].find(id) {
            Some(t) => Some(t),
            None => find_from(s, id, i + 1),
        }
    } else {
        None
    }
}

pub open spec fn replace_from(s: Seq<Tree>, id: u128, new: Tree, i: int) -> Seq<Tree>
    decreases s, s.len() - i,
{
    if 0 <= i < s.len() {
        if s[i].find(id) is Some {
            s.update(i, s[i].replace(id, new))
        } else {
            replace_from(s, id, new, i + 1)
        }
    } else {
        s
    }
}

pub open spec fn ids_from(s: Seq<Tree>, i: int) -> Seq<u128>
    decreases s, s.len() - i,
{
    if 0 <= i < s.len() {
        s[i].ids() + ids_from(s, i + 1)
    } else {
        Seq::empty()
    }
}

/// Whether a node's text matches a search query: the query, in lower case,
/// occurs in the text, in lower case.
pub open spec fn text_matches(text: Seq<char>, q: Seq<char>) -> bool {
    seq_contains(spec_to_lowercase(text), spec_to_lowercase(q))
}

pub open spec fn search_from(s: Seq<Tree>, q: Seq<char>, i: int) -> Seq<u128>
    decreases s, s.len() - i,
{
    if 0 <= i < s.len() {
        s[i].search(q) + search_from(s, q, i + 1)
    } else {
        Seq::empty()
    }
}

pub open spec fn height_from(s: Seq<Tree>, i: int) -> nat
    decreases s, s.len() - i,
{
    if 0 <= i < s.len() {
        let h = s[i].height() + 1;
        let rest = height_from(s, i + 1);
        if h >= rest {
            h
        } else {
            rest
        }
    } else {
        0
    }
}

pub open spec fn level_from(s: Seq<Tree>, id: u128, cur: int, i: int) -> Option<int>
    decreases s, s.len() - i,
{
    if 0 <= i < s.len() {
        match s[i].level(id, cur) {
            Some(l) => Some(l),
            None => level_from(s, id, cur, i + 1),
        }
    } else {
        None
    }
}

pub open spec fn collapse_all_from(s: Seq<Tree>, i: int) -> Seq<Tree>
    decreases s, s.len() - i,
{
    if 0 <= i < s.len() {
        seq![s[i].collapse_all()] + collapse_all_from(s, i + 1)
    } else {
        Seq::empty()
    }
}

pub open spec fn expand_all_from(s: Seq<Tree>, i: int) -> Seq<Tree>
    decreases s, s.len() - i,
{
    if 0 <= i < s.len() {
        seq![s[i].expand_all()] + expand_all_from(s, i + 1)
    } else {
        Seq::empty()
    }
}

pub open spec fn collapse_to_level_from(s: Seq<Tree>, target: int, cur: int, i: int) -> Seq<Tree>
    decreases s, s.len() - i,
{
    if 0 <= i < s.len() {
        seq![s[i].collapse_to_level(target, cur)] + collapse_to_level_from(s, target, cur, i + 1)
    } else {
        Seq::empty()
    }
}

/// The first index at or after `i` of a node with the given identifier.
pub open spec fn position(s: Seq<Tree>, id: u128, i: int) -> Option<int>
    decreases s.len() - i,
{
    if 0 <= i < s.len() {
        if s[i].id == id {
            Some(i)
        } else {
            position(s, id, i + 1)
        }
    } else {
        None
    }
}

pub open spec fn remove_from(s: Seq<Tree>, id: u128, i: int) -> Option<(Seq<Tree>, Tree)>
    decreases s, s.len() - i,
{
    if 0 <= i < s.len() {
        match s[i].remove(id) {
            Some((c, r)) => Some((s.update(i, c), r)),
            None => remove_from(s, id, i + 1),
        }
    } else {
        None
    }
}

pub open spec fn parent_from(s: Seq<Tree>, child_id: u128, i: int) -> Option<Tree>
    decreases s, s.len() - i,
{
    if 0 <= i < s.len() {
        match s[i].parent(child_id) {
            Some(p) => Some(p),
            None => parent_from(s, child_id, i + 1),
        }
    } else {
        None
    }
}

pub open spec fn replace_parent_from(s: Seq<Tree>, child_id: u128, new: Tree, i: int) -> Seq<Tree>
    decreases s, s.len() - i,
{
    if 0 <= i < s.len() {
        if s[i].parent(child_id) is Some {
            s.update(i, s[i].replace_parent(child_id, new))
        } else {
            replace_parent_from(s, child_id, new, i + 1)
        }
    } else {
        s
    }
}

pub open spec fn parent_id_from(s: Seq<Tree>, pid: u128, child_id: u128, i: int) -> Option<u128>
    decreases s, s.len() - i,
{
    if 0 <= i < s.len() {
        if s[i].id == child_id {
            Some(pid)
        } else {
            match s[i].parent_id(child_id) {
                Some(p) => Some(p),
                None => parent_id_from(s, pid, child_id, i + 1),
            }
        }
    } else {
        None
    }
}

pub open spec fn erase_ids_from(s: Seq<Tree>, i: int) -> Seq<Tree>
    decreases s, s.len() - i,
{
    if 0 <= i < s.len() {
        seq![s[i].erase_ids()] + erase_ids_from(s, i + 1)
    } else {
        Seq::empty()
    }
}

pub proof fn lemma_erase_ids_from(s: Seq<Tree>, i: int)
    requires
        0 <= i <= s.len(),
    ensures
        erase_ids_from(s, i).len() == s.len() - i,
        forall|k: int| 0 <= k < s.len() - i ==> #[trigger] erase_ids_from(s, i)[k] == s[i + k].erase_ids(),
    decreases s.len() - i,
{
    if i < s.len() {
        lemma_erase_ids_from(s, i + 1);
    }
}

pub proof fn lemma_collapse_all_from(s: Seq<Tree>, i: int)
    requires
        0 <= i <= s.len(),
    ensures
        collapse_all_from(s, i).len() == s.len() - i,
        forall|k: int| 0 <= k < s.len() - i ==> #[trigger] collapse_all_from(s, i)[k] == s[i + k].collapse_all(),
    decreases s.len() - i,
{
    if i < s.len() {
        lemma_collapse_all_from(s, i + 1);
    }
}

pub proof fn lemma_expand_all_from(s: Seq<Tree>, i: int)
    requires
        0 <= i <= s.len(),
    ensures
        expand_all_from(s, i).len() == s.len() - i,
        forall|k: int| 0 <= k < s.len() - i ==> #[trigger] expand_all_from(s, i)[k] == s[i + k].expand_all(),
    decreases s.len() - i,
{
    if i < s.len() {
        lemma_expand_all_from(s, i + 1);
    }
}

pub proof fn lemma_collapse_to_level_from(s: Seq<Tree>, target: int, cur: int, i: int)
    requires
        0 <= i <= s.len(),
    ensures
        collapse_to_level_from(s, target, cur, i).len() == s.len() - i,
        forall|k: int| 0 <= k < s.len() - i ==> #[trigger] collapse_to_level_from(s, target, cur, i)[k]
            == s[i + k].collapse_to_level(target, cur),
    decreases s.len() - i,
{
    if i < s.len() {
        lemma_collapse_to_level_from(s, target, cur, i + 1);
    }
}

/// A child's subtree is less deep than its parent's.
pub proof fn lemma_height_child(s: Seq<Tree>, i: int, j: int)
    requires
        0 <= i <= j < s.len(),
    ensures
        s[j].height() + 1 <= height_from(s, i),
    decreases j - i,
{
    if i < j {
        lemma_height_child(s, i + 1, j);
    }
}

/// Replacing the node that `find` gives by itself changes nothing.
pub proof fn lemma_replace_same(t: Tree, id: u128)
    requires
        t.find(id) is Some,
    ensures
        t.replace(id, t.find(id).unwrap()) == t,
    decreases t, 0int,
{
    if t.id != id {
        lemma_replace_same_from(t.children, id, 0);
        assert(t.replace(id, t.find(id).unwrap()) =~= t);
    }
}

pub proof fn lemma_replace_same_from(s: Seq<Tree>, id: u128, i: int)
    requires
        0 <= i <= s.len(),
        find_from(s, id, i) is Some,
    ensures
        replace_from(s, id, find_from(s, id, i).unwrap(), i) == s,
    decreases s, s.len() - i,
{
    if i < s.len() {
        if s[i].find(id) is Some {
            lemma_replace_same(s[i], id);
            assert(s.update(i, s[i].replace(id, s[i].find(id).unwrap())) =~= s);
        } else {
            lemma_replace_same_from(s, id, i + 1);
        }
    }
}

/// No child's subtree is as deep as its parent's.
pub proof fn lemma_height_bound(s: Seq<Tree>, i: int, h: nat)
    requires
        0 <= i <= s.len(),
        forall|j: int| i <= j < s.len() ==> #[trigger] s[j].height() + 1 <= h,
    ensures
        height_from(s, i) <= h,
    decreases s.len() - i,
{
    if i < s.len() {
        assert(s[i].height() + 1 <= h);
        lemma_height_bound(s, i + 1, h);
    }
}

} // verus!
