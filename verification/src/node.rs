//! The nodes of a mind map and their tree operations.
use vstd::prelude::*;
use crate::tree::{
    Tree, find_from, replace_from, ids_from, level_from, collapse_all_from,
    expand_all_from, collapse_to_level_from, lemma_collapse_all_from, lemma_expand_all_from,
    lemma_collapse_to_level_from, lemma_height_child, lemma_height_bound, search_from,
    text_matches, position, remove_from, parent_from, replace_parent_from, erase_ids_from,
    lemma_erase_ids_from,
};
use crate::text::{chars_of, to_lowercase, contains_chars};

verus! {

/// One node of a mind map with its subtree. Its view is the model `Tree`.
#[derive(Debug)]
pub struct Node {
    pub id: u128,
    pub text: String,
    pub children: Vec<Node>,
    pub collapsed: bool,
    pub rank_positive: i32,
    pub rank_negative: i32,
    pub stars: u8,
    pub symbol: Option<char>,
    pub hidden: bool,
}

/// The models of a sequence of nodes.
pub open spec fn views(s: Seq<Node>) -> Seq<Tree>
    decreases s,
{
    if s.len() == 0 {
        Seq::empty()
    } else {
        views(s.drop_last()).push(s.last().view())
    }
}

impl View for Node {
    type V = Tree;

    open spec fn view(&self) -> Tree
        decreases self,
    {
        Tree {
            id: self.id,
            text: self.text@,
            children: views(self.children@),
            collapsed: self.collapsed,
            rank_positive: self.rank_positive,
            rank_negative: self.rank_negative,
            stars: self.stars,
            symbol: self.symbol,
            hidden: self.hidden,
        }
    }
}

pub proof fn lemma_views(s: Seq<Node>)
    ensures
        views(s).len() == s.len(),
        forall|i: int| 0 <= i < s.len() ==> #[trigger] views(s)[i] == s[i]@,
    decreases s.len(),
{
    if s.len() == 0 {
        assert(views(s) == Seq::<Tree>::empty());
    } else {
        lemma_views(s.drop_last());
        assert(views(s) == views(s.drop_last()).push(s.last().view()));
    }
}

pub proof fn lemma_views_update(s: Seq<Node>, i: int)
    requires
        0 <= i < s.len(),
    ensures
        forall|x: Node| #[trigger] views(s.update(i, x)) == views(s).update(i, x@),
{
    assert forall|x: Node| #[trigger] views(s.update(i, x)) == views(s).update(i, x@) by {
        lemma_views(s);
        lemma_views(s.update(i, x));
        assert(views(s.update(i, x)) =~= views(s).update(i, x@));
    }
}

pub proof fn lemma_views_push(s: Seq<Node>, x: Node)
    ensures
        views(s.push(x)) == views(s).push(x@),
{
    lemma_views(s);
    lemma_views(s.push(x));
    assert(views(s.push(x)) =~= views(s).push(x@));
}

pub proof fn lemma_views_remove(s: Seq<Node>, i: int)
    requires
        0 <= i < s.len(),
    ensures
        views(s.remove(i)) == views(s).remove(i),
{
    lemma_views(s);
    lemma_views(s.remove(i));
    assert(views(s.remove(i)) =~= views(s).remove(i));
}

pub proof fn lemma_ids_from_push(s: Seq<Tree>, x: Tree)
    ensures
        ids_from(s.push(x), 0) == ids_from(s, 0) + x.ids(),
    decreases s.len(),
{
    lemma_ids_from_push_at(s, x, 0);
}

proof fn lemma_ids_from_push_at(s: Seq<Tree>, x: Tree, i: int)
    requires
        0 <= i <= s.len(),
    ensures
        ids_from(s.push(x), i) == ids_from(s, i) + x.ids(),
    decreases s.len() - i,
{
    let t = s.push(x);
    if i < s.len() {
        lemma_ids_from_push_at(s, x, i + 1);
        assert(t[i] == s[i]);
        assert(ids_from(t, i) =~= s[i].ids() + (ids_from(s, i + 1) + x.ids()));
    } else {
        assert(t[i] == x);
        assert(ids_from(t, i + 1) == Seq::<u128>::empty());
        assert(ids_from(t, i) =~= x.ids());
        assert(ids_from(s, i) == Seq::<u128>::empty());
    }
}

/// A node with the given identifier and text and nothing else.
pub open spec fn fresh_node(id: u128, text: Seq<char>) -> Tree {
    Tree {
        id,
        text,
        children: Seq::empty(),
        collapsed: false,
        rank_positive: 0,
        rank_negative: 0,
        stars: 0,
        symbol: None,
        hidden: false,
    }
}

/// Whether an identifier carries the version (4) and variant (`10`) bits of
/// a random UUID.
pub open spec fn is_v4_id(id: u128) -> bool {
    id & 0x0000_0000_0000_f000_c000_0000_0000_0000u128 == 0x0000_0000_0000_4000_8000_0000_0000_0000u128
}

/// A fresh random identifier.
///
/// Calls `uuid::Uuid::new_v4` and takes the UUID as a `u128`
/// (`Uuid::as_u128`, big-endian). `new_v4` sets the version nibble to 4
/// and the two variant bits to `10` of a random value; that is all that is
/// claimed of the result.
#[verifier::external_body]
fn random_node_id() -> (id: u128)
    ensures
        is_v4_id(id),
{
    uuid::Uuid::new_v4().as_u128()
}

fn contains_id(v: &Vec<u128>, x: u128) -> (b: bool)
    ensures
        b == v@.contains(x),
{
    let n = v.len();
    let mut i: usize = 0;
    while i < n
        invariant
            n == v@.len(),
            i <= n,
            forall|j: int| 0 <= j < i ==> v@[j] != x,
        decreases n - i,
    {
        if v[i] == x {
            return true;
        }
        i += 1;
    }
    false
}

/// Some number up to the length of a sequence is not in it.
proof fn lemma_some_number_free(avoid: Seq<u128>)
    requires
        avoid.len() < u128::MAX,
    ensures
        exists|j: u128| j <= avoid.len() && !#[trigger] avoid.contains(j),
{
    if forall|j: u128| j <= avoid.len() ==> #[trigger] avoid.contains(j) {
        lemma_all_numbers_taken(avoid);
    }
}

proof fn lemma_all_numbers_taken(avoid: Seq<u128>)
    requires
        avoid.len() < u128::MAX,
        forall|j: u128| j <= avoid.len() ==> #[trigger] avoid.contains(j),
    ensures
        avoid.len() + 1 <= avoid.len(),
{
    let r = Seq::new((avoid.len() + 1) as nat, |j: int| j as u128);
    assert forall|i: int| 0 <= i < r.len() implies r[i] as int == i by {}
    assert(r.no_duplicates()) by {
        assert forall|i: int, j: int| 0 <= i < r.len() && 0 <= j < r.len() && i != j implies r[i] != r[j] by {
            assert(r[i] as int == i && r[j] as int == j);
        }
    }
    r.unique_seq_to_set();
    avoid.lemma_cardinality_of_set();
    vstd::seq_lib::seq_to_set_is_finite(avoid);
    assert(r.to_set().subset_of(avoid.to_set())) by {
        assert forall|x: u128| r.to_set().contains(x) implies avoid.to_set().contains(x) by {
            let j = choose|j: int| 0 <= j < r.len() && r[j] == x;
            assert(avoid.contains(r[j]));
        }
    }
    vstd::set_lib::lemma_len_subset(r.to_set(), avoid.to_set());
}

/// Whether the identifiers `added` are new next to `old`: none repeated,
/// none in `old`.
pub open spec fn fresh_over(old: Seq<u128>, added: Seq<u128>) -> bool {
    added.no_duplicates() && forall|x: u128| #[trigger] added.contains(x) ==> !old.contains(x)
}

pub proof fn lemma_fresh_over_concat(old: Seq<u128>, a: Seq<u128>, b: Seq<u128>)
    requires
        fresh_over(old, a),
        fresh_over(old + a, b),
    ensures
        fresh_over(old, a + b),
{
    let ab = a + b;
    assert forall|x: u128| #[trigger] b.contains(x) implies !old.contains(x) && !a.contains(x) by {
        if old.contains(x) {
            let k = choose|k: int| 0 <= k < old.len() && old[k] == x;
            assert((old + a)[k] == x);
        }
        if a.contains(x) {
            let k = choose|k: int| 0 <= k < a.len() && a[k] == x;
            assert((old + a)[old.len() + k] == x);
        }
    }
    assert forall|i: int, j: int| 0 <= i < ab.len() && 0 <= j < ab.len() && i != j implies ab[i] != ab[j] by {
        if i < a.len() && j >= a.len() {
            assert(b.contains(ab[j]));
            assert(a.contains(ab[i]));
        } else if j < a.len() && i >= a.len() {
            assert(b.contains(ab[i]));
            assert(a.contains(ab[j]));
        } else if i >= a.len() {
            assert(ab[i] == b[i - a.len()] && ab[j] == b[j - a.len()]);
        }
    }
    assert forall|x: u128| #[trigger] ab.contains(x) implies !old.contains(x) by {
        let k = choose|k: int| 0 <= k < ab.len() && ab[k] == x;
        if k < a.len() {
            assert(a.contains(a[k]));
        } else {
            assert(b.contains(b[k - a.len()]));
        }
    }
}

/// An identifier that is not in `avoid`: a fresh random one where it is
/// free, else the smallest number that is.
pub fn fresh_id(avoid: &Vec<u128>) -> (id: u128)
    ensures
        !avoid@.contains(id),
{
    let r = random_node_id();
    if !contains_id(avoid, r) {
        return r;
    }
    let n = avoid.len() as u128;
    let mut k: u128 = 0;
    while k <= n
        invariant
            n == avoid@.len(),
            n <= usize::MAX,
            k <= n + 1,
            forall|j: u128| j < k ==> #[trigger] avoid@.contains(j),
        decreases n + 1 - k,
    {
        if !contains_id(avoid, k) {
            return k;
        }
        k += 1;
    }
    proof {
        lemma_some_number_free(avoid@);
        let j = choose|j: u128| j <= avoid@.len() && !#[trigger] avoid@.contains(j);
        assert(avoid@.contains(j));
    }
    0
}

impl Node {
    /// A new node with the given text, a fresh random identifier, no
    /// children and no metadata.
    pub fn new(text: String) -> (n: Node)
        ensures
            n@ == fresh_node(n.id, text@),
            is_v4_id(n.id),
    {
        let n = Node {
            id: random_node_id(),
            text,
            children: Vec::new(),
            collapsed: false,
            rank_positive: 0,
            rank_negative: 0,
            stars: 0,
            symbol: None,
            hidden: false,
        };
        proof {
            assert(views(n.children@) =~= Seq::<Tree>::empty());
        }
        n
    }

    /// A new node with the text `root`.
    pub fn new_root() -> (n: Node)
        ensures
            n@ == fresh_node(n.id, "root"@),
            is_v4_id(n.id),
    {
        Node::new("root".to_owned())
    }

    /// A copy of this node and its whole subtree with new identifiers, none
    /// of them in `avoid` nor repeated; they are added to `avoid`.
    pub fn copy_with_fresh_ids(&self, avoid: &mut Vec<u128>) -> (c: Node)
        ensures
            c@.erase_ids() == self@.erase_ids(),
            final(avoid)@ == old(avoid)@ + c@.ids(),
            fresh_over(old(avoid)@, c@.ids()),
        decreases self,
    {
        let id = fresh_id(avoid);
        avoid.push(id);
        proof {
            assert(fresh_over(old(avoid)@, seq![id]));
        }
        let ghost mut acc: Seq<u128> = seq![id];
        let mut children: Vec<Node> = Vec::new();
        let n = self.children.len();
        let mut i: usize = 0;
        while i < n
            invariant
                n == self.children@.len(),
                i <= n,
                children@.len() == i,
                forall|j: int| 0 <= j < i ==> #[trigger] children@[j]@.erase_ids() == self.children@[j]@.erase_ids(),
                avoid@ == old(avoid)@ + acc,
                acc == seq![id] + ids_from(views(children@), 0),
                fresh_over(old(avoid)@, acc),
            decreases n - i,
        {
            let ghost before = avoid@;
            let c = self.children[i].copy_with_fresh_ids(avoid);
            proof {
                lemma_fresh_over_concat(old(avoid)@, acc, c@.ids());
                lemma_views_push(children@, c);
                lemma_ids_from_push(views(children@), c@);
                assert(avoid@ =~= old(avoid)@ + (acc + c@.ids()));
                acc = acc + c@.ids();
                assert(acc =~= seq![id] + ids_from(views(children@.push(c)), 0));
            }
            children.push(c);
            i += 1;
        }
        let r = Node {
            id,
            text: self.text.clone(),
            children,
            collapsed: self.collapsed,
            rank_positive: self.rank_positive,
            rank_negative: self.rank_negative,
            stars: self.stars,
            symbol: self.symbol,
            hidden: self.hidden,
        };
        proof {
            lemma_views(r.children@);
            lemma_views(self.children@);
            lemma_erase_ids_from(r@.children, 0);
            lemma_erase_ids_from(self@.children, 0);
            assert(erase_ids_from(r@.children, 0) =~= erase_ids_from(self@.children, 0));
            assert(r@.erase_ids() =~= self@.erase_ids());
            assert(r@.ids() == seq![id] + ids_from(r@.children, 0));
        }
        r
    }

    /// A copy of this node and its whole subtree, identifiers included.
    pub fn deep_clone(&self) -> (c: Node)
        ensures
            c@ == self@,
        decreases self,
    {
        let mut children: Vec<Node> = Vec::new();
        let n = self.children.len();
        let mut i: usize = 0;
        while i < n
            invariant
                n == self.children@.len(),
                i <= n,
                children@.len() == i,
                forall|j: int| 0 <= j < i ==> #[trigger] children@[j]@ == self.children@[j]@,
            decreases n - i,
        {
            let c = self.children[i].deep_clone();
            children.push(c);
            i += 1;
        }
        proof {
            lemma_views(children@);
            lemma_views(self.children@);
            assert(views(children@) =~= views(self.children@));
        }
        Node {
            id: self.id,
            text: self.text.clone(),
            children,
            collapsed: self.collapsed,
            rank_positive: self.rank_positive,
            rank_negative: self.rank_negative,
            stars: self.stars,
            symbol: self.symbol,
            hidden: self.hidden,
        }
    }

    fn child_mut(&mut self, i: usize) -> (r: &mut Node)
        requires
            i < old(self).children@.len(),
        ensures
            *r == old(self).children@[i as int],
            final(self).children@ == old(self).children@.update(i as int, *final(r)),
            final(self).id == old(self).id,
            final(self).text == old(self).text,
            final(self).collapsed == old(self).collapsed,
            final(self).rank_positive == old(self).rank_positive,
            final(self).rank_negative == old(self).rank_negative,
            final(self).stars == old(self).stars,
            final(self).symbol == old(self).symbol,
            final(self).hidden == old(self).hidden,
    {
        &mut self.children[i]
    }

    /// Adds a new node with the given text as the last child and returns its
    /// identifier.
    pub fn add_child(&mut self, text: String) -> (id: u128)
        ensures
            final(self)@ == old(self)@.push_child(fresh_node(id, text@)),
            is_v4_id(id),
    {
        let child = Node::new(text);
        let id = child.id;
        proof {
            lemma_views_push(self.children@, child);
        }
        self.children.push(child);
        proof {
            assert(self@.children =~= old(self)@.children.push(child@));
        }
        id
    }

    /// The first node, in pre-order, with the given identifier.
    pub fn find_node(&self, id: u128) -> (r: Option<&Node>)
        ensures
            match r {
                Some(n) => self@.find(id) == Some(n@),
                None => self@.find(id) is None,
            },
        decreases self,
    {
        if self.id == id {
            return Some(self);
        }
        proof {
            lemma_views(self.children@);
        }
        let n = self.children.len();
        let mut i: usize = 0;
        while i < n
            invariant
                n == self.children@.len(),
                i <= n,
                self.id != id,
                views(self.children@).len() == n,
                forall|j: int| 0 <= j < n ==> #[trigger] views(self.children@)[j] == self.children@[j]@,
                self@.find(id) == find_from(self@.children, id, i as int),
            decreases n - i,
        {
            let r = self.children[i].find_node(id);
            if r.is_some() {
                return r;
            }
            i += 1;
        }
        None
    }

    /// The first node, in pre-order, with the given identifier, to be
    /// changed in place.
    pub fn find_node_mut(&mut self, id: u128) -> (r: Option<&mut Node>)
        ensures
            r is None ==> old(self)@.find(id) is None,
            r is None ==> final(self)@ == old(self)@,
            r matches Some(n) ==> old(self)@.find(id) == Some((*n)@),
            r matches Some(n) ==> final(self)@ == old(self)@.replace(id, (*final(n))@),
        decreases *old(self),
    {
        if self.id == id {
            return Some(self);
        }
        proof {
            lemma_views(self.children@);
        }
        let n = self.children.len();
        let mut i: usize = 0;
        while i < n
            invariant
                n == self.children@.len(),
                i <= n,
                self.id != id,
                views(self.children@).len() == n,
                forall|j: int| 0 <= j < n ==> #[trigger] views(self.children@)[j] == self.children@[j]@,
                self@.find(id) == find_from(self@.children, id, i as int),
                *self == *old(self),
                forall|nw: Tree| #[trigger] replace_from(self@.children, id, nw, 0)
                    == replace_from(self@.children, id, nw, i as int),
            decreases n - i,
        {
            if self.children[i].find_node(id).is_some() {
                proof {
                    assert(decreases_to!(*old(self) => old(self).children@[i as int]));
                    let ghost me = *self;
                    assert forall|f: Node, cf: Node, nw: Tree|
                        #![trigger f@, cf@, me@.replace(id, nw)]
                        f.id == me.id && f.text == me.text && f.collapsed == me.collapsed
                        && f.rank_positive == me.rank_positive && f.rank_negative == me.rank_negative
                        && f.stars == me.stars && f.symbol == me.symbol && f.hidden == me.hidden
                        && f.children@ == me.children@.update(i as int, cf)
                        && cf@ == me.children@[i as int]@.replace(id, nw)
                        implies f@ == me@.replace(id, nw) by {
                        lemma_views_update(me.children@, i as int);
                        assert(me@.children[i as int] == me.children@[i as int]@);
                        assert(me@.children[i as int].find(id) is Some);
                        assert(replace_from(me@.children, id, nw, 0) == replace_from(me@.children, id, nw, i as int));
                        assert(replace_from(me@.children, id, nw, i as int)
                            == me@.children.update(i as int, me.children@[i as int]@.replace(id, nw)));
                        assert(f@.children == views(me.children@.update(i as int, cf)));
                        assert(f@.children =~= me@.replace(id, nw).children);
                    }
                }
                return self.child_mut(i).find_node_mut(id);
            }
            i += 1;
        }
        None
    }

    /// Whether two nodes hold the same values in all fields but the
    /// children and the collapsed flag.
    pub open spec fn same_fields(self, other: Node) -> bool {
        &&& self.id == other.id
        &&& self.text == other.text
        &&& self.rank_positive == other.rank_positive
        &&& self.rank_negative == other.rank_negative
        &&& self.stars == other.stars
        &&& self.symbol == other.symbol
        &&& self.hidden == other.hidden
    }

    /// Collapses every node.
    pub fn collapse_all(&mut self)
        ensures
            final(self)@ == old(self)@.collapse_all(),
        decreases old(self)@,
    {
        self.collapsed = true;
        let n = self.children.len();
        proof {
            lemma_views(self.children@);
        }
        let mut i: usize = 0;
        while i < n
            invariant
                n == self.children@.len(),
                n == old(self).children@.len(),
                i <= n,
                self.same_fields(*old(self)),
                self.collapsed,
                views(old(self).children@).len() == n,
                forall|j: int| 0 <= j < n ==> #[trigger] views(old(self).children@)[j] == old(self).children@[j]@,
                forall|j: int| 0 <= j < i ==> #[trigger] self.children@[j]@ == old(self).children@[j]@.collapse_all(),
                forall|j: int| i <= j < n ==> #[trigger] self.children@[j] == old(self).children@[j],
            decreases n - i,
        {
            proof {
                assert(old(self)@.children[i as int] == old(self).children@[i as int]@);
                assert(decreases_to!(old(self)@ => old(self)@.children[i as int]));
            }
            self.child_mut(i).collapse_all();
            i += 1;
        }
        proof {
            lemma_views(self.children@);
            lemma_collapse_all_from(old(self)@.children, 0);
            assert(views(self.children@) =~= collapse_all_from(old(self)@.children, 0));
            assert(self@ =~= old(self)@.collapse_all());
        }
    }

    /// Expands every node.
    pub fn expand_all(&mut self)
        ensures
            final(self)@ == old(self)@.expand_all(),
        decreases old(self)@,
    {
        self.collapsed = false;
        let n = self.children.len();
        proof {
            lemma_views(self.children@);
        }
        let mut i: usize = 0;
        while i < n
            invariant
                n == self.children@.len(),
                n == old(self).children@.len(),
                i <= n,
                self.same_fields(*old(self)),
                !self.collapsed,
                views(old(self).children@).len() == n,
                forall|j: int| 0 <= j < n ==> #[trigger] views(old(self).children@)[j] == old(self).children@[j]@,
                forall|j: int| 0 <= j < i ==> #[trigger] self.children@[j]@ == old(self).children@[j]@.expand_all(),
                forall|j: int| i <= j < n ==> #[trigger] self.children@[j] == old(self).children@[j],
            decreases n - i,
        {
            proof {
                assert(old(self)@.children[i as int] == old(self).children@[i as int]@);
                assert(decreases_to!(old(self)@ => old(self)@.children[i as int]));
            }
            self.child_mut(i).expand_all();
            i += 1;
        }
        proof {
            lemma_views(self.children@);
            lemma_expand_all_from(old(self)@.children, 0);
            assert(views(self.children@) =~= expand_all_from(old(self)@.children, 0));
            assert(self@ =~= old(self)@.expand_all());
        }
    }

    /// Collapses every node at level `target_level` or deeper and expands
    /// every node above it, this node being at level `current_level`.
    pub fn collapse_to_level(&mut self, target_level: usize, current_level: usize)
        requires
            current_level + old(self)@.height() <= usize::MAX,
        ensures
            final(self)@ == old(self)@.collapse_to_level(target_level as int, current_level as int),
        decreases old(self)@,
    {
        if current_level >= target_level {
            self.collapsed = true;
        } else {
            self.collapsed = false;
        }
        let n = self.children.len();
        proof {
            lemma_views(self.children@);
        }
        let mut i: usize = 0;
        while i < n
            invariant
                n == self.children@.len(),
                n == old(self).children@.len(),
                i <= n,
                current_level + old(self)@.height() <= usize::MAX,
                self.same_fields(*old(self)),
                self.collapsed == (current_level >= target_level),
                views(old(self).children@).len() == n,
                forall|j: int| 0 <= j < n ==> #[trigger] views(old(self).children@)[j] == old(self).children@[j]@,
                forall|j: int| 0 <= j < i ==> #[trigger] self.children@[j]@
                    == old(self).children@[j]@.collapse_to_level(target_level as int, current_level + 1),
                forall|j: int| i <= j < n ==> #[trigger] self.children@[j] == old(self).children@[j],
            decreases n - i,
        {
            proof {
                assert(old(self)@.children[i as int] == old(self).children@[i as int]@);
                assert(decreases_to!(old(self)@ => old(self)@.children[i as int]));
                lemma_height_child(old(self)@.children, 0, i as int);
            }
            self.child_mut(i).collapse_to_level(target_level, current_level + 1);
            i += 1;
        }
        proof {
            lemma_views(self.children@);
            lemma_collapse_to_level_from(old(self)@.children, target_level as int, current_level + 1, 0);
            assert(views(self.children@) =~= collapse_to_level_from(
                old(self)@.children, target_level as int, current_level + 1, 0));
            assert(self@ =~= old(self)@.collapse_to_level(target_level as int, current_level as int));
        }
    }

    /// The level of the first node, in pre-order, with the given identifier,
    /// this node being at level `current_level`.
    pub fn get_level(&self, target_id: u128, current_level: usize) -> (r: Option<usize>)
        requires
            current_level + self@.height() <= usize::MAX,
        ensures
            match r {
                Some(l) => self@.level(target_id, current_level as int) == Some(l as int),
                None => self@.level(target_id, current_level as int) is None,
            },
        decreases self,
    {
        if self.id == target_id {
            return Some(current_level);
        }
        proof {
            lemma_views(self.children@);
        }
        let n = self.children.len();
        let mut i: usize = 0;
        while i < n
            invariant
                n == self.children@.len(),
                i <= n,
                self.id != target_id,
                current_level + self@.height() <= usize::MAX,
                views(self.children@).len() == n,
                forall|j: int| 0 <= j < n ==> #[trigger] views(self.children@)[j] == self.children@[j]@,
                self@.level(target_id, current_level as int)
                    == level_from(self@.children, target_id, current_level + 1, i as int),
            decreases n - i,
        {
            proof {
                lemma_height_child(self@.children, 0, i as int);
            }
            let r = self.children[i].get_level(target_id, current_level + 1);
            if r.is_some() {
                return r;
            }
            i += 1;
        }
        None
    }

    /// The depth of the subtree (0 for a leaf), or `usize::MAX` where it is
    /// at least that deep.
    pub fn height(&self) -> (h: usize)
        ensures
            h as nat == if self@.height() < usize::MAX { self@.height() } else { usize::MAX as nat },
        decreases self,
    {
        proof {
            lemma_views(self.children@);
        }
        let n = self.children.len();
        let mut best: usize = 0;
        let mut i: usize = 0;
        while i < n
            invariant
                n == self.children@.len(),
                i <= n,
                views(self.children@).len() == n,
                forall|j: int| 0 <= j < n ==> #[trigger] views(self.children@)[j] == self.children@[j]@,
                best <= usize::MAX,
                forall|j: int| 0 <= j < i ==> #[trigger] self@.children[j].height() + 1 <= best
                    || best == usize::MAX,
                best == 0 || best == usize::MAX || exists|j: int| 0 <= j < i && #[trigger] self@.children[j].height() + 1 == best,
                best == usize::MAX ==> self@.height() >= usize::MAX,
            decreases n - i,
        {
            let h = self.children[i].height();
            proof {
                lemma_height_child(self@.children, 0, i as int);
            }
            if h == usize::MAX {
                best = usize::MAX;
            } else if h + 1 > best {
                best = h + 1;
            }
            i += 1;
        }
        proof {
            if best < usize::MAX {
                lemma_height_bound(self@.children, 0, best as nat);
                if best > 0 {
                    let j = choose|j: int| 0 <= j < n && #[trigger] self@.children[j].height() + 1 == best;
                    lemma_height_child(self@.children, 0, j);
                }
            }
        }
        best
    }

    /// The identifiers, in pre-order, of the nodes whose text contains the
    /// query, ignoring case.
    pub fn search(&self, query: &str) -> (r: Vec<u128>)
        ensures
            r@ == self@.search(query@),
        decreases self,
    {
        let mut results: Vec<u128> = Vec::new();
        let lt = to_lowercase(self.text.as_str());
        let lq = to_lowercase(query);
        if contains_chars(&chars_of(lt.as_str()), &chars_of(lq.as_str())) {
            results.push(self.id);
        }
        proof {
            lemma_views(self.children@);
            assert(results@ == (if text_matches(self@.text, query@) {
                seq![self.id]
            } else {
                Seq::<u128>::empty()
            }));
        }
        let n = self.children.len();
        let mut i: usize = 0;
        while i < n
            invariant
                n == self.children@.len(),
                i <= n,
                views(self.children@).len() == n,
                forall|j: int| 0 <= j < n ==> #[trigger] views(self.children@)[j] == self.children@[j]@,
                results@ + search_from(self@.children, query@, i as int) == self@.search(query@),
            decreases n - i,
        {
            let mut sub = self.children[i].search(query);
            proof {
                assert(results@ + sub@ + search_from(self@.children, query@, i + 1)
                    =~= results@ + search_from(self@.children, query@, i as int));
            }
            results.append(&mut sub);
            i += 1;
        }
        proof {
            assert(results@ + search_from(self@.children, query@, n as int) =~= results@);
        }
        results
    }

    /// The position of the first direct child with the given identifier.
    pub fn child_position(&self, id: u128) -> (r: Option<usize>)
        ensures
            match r {
                Some(p) => position(self@.children, id, 0) == Some(p as int) && p < self.children@.len(),
                None => position(self@.children, id, 0) is None,
            },
    {
        proof {
            lemma_views(self.children@);
        }
        let n = self.children.len();
        let mut i: usize = 0;
        while i < n
            invariant
                n == self.children@.len(),
                i <= n,
                views(self.children@).len() == n,
                forall|j: int| 0 <= j < n ==> #[trigger] views(self.children@)[j] == self.children@[j]@,
                position(self@.children, id, 0) == position(self@.children, id, i as int),
            decreases n - i,
        {
            if self.children[i].id == id {
                return Some(i);
            }
            i += 1;
        }
        None
    }

    /// Removes the first node with the given identifier below this one (a
    /// direct child first, then in each child's subtree in order) and
    /// returns it.
    pub fn remove_child(&mut self, id: u128) -> (r: Option<Node>)
        ensures
            match r {
                Some(x) => old(self)@.remove(id) == Some((final(self)@, x@)),
                None => old(self)@.remove(id) is None && final(self)@ == old(self)@,
            },
        decreases old(self)@,
    {
        proof {
            lemma_views(self.children@);
        }
        if let Some(p) = self.child_position(id) {
            proof {
                lemma_views_remove(self.children@, p as int);
            }
            let removed = self.children.remove(p);
            proof {
                assert(self@ =~= (Tree { children: old(self)@.children.remove(p as int), ..old(self)@ }));
            }
            return Some(removed);
        }
        let n = self.children.len();
        let mut i: usize = 0;
        while i < n
            invariant
                n == self.children@.len(),
                n == old(self).children@.len(),
                i <= n,
                position(old(self)@.children, id, 0) is None,
                self@ == old(self)@,
                views(self.children@).len() == n,
                forall|j: int| 0 <= j < n ==> #[trigger] views(self.children@)[j] == self.children@[j]@,
                remove_from(old(self)@.children, id, 0) == remove_from(old(self)@.children, id, i as int),
            decreases n - i,
        {
            proof {
                assert(self.children@[i as int]@ == old(self)@.children[i as int]);
                assert(decreases_to!(old(self)@ => old(self)@.children[i as int]));
                lemma_views_update(self.children@, i as int);
            }
            let ghost before = *self;
            let r = self.child_mut(i).remove_child(id);
            proof {
                lemma_views(self.children@);
                assert(self.children@ == before.children@.update(i as int, self.children@[i as int]));
            }
            match r {
                Some(x) => {
                    proof {
                        assert(self@ =~= (Tree {
                            children: old(self)@.children.update(i as int, self.children@[i as int]@),
                            ..old(self)@
                        }));
                    }
                    return Some(x);
                },
                None => {
                    proof {
                        assert(views(self.children@) == views(before.children@).update(i as int, self.children@[i as int]@));
                        assert(views(before.children@)[i as int] == before.children@[i as int]@);
                        assert(views(self.children@) =~= views(before.children@));
                        assert(self@ =~= old(self)@);
                    }
                },
            }
            i += 1;
        }
        None
    }

    /// The node that has a direct child with the given identifier: this one,
    /// else the first such node in the children's subtrees, in order.
    pub fn find_parent(&self, child_id: u128) -> (r: Option<&Node>)
        ensures
            match r {
                Some(p) => self@.parent(child_id) == Some(p@),
                None => self@.parent(child_id) is None,
            },
        decreases self,
    {
        if self.child_position(child_id).is_some() {
            return Some(self);
        }
        proof {
            lemma_views(self.children@);
        }
        let n = self.children.len();
        let mut i: usize = 0;
        while i < n
            invariant
                n == self.children@.len(),
                i <= n,
                position(self@.children, child_id, 0) is None,
                views(self.children@).len() == n,
                forall|j: int| 0 <= j < n ==> #[trigger] views(self.children@)[j] == self.children@[j]@,
                self@.parent(child_id) == parent_from(self@.children, child_id, i as int),
            decreases n - i,
        {
            let r = self.children[i].find_parent(child_id);
            if r.is_some() {
                return r;
            }
            i += 1;
        }
        None
    }

    /// The node that `find_parent` gives, to be changed in place.
    pub fn find_parent_mut(&mut self, child_id: u128) -> (r: Option<&mut Node>)
        ensures
            r is None ==> old(self)@.parent(child_id) is None,
            r is None ==> final(self)@ == old(self)@,
            r matches Some(p) ==> old(self)@.parent(child_id) == Some((*p)@),
            r matches Some(p) ==> final(self)@ == old(self)@.replace_parent(child_id, (*final(p))@),
        decreases *old(self),
    {
        if self.child_position(child_id).is_some() {
            return Some(self);
        }
        proof {
            lemma_views(self.children@);
        }
        let n = self.children.len();
        let mut i: usize = 0;
        while i < n
            invariant
                n == self.children@.len(),
                i <= n,
                position(self@.children, child_id, 0) is None,
                views(self.children@).len() == n,
                forall|j: int| 0 <= j < n ==> #[trigger] views(self.children@)[j] == self.children@[j]@,
                self@.parent(child_id) == parent_from(self@.children, child_id, i as int),
                *self == *old(self),
                forall|nw: Tree| #[trigger] replace_parent_from(self@.children, child_id, nw, 0)
                    == replace_parent_from(self@.children, child_id, nw, i as int),
            decreases n - i,
        {
            if self.children[i].find_parent(child_id).is_some() {
                proof {
                    assert(decreases_to!(*old(self) => old(self).children@[i as int]));
                    let ghost me = *self;
                    assert forall|f: Node, cf: Node, nw: Tree|
                        #![trigger f@, cf@, me@.replace_parent(child_id, nw)]
                        f.id == me.id && f.text == me.text && f.collapsed == me.collapsed
                        && f.rank_positive == me.rank_positive && f.rank_negative == me.rank_negative
                        && f.stars == me.stars && f.symbol == me.symbol && f.hidden == me.hidden
                        && f.children@ == me.children@.update(i as int, cf)
                        && cf@ == me.children@[i as int]@.replace_parent(child_id, nw)
                        implies f@ == me@.replace_parent(child_id, nw) by {
                        lemma_views_update(me.children@, i as int);
                        assert(me@.children[i as int] == me.children@[i as int]@);
                        assert(me@.children[i as int].parent(child_id) is Some);
                        assert(replace_parent_from(me@.children, child_id, nw, 0)
                            == replace_parent_from(me@.children, child_id, nw, i as int));
                        assert(replace_parent_from(me@.children, child_id, nw, i as int)
                            == me@.children.update(i as int, me.children@[i as int]@.replace_parent(child_id, nw)));
                        assert(f@.children == views(me.children@.update(i as int, cf)));
                        assert(f@.children =~= me@.replace_parent(child_id, nw).children);
                    }
                }
                return self.child_mut(i).find_parent_mut(child_id);
            }
            i += 1;
        }
        None
    }

    /// The identifiers of all nodes, in pre-order.
    pub fn get_all_nodes(&self) -> (ids: Vec<u128>)
        ensures
            ids@ == self@.ids(),
        decreases self,
    {
        let mut nodes: Vec<u128> = Vec::new();
        nodes.push(self.id);
        proof {
            lemma_views(self.children@);
        }
        let n = self.children.len();
        let mut i: usize = 0;
        while i < n
            invariant
                n == self.children@.len(),
                i <= n,
                views(self.children@).len() == n,
                forall|j: int| 0 <= j < n ==> #[trigger] views(self.children@)[j] == self.children@[j]@,
                nodes@ + ids_from(self@.children, i as int) == self@.ids(),
            decreases n - i,
        {
            let mut sub = self.children[i].get_all_nodes();
            proof {
                assert(ids_from(self@.children, i as int)
                    == self.children@[i as int]@.ids() + ids_from(self@.children, i + 1));
                assert(nodes@ + sub@ + ids_from(self@.children, i + 1)
                    =~= nodes@ + ids_from(self@.children, i as int));
            }
            nodes.append(&mut sub);
            i += 1;
        }
        proof {
            assert(nodes@ + ids_from(self@.children, n as int) =~= nodes@);
        }
        nodes
    }
}

} // verus!
