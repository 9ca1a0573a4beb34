//! The plain-text file format of a mind map: one node per line, its depth
//! given by leading tabs, its rank and stars in square brackets after the
//! text (`Requirements [rank: +2/-1, stars: 3]`).
use vstd::prelude::*;
use crate::tree::{Tree, lemma_height_child, erase_ids_from, lemma_erase_ids_from, ids_from};
use crate::node::{views, lemma_views, lemma_views_push, lemma_ids_from_push, fresh_id, fresh_over, lemma_fresh_over_concat};
use crate::node::Node;
use crate::text::{
    chars_of, string_of, push_char, push_chars, push_str, trim, trim_chars, first_index, find_char,
    sub_chars, parse_i32, parse_u8, parse_int_chars, decimal, decimal_chars, contains_chars,
    seq_contains, is_ws, is_whitespace, is_digit,
};

verus! {

/// The metadata that a line of the file can carry.
#[derive(Clone, Copy, Debug, PartialEq, Eq, Structural)]
pub struct NodeMetadata {
    pub rank_positive: i32,
    pub rank_negative: i32,
    pub stars: u8,
    pub symbol: Option<char>,
    pub collapsed: bool,
}

/// No rank, no stars, no symbol, not collapsed.
pub open spec fn no_metadata() -> NodeMetadata {
    NodeMetadata { rank_positive: 0, rank_negative: 0, stars: 0, symbol: None, collapsed: false }
}

impl Default for NodeMetadata {
    fn default() -> (m: NodeMetadata)
        ensures
            m == no_metadata(),
    {
        NodeMetadata { rank_positive: 0, rank_negative: 0, stars: 0, symbol: None, collapsed: false }
    }
}

/// Whether `c` occurs nowhere in `s`.
pub open spec fn lacks(s: Seq<char>, c: char) -> bool {
    forall|k: int| 0 <= k < s.len() ==> s[k] != c
}

/// Whether what follows an item of the metadata is nothing or a comma.
pub open spec fn ends_item(rest: Seq<char>) -> bool {
    rest.len() == 0 || rest[0] == ','
}

/// The first position at or after `j` that holds no whitespace.
pub open spec fn skip_ws(s: Seq<char>, j: int) -> int
    decreases s.len() - j,
{
    if 0 <= j < s.len() && is_ws(s[j]) {
        skip_ws(s, j + 1)
    } else {
        j
    }
}

/// Whether a character outside ASCII is a decimal digit of Unicode (the
/// class `\d` of the `regex` crate, `\p{Nd}`): named after what the crate
/// answers.
pub uninterp spec fn spec_unicode_digit(c: char) -> bool;

/// Whether `c` is in the digit class of the metadata grammar: among ASCII
/// characters `0` to `9`, beyond ASCII the Unicode decimal digits.
pub open spec fn in_digit_class(c: char) -> bool {
    if (c as u32) < 128 {
        is_digit(c)
    } else {
        spec_unicode_digit(c)
    }
}

/// Asks the `regex` crate whether `c` matches its class `\d` (the Unicode
/// decimal digits, `\p{Nd}`), with `Regex::is_match` on `c` alone; the answer
/// is named `spec_unicode_digit` of `c`.
#[verifier::external_body]
fn unicode_digit(c: char) -> (b: bool)
    ensures
        b == spec_unicode_digit(c),
{
    regex::Regex::new(r"\A\d\z").unwrap().is_match(&c.to_string())
}

/// The first position at or after `j` that holds no character of the digit
/// class.
pub open spec fn digits_end(s: Seq<char>, j: int) -> int
    decreases s.len() - j,
{
    if 0 <= j < s.len() && in_digit_class(s[j]) {
        digits_end(s, j + 1)
    } else {
        j
    }
}

/// The end of the number that starts at `j`: a sign where `signed` allows
/// one, then as many digits as follow, at least one.
pub open spec fn number_end(s: Seq<char>, j: int, signed: bool) -> Option<int> {
    let k = if signed && 0 <= j < s.len() && (s[j] == '+' || s[j] == '-') {
        j + 1
    } else {
        j
    };
    let e = digits_end(s, k);
    if e > k {
        Some(e)
    } else {
        None
    }
}

/// Whether `lit` stands in `s` at position `i`.
pub open spec fn text_at(s: Seq<char>, i: int, lit: Seq<char>) -> bool {
    0 <= i && i + lit.len() <= s.len() && s.subrange(i, i + lit.len()) == lit
}

/// The two numbers of a rank that starts at `i`: `rank:`, whitespace, a
/// signed number, `/`, a signed number.
pub open spec fn rank_at(s: Seq<char>, i: int) -> Option<(Seq<char>, Seq<char>)> {
    if text_at(s, i, "rank:"@) {
        let j = skip_ws(s, i + 5);
        match number_end(s, j, true) {
            Some(e1) => if e1 < s.len() && s[e1] == '/' {
                match number_end(s, e1 + 1, true) {
                    Some(e2) => Some((s.subrange(j, e1), s.subrange(e1 + 1, e2))),
                    None => None,
                }
            } else {
                None
            },
            None => None,
        }
    } else {
        None
    }
}

/// The numbers of the first rank at or after `i`.
pub open spec fn first_rank(s: Seq<char>, i: int) -> Option<(Seq<char>, Seq<char>)>
    decreases s.len() - i,
{
    if 0 <= i < s.len() {
        match rank_at(s, i) {
            Some(g) => Some(g),
            None => first_rank(s, i + 1),
        }
    } else {
        None
    }
}

/// The number of a star count that starts at `i`: `stars:`, whitespace,
/// digits.
pub open spec fn stars_at(s: Seq<char>, i: int) -> Option<Seq<char>> {
    if text_at(s, i, "stars:"@) {
        let j = skip_ws(s, i + 6);
        match number_end(s, j, false) {
            Some(e) => Some(s.subrange(j, e)),
            None => None,
        }
    } else {
        None
    }
}

/// The number of the first star count at or after `i`.
pub open spec fn first_stars(s: Seq<char>, i: int) -> Option<Seq<char>>
    decreases s.len() - i,
{
    if 0 <= i < s.len() {
        match stars_at(s, i) {
            Some(g) => Some(g),
            None => first_stars(s, i + 1),
        }
    } else {
        None
    }
}

/// The positive and negative ranks that a metadata text gives: those of its
/// first rank, where both numbers parse as `i32`.
pub open spec fn rank_of(meta: Seq<char>) -> Option<(i32, i32)> {
    match first_rank(meta, 0) {
        Some((p, n)) => match (parse_i32(p), parse_i32(n)) {
            (Some(a), Some(b)) => Some((a as i32, b as i32)),
            _ => None,
        },
        None => None,
    }
}

/// The star count that a metadata text gives: that of its first star
/// count, capped at 5, where it parses as `u8`.
pub open spec fn stars_of(meta: Seq<char>) -> Option<u8> {
    match first_stars(meta, 0) {
        Some(d) => match parse_u8(d) {
            Some(v) => Some(if v > 5 { 5u8 } else { v as u8 }),
            None => None,
        },
        None => None,
    }
}

/// Whether the text has both brackets, the metadata part.
pub open spec fn has_brackets(text: Seq<char>) -> bool {
    first_index(text, '[') is Some && first_index(text, ']') is Some
}

/// Where `parse_metadata` cannot work: a `]` before the first `[`.
pub open spec fn metadata_unreadable(text: Seq<char>) -> bool {
    has_brackets(text) && first_index(text, ']').unwrap() < first_index(text, '[').unwrap()
}

/// The symbols that a node can carry: a check mark and a cross.
pub open spec fn is_symbol(c: char) -> bool {
    c == '\u{2713}' || c == '\u{2717}'
}

/// The text and symbol of a line's content once its metadata is taken out:
/// a leading symbol is the node's, the rest (trimmed) its text.
pub open spec fn symbol_split(clean: Seq<char>) -> (Seq<char>, Option<char>) {
    if clean.len() > 0 && is_symbol(clean[0]) {
        (trim(clean.drop_first()), Some(clean[0]))
    } else {
        (clean, None)
    }
}

/// The word that marks a collapsed node in its metadata.
pub open spec fn collapsed_word() -> Seq<char> {
    "collapsed"@
}

/// The text and metadata of a line's content: with brackets, the text
/// outside them (trimmed, the two sides joined by a space), the rank and
/// stars found inside, and whether the word `collapsed` is inside; without,
/// the trimmed text and no metadata. Either way a leading symbol is taken
/// off the text as the node's symbol.
pub open spec fn parsed_metadata(text: Seq<char>) -> (Seq<char>, NodeMetadata) {
    if has_brackets(text) {
        let bs = first_index(text, '[').unwrap();
        let be = first_index(text, ']').unwrap();
        let clean = trim(trim(text.subrange(0, bs)) + seq![' '] + trim(text.subrange(be + 1, text.len() as int)));
        let meta = text.subrange(bs + 1, be);
        let (rp, rn) = match rank_of(meta) {
            Some((a, b)) => (a, b),
            None => (0i32, 0i32),
        };
        let stars = match stars_of(meta) {
            Some(s) => s,
            None => 0u8,
        };
        let (t, sym) = symbol_split(clean);
        (t, NodeMetadata {
            rank_positive: rp,
            rank_negative: rn,
            stars,
            symbol: sym,
            collapsed: seq_contains(meta, collapsed_word()),
        })
    } else {
        let (t, sym) = symbol_split(trim(text));
        (t, NodeMetadata { symbol: sym, ..no_metadata() })
    }
}

fn skip_ws_at(v: &Vec<char>, j: usize) -> (r: usize)
    requires
        j <= v@.len(),
    ensures
        r == skip_ws(v@, j as int),
        j <= r <= v@.len(),
{
    let mut k = j;
    while k < v.len() && is_whitespace(v[k])
        invariant
            j <= k <= v@.len(),
            skip_ws(v@, j as int) == skip_ws(v@, k as int),
        decreases v@.len() - k,
    {
        k += 1;
    }
    k
}

fn digits_end_at(v: &Vec<char>, j: usize) -> (r: usize)
    requires
        j <= v@.len(),
    ensures
        r == digits_end(v@, j as int),
        j <= r <= v@.len(),
{
    let mut k = j;
    while k < v.len() && digit_class_char(v[k])
        invariant
            j <= k <= v@.len(),
            digits_end(v@, j as int) == digits_end(v@, k as int),
        decreases v@.len() - k,
    {
        k += 1;
    }
    k
}

fn number_end_at(v: &Vec<char>, j: usize, signed: bool) -> (r: Option<usize>)
    requires
        j <= v@.len(),
    ensures
        match r {
            Some(e) => number_end(v@, j as int, signed) == Some(e as int) && e <= v@.len(),
            None => number_end(v@, j as int, signed) is None,
        },
{
    let k = if signed && j < v.len() && (v[j] == '+' || v[j] == '-') { j + 1 } else { j };
    let e = digits_end_at(v, k);
    if e > k {
        Some(e)
    } else {
        None
    }
}

fn text_at_pos(v: &Vec<char>, i: usize, lit: &str) -> (b: bool)
    ensures
        b == text_at(v@, i as int, lit@),
{
    let l = chars_of(lit);
    let m = l.len();
    if i > v.len() || m > v.len() - i {
        return false;
    }
    let mut k: usize = 0;
    while k < m
        invariant
            m == l@.len(),
            l@ == lit@,
            i + m <= v.len(),
            k <= m,
            forall|q: int| 0 <= q < k ==> v@[i + q] == l@[q],
        decreases m - k,
    {
        if v[i + k] != l[k] {
            proof {
                assert(v@.subrange(i as int, i + m)[k as int] != lit@[k as int]);
            }
            return false;
        }
        k += 1;
    }
    proof {
        assert(v@.subrange(i as int, i + m) =~= lit@);
    }
    true
}

fn digit_class_char(c: char) -> (b: bool)
    ensures
        b == in_digit_class(c),
{
    let u = c as u32;
    if u < 128 {
        48 <= u && u <= 57
    } else {
        unicode_digit(c)
    }
}

/// The numbers of the first rank in a metadata text.
fn first_rank_in(v: &Vec<char>) -> (r: Option<(Vec<char>, Vec<char>)>)
    ensures
        match r {
            Some((p, n)) => first_rank(v@, 0) == Some((p@, n@)),
            None => first_rank(v@, 0) is None,
        },
{
    let len = v.len();
    let mut i: usize = 0;
    while i < len
        invariant
            len == v@.len(),
            i <= len,
            first_rank(v@, 0) == first_rank(v@, i as int),
        decreases len - i,
    {
        if text_at_pos(v, i, "rank:") {
            proof {
                reveal_strlit("rank:");
            }
            let j = skip_ws_at(v, i + 5);
            if let Some(e1) = number_end_at(v, j, true) {
                if e1 < len && v[e1] == '/' {
                    if let Some(e2) = number_end_at(v, e1 + 1, true) {
                        return Some((sub_chars(v, j, e1), sub_chars(v, e1 + 1, e2)));
                    }
                }
            }
        }
        i += 1;
    }
    None
}

/// The number of the first star count in a metadata text.
fn first_stars_in(v: &Vec<char>) -> (r: Option<Vec<char>>)
    ensures
        match r {
            Some(d) => first_stars(v@, 0) == Some(d@),
            None => first_stars(v@, 0) is None,
        },
{
    let len = v.len();
    let mut i: usize = 0;
    while i < len
        invariant
            len == v@.len(),
            i <= len,
            first_stars(v@, 0) == first_stars(v@, i as int),
        decreases len - i,
    {
        if text_at_pos(v, i, "stars:") {
            proof {
                reveal_strlit("stars:");
            }
            let j = skip_ws_at(v, i + 6);
            if let Some(e) = number_end_at(v, j, false) {
                return Some(sub_chars(v, j, e));
            }
        }
        i += 1;
    }
    None
}

/// The ranks that a metadata text gives.
pub fn rank_from(meta: &Vec<char>) -> (r: Option<(i32, i32)>)
    ensures
        r == rank_of(meta@),
{
    match first_rank_in(meta) {
        Some((p, q)) => {
            let pv = parse_int_chars(&p, -0x8000_0000, 0x7fff_ffff, true);
            let qv = parse_int_chars(&q, -0x8000_0000, 0x7fff_ffff, true);
            match (pv, qv) {
                (Some(a), Some(b)) => Some((a as i32, b as i32)),
                _ => None,
            }
        },
        None => None,
    }
}

/// The star count that a metadata text gives.
pub fn stars_from(meta: &Vec<char>) -> (r: Option<u8>)
    ensures
        r == stars_of(meta@),
{
    match first_stars_in(meta) {
        Some(d) => match parse_int_chars(&d, 0, 255, false) {
            Some(v) => Some(if v > 5 { 5u8 } else { v as u8 }),
            None => None,
        },
        None => None,
    }
}

/// `a`, a space, then `b`.
fn joined_with_space(a: &Vec<char>, b: &Vec<char>) -> (r: Vec<char>)
    ensures
        r@ == a@ + seq![' '] + b@,
{
    let mut r: Vec<char> = Vec::new();
    let n = a.len();
    let mut i: usize = 0;
    while i < n
        invariant
            n == a@.len(),
            i <= n,
            r@ == a@.subrange(0, i as int),
        decreases n - i,
    {
        r.push(a[i]);
        i += 1;
        proof {
            assert(r@ =~= a@.subrange(0, i as int));
        }
    }
    r.push(' ');
    let m = b.len();
    let mut k: usize = 0;
    while k < m
        invariant
            m == b@.len(),
            k <= m,
            n == a@.len(),
            r@ == a@.subrange(0, n as int) + seq![' '] + b@.subrange(0, k as int),
        decreases m - k,
    {
        r.push(b[k]);
        k += 1;
        proof {
            assert(r@ =~= a@.subrange(0, n as int) + seq![' '] + b@.subrange(0, k as int));
        }
    }
    proof {
        assert(a@.subrange(0, n as int) =~= a@);
        assert(b@.subrange(0, m as int) =~= b@);
    }
    r
}

/// Splits a line's content into its text and its metadata.
pub fn parse_metadata(text: &str) -> (r: (String, NodeMetadata))
    requires
        !metadata_unreadable(text@),
    ensures
        r.0@ == parsed_metadata(text@).0,
        r.1 == parsed_metadata(text@).1,
{
    let chars = chars_of(text);
    let n = chars.len();
    let bs = find_char(&chars, '[');
    let be = find_char(&chars, ']');
    if let (Some(bs), Some(be)) = (bs, be) {
        let before = trim_chars(&sub_chars(&chars, 0, bs));
        let after = trim_chars(&sub_chars(&chars, be + 1, n));
        let clean = trim_chars(&joined_with_space(&before, &after));
        let meta_chars = sub_chars(&chars, bs + 1, be);
        let mut meta = NodeMetadata::default();
        if let Some((a, b)) = rank_from(&meta_chars) {
            meta.rank_positive = a;
            meta.rank_negative = b;
        }
        if let Some(st) = stars_from(&meta_chars) {
            meta.stars = st;
        }
        meta.collapsed = contains_chars(&meta_chars, &chars_of("collapsed"));
        let (t, sym) = split_symbol(&clean);
        meta.symbol = sym;
        return (string_of(&t), meta);
    }
    let (t, sym) = split_symbol(&trim_chars(&chars));
    let mut meta = NodeMetadata::default();
    meta.symbol = sym;
    (string_of(&t), meta)
}

/// A leading symbol taken off a text (see `symbol_split`).
fn split_symbol(clean: &Vec<char>) -> (r: (Vec<char>, Option<char>))
    ensures
        r.0@ == symbol_split(clean@).0,
        r.1 == symbol_split(clean@).1,
{
    let n = clean.len();
    if n > 0 && (clean[0] == '\u{2713}' || clean[0] == '\u{2717}') {
        proof {
            assert(clean@.drop_first() =~= clean@.subrange(1, n as int));
        }
        (trim_chars(&sub_chars(clean, 1, n)), Some(clean[0]))
    } else {
        proof {
            assert(clean@.subrange(0, n as int) =~= clean@);
        }
        (sub_chars(clean, 0, n), None)
    }
}

/// An `i32` as the format writes it in a rank: with `+` before a value
/// that is not negative.
pub open spec fn signed_text(x: i32) -> Seq<char> {
    if x >= 0 {
        "+"@ + decimal(x as nat)
    } else {
        "-"@ + decimal((-(x as int)) as nat)
    }
}

/// The rank part of the metadata: `rank: +2/-1`.
pub open spec fn rank_text(rp: i32, rn: i32) -> Seq<char> {
    "rank: "@ + signed_text(rp) + "/"@ + signed_text(rn)
}

/// The stars part of the metadata: `stars: 3`.
pub open spec fn stars_text(stars: u8) -> Seq<char> {
    "stars: "@ + decimal(stars as nat)
}

/// Two parts of the metadata, separated by a comma where both are there.
pub open spec fn joined(a: Seq<char>, b: Seq<char>) -> Seq<char> {
    if a.len() == 0 {
        b
    } else if b.len() == 0 {
        a
    } else {
        a + ", "@ + b
    }
}

/// What the brackets of a node's metadata hold: the rank (where either
/// rank is not zero), the stars (where there are any) and the word
/// `collapsed` (where the node is), separated by commas.
pub open spec fn metadata_items(t: Tree) -> Seq<char> {
    let rank = if t.rank_positive != 0 || t.rank_negative != 0 {
        rank_text(t.rank_positive, t.rank_negative)
    } else {
        Seq::empty()
    };
    let stars = if t.stars > 0 {
        stars_text(t.stars)
    } else {
        Seq::empty()
    };
    let col = if t.collapsed {
        collapsed_word()
    } else {
        Seq::empty()
    };
    joined(joined(rank, stars), col)
}

/// The metadata of a node as the format writes it: its items in brackets,
/// nothing where there is none.
pub open spec fn formatted_metadata(t: Tree) -> Seq<char> {
    let items = metadata_items(t);
    if items.len() == 0 {
        Seq::empty()
    } else {
        "["@ + items + "]"@
    }
}

fn push_signed(s: &mut String, x: i32)
    ensures
        final(s)@ == old(s)@ + signed_text(x),
{
    if x >= 0 {
        push_str(s, "+");
        let d = decimal_chars(x as u64);
        push_chars(s, &d);
    } else {
        push_str(s, "-");
        let d = decimal_chars((-(x as i64)) as u64);
        push_chars(s, &d);
    }
    proof {
        assert(final(s)@ =~= old(s)@ + signed_text(x));
    }
}

fn push_rank(s: &mut String, rp: i32, rn: i32)
    ensures
        final(s)@ == old(s)@ + rank_text(rp, rn),
{
    push_str(s, "rank: ");
    push_signed(s, rp);
    push_str(s, "/");
    push_signed(s, rn);
    proof {
        assert(final(s)@ =~= old(s)@ + rank_text(rp, rn));
    }
}

fn push_stars(s: &mut String, stars: u8)
    ensures
        final(s)@ == old(s)@ + stars_text(stars),
{
    push_str(s, "stars: ");
    let d = decimal_chars(stars as u64);
    push_chars(s, &d);
    proof {
        assert(final(s)@ =~= old(s)@ + stars_text(stars));
    }
}

fn push_joined_part(s: &mut String, first: bool)
    ensures
        final(s)@ == old(s)@ + (if first { Seq::empty() } else { ", "@ }),
{
    if !first {
        push_str(s, ", ");
    }
    proof {
        assert(final(s)@ =~= old(s)@ + (if first { Seq::<char>::empty() } else { ", "@ }));
    }
}

/// The metadata of a node as the format writes it.
pub fn format_metadata(node: &Node) -> (r: String)
    ensures
        r@ == formatted_metadata(node@),
{
    proof {
        reveal_strlit("rank: ");
        reveal_strlit("stars: ");
        reveal_strlit("collapsed");
    }
    let has_rank = node.rank_positive != 0 || node.rank_negative != 0;
    let has_stars = node.stars > 0;
    let mut items = String::new();
    if has_rank {
        push_rank(&mut items, node.rank_positive, node.rank_negative);
    }
    let ghost rank_part = items@;
    if has_stars {
        push_joined_part(&mut items, !has_rank);
        push_stars(&mut items, node.stars);
    }
    let ghost rs_part = items@;
    proof {
        let rank = if has_rank { rank_text(node.rank_positive, node.rank_negative) } else { Seq::<char>::empty() };
        let stars = if has_stars { stars_text(node.stars) } else { Seq::<char>::empty() };
        assert(rank_part =~= rank);
        assert(rs_part =~= joined(rank, stars));
    }
    if node.collapsed {
        push_joined_part(&mut items, !has_rank && !has_stars);
        push_str(&mut items, "collapsed");
    }
    proof {
        assert(items@ =~= metadata_items(node@));
    }
    let mut s = String::new();
    if has_rank || has_stars || node.collapsed {
        push_str(&mut s, "[");
        push_str(&mut s, items.as_str());
        push_str(&mut s, "]");
    }
    proof {
        assert(s@ =~= formatted_metadata(node@));
    }
    s
}

/// `n` tab characters.
pub open spec fn tabs(n: nat) -> Seq<char> {
    Seq::new(n, |i: int| '\t')
}

/// The line that the format writes for a node at the given depth: the
/// indentation, the symbol, the text, the metadata after a space where
/// there is any.
pub open spec fn node_line(t: Tree, level: nat) -> Seq<char> {
    let meta = formatted_metadata(t);
    tabs(level) + symbol_prefix(t) + t.text + (if meta.len() == 0 { Seq::empty() } else { " "@ + meta })
        + "\n"@
}

/// What the format writes before a node's text: its symbol and a space,
/// where it has one.
pub open spec fn symbol_prefix(t: Tree) -> Seq<char> {
    match t.symbol {
        Some(c) => seq![c, ' '],
        None => Seq::empty(),
    }
}

/// The text that the format writes for a subtree at depth `level`: its own
/// line (a top node without children, an empty map, writes nothing), then
/// its children's subtrees in order, one level deeper.
pub open spec fn serialized(t: Tree, level: nat) -> Seq<char>
    decreases t, 0int,
{
    (if level > 0 || t.children.len() > 0 {
        node_line(t, level)
    } else {
        Seq::empty()
    }) + serialized_from(t.children, level + 1, 0)
}

pub open spec fn serialized_from(s: Seq<Tree>, level: nat, i: int) -> Seq<char>
    decreases s, s.len() - i,
{
    if 0 <= i < s.len() {
        serialized(s[i], level) + serialized_from(s, level, i + 1)
    } else {
        Seq::empty()
    }
}

fn push_tabs(s: &mut String, n: usize)
    ensures
        final(s)@ == old(s)@ + tabs(n as nat),
{
    let mut i: usize = 0;
    while i < n
        invariant
            i <= n,
            s@ == old(s)@ + tabs(i as nat),
        decreases n - i,
    {
        push_char(s, '\t');
        i += 1;
        proof {
            assert(s@ =~= old(s)@ + tabs(i as nat));
        }
    }
}

/// Sets a node's metadata.
pub fn apply_metadata(node: &mut Node, metadata: NodeMetadata)
    ensures
        final(node)@ == (Tree {
            rank_positive: metadata.rank_positive,
            rank_negative: metadata.rank_negative,
            stars: metadata.stars,
            symbol: metadata.symbol,
            collapsed: metadata.collapsed,
            ..old(node)@
        }),
{
    node.rank_positive = metadata.rank_positive;
    node.rank_negative = metadata.rank_negative;
    node.stars = metadata.stars;
    node.symbol = metadata.symbol;
    node.collapsed = metadata.collapsed;
}

/// The number of tab characters at the start of `s`.
pub open spec fn leading_tabs(s: Seq<char>) -> nat
    decreases s.len(),
{
    if s.len() > 0 && s[0] == '\t' {
        1 + leading_tabs(s.drop_first())
    } else {
        0
    }
}

/// The number of tab characters at the start of a line: its depth.
pub fn count_leading_tabs(line: &str) -> (n: usize)
    ensures
        n as nat == leading_tabs(line@),
{
    let v = chars_of(line);
    let len = v.len();
    let mut i: usize = 0;
    proof {
        assert(v@.subrange(0, len as int) =~= v@);
    }
    while i < len && v[i] == '\t'
        invariant
            len == v@.len(),
            i <= len,
            leading_tabs(v@) == i + leading_tabs(v@.subrange(i as int, len as int)),
        decreases len - i,
    {
        proof {
            assert(v@.subrange(i as int, len as int).drop_first() =~= v@.subrange(i + 1, len as int));
        }
        i += 1;
    }
    proof {
        if i < len {
            assert(v@.subrange(i as int, len as int)[0] == v@[i as int]);
        }
    }
    i
}

/// One non-blank line of a mind-map file, read.
pub struct LineEntry {
    pub level: nat,
    pub text: Seq<char>,
    pub meta: NodeMetadata,
}

/// The entry of a non-blank line: its depth, and the text and metadata of
/// its trimmed content.
pub open spec fn entry_of(line: Seq<char>) -> LineEntry {
    LineEntry {
        level: leading_tabs(line),
        text: parsed_metadata(trim(line)).0,
        meta: parsed_metadata(trim(line)).1,
    }
}

/// The end of the line that starts at `i`: the position of the next line
/// break, or the end of the text.
pub open spec fn line_end(s: Seq<char>, i: int) -> int
    decreases s.len() - i,
{
    if 0 <= i < s.len() && s[i] != '\n' {
        line_end(s, i + 1)
    } else {
        i
    }
}

pub proof fn lemma_line_end(s: Seq<char>, i: int)
    requires
        0 <= i <= s.len(),
    ensures
        i <= line_end(s, i) <= s.len(),
        line_end(s, i) < s.len() ==> s[line_end(s, i)] == '\n',
        forall|k: int| i <= k < line_end(s, i) ==> s[k] != '\n',
    decreases s.len() - i,
{
    if i < s.len() && s[i] != '\n' {
        lemma_line_end(s, i + 1);
    }
}

/// The entries of the non-blank lines of `s` from position `i` on, lines
/// being separated by line breaks.
pub open spec fn entries_from(s: Seq<char>, i: int) -> Seq<LineEntry>
    decreases s.len() + 1 - i,
{
    if 0 <= i < s.len() {
        proof {
            lemma_line_end(s, i);
        }
        let e = line_end(s, i);
        let line = s.subrange(i, e);
        let rest = entries_from(s, e + 1);
        if trim(line).len() == 0 {
            rest
        } else {
            seq![entry_of(line)] + rest
        }
    } else {
        Seq::empty()
    }
}

/// Whether every non-blank line of `s` from position `i` on can be read.
pub open spec fn lines_readable(s: Seq<char>, i: int) -> bool
    decreases s.len() + 1 - i,
{
    if 0 <= i < s.len() {
        proof {
            lemma_line_end(s, i);
        }
        let e = line_end(s, i);
        let line = s.subrange(i, e);
        (trim(line).len() == 0 || !metadata_unreadable(trim(line))) && lines_readable(s, e + 1)
    } else {
        true
    }
}

/// The end of the subtree of an entry at depth `lvl`: the first entry at or
/// after `j` that is not deeper.
pub open spec fn subtree_end(es: Seq<LineEntry>, lvl: nat, j: int) -> int
    decreases es.len() - j,
{
    if 0 <= j < es.len() && es[j].level > lvl {
        subtree_end(es, lvl, j + 1)
    } else {
        j
    }
}

pub proof fn lemma_subtree_end(es: Seq<LineEntry>, lvl: nat, j: int)
    requires
        0 <= j <= es.len(),
    ensures
        j <= subtree_end(es, lvl, j) <= es.len(),
        forall|k: int| j <= k < subtree_end(es, lvl, j) ==> es[k].level > lvl,
        subtree_end(es, lvl, j) < es.len() ==> es[subtree_end(es, lvl, j)].level <= lvl,
    decreases es.len() - j,
{
    if j < es.len() && es[j].level > lvl {
        lemma_subtree_end(es, lvl, j + 1);
    }
}

pub proof fn lemma_subtree_end_le(es: Seq<LineEntry>, lvl: nat, j: int, m: int)
    requires
        0 <= j <= m <= es.len(),
        m == es.len() || es[m].level <= lvl,
    ensures
        subtree_end(es, lvl, j) <= m,
    decreases es.len() - j,
{
    if j < m && es[j].level > lvl {
        lemma_subtree_end_le(es, lvl, j + 1, m);
    }
}

/// The node of entry `i`, its children being the entries of its subtree
/// whose parent it is (each entry's parent is the nearest entry before it
/// that is less deep).
pub open spec fn built_node(es: Seq<LineEntry>, i: int) -> Tree
    decreases 2 * (es.len() - i) + 1,
{
    if 0 <= i < es.len() {
        let end = subtree_end(es, es[i].level, i + 1);
        proof {
            lemma_subtree_end(es, es[i].level, i + 1);
        }
        Tree {
            id: 0,
            text: es[i].text,
            children: built_forest(es, i + 1, end),
            collapsed: es[i].meta.collapsed,
            rank_positive: es[i].meta.rank_positive,
            rank_negative: es[i].meta.rank_negative,
            stars: es[i].meta.stars,
            symbol: es[i].meta.symbol,
            hidden: false,
        }
    } else {
        arbitrary()
    }
}

/// The nodes of the entries from `j` up to `end` that are siblings: each
/// one followed by its subtree.
pub open spec fn built_forest(es: Seq<LineEntry>, j: int, end: int) -> Seq<Tree>
    decreases 2 * (es.len() - j) + 2,
{
    if 0 <= j < end && end <= es.len() {
        proof {
            lemma_subtree_end(es, es[j].level, j + 1);
        }
        seq![built_node(es, j)] + built_forest(es, subtree_end(es, es[j].level, j + 1), end)
    } else {
        Seq::empty()
    }
}

/// The last top-level entry among the first `n`.
pub open spec fn last_top(es: Seq<LineEntry>, n: int) -> Option<int>
    decreases n,
{
    if 0 < n <= es.len() {
        if es[n - 1].level == 0 {
            Some(n - 1)
        } else {
            last_top(es, n - 1)
        }
    } else {
        None
    }
}

/// A node with the given text and nothing else, its identifier erased.
pub open spec fn plain_node(text: Seq<char>) -> Tree {
    Tree {
        id: 0,
        text,
        children: Seq::empty(),
        collapsed: false,
        rank_positive: 0,
        rank_negative: 0,
        stars: 0,
        symbol: None,
        hidden: false,
    }
}

/// The mind map that a file's text gives, identifiers erased: the subtree
/// of its last top-level line, each line a child of the nearest line above
/// it that is less deep; where no line is at the top level, a single node
/// named `stem`.
pub open spec fn parsed_tree(content: Seq<char>, stem: Seq<char>) -> Tree {
    let es = entries_from(content, 0);
    match last_top(es, es.len() as int) {
        Some(k) => built_node(es, k),
        None => plain_node(stem),
    }
}

/// The name of a file without directory and extension, as
/// `std::path::Path::file_stem` gives it.
pub uninterp spec fn spec_file_stem(path: Seq<char>) -> Option<Seq<char>>;

/// Calls `Path::new(path).file_stem()` and hands out the stem as a
/// `String`; the result is named `spec_file_stem` of the path (a function
/// of the text alone: no file is looked at).
#[verifier::external_body]
fn file_stem(path: &str) -> (r: Option<String>)
    ensures
        r.deep_view() == spec_file_stem(path@),
{
    std::path::Path::new(path).file_stem().map(|s| s.to_string_lossy().into_owned())
}

/// A file's stem, or `Untitled` where it has none.
pub open spec fn stem_or_untitled(stem: Option<Seq<char>>) -> Seq<char> {
    match stem {
        Some(s) => s,
        None => "Untitled"@,
    }
}

/// The text of the node that an empty file gives: the file's stem, or
/// `Untitled`.
pub open spec fn stem_text(filename: Seq<char>) -> Seq<char> {
    stem_or_untitled(spec_file_stem(filename))
}

/// The text of the node that an empty file with the given stem gives.
pub fn untitled_or(stem: Option<String>) -> (r: String)
    ensures
        r@ == stem_or_untitled(stem.deep_view()),
{
    match stem {
        Some(s) => s,
        None => "Untitled".to_owned(),
    }
}

/// One non-blank line of a mind-map file, read: its depth, text and
/// metadata.
pub struct ParsedLine {
    pub level: usize,
    pub text: String,
    pub meta: NodeMetadata,
}

impl View for ParsedLine {
    type V = LineEntry;

    open spec fn view(&self) -> LineEntry {
        LineEntry { level: self.level as nat, text: self.text@, meta: self.meta }
    }
}

pub open spec fn entry_views(s: Seq<ParsedLine>) -> Seq<LineEntry> {
    s.map_values(|e: ParsedLine| e@)
}

/// Reads the non-blank lines of a file's text.
pub fn parse_entries(content: &str) -> (r: Vec<ParsedLine>)
    requires
        lines_readable(content@, 0),
    ensures
        entry_views(r@) == entries_from(content@, 0),
{
    let chars = chars_of(content);
    let n = chars.len();
    let mut out: Vec<ParsedLine> = Vec::new();
    let mut i: usize = 0;
    while i < n
        invariant
            n == chars@.len(),
            chars@ == content@,
            i <= n,
            lines_readable(chars@, i as int),
            entry_views(out@) + entries_from(chars@, i as int) == entries_from(chars@, 0),
        decreases n - i,
    {
        let mut e: usize = i;
        proof {
            lemma_line_end(chars@, i as int);
        }
        while e < n && chars[e] != '\n'
            invariant
                n == chars@.len(),
                i <= e <= n,
                line_end(chars@, i as int) == line_end(chars@, e as int),
            decreases n - e,
        {
            e += 1;
        }
        proof {
            lemma_line_end(chars@, e as int);
        }
        let line = sub_chars(&chars, i, e);
        let t = trim_chars(&line);
        if t.len() > 0 {
            let line_s = string_of(&line);
            let level = count_leading_tabs(line_s.as_str());
            let ts = string_of(&t);
            let (text, meta) = parse_metadata(ts.as_str());
            let entry = ParsedLine { level, text, meta };
            proof {
                assert(entry@ == entry_of(chars@.subrange(i as int, e as int)));
                assert(entry_views(out@.push(entry)) =~= entry_views(out@).push(entry@));
                assert(entry_views(out@.push(entry)) + entries_from(chars@, e + 1)
                    =~= entry_views(out@) + entries_from(chars@, i as int));
            }
            out.push(entry);
        } else {
            proof {
                assert(entries_from(chars@, i as int) == entries_from(chars@, e + 1));
            }
        }
        if e < n {
            i = e + 1;
        } else {
            proof {
                assert(entries_from(chars@, e + 1) =~= entries_from(chars@, n as int));
                assert(lines_readable(chars@, n as int));
            }
            i = n;
        }
    }
    proof {
        assert(entry_views(out@) + entries_from(chars@, n as int) =~= entry_views(out@));
    }
    out
}

/// Whether every non-blank line of a file's text can be read.
pub fn lines_can_be_read(content: &str) -> (b: bool)
    ensures
        b == lines_readable(content@, 0),
{
    let chars = chars_of(content);
    let n = chars.len();
    let mut i: usize = 0;
    while i < n
        invariant
            n == chars@.len(),
            chars@ == content@,
            i <= n,
            lines_readable(chars@, 0) == lines_readable(chars@, i as int),
        decreases n - i,
    {
        let mut e: usize = i;
        proof {
            lemma_line_end(chars@, i as int);
        }
        while e < n && chars[e] != '\n'
            invariant
                n == chars@.len(),
                i <= e <= n,
                line_end(chars@, i as int) == line_end(chars@, e as int),
            decreases n - e,
        {
            e += 1;
        }
        proof {
            lemma_line_end(chars@, e as int);
        }
        let line = sub_chars(&chars, i, e);
        let t = trim_chars(&line);
        if t.len() > 0 {
            proof {
                assert(t@ == trim(chars@.subrange(i as int, e as int)));
            }
            if !metadata_readable(&t) {
                return false;
            }
        }
        if e < n {
            i = e + 1;
        } else {
            proof {
                assert(lines_readable(chars@, e + 1));
                assert(lines_readable(chars@, n as int));
            }
            i = n;
        }
    }
    true
}

/// Whether `parse_metadata` can work on the given text.
pub fn metadata_readable(text: &Vec<char>) -> (b: bool)
    ensures
        b == !metadata_unreadable(text@),
{
    let bs = find_char(text, '[');
    let be = find_char(text, ']');
    match (bs, be) {
        (Some(a), Some(b)) => b >= a,
        _ => true,
    }
}

/// The end of the subtree of an entry at depth `lvl`, from `j` on.
fn subtree_end_at(es: &Vec<ParsedLine>, lvl: usize, j: usize) -> (r: usize)
    requires
        j <= es@.len(),
    ensures
        r == subtree_end(entry_views(es@), lvl as nat, j as int),
{
    let n = es.len();
    let mut k: usize = j;
    while k < n && es[k].level > lvl
        invariant
            n == es@.len(),
            j <= k <= n,
            subtree_end(entry_views(es@), lvl as nat, j as int)
                == subtree_end(entry_views(es@), lvl as nat, k as int),
        decreases n - k,
    {
        k += 1;
    }
    k
}

/// The node of entry `i` with its subtree, its identifiers drawn fresh:
/// none of them is in `avoid`, nor twice in the subtree; they are added to
/// `avoid`.
pub fn build_node(es: &Vec<ParsedLine>, i: usize, avoid: &mut Vec<u128>) -> (r: Node)
    requires
        i < es.len(),
    ensures
        r@.erase_ids() == built_node(entry_views(es@), i as int),
        final(avoid)@ == old(avoid)@ + r@.ids(),
        fresh_over(old(avoid)@, r@.ids()),
    decreases es@.len() - i,
{
    let ghost ev = entry_views(es@);
    let id = fresh_id(avoid);
    avoid.push(id);
    proof {
        assert(fresh_over(old(avoid)@, seq![id]));
    }
    let mut node = Node {
        id,
        text: es[i].text.clone(),
        children: Vec::new(),
        collapsed: false,
        rank_positive: 0,
        rank_negative: 0,
        stars: 0,
        symbol: None,
        hidden: false,
    };
    apply_metadata(&mut node, es[i].meta);
    let lvl = es[i].level;
    let end = subtree_end_at(es, lvl, i + 1);
    proof {
        lemma_subtree_end(ev, lvl as nat, i + 1);
    }
    let mut children: Vec<Node> = Vec::new();
    let ghost mut acc: Seq<Tree> = Seq::empty();
    let ghost mut got: Seq<u128> = seq![id];
    let mut j: usize = i + 1;
    while j < end
        invariant
            ev == entry_views(es@),
            i < es@.len(),
            i + 1 <= j <= end <= es@.len(),
            end == subtree_end(ev, ev[i as int].level, i + 1),
            end == es@.len() || ev[end as int].level <= ev[i as int].level,
            forall|k: int| j <= k < end ==> ev[k].level > ev[i as int].level,
            built_forest(ev, i + 1, end as int) == acc + built_forest(ev, j as int, end as int),
            acc.len() == children@.len(),
            forall|k: int| 0 <= k < children@.len() ==> #[trigger] children@[k]@.erase_ids() == acc[k],
            avoid@ == old(avoid)@ + got,
            got == seq![id] + ids_from(views(children@), 0),
            fresh_over(old(avoid)@, got),
        decreases end - j,
    {
        let child = build_node(es, j, avoid);
        let next = subtree_end_at(es, es[j].level, j + 1);
        proof {
            lemma_subtree_end(ev, ev[j as int].level, j + 1);
            lemma_subtree_end_le(ev, ev[j as int].level, j + 1, end as int);
            assert forall|k: int| next <= k < end implies ev[k].level > ev[i as int].level by {}
            assert(built_forest(ev, j as int, end as int)
                == seq![built_node(ev, j as int)] + built_forest(ev, next as int, end as int));
            assert(acc + built_forest(ev, j as int, end as int)
                =~= acc.push(built_node(ev, j as int)) + built_forest(ev, next as int, end as int));
            acc = acc.push(built_node(ev, j as int));
            lemma_fresh_over_concat(old(avoid)@, got, child@.ids());
            lemma_views_push(children@, child);
            lemma_ids_from_push(views(children@), child@);
            assert(avoid@ =~= old(avoid)@ + (got + child@.ids()));
            got = got + child@.ids();
            assert(got =~= seq![id] + ids_from(views(children@.push(child)), 0));
        }
        children.push(child);
        j = next;
    }
    proof {
        assert(acc + built_forest(ev, end as int, end as int) =~= acc);
    }
    node.children = children;
    proof {
        lemma_views(node.children@);
        lemma_erase_ids_from(node@.children, 0);
        assert(erase_ids_from(node@.children, 0) =~= acc);
        assert(node@.erase_ids() =~= built_node(ev, i as int));
        assert(node@.ids() == seq![id] + ids_from(node@.children, 0));
    }
    node
}

/// Where the mind map lives on disk.
#[derive(Debug)]
pub struct FileManager {
    pub filename: Option<String>,
}

impl FileManager {
    pub fn new(filename: Option<String>) -> (fm: FileManager)
        ensures
            fm.filename == filename,
    {
        FileManager { filename }
    }

    /// The mind map that the text of the file `filename` gives. Reading the
    /// file is the caller's part; the identifiers of the nodes are fresh.
    pub fn load_from_file(&self, filename: &str, content: &str) -> (r: Node)
        requires
            lines_readable(content@, 0),
        ensures
            r@.erase_ids() == parsed_tree(content@, stem_text(filename@)),
            r@.ids().no_duplicates(),
    {
        let es = parse_entries(content);
        let ghost ev = entry_views(es@);
        let n = es.len();
        let mut k: usize = n;
        while k > 0 && es[k - 1].level != 0
            invariant
                ev == entry_views(es@),
                n == es@.len(),
                k <= n,
                last_top(ev, n as int) == last_top(ev, k as int),
            decreases k,
        {
            k -= 1;
        }
        if k > 0 {
            let mut avoid: Vec<u128> = Vec::new();
            let r = build_node(&es, k - 1, &mut avoid);
            proof {
                assert(r@.ids().no_duplicates());
            }
            r
        } else {
            let text = untitled_or(file_stem(filename));
            let node = Node::new(text);
            proof {
                lemma_erase_ids_from(node@.children, 0);
                assert(node@.erase_ids() =~= plain_node(stem_text(filename@)));
                assert(node@.ids() =~= seq![node.id]);
            }
            node
        }
    }

    /// The text that the format writes for a subtree at depth `level`.
    pub fn serialize_tree(&self, node: &Node, level: usize) -> (r: String)
        requires
            level + node@.height() <= usize::MAX,
        ensures
            r@ == serialized(node@, level as nat),
        decreases node,
    {
        let mut result = String::new();
        let n = node.children.len();
        proof {
            lemma_views(node.children@);
        }
        if level > 0 || n > 0 {
            push_tabs(&mut result, level);
            if let Some(c) = node.symbol {
                push_char(&mut result, c);
                push_char(&mut result, ' ');
            }
            push_str(&mut result, node.text.as_str());
            let meta = format_metadata(node);
            if !meta.as_str().is_empty() {
                push_str(&mut result, " ");
                push_str(&mut result, meta.as_str());
            }
            push_str(&mut result, "\n");
            proof {
                assert(result@ =~= node_line(node@, level as nat));
            }
        }
        if n > 0 {
            proof {
                lemma_height_child(node@.children, 0, 0);
            }
        }
        let cl: usize = if n == 0 { level } else { level + 1 };
        let mut i: usize = 0;
        while i < n
            invariant
                n == node.children@.len(),
                i <= n,
                level + node@.height() <= usize::MAX,
                n > 0 ==> cl == level + 1,
                views(node.children@).len() == n,
                forall|j: int| 0 <= j < n ==> #[trigger] views(node.children@)[j] == node.children@[j]@,
                result@ + serialized_from(node@.children, cl as nat, i as int) == serialized(node@, level as nat),
            decreases n - i,
        {
            proof {
                lemma_height_child(node@.children, 0, i as int);
            }
            let sub = self.serialize_tree(&node.children[i], cl);
            proof {
                assert(result@ + sub@ + serialized_from(node@.children, cl as nat, i + 1)
                    =~= result@ + serialized_from(node@.children, cl as nat, i as int));
            }
            push_str(&mut result, sub.as_str());
            i += 1;
        }
        proof {
            assert(result@ + serialized_from(node@.children, cl as nat, n as int) =~= result@);
        }
        result
    }
}

} // verus!
