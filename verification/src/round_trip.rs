//! Reading back what the file format wrote: the lines that `serialized`
//! writes for a map whose texts are plain are read by `parsed_tree` into the
//! same map, identifiers aside, with every node's rank, stars, symbol and
//! collapsed state.
use vstd::prelude::*;
use crate::tree::{Tree, erase_ids_from};
use crate::text::{
    is_ws, trim, trim_start, trim_end, first_index, decimal, seq_contains, is_digit,
    parse_i32, parse_u8, lemma_decimal_digits,
};
use crate::file::{
    LineEntry, NodeMetadata, has_brackets, metadata_unreadable, parsed_metadata, formatted_metadata,
    metadata_items, joined, signed_text, rank_text, stars_text, collapsed_word, symbol_prefix,
    symbol_split, is_symbol, no_metadata, lacks, ends_item, skip_ws, digits_end, number_end, text_at,
    rank_at, first_rank, stars_at, first_stars, rank_of, stars_of, tabs, node_line, serialized,
    serialized_from, leading_tabs, entry_of, line_end, entries_from, lines_readable, subtree_end,
    built_node, built_forest, last_top, parsed_tree, in_digit_class,
};

verus! {

/// A text that a line of the format carries unchanged: not empty, without
/// whitespace at either end, without line breaks, without a metadata part in
/// brackets, and not starting with one of the symbols.
pub open spec fn plain_text(text: Seq<char>) -> bool {
    &&& text.len() > 0
    &&& !is_ws(text[0])
    &&& !is_ws(text.last())
    &&& forall|k: int| 0 <= k < text.len() ==> text[k] != '\n'
    &&& !has_brackets(text)
    &&& !is_symbol(text[0])
}

/// A text without square brackets.
pub open spec fn bracket_free(s: Seq<char>) -> bool {
    forall|k: int| 0 <= k < s.len() ==> s[k] != '[' && s[k] != ']'
}

/// A node whose line the format writes so that it reads back the same: a
/// plain text (without brackets where the node has metadata to write), at
/// most five stars, no symbol but a check mark or a cross, and shown.
pub open spec fn writable_node(t: Tree) -> bool {
    &&& plain_text(t.text)
    &&& (formatted_metadata(t).len() > 0 ==> bracket_free(t.text))
    &&& t.stars <= 5
    &&& (t.symbol matches Some(c) ==> is_symbol(c))
    &&& !t.hidden
}

/// A subtree whose every node is `writable_node`.
pub open spec fn writable(t: Tree) -> bool
    decreases t, 0int,
{
    writable_node(t) && writable_from(t.children, 0)
}

pub open spec fn writable_from(s: Seq<Tree>, i: int) -> bool
    decreases s, s.len() - i,
{
    if 0 <= i < s.len() {
        writable(s[i]) && writable_from(s, i + 1)
    } else {
        true
    }
}

/// What the line of a node holds after its indentation: its symbol, its
/// text, then its metadata after a space where there is any.
#[verifier::opaque]
pub open spec fn line_content(t: Tree) -> Seq<char> {
    let meta = formatted_metadata(t);
    symbol_prefix(t) + t.text + (if meta.len() == 0 { Seq::empty() } else { " "@ + meta })
}

/// The metadata of a node as a line carries it.
pub open spec fn meta_of(t: Tree) -> NodeMetadata {
    NodeMetadata {
        rank_positive: t.rank_positive,
        rank_negative: t.rank_negative,
        stars: t.stars,
        symbol: t.symbol,
        collapsed: t.collapsed,
    }
}

/// The entries that the lines of a subtree written at depth `level` give:
/// its own, then its children's at the next depth, in pre-order.
pub open spec fn line_entries(t: Tree, level: nat) -> Seq<LineEntry>
    decreases t, 0int,
{
    seq![LineEntry { level, text: t.text, meta: meta_of(t) }] + line_entries_from(t.children, level + 1, 0)
}

pub open spec fn line_entries_from(s: Seq<Tree>, level: nat, i: int) -> Seq<LineEntry>
    decreases s, s.len() - i,
{
    if 0 <= i < s.len() {
        line_entries(s[i], level) + line_entries_from(s, level, i + 1)
    } else {
        Seq::empty()
    }
}

proof fn lemma_line_end_shift(p: Seq<char>, r: Seq<char>, j: int)
    requires
        0 <= j <= r.len(),
    ensures
        line_end(p + r, p.len() + j) == p.len() + line_end(r, j),
    decreases r.len() - j,
{
    if j < r.len() && r[j] != '\n' {
        assert((p + r)[p.len() + j] == r[j]);
        lemma_line_end_shift(p, r, j + 1);
    } else if j < r.len() {
        assert((p + r)[p.len() + j] == r[j]);
    }
}

proof fn lemma_entries_shift(p: Seq<char>, r: Seq<char>, j: int)
    requires
        0 <= j <= r.len() + 1,
    ensures
        entries_from(p + r, p.len() + j) == entries_from(r, j),
        lines_readable(p + r, p.len() + j) == lines_readable(r, j),
    decreases r.len() + 1 - j,
{
    if j < r.len() {
        lemma_line_end_shift(p, r, j);
        crate::file::lemma_line_end(r, j);
        let e = line_end(r, j);
        assert((p + r).subrange(p.len() + j, p.len() + e) =~= r.subrange(j, e));
        lemma_entries_shift(p, r, e + 1);
    }
}

proof fn lemma_line_end_in_line(line: Seq<char>, rest: Seq<char>, k: int)
    requires
        0 <= k <= line.len(),
        forall|m: int| 0 <= m < line.len() ==> line[m] != '\n',
    ensures
        line_end(line + "\n"@ + rest, k) == line.len(),
    decreases line.len() - k,
{
    reveal_strlit("\n");
    let s = line + "\n"@ + rest;
    if k < line.len() {
        assert(s[k] == line[k]);
        lemma_line_end_in_line(line, rest, k + 1);
    } else {
        assert(s[k] == '\n');
    }
}

/// A non-blank line followed by a line break: its entry comes first.
proof fn lemma_entries_line(line: Seq<char>, rest: Seq<char>)
    requires
        forall|m: int| 0 <= m < line.len() ==> line[m] != '\n',
        trim(line).len() > 0,
    ensures
        entries_from(line + "\n"@ + rest, 0) == seq![entry_of(line)] + entries_from(rest, 0),
        lines_readable(line + "\n"@ + rest, 0)
            == (!metadata_unreadable(trim(line)) && lines_readable(rest, 0)),
{
    reveal_strlit("\n");
    let s = line + "\n"@ + rest;
    let p = line + "\n"@;
    lemma_line_end_in_line(line, rest, 0);
    assert(s.subrange(0, line.len() as int) =~= line);
    assert(s =~= p + rest);
    lemma_entries_shift(p, rest, 0);
}

proof fn lemma_leading_tabs(level: nat, text: Seq<char>)
    requires
        text.len() > 0,
        !is_ws(text[0]),
    ensures
        leading_tabs(tabs(level) + text) == level,
        trim_start(tabs(level) + text) == text,
    decreases level,
{
    let s = tabs(level) + text;
    if level == 0 {
        assert(s =~= text);
    } else {
        assert(s[0] == '\t');
        assert(s.drop_first() =~= tabs((level - 1) as nat) + text);
        lemma_leading_tabs((level - 1) as nat, text);
    }
}

proof fn lemma_first_index_at(s: Seq<char>, c: char, p: int)
    requires
        0 <= p < s.len(),
        s[p] == c,
        forall|j: int| 0 <= j < p ==> s[j] != c,
    ensures
        first_index(s, c) == Some(p),
{
    assert(exists|i: int| 0 <= i < s.len() && s[i] == c);
    let q = choose|i: int| 0 <= i < s.len() && s[i] == c && forall|j: int| 0 <= j < i ==> s[j] != c;
    assert(0 <= p < s.len() && s[p] == c && forall|j: int| 0 <= j < p ==> s[j] != c);
    assert(q == p);
}

/// Characters that may stand inside the brackets of a line: no bracket and
/// no line break.
spec fn inner_safe(s: Seq<char>) -> bool {
    lacks(s, '[') && lacks(s, ']') && lacks(s, '\n')
}

proof fn lemma_lacks_concat(a: Seq<char>, b: Seq<char>, c: char)
    requires
        lacks(a, c),
        lacks(b, c),
    ensures
        lacks(a + b, c),
{
    assert forall|k: int| 0 <= k < (a + b).len() implies (a + b)[k] != c by {
        if k < a.len() {
            assert((a + b)[k] == a[k]);
        } else {
            assert((a + b)[k] == b[k - a.len()]);
        }
    }
}

proof fn lemma_joined_lacks(a: Seq<char>, b: Seq<char>, c: char)
    requires
        lacks(a, c),
        lacks(b, c),
        c != ',',
        c != ' ',
    ensures
        lacks(joined(a, b), c),
{
    reveal_strlit(", ");
    lemma_lacks_concat(a, ", "@, c);
    lemma_lacks_concat(a + ", "@, b, c);
}

proof fn lemma_decimal_lacks(n: nat, c: char)
    requires
        !is_digit(c),
    ensures
        lacks(decimal(n), c),
{
    lemma_decimal_digits(n);
    assert forall|k: int| 0 <= k < decimal(n).len() implies decimal(n)[k] != c by {
        assert(is_digit(decimal(n)[k]));
    }
}

proof fn lemma_signed_lacks(x: i32, c: char)
    requires
        !is_digit(c),
        c != '+',
        c != '-',
    ensures
        lacks(signed_text(x), c),
{
    reveal_strlit("+");
    reveal_strlit("-");
    if x >= 0 {
        lemma_decimal_lacks(x as nat, c);
        lemma_lacks_concat("+"@, decimal(x as nat), c);
    } else {
        lemma_decimal_lacks((-(x as int)) as nat, c);
        lemma_lacks_concat("-"@, decimal((-(x as int)) as nat), c);
    }
}

proof fn lemma_rank_lacks(a: i32, b: i32, c: char)
    requires
        !is_digit(c),
        c != 'r' && c != 'a' && c != 'n' && c != 'k' && c != ':' && c != ' ' && c != '/' && c != '+'
            && c != '-',
    ensures
        lacks(rank_text(a, b), c),
{
    reveal_strlit("rank: ");
    reveal_strlit("/");
    lemma_signed_lacks(a, c);
    lemma_signed_lacks(b, c);
    lemma_lacks_concat("rank: "@, signed_text(a), c);
    lemma_lacks_concat("rank: "@ + signed_text(a), "/"@, c);
    lemma_lacks_concat("rank: "@ + signed_text(a) + "/"@, signed_text(b), c);
}

proof fn lemma_stars_lacks(n: u8, c: char)
    requires
        !is_digit(c),
        c != 's' && c != 't' && c != 'a' && c != 'r' && c != ':' && c != ' ',
    ensures
        lacks(stars_text(n), c),
{
    reveal_strlit("stars: ");
    lemma_decimal_lacks(n as nat, c);
    lemma_lacks_concat("stars: "@, decimal(n as nat), c);
}

proof fn lemma_collapsed_lacks(c: char)
    requires
        c != 'c' && c != 'o' && c != 'l' && c != 'a' && c != 'p' && c != 's' && c != 'e' && c != 'd',
    ensures
        lacks(collapsed_word(), c),
{
    reveal_strlit("collapsed");
}

proof fn lemma_digits_end_block(s: Seq<char>, k: int, m: int)
    requires
        0 <= k <= m <= s.len(),
        forall|q: int| k <= q < m ==> is_digit(s[q]),
        m == s.len() || !in_digit_class(s[m]),
    ensures
        digits_end(s, k) == m,
    decreases m - k,
{
    if k < m {
        lemma_digits_end_block(s, k + 1, m);
    }
}

proof fn lemma_parse_signed(x: i32)
    ensures
        parse_i32(signed_text(x)) == Some(x as int),
{
    reveal_strlit("+");
    reveal_strlit("-");
    let s = signed_text(x);
    if x >= 0 {
        lemma_decimal_digits(x as nat);
        assert(s.drop_first() =~= decimal(x as nat));
        assert(s[0] == '+');
    } else {
        lemma_decimal_digits((-(x as int)) as nat);
        assert(s.drop_first() =~= decimal((-(x as int)) as nat));
        assert(s[0] == '-');
    }
    assert(s.len() >= 2);
    assert(!(s =~= seq!['+']) && !(s =~= seq!['-']));
}

proof fn lemma_parse_stars(n: u8)
    ensures
        parse_u8(decimal(n as nat)) == Some(n as int),
{
    let s = decimal(n as nat);
    lemma_decimal_digits(n as nat);
    assert(is_digit(s[0]));
    assert(s[0] != '+' && s[0] != '-');
    assert(!(s =~= seq!['+']) && !(s =~= seq!['-']));
}

/// A number written as `signed_text` and followed by what is no digit: its
/// end.
proof fn lemma_signed_number_end(s: Seq<char>, j: int, x: i32)
    requires
        0 <= j,
        j + signed_text(x).len() <= s.len(),
        s.subrange(j, j + signed_text(x).len()) == signed_text(x),
        j + signed_text(x).len() == s.len() || !in_digit_class(s[j + signed_text(x).len()]),
    ensures
        number_end(s, j, true) == Some(j + signed_text(x).len()),
{
    reveal_strlit("+");
    reveal_strlit("-");
    let t = signed_text(x);
    let d = if x >= 0 { decimal(x as nat) } else { decimal((-(x as int)) as nat) };
    lemma_decimal_digits(if x >= 0 { x as nat } else { (-(x as int)) as nat });
    assert(t =~= (if x >= 0 { "+"@ } else { "-"@ }) + d);
    assert(s[j] == t[0]);
    assert forall|q: int| j + 1 <= q < j + t.len() implies is_digit(s[q]) by {
        assert(s[q] == t[q - j]);
        assert(t[q - j] == d[q - j - 1]);
    }
    lemma_digits_end_block(s, j + 1, j + t.len());
}

/// What the format writes for a rank reads as that rank's two numbers.
proof fn lemma_rank_written(a: i32, b: i32, rest: Seq<char>)
    requires
        ends_item(rest),
    ensures
        first_rank(rank_text(a, b) + rest, 0) == Some((signed_text(a), signed_text(b))),
{
    reveal_strlit("rank: ");
    reveal_strlit("rank:");
    reveal_strlit("/");
    let ta = signed_text(a);
    let tb = signed_text(b);
    let s = rank_text(a, b) + rest;
    assert(s =~= "rank: "@ + ta + "/"@ + tb + rest);
    let e1: int = 6 + ta.len() as int;
    let e2: int = e1 + 1 + tb.len();
    assert(s.subrange(0, 5) =~= "rank:"@);
    assert(s[5] == ' ');
    lemma_signed_lacks(a, ' ');
    lemma_signed_lacks(b, ' ');
    lemma_decimal_digits(0);
    assert(ta.len() > 0 && tb.len() > 0) by {
        reveal_strlit("+");
        reveal_strlit("-");
    }
    assert(s[6] == ta[0]);
    assert(!is_ws(s[6])) by {
        reveal_strlit("+");
        reveal_strlit("-");
        assert(ta[0] == '+' || ta[0] == '-');
    }
    assert(skip_ws(s, 6) == 6);
    assert(skip_ws(s, 5) == 6);
    assert(s.subrange(6, e1) =~= ta);
    assert(s[e1] == '/');
    lemma_signed_number_end(s, 6, a);
    assert(s.subrange(e1 + 1, e2) =~= tb);
    if e2 < s.len() {
        assert(s[e2] == rest[0]);
    }
    lemma_signed_number_end(s, e1 + 1, b);
    assert(rank_at(s, 0) == Some((ta, tb)));
}

proof fn lemma_no_rank(s: Seq<char>, i: int)
    requires
        lacks(s, 'k'),
        0 <= i,
    ensures
        first_rank(s, i) is None,
    decreases s.len() - i,
{
    reveal_strlit("rank:");
    if i < s.len() {
        if text_at(s, i, "rank:"@) {
            assert(s.subrange(i, i + 5)[3] == s[i + 3]);
        }
        lemma_no_rank(s, i + 1);
    }
}

/// What the format writes for a star count, after a text without `s`,
/// reads as that count's number.
proof fn lemma_stars_written(pre: Seq<char>, n: u8, rest: Seq<char>, i: int)
    requires
        lacks(pre, 's'),
        ends_item(rest),
        0 <= i <= pre.len(),
    ensures
        first_stars(pre + stars_text(n) + rest, i) == Some(decimal(n as nat)),
    decreases pre.len() - i,
{
    reveal_strlit("stars: ");
    reveal_strlit("stars:");
    let d = decimal(n as nat);
    let s = pre + stars_text(n) + rest;
    assert(s =~= pre + "stars: "@ + d + rest);
    let p = pre.len() as int;
    if i < p {
        if text_at(s, i, "stars:"@) {
            assert(s.subrange(i, i + 6)[0] == s[i]);
            assert(s[i] == pre[i]);
        }
        lemma_stars_written(pre, n, rest, i + 1);
    } else {
        lemma_decimal_digits(n as nat);
        assert(s.subrange(p, p + 6) =~= "stars:"@);
        assert(s[p + 6] == ' ');
        assert(s[p + 7] == d[0]);
        assert(is_digit(d[0]));
        assert(!is_ws(s[p + 7]));
        assert(skip_ws(s, p + 7) == p + 7);
        assert(skip_ws(s, p + 6) == p + 7);
        let e = p + 7 + d.len();
        assert forall|q: int| p + 7 <= q < e implies is_digit(s[q]) by {
            assert(s[q] == d[q - p - 7]);
        }
        if e < s.len() {
            assert(s[e] == rest[0]);
        }
        lemma_digits_end_block(s, p + 7, e);
        assert(s.subrange(p + 7, e) =~= d);
        assert(stars_at(s, p) == Some(d));
    }
}

proof fn lemma_no_stars(s: Seq<char>, i: int)
    requires
        lacks(s, 't'),
        0 <= i,
    ensures
        first_stars(s, i) is None,
    decreases s.len() - i,
{
    reveal_strlit("stars:");
    if i < s.len() {
        if text_at(s, i, "stars:"@) {
            assert(s.subrange(i, i + 6)[1] == s[i + 1]);
        }
        lemma_no_stars(s, i + 1);
    }
}

proof fn lemma_no_collapsed(s: Seq<char>)
    requires
        lacks(s, 'l'),
    ensures
        !seq_contains(s, collapsed_word()),
{
    reveal_strlit("collapsed");
    if seq_contains(s, collapsed_word()) {
        let i = choose|i: int| 0 <= i <= s.len() - collapsed_word().len() && #[trigger] s.subrange(i, i + collapsed_word().len()) == collapsed_word();
        assert(s.subrange(i, i + 9)[2] == s[i + 2]);
    }
}

/// The metadata items of a node read back as its rank, stars and collapsed
/// state, and hold no bracket or line break.
#[verifier::rlimit(40)]
proof fn lemma_items(t: Tree)
    requires
        t.stars <= 5,
    ensures
        (match rank_of(metadata_items(t)) {
            Some((a, b)) => (a, b),
            None => (0i32, 0i32),
        }) == (t.rank_positive, t.rank_negative),
        (match stars_of(metadata_items(t)) {
            Some(s) => s,
            None => 0u8,
        }) == t.stars,
        seq_contains(metadata_items(t), collapsed_word()) == t.collapsed,
        inner_safe(metadata_items(t)),
        (metadata_items(t).len() == 0) == (t.rank_positive == 0 && t.rank_negative == 0 && t.stars == 0
            && !t.collapsed),
{
    reveal_strlit("rank: ");
    reveal_strlit("stars: ");
    reveal_strlit("collapsed");
    reveal_strlit(", ");
    let hr = t.rank_positive != 0 || t.rank_negative != 0;
    let hs = t.stars > 0;
    let hc = t.collapsed;
    let r = if hr { rank_text(t.rank_positive, t.rank_negative) } else { Seq::<char>::empty() };
    let st = if hs { stars_text(t.stars) } else { Seq::<char>::empty() };
    let c = if hc { collapsed_word() } else { Seq::<char>::empty() };
    let sep = ", "@;
    let items = metadata_items(t);
    assert(items == joined(joined(r, st), c));
    let t1 = if hs { sep + st } else { Seq::<char>::empty() };
    let t2 = if hc { sep + c } else { Seq::<char>::empty() };
    // characters
    assert forall|ch: char| ch == '[' || ch == ']' || ch == '\n' implies lacks(items, ch) by {
        if hr {
            lemma_rank_lacks(t.rank_positive, t.rank_negative, ch);
        }
        if hs {
            lemma_stars_lacks(t.stars, ch);
        }
        if hc {
            lemma_collapsed_lacks(ch);
        }
        lemma_joined_lacks(r, st, ch);
        lemma_joined_lacks(joined(r, st), c, ch);
    }
    // rank
    if hr {
        assert(items =~= r + (t1 + t2));
        lemma_rank_written(t.rank_positive, t.rank_negative, t1 + t2);
        lemma_parse_signed(t.rank_positive);
        lemma_parse_signed(t.rank_negative);
    } else {
        if hs {
            lemma_stars_lacks(t.stars, 'k');
        }
        if hc {
            lemma_collapsed_lacks('k');
        }
        lemma_joined_lacks(r, st, 'k');
        lemma_joined_lacks(joined(r, st), c, 'k');
        lemma_no_rank(items, 0);
    }
    // stars
    if hs {
        let pre = if hr { r + sep } else { Seq::<char>::empty() };
        if hr {
            lemma_rank_lacks(t.rank_positive, t.rank_negative, 's');
            lemma_lacks_concat(r, sep, 's');
        }
        assert(items =~= pre + stars_text(t.stars) + t2);
        lemma_stars_written(pre, t.stars, t2, 0);
        lemma_parse_stars(t.stars);
    } else {
        if hr {
            lemma_rank_lacks(t.rank_positive, t.rank_negative, 't');
        }
        if hc {
            lemma_collapsed_lacks('t');
        }
        lemma_joined_lacks(r, st, 't');
        lemma_joined_lacks(joined(r, st), c, 't');
        lemma_no_stars(items, 0);
    }
    // collapsed
    if hc {
        let x = joined(r, st);
        let pre = if x.len() > 0 { x + sep } else { Seq::<char>::empty() };
        assert(items =~= pre + c);
        assert(items.subrange(pre.len() as int, pre.len() as int + 9) =~= collapsed_word());
    } else {
        if hr {
            lemma_rank_lacks(t.rank_positive, t.rank_negative, 'l');
        }
        if hs {
            lemma_stars_lacks(t.stars, 'l');
        }
        lemma_joined_lacks(r, st, 'l');
        lemma_joined_lacks(joined(r, st), c, 'l');
        lemma_no_collapsed(items);
    }
}

proof fn lemma_symbol_split(t: Tree)
    requires
        writable_node(t),
    ensures
        symbol_split(symbol_prefix(t) + t.text) == (t.text, t.symbol),
        (symbol_prefix(t) + t.text).len() > 0,
        !is_ws((symbol_prefix(t) + t.text)[0]),
        !is_ws((symbol_prefix(t) + t.text).last()),
{
    let p = symbol_prefix(t);
    let u = p + t.text;
    lemma_trim_plain(t.text);
    match t.symbol {
        Some(x) => {
            assert(u[0] == x);
            assert(u.drop_first() =~= seq![' '] + t.text);
            let v = seq![' '] + t.text;
            assert(v[0] == ' ');
            assert(v.drop_first() =~= t.text);
            assert(trim_start(v) == trim_start(t.text));
            assert(trim(v) == t.text);
            assert(u.last() == t.text.last());
        },
        None => {
            assert(u =~= t.text);
        },
    }
}

spec fn content_reads_back(t: Tree) -> bool {
    &&& line_content(t).len() > 0
    &&& !is_ws(line_content(t)[0])
    &&& !is_ws(line_content(t).last())
    &&& forall|k: int| 0 <= k < line_content(t).len() ==> line_content(t)[k] != '\n'
    &&& !metadata_unreadable(line_content(t))
    &&& parsed_metadata(line_content(t)) == (t.text, meta_of(t))
}

proof fn lemma_prefix_text(t: Tree)
    requires
        writable_node(t),
    ensures
        lacks(symbol_prefix(t), '[') && lacks(symbol_prefix(t), ']') && lacks(symbol_prefix(t), '\n'),
        forall|k: int| 0 <= k < (symbol_prefix(t) + t.text).len() ==> (symbol_prefix(t) + t.text)[k] != '\n',
        trim(symbol_prefix(t) + t.text) == symbol_prefix(t) + t.text,
        trim(symbol_prefix(t) + t.text + " "@) == symbol_prefix(t) + t.text,
{
    let p = symbol_prefix(t);
    let u = p + t.text;
    lemma_symbol_split(t);
    lemma_trim_plain(u);
    assert forall|k: int| 0 <= k < u.len() implies u[k] != '\n' by {
        if k >= p.len() {
            assert(u[k] == t.text[k - p.len()]);
        }
    }
}

/// The content of a node without metadata.
#[verifier::rlimit(40)]
proof fn lemma_content_plain(t: Tree)
    requires
        writable_node(t),
        formatted_metadata(t).len() == 0,
    ensures
        content_reads_back(t),
{
    let text = t.text;
    let p = symbol_prefix(t);
    let u = p + text;
    let c = line_content(t);
    reveal(line_content);
    lemma_prefix_text(t);
    lemma_symbol_split(t);
    lemma_items(t);
    assert(c =~= u);
    assert(!has_brackets(c)) by {
        if first_index(text, '[') is None {
            assert(lacks(text, '['));
            lemma_lacks_concat(p, text, '[');
        } else {
            assert(first_index(text, ']') is None);
            assert(lacks(text, ']'));
            lemma_lacks_concat(p, text, ']');
        }
    }
    assert(parsed_metadata(c) == (text, NodeMetadata { symbol: t.symbol, ..no_metadata() }));
}

/// Where the brackets of a node's line with metadata stand.
#[verifier::rlimit(40)]
proof fn lemma_content_brackets(t: Tree)
    requires
        writable_node(t),
        formatted_metadata(t).len() > 0,
    ensures
        line_content(t) == symbol_prefix(t) + t.text + " "@ + "["@ + metadata_items(t) + "]"@,
        first_index(line_content(t), '[') == Some((symbol_prefix(t) + t.text).len() as int + 1),
        first_index(line_content(t), ']') == Some(line_content(t).len() as int - 1),
        forall|k: int| 0 <= k < line_content(t).len() ==> line_content(t)[k] != '\n',
        line_content(t).last() == ']',
        line_content(t)[0] == (symbol_prefix(t) + t.text)[0],
{
    reveal_strlit(" ");
    reveal_strlit("[");
    reveal_strlit("]");
    let text = t.text;
    let p = symbol_prefix(t);
    let u = p + text;
    let c = line_content(t);
    let items = metadata_items(t);
    reveal(line_content);
    lemma_prefix_text(t);
    lemma_items(t);
    let l = u.len() as int;
    assert(formatted_metadata(t) == "["@ + items + "]"@);
    assert(c =~= u + " "@ + "["@ + items + "]"@);
    assert forall|k: int| 0 <= k < c.len() implies c[k] != '\n' && (k != l + 1 ==> c[k] != '[')
        && (k != c.len() - 1 ==> c[k] != ']') by {
        if k < l {
            assert(c[k] == u[k]);
            if k >= p.len() {
                assert(u[k] == text[k - p.len()]);
            }
        } else if k == l {
            assert(c[k] == ' ');
        } else if k == l + 1 {
            assert(c[k] == '[');
        } else if k < c.len() - 1 {
            assert(c[k] == items[k - l - 2]);
        } else {
            assert(c[k] == ']');
        }
    }
    lemma_first_index_at(c, '[', l + 1);
    lemma_first_index_at(c, ']', c.len() - 1);
}

/// The parts that reading finds in the line of a node with metadata: the
/// text outside the brackets and what they hold.
#[verifier::rlimit(40)]
proof fn lemma_content_parts(t: Tree)
    requires
        writable_node(t),
        formatted_metadata(t).len() > 0,
    ensures
        ({
            let c = line_content(t);
            let u = symbol_prefix(t) + t.text;
            let bs = u.len() as int + 1;
            let be = c.len() - 1;
            &&& has_brackets(c)
            &&& first_index(c, '[') == Some(bs)
            &&& first_index(c, ']') == Some(be)
            &&& bs < be
            &&& c.subrange(bs + 1, be) == metadata_items(t)
            &&& trim(trim(c.subrange(0, bs)) + seq![' '] + trim(c.subrange(be + 1, c.len() as int))) == u
        }),
{
    reveal_strlit(" ");
    reveal_strlit("[");
    reveal_strlit("]");
    let u = symbol_prefix(t) + t.text;
    let items = metadata_items(t);
    lemma_content_brackets(t);
    lemma_prefix_text(t);
    lemma_clean_of(u, items);
    let c = line_content(t);
    assert(c.len() == u.len() + 3 + items.len());
}

proof fn lemma_clean_of(u: Seq<char>, items: Seq<char>)
    requires
        trim(u + " "@) == u,
    ensures
        ({
            let c = u + " "@ + "["@ + items + "]"@;
            &&& c.subrange(u.len() as int + 2, c.len() - 1) == items
            &&& trim(trim(c.subrange(0, u.len() as int + 1)) + seq![' '] + trim(
                c.subrange(c.len() as int, c.len() as int),
            )) == u
        }),
{
    reveal_strlit(" ");
    reveal_strlit("[");
    reveal_strlit("]");
    let c = u + " "@ + "["@ + items + "]"@;
    assert(c.subrange(u.len() as int + 2, c.len() - 1) =~= items);
    assert(c.subrange(0, u.len() as int + 1) =~= u + " "@);
    assert(c.subrange(c.len() as int, c.len() as int) =~= Seq::<char>::empty());
    assert(trim(Seq::<char>::empty()) == Seq::<char>::empty());
    assert(u + seq![' '] + Seq::<char>::empty() =~= u + " "@);
}

/// The content of a node with metadata.
#[verifier::rlimit(40)]
proof fn lemma_content_meta(t: Tree)
    requires
        writable_node(t),
        formatted_metadata(t).len() > 0,
    ensures
        content_reads_back(t),
{
    let u = symbol_prefix(t) + t.text;
    let c = line_content(t);
    lemma_content_parts(t);
    lemma_content_brackets(t);
    lemma_symbol_split(t);
    lemma_items(t);
    assert(c[0] == u[0]);
}

/// The content of a writable node's line: it starts and ends with no
/// whitespace, holds no line break, can be read, and reads back as the
/// node's text and metadata.
proof fn lemma_content(t: Tree)
    requires
        writable_node(t),
    ensures
        content_reads_back(t),
{
    if formatted_metadata(t).len() == 0 {
        lemma_content_plain(t);
    } else {
        lemma_content_meta(t);
    }
}

/// One node's line, as the format writes it after the indentation (its
/// symbol, its text, then a space and its `formatted_metadata` where it has
/// any), can be read and reads back as the node's text with its rank, stars,
/// symbol and collapsed state. This holds for a node whose text is plain
/// (without brackets where it has metadata), with at most five stars and no
/// symbol but a check mark or a cross.
pub proof fn law_metadata_read_after_write(t: Tree)
    requires
        plain_text(t.text),
        formatted_metadata(t).len() > 0 ==> bracket_free(t.text),
        t.stars <= 5,
        t.symbol matches Some(c) ==> is_symbol(c),
    ensures
        ({
            let meta = formatted_metadata(t);
            let line = symbol_prefix(t) + t.text + (if meta.len() == 0 { Seq::empty() } else { " "@ + meta });
            &&& !metadata_unreadable(line)
            &&& parsed_metadata(line) == (t.text, meta_of(t))
        }),
{
    let shown = Tree { hidden: false, ..t };
    lemma_content(shown);
    reveal(line_content);
    assert(formatted_metadata(shown) == formatted_metadata(t));
    assert(line_content(shown) == line_content(t));
}

/// The entry of the line that the format writes for a writable node.
proof fn lemma_entry_of_content(level: nat, t: Tree)
    requires
        writable_node(t),
    ensures
        entry_of(tabs(level) + line_content(t)) == (LineEntry { level, text: t.text, meta: meta_of(t) }),
        trim(tabs(level) + line_content(t)) == line_content(t),
        forall|m: int| 0 <= m < (tabs(level) + line_content(t)).len()
            ==> (tabs(level) + line_content(t))[m] != '\n',
{
    let c = line_content(t);
    lemma_content(t);
    lemma_leading_tabs(level, c);
    assert(trim_end(c) == c);
    assert forall|m: int| 0 <= m < (tabs(level) + c).len() implies (tabs(level) + c)[m] != '\n' by {
        if m < level {
            assert((tabs(level) + c)[m] == '\t');
        } else {
            assert((tabs(level) + c)[m] == c[m - level]);
        }
    }
}

proof fn lemma_node_line(t: Tree, level: nat)
    ensures
        node_line(t, level) == tabs(level) + line_content(t) + "\n"@,
{
    reveal(line_content);
    assert(node_line(t, level) =~= tabs(level) + line_content(t) + "\n"@);
}

/// The line of a writable node gives its entry, and can be read.
proof fn lemma_node_line_entries(t: Tree, level: nat, rest: Seq<char>)
    requires
        writable_node(t),
    ensures
        entries_from(node_line(t, level) + rest, 0)
            == seq![LineEntry { level, text: t.text, meta: meta_of(t) }] + entries_from(rest, 0),
        lines_readable(node_line(t, level) + rest, 0) == lines_readable(rest, 0),
{
    let line = tabs(level) + line_content(t);
    lemma_node_line(t, level);
    lemma_entry_of_content(level, t);
    lemma_content(t);
    lemma_entries_line(line, rest);
}

proof fn lemma_trim_plain(text: Seq<char>)
    requires
        text.len() > 0,
        !is_ws(text[0]),
        !is_ws(text.last()),
    ensures
        trim(text) == text,
        trim(text + " "@) == text,
{
    reveal_strlit(" ");
    assert(trim_start(text) == text);
    assert(trim_end(text) == text);
    let u = text + " "@;
    assert(u[0] == text[0]);
    assert(trim_start(u) == u);
    assert(u.last() == ' ');
    assert(u.drop_last() =~= text);
    assert(trim_end(u) == trim_end(text));
}

#[verifier::spinoff_prover]
#[verifier::rlimit(30)]
proof fn lemma_serialized_entries(t: Tree, level: nat, rest: Seq<char>)
    requires
        writable(t),
        level > 0 || t.children.len() > 0,
    ensures
        entries_from(serialized(t, level) + rest, 0) == line_entries(t, level) + entries_from(rest, 0),
        lines_readable(serialized(t, level) + rest, 0) == lines_readable(rest, 0),
    decreases t, 0int,
{
    let sub = serialized_from(t.children, level + 1, 0);
    assert(serialized(t, level) + rest =~= node_line(t, level) + (sub + rest));
    lemma_node_line_entries(t, level, sub + rest);
    lemma_serialized_from_entries(t.children, level + 1, 0, rest);
    let head = seq![LineEntry { level, text: t.text, meta: meta_of(t) }];
    let cs = line_entries_from(t.children, level + 1, 0);
    assert(line_entries(t, level) == head + cs);
    assert((head + cs) + entries_from(rest, 0) =~= head + (cs + entries_from(rest, 0)));
}

#[verifier::rlimit(40)]
proof fn lemma_serialized_from_entries(s: Seq<Tree>, level: nat, i: int, rest: Seq<char>)
    requires
        writable_from(s, i),
        level > 0,
        0 <= i,
    ensures
        entries_from(serialized_from(s, level, i) + rest, 0)
            == line_entries_from(s, level, i) + entries_from(rest, 0),
        lines_readable(serialized_from(s, level, i) + rest, 0) == lines_readable(rest, 0),
    decreases s, s.len() - i,
{
    if i < s.len() {
        let tail = serialized_from(s, level, i + 1) + rest;
        assert(serialized_from(s, level, i) + rest =~= serialized(s[i], level) + tail);
        lemma_serialized_entries(s[i], level, tail);
        lemma_serialized_from_entries(s, level, i + 1, rest);
        assert(line_entries_from(s, level, i) + entries_from(rest, 0)
            =~= line_entries(s[i], level) + (line_entries_from(s, level, i + 1) + entries_from(rest, 0)));
    } else {
        assert(serialized_from(s, level, i) + rest =~= rest);
        assert(line_entries_from(s, level, i) + entries_from(rest, 0) =~= entries_from(rest, 0));
    }
}

/// Every entry of a subtree written at depth `level` is at least that deep,
/// its first exactly so.
proof fn lemma_entry_levels(t: Tree, level: nat)
    ensures
        line_entries(t, level).len() > 0,
        line_entries(t, level)[0].level == level,
        forall|k: int| 0 <= k < line_entries(t, level).len() ==> #[trigger] line_entries(t, level)[k].level >= level,
    decreases t, 0int,
{
    lemma_entry_levels_from(t.children, level + 1, 0);
}

proof fn lemma_entry_levels_from(s: Seq<Tree>, level: nat, i: int)
    requires
        0 <= i,
    ensures
        forall|k: int| 0 <= k < line_entries_from(s, level, i).len()
            ==> #[trigger] line_entries_from(s, level, i)[k].level >= level,
        line_entries_from(s, level, i).len() > 0 ==> line_entries_from(s, level, i)[0].level == level,
        line_entries_from(s, level, i).len() == 0 <==> i >= s.len(),
    decreases s, s.len() - i,
{
    if i < s.len() {
        lemma_entry_levels(s[i], level);
        lemma_entry_levels_from(s, level, i + 1);
        let a = line_entries(s[i], level);
        let b = line_entries_from(s, level, i + 1);
        assert forall|k: int| 0 <= k < (a + b).len() implies #[trigger] (a + b)[k].level >= level by {
            if k < a.len() {
                assert((a + b)[k] == a[k]);
            } else {
                assert((a + b)[k] == b[k - a.len()]);
            }
        }
    }
}

proof fn lemma_subtree_end_exact(es: Seq<LineEntry>, lvl: nat, a: int, b: int)
    requires
        0 <= a <= b <= es.len(),
        forall|k: int| a <= k < b ==> es[k].level > lvl,
        b == es.len() || es[b].level <= lvl,
    ensures
        subtree_end(es, lvl, a) == b,
    decreases b - a,
{
    if a < b {
        lemma_subtree_end_exact(es, lvl, a + 1, b);
    }
}

/// The entries of a writable subtree, found at `j`, build that subtree.
proof fn lemma_built_node(es: Seq<LineEntry>, j: int, t: Tree, level: nat)
    requires
        writable(t),
        0 <= j,
        j + line_entries(t, level).len() <= es.len(),
        es.subrange(j, j + line_entries(t, level).len()) == line_entries(t, level),
        j + line_entries(t, level).len() == es.len() || es[j + line_entries(t, level).len()].level <= level,
    ensures
        built_node(es, j) == t.erase_ids(),
        subtree_end(es, level, j + 1) == j + line_entries(t, level).len(),
    decreases t, 0int,
{
    let n = line_entries(t, level).len();
    let cs = line_entries_from(t.children, level + 1, 0);
    assert(es[j] == es.subrange(j, j + n)[0]);
    lemma_entry_levels_from(t.children, level + 1, 0);
    assert(line_entries(t, level) == seq![es[j]] + cs);
    assert forall|k: int| 0 <= k < cs.len() implies es.subrange(j + 1, j + n)[k] == cs[k] by {
        assert(es.subrange(j, j + n)[k + 1] == es[j + 1 + k]);
        assert((seq![es[j]] + cs)[k + 1] == cs[k]);
    }
    assert(es.subrange(j + 1, j + n) =~= cs);
    assert forall|k: int| j + 1 <= k < j + n implies es[k].level > level by {
        assert(es[k] == cs[k - j - 1]);
    }
    lemma_subtree_end_exact(es, level, j + 1, j + n);
    lemma_built_forest(es, j + 1, j + n, t.children, 0, level + 1);
    assert(built_node(es, j) =~= t.erase_ids());
}

/// The entries of writable sibling subtrees, found from `j` up to `end`, build
/// those subtrees.
#[verifier::spinoff_prover]
#[verifier::rlimit(30)]
proof fn lemma_built_forest(es: Seq<LineEntry>, j: int, end: int, s: Seq<Tree>, i: int, level: nat)
    requires
        writable_from(s, i),
        0 <= i,
        0 <= j <= end <= es.len(),
        es.subrange(j, end) == line_entries_from(s, level, i),
        end == es.len() || es[end].level < level,
    ensures
        built_forest(es, j, end) == erase_ids_from(s, i),
    decreases s, s.len() - i,
{
    lemma_entry_levels_from(s, level, i);
    if i < s.len() {
        let a = line_entries(s[i], level);
        let b = line_entries_from(s, level, i + 1);
        let m = j + a.len();
        lemma_entry_levels(s[i], level);
        lemma_entry_levels_from(s, level, i + 1);
        assert(es.subrange(j, m) =~= a);
        assert(line_entries_from(s, level, i) == a + b);
        assert forall|k: int| 0 <= k < b.len() implies es.subrange(m, end)[k] == b[k] by {
            assert(es.subrange(j, end)[a.len() + k] == es[m + k]);
            assert((a + b)[a.len() + k] == b[k]);
        }
        assert(es.subrange(m, end) =~= b);
        if m < end {
            assert(es[m] == b[0]);
        }
        lemma_built_node(es, j, s[i], level);
        assert(es[j] == a[0]);
        lemma_built_forest(es, m, end, s, i + 1, level);
        assert(built_forest(es, j, end) =~= seq![s[i].erase_ids()] + erase_ids_from(s, i + 1));
    } else {
        assert(j == end);
    }
}

proof fn lemma_last_top_first(es: Seq<LineEntry>, n: int)
    requires
        0 < n <= es.len(),
        es[0].level == 0,
        forall|k: int| 1 <= k < n ==> es[k].level != 0,
    ensures
        last_top(es, n) == Some(0int),
    decreases n,
{
    if n > 1 {
        lemma_last_top_first(es, n - 1);
    }
}

/// What the format writes of a mind map reads back as the same map, the
/// identifiers of its nodes aside, and every line of it can be read: each
/// node's text, rank, stars, symbol and collapsed state come back in their
/// place in the tree. This holds for a map whose texts are plain (without
/// brackets where the node has metadata), whose nodes have at most five
/// stars, no symbol but a check mark or a cross and are shown, and whose
/// top node has children (a map of one node is written as nothing).
pub proof fn law_read_after_write(t: Tree, stem: Seq<char>)
    requires
        writable(t),
        t.children.len() > 0,
    ensures
        lines_readable(serialized(t, 0), 0),
        parsed_tree(serialized(t, 0), stem) == t.erase_ids(),
{
    let empty = Seq::<char>::empty();
    lemma_serialized_entries(t, 0, empty);
    assert(serialized(t, 0) + empty =~= serialized(t, 0));
    let es = line_entries(t, 0);
    assert(es + entries_from(empty, 0) =~= es);
    assert(entries_from(serialized(t, 0), 0) == es);
    lemma_entry_levels(t, 0);
    lemma_entry_levels_from(t.children, 1, 0);
    let cs = line_entries_from(t.children, 1, 0);
    assert forall|k: int| 1 <= k < es.len() implies es[k].level != 0 by {
        assert(es[k] == cs[k - 1]);
    }
    lemma_last_top_first(es, es.len() as int);
    assert(es.subrange(0, es.len() as int) =~= es);
    lemma_built_node(es, 0, t, 0);
}

} // verus!
