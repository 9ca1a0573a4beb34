//! Text helpers: strings as sequences of characters, whitespace trimming,
//! case-insensitive matching, and decimal numbers.
use vstd::prelude::*;

verus! {

/// The characters of a string, in order.
pub fn chars_of(s: &str) -> (v: Vec<char>)
    ensures
        v@ == s@,
{
    let mut v: Vec<char> = Vec::new();
    for c in it: s.chars()
        invariant
            v@ == it.history(),
    {
        v.push(c);
    }
    v
}

/// Appends one character.
///
/// Calls `String::push`, which appends the character at the end of the
/// string; that is what the contract states.
#[verifier::external_body]
pub(crate) fn push_char(s: &mut String, c: char)
    ensures
        final(s)@ == old(s)@.push(c),
{
    s.push(c);
}

/// The UTF-8 bytes of a text.
pub open spec fn utf8(s: Seq<char>) -> Seq<u8> {
    vstd::utf8::encode_utf8(s)
}

/// The text with `c` inserted at byte position `idx`.
pub open spec fn inserted_at(s: Seq<char>, idx: int, c: char) -> Seq<char> {
    let b = utf8(s);
    vstd::utf8::decode_utf8(b.subrange(0, idx) + utf8(seq![c]) + b.subrange(idx, b.len() as int))
}

/// The text without the character that starts at byte position `idx`.
pub open spec fn removed_at(s: Seq<char>, idx: int) -> Seq<char> {
    let b = utf8(s);
    vstd::utf8::decode_utf8(
        b.subrange(0, idx) + vstd::utf8::pop_first_scalar(b.subrange(idx, b.len() as int)),
    )
}

/// Whether byte position `idx` of the text is the start of a character or
/// its end.
pub open spec fn char_boundary(s: Seq<char>, idx: int) -> bool {
    vstd::utf8::is_char_boundary(utf8(s), idx)
}

/// The length of a text in bytes: that of its UTF-8 encoding.
pub fn byte_len(s: &str) -> (n: usize)
    ensures
        n as int == utf8(s@).len(),
{
    s.as_bytes().len()
}

/// Inserts a character at a byte position.
///
/// Calls `String::insert`, which panics unless the position is a character
/// boundary (the end included); the contract excludes that and states that
/// the character's bytes are put at the position.
#[verifier::external_body]
pub(crate) fn string_insert(s: &mut String, idx: usize, c: char)
    requires
        char_boundary(old(s)@, idx as int),
    ensures
        final(s)@ == inserted_at(old(s)@, idx as int, c),
{
    s.insert(idx, c);
}

/// Removes the character that starts at a byte position and returns it.
///
/// Calls `String::remove`, which panics unless the position is a character
/// boundary before the end; the contract excludes that and states that the
/// bytes of that one character are taken out, and which character it is.
#[verifier::external_body]
pub(crate) fn string_remove(s: &mut String, idx: usize) -> (c: char)
    requires
        idx < utf8(old(s)@).len(),
        char_boundary(old(s)@, idx as int),
    ensures
        final(s)@ == removed_at(old(s)@, idx as int),
        c == vstd::utf8::decode_first_scalar(
            utf8(old(s)@).subrange(idx as int, utf8(old(s)@).len() as int),
        ) as char,
{
    s.remove(idx)
}

/// Removes the last character and returns it.
///
/// Calls `String::pop`, which returns `None` on an empty string and else
/// takes the last character off and returns it: that is what the contract
/// states.
#[verifier::external_body]
pub(crate) fn string_pop(s: &mut String) -> (r: Option<char>)
    ensures
        match r {
            Some(c) => old(s)@.len() > 0 && c == old(s)@.last() && final(s)@ == old(s)@.drop_last(),
            None => old(s)@.len() == 0 && final(s)@ == old(s)@,
        },
{
    s.pop()
}

/// The string made of the given characters.
pub fn string_of(v: &Vec<char>) -> (s: String)
    ensures
        s@ == v@,
{
    let mut s = String::new();
    let n = v.len();
    let mut i: usize = 0;
    while i < n
        invariant
            n == v@.len(),
            i <= n,
            s@ == v@.subrange(0, i as int),
        decreases n - i,
    {
        push_char(&mut s, v[i]);
        i += 1;
        proof {
            assert(s@ =~= v@.subrange(0, i as int));
        }
    }
    proof {
        assert(v@.subrange(0, n as int) =~= v@);
    }
    s
}

/// Appends the given characters.
pub fn push_chars(s: &mut String, v: &Vec<char>)
    ensures
        final(s)@ == old(s)@ + v@,
{
    let n = v.len();
    let mut i: usize = 0;
    while i < n
        invariant
            n == v@.len(),
            i <= n,
            s@ == old(s)@ + v@.subrange(0, i as int),
        decreases n - i,
    {
        push_char(s, v[i]);
        i += 1;
        proof {
            assert(s@ =~= old(s)@ + v@.subrange(0, i as int));
        }
    }
    proof {
        assert(v@.subrange(0, n as int) =~= v@);
    }
}

/// Appends a string.
pub fn push_str(s: &mut String, t: &str)
    ensures
        final(s)@ == old(s)@ + t@,
{
    let v = chars_of(t);
    push_chars(s, &v);
}

/// The characters that `char::is_whitespace` accepts: those with the
/// Unicode `White_Space` property.
pub open spec fn is_ws(c: char) -> bool {
    let u = c as u32;
    (0x9 <= u <= 0xd) || u == 0x20 || u == 0x85 || u == 0xa0 || u == 0x1680
        || (0x2000 <= u <= 0x200a) || u == 0x2028 || u == 0x2029 || u == 0x202f
        || u == 0x205f || u == 0x3000
}

pub fn is_whitespace(c: char) -> (b: bool)
    ensures
        b == is_ws(c),
{
    let u = c as u32;
    (0x9 <= u && u <= 0xd) || u == 0x20 || u == 0x85 || u == 0xa0 || u == 0x1680
        || (0x2000 <= u && u <= 0x200a) || u == 0x2028 || u == 0x2029 || u == 0x202f
        || u == 0x205f || u == 0x3000
}

/// `s` without its leading whitespace.
pub open spec fn trim_start(s: Seq<char>) -> Seq<char>
    decreases s.len(),
{
    if s.len() > 0 && is_ws(s[0]) {
        trim_start(s.drop_first())
    } else {
        s
    }
}

/// `s` without its trailing whitespace.
pub open spec fn trim_end(s: Seq<char>) -> Seq<char>
    decreases s.len(),
{
    if s.len() > 0 && is_ws(s.last()) {
        trim_end(s.drop_last())
    } else {
        s
    }
}

/// `s` without leading and trailing whitespace, as `str::trim` gives it.
pub open spec fn trim(s: Seq<char>) -> Seq<char> {
    trim_end(trim_start(s))
}

pub proof fn lemma_trim_end_prefix(s: Seq<char>)
    ensures
        trim_end(s).len() <= s.len(),
        trim_end(s) == s.subrange(0, trim_end(s).len() as int),
        trim_end(s).len() == 0 || !is_ws(trim_end(s).last()),
    decreases s.len(),
{
    if s.len() > 0 && is_ws(s.last()) {
        lemma_trim_end_prefix(s.drop_last());
        assert(s.drop_last().subrange(0, trim_end(s).len() as int) =~= s.subrange(0, trim_end(s).len() as int));
    } else {
        assert(s.subrange(0, s.len() as int) =~= s);
    }
}

/// The characters of `v` without leading and trailing whitespace.
pub fn trim_chars(v: &Vec<char>) -> (r: Vec<char>)
    ensures
        r@ == trim(v@),
{
    let n = v.len();
    let mut i: usize = 0;
    proof {
        assert(v@.subrange(0, n as int) =~= v@);
    }
    while i < n && is_whitespace(v[i])
        invariant
            n == v@.len(),
            i <= n,
            trim_start(v@) == trim_start(v@.subrange(i as int, n as int)),
        decreases n - i,
    {
        proof {
            assert(v@.subrange(i as int, n as int).drop_first() =~= v@.subrange(i + 1, n as int));
        }
        i += 1;
    }
    let mut j: usize = n;
    while j > i && is_whitespace(v[j - 1])
        invariant
            n == v@.len(),
            i <= j <= n,
            trim_start(v@) == v@.subrange(i as int, n as int),
            trim(v@) == trim_end(v@.subrange(i as int, j as int)),
        decreases j - i,
    {
        proof {
            assert(v@.subrange(i as int, j as int).drop_last() =~= v@.subrange(i as int, j - 1));
        }
        j -= 1;
    }
    let mut r: Vec<char> = Vec::new();
    let mut k: usize = i;
    while k < j
        invariant
            n == v@.len(),
            i <= k <= j <= n,
            r@ == v@.subrange(i as int, k as int),
        decreases j - k,
    {
        r.push(v[k]);
        k += 1;
        proof {
            assert(r@ =~= v@.subrange(i as int, k as int));
        }
    }
    r
}

/// Lower-case conversion of a text, as `str::to_lowercase` computes it.
pub uninterp spec fn spec_to_lowercase(s: Seq<char>) -> Seq<char>;

/// Calls `str::to_lowercase`: the result is named `spec_to_lowercase` of
/// the argument (Unicode lower-case mapping, a function of the text alone).
#[verifier::external_body]
pub(crate) fn to_lowercase(s: &str) -> (r: String)
    ensures
        r@ == spec_to_lowercase(s@),
{
    s.to_lowercase()
}

/// Whether `needle` occurs as a contiguous part of `hay`.
pub open spec fn seq_contains(hay: Seq<char>, needle: Seq<char>) -> bool {
    exists|i: int| 0 <= i <= hay.len() - needle.len() && #[trigger] hay.subrange(i, i + needle.len()) == needle
}

/// Whether `needle` occurs at position `i` of `hay`.
pub fn occurs_at(hay: &Vec<char>, needle: &Vec<char>, i: usize) -> (b: bool)
    requires
        i + needle@.len() <= hay@.len(),
    ensures
        b == (hay@.subrange(i as int, i + needle@.len()) == needle@),
{
    let m = needle.len();
    let mut k: usize = 0;
    while k < m
        invariant
            m == needle@.len(),
            i + m <= hay.len(),
            k <= m,
            forall|t: int| 0 <= t < k ==> hay@[i + t] == needle@[t],
        decreases m - k,
    {
        if hay[i + k] != needle[k] {
            proof {
                assert(hay@.subrange(i as int, i + m)[k as int] != needle@[k as int]);
            }
            return false;
        }
        k += 1;
    }
    proof {
        assert(hay@.subrange(i as int, i + m) =~= needle@);
    }
    true
}

/// Whether `needle` occurs in `hay`, as `str::contains` with a string
/// pattern answers it.
pub fn contains_chars(hay: &Vec<char>, needle: &Vec<char>) -> (b: bool)
    ensures
        b == seq_contains(hay@, needle@),
{
    let n = hay.len();
    let m = needle.len();
    if m > n {
        return false;
    }
    let mut i: usize = 0;
    loop
        invariant
            n == hay@.len(),
            m == needle@.len(),
            m <= n,
            i <= n - m,
            forall|t: int| 0 <= t < i ==> #[trigger] hay@.subrange(t, t + m) != needle@,
        decreases n - m - i,
    {
        if occurs_at(hay, needle, i) {
            return true;
        }
        if i == n - m {
            return false;
        }
        i += 1;
    }
}

/// The decimal digit character of `d` (`0` to `9`).
pub open spec fn digit_char(d: nat) -> char {
    ((48 + d) as u32) as char
}

/// The decimal representation of `n`, without sign or leading zeros.
pub open spec fn decimal(n: nat) -> Seq<char>
    decreases n,
{
    if n < 10 {
        seq![digit_char(n)]
    } else {
        decimal(n / 10).push(digit_char(n % 10))
    }
}

fn digit_of(d: u64) -> (c: char)
    requires
        d < 10,
    ensures
        c == digit_char(d as nat),
{
    let u: u8 = 48u8 + (d as u8);
    u as char
}

/// The decimal digits of `n`.
pub fn decimal_chars(n: u64) -> (v: Vec<char>)
    ensures
        v@ == decimal(n as nat),
{
    let mut rev: Vec<char> = Vec::new();
    let mut m: u64 = n;
    while m >= 10
        invariant
            decimal(n as nat) == decimal(m as nat) + rev@.reverse(),
        decreases m,
    {
        let d = m % 10;
        let c = digit_of(d);
        proof {
            assert(decimal(m as nat) == decimal((m / 10) as nat).push(digit_char((m % 10) as nat)));
            assert(decimal((m / 10) as nat) + rev@.push(c).reverse()
                =~= decimal((m / 10) as nat).push(c) + rev@.reverse());
        }
        rev.push(c);
        m = m / 10;
    }
    let c = digit_of(m);
    proof {
        assert(decimal(m as nat) == seq![c]);
        assert(rev@.push(c).reverse() =~= seq![c] + rev@.reverse());
    }
    rev.push(c);
    let k = rev.len();
    let mut v: Vec<char> = Vec::new();
    let mut i: usize = k;
    while i > 0
        invariant
            k == rev@.len(),
            i <= k,
            v@ == rev@.subrange(i as int, k as int).reverse(),
        decreases i,
    {
        i -= 1;
        v.push(rev[i]);
        proof {
            assert(v@ =~= rev@.subrange(i as int, k as int).reverse());
        }
    }
    proof {
        assert(rev@.subrange(0, k as int) =~= rev@);
    }
    v
}

/// The first position of `c` in `s`.
pub open spec fn first_index(s: Seq<char>, c: char) -> Option<int> {
    if exists|i: int| 0 <= i < s.len() && s[i] == c {
        Some(choose|i: int| 0 <= i < s.len() && s[i] == c && forall|j: int| 0 <= j < i ==> s[j] != c)
    } else {
        None
    }
}

/// The first position of `c` in `v`, as `str::find` with a character
/// pattern gives it (counted in characters).
pub fn find_char(v: &Vec<char>, c: char) -> (r: Option<usize>)
    ensures
        match r {
            Some(i) => first_index(v@, c) == Some(i as int),
            None => first_index(v@, c) is None,
        },
        r matches Some(i) ==> i < v@.len() && v@[i as int] == c,
{
    let n = v.len();
    let mut i: usize = 0;
    while i < n
        invariant
            n == v@.len(),
            i <= n,
            forall|j: int| 0 <= j < i ==> v@[j] != c,
        decreases n - i,
    {
        if v[i] == c {
            proof {
                let k = choose|k: int| 0 <= k < v@.len() && v@[k] == c && forall|j: int| 0 <= j < k ==> v@[j] != c;
                assert(0 <= i < v@.len() && v@[i as int] == c && forall|j: int| 0 <= j < i ==> v@[j] != c);
                if k < i {
                } else if k > i {
                    assert(v@[i as int] != c);
                }
            }
            return Some(i);
        }
        i += 1;
    }
    None
}

/// The characters of `v` from position `a` up to, not including, `b`.
pub fn sub_chars(v: &Vec<char>, a: usize, b: usize) -> (r: Vec<char>)
    requires
        a <= b <= v@.len(),
    ensures
        r@ == v@.subrange(a as int, b as int),
{
    let mut r: Vec<char> = Vec::new();
    let mut k: usize = a;
    while k < b
        invariant
            a <= k <= b <= v@.len(),
            r@ == v@.subrange(a as int, k as int),
        decreases b - k,
    {
        r.push(v[k]);
        k += 1;
        proof {
            assert(r@ =~= v@.subrange(a as int, k as int));
        }
    }
    r
}

/// Whether `c` is an ASCII decimal digit.
pub open spec fn is_digit(c: char) -> bool {
    48 <= (c as u32) <= 57
}

/// The value of a string of ASCII decimal digits.
pub open spec fn digits_value(s: Seq<char>) -> nat
    decreases s.len(),
{
    if s.len() == 0 {
        0
    } else {
        digits_value(s.drop_last()) * 10 + ((s.last() as u32) - 48) as nat
    }
}

pub open spec fn all_digits(s: Seq<char>) -> bool {
    forall|i: int| 0 <= i < s.len() ==> is_digit(#[trigger] s[i])
}

/// The integer that `str::parse` gives for `s` in a primitive integer type
/// whose range is `min..=max` (signed or not), or `None` where it gives an
/// error: an optional `+` (or `-` for a signed type), then one or more
/// ASCII digits, with the value in range.
pub open spec fn parse_int(s: Seq<char>, min: int, max: int, signed: bool) -> Option<int> {
    if s.len() == 0 || s =~= seq!['+'] || s =~= seq!['-'] {
        None
    } else {
        let neg = signed && s[0] == '-';
        let digits = if s[0] == '+' || neg { s.drop_first() } else { s };
        let v: int = if neg { -(digits_value(digits) as int) } else { digits_value(digits) as int };
        if all_digits(digits) && min <= v <= max {
            Some(v)
        } else {
            None
        }
    }
}

/// `str::parse::<i32>`.
pub open spec fn parse_i32(s: Seq<char>) -> Option<int> {
    parse_int(s, i32::MIN as int, i32::MAX as int, true)
}

/// `str::parse::<u8>`.
pub open spec fn parse_u8(s: Seq<char>) -> Option<int> {
    parse_int(s, 0, 255, false)
}

/// The decimal representation of `n` is a non-empty string of digits whose
/// value is `n`.
pub proof fn lemma_decimal_digits(n: nat)
    ensures
        decimal(n).len() > 0,
        all_digits(decimal(n)),
        digits_value(decimal(n)) == n,
    decreases n,
{
    if n >= 10 {
        lemma_decimal_digits(n / 10);
        let d = (n % 10) as nat;
        let s = decimal(n);
        assert(digit_char(d) as u32 == 48 + d);
        assert(s.drop_last() =~= decimal(n / 10));
        assert forall|i: int| 0 <= i < s.len() implies is_digit(#[trigger] s[i]) by {
            if i < s.len() - 1 {
                assert(s[i] == decimal(n / 10)[i]);
            }
        }
        assert(s.last() == digit_char(d));
        assert(digits_value(s) == digits_value(decimal(n / 10)) * 10 + d);
        assert((n / 10) * 10 + n % 10 == n) by (nonlinear_arith);
    } else {
        assert(digit_char(n) as u32 == 48 + n);
        let s = decimal(n);
        assert(s.drop_last() =~= Seq::<char>::empty());
        assert(digits_value(s.drop_last()) == 0);
        assert(s.last() == digit_char(n));
        assert(digits_value(s) == digits_value(s.drop_last()) * 10 + ((s.last() as u32) - 48) as nat);
    }
}

proof fn lemma_digits_value_prefix(s: Seq<char>, k: int)
    requires
        0 <= k <= s.len(),
        all_digits(s),
    ensures
        digits_value(s.subrange(0, k)) <= digits_value(s),
    decreases s.len() - k,
{
    if k < s.len() {
        lemma_digits_value_prefix(s, k + 1);
        let p = s.subrange(0, k + 1);
        assert(p.drop_last() =~= s.subrange(0, k));
        assert(is_digit(s[k]));
    } else {
        assert(s.subrange(0, k) =~= s);
    }
}

/// Parses `s` as `str::parse` does for an integer type whose range is
/// `min..=max`.
pub fn parse_int_chars(s: &Vec<char>, min: i64, max: i64, signed: bool) -> (r: Option<i64>)
    requires
        -0x8000_0000 <= min <= 0,
        0 <= max < 0x8000_0000,
    ensures
        match r {
            Some(v) => parse_int(s@, min as int, max as int, signed) == Some(v as int),
            None => parse_int(s@, min as int, max as int, signed) is None,
        },
{
    let n = s.len();
    if n == 0 {
        return None;
    }
    if n == 1 && (s[0] == '+' || s[0] == '-') {
        proof {
            if s[0] == '+' {
                assert(s@ =~= seq!['+']);
            } else {
                assert(s@ =~= seq!['-']);
            }
        }
        return None;
    }
    proof {
        assert(!(s@ =~= seq!['+'])) by {
            if n == 1 {
                assert(s@[0] != '+');
            } else {
                assert(s@.len() != 1);
            }
        };
        assert(!(s@ =~= seq!['-'])) by {
            if n == 1 {
                assert(s@[0] != '-');
            } else {
                assert(s@.len() != 1);
            }
        };
    }
    let neg = signed && s[0] == '-';
    let start: usize = if s[0] == '+' || neg { 1 } else { 0 };
    let ghost digits = if s@[0] == '+' || neg { s@.drop_first() } else { s@ };
    proof {
        assert(digits =~= s@.subrange(start as int, n as int));
    }
    let mut acc: u64 = 0;
    let mut i: usize = start;
    while i < n
        invariant
            n == s@.len(),
            start <= i <= n,
            digits == s@.subrange(start as int, n as int),
            -0x8000_0000 <= min <= 0,
            0 <= max < 0x8000_0000,
            n > 0,
            neg == (signed && s@[0] == '-'),
            digits == (if s@[0] == '+' || neg { s@.drop_first() } else { s@ }),
            !(s@ =~= seq!['+']),
            !(s@ =~= seq!['-']),
            acc == digits_value(s@.subrange(start as int, i as int)),
            acc <= 0x8000_0000,
            forall|t: int| start <= t < i ==> is_digit(s@[t]),
        decreases n - i,
    {
        let c = s[i];
        let u = c as u32;
        if u < 48 || u > 57 {
            proof {
                assert(!is_digit(digits[i - start]));
            }
            return None;
        }
        proof {
            let p = s@.subrange(start as int, i + 1);
            assert(p.drop_last() =~= s@.subrange(start as int, i as int));
        }
        let next: u64 = acc * 10 + (u - 48) as u64;
        proof {
            let p = s@.subrange(start as int, i + 1);
            assert(p.last() == c);
            assert(digits_value(p) == digits_value(p.drop_last()) * 10 + ((p.last() as u32) - 48) as nat);
            assert(digits_value(p) == next);
        }
        if next > 0x8000_0000 {
            proof {
                if all_digits(digits) {
                    assert(s@.subrange(start as int, i + 1) =~= digits.subrange(0, i + 1 - start));
                    lemma_digits_value_prefix(digits, i + 1 - start);
                    assert(digits_value(digits) > 0x8000_0000);
                }
                assert(parse_int(s@, min as int, max as int, signed) is None);
            }
            return None;
        }
        acc = next;
        i += 1;
    }
    proof {
        assert(s@.subrange(start as int, n as int) =~= digits);
        assert(all_digits(digits));
    }
    let v: i64 = if neg { -(acc as i64) } else { acc as i64 };
    if min <= v && v <= max {
        Some(v)
    } else {
        None
    }
}

} // verus!
