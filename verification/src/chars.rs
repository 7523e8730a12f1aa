//! Text by character: character classes, trimming, joining, and the small
//! conversions that names and values go through.

use vstd::prelude::*;
use vstd::string::*;

use crate::text::{
    find_from, lemma_ascii_text, lemma_find_from, lemma_utf8_concat, lemma_utf8_len, occurs_at,
    occurs_in, rfind_from, utf8,
};

verus! {

/// `String::push` appends the given character to the end of the text.
pub assume_specification[ String::push ](s: &mut String, c: char)
    ensures
        final(s)@ == old(s)@.push(c),
;

// ---------------------------------------------------------------------------
// Character classes
// ---------------------------------------------------------------------------

/// The Unicode property White_Space.
#[verifier::allow_in_spec]
pub fn is_space(c: char) -> bool
    returns
        ('\u{9}' <= c && c <= '\u{d}') || c == ' ' || c == '\u{85}' || c == '\u{a0}' || c
            == '\u{1680}' || ('\u{2000}' <= c && c <= '\u{200a}') || c == '\u{2028}' || c
            == '\u{2029}' || c == '\u{202f}' || c == '\u{205f}' || c == '\u{3000}',
{
    ('\u{9}' <= c && c <= '\u{d}') || c == ' ' || c == '\u{85}' || c == '\u{a0}' || c == '\u{1680}'
        || ('\u{2000}' <= c && c <= '\u{200a}') || c == '\u{2028}' || c == '\u{2029}' || c
        == '\u{202f}' || c == '\u{205f}' || c == '\u{3000}'
}

#[verifier::allow_in_spec]
pub fn is_digit(c: char) -> bool
    returns
        '0' <= c && c <= '9',
{
    '0' <= c && c <= '9'
}

#[verifier::allow_in_spec]
pub fn is_upper(c: char) -> bool
    returns
        'A' <= c && c <= 'Z',
{
    'A' <= c && c <= 'Z'
}

#[verifier::allow_in_spec]
pub fn is_lower(c: char) -> bool
    returns
        'a' <= c && c <= 'z',
{
    'a' <= c && c <= 'z'
}

#[verifier::allow_in_spec]
pub fn is_alnum(c: char) -> bool
    returns
        is_digit(c) || is_upper(c) || is_lower(c),
{
    is_digit(c) || is_upper(c) || is_lower(c)
}

/// A character that an identifier can hold.
#[verifier::allow_in_spec]
pub fn is_word_char(c: char) -> bool
    returns
        is_alnum(c) || c == '_',
{
    is_alnum(c) || c == '_'
}

#[verifier::allow_in_spec]
pub fn is_hex_digit(c: char) -> bool
    returns
        is_digit(c) || ('a' <= c && c <= 'f') || ('A' <= c && c <= 'F'),
{
    is_digit(c) || ('a' <= c && c <= 'f') || ('A' <= c && c <= 'F')
}

#[verifier::allow_in_spec]
pub fn is_ascii_char(c: char) -> bool
    returns
        c <= '\u{7f}',
{
    c <= '\u{7f}'
}

/// ASCII letters in lower case, everything else as it is.
pub open spec fn lower(c: char) -> char {
    if is_upper(c) {
        (c as u8 + 32) as char
    } else {
        c
    }
}

/// ASCII letters in upper case, everything else as it is.
pub open spec fn upper(c: char) -> char {
    if is_lower(c) {
        (c as u8 - 32) as char
    } else {
        c
    }
}

pub fn to_lower(c: char) -> (res: char)
    ensures
        res == lower(c),
{
    if is_upper(c) {
        (c as u8 + 32) as char
    } else {
        c
    }
}

pub fn to_upper(c: char) -> (res: char)
    ensures
        res == upper(c),
{
    if is_lower(c) {
        (c as u8 - 32) as char
    } else {
        c
    }
}

// ---------------------------------------------------------------------------
// Between texts and character vectors
// ---------------------------------------------------------------------------

/// The characters of a text.
pub fn chars_of(text: &str) -> (res: Vec<char>)
    ensures
        res@ == text@,
{
    let mut res: Vec<char> = Vec::new();
    for c in it: text.chars()
        invariant
            res@ == it.seq().take(it.index()),
            it.seq() == text@,
    {
        res.push(c);
    }
    assert(text@.take(text@.len() as int) =~= text@);
    res
}

/// The text that the characters `from..to` make up.
pub fn text_of(chars: &Vec<char>, from: usize, to: usize) -> (res: String)
    requires
        from <= to <= chars@.len(),
    ensures
        res@ == chars@.subrange(from as int, to as int),
{
    let mut res: String = String::new();
    let mut i: usize = from;
    while i < to
        invariant
            from <= i <= to <= chars@.len(),
            res@ == chars@.subrange(from as int, i as int),
        decreases to - i,
    {
        res.push(chars[i]);
        i += 1;
        assert(chars@.subrange(from as int, i as int) =~= chars@.subrange(
            from as int,
            i - 1,
        ).push(chars@[i - 1]));
    }
    res
}

// ---------------------------------------------------------------------------
// Trimming
// ---------------------------------------------------------------------------

/// A set of characters to trim off a text.
pub enum CharSet {
    Whitespace,
    Digits,
    Blanks,
    Only(char),
}

impl CharSet {
    /// The characters of the set; `Blanks` are the space and the tab.
    pub open spec fn has(self, c: char) -> bool {
        match self {
            CharSet::Whitespace => is_space(c),
            CharSet::Digits => is_digit(c),
            CharSet::Blanks => c == ' ' || c == '\t',
            CharSet::Only(only) => c == only,
        }
    }

    pub fn contains(&self, c: char) -> (res: bool)
        ensures
            res == self.has(c),
    {
        match self {
            CharSet::Whitespace => is_space(c),
            CharSet::Digits => is_digit(c),
            CharSet::Blanks => c == ' ' || c == '\t',
            CharSet::Only(only) => c == *only,
        }
    }
}

/// `s` without the characters of the set at its end.
pub open spec fn without_tail(s: Seq<char>, set: CharSet) -> Seq<char>
    decreases s.len(),
{
    if s.len() > 0 && set.has(s.last()) {
        without_tail(s.drop_last(), set)
    } else {
        s
    }
}

/// `s` without the characters of the set at its start.
pub open spec fn without_head(s: Seq<char>, set: CharSet) -> Seq<char>
    decreases s.len(),
{
    if s.len() > 0 && set.has(s[0]) {
        without_head(s.drop_first(), set)
    } else {
        s
    }
}

/// `s` without white space at either end.
pub open spec fn trimmed(s: Seq<char>) -> Seq<char> {
    without_tail(without_head(s, CharSet::Whitespace), CharSet::Whitespace)
}

pub fn trim_end<'a>(text: &'a str, set: &CharSet) -> (res: &'a str)
    ensures
        res@ == without_tail(text@, *set),
{
    let chars = chars_of(text);
    let mut n: usize = chars.len();
    assert(text@.subrange(0, n as int) =~= text@);
    while n > 0 && set.contains(chars[n - 1])
        invariant
            chars@ == text@,
            n <= chars@.len(),
            without_tail(text@, *set) == without_tail(text@.subrange(0, n as int), *set),
        decreases n,
    {
        assert(text@.subrange(0, n as int).drop_last() =~= text@.subrange(0, n - 1));
        n -= 1;
    }
    text.substring_char(0, n)
}

pub fn trim_start<'a>(text: &'a str, set: &CharSet) -> (res: &'a str)
    ensures
        res@ == without_head(text@, *set),
{
    let chars = chars_of(text);
    let n: usize = chars.len();
    let mut i: usize = 0;
    assert(text@.subrange(0, n as int) =~= text@);
    while i < n && set.contains(chars[i])
        invariant
            chars@ == text@,
            n == chars@.len(),
            i <= n,
            without_head(text@, *set) == without_head(text@.subrange(i as int, n as int), *set),
        decreases n - i,
    {
        assert(text@.subrange(i as int, n as int).drop_first() =~= text@.subrange(
            i + 1,
            n as int,
        ));
        i += 1;
    }
    text.substring_char(i, n)
}

pub fn trim<'a>(text: &'a str) -> (res: &'a str)
    ensures
        res@ == trimmed(text@),
{
    trim_end(trim_start(text, &CharSet::Whitespace), &CharSet::Whitespace)
}

// ---------------------------------------------------------------------------
// Prefixes, suffixes, searching
// ---------------------------------------------------------------------------

/// `s` starts with `prefix`.
pub open spec fn starts_with(s: Seq<char>, prefix: Seq<char>) -> bool {
    occurs_at(s, prefix, 0)
}

/// `s` ends with `suffix`.
pub open spec fn ends_with(s: Seq<char>, suffix: Seq<char>) -> bool {
    occurs_at(s, suffix, s.len() - suffix.len())
}

/// Whether the character `c` occurs in a text.
pub fn has_char(text: &str, c: char) -> (res: bool)
    ensures
        res == text@.contains(c),
{
    let chars = chars_of(text);
    let mut i: usize = 0;
    while i < chars.len()
        invariant
            chars@ == text@,
            i <= chars@.len(),
            forall|j: int| 0 <= j < i ==> text@[j] != c,
        decreases chars@.len() - i,
    {
        if chars[i] == c {
            assert(text@[i as int] == c);
            return true;
        }
        i += 1;
    }
    false
}

/// Whether `needle` stands among the characters at `i`.
pub fn stands_at(hay: &Vec<char>, needle: &Vec<char>, i: usize) -> (res: bool)
    ensures
        res == occurs_at(hay@, needle@, i as int),
{
    let n: usize = needle.len();
    let h: usize = hay.len();
    if n > h || i > h - n {
        return false;
    }
    let mut k: usize = 0;
    while k < n
        invariant
            n == needle@.len(),
            h == hay@.len(),
            i + n <= h,
            k <= n,
            forall|j: int| 0 <= j < k ==> hay@[i + j] == needle@[j],
        decreases n - k,
    {
        if hay[i + k] != needle[k] {
            assert(hay@.subrange(i as int, i + n)[k as int] != needle@[k as int]);
            return false;
        }
        k += 1;
    }
    assert(hay@.subrange(i as int, i + n) =~= needle@);
    true
}

/// The first position from `from` on at which `needle` stands.
pub fn position(hay: &Vec<char>, needle: &Vec<char>, from: usize) -> (res: Option<usize>)
    ensures
        match res {
            Some(i) => find_from(hay@, needle@, from as int) == Some(i as int),
            None => find_from(hay@, needle@, from as int) is None,
        },
{
    let n: usize = needle.len();
    let h: usize = hay.len();
    let mut i: usize = from;
    while n <= h && i <= h - n
        invariant
            n == needle@.len(),
            h == hay@.len(),
            find_from(hay@, needle@, from as int) == find_from(hay@, needle@, i as int),
        decreases hay@.len() + 1 - i,
    {
        if stands_at(hay, needle, i) {
            return Some(i);
        }
        if i == h {
            assert(find_from(hay@, needle@, h + 1) is None);
            return None;
        }
        i += 1;
    }
    None
}

/// The last position up to `from` at which `needle` stands.
pub fn last_position(hay: &Vec<char>, needle: &Vec<char>, from: usize) -> (res: Option<usize>)
    ensures
        match res {
            Some(i) => rfind_from(hay@, needle@, from as int) == Some(i as int),
            None => rfind_from(hay@, needle@, from as int) is None,
        },
{
    let mut i: usize = from;
    loop
        invariant
            rfind_from(hay@, needle@, from as int) == rfind_from(hay@, needle@, i as int),
        decreases i,
    {
        if stands_at(hay, needle, i) {
            return Some(i);
        }
        if i == 0 {
            assert(rfind_from(hay@, needle@, -1) is None);
            return None;
        }
        i -= 1;
    }
}

/// What stands between the first `open` and the next `close` behind it.
pub open spec fn enclosed(s: Seq<char>, open: Seq<char>, close: Seq<char>) -> Option<Seq<char>> {
    match find_from(s, open, 0) {
        None => None,
        Some(at) => match find_from(s, close, at + open.len()) {
            None => None,
            Some(end) => Some(s.subrange(at + open.len(), end)),
        },
    }
}

pub fn between<'a>(text: &'a str, open: &str, close: &str) -> (res: Option<&'a str>)
    ensures
        match res {
            Some(inner) => enclosed(text@, open@, close@) == Some(inner@),
            None => enclosed(text@, open@, close@) is None,
        },
{
    let hay = chars_of(text);
    let needle = chars_of(open);
    let h: usize = hay.len();
    match position(&hay, &needle, 0) {
        None => None,
        Some(at) => {
            proof {
                lemma_find_from(text@, open@, 0);
                lemma_find_from(text@, close@, at + open@.len());
                assert(at + open@.len() <= h);
            }
            let from: usize = at + needle.len();
            match position(&hay, &chars_of(close), from) {
                None => None,
                Some(end) => Some(text.substring_char(from, end)),
            }
        },
    }
}

/// Whether every character could stand in an identifier.
pub fn is_word(text: &str) -> (res: bool)
    ensures
        res == word(text@),
{
    let chars = chars_of(text);
    let mut i: usize = 0;
    while i < chars.len()
        invariant
            chars@ == text@,
            i <= chars@.len(),
            forall|j: int| 0 <= j < i ==> is_word_char(#[trigger] text@[j]),
        decreases chars@.len() - i,
    {
        if !is_word_char(chars[i]) {
            assert(!is_word_char(text@[i as int]));
            return false;
        }
        i += 1;
    }
    true
}

/// Every character could stand in an identifier.
pub open spec fn word(s: Seq<char>) -> bool {
    forall|i: int| 0 <= i < s.len() ==> is_word_char(#[trigger] s[i])
}

pub fn has_prefix(text: &str, prefix: &str) -> (res: bool)
    ensures
        res == starts_with(text@, prefix@),
{
    let hay = chars_of(text);
    let needle = chars_of(prefix);
    stands_at(&hay, &needle, 0)
}

pub fn has_suffix(text: &str, suffix: &str) -> (res: bool)
    ensures
        res == ends_with(text@, suffix@),
{
    let hay = chars_of(text);
    let needle = chars_of(suffix);
    if needle.len() > hay.len() {
        return false;
    }
    stands_at(&hay, &needle, hay.len() - needle.len())
}

/// `s` without `prefix`, where it starts with it.
pub open spec fn stripped(s: Seq<char>, prefix: Seq<char>) -> Option<Seq<char>> {
    if starts_with(s, prefix) {
        Some(s.subrange(prefix.len() as int, s.len() as int))
    } else {
        None
    }
}

pub fn strip_prefix<'a>(text: &'a str, prefix: &str) -> (res: Option<&'a str>)
    ensures
        match res {
            Some(rest) => stripped(text@, prefix@) == Some(rest@),
            None => stripped(text@, prefix@) is None,
        },
{
    if has_prefix(text, prefix) {
        Some(text.substring_char(prefix.unicode_len(), text.unicode_len()))
    } else {
        None
    }
}

// ---------------------------------------------------------------------------
// Character by character
// ---------------------------------------------------------------------------

/// Every ASCII letter of `s` in lower case.
pub open spec fn lowered(s: Seq<char>) -> Seq<char> {
    s.map_values(|c: char| lower(c))
}

/// Every ASCII letter of `s` in upper case.
pub open spec fn uppered(s: Seq<char>) -> Seq<char> {
    s.map_values(|c: char| upper(c))
}

pub fn to_lower_text(text: &str) -> (res: String)
    ensures
        res@ == lowered(text@),
{
    let chars = chars_of(text);
    let mut res: String = String::new();
    let mut i: usize = 0;
    while i < chars.len()
        invariant
            chars@ == text@,
            i <= chars@.len(),
            res@ == lowered(text@.take(i as int)),
        decreases chars@.len() - i,
    {
        res.push(to_lower(chars[i]));
        i += 1;
        assert(lowered(text@.take(i as int)) =~= lowered(text@.take(i - 1)).push(
            lower(text@[i - 1]),
        ));
    }
    assert(text@.take(i as int) =~= text@);
    res
}

pub fn to_upper_text(text: &str) -> (res: String)
    ensures
        res@ == uppered(text@),
{
    let chars = chars_of(text);
    let mut res: String = String::new();
    let mut i: usize = 0;
    while i < chars.len()
        invariant
            chars@ == text@,
            i <= chars@.len(),
            res@ == uppered(text@.take(i as int)),
        decreases chars@.len() - i,
    {
        res.push(to_upper(chars[i]));
        i += 1;
        assert(uppered(text@.take(i as int)) =~= uppered(text@.take(i - 1)).push(
            upper(text@[i - 1]),
        ));
    }
    assert(text@.take(i as int) =~= text@);
    res
}

/// `s` with `to` in place of every `c`.
pub open spec fn with_char_replaced(s: Seq<char>, c: char, to: Seq<char>) -> Seq<char>
    decreases s.len(),
{
    if s.len() == 0 {
        Seq::empty()
    } else {
        with_char_replaced(s.drop_last(), c, to) + (if s.last() == c {
            to
        } else {
            seq![s.last()]
        })
    }
}

pub fn replace_char(text: &str, c: char, to: &str) -> (res: String)
    ensures
        res@ == with_char_replaced(text@, c, to@),
{
    let chars = chars_of(text);
    let mut res: String = String::new();
    let mut i: usize = 0;
    while i < chars.len()
        invariant
            chars@ == text@,
            i <= chars@.len(),
            res@ == with_char_replaced(text@.take(i as int), c, to@),
        decreases chars@.len() - i,
    {
        let ghost before = res@;
        if chars[i] == c {
            res.append(to);
        } else {
            res.push(chars[i]);
        }
        i += 1;
        assert(text@.take(i as int).drop_last() =~= text@.take(i - 1));
        assert(res@ =~= before + (if text@[i - 1] == c {
            to@
        } else {
            seq![text@[i - 1]]
        }));
    }
    assert(text@.take(i as int) =~= text@);
    res
}

// ---------------------------------------------------------------------------
// Joining
// ---------------------------------------------------------------------------

/// The views of a list of texts.
pub open spec fn views(parts: Seq<String>) -> Seq<Seq<char>> {
    parts.map_values(|p: String| p@)
}

/// A text that may be missing, by view.
pub open spec fn text_or_none(t: Option<String>) -> Option<Seq<char>> {
    match t {
        Some(t) => Some(t@),
        None => None,
    }
}

/// The parts one after the other, with `sep` between every two.
pub open spec fn joined(parts: Seq<Seq<char>>, sep: Seq<char>) -> Seq<char>
    decreases parts.len(),
{
    if parts.len() == 0 {
        Seq::empty()
    } else if parts.len() == 1 {
        parts[0]
    } else {
        joined(parts.drop_last(), sep) + sep + parts.last()
    }
}

pub fn join(parts: &Vec<String>, sep: &str) -> (res: String)
    ensures
        res@ == joined(views(parts@), sep@),
{
    let mut res: String = String::new();
    let mut i: usize = 0;
    while i < parts.len()
        invariant
            i <= parts@.len(),
            res@ == joined(views(parts@).take(i as int), sep@),
        decreases parts@.len() - i,
    {
        if i > 0 {
            res.append(sep);
        }
        res.append(parts[i].as_str());
        i += 1;
        assert(views(parts@).take(i as int).drop_last() =~= views(parts@).take(i - 1));
        assert(res@ =~= joined(views(parts@).take(i as int), sep@));
    }
    assert(views(parts@).take(i as int) =~= views(parts@));
    res
}

// ---------------------------------------------------------------------------
// Replacing
// ---------------------------------------------------------------------------

/// `s` from `i` on with every `needle` replaced by `to`, from left to right
/// and without overlap. An empty needle stands before every character and at
/// the end.
pub open spec fn replaced_from(s: Seq<char>, needle: Seq<char>, to: Seq<char>, i: int) -> Seq<char>
    decreases s.len() + 1 - i,
{
    if i < 0 || i > s.len() {
        Seq::empty()
    } else if needle.len() == 0 {
        to + s.subrange(
            i,
            if i < s.len() {
                i + 1
            } else {
                i
            },
        ) + replaced_from(s, needle, to, i + 1)
    } else if occurs_at(s, needle, i) {
        to + replaced_from(s, needle, to, i + needle.len())
    } else if i < s.len() {
        seq![s[i]] + replaced_from(s, needle, to, i + 1)
    } else {
        Seq::empty()
    }
}

proof fn lemma_nothing_to_replace(s: Seq<char>, needle: Seq<char>, to: Seq<char>, i: int)
    requires
        0 <= i <= s.len(),
        0 < needle.len(),
        !occurs_in(s, needle),
    ensures
        replaced_from(s, needle, to, i) == s.skip(i),
    decreases s.len() - i,
{
    lemma_find_from(s, needle, 0);
    assert(!occurs_at(s, needle, i));
    if i < s.len() {
        lemma_nothing_to_replace(s, needle, to, i + 1);
        assert(seq![s[i]] + s.skip(i + 1) =~= s.skip(i));
    } else {
        assert(s.skip(i) =~= Seq::empty());
    }
}

/// Where there is no needle, nothing is replaced.
pub proof fn law_nothing_to_replace(s: Seq<char>, needle: Seq<char>, to: Seq<char>)
    requires
        0 < needle.len(),
        !occurs_in(s, needle),
    ensures
        replaced_from(s, needle, to, 0) == s,
{
    lemma_nothing_to_replace(s, needle, to, 0);
    assert(s.skip(0) =~= s);
}

/// Neither of the two texts holds the other, and no end of one is the start of
/// the other: `u` cannot reach into `p`, whatever stands around it.
pub open spec fn unlinked(u: Seq<char>, p: Seq<char>) -> bool {
    &&& !occurs_in(p, u)
    &&& !occurs_in(u, p)
    &&& forall|n: int|
        0 < n <= u.len() && n <= p.len() ==> #[trigger] u.take(n) != p.skip(p.len() - n) && u.skip(
            u.len() - n,
        ) != p.take(n)
}

proof fn lemma_occurs_in(hay: Seq<char>, needle: Seq<char>, i: int)
    requires
        occurs_at(hay, needle, i),
    ensures
        occurs_in(hay, needle),
{
    lemma_find_from(hay, needle, 0);
}

proof fn lemma_occurs_equal(hay: Seq<char>, needle: Seq<char>, i: int)
    requires
        occurs_at(hay, needle, i),
    ensures
        forall|x: int| 0 <= x < needle.len() ==> #[trigger] needle[x] == hay[i + x],
{
    assert forall|x: int| 0 <= x < needle.len() implies #[trigger] needle[x] == hay[i + x] by {
        assert(hay.subrange(i, i + needle.len() as int)[x] == hay[i + x]);
    }
}

/// What is not linked to `p` stands before it or behind it.
proof fn lemma_kept_out(a: Seq<char>, p: Seq<char>, c: Seq<char>, u: Seq<char>, k: int)
    requires
        unlinked(u, p),
        occurs_at(a + p + c, u, k),
    ensures
        k + u.len() <= a.len() || a.len() + p.len() <= k,
{
    let t = a + p + c;
    lemma_occurs_equal(t, u, k);
    if k + u.len() > a.len() && a.len() + p.len() > k {
        if k >= a.len() && k + u.len() <= a.len() + p.len() {
            let j = k - a.len();
            assert(p.subrange(j, j + u.len() as int) =~= u);
            lemma_occurs_in(p, u, j);
        } else if k <= a.len() && k + u.len() >= a.len() + p.len() {
            let j = a.len() - k;
            assert forall|x: int| 0 <= x < p.len() implies u[j + x] == #[trigger] p[x] by {
                assert(u[j + x] == t[k + (j + x)]);
            }
            assert(u.subrange(j, j + p.len() as int) =~= p);
            lemma_occurs_in(u, p, j);
        } else if k < a.len() {
            let n = k + u.len() - a.len();
            assert forall|x: int| 0 <= x < n implies u.skip(u.len() - n)[x] == #[trigger] p.take(
                n,
            )[x] by {
                assert(u[u.len() - n + x] == t[k + (u.len() - n + x)]);
            }
            assert(u.skip(u.len() - n) =~= p.take(n));
            assert(u.take(n).len() == n);
        } else {
            let n = a.len() + p.len() - k;
            assert forall|x: int| 0 <= x < n implies u.take(n)[x] == #[trigger] p.skip(
                p.len() - n,
            )[x] by {
                assert(u[x] == t[k + x]);
            }
            assert(u.take(n) =~= p.skip(p.len() - n));
        }
    }
}

/// What replacing gives, up to the first needle and behind it.
proof fn lemma_replaced_parts(s: Seq<char>, needle: Seq<char>, to: Seq<char>, i: int)
    requires
        0 <= i <= s.len(),
        0 < needle.len(),
    ensures
        match find_from(s, needle, i) {
            Some(j) => i <= j && replaced_from(s, needle, to, i) == s.subrange(i, j) + to
                + replaced_from(s, needle, to, j + needle.len()),
            None => replaced_from(s, needle, to, i) == s.skip(i),
        },
    decreases s.len() - i,
{
    lemma_find_from(s, needle, i);
    if occurs_at(s, needle, i) {
        assert(s.subrange(i, i) + to + replaced_from(s, needle, to, i + needle.len())
            =~= replaced_from(s, needle, to, i));
    } else if i < s.len() {
        lemma_replaced_parts(s, needle, to, i + 1);
        assert(find_from(s, needle, i) == find_from(s, needle, i + 1)) by {
            if i + needle.len() > s.len() {
                lemma_find_from(s, needle, i + 1);
            }
        }
        match find_from(s, needle, i) {
            Some(j) => {
                lemma_find_from(s, needle, i + 1);
                assert(seq![s[i]] + (s.subrange(i + 1, j) + to + replaced_from(
                    s,
                    needle,
                    to,
                    j + needle.len(),
                )) =~= s.subrange(i, j) + to + replaced_from(s, needle, to, j + needle.len()));
            },
            None => {
                assert(seq![s[i]] + s.skip(i + 1) =~= s.skip(i));
            },
        }
    } else {
        assert(s.skip(i) =~= Seq::empty());
    }
}

/// What stands in the text after replacing, and is not linked to what was put
/// in, stood in it before, where no needle was.
proof fn lemma_stood_before(
    s: Seq<char>,
    needle: Seq<char>,
    to: Seq<char>,
    i: int,
    u: Seq<char>,
    k: int,
)
    requires
        0 <= i <= s.len(),
        0 < needle.len(),
        unlinked(u, to),
        occurs_at(replaced_from(s, needle, to, i), u, k),
    ensures
        u != needle,
        exists|j: int| #[trigger] occurs_at(s, u, j),
    decreases s.len() - i,
{
    lemma_replaced_parts(s, needle, to, i);
    lemma_find_from(s, needle, i);
    let r = replaced_from(s, needle, to, i);
    match find_from(s, needle, i) {
        None => {
            assert(s.skip(i).subrange(k, k + u.len() as int) =~= s.subrange(
                i + k,
                i + k + u.len() as int,
            ));
            assert(occurs_at(s, u, i + k));
        },
        Some(j) => {
            let (g, rest) = (s.subrange(i, j), replaced_from(s, needle, to, j + needle.len()));
            lemma_kept_out(g, to, rest, u, k);
            if k + u.len() <= g.len() {
                assert(r.subrange(k, k + u.len() as int) =~= s.subrange(
                    i + k,
                    i + k + u.len() as int,
                ));
                assert(occurs_at(s, u, i + k));
                if u == needle {
                    assert(i + k < j);
                }
            } else {
                let m = k - g.len() - to.len();
                assert(r.subrange(k, k + u.len() as int) =~= rest.subrange(
                    m,
                    m + u.len() as int,
                ));
                assert(occurs_at(rest, u, m));
                lemma_stood_before(s, needle, to, j + needle.len(), u, m);
            }
        },
    }
}

/// After replacing, the needle is gone, where it is not linked to what was put
/// in; and what was not there before is not there after.
pub proof fn law_replaced_is_gone(s: Seq<char>, needle: Seq<char>, to: Seq<char>, u: Seq<char>)
    requires
        0 < needle.len(),
        unlinked(u, to),
        u == needle || !occurs_in(s, u),
    ensures
        !occurs_in(replaced_from(s, needle, to, 0), u),
{
    let r = replaced_from(s, needle, to, 0);
    lemma_find_from(r, u, 0);
    if occurs_in(r, u) {
        let k = find_from(r, u, 0)->0;
        lemma_stood_before(s, needle, to, 0, u, k);
        let j = choose|j: int| #[trigger] occurs_at(s, u, j);
        lemma_occurs_in(s, u, j);
    }
}

/// Replace every `needle` in a text by `to`.
pub fn replace_text(text: &str, needle: &str, to: &str) -> (res: String)
    ensures
        res@ == replaced_from(text@, needle@, to@, 0),
{
    let chars = chars_of(text);
    let mark = chars_of(needle);
    let n: usize = chars.len();
    let k: usize = mark.len();
    let mut res: String = String::new();
    let mut i: usize = 0;
    assert(res@ + replaced_from(text@, needle@, to@, 0) =~= replaced_from(
        text@,
        needle@,
        to@,
        0,
    ));
    while i < n
        invariant
            chars@ == text@,
            mark@ == needle@,
            n == chars@.len(),
            k == mark@.len(),
            i <= n,
            res@ + replaced_from(text@, needle@, to@, i as int) == replaced_from(
                text@,
                needle@,
                to@,
                0,
            ),
        decreases n - i,
    {
        let ghost before = res@;
        let ghost from = i;
        if k > 0 && stands_at(&chars, &mark, i) {
            res.append(to);
            i += k;
        } else {
            if k == 0 {
                res.append(to);
                assert(text@.subrange(i as int, i + 1) =~= seq![text@[i as int]]);
            }
            res.push(chars[i]);
            i += 1;
        }
        assert(res@ + replaced_from(text@, needle@, to@, i as int) =~= before + replaced_from(
            text@,
            needle@,
            to@,
            from as int,
        ));
    }
    let ghost before = res@;
    if k == 0 {
        res.append(to);
        assert(replaced_from(text@, needle@, to@, n + 1) =~= Seq::empty());
        assert(text@.subrange(n as int, n as int) =~= Seq::empty());
    }
    assert(res@ =~= before + replaced_from(text@, needle@, to@, n as int));
    res
}

// ---------------------------------------------------------------------------
// Words and lines
// ---------------------------------------------------------------------------

/// The first position from `i` on that holds no white space.
pub open spec fn word_start(s: Seq<char>, i: int) -> int
    decreases s.len() - i,
{
    if 0 <= i < s.len() && is_space(s[i]) {
        word_start(s, i + 1)
    } else {
        i
    }
}

/// The first position from `i` on that holds white space, or the end.
pub open spec fn word_end(s: Seq<char>, i: int) -> int
    decreases s.len() - i,
{
    if 0 <= i < s.len() && !is_space(s[i]) {
        word_end(s, i + 1)
    } else {
        i
    }
}

pub proof fn lemma_word(s: Seq<char>, i: int)
    requires
        0 <= i <= s.len(),
    ensures
        i <= word_start(s, i) <= s.len(),
        i <= word_end(s, i) <= s.len(),
        i < s.len() && !is_space(s[i]) ==> i < word_end(s, i),
        word_start(s, i) < s.len() ==> !is_space(s[word_start(s, i)]),
        forall|k: int| i <= k < word_end(s, i) ==> !is_space(#[trigger] s[k]),
    decreases s.len() - i,
{
    if i < s.len() {
        lemma_word(s, i + 1);
    }
}

/// The words of `s` from `i` on: what stands between white space.
pub open spec fn words_from(s: Seq<char>, i: int) -> Seq<Seq<char>>
    decreases s.len() - i,
        when 0 <= i <= s.len()
{
    let a = word_start(s, i);
    let b = word_end(s, a);
    proof {
        lemma_word(s, i);
        lemma_word(s, a);
    }
    if a >= s.len() {
        Seq::empty()
    } else {
        seq![s.subrange(a, b)] + words_from(s, b)
    }
}

/// A word: not empty, and without white space.
pub open spec fn is_plain_word(w: Seq<char>) -> bool {
    w.len() > 0 && forall|i: int| 0 <= i < w.len() ==> !is_space(#[trigger] w[i])
}

/// What stands between white space are words.
pub proof fn law_words(s: Seq<char>, i: int)
    requires
        0 <= i <= s.len(),
    ensures
        forall|k: int|
            0 <= k < words_from(s, i).len() ==> is_plain_word(#[trigger] words_from(s, i)[k]),
    decreases s.len() - i,
{
    let a = word_start(s, i);
    lemma_word(s, i);
    if a < s.len() {
        let b = word_end(s, a);
        lemma_word(s, a);
        law_words(s, b);
        let (w, rest, all) = (s.subrange(a, b), words_from(s, b), words_from(s, i));
        assert forall|k: int| 0 <= k < w.len() implies !is_space(#[trigger] w[k]) by {
            assert(w[k] == s[a + k]);
        }
        assert forall|k: int| 0 <= k < all.len() implies is_plain_word(#[trigger] all[k]) by {
            if k > 0 {
                assert(all[k] == rest[k - 1]);
            }
        }
    }
}

/// Words are found where they stand, whatever comes behind white space after
/// them.
proof fn lemma_words_before(s: Seq<char>, t: Seq<char>, i: int)
    requires
        0 <= i <= s.len(),
        t.len() > 0,
        is_space(t[0]),
    ensures
        words_from(s + t, i) == words_from(s, i) + words_from(t, 0),
    decreases s.len() - i,
{
    let u = s + t;
    lemma_word(s, i);
    lemma_word(u, i);
    lemma_word_start_before(s, t, i);
    let a = word_start(s, i);
    if a < s.len() {
        lemma_word(s, a);
        lemma_word_end_before(s, t, a);
        let b = word_end(s, a);
        lemma_words_before(s, t, b);
        assert(u.subrange(a, b) =~= s.subrange(a, b));
        assert(words_from(u, i) =~= words_from(s, i) + words_from(t, 0));
    } else {
        lemma_words_behind(s, t, 0);
        lemma_words_from_start(u, i);
        lemma_words_from_start(u, s.len() as int);
        assert(words_from(s, i) + words_from(t, 0) =~= words_from(t, 0));
    }
}

/// White space before the first word makes no difference.
proof fn lemma_words_from_start(s: Seq<char>, i: int)
    requires
        0 <= i <= s.len(),
    ensures
        words_from(s, i) == words_from(s, word_start(s, i)),
    decreases s.len() - i,
{
    lemma_word(s, i);
    if i < s.len() && is_space(s[i]) {
        lemma_words_from_start(s, i + 1);
        lemma_word(s, i + 1);
    }
}

proof fn lemma_word_start_before(s: Seq<char>, t: Seq<char>, i: int)
    requires
        0 <= i <= s.len(),
    ensures
        word_start(s, i) < s.len() ==> word_start(s + t, i) == word_start(s, i),
        word_start(s, i) == s.len() ==> word_start(s + t, i) == word_start(s + t, s.len() as int),
    decreases s.len() - i,
{
    if i < s.len() && is_space(s[i]) {
        lemma_word_start_before(s, t, i + 1);
    }
}

proof fn lemma_word_end_before(s: Seq<char>, t: Seq<char>, i: int)
    requires
        0 <= i <= s.len(),
        t.len() > 0,
        is_space(t[0]),
    ensures
        word_end(s + t, i) == word_end(s, i),
    decreases s.len() - i,
{
    if i < s.len() {
        if !is_space(s[i]) {
            lemma_word_end_before(s, t, i + 1);
        }
    } else {
        assert((s + t)[i] == t[0]);
    }
}

/// Words are found where they stand, whatever comes before.
proof fn lemma_words_behind(s: Seq<char>, t: Seq<char>, j: int)
    requires
        0 <= j <= t.len(),
    ensures
        words_from(s + t, s.len() + j) == words_from(t, j),
    decreases t.len() - j,
{
    let (u, n) = (s + t, s.len() as int);
    lemma_bounds_behind(s, t, j);
    lemma_word(t, j);
    let a = word_start(t, j);
    if a < t.len() {
        lemma_word(t, a);
        lemma_bounds_behind(s, t, a);
        let b = word_end(t, a);
        lemma_words_behind(s, t, b);
        assert(u.subrange(n + a, n + b) =~= t.subrange(a, b));
    }
}

proof fn lemma_bounds_behind(s: Seq<char>, t: Seq<char>, j: int)
    requires
        0 <= j <= t.len(),
    ensures
        word_start(s + t, s.len() + j) == s.len() + word_start(t, j),
        word_end(s + t, s.len() + j) == s.len() + word_end(t, j),
    decreases t.len() - j,
{
    if j < t.len() {
        assert((s + t)[s.len() + j] == t[j]);
        lemma_bounds_behind(s, t, j + 1);
    }
}

/// One word is all there is in it.
proof fn lemma_one_word(w: Seq<char>)
    requires
        is_plain_word(w),
    ensures
        words_from(w, 0) == seq![w],
{
    lemma_word(w, 0);
    lemma_whole_word(w, 0);
    assert(word_start(w, 0) == 0);
    assert(w.subrange(0, w.len() as int) =~= w);
    assert(words_from(w, w.len() as int) =~= Seq::empty());
    assert(words_from(w, 0) =~= seq![w]);
}

proof fn lemma_whole_word(w: Seq<char>, i: int)
    requires
        0 <= i <= w.len(),
        is_plain_word(w),
    ensures
        word_end(w, i) == w.len(),
    decreases w.len() - i,
{
    if i < w.len() {
        lemma_whole_word(w, i + 1);
    }
}

/// The bytes of the words, and one more for each.
pub open spec fn weight(words: Seq<Seq<char>>) -> nat
    decreases words.len(),
{
    if words.len() == 0 {
        0
    } else {
        weight(words.drop_last()) + utf8(words.last()).len() + 1
    }
}

proof fn lemma_weight_first(w: Seq<char>, words: Seq<Seq<char>>)
    ensures
        weight(seq![w] + words) == utf8(w).len() + 1 + weight(words),
    decreases words.len(),
{
    let all = seq![w] + words;
    if words.len() == 0 {
        assert(all.last() == w);
        assert(weight(all.drop_last()) == 0);
    } else {
        lemma_weight_first(w, words.drop_last());
        assert(all.drop_last() =~= seq![w] + words.drop_last());
        assert(all.last() == words.last());
    }
}

/// Words joined by spaces take up their bytes and one for each space.
pub proof fn lemma_joined_weight(words: Seq<Seq<char>>)
    ensures
        words.len() > 0 ==> utf8(joined(words, " "@)).len() + 1 == weight(words),
    decreases words.len(),
{
    reveal_strlit(" ");
    lemma_ascii_text(" "@);
    if words.len() == 1 {
        assert(weight(words.drop_last()) == 0);
    } else if words.len() > 1 {
        let d = words.drop_last();
        lemma_joined_weight(d);
        lemma_utf8_concat(joined(d, " "@), " "@);
        lemma_utf8_concat(joined(d, " "@) + " "@, words.last());
    }
}

/// The words of a text, with one byte behind each, take up no more than the
/// text and one byte.
pub proof fn lemma_words_weight(s: Seq<char>, i: int)
    requires
        0 <= i <= s.len(),
    ensures
        weight(words_from(s, i)) <= utf8(s.skip(i)).len() + 1,
    decreases s.len() - i,
{
    let a = word_start(s, i);
    lemma_word(s, i);
    if a < s.len() {
        lemma_word(s, a);
        let b = word_end(s, a);
        let w = s.subrange(a, b);
        lemma_weight_first(w, words_from(s, b));
        assert(s.skip(i) =~= s.subrange(i, a) + (w + s.skip(b)));
        lemma_utf8_concat(s.subrange(i, a), w + s.skip(b));
        lemma_utf8_concat(w, s.skip(b));
        if b < s.len() {
            lemma_word_end(s, a);
            lemma_words_weight(s, b + 1);
            lemma_words_from_start(s, b);
            lemma_words_from_start(s, b + 1);
            assert(s.skip(b) =~= seq![s[b]] + s.skip(b + 1));
            lemma_utf8_concat(seq![s[b]], s.skip(b + 1));
            lemma_utf8_len(seq![s[b]]);
        } else {
            assert(words_from(s, b) =~= Seq::empty());
        }
    }
}

proof fn lemma_word_end(s: Seq<char>, i: int)
    requires
        0 <= i <= s.len(),
    ensures
        word_end(s, i) < s.len() ==> is_space(s[word_end(s, i)]),
    decreases s.len() - i,
{
    if i < s.len() && !is_space(s[i]) {
        lemma_word_end(s, i + 1);
    }
}

/// Words joined by spaces are found again.
pub proof fn law_words_of_joined(words: Seq<Seq<char>>)
    requires
        forall|i: int| 0 <= i < words.len() ==> is_plain_word(#[trigger] words[i]),
    ensures
        words_from(joined(words, " "@), 0) == words,
    decreases words.len(),
{
    reveal_strlit(" ");
    if words.len() == 0 {
        assert(words_from(joined(words, " "@), 0) =~= words);
    } else if words.len() == 1 {
        lemma_one_word(words[0]);
        assert(words =~= seq![words[0]]);
    } else {
        let (d, w) = (words.drop_last(), words.last());
        assert(words[words.len() - 1] == w);
        assert forall|i: int| 0 <= i < d.len() implies is_plain_word(#[trigger] d[i]) by {
            assert(d[i] == words[i]);
        }
        law_words_of_joined(d);
        let (s, t) = (joined(d, " "@), " "@ + w);
        assert(joined(words, " "@) =~= s + t);
        lemma_words_before(s, t, 0);
        lemma_words_behind(" "@, w, 0);
        lemma_words_from_start(t, 0);
        lemma_words_from_start(t, 1);
        assert(word_start(t, 0) == word_start(t, 1));
        lemma_one_word(w);
        assert(words =~= d + seq![w]);
    }
}

/// The words of a text: what stands between white space.
pub fn split_words(text: &str) -> (res: Vec<String>)
    ensures
        views(res@) == words_from(text@, 0),
{
    let chars = chars_of(text);
    let n: usize = chars.len();
    let mut res: Vec<String> = Vec::new();
    let mut i: usize = 0;
    assert(views(res@) + words_from(text@, 0) =~= words_from(text@, 0));
    loop
        invariant
            chars@ == text@,
            n == chars@.len(),
            i <= n,
            views(res@) + words_from(text@, i as int) == words_from(text@, 0),
        decreases n - i,
    {
        let mut a: usize = i;
        while a < n && is_space(chars[a])
            invariant
                chars@ == text@,
                n == chars@.len(),
                i <= a <= n,
                word_start(text@, i as int) == word_start(text@, a as int),
            decreases n - a,
        {
            a += 1;
        }
        if a >= n {
            assert(views(res@) + words_from(text@, i as int) =~= views(res@));
            return res;
        }
        let mut b: usize = a;
        while b < n && !is_space(chars[b])
            invariant
                chars@ == text@,
                n == chars@.len(),
                a <= b <= n,
                word_end(text@, a as int) == word_end(text@, b as int),
            decreases n - b,
        {
            b += 1;
        }
        let ghost before = views(res@);
        let word_text = text_of(&chars, a, b);
        proof {
            lemma_word(text@, a as int);
        }
        res.push(word_text);
        assert(views(res@) =~= before.push(text@.subrange(a as int, b as int)));
        assert(views(res@) + words_from(text@, b as int) =~= before + words_from(
            text@,
            i as int,
        ));
        i = b;
    }
}

/// The position behind the first line end from `i` on, or the end.
pub open spec fn next_line(s: Seq<char>, i: int) -> int
    decreases s.len() - i,
{
    if i < 0 || i >= s.len() {
        i
    } else if s[i] == '\n' {
        i + 1
    } else {
        next_line(s, i + 1)
    }
}

pub proof fn lemma_next_line(s: Seq<char>, i: int)
    requires
        0 <= i <= s.len(),
    ensures
        i <= next_line(s, i) <= s.len(),
        i < s.len() ==> i < next_line(s, i),
    decreases s.len() - i,
{
    if i < s.len() && s[i] != '\n' {
        lemma_next_line(s, i + 1);
    }
}

/// The lines of `s` from `i` on, each with its line end.
pub open spec fn lines_from(s: Seq<char>, i: int) -> Seq<Seq<char>>
    decreases s.len() - i,
        when 0 <= i <= s.len()
{
    proof {
        lemma_next_line(s, i);
    }
    if i >= s.len() {
        Seq::empty()
    } else {
        seq![s.subrange(i, next_line(s, i))] + lines_from(s, next_line(s, i))
    }
}

/// The lines of a text, each with its line end.
pub fn split_lines(text: &str) -> (res: Vec<String>)
    ensures
        views(res@) == lines_from(text@, 0),
{
    let chars = chars_of(text);
    let n: usize = chars.len();
    let mut res: Vec<String> = Vec::new();
    let mut i: usize = 0;
    assert(views(res@) + lines_from(text@, 0) =~= lines_from(text@, 0));
    while i < n
        invariant
            chars@ == text@,
            n == chars@.len(),
            i <= n,
            views(res@) + lines_from(text@, i as int) == lines_from(text@, 0),
        decreases n - i,
    {
        let mut b: usize = i;
        while b < n && chars[b] != '\n'
            invariant
                chars@ == text@,
                n == chars@.len(),
                i <= b <= n,
                next_line(text@, i as int) == next_line(text@, b as int),
            decreases n - b,
        {
            b += 1;
        }
        if b < n {
            b += 1;
        }
        proof {
            lemma_next_line(text@, i as int);
        }
        let ghost before = views(res@);
        let line = text_of(&chars, i, b);
        res.push(line);
        assert(views(res@) =~= before.push(text@.subrange(i as int, b as int)));
        assert(views(res@) + lines_from(text@, b as int) =~= before + lines_from(
            text@,
            i as int,
        ));
        i = b;
    }
    assert(views(res@) + lines_from(text@, i as int) =~= views(res@));
    res
}

// ---------------------------------------------------------------------------
// Numbers
// ---------------------------------------------------------------------------

/// The decimal digits of `n`.
pub open spec fn decimal(n: nat) -> Seq<char>
    decreases n,
{
    if n < 10 {
        seq![('0' as u8 + n) as char]
    } else {
        decimal(n / 10).push(('0' as u8 + n % 10) as char)
    }
}

pub fn decimal_text(n: u64) -> (res: String)
    ensures
        res@ == decimal(n as nat),
    decreases n,
{
    if n < 10 {
        let mut res: String = String::new();
        res.push(('0' as u8 + n as u8) as char);
        assert(res@ =~= decimal(n as nat));
        res
    } else {
        let mut res = decimal_text(n / 10);
        res.push(('0' as u8 + (n % 10) as u8) as char);
        res
    }
}

// ---------------------------------------------------------------------------
// Laws
// ---------------------------------------------------------------------------

/// Replacing a character can be done part by part.
pub proof fn law_char_replaced(a: Seq<char>, b: Seq<char>, c: char, to: Seq<char>)
    ensures
        with_char_replaced(a + b, c, to) == with_char_replaced(a, c, to) + with_char_replaced(
            b,
            c,
            to,
        ),
    decreases b.len(),
{
    if b.len() == 0 {
        assert(a + b =~= a);
        assert(with_char_replaced(a, c, to) + with_char_replaced(b, c, to) =~= with_char_replaced(
            a,
            c,
            to,
        ));
    } else {
        law_char_replaced(a, b.drop_last(), c, to);
        assert((a + b).drop_last() =~= a + b.drop_last());
        assert((a + b).last() == b.last());
        assert(with_char_replaced(a + b, c, to) =~= with_char_replaced(a, c, to)
            + with_char_replaced(b, c, to));
    }
}

/// A character by itself is replaced exactly where it is the one.
pub proof fn law_one_char_replaced(x: char, c: char, to: Seq<char>)
    ensures
        x == c ==> with_char_replaced(seq![x], c, to) == to,
        x != c ==> with_char_replaced(seq![x], c, to) == seq![x],
{
    let s = seq![x];
    assert(s.drop_last() =~= Seq::empty());
    assert(with_char_replaced(s.drop_last(), c, to) =~= Seq::empty());
    assert(Seq::<char>::empty() + to =~= to);
    assert(Seq::<char>::empty() + seq![x] =~= seq![x]);
}

/// A text without the character stays as it is.
pub proof fn law_char_absent(s: Seq<char>, c: char, to: Seq<char>)
    requires
        !s.contains(c),
    ensures
        with_char_replaced(s, c, to) == s,
    decreases s.len(),
{
    if s.len() > 0 {
        let d = s.drop_last();
        assert(!d.contains(c)) by {
            if d.contains(c) {
                let i = choose|i: int| 0 <= i < d.len() && d[i] == c;
                assert(s[i] == c);
            }
        }
        law_char_absent(d, c, to);
        assert(s[s.len() - 1] != c);
        assert(s =~= d + seq![s.last()]);
    } else {
        assert(s =~= Seq::empty());
    }
}

/// Every character is one of the set.
pub open spec fn all_in(s: Seq<char>, set: CharSet) -> bool {
    forall|i: int| 0 <= i < s.len() ==> set.has(#[trigger] s[i])
}

/// The sets by their characters.
pub proof fn law_char_sets(c: char)
    ensures
        CharSet::Digits.has(c) <==> '0' <= c && c <= '9',
        CharSet::Blanks.has(c) <==> c == ' ' || c == '\t',
        forall|d: char| CharSet::Only(d).has(c) <==> c == d,
        CharSet::Whitespace.has(' ') && CharSet::Whitespace.has('\n') && CharSet::Whitespace.has(
            '\t',
        ) && CharSet::Whitespace.has('\r') && CharSet::Whitespace.has('\u{3000}'),
        CharSet::Whitespace.has(c) ==> !is_word_char(c) && c != '/' && c != '-' && c != '<' && c
            != '>' && c != '"' && c != '{' && c != '}' && c != '#' && c != '.' && c != ';',
{
}

/// Exactly the characters of the set at the end are taken off.
pub proof fn law_without_tail(a: Seq<char>, t: Seq<char>, set: CharSet)
    requires
        all_in(t, set),
        a.len() == 0 || !set.has(a.last()),
    ensures
        without_tail(a + t, set) == a,
    decreases t.len(),
{
    if t.len() > 0 {
        let d = t.drop_last();
        assert(set.has(t[t.len() - 1]));
        assert((a + t).last() == t.last());
        assert((a + t).drop_last() =~= a + d);
        assert forall|i: int| 0 <= i < d.len() implies set.has(#[trigger] d[i]) by {
            assert(d[i] == t[i]);
        }
        law_without_tail(a, d, set);
    } else {
        assert(a + t =~= a);
    }
}

/// Exactly the characters of the set at the start are taken off.
pub proof fn law_without_head(h: Seq<char>, a: Seq<char>, set: CharSet)
    requires
        all_in(h, set),
        a.len() == 0 || !set.has(a[0]),
    ensures
        without_head(h + a, set) == a,
    decreases h.len(),
{
    if h.len() > 0 {
        let d = h.drop_first();
        assert(set.has(h[0]));
        assert((h + a)[0] == h[0]);
        assert((h + a).drop_first() =~= d + a);
        assert forall|i: int| 0 <= i < d.len() implies set.has(#[trigger] d[i]) by {
            assert(d[i] == h[i + 1]);
        }
        law_without_head(d, a, set);
    } else {
        assert(h + a =~= a);
    }
}

/// Exactly the white space at both ends is taken off.
pub proof fn law_trimmed(l: Seq<char>, a: Seq<char>, r: Seq<char>)
    requires
        all_in(l, CharSet::Whitespace),
        all_in(r, CharSet::Whitespace),
        a.len() > 0,
        !is_space(a[0]),
        !is_space(a.last()),
    ensures
        trimmed(l + a + r) == a,
{
    assert(l + a + r =~= l + (a + r));
    assert((a + r)[0] == a[0]);
    law_without_head(l, a + r, CharSet::Whitespace);
    law_without_tail(a, r, CharSet::Whitespace);
}

/// Of white space nothing is left.
pub proof fn law_trimmed_blank(s: Seq<char>)
    requires
        all_in(s, CharSet::Whitespace),
    ensures
        trimmed(s).len() == 0,
{
    let none = Seq::<char>::empty();
    law_without_head(s, none, CharSet::Whitespace);
    assert(s + none =~= s);
}

/// A text starts with its start and ends with its end, whatever follows or
/// comes before; and what it starts with can be taken off.
pub proof fn law_starts_and_ends(a: Seq<char>, b: Seq<char>, s: Seq<char>)
    ensures
        starts_with(a + b, a),
        ends_with(a + b, b),
        stripped(a + b, a) == Some(b),
        starts_with(s, a) <==> a.is_prefix_of(s),
        ends_with(s, b) <==> b.is_suffix_of(s),
        stripped(s, a) is None <==> !a.is_prefix_of(s),
{
    let t = a + b;
    assert(t.subrange(0, a.len() as int) =~= a);
    assert(t.subrange(a.len() as int, t.len() as int) =~= b);
}

/// What stands between the first opening mark and the next closing one.
pub proof fn law_enclosed(
    a: Seq<char>,
    open: Seq<char>,
    inner: Seq<char>,
    close: Seq<char>,
    rest: Seq<char>,
)
    requires
        forall|j: int|
            0 <= j < a.len() ==> !#[trigger] occurs_at(a + open + inner + close + rest, open, j),
        forall|j: int| 0 <= j < inner.len() ==> !#[trigger] occurs_at(inner + close + rest, close, j),
    ensures
        enclosed(a + open + inner + close + rest, open, close) == Some(inner),
{
    let s = a + open + inner + close + rest;
    let (n, k) = (a.len() as int, (a + open).len() as int);
    lemma_find_from(s, open, 0);
    assert(s.subrange(n, n + open.len()) =~= open);
    assert(occurs_at(s, open, n));
    assert(find_from(s, open, 0) == Some(n));
    lemma_find_from(s, close, k);
    let e = k + inner.len();
    assert(s.subrange(e, e + close.len()) =~= close);
    assert(occurs_at(s, close, e));
    let t = inner + close + rest;
    assert forall|j: int| k <= j < e implies !occurs_at(s, close, j) by {
        if occurs_at(s, close, j) {
            assert(t.subrange(j - k, j - k + close.len()) =~= s.subrange(j, j + close.len()));
            assert(occurs_at(t, close, j - k));
        }
    }
    assert(s.subrange(k, e) =~= inner);
}

/// Nothing is enclosed where the opening mark does not occur, or no closing one
/// behind it.
pub proof fn law_not_enclosed(s: Seq<char>, open: Seq<char>, close: Seq<char>)
    ensures
        (forall|j: int| !#[trigger] occurs_at(s, open, j)) ==> enclosed(s, open, close) is None,
        (forall|j: int| !#[trigger] occurs_at(s, close, j)) ==> enclosed(s, open, close) is None,
{
    lemma_find_from(s, open, 0);
    if let Some(at) = find_from(s, open, 0) {
        lemma_find_from(s, close, at + open.len());
    }
}

/// White space parts words, and what it parts is split for itself.
pub proof fn law_words_split(a: Seq<char>, c: char, b: Seq<char>)
    requires
        is_space(c),
    ensures
        words_from(a + seq![c] + b, 0) == words_from(a, 0) + words_from(b, 0),
{
    let t = seq![c] + b;
    assert(a + seq![c] + b =~= a + t);
    lemma_words_before(a, t, 0);
    lemma_words_behind(seq![c], b, 0);
    lemma_words_from_start(t, 0);
    lemma_words_from_start(t, 1);
    assert(word_start(t, 0) == word_start(t, 1));
}

/// A text without white space is one word.
pub proof fn law_one_word(w: Seq<char>)
    ensures
        is_plain_word(w) ==> words_from(w, 0) == seq![w],
        w.len() == 0 ==> words_from(w, 0).len() == 0,
{
    if is_plain_word(w) {
        lemma_one_word(w);
    }
}

/// Lists are joined part by part, with the separator between them.
pub proof fn law_joined(a: Seq<Seq<char>>, b: Seq<Seq<char>>, x: Seq<char>, sep: Seq<char>)
    ensures
        joined(Seq::<Seq<char>>::empty(), sep).len() == 0,
        joined(seq![x], sep) == x,
        a.len() > 0 && b.len() > 0 ==> joined(a + b, sep) == joined(a, sep) + sep + joined(b, sep),
    decreases b.len(),
{
    if a.len() > 0 && b.len() > 0 {
        assert((a + b).drop_last() =~= a + b.drop_last());
        assert((a + b).last() == b.last());
        if b.len() == 1 {
            assert(a + b.drop_last() =~= a);
        } else {
            law_joined(a, b.drop_last(), x, sep);
            assert(joined(a + b, sep) =~= joined(a, sep) + sep + joined(b, sep));
        }
    }
}

proof fn lemma_line_found(s: Seq<char>, i: int, k: int)
    requires
        0 <= i <= k < s.len(),
        s[k] == '\n',
        forall|j: int| i <= j < k ==> s[j] != '\n',
    ensures
        next_line(s, i) == k + 1,
    decreases k - i,
{
    if i < k {
        lemma_line_found(s, i + 1, k);
    }
}

proof fn lemma_no_line_end(s: Seq<char>, i: int)
    requires
        0 <= i <= s.len(),
        forall|j: int| i <= j < s.len() ==> s[j] != '\n',
    ensures
        next_line(s, i) == s.len(),
    decreases s.len() - i,
{
    if i < s.len() {
        lemma_no_line_end(s, i + 1);
    }
}

proof fn lemma_next_line_behind(s: Seq<char>, t: Seq<char>, j: int)
    requires
        0 <= j <= t.len(),
    ensures
        next_line(s + t, s.len() + j) == s.len() + next_line(t, j),
    decreases t.len() - j,
{
    if j < t.len() {
        assert((s + t)[s.len() + j] == t[j]);
        lemma_next_line_behind(s, t, j + 1);
    }
}

proof fn lemma_lines_behind(s: Seq<char>, t: Seq<char>, j: int)
    requires
        0 <= j <= t.len(),
    ensures
        lines_from(s + t, s.len() + j) == lines_from(t, j),
    decreases t.len() - j,
{
    if j < t.len() {
        lemma_next_line(t, j);
        lemma_next_line_behind(s, t, j);
        let n = next_line(t, j);
        lemma_lines_behind(s, t, n);
        assert((s + t).subrange(s.len() + j, s.len() + n) =~= t.subrange(j, n));
    }
}

/// A line reaches up to and with its line end; the next begins behind it. What
/// comes behind the last line end is a line where it is not empty.
pub proof fn law_lines(a: Seq<char>, b: Seq<char>)
    requires
        !a.contains('\n'),
    ensures
        lines_from(a + seq!['\n'] + b, 0) == seq![a + seq!['\n']] + lines_from(b, 0),
        a.len() > 0 ==> lines_from(a, 0) == seq![a],
        a.len() == 0 ==> lines_from(a, 0).len() == 0,
{
    let head = a + seq!['\n'];
    let s = head + b;
    let k = a.len() as int;
    assert forall|j: int| 0 <= j < a.len() implies a[j] != '\n' by {
        assert(a.contains(a[j]));
    }
    assert(s[k] == '\n');
    assert forall|j: int| 0 <= j < k implies s[j] != '\n' by {
        assert(s[j] == a[j]);
    }
    lemma_line_found(s, 0, k);
    assert(s.subrange(0, k + 1) =~= head);
    lemma_lines_behind(head, b, 0);
    if a.len() > 0 {
        lemma_no_line_end(a, 0);
        assert(a.subrange(0, k) =~= a);
        assert(lines_from(a, k) =~= Seq::empty());
        assert(lines_from(a, 0) =~= seq![a]);
    }
}

/// The number that decimal digits stand for.
pub open spec fn value_of_digits(s: Seq<char>) -> int
    decreases s.len(),
{
    if s.len() == 0 {
        0
    } else {
        10 * value_of_digits(s.drop_last()) + (s.last() as int - '0' as int)
    }
}

/// The decimal digits of a number stand for it, and none of them is a zero in
/// front, but for zero itself.
pub proof fn law_decimal(n: nat)
    ensures
        value_of_digits(decimal(n)) == n,
        decimal(n).len() > 0,
        all_in(decimal(n), CharSet::Digits),
        n > 0 ==> decimal(n)[0] != '0',
    decreases n,
{
    let s = decimal(n);
    if n >= 10 {
        law_decimal(n / 10);
        let d = decimal(n / 10);
        assert(s.drop_last() =~= d);
        assert(s[0] == d[0]);
        assert forall|i: int| 0 <= i < s.len() implies CharSet::Digits.has(#[trigger] s[i]) by {
            if i < d.len() {
                assert(s[i] == d[i]);
            }
        }
    } else {
        assert(s.drop_last() =~= Seq::empty());
        assert(value_of_digits(s.drop_last()) == 0);
    }
}

proof fn lemma_replaced_step(s: Seq<char>, needle: Seq<char>, to: Seq<char>, i: int, j: int)
    requires
        0 < needle.len(),
        0 <= i <= j <= s.len(),
        forall|k: int| i <= k < j ==> !#[trigger] occurs_at(s, needle, k),
    ensures
        replaced_from(s, needle, to, i) == s.subrange(i, j) + replaced_from(s, needle, to, j),
    decreases j - i,
{
    if i < j {
        lemma_replaced_step(s, needle, to, i + 1, j);
        assert(!occurs_at(s, needle, i));
        assert(s.subrange(i, j) =~= seq![s[i]] + s.subrange(i + 1, j));
        assert(replaced_from(s, needle, to, i) =~= s.subrange(i, j) + replaced_from(
            s,
            needle,
            to,
            j,
        ));
    } else {
        assert(s.subrange(i, j) + replaced_from(s, needle, to, j) =~= replaced_from(
            s,
            needle,
            to,
            i,
        ));
    }
}

proof fn lemma_replaced_behind(
    s: Seq<char>,
    t: Seq<char>,
    needle: Seq<char>,
    to: Seq<char>,
    j: int,
)
    requires
        0 < needle.len(),
        0 <= j <= t.len(),
    ensures
        replaced_from(s + t, needle, to, s.len() + j) == replaced_from(t, needle, to, j),
    decreases t.len() - j,
{
    let (u, n) = (s + t, s.len() + j);
    let k = needle.len() as int;
    assert(occurs_at(u, needle, n) <==> occurs_at(t, needle, j)) by {
        if j + k <= t.len() {
            assert(u.subrange(n, n + k) =~= t.subrange(j, j + k));
        }
    }
    if occurs_at(t, needle, j) {
        lemma_replaced_behind(s, t, needle, to, j + k);
    } else if j < t.len() {
        lemma_replaced_behind(s, t, needle, to, j + 1);
        assert(u[n] == t[j]);
    }
}

/// The first occurrence is replaced, what comes before it stays as it is, and
/// what comes behind it is gone on with, so that none is left out.
pub proof fn law_replaced(a: Seq<char>, needle: Seq<char>, b: Seq<char>, to: Seq<char>)
    requires
        0 < needle.len(),
        forall|j: int| 0 <= j < a.len() ==> !#[trigger] occurs_at(a + needle + b, needle, j),
    ensures
        replaced_from(a + needle + b, needle, to, 0) == a + to + replaced_from(b, needle, to, 0),
{
    let s = a + needle + b;
    let n = a.len() as int;
    lemma_replaced_step(s, needle, to, 0, n);
    assert(s.subrange(0, n) =~= a);
    assert(s.subrange(n, n + needle.len()) =~= needle);
    assert(occurs_at(s, needle, n));
    lemma_replaced_behind(a + needle, b, needle, to, 0);
    assert(replaced_from(s, needle, to, 0) =~= a + to + replaced_from(b, needle, to, 0));
}

/// The letters of ASCII have their other case 32 places away; no other
/// character has one.
pub proof fn law_cases(c: char)
    ensures
        'A' <= c <= 'Z' ==> lower(c) as int == c as int + 32 && upper(c) == c,
        'a' <= c <= 'z' ==> upper(c) as int == c as int - 32 && lower(c) == c,
        !('A' <= c <= 'Z') ==> lower(c) == c,
        !('a' <= c <= 'z') ==> upper(c) == c,
{
}

/// A text is a word where each of its characters is a letter or digit of ASCII
/// or `_`. So two words make one, and no part of a word is anything else.
pub proof fn law_word(a: Seq<char>, b: Seq<char>, c: char)
    ensures
        word(a + b) <==> word(a) && word(b),
        word(seq![c]) <==> ('0' <= c <= '9') || ('a' <= c <= 'z') || ('A' <= c <= 'Z') || c == '_',
{
    assert(word(a + b) ==> word(a) && word(b)) by {
        if word(a + b) {
            assert forall|i: int| 0 <= i < a.len() implies is_word_char(#[trigger] a[i]) by {
                assert((a + b)[i] == a[i]);
            }
            assert forall|i: int| 0 <= i < b.len() implies is_word_char(#[trigger] b[i]) by {
                assert((a + b)[a.len() as int + i] == b[i]);
            }
        }
    }
    assert(seq![c][0] == c);
}

} // verus!
