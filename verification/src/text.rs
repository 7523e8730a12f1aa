//! Text by byte offset: the UTF-8 encoding of a text, cutting a text between
//! two offsets, and searching in it.

use vstd::prelude::*;
use vstd::string::*;
use vstd::utf8::{
    decode_utf8, encode_utf8, encode_utf8_decode_utf8, encode_utf8_valid_utf8, is_char_boundary,
    is_char_boundary_iff_not_is_continuation_byte, is_char_boundary_start_end_of_seq,
    is_continuation_byte, pop_first_scalar, valid_first_scalar, is_ascii_chars,
    is_ascii_chars_encode_utf8, valid_utf8, valid_utf8_split, decode_utf8_encode_utf8,
    length_of_first_scalar,
};

verus! {

/// The UTF-8 encoding of a text. Byte offsets into a text are offsets into
/// this sequence.
#[verifier::opaque]
pub open spec fn utf8(text: Seq<char>) -> Seq<u8> {
    encode_utf8(text)
}

/// Offset `i` of the encoding `b` lies between two characters.
pub open spec fn at_boundary(b: Seq<u8>, i: int) -> bool {
    0 <= i <= b.len() && (i == b.len() || !is_continuation_byte(b[i]))
}

/// The text between the byte offsets `from` and `to` of `text`.
#[verifier::opaque]
pub open spec fn cut(text: Seq<char>, from: int, to: int) -> Seq<char> {
    decode_utf8(utf8(text).subrange(from, to))
}

pub proof fn lemma_utf8_valid(text: Seq<char>)
    ensures
        valid_utf8(utf8(text)),
{
    reveal(utf8);
    encode_utf8_valid_utf8(text);
}

pub proof fn lemma_utf8_injective(a: Seq<char>, b: Seq<char>)
    ensures
        utf8(a) == utf8(b) ==> a == b,
{
    reveal(utf8);
    encode_utf8_decode_utf8(a);
    encode_utf8_decode_utf8(b);
}

/// The bytes of a text.
pub fn bytes_of(text: &str) -> (b: &[u8])
    ensures
        b@ == utf8(text@),
{
    reveal(utf8);
    text.as_bytes()
}

pub proof fn lemma_boundary(text: Seq<char>, i: int)
    requires
        0 <= i <= utf8(text).len(),
    ensures
        at_boundary(utf8(text), i) <==> is_char_boundary(utf8(text), i),
{
    let b = utf8(text);
    lemma_utf8_valid(text);
    if i < b.len() {
        is_char_boundary_iff_not_is_continuation_byte(b, i);
    } else {
        is_char_boundary_start_end_of_seq(b);
    }
}

/// An ASCII byte in the encoding of a text is a character of its own.
pub proof fn lemma_ascii_boundary(text: Seq<char>, i: int)
    requires
        0 <= i < utf8(text).len(),
        utf8(text)[i] < 0x80,
    ensures
        at_boundary(utf8(text), i),
        at_boundary(utf8(text), i + 1),
{
    let b = utf8(text);
    lemma_utf8_valid(text);
    lemma_boundary(text, i);
    valid_utf8_split(b, i);
    let tail = b.subrange(i, b.len() as int);
    assert(valid_utf8(tail));
    assert(tail[0] == b[i]);
    assert(length_of_first_scalar(tail) == 1);
    let rest = pop_first_scalar(tail);
    assert(valid_utf8(rest));
    if i + 1 < b.len() {
        assert(rest[0] == b[i + 1]);
        assert(valid_first_scalar(rest));
    }
}

/// An ASCII text is encoded by one byte for each character.
pub proof fn lemma_ascii_text(text: Seq<char>)
    requires
        is_ascii_chars(text),
    ensures
        utf8(text).len() == text.len(),
        forall|i: int| 0 <= i < text.len() ==> #[trigger] utf8(text)[i] == text[i] as u8,
{
    reveal(utf8);
    is_ascii_chars_encode_utf8(text);
}

/// The encoding of a concatenation is the concatenation of the encodings.
pub proof fn lemma_utf8_concat(a: Seq<char>, b: Seq<char>)
    ensures
        utf8(a + b) == utf8(a) + utf8(b),
    decreases a.len(),
{
    reveal(utf8);
    if a.len() == 0 {
        assert(a + b =~= b);
    } else {
        assert((a + b).drop_first() =~= a.drop_first() + b);
        lemma_utf8_concat(a.drop_first(), b);
        assert(utf8(a + b) =~= utf8(a) + utf8(b));
    }
}

/// A text that is not empty has bytes; an empty one has none.
pub proof fn lemma_utf8_len(text: Seq<char>)
    ensures
        text.len() == 0 <==> utf8(text).len() == 0,
{
    let none = Seq::<char>::empty();
    assert(utf8(none) =~= Seq::empty()) by {
        reveal(utf8);
    }
    lemma_utf8_injective(text, none);
    if text.len() == 0 {
        assert(text =~= none);
    }
    if utf8(text).len() == 0 {
        assert(utf8(text) =~= utf8(none));
    }
}

/// What is cut out at character boundaries has the bytes that lie between
/// them.
pub proof fn lemma_cut(text: Seq<char>, from: int, to: int)
    requires
        from <= to,
        at_boundary(utf8(text), from),
        at_boundary(utf8(text), to),
    ensures
        utf8(cut(text, from, to)) == utf8(text).subrange(from, to),
{
    let b = utf8(text);
    lemma_utf8_valid(text);
    lemma_boundary(text, to);
    valid_utf8_split(b, to);
    let head = b.subrange(0, to);
    reveal(utf8);
    reveal(cut);
    decode_utf8_encode_utf8(head);
    lemma_boundary(decode_utf8(head), from);
    valid_utf8_split(head, from);
    let mid = head.subrange(from, to);
    assert(mid =~= b.subrange(from, to));
    decode_utf8_encode_utf8(mid);
}

/// A text cut at three boundaries: the two pieces make up the whole.
pub proof fn lemma_cut_concat(text: Seq<char>, a: int, b: int, c: int)
    requires
        a <= b <= c,
        at_boundary(utf8(text), a),
        at_boundary(utf8(text), b),
        at_boundary(utf8(text), c),
    ensures
        cut(text, a, b) + cut(text, b, c) == cut(text, a, c),
{
    lemma_cut(text, a, b);
    lemma_cut(text, b, c);
    lemma_cut(text, a, c);
    lemma_utf8_concat(cut(text, a, b), cut(text, b, c));
    assert(utf8(text).subrange(a, b) + utf8(text).subrange(b, c) =~= utf8(text).subrange(a, c));
    lemma_utf8_injective(cut(text, a, b) + cut(text, b, c), cut(text, a, c));
}

/// Cutting out everything leaves the text as it is.
pub proof fn lemma_cut_all(text: Seq<char>)
    ensures
        cut(text, 0, utf8(text).len() as int) == text,
        at_boundary(utf8(text), 0),
        at_boundary(utf8(text), utf8(text).len() as int),
{
    let b = utf8(text);
    lemma_utf8_valid(text);
    if b.len() > 0 {
        assert(valid_first_scalar(b));
    }
    assert(b.subrange(0, b.len() as int) =~= b);
    reveal(utf8);
    reveal(cut);
    encode_utf8_decode_utf8(text);
}

/// Offsets into the first of two texts, and where they meet, are boundaries of
/// the two together, and cut the same.
pub proof fn lemma_cut_of_concat(a: Seq<char>, b: Seq<char>, i: int)
    requires
        at_boundary(utf8(a), i),
    ensures
        at_boundary(utf8(a + b), i),
        cut(a + b, 0, i) == cut(a, 0, i),
        at_boundary(utf8(a + b), utf8(a).len() as int),
        cut(a + b, utf8(a).len() as int, utf8(a + b).len() as int) == b,
{
    let n = utf8(a).len() as int;
    let u = utf8(a + b);
    lemma_utf8_concat(a, b);
    lemma_cut_all(a);
    lemma_cut_all(b);
    lemma_cut_all(a + b);
    if i < n {
        assert(u[i] == utf8(a)[i]);
    }
    if utf8(b).len() > 0 {
        assert(u[n] == utf8(b)[0]);
    }
    lemma_cut(a + b, 0, i);
    lemma_cut(a, 0, i);
    assert(u.subrange(0, i) =~= utf8(a).subrange(0, i));
    lemma_utf8_injective(cut(a + b, 0, i), cut(a, 0, i));
    lemma_cut(a + b, n, u.len() as int);
    assert(u.subrange(n, u.len() as int) =~= utf8(b));
    lemma_utf8_injective(cut(a + b, n, u.len() as int), b);
}

/// Cutting the head of a text, and then a shorter one of that.
pub proof fn lemma_cut_twice(text: Seq<char>, i: int, j: int)
    requires
        i <= j,
        at_boundary(utf8(text), i),
        at_boundary(utf8(text), j),
    ensures
        at_boundary(utf8(cut(text, 0, j)), i),
        utf8(cut(text, 0, j)).len() == j,
        cut(cut(text, 0, j), 0, i) == cut(text, 0, i),
{
    lemma_cut_all(text);
    lemma_cut(text, 0, j);
    lemma_cut(text, 0, i);
    let head = cut(text, 0, j);
    lemma_cut_all(head);
    lemma_cut(head, 0, i);
    assert(utf8(head).subrange(0, i) =~= utf8(text).subrange(0, i));
    lemma_utf8_injective(cut(head, 0, i), cut(text, 0, i));
}

/// The text between two byte offsets.
pub fn slice<'a>(text: &'a str, from: usize, to: usize) -> (res: &'a str)
    requires
        from <= to,
        at_boundary(utf8(text@), from as int),
        at_boundary(utf8(text@), to as int),
    ensures
        res@ == cut(text@, from as int, to as int),
        utf8(res@) == utf8(text@).subrange(from as int, to as int),
{
    proof {
        lemma_boundary(text@, to as int);
        reveal(utf8);
    }
    let (head, tail) = text.split_at(to);
    proof {
        let b = utf8(text@);
        assert(utf8(head@) == b.subrange(0, to as int));
        assert(at_boundary(utf8(head@), from as int));
        lemma_boundary(head@, from as int);
    }
    let (before, res) = head.split_at(from);
    proof {
        reveal(cut);
        assert(utf8(res@) =~= utf8(text@).subrange(from as int, to as int));
        encode_utf8_decode_utf8(res@);
    }
    res
}


// ---------------------------------------------------------------------------
// Searching
// ---------------------------------------------------------------------------

/// `needle` stands in `hay` at position `i`.
pub open spec fn occurs_at<T>(hay: Seq<T>, needle: Seq<T>, i: int) -> bool {
    0 <= i && i + needle.len() <= hay.len() && hay.subrange(i, i + needle.len() as int) == needle
}

/// The first position from `from` on at which `needle` stands in `hay`.
pub open spec fn find_from<T>(hay: Seq<T>, needle: Seq<T>, from: int) -> Option<int>
    decreases hay.len() + 1 - from,
{
    if from + needle.len() > hay.len() {
        None
    } else if occurs_at(hay, needle, from) {
        Some(from)
    } else {
        find_from(hay, needle, from + 1)
    }
}

/// The last position up to `from` at which `needle` stands in `hay`.
pub open spec fn rfind_from<T>(hay: Seq<T>, needle: Seq<T>, from: int) -> Option<int>
    decreases from + 1,
{
    if from < 0 {
        None
    } else if occurs_at(hay, needle, from) {
        Some(from)
    } else {
        rfind_from(hay, needle, from - 1)
    }
}

/// `needle` stands somewhere in `hay`.
pub open spec fn occurs_in<T>(hay: Seq<T>, needle: Seq<T>) -> bool {
    find_from(hay, needle, 0) is Some
}

/// What `find_from` returns is an occurrence, and none lies before it; where
/// it returns nothing there is none at all.
pub proof fn lemma_find_from<T>(hay: Seq<T>, needle: Seq<T>, from: int)
    requires
        0 <= from,
    ensures
        match find_from(hay, needle, from) {
            Some(i) => {
                &&& from <= i
                &&& occurs_at(hay, needle, i)
                &&& forall|j: int| from <= j < i ==> !occurs_at(hay, needle, j)
            },
            None => forall|j: int| from <= j ==> !occurs_at(hay, needle, j),
        },
    decreases hay.len() + 1 - from,
{
    if from + needle.len() <= hay.len() && !occurs_at(hay, needle, from) {
        lemma_find_from(hay, needle, from + 1);
    }
}

/// What `rfind_from` returns is an occurrence, and none lies between it and
/// `from`; where it returns nothing there is none up to `from`.
pub proof fn lemma_rfind_from<T>(hay: Seq<T>, needle: Seq<T>, from: int)
    ensures
        match rfind_from(hay, needle, from) {
            Some(i) => {
                &&& i <= from
                &&& occurs_at(hay, needle, i)
                &&& forall|j: int| i < j <= from ==> !occurs_at(hay, needle, j)
            },
            None => forall|j: int| j <= from ==> !occurs_at(hay, needle, j),
        },
    decreases from + 1,
{
    if 0 <= from && !occurs_at(hay, needle, from) {
        lemma_rfind_from(hay, needle, from - 1);
    }
}

/// Whether `needle` stands in `hay` at `i`.
pub fn occurs(hay: &[u8], needle: &[u8], i: usize) -> (res: bool)
    ensures
        res == occurs_at(hay@, needle@, i as int),
{
    let n: usize = needle.len();
    let h: usize = hay.len();
    if n > h || i > h - n {
        return false;
    }
    let mut k: usize = 0;
    while k < n
        invariant
            n == needle@.len(),
            h == hay@.len(),
            i + n <= h,
            k <= n,
            forall|j: int| 0 <= j < k ==> hay@[i + j] == needle@[j],
        decreases n - k,
    {
        if hay[i + k] != needle[k] {
            assert(hay@.subrange(i as int, i + n)[k as int] != needle@[k as int]);
            return false;
        }
        k += 1;
    }
    assert(hay@.subrange(i as int, i + n) =~= needle@);
    true
}

/// The first position from `from` on at which `needle` stands in `hay`.
pub fn find(hay: &[u8], needle: &[u8], from: usize) -> (res: Option<usize>)
    ensures
        match res {
            Some(i) => find_from(hay@, needle@, from as int) == Some(i as int),
            None => find_from(hay@, needle@, from as int) is None,
        },
{
    let n: usize = needle.len();
    let h: usize = hay.len();
    let mut i: usize = from;
    while n <= h && i <= h - n
        invariant
            n == needle@.len(),
            h == hay@.len(),
            find_from(hay@, needle@, from as int) == find_from(hay@, needle@, i as int),
        decreases hay@.len() + 1 - i,
    {
        if occurs(hay, needle, i) {
            return Some(i);
        }
        if i == h {
            assert(find_from(hay@, needle@, h + 1) is None);
            return None;
        }
        i += 1;
    }
    None
}

/// The first position from `from` on that holds the byte `c`.
pub open spec fn byte_from(hay: Seq<u8>, c: u8, from: int) -> Option<int>
    decreases hay.len() - from,
{
    if from < 0 || from >= hay.len() {
        None
    } else if hay[from] == c {
        Some(from)
    } else {
        byte_from(hay, c, from + 1)
    }
}

pub proof fn lemma_byte_from(hay: Seq<u8>, c: u8, from: int)
    requires
        0 <= from,
    ensures
        match byte_from(hay, c, from) {
            Some(i) => {
                &&& from <= i < hay.len()
                &&& hay[i] == c
                &&& forall|j: int| from <= j < i ==> hay[j] != c
            },
            None => forall|j: int| from <= j < hay.len() ==> hay[j] != c,
        },
    decreases hay.len() - from,
{
    if from < hay.len() && hay[from] != c {
        lemma_byte_from(hay, c, from + 1);
    }
}

/// The first position from `from` on that holds the byte `c`.
pub fn find_byte(hay: &[u8], c: u8, from: usize) -> (res: Option<usize>)
    ensures
        match res {
            Some(i) => byte_from(hay@, c, from as int) == Some(i as int) && from <= i < hay@.len()
                && hay@[i as int] == c,
            None => byte_from(hay@, c, from as int) is None,
        },
{
    let h: usize = hay.len();
    let mut i: usize = from;
    while i < h
        invariant
            h == hay@.len(),
            from <= i,
            byte_from(hay@, c, from as int) == byte_from(hay@, c, i as int),
        decreases h - i,
    {
        if hay[i] == c {
            return Some(i);
        }
        i += 1;
    }
    None
}

/// Whether two texts are equal.
pub fn same(a: &str, b: &str) -> (res: bool)
    ensures
        res == (a@ == b@),
{
    let x = bytes_of(a);
    let y = bytes_of(b);
    proof {
        lemma_utf8_injective(a@, b@);
    }
    if x.len() != y.len() {
        return false;
    }
    let res = occurs(x, y, 0);
    assert(utf8(a@).subrange(0, utf8(a@).len() as int) =~= utf8(a@));
    res
}

// ---------------------------------------------------------------------------
// Laws
// ---------------------------------------------------------------------------

/// An ASCII byte in the encoding of a text is one of its characters.
pub proof fn law_ascii_byte_is_char(text: Seq<char>, i: int)
    requires
        0 <= i < utf8(text).len(),
        utf8(text)[i] < 0x80,
    ensures
        text.contains(utf8(text)[i] as char),
        i == 0 ==> text.len() > 0 && text[0] == utf8(text)[i] as char,
{
    let b = utf8(text);
    let n = b.len() as int;
    let c = b[i] as char;
    lemma_ascii_boundary(text, i);
    lemma_cut_all(text);
    lemma_cut_concat(text, 0, i, i + 1);
    lemma_cut_concat(text, 0, i + 1, n);
    lemma_cut(text, i, i + 1);
    let one = seq![c];
    assert(is_ascii_chars(one)) by {
        assert(one[0] == c);
    }
    lemma_ascii_text(one);
    assert(utf8(one) =~= b.subrange(i, i + 1));
    lemma_utf8_injective(cut(text, i, i + 1), one);
    let k = cut(text, 0, i).len() as int;
    assert(text == cut(text, 0, i) + one + cut(text, i + 1, n));
    assert(text[k] == c);
    if i == 0 {
        lemma_cut(text, 0, 0);
        lemma_utf8_len(cut(text, 0, 0));
    }
}

/// What stands between two parts of a text is cut out between their ends.
pub proof fn law_cut_between(a: Seq<char>, x: Seq<char>, b: Seq<char>)
    ensures
        cut(a + x + b, utf8(a).len() as int, utf8(a + x).len() as int) == x,
        cut(a + x + b, 0, utf8(a).len() as int) == a,
        cut(a + x + b, utf8(a + x).len() as int, utf8(a + x + b).len() as int) == b,
        at_boundary(utf8(a + x + b), utf8(a).len() as int),
        at_boundary(utf8(a + x + b), utf8(a + x).len() as int),
        utf8(a).len() <= utf8(a + x).len(),
{
    let (m, n) = (utf8(a).len() as int, utf8(a + x).len() as int);
    lemma_utf8_concat(a, x);
    lemma_cut_all(a);
    lemma_cut_all(a + x);
    lemma_cut_of_concat(a + x, b, n);
    lemma_cut_of_concat(a, x + b, m);
    assert(a + x + b =~= a + (x + b));
    lemma_cut(a + x + b, m, n);
    lemma_utf8_concat(a + x, b);
    assert(utf8(a + x + b).subrange(m, n) =~= utf8(x));
    lemma_utf8_injective(cut(a + x + b, m, n), x);
}

} // verus!
