//! Reading JSX source: attributes, subtrees and top-level functions, found by
//! their byte offsets.

use vstd::prelude::*;
use vstd::string::*;
use vstd::utf8::is_ascii_chars;

use crate::chars::{
    all_in, ends_with, has_suffix, is_space, law_without_tail, trim_end, without_tail, CharSet,
};
use crate::text::{
    at_boundary, byte_from, bytes_of, cut, find, find_byte, find_from, law_ascii_byte_is_char,
    law_cut_between, lemma_ascii_boundary, lemma_ascii_text, lemma_byte_from, lemma_find_from,
    lemma_utf8_concat, occurs, occurs_at, slice, utf8,
};

verus! {

// ---------------------------------------------------------------------------
// Attributes
// ---------------------------------------------------------------------------

/// A byte that can stand right before the name of an attribute.
pub open spec fn precedes_name(b: u8) -> bool {
    b == ' ' as u8 || b == '\t' as u8 || b == '\n' as u8 || b == '\r' as u8 || b == '<' as u8 || b
        == '>' as u8
}

/// Where the value after the first `needle` from `from` on stands that starts
/// a word: from behind the needle up to the next double quote.
pub open spec fn value_span(b: Seq<u8>, needle: Seq<u8>, from: int) -> Option<(int, int)>
    decreases b.len() - from,
        when 0 <= from && 0 < needle.len()
{
    proof {
        lemma_find_from(b, needle, from);
    }
    match find_from(b, needle, from) {
        Some(at) => if at == 0 || precedes_name(b[at - 1]) {
            match byte_from(b, '"' as u8, at + needle.len()) {
                Some(end) => Some((at + needle.len(), end)),
                None => None,
            }
        } else {
            value_span(b, needle, at + needle.len())
        },
        None => None,
    }
}

/// The value of the attribute `name`, as in `name="value"`.
pub open spec fn attribute(attrs: Seq<char>, name: Seq<char>) -> Option<Seq<char>> {
    match value_span(utf8(attrs), utf8(name + "=\""@), 0) {
        Some((from, to)) => Some(cut(attrs, from, to)),
        None => None,
    }
}

/// The value of an attribute in the text between the name of a tag and its
/// end.
pub fn attr_value<'a>(attrs: &'a str, name: &str) -> (res: Option<&'a str>)
    ensures
        match res {
            Some(v) => attribute(attrs@, name@) == Some(v@),
            None => attribute(attrs@, name@) is None,
        },
{
    let mut key: String = name.to_string();
    key.append("=\"");
    let needle = bytes_of(key.as_str());
    let bytes = bytes_of(attrs);
    let h: usize = bytes.len();
    let k: usize = needle.len();
    let quote: u8 = '"' as u8;
    proof {
        reveal_strlit("=\"");
        lemma_utf8_concat(name@, "=\""@);
        lemma_ascii_text("=\""@);
        assert(needle@.last() == utf8("=\""@)[1]);
    }
    let mut from: usize = 0;
    loop
        invariant
            h == bytes@.len(),
            k == needle@.len(),
            k > 0,
            needle@.last() == '"' as u8,
            bytes@ == utf8(attrs@),
            needle@ == utf8(name@ + "=\""@),
            quote == '"' as u8,
            value_span(bytes@, needle@, 0) == value_span(bytes@, needle@, from as int),
            from <= h,
        decreases h - from,
    {
        match find(bytes, needle, from) {
            None => {
                return None;
            },
            Some(at) => {
                proof {
                    lemma_find_from(bytes@, needle@, from as int);
                    assert(bytes@.subrange(at as int, at + k)[k - 1] == bytes@[at + k - 1]);
                }
                let start: usize = at + k;
                if at == 0 || bytes[at - 1] == ' ' as u8 || bytes[at - 1] == '\t' as u8 || bytes[at
                    - 1] == '\n' as u8 || bytes[at - 1] == '\r' as u8 || bytes[at - 1] == '<' as u8
                    || bytes[at - 1] == '>' as u8 {
                    match find_byte(bytes, quote, start) {
                        None => {
                            return None;
                        },
                        Some(end) => {
                            proof {
                                lemma_ascii_boundary(attrs@, start - 1);
                                lemma_ascii_boundary(attrs@, end as int);
                            }
                            return Some(slice(attrs, start, end));
                        },
                    }
                }
                from = start;
            },
        }
    }
}

// ---------------------------------------------------------------------------
// Subtrees
// ---------------------------------------------------------------------------

/// A closing tag with this name stands at `at`: the name is followed by `>` or
/// by white space.
pub open spec fn closes_at(b: Seq<u8>, at: int, tag: Seq<u8>) -> bool {
    let next = at + 2 + tag.len();
    &&& occurs_at(b, utf8("</"@), at)
    &&& occurs_at(b, tag, at + 2)
    &&& next < b.len()
    &&& (b[next] == '>' as u8 || b[next] == ' ' as u8 || b[next] == '\t' as u8 || b[next]
        == '\n' as u8 || b[next] == '\r' as u8)
}

/// A byte that would go on with the name of a tag.
pub open spec fn continues_name(b: u8) -> bool {
    ('0' as u8 <= b && b <= '9' as u8) || ('a' as u8 <= b && b <= 'z' as u8) || ('A' as u8 <= b && b
        <= 'Z' as u8) || b == '_' as u8 || b == '-' as u8
}

/// An opening tag with exactly this name stands at `at`.
pub open spec fn opens_at(b: Seq<u8>, at: int, tag: Seq<u8>) -> bool {
    let next = at + 1 + tag.len();
    &&& 0 <= at < b.len() && b[at] == '<' as u8
    &&& !occurs_at(b, utf8("</"@), at)
    &&& occurs_at(b, tag, at + 1)
    &&& next < b.len()
    &&& !continues_name(b[next])
}

/// The text of a tag up to its `>` ends with a slash, but for white space.
pub open spec fn is_self_closing(tag_text: Seq<char>) -> bool {
    ends_with(without_tail(tag_text, CharSet::Whitespace), "/"@)
}

/// Whether the text of a tag up to its `>` ends with a slash.
pub fn self_closing(tag_text: &str) -> (res: bool)
    ensures
        res == is_self_closing(tag_text@),
{
    has_suffix(trim_end(tag_text, &CharSet::Whitespace), "/")
}

/// Where the subtree ends in whose body `pos` lies, with `depth` tags of its
/// name open: right behind the closing tag that closes the last of them.
/// Self-closing tags open nothing.
pub open spec fn subtree_end(code: Seq<char>, tag: Seq<char>, pos: int, depth: int) -> Option<int>
    decreases utf8(code).len() - pos,
        when 0 <= pos
{
    let b = utf8(code);
    proof {
        lemma_byte_from(b, '<' as u8, pos);
        if let Some(lt) = byte_from(b, '<' as u8, pos) {
            lemma_byte_from(b, '>' as u8, lt);
            lemma_byte_from(b, '>' as u8, lt + 2 + utf8(tag).len());
        }
    }
    match byte_from(b, '<' as u8, pos) {
        None => None,
        Some(lt) => if closes_at(b, lt, utf8(tag)) {
            match byte_from(b, '>' as u8, lt + 2 + utf8(tag).len()) {
                None => None,
                Some(gt) => if depth == 1 {
                    Some(gt + 1)
                } else {
                    subtree_end(code, tag, gt + 1, depth - 1)
                },
            }
        } else if opens_at(b, lt, utf8(tag)) {
            match byte_from(b, '>' as u8, lt) {
                None => None,
                Some(gt) => subtree_end(
                    code,
                    tag,
                    gt + 1,
                    if is_self_closing(cut(code, lt, gt)) {
                        depth
                    } else {
                        depth + 1
                    },
                ),
            }
        } else {
            subtree_end(code, tag, lt + 1, depth)
        },
    }
}

/// A subtree ends behind the start of its body, between two characters.
pub proof fn lemma_subtree_end(code: Seq<char>, tag: Seq<char>, pos: int, depth: int)
    requires
        0 <= pos,
        subtree_end(code, tag, pos, depth) is Some,
    ensures
        pos < subtree_end(code, tag, pos, depth)->0,
        at_boundary(utf8(code), subtree_end(code, tag, pos, depth)->0),
    decreases utf8(code).len() - pos,
{
    let b = utf8(code);
    lemma_byte_from(b, '<' as u8, pos);
    let lt = byte_from(b, '<' as u8, pos)->0;
    lemma_byte_from(b, '>' as u8, lt);
    if closes_at(b, lt, utf8(tag)) {
        lemma_byte_from(b, '>' as u8, lt + 2 + utf8(tag).len());
        let gt = byte_from(b, '>' as u8, lt + 2 + utf8(tag).len())->0;
        lemma_ascii_boundary(code, gt);
        if depth != 1 {
            lemma_subtree_end(code, tag, gt + 1, depth - 1);
        }
    } else if opens_at(b, lt, utf8(tag)) {
        let gt = byte_from(b, '>' as u8, lt)->0;
        if is_self_closing(cut(code, lt, gt)) {
            lemma_subtree_end(code, tag, gt + 1, depth);
        } else {
            lemma_subtree_end(code, tag, gt + 1, depth + 1);
        }
    } else {
        lemma_subtree_end(code, tag, lt + 1, depth);
    }
}

/// A closing tag with this name stands at `at`, and its `>` right before `end`.
pub open spec fn is_closing_span(b: Seq<u8>, at: int, end: int, tag: Seq<u8>) -> bool {
    closes_at(b, at, tag) && byte_from(b, '>' as u8, at + 2 + tag.len()) == Some(end - 1)
}

/// What ends a subtree is a whole closing tag of its name.
pub proof fn law_subtree_ends_with_its_tag(code: Seq<char>, tag: Seq<char>, pos: int, depth: int)
    requires
        0 <= pos,
        subtree_end(code, tag, pos, depth) is Some,
    ensures
        ({
            let end = subtree_end(code, tag, pos, depth)->0;
            exists|at: int| pos <= at && #[trigger] is_closing_span(utf8(code), at, end, utf8(tag))
        }),
    decreases utf8(code).len() - pos,
{
    let b = utf8(code);
    lemma_byte_from(b, '<' as u8, pos);
    let lt = byte_from(b, '<' as u8, pos)->0;
    lemma_byte_from(b, '>' as u8, lt);
    let end = subtree_end(code, tag, pos, depth)->0;
    if closes_at(b, lt, utf8(tag)) {
        lemma_byte_from(b, '>' as u8, lt + 2 + utf8(tag).len());
        let gt = byte_from(b, '>' as u8, lt + 2 + utf8(tag).len())->0;
        if depth != 1 {
            law_subtree_ends_with_its_tag(code, tag, gt + 1, depth - 1);
            let at = choose|at: int|
                gt + 1 <= at && #[trigger] is_closing_span(b, at, end, utf8(tag));
            assert(pos <= at);
        } else {
            assert(is_closing_span(b, lt, end, utf8(tag)));
        }
    } else if opens_at(b, lt, utf8(tag)) {
        let gt = byte_from(b, '>' as u8, lt)->0;
        if is_self_closing(cut(code, lt, gt)) {
            law_subtree_ends_with_its_tag(code, tag, gt + 1, depth);
        } else {
            law_subtree_ends_with_its_tag(code, tag, gt + 1, depth + 1);
        }
    } else {
        law_subtree_ends_with_its_tag(code, tag, lt + 1, depth);
    }
}

/// Whether a closing tag stands at `at`.
fn is_closing_tag(code: &[u8], at: usize, tag: &[u8]) -> (res: bool)
    requires
        at < code@.len(),
    ensures
        res == closes_at(code@, at as int, tag@),
{
    let h: usize = code.len();
    let k: usize = tag.len();
    if !occurs(code, bytes_of("</"), at) {
        return false;
    }
    proof {
        reveal_strlit("</");
        lemma_ascii_text("</"@);
    }
    if !occurs(code, tag, at + 2) {
        return false;
    }
    let next: usize = at + 2 + k;
    next < h && (code[next] == '>' as u8 || code[next] == ' ' as u8 || code[next] == '\t' as u8
        || code[next] == '\n' as u8 || code[next] == '\r' as u8)
}

/// Whether an opening tag stands at `at`.
fn is_opening_tag_named(code: &[u8], at: usize, tag: &[u8]) -> (res: bool)
    requires
        at < code@.len(),
    ensures
        res == opens_at(code@, at as int, tag@),
{
    let h: usize = code.len();
    let k: usize = tag.len();
    if code[at] != '<' as u8 || occurs(code, bytes_of("</"), at) || !occurs(code, tag, at + 1) {
        return false;
    }
    let next: usize = at + 1 + k;
    if next >= h {
        return false;
    }
    let c: u8 = code[next];
    !(('0' as u8 <= c && c <= '9' as u8) || ('a' as u8 <= c && c <= 'z' as u8) || ('A' as u8 <= c
        && c <= 'Z' as u8) || c == '_' as u8 || c == '-' as u8)
}

/// The byte offset right behind the closing tag that matches the opening tag
/// whose body starts at `body_start`.
pub fn find_subtree_end(code: &str, body_start: usize, tag: &str) -> (res: Option<usize>)
    ensures
        match res {
            Some(end) => {
                &&& subtree_end(code@, tag@, body_start as int, 1) == Some(end as int)
                &&& body_start < end
                &&& at_boundary(utf8(code@), end as int)
            },
            None => subtree_end(code@, tag@, body_start as int, 1) is None,
        },
{
    let bytes = bytes_of(code);
    let name = bytes_of(tag);
    let h: usize = bytes.len();
    let mut depth: usize = 1;
    let mut pos: usize = body_start;
    while pos < h
        invariant
            h == bytes@.len(),
            bytes@ == utf8(code@),
            name@ == utf8(tag@),
            body_start <= pos,
            1 <= depth,
            depth <= pos + 1,
            subtree_end(code@, tag@, body_start as int, 1) == subtree_end(
                code@,
                tag@,
                pos as int,
                depth as int,
            ),
        decreases h - pos,
    {
        match find_byte(bytes, '<' as u8, pos) {
            None => {
                return None;
            },
            Some(lt) => {
                if is_closing_tag(bytes, lt, name) {
                    match find_byte(bytes, '>' as u8, lt + 2 + name.len()) {
                        None => {
                            return None;
                        },
                        Some(gt) => {
                            proof {
                                lemma_ascii_boundary(code@, gt as int);
                            }
                            pos = gt + 1;
                            if depth == 1 {
                                return Some(pos);
                            }
                            depth -= 1;
                        },
                    }
                } else if is_opening_tag_named(bytes, lt, name) {
                    match find_byte(bytes, '>' as u8, lt) {
                        None => {
                            return None;
                        },
                        Some(gt) => {
                            proof {
                                lemma_ascii_boundary(code@, lt as int);
                                lemma_ascii_boundary(code@, gt as int);
                            }
                            if !self_closing(slice(code, lt, gt)) {
                                depth += 1;
                            }
                            pos = gt + 1;
                        },
                    }
                } else {
                    pos = lt + 1;
                }
            },
        }
    }
    None
}

// ---------------------------------------------------------------------------
// Top-level functions
// ---------------------------------------------------------------------------

/// What a byte of the source belongs to.
pub enum Region {
    Code,
    /// A string, with the quote that ends it.
    Quoted(u8),
    LineComment,
    BlockComment,
}

/// The byte `c` stands at `i`.
pub open spec fn byte_at(b: Seq<u8>, i: int, c: u8) -> bool {
    0 <= i < b.len() && b[i] == c
}

/// The `}` that brings the depth back to zero, from `i` on in the given
/// region. Braces in strings and comments do not count; a backslash in a
/// string takes the next byte with it.
pub open spec fn closing_brace(b: Seq<u8>, i: int, depth: int, region: Region) -> Option<int>
    decreases b.len() + 1 - i,
{
    if i < 0 || i >= b.len() {
        None
    } else {
        match region {
            Region::LineComment => closing_brace(
                b,
                i + 1,
                depth,
                if b[i] == '\n' as u8 {
                    Region::Code
                } else {
                    region
                },
            ),
            Region::BlockComment => if b[i] == '*' as u8 && byte_at(b, i + 1, '/' as u8) {
                closing_brace(b, i + 2, depth, Region::Code)
            } else {
                closing_brace(b, i + 1, depth, region)
            },
            Region::Quoted(quote) => if b[i] == '\\' as u8 {
                closing_brace(b, i + 2, depth, region)
            } else if b[i] == quote {
                closing_brace(b, i + 1, depth, Region::Code)
            } else {
                closing_brace(b, i + 1, depth, region)
            },
            Region::Code => if b[i] == '"' as u8 || b[i] == '\'' as u8 || b[i] == '`' as u8 {
                closing_brace(b, i + 1, depth, Region::Quoted(b[i]))
            } else if b[i] == '/' as u8 && byte_at(b, i + 1, '/' as u8) {
                closing_brace(b, i + 2, depth, Region::LineComment)
            } else if b[i] == '/' as u8 && byte_at(b, i + 1, '*' as u8) {
                closing_brace(b, i + 2, depth, Region::BlockComment)
            } else if b[i] == '{' as u8 {
                closing_brace(b, i + 1, depth + 1, region)
            } else if b[i] == '}' as u8 {
                if depth == 1 {
                    Some(i)
                } else {
                    closing_brace(b, i + 1, depth - 1, region)
                }
            } else {
                closing_brace(b, i + 1, depth, region)
            },
        }
    }
}

/// A byte of white space.
pub open spec fn is_blank(c: u8) -> bool {
    c == ' ' as u8 || c == '\t' as u8 || c == '\n' as u8 || c == '\r' as u8
}

/// The last byte before `i` that is not blank stands right before the result.
pub open spec fn behind_text(b: Seq<u8>, i: int) -> int
    decreases i,
{
    if 0 < i <= b.len() && is_blank(b[i - 1]) {
        behind_text(b, i - 1)
    } else {
        i
    }
}

/// A colon is the first byte from `i` on that is not blank.
pub open spec fn is_annotated(b: Seq<u8>, i: int) -> bool
    decreases b.len() - i,
{
    if i < 0 || i >= b.len() {
        false
    } else if is_blank(b[i]) {
        is_annotated(b, i + 1)
    } else {
        b[i] == ':' as u8
    }
}

/// A type is still to come before `i`: the text before it ends with one of
/// `:`, `|`, `&`, `<`, `,` and `=>`.
pub open spec fn awaits_type(b: Seq<u8>, i: int) -> bool {
    let k = behind_text(b, i);
    ||| byte_at(b, k - 1, ':' as u8)
    ||| byte_at(b, k - 1, '|' as u8)
    ||| byte_at(b, k - 1, '&' as u8)
    ||| byte_at(b, k - 1, '<' as u8)
    ||| byte_at(b, k - 1, ',' as u8)
    ||| byte_at(b, k - 1, '>' as u8) && byte_at(b, k - 2, '=' as u8)
}

/// The `{` that opens the body of a function, from `i` on, where `depth`
/// parentheses are open: the first outside parentheses that does not open an
/// object type. Those occur where the parameters are followed by a return
/// type, as `typed` says.
pub open spec fn outer_brace(b: Seq<u8>, i: int, depth: int, typed: bool) -> Option<int>
    decreases b.len() - i,
{
    if i < 0 || i >= b.len() {
        None
    } else if b[i] == '(' as u8 {
        outer_brace(b, i + 1, depth + 1, typed)
    } else if b[i] == ')' as u8 {
        outer_brace(b, i + 1, depth - 1, typed || (depth == 1 && is_annotated(b, i + 1)))
    } else if b[i] == '{' as u8 && depth == 0 {
        if typed && awaits_type(b, i) {
            proof {
                if closing_brace(b, i, 0, Region::Code) is Some {
                    lemma_closing_brace(b, i, 0, Region::Code);
                }
            }
            match closing_brace(b, i, 0, Region::Code) {
                None => None,
                Some(close) => outer_brace(b, close + 1, depth, typed),
            }
        } else {
            Some(i)
        }
    } else {
        outer_brace(b, i + 1, depth, typed)
    }
}

/// The byte range of the first top-level function declared by `header` from
/// `from` on: from the start of the header, at the start of a line, to behind
/// its closing brace and the line end that follows.
pub open spec fn function_span(b: Seq<u8>, header: Seq<u8>, from: int) -> Option<(int, int)>
    decreases b.len() - from,
        when 0 <= from && 0 < header.len()
{
    proof {
        lemma_find_from(b, header, from);
    }
    match find_from(b, header, from) {
        None => None,
        Some(at) => if at == 0 || b[at - 1] == '\n' as u8 {
            match outer_brace(b, at + header.len(), 1, false) {
                None => None,
                Some(open) => match closing_brace(b, open, 0, Region::Code) {
                    None => None,
                    Some(close) => if byte_at(b, close + 1, '\n' as u8) {
                        Some((at, close + 2))
                    } else {
                        Some((at, close + 1))
                    },
                },
            }
        } else {
            function_span(b, header, at + header.len())
        },
    }
}

/// The start of the declaration of the function `name`.
pub open spec fn function_header(name: Seq<char>) -> Seq<char> {
    "function "@ + name + "("@
}

/// The byte range of the top-level function `name`.
pub open spec fn top_level_function(code: Seq<char>, name: Seq<char>) -> Option<(int, int)> {
    function_span(utf8(code), utf8(function_header(name)), 0)
}

proof fn lemma_outer_brace(b: Seq<u8>, i: int, depth: int, typed: bool)
    requires
        0 <= i,
        outer_brace(b, i, depth, typed) is Some,
    ensures
        i <= outer_brace(b, i, depth, typed)->0 < b.len(),
    decreases b.len() - i,
{
    if b[i] == '(' as u8 {
        lemma_outer_brace(b, i + 1, depth + 1, typed);
    } else if b[i] == ')' as u8 {
        lemma_outer_brace(
            b,
            i + 1,
            depth - 1,
            typed || (depth == 1 && is_annotated(b, i + 1)),
        );
    } else if b[i] == '{' as u8 && depth == 0 {
        if typed && awaits_type(b, i) {
            lemma_closing_brace(b, i, 0, Region::Code);
            lemma_outer_brace(
                b,
                closing_brace(b, i, 0, Region::Code)->0 + 1,
                depth,
                typed,
            );
        }
    } else {
        lemma_outer_brace(b, i + 1, depth, typed);
    }
}

pub proof fn lemma_closing_brace(b: Seq<u8>, i: int, depth: int, region: Region)
    requires
        0 <= i,
        closing_brace(b, i, depth, region) is Some,
    ensures
        i <= closing_brace(b, i, depth, region)->0 < b.len(),
        b[closing_brace(b, i, depth, region)->0] == '}' as u8,
    decreases b.len() + 1 - i,
{
    let (step, deeper, next) = match region {
        Region::LineComment => (
            1int,
            0int,
            if b[i] == '\n' as u8 {
                Region::Code
            } else {
                region
            },
        ),
        Region::BlockComment => if b[i] == '*' as u8 && byte_at(b, i + 1, '/' as u8) {
            (2, 0, Region::Code)
        } else {
            (1, 0, region)
        },
        Region::Quoted(quote) => if b[i] == '\\' as u8 {
            (2, 0, region)
        } else if b[i] == quote {
            (1, 0, Region::Code)
        } else {
            (1, 0, region)
        },
        Region::Code => if b[i] == '"' as u8 || b[i] == '\'' as u8 || b[i] == '`' as u8 {
            (1, 0, Region::Quoted(b[i]))
        } else if b[i] == '/' as u8 && byte_at(b, i + 1, '/' as u8) {
            (2, 0, Region::LineComment)
        } else if b[i] == '/' as u8 && byte_at(b, i + 1, '*' as u8) {
            (2, 0, Region::BlockComment)
        } else if b[i] == '{' as u8 {
            (1, 1, region)
        } else if b[i] == '}' as u8 {
            (1, -1, region)
        } else {
            (1, 0, region)
        },
    };
    if !(region is Code && b[i] == '}' as u8 && depth == 1) {
        assert(closing_brace(b, i, depth, region) == closing_brace(
            b,
            i + step,
            depth + deeper,
            next,
        ));
        lemma_closing_brace(b, i + step, depth + deeper, next);
    }
}

/// What a byte adds to the depth of the braces.
pub open spec fn brace_depth(c: u8) -> int {
    if c == '{' as u8 {
        1
    } else if c == '}' as u8 {
        -1
    } else {
        0
    }
}

/// How many more braces are opened than closed from `i` up to `j`.
pub open spec fn balance(b: Seq<u8>, i: int, j: int) -> int
    decreases j - i,
{
    if i >= j {
        0
    } else {
        brace_depth(b[i]) + balance(b, i + 1, j)
    }
}

/// No string and no comment starts from `i` up to `j`.
pub open spec fn is_bare(b: Seq<u8>, i: int, j: int) -> bool {
    forall|k: int|
        i <= k < j ==> #[trigger] b[k] != '"' as u8 && b[k] != '\'' as u8 && b[k] != '`' as u8
            && b[k] != '/' as u8
}

proof fn lemma_balance(b: Seq<u8>, i: int, depth: int)
    requires
        0 <= i,
        0 < depth,
        closing_brace(b, i, depth, Region::Code) is Some,
        is_bare(b, i, closing_brace(b, i, depth, Region::Code)->0 + 1),
    ensures
        ({
            let close = closing_brace(b, i, depth, Region::Code)->0;
            &&& i <= close < b.len()
            &&& depth + balance(b, i, close + 1) == 0
            &&& forall|j: int| i <= j <= close ==> depth + #[trigger] balance(b, i, j) > 0
        }),
    decreases b.len() - i,
{
    let close = closing_brace(b, i, depth, Region::Code)->0;
    lemma_closing_brace(b, i, depth, Region::Code);
    assert(b[i] != '/' as u8);
    let next = depth + brace_depth(b[i]);
    if next > 0 {
        assert(closing_brace(b, i, depth, Region::Code) == closing_brace(
            b,
            i + 1,
            next,
            Region::Code,
        ));
        lemma_balance(b, i + 1, next);
        assert forall|j: int| i <= j <= close implies depth + #[trigger] balance(b, i, j) > 0 by {
            if j > i {
                assert(next + balance(b, i + 1, j) > 0);
            }
        }
    } else {
        assert(close == i);
        assert(balance(b, i + 1, i + 1) == 0);
    }
}

/// In code without strings and comments, the brace that matches an opening one
/// is the first behind it up to which as many are closed as are opened.
pub proof fn law_braces_balance(b: Seq<u8>, open: int)
    requires
        0 <= open < b.len(),
        b[open] == '{' as u8,
        closing_brace(b, open, 0, Region::Code) is Some,
        is_bare(b, open, closing_brace(b, open, 0, Region::Code)->0 + 1),
    ensures
        ({
            let close = closing_brace(b, open, 0, Region::Code)->0;
            &&& open < close < b.len()
            &&& balance(b, open, close + 1) == 0
            &&& forall|j: int| open < j <= close ==> #[trigger] balance(b, open, j) > 0
        }),
{
    let close = closing_brace(b, open, 0, Region::Code)->0;
    assert(closing_brace(b, open, 0, Region::Code) == closing_brace(
        b,
        open + 1,
        1,
        Region::Code,
    ));
    lemma_balance(b, open + 1, 1);
    assert forall|j: int| open < j <= close implies #[trigger] balance(b, open, j) > 0 by {
        assert(1 + balance(b, open + 1, j) > 0);
    }
}

proof fn lemma_function_span(code: Seq<char>, header: Seq<u8>, from: int)
    requires
        0 <= from,
        0 < header.len(),
        header[0] < 0x80,
        function_span(utf8(code), header, from) is Some,
    ensures
        ({
            let (start, end) = function_span(utf8(code), header, from)->0;
            &&& 0 <= start < end
            &&& at_boundary(utf8(code), start)
            &&& at_boundary(utf8(code), end)
        }),
    decreases utf8(code).len() - from,
{
    let b = utf8(code);
    lemma_find_from(b, header, from);
    let at = find_from(b, header, from)->0;
    assert(b.subrange(at, at + header.len() as int)[0] == b[at]);
    if at == 0 || b[at - 1] == '\n' as u8 {
        let open = outer_brace(b, at + header.len(), 1, false)->0;
        lemma_outer_brace(b, at + header.len(), 1, false);
        lemma_closing_brace(b, open, 0, Region::Code);
        let close = closing_brace(b, open, 0, Region::Code)->0;
        lemma_ascii_boundary(code, at);
        lemma_ascii_boundary(code, close);
        if byte_at(b, close + 1, '\n' as u8) {
            lemma_ascii_boundary(code, close + 1);
        }
    } else {
        lemma_function_span(code, header, at + header.len());
    }
}

/// A top-level function takes up bytes of the code, between characters.
pub proof fn lemma_top_level_function(code: Seq<char>, name: Seq<char>)
    requires
        top_level_function(code, name) is Some,
    ensures
        ({
            let (start, end) = top_level_function(code, name)->0;
            &&& 0 <= start < end
            &&& at_boundary(utf8(code), start)
            &&& at_boundary(utf8(code), end)
        }),
{
    reveal_strlit("function ");
    lemma_ascii_text("function "@);
    lemma_utf8_concat("function "@, name);
    lemma_utf8_concat("function "@ + name, "("@);
    assert(utf8(function_header(name))[0] == utf8("function "@)[0]);
    lemma_function_span(code, utf8(function_header(name)), 0);
}

fn is_blank_byte(c: u8) -> (res: bool)
    ensures
        res == is_blank(c),
{
    c == ' ' as u8 || c == '\t' as u8 || c == '\n' as u8 || c == '\r' as u8
}

fn colon_follows(bytes: &[u8], from: usize) -> (res: bool)
    ensures
        res == is_annotated(bytes@, from as int),
{
    let h: usize = bytes.len();
    let mut i: usize = from;
    while i < h && is_blank_byte(bytes[i])
        invariant
            h == bytes@.len(),
            is_annotated(bytes@, from as int) == is_annotated(bytes@, i as int),
        decreases h - i,
    {
        i += 1;
    }
    i < h && bytes[i] == ':' as u8
}

fn type_is_awaited(bytes: &[u8], at: usize) -> (res: bool)
    requires
        at <= bytes@.len(),
    ensures
        res == awaits_type(bytes@, at as int),
{
    let h: usize = bytes.len();
    let mut k: usize = at;
    while k > 0 && is_blank_byte(bytes[k - 1])
        invariant
            k <= at <= h,
            h == bytes@.len(),
            behind_text(bytes@, at as int) == behind_text(bytes@, k as int),
        decreases k,
    {
        k -= 1;
    }
    if k == 0 {
        return false;
    }
    let c: u8 = bytes[k - 1];
    c == ':' as u8 || c == '|' as u8 || c == '&' as u8 || c == '<' as u8 || c == ',' as u8 || (c
        == '>' as u8 && k > 1 && bytes[k - 2] == '=' as u8)
}

/// The `{` that opens the body of a function, starting behind the `(` of its
/// parameters: behind them and the return type.
pub fn find_outer_brace(bytes: &[u8], from: usize) -> (res: Option<usize>)
    ensures
        match res {
            Some(i) => outer_brace(bytes@, from as int, 1, false) == Some(i as int) && from <= i
                < bytes@.len(),
            None => outer_brace(bytes@, from as int, 1, false) is None,
        },
{
    let h: usize = bytes.len();
    let mut depth: i128 = 1;
    let mut typed = false;
    let mut i: usize = from;
    while i < h
        invariant
            h == bytes@.len(),
            from <= i,
            -(i - from) <= depth <= i - from + 1,
            outer_brace(bytes@, from as int, 1, false) == outer_brace(
                bytes@,
                i as int,
                depth as int,
                typed,
            ),
        decreases h - i,
    {
        let b: u8 = bytes[i];
        if b == '(' as u8 {
            depth += 1;
        } else if b == ')' as u8 {
            if depth == 1 && colon_follows(bytes, i + 1) {
                typed = true;
            }
            depth -= 1;
        } else if b == '{' as u8 && depth == 0 {
            if !(typed && type_is_awaited(bytes, i)) {
                return Some(i);
            }
            match find_matching_brace(bytes, i) {
                None => {
                    return None;
                },
                Some(close) => {
                    i = close;
                },
            }
        }
        i += 1;
    }
    None
}

/// The `}` that matches the `{` at `open_idx`.
pub fn find_matching_brace(bytes: &[u8], open_idx: usize) -> (res: Option<usize>)
    ensures
        match res {
            Some(i) => closing_brace(bytes@, open_idx as int, 0, Region::Code) == Some(i as int)
                && open_idx <= i < bytes@.len() && bytes@[i as int] == '}' as u8,
            None => closing_brace(bytes@, open_idx as int, 0, Region::Code) is None,
        },
{
    let h: usize = bytes.len();
    let mut depth: i128 = 0;
    let mut region = Region::Code;
    let mut i: usize = open_idx;
    while i < h
        invariant
            h == bytes@.len(),
            open_idx <= i,
            -(i - open_idx) <= depth <= i - open_idx,
            closing_brace(bytes@, open_idx as int, 0, Region::Code) == closing_brace(
                bytes@,
                i as int,
                depth as int,
                region,
            ),
        decreases h - i,
    {
        let b: u8 = bytes[i];
        let mut step: usize = 1;
        match region {
            Region::LineComment => {
                if b == '\n' as u8 {
                    region = Region::Code;
                }
            },
            Region::BlockComment => {
                if b == '*' as u8 && i + 1 < h && bytes[i + 1] == '/' as u8 {
                    region = Region::Code;
                    step = 2;
                }
            },
            Region::Quoted(quote) => {
                if b == '\\' as u8 {
                    step = 2;
                } else if b == quote {
                    region = Region::Code;
                }
            },
            Region::Code => {
                if b == '"' as u8 || b == '\'' as u8 || b == '`' as u8 {
                    region = Region::Quoted(b);
                } else if b == '/' as u8 && i + 1 < h && bytes[i + 1] == '/' as u8 {
                    region = Region::LineComment;
                    step = 2;
                } else if b == '/' as u8 && i + 1 < h && bytes[i + 1] == '*' as u8 {
                    region = Region::BlockComment;
                    step = 2;
                } else if b == '{' as u8 {
                    depth += 1;
                } else if b == '}' as u8 {
                    if depth == 1 {
                        return Some(i);
                    }
                    depth -= 1;
                }
            },
        }
        if step > h - i {
            assert(closing_brace(bytes@, i + 2, depth as int, region) is None);
            return None;
        }
        i += step;
    }
    None
}

/// The byte range of the top-level declaration of the function `name`, with
/// the line end that follows it.
pub fn find_top_level_function(code: &str, name: &str) -> (res: Option<(usize, usize)>)
    ensures
        match res {
            Some((start, end)) => {
                &&& top_level_function(code@, name@) == Some((start as int, end as int))
                &&& start < end
                &&& at_boundary(utf8(code@), start as int)
                &&& at_boundary(utf8(code@), end as int)
            },
            None => top_level_function(code@, name@) is None,
        },
{
    let mut text: String = "function ".to_string();
    text.append(name);
    text.append("(");
    let header = bytes_of(text.as_str());
    let bytes = bytes_of(code);
    let h: usize = bytes.len();
    let k: usize = header.len();
    proof {
        reveal_strlit("function ");
        lemma_ascii_text("function "@);
        lemma_utf8_concat("function "@, name@);
        lemma_utf8_concat("function "@ + name@, "("@);
        assert(header@[0] == utf8("function "@)[0]);
    }
    let mut from: usize = 0;
    loop
        invariant
            h == bytes@.len(),
            k == header@.len(),
            k > 0,
            header@[0] == 'f' as u8,
            bytes@ == utf8(code@),
            header@ == utf8(function_header(name@)),
            top_level_function(code@, name@) == function_span(bytes@, header@, from as int),
            from <= h,
        decreases h - from,
    {
        match find(bytes, header, from) {
            None => {
                return None;
            },
            Some(at) => {
                proof {
                    lemma_find_from(bytes@, header@, from as int);
                    assert(bytes@.subrange(at as int, at + k)[0] == bytes@[at as int]);
                }
                if at == 0 || bytes[at - 1] == '\n' as u8 {
                    return match find_outer_brace(bytes, at + k) {
                        None => None,
                        Some(open) => match find_matching_brace(bytes, open) {
                            None => None,
                            Some(close) => {
                                proof {
                                    lemma_ascii_boundary(code@, at as int);
                                    lemma_ascii_boundary(code@, close as int);
                                }
                                if close + 1 < h && bytes[close + 1] == '\n' as u8 {
                                    proof {
                                        lemma_ascii_boundary(code@, close + 1);
                                    }
                                    Some((at, close + 2))
                                } else {
                                    Some((at, close + 1))
                                }
                            },
                        },
                    };
                }
                from = at + k;
            },
        }
    }
}

// ---------------------------------------------------------------------------
// The tags of a subtree
// ---------------------------------------------------------------------------

/// The tags of one name in a part of the code, as they come: where each starts
/// and where each ends.
pub struct Tags {
    pub starts: Seq<int>,
    pub ends: Seq<int>,
}

/// An opening or a closing tag of the name stands at `at`.
pub open spec fn is_tag(b: Seq<u8>, at: int, tag: Seq<u8>) -> bool {
    opens_at(b, at, tag) || closes_at(b, at, tag)
}

/// The tag that starts at `at` ends at `end`: its `>` stands right before, and
/// none before that.
pub open spec fn is_tag_span(b: Seq<u8>, at: int, end: int, tag: Seq<u8>) -> bool {
    let from = if closes_at(b, at, tag) {
        at + 2 + tag.len()
    } else {
        at
    };
    &&& is_tag(b, at, tag)
    &&& from < end <= b.len()
    &&& b[end - 1] == '>' as u8
    &&& forall|k: int| from <= k < end - 1 ==> b[k] != '>' as u8
}

/// Where the code goes on behind the first `i` tags.
pub open spec fn behind(t: Tags, pos: int, i: int) -> int {
    if i == 0 {
        pos
    } else {
        t.ends[i - 1]
    }
}

/// These are all the tags of the name from `pos` up to the end of the last of
/// them. What stands inside a tag is no tag.
pub open spec fn are_tags(b: Seq<u8>, tag: Seq<u8>, pos: int, t: Tags) -> bool {
    &&& t.starts.len() == t.ends.len()
    &&& forall|i: int|
        0 <= i < t.starts.len() ==> is_tag_span(b, #[trigger] t.starts[i], t.ends[i], tag) && behind(
            t,
            pos,
            i,
        ) <= t.starts[i]
    &&& forall|i: int, k: int|
        0 <= i < t.starts.len() && behind(t, pos, i) <= k < #[trigger] t.starts[i]
            ==> !#[trigger] is_tag(b, k, tag)
}

/// The tag opens an element: it is an opening tag that does not close itself.
pub open spec fn opens_element(code: Seq<char>, tag: Seq<char>, at: int, end: int) -> bool {
    opens_at(utf8(code), at, utf8(tag)) && !is_self_closing(cut(code, at, end - 1))
}

/// How many of the first `n` tags open an element.
pub open spec fn opened(code: Seq<char>, tag: Seq<char>, t: Tags, n: int) -> int
    decreases n,
{
    if n <= 0 {
        0
    } else {
        opened(code, tag, t, n - 1) + if opens_element(code, tag, t.starts[n - 1], t.ends[n - 1]) {
            1int
        } else {
            0
        }
    }
}

/// How many of the first `n` tags close an element.
pub open spec fn closed(code: Seq<char>, tag: Seq<char>, t: Tags, n: int) -> int
    decreases n,
{
    if n <= 0 {
        0
    } else {
        closed(code, tag, t, n - 1) + if closes_at(utf8(code), t.starts[n - 1], utf8(tag)) {
            1int
        } else {
            0
        }
    }
}

/// With `depth` elements open at `pos`, the last of the tags is the first one
/// at which as many are closed as were open and have been opened.
pub open spec fn all_closed(
    code: Seq<char>,
    tag: Seq<char>,
    pos: int,
    depth: int,
    t: Tags,
    end: int,
) -> bool {
    let n = t.starts.len() as int;
    &&& are_tags(utf8(code), utf8(tag), pos, t)
    &&& n > 0
    &&& end == t.ends[n - 1]
    &&& closed(code, tag, t, n) == opened(code, tag, t, n) + depth
    &&& forall|i: int|
        0 <= i < n ==> #[trigger] closed(code, tag, t, i) < opened(code, tag, t, i) + depth
}

/// The tags without the first.
spec fn rest_of(t: Tags) -> Tags {
    Tags { starts: t.starts.drop_first(), ends: t.ends.drop_first() }
}

proof fn lemma_counts_of_rest(code: Seq<char>, tag: Seq<char>, t: Tags, n: int)
    requires
        0 <= n < t.starts.len(),
        t.starts.len() == t.ends.len(),
    ensures
        opened(code, tag, t, n + 1) == opened(code, tag, rest_of(t), n) + (if opens_element(
            code,
            tag,
            t.starts[0],
            t.ends[0],
        ) {
            1int
        } else {
            0
        }),
        closed(code, tag, t, n + 1) == closed(code, tag, rest_of(t), n) + (if closes_at(
            utf8(code),
            t.starts[0],
            utf8(tag),
        ) {
            1int
        } else {
            0
        }),
    decreases n,
{
    if n > 0 {
        lemma_counts_of_rest(code, tag, t, n - 1);
        assert(rest_of(t).starts[n - 1] == t.starts[n]);
        assert(rest_of(t).ends[n - 1] == t.ends[n]);
    } else {
        assert(opened(code, tag, t, 0) == 0 && closed(code, tag, t, 0) == 0);
    }
}

/// Where no tag of the name starts before `at`, the search goes on there.
pub proof fn lemma_no_tag_before(code: Seq<char>, tag: Seq<char>, pos: int, at: int, depth: int)
    requires
        0 <= pos <= at,
        forall|k: int| pos <= k < at ==> !#[trigger] is_tag(utf8(code), k, utf8(tag)),
    ensures
        subtree_end(code, tag, pos, depth) == subtree_end(code, tag, at, depth),
    decreases at - pos,
{
    let b = utf8(code);
    if pos < at {
        assert(!is_tag(b, pos, utf8(tag)));
        lemma_no_tag_before(code, tag, pos + 1, at, depth);
        lemma_byte_from(b, '<' as u8, pos);
        lemma_byte_from(b, '<' as u8, pos + 1);
        if pos < b.len() && b[pos] != '<' as u8 {
            assert(byte_from(b, '<' as u8, pos) == byte_from(b, '<' as u8, pos + 1));
        }
    }
}

pub proof fn lemma_tag_stands(b: Seq<u8>, at: int, tag: Seq<u8>)
    requires
        is_tag(b, at, tag),
    ensures
        0 <= at < b.len(),
        b[at] == '<' as u8,
        !(opens_at(b, at, tag) && closes_at(b, at, tag)),
{
    reveal_strlit("</");
    lemma_ascii_text("</"@);
    if closes_at(b, at, tag) {
        assert(b.subrange(at, at + 2)[0] == b[at]);
    }
}

pub proof fn lemma_tag_step(code: Seq<char>, tag: Seq<char>, at: int, end: int, depth: int)
    requires
        is_tag_span(utf8(code), at, end, utf8(tag)),
    ensures
        closes_at(utf8(code), at, utf8(tag)) && depth == 1 ==> subtree_end(code, tag, at, depth)
            == Some(end),
        closes_at(utf8(code), at, utf8(tag)) && depth != 1 ==> subtree_end(code, tag, at, depth)
            == subtree_end(code, tag, end, depth - 1),
        !closes_at(utf8(code), at, utf8(tag)) ==> subtree_end(code, tag, at, depth) == subtree_end(
            code,
            tag,
            end,
            depth + if opens_element(code, tag, at, end) {
                1int
            } else {
                0
            },
        ),
{
    let b = utf8(code);
    lemma_tag_stands(b, at, utf8(tag));
    lemma_byte_from(b, '<' as u8, at);
    assert(byte_from(b, '<' as u8, at) == Some(at));
    let from = if closes_at(b, at, utf8(tag)) {
        at + 2 + utf8(tag).len()
    } else {
        at
    };
    lemma_byte_from(b, '>' as u8, from);
    assert(byte_from(b, '>' as u8, from) == Some(end - 1));
}

proof fn lemma_ends_when_closed(
    code: Seq<char>,
    tag: Seq<char>,
    pos: int,
    depth: int,
    t: Tags,
    end: int,
)
    requires
        0 <= pos,
        all_closed(code, tag, pos, depth, t, end),
    ensures
        subtree_end(code, tag, pos, depth) == Some(end),
    decreases t.starts.len(),
{
    let b = utf8(code);
    let n = t.starts.len() as int;
    let (at, to) = (t.starts[0], t.ends[0]);
    let r = rest_of(t);
    assert(is_tag_span(b, at, to, utf8(tag)));
    assert(behind(t, pos, 0) == pos);
    lemma_no_tag_before(code, tag, pos, at, depth);
    lemma_tag_step(code, tag, at, to, depth);
    lemma_tag_stands(b, at, utf8(tag));
    lemma_counts_of_rest(code, tag, t, 0);
    assert(closed(code, tag, t, 0) == 0 && opened(code, tag, t, 0) == 0);
    assert(closed(code, tag, r, 0) == 0 && opened(code, tag, r, 0) == 0);
    if n == 1 {
        assert(closes_at(b, at, utf8(tag)) && depth == 1);
    } else {
        let next = depth + opened(code, tag, t, 1) - closed(code, tag, t, 1);
        assert(closed(code, tag, t, 1) < opened(code, tag, t, 1) + depth);
        assert(are_tags(b, utf8(tag), to, r)) by {
            assert forall|i: int| 0 <= i < r.starts.len() implies is_tag_span(
                b,
                #[trigger] r.starts[i],
                r.ends[i],
                utf8(tag),
            ) && behind(r, to, i) <= r.starts[i] by {
                assert(r.starts[i] == t.starts[i + 1] && r.ends[i] == t.ends[i + 1]);
                assert(behind(r, to, i) == behind(t, pos, i + 1));
            }
            assert forall|i: int, k: int|
                0 <= i < r.starts.len() && behind(r, to, i) <= k
                    < #[trigger] r.starts[i] implies !#[trigger] is_tag(b, k, utf8(tag)) by {
                assert(r.starts[i] == t.starts[i + 1]);
                assert(behind(r, to, i) == behind(t, pos, i + 1));
            }
        }
        lemma_counts_of_rest(code, tag, t, n - 1);
        assert forall|i: int| 0 <= i < n - 1 implies #[trigger] closed(code, tag, r, i) < opened(
            code,
            tag,
            r,
            i,
        ) + next by {
            lemma_counts_of_rest(code, tag, t, i);
            assert(closed(code, tag, t, i + 1) < opened(code, tag, t, i + 1) + depth);
        }
        lemma_ends_when_closed(code, tag, to, next, r, end);
    }
}

proof fn find_tags(code: Seq<char>, tag: Seq<char>, pos: int, depth: int) -> (t: Tags)
    requires
        0 <= pos,
        1 <= depth,
        subtree_end(code, tag, pos, depth) is Some,
    ensures
        all_closed(code, tag, pos, depth, t, subtree_end(code, tag, pos, depth)->0),
    decreases utf8(code).len() - pos,
{
    let b = utf8(code);
    let name = utf8(tag);
    let end = subtree_end(code, tag, pos, depth)->0;
    lemma_byte_from(b, '<' as u8, pos);
    let lt = byte_from(b, '<' as u8, pos)->0;
    assert forall|k: int| pos <= k < lt implies !#[trigger] is_tag(b, k, name) by {
        if is_tag(b, k, name) {
            lemma_tag_stands(b, k, name);
        }
    }
    if is_tag(b, lt, name) {
        lemma_tag_stands(b, lt, name);
        let from = if closes_at(b, lt, name) {
            lt + 2 + name.len()
        } else {
            lt
        };
        lemma_byte_from(b, '>' as u8, from);
        let to = byte_from(b, '>' as u8, from)->0 + 1;
        assert(b[lt] == '<' as u8 && b[to - 1] == '>' as u8);
        assert(is_tag_span(b, lt, to, name));
        if closes_at(b, lt, name) && depth == 1 {
            let t = Tags { starts: seq![lt], ends: seq![to] };
            assert(closed(code, tag, t, 0) == 0 && opened(code, tag, t, 0) == 0);
            assert(closed(code, tag, t, 1) == 1 && opened(code, tag, t, 1) == 0);
            t
        } else {
            lemma_tag_step(code, tag, lt, to, depth);
            let next = if closes_at(b, lt, name) {
                depth - 1
            } else if opens_element(code, tag, lt, to) {
                depth + 1
            } else {
                depth
            };
            assert(subtree_end(code, tag, lt, depth) == subtree_end(code, tag, pos, depth)) by {
                lemma_no_tag_before(code, tag, pos, lt, depth);
            }
            let r = find_tags(code, tag, to, next);
            let t = Tags { starts: seq![lt] + r.starts, ends: seq![to] + r.ends };
            let n = t.starts.len() as int;
            assert(rest_of(t).starts =~= r.starts);
            assert(rest_of(t).ends =~= r.ends);
            assert(are_tags(b, name, pos, t)) by {
                assert forall|i: int| 0 <= i < t.starts.len() implies is_tag_span(
                    b,
                    #[trigger] t.starts[i],
                    t.ends[i],
                    name,
                ) && behind(t, pos, i) <= t.starts[i] by {
                    if i > 0 {
                        assert(t.starts[i] == r.starts[i - 1] && t.ends[i] == r.ends[i - 1]);
                        assert(behind(t, pos, i) == behind(r, to, i - 1));
                    }
                }
                assert forall|i: int, k: int|
                    0 <= i < t.starts.len() && behind(t, pos, i) <= k
                        < #[trigger] t.starts[i] implies !#[trigger] is_tag(b, k, name) by {
                    if i > 0 {
                        assert(t.starts[i] == r.starts[i - 1]);
                        assert(behind(t, pos, i) == behind(r, to, i - 1));
                    }
                }
            }
            lemma_counts_of_rest(code, tag, t, n - 1);
            assert forall|i: int| 0 <= i < n implies #[trigger] closed(code, tag, t, i) < opened(
                code,
                tag,
                t,
                i,
            ) + depth by {
                if i > 0 {
                    lemma_counts_of_rest(code, tag, t, i - 1);
                    assert(closed(code, tag, r, i - 1) < opened(code, tag, r, i - 1) + next);
                }
            }
            assert(t.ends[n - 1] == r.ends[n - 2]);
            t
        }
    } else {
        assert(subtree_end(code, tag, pos, depth) == subtree_end(code, tag, lt + 1, depth));
        let t = find_tags(code, tag, lt + 1, depth);
        assert(are_tags(b, name, pos, t)) by {
            assert forall|i: int| 0 <= i < t.starts.len() implies is_tag_span(
                b,
                #[trigger] t.starts[i],
                t.ends[i],
                name,
            ) && behind(t, pos, i) <= t.starts[i] by {
                assert(behind(t, lt + 1, i) <= t.starts[i]);
            }
            assert forall|i: int, k: int|
                0 <= i < t.starts.len() && behind(t, pos, i) <= k
                    < #[trigger] t.starts[i] implies !#[trigger] is_tag(b, k, name) by {
                if i > 0 {
                    assert(behind(t, lt + 1, i) == behind(t, pos, i));
                } else if k > lt {
                    assert(behind(t, lt + 1, 0) <= k);
                }
            }
        }
        t
    }
}

/// A subtree ends with the closing tag that matches: counted over all the tags
/// of its name from the start of its body, it is the first at which as many
/// elements are closed as were open and have been opened. Where there is no
/// such tag the subtree does not end.
pub proof fn law_subtree_ends_where_all_is_closed(
    code: Seq<char>,
    tag: Seq<char>,
    pos: int,
    depth: int,
)
    requires
        0 <= pos,
        1 <= depth,
    ensures
        forall|t: Tags, end: int|
            #[trigger] all_closed(code, tag, pos, depth, t, end) ==> subtree_end(
                code,
                tag,
                pos,
                depth,
            ) == Some(end),
        subtree_end(code, tag, pos, depth) matches Some(end) ==> exists|t: Tags|
            #[trigger] all_closed(code, tag, pos, depth, t, end),
{
    assert forall|t: Tags, end: int|
        #[trigger] all_closed(code, tag, pos, depth, t, end) implies subtree_end(
        code,
        tag,
        pos,
        depth,
    ) == Some(end) by {
        lemma_ends_when_closed(code, tag, pos, depth, t, end);
    }
    if subtree_end(code, tag, pos, depth) is Some {
        let t = find_tags(code, tag, pos, depth);
        assert(all_closed(code, tag, pos, depth, t, subtree_end(code, tag, pos, depth)->0));
    }
}

// ---------------------------------------------------------------------------
// Where attributes and functions are found
// ---------------------------------------------------------------------------

/// An occurrence that does not start a word is passed over.
proof fn lemma_value_span(b: Seq<u8>, needle: Seq<u8>, from: int, at: int)
    requires
        0 <= from <= at,
        0 < needle.len(),
        occurs_at(b, needle, at),
        forall|j: int|
            from <= j < at && #[trigger] occurs_at(b, needle, j) ==> j + needle.len() <= at && j > 0
                && !precedes_name(b[j - 1]),
    ensures
        value_span(b, needle, from) == value_span(b, needle, at),
    decreases at - from,
{
    lemma_find_from(b, needle, from);
    lemma_find_from(b, needle, at);
    let first = find_from(b, needle, from)->0;
    if first < at {
        lemma_value_span(b, needle, first + needle.len(), at);
    }
}

proof fn lemma_no_value_span(b: Seq<u8>, needle: Seq<u8>, from: int)
    requires
        0 <= from,
        0 < needle.len(),
        forall|j: int|
            from <= j && #[trigger] occurs_at(b, needle, j) ==> j > 0 && !precedes_name(b[j - 1]),
    ensures
        value_span(b, needle, from) is None,
    decreases b.len() - from,
{
    lemma_find_from(b, needle, from);
    if let Some(first) = find_from(b, needle, from) {
        lemma_no_value_span(b, needle, first + needle.len());
    }
}

proof fn lemma_last_byte(a: Seq<char>)
    requires
        a.len() > 0,
        is_ascii_chars(seq![a.last()]),
    ensures
        utf8(a).len() > 0,
        utf8(a).last() == a.last() as u8,
{
    let one = seq![a.last()];
    lemma_ascii_text(one);
    lemma_utf8_concat(a.drop_last(), one);
    assert(a.drop_last() + one =~= a);
}

/// The value of an attribute is what stands between its quotes. The attribute
/// stands at the start or behind a blank or an angle bracket: one whose name
/// only ends with the name that is looked for is passed over.
pub proof fn law_attribute(a: Seq<char>, name: Seq<char>, value: Seq<char>, rest: Seq<char>)
    requires
        a.len() == 0 || a.last() == ' ' || a.last() == '\t' || a.last() == '\n' || a.last() == '\r'
            || a.last() == '<' || a.last() == '>',
        !value.contains('"'),
        ({
            let b = utf8(a + name + "=\""@ + value + "\""@ + rest);
            let needle = utf8(name + "=\""@);
            forall|j: int|
                0 <= j < utf8(a).len() && #[trigger] occurs_at(b, needle, j) ==> j + needle.len()
                    <= utf8(a).len() && j > 0 && !precedes_name(b[j - 1])
        }),
    ensures
        attribute(a + name + "=\""@ + value + "\""@ + rest, name) == Some(value),
{
    reveal_strlit("=\"");
    reveal_strlit("\"");
    lemma_ascii_text("=\""@);
    lemma_ascii_text("\""@);
    let key = name + "=\""@;
    let attrs = a + name + "=\""@ + value + "\""@ + rest;
    let (b, needle) = (utf8(attrs), utf8(key));
    lemma_utf8_concat(name, "=\""@);
    assert(attrs =~= a + (key + value + "\""@ + rest));
    lemma_utf8_concat(a, key + value + "\""@ + rest);
    lemma_utf8_concat(key + value + "\""@, rest);
    lemma_utf8_concat(key + value, "\""@);
    lemma_utf8_concat(key, value);
    let at = utf8(a).len() as int;
    let k = needle.len() as int;
    let v = utf8(value).len() as int;
    assert(b.subrange(at, at + k) =~= needle);
    assert(occurs_at(b, needle, at));
    if a.len() > 0 {
        lemma_last_byte(a);
        assert(b[at - 1] == utf8(a).last());
    }
    lemma_value_span(b, needle, 0, at);
    lemma_find_from(b, needle, at);
    assert(find_from(b, needle, at) == Some(at));
    lemma_byte_from(b, '"' as u8, at + k);
    assert(b[at + k + v] == '"' as u8);
    assert forall|j: int| at + k <= j < at + k + v implies b[j] != '"' as u8 by {
        assert(b[j] == utf8(value)[j - at - k]);
        if utf8(value)[j - at - k] == '"' as u8 {
            law_ascii_byte_is_char(value, j - at - k);
        }
    }
    assert(byte_from(b, '"' as u8, at + k) == Some(at + k + v));
    law_cut_between(a + key, value, "\""@ + rest);
    assert(a + key + value + ("\""@ + rest) =~= attrs);
    lemma_utf8_concat(a, key);
    lemma_utf8_concat(a + key, value);
}

/// An attribute whose name stands nowhere at the start of a word is missing.
pub proof fn law_attribute_is_missing(attrs: Seq<char>, name: Seq<char>)
    requires
        forall|j: int| #[trigger]
            occurs_at(utf8(attrs), utf8(name + "=\""@), j) ==> j > 0 && !precedes_name(
                utf8(attrs)[j - 1],
            ),
    ensures
        attribute(attrs, name) is None,
{
    reveal_strlit("=\"");
    lemma_ascii_text("=\""@);
    lemma_utf8_concat(name, "=\""@);
    lemma_no_value_span(utf8(attrs), utf8(name + "=\""@), 0);
}

/// A tag closes itself exactly where a slash stands last in it, but for white
/// space.
pub proof fn law_self_closing(text: Seq<char>, blank: Seq<char>)
    requires
        all_in(blank, CharSet::Whitespace),
    ensures
        is_self_closing(text + "/"@ + blank),
        text.len() > 0 && text.last() != '/' && !is_space(text.last()) ==> !is_self_closing(
            text + blank,
        ),
{
    reveal_strlit("/");
    let s = text + "/"@;
    law_without_tail(s, blank, CharSet::Whitespace);
    assert(s.subrange(s.len() - 1, s.len() as int) =~= "/"@);
    if text.len() > 0 && text.last() != '/' && !is_space(text.last()) {
        law_without_tail(text, blank, CharSet::Whitespace);
        if ends_with(text, "/"@) {
            assert(text.subrange(text.len() - 1, text.len() as int)[0] == text.last());
        }
    }
}

/// In parentheses everything is passed over but parentheses.
proof fn lemma_in_parentheses(b: Seq<u8>, i: int, j: int, depth: int, typed: bool)
    requires
        0 <= i <= j <= b.len(),
        depth > 0,
        forall|k: int| i <= k < j ==> b[k] != '(' as u8 && b[k] != ')' as u8,
    ensures
        outer_brace(b, i, depth, typed) == outer_brace(b, j, depth, typed),
    decreases j - i,
{
    if i < j {
        lemma_in_parentheses(b, i + 1, j, depth, typed);
    }
}

/// Outside parentheses everything is passed over but parentheses and braces.
proof fn lemma_outside_parentheses(b: Seq<u8>, i: int, j: int, typed: bool)
    requires
        0 <= i <= j <= b.len(),
        forall|k: int| i <= k < j ==> b[k] != '(' as u8 && b[k] != ')' as u8 && b[k] != '{' as u8,
    ensures
        outer_brace(b, i, 0, typed) == outer_brace(b, j, 0, typed),
    decreases j - i,
{
    if i < j {
        lemma_outside_parentheses(b, i + 1, j, typed);
    }
}

proof fn lemma_annotated(b: Seq<u8>, i: int, k: int)
    requires
        0 <= i <= k < b.len(),
        forall|j: int| i <= j < k ==> is_blank(#[trigger] b[j]),
        !is_blank(b[k]),
    ensures
        is_annotated(b, i) == (b[k] == ':' as u8),
    decreases k - i,
{
    if i < k {
        lemma_annotated(b, i + 1, k);
    }
}

proof fn lemma_behind_text(b: Seq<u8>, i: int, k: int)
    requires
        0 < k <= i <= b.len(),
        forall|j: int| k <= j < i ==> is_blank(#[trigger] b[j]),
        !is_blank(b[k - 1]),
    ensures
        behind_text(b, i) == k,
    decreases i - k,
{
    if k < i {
        assert(is_blank(b[i - 1]));
        lemma_behind_text(b, i - 1, k);
    }
}

/// The first brace that can open the body of a function: behind the parameters
/// from `i` up to the `)` at `close`, which hold no parentheses, and then behind
/// blanks, or behind a return type that is complete.
pub proof fn law_body_brace(b: Seq<u8>, i: int, close: int, open: int)
    requires
        0 <= i <= close < open < b.len(),
        forall|k: int| i <= k < close ==> b[k] != '(' as u8 && b[k] != ')' as u8,
        b[close] == ')' as u8,
        forall|k: int|
            close < k < open ==> b[k] != '(' as u8 && b[k] != ')' as u8 && b[k] != '{' as u8,
        b[open] == '{' as u8,
        (forall|k: int| close < k < open ==> is_blank(#[trigger] b[k])) || exists|k: int|
            {
                &&& close + 1 < k < open
                &&& !is_blank(#[trigger] b[k])
                &&& forall|j: int| k < j < open ==> is_blank(#[trigger] b[j])
                &&& b[k] != ':' as u8 && b[k] != '|' as u8 && b[k] != '&' as u8 && b[k] != '<' as u8
                    && b[k] != ',' as u8
                &&& b[k] != '>' as u8 || b[k - 1] != '=' as u8
            },
    ensures
        outer_brace(b, i, 1, false) == Some(open),
{
    lemma_in_parentheses(b, i, close, 1, false);
    let typed = is_annotated(b, close + 1);
    assert(outer_brace(b, close, 1, false) == outer_brace(b, close + 1, 0, typed));
    lemma_outside_parentheses(b, close + 1, open, typed);
    if forall|k: int| close < k < open ==> is_blank(#[trigger] b[k]) {
        lemma_annotated(b, close + 1, open);
    } else {
        let k = choose|k: int|
            {
                &&& close + 1 < k < open
                &&& !is_blank(#[trigger] b[k])
                &&& forall|j: int| k < j < open ==> is_blank(#[trigger] b[j])
                &&& b[k] != ':' as u8 && b[k] != '|' as u8 && b[k] != '&' as u8 && b[k] != '<' as u8
                    && b[k] != ',' as u8
                &&& b[k] != '>' as u8 || b[k - 1] != '=' as u8
            };
        lemma_behind_text(b, open, k + 1);
    }
}

/// An object type behind `):` is passed over as a whole: the brace that opens
/// the body is the one behind it.
pub proof fn law_object_return_type(
    b: Seq<u8>,
    i: int,
    close: int,
    colon: int,
    object: int,
    object_end: int,
    open: int,
)
    requires
        0 <= i <= close < colon < object <= object_end < open < b.len(),
        forall|k: int| i <= k < close ==> b[k] != '(' as u8 && b[k] != ')' as u8,
        b[close] == ')' as u8,
        forall|k: int| close < k < colon ==> is_blank(#[trigger] b[k]),
        b[colon] == ':' as u8,
        forall|k: int| colon < k < object ==> is_blank(#[trigger] b[k]),
        b[object] == '{' as u8,
        closing_brace(b, object, 0, Region::Code) == Some(object_end),
        forall|k: int| object_end < k < open ==> is_blank(#[trigger] b[k]),
        b[open] == '{' as u8,
    ensures
        outer_brace(b, i, 1, false) == Some(open),
{
    lemma_in_parentheses(b, i, close, 1, false);
    lemma_annotated(b, close + 1, colon);
    assert(outer_brace(b, close, 1, false) == outer_brace(b, close + 1, 0, true));
    assert forall|k: int| close + 1 <= k < object implies b[k] != '(' as u8 && b[k] != ')' as u8
        && b[k] != '{' as u8 by {
        if k != colon {
            assert(is_blank(b[k]));
        }
    }
    lemma_outside_parentheses(b, close + 1, object, true);
    lemma_behind_text(b, object, colon + 1);
    assert(awaits_type(b, object));
    assert(outer_brace(b, object, 0, true) == outer_brace(b, object_end + 1, 0, true));
    assert forall|k: int| object_end + 1 <= k < open implies b[k] != '(' as u8 && b[k] != ')' as u8
        && b[k] != '{' as u8 by {
        assert(is_blank(b[k]));
    }
    lemma_outside_parentheses(b, object_end + 1, open, true);
    lemma_closing_brace(b, object, 0, Region::Code);
    lemma_behind_text(b, open, object_end + 1);
    assert(!awaits_type(b, open));
}

proof fn lemma_function_at(b: Seq<u8>, header: Seq<u8>, from: int, at: int)
    requires
        0 <= from <= at,
        0 < header.len(),
        occurs_at(b, header, at),
        forall|j: int|
            from <= j < at && #[trigger] occurs_at(b, header, j) ==> j + header.len() <= at && j > 0
                && b[j - 1] != '\n' as u8,
    ensures
        function_span(b, header, from) == function_span(b, header, at),
    decreases at - from,
{
    lemma_find_from(b, header, from);
    lemma_find_from(b, header, at);
    let first = find_from(b, header, from)->0;
    if first < at {
        lemma_function_at(b, header, first + header.len(), at);
    }
}

/// A function is the first whose header starts a line, wherever in the code it
/// stands. It reaches from there to behind the brace that matches the one that
/// opens its body, and to behind the line end that follows.
pub proof fn law_function_span(b: Seq<u8>, header: Seq<u8>, at: int, open: int, close: int)
    requires
        0 < header.len(),
        0 <= at,
        occurs_at(b, header, at),
        at == 0 || b[at - 1] == '\n' as u8,
        forall|j: int|
            0 <= j < at && #[trigger] occurs_at(b, header, j) ==> j + header.len() <= at && j > 0
                && b[j - 1] != '\n' as u8,
        outer_brace(b, at + header.len(), 1, false) == Some(open),
        closing_brace(b, open, 0, Region::Code) == Some(close),
    ensures
        close + 1 < b.len() && b[close + 1] == '\n' as u8 ==> function_span(b, header, 0) == Some(
            (at, close + 2),
        ),
        close + 1 >= b.len() || b[close + 1] != '\n' as u8 ==> function_span(b, header, 0) == Some(
            (at, close + 1),
        ),
{
    lemma_function_at(b, header, 0, at);
    lemma_find_from(b, header, at);
    lemma_outer_brace(b, at + header.len(), 1, false);
    lemma_closing_brace(b, open, 0, Region::Code);
}

proof fn lemma_no_function(b: Seq<u8>, header: Seq<u8>, from: int)
    requires
        0 <= from,
        0 < header.len(),
        forall|j: int| from <= j && #[trigger] occurs_at(b, header, j) ==> j > 0 && b[j - 1]
            != '\n' as u8,
    ensures
        function_span(b, header, from) is None,
    decreases b.len() - from,
{
    lemma_find_from(b, header, from);
    if let Some(first) = find_from(b, header, from) {
        lemma_no_function(b, header, first + header.len());
    }
}

/// A function is looked for by `function`, its name and an opening parenthesis.
/// Where that starts no line there is none.
pub proof fn law_top_level_function(code: Seq<char>, name: Seq<char>)
    ensures
        top_level_function(code, name) == function_span(
            utf8(code),
            utf8("function "@ + name + "("@),
            0,
        ),
        (forall|j: int| #[trigger]
            occurs_at(utf8(code), utf8("function "@ + name + "("@), j) ==> j > 0 && utf8(code)[j
                - 1] != '\n' as u8) ==> top_level_function(code, name) is None,
{
    reveal_strlit("function ");
    lemma_ascii_text("function "@);
    lemma_utf8_concat("function "@, name);
    lemma_utf8_concat("function "@ + name, "("@);
    if forall|j: int| #[trigger]
        occurs_at(utf8(code), utf8("function "@ + name + "("@), j) ==> j > 0 && utf8(code)[j - 1]
            != '\n' as u8 {
        lemma_no_function(utf8(code), utf8("function "@ + name + "("@), 0);
    }
}

/// What can stand right before the name of an attribute: a space, a tab, a line
/// end or an angle bracket, and nothing that a longer name could hold.
pub proof fn law_before_a_name(b: u8)
    ensures
        precedes_name(b) <==> b == 9 || b == 10 || b == 13 || b == ' ' as u8 || b == '<' as u8 || b
            == '>' as u8,
        continues_name(b) || b == ':' as u8 || b == '.' as u8 ==> !precedes_name(b),
{
}

/// A closing tag has its own name: behind it stands `>` or white space. An
/// opening tag too: what stands behind it cannot go on with the name.
pub proof fn law_tags_have_their_name(b: Seq<u8>, at: int, tag: Seq<u8>)
    requires
        0 <= at,
        at + 2 + tag.len() < b.len(),
        b[at] == '<' as u8,
    ensures
        b[at + 1] == '/' as u8 && b.subrange(at + 2, at + 2 + tag.len()) == tag ==> ({
            let c = b[at + 2 + tag.len()];
            closes_at(b, at, tag) <==> c == '>' as u8 || c == ' ' as u8 || c == 9 || c == 10 || c == 13
        }),
        b[at + 1] != '/' as u8 || b.subrange(at + 2, at + 2 + tag.len()) != tag ==> !closes_at(
            b,
            at,
            tag,
        ),
        b[at + 1] != '/' as u8 && b.subrange(at + 1, at + 1 + tag.len()) == tag ==> ({
            let c = b[at + 1 + tag.len()];
            opens_at(b, at, tag) <==> !(('0' as u8 <= c <= '9' as u8) || ('a' as u8 <= c
                <= 'z' as u8) || ('A' as u8 <= c <= 'Z' as u8) || c == '_' as u8 || c == '-' as u8)
        }),
        b[at + 1] == '/' as u8 ==> !opens_at(b, at, tag),
{
    reveal_strlit("</");
    lemma_ascii_text("</"@);
    let mark = utf8("</"@);
    let here = b.subrange(at, at + 2);
    assert(mark.len() == 2 && mark[0] == '<' as u8 && mark[1] == '/' as u8);
    assert(here[0] == b[at] && here[1] == b[at + 1]);
    if b[at + 1] == '/' as u8 {
        assert(here =~= mark);
    }
    if here == mark {
        assert(here[1] == mark[1]);
    }
}

/// A type is still to come behind `:`, `|`, `&`, `<`, `,` and `=>`, and behind
/// nothing else; blanks in between make no difference.
pub proof fn law_awaited_type(b: Seq<u8>, k: int, i: int)
    requires
        1 < k <= i <= b.len(),
        forall|j: int| k <= j < i ==> is_blank(#[trigger] b[j]),
        !is_blank(b[k - 1]),
    ensures
        awaits_type(b, i) <==> b[k - 1] == ':' as u8 || b[k - 1] == '|' as u8 || b[k - 1]
            == '&' as u8 || b[k - 1] == '<' as u8 || b[k - 1] == ',' as u8 || (b[k - 2] == '=' as u8
            && b[k - 1] == '>' as u8),
{
    lemma_behind_text(b, i, k);
}

} // verus!
