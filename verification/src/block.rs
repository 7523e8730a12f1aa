//! Code as it is written: pieces with strings, comments and braces in them, and
//! where a block of it ends.

use vstd::prelude::*;

use crate::jsx::{closing_brace, Region};

verus! {

/// A piece of code, by its bytes.
pub enum Piece {
    /// Code without braces, strings and comments.
    Plain(Seq<u8>),
    /// A string between two quotes.
    Quoted { quote: u8, inner: Seq<u8> },
    /// A comment up to the end of its line.
    LineComment(Seq<u8>),
    /// A comment between `/*` and `*/`.
    BlockComment(Seq<u8>),
    /// Pieces in braces.
    Braces(Seq<Piece>),
}

/// How a piece is written.
pub open spec fn piece_bytes(p: Piece) -> Seq<u8>
    decreases p, 0nat,
{
    match p {
        Piece::Plain(t) => t,
        Piece::Quoted { quote, inner } => seq![quote] + inner + seq![quote],
        Piece::LineComment(t) => seq!['/' as u8, '/' as u8] + t + seq!['\n' as u8],
        Piece::BlockComment(t) => seq!['/' as u8, '*' as u8] + t + seq!['*' as u8, '/' as u8],
        Piece::Braces(l) => seq!['{' as u8] + pieces_bytes(l, l.len()) + seq!['}' as u8],
    }
}

/// How the first `n` pieces are written.
pub open spec fn pieces_bytes(l: Seq<Piece>, n: nat) -> Seq<u8>
    decreases l, n,
{
    if n == 0 || n > l.len() {
        Seq::empty()
    } else {
        pieces_bytes(l, (n - 1) as nat) + piece_bytes(l[n - 1])
    }
}

/// A quote that a string can start with.
pub open spec fn is_quote(c: u8) -> bool {
    c == '"' as u8 || c == '\'' as u8 || c == '`' as u8
}

/// What can stand in a string: its quote only behind a backslash, and behind
/// every backslash some byte.
pub open spec fn is_string(s: Seq<u8>, quote: u8) -> bool
    decreases s.len(),
{
    if s.len() == 0 {
        true
    } else if s[0] == '\\' as u8 {
        s.len() >= 2 && is_string(s.skip(2), quote)
    } else {
        s[0] != quote && is_string(s.skip(1), quote)
    }
}

/// Code without braces and quotes, in which no comment starts: a slash is
/// followed by something else than a slash or a star.
pub open spec fn is_plain(s: Seq<u8>) -> bool {
    forall|k: int|
        0 <= k < s.len() ==> {
            &&& !is_quote(#[trigger] s[k]) && s[k] != '{' as u8 && s[k] != '}' as u8
            &&& s[k] == '/' as u8 ==> k + 1 < s.len() && s[k + 1] != '/' as u8 && s[k + 1]
                != '*' as u8
        }
}

/// A piece that is what it is written as.
pub open spec fn is_whole(p: Piece) -> bool
    decreases p, 0nat,
{
    match p {
        Piece::Plain(t) => is_plain(t),
        Piece::Quoted { quote, inner } => is_quote(quote) && is_string(inner, quote),
        Piece::LineComment(t) => !t.contains('\n' as u8),
        Piece::BlockComment(t) => forall|k: int|
            0 <= k < t.len() - 1 ==> !(#[trigger] t[k] == '*' as u8 && t[k + 1] == '/' as u8),
        Piece::Braces(l) => are_whole(l, l.len()),
    }
}

/// The first `n` pieces are what they are written as.
pub open spec fn are_whole(l: Seq<Piece>, n: nat) -> bool
    decreases l, n,
{
    n == 0 || n > l.len() || (are_whole(l, (n - 1) as nat) && is_whole(l[n - 1]))
}

proof fn lemma_plain(b: Seq<u8>, i: int, j: int, depth: int)
    requires
        0 <= i <= j <= b.len(),
        is_plain(b.subrange(i, j)),
    ensures
        closing_brace(b, i, depth, Region::Code) == closing_brace(b, j, depth, Region::Code),
    decreases j - i,
{
    if i < j {
        let s = b.subrange(i, j);
        assert(s[0] == b[i]);
        if i + 1 < j {
            assert(s[1] == b[i + 1]);
        }
        let t = b.subrange(i + 1, j);
        assert forall|k: int| 0 <= k < t.len() implies {
            &&& !is_quote(#[trigger] t[k]) && t[k] != '{' as u8 && t[k] != '}' as u8
            &&& t[k] == '/' as u8 ==> k + 1 < t.len() && t[k + 1] != '/' as u8 && t[k + 1]
                != '*' as u8
        } by {
            assert(t[k] == s[k + 1]);
            if k + 1 < t.len() {
                assert(t[k + 1] == s[k + 2]);
            }
        }
        lemma_plain(b, i + 1, j, depth);
    }
}

proof fn lemma_string(b: Seq<u8>, i: int, j: int, depth: int, quote: u8)
    requires
        0 <= i <= j < b.len(),
        is_string(b.subrange(i, j), quote),
        b[j] == quote,
        is_quote(quote),
    ensures
        closing_brace(b, i, depth, Region::Quoted(quote)) == closing_brace(
            b,
            j + 1,
            depth,
            Region::Code,
        ),
    decreases j - i,
{
    if i < j {
        let s = b.subrange(i, j);
        assert(s[0] == b[i]);
        if b[i] == '\\' as u8 {
            assert(s.skip(2) =~= b.subrange(i + 2, j));
            lemma_string(b, i + 2, j, depth, quote);
        } else {
            assert(s.skip(1) =~= b.subrange(i + 1, j));
            lemma_string(b, i + 1, j, depth, quote);
        }
    }
}

proof fn lemma_line_comment(b: Seq<u8>, i: int, j: int, depth: int)
    requires
        0 <= i <= j < b.len(),
        forall|k: int| i <= k < j ==> b[k] != '\n' as u8,
        b[j] == '\n' as u8,
    ensures
        closing_brace(b, i, depth, Region::LineComment) == closing_brace(
            b,
            j + 1,
            depth,
            Region::Code,
        ),
    decreases j - i,
{
    if i < j {
        lemma_line_comment(b, i + 1, j, depth);
    }
}

proof fn lemma_block_comment(b: Seq<u8>, i: int, j: int, depth: int)
    requires
        0 <= i <= j,
        j + 1 < b.len(),
        forall|k: int| i <= k < j ==> !(#[trigger] b[k] == '*' as u8 && b[k + 1] == '/' as u8),
        b[j] == '*' as u8,
        b[j + 1] == '/' as u8,
    ensures
        closing_brace(b, i, depth, Region::BlockComment) == closing_brace(
            b,
            j + 2,
            depth,
            Region::Code,
        ),
    decreases j - i,
{
    if i < j {
        lemma_block_comment(b, i + 1, j, depth);
    }
}

/// A whole piece closes what it opens: the search for the end of a block around
/// it goes on behind it as it was.
proof fn lemma_piece(pre: Seq<u8>, p: Piece, post: Seq<u8>, depth: int)
    requires
        is_whole(p),
        1 <= depth,
    ensures
        closing_brace(pre + piece_bytes(p) + post, pre.len() as int, depth, Region::Code)
            == closing_brace(
            pre + piece_bytes(p) + post,
            (pre + piece_bytes(p)).len() as int,
            depth,
            Region::Code,
        ),
    decreases p, 0nat,
{
    let w = piece_bytes(p);
    let b = pre + w + post;
    let (i, j) = (pre.len() as int, (pre + w).len() as int);
    assert forall|k: int| 0 <= k < w.len() implies b[i + k] == #[trigger] w[k] by {}
    match p {
        Piece::Plain(t) => {
            assert(b.subrange(i, j) =~= t);
            lemma_plain(b, i, j, depth);
        },
        Piece::Quoted { quote, inner } => {
            assert(b[i] == w[0] && b[j - 1] == w[w.len() - 1]);
            assert(b.subrange(i + 1, j - 1) =~= inner);
            lemma_string(b, i + 1, j - 1, depth, quote);
        },
        Piece::LineComment(t) => {
            assert(b[i] == w[0] && b[i + 1] == w[1] && b[j - 1] == w[w.len() - 1]);
            assert forall|k: int| i + 2 <= k < j - 1 implies b[k] != '\n' as u8 by {
                assert(b[k] == t[k - i - 2]);
                assert(t.contains(t[k - i - 2]));
            }
            lemma_line_comment(b, i + 2, j - 1, depth);
        },
        Piece::BlockComment(t) => {
            let n = t.len() as int;
            assert(b[i] == w[0] && b[i + 1] == w[1]);
            assert(b[j - 2] == w[n + 2] && b[j - 1] == w[n + 3]);
            assert forall|k: int| i + 2 <= k < j - 2 implies !(#[trigger] b[k] == '*' as u8 && b[k
                + 1] == '/' as u8) by {
                assert(b[k] == t[k - i - 2]);
                if k < j - 3 {
                    assert(b[k + 1] == t[k - i - 1]);
                }
            }
            lemma_block_comment(b, i + 2, j - 2, depth);
        },
        Piece::Braces(l) => {
            let kids = pieces_bytes(l, l.len());
            let (open, close) = (seq!['{' as u8], seq!['}' as u8]);
            assert(b[i] == w[0] && b[j - 1] == w[w.len() - 1]);
            assert(b =~= (pre + open) + kids + (close + post));
            lemma_pieces(pre + open, l, l.len(), close + post, depth + 1);
        },
    }
}

proof fn lemma_pieces(pre: Seq<u8>, l: Seq<Piece>, n: nat, post: Seq<u8>, depth: int)
    requires
        n <= l.len(),
        are_whole(l, n),
        1 <= depth,
    ensures
        closing_brace(pre + pieces_bytes(l, n) + post, pre.len() as int, depth, Region::Code)
            == closing_brace(
            pre + pieces_bytes(l, n) + post,
            (pre + pieces_bytes(l, n)).len() as int,
            depth,
            Region::Code,
        ),
    decreases l, n,
{
    if n > 0 {
        let (d, w) = (pieces_bytes(l, (n - 1) as nat), piece_bytes(l[n - 1]));
        lemma_pieces(pre, l, (n - 1) as nat, w + post, depth);
        lemma_piece(pre + d, l[n - 1], post, depth);
        assert(pre + pieces_bytes(l, n) + post =~= pre + d + (w + post));
        assert(pre + pieces_bytes(l, n) + post =~= pre + d + w + post);
    }
}

/// A block ends with its own closing brace, whatever whole pieces stand in it:
/// braces in each other, and strings and comments with braces and quotes in
/// them.
pub proof fn law_block_ends(pre: Seq<u8>, l: Seq<Piece>, post: Seq<u8>)
    requires
        are_whole(l, l.len()),
    ensures
        closing_brace(
            pre + seq!['{' as u8] + pieces_bytes(l, l.len()) + seq!['}' as u8] + post,
            pre.len() as int,
            0,
            Region::Code,
        ) == Some((pre + seq!['{' as u8] + pieces_bytes(l, l.len())).len() as int),
{
    let kids = pieces_bytes(l, l.len());
    let (open, close) = (seq!['{' as u8], seq!['}' as u8]);
    let b = pre + open + kids + close + post;
    assert(b[pre.len() as int] == '{' as u8);
    assert(b[(pre + open + kids).len() as int] == '}' as u8);
    assert(b =~= (pre + open) + kids + (close + post));
    lemma_pieces(pre + open, l, l.len(), close + post, 1);
}

} // verus!
