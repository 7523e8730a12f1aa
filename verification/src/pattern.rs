//! Regular expressions: the patterns that the passes look for, and the
//! matches that the `regex` crate finds for them.

use vstd::prelude::*;

use crate::chars::{is_hex_digit, is_space, is_word_char, word};
use crate::text::{at_boundary, cut, utf8};

verus! {

/// An opening JSX tag: its name, then its attributes. The attributes hold
/// neither `<` nor `>`.
pub const OPENING_TAG: &'static str = r"<([A-Za-z][A-Za-z0-9]*)\b([^<>]*)>";

/// `const imgXxx = "...";`: the name, then what stands in the quotes.
pub const IMAGE_CONST: &'static str = r#"const\s+(img[A-Za-z0-9_]+)\s*=\s*"([^"]+)"\s*;"#;

/// `<img ... />` or `<img ... >`: the attributes.
pub const IMAGE_TAG: &'static str = r"<img\b([^>]*?)/?>";

/// A line that declares a Figma asset: the name, then the URL.
pub const ASSET_CONST: &'static str =
    r#"(?m)^const\s+(img[A-Za-z0-9]+)\s*=\s*"(https?://(?:www\.figma\.com/api/mcp/asset/[a-f0-9-]+|(?:127\.0\.0\.1|localhost):3845/assets/[a-f0-9]+\.[A-Za-z0-9]+))"\s*;"#;

/// The start of a line that declares an image.
pub const IMAGE_CONST_LINE: &'static str = r"(?m)^const\s+img[A-Za-z0-9_]+\s*=";

/// `[#XXX]` or `[#XXXXXX]`: the digits.
pub const BRACKETED_HEX: &'static str = r"\[#([0-9a-fA-F]{6}|[0-9a-fA-F]{3})\]";

/// `className="..."`: what stands in the quotes.
pub const CLASS_NAME: &'static str = r#"className="([^"]*)""#;

/// Two spaces or more.
pub const SPACES: &'static str = r"  +";

/// An opening tag without attributes, with spaces before its `>`: the name.
pub const SPACED_TAG: &'static str = r"<(?P<tag>[A-Za-z][A-Za-z0-9]*) +>";

/// A self-closing tag without attributes, with spaces before its `/>`: the
/// name.
pub const SPACED_SELF_CLOSING_TAG: &'static str = r"<(?P<tag>[A-Za-z][A-Za-z0-9]*) +/>";

/// One of the patterns above.
pub open spec fn is_known_pattern(pattern: Seq<char>) -> bool {
    ||| pattern == OPENING_TAG@
    ||| pattern == IMAGE_CONST@
    ||| pattern == IMAGE_TAG@
    ||| pattern == ASSET_CONST@
    ||| pattern == IMAGE_CONST_LINE@
    ||| pattern == BRACKETED_HEX@
    ||| pattern == CLASS_NAME@
    ||| pattern == SPACES@
    ||| pattern == SPACED_TAG@
    ||| pattern == SPACED_SELF_CLOSING_TAG@
}

/// A match: the byte span of each capture group that took part in it. Group 0
/// is the whole match.
pub type Groups = Vec<Option<(usize, usize)>>;

/// The matches with their groups taken by view.
pub open spec fn groups_of(found: Seq<Groups>) -> Seq<Seq<Option<(usize, usize)>>> {
    found.map_values(|m: Groups| m@)
}

/// A byte span that starts and ends between two characters of the text.
pub open spec fn is_span(text: Seq<char>, span: (usize, usize)) -> bool {
    &&& span.0 <= span.1
    &&& at_boundary(utf8(text), span.0 as int)
    &&& at_boundary(utf8(text), span.1 as int)
}

/// The groups of one match: the whole match is there, and every group that
/// took part lies in it.
pub open spec fn is_match(text: Seq<char>, m: Seq<Option<(usize, usize)>>) -> bool {
    &&& m.len() > 0
    &&& m[0] is Some
    &&& forall|g: int|
        0 <= g < m.len() && #[trigger] m[g] is Some ==> is_span(text, m[g]->0) && (m[0]->0).0
            <= (m[g]->0).0 && (m[g]->0).1 <= (m[0]->0).1
}

/// Successive matches that do not overlap: each starts after the start of the
/// one before it, and not before its end.
pub open spec fn are_matches(text: Seq<char>, found: Seq<Seq<Option<(usize, usize)>>>) -> bool {
    &&& forall|i: int| 0 <= i < found.len() ==> is_match(text, #[trigger] found[i])
    &&& forall|i: int, j: int|
        #![trigger found[i], found[j]]
        0 <= i < j < found.len() ==> (found[i][0]->0).0 < (found[j][0]->0).0 && (found[i][0]->0).1
            <= (found[j][0]->0).0
}

/// A character with a meaning of its own in a regular expression.
pub open spec fn is_meta(c: char) -> bool {
    ||| c == '\\'
    ||| c == '.'
    ||| c == '+'
    ||| c == '*'
    ||| c == '?'
    ||| c == '('
    ||| c == ')'
    ||| c == '|'
    ||| c == '['
    ||| c == ']'
    ||| c == '{'
    ||| c == '}'
    ||| c == '^'
    ||| c == '$'
    ||| c == '#'
    ||| c == '&'
    ||| c == '-'
    ||| c == '~'
}

/// The text with a backslash before every character that has a meaning of
/// its own.
pub open spec fn escaped(text: Seq<char>) -> Seq<char>
    decreases text.len(),
{
    if text.len() == 0 {
        Seq::empty()
    } else if is_meta(text.last()) {
        escaped(text.drop_last()).push('\\').push(text.last())
    } else {
        escaped(text.drop_last()).push(text.last())
    }
}

/// The pattern for an attribute with the white space before it.
pub open spec fn attribute_pattern(name: Seq<char>) -> Seq<char> {
    "\\s+"@ + escaped(name) + "=\"[^\"]*\""@
}

/// The longest name of an attribute whose pattern is sure to compile.
pub const LONGEST_NAME: usize = 10000;

/// The pattern for an attribute whose name is not too long.
pub open spec fn is_attribute_pattern(pattern: Seq<char>) -> bool {
    exists|name: Seq<char>|
        name.len() <= LONGEST_NAME && pattern == #[trigger] attribute_pattern(name)
}

/// `[#`, three or six hexadecimal digits, and `]`.
pub open spec fn is_hex_token(s: Seq<char>) -> bool {
    &&& s.len() == 6 || s.len() == 9
    &&& s[0] == '[' && s[1] == '#' && s.last() == ']'
    &&& forall|i: int| 2 <= i < s.len() - 1 ==> is_hex_digit(#[trigger] s[i])
}

/// The text of a match.
pub open spec fn matched(text: Seq<char>, m: Seq<Option<(usize, usize)>>) -> Seq<char> {
    cut(text, (m[0]->0).0 as int, (m[0]->0).1 as int)
}

/// What a match of some of the patterns looks like.
pub open spec fn has_shape(
    pattern: Seq<char>,
    text: Seq<char>,
    m: Seq<Option<(usize, usize)>>,
) -> bool {
    let whole = m[0]->0;
    let inner = m[1]->0;
    &&& pattern == CLASS_NAME@ ==> m.len() == 2 && m[1] is Some && matched(text, m)
        == "className=\""@ + cut(text, inner.0 as int, inner.1 as int) + "\""@
    &&& pattern == SPACES@ ==> whole.1 - whole.0 >= 2
    &&& pattern == SPACED_TAG@ ==> m.len() == 2 && m[1] is Some && inner.0 == whole.0 + 1 && inner.1
        + 2 <= whole.1
    &&& pattern == SPACED_SELF_CLOSING_TAG@ ==> m.len() == 2 && m[1] is Some && inner.0 == whole.0
        + 1 && inner.1 + 3 <= whole.1
    &&& pattern == BRACKETED_HEX@ ==> m.len() == 2 && m[1] is Some && inner.0 == whole.0 + 2
        && inner.1 + 1 == whole.1 && is_hex_token(matched(text, m))
}

/// The bytes from `from` up to `to` are one of the matches.
pub open spec fn is_matched(
    found: Seq<Seq<Option<(usize, usize)>>>,
    from: int,
    to: int,
) -> bool {
    exists|i: int|
        0 <= i < found.len() && ((#[trigger] found[i])[0]->0).0 == from && (found[i][0]->0).1 == to
}

/// The matches look as the pattern says, and of the bracketed colors every one
/// is matched.
pub open spec fn are_shaped(
    pattern: Seq<char>,
    text: Seq<char>,
    found: Seq<Seq<Option<(usize, usize)>>>,
) -> bool {
    &&& forall|i: int| 0 <= i < found.len() ==> has_shape(pattern, text, #[trigger] found[i])
    &&& pattern == BRACKETED_HEX@ ==> forall|from: int, to: int|
        from <= to && at_boundary(utf8(text), from) && at_boundary(utf8(text), to) && is_hex_token(
            #[trigger] cut(text, from, to),
        ) ==> is_matched(found, from, to)
}

/// Whether `Regex::new` compiles a pattern where a machine word has the given
/// number of bits. The limit on the size of a compiled pattern counts bytes,
/// and what a pattern takes up depends on the length of a word.
pub uninterp spec fn regex_compiles(pattern: Seq<char>, word_bits: nat) -> bool;

/// A pattern compiles on this machine.
pub open spec fn compiles(pattern: Seq<char>) -> bool {
    regex_compiles(pattern, usize::BITS as nat)
}

/// What `Regex::captures_iter` yields for a pattern and a text: of every
/// match, the byte span of each group.
pub uninterp spec fn regex_matches(pattern: Seq<char>, text: Seq<char>) -> Seq<
    Seq<Option<(usize, usize)>>,
>;

/// `regex::Regex::new` and `Regex::captures_iter`. There is a result exactly
/// where the pattern compiles, whatever the text. The result is what `captures_iter` yields: successive, non-overlapping
/// matches, each with the spans of its groups, at character boundaries. Of some
/// of the patterns of this module it is said what their matches look like, and
/// that every bracketed color is matched: two of them cannot overlap.
///
/// The patterns of this module compile, and so do those for attributes whose
/// names are not too long: the limit on the size of a compiled pattern is 10
/// MiB, and a character of a name takes up a few states. Of others it is not
/// said.
#[verifier::external_body]
pub(crate) fn matches_of(pattern: &str, text: &str) -> (res: Option<Vec<Groups>>)
    ensures
        res is Some <==> regex_compiles(pattern@, usize::BITS as nat),
        is_known_pattern(pattern@) ==> res is Some,
        is_attribute_pattern(pattern@) ==> res is Some,
        res is Some ==> groups_of(res->0@) == regex_matches(pattern@, text@),
        res is Some ==> are_matches(text@, groups_of(res->0@)),
        res is Some ==> are_shaped(pattern@, text@, groups_of(res->0@)),
{
    let re = regex::Regex::new(pattern).ok()?;
    let span = |m: regex::Match<'_>| (m.start(), m.end());
    Some(re.captures_iter(text).map(|c| c.iter().map(|g| g.map(span)).collect()).collect())
}

/// `regex::escape` puts a backslash before every character that has a meaning
/// of its own in a regular expression, and copies the others.
#[verifier::external_body]
pub(crate) fn escape(text: &str) -> (res: String)
    ensures
        res@ == escaped(text@),
{
    regex::escape(text)
}

/// The matches of one of the patterns of this module.
pub fn known_matches(pattern: &str, text: &str) -> (res: Vec<Groups>)
    requires
        is_known_pattern(pattern@),
    ensures
        groups_of(res@) == regex_matches(pattern@, text@),
        are_matches(text@, groups_of(res@)),
        are_shaped(pattern@, text@, groups_of(res@)),
{
    matches_of(pattern, text).unwrap()
}

/// Texts are escaped character by character. Letters, digits and `_` stay as
/// they are, and no character is lost.
pub proof fn law_escaped(a: Seq<char>, b: Seq<char>, c: char)
    ensures
        escaped(a + b) == escaped(a) + escaped(b),
        is_word_char(c) || is_space(c) ==> escaped(seq![c]) == seq![c],
        escaped(seq![c]) == seq![c] || escaped(seq![c]) == seq!['\\', c],
        word(a) ==> escaped(a) == a,
    decreases a.len() + b.len(),
{
    let none: Seq<char> = Seq::empty();
    assert(seq![c].drop_last() =~= none);
    assert(escaped(none) =~= none);
    if is_meta(c) {
        assert(escaped(seq![c]) =~= seq!['\\', c]);
    } else {
        assert(escaped(seq![c]) =~= seq![c]);
    }
    if b.len() == 0 {
        assert(a + b =~= a);
        assert(escaped(a) + escaped(b) =~= escaped(a));
    } else {
        law_escaped(a, b.drop_last(), c);
        assert((a + b).drop_last() =~= a + b.drop_last());
        assert(escaped(a + b) =~= escaped(a) + escaped(b));
    }
    if word(a) && a.len() > 0 {
        let d = a.drop_last();
        assert forall|i: int| 0 <= i < d.len() implies is_word_char(#[trigger] d[i]) by {
            assert(d[i] == a[i]);
        }
        law_escaped(d, none, c);
        assert(is_word_char(a[a.len() - 1]));
        assert(escaped(a) =~= a);
    }
}

/// The pattern for an attribute whose name is a word holds that name, between
/// the white space before it and the quoted value behind it.
pub proof fn law_attribute_pattern(name: Seq<char>)
    requires
        word(name),
    ensures
        attribute_pattern(name) == "\\s+"@ + name + "=\"[^\"]*\""@,
{
    law_escaped(name, Seq::empty(), 'a');
}

} // verus!
