//! Putting texts in place of the matches of a pattern.

use vstd::prelude::*;

use crate::chars::views;
use crate::edit::{
    all_fit, edits_of, fits, in_order, law_splice_not_longer, law_spliced, moved, splice, spliced,
    Edit, EditView,
};
use crate::pattern::{are_matches, groups_of, is_match, Groups};
use crate::text::{cut, law_cut_between, slice, utf8};

verus! {

/// The text of a group of a match; empty where the group took no part.
pub open spec fn group(text: Seq<char>, m: Seq<Option<(usize, usize)>>, g: int) -> Seq<char> {
    if 0 <= g < m.len() && m[g] is Some {
        cut(text, (m[g]->0).0 as int, (m[g]->0).1 as int)
    } else {
        Seq::empty()
    }
}

pub fn group_text<'a>(text: &'a str, m: &Groups, g: usize) -> (res: &'a str)
    requires
        is_match(text@, m@),
    ensures
        res@ == group(text@, m@, g as int),
{
    if g < m.len() {
        if let Some(span) = m[g] {
            assert(m@[g as int] is Some);
            return slice(text, span.0, span.1);
        }
    }
    proof {
        reveal_strlit("");
        assert(""@ =~= Seq::empty());
    }
    ""
}

/// The edits that put one text in place of each match.
pub open spec fn substitutions(
    found: Seq<Seq<Option<(usize, usize)>>>,
    texts: Seq<Seq<char>>,
) -> Seq<EditView> {
    Seq::new(
        found.len(),
        |i: int|
            EditView {
                start: (found[i][0]->0).0 as int,
                end: (found[i][0]->0).1 as int,
                replacement: texts[i],
            },
    )
}

/// The text with the matches replaced, each by its text.
pub open spec fn substituted(
    text: Seq<char>,
    found: Seq<Seq<Option<(usize, usize)>>>,
    texts: Seq<Seq<char>>,
) -> Seq<char> {
    spliced(text, substitutions(found, texts))
}

pub proof fn lemma_substitutions(
    text: Seq<char>,
    found: Seq<Seq<Option<(usize, usize)>>>,
    texts: Seq<Seq<char>>,
)
    requires
        are_matches(text, found),
    ensures
        all_fit(text, substitutions(found, texts)),
        in_order(substitutions(found, texts)),
{
    let edits = substitutions(found, texts);
    assert forall|i: int| 0 <= i < edits.len() implies fits(text, #[trigger] edits[i]) by {
        assert(is_match(text, found[i]));
        assert(found[i][0] is Some);
    }
    assert forall|i: int, j: int| 0 <= i < j < edits.len() implies (#[trigger] edits[i]).end <= (
    #[trigger] edits[j]).start by {
        assert((found[i][0]->0).1 <= (found[j][0]->0).0);
    }
}

/// Texts that take up no more bytes than the matches that they replace do not
/// make the text longer.
pub proof fn law_substituted_not_longer(
    text: Seq<char>,
    found: Seq<Seq<Option<(usize, usize)>>>,
    texts: Seq<Seq<char>>,
)
    requires
        are_matches(text, found),
        forall|i: int|
            0 <= i < found.len() ==> utf8(#[trigger] texts[i]).len() <= (found[i][0]->0).1 - (
            found[i][0]->0).0,
    ensures
        utf8(substituted(text, found, texts)).len() <= utf8(text).len(),
{
    let edits = substitutions(found, texts);
    lemma_substitutions(text, found, texts);
    assert forall|i: int| 0 <= i < edits.len() implies utf8((#[trigger] edits[i]).replacement).len()
        <= edits[i].end - edits[i].start by {
        assert(edits[i].replacement == texts[i]);
    }
    law_splice_not_longer(text, edits);
}

/// Replace the matches, each by its text.
pub fn substitute(text: &str, found: &Vec<Groups>, texts: &Vec<String>) -> (res: String)
    requires
        are_matches(text@, groups_of(found@)),
        texts@.len() == found@.len(),
    ensures
        res@ == substituted(text@, groups_of(found@), views(texts@)),
{
    let ghost all = substitutions(groups_of(found@), views(texts@));
    proof {
        lemma_substitutions(text@, groups_of(found@), views(texts@));
    }
    let mut edits: Vec<Edit> = Vec::new();
    let mut i: usize = 0;
    while i < found.len()
        invariant
            i <= found@.len(),
            texts@.len() == found@.len(),
            are_matches(text@, groups_of(found@)),
            all == substitutions(groups_of(found@), views(texts@)),
            edits_of(edits@) == all.take(i as int),
        decreases found@.len() - i,
    {
        let m = &found[i];
        let ghost before = edits_of(edits@);
        assert(groups_of(found@)[i as int] == m@);
        assert(is_match(text@, m@));
        let span: (usize, usize) = m[0].unwrap();
        let e = Edit { start: span.0, end: span.1, replacement: texts[i].clone() };
        edits.push(e);
        assert(edits_of(edits@) =~= before.push(e@));
        assert(e@ == all[i as int]);
        i += 1;
        assert(edits_of(edits@) =~= all.take(i as int));
    }
    assert(edits_of(edits@) =~= all);
    splice(text, &edits)
}

/// As many copies of a text as there are matches.
pub open spec fn copies(n: nat, text: Seq<char>) -> Seq<Seq<char>> {
    Seq::new(n, |i: int| text)
}

/// Replace all matches by the same text.
pub fn substitute_all(text: &str, found: &Vec<Groups>, by: &str) -> (res: String)
    requires
        are_matches(text@, groups_of(found@)),
    ensures
        res@ == substituted(text@, groups_of(found@), copies(found@.len(), by@)),
{
    let mut texts: Vec<String> = Vec::new();
    let mut i: usize = 0;
    while i < found.len()
        invariant
            i <= found@.len(),
            views(texts@) == copies(i as nat, by@),
        decreases found@.len() - i,
    {
        let ghost before = views(texts@);
        let copy = by.to_string();
        texts.push(copy);
        i += 1;
        assert(views(texts@) =~= before.push(copy@));
        assert(views(texts@) =~= copies(i as nat, by@));
    }
    assert(views(texts@).len() == found@.len());
    substitute(text, found, &texts)
}

/// The first match is replaced by its text. What comes before it stays as it
/// is, and the other matches are replaced in what comes behind it. Without
/// matches the text stays as it is.
pub proof fn law_substituted(
    head: Seq<char>,
    old_text: Seq<char>,
    new_text: Seq<char>,
    tail: Seq<char>,
    m: Seq<Option<(usize, usize)>>,
    found: Seq<Seq<Option<(usize, usize)>>>,
    found_behind: Seq<Seq<Option<(usize, usize)>>>,
    texts: Seq<Seq<char>>,
)
    requires
        (m[0]->0).0 == utf8(head).len(),
        (m[0]->0).1 == utf8(head + old_text).len(),
        are_matches(tail, found),
        found_behind.len() == found.len(),
        texts.len() == found.len(),
        forall|i: int|
            0 <= i < found.len() ==> {
                &&& ((#[trigger] found_behind[i])[0]->0).0 == (found[i][0]->0).0 + utf8(
                    head + old_text,
                ).len()
                &&& (found_behind[i][0]->0).1 == (found[i][0]->0).1 + utf8(head + old_text).len()
            },
    ensures
        substituted(head + old_text + tail, seq![m] + found_behind, seq![new_text] + texts) == head
            + new_text + substituted(tail, found, texts),
        substituted(head, Seq::empty(), Seq::empty()) == head,
{
    let n = utf8(head + old_text).len() as int;
    let first = EditView {
        start: utf8(head).len() as int,
        end: n,
        replacement: new_text,
    };
    let edits = substitutions(found, texts);
    lemma_substitutions(tail, found, texts);
    law_spliced(head, old_text, new_text, tail, edits);
    let all = substitutions(seq![m] + found_behind, seq![new_text] + texts);
    assert forall|i: int| 0 <= i < all.len() implies #[trigger] all[i] == (seq![first] + moved(
        edits,
        n,
    ))[i] by {
        if i > 0 {
            assert((seq![m] + found_behind)[i] == found_behind[i - 1]);
            assert((seq![new_text] + texts)[i] == texts[i - 1]);
        }
    }
    assert(all =~= seq![first] + moved(edits, n));
    assert(substitutions(Seq::empty(), Seq::empty()) =~= Seq::empty());
}

/// A single match is replaced by its text, and nothing else changes.
pub proof fn law_one_substituted(
    head: Seq<char>,
    old_text: Seq<char>,
    new_text: Seq<char>,
    tail: Seq<char>,
    m: Seq<Option<(usize, usize)>>,
)
    requires
        (m[0]->0).0 == utf8(head).len(),
        (m[0]->0).1 == utf8(head + old_text).len(),
    ensures
        substituted(head + old_text + tail, seq![m], seq![new_text]) == head + new_text + tail,
{
    let none: Seq<Seq<Option<(usize, usize)>>> = Seq::empty();
    law_substituted(head, old_text, new_text, tail, m, none, none, Seq::empty());
    law_spliced(tail, Seq::empty(), Seq::empty(), Seq::empty(), Seq::empty());
    assert(substitutions(none, Seq::empty()) =~= Seq::empty());
    assert(seq![m] + none =~= seq![m]);
    assert(seq![new_text] + Seq::empty() =~= seq![new_text]);
}

/// The text of a group is what stands between its bounds; that of a group that
/// took no part is empty.
pub proof fn law_group(
    a: Seq<char>,
    text: Seq<char>,
    b: Seq<char>,
    m: Seq<Option<(usize, usize)>>,
    g: int,
)
    requires
        0 <= g < m.len(),
    ensures
        m[g] is Some && (m[g]->0).0 == utf8(a).len() && (m[g]->0).1 == utf8(a + text).len()
            ==> group(a + text + b, m, g) == text,
        m[g] is None ==> group(a + text + b, m, g).len() == 0,
{
    law_cut_between(a, text, b);
}

} // verus!
