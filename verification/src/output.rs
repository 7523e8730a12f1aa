//! The file that is written in the end, and what is said about it.

use vstd::prelude::*;
use vstd::string::*;

use crate::imports::{law_render_empty, rendered, Imports, ImportsView};
use crate::pattern::{
    are_matches, groups_of, is_match, known_matches, regex_matches, Groups, IMAGE_CONST_LINE,
};
use crate::text::{bytes_of, cut, law_cut_between, lemma_cut_all, slice, utf8};
use crate::text_map::{ordered, text_less, TextMap};

verus! {

/// What is said above the imports.
pub const AUTO_IMPORT_NOTE: &'static str =
    "// NOTE: figma-code-dl auto-generated the imports below from Figma layer /\n// asset names. The component paths are best-guesses — before relying on\n// them, search this codebase for existing components that cover the same\n// thing and re-point the import. Local-SVG defaults (`./assets/*.svg`)\n// may also be replaceable by a curated icon already in the repo.\n//\n";

/// What is said above the assets.
pub const AUTO_ASSET_NOTE: &'static str =
    "// NOTE: The asset files below were downloaded directly from Figma. They\n// may duplicate assets already in this codebase — search for an existing\n// image / SVG / icon before keeping these (especially raster images that\n// may already exist in optimized form).\n//\n";

/// The body with a note above the first match.
pub open spec fn with_note(body: Seq<char>, found: Seq<Seq<Option<(usize, usize)>>>) -> Seq<char> {
    if found.len() == 0 {
        body
    } else {
        let at = (found[0][0]->0).0 as int;
        cut(body, 0, at) + AUTO_ASSET_NOTE@ + cut(body, at, utf8(body).len() as int)
    }
}

/// Put the note above the first match.
pub fn note_above(body: &str, found: &Vec<Groups>) -> (res: String)
    requires
        are_matches(body@, groups_of(found@)),
    ensures
        res@ == with_note(body@, groups_of(found@)),
{
    if found.len() == 0 {
        return body.to_string();
    }
    assert(groups_of(found@)[0] == found@[0]@);
    assert(is_match(body@, found@[0]@));
    proof {
        lemma_cut_all(body@);
    }
    let at: usize = found[0][0].unwrap().0;
    let n: usize = bytes_of(body).len();
    let mut res: String = slice(body, 0, at).to_string();
    res.append(AUTO_ASSET_NOTE);
    res.append(slice(body, at, n));
    res
}

/// Put a note above the first line that declares an image, where there is one.
pub fn inject_asset_const_note(body: &str) -> (res: String)
    ensures
        res@ == with_note(body@, regex_matches(IMAGE_CONST_LINE@, body@)),
{
    note_above(body, &known_matches(IMAGE_CONST_LINE, body))
}

/// The imports with the note above them; nothing where there are none.
pub open spec fn imports_block(imports: ImportsView) -> Seq<char> {
    if rendered(imports).len() == 0 {
        Seq::empty()
    } else {
        AUTO_IMPORT_NOTE@ + rendered(imports)
    }
}

/// The whole file: the header, the imports and the body.
pub fn assemble(header: &str, imports: &Imports, body: &str) -> (res: String)
    ensures
        res@ == header@ + imports_block(imports@) + with_note(
            body@,
            regex_matches(IMAGE_CONST_LINE@, body@),
        ),
{
    let mut res: String = header.to_string();
    let lines = imports.render();
    if !lines.as_str().is_empty() {
        res.append(AUTO_IMPORT_NOTE);
        res.append(lines.as_str());
    }
    res.append(inject_asset_const_note(body).as_str());
    assert(res@ =~= header@ + imports_block(imports@) + with_note(
        body@,
        regex_matches(IMAGE_CONST_LINE@, body@),
    ));
    res
}

/// A note adds itself to the body and takes nothing away.
pub proof fn law_note_only_adds(body: Seq<char>, found: Seq<Seq<Option<(usize, usize)>>>)
    requires
        are_matches(body, found),
    ensures
        found.len() == 0 ==> with_note(body, found) == body,
        found.len() > 0 ==> with_note(body, found).len() == body.len() + AUTO_ASSET_NOTE@.len(),
        found.len() > 0 ==> ({
            let at = (found[0][0]->0).0 as int;
            cut(body, 0, at) + cut(body, at, utf8(body).len() as int) == body
        }),
{
    if found.len() > 0 {
        assert(is_match(body, found[0]));
        assert(found[0][0] is Some);
        lemma_cut_all(body);
        crate::text::lemma_cut_concat(
            body,
            0,
            (found[0][0]->0).0 as int,
            utf8(body).len() as int,
        );
    }
}

// ---------------------------------------------------------------------------
// Configuration
// ---------------------------------------------------------------------------

/// The file that a pass reads its configuration from: the one given, else the
/// usual one where the pass is switched on.
pub fn config_path(given: Option<String>, enabled: bool, usual: &str) -> (res: Option<String>)
    ensures
        match given {
            Some(path) => res == Some(path),
            None => if enabled {
                res is Some && res->0@ == usual@
            } else {
                res is None
            },
        },
{
    match given {
        Some(path) => Some(path),
        None => if enabled {
            Some(usual.to_string())
        } else {
            None
        },
    }
}

// ---------------------------------------------------------------------------
// What is left to map
// ---------------------------------------------------------------------------

/// Counts with their names taken by view.
pub open spec fn counts_view(l: Seq<(String, u32)>) -> Seq<(Seq<char>, u32)> {
    l.map_values(|e: (String, u32)| (e.0@, e.1))
}

/// `a` is listed before `b`: it counts more, or as much and its name comes
/// first.
pub open spec fn goes_before(a: (Seq<char>, u32), b: (Seq<char>, u32)) -> bool {
    a.1 > b.1 || (a.1 == b.1 && text_less(a.0, b.0))
}

/// The entries come in the order of a histogram.
pub open spec fn by_count(l: Seq<(Seq<char>, u32)>) -> bool {
    forall|i: int, j: int| 0 <= i < j < l.len() ==> goes_before(#[trigger] l[i], #[trigger] l[j])
}

/// The counts from the largest to the smallest; those that are equal by their
/// names.
pub fn histogram(counts: &TextMap<u32>) -> (res: Vec<(String, u32)>)
    ensures
        counts_view(res@).to_multiset() == counts@.to_multiset(),
        by_count(counts_view(res@)),
{
    let n: usize = counts.len();
    let mut res: Vec<(String, u32)> = Vec::new();
    let mut i: usize = 0;
    assert(counts_view(res@) =~= counts@.take(0));
    while i < n
        invariant
            n == counts@.len(),
            ordered(counts@),
            i <= n,
            counts_view(res@).to_multiset() == counts@.take(i as int).to_multiset(),
            by_count(counts_view(res@)),
            forall|k: int|
                0 <= k < res@.len() ==> exists|j: int|
                    0 <= j < i && counts@[j].0 == (#[trigger] counts_view(res@)[k]).0,
        decreases n - i,
    {
        let name = counts.key_at(i).to_string();
        let count: u32 = *counts.value_at(i);
        let ghost x = (name@, count);
        let ghost l = counts_view(res@);
        let mut p: usize = 0;
        while p < res.len() && res[p].1 >= count
            invariant
                p <= res@.len(),
                l == counts_view(res@),
                forall|k: int| 0 <= k < p ==> (#[trigger] l[k]).1 >= count,
            decreases res@.len() - p,
        {
            assert(l[p as int].1 == res@[p as int].1);
            p += 1;
        }
        assert(p < l.len() ==> l[p as int].1 < count) by {
            if p < l.len() {
                assert(l[p as int].1 == res@[p as int].1);
            }
        }
        assert forall|k: int| 0 <= k < l.len() implies text_less((#[trigger] l[k]).0, x.0) by {
            let j = choose|j: int| 0 <= j < i && counts@[j].0 == l[k].0;
            assert(text_less(counts@[j].0, counts@[i as int].0));
        }
        res.insert(p, (name, count));
        let ghost r = counts_view(res@);
        proof {
            assert(r =~= l.insert(p as int, x));
            vstd::seq_lib::to_multiset_insert(l, p as int, x);
            assert(counts@.take(i + 1) =~= counts@.take(i as int).push(x));
            broadcast use vstd::seq_lib::group_to_multiset_ensures;

            assert(r.to_multiset() =~= counts@.take(i + 1).to_multiset());
            assert forall|a: int, b: int| 0 <= a < b < r.len() implies goes_before(
                #[trigger] r[a],
                #[trigger] r[b],
            ) by {
                if a < p {
                    assert(r[a] == l[a]);
                } else if a > p {
                    assert(r[a] == l[a - 1]);
                }
                if b < p {
                    assert(r[b] == l[b]);
                } else if b > p {
                    assert(r[b] == l[b - 1]);
                    if a == p && b - 1 > p {
                        assert(goes_before(l[p as int], l[b - 1]));
                    }
                }
            }
            assert forall|k: int| 0 <= k < r.len() implies exists|j: int|
                0 <= j < i + 1 && counts@[j].0 == (#[trigger] r[k]).0 by {
                if k == p {
                    assert(counts@[i as int].0 == r[k].0);
                } else {
                    let m = if k < p {
                        k
                    } else {
                        k - 1
                    };
                    assert(r[k] == l[m]);
                    let j = choose|j: int| 0 <= j < i && counts@[j].0 == l[m].0;
                    assert(counts@[j].0 == r[k].0);
                }
            }
        }
        i += 1;
    }
    assert(counts@.take(i as int) =~= counts@);
    res
}

// ---------------------------------------------------------------------------
// Laws
// ---------------------------------------------------------------------------

/// The note stands right above the first line that declares an image: what
/// comes before that line and from it on stays as it is.
pub proof fn law_note_stands_above(
    a: Seq<char>,
    b: Seq<char>,
    found: Seq<Seq<Option<(usize, usize)>>>,
)
    requires
        found.len() > 0,
        found[0].len() > 0,
        found[0][0] is Some,
        (found[0][0]->0).0 == utf8(a).len(),
    ensures
        with_note(a + b, found) == a + AUTO_ASSET_NOTE@ + b,
{
    let none = Seq::<char>::empty();
    law_cut_between(a, none, b);
    assert(a + none =~= a);
}

/// The imports stand below their note, and without imports there is no note.
pub proof fn law_imports_block(imports: ImportsView)
    ensures
        imports.len() == 0 ==> imports_block(imports).len() == 0,
        imports.len() > 0 ==> imports_block(imports) == AUTO_IMPORT_NOTE@ + rendered(imports),
{
    law_render_empty(imports);
}

/// In a histogram no count is larger than one before it, and of two that are
/// equal the one with the lesser name comes first.
pub proof fn law_histogram(l: Seq<(Seq<char>, u32)>, i: int, j: int)
    requires
        by_count(l),
        0 <= i < j < l.len(),
    ensures
        l[i].1 >= l[j].1,
        l[i].1 == l[j].1 ==> text_less(l[i].0, l[j].0),
{
    assert(goes_before(l[i], l[j]));
}

} // verus!
