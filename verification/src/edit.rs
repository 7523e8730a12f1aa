//! Edits to a text: byte ranges and what to put in their place.

use vstd::prelude::*;
use vstd::string::*;
use vstd::utf8::is_continuation_byte;

use crate::text::{
    at_boundary, bytes_of, cut, law_cut_between, lemma_ascii_text, lemma_boundary, lemma_cut,
    lemma_cut_all, lemma_cut_concat, lemma_cut_of_concat, lemma_cut_twice, lemma_utf8_concat,
    lemma_utf8_injective, same, slice, utf8,
};

verus! {

/// Put `replacement` in place of the bytes `start..end`.
#[derive(Debug)]
pub struct Edit {
    pub start: usize,
    pub end: usize,
    pub replacement: String,
}

/// An edit with its replacement taken by view.
pub struct EditView {
    pub start: int,
    pub end: int,
    pub replacement: Seq<char>,
}

impl View for Edit {
    type V = EditView;

    open spec fn view(&self) -> EditView {
        EditView {
            start: self.start as int,
            end: self.end as int,
            replacement: self.replacement@,
        }
    }
}

impl Edit {
    pub(crate) fn copy(&self) -> (res: Edit)
        ensures
            res@ == self@,
    {
        Edit { start: self.start, end: self.end, replacement: self.replacement.clone() }
    }
}

/// The edits taken by view.
pub open spec fn edits_of(edits: Seq<Edit>) -> Seq<EditView> {
    edits.map_values(|e: Edit| e@)
}

/// The edit is to a range of the text between two characters.
pub open spec fn fits(text: Seq<char>, e: EditView) -> bool {
    &&& e.start <= e.end
    &&& at_boundary(utf8(text), e.start)
    &&& at_boundary(utf8(text), e.end)
}

/// Every edit is to a range of the text.
pub open spec fn all_fit(text: Seq<char>, edits: Seq<EditView>) -> bool {
    forall|i: int| 0 <= i < edits.len() ==> fits(text, #[trigger] edits[i])
}

// ---------------------------------------------------------------------------
// Splicing: edits that come in order and do not overlap
// ---------------------------------------------------------------------------

/// No edit starts before the end of an earlier one.
pub open spec fn in_order(edits: Seq<EditView>) -> bool {
    forall|i: int, j: int|
        0 <= i < j < edits.len() ==> (#[trigger] edits[i]).end <= (#[trigger] edits[j]).start
}

/// The text from byte `from` on, with the edits from the `i`-th on made.
pub open spec fn spliced_from(text: Seq<char>, edits: Seq<EditView>, i: int, from: int) -> Seq<char>
    decreases edits.len() - i,
{
    if i < 0 || i >= edits.len() {
        cut(text, from, utf8(text).len() as int)
    } else {
        cut(text, from, edits[i].start) + edits[i].replacement + spliced_from(
            text,
            edits,
            i + 1,
            edits[i].end,
        )
    }
}

/// The text with all the edits made: what lies between them as it was, and
/// the replacements in their places.
pub open spec fn spliced(text: Seq<char>, edits: Seq<EditView>) -> Seq<char> {
    spliced_from(text, edits, 0, 0)
}

/// Make edits that come in order.
pub fn splice(text: &str, edits: &Vec<Edit>) -> (res: String)
    requires
        all_fit(text@, edits_of(edits@)),
        in_order(edits_of(edits@)),
    ensures
        res@ == spliced(text@, edits_of(edits@)),
{
    let mut res: String = String::new();
    let mut pos: usize = 0;
    let mut i: usize = 0;
    let n: usize = bytes_of(text).len();
    proof {
        lemma_cut_all(text@);
    }
    while i < edits.len()
        invariant
            i <= edits@.len(),
            all_fit(text@, edits_of(edits@)),
            in_order(edits_of(edits@)),
            at_boundary(utf8(text@), pos as int),
            i < edits@.len() ==> pos <= edits_of(edits@)[i as int].start,
            spliced(text@, edits_of(edits@)) == res@ + spliced_from(
                text@,
                edits_of(edits@),
                i as int,
                pos as int,
            ),
        decreases edits@.len() - i,
    {
        let ghost (before, from) = (res@, pos as int);
        let e = &edits[i];
        assert(edits_of(edits@)[i as int] == e@);
        res.append(slice(text, pos, e.start));
        res.append(e.replacement.as_str());
        pos = e.end;
        i += 1;
        assert(res@ + spliced_from(text@, edits_of(edits@), i as int, pos as int) =~= before
            + spliced_from(text@, edits_of(edits@), i - 1, from));
    }
    res.append(slice(text, pos, n));
    res
}

/// No edit puts in more bytes than it takes out.
pub open spec fn none_grows(edits: Seq<EditView>) -> bool {
    forall|i: int|
        0 <= i < edits.len() ==> utf8((#[trigger] edits[i]).replacement).len() <= edits[i].end
            - edits[i].start
}

proof fn lemma_splice_not_longer(text: Seq<char>, edits: Seq<EditView>, i: int, from: int)
    requires
        all_fit(text, edits),
        in_order(edits),
        none_grows(edits),
        0 <= i <= edits.len(),
        at_boundary(utf8(text), from),
        i < edits.len() ==> from <= edits[i].start,
    ensures
        utf8(spliced_from(text, edits, i, from)).len() <= utf8(text).len() - from,
    decreases edits.len() - i,
{
    lemma_cut_all(text);
    if i < edits.len() {
        let e = edits[i];
        assert(fits(text, e));
        lemma_cut(text, from, e.start);
        if i + 1 < edits.len() {
            assert(e.end <= edits[i + 1].start);
        }
        lemma_splice_not_longer(text, edits, i + 1, e.end);
        let rest = spliced_from(text, edits, i + 1, e.end);
        lemma_utf8_concat(cut(text, from, e.start), e.replacement);
        lemma_utf8_concat(cut(text, from, e.start) + e.replacement, rest);
    } else {
        lemma_cut(text, from, utf8(text).len() as int);
    }
}

/// Edits that put in no more than they take out do not make a text longer.
pub proof fn law_splice_not_longer(text: Seq<char>, edits: Seq<EditView>)
    requires
        all_fit(text, edits),
        in_order(edits),
        none_grows(edits),
    ensures
        utf8(spliced(text, edits)).len() <= utf8(text).len(),
{
    lemma_cut_all(text);
    if edits.len() > 0 {
        assert(fits(text, edits[0]));
    }
    lemma_splice_not_longer(text, edits, 0, 0);
}

// ---------------------------------------------------------------------------
// One edit after the other
// ---------------------------------------------------------------------------

/// The text after one edit.
pub open spec fn edited(text: Seq<char>, e: EditView) -> Seq<char> {
    cut(text, 0, e.start) + e.replacement + cut(text, e.end, utf8(text).len() as int)
}

/// The text after the edits, made one after the other, each to what the one
/// before it left. Nothing where an edit does not fit what it is made to.
pub open spec fn edited_by(text: Seq<char>, edits: Seq<EditView>) -> Option<Seq<char>>
    decreases edits.len(),
{
    if edits.len() == 0 {
        Some(text)
    } else {
        match edited_by(text, edits.drop_last()) {
            Some(t) => if fits(t, edits.last()) {
                Some(edited(t, edits.last()))
            } else {
                None
            },
            None => None,
        }
    }
}

/// Once an edit does not fit, nothing comes of the rest.
proof fn lemma_edited_by_none(text: Seq<char>, edits: Seq<EditView>, i: int)
    requires
        0 <= i <= edits.len(),
        edited_by(text, edits.take(i)) is None,
    ensures
        edited_by(text, edits) is None,
    decreases edits.len() - i,
{
    if i < edits.len() {
        assert(edits.take(i + 1).drop_last() =~= edits.take(i));
        lemma_edited_by_none(text, edits, i + 1);
    } else {
        assert(edits.take(i) =~= edits);
    }
}

/// Make the edits one after the other.
pub fn edit_each(text: &str, edits: &Vec<Edit>) -> (res: Option<String>)
    ensures
        match res {
            Some(t) => edited_by(text@, edits_of(edits@)) == Some(t@),
            None => edited_by(text@, edits_of(edits@)) is None,
        },
{
    let mut current: String = text.to_string();
    let mut i: usize = 0;
    assert(edits_of(edits@).take(0) =~= Seq::<EditView>::empty());
    while i < edits.len()
        invariant
            i <= edits@.len(),
            edited_by(text@, edits_of(edits@).take(i as int)) == Some(current@),
        decreases edits@.len() - i,
    {
        let e = &edits[i];
        let ghost all = edits_of(edits@);
        let now = current.as_str();
        let n: usize = bytes_of(now).len();
        assert(all[i as int] == e@);
        assert(all.take(i + 1).drop_last() =~= all.take(i as int));
        assert(all.take(i + 1).last() == e@);
        if e.start > e.end || e.end > n || !now.is_char_boundary(e.start) || !now.is_char_boundary(
            e.end,
        ) {
            proof {
                reveal(utf8);
                if e.start <= e.end && e.end <= n {
                    lemma_boundary(now@, e.start as int);
                    lemma_boundary(now@, e.end as int);
                }
                lemma_edited_by_none(text@, all, i + 1);
            }
            return None;
        }
        proof {
            lemma_boundary(now@, e.start as int);
            lemma_boundary(now@, e.end as int);
            lemma_cut_all(now@);
            reveal(utf8);
        }
        let mut next: String = String::new();
        next.append(slice(now, 0, e.start));
        next.append(e.replacement.as_str());
        next.append(slice(now, e.end, n));
        assert(next@ =~= edited(now@, e@));
        current = next;
        i += 1;
    }
    assert(edits_of(edits@).take(i as int) =~= edits_of(edits@));
    Some(current)
}

/// A splice from one offset on, with the text before it, is the same from
/// every offset up to the first edit.
proof fn lemma_splice_point(text: Seq<char>, edits: Seq<EditView>, i: int, a: int, b: int)
    requires
        all_fit(text, edits),
        0 <= i <= edits.len(),
        a <= b,
        at_boundary(utf8(text), a),
        at_boundary(utf8(text), b),
        i < edits.len() ==> b <= edits[i].start,
    ensures
        cut(text, 0, a) + spliced_from(text, edits, i, a) == cut(text, 0, b) + spliced_from(
            text,
            edits,
            i,
            b,
        ),
{
    lemma_cut_all(text);
    let to = if i < edits.len() {
        edits[i].start
    } else {
        utf8(text).len() as int
    };
    if i < edits.len() {
        assert(fits(text, edits[i]));
    }
    let rest = if i < edits.len() {
        edits[i].replacement + spliced_from(text, edits, i + 1, edits[i].end)
    } else {
        Seq::empty()
    };
    lemma_cut_concat(text, 0, a, to);
    lemma_cut_concat(text, 0, b, to);
    assert(spliced_from(text, edits, i, a) =~= cut(text, a, to) + rest);
    assert(spliced_from(text, edits, i, b) =~= cut(text, b, to) + rest);
    assert(cut(text, 0, a) + (cut(text, a, to) + rest) =~= cut(text, 0, to) + rest);
    assert(cut(text, 0, b) + (cut(text, b, to) + rest) =~= cut(text, 0, to) + rest);
}

proof fn lemma_edited_in_reverse(text: Seq<char>, edits: Seq<EditView>, i: int)
    requires
        all_fit(text, edits),
        in_order(edits),
        0 <= i <= edits.len(),
    ensures
        edited_by(text, edits.skip(i).reverse()) == Some(
            cut(text, 0, 0) + spliced_from(text, edits, i, 0),
        ),
    decreases edits.len() - i,
{
    lemma_cut_all(text);
    let rev = edits.skip(i).reverse();
    if i == edits.len() {
        assert(rev =~= Seq::<EditView>::empty());
        lemma_cut_concat(text, 0, 0, utf8(text).len() as int);
    } else {
        let e = edits[i];
        assert(fits(text, e));
        lemma_edited_in_reverse(text, edits, i + 1);
        assert(rev.drop_last() =~= edits.skip(i + 1).reverse());
        assert(rev.last() == e);
        if i + 1 < edits.len() {
            assert(e.end <= edits[i + 1].start);
        }
        let tail = spliced_from(text, edits, i + 1, e.end);
        lemma_splice_point(text, edits, i + 1, 0, e.end);
        let head = cut(text, 0, e.end);
        let t = head + tail;
        lemma_cut_twice(text, e.start, e.end);
        lemma_cut_of_concat(head, tail, e.start);
        lemma_splice_point(text, edits, i, 0, e.start);
        assert(cut(text, 0, e.start) + spliced_from(text, edits, i, e.start) =~= edited(t, e)) by {
            lemma_cut_concat(text, 0, e.start, e.start);
            lemma_cut_twice(text, 0, e.start);
            assert(cut(text, e.start, e.start).len() == 0) by {
                assert(cut(text, 0, e.start) + cut(text, e.start, e.start) == cut(
                    text,
                    0,
                    e.start,
                ));
                assert((cut(text, 0, e.start) + cut(text, e.start, e.start)).len() == cut(
                    text,
                    0,
                    e.start,
                ).len());
            }
        }
    }
}

/// Made one after the other from the last to the first, edits that do not
/// overlap give the same as made all at once.
pub proof fn law_edited_in_reverse(text: Seq<char>, edits: Seq<EditView>)
    requires
        all_fit(text, edits),
        in_order(edits),
    ensures
        edited_by(text, edits.reverse()) == Some(spliced(text, edits)),
{
    lemma_edited_in_reverse(text, edits, 0);
    lemma_cut_all(text);
    lemma_cut_concat(text, 0, 0, 0);
    assert(edits.skip(0) =~= edits);
    assert(cut(text, 0, 0).len() == 0) by {
        assert((cut(text, 0, 0) + cut(text, 0, 0)).len() == cut(text, 0, 0).len());
    }
    assert(cut(text, 0, 0) + spliced_from(text, edits, 0, 0) =~= spliced(text, edits));
}

// ---------------------------------------------------------------------------
// Sorting
// ---------------------------------------------------------------------------

/// How edits are sorted.
pub enum Order {
    /// By their start; of those that start together, the longest first.
    Outer,
    /// By their start, the last first.
    Backward,
}

impl Order {
    /// `a` has to come before `b`.
    pub open spec fn puts_before(self, a: EditView, b: EditView) -> bool {
        match self {
            Order::Outer => a.start < b.start || (a.start == b.start && a.end > b.end),
            Order::Backward => a.start > b.start,
        }
    }

    fn before(&self, a: &Edit, b: &Edit) -> (res: bool)
        ensures
            res == self.puts_before(a@, b@),
    {
        match self {
            Order::Outer => a.start < b.start || (a.start == b.start && a.end > b.end),
            Order::Backward => a.start > b.start,
        }
    }
}

/// Where `e` goes in a sorted list: before the first edit that it has to come
/// before.
pub open spec fn place_from(l: Seq<EditView>, e: EditView, order: Order, i: int) -> int
    decreases l.len() - i,
{
    if 0 <= i < l.len() && !order.puts_before(e, l[i]) {
        place_from(l, e, order, i + 1)
    } else {
        i
    }
}

/// The edits sorted; those that the order leaves open stay as they came.
pub open spec fn sorted(edits: Seq<EditView>, order: Order) -> Seq<EditView>
    decreases edits.len(),
{
    if edits.len() == 0 {
        edits
    } else {
        let l = sorted(edits.drop_last(), order);
        l.insert(place_from(l, edits.last(), order, 0), edits.last())
    }
}

/// In the list no edit stands after one that it has to come before.
pub open spec fn is_sorted(l: Seq<EditView>, order: Order) -> bool {
    forall|i: int, j: int|
        0 <= i < j < l.len() ==> !order.puts_before(#[trigger] l[j], #[trigger] l[i])
}

proof fn lemma_place(l: Seq<EditView>, e: EditView, order: Order, i: int)
    requires
        0 <= i <= l.len(),
    ensures
        i <= place_from(l, e, order, i) <= l.len(),
        forall|j: int| i <= j < place_from(l, e, order, i) ==> !order.puts_before(e, #[trigger] l[j]),
        place_from(l, e, order, i) < l.len() ==> order.puts_before(
            e,
            l[place_from(l, e, order, i)],
        ),
    decreases l.len() - i,
{
    if i < l.len() && !order.puts_before(e, l[i]) {
        lemma_place(l, e, order, i + 1);
    }
}

/// Sorting puts the edits in their order and keeps them all.
pub proof fn law_sorted(edits: Seq<EditView>, order: Order)
    ensures
        is_sorted(sorted(edits, order), order),
        sorted(edits, order).to_multiset() == edits.to_multiset(),
        sorted(edits, order).len() == edits.len(),
    decreases edits.len(),
{
    broadcast use vstd::seq_lib::group_to_multiset_ensures;

    if edits.len() > 0 {
        law_sorted(edits.drop_last(), order);
        let l = sorted(edits.drop_last(), order);
        let e = edits.last();
        lemma_place(l, e, order, 0);
        let p = place_from(l, e, order, 0);
        let s = l.insert(p, e);
        assert forall|i: int, j: int| 0 <= i < j < s.len() implies !order.puts_before(
            #[trigger] s[j],
            #[trigger] s[i],
        ) by {
            if i < p {
                assert(s[i] == l[i]);
            } else if i > p {
                assert(s[i] == l[i - 1]);
            }
            if j < p {
                assert(s[j] == l[j]);
            } else if j > p {
                assert(s[j] == l[j - 1]);
                if i == p && j - 1 > p {
                    assert(!order.puts_before(l[j - 1], l[p]));
                }
            }
        }
        assert(edits =~= edits.drop_last().push(e));
        vstd::seq_lib::to_multiset_insert(l, p, e);
    }
}

/// Sort the edits.
pub fn sort(edits: &Vec<Edit>, order: &Order) -> (res: Vec<Edit>)
    ensures
        edits_of(res@) == sorted(edits_of(edits@), *order),
{
    let mut res: Vec<Edit> = Vec::new();
    let mut i: usize = 0;
    assert(edits_of(res@) =~= sorted(edits_of(edits@).take(0), *order));
    while i < edits.len()
        invariant
            i <= edits@.len(),
            edits_of(res@) == sorted(edits_of(edits@).take(i as int), *order),
        decreases edits@.len() - i,
    {
        let e = edits[i].copy();
        let ghost l = edits_of(res@);
        let mut p: usize = 0;
        while p < res.len() && !order.before(&e, &res[p])
            invariant
                p <= res@.len(),
                l == edits_of(res@),
                place_from(l, e@, *order, 0) == place_from(l, e@, *order, p as int),
            decreases res@.len() - p,
        {
            p += 1;
        }
        res.insert(p, e);
        i += 1;
        assert(edits_of(edits@).take(i as int).drop_last() =~= edits_of(edits@).take(i - 1));
        assert(edits_of(res@) =~= l.insert(p as int, e@));
    }
    assert(edits_of(edits@).take(i as int) =~= edits_of(edits@));
    res
}

/// No two edits overlap, and each takes something out.
pub open spec fn apart(edits: Seq<EditView>) -> bool {
    &&& forall|i: int| 0 <= i < edits.len() ==> (#[trigger] edits[i]).start < edits[i].end
    &&& forall|i: int, j: int|
        #![trigger edits[i], edits[j]]
        0 <= i < edits.len() && 0 <= j < edits.len() && i != j ==> edits[i].end <= edits[j].start
            || edits[j].end <= edits[i].start
}

#[verifier::rlimit(40)]
proof fn lemma_apart_sorted(edits: Seq<EditView>, order: Order)
    requires
        apart(edits),
    ensures
        apart(sorted(edits, order)),
        forall|i: int|
            0 <= i < sorted(edits, order).len() ==> edits.contains(
                #[trigger] sorted(edits, order)[i],
            ),
    decreases edits.len(),
{
    if edits.len() > 0 {
        let (d, e) = (edits.drop_last(), edits.last());
        let n = edits.len() - 1;
        assert forall|i: int| 0 <= i < d.len() implies (#[trigger] d[i]).start < d[i].end by {
            assert(d[i] == edits[i]);
        }
        assert forall|i: int, j: int|
            #![trigger d[i], d[j]]
            0 <= i < d.len() && 0 <= j < d.len() && i != j implies d[i].end <= d[j].start
            || d[j].end <= d[i].start by {
            assert(d[i] == edits[i] && d[j] == edits[j]);
        }
        lemma_apart_sorted(d, order);
        let l = sorted(d, order);
        lemma_place(l, e, order, 0);
        let p = place_from(l, e, order, 0);
        let s = sorted(edits, order);
        assert forall|i: int| 0 <= i < l.len() implies edits.contains(#[trigger] l[i]) && (l[i].end
            <= e.start || e.end <= l[i].start) by {
            let k = choose|k: int| 0 <= k < d.len() && d[k] == l[i];
            assert(edits[k] == l[i]);
            assert(edits[n] == e);
        }
        assert forall|i: int| 0 <= i < s.len() implies edits.contains(#[trigger] s[i]) && s[i].start
            < s[i].end by {
            if i < p {
                assert(s[i] == l[i]);
            } else if i > p {
                assert(s[i] == l[i - 1]);
            } else {
                assert(edits[n] == s[i]);
            }
        }
        assert forall|i: int, j: int|
            #![trigger s[i], s[j]]
            0 <= i < s.len() && 0 <= j < s.len() && i != j implies s[i].end <= s[j].start
            || s[j].end <= s[i].start by {
            let a = if i < p {
                i
            } else {
                i - 1
            };
            let b = if j < p {
                j
            } else {
                j - 1
            };
            if i != p {
                assert(s[i] == l[a]);
            }
            if j != p {
                assert(s[j] == l[b]);
            }
        }
    }
}

/// Edits that do not overlap, made one after the other from the last to the
/// first: each of them fits, and they give the same as made all at once.
pub proof fn law_edits_apart(text: Seq<char>, edits: Seq<EditView>)
    requires
        all_fit(text, edits),
        apart(edits),
    ensures
        in_order(sorted(edits, Order::Backward).reverse()),
        edited_by(text, sorted(edits, Order::Backward)) == Some(
            spliced(text, sorted(edits, Order::Backward).reverse()),
        ),
{
    let s = sorted(edits, Order::Backward);
    let r = s.reverse();
    lemma_apart_sorted(edits, Order::Backward);
    law_sorted(edits, Order::Backward);
    assert forall|i: int| 0 <= i < r.len() implies fits(text, #[trigger] r[i]) by {
        let j = s.len() - 1 - i;
        assert(r[i] == s[j]);
        let k = choose|k: int| 0 <= k < edits.len() && edits[k] == s[j];
        assert(fits(text, edits[k]));
    }
    assert forall|i: int, j: int| 0 <= i < j < r.len() implies (#[trigger] r[i]).end
        <= (#[trigger] r[j]).start by {
        let (a, b) = (s.len() - 1 - i, s.len() - 1 - j);
        assert(r[i] == s[a] && r[j] == s[b]);
        assert(!Order::Backward.puts_before(s[a], s[b]));
        assert(s[a].start < s[a].end && s[b].start < s[b].end);
        assert(s[a].end <= s[b].start || s[b].end <= s[a].start);
    }
    law_edited_in_reverse(text, r);
    assert(r.reverse() =~= s);
}

// ---------------------------------------------------------------------------
// Nested edits
// ---------------------------------------------------------------------------

/// Of edits that come sorted, those that do not start inside one that is kept
/// before them.
pub open spec fn outermost(edits: Seq<EditView>) -> Seq<EditView>
    decreases edits.len(),
{
    if edits.len() == 0 {
        edits
    } else {
        let kept = outermost(edits.drop_last());
        if kept.len() > 0 && edits.last().start < kept.last().end {
            kept
        } else {
            kept.push(edits.last())
        }
    }
}

/// `e` starts inside `outer`.
pub open spec fn starts_inside(e: EditView, outer: EditView) -> bool {
    outer.start <= e.start < outer.end
}

/// Of edits that come sorted, those that are kept come in order and do not
/// overlap, each of them was there, and every edit is kept or starts inside
/// one that is.
pub proof fn law_outermost(text: Seq<char>, edits: Seq<EditView>)
    requires
        all_fit(text, edits),
        is_sorted(edits, Order::Outer),
    ensures
        all_fit(text, outermost(edits)),
        in_order(outermost(edits)),
        forall|i: int|
            0 <= i < outermost(edits).len() ==> edits.contains(#[trigger] outermost(edits)[i]),
        forall|i: int|
            0 <= i < edits.len() ==> outermost(edits).contains(#[trigger] edits[i]) || exists|
                k: int,
            |
                0 <= k < outermost(edits).len() && starts_inside(
                    edits[i],
                    #[trigger] outermost(edits)[k],
                ),
    decreases edits.len(),
{
    if edits.len() > 0 {
        let d = edits.drop_last();
        let last = edits.last();
        let (kept, res) = (outermost(d), outermost(edits));
        assert forall|i: int| 0 <= i < d.len() implies fits(text, #[trigger] d[i]) by {
            assert(d[i] == edits[i]);
        }
        assert forall|i: int, j: int| 0 <= i < j < d.len() implies !Order::Outer.puts_before(
            #[trigger] d[j],
            #[trigger] d[i],
        ) by {
            assert(d[i] == edits[i] && d[j] == edits[j]);
        }
        law_outermost(text, d);
        assert(edits[edits.len() - 1] == last);
        assert forall|i: int| 0 <= i < kept.len() implies edits.contains(#[trigger] kept[i]) && (
        kept[i].start <= last.start) by {
            let j = choose|j: int| 0 <= j < d.len() && d[j] == kept[i];
            assert(edits[j] == kept[i]);
        }
        assert forall|i: int| 0 <= i < edits.len() implies res.contains(#[trigger] edits[i])
            || exists|k: int|
            0 <= k < res.len() && starts_inside(edits[i], #[trigger] res[k]) by {
            if i < d.len() {
                assert(d[i] == edits[i]);
                if kept.contains(d[i]) {
                    let j = choose|j: int| 0 <= j < kept.len() && kept[j] == d[i];
                    assert(res[j] == edits[i]);
                } else {
                    let k = choose|k: int|
                        0 <= k < kept.len() && starts_inside(d[i], #[trigger] kept[k]);
                    assert(res[k] == kept[k]);
                }
            } else if kept.len() > 0 && last.start < kept.last().end {
                assert(starts_inside(edits[i], res[kept.len() - 1]));
            } else {
                assert(res[kept.len() as int] == last);
            }
        }
        if !(kept.len() > 0 && last.start < kept.last().end) {
            assert forall|i: int, j: int| 0 <= i < j < res.len() implies (#[trigger] res[i]).end
                <= (#[trigger] res[j]).start by {
                if j == kept.len() {
                    if i < kept.len() - 1 {
                        assert(kept[i].end <= kept[kept.len() - 1].start);
                        assert(fits(text, kept[kept.len() - 1]));
                    }
                } else {
                    assert(kept[i].end <= kept[j].start);
                }
            }
        }
    }
}

/// Of sorted edits, keep the outermost.
pub fn keep_outermost(edits: &Vec<Edit>) -> (res: Vec<Edit>)
    ensures
        edits_of(res@) == outermost(edits_of(edits@)),
{
    let mut res: Vec<Edit> = Vec::new();
    let mut i: usize = 0;
    assert(edits_of(res@) =~= outermost(edits_of(edits@).take(0)));
    while i < edits.len()
        invariant
            i <= edits@.len(),
            edits_of(res@) == outermost(edits_of(edits@).take(i as int)),
        decreases edits@.len() - i,
    {
        let e = edits[i].copy();
        let ghost kept = edits_of(res@);
        let inside = res.len() > 0 && e.start < res[res.len() - 1].end;
        if !inside {
            res.push(e);
            assert(edits_of(res@) =~= kept.push(e@));
        }
        i += 1;
        assert(edits_of(edits@).take(i as int).drop_last() =~= edits_of(edits@).take(i - 1));
    }
    assert(edits_of(edits@).take(i as int) =~= edits_of(edits@));
    res
}

/// Whether an edit is among others.
pub fn is_among(edits: &Vec<Edit>, e: &Edit) -> (res: bool)
    ensures
        res == edits_of(edits@).contains(e@),
{
    let ghost all = edits_of(edits@);
    let mut i: usize = 0;
    while i < edits.len()
        invariant
            i <= edits@.len(),
            all == edits_of(edits@),
            forall|k: int| 0 <= k < i ==> #[trigger] all[k] != e@,
        decreases edits@.len() - i,
    {
        assert(all[i as int] == edits@[i as int]@);
        if edits[i].start == e.start && edits[i].end == e.end && same(
            edits[i].replacement.as_str(),
            e.replacement.as_str(),
        ) {
            return true;
        }
        i += 1;
    }
    false
}

// ---------------------------------------------------------------------------
// Blanks in place of what is written
// ---------------------------------------------------------------------------

/// As many spaces as the text has bytes.
pub open spec fn blank(text: Seq<char>) -> Seq<char> {
    Seq::new(utf8(text).len(), |i: int| ' ')
}

/// The edits with blanks in place of what they write.
pub open spec fn blanked(edits: Seq<EditView>) -> Seq<EditView> {
    edits.map_values(|e: EditView| EditView { replacement: blank(e.replacement), ..e })
}

/// The text `t` is `s` with some of its bytes blank.
pub open spec fn is_blanked(s: Seq<char>, t: Seq<char>) -> bool {
    &&& utf8(s).len() == utf8(t).len()
    &&& forall|i: int|
        0 <= i < utf8(t).len() ==> #[trigger] utf8(t)[i] == utf8(s)[i] || utf8(t)[i] == ' ' as u8
}

proof fn lemma_blank(text: Seq<char>)
    ensures
        utf8(blank(text)).len() == utf8(text).len(),
        forall|i: int| 0 <= i < utf8(text).len() ==> #[trigger] utf8(blank(text))[i] == ' ' as u8,
{
    lemma_ascii_text(blank(text));
}

proof fn lemma_blanked_step(s: Seq<char>, t: Seq<char>, e: EditView)
    requires
        is_blanked(s, t),
        fits(s, e),
    ensures
        ({
            let b = EditView { replacement: blank(e.replacement), ..e };
            fits(t, b) && is_blanked(edited(s, e), edited(t, b))
        }),
{
    let b = EditView { replacement: blank(e.replacement), ..e };
    let (u, v) = (utf8(s), utf8(t));
    let h = u.len() as int;
    lemma_blank(e.replacement);
    lemma_cut_all(s);
    lemma_cut_all(t);
    assert(!is_continuation_byte(' ' as u8));
    assert(fits(t, b)) by {
        if e.start < h {
            assert(v[e.start] == u[e.start] || v[e.start] == ' ' as u8);
        }
        if e.end < h {
            assert(v[e.end] == u[e.end] || v[e.end] == ' ' as u8);
        }
    }
    lemma_cut(s, 0, e.start);
    lemma_cut(s, e.end, h);
    lemma_cut(t, 0, e.start);
    lemma_cut(t, e.end, h);
    lemma_utf8_concat(cut(s, 0, e.start), e.replacement);
    lemma_utf8_concat(cut(s, 0, e.start) + e.replacement, cut(s, e.end, h));
    lemma_utf8_concat(cut(t, 0, e.start), b.replacement);
    lemma_utf8_concat(cut(t, 0, e.start) + b.replacement, cut(t, e.end, h));
    let (x, y) = (utf8(edited(s, e)), utf8(edited(t, b)));
    let n = utf8(e.replacement).len() as int;
    assert forall|i: int| 0 <= i < y.len() implies #[trigger] y[i] == x[i] || y[i] == ' ' as u8 by {
        if i < e.start {
            assert(y[i] == v[i] && x[i] == u[i]);
        } else if i < e.start + n {
            assert(y[i] == utf8(b.replacement)[i - e.start]);
        } else {
            let k = i - e.start - n + e.end;
            assert(y[i] == v[k] && x[i] == u[k]);
        }
    }
}

/// Where edits can be made, they can be made with blanks in place of what they
/// write. What comes of it is the same text, but for those blanks.
pub proof fn law_blanked(text: Seq<char>, edits: Seq<EditView>)
    requires
        edited_by(text, edits) is Some,
    ensures
        edited_by(text, blanked(edits)) is Some,
        is_blanked(edited_by(text, edits)->0, edited_by(text, blanked(edits))->0),
    decreases edits.len(),
{
    if edits.len() > 0 {
        law_blanked(text, edits.drop_last());
        assert(blanked(edits).drop_last() =~= blanked(edits.drop_last()));
        lemma_blanked_step(
            edited_by(text, edits.drop_last())->0,
            edited_by(text, blanked(edits.drop_last()))->0,
            edits.last(),
        );
    }
}

fn blank_text(text: &str) -> (res: String)
    ensures
        res@ == blank(text@),
{
    let n: usize = bytes_of(text).len();
    let mut res: String = String::new();
    let mut i: usize = 0;
    assert(res@ =~= blank(text@).take(0));
    while i < n
        invariant
            i <= n,
            n == utf8(text@).len(),
            res@ == blank(text@).take(i as int),
        decreases n - i,
    {
        res.push(' ');
        i += 1;
        assert(res@ =~= blank(text@).take(i as int));
    }
    assert(blank(text@).take(i as int) =~= blank(text@));
    res
}

/// Put blanks in place of what the edits write.
pub fn blank_out(edits: &Vec<Edit>) -> (res: Vec<Edit>)
    ensures
        edits_of(res@) == blanked(edits_of(edits@)),
{
    let ghost wanted = blanked(edits_of(edits@));
    let mut res: Vec<Edit> = Vec::new();
    let mut i: usize = 0;
    assert(edits_of(res@) =~= wanted.take(0));
    while i < edits.len()
        invariant
            i <= edits@.len(),
            wanted == blanked(edits_of(edits@)),
            edits_of(res@) == wanted.take(i as int),
        decreases edits@.len() - i,
    {
        let e = &edits[i];
        let ghost before = edits_of(res@);
        assert(edits_of(edits@)[i as int] == e@);
        let b = Edit {
            start: e.start,
            end: e.end,
            replacement: blank_text(e.replacement.as_str()),
        };
        assert(b@ == wanted[i as int]);
        res.push(b);
        i += 1;
        assert(edits_of(res@) =~= before.push(b@));
        assert(edits_of(res@) =~= wanted.take(i as int));
    }
    assert(wanted.take(i as int) =~= wanted);
    res
}

// ---------------------------------------------------------------------------
// What edits come to
// ---------------------------------------------------------------------------

/// The edits with their places moved on by `n` bytes.
pub open spec fn moved(edits: Seq<EditView>, n: int) -> Seq<EditView> {
    edits.map_values(|e: EditView| EditView { start: e.start + n, end: e.end + n, ..e })
}

proof fn lemma_cut_behind(a: Seq<char>, b: Seq<char>, i: int, j: int)
    requires
        i <= j,
        at_boundary(utf8(b), i),
        at_boundary(utf8(b), j),
    ensures
        cut(a + b, utf8(a).len() + i, utf8(a).len() + j) == cut(b, i, j),
{
    let n = utf8(a).len() as int;
    let u = utf8(a + b);
    lemma_utf8_concat(a, b);
    lemma_cut_all(a);
    lemma_cut_of_concat(a, b, n);
    assert(at_boundary(u, n + i)) by {
        if i < utf8(b).len() {
            assert(u[n + i] == utf8(b)[i]);
        }
    }
    assert(at_boundary(u, n + j)) by {
        if j < utf8(b).len() {
            assert(u[n + j] == utf8(b)[j]);
        }
    }
    lemma_cut(a + b, n + i, n + j);
    lemma_cut(b, i, j);
    assert(u.subrange(n + i, n + j) =~= utf8(b).subrange(i, j));
    lemma_utf8_injective(cut(a + b, n + i, n + j), cut(b, i, j));
}

proof fn lemma_spliced_behind(
    a: Seq<char>,
    b: Seq<char>,
    first: EditView,
    edits: Seq<EditView>,
    i: int,
    from: int,
)
    requires
        all_fit(b, edits),
        in_order(edits),
        0 <= i <= edits.len(),
        at_boundary(utf8(b), from),
        i < edits.len() ==> from <= edits[i].start,
    ensures
        spliced_from(
            a + b,
            seq![first] + moved(edits, utf8(a).len() as int),
            i + 1,
            utf8(a).len() + from,
        ) == spliced_from(b, edits, i, from),
    decreases edits.len() - i,
{
    let n = utf8(a).len() as int;
    let all = seq![first] + moved(edits, n);
    lemma_utf8_concat(a, b);
    lemma_cut_all(b);
    if i < edits.len() {
        let e = edits[i];
        assert(fits(b, e));
        assert(all[i + 1] == moved(edits, n)[i]);
        lemma_cut_behind(a, b, from, e.start);
        if i + 1 < edits.len() {
            assert(edits[i].end <= edits[i + 1].start);
        }
        lemma_spliced_behind(a, b, first, edits, i + 1, e.end);
    } else {
        lemma_cut_behind(a, b, from, utf8(b).len() as int);
    }
}

/// The first edit puts its text in place of what stood there. What comes before
/// it stays as it is, and the other edits are made to what comes behind it.
/// Without edits the text stays as it is.
pub proof fn law_spliced(
    head: Seq<char>,
    old_text: Seq<char>,
    new_text: Seq<char>,
    tail: Seq<char>,
    edits: Seq<EditView>,
)
    requires
        all_fit(tail, edits),
        in_order(edits),
    ensures
        ({
            let (m, n) = (utf8(head).len() as int, utf8(head + old_text).len() as int);
            let first = EditView { start: m, end: n, replacement: new_text };
            spliced(head + old_text + tail, seq![first] + moved(edits, n)) == head + new_text
                + spliced(tail, edits)
        }),
        spliced(head, Seq::empty()) == head,
{
    let (m, n) = (utf8(head).len() as int, utf8(head + old_text).len() as int);
    let first = EditView { start: m, end: n, replacement: new_text };
    let all = seq![first] + moved(edits, n);
    law_cut_between(head, old_text, tail);
    lemma_cut_all(head);
    lemma_cut_all(tail);
    if edits.len() > 0 {
        assert(fits(tail, edits[0]));
    }
    lemma_spliced_behind(head + old_text, tail, first, edits, 0, 0);
    assert(all[0] == first);
}

/// An edit puts its text in place of what stood there, and leaves the rest.
pub proof fn law_edited(a: Seq<char>, old_text: Seq<char>, new_text: Seq<char>, b: Seq<char>)
    ensures
        ({
            let e = EditView {
                start: utf8(a).len() as int,
                end: utf8(a + old_text).len() as int,
                replacement: new_text,
            };
            &&& fits(a + old_text + b, e)
            &&& edited(a + old_text + b, e) == a + new_text + b
            &&& edited_by(a + old_text + b, seq![e]) == Some(a + new_text + b)
        }),
{
    let e = EditView {
        start: utf8(a).len() as int,
        end: utf8(a + old_text).len() as int,
        replacement: new_text,
    };
    law_cut_between(a, old_text, b);
    assert(seq![e].drop_last() =~= Seq::empty());
    assert(edited_by(a + old_text + b, Seq::<EditView>::empty()) == Some(a + old_text + b));
}

/// Of two edits that are made by themselves, the one that starts inside the
/// other goes with it; of others none is lost.
pub proof fn law_two_edits(a: EditView, b: EditView)
    requires
        a.start < b.start,
    ensures
        b.start < a.end ==> outermost(seq![a, b]) == seq![a],
        a.end <= b.start ==> outermost(seq![a, b]) == seq![a, b],
        sorted(seq![a, b], Order::Outer) == seq![a, b],
        sorted(seq![b, a], Order::Outer) == seq![a, b],
        sorted(seq![a, b], Order::Backward) == seq![b, a],
        sorted(seq![b, a], Order::Backward) == seq![b, a],
{
    reveal_with_fuel(sorted, 3);
    reveal_with_fuel(outermost, 3);
    reveal_with_fuel(place_from, 2);
    assert(seq![a, b].drop_last() =~= seq![a]);
    assert(seq![b, a].drop_last() =~= seq![b]);
    assert(seq![a].drop_last() =~= Seq::empty());
    assert(seq![b].drop_last() =~= Seq::empty());
    assert(outermost(seq![a]) =~= seq![a]);
    assert(sorted(seq![a], Order::Outer) =~= seq![a]);
    assert(sorted(seq![b], Order::Outer) =~= seq![b]);
    assert(sorted(seq![a], Order::Backward) =~= seq![a]);
    assert(sorted(seq![b], Order::Backward) =~= seq![b]);
    assert(outermost(seq![a, b]) =~= if b.start < a.end {
        seq![a]
    } else {
        seq![a, b]
    });
    assert(sorted(seq![a, b], Order::Outer) =~= seq![a, b]);
    assert(sorted(seq![b, a], Order::Outer) =~= seq![a, b]);
    assert(sorted(seq![a, b], Order::Backward) =~= seq![b, a]);
    assert(sorted(seq![b, a], Order::Backward) =~= seq![b, a]);
}

/// Of two edits that start in the same place the longer one comes first, so
/// that it is the one that is made.
pub proof fn law_longer_edit_goes_first(a: EditView, b: EditView)
    requires
        a.start == b.start,
        b.start <= b.end < a.end,
    ensures
        sorted(seq![a, b], Order::Outer) == seq![a, b],
        sorted(seq![b, a], Order::Outer) == seq![a, b],
        outermost(seq![a, b]) == seq![a],
{
    reveal_with_fuel(sorted, 3);
    reveal_with_fuel(outermost, 3);
    reveal_with_fuel(place_from, 2);
    assert(seq![a, b].drop_last() =~= seq![a]);
    assert(seq![b, a].drop_last() =~= seq![b]);
    assert(seq![a].drop_last() =~= Seq::empty());
    assert(seq![b].drop_last() =~= Seq::empty());
    assert(outermost(seq![a]) =~= seq![a]);
    assert(sorted(seq![a], Order::Outer) =~= seq![a]);
    assert(sorted(seq![b], Order::Outer) =~= seq![b]);
    assert(sorted(seq![a, b], Order::Outer) =~= seq![a, b]);
    assert(sorted(seq![b, a], Order::Outer) =~= seq![a, b]);
}

} // verus!
