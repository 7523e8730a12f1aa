//! Paths as lists of their parts.

use vstd::prelude::*;

use crate::text::same;

verus! {

/// A part of a path.
#[derive(Debug)]
pub enum Part {
    /// What stands before the root, as in `C:`.
    Prefix(String),
    Root,
    /// The directory itself: `.`.
    Current,
    /// The directory above: `..`.
    Parent,
    Normal(String),
}

/// A part with its text taken by view.
pub enum PartView {
    Prefix(Seq<char>),
    Root,
    Current,
    Parent,
    Normal(Seq<char>),
}

impl View for Part {
    type V = PartView;

    open spec fn view(&self) -> PartView {
        match *self {
            Part::Prefix(t) => PartView::Prefix(t@),
            Part::Root => PartView::Root,
            Part::Current => PartView::Current,
            Part::Parent => PartView::Parent,
            Part::Normal(t) => PartView::Normal(t@),
        }
    }
}

/// The parts taken by view.
pub open spec fn parts_view(l: Seq<Part>) -> Seq<PartView> {
    l.map_values(|p: Part| p@)
}

impl Part {
    fn copy(&self) -> (res: Part)
        ensures
            res@ == self@,
    {
        match self {
            Part::Prefix(t) => Part::Prefix(t.clone()),
            Part::Root => Part::Root,
            Part::Current => Part::Current,
            Part::Parent => Part::Parent,
            Part::Normal(t) => Part::Normal(t.clone()),
        }
    }

    fn equals(&self, other: &Part) -> (res: bool)
        ensures
            res == (self@ == other@),
    {
        match (self, other) {
            (Part::Prefix(a), Part::Prefix(b)) => same(a.as_str(), b.as_str()),
            (Part::Normal(a), Part::Normal(b)) => same(a.as_str(), b.as_str()),
            (Part::Root, Part::Root) => true,
            (Part::Current, Part::Current) => true,
            (Part::Parent, Part::Parent) => true,
            _ => false,
        }
    }
}

// ---------------------------------------------------------------------------
// Normal form
// ---------------------------------------------------------------------------

/// A path in normal form with one more part: `.` adds nothing, and `..` takes
/// a name before it away.
pub open spec fn stepped(path: Seq<PartView>, part: PartView) -> Seq<PartView> {
    match part {
        PartView::Current => path,
        PartView::Parent => if path.len() > 0 && path.last() is Normal {
            path.drop_last()
        } else {
            path.push(part)
        },
        _ => path.push(part),
    }
}

/// A path in normal form.
pub open spec fn normalized(parts: Seq<PartView>) -> Seq<PartView>
    decreases parts.len(),
{
    if parts.len() == 0 {
        Seq::empty()
    } else {
        stepped(normalized(parts.drop_last()), parts.last())
    }
}

/// The path without `.`, and with every `..` taken up by a name before it
/// where there is one.
pub fn normalize(parts: &Vec<Part>) -> (res: Vec<Part>)
    ensures
        parts_view(res@) == normalized(parts_view(parts@)),
{
    let ghost all = parts_view(parts@);
    let mut res: Vec<Part> = Vec::new();
    let mut i: usize = 0;
    assert(parts_view(res@) =~= normalized(all.take(0)));
    while i < parts.len()
        invariant
            i <= parts@.len(),
            all == parts_view(parts@),
            parts_view(res@) == normalized(all.take(i as int)),
        decreases parts@.len() - i,
    {
        let part = &parts[i];
        let ghost before = parts_view(res@);
        assert(all[i as int] == part@);
        assert(all.take(i + 1).drop_last() =~= all.take(i as int));
        match part {
            Part::Current => {},
            Part::Parent => {
                let named = res.len() > 0 && (match &res[res.len() - 1] {
                    Part::Normal(_) => true,
                    _ => false,
                });
                if named {
                    let _ = res.pop();
                    assert(parts_view(res@) =~= before.drop_last());
                } else {
                    res.push(Part::Parent);
                    assert(parts_view(res@) =~= before.push(PartView::Parent));
                }
            },
            _ => {
                let copy = part.copy();
                res.push(copy);
                assert(parts_view(res@) =~= before.push(copy@));
            },
        }
        i += 1;
    }
    assert(all.take(i as int) =~= all);
    res
}

// ---------------------------------------------------------------------------
// Relative paths
// ---------------------------------------------------------------------------

/// How many parts the two paths have in common at their start, from `i` on.
pub open spec fn common_from(a: Seq<PartView>, b: Seq<PartView>, i: int) -> int
    decreases a.len() - i,
{
    if 0 <= i < a.len() && i < b.len() && a[i] == b[i] {
        common_from(a, b, i + 1)
    } else {
        i
    }
}

/// The path with one more part pushed. A root or a prefix starts it anew; a
/// prefix stays before a root.
pub open spec fn pushed(path: Seq<PartView>, part: PartView) -> Seq<PartView> {
    match part {
        PartView::Prefix(_) => seq![part],
        PartView::Root => if path.len() > 0 && path[0] is Prefix {
            seq![path[0], part]
        } else {
            seq![part]
        },
        _ => path.push(part),
    }
}

/// The path with more parts pushed, one after the other.
pub open spec fn pushed_all(path: Seq<PartView>, more: Seq<PartView>) -> Seq<PartView>
    decreases more.len(),
{
    if more.len() == 0 {
        path
    } else {
        pushed(pushed_all(path, more.drop_last()), more.last())
    }
}

/// As many steps up.
pub open spec fn parents(n: nat) -> Seq<PartView> {
    Seq::new(n, |i: int| PartView::Parent)
}

/// The way from one path in normal form to another: up to what they have in
/// common, and down from there.
pub open spec fn way(from: Seq<PartView>, to: Seq<PartView>) -> Seq<PartView> {
    let k = common_from(from, to, 0);
    pushed_all(parents((from.len() - k) as nat), to.skip(k))
}

/// The path to `to` as seen from the directory `from`; `.` where they are the
/// same.
pub open spec fn relative(from: Seq<PartView>, to: Seq<PartView>) -> Seq<PartView> {
    let w = way(normalized(from), normalized(to));
    if w.len() == 0 {
        seq![PartView::Current]
    } else {
        w
    }
}

proof fn lemma_common(a: Seq<PartView>, b: Seq<PartView>, i: int)
    requires
        0 <= i <= a.len(),
        i <= b.len(),
    ensures
        i <= common_from(a, b, i) <= a.len(),
        common_from(a, b, i) <= b.len(),
        forall|j: int| i <= j < common_from(a, b, i) ==> a[j] == b[j],
    decreases a.len() - i,
{
    if i < a.len() && i < b.len() && a[i] == b[i] {
        lemma_common(a, b, i + 1);
    }
}

fn push(path: &mut Vec<Part>, part: &Part)
    ensures
        parts_view(final(path)@) == pushed(parts_view(old(path)@), part@),
{
    let ghost before = parts_view(path@);
    let copy = part.copy();
    match part {
        Part::Prefix(_) => {
            path.clear();
            path.push(copy);
            assert(parts_view(path@) =~= seq![copy@]);
        },
        Part::Root => {
            let prefixed = path.len() > 0 && (match &path[0] {
                Part::Prefix(_) => true,
                _ => false,
            });
            if prefixed {
                assert(before[0] is Prefix);
                path.truncate(1);
                path.push(copy);
                assert(parts_view(path@) =~= seq![before[0], copy@]);
            } else {
                path.clear();
                path.push(copy);
                assert(parts_view(path@) =~= seq![copy@]);
            }
        },
        _ => {
            path.push(copy);
            assert(parts_view(path@) =~= before.push(copy@));
        },
    }
}

/// The path to `to` as seen from the directory `from_dir`. Both are taken as
/// they are, without a look at the file system.
pub fn relative_path(from_dir: &Vec<Part>, to: &Vec<Part>) -> (res: Vec<Part>)
    ensures
        parts_view(res@) == relative(parts_view(from_dir@), parts_view(to@)),
{
    let a = normalize(from_dir);
    let b = normalize(to);
    let ghost (n, m) = (parts_view(a@), parts_view(b@));
    let mut k: usize = 0;
    while k < a.len() && k < b.len() && a[k].equals(&b[k])
        invariant
            n == parts_view(a@),
            m == parts_view(b@),
            k <= n.len(),
            k <= m.len(),
            common_from(n, m, 0) == common_from(n, m, k as int),
        decreases n.len() - k,
    {
        assert(n[k as int] == a@[k as int]@ && m[k as int] == b@[k as int]@);
        k += 1;
    }
    assert(k < a@.len() && k < b@.len() ==> n[k as int] == a@[k as int]@ && m[k as int]
        == b@[k as int]@);
    let mut res: Vec<Part> = Vec::new();
    let mut i: usize = k;
    assert(parts_view(res@) =~= parents(0));
    while i < a.len()
        invariant
            k <= i <= a@.len(),
            parts_view(res@) == parents((i - k) as nat),
        decreases a@.len() - i,
    {
        let ghost before = parts_view(res@);
        res.push(Part::Parent);
        i += 1;
        assert(parts_view(res@) =~= before.push(PartView::Parent));
        assert(parts_view(res@) =~= parents((i - k) as nat));
    }
    let ghost up = parts_view(res@);
    let ghost down = m.skip(k as int);
    let mut j: usize = k;
    assert(down.take(0) =~= Seq::empty());
    while j < b.len()
        invariant
            k <= j <= b@.len(),
            m == parts_view(b@),
            down == m.skip(k as int),
            parts_view(res@) == pushed_all(up, down.take(j - k)),
        decreases b@.len() - j,
    {
        assert(down[j - k] == b@[j as int]@);
        assert(down.take(j - k + 1).drop_last() =~= down.take(j - k));
        push(&mut res, &b[j]);
        j += 1;
    }
    assert(down.take(j - k) =~= down);
    assert(parts_view(res@).len() == res@.len());
    if res.len() == 0 {
        res.push(Part::Current);
        assert(parts_view(res@) =~= seq![PartView::Current]);
    }
    res
}

// ---------------------------------------------------------------------------
// Laws
// ---------------------------------------------------------------------------

/// A root and names below it.
pub open spec fn is_rooted(path: Seq<PartView>) -> bool {
    &&& path.len() > 0
    &&& path[0] is Root
    &&& forall|i: int| 0 < i < path.len() ==> #[trigger] path[i] is Normal
}

proof fn lemma_rooted_is_normal(path: Seq<PartView>)
    requires
        is_rooted(path),
    ensures
        normalized(path) == path,
    decreases path.len(),
{
    let d = path.drop_last();
    assert(path[path.len() - 1] == path.last());
    if path.len() == 1 {
        assert(normalized(d) =~= Seq::empty());
        assert(normalized(path) =~= path);
    } else {
        assert(is_rooted(d)) by {
            assert forall|i: int| 0 < i < d.len() implies #[trigger] d[i] is Normal by {
                assert(path[i] is Normal);
            }
        }
        lemma_rooted_is_normal(d);
        assert(normalized(path) =~= path);
    }
}

proof fn lemma_up(path: Seq<PartView>, n: nat)
    requires
        is_rooted(path),
        n < path.len(),
    ensures
        normalized(path + parents(n)) == path.take(path.len() - n),
    decreases n,
{
    let p = path + parents(n);
    if n == 0 {
        assert(p =~= path);
        assert(path.take(path.len() as int) =~= path);
        lemma_rooted_is_normal(path);
    } else {
        lemma_up(path, (n - 1) as nat);
        assert(p.drop_last() =~= path + parents((n - 1) as nat));
        assert(p.last() is Parent);
        let q = path.take(path.len() - (n - 1));
        assert(q.last() == path[path.len() - n]);
        assert(path[path.len() - n] is Normal);
        assert(q.drop_last() =~= path.take(path.len() - n));
    }
}

proof fn lemma_down(path: Seq<PartView>, names: Seq<PartView>)
    requires
        forall|i: int| 0 <= i < names.len() ==> #[trigger] names[i] is Normal,
    ensures
        normalized(path + names) == normalized(path) + names,
        pushed_all(path, names) == path + names,
    decreases names.len(),
{
    if names.len() == 0 {
        assert(path + names =~= path);
        assert(normalized(path) + names =~= normalized(path));
    } else {
        let d = names.drop_last();
        assert forall|i: int| 0 <= i < d.len() implies #[trigger] d[i] is Normal by {
            assert(names[i] is Normal);
        }
        assert(names[names.len() - 1] is Normal);
        lemma_down(path, d);
        assert((path + names).drop_last() =~= path + d);
        assert((path + names).last() == names.last());
        assert((normalized(path) + d).push(names.last()) =~= normalized(path) + names);
        assert((path + d).push(names.last()) =~= path + names);
    }
}

/// The relative path leads from the one to the other: put behind the
/// directory it starts from, it gives the path that it leads to. This is said
/// of paths that stay below the root.
pub proof fn law_relative_leads_there(from: Seq<PartView>, to: Seq<PartView>)
    requires
        is_rooted(normalized(from)),
        is_rooted(normalized(to)),
    ensures
        normalized(normalized(from) + relative(from, to)) == normalized(to),
{
    let (n, m) = (normalized(from), normalized(to));
    let k = common_from(n, m, 0);
    lemma_common(n, m, 0);
    assert(common_from(n, m, 0) >= 1) by {
        lemma_common(n, m, 1);
    }
    let up = parents((n.len() - k) as nat);
    let down = m.skip(k);
    assert forall|i: int| 0 <= i < down.len() implies #[trigger] down[i] is Normal by {
        assert(m[i + k] is Normal);
    }
    lemma_down(up, down);
    lemma_down(n + up, down);
    lemma_up(n, (n.len() - k) as nat);
    assert(n.take(k) + down =~= m);
    assert(n + (up + down) =~= (n + up) + down);
    if way(n, m).len() == 0 {
        let r = n + relative(from, to);
        assert(r.drop_last() =~= n);
        lemma_rooted_is_normal(n);
        assert(n.take(k) =~= n);
        assert(n + up =~= n);
    }
}

/// `.` adds nothing, and `..` takes a name right before it away, wherever in a
/// path they stand.
pub proof fn law_normalized(p: Seq<PartView>, name: Seq<char>, q: Seq<PartView>)
    ensures
        normalized(p + seq![PartView::Current] + q) == normalized(p + q),
        normalized(p + seq![PartView::Normal(name), PartView::Parent] + q) == normalized(p + q),
    decreases q.len(),
{
    let (a, b) = (
        p + seq![PartView::Current] + q,
        p + seq![PartView::Normal(name), PartView::Parent] + q,
    );
    if q.len() == 0 {
        assert(p + q =~= p);
        assert(a.drop_last() =~= p);
        let c = p + seq![PartView::Normal(name)];
        assert(b.drop_last() =~= c);
        assert(c.drop_last() =~= p);
        assert(normalized(c) == normalized(p).push(PartView::Normal(name)));
        assert(normalized(p).push(PartView::Normal(name)).drop_last() =~= normalized(p));
    } else {
        let d = q.drop_last();
        law_normalized(p, name, d);
        assert(a.drop_last() =~= p + seq![PartView::Current] + d);
        assert(b.drop_last() =~= p + seq![PartView::Normal(name), PartView::Parent] + d);
        assert((p + q).drop_last() =~= p + d);
    }
}

proof fn lemma_common_exact(a: Seq<PartView>, b: Seq<PartView>, i: int, k: int)
    requires
        0 <= i <= k <= a.len(),
        k <= b.len(),
        forall|j: int| i <= j < k ==> a[j] == b[j],
        k == a.len() || k == b.len() || a[k] != b[k],
    ensures
        common_from(a, b, i) == k,
    decreases k - i,
{
    if i < k {
        lemma_common_exact(a, b, i + 1, k);
    }
}

/// From a directory to a file that share a part of their paths: one step up for
/// every name that only the directory has, then down the names that only the
/// file has. From a place to itself it is `.`.
pub proof fn law_relative_way(base: Seq<PartView>, a: Seq<PartView>, b: Seq<PartView>)
    requires
        is_rooted(base + a),
        is_rooted(base + b),
        base.len() > 0,
        a.len() == 0 || b.len() == 0 || a[0] != b[0],
    ensures
        a.len() + b.len() > 0 ==> relative(base + a, base + b) == parents(a.len()) + b,
        a.len() + b.len() == 0 ==> relative(base + a, base + b) == seq![PartView::Current],
{
    let (n, m, k) = (base + a, base + b, base.len() as int);
    lemma_rooted_is_normal(n);
    lemma_rooted_is_normal(m);
    assert forall|j: int| 0 <= j < k implies n[j] == m[j] by {
        assert(n[j] == base[j] && m[j] == base[j]);
    }
    if a.len() > 0 && b.len() > 0 {
        assert(n[k] == a[0] && m[k] == b[0]);
    }
    lemma_common_exact(n, m, 0, k);
    assert(m.skip(k) =~= b);
    assert forall|i: int| 0 <= i < b.len() implies #[trigger] b[i] is Normal by {
        assert(m[k + i] is Normal);
    }
    lemma_down(parents(a.len()), b);
    if a.len() + b.len() == 0 {
        assert(way(n, m).len() == 0);
    }
}

/// `..` stays where no name stands right before it: at the start, behind the
/// root and behind another `..`. Names and roots stay as they are.
pub proof fn law_parents_stay(p: Seq<PartView>, part: PartView)
    requires
        !(part is Current),
        part is Parent ==> normalized(p).len() == 0 || !(normalized(p).last() is Normal),
    ensures
        normalized(p.push(part)) == normalized(p).push(part),
{
    assert(p.push(part).drop_last() =~= p);
}

/// Pushing a root starts a path anew, but for the prefix that it may have;
/// pushing a prefix starts it anew altogether.
pub proof fn law_pushed(path: Seq<PartView>, part: PartView)
    ensures
        part is Prefix ==> pushed(path, part) == seq![part],
        part is Root && path.len() > 0 && path[0] is Prefix ==> pushed(path, part) == seq![
            path[0],
            part,
        ],
        part is Root && (path.len() == 0 || !(path[0] is Prefix)) ==> pushed(path, part)
            == seq![part],
        !(part is Root) && !(part is Prefix) ==> pushed(path, part) == path.push(part),
{
}

/// Steps up are `..`, as many as asked for.
pub proof fn law_parents(n: nat, i: int)
    requires
        0 <= i < n,
    ensures
        parents(n).len() == n,
        parents(n)[i] is Parent,
{
}

} // verus!
