//! A map with texts for keys, kept in the order of the keys.

use vstd::prelude::*;
use vstd::string::*;

use crate::text::{bytes_of, lemma_utf8_injective, same, utf8};

verus! {

// ---------------------------------------------------------------------------
// The order of the keys
// ---------------------------------------------------------------------------

/// `a` comes before `b` where they first differ, or is a proper prefix of it.
pub open spec fn bytes_less(a: Seq<u8>, b: Seq<u8>) -> bool
    decreases a.len(),
{
    if b.len() == 0 {
        false
    } else if a.len() == 0 {
        true
    } else if a[0] != b[0] {
        a[0] < b[0]
    } else {
        bytes_less(a.drop_first(), b.drop_first())
    }
}

/// The order of texts: that of their bytes.
pub open spec fn text_less(a: Seq<char>, b: Seq<char>) -> bool {
    bytes_less(utf8(a), utf8(b))
}

proof fn lemma_bytes_order(a: Seq<u8>, b: Seq<u8>)
    ensures
        bytes_less(a, b) ==> !bytes_less(b, a) && a != b,
        a == b || bytes_less(a, b) || bytes_less(b, a),
    decreases a.len(),
{
    if a.len() > 0 && b.len() > 0 {
        lemma_bytes_order(a.drop_first(), b.drop_first());
        if a[0] == b[0] && a.drop_first() == b.drop_first() {
            assert(a =~= seq![a[0]] + a.drop_first());
            assert(b =~= seq![b[0]] + b.drop_first());
        }
    } else if a.len() == 0 && b.len() == 0 {
        assert(a =~= b);
    }
}

proof fn lemma_bytes_transitive(a: Seq<u8>, b: Seq<u8>, c: Seq<u8>)
    requires
        bytes_less(a, b),
        bytes_less(b, c),
    ensures
        bytes_less(a, c),
    decreases a.len(),
{
    if a.len() > 0 && b.len() > 0 && c.len() > 0 {
        if a[0] == b[0] && b[0] == c[0] {
            lemma_bytes_transitive(a.drop_first(), b.drop_first(), c.drop_first());
        }
    }
}

/// The order of texts is strict and total.
pub proof fn law_text_order(a: Seq<char>, b: Seq<char>, c: Seq<char>)
    ensures
        !text_less(a, a),
        text_less(a, b) ==> !text_less(b, a),
        a == b || text_less(a, b) || text_less(b, a),
        text_less(a, b) && text_less(b, c) ==> text_less(a, c),
{
    lemma_bytes_order(utf8(a), utf8(a));
    lemma_bytes_order(utf8(a), utf8(b));
    lemma_utf8_injective(a, b);
    if text_less(a, b) && text_less(b, c) {
        lemma_bytes_transitive(utf8(a), utf8(b), utf8(c));
    }
}

/// Whether `a` comes before `b`.
pub fn less(a: &str, b: &str) -> (res: bool)
    ensures
        res == text_less(a@, b@),
{
    let x = bytes_of(a);
    let y = bytes_of(b);
    let m: usize = x.len();
    let n: usize = y.len();
    let mut i: usize = 0;
    assert(x@.skip(0) =~= x@);
    assert(y@.skip(0) =~= y@);
    while i < m && i < n
        invariant
            m == x@.len(),
            n == y@.len(),
            i <= m,
            i <= n,
            x@ == utf8(a@),
            y@ == utf8(b@),
            text_less(a@, b@) == bytes_less(x@.skip(i as int), y@.skip(i as int)),
        decreases m - i,
    {
        if x[i] != y[i] {
            return x[i] < y[i];
        }
        assert(x@.skip(i as int).drop_first() =~= x@.skip(i + 1));
        assert(y@.skip(i as int).drop_first() =~= y@.skip(i + 1));
        i += 1;
    }
    i < n
}

// ---------------------------------------------------------------------------
// Listings
// ---------------------------------------------------------------------------

/// The keys come in their order, none twice.
pub open spec fn ordered<V>(l: Seq<(Seq<char>, V)>) -> bool {
    forall|i: int, j: int| 0 <= i < j < l.len() ==> text_less(#[trigger] l[i].0, #[trigger] l[j].0)
}

/// Where `key` stands in the listing or would be put, looking from `i` on.
pub open spec fn slot_from<V>(l: Seq<(Seq<char>, V)>, key: Seq<char>, i: int) -> int
    decreases l.len() - i,
{
    if 0 <= i < l.len() && text_less(l[i].0, key) {
        slot_from(l, key, i + 1)
    } else {
        i
    }
}

/// The value under `key`.
pub open spec fn lookup<V>(l: Seq<(Seq<char>, V)>, key: Seq<char>) -> Option<V> {
    let i = slot_from(l, key, 0);
    if i < l.len() && l[i].0 == key {
        Some(l[i].1)
    } else {
        None
    }
}

/// The listing with `value` under `key`.
pub open spec fn put<V>(l: Seq<(Seq<char>, V)>, key: Seq<char>, value: V) -> Seq<(Seq<char>, V)> {
    let i = slot_from(l, key, 0);
    if i < l.len() && l[i].0 == key {
        l.update(i, (key, value))
    } else {
        l.insert(i, (key, value))
    }
}

/// One more; counts are modulo 2^32.
pub open spec fn one_more(n: u32) -> u32 {
    if n == u32::MAX {
        0
    } else {
        (n + 1) as u32
    }
}

/// Count one more.
pub fn count_up(n: u32) -> (res: u32)
    ensures
        res == one_more(n),
{
    if n == u32::MAX {
        0
    } else {
        n + 1
    }
}

/// Count `k` more.
pub fn count_more(n: u32, k: usize) -> (res: u32)
    ensures
        res == (n + k) % 0x1_0000_0000,
{
    let small: u64 = k as u64 % 0x1_0000_0000;
    proof {
        lemma_count_more(n as int, k as int);
    }
    ((n as u64 + small) % 0x1_0000_0000) as u32
}

/// Counting modulo 2^32 can be done in steps.
pub proof fn lemma_count_more(a: int, b: int)
    ensures
        (a % 0x1_0000_0000 + b) % 0x1_0000_0000 == (a + b) % 0x1_0000_0000,
        (a + b % 0x1_0000_0000) % 0x1_0000_0000 == (a + b) % 0x1_0000_0000,
{
}

/// The listing with one more counted under `key`.
pub open spec fn counted(l: Seq<(Seq<char>, u32)>, key: Seq<char>) -> Seq<(Seq<char>, u32)> {
    put(
        l,
        key,
        one_more(
            match lookup(l, key) {
                Some(n) => n,
                None => 0,
            },
        ),
    )
}

pub proof fn lemma_slot<V>(l: Seq<(Seq<char>, V)>, key: Seq<char>, i: int)
    requires
        0 <= i <= l.len(),
    ensures
        i <= slot_from(l, key, i) <= l.len(),
        forall|j: int| i <= j < slot_from(l, key, i) ==> text_less(#[trigger] l[j].0, key),
        slot_from(l, key, i) < l.len() ==> !text_less(l[slot_from(l, key, i)].0, key),
    decreases l.len() - i,
{
    if i < l.len() && text_less(l[i].0, key) {
        lemma_slot(l, key, i + 1);
    }
}

/// A key is found with its value exactly if the pair is listed.
pub proof fn law_lookup<V>(l: Seq<(Seq<char>, V)>, key: Seq<char>)
    requires
        ordered(l),
    ensures
        match lookup(l, key) {
            Some(v) => l.contains((key, v)),
            None => forall|i: int| 0 <= i < l.len() ==> #[trigger] l[i].0 != key,
        },
        forall|i: int| 0 <= i < l.len() && #[trigger] l[i].0 == key ==> lookup(l, key) == Some(l[i].1),
{
    let s = slot_from(l, key, 0);
    lemma_slot(l, key, 0);
    if lookup(l, key) is Some {
        assert(l[s] == (key, l[s].1));
    }
    assert forall|i: int| 0 <= i < l.len() && #[trigger] l[i].0 == key implies lookup(l, key) == Some(
        l[i].1,
    ) by {
        law_text_order(key, key, key);
        if i > s {
            law_text_order(l[s].0, key, key);
        }
    }
}

/// Putting a pair in keeps the order, is seen under its key and changes
/// nothing under any other.
pub proof fn law_put<V>(l: Seq<(Seq<char>, V)>, key: Seq<char>, value: V, other: Seq<char>)
    requires
        ordered(l),
    ensures
        ordered(put(l, key, value)),
        lookup(put(l, key, value), key) == Some(value),
        other != key ==> lookup(put(l, key, value), other) == lookup(l, other),
        put(l, key, value).len() == l.len() + (if lookup(l, key) is Some {
            0int
        } else {
            1int
        }),
{
    let s = slot_from(l, key, 0);
    let p = put(l, key, value);
    lemma_slot(l, key, 0);
    assert(ordered(p)) by {
        assert forall|i: int, j: int| 0 <= i < j < p.len() implies text_less(
            #[trigger] p[i].0,
            #[trigger] p[j].0,
        ) by {
            if lookup(l, key) is None {
                if s < l.len() {
                    law_text_order(l[s].0, key, key);
                }
                if i < s && j == s {
                    assert(p[i] == l[i]);
                } else if i == s {
                    assert(p[j] == l[j - 1]);
                    if j - 1 > s {
                        law_text_order(key, l[s].0, l[j - 1].0);
                    }
                } else if i < s && j < s {
                    assert(p[i] == l[i] && p[j] == l[j]);
                } else if i < s {
                    assert(p[i] == l[i] && p[j] == l[j - 1]);
                } else {
                    assert(p[i] == l[i - 1] && p[j] == l[j - 1]);
                }
            } else {
                assert(p[i].0 == l[i].0 && p[j].0 == l[j].0);
            }
        }
    }
    law_lookup(p, key);
    assert(p[s].0 == key && p[s].1 == value);
    if other != key {
        law_lookup(p, other);
        law_lookup(l, other);
        if lookup(l, other) is Some {
            let i = choose|i: int| 0 <= i < l.len() && l[i] == (other, lookup(l, other)->0);
            if lookup(l, key) is Some {
                assert(p[i] == l[i]);
            } else if i < s {
                assert(p[i] == l[i]);
            } else {
                assert(p[i + 1] == l[i]);
            }
        } else if lookup(p, other) is Some {
            let i = choose|i: int| 0 <= i < p.len() && p[i] == (other, lookup(p, other)->0);
            if lookup(l, key) is Some {
                assert(p[i].0 == l[i].0);
            } else if i < s {
                assert(p[i] == l[i]);
            } else {
                assert(i != s);
                assert(p[i] == l[i - 1]);
            }
        }
    }
}

/// Two listings that give the same answer for every key are the same.
pub proof fn law_listing_determined<V>(a: Seq<(Seq<char>, V)>, b: Seq<(Seq<char>, V)>)
    requires
        ordered(a),
        ordered(b),
        forall|key: Seq<char>| #[trigger] lookup(a, key) == lookup(b, key),
    ensures
        a == b,
    decreases a.len(),
{
    if a.len() == 0 {
        if b.len() > 0 {
            law_lookup(b, b[0].0);
            law_lookup(a, b[0].0);
            assert(lookup(a, b[0].0) == lookup(b, b[0].0));
        }
        assert(a =~= b);
    } else if b.len() == 0 {
        law_lookup(a, a[0].0);
        law_lookup(b, a[0].0);
        assert(lookup(a, a[0].0) == lookup(b, a[0].0));
    } else {
        let (x, y) = (a.last(), b.last());
        law_lookup(a, x.0);
        law_lookup(b, x.0);
        law_lookup(a, y.0);
        law_lookup(b, y.0);
        assert(lookup(a, x.0) == Some(x.1) && lookup(b, y.0) == Some(y.1));
        assert(lookup(a, x.0) == lookup(b, x.0) && lookup(a, y.0) == lookup(b, y.0));
        let i = choose|i: int| 0 <= i < b.len() && b[i] == (x.0, x.1);
        let j = choose|j: int| 0 <= j < a.len() && a[j] == (y.0, y.1);
        law_text_order(x.0, y.0, x.0);
        assert(b[i] == (x.0, x.1) && a[j] == (y.0, y.1));
        if i < b.len() - 1 {
            assert(text_less(b[i].0, b[b.len() - 1].0));
            if j < a.len() - 1 {
                assert(text_less(a[j].0, a[a.len() - 1].0));
            }
        }
        assert(x.0 == y.0);
        let (c, d) = (a.drop_last(), b.drop_last());
        assert forall|key: Seq<char>| #[trigger] lookup(c, key) == lookup(d, key) by {
            law_lookup(a, key);
            law_lookup(b, key);
            law_lookup(c, key);
            law_lookup(d, key);
            law_text_order(x.0, x.0, x.0);
            assert(lookup(a, key) == lookup(b, key));
            if lookup(c, key) is Some {
                let k = choose|k: int| 0 <= k < c.len() && c[k] == (key, lookup(c, key)->0);
                assert(a[k].0 == key && text_less(a[k].0, a[a.len() - 1].0));
                let m = choose|m: int| 0 <= m < b.len() && b[m] == (key, lookup(b, key)->0);
                assert(d[m].0 == key);
            } else if lookup(d, key) is Some {
                let k = choose|k: int| 0 <= k < d.len() && d[k] == (key, lookup(d, key)->0);
                assert(b[k].0 == key && text_less(b[k].0, b[b.len() - 1].0));
                let m = choose|m: int| 0 <= m < a.len() && a[m] == (key, lookup(a, key)->0);
                assert(c[m].0 == key);
            }
        }
        law_listing_determined(c, d);
        assert(a =~= c.push(x));
        assert(b =~= d.push(y));
    }
}

/// The listing with `f` applied to its values.
pub open spec fn mapped<V, W>(l: Seq<(Seq<char>, V)>, f: spec_fn(V) -> W) -> Seq<(Seq<char>, W)> {
    l.map_values(|e: (Seq<char>, V)| (e.0, f(e.1)))
}

proof fn lemma_mapped_slot<V, W>(
    l: Seq<(Seq<char>, V)>,
    f: spec_fn(V) -> W,
    key: Seq<char>,
    i: int,
)
    requires
        0 <= i <= l.len(),
    ensures
        slot_from(mapped(l, f), key, i) == slot_from(l, key, i),
    decreases l.len() - i,
{
    if i < l.len() && text_less(l[i].0, key) {
        lemma_mapped_slot(l, f, key, i + 1);
    }
}

/// Values can be mapped before or after a look-up or a put.
pub proof fn lemma_mapped<V, W>(
    l: Seq<(Seq<char>, V)>,
    f: spec_fn(V) -> W,
    key: Seq<char>,
    value: V,
)
    ensures
        lookup(mapped(l, f), key) == match lookup(l, key) {
            Some(v) => Some(f(v)),
            None => None::<W>,
        },
        put(mapped(l, f), key, f(value)) == mapped(put(l, key, value), f),
{
    lemma_mapped_slot(l, f, key, 0);
    lemma_slot(l, key, 0);
    assert(put(mapped(l, f), key, f(value)) =~= mapped(put(l, key, value), f));
}

/// Of two puts under one key the second counts.
pub proof fn lemma_put_twice<V>(l: Seq<(Seq<char>, V)>, key: Seq<char>, a: V, b: V)
    requires
        ordered(l),
    ensures
        put(put(l, key, a), key, b) == put(l, key, b),
{
    let p = put(l, key, a);
    law_put(l, key, a, key);
    law_lookup(p, key);
    lemma_slot(l, key, 0);
    lemma_slot(p, key, 0);
    let s = slot_from(l, key, 0);
    let t = slot_from(p, key, 0);
    assert(p[s].0 == key);
    law_text_order(key, key, key);
    if t < s {
        assert(p[t].0 == l[t].0);
        assert(text_less(l[t].0, key));
    } else if s < t {
        assert(text_less(p[s].0, key));
    }
    assert(put(p, key, b) =~= put(l, key, b));
}

/// The sum of the counts.
pub open spec fn total(l: Seq<(Seq<char>, u32)>) -> int
    decreases l.len(),
{
    if l.len() == 0 {
        0
    } else {
        total(l.drop_last()) + l.last().1
    }
}

proof fn lemma_total_at(l: Seq<(Seq<char>, u32)>, i: int, e: (Seq<char>, u32))
    requires
        0 <= i < l.len(),
    ensures
        0 <= l[i].1 <= total(l),
        total(l.update(i, e)) == total(l) - l[i].1 + e.1,
    decreases l.len(),
{
    lemma_total_nonnegative(l.drop_last());
    let u = l.update(i, e);
    if i == l.len() - 1 {
        assert(u.drop_last() =~= l.drop_last());
    } else {
        lemma_total_at(l.drop_last(), i, e);
        assert(u.drop_last() =~= l.drop_last().update(i, e));
        assert(u.last() == l.last());
    }
}

pub proof fn lemma_total_nonnegative(l: Seq<(Seq<char>, u32)>)
    ensures
        0 <= total(l),
    decreases l.len(),
{
    if l.len() > 0 {
        lemma_total_nonnegative(l.drop_last());
    }
}

proof fn lemma_total_insert(l: Seq<(Seq<char>, u32)>, i: int, e: (Seq<char>, u32))
    requires
        0 <= i <= l.len(),
    ensures
        total(l.insert(i, e)) == total(l) + e.1,
    decreases l.len(),
{
    if i == l.len() {
        assert(l.insert(i, e).drop_last() =~= l);
    } else {
        lemma_total_insert(l.drop_last(), i, e);
        assert(l.insert(i, e).drop_last() =~= l.drop_last().insert(i, e));
    }
}

pub proof fn lemma_total_counted(l: Seq<(Seq<char>, u32)>, key: Seq<char>)
    requires
        total(l) < u32::MAX,
    ensures
        total(counted(l, key)) == total(l) + 1,
{
    let i = slot_from(l, key, 0);
    lemma_slot(l, key, 0);
    if i < l.len() && l[i].0 == key {
        lemma_total_at(l, i, (key, (l[i].1 + 1) as u32));
    } else {
        lemma_total_insert(l, i, (key, 1u32));
    }
}

/// Counting concerns its key alone: one more there, and nothing changes under
/// any other. A key that was not counted yet has one.
pub proof fn law_counted(l: Seq<(Seq<char>, u32)>, key: Seq<char>, other: Seq<char>)
    requires
        ordered(l),
    ensures
        ordered(counted(l, key)),
        lookup(l, key) is None ==> lookup(counted(l, key), key) == Some(1u32),
        lookup(l, key) matches Some(n) ==> n < u32::MAX ==> lookup(counted(l, key), key) == Some(
            (n + 1) as u32,
        ),
        other != key ==> lookup(counted(l, key), other) == lookup(l, other),
{
    law_put(
        l,
        key,
        one_more(
            match lookup(l, key) {
                Some(n) => n,
                None => 0,
            },
        ),
        other,
    );
}

/// The counts of the keys.
pub open spec fn tally(keys: Seq<Seq<char>>) -> Seq<(Seq<char>, u32)>
    decreases keys.len(),
{
    if keys.len() == 0 {
        Seq::empty()
    } else {
        counted(tally(keys.drop_last()), keys.last())
    }
}

/// Every key is counted as often as it occurs, and no other is counted.
pub proof fn law_tally(keys: Seq<Seq<char>>, key: Seq<char>)
    requires
        keys.len() <= u32::MAX,
    ensures
        ordered(tally(keys)),
        keys.contains(key) ==> lookup(tally(keys), key) == Some(
            keys.filter(|k: Seq<char>| k == key).len() as u32,
        ),
        !keys.contains(key) ==> lookup(tally(keys), key) is None,
        keys.contains(key) ==> keys.filter(|k: Seq<char>| k == key).len() > 0,
        keys.filter(|k: Seq<char>| k == key).len() <= keys.len(),
    decreases keys.len(),
{
    reveal(Seq::filter);
    let f = |k: Seq<char>| k == key;
    if keys.len() > 0 {
        let (d, last) = (keys.drop_last(), keys.last());
        law_tally(d, key);
        law_counted(tally(d), last, key);
        assert(keys[keys.len() - 1] == last);
        assert(keys.contains(key) <==> d.contains(key) || last == key) by {
            if d.contains(key) {
                let i = choose|i: int| 0 <= i < d.len() && d[i] == key;
                assert(keys[i] == key);
            }
            if keys.contains(key) && last != key {
                let i = choose|i: int| 0 <= i < keys.len() && keys[i] == key;
                assert(d[i] == key);
            }
        }
        if !d.contains(key) {
            lemma_none_filtered(d, key);
        }
    } else {
        lemma_slot(tally(keys), key, 0);
    }
}

proof fn lemma_none_filtered(keys: Seq<Seq<char>>, key: Seq<char>)
    requires
        !keys.contains(key),
    ensures
        keys.filter(|k: Seq<char>| k == key).len() == 0,
    decreases keys.len(),
{
    reveal(Seq::filter);
    if keys.len() > 0 {
        let d = keys.drop_last();
        assert(keys[keys.len() - 1] != key);
        assert(!d.contains(key)) by {
            if d.contains(key) {
                let i = choose|i: int| 0 <= i < d.len() && d[i] == key;
                assert(keys[i] == key);
            }
        }
        lemma_none_filtered(d, key);
    }
}

// ---------------------------------------------------------------------------
// The map
// ---------------------------------------------------------------------------

/// A map from texts to values. Its view is the listing of its pairs in the
/// order of the keys.
#[derive(Debug)]
pub struct TextMap<V> {
    pairs: Vec<(String, V)>,
}

/// The pairs of `p` with their keys taken by view.
spec fn listing<V>(p: Seq<(String, V)>) -> Seq<(Seq<char>, V)> {
    p.map_values(|e: (String, V)| (e.0@, e.1))
}

impl<V> View for TextMap<V> {
    type V = Seq<(Seq<char>, V)>;

    closed spec fn view(&self) -> Seq<(Seq<char>, V)> {
        listing(self.pairs@)
    }
}

impl<V> TextMap<V> {
    #[verifier::type_invariant]
    spec fn in_order(self) -> bool {
        ordered(listing(self.pairs@))
    }

    pub fn new() -> (res: Self)
        ensures
            res@ == Seq::<(Seq<char>, V)>::empty(),
    {
        let res = TextMap { pairs: Vec::new() };
        assert(res@ =~= Seq::<(Seq<char>, V)>::empty());
        res
    }

    pub fn len(&self) -> (res: usize)
        ensures
            res == self@.len(),
            ordered(self@),
    {
        proof {
            use_type_invariant(self);
        }
        self.pairs.len()
    }

    pub fn is_empty(&self) -> (res: bool)
        ensures
            res == (self@.len() == 0),
    {
        self.pairs.len() == 0
    }

    /// The key of the pair at position `i`.
    pub fn key_at(&self, i: usize) -> (res: &str)
        requires
            i < self@.len(),
        ensures
            res@ == self@[i as int].0,
    {
        self.pairs[i].0.as_str()
    }

    /// The value of the pair at position `i`.
    pub fn value_at(&self, i: usize) -> (res: &V)
        requires
            i < self@.len(),
        ensures
            *res == self@[i as int].1,
    {
        &self.pairs[i].1
    }

    fn slot(&self, key: &str) -> (res: usize)
        ensures
            res == slot_from(self@, key@, 0),
            res <= self@.len(),
    {
        let mut i: usize = 0;
        while i < self.pairs.len() && less(self.pairs[i].0.as_str(), key)
            invariant
                i <= self@.len(),
                self@.len() == self.pairs@.len(),
                slot_from(self@, key@, 0) == slot_from(self@, key@, i as int),
            decreases self@.len() - i,
        {
            i += 1;
        }
        i
    }

    pub fn get(&self, key: &str) -> (res: Option<&V>)
        ensures
            match res {
                Some(v) => lookup(self@, key@) == Some(*v),
                None => lookup(self@, key@) is None,
            },
    {
        let i: usize = self.slot(key);
        if i < self.pairs.len() && same(self.pairs[i].0.as_str(), key) {
            Some(&self.pairs[i].1)
        } else {
            None
        }
    }

    pub fn contains_key(&self, key: &str) -> (res: bool)
        ensures
            res == (lookup(self@, key@) is Some),
    {
        self.get(key).is_some()
    }

    /// Put `value` under `key` and hand back what stood there.
    pub fn insert(&mut self, key: String, value: V) -> (res: Option<V>)
        ensures
            final(self)@ == put(old(self)@, key@, value),
            res == lookup(old(self)@, key@),
    {
        proof {
            use_type_invariant(&*self);
            law_put(self@, key@, value, key@);
        }
        let ghost before = self@;
        let i: usize = self.slot(key.as_str());
        let found = i < self.pairs.len() && same(self.pairs[i].0.as_str(), key.as_str());
        let mut pairs: Vec<(String, V)> = Vec::new();
        std::mem::swap(&mut pairs, &mut self.pairs);
        let ghost key_view = key@;
        let mut pair = (key, value);
        let res = if found {
            std::mem::swap(&mut pairs[i], &mut pair);
            Some(pair.1)
        } else {
            pairs.insert(i, pair);
            None
        };
        assert(listing(pairs@) =~= put(before, key_view, value));
        self.pairs = pairs;
        res
    }
}

impl TextMap<u32> {
    /// The sum of the counts, modulo 2^32.
    pub fn sum(&self) -> (res: u32)
        ensures
            res == total(self@) % 0x1_0000_0000,
    {
        let n: usize = self.len();
        let mut sum: u32 = 0;
        let mut i: usize = 0;
        while i < n
            invariant
                n == self@.len(),
                i <= n,
                sum == total(self@.take(i as int)) % 0x1_0000_0000,
            decreases n - i,
        {
            assert(self@.take(i + 1).drop_last() =~= self@.take(i as int));
            sum = sum.wrapping_add(*self.value_at(i));
            i += 1;
        }
        assert(self@.take(i as int) =~= self@);
        sum
    }

    /// Count one more under `key`.
    pub fn count(&mut self, key: &str)
        ensures
            final(self)@ == counted(old(self)@, key@),
    {
        let n: u32 = match self.get(key) {
            Some(n) => *n,
            None => 0,
        };
        let _ = self.insert(key.to_string(), count_up(n));
    }
}

/// Where two sequences of bytes first differ the lesser byte decides, whatever
/// follows; and the start of a sequence comes before all of it.
pub proof fn law_byte_order(p: Seq<u8>, x: u8, u: Seq<u8>, y: u8, v: Seq<u8>)
    ensures
        x < y ==> bytes_less(p + seq![x] + u, p + seq![y] + v),
        x > y ==> !bytes_less(p + seq![x] + u, p + seq![y] + v),
        bytes_less(p, p + seq![y] + v),
        !bytes_less(p + seq![x] + u, p),
        !bytes_less(p, p),
    decreases p.len(),
{
    let (a, b) = (p + seq![x] + u, p + seq![y] + v);
    if p.len() > 0 {
        let d = p.drop_first();
        law_byte_order(d, x, u, y, v);
        assert(a.drop_first() =~= d + seq![x] + u);
        assert(b.drop_first() =~= d + seq![y] + v);
        assert(a[0] == p[0] && b[0] == p[0]);
    } else {
        assert(a[0] == x && b[0] == y);
    }
}

/// A count goes up by one; behind the largest it starts over.
pub proof fn law_one_more(n: u32)
    ensures
        n < u32::MAX ==> one_more(n) == n + 1,
        one_more(u32::MAX) == 0,
{
}

} // verus!
