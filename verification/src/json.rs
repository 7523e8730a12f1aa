//! JSON values.

use vstd::prelude::*;
use vstd::string::*;

use crate::text::same;

verus! {

/// A JSON value. The members of an object come in the order in which they are
/// listed, each key once.
#[derive(Debug)]
pub enum Json {
    Null,
    Bool(bool),
    Number(JsonNumber),
    Text(String),
    Array(Vec<Json>),
    Object(Vec<(String, Json)>),
}

/// A JSON number, in the two forms in which it is read.
#[derive(Clone, Copy, Debug)]
pub struct JsonNumber {
    /// Its value, where that is a natural number below 2^64 and was written as
    /// one.
    pub natural: Option<u64>,
    /// The bits of the double that it is read as: the nearest one or one next
    /// to it.
    pub double: Option<u64>,
}

/// A JSON value with its texts and lists taken by view.
pub enum JsonView {
    Null,
    Bool(bool),
    Number(JsonNumber),
    Text(Seq<char>),
    Array(Seq<JsonView>),
    Object(Seq<(Seq<char>, JsonView)>),
}

/// A value by view.
pub open spec fn json_view(j: Json) -> JsonView
    decreases j, 0nat,
{
    match j {
        Json::Null => JsonView::Null,
        Json::Bool(b) => JsonView::Bool(b),
        Json::Number(n) => JsonView::Number(n),
        Json::Text(t) => JsonView::Text(t@),
        Json::Array(items) => JsonView::Array(items_view(items, items@.len())),
        Json::Object(members) => JsonView::Object(members_view(members, members@.len())),
    }
}

/// The first `n` items by view.
pub open spec fn items_view(items: Vec<Json>, n: nat) -> Seq<JsonView>
    decreases items, n,
{
    if n == 0 || n > items@.len() {
        Seq::empty()
    } else {
        items_view(items, (n - 1) as nat).push(json_view(items[n - 1]))
    }
}

/// The first `n` members by view.
pub open spec fn members_view(members: Vec<(String, Json)>, n: nat) -> Seq<(Seq<char>, JsonView)>
    decreases members, n,
{
    if n == 0 || n > members@.len() {
        Seq::empty()
    } else {
        let m = members[n - 1];
        members_view(members, (n - 1) as nat).push((m.0@, json_view(m.1)))
    }
}

impl View for Json {
    type V = JsonView;

    open spec fn view(&self) -> JsonView {
        json_view(*self)
    }
}

pub proof fn lemma_items_view(items: Vec<Json>, n: nat)
    requires
        n <= items@.len(),
    ensures
        items_view(items, n).len() == n,
        forall|i: int| 0 <= i < n ==> #[trigger] items_view(items, n)[i] == items@[i]@,
    decreases n,
{
    if n > 0 {
        lemma_items_view(items, (n - 1) as nat);
    }
}

pub proof fn lemma_members_view(members: Vec<(String, Json)>, n: nat)
    requires
        n <= members@.len(),
    ensures
        members_view(members, n).len() == n,
        forall|i: int|
            0 <= i < n ==> #[trigger] members_view(members, n)[i] == (
                members@[i].0@,
                members@[i].1@,
            ),
    decreases n,
{
    if n > 0 {
        lemma_members_view(members, (n - 1) as nat);
    }
}

// ---------------------------------------------------------------------------
// Parsing
// ---------------------------------------------------------------------------

/// A value as the `serde_json` crate holds it.
#[verifier::external_type_specification]
#[verifier::external_body]
pub struct ExValue(serde_json::Value);

/// Why `serde_json` could not parse a text.
#[verifier::external_type_specification]
#[verifier::external_body]
pub struct ExError(serde_json::Error);

/// The value that a `serde_json::Value` holds.
pub uninterp spec fn held_by(value: serde_json::Value) -> JsonView;

/// The value that `serde_json::from_str` reads from a text, where it is JSON.
pub uninterp spec fn json_of_text(text: Seq<char>) -> Option<JsonView>;

/// `serde_json::from_str` into a `serde_json::Value`. Whether it succeeds, and
/// the value that it reads, depend on the text alone.
#[verifier::external_body]
fn parse_value(text: &str) -> (res: Result<serde_json::Value, serde_json::Error>)
    ensures
        match res {
            Ok(value) => json_of_text(text@) == Some(held_by(value)),
            Err(_) => json_of_text(text@) is None,
        },
{
    serde_json::from_str::<serde_json::Value>(text)
}

/// Takes a `serde_json::Value` apart, variant by variant, into the same value
/// held plainly. Of a number `Number::as_u64` and the bits of `Number::as_f64`
/// are kept; the members of an object come as its map lists them.
#[verifier::external_body]
fn plain(value: serde_json::Value) -> (res: Json)
    ensures
        res@ == held_by(value),
{
    match value {
        serde_json::Value::Null => Json::Null,
        serde_json::Value::Bool(b) => Json::Bool(b),
        serde_json::Value::Number(n) => Json::Number(
            JsonNumber { natural: n.as_u64(), double: n.as_f64().map(|d| d.to_bits()) },
        ),
        serde_json::Value::String(t) => Json::Text(t),
        serde_json::Value::Array(items) => Json::Array(items.into_iter().map(plain).collect()),
        serde_json::Value::Object(members) => Json::Object(
            members.into_iter().map(|m| (m.0, plain(m.1))).collect(),
        ),
    }
}

/// Read a text as JSON.
pub fn parse_json(text: &str) -> (res: Option<Json>)
    ensures
        match res {
            Some(j) => json_of_text(text@) == Some(j@),
            None => json_of_text(text@) is None,
        },
{
    match parse_value(text) {
        Ok(value) => Some(plain(value)),
        Err(_) => None,
    }
}

// ---------------------------------------------------------------------------
// Members
// ---------------------------------------------------------------------------

/// Where the member `key` stands, from `i` on.
pub open spec fn member_index(members: Seq<(Seq<char>, JsonView)>, key: Seq<char>, i: int) -> Option<
    int,
>
    decreases members.len() - i,
{
    if i < 0 || i >= members.len() {
        None
    } else if members[i].0 == key {
        Some(i)
    } else {
        member_index(members, key, i + 1)
    }
}

pub proof fn lemma_member_index(members: Seq<(Seq<char>, JsonView)>, key: Seq<char>, i: int)
    requires
        0 <= i,
    ensures
        match member_index(members, key, i) {
            Some(k) => i <= k < members.len() && members[k].0 == key,
            None => true,
        },
    decreases members.len() - i,
{
    if i < members.len() && members[i].0 != key {
        lemma_member_index(members, key, i + 1);
    }
}

/// The member `key` of an object; nothing of another value.
pub open spec fn member(j: JsonView, key: Seq<char>) -> Option<JsonView> {
    match j {
        JsonView::Object(members) => match member_index(members, key, 0) {
            Some(i) => Some(members[i].1),
            None => None,
        },
        _ => None,
    }
}

/// The text that a value is.
pub open spec fn text_of(j: Option<JsonView>) -> Option<Seq<char>> {
    match j {
        Some(JsonView::Text(t)) => Some(t),
        _ => None,
    }
}

impl Json {
    /// The member `key` of an object.
    pub fn get(&self, key: &str) -> (res: Option<&Json>)
        ensures
            match res {
                Some(j) => member(self@, key@) == Some(j@) && decreases_to!(*self => *j),
                None => member(self@, key@) is None,
            },
    {
        match self {
            Json::Object(members) => {
                let n: usize = members.len();
                let ghost all = members_view(*members, n as nat);
                proof {
                    lemma_members_view(*members, n as nat);
                }
                let mut i: usize = 0;
                while i < n
                    invariant
                        n == members@.len(),
                        i <= n,
                        *self == Json::Object(*members),
                        all == members_view(*members, n as nat),
                        all.len() == n,
                        forall|k: int|
                            0 <= k < n ==> #[trigger] all[k] == (members@[k].0@, members@[k].1@),
                        member_index(all, key@, 0) == member_index(all, key@, i as int),
                    decreases n - i,
                {
                    assert(all[i as int].0 == members@[i as int].0@);
                    if same(members[i].0.as_str(), key) {
                        return Some(&members[i].1);
                    }
                    i += 1;
                }
                None
            },
            _ => None,
        }
    }

    /// The text that the value is.
    pub fn as_text(&self) -> (res: Option<&str>)
        ensures
            match res {
                Some(t) => text_of(Some(self@)) == Some(t@),
                None => text_of(Some(self@)) is None,
            },
    {
        match self {
            Json::Text(t) => Some(t.as_str()),
            _ => None,
        }
    }

    /// The text that the member `key` is.
    pub fn get_text(&self, key: &str) -> (res: Option<&str>)
        ensures
            match res {
                Some(t) => text_of(member(self@, key@)) == Some(t@),
                None => text_of(member(self@, key@)) is None,
            },
    {
        match self.get(key) {
            Some(j) => j.as_text(),
            None => None,
        }
    }
}

// ---------------------------------------------------------------------------
// Building
// ---------------------------------------------------------------------------

/// A natural number.
pub open spec fn natural(n: u64) -> JsonView {
    JsonView::Number(JsonNumber { natural: Some(n), double: None })
}

/// The members of an object that is being built.
pub open spec fn members_of(members: Vec<(String, Json)>) -> Seq<(Seq<char>, JsonView)> {
    members_view(members, members@.len())
}

/// No members.
pub fn no_members() -> (res: Vec<(String, Json)>)
    ensures
        members_of(res) == Seq::<(Seq<char>, JsonView)>::empty(),
{
    Vec::new()
}

/// Add a member at the end.
pub fn add_member(members: &mut Vec<(String, Json)>, key: &str, value: Json)
    ensures
        members_of(*final(members)) == members_of(*old(members)).push((key@, value@)),
{
    let ghost before = *members;
    proof {
        lemma_members_view(before, before@.len());
    }
    members.push((key.to_string(), value));
    proof {
        lemma_members_view(*members, members@.len());
        assert(members_of(*members) =~= members_of(before).push((key@, value@)));
    }
}

/// Add a text at the end.
pub fn add_text(members: &mut Vec<(String, Json)>, key: &str, text: &str)
    ensures
        members_of(*final(members)) == members_of(*old(members)).push(
            (key@, JsonView::Text(text@)),
        ),
{
    add_member(members, key, Json::Text(text.to_string()));
}

// ---------------------------------------------------------------------------
// Laws
// ---------------------------------------------------------------------------

proof fn lemma_first_member(
    members: Seq<(Seq<char>, JsonView)>,
    key: Seq<char>,
    i: int,
    k: int,
)
    requires
        0 <= i <= k < members.len(),
        members[k].0 == key,
        forall|j: int| i <= j < k ==> (#[trigger] members[j]).0 != key,
    ensures
        member_index(members, key, i) == Some(k),
    decreases k - i,
{
    if i < k {
        lemma_first_member(members, key, i + 1, k);
    }
}

proof fn lemma_no_member(members: Seq<(Seq<char>, JsonView)>, key: Seq<char>, i: int)
    requires
        0 <= i,
        forall|j: int| i <= j < members.len() ==> (#[trigger] members[j]).0 != key,
    ensures
        member_index(members, key, i) is None,
    decreases members.len() - i,
{
    if i < members.len() {
        lemma_no_member(members, key, i + 1);
    }
}

/// The member of a key is found wherever it stands; of several with one key the
/// first counts. A key that no member has is not found.
pub proof fn law_member(members: Seq<(Seq<char>, JsonView)>, key: Seq<char>, k: int)
    ensures
        0 <= k < members.len() && members[k].0 == key && (forall|j: int|
            0 <= j < k ==> (#[trigger] members[j]).0 != key) ==> member(
            JsonView::Object(members),
            key,
        ) == Some(members[k].1) && member_index(members, key, 0) == Some(k),
        (forall|j: int| 0 <= j < members.len() ==> (#[trigger] members[j]).0 != key) ==> member(
            JsonView::Object(members),
            key,
        ) is None && member_index(members, key, 0) is None,
        member(JsonView::Object(members), key) matches Some(v) ==> exists|j: int|
            0 <= j < members.len() && #[trigger] members[j] == (key, v),
{
    if 0 <= k < members.len() && members[k].0 == key && (forall|j: int|
        0 <= j < k ==> (#[trigger] members[j]).0 != key) {
        lemma_first_member(members, key, 0, k);
    }
    if forall|j: int| 0 <= j < members.len() ==> (#[trigger] members[j]).0 != key {
        lemma_no_member(members, key, 0);
    }
    lemma_member_index(members, key, 0);
    if let Some(i) = member_index(members, key, 0) {
        assert(members[i] == (key, members[i].1));
    }
}

/// Only objects have members.
pub proof fn law_no_other_members(j: JsonView, key: Seq<char>)
    requires
        !(j is Object),
    ensures
        member(j, key) is None,
{
}

} // verus!
