//! Which file and which node a Figma URL stands for.

use vstd::prelude::*;
use vstd::string::*;

use crate::chars::{join, joined, replace_char, text_or_none, views, with_char_replaced};
use crate::text::same;

verus! {

/// A node of a file.
#[derive(Debug)]
pub struct FigmaTarget {
    pub file_key: String,
    pub node_id: String,
}

/// The parts of a URL.
#[derive(Debug)]
pub struct UrlParts {
    pub host: Option<String>,
    /// What stands between the slashes of the path.
    pub segments: Option<Vec<String>>,
    /// The parameters of the query, decoded.
    pub query: Vec<(String, String)>,
}

/// The parts of a URL with their texts taken by view.
pub struct UrlPartsView {
    pub host: Option<Seq<char>>,
    pub segments: Option<Seq<Seq<char>>>,
    pub query: Seq<(Seq<char>, Seq<char>)>,
}

impl View for UrlParts {
    type V = UrlPartsView;

    open spec fn view(&self) -> UrlPartsView {
        UrlPartsView {
            host: text_or_none(self.host),
            segments: match self.segments {
                Some(l) => Some(views(l@)),
                None => None,
            },
            query: self.query@.map_values(|p: (String, String)| (p.0@, p.1@)),
        }
    }
}

/// The parts of the URL that a text is, where it is one.
pub uninterp spec fn url_of_text(text: Seq<char>) -> Option<UrlPartsView>;

/// `url::Url::parse`, and of the URL that it gives `Url::host_str`,
/// `Url::path_segments` and `Url::query_pairs`. Whether it succeeds, and the
/// parts, depend on the text alone.
#[verifier::external_body]
fn url_parts(text: &str) -> (res: Option<UrlParts>)
    ensures
        match res {
            Some(parts) => url_of_text(text@) == Some(parts@),
            None => url_of_text(text@) is None,
        },
{
    let url = url::Url::parse(text).ok()?;
    Some(
        UrlParts {
            host: url.host_str().map(String::from),
            segments: url.path_segments().map(|s| s.map(String::from).collect()),
            query: url.query_pairs().map(|p| (p.0.into_owned(), p.1.into_owned())).collect(),
        },
    )
}

/// Why a text stands for no node.
#[derive(Debug)]
pub enum FigmaUrlError {
    NotAUrl,
    NoHost,
    /// The host is another one.
    OtherHost(String),
    NoPath,
    /// The path is that of no file: its segments.
    OtherPath(Vec<String>),
    NoNodeId,
}

impl FigmaUrlError {
    pub fn message(&self) -> (res: String)
        ensures
            res@ == match *self {
                FigmaUrlError::NotAUrl => "invalid URL"@,
                FigmaUrlError::NoHost => "URL has no host"@,
                FigmaUrlError::OtherHost(host) => "not a Figma URL (host: "@ + host@ + ")"@,
                FigmaUrlError::NoPath => "URL has no path"@,
                FigmaUrlError::OtherPath(l) =>
                    "URL path doesn't look like a Figma design/make URL: /"@ + joined(
                    views(l@),
                    "/"@,
                ),
                FigmaUrlError::NoNodeId => "URL has no node-id query parameter"@,
            },
    {
        match self {
            FigmaUrlError::NotAUrl => "invalid URL".to_string(),
            FigmaUrlError::NoHost => "URL has no host".to_string(),
            FigmaUrlError::OtherHost(host) => {
                let mut res: String = "not a Figma URL (host: ".to_string();
                res.append(host.as_str());
                res.append(")");
                res
            },
            FigmaUrlError::NoPath => "URL has no path".to_string(),
            FigmaUrlError::OtherPath(l) => {
                let mut res: String =
                    "URL path doesn't look like a Figma design/make URL: /".to_string();
                res.append(join(l, "/").as_str());
                res
            },
            FigmaUrlError::NoNodeId => "URL has no node-id query parameter".to_string(),
        }
    }
}

/// Those of the segments that are not empty.
pub open spec fn filled(l: Seq<Seq<char>>) -> Seq<Seq<char>>
    decreases l.len(),
{
    if l.len() == 0 {
        Seq::empty()
    } else if l.last().len() == 0 {
        filled(l.drop_last())
    } else {
        filled(l.drop_last()).push(l.last())
    }
}

/// The key of the file that a path stands for: that of a branch where it has
/// one.
pub open spec fn file_key(l: Seq<Seq<char>>) -> Option<Seq<char>> {
    if l.len() >= 4 && l[0] == "design"@ && l[2] == "branch"@ {
        Some(l[3])
    } else if l.len() >= 2 && (l[0] == "design"@ || l[0] == "make"@) {
        Some(l[1])
    } else {
        None
    }
}

/// The value of the first parameter `key`, from `i` on.
pub open spec fn parameter(query: Seq<(Seq<char>, Seq<char>)>, key: Seq<char>, i: int) -> Option<
    Seq<char>,
>
    decreases query.len() - i,
{
    if i < 0 || i >= query.len() {
        None
    } else if query[i].0 == key {
        Some(query[i].1)
    } else {
        parameter(query, key, i + 1)
    }
}

/// The host is one of Figma's.
pub open spec fn is_figma_host(host: Seq<char>) -> bool {
    host == "figma.com"@ || host == "www.figma.com"@
}

/// What the parts of a URL say of it: the file and the node that it stands
/// for, or the first reason why it stands for none.
pub open spec fn is_target(parts: UrlPartsView, res: Result<FigmaTarget, FigmaUrlError>) -> bool {
    match parts.host {
        None => res matches Err(FigmaUrlError::NoHost),
        Some(host) => if !is_figma_host(host) {
            res matches Err(FigmaUrlError::OtherHost(h)) && h@ == host
        } else {
            match parts.segments {
                None => res matches Err(FigmaUrlError::NoPath),
                Some(segments) => match file_key(filled(segments)) {
                    None => res matches Err(FigmaUrlError::OtherPath(l)) && views(l@) == filled(
                        segments,
                    ),
                    Some(key) => match parameter(parts.query, "node-id"@, 0) {
                        None => res matches Err(FigmaUrlError::NoNodeId),
                        Some(id) => res matches Ok(t) && t.file_key@ == key && t.node_id@
                            == with_char_replaced(id, '-', ":"@),
                    },
                },
            }
        },
    }
}

fn keep_filled(l: &Vec<String>) -> (res: Vec<String>)
    ensures
        views(res@) == filled(views(l@)),
{
    let ghost all = views(l@);
    let mut res: Vec<String> = Vec::new();
    let mut i: usize = 0;
    assert(views(res@) =~= filled(all.take(0)));
    while i < l.len()
        invariant
            i <= l@.len(),
            all == views(l@),
            views(res@) == filled(all.take(i as int)),
        decreases l@.len() - i,
    {
        let ghost before = views(res@);
        assert(all[i as int] == l@[i as int]@);
        assert(all.take(i + 1).drop_last() =~= all.take(i as int));
        if !l[i].as_str().is_empty() {
            let copy = l[i].clone();
            res.push(copy);
            assert(views(res@) =~= before.push(copy@));
        }
        i += 1;
    }
    assert(all.take(i as int) =~= all);
    res
}

fn key_of<'a>(l: &'a Vec<String>) -> (res: Option<&'a str>)
    ensures
        match res {
            Some(key) => file_key(views(l@)) == Some(key@),
            None => file_key(views(l@)) is None,
        },
{
    let n: usize = l.len();
    assert(views(l@).len() == n);
    assert(forall|i: int| 0 <= i < n ==> #[trigger] views(l@)[i] == l@[i]@);
    if n >= 4 && same(l[0].as_str(), "design") && same(l[2].as_str(), "branch") {
        Some(l[3].as_str())
    } else if n >= 2 && (same(l[0].as_str(), "design") || same(l[0].as_str(), "make")) {
        Some(l[1].as_str())
    } else {
        None
    }
}

fn find_parameter<'a>(parts: &'a UrlParts, key: &str) -> (res: Option<&'a str>)
    ensures
        match res {
            Some(v) => parameter(parts@.query, key@, 0) == Some(v@),
            None => parameter(parts@.query, key@, 0) is None,
        },
{
    let mut i: usize = 0;
    while i < parts.query.len()
        invariant
            i <= parts.query@.len(),
            parameter(parts@.query, key@, 0) == parameter(parts@.query, key@, i as int),
        decreases parts.query@.len() - i,
    {
        let p = &parts.query[i];
        assert(parts@.query[i as int] == (p.0@, p.1@));
        if same(p.0.as_str(), key) {
            return Some(p.1.as_str());
        }
        i += 1;
    }
    None
}

/// The file and the node that the parts of a URL stand for.
pub fn target_of(parts: &UrlParts) -> (res: Result<FigmaTarget, FigmaUrlError>)
    ensures
        is_target(parts@, res),
{
    let host = match &parts.host {
        Some(host) => host,
        None => {
            return Err(FigmaUrlError::NoHost);
        },
    };
    if !same(host.as_str(), "figma.com") && !same(host.as_str(), "www.figma.com") {
        return Err(FigmaUrlError::OtherHost(host.clone()));
    }
    let segments = match &parts.segments {
        Some(l) => keep_filled(l),
        None => {
            return Err(FigmaUrlError::NoPath);
        },
    };
    let key: String = match key_of(&segments) {
        Some(key) => key.to_string(),
        None => {
            return Err(FigmaUrlError::OtherPath(segments));
        },
    };
    match find_parameter(parts, "node-id") {
        None => Err(FigmaUrlError::NoNodeId),
        Some(id) => Ok(FigmaTarget { file_key: key, node_id: replace_char(id, '-', ":") }),
    }
}

/// The file and the node that a URL stands for.
pub fn parse(input: &str) -> (res: Result<FigmaTarget, FigmaUrlError>)
    ensures
        match url_of_text(input@) {
            Some(parts) => is_target(parts, res),
            None => res matches Err(FigmaUrlError::NotAUrl),
        },
{
    match url_parts(input) {
        None => Err(FigmaUrlError::NotAUrl),
        Some(parts) => target_of(&parts),
    }
}

/// A node id has colons where the URL has hyphens, and no hyphens.
pub proof fn law_node_id(id: Seq<char>)
    ensures
        !with_char_replaced(id, '-', ":"@).contains('-'),
        with_char_replaced(id, '-', ":"@).len() == id.len(),
        forall|i: int|
            0 <= i < id.len() ==> #[trigger] with_char_replaced(id, '-', ":"@)[i] == (if id[i]
                == '-' {
                ':'
            } else {
                id[i]
            }),
    decreases id.len(),
{
    reveal_strlit(":");
    let r = with_char_replaced(id, '-', ":"@);
    if id.len() > 0 {
        law_node_id(id.drop_last());
        let d = with_char_replaced(id.drop_last(), '-', ":"@);
        assert forall|i: int| 0 <= i < id.len() implies #[trigger] r[i] == (if id[i] == '-' {
            ':'
        } else {
            id[i]
        }) by {
            if i < id.len() - 1 {
                assert(r[i] == d[i]);
            }
        }
    }
}

proof fn lemma_parameter(query: Seq<(Seq<char>, Seq<char>)>, key: Seq<char>, i: int, k: int)
    requires
        0 <= i <= k < query.len(),
        query[k].0 == key,
        forall|j: int| i <= j < k ==> (#[trigger] query[j]).0 != key,
    ensures
        parameter(query, key, i) == Some(query[k].1),
    decreases k - i,
{
    if i < k {
        lemma_parameter(query, key, i + 1, k);
    }
}

proof fn lemma_no_parameter(query: Seq<(Seq<char>, Seq<char>)>, key: Seq<char>, i: int)
    requires
        0 <= i <= query.len(),
        forall|j: int| i <= j < query.len() ==> (#[trigger] query[j]).0 != key,
    ensures
        parameter(query, key, i) is None,
    decreases query.len() - i,
{
    if i < query.len() {
        lemma_no_parameter(query, key, i + 1);
    }
}

/// The position of the first of the parameters from `i` on that has the key.
proof fn find_first(query: Seq<(Seq<char>, Seq<char>)>, key: Seq<char>, i: int) -> (k: int)
    requires
        0 <= i <= query.len(),
    ensures
        i <= k <= query.len(),
        k < query.len() ==> query[k].0 == key,
        forall|j: int| i <= j < k ==> (#[trigger] query[j]).0 != key,
    decreases query.len() - i,
{
    if i == query.len() || query[i].0 == key {
        i
    } else {
        find_first(query, key, i + 1)
    }
}

/// A parameter is found wherever it stands: of several with one key the first
/// counts.
pub proof fn law_parameter_is_found(query: Seq<(Seq<char>, Seq<char>)>, key: Seq<char>, k: int)
    requires
        0 <= k < query.len(),
        query[k].0 == key,
        forall|j: int| 0 <= j < k ==> (#[trigger] query[j]).0 != key,
    ensures
        parameter(query, key, 0) == Some(query[k].1),
{
    lemma_parameter(query, key, 0, k);
}

/// A parameter is missing exactly where none of the query has the key.
pub proof fn law_parameter_is_missing(query: Seq<(Seq<char>, Seq<char>)>, key: Seq<char>)
    ensures
        parameter(query, key, 0) is None <==> forall|j: int|
            0 <= j < query.len() ==> (#[trigger] query[j]).0 != key,
{
    let k = find_first(query, key, 0);
    if k < query.len() {
        lemma_parameter(query, key, 0, k);
    } else {
        lemma_no_parameter(query, key, 0);
    }
}

/// Empty segments count for nothing wherever they stand, and the others stay
/// as they come.
pub proof fn law_filled(a: Seq<Seq<char>>, s: Seq<char>, b: Seq<Seq<char>>)
    ensures
        filled(a + b) == filled(a) + filled(b),
        s.len() > 0 ==> filled(a + seq![s] + b) == filled(a) + seq![s] + filled(b),
        s.len() == 0 ==> filled(a + seq![s] + b) == filled(a + b),
        (forall|i: int| 0 <= i < a.len() ==> (#[trigger] a[i]).len() > 0) ==> filled(a) == a,
    decreases a.len() + b.len(),
{
    lemma_filled_concat(a, b);
    lemma_filled_concat(a + seq![s], b);
    lemma_filled_concat(a, seq![s]);
    assert(seq![s].drop_last() =~= Seq::empty());
    assert(filled(seq![s].drop_last()) =~= Seq::empty());
    if s.len() > 0 {
        assert(filled(seq![s]) =~= seq![s]);
    } else {
        assert(filled(seq![s]) =~= Seq::empty());
        assert(filled(a) + Seq::<Seq<char>>::empty() =~= filled(a));
    }
    if forall|i: int| 0 <= i < a.len() ==> (#[trigger] a[i]).len() > 0 {
        lemma_all_filled(a);
    }
}

proof fn lemma_filled_concat(a: Seq<Seq<char>>, b: Seq<Seq<char>>)
    ensures
        filled(a + b) == filled(a) + filled(b),
    decreases b.len(),
{
    if b.len() == 0 {
        assert(a + b =~= a);
        assert(filled(a) + filled(b) =~= filled(a));
    } else {
        lemma_filled_concat(a, b.drop_last());
        assert((a + b).drop_last() =~= a + b.drop_last());
        assert((a + b).last() == b.last());
        assert(filled(a + b) =~= filled(a) + filled(b));
    }
}

proof fn lemma_all_filled(a: Seq<Seq<char>>)
    requires
        forall|i: int| 0 <= i < a.len() ==> (#[trigger] a[i]).len() > 0,
    ensures
        filled(a) == a,
    decreases a.len(),
{
    if a.len() > 0 {
        let d = a.drop_last();
        assert(a[a.len() - 1].len() > 0);
        assert forall|i: int| 0 <= i < d.len() implies (#[trigger] d[i]).len() > 0 by {
            assert(d[i] == a[i]);
        }
        lemma_all_filled(d);
        assert(a =~= d.push(a.last()));
    } else {
        assert(a =~= Seq::empty());
    }
}

/// A text that is another one with colons in place of its hyphens.
pub open spec fn is_colon_form(id: Seq<char>, node_id: Seq<char>) -> bool {
    &&& node_id.len() == id.len()
    &&& forall|i: int|
        0 <= i < id.len() ==> #[trigger] node_id[i] == (if id[i] == '-' {
            ':'
        } else {
            id[i]
        })
}

/// The URL of a design or of a make stands for the file that its path names
/// behind `design` or `make`, and for the node of its first `node-id`, wherever
/// in the query that stands and whatever else the URL holds.
pub proof fn law_file_url(
    parts: UrlPartsView,
    res: Result<FigmaTarget, FigmaUrlError>,
    kind: Seq<char>,
    key: Seq<char>,
    more: Seq<Seq<char>>,
    k: int,
)
    requires
        is_target(parts, res),
        parts.host == Some("figma.com"@) || parts.host == Some("www.figma.com"@),
        kind == "design"@ || kind == "make"@,
        key.len() > 0,
        parts.segments == Some(seq![kind, key] + more),
        forall|i: int| 0 <= i < more.len() ==> (#[trigger] more[i]).len() > 0,
        kind == "make"@ || more.len() < 2 || more[0] != "branch"@,
        0 <= k < parts.query.len(),
        parts.query[k].0 == "node-id"@,
        forall|j: int| 0 <= j < k ==> (#[trigger] parts.query[j]).0 != "node-id"@,
    ensures
        res matches Ok(t) && t.file_key@ == key && is_colon_form(parts.query[k].1, t.node_id@),
{
    let l = seq![kind, key] + more;
    reveal_strlit("design");
    reveal_strlit("make");
    reveal_strlit("branch");
    assert("design"@[0] != "make"@[0]);
    assert(l[0] == kind && l[1] == key);
    assert forall|i: int| 0 <= i < l.len() implies (#[trigger] l[i]).len() > 0 by {
        if i > 1 {
            assert(l[i] == more[i - 2]);
        }
    }
    lemma_all_filled(l);
    if more.len() >= 2 {
        assert(l[2] == more[0]);
    }
    law_parameter_is_found(parts.query, "node-id"@, k);
    law_node_id(parts.query[k].1);
}

/// The URL of a branch stands for the file of the branch.
pub proof fn law_branch_url(
    parts: UrlPartsView,
    res: Result<FigmaTarget, FigmaUrlError>,
    key: Seq<char>,
    branch: Seq<char>,
    more: Seq<Seq<char>>,
    k: int,
)
    requires
        is_target(parts, res),
        parts.host == Some("figma.com"@) || parts.host == Some("www.figma.com"@),
        key.len() > 0,
        branch.len() > 0,
        parts.segments == Some(seq!["design"@, key, "branch"@, branch] + more),
        forall|i: int| 0 <= i < more.len() ==> (#[trigger] more[i]).len() > 0,
        0 <= k < parts.query.len(),
        parts.query[k].0 == "node-id"@,
        forall|j: int| 0 <= j < k ==> (#[trigger] parts.query[j]).0 != "node-id"@,
    ensures
        res matches Ok(t) && t.file_key@ == branch && is_colon_form(parts.query[k].1, t.node_id@),
{
    let l = seq!["design"@, key, "branch"@, branch] + more;
    reveal_strlit("design");
    reveal_strlit("branch");
    assert(l[0] == "design"@ && l[1] == key && l[2] == "branch"@ && l[3] == branch);
    assert forall|i: int| 0 <= i < l.len() implies (#[trigger] l[i]).len() > 0 by {
        if i > 3 {
            assert(l[i] == more[i - 4]);
        }
    }
    lemma_all_filled(l);
    law_parameter_is_found(parts.query, "node-id"@, k);
    law_node_id(parts.query[k].1);
}

/// Only a URL of Figma stands for a node, only one with a path that names a
/// file and with a `node-id`; and each of the others says why.
pub proof fn law_no_other_urls(parts: UrlPartsView, res: Result<FigmaTarget, FigmaUrlError>)
    requires
        is_target(parts, res),
    ensures
        res matches Ok(t) ==> {
            &&& parts.host == Some("figma.com"@) || parts.host == Some("www.figma.com"@)
            &&& parts.segments is Some
            &&& parts.segments->0.contains("design"@) || parts.segments->0.contains("make"@)
            &&& parts.segments->0.contains(t.file_key@)
            &&& exists|k: int|
                0 <= k < parts.query.len() && (#[trigger] parts.query[k]).0 == "node-id"@
                    && is_colon_form(parts.query[k].1, t.node_id@)
        },
        res matches Err(FigmaUrlError::NoHost) <==> parts.host is None,
        res matches Err(FigmaUrlError::OtherHost(h)) ==> parts.host == Some(h@) && h@
            != "figma.com"@ && h@ != "www.figma.com"@,
        res matches Err(FigmaUrlError::NoPath) ==> parts.segments is None,
        res matches Err(FigmaUrlError::NoNodeId) ==> forall|j: int|
            0 <= j < parts.query.len() ==> (#[trigger] parts.query[j]).0 != "node-id"@,
        !(res matches Err(FigmaUrlError::NotAUrl)),
{
    law_parameter_is_missing(parts.query, "node-id"@);
    if let Ok(t) = res {
        let l = parts.segments->0;
        let f = filled(l);
        assert(f.contains(t.file_key@)) by {
            assert(f[1] == t.file_key@ || f[3] == t.file_key@);
        }
        assert(f.contains("design"@) || f.contains("make"@)) by {
            assert(f[0] == "design"@ || f[0] == "make"@);
        }
        lemma_filled_among(l, t.file_key@);
        lemma_filled_among(l, "design"@);
        lemma_filled_among(l, "make"@);
        let k = find_first(parts.query, "node-id"@, 0);
        law_parameter_is_found(parts.query, "node-id"@, k);
        law_node_id(parts.query[k].1);
        assert(parts.query[k].0 == "node-id"@);
    }
}

proof fn lemma_filled_among(l: Seq<Seq<char>>, s: Seq<char>)
    ensures
        filled(l).contains(s) ==> l.contains(s),
    decreases l.len(),
{
    if l.len() > 0 && filled(l).contains(s) {
        let d = l.drop_last();
        lemma_filled_among(d, s);
        let i = choose|i: int| 0 <= i < filled(l).len() && filled(l)[i] == s;
        if filled(d).contains(s) {
            let k = choose|k: int| 0 <= k < d.len() && d[k] == s;
            assert(l[k] == s);
        } else {
            if i < filled(d).len() {
                assert(filled(d)[i] == s);
            }
            assert(l[l.len() - 1] == s);
        }
    }
}

} // verus!
