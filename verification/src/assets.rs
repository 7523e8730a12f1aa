//! The assets that the code refers to: where they are declared, under which
//! names they are kept, and how the code refers to them then.

use vstd::prelude::*;
use vstd::string::*;

use crate::chars::{
    all_in, chars_of, has_prefix, is_digit, is_lower, is_space, is_upper, last_position,
    law_nothing_to_replace, law_replaced, law_replaced_is_gone, law_starts_and_ends, law_trimmed,
    lower, position, replace_text, replaced_from, starts_with, strip_prefix, stripped, to_lower,
    trim, trimmed, unlinked, CharSet,
};
use crate::pattern::{
    are_matches, groups_of, is_match, known_matches, regex_matches, ASSET_CONST, Groups,
};
use crate::substitute::{group, group_text};
use crate::text::{
    bytes_of, find_from, lemma_ascii_text, lemma_find_from, lemma_rfind_from, occurs, occurs_at,
    occurs_in, rfind_from, same, utf8,
};

verus! {

// ---------------------------------------------------------------------------
// Declarations
// ---------------------------------------------------------------------------

/// An asset: the constant that is declared with its URL.
#[derive(Debug)]
pub struct Asset {
    pub var: String,
    pub url: String,
}

/// The name of the constant and the URL.
pub open spec fn assets_view(l: Seq<Asset>) -> Seq<(Seq<char>, Seq<char>)> {
    l.map_values(|a: Asset| (a.var@, a.url@))
}

/// The assets that the matches declare.
pub open spec fn assets_in(code: Seq<char>, found: Seq<Seq<Option<(usize, usize)>>>) -> Seq<
    (Seq<char>, Seq<char>),
> {
    Seq::new(found.len(), |i: int| (group(code, found[i], 1), group(code, found[i], 2)))
}

/// The assets that the matches declare.
pub fn assets_among(code: &str, found: &Vec<Groups>) -> (res: Vec<Asset>)
    requires
        are_matches(code@, groups_of(found@)),
    ensures
        assets_view(res@) == assets_in(code@, groups_of(found@)),
{
    let ghost all = assets_in(code@, groups_of(found@));
    let mut res: Vec<Asset> = Vec::new();
    let mut i: usize = 0;
    while i < found.len()
        invariant
            i <= found@.len(),
            are_matches(code@, groups_of(found@)),
            all == assets_in(code@, groups_of(found@)),
            assets_view(res@) == all.take(i as int),
        decreases found@.len() - i,
    {
        let m = &found[i];
        let ghost before = assets_view(res@);
        assert(groups_of(found@)[i as int] == m@);
        assert(is_match(code@, m@));
        let a = Asset {
            var: group_text(code, m, 1).to_string(),
            url: group_text(code, m, 2).to_string(),
        };
        res.push(a);
        i += 1;
        assert(assets_view(res@) =~= before.push((a.var@, a.url@)));
        assert(assets_view(res@) =~= all.take(i as int));
    }
    assert(assets_view(res@) =~= all);
    res
}

/// The assets that the code declares.
pub fn find_assets(code: &str) -> (res: Vec<Asset>)
    ensures
        assets_view(res@) == assets_in(code@, regex_matches(ASSET_CONST@, code@)),
{
    assets_among(code, &known_matches(ASSET_CONST, code))
}

/// One of the assets has the URL.
pub open spec fn has_url(l: Seq<(Seq<char>, Seq<char>)>, url: Seq<char>) -> bool {
    exists|i: int| 0 <= i < l.len() && (#[trigger] l[i]).1 == url
}

/// The assets with each URL once: that of the constant that comes first.
pub open spec fn distinct(l: Seq<(Seq<char>, Seq<char>)>) -> Seq<(Seq<char>, Seq<char>)>
    decreases l.len(),
{
    if l.len() == 0 {
        Seq::empty()
    } else {
        let d = distinct(l.drop_last());
        if has_url(d, l.last().1) {
            d
        } else {
            d.push(l.last())
        }
    }
}

/// Every URL stays, and no other comes in.
pub proof fn law_every_url_stays(l: Seq<(Seq<char>, Seq<char>)>, url: Seq<char>)
    ensures
        has_url(distinct(l), url) <==> has_url(l, url),
    decreases l.len(),
{
    if l.len() > 0 {
        let (p, last) = (l.drop_last(), l.last());
        law_every_url_stays(p, url);
        law_every_url_stays(p, last.1);
        lemma_url_pushed(p, last, url);
        lemma_url_pushed(distinct(p), last, url);
        assert(l =~= p.push(last));
    }
}

proof fn lemma_url_pushed(
    l: Seq<(Seq<char>, Seq<char>)>,
    a: (Seq<char>, Seq<char>),
    url: Seq<char>,
)
    ensures
        has_url(l.push(a), url) <==> has_url(l, url) || a.1 == url,
{
    let r = l.push(a);
    if has_url(l, url) {
        let i = choose|i: int| 0 <= i < l.len() && (#[trigger] l[i]).1 == url;
        assert(r[i].1 == url);
    }
    assert(r[l.len() as int] == a);
    if has_url(r, url) && a.1 != url {
        let i = choose|i: int| 0 <= i < r.len() && (#[trigger] r[i]).1 == url;
        assert(l[i].1 == url);
    }
}

/// No URL stays twice.
pub proof fn law_no_url_twice(l: Seq<(Seq<char>, Seq<char>)>, i: int, j: int)
    requires
        0 <= i < j < distinct(l).len(),
    ensures
        distinct(l)[i].1 != distinct(l)[j].1,
    decreases l.len(),
{
    let d = distinct(l.drop_last());
    if j < d.len() {
        law_no_url_twice(l.drop_last(), i, j);
    } else {
        assert(d[i].1 != l.last().1);
    }
}

/// A URL stays with the constant that comes first.
pub proof fn law_first_constant_stays(l: Seq<(Seq<char>, Seq<char>)>, i: int)
    requires
        0 <= i < distinct(l).len(),
    ensures
        exists|k: int|
            {
                &&& 0 <= k < l.len()
                &&& #[trigger] l[k] == distinct(l)[i]
                &&& forall|j: int| 0 <= j < k ==> (#[trigger] l[j]).1 != l[k].1
            },
    decreases l.len(),
{
    let (p, last) = (l.drop_last(), l.last());
    let d = distinct(p);
    if i < d.len() {
        law_first_constant_stays(p, i);
        let k = choose|k: int|
            {
                &&& 0 <= k < p.len()
                &&& #[trigger] p[k] == d[i]
                &&& forall|j: int| 0 <= j < k ==> (#[trigger] p[j]).1 != p[k].1
            };
        assert(l[k] == distinct(l)[i]);
        assert forall|j: int| 0 <= j < k implies (#[trigger] l[j]).1 != l[k].1 by {
            assert(p[j].1 != p[k].1);
        }
    } else {
        let k = l.len() - 1;
        law_every_url_stays(p, last.1);
        assert(l[k] == distinct(l)[i]);
        assert forall|j: int| 0 <= j < k implies (#[trigger] l[j]).1 != l[k].1 by {
            assert(p[j] == l[j]);
        }
    }
}

/// The assets with each URL once, to be fetched and kept under the name of the
/// constant that comes first.
pub fn unique_assets(assets: &Vec<Asset>) -> (res: Vec<Asset>)
    ensures
        assets_view(res@) == distinct(assets_view(assets@)),
{
    let ghost all = assets_view(assets@);
    let mut res: Vec<Asset> = Vec::new();
    let mut i: usize = 0;
    assert(assets_view(res@) =~= distinct(all.take(0)));
    while i < assets.len()
        invariant
            i <= assets@.len(),
            all == assets_view(assets@),
            assets_view(res@) == distinct(all.take(i as int)),
        decreases assets@.len() - i,
    {
        let a = &assets[i];
        let ghost before = assets_view(res@);
        assert(all[i as int] == (a.var@, a.url@));
        assert(all.take(i + 1).drop_last() =~= all.take(i as int));
        let mut j: usize = 0;
        while j < res.len() && !same(res[j].url.as_str(), a.url.as_str())
            invariant
                j <= res@.len(),
                before == assets_view(res@),
                forall|k: int| 0 <= k < j ==> (#[trigger] before[k]).1 != a.url@,
            decreases res@.len() - j,
        {
            assert(before[j as int].1 == res@[j as int].url@);
            j += 1;
        }
        if j == res.len() {
            let copy = Asset { var: a.var.clone(), url: a.url.clone() };
            res.push(copy);
            assert(assets_view(res@) =~= before.push((copy.var@, copy.url@)));
        } else {
            assert(before[j as int].1 == a.url@);
        }
        i += 1;
    }
    assert(all.take(i as int) =~= all);
    res
}

// ---------------------------------------------------------------------------
// Extensions
// ---------------------------------------------------------------------------

/// A URL of the local server.
pub open spec fn is_local_url(url: Seq<char>) -> bool {
    starts_with(url, "http://127.0.0.1:3845/assets/"@) || starts_with(
        url,
        "http://localhost:3845/assets/"@,
    )
}

/// What stands behind the last occurrence of `mark`; everything where there is
/// none.
pub open spec fn behind_last(s: Seq<char>, mark: Seq<char>) -> Seq<char> {
    match rfind_from(s, mark, s.len() as int) {
        Some(i) => s.skip(i + mark.len()),
        None => s,
    }
}

/// The extension in a URL of the local server; other URLs have none.
pub open spec fn url_extension(url: Seq<char>) -> Option<Seq<char>> {
    let name = behind_last(url, "/"@);
    if is_local_url(url) && rfind_from(name, "."@, name.len() as int) is Some && behind_last(
        name,
        "."@,
    ).len() > 0 {
        Some(behind_last(name, "."@))
    } else {
        None
    }
}

fn split_behind<'a>(text: &'a str, mark: &str) -> (res: (bool, &'a str))
    ensures
        res.0 == (rfind_from(text@, mark@, text@.len() as int) is Some),
        res.1@ == behind_last(text@, mark@),
{
    let chars = chars_of(text);
    let needle = chars_of(mark);
    let n: usize = chars.len();
    match last_position(&chars, &needle, n) {
        Some(i) => {
            proof {
                lemma_rfind_from(text@, mark@, n as int);
            }
            let rest = text.substring_char(i + needle.len(), n);
            assert(rest@ =~= text@.skip(i + mark@.len()));
            (true, rest)
        },
        None => (false, text),
    }
}

/// The extension in a URL of the local server.
pub fn ext_from_url(url: &str) -> (res: Option<String>)
    ensures
        match res {
            Some(ext) => url_extension(url@) == Some(ext@),
            None => url_extension(url@) is None,
        },
{
    if !(has_prefix(url, "http://127.0.0.1:3845/assets/") || has_prefix(
        url,
        "http://localhost:3845/assets/",
    )) {
        return None;
    }
    let (_, name) = split_behind(url, "/");
    let (dotted, ext) = split_behind(name, ".");
    if dotted && !ext.is_empty() {
        Some(ext.to_string())
    } else {
        None
    }
}

/// The text before the first semicolon, without white space at its ends.
pub open spec fn media_type(content_type: Seq<char>) -> Seq<char> {
    trimmed(
        match find_from(content_type, ";"@, 0) {
            Some(i) => content_type.take(i),
            None => content_type,
        },
    )
}

/// The extension of an image of the given media type.
pub open spec fn image_extension(media: Seq<char>) -> Option<Seq<char>> {
    if media == "image/png"@ {
        Some("png"@)
    } else if media == "image/svg+xml"@ {
        Some("svg"@)
    } else if media == "image/jpeg"@ || media == "image/jpg"@ {
        Some("jpg"@)
    } else if media == "image/webp"@ {
        Some("webp"@)
    } else if media == "image/gif"@ {
        Some("gif"@)
    } else {
        None
    }
}

/// A text that may be missing, by view.
pub open spec fn static_text(t: Option<&'static str>) -> Option<Seq<char>> {
    match t {
        Some(t) => Some(t@),
        None => None,
    }
}

/// The extension for a content type.
pub fn ext_for_content_type(ct: &str) -> (res: Option<&'static str>)
    ensures
        static_text(res) == image_extension(media_type(ct@)),
{
    let chars = chars_of(ct);
    let main = match position(&chars, &chars_of(";"), 0) {
        Some(i) => {
            proof {
                lemma_find_from(ct@, ";"@, 0);
                assert(ct@.subrange(0, i as int) =~= ct@.take(i as int));
            }
            trim(ct.substring_char(0, i))
        },
        None => trim(ct),
    };
    if same(main, "image/png") {
        Some("png")
    } else if same(main, "image/svg+xml") {
        Some("svg")
    } else if same(main, "image/jpeg") || same(main, "image/jpg") {
        Some("jpg")
    } else if same(main, "image/webp") {
        Some("webp")
    } else if same(main, "image/gif") {
        Some("gif")
    } else {
        None
    }
}

/// The first bytes of a PNG file.
pub open spec fn png_signature() -> Seq<u8> {
    seq![0x89, 0x50, 0x4e, 0x47, 0x0d, 0x0a, 0x1a, 0x0a]
}

/// The extension that the first bytes of a file tell.
pub open spec fn sniffed(b: Seq<u8>) -> Option<Seq<char>> {
    if occurs_at(b, png_signature(), 0) {
        Some("png"@)
    } else if occurs_at(b, seq![0xffu8, 0xd8, 0xff], 0) {
        Some("jpg"@)
    } else if occurs_at(b, utf8("GIF87a"@), 0) || occurs_at(b, utf8("GIF89a"@), 0) {
        Some("gif"@)
    } else if occurs_at(b, utf8("RIFF"@), 0) && occurs_at(b, utf8("WEBP"@), 8) {
        Some("webp"@)
    } else if occurs_at(b, utf8("<?xml"@), 0) || occurs_at(b, utf8("<svg"@), 0) {
        Some("svg"@)
    } else {
        None
    }
}

/// The extension that the first bytes of a file tell.
pub fn sniff_ext(bytes: &[u8]) -> (res: Option<&'static str>)
    ensures
        static_text(res) == sniffed(bytes@),
{
    let png: Vec<u8> = vec![0x89, 0x50, 0x4e, 0x47, 0x0d, 0x0a, 0x1a, 0x0a];
    let jpg: Vec<u8> = vec![0xff, 0xd8, 0xff];
    assert(png@ =~= png_signature());
    assert(jpg@ =~= seq![0xffu8, 0xd8, 0xff]);
    if occurs(bytes, png.as_slice(), 0) {
        Some("png")
    } else if occurs(bytes, jpg.as_slice(), 0) {
        Some("jpg")
    } else if occurs(bytes, bytes_of("GIF87a"), 0) || occurs(bytes, bytes_of("GIF89a"), 0) {
        Some("gif")
    } else if occurs(bytes, bytes_of("RIFF"), 0) && occurs(bytes, bytes_of("WEBP"), 8) {
        Some("webp")
    } else if occurs(bytes, bytes_of("<?xml"), 0) || occurs(bytes, bytes_of("<svg"), 0) {
        Some("svg")
    } else {
        None
    }
}

/// The extension of a fetched file: the one in its URL, then the one for its
/// content type, then the one that its bytes tell.
pub open spec fn extension(url: Seq<char>, content_type: Seq<char>, b: Seq<u8>) -> Option<
    Seq<char>,
> {
    match url_extension(url) {
        Some(ext) => Some(ext),
        None => match image_extension(media_type(content_type)) {
            Some(ext) => Some(ext),
            None => sniffed(b),
        },
    }
}

/// Nothing tells the extension of a fetched file.
#[derive(Debug)]
pub struct UnknownExtension {
    pub url: String,
    pub content_type: String,
}

impl UnknownExtension {
    pub fn message(&self) -> (res: String)
        ensures
            res@ == "could not determine extension for "@ + self.url@ + " (content-type=`"@
                + self.content_type@ + "`)"@,
    {
        let mut res: String = "could not determine extension for ".to_string();
        res.append(self.url.as_str());
        res.append(" (content-type=`");
        res.append(self.content_type.as_str());
        res.append("`)");
        res
    }
}

/// The extension of a fetched file.
pub fn choose_extension(url: &str, content_type: &str, bytes: &[u8]) -> (res: Result<
    String,
    UnknownExtension,
>)
    ensures
        match res {
            Ok(ext) => extension(url@, content_type@, bytes@) == Some(ext@),
            Err(e) => extension(url@, content_type@, bytes@) is None && e.url@ == url@
                && e.content_type@ == content_type@,
        },
{
    if let Some(ext) = ext_from_url(url) {
        return Ok(ext);
    }
    if let Some(ext) = ext_for_content_type(content_type) {
        return Ok(ext.to_string());
    }
    if let Some(ext) = sniff_ext(bytes) {
        return Ok(ext.to_string());
    }
    Err(UnknownExtension { url: url.to_string(), content_type: content_type.to_string() })
}

// ---------------------------------------------------------------------------
// File names
// ---------------------------------------------------------------------------

/// What a character of a name is; `Start` stands before the first.
#[derive(Clone, Copy, PartialEq, Eq, Structural)]
pub enum CharKind {
    Start,
    Upper,
    Lower,
    Digit,
    Other,
}

pub open spec fn kind_of(c: char) -> CharKind {
    if is_upper(c) {
        CharKind::Upper
    } else if is_lower(c) {
        CharKind::Lower
    } else if is_digit(c) {
        CharKind::Digit
    } else {
        CharKind::Other
    }
}

/// A new word begins between two characters of these kinds.
pub open spec fn breaks(a: CharKind, b: CharKind) -> bool {
    ||| a == CharKind::Lower && b == CharKind::Upper
    ||| a == CharKind::Lower && b == CharKind::Digit
    ||| a == CharKind::Digit && b == CharKind::Upper
    ||| a == CharKind::Upper && b == CharKind::Digit
}

/// The kind of the last character.
pub open spec fn last_kind(s: Seq<char>) -> CharKind {
    if s.len() == 0 {
        CharKind::Start
    } else {
        kind_of(s.last())
    }
}

/// The ASCII letters and digits of `s` in lower case, with a hyphen where a
/// word begins.
pub open spec fn hyphenated(s: Seq<char>) -> Seq<char>
    decreases s.len(),
{
    if s.len() == 0 {
        Seq::empty()
    } else {
        let (out, c) = (hyphenated(s.drop_last()), s.last());
        let dashed = if breaks(last_kind(s.drop_last()), kind_of(c)) {
            out.push('-')
        } else {
            out
        };
        if kind_of(c) == CharKind::Other {
            dashed
        } else {
            dashed.push(lower(c))
        }
    }
}

/// The name of a constant without `img` in front, hyphenated; `asset` where
/// nothing is left of it.
pub open spec fn kebab(var: Seq<char>) -> Seq<char> {
    let bare = match stripped(var, "img"@) {
        Some(rest) => rest,
        None => var,
    };
    if hyphenated(bare).len() > 0 {
        hyphenated(bare)
    } else {
        "asset"@
    }
}

fn char_kind(c: char) -> (res: CharKind)
    ensures
        res == kind_of(c),
{
    if is_upper(c) {
        CharKind::Upper
    } else if is_lower(c) {
        CharKind::Lower
    } else if is_digit(c) {
        CharKind::Digit
    } else {
        CharKind::Other
    }
}

fn needs_dash(a: CharKind, b: CharKind) -> (res: bool)
    ensures
        res == breaks(a, b),
{
    match (a, b) {
        (CharKind::Lower, CharKind::Upper) => true,
        (CharKind::Lower, CharKind::Digit) => true,
        (CharKind::Digit, CharKind::Upper) => true,
        (CharKind::Upper, CharKind::Digit) => true,
        _ => false,
    }
}

/// `imgFrameInspect1` becomes `frame-inspect-1`.
pub fn kebab_from_const_name(var: &str) -> (res: String)
    ensures
        res@ == kebab(var@),
{
    let bare = match strip_prefix(var, "img") {
        Some(rest) => rest,
        None => var,
    };
    let chars = chars_of(bare);
    let mut out: String = String::new();
    let mut before = CharKind::Start;
    let mut i: usize = 0;
    while i < chars.len()
        invariant
            chars@ == bare@,
            i <= chars@.len(),
            out@ == hyphenated(bare@.take(i as int)),
            before == last_kind(bare@.take(i as int)),
        decreases chars@.len() - i,
    {
        let c = chars[i];
        assert(bare@.take(i + 1).drop_last() =~= bare@.take(i as int));
        let kind = char_kind(c);
        if needs_dash(before, kind) {
            out.push('-');
        }
        if kind != CharKind::Other {
            out.push(to_lower(c));
        }
        before = kind;
        i += 1;
    }
    assert(bare@.take(i as int) =~= bare@);
    if out.as_str().is_empty() {
        return "asset".to_string();
    }
    out
}

/// A character of a file name: a lower-case letter, a digit or a hyphen.
pub open spec fn is_file_char(c: char) -> bool {
    is_lower(c) || is_digit(c) || c == '-'
}

/// No hyphen stands first, last or beside another.
pub open spec fn hyphens_stand_between(s: Seq<char>) -> bool {
    &&& s.len() > 0 ==> s[0] != '-' && s.last() != '-'
    &&& forall|i: int, j: int|
        #![trigger s[i], s[j]]
        0 <= i < s.len() && j == i + 1 && j < s.len() && s[i] == '-' ==> s[j] != '-'
}

/// Whatever the constant is called, the file name that comes of it is not
/// empty and holds lower-case letters, digits and hyphens. A hyphen stands only
/// between two of the others.
pub proof fn law_kebab(var: Seq<char>)
    ensures
        kebab(var).len() > 0,
        forall|i: int| 0 <= i < kebab(var).len() ==> is_file_char(#[trigger] kebab(var)[i]),
        hyphens_stand_between(kebab(var)),
{
    reveal_strlit("asset");
    let bare = match stripped(var, "img"@) {
        Some(rest) => rest,
        None => var,
    };
    lemma_hyphenated(bare);
}

proof fn lemma_hyphenated(s: Seq<char>)
    ensures
        forall|i: int| 0 <= i < hyphenated(s).len() ==> is_file_char(#[trigger] hyphenated(s)[i]),
        hyphens_stand_between(hyphenated(s)),
        last_kind(s) != CharKind::Start && last_kind(s) != CharKind::Other ==> hyphenated(s).len()
            > 0,
    decreases s.len(),
{
    if s.len() > 0 {
        lemma_hyphenated(s.drop_last());
        let (out, r, c) = (hyphenated(s.drop_last()), hyphenated(s), s.last());
        assert(kind_of(c) != CharKind::Other ==> is_file_char(lower(c)) && lower(c) != '-');
        if out.len() > 0 && r.len() > 0 {
            assert(r[0] == out[0]);
        }
        assert forall|i: int| 0 <= i < r.len() implies is_file_char(#[trigger] r[i]) by {
            if i < out.len() {
                assert(r[i] == out[i]);
            }
        }
    }
}

/// The name of the file that an asset is kept in.
pub fn asset_file_name(var: &str, ext: &str) -> (res: String)
    ensures
        res@ == kebab(var@) + "."@ + ext@,
{
    let mut res: String = kebab_from_const_name(var);
    res.append(".");
    res.append(ext);
    res
}

// ---------------------------------------------------------------------------
// Rewriting
// ---------------------------------------------------------------------------

/// A relative path as a module path: with `./` in front where it does not
/// start with a dot or a slash already.
pub open spec fn import_path(rel: Seq<char>) -> Seq<char> {
    if starts_with(rel, "./"@) || starts_with(rel, "../"@) || starts_with(rel, "/"@) {
        rel
    } else {
        "./"@ + rel
    }
}

pub fn explicit_relative(rel: &str) -> (res: String)
    ensures
        res@ == import_path(rel@),
{
    if has_prefix(rel, "./") || has_prefix(rel, "../") || has_prefix(rel, "/") {
        return rel.to_string();
    }
    let mut res: String = "./".to_string();
    res.append(rel);
    res
}

/// A fetched asset: its URL, the path that stands for it, and its size.
#[derive(Debug)]
pub struct Fetched {
    pub url: String,
    /// The path relative to the directory of the code.
    pub relative: String,
    pub size: u64,
}

/// The URLs and the module paths that stand for them.
pub open spec fn rewrites(l: Seq<Fetched>) -> Seq<(Seq<char>, Seq<char>)> {
    l.map_values(|f: Fetched| (f.url@, import_path(f.relative@)))
}

/// The code with the URLs replaced by the paths, one after the other.
pub open spec fn rewritten(code: Seq<char>, l: Seq<(Seq<char>, Seq<char>)>) -> Seq<char>
    decreases l.len(),
{
    if l.len() == 0 {
        code
    } else {
        replaced_from(rewritten(code, l.drop_last()), l.last().0, l.last().1, 0)
    }
}

/// What was fetched.
#[derive(Debug)]
pub struct DownloadReport {
    pub count: usize,
    pub total_bytes: u64,
}

/// The sum of the sizes.
pub open spec fn total_size(l: Seq<Fetched>) -> nat
    decreases l.len(),
{
    if l.len() == 0 {
        0
    } else {
        total_size(l.drop_last()) + l.last().size as nat
    }
}

/// Replace the URLs of the fetched assets by the paths that stand for them,
/// one after the other. The sum of the sizes is taken modulo 2^64.
pub fn rewrite_urls(code: &str, fetched: &Vec<Fetched>) -> (res: (String, DownloadReport))
    ensures
        res.0@ == rewritten(code@, rewrites(fetched@)),
        res.1.count == fetched@.len(),
        res.1.total_bytes == total_size(fetched@) % 0x1_0000_0000_0000_0000,
{
    let ghost all = rewrites(fetched@);
    let mut text: String = code.to_string();
    let mut total: u64 = 0;
    let mut i: usize = 0;
    while i < fetched.len()
        invariant
            i <= fetched@.len(),
            all == rewrites(fetched@),
            text@ == rewritten(code@, all.take(i as int)),
            total == total_size(fetched@.take(i as int)) % 0x1_0000_0000_0000_0000,
        decreases fetched@.len() - i,
    {
        let f = &fetched[i];
        assert(all[i as int] == (f.url@, import_path(f.relative@)));
        assert(all.take(i + 1).drop_last() =~= all.take(i as int));
        assert(fetched@.take(i + 1).drop_last() =~= fetched@.take(i as int));
        let path = explicit_relative(f.relative.as_str());
        text = replace_text(text.as_str(), f.url.as_str(), path.as_str());
        total = total.wrapping_add(f.size);
        i += 1;
    }
    assert(all.take(i as int) =~= all);
    assert(fetched@.take(i as int) =~= fetched@);
    (text, DownloadReport { count: fetched.len(), total_bytes: total })
}

/// URLs that do not occur in the code change nothing in it.
pub proof fn law_absent_urls_change_nothing(code: Seq<char>, l: Seq<(Seq<char>, Seq<char>)>)
    requires
        forall|i: int|
            0 <= i < l.len() ==> (#[trigger] l[i]).0.len() > 0 && !occurs_in(code, l[i].0),
    ensures
        rewritten(code, l) == code,
    decreases l.len(),
{
    if l.len() > 0 {
        let d = l.drop_last();
        assert(l[l.len() - 1] == l.last());
        assert forall|i: int| 0 <= i < d.len() implies (#[trigger] d[i]).0.len() > 0 && !occurs_in(
            code,
            d[i].0,
        ) by {
            assert(d[i] == l[i]);
        }
        law_absent_urls_change_nothing(code, d);
        law_nothing_to_replace(code, l.last().0, l.last().1);
    }
}

/// No URL is left in the code, where none is linked to a path that is put in.
pub proof fn law_no_url_is_left(code: Seq<char>, l: Seq<(Seq<char>, Seq<char>)>, k: int)
    requires
        0 <= k < l.len(),
        forall|i: int| 0 <= i < l.len() ==> (#[trigger] l[i]).0.len() > 0,
        forall|i: int, j: int|
            0 <= i < l.len() && 0 <= j < l.len() ==> unlinked(
                (#[trigger] l[i]).0,
                (#[trigger] l[j]).1,
            ),
    ensures
        !occurs_in(rewritten(code, l), l[k].0),
    decreases l.len(),
{
    let d = l.drop_last();
    let before = rewritten(code, d);
    let n = l.len() - 1;
    assert(l[n] == l.last());
    assert(unlinked(l[k].0, l[n].1));
    if k < n {
        assert forall|i: int| 0 <= i < d.len() implies (#[trigger] d[i]).0.len() > 0 by {
            assert(d[i] == l[i]);
        }
        assert forall|i: int, j: int| 0 <= i < d.len() && 0 <= j < d.len() implies unlinked(
            (#[trigger] d[i]).0,
            (#[trigger] d[j]).1,
        ) by {
            assert(d[i] == l[i] && d[j] == l[j]);
        }
        assert(d[k] == l[k]);
        law_no_url_is_left(code, d, k);
    }
    law_replaced_is_gone(before, l[n].0, l[n].1, l[k].0);
}

/// What comes behind the last mark: `mark` does not occur in it.
pub proof fn law_behind_last(a: Seq<char>, mark: char, b: Seq<char>)
    requires
        !b.contains(mark),
    ensures
        behind_last(a + seq![mark] + b, seq![mark]) == b,
        rfind_from(a + seq![mark] + b, seq![mark], (a + seq![mark] + b).len() as int) is Some,
        behind_last(b, seq![mark]) == b,
        rfind_from(b, seq![mark], b.len() as int) is None,
{
    let (s, m) = (a + seq![mark] + b, seq![mark]);
    let n = s.len() as int;
    lemma_rfind_from(s, m, n);
    assert(s.subrange(a.len() as int, a.len() as int + 1) =~= m);
    assert(occurs_at(s, m, a.len() as int));
    assert forall|j: int| a.len() < j <= n implies !occurs_at(s, m, j) by {
        if occurs_at(s, m, j) {
            assert(s.subrange(j, j + 1)[0] == s[j]);
            assert(b[j - a.len() - 1] == mark);
        }
    }
    assert(s.skip(a.len() as int + 1) =~= b);
    lemma_rfind_from(b, m, b.len() as int);
    if let Some(j) = rfind_from(b, m, b.len() as int) {
        assert(b.subrange(j, j + 1)[0] == b[j]);
        assert(b.contains(b[j]));
    }
}

/// A file of the local server has the extension behind the last dot of its
/// name. One without a dot, and a URL of any other server, have none.
pub proof fn law_url_extension(dirs: Seq<char>, stem: Seq<char>, ext: Seq<char>, url: Seq<char>)
    requires
        !stem.contains('/'),
        !ext.contains('/'),
        !ext.contains('.'),
        ext.len() > 0,
    ensures
        url == "http://localhost:3845/assets/"@ + dirs || url == "http://127.0.0.1:3845/assets/"@
            + dirs ==> url_extension(url + seq!['/'] + (stem + seq!['.'] + ext)) == Some(ext),
        url_extension("http://localhost:3845/assets/"@ + (stem + seq!['.'] + ext)) == Some(ext),
        url_extension("http://127.0.0.1:3845/assets/"@ + (stem + seq!['.'] + ext)) == Some(ext),
        !"http://localhost:3845/assets/"@.is_prefix_of(url)
            && !"http://127.0.0.1:3845/assets/"@.is_prefix_of(url) ==> url_extension(url) is None,
{
    reveal_strlit("/");
    reveal_strlit(".");
    reveal_strlit("http://localhost:3845/assets/");
    reveal_strlit("http://127.0.0.1:3845/assets/");
    let name = stem + seq!['.'] + ext;
    assert("/"@ =~= seq!['/']);
    assert("."@ =~= seq!['.']);
    assert(!name.contains('/')) by {
        if name.contains('/') {
            let i = choose|i: int| 0 <= i < name.len() && name[i] == '/';
            if i < stem.len() {
                assert(stem[i] == '/');
            } else if i > stem.len() {
                assert(ext[i - stem.len() - 1] == '/');
            }
        }
    }
    law_behind_last(stem, '.', ext);
    let (a, b) = ("http://localhost:3845/assets/"@, "http://127.0.0.1:3845/assets/"@);
    law_starts_and_ends(a, name, url);
    law_starts_and_ends(b, name, url);
    let (c, d) = (a.drop_last(), b.drop_last());
    law_behind_last(c, '/', name);
    law_behind_last(d, '/', name);
    assert(c + seq!['/'] + name =~= a + name);
    assert(d + seq!['/'] + name =~= b + name);
    let t = url + seq!['/'] + name;
    law_behind_last(url, '/', name);
    if url == a + dirs {
        assert(t =~= a + (dirs + seq!['/'] + name));
        law_starts_and_ends(a, dirs + seq!['/'] + name, url);
    }
    if url == b + dirs {
        assert(t =~= b + (dirs + seq!['/'] + name));
        law_starts_and_ends(b, dirs + seq!['/'] + name, url);
    }
}

/// The media type is what stands before the first semicolon, without white
/// space around it.
pub proof fn law_media_type(l: Seq<char>, media: Seq<char>, r: Seq<char>, rest: Seq<char>)
    requires
        all_in(l, CharSet::Whitespace),
        all_in(r, CharSet::Whitespace),
        media.len() > 0,
        !media.contains(';'),
        !is_space(media[0]),
        !is_space(media.last()),
    ensures
        media_type(l + media + r + seq![';'] + rest) == media,
        media_type(l + media + r) == media,
{
    reveal_strlit(";");
    let m = l + media + r;
    let s = m + seq![';'] + rest;
    assert(!m.contains(';')) by {
        if m.contains(';') {
            let i = choose|i: int| 0 <= i < m.len() && m[i] == ';';
            if i < l.len() {
                assert(CharSet::Whitespace.has(l[i]));
            } else if i < l.len() + media.len() {
                assert(media[i - l.len()] == ';');
            } else {
                assert(CharSet::Whitespace.has(r[i - l.len() - media.len()]));
            }
        }
    }
    law_trimmed(l, media, r);
    let n = m.len() as int;
    lemma_find_from(s, ";"@, 0);
    lemma_find_from(m, ";"@, 0);
    assert(s.subrange(n, n + 1) =~= ";"@);
    assert(occurs_at(s, ";"@, n));
    assert forall|j: int| 0 <= j < n implies !occurs_at(s, ";"@, j) by {
        if occurs_at(s, ";"@, j) {
            assert(s.subrange(j, j + 1)[0] == s[j]);
            assert(m.contains(m[j]));
        }
    }
    assert forall|j: int| 0 <= j implies !occurs_at(m, ";"@, j) by {
        if occurs_at(m, ";"@, j) {
            assert(m.subrange(j, j + 1)[0] == m[j]);
            assert(m.contains(m[j]));
        }
    }
    assert(s.take(n) =~= m);
}

/// The first bytes of a file tell what it is, whatever follows them.
pub proof fn law_sniffed(rest: Seq<u8>, size: Seq<u8>)
    requires
        size.len() == 4,
    ensures
        sniffed(seq![0x89u8, 0x50, 0x4e, 0x47, 0x0d, 0x0a, 0x1a, 0x0a] + rest) == Some("png"@),
        sniffed(seq![0xffu8, 0xd8, 0xff] + rest) == Some("jpg"@),
        sniffed(utf8("GIF87a"@) + rest) == Some("gif"@),
        sniffed(utf8("GIF89a"@) + rest) == Some("gif"@),
        sniffed(utf8("RIFF"@) + size + utf8("WEBP"@) + rest) == Some("webp"@),
        sniffed(utf8("<svg"@) + rest) == Some("svg"@),
        sniffed(utf8("<?xml"@) + rest) == Some("svg"@),
{
    lemma_starts_with_bytes(png_signature(), rest);
    assert(png_signature() =~= seq![0x89u8, 0x50, 0x4e, 0x47, 0x0d, 0x0a, 0x1a, 0x0a]);
    lemma_starts_with_bytes(seq![0xffu8, 0xd8, 0xff], rest);
    reveal_strlit("GIF87a");
    reveal_strlit("GIF89a");
    reveal_strlit("RIFF");
    reveal_strlit("WEBP");
    reveal_strlit("<svg");
    reveal_strlit("<?xml");
    lemma_ascii_text("GIF87a"@);
    lemma_ascii_text("GIF89a"@);
    lemma_ascii_text("RIFF"@);
    lemma_ascii_text("WEBP"@);
    lemma_ascii_text("<svg"@);
    lemma_ascii_text("<?xml"@);
    lemma_starts_with_bytes(utf8("GIF87a"@), rest);
    lemma_starts_with_bytes(utf8("GIF89a"@), rest);
    lemma_starts_with_bytes(utf8("<svg"@), rest);
    lemma_starts_with_bytes(utf8("<?xml"@), rest);
    let w = utf8("RIFF"@) + size + utf8("WEBP"@) + rest;
    assert(w.subrange(0, 4) =~= utf8("RIFF"@));
    assert(w.subrange(8, 12) =~= utf8("WEBP"@));
    lemma_first_bytes(seq![0xffu8, 0xd8, 0xff] + rest);
    lemma_first_bytes(utf8("GIF87a"@) + rest);
    lemma_first_bytes(utf8("GIF89a"@) + rest);
    lemma_first_bytes(w);
    lemma_first_bytes(utf8("<svg"@) + rest);
    lemma_first_bytes(utf8("<?xml"@) + rest);
    assert(utf8("GIF87a"@)[0] == 'G' as u8 && utf8("GIF89a"@)[0] == 'G' as u8);
    assert(utf8("RIFF"@)[0] == 'R' as u8);
    assert(utf8("<svg"@)[0] == '<' as u8 && utf8("<?xml"@)[0] == '<' as u8);
}

proof fn lemma_starts_with_bytes(mark: Seq<u8>, rest: Seq<u8>)
    ensures
        occurs_at(mark + rest, mark, 0),
{
    assert((mark + rest).subrange(0, mark.len() as int) =~= mark);
}

/// What starts with a mark starts with its first byte.
proof fn lemma_first_bytes(b: Seq<u8>)
    requires
        b.len() > 0,
    ensures
        b[0] != 0x89 ==> !occurs_at(b, png_signature(), 0),
        b[0] != 0xff ==> !occurs_at(b, seq![0xffu8, 0xd8, 0xff], 0),
        b[0] != 'G' as u8 ==> !occurs_at(b, utf8("GIF87a"@), 0) && !occurs_at(
            b,
            utf8("GIF89a"@),
            0,
        ),
        b[0] != 'R' as u8 ==> !occurs_at(b, utf8("RIFF"@), 0),
{
    reveal_strlit("GIF87a");
    reveal_strlit("GIF89a");
    reveal_strlit("RIFF");
    lemma_ascii_text("GIF87a"@);
    lemma_ascii_text("GIF89a"@);
    lemma_ascii_text("RIFF"@);
    if occurs_at(b, png_signature(), 0) {
        assert(b.subrange(0, 8)[0] == b[0]);
    }
    if occurs_at(b, seq![0xffu8, 0xd8, 0xff], 0) {
        assert(b.subrange(0, 3)[0] == b[0]);
    }
    if occurs_at(b, utf8("GIF87a"@), 0) {
        assert(b.subrange(0, 6)[0] == b[0]);
    }
    if occurs_at(b, utf8("GIF89a"@), 0) {
        assert(b.subrange(0, 6)[0] == b[0]);
    }
    if occurs_at(b, utf8("RIFF"@), 0) {
        assert(b.subrange(0, 4)[0] == b[0]);
    }
}

/// The extension in the URL goes before the content type, and that before the
/// bytes.
pub proof fn law_extension(url: Seq<char>, content_type: Seq<char>, b: Seq<u8>)
    ensures
        url_extension(url) is Some ==> extension(url, content_type, b) == url_extension(url),
        url_extension(url) is None && image_extension(media_type(content_type)) is Some
            ==> extension(url, content_type, b) == image_extension(media_type(content_type)),
        url_extension(url) is None && image_extension(media_type(content_type)) is None
            ==> extension(url, content_type, b) == sniffed(b),
        forall|media: Seq<char>|
            #![trigger image_extension(media)]
            image_extension(media) is Some <==> media == "image/png"@ || media == "image/svg+xml"@
                || media == "image/jpeg"@ || media == "image/jpg"@ || media == "image/webp"@
                || media == "image/gif"@,
{
}

/// The letters and digits of a name in lower case, without anything between
/// them.
pub open spec fn plain_letters(s: Seq<char>) -> Seq<char>
    decreases s.len(),
{
    if s.len() == 0 {
        Seq::empty()
    } else if is_upper(s.last()) || is_lower(s.last()) || is_digit(s.last()) {
        plain_letters(s.drop_last()).push(lower(s.last()))
    } else {
        plain_letters(s.drop_last())
    }
}

/// A hyphen stands between two characters exactly where the second begins a
/// word: a capital behind a small letter or a digit, or a digit behind a
/// letter.
pub open spec fn begins_word(a: char, b: char) -> bool {
    ||| is_upper(b) && (is_lower(a) || is_digit(a))
    ||| is_digit(b) && (is_lower(a) || is_upper(a))
}

/// Names are hyphenated part by part, with a hyphen between two parts exactly
/// where a word begins there.
pub proof fn law_hyphenated(a: Seq<char>, b: Seq<char>)
    requires
        a.len() > 0,
        b.len() > 0,
    ensures
        begins_word(a.last(), b[0]) ==> hyphenated(a + b) == hyphenated(a) + seq!['-'] + hyphenated(
            b,
        ),
        !begins_word(a.last(), b[0]) ==> hyphenated(a + b) == hyphenated(a) + hyphenated(b),
    decreases b.len(),
{
    let (s, d) = (a + b, b.drop_last());
    assert(s.drop_last() =~= a + d);
    assert(s.last() == b.last());
    if d.len() > 0 {
        law_hyphenated(a, d);
        assert(d[0] == b[0]);
        assert((a + d).last() == d.last());
    } else {
        assert(a + d =~= a);
        assert(b.last() == b[0]);
        assert(hyphenated(d) =~= Seq::empty());
        assert(last_kind(d) == CharKind::Start);
    }
    if begins_word(a.last(), b[0]) {
        assert(hyphenated(s) =~= hyphenated(a) + seq!['-'] + hyphenated(b));
    } else {
        assert(hyphenated(s) =~= hyphenated(a) + hyphenated(b));
    }
}

/// Without its hyphens, what comes of a name are its ASCII letters and digits
/// in lower case.
pub proof fn law_hyphens_only_add(s: Seq<char>)
    ensures
        hyphenated(s).filter(|c: char| c != '-') == plain_letters(s),
    decreases s.len(),
{
    let f = |c: char| c != '-';
    reveal(Seq::filter);
    if s.len() > 0 {
        let (d, c) = (s.drop_last(), s.last());
        law_hyphens_only_add(d);
        let out = hyphenated(d);
        let dashed = if breaks(last_kind(d), kind_of(c)) {
            out.push('-')
        } else {
            out
        };
        assert(out.push('-').drop_last() =~= out);
        assert(dashed.filter(f) =~= out.filter(f));
        assert(dashed.push(lower(c)).drop_last() =~= dashed);
        if kind_of(c) != CharKind::Other {
            assert(lower(c) != '-');
        }
    } else {
        assert(hyphenated(s).filter(f) =~= plain_letters(s));
    }
}

/// A name without `img` in front is taken as it is, and of one with it the
/// rest.
pub proof fn law_kebab_of_constant(n: Seq<char>, var: Seq<char>)
    ensures
        plain_letters(n).len() > 0 ==> kebab("img"@ + n) == hyphenated(n),
        plain_letters(n).len() == 0 ==> kebab("img"@ + n) == "asset"@,
        !"img"@.is_prefix_of(var) && plain_letters(var).len() > 0 ==> kebab(var) == hyphenated(var),
{
    law_starts_and_ends("img"@, n, var);
    lemma_some_letter(n);
    lemma_some_letter(var);
}

proof fn lemma_some_letter(s: Seq<char>)
    ensures
        hyphenated(s).len() == 0 <==> plain_letters(s).len() == 0,
        last_kind(s) != CharKind::Start && last_kind(s) != CharKind::Other ==> hyphenated(s).len()
            > 0,
    decreases s.len(),
{
    if s.len() > 0 {
        lemma_some_letter(s.drop_last());
    }
}

/// A relative path is written so that it cannot be taken for the name of a
/// package.
pub proof fn law_import_path(rel: Seq<char>)
    ensures
        import_path("./"@ + rel) == "./"@ + rel,
        import_path("../"@ + rel) == "../"@ + rel,
        import_path("/"@ + rel) == "/"@ + rel,
        rel.len() == 0 || (rel[0] != '.' && rel[0] != '/') ==> import_path(rel) == "./"@ + rel,
{
    reveal_strlit("./");
    reveal_strlit("../");
    reveal_strlit("/");
    law_starts_and_ends("./"@, rel, rel);
    law_starts_and_ends("../"@, rel, rel);
    law_starts_and_ends("/"@, rel, rel);
    if starts_with(rel, "./"@) {
        assert(rel.subrange(0, 2)[0] == rel[0]);
    }
    if starts_with(rel, "../"@) {
        assert(rel.subrange(0, 3)[0] == rel[0]);
    }
    if starts_with(rel, "/"@) {
        assert(rel.subrange(0, 1)[0] == rel[0]);
    }
}

/// URLs are rewritten one after the other, each everywhere in the code.
pub proof fn law_rewritten(
    code: Seq<char>,
    a: Seq<(Seq<char>, Seq<char>)>,
    b: Seq<(Seq<char>, Seq<char>)>,
)
    ensures
        rewritten(code, a + b) == rewritten(rewritten(code, a), b),
    decreases b.len(),
{
    if b.len() == 0 {
        assert(a + b =~= a);
    } else {
        law_rewritten(code, a, b.drop_last());
        assert((a + b).drop_last() =~= a + b.drop_last());
        assert((a + b).last() == b.last());
    }
}

/// A URL is replaced by its path where it occurs first, and then in what comes
/// behind it.
pub proof fn law_url_is_rewritten(a: Seq<char>, url: Seq<char>, b: Seq<char>, path: Seq<char>)
    requires
        0 < url.len(),
        forall|j: int| 0 <= j < a.len() ==> !#[trigger] occurs_at(a + url + b, url, j),
    ensures
        rewritten(a + url + b, seq![(url, path)]) == a + path + rewritten(b, seq![(url, path)]),
{
    let one = seq![(url, path)];
    assert(one.drop_last() =~= Seq::empty());
    assert(rewritten(a + url + b, one.drop_last()) == a + url + b);
    assert(rewritten(b, one.drop_last()) == b);
    law_replaced(a, url, b, path);
}

/// Every match declares one asset: its first group is the constant, its second
/// the URL.
pub proof fn law_assets_in(code: Seq<char>, found: Seq<Seq<Option<(usize, usize)>>>, i: int)
    requires
        0 <= i < found.len(),
    ensures
        assets_in(code, found).len() == found.len(),
        assets_in(code, found)[i].0 == group(code, found[i], 1),
        assets_in(code, found)[i].1 == group(code, found[i], 2),
{
}

/// The sizes of all that was fetched add up.
pub proof fn law_total_size(a: Seq<Fetched>, b: Seq<Fetched>, f: Fetched)
    ensures
        total_size(a + b) == total_size(a) + total_size(b),
        total_size(seq![f]) == f.size,
    decreases b.len(),
{
    assert(seq![f].drop_last() =~= Seq::empty());
    assert(total_size(seq![f].drop_last()) == 0);
    if b.len() == 0 {
        assert(a + b =~= a);
    } else {
        law_total_size(a, b.drop_last(), f);
        assert((a + b).drop_last() =~= a + b.drop_last());
    }
}

/// A URL is local where it is one of the assets of the server on this machine,
/// under either of its names; that of another host, port or place is not.
pub proof fn law_local_url(rest: Seq<char>, url: Seq<char>)
    ensures
        is_local_url("http://127.0.0.1:3845/assets/"@ + rest),
        is_local_url("http://localhost:3845/assets/"@ + rest),
        is_local_url(url) ==> "http://127.0.0.1:3845/assets/"@.is_prefix_of(url)
            || "http://localhost:3845/assets/"@.is_prefix_of(url),
{
    law_starts_and_ends("http://127.0.0.1:3845/assets/"@, rest, url);
    law_starts_and_ends("http://localhost:3845/assets/"@, rest, url);
}

} // verus!
