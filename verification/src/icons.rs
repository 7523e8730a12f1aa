//! Replacing `<img src={imgXxx} />` by icon components of the code base.
//!
//! A constant `imgXxx` stands for a component where an override says so, where
//! a component of its name was found, or where its value is a local SVG file.
//! Every `<img>` of such a constant becomes a reference to the component, which
//! is imported; the declaration of the constant goes where nothing else refers
//! to it.

use vstd::prelude::*;
use vstd::string::*;

use crate::chars::{
    all_in, between, chars_of, enclosed, ends_with, has_prefix, has_suffix, is_space, is_word,
    is_word_char, last_position, law_enclosed, law_not_enclosed, law_starts_and_ends, law_trimmed,
    law_without_tail, lower, lowered, position, stands_at, starts_with, strip_prefix, stripped,
    text_of, text_or_none, to_lower_text, trim, trim_end, trimmed, views, without_tail, word,
    word_start, CharSet,
};
use crate::edit::{
    all_fit, apart, blank_out, blanked, edit_each, edited, edited_by, edits_of, is_blanked,
    law_blanked, law_edited, law_edits_apart, sort, sorted, spliced, Edit, EditView, Order,
};
use crate::imports::{
    added, agree_on, all_added, binding_of, law_import_is_bound, ImportView, Imports, ImportsView,
};
use crate::pattern::{
    are_matches, groups_of, is_match, known_matches, regex_matches, Groups, IMAGE_CONST, IMAGE_TAG,
};
use crate::text::{
    at_boundary, bytes_of, cut, find_from, law_ascii_byte_is_char, lemma_ascii_boundary,
    lemma_ascii_text, lemma_find_from, lemma_rfind_from, lemma_utf8_concat, lemma_utf8_len,
    occurs_at, rfind_from, same, slice, utf8,
};
use crate::text_map::{
    count_up, counted, law_counted, law_lookup, lemma_mapped, lemma_slot, lemma_total_counted,
    lookup, mapped, one_more, ordered, total, TextMap,
};

verus! {

// ---------------------------------------------------------------------------
// Configuration
// ---------------------------------------------------------------------------

/// How the constants are matched with components.
#[derive(Debug)]
pub struct IconConfig {
    /// The directory to look for components in. Without it only the overrides
    /// and local SVG files give components.
    pub component_dir: Option<String>,
    /// The module that the components are imported from, each by its name
    /// behind a slash. Without it no component is matched by its name.
    pub module: Option<String>,
    /// How the components are exported: `"named"`, which is the default, or
    /// `"default"`.
    pub default_export: String,
    /// Where no component has the name, look for the name without the digits
    /// at its end.
    pub strip_trailing_digits: bool,
    /// Pass the `className` of the `<img>` on to the component.
    pub forward_classname: bool,
    /// Import local SVG files as components.
    pub local_svg_import: bool,
    /// The components of single constants.
    pub overrides: TextMap<OverrideValue>,
}

/// The component of a single constant.
#[derive(Debug)]
pub enum OverrideValue {
    /// Its name; module and export as for the others.
    Name(String),
    Full { name: String, module: Option<String>, export: Option<String> },
}

/// An override: the name, and the module and the export where they are given.
pub struct OverrideView {
    pub name: Seq<char>,
    pub module: Option<Seq<char>>,
    pub export: Option<Seq<char>>,
}

impl View for OverrideValue {
    type V = OverrideView;

    open spec fn view(&self) -> OverrideView {
        match *self {
            OverrideValue::Name(name) => OverrideView { name: name@, module: None, export: None },
            OverrideValue::Full { name, module, export } => OverrideView {
                name: name@,
                module: text_or_none(module),
                export: text_or_none(export),
            },
        }
    }
}

/// The view of an override, as a function.
pub open spec fn override_view() -> spec_fn(OverrideValue) -> OverrideView {
    |o: OverrideValue| o@
}

/// The configuration as far as it decides what is replaced.
pub struct IconConfigView {
    pub module: Option<Seq<char>>,
    pub default_export: Seq<char>,
    pub strip_trailing_digits: bool,
    pub forward_classname: bool,
    pub local_svg_import: bool,
    pub overrides: Seq<(Seq<char>, OverrideView)>,
}

impl View for IconConfig {
    type V = IconConfigView;

    open spec fn view(&self) -> IconConfigView {
        IconConfigView {
            module: text_or_none(self.module),
            default_export: self.default_export@,
            strip_trailing_digits: self.strip_trailing_digits,
            forward_classname: self.forward_classname,
            local_svg_import: self.local_svg_import,
            overrides: mapped(self.overrides@, override_view()),
        }
    }
}

impl IconConfig {
    /// The configuration for a second pass, once the files are local: the
    /// same without overrides. There is none where local files are not to be
    /// imported.
    pub fn for_local_files(&self) -> (res: Option<IconConfig>)
        ensures
            match res {
                Some(cfg) => self.local_svg_import && cfg@ == (IconConfigView {
                    overrides: Seq::empty(),
                    ..self@
                }) && text_or_none(cfg.component_dir) == text_or_none(self.component_dir),
                None => !self.local_svg_import,
            },
    {
        if !self.local_svg_import {
            return None;
        }
        let res = IconConfig {
            component_dir: match &self.component_dir {
                Some(dir) => Some(dir.clone()),
                None => None,
            },
            module: match &self.module {
                Some(module) => Some(module.clone()),
                None => None,
            },
            default_export: self.default_export.clone(),
            strip_trailing_digits: self.strip_trailing_digits,
            forward_classname: self.forward_classname,
            local_svg_import: true,
            overrides: TextMap::new(),
        };
        assert(res@.overrides =~= Seq::empty());
        Some(res)
    }
}

impl Default for IconConfig {
    fn default() -> (res: Self)
        ensures
            res.component_dir is None,
            res@ == (IconConfigView {
                module: None,
                default_export: "named"@,
                strip_trailing_digits: true,
                forward_classname: true,
                local_svg_import: false,
                overrides: Seq::empty(),
            }),
    {
        let res = IconConfig {
            component_dir: None,
            module: None,
            default_export: "named".to_string(),
            strip_trailing_digits: true,
            forward_classname: true,
            local_svg_import: false,
            overrides: TextMap::new(),
        };
        assert(res@.overrides =~= Seq::empty());
        res
    }
}

// ---------------------------------------------------------------------------
// The components at hand
// ---------------------------------------------------------------------------

/// An entry of the component directory.
#[derive(Debug)]
pub struct DirEntry {
    pub name: String,
    pub is_dir: bool,
    /// It is a directory with a file `index.tsx` in it.
    pub has_index: bool,
}

/// The component that an entry of the directory holds: a directory with an
/// index one of its own name, a file `Name.tsx` one called `Name`.
pub open spec fn component_in(entry: DirEntry) -> Option<Seq<char>> {
    if entry.is_dir {
        if entry.has_index {
            Some(entry.name@)
        } else {
            None
        }
    } else if ends_with(entry.name@, ".tsx"@) && entry.name@.len() > 4 {
        Some(entry.name@.take(entry.name@.len() - 4))
    } else {
        None
    }
}

/// The components that the entries hold, as they come.
pub open spec fn components_in(entries: Seq<DirEntry>) -> Seq<Seq<char>>
    decreases entries.len(),
{
    if entries.len() == 0 {
        Seq::empty()
    } else {
        let l = components_in(entries.drop_last());
        match component_in(entries.last()) {
            Some(name) => l.push(name),
            None => l,
        }
    }
}

/// The names of the components that the entries of a directory hold.
pub fn component_names(entries: &Vec<DirEntry>) -> (res: Vec<String>)
    ensures
        views(res@) == components_in(entries@),
{
    let mut res: Vec<String> = Vec::new();
    let mut i: usize = 0;
    assert(views(res@) =~= components_in(entries@.take(0)));
    while i < entries.len()
        invariant
            i <= entries@.len(),
            views(res@) == components_in(entries@.take(i as int)),
        decreases entries@.len() - i,
    {
        let e = &entries[i];
        let ghost before = views(res@);
        assert(entries@.take(i + 1).drop_last() =~= entries@.take(i as int));
        proof {
            reveal_strlit(".tsx");
        }
        let name = e.name.as_str();
        let n: usize = name.unicode_len();
        if e.is_dir {
            if e.has_index {
                res.push(name.to_string());
                assert(views(res@) =~= before.push(e.name@));
            }
        } else if has_suffix(name, ".tsx") && n > 4 {
            let stem = name.substring_char(0, n - 4).to_string();
            assert(stem@ =~= e.name@.take(n - 4));
            res.push(stem);
            assert(views(res@) =~= before.push(stem@));
        }
        i += 1;
    }
    assert(entries@.take(i as int) =~= entries@);
    res
}

// ---------------------------------------------------------------------------
// From a constant to its component
// ---------------------------------------------------------------------------

/// A component and where it is imported from.
pub struct ResolvedView {
    pub component: Seq<char>,
    pub module: Seq<char>,
    pub export: Seq<char>,
}

/// A component in a file of its own below a module.
pub open spec fn component_of(name: Seq<char>, prefix: Seq<char>, style: Seq<char>) -> ResolvedView {
    ResolvedView {
        component: name,
        module: without_tail(prefix, CharSet::Only('/')) + "/"@ + name,
        export: if style == "default"@ {
            "default"@
        } else {
            name
        },
    }
}

/// The name of a constant without `img` in front.
pub open spec fn bare_name(name: Seq<char>) -> Seq<char> {
    match stripped(name, "img"@) {
        Some(rest) => rest,
        None => name,
    }
}

/// The component that an override gives a constant, or one that has its name.
pub open spec fn configured(
    cfg: IconConfigView,
    scanned: Seq<Seq<char>>,
    name: Seq<char>,
) -> Option<ResolvedView> {
    let bare = bare_name(name);
    let short = without_tail(bare, CharSet::Digits);
    match lookup(cfg.overrides, name) {
        Some(o) => {
            let style = match o.export {
                Some(e) => e,
                None => cfg.default_export,
            };
            match (o.module, cfg.module) {
                (Some(prefix), _) => Some(component_of(o.name, prefix, style)),
                (None, Some(prefix)) => Some(component_of(o.name, prefix, style)),
                (None, None) => None,
            }
        },
        None => match cfg.module {
            None => None,
            Some(prefix) => if scanned.contains(bare) {
                Some(component_of(bare, prefix, cfg.default_export))
            } else if cfg.strip_trailing_digits && short != bare && scanned.contains(short) {
                Some(component_of(short, prefix, cfg.default_export))
            } else {
                None
            },
        },
    }
}

/// A path to an SVG file, not an absolute URL.
pub open spec fn local_svg(url: Seq<char>) -> bool {
    let l = lowered(url);
    ends_with(l, ".svg"@) && !starts_with(l, "http://"@) && !starts_with(l, "https://"@)
}

/// The component of a constant with the given value.
pub open spec fn resolved(
    cfg: IconConfigView,
    scanned: Seq<Seq<char>>,
    name: Seq<char>,
    url: Seq<char>,
) -> Option<ResolvedView> {
    match configured(cfg, scanned, name) {
        Some(r) => Some(r),
        None => if cfg.local_svg_import && local_svg(url) {
            Some(ResolvedView { component: bare_name(name), module: url, export: "default"@ })
        } else {
            None
        },
    }
}

/// A component and where it is imported from.
#[derive(Debug)]
pub struct Resolved {
    pub component: String,
    pub module: String,
    pub export: String,
}

impl View for Resolved {
    type V = ResolvedView;

    open spec fn view(&self) -> ResolvedView {
        ResolvedView { component: self.component@, module: self.module@, export: self.export@ }
    }
}

/// A component in a file of its own below a module. It is the default export
/// where the style says so, and else exported under its own name.
pub fn make_resolved(component: &str, module_prefix: &str, export_style: &str) -> (res: Resolved)
    ensures
        res@ == component_of(component@, module_prefix@, export_style@),
{
    let mut module: String = trim_end(module_prefix, &CharSet::Only('/')).to_string();
    module.append("/");
    module.append(component);
    Resolved {
        component: component.to_string(),
        module,
        export: if same(export_style, "default") {
            "default".to_string()
        } else {
            component.to_string()
        },
    }
}

/// The name of a constant without `img` in front.
pub fn derive_candidate<'a>(const_name: &'a str) -> (res: &'a str)
    ensures
        res@ == bare_name(const_name@),
{
    match strip_prefix(const_name, "img") {
        Some(rest) => rest,
        None => const_name,
    }
}

fn is_among(names: &Vec<String>, name: &str) -> (res: bool)
    ensures
        res == views(names@).contains(name@),
{
    let mut i: usize = 0;
    while i < names.len()
        invariant
            i <= names@.len(),
            forall|j: int| 0 <= j < i ==> #[trigger] views(names@)[j] != name@,
        decreases names@.len() - i,
    {
        assert(views(names@)[i as int] == names@[i as int]@);
        if same(names[i].as_str(), name) {
            return true;
        }
        i += 1;
    }
    false
}

/// The component that an override gives a constant, or one of those at hand
/// that has its name.
pub fn resolve(const_name: &str, cfg: &IconConfig, scanned: &Vec<String>) -> (res: Option<Resolved>)
    ensures
        match res {
            Some(r) => configured(cfg@, views(scanned@), const_name@) == Some(r@),
            None => configured(cfg@, views(scanned@), const_name@) is None,
        },
{
    proof {
        lemma_mapped(cfg.overrides@, override_view(), const_name@, arbitrary());
    }
    if let Some(o) = cfg.overrides.get(const_name) {
        let (name, module, export): (&String, Option<&String>, Option<&String>) = match o {
            OverrideValue::Name(name) => (name, None, None),
            OverrideValue::Full { name, module, export } => (
                name,
                module.as_ref(),
                export.as_ref(),
            ),
        };
        let style: &String = match export {
            Some(e) => e,
            None => &cfg.default_export,
        };
        return match module {
            Some(prefix) => Some(make_resolved(name.as_str(), prefix.as_str(), style.as_str())),
            None => match &cfg.module {
                Some(prefix) => Some(
                    make_resolved(name.as_str(), prefix.as_str(), style.as_str()),
                ),
                None => None,
            },
        };
    }
    match &cfg.module {
        None => None,
        Some(prefix) => {
            let style = cfg.default_export.as_str();
            let candidate = derive_candidate(const_name);
            if is_among(scanned, candidate) {
                return Some(make_resolved(candidate, prefix.as_str(), style));
            }
            if cfg.strip_trailing_digits {
                let short = trim_end(candidate, &CharSet::Digits);
                if !same(short, candidate) && is_among(scanned, short) {
                    return Some(make_resolved(short, prefix.as_str(), style));
                }
            }
            None
        },
    }
}

/// Whether a URL is a path to an SVG file and not an absolute URL.
pub fn is_local_svg_path(url: &str) -> (res: bool)
    ensures
        res == local_svg(url@),
{
    let lower = to_lower_text(url);
    has_suffix(lower.as_str(), ".svg") && !(has_prefix(lower.as_str(), "http://") || has_prefix(
        lower.as_str(),
        "https://",
    ))
}

/// The component of a constant with the given value: that of its override,
/// then one of its name, then the SVG file that it names.
pub fn resolve_value(
    const_name: &str,
    url: &str,
    cfg: &IconConfig,
    scanned: &Vec<String>,
) -> (res: Option<Resolved>)
    ensures
        match res {
            Some(r) => resolved(cfg@, views(scanned@), const_name@, url@) == Some(r@),
            None => resolved(cfg@, views(scanned@), const_name@, url@) is None,
        },
{
    match resolve(const_name, cfg, scanned) {
        Some(r) => Some(r),
        None => if cfg.local_svg_import && is_local_svg_path(url) {
            Some(
                Resolved {
                    component: derive_candidate(const_name).to_string(),
                    module: url.to_string(),
                    export: "default".to_string(),
                },
            )
        } else {
            None
        },
    }
}

// ---------------------------------------------------------------------------
// References to a constant
// ---------------------------------------------------------------------------

/// What stands at `at` with the given length is a word of its own.
pub open spec fn stands_alone(src: Seq<char>, at: int, len: int) -> bool {
    &&& at == 0 || !is_word_char(src[at - 1])
    &&& at + len >= src.len() || !is_word_char(src[at + len])
}

/// `const` stands right before `at`, but for spaces.
pub open spec fn follows_const(src: Seq<char>, at: int) -> bool {
    ends_with(without_tail(src.take(at), CharSet::Only(' ')), "const"@)
}

/// The name at `at` is the source of an `<img>`: the tag in which it stands
/// is one, and between its last `src={` and the `}` stands nothing else.
pub open spec fn is_image_source(src: Seq<char>, name: Seq<char>, at: int) -> bool {
    let end = at + name.len();
    match rfind_from(src, "<"@, at - 1) {
        None => false,
        Some(lt) => {
            &&& match find_from(src, ">"@, lt) {
                Some(gt) => gt > at,
                None => false,
            }
            &&& occurs_at(src, "<img"@, lt) && lt + 4 <= at
            &&& match rfind_from(src, "src={"@, end - 5) {
                Some(open) => open >= lt && trimmed(src.subrange(open + 5, end)) == name,
                None => false,
            }
            &&& occurs_at(src, "}"@, word_start(src, end))
        },
    }
}

/// The name at `at` would be left without its declaration.
pub open spec fn dangles_at(src: Seq<char>, name: Seq<char>, at: int) -> bool {
    stands_alone(src, at, name.len() as int) && !follows_const(src, at) && !is_image_source(
        src,
        name,
        at,
    )
}

/// An occurrence of the name from `pos` on would be left without its
/// declaration; what follows an occurrence is looked at behind its end.
pub open spec fn dangles_from(src: Seq<char>, name: Seq<char>, pos: int) -> bool
    decreases src.len() - pos,
        when 0 <= pos && 0 < name.len()
{
    proof {
        lemma_find_from(src, name, pos);
    }
    match find_from(src, name, pos) {
        None => false,
        Some(at) => dangles_at(src, name, at) || dangles_from(src, name, at + name.len()),
    }
}

fn skip_back(chars: &Vec<char>, at: usize, set: &CharSet) -> (res: usize)
    requires
        at <= chars@.len(),
    ensures
        res <= at,
        without_tail(chars@.take(at as int), *set) == chars@.take(res as int),
{
    let mut k: usize = at;
    while k > 0 && set.contains(chars[k - 1])
        invariant
            k <= at <= chars@.len(),
            without_tail(chars@.take(at as int), *set) == without_tail(
                chars@.take(k as int),
                *set,
            ),
        decreases k,
    {
        assert(chars@.take(k as int).drop_last() =~= chars@.take(k - 1));
        k -= 1;
    }
    k
}

fn const_before(chars: &Vec<char>, at: usize) -> (res: bool)
    requires
        at <= chars@.len(),
    ensures
        res == follows_const(chars@, at as int),
{
    let k: usize = skip_back(chars, at, &CharSet::Only(' '));
    proof {
        reveal_strlit("const");
    }
    if k < 5 {
        return false;
    }
    assert(chars@.take(k as int).subrange(k - 5, k as int) =~= chars@.subrange(k - 5, k as int));
    stands_at(chars, &chars_of("const"), k - 5)
}

fn skip_blank(chars: &Vec<char>, from: usize) -> (res: usize)
    requires
        from <= chars@.len(),
    ensures
        res == word_start(chars@, from as int),
{
    let mut i: usize = from;
    while i < chars.len() && is_space(chars[i])
        invariant
            from <= i <= chars@.len(),
            word_start(chars@, from as int) == word_start(chars@, i as int),
        decreases chars@.len() - i,
    {
        i += 1;
    }
    i
}

fn in_image_source(chars: &Vec<char>, name: &str, at: usize, end: usize) -> (res: bool)
    requires
        at <= end <= chars@.len(),
        end == at + name@.len(),
    ensures
        res == is_image_source(chars@, name@, at as int),
{
    if at == 0 {
        return false;
    }
    proof {
        lemma_rfind_from(chars@, "<"@, at - 1);
        lemma_rfind_from(chars@, "src={"@, end - 5);
        reveal_strlit("src={");
        reveal_strlit("<img");
    }
    match last_position(chars, &chars_of("<"), at - 1) {
        None => false,
        Some(lt) => {
            let inside = match position(chars, &chars_of(">"), lt) {
                Some(gt) => gt > at,
                None => false,
            };
            if !inside || !stands_at(chars, &chars_of("<img"), lt) || at - lt < 4 || end < 5 {
                return false;
            }
            match last_position(chars, &chars_of("src={"), end - 5) {
                None => false,
                Some(open) => {
                    if open < lt {
                        return false;
                    }
                    let payload = text_of(chars, open + 5, end);
                    same(trim(payload.as_str()), name) && stands_at(
                        chars,
                        &chars_of("}"),
                        skip_blank(chars, end),
                    )
                },
            }
        },
    }
}

/// Whether a name occurs outside its declaration and the `<img>` tags whose
/// source it is, where it would be left without its declaration.
pub fn has_non_img_reference(src: &str, name: &str) -> (res: bool)
    requires
        name@.len() > 0,
    ensures
        res == dangles_from(src@, name@, 0),
{
    let chars = chars_of(src);
    let needle = chars_of(name);
    let h: usize = chars.len();
    let k: usize = needle.len();
    let mut pos: usize = 0;
    loop
        invariant
            chars@ == src@,
            needle@ == name@,
            h == chars@.len(),
            k == needle@.len(),
            k > 0,
            pos <= h,
            dangles_from(src@, name@, 0) == dangles_from(src@, name@, pos as int),
        decreases h - pos,
    {
        match position(&chars, &needle, pos) {
            None => {
                return false;
            },
            Some(at) => {
                proof {
                    lemma_find_from(src@, name@, pos as int);
                }
                let end: usize = at + k;
                let alone = (at == 0 || !is_word_char(chars[at - 1])) && (end >= h
                    || !is_word_char(chars[end]));
                if alone && !const_before(&chars, at) && !in_image_source(&chars, name, at, end) {
                    return true;
                }
                pos = end;
            },
        }
    }
}

proof fn lemma_dangles(src: Seq<char>, name: Seq<char>, pos: int)
    requires
        0 <= pos,
        0 < name.len(),
        word(name),
        pos == 0 || pos > src.len() || (pos >= name.len() && occurs_at(
            src,
            name,
            pos - name.len(),
        )),
    ensures
        dangles_from(src, name, pos) <==> exists|at: int|
            pos <= at && #[trigger] occurs_at(src, name, at) && dangles_at(src, name, at),
    decreases src.len() - pos,
{
    lemma_find_from(src, name, pos);
    match find_from(src, name, pos) {
        None => {},
        Some(first) => {
            let next = first + name.len();
            lemma_dangles(src, name, next);
            assert forall|at: int|
                first < at < next && #[trigger] occurs_at(src, name, at) implies !dangles_at(
                src,
                name,
                at,
            ) by {
                assert(src.subrange(first, next)[at - 1 - first] == src[at - 1]);
                assert(is_word_char(name[at - 1 - first]));
            }
            if exists|at: int|
                pos <= at && #[trigger] occurs_at(src, name, at) && dangles_at(src, name, at) {
                let at = choose|at: int|
                    pos <= at && #[trigger] occurs_at(src, name, at) && dangles_at(src, name, at);
                if at >= next {
                    assert(dangles_from(src, name, next));
                } else {
                    assert(at == first);
                }
            }
            if dangles_from(src, name, next) {
                let at = choose|at: int|
                    next <= at && #[trigger] occurs_at(src, name, at) && dangles_at(src, name, at);
                assert(pos <= at && occurs_at(src, name, at));
            }
        },
    }
}

/// A name that an identifier can be is found to dangle exactly where some
/// occurrence of it, as a word of its own, is neither its declaration nor the
/// source of an `<img>`.
pub proof fn law_dangles(src: Seq<char>, name: Seq<char>)
    requires
        0 < name.len(),
        word(name),
    ensures
        dangles_from(src, name, 0) <==> exists|at: int|
            0 <= at && #[trigger] occurs_at(src, name, at) && dangles_at(src, name, at),
{
    lemma_dangles(src, name, 0);
}

/// The text holds the name as a word of its own.
pub open spec fn holds_word(text: Seq<char>, name: Seq<char>) -> bool {
    exists|at: int|
        0 <= at && #[trigger] occurs_at(text, name, at) && stands_alone(
            text,
            at,
            name.len() as int,
        )
}

fn has_word(text: &Vec<char>, name: &str) -> (res: bool)
    ensures
        res == holds_word(text@, name@),
{
    let needle = chars_of(name);
    let h: usize = text.len();
    let k: usize = needle.len();
    let mut i: usize = 0;
    while k <= h && i <= h - k
        invariant
            needle@ == name@,
            h == text@.len(),
            k == needle@.len(),
            forall|at: int|
                0 <= at < i && #[trigger] occurs_at(text@, name@, at) ==> !stands_alone(
                    text@,
                    at,
                    k as int,
                ),
        decreases h + 1 - i,
    {
        if stands_at(text, &needle, i) && (i == 0 || !is_word_char(text[i - 1])) && (i + k >= h
            || !is_word_char(text[i + k])) {
            assert(occurs_at(text@, name@, i as int));
            return true;
        }
        if i == h {
            return false;
        }
        i += 1;
    }
    false
}

// ---------------------------------------------------------------------------
// Image tags
// ---------------------------------------------------------------------------

/// The variable in `src={variable}` among the attributes of a tag.
pub open spec fn source_variable(attrs: Seq<char>) -> Option<Seq<char>> {
    match enclosed(attrs, "src={"@, "}"@) {
        Some(inner) => if trimmed(inner).len() > 0 && word(trimmed(inner)) {
            Some(trimmed(inner))
        } else {
            None
        },
        None => None,
    }
}

/// The value of `className="value"` among the attributes of a tag.
pub open spec fn class_name(attrs: Seq<char>) -> Option<Seq<char>> {
    enclosed(attrs, "className=\""@, "\""@)
}

pub fn extract_src_var<'a>(attrs: &'a str) -> (res: Option<&'a str>)
    ensures
        match res {
            Some(v) => source_variable(attrs@) == Some(v@),
            None => source_variable(attrs@) is None,
        },
{
    match between(attrs, "src={", "}") {
        None => None,
        Some(inner) => {
            let name = trim(inner);
            if !name.is_empty() && is_word(name) {
                Some(name)
            } else {
                None
            }
        },
    }
}

pub fn extract_classname<'a>(attrs: &'a str) -> (res: Option<&'a str>)
    ensures
        match res {
            Some(v) => class_name(attrs@) == Some(v@),
            None => class_name(attrs@) is None,
        },
{
    between(attrs, "className=\"", "\"")
}

/// A reference to a component in place of an `<img>` with these attributes.
pub open spec fn icon_reference(
    component: Seq<char>,
    attrs: Seq<char>,
    forward_classname: bool,
) -> Seq<char> {
    match class_name(attrs) {
        Some(class) => if forward_classname && class.len() > 0 {
            "<"@ + component + " className=\""@ + class + "\" />"@
        } else {
            "<"@ + component + " />"@
        },
        None => "<"@ + component + " />"@,
    }
}

fn icon_tag(component: &str, attrs: &str, forward_classname: bool) -> (res: String)
    ensures
        res@ == icon_reference(component@, attrs@, forward_classname),
{
    let mut res: String = "<".to_string();
    res.append(component);
    if forward_classname {
        if let Some(class) = extract_classname(attrs) {
            if !class.is_empty() {
                res.append(" className=\"");
                res.append(class);
                res.append("\" />");
                return res;
            }
        }
    }
    res.append(" />");
    res
}

// ---------------------------------------------------------------------------
// Declarations
// ---------------------------------------------------------------------------

/// The declaration of a constant: its byte range, its name and its value.
pub struct DeclarationView {
    pub start: int,
    pub end: int,
    pub name: Seq<char>,
    pub url: Seq<char>,
}

/// The declaration that a match is of.
pub open spec fn declaration_at(src: Seq<char>, m: Seq<Option<(usize, usize)>>) -> Option<
    DeclarationView,
> {
    if m.len() < 3 || m[1] is None || m[2] is None {
        None
    } else {
        let (whole, name, url) = (m[0]->0, m[1]->0, m[2]->0);
        Some(
            DeclarationView {
                start: whole.0 as int,
                end: whole.1 as int,
                name: cut(src, name.0 as int, name.1 as int),
                url: cut(src, url.0 as int, url.1 as int),
            },
        )
    }
}

/// The declarations, as they come.
pub open spec fn declarations(src: Seq<char>, found: Seq<Seq<Option<(usize, usize)>>>) -> Seq<
    DeclarationView,
>
    decreases found.len(),
{
    if found.len() == 0 {
        Seq::empty()
    } else {
        let l = declarations(src, found.drop_last());
        match declaration_at(src, found.last()) {
            Some(d) => l.push(d),
            None => l,
        }
    }
}

/// The value of a constant: that of its last declaration.
pub open spec fn value_of(l: Seq<DeclarationView>, name: Seq<char>) -> Option<Seq<char>>
    decreases l.len(),
{
    if l.len() == 0 {
        None
    } else if l.last().name == name {
        Some(l.last().url)
    } else {
        value_of(l.drop_last(), name)
    }
}

/// The component that stands for a declared constant.
pub open spec fn icon_for(
    cfg: IconConfigView,
    scanned: Seq<Seq<char>>,
    l: Seq<DeclarationView>,
    name: Seq<char>,
) -> Option<ResolvedView> {
    match value_of(l, name) {
        Some(url) => resolved(cfg, scanned, name, url),
        None => None,
    }
}

/// The names of those of the declarations `d` whose constants no component
/// stands for, where `l` are all the declarations.
pub open spec fn unmatched(
    cfg: IconConfigView,
    scanned: Seq<Seq<char>>,
    l: Seq<DeclarationView>,
    d: Seq<DeclarationView>,
) -> Seq<Seq<char>>
    decreases d.len(),
{
    if d.len() == 0 {
        Seq::empty()
    } else {
        let names = unmatched(cfg, scanned, l, d.drop_last());
        if icon_for(cfg, scanned, l, d.last().name) is None {
            names.push(d.last().name)
        } else {
            names
        }
    }
}

struct Declaration {
    start: usize,
    end: usize,
    name: String,
    url: String,
}

impl View for Declaration {
    type V = DeclarationView;

    closed spec fn view(&self) -> DeclarationView {
        DeclarationView {
            start: self.start as int,
            end: self.end as int,
            name: self.name@,
            url: self.url@,
        }
    }
}

spec fn declarations_view(l: Seq<Declaration>) -> Seq<DeclarationView> {
    l.map_values(|d: Declaration| d@)
}

/// Every declaration has a byte range between characters.
spec fn placed(src: Seq<char>, l: Seq<DeclarationView>) -> bool {
    forall|i: int|
        0 <= i < l.len() ==> (#[trigger] l[i]).start <= l[i].end && at_boundary(
            utf8(src),
            l[i].start,
        ) && at_boundary(utf8(src), l[i].end)
}

fn read_declarations(src: &str, found: &Vec<Groups>) -> (res: Vec<Declaration>)
    requires
        are_matches(src@, groups_of(found@)),
    ensures
        declarations_view(res@) == declarations(src@, groups_of(found@)),
        placed(src@, declarations_view(res@)),
{
    let mut res: Vec<Declaration> = Vec::new();
    let mut i: usize = 0;
    let ghost all = groups_of(found@);
    assert(declarations_view(res@) =~= declarations(src@, all.take(0)));
    while i < found.len()
        invariant
            i <= found@.len(),
            all == groups_of(found@),
            are_matches(src@, all),
            declarations_view(res@) == declarations(src@, all.take(i as int)),
            placed(src@, declarations_view(res@)),
        decreases found@.len() - i,
    {
        let m = &found[i];
        let ghost before = declarations_view(res@);
        assert(all[i as int] == m@);
        assert(is_match(src@, m@));
        assert(all.take(i + 1).drop_last() =~= all.take(i as int));
        if m.len() >= 3 {
            match (m[0], m[1], m[2]) {
                (Some(whole), Some(name), Some(url)) => {
                    assert(m@[0] is Some && m@[1] is Some && m@[2] is Some);
                    let d = Declaration {
                        start: whole.0,
                        end: whole.1,
                        name: slice(src, name.0, name.1).to_string(),
                        url: slice(src, url.0, url.1).to_string(),
                    };
                    res.push(d);
                    assert(declarations_view(res@) =~= before.push(d@));
                },
                _ => {},
            }
        }
        i += 1;
    }
    assert(all.take(i as int) =~= all);
    res
}

/// The component that stands for a declared constant.
fn find_icon(
    cfg: &IconConfig,
    scanned: &Vec<String>,
    l: &Vec<Declaration>,
    name: &str,
) -> (res: Option<Resolved>)
    ensures
        match res {
            Some(r) => icon_for(cfg@, views(scanned@), declarations_view(l@), name@) == Some(r@),
            None => icon_for(cfg@, views(scanned@), declarations_view(l@), name@) is None,
        },
{
    let ghost all = declarations_view(l@);
    let mut i: usize = l.len();
    assert(all.take(i as int) =~= all);
    while i > 0
        invariant
            i <= l@.len(),
            all == declarations_view(l@),
            value_of(all, name@) == value_of(all.take(i as int), name@),
        decreases i,
    {
        assert(all.take(i as int).drop_last() =~= all.take(i - 1));
        assert(all[i - 1] == l@[i - 1]@);
        if same(l[i - 1].name.as_str(), name) {
            return resolve_value(name, l[i - 1].url.as_str(), cfg, scanned);
        }
        i -= 1;
    }
    None
}

// ---------------------------------------------------------------------------
// What replacing the icons comes to
// ---------------------------------------------------------------------------

/// What has been decided so far.
pub struct IconPlan {
    pub edits: Seq<EditView>,
    pub imports: ImportsView,
    pub replaced: Seq<(Seq<char>, u32)>,
    pub removed: u32,
}

/// Nothing decided.
pub open spec fn no_icons() -> IconPlan {
    IconPlan { edits: Seq::empty(), imports: Seq::empty(), replaced: Seq::empty(), removed: 0 }
}

/// The plan after one more `<img>` tag.
pub open spec fn with_image(
    src: Seq<char>,
    cfg: IconConfigView,
    scanned: Seq<Seq<char>>,
    l: Seq<DeclarationView>,
    p: IconPlan,
    m: Seq<Option<(usize, usize)>>,
) -> IconPlan {
    if m.len() < 2 || m[1] is None {
        p
    } else {
        let (whole, inner) = (m[0]->0, m[1]->0);
        let attrs = cut(src, inner.0 as int, inner.1 as int);
        match source_variable(attrs) {
            None => p,
            Some(name) => match icon_for(cfg, scanned, l, name) {
                None => p,
                Some(r) => IconPlan {
                    edits: p.edits.push(
                        EditView {
                            start: whole.0 as int,
                            end: whole.1 as int,
                            replacement: icon_reference(
                                r.component,
                                attrs,
                                cfg.forward_classname,
                            ),
                        },
                    ),
                    imports: added(p.imports, r.module, r.export, r.component),
                    replaced: counted(p.replaced, name),
                    ..p
                },
            },
        }
    }
}

/// The plan for the `<img>` tags.
pub open spec fn images(
    src: Seq<char>,
    cfg: IconConfigView,
    scanned: Seq<Seq<char>>,
    l: Seq<DeclarationView>,
    found: Seq<Seq<Option<(usize, usize)>>>,
) -> IconPlan
    decreases found.len(),
{
    if found.len() == 0 {
        no_icons()
    } else {
        with_image(
            src,
            cfg,
            scanned,
            l,
            images(src, cfg, scanned, l, found.drop_last()),
            found.last(),
        )
    }
}

/// The end of a declaration with the line end that follows it.
pub open spec fn line_end(src: Seq<char>, end: int) -> int {
    if 0 <= end < utf8(src).len() && utf8(src)[end] == '\n' as u8 {
        end + 1
    } else {
        end
    }
}

/// The edit that takes a declaration out.
pub open spec fn removal(src: Seq<char>, d: DeclarationView) -> EditView {
    EditView { start: d.start, end: line_end(src, d.end), replacement: Seq::empty() }
}

/// The plan with those of the first `n` declarations removed that are to go.
pub open spec fn with_removed(
    src: Seq<char>,
    p: IconPlan,
    l: Seq<DeclarationView>,
    go: Seq<bool>,
    n: nat,
) -> IconPlan
    decreases n,
{
    if n == 0 {
        p
    } else {
        let q = with_removed(src, p, l, go, (n - 1) as nat);
        if go[n - 1] {
            IconPlan {
                edits: q.edits.push(removal(src, l[n - 1])),
                removed: one_more(q.removed),
                ..q
            }
        } else {
            q
        }
    }
}

/// The code with the edits made, one after the other from the last to the
/// first. Nothing where one of them does not fit any more.
pub open spec fn body_of(src: Seq<char>, p: IconPlan) -> Option<Seq<char>> {
    edited_by(src, sorted(p.edits, Order::Backward))
}

/// The body with blanks in place of the references to components that are
/// written. These hold the names of components, which may be called as
/// constants are.
pub open spec fn rest_of(src: Seq<char>, p: IconPlan) -> Option<Seq<char>> {
    edited_by(src, blanked(sorted(p.edits, Order::Backward)))
}

/// The declarations of constants that components stand for and that nothing
/// else refers to.
pub open spec fn dead(
    src: Seq<char>,
    cfg: IconConfigView,
    scanned: Seq<Seq<char>>,
    l: Seq<DeclarationView>,
) -> Seq<bool> {
    Seq::new(
        l.len(),
        |i: int|
            icon_for(cfg, scanned, l, l[i].name) is Some && l[i].name.len() > 0 && !dangles_from(
                src,
                l[i].name,
                0,
            ),
    )
}

/// Those of the declarations that are to go whose names the rest of the code
/// does not hold.
pub open spec fn unreferenced(l: Seq<DeclarationView>, go: Seq<bool>, rest: Seq<char>) -> Seq<bool> {
    Seq::new(go.len(), |i: int| go[i] && !holds_word(rest, l[i].name))
}

/// How many declarations are to go.
pub open spec fn number_of(go: Seq<bool>) -> nat
    decreases go.len(),
{
    if go.len() == 0 {
        0
    } else {
        number_of(go.drop_last()) + if go.last() {
            1nat
        } else {
            0
        }
    }
}

pub proof fn lemma_fewer(go: Seq<bool>, next: Seq<bool>)
    requires
        go.len() == next.len(),
        forall|i: int| 0 <= i < go.len() && #[trigger] next[i] ==> go[i],
    ensures
        number_of(next) <= number_of(go),
        next != go ==> number_of(next) < number_of(go),
    decreases go.len(),
{
    if go.len() > 0 {
        let (g, n) = (go.drop_last(), next.drop_last());
        assert forall|i: int| 0 <= i < g.len() && #[trigger] n[i] implies g[i] by {
            assert(next[i]);
        }
        lemma_fewer(g, n);
        assert(next[go.len() - 1] ==> go[go.len() - 1]);
        assert(next =~= n.push(next.last()));
        assert(go =~= g.push(go.last()));
    } else {
        assert(next =~= go);
    }
}

/// The declarations that go in the end: of those that are to go, the ones are
/// kept whose names the rest of the code would still hold without them, until
/// none is left of these.
pub open spec fn settled(
    src: Seq<char>,
    p: IconPlan,
    l: Seq<DeclarationView>,
    go: Seq<bool>,
) -> Seq<bool>
    decreases number_of(go),
{
    match rest_of(src, with_removed(src, p, l, go, l.len())) {
        None => go,
        Some(rest) => {
            let next = unreferenced(l, go, rest);
            proof {
                lemma_fewer(go, next);
            }
            if next == go {
                go
            } else {
                settled(src, p, l, next)
            }
        },
    }
}

/// The declarations that go: those of constants that components stand for and
/// that neither the code nor what is left of it refers to otherwise.
pub open spec fn gone(
    src: Seq<char>,
    cfg: IconConfigView,
    scanned: Seq<Seq<char>>,
    decls: Seq<Seq<Option<(usize, usize)>>>,
    imgs: Seq<Seq<Option<(usize, usize)>>>,
) -> Seq<bool> {
    let l = declarations(src, decls);
    settled(src, images(src, cfg, scanned, l, imgs), l, dead(src, cfg, scanned, l))
}

/// What is decided for the declarations and the `<img>` tags.
pub open spec fn icon_plan(
    src: Seq<char>,
    cfg: IconConfigView,
    scanned: Seq<Seq<char>>,
    decls: Seq<Seq<Option<(usize, usize)>>>,
    imgs: Seq<Seq<Option<(usize, usize)>>>,
) -> IconPlan {
    let l = declarations(src, decls);
    with_removed(
        src,
        images(src, cfg, scanned, l, imgs),
        l,
        gone(src, cfg, scanned, decls, imgs),
        l.len(),
    )
}

/// What replacing the icons gives.
pub struct IconOutputView {
    pub body: Seq<char>,
    pub imports: ImportsView,
    pub replaced: Seq<(Seq<char>, u32)>,
    pub unmatched: Seq<Seq<char>>,
    pub const_decls_removed: u32,
}

/// What replacing the icons gives. Nothing where an edit does not fit.
pub open spec fn icon_outcome(
    src: Seq<char>,
    cfg: IconConfigView,
    scanned: Seq<Seq<char>>,
    decls: Seq<Seq<Option<(usize, usize)>>>,
    imgs: Seq<Seq<Option<(usize, usize)>>>,
) -> Option<IconOutputView> {
    let l = declarations(src, decls);
    let p = icon_plan(src, cfg, scanned, decls, imgs);
    match body_of(src, p) {
        None => None,
        Some(body) => Some(
            IconOutputView {
                body,
                imports: p.imports,
                replaced: p.replaced,
                unmatched: unmatched(cfg, scanned, l, l),
                const_decls_removed: p.removed,
            },
        ),
    }
}

// ---------------------------------------------------------------------------
// Replacing
// ---------------------------------------------------------------------------

/// What was replaced and what was not.
#[derive(Debug)]
pub struct IconReport {
    /// How many `<img>` tags of each constant were replaced.
    pub replaced: TextMap<u32>,
    /// The constants that no component stands for.
    pub unmatched: Vec<String>,
    /// How many declarations were removed.
    pub const_decls_removed: u32,
}

/// The code with its icons replaced.
#[derive(Debug)]
pub struct IconOutput {
    pub body: String,
    pub imports: Imports,
    pub report: IconReport,
}

impl View for IconOutput {
    type V = IconOutputView;

    open spec fn view(&self) -> IconOutputView {
        IconOutputView {
            body: self.body@,
            imports: self.imports@,
            replaced: self.report.replaced@,
            unmatched: views(self.report.unmatched@),
            const_decls_removed: self.report.const_decls_removed,
        }
    }
}

/// A declaration and an `<img>` tag overlap, so that one of their edits does
/// not fit the code after the other.
#[derive(Debug)]
pub struct IconError;

impl IconError {
    pub fn message(&self) -> (res: String)
        ensures
            res@ == "an image declaration and an <img> tag overlap"@,
    {
        "an image declaration and an <img> tag overlap".to_string()
    }
}

/// The edits for the images and for the declarations that are to go; and how
/// many declarations these are.
fn edits_with_removals(
    src: &str,
    images: &Vec<Edit>,
    decls: &Vec<Declaration>,
    go: &Vec<bool>,
    Ghost(p): Ghost<IconPlan>,
) -> (res: (Vec<Edit>, u32))
    requires
        go@.len() == decls@.len(),
        p.edits == edits_of(images@),
        p.removed == 0,
        placed(src@, declarations_view(decls@)),
    ensures
        with_removed(src@, p, declarations_view(decls@), go@, decls@.len()) == (IconPlan {
            edits: edits_of(res.0@),
            removed: res.1,
            ..p
        }),
{
    let ghost l = declarations_view(decls@);
    let bytes = bytes_of(src);
    let h: usize = bytes.len();
    let mut edits: Vec<Edit> = Vec::new();
    let mut removed: u32 = 0;
    let mut i: usize = 0;
    while i < images.len()
        invariant
            i <= images@.len(),
            edits_of(edits@) == edits_of(images@).take(i as int),
        decreases images@.len() - i,
    {
        let ghost before = edits_of(edits@);
        let e = images[i].copy();
        assert(e@ == edits_of(images@)[i as int]);
        edits.push(e);
        i += 1;
        assert(edits_of(edits@) =~= before.push(e@));
        assert(edits_of(edits@) =~= edits_of(images@).take(i as int));
    }
    assert(edits_of(edits@) =~= edits_of(images@));
    let mut k: usize = 0;
    while k < decls.len()
        invariant
            k <= decls@.len(),
            go@.len() == decls@.len(),
            h == bytes@.len(),
            bytes@ == utf8(src@),
            l == declarations_view(decls@),
            placed(src@, l),
            with_removed(src@, p, l, go@, k as nat) == (IconPlan {
                edits: edits_of(edits@),
                removed,
                ..p
            }),
        decreases decls@.len() - k,
    {
        let d = &decls[k];
        assert(l[k as int] == d@);
        if go[k] {
            let end: usize = if d.end < h && bytes[d.end] == '\n' as u8 {
                d.end + 1
            } else {
                d.end
            };
            let e = Edit { start: d.start, end, replacement: String::new() };
            let ghost before = edits_of(edits@);
            edits.push(e);
            assert(e.replacement@ =~= Seq::empty());
            assert(edits_of(edits@) =~= before.push(e@));
            removed = count_up(removed);
        }
        k += 1;
    }
    (edits, removed)
}

/// Make the edits for the images and take the declarations out that go in the
/// end; with the body comes how many these are.
fn settle(
    src: &str,
    images: &Vec<Edit>,
    decls: &Vec<Declaration>,
    start: Vec<bool>,
    Ghost(p): Ghost<IconPlan>,
) -> (res: Option<(String, u32)>)
    requires
        start@.len() == decls@.len(),
        p.edits == edits_of(images@),
        p.removed == 0,
        placed(src@, declarations_view(decls@)),
    ensures
        ({
            let l = declarations_view(decls@);
            let q = with_removed(src@, p, l, settled(src@, p, l, start@), l.len());
            match res {
                Some((body, removed)) => body_of(src@, q) == Some(body@) && q.removed == removed,
                None => body_of(src@, q) is None,
            }
        }),
{
    let ghost l = declarations_view(decls@);
    let mut go: Vec<bool> = start;
    loop
        invariant
            l == declarations_view(decls@),
            go@.len() == decls@.len(),
            p.edits == edits_of(images@),
            p.removed == 0,
            placed(src@, l),
            settled(src@, p, l, go@) == settled(src@, p, l, start@),
        decreases number_of(go@),
    {
        let (edits, removed) = edits_with_removals(src, images, decls, &go, Ghost(p));
        let edits = sort(&edits, &Order::Backward);
        let rest = match edit_each(src, &blank_out(&edits)) {
            None => {
                proof {
                    if edited_by(src@, edits_of(edits@)) is Some {
                        law_blanked(src@, edits_of(edits@));
                    }
                }
                return None;
            },
            Some(rest) => rest,
        };
        let chars = chars_of(rest.as_str());
        let ghost wanted = unreferenced(l, go@, rest@);
        let mut next: Vec<bool> = Vec::new();
        let mut changed = false;
        let mut i: usize = 0;
        assert(next@ =~= go@.take(0));
        while i < go.len()
            invariant
                i <= go@.len(),
                go@.len() == decls@.len(),
                l == declarations_view(decls@),
                chars@ == rest@,
                wanted == unreferenced(l, go@, rest@),
                next@ == wanted.take(i as int),
                changed == (next@ != go@.take(i as int)),
            decreases go@.len() - i,
        {
            assert(l[i as int] == decls@[i as int]@);
            let stays = go[i] && !has_word(&chars, decls[i].name.as_str());
            let ghost before = next@;
            next.push(stays);
            proof {
                let (a, b) = (next@, go@.take(i + 1));
                assert(a =~= before.push(stays));
                assert(b =~= go@.take(i as int).push(go@[i as int]));
                assert(a.drop_last() =~= before && b.drop_last() =~= go@.take(i as int));
                assert(a =~= wanted.take(i + 1));
                if before == go@.take(i as int) && stays == go@[i as int] {
                    assert(a =~= b);
                } else if a == b {
                    assert(a.last() == stays && b.last() == go@[i as int]);
                }
            }
            if stays != go[i] {
                changed = true;
            }
            i += 1;
        }
        assert(next@ =~= wanted);
        assert(go@.take(i as int) =~= go@);
        if !changed {
            return match edit_each(src, &edits) {
                None => None,
                Some(body) => Some((body, removed)),
            };
        }
        proof {
            lemma_fewer(go@, next@);
        }
        go = next;
    }
}

/// Replace the icons among the declarations and the `<img>` tags that were
/// found.
pub fn process_matches(
    src: &str,
    cfg: &IconConfig,
    scanned: &Vec<String>,
    decl_matches: &Vec<Groups>,
    img_matches: &Vec<Groups>,
) -> (res: Result<IconOutput, IconError>)
    requires
        are_matches(src@, groups_of(decl_matches@)),
        are_matches(src@, groups_of(img_matches@)),
    ensures
        match res {
            Ok(out) => icon_outcome(
                src@,
                cfg@,
                views(scanned@),
                groups_of(decl_matches@),
                groups_of(img_matches@),
            ) == Some(out@),
            Err(_) => icon_outcome(
                src@,
                cfg@,
                views(scanned@),
                groups_of(decl_matches@),
                groups_of(img_matches@),
            ) is None,
        },
{
    let decls = read_declarations(src, decl_matches);
    let ghost (c, s, l) = (cfg@, views(scanned@), declarations_view(decls@));
    let ghost imgs = groups_of(img_matches@);
    let mut edits: Vec<Edit> = Vec::new();
    let mut imports = Imports::new();
    let mut replaced: TextMap<u32> = TextMap::new();
    let mut i: usize = 0;
    let ghost mut p = images(src@, c, s, l, imgs.take(0));
    assert(edits_of(edits@) =~= p.edits);
    while i < img_matches.len()
        invariant
            i <= img_matches@.len(),
            imgs == groups_of(img_matches@),
            (c, s, l) == (cfg@, views(scanned@), declarations_view(decls@)),
            are_matches(src@, imgs),
            p == images(src@, c, s, l, imgs.take(i as int)),
            p == (IconPlan {
                edits: edits_of(edits@),
                imports: imports@,
                replaced: replaced@,
                removed: 0,
            }),
        decreases img_matches@.len() - i,
    {
        let m = &img_matches[i];
        assert(imgs[i as int] == m@);
        assert(is_match(src@, m@));
        assert(imgs.take(i + 1).drop_last() =~= imgs.take(i as int));
        if m.len() >= 2 {
            match (m[0], m[1]) {
                (Some(whole), Some(inner)) => {
                    assert(m@[0] is Some && m@[1] is Some);
                    let attrs = slice(src, inner.0, inner.1);
                    if let Some(name) = extract_src_var(attrs) {
                        if let Some(r) = find_icon(cfg, scanned, &decls, name) {
                            let e = Edit {
                                start: whole.0,
                                end: whole.1,
                                replacement: icon_tag(
                                    r.component.as_str(),
                                    attrs,
                                    cfg.forward_classname,
                                ),
                            };
                            let ghost before = edits_of(edits@);
                            edits.push(e);
                            assert(edits_of(edits@) =~= before.push(e@));
                            imports.add(r.module.as_str(), r.export.as_str(), r.component.as_str());
                            replaced.count(name);
                        }
                    }
                },
                _ => {},
            }
        }
        i += 1;
        proof {
            p = images(src@, c, s, l, imgs.take(i as int));
        }
    }
    assert(imgs.take(i as int) =~= imgs);
    let mut unmatched_names: Vec<String> = Vec::new();
    let mut go: Vec<bool> = Vec::new();
    let mut k: usize = 0;
    assert(views(unmatched_names@) =~= unmatched(c, s, l, l.take(0)));
    assert(go@ =~= dead(src@, c, s, l).take(0));
    while k < decls.len()
        invariant
            k <= decls@.len(),
            (c, s, l) == (cfg@, views(scanned@), declarations_view(decls@)),
            views(unmatched_names@) == unmatched(c, s, l, l.take(k as int)),
            go@ == dead(src@, c, s, l).take(k as int),
        decreases decls@.len() - k,
    {
        let d = &decls[k];
        assert(l[k as int] == d@);
        assert(l.take(k + 1).drop_last() =~= l.take(k as int));
        let mut goes = false;
        if find_icon(cfg, scanned, &decls, d.name.as_str()).is_none() {
            let ghost before = views(unmatched_names@);
            unmatched_names.push(d.name.clone());
            assert(views(unmatched_names@) =~= before.push(d.name@));
        } else if !d.name.as_str().is_empty() {
            goes = !has_non_img_reference(src, d.name.as_str());
        }
        assert(goes == dead(src@, c, s, l)[k as int]);
        go.push(goes);
        k += 1;
        assert(go@ =~= dead(src@, c, s, l).take(k as int));
    }
    assert(l.take(k as int) =~= l);
    assert(go@ =~= dead(src@, c, s, l));
    proof {
        lemma_removals_keep(src@, p, l, settled(src@, p, l, go@), l.len());
    }
    match settle(src, &edits, &decls, go, Ghost(p)) {
        None => Err(IconError),
        Some((body, removed)) => Ok(
            IconOutput {
                body,
                imports,
                report: IconReport {
                    replaced,
                    unmatched: unmatched_names,
                    const_decls_removed: removed,
                },
            },
        ),
    }
}

/// Replace the `<img>` tags of the constants that components stand for, given
/// the names of the components at hand.
pub fn process(src: &str, cfg: &IconConfig, scanned: &Vec<String>) -> (res: Result<
    IconOutput,
    IconError,
>)
    ensures
        match res {
            Ok(out) => icon_outcome(
                src@,
                cfg@,
                views(scanned@),
                regex_matches(IMAGE_CONST@, src@),
                regex_matches(IMAGE_TAG@, src@),
            ) == Some(out@),
            Err(_) => icon_outcome(
                src@,
                cfg@,
                views(scanned@),
                regex_matches(IMAGE_CONST@, src@),
                regex_matches(IMAGE_TAG@, src@),
            ) is None,
        },
{
    process_matches(
        src,
        cfg,
        scanned,
        &known_matches(IMAGE_CONST, src),
        &known_matches(IMAGE_TAG, src),
    )
}

// ---------------------------------------------------------------------------
// Laws
// ---------------------------------------------------------------------------

/// An override goes before a component of the constant's name, and both go
/// before the SVG file that the constant names.
pub proof fn law_precedence(
    cfg: IconConfigView,
    scanned: Seq<Seq<char>>,
    name: Seq<char>,
    url: Seq<char>,
)
    ensures
        match lookup(cfg.overrides, name) {
            Some(o) => o.module is Some || cfg.module is Some ==> resolved(
                cfg,
                scanned,
                name,
                url,
            ) is Some && resolved(cfg, scanned, name, url)->0.component == o.name,
            None => cfg.module is Some && scanned.contains(bare_name(name)) ==> resolved(
                cfg,
                scanned,
                name,
                url,
            ) == Some(component_of(bare_name(name), cfg.module->0, cfg.default_export)),
        },
        configured(cfg, scanned, name) is Some ==> resolved(cfg, scanned, name, url) == configured(
            cfg,
            scanned,
            name,
        ),
{
}

/// Where no component stands for any declared constant, the code stays as it
/// is, nothing is imported, and every declaration is reported.
pub proof fn law_nothing_resolved(
    src: Seq<char>,
    cfg: IconConfigView,
    scanned: Seq<Seq<char>>,
    decls: Seq<Seq<Option<(usize, usize)>>>,
    imgs: Seq<Seq<Option<(usize, usize)>>>,
)
    requires
        forall|name: Seq<char>|
            #[trigger] icon_for(cfg, scanned, declarations(src, decls), name) is None,
    ensures
        icon_outcome(src, cfg, scanned, decls, imgs) == Some(
            IconOutputView {
                body: src,
                imports: Seq::empty(),
                replaced: Seq::empty(),
                unmatched: declarations(src, decls).map_values(|d: DeclarationView| d.name),
                const_decls_removed: 0,
            },
        ),
{
    let l = declarations(src, decls);
    let none = dead(src, cfg, scanned, l);
    lemma_no_images(src, cfg, scanned, l, imgs);
    lemma_all_unmatched(cfg, scanned, l, l);
    assert forall|i: int| 0 <= i < l.len() implies !(#[trigger] none[i]) by {
        assert(icon_for(cfg, scanned, l, l[i].name) is None);
    }
    lemma_none_removed(src, no_icons(), l, none, l.len());
    assert(sorted(no_icons().edits, Order::Backward) == no_icons().edits);
    assert(blanked(no_icons().edits) =~= no_icons().edits);
    assert(unreferenced(l, none, src) =~= none);
}

proof fn lemma_none_removed(
    src: Seq<char>,
    p: IconPlan,
    l: Seq<DeclarationView>,
    go: Seq<bool>,
    n: nat,
)
    requires
        n <= go.len(),
        forall|i: int| 0 <= i < go.len() ==> !(#[trigger] go[i]),
    ensures
        with_removed(src, p, l, go, n) == p,
    decreases n,
{
    if n > 0 {
        lemma_none_removed(src, p, l, go, (n - 1) as nat);
        assert(!go[n - 1]);
    }
}

proof fn lemma_no_images(
    src: Seq<char>,
    cfg: IconConfigView,
    scanned: Seq<Seq<char>>,
    l: Seq<DeclarationView>,
    imgs: Seq<Seq<Option<(usize, usize)>>>,
)
    requires
        forall|name: Seq<char>| #[trigger] icon_for(cfg, scanned, l, name) is None,
    ensures
        images(src, cfg, scanned, l, imgs) == no_icons(),
    decreases imgs.len(),
{
    if imgs.len() > 0 {
        lemma_no_images(src, cfg, scanned, l, imgs.drop_last());
    }
}

proof fn lemma_all_unmatched(
    cfg: IconConfigView,
    scanned: Seq<Seq<char>>,
    l: Seq<DeclarationView>,
    d: Seq<DeclarationView>,
)
    requires
        forall|name: Seq<char>| #[trigger] icon_for(cfg, scanned, l, name) is None,
    ensures
        unmatched(cfg, scanned, l, d) == d.map_values(|d: DeclarationView| d.name),
    decreases d.len(),
{
    if d.len() > 0 {
        lemma_all_unmatched(cfg, scanned, l, d.drop_last());
        assert(d.map_values(|d: DeclarationView| d.name) =~= d.drop_last().map_values(
            |d: DeclarationView| d.name,
        ).push(d.last().name));
    } else {
        assert(d.map_values(|d: DeclarationView| d.name) =~= Seq::empty());
    }
}

proof fn lemma_settled(src: Seq<char>, p: IconPlan, l: Seq<DeclarationView>, go: Seq<bool>)
    requires
        go.len() == l.len(),
    ensures
        ({
            let end = settled(src, p, l, go);
            &&& end.len() == l.len()
            &&& forall|i: int| 0 <= i < l.len() && #[trigger] end[i] ==> go[i]
            &&& match rest_of(src, with_removed(src, p, l, end, l.len())) {
                Some(rest) => unreferenced(l, end, rest) == end,
                None => true,
            }
        }),
    decreases number_of(go),
{
    if let Some(rest) = rest_of(src, with_removed(src, p, l, go, l.len())) {
        let next = unreferenced(l, go, rest);
        lemma_fewer(go, next);
        if next != go {
            lemma_settled(src, p, l, next);
            let end = settled(src, p, l, next);
            assert forall|i: int| 0 <= i < l.len() && #[trigger] end[i] implies go[i] by {
                assert(next[i]);
            }
        }
    }
}

/// A declaration goes only where it is safe: a component stands for the
/// constant, nothing in the code refers to it otherwise, and the body does not
/// hold its name as a word any more, but in the references to components that
/// are written.
pub proof fn law_no_reference_is_left(
    src: Seq<char>,
    cfg: IconConfigView,
    scanned: Seq<Seq<char>>,
    decls: Seq<Seq<Option<(usize, usize)>>>,
    imgs: Seq<Seq<Option<(usize, usize)>>>,
    k: int,
)
    requires
        0 <= k < declarations(src, decls).len(),
        gone(src, cfg, scanned, decls, imgs)[k],
    ensures
        ({
            let l = declarations(src, decls);
            &&& icon_for(cfg, scanned, l, l[k].name) is Some
            &&& !dangles_from(src, l[k].name, 0)
            &&& match icon_outcome(src, cfg, scanned, decls, imgs) {
                Some(out) => match rest_of(src, icon_plan(src, cfg, scanned, decls, imgs)) {
                    Some(rest) => is_blanked(out.body, rest) && !holds_word(rest, l[k].name),
                    None => false,
                },
                None => true,
            }
        }),
{
    let l = declarations(src, decls);
    let p = images(src, cfg, scanned, l, imgs);
    let d = dead(src, cfg, scanned, l);
    let end = gone(src, cfg, scanned, decls, imgs);
    lemma_settled(src, p, l, d);
    assert(d[k]);
    let q = with_removed(src, p, l, end, l.len());
    if body_of(src, q) is Some {
        law_blanked(src, sorted(q.edits, Order::Backward));
        assert(unreferenced(l, end, rest_of(src, q)->0)[k]);
    }
}

/// The edit takes one of the first `n` declarations out that go.
pub open spec fn is_removal(
    src: Seq<char>,
    l: Seq<DeclarationView>,
    go: Seq<bool>,
    n: nat,
    e: EditView,
) -> bool {
    exists|k: int| 0 <= k < n && go[k] && e == removal(src, #[trigger] l[k])
}

/// Besides `<img>` tags, exactly the declarations that go are taken out.
pub proof fn law_what_goes_is_taken_out(
    src: Seq<char>,
    p: IconPlan,
    l: Seq<DeclarationView>,
    go: Seq<bool>,
    n: nat,
)
    requires
        n <= l.len(),
        n <= go.len(),
    ensures
        p.edits.len() <= with_removed(src, p, l, go, n).edits.len(),
        forall|i: int|
            0 <= i < p.edits.len() ==> with_removed(src, p, l, go, n).edits[i]
                == #[trigger] p.edits[i],
        forall|i: int|
            p.edits.len() <= i < with_removed(src, p, l, go, n).edits.len() ==> is_removal(
                src,
                l,
                go,
                n,
                #[trigger] with_removed(src, p, l, go, n).edits[i],
            ),
        forall|k: int|
            0 <= k < n && #[trigger] go[k] ==> with_removed(src, p, l, go, n).edits.contains(
                removal(src, l[k]),
            ),
    decreases n,
{
    if n > 0 {
        let m = (n - 1) as nat;
        law_what_goes_is_taken_out(src, p, l, go, m);
        let (before, all) = (
            with_removed(src, p, l, go, m).edits,
            with_removed(src, p, l, go, n).edits,
        );
        assert forall|i: int| p.edits.len() <= i < all.len() implies is_removal(
            src,
            l,
            go,
            n,
            #[trigger] all[i],
        ) by {
            if i < before.len() {
                assert(is_removal(src, l, go, m, before[i]));
                let k = choose|k: int|
                    0 <= k < m && go[k] && before[i] == removal(src, #[trigger] l[k]);
                assert(all[i] == removal(src, l[k]));
            } else {
                assert(all[i] == removal(src, l[n - 1]));
            }
        }
        assert forall|k: int| 0 <= k < n && #[trigger] go[k] implies all.contains(
            removal(src, l[k]),
        ) by {
            if k < m {
                let j = choose|j: int| 0 <= j < before.len() && before[j] == removal(src, l[k]);
                assert(all[j] == removal(src, l[k]));
            } else {
                assert(all[before.len() as int] == removal(src, l[k]));
            }
        }
    }
}

/// Where the rest of the code holds none of their names, all the declarations
/// go that are dead, also of a constant that is called as its component is.
pub proof fn law_dead_declarations_go(
    src: Seq<char>,
    cfg: IconConfigView,
    scanned: Seq<Seq<char>>,
    decls: Seq<Seq<Option<(usize, usize)>>>,
    imgs: Seq<Seq<Option<(usize, usize)>>>,
)
    requires
        ({
            let l = declarations(src, decls);
            let d = dead(src, cfg, scanned, l);
            match rest_of(
                src,
                with_removed(src, images(src, cfg, scanned, l, imgs), l, d, l.len()),
            ) {
                Some(rest) => forall|k: int|
                    0 <= k < l.len() && #[trigger] d[k] ==> !holds_word(rest, l[k].name),
                None => true,
            }
        }),
    ensures
        gone(src, cfg, scanned, decls, imgs) == dead(
            src,
            cfg,
            scanned,
            declarations(src, decls),
        ),
{
    let l = declarations(src, decls);
    let d = dead(src, cfg, scanned, l);
    let p = images(src, cfg, scanned, l, imgs);
    if let Some(rest) = rest_of(src, with_removed(src, p, l, d, l.len())) {
        assert(unreferenced(l, d, rest) =~= d);
    }
}

/// Every `<img>` tag that is replaced is counted once.
pub proof fn law_icons_counted(
    src: Seq<char>,
    cfg: IconConfigView,
    scanned: Seq<Seq<char>>,
    l: Seq<DeclarationView>,
    found: Seq<Seq<Option<(usize, usize)>>>,
)
    requires
        found.len() <= u32::MAX,
    ensures
        images(src, cfg, scanned, l, found).edits.len() <= found.len(),
        total(images(src, cfg, scanned, l, found).replaced) == images(
            src,
            cfg,
            scanned,
            l,
            found,
        ).edits.len(),
    decreases found.len(),
{
    if found.len() > 0 {
        law_icons_counted(src, cfg, scanned, l, found.drop_last());
        let p = images(src, cfg, scanned, l, found.drop_last());
        let m = found.last();
        if m.len() >= 2 && m[1] is Some {
            let attrs = cut(src, (m[1]->0).0 as int, (m[1]->0).1 as int);
            if source_variable(attrs) is Some {
                lemma_total_counted(p.replaced, source_variable(attrs)->0);
            }
        }
    }
}

/// The imports that the `<img>` tags bring.
pub open spec fn icon_imports(
    src: Seq<char>,
    cfg: IconConfigView,
    scanned: Seq<Seq<char>>,
    l: Seq<DeclarationView>,
    found: Seq<Seq<Option<(usize, usize)>>>,
) -> Seq<ImportView>
    decreases found.len(),
{
    if found.len() == 0 {
        Seq::empty()
    } else {
        let before = icon_imports(src, cfg, scanned, l, found.drop_last());
        match icon_of_tag(src, cfg, scanned, l, found.last()) {
            None => before,
            Some(r) => before.push(
                ImportView { module: r.module, export: r.export, local: r.component },
            ),
        }
    }
}

/// The component that stands for the source of an `<img>` tag.
pub open spec fn icon_of_tag(
    src: Seq<char>,
    cfg: IconConfigView,
    scanned: Seq<Seq<char>>,
    l: Seq<DeclarationView>,
    m: Seq<Option<(usize, usize)>>,
) -> Option<ResolvedView> {
    if m.len() < 2 || m[1] is None {
        None
    } else {
        match source_variable(cut(src, (m[1]->0).0 as int, (m[1]->0).1 as int)) {
            None => None,
            Some(name) => icon_for(cfg, scanned, l, name),
        }
    }
}

proof fn lemma_icon_imports(
    src: Seq<char>,
    cfg: IconConfigView,
    scanned: Seq<Seq<char>>,
    l: Seq<DeclarationView>,
    found: Seq<Seq<Option<(usize, usize)>>>,
)
    ensures
        images(src, cfg, scanned, l, found).imports == all_added(
            icon_imports(src, cfg, scanned, l, found),
        ),
    decreases found.len(),
{
    if found.len() > 0 {
        lemma_icon_imports(src, cfg, scanned, l, found.drop_last());
        let before = icon_imports(src, cfg, scanned, l, found.drop_last());
        if let Some(r) = icon_of_tag(src, cfg, scanned, l, found.last()) {
            let i = ImportView { module: r.module, export: r.export, local: r.component };
            assert(before.push(i).drop_last() =~= before);
        }
    }
}

proof fn lemma_removals_keep(
    src: Seq<char>,
    p: IconPlan,
    l: Seq<DeclarationView>,
    go: Seq<bool>,
    n: nat,
)
    ensures
        with_removed(src, p, l, go, n).imports == p.imports,
        with_removed(src, p, l, go, n).replaced == p.replaced,
    decreases n,
{
    if n > 0 {
        lemma_removals_keep(src, p, l, go, (n - 1) as nat);
    }
}

/// Every component that stands in place of an `<img>` is imported: an export
/// that is imported under one name only is bound to that name.
pub proof fn law_icons_are_imported(
    src: Seq<char>,
    cfg: IconConfigView,
    scanned: Seq<Seq<char>>,
    decls: Seq<Seq<Option<(usize, usize)>>>,
    imgs: Seq<Seq<Option<(usize, usize)>>>,
    i: ImportView,
)
    requires
        icon_imports(src, cfg, scanned, declarations(src, decls), imgs).contains(i),
        agree_on(icon_imports(src, cfg, scanned, declarations(src, decls), imgs), i),
    ensures
        binding_of(icon_plan(src, cfg, scanned, decls, imgs).imports, i.module, i.export) == Some(
            i.local,
        ),
{
    let l = declarations(src, decls);
    lemma_icon_imports(src, cfg, scanned, l, imgs);
    lemma_removals_keep(
        src,
        images(src, cfg, scanned, l, imgs),
        l,
        gone(src, cfg, scanned, decls, imgs),
        l.len(),
    );
    law_import_is_bound(icon_imports(src, cfg, scanned, l, imgs), i);
}

proof fn lemma_declarations_placed(src: Seq<char>, found: Seq<Seq<Option<(usize, usize)>>>)
    requires
        are_matches(src, found),
    ensures
        placed(src, declarations(src, found)),
    decreases found.len(),
{
    if found.len() > 0 {
        let (d, m) = (found.drop_last(), found.last());
        assert(found[found.len() - 1] == m);
        assert(are_matches(src, d)) by {
            assert forall|i: int| 0 <= i < d.len() implies is_match(src, #[trigger] d[i]) by {
                assert(d[i] == found[i]);
            }
            assert forall|i: int, j: int|
                #![trigger d[i], d[j]]
                0 <= i < j < d.len() implies (d[i][0]->0).0 < (d[j][0]->0).0 && (d[i][0]->0).1 <= (
            d[j][0]->0).0 by {
                assert(d[i] == found[i] && d[j] == found[j]);
            }
        }
        lemma_declarations_placed(src, d);
        assert(m[0] is Some);
    }
}

proof fn lemma_images_fit(
    src: Seq<char>,
    cfg: IconConfigView,
    scanned: Seq<Seq<char>>,
    l: Seq<DeclarationView>,
    found: Seq<Seq<Option<(usize, usize)>>>,
)
    requires
        forall|i: int| 0 <= i < found.len() ==> is_match(src, #[trigger] found[i]),
    ensures
        all_fit(src, images(src, cfg, scanned, l, found).edits),
    decreases found.len(),
{
    if found.len() > 0 {
        let (d, m) = (found.drop_last(), found.last());
        assert(found[found.len() - 1] == m);
        assert forall|i: int| 0 <= i < d.len() implies is_match(src, #[trigger] d[i]) by {
            assert(d[i] == found[i]);
        }
        lemma_images_fit(src, cfg, scanned, l, d);
        assert(m[0] is Some);
    }
}

proof fn lemma_removals_fit(
    src: Seq<char>,
    p: IconPlan,
    l: Seq<DeclarationView>,
    go: Seq<bool>,
    n: nat,
)
    requires
        n <= l.len(),
        all_fit(src, p.edits),
        placed(src, l),
    ensures
        all_fit(src, with_removed(src, p, l, go, n).edits),
    decreases n,
{
    if n > 0 {
        lemma_removals_fit(src, p, l, go, (n - 1) as nat);
        let d = l[n - 1];
        assert(d.start <= d.end);
        if line_end(src, d.end) != d.end {
            lemma_ascii_boundary(src, d.end);
        }
    }
}

/// Where no declaration overlaps an `<img>` tag, replacing succeeds, and the
/// edits come out as made all at once.
pub proof fn law_icons_apart(
    src: Seq<char>,
    cfg: IconConfigView,
    scanned: Seq<Seq<char>>,
    decls: Seq<Seq<Option<(usize, usize)>>>,
    imgs: Seq<Seq<Option<(usize, usize)>>>,
)
    requires
        are_matches(src, decls),
        are_matches(src, imgs),
        apart(icon_plan(src, cfg, scanned, decls, imgs).edits),
    ensures
        icon_outcome(src, cfg, scanned, decls, imgs) is Some,
        icon_outcome(src, cfg, scanned, decls, imgs)->0.body == spliced(
            src,
            sorted(
                icon_plan(src, cfg, scanned, decls, imgs).edits,
                Order::Backward,
            ).reverse(),
        ),
{
    let l = declarations(src, decls);
    lemma_declarations_placed(src, decls);
    lemma_images_fit(src, cfg, scanned, l, imgs);
    lemma_removals_fit(
        src,
        images(src, cfg, scanned, l, imgs),
        l,
        gone(src, cfg, scanned, decls, imgs),
        l.len(),
    );
    law_edits_apart(src, icon_plan(src, cfg, scanned, decls, imgs).edits);
}

/// Which components of a directory are at hand: a file `Name.tsx` gives `Name`,
/// a directory with an index its own name, and nothing else gives any.
pub proof fn law_components_in(a: Seq<DirEntry>, b: Seq<DirEntry>, e: DirEntry)
    ensures
        components_in(a + b) == components_in(a) + components_in(b),
        components_in(seq![e]) == (if e.is_dir {
            if e.has_index {
                seq![e.name@]
            } else {
                Seq::empty()
            }
        } else {
            match component_in(e) {
                Some(stem) => seq![stem],
                None => Seq::empty(),
            }
        }),
        forall|stem: Seq<char>|
            !e.is_dir && stem.len() > 0 && e.name@ == #[trigger] (stem + ".tsx"@) ==> component_in(
                e,
            ) == Some(stem),
        !e.is_dir && !".tsx"@.is_suffix_of(e.name@) ==> component_in(e) is None,
    decreases b.len(),
{
    reveal_strlit(".tsx");
    if b.len() == 0 {
        assert(a + b =~= a);
        assert(components_in(a) + components_in(b) =~= components_in(a));
    } else {
        law_components_in(a, b.drop_last(), e);
        assert((a + b).drop_last() =~= a + b.drop_last());
        assert((a + b).last() == b.last());
        assert(components_in(a + b) =~= components_in(a) + components_in(b));
    }
    assert(seq![e].drop_last() =~= Seq::empty());
    assert(components_in(seq![e].drop_last()) =~= Seq::empty());
    assert(components_in(seq![e]) =~= match component_in(e) {
        Some(stem) => seq![stem],
        None => Seq::empty(),
    });
    assert forall|stem: Seq<char>|
        !e.is_dir && stem.len() > 0 && e.name@ == #[trigger] (stem + ".tsx"@) implies component_in(
        e,
    ) == Some(stem) by {
        law_starts_and_ends(stem, ".tsx"@, e.name@);
        assert(e.name@.take(e.name@.len() - 4) =~= stem);
    }
    law_starts_and_ends(e.name@, ".tsx"@, e.name@);
}

/// A component lies below its module, whatever number of slashes the module is
/// written with, and is exported under its own name or by default.
pub proof fn law_component_of(
    name: Seq<char>,
    prefix: Seq<char>,
    slashes: Seq<char>,
    style: Seq<char>,
)
    requires
        prefix.len() == 0 || prefix.last() != '/',
        forall|i: int| 0 <= i < slashes.len() ==> #[trigger] slashes[i] == '/',
    ensures
        component_of(name, prefix + slashes, style).component == name,
        component_of(name, prefix + slashes, style).module == prefix + "/"@ + name,
        style == "default"@ ==> component_of(name, prefix + slashes, style).export == "default"@,
        style != "default"@ ==> component_of(name, prefix + slashes, style).export == name,
{
    law_without_tail(prefix, slashes, CharSet::Only('/'));
}

/// No override has the name for its key.
pub open spec fn not_overridden(cfg: IconConfigView, name: Seq<char>) -> bool {
    forall|i: int| 0 <= i < cfg.overrides.len() ==> (#[trigger] cfg.overrides[i]).0 != name
}

proof fn lemma_not_overridden(cfg: IconConfigView, name: Seq<char>)
    requires
        not_overridden(cfg, name),
    ensures
        lookup(cfg.overrides, name) is None,
{
    lemma_slot(cfg.overrides, name, 0);
}

/// An override of a constant gives it its component, from the module that it
/// names or else from the one for all components.
pub proof fn law_overrides(
    cfg: IconConfigView,
    scanned: Seq<Seq<char>>,
    name: Seq<char>,
    url: Seq<char>,
    i: int,
)
    requires
        ordered(cfg.overrides),
        0 <= i < cfg.overrides.len(),
        cfg.overrides[i].0 == name,
    ensures
        ({
            let o = cfg.overrides[i].1;
            let style = match o.export {
                Some(e) => e,
                None => cfg.default_export,
            };
            match o.module {
                Some(module) => resolved(cfg, scanned, name, url) == Some(
                    component_of(o.name, module, style),
                ),
                None => match cfg.module {
                    Some(module) => resolved(cfg, scanned, name, url) == Some(
                        component_of(o.name, module, style),
                    ),
                    None => true,
                },
            }
        }),
{
    law_lookup(cfg.overrides, name);
}

/// A constant without override gets the component at hand that has its name
/// without `img`.
pub proof fn law_component_at_hand(
    cfg: IconConfigView,
    scanned: Seq<Seq<char>>,
    n: Seq<char>,
    url: Seq<char>,
)
    requires
        not_overridden(cfg, "img"@ + n),
        cfg.module is Some,
        scanned.contains(n),
    ensures
        resolved(cfg, scanned, "img"@ + n, url) == Some(
            component_of(n, cfg.module->0, cfg.default_export),
        ),
{
    lemma_not_overridden(cfg, "img"@ + n);
    law_starts_and_ends("img"@, n, n);
}

/// Where no component at hand has the whole name, a number behind it is left
/// out, if the configuration says so.
pub proof fn law_numbers_left_out(
    cfg: IconConfigView,
    scanned: Seq<Seq<char>>,
    stem: Seq<char>,
    number: Seq<char>,
    url: Seq<char>,
)
    requires
        not_overridden(cfg, "img"@ + (stem + number)),
        cfg.module is Some,
        number.len() > 0,
        all_in(number, CharSet::Digits),
        stem.len() == 0 || !('0' <= stem.last() && stem.last() <= '9'),
        scanned.contains(stem),
        !scanned.contains(stem + number),
    ensures
        cfg.strip_trailing_digits ==> resolved(cfg, scanned, "img"@ + (stem + number), url) == Some(
            component_of(stem, cfg.module->0, cfg.default_export),
        ),
        !cfg.strip_trailing_digits && !cfg.local_svg_import ==> resolved(
            cfg,
            scanned,
            "img"@ + (stem + number),
            url,
        ) is None,
{
    let n = stem + number;
    lemma_not_overridden(cfg, "img"@ + n);
    law_starts_and_ends("img"@, n, n);
    law_without_tail(stem, number, CharSet::Digits);
    assert(stem.len() != n.len());
}

/// No component is configured for the constant `img` + `n`: none overrides it,
/// and none at hand has its name, whole or with a number left out.
pub open spec fn not_configured(
    cfg: IconConfigView,
    scanned: Seq<Seq<char>>,
    n: Seq<char>,
) -> bool {
    &&& not_overridden(cfg, "img"@ + n)
    &&& cfg.module is None || (!scanned.contains(n) && (!cfg.strip_trailing_digits || forall|k: int|
        0 <= k <= n.len() && all_in(#[trigger] n.skip(k), CharSet::Digits) ==> !scanned.contains(
            n.take(k),
        )))
}

proof fn lemma_tail_digits(n: Seq<char>) -> (k: int)
    ensures
        0 <= k <= n.len(),
        without_tail(n, CharSet::Digits) == n.take(k),
        all_in(n.skip(k), CharSet::Digits),
    decreases n.len(),
{
    if n.len() > 0 && CharSet::Digits.has(n.last()) {
        let d = n.drop_last();
        let k = lemma_tail_digits(d);
        assert(n.take(k) =~= d.take(k));
        let t = n.skip(k);
        assert forall|i: int| 0 <= i < t.len() implies CharSet::Digits.has(#[trigger] t[i]) by {
            if i < t.len() - 1 {
                assert(t[i] == d.skip(k)[i]);
            }
        }
        k
    } else {
        assert(n.take(n.len() as int) =~= n);
        n.len() as int
    }
}

/// A constant that nothing is configured for and whose value is a local SVG
/// file gets exactly the component that its own name gives without `img`, with
/// all its numbers, imported by default from that file. With another value, or
/// where files are not to be imported, it gets none.
pub proof fn law_local_svg(
    cfg: IconConfigView,
    scanned: Seq<Seq<char>>,
    n: Seq<char>,
    url: Seq<char>,
)
    requires
        not_configured(cfg, scanned, n),
    ensures
        cfg.local_svg_import && local_svg(url) ==> resolved(cfg, scanned, "img"@ + n, url) == Some(
            ResolvedView { component: n, module: url, export: "default"@ },
        ),
        !cfg.local_svg_import || !local_svg(url) ==> resolved(cfg, scanned, "img"@ + n, url) is None,
{
    lemma_not_overridden(cfg, "img"@ + n);
    law_starts_and_ends("img"@, n, n);
    let k = lemma_tail_digits(n);
}

/// Constants of different names that get their components from local SVG files
/// get different ones.
pub proof fn law_local_svgs_differ(
    cfg: IconConfigView,
    scanned: Seq<Seq<char>>,
    n: Seq<char>,
    m: Seq<char>,
    url: Seq<char>,
    other: Seq<char>,
)
    requires
        n != m,
        not_configured(cfg, scanned, n),
        not_configured(cfg, scanned, m),
        resolved(cfg, scanned, "img"@ + n, url) is Some,
        resolved(cfg, scanned, "img"@ + m, other) is Some,
    ensures
        resolved(cfg, scanned, "img"@ + n, url)->0.component != resolved(
            cfg,
            scanned,
            "img"@ + m,
            other,
        )->0.component,
{
    law_local_svg(cfg, scanned, n, url);
    law_local_svg(cfg, scanned, m, other);
}

/// A path to an SVG file is local, in whatever case its extension is written,
/// unless it starts as an absolute URL does.
pub proof fn law_local_svg_paths(stem: Seq<char>, ext: Seq<char>, url: Seq<char>)
    requires
        ext.len() == 4,
        ext[0] == '.',
        ext[1] == 's' || ext[1] == 'S',
        ext[2] == 'v' || ext[2] == 'V',
        ext[3] == 'g' || ext[3] == 'G',
    ensures
        stem.len() > 0 && stem[0] != 'h' && stem[0] != 'H' ==> local_svg(stem + ext),
        !local_svg("http://"@ + url),
        !local_svg("https://"@ + url),
        local_svg(url) ==> url.len() >= 4 && lower(url.last()) == 'g' && lower(url[url.len() - 2])
            == 'v' && lower(url[url.len() - 3]) == 's' && url[url.len() - 4] == '.',
{
    reveal_strlit(".svg");
    reveal_strlit("http://");
    reveal_strlit("https://");
    let s = stem + ext;
    let l = lowered(s);
    if stem.len() > 0 && stem[0] != 'h' && stem[0] != 'H' {
        assert(l.subrange(l.len() - 4, l.len() as int) =~= ".svg"@);
        assert(l[0] == lower(stem[0]));
        assert(l[0] != 'h');
        if starts_with(l, "http://"@) {
            assert(l.subrange(0, 7)[0] == l[0]);
        }
        if starts_with(l, "https://"@) {
            assert(l.subrange(0, 8)[0] == l[0]);
        }
    }
    let a = lowered("http://"@ + url);
    assert(a.subrange(0, 7) =~= "http://"@);
    let b = lowered("https://"@ + url);
    assert(b.subrange(0, 8) =~= "https://"@);
    if local_svg(url) {
        let u = lowered(url);
        let k = u.len() - 4;
        let t = u.subrange(k, k + 4);
        assert(t[0] == u[k] && t[1] == u[k + 1] && t[2] == u[k + 2] && t[3] == u[k + 3]);
        assert(u[k] == lower(url[k]) && u[k + 1] == lower(url[k + 1]) && u[k + 2] == lower(
            url[k + 2],
        ) && u[k + 3] == lower(url[k + 3]));
    }
}

/// The variable of an `<img>` is the name between `src={` and `}`, with or
/// without white space around it.
pub proof fn law_source_variable(
    a: Seq<char>,
    l: Seq<char>,
    name: Seq<char>,
    r: Seq<char>,
    rest: Seq<char>,
)
    requires
        name.len() > 0,
        word(name),
        all_in(l, CharSet::Whitespace),
        all_in(r, CharSet::Whitespace),
        forall|j: int|
            0 <= j < a.len() ==> !#[trigger] occurs_at(
                a + "src={"@ + (l + name + r) + "}"@ + rest,
                "src={"@,
                j,
            ),
    ensures
        source_variable(a + "src={"@ + (l + name + r) + "}"@ + rest) == Some(name),
{
    reveal_strlit("}");
    let inner = l + name + r;
    let t = inner + "}"@ + rest;
    assert forall|j: int| 0 <= j < inner.len() implies !#[trigger] occurs_at(t, "}"@, j) by {
        if occurs_at(t, "}"@, j) {
            assert(t.subrange(j, j + 1)[0] == t[j]);
            assert(t[j] == inner[j]);
            if j < l.len() {
                assert(inner[j] == l[j]);
                assert(CharSet::Whitespace.has(l[j]));
            } else if j < l.len() + name.len() {
                assert(inner[j] == name[j - l.len()]);
                assert(is_word_char(name[j - l.len()]));
            } else {
                assert(inner[j] == r[j - l.len() - name.len()]);
                assert(CharSet::Whitespace.has(r[j - l.len() - name.len()]));
            }
        }
    }
    law_enclosed(a, "src={"@, inner, "}"@, rest);
    assert(is_word_char(name[0]) && is_word_char(name[name.len() - 1]));
    law_trimmed(l, name, r);
}

/// A component that stands in place of an `<img>` gets its class where it has
/// one that is to be passed on, and nothing else.
pub proof fn law_icon_reference(
    component: Seq<char>,
    a: Seq<char>,
    class: Seq<char>,
    rest: Seq<char>,
    forward: bool,
)
    requires
        !class.contains('"'),
        forall|j: int|
            0 <= j < a.len() ==> !#[trigger] occurs_at(
                a + "className=\""@ + class + "\""@ + rest,
                "className=\""@,
                j,
            ),
    ensures
        forward && class.len() > 0 ==> icon_reference(
            component,
            a + "className=\""@ + class + "\""@ + rest,
            forward,
        ) == "<"@ + component + " className=\""@ + class + "\" />"@,
        !forward || class.len() == 0 ==> icon_reference(
            component,
            a + "className=\""@ + class + "\""@ + rest,
            forward,
        ) == "<"@ + component + " />"@,
        (forall|j: int| !#[trigger] occurs_at(a, "className=\""@, j)) ==> icon_reference(
            component,
            a,
            forward,
        ) == "<"@ + component + " />"@,
{
    reveal_strlit("\"");
    let t = class + "\""@ + rest;
    assert forall|j: int| 0 <= j < class.len() implies !#[trigger] occurs_at(t, "\""@, j) by {
        if occurs_at(t, "\""@, j) {
            assert(t.subrange(j, j + 1)[0] == t[j]);
            assert(t[j] == class[j]);
            assert(class.contains(class[j]));
        }
    }
    law_enclosed(a, "className=\""@, class, "\""@, rest);
    law_not_enclosed(a, "className=\""@, "\""@);
}

/// Every match declares a constant: its whole text is the declaration, its
/// first group the name and its second the value.
pub proof fn law_declarations(src: Seq<char>, found: Seq<Seq<Option<(usize, usize)>>>)
    requires
        forall|i: int|
            0 <= i < found.len() ==> (#[trigger] found[i]).len() >= 3 && found[i][1] is Some
                && found[i][2] is Some,
    ensures
        declarations(src, found).len() == found.len(),
        forall|i: int|
            0 <= i < found.len() ==> #[trigger] declarations(src, found)[i] == (DeclarationView {
                start: (found[i][0]->0).0 as int,
                end: (found[i][0]->0).1 as int,
                name: cut(src, (found[i][1]->0).0 as int, (found[i][1]->0).1 as int),
                url: cut(src, (found[i][2]->0).0 as int, (found[i][2]->0).1 as int),
            }),
    decreases found.len(),
{
    if found.len() > 0 {
        let (d, n) = (found.drop_last(), found.len() - 1);
        assert(found[n].len() >= 3 && found[n][1] is Some && found[n][2] is Some);
        assert forall|i: int| 0 <= i < d.len() implies (#[trigger] d[i]).len() >= 3 && d[i][1] is Some
            && d[i][2] is Some by {
            assert(d[i] == found[i]);
        }
        law_declarations(src, d);
        assert forall|i: int| 0 <= i < found.len() implies #[trigger] declarations(src, found)[i]
            == (DeclarationView {
            start: (found[i][0]->0).0 as int,
            end: (found[i][0]->0).1 as int,
            name: cut(src, (found[i][1]->0).0 as int, (found[i][1]->0).1 as int),
            url: cut(src, (found[i][2]->0).0 as int, (found[i][2]->0).1 as int),
        }) by {
            if i < n {
                assert(declarations(src, found)[i] == declarations(src, d)[i]);
                assert(d[i] == found[i]);
            }
        }
    }
}

/// The value of a constant is that of its last declaration; a name that is not
/// declared has none.
pub proof fn law_value_of(l: Seq<DeclarationView>, name: Seq<char>, k: int)
    ensures
        0 <= k < l.len() && l[k].name == name && (forall|j: int|
            k < j < l.len() ==> (#[trigger] l[j]).name != name) ==> value_of(l, name) == Some(
            l[k].url,
        ),
        (forall|j: int| 0 <= j < l.len() ==> (#[trigger] l[j]).name != name) ==> value_of(
            l,
            name,
        ) is None,
    decreases l.len(),
{
    if l.len() > 0 {
        let d = l.drop_last();
        law_value_of(d, name, k);
        assert(forall|j: int| 0 <= j < d.len() ==> #[trigger] d[j] == l[j]);
        if k < l.len() - 1 {
            assert(l[l.len() - 1] == l.last());
        }
        if forall|j: int| 0 <= j < l.len() ==> (#[trigger] l[j]).name != name {
            assert(l[l.len() - 1].name != name);
        }
    }
}

/// Exactly the declared constants that no component stands for are reported, as
/// they come.
pub proof fn law_unmatched(
    cfg: IconConfigView,
    scanned: Seq<Seq<char>>,
    l: Seq<DeclarationView>,
    a: Seq<DeclarationView>,
    b: Seq<DeclarationView>,
    d: DeclarationView,
)
    ensures
        unmatched(cfg, scanned, l, a + b) == unmatched(cfg, scanned, l, a) + unmatched(
            cfg,
            scanned,
            l,
            b,
        ),
        icon_for(cfg, scanned, l, d.name) is None ==> unmatched(cfg, scanned, l, seq![d])
            == seq![d.name],
        icon_for(cfg, scanned, l, d.name) is Some ==> unmatched(cfg, scanned, l, seq![d]).len() == 0,
    decreases b.len(),
{
    assert(seq![d].drop_last() =~= Seq::empty());
    assert(unmatched(cfg, scanned, l, seq![d].drop_last()) =~= Seq::empty());
    if icon_for(cfg, scanned, l, d.name) is None {
        assert(unmatched(cfg, scanned, l, seq![d]) =~= seq![d.name]);
    }
    if b.len() == 0 {
        assert(a + b =~= a);
        assert(unmatched(cfg, scanned, l, a) + unmatched(cfg, scanned, l, b) =~= unmatched(
            cfg,
            scanned,
            l,
            a,
        ));
    } else {
        law_unmatched(cfg, scanned, l, a, b.drop_last(), d);
        assert((a + b).drop_last() =~= a + b.drop_last());
        assert((a + b).last() == b.last());
        assert(unmatched(cfg, scanned, l, a + b) =~= unmatched(cfg, scanned, l, a) + unmatched(
            cfg,
            scanned,
            l,
            b,
        ));
    }
}

/// The edit puts its component in place of the `<img>` of a match.
pub open spec fn is_image_edit(
    src: Seq<char>,
    cfg: IconConfigView,
    scanned: Seq<Seq<char>>,
    l: Seq<DeclarationView>,
    m: Seq<Option<(usize, usize)>>,
    e: EditView,
) -> bool {
    let attrs = cut(src, (m[1]->0).0 as int, (m[1]->0).1 as int);
    &&& m.len() >= 2 && m[1] is Some
    &&& e.start == (m[0]->0).0 && e.end == (m[0]->0).1
    &&& source_variable(attrs) matches Some(name) && icon_for(cfg, scanned, l, name) matches Some(r)
        && e.replacement == icon_reference(r.component, attrs, cfg.forward_classname)
}

/// The `<img>` tags whose constants components stand for are replaced, all of
/// them, each by a reference to its own component, which is imported; and no
/// other tag is.
pub proof fn law_images_replaced(
    src: Seq<char>,
    cfg: IconConfigView,
    scanned: Seq<Seq<char>>,
    l: Seq<DeclarationView>,
    found: Seq<Seq<Option<(usize, usize)>>>,
)
    ensures
        ({
            let edits = images(src, cfg, scanned, l, found).edits;
            &&& forall|i: int|
                0 <= i < found.len() ==> ({
                    let m = #[trigger] found[i];
                    let attrs = cut(src, (m[1]->0).0 as int, (m[1]->0).1 as int);
                    m.len() >= 2 && m[1] is Some ==> (source_variable(attrs) matches Some(name)
                        ==> (icon_for(cfg, scanned, l, name) matches Some(r) ==> edits.contains(
                        EditView {
                            start: (m[0]->0).0 as int,
                            end: (m[0]->0).1 as int,
                            replacement: icon_reference(r.component, attrs, cfg.forward_classname),
                        },
                    ) && icon_imports(src, cfg, scanned, l, found).contains(
                        ImportView { module: r.module, export: r.export, local: r.component },
                    )))
                })
            &&& forall|k: int|
                0 <= k < edits.len() ==> exists|i: int|
                    0 <= i < found.len() && is_image_edit(
                        src,
                        cfg,
                        scanned,
                        l,
                        #[trigger] found[i],
                        #[trigger] edits[k],
                    )
        }),
    decreases found.len(),
{
    if found.len() > 0 {
        let (d, n) = (found.drop_last(), found.len() - 1);
        law_images_replaced(src, cfg, scanned, l, d);
        let (before, all) = (
            images(src, cfg, scanned, l, d).edits,
            images(src, cfg, scanned, l, found).edits,
        );
        let (old, new) = (
            icon_imports(src, cfg, scanned, l, d),
            icon_imports(src, cfg, scanned, l, found),
        );
        assert forall|e: EditView| before.contains(e) implies #[trigger] all.contains(e) by {
            let k = choose|k: int| 0 <= k < before.len() && before[k] == e;
            assert(all[k] == e);
        }
        assert forall|e: ImportView| old.contains(e) implies #[trigger] new.contains(e) by {
            let k = choose|k: int| 0 <= k < old.len() && old[k] == e;
            assert(new[k] == e);
        }
        assert forall|i: int| 0 <= i < found.len() implies ({
            let m = #[trigger] found[i];
            let attrs = cut(src, (m[1]->0).0 as int, (m[1]->0).1 as int);
            m.len() >= 2 && m[1] is Some ==> (source_variable(attrs) matches Some(name) ==> (
            icon_for(cfg, scanned, l, name) matches Some(r) ==> all.contains(
                EditView {
                    start: (m[0]->0).0 as int,
                    end: (m[0]->0).1 as int,
                    replacement: icon_reference(r.component, attrs, cfg.forward_classname),
                },
            ) && new.contains(
                ImportView { module: r.module, export: r.export, local: r.component },
            )))
        }) by {
            if i < n {
                assert(d[i] == found[i]);
            } else {
                if all.len() > before.len() {
                    assert(all[before.len() as int] == all.last());
                }
                if new.len() > old.len() {
                    assert(new[old.len() as int] == new.last());
                }
            }
        }
        assert forall|k: int| 0 <= k < all.len() implies exists|i: int|
            0 <= i < found.len() && is_image_edit(
                src,
                cfg,
                scanned,
                l,
                #[trigger] found[i],
                #[trigger] all[k],
            ) by {
            if k < before.len() {
                assert(all[k] == before[k]);
                let i = choose|i: int|
                    0 <= i < d.len() && is_image_edit(
                        src,
                        cfg,
                        scanned,
                        l,
                        #[trigger] d[i],
                        before[k],
                    );
                assert(is_image_edit(src, cfg, scanned, l, found[i], all[k]));
            } else {
                assert(is_image_edit(src, cfg, scanned, l, found[n], all[k]));
            }
        }
    }
}

/// The match is an `<img>` whose constant has the name and gets a component.
pub open spec fn is_icon_of(
    src: Seq<char>,
    cfg: IconConfigView,
    scanned: Seq<Seq<char>>,
    l: Seq<DeclarationView>,
    m: Seq<Option<(usize, usize)>>,
    name: Seq<char>,
) -> bool {
    &&& m.len() >= 2 && m[1] is Some
    &&& source_variable(cut(src, (m[1]->0).0 as int, (m[1]->0).1 as int)) == Some(name)
    &&& icon_for(cfg, scanned, l, name) is Some
}

/// Each constant is counted as often as an `<img>` of it is replaced.
pub proof fn law_counts_by_constant(
    src: Seq<char>,
    cfg: IconConfigView,
    scanned: Seq<Seq<char>>,
    l: Seq<DeclarationView>,
    found: Seq<Seq<Option<(usize, usize)>>>,
    name: Seq<char>,
)
    requires
        found.len() <= u32::MAX,
    ensures
        ({
            let n = found.filter(
                |m: Seq<Option<(usize, usize)>>| is_icon_of(src, cfg, scanned, l, m, name),
            ).len();
            let counts = images(src, cfg, scanned, l, found).replaced;
            &&& ordered(counts)
            &&& n <= found.len()
            &&& n > 0 ==> lookup(counts, name) == Some(n as u32)
            &&& n == 0 ==> lookup(counts, name) is None
        }),
    decreases found.len(),
{
    reveal(Seq::filter);
    if found.len() > 0 {
        let (d, m) = (found.drop_last(), found.last());
        law_counts_by_constant(src, cfg, scanned, l, d, name);
        if m.len() >= 2 && m[1] is Some {
            if let Some(v) = source_variable(cut(src, (m[1]->0).0 as int, (m[1]->0).1 as int)) {
                law_counted(images(src, cfg, scanned, l, d).replaced, v, name);
            }
        }
    } else {
        lemma_slot(images(src, cfg, scanned, l, found).replaced, name, 0);
    }
}

/// A declaration is taken out with the line end right behind it, and with
/// nothing else.
pub proof fn law_removal(a: Seq<char>, decl: Seq<char>, b: Seq<char>, d: DeclarationView)
    requires
        d.start == utf8(a).len(),
        d.end == utf8(a + decl).len(),
    ensures
        edited(a + decl + seq!['\n'] + b, removal(a + decl + seq!['\n'] + b, d)) == a + b,
        b.len() == 0 || b[0] != '\n' ==> edited(a + decl + b, removal(a + decl + b, d)) == a + b,
{
    let one = seq!['\n'];
    let none = Seq::<char>::empty();
    lemma_ascii_text(one);
    let code = a + decl + one + b;
    lemma_utf8_concat(a + decl, one);
    lemma_utf8_concat(a + decl + one, b);
    assert(utf8(code)[d.end] == utf8(one)[0]);
    law_edited(a, decl + one, none, b);
    assert(a + (decl + one) + b =~= code);
    assert(a + (decl + one) =~= a + decl + one);
    assert(a + none + b =~= a + b);
    if b.len() == 0 || b[0] != '\n' {
        let t = a + decl + b;
        lemma_utf8_concat(a + decl, b);
        lemma_utf8_len(b);
        if d.end < utf8(t).len() && utf8(t)[d.end] == '\n' as u8 {
            assert(utf8(t)[d.end] == utf8(b)[0]);
            law_ascii_byte_is_char(b, 0);
        }
        law_edited(a, decl, none, b);
    }
}

/// What the source of an `<img>` looks like: the tag starts with `<img`, no
/// other tag starts or ends between that and the name, and the name stands
/// alone between `src={` and `}`, but for white space.
pub proof fn law_image_source_shape(src: Seq<char>, name: Seq<char>, at: int)
    requires
        is_image_source(src, name, at),
        0 <= at,
        at + name.len() <= src.len(),
    ensures
        exists|lt: int|
            {
                &&& 0 <= lt < at
                &&& #[trigger] occurs_at(src, "<img"@, lt)
                &&& forall|k: int| lt < k < at ==> src[k] != '<' && src[k] != '>'
            },
        exists|open: int|
            {
                &&& 0 <= open && open + 5 <= at + name.len()
                &&& #[trigger] occurs_at(src, "src={"@, open)
                &&& trimmed(src.subrange(open + 5, at + name.len())) == name
            },
        exists|close: int|
            {
                &&& at + name.len() <= close < src.len()
                &&& #[trigger] src[close] == '}'
                &&& forall|k: int| at + name.len() <= k < close ==> is_space(src[k])
            },
{
    reveal_strlit("<");
    reveal_strlit(">");
    reveal_strlit("}");
    reveal_strlit("<img");
    reveal_strlit("src={");
    let end = at + name.len();
    lemma_rfind_from(src, "<"@, at - 1);
    let lt = rfind_from(src, "<"@, at - 1)->0;
    lemma_find_from(src, ">"@, lt);
    lemma_rfind_from(src, "src={"@, end - 5);
    let open = rfind_from(src, "src={"@, end - 5)->0;
    assert(occurs_at(src, "<img"@, lt));
    assert forall|k: int| lt < k < at implies src[k] != '<' && src[k] != '>' by {
        if src[k] == '<' {
            assert(src.subrange(k, k + 1) =~= "<"@);
            assert(occurs_at(src, "<"@, k));
        }
        if src[k] == '>' {
            assert(src.subrange(k, k + 1) =~= ">"@);
            assert(occurs_at(src, ">"@, k));
        }
    }
    assert(occurs_at(src, "src={"@, open));
    lemma_blank_before(src, end);
    let close = word_start(src, end);
    assert(src.subrange(close, close + 1)[0] == src[close]);
    assert(src[close] == '}');
}

proof fn lemma_blank_before(src: Seq<char>, i: int)
    requires
        0 <= i <= src.len(),
    ensures
        i <= word_start(src, i) <= src.len(),
        forall|k: int| i <= k < word_start(src, i) ==> is_space(src[k]),
    decreases src.len() - i,
{
    if i < src.len() && is_space(src[i]) {
        lemma_blank_before(src, i + 1);
    }
}

proof fn lemma_brace_behind(src: Seq<char>, i: int, k: int)
    requires
        0 <= i <= k < src.len(),
        forall|j: int| i <= j < k ==> is_space(#[trigger] src[j]),
        !is_space(src[k]),
    ensures
        word_start(src, i) == k,
    decreases k - i,
{
    if i < k {
        lemma_brace_behind(src, i + 1, k);
    }
}

proof fn lemma_image_source(
    src: Seq<char>,
    name: Seq<char>,
    lt: int,
    open: int,
    gt: int,
)
    requires
        name.len() > 0,
        word(name),
        0 <= lt,
        lt + 4 <= open,
        occurs_at(src, "<img"@, lt),
        occurs_at(src, "src={"@, open),
        occurs_at(src, name, open + 5),
        open + 5 + name.len() < gt < src.len(),
        src[open + 5 + name.len()] == '}',
        src[gt] == '>',
        forall|j: int| lt < j < open + 5 ==> src[j] != '<',
        forall|j: int| lt <= j < gt ==> src[j] != '>',
    ensures
        is_image_source(src, name, open + 5),
{
    reveal_strlit("<");
    reveal_strlit(">");
    reveal_strlit("}");
    reveal_strlit("<img");
    reveal_strlit("src={");
    let at = open + 5;
    let end = at + name.len();
    assert(src.subrange(lt, lt + 4)[0] == src[lt]);
    assert(src.subrange(lt, lt + 1) =~= "<"@);
    lemma_rfind_from(src, "<"@, at - 1);
    assert(occurs_at(src, "<"@, lt));
    assert forall|j: int| lt < j <= at - 1 implies !occurs_at(src, "<"@, j) by {
        if occurs_at(src, "<"@, j) {
            assert(src.subrange(j, j + 1)[0] == src[j]);
        }
    }
    lemma_find_from(src, ">"@, lt);
    assert(src.subrange(gt, gt + 1) =~= ">"@);
    assert(occurs_at(src, ">"@, gt));
    assert forall|j: int| lt <= j < gt implies !occurs_at(src, ">"@, j) by {
        if occurs_at(src, ">"@, j) {
            assert(src.subrange(j, j + 1)[0] == src[j]);
        }
    }
    lemma_rfind_from(src, "src={"@, end - 5);
    assert forall|j: int| open < j <= end - 5 implies !occurs_at(src, "src={"@, j) by {
        if occurs_at(src, "src={"@, j) {
            assert(src.subrange(j, j + 5)[4] == src[j + 4]);
            assert(src.subrange(at, end)[j + 4 - at] == src[j + 4]);
            assert(is_word_char(name[j + 4 - at]));
        }
    }
    assert(is_word_char(name[0]) && is_word_char(name[name.len() - 1]));
    let none = Seq::<char>::empty();
    law_trimmed(none, name, none);
    assert(none + name + none =~= name);
    lemma_brace_behind(src, end, end);
    assert(src.subrange(end, end + 1) =~= "}"@);
}

/// In `<img ... src={name} ...>` the name is the source of the image, and so
/// does not dangle there.
pub proof fn law_image_source(
    a: Seq<char>,
    attrs: Seq<char>,
    name: Seq<char>,
    more: Seq<char>,
    b: Seq<char>,
)
    requires
        name.len() > 0,
        word(name),
        !attrs.contains('<'),
        !attrs.contains('>'),
        !more.contains('>'),
    ensures
        is_image_source(
            a + "<img"@ + attrs + "src={"@ + name + "}"@ + more + ">"@ + b,
            name,
            (a + "<img"@ + attrs).len() as int + 5,
        ),
{
    reveal_strlit("<img");
    reveal_strlit("src={");
    reveal_strlit("}");
    reveal_strlit(">");
    let src = a + "<img"@ + attrs + "src={"@ + name + "}"@ + more + ">"@ + b;
    let lt = a.len() as int;
    let open = lt + 4 + attrs.len();
    let end = open + 5 + name.len();
    let gt = end + 1 + more.len();
    assert(src.subrange(lt, lt + 4) =~= "<img"@);
    assert(src.subrange(open, open + 5) =~= "src={"@);
    assert(src.subrange(open + 5, end) =~= name);
    assert forall|j: int| lt < j < open + 5 implies src[j] != '<' by {
        if lt + 4 <= j < open {
            assert(src[j] == attrs[j - lt - 4]);
            assert(attrs.contains(attrs[j - lt - 4]));
        }
    }
    assert forall|j: int| lt <= j < gt implies src[j] != '>' by {
        if lt + 4 <= j < open {
            assert(src[j] == attrs[j - lt - 4]);
            assert(attrs.contains(attrs[j - lt - 4]));
        } else if open + 5 <= j < end {
            assert(src[j] == name[j - open - 5]);
            assert(is_word_char(name[j - open - 5]));
        } else if end < j {
            assert(src[j] == more[j - end - 1]);
            assert(more.contains(more[j - end - 1]));
        }
    }
    lemma_image_source(src, name, lt, open, gt);
}

proof fn lemma_no_tag_around(a: Seq<char>, name: Seq<char>, b: Seq<char>)
    requires
        !a.contains('<'),
    ensures
        !is_image_source(a + name + b, name, a.len() as int),
{
    reveal_strlit("<");
    let src = a + name + b;
    lemma_rfind_from(src, "<"@, a.len() - 1);
    if let Some(i) = rfind_from(src, "<"@, a.len() - 1) {
        assert(src.subrange(i, i + 1)[0] == '<');
        assert(a[i] == '<');
    }
}

/// A name that stands as a word of its own outside of every tag, and not behind
/// `const`, dangles: its declaration has to stay.
pub proof fn law_reference_keeps_declaration(a: Seq<char>, name: Seq<char>, b: Seq<char>)
    requires
        0 < name.len(),
        word(name),
        a.len() > 0,
        !is_word_char(a.last()),
        a.last() != ' ',
        b.len() == 0 || !is_word_char(b[0]),
        !a.contains('<'),
    ensures
        dangles_from(a + name + b, name, 0),
{
    let src = a + name + b;
    let at = a.len() as int;
    law_dangles(src, name);
    lemma_no_tag_around(a, name, b);
    assert(src.subrange(at, at + name.len()) =~= name);
    assert(occurs_at(src, name, at));
    assert(src.take(at) =~= a);
    reveal_strlit("const");
    assert(without_tail(a, CharSet::Only(' ')) == a);
    if ends_with(a, "const"@) {
        assert(a.subrange(a.len() - 5, a.len() as int)[4] == a.last());
        assert(is_word_char('t'));
    }
    assert(src[at - 1] == a.last());
    if b.len() > 0 {
        assert(src[at + name.len()] == b[0]);
    }
    assert(dangles_at(src, name, at));
}

/// What stands behind `const` and spaces is the declaration itself, and what is
/// part of a longer word is no reference: neither keeps the declaration.
pub proof fn law_no_reference(a: Seq<char>, blank: Seq<char>, name: Seq<char>, b: Seq<char>)
    requires
        0 < name.len(),
        all_in(blank, CharSet::Only(' ')),
    ensures
        !dangles_at(a + "const"@ + blank + name + b, name, (a + "const"@ + blank).len() as int),
        a.len() > 0 && is_word_char(a.last()) ==> !dangles_at(a + name + b, name, a.len() as int),
        b.len() > 0 && is_word_char(b[0]) ==> !dangles_at(a + name + b, name, a.len() as int),
{
    reveal_strlit("const");
    let head = a + "const"@;
    let src = head + blank + name + b;
    let at = (head + blank).len() as int;
    assert(src.take(at) =~= head + blank);
    law_without_tail(head, blank, CharSet::Only(' '));
    law_starts_and_ends(a, "const"@, head);
    assert(follows_const(src, at));
    if a.len() > 0 {
        assert((a + name + b)[a.len() - 1] == a.last());
    }
    if b.len() > 0 {
        assert((a + name + b)[a.len() as int + name.len()] == b[0]);
    }
}

/// Every declaration that is taken out is counted once.
pub proof fn law_removals_counted(
    src: Seq<char>,
    p: IconPlan,
    l: Seq<DeclarationView>,
    go: Seq<bool>,
    n: nat,
)
    requires
        p.removed + n <= u32::MAX,
    ensures
        ({
            let q = with_removed(src, p, l, go, n);
            &&& q.removed - p.removed == q.edits.len() - p.edits.len()
            &&& p.edits.len() <= q.edits.len() <= p.edits.len() + n
            &&& q.imports == p.imports
            &&& q.replaced == p.replaced
        }),
    decreases n,
{
    if n > 0 {
        law_removals_counted(src, p, l, go, (n - 1) as nat);
    }
}

/// A text holds a name as a word exactly where it stands in it with nothing of
/// a word right before and right behind it.
pub proof fn law_holds_word(a: Seq<char>, name: Seq<char>, b: Seq<char>, text: Seq<char>)
    ensures
        (a.len() == 0 || !is_word_char(a.last())) && (b.len() == 0 || !is_word_char(b[0]))
            ==> holds_word(a + name + b, name),
        holds_word(text, name) ==> exists|at: int|
            {
                &&& 0 <= at <= text.len() - name.len()
                &&& text.subrange(at, at + name.len()) == name
                &&& at > 0 ==> !is_word_char(#[trigger] text[at - 1])
                &&& at + name.len() < text.len() ==> !is_word_char(text[at + name.len()])
            },
{
    let src = a + name + b;
    let at = a.len() as int;
    if (a.len() == 0 || !is_word_char(a.last())) && (b.len() == 0 || !is_word_char(b[0])) {
        assert(src.subrange(at, at + name.len()) =~= name);
        assert(occurs_at(src, name, at));
        if a.len() > 0 {
            assert(src[at - 1] == a.last());
        }
        if b.len() > 0 {
            assert(src[at + name.len()] == b[0]);
        }
        assert(stands_alone(src, at, name.len() as int));
    }
    if holds_word(text, name) {
        let k = choose|k: int|
            0 <= k && #[trigger] occurs_at(text, name, k) && stands_alone(
                text,
                k,
                name.len() as int,
            );
        assert(text.subrange(k, k + name.len()) == name);
        let before = text[k - 1];
    }
}

/// A file holds a component where its name goes on before `.tsx`; a file that
/// is called just that, or ends otherwise, holds none.
pub proof fn law_component_files(e: DirEntry, stem: Seq<char>)
    requires
        !e.is_dir,
    ensures
        e.name@ == stem + ".tsx"@ && stem.len() > 0 ==> components_in(seq![e]) == seq![stem],
        e.name@ == ".tsx"@ ==> components_in(seq![e]).len() == 0,
        !".tsx"@.is_suffix_of(e.name@) ==> components_in(seq![e]).len() == 0,
{
    reveal_strlit(".tsx");
    let none: Seq<DirEntry> = Seq::empty();
    assert(seq![e].drop_last() =~= none);
    assert(components_in(none) =~= Seq::empty());
    law_starts_and_ends(stem, ".tsx"@, e.name@);
    if e.name@ == stem + ".tsx"@ && stem.len() > 0 {
        assert(e.name@.take(e.name@.len() - 4) =~= stem);
        assert(components_in(seq![e]) =~= seq![stem]);
    }
}

} // verus!
