//! Replacing bare colors by references to CSS variables:
//! `bg-[#def4f2]` becomes `bg-[var(--blue-100,#def4f2)]`.

use vstd::prelude::*;
use vstd::string::*;

use crate::chars::{
    chars_of, is_hex_digit, law_char_absent, law_char_replaced, law_one_char_replaced, lower,
    lowered, replace_char, text_or_none, to_upper_text, trim_start, upper, uppered,
    with_char_replaced, without_head, CharSet,
};
use crate::edit::{all_fit, edits_of, fits, in_order, splice, spliced, spliced_from, Edit, EditView};
use crate::pattern::{
    are_matches, are_shaped, groups_of, has_shape, is_hex_token, is_match, is_matched,
    known_matches, matched, regex_matches, BRACKETED_HEX, Groups,
};
use crate::text::{
    at_boundary, cut, lemma_ascii_text, lemma_cut, lemma_cut_all, lemma_cut_concat,
    lemma_cut_of_concat, lemma_find_from, lemma_utf8_concat, lemma_utf8_injective, lemma_utf8_len,
    occurs_at, occurs_in, slice, utf8,
};
use crate::text_map::{
    count_up, counted, law_counted, law_put, lemma_mapped, lemma_slot, lemma_total_counted, lookup,
    mapped, one_more, ordered, put, slot_from, total, TextMap,
};

verus! {

// ---------------------------------------------------------------------------
// Colors in hexadecimal
// ---------------------------------------------------------------------------

/// Every character is a hexadecimal digit.
pub open spec fn all_hex(s: Seq<char>) -> bool {
    forall|i: int| 0 <= i < s.len() ==> is_hex_digit(#[trigger] s[i])
}

/// Every character twice.
pub open spec fn doubled(s: Seq<char>) -> Seq<char> {
    Seq::new(2 * s.len(), |i: int| s[i / 2])
}

/// A color of three or six digits in its six digits, in upper case and without
/// `#`.
pub open spec fn six_digits(s: Seq<char>) -> Option<Seq<char>> {
    let t = without_head(s, CharSet::Only('#'));
    if t.len() == 3 && all_hex(t) {
        Some(uppered(doubled(t)))
    } else if t.len() == 6 && all_hex(t) {
        Some(uppered(t))
    } else {
        None
    }
}

/// Whether every character is a hexadecimal digit.
pub fn is_hex(chars: &Vec<char>) -> (res: bool)
    ensures
        res == all_hex(chars@),
{
    let mut i: usize = 0;
    while i < chars.len()
        invariant
            i <= chars@.len(),
            forall|j: int| 0 <= j < i ==> is_hex_digit(#[trigger] chars@[j]),
        decreases chars@.len() - i,
    {
        if !is_hex_digit(chars[i]) {
            assert(!is_hex_digit(chars@[i as int]));
            return false;
        }
        i += 1;
    }
    true
}

/// Every character twice.
pub fn double(chars: &Vec<char>) -> (res: String)
    ensures
        res@ == doubled(chars@),
{
    let mut res: String = String::new();
    let mut i: usize = 0;
    while i < chars.len()
        invariant
            i <= chars@.len(),
            res@ == doubled(chars@.take(i as int)),
        decreases chars@.len() - i,
    {
        res.push(chars[i]);
        res.push(chars[i]);
        i += 1;
        assert(res@ =~= doubled(chars@.take(i as int)));
    }
    assert(chars@.take(i as int) =~= chars@);
    res
}

/// A color of three or six digits, with or without `#`, in its six digits in
/// upper case.
pub fn normalize_hex(s: &str) -> (res: Option<String>)
    ensures
        match res {
            Some(h) => six_digits(s@) == Some(h@),
            None => six_digits(s@) is None,
        },
{
    let digits = trim_start(s, &CharSet::Only('#'));
    let chars = chars_of(digits);
    if !is_hex(&chars) {
        return None;
    }
    if chars.len() == 3 {
        Some(to_upper_text(double(&chars).as_str()))
    } else if chars.len() == 6 {
        Some(to_upper_text(digits))
    } else {
        None
    }
}

/// Six hexadecimal digits without lower-case letters.
pub open spec fn is_color(s: Seq<char>) -> bool {
    s.len() == 6 && all_hex(s) && uppered(s) == s
}

/// What comes of a color is one, and stays as it is when taken again, with `#`
/// in front or without.
pub proof fn law_six_digits(s: Seq<char>)
    ensures
        match six_digits(s) {
            Some(h) => is_color(h) && six_digits(h) == Some(h) && six_digits(seq!['#'] + h) == Some(
                h,
            ),
            None => true,
        },
{
    if six_digits(s) is Some {
        let h = six_digits(s)->0;
        let t = without_head(s, CharSet::Only('#'));
        let u = if t.len() == 3 {
            doubled(t)
        } else {
            t
        };
        assert(all_hex(u)) by {
            assert forall|i: int| 0 <= i < u.len() implies is_hex_digit(#[trigger] u[i]) by {
                if t.len() == 3 {
                    assert(is_hex_digit(t[i / 2]));
                }
            }
        }
        lemma_upper_hex(u);
        lemma_plain_color(h);
    }
}

proof fn lemma_upper_hex(u: Seq<char>)
    requires
        all_hex(u),
    ensures
        all_hex(uppered(u)),
        uppered(uppered(u)) == uppered(u),
{
    let h = uppered(u);
    assert forall|i: int| 0 <= i < h.len() implies is_hex_digit(#[trigger] h[i]) && upper(h[i])
        == h[i] by {
        assert(h[i] == upper(u[i]));
        assert(is_hex_digit(u[i]));
    }
    assert(uppered(h) =~= h);
}

pub proof fn lemma_plain_color(h: Seq<char>)
    requires
        is_color(h),
    ensures
        six_digits(h) == Some(h),
        six_digits(seq!['#'] + h) == Some(h),
{
    let s = seq!['#'] + h;
    assert(is_hex_digit(h[0]));
    assert(without_head(h, CharSet::Only('#')) == h);
    assert(s.drop_first() =~= h);
    assert(without_head(s, CharSet::Only('#')) == h);
}

/// Upper and lower case make no difference.
pub proof fn law_case(s: Seq<char>)
    ensures
        six_digits(lowered(s)) == six_digits(s),
    decreases s.len(),
{
    let l = lowered(s);
    if s.len() > 0 && s[0] == '#' {
        law_case(s.drop_first());
        assert(l.drop_first() =~= lowered(s.drop_first()));
        assert(l[0] == '#');
    } else {
        assert(s.len() > 0 ==> l[0] == lower(s[0]));
        assert(without_head(s, CharSet::Only('#')) == s);
        assert(without_head(l, CharSet::Only('#')) == l);
        assert(all_hex(l) == all_hex(s)) by {
            assert(forall|c: char| is_hex_digit(#[trigger] lower(c)) == is_hex_digit(c));
            if all_hex(l) {
                assert forall|i: int| 0 <= i < s.len() implies is_hex_digit(#[trigger] s[i]) by {
                    assert(is_hex_digit(l[i]));
                }
            }
        }
        if all_hex(s) {
            assert forall|c: char| is_hex_digit(c) implies upper(#[trigger] lower(c)) == upper(c) by {}
            assert(uppered(l) =~= uppered(s)) by {
                assert forall|i: int| 0 <= i < s.len() implies upper(l[i]) == #[trigger] upper(
                    s[i],
                ) by {
                    assert(is_hex_digit(s[i]));
                    assert(l[i] == lower(s[i]));
                }
            }
            assert(uppered(doubled(l)) =~= uppered(doubled(s))) by {
                assert forall|i: int| 0 <= i < 2 * s.len() implies uppered(doubled(l))[i]
                    == uppered(doubled(s))[i] by {
                    assert(uppered(l)[i / 2] == uppered(s)[i / 2]);
                }
            }
        }
    }
}

// ---------------------------------------------------------------------------
// Variables
// ---------------------------------------------------------------------------

/// The file of variables.
#[derive(Debug)]
pub struct VariableFile {
    pub comment: Option<String>,
    pub generated_at: Option<String>,
    pub variables: Vec<VariableEntry>,
}

/// A color variable.
#[derive(Debug)]
pub struct VariableEntry {
    /// The name of the CSS variable. Without one the entry is not used.
    pub css: Option<String>,
    /// The full name in Figma, for reference.
    pub figma_name: Option<String>,
    /// The color, as in `#RRGGBB`.
    pub hex: String,
}

/// A color variable with its texts taken by view.
pub struct VariableView {
    pub css: Option<Seq<char>>,
    pub figma_name: Option<Seq<char>>,
    pub hex: Seq<char>,
}

impl View for VariableEntry {
    type V = VariableView;

    open spec fn view(&self) -> VariableView {
        VariableView {
            css: text_or_none(self.css),
            figma_name: text_or_none(self.figma_name),
            hex: self.hex@,
        }
    }
}

/// The variables taken by view.
pub open spec fn variables_view(l: Seq<VariableEntry>) -> Seq<VariableView> {
    l.map_values(|v: VariableEntry| v@)
}

/// The color and the CSS variable that an entry gives, where it gives both.
pub open spec fn usable(v: VariableView) -> Option<(Seq<char>, Seq<char>)> {
    match (v.css, six_digits(v.hex)) {
        (Some(css), Some(key)) => if css.len() > 0 {
            Some((key, css))
        } else {
            None
        },
        _ => None,
    }
}

/// The CSS variables by their colors. Of two with one color the first counts.
pub open spec fn color_table(l: Seq<VariableView>) -> Seq<(Seq<char>, Seq<char>)>
    decreases l.len(),
{
    if l.len() == 0 {
        Seq::empty()
    } else {
        let t = color_table(l.drop_last());
        match usable(l.last()) {
            Some((key, css)) => match lookup(t, key) {
                Some(_) => t,
                None => put(t, key, css),
            },
            None => t,
        }
    }
}

/// The CSS variable of the first usable entry with the color `key`.
pub open spec fn first_variable(l: Seq<VariableView>, key: Seq<char>) -> Option<Seq<char>>
    decreases l.len(),
{
    if l.len() == 0 {
        None
    } else {
        match first_variable(l.drop_last(), key) {
            Some(css) => Some(css),
            None => match usable(l.last()) {
                Some((k, css)) => if k == key {
                    Some(css)
                } else {
                    None
                },
                None => None,
            },
        }
    }
}

/// The first usable entry of a color gives its variable; entries without a
/// variable count for nothing.
pub proof fn law_first_entry_wins(l: Seq<VariableView>, key: Seq<char>)
    ensures
        ordered(color_table(l)),
        lookup(color_table(l), key) == first_variable(l, key),
    decreases l.len(),
{
    if l.len() > 0 {
        law_first_entry_wins(l.drop_last(), key);
        let t = color_table(l.drop_last());
        if let Some((k, css)) = usable(l.last()) {
            law_first_entry_wins(l.drop_last(), k);
            law_put(t, k, css, key);
        }
    }
}

/// The CSS variables by their colors.
#[derive(Debug)]
pub struct ColorMap {
    hex_to_css: TextMap<String>,
}

spec fn text_view() -> spec_fn(String) -> Seq<char> {
    |t: String| t@
}

impl View for ColorMap {
    type V = Seq<(Seq<char>, Seq<char>)>;

    closed spec fn view(&self) -> Seq<(Seq<char>, Seq<char>)> {
        mapped(self.hex_to_css@, text_view())
    }
}

/// The CSS variable of a color.
pub open spec fn variable_for(t: Seq<(Seq<char>, Seq<char>)>, hex: Seq<char>) -> Option<Seq<char>> {
    match six_digits(hex) {
        Some(key) => lookup(t, key),
        None => None,
    }
}

impl ColorMap {
    /// The table of the variables in a file.
    pub fn from_file(file: &VariableFile) -> (res: Self)
        ensures
            res@ == color_table(variables_view(file.variables@)),
    {
        let ghost all = variables_view(file.variables@);
        let mut res = ColorMap { hex_to_css: TextMap::new() };
        let mut i: usize = 0;
        assert(res@ =~= color_table(all.take(0)));
        while i < file.variables.len()
            invariant
                i <= file.variables@.len(),
                all == variables_view(file.variables@),
                res@ == color_table(all.take(i as int)),
            decreases file.variables@.len() - i,
        {
            let v = &file.variables[i];
            assert(all[i as int] == v@);
            assert(all.take(i + 1).drop_last() =~= all.take(i as int));
            if let Some(css) = &v.css {
                if !css.as_str().is_empty() {
                    if let Some(key) = normalize_hex(v.hex.as_str()) {
                        let text = css.clone();
                        proof {
                            lemma_mapped(res.hex_to_css@, text_view(), key@, text);
                        }
                        if !res.hex_to_css.contains_key(key.as_str()) {
                            let _ = res.hex_to_css.insert(key, text);
                        }
                    }
                }
            }
            i += 1;
        }
        assert(all.take(i as int) =~= all);
        res
    }

    /// How many colors have a variable.
    pub fn len(&self) -> (res: usize)
        ensures
            res == self@.len(),
    {
        self.hex_to_css.len()
    }

    pub fn is_empty(&self) -> (res: bool)
        ensures
            res == (self@.len() == 0),
    {
        self.hex_to_css.is_empty()
    }

    /// The CSS variable of a color of three or six digits.
    pub fn lookup(&self, hex: &str) -> (res: Option<&str>)
        ensures
            match res {
                Some(css) => variable_for(self@, hex@) == Some(css@),
                None => variable_for(self@, hex@) is None,
            },
    {
        match normalize_hex(hex) {
            None => None,
            Some(key) => {
                proof {
                    lemma_mapped(self.hex_to_css@, text_view(), key@, arbitrary());
                }
                match self.hex_to_css.get(key.as_str()) {
                    Some(css) => Some(css.as_str()),
                    None => None,
                }
            },
        }
    }
}

impl Default for ColorMap {
    fn default() -> (res: Self)
        ensures
            res@.len() == 0,
    {
        ColorMap { hex_to_css: TextMap::new() }
    }
}

impl Default for VariableFile {
    fn default() -> (res: Self)
        ensures
            res.comment is None,
            res.generated_at is None,
            res.variables@.len() == 0,
    {
        VariableFile { comment: None, generated_at: None, variables: Vec::new() }
    }
}

// ---------------------------------------------------------------------------
// Replacing
// ---------------------------------------------------------------------------

/// A reference to a CSS variable with a color to fall back on. The slashes in
/// the name are escaped.
pub open spec fn css_reference(css: Seq<char>, hex: Seq<char>) -> Seq<char> {
    "[var("@ + with_char_replaced(css, '/', "\\/"@) + ",#"@ + hex + ")]"@
}

/// What has been replaced so far.
pub struct ColorPlan {
    pub edits: Seq<EditView>,
    pub substitutions: u32,
    pub by_hex: Seq<(Seq<char>, u32)>,
}

/// What is replaced among the colors in brackets: each that has a variable.
pub open spec fn color_plan(
    src: Seq<char>,
    t: Seq<(Seq<char>, Seq<char>)>,
    found: Seq<Seq<Option<(usize, usize)>>>,
) -> ColorPlan
    decreases found.len(),
{
    if found.len() == 0 {
        ColorPlan { edits: Seq::empty(), substitutions: 0, by_hex: Seq::empty() }
    } else {
        let p = color_plan(src, t, found.drop_last());
        let m = found.last();
        if m.len() < 2 || m[1] is None {
            p
        } else {
            let (whole, digits) = (m[0]->0, m[1]->0);
            let hex = cut(src, digits.0 as int, digits.1 as int);
            match variable_for(t, hex) {
                None => p,
                Some(css) => ColorPlan {
                    edits: p.edits.push(
                        EditView {
                            start: whole.0 as int,
                            end: whole.1 as int,
                            replacement: css_reference(css, hex),
                        },
                    ),
                    substitutions: one_more(p.substitutions),
                    by_hex: counted(p.by_hex, six_digits(hex)->0),
                },
            }
        }
    }
}

/// What was replaced.
#[derive(Debug)]
pub struct ColorReport {
    pub substitutions: u32,
    /// How often each color was replaced, by its six digits.
    pub by_hex: TextMap<u32>,
}

/// The last edit ends where the last match ends, or before.
spec fn edits_within(
    src: Seq<char>,
    edits: Seq<EditView>,
    found: Seq<Seq<Option<(usize, usize)>>>,
) -> bool {
    &&& all_fit(src, edits)
    &&& in_order(edits)
    &&& forall|i: int|
        0 <= i < edits.len() ==> found.len() > 0 && (#[trigger] edits[i]).end <= (
        found.last()[0]->0).1
}

/// Replace the colors among the matches that were found.
pub fn process_matches(src: &str, map: &ColorMap, found: &Vec<Groups>) -> (res: (
    String,
    ColorReport,
))
    requires
        are_matches(src@, groups_of(found@)),
    ensures
        ({
            let p = color_plan(src@, map@, groups_of(found@));
            &&& res.0@ == spliced(src@, p.edits)
            &&& res.1.substitutions == p.substitutions
            &&& res.1.by_hex@ == p.by_hex
        }),
{
    let ghost all = groups_of(found@);
    let mut edits: Vec<Edit> = Vec::new();
    let mut substitutions: u32 = 0;
    let mut by_hex: TextMap<u32> = TextMap::new();
    let mut i: usize = 0;
    assert(edits_of(edits@) =~= color_plan(src@, map@, all.take(0)).edits);
    while i < found.len()
        invariant
            i <= found@.len(),
            all == groups_of(found@),
            are_matches(src@, all),
            edits_within(src@, edits_of(edits@), all.take(i as int)),
            color_plan(src@, map@, all.take(i as int)) == (ColorPlan {
                edits: edits_of(edits@),
                substitutions,
                by_hex: by_hex@,
            }),
        decreases found@.len() - i,
    {
        let m = &found[i];
        let ghost before = edits_of(edits@);
        assert(all[i as int] == m@);
        assert(is_match(src@, m@));
        assert(all.take(i + 1).drop_last() =~= all.take(i as int));
        assert(all.take(i + 1).last() == m@);
        proof {
            if i > 0 {
                assert(all.take(i as int).last() == all[i - 1]);
                assert(is_match(src@, all[i - 1]));
                assert(m@[0] is Some);
            }
        }
        if m.len() >= 2 {
            match (m[0], m[1]) {
                (Some(whole), Some(digits)) => {
                    assert(m@[0] is Some && m@[1] is Some);
                    let hex = slice(src, digits.0, digits.1);
                    if let Some(css) = map.lookup(hex) {
                        if let Some(key) = normalize_hex(hex) {
                            let mut text: String = "[var(".to_string();
                            text.append(replace_char(css, '/', "\\/").as_str());
                            text.append(",#");
                            text.append(hex);
                            text.append(")]");
                            let e = Edit { start: whole.0, end: whole.1, replacement: text };
                            edits.push(e);
                            assert(edits_of(edits@) =~= before.push(e@));
                            substitutions = count_up(substitutions);
                            by_hex.count(key.as_str());
                        }
                    }
                },
                _ => {},
            }
        }
        i += 1;
    }
    assert(all.take(i as int) =~= all);
    (splice(src, &edits), ColorReport { substitutions, by_hex })
}

/// Replace the bare colors in brackets that have a variable.
pub fn process(src: &str, map: &ColorMap) -> (res: (String, ColorReport))
    ensures
        ({
            let p = color_plan(src@, map@, regex_matches(BRACKETED_HEX@, src@));
            &&& res.0@ == spliced(src@, p.edits)
            &&& res.1.substitutions == p.substitutions
            &&& res.1.by_hex@ == p.by_hex
        }),
{
    if map.is_empty() {
        let res = (src.to_string(), ColorReport { substitutions: 0, by_hex: TextMap::new() });
        proof {
            law_no_variables(src@, map@, regex_matches(BRACKETED_HEX@, src@));
        }
        return res;
    }
    process_matches(src, map, &known_matches(BRACKETED_HEX, src))
}

/// Without variables nothing is replaced.
pub proof fn law_no_variables(
    src: Seq<char>,
    t: Seq<(Seq<char>, Seq<char>)>,
    found: Seq<Seq<Option<(usize, usize)>>>,
)
    requires
        t.len() == 0,
    ensures
        color_plan(src, t, found) == (ColorPlan {
            edits: Seq::empty(),
            substitutions: 0,
            by_hex: Seq::empty(),
        }),
        spliced(src, color_plan(src, t, found).edits) == src,
    decreases found.len(),
{
    lemma_cut_all(src);
    if found.len() > 0 {
        law_no_variables(src, t, found.drop_last());
        let m = found.last();
        if m.len() >= 2 && m[1] is Some {
            let hex = cut(src, (m[1]->0).0 as int, (m[1]->0).1 as int);
            if six_digits(hex) is Some {
                lemma_slot(t, six_digits(hex)->0, 0);
            }
        }
    }
}

/// A color without a variable is left as it is: it adds no edit.
pub proof fn law_unmatched_left_alone(
    src: Seq<char>,
    t: Seq<(Seq<char>, Seq<char>)>,
    found: Seq<Seq<Option<(usize, usize)>>>,
    m: Seq<Option<(usize, usize)>>,
)
    requires
        m.len() >= 2,
        m[1] is Some,
        variable_for(t, cut(src, (m[1]->0).0 as int, (m[1]->0).1 as int)) is None,
    ensures
        color_plan(src, t, found.push(m)) == color_plan(src, t, found),
{
    assert(found.push(m).drop_last() =~= found);
}

/// Every color that is replaced is counted once.
pub proof fn law_colors_counted(
    src: Seq<char>,
    t: Seq<(Seq<char>, Seq<char>)>,
    found: Seq<Seq<Option<(usize, usize)>>>,
)
    requires
        found.len() <= u32::MAX,
    ensures
        color_plan(src, t, found).edits.len() <= found.len(),
        color_plan(src, t, found).substitutions == color_plan(src, t, found).edits.len(),
        total(color_plan(src, t, found).by_hex) == color_plan(src, t, found).edits.len(),
    decreases found.len(),
{
    if found.len() > 0 {
        law_colors_counted(src, t, found.drop_last());
        let p = color_plan(src, t, found.drop_last());
        let m = found.last();
        if m.len() >= 2 && m[1] is Some {
            let hex = cut(src, (m[1]->0).0 as int, (m[1]->0).1 as int);
            if six_digits(hex) is Some {
                lemma_total_counted(p.by_hex, six_digits(hex)->0);
            }
        }
    }
}

/// A usable entry of a color gives it a variable: its own, or that of an entry
/// before it.
pub proof fn law_usable_entry_is_found(l: Seq<VariableView>, i: int)
    requires
        0 <= i < l.len(),
        usable(l[i]) is Some,
    ensures
        variable_for(color_table(l), l[i].hex) is Some,
    decreases l.len(),
{
    let key = six_digits(l[i].hex)->0;
    law_first_entry_wins(l, key);
    if i < l.len() - 1 {
        let d = l.drop_last();
        assert(d[i] == l[i]);
        law_usable_entry_is_found(d, i);
        law_first_entry_wins(d, key);
    }
}

// ---------------------------------------------------------------------------
// A second pass
// ---------------------------------------------------------------------------

/// No `[` is followed by `#`.
pub open spec fn is_hash_free(s: Seq<char>) -> bool {
    forall|x: int| 0 <= x < s.len() - 1 && #[trigger] s[x] == '[' ==> s[x + 1] != '#'
}

proof fn lemma_hash_free_concat(a: Seq<char>, b: Seq<char>)
    requires
        is_hash_free(a),
        is_hash_free(b),
        a.len() > 0 && b.len() > 0 ==> !(a.last() == '[' && b[0] == '#'),
    ensures
        is_hash_free(a + b),
{
    let s = a + b;
    assert forall|x: int| 0 <= x < s.len() - 1 && #[trigger] s[x] == '[' implies s[x + 1]
        != '#' by {
        if x < a.len() - 1 {
            assert(s[x] == a[x] && s[x + 1] == a[x + 1]);
        } else if x == a.len() - 1 {
            assert(s[x] == a.last() && s[x + 1] == b[0]);
        } else {
            assert(s[x] == b[x - a.len()] && s[x + 1] == b[x + 1 - a.len()]);
        }
    }
}

proof fn lemma_escaped_hash_free(css: Seq<char>)
    requires
        is_hash_free(css),
    ensures
        is_hash_free(with_char_replaced(css, '/', "\\/"@)),
        css.len() > 0 ==> with_char_replaced(css, '/', "\\/"@).len() > 0 && with_char_replaced(
            css,
            '/',
            "\\/"@,
        ).last() == css.last(),
    decreases css.len(),
{
    reveal_strlit("\\/");
    if css.len() > 0 {
        let (d, c) = (css.drop_last(), css.last());
        assert forall|x: int| 0 <= x < d.len() - 1 && #[trigger] d[x] == '[' implies d[x + 1]
            != '#' by {
            assert(css[x] == '[');
        }
        lemma_escaped_hash_free(d);
        let e = with_char_replaced(d, '/', "\\/"@);
        let piece = if c == '/' {
            "\\/"@
        } else {
            seq![c]
        };
        assert(with_char_replaced(css, '/', "\\/"@) =~= e + piece);
        if d.len() > 0 {
            assert(css[d.len() - 1] == d.last());
            assert(css[d.len() as int] == c);
        } else {
            assert(e.len() == 0);
        }
        lemma_hash_free_concat(e, piece);
    }
}

/// What is put in place of a color starts with `[`, ends with `]`, and holds no
/// bracketed color.
proof fn lemma_reference_hash_free(css: Seq<char>, hex: Seq<char>)
    requires
        !occurs_in(css, "[#"@),
        all_hex(hex),
    ensures
        is_hash_free(css_reference(css, hex)),
        css_reference(css, hex).len() > 1,
        css_reference(css, hex)[0] == '[',
        css_reference(css, hex).last() == ']',
{
    reveal_strlit("[var(");
    reveal_strlit(",#");
    reveal_strlit(")]");
    reveal_strlit("[#");
    assert(is_hash_free(css)) by {
        lemma_find_from(css, "[#"@, 0);
        assert forall|x: int| 0 <= x < css.len() - 1 && #[trigger] css[x] == '[' implies css[x + 1]
            != '#' by {
            if css[x + 1] == '#' {
                assert(css.subrange(x, x + 2) =~= "[#"@);
                assert(occurs_at(css, "[#"@, x));
            }
        }
    }
    lemma_escaped_hash_free(css);
    let e = with_char_replaced(css, '/', "\\/"@);
    assert(is_hash_free(hex)) by {
        assert forall|x: int| 0 <= x < hex.len() - 1 && #[trigger] hex[x] == '[' implies hex[x + 1]
            != '#' by {
            assert(is_hex_digit(hex[x]));
        }
    }
    if hex.len() > 0 {
        assert(is_hex_digit(hex[0]));
    }
    lemma_hash_free_concat("[var("@, e);
    lemma_hash_free_concat("[var("@ + e, ",#"@);
    lemma_hash_free_concat("[var("@ + e + ",#"@, hex);
    lemma_hash_free_concat("[var("@ + e + ",#"@ + hex, ")]"@);
}

/// The digits of a bracketed color.
pub open spec fn digits_of(token: Seq<char>) -> Seq<char> {
    token.subrange(2, token.len() - 1)
}

proof fn lemma_digits(token: Seq<char>)
    requires
        is_hex_token(token),
    ensures
        all_hex(digits_of(token)),
        token == seq!['[', '#'] + digits_of(token) + seq![']'],
{
    let d = digits_of(token);
    assert forall|i: int| 0 <= i < d.len() implies is_hex_digit(#[trigger] d[i]) by {
        assert(d[i] == token[i + 2]);
    }
    assert(token =~= seq!['[', '#'] + d + seq![']']);
}

/// The digits of a match are those of its token.
proof fn lemma_match_digits(text: Seq<char>, m: Seq<Option<(usize, usize)>>)
    requires
        is_match(text, m),
        has_shape(BRACKETED_HEX@, text, m),
    ensures
        m.len() == 2,
        m[1] is Some,
        is_hex_token(matched(text, m)),
        cut(text, (m[1]->0).0 as int, (m[1]->0).1 as int) == digits_of(matched(text, m)),
{
    let (w, g) = (m[0]->0, m[1]->0);
    let token = matched(text, m);
    let d = digits_of(token);
    assert(m[0] is Some);
    assert(m[1] is Some);
    lemma_digits(token);
    lemma_cut(text, w.0 as int, w.1 as int);
    lemma_cut(text, g.0 as int, g.1 as int);
    lemma_utf8_concat(seq!['[', '#'], d);
    lemma_utf8_concat(seq!['[', '#'] + d, seq![']']);
    lemma_ascii_text(seq!['[', '#']);
    lemma_ascii_text(seq![']']);
    let b = utf8(text).subrange(w.0 as int, w.1 as int);
    assert(b =~= utf8(seq!['[', '#']) + utf8(d) + utf8(seq![']']));
    assert(utf8(d) =~= b.subrange(2, b.len() - 1));
    assert(b.subrange(2, b.len() - 1) =~= utf8(text).subrange(g.0 as int, g.1 as int));
    lemma_utf8_injective(cut(text, g.0 as int, g.1 as int), d);
}

/// Every match with a variable is replaced.
proof fn lemma_edit_of_match(
    src: Seq<char>,
    t: Seq<(Seq<char>, Seq<char>)>,
    found: Seq<Seq<Option<(usize, usize)>>>,
    k: int,
)
    requires
        0 <= k < found.len(),
        found[k].len() >= 2,
        found[k][1] is Some,
        variable_for(
            t,
            cut(src, (found[k][1]->0).0 as int, (found[k][1]->0).1 as int),
        ) is Some,
    ensures
        exists|x: int|
            {
                &&& 0 <= x < color_plan(src, t, found).edits.len()
                &&& (#[trigger] color_plan(src, t, found).edits[x]).start == (found[k][0]->0).0
                &&& color_plan(src, t, found).edits[x].end == (found[k][0]->0).1
            },
    decreases found.len(),
{
    let d = found.drop_last();
    let (before, all) = (color_plan(src, t, d).edits, color_plan(src, t, found).edits);
    if k < d.len() {
        assert(d[k] == found[k]);
        lemma_edit_of_match(src, t, d, k);
        let x = choose|x: int|
            {
                &&& 0 <= x < before.len()
                &&& (#[trigger] before[x]).start == (found[k][0]->0).0
                &&& before[x].end == (found[k][0]->0).1
            };
        assert(all[x] == before[x]);
    } else {
        assert(all[before.len() as int].start == (found[k][0]->0).0);
    }
}

/// What the edits are: each puts a reference in place of a match.
spec fn are_references(
    src: Seq<char>,
    t: Seq<(Seq<char>, Seq<char>)>,
    edits: Seq<EditView>,
    found: Seq<Seq<Option<(usize, usize)>>>,
) -> bool {
    &&& edits_within(src, edits, found)
    &&& forall|x: int|
        0 <= x < edits.len() ==> is_hash_free((#[trigger] edits[x]).replacement)
            && edits[x].replacement.len() > 1 && edits[x].replacement[0] == '['
            && edits[x].replacement.last() == ']'
}

/// No variable's name holds the start of a bracketed color.
pub open spec fn names_are_plain(t: Seq<(Seq<char>, Seq<char>)>) -> bool {
    forall|i: int| 0 <= i < t.len() ==> !occurs_in((#[trigger] t[i]).1, "[#"@)
}

proof fn lemma_references(
    src: Seq<char>,
    t: Seq<(Seq<char>, Seq<char>)>,
    found: Seq<Seq<Option<(usize, usize)>>>,
)
    requires
        are_matches(src, found),
        forall|i: int| 0 <= i < found.len() ==> has_shape(BRACKETED_HEX@, src, #[trigger] found[i]),
        names_are_plain(t),
    ensures
        are_references(src, t, color_plan(src, t, found).edits, found),
    decreases found.len(),
{
    if found.len() > 0 {
        let (d, m) = (found.drop_last(), found.last());
        let n = found.len() - 1;
        assert(found[n] == m);
        assert(are_matches(src, d)) by {
            assert forall|i: int| 0 <= i < d.len() implies is_match(src, #[trigger] d[i]) by {
                assert(d[i] == found[i]);
            }
            assert forall|i: int, j: int|
                #![trigger d[i], d[j]]
                0 <= i < j < d.len() implies (d[i][0]->0).0 < (d[j][0]->0).0 && (d[i][0]->0).1 <= (
            d[j][0]->0).0 by {
                assert(d[i] == found[i] && d[j] == found[j]);
            }
        }
        assert forall|i: int| 0 <= i < d.len() implies has_shape(
            BRACKETED_HEX@,
            src,
            #[trigger] d[i],
        ) by {
            assert(d[i] == found[i]);
        }
        lemma_references(src, t, d);
        let before = color_plan(src, t, d).edits;
        let all = color_plan(src, t, found).edits;
        lemma_match_digits(src, m);
        lemma_digits(matched(src, m));
        let hex = cut(src, (m[1]->0).0 as int, (m[1]->0).1 as int);
        assert(m[0] is Some);
        if d.len() > 0 {
            assert(d.last() == found[n - 1]);
            assert(is_match(src, found[n - 1]));
            assert((found[n - 1][0]->0).1 <= (found[n][0]->0).0);
        }
        if let Some(css) = variable_for(t, hex) {
            lemma_slot(t, six_digits(hex)->0, 0);
            let i = slot_from(t, six_digits(hex)->0, 0);
            assert(css == t[i].1);
            lemma_reference_hash_free(css, hex);
            assert forall|i: int, j: int| 0 <= i < j < all.len() implies (#[trigger] all[i]).end
                <= (#[trigger] all[j]).start by {
                if j == before.len() {
                    assert(all[i] == before[i]);
                } else {
                    assert(before[i].end <= before[j].start);
                }
            }
        }
    }
}

/// A token in what is left of the text between two edits is a match that has
/// no variable.
proof fn lemma_token_between(
    src: Seq<char>,
    t: Seq<(Seq<char>, Seq<char>)>,
    found: Seq<Seq<Option<(usize, usize)>>>,
    i: int,
    from: int,
    to: int,
    token: Seq<char>,
    k: int,
)
    requires
        are_matches(src, found),
        are_shaped(BRACKETED_HEX@, src, found),
        names_are_plain(t),
        is_hex_token(token),
        0 <= i <= color_plan(src, t, found).edits.len(),
        from <= to,
        at_boundary(utf8(src), from),
        at_boundary(utf8(src), to),
        i > 0 ==> color_plan(src, t, found).edits[i - 1].end <= from,
        i < color_plan(src, t, found).edits.len() ==> to <= color_plan(
            src,
            t,
            found,
        ).edits[i].start,
        occurs_at(cut(src, from, to), token, k),
    ensures
        variable_for(t, digits_of(token)) is None,
{
    let edits = color_plan(src, t, found).edits;
    lemma_references(src, t, found);
    let g = cut(src, from, to);
    let (pre, post) = (g.take(k), g.skip(k + token.len() as int));
    assert(g =~= pre + token + post);
    lemma_utf8_concat(pre, token);
    lemma_utf8_concat(pre + token, post);
    lemma_cut(src, from, to);
    let a = from + utf8(pre).len();
    let b = a + utf8(token).len();
    lemma_utf8_len(token);
    lemma_cut_all(pre);
    lemma_cut_of_concat(pre, token + post, utf8(pre).len() as int);
    lemma_cut_of_concat(pre + token, post, utf8(pre + token).len() as int);
    assert(pre + (token + post) =~= g);
    let (u, w) = (utf8(src), utf8(g));
    lemma_cut_all(pre + token);
    assert(at_boundary(w, utf8(pre).len() as int));
    assert(at_boundary(w, utf8(pre + token).len() as int));
    assert(at_boundary(u, a)) by {
        if a < to {
            assert(u[a] == w[a - from]);
        }
    }
    assert(at_boundary(u, b)) by {
        if b < to {
            assert(u[b] == w[b - from]);
        }
    }
    lemma_cut(src, a, b);
    assert(u.subrange(a, b) =~= w.subrange(a - from, b - from));
    assert(w =~= utf8(pre) + utf8(token) + utf8(post));
    assert(w.subrange(a - from, b - from) =~= utf8(token));
    lemma_utf8_injective(cut(src, a, b), token);
    assert(is_matched(found, a, b));
    let x = choose|x: int|
        0 <= x < found.len() && ((#[trigger] found[x])[0]->0).0 == a && (found[x][0]->0).1 == b;
    assert(is_match(src, found[x]));
    lemma_match_digits(src, found[x]);
    if variable_for(t, digits_of(token)) is Some {
        lemma_edit_of_match(src, t, found, x);
        let y = choose|y: int|
            0 <= y < edits.len() && (#[trigger] edits[y]).start == a && edits[y].end == b;
        if y < i {
            if y < i - 1 {
                assert(edits[y].end <= edits[i - 1].start);
                assert(fits(src, edits[i - 1]));
            }
        } else if y > i {
            assert(edits[i].end <= edits[y].start);
            assert(fits(src, edits[i]));
        }
    }
}

proof fn lemma_token_left(
    src: Seq<char>,
    t: Seq<(Seq<char>, Seq<char>)>,
    found: Seq<Seq<Option<(usize, usize)>>>,
    i: int,
    from: int,
    token: Seq<char>,
    k: int,
)
    requires
        are_matches(src, found),
        are_shaped(BRACKETED_HEX@, src, found),
        names_are_plain(t),
        is_hex_token(token),
        0 <= i <= color_plan(src, t, found).edits.len(),
        at_boundary(utf8(src), from),
        i > 0 ==> color_plan(src, t, found).edits[i - 1].end <= from,
        i < color_plan(src, t, found).edits.len() ==> from <= color_plan(
            src,
            t,
            found,
        ).edits[i].start,
        occurs_at(spliced_from(src, color_plan(src, t, found).edits, i, from), token, k),
    ensures
        variable_for(t, digits_of(token)) is None,
    decreases color_plan(src, t, found).edits.len() - i,
{
    let edits = color_plan(src, t, found).edits;
    lemma_references(src, t, found);
    lemma_cut_all(src);
    let s = spliced_from(src, edits, i, from);
    if i == edits.len() {
        lemma_token_between(src, t, found, i, from, utf8(src).len() as int, token, k);
    } else {
        let e = edits[i];
        assert(fits(src, e));
        let (g, r) = (cut(src, from, e.start), e.replacement);
        let rest = spliced_from(src, edits, i + 1, e.end);
        assert(s =~= g + r + rest);
        assert forall|x: int| 0 <= x < token.len() implies #[trigger] token[x] == s[k + x] by {
            assert(s.subrange(k, k + token.len() as int)[x] == s[k + x]);
        }
        assert(token[0] == s[k] && token[1] == s[k + 1]);
        if k < g.len() {
            if k + token.len() > g.len() {
                let x = g.len() - k;
                assert(token[x] == s[k + x]);
                assert(s[g.len() as int] == r[0]);
                if 2 <= x < token.len() - 1 {
                    assert(is_hex_digit(token[x]));
                }
                assert(false);
            }
            assert(g.subrange(k, k + token.len() as int) =~= s.subrange(
                k,
                k + token.len() as int,
            ));
            lemma_token_between(src, t, found, i, from, e.start, token, k);
        } else if k < g.len() + r.len() {
            let x = k - g.len();
            assert(r[x] == s[k]);
            if x + 1 < r.len() {
                assert(r[x + 1] == s[k + 1]);
            } else {
                assert(r.last() == r[x]);
            }
            assert(false);
        } else {
            let m = k - g.len() - r.len();
            assert(rest.subrange(m, m + token.len() as int) =~= s.subrange(
                k,
                k + token.len() as int,
            ));
            if i + 1 < edits.len() {
                assert(e.end <= edits[i + 1].start);
            }
            lemma_token_left(src, t, found, i + 1, e.end, token, m);
        }
    }
}

proof fn lemma_nothing_left(
    out: Seq<char>,
    t: Seq<(Seq<char>, Seq<char>)>,
    found: Seq<Seq<Option<(usize, usize)>>>,
)
    requires
        forall|i: int|
            0 <= i < found.len() ==> (#[trigger] found[i]).len() >= 2 && found[i][1] is Some
                && variable_for(
                t,
                cut(out, (found[i][1]->0).0 as int, (found[i][1]->0).1 as int),
            ) is None,
    ensures
        color_plan(out, t, found) == (ColorPlan {
            edits: Seq::empty(),
            substitutions: 0,
            by_hex: Seq::empty(),
        }),
    decreases found.len(),
{
    if found.len() > 0 {
        let d = found.drop_last();
        assert(found[found.len() - 1] == found.last());
        assert forall|i: int| 0 <= i < d.len() implies (#[trigger] d[i]).len() >= 2 && d[i][1]
            is Some && variable_for(
            t,
            cut(out, (d[i][1]->0).0 as int, (d[i][1]->0).1 as int),
        ) is None by {
            assert(d[i] == found[i]);
        }
        lemma_nothing_left(out, t, d);
    }
}

/// A second pass changes nothing: no bracketed color that has a variable is
/// left in the text, where no variable's name holds `[#`.
pub proof fn law_second_pass_changes_nothing(
    src: Seq<char>,
    t: Seq<(Seq<char>, Seq<char>)>,
    found: Seq<Seq<Option<(usize, usize)>>>,
    again: Seq<Seq<Option<(usize, usize)>>>,
)
    requires
        are_matches(src, found),
        are_shaped(BRACKETED_HEX@, src, found),
        names_are_plain(t),
        are_matches(spliced(src, color_plan(src, t, found).edits), again),
        are_shaped(BRACKETED_HEX@, spliced(src, color_plan(src, t, found).edits), again),
    ensures
        ({
            let out = spliced(src, color_plan(src, t, found).edits);
            &&& color_plan(out, t, again) == (ColorPlan {
                edits: Seq::empty(),
                substitutions: 0,
                by_hex: Seq::empty(),
            })
            &&& spliced(out, color_plan(out, t, again).edits) == out
        }),
{
    let edits = color_plan(src, t, found).edits;
    let out = spliced(src, edits);
    lemma_references(src, t, found);
    lemma_cut_all(src);
    lemma_cut_all(out);
    if edits.len() > 0 {
        assert(fits(src, edits[0]));
    }
    assert forall|i: int| 0 <= i < again.len() implies (#[trigger] again[i]).len() >= 2
        && again[i][1] is Some && variable_for(
        t,
        cut(out, (again[i][1]->0).0 as int, (again[i][1]->0).1 as int),
    ) is None by {
        let m = again[i];
        assert(is_match(out, m));
        assert(has_shape(BRACKETED_HEX@, out, m));
        assert(m[0] is Some);
        lemma_match_digits(out, m);
        let w = m[0]->0;
        let token = matched(out, m);
        let n = utf8(out).len() as int;
        lemma_cut_concat(out, 0, w.0 as int, w.1 as int);
        lemma_cut_concat(out, 0, w.1 as int, n);
        let k = cut(out, 0, w.0 as int).len() as int;
        assert(out == cut(out, 0, w.0 as int) + token + cut(out, w.1 as int, n));
        assert(out.subrange(k, k + token.len() as int) =~= token);
        assert(occurs_at(out, token, k));
        lemma_token_left(src, t, found, 0, 0, token, k);
    }
    lemma_nothing_left(out, t, again);
}

/// What is counted are colors in six digits in upper case.
pub proof fn law_counted_keys_are_colors(
    src: Seq<char>,
    t: Seq<(Seq<char>, Seq<char>)>,
    found: Seq<Seq<Option<(usize, usize)>>>,
    i: int,
)
    requires
        0 <= i < color_plan(src, t, found).by_hex.len(),
    ensures
        is_color(color_plan(src, t, found).by_hex[i].0),
    decreases found.len(),
{
    if found.len() > 0 {
        let d = found.drop_last();
        let (before, all) = (color_plan(src, t, d).by_hex, color_plan(src, t, found).by_hex);
        if before == all {
            law_counted_keys_are_colors(src, t, d, i);
        } else {
            let m = found.last();
            let hex = cut(src, (m[1]->0).0 as int, (m[1]->0).1 as int);
            let key = six_digits(hex)->0;
            law_six_digits(hex);
            lemma_slot(before, key, 0);
            let s = slot_from(before, key, 0);
            if i != s {
                if i < s || lookup(before, key) is Some {
                    law_counted_keys_are_colors(src, t, d, i);
                } else {
                    law_counted_keys_are_colors(src, t, d, i - 1);
                }
            }
        }
    }
}

/// Two ways to write one color.
pub open spec fn same_color(a: Seq<char>, b: Seq<char>) -> bool {
    six_digits(a) is Some && six_digits(a) == six_digits(b)
}

/// The entry gives a variable to the color.
pub open spec fn serves(v: VariableView, hex: Seq<char>) -> bool {
    v.css is Some && v.css->0.len() > 0 && same_color(v.hex, hex)
}

/// The variable of a color is that of the first entry with the same color and
/// with a variable. A color without such an entry has none.
pub proof fn law_color_has_its_own_variable(l: Seq<VariableView>, hex: Seq<char>)
    ensures
        match variable_for(color_table(l), hex) {
            Some(css) => exists|i: int|
                {
                    &&& 0 <= i < l.len()
                    &&& serves(#[trigger] l[i], hex)
                    &&& l[i].css == Some(css)
                    &&& forall|j: int| 0 <= j < i ==> !serves(#[trigger] l[j], hex)
                },
            None => forall|j: int| 0 <= j < l.len() ==> !serves(#[trigger] l[j], hex),
        },
        match six_digits(hex) {
            Some(key) => variable_for(color_table(l), hex) == first_variable(l, key),
            None => variable_for(color_table(l), hex) is None,
        },
{
    if let Some(key) = six_digits(hex) {
        law_first_entry_wins(l, key);
        lemma_first_variable(l, hex);
        if first_variable(l, key) is Some {
            let i = choose|i: int|
                {
                    &&& 0 <= i < l.len()
                    &&& serves(#[trigger] l[i], hex)
                    &&& l[i].css == first_variable(l, key)
                    &&& forall|j: int| 0 <= j < i ==> !serves(#[trigger] l[j], hex)
                };
            assert(serves(l[i], hex));
        }
    }
}

proof fn lemma_first_variable(l: Seq<VariableView>, hex: Seq<char>)
    requires
        six_digits(hex) is Some,
    ensures
        match first_variable(l, six_digits(hex)->0) {
            Some(css) => exists|i: int|
                {
                    &&& 0 <= i < l.len()
                    &&& serves(#[trigger] l[i], hex)
                    &&& l[i].css == Some(css)
                    &&& forall|j: int| 0 <= j < i ==> !serves(#[trigger] l[j], hex)
                },
            None => forall|j: int| 0 <= j < l.len() ==> !serves(#[trigger] l[j], hex),
        },
    decreases l.len(),
{
    let key = six_digits(hex)->0;
    if l.len() > 0 {
        let (d, n) = (l.drop_last(), l.len() - 1);
        lemma_first_variable(d, hex);
        if first_variable(d, key) is Some {
            let i = choose|i: int|
                {
                    &&& 0 <= i < d.len()
                    &&& serves(#[trigger] d[i], hex)
                    &&& d[i].css == first_variable(d, key)
                    &&& forall|j: int| 0 <= j < i ==> !serves(#[trigger] d[j], hex)
                };
            assert(serves(l[i], hex));
            assert forall|j: int| 0 <= j < i implies !serves(#[trigger] l[j], hex) by {
                assert(d[j] == l[j]);
            }
        } else {
            assert forall|j: int| 0 <= j < n implies !serves(#[trigger] l[j], hex) by {
                assert(d[j] == l[j]);
            }
            if usable(l[n]) is Some && (usable(l[n])->0).0 == key {
                assert(serves(l[n], hex));
            }
        }
    }
}

/// Six digits are the color that they write, in upper case; three write each
/// digit twice. `#` in front makes no difference, and nothing else is a color.
pub proof fn law_digits_of_a_color(s: Seq<char>)
    requires
        s.len() == 0 || s[0] != '#',
    ensures
        six_digits(seq!['#'] + s) == six_digits(s),
        six_digits(s) is Some <==> (s.len() == 3 || s.len() == 6) && forall|i: int|
            0 <= i < s.len() ==> {
                let c = #[trigger] s[i];
                ('0' <= c && c <= '9') || ('a' <= c && c <= 'f') || ('A' <= c && c <= 'F')
            },
        six_digits(s) is Some && s.len() == 6 ==> forall|i: int|
            0 <= i < 6 ==> #[trigger] (six_digits(s)->0)[i] == upper(s[i]),
        six_digits(s) is Some && s.len() == 3 ==> six_digits(s) == six_digits(
            seq![s[0], s[0], s[1], s[1], s[2], s[2]],
        ),
{
    let t = seq!['#'] + s;
    assert(t.drop_first() =~= s);
    assert(without_head(s, CharSet::Only('#')) == s);
    if six_digits(s) is Some && s.len() == 3 {
        let d = seq![s[0], s[0], s[1], s[1], s[2], s[2]];
        assert(is_hex_digit(s[0]) && is_hex_digit(s[1]) && is_hex_digit(s[2]));
        assert(without_head(d, CharSet::Only('#')) == d);
        assert(doubled(s) =~= d);
    }
}

/// A reference names the variable and falls back on the color as it was
/// written. Without a slash the name is written as it is.
pub proof fn law_css_reference(css: Seq<char>, hex: Seq<char>)
    ensures
        !css.contains('/') ==> css_reference(css, hex) == "[var("@ + css + ",#"@ + hex + ")]"@,
        forall|a: Seq<char>, b: Seq<char>|
            css == #[trigger] (a + "/"@ + b) ==> css_reference(css, hex) == "[var("@
                + with_char_replaced(a, '/', "\\/"@) + "\\/"@ + with_char_replaced(
                b,
                '/',
                "\\/"@,
            ) + ",#"@ + hex + ")]"@,
{
    if !css.contains('/') {
        law_char_absent(css, '/', "\\/"@);
    }
    reveal_strlit("/");
    assert forall|a: Seq<char>, b: Seq<char>| css == #[trigger] (a + "/"@ + b) implies css_reference(
        css,
        hex,
    ) == "[var("@ + with_char_replaced(a, '/', "\\/"@) + "\\/"@ + with_char_replaced(
        b,
        '/',
        "\\/"@,
    ) + ",#"@ + hex + ")]"@ by {
        law_char_replaced(a, "/"@ + b, '/', "\\/"@);
        law_char_replaced("/"@, b, '/', "\\/"@);
        law_one_char_replaced('/', '/', "\\/"@);
        assert("/"@ =~= seq!['/']);
        assert(a + "/"@ + b =~= a + ("/"@ + b));
        assert(css_reference(css, hex) =~= "[var("@ + with_char_replaced(a, '/', "\\/"@) + "\\/"@
            + with_char_replaced(b, '/', "\\/"@) + ",#"@ + hex + ")]"@);
    }
}

/// A bracketed color is replaced exactly where it has a variable: by a
/// reference to that variable with the color as it was written.
pub proof fn law_colors_replaced(
    src: Seq<char>,
    t: Seq<(Seq<char>, Seq<char>)>,
    found: Seq<Seq<Option<(usize, usize)>>>,
)
    requires
        forall|i: int| 0 <= i < found.len() ==> (#[trigger] found[i]).len() >= 2 && found[i][1] is Some,
    ensures
        forall|i: int|
            0 <= i < found.len() ==> ({
                let m = #[trigger] found[i];
                let hex = cut(src, (m[1]->0).0 as int, (m[1]->0).1 as int);
                variable_for(t, hex) matches Some(css) ==> color_plan(src, t, found).edits.contains(
                    EditView {
                        start: (m[0]->0).0 as int,
                        end: (m[0]->0).1 as int,
                        replacement: css_reference(css, hex),
                    },
                )
            }),
        forall|k: int|
            0 <= k < color_plan(src, t, found).edits.len() ==> is_color_edit(
                src,
                t,
                found,
                #[trigger] color_plan(src, t, found).edits[k],
            ),
    decreases found.len(),
{
    if found.len() > 0 {
        let (d, n) = (found.drop_last(), found.len() - 1);
        assert forall|i: int| 0 <= i < d.len() implies (#[trigger] d[i]).len() >= 2
            && d[i][1] is Some by {
            assert(d[i] == found[i]);
        }
        law_colors_replaced(src, t, d);
        let (before, all) = (color_plan(src, t, d).edits, color_plan(src, t, found).edits);
        assert(found[n].len() >= 2);
        assert forall|e: EditView| before.contains(e) implies #[trigger] all.contains(e) by {
            let k = choose|k: int| 0 <= k < before.len() && before[k] == e;
            assert(all[k] == e);
        }
        assert forall|i: int| 0 <= i < found.len() implies ({
            let m = #[trigger] found[i];
            let hex = cut(src, (m[1]->0).0 as int, (m[1]->0).1 as int);
            variable_for(t, hex) matches Some(css) ==> all.contains(
                EditView {
                    start: (m[0]->0).0 as int,
                    end: (m[0]->0).1 as int,
                    replacement: css_reference(css, hex),
                },
            )
        }) by {
            if i < n {
                assert(d[i] == found[i]);
            } else if all.len() > before.len() {
                assert(all[before.len() as int] == all.last());
            }
        }
        assert forall|k: int| 0 <= k < all.len() implies is_color_edit(
            src,
            t,
            found,
            #[trigger] all[k],
        ) by {
            if k < before.len() {
                assert(is_color_edit(src, t, d, before[k]));
                let i = choose|i: int|
                    0 <= i < d.len() && is_edit_of(src, t, #[trigger] d[i], before[k]);
                assert(is_edit_of(src, t, found[i], all[k]));
            } else {
                assert(is_edit_of(src, t, found[n], all[k]));
            }
        }
    }
}

/// The edit puts a reference to its variable in place of the color of a match.
pub open spec fn is_edit_of(
    src: Seq<char>,
    t: Seq<(Seq<char>, Seq<char>)>,
    m: Seq<Option<(usize, usize)>>,
    e: EditView,
) -> bool {
    let hex = cut(src, (m[1]->0).0 as int, (m[1]->0).1 as int);
    &&& e.start == (m[0]->0).0 && e.end == (m[0]->0).1
    &&& variable_for(t, hex) matches Some(css) && e.replacement == css_reference(css, hex)
}

/// The edit puts a reference in place of the color of one of the matches.
pub open spec fn is_color_edit(
    src: Seq<char>,
    t: Seq<(Seq<char>, Seq<char>)>,
    found: Seq<Seq<Option<(usize, usize)>>>,
    e: EditView,
) -> bool {
    exists|i: int| 0 <= i < found.len() && is_edit_of(src, t, #[trigger] found[i], e)
}

/// The digits of the color that a match is.
pub open spec fn matched_digits(src: Seq<char>, m: Seq<Option<(usize, usize)>>) -> Seq<char> {
    cut(src, (m[1]->0).0 as int, (m[1]->0).1 as int)
}

/// Each color is counted as often as it is replaced, however it was written.
pub proof fn law_counts_by_color(
    src: Seq<char>,
    t: Seq<(Seq<char>, Seq<char>)>,
    found: Seq<Seq<Option<(usize, usize)>>>,
    key: Seq<char>,
)
    requires
        found.len() <= u32::MAX,
        forall|i: int| 0 <= i < found.len() ==> (#[trigger] found[i]).len() >= 2 && found[i][1] is Some,
    ensures
        ({
            let n = found.filter(
                |m: Seq<Option<(usize, usize)>>|
                    variable_for(t, matched_digits(src, m)) is Some && six_digits(
                        matched_digits(src, m),
                    )
                        == Some(key),
            ).len();
            let counts = color_plan(src, t, found).by_hex;
            &&& ordered(counts)
            &&& n <= found.len()
            &&& n > 0 ==> lookup(counts, key) == Some(n as u32)
            &&& n == 0 ==> lookup(counts, key) is None
        }),
    decreases found.len(),
{
    reveal(Seq::filter);
    let f = |m: Seq<Option<(usize, usize)>>|
        variable_for(t, matched_digits(src, m)) is Some && six_digits(matched_digits(src, m))
            == Some(key);
    if found.len() > 0 {
        let (d, m) = (found.drop_last(), found.last());
        assert forall|i: int| 0 <= i < d.len() implies (#[trigger] d[i]).len() >= 2
            && d[i][1] is Some by {
            assert(d[i] == found[i]);
        }
        law_counts_by_color(src, t, d, key);
        assert(found[found.len() - 1].len() >= 2);
        if let Some(k) = six_digits(matched_digits(src, m)) {
            law_counted(color_plan(src, t, d).by_hex, k, key);
        }
    } else {
        lemma_slot(color_plan(src, t, found).by_hex, key, 0);
    }
}

} // verus!
