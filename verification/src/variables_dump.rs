//! Reading the color variables of a design out of the answer of the
//! `get_variable_defs` tool.
//!
//! The answer is JSON text. It is a list of variables, an object that holds
//! them under one of a few keys, or an object from names to colors.

use vstd::prelude::*;
use vstd::string::*;

use crate::channel::{channel, channel_byte, lemma_channel_range};
use crate::chars::{
    all_in, chars_of, is_hex_digit, law_trimmed_blank, replace_char, text_of, to_upper_text, trim,
    trim_start, trimmed, upper, uppered, with_char_replaced, without_head, CharSet,
};
use crate::colors::{
    all_hex, color_table, double, doubled, is_color, is_hex, law_six_digits,
    law_usable_entry_is_found, lemma_plain_color, six_digits, variable_for, variables_view,
    VariableEntry, VariableFile, VariableView,
};
use crate::content::{blocks_view, BlockView, ContentBlock};
use crate::json::{
    items_view, json_of_text, lemma_items_view, lemma_member_index, lemma_members_view, member,
    member_index, members_view, parse_json, text_of as json_text, Json, JsonNumber, JsonView,
};
use crate::text::same;

verus! {

// ---------------------------------------------------------------------------
// Colors
// ---------------------------------------------------------------------------

/// A color of three, six or eight digits as in `#RRGGBB`; the last two of
/// eight digits are dropped.
pub open spec fn hex_value(s: Seq<char>) -> Option<Seq<char>> {
    let t = without_head(s, CharSet::Only('#'));
    if !all_hex(t) {
        None
    } else if t.len() == 3 {
        Some("#"@ + uppered(doubled(t)))
    } else if t.len() == 6 {
        Some("#"@ + uppered(t))
    } else if t.len() == 8 {
        Some("#"@ + uppered(t.take(6)))
    } else {
        None
    }
}

/// A color of three, six or eight digits as in `#RRGGBB`.
pub fn parse_hex_string(s: &str) -> (res: Option<String>)
    ensures
        match res {
            Some(h) => hex_value(s@) == Some(h@),
            None => hex_value(s@) is None,
        },
{
    let digits = trim_start(s, &CharSet::Only('#'));
    let chars = chars_of(digits);
    if !is_hex(&chars) {
        return None;
    }
    let expanded: String = if chars.len() == 3 {
        double(&chars)
    } else if chars.len() == 6 {
        digits.to_string()
    } else if chars.len() == 8 {
        let head = text_of(&chars, 0, 6);
        assert(head@ =~= digits@.take(6));
        head
    } else {
        return None;
    };
    let mut res: String = "#".to_string();
    res.append(to_upper_text(expanded.as_str()).as_str());
    Some(res)
}

/// A hexadecimal digit in upper case.
pub open spec fn hex_digit(n: int) -> char {
    if n < 10 {
        ('0' as u8 + n) as char
    } else {
        ('A' as u8 + n - 10) as char
    }
}

/// A byte in two hexadecimal digits.
pub open spec fn hex_byte(b: int) -> Seq<char> {
    seq![hex_digit(b / 16), hex_digit(b % 16)]
}

fn digit_char(n: u8) -> (res: char)
    requires
        n < 16,
    ensures
        res == hex_digit(n as int),
{
    if n < 10 {
        ('0' as u8 + n) as char
    } else {
        ('A' as u8 + (n - 10)) as char
    }
}

/// The color of three channels, each given by the bits of a double.
pub open spec fn rgb_hex(rgb: (u64, u64, u64)) -> Seq<char> {
    "#"@ + hex_byte(channel(rgb.0)) + hex_byte(channel(rgb.1)) + hex_byte(channel(rgb.2))
}

fn append_byte(text: &mut String, b: u8)
    ensures
        final(text)@ == old(text)@ + hex_byte(b as int),
{
    let ghost before = text@;
    text.push(digit_char(b / 16));
    text.push(digit_char(b % 16));
    assert(text@ =~= before + hex_byte(b as int));
}

/// The color of three channels, each given by the bits of a double between
/// zero and one, as in `#RRGGBB`.
pub fn rgb_to_hex(rgb: (u64, u64, u64)) -> (res: String)
    ensures
        res@ == rgb_hex(rgb),
{
    let mut res: String = "#".to_string();
    append_byte(&mut res, channel_byte(rgb.0));
    append_byte(&mut res, channel_byte(rgb.1));
    append_byte(&mut res, channel_byte(rgb.2));
    res
}

/// The bits of the double that a value is.
pub open spec fn double_of(j: Option<JsonView>) -> Option<u64> {
    match j {
        Some(JsonView::Number(n)) => n.double,
        _ => None,
    }
}

/// The channels of an object with the members `r`, `g` and `b`.
pub open spec fn channels(j: JsonView) -> Option<(u64, u64, u64)> {
    match (
        double_of(member(j, "r"@)),
        double_of(member(j, "g"@)),
        double_of(member(j, "b"@)),
    ) {
        (Some(r), Some(g), Some(b)) => Some((r, g, b)),
        _ => None,
    }
}

fn number_at(j: &Json, key: &str) -> (res: Option<u64>)
    ensures
        res == double_of(member(j@, key@)),
{
    match j.get(key) {
        Some(Json::Number(n)) => n.double,
        _ => None,
    }
}

/// The channels of an object with the members `r`, `g` and `b`.
pub fn rgb_from(j: &Json) -> (res: Option<(u64, u64, u64)>)
    ensures
        res == channels(j@),
{
    match (number_at(j, "r"), number_at(j, "g"), number_at(j, "b")) {
        (Some(r), Some(g), Some(b)) => Some((r, g, b)),
        _ => None,
    }
}

/// The color that a value is: a text with its digits, or an object with its
/// channels.
pub open spec fn color_value(j: JsonView) -> Option<Seq<char>> {
    match j {
        JsonView::Text(t) => hex_value(t),
        JsonView::Object(_) => match channels(j) {
            Some(rgb) => Some(rgb_hex(rgb)),
            None => None,
        },
        _ => None,
    }
}

/// The first color among the members, from `i` on.
pub open spec fn first_color(members: Seq<(Seq<char>, JsonView)>, i: int) -> Option<Seq<char>>
    decreases members.len() - i,
{
    if i < 0 || i >= members.len() {
        None
    } else {
        match color_value(members[i].1) {
            Some(h) => Some(h),
            None => first_color(members, i + 1),
        }
    }
}

/// The color that the text of a member gives.
pub open spec fn text_color(j: JsonView, key: Seq<char>) -> Option<Seq<char>> {
    match json_text(member(j, key)) {
        Some(t) => hex_value(t),
        None => None,
    }
}

/// The color of a variable: given as text, by channels beside the other
/// members, by channels under `value`, or as the first of its modes.
pub open spec fn color_of(j: JsonView) -> Option<Seq<char>> {
    if text_color(j, "hex"@) is Some {
        text_color(j, "hex"@)
    } else if text_color(j, "value"@) is Some {
        text_color(j, "value"@)
    } else if text_color(j, "resolvedValue"@) is Some {
        text_color(j, "resolvedValue"@)
    } else if channels(j) is Some {
        Some(rgb_hex(channels(j)->0))
    } else if member(j, "value"@) is Some && channels(member(j, "value"@)->0) is Some {
        Some(rgb_hex(channels(member(j, "value"@)->0)->0))
    } else {
        match member(j, "valuesByMode"@) {
            Some(JsonView::Object(modes)) => first_color(modes, 0),
            _ => None,
        }
    }
}

fn text_color_at(j: &Json, key: &str) -> (res: Option<String>)
    ensures
        match res {
            Some(h) => text_color(j@, key@) == Some(h@),
            None => text_color(j@, key@) is None,
        },
{
    match j.get_text(key) {
        Some(t) => parse_hex_string(t),
        None => None,
    }
}

fn color_in(j: &Json) -> (res: Option<String>)
    ensures
        match res {
            Some(h) => color_value(j@) == Some(h@),
            None => color_value(j@) is None,
        },
{
    match j {
        Json::Text(t) => parse_hex_string(t.as_str()),
        Json::Object(_) => match rgb_from(j) {
            Some(rgb) => Some(rgb_to_hex(rgb)),
            None => None,
        },
        _ => None,
    }
}

/// The color of a variable.
pub fn extract_hex(j: &Json) -> (res: Option<String>)
    ensures
        match res {
            Some(h) => color_of(j@) == Some(h@),
            None => color_of(j@) is None,
        },
{
    if let Some(h) = text_color_at(j, "hex") {
        return Some(h);
    }
    if let Some(h) = text_color_at(j, "value") {
        return Some(h);
    }
    if let Some(h) = text_color_at(j, "resolvedValue") {
        return Some(h);
    }
    if let Some(rgb) = rgb_from(j) {
        return Some(rgb_to_hex(rgb));
    }
    if let Some(inner) = j.get("value") {
        if let Some(rgb) = rgb_from(inner) {
            return Some(rgb_to_hex(rgb));
        }
    }
    match j.get("valuesByMode") {
        Some(Json::Object(modes)) => {
            let n: usize = modes.len();
            let ghost all = members_view(*modes, n as nat);
            proof {
                lemma_members_view(*modes, n as nat);
                assert(color_of(j@) == first_color(all, 0));
            }
            let mut i: usize = 0;
            while i < n
                invariant
                    color_of(j@) == first_color(all, 0),
                    n == modes@.len(),
                    i <= n,
                    all.len() == n,
                    forall|k: int|
                        0 <= k < n ==> #[trigger] all[k] == (modes@[k].0@, modes@[k].1@),
                    first_color(all, 0) == first_color(all, i as int),
                decreases n - i,
            {
                assert(all[i as int].1 == modes@[i as int].1@);
                if let Some(h) = color_in(&modes[i].1) {
                    return Some(h);
                }
                i += 1;
            }
            None
        },
        _ => None,
    }
}

// ---------------------------------------------------------------------------
// Variables
// ---------------------------------------------------------------------------

/// The member `first`, or where there is none the member `second`.
pub open spec fn either(j: JsonView, first: Seq<char>, second: Seq<char>) -> Option<JsonView> {
    match member(j, first) {
        Some(v) => Some(v),
        None => member(j, second),
    }
}

fn get_either<'a>(j: &'a Json, first: &str, second: &str) -> (res: Option<&'a Json>)
    ensures
        match res {
            Some(v) => either(j@, first@, second@) == Some(v@),
            None => either(j@, first@, second@) is None,
        },
{
    match j.get(first) {
        Some(v) => Some(v),
        None => j.get(second),
    }
}

/// The value may be a color variable: it says nothing of its type, or that it
/// is a color.
pub open spec fn may_be_color(j: JsonView) -> bool {
    match json_text(either(j, "resolvedType"@, "type"@)) {
        Some(kind) => uppered(kind) == "COLOR"@,
        None => true,
    }
}

/// The value names its type, and that is none of a color. What is a color
/// itself is no type: it stands in a list of colors by name.
pub open spec fn names_other_type(j: JsonView) -> bool {
    match json_text(either(j, "resolvedType"@, "type"@)) {
        Some(kind) => uppered(kind) != "COLOR"@ && hex_value(kind) is None,
        None => false,
    }
}

/// The value has one of the members that hold the value of a variable.
pub open spec fn holds_value(j: JsonView) -> bool {
    ||| member(j, "hex"@) is Some
    ||| member(j, "value"@) is Some
    ||| member(j, "resolvedValue"@) is Some
    ||| member(j, "valuesByMode"@) is Some
    ||| channels(j) is Some
}

/// The value is a variable of another type than a color.
pub open spec fn is_other_variable(j: JsonView) -> bool {
    names_other_type(j) && holds_value(j)
}

/// The CSS variable of a variable: its code syntax for the web, in an object
/// of its own or flat.
pub open spec fn css_of(j: JsonView) -> Option<Seq<char>> {
    let nested = match member(j, "codeSyntax"@) {
        Some(cs) => json_text(either(cs, "WEB"@, "web"@)),
        None => None,
    };
    match nested {
        Some(css) => Some(css),
        None => json_text(either(j, "codeSyntaxWeb"@, "code_syntax_web"@)),
    }
}

/// The color variable that an object is.
pub open spec fn variable_of(j: JsonView) -> Option<VariableView> {
    match (j, color_of(j)) {
        (JsonView::Object(_), Some(hex)) => if may_be_color(j) {
            Some(
                VariableView { css: css_of(j), figma_name: json_text(member(j, "name"@)), hex },
            )
        } else {
            None
        },
        _ => None,
    }
}

fn owned(t: Option<&str>) -> (res: Option<String>)
    ensures
        match (res, t) {
            (Some(a), Some(b)) => a@ == b@,
            (None, None) => true,
            _ => false,
        },
{
    match t {
        Some(t) => Some(t.to_string()),
        None => None,
    }
}

/// Whether a value says nothing of its type, or that it is a color.
fn says_color(j: &Json) -> (res: bool)
    ensures
        res == may_be_color(j@),
{
    match get_either(j, "resolvedType", "type") {
        Some(kind) => match kind.as_text() {
            Some(kind) => same(to_upper_text(kind).as_str(), "COLOR"),
            None => true,
        },
        None => true,
    }
}

/// Whether a value is a variable of another type than a color.
fn is_other(j: &Json) -> (res: bool)
    ensures
        res == is_other_variable(j@),
{
    let named = match get_either(j, "resolvedType", "type") {
        Some(kind) => match kind.as_text() {
            Some(kind) => !same(to_upper_text(kind).as_str(), "COLOR") && parse_hex_string(
                kind,
            ).is_none(),
            None => false,
        },
        None => false,
    };
    named && (j.get("hex").is_some() || j.get("value").is_some() || j.get(
        "resolvedValue",
    ).is_some() || j.get("valuesByMode").is_some() || rgb_from(j).is_some())
}

/// The color variable that an object is.
pub fn variable_from(j: &Json) -> (res: Option<VariableEntry>)
    ensures
        match res {
            Some(v) => variable_of(j@) == Some(v@),
            None => variable_of(j@) is None,
        },
{
    match j {
        Json::Object(_) => {},
        _ => {
            return None;
        },
    }
    if !says_color(j) {
        return None;
    }
    let nested: Option<&str> = match j.get("codeSyntax") {
        Some(cs) => match get_either(cs, "WEB", "web") {
            Some(css) => css.as_text(),
            None => None,
        },
        None => None,
    };
    let css: Option<&str> = match nested {
        Some(css) => Some(css),
        None => match get_either(j, "codeSyntaxWeb", "code_syntax_web") {
            Some(css) => css.as_text(),
            None => None,
        },
    };
    match extract_hex(j) {
        None => None,
        Some(hex) => Some(
            VariableEntry { css: owned(css), figma_name: owned(j.get_text("name")), hex },
        ),
    }
}

// ---------------------------------------------------------------------------
// Names
// ---------------------------------------------------------------------------

/// What `str::to_lowercase` makes of a text.
pub uninterp spec fn lowercase(text: Seq<char>) -> Seq<char>;

/// `str::to_lowercase`: the text in lower case by the rules of Unicode, which
/// depend on the text alone.
pub assume_specification[ str::to_lowercase ](text: &str) -> (res: String)
    ensures
        res@ == lowercase(text@),
;

/// The CSS variable made from a name in lower case: its spaces become hyphens.
pub open spec fn css_variable(lower: Seq<char>) -> Seq<char> {
    "--"@ + with_char_replaced(lower, ' ', "-"@)
}

/// The CSS variable made from a name; nothing from a blank one.
pub open spec fn derived_css(name: Seq<char>) -> Option<Seq<char>> {
    if trimmed(name).len() == 0 {
        None
    } else {
        Some(css_variable(lowercase(name)))
    }
}

/// The CSS variable made from a name in lower case.
pub fn css_from_lowercase(lower: &str) -> (res: String)
    ensures
        res@ == css_variable(lower@),
{
    let mut res: String = "--".to_string();
    res.append(replace_char(lower, ' ', "-").as_str());
    res
}

/// The CSS variable made from the name of a variable:
/// `My Collection/Surface` becomes `--my-collection/surface`.
pub fn derive_css_from_name(name: &str) -> (res: Option<String>)
    ensures
        match res {
            Some(css) => derived_css(name@) == Some(css@),
            None => derived_css(name@) is None,
        },
{
    if trim(name).is_empty() {
        return None;
    }
    Some(css_from_lowercase(name.to_lowercase().as_str()))
}

// ---------------------------------------------------------------------------
// Collecting
// ---------------------------------------------------------------------------

/// Where an object holds variables: the first of the keys that it has.
pub open spec fn wrapper_index(members: Seq<(Seq<char>, JsonView)>) -> Option<int> {
    if member_index(members, "variables"@, 0) is Some {
        member_index(members, "variables"@, 0)
    } else if member_index(members, "colors"@, 0) is Some {
        member_index(members, "colors"@, 0)
    } else if member_index(members, "tokens"@, 0) is Some {
        member_index(members, "tokens"@, 0)
    } else if member_index(members, "items"@, 0) is Some {
        member_index(members, "items"@, 0)
    } else {
        member_index(members, "collections"@, 0)
    }
}

/// The variable that a member is: its key names it, where it says nothing
/// else.
pub open spec fn named_variable(key: Seq<char>, j: JsonView) -> Option<VariableView> {
    match j {
        JsonView::Text(t) => match hex_value(t) {
            Some(hex) => Some(
                VariableView { css: derived_css(key), figma_name: Some(key), hex },
            ),
            None => None,
        },
        JsonView::Object(_) => match variable_of(j) {
            Some(v) => Some(
                VariableView {
                    css: match v.css {
                        Some(css) => Some(css),
                        None => derived_css(key),
                    },
                    figma_name: match v.figma_name {
                        Some(name) => Some(name),
                        None => Some(key),
                    },
                    hex: v.hex,
                },
            ),
            None => None,
        },
        _ => None,
    }
}

/// The variables among the first `n` members.
pub open spec fn named_variables(members: Seq<(Seq<char>, JsonView)>, n: nat) -> Seq<VariableView>
    decreases n,
{
    if n == 0 || n > members.len() {
        Seq::empty()
    } else {
        let l = named_variables(members, (n - 1) as nat);
        match named_variable(members[n - 1].0, members[n - 1].1) {
            Some(v) => l.push(v),
            None => l,
        }
    }
}

/// The variables in a value: the one that an object is, those that it holds
/// under one of the keys, or those that it lists by their names. One that is a
/// variable of another type lists none.
pub open spec fn variables_in(j: JsonView) -> Seq<VariableView>
    decreases j, 0nat,
{
    match j {
        JsonView::Array(items) => variables_among(items, items.len()),
        JsonView::Object(members) => {
            proof {
                lemma_wrapper_index(members);
            }
            match variable_of(j) {
                Some(v) => seq![v],
                None => match wrapper_index(members) {
                    Some(i) => variables_in(members[i].1),
                    None => if is_other_variable(j) {
                        Seq::empty()
                    } else {
                        named_variables(members, members.len())
                    },
                },
            }
        },
        _ => Seq::empty(),
    }
}

/// The variables in the first `n` items: those that they are, and else those
/// that they hold.
pub open spec fn variables_among(items: Seq<JsonView>, n: nat) -> Seq<VariableView>
    decreases items, n,
{
    if n == 0 || n > items.len() {
        Seq::empty()
    } else {
        let l = variables_among(items, (n - 1) as nat);
        match variable_of(items[n - 1]) {
            Some(v) => l.push(v),
            None => l + variables_in(items[n - 1]),
        }
    }
}

pub proof fn lemma_wrapper_index(members: Seq<(Seq<char>, JsonView)>)
    ensures
        match wrapper_index(members) {
            Some(i) => 0 <= i < members.len(),
            None => true,
        },
{
    lemma_member_index(members, "variables"@, 0);
    lemma_member_index(members, "colors"@, 0);
    lemma_member_index(members, "tokens"@, 0);
    lemma_member_index(members, "items"@, 0);
    lemma_member_index(members, "collections"@, 0);
}

/// The member that holds the variables of an object.
fn wrapped<'a>(j: &'a Json) -> (res: Option<&'a Json>)
    ensures
        match res {
            Some(inner) => {
                &&& decreases_to!(*j => *inner)
                &&& j@ is Object
                &&& wrapper_index(j@->Object_0) is Some
                &&& inner@ == j@->Object_0[wrapper_index(j@->Object_0)->0].1
            },
            None => j@ is Object ==> wrapper_index(j@->Object_0) is None,
        },
{
    if let Some(inner) = j.get("variables") {
        return Some(inner);
    }
    if let Some(inner) = j.get("colors") {
        return Some(inner);
    }
    if let Some(inner) = j.get("tokens") {
        return Some(inner);
    }
    if let Some(inner) = j.get("items") {
        return Some(inner);
    }
    j.get("collections")
}

/// The variable that a member is.
fn variable_at(key: &str, j: &Json) -> (res: Option<VariableEntry>)
    ensures
        match res {
            Some(v) => named_variable(key@, j@) == Some(v@),
            None => named_variable(key@, j@) is None,
        },
{
    match j {
        Json::Text(t) => match parse_hex_string(t.as_str()) {
            Some(hex) => Some(
                VariableEntry {
                    css: derive_css_from_name(key),
                    figma_name: Some(key.to_string()),
                    hex,
                },
            ),
            None => None,
        },
        Json::Object(_) => match variable_from(j) {
            Some(v) => {
                let VariableEntry { css, figma_name, hex } = v;
                let css: Option<String> = match css {
                    Some(css) => Some(css),
                    None => derive_css_from_name(key),
                };
                let figma_name: Option<String> = match figma_name {
                    Some(name) => Some(name),
                    None => Some(key.to_string()),
                };
                Some(VariableEntry { css, figma_name, hex })
            },
            None => None,
        },
        _ => None,
    }
}

/// Add the variables in a value.
pub fn collect_variables(j: &Json, out: &mut Vec<VariableEntry>)
    ensures
        variables_view(final(out)@) == variables_view(old(out)@) + variables_in(j@),
    decreases *j,
{
    let ghost before = variables_view(out@);
    match j {
        Json::Array(items) => {
            let n: usize = items.len();
            let ghost all = items_view(*items, n as nat);
            proof {
                lemma_items_view(*items, n as nat);
                assert(variables_view(out@) =~= before + variables_among(all, 0));
            }
            let mut i: usize = 0;
            while i < n
                invariant
                    n == items@.len(),
                    i <= n,
                    *j is Array && j->Array_0 == *items,
                    all.len() == n,
                    forall|k: int| 0 <= k < n ==> #[trigger] all[k] == items@[k]@,
                    variables_view(out@) == before + variables_among(all, i as nat),
                decreases n - i,
            {
                let item = &items[i];
                let ghost so_far = variables_view(out@);
                assert(all[i as int] == item@);
                assert(*item == items[i as int]);
                match variable_from(item) {
                    Some(v) => {
                        out.push(v);
                        assert(variables_view(out@) =~= so_far.push(v@));
                    },
                    None => {
                        collect_variables(item, out);
                    },
                }
                i += 1;
                assert(variables_view(out@) =~= before + variables_among(all, i as nat));
            }
        },
        Json::Object(members) => {
            if let Some(v) = variable_from(j) {
                out.push(v);
                assert(variables_view(out@) =~= before + seq![v@]);
                return;
            }
            if let Some(inner) = wrapped(j) {
                collect_variables(inner, out);
                return;
            }
            if is_other(j) {
                assert(variables_view(out@) =~= before + Seq::<VariableView>::empty());
                return;
            }
            let n: usize = members.len();
            let ghost all = members_view(*members, n as nat);
            proof {
                lemma_members_view(*members, n as nat);
                assert(variables_view(out@) =~= before + named_variables(all, 0));
            }
            let mut i: usize = 0;
            while i < n
                invariant
                    n == members@.len(),
                    i <= n,
                    all.len() == n,
                    forall|k: int|
                        0 <= k < n ==> #[trigger] all[k] == (members@[k].0@, members@[k].1@),
                    variables_view(out@) == before + named_variables(all, i as nat),
                decreases n - i,
            {
                let m = &members[i];
                let ghost so_far = variables_view(out@);
                assert(all[i as int] == (m.0@, m.1@));
                if let Some(v) = variable_at(m.0.as_str(), &m.1) {
                    out.push(v);
                    assert(variables_view(out@) =~= so_far.push(v@));
                }
                i += 1;
                assert(variables_view(out@) =~= before + named_variables(all, i as nat));
            }
        },
        _ => {
            assert(variables_view(out@) =~= before + Seq::<VariableView>::empty());
        },
    }
}

// ---------------------------------------------------------------------------
// Answers
// ---------------------------------------------------------------------------

/// The values taken by view.
pub open spec fn values_view(l: Seq<Json>) -> Seq<JsonView> {
    l.map_values(|j: Json| j@)
}

/// The values of the text blocks that are JSON, as they come.
pub open spec fn values_of(blocks: Seq<BlockView>) -> Seq<JsonView>
    decreases blocks.len(),
{
    if blocks.len() == 0 {
        Seq::empty()
    } else {
        let l = values_of(blocks.drop_last());
        let b = blocks.last();
        if b.block_type == "text"@ && json_of_text(b.text) is Some {
            l.push(json_of_text(b.text)->0)
        } else {
            l
        }
    }
}

/// The variables in all the values.
pub open spec fn all_variables(values: Seq<JsonView>) -> Seq<VariableView>
    decreases values.len(),
{
    if values.len() == 0 {
        Seq::empty()
    } else {
        all_variables(values.drop_last()) + variables_in(values.last())
    }
}

/// No block of the answer is JSON.
#[derive(Debug)]
pub struct NoJson;

impl NoJson {
    pub fn message(&self) -> (res: String)
        ensures
            res@
                == "no parseable JSON in MCP `get_variable_defs` response (see *.raw.json)"@,
    {
        "no parseable JSON in MCP `get_variable_defs` response (see *.raw.json)".to_string()
    }
}

/// The values of the text blocks that are JSON.
pub fn parse_values(blocks: &Vec<ContentBlock>) -> (res: Vec<Json>)
    ensures
        values_view(res@) == values_of(blocks_view(blocks@)),
{
    let ghost all = blocks_view(blocks@);
    let mut res: Vec<Json> = Vec::new();
    let mut i: usize = 0;
    assert(values_view(res@) =~= values_of(all.take(0)));
    while i < blocks.len()
        invariant
            i <= blocks@.len(),
            all == blocks_view(blocks@),
            values_view(res@) == values_of(all.take(i as int)),
        decreases blocks@.len() - i,
    {
        let b = &blocks[i];
        let ghost before = values_view(res@);
        assert(all[i as int] == b@);
        assert(all.take(i + 1).drop_last() =~= all.take(i as int));
        if same(b.block_type.as_str(), "text") {
            if let Some(j) = parse_json(b.text.as_str()) {
                res.push(j);
                assert(values_view(res@) =~= before.push(j@));
            }
        }
        i += 1;
    }
    assert(all.take(i as int) =~= all);
    res
}

/// The variables in the values of an answer. It is an error where there are no
/// values at all.
pub fn variables_of(values: &Vec<Json>) -> (res: Result<Vec<VariableEntry>, NoJson>)
    ensures
        match res {
            Ok(l) => values@.len() > 0 && variables_view(l@) == all_variables(
                values_view(values@),
            ),
            Err(_) => values@.len() == 0,
        },
{
    if values.len() == 0 {
        return Err(NoJson);
    }
    let ghost all = values_view(values@);
    let mut res: Vec<VariableEntry> = Vec::new();
    let mut i: usize = 0;
    assert(variables_view(res@) =~= all_variables(all.take(0)));
    while i < values.len()
        invariant
            i <= values@.len(),
            all == values_view(values@),
            variables_view(res@) == all_variables(all.take(i as int)),
        decreases values@.len() - i,
    {
        assert(all[i as int] == values@[i as int]@);
        assert(all.take(i + 1).drop_last() =~= all.take(i as int));
        collect_variables(&values[i], &mut res);
        i += 1;
    }
    assert(all.take(i as int) =~= all);
    Ok(res)
}

/// The variables in the blocks of an answer. It is an error where no text
/// block is JSON.
pub fn parse_blocks(blocks: &Vec<ContentBlock>) -> (res: Result<Vec<VariableEntry>, NoJson>)
    ensures
        match res {
            Ok(l) => values_of(blocks_view(blocks@)).len() > 0 && variables_view(l@)
                == all_variables(values_of(blocks_view(blocks@))),
            Err(_) => values_of(blocks_view(blocks@)).len() == 0,
        },
{
    let values = parse_values(blocks);
    assert(values_view(values@).len() == values@.len());
    variables_of(&values)
}

// ---------------------------------------------------------------------------
// The file of variables
// ---------------------------------------------------------------------------

/// What is said at the top of the file.
pub const FILE_COMMENT: &'static str =
    "Auto-generated from Figma Variables via `figma-code-dl --dump-variables`. Do not edit by hand. Order matters: when multiple variables share a hex, the first entry wins.";

/// The file that holds the variables.
pub fn variable_file(variables: Vec<VariableEntry>, generated_at: String) -> (res: VariableFile)
    ensures
        res.comment is Some,
        res.comment->0@ == FILE_COMMENT@,
        res.generated_at == Some(generated_at),
        res.variables == variables,
{
    VariableFile {
        comment: Some(FILE_COMMENT.to_string()),
        generated_at: Some(generated_at),
        variables,
    }
}

/// How many variables were written, and where the answer itself was.
#[derive(Debug)]
pub struct DumpReport {
    pub variables_total: u32,
    pub variables_with_codesyntax: u32,
    pub raw_path: String,
}

/// The variable has a CSS variable that is not empty.
pub open spec fn has_css(v: VariableView) -> bool {
    match v.css {
        Some(css) => css.len() > 0,
        None => false,
    }
}

/// How many of the variables have a CSS variable.
pub open spec fn count_css(l: Seq<VariableView>) -> nat
    decreases l.len(),
{
    if l.len() == 0 {
        0
    } else {
        count_css(l.drop_last()) + if has_css(l.last()) {
            1nat
        } else {
            0
        }
    }
}

/// The counts for the variables, modulo 2^32.
pub fn summarize(variables: &Vec<VariableEntry>, raw_path: String) -> (res: DumpReport)
    ensures
        res.variables_total == variables@.len() % 0x1_0000_0000,
        res.variables_with_codesyntax == count_css(variables_view(variables@)) % 0x1_0000_0000,
        res.raw_path == raw_path,
{
    let ghost all = variables_view(variables@);
    let mut n: usize = 0;
    let mut i: usize = 0;
    while i < variables.len()
        invariant
            i <= variables@.len(),
            all == variables_view(variables@),
            n <= i,
            n == count_css(all.take(i as int)),
        decreases variables@.len() - i,
    {
        assert(all[i as int] == variables@[i as int]@);
        assert(all.take(i + 1).drop_last() =~= all.take(i as int));
        if let Some(css) = &variables[i].css {
            if !css.as_str().is_empty() {
                n += 1;
            }
        }
        i += 1;
    }
    assert(all.take(i as int) =~= all);
    DumpReport {
        variables_total: (variables.len() as u64 % 0x1_0000_0000) as u32,
        variables_with_codesyntax: (n as u64 % 0x1_0000_0000) as u32,
        raw_path,
    }
}

/// The name of the file beside another, given the name of that without its
/// extension: `foo` and `raw.json` give `foo.raw.json`. A file that has no
/// name counts as `variables`.
pub fn with_extra_extension(stem: Option<&str>, ext: &str) -> (res: String)
    ensures
        res@ == (match stem {
            Some(stem) => stem@,
            None => "variables"@,
        }) + "."@ + ext@,
{
    let mut res: String = match stem {
        Some(stem) => stem.to_string(),
        None => "variables".to_string(),
    };
    res.append(".");
    res.append(ext);
    res
}

// ---------------------------------------------------------------------------
// Laws
// ---------------------------------------------------------------------------

/// `#` and six hexadecimal digits in upper case.
pub open spec fn is_hash_color(hex: Seq<char>) -> bool {
    exists|c: Seq<char>| #[trigger] is_color(c) && hex == seq!['#'] + c
}

/// What is read as a color is one.
pub proof fn law_hex_value(s: Seq<char>)
    ensures
        match hex_value(s) {
            Some(h) => is_hash_color(h),
            None => true,
        },
{
    reveal_strlit("#");
    if hex_value(s) is Some {
        let t = without_head(s, CharSet::Only('#'));
        let u = if t.len() == 8 {
            t.take(6)
        } else {
            t
        };
        if t.len() == 8 {
            assert forall|i: int| 0 <= i < u.len() implies is_hex_digit(
                #[trigger] u[i],
            ) by {
                assert(u[i] == t[i]);
            }
        }
        assert(all_hex(u));
        assert(u.len() > 0 ==> is_hex_digit(u[0]));
        assert(without_head(u, CharSet::Only('#')) == u);
        law_six_digits(u);
        let c = six_digits(u)->0;
        assert(is_color(c) && hex_value(s)->0 =~= seq!['#'] + c);
    }
}

/// What comes of three channels is a color.
pub proof fn law_rgb_hex(rgb: (u64, u64, u64))
    ensures
        is_hash_color(rgb_hex(rgb)),
{
    reveal_strlit("#");
    lemma_channel_range(rgb.0);
    lemma_channel_range(rgb.1);
    lemma_channel_range(rgb.2);
    let c = hex_byte(channel(rgb.0)) + hex_byte(channel(rgb.1)) + hex_byte(channel(rgb.2));
    assert forall|n: int| 0 <= n < 16 implies is_hex_digit(#[trigger] hex_digit(n))
        && upper(hex_digit(n)) == hex_digit(n) by {}
    assert(uppered(c) =~= c);
    assert(is_color(c));
    assert(rgb_hex(rgb) =~= seq!['#'] + c);
}

proof fn lemma_first_color(members: Seq<(Seq<char>, JsonView)>, i: int)
    requires
        0 <= i,
    ensures
        first_color(members, i) is Some ==> is_hash_color(first_color(members, i)->0),
    decreases members.len() - i,
{
    if i < members.len() {
        lemma_color_value(members[i].1);
        lemma_first_color(members, i + 1);
    }
}

proof fn lemma_color_value(j: JsonView)
    ensures
        color_value(j) is Some ==> is_hash_color(color_value(j)->0),
{
    if let JsonView::Text(t) = j {
        law_hex_value(t);
    }
    if channels(j) is Some {
        law_rgb_hex(channels(j)->0);
    }
}

proof fn lemma_text_color(j: JsonView, key: Seq<char>)
    ensures
        text_color(j, key) is Some ==> is_hash_color(text_color(j, key)->0),
{
    if json_text(member(j, key)) is Some {
        law_hex_value(json_text(member(j, key))->0);
    }
}

proof fn lemma_variable_of(j: JsonView)
    ensures
        variable_of(j) is Some ==> is_hash_color(variable_of(j)->0.hex),
{
    lemma_text_color(j, "hex"@);
    lemma_text_color(j, "value"@);
    lemma_text_color(j, "resolvedValue"@);
    if channels(j) is Some {
        law_rgb_hex(channels(j)->0);
    }
    if member(j, "value"@) is Some && channels(member(j, "value"@)->0) is Some {
        law_rgb_hex(channels(member(j, "value"@)->0)->0);
    }
    if let Some(JsonView::Object(modes)) = member(j, "valuesByMode"@) {
        lemma_first_color(modes, 0);
    }
}

/// Every one of the variables has a color.
pub open spec fn all_colored(l: Seq<VariableView>) -> bool {
    forall|i: int| 0 <= i < l.len() ==> is_hash_color((#[trigger] l[i]).hex)
}

proof fn lemma_named_variables(members: Seq<(Seq<char>, JsonView)>, n: nat)
    ensures
        all_colored(named_variables(members, n)),
    decreases n,
{
    if 0 < n <= members.len() {
        lemma_named_variables(members, (n - 1) as nat);
        let j = members[n - 1].1;
        lemma_variable_of(j);
        if let JsonView::Text(t) = j {
            law_hex_value(t);
        }
    }
}

proof fn lemma_variables_among(items: Seq<JsonView>, n: nat)
    ensures
        all_colored(variables_among(items, n)),
    decreases items, n,
{
    if 0 < n <= items.len() {
        lemma_variables_among(items, (n - 1) as nat);
        lemma_variable_of(items[n - 1]);
        law_variables_are_colors(items[n - 1]);
    }
}

/// Whatever a value holds, the variables that are read from it have colors in
/// the form in which colors are looked up.
pub proof fn law_variables_are_colors(j: JsonView)
    ensures
        all_colored(variables_in(j)),
    decreases j, 0nat,
{
    match j {
        JsonView::Array(items) => {
            lemma_variables_among(items, items.len());
        },
        JsonView::Object(members) => {
            lemma_variable_of(j);
            lemma_wrapper_index(members);
            if variable_of(j) is None {
                match wrapper_index(members) {
                    Some(i) => {
                        law_variables_are_colors(members[i].1);
                    },
                    None => {
                        lemma_named_variables(members, members.len());
                    },
                }
            }
        },
        _ => {},
    }
}

/// A variable of another type than a color is no color variable, and gives
/// none: it gives only what it holds as a list of variables.
pub proof fn law_other_types_are_left_out(j: JsonView)
    requires
        is_other_variable(j),
    ensures
        variable_of(j) is None,
        j is Object && wrapper_index(j->Object_0) is None ==> variables_in(j) == Seq::<
            VariableView,
        >::empty(),
        variables_among(seq![j], 1) == variables_in(j),
{
    reveal_with_fuel(variables_among, 2);
    assert(variables_among(seq![j], 1) =~= variables_in(j));
}

/// A list of colors by name gives all of them, whatever it calls its type.
pub proof fn law_lists_by_name_are_read(members: Seq<(Seq<char>, JsonView)>)
    requires
        variable_of(JsonView::Object(members)) is None,
        wrapper_index(members) is None,
        !holds_value(JsonView::Object(members)),
    ensures
        variables_in(JsonView::Object(members)) == named_variables(members, members.len()),
{
}

/// A variable that is listed under a name has one.
pub proof fn law_listed_variables_have_names(key: Seq<char>, j: JsonView)
    ensures
        named_variable(key, j) is Some ==> named_variable(key, j)->0.figma_name is Some,
{
}

/// A color that was read is found again under its six digits, with `#` in
/// front or without.
pub proof fn law_read_colors_are_looked_up(hex: Seq<char>)
    requires
        is_hash_color(hex),
    ensures
        six_digits(hex) == Some(hex.skip(1)),
        six_digits(hex.skip(1)) == Some(hex.skip(1)),
{
    let c = choose|c: Seq<char>| #[trigger] is_color(c) && hex == seq!['#'] + c;
    assert(hex.skip(1) =~= c);
    lemma_plain_color(c);
}

proof fn lemma_all_colored(values: Seq<JsonView>)
    ensures
        all_colored(all_variables(values)),
    decreases values.len(),
{
    if values.len() > 0 {
        lemma_all_colored(values.drop_last());
        law_variables_are_colors(values.last());
    }
}

/// Every variable of an answer that has a CSS variable is used when colors are
/// replaced: its color has a variable, its own or that of one before it.
pub proof fn law_dumped_variables_are_used(values: Seq<JsonView>, i: int)
    requires
        0 <= i < all_variables(values).len(),
        has_css(all_variables(values)[i]),
    ensures
        variable_for(color_table(all_variables(values)), all_variables(values)[i].hex) is Some,
{
    let l = all_variables(values);
    lemma_all_colored(values);
    assert(is_hash_color(l[i].hex));
    law_read_colors_are_looked_up(l[i].hex);
    law_usable_entry_is_found(l, i);
}

/// Three or six digits are read as the color that they write. Of eight the last
/// two, which say how opaque it is, are dropped. `#` in front makes no
/// difference, and nothing else is read.
pub proof fn law_digits_read(s: Seq<char>)
    requires
        s.len() == 0 || s[0] != '#',
    ensures
        hex_value(seq!['#'] + s) == hex_value(s),
        s.len() == 3 || s.len() == 6 ==> hex_value(s) == (match six_digits(s) {
            Some(c) => Some("#"@ + c),
            None => None,
        }),
        s.len() == 8 && all_hex(s) ==> hex_value(s) == Some("#"@ + uppered(s.take(6))),
        hex_value(s) is Some <==> (s.len() == 3 || s.len() == 6 || s.len() == 8) && forall|i: int|
            0 <= i < s.len() ==> {
                let c = #[trigger] s[i];
                ('0' <= c && c <= '9') || ('a' <= c && c <= 'f') || ('A' <= c && c <= 'F')
            },
{
    let t = seq!['#'] + s;
    assert(t.drop_first() =~= s);
    assert(without_head(s, CharSet::Only('#')) == s);
}

/// The number that a hexadecimal digit in upper case stands for.
pub open spec fn digit_value(c: char) -> int {
    if '0' <= c && c <= '9' {
        c as int - '0' as int
    } else {
        c as int - 'A' as int + 10
    }
}

/// The two digits of a byte stand for it, and the digits of the channels come
/// in the order of red, green and blue.
pub proof fn law_channel_digits(rgb: (u64, u64, u64), n: int)
    requires
        0 <= n < 256,
    ensures
        hex_byte(n).len() == 2,
        16 * digit_value(hex_byte(n)[0]) + digit_value(hex_byte(n)[1]) == n,
        rgb_hex(rgb).len() == 7,
        rgb_hex(rgb)[0] == '#',
        rgb_hex(rgb).subrange(1, 3) == hex_byte(channel(rgb.0)),
        rgb_hex(rgb).subrange(3, 5) == hex_byte(channel(rgb.1)),
        rgb_hex(rgb).subrange(5, 7) == hex_byte(channel(rgb.2)),
{
    reveal_strlit("#");
    assert forall|d: int| 0 <= d < 16 implies digit_value(#[trigger] hex_digit(d)) == d by {}
    assert(digit_value(hex_digit(n / 16)) == n / 16);
    assert(digit_value(hex_digit(n % 16)) == n % 16);
    assert(rgb_hex(rgb).subrange(1, 3) =~= hex_byte(channel(rgb.0)));
    assert(rgb_hex(rgb).subrange(3, 5) =~= hex_byte(channel(rgb.1)));
    assert(rgb_hex(rgb).subrange(5, 7) =~= hex_byte(channel(rgb.2)));
}

/// Of the modes of a variable the first that has a color counts, wherever among
/// them it stands.
pub proof fn law_first_mode(modes: Seq<(Seq<char>, JsonView)>, k: int)
    requires
        0 <= k <= modes.len(),
        forall|j: int| 0 <= j < k ==> color_value((#[trigger] modes[j]).1) is None,
    ensures
        k < modes.len() && color_value(modes[k].1) is Some ==> first_color(modes, 0) == color_value(
            modes[k].1,
        ),
        k == modes.len() ==> first_color(modes, 0) is None,
{
    lemma_first_mode(modes, 0, k);
}

proof fn lemma_first_mode(modes: Seq<(Seq<char>, JsonView)>, i: int, k: int)
    requires
        0 <= i <= k <= modes.len(),
        forall|j: int| i <= j < k ==> color_value((#[trigger] modes[j]).1) is None,
    ensures
        first_color(modes, i) == first_color(modes, k),
    decreases k - i,
{
    if i < k {
        lemma_first_mode(modes, i + 1, k);
    }
}

/// Where the color of a variable is looked for: first as text under `hex`,
/// `value` and `resolvedValue`, then as channels beside the other members, then
/// as channels under `value`, and at last in the modes.
pub proof fn law_color_sources(j: JsonView)
    ensures
        ({
            let hex = text_color(j, "hex"@);
            let value = text_color(j, "value"@);
            let resolved = text_color(j, "resolvedValue"@);
            let inner = match member(j, "value"@) {
                Some(v) => channels(v),
                None => None,
            };
            &&& hex is Some ==> color_of(j) == hex
            &&& hex is None && value is Some ==> color_of(j) == value
            &&& hex is None && value is None && resolved is Some ==> color_of(j) == resolved
            &&& hex is None && value is None && resolved is None ==> {
                &&& channels(j) matches Some(rgb) ==> color_of(j) == Some(rgb_hex(rgb))
                &&& channels(j) is None && inner is Some ==> color_of(j) == Some(rgb_hex(inner->0))
                &&& channels(j) is None && inner is None ==> color_of(j) == (match member(
                    j,
                    "valuesByMode"@,
                ) {
                    Some(JsonView::Object(modes)) => first_color(modes, 0),
                    _ => None,
                })
            }
        }),
        forall|key: Seq<char>, t: Seq<char>|
            #![trigger text_color(j, key), hex_value(t)]
            member(j, key) == Some(JsonView::Text(t)) ==> text_color(j, key) == hex_value(t),
{
}

/// The channels of an object are the numbers of its members `r`, `g` and `b`.
/// Where one is missing or no number there are none.
pub proof fn law_channels(j: JsonView, r: JsonNumber, g: JsonNumber, b: JsonNumber)
    ensures
        member(j, "r"@) == Some(JsonView::Number(r)) && member(j, "g"@) == Some(
            JsonView::Number(g),
        ) && member(j, "b"@) == Some(JsonView::Number(b)) && r.double is Some && g.double is Some
            && b.double is Some ==> channels(j) == Some((r.double->0, g.double->0, b.double->0)),
        !(member(j, "r"@) matches Some(JsonView::Number(_))) ==> channels(j) is None,
        !(member(j, "g"@) matches Some(JsonView::Number(_))) ==> channels(j) is None,
        !(member(j, "b"@) matches Some(JsonView::Number(_))) ==> channels(j) is None,
{
}

/// What a variable says of itself: the CSS variable of its code syntax for the
/// web, its name, and its color.
pub proof fn law_variable_of(members: Seq<(Seq<char>, JsonView)>)
    ensures
        ({
            let j = JsonView::Object(members);
            &&& variable_of(j) matches Some(v) ==> color_of(j) == Some(v.hex)
            &&& variable_of(j) matches Some(v) ==> (member(j, "name"@) matches Some(
                JsonView::Text(name),
            ) ==> v.figma_name == Some(name))
            &&& variable_of(j) matches Some(v) ==> (member(j, "codeSyntax"@) is None && member(
                j,
                "codeSyntaxWeb"@,
            ) is None && member(j, "code_syntax_web"@) is None ==> v.css is None)
            &&& variable_of(j) matches Some(v) ==> (member(j, "codeSyntax"@) matches Some(cs) ==> (
            member(cs, "WEB"@) matches Some(JsonView::Text(css)) ==> v.css == Some(css)))
            &&& variable_of(j) matches Some(v) ==> (member(j, "codeSyntax"@) is None ==> (member(
                j,
                "codeSyntaxWeb"@,
            ) matches Some(JsonView::Text(css)) ==> v.css == Some(css)))
            &&& member(j, "resolvedType"@) is None && member(j, "type"@) is None && color_of(
                j,
            ) is Some ==> variable_of(j) is Some
            &&& color_of(j) is None ==> variable_of(j) is None
        }),
{
}

/// The items of a list are read one by one, in their order, each as if it stood
/// for itself.
pub proof fn law_lists_are_read(a: Seq<JsonView>, b: Seq<JsonView>, j: JsonView)
    ensures
        variables_in(JsonView::Array(a + b)) == variables_in(JsonView::Array(a)) + variables_in(
            JsonView::Array(b),
        ),
        variables_in(JsonView::Array(seq![j])) == variables_in(j),
{
    lemma_among_concat(a, b, b.len());
    reveal_with_fuel(variables_among, 2);
    assert(variables_among(seq![j], 1) =~= variables_in(j));
}

proof fn lemma_among_concat(a: Seq<JsonView>, b: Seq<JsonView>, n: nat)
    requires
        n <= b.len(),
    ensures
        variables_among(a + b, a.len() + n) == variables_among(a, a.len()) + variables_among(b, n),
    decreases n,
{
    if n == 0 {
        lemma_among_prefix(a, b, a.len());
        assert(variables_among(a, a.len()) + variables_among(b, 0) =~= variables_among(
            a,
            a.len(),
        ));
    } else {
        lemma_among_concat(a, b, (n - 1) as nat);
        assert((a + b)[a.len() + n - 1] == b[n - 1]);
        assert(variables_among(a + b, a.len() + n) =~= variables_among(a, a.len())
            + variables_among(b, n));
    }
}

proof fn lemma_among_prefix(a: Seq<JsonView>, b: Seq<JsonView>, n: nat)
    requires
        n <= a.len(),
    ensures
        variables_among(a + b, n) == variables_among(a, n),
    decreases n,
{
    if n > 0 {
        lemma_among_prefix(a, b, (n - 1) as nat);
        assert((a + b)[n - 1] == a[n - 1]);
    }
}

/// An object that is no variable itself gives what it holds under the first of
/// the keys that it has, whatever else it holds.
pub proof fn law_wrappers_are_read(members: Seq<(Seq<char>, JsonView)>)
    requires
        variable_of(JsonView::Object(members)) is None,
    ensures
        ({
            let j = JsonView::Object(members);
            let (v, c, t, i, l) = (
                member(j, "variables"@),
                member(j, "colors"@),
                member(j, "tokens"@),
                member(j, "items"@),
                member(j, "collections"@),
            );
            &&& v matches Some(inner) ==> variables_in(j) == variables_in(inner)
            &&& v is None ==> (c matches Some(inner) ==> variables_in(j) == variables_in(inner))
            &&& v is None && c is None ==> (t matches Some(inner) ==> variables_in(j)
                == variables_in(inner))
            &&& v is None && c is None && t is None ==> (i matches Some(inner) ==> variables_in(j)
                == variables_in(inner))
            &&& v is None && c is None && t is None && i is None ==> (l matches Some(inner)
                ==> variables_in(j) == variables_in(inner))
        }),
{
    lemma_wrapper_index(members);
}

/// The members of a list by name are read one by one, in their order: a text
/// that is a color under its key, an object as a variable that has the key for
/// its name where it has none; any other member gives nothing.
pub proof fn law_named_members(
    a: Seq<(Seq<char>, JsonView)>,
    b: Seq<(Seq<char>, JsonView)>,
    key: Seq<char>,
    j: JsonView,
)
    ensures
        named_variables(a + b, (a + b).len()) == named_variables(a, a.len()) + named_variables(
            b,
            b.len(),
        ),
        named_variables(seq![(key, j)], 1) == (match named_variable(key, j) {
            Some(v) => seq![v],
            None => Seq::empty(),
        }),
        j matches JsonView::Text(t) ==> (match hex_value(t) {
            Some(hex) => named_variable(key, j) == Some(
                VariableView { css: derived_css(key), figma_name: Some(key), hex },
            ),
            None => named_variable(key, j) is None,
        }),
        j is Object ==> (variable_of(j) matches Some(v) ==> {
            &&& named_variable(key, j) is Some
            &&& named_variable(key, j)->0.hex == v.hex
            &&& v.css is Some ==> named_variable(key, j)->0.css == v.css
            &&& v.css is None ==> named_variable(key, j)->0.css == derived_css(key)
            &&& v.figma_name is Some ==> named_variable(key, j)->0.figma_name == v.figma_name
            &&& v.figma_name is None ==> named_variable(key, j)->0.figma_name == Some(key)
        }),
        !(j is Text) && !(j is Object) ==> named_variable(key, j) is None,
{
    lemma_named_concat(a, b, b.len());
    reveal_with_fuel(named_variables, 2);
    assert(named_variables(seq![(key, j)], 1) =~= match named_variable(key, j) {
        Some(v) => seq![v],
        None => Seq::empty(),
    });
}

proof fn lemma_named_concat(
    a: Seq<(Seq<char>, JsonView)>,
    b: Seq<(Seq<char>, JsonView)>,
    n: nat,
)
    requires
        n <= b.len(),
    ensures
        named_variables(a + b, a.len() + n) == named_variables(a, a.len()) + named_variables(b, n),
    decreases n,
{
    if n == 0 {
        lemma_named_prefix(a, b, a.len());
        assert(named_variables(a, a.len()) + named_variables(b, 0) =~= named_variables(
            a,
            a.len(),
        ));
    } else {
        lemma_named_concat(a, b, (n - 1) as nat);
        assert((a + b)[a.len() + n - 1] == b[n - 1]);
        assert(named_variables(a + b, a.len() + n) =~= named_variables(a, a.len())
            + named_variables(b, n));
    }
}

proof fn lemma_named_prefix(
    a: Seq<(Seq<char>, JsonView)>,
    b: Seq<(Seq<char>, JsonView)>,
    n: nat,
)
    requires
        n <= a.len(),
    ensures
        named_variables(a + b, n) == named_variables(a, n),
    decreases n,
{
    if n > 0 {
        lemma_named_prefix(a, b, (n - 1) as nat);
        assert((a + b)[n - 1] == a[n - 1]);
    }
}

/// A CSS variable is made from a name by two hyphens in front and hyphens in
/// place of its spaces; slashes and all else stay. A blank name gives none.
pub proof fn law_css_variable(name: Seq<char>, lower: Seq<char>)
    ensures
        css_variable(lower).len() == lower.len() + 2,
        css_variable(lower)[0] == '-' && css_variable(lower)[1] == '-',
        forall|i: int|
            0 <= i < lower.len() ==> #[trigger] css_variable(lower)[i + 2] == (if lower[i] == ' ' {
                '-'
            } else {
                lower[i]
            }),
        all_in(name, CharSet::Whitespace) ==> derived_css(name) is None,
        derived_css(name) matches Some(css) ==> css == css_variable(lowercase(name)),
    decreases lower.len(),
{
    reveal_strlit("--");
    lemma_hyphens_for_spaces(lower);
    if all_in(name, CharSet::Whitespace) {
        law_trimmed_blank(name);
    }
    let r = with_char_replaced(lower, ' ', "-"@);
    assert forall|i: int| 0 <= i < lower.len() implies #[trigger] css_variable(lower)[i + 2] == (
    if lower[i] == ' ' {
        '-'
    } else {
        lower[i]
    }) by {
        assert(css_variable(lower)[i + 2] == r[i]);
    }
}

proof fn lemma_hyphens_for_spaces(s: Seq<char>)
    ensures
        with_char_replaced(s, ' ', "-"@).len() == s.len(),
        forall|i: int|
            0 <= i < s.len() ==> #[trigger] with_char_replaced(s, ' ', "-"@)[i] == (if s[i] == ' ' {
                '-'
            } else {
                s[i]
            }),
    decreases s.len(),
{
    reveal_strlit("-");
    if s.len() > 0 {
        let d = s.drop_last();
        lemma_hyphens_for_spaces(d);
        let (r, q) = (with_char_replaced(s, ' ', "-"@), with_char_replaced(d, ' ', "-"@));
        assert forall|i: int| 0 <= i < s.len() implies #[trigger] r[i] == (if s[i] == ' ' {
            '-'
        } else {
            s[i]
        }) by {
            if i < d.len() {
                assert(r[i] == q[i]);
            }
        }
    }
}

/// The blocks of an answer are read one by one, in their order: a block of text
/// that is JSON gives its value, and any other nothing.
pub proof fn law_blocks_are_read(a: Seq<BlockView>, b: Seq<BlockView>, block: BlockView)
    ensures
        values_of(a + b) == values_of(a) + values_of(b),
        block.block_type == "text"@ && json_of_text(block.text) is Some ==> values_of(seq![block])
            == seq![json_of_text(block.text)->0],
        block.block_type != "text"@ || json_of_text(block.text) is None ==> values_of(
            seq![block],
        ).len() == 0,
    decreases b.len(),
{
    assert(seq![block].drop_last() =~= Seq::empty());
    assert(values_of(seq![block].drop_last()) =~= Seq::empty());
    if block.block_type == "text"@ && json_of_text(block.text) is Some {
        assert(values_of(seq![block]) =~= seq![json_of_text(block.text)->0]);
    }
    if b.len() == 0 {
        assert(a + b =~= a);
        assert(values_of(a) + values_of(b) =~= values_of(a));
    } else {
        law_blocks_are_read(a, b.drop_last(), block);
        assert((a + b).drop_last() =~= a + b.drop_last());
        assert((a + b).last() == b.last());
        assert(values_of(a + b) =~= values_of(a) + values_of(b));
    }
}

/// The values of an answer are read one by one, in their order.
pub proof fn law_values_are_read(a: Seq<JsonView>, b: Seq<JsonView>, j: JsonView)
    ensures
        all_variables(a + b) == all_variables(a) + all_variables(b),
        all_variables(seq![j]) == variables_in(j),
    decreases b.len(),
{
    assert(seq![j].drop_last() =~= Seq::empty());
    assert(all_variables(seq![j].drop_last()) =~= Seq::empty());
    assert(all_variables(seq![j]) =~= variables_in(j));
    if b.len() == 0 {
        assert(a + b =~= a);
        assert(all_variables(a) + all_variables(b) =~= all_variables(a));
    } else {
        law_values_are_read(a, b.drop_last(), j);
        assert((a + b).drop_last() =~= a + b.drop_last());
        assert((a + b).last() == b.last());
        assert(all_variables(a + b) =~= all_variables(a) + all_variables(b));
    }
}

/// The variables with a CSS variable that is not empty are counted, and no
/// others.
pub proof fn law_count_css(l: Seq<VariableView>)
    ensures
        count_css(l) == l.filter(|v: VariableView| v.css is Some && v.css->0.len() > 0).len(),
    decreases l.len(),
{
    reveal(Seq::filter);
    if l.len() > 0 {
        law_count_css(l.drop_last());
    }
}

/// Where the CSS variable of a variable is looked for: in its code syntax under
/// `WEB`, else under `web`, and where that gives no text in the flat members.
pub proof fn law_css_sources(j: JsonView)
    requires
        variable_of(j) is Some,
    ensures
        ({
            let css = variable_of(j)->0.css;
            let (nested, flat, snake) = (
                member(j, "codeSyntax"@),
                member(j, "codeSyntaxWeb"@),
                member(j, "code_syntax_web"@),
            );
            &&& nested matches Some(cs) ==> {
                &&& member(cs, "WEB"@) matches Some(JsonView::Text(t)) ==> css == Some(t)
                &&& member(cs, "WEB"@) is None ==> (member(cs, "web"@) matches Some(
                    JsonView::Text(t),
                ) ==> css == Some(t))
            }
            &&& nested is None || (nested matches Some(cs) && member(cs, "WEB"@) is None && member(
                cs,
                "web"@,
            ) is None) ==> {
                &&& flat matches Some(JsonView::Text(t)) ==> css == Some(t)
                &&& flat is None ==> (snake matches Some(JsonView::Text(t)) ==> css == Some(t))
                &&& flat is None && snake is None ==> css is None
            }
        }),
{
}

/// What says that it is of another type is no color variable, even where it has
/// a color; the word for colors counts in any case of its letters.
pub proof fn law_types(members: Seq<(Seq<char>, JsonView)>, kind: Seq<char>)
    requires
        ({
            let j = JsonView::Object(members);
            ||| member(j, "resolvedType"@) == Some(JsonView::Text(kind))
            ||| member(j, "resolvedType"@) is None && member(j, "type"@) == Some(
                JsonView::Text(kind),
            )
        }),
    ensures
        ({
            let j = JsonView::Object(members);
            &&& uppered(kind) == "COLOR"@ ==> (variable_of(j) is Some <==> color_of(j) is Some)
            &&& uppered(kind) != "COLOR"@ ==> variable_of(j) is None
        }),
{
}

/// An object that is no variable and holds none under the known keys lists
/// colors by their names; unless it is a variable of another type, which lists
/// nothing. Texts, numbers and other plain values hold no variables.
pub proof fn law_listed_by_name(members: Seq<(Seq<char>, JsonView)>, j: JsonView)
    requires
        ({
            let o = JsonView::Object(members);
            &&& variable_of(o) is None
            &&& member(o, "variables"@) is None
            &&& member(o, "colors"@) is None
            &&& member(o, "tokens"@) is None
            &&& member(o, "items"@) is None
            &&& member(o, "collections"@) is None
        }),
    ensures
        ({
            let o = JsonView::Object(members);
            &&& member(o, "resolvedType"@) is None && member(o, "type"@) is None ==> variables_in(o)
                == named_variables(members, members.len())
            &&& member(o, "hex"@) is None && member(o, "value"@) is None && member(
                o,
                "resolvedValue"@,
            ) is None && member(o, "valuesByMode"@) is None && channels(o) is None ==> variables_in(
                o,
            ) == named_variables(members, members.len())
            &&& member(o, "resolvedType"@) matches Some(JsonView::Text(kind)) ==> (uppered(kind)
                != "COLOR"@ && hex_value(kind) is None && member(o, "value"@) is Some
                ==> variables_in(o).len() == 0)
        }),
        !(j is Array) && !(j is Object) ==> variables_in(j).len() == 0,
{
    lemma_wrapper_index(members);
}

/// The value of a mode is a color as text, or as the channels of an object;
/// anything else is none.
pub proof fn law_color_value(j: JsonView)
    ensures
        j matches JsonView::Text(t) ==> color_value(j) == hex_value(t),
        j is Object ==> (channels(j) matches Some(rgb) ==> color_value(j) == Some(rgb_hex(rgb))),
        j is Object && channels(j) is None ==> color_value(j) is None,
        !(j is Text) && !(j is Object) ==> color_value(j) is None,
{
}

} // verus!
