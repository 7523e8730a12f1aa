//! Which components of the code base stand for which instances of a design.

use vstd::prelude::*;
use vstd::string::*;

use crate::chars::{
    chars_of, is_alnum, is_ascii_char, is_digit, is_space, is_word_char, lower, lowered, to_upper,
    upper, word,
};
use crate::text::same;
use crate::text_map::{mapped, TextMap};

verus! {

/// The component that stands for an instance.
#[derive(Debug)]
pub struct Entry {
    /// Module path, as in `"@/components/ds/Switch"`.
    pub module: String,
    /// `"default"` for the default export, or the name of the export.
    pub export: String,
    /// The local identifier to bind under. Without it, the name of the export,
    /// or for the default export one made from the name of the instance.
    pub alias: Option<String>,
    /// Reserved: keep the children of the instance.
    pub preserve_children: bool,
}

/// Settings for the replacement.
#[derive(Debug, Clone, Copy)]
pub struct Options {
    /// Reserved: pass the `className` on to the component.
    pub pass_class_name: bool,
}

/// The components by the name of the instance and by its node id.
#[derive(Debug)]
pub struct InstanceMap {
    pub mappings: TextMap<Entry>,
    pub by_node_id: TextMap<Entry>,
    pub options: Options,
}

/// An entry as far as it decides what is replaced and imported.
pub struct EntryView {
    pub module: Seq<char>,
    pub export: Seq<char>,
    pub alias: Option<Seq<char>>,
}

/// The components by name and by node id, each in the order of the keys.
pub struct InstanceMapView {
    pub mappings: Seq<(Seq<char>, EntryView)>,
    pub by_node_id: Seq<(Seq<char>, EntryView)>,
}

impl View for Entry {
    type V = EntryView;

    open spec fn view(&self) -> EntryView {
        EntryView {
            module: self.module@,
            export: self.export@,
            alias: match self.alias {
                Some(a) => Some(a@),
                None => None,
            },
        }
    }
}

/// The view of an entry, as a function.
pub open spec fn entry_view() -> spec_fn(Entry) -> EntryView {
    |e: Entry| e@
}

impl View for InstanceMap {
    type V = InstanceMapView;

    open spec fn view(&self) -> InstanceMapView {
        InstanceMapView {
            mappings: mapped(self.mappings@, entry_view()),
            by_node_id: mapped(self.by_node_id@, entry_view()),
        }
    }
}

impl Default for Options {
    fn default() -> (res: Self)
        ensures
            res == (Options { pass_class_name: false }),
    {
        Options { pass_class_name: false }
    }
}

impl Default for InstanceMap {
    fn default() -> (res: Self)
        ensures
            res@.mappings.len() == 0,
            res@.by_node_id.len() == 0,
            res.options == (Options { pass_class_name: false }),
    {
        InstanceMap {
            mappings: TextMap::new(),
            by_node_id: TextMap::new(),
            options: Options { pass_class_name: false },
        }
    }
}

/// The local identifier that the component is bound under in place of the
/// instance `name`.
pub open spec fn binding(entry: EntryView, name: Seq<char>) -> Seq<char> {
    match entry.alias {
        Some(alias) => alias,
        None => if entry.export != "default"@ {
            entry.export
        } else {
            identifier(name)
        },
    }
}

impl InstanceMap {
    /// The local identifier to import the component under. A name can hold
    /// what no identifier can, so a default export without an alias is bound
    /// under an identifier made from the name.
    pub fn resolve_binding(entry: &Entry, data_name: &str) -> (res: String)
        ensures
            res@ == binding(entry@, data_name@),
    {
        if let Some(alias) = &entry.alias {
            return alias.clone();
        }
        if !same(entry.export.as_str(), "default") {
            return entry.export.clone();
        }
        sanitize_identifier(data_name)
    }
}

// ---------------------------------------------------------------------------
// Identifiers
// ---------------------------------------------------------------------------

/// A character after which a new word begins.
pub open spec fn separates(c: char) -> bool {
    c == '_' || c == '-' || c == '/' || is_space(c)
}

/// The ASCII letters and digits of a name, the first of each word in upper
/// case; and whether what follows begins a new word.
pub open spec fn words_of(name: Seq<char>) -> (Seq<char>, bool)
    decreases name.len(),
{
    if name.len() == 0 {
        (Seq::empty(), true)
    } else {
        let (out, begins) = words_of(name.drop_last());
        let c = name.last();
        if is_alnum(c) {
            (
                out.push(
                    if begins {
                        upper(c)
                    } else {
                        c
                    },
                ),
                false,
            )
        } else {
            (out, begins || separates(c))
        }
    }
}

/// A name holds a character outside ASCII.
pub open spec fn beyond_ascii(name: Seq<char>) -> bool {
    exists|i: int| 0 <= i < name.len() && !is_ascii_char(#[trigger] name[i])
}

/// The identifier made from a name. Where no letter or digit is left it is
/// `Comp` for a name with characters outside ASCII, and `_` for another; one
/// that would begin with a digit gets `_` in front.
pub open spec fn identifier(name: Seq<char>) -> Seq<char> {
    let out = words_of(name).0;
    if out.len() == 0 {
        if beyond_ascii(name) {
            "Comp"@
        } else {
            "_"@
        }
    } else if is_digit(out[0]) {
        "_"@ + out
    } else {
        out
    }
}

/// Turn a name into an identifier in Pascal case: `system/person_add` becomes
/// `SystemPersonAdd`; names outside ASCII collapse to `Comp`.
pub fn sanitize_identifier(name: &str) -> (res: String)
    ensures
        res@ == identifier(name@),
{
    let mut out: String = String::new();
    let mut next_upper = true;
    let mut foreign = false;
    let mut digit_first = false;
    let chars = chars_of(name);
    let mut i: usize = 0;
    while i < chars.len()
        invariant
            chars@ == name@,
            i <= chars@.len(),
            (out@, next_upper) == words_of(name@.take(i as int)),
            foreign == beyond_ascii(name@.take(i as int)),
            digit_first == (out@.len() > 0 && is_digit(out@[0])),
        decreases chars@.len() - i,
    {
        let c = chars[i];
        let ghost (before, after) = (name@.take(i as int), name@.take(i + 1));
        assert(after.drop_last() =~= before);
        assert(after.last() == c);
        let first = out.as_str().is_empty();
        if is_alnum(c) {
            if next_upper {
                out.push(to_upper(c));
            } else {
                out.push(c);
            }
            next_upper = false;
            if first {
                digit_first = is_digit(c);
            }
        } else if c == '_' || c == '-' || c == '/' || is_space(c) {
            next_upper = true;
        }
        proof {
            if foreign {
                let k = choose|k: int|
                    0 <= k < before.len() && !is_ascii_char(#[trigger] before[k]);
                assert(after[k] == before[k]);
            }
            assert(after[i as int] == c);
            if beyond_ascii(after) && is_ascii_char(c) {
                let k = choose|k: int|
                    0 <= k < after.len() && !is_ascii_char(#[trigger] after[k]);
                assert(before[k] == after[k]);
            }
        }
        if !is_ascii_char(c) {
            foreign = true;
        }
        i += 1;
    }
    assert(name@.take(i as int) =~= name@);
    if out.as_str().is_empty() {
        if foreign {
            return "Comp".to_string();
        }
        return "_".to_string();
    }
    if digit_first {
        let mut res: String = "_".to_string();
        res.append(out.as_str());
        return res;
    }
    out
}

/// A letter or `_`, then letters, digits and `_`.
pub open spec fn is_identifier(s: Seq<char>) -> bool {
    &&& s.len() > 0
    &&& !is_digit(s[0])
    &&& word(s)
}

proof fn lemma_words(name: Seq<char>)
    ensures
        forall|i: int| 0 <= i < words_of(name).0.len() ==> is_alnum(#[trigger] words_of(name).0[i]),
    decreases name.len(),
{
    if name.len() > 0 {
        lemma_words(name.drop_last());
        let (before, after) = (words_of(name.drop_last()).0, words_of(name).0);
        let c = name.last();
        assert(is_alnum(c) ==> is_alnum(upper(c)));
        assert forall|i: int| 0 <= i < after.len() implies is_alnum(#[trigger] after[i]) by {
            if i < before.len() {
                assert(after[i] == before[i]);
            }
        }
    }
}

/// Whatever the name, what comes of it is an identifier.
pub proof fn law_identifier(name: Seq<char>)
    ensures
        is_identifier(identifier(name)),
{
    lemma_words(name);
    reveal_strlit("Comp");
    reveal_strlit("_");
    let out = words_of(name).0;
    let res = identifier(name);
    assert forall|i: int| 0 <= i < res.len() implies is_word_char(#[trigger] res[i]) by {
        if out.len() > 0 && is_digit(out[0]) && i > 0 {
            assert(res[i] == out[i - 1]);
        }
    }
}

proof fn lemma_words_begin(name: Seq<char>)
    ensures
        words_of(name).0.len() == 0 ==> words_of(name).1,
        words_of(name).0.len() > 0 ==> upper(words_of(name).0[0]) == words_of(name).0[0],
    decreases name.len(),
{
    if name.len() > 0 {
        lemma_words_begin(name.drop_last());
        let before = words_of(name.drop_last()).0;
        if before.len() > 0 {
            assert(words_of(name).0[0] == before[0]);
        }
    }
}

/// Letters and digits that begin in upper case are one word, which stays as it
/// is, also behind `_`.
proof fn lemma_one_word(lead: Seq<char>, s: Seq<char>)
    requires
        words_of(lead) == (Seq::<char>::empty(), true),
        s.len() > 0,
        upper(s[0]) == s[0],
        forall|i: int| 0 <= i < s.len() ==> is_alnum(#[trigger] s[i]),
    ensures
        words_of(lead + s) == (s, false),
    decreases s.len(),
{
    let (d, c) = (s.drop_last(), s.last());
    assert((lead + s).drop_last() =~= lead + d);
    assert((lead + s).last() == c);
    assert(is_alnum(c));
    assert(s =~= d.push(c));
    if d.len() > 0 {
        assert(d[0] == s[0]);
        assert forall|i: int| 0 <= i < d.len() implies is_alnum(#[trigger] d[i]) by {
            assert(d[i] == s[i]);
        }
        lemma_one_word(lead, d);
    } else {
        assert(lead + d =~= lead);
    }
}

/// What is made of an identifier that was made of a name is that identifier.
pub proof fn law_identifier_twice(name: Seq<char>)
    ensures
        identifier(identifier(name)) == identifier(name),
{
    let out = words_of(name).0;
    lemma_words(name);
    lemma_words_begin(name);
    reveal_strlit("Comp");
    reveal_strlit("_");
    assert("_"@.drop_last() =~= Seq::empty());
    assert(words_of("_"@) == (Seq::<char>::empty(), true)) by {
        reveal_with_fuel(words_of, 2);
    }
    let none = Seq::<char>::empty();
    if out.len() == 0 {
        if beyond_ascii(name) {
            lemma_one_word(none, "Comp"@);
            assert(none + "Comp"@ =~= "Comp"@);
        } else {
            assert(is_ascii_char("_"@[0]));
        }
    } else if is_digit(out[0]) {
        lemma_one_word("_"@, out);
    } else {
        lemma_one_word(none, out);
        assert(none + out =~= out);
    }
}

/// The ASCII letters and digits of a text, as they come.
pub open spec fn letters(s: Seq<char>) -> Seq<char>
    decreases s.len(),
{
    if s.len() == 0 {
        Seq::empty()
    } else if is_alnum(s.last()) {
        letters(s.drop_last()).push(s.last())
    } else {
        letters(s.drop_last())
    }
}

proof fn lemma_words_letters(name: Seq<char>)
    ensures
        lowered(words_of(name).0) == lowered(letters(name)),
    decreases name.len(),
{
    if name.len() > 0 {
        let (d, c) = (name.drop_last(), name.last());
        lemma_words_letters(d);
        assert(lower(upper(c)) == lower(c));
        if is_alnum(c) {
            let w = words_of(name).0.last();
            assert(lowered(words_of(name).0) =~= lowered(words_of(d).0).push(lower(w)));
            assert(lowered(letters(name)) =~= lowered(letters(d)).push(lower(c)));
        }
    } else {
        assert(words_of(name).0 =~= letters(name));
    }
}

proof fn lemma_letters_only(lead: Seq<char>, s: Seq<char>)
    requires
        letters(lead).len() == 0,
        forall|i: int| 0 <= i < s.len() ==> is_alnum(#[trigger] s[i]),
    ensures
        letters(lead + s) == s,
    decreases s.len(),
{
    if s.len() > 0 {
        let d = s.drop_last();
        assert((lead + s).drop_last() =~= lead + d);
        assert((lead + s).last() == s.last());
        assert(is_alnum(s[s.len() - 1]));
        assert forall|i: int| 0 <= i < d.len() implies is_alnum(#[trigger] d[i]) by {
            assert(d[i] == s[i]);
        }
        lemma_letters_only(lead, d);
        assert(s =~= d.push(s.last()));
    } else {
        assert(lead + s =~= lead);
        assert(letters(lead) =~= s);
    }
}

/// The identifier holds the ASCII letters and digits of the name in their
/// order, up to case, wherever the name has any.
pub proof fn law_identifier_keeps_letters(name: Seq<char>)
    requires
        letters(name).len() > 0,
    ensures
        lowered(letters(identifier(name))) == lowered(letters(name)),
{
    let out = words_of(name).0;
    lemma_words(name);
    lemma_words_letters(name);
    assert(lowered(out).len() == lowered(letters(name)).len());
    reveal_strlit("_");
    assert("_"@.drop_last() =~= Seq::empty());
    assert(letters("_"@).len() == 0) by {
        reveal_with_fuel(letters, 2);
    }
    if is_digit(out[0]) {
        lemma_letters_only("_"@, out);
    } else {
        lemma_letters_only(Seq::empty(), out);
        assert(Seq::<char>::empty() + out =~= out);
    }
}

/// How a component is bound: under its alias; without one under the name of its
/// export; and the default export under an identifier made from the name.
pub proof fn law_binding(module: Seq<char>, export: Seq<char>, alias: Seq<char>, name: Seq<char>)
    ensures
        binding(EntryView { module, export, alias: Some(alias) }, name) == alias,
        export != "default"@ ==> binding(EntryView { module, export, alias: None }, name) == export,
        binding(EntryView { module, export: "default"@, alias: None }, name) == identifier(name),
{
}

/// A character that no identifier can hold starts a new word where it is a
/// space, `_`, `-` or `/`; any other is left out as if it were not there.
pub proof fn law_words_of_name(a: Seq<char>, c: char, b: Seq<char>)
    requires
        !is_alnum(c),
    ensures
        c == '_' || c == '-' || c == '/' || is_space(c) ==> words_of(a + seq![c] + b).0 == words_of(
            a,
        ).0 + words_of(b).0,
        !(c == '_' || c == '-' || c == '/' || is_space(c)) ==> words_of(a + seq![c] + b) == words_of(
            a + b,
        ),
    decreases b.len(),
{
    let (s, t) = (a + seq![c] + b, a + b);
    if b.len() == 0 {
        assert(s.drop_last() =~= a);
        assert(t =~= a);
        assert(words_of(a).0 + words_of(b).0 =~= words_of(a).0);
    } else {
        let d = b.drop_last();
        law_words_of_name(a, c, d);
        if separates(c) {
            lemma_begins(a, c, d);
        }
        assert(s.drop_last() =~= a + seq![c] + d);
        assert(t.drop_last() =~= a + d);
        assert(s.last() == b.last() && t.last() == b.last());
        if separates(c) {
            assert(words_of(s).0 =~= words_of(a).0 + words_of(b).0);
        }
    }
}

proof fn lemma_begins(a: Seq<char>, c: char, b: Seq<char>)
    requires
        !is_alnum(c),
        separates(c),
    ensures
        words_of(a + seq![c] + b).1 == words_of(b).1,
    decreases b.len(),
{
    let s = a + seq![c] + b;
    if b.len() == 0 {
        assert(s.drop_last() =~= a);
    } else {
        lemma_begins(a, c, b.drop_last());
        assert(s.drop_last() =~= a + seq![c] + b.drop_last());
        assert(s.last() == b.last());
    }
}

/// A word of ASCII letters and digits stays as it is, but that it begins in
/// upper case.
pub proof fn law_one_word_of_name(w: Seq<char>)
    requires
        w.len() > 0,
        forall|i: int| 0 <= i < w.len() ==> is_alnum(#[trigger] w[i]),
    ensures
        words_of(w).0 == seq![upper(w[0])] + w.skip(1),
        !is_digit(w[0]) ==> identifier(w) == seq![upper(w[0])] + w.skip(1),
        is_digit(w[0]) ==> identifier(w) == "_"@ + w,
    decreases w.len(),
{
    lemma_capitalised(w);
    let out = words_of(w).0;
    assert(is_alnum(w[0]));
    assert(out[0] == upper(w[0]));
    if is_digit(w[0]) {
        assert(seq![upper(w[0])] + w.skip(1) =~= w);
    } else {
        assert(!is_digit(upper(w[0])));
    }
}

proof fn lemma_capitalised(w: Seq<char>)
    requires
        w.len() > 0,
        forall|i: int| 0 <= i < w.len() ==> is_alnum(#[trigger] w[i]),
    ensures
        words_of(w) == (seq![upper(w[0])] + w.skip(1), false),
    decreases w.len(),
{
    let d = w.drop_last();
    assert(is_alnum(w[w.len() - 1]));
    if d.len() > 0 {
        assert forall|i: int| 0 <= i < d.len() implies is_alnum(#[trigger] d[i]) by {
            assert(d[i] == w[i]);
        }
        lemma_capitalised(d);
        assert(words_of(w).0 =~= seq![upper(w[0])] + w.skip(1));
    } else {
        assert(words_of(d) == (Seq::<char>::empty(), true));
        assert(words_of(w).0 =~= seq![upper(w[0])] + w.skip(1));
    }
}

/// A name without ASCII letters and digits is called `Comp` where it has a
/// character beyond ASCII, and `_` where it has none.
pub proof fn law_name_without_letters(name: Seq<char>)
    requires
        forall|i: int| 0 <= i < name.len() ==> !is_alnum(#[trigger] name[i]),
    ensures
        (exists|i: int| 0 <= i < name.len() && #[trigger] name[i] > '\u{7f}') ==> identifier(name)
            == "Comp"@,
        (forall|i: int| 0 <= i < name.len() ==> #[trigger] name[i] <= '\u{7f}') ==> identifier(name)
            == "_"@,
{
    lemma_no_letters(name);
    if exists|i: int| 0 <= i < name.len() && #[trigger] name[i] > '\u{7f}' {
        let i = choose|i: int| 0 <= i < name.len() && #[trigger] name[i] > '\u{7f}';
        assert(!is_ascii_char(name[i]));
    }
}

proof fn lemma_no_letters(name: Seq<char>)
    requires
        forall|i: int| 0 <= i < name.len() ==> !is_alnum(#[trigger] name[i]),
    ensures
        words_of(name).0.len() == 0,
    decreases name.len(),
{
    if name.len() > 0 {
        let d = name.drop_last();
        assert forall|i: int| 0 <= i < d.len() implies !is_alnum(#[trigger] d[i]) by {
            assert(d[i] == name[i]);
        }
        lemma_no_letters(d);
        assert(!is_alnum(name[name.len() - 1]));
    }
}

} // verus!
