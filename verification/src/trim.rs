//! Making the code smaller: redundant classes and attributes are taken out,
//! and the space that they leave is closed up.

use vstd::prelude::*;
use vstd::string::*;

use crate::chars::{
    all_in, has_prefix, is_plain_word, join, joined, law_without_head, law_words,
    law_words_of_joined, lemma_joined_weight, lemma_next_line, lemma_words_weight, lines_from,
    next_line, split_lines, split_words, starts_with, trim_start, views, weight, without_head,
    words_from, CharSet,
};
use crate::pattern::{
    are_matches, are_shaped, attribute_pattern, compiles, escape, groups_of, has_shape, is_match,
    known_matches, matches_of, regex_matches, CLASS_NAME, Groups, LONGEST_NAME,
    SPACED_SELF_CLOSING_TAG, SPACED_TAG, SPACES,
};
use crate::substitute::{
    copies, group, group_text, law_one_substituted, law_substituted_not_longer, substitute,
    substitute_all, substituted,
};
use crate::text::{
    bytes_of, lemma_ascii_text, lemma_cut, lemma_cut_all, lemma_utf8_concat, lemma_utf8_len, same,
    utf8,
};
use crate::text_map::{count_more, count_up, lemma_count_more, one_more};

verus! {

/// What to take out.
#[derive(Debug)]
pub struct TrimConfig {
    /// Classes taken out where they stand as a whole word.
    pub exclude_exact: Vec<String>,
    /// Classes taken out where they start with one of these.
    pub exclude_prefixes: Vec<String>,
    /// Take the attribute out too where no class is left.
    pub drop_empty_classname: bool,
    /// Attributes taken out, in the form `name="..."`.
    pub strip_attributes: Vec<String>,
}

/// The configuration with its texts taken by view.
pub struct TrimConfigView {
    pub exclude_exact: Seq<Seq<char>>,
    pub exclude_prefixes: Seq<Seq<char>>,
    pub drop_empty_classname: bool,
    pub strip_attributes: Seq<Seq<char>>,
}

impl View for TrimConfig {
    type V = TrimConfigView;

    open spec fn view(&self) -> TrimConfigView {
        TrimConfigView {
            exclude_exact: views(self.exclude_exact@),
            exclude_prefixes: views(self.exclude_prefixes@),
            drop_empty_classname: self.drop_empty_classname,
            strip_attributes: views(self.strip_attributes@),
        }
    }
}

impl Default for TrimConfig {
    fn default() -> (res: Self)
        ensures
            res.exclude_exact@.len() == 0,
            res.exclude_prefixes@.len() == 0,
            res.drop_empty_classname,
            res.strip_attributes@.len() == 0,
    {
        TrimConfig {
            exclude_exact: Vec::new(),
            exclude_prefixes: Vec::new(),
            drop_empty_classname: true,
            strip_attributes: Vec::new(),
        }
    }
}

// ---------------------------------------------------------------------------
// Classes
// ---------------------------------------------------------------------------

/// A class is to be taken out: it is one of the classes given, or starts with
/// one of the prefixes. An empty prefix counts for nothing.
pub open spec fn excluded(cfg: TrimConfigView, class: Seq<char>) -> bool {
    ||| cfg.exclude_exact.contains(class)
    ||| exists|i: int|
        0 <= i < cfg.exclude_prefixes.len() && cfg.exclude_prefixes[i].len() > 0 && starts_with(
            class,
            #[trigger] cfg.exclude_prefixes[i],
        )
}

/// The classes that stay, as they come.
pub open spec fn kept(cfg: TrimConfigView, classes: Seq<Seq<char>>) -> Seq<Seq<char>>
    decreases classes.len(),
{
    if classes.len() == 0 {
        Seq::empty()
    } else if excluded(cfg, classes.last()) {
        kept(cfg, classes.drop_last())
    } else {
        kept(cfg, classes.drop_last()).push(classes.last())
    }
}

/// The attribute for the classes of `value` that stay.
pub open spec fn class_attribute(cfg: TrimConfigView, value: Seq<char>) -> Seq<char> {
    let classes = kept(cfg, words_from(value, 0));
    if classes.len() > 0 {
        "className=\""@ + joined(classes, " "@) + "\""@
    } else if cfg.drop_empty_classname {
        Seq::empty()
    } else {
        "className=\"\""@
    }
}

/// What stands in place of each class attribute.
pub open spec fn class_attributes(
    src: Seq<char>,
    cfg: TrimConfigView,
    found: Seq<Seq<Option<(usize, usize)>>>,
) -> Seq<Seq<char>> {
    Seq::new(found.len(), |i: int| class_attribute(cfg, group(src, found[i], 1)))
}

/// How many classes are taken out.
pub open spec fn classes_removed(
    src: Seq<char>,
    cfg: TrimConfigView,
    found: Seq<Seq<Option<(usize, usize)>>>,
) -> int
    decreases found.len(),
{
    if found.len() == 0 {
        0
    } else {
        let classes = words_from(group(src, found.last(), 1), 0);
        classes_removed(src, cfg, found.drop_last()) + classes.len() - kept(cfg, classes).len()
    }
}

/// How many class attributes are taken out.
pub open spec fn attributes_dropped(
    src: Seq<char>,
    cfg: TrimConfigView,
    found: Seq<Seq<Option<(usize, usize)>>>,
) -> int
    decreases found.len(),
{
    if found.len() == 0 {
        0
    } else {
        attributes_dropped(src, cfg, found.drop_last()) + if cfg.drop_empty_classname && kept(
            cfg,
            words_from(group(src, found.last(), 1), 0),
        ).len() == 0 {
            1int
        } else {
            0
        }
    }
}

proof fn lemma_kept_weight(cfg: TrimConfigView, classes: Seq<Seq<char>>)
    ensures
        weight(kept(cfg, classes)) <= weight(classes),
    decreases classes.len(),
{
    if classes.len() > 0 {
        let k = kept(cfg, classes.drop_last());
        lemma_kept_weight(cfg, classes.drop_last());
        if !excluded(cfg, classes.last()) {
            assert(k.push(classes.last()).drop_last() =~= k);
        }
    }
}

/// The attribute for the classes that stay is not longer than the one that it
/// stands for.
proof fn lemma_class_attribute_not_longer(cfg: TrimConfigView, value: Seq<char>)
    ensures
        utf8(class_attribute(cfg, value)).len() <= utf8(
            "className=\""@ + value + "\""@,
        ).len(),
{
    let classes = kept(cfg, words_from(value, 0));
    reveal_strlit("className=\"");
    reveal_strlit("\"");
    reveal_strlit("className=\"\"");
    lemma_ascii_text("className=\""@);
    lemma_ascii_text("\""@);
    lemma_ascii_text("className=\"\""@);
    lemma_utf8_concat("className=\""@, value);
    lemma_utf8_concat("className=\""@ + value, "\""@);
    lemma_utf8_len(Seq::<char>::empty());
    if classes.len() > 0 {
        let text = joined(classes, " "@);
        lemma_joined_weight(classes);
        lemma_kept_weight(cfg, words_from(value, 0));
        lemma_words_weight(value, 0);
        assert(value.skip(0) =~= value);
        lemma_utf8_concat("className=\""@, text);
        lemma_utf8_concat("className=\""@ + text, "\""@);
    }
}

/// Filtering the classes does not make the text longer.
pub proof fn law_filtered_not_longer(
    src: Seq<char>,
    cfg: TrimConfigView,
    found: Seq<Seq<Option<(usize, usize)>>>,
)
    requires
        are_matches(src, found),
        are_shaped(CLASS_NAME@, src, found),
    ensures
        utf8(substituted(src, found, class_attributes(src, cfg, found))).len() <= utf8(src).len(),
{
    let texts = class_attributes(src, cfg, found);
    assert forall|i: int| 0 <= i < found.len() implies utf8(#[trigger] texts[i]).len() <= (
    found[i][0]->0).1 - (found[i][0]->0).0 by {
        assert(is_match(src, found[i]));
        assert(has_shape(CLASS_NAME@, src, found[i]));
        assert(found[i][0] is Some);
        lemma_class_attribute_not_longer(cfg, group(src, found[i], 1));
        lemma_cut(src, (found[i][0]->0).0 as int, (found[i][0]->0).1 as int);
    }
    law_substituted_not_longer(src, found, texts);
}

fn is_excluded(cfg: &TrimConfig, class: &str) -> (res: bool)
    ensures
        res == excluded(cfg@, class@),
{
    let mut i: usize = 0;
    while i < cfg.exclude_exact.len()
        invariant
            i <= cfg.exclude_exact@.len(),
            forall|k: int| 0 <= k < i ==> #[trigger] cfg@.exclude_exact[k] != class@,
        decreases cfg.exclude_exact@.len() - i,
    {
        assert(cfg@.exclude_exact[i as int] == cfg.exclude_exact@[i as int]@);
        if same(cfg.exclude_exact[i].as_str(), class) {
            return true;
        }
        i += 1;
    }
    let mut j: usize = 0;
    while j < cfg.exclude_prefixes.len()
        invariant
            j <= cfg.exclude_prefixes@.len(),
            !cfg@.exclude_exact.contains(class@),
            forall|k: int|
                0 <= k < j && cfg@.exclude_prefixes[k].len() > 0 ==> !starts_with(
                    class@,
                    #[trigger] cfg@.exclude_prefixes[k],
                ),
        decreases cfg.exclude_prefixes@.len() - j,
    {
        let prefix = cfg.exclude_prefixes[j].as_str();
        assert(cfg@.exclude_prefixes[j as int] == prefix@);
        if !prefix.is_empty() && has_prefix(class, prefix) {
            return true;
        }
        j += 1;
    }
    false
}

/// One more, modulo 2^32.
proof fn lemma_one_more(n: int)
    requires
        0 <= n,
    ensures
        one_more((n % 0x1_0000_0000) as u32) == (n + 1) % 0x1_0000_0000,
{
}

/// The classes that stay, and the count of those taken out added to `removed`.
fn keep_classes(cfg: &TrimConfig, classes: &Vec<String>, removed: u32) -> (res: (Vec<String>, u32))
    ensures
        views(res.0@) == kept(cfg@, views(classes@)),
        res.1 == (removed + classes@.len() - res.0@.len()) % 0x1_0000_0000,
        res.0@.len() <= classes@.len(),
{
    let ghost all = views(classes@);
    let mut res: Vec<String> = Vec::new();
    let mut count: u32 = removed;
    let mut i: usize = 0;
    assert(views(res@) =~= kept(cfg@, all.take(0)));
    while i < classes.len()
        invariant
            i <= classes@.len(),
            all == views(classes@),
            views(res@) == kept(cfg@, all.take(i as int)),
            res@.len() <= i,
            count == (removed + i - res@.len()) % 0x1_0000_0000,
        decreases classes@.len() - i,
    {
        let class = &classes[i];
        let ghost before = views(res@);
        assert(all[i as int] == class@);
        assert(all.take(i + 1).drop_last() =~= all.take(i as int));
        if is_excluded(cfg, class.as_str()) {
            proof {
                lemma_one_more(removed + i - res@.len());
            }
            count = count_up(count);
        } else {
            res.push(class.clone());
            assert(views(res@) =~= before.push(class@));
        }
        i += 1;
    }
    assert(all.take(i as int) =~= all);
    (res, count)
}

fn class_attribute_text(cfg: &TrimConfig, classes: &Vec<String>) -> (res: String)
    ensures
        res@ == (if classes@.len() > 0 {
            "className=\""@ + joined(views(classes@), " "@) + "\""@
        } else if cfg.drop_empty_classname {
            Seq::empty()
        } else {
            "className=\"\""@
        }),
{
    if classes.len() > 0 {
        let mut res: String = "className=\"".to_string();
        res.append(join(classes, " ").as_str());
        res.append("\"");
        res
    } else if cfg.drop_empty_classname {
        let res: String = String::new();
        assert(res@ =~= Seq::empty());
        res
    } else {
        "className=\"\"".to_string()
    }
}

/// Take the classes out of the class attributes that were found. With the
/// text come the counts of the classes and of the attributes taken out, modulo
/// 2^32.
pub fn filter_classes(src: &str, cfg: &TrimConfig, found: &Vec<Groups>) -> (res: (
    String,
    u32,
    u32,
))
    requires
        are_matches(src@, groups_of(found@)),
    ensures
        res.0@ == substituted(
            src@,
            groups_of(found@),
            class_attributes(src@, cfg@, groups_of(found@)),
        ),
        res.1 == classes_removed(src@, cfg@, groups_of(found@)) % 0x1_0000_0000,
        res.2 == attributes_dropped(src@, cfg@, groups_of(found@)) % 0x1_0000_0000,
{
    let ghost all = groups_of(found@);
    let ghost wanted = class_attributes(src@, cfg@, all);
    let mut texts: Vec<String> = Vec::new();
    let mut removed: u32 = 0;
    let mut dropped: u32 = 0;
    let mut i: usize = 0;
    assert(views(texts@) =~= wanted.take(0));
    while i < found.len()
        invariant
            i <= found@.len(),
            all == groups_of(found@),
            are_matches(src@, all),
            wanted == class_attributes(src@, cfg@, all),
            views(texts@) == wanted.take(i as int),
            0 <= classes_removed(src@, cfg@, all.take(i as int)),
            0 <= attributes_dropped(src@, cfg@, all.take(i as int)),
            removed == classes_removed(src@, cfg@, all.take(i as int)) % 0x1_0000_0000,
            dropped == attributes_dropped(src@, cfg@, all.take(i as int)) % 0x1_0000_0000,
        decreases found@.len() - i,
    {
        let m = &found[i];
        let ghost before = views(texts@);
        let ghost n = classes_removed(src@, cfg@, all.take(i as int));
        assert(all[i as int] == m@);
        assert(is_match(src@, m@));
        assert(all.take(i + 1).drop_last() =~= all.take(i as int));
        let classes = split_words(group_text(src, m, 1));
        assert(views(classes@).len() == classes@.len());
        let (stay, count) = keep_classes(cfg, &classes, removed);
        assert(views(stay@).len() == stay@.len());
        proof {
            lemma_count_more(n, classes@.len() - stay@.len());
        }
        removed = count;
        if stay.len() == 0 && cfg.drop_empty_classname {
            proof {
                lemma_one_more(attributes_dropped(src@, cfg@, all.take(i as int)));
            }
            dropped = count_up(dropped);
        }
        let text = class_attribute_text(cfg, &stay);
        texts.push(text);
        assert(text@ == wanted[i as int]);
        i += 1;
        assert(views(texts@) =~= before.push(text@));
        assert(views(texts@) =~= wanted.take(i as int));
    }
    assert(all.take(i as int) =~= all);
    assert(views(texts@) =~= wanted);
    assert(views(texts@).len() == texts@.len());
    (substitute(src, found, &texts), removed, dropped)
}

// ---------------------------------------------------------------------------
// Attributes
// ---------------------------------------------------------------------------

/// The text without the matches.
pub open spec fn without_matches(text: Seq<char>, found: Seq<Seq<Option<(usize, usize)>>>) -> Seq<
    char,
> {
    substituted(text, found, copies(found.len(), Seq::empty()))
}

/// The text without the attributes, taken out one name after the other; and
/// how many were taken out. An empty name counts for nothing.
pub open spec fn without_attributes(text: Seq<char>, names: Seq<Seq<char>>) -> (Seq<char>, nat)
    decreases names.len(),
{
    if names.len() == 0 {
        (text, 0)
    } else {
        let (t, n) = without_attributes(text, names.drop_last());
        if names.last().len() == 0 {
            (t, n)
        } else {
            let found = regex_matches(attribute_pattern(names.last()), t);
            (without_matches(t, found), n + found.len())
        }
    }
}

/// Taking matches out does not make the text longer.
pub proof fn law_removed_not_longer(
    text: Seq<char>,
    found: Seq<Seq<Option<(usize, usize)>>>,
)
    requires
        are_matches(text, found),
    ensures
        utf8(without_matches(text, found)).len() <= utf8(text).len(),
{
    let texts = copies(found.len(), Seq::<char>::empty());
    lemma_utf8_len(Seq::<char>::empty());
    assert forall|i: int| 0 <= i < found.len() implies utf8(#[trigger] texts[i]).len() <= (
    found[i][0]->0).1 - (found[i][0]->0).0 by {
        assert(is_match(text, found[i]));
        assert(found[i][0] is Some);
    }
    law_substituted_not_longer(text, found, texts);
}

/// The first of the names that is not empty and whose pattern does not
/// compile.
pub open spec fn first_without_pattern(names: Seq<Seq<char>>) -> Option<Seq<char>>
    decreases names.len(),
{
    if names.len() == 0 {
        None
    } else {
        match first_without_pattern(names.drop_last()) {
            Some(name) => Some(name),
            None => if names.last().len() > 0 && !compiles(attribute_pattern(names.last())) {
                Some(names.last())
            } else {
                None
            },
        }
    }
}

proof fn lemma_first_without_pattern(names: Seq<Seq<char>>, i: int)
    requires
        0 <= i <= names.len(),
        first_without_pattern(names.take(i)) is Some,
    ensures
        first_without_pattern(names) == first_without_pattern(names.take(i)),
    decreases names.len() - i,
{
    if i < names.len() {
        assert(names.take(i + 1).drop_last() =~= names.take(i));
        lemma_first_without_pattern(names, i + 1);
    } else {
        assert(names.take(i) =~= names);
    }
}

/// The name of an attribute is too long for a pattern.
#[derive(Debug)]
pub struct TrimError {
    pub attribute: String,
}

impl TrimError {
    pub fn message(&self) -> (res: String)
        ensures
            res@ == "no pattern for the attribute "@ + self.attribute@,
    {
        let mut res: String = "no pattern for the attribute ".to_string();
        res.append(self.attribute.as_str());
        res
    }
}

/// Take the matches that were found out of the text.
pub fn remove_matches(text: &str, found: &Vec<Groups>) -> (res: String)
    requires
        are_matches(text@, groups_of(found@)),
    ensures
        res@ == without_matches(text@, groups_of(found@)),
{
    proof {
        reveal_strlit("");
        assert(""@ =~= Seq::empty());
    }
    substitute_all(text, found, "")
}

/// Take the attributes out of the text. With it comes how many were taken out,
/// modulo 2^32. It fails exactly where the pattern for a name does not compile,
/// and those for names of up to `LONGEST_NAME` characters do.
pub fn strip_attributes(text: &str, names: &Vec<String>) -> (res: Result<(String, u32), TrimError>)
    ensures
        match res {
            Ok((t, n)) => {
                &&& first_without_pattern(views(names@)) is None
                &&& t@ == without_attributes(text@, views(names@)).0
                &&& n == without_attributes(text@, views(names@)).1 % 0x1_0000_0000
                &&& utf8(t@).len() <= utf8(text@).len()
            },
            Err(e) => {
                &&& first_without_pattern(views(names@)) == Some(e.attribute@)
                &&& e.attribute@.len() > LONGEST_NAME
            },
        },
{
    let ghost all = views(names@);
    let mut t: String = text.to_string();
    let mut n: u32 = 0;
    let mut i: usize = 0;
    while i < names.len()
        invariant
            i <= names@.len(),
            all == views(names@),
            t@ == without_attributes(text@, all.take(i as int)).0,
            utf8(t@).len() <= utf8(text@).len(),
            first_without_pattern(all.take(i as int)) is None,
            n == without_attributes(text@, all.take(i as int)).1 % 0x1_0000_0000,
        decreases names@.len() - i,
    {
        let name = &names[i];
        assert(all[i as int] == name@);
        assert(all.take(i + 1).drop_last() =~= all.take(i as int));
        if !name.as_str().is_empty() {
            let mut pattern: String = "\\s+".to_string();
            pattern.append(escape(name.as_str()).as_str());
            pattern.append("=\"[^\"]*\"");
            assert(pattern@ =~= attribute_pattern(name@));
            match matches_of(pattern.as_str(), t.as_str()) {
                None => {
                    assert(all.take(i + 1).last() == name@);
                    proof {
                        lemma_first_without_pattern(all, i + 1);
                    }
                    return Err(TrimError { attribute: name.clone() });
                },
                Some(found) => {
                    assert(groups_of(found@).len() == found@.len());
                    proof {
                        lemma_count_more(
                            without_attributes(text@, all.take(i as int)).1 as int,
                            found@.len() as int,
                        );
                    }
                    n = count_more(n, found.len());
                    proof {
                        law_removed_not_longer(t@, groups_of(found@));
                    }
                    t = remove_matches(t.as_str(), &found);
                },
            }
        }
        i += 1;
    }
    assert(all.take(i as int) =~= all);
    Ok((t, n))
}

// ---------------------------------------------------------------------------
// Space
// ---------------------------------------------------------------------------

/// The spaces and tabs that a line starts with.
pub open spec fn indentation(line: Seq<char>) -> Seq<char> {
    line.take(line.len() - without_head(line, CharSet::Blanks).len())
}

/// A line with every run of spaces behind its indentation closed up to one,
/// given the runs of two and more.
pub open spec fn with_runs_closed(
    line: Seq<char>,
    runs: Seq<Seq<Option<(usize, usize)>>>,
) -> Seq<char> {
    indentation(line) + substituted(
        without_head(line, CharSet::Blanks),
        runs,
        copies(runs.len(), " "@),
    )
}

/// A line with every run of spaces behind its indentation closed up to one.
pub open spec fn collapsed_line(line: Seq<char>) -> Seq<char> {
    with_runs_closed(line, regex_matches(SPACES@, without_head(line, CharSet::Blanks)))
}

/// The lines one after the other, each with its runs of spaces closed up.
pub open spec fn collapsed(lines: Seq<Seq<char>>) -> Seq<char>
    decreases lines.len(),
{
    if lines.len() == 0 {
        Seq::empty()
    } else {
        collapsed(lines.drop_last()) + collapsed_line(lines.last())
    }
}

pub proof fn lemma_indentation(line: Seq<char>)
    ensures
        without_head(line, CharSet::Blanks).len() <= line.len(),
        indentation(line) + without_head(line, CharSet::Blanks) == line,
    decreases line.len(),
{
    if line.len() > 0 && CharSet::Blanks.has(line[0]) {
        lemma_indentation(line.drop_first());
        let rest = without_head(line, CharSet::Blanks);
        assert(indentation(line) =~= seq![line[0]] + indentation(line.drop_first()));
        assert(indentation(line) + rest =~= seq![line[0]] + (indentation(line.drop_first())
            + rest));
        assert(seq![line[0]] + line.drop_first() =~= line);
    } else {
        assert(indentation(line) + line =~= line);
    }
}

/// Closing up runs does not make a line longer.
pub proof fn law_closed_not_longer(line: Seq<char>, runs: Seq<Seq<Option<(usize, usize)>>>)
    requires
        are_matches(without_head(line, CharSet::Blanks), runs),
        are_shaped(SPACES@, without_head(line, CharSet::Blanks), runs),
    ensures
        utf8(with_runs_closed(line, runs)).len() <= utf8(line).len(),
{
    let rest = without_head(line, CharSet::Blanks);
    let texts = copies(runs.len(), " "@);
    reveal_strlit(" ");
    lemma_ascii_text(" "@);
    assert forall|i: int| 0 <= i < runs.len() implies utf8(#[trigger] texts[i]).len() <= (
    runs[i][0]->0).1 - (runs[i][0]->0).0 by {
        assert(has_shape(SPACES@, rest, runs[i]));
    }
    law_substituted_not_longer(rest, runs, texts);
    lemma_indentation(line);
    lemma_utf8_concat(indentation(line), rest);
    lemma_utf8_concat(indentation(line), substituted(rest, runs, texts));
}

/// The bytes of lines one after the other.
spec fn lines_len(lines: Seq<Seq<char>>) -> nat
    decreases lines.len(),
{
    if lines.len() == 0 {
        0
    } else {
        lines_len(lines.drop_last()) + utf8(lines.last()).len()
    }
}

proof fn lemma_lines_len_first(line: Seq<char>, lines: Seq<Seq<char>>)
    ensures
        lines_len(seq![line] + lines) == utf8(line).len() + lines_len(lines),
    decreases lines.len(),
{
    let all = seq![line] + lines;
    if lines.len() == 0 {
        assert(all.last() == line);
        assert(lines_len(all.drop_last()) == 0);
    } else {
        lemma_lines_len_first(line, lines.drop_last());
        assert(all.drop_last() =~= seq![line] + lines.drop_last());
        assert(all.last() == lines.last());
    }
}

proof fn lemma_lines_len(s: Seq<char>, i: int)
    requires
        0 <= i <= s.len(),
    ensures
        lines_len(lines_from(s, i)) == utf8(s.skip(i)).len(),
    decreases s.len() - i,
{
    lemma_next_line(s, i);
    if i < s.len() {
        let n = next_line(s, i);
        lemma_lines_len(s, n);
        lemma_lines_len_first(s.subrange(i, n), lines_from(s, n));
        assert(s.skip(i) =~= s.subrange(i, n) + s.skip(n));
        lemma_utf8_concat(s.subrange(i, n), s.skip(n));
    } else {
        lemma_utf8_len(s.skip(i));
    }
}

/// Close up the runs of spaces that were found behind the indentation of a
/// line.
pub fn close_runs(line: &str, rest: &str, runs: &Vec<Groups>) -> (res: String)
    requires
        rest@ == without_head(line@, CharSet::Blanks),
        are_matches(rest@, groups_of(runs@)),
    ensures
        res@ == with_runs_closed(line@, groups_of(runs@)),
{
    proof {
        lemma_indentation(line@);
    }
    let k: usize = line.unicode_len() - rest.unicode_len();
    let mut res: String = line.substring_char(0, k).to_string();
    assert(res@ =~= indentation(line@));
    assert(groups_of(runs@).len() == runs@.len());
    res.append(substitute_all(rest, runs, " ").as_str());
    res
}

/// Close up the runs of spaces inside the lines. The indentation stays as it
/// is.
pub fn collapse_internal_spaces(text: &str) -> (res: String)
    ensures
        res@ == collapsed(lines_from(text@, 0)),
        utf8(res@).len() <= utf8(text@).len(),
{
    let lines = split_lines(text);
    let ghost all = views(lines@);
    let mut res: String = String::new();
    let mut i: usize = 0;
    assert(res@ =~= collapsed(all.take(0)));
    proof {
        lemma_utf8_len(res@);
        lemma_lines_len(text@, 0);
        assert(text@.skip(0) =~= text@);
    }
    while i < lines.len()
        invariant
            i <= lines@.len(),
            all == views(lines@),
            res@ == collapsed(all.take(i as int)),
            utf8(res@).len() <= lines_len(all.take(i as int)),
        decreases lines@.len() - i,
    {
        let line = lines[i].as_str();
        assert(all[i as int] == line@);
        assert(all.take(i + 1).drop_last() =~= all.take(i as int));
        let rest = trim_start(line, &CharSet::Blanks);
        let runs = known_matches(SPACES, rest);
        let closed = close_runs(line, rest, &runs);
        proof {
            law_closed_not_longer(line@, groups_of(runs@));
            lemma_utf8_concat(res@, closed@);
        }
        res.append(closed.as_str());
        i += 1;
    }
    assert(all.take(i as int) =~= all);
    res
}

/// What stands in place of tags with spaces before their end.
pub open spec fn tight_tags(
    text: Seq<char>,
    found: Seq<Seq<Option<(usize, usize)>>>,
    end: Seq<char>,
) -> Seq<Seq<char>> {
    Seq::new(found.len(), |i: int| "<"@ + group(text, found[i], 1) + end)
}

/// Writing tags with the given end does not make the text longer, where the
/// matches have room for it.
pub proof fn law_tight_not_longer(
    text: Seq<char>,
    found: Seq<Seq<Option<(usize, usize)>>>,
    end: Seq<char>,
)
    requires
        are_matches(text, found),
        (end == ">"@ && are_shaped(SPACED_TAG@, text, found)) || (end == " />"@ && are_shaped(
            SPACED_SELF_CLOSING_TAG@,
            text,
            found,
        )),
    ensures
        utf8(substituted(text, found, tight_tags(text, found, end))).len() <= utf8(text).len(),
{
    let texts = tight_tags(text, found, end);
    reveal_strlit("<");
    reveal_strlit(">");
    reveal_strlit(" />");
    lemma_ascii_text("<"@);
    lemma_ascii_text(">"@);
    lemma_ascii_text(" />"@);
    assert forall|i: int| 0 <= i < found.len() implies utf8(#[trigger] texts[i]).len() <= (
    found[i][0]->0).1 - (found[i][0]->0).0 by {
        let m = found[i];
        assert(is_match(text, m));
        assert(m[0] is Some);
        if end == ">"@ {
            assert(">"@.len() == 1);
            assert(are_shaped(SPACED_TAG@, text, found));
            assert(has_shape(SPACED_TAG@, text, m));
        } else {
            assert(has_shape(SPACED_SELF_CLOSING_TAG@, text, m));
        }
        assert(m[1] is Some);
        lemma_cut(text, (m[1]->0).0 as int, (m[1]->0).1 as int);
        lemma_utf8_concat("<"@, group(text, m, 1));
        lemma_utf8_concat("<"@ + group(text, m, 1), end);
    }
    law_substituted_not_longer(text, found, texts);
}

/// The text with the tags that were found written with the given end.
pub fn tighten(text: &str, found: &Vec<Groups>, end: &str) -> (res: String)
    requires
        are_matches(text@, groups_of(found@)),
    ensures
        res@ == substituted(
            text@,
            groups_of(found@),
            tight_tags(text@, groups_of(found@), end@),
        ),
{
    let ghost all = groups_of(found@);
    let ghost wanted = tight_tags(text@, all, end@);
    let mut texts: Vec<String> = Vec::new();
    let mut i: usize = 0;
    assert(views(texts@) =~= wanted.take(0));
    while i < found.len()
        invariant
            i <= found@.len(),
            all == groups_of(found@),
            are_matches(text@, all),
            wanted == tight_tags(text@, all, end@),
            views(texts@) == wanted.take(i as int),
        decreases found@.len() - i,
    {
        let m = &found[i];
        let ghost before = views(texts@);
        assert(all[i as int] == m@);
        assert(is_match(text@, m@));
        let mut tag: String = "<".to_string();
        tag.append(group_text(text, m, 1));
        tag.append(end);
        assert(tag@ == wanted[i as int]);
        texts.push(tag);
        i += 1;
        assert(views(texts@) =~= before.push(tag@));
        assert(views(texts@) =~= wanted.take(i as int));
    }
    assert(views(texts@) =~= wanted);
    assert(views(texts@).len() == texts@.len());
    substitute(text, found, &texts)
}

/// The text with the spaces before the ends of tags taken out.
pub open spec fn tightened(text: Seq<char>) -> Seq<char> {
    let open = regex_matches(SPACED_TAG@, text);
    let t = substituted(text, open, tight_tags(text, open, ">"@));
    let closed = regex_matches(SPACED_SELF_CLOSING_TAG@, t);
    substituted(t, closed, tight_tags(t, closed, " />"@))
}

// ---------------------------------------------------------------------------
// The whole pass
// ---------------------------------------------------------------------------

/// What was taken out.
#[derive(Debug)]
pub struct TrimReport {
    pub classes_removed: u32,
    pub attributes_removed: u32,
    pub classname_attrs_dropped: u32,
    pub bytes_before: usize,
    pub bytes_after: usize,
}

/// The text after its classes were filtered.
pub open spec fn with_classes_filtered(src: Seq<char>, cfg: TrimConfigView) -> Seq<char> {
    let found = regex_matches(CLASS_NAME@, src);
    substituted(src, found, class_attributes(src, cfg, found))
}

/// The text after the whole pass.
pub open spec fn trimmed_source(src: Seq<char>, cfg: TrimConfigView) -> Seq<char> {
    let t = without_attributes(with_classes_filtered(src, cfg), cfg.strip_attributes).0;
    tightened(collapsed(lines_from(t, 0)))
}

/// Take the classes and the attributes out, and close up the space that they
/// leave. It fails exactly where the pattern for an attribute does not compile,
/// and those for names of up to `LONGEST_NAME` characters do.
pub fn trim(src: &str, cfg: &TrimConfig) -> (res: Result<(String, TrimReport), TrimError>)
    ensures
        match res {
            Ok((text, report)) => {
                let found = regex_matches(CLASS_NAME@, src@);
                let filtered = with_classes_filtered(src@, cfg@);
                &&& first_without_pattern(cfg@.strip_attributes) is None
                &&& text@ == trimmed_source(src@, cfg@)
                &&& report.classes_removed == classes_removed(src@, cfg@, found) % 0x1_0000_0000
                &&& report.classname_attrs_dropped == attributes_dropped(src@, cfg@, found)
                    % 0x1_0000_0000
                &&& report.attributes_removed == without_attributes(
                    filtered,
                    cfg@.strip_attributes,
                ).1 % 0x1_0000_0000
                &&& report.bytes_before == utf8(src@).len()
                &&& report.bytes_after == utf8(text@).len()
                &&& report.bytes_after <= report.bytes_before
            },
            Err(e) => {
                &&& first_without_pattern(cfg@.strip_attributes) == Some(e.attribute@)
                &&& e.attribute@.len() > LONGEST_NAME
            },
        },
{
    let class_matches = known_matches(CLASS_NAME, src);
    let (filtered, classes, dropped) = filter_classes(src, cfg, &class_matches);
    proof {
        law_filtered_not_longer(src@, cfg@, groups_of(class_matches@));
    }
    match strip_attributes(filtered.as_str(), &cfg.strip_attributes) {
        Err(e) => Err(e),
        Ok((stripped, attributes)) => {
            let collapsed_text = collapse_internal_spaces(stripped.as_str());
            let spaced = known_matches(SPACED_TAG, collapsed_text.as_str());
            let open = tighten(collapsed_text.as_str(), &spaced, ">");
            let closed = known_matches(SPACED_SELF_CLOSING_TAG, open.as_str());
            let text = tighten(open.as_str(), &closed, " />");
            proof {
                law_tight_not_longer(collapsed_text@, groups_of(spaced@), ">"@);
                law_tight_not_longer(open@, groups_of(closed@), " />"@);
            }
            let report = TrimReport {
                classes_removed: classes,
                attributes_removed: attributes,
                classname_attrs_dropped: dropped,
                bytes_before: bytes_of(src).len(),
                bytes_after: bytes_of(text.as_str()).len(),
            };
            Ok((text, report))
        },
    }
}

// ---------------------------------------------------------------------------
// Laws
// ---------------------------------------------------------------------------

/// The classes that stay are those that are not to be taken out, and every one
/// of them.
pub proof fn law_kept(cfg: TrimConfigView, classes: Seq<Seq<char>>, class: Seq<char>)
    ensures
        kept(cfg, classes).contains(class) <==> classes.contains(class) && !excluded(cfg, class),
        kept(cfg, classes).len() <= classes.len(),
    decreases classes.len(),
{
    if classes.len() > 0 {
        let (d, last) = (classes.drop_last(), classes.last());
        law_kept(cfg, d, class);
        assert(classes =~= d.push(last));
        assert(classes.contains(class) <==> d.contains(class) || class == last) by {
            if d.contains(class) {
                let i = choose|i: int| 0 <= i < d.len() && d[i] == class;
                assert(classes[i] == class);
            }
            if class == last {
                assert(classes[classes.len() - 1] == class);
            }
        }
        let (k, r) = (kept(cfg, d), kept(cfg, classes));
        if !excluded(cfg, last) {
            assert(r.contains(class) <==> k.contains(class) || class == last) by {
                if k.contains(class) {
                    let i = choose|i: int| 0 <= i < k.len() && k[i] == class;
                    assert(r[i] == class);
                }
                if class == last {
                    assert(r[r.len() - 1] == class);
                }
            }
        }
    }
}

/// Where nothing is to be taken out, all the classes stay as they are.
pub proof fn law_nothing_excluded(cfg: TrimConfigView, classes: Seq<Seq<char>>)
    requires
        cfg.exclude_exact.len() == 0,
        cfg.exclude_prefixes.len() == 0,
    ensures
        kept(cfg, classes) == classes,
    decreases classes.len(),
{
    if classes.len() > 0 {
        law_nothing_excluded(cfg, classes.drop_last());
        assert(classes =~= classes.drop_last().push(classes.last()));
    } else {
        assert(classes =~= Seq::empty());
    }
}

proof fn lemma_kept_again(cfg: TrimConfigView, classes: Seq<Seq<char>>)
    ensures
        kept(cfg, kept(cfg, classes)) == kept(cfg, classes),
    decreases classes.len(),
{
    if classes.len() > 0 {
        let k = kept(cfg, classes.drop_last());
        lemma_kept_again(cfg, classes.drop_last());
        if !excluded(cfg, classes.last()) {
            assert(k.push(classes.last()).drop_last() =~= k);
        }
    }
}

/// Filtering the classes once more changes nothing.
pub proof fn law_classes_filtered_once(cfg: TrimConfigView, value: Seq<char>)
    ensures
        ({
            let classes = kept(cfg, words_from(value, 0));
            class_attribute(cfg, joined(classes, " "@)) == class_attribute(cfg, value)
        }),
{
    let words = words_from(value, 0);
    let classes = kept(cfg, words);
    law_words(value, 0);
    assert forall|i: int| 0 <= i < classes.len() implies is_plain_word(#[trigger] classes[i]) by {
        law_kept(cfg, words, classes[i]);
        assert(classes.contains(classes[i]));
        let k = choose|k: int| 0 <= k < words.len() && words[k] == classes[i];
        assert(is_plain_word(words[k]));
    }
    law_words_of_joined(classes);
    lemma_kept_again(cfg, words);
}

/// The indentation of a line stays as it is.
pub proof fn law_indentation_stays(line: Seq<char>, runs: Seq<Seq<Option<(usize, usize)>>>)
    ensures
        starts_with(with_runs_closed(line, runs), indentation(line)),
{
    let (lead, t) = (indentation(line), with_runs_closed(line, runs));
    assert(t.subrange(0, lead.len() as int) =~= lead);
}

/// A line without runs of spaces stays as it is.
pub proof fn law_line_without_runs(line: Seq<char>)
    ensures
        with_runs_closed(line, Seq::empty()) == line,
{
    let rest = without_head(line, CharSet::Blanks);
    lemma_indentation(line);
    lemma_cut_all(rest);
    assert(substituted(rest, Seq::empty(), copies(0, " "@)) == rest);
}

/// The classes that a configuration takes out, said of its texts: one that is
/// given word for word, or that starts with all of a prefix that is not empty.
pub proof fn law_excluded(cfg: TrimConfigView, class: Seq<char>)
    ensures
        excluded(cfg, class) <==> (exists|i: int|
            0 <= i < cfg.exclude_exact.len() && #[trigger] cfg.exclude_exact[i] == class) || (
        exists|i: int|
            0 <= i < cfg.exclude_prefixes.len() && 0 < (#[trigger] cfg.exclude_prefixes[i]).len()
                <= class.len() && class.take(cfg.exclude_prefixes[i].len() as int)
                == cfg.exclude_prefixes[i]),
{
    if excluded(cfg, class) && !cfg.exclude_exact.contains(class) {
        let i = choose|i: int|
            0 <= i < cfg.exclude_prefixes.len() && cfg.exclude_prefixes[i].len() > 0
                && starts_with(class, #[trigger] cfg.exclude_prefixes[i]);
        let p = cfg.exclude_prefixes[i];
        assert(class.take(p.len() as int) =~= class.subrange(0, p.len() as int));
    }
    if exists|i: int|
        0 <= i < cfg.exclude_prefixes.len() && 0 < (#[trigger] cfg.exclude_prefixes[i]).len()
            <= class.len() && class.take(cfg.exclude_prefixes[i].len() as int)
            == cfg.exclude_prefixes[i] {
        let i = choose|i: int|
            0 <= i < cfg.exclude_prefixes.len() && 0 < (#[trigger] cfg.exclude_prefixes[i]).len()
                <= class.len() && class.take(cfg.exclude_prefixes[i].len() as int)
                == cfg.exclude_prefixes[i];
        let p = cfg.exclude_prefixes[i];
        assert(class.subrange(0, p.len() as int) =~= class.take(p.len() as int));
        assert(starts_with(class, p));
    }
}

/// Of two runs of classes each is filtered for itself, so that every class is
/// kept or not by itself, in its place and as often as it occurs.
pub proof fn law_kept_one_by_one(cfg: TrimConfigView, a: Seq<Seq<char>>, b: Seq<Seq<char>>)
    ensures
        kept(cfg, a + b) == kept(cfg, a) + kept(cfg, b),
    decreases b.len(),
{
    if b.len() == 0 {
        assert(a + b =~= a);
        assert(kept(cfg, a) + kept(cfg, b) =~= kept(cfg, a));
    } else {
        law_kept_one_by_one(cfg, a, b.drop_last());
        assert((a + b).drop_last() =~= a + b.drop_last());
        assert((a + b).last() == b.last());
        assert(kept(cfg, a + b) =~= kept(cfg, a) + kept(cfg, b));
    }
}

/// Without prefixes, a class stays exactly where it is none of the texts that
/// are given: also where it only starts with one, or is the start of one.
pub proof fn law_exact_classes(cfg: TrimConfigView, classes: Seq<Seq<char>>, class: Seq<char>)
    requires
        cfg.exclude_prefixes.len() == 0,
    ensures
        kept(cfg, classes) == classes.filter(|c: Seq<char>| !cfg.exclude_exact.contains(c)),
        kept(cfg, classes).contains(class) <==> classes.contains(class) && forall|i: int|
            0 <= i < cfg.exclude_exact.len() ==> #[trigger] cfg.exclude_exact[i] != class,
    decreases classes.len(),
{
    let stays = |c: Seq<char>| !cfg.exclude_exact.contains(c);
    law_kept(cfg, classes, class);
    law_excluded(cfg, class);
    reveal(Seq::filter);
    if classes.len() > 0 {
        law_exact_classes(cfg, classes.drop_last(), class);
        law_excluded(cfg, classes.last());
    } else {
        assert(kept(cfg, classes) =~= classes.filter(stays));
    }
}

/// Without texts given word for word, a class stays exactly where it starts
/// with none of the prefixes. An empty prefix takes nothing out.
pub proof fn law_prefixed_classes(cfg: TrimConfigView, classes: Seq<Seq<char>>, class: Seq<char>)
    requires
        cfg.exclude_exact.len() == 0,
    ensures
        kept(cfg, classes).contains(class) <==> classes.contains(class) && forall|i: int|
            0 <= i < cfg.exclude_prefixes.len() && (#[trigger] cfg.exclude_prefixes[i]).len() > 0
                ==> !cfg.exclude_prefixes[i].is_prefix_of(class),
{
    law_kept(cfg, classes, class);
    law_excluded(cfg, class);
    assert forall|p: Seq<char>| #[trigger] p.is_prefix_of(class) <==> p.len() <= class.len()
        && class.take(p.len() as int) == p by {
        if p.len() <= class.len() {
            assert(class.subrange(0, p.len() as int) =~= class.take(p.len() as int));
        }
    }
    if exists|i: int|
        0 <= i < cfg.exclude_prefixes.len() && (#[trigger] cfg.exclude_prefixes[i]).len() > 0
            && cfg.exclude_prefixes[i].is_prefix_of(class) {
        let i = choose|i: int|
            0 <= i < cfg.exclude_prefixes.len() && (#[trigger] cfg.exclude_prefixes[i]).len() > 0
                && cfg.exclude_prefixes[i].is_prefix_of(class);
        assert(excluded(cfg, class));
    }
}

/// A class attribute is written with the classes that stay, in their order and
/// with one space between every two; one without any is written empty or not at
/// all.
pub proof fn law_class_attribute(cfg: TrimConfigView, classes: Seq<Seq<char>>)
    requires
        forall|i: int| 0 <= i < classes.len() ==> is_plain_word(#[trigger] classes[i]),
    ensures
        ({
            let value = joined(classes, " "@);
            let stay = kept(cfg, classes);
            &&& stay.len() > 0 ==> class_attribute(cfg, value) == "className=\""@ + joined(
                stay,
                " "@,
            ) + "\""@
            &&& stay.len() == 0 && cfg.drop_empty_classname ==> class_attribute(cfg, value).len()
                == 0
            &&& stay.len() == 0 && !cfg.drop_empty_classname ==> class_attribute(cfg, value)
                == "className=\"\""@
        }),
{
    law_words_of_joined(classes);
}

/// A class attribute is rewritten for itself: what stands before and behind it
/// stays as it is.
pub proof fn law_one_class_attribute(
    a: Seq<char>,
    old_text: Seq<char>,
    b: Seq<char>,
    cfg: TrimConfigView,
    m: Seq<Option<(usize, usize)>>,
)
    requires
        (m[0]->0).0 == utf8(a).len(),
        (m[0]->0).1 == utf8(a + old_text).len(),
    ensures
        ({
            let src = a + old_text + b;
            let value = group(src, m, 1);
            &&& substituted(src, seq![m], class_attributes(src, cfg, seq![m])) == a
                + class_attribute(cfg, value) + b
            &&& classes_removed(src, cfg, seq![m]) == words_from(value, 0).len() - kept(
                cfg,
                words_from(value, 0),
            ).len()
            &&& attributes_dropped(src, cfg, seq![m]) == 1 <==> cfg.drop_empty_classname && kept(
                cfg,
                words_from(value, 0),
            ).len() == 0
            &&& 0 <= attributes_dropped(src, cfg, seq![m]) <= 1
        }),
{
    let src = a + old_text + b;
    let value = group(src, m, 1);
    law_one_substituted(a, old_text, class_attribute(cfg, value), b, m);
    assert(class_attributes(src, cfg, seq![m]) =~= seq![class_attribute(cfg, value)]);
    assert(seq![m].drop_last() =~= Seq::empty());
    assert(classes_removed(src, cfg, seq![m].drop_last()) == 0);
    assert(attributes_dropped(src, cfg, seq![m].drop_last()) == 0);
}

/// Every class attribute is counted for itself.
pub proof fn law_class_counts(
    src: Seq<char>,
    cfg: TrimConfigView,
    a: Seq<Seq<Option<(usize, usize)>>>,
    b: Seq<Seq<Option<(usize, usize)>>>,
)
    ensures
        classes_removed(src, cfg, a + b) == classes_removed(src, cfg, a) + classes_removed(
            src,
            cfg,
            b,
        ),
        attributes_dropped(src, cfg, a + b) == attributes_dropped(src, cfg, a)
            + attributes_dropped(src, cfg, b),
    decreases b.len(),
{
    if b.len() == 0 {
        assert(a + b =~= a);
    } else {
        law_class_counts(src, cfg, a, b.drop_last());
        assert((a + b).drop_last() =~= a + b.drop_last());
    }
}

/// What matches is taken out, and nothing else.
pub proof fn law_one_removed(
    a: Seq<char>,
    old_text: Seq<char>,
    b: Seq<char>,
    m: Seq<Option<(usize, usize)>>,
)
    requires
        (m[0]->0).0 == utf8(a).len(),
        (m[0]->0).1 == utf8(a + old_text).len(),
    ensures
        without_matches(a + old_text + b, seq![m]) == a + b,
{
    law_one_substituted(a, old_text, Seq::empty(), b, m);
    assert(copies(1, Seq::<char>::empty()) =~= seq![Seq::<char>::empty()]);
    assert(a + Seq::empty() + b =~= a + b);
}

/// The attributes of the first names are taken out before those of the others,
/// and what is taken out adds up.
pub proof fn law_attributes_in_turn(text: Seq<char>, a: Seq<Seq<char>>, b: Seq<Seq<char>>)
    ensures
        ({
            let (t, n) = without_attributes(text, a);
            let (u, k) = without_attributes(t, b);
            without_attributes(text, a + b) == (u, n + k)
        }),
    decreases b.len(),
{
    if b.len() == 0 {
        assert(a + b =~= a);
    } else {
        law_attributes_in_turn(text, a, b.drop_last());
        assert((a + b).drop_last() =~= a + b.drop_last());
    }
}

/// Of one name all that its pattern matches is taken out and counted; of an
/// empty name nothing.
pub proof fn law_one_attribute(text: Seq<char>, name: Seq<char>)
    ensures
        ({
            let found = regex_matches(attribute_pattern(name), text);
            let (t, n) = without_attributes(text, seq![name]);
            &&& name.len() > 0 ==> n == found.len() && t == without_matches(text, found)
            &&& name.len() == 0 ==> n == 0 && t == text
        }),
{
    assert(seq![name].drop_last() =~= Seq::empty());
    assert(without_attributes(text, seq![name].drop_last()) == (text, 0nat));
}

/// The name that is refused is the first that is not empty and has no pattern.
pub proof fn law_refused_name(names: Seq<Seq<char>>)
    ensures
        match first_without_pattern(names) {
            Some(name) => exists|i: int|
                {
                    &&& 0 <= i < names.len()
                    &&& #[trigger] names[i] == name
                    &&& name.len() > 0 && !compiles(attribute_pattern(name))
                    &&& forall|j: int|
                        0 <= j < i && (#[trigger] names[j]).len() > 0 ==> compiles(
                            attribute_pattern(names[j]),
                        )
                },
            None => forall|j: int|
                0 <= j < names.len() && (#[trigger] names[j]).len() > 0 ==> compiles(
                    attribute_pattern(names[j]),
                ),
        },
    decreases names.len(),
{
    if names.len() > 0 {
        let d = names.drop_last();
        law_refused_name(d);
        match first_without_pattern(d) {
            Some(name) => {
                let i = choose|i: int|
                    {
                        &&& 0 <= i < d.len()
                        &&& #[trigger] d[i] == name
                        &&& name.len() > 0 && !compiles(attribute_pattern(name))
                        &&& forall|j: int|
                            0 <= j < i && (#[trigger] d[j]).len() > 0 ==> compiles(
                                attribute_pattern(d[j]),
                            )
                    };
                assert(names[i] == name);
                assert forall|j: int| 0 <= j < i && (#[trigger] names[j]).len() > 0 implies compiles(
                    attribute_pattern(names[j]),
                ) by {
                    assert(d[j] == names[j]);
                }
            },
            None => {
                assert forall|j: int|
                    0 <= j < d.len() && (#[trigger] names[j]).len() > 0 implies compiles(
                    attribute_pattern(names[j]),
                ) by {
                    assert(d[j] == names[j]);
                }
                assert(names[names.len() - 1] == names.last());
            },
        }
    }
}

/// The lines are closed up one by one.
pub proof fn law_lines_closed_up(a: Seq<Seq<char>>, b: Seq<Seq<char>>, line: Seq<char>)
    ensures
        collapsed(a + b) == collapsed(a) + collapsed(b),
        collapsed(seq![line]) == collapsed_line(line),
    decreases b.len(),
{
    if b.len() == 0 {
        assert(a + b =~= a);
        assert(collapsed(a) + collapsed(b) =~= collapsed(a));
    } else {
        law_lines_closed_up(a, b.drop_last(), line);
        assert((a + b).drop_last() =~= a + b.drop_last());
        assert(collapsed(a + b) =~= collapsed(a) + collapsed(b));
    }
    let none: Seq<Seq<char>> = Seq::empty();
    assert(seq![line].drop_last() =~= none);
    assert(collapsed(none) + collapsed_line(line) =~= collapsed_line(line));
}

/// A run of spaces behind the indentation becomes one space: the indentation
/// and what stands around the run stay as they are.
pub proof fn law_run_closed_up(
    lead: Seq<char>,
    a: Seq<char>,
    run: Seq<char>,
    b: Seq<char>,
    m: Seq<Option<(usize, usize)>>,
)
    requires
        all_in(lead, CharSet::Blanks),
        a.len() > 0,
        a[0] != ' ' && a[0] != '\t',
        (m[0]->0).0 == utf8(a).len(),
        (m[0]->0).1 == utf8(a + run).len(),
    ensures
        indentation(lead + (a + run + b)) == lead,
        with_runs_closed(lead + (a + run + b), seq![m]) == lead + a + " "@ + b,
{
    let rest = a + run + b;
    law_without_head(lead, rest, CharSet::Blanks);
    assert(indentation(lead + rest) =~= lead);
    law_one_substituted(a, run, " "@, b, m);
    assert(copies(1, " "@) =~= seq![" "@]);
    assert(lead + (a + " "@ + b) =~= lead + a + " "@ + b);
}

/// A tag that was found with spaces before its end is written with what stood
/// in it and the given end.
pub proof fn law_one_tightened(
    a: Seq<char>,
    old_text: Seq<char>,
    b: Seq<char>,
    end: Seq<char>,
    m: Seq<Option<(usize, usize)>>,
)
    requires
        (m[0]->0).0 == utf8(a).len(),
        (m[0]->0).1 == utf8(a + old_text).len(),
    ensures
        ({
            let text = a + old_text + b;
            substituted(text, seq![m], tight_tags(text, seq![m], end)) == a + ("<"@ + group(
                text,
                m,
                1,
            ) + end) + b
        }),
{
    let text = a + old_text + b;
    let tag = "<"@ + group(text, m, 1) + end;
    law_one_substituted(a, old_text, tag, b, m);
    assert(tight_tags(text, seq![m], end) =~= seq![tag]);
}

/// Tags without spaces before their ends stay as they are. Those that do not
/// close themselves are written first, with `>`; then those that do, with ` />`.
pub proof fn law_tightened(text: Seq<char>)
    ensures
        ({
            let open = regex_matches(SPACED_TAG@, text);
            let closed = regex_matches(SPACED_SELF_CLOSING_TAG@, text);
            let once = substituted(text, open, tight_tags(text, open, ">"@));
            &&& open.len() == 0 ==> tightened(text) == substituted(
                text,
                closed,
                tight_tags(text, closed, " />"@),
            )
            &&& regex_matches(SPACED_SELF_CLOSING_TAG@, once).len() == 0 ==> tightened(text) == once
            &&& open.len() == 0 && closed.len() == 0 ==> tightened(text) == text
        }),
{
    let open = regex_matches(SPACED_TAG@, text);
    let once = substituted(text, open, tight_tags(text, open, ">"@));
    if open.len() == 0 {
        lemma_nothing_substituted(text, open, tight_tags(text, open, ">"@));
    }
    let closed = regex_matches(SPACED_SELF_CLOSING_TAG@, once);
    if closed.len() == 0 {
        lemma_nothing_substituted(once, closed, tight_tags(once, closed, " />"@));
    }
}

proof fn lemma_nothing_substituted(
    text: Seq<char>,
    found: Seq<Seq<Option<(usize, usize)>>>,
    texts: Seq<Seq<char>>,
)
    requires
        found.len() == 0,
    ensures
        substituted(text, found, texts) == text,
{
    lemma_cut_all(text);
}

proof fn lemma_lines_without_runs(s: Seq<char>, i: int)
    requires
        0 <= i <= s.len(),
        forall|k: int|
            0 <= k < lines_from(s, i).len() ==> collapsed_line(#[trigger] lines_from(s, i)[k])
                == lines_from(s, i)[k],
    ensures
        collapsed(lines_from(s, i)) == s.skip(i),
    decreases s.len() - i,
{
    lemma_next_line(s, i);
    if i < s.len() {
        let n = next_line(s, i);
        let line = s.subrange(i, n);
        let (all, rest) = (lines_from(s, i), lines_from(s, n));
        assert(all =~= seq![line] + rest);
        assert(all[0] == line);
        assert forall|k: int| 0 <= k < rest.len() implies collapsed_line(#[trigger] rest[k])
            == rest[k] by {
            assert(all[k + 1] == rest[k]);
        }
        lemma_lines_without_runs(s, n);
        law_lines_closed_up(seq![line], rest, line);
        assert(s.skip(i) =~= line + s.skip(n));
    } else {
        assert(s.skip(i) =~= collapsed(lines_from(s, i)));
    }
}

/// Code in which there is nothing to do stays as it is: no class attribute, no
/// attribute to take out, no run of spaces and no space before the end of a tag.
pub proof fn law_nothing_to_trim(src: Seq<char>, cfg: TrimConfigView)
    requires
        regex_matches(CLASS_NAME@, src).len() == 0,
        forall|i: int|
            0 <= i < cfg.strip_attributes.len() && (#[trigger] cfg.strip_attributes[i]).len() > 0
                ==> regex_matches(attribute_pattern(cfg.strip_attributes[i]), src).len() == 0,
        forall|k: int|
            0 <= k < lines_from(src, 0).len() ==> regex_matches(
                SPACES@,
                without_head(#[trigger] lines_from(src, 0)[k], CharSet::Blanks),
            ).len() == 0,
        regex_matches(SPACED_TAG@, src).len() == 0,
        regex_matches(SPACED_SELF_CLOSING_TAG@, src).len() == 0,
    ensures
        trimmed_source(src, cfg) == src,
{
    let found = regex_matches(CLASS_NAME@, src);
    lemma_nothing_substituted(src, found, class_attributes(src, cfg, found));
    lemma_no_attributes(src, cfg.strip_attributes);
    let lines = lines_from(src, 0);
    assert forall|k: int| 0 <= k < lines.len() implies collapsed_line(#[trigger] lines[k])
        == lines[k] by {
        let runs = regex_matches(SPACES@, without_head(lines[k], CharSet::Blanks));
        law_line_without_runs(lines[k]);
        assert(runs =~= Seq::empty());
    }
    lemma_lines_without_runs(src, 0);
    assert(src.skip(0) =~= src);
    law_tightened(src);
}

proof fn lemma_no_attributes(text: Seq<char>, names: Seq<Seq<char>>)
    requires
        forall|i: int|
            0 <= i < names.len() && (#[trigger] names[i]).len() > 0 ==> regex_matches(
                attribute_pattern(names[i]),
                text,
            ).len() == 0,
    ensures
        without_attributes(text, names) == (text, 0nat),
    decreases names.len(),
{
    if names.len() > 0 {
        let d = names.drop_last();
        assert forall|i: int| 0 <= i < d.len() && (#[trigger] d[i]).len() > 0 implies regex_matches(
            attribute_pattern(d[i]),
            text,
        ).len() == 0 by {
            assert(names[i] == d[i]);
        }
        lemma_no_attributes(text, d);
        if names.last().len() > 0 {
            assert(names[names.len() - 1] == names.last());
            let found = regex_matches(attribute_pattern(names.last()), text);
            lemma_nothing_substituted(text, found, copies(found.len(), Seq::empty()));
        }
    }
}

} // verus!
