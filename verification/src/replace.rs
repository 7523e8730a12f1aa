//! Replacing the instances of a design that were written out in place by
//! references to components of the code base, and importing those.
//!
//! The root of an instance is an element with a `data-name` and a
//! `data-node-id`. Where the name or the id is mapped, its whole subtree
//! becomes `<Component />`. A top-level function whose name is mapped is
//! removed: the import is bound under the same name.

use vstd::prelude::*;
use vstd::string::*;

use crate::chars::{decimal, decimal_text, has_char, views};
use crate::edit::{
    all_fit, edits_of, fits, in_order, is_among, keep_outermost, law_outermost, law_sorted,
    outermost, sort, sorted, splice, spliced, starts_inside, Edit, EditView, Order,
};
use crate::imports::{
    added, agree_on, all_added, binding_of, law_import_is_bound, ImportView, Imports, ImportsView,
};
use crate::instance_map::{binding, entry_view, Entry, EntryView, InstanceMap, InstanceMapView};
use crate::jsx::{
    attr_value, attribute, find_subtree_end, find_top_level_function, is_self_closing,
    lemma_subtree_end, lemma_top_level_function, self_closing, subtree_end, top_level_function,
};
use crate::pattern::{
    are_matches, groups_of, is_match, known_matches, regex_matches, Groups, OPENING_TAG,
};
use crate::text::{at_boundary, cut, lemma_cut_all, same, slice, utf8};
use crate::text_map::{
    counted, law_counted, law_lookup, lemma_mapped, lemma_slot, lemma_total_counted,
    lemma_total_nonnegative, lookup, mapped, ordered, total, TextMap,
};

verus! {

// ---------------------------------------------------------------------------
// Candidates
// ---------------------------------------------------------------------------

/// The root of an instance.
#[derive(Debug)]
pub struct Candidate {
    /// Byte offset of the `<` of its opening tag.
    pub tag_start: usize,
    /// Byte offset right behind the `>` of its opening tag.
    pub tag_end: usize,
    pub tag: String,
    pub data_name: String,
    pub data_node_id: String,
    /// The opening tag closes itself.
    pub self_close: bool,
}

/// A candidate with its texts taken by view.
pub struct CandidateView {
    pub tag_start: int,
    pub tag_end: int,
    pub tag: Seq<char>,
    pub data_name: Seq<char>,
    pub data_node_id: Seq<char>,
    pub self_close: bool,
}

impl View for Candidate {
    type V = CandidateView;

    open spec fn view(&self) -> CandidateView {
        CandidateView {
            tag_start: self.tag_start as int,
            tag_end: self.tag_end as int,
            tag: self.tag@,
            data_name: self.data_name@,
            data_node_id: self.data_node_id@,
            self_close: self.self_close,
        }
    }
}

/// The candidates taken by view.
pub open spec fn candidates_view(l: Seq<Candidate>) -> Seq<CandidateView> {
    l.map_values(|c: Candidate| c@)
}

/// The id of a node inside an instance that was written out: it has a `;`.
pub open spec fn is_sub_node(id: Seq<char>) -> bool {
    id.contains(';')
}

/// The candidate that an opening tag is: one with a name and with the id of a
/// node that is not inside another instance.
pub open spec fn candidate_at(code: Seq<char>, m: Seq<Option<(usize, usize)>>) -> Option<
    CandidateView,
> {
    if m.len() < 3 || m[1] is None || m[2] is None {
        None
    } else {
        let (whole, tag, rest) = (m[0]->0, m[1]->0, m[2]->0);
        let attrs = cut(code, rest.0 as int, rest.1 as int);
        match (attribute(attrs, "data-name"@), attribute(attrs, "data-node-id"@)) {
            (Some(name), Some(id)) => if is_sub_node(id) {
                None
            } else {
                Some(
                    CandidateView {
                        tag_start: whole.0 as int,
                        tag_end: whole.1 as int,
                        tag: cut(code, tag.0 as int, tag.1 as int),
                        data_name: name,
                        data_node_id: id,
                        self_close: is_self_closing(attrs),
                    },
                )
            },
            _ => None,
        }
    }
}

/// The candidates among the opening tags, as they come.
pub open spec fn candidates(code: Seq<char>, found: Seq<Seq<Option<(usize, usize)>>>) -> Seq<
    CandidateView,
>
    decreases found.len(),
{
    if found.len() == 0 {
        Seq::empty()
    } else {
        let l = candidates(code, found.drop_last());
        match candidate_at(code, found.last()) {
            Some(c) => l.push(c),
            None => l,
        }
    }
}

fn read_candidate(code: &str, m: &Groups) -> (res: Option<Candidate>)
    requires
        is_match(code@, m@),
    ensures
        match res {
            Some(c) => candidate_at(code@, m@) == Some(c@) && c.tag_start <= c.tag_end && at_boundary(
                utf8(code@),
                c.tag_start as int,
            ) && at_boundary(utf8(code@), c.tag_end as int),
            None => candidate_at(code@, m@) is None,
        },
{
    if m.len() < 3 {
        return None;
    }
    match (m[0], m[1], m[2]) {
        (Some(whole), Some(tag), Some(rest)) => {
            assert(m@[0] is Some && m@[1] is Some && m@[2] is Some);
            let attrs = slice(code, rest.0, rest.1);
            match (attr_value(attrs, "data-name"), attr_value(attrs, "data-node-id")) {
                (Some(name), Some(id)) => {
                    if has_char(id, ';') {
                        return None;
                    }
                    Some(
                        Candidate {
                            tag_start: whole.0,
                            tag_end: whole.1,
                            tag: slice(code, tag.0, tag.1).to_string(),
                            data_name: name.to_string(),
                            data_node_id: id.to_string(),
                            self_close: self_closing(attrs),
                        },
                    )
                },
                _ => None,
            }
        },
        _ => None,
    }
}

/// Every candidate has the byte range of its opening tag.
pub open spec fn well_placed(code: Seq<char>, l: Seq<CandidateView>) -> bool {
    forall|i: int|
        0 <= i < l.len() ==> (#[trigger] l[i]).tag_start <= l[i].tag_end && 0 <= l[i].tag_start
            && at_boundary(utf8(code), l[i].tag_start) && at_boundary(utf8(code), l[i].tag_end)
}

/// The candidates among the opening tags that were found.
pub fn candidates_among(code: &str, found: &Vec<Groups>) -> (res: Vec<Candidate>)
    requires
        are_matches(code@, groups_of(found@)),
    ensures
        candidates_view(res@) == candidates(code@, groups_of(found@)),
        well_placed(code@, candidates_view(res@)),
{
    let mut res: Vec<Candidate> = Vec::new();
    let mut i: usize = 0;
    let ghost all = groups_of(found@);
    assert(candidates_view(res@) =~= candidates(code@, all.take(0)));
    while i < found.len()
        invariant
            i <= found@.len(),
            all == groups_of(found@),
            are_matches(code@, all),
            candidates_view(res@) == candidates(code@, all.take(i as int)),
            well_placed(code@, candidates_view(res@)),
        decreases found@.len() - i,
    {
        let ghost before = candidates_view(res@);
        assert(all[i as int] == found@[i as int]@);
        assert(all.take(i + 1).drop_last() =~= all.take(i as int));
        match read_candidate(code, &found[i]) {
            Some(c) => {
                res.push(c);
                assert(candidates_view(res@) =~= before.push(c@));
            },
            None => {},
        }
        i += 1;
    }
    assert(all.take(i as int) =~= all);
    res
}

/// The roots of the instances in the code.
pub fn find_inline_instance_candidates(code: &str) -> (res: Vec<Candidate>)
    ensures
        candidates_view(res@) == candidates(code@, regex_matches(OPENING_TAG@, code@)),
{
    candidates_among(code, &known_matches(OPENING_TAG, code))
}

/// A candidate has its name and id from its opening tag, and no node inside
/// another instance is a candidate.
pub proof fn law_candidates(
    code: Seq<char>,
    found: Seq<Seq<Option<(usize, usize)>>>,
    i: int,
)
    requires
        0 <= i < candidates(code, found).len(),
    ensures
        !is_sub_node(candidates(code, found)[i].data_node_id),
        exists|k: int|
            0 <= k < found.len() && candidate_at(code, #[trigger] found[k]) == Some(
                candidates(code, found)[i],
            ),
    decreases found.len(),
{
    let l = candidates(code, found.drop_last());
    if i < l.len() {
        law_candidates(code, found.drop_last(), i);
        let k = choose|k: int|
            0 <= k < found.drop_last().len() && candidate_at(
                code,
                #[trigger] found.drop_last()[k],
            ) == Some(l[i]);
        assert(found[k] == found.drop_last()[k]);
    } else {
        assert(candidate_at(code, found[found.len() - 1]) == Some(candidates(code, found)[i]));
    }
}

// ---------------------------------------------------------------------------
// What replacing comes to
// ---------------------------------------------------------------------------

/// The component for a candidate: the one for its node id before the one for
/// its name.
pub open spec fn component_for(map: InstanceMapView, c: CandidateView) -> Option<EntryView> {
    match lookup(map.by_node_id, c.data_node_id) {
        Some(entry) => Some(entry),
        None => lookup(map.mappings, c.data_name),
    }
}

/// The key that a candidate is mapped by: its node id or its name.
pub open spec fn mapping_key(map: InstanceMapView, c: CandidateView) -> Seq<char> {
    match lookup(map.by_node_id, c.data_node_id) {
        Some(_) => c.data_node_id,
        None => c.data_name,
    }
}

/// Where the element of a candidate ends.
pub open spec fn element_end(code: Seq<char>, c: CandidateView) -> Option<int> {
    if c.self_close {
        Some(c.tag_end)
    } else {
        subtree_end(code, c.tag, c.tag_end, 1)
    }
}

/// A reference to a component.
pub open spec fn reference(local: Seq<char>) -> Seq<char> {
    "<"@ + local + " />"@
}

/// What has been decided so far.
pub struct Plan {
    /// The edits for the candidates, then those for the functions.
    pub edits: Seq<EditView>,
    /// For each edit for a candidate the key that it is mapped by.
    pub keys: Seq<Seq<char>>,
    pub imports: ImportsView,
    pub unmapped: Seq<(Seq<char>, u32)>,
    pub removed_functions: Seq<Seq<char>>,
}

/// Nothing decided.
pub open spec fn empty_plan() -> Plan {
    Plan {
        edits: Seq::empty(),
        keys: Seq::empty(),
        imports: Seq::empty(),
        unmapped: Seq::empty(),
        removed_functions: Seq::empty(),
    }
}

/// The plan after one more candidate; or the candidate whose element does not
/// end.
pub open spec fn with_candidate(
    code: Seq<char>,
    map: InstanceMapView,
    p: Plan,
    c: CandidateView,
) -> Result<Plan, CandidateView> {
    match component_for(map, c) {
        None => Ok(Plan { unmapped: counted(p.unmapped, c.data_name), ..p }),
        Some(entry) => match element_end(code, c) {
            None => Err(c),
            Some(end) => {
                let local = binding(entry, c.data_name);
                Ok(
                    Plan {
                        edits: p.edits.push(
                            EditView { start: c.tag_start, end, replacement: reference(local) },
                        ),
                        keys: p.keys.push(mapping_key(map, c)),
                        imports: added(p.imports, entry.module, entry.export, local),
                        ..p
                    },
                )
            },
        },
    }
}

/// The plan for the candidates.
pub open spec fn replacements(
    code: Seq<char>,
    map: InstanceMapView,
    l: Seq<CandidateView>,
) -> Result<Plan, CandidateView>
    decreases l.len(),
{
    if l.len() == 0 {
        Ok(empty_plan())
    } else {
        match replacements(code, map, l.drop_last()) {
            Ok(p) => with_candidate(code, map, p, l.last()),
            Err(c) => Err(c),
        }
    }
}

/// The plan with the top-level functions removed whose names are mapped. Each
/// component is imported under the name of its function.
pub open spec fn with_removals(
    code: Seq<char>,
    p: Plan,
    mappings: Seq<(Seq<char>, EntryView)>,
) -> Plan
    decreases mappings.len(),
{
    if mappings.len() == 0 {
        p
    } else {
        let q = with_removals(code, p, mappings.drop_last());
        let (name, entry) = mappings.last();
        match top_level_function(code, name) {
            None => q,
            Some((start, end)) => Plan {
                edits: q.edits.push(EditView { start, end, replacement: Seq::empty() }),
                imports: added(q.imports, entry.module, entry.export, name),
                removed_functions: q.removed_functions.push(name),
                ..q
            },
        }
    }
}

/// One name that stands for different nodes: the name, the id of the first
/// node and that of another.
pub struct CollisionView {
    pub data_name: Seq<char>,
    pub first: Seq<char>,
    pub other: Seq<char>,
}

/// The first candidate from `i` on that has the name.
pub open spec fn first_named(l: Seq<CandidateView>, name: Seq<char>, i: int) -> Option<CandidateView>
    decreases l.len() - i,
{
    if i < 0 || i >= l.len() {
        None
    } else if l[i].data_name == name {
        Some(l[i])
    } else {
        first_named(l, name, i + 1)
    }
}

/// The candidates with a mapped name whose id differs from that of the first
/// candidate of the same name.
pub open spec fn collisions(map: InstanceMapView, l: Seq<CandidateView>) -> Seq<CollisionView>
    decreases l.len(),
{
    if l.len() == 0 {
        Seq::empty()
    } else {
        let before = collisions(map, l.drop_last());
        let c = l.last();
        match first_named(l.drop_last(), c.data_name, 0) {
            Some(first) => if first.data_node_id != c.data_node_id && lookup(
                map.mappings,
                c.data_name,
            ) is Some {
                before.push(
                    CollisionView {
                        data_name: c.data_name,
                        first: first.data_node_id,
                        other: c.data_node_id,
                    },
                )
            } else {
                before
            },
            None => before,
        }
    }
}

/// What replacing gives.
pub struct OutputView {
    pub imports: ImportsView,
    pub body: Seq<char>,
    pub replaced: Seq<(Seq<char>, u32)>,
    pub unmapped: Seq<(Seq<char>, u32)>,
    pub removed_functions: Seq<Seq<char>>,
    pub collisions: Seq<CollisionView>,
}

/// The edits that are made: one that starts inside an outer one goes with it.
pub open spec fn made(edits: Seq<EditView>) -> Seq<EditView> {
    outermost(sorted(edits, Order::Outer))
}

/// How often each key occurs among the first `n` whose edits are made.
pub open spec fn made_counts(edits: Seq<EditView>, keys: Seq<Seq<char>>, n: nat) -> Seq<
    (Seq<char>, u32),
>
    decreases n,
{
    if n == 0 {
        Seq::empty()
    } else {
        let before = made_counts(edits, keys, (n - 1) as nat);
        if made(edits).contains(edits[n - 1]) {
            counted(before, keys[n - 1])
        } else {
            before
        }
    }
}

/// What replacing gives for the candidates; or the candidate whose element
/// does not end.
pub open spec fn outcome(
    code: Seq<char>,
    map: InstanceMapView,
    l: Seq<CandidateView>,
) -> Result<OutputView, CandidateView> {
    match replacements(code, map, l) {
        Err(c) => Err(c),
        Ok(p) => {
            let q = with_removals(code, p, map.mappings);
            Ok(
                OutputView {
                    imports: q.imports,
                    body: spliced(code, made(q.edits)),
                    replaced: made_counts(q.edits, q.keys, q.keys.len()),
                    unmapped: q.unmapped,
                    removed_functions: q.removed_functions,
                    collisions: collisions(map, l),
                },
            )
        },
    }
}

// ---------------------------------------------------------------------------
// Replacing
// ---------------------------------------------------------------------------

/// One name that stands for different nodes, all replaced by one component.
#[derive(Debug)]
pub struct Collision {
    pub data_name: String,
    /// The id of the first node of that name.
    pub first: String,
    /// The id of another one.
    pub other: String,
}

impl View for Collision {
    type V = CollisionView;

    open spec fn view(&self) -> CollisionView {
        CollisionView { data_name: self.data_name@, first: self.first@, other: self.other@ }
    }
}

/// The collisions taken by view.
pub open spec fn collisions_view(l: Seq<Collision>) -> Seq<CollisionView> {
    l.map_values(|c: Collision| c@)
}

/// What was replaced and what was not.
#[derive(Debug)]
pub struct Report {
    /// How many replacements were made, by the key that the instance is mapped
    /// by: its name or its node id. An instance inside one that was replaced is
    /// gone with it and does not count.
    pub replaced: TextMap<u32>,
    /// How often each name was not mapped.
    pub unmapped: TextMap<u32>,
    /// The top-level functions that were removed.
    pub removed_functions: Vec<String>,
    /// The names that stand for different nodes.
    pub collisions: Vec<Collision>,
}

/// The code with its instances replaced.
#[derive(Debug)]
pub struct Output {
    /// The imports to put above the body.
    pub imports: Imports,
    pub body: String,
    pub report: Report,
}

impl View for Output {
    type V = OutputView;

    open spec fn view(&self) -> OutputView {
        OutputView {
            imports: self.imports@,
            body: self.body@,
            replaced: self.report.replaced@,
            unmapped: self.report.unmapped@,
            removed_functions: views(self.report.removed_functions@),
            collisions: collisions_view(self.report.collisions@),
        }
    }
}

/// The closing tag of an element to be replaced is missing.
#[derive(Debug)]
pub struct ReplaceError {
    pub tag: String,
    /// Byte offset of the opening tag.
    pub at: usize,
}

impl ReplaceError {
    /// Says which tag is not closed.
    pub fn message(&self) -> (res: String)
        ensures
            res@ == "could not find closing </"@ + self.tag@ + "> for opening tag at byte "@
                + decimal(self.at as nat),
    {
        let mut res: String = "could not find closing </".to_string();
        res.append(self.tag.as_str());
        res.append("> for opening tag at byte ");
        res.append(decimal_text(self.at as u64).as_str());
        res
    }
}

/// The component for a candidate, and the key that it is mapped by.
fn component<'a>(map: &'a InstanceMap, c: &'a Candidate) -> (res: Option<(&'a Entry, &'a str)>)
    ensures
        match res {
            Some((e, key)) => component_for(map@, c@) == Some(e@) && key@ == mapping_key(map@, c@),
            None => component_for(map@, c@) is None,
        },
{
    proof {
        let any: Entry = arbitrary();
        lemma_mapped(map.by_node_id@, entry_view(), c.data_node_id@, any);
        lemma_mapped(map.mappings@, entry_view(), c.data_name@, any);
    }
    match map.by_node_id.get(c.data_node_id.as_str()) {
        Some(e) => Some((e, c.data_node_id.as_str())),
        None => match map.mappings.get(c.data_name.as_str()) {
            Some(e) => Some((e, c.data_name.as_str())),
            None => None,
        },
    }
}

/// The collisions among the candidates.
fn find_collisions(map: &InstanceMap, l: &Vec<Candidate>) -> (res: Vec<Collision>)
    ensures
        collisions_view(res@) == collisions(map@, candidates_view(l@)),
{
    let ghost all = candidates_view(l@);
    let mut res: Vec<Collision> = Vec::new();
    let mut i: usize = 0;
    assert(collisions_view(res@) =~= collisions(map@, all.take(0)));
    while i < l.len()
        invariant
            all == candidates_view(l@),
            i <= l@.len(),
            collisions_view(res@) == collisions(map@, all.take(i as int)),
        decreases l@.len() - i,
    {
        let c = &l[i];
        let ghost before = collisions_view(res@);
        let ghost earlier = all.take(i as int);
        assert(all.take(i + 1).drop_last() =~= earlier);
        assert(all[i as int] == c@);
        let mut j: usize = 0;
        while j < i && !same(l[j].data_name.as_str(), c.data_name.as_str())
            invariant
                all == candidates_view(l@),
                earlier == all.take(i as int),
                j <= i < l@.len(),
                c@ == l@[i as int]@,
                first_named(earlier, c@.data_name, 0) == first_named(
                    earlier,
                    c@.data_name,
                    j as int,
                ),
            decreases i - j,
        {
            assert(earlier[j as int] == l@[j as int]@);
            j += 1;
        }
        if j < i {
            assert(earlier[j as int] == l@[j as int]@);
            proof {
                let any: Entry = arbitrary();
                lemma_mapped(map.mappings@, entry_view(), c.data_name@, any);
            }
            if !same(l[j].data_node_id.as_str(), c.data_node_id.as_str())
                && map.mappings.contains_key(c.data_name.as_str()) {
                let found = Collision {
                    data_name: c.data_name.clone(),
                    first: l[j].data_node_id.clone(),
                    other: c.data_node_id.clone(),
                };
                res.push(found);
                assert(collisions_view(res@) =~= before.push(found@));
            }
        }
        i += 1;
    }
    assert(all.take(i as int) =~= all);
    res
}

/// Count the keys whose edits are made.
fn count_made(edits: &Vec<Edit>, keys: &Vec<String>, kept: &Vec<Edit>) -> (res: TextMap<u32>)
    requires
        keys@.len() <= edits@.len(),
        edits_of(kept@) == made(edits_of(edits@)),
    ensures
        res@ == made_counts(edits_of(edits@), views(keys@), keys@.len()),
{
    let ghost (all, names) = (edits_of(edits@), views(keys@));
    let mut res: TextMap<u32> = TextMap::new();
    let mut i: usize = 0;
    while i < keys.len()
        invariant
            i <= keys@.len() <= edits@.len(),
            (all, names) == (edits_of(edits@), views(keys@)),
            edits_of(kept@) == made(all),
            res@ == made_counts(all, names, i as nat),
        decreases keys@.len() - i,
    {
        assert(all[i as int] == edits@[i as int]@);
        assert(names[i as int] == keys@[i as int]@);
        if is_among(kept, &edits[i]) {
            res.count(keys[i].as_str());
        }
        i += 1;
    }
    res
}

/// A plan being made.
struct Draft {
    edits: Vec<Edit>,
    keys: Vec<String>,
    imports: Imports,
    unmapped: TextMap<u32>,
    removed_functions: Vec<String>,
}

impl View for Draft {
    type V = Plan;

    closed spec fn view(&self) -> Plan {
        Plan {
            edits: edits_of(self.edits@),
            keys: views(self.keys@),
            imports: self.imports@,
            unmapped: self.unmapped@,
            removed_functions: views(self.removed_functions@),
        }
    }
}

impl Draft {
    fn new() -> (res: Self)
        ensures
            res@ == empty_plan(),
    {
        let res = Draft {
            edits: Vec::new(),
            keys: Vec::new(),
            imports: Imports::new(),
            unmapped: TextMap::new(),
            removed_functions: Vec::new(),
        };
        assert(res@.edits =~= Seq::empty());
        assert(res@.keys =~= Seq::empty());
        assert(res@.removed_functions =~= Seq::empty());
        res
    }

    fn push_edit(&mut self, start: usize, end: usize, replacement: String)
        ensures
            final(self)@ == (Plan {
                edits: old(self)@.edits.push(
                    EditView { start: start as int, end: end as int, replacement: replacement@ },
                ),
                ..old(self)@
            }),
    {
        let ghost before = edits_of(self.edits@);
        let e = Edit { start, end, replacement };
        self.edits.push(e);
        assert(edits_of(self.edits@) =~= before.push(e@));
    }

    /// Decide on one candidate. Nothing comes of it where its element does not
    /// end.
    fn take_candidate(&mut self, code: &str, map: &InstanceMap, c: &Candidate) -> (res: bool)
        requires
            c.tag_start <= c.tag_end,
            at_boundary(utf8(code@), c.tag_start as int),
            at_boundary(utf8(code@), c.tag_end as int),
            all_fit(code@, old(self)@.edits),
        ensures
            res ==> with_candidate(code@, map@, old(self)@, c@) == Ok::<Plan, CandidateView>(
                final(self)@,
            ),
            res ==> all_fit(code@, final(self)@.edits),
            !res ==> with_candidate(code@, map@, old(self)@, c@) == Err::<Plan, CandidateView>(c@),
    {
        match component(map, c) {
            None => {
                self.unmapped.count(c.data_name.as_str());
                true
            },
            Some((entry, key)) => {
                let end: usize = if c.self_close {
                    c.tag_end
                } else {
                    match find_subtree_end(code, c.tag_end, c.tag.as_str()) {
                        Some(end) => end,
                        None => {
                            return false;
                        },
                    }
                };
                let local = InstanceMap::resolve_binding(entry, c.data_name.as_str());
                let mut text: String = "<".to_string();
                text.append(local.as_str());
                text.append(" />");
                self.push_edit(c.tag_start, end, text);
                self.imports.add(entry.module.as_str(), entry.export.as_str(), local.as_str());
                let ghost before = views(self.keys@);
                self.keys.push(key.to_string());
                assert(views(self.keys@) =~= before.push(key@));
                true
            },
        }
    }

    /// Remove one top-level function, where there is one of that name.
    fn remove_function(&mut self, code: &str, name: &str, entry: &Entry)
        requires
            all_fit(code@, old(self)@.edits),
        ensures
            all_fit(code@, final(self)@.edits),
            final(self)@ == (match top_level_function(code@, name@) {
                None => old(self)@,
                Some((start, end)) => Plan {
                    edits: old(self)@.edits.push(
                        EditView { start, end, replacement: Seq::empty() },
                    ),
                    imports: added(
                        old(self)@.imports,
                        entry@.module,
                        entry@.export,
                        name@,
                    ),
                    removed_functions: old(self)@.removed_functions.push(name@),
                    ..old(self)@
                },
            }),
    {
        if let Some((start, end)) = find_top_level_function(code, name) {
            self.push_edit(start, end, String::new());
            self.imports.add(entry.module.as_str(), entry.export.as_str(), name);
            let ghost before = views(self.removed_functions@);
            self.removed_functions.push(name.to_string());
            assert(views(self.removed_functions@) =~= before.push(name@));
            assert(self@.edits.last().replacement =~= Seq::empty());
        }
    }
}

/// Once an element does not end, nothing comes of the rest.
proof fn lemma_replacements_err(
    code: Seq<char>,
    map: InstanceMapView,
    l: Seq<CandidateView>,
    i: int,
    c: CandidateView,
)
    requires
        0 <= i <= l.len(),
        replacements(code, map, l.take(i)) == Err::<Plan, CandidateView>(c),
    ensures
        replacements(code, map, l) == Err::<Plan, CandidateView>(c),
    decreases l.len() - i,
{
    if i < l.len() {
        assert(l.take(i + 1).drop_last() =~= l.take(i));
        lemma_replacements_err(code, map, l, i + 1, c);
    } else {
        assert(l.take(i) =~= l);
    }
}

/// Replace the instances among the opening tags that were found.
pub fn process_matches(code: &str, map: &InstanceMap, found: &Vec<Groups>) -> (res: Result<
    Output,
    ReplaceError,
>)
    requires
        are_matches(code@, groups_of(found@)),
    ensures
        match res {
            Ok(out) => outcome(code@, map@, candidates(code@, groups_of(found@))) == Ok::<
                OutputView,
                CandidateView,
            >(out@),
            Err(e) => match outcome(code@, map@, candidates(code@, groups_of(found@))) {
                Ok(_) => false,
                Err(c) => e.tag@ == c.tag && e.at == c.tag_start,
            },
        },
{
    let l = candidates_among(code, found);
    let ghost all = candidates_view(l@);
    let mut draft = Draft::new();
    let mut i: usize = 0;
    assert(replacements(code@, map@, all.take(0)) == Ok::<Plan, CandidateView>(draft@));
    while i < l.len()
        invariant
            all == candidates_view(l@),
            all == candidates(code@, groups_of(found@)),
            well_placed(code@, all),
            i <= l@.len(),
            all_fit(code@, draft@.edits),
            draft@.keys.len() <= draft@.edits.len(),
            replacements(code@, map@, all.take(i as int)) == Ok::<Plan, CandidateView>(draft@),
        decreases l@.len() - i,
    {
        let c = &l[i];
        assert(all[i as int] == c@);
        assert(all.take(i + 1).drop_last() =~= all.take(i as int));
        if !draft.take_candidate(code, map, c) {
            proof {
                lemma_replacements_err(code@, map@, all, i + 1, c@);
            }
            return Err(ReplaceError { tag: c.tag.clone(), at: c.tag_start });
        }
        i += 1;
    }
    assert(all.take(i as int) =~= all);
    let found_collisions = find_collisions(map, &l);
    let ghost p = draft@;
    let ghost mappings = map@.mappings;
    let n: usize = map.mappings.len();
    let mut k: usize = 0;
    assert(with_removals(code@, p, mappings.take(0)) == draft@);
    while k < n
        invariant
            n == map.mappings@.len(),
            mappings == mapped(map.mappings@, entry_view()),
            k <= n,
            all_fit(code@, draft@.edits),
            draft@.keys.len() <= draft@.edits.len(),
            draft@ == with_removals(code@, p, mappings.take(k as int)),
        decreases n - k,
    {
        let name = map.mappings.key_at(k);
        let entry = map.mappings.value_at(k);
        assert(mappings[k as int] == (name@, entry@));
        assert(mappings.take(k + 1).drop_last() =~= mappings.take(k as int));
        draft.remove_function(code, name, entry);
        k += 1;
    }
    assert(mappings.take(k as int) =~= mappings);
    let ghost edits = draft@.edits;
    let in_order = sort(&draft.edits, &Order::Outer);
    proof {
        law_sorted(edits, Order::Outer);
        lemma_sorted_fit(code@, edits);
        law_outermost(code@, sorted(edits, Order::Outer));
    }
    let kept = keep_outermost(&in_order);
    let body = splice(code, &kept);
    assert(views(draft.keys@).len() == draft.keys@.len());
    let replaced = count_made(&draft.edits, &draft.keys, &kept);
    Ok(
        Output {
            imports: draft.imports,
            body,
            report: Report {
                replaced,
                unmapped: draft.unmapped,
                removed_functions: draft.removed_functions,
                collisions: found_collisions,
            },
        },
    )
}

/// Sorted edits are edits to the text as before.
proof fn lemma_sorted_fit(code: Seq<char>, edits: Seq<EditView>)
    requires
        all_fit(code, edits),
    ensures
        all_fit(code, sorted(edits, Order::Outer)),
{
    let s = sorted(edits, Order::Outer);
    law_sorted(edits, Order::Outer);
    assert forall|i: int| 0 <= i < s.len() implies fits(code, #[trigger] s[i]) by {
        broadcast use vstd::seq_lib::group_to_multiset_ensures;

        assert(s.contains(s[i]));
        assert(s.to_multiset().count(s[i]) > 0);
        assert(edits.contains(s[i]));
        let k = choose|k: int| 0 <= k < edits.len() && edits[k] == s[i];
        assert(fits(code, edits[k]));
    }
}

/// Replace the instances in the code by the components that they are mapped
/// to, and remove the top-level functions whose names are mapped.
pub fn process(code: &str, map: &InstanceMap) -> (res: Result<Output, ReplaceError>)
    ensures
        match res {
            Ok(out) => outcome(
                code@,
                map@,
                candidates(code@, regex_matches(OPENING_TAG@, code@)),
            ) == Ok::<OutputView, CandidateView>(out@),
            Err(e) => match outcome(
                code@,
                map@,
                candidates(code@, regex_matches(OPENING_TAG@, code@)),
            ) {
                Ok(_) => false,
                Err(c) => e.tag@ == c.tag && e.at == c.tag_start,
            },
        },
{
    process_matches(code, map, &known_matches(OPENING_TAG, code))
}

// ---------------------------------------------------------------------------
// Laws
// ---------------------------------------------------------------------------

/// A component that is mapped to the node id goes before one that is mapped to
/// the name.
pub proof fn law_node_id_goes_first(map: InstanceMapView, c: CandidateView)
    ensures
        lookup(map.by_node_id, c.data_node_id) is Some ==> component_for(map, c) == lookup(
            map.by_node_id,
            c.data_node_id,
        ),
        lookup(map.by_node_id, c.data_node_id) is None ==> component_for(map, c) == lookup(
            map.mappings,
            c.data_name,
        ),
{
}

/// Replacing fails exactly where a mapped candidate has no closing tag, and
/// names the first of them.
pub proof fn law_failure(code: Seq<char>, map: InstanceMapView, l: Seq<CandidateView>)
    ensures
        match outcome(code, map, l) {
            Ok(_) => forall|i: int|
                0 <= i < l.len() && component_for(map, #[trigger] l[i]) is Some ==> element_end(
                    code,
                    l[i],
                ) is Some,
            Err(c) => exists|i: int|
                {
                    &&& 0 <= i < l.len()
                    &&& #[trigger] l[i] == c
                    &&& component_for(map, c) is Some
                    &&& element_end(code, c) is None
                    &&& forall|j: int|
                        0 <= j < i && component_for(map, #[trigger] l[j]) is Some ==> element_end(
                            code,
                            l[j],
                        ) is Some
                },
        },
    decreases l.len(),
{
    if l.len() > 0 {
        let d = l.drop_last();
        law_failure(code, map, d);
        match replacements(code, map, d) {
            Ok(p) => {
                assert forall|j: int|
                    0 <= j < d.len() && component_for(
                        map,
                        #[trigger] l[j],
                    ) is Some implies element_end(code, l[j]) is Some by {
                    assert(d[j] == l[j]);
                }
                if with_candidate(code, map, p, l.last()) is Err {
                    assert(l[l.len() - 1] == l.last());
                }
            },
            Err(c) => {
                let i = choose|i: int|
                    {
                        &&& 0 <= i < d.len()
                        &&& #[trigger] d[i] == c
                        &&& component_for(map, c) is Some
                        &&& element_end(code, c) is None
                        &&& forall|j: int|
                            0 <= j < i && component_for(map, #[trigger] d[j]) is Some
                                ==> element_end(code, d[j]) is Some
                    };
                assert(l[i] == c);
                assert forall|j: int|
                    0 <= j < i && component_for(map, #[trigger] l[j]) is Some implies element_end(
                    code,
                    l[j],
                ) is Some by {
                    assert(d[j] == l[j]);
                }
            },
        }
    }
}

/// How many of the first `n` edits are made.
pub open spec fn number_made(edits: Seq<EditView>, n: nat) -> nat
    decreases n,
{
    if n == 0 {
        0
    } else {
        number_made(edits, (n - 1) as nat) + if made(edits).contains(edits[n - 1]) {
            1nat
        } else {
            0
        }
    }
}

/// Every candidate is counted: as not mapped, or by its edit; and what is
/// reported as replaced are the edits for candidates that are made.
pub proof fn law_every_candidate_counted(
    code: Seq<char>,
    map: InstanceMapView,
    l: Seq<CandidateView>,
)
    requires
        l.len() <= u32::MAX,
        outcome(code, map, l) is Ok,
    ensures
        ({
            let out = outcome(code, map, l)->Ok_0;
            let q = with_removals(code, replacements(code, map, l)->Ok_0, map.mappings);
            &&& q.keys.len() + total(out.unmapped) == l.len()
            &&& q.keys.len() <= q.edits.len()
            &&& total(out.replaced) == number_made(q.edits, q.keys.len())
        }),
{
    let p = replacements(code, map, l)->Ok_0;
    lemma_candidates_counted(code, map, l);
    lemma_removals_keep_counts(code, p, map.mappings);
    let q = with_removals(code, p, map.mappings);
    lemma_total_nonnegative(p.unmapped);
    lemma_made_counts(q.edits, q.keys, q.keys.len());
}

proof fn lemma_made_counts(edits: Seq<EditView>, keys: Seq<Seq<char>>, n: nat)
    requires
        n <= u32::MAX,
    ensures
        total(made_counts(edits, keys, n)) == number_made(edits, n),
        number_made(edits, n) <= n,
    decreases n,
{
    if n > 0 {
        lemma_made_counts(edits, keys, (n - 1) as nat);
        lemma_total_counted(made_counts(edits, keys, (n - 1) as nat), keys[n - 1]);
    }
}

proof fn lemma_candidates_counted(code: Seq<char>, map: InstanceMapView, l: Seq<CandidateView>)
    requires
        l.len() <= u32::MAX,
        replacements(code, map, l) is Ok,
    ensures
        ({
            let p = replacements(code, map, l)->Ok_0;
            &&& p.keys.len() + total(p.unmapped) == l.len()
            &&& p.keys.len() == p.edits.len()
        }),
    decreases l.len(),
{
    if l.len() > 0 {
        lemma_candidates_counted(code, map, l.drop_last());
        let p = replacements(code, map, l.drop_last())->Ok_0;
        lemma_total_nonnegative(p.unmapped);
        lemma_total_counted(p.unmapped, l.last().data_name);
    }
}

proof fn lemma_removals_keep_counts(
    code: Seq<char>,
    p: Plan,
    mappings: Seq<(Seq<char>, EntryView)>,
)
    ensures
        with_removals(code, p, mappings).keys == p.keys,
        with_removals(code, p, mappings).unmapped == p.unmapped,
        p.edits.len() <= with_removals(code, p, mappings).edits.len(),
    decreases mappings.len(),
{
    if mappings.len() > 0 {
        lemma_removals_keep_counts(code, p, mappings.drop_last());
    }
}

/// Where nothing is mapped, the code stays as it is and nothing is imported.
pub proof fn law_nothing_mapped(code: Seq<char>, map: InstanceMapView, l: Seq<CandidateView>)
    requires
        map.mappings.len() == 0,
        map.by_node_id.len() == 0,
    ensures
        outcome(code, map, l) is Ok,
        outcome(code, map, l)->Ok_0.body == code,
        outcome(code, map, l)->Ok_0.imports.len() == 0,
        outcome(code, map, l)->Ok_0.replaced.len() == 0,
        outcome(code, map, l)->Ok_0.removed_functions.len() == 0,
        outcome(code, map, l)->Ok_0.collisions.len() == 0,
    decreases l.len(),
{
    lemma_cut_all(code);
    if l.len() > 0 {
        law_nothing_mapped(code, map, l.drop_last());
        lemma_nothing_mapped(code, map, l.drop_last());
    }
    lemma_nothing_mapped(code, map, l);
    let edits = Seq::<EditView>::empty();
    assert(outermost(sorted(edits, Order::Outer)) =~= edits);
}

proof fn lemma_nothing_mapped(code: Seq<char>, map: InstanceMapView, l: Seq<CandidateView>)
    requires
        map.mappings.len() == 0,
        map.by_node_id.len() == 0,
    ensures
        replacements(code, map, l) is Ok,
        replacements(code, map, l)->Ok_0 == (Plan {
            unmapped: replacements(code, map, l)->Ok_0.unmapped,
            ..empty_plan()
        }),
    decreases l.len(),
{
    if l.len() > 0 {
        lemma_nothing_mapped(code, map, l.drop_last());
        lemma_slot(map.mappings, l.last().data_name, 0);
        lemma_slot(map.by_node_id, l.last().data_node_id, 0);
    }
}

proof fn lemma_plan_fits(code: Seq<char>, map: InstanceMapView, l: Seq<CandidateView>)
    requires
        well_placed(code, l),
        replacements(code, map, l) is Ok,
    ensures
        all_fit(code, replacements(code, map, l)->Ok_0.edits),
    decreases l.len(),
{
    if l.len() > 0 {
        let (d, c) = (l.drop_last(), l.last());
        assert forall|i: int| 0 <= i < d.len() implies (#[trigger] d[i]).tag_start <= d[i].tag_end
            && 0 <= d[i].tag_start && at_boundary(utf8(code), d[i].tag_start) && at_boundary(
            utf8(code),
            d[i].tag_end,
        ) by {
            assert(l[i] == d[i]);
        }
        assert(l[l.len() - 1] == c);
        lemma_plan_fits(code, map, d);
        if !c.self_close && element_end(code, c) is Some {
            lemma_subtree_end(code, c.tag, c.tag_end, 1);
        }
    }
}

proof fn lemma_removals_fit(code: Seq<char>, p: Plan, mappings: Seq<(Seq<char>, EntryView)>)
    requires
        all_fit(code, p.edits),
    ensures
        all_fit(code, with_removals(code, p, mappings).edits),
    decreases mappings.len(),
{
    if mappings.len() > 0 {
        lemma_removals_fit(code, p, mappings.drop_last());
        if top_level_function(code, mappings.last().0) is Some {
            lemma_top_level_function(code, mappings.last().0);
        }
    }
}

/// The edits that are made are edits to whole characters and do not overlap;
/// every edit that was decided on is made or starts inside one that is.
pub proof fn law_edits_apart(code: Seq<char>, map: InstanceMapView, l: Seq<CandidateView>)
    requires
        well_placed(code, l),
        replacements(code, map, l) is Ok,
    ensures
        ({
            let edits = with_removals(
                code,
                replacements(code, map, l)->Ok_0,
                map.mappings,
            ).edits;
            let made = made(edits);
            &&& outcome(code, map, l)->Ok_0.body == spliced(code, made)
            &&& all_fit(code, made)
            &&& in_order(made)
            &&& forall|i: int|
                0 <= i < edits.len() ==> made.contains(#[trigger] edits[i]) || exists|k: int|
                    0 <= k < made.len() && starts_inside(edits[i], #[trigger] made[k])
        }),
{
    broadcast use vstd::seq_lib::group_to_multiset_ensures;

    let p = replacements(code, map, l)->Ok_0;
    let edits = with_removals(code, p, map.mappings).edits;
    let s = sorted(edits, Order::Outer);
    let made = made(edits);
    lemma_plan_fits(code, map, l);
    lemma_removals_fit(code, p, map.mappings);
    lemma_sorted_fit(code, edits);
    law_sorted(edits, Order::Outer);
    law_outermost(code, s);
    assert forall|i: int| 0 <= i < edits.len() implies made.contains(#[trigger] edits[i]) || exists|
        k: int,
    |
        0 <= k < made.len() && starts_inside(edits[i], #[trigger] made[k]) by {
        assert(edits.contains(edits[i]));
        assert(edits.to_multiset().count(edits[i]) > 0);
        assert(s.contains(edits[i]));
        let j = choose|j: int| 0 <= j < s.len() && s[j] == edits[i];
        assert(made.contains(s[j]) || exists|k: int|
            0 <= k < made.len() && starts_inside(s[j], #[trigger] made[k]));
    }
}

// ---------------------------------------------------------------------------
// Every reference is imported
// ---------------------------------------------------------------------------

/// The imports that the candidates bring.
pub open spec fn candidate_imports(map: InstanceMapView, l: Seq<CandidateView>) -> Seq<ImportView>
    decreases l.len(),
{
    if l.len() == 0 {
        Seq::empty()
    } else {
        let before = candidate_imports(map, l.drop_last());
        match component_for(map, l.last()) {
            None => before,
            Some(entry) => before.push(import_of(entry, binding(entry, l.last().data_name))),
        }
    }
}

/// The import of a component under a name.
pub open spec fn import_of(entry: EntryView, local: Seq<char>) -> ImportView {
    ImportView { module: entry.module, export: entry.export, local }
}

/// The imports that the removed functions bring.
pub open spec fn removal_imports(code: Seq<char>, mappings: Seq<(Seq<char>, EntryView)>) -> Seq<
    ImportView,
>
    decreases mappings.len(),
{
    if mappings.len() == 0 {
        Seq::empty()
    } else {
        let before = removal_imports(code, mappings.drop_last());
        let (name, entry) = mappings.last();
        match top_level_function(code, name) {
            None => before,
            Some(_) => before.push(import_of(entry, name)),
        }
    }
}

/// All the imports that replacing brings.
pub open spec fn imports_brought(
    code: Seq<char>,
    map: InstanceMapView,
    l: Seq<CandidateView>,
) -> Seq<ImportView> {
    candidate_imports(map, l) + removal_imports(code, map.mappings)
}

proof fn lemma_candidate_imports(code: Seq<char>, map: InstanceMapView, l: Seq<CandidateView>)
    requires
        replacements(code, map, l) is Ok,
    ensures
        replacements(code, map, l)->Ok_0.imports == all_added(candidate_imports(map, l)),
    decreases l.len(),
{
    if l.len() > 0 {
        lemma_candidate_imports(code, map, l.drop_last());
        if let Some(entry) = component_for(map, l.last()) {
            let before = candidate_imports(map, l.drop_last());
            let i = import_of(entry, binding(entry, l.last().data_name));
            assert(before.push(i).drop_last() =~= before);
        }
    }
}

proof fn lemma_removal_imports(
    code: Seq<char>,
    p: Plan,
    first: Seq<ImportView>,
    mappings: Seq<(Seq<char>, EntryView)>,
)
    requires
        p.imports == all_added(first),
    ensures
        with_removals(code, p, mappings).imports == all_added(
            first + removal_imports(code, mappings),
        ),
    decreases mappings.len(),
{
    if mappings.len() > 0 {
        lemma_removal_imports(code, p, first, mappings.drop_last());
        let (name, entry) = mappings.last();
        let before = removal_imports(code, mappings.drop_last());
        if top_level_function(code, name) is Some {
            let i = import_of(entry, name);
            assert((first + before.push(i)).drop_last() =~= first + before);
            assert((first + before.push(i)).last() == i);
        }
    } else {
        assert(first + removal_imports(code, mappings) =~= first);
    }
}

/// Everything that replacing imports is bound: an export that is imported
/// under one name only is bound to that name. So every reference to a replaced
/// candidate's component has its import, and every call of a removed function
/// finds the component under the function's name.
pub proof fn law_references_are_imported(
    code: Seq<char>,
    map: InstanceMapView,
    l: Seq<CandidateView>,
    i: ImportView,
)
    requires
        outcome(code, map, l) is Ok,
        imports_brought(code, map, l).contains(i),
        agree_on(imports_brought(code, map, l), i),
    ensures
        binding_of(outcome(code, map, l)->Ok_0.imports, i.module, i.export) == Some(i.local),
{
    let p = replacements(code, map, l)->Ok_0;
    lemma_candidate_imports(code, map, l);
    lemma_removal_imports(code, p, candidate_imports(map, l), map.mappings);
    law_import_is_bound(imports_brought(code, map, l), i);
}

/// A replaced candidate brings the import of its component.
pub proof fn law_candidate_brings_import(
    code: Seq<char>,
    map: InstanceMapView,
    l: Seq<CandidateView>,
    k: int,
)
    requires
        0 <= k < l.len(),
        component_for(map, l[k]) is Some,
    ensures
        ({
            let entry = component_for(map, l[k])->0;
            imports_brought(code, map, l).contains(
                import_of(entry, binding(entry, l[k].data_name)),
            )
        }),
{
    let entry = component_for(map, l[k])->0;
    let i = import_of(entry, binding(entry, l[k].data_name));
    lemma_candidate_brings(map, l, k);
    let m = choose|m: int| 0 <= m < candidate_imports(map, l).len() && candidate_imports(map, l)[m]
        == i;
    assert(imports_brought(code, map, l)[m] == i);
}

proof fn lemma_candidate_brings(map: InstanceMapView, l: Seq<CandidateView>, k: int)
    requires
        0 <= k < l.len(),
        component_for(map, l[k]) is Some,
    ensures
        ({
            let entry = component_for(map, l[k])->0;
            candidate_imports(map, l).contains(import_of(entry, binding(entry, l[k].data_name)))
        }),
    decreases l.len(),
{
    let entry = component_for(map, l[k])->0;
    let i = import_of(entry, binding(entry, l[k].data_name));
    let d = l.drop_last();
    let (before, all) = (candidate_imports(map, d), candidate_imports(map, l));
    if k < d.len() {
        assert(d[k] == l[k]);
        lemma_candidate_brings(map, d, k);
        let m = choose|m: int| 0 <= m < before.len() && before[m] == i;
        assert(all[m] == i);
    } else {
        assert(all[before.len() as int] == i);
    }
}

/// A removed function brings the import of its component under its own name.
pub proof fn law_removal_brings_import(
    code: Seq<char>,
    map: InstanceMapView,
    l: Seq<CandidateView>,
    k: int,
)
    requires
        0 <= k < map.mappings.len(),
        top_level_function(code, map.mappings[k].0) is Some,
    ensures
        imports_brought(code, map, l).contains(
            import_of(map.mappings[k].1, map.mappings[k].0),
        ),
{
    let i = import_of(map.mappings[k].1, map.mappings[k].0);
    let (first, second) = (candidate_imports(map, l), removal_imports(code, map.mappings));
    lemma_removal_brings(code, map.mappings, k);
    let m = choose|m: int| 0 <= m < second.len() && second[m] == i;
    assert(imports_brought(code, map, l)[first.len() + m] == i);
}

proof fn lemma_removal_brings(code: Seq<char>, mappings: Seq<(Seq<char>, EntryView)>, k: int)
    requires
        0 <= k < mappings.len(),
        top_level_function(code, mappings[k].0) is Some,
    ensures
        removal_imports(code, mappings).contains(import_of(mappings[k].1, mappings[k].0)),
    decreases mappings.len(),
{
    let i = import_of(mappings[k].1, mappings[k].0);
    let d = mappings.drop_last();
    let (before, all) = (removal_imports(code, d), removal_imports(code, mappings));
    if k < d.len() {
        assert(d[k] == mappings[k]);
        lemma_removal_brings(code, d, k);
        let m = choose|m: int| 0 <= m < before.len() && before[m] == i;
        assert(all[m] == i);
    } else {
        assert(all[before.len() as int] == i);
    }
}

/// The component of a candidate, said of the entries themselves: that of the
/// entry for its node id; where there is none, that of the entry for its name;
/// and none where there is neither.
pub proof fn law_component(map: InstanceMapView, c: CandidateView)
    requires
        ordered(map.by_node_id),
        ordered(map.mappings),
    ensures
        forall|i: int|
            0 <= i < map.by_node_id.len() && #[trigger] map.by_node_id[i].0 == c.data_node_id ==> {
                &&& component_for(map, c) == Some(map.by_node_id[i].1)
                &&& mapping_key(map, c) == c.data_node_id
            },
        (forall|i: int|
            0 <= i < map.by_node_id.len() ==> #[trigger] map.by_node_id[i].0 != c.data_node_id)
            ==> {
            &&& forall|i: int|
                0 <= i < map.mappings.len() && #[trigger] map.mappings[i].0 == c.data_name
                    ==> component_for(map, c) == Some(map.mappings[i].1) && mapping_key(map, c)
                    == c.data_name
            &&& (forall|i: int|
                0 <= i < map.mappings.len() ==> #[trigger] map.mappings[i].0 != c.data_name)
                ==> component_for(map, c) is None
        },
{
    law_lookup(map.by_node_id, c.data_node_id);
    law_lookup(map.mappings, c.data_name);
}

/// The candidates are found tag by tag, in the order of the tags.
pub proof fn law_candidates_tag_by_tag(
    code: Seq<char>,
    a: Seq<Seq<Option<(usize, usize)>>>,
    b: Seq<Seq<Option<(usize, usize)>>>,
)
    ensures
        candidates(code, a + b) == candidates(code, a) + candidates(code, b),
    decreases b.len(),
{
    if b.len() == 0 {
        assert(a + b =~= a);
        assert(candidates(code, a) + candidates(code, b) =~= candidates(code, a));
    } else {
        law_candidates_tag_by_tag(code, a, b.drop_last());
        assert((a + b).drop_last() =~= a + b.drop_last());
        assert(candidates(code, a + b) =~= candidates(code, a) + candidates(code, b));
    }
}

/// An opening tag is a candidate exactly where its attributes give a name and
/// an id without a `;`. The candidate has both of them, the tag's name and place,
/// and closes itself where the tag does.
pub proof fn law_candidate(
    code: Seq<char>,
    whole: (usize, usize),
    tag: (usize, usize),
    rest: (usize, usize),
    name: Seq<char>,
    id: Seq<char>,
)
    ensures
        ({
            let m = seq![Some(whole), Some(tag), Some(rest)];
            let attrs = cut(code, rest.0 as int, rest.1 as int);
            let l = candidates(code, seq![m]);
            &&& attribute(attrs, "data-name"@) == Some(name) && attribute(attrs, "data-node-id"@)
                == Some(id) && !id.contains(';') ==> {
                &&& l.len() == 1
                &&& l[0].tag_start == whole.0 && l[0].tag_end == whole.1
                &&& l[0].tag == cut(code, tag.0 as int, tag.1 as int)
                &&& l[0].data_name == name && l[0].data_node_id == id
                &&& l[0].self_close == is_self_closing(attrs)
            }
            &&& attribute(attrs, "data-name"@) is None ==> l.len() == 0
            &&& attribute(attrs, "data-node-id"@) is None ==> l.len() == 0
            &&& attribute(attrs, "data-node-id"@) == Some(id) && id.contains(';') ==> l.len() == 0
        }),
{
    let m = seq![Some(whole), Some(tag), Some(rest)];
    assert(seq![m].drop_last() =~= Seq::empty());
    assert(candidates(code, seq![m].drop_last()) =~= Seq::empty());
}

/// The candidates that have a component are replaced, and no others: each from
/// the start of its opening tag to where its element ends, by a reference to the
/// component under its name in the code, and under the key that mapped it.
pub proof fn law_replacements(code: Seq<char>, map: InstanceMapView, l: Seq<CandidateView>)
    requires
        replacements(code, map, l) is Ok,
    ensures
        ({
            let p = replacements(code, map, l)->Ok_0;
            let with_component = l.filter(|c: CandidateView| component_for(map, c) is Some);
            &&& p.edits.len() == with_component.len()
            &&& p.keys.len() == with_component.len()
            &&& p.removed_functions.len() == 0
            &&& forall|k: int|
                #![trigger p.edits[k]]
                #![trigger p.keys[k]]
                0 <= k < with_component.len() ==> {
                    let c = with_component[k];
                    let local = binding(component_for(map, c)->0, c.data_name);
                    &&& p.edits[k].start == c.tag_start
                    &&& c.self_close ==> p.edits[k].end == c.tag_end
                    &&& !c.self_close ==> subtree_end(code, c.tag, c.tag_end, 1) == Some(
                        p.edits[k].end,
                    )
                    &&& p.edits[k].replacement == "<"@ + local + " />"@
                    &&& lookup(map.by_node_id, c.data_node_id) is Some ==> p.keys[k]
                        == c.data_node_id
                    &&& lookup(map.by_node_id, c.data_node_id) is None ==> p.keys[k]
                        == c.data_name
                }
        }),
    decreases l.len(),
{
    reveal(Seq::filter);
    if l.len() > 0 {
        let d = l.drop_last();
        law_replacements(code, map, d);
        let f = |c: CandidateView| component_for(map, c) is Some;
        let (p, q) = (replacements(code, map, d)->Ok_0, replacements(code, map, l)->Ok_0);
        let (before, after) = (d.filter(f), l.filter(f));
        assert forall|k: int| 0 <= k < before.len() implies #[trigger] q.edits[k] == p.edits[k]
            && q.keys[k] == p.keys[k] && after[k] == before[k] by {}
        assert forall|k: int| 0 <= k < before.len() implies #[trigger] q.keys[k] == p.keys[k] by {
            assert(q.edits[k] == p.edits[k]);
        }
        if f(l.last()) {
            assert(after[before.len() as int] == l.last());
        }
    }
}

/// What is reported as not mapped: for every name how many candidates of that
/// name have no component.
pub proof fn law_unmapped(
    code: Seq<char>,
    map: InstanceMapView,
    l: Seq<CandidateView>,
    name: Seq<char>,
)
    requires
        replacements(code, map, l) is Ok,
        l.len() <= u32::MAX,
    ensures
        ({
            let unmapped = replacements(code, map, l)->Ok_0.unmapped;
            let n = l.filter(
                |c: CandidateView| component_for(map, c) is None && c.data_name == name,
            ).len();
            &&& ordered(unmapped)
            &&& n <= l.len()
            &&& n > 0 ==> lookup(unmapped, name) == Some(n as u32)
            &&& n == 0 ==> lookup(unmapped, name) is None
        }),
    decreases l.len(),
{
    reveal(Seq::filter);
    if l.len() > 0 {
        let d = l.drop_last();
        law_unmapped(code, map, d, name);
        law_counted(replacements(code, map, d)->Ok_0.unmapped, l.last().data_name, name);
    } else {
        law_lookup(Seq::<(Seq<char>, u32)>::empty(), name);
    }
}

/// The functions that are removed are those whose names are mapped and that
/// stand at the top level, in the order of the map. Each goes as a whole.
pub proof fn law_removals(code: Seq<char>, p: Plan, mappings: Seq<(Seq<char>, EntryView)>)
    ensures
        ({
            let q = with_removals(code, p, mappings);
            let there = mappings.filter(
                |e: (Seq<char>, EntryView)| top_level_function(code, e.0) is Some,
            );
            &&& q.removed_functions == p.removed_functions + there.map_values(
                |e: (Seq<char>, EntryView)| e.0,
            )
            &&& q.edits.len() == p.edits.len() + there.len()
            &&& forall|k: int| 0 <= k < p.edits.len() ==> #[trigger] q.edits[k] == p.edits[k]
            &&& forall|k: int|
                0 <= k < there.len() ==> {
                    let e = #[trigger] q.edits[p.edits.len() + k];
                    top_level_function(code, there[k].0) == Some((e.start, e.end))
                        && e.replacement.len() == 0
                }
            &&& q.keys == p.keys
            &&& q.unmapped == p.unmapped
        }),
    decreases mappings.len(),
{
    reveal(Seq::filter);
    let g = |e: (Seq<char>, EntryView)| e.0;
    let f = |e: (Seq<char>, EntryView)| top_level_function(code, e.0) is Some;
    let after = mappings.filter(f);
    if mappings.len() > 0 {
        let d = mappings.drop_last();
        law_removals(code, p, d);
        let before = d.filter(f);
        let (q, r) = (with_removals(code, p, d), with_removals(code, p, mappings));
        assert(r.removed_functions =~= p.removed_functions + after.map_values(g));
        let n = p.edits.len() as int;
        assert forall|k: int| 0 <= k < n implies #[trigger] r.edits[k] == p.edits[k] by {
            assert(r.edits[k] == q.edits[k]);
        }
        assert forall|k: int| 0 <= k < after.len() implies {
            let e = #[trigger] r.edits[n + k];
            top_level_function(code, after[k].0) == Some((e.start, e.end)) && e.replacement.len()
                == 0
        } by {
            if k < before.len() {
                assert(r.edits[n + k] == q.edits[n + k]);
                assert(after[k] == before[k]);
            } else {
                assert(after[k] == mappings.last());
            }
        }
    } else {
        assert(p.removed_functions + after.map_values(g) =~= p.removed_functions);
    }
}

proof fn lemma_first_named(l: Seq<CandidateView>, name: Seq<char>, from: int, i: int)
    requires
        0 <= from <= i <= l.len(),
        forall|j: int| from <= j < i ==> (#[trigger] l[j]).data_name != name,
    ensures
        first_named(l, name, from) == first_named(l, name, i),
    decreases i - from,
{
    if from < i {
        assert(l[from].data_name != name);
        lemma_first_named(l, name, from + 1, i);
    }
}

/// A candidate of a mapped name collides exactly where the first candidate
/// before it that has the same name has another id: it is reported with both
/// ids, behind the collisions of the candidates before it.
pub proof fn law_collisions(map: InstanceMapView, l: Seq<CandidateView>, c: CandidateView, i: int)
    ensures
        collisions(map, Seq::empty()).len() == 0,
        (forall|j: int| 0 <= j < l.len() ==> (#[trigger] l[j]).data_name != c.data_name)
            ==> collisions(map, l.push(c)) == collisions(map, l),
        lookup(map.mappings, c.data_name) is None ==> collisions(map, l.push(c)) == collisions(
            map,
            l,
        ),
        0 <= i < l.len() && l[i].data_name == c.data_name && (forall|j: int|
            0 <= j < i ==> (#[trigger] l[j]).data_name != c.data_name) ==> {
            &&& l[i].data_node_id == c.data_node_id ==> collisions(map, l.push(c)) == collisions(
                map,
                l,
            )
            &&& l[i].data_node_id != c.data_node_id && lookup(map.mappings, c.data_name) is Some
                ==> {
                let all = collisions(map, l.push(c));
                &&& all.len() == collisions(map, l).len() + 1
                &&& all.drop_last() == collisions(map, l)
                &&& all.last().data_name == c.data_name
                &&& all.last().first == l[i].data_node_id
                &&& all.last().other == c.data_node_id
            }
        },
{
    assert(l.push(c).drop_last() =~= l);
    assert(l.push(c).last() == c);
    if forall|j: int| 0 <= j < l.len() ==> (#[trigger] l[j]).data_name != c.data_name {
        lemma_first_named(l, c.data_name, 0, l.len() as int);
    }
    if 0 <= i < l.len() && l[i].data_name == c.data_name && (forall|j: int|
        0 <= j < i ==> (#[trigger] l[j]).data_name != c.data_name) {
        lemma_first_named(l, c.data_name, 0, i);
        if l[i].data_node_id != c.data_node_id && lookup(map.mappings, c.data_name) is Some {
            assert(collisions(map, l.push(c)).drop_last() =~= collisions(map, l));
        }
    }
}

/// What is reported as replaced: for every key how many of the edits under it
/// are made.
pub proof fn law_made_counts(
    edits: Seq<EditView>,
    keys: Seq<Seq<char>>,
    n: nat,
    key: Seq<char>,
)
    requires
        n <= u32::MAX,
    ensures
        ({
            let places = Seq::new(n, |i: int| i).filter(
                |i: int| made(edits).contains(edits[i]) && keys[i] == key,
            );
            let counts = made_counts(edits, keys, n);
            &&& ordered(counts)
            &&& places.len() <= n
            &&& places.len() > 0 ==> lookup(counts, key) == Some(places.len() as u32)
            &&& places.len() == 0 ==> lookup(counts, key) is None
        }),
    decreases n,
{
    reveal(Seq::filter);
    let all = Seq::new(n, |i: int| i);
    if n > 0 {
        let m = (n - 1) as nat;
        law_made_counts(edits, keys, m, key);
        law_counted(made_counts(edits, keys, m), keys[n - 1], key);
        assert(all.drop_last() =~= Seq::new(m, |i: int| i));
    } else {
        law_lookup(Seq::<(Seq<char>, u32)>::empty(), key);
    }
}

/// What replacing reports belongs together: the functions that are removed are
/// those mapped ones that stand at the top level, and an edit changes the code
/// unless it starts inside an outer one.
pub proof fn law_outcome(code: Seq<char>, map: InstanceMapView, l: Seq<CandidateView>)
    requires
        outcome(code, map, l) is Ok,
    ensures
        ({
            let out = outcome(code, map, l)->Ok_0;
            let p = replacements(code, map, l)->Ok_0;
            let q = with_removals(code, p, map.mappings);
            &&& out.removed_functions == map.mappings.filter(
                |e: (Seq<char>, EntryView)| top_level_function(code, e.0) is Some,
            ).map_values(|e: (Seq<char>, EntryView)| e.0)
            &&& out.unmapped == p.unmapped
            &&& out.replaced == made_counts(q.edits, p.keys, p.keys.len())
            &&& out.collisions == collisions(map, l)
            &&& out.body == spliced(code, made(q.edits))
        }),
{
    let p = replacements(code, map, l)->Ok_0;
    law_replacements(code, map, l);
    law_removals(code, p, map.mappings);
    let there = map.mappings.filter(
        |e: (Seq<char>, EntryView)| top_level_function(code, e.0) is Some,
    );
    assert(p.removed_functions + there.map_values(|e: (Seq<char>, EntryView)| e.0)
        =~= there.map_values(|e: (Seq<char>, EntryView)| e.0));
}

} // verus!
