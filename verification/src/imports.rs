//! The import statements that a rewritten file needs, one for each module.

use vstd::prelude::*;
use vstd::string::*;

use crate::chars::{join, joined, views};
use crate::text::same;
use crate::text_map::{
    law_listing_determined, law_lookup, law_put, law_text_order, lemma_mapped, lemma_put_twice,
    lemma_slot, lookup, mapped, ordered, put, slot_from, text_less, TextMap,
};

verus! {

/// What is imported from one module: the binding of its default export, and
/// the binding of each named export, listed in the order of the exports.
pub struct ImportSetView {
    pub default_binding: Option<Seq<char>>,
    pub named: Seq<(Seq<char>, Seq<char>)>,
}

/// For each module what is imported from it, in the order of the modules.
pub type ImportsView = Seq<(Seq<char>, ImportSetView)>;

/// Nothing imported.
pub open spec fn no_imports() -> ImportSetView {
    ImportSetView { default_binding: None, named: Seq::empty() }
}

/// What is imported from `module`.
pub open spec fn imported(l: ImportsView, module: Seq<char>) -> ImportSetView {
    match lookup(l, module) {
        Some(set) => set,
        None => no_imports(),
    }
}

/// One export bound to `local`. The first binding of a default export stays;
/// of a named one the last.
pub open spec fn bound(set: ImportSetView, export: Seq<char>, local: Seq<char>) -> ImportSetView {
    if export == "default"@ {
        match set.default_binding {
            Some(_) => set,
            None => ImportSetView { default_binding: Some(local), ..set },
        }
    } else {
        ImportSetView { named: put(set.named, export, local), ..set }
    }
}

/// The imports with one added.
pub open spec fn added(
    l: ImportsView,
    module: Seq<char>,
    export: Seq<char>,
    local: Seq<char>,
) -> ImportsView {
    put(l, module, bound(imported(l, module), export, local))
}

/// `named` with those bindings of `more` whose export has none.
pub open spec fn named_union(
    named: Seq<(Seq<char>, Seq<char>)>,
    more: Seq<(Seq<char>, Seq<char>)>,
) -> Seq<(Seq<char>, Seq<char>)>
    decreases more.len(),
{
    if more.len() == 0 {
        named
    } else {
        let l = named_union(named, more.drop_last());
        match lookup(l, more.last().0) {
            Some(_) => l,
            None => put(l, more.last().0, more.last().1),
        }
    }
}

/// What is imported from a module when `more` is taken in beside `set`.
pub open spec fn set_union(set: ImportSetView, more: ImportSetView) -> ImportSetView {
    ImportSetView {
        default_binding: match set.default_binding {
            Some(d) => Some(d),
            None => more.default_binding,
        },
        named: named_union(set.named, more.named),
    }
}

/// The imports of `l` with those of `more` taken in, module by module.
pub open spec fn merged(l: ImportsView, more: ImportsView) -> ImportsView
    decreases more.len(),
{
    if more.len() == 0 {
        l
    } else {
        let m = merged(l, more.drop_last());
        put(m, more.last().0, set_union(imported(m, more.last().0), more.last().1))
    }
}

/// How one named export stands between the braces.
pub open spec fn specifier(export: Seq<char>, local: Seq<char>) -> Seq<char> {
    if export == local {
        export
    } else {
        export + " as "@ + local
    }
}

/// What stands between `import` and `from`.
pub open spec fn clause(set: ImportSetView) -> Seq<char> {
    let braces = "{ "@ + joined(
        set.named.map_values(|n: (Seq<char>, Seq<char>)| specifier(n.0, n.1)),
        ", "@,
    ) + " }"@;
    match set.default_binding {
        Some(d) => if set.named.len() == 0 {
            d
        } else {
            d + ", "@ + braces
        },
        None => if set.named.len() == 0 {
            Seq::empty()
        } else {
            braces
        },
    }
}

/// The statement for one module, with its line end.
pub open spec fn statement(module: Seq<char>, set: ImportSetView) -> Seq<char> {
    "import "@ + clause(set) + " from \""@ + module + "\";\n"@
}

/// The statements for all modules.
pub open spec fn statements(l: ImportsView) -> Seq<char>
    decreases l.len(),
{
    if l.len() == 0 {
        Seq::empty()
    } else {
        statements(l.drop_last()) + statement(l.last().0, l.last().1)
    }
}

/// The statements and a blank line; nothing where there are no imports.
pub open spec fn rendered(l: ImportsView) -> Seq<char> {
    if l.len() == 0 {
        Seq::empty()
    } else {
        statements(l) + "\n"@
    }
}

/// Adding an import concerns its module alone, and keeps the modules in order.
pub proof fn law_add(
    l: ImportsView,
    module: Seq<char>,
    export: Seq<char>,
    local: Seq<char>,
    other: Seq<char>,
)
    requires
        ordered(l),
    ensures
        ordered(added(l, module, export, local)),
        imported(added(l, module, export, local), module) == bound(
            imported(l, module),
            export,
            local,
        ),
        other != module ==> imported(added(l, module, export, local), other) == imported(l, other),
{
    law_put(l, module, bound(imported(l, module), export, local), other);
}

/// The first default import of a module stays: a second one changes nothing.
pub proof fn law_first_default_stays(
    l: ImportsView,
    module: Seq<char>,
    first: Seq<char>,
    second: Seq<char>,
)
    requires
        ordered(l),
    ensures
        added(added(l, module, "default"@, first), module, "default"@, second) == added(
            l,
            module,
            "default"@,
            first,
        ),
{
    let a = added(l, module, "default"@, first);
    law_add(l, module, "default"@, first, module);
    lemma_put_twice(l, module, imported(a, module), imported(a, module));
}

proof fn lemma_prefix_lookup<V>(l: Seq<(Seq<char>, V)>, key: Seq<char>)
    requires
        ordered(l),
        l.len() > 0,
    ensures
        ordered(l.drop_last()),
        lookup(l.drop_last(), key) == if key == l.last().0 {
            None
        } else {
            lookup(l, key)
        },
        lookup(l, l.last().0) == Some(l.last().1),
{
    let d = l.drop_last();
    assert(ordered(d)) by {
        assert forall|i: int, j: int| 0 <= i < j < d.len() implies text_less(
            #[trigger] d[i].0,
            #[trigger] d[j].0,
        ) by {
            assert(text_less(l[i].0, l[j].0));
        }
    }
    law_lookup(l, key);
    law_lookup(d, key);
    law_lookup(l, l.last().0);
    law_text_order(key, key, key);
    if lookup(d, key) is Some {
        let i = choose|i: int| 0 <= i < d.len() && d[i] == (key, lookup(d, key)->0);
        assert(l[i].0 == key);
        assert(text_less(l[i].0, l[l.len() - 1].0));
    } else if key != l.last().0 && lookup(l, key) is Some {
        let i = choose|i: int| 0 <= i < l.len() && l[i] == (key, lookup(l, key)->0);
        assert(d[i].0 == key);
    }
    assert(l[l.len() - 1].0 == l.last().0);
}

/// A binding that was there stays when others are taken in; the others are
/// taken in where there was none.
pub proof fn law_named_union(
    named: Seq<(Seq<char>, Seq<char>)>,
    more: Seq<(Seq<char>, Seq<char>)>,
    export: Seq<char>,
)
    requires
        ordered(named),
        ordered(more),
    ensures
        ordered(named_union(named, more)),
        lookup(named_union(named, more), export) == match lookup(named, export) {
            Some(local) => Some(local),
            None => lookup(more, export),
        },
    decreases more.len(),
{
    if more.len() > 0 {
        let last = more.last();
        lemma_prefix_lookup(more, export);
        lemma_prefix_lookup(more, last.0);
        law_named_union(named, more.drop_last(), export);
        law_named_union(named, more.drop_last(), last.0);
        law_put(named_union(named, more.drop_last()), last.0, last.1, export);
    } else {
        law_lookup(more, export);
        assert(lookup(more, export) is None);
    }
}

/// Merging takes in, for each module, what the other imports from it, and
/// keeps the modules in order.
pub proof fn law_merge(l: ImportsView, more: ImportsView, module: Seq<char>)
    requires
        ordered(l),
        ordered(more),
    ensures
        ordered(merged(l, more)),
        imported(merged(l, more), module) == set_union(imported(l, module), imported(more, module)),
    decreases more.len(),
{
    if more.len() > 0 {
        let last = more.last();
        lemma_prefix_lookup(more, module);
        lemma_prefix_lookup(more, last.0);
        law_merge(l, more.drop_last(), module);
        law_merge(l, more.drop_last(), last.0);
        let m = merged(l, more.drop_last());
        law_put(m, last.0, set_union(imported(m, last.0), last.1), module);
    } else {
        law_lookup(more, module);
        assert(lookup(more, module) is None);
    }
    assert(imported(more, module).named.len() == 0 ==> named_union(
        imported(l, module).named,
        imported(more, module).named,
    ) == imported(l, module).named);
}

/// Nothing is rendered exactly where nothing is imported.
pub proof fn law_render_empty(l: ImportsView)
    ensures
        rendered(l).len() == 0 <==> l.len() == 0,
{
    reveal_strlit("\n");
}

/// What an export of a module is bound to.
pub open spec fn binding_of(l: ImportsView, module: Seq<char>, export: Seq<char>) -> Option<
    Seq<char>,
> {
    if export == "default"@ {
        imported(l, module).default_binding
    } else {
        lookup(imported(l, module).named, export)
    }
}

/// One import: the module, the export and the binding.
pub struct ImportView {
    pub module: Seq<char>,
    pub export: Seq<char>,
    pub local: Seq<char>,
}

/// The imports added one after the other.
pub open spec fn all_added(l: Seq<ImportView>) -> ImportsView
    decreases l.len(),
{
    if l.len() == 0 {
        Seq::empty()
    } else {
        let i = l.last();
        added(all_added(l.drop_last()), i.module, i.export, i.local)
    }
}

/// The modules are in order, and so are the named exports of each.
pub open spec fn well_ordered(l: ImportsView) -> bool {
    ordered(l) && forall|i: int| 0 <= i < l.len() ==> ordered((#[trigger] l[i]).1.named)
}

proof fn lemma_imported_ordered(l: ImportsView, module: Seq<char>)
    requires
        well_ordered(l),
    ensures
        ordered(imported(l, module).named),
{
    law_lookup(l, module);
    if lookup(l, module) is Some {
        let i = choose|i: int| 0 <= i < l.len() && l[i] == (module, lookup(l, module)->0);
        assert(ordered(l[i].1.named));
    }
}

proof fn lemma_added_well_ordered(
    l: ImportsView,
    module: Seq<char>,
    export: Seq<char>,
    local: Seq<char>,
)
    requires
        well_ordered(l),
    ensures
        well_ordered(added(l, module, export, local)),
        ordered(bound(imported(l, module), export, local).named),
{
    lemma_imported_ordered(l, module);
    law_put(imported(l, module).named, export, local, export);
    lemma_put_well_ordered(l, module, bound(imported(l, module), export, local));
}

proof fn lemma_put_well_ordered(l: ImportsView, module: Seq<char>, set: ImportSetView)
    requires
        well_ordered(l),
        ordered(set.named),
    ensures
        well_ordered(put(l, module, set)),
{
    let r = put(l, module, set);
    law_put(l, module, set, module);
    let s = slot_from(l, module, 0);
    lemma_slot(l, module, 0);
    assert forall|i: int| 0 <= i < r.len() implies ordered((#[trigger] r[i]).1.named) by {
        if i == s {
            assert(r[i].1 == set);
        } else if i < s || lookup(l, module) is Some {
            assert(r[i] == l[i]);
        } else {
            assert(r[i] == l[i - 1]);
        }
    }
}

proof fn lemma_all_added_well_ordered(l: Seq<ImportView>)
    ensures
        well_ordered(all_added(l)),
    decreases l.len(),
{
    if l.len() > 0 {
        let i = l.last();
        lemma_all_added_well_ordered(l.drop_last());
        lemma_added_well_ordered(all_added(l.drop_last()), i.module, i.export, i.local);
    }
}

/// No two imports bind the same export of the module to different names.
pub open spec fn agree_on(l: Seq<ImportView>, i: ImportView) -> bool {
    forall|k: int|
        0 <= k < l.len() && (#[trigger] l[k]).module == i.module && l[k].export == i.export
            ==> l[k].local == i.local
}

/// What is imported under one name only is bound to that name.
pub proof fn law_import_is_bound(l: Seq<ImportView>, i: ImportView)
    requires
        l.contains(i),
        agree_on(l, i),
    ensures
        binding_of(all_added(l), i.module, i.export) == Some(i.local),
    decreases l.len(),
{
    let (d, last) = (l.drop_last(), l.last());
    let a = all_added(d);
    lemma_all_added_well_ordered(d);
    lemma_imported_ordered(a, i.module);
    law_add(a, last.module, last.export, last.local, i.module);
    let k = choose|k: int| 0 <= k < l.len() && l[k] == i;
    assert(l[l.len() - 1] == last);
    if d.contains(i) {
        assert(agree_on(d, i)) by {
            assert forall|j: int|
                0 <= j < d.len() && (#[trigger] d[j]).module == i.module && d[j].export
                    == i.export implies d[j].local == i.local by {
                assert(l[j] == d[j]);
            }
        }
        law_import_is_bound(d, i);
    } else {
        if k < d.len() {
            assert(d[k] == i);
        }
        assert(last == i);
        assert forall|j: int| 0 <= j < d.len() implies !((#[trigger] d[j]).module == i.module
            && d[j].export == i.export) by {
            assert(l[j] == d[j]);
        }
        lemma_not_added(d, i.module, i.export);
    }
    if last.module == i.module {
        law_put(imported(a, i.module).named, last.export, last.local, i.export);
    }
}

/// What is not imported is not bound.
proof fn lemma_not_added(l: Seq<ImportView>, module: Seq<char>, export: Seq<char>)
    requires
        forall|k: int|
            0 <= k < l.len() ==> !((#[trigger] l[k]).module == module && l[k].export == export),
    ensures
        binding_of(all_added(l), module, export) is None,
    decreases l.len(),
{
    if l.len() > 0 {
        let (d, last) = (l.drop_last(), l.last());
        let a = all_added(d);
        assert(l[l.len() - 1] == last);
        assert forall|k: int| 0 <= k < d.len() implies !((#[trigger] d[k]).module == module
            && d[k].export == export) by {
            assert(d[k] == l[k]);
        }
        lemma_not_added(d, module, export);
        lemma_all_added_well_ordered(d);
        lemma_imported_ordered(a, module);
        law_add(a, last.module, last.export, last.local, module);
        if last.module == module {
            law_put(imported(a, module).named, last.export, last.local, export);
        }
    } else {
        lemma_slot(Seq::<(Seq<char>, ImportSetView)>::empty(), module, 0);
        lemma_slot(Seq::<(Seq<char>, Seq<char>)>::empty(), export, 0);
    }
}

/// A module is listed exactly where something is imported from it.
pub proof fn law_modules_listed(l: Seq<ImportView>, module: Seq<char>)
    ensures
        lookup(all_added(l), module) is Some <==> exists|k: int|
            0 <= k < l.len() && (#[trigger] l[k]).module == module,
    decreases l.len(),
{
    if l.len() > 0 {
        let (d, last) = (l.drop_last(), l.last());
        let a = all_added(d);
        law_modules_listed(d, module);
        lemma_all_added_well_ordered(d);
        law_put(
            a,
            last.module,
            bound(imported(a, last.module), last.export, last.local),
            module,
        );
        assert(l[l.len() - 1] == last);
        if exists|k: int| 0 <= k < d.len() && (#[trigger] d[k]).module == module {
            let k = choose|k: int| 0 <= k < d.len() && (#[trigger] d[k]).module == module;
            assert(l[k].module == module);
        }
        if last.module != module && exists|k: int|
            0 <= k < l.len() && (#[trigger] l[k]).module == module {
            let k = choose|k: int| 0 <= k < l.len() && (#[trigger] l[k]).module == module;
            assert(d[k].module == module);
        }
    } else {
        lemma_slot(Seq::<(Seq<char>, ImportSetView)>::empty(), module, 0);
    }
}

/// The default export is never listed among the named ones.
proof fn lemma_default_not_named(l: Seq<ImportView>, module: Seq<char>)
    ensures
        lookup(imported(all_added(l), module).named, "default"@) is None,
    decreases l.len(),
{
    if l.len() > 0 {
        let (d, last) = (l.drop_last(), l.last());
        let a = all_added(d);
        lemma_default_not_named(d, module);
        lemma_all_added_well_ordered(d);
        lemma_imported_ordered(a, module);
        law_add(a, last.module, last.export, last.local, module);
        if last.module == module && last.export != "default"@ {
            law_put(imported(a, module).named, last.export, last.local, "default"@);
        }
    } else {
        lemma_slot(Seq::<(Seq<char>, ImportSetView)>::empty(), module, 0);
        lemma_slot(Seq::<(Seq<char>, Seq<char>)>::empty(), "default"@, 0);
    }
}

/// No export is imported under two names.
pub open spec fn all_agree(l: Seq<ImportView>) -> bool {
    forall|k: int| 0 <= k < l.len() ==> agree_on(l, #[trigger] l[k])
}

/// The same imports are in both lists.
pub open spec fn same_imports(a: Seq<ImportView>, b: Seq<ImportView>) -> bool {
    forall|i: ImportView| #[trigger] a.contains(i) <==> b.contains(i)
}

proof fn lemma_same_binding(
    a: Seq<ImportView>,
    b: Seq<ImportView>,
    module: Seq<char>,
    export: Seq<char>,
)
    requires
        same_imports(a, b),
        all_agree(a),
        all_agree(b),
    ensures
        binding_of(all_added(a), module, export) == binding_of(all_added(b), module, export),
{
    if exists|k: int|
        0 <= k < a.len() && (#[trigger] a[k]).module == module && a[k].export == export {
        let k = choose|k: int|
            0 <= k < a.len() && (#[trigger] a[k]).module == module && a[k].export == export;
        assert(a.contains(a[k]));
        assert(b.contains(a[k]));
        law_import_is_bound(a, a[k]);
        let j = choose|j: int| 0 <= j < b.len() && b[j] == a[k];
        assert(agree_on(b, b[j]));
        law_import_is_bound(b, a[k]);
    } else {
        assert forall|j: int| 0 <= j < b.len() implies !((#[trigger] b[j]).module == module
            && b[j].export == export) by {
            assert(b.contains(b[j]));
            assert(a.contains(b[j]));
            let k = choose|k: int| 0 <= k < a.len() && a[k] == b[j];
            assert(a[k].module == b[j].module);
        }
        lemma_not_added(a, module, export);
        lemma_not_added(b, module, export);
    }
}

/// The order in which imports are added does not matter, nor how often, where
/// no export is imported under two names: the same imports give the same
/// statements.
pub proof fn law_order_does_not_matter(a: Seq<ImportView>, b: Seq<ImportView>)
    requires
        same_imports(a, b),
        all_agree(a),
    ensures
        all_added(a) == all_added(b),
        rendered(all_added(a)) == rendered(all_added(b)),
{
    let (x, y) = (all_added(a), all_added(b));
    lemma_all_added_well_ordered(a);
    lemma_all_added_well_ordered(b);
    assert(all_agree(b)) by {
        assert forall|k: int| 0 <= k < b.len() implies agree_on(b, #[trigger] b[k]) by {
            let i = b[k];
            assert(b.contains(i));
            assert(a.contains(i));
            let m = choose|m: int| 0 <= m < a.len() && a[m] == i;
            assert(agree_on(a, a[m]));
            assert forall|j: int|
                0 <= j < b.len() && (#[trigger] b[j]).module == i.module && b[j].export
                    == i.export implies b[j].local == i.local by {
                assert(b.contains(b[j]));
                assert(a.contains(b[j]));
                let n = choose|n: int| 0 <= n < a.len() && a[n] == b[j];
                assert(a[n].local == i.local);
            }
        }
    }
    assert forall|module: Seq<char>| #[trigger] lookup(x, module) == lookup(y, module) by {
        law_modules_listed(a, module);
        law_modules_listed(b, module);
        if exists|k: int| 0 <= k < a.len() && (#[trigger] a[k]).module == module {
            let k = choose|k: int| 0 <= k < a.len() && (#[trigger] a[k]).module == module;
            assert(a.contains(a[k]));
            assert(b.contains(a[k]));
            let j = choose|j: int| 0 <= j < b.len() && b[j] == a[k];
            assert(b[j].module == module);
        }
        if exists|k: int| 0 <= k < b.len() && (#[trigger] b[k]).module == module {
            let k = choose|k: int| 0 <= k < b.len() && (#[trigger] b[k]).module == module;
            assert(b.contains(b[k]));
            assert(a.contains(b[k]));
            let j = choose|j: int| 0 <= j < a.len() && a[j] == b[k];
            assert(a[j].module == module);
        }
        let (n, m) = (imported(x, module).named, imported(y, module).named);
        lemma_imported_ordered(x, module);
        lemma_imported_ordered(y, module);
        assert forall|export: Seq<char>| #[trigger] lookup(n, export) == lookup(m, export) by {
            if export == "default"@ {
                lemma_default_not_named(a, module);
                lemma_default_not_named(b, module);
            } else {
                lemma_same_binding(a, b, module, export);
            }
        }
        law_listing_determined(n, m);
        lemma_same_binding(a, b, module, "default"@);
    }
    law_listing_determined(x, y);
}

/// Nothing is rendered exactly where nothing was added.
pub proof fn law_rendered_of_added(l: Seq<ImportView>)
    ensures
        rendered(all_added(l)).len() == 0 <==> l.len() == 0,
        ordered(all_added(l)),
{
    lemma_all_added_well_ordered(l);
    law_render_empty(all_added(l));
    if l.len() > 0 {
        law_modules_listed(l, l[0].module);
        law_lookup(all_added(l), l[0].module);
    }
}

proof fn lemma_puts_commute(
    l: Seq<(Seq<char>, Seq<char>)>,
    k1: Seq<char>,
    v1: Seq<char>,
    k2: Seq<char>,
    v2: Seq<char>,
)
    requires
        ordered(l),
        k1 != k2,
    ensures
        put(put(l, k1, v1), k2, v2) == put(put(l, k2, v2), k1, v1),
{
    let (a, b) = (put(l, k1, v1), put(l, k2, v2));
    let (x, y) = (put(a, k2, v2), put(b, k1, v1));
    law_put(l, k1, v1, k2);
    law_put(l, k2, v2, k1);
    law_put(a, k2, v2, k1);
    law_put(b, k1, v1, k2);
    assert forall|k: Seq<char>| #[trigger] lookup(x, k) == lookup(y, k) by {
        law_put(l, k1, v1, k);
        law_put(l, k2, v2, k);
        law_put(a, k2, v2, k);
        law_put(b, k1, v1, k);
    }
    law_listing_determined(x, y);
}

/// Imports of two modules, or of two exports of one, can be added in either
/// order.
pub proof fn law_add_commutes(
    l: ImportsView,
    m1: Seq<char>,
    e1: Seq<char>,
    b1: Seq<char>,
    m2: Seq<char>,
    e2: Seq<char>,
    b2: Seq<char>,
)
    requires
        well_ordered(l),
        m1 != m2 || e1 != e2,
    ensures
        added(added(l, m1, e1, b1), m2, e2, b2) == added(added(l, m2, e2, b2), m1, e1, b1),
{
    let (a, b) = (added(l, m1, e1, b1), added(l, m2, e2, b2));
    let (x, y) = (added(a, m2, e2, b2), added(b, m1, e1, b1));
    law_add(l, m1, e1, b1, m2);
    law_add(l, m2, e2, b2, m1);
    law_add(a, m2, e2, b2, m1);
    law_add(b, m1, e1, b1, m2);
    if m1 == m2 {
        let s = imported(l, m1);
        lemma_imported_ordered(l, m1);
        if e1 != "default"@ && e2 != "default"@ {
            lemma_puts_commute(s.named, e1, b1, e2, b2);
        }
        assert(bound(bound(s, e1, b1), e2, b2) == bound(bound(s, e2, b2), e1, b1));
        lemma_put_twice(l, m1, bound(s, e1, b1), bound(bound(s, e1, b1), e2, b2));
        lemma_put_twice(l, m1, bound(s, e2, b2), bound(bound(s, e2, b2), e1, b1));
    } else {
        assert forall|k: Seq<char>| #[trigger] lookup(x, k) == lookup(y, k) by {
            law_put(l, m1, bound(imported(l, m1), e1, b1), k);
            law_put(l, m2, bound(imported(l, m2), e2, b2), k);
            law_put(a, m2, bound(imported(a, m2), e2, b2), k);
            law_put(b, m1, bound(imported(b, m1), e1, b1), k);
        }
        law_listing_determined(x, y);
    }
}

// ---------------------------------------------------------------------------
// The imports of one module
// ---------------------------------------------------------------------------

#[derive(Debug)]
struct ImportSet {
    default_binding: Option<String>,
    /// Export name to local binding.
    named: TextMap<String>,
}

spec fn text_view() -> spec_fn(String) -> Seq<char> {
    |t: String| t@
}

impl View for ImportSet {
    type V = ImportSetView;

    closed spec fn view(&self) -> ImportSetView {
        ImportSetView {
            default_binding: match self.default_binding {
                Some(d) => Some(d@),
                None => None,
            },
            named: mapped(self.named@, text_view()),
        }
    }
}

impl ImportSet {
    fn new() -> (res: Self)
        ensures
            res@ == no_imports(),
    {
        let res = ImportSet { default_binding: None, named: TextMap::new() };
        assert(res@.named =~= Seq::empty());
        res
    }

    fn bind(&mut self, export: &str, local: &str)
        ensures
            final(self)@ == bound(old(self)@, export@, local@),
    {
        if same(export, "default") {
            if self.default_binding.is_none() {
                self.default_binding = Some(local.to_string());
            }
        } else {
            let text = local.to_string();
            proof {
                lemma_mapped(self.named@, text_view(), export@, text);
            }
            let _ = self.named.insert(export.to_string(), text);
        }
    }

    /// Take in the imports of `more`.
    fn absorb(&mut self, more: &ImportSet)
        ensures
            final(self)@ == set_union(old(self)@, more@),
    {
        if self.default_binding.is_none() {
            self.default_binding = match &more.default_binding {
                Some(d) => Some(d.as_str().to_string()),
                None => None,
            };
        }
        let ghost before = old(self)@.named;
        let ghost default_now = self@.default_binding;
        let n: usize = more.named.len();
        let mut i: usize = 0;
        while i < n
            invariant
                n == more.named@.len(),
                n == more@.named.len(),
                i <= n,
                self@.named == named_union(before, more@.named.take(i as int)),
                self@.default_binding == default_now,
            decreases n - i,
        {
            let export = more.named.key_at(i);
            let local = more.named.value_at(i).as_str().to_string();
            proof {
                lemma_mapped(self.named@, text_view(), export@, local);
                assert(more@.named.take(i + 1).drop_last() =~= more@.named.take(i as int));
                assert(more@.named[i as int] == (export@, local@));
            }
            if !self.named.contains_key(export) {
                let _ = self.named.insert(export.to_string(), local);
            }
            i += 1;
        }
        assert(more@.named.take(i as int) =~= more@.named);
    }

    /// What stands between `import` and `from`.
    fn clause_text(&self) -> (res: String)
        ensures
            res@ == clause(self@),
    {
        let n: usize = self.named.len();
        let mut specifiers: Vec<String> = Vec::new();
        let mut i: usize = 0;
        let ghost all = self@.named.map_values(
            |n: (Seq<char>, Seq<char>)| specifier(n.0, n.1),
        );
        while i < n
            invariant
                n == self.named@.len(),
                n == all.len(),
                i <= n,
                all == self@.named.map_values(|n: (Seq<char>, Seq<char>)| specifier(n.0, n.1)),
                views(specifiers@) == all.take(i as int),
            decreases n - i,
        {
            let export = self.named.key_at(i);
            let local = self.named.value_at(i);
            let mut s: String = export.to_string();
            if !same(export, local.as_str()) {
                s.append(" as ");
                s.append(local.as_str());
            }
            assert(self@.named[i as int] == (export@, local@));
            assert(s@ == all[i as int]);
            let ghost before = views(specifiers@);
            specifiers.push(s);
            i += 1;
            assert(views(specifiers@) =~= before.push(s@));
            assert(views(specifiers@) =~= all.take(i as int));
        }
        assert(all.take(i as int) =~= all);
        let mut res: String = String::new();
        match &self.default_binding {
            Some(d) => {
                res.append(d.as_str());
                if n > 0 {
                    res.append(", ");
                }
            },
            None => {},
        }
        if n > 0 {
            res.append("{ ");
            res.append(join(&specifiers, ", ").as_str());
            res.append(" }");
        }
        assert(res@ =~= clause(self@));
        res
    }
}

// ---------------------------------------------------------------------------
// All imports
// ---------------------------------------------------------------------------

/// The imports of a file, gathered by module.
#[derive(Debug)]
pub struct Imports {
    by_module: TextMap<ImportSet>,
}

spec fn set_view() -> spec_fn(ImportSet) -> ImportSetView {
    |s: ImportSet| s@
}

impl View for Imports {
    type V = ImportsView;

    closed spec fn view(&self) -> ImportsView {
        mapped(self.by_module@, set_view())
    }
}

impl Default for Imports {
    fn default() -> (res: Self)
        ensures
            res@ == ImportsView::empty(),
    {
        Imports::new()
    }
}

impl Imports {
    #[verifier::type_invariant]
    spec fn in_order(self) -> bool {
        well_ordered(mapped(self.by_module@, set_view()))
    }

    /// No imports.
    pub fn new() -> (res: Self)
        ensures
            res@ == ImportsView::empty(),
    {
        let res = Imports { by_module: TextMap::new() };
        assert(res@ =~= ImportsView::empty());
        res
    }

    /// Take the set of `module` out, leaving an empty one in its place.
    fn take(&mut self, module: &str) -> (res: ImportSet)
        ensures
            res@ == imported(old(self)@, module@),
            final(self)@ == put(old(self)@, module@, no_imports()),
    {
        let empty = ImportSet::new();
        proof {
            use_type_invariant(&*self);
            lemma_mapped(self.by_module@, set_view(), module@, empty);
            lemma_put_well_ordered(self@, module@, no_imports());
        }
        let mut map: TextMap<ImportSet> = TextMap::new();
        std::mem::swap(&mut map, &mut self.by_module);
        let res = map.insert(module.to_string(), empty);
        self.by_module = map;
        match res {
            Some(set) => set,
            None => ImportSet::new(),
        }
    }

    /// Put a set in place of the one that was taken out.
    fn give(&mut self, module: &str, set: ImportSet)
        requires
            ordered(set@.named),
        ensures
            final(self)@ == put(old(self)@, module@, set@),
    {
        proof {
            use_type_invariant(&*self);
            lemma_mapped(self.by_module@, set_view(), module@, set);
            lemma_put_well_ordered(self@, module@, set@);
        }
        let mut map: TextMap<ImportSet> = TextMap::new();
        std::mem::swap(&mut map, &mut self.by_module);
        let _ = map.insert(module.to_string(), set);
        self.by_module = map;
    }

    /// Add an import. The export `default` stands for the default import; the
    /// first binding of a module's default import stays.
    pub fn add(&mut self, module: &str, export: &str, local: &str)
        ensures
            final(self)@ == added(old(self)@, module@, export@, local@),
            well_ordered(final(self)@),
    {
        let ghost before = self@;
        proof {
            use_type_invariant(&*self);
            lemma_added_well_ordered(before, module@, export@, local@);
        }
        let mut set = self.take(module);
        set.bind(export, local);
        proof {
            lemma_put_twice(before, module@, no_imports(), set@);
        }
        self.give(module, set);
    }

    /// Take in the imports of `other`. What is bound already stays as it is.
    pub fn merge(&mut self, other: Imports)
        ensures
            final(self)@ == merged(old(self)@, other@),
            well_ordered(final(self)@),
    {
        let n: usize = other.by_module.len();
        let mut i: usize = 0;
        assert(merged(self@, other@.take(0)) == self@);
        proof {
            use_type_invariant(&*self);
            use_type_invariant(&other);
        }
        while i < n
            invariant
                n == other.by_module@.len(),
                n == other@.len(),
                i <= n,
                well_ordered(other@),
                well_ordered(self@),
                self@ == merged(old(self)@, other@.take(i as int)),
            decreases n - i,
        {
            let ghost before = self@;
            let module = other.by_module.key_at(i);
            let more = other.by_module.value_at(i);
            proof {
                assert(other@[i as int] == (module@, more@));
                assert(ordered(other@[i as int].1.named));
                lemma_imported_ordered(before, module@);
                law_named_union(imported(before, module@).named, more@.named, module@);
            }
            let mut set = self.take(module);
            set.absorb(more);
            proof {
                lemma_put_twice(before, module@, no_imports(), set@);
                lemma_put_well_ordered(before, module@, set@);
                assert(other@.take(i + 1).drop_last() =~= other@.take(i as int));
            }
            self.give(module, set);
            i += 1;
        }
        assert(other@.take(i as int) =~= other@);
    }

    /// The import statements, one line for each module, and a blank line.
    /// Nothing where there are no imports.
    pub fn render(&self) -> (res: String)
        ensures
            res@ == rendered(self@),
    {
        if self.by_module.is_empty() {
            return String::new();
        }
        let n: usize = self.by_module.len();
        let mut res: String = String::new();
        let mut i: usize = 0;
        while i < n
            invariant
                n == self.by_module@.len(),
                n == self@.len(),
                i <= n,
                res@ == statements(self@.take(i as int)),
            decreases n - i,
        {
            let module = self.by_module.key_at(i);
            let set = self.by_module.value_at(i);
            res.append("import ");
            res.append(set.clause_text().as_str());
            res.append(" from \"");
            res.append(module);
            res.append("\";\n");
            proof {
                assert(self@.take(i + 1).drop_last() =~= self@.take(i as int));
                assert(self@[i as int] == (module@, set@));
                assert(res@ =~= statements(self@.take(i + 1)));
            }
            i += 1;
        }
        assert(self@.take(i as int) =~= self@);
        res.append("\n");
        res
    }
}

// ---------------------------------------------------------------------------
// Laws
// ---------------------------------------------------------------------------

/// What adding an import does to every binding: its own is made, where the
/// export is named; a default one only where there was none; and all others
/// stay as they are.
pub proof fn law_binding_of_added(
    l: ImportsView,
    i: ImportView,
    module: Seq<char>,
    export: Seq<char>,
)
    requires
        well_ordered(l),
    ensures
        ({
            let r = added(l, i.module, i.export, i.local);
            &&& module != i.module || export != i.export ==> binding_of(r, module, export)
                == binding_of(l, module, export)
            &&& i.export != "default"@ ==> binding_of(r, i.module, i.export) == Some(i.local)
            &&& i.export == "default"@ ==> binding_of(r, i.module, i.export) == (match binding_of(
                l,
                i.module,
                i.export,
            ) {
                Some(first) => Some(first),
                None => Some(i.local),
            })
        }),
{
    lemma_imported_ordered(l, i.module);
    law_add(l, i.module, i.export, i.local, module);
    law_put(imported(l, i.module).named, i.export, i.local, export);
}

/// What merging does to every binding: one that was there stays, and one that
/// was not is taken in.
pub proof fn law_binding_of_merged(
    l: ImportsView,
    more: ImportsView,
    module: Seq<char>,
    export: Seq<char>,
)
    requires
        well_ordered(l),
        well_ordered(more),
    ensures
        binding_of(merged(l, more), module, export) == (match binding_of(l, module, export) {
            Some(local) => Some(local),
            None => binding_of(more, module, export),
        }),
{
    law_merge(l, more, module);
    lemma_imported_ordered(l, module);
    lemma_imported_ordered(more, module);
    law_named_union(imported(l, module).named, imported(more, module).named, export);
}

/// A statement is written for each module, in their order.
pub proof fn law_statements(a: ImportsView, b: ImportsView, module: Seq<char>, set: ImportSetView)
    ensures
        statements(a + b) == statements(a) + statements(b),
        statements(seq![(module, set)]) == "import "@ + clause(set) + " from \""@ + module
            + "\";\n"@,
        a.len() > 0 ==> rendered(a) == statements(a) + "\n"@,
    decreases b.len(),
{
    let one = seq![(module, set)];
    assert(one.drop_last() =~= Seq::empty());
    assert(statements(one.drop_last()) =~= Seq::empty());
    assert(statements(one) =~= statement(module, set));
    if b.len() == 0 {
        assert(a + b =~= a);
        assert(statements(a) + statements(b) =~= statements(a));
    } else {
        law_statements(a, b.drop_last(), module, set);
        assert((a + b).drop_last() =~= a + b.drop_last());
        assert((a + b).last() == b.last());
        assert(statements(a + b) =~= statements(a) + statements(b));
    }
}

/// What is imported is written as the default binding, the named ones in
/// braces, or both. A named export is written by itself where it is bound to
/// its own name, and else with the name that it is bound to.
pub proof fn law_clause(
    d: Seq<char>,
    named: Seq<(Seq<char>, Seq<char>)>,
    export: Seq<char>,
    local: Seq<char>,
)
    ensures
        clause(ImportSetView { default_binding: Some(d), named: Seq::empty() }) == d,
        clause(ImportSetView { default_binding: None, named: seq![(export, local)] }) == "{ "@ + (
        if export == local {
            export
        } else {
            export + " as "@ + local
        }) + " }"@,
        named.len() > 0 ==> clause(ImportSetView { default_binding: Some(d), named }) == d + ", "@
            + clause(ImportSetView { default_binding: None, named }),
        named.len() > 0 ==> clause(
            ImportSetView { default_binding: None, named: named.push((export, local)) },
        ) == clause(ImportSetView { default_binding: None, named }).take(
            clause(ImportSetView { default_binding: None, named }).len() - 2,
        ) + ", "@ + specifier(export, local) + " }"@,
{
    reveal_strlit(" }");
    reveal_strlit("{ ");
    let f = |n: (Seq<char>, Seq<char>)| specifier(n.0, n.1);
    let one = seq![(export, local)];
    assert(one.map_values(f) =~= seq![specifier(export, local)]);
    if named.len() > 0 {
        let (l, m) = (named.map_values(f), named.push((export, local)).map_values(f));
        assert(m =~= l.push(specifier(export, local)));
        assert(m.drop_last() =~= l);
        let c = clause(ImportSetView { default_binding: None, named });
        assert(c.take(c.len() - 2) =~= "{ "@ + joined(l, ", "@));
        assert(clause(
            ImportSetView { default_binding: None, named: named.push((export, local)) },
        ) =~= c.take(c.len() - 2) + ", "@ + specifier(export, local) + " }"@);
    }
}

} // verus!
