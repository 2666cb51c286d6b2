//! What the edits of Herdr's configuration leave alone.
//!
//! The root of the document is taken with the user's own values in their places,
//! before any of them gives way to a palette; `plan_series` has whole documents.
use crate::own::Own;
use crate::plan::{
    child2, ensured, free_pairs, keys_after, kind_table, lemma_child_put, own_after, planned,
    sidebar_step, theme_step, tidied, token_keys, with_tokens, without_stale, EditError, Fault,
    Outcome, PlanView,
};
use crate::plan_laws::{
    base, custom_after, lemma_cleared_keeps, lemma_free, lemma_free_pairs, lemma_index_push,
    lemma_index_update, lemma_kind_applied, lemma_kind_names, lemma_kind_stands, lemma_sets_child,
    lemma_sets_other, lemma_sidebar_keeps, lemma_stale_kind, lemma_theme_applied,
    lemma_theme_step_kind, lemma_tokens_kind, rows_stand, sets, sidebar_of,
};
use crate::sidebar::{
    kind_applied, kind_cleared, kinds_cleared, rows_node, sidebar_applied, user_rows,
};
use crate::toml::{
    child, entries_of, fresh_table, holds_key, index_of, lemma_index_of, put, string_node,
    table_like, unique, unique_keys, with_entries, without, Entry, Node,
};
use vstd::prelude::*;

verus! {

/// The entries whose keys are not among `keys`, in their order.
pub open spec fn others(e: Seq<Entry>, keys: Set<Seq<char>>) -> Seq<Entry>
    decreases e.len(),
{
    if e.len() == 0 {
        seq![]
    } else {
        let rest = others(e.drop_last(), keys);
        if keys.contains(e.last().key) {
            rest
        } else {
            rest.push(e.last())
        }
    }
}

/// A table without its entries: its form and how it is written.
pub open spec fn frame(n: Node) -> Node {
    with_entries(n, seq![])
}

/// The entries of an optional table whose keys are not among `keys`.
pub open spec fn others_of(o: Option<Node>, keys: Set<Seq<char>>) -> Seq<Entry> {
    match o {
        Some(n) => others(entries_of(n), keys),
        None => seq![],
    }
}

/// Every entry but those of `keys` is as it was, in the same order and layout.
/// A table that was there and still is has kept its form. Nothing but entries of
/// `keys` stands in a table that was made, or stood in one that is gone.
pub open spec fn kept(o: Option<Node>, p: Option<Node>, keys: Set<Seq<char>>) -> bool {
    &&& others_of(o, keys) == others_of(p, keys)
    &&& o is Some && p is Some ==> frame(o->0) == frame(p->0)
}

proof fn lemma_others_update(e: Seq<Entry>, i: int, x: Entry, keys: Set<Seq<char>>)
    requires
        0 <= i < e.len(),
        keys.contains(e[i].key),
        keys.contains(x.key),
    ensures
        others(e.update(i, x), keys) == others(e, keys),
    decreases e.len(),
{
    let f = e.update(i, x);
    if i < e.len() - 1 {
        lemma_others_update(e.drop_last(), i, x, keys);
        assert(f.drop_last() =~= e.drop_last().update(i, x));
    } else {
        assert(f.drop_last() =~= e.drop_last());
    }
}

proof fn lemma_others_push(e: Seq<Entry>, x: Entry, keys: Set<Seq<char>>)
    requires
        keys.contains(x.key),
    ensures
        others(e.push(x), keys) == others(e, keys),
{
    assert(e.push(x).drop_last() =~= e);
}

proof fn lemma_others_remove(e: Seq<Entry>, i: int, keys: Set<Seq<char>>)
    requires
        0 <= i < e.len(),
        keys.contains(e[i].key),
    ensures
        others(e.remove(i), keys) == others(e, keys),
    decreases e.len(),
{
    let f = e.remove(i);
    if i < e.len() - 1 {
        lemma_others_remove(e.drop_last(), i, keys);
        assert(f.drop_last() =~= e.drop_last().remove(i));
    } else {
        assert(f =~= e.drop_last());
    }
}

pub proof fn lemma_kept_sets(n: Node, key: Seq<char>, o: Option<Node>, keys: Set<Seq<char>>)
    requires
        table_like(n),
        keys.contains(key),
    ensures
        kept(Some(n), Some(sets(n, key, o)), keys),
{
    let e = entries_of(n);
    lemma_index_of(e, key);
    let i = index_of(e, key);
    match o {
        Some(m) => {
            if holds_key(e, key) {
                lemma_others_update(e, i, Entry { node: m, ..e[i] }, keys);
            } else {
                lemma_others_push(e, crate::toml::entry(key, m), keys);
            }
        },
        None => {
            if holds_key(e, key) {
                lemma_others_remove(e, i, keys);
            }
        },
    }
}

proof fn lemma_kept_put(n: Node, key: Seq<char>, m: Node, keys: Set<Seq<char>>)
    requires
        table_like(n),
        keys.contains(key),
    ensures
        kept(Some(n), Some(put(n, key, m)), keys),
{
    let e = entries_of(n);
    lemma_index_of(e, key);
    let x = crate::toml::entry(key, crate::toml::fitted(n, m));
    if holds_key(e, key) {
        lemma_others_update(e, index_of(e, key), x, keys);
    } else {
        lemma_others_push(e, x, keys);
    }
}

proof fn lemma_kept_stale(n: Node, gone: Seq<Seq<char>>, keep: Seq<Seq<char>>, keys: Set<Seq<char>>)
    requires
        table_like(n),
        forall|i: int| 0 <= i < gone.len() ==> keys.contains(#[trigger] gone[i]),
    ensures
        kept(Some(n), Some(without_stale(n, gone, keep)), keys),
    decreases gone.len(),
{
    if gone.len() > 0 {
        let g = gone.drop_last();
        assert forall|i: int| 0 <= i < g.len() implies keys.contains(#[trigger] g[i]) by {
            assert(g[i] == gone[i]);
        }
        lemma_kept_stale(n, g, keep, keys);
        lemma_stale_kind(n, g, keep);
        assert(gone[gone.len() - 1] == gone.last());
        lemma_kept_sets(without_stale(n, g, keep), gone.last(), None, keys);
    }
}

proof fn lemma_kept_tokens(n: Node, pairs: Seq<(Seq<char>, Seq<char>)>, keys: Set<Seq<char>>)
    requires
        table_like(n),
        forall|i: int| 0 <= i < pairs.len() ==> keys.contains((#[trigger] pairs[i]).0),
    ensures
        kept(Some(n), Some(with_tokens(n, pairs)), keys),
    decreases pairs.len(),
{
    if pairs.len() > 0 {
        let p = pairs.drop_last();
        assert forall|i: int| 0 <= i < p.len() implies keys.contains((#[trigger] p[i]).0) by {
            assert(p[i] == pairs[i]);
        }
        lemma_kept_tokens(n, p, keys);
        lemma_tokens_kind(n, p);
        assert(pairs[pairs.len() - 1] == pairs.last());
        lemma_kept_put(with_tokens(n, p), pairs.last().0, string_node(pairs.last().1), keys);
    }
}

/// A table that is missing counts as one without entries.
proof fn lemma_kept_base(n: Node, key: Seq<char>, implicit: bool, keys: Set<Seq<char>>)
    ensures
        kept(child(n, key), Some(base(n, key, implicit)), keys),
{
}

/// The keys that a plan sets or takes out in `theme.custom`.
pub open spec fn token_scope(root: Node, plan: PlanView) -> Set<Seq<char>> {
    keys_after(root, plan).to_set() + plan.previously_managed.to_set()
}

/// The sidebar kinds that a plan may write or take out.
pub open spec fn kind_scope(plan: PlanView) -> Set<Seq<char>> {
    match plan.sidebar {
        Some(_) => set!["agents"@, "spaces"@],
        None => plan.managed_sidebar.to_set(),
    }
}

/// What the theme part of a plan leaves alone.
pub proof fn lemma_theme_kept(root: Node, plan: PlanView)
    requires
        root is Table,
        theme_step(root, plan) is Ok,
    ensures
        ({
            let x = theme_step(root, plan)->Ok_0;
            &&& x is Table
            &&& kept(Some(root), Some(x), set!["theme"@])
            &&& kept(child(root, "theme"@), child(x, "theme"@), set!["custom"@])
            &&& kept(
                child2(root, "theme"@, "custom"@),
                child2(x, "theme"@, "custom"@),
                token_scope(root, plan),
            )
            &&& child(root, "theme"@) is Some ==> child(x, "theme"@) is Some
            &&& child2(root, "theme"@, "custom"@) is Some ==> child2(
                x,
                "theme"@,
                "custom"@,
            ) is Some
            &&& child(x, "ui"@) == child(root, "ui"@)
        }),
{
    lemma_kind_names();
    lemma_theme_step_kind(root, plan);
    let scope = token_scope(root, plan);
    match plan.theme {
        Some(pairs) => {
            let theme = base(root, "theme"@, true);
            let custom = base(theme, "custom"@, false);
            let free = free_pairs(root, pairs, plan.previously_managed);
            let gone = without_stale(custom, plan.previously_managed, token_keys(free));
            let custom1 = with_tokens(gone, free);
            let theme1 = sets(theme, "custom"@, Some(custom1));
            lemma_theme_applied(root, pairs, plan.previously_managed);
            lemma_stale_kind(custom, plan.previously_managed, token_keys(free));
            lemma_kept_base(root, "theme"@, true, set!["custom"@]);
            lemma_kept_base(theme, "custom"@, false, scope);
            assert forall|i: int| 0 <= i < plan.previously_managed.len() implies scope.contains(
                #[trigger] plan.previously_managed[i],
            ) by {
                assert(plan.previously_managed.contains(plan.previously_managed[i]));
            }
            assert forall|i: int| 0 <= i < free.len() implies scope.contains(
                (#[trigger] free[i]).0,
            ) by {
                assert(token_keys(free)[i] == free[i].0);
                assert(token_keys(free).contains(free[i].0));
            }
            lemma_kept_stale(custom, plan.previously_managed, token_keys(free), scope);
            lemma_kept_tokens(gone, free, scope);
            lemma_kept_sets(theme, "custom"@, Some(custom1), set!["custom"@]);
            lemma_kept_sets(root, "theme"@, Some(theme1), set!["theme"@]);
            lemma_sets_child(root, "theme"@, theme1);
            lemma_sets_child(theme, "custom"@, custom1);
            lemma_sets_other(root, "theme"@, Some(theme1), "ui"@);
            if child(root, "theme"@) is None {
                lemma_index_of(entries_of(theme), "custom"@);
            }
        },
        None => {
            match (child(root, "theme"@), child2(root, "theme"@, "custom"@)) {
                (Some(theme), Some(custom)) => {
                    if table_like(custom) {
                        let custom1 = without_stale(custom, plan.previously_managed, seq![]);
                        let theme1 = sets(theme, "custom"@, Some(custom1));
                        assert forall|i: int|
                            0 <= i < plan.previously_managed.len() implies scope.contains(
                            #[trigger] plan.previously_managed[i],
                        ) by {
                            assert(plan.previously_managed.contains(plan.previously_managed[i]));
                        }
                        lemma_kept_stale(custom, plan.previously_managed, seq![], scope);
                        lemma_kept_sets(theme, "custom"@, Some(custom1), set!["custom"@]);
                        lemma_kept_sets(root, "theme"@, Some(theme1), set!["theme"@]);
                        lemma_sets_child(root, "theme"@, theme1);
                        lemma_sets_child(theme, "custom"@, custom1);
                        lemma_sets_other(root, "theme"@, Some(theme1), "ui"@);
                    }
                },
                _ => {},
            }
        },
    }
}

/// A key that is taken out is gone.
pub proof fn lemma_gone(n: Node, key: Seq<char>)
    requires
        unique(entries_of(n)),
    ensures
        child(without(n, key), key) is None,
        unique(entries_of(without(n, key))),
{
    let e = entries_of(n);
    lemma_index_of(e, key);
    let i = index_of(e, key);
    let f = entries_of(without(n, key));
    if table_like(n) && holds_key(e, key) {
        assert(f == e.remove(i));
        assert forall|a: int, b: int| 0 <= a < b < f.len() implies (#[trigger] f[a]).key != (
        #[trigger] f[b]).key by {
            let c = if a < i {
                a
            } else {
                a + 1
            };
            let d = if b < i {
                b
            } else {
                b + 1
            };
            assert(f[a] == e[c] && f[b] == e[d]);
        }
        assert forall|a: int| 0 <= a < f.len() implies (#[trigger] f[a]).key != key by {
            let c = if a < i {
                a
            } else {
                a + 1
            };
            assert(f[a] == e[c]);
            assert(e[i].key == key);
        }
        lemma_index_of(f, key);
    }
}

pub proof fn lemma_sets_unique(n: Node, key: Seq<char>, o: Option<Node>)
    requires
        table_like(n),
        unique(entries_of(n)),
    ensures
        unique(entries_of(sets(n, key, o))),
{
    let e = entries_of(n);
    lemma_index_of(e, key);
    if o is None {
        lemma_gone(n, key);
    }
}

/// What tidying leaves alone.
proof fn lemma_tidied_kept(
    root: Node,
    a: Seq<char>,
    b: Seq<char>,
    fa: bool,
    fb: bool,
    keys: Set<Seq<char>>,
    other: Seq<char>,
)
    requires
        root is Table,
        a != other,
        unique(entries_of(root)),
        child(root, a) is Some ==> unique(entries_of(child(root, a)->0)),
    ensures
        ({
            let x = tidied(root, a, b, fa, fb);
            &&& x is Table
            &&& kept(Some(root), Some(x), set![a])
            &&& kept(child(root, a), child(x, a), set![b])
            &&& kept(child2(root, a, b), child2(x, a, b), keys)
            &&& child(x, a) is Some ==> child(root, a) is Some
            &&& child2(x, a, b) is Some ==> child2(x, a, b) == child2(root, a, b)
            &&& child2(root, a, b) is Some && child2(x, a, b) is None ==> entries_of(
                child2(root, a, b)->0,
            ).len() == 0
            &&& child(x, other) == child(root, other)
        }),
{
    let x = tidied(root, a, b, fa, fb);
    match child(root, a) {
        Some(outer) => {
            if table_like(outer) {
                let drops = crate::plan::empty_table(child(outer, b)) && !fb;
                let outer1 = if drops {
                    without(outer, b)
                } else {
                    outer
                };
                lemma_kept_sets(outer, b, None, set![b]);
                lemma_kept_sets(root, a, None, set![a]);
                lemma_kept_sets(root, a, Some(outer1), set![a]);
                lemma_sets_child(root, a, outer1);
                lemma_sets_other(root, a, None, other);
                lemma_sets_other(root, a, Some(outer1), other);
                lemma_gone(root, a);
                lemma_gone(outer, b);
                lemma_index_of(entries_of(outer1), b);
                assert(others(Seq::<Entry>::empty(), keys) =~= seq![]);
            }
        },
        None => {},
    }
}

/// What an edit of the sidebar rows leaves alone: under `ui` all but `sidebar`,
/// there all but the kinds in `scope`, and in every kind all but its rows.
pub open spec fn ui_kept(root: Node, x: Node, scope: Set<Seq<char>>) -> bool {
    &&& kept(Some(root), Some(x), set!["ui"@])
    &&& kept(child(root, "ui"@), child(x, "ui"@), set!["sidebar"@])
    &&& kept(child2(root, "ui"@, "sidebar"@), child2(x, "ui"@, "sidebar"@), scope)
    &&& forall|k: Seq<char>| kept(kind_table(root, k), #[trigger] kind_table(x, k), set!["rows"@])
    &&& forall|k: Seq<char>|
        !scope.contains(k) ==> #[trigger] kind_table(x, k) == kind_table(root, k)
}

/// Every table on the way to the rows that is in `root` is in `x`.
spec fn ui_grown(root: Node, x: Node) -> bool {
    &&& child(root, "ui"@) is Some ==> child(x, "ui"@) is Some
    &&& child2(root, "ui"@, "sidebar"@) is Some ==> child2(x, "ui"@, "sidebar"@) is Some
    &&& forall|k: Seq<char>|
        kind_table(root, k) is Some ==> #[trigger] kind_table(x, k) is Some
}

/// No table on the way to the rows has a key twice.
spec fn ui_unique(root: Node) -> bool {
    &&& root is Table
    &&& unique(entries_of(root))
    &&& child(root, "ui"@) is Some ==> unique(entries_of(child(root, "ui"@)->0))
    &&& child2(root, "ui"@, "sidebar"@) is Some ==> unique(
        entries_of(child2(root, "ui"@, "sidebar"@)->0),
    )
}

proof fn lemma_ui_trans(root: Node, m: Node, x: Node, scope: Set<Seq<char>>)
    requires
        ui_kept(root, m, scope),
        ui_kept(m, x, scope),
        ui_grown(root, m) || ui_grown(x, m),
    ensures
        ui_kept(root, x, scope),
{
    assert forall|k: Seq<char>| kept(
        kind_table(root, k),
        #[trigger] kind_table(x, k),
        set!["rows"@],
    ) by {
        assert(kept(kind_table(root, k), kind_table(m, k), set!["rows"@]));
        assert(kept(kind_table(m, k), kind_table(x, k), set!["rows"@]));
        if ui_grown(root, m) {
            assert(kind_table(root, k) is Some ==> kind_table(m, k) is Some);
        } else {
            assert(kind_table(x, k) is Some ==> kind_table(m, k) is Some);
        }
    }
    assert forall|k: Seq<char>| !scope.contains(k) implies #[trigger] kind_table(x, k)
        == kind_table(root, k) by {
        assert(kind_table(m, k) == kind_table(root, k));
    }
}

/// What setting one kind of the sidebar leaves alone.
proof fn lemma_kind_set(
    root: Node,
    ui: Node,
    sidebar: Node,
    kind: Seq<char>,
    o: Option<Node>,
    scope: Set<Seq<char>>,
)
    requires
        ui_unique(root),
        scope.contains(kind),
        table_like(ui),
        table_like(sidebar),
        unique(entries_of(ui)),
        unique(entries_of(sidebar)),
        kept(child(root, "ui"@), Some(ui), set!["sidebar"@]),
        kept(child2(root, "ui"@, "sidebar"@), Some(sidebar), scope),
        child2(root, "ui"@, "sidebar"@) is Some ==> child2(root, "ui"@, "sidebar"@)->0 == sidebar,
        child2(root, "ui"@, "sidebar"@) is None ==> entries_of(sidebar).len() == 0,
        kept(kind_table(root, kind), o, set!["rows"@]),
    ensures
        ({
            let x = sets(
                root,
                "ui"@,
                Some(sets(ui, "sidebar"@, Some(sets(sidebar, kind, o)))),
            );
            &&& ui_unique(x)
            &&& ui_kept(root, x, scope)
            &&& kind_table(x, kind) == o
            &&& child2(x, "ui"@, "sidebar"@) is Some
            &&& forall|k: Seq<char>|
                k != kind ==> #[trigger] kind_table(x, k) == kind_table(root, k)
        }),
{
    let sidebar1 = sets(sidebar, kind, o);
    let ui1 = sets(ui, "sidebar"@, Some(sidebar1));
    let x = sets(root, "ui"@, Some(ui1));
    lemma_kept_sets(root, "ui"@, Some(ui1), set!["ui"@]);
    lemma_kept_sets(ui, "sidebar"@, Some(sidebar1), set!["sidebar"@]);
    lemma_kept_sets(sidebar, kind, o, scope);
    lemma_sets_child(root, "ui"@, ui1);
    lemma_sets_child(ui, "sidebar"@, sidebar1);
    lemma_sets_unique(root, "ui"@, Some(ui1));
    lemma_sets_unique(ui, "sidebar"@, Some(sidebar1));
    lemma_sets_unique(sidebar, kind, o);
    match o {
        Some(t) => {
            lemma_sets_child(sidebar, kind, t);
        },
        None => {
            lemma_gone(sidebar, kind);
        },
    }
    assert forall|k: Seq<char>| k != kind implies #[trigger] kind_table(x, k) == kind_table(root, k)
        by {
        lemma_sets_other(sidebar, kind, o, k);
        lemma_index_of(entries_of(sidebar), k);
    }
    assert forall|k: Seq<char>| kept(
        kind_table(root, k),
        #[trigger] kind_table(x, k),
        set!["rows"@],
    ) by {
        assert(k != kind ==> kind_table(x, k) == kind_table(root, k));
    }
}

/// What writing the rows of one kind leaves alone.
proof fn lemma_kind_applied_kept(
    root: Node,
    pairs: Seq<(Seq<char>, Seq<char>)>,
    kind: Seq<char>,
    managed: Seq<Seq<char>>,
    scope: Set<Seq<char>>,
)
    requires
        ui_unique(root),
        scope.contains(kind),
        kind_applied(root, pairs, kind, managed) is Ok,
    ensures
        ({
            let x = kind_applied(root, pairs, kind, managed)->Ok_0;
            &&& ui_unique(x)
            &&& ui_kept(root, x, scope)
            &&& ui_grown(root, x)
            &&& user_rows(root, kind, managed) ==> x == root
            &&& forall|k: Seq<char>|
                k != kind ==> #[trigger] kind_table(x, k) == kind_table(root, k)
        }),
{
    lemma_kind_applied(root, pairs, kind, managed);
    if !user_rows(root, kind, managed) {
        let ui = base(root, "ui"@, true);
        let sidebar = sidebar_of(root);
        let table = base(sidebar, kind, false);
        let m = rows_node(pairs, kind);
        let t = put(table, "rows"@, m);
        lemma_kept_base(root, "ui"@, true, set!["sidebar"@]);
        lemma_kept_base(ui, "sidebar"@, true, scope);
        lemma_kept_base(sidebar, kind, false, set!["rows"@]);
        lemma_kept_put(table, "rows"@, m, set!["rows"@]);
        if child(root, "ui"@) is None {
            lemma_index_of(entries_of(ui), "sidebar"@);
        }
        if child2(root, "ui"@, "sidebar"@) is None {
            lemma_index_of(entries_of(sidebar), kind);
        }
        lemma_kind_set(root, ui, sidebar, kind, Some(t), scope);
        let x = sets(
            root,
            "ui"@,
            Some(sets(ui, "sidebar"@, Some(sets(sidebar, kind, Some(t))))),
        );
        assert forall|k: Seq<char>| kind_table(root, k) is Some implies #[trigger] kind_table(
            x,
            k,
        ) is Some by {
            assert(k != kind ==> kind_table(x, k) == kind_table(root, k));
        }
    }
}

/// What taking the rows of one kind out leaves alone.
proof fn lemma_kind_cleared_kept(root: Node, kind: Seq<char>, own: Own, scope: Set<Seq<char>>)
    requires
        ui_unique(root),
        scope.contains(kind),
    ensures
        ({
            let x = kind_cleared(root, kind, own);
            &&& ui_unique(x)
            &&& ui_kept(root, x, scope)
            &&& ui_grown(x, root)
        }),
{
    let x = kind_cleared(root, kind, own);
    if kind_table(root, kind) is Some && table_like(kind_table(root, kind)->0) {
        let ui = child(root, "ui"@)->0;
        let sidebar = child(ui, "sidebar"@)->0;
        let table = child(sidebar, kind)->0;
        let table1 = without(table, "rows"@);
        lemma_kept_sets(table, "rows"@, None, set!["rows"@]);
        let o = if entries_of(table1).len() == 0 && entries_of(table).len() > 0 && !own.kind(kind) {
            None
        } else {
            Some(table1)
        };
        lemma_kind_set(root, ui, sidebar, kind, o, scope);
        assert forall|k: Seq<char>| kind_table(x, k) is Some implies #[trigger] kind_table(
            root,
            k,
        ) is Some by {
            assert(k != kind ==> kind_table(x, k) == kind_table(root, k));
        }
    }
}

proof fn lemma_kinds_cleared_kept(root: Node, kinds: Seq<Seq<char>>, own: Own, scope: Set<Seq<char>>)
    requires
        ui_unique(root),
        forall|i: int| 0 <= i < kinds.len() ==> scope.contains(#[trigger] kinds[i]),
    ensures
        ui_unique(kinds_cleared(root, kinds, own)),
        ui_kept(root, kinds_cleared(root, kinds, own), scope),
        ui_grown(kinds_cleared(root, kinds, own), root),
    decreases kinds.len(),
{
    if kinds.len() > 0 {
        let p = kinds.drop_last();
        assert forall|i: int| 0 <= i < p.len() implies scope.contains(#[trigger] p[i]) by {
            assert(p[i] == kinds[i]);
        }
        lemma_kinds_cleared_kept(root, p, own, scope);
        let m = kinds_cleared(root, p, own);
        assert(kinds[kinds.len() - 1] == kinds.last());
        lemma_kind_cleared_kept(m, kinds.last(), own, scope);
        let x = kind_cleared(m, kinds.last(), own);
        lemma_ui_trans(root, m, x, scope);
        assert forall|k: Seq<char>| kind_table(x, k) is Some implies #[trigger] kind_table(
            root,
            k,
        ) is Some by {
            assert(kind_table(m, k) is Some);
        }
    }
}

/// What the sidebar part of a plan leaves alone.
proof fn lemma_sidebar_kept(root: Node, plan: PlanView, own: Own)
    requires
        ui_unique(root),
        sidebar_step(root, plan, own) is Ok,
    ensures
        ({
            let x = sidebar_step(root, plan, own)->Ok_0.0;
            &&& ui_unique(x)
            &&& ui_kept(root, x, kind_scope(plan))
            &&& child(x, "theme"@) == child(root, "theme"@)
            &&& plan.sidebar is Some ==> forall|k: Seq<char>|
                user_rows(root, k, plan.managed_sidebar) ==> #[trigger] kind_table(x, k)
                    == kind_table(root, k)
        }),
{
    lemma_kind_names();
    let scope = kind_scope(plan);
    let x = sidebar_step(root, plan, own)->Ok_0.0;
    match plan.sidebar {
        Some(pairs) => {
            let a = "agents"@;
            let b = "spaces"@;
            let managed = plan.managed_sidebar;
            lemma_kind_applied_kept(root, pairs, a, managed, scope);
            let m = kind_applied(root, pairs, a, managed)->Ok_0;
            lemma_kind_applied_kept(m, pairs, b, managed, scope);
            lemma_ui_trans(root, m, x, scope);
            lemma_sidebar_keeps(root, pairs, managed, "theme"@);
            assert forall|k: Seq<char>| user_rows(root, k, managed) implies #[trigger] kind_table(
                x,
                k,
            ) == kind_table(root, k) by {
                if k == b {
                    assert(kind_table(m, b) == kind_table(root, b));
                } else {
                    assert(kind_table(x, k) == kind_table(m, k));
                    if k != a {
                        assert(kind_table(m, k) == kind_table(root, k));
                    }
                }
            }
        },
        None => {
            let kinds = plan.managed_sidebar;
            assert forall|i: int| 0 <= i < kinds.len() implies scope.contains(#[trigger] kinds[i])
                by {
                assert(kinds.contains(kinds[i]));
            }
            lemma_kinds_cleared_kept(root, kinds, own, scope);
            let m = kinds_cleared(root, kinds, own);
            lemma_tidied_kept(m, "ui"@, "sidebar"@, own.ui, own.sidebar, scope, "theme"@);
            lemma_tidied_unique(m, "ui"@, "sidebar"@, own.ui, own.sidebar);
            assert forall|k: Seq<char>| #[trigger] kind_table(x, k) == kind_table(m, k) by {
                if child2(m, "ui"@, "sidebar"@) is Some && child2(x, "ui"@, "sidebar"@) is None {
                    lemma_index_of(entries_of(child2(m, "ui"@, "sidebar"@)->0), k);
                }
            }
            lemma_ui_trans(root, m, x, scope);
            lemma_cleared_keeps(root, kinds, own, "theme"@);
        },
    }
}

proof fn lemma_tidied_unique(root: Node, a: Seq<char>, b: Seq<char>, fa: bool, fb: bool)
    requires
        root is Table,
        unique(entries_of(root)),
        child(root, a) is Some ==> unique(entries_of(child(root, a)->0)),
    ensures
        unique(entries_of(tidied(root, a, b, fa, fb))),
        child(tidied(root, a, b, fa, fb), a) is Some ==> unique(
            entries_of(child(tidied(root, a, b, fa, fb), a)->0),
        ),
{
    match child(root, a) {
        Some(outer) => {
            let outer1 = without(outer, b);
            lemma_gone(root, a);
            lemma_gone(outer, b);
            lemma_sets_unique(root, a, Some(outer));
            lemma_sets_unique(root, a, Some(outer1));
            lemma_sets_child(root, a, outer);
            lemma_sets_child(root, a, outer1);
        },
        None => {},
    }
}

/// An edit leaves everything alone that is not its own. At the root that is all
/// but `theme` and `ui`; under `theme` all but `custom`; there all but the keys
/// that were managed and those that are now, so that a key of the user's keeps its
/// value though the palette names it; under `ui` all but
/// `sidebar`; there all but the managed kinds; and in every kind all but its
/// rows. Rows that the user set stay as they are.
pub proof fn law_the_rest_is_untouched(root: Node, plan: PlanView)
    requires
        root is Table,
        unique_keys(root),
        planned(root, plan) is Ok,
    ensures
        ({
            let x = planned(root, plan)->Ok_0.root;
            &&& kept(Some(root), Some(x), set!["theme"@, "ui"@])
            &&& kept(child(root, "theme"@), child(x, "theme"@), set!["custom"@])
            &&& kept(
                child2(root, "theme"@, "custom"@),
                child2(x, "theme"@, "custom"@),
                token_scope(root, plan),
            )
            &&& kept(child(root, "ui"@), child(x, "ui"@), set!["sidebar"@])
            &&& kept(
                child2(root, "ui"@, "sidebar"@),
                child2(x, "ui"@, "sidebar"@),
                kind_scope(plan),
            )
            &&& forall|k: Seq<char>| kept(
                kind_table(root, k),
                #[trigger] kind_table(x, k),
                set!["rows"@],
            )
            &&& plan.sidebar is Some ==> forall|k: Seq<char>|
                user_rows(root, k, plan.managed_sidebar) ==> #[trigger] kind_table(x, k)
                    == kind_table(root, k)
        }),
{
    lemma_kind_names();
    let root1 = theme_step(root, plan)->Ok_0;
    let root2 = sidebar_step(root1, plan, own_after(root, plan))->Ok_0.0;
    let x = planned(root, plan)->Ok_0.root;
    let own = own_after(root, plan);
    lemma_unique_children(root, "ui"@, "sidebar"@);
    lemma_unique_children(root, "theme"@, "custom"@);
    lemma_theme_kept(root, plan);
    lemma_theme_unique(root, plan);
    lemma_sidebar_kept(root1, plan, own);
    lemma_tidied_kept(
        root2,
        "theme"@,
        "custom"@,
        own.theme,
        own.custom,
        token_scope(root, plan),
        "ui"@,
    );
    lemma_wider(root, root1, set!["theme"@], set!["theme"@, "ui"@]);
    lemma_wider(root1, root2, set!["ui"@], set!["theme"@, "ui"@]);
    lemma_wider(root2, x, set!["theme"@], set!["theme"@, "ui"@]);
    assert forall|k: Seq<char>| #[trigger] kind_table(x, k) == kind_table(root2, k) by {}
    assert forall|k: Seq<char>| #[trigger] kind_table(root1, k) == kind_table(root, k) by {}
}

/// What is left alone but for some keys is left alone but for more of them.
proof fn lemma_wider(n: Node, m: Node, keys: Set<Seq<char>>, more: Set<Seq<char>>)
    requires
        keys.subset_of(more),
        kept(Some(n), Some(m), keys),
    ensures
        kept(Some(n), Some(m), more),
{
    lemma_others_twice(entries_of(n), keys, more);
    lemma_others_twice(entries_of(m), keys, more);
}

/// The same of optional tables.
pub proof fn lemma_wider_opt(
    o: Option<Node>,
    p: Option<Node>,
    keys: Set<Seq<char>>,
    more: Set<Seq<char>>,
)
    requires
        keys.subset_of(more),
        kept(o, p, keys),
    ensures
        kept(o, p, more),
{
    lemma_others_twice(Seq::<Entry>::empty(), keys, more);
    if o is Some {
        lemma_others_twice(entries_of(o->0), keys, more);
    }
    if p is Some {
        lemma_others_twice(entries_of(p->0), keys, more);
    }
}

proof fn lemma_others_twice(e: Seq<Entry>, keys: Set<Seq<char>>, more: Set<Seq<char>>)
    requires
        keys.subset_of(more),
    ensures
        others(others(e, keys), more) == others(e, more),
    decreases e.len(),
{
    if e.len() > 0 {
        lemma_others_twice(e.drop_last(), keys, more);
        let rest = others(e.drop_last(), keys);
        if !keys.contains(e.last().key) {
            assert(rest.push(e.last()).drop_last() =~= rest);
        }
    }
}

proof fn lemma_unique_children(root: Node, a: Seq<char>, b: Seq<char>)
    requires
        unique_keys(root),
    ensures
        unique(entries_of(root)),
        child(root, a) is Some ==> unique(entries_of(child(root, a)->0)),
        child2(root, a, b) is Some ==> unique(entries_of(child2(root, a, b)->0)),
{
    lemma_unique_child(root, a);
    if child(root, a) is Some {
        lemma_unique_child(child(root, a)->0, b);
        if child2(root, a, b) is Some {
            lemma_unique_child(child2(root, a, b)->0, b);
        }
    }
}

proof fn lemma_unique_child(n: Node, key: Seq<char>)
    requires
        unique_keys(n),
    ensures
        unique(entries_of(n)),
        child(n, key) is Some ==> unique_keys(child(n, key)->0),
{
    let e = entries_of(n);
    lemma_index_of(e, key);
    if holds_key(e, key) {
        assert(unique_keys(e[index_of(e, key)].node));
    }
}

/// The theme part of a plan leaves no key twice.
proof fn lemma_theme_unique(root: Node, plan: PlanView)
    requires
        root is Table,
        unique_keys(root),
        theme_step(root, plan) is Ok,
    ensures
        ({
            let x = theme_step(root, plan)->Ok_0;
            &&& unique(entries_of(x))
            &&& child(x, "theme"@) is Some ==> unique(entries_of(child(x, "theme"@)->0))
        }),
{
    lemma_unique_children(root, "theme"@, "custom"@);
    match plan.theme {
        Some(pairs) => {
            let theme = base(root, "theme"@, true);
            let custom = base(theme, "custom"@, false);
            let custom1 = custom_after(root, pairs, plan.previously_managed);
            let theme1 = sets(theme, "custom"@, Some(custom1));
            lemma_theme_applied(root, pairs, plan.previously_managed);
            lemma_sets_unique(theme, "custom"@, Some(custom1));
            lemma_sets_unique(root, "theme"@, Some(theme1));
            lemma_sets_child(root, "theme"@, theme1);
        },
        None => {
            match (child(root, "theme"@), child2(root, "theme"@, "custom"@)) {
                (Some(theme), Some(custom)) => {
                    let custom1 = without_stale(custom, plan.previously_managed, seq![]);
                    let theme1 = sets(theme, "custom"@, Some(custom1));
                    lemma_sets_unique(theme, "custom"@, Some(custom1));
                    lemma_sets_unique(root, "theme"@, Some(theme1));
                    lemma_sets_child(root, "theme"@, theme1);
                },
                _ => {},
            }
        },
    }
}

/// Keys that are taken out of a table are gone from it.
proof fn lemma_stale_gone(n: Node, keys: Seq<Seq<char>>, keep: Seq<Seq<char>>, i: int)
    requires
        unique(entries_of(n)),
        0 <= i < keys.len(),
        !keep.contains(keys[i]),
    ensures
        child(without_stale(n, keys, keep), keys[i]) is None,
    decreases keys.len(),
{
    let p = keys.drop_last();
    let m = without_stale(n, p, keep);
    lemma_stale_unique(n, p, keep);
    if i == p.len() {
        lemma_gone(m, keys.last());
    } else {
        lemma_stale_gone(n, p, keep, i);
        assert(p[i] == keys[i]);
        if keys.last() == keys[i] {
            lemma_gone(m, keys.last());
        } else {
            lemma_sets_other(m, keys.last(), None, keys[i]);
        }
    }
}

proof fn lemma_stale_unique(n: Node, keys: Seq<Seq<char>>, keep: Seq<Seq<char>>)
    requires
        unique(entries_of(n)),
    ensures
        unique(entries_of(without_stale(n, keys, keep))),
    decreases keys.len(),
{
    if keys.len() > 0 {
        lemma_stale_unique(n, keys.drop_last(), keep);
        lemma_gone(without_stale(n, keys.drop_last(), keep), keys.last());
    }
}

proof fn lemma_tokens_other(n: Node, pairs: Seq<(Seq<char>, Seq<char>)>, key: Seq<char>)
    requires
        table_like(n),
        !token_keys(pairs).contains(key),
    ensures
        child(with_tokens(n, pairs), key) == child(n, key),
    decreases pairs.len(),
{
    if pairs.len() > 0 {
        let p = pairs.drop_last();
        let m = with_tokens(n, p);
        let keys = token_keys(pairs);
        assert(keys[keys.len() - 1] == pairs.last().0);
        assert(token_keys(p) =~= keys.drop_last());
        assert(!token_keys(p).contains(key)) by {
            if token_keys(p).contains(key) {
                let j = choose|j: int| 0 <= j < token_keys(p).len() && token_keys(p)[j] == key;
                assert(keys[j] == key);
            }
        }
        lemma_tokens_other(n, p, key);
        lemma_tokens_kind(n, p);
        let e = entries_of(m);
        let x = crate::toml::entry(pairs.last().0, string_node(pairs.last().1));
        lemma_index_of(e, x.key);
        lemma_index_of(e, key);
        if holds_key(e, x.key) {
            lemma_index_update(e, index_of(e, x.key), x, key);
        } else {
            lemma_index_push(e, x, key);
        }
    }
}

/// A key that was managed and is not among the tokens that are set is gone from
/// `theme.custom` after the edit.
pub proof fn law_stale_keys_are_gone(root: Node, plan: PlanView, i: int)
    requires
        root is Table,
        unique_keys(root),
        planned(root, plan) is Ok,
        0 <= i < plan.previously_managed.len(),
        plan.theme is Some ==> !token_keys(plan.theme->0).contains(plan.previously_managed[i]),
    ensures
        match child2(planned(root, plan)->Ok_0.root, "theme"@, "custom"@) {
            Some(custom) => child(custom, plan.previously_managed[i]) is None,
            None => true,
        },
{
    lemma_kind_names();
    let root1 = theme_step(root, plan)->Ok_0;
    let root2 = sidebar_step(root1, plan, own_after(root, plan))->Ok_0.0;
    let key = plan.previously_managed[i];
    let keys = plan.previously_managed;
    let own = own_after(root, plan);
    lemma_unique_children(root, "ui"@, "sidebar"@);
    lemma_unique_children(root, "theme"@, "custom"@);
    lemma_theme_kept(root, plan);
    lemma_theme_unique(root, plan);
    lemma_sidebar_kept(root1, plan, own);
    lemma_tidied_kept(
        root2,
        "theme"@,
        "custom"@,
        own.theme,
        own.custom,
        token_scope(root, plan),
        "ui"@,
    );
    match plan.theme {
        Some(pairs) => {
            let theme = base(root, "theme"@, true);
            let custom = base(theme, "custom"@, false);
            let free = free_pairs(root, pairs, keys);
            let gone = without_stale(custom, keys, token_keys(free));
            let custom1 = with_tokens(gone, free);
            let theme1 = sets(theme, "custom"@, Some(custom1));
            lemma_theme_applied(root, pairs, keys);
            lemma_stale_kind(custom, keys, token_keys(free));
            lemma_free_pairs(root, pairs, keys);
            lemma_free(entries_of(custom), pairs, keys);
            assert(!token_keys(free).contains(key)) by {
                if token_keys(free).contains(key) {
                    let j = choose|j: int| 0 <= j < free.len() && token_keys(free)[j] == key;
                    assert(free[j].0 == key);
                    let k = choose|k: int| 0 <= k < pairs.len() && pairs[k] == free[j];
                    assert(token_keys(pairs)[k] == key);
                }
            }
            lemma_sets_child(root, "theme"@, theme1);
            lemma_sets_child(theme, "custom"@, custom1);
            if child(root, "theme"@) is None {
                lemma_index_of(entries_of(theme), "custom"@);
            }
            lemma_stale_gone(custom, keys, token_keys(free), i);
            lemma_tokens_other(gone, free, key);
        },
        None => {
            match (child(root, "theme"@), child2(root, "theme"@, "custom"@)) {
                (Some(theme), Some(custom)) => {
                    let custom1 = without_stale(custom, keys, seq![]);
                    let theme1 = sets(theme, "custom"@, Some(custom1));
                    lemma_stale_gone(custom, keys, seq![], i);
                    lemma_sets_child(root, "theme"@, theme1);
                    lemma_sets_child(theme, "custom"@, custom1);
                },
                _ => {},
            }
        },
    }
}

/// The plan leaves the user's own entries of `theme.custom` alone: a key that is
/// there and not managed stands there afterwards with the same value, and is not
/// managed, whatever tokens are set.
pub proof fn law_own_entries_survive(root: Node, plan: PlanView, key: Seq<char>)
    requires
        root is Table,
        unique_keys(root),
        planned(root, plan) is Ok,
        child2(root, "theme"@, "custom"@) is Some,
        child(child2(root, "theme"@, "custom"@)->0, key) is Some,
        !plan.previously_managed.contains(key),
    ensures
        ({
            let o = planned(root, plan)->Ok_0;
            let custom = child2(o.root, "theme"@, "custom"@);
            &&& !o.keys.contains(key)
            &&& custom is Some
            &&& child(custom->0, key) == child(child2(root, "theme"@, "custom"@)->0, key)
        }),
{
    let o = planned(root, plan)->Ok_0;
    let scope = token_scope(root, plan);
    let custom0 = child2(root, "theme"@, "custom"@)->0;
    let e = entries_of(custom0);
    lemma_index_of(e, key);
    assert(!o.keys.contains(key)) by {
        match plan.theme {
            Some(pairs) => {
                let free = free_pairs(root, pairs, plan.previously_managed);
                lemma_free(e, pairs, plan.previously_managed);
                if token_keys(free).contains(key) {
                    let j = choose|j: int| 0 <= j < free.len() && token_keys(free)[j] == key;
                    assert(free[j].0 == key);
                }
            },
            None => {},
        }
    }
    law_the_rest_is_untouched(root, plan);
    lemma_others_child(e, scope, key);
    let custom1 = child2(o.root, "theme"@, "custom"@);
    match custom1 {
        Some(c) => {
            lemma_others_child(entries_of(c), scope, key);
        },
        None => {
            assert(!holds_key(Seq::<Entry>::empty(), key));
        },
    }
}

/// What stands under a key is told by the entries whose keys are not among others.
proof fn lemma_others_child(e: Seq<Entry>, keys: Set<Seq<char>>, key: Seq<char>)
    requires
        !keys.contains(key),
    ensures
        holds_key(others(e, keys), key) == holds_key(e, key),
        holds_key(e, key) ==> others(e, keys)[index_of(others(e, keys), key)] == e[index_of(
            e,
            key,
        )],
    decreases e.len(),
{
    if e.len() > 0 {
        let d = e.drop_last();
        let x = e.last();
        lemma_others_child(d, keys, key);
        assert(e =~= d.push(x));
        lemma_index_of(d, key);
        lemma_index_of(others(d, keys), key);
        lemma_index_push(d, x, key);
        lemma_index_push(others(d, keys), x, key);
    }
}

/// The kinds whose tables hold no key twice.
spec fn kinds_unique(root: Node) -> bool {
    forall|k: Seq<char>|
        (#[trigger] kind_table(root, k)) is Some ==> unique(entries_of(kind_table(root, k)->0))
}

proof fn lemma_rows_gone(root: Node, kind: Seq<char>, own: Own)
    requires
        ui_unique(root),
        kinds_unique(root),
    ensures
        ({
            let x = kind_cleared(root, kind, own);
            &&& ui_unique(x)
            &&& kinds_unique(x)
            &&& kind_table(x, kind) is Some ==> child(kind_table(x, kind)->0, "rows"@) is None
            &&& forall|k: Seq<char>|
                k != kind ==> #[trigger] kind_table(x, k) == kind_table(root, k)
        }),
{
    let x = kind_cleared(root, kind, own);
    let scope = set![kind];
    lemma_kind_cleared_kept(root, kind, own, scope);
    if kind_table(root, kind) is Some && table_like(kind_table(root, kind)->0) {
        let ui = child(root, "ui"@)->0;
        let sidebar = child(ui, "sidebar"@)->0;
        let table = child(sidebar, kind)->0;
        let table1 = without(table, "rows"@);
        lemma_gone(table, "rows"@);
        lemma_kept_sets(table, "rows"@, None, set!["rows"@]);
        let o = if entries_of(table1).len() == 0 && entries_of(table).len() > 0 && !own.kind(kind) {
            None
        } else {
            Some(table1)
        };
        lemma_kind_set(root, ui, sidebar, kind, o, scope);
        assert(kind_table(x, kind) == o);
    } else {
        if kind_table(root, kind) is Some {
            lemma_index_of(entries_of(kind_table(root, kind)->0), "rows"@);
        }
        assert(x == root);
    }
    assert forall|k: Seq<char>| (#[trigger] kind_table(x, k)) is Some implies unique(
        entries_of(kind_table(x, k)->0),
    ) by {
        if k != kind {
            assert(kind_table(x, k) == kind_table(root, k));
        }
    }
}

proof fn lemma_all_rows_gone(root: Node, kinds: Seq<Seq<char>>, own: Own, i: int)
    requires
        ui_unique(root),
        kinds_unique(root),
        0 <= i < kinds.len() || kinds.len() == 0,
    ensures
        ({
            let x = kinds_cleared(root, kinds, own);
            &&& ui_unique(x)
            &&& kinds_unique(x)
            &&& kinds.len() > 0 && kind_table(x, kinds[i]) is Some ==> child(
                kind_table(x, kinds[i])->0,
                "rows"@,
            ) is None
        }),
    decreases kinds.len(),
{
    if kinds.len() > 0 {
        let p = kinds.drop_last();
        let j = if i < p.len() {
            i
        } else {
            0
        };
        lemma_all_rows_gone(root, p, own, j);
        let m = kinds_cleared(root, p, own);
        lemma_rows_gone(m, kinds.last(), own);
        let x = kinds_cleared(root, kinds, own);
        if kinds[i] != kinds.last() {
            assert(kind_table(x, kinds[i]) == kind_table(m, kinds[i]));
        }
    }
}

/// An edit without sidebar rows leaves none of those that were managed, and none is
/// managed then.
pub proof fn law_managed_rows_are_taken_out(root: Node, plan: PlanView, i: int)
    requires
        root is Table,
        unique_keys(root),
        plan.sidebar is None,
        planned(root, plan) is Ok,
        0 <= i < plan.managed_sidebar.len(),
    ensures
        ({
            let o = planned(root, plan)->Ok_0;
            let table = kind_table(o.root, plan.managed_sidebar[i]);
            &&& table is Some ==> child(table->0, "rows"@) is None
            &&& o.kinds.len() == 0
        }),
{
    lemma_kind_names();
    let own = own_after(root, plan);
    let root1 = theme_step(root, plan)->Ok_0;
    let x = planned(root, plan)->Ok_0.root;
    lemma_unique_children(root, "ui"@, "sidebar"@);
    lemma_unique_children(root, "theme"@, "custom"@);
    lemma_theme_kept(root, plan);
    lemma_theme_unique(root, plan);
    lemma_sidebar_kept(root1, plan, own);
    let kinds = plan.managed_sidebar;
    let m = kinds_cleared(root1, kinds, own);
    assert(kinds_unique(root1)) by {
        assert forall|k: Seq<char>| (#[trigger] kind_table(root1, k)) is Some implies unique(
            entries_of(kind_table(root1, k)->0),
        ) by {
            lemma_unique_child(root, "ui"@);
            lemma_unique_child(child(root, "ui"@)->0, "sidebar"@);
            let sidebar = child2(root, "ui"@, "sidebar"@)->0;
            lemma_unique_child(sidebar, k);
            lemma_unique_child(child(sidebar, k)->0, k);
        }
    }
    lemma_all_rows_gone(root1, kinds, own, i);
    let root2 = sidebar_step(root1, plan, own)->Ok_0.0;
    lemma_tidied_kept(
        m,
        "ui"@,
        "sidebar"@,
        own.ui,
        own.sidebar,
        set!["rows"@],
        "theme"@,
    );
    let k = kinds[i];
    assert(kind_table(root2, k) is Some ==> kind_table(root2, k) == kind_table(m, k));
    lemma_tidied_kept(
        root2,
        "theme"@,
        "custom"@,
        own.theme,
        own.custom,
        set!["rows"@],
        "ui"@,
    );
    assert(kind_table(x, k) == kind_table(root2, k));
}

// --- what is refused -------------------------------------------------------------

/// The theme of a configuration is refused where `theme` or `theme.custom` is there
/// and is no table of either form, the outer one first; and only where tokens are to
/// be set.
pub proof fn law_when_a_theme_is_refused(root: Node, plan: PlanView)
    requires
        root is Table,
    ensures
        ({
            let theme = child(root, "theme"@);
            let custom = child2(root, "theme"@, "custom"@);
            let bad = theme is Some && !(theme->0 is Table || theme->0 is Inline);
            let worse = custom is Some && !(custom->0 is Table || custom->0 is Inline);
            &&& plan.theme is None ==> theme_step(root, plan) is Ok
            &&& plan.theme is Some && bad ==> theme_step(root, plan) == Err::<Node, Fault>(
                Fault::ThemeNotTable,
            )
            &&& plan.theme is Some && !bad && worse ==> theme_step(root, plan) == Err::<
                Node,
                Fault,
            >(Fault::CustomNotTable)
            &&& plan.theme is Some && !bad && !worse ==> theme_step(root, plan) is Ok
            &&& theme_step(root, plan) is Err ==> planned(root, plan) == Err::<Outcome, Fault>(
                theme_step(root, plan)->Err_0,
            )
        }),
{
    let fresh = fresh_table(true);
    lemma_child_put(root, "theme"@, fresh);
    let root1 = ensured(root, "theme"@, true);
    let theme = child(root1, "theme"@)->0;
    if table_like(theme) {
        lemma_child_put(theme, "custom"@, fresh_table(false));
    }
    lemma_index_of(entries_of(fresh), "custom"@);
}

/// The place of the first thing on the way to the rows of a kind that is there and is
/// no table under a header.
pub open spec fn in_the_way(root: Node, kind: Seq<char>) -> Option<Seq<char>> {
    let ui = child(root, "ui"@);
    let sidebar = child2(root, "ui"@, "sidebar"@);
    let table = kind_table(root, kind);
    if ui is Some && !(ui->0 is Table) {
        Some("ui"@)
    } else if sidebar is Some && !(sidebar->0 is Table) {
        Some("ui.sidebar"@)
    } else if table is Some && !(table->0 is Table) {
        Some("ui.sidebar."@ + kind)
    } else {
        None
    }
}

/// The rows of a kind are refused where something on the way to them is there and is
/// no table under a header, with the place of that; and only there.
pub proof fn law_when_rows_are_refused(
    root: Node,
    pairs: Seq<(Seq<char>, Seq<char>)>,
    kind: Seq<char>,
    managed: Seq<Seq<char>>,
)
    requires
        root is Table,
        !user_rows(root, kind, managed),
    ensures
        match in_the_way(root, kind) {
            Some(place) => kind_applied(root, pairs, kind, managed) == Err::<Node, Fault>(
                Fault::NotStandardTable(place),
            ),
            None => kind_applied(root, pairs, kind, managed) is Ok,
        },
{
    let fresh = fresh_table(true);
    lemma_child_put(root, "ui"@, fresh);
    lemma_index_of(entries_of(fresh), "sidebar"@);
    lemma_index_of(entries_of(fresh), kind);
    let root1 = ensured(root, "ui"@, true);
    let ui = child(root1, "ui"@)->0;
    if ui is Table {
        lemma_child_put(ui, "sidebar"@, fresh);
        let ui1 = ensured(ui, "sidebar"@, true);
        let sidebar = child(ui1, "sidebar"@)->0;
        if sidebar is Table {
            lemma_child_put(sidebar, kind, fresh_table(false));
        }
    }
}

/// An edit that writes sidebar rows is refused for what is in the way of the rows of
/// agents, then for what is in the way of those of spaces, unless those rows are the
/// user's; and for nothing else.
pub proof fn law_when_a_sidebar_is_refused(
    root: Node,
    pairs: Seq<(Seq<char>, Seq<char>)>,
    managed: Seq<Seq<char>>,
)
    requires
        root is Table,
        unique_keys(root),
    ensures
        ({
            let a = in_the_way(root, "agents"@);
            let b = in_the_way(root, "spaces"@);
            let bad = a is Some && !user_rows(root, "agents"@, managed);
            let worse = b is Some && !user_rows(root, "spaces"@, managed);
            let got = sidebar_applied(root, pairs, managed);
            &&& bad ==> got is Err && got->Err_0 == Fault::NotStandardTable(a->0)
            &&& !bad && worse ==> got is Err && got->Err_0 == Fault::NotStandardTable(b->0)
            &&& !bad && !worse ==> got is Ok
        }),
{
    lemma_kind_names();
    let a = "agents"@;
    let b = "spaces"@;
    lemma_unique_children(root, "ui"@, "sidebar"@);
    if !user_rows(root, a, managed) {
        law_when_rows_are_refused(root, pairs, a, managed);
    }
    let first = kind_applied(root, pairs, a, managed);
    if first is Ok {
        let x = first->Ok_0;
        lemma_kind_applied_kept(root, pairs, a, managed, set![a]);
        lemma_kind_stands(root, pairs, a, managed, b, root);
        assert(kind_table(x, b) == kind_table(root, b));
        if !user_rows(root, a, managed) {
            assert(rows_stand(x, a, rows_node(pairs, a)));
            assert(child(x, "ui"@)->0 is Table);
            assert(child2(x, "ui"@, "sidebar"@)->0 is Table);
        }
        assert(user_rows(x, b, managed) == user_rows(root, b, managed));
        if !user_rows(x, b, managed) {
            law_when_rows_are_refused(x, pairs, b, managed);
        }
    }
}

/// An edit without sidebar rows is refused for its theme alone; one with them is
/// refused for its theme first, and then for what is in the way of the rows.
pub proof fn law_when_a_plan_is_refused(root: Node, plan: PlanView)
    requires
        root is Table,
    ensures
        theme_step(root, plan) is Ok ==> (planned(root, plan) is Err <==> plan.sidebar is Some
            && sidebar_applied(
            theme_step(root, plan)->Ok_0,
            plan.sidebar->0,
            plan.managed_sidebar,
        ) is Err),
        theme_step(root, plan) is Ok && planned(root, plan) is Err ==> planned(root, plan)->Err_0
            == sidebar_applied(
            theme_step(root, plan)->Ok_0,
            plan.sidebar->0,
            plan.managed_sidebar,
        )->Err_0,
        theme_step(root, plan) is Ok ==> in_the_way(theme_step(root, plan)->Ok_0, "agents"@)
            == in_the_way(root, "agents"@) && in_the_way(
            theme_step(root, plan)->Ok_0,
            "spaces"@,
        ) == in_the_way(root, "spaces"@),
{
    if theme_step(root, plan) is Ok {
        lemma_theme_kept(root, plan);
    }
}

/// What the user is told of a refused edit names what is in the way.
pub proof fn law_refusals_name_the_place(place: Seq<char>, why: Seq<char>)
    ensures
        EditError::message_of(Fault::Parse(why)) == "herdr config parse error: "@ + why,
        EditError::message_of(Fault::NotStandardTable(place)) == place
            + " exists but is not a standard table"@,
        EditError::message_of(Fault::ThemeNotTable) == "theme"@ + " exists but is not a table"@,
        EditError::message_of(Fault::CustomNotTable) == "theme.custom"@
            + " exists but is not a table"@,
{
    reveal_strlit("theme");
    reveal_strlit("theme.custom");
    reveal_strlit(" exists but is not a table");
    reveal_strlit("theme exists but is not a table");
    reveal_strlit("theme.custom exists but is not a table");
    assert("theme exists but is not a table"@ =~= "theme"@ + " exists but is not a table"@);
    assert("theme.custom exists but is not a table"@ =~= "theme.custom"@
        + " exists but is not a table"@);
}

} // verus!
