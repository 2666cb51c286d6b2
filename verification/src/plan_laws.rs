//! What the edits of Herdr's configuration keep, undo and repeat.
//!
//! The root of the document is taken with the user's own values in their places,
//! before any of them gives way to a palette; `plan_series` has whole documents.
use crate::own::Own;
use crate::plan::{
    child2, empty_table, ensured, free_of, free_pairs, keys_after, kind_table, lemma_child_put,
    lemma_same_child, lemma_with_child, own_after, planned, sidebar_step, theme_applied,
    theme_cleared, theme_step, theme_written, tidied, token_keys, with_tokens, without_stale, Fault,
    Outcome, PlanView,
};
use crate::sidebar::{
    has_rows, kind_applied, kind_cleared, kinds_cleared, rows_node, rows_put, sidebar_applied,
    sidebar_cleared, user_rows,
};
use crate::toml::{
    child, entries_of, entry, fitted, fresh_table, holds_key, index_of, lemma_index_is,
    lemma_index_of, put, put_entry, string_node, table_like, with_child, with_entries, without,
    Entry, Node,
};
use vstd::prelude::*;

verus! {

/// The table with what stands under `key` set: replaced, added at the end, or
/// taken out.
pub open spec fn sets(n: Node, key: Seq<char>, o: Option<Node>) -> Node {
    match o {
        Some(m) => if holds_key(entries_of(n), key) {
            with_child(n, key, m)
        } else {
            with_entries(n, entries_of(n).push(entry(key, m)))
        },
        None => without(n, key),
    }
}

pub proof fn lemma_index_push(e: Seq<Entry>, x: Entry, key: Seq<char>)
    ensures
        holds_key(e, key) ==> index_of(e.push(x), key) == index_of(e, key),
        !holds_key(e, key) && x.key == key ==> index_of(e.push(x), key) == e.len(),
        !holds_key(e, key) && x.key != key ==> !holds_key(e.push(x), key),
{
    lemma_index_of(e, key);
    let f = e.push(x);
    let i = index_of(e, key);
    if holds_key(e, key) || x.key == key {
        lemma_index_is(f, key, i);
    } else {
        lemma_index_is(f, key, f.len() as int);
    }
}

pub proof fn lemma_index_update(e: Seq<Entry>, at: int, x: Entry, key: Seq<char>)
    requires
        0 <= at < e.len(),
        e[at].key == x.key,
    ensures
        index_of(e.update(at, x), key) == index_of(e, key),
{
    lemma_index_of(e, key);
    lemma_index_is(e.update(at, x), key, index_of(e, key));
}

pub proof fn lemma_index_remove(e: Seq<Entry>, at: int, key: Seq<char>)
    requires
        0 <= at < e.len(),
        e[at].key != key,
    ensures
        index_of(e.remove(at), key) == if index_of(e, key) > at {
            index_of(e, key) - 1
        } else {
            index_of(e, key)
        },
{
    lemma_index_of(e, key);
    let i = index_of(e, key);
    let f = e.remove(at);
    let k = if i > at {
        i - 1
    } else {
        i
    };
    assert forall|j: int| 0 <= j < k implies (#[trigger] f[j]).key != key by {
        if j < at {
            assert(f[j] == e[j]);
        } else {
            assert(f[j] == e[j + 1]);
        }
    }
    if k < f.len() {
        if k < at {
            assert(f[k] == e[k]);
        } else {
            assert(f[k] == e[k + 1]);
        }
    }
    lemma_index_is(f, key, k);
}

pub proof fn lemma_sets_kind(n: Node, key: Seq<char>, o: Option<Node>)
    requires
        table_like(n),
    ensures
        table_like(sets(n, key, o)),
        n is Table <==> sets(n, key, o) is Table,
{
}

/// What is set stands there.
pub proof fn lemma_sets_child(n: Node, key: Seq<char>, m: Node)
    requires
        table_like(n),
    ensures
        child(sets(n, key, Some(m)), key) == Some(m),
{
    let e = entries_of(n);
    lemma_index_of(e, key);
    if holds_key(e, key) {
        lemma_with_child(n, key, m);
    } else {
        lemma_index_push(e, entry(key, m), key);
    }
}

/// Setting one key leaves what stands under another.
pub proof fn lemma_sets_other(n: Node, key: Seq<char>, o: Option<Node>, other: Seq<char>)
    requires
        key != other,
    ensures
        child(sets(n, key, o), other) == child(n, other),
{
    if table_like(n) {
        let e = entries_of(n);
        let i = index_of(e, key);
        lemma_index_of(e, key);
        lemma_index_of(e, other);
        match o {
            Some(m) => {
                if holds_key(e, key) {
                    lemma_index_update(e, i, Entry { node: m, ..e[i] }, other);
                } else {
                    lemma_index_push(e, entry(key, m), other);
                }
            },
            None => {
                if holds_key(e, key) {
                    lemma_index_remove(e, i, other);
                }
            },
        }
    } else {
        assert(sets(n, key, o) == n);
    }
}

/// Setting what stands there changes nothing.
pub proof fn lemma_sets_same(n: Node, key: Seq<char>)
    ensures
        sets(n, key, child(n, key)) == n,
{
    if child(n, key) is Some {
        lemma_same_child(n, key);
    }
}

/// The later of two settings of one key counts.
pub proof fn lemma_sets_twice(n: Node, key: Seq<char>, m: Node, o: Option<Node>)
    requires
        table_like(n),
    ensures
        sets(sets(n, key, Some(m)), key, o) == sets(n, key, o),
{
    let e = entries_of(n);
    let i = index_of(e, key);
    lemma_index_of(e, key);
    let x = sets(n, key, Some(m));
    let f = entries_of(x);
    if holds_key(e, key) {
        lemma_with_child(n, key, m);
        lemma_index_update(e, i, Entry { node: m, ..e[i] }, key);
        match o {
            Some(w) => {
                assert(f.update(i, Entry { node: w, ..f[i] }) =~= e.update(
                    i,
                    Entry { node: w, ..e[i] },
                ));
            },
            None => {
                assert(f.remove(i) =~= e.remove(i));
            },
        }
    } else {
        lemma_index_push(e, entry(key, m), key);
        match o {
            Some(w) => {
                assert(f.update(e.len() as int, Entry { node: w, ..f[e.len() as int] }) =~= e.push(
                    entry(key, w),
                ));
            },
            None => {
                assert(f.remove(e.len() as int) =~= e);
            },
        }
    }
}

/// A key that is there can be set before or after another.
pub proof fn lemma_sets_commute(n: Node, j: Seq<char>, c: Option<Node>, k: Seq<char>, b: Option<Node>)
    requires
        table_like(n),
        j != k,
        child(n, j) is Some,
    ensures
        sets(sets(n, k, b), j, c) == sets(sets(n, j, c), k, b),
{
    let e = entries_of(n);
    let ij = index_of(e, j);
    let ik = index_of(e, k);
    lemma_index_of(e, j);
    lemma_index_of(e, k);
    // where j is after k is set
    match b {
        Some(m) => {
            if holds_key(e, k) {
                lemma_index_update(e, ik, Entry { node: m, ..e[ik] }, j);
            } else {
                lemma_index_push(e, entry(k, m), j);
            }
        },
        None => {
            if holds_key(e, k) {
                lemma_index_remove(e, ik, j);
            }
        },
    }
    // where k is after j is set
    match c {
        Some(m) => {
            lemma_index_update(e, ij, Entry { node: m, ..e[ij] }, k);
        },
        None => {
            lemma_index_remove(e, ij, k);
        },
    }
    let l = entries_of(sets(sets(n, k, b), j, c));
    let r = entries_of(sets(sets(n, j, c), k, b));
    assert(l =~= r);
}

// --- making what is missing ------------------------------------------------------

/// What stands under `key`, or an empty table where nothing does.
pub open spec fn base(n: Node, key: Seq<char>, implicit: bool) -> Node {
    match child(n, key) {
        Some(m) => m,
        None => fitted(n, fresh_table(implicit)),
    }
}

pub proof fn lemma_put_is_sets(n: Node, key: Seq<char>, m: Node)
    requires
        table_like(n),
        child(n, key) is None,
    ensures
        put(n, key, m) == sets(n, key, Some(fitted(n, m))),
{
}

/// Making a table where there is none, and then setting it, is setting it.
proof fn lemma_ensured_then(n: Node, key: Seq<char>, implicit: bool, m: Node)
    requires
        table_like(n),
    ensures
        child(ensured(n, key, implicit), key) == Some(base(n, key, implicit)),
        with_child(ensured(n, key, implicit), key, m) == sets(n, key, Some(m)),
{
    if child(n, key) is None {
        lemma_put_is_sets(n, key, fresh_table(implicit));
        let f = fitted(n, fresh_table(implicit));
        lemma_sets_child(n, key, f);
        lemma_sets_twice(n, key, f, Some(m));
    }
}

// --- theme tokens ----------------------------------------------------------------

/// None of the keys occurs among the entries.
pub open spec fn none_of(entries: Seq<Entry>, keys: Seq<Seq<char>>) -> bool {
    forall|i: int| 0 <= i < keys.len() ==> !holds_key(entries, #[trigger] keys[i])
}

pub proof fn lemma_index_append(e: Seq<Entry>, f: Seq<Entry>, key: Seq<char>)
    requires
        !holds_key(e, key),
    ensures
        index_of(e + f, key) == e.len() + index_of(f, key),
{
    lemma_index_of(e, key);
    lemma_index_of(f, key);
    let g = e + f;
    let i = e.len() + index_of(f, key);
    assert forall|j: int| 0 <= j < i implies (#[trigger] g[j]).key != key by {
        if j < e.len() {
            assert(g[j] == e[j]);
        } else {
            assert(g[j] == f[j - e.len()]);
        }
    }
    lemma_index_is(g, key, i);
}

/// What `theme_written` makes of a root, in one setting.
proof fn lemma_theme_written(
    root: Node,
    pairs: Seq<(Seq<char>, Seq<char>)>,
    managed: Seq<Seq<char>>,
)
    requires
        root is Table,
        theme_written(root, pairs, managed) is Ok,
    ensures
        ({
            let theme = base(root, "theme"@, true);
            let custom = base(theme, "custom"@, false);
            let custom1 = with_tokens(without_stale(custom, managed, token_keys(pairs)), pairs);
            &&& table_like(theme)
            &&& table_like(custom)
            &&& theme_written(root, pairs, managed) == Ok::<Node, Fault>(
                sets(root, "theme"@, Some(sets(theme, "custom"@, Some(custom1)))),
            )
        }),
{
    let theme = base(root, "theme"@, true);
    let custom = base(theme, "custom"@, false);
    let custom1 = with_tokens(without_stale(custom, managed, token_keys(pairs)), pairs);
    lemma_ensured_then(root, "theme"@, true, sets(theme, "custom"@, Some(custom1)));
    lemma_ensured_then(theme, "custom"@, false, custom1);
}

// --- sidebar rows ----------------------------------------------------------------

/// The sidebar table of a configuration, or the empty one it would get.
pub open spec fn sidebar_of(root: Node) -> Node {
    base(base(root, "ui"@, true), "sidebar"@, true)
}

/// The root with another sidebar table.
pub open spec fn with_sidebar(root: Node, sidebar: Node) -> Node {
    sets(root, "ui"@, Some(sets(base(root, "ui"@, true), "sidebar"@, Some(sidebar))))
}

proof fn lemma_with_sidebar(root: Node, sidebar: Node, later: Node)
    requires
        root is Table,
        base(root, "ui"@, true) is Table,
    ensures
        with_sidebar(root, sidebar) is Table,
        base(with_sidebar(root, sidebar), "ui"@, true) is Table,
        child2(with_sidebar(root, sidebar), "ui"@, "sidebar"@) == Some(sidebar),
        sidebar_of(with_sidebar(root, sidebar)) == sidebar,
        with_sidebar(with_sidebar(root, sidebar), later) == with_sidebar(root, later),
{
    let ui = base(root, "ui"@, true);
    let ui1 = sets(ui, "sidebar"@, Some(sidebar));
    lemma_sets_kind(ui, "sidebar"@, Some(sidebar));
    lemma_sets_child(root, "ui"@, ui1);
    lemma_sets_child(ui, "sidebar"@, sidebar);
    lemma_sets_twice(ui, "sidebar"@, sidebar, Some(later));
    lemma_sets_twice(root, "ui"@, ui1, Some(sets(ui, "sidebar"@, Some(later))));
}

/// The table of a sidebar kind with rows in it.
pub open spec fn kind_with_rows(sidebar: Node, kind: Seq<char>, m: Node) -> Node {
    put(base(sidebar, kind, false), "rows"@, m)
}

proof fn lemma_rows_put(root: Node, kind: Seq<char>, m: Node)
    requires
        root is Table,
        rows_put(root, kind, m) is Ok,
    ensures
        base(root, "ui"@, true) is Table,
        sidebar_of(root) is Table,
        base(sidebar_of(root), kind, false) is Table,
        rows_put(root, kind, m) == Ok::<Node, Fault>(
            with_sidebar(
                root,
                sets(
                    sidebar_of(root),
                    kind,
                    Some(kind_with_rows(sidebar_of(root), kind, m)),
                ),
            ),
        ),
{
    let ui = base(root, "ui"@, true);
    let sidebar = sidebar_of(root);
    let table = base(sidebar, kind, false);
    let sidebar1 = sets(sidebar, kind, Some(put(table, "rows"@, m)));
    lemma_ensured_then(root, "ui"@, true, sets(ui, "sidebar"@, Some(sidebar1)));
    lemma_ensured_then(ui, "sidebar"@, true, sidebar1);
    lemma_ensured_then(sidebar, kind, false, put(table, "rows"@, m));
}

/// The sidebar table after rows are written for the kinds that the user has not
/// set.
pub open spec fn sidebar_after(
    sidebar: Node,
    pairs: Seq<(Seq<char>, Seq<char>)>,
    kind: Seq<char>,
    written: bool,
) -> Node {
    if written {
        sets(sidebar, kind, Some(kind_with_rows(sidebar, kind, rows_node(pairs, kind))))
    } else {
        sidebar
    }
}

pub proof fn lemma_kind_names()
    ensures
        "agents"@ != "spaces"@,
        "theme"@ != "ui"@,
{
    reveal_strlit("agents");
    reveal_strlit("spaces");
    reveal_strlit("theme");
    reveal_strlit("ui");
    assert("agents"@[0] == 'a' && "spaces"@[0] == 's');
    assert("theme"@.len() == 5 && "ui"@.len() == 2);
}

/// What `kind_applied` makes of a root whose rows of that kind are not managed.
pub proof fn lemma_kind_applied(
    root: Node,
    pairs: Seq<(Seq<char>, Seq<char>)>,
    kind: Seq<char>,
    managed: Seq<Seq<char>>,
)
    requires
        root is Table,
        kind_applied(root, pairs, kind, managed) is Ok,
    ensures
        user_rows(root, kind, managed) ==> kind_applied(root, pairs, kind, managed) == Ok::<
            Node,
            Fault,
        >(root),
        !user_rows(root, kind, managed) ==> {
            &&& base(root, "ui"@, true) is Table
            &&& sidebar_of(root) is Table
            &&& base(sidebar_of(root), kind, false) is Table
            &&& kind_applied(root, pairs, kind, managed) == Ok::<Node, Fault>(
                with_sidebar(root, sidebar_after(sidebar_of(root), pairs, kind, true)),
            )
        },
{
    if !user_rows(root, kind, managed) {
        lemma_rows_put(root, kind, rows_node(pairs, kind));
    }
}

/// Tidying changes nothing where what is empty is kept.
pub proof fn lemma_tidied_same(root: Node, a: Seq<char>, b: Seq<char>, fa: bool, fb: bool)
    requires
        empty_table(child(root, a)) ==> fa,
        empty_table(child2(root, a, b)) ==> fb,
    ensures
        tidied(root, a, b, fa, fb) == root,
{
    if child(root, a) is Some {
        lemma_same_child(root, a);
    }
}

/// A table that holds something under a key is not empty.
pub proof fn lemma_child_not_empty(n: Node, key: Seq<char>)
    requires
        child(n, key) is Some,
    ensures
        table_like(n),
        entries_of(n).len() > 0,
        !empty_table(Some(n)),
{
    lemma_index_of(entries_of(n), key);
}

// --- laws ------------------------------------------------------------------------

/// Writing sidebar rows leaves what stands under a key other than `ui`.
pub proof fn lemma_sidebar_keeps(
    root: Node,
    pairs: Seq<(Seq<char>, Seq<char>)>,
    managed: Seq<Seq<char>>,
    key: Seq<char>,
)
    requires
        root is Table,
        key != "ui"@,
        sidebar_applied(root, pairs, managed) is Ok,
    ensures
        sidebar_applied(root, pairs, managed)->Ok_0.0 is Table,
        child(sidebar_applied(root, pairs, managed)->Ok_0.0, key) == child(root, key),
{
    let a = "agents"@;
    let b = "spaces"@;
    lemma_kind_keeps(root, pairs, a, managed, key);
    lemma_kind_keeps(kind_applied(root, pairs, a, managed)->Ok_0, pairs, b, managed, key);
}

proof fn lemma_kind_keeps(
    root: Node,
    pairs: Seq<(Seq<char>, Seq<char>)>,
    kind: Seq<char>,
    managed: Seq<Seq<char>>,
    key: Seq<char>,
)
    requires
        root is Table,
        key != "ui"@,
        kind_applied(root, pairs, kind, managed) is Ok,
    ensures
        kind_applied(root, pairs, kind, managed)->Ok_0 is Table,
        child(kind_applied(root, pairs, kind, managed)->Ok_0, key) == child(root, key),
{
    lemma_kind_applied(root, pairs, kind, managed);
    if !user_rows(root, kind, managed) {
        let s1 = sidebar_after(sidebar_of(root), pairs, kind, true);
        let u = Some(sets(base(root, "ui"@, true), "sidebar"@, Some(s1)));
        lemma_sets_kind(root, "ui"@, u);
        lemma_sets_other(root, "ui"@, u, key);
    }
}

/// Taking sidebar rows out leaves what stands under a key other than `ui`.
pub proof fn lemma_cleared_keeps(root: Node, kinds: Seq<Seq<char>>, own: Own, key: Seq<char>)
    requires
        root is Table,
        key != "ui"@,
    ensures
        sidebar_cleared(root, kinds, own) is Table,
        child(sidebar_cleared(root, kinds, own), key) == child(root, key),
{
    lemma_kinds_cleared_keeps(root, kinds, own, key);
    let x = kinds_cleared(root, kinds, own);
    match child(x, "ui"@) {
        Some(ui) => {
            lemma_sets_other(x, "ui"@, None, key);
            let ui1 = without(ui, "sidebar"@);
            lemma_sets_other(x, "ui"@, Some(ui1), key);
            lemma_sets_other(x, "ui"@, Some(ui), key);
        },
        None => {},
    }
}

proof fn lemma_kinds_cleared_keeps(root: Node, kinds: Seq<Seq<char>>, own: Own, key: Seq<char>)
    requires
        root is Table,
        key != "ui"@,
    ensures
        kinds_cleared(root, kinds, own) is Table,
        child(kinds_cleared(root, kinds, own), key) == child(root, key),
    decreases kinds.len(),
{
    if kinds.len() > 0 {
        lemma_kinds_cleared_keeps(root, kinds.drop_last(), own, key);
        let x = kinds_cleared(root, kinds.drop_last(), own);
        let y = kind_cleared(x, kinds.last(), own);
        if y != x {
            assert(child(x, "ui"@) is Some);
            let ui = child(x, "ui"@)->0;
            let sidebar = child(ui, "sidebar"@)->0;
            let table = child(sidebar, kinds.last())->0;
            let table1 = without(table, "rows"@);
            let sidebar1 = if entries_of(table1).len() == 0 && entries_of(table).len() > 0
                && !own.kind(kinds.last()) {
                without(sidebar, kinds.last())
            } else {
                with_child(sidebar, kinds.last(), table1)
            };
            lemma_sets_other(x, "ui"@, Some(with_child(ui, "sidebar"@, sidebar1)), key);
        }
    }
}

/// A token that the user holds stays through an edit.
proof fn lemma_stale_other(n: Node, keys: Seq<Seq<char>>, keep: Seq<Seq<char>>, key: Seq<char>)
    requires
        !keys.contains(key),
    ensures
        child(without_stale(n, keys, keep), key) == child(n, key),
    decreases keys.len(),
{
    if keys.len() > 0 {
        let p = keys.drop_last();
        assert(keys[keys.len() - 1] == keys.last());
        assert(!p.contains(key)) by {
            if p.contains(key) {
                let j = choose|j: int| 0 <= j < p.len() && p[j] == key;
                assert(keys[j] == key);
            }
        }
        lemma_stale_other(n, p, keep, key);
        lemma_sets_other(without_stale(n, p, keep), keys.last(), None, key);
    }
}

/// The tokens that may be set are the managed ones and those that are not there.
pub proof fn lemma_free(
    e: Seq<Entry>,
    pairs: Seq<(Seq<char>, Seq<char>)>,
    managed: Seq<Seq<char>>,
)
    ensures
        forall|i: int|
            0 <= i < free_of(e, pairs, managed).len() ==> {
                let p = #[trigger] free_of(e, pairs, managed)[i];
                pairs.contains(p) && (managed.contains(p.0) || !holds_key(e, p.0))
            },
        forall|i: int|
            0 <= i < pairs.len() && (managed.contains((#[trigger] pairs[i]).0) || !holds_key(
                e,
                pairs[i].0,
            )) ==> free_of(e, pairs, managed).contains(pairs[i]),
    decreases pairs.len(),
{
    if pairs.len() > 0 {
        let p = pairs.drop_last();
        lemma_free(e, p, managed);
        let rest = free_of(e, p, managed);
        let all = free_of(e, pairs, managed);
        assert(pairs[pairs.len() - 1] == pairs.last());
        assert forall|i: int| 0 <= i < all.len() implies {
            let q = #[trigger] all[i];
            pairs.contains(q) && (managed.contains(q.0) || !holds_key(e, q.0))
        } by {
            if i < rest.len() {
                assert(all[i] == rest[i]);
                let j = choose|j: int| 0 <= j < p.len() && p[j] == rest[i];
                assert(pairs[j] == rest[i]);
            }
        }
        assert forall|i: int|
            0 <= i < pairs.len() && (managed.contains((#[trigger] pairs[i]).0) || !holds_key(
                e,
                pairs[i].0,
            )) implies all.contains(pairs[i]) by {
            if i < p.len() {
                assert(p[i] == pairs[i]);
                let j = choose|j: int| 0 <= j < rest.len() && rest[j] == pairs[i];
                assert(all[j] == pairs[i]);
            } else {
                assert(all[all.len() - 1] == pairs[i]);
            }
        }
    }
}

/// Which tokens may be set depends on whether each is managed or there.
pub proof fn lemma_free_same(
    e: Seq<Entry>,
    f: Seq<Entry>,
    pairs: Seq<(Seq<char>, Seq<char>)>,
    managed: Seq<Seq<char>>,
    others: Seq<Seq<char>>,
)
    requires
        forall|i: int|
            0 <= i < pairs.len() ==> {
                let k = (#[trigger] pairs[i]).0;
                (managed.contains(k) || !holds_key(e, k)) == (others.contains(k) || !holds_key(f, k))
            },
    ensures
        free_of(e, pairs, managed) == free_of(f, pairs, others),
    decreases pairs.len(),
{
    if pairs.len() > 0 {
        let p = pairs.drop_last();
        assert(pairs[pairs.len() - 1] == pairs.last());
        assert forall|i: int| 0 <= i < p.len() implies {
            let k = (#[trigger] p[i]).0;
            (managed.contains(k) || !holds_key(e, k)) == (others.contains(k) || !holds_key(f, k))
        } by {
            assert(p[i] == pairs[i]);
        }
        lemma_free_same(e, f, p, managed, others);
    }
}

/// No token is set twice where none is named twice.
proof fn lemma_free_once(
    e: Seq<Entry>,
    pairs: Seq<(Seq<char>, Seq<char>)>,
    managed: Seq<Seq<char>>,
)
    requires
        token_keys(pairs).no_duplicates(),
    ensures
        token_keys(free_of(e, pairs, managed)).no_duplicates(),
    decreases pairs.len(),
{
    if pairs.len() > 0 {
        let p = pairs.drop_last();
        let keys = token_keys(pairs);
        assert(token_keys(p) =~= keys.drop_last());
        lemma_free_once(e, p, managed);
        lemma_free(e, p, managed);
        let rest = free_of(e, p, managed);
        let all = free_of(e, pairs, managed);
        assert forall|i: int, j: int|
            0 <= i < j < all.len() implies token_keys(all)[i] != token_keys(all)[j] by {
            assert(token_keys(rest)[i] == rest[i].0);
            if j == rest.len() {
                let a = choose|a: int| 0 <= a < p.len() && p[a] == rest[i];
                assert(keys[a] == rest[i].0);
                assert(keys[keys.len() - 1] == pairs.last().0);
            } else {
                assert(token_keys(rest)[i] != token_keys(rest)[j]);
            }
        }
    }
}

/// The tokens that may be set in `theme.custom`, or in the table that is made for
/// them.
pub proof fn lemma_free_pairs(
    root: Node,
    pairs: Seq<(Seq<char>, Seq<char>)>,
    managed: Seq<Seq<char>>,
)
    ensures
        free_pairs(root, pairs, managed) == free_of(
            entries_of(base(base(root, "theme"@, true), "custom"@, false)),
            pairs,
            managed,
        ),
{
    let theme = base(root, "theme"@, true);
    if child(root, "theme"@) is None {
        lemma_index_of(entries_of(theme), "custom"@);
    }
}

/// What an edit makes of `theme.custom`.
pub open spec fn custom_after(
    root: Node,
    pairs: Seq<(Seq<char>, Seq<char>)>,
    managed: Seq<Seq<char>>,
) -> Node {
    let custom = base(base(root, "theme"@, true), "custom"@, false);
    let free = free_pairs(root, pairs, managed);
    with_tokens(without_stale(custom, managed, token_keys(free)), free)
}

/// What the theme part of an edit makes of a root, in one setting.
pub proof fn lemma_theme_applied(
    root: Node,
    pairs: Seq<(Seq<char>, Seq<char>)>,
    managed: Seq<Seq<char>>,
)
    requires
        root is Table,
        theme_applied(root, pairs, managed) is Ok,
    ensures
        ({
            let theme = base(root, "theme"@, true);
            let custom = base(theme, "custom"@, false);
            &&& table_like(theme)
            &&& table_like(custom)
            &&& table_like(custom_after(root, pairs, managed))
            &&& theme_applied(root, pairs, managed) == Ok::<Node, Fault>(
                sets(
                    root,
                    "theme"@,
                    Some(sets(theme, "custom"@, Some(custom_after(root, pairs, managed)))),
                ),
            )
        }),
{
    let free = free_pairs(root, pairs, managed);
    let custom = base(base(root, "theme"@, true), "custom"@, false);
    lemma_theme_written(root, free, managed);
    lemma_stale_kind(custom, managed, token_keys(free));
    lemma_tokens_kind(without_stale(custom, managed, token_keys(free)), free);
}

/// A key of the user's stands in `theme.custom` after an edit as before.
pub proof fn lemma_held_stays(
    root: Node,
    pairs: Seq<(Seq<char>, Seq<char>)>,
    managed: Seq<Seq<char>>,
    key: Seq<char>,
)
    requires
        table_like(base(base(root, "theme"@, true), "custom"@, false)),
        !managed.contains(key),
        holds_key(entries_of(base(base(root, "theme"@, true), "custom"@, false)), key),
    ensures
        holds_key(entries_of(custom_after(root, pairs, managed)), key),
        !token_keys(free_pairs(root, pairs, managed)).contains(key),
{
    let custom = base(base(root, "theme"@, true), "custom"@, false);
    let free = free_pairs(root, pairs, managed);
    let gone = without_stale(custom, managed, token_keys(free));
    lemma_free_pairs(root, pairs, managed);
    lemma_free(entries_of(custom), pairs, managed);
    lemma_stale_other(custom, managed, token_keys(free), key);
    lemma_stale_kind(custom, managed, token_keys(free));
    lemma_tokens_hold(gone, free, key);
    if token_keys(free).contains(key) {
        let i = choose|i: int| 0 <= i < free.len() && token_keys(free)[i] == key;
        assert(free[i].0 == key);
    }
}

/// Setting tokens takes nothing out.
proof fn lemma_tokens_hold(n: Node, pairs: Seq<(Seq<char>, Seq<char>)>, key: Seq<char>)
    requires
        table_like(n),
        holds_key(entries_of(n), key),
    ensures
        holds_key(entries_of(with_tokens(n, pairs)), key),
    decreases pairs.len(),
{
    if pairs.len() > 0 {
        let p = pairs.drop_last();
        lemma_tokens_hold(n, p, key);
        lemma_tokens_kind(n, p);
        let e = entries_of(with_tokens(n, p));
        let x = entry(pairs.last().0, string_node(pairs.last().1));
        lemma_index_of(e, x.key);
        if holds_key(e, x.key) {
            lemma_index_update(e, index_of(e, x.key), x, key);
        } else {
            lemma_index_push(e, x, key);
        }
    }
}

/// After its theme part, a plan that names tokens leaves some in `theme.custom`,
/// and the rest of the plan changes neither that table nor its place.
pub proof fn lemma_custom_stays(root: Node, plan: PlanView)
    requires
        root is Table,
        plan.theme is Some,
        plan.theme->0.len() > 0,
        planned(root, plan) is Ok,
    ensures
        ({
            let theme = base(root, "theme"@, true);
            let custom1 = custom_after(root, plan.theme->0, plan.previously_managed);
            let theme2 = sets(theme, "custom"@, Some(custom1));
            let applied = planned(root, plan)->Ok_0.root;
            &&& table_like(custom1)
            &&& entries_of(custom1).len() > 0
            &&& table_like(theme2)
            &&& applied is Table
            &&& applied == sidebar_step(
                theme_step(root, plan)->Ok_0,
                plan,
                own_after(root, plan),
            )->Ok_0.0
            &&& child(applied, "theme"@) == Some(theme2)
            &&& child(theme2, "custom"@) == Some(custom1)
        }),
{
    lemma_kind_names();
    let pairs = plan.theme->0;
    let managed = plan.previously_managed;
    let own = own_after(root, plan);
    let theme = base(root, "theme"@, true);
    let custom = base(theme, "custom"@, false);
    let free = free_pairs(root, pairs, managed);
    let kept = without_stale(custom, managed, token_keys(free));
    let custom1 = custom_after(root, pairs, managed);
    let theme2 = sets(theme, "custom"@, Some(custom1));
    lemma_theme_applied(root, pairs, managed);
    lemma_stale_kind(custom, managed, token_keys(free));
    lemma_tokens_kind(kept, free);
    assert(entries_of(custom1).len() > 0) by {
        lemma_free_pairs(root, pairs, managed);
        lemma_free(entries_of(custom), pairs, managed);
        let key = pairs[0].0;
        if !managed.contains(key) && holds_key(entries_of(custom), key) {
            lemma_held_stays(root, pairs, managed, key);
            lemma_index_of(entries_of(custom1), key);
        } else {
            assert(free.contains(pairs[0]));
        }
    }
    let root1 = theme_step(root, plan)->Ok_0;
    lemma_sets_kind(root, "theme"@, Some(theme2));
    lemma_sets_child(root, "theme"@, theme2);
    lemma_sets_child(theme, "custom"@, custom1);
    lemma_sets_kind(theme, "custom"@, Some(custom1));
    lemma_child_not_empty(theme2, "custom"@);
    match plan.sidebar {
        Some(colours) => {
            lemma_sidebar_keeps(root1, colours, plan.managed_sidebar, "theme"@);
        },
        None => {
            lemma_cleared_keeps(root1, plan.managed_sidebar, own, "theme"@);
        },
    }
    let root2 = sidebar_step(root1, plan, own)->Ok_0.0;
    lemma_same_child(root2, "theme"@);
}

pub proof fn lemma_stale_kind(n: Node, keys: Seq<Seq<char>>, keep: Seq<Seq<char>>)
    requires
        table_like(n),
    ensures
        table_like(without_stale(n, keys, keep)),
        n is Table <==> without_stale(n, keys, keep) is Table,
    decreases keys.len(),
{
    if keys.len() > 0 {
        lemma_stale_kind(n, keys.drop_last(), keep);
    }
}

pub proof fn lemma_tokens_kind(n: Node, pairs: Seq<(Seq<char>, Seq<char>)>)
    requires
        table_like(n),
    ensures
        table_like(with_tokens(n, pairs)),
        n is Table <==> with_tokens(n, pairs) is Table,
        pairs.len() > 0 ==> entries_of(with_tokens(n, pairs)).len() > 0,
    decreases pairs.len(),
{
    if pairs.len() > 0 {
        lemma_tokens_kind(n, pairs.drop_last());
        lemma_child_put(
            with_tokens(n, pairs.drop_last()),
            pairs.last().0,
            string_node(pairs.last().1),
        );
    }
}

/// Whether the entry of `key` is written plainly and holds `m`.
pub open spec fn stands_plain(n: Node, key: Seq<char>, m: Node) -> bool {
    holds_key(entries_of(n), key) && entries_of(n)[index_of(entries_of(n), key)] == entry(key, m)
}

proof fn lemma_put_plain(n: Node, key: Seq<char>, m: Node)
    requires
        table_like(n),
    ensures
        stands_plain(put(n, key, m), key, fitted(n, m)),
        stands_plain(n, key, fitted(n, m)) ==> put(n, key, m) == n,
{
    let e = entries_of(n);
    let f = put_entry(e, key, fitted(n, m));
    lemma_index_of(e, key);
    lemma_index_is(f, key, index_of(e, key));
    if stands_plain(n, key, fitted(n, m)) {
        assert(f =~= e);
    }
}

proof fn lemma_put_leaves_plain(n: Node, key: Seq<char>, m: Node, other: Seq<char>, w: Node)
    requires
        table_like(n),
        key != other,
        stands_plain(n, other, w),
    ensures
        stands_plain(put(n, key, m), other, w),
{
    let e = entries_of(n);
    lemma_index_of(e, key);
    lemma_index_of(e, other);
    let x = entry(key, fitted(n, m));
    if holds_key(e, key) {
        lemma_index_update(e, index_of(e, key), x, other);
    } else {
        lemma_index_push(e, x, other);
    }
}

/// Each token that was set stands there, plainly written.
proof fn lemma_tokens_stand(n: Node, pairs: Seq<(Seq<char>, Seq<char>)>, i: int)
    requires
        table_like(n),
        token_keys(pairs).no_duplicates(),
        0 <= i < pairs.len(),
    ensures
        stands_plain(with_tokens(n, pairs), pairs[i].0, string_node(pairs[i].1)),
    decreases pairs.len(),
{
    let p = pairs.drop_last();
    let keys = token_keys(pairs);
    let last = pairs.last();
    assert(token_keys(p) =~= keys.drop_last());
    lemma_tokens_kind(n, p);
    let m = with_tokens(n, p);
    lemma_put_plain(m, last.0, string_node(last.1));
    if i < p.len() {
        lemma_tokens_stand(n, p, i);
        assert(keys[i] != keys[keys.len() - 1]);
        lemma_put_leaves_plain(
            m,
            last.0,
            string_node(last.1),
            pairs[i].0,
            string_node(pairs[i].1),
        );
    }
}

/// Setting tokens that stand there already changes nothing.
proof fn lemma_tokens_again(n: Node, pairs: Seq<(Seq<char>, Seq<char>)>)
    requires
        table_like(n),
        forall|i: int|
            0 <= i < pairs.len() ==> stands_plain(
                n,
                (#[trigger] pairs[i]).0,
                string_node(pairs[i].1),
            ),
    ensures
        with_tokens(n, pairs) == n,
    decreases pairs.len(),
{
    if pairs.len() > 0 {
        let p = pairs.drop_last();
        assert forall|i: int| 0 <= i < p.len() implies stands_plain(
            n,
            (#[trigger] p[i]).0,
            string_node(p[i].1),
        ) by {
            assert(p[i] == pairs[i]);
        }
        lemma_tokens_again(n, p);
        assert(pairs[pairs.len() - 1] == pairs.last());
        lemma_put_plain(n, pairs.last().0, string_node(pairs.last().1));
    }
}

proof fn lemma_none_stale(n: Node, keys: Seq<Seq<char>>, keep: Seq<Seq<char>>)
    requires
        forall|i: int| 0 <= i < keys.len() ==> keep.contains(#[trigger] keys[i]),
    ensures
        without_stale(n, keys, keep) == n,
    decreases keys.len(),
{
    if keys.len() > 0 {
        assert forall|i: int| 0 <= i < keys.drop_last().len() implies keep.contains(
            #[trigger] keys.drop_last()[i],
        ) by {
            assert(keys.drop_last()[i] == keys[i]);
        }
        lemma_none_stale(n, keys.drop_last(), keep);
        assert(keys[keys.len() - 1] == keys.last());
    }
}

/// The rows of a kind stand in the sidebar as they are written.
pub open spec fn rows_stand(root: Node, kind: Seq<char>, m: Node) -> bool {
    &&& base(root, "ui"@, true) is Table
    &&& child(root, "ui"@) is Some
    &&& child2(root, "ui"@, "sidebar"@) is Some
    &&& sidebar_of(root) is Table
    &&& child(sidebar_of(root), kind) is Some
    &&& child(sidebar_of(root), kind)->0 is Table
    &&& stands_plain(child(sidebar_of(root), kind)->0, "rows"@, m)
}

pub proof fn lemma_kind_stands(
    root: Node,
    pairs: Seq<(Seq<char>, Seq<char>)>,
    kind: Seq<char>,
    managed: Seq<Seq<char>>,
    other: Seq<char>,
    m: Node,
)
    requires
        root is Table,
        kind_applied(root, pairs, kind, managed) is Ok,
    ensures
        kind_applied(root, pairs, kind, managed)->Ok_0 is Table,
        !user_rows(root, kind, managed) ==> rows_stand(
            kind_applied(root, pairs, kind, managed)->Ok_0,
            kind,
            rows_node(pairs, kind),
        ),
        kind != other && rows_stand(root, other, m) ==> rows_stand(
            kind_applied(root, pairs, kind, managed)->Ok_0,
            other,
            m,
        ),
        kind != other ==> has_rows(
            kind_applied(root, pairs, kind, managed)->Ok_0,
            other,
        ) == has_rows(root, other),
{
    lemma_kind_applied(root, pairs, kind, managed);
    if !user_rows(root, kind, managed) {
        let s0 = sidebar_of(root);
        let rows = rows_node(pairs, kind);
        let t = kind_with_rows(s0, kind, rows);
        let s1 = sets(s0, kind, Some(t));
        lemma_with_sidebar(root, s1, s1);
        lemma_sets_child(s0, kind, t);
        lemma_sets_kind(s0, kind, Some(t));
        lemma_put_plain(base(s0, kind, false), "rows"@, rows);
        lemma_child_put(base(s0, kind, false), "rows"@, rows);
        lemma_sets_child(root, "ui"@, sets(base(root, "ui"@, true), "sidebar"@, Some(s1)));
        if kind != other {
            lemma_sets_other(s0, kind, Some(t), other);
            if child2(root, "ui"@, "sidebar"@) is None {
                lemma_index_of(entries_of(s0), other);
                lemma_index_of(Seq::<Entry>::empty(), "rows"@);
            }
        }
    }
}

proof fn lemma_rows_again(root: Node, kind: Seq<char>, m: Node)
    requires
        root is Table,
        rows_stand(root, kind, m),
    ensures
        rows_put(root, kind, m) == Ok::<Node, Fault>(root),
{
    let ui = child(root, "ui"@)->0;
    let s = sidebar_of(root);
    let t = child(s, kind)->0;
    lemma_put_plain(t, "rows"@, m);
    lemma_same_child(s, kind);
    lemma_same_child(ui, "sidebar"@);
    lemma_same_child(root, "ui"@);
}

/// Repeating an edit changes nothing: carried out again on what it gave, with
/// what it says is managed, a plan gives the same document, and the same is
/// managed.
pub proof fn law_apply_is_idempotent(root: Node, plan: PlanView)
    requires
        root is Table,
        plan.theme is Some ==> plan.theme->0.len() > 0 && token_keys(
            plan.theme->0,
        ).no_duplicates(),
        planned(root, plan) is Ok,
    ensures
        ({
            let first = planned(root, plan)->Ok_0;
            planned(first.root, repeated(plan, first)) == Ok::<Outcome, Fault>(first)
        }),
{
    lemma_kind_names();
    let own = own_after(root, plan);
    let first = planned(root, plan)->Ok_0;
    let applied = first.root;
    let kinds = first.kinds;
    let again = repeated(plan, first);
    let own2 = own_after(applied, again);
    let root1 = theme_step(root, plan)->Ok_0;
    let root2 = sidebar_step(root1, plan, own)->Ok_0.0;

    // the theme part
    assert(theme_step(applied, again) == Ok::<Node, Fault>(applied) && keys_after(applied, again)
        == first.keys) by {
        match plan.theme {
            Some(pairs) => {
                let managed = plan.previously_managed;
                let free = free_pairs(root, pairs, managed);
                let keys = token_keys(free);
                lemma_custom_stays(root, plan);
                let theme = base(root, "theme"@, true);
                let custom = base(theme, "custom"@, false);
                let kept = without_stale(custom, managed, keys);
                let custom1 = custom_after(root, pairs, managed);
                let theme2 = sets(theme, "custom"@, Some(custom1));
                lemma_theme_applied(root, pairs, managed);
                lemma_stale_kind(custom, managed, keys);
                lemma_free_pairs(root, pairs, managed);
                lemma_free(entries_of(custom), pairs, managed);
                lemma_free_once(entries_of(custom), pairs, managed);
                assert forall|i: int| 0 <= i < free.len() implies stands_plain(
                    custom1,
                    (#[trigger] free[i]).0,
                    string_node(free[i].1),
                ) by {
                    lemma_tokens_stand(kept, free, i);
                }
                assert forall|i: int| 0 <= i < pairs.len() implies {
                    let k = (#[trigger] pairs[i]).0;
                    (managed.contains(k) || !holds_key(entries_of(custom), k)) == (keys.contains(k)
                        || !holds_key(entries_of(custom1), k))
                } by {
                    let k = pairs[i].0;
                    if managed.contains(k) || !holds_key(entries_of(custom), k) {
                        let j = choose|j: int| 0 <= j < free.len() && free[j] == pairs[i];
                        assert(keys[j] == k);
                    } else {
                        lemma_held_stays(root, pairs, managed, k);
                    }
                }
                lemma_free_same(entries_of(custom), entries_of(custom1), pairs, managed, keys);
                assert(free_pairs(applied, pairs, keys) == free);
                lemma_tokens_again(custom1, free);
                lemma_none_stale(custom1, keys, keys);
                lemma_same_child(theme2, "custom"@);
                lemma_same_child(applied, "theme"@);
                lemma_child_not_empty(theme2, "custom"@);
            },
            None => {
                lemma_theme_cleared_none(applied);
            },
        }
    }

    // the sidebar part
    lemma_planned_table(root, plan);
    assert(sidebar_step(applied, again, own2) == Ok::<(Node, Seq<Seq<char>>), Fault>(
        (applied, kinds),
    )) by {
        match plan.sidebar {
            Some(colours) => {
                lemma_sidebar_again(root1, colours, plan.managed_sidebar);
                lemma_ui_stays(root2, "theme"@, "custom"@, own);
                lemma_sidebar_reads_ui(root2, applied, colours, kinds);
            },
            None => {
                assert(kinds =~= seq![]);
                lemma_tidied_same(applied, "ui"@, "sidebar"@, own2.ui, own2.sidebar);
            },
        }
    }
    lemma_tidied_same(applied, "theme"@, "custom"@, own2.theme, own2.custom);

    // the notes
    if first.keys.len() > 0 {
        lemma_custom_stays(root, plan);
        lemma_child_not_empty(child(applied, "theme"@)->0, "custom"@);
    }
    if kinds.len() > 0 {
        let colours = plan.sidebar->0;
        lemma_sidebar_again(root1, colours, plan.managed_sidebar);
        lemma_ui_stays(root2, "theme"@, "custom"@, own);
        lemma_rows_there(applied, "agents"@);
        lemma_rows_there(applied, "spaces"@);
    }
    assert(own2.within(first.keys.len() > 0, kinds.len() > 0) == first.own);
}

/// Where there are rows of a kind, no table on the way to them is empty.
proof fn lemma_rows_there(root: Node, kind: Seq<char>)
    ensures
        has_rows(root, kind) ==> {
            &&& child(root, "ui"@) is Some && !empty_table(child(root, "ui"@))
            &&& child2(root, "ui"@, "sidebar"@) is Some && !empty_table(
                child2(root, "ui"@, "sidebar"@),
            )
            &&& kind_table(root, kind) is Some && !empty_table(kind_table(root, kind))
        },
{
    if has_rows(root, kind) {
        let ui = child(root, "ui"@)->0;
        let sidebar = child(ui, "sidebar"@)->0;
        let table = child(sidebar, kind)->0;
        lemma_child_not_empty(ui, "sidebar"@);
        lemma_child_not_empty(sidebar, kind);
        lemma_child_not_empty(table, "rows"@);
    }
}

/// A plan with what its outcome says is managed.
pub open spec fn repeated(plan: PlanView, o: Outcome) -> PlanView {
    PlanView { previously_managed: o.keys, managed_sidebar: o.kinds, own: o.own, ..plan }
}

pub proof fn lemma_theme_cleared_none(root: Node)
    ensures
        theme_cleared(root, seq![]) == root,
{
    match (child(root, "theme"@), child2(root, "theme"@, "custom"@)) {
        (Some(theme), Some(custom)) => {
            lemma_same_child(theme, "custom"@);
            lemma_same_child(root, "theme"@);
        },
        _ => {},
    }
}

pub proof fn lemma_theme_step_kind(root: Node, plan: PlanView)
    requires
        root is Table,
        theme_step(root, plan) is Ok,
    ensures
        theme_step(root, plan)->Ok_0 is Table,
{
    match plan.theme {
        Some(pairs) => {
            lemma_theme_applied(root, pairs, plan.previously_managed);
        },
        None => {},
    }
}

pub proof fn lemma_planned_table(root: Node, plan: PlanView)
    requires
        root is Table,
        planned(root, plan) is Ok,
    ensures
        theme_step(root, plan)->Ok_0 is Table,
        sidebar_step(
            theme_step(root, plan)->Ok_0,
            plan,
            own_after(root, plan),
        )->Ok_0.0 is Table,
        planned(root, plan)->Ok_0.root is Table,
{
    lemma_kind_names();
    lemma_theme_step_kind(root, plan);
    let root1 = theme_step(root, plan)->Ok_0;
    match plan.sidebar {
        Some(colours) => {
            lemma_sidebar_keeps(root1, colours, plan.managed_sidebar, "theme"@);
        },
        None => {
            lemma_cleared_keeps(root1, plan.managed_sidebar, own_after(root, plan), "theme"@);
        },
    }
}

/// Tidying one table leaves what stands under another key of the root.
pub proof fn lemma_ui_stays(x: Node, a: Seq<char>, b: Seq<char>, own: Own)
    requires
        x is Table,
        a == "theme"@,
    ensures
        child(tidied(x, a, b, own.theme, own.custom), "ui"@) == child(x, "ui"@),
{
    lemma_kind_names();
    match child(x, a) {
        Some(outer) => {
            lemma_sets_other(x, a, None, "ui"@);
            lemma_sets_other(x, a, Some(outer), "ui"@);
            lemma_sets_other(x, a, Some(without(outer, b)), "ui"@);
        },
        None => {},
    }
}

/// Writing the same rows again changes nothing.
pub proof fn lemma_sidebar_again(
    root: Node,
    pairs: Seq<(Seq<char>, Seq<char>)>,
    managed: Seq<Seq<char>>,
)
    requires
        root is Table,
        sidebar_applied(root, pairs, managed) is Ok,
    ensures
        ({
            let (root2, kinds) = sidebar_applied(root, pairs, managed)->Ok_0;
            &&& root2 is Table
            &&& kinds.contains("agents"@) ==> rows_stand(
                root2,
                "agents"@,
                rows_node(pairs, "agents"@),
            )
            &&& kinds.contains("spaces"@) ==> rows_stand(
                root2,
                "spaces"@,
                rows_node(pairs, "spaces"@),
            )
            &&& !kinds.contains("agents"@) ==> has_rows(root2, "agents"@)
            &&& !kinds.contains("spaces"@) ==> has_rows(root2, "spaces"@)
            &&& sidebar_applied(root2, pairs, kinds) == sidebar_applied(root, pairs, managed)
        }),
{
    lemma_kind_names();
    let a = "agents"@;
    let b = "spaces"@;
    let ma = rows_node(pairs, a);
    let (root2, kinds) = sidebar_applied(root, pairs, managed)->Ok_0;
    lemma_kind_stands(root, pairs, a, managed, b, ma);
    let root1 = kind_applied(root, pairs, a, managed)->Ok_0;
    lemma_kind_stands(root1, pairs, b, managed, a, ma);
    lemma_kind_applied(root, pairs, a, managed);
    lemma_kind_applied(root1, pairs, b, managed);
    let wa = !user_rows(root, a, managed);
    let wb = !user_rows(root1, b, managed);
    let none = Seq::<Seq<char>>::empty();
    assert(kinds == if wa && wb {
        none.push(a).push(b)
    } else if wa {
        none.push(a)
    } else if wb {
        none.push(b)
    } else {
        none
    });
    assert(kinds.contains(a) == wa && kinds.contains(b) == wb) by {
        if wa {
            assert(kinds[0] == a);
        }
        if wb {
            assert(kinds[kinds.len() - 1] == b);
        }
    }
    if wa {
        lemma_rows_again(root2, a, ma);
    }
    if wb {
        lemma_rows_again(root2, b, rows_node(pairs, b));
    }
}

/// What writing rows does on a root depends on what stands under `ui`.
proof fn lemma_sidebar_reads_ui(
    root: Node,
    x: Node,
    pairs: Seq<(Seq<char>, Seq<char>)>,
    kinds: Seq<Seq<char>>,
)
    requires
        root is Table,
        x is Table,
        child(x, "ui"@) == child(root, "ui"@),
        kinds.contains("agents"@) ==> rows_stand(root, "agents"@, rows_node(pairs, "agents"@)),
        kinds.contains("spaces"@) ==> rows_stand(root, "spaces"@, rows_node(pairs, "spaces"@)),
        !kinds.contains("agents"@) ==> has_rows(root, "agents"@),
        !kinds.contains("spaces"@) ==> has_rows(root, "spaces"@),
        sidebar_applied(root, pairs, kinds) == Ok::<(Node, Seq<Seq<char>>), Fault>((root, kinds)),
    ensures
        sidebar_applied(x, pairs, kinds) == Ok::<(Node, Seq<Seq<char>>), Fault>((x, kinds)),
{
    if kinds.contains("agents"@) {
        lemma_rows_again(x, "agents"@, rows_node(pairs, "agents"@));
        lemma_rows_again(root, "agents"@, rows_node(pairs, "agents"@));
    }
    if kinds.contains("spaces"@) {
        lemma_rows_again(x, "spaces"@, rows_node(pairs, "spaces"@));
        lemma_rows_again(root, "spaces"@, rows_node(pairs, "spaces"@));
    }
}

/// After an edit that sets tokens, each key that is then managed stands in
/// `theme.custom` with its colour.
pub proof fn law_tokens_are_set(root: Node, plan: PlanView, i: int)
    requires
        root is Table,
        plan.theme is Some,
        token_keys(plan.theme->0).no_duplicates(),
        planned(root, plan) is Ok,
        0 <= i < planned(root, plan)->Ok_0.keys.len(),
    ensures
        ({
            let custom = child2(planned(root, plan)->Ok_0.root, "theme"@, "custom"@);
            let pair = free_pairs(root, plan.theme->0, plan.previously_managed)[i];
            &&& plan.theme->0.contains(pair)
            &&& pair.0 == planned(root, plan)->Ok_0.keys[i]
            &&& custom is Some
            &&& child(custom->0, pair.0) == Some(string_node(pair.1))
        }),
{
    let pairs = plan.theme->0;
    let managed = plan.previously_managed;
    let custom = base(base(root, "theme"@, true), "custom"@, false);
    let free = free_pairs(root, pairs, managed);
    lemma_free_pairs(root, pairs, managed);
    lemma_free(entries_of(custom), pairs, managed);
    lemma_free_once(entries_of(custom), pairs, managed);
    assert(pairs.contains(free[i]));
    lemma_custom_stays(root, plan);
    lemma_theme_applied(root, pairs, managed);
    lemma_stale_kind(custom, managed, token_keys(free));
    let kept = without_stale(custom, managed, token_keys(free));
    lemma_tokens_stand(kept, free, i);
}

/// Every token of a palette that the user does not hold is managed after the edit
/// that sets it.
pub proof fn law_free_tokens_are_managed(root: Node, plan: PlanView, i: int)
    requires
        plan.theme is Some,
        planned(root, plan) is Ok,
        0 <= i < plan.theme->0.len(),
    ensures
        ({
            let key = plan.theme->0[i].0;
            let held = match child2(root, "theme"@, "custom"@) {
                Some(custom) => child(custom, key) is Some,
                None => false,
            };
            planned(root, plan)->Ok_0.keys.contains(key) <==> (
            plan.previously_managed.contains(key) || !held)
        }),
{
    let pairs = plan.theme->0;
    let managed = plan.previously_managed;
    let key = pairs[i].0;
    let free = free_pairs(root, pairs, managed);
    let e = match child2(root, "theme"@, "custom"@) {
        Some(custom) => entries_of(custom),
        None => seq![],
    };
    lemma_index_of(e, key);
    lemma_free(e, pairs, managed);
    if free.contains(pairs[i]) {
        let j = choose|j: int| 0 <= j < free.len() && free[j] == pairs[i];
        assert(token_keys(free)[j] == key);
    }
    if token_keys(free).contains(key) {
        let j = choose|j: int| 0 <= j < free.len() && token_keys(free)[j] == key;
        assert(free[j].0 == key);
    }
}

} // verus!
