//! The edits of Herdr's configuration on a document that was written and read
//! again: they depend on what it holds, not on how it is laid out.
//!
//! The root of the document is taken with the user's own values in their places,
//! before any of them gives way to a palette; `plan_series` has whole documents.
use crate::own::Own;
use crate::plan::{
    child2, empty_table, ensured, free_pairs, lemma_child_put, own_after, planned, sidebar_step,
    theme_step, tidied, token_keys, with_tokens, without_stale, Fault, PlanView,
};
use crate::plan_laws::{
    law_apply_is_idempotent, lemma_free_same, lemma_planned_table, lemma_theme_step_kind, repeated,
};
use crate::sidebar::{kind_applied, kind_cleared, kinds_cleared, rows_node, rows_put, user_rows};
use crate::toml::{
    child, entries_of, fitted, fresh_table, holds_key, index_of, lemma_index_of, put, string_node,
    table_like, toml_parse, toml_text, with_child, with_entries, without, Body, Document, Entry,
    Node,
};
use vstd::prelude::*;

verus! {

/// The contents of a table, without its layout.
pub open spec fn bare_entries(e: Seq<Entry>) -> Seq<Entry>
    decreases e,
{
    Seq::new(
        e.len(),
        |i: int|
            if 0 <= i < e.len() {
                Entry { key: e[i].key, key_style: 0, node: bare(e[i].node) }
            } else {
                Entry { key: seq![], key_style: 0, node: fresh_table(false) }
            },
    )
}

/// The contents of a node, without its layout.
pub open spec fn bare(n: Node) -> Node
    decreases n,
{
    match n {
        Node::Table(b) => Node::Table(
            Body { implicit: false, style: 0, entries: bare_entries(b.entries) },
        ),
        Node::Inline(b) => Node::Inline(
            Body { implicit: false, style: 0, entries: bare_entries(b.entries) },
        ),
        Node::Tables(t) => Node::Tables(
            Seq::new(
                t.len(),
                |i: int|
                    if 0 <= i < t.len() {
                        Body { implicit: false, style: 0, entries: bare_entries(t[i].entries) }
                    } else {
                        Body { implicit: false, style: 0, entries: seq![] }
                    },
            ),
        ),
        Node::Array(items, _) => Node::Array(
            Seq::new(
                items.len(),
                |i: int|
                    if 0 <= i < items.len() {
                        bare(items[i])
                    } else {
                        fresh_table(false)
                    },
            ),
            0,
        ),
        Node::Value(v, _) => Node::Value(v, 0),
    }
}

/// Whether two nodes hold the same, in the same order.
pub open spec fn alike(n: Node, m: Node) -> bool {
    bare(n) == bare(m)
}

/// Whether two optional nodes are both absent, or both there and alike.
pub open spec fn alike_opt(o: Option<Node>, p: Option<Node>) -> bool {
    match (o, p) {
        (Some(n), Some(m)) => alike(n, m),
        (None, None) => true,
        _ => false,
    }
}

/// Whether two lists of entries have the same keys and hold the same.
spec fn alike_entries(e: Seq<Entry>, f: Seq<Entry>) -> bool {
    &&& e.len() == f.len()
    &&& forall|i: int| 0 <= i < e.len() ==> (#[trigger] e[i]).key == f[i].key
    &&& forall|i: int| 0 <= i < e.len() ==> alike((#[trigger] e[i]).node, f[i].node)
}

proof fn lemma_alike_parts(n: Node, m: Node)
    requires
        alike(n, m),
    ensures
        n is Table <==> m is Table,
        n is Inline <==> m is Inline,
        alike_entries(entries_of(n), entries_of(m)),
{
    if table_like(n) {
        let e = entries_of(n);
        let f = entries_of(m);
        assert(bare_entries(e) == bare_entries(f));
        assert(bare_entries(e).len() == bare_entries(f).len());
        assert forall|i: int| 0 <= i < e.len() implies (#[trigger] e[i]).key == f[i].key && alike(
            e[i].node,
            f[i].node,
        ) by {
            assert(bare_entries(e)[i] == bare_entries(f)[i]);
        }
    }
}

proof fn lemma_alike_with(n: Node, m: Node, e: Seq<Entry>, f: Seq<Entry>)
    requires
        alike(n, m),
        alike_entries(e, f),
    ensures
        alike(with_entries(n, e), with_entries(m, f)),
{
    lemma_alike_parts(n, m);
    if table_like(n) {
        assert forall|i: int| 0 <= i < e.len() implies bare_entries(e)[i] == bare_entries(f)[i] by {
            assert(e[i].key == f[i].key);
            assert(alike(e[i].node, f[i].node));
        }
        assert(bare_entries(e) =~= bare_entries(f));
    }
}

proof fn lemma_alike_index(e: Seq<Entry>, f: Seq<Entry>, key: Seq<char>)
    requires
        alike_entries(e, f),
    ensures
        index_of(e, key) == index_of(f, key),
    decreases e.len(),
{
    if e.len() > 0 && e[0].key != key {
        let a = e.skip(1);
        let b = f.skip(1);
        assert forall|i: int| 0 <= i < a.len() implies (#[trigger] a[i]).key == b[i].key && alike(
            a[i].node,
            b[i].node,
        ) by {
            assert(e[i + 1].key == f[i + 1].key);
            assert(alike(e[i + 1].node, f[i + 1].node));
        }
        lemma_alike_index(a, b, key);
    }
}

proof fn lemma_alike_child(n: Node, m: Node, key: Seq<char>)
    requires
        alike(n, m),
    ensures
        alike_opt(child(n, key), child(m, key)),
        holds_key(entries_of(n), key) == holds_key(entries_of(m), key),
        n is Table <==> m is Table,
        n is Inline <==> m is Inline,
        entries_of(n).len() == entries_of(m).len(),
{
    lemma_alike_parts(n, m);
    lemma_alike_index(entries_of(n), entries_of(m), key);
    lemma_index_of(entries_of(n), key);
}

proof fn lemma_alike_with_child(n: Node, m: Node, key: Seq<char>, x: Node, y: Node)
    requires
        alike(n, m),
        alike(x, y),
        child(n, key) is Some,
    ensures
        alike(with_child(n, key, x), with_child(m, key, y)),
{
    lemma_alike_child(n, m, key);
    lemma_alike_parts(n, m);
    let e = entries_of(n);
    let f = entries_of(m);
    lemma_alike_index(e, f, key);
    lemma_index_of(e, key);
    let i = index_of(e, key);
    let e1 = e.update(i, Entry { node: x, ..e[i] });
    let f1 = f.update(i, Entry { node: y, ..f[i] });
    assert forall|j: int| 0 <= j < e1.len() implies (#[trigger] e1[j]).key == f1[j].key && alike(
        e1[j].node,
        f1[j].node,
    ) by {
        assert(e[j].key == f[j].key);
        assert(alike(e[j].node, f[j].node));
    }
    lemma_alike_with(n, m, e1, f1);
}

proof fn lemma_alike_without(n: Node, m: Node, key: Seq<char>)
    requires
        alike(n, m),
    ensures
        alike(without(n, key), without(m, key)),
{
    lemma_alike_parts(n, m);
    let e = entries_of(n);
    let f = entries_of(m);
    lemma_alike_index(e, f, key);
    lemma_index_of(e, key);
    let i = index_of(e, key);
    if holds_key(e, key) {
        let e1 = e.remove(i);
        let f1 = f.remove(i);
        assert forall|j: int| 0 <= j < e1.len() implies (#[trigger] e1[j]).key == f1[j].key
            && alike(e1[j].node, f1[j].node) by {
            let k = if j < i {
                j
            } else {
                j + 1
            };
            assert(e1[j] == e[k] && f1[j] == f[k]);
            assert(e[k].key == f[k].key);
            assert(alike(e[k].node, f[k].node));
        }
        lemma_alike_with(n, m, e1, f1);
    } else {
        lemma_alike_with(n, m, e, f);
    }
}

proof fn lemma_alike_put(n: Node, m: Node, key: Seq<char>, x: Node)
    requires
        alike(n, m),
    ensures
        alike(put(n, key, x), put(m, key, x)),
{
    lemma_alike_parts(n, m);
    let e = entries_of(n);
    let f = entries_of(m);
    lemma_alike_index(e, f, key);
    lemma_index_of(e, key);
    assert(fitted(n, x) == fitted(m, x));
    let e1 = crate::toml::put_entry(e, key, fitted(n, x));
    let f1 = crate::toml::put_entry(f, key, fitted(m, x));
    assert forall|j: int| 0 <= j < e1.len() implies (#[trigger] e1[j]).key == f1[j].key && alike(
        e1[j].node,
        f1[j].node,
    ) by {
        if j < e.len() {
            assert(e[j].key == f[j].key);
            assert(alike(e[j].node, f[j].node));
        }
    }
    lemma_alike_with(n, m, e1, f1);
}

proof fn lemma_alike_ensured(n: Node, m: Node, key: Seq<char>, implicit: bool)
    requires
        alike(n, m),
        table_like(n),
    ensures
        alike(ensured(n, key, implicit), ensured(m, key, implicit)),
        child(ensured(n, key, implicit), key) is Some,
        alike_opt(
            child(ensured(n, key, implicit), key),
            child(ensured(m, key, implicit), key),
        ),
        n is Table ==> ensured(n, key, implicit) is Table,
{
    lemma_alike_child(n, m, key);
    lemma_alike_put(n, m, key, fresh_table(implicit));
    lemma_child_put(n, key, fresh_table(implicit));
    lemma_alike_child(ensured(n, key, implicit), ensured(m, key, implicit), key);
}

proof fn lemma_alike_tokens(n: Node, m: Node, pairs: Seq<(Seq<char>, Seq<char>)>)
    requires
        alike(n, m),
    ensures
        alike(with_tokens(n, pairs), with_tokens(m, pairs)),
    decreases pairs.len(),
{
    if pairs.len() > 0 {
        lemma_alike_tokens(n, m, pairs.drop_last());
        lemma_alike_put(
            with_tokens(n, pairs.drop_last()),
            with_tokens(m, pairs.drop_last()),
            pairs.last().0,
            string_node(pairs.last().1),
        );
    }
}

proof fn lemma_alike_stale(n: Node, m: Node, keys: Seq<Seq<char>>, keep: Seq<Seq<char>>)
    requires
        alike(n, m),
    ensures
        alike(without_stale(n, keys, keep), without_stale(m, keys, keep)),
    decreases keys.len(),
{
    if keys.len() > 0 {
        lemma_alike_stale(n, m, keys.drop_last(), keep);
        lemma_alike_without(
            without_stale(n, keys.drop_last(), keep),
            without_stale(m, keys.drop_last(), keep),
            keys.last(),
        );
    }
}

/// Whether two results are the same fault, or both roots that are alike.
spec fn alike_result(r: Result<Node, Fault>, s: Result<Node, Fault>) -> bool {
    match (r, s) {
        (Ok(n), Ok(m)) => alike(n, m),
        (Err(f), Err(g)) => f == g,
        _ => false,
    }
}

/// Which tokens may be set depends on what a document holds.
proof fn lemma_alike_free(
    n: Node,
    m: Node,
    pairs: Seq<(Seq<char>, Seq<char>)>,
    managed: Seq<Seq<char>>,
)
    requires
        alike(n, m),
    ensures
        free_pairs(n, pairs, managed) == free_pairs(m, pairs, managed),
{
    lemma_alike_child2(n, m, "theme"@, "custom"@);
    match (child2(n, "theme"@, "custom"@), child2(m, "theme"@, "custom"@)) {
        (Some(x), Some(y)) => {
            assert forall|i: int| 0 <= i < pairs.len() implies {
                let k = (#[trigger] pairs[i]).0;
                (managed.contains(k) || !holds_key(entries_of(x), k)) == (managed.contains(k)
                    || !holds_key(entries_of(y), k))
            } by {
                lemma_alike_child(x, y, pairs[i].0);
            }
            lemma_free_same(entries_of(x), entries_of(y), pairs, managed, managed);
        },
        _ => {},
    }
}

/// Which tables are the user's depends on what a document holds.
proof fn lemma_alike_own(n: Node, m: Node, plan: PlanView)
    requires
        alike(n, m),
    ensures
        own_after(n, plan) == own_after(m, plan),
{
    lemma_alike_child2(n, m, "theme"@, "custom"@);
    lemma_alike_child2(n, m, "ui"@, "sidebar"@);
    match (child2(n, "ui"@, "sidebar"@), child2(m, "ui"@, "sidebar"@)) {
        (Some(x), Some(y)) => {
            lemma_alike_child2(x, y, "agents"@, "rows"@);
            lemma_alike_child2(x, y, "spaces"@, "rows"@);
        },
        _ => {},
    }
}

proof fn lemma_alike_theme(n: Node, m: Node, plan: PlanView)
    requires
        alike(n, m),
        n is Table,
    ensures
        alike_result(theme_step(n, plan), theme_step(m, plan)),
{
    lemma_alike_child(n, m, "theme"@);
    match plan.theme {
        Some(pairs) => {
            let managed = plan.previously_managed;
            lemma_alike_ensured(n, m, "theme"@, true);
            let n1 = ensured(n, "theme"@, true);
            let m1 = ensured(m, "theme"@, true);
            let tn = child(n1, "theme"@)->0;
            let tm = child(m1, "theme"@)->0;
            lemma_alike_child(tn, tm, "custom"@);
            if table_like(tn) {
                lemma_alike_ensured(tn, tm, "custom"@, false);
                let tn1 = ensured(tn, "custom"@, false);
                let tm1 = ensured(tm, "custom"@, false);
                let cn = child(tn1, "custom"@)->0;
                let cm = child(tm1, "custom"@)->0;
                lemma_alike_child(cn, cm, "custom"@);
                let free = free_pairs(n, pairs, managed);
                let keys = token_keys(free);
                lemma_alike_free(n, m, pairs, managed);
                lemma_alike_stale(cn, cm, managed, keys);
                lemma_alike_tokens(
                    without_stale(cn, managed, keys),
                    without_stale(cm, managed, keys),
                    free,
                );
                let cn1 = with_tokens(without_stale(cn, managed, keys), free);
                let cm1 = with_tokens(without_stale(cm, managed, keys), free);
                lemma_alike_with_child(tn1, tm1, "custom"@, cn1, cm1);
                lemma_alike_with_child(
                    n1,
                    m1,
                    "theme"@,
                    with_child(tn1, "custom"@, cn1),
                    with_child(tm1, "custom"@, cm1),
                );
            }
        },
        None => {
            match (child(n, "theme"@), child(m, "theme"@)) {
                (Some(tn), Some(tm)) => {
                    lemma_alike_child(tn, tm, "custom"@);
                    match (child(tn, "custom"@), child(tm, "custom"@)) {
                        (Some(cn), Some(cm)) => {
                            lemma_alike_child(cn, cm, "custom"@);
                            let none = Seq::<Seq<char>>::empty();
                            let cn1 = without_stale(cn, plan.previously_managed, none);
                            let cm1 = without_stale(cm, plan.previously_managed, none);
                            lemma_alike_stale(cn, cm, plan.previously_managed, none);
                            lemma_alike_with_child(tn, tm, "custom"@, cn1, cm1);
                            lemma_alike_with_child(
                                n,
                                m,
                                "theme"@,
                                with_child(tn, "custom"@, cn1),
                                with_child(tm, "custom"@, cm1),
                            );
                        },
                        _ => {},
                    }
                },
                _ => {},
            }
        },
    }
}

proof fn lemma_alike_child2(n: Node, m: Node, a: Seq<char>, b: Seq<char>)
    requires
        alike(n, m),
    ensures
        alike_opt(child(n, a), child(m, a)),
        alike_opt(child2(n, a, b), child2(m, a, b)),
        empty_table(child(n, a)) == empty_table(child(m, a)),
        empty_table(child2(n, a, b)) == empty_table(child2(m, a, b)),
{
    lemma_alike_child(n, m, a);
    match (child(n, a), child(m, a)) {
        (Some(x), Some(y)) => {
            lemma_alike_child(x, y, b);
            match (child(x, b), child(y, b)) {
                (Some(v), Some(w)) => {
                    lemma_alike_child(v, w, b);
                },
                _ => {},
            }
        },
        _ => {},
    }
}

proof fn lemma_alike_tidied(n: Node, m: Node, a: Seq<char>, b: Seq<char>, fa: bool, fb: bool)
    requires
        alike(n, m),
    ensures
        alike(tidied(n, a, b, fa, fb), tidied(m, a, b, fa, fb)),
{
    lemma_alike_child2(n, m, a, b);
    match (child(n, a), child(m, a)) {
        (Some(x), Some(y)) => {
            lemma_alike_child(x, y, b);
            lemma_alike_without(x, y, b);
            lemma_alike_child(without(x, b), without(y, b), b);
            lemma_alike_without(n, m, a);
            lemma_alike_with_child(n, m, a, x, y);
            lemma_alike_with_child(n, m, a, without(x, b), without(y, b));
        },
        _ => {},
    }
}

proof fn lemma_alike_rows(n: Node, m: Node, kind: Seq<char>, rows: Node)
    requires
        alike(n, m),
        n is Table,
    ensures
        alike_result(rows_put(n, kind, rows), rows_put(m, kind, rows)),
        rows_put(n, kind, rows) is Ok ==> rows_put(n, kind, rows)->Ok_0 is Table,
{
    lemma_alike_ensured(n, m, "ui"@, true);
    let n1 = ensured(n, "ui"@, true);
    let m1 = ensured(m, "ui"@, true);
    let un = child(n1, "ui"@)->0;
    let um = child(m1, "ui"@)->0;
    lemma_alike_child(un, um, "sidebar"@);
    if un is Table {
        lemma_alike_ensured(un, um, "sidebar"@, true);
        let un1 = ensured(un, "sidebar"@, true);
        let um1 = ensured(um, "sidebar"@, true);
        let sn = child(un1, "sidebar"@)->0;
        let sm = child(um1, "sidebar"@)->0;
        lemma_alike_child(sn, sm, kind);
        if sn is Table {
            lemma_alike_ensured(sn, sm, kind, false);
            let sn1 = ensured(sn, kind, false);
            let sm1 = ensured(sm, kind, false);
            let tn = child(sn1, kind)->0;
            let tm = child(sm1, kind)->0;
            lemma_alike_child(tn, tm, "rows"@);
            if tn is Table {
                lemma_alike_put(tn, tm, "rows"@, rows);
                let x = put(tn, "rows"@, rows);
                let y = put(tm, "rows"@, rows);
                lemma_alike_with_child(sn1, sm1, kind, x, y);
                lemma_alike_with_child(
                    un1,
                    um1,
                    "sidebar"@,
                    with_child(sn1, kind, x),
                    with_child(sm1, kind, y),
                );
                lemma_alike_with_child(
                    n1,
                    m1,
                    "ui"@,
                    with_child(un1, "sidebar"@, with_child(sn1, kind, x)),
                    with_child(um1, "sidebar"@, with_child(sm1, kind, y)),
                );
            }
        }
    }
}

proof fn lemma_alike_kind(
    n: Node,
    m: Node,
    pairs: Seq<(Seq<char>, Seq<char>)>,
    kind: Seq<char>,
    managed: Seq<Seq<char>>,
)
    requires
        alike(n, m),
        n is Table,
    ensures
        alike_result(
            kind_applied(n, pairs, kind, managed),
            kind_applied(m, pairs, kind, managed),
        ),
        user_rows(n, kind, managed) == user_rows(m, kind, managed),
        kind_applied(n, pairs, kind, managed) is Ok ==> kind_applied(
            n,
            pairs,
            kind,
            managed,
        )->Ok_0 is Table,
{
    lemma_alike_child2(n, m, "ui"@, "sidebar"@);
    match (child2(n, "ui"@, "sidebar"@), child2(m, "ui"@, "sidebar"@)) {
        (Some(x), Some(y)) => {
            lemma_alike_child2(x, y, kind, "rows"@);
        },
        _ => {},
    }
    lemma_alike_rows(n, m, kind, rows_node(pairs, kind));
}

proof fn lemma_alike_cleared(n: Node, m: Node, kind: Seq<char>, own: Own)
    requires
        alike(n, m),
    ensures
        alike(kind_cleared(n, kind, own), kind_cleared(m, kind, own)),
{
    lemma_alike_child(n, m, "ui"@);
    if child(n, "ui"@) is Some {
        let un = child(n, "ui"@)->0;
        let um = child(m, "ui"@)->0;
        lemma_alike_child(un, um, "sidebar"@);
        if child(un, "sidebar"@) is Some {
            let sn = child(un, "sidebar"@)->0;
            let sm = child(um, "sidebar"@)->0;
            lemma_alike_child(sn, sm, kind);
            if child(sn, kind) is Some {
                let tn = child(sn, kind)->0;
                let tm = child(sm, kind)->0;
                lemma_alike_child(tn, tm, "rows"@);
                lemma_alike_without(tn, tm, "rows"@);
                let tn1 = without(tn, "rows"@);
                let tm1 = without(tm, "rows"@);
                lemma_alike_child(tn1, tm1, "rows"@);
                lemma_alike_without(sn, sm, kind);
                lemma_alike_with_child(sn, sm, kind, tn1, tm1);
                let drops = entries_of(tn1).len() == 0 && entries_of(tn).len() > 0 && !own.kind(kind);
                let sn1 = if drops {
                    without(sn, kind)
                } else {
                    with_child(sn, kind, tn1)
                };
                let sm1 = if drops {
                    without(sm, kind)
                } else {
                    with_child(sm, kind, tm1)
                };
                lemma_alike_with_child(un, um, "sidebar"@, sn1, sm1);
                lemma_alike_with_child(
                    n,
                    m,
                    "ui"@,
                    with_child(un, "sidebar"@, sn1),
                    with_child(um, "sidebar"@, sm1),
                );
            }
        }
    }
}

proof fn lemma_alike_kinds_cleared(n: Node, m: Node, kinds: Seq<Seq<char>>, own: Own)
    requires
        alike(n, m),
    ensures
        alike(kinds_cleared(n, kinds, own), kinds_cleared(m, kinds, own)),
    decreases kinds.len(),
{
    if kinds.len() > 0 {
        lemma_alike_kinds_cleared(n, m, kinds.drop_last(), own);
        lemma_alike_cleared(
            kinds_cleared(n, kinds.drop_last(), own),
            kinds_cleared(m, kinds.drop_last(), own),
            kinds.last(),
            own,
        );
    }
}

/// An edit depends on what a document holds, not on how it is laid out: on two
/// that hold the same it comes to the same, or fails in the same way.
pub proof fn law_edits_follow_contents(n: Node, m: Node, plan: PlanView)
    requires
        n is Table,
        alike(n, m),
    ensures
        match (planned(n, plan), planned(m, plan)) {
            (Ok(x), Ok(y)) => alike(x.root, y.root) && x.keys == y.keys && x.kinds == y.kinds
                && x.own == y.own,
            (Err(f), Err(g)) => f == g,
            _ => false,
        },
{
    let own = own_after(n, plan);
    lemma_alike_theme(n, m, plan);
    lemma_alike_own(n, m, plan);
    lemma_alike_parts(n, m);
    match plan.theme {
        Some(pairs) => {
            lemma_alike_free(n, m, pairs, plan.previously_managed);
        },
        None => {},
    }
    if theme_step(n, plan) is Ok {
        let n1 = theme_step(n, plan)->Ok_0;
        let m1 = theme_step(m, plan)->Ok_0;
        lemma_theme_step_kind(n, plan);
        match plan.sidebar {
            Some(pairs) => {
                let managed = plan.managed_sidebar;
                lemma_alike_kind(n1, m1, pairs, "agents"@, managed);
                if kind_applied(n1, pairs, "agents"@, managed) is Ok {
                    lemma_alike_kind(
                        kind_applied(n1, pairs, "agents"@, managed)->Ok_0,
                        kind_applied(m1, pairs, "agents"@, managed)->Ok_0,
                        pairs,
                        "spaces"@,
                        managed,
                    );
                }
            },
            None => {
                let kinds = plan.managed_sidebar;
                lemma_alike_kinds_cleared(n1, m1, kinds, own);
                lemma_alike_tidied(
                    kinds_cleared(n1, kinds, own),
                    kinds_cleared(m1, kinds, own),
                    "ui"@,
                    "sidebar"@,
                    own.ui,
                    own.sidebar,
                );
            },
        }
        if sidebar_step(n1, plan, own) is Ok {
            lemma_alike_tidied(
                sidebar_step(n1, plan, own)->Ok_0.0,
                sidebar_step(m1, plan, own)->Ok_0.0,
                "theme"@,
                "custom"@,
                own.theme,
                own.custom,
            );
        }
    }
}

/// Repeating an edit changes nothing in the file either: where the text that it
/// wrote reads as what was written, carrying it out again gives a document that
/// holds the same, and the same is managed.
pub proof fn law_apply_is_idempotent_in_the_file(doc: Document, plan: PlanView)
    requires
        doc.root is Table,
        plan.theme is Some ==> plan.theme->0.len() > 0 && token_keys(
            plan.theme->0,
        ).no_duplicates(),
        planned(doc.root, plan) is Ok,
    ensures
        ({
            let first = planned(doc.root, plan)->Ok_0;
            match toml_parse(toml_text(Document { root: first.root, ..doc })) {
                Ok(again) if alike(first.root, again.root) => match planned(
                    again.root,
                    repeated(plan, first),
                ) {
                    Ok(second) => alike(first.root, second.root) && second.keys == first.keys
                        && second.kinds == first.kinds,
                    Err(_) => false,
                },
                _ => true,
            }
        }),
{
    let first = planned(doc.root, plan)->Ok_0;
    law_apply_is_idempotent(doc.root, plan);
    lemma_planned_table(doc.root, plan);
    match toml_parse(toml_text(Document { root: first.root, ..doc })) {
        Ok(again) => {
            if alike(first.root, again.root) {
                law_edits_follow_contents(first.root, again.root, repeated(plan, first));
            }
        },
        Err(_) => {},
    }
}

} // verus!
