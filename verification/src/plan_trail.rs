//! Any number of edits of Herdr's configuration, one after the other, and back.
//!
//! The root of the document is taken with the user's own values in their places,
//! before any of them gives way to a palette; `plan_series` has whole documents.
use crate::aside::custom_entries;
use crate::own::Own;
use crate::plan::{
    child2, clearing, free_of, free_pairs, kind_table, lemma_child_put, own_after, planned,
    sidebar_step, theme_applied, theme_step, tidied, token_keys, with_tokens, without_stale,
    Outcome, PlanView,
};
use crate::plan_laws::{
    base, kind_with_rows, lemma_child_not_empty, lemma_free, lemma_free_pairs, lemma_free_same,
    lemma_index_append, lemma_index_push, lemma_index_remove, lemma_index_update,
    lemma_kind_applied, lemma_kind_names, lemma_put_is_sets, lemma_sets_child, lemma_sets_commute,
    lemma_sets_kind, lemma_sets_other, lemma_sets_same, lemma_sets_twice, lemma_theme_applied,
    lemma_theme_cleared_none, lemma_tidied_same, none_of, sets, sidebar_of, with_sidebar,
};
use crate::plan_read::{alike, law_edits_follow_contents};
use crate::plan_undo::{
    around, dressed, inner_back, kind_dressed, kinds_back, law_clear_leaves_the_users,
    lemma_around_theme, lemma_around_theme_back, lemma_around_ui, lemma_outer_base, lemma_own_kind,
    lemma_sidebar_undone, lemma_theme_undone, lemma_tidied_back, outer_back, rightly_noted, tells,
    theme_dressed, theme_noted, ui_dressed, ui_noted,
};
use crate::sidebar::{has_rows, kind_applied, rows_node, sidebar_applied, user_rows};
use crate::toml::{
    child, cut_entry, entries_of, entry, holds_key, index_of, lemma_index_is, lemma_index_of, put,
    put_entry, string_node, table_like, unique, unique_keys, with_entries, without, Entry, Node,
};
use vstd::prelude::*;

verus! {

/// One edit: the tokens to set, or none for the base theme, and the sidebar rows
/// to write, or none.
pub struct Edit {
    pub theme: Option<Seq<(Seq<char>, Seq<char>)>>,
    pub sidebar: Option<Seq<(Seq<char>, Seq<char>)>>,
}

/// What an edit says where a series of edits stands.
pub open spec fn next_plan(t: Outcome, edit: Edit) -> PlanView {
    PlanView {
        theme: edit.theme,
        previously_managed: t.keys,
        sidebar: edit.sidebar,
        managed_sidebar: t.kinds,
        own: t.own,
    }
}

/// A series of edits with one more. An edit that cannot be made changes nothing.
pub open spec fn followed_by(t: Outcome, edit: Edit) -> Outcome {
    match planned(t.root, next_plan(t, edit)) {
        Ok(o) => o,
        Err(_) => t,
    }
}

/// Where a series of edits stands that begins with nothing managed and nothing
/// noted.
pub open spec fn followed(root: Node, edits: Seq<Edit>) -> Outcome
    decreases edits.len(),
{
    if edits.len() == 0 {
        Outcome { root, keys: seq![], kinds: seq![], own: Own::none() }
    } else {
        followed_by(followed(root, edits.drop_last()), edits.last())
    }
}

// --- tokens after the user's own -------------------------------------------------

/// A table with entries after its own.
spec fn grown(c: Node, extra: Seq<Entry>) -> Node {
    with_entries(c, entries_of(c) + extra)
}

/// The keys of entries.
spec fn keys_in(e: Seq<Entry>) -> Set<Seq<char>> {
    Set::new(|k: Seq<char>| holds_key(e, k))
}

proof fn lemma_grown(c: Node, extra: Seq<Entry>, k: Seq<char>)
    requires
        table_like(c),
        !holds_key(entries_of(c), k),
    ensures
        entries_of(grown(c, extra)) == entries_of(c) + extra,
        table_like(grown(c, extra)),
        index_of(entries_of(c) + extra, k) == entries_of(c).len() + index_of(extra, k),
        holds_key(entries_of(c) + extra, k) == holds_key(extra, k),
{
    lemma_index_append(entries_of(c), extra, k);
    lemma_index_of(extra, k);
}

proof fn lemma_grown_without(c: Node, extra: Seq<Entry>, k: Seq<char>)
    requires
        table_like(c),
        !holds_key(entries_of(c), k),
    ensures
        without(grown(c, extra), k) == grown(c, cut_entry(extra, k)),
{
    lemma_grown(c, extra, k);
    let e = entries_of(c);
    lemma_index_of(extra, k);
    if holds_key(extra, k) {
        let i = index_of(extra, k);
        assert((e + extra).remove(e.len() + i) =~= e + extra.remove(i));
    }
}

proof fn lemma_grown_put(c: Node, extra: Seq<Entry>, k: Seq<char>, s: Seq<char>)
    requires
        table_like(c),
        !holds_key(entries_of(c), k),
    ensures
        put(grown(c, extra), k, string_node(s)) == grown(c, put_entry(extra, k, string_node(s))),
{
    lemma_grown(c, extra, k);
    let e = entries_of(c);
    lemma_index_of(extra, k);
    let x = entry(k, string_node(s));
    if holds_key(extra, k) {
        let i = index_of(extra, k);
        assert((e + extra).update(e.len() + i, x) =~= e + extra.update(i, x));
    } else {
        assert((e + extra).push(x) =~= e + extra.push(x));
    }
}

/// Entries without the keys that are managed and not kept.
spec fn staled(extra: Seq<Entry>, keys: Seq<Seq<char>>, keep: Seq<Seq<char>>) -> Seq<Entry>
    decreases keys.len(),
{
    if keys.len() == 0 {
        extra
    } else {
        let e = staled(extra, keys.drop_last(), keep);
        if keep.contains(keys.last()) {
            e
        } else {
            cut_entry(e, keys.last())
        }
    }
}

proof fn lemma_cut(e: Seq<Entry>, k: Seq<char>)
    requires
        unique(e),
    ensures
        unique(cut_entry(e, k)),
        keys_in(cut_entry(e, k)) == keys_in(e).remove(k),
{
    lemma_index_of(e, k);
    let f = cut_entry(e, k);
    if holds_key(e, k) {
        let i = index_of(e, k);
        assert forall|a: int, b: int| 0 <= a < b < f.len() implies (#[trigger] f[a]).key != (
        #[trigger] f[b]).key by {
            let c = if a < i {
                a
            } else {
                a + 1
            };
            let d = if b < i {
                b
            } else {
                b + 1
            };
            assert(f[a] == e[c] && f[b] == e[d]);
        }
        assert forall|x: Seq<char>| keys_in(f).contains(x) <==> keys_in(e).remove(k).contains(x) by {
            lemma_index_of(e, x);
            lemma_index_of(f, x);
            if x == k {
                if holds_key(f, k) {
                    let j = index_of(f, k);
                    let c = if j < i {
                        j
                    } else {
                        j + 1
                    };
                    assert(f[j] == e[c]);
                    assert(e[c].key == e[i].key);
                }
            } else {
                lemma_index_remove(e, i, x);
            }
        }
    } else {
        assert forall|x: Seq<char>| keys_in(f).contains(x) <==> keys_in(e).remove(k).contains(x) by {}
    }
    assert(keys_in(f) =~= keys_in(e).remove(k));
}

proof fn lemma_staled(
    c: Node,
    extra: Seq<Entry>,
    keys: Seq<Seq<char>>,
    keep: Seq<Seq<char>>,
)
    requires
        table_like(c),
        unique(extra),
        none_of(entries_of(c), keys),
    ensures
        without_stale(grown(c, extra), keys, keep) == grown(c, staled(extra, keys, keep)),
        unique(staled(extra, keys, keep)),
        forall|k: Seq<char>| #[trigger]
            keys_in(staled(extra, keys, keep)).contains(k) <==> keys_in(extra).contains(k) && (
            keep.contains(k) || !keys.contains(k)),
    decreases keys.len(),
{
    if keys.len() > 0 {
        let p = keys.drop_last();
        let last = keys.last();
        assert forall|i: int| 0 <= i < p.len() implies !holds_key(entries_of(c), #[trigger] p[i]) by {
            assert(p[i] == keys[i]);
        }
        lemma_staled(c, extra, p, keep);
        assert(keys[keys.len() - 1] == last);
        let e = staled(extra, p, keep);
        if !keep.contains(last) {
            lemma_grown_without(c, e, last);
            lemma_cut(e, last);
        }
        assert forall|k: Seq<char>| #[trigger]
            keys_in(staled(extra, keys, keep)).contains(k) <==> keys_in(extra).contains(k) && (
            keep.contains(k) || !keys.contains(k)) by {
            assert(keys.contains(k) <==> p.contains(k) || k == last) by {
                if keys.contains(k) {
                    let i = choose|i: int| 0 <= i < keys.len() && keys[i] == k;
                    if i < p.len() {
                        assert(p[i] == k);
                    }
                }
                if p.contains(k) {
                    let i = choose|i: int| 0 <= i < p.len() && p[i] == k;
                    assert(keys[i] == k);
                }
            }
            assert(keys_in(e).contains(k) <==> keys_in(extra).contains(k) && (keep.contains(k)
                || !p.contains(k)));
        }
    }
}

/// Entries with tokens set.
spec fn filled(extra: Seq<Entry>, pairs: Seq<(Seq<char>, Seq<char>)>) -> Seq<Entry>
    decreases pairs.len(),
{
    if pairs.len() == 0 {
        extra
    } else {
        put_entry(filled(extra, pairs.drop_last()), pairs.last().0, string_node(pairs.last().1))
    }
}

proof fn lemma_put_entry(e: Seq<Entry>, k: Seq<char>, m: Node)
    requires
        unique(e),
    ensures
        unique(put_entry(e, k, m)),
        keys_in(put_entry(e, k, m)) == keys_in(e).insert(k),
{
    lemma_index_of(e, k);
    let x = entry(k, m);
    let f = put_entry(e, k, m);
    if holds_key(e, k) {
        assert(f == e.update(index_of(e, k), x));
    } else {
        assert(f == e.push(x));
    }
    assert forall|z: Seq<char>| keys_in(f).contains(z) <==> keys_in(e).insert(k).contains(z) by {
        lemma_index_of(e, z);
        if holds_key(e, k) {
            lemma_index_update(e, index_of(e, k), x, z);
        } else {
            lemma_index_push(e, x, z);
        }
    }
    assert(keys_in(f) =~= keys_in(e).insert(k));
    assert(unique(f)) by {
        if !holds_key(e, k) {
            assert forall|a: int, b: int| 0 <= a < b < f.len() implies (#[trigger] f[a]).key != (
            #[trigger] f[b]).key by {
                if b == e.len() {
                    assert(e[a].key != k);
                }
            }
        }
    }
}

proof fn lemma_filled(c: Node, extra: Seq<Entry>, pairs: Seq<(Seq<char>, Seq<char>)>)
    requires
        table_like(c),
        unique(extra),
        none_of(entries_of(c), token_keys(pairs)),
    ensures
        with_tokens(grown(c, extra), pairs) == grown(c, filled(extra, pairs)),
        unique(filled(extra, pairs)),
        forall|k: Seq<char>| #[trigger]
            keys_in(filled(extra, pairs)).contains(k) <==> keys_in(extra).contains(k)
                || token_keys(pairs).contains(k),
    decreases pairs.len(),
{
    if pairs.len() > 0 {
        let p = pairs.drop_last();
        let keys = token_keys(pairs);
        let last = pairs.last();
        assert(token_keys(p) =~= keys.drop_last());
        assert forall|i: int| 0 <= i < token_keys(p).len() implies !holds_key(
            entries_of(c),
            #[trigger] token_keys(p)[i],
        ) by {
            assert(keys[i] == token_keys(p)[i]);
        }
        lemma_filled(c, extra, p);
        assert(keys[keys.len() - 1] == last.0);
        let e = filled(extra, p);
        lemma_grown_put(c, e, last.0, last.1);
        lemma_put_entry(e, last.0, string_node(last.1));
        assert forall|k: Seq<char>| #[trigger]
            keys_in(filled(extra, pairs)).contains(k) <==> keys_in(extra).contains(k)
                || keys.contains(k) by {
            assert(keys.contains(k) <==> token_keys(p).contains(k) || k == last.0) by {
                if keys.contains(k) {
                    let i = choose|i: int| 0 <= i < keys.len() && keys[i] == k;
                    if i < p.len() {
                        assert(token_keys(p)[i] == k);
                    }
                }
                if token_keys(p).contains(k) {
                    let i = choose|i: int| 0 <= i < p.len() && token_keys(p)[i] == k;
                    assert(keys[i] == k);
                }
            }
            assert(keys_in(e).contains(k) <==> keys_in(extra).contains(k) || token_keys(
                p,
            ).contains(k));
        }
    }
}

proof fn lemma_index_kept(e: Seq<Entry>, f: Seq<Entry>, key: Seq<char>)
    requires
        holds_key(e, key),
    ensures
        holds_key(e + f, key),
        index_of(e + f, key) == index_of(e, key),
{
    lemma_index_of(e, key);
    let g = e + f;
    let i = index_of(e, key);
    assert forall|j: int| 0 <= j < i implies (#[trigger] g[j]).key != key by {
        assert(g[j] == e[j]);
    }
    lemma_index_is(g, key, i);
}

// --- what the edits keep ---------------------------------------------------------

/// The user's theme table, or the one that is made.
spec fn theme0(root: Node) -> Node {
    base(root, "theme"@, true)
}

/// The user's table of tokens, or the one that is made.
spec fn custom0(root: Node) -> Node {
    base(theme0(root), "custom"@, false)
}

/// What stands under `theme`: the user's table, with the managed tokens after the
/// user's own.
spec fn theme_kept(root: Node, x: Node, keys: Seq<Seq<char>>, extra: Seq<Entry>) -> bool {
    if keys.len() == 0 {
        child(x, "theme"@) == child(root, "theme"@)
    } else {
        theme_grown(root, x, keys, extra)
    }
}

/// The user's table, with the entries of the keys after the user's own.
spec fn theme_grown(root: Node, x: Node, keys: Seq<Seq<char>>, extra: Seq<Entry>) -> bool {
    &&& table_like(theme0(root))
    &&& table_like(custom0(root))
    &&& none_of(entries_of(custom0(root)), keys)
    &&& unique(extra)
    &&& forall|k: Seq<char>| #[trigger] keys_in(extra).contains(k) <==> keys.contains(k)
    &&& child(x, "theme"@) == Some(
        sets(theme0(root), "custom"@, Some(grown(custom0(root), extra))),
    )
}

/// The sidebar kinds whose rows are not the user's.
spec fn free_kinds(root: Node) -> Seq<Seq<char>> {
    let a = if has_rows(root, "agents"@) {
        Seq::<Seq<char>>::empty()
    } else {
        seq!["agents"@]
    };
    if has_rows(root, "spaces"@) {
        a
    } else {
        a.push("spaces"@)
    }
}

/// A sidebar with rows written for the kinds that are free.
spec fn sidebar_written(root: Node, ma: Node, mb: Node) -> Node {
    let s = sidebar_of(root);
    let s1 = if has_rows(root, "agents"@) {
        s
    } else {
        sets(s, "agents"@, Some(kind_with_rows(s, "agents"@, ma)))
    };
    if has_rows(root, "spaces"@) {
        s1
    } else {
        sets(s1, "spaces"@, Some(kind_with_rows(s, "spaces"@, mb)))
    }
}

/// What stands under `ui`: the user's tables, with rows for the kinds that are
/// free, or without.
spec fn ui_kept(root: Node, x: Node, kinds: Seq<Seq<char>>, ma: Node, mb: Node) -> bool {
    if kinds.len() == 0 {
        child(x, "ui"@) == child(root, "ui"@)
    } else {
        &&& kinds == free_kinds(root)
        &&& base(root, "ui"@, true) is Table
        &&& sidebar_of(root) is Table
        &&& !has_rows(root, "agents"@) ==> base(sidebar_of(root), "agents"@, false) is Table
        &&& !has_rows(root, "spaces"@) ==> base(sidebar_of(root), "spaces"@, false) is Table
        &&& child(x, "ui"@) == Some(
            sets(
                base(root, "ui"@, true),
                "sidebar"@,
                Some(sidebar_written(root, ma, mb)),
            ),
        )
    }
}

/// A table holds the entry of a key that is managed.
proof fn lemma_extra_some(extra: Seq<Entry>, keys: Seq<Seq<char>>)
    requires
        keys.len() > 0,
        forall|k: Seq<char>| #[trigger] keys_in(extra).contains(k) <==> keys.contains(k),
    ensures
        extra.len() > 0,
{
    assert(keys.contains(keys[0]));
    assert(keys_in(extra).contains(keys[0]));
    lemma_index_of(extra, keys[0]);
}

/// The theme part of an edit keeps the user's table, with the new tokens after the
/// user's own.
proof fn lemma_theme_part(
    root: Node,
    x: Node,
    keys: Seq<Seq<char>>,
    extra: Seq<Entry>,
    pairs: Seq<(Seq<char>, Seq<char>)>,
) -> (extra1: Seq<Entry>)
    requires
        around(root, x),
        theme_kept(root, x, keys, extra),
        theme_applied(x, pairs, keys) is Ok,
    ensures
        ({
            let x1 = theme_applied(x, pairs, keys)->Ok_0;
            &&& around(root, x1)
            &&& theme_grown(root, x1, token_keys(free_pairs(x, pairs, keys)), extra1)
            &&& child(x1, "ui"@) == child(x, "ui"@)
        }),
{
    let free = free_pairs(x, pairs, keys);
    let new = token_keys(free);
    let t0 = theme0(root);
    let c0 = custom0(root);
    let none = Seq::<Entry>::empty();
    let nothing = Seq::<Seq<char>>::empty();
    lemma_theme_applied(x, pairs, keys);
    let t = base(x, "theme"@, true);
    let c = base(t, "custom"@, false);
    let start = if keys.len() == 0 {
        none
    } else {
        extra
    };
    if keys.len() == 0 {
        assert(t == t0);
        assert(c == c0);
        assert(entries_of(c0) + none =~= entries_of(c0));
        assert(grown(c0, none) == c0);
        assert(keys =~= seq![]);
    } else {
        lemma_sets_child(t0, "custom"@, grown(c0, extra));
        assert(c == grown(c0, extra));
    }
    lemma_free_pairs(x, pairs, keys);
    assert(free == free_of(entries_of(c0), pairs, nothing)) by {
        assert forall|i: int| 0 <= i < pairs.len() implies {
            let k = (#[trigger] pairs[i]).0;
            (keys.contains(k) || !holds_key(entries_of(c), k)) == (nothing.contains(k)
                || !holds_key(entries_of(c0), k))
        } by {
            let k = pairs[i].0;
            if keys.contains(k) {
                let j = choose|j: int| 0 <= j < keys.len() && keys[j] == k;
                assert(!holds_key(entries_of(c0), keys[j]));
            } else if keys.len() > 0 {
                assert(keys_in(extra).contains(k) <==> keys.contains(k));
                if !holds_key(entries_of(c0), k) {
                    lemma_grown(c0, extra, k);
                } else {
                    lemma_index_kept(entries_of(c0), extra, k);
                }
            }
        }
        lemma_free_same(entries_of(c), entries_of(c0), pairs, keys, nothing);
    }
    assert(none_of(entries_of(c0), new)) by {
        lemma_free(entries_of(c0), pairs, nothing);
        assert forall|i: int| 0 <= i < new.len() implies !holds_key(entries_of(c0), #[trigger] new[i])
            by {
            assert(new[i] == free[i].0);
        }
    }
    lemma_staled(c0, start, keys, new);
    let kept = staled(start, keys, new);
    lemma_filled(c0, kept, free);
    let extra1 = filled(kept, free);
    assert forall|k: Seq<char>| #[trigger] keys_in(extra1).contains(k) <==> new.contains(k) by {
        assert(keys_in(kept).contains(k) <==> keys_in(start).contains(k) && (new.contains(k)
            || !keys.contains(k)));
        if keys.len() == 0 {
            lemma_index_of(none, k);
        } else {
            assert(keys_in(extra).contains(k) <==> keys.contains(k));
        }
    }
    let c1 = grown(c0, extra1);
    assert(with_tokens(without_stale(c, keys, new), free) == c1);
    let t1 = sets(t, "custom"@, Some(c1));
    if keys.len() > 0 {
        lemma_sets_twice(t0, "custom"@, grown(c0, extra), Some(c1));
    }
    assert(t1 == sets(t0, "custom"@, Some(c1)));
    lemma_around_theme(root, x, t1);
    extra1
}

/// The user's table with the managed tokens after the user's own is one with
/// tokens added to it.
proof fn lemma_theme_is_dressed(root: Node, x: Node, keys: Seq<Seq<char>>, extra: Seq<Entry>)
    requires
        root is Table,
        theme_kept(root, x, keys, extra),
    ensures
        theme_dressed(root, x, keys),
{
    if keys.len() > 0 {
        let t0 = theme0(root);
        let c0 = custom0(root);
        let c = grown(c0, extra);
        let t = sets(t0, "custom"@, Some(c));
        let none = Seq::<Seq<char>>::empty();
        lemma_sets_kind(t0, "custom"@, Some(c));
        lemma_sets_child(t0, "custom"@, c);
        lemma_extra_some(extra, keys);
        lemma_staled(c0, extra, keys, none);
        let left = staled(extra, keys, none);
        assert(left.len() == 0) by {
            if left.len() > 0 {
                let k = left[0].key;
                lemma_index_is(left, k, 0);
                assert(keys_in(left).contains(k));
                assert(keys_in(extra).contains(k) <==> keys.contains(k));
            }
        }
        assert(entries_of(c0) + left =~= entries_of(c0));
        assert(grown(c0, left) == c0);
        lemma_outer_base(root, "theme"@, true, "custom"@, c);
        if child(root, "theme"@) is None {
            lemma_index_of(entries_of(t0), "custom"@);
        }
    }
}

// --- sidebar rows ----------------------------------------------------------------

proof fn lemma_put_twice(n: Node, key: Seq<char>, m: Node, w: Node)
    requires
        table_like(n),
    ensures
        put(put(n, key, m), key, w) == put(n, key, w),
{
    let e = entries_of(n);
    let i = index_of(e, key);
    lemma_index_of(e, key);
    lemma_child_put(n, key, m);
    let f = entries_of(put(n, key, m));
    lemma_index_is(f, key, i);
    assert(entries_of(put(put(n, key, m), key, w)) =~= entries_of(put(n, key, w)));
}

/// A kind without rows of the user's has none in the sidebar table either.
proof fn lemma_no_rows(root: Node, kind: Seq<char>)
    requires
        root is Table,
        base(root, "ui"@, true) is Table,
        !has_rows(root, kind),
    ensures
        child2(sidebar_of(root), kind, "rows"@) is None,
{
    let ui = base(root, "ui"@, true);
    if child(root, "ui"@) is None {
        lemma_index_of(entries_of(ui), "sidebar"@);
    }
    if child2(root, "ui"@, "sidebar"@) is None {
        lemma_index_of(entries_of(sidebar_of(root)), kind);
    }
}

/// What stands in a sidebar with rows written.
proof fn lemma_written(root: Node, ma: Node, mb: Node)
    requires
        root is Table,
        sidebar_of(root) is Table,
    ensures
        ({
            let s = sidebar_of(root);
            let w = sidebar_written(root, ma, mb);
            let a = "agents"@;
            let b = "spaces"@;
            &&& w is Table
            &&& child(w, a) == if has_rows(root, a) {
                child(s, a)
            } else {
                Some(kind_with_rows(s, a, ma))
            }
            &&& child(w, b) == if has_rows(root, b) {
                child(s, b)
            } else {
                Some(kind_with_rows(s, b, mb))
            }
        }),
{
    lemma_kind_names();
    let s = sidebar_of(root);
    let a = "agents"@;
    let b = "spaces"@;
    let ka = kind_with_rows(s, a, ma);
    let kb = kind_with_rows(s, b, mb);
    let s1 = if has_rows(root, a) {
        s
    } else {
        sets(s, a, Some(ka))
    };
    lemma_sets_kind(s, a, Some(ka));
    lemma_sets_child(s, a, ka);
    lemma_sets_other(s, a, Some(ka), b);
    lemma_sets_kind(s1, b, Some(kb));
    lemma_sets_child(s1, b, kb);
    lemma_sets_other(s1, b, Some(kb), a);
}

/// Writing the rows of a kind again replaces them.
proof fn lemma_rewritten(root: Node, ma: Node, mb: Node, later: Node)
    requires
        root is Table,
        sidebar_of(root) is Table,
        !has_rows(root, "agents"@) ==> base(sidebar_of(root), "agents"@, false) is Table,
        !has_rows(root, "spaces"@) ==> base(sidebar_of(root), "spaces"@, false) is Table,
    ensures
        ({
            let w = sidebar_written(root, ma, mb);
            let a = "agents"@;
            let b = "spaces"@;
            &&& !has_rows(root, a) ==> sets(w, a, Some(kind_with_rows(w, a, later)))
                == sidebar_written(root, later, mb)
            &&& !has_rows(root, b) ==> sets(w, b, Some(kind_with_rows(w, b, later)))
                == sidebar_written(root, ma, later)
        }),
{
    lemma_kind_names();
    lemma_written(root, ma, mb);
    let s = sidebar_of(root);
    let a = "agents"@;
    let b = "spaces"@;
    let w = sidebar_written(root, ma, mb);
    let ka = kind_with_rows(s, a, ma);
    let kb = kind_with_rows(s, b, mb);
    let s1 = if has_rows(root, a) {
        s
    } else {
        sets(s, a, Some(ka))
    };
    lemma_sets_kind(s, a, Some(ka));
    if !has_rows(root, a) {
        let ka1 = kind_with_rows(s, a, later);
        lemma_put_twice(base(s, a, false), "rows"@, ma, later);
        assert(kind_with_rows(w, a, later) == ka1);
        lemma_sets_twice(s, a, ka, Some(ka1));
        if !has_rows(root, b) {
            lemma_sets_child(s, a, ka);
            lemma_sets_commute(s1, a, Some(ka1), b, Some(kb));
        }
    }
    if !has_rows(root, b) {
        let kb1 = kind_with_rows(s, b, later);
        lemma_put_twice(base(s, b, false), "rows"@, mb, later);
        assert(kind_with_rows(w, b, later) == kb1);
        lemma_sets_twice(s1, b, kb, Some(kb1));
    }
}

/// Whether the tables under `ui` are the user's with that sidebar.
spec fn has_sidebar(root: Node, x: Node, s: Node) -> bool {
    &&& around(root, x)
    &&& base(root, "ui"@, true) is Table
    &&& child(x, "ui"@) == Some(sets(base(root, "ui"@, true), "sidebar"@, Some(s)))
}

proof fn lemma_with_sidebar_of(root: Node, x: Node, s: Node, later: Node)
    requires
        has_sidebar(root, x, s),
    ensures
        base(x, "ui"@, true) is Table,
        child2(x, "ui"@, "sidebar"@) == Some(s),
        sidebar_of(x) == s,
        with_sidebar(x, s) == x,
        has_sidebar(root, with_sidebar(x, later), later),
        child(with_sidebar(x, later), "theme"@) == child(x, "theme"@),
{
    let u = base(root, "ui"@, true);
    lemma_sets_kind(u, "sidebar"@, Some(s));
    lemma_sets_child(u, "sidebar"@, s);
    lemma_sets_twice(u, "sidebar"@, s, Some(s));
    lemma_sets_twice(u, "sidebar"@, s, Some(later));
    lemma_sets_same(x, "ui"@);
    lemma_around_ui(root, x, sets(u, "sidebar"@, Some(later)));
}

/// The sidebar part of an edit, where rows are managed already.
proof fn lemma_sidebar_again_part(
    root: Node,
    x: Node,
    kinds: Seq<Seq<char>>,
    ma: Node,
    mb: Node,
    pairs: Seq<(Seq<char>, Seq<char>)>,
)
    requires
        around(root, x),
        ui_kept(root, x, kinds, ma, mb),
        kinds.len() > 0,
        sidebar_applied(x, pairs, kinds) is Ok,
    ensures
        ({
            let (x1, kinds1) = sidebar_applied(x, pairs, kinds)->Ok_0;
            &&& around(root, x1)
            &&& ui_kept(
                root,
                x1,
                kinds1,
                rows_node(pairs, "agents"@),
                rows_node(pairs, "spaces"@),
            )
            &&& child(x1, "theme"@) == child(x, "theme"@)
        }),
{
    lemma_kind_names();
    let a = "agents"@;
    let b = "spaces"@;
    let na = rows_node(pairs, a);
    let nb = rows_node(pairs, b);
    let w = sidebar_written(root, ma, mb);
    let fa = !has_rows(root, a);
    let fb = !has_rows(root, b);
    assert(kinds.contains(a) == fa && kinds.contains(b) == fb) by {
        if fa {
            assert(kinds[0] == a);
        }
        if fb {
            assert(kinds[kinds.len() - 1] == b);
        }
    }
    lemma_written(root, ma, mb);
    lemma_with_sidebar_of(root, x, w, w);
    lemma_kind_applied(x, pairs, a, kinds);
    lemma_rewritten(root, ma, mb, na);
    let xa = kind_applied(x, pairs, a, kinds)->Ok_0;
    let wa = if fa {
        sidebar_written(root, na, mb)
    } else {
        w
    };
    if fa {
        lemma_with_sidebar_of(root, x, w, wa);
    } else {
        assert(user_rows(x, a, kinds));
    }
    assert(has_sidebar(root, xa, wa));
    assert(wa == sidebar_written(root, na, mb));
    lemma_written(root, na, mb);
    lemma_with_sidebar_of(root, xa, wa, wa);
    lemma_kind_applied(xa, pairs, b, kinds);
    lemma_rewritten(root, na, mb, nb);
    let xb = kind_applied(xa, pairs, b, kinds)->Ok_0;
    let wb = if fb {
        sidebar_written(root, na, nb)
    } else {
        wa
    };
    if fb {
        lemma_with_sidebar_of(root, xa, wa, wb);
    } else {
        assert(user_rows(xa, b, kinds));
    }
    assert(has_sidebar(root, xb, wb));
    assert(wb == sidebar_written(root, na, nb));
    assert(sidebar_applied(x, pairs, kinds)->Ok_0.1 =~= free_kinds(root));
}

/// The sidebar part of an edit, where no rows are managed yet.
proof fn lemma_sidebar_first_part(
    root: Node,
    x: Node,
    pairs: Seq<(Seq<char>, Seq<char>)>,
)
    requires
        around(root, x),
        child(x, "ui"@) == child(root, "ui"@),
        sidebar_applied(x, pairs, seq![]) is Ok,
    ensures
        ({
            let (x1, kinds1) = sidebar_applied(x, pairs, seq![])->Ok_0;
            &&& around(root, x1)
            &&& ui_kept(
                root,
                x1,
                kinds1,
                rows_node(pairs, "agents"@),
                rows_node(pairs, "spaces"@),
            )
            &&& child(x1, "theme"@) == child(x, "theme"@)
        }),
{
    lemma_kind_names();
    let none = Seq::<Seq<char>>::empty();
    let a = "agents"@;
    let b = "spaces"@;
    let na = rows_node(pairs, a);
    let nb = rows_node(pairs, b);
    let s = sidebar_of(root);
    let u = base(root, "ui"@, true);
    let fa = !has_rows(root, a);
    let fb = !has_rows(root, b);
    assert(sidebar_of(x) == s);
    lemma_kind_applied(x, pairs, a, none);
    let xa = kind_applied(x, pairs, a, none)->Ok_0;
    let sa = if fa {
        sets(s, a, Some(kind_with_rows(s, a, na)))
    } else {
        s
    };
    if fa {
        lemma_around_ui(root, x, sets(u, "sidebar"@, Some(sa)));
        assert(has_sidebar(root, xa, sa));
        lemma_with_sidebar_of(root, xa, sa, sa);
        lemma_sets_kind(s, a, Some(kind_with_rows(s, a, na)));
        lemma_sets_other(s, a, Some(kind_with_rows(s, a, na)), b);
        if !has_rows(root, b) {
            lemma_no_rows(root, b);
        }
    }
    assert(has_rows(xa, b) == has_rows(root, b));
    lemma_kind_applied(xa, pairs, b, none);
    let xb = kind_applied(xa, pairs, b, none)->Ok_0;
    if fb {
        let kb = kind_with_rows(sa, b, nb);
        assert(kb == kind_with_rows(s, b, nb));
        let sb = sets(sa, b, Some(kb));
        if fa {
            lemma_with_sidebar_of(root, xa, sa, sb);
        } else {
            lemma_around_ui(root, x, sets(u, "sidebar"@, Some(sb)));
        }
        assert(has_sidebar(root, xb, sb));
        assert(sb == sidebar_written(root, na, nb));
    }
    assert(sidebar_applied(x, pairs, seq![])->Ok_0.1 =~= free_kinds(root));
}

/// The user's tables with rows for the kinds that are free are tables with rows
/// added to them.
proof fn lemma_ui_is_dressed(root: Node, x: Node, kinds: Seq<Seq<char>>, ma: Node, mb: Node)
    requires
        root is Table,
        ui_kept(root, x, kinds, ma, mb),
    ensures
        ui_dressed(root, x, kinds),
{
    if kinds.len() > 0 {
        lemma_kind_names();
        let a = "agents"@;
        let b = "spaces"@;
        let none = Seq::<Seq<char>>::empty();
        let s = sidebar_of(root);
        let u = base(root, "ui"@, true);
        let w = sidebar_written(root, ma, mb);
        let fa = !has_rows(root, a);
        let fb = !has_rows(root, b);
        let ka = kind_with_rows(s, a, ma);
        let kb = kind_with_rows(s, b, mb);
        let s1 = if fa {
            sets(s, a, Some(ka))
        } else {
            s
        };
        lemma_written(root, ma, mb);
        lemma_sets_kind(u, "sidebar"@, Some(w));
        lemma_sets_child(u, "sidebar"@, w);
        lemma_outer_base(root, "ui"@, true, "sidebar"@, w);
        lemma_kind_of_sidebar(root, a);
        lemma_kind_of_sidebar(root, b);
        lemma_sets_kind(s, a, Some(ka));
        lemma_sets_child(s, a, ka);
        lemma_sets_same(s, a);
        lemma_sets_same(s, b);
        if fa {
            lemma_no_rows(root, a);
            lemma_rows_out(s, a, ma);
        }
        if fb {
            lemma_no_rows(root, b);
            lemma_rows_out(s, b, mb);
        }
        reveal_with_fuel(kinds_back, 3);
        if fa && fb {
            assert(kinds =~= seq![a, b]);
            assert(kinds.drop_last() =~= seq![a]);
            assert(kinds.drop_last().drop_last() =~= none);
            lemma_sets_commute(s1, a, child(s, a), b, Some(kb));
            lemma_sets_twice(s, a, ka, child(s, a));
            assert(sets(w, a, child(s, a)) == sets(s, b, Some(kb)));
            lemma_sets_twice(s, b, kb, child(s, b));
        } else if fa {
            assert(kinds =~= seq![a]);
            assert(kinds.drop_last() =~= none);
            lemma_sets_twice(s, a, ka, child(s, a));
        } else {
            assert(fb) by {
                if !fb {
                    assert(kinds =~= none);
                }
            }
            assert(kinds =~= seq![b]);
            assert(kinds.drop_last() =~= none);
            lemma_sets_twice(s, b, kb, child(s, b));
        }
        assert(kinds_back(root, w, kinds) == s);
        if child(root, "ui"@) is None {
            lemma_index_of(entries_of(u), "sidebar"@);
        }
    }
}

/// The table of a kind stands in the sidebar table, where there is one.
proof fn lemma_kind_of_sidebar(root: Node, kind: Seq<char>)
    ensures
        kind_table(root, kind) == child(sidebar_of(root), kind),
{
    let u = base(root, "ui"@, true);
    if child(root, "ui"@) is None {
        lemma_index_of(entries_of(u), "sidebar"@);
    }
    if child2(root, "ui"@, "sidebar"@) is None {
        lemma_index_of(entries_of(sidebar_of(root)), kind);
    }
}

/// Taking rows out that were written gives the table of a kind back.
proof fn lemma_rows_out(s: Node, kind: Seq<char>, m: Node)
    requires
        base(s, kind, false) is Table,
        child2(s, kind, "rows"@) is None,
    ensures
        kind_dressed(child(s, kind), Some(kind_with_rows(s, kind, m))),
{
    let t = base(s, kind, false);
    assert(child(t, "rows"@) is None) by {
        if child(s, kind) is None {
            lemma_index_of(entries_of(t), "rows"@);
        }
    }
    lemma_put_is_sets(t, "rows"@, m);
    lemma_sets_twice(t, "rows"@, m, None);
    lemma_sets_same(t, "rows"@);
    lemma_child_put(t, "rows"@, m);
}

// --- laws ------------------------------------------------------------------------

/// What holds of a series of edits: the user's document is there, with the managed
/// tokens and rows added to it and nothing else changed, and the notes are right of
/// the tables that something is managed in.
spec fn trail_kept(root: Node, t: Outcome, extra: Seq<Entry>, ma: Node, mb: Node) -> bool {
    &&& around(root, t.root)
    &&& theme_kept(root, t.root, t.keys, extra)
    &&& ui_kept(root, t.root, t.kinds, ma, mb)
    &&& t.keys.len() > 0 ==> theme_noted(root, t.own)
    &&& t.kinds.len() > 0 ==> ui_noted(root, t.own)
}

/// What an edit notes is right.
proof fn lemma_own(root: Node, x: Node, plan: PlanView)
    requires
        dressed(root, x, plan.previously_managed, plan.managed_sidebar),
        rightly_noted(root, plan.previously_managed, plan.managed_sidebar, plan.own),
        forall|k: Seq<char>|
            #![trigger kind_table(x, k)]
            plan.managed_sidebar.len() > 0 && !plan.managed_sidebar.contains(k) && (k == "agents"@
                || k == "spaces"@) ==> kind_table(x, k) == kind_table(root, k),
    ensures
        theme_noted(root, own_after(x, plan)),
        ui_noted(root, own_after(x, plan)),
{
    lemma_kind_names();
    let keys = plan.previously_managed;
    let kinds = plan.managed_sidebar;
    if keys.len() > 0 {
        let t = child(x, "theme"@)->0;
        lemma_child_not_empty(t, "custom"@);
    }
    if kinds.len() > 0 {
        let u = child(x, "ui"@)->0;
        let s = child(u, "sidebar"@)->0;
        lemma_child_not_empty(u, "sidebar"@);
        assert(kind_dressed(kind_table(root, kinds[0]), child(s, kinds[0])));
        lemma_child_not_empty(s, kinds[0]);
        lemma_own_kind(root, x, plan, "agents"@);
        lemma_own_kind(root, x, plan, "spaces"@);
    } else {
        assert(!kinds.contains("agents"@) && !kinds.contains("spaces"@));
        assert(kind_table(x, "agents"@) == kind_table(root, "agents"@));
        assert(kind_table(x, "spaces"@) == kind_table(root, "spaces"@));
    }
}

/// A kind that is not managed has the user's table.
proof fn lemma_other_kinds(root: Node, x: Node, kinds: Seq<Seq<char>>, ma: Node, mb: Node)
    requires
        root is Table,
        ui_kept(root, x, kinds, ma, mb),
    ensures
        forall|k: Seq<char>|
            #![trigger kind_table(x, k)]
            kinds.len() > 0 && !kinds.contains(k) && (k == "agents"@ || k == "spaces"@)
                ==> kind_table(x, k) == kind_table(root, k),
{
    if kinds.len() > 0 {
        lemma_kind_names();
        let a = "agents"@;
        let b = "spaces"@;
        let u = base(root, "ui"@, true);
        let w = sidebar_written(root, ma, mb);
        lemma_written(root, ma, mb);
        lemma_sets_child(u, "sidebar"@, w);
        lemma_kind_of_sidebar(root, a);
        lemma_kind_of_sidebar(root, b);
        if !has_rows(root, a) {
            assert(kinds[0] == a);
        }
        if !has_rows(root, b) {
            assert(kinds[kinds.len() - 1] == b);
        }
    }
}

/// Tidying gives the user's `theme` back where what was added is out.
proof fn lemma_back_tidied(root: Node, x: Node, t: Node, m: Node, own: Own)
    requires
        around(root, x),
        theme_noted(root, own),
        child(x, "theme"@) == Some(sets(t, "custom"@, Some(m))),
        outer_back(child(root, "theme"@), t, "custom"@),
        inner_back(child2(root, "theme"@, "custom"@), m),
    ensures
        ({
            let y = tidied(x, "theme"@, "custom"@, own.theme, own.custom);
            &&& around(root, y)
            &&& child(y, "theme"@) == child(root, "theme"@)
            &&& child(y, "ui"@) == child(x, "ui"@)
        }),
{
    lemma_tidied_back(x, root, "theme"@, "custom"@, t, m, own.theme, own.custom);
    lemma_around_theme_back(root, x);
}

/// Tidying leaves the tokens that are set; where none is, it gives the user's
/// `theme` back.
proof fn lemma_grown_tidied(
    root: Node,
    x: Node,
    keys: Seq<Seq<char>>,
    extra: Seq<Entry>,
    own: Own,
)
    requires
        around(root, x),
        theme_noted(root, own),
        theme_grown(root, x, keys, extra),
    ensures
        ({
            let y = tidied(x, "theme"@, "custom"@, own.theme, own.custom);
            &&& around(root, y)
            &&& theme_kept(root, y, keys, extra)
            &&& child(y, "ui"@) == child(x, "ui"@)
        }),
{
    let t0 = theme0(root);
    let c0 = custom0(root);
    let c1 = grown(c0, extra);
    let t1 = sets(t0, "custom"@, Some(c1));
    lemma_sets_kind(t0, "custom"@, Some(c1));
    lemma_sets_child(t0, "custom"@, c1);
    if keys.len() > 0 {
        lemma_child_not_empty(t1, "custom"@);
        lemma_extra_some(extra, keys);
        lemma_tidied_same(x, "theme"@, "custom"@, own.theme, own.custom);
    } else {
        assert(extra.len() == 0) by {
            if extra.len() > 0 {
                lemma_index_is(extra, extra[0].key, 0);
                assert(keys_in(extra).contains(extra[0].key));
            }
        }
        assert(entries_of(c0) + extra =~= entries_of(c0));
        assert(c1 == c0);
        lemma_outer_base(root, "theme"@, true, "custom"@, c1);
        if child(root, "theme"@) is None {
            lemma_index_of(entries_of(t0), "custom"@);
        }
        lemma_back_tidied(root, x, t0, c0, own);
    }
}

proof fn lemma_one_more(
    root: Node,
    t: Outcome,
    extra: Seq<Entry>,
    ma: Node,
    mb: Node,
    edit: Edit,
) -> (r: (Seq<Entry>, Node, Node))
    requires
        trail_kept(root, t, extra, ma, mb),
    ensures
        trail_kept(root, followed_by(t, edit), r.0, r.1, r.2),
{
    lemma_kind_names();
    let x = t.root;
    let plan = next_plan(t, edit);
    if planned(x, plan) is Err {
        (extra, ma, mb)
    } else {
        let own = own_after(x, plan);
        let x1 = theme_step(x, plan)->Ok_0;
        let (x2, kinds) = sidebar_step(x1, plan, own)->Ok_0;
        let o = planned(x, plan)->Ok_0;
        let y = o.root;
        lemma_theme_is_dressed(root, x, t.keys, extra);
        lemma_ui_is_dressed(root, x, t.kinds, ma, mb);
        lemma_other_kinds(root, x, t.kinds, ma, mb);
        lemma_own(root, x, plan);

        // the theme part
        let (extra1, outer, inner) = match edit.theme {
            Some(pairs) => (lemma_theme_part(root, x, t.keys, extra, pairs), x, x),
            None => {
                if t.keys.len() == 0 {
                    assert(t.keys =~= seq![]);
                    lemma_theme_cleared_none(x);
                    (extra, x, x)
                } else {
                    let (u, c) = lemma_theme_undone(root, x, t.keys);
                    (extra, u, c)
                }
            },
        };
        assert(around(root, x1));
        assert(child(x1, "ui"@) == child(x, "ui"@));
        assert(ui_kept(root, x1, t.kinds, ma, mb));

        // the sidebar part
        let rows = match edit.sidebar {
            Some(colours) => {
                if t.kinds.len() == 0 {
                    assert(t.kinds =~= seq![]);
                    lemma_sidebar_first_part(root, x1, colours);
                } else {
                    lemma_sidebar_again_part(root, x1, t.kinds, ma, mb, colours);
                }
                (rows_node(colours, "agents"@), rows_node(colours, "spaces"@))
            },
            None => {
                if t.kinds.len() == 0 {
                    assert(t.kinds =~= seq![]);
                    lemma_tidied_same(x1, "ui"@, "sidebar"@, own.ui, own.sidebar);
                } else {
                    assert forall|i: int| 0 <= i < t.kinds.len() implies tells(
                        kind_table(root, #[trigger] t.kinds[i]),
                        own.kind(t.kinds[i]),
                    ) by {}
                    lemma_sidebar_undone(root, x1, t.kinds, own);
                }
                (ma, mb)
            },
        };
        assert(around(root, x2));
        assert(ui_kept(root, x2, kinds, rows.0, rows.1));
        assert(child(x2, "theme"@) == child(x1, "theme"@));

        // tidying
        match edit.theme {
            Some(_) => {
                lemma_grown_tidied(root, x2, o.keys, extra1, own);
            },
            None => {
                if t.keys.len() == 0 {
                    lemma_tidied_same(x2, "theme"@, "custom"@, own.theme, own.custom);
                } else {
                    lemma_back_tidied(root, x2, outer, inner, own);
                }
            },
        }
        assert(around(root, y) && theme_kept(root, y, o.keys, extra1));
        assert(child(y, "ui"@) == child(x2, "ui"@));
        (extra1, rows.0, rows.1)
    }
}

proof fn lemma_trail(root: Node, edits: Seq<Edit>) -> (r: (Seq<Entry>, Node, Node))
    requires
        root is Table,
        unique(entries_of(root)),
    ensures
        trail_kept(root, followed(root, edits), r.0, r.1, r.2),
    decreases edits.len(),
{
    if edits.len() == 0 {
        lemma_sets_same(root, "theme"@);
        lemma_sets_same(root, "ui"@);
        (seq![], root, root)
    } else {
        let p = edits.drop_last();
        let (extra, ma, mb) = lemma_trail(root, p);
        lemma_one_more(root, followed(root, p), extra, ma, mb, edits.last())
    }
}

/// However often palettes were applied and switched, with rows or without, the
/// document is the user's with the managed keys and rows added to it, and the
/// notes tell the user's tables from those that were made.
pub proof fn law_edits_only_add(root: Node, edits: Seq<Edit>)
    requires
        root is Table,
        unique_keys(root),
    ensures
        ({
            let t = followed(root, edits);
            &&& dressed(root, t.root, t.keys, t.kinds)
            &&& t.keys.len() > 0 ==> theme_noted(root, t.own)
            &&& t.kinds.len() > 0 ==> ui_noted(root, t.own)
        }),
{
    let t = followed(root, edits);
    let (extra, ma, mb) = lemma_trail(root, edits);
    lemma_theme_is_dressed(root, t.root, t.keys, extra);
    lemma_ui_is_dressed(root, t.root, t.kinds, ma, mb);
}

/// `clear` gets the user back from anywhere: however often palettes were applied
/// and switched, with rows or without, taking out what is managed gives the
/// document back as it was, order and layout included.
pub proof fn law_clear_undoes_every_edit(root: Node, edits: Seq<Edit>)
    requires
        root is Table,
        unique_keys(root),
    ensures
        ({
            let t = followed(root, edits);
            let o = planned(t.root, clearing(t.keys, t.kinds, t.own))->Ok_0;
            &&& planned(t.root, clearing(t.keys, t.kinds, t.own)) is Ok
            &&& o.root == root
            &&& o.keys.len() == 0
            &&& o.kinds.len() == 0
        }),
{
    let t = followed(root, edits);
    law_edits_only_add(root, edits);
    law_clear_leaves_the_users(root, t.root, t.keys, t.kinds, t.own);
}

/// The user's own entries of `theme.custom` stay: after any number of edits those
/// that are not managed are the user's, as they were.
pub proof fn law_own_entries_stay(root: Node, edits: Seq<Edit>)
    requires
        root is Table,
        unique_keys(root),
    ensures
        ({
            let o = followed(root, edits);
            let c0 = child2(root, "theme"@, "custom"@)->0;
            let c1 = child2(o.root, "theme"@, "custom"@)->0;
            forall|k: Seq<char>|
                #![trigger holds_key(custom_entries(root), k)]
                #![trigger holds_key(custom_entries(o.root), k)]
                {
                    &&& holds_key(custom_entries(root), k) <==> holds_key(custom_entries(o.root), k)
                        && !o.keys.contains(k)
                    &&& holds_key(custom_entries(root), k) ==> child(c1, k) == child(c0, k)
                }
        }),
{
    let o = followed(root, edits);
    let (extra, ma, mb) = lemma_trail(root, edits);
    if o.keys.len() > 0 {
        let t0 = theme0(root);
        let c0 = custom0(root);
        let c1 = grown(c0, extra);
        lemma_sets_child(t0, "custom"@, c1);
        if child(root, "theme"@) is None {
            lemma_index_of(entries_of(t0), "custom"@);
        }
        assert(custom_entries(o.root) == entries_of(c0) + extra);
        assert forall|k: Seq<char>| {
            &&& holds_key(entries_of(c0), k) <==> holds_key(entries_of(c0) + extra, k)
                && !o.keys.contains(k)
            &&& holds_key(entries_of(c0), k) ==> child(c1, k) == child(c0, k)
        } by {
            assert(keys_in(extra).contains(k) <==> o.keys.contains(k));
            if holds_key(entries_of(c0), k) {
                lemma_index_kept(entries_of(c0), extra, k);
                lemma_index_of(entries_of(c0), k);
                if o.keys.contains(k) {
                    let j = choose|j: int| 0 <= j < o.keys.len() && o.keys[j] == k;
                    assert(!holds_key(entries_of(c0), o.keys[j]));
                }
            } else {
                lemma_grown(c0, extra, k);
            }
        }
        if child2(root, "theme"@, "custom"@) is None {
            assert(custom_entries(root) =~= entries_of(c0));
        }
    }
}

/// What was read before each edit, and after the last: each time what the edit
/// before had written.
pub open spec fn read_along(root: Node, edits: Seq<Edit>, seen: Seq<Node>) -> bool {
    &&& seen.len() == edits.len() + 1
    &&& alike(root, seen[0])
    &&& forall|i: int|
        0 <= i < edits.len() ==> alike(
            followed_by(
                Outcome { root: #[trigger] seen[i], ..followed(root, edits.take(i)) },
                edits[i],
            ).root,
            seen[i + 1],
        )
}

proof fn lemma_read_along(root: Node, edits: Seq<Edit>, seen: Seq<Node>, i: int)
    requires
        root is Table,
        unique_keys(root),
        read_along(root, edits, seen),
        0 <= i <= edits.len(),
    ensures
        alike(followed(root, edits.take(i)).root, seen[i]),
        followed(root, edits.take(i)).root is Table,
    decreases i,
{
    let some = edits.take(i);
    law_edits_only_add(root, some);
    if i > 0 {
        lemma_read_along(root, edits, seen, i - 1);
        assert(some.drop_last() =~= edits.take(i - 1));
        assert(some.last() == edits[i - 1]);
        let t = followed(root, edits.take(i - 1));
        let x = seen[i - 1];
        let edit = edits[i - 1];
        law_edits_follow_contents(t.root, x, next_plan(t, edit));
        assert(alike(followed_by(Outcome { root: x, ..t }, edit).root, seen[i - 1 + 1]));
    }
}

/// `clear` gets the user back through the file too: where every text that was
/// written reads as what was written, taking out what is managed after any number
/// of edits gives a document that holds what the user's did, in the same order.
pub proof fn law_clear_undoes_every_edit_in_the_file(
    root: Node,
    edits: Seq<Edit>,
    seen: Seq<Node>,
)
    requires
        root is Table,
        unique_keys(root),
        read_along(root, edits, seen),
    ensures
        ({
            let t = followed(root, edits);
            match planned(seen.last(), clearing(t.keys, t.kinds, t.own)) {
                Ok(o) => alike(root, o.root) && o.keys.len() == 0 && o.kinds.len() == 0,
                Err(_) => false,
            }
        }),
{
    let t = followed(root, edits);
    assert(edits.take(edits.len() as int) =~= edits);
    lemma_read_along(root, edits, seen, edits.len() as int);
    law_clear_undoes_every_edit(root, edits);
    law_edits_follow_contents(t.root, seen.last(), clearing(t.keys, t.kinds, t.own));
}

} // verus!
