//! Herdr's configuration with tokens and rows added to it, and how they come out
//! again.
use crate::own::Own;
use crate::plan::{
    child2, clearing, empty_table, kind_table, own_after, owned, planned, theme_cleared, tidied,
    without_stale, PlanView,
};
use crate::plan_kept::{lemma_gone, lemma_sets_unique};
use crate::plan_laws::{
    base, lemma_child_not_empty, lemma_kind_names, lemma_sets_child, lemma_sets_commute,
    lemma_sets_kind, lemma_sets_other, lemma_sets_same, lemma_sets_twice, lemma_theme_cleared_none,
    lemma_tidied_same, sets,
};
use crate::sidebar::{kind_cleared, kinds_cleared, sidebar_cleared};
use crate::toml::{child, entries_of, lemma_index_of, table_like, unique, without, Node};
use vstd::prelude::*;

verus! {

/// Whether a note is right of a table of the user's document: nothing is noted that
/// is not there, and what stands there empty is.
pub open spec fn tells(o: Option<Node>, noted: bool) -> bool {
    &&& o is None ==> !noted
    &&& empty_table(o) ==> noted
}

/// Whether the notes are right of the tables under `theme`.
pub open spec fn theme_noted(root: Node, own: Own) -> bool {
    &&& tells(child(root, "theme"@), own.theme)
    &&& tells(child2(root, "theme"@, "custom"@), own.custom)
}

/// Whether the notes are right of the tables under `ui`.
pub open spec fn ui_noted(root: Node, own: Own) -> bool {
    &&& tells(child(root, "ui"@), own.ui)
    &&& tells(child2(root, "ui"@, "sidebar"@), own.sidebar)
    &&& tells(kind_table(root, "agents"@), own.agents)
    &&& tells(kind_table(root, "spaces"@), own.spaces)
}

// --- a document with tokens and rows added to it ---------------------------------

/// Whether an inner table is back as it was: the user's, or one that was made and
/// is empty.
pub open spec fn inner_back(o: Option<Node>, m: Node) -> bool {
    match o {
        Some(n) => m == n,
        None => table_like(m) && entries_of(m).len() == 0,
    }
}

/// Whether a table is as it was but for what stands under `key`: the user's, or
/// one that was made for it.
pub open spec fn outer_back(o: Option<Node>, t: Node, key: Seq<char>) -> bool {
    match o {
        Some(n) => table_like(t) && sets(t, key, child(n, key)) == n,
        None => table_like(t) && entries_of(without(t, key)).len() == 0,
    }
}

/// What stands under `theme`: what the user has there, and in `custom` the
/// managed keys, however they are written.
pub open spec fn theme_dressed(root: Node, x: Node, keys: Seq<Seq<char>>) -> bool {
    if keys.len() == 0 {
        child(x, "theme"@) == child(root, "theme"@)
    } else {
        let t = child(x, "theme"@)->0;
        let c = child(t, "custom"@)->0;
        &&& child(x, "theme"@) is Some
        &&& child(t, "custom"@) is Some
        &&& table_like(c)
        &&& entries_of(c).len() > 0
        &&& outer_back(child(root, "theme"@), t, "custom"@)
        &&& inner_back(child2(root, "theme"@, "custom"@), without_stale(c, keys, seq![]))
    }
}

/// The table of a sidebar kind: what the user has there, and rows, however they
/// are written.
pub open spec fn kind_dressed(was: Option<Node>, o: Option<Node>) -> bool {
    &&& o is Some
    &&& child(o->0, "rows"@) is Some
    &&& inner_back(was, without(o->0, "rows"@))
}

/// A sidebar with the user's table for each of the kinds, or none.
pub open spec fn kinds_back(root: Node, s: Node, kinds: Seq<Seq<char>>) -> Node
    decreases kinds.len(),
{
    if kinds.len() == 0 {
        s
    } else {
        sets(kinds_back(root, s, kinds.drop_last()), kinds.last(), kind_table(root, kinds.last()))
    }
}

/// What stands under `ui`: what the user has there, and the rows of the managed
/// kinds, however they are written.
pub open spec fn ui_dressed(root: Node, x: Node, kinds: Seq<Seq<char>>) -> bool {
    if kinds.len() == 0 {
        child(x, "ui"@) == child(root, "ui"@)
    } else {
        let u = child(x, "ui"@)->0;
        let s = child(u, "sidebar"@)->0;
        &&& child(x, "ui"@) is Some
        &&& child(u, "sidebar"@) is Some
        &&& table_like(s)
        &&& kinds.no_duplicates()
        &&& forall|i: int|
            0 <= i < kinds.len() ==> {
                let k = #[trigger] kinds[i];
                (k == "agents"@ || k == "spaces"@) && kind_dressed(kind_table(root, k), child(s, k))
            }
        &&& outer_back(child(root, "ui"@), u, "sidebar"@)
        &&& inner_back(child2(root, "ui"@, "sidebar"@), kinds_back(root, s, kinds))
    }
}

/// Whether `x` is the user's document with the managed keys and rows added to it:
/// everything of the user's is there as it was, layout included, and what was
/// added may be written in any way.
pub open spec fn dressed(
    root: Node,
    x: Node,
    keys: Seq<Seq<char>>,
    kinds: Seq<Seq<char>>,
) -> bool {
    around(root, x) && theme_dressed(root, x, keys) && ui_dressed(root, x, kinds)
}

// --- the root --------------------------------------------------------------------

/// The root is the user's but for what stands under `theme` and `ui`, whose tables
/// are there where the user's were.
pub open spec fn around(root: Node, x: Node) -> bool {
    &&& root is Table
    &&& x is Table
    &&& unique(entries_of(x))
    &&& sets(sets(x, "theme"@, child(root, "theme"@)), "ui"@, child(root, "ui"@)) == root
    &&& child(root, "theme"@) is Some ==> child(x, "theme"@) is Some
    &&& child(root, "ui"@) is Some ==> child(x, "ui"@) is Some
}

proof fn lemma_absent(n: Node, key: Seq<char>)
    requires
        child(n, key) is None,
    ensures
        sets(n, key, None) == n,
{
    lemma_sets_same(n, key);
}

pub proof fn lemma_around_theme(root: Node, x: Node, m: Node)
    requires
        around(root, x),
    ensures
        around(root, sets(x, "theme"@, Some(m))),
        child(sets(x, "theme"@, Some(m)), "theme"@) == Some(m),
        child(sets(x, "theme"@, Some(m)), "ui"@) == child(x, "ui"@),
{
    lemma_kind_names();
    lemma_sets_unique(x, "theme"@, Some(m));
    lemma_sets_twice(x, "theme"@, m, child(root, "theme"@));
    lemma_sets_child(x, "theme"@, m);
    lemma_sets_other(x, "theme"@, Some(m), "ui"@);
}

pub proof fn lemma_around_theme_back(root: Node, x: Node)
    requires
        around(root, x),
    ensures
        ({
            let y = sets(x, "theme"@, child(root, "theme"@));
            &&& around(root, y)
            &&& child(y, "theme"@) == child(root, "theme"@)
            &&& child(y, "ui"@) == child(x, "ui"@)
        }),
{
    lemma_kind_names();
    match child(root, "theme"@) {
        Some(m) => {
            lemma_around_theme(root, x, m);
        },
        None => {
            let y = sets(x, "theme"@, None);
            lemma_sets_unique(x, "theme"@, None);
            lemma_gone(x, "theme"@);
            lemma_absent(y, "theme"@);
            lemma_sets_other(x, "theme"@, None, "ui"@);
        },
    }
}

/// Setting `ui` before `theme` or after it comes to the same.
proof fn lemma_ui_first(root: Node, x: Node, o: Option<Node>)
    requires
        around(root, x),
    ensures
        sets(sets(x, "ui"@, o), "theme"@, child(root, "theme"@)) == sets(
            sets(x, "theme"@, child(root, "theme"@)),
            "ui"@,
            o,
        ),
{
    lemma_kind_names();
    if child(x, "theme"@) is Some {
        lemma_sets_commute(x, "theme"@, child(root, "theme"@), "ui"@, o);
    } else {
        lemma_sets_other(x, "ui"@, o, "theme"@);
        lemma_absent(x, "theme"@);
        lemma_absent(sets(x, "ui"@, o), "theme"@);
    }
}

pub proof fn lemma_around_ui(root: Node, x: Node, m: Node)
    requires
        around(root, x),
    ensures
        around(root, sets(x, "ui"@, Some(m))),
        child(sets(x, "ui"@, Some(m)), "ui"@) == Some(m),
        child(sets(x, "ui"@, Some(m)), "theme"@) == child(x, "theme"@),
{
    lemma_kind_names();
    let base_x = sets(x, "theme"@, child(root, "theme"@));
    lemma_sets_unique(x, "ui"@, Some(m));
    lemma_ui_first(root, x, Some(m));
    lemma_sets_kind(x, "theme"@, child(root, "theme"@));
    lemma_sets_twice(base_x, "ui"@, m, child(root, "ui"@));
    lemma_sets_child(x, "ui"@, m);
    lemma_sets_other(x, "ui"@, Some(m), "theme"@);
}

proof fn lemma_around_ui_back(root: Node, x: Node)
    requires
        around(root, x),
    ensures
        ({
            let y = sets(x, "ui"@, child(root, "ui"@));
            &&& around(root, y)
            &&& child(y, "ui"@) == child(root, "ui"@)
            &&& child(y, "theme"@) == child(x, "theme"@)
        }),
{
    lemma_kind_names();
    match child(root, "ui"@) {
        Some(m) => {
            lemma_around_ui(root, x, m);
        },
        None => {
            let y = sets(x, "ui"@, None);
            let base_x = sets(x, "theme"@, child(root, "theme"@));
            lemma_sets_unique(x, "ui"@, None);
            lemma_gone(x, "ui"@);
            lemma_ui_first(root, x, None);
            lemma_sets_kind(x, "theme"@, child(root, "theme"@));
            lemma_sets_unique(x, "theme"@, child(root, "theme"@));
            lemma_gone(base_x, "ui"@);
            lemma_absent(sets(base_x, "ui"@, None), "ui"@);
            lemma_sets_other(x, "ui"@, None, "theme"@);
        },
    }
}

/// A root with nothing changed under `theme` and `ui` is the user's.
proof fn lemma_around_same(root: Node, x: Node)
    requires
        around(root, x),
        child(x, "theme"@) == child(root, "theme"@),
        child(x, "ui"@) == child(root, "ui"@),
    ensures
        x == root,
{
    lemma_sets_same(x, "theme"@);
    lemma_sets_same(x, "ui"@);
}

/// A table that is the user's or was made, with something set in it, is as it was
/// but for that.
pub proof fn lemma_outer_base(n: Node, a: Seq<char>, implicit: bool, b: Seq<char>, m: Node)
    requires
        table_like(base(n, a, implicit)),
    ensures
        outer_back(child(n, a), base(n, a, implicit), b),
        outer_back(child(n, a), sets(base(n, a, implicit), b, Some(m)), b),
{
    let t = base(n, a, implicit);
    lemma_sets_kind(t, b, Some(m));
    lemma_sets_same(t, b);
    lemma_sets_twice(t, b, m, child(t, b));
    if child(n, a) is None {
        lemma_index_of(entries_of(t), b);
        assert(child(t, b) is None);
    }
}

/// Tidying takes an inner table out that was made and is empty, and an outer one
/// with it.
pub proof fn lemma_tidied_back(
    x: Node,
    root: Node,
    a: Seq<char>,
    b: Seq<char>,
    t: Node,
    m: Node,
    fa: bool,
    fb: bool,
)
    requires
        tells(child(root, a), fa),
        tells(child2(root, a, b), fb),
        child(x, a) == Some(sets(t, b, Some(m))),
        outer_back(child(root, a), t, b),
        inner_back(child2(root, a, b), m),
    ensures
        tidied(x, a, b, fa, fb) == sets(x, a, child(root, a)),
{
    let outer = sets(t, b, Some(m));
    lemma_sets_kind(t, b, Some(m));
    lemma_sets_child(t, b, m);
    match child2(root, a, b) {
        Some(c0) => {
            assert(outer == child(root, a)->0);
            lemma_child_not_empty(outer, b);
        },
        None => {
            lemma_sets_twice(t, b, m, None);
            assert(without(outer, b) == without(t, b));
        },
    }
}

/// Taking the managed keys out of a document that they were added to, and then
/// tidying, gives the user's `theme` back.
pub proof fn lemma_theme_undone(root: Node, x: Node, keys: Seq<Seq<char>>) -> (r: (Node, Node))
    requires
        around(root, x),
        theme_dressed(root, x, keys),
        keys.len() > 0,
    ensures
        ({
            let x1 = theme_cleared(x, keys);
            &&& around(root, x1)
            &&& child(x1, "theme"@) == Some(sets(r.0, "custom"@, Some(r.1)))
            &&& outer_back(child(root, "theme"@), r.0, "custom"@)
            &&& inner_back(child2(root, "theme"@, "custom"@), r.1)
            &&& child(x1, "ui"@) == child(x, "ui"@)
        }),
{
    let t = child(x, "theme"@)->0;
    let c = child(t, "custom"@)->0;
    let left = without_stale(c, keys, seq![]);
    lemma_around_theme(root, x, sets(t, "custom"@, Some(left)));
    (t, left)
}

/// Taking the rows of one kind out that were added gives the user's table of the
/// kind back, or none.
proof fn lemma_kind_undone(root: Node, x: Node, s: Node, kind: Seq<char>, own: Own)
    requires
        x is Table,
        child2(x, "ui"@, "sidebar"@) == Some(s),
        kind_dressed(kind_table(root, kind), child(s, kind)),
        tells(kind_table(root, kind), own.kind(kind)),
    ensures
        ({
            let s1 = sets(s, kind, kind_table(root, kind));
            let u = child(x, "ui"@)->0;
            kind_cleared(x, kind, own) == sets(x, "ui"@, Some(sets(u, "sidebar"@, Some(s1))))
        }),
{
    let t = child(s, kind)->0;
    lemma_child_not_empty(t, "rows"@);
    lemma_child_not_empty(s, kind);
}

proof fn lemma_kinds_undone(root: Node, x: Node, s: Node, kinds: Seq<Seq<char>>, own: Own)
    requires
        x is Table,
        child2(x, "ui"@, "sidebar"@) == Some(s),
        table_like(s),
        kinds.no_duplicates(),
        forall|i: int|
            0 <= i < kinds.len() ==> kind_dressed(
                kind_table(root, #[trigger] kinds[i]),
                child(s, kinds[i]),
            ),
        forall|i: int|
            0 <= i < kinds.len() ==> tells(
                kind_table(root, #[trigger] kinds[i]),
                own.kind(kinds[i]),
            ),
    ensures
        ({
            let u = child(x, "ui"@)->0;
            let s1 = kinds_back(root, s, kinds);
            &&& table_like(s1)
            &&& kinds_cleared(x, kinds, own) == sets(x, "ui"@, Some(sets(u, "sidebar"@, Some(s1))))
            &&& forall|k: Seq<char>| !kinds.contains(k) ==> #[trigger] child(s1, k) == child(s, k)
        }),
    decreases kinds.len(),
{
    let u = child(x, "ui"@)->0;
    lemma_child_not_empty(u, "sidebar"@);
    if kinds.len() == 0 {
        lemma_sets_same(u, "sidebar"@);
        lemma_sets_same(x, "ui"@);
    } else {
        let p = kinds.drop_last();
        let k = kinds.last();
        assert(kinds[kinds.len() - 1] == k);
        assert forall|i: int| 0 <= i < p.len() implies kind_dressed(
            kind_table(root, #[trigger] p[i]),
            child(s, p[i]),
        ) && tells(kind_table(root, p[i]), own.kind(p[i])) by {
            assert(p[i] == kinds[i]);
        }
        lemma_kinds_undone(root, x, s, p, own);
        let s1 = kinds_back(root, s, p);
        let u1 = sets(u, "sidebar"@, Some(s1));
        let x1 = kinds_cleared(x, p, own);
        let s2 = sets(s1, k, kind_table(root, k));
        lemma_sets_kind(u, "sidebar"@, Some(s1));
        lemma_sets_kind(x, "ui"@, Some(u1));
        lemma_sets_child(x, "ui"@, u1);
        lemma_sets_child(u, "sidebar"@, s1);
        assert(!p.contains(k)) by {
            if p.contains(k) {
                let i = choose|i: int| 0 <= i < p.len() && p[i] == k;
                assert(kinds[i] == k);
            }
        }
        assert(child(s1, k) == child(s, k));
        lemma_kind_undone(root, x1, s1, k, own);
        lemma_sets_twice(u, "sidebar"@, s1, Some(s2));
        lemma_sets_twice(x, "ui"@, u1, Some(sets(u, "sidebar"@, Some(s2))));
        lemma_sets_kind(s1, k, kind_table(root, k));
        assert forall|j: Seq<char>| !kinds.contains(j) implies #[trigger] child(s2, j) == child(s, j)
            by {
            assert(!p.contains(j)) by {
                if p.contains(j) {
                    let i = choose|i: int| 0 <= i < p.len() && p[i] == j;
                    assert(kinds[i] == j);
                }
            }
            assert(child(s1, j) == child(s, j));
            assert(kinds.contains(k));
            lemma_sets_other(s1, k, kind_table(root, k), j);
        }
    }
}

/// Taking the managed rows out of a document that they were added to gives the
/// user's `ui` back.
pub proof fn lemma_sidebar_undone(root: Node, x: Node, kinds: Seq<Seq<char>>, own: Own)
    requires
        around(root, x),
        ui_dressed(root, x, kinds),
        tells(child(root, "ui"@), own.ui),
        tells(child2(root, "ui"@, "sidebar"@), own.sidebar),
        forall|i: int|
            0 <= i < kinds.len() ==> tells(
                kind_table(root, #[trigger] kinds[i]),
                own.kind(kinds[i]),
            ),
        kinds.len() > 0,
    ensures
        ({
            let x1 = sidebar_cleared(x, kinds, own);
            &&& around(root, x1)
            &&& child(x1, "ui"@) == child(root, "ui"@)
            &&& child(x1, "theme"@) == child(x, "theme"@)
        }),
{
    lemma_kind_names();
    let u = child(x, "ui"@)->0;
    let s = child(u, "sidebar"@)->0;
    assert forall|i: int| 0 <= i < kinds.len() implies kind_dressed(
        kind_table(root, #[trigger] kinds[i]),
        child(s, kinds[i]),
    ) && tells(kind_table(root, kinds[i]), own.kind(kinds[i])) by {}
    lemma_kinds_undone(root, x, s, kinds, own);
    let s1 = kinds_back(root, s, kinds);
    let u1 = sets(u, "sidebar"@, Some(s1));
    let x1 = sets(x, "ui"@, Some(u1));
    lemma_sets_child(x, "ui"@, u1);
    lemma_tidied_back(x1, root, "ui"@, "sidebar"@, u, s1, own.ui, own.sidebar);
    lemma_sets_twice(x, "ui"@, u1, child(root, "ui"@));
    lemma_around_ui_back(root, x);
}

// --- taking everything out --------------------------------------------------------

/// Whether the notes are right where something is managed.
pub open spec fn rightly_noted(root: Node, keys: Seq<Seq<char>>, kinds: Seq<Seq<char>>, own: Own) -> bool {
    &&& keys.len() > 0 ==> theme_noted(root, own)
    &&& kinds.len() > 0 ==> ui_noted(root, own)
}

pub proof fn lemma_own_kind(root: Node, x: Node, plan: PlanView, kind: Seq<char>)
    requires
        dressed(root, x, plan.previously_managed, plan.managed_sidebar),
        plan.managed_sidebar.len() > 0,
        plan.managed_sidebar.contains(kind) || kind_table(x, kind) == kind_table(root, kind),
        tells(kind_table(root, kind), plan.own.kind(kind)),
    ensures
        tells(
            kind_table(root, kind),
            owned(kind_table(x, kind), plan.own.kind(kind)),
        ),
{
    let kinds = plan.managed_sidebar;
    if kinds.contains(kind) {
        let i = choose|i: int| 0 <= i < kinds.len() && kinds[i] == kind;
        assert(kinds[i] == kind);
        let s = child2(x, "ui"@, "sidebar"@)->0;
        assert(kind_dressed(kind_table(root, kinds[i]), child(s, kinds[i])));
        lemma_child_not_empty(child(s, kind)->0, "rows"@);
    }
}

/// Taking out what is managed undoes adding it: of the user's document with keys
/// and rows added to it, however they are written, the user's document is left,
/// order and layout included.
pub proof fn law_clear_leaves_the_users(
    root: Node,
    x: Node,
    keys: Seq<Seq<char>>,
    kinds: Seq<Seq<char>>,
    own: Own,
)
    requires
        dressed(root, x, keys, kinds),
        keys.len() > 0 ==> theme_noted(root, own),
        kinds.len() > 0 ==> ui_noted(root, own),
    ensures
        ({
            let o = planned(x, clearing(keys, kinds, own))->Ok_0;
            &&& planned(x, clearing(keys, kinds, own)) is Ok
            &&& o.root == root
            &&& o.keys.len() == 0
            &&& o.kinds.len() == 0
        }),
{
    lemma_kind_names();
    let plan = clearing(keys, kinds, own);
    let own1 = own_after(x, plan);
    let x1 = theme_cleared(x, keys);
    let x2 = sidebar_cleared(x1, kinds, own1);
    if keys.len() > 0 {
        lemma_child_not_empty(child(x, "theme"@)->0, "custom"@);
    }
    let (t, m) = if keys.len() == 0 {
        assert(keys =~= seq![]);
        lemma_theme_cleared_none(x);
        (x, x)
    } else {
        lemma_theme_undone(root, x, keys)
    };
    if kinds.len() == 0 {
        assert(kinds =~= seq![]);
        lemma_tidied_same(x1, "ui"@, "sidebar"@, own1.ui, own1.sidebar);
    } else {
        let u = child(x, "ui"@)->0;
        let s = child(u, "sidebar"@)->0;
        lemma_child_not_empty(u, "sidebar"@);
        assert(kind_dressed(kind_table(root, kinds[0]), child(s, kinds[0])));
        lemma_child_not_empty(s, kinds[0]);
        lemma_undone_kinds(root, x1, x, kinds, plan);
    }
    if keys.len() == 0 {
        lemma_tidied_same(x2, "theme"@, "custom"@, own1.theme, own1.custom);
    } else {
        lemma_tidied_back(x2, root, "theme"@, "custom"@, t, m, own1.theme, own1.custom);
        lemma_around_theme_back(root, x2);
    }
    let y = planned(x, plan)->Ok_0.root;
    lemma_around_same(root, y);
}

/// The rows that were added come out by the notes that the edit makes, though it
/// says more of the kinds that are not managed.
proof fn lemma_undone_kinds(root: Node, x1: Node, x: Node, kinds: Seq<Seq<char>>, plan: PlanView)
    requires
        around(root, x1),
        dressed(root, x, plan.previously_managed, kinds),
        ui_dressed(root, x1, kinds),
        child(x1, "ui"@) == child(x, "ui"@),
        kinds.len() > 0,
        kinds == plan.managed_sidebar,
        ui_noted(root, plan.own),
    ensures
        ({
            let x2 = sidebar_cleared(x1, kinds, own_after(x, plan));
            &&& around(root, x2)
            &&& child(x2, "ui"@) == child(root, "ui"@)
            &&& child(x2, "theme"@) == child(x1, "theme"@)
        }),
{
    lemma_kind_names();
    let own1 = own_after(x, plan);
    let u = child(x1, "ui"@)->0;
    let s = child(u, "sidebar"@)->0;
    lemma_child_not_empty(u, "sidebar"@);
    assert(kind_dressed(kind_table(root, kinds[0]), child(s, kinds[0])));
    lemma_child_not_empty(s, kinds[0]);
    assert forall|i: int| 0 <= i < kinds.len() implies tells(
        kind_table(root, #[trigger] kinds[i]),
        own1.kind(kinds[i]),
    ) by {
        assert(kinds.contains(kinds[i]));
        lemma_own_kind(root, x, plan, kinds[i]);
    }
    lemma_sidebar_undone(root, x1, kinds, own1);
}

} // verus!
