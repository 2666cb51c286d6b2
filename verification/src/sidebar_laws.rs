//! What the sidebar shows after an edit, as a reader of the configuration finds it.
use crate::aside::uncovered;
use crate::memo::MemoView;
use crate::plan::{edited, own_after, plan_on, planned, sidebar_step, theme_step, PlanView};
use crate::plan_kept::lemma_theme_kept;
use crate::plan_laws::{
    lemma_kind_names, lemma_kind_stands, lemma_planned_table, lemma_sidebar_again, lemma_ui_stays,
    rows_stand,
};
use crate::plan_series::law_covering_leaves_the_rest;
use crate::sidebar::{first_row, kind_applied, mark_node, row_items, rows_node, user_rows};
use crate::toml::{child, entries_of, lemma_index_is, node_bool, node_str, pushed, Document, Node};
use vstd::prelude::*;

verus! {

/// The rows of a sidebar kind, where there are any.
pub open spec fn rows_of_kind(root: Node, kind: Seq<char>) -> Option<Node> {
    match child(root, "ui"@) {
        Some(ui) => match child(ui, "sidebar"@) {
            Some(sidebar) => match child(sidebar, kind) {
                Some(table) => child(table, "rows"@),
                None => None,
            },
            None => None,
        },
        None => None,
    }
}

proof fn lemma_mark(name: Seq<char>, fg: Seq<char>, first: bool)
    ensures
        ({
            let m = pushed(mark_node(name, fg), first);
            &&& m is Inline
            &&& entries_of(m).len() == 3
            &&& child(m, "token"@) is Some
            &&& node_str(child(m, "token"@)->0) == Some("$sc_"@ + name)
            &&& child(m, "fg"@) is Some
            &&& node_str(child(m, "fg"@)->0) == Some(fg)
            &&& child(m, "bold"@) is Some
            &&& node_bool(child(m, "bold"@)->0) == Some(true)
        }),
{
    reveal_strlit("token");
    reveal_strlit("fg");
    reveal_strlit("bold");
    assert("token"@.len() == 5 && "fg"@.len() == 2 && "bold"@.len() == 4);
    let m = pushed(mark_node(name, fg), first);
    let e = entries_of(m);
    assert(e[0].key == "token"@ && e[1].key == "fg"@ && e[2].key == "bold"@);
    lemma_index_is(e, "token"@, 0);
    lemma_index_is(e, "fg"@, 1);
    lemma_index_is(e, "bold"@, 2);
}

/// The marks in the first of the rows that are written for a sidebar kind: at
/// place `i` + 1 a table in braces with the token of the palette at place `i`, in
/// the colour of that palette, and bold.
proof fn lemma_marks(pairs: Seq<(Seq<char>, Seq<char>)>, kind: Seq<char>, i: int)
    requires
        0 <= i < pairs.len(),
    ensures
        ({
            let rows = rows_node(pairs, kind);
            let mark = rows->Array_0[0]->Array_0[i + 1];
            &&& mark is Inline
            &&& entries_of(mark).len() == 3
            &&& child(mark, "token"@) is Some
            &&& node_str(child(mark, "token"@)->0) == Some("$sc_"@ + pairs[i].0)
            &&& child(mark, "fg"@) is Some
            &&& node_str(child(mark, "fg"@)->0) == Some(pairs[i].1)
            &&& child(mark, "bold"@) is Some
            &&& node_bool(child(mark, "bold"@)->0) == Some(true)
        }),
{
    let first = first_row(pairs, kind);
    assert(first[i + 1] == mark_node(pairs[i].0, pairs[i].1));
    let items = row_items(first);
    assert(items[i + 1] == pushed(first[i + 1], false));
    lemma_mark(pairs[i].0, pairs[i].1, false);
}

proof fn lemma_rows(pairs: Seq<(Seq<char>, Seq<char>)>, kind: Seq<char>)
    ensures
        ({
            let rows = rows_node(pairs, kind);
            let n = pairs.len() as int;
            let first = rows->Array_0[0];
            let second = rows->Array_0[1];
            &&& rows is Array
            &&& rows->Array_0.len() == 2
            &&& first is Array
            &&& second is Array
            &&& node_str(first->Array_0[0]) == Some("state_icon"@)
            &&& node_str(first->Array_0[n + 1]) == Some("workspace"@)
            &&& kind == "agents"@ ==> {
                &&& first->Array_0.len() == n + 3
                &&& node_str(first->Array_0[n + 2]) == Some("tab"@)
                &&& second->Array_0.len() == 1
                &&& node_str(second->Array_0[0]) == Some("agent"@)
            }
            &&& kind != "agents"@ ==> {
                &&& first->Array_0.len() == n + 2
                &&& second->Array_0.len() == 2
                &&& node_str(second->Array_0[0]) == Some("branch"@)
                &&& node_str(second->Array_0[1]) == Some("git_status"@)
            }
        }),
{
    let first = first_row(pairs, kind);
    let n = pairs.len() as int;
    assert(first.len() == n + if kind == "agents"@ {
        3int
    } else {
        2int
    });
    assert(row_items(first)[0] == pushed(first[0], true));
    assert(row_items(first)[n + 1] == pushed(first[n + 1], false));
}

proof fn lemma_written(root: Node, plan: PlanView, kind: Seq<char>)
    requires
        root is Table,
        plan.sidebar is Some,
        planned(root, plan) is Ok,
        planned(root, plan)->Ok_0.kinds.contains(kind),
    ensures
        kind == "agents"@ || kind == "spaces"@,
        rows_of_kind(planned(root, plan)->Ok_0.root, kind) == Some(
            rows_node(plan.sidebar->0, kind),
        ),
{
    lemma_kind_names();
    lemma_planned_table(root, plan);
    let own = own_after(root, plan);
    let root1 = theme_step(root, plan)->Ok_0;
    let (root2, kinds) = sidebar_step(root1, plan, own)->Ok_0;
    let pairs = plan.sidebar->0;
    lemma_sidebar_again(root1, pairs, plan.managed_sidebar);
    lemma_ui_stays(root2, "theme"@, "custom"@, own);
    let at = choose|at: int| 0 <= at < kinds.len() && kinds[at] == kind;
    assert(kind == "agents"@ || kind == "spaces"@);
    assert(rows_stand(root2, kind, rows_node(pairs, kind)));
}

/// In the rows that are written for a sidebar kind, place `i` + 1 of the first row
/// holds a table in braces whose `token` is that of the palette at place `i` and
/// whose `fg` is the colour of that palette; it is bold, and holds no more.
pub proof fn law_each_mark_has_its_own_colour(root: Node, plan: PlanView, kind: Seq<char>, i: int)
    requires
        root is Table,
        plan.sidebar is Some,
        planned(root, plan) is Ok,
        planned(root, plan)->Ok_0.kinds.contains(kind),
        0 <= i < plan.sidebar->0.len(),
    ensures
        ({
            let rows = rows_of_kind(planned(root, plan)->Ok_0.root, kind)->0;
            let mark = rows->Array_0[0]->Array_0[i + 1];
            let (name, colour) = plan.sidebar->0[i];
            &&& mark is Inline
            &&& entries_of(mark).len() == 3
            &&& child(mark, "token"@) is Some
            &&& node_str(child(mark, "token"@)->0) == Some("$sc_"@ + name)
            &&& child(mark, "fg"@) is Some
            &&& node_str(child(mark, "fg"@)->0) == Some(colour)
            &&& child(mark, "bold"@) is Some
            &&& node_bool(child(mark, "bold"@)->0) == Some(true)
        }),
{
    lemma_written(root, plan, kind);
    lemma_marks(plan.sidebar->0, kind, i);
}

/// Around the marks, the rows that are written show what Herdr shows by itself: for
/// agents the icon of the state, the marks, the workspace and the tab, and the agent
/// below; for spaces the icon, the marks and the workspace, and the branch and its
/// state below.
pub proof fn law_rows_show_the_usual(root: Node, plan: PlanView, kind: Seq<char>)
    requires
        root is Table,
        plan.sidebar is Some,
        planned(root, plan) is Ok,
        planned(root, plan)->Ok_0.kinds.contains(kind),
    ensures
        ({
            let rows = rows_of_kind(planned(root, plan)->Ok_0.root, kind);
            let n = plan.sidebar->0.len() as int;
            let first = rows->0->Array_0[0];
            let second = rows->0->Array_0[1];
            &&& kind == "agents"@ || kind == "spaces"@
            &&& rows is Some
            &&& rows->0 is Array
            &&& rows->0->Array_0.len() == 2
            &&& first is Array
            &&& second is Array
            &&& node_str(first->Array_0[0]) == Some("state_icon"@)
            &&& node_str(first->Array_0[n + 1]) == Some("workspace"@)
            &&& kind == "agents"@ ==> {
                &&& first->Array_0.len() == n + 3
                &&& node_str(first->Array_0[n + 2]) == Some("tab"@)
                &&& second->Array_0.len() == 1
                &&& node_str(second->Array_0[0]) == Some("agent"@)
            }
            &&& kind == "spaces"@ ==> {
                &&& first->Array_0.len() == n + 2
                &&& second->Array_0.len() == 2
                &&& node_str(second->Array_0[0]) == Some("branch"@)
                &&& node_str(second->Array_0[1]) == Some("git_status"@)
            }
        }),
{
    lemma_kind_names();
    lemma_written(root, plan, kind);
    lemma_rows(plan.sidebar->0, kind);
}

/// An edit of a document writes the same rows as the plan: what the user's own
/// colours do in `theme.custom` does not change them.
pub proof fn law_rows_of_an_edit(doc: Document, memo: MemoView, plan: PlanView, kind: Seq<char>)
    requires
        edited(doc, memo, plan) is Ok,
    ensures
        ({
            let from = uncovered(doc.root, memo.kept);
            let o = planned(from, plan_on(memo, plan));
            &&& o is Ok
            &&& edited(doc, memo, plan)->Ok_0.kinds == o->Ok_0.kinds
            &&& rows_of_kind(edited(doc, memo, plan)->Ok_0.doc.root, kind) == rows_of_kind(
                o->Ok_0.root,
                kind,
            )
        }),
{
    let from = uncovered(doc.root, memo.kept);
    let o = planned(from, plan_on(memo, plan))->Ok_0;
    match plan.theme {
        Some(pairs) => {
            law_covering_leaves_the_rest(o.root, pairs, o.keys);
        },
        None => {},
    }
}

/// The rows of a kind are written where the configuration has none or where those
/// that it has are managed, and are then managed; rows of the user's are not.
pub proof fn law_own_rows_are_not_written_over(root: Node, plan: PlanView, kind: Seq<char>)
    requires
        root is Table,
        plan.sidebar is Some,
        planned(root, plan) is Ok,
        kind == "agents"@ || kind == "spaces"@,
    ensures
        planned(root, plan)->Ok_0.kinds.contains(kind) <==> (rows_of_kind(root, kind) is None
            || plan.managed_sidebar.contains(kind)),
{
    let a = "agents"@;
    let b = "spaces"@;
    lemma_kind_names();
    lemma_theme_kept(root, plan);
    let root1 = theme_step(root, plan)->Ok_0;
    let pairs = plan.sidebar->0;
    let managed = plan.managed_sidebar;
    let kinds = planned(root, plan)->Ok_0.kinds;
    lemma_kind_stands(root1, pairs, a, managed, b, root);
    let none = Seq::<Seq<char>>::empty();
    let wa = !user_rows(root1, a, managed);
    let wb = !user_rows(kind_applied(root1, pairs, a, managed)->Ok_0, b, managed);
    assert(seq![a][0] == a && seq![a].push(b)[0] == a && seq![a].push(b)[1] == b && none.push(b)[0]
        == b);
}

} // verus!
