//! What holds of the answers of Herdr's command line tool: what is read out of
//! them, and of which entry.
use crate::herdr::{
    agent_in, called_for, cwd_in, event_workspace_of, first_where, focused_at, lemma_first_where,
    lists_pane, pane_at, panes_in, result_in, session_to_pin, tells_cwd, workspace_at,
    workspaces_in, PaneView, WorkspaceView,
};
use crate::json::{entry_at, json_field, json_list, json_parse, json_str, json_str_or, JsonTree};
use crate::text::{debug_text, holds_part, stands_at};
use crate::text_laws::law_parts_of_a_text;
use vstd::prelude::*;

verus! {

// --- values ----------------------------------------------------------------------

proof fn lemma_entry_first(v: Seq<(Seq<char>, JsonTree)>, key: Seq<char>, i: int)
    requires
        0 <= i <= v.len(),
        forall|j: int| 0 <= j < i ==> (#[trigger] v[j]).0 != key,
        i < v.len() ==> v[i].0 == key,
    ensures
        i < v.len() ==> entry_at(v, key) == Some(v[i].1),
        i == v.len() ==> entry_at(v, key) is None,
    decreases v.len(),
{
    if i > 0 {
        assert(v[0].0 != key);
        let rest = v.skip(1);
        assert forall|j: int| 0 <= j < i - 1 implies (#[trigger] rest[j]).0 != key by {
            assert(rest[j] == v[j + 1]);
        }
        lemma_entry_first(rest, key, i - 1);
    }
}

/// What stands under a key of an object: the value of the first entry with that
/// key, and nothing where there is none. A text counts as text only, a list as list
/// only, and a value that is no object has nothing under any key.
pub proof fn law_object_entries(v: Seq<(Seq<char>, JsonTree)>, key: Seq<char>, i: int)
    requires
        0 <= i <= v.len(),
        forall|j: int| 0 <= j < i ==> (#[trigger] v[j]).0 != key,
        i < v.len() ==> v[i].0 == key,
    ensures
        ({
            let t = JsonTree::Object(v);
            &&& i < v.len() ==> json_field(t, key) == Some(v[i].1)
            &&& i == v.len() ==> json_field(t, key) is None && json_str(t, key) is None
                && json_str_or(t, key).len() == 0 && json_list(t, key).len() == 0
            &&& i < v.len() && v[i].1 is Text ==> json_str(t, key) == Some(v[i].1->Text_0)
                && json_str_or(t, key) == v[i].1->Text_0
            &&& i < v.len() && !(v[i].1 is Text) ==> json_str(t, key) is None && json_str_or(
                t,
                key,
            ).len() == 0
            &&& i < v.len() && v[i].1 is List ==> json_list(t, key) == v[i].1->List_0
            &&& i < v.len() && !(v[i].1 is List) ==> json_list(t, key).len() == 0
        }),
{
    lemma_entry_first(v, key, i);
}

/// A value that is no object has nothing under any key.
pub proof fn law_only_objects_have_entries(t: JsonTree, key: Seq<char>)
    requires
        !(t is Object),
    ensures
        json_field(t, key) is None,
        json_str(t, key) is None,
        json_str_or(t, key).len() == 0,
        json_list(t, key).len() == 0,
        result_in(t) == t,
{
}

/// An answer stands under `result`, or is the whole where there is no such entry.
pub proof fn law_result_of_an_answer(v: Seq<(Seq<char>, JsonTree)>, i: int)
    requires
        0 <= i <= v.len(),
        forall|j: int| 0 <= j < i ==> (#[trigger] v[j]).0 != "result"@,
        i < v.len() ==> v[i].0 == "result"@,
    ensures
        i < v.len() ==> result_in(JsonTree::Object(v)) == v[i].1,
        i == v.len() ==> result_in(JsonTree::Object(v)) == JsonTree::Object(v),
{
    lemma_entry_first(v, "result"@, i);
}

// --- workspaces ------------------------------------------------------------------

/// The directory of a workspace is that of the first pane that is listed for it
/// with one. Panes of other workspaces do not count, nor do panes without a
/// directory; where no pane is left, there is none.
pub proof fn law_directory_of_the_first_pane(panes: Seq<JsonTree>, ws: Seq<char>, i: int)
    requires
        0 <= i <= panes.len(),
        ws.len() > 0,
        forall|j: int|
            0 <= j < i ==> json_str(#[trigger] panes[j], "workspace_id"@) != Some(ws) || json_str(
                panes[j],
                "cwd"@,
            ) is None || json_str(panes[j], "cwd"@)->0.len() == 0,
        i < panes.len() ==> json_str(panes[i], "workspace_id"@) == Some(ws) && json_str(
            panes[i],
            "cwd"@,
        ) is Some && json_str(panes[i], "cwd"@)->0.len() > 0,
    ensures
        i < panes.len() ==> Some(cwd_in(panes, ws)) == json_str(panes[i], "cwd"@),
        i == panes.len() ==> cwd_in(panes, ws).len() == 0,
    decreases panes.len(),
{
    if i > 0 {
        assert(json_str(panes[0], "workspace_id"@) != Some(ws) || json_str(panes[0], "cwd"@) is None
            || json_str(panes[0], "cwd"@)->0.len() == 0);
        assert(!tells_cwd(panes[0], ws));
        let rest = panes.skip(1);
        assert forall|j: int| 0 <= j < i - 1 implies json_str(#[trigger] rest[j], "workspace_id"@)
            != Some(ws) || json_str(rest[j], "cwd"@) is None || json_str(
            rest[j],
            "cwd"@,
        )->0.len() == 0 by {
            assert(rest[j] == panes[j + 1]);
        }
        law_directory_of_the_first_pane(rest, ws, i - 1);
    } else if panes.len() > 0 {
        assert(tells_cwd(panes[0], ws));
    }
}

/// The workspaces that are read: every entry with an id, in their order, and no
/// other.
pub proof fn law_every_workspace_is_read(list: Seq<JsonTree>, panes: Seq<JsonTree>)
    ensures
        workspaces_in(list, panes).map_values(|w: WorkspaceView| w.id) == list.filter(
            |t: JsonTree|
                json_str(t, "workspace_id"@) is Some && json_str(t, "workspace_id"@)->0.len() > 0,
        ).map_values(|t: JsonTree| json_str(t, "workspace_id"@)->0),
    decreases list.len(),
{
    let named = |t: JsonTree|
        json_str(t, "workspace_id"@) is Some && json_str(t, "workspace_id"@)->0.len() > 0;
    let id_of = |t: JsonTree| json_str(t, "workspace_id"@)->0;
    let id = |w: WorkspaceView| w.id;
    reveal(Seq::filter);
    let got = workspaces_in(list, panes);
    if list.len() > 0 {
        let rest = list.drop_last();
        let w = list.last();
        law_every_workspace_is_read(rest, panes);
        let before = workspaces_in(rest, panes);
        if named(w) {
            assert(got.map_values(id) =~= before.map_values(id).push(id_of(w)));
            assert(list.filter(named).map_values(id_of) =~= rest.filter(named).map_values(
                id_of,
            ).push(id_of(w)));
        }
    } else {
        assert(got.map_values(id) =~= list.filter(named).map_values(id_of));
    }
}

/// Each workspace that is read has the label and the focus of the entry that has its
/// id, and the directory that the panes tell of that id. One without a label has an
/// empty one, and only a `true` is a focus.
pub proof fn law_workspaces_are_read_as_they_are(list: Seq<JsonTree>, panes: Seq<JsonTree>, k: int)
    requires
        0 <= k < workspaces_in(list, panes).len(),
    ensures
        ({
            let w = workspaces_in(list, panes)[k];
            &&& w.id.len() > 0
            &&& w.cwd == cwd_in(panes, w.id)
            &&& exists|j: int|
                {
                    &&& 0 <= j < list.len()
                    &&& json_str(#[trigger] list[j], "workspace_id"@) == Some(w.id)
                    &&& json_str(list[j], "label"@) is Some ==> w.label == json_str(
                        list[j],
                        "label"@,
                    )->0
                    &&& json_str(list[j], "label"@) is None ==> w.label.len() == 0
                    &&& w.focused <==> json_field(list[j], "focused"@) == Some(
                        JsonTree::Bool(true),
                    )
                }
        }),
    decreases list.len(),
{
    if list.len() > 0 {
        let rest = list.drop_last();
        let before = workspaces_in(rest, panes);
        if k < before.len() {
            law_workspaces_are_read_as_they_are(rest, panes, k);
            let w = before[k];
            let j = choose|j: int|
                {
                    &&& 0 <= j < rest.len()
                    &&& json_str(#[trigger] rest[j], "workspace_id"@) == Some(w.id)
                    &&& json_str(rest[j], "label"@) is Some ==> w.label == json_str(
                        rest[j],
                        "label"@,
                    )->0
                    &&& json_str(rest[j], "label"@) is None ==> w.label.len() == 0
                    &&& w.focused <==> json_field(rest[j], "focused"@) == Some(
                        JsonTree::Bool(true),
                    )
                };
            assert(rest[j] == list[j]);
        } else {
            let j = list.len() - 1;
            assert(list[j] == list.last());
            assert(json_str(list[j], "workspace_id"@) == Some(
                workspaces_in(list, panes)[k].id,
            ));
        }
    }
}

/// A workspace is found by its id and, only where no workspace has that id, by its
/// label; in either case it is the first. It is not found where neither is there.
pub proof fn law_found_by_id_before_label(all: Seq<WorkspaceView>, key: Seq<char>)
    ensures
        match workspace_at(all, key) {
            Some(i) => {
                &&& 0 <= i < all.len()
                &&& all[i].id == key ==> forall|j: int| 0 <= j < i ==> (#[trigger] all[j]).id != key
                &&& all[i].id != key ==> {
                    &&& all[i].label == key
                    &&& forall|j: int| 0 <= j < all.len() ==> (#[trigger] all[j]).id != key
                    &&& forall|j: int| 0 <= j < i ==> (#[trigger] all[j]).label != key
                }
            },
            None => forall|j: int|
                0 <= j < all.len() ==> (#[trigger] all[j]).id != key && all[j].label != key,
        },
{
    let f = |w: WorkspaceView| w.id == key;
    let g = |w: WorkspaceView| w.label == key;
    lemma_first(all, f);
    lemma_first(all, g);
    let a = first_where(all, f);
    let b = first_where(all, g);
    assert forall|j: int| 0 <= j < a implies (#[trigger] all[j]).id != key by {
        assert(!f(all[j]));
    }
    assert forall|j: int| 0 <= j < b implies (#[trigger] all[j]).label != key by {
        assert(!g(all[j]));
    }
}

proof fn lemma_first<A>(v: Seq<A>, f: spec_fn(A) -> bool)
    ensures
        0 <= first_where(v, f) <= v.len(),
        first_where(v, f) < v.len() ==> f(v[first_where(v, f)]),
        forall|j: int| 0 <= j < first_where(v, f) ==> !f(#[trigger] v[j]),
    decreases v.len(),
{
    if v.len() > 0 && !f(v[0]) {
        lemma_first(v.skip(1), f);
        assert forall|j: int| 0 <= j < first_where(v, f) implies !f(#[trigger] v[j]) by {
            if j > 0 {
                assert(v.skip(1)[j - 1] == v[j]);
            }
        }
    }
}

/// The first of a list for which something holds: it holds there and nowhere
/// before, and the place is the length where it holds of none.
pub proof fn law_first_where<A>(v: Seq<A>, f: spec_fn(A) -> bool, i: int)
    ensures
        first_where(v, f) == i <==> {
            &&& 0 <= i <= v.len()
            &&& i < v.len() ==> f(v[i])
            &&& forall|j: int| 0 <= j < i ==> !f(#[trigger] v[j])
        },
{
    lemma_first(v, f);
    if 0 <= i <= v.len() && (i < v.len() ==> f(v[i])) && (forall|j: int|
        0 <= j < i ==> !f(#[trigger] v[j])) {
        lemma_first_where(v, f, i);
    }
}

// --- events ----------------------------------------------------------------------

/// The workspace of an event: the id in its data comes first, then that in the
/// workspace in its data, then that of the event itself. An event without data is
/// its own data.
pub proof fn law_workspace_of_an_event(ev: JsonTree)
    ensures
        ({
            let data = if json_field(ev, "data"@) is Some {
                json_field(ev, "data"@)->0
            } else {
                ev
            };
            let direct = json_str(data, "workspace_id"@);
            let within = json_field(data, "workspace"@);
            let got = event_workspace_of(ev);
            &&& direct is Some ==> got == direct
            &&& direct is None && within is Some && json_str(within->0, "workspace_id"@) is Some
                ==> got == json_str(within->0, "workspace_id"@)
            &&& direct is None && (within is None || json_str(within->0, "workspace_id"@) is None)
                ==> got == json_str(ev, "workspace_id"@)
        }),
{
}

/// The workspace that an event names goes before the one that is given; that one
/// counts where there is no event, or one that is no JSON or names none, and it
/// counts only if it is not empty.
pub proof fn law_event_goes_before_environment(
    event: Option<Seq<char>>,
    given: Option<Seq<char>>,
)
    ensures
        ({
            let named = event is Some && json_parse(event->0) is Ok && event_workspace_of(
                json_parse(event->0)->Ok_0,
            ) is Some;
            &&& named ==> called_for(event, given) == event_workspace_of(
                json_parse(event->0)->Ok_0,
            )
            &&& !named && given is Some && given->0.len() > 0 ==> called_for(event, given) == given
            &&& !named && (given is None || given->0.len() == 0) ==> called_for(event, given) is None
        }),
{
}

// --- panes -----------------------------------------------------------------------

/// The agent of a pane: where several entries are for that pane, the last of them
/// counts. Its session is the `value` of its `agent_session`, where that is there.
pub proof fn law_last_agent_counts(agents: Seq<JsonTree>, pane: Seq<char>, i: int)
    requires
        pane.len() > 0,
        -1 <= i < agents.len(),
        forall|j: int|
            i < j < agents.len() ==> json_str(#[trigger] agents[j], "pane_id"@) != Some(pane),
        i >= 0 ==> json_str(agents[i], "pane_id"@) == Some(pane),
    ensures
        i < 0 ==> agent_in(agents, pane) is None,
        i >= 0 ==> {
            let (kind, session) = agent_in(agents, pane)->0;
            let told = json_field(agents[i], "agent_session"@);
            &&& agent_in(agents, pane) is Some
            &&& json_str(agents[i], "agent"@) is Some ==> kind == json_str(agents[i], "agent"@)->0
            &&& json_str(agents[i], "agent"@) is None ==> kind.len() == 0
            &&& told is Some ==> session == json_str(told->0, "value"@)
            &&& told is None ==> session is None
        },
    decreases agents.len(),
{
    if i < agents.len() - 1 {
        let rest = agents.drop_last();
        assert(agents[agents.len() - 1] == agents.last());
        assert(json_str(agents.last(), "pane_id"@) != Some(pane));
        assert forall|j: int| i < j < rest.len() implies json_str(#[trigger] rest[j], "pane_id"@)
            != Some(pane) by {
            assert(rest[j] == agents[j]);
        }
        law_last_agent_counts(rest, pane, i);
    }
}

/// The panes that are read: every entry with an id, in their order, and no other.
pub proof fn law_every_pane_is_read(list: Seq<JsonTree>, agents: Seq<JsonTree>)
    ensures
        panes_in(list, agents).map_values(|p: PaneView| p.id) == list.filter(
            |t: JsonTree| json_str(t, "pane_id"@) is Some && json_str(t, "pane_id"@)->0.len() > 0,
        ).map_values(|t: JsonTree| json_str(t, "pane_id"@)->0),
    decreases list.len(),
{
    let named = |t: JsonTree|
        json_str(t, "pane_id"@) is Some && json_str(t, "pane_id"@)->0.len() > 0;
    let id_of = |t: JsonTree| json_str(t, "pane_id"@)->0;
    let id = |p: PaneView| p.id;
    reveal(Seq::filter);
    let got = panes_in(list, agents);
    if list.len() > 0 {
        let rest = list.drop_last();
        let p = list.last();
        law_every_pane_is_read(rest, agents);
        let before = panes_in(rest, agents);
        if named(p) {
            assert(got.map_values(id) =~= before.map_values(id).push(id_of(p)));
            assert(list.filter(named).map_values(id_of) =~= rest.filter(named).map_values(
                id_of,
            ).push(id_of(p)));
        }
    } else {
        assert(got.map_values(id) =~= list.filter(named).map_values(id_of));
    }
}

/// Each pane that is read is in the workspace of the entry that has its id, and the
/// first with that id has the agent that is listed for it; a later one has none.
pub proof fn law_panes_are_read_as_they_are(list: Seq<JsonTree>, agents: Seq<JsonTree>, k: int)
    requires
        0 <= k < panes_in(list, agents).len(),
    ensures
        ({
            let all = panes_in(list, agents);
            let p = all[k];
            let repeated = exists|j: int| 0 <= j < k && (#[trigger] all[j]).id == p.id;
            let (agent, session) = agent_in(agents, p.id)->0;
            &&& p.id.len() > 0
            &&& exists|j: int|
                {
                    &&& 0 <= j < list.len()
                    &&& json_str(#[trigger] list[j], "pane_id"@) == Some(p.id)
                    &&& json_str(list[j], "workspace_id"@) is Some ==> p.workspace_id == json_str(
                        list[j],
                        "workspace_id"@,
                    )->0
                    &&& json_str(list[j], "workspace_id"@) is None ==> p.workspace_id.len() == 0
                }
            &&& repeated || agent_in(agents, p.id) is None ==> p.agent is None && p.session is None
            &&& !repeated && agent_in(agents, p.id) is Some ==> p.agent == Some(
                agent,
            ) && p.session == session
        }),
    decreases list.len(),
{
    if list.len() > 0 {
        let rest = list.drop_last();
        let before = panes_in(rest, agents);
        let all = panes_in(list, agents);
        assert forall|j: int| 0 <= j < before.len() implies all[j] == #[trigger] before[j] by {}
        if k < before.len() {
            law_panes_are_read_as_they_are(rest, agents, k);
            let p = before[k];
            let j = choose|j: int|
                {
                    &&& 0 <= j < rest.len()
                    &&& json_str(#[trigger] rest[j], "pane_id"@) == Some(p.id)
                    &&& json_str(rest[j], "workspace_id"@) is Some ==> p.workspace_id == json_str(
                        rest[j],
                        "workspace_id"@,
                    )->0
                    &&& json_str(rest[j], "workspace_id"@) is None ==> p.workspace_id.len() == 0
                };
            assert(rest[j] == list[j]);
            if exists|j: int| 0 <= j < k && (#[trigger] all[j]).id == p.id {
                let j = choose|j: int| 0 <= j < k && (#[trigger] all[j]).id == p.id;
                assert(before[j].id == p.id);
            }
            if exists|j: int| 0 <= j < k && (#[trigger] before[j]).id == p.id {
                let j = choose|j: int| 0 <= j < k && (#[trigger] before[j]).id == p.id;
                assert(all[j].id == p.id);
            }
        } else {
            let p = all[k];
            let j = list.len() - 1;
            assert(list[j] == list.last());
            assert(json_str(list[j], "pane_id"@) == Some(p.id));
            assert(lists_pane(before, p.id) <==> exists|j: int|
                0 <= j < k && (#[trigger] all[j]).id == p.id) by {
                if lists_pane(before, p.id) {
                    let i = choose|i: int| 0 <= i < before.len() && (#[trigger] before[i]).id == p.id;
                    assert(all[i].id == p.id);
                }
                if exists|j: int| 0 <= j < k && (#[trigger] all[j]).id == p.id {
                    let i = choose|i: int| 0 <= i < k && (#[trigger] all[i]).id == p.id;
                    assert(before[i].id == p.id);
                }
            }
        }
    }
}

/// A target without a colon is a session, and is pinned as it is, without a note. A
/// target with one is a pane: what is pinned is the session of the first pane with
/// that id, with its agent and its workspace as the note; without such a pane, or
/// without a session in it, nothing is.
pub proof fn law_session_to_pin(panes: Seq<PaneView>, target: Seq<char>, i: int)
    requires
        0 <= i <= panes.len(),
        forall|j: int| 0 <= j < i ==> (#[trigger] panes[j]).id != target,
        i < panes.len() ==> panes[i].id == target,
    ensures
        ({
            let got = session_to_pin(panes, target);
            let p = panes[i];
            &&& !target.contains(':') ==> got is Ok && got->Ok_0.0 == target
                && got->Ok_0.1.len() == 0
            &&& target.contains(':') && i == panes.len() ==> got == Err::<
                (Seq<char>, Seq<char>),
                Seq<char>,
            >("no pane "@ + debug_text(target))
            &&& target.contains(':') && i < panes.len() && p.session is None ==> got == Err::<
                (Seq<char>, Seq<char>),
                Seq<char>,
            >("pane "@ + target + " has no agent session to pin"@)
            &&& target.contains(':') && i < panes.len() && p.session is Some ==> got is Ok
                && Some(got->Ok_0.0) == p.session
            &&& target.contains(':') && i < panes.len() && p.session is Some && p.agent is Some
                ==> got->Ok_0.1 == p.agent->0 + " in "@ + p.workspace_id
            &&& target.contains(':') && i < panes.len() && p.session is Some && p.agent is None
                ==> got->Ok_0.1 == " in "@ + p.workspace_id
        }),
{
    reveal_strlit(":");
    assert(":"@ =~= seq![':']);
    law_parts_of_a_text(target, ":"@);
    if target.contains(':') {
        let k = choose|k: int| 0 <= k < target.len() && target[k] == ':';
        assert(target.subrange(k, k + 1) =~= ":"@);
        assert(stands_at(target, ":"@, k));
    }
    if holds_part(target, ":"@) {
        let k = choose|k: int| stands_at(target, ":"@, k);
        assert(target.subrange(k, k + 1)[0] == ':');
        assert(target[k] == ':');
    }
    let f = |p: PaneView| p.id == target;
    lemma_first_where(panes, f, i);
    assert(seq![] + " in "@ + panes[i].workspace_id =~= " in "@ + panes[i].workspace_id);
}

/// A pane is found by its id alone, the first that has it.
pub proof fn law_found_pane(panes: Seq<PaneView>, id: Seq<char>)
    ensures
        match pane_at(panes, id) {
            Some(i) => {
                &&& 0 <= i < panes.len()
                &&& panes[i].id == id
                &&& forall|j: int| 0 <= j < i ==> (#[trigger] panes[j]).id != id
            },
            None => forall|j: int| 0 <= j < panes.len() ==> (#[trigger] panes[j]).id != id,
        },
{
    let f = |p: PaneView| p.id == id;
    lemma_first(panes, f);
    let a = first_where(panes, f);
    assert forall|j: int| 0 <= j < a implies (#[trigger] panes[j]).id != id by {
        assert(!f(panes[j]));
    }
}

/// The workspace in focus is the first that has it.
pub proof fn law_workspace_in_focus(all: Seq<WorkspaceView>)
    ensures
        match focused_at(all) {
            Some(i) => {
                &&& 0 <= i < all.len()
                &&& all[i].focused
                &&& forall|j: int| 0 <= j < i ==> !(#[trigger] all[j]).focused
            },
            None => forall|j: int| 0 <= j < all.len() ==> !(#[trigger] all[j]).focused,
        },
{
    let f = |w: WorkspaceView| w.focused;
    lemma_first(all, f);
    let a = first_where(all, f);
    assert forall|j: int| 0 <= j < a implies !(#[trigger] all[j]).focused by {
        assert(!f(all[j]));
    }
}

} // verus!
