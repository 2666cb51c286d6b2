//! What Herdr's command line tool answers: workspaces, panes and failures.
use crate::json::{
    json_field, json_list, json_parse, json_parse_bytes, json_str, json_str_or, list_trees,
    parse_json, parse_json_bytes, Json, JsonTree,
};
use crate::text::{
    cat, cat3, cat4, cat5, contains, debug_text, holds_part, join, joined, opt_owned, opt_str,
    opt_text, quoted, same, texts, trim, trimmed,
};
use vstd::prelude::*;

verus! {

/// A workspace of Herdr.
#[derive(Debug)]
pub struct Workspace {
    pub id: String,
    pub label: String,
    /// The directory of its first pane that has one.
    pub cwd: String,
    pub focused: bool,
}

/// A pane of Herdr.
#[derive(Debug)]
pub struct Pane {
    pub id: String,
    pub workspace_id: String,
    /// The kind of agent in the pane.
    pub agent: Option<String>,
    /// The session of that agent.
    pub session: Option<String>,
}

/// What a [`Workspace`] holds.
pub struct WorkspaceView {
    pub id: Seq<char>,
    pub label: Seq<char>,
    pub cwd: Seq<char>,
    pub focused: bool,
}

/// What a [`Pane`] holds.
pub struct PaneView {
    pub id: Seq<char>,
    pub workspace_id: Seq<char>,
    pub agent: Option<Seq<char>>,
    pub session: Option<Seq<char>>,
}

impl Workspace {
    pub open spec fn view(&self) -> WorkspaceView {
        WorkspaceView { id: self.id@, label: self.label@, cwd: self.cwd@, focused: self.focused }
    }

    /// A copy of the workspace.
    pub fn copy(&self) -> (r: Workspace)
        ensures
            r@ == self@,
    {
        Workspace {
            id: self.id.clone(),
            label: self.label.clone(),
            cwd: self.cwd.clone(),
            focused: self.focused,
        }
    }
}

impl Pane {
    pub open spec fn view(&self) -> PaneView {
        PaneView {
            id: self.id@,
            workspace_id: self.workspace_id@,
            agent: opt_text(self.agent),
            session: opt_text(self.session),
        }
    }
}

/// The workspaces of a list.
pub open spec fn workspace_views(v: Seq<Workspace>) -> Seq<WorkspaceView> {
    v.map_values(|w: Workspace| w@)
}

/// The panes of a list.
pub open spec fn pane_views(v: Seq<Pane>) -> Seq<PaneView> {
    v.map_values(|p: Pane| p@)
}

// --- answers ---------------------------------------------------------------------

/// The result in an answer, or the whole answer where it has none.
pub open spec fn result_in(t: JsonTree) -> JsonTree {
    match json_field(t, "result"@) {
        Some(r) => r,
        None => t,
    }
}

/// The result in an answer, or the whole answer where it has none.
pub fn result_of(j: &Json) -> (r: &Json)
    ensures
        r@ == result_in(j@),
{
    match j.field("result") {
        Some(r) => r,
        None => j,
    }
}

/// Reads the answer to a call of Herdr.
pub fn read_answer(args: &Vec<String>, output: &Vec<u8>) -> (r: Result<Json, String>)
    ensures
        match (r, json_parse_bytes(output@)) {
            (Ok(j), Ok(t)) => j@ == t,
            (Err(m), Err(e)) => m@ == "`herdr "@ + joined(texts(args@), " "@) + "`: bad JSON: "@
                + e,
            _ => false,
        },
{
    match parse_json_bytes(output) {
        Ok(j) => Ok(j),
        Err(e) => Err(
            cat4("`herdr ", join(args, " ").as_str(), "`: bad JSON: ", e.as_str()),
        ),
    }
}

/// The message for a call of Herdr that could not be made.
pub fn not_run_message(herdr: &str, args: &Vec<String>, reason: &str) -> (r: String)
    ensures
        r@ == "run "@ + herdr@ + " "@ + joined(texts(args@), " "@) + ": "@ + reason@,
{
    let mut out = cat4("run ", herdr, " ", join(args, " ").as_str());
    out.append(": ");
    out.append(reason);
    out
}

/// The message for a call of Herdr that failed, with what it wrote.
pub fn failed_message(args: &Vec<String>, stdout: &str, stderr: &str) -> (r: String)
    ensures
        r@ == "`herdr "@ + joined(texts(args@), " "@) + "` failed: "@ + trimmed(stdout@) + trimmed(
            stderr@,
        ),
{
    cat5(
        "`herdr ",
        join(args, " ").as_str(),
        "` failed: ",
        trim(stdout).as_str(),
        trim(stderr).as_str(),
    )
}

// --- workspaces ------------------------------------------------------------------

/// Whether a pane tells the directory of a workspace.
pub open spec fn tells_cwd(pane: JsonTree, ws: Seq<char>) -> bool {
    ws.len() > 0 && json_str_or(pane, "workspace_id"@) == ws && json_str_or(pane, "cwd"@).len() > 0
}

/// The directory of a workspace: that of its first pane that has one.
pub open spec fn cwd_in(panes: Seq<JsonTree>, ws: Seq<char>) -> Seq<char>
    decreases panes.len(),
{
    if panes.len() == 0 {
        seq![]
    } else if tells_cwd(panes[0], ws) {
        json_str_or(panes[0], "cwd"@)
    } else {
        cwd_in(panes.skip(1), ws)
    }
}

/// Whether a workspace has the focus.
pub open spec fn has_focus(w: JsonTree) -> bool {
    match json_field(w, "focused"@) {
        Some(JsonTree::Bool(b)) => b,
        _ => false,
    }
}

/// The workspaces of a list; one without an id is left out.
pub open spec fn workspaces_in(list: Seq<JsonTree>, panes: Seq<JsonTree>) -> Seq<WorkspaceView>
    decreases list.len(),
{
    if list.len() == 0 {
        seq![]
    } else {
        let rest = workspaces_in(list.drop_last(), panes);
        let w = list.last();
        let id = json_str_or(w, "workspace_id"@);
        if id.len() == 0 {
            rest
        } else {
            rest.push(
                WorkspaceView {
                    id,
                    label: json_str_or(w, "label"@),
                    cwd: cwd_in(panes, id),
                    focused: has_focus(w),
                },
            )
        }
    }
}

/// The directory of a workspace, from the list of panes. Herdr tells the
/// directory of a pane, not of a workspace.
pub fn pane_cwd(panes: &Json, ws: &str) -> (r: String)
    ensures
        r@ == cwd_in(json_list(panes@, "panes"@), ws@),
{
    let ghost all = json_list(panes@, "panes"@);
    let none = String::new();
    assert(none@ =~= seq![]);
    match panes.list("panes") {
        None => none,
        Some(list) => {
            let mut i: usize = 0;
            assert(all.skip(0) =~= all);
            while i < list.len()
                invariant
                    all == list_trees(list@),
                    i <= list@.len(),
                    cwd_in(all, ws@) == cwd_in(all.skip(i as int), ws@),
                    all == json_list(panes@, "panes"@),
                decreases list@.len() - i,
            {
                let p = &list[i];
                proof {
                    assert(all.skip(i as int)[0] == p@);
                    assert(all.skip(i as int).skip(1) =~= all.skip(i + 1));
                }
                let cwd = p.str_or("cwd");
                if !ws.is_empty() && same(p.str_or("workspace_id").as_str(), ws)
                    && !cwd.as_str().is_empty() {
                    return cwd;
                }
                i += 1;
            }
            none
        },
    }
}

/// The workspaces that Herdr lists, with their directories from the list of
/// panes.
pub fn all_workspaces(list: &Json, panes: &Json) -> (r: Vec<Workspace>)
    ensures
        workspace_views(r@) == workspaces_in(
            json_list(list@, "workspaces"@),
            json_list(panes@, "panes"@),
        ),
{
    let mut out: Vec<Workspace> = Vec::new();
    let ghost all = json_list(list@, "workspaces"@);
    let ghost ps = json_list(panes@, "panes"@);
    assert(workspace_views(out@) =~= seq![]);
    match list.list("workspaces") {
        None => {},
        Some(v) => {
            let mut i: usize = 0;
            while i < v.len()
                invariant
                    all == list_trees(v@),
                    ps == json_list(panes@, "panes"@),
                    i <= v@.len(),
                    workspace_views(out@) == workspaces_in(all.take(i as int), ps),
                decreases v@.len() - i,
            {
                let w = &v[i];
                proof {
                    assert(all.take(i + 1).drop_last() =~= all.take(i as int));
                    assert(all.take(i + 1).last() == w@);
                }
                let id = w.str_or("workspace_id");
                if !id.as_str().is_empty() {
                    let cwd = pane_cwd(panes, id.as_str());
                    let focused = match w.field("focused") {
                        Some(Json::Bool(b)) => *b,
                        _ => false,
                    };
                    let x = Workspace { id, label: w.str_or("label"), cwd, focused };
                    let ghost earlier = out@;
                    out.push(x);
                    assert(workspace_views(out@) =~= workspace_views(earlier).push(x@));
                }
                i += 1;
            }
            assert(all.take(i as int) =~= all);
        },
    }
    out
}

/// The first workspace with that id, else the first with that label.
pub open spec fn workspace_at(all: Seq<WorkspaceView>, key: Seq<char>) -> Option<int> {
    let by_id = first_where(all, |w: WorkspaceView| w.id == key);
    if by_id < all.len() {
        Some(by_id)
    } else {
        let by_label = first_where(all, |w: WorkspaceView| w.label == key);
        if by_label < all.len() {
            Some(by_label)
        } else {
            None
        }
    }
}

/// The first position at which `f` holds, or the length.
pub open spec fn first_where<A>(v: Seq<A>, f: spec_fn(A) -> bool) -> int
    decreases v.len(),
{
    if v.len() == 0 {
        0
    } else if f(v[0]) {
        0
    } else {
        1 + first_where(v.skip(1), f)
    }
}

pub proof fn lemma_first_where<A>(v: Seq<A>, f: spec_fn(A) -> bool, i: int)
    requires
        0 <= i <= v.len(),
        i < v.len() ==> f(v[i]),
        forall|j: int| 0 <= j < i ==> !f(#[trigger] v[j]),
    ensures
        first_where(v, f) == i,
    decreases v.len(),
{
    if i > 0 {
        assert(!f(v[0]));
        assert forall|j: int| 0 <= j < i - 1 implies !f(#[trigger] v.skip(1)[j]) by {
            assert(!f(v[j + 1]));
        }
        lemma_first_where(v.skip(1), f, i - 1);
    }
}

fn position(all: &Vec<Workspace>, key: &str, by_label: bool) -> (r: usize)
    ensures
        r == first_where(
            workspace_views(all@),
            if by_label {
                |w: WorkspaceView| w.label == key@
            } else {
                |w: WorkspaceView| w.id == key@
            },
        ),
        r <= all@.len(),
{
    let ghost f = if by_label {
        |w: WorkspaceView| w.label == key@
    } else {
        |w: WorkspaceView| w.id == key@
    };
    let ghost views = workspace_views(all@);
    let mut i: usize = 0;
    while i < all.len()
        invariant
            views == workspace_views(all@),
            f == if by_label {
                |w: WorkspaceView| w.label == key@
            } else {
                |w: WorkspaceView| w.id == key@
            },
            i <= all@.len(),
            forall|j: int| 0 <= j < i ==> !f(#[trigger] views[j]),
        decreases all@.len() - i,
    {
        let w = &all[i];
        assert(views[i as int] == w@);
        let hit = if by_label {
            same(w.label.as_str(), key)
        } else {
            same(w.id.as_str(), key)
        };
        if hit {
            proof {
                lemma_first_where(views, f, i as int);
            }
            return i;
        }
        i += 1;
    }
    proof {
        lemma_first_where(views, f, i as int);
    }
    i
}

/// The workspace with that id, else with that label.
pub fn find_workspace<'a>(all: &'a Vec<Workspace>, key: &str) -> (r: Result<&'a Workspace, String>)
    ensures
        match (r, workspace_at(workspace_views(all@), key@)) {
            (Ok(w), Some(i)) => 0 <= i < all@.len() && *w == all@[i],
            (Err(m), None) => m@ == "no workspace with id or label "@ + debug_text(key@),
            _ => false,
        },
{
    let i: usize = position(all, key, false);
    if i < all.len() {
        return Ok(&all[i]);
    }
    let j: usize = position(all, key, true);
    if j < all.len() {
        Ok(&all[j])
    } else {
        Err(cat("no workspace with id or label ", quoted(key).as_str()))
    }
}

/// The workspace that an event is about.
pub open spec fn event_workspace_of(ev: JsonTree) -> Option<Seq<char>> {
    let data = match json_field(ev, "data"@) {
        Some(d) => d,
        None => ev,
    };
    let inner = match json_field(data, "workspace"@) {
        Some(w) => json_str(w, "workspace_id"@),
        None => None,
    };
    if json_str(data, "workspace_id"@) is Some {
        json_str(data, "workspace_id"@)
    } else if inner is Some {
        inner
    } else {
        json_str(ev, "workspace_id"@)
    }
}

/// The workspace that an event is about.
pub fn event_workspace(ev: &Json) -> (r: Option<String>)
    ensures
        opt_text(r) == event_workspace_of(ev@),
{
    let data = match ev.field("data") {
        Some(d) => d,
        None => ev,
    };
    match data.str("workspace_id") {
        Some(id) => return Some(id.to_owned()),
        None => {},
    }
    match data.field("workspace") {
        Some(w) => match w.str("workspace_id") {
            Some(id) => return Some(id.to_owned()),
            None => {},
        },
        None => {},
    }
    opt_owned(ev.str("workspace_id"))
}

/// The workspace that the plugin was called for: from the event, where it is
/// JSON and names one, else from the environment.
pub open spec fn called_for(event: Option<Seq<char>>, given: Option<Seq<char>>) -> Option<
    Seq<char>,
> {
    let from_event = match event {
        Some(text) => match json_parse(text) {
            Ok(ev) => event_workspace_of(ev),
            Err(_) => None,
        },
        None => None,
    };
    match (from_event, given) {
        (Some(id), _) => Some(id),
        (None, Some(id)) if id.len() > 0 => Some(id),
        _ => None,
    }
}

/// The workspace that the plugin was called for, if anything names one. Plain
/// use of the command line falls back to the one in focus.
pub fn named_workspace(event: Option<&str>, given: Option<&str>) -> (r: Option<String>)
    ensures
        opt_text(r) == called_for(opt_str(event), opt_str(given)),
{
    match event {
        Some(text) => match parse_json(text) {
            Ok(ev) => match event_workspace(&ev) {
                Some(id) => return Some(id),
                None => {},
            },
            Err(_) => {},
        },
        None => {},
    }
    match given {
        Some(id) => if id.is_empty() {
            None
        } else {
            Some(id.to_owned())
        },
        None => None,
    }
}

/// The first workspace in focus.
pub open spec fn focused_at(all: Seq<WorkspaceView>) -> Option<int> {
    let i = first_where(all, |w: WorkspaceView| w.focused);
    if i < all.len() {
        Some(i)
    } else {
        None
    }
}

/// The id of the first workspace in focus.
pub fn focused_workspace(all: &Vec<Workspace>) -> (r: Result<String, String>)
    ensures
        match (r, focused_at(workspace_views(all@))) {
            (Ok(id), Some(i)) => 0 <= i < all@.len() && id@ == all@[i].id@,
            (Err(m), None) => m@ == "no focused workspace"@,
            _ => false,
        },
{
    let ghost f = |w: WorkspaceView| w.focused;
    let ghost views = workspace_views(all@);
    let mut i: usize = 0;
    while i < all.len()
        invariant
            views == workspace_views(all@),
            f == |w: WorkspaceView| w.focused,
            i <= all@.len(),
            forall|j: int| 0 <= j < i ==> !f(#[trigger] views[j]),
        decreases all@.len() - i,
    {
        assert(views[i as int] == all@[i as int]@);
        if all[i].focused {
            proof {
                lemma_first_where(views, f, i as int);
            }
            return Ok(all[i].id.clone());
        }
        i += 1;
    }
    proof {
        lemma_first_where(views, f, i as int);
    }
    Err("no focused workspace".to_owned())
}

// --- panes -----------------------------------------------------------------------

/// The session of an agent.
pub open spec fn agent_session(a: JsonTree) -> Option<Seq<char>> {
    match json_field(a, "agent_session"@) {
        Some(s) => json_str(s, "value"@),
        None => None,
    }
}

/// The kind and the session of the agent in a pane; where several are listed for
/// it, those of the last.
pub open spec fn agent_in(agents: Seq<JsonTree>, pane: Seq<char>) -> Option<
    (Seq<char>, Option<Seq<char>>),
>
    decreases agents.len(),
{
    if agents.len() == 0 {
        None
    } else if json_str_or(agents.last(), "pane_id"@) == pane {
        Some((json_str_or(agents.last(), "agent"@), agent_session(agents.last())))
    } else {
        agent_in(agents.drop_last(), pane)
    }
}

/// Whether a pane of that id is among the panes.
pub open spec fn lists_pane(panes: Seq<PaneView>, id: Seq<char>) -> bool {
    exists|i: int| 0 <= i < panes.len() && (#[trigger] panes[i]).id == id
}

/// The panes of a list, each with its agent; one without an id is left out, and
/// of two with the same id only the first has the agent.
pub open spec fn panes_in(list: Seq<JsonTree>, agents: Seq<JsonTree>) -> Seq<PaneView>
    decreases list.len(),
{
    if list.len() == 0 {
        seq![]
    } else {
        let rest = panes_in(list.drop_last(), agents);
        let p = list.last();
        let id = json_str_or(p, "pane_id"@);
        let found = if lists_pane(rest, id) {
            None
        } else {
            agent_in(agents, id)
        };
        if id.len() == 0 {
            rest
        } else {
            rest.push(
                PaneView {
                    id,
                    workspace_id: json_str_or(p, "workspace_id"@),
                    agent: match found {
                        Some((kind, _)) => Some(kind),
                        None => None,
                    },
                    session: match found {
                        Some((_, session)) => session,
                        None => None,
                    },
                },
            )
        }
    }
}

fn find_agent(agents: &Json, pane: &str) -> (r: Option<(String, Option<String>)>)
    ensures
        match (r, agent_in(json_list(agents@, "agents"@), pane@)) {
            (Some((kind, session)), Some((k, s))) => kind@ == k && opt_text(session) == s,
            (None, None) => true,
            _ => false,
        },
{
    let ghost all = json_list(agents@, "agents"@);
    match agents.list("agents") {
        None => None,
        Some(v) => {
            let mut n: usize = v.len();
            assert(all.take(n as int) =~= all);
            while n > 0
                invariant
                    all == list_trees(v@),
                    all == json_list(agents@, "agents"@),
                    n <= v@.len(),
                    agent_in(all, pane@) == agent_in(all.take(n as int), pane@),
                decreases n,
            {
                let a = &v[n - 1];
                proof {
                    assert(all.take(n as int).last() == a@);
                    assert(all.take(n as int).drop_last() =~= all.take(n - 1));
                }
                if same(a.str_or("pane_id").as_str(), pane) {
                    let session = match a.field("agent_session") {
                        Some(s) => opt_owned(s.str("value")),
                        None => None,
                    };
                    return Some((a.str_or("agent"), session));
                }
                n -= 1;
            }
            None
        },
    }
}

fn has_pane(panes: &Vec<Pane>, id: &str) -> (r: bool)
    ensures
        r == lists_pane(pane_views(panes@), id@),
{
    let ghost views = pane_views(panes@);
    let mut i: usize = 0;
    while i < panes.len()
        invariant
            views == pane_views(panes@),
            i <= panes@.len(),
            forall|j: int| 0 <= j < i ==> (#[trigger] views[j]).id != id@,
        decreases panes@.len() - i,
    {
        assert(views[i as int] == panes@[i as int]@);
        if same(panes[i].id.as_str(), id) {
            return true;
        }
        i += 1;
    }
    false
}

/// The panes that Herdr lists, with the agents that it lists for them.
pub fn all_panes(panes: &Json, agents: &Json) -> (r: Vec<Pane>)
    ensures
        pane_views(r@) == panes_in(
            json_list(panes@, "panes"@),
            json_list(agents@, "agents"@),
        ),
{
    let mut out: Vec<Pane> = Vec::new();
    let ghost all = json_list(panes@, "panes"@);
    let ghost ags = json_list(agents@, "agents"@);
    assert(pane_views(out@) =~= seq![]);
    match panes.list("panes") {
        None => {},
        Some(v) => {
            let mut i: usize = 0;
            while i < v.len()
                invariant
                    all == list_trees(v@),
                    ags == json_list(agents@, "agents"@),
                    i <= v@.len(),
                    pane_views(out@) == panes_in(all.take(i as int), ags),
                decreases v@.len() - i,
            {
                let p = &v[i];
                proof {
                    assert(all.take(i + 1).drop_last() =~= all.take(i as int));
                    assert(all.take(i + 1).last() == p@);
                }
                let id = p.str_or("pane_id");
                if !id.as_str().is_empty() {
                    let found = if has_pane(&out, id.as_str()) {
                        None
                    } else {
                        find_agent(agents, id.as_str())
                    };
                    let (agent, session) = match found {
                        Some((kind, session)) => (Some(kind), session),
                        None => (None, None),
                    };
                    let x = Pane { id, workspace_id: p.str_or("workspace_id"), agent, session };
                    let ghost earlier = out@;
                    out.push(x);
                    assert(pane_views(out@) =~= pane_views(earlier).push(x@));
                }
                i += 1;
            }
            assert(all.take(i as int) =~= all);
        },
    }
    out
}

/// The first pane with that id.
pub open spec fn pane_at(panes: Seq<PaneView>, id: Seq<char>) -> Option<int> {
    let i = first_where(panes, |p: PaneView| p.id == id);
    if i < panes.len() {
        Some(i)
    } else {
        None
    }
}

/// The pane with that id.
pub fn find_pane<'a>(panes: &'a Vec<Pane>, id: &str) -> (r: Result<&'a Pane, String>)
    ensures
        match (r, pane_at(pane_views(panes@), id@)) {
            (Ok(p), Some(i)) => 0 <= i < panes@.len() && *p == panes@[i],
            (Err(m), None) => m@ == "no pane "@ + debug_text(id@),
            _ => false,
        },
{
    let ghost f = |p: PaneView| p.id == id@;
    let ghost views = pane_views(panes@);
    let mut i: usize = 0;
    while i < panes.len()
        invariant
            views == pane_views(panes@),
            f == |p: PaneView| p.id == id@,
            i <= panes@.len(),
            forall|j: int| 0 <= j < i ==> !f(#[trigger] views[j]),
        decreases panes@.len() - i,
    {
        assert(views[i as int] == panes@[i as int]@);
        if same(panes[i].id.as_str(), id) {
            proof {
                lemma_first_where(views, f, i as int);
            }
            return Ok(&panes[i]);
        }
        i += 1;
    }
    proof {
        lemma_first_where(views, f, i as int);
    }
    Err(cat("no pane ", quoted(id).as_str()))
}

/// Whether a target of an agent rule is a pane and not a session.
pub open spec fn is_pane_id(target: Seq<char>) -> bool {
    holds_part(target, ":"@)
}

/// Whether a target of an agent rule is a pane and not a session.
pub fn names_pane(target: &str) -> (r: bool)
    ensures
        r == is_pane_id(target@),
{
    contains(target, ":")
}

/// The session to pin for a target, with a note on where it runs.
pub open spec fn session_to_pin(panes: Seq<PaneView>, target: Seq<char>) -> Result<
    (Seq<char>, Seq<char>),
    Seq<char>,
> {
    if is_pane_id(target) {
        let i = first_where(panes, |p: PaneView| p.id == target);
        if i >= panes.len() {
            Err("no pane "@ + debug_text(target))
        } else {
            match panes[i].session {
                None => Err("pane "@ + target + " has no agent session to pin"@),
                Some(s) => Ok(
                    (
                        s,
                        (match panes[i].agent {
                            Some(a) => a,
                            None => seq![],
                        }) + " in "@ + panes[i].workspace_id,
                    ),
                ),
            }
        }
    } else {
        Ok((target, seq![]))
    }
}

/// The session to pin for a target, with a note on where it runs. A target with a
/// colon is a pane; any other is a session.
pub fn resolve_session(panes: &Vec<Pane>, target: &str) -> (r: Result<(String, String), String>)
    ensures
        match (r, session_to_pin(pane_views(panes@), target@)) {
            (Ok((s, note)), Ok((want, want_note))) => s@ == want && note@ == want_note,
            (Err(m), Err(want)) => m@ == want,
            _ => false,
        },
{
    if names_pane(target) {
        let p = match find_pane(panes, target) {
            Ok(p) => p,
            Err(m) => return Err(m),
        };
        match &p.session {
            None => Err(cat3("pane ", target, " has no agent session to pin")),
            Some(s) => {
                let agent = match &p.agent {
                    Some(a) => a.clone(),
                    None => {
                        let none = String::new();
                        assert(none@ =~= seq![]);
                        none
                    },
                };
                Ok((s.clone(), cat3(agent.as_str(), " in ", p.workspace_id.as_str())))
            },
        }
    } else {
        let none = String::new();
        assert(none@ =~= seq![]);
        Ok((target.to_owned(), none))
    }
}

} // verus!
