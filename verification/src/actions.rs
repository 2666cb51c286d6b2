//! What the commands decide: which colours a workspace gets, what is written for
//! it, and what is remembered.
use crate::aside::{custom_entries, held_of, uncovered};
use crate::config::{
    config_of, law_accepted_colours_are_strict, law_palettes_are_finite, law_palettes_hold_tokens,
    ConfigView, PluginConfig,
};
use crate::herdr::{
    find_workspace, pane_views, workspace_at, workspace_views, Pane, PaneView, Workspace,
    WorkspaceView,
};
use crate::keymap::{lemma_sorted, sorted_keys, text_map, KeyMap};
use crate::memo::{read_text, MemoView};
use crate::own::Own;
use crate::palette::{effective_of, hex_colour, pane_bg_of, theme_tokens, window_bg_of, Palette};
use crate::plan::{
    any_managed, child2, cleared, edited, edited_text, plan_full, plan_on, planned, text_edited,
    token_keys, token_pairs, Edited, EditError, Fault, Plan, PlanView,
};
use crate::plan_series::{
    comes_back, fits, gone_on, law_clear_undoes_every_edit_of_a_document,
    law_repeating_changes_nothing, plan_after, series,
};
use crate::plan_trail::Edit;
use crate::select::{
    accents, agent_palette, assign, choice, choice_map, choosable, choose_palette,
    law_chosen_palettes_are_defined, law_pinned_palettes_are_defined, mode_of, pane_choices,
    session_choice, sidebar_spec, text_mode, workspace_choices, ThemeMode, Via,
};
use crate::state::{blank_state, State, StateView};
use crate::sweep::{key_list, pending, pending_tags, retain_live, tag_views, Tag, TagView};
use crate::text::{
    as_opt_str, cat3, cat5, debug_text, decimal, list_copy, number, opt_owned, opt_str, opt_text,
    quoted, texts,
};
use crate::toml::{toml_parse, unique_keys, Document, Node};
use crate::tree::{tree_of, Tree};
use vstd::prelude::*;

verus! {

// --- apply -----------------------------------------------------------------------

/// Why a workspace has its palette, as the user reads it.
pub open spec fn how_text(via: Via) -> Seq<char> {
    match via {
        Via::Rule => "explicit rule"@,
        Via::Auto => "auto"@,
        _ => "no rule, auto off"@,
    }
}

/// What is applied, as the user reads it.
pub open spec fn what_text(label: Seq<char>, palette: Option<Seq<char>>, via: Via) -> Seq<char> {
    label + " → "@ + (match palette {
        Some(n) => n,
        None => "base theme"@,
    }) + " ("@ + how_text(via) + ")"@
}

/// What is applied, as the user reads it.
pub fn what_line(label: &str, palette: Option<&str>, via: Via) -> (r: String)
    ensures
        r@ == what_text(label@, opt_str(palette), via),
{
    let how = match via {
        Via::Rule => "explicit rule",
        Via::Auto => "auto",
        _ => "no rule, auto off",
    };
    let name = match palette {
        Some(n) => n,
        None => "base theme",
    };
    let mut out = cat5(label, " → ", name, " (", how);
    out.append(")");
    out
}

/// The tokens of a map with their colours, in the order of the tokens.
pub open spec fn pairs_of(m: Map<Seq<char>, Seq<char>>) -> Seq<(Seq<char>, Seq<char>)> {
    sorted_keys(m).map_values(|k: Seq<char>| (k, m[k]))
}

proof fn lemma_token_pairs(m: KeyMap<String>)
    requires
        m.wf(),
    ensures
        token_pairs(m) == pairs_of(text_map(m)),
        m.keys() == sorted_keys(text_map(m)),
{
    let t = text_map(m);
    assert(t.dom() =~= m@.dom());
    m.lemma_sorted_keys(t);
    let want = pairs_of(t);
    let got = token_pairs(m);
    assert forall|i: int| 0 <= i < got.len() implies got[i] == want[i] by {
        m.lemma_entry(i);
    }
    assert(got =~= want);
}

/// The tokens that a palette of a configuration sets.
pub open spec fn tokens_of(
    c: ConfigView,
    palette: Option<Seq<char>>,
    light: bool,
) -> Option<Map<Seq<char>, Seq<char>>> {
    match palette {
        Some(n) => Some(effective_of(c.palettes[n], light)),
        None => None,
    }
}

/// The edit of Herdr's configuration for a palette.
pub open spec fn edit_of(
    c: ConfigView,
    palette: Option<Seq<char>>,
    light: bool,
    st: StateView,
) -> PlanView {
    PlanView {
        theme: match tokens_of(c, palette, light) {
            Some(m) => Some(pairs_of(m)),
            None => None,
        },
        previously_managed: st.managed,
        sidebar: if c.sidebar {
            Some(accents(sorted_keys(c.palettes), c.palettes, light))
        } else {
            None
        },
        managed_sidebar: st.managed_sidebar,
        own: Own::none(),
    }
}

/// What applying a workspace comes to.
#[derive(Debug)]
pub struct ApplyPlan {
    /// The new text of Herdr's configuration.
    pub updated: String,
    /// What is applied, as the user reads it.
    pub what: String,
    pub palette: Option<String>,
    /// The keys under `theme.custom` that are managed from now on.
    pub managed: Vec<String>,
    /// The sidebar kinds that are managed from now on.
    pub managed_sidebar: Vec<String>,
    /// The tint of the window.
    pub window: Option<String>,
}

/// What an [`ApplyPlan`] holds.
pub struct ApplyView {
    pub updated: Seq<char>,
    pub what: Seq<char>,
    pub palette: Option<Seq<char>>,
    pub managed: Seq<Seq<char>>,
    pub managed_sidebar: Seq<Seq<char>>,
    pub window: Option<Seq<char>>,
}

impl ApplyPlan {
    pub open spec fn view(&self) -> ApplyView {
        ApplyView {
            updated: self.updated@,
            what: self.what@,
            palette: opt_text(self.palette),
            managed: texts(self.managed@),
            managed_sidebar: texts(self.managed_sidebar@),
            window: opt_text(self.window),
        }
    }
}

/// What applying a workspace comes to, on a configuration of Herdr.
pub open spec fn apply_of(
    c: ConfigView,
    home: Seq<char>,
    st: StateView,
    ws: WorkspaceView,
    original: Seq<char>,
) -> Result<ApplyView, Fault> {
    match toml_parse(original) {
        Err(e) => Err(Fault::Parse(e)),
        Ok(doc) => {
            let (palette, via) = choice(c, home, ws.label, ws.cwd);
            let light = mode_of(tree_of(doc.root)) == ThemeMode::Light;
            match text_edited(original, edit_of(c, palette, light, st)) {
                Err(f) => Err(f),
                Ok((updated, kinds)) => Ok(
                    ApplyView {
                        updated,
                        what: what_text(ws.label, palette, via),
                        palette,
                        managed: match tokens_of(c, palette, light) {
                            Some(m) => sorted_keys(m),
                            None => seq![],
                        },
                        managed_sidebar: kinds,
                        window: match palette {
                            Some(n) => window_bg_of(c.palettes[n], light),
                            None => None,
                        },
                    },
                ),
            }
        },
    }
}

fn chosen<'a>(cfg: &'a PluginConfig, palette: Option<&str>) -> (r: Option<&'a Palette>)
    requires
        cfg.wf(),
        palette is Some ==> cfg@.palettes.contains_key(palette->0@),
    ensures
        match (r, palette) {
            (Some(p), Some(n)) => p.wf() && p@ == cfg@.palettes[n@],
            (None, None) => true,
            _ => false,
        },
{
    match palette {
        Some(n) => {
            assert(cfg.palettes@.contains_key(n@));
            cfg.palettes.get(n)
        },
        None => None,
    }
}

/// What applying a workspace comes to: its palette, the edit of Herdr's
/// configuration for it, what is managed then, and the tint of the window.
pub fn plan_workspace(
    cfg: &PluginConfig,
    home: &str,
    st: &State,
    ws: &Workspace,
    original: &str,
) -> (r: Result<ApplyPlan, EditError>)
    requires
        cfg.valid(),
    ensures
        match (r, apply_of(cfg@, home@, st@, ws@, original@)) {
            (Ok(p), Ok(want)) => p@ == want,
            (Err(e), Err(f)) => e@ == f,
            _ => false,
        },
{
    proof {
        law_chosen_palettes_are_defined(cfg, home@, ws.label@, ws.cwd@);
        assert(choosable(cfg@, home@, ws@));
    }
    let (name, via) = choose_palette(cfg, home, ws);
    let light = match text_mode(original) {
        Some(ThemeMode::Light) => true,
        _ => false,
    };
    let palette = chosen(cfg, name);
    let tokens = match palette {
        Some(p) => Some(p.effective(light)),
        None => None,
    };
    let spec = sidebar_spec(cfg, light);
    let theme = match &tokens {
        Some(t) => Some(t),
        None => None,
    };
    let sidebar = match &spec {
        Some(s) => Some(s),
        None => None,
    };
    let plan = Plan {
        theme,
        previously_managed: &st.managed,
        sidebar,
        managed_sidebar: &st.managed_sidebar,
    };
    proof {
        if tokens is Some {
            lemma_token_pairs(tokens->0);
        }
        assert(plan@ == edit_of(cfg@, opt_str(name), light, st@));
    }
    let (updated, managed_sidebar) = match plan_full(original, &plan) {
        Ok(x) => x,
        Err(e) => return Err(e),
    };
    let managed = match &tokens {
        Some(t) => {
            assert(token_keys(token_pairs(*t)) =~= t.keys());
            key_list(t)
        },
        None => {
            let none: Vec<String> = Vec::new();
            assert(texts(none@) =~= seq![]);
            none
        },
    };
    let window = match palette {
        Some(p) => p.window_bg(light),
        None => None,
    };
    Ok(
        ApplyPlan {
            updated,
            what: what_line(ws.label.as_str(), name, via),
            palette: opt_owned(name),
            managed,
            managed_sidebar,
            window,
        },
    )
}

/// What is remembered once a plan for a workspace was applied.
pub open spec fn with_applied(st: StateView, a: ApplyView, workspace: Seq<char>) -> StateView {
    StateView {
        managed: a.managed,
        managed_sidebar: a.managed_sidebar,
        last_workspace: Some(workspace),
        last_palette: a.palette,
        ..st
    }
}

/// Remembers what was applied.
pub fn remember(st: &mut State, plan: &ApplyPlan, workspace: &str)
    requires
        old(st).wf(),
    ensures
        final(st).wf(),
        final(st)@ == with_applied(old(st)@, plan@, workspace@),
{
    st.managed = list_copy(&plan.managed);
    st.managed_sidebar = list_copy(&plan.managed_sidebar);
    st.last_workspace = Some(workspace.to_owned());
    st.last_palette = opt_owned(as_opt_str(&plan.palette));
}

/// What is remembered once the edits of Herdr's configuration were taken back.
pub open spec fn without_edits(st: StateView) -> StateView {
    StateView { managed: seq![], managed_sidebar: seq![], ..st }
}

/// Remembers that nothing is managed in Herdr's configuration.
pub fn forget_edits(st: &mut State)
    requires
        old(st).wf(),
    ensures
        final(st).wf(),
        final(st)@ == without_edits(old(st)@),
{
    st.managed = Vec::new();
    st.managed_sidebar = Vec::new();
    proof {
        assert(st@.managed =~= seq![]);
        assert(st@.managed_sidebar =~= seq![]);
    }
}

// --- sweep -----------------------------------------------------------------------

/// The calls that a sweep makes.
pub struct Sweep {
    pub workspaces: Vec<Tag>,
    pub panes: Vec<Tag>,
}

/// What a sweep comes to.
pub struct SweepView {
    /// The calls for workspaces.
    pub workspaces: Seq<TagView>,
    /// The calls for panes.
    pub panes: Seq<TagView>,
    /// What is remembered before any of them is made.
    pub state: StateView,
}

/// What a sweep comes to: the tags of what is gone are forgotten, and every workspace
/// and every pane is tagged with its palette, where that changed.
pub open spec fn sweep_of(
    c: ConfigView,
    home: Seq<char>,
    st: StateView,
    workspaces: Seq<WorkspaceView>,
    panes: Seq<PaneView>,
) -> SweepView {
    let ws = workspace_choices(c, home, workspaces);
    let ps = pane_choices(c, ws, panes);
    let ws_tokens = st.ws_tokens.restrict(ws.dom());
    let pane_tokens = st.pane_tokens.restrict(ps.dom());
    let names = sorted_keys(c.palettes);
    SweepView {
        workspaces: pending("workspace"@, sorted_keys(ws), ws, ws_tokens, c.marker, names),
        panes: pending("pane"@, sorted_keys(ps), ps, pane_tokens, c.marker, names),
        state: StateView { ws_tokens, pane_tokens, ..st },
    }
}

/// Prepares a sweep: forgets the tags of what is gone, and lists the calls that
/// tag every workspace and every pane with its palette, where that changed. Each
/// call is to be recorded when it was made.
pub fn sweep(
    cfg: &PluginConfig,
    home: &str,
    st: &mut State,
    workspaces: &Vec<Workspace>,
    panes: &Vec<Pane>,
) -> (r: Sweep)
    requires
        cfg.valid(),
        old(st).wf(),
    ensures
        final(st).wf(),
        ({
            let want = sweep_of(
                cfg@,
                home@,
                old(st)@,
                workspace_views(workspaces@),
                pane_views(panes@),
            );
            &&& final(st)@ == want.state
            &&& tag_views(r.workspaces@) == want.workspaces
            &&& tag_views(r.panes@) == want.panes
        }),
{
    proof {
        assert forall|i: int| 0 <= i < workspaces@.len() implies choosable(
            cfg@,
            home@,
            (#[trigger] workspaces@[i])@,
        ) by {
            law_chosen_palettes_are_defined(cfg, home@, workspaces@[i].label@, workspaces@[i].cwd@);
        }
    }
    let a = assign(cfg, home, workspaces, panes);
    let names = key_list(&cfg.palettes);
    proof {
        let ws = choice_map(a.ws_palette);
        let ps = choice_map(a.pane_palette);
        assert(ws.dom() =~= a.ws_palette@.dom());
        assert(ps.dom() =~= a.pane_palette@.dom());
        a.ws_palette.lemma_sorted_keys(ws);
        a.pane_palette.lemma_sorted_keys(ps);
        assert(cfg@.palettes.dom() =~= cfg.palettes@.dom());
        cfg.palettes.lemma_sorted_keys(cfg@.palettes);
    }
    retain_live(&mut st.ws_tokens, &a.ws_palette);
    retain_live(&mut st.pane_tokens, &a.pane_palette);
    Sweep {
        workspaces: pending_tags(
            "workspace",
            &a.ws_palette,
            &st.ws_tokens,
            cfg.marker.as_str(),
            &names,
        ),
        panes: pending_tags(
            "pane",
            &a.pane_palette,
            &st.pane_tokens,
            cfg.marker.as_str(),
            &names,
        ),
    }
}

/// The line for the user on a sweep.
pub fn tags_line(n: usize) -> (r: String)
    ensures
        r@ == "sidebar tags: "@ + decimal(n as nat) + " updated"@,
{
    cat3("sidebar tags: ", number(n as u64).as_str(), " updated")
}

/// The line for the user on the tags that a dry run would drop.
pub fn would_drop(workspaces: usize, panes: usize) -> (r: String)
    ensures
        r@ == "clear: would drop tags on "@ + decimal(workspaces as nat) + " workspaces and "@
            + decimal(panes as nat) + " panes"@,
{
    cat5(
        "clear: would drop tags on ",
        number(workspaces as u64).as_str(),
        " workspaces and ",
        number(panes as u64).as_str(),
        " panes",
    )
}

// --- pane tint -------------------------------------------------------------------

/// The sequence that gives a pane its own background, or the terminal's where
/// there is none.
pub open spec fn osc_sequence(bg: Option<Seq<char>>) -> Seq<char> {
    match bg {
        Some(c) => "\u{1b}]11;"@ + c + "\u{7}"@,
        None => "\u{1b}]111\u{7}"@,
    }
}

/// The sequence that gives a pane its own background, or the terminal's where
/// there is none.
pub fn osc(bg: Option<&str>) -> (r: String)
    ensures
        r@ == osc_sequence(opt_str(bg)),
{
    match bg {
        Some(c) => cat3("\u{1b}]11;", c, "\u{7}"),
        None => "\u{1b}]111\u{7}".to_owned(),
    }
}

/// The palette of a pane: that of its agent session, else that of its workspace.
pub open spec fn tint_palette(
    c: ConfigView,
    home: Seq<char>,
    pane: PaneView,
    workspaces: Seq<WorkspaceView>,
) -> Result<Option<Seq<char>>, Seq<char>> {
    match session_choice(c, pane.session) {
        Some(n) => Ok(Some(n)),
        None => match workspace_at(workspaces, pane.workspace_id) {
            None => Err("no workspace with id or label "@ + debug_text(pane.workspace_id)),
            Some(i) => Ok(choice(c, home, workspaces[i].label, workspaces[i].cwd).0),
        },
    }
}

/// The sequence that tints a pane.
pub open spec fn tint_of(
    c: ConfigView,
    home: Seq<char>,
    light: bool,
    pane: PaneView,
    workspaces: Seq<WorkspaceView>,
) -> Result<Seq<char>, Seq<char>> {
    match tint_palette(c, home, pane, workspaces) {
        Err(m) => Err(m),
        Ok(palette) => Ok(
            osc_sequence(
                match palette {
                    Some(n) => pane_bg_of(c.palettes[n], light),
                    None => None,
                },
            ),
        ),
    }
}

/// The sequence that tints a pane with the colour of its agent session, else with
/// that of its workspace.
pub fn pane_sequence(
    cfg: &PluginConfig,
    home: &str,
    light: bool,
    pane: &Pane,
    workspaces: &Vec<Workspace>,
) -> (r: Result<String, String>)
    requires
        cfg.valid(),
    ensures
        match (r, tint_of(cfg@, home@, light, pane@, workspace_views(workspaces@))) {
            (Ok(s), Ok(want)) => s@ == want,
            (Err(m), Err(want)) => m@ == want,
            _ => false,
        },
{
    proof {
        law_pinned_palettes_are_defined(cfg@, opt_text(pane.session));
    }
    let name = match agent_palette(cfg, as_opt_str(&pane.session)) {
        Some(n) => Some(n),
        None => match find_workspace(workspaces, pane.workspace_id.as_str()) {
            Err(m) => return Err(m),
            Ok(ws) => {
                proof {
                    law_chosen_palettes_are_defined(cfg, home@, ws.label@, ws.cwd@);
                    assert(choosable(cfg@, home@, ws@));
                    let i = workspace_at(
                        workspace_views(workspaces@),
                        pane.workspace_id@,
                    )->0;
                    assert(workspace_views(workspaces@)[i] == ws@);
                }
                choose_palette(cfg, home, ws).0
            },
        },
    };
    let bg = match chosen(cfg, name) {
        Some(p) => p.pane_bg(light),
        None => None,
    };
    Ok(osc(as_opt_str(&bg)))
}

/// What comes first when a pane is to be tinted.
#[derive(Debug)]
pub enum OscStep {
    /// Give the pane the terminal's background.
    Reset,
    /// Read the plugin's configuration, and ask again.
    Configure,
    /// Tint the pane with this id.
    Tint(String),
    /// Report a failure.
    Fail(String),
}

/// What an [`OscStep`] says.
pub enum OscView {
    Reset,
    Configure,
    Tint(Seq<char>),
    Fail(Seq<char>),
}

impl OscStep {
    pub open spec fn view(&self) -> OscView {
        match self {
            OscStep::Reset => OscView::Reset,
            OscStep::Configure => OscView::Configure,
            OscStep::Tint(id) => OscView::Tint(id@),
            OscStep::Fail(m) => OscView::Fail(m@),
        }
    }
}

/// What comes first when a pane is to be tinted, or the tint to be taken back; `tint`
/// says whether panes are tinted, where that is known.
pub open spec fn first_osc(reset: bool, tint: Option<bool>, pane: Option<Seq<char>>) -> OscView {
    if reset {
        OscView::Reset
    } else {
        match (tint, pane) {
            (None, _) => OscView::Configure,
            (Some(_), None) => OscView::Fail(
                "no pane: pass --pane <id> or run inside a herdr pane"@,
            ),
            (Some(on), Some(id)) => if on {
                OscView::Tint(id)
            } else {
                OscView::Reset
            },
        }
    }
}

/// Decides what comes first when a pane is to be tinted, or the tint to be taken
/// back: whether panes are tinted is in the plugin's configuration.
pub fn osc_step(reset: bool, cfg: Option<&PluginConfig>, pane: Option<&str>) -> (r: OscStep)
    ensures
        r@ == first_osc(
            reset,
            match cfg {
                Some(c) => Some(c.pane_tint),
                None => None,
            },
            opt_str(pane),
        ),
{
    if reset {
        return OscStep::Reset;
    }
    match (cfg, pane) {
        (None, _) => OscStep::Configure,
        (Some(_), None) => OscStep::Fail(
            "no pane: pass --pane <id> or run inside a herdr pane".to_owned(),
        ),
        (Some(c), Some(id)) => if c.pane_tint {
            OscStep::Tint(id.to_owned())
        } else {
            OscStep::Reset
        },
    }
}

/// What the windows are to be tinted with, where windows are tinted: a colour, or
/// none, which puts their own back.
pub fn tint_target<'a>(cfg: &PluginConfig, window: Option<&'a str>) -> (r: Option<Option<&'a str>>)
    ensures
        r is Some == cfg.window_tint,
        r is Some ==> r->0 == window,
{
    if cfg.window_tint {
        Some(window)
    } else {
        None
    }
}

/// Whether the palette of a pane depends on its workspace.
pub fn needs_workspace(cfg: &PluginConfig, pane: &Pane) -> (r: bool)
    ensures
        r == session_choice(cfg@, opt_text(pane.session)) is None,
{
    agent_palette(cfg, as_opt_str(&pane.session)).is_none()
}

/// The message for a palette that is not defined.
pub fn unknown_palette(name: &str) -> (r: String)
    ensures
        r@ == "unknown palette "@ + debug_text(name@) + "; see `palettes`"@,
{
    cat3("unknown palette ", quoted(name).as_str(), "; see `palettes`")
}

// --- laws ------------------------------------------------------------------------

proof fn lemma_edit_tokens(t: Tree, name: Seq<char>, light: bool)
    requires
        config_of(t) is Ok,
        config_of(t)->Ok_0.palettes.contains_key(name),
    ensures
        ({
            let m = effective_of(config_of(t)->Ok_0.palettes[name], light);
            &&& m.dom().finite()
            &&& token_keys(pairs_of(m)) == sorted_keys(m)
            &&& sorted_keys(m).no_duplicates()
            &&& pairs_of(m).len() > 0
            &&& forall|i: int|
                0 <= i < pairs_of(m).len() ==> theme_tokens().contains(
                    (#[trigger] pairs_of(m)[i]).0,
                ) && hex_colour(pairs_of(m)[i].1)
        }),
{
    let c = config_of(t)->Ok_0;
    let p = c.palettes[name];
    let m = effective_of(p, light);
    law_accepted_colours_are_strict(t, name);
    if light && p.light is Some {
        assert(m.dom() =~= p.tokens.dom().union(p.light->0.tokens.dom()));
    }
    lemma_sorted(m);
    let keys = sorted_keys(m);
    assert(token_keys(pairs_of(m)) =~= keys);
    assert forall|i: int| 0 <= i < pairs_of(m).len() implies theme_tokens().contains(
        (#[trigger] pairs_of(m)[i]).0,
    ) && hex_colour(pairs_of(m)[i].1) by {
        let k = keys[i];
        assert(keys.contains(k));
        assert(m.contains_key(k));
        if light && p.light is Some && p.light->0.tokens.contains_key(k) {
            assert(m[k] == p.light->0.tokens[k]);
        } else {
            assert(p.tokens.contains_key(k));
        }
    }
    assert(pairs_of(m).len() > 0) by {
        law_palettes_are_finite(t);
        law_palettes_hold_tokens(c, name);
        let token = choose|token: Seq<char>| #[trigger] p.tokens.contains_key(token);
        assert(m.contains_key(token));
        assert(keys.contains(token));
    }
}

/// Whatever palette is applied, only tokens that Herdr takes are written, and
/// only strict colours.
pub proof fn law_written_tokens_are_strict(
    t: Tree,
    name: Seq<char>,
    light: bool,
    st: StateView,
    i: int,
)
    requires
        config_of(t) is Ok,
        config_of(t)->Ok_0.palettes.contains_key(name),
        0 <= i < edit_of(config_of(t)->Ok_0, Some(name), light, st).theme->0.len(),
    ensures
        ({
            let (token, colour) = edit_of(config_of(t)->Ok_0, Some(name), light, st).theme->0[i];
            theme_tokens().contains(token) && hex_colour(colour)
        }),
{
    lemma_edit_tokens(t, name, light);
}

/// What a palette of a configuration sets, as an edit.
pub open spec fn edit_for(c: ConfigView, palette: Option<Seq<char>>, light: bool) -> Edit {
    let plan = edit_of(c, palette, light, blank_state());
    Edit { theme: plan.theme, sidebar: plan.sidebar }
}

/// The edits for one palette after the other, each in light or dark.
pub open spec fn edits_for(c: ConfigView, picks: Seq<(Option<Seq<char>>, bool)>) -> Seq<Edit> {
    picks.map_values(|p: (Option<Seq<char>>, bool)| edit_for(c, p.0, p.1))
}

/// Whether what is remembered is what a series of edits came to.
pub open spec fn remembers(st: StateView, e: Edited) -> bool {
    st.managed == e.keys && st.managed_sidebar == e.kinds
}

/// Applying a palette with what is remembered of a series of edits, to a text that
/// reads as where they stand, is one more of them, and what it says to remember is
/// what they then come to.
pub proof fn law_applying_goes_on(
    t: Tree,
    home: Seq<char>,
    st: StateView,
    ws: WorkspaceView,
    original: Seq<char>,
    e: Edited,
)
    requires
        config_of(t) is Ok,
        remembers(st, e),
    ensures
        ({
            let c = config_of(t)->Ok_0;
            let (own_text, memo) = read_text(
                original,
                any_managed(st.managed, st.managed_sidebar),
            );
            let palette = choice(c, home, ws.label, ws.cwd).0;
            match (toml_parse(original), toml_parse(own_text), apply_of(c, home, st, ws, original)) {
                (Ok(whole), Ok(doc), Ok(a)) => doc == e.doc && memo == e.memo && (palette is Some
                    ==> c.palettes.contains_key(palette->0)) ==> {
                    let light = mode_of(tree_of(whole.root)) == ThemeMode::Light;
                    let next = gone_on(e, edit_for(c, palette, light));
                    &&& a.palette == palette
                    &&& a.updated == edited_text(next)
                    &&& remembers(
                        StateView {
                            managed: a.managed,
                            managed_sidebar: a.managed_sidebar,
                            ..st
                        },
                        next,
                    )
                },
                _ => true,
            }
        }),
{
    let c = config_of(t)->Ok_0;
    let palette = choice(c, home, ws.label, ws.cwd).0;
    match toml_parse(original) {
        Ok(whole) => {
            let light = mode_of(tree_of(whole.root)) == ThemeMode::Light;
            let edit = edit_for(c, palette, light);
            assert(plan_after(e, edit) == edit_of(c, palette, light, st));
            if palette is Some && c.palettes.contains_key(palette->0) {
                lemma_edit_tokens(t, palette->0, light);
            }
        },
        Err(_) => {},
    }
}

/// `clear` gets the user back: however many palettes of an accepted configuration
/// were applied one after the other, taking out what is remembered gives Herdr's
/// configuration back as it was, order, layout and comments included, and so the
/// same text. The user's own values that gave way have to come back from the text
/// that keeps them.
pub proof fn law_clearing_undoes_applying(
    t: Tree,
    picks: Seq<(Option<Seq<char>>, bool)>,
    st: StateView,
    doc: Document,
)
    requires
        config_of(t) is Ok,
        forall|i: int|
            0 <= i < picks.len() && (#[trigger] picks[i]).0 is Some
                ==> config_of(t)->Ok_0.palettes.contains_key(picks[i].0->0),
        doc.root is Table,
        unique_keys(doc.root),
        remembers(st, series(doc, edits_for(config_of(t)->Ok_0, picks))),
    ensures
        ({
            let c = config_of(t)->Ok_0;
            let last = series(doc, edits_for(c, picks));
            (forall|i: int|
                0 <= i < picks.len() ==> kept_well(
                    doc.root,
                    edit_for(c, (#[trigger] picks[i]).0, picks[i].1),
                )) ==> cleared(last.doc, last.memo, st.managed, st.managed_sidebar) == doc
        }),
{
    let c = config_of(t)->Ok_0;
    let edits = edits_for(c, picks);
    if forall|i: int|
        0 <= i < picks.len() ==> kept_well(
            doc.root,
            edit_for(c, (#[trigger] picks[i]).0, picks[i].1),
        ) {
        assert forall|i: int| 0 <= i < edits.len() implies fits(doc.root, #[trigger] edits[i]) by {
            let (palette, light) = picks[i];
            assert(edits[i] == edit_for(c, palette, light));
            if palette is Some {
                lemma_edit_tokens(t, palette->0, light);
            }
        }
        law_clear_undoes_every_edit_of_a_document(doc, edits);
    }
}

/// Whether the user's own values that give way to an edit come back from the text
/// that keeps them.
pub open spec fn kept_well(root: Node, edit: Edit) -> bool {
    match edit.theme {
        Some(pairs) => {
            let held = held_of(custom_entries(root), pairs, seq![]);
            held.len() == 0 || comes_back(child2(root, "theme"@, "custom"@)->0, held)
        },
        None => true,
    }
}

/// Applying the same palette again changes nothing, where the user's own values
/// that gave way come back from the text that keeps them.
pub proof fn law_applying_again_changes_nothing(
    t: Tree,
    palette: Option<Seq<char>>,
    light: bool,
    st: StateView,
    doc: Document,
    memo: MemoView,
)
    requires
        config_of(t) is Ok,
        palette is Some ==> config_of(t)->Ok_0.palettes.contains_key(palette->0),
        uncovered(doc.root, memo.kept) is Table,
        edited(doc, memo, edit_of(config_of(t)->Ok_0, palette, light, st)) is Ok,
    ensures
        ({
            let c = config_of(t)->Ok_0;
            let edit = edit_of(c, palette, light, st);
            let o = planned(uncovered(doc.root, memo.kept), plan_on(memo, edit))->Ok_0;
            let held = held_of(custom_entries(o.root), edit.theme->0, o.keys);
            let first = edited(doc, memo, edit)->Ok_0;
            let st1 = StateView {
                managed: first.keys,
                managed_sidebar: first.kinds,
                ..st
            };
            palette is None || held.len() == 0 || comes_back(
                child2(o.root, "theme"@, "custom"@)->0,
                held,
            ) ==> edited(first.doc, first.memo, edit_of(c, palette, light, st1)) == Ok::<Edited, Fault>(first)
        }),
{
    let c = config_of(t)->Ok_0;
    let edit = edit_of(c, palette, light, st);
    let o = planned(uncovered(doc.root, memo.kept), plan_on(memo, edit))->Ok_0;
    let held = held_of(custom_entries(o.root), edit.theme->0, o.keys);
    let first = edited(doc, memo, edit)->Ok_0;
    if palette is Some {
        lemma_edit_tokens(t, palette->0, light);
    }
    let st1 = StateView {
        managed: first.keys,
        managed_sidebar: first.kinds,
        ..st
    };
    assert(edit_of(c, palette, light, st1) == (PlanView {
        previously_managed: first.keys,
        managed_sidebar: first.kinds,
        ..edit
    }));
    if palette is None || held.len() == 0 || comes_back(
        child2(o.root, "theme"@, "custom"@)->0,
        held,
    ) {
        law_repeating_changes_nothing(doc, memo, edit);
    }
}

} // verus!
