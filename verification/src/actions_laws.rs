//! What applying, sweeping and tinting come to, from the palettes to what Herdr
//! and the terminal are told.
use crate::actions::{
    apply_of, edit_of, first_osc, osc_sequence, pairs_of, sweep_of, tint_of, tint_palette,
    what_text, with_applied, without_edits, ApplyView, OscView,
};
use crate::aside::uncovered;
use crate::config::{
    config_of, law_accepted_colours_are_strict, law_palettes_are_finite, ConfigView,
};
use crate::herdr::{workspace_at, PaneView, WorkspaceView};
use crate::herdr_laws::law_found_by_id_before_label;
use crate::keymap::{ascending, lemma_sorted, lookup, sorted_keys};
use crate::memo::MemoView;
use crate::palette::{effective_of, pane_bg_of, window_bg_of, PaletteView};
use crate::plan::{child2, edited, plan_on, token_keys, Fault};
use crate::plan_series::law_every_token_is_set;
use crate::select::{
    accents, choice, mode_of, pane_choice, pane_choices, session_choice, workspace_choices,
    ThemeMode, Via,
};
use crate::select_laws::{
    law_accents_are_their_own, law_each_pane_has_its_own, law_each_workspace_has_its_own,
    lemma_pane_choices, lemma_workspace_choices,
};
use crate::sidebar_laws::{law_each_mark_has_its_own_colour, law_rows_of_an_edit, rows_of_kind};
use crate::state::StateView;
use crate::sweep::{law_a_change_is_told, law_sweep_tags_what_was_chosen};
use crate::toml::{child, node_str, toml_parse, Document};
use crate::tree::{tree_of, Tree};
use vstd::prelude::*;

verus! {

// --- apply -----------------------------------------------------------------------

/// The colour of a token in a palette, on a light theme or not.
pub open spec fn colour_in(p: PaletteView, light: bool, token: Seq<char>) -> Option<Seq<char>> {
    if light && p.light is Some && p.light->0.tokens.contains_key(token) {
        Some(p.light->0.tokens[token])
    } else if p.tokens.contains_key(token) {
        Some(p.tokens[token])
    } else {
        None
    }
}

/// The edit for a palette sets every token of the palette, once, in its colour for
/// the theme, and no other token; the edit for no palette sets none. What was
/// managed before is what the state remembers, and there are sidebar rows where the
/// configuration wants them.
pub proof fn law_edit_sets_the_palette(
    c: ConfigView,
    name: Seq<char>,
    light: bool,
    st: StateView,
    token: Seq<char>,
    colour: Seq<char>,
)
    requires
        effective_of(c.palettes[name], light).dom().finite(),
    ensures
        ({
            let edit = edit_of(c, Some(name), light, st);
            &&& edit.theme is Some
            &&& edit.theme->0.contains((token, colour)) <==> colour_in(
                c.palettes[name],
                light,
                token,
            ) == Some(colour)
            &&& token_keys(edit.theme->0).no_duplicates()
            &&& ascending(token_keys(edit.theme->0))
            &&& edit.previously_managed == st.managed
            &&& edit.managed_sidebar == st.managed_sidebar
            &&& edit.sidebar is Some <==> c.sidebar
            &&& edit_of(c, None, light, st).theme is None
        }),
{
    let m = effective_of(c.palettes[name], light);
    let pairs = pairs_of(m);
    let keys = sorted_keys(m);
    lemma_sorted(m);
    assert(token_keys(pairs) =~= keys);
    if pairs.contains((token, colour)) {
        let i = choose|i: int| 0 <= i < pairs.len() && pairs[i] == (token, colour);
        assert(keys[i] == token);
        assert(keys.contains(token));
    }
    if colour_in(c.palettes[name], light, token) == Some(colour) {
        assert(m.contains_key(token) && m[token] == colour);
        assert(keys.contains(token));
        let i = choose|i: int| 0 <= i < keys.len() && keys[i] == token;
        assert(pairs[i] == (token, colour));
    }
}

proof fn lemma_effective_finite(t: Tree, name: Seq<char>, light: bool)
    requires
        config_of(t) is Ok,
        config_of(t)->Ok_0.palettes.contains_key(name),
    ensures
        effective_of(config_of(t)->Ok_0.palettes[name], light).dom().finite(),
{
    let p = config_of(t)->Ok_0.palettes[name];
    law_accepted_colours_are_strict(t, name);
    if light && p.light is Some {
        assert(effective_of(p, light).dom() =~= p.tokens.dom().union(p.light->0.tokens.dom()));
    }
}

/// After a palette of an accepted configuration is applied, every token of it stands
/// in `theme.custom` in its colour for the theme.
pub proof fn law_applied_colours_stand(
    t: Tree,
    name: Seq<char>,
    light: bool,
    st: StateView,
    doc: Document,
    memo: MemoView,
    token: Seq<char>,
)
    requires
        config_of(t) is Ok,
        config_of(t)->Ok_0.palettes.contains_key(name),
        uncovered(doc.root, memo.kept) is Table,
        edited(doc, memo, edit_of(config_of(t)->Ok_0, Some(name), light, st)) is Ok,
        colour_in(config_of(t)->Ok_0.palettes[name], light, token) is Some,
    ensures
        ({
            let c = config_of(t)->Ok_0;
            let e = edited(doc, memo, edit_of(c, Some(name), light, st))->Ok_0;
            let custom = child2(e.doc.root, "theme"@, "custom"@);
            &&& e.keys.contains(token)
            &&& custom is Some
            &&& child(custom->0, token) is Some
            &&& node_str(child(custom->0, token)->0) == colour_in(c.palettes[name], light, token)
        }),
{
    let c = config_of(t)->Ok_0;
    let edit = edit_of(c, Some(name), light, st);
    let colour = colour_in(c.palettes[name], light, token)->0;
    lemma_effective_finite(t, name, light);
    law_edit_sets_the_palette(c, name, light, st, token, colour);
    let pairs = edit.theme->0;
    let i = choose|i: int| 0 <= i < pairs.len() && pairs[i] == (token, colour);
    law_every_token_is_set(doc, memo, edit, i);
    assert(token_keys(pairs)[i] == token);
}

/// The sidebar rows that applying writes show every palette in its own accent: each
/// mark has the token of a palette, and the accent of that same palette for the
/// theme.
pub proof fn law_marks_have_the_accents(
    t: Tree,
    palette: Option<Seq<char>>,
    light: bool,
    st: StateView,
    doc: Document,
    memo: MemoView,
    kind: Seq<char>,
    i: int,
)
    requires
        config_of(t) is Ok,
        config_of(t)->Ok_0.sidebar,
        uncovered(doc.root, memo.kept) is Table,
        edited(doc, memo, edit_of(config_of(t)->Ok_0, palette, light, st)) is Ok,
        edited(doc, memo, edit_of(config_of(t)->Ok_0, palette, light, st))->Ok_0.kinds.contains(
            kind,
        ),
        0 <= i < edit_of(config_of(t)->Ok_0, palette, light, st).sidebar->0.len(),
    ensures
        ({
            let c = config_of(t)->Ok_0;
            let e = edited(doc, memo, edit_of(c, palette, light, st))->Ok_0;
            let mark = rows_of_kind(e.doc.root, kind)->0->Array_0[0]->Array_0[i + 1];
            exists|name: Seq<char>|
                {
                    &&& c.palettes.contains_key(name)
                    &&& child(mark, "token"@) is Some
                    &&& node_str(child(mark, "token"@)->0) == Some(#[trigger] ("$sc_"@ + name))
                    &&& child(mark, "fg"@) is Some
                    &&& node_str(child(mark, "fg"@)->0) == colour_in(
                        c.palettes[name],
                        light,
                        "accent"@,
                    )
                }
        }),
{
    let c = config_of(t)->Ok_0;
    let edit = edit_of(c, palette, light, st);
    let names = sorted_keys(c.palettes);
    law_rows_of_an_edit(doc, memo, edit, kind);
    let from = uncovered(doc.root, memo.kept);
    law_each_mark_has_its_own_colour(from, plan_on(memo, edit), kind, i);
    law_accents_are_their_own(names, c.palettes, light, i);
    law_accents_exist(names, c.palettes, light, i);
    law_palettes_are_finite(t);
    lemma_sorted(c.palettes);
    let name = accents(names, c.palettes, light)[i].0;
    assert(names.contains(name));
    let mark = rows_of_kind(edited(doc, memo, edit)->Ok_0.doc.root, kind)->0->Array_0[0]->Array_0[i
        + 1];
    assert(node_str(child(mark, "token"@)->0) == Some("$sc_"@ + name));
}

/// A palette that is shown in the sidebar has an accent for the theme.
pub proof fn law_accents_exist(
    names: Seq<Seq<char>>,
    palettes: Map<Seq<char>, PaletteView>,
    light: bool,
    i: int,
)
    requires
        0 <= i < accents(names, palettes, light).len(),
    ensures
        colour_in(palettes[accents(names, palettes, light)[i].0], light, "accent"@) == Some(
            accents(names, palettes, light)[i].1,
        ),
    decreases names.len(),
{
    if names.len() > 0 {
        let rest = accents(names.drop_last(), palettes, light);
        if i < rest.len() {
            law_accents_exist(names.drop_last(), palettes, light, i);
        }
    }
}

/// What applying a workspace comes to: the palette is the one that is chosen for the
/// workspace; the tokens that are managed then are those of that palette, and the
/// window has the tint of that palette, both for a light theme where the theme of
/// Herdr's configuration is light. Without a palette nothing is managed under
/// `theme.custom`, and the window has no tint.
pub proof fn law_applying_follows_the_choice(
    c: ConfigView,
    home: Seq<char>,
    st: StateView,
    ws: WorkspaceView,
    original: Seq<char>,
    token: Seq<char>,
)
    requires
        toml_parse(original) is Ok,
        apply_of(c, home, st, ws, original) is Ok,
        forall|n: Seq<char>, light: bool|
            c.palettes.contains_key(n) ==> (#[trigger] effective_of(
                c.palettes[n],
                light,
            )).dom().finite(),
        choice(c, home, ws.label, ws.cwd).0 is Some ==> c.palettes.contains_key(
            choice(c, home, ws.label, ws.cwd).0->0,
        ),
    ensures
        ({
            let a = apply_of(c, home, st, ws, original)->Ok_0;
            let light = mode_of(tree_of(toml_parse(original)->Ok_0.root)) == ThemeMode::Light;
            let (chosen, via) = choice(c, home, ws.label, ws.cwd);
            &&& a.palette == chosen
            &&& chosen is Some ==> {
                let p = c.palettes[chosen->0];
                &&& a.managed.contains(token) <==> colour_in(p, light, token) is Some
                &&& a.window == window_bg_of(p, light)
            }
            &&& chosen is None ==> a.managed.len() == 0 && a.window is None
            &&& a.what == what_text(ws.label, chosen, via)
        }),
{
    let light = mode_of(tree_of(toml_parse(original)->Ok_0.root)) == ThemeMode::Light;
    let chosen = choice(c, home, ws.label, ws.cwd).0;
    if chosen is Some {
        let m = effective_of(c.palettes[chosen->0], light);
        lemma_sorted(m);
    }
}

/// A configuration of Herdr that is no TOML is not touched.
pub proof fn law_only_toml_is_applied_to(
    c: ConfigView,
    home: Seq<char>,
    st: StateView,
    ws: WorkspaceView,
    original: Seq<char>,
)
    ensures
        match toml_parse(original) {
            Err(e) => apply_of(c, home, st, ws, original) is Err && apply_of(
                c,
                home,
                st,
                ws,
                original,
            )->Err_0 == Fault::Parse(e),
            Ok(_) => true,
        },
{
}

/// What the user reads of an application: the label, an arrow, the palette or that
/// it is the base theme, and in brackets whether a rule or the directory decided.
pub proof fn law_what_is_applied(label: Seq<char>, palette: Seq<char>)
    ensures
        what_text(label, Some(palette), Via::Rule) == label + " → "@ + palette
            + " (explicit rule)"@,
        what_text(label, Some(palette), Via::Auto) == label + " → "@ + palette + " (auto)"@,
        what_text(label, None, Via::Nothing) == label + " → base theme (no rule, auto off)"@,
{
    reveal_strlit(" → ");
    reveal_strlit(" (");
    reveal_strlit(")");
    reveal_strlit("explicit rule");
    reveal_strlit(" (explicit rule)");
    reveal_strlit("auto");
    reveal_strlit(" (auto)");
    reveal_strlit("base theme");
    reveal_strlit("no rule, auto off");
    reveal_strlit(" → base theme (no rule, auto off)");
    assert(" (explicit rule)"@ =~= " ("@ + "explicit rule"@ + ")"@);
    assert(" (auto)"@ =~= " ("@ + "auto"@ + ")"@);
    assert(" → base theme (no rule, auto off)"@ =~= " → "@ + "base theme"@ + " ("@
        + "no rule, auto off"@ + ")"@);
    assert(what_text(label, Some(palette), Via::Rule) =~= label + " → "@ + palette
        + " (explicit rule)"@);
    assert(what_text(label, Some(palette), Via::Auto) =~= label + " → "@ + palette + " (auto)"@);
    assert(what_text(label, None, Via::Nothing) =~= label
        + " → base theme (no rule, auto off)"@);
}

// --- tints -----------------------------------------------------------------------

/// The sequence that tints a pane is an escape, `]11;`, the colour as it is and a
/// bell, so that different colours give different sequences; the one that takes the
/// tint back is an escape, `]111` and a bell.
pub proof fn law_tint_sequence(colour: Seq<char>)
    ensures
        osc_sequence(Some(colour)) == seq!['\u{1b}', ']', '1', '1', ';'] + colour + seq!['\u{7}'],
        osc_sequence(None) == seq!['\u{1b}', ']', '1', '1', '1', '\u{7}'],
{
    reveal_strlit("\u{1b}]11;");
    reveal_strlit("\u{7}");
    reveal_strlit("\u{1b}]111\u{7}");
    assert("\u{1b}]11;"@ =~= seq!['\u{1b}', ']', '1', '1', ';']);
    assert("\u{7}"@ =~= seq!['\u{7}']);
    assert("\u{1b}]111\u{7}"@ =~= seq!['\u{1b}', ']', '1', '1', '1', '\u{7}']);
}

/// A pane is tinted as the sweep tags it: where every workspace has an id of its own
/// and that of the pane is there, both go by the same palette, that of the agent
/// session or, without one, that of the workspace.
pub proof fn law_tint_and_tag_agree(
    c: ConfigView,
    home: Seq<char>,
    pane: PaneView,
    workspaces: Seq<WorkspaceView>,
    i: int,
)
    requires
        0 <= i < workspaces.len(),
        workspaces[i].id == pane.workspace_id,
        forall|j: int|
            0 <= j < workspaces.len() && j != i ==> (#[trigger] workspaces[j]).id
                != pane.workspace_id,
    ensures
        tint_palette(c, home, pane, workspaces) == Ok::<Option<Seq<char>>, Seq<char>>(
            pane_choice(c, workspace_choices(c, home, workspaces), pane).0,
        ),
{
    law_each_workspace_has_its_own(c, home, workspaces, i, pane.workspace_id);
    law_found_by_id_before_label(workspaces, pane.workspace_id);
    assert(workspaces[i].id == pane.workspace_id);
    assert(workspace_at(workspaces, pane.workspace_id) == Some(i));
}

/// The palette that a session is pinned to tints its pane, wherever the pane is;
/// without one the workspace has to be there.
pub proof fn law_pinned_tint_needs_no_workspace(
    c: ConfigView,
    home: Seq<char>,
    light: bool,
    pane: PaneView,
    workspaces: Seq<WorkspaceView>,
)
    ensures
        session_choice(c, pane.session) is Some ==> tint_palette(c, home, pane, workspaces) == Ok::<
            Option<Seq<char>>,
            Seq<char>,
        >(session_choice(c, pane.session)),
        session_choice(c, pane.session) is None ==> (tint_palette(c, home, pane, workspaces) is Err
            <==> forall|j: int|
            0 <= j < workspaces.len() ==> (#[trigger] workspaces[j]).id != pane.workspace_id
                && workspaces[j].label != pane.workspace_id),
        tint_of(c, home, light, pane, workspaces) is Err <==> tint_palette(
            c,
            home,
            pane,
            workspaces,
        ) is Err,
{
    law_found_by_id_before_label(workspaces, pane.workspace_id);
}

/// The colour of a pane is the pane tint of its palette for the theme; without a
/// palette, or without a tint in it, the terminal's own comes back.
pub proof fn law_tint_is_that_of_the_palette(
    c: ConfigView,
    home: Seq<char>,
    light: bool,
    pane: PaneView,
    workspaces: Seq<WorkspaceView>,
)
    requires
        tint_palette(c, home, pane, workspaces) is Ok,
    ensures
        ({
            let palette = tint_palette(c, home, pane, workspaces)->Ok_0;
            let got = tint_of(c, home, light, pane, workspaces);
            let tint = pane_bg_of(c.palettes[palette->0], light);
            &&& got is Ok
            &&& palette is Some && tint is Some ==> got->Ok_0 == seq![
                '\u{1b}',
                ']',
                '1',
                '1',
                ';',
            ] + tint->0 + seq!['\u{7}']
            &&& palette is None || tint is None ==> got->Ok_0 == seq![
                '\u{1b}',
                ']',
                '1',
                '1',
                '1',
                '\u{7}',
            ]
        }),
{
    let palette = tint_palette(c, home, pane, workspaces)->Ok_0;
    let tint = pane_bg_of(c.palettes[palette->0], light);
    law_tint_sequence(tint->0);
}

// --- sweep -----------------------------------------------------------------------

proof fn lemma_workspaces_finite(c: ConfigView, home: Seq<char>, all: Seq<WorkspaceView>)
    ensures
        workspace_choices(c, home, all).dom().finite(),
    decreases all.len(),
{
    if all.len() > 0 {
        lemma_workspaces_finite(c, home, all.drop_last());
    }
}

proof fn lemma_panes_finite(
    c: ConfigView,
    workspaces: Map<Seq<char>, (Option<Seq<char>>, Via)>,
    panes: Seq<PaneView>,
)
    ensures
        pane_choices(c, workspaces, panes).dom().finite(),
    decreases panes.len(),
{
    if panes.len() > 0 {
        lemma_panes_finite(c, workspaces, panes.drop_last());
    }
}

/// Whether what is remembered of an id is the palette, or that it has none.
pub open spec fn is_remembered(
    tokens: Map<Seq<char>, Seq<char>>,
    id: Seq<char>,
    palette: Option<Seq<char>>,
) -> bool {
    &&& tokens.contains_key(id)
    &&& palette is Some ==> tokens[id] == palette->0
    &&& palette is None ==> tokens[id].len() == 0
}

/// Whether a call tags an id of a kind: it names both, sets the token of the palette
/// to the marker and clears those of the other palettes.
pub open spec fn tags(
    args: Seq<Seq<char>>,
    kind: Seq<char>,
    id: Seq<char>,
    palette: Option<Seq<char>>,
    marker: Seq<char>,
    names: Seq<Seq<char>>,
) -> bool {
    &&& args.len() == 5 + 2 * names.len()
    &&& args[0] == kind
    &&& args[1] == "report-metadata"@
    &&& args[2] == id
    &&& args[3] == "--source"@
    &&& args[4] == "space-colors"@
    &&& forall|i: int|
        #![trigger names[i]]
        0 <= i < names.len() ==> if palette == Some(names[i]) {
            args[5 + 2 * i] == "--token"@ && args[6 + 2 * i] == "sc_"@ + names[i] + "="@ + marker
        } else {
            args[5 + 2 * i] == "--clear-token"@ && args[6 + 2 * i] == "sc_"@ + names[i]
        }
}

/// A sweep tags every workspace with what is chosen for its own label and directory:
/// there is a call for it that says so, of the kind `workspace`, unless that is what
/// is remembered of it already.
pub proof fn law_every_workspace_is_tagged(
    c: ConfigView,
    home: Seq<char>,
    st: StateView,
    workspaces: Seq<WorkspaceView>,
    panes: Seq<PaneView>,
    i: int,
)
    requires
        0 <= i < workspaces.len(),
        forall|j: int| i < j < workspaces.len() ==> (#[trigger] workspaces[j]).id
            != workspaces[i].id,
    ensures
        ({
            let w = workspaces[i];
            let palette = choice(c, home, w.label, w.cwd).0;
            let calls = sweep_of(c, home, st, workspaces, panes).workspaces;
            let names = sorted_keys(c.palettes);
            &&& is_remembered(st.ws_tokens, w.id, palette) ==> forall|t: int|
                0 <= t < calls.len() ==> (#[trigger] calls[t]).id != w.id
            &&& !is_remembered(st.ws_tokens, w.id, palette) ==> exists|t: int|
                0 <= t < calls.len() && (#[trigger] calls[t]).id == w.id && tags(
                    calls[t].args,
                    "workspace"@,
                    w.id,
                    palette,
                    c.marker,
                    names,
                )
        }),
{
    let w = workspaces[i];
    let ws = workspace_choices(c, home, workspaces);
    let palette = choice(c, home, w.label, w.cwd).0;
    let names = sorted_keys(c.palettes);
    let tokens = st.ws_tokens.restrict(ws.dom());
    let ids = sorted_keys(ws);
    let calls = sweep_of(c, home, st, workspaces, panes).workspaces;
    law_each_workspace_has_its_own(c, home, workspaces, i, w.id);
    lemma_workspaces_finite(c, home, workspaces);
    lemma_sorted(ws);
    assert(ids.contains(w.id));
    let at = choose|at: int| 0 <= at < ids.len() && ids[at] == w.id;
    if is_remembered(st.ws_tokens, w.id, palette) {
        assert forall|t: int| 0 <= t < calls.len() implies (#[trigger] calls[t]).id != w.id by {
            law_sweep_tags_what_was_chosen("workspace"@, ids, ws, tokens, c.marker, names, t);
            if calls[t].id == w.id {
                if palette is None {
                    assert(calls[t].want =~= tokens[w.id]);
                }
            }
        }
    } else {
        let t = law_a_change_is_told("workspace"@, ids, ws, tokens, c.marker, names, at);
        law_sweep_tags_what_was_chosen("workspace"@, ids, ws, tokens, c.marker, names, t);
        assert(tags(calls[t].args, "workspace"@, w.id, palette, c.marker, names));
    }
}

/// A sweep tags every pane with the palette that its session is pinned to or that of
/// its workspace: there is a call for it that says so, of the kind `pane`, unless that
/// is what is remembered of it already.
pub proof fn law_every_pane_is_tagged(
    c: ConfigView,
    home: Seq<char>,
    st: StateView,
    workspaces: Seq<WorkspaceView>,
    panes: Seq<PaneView>,
    i: int,
)
    requires
        0 <= i < panes.len(),
        forall|j: int| i < j < panes.len() ==> (#[trigger] panes[j]).id != panes[i].id,
    ensures
        ({
            let p = panes[i];
            let ws = workspace_choices(c, home, workspaces);
            let palette = if session_choice(c, p.session) is Some {
                session_choice(c, p.session)
            } else if ws.contains_key(p.workspace_id) {
                ws[p.workspace_id].0
            } else {
                None
            };
            let calls = sweep_of(c, home, st, workspaces, panes).panes;
            let names = sorted_keys(c.palettes);
            &&& is_remembered(st.pane_tokens, p.id, palette) ==> forall|t: int|
                0 <= t < calls.len() ==> (#[trigger] calls[t]).id != p.id
            &&& !is_remembered(st.pane_tokens, p.id, palette) ==> exists|t: int|
                0 <= t < calls.len() && (#[trigger] calls[t]).id == p.id && tags(
                    calls[t].args,
                    "pane"@,
                    p.id,
                    palette,
                    c.marker,
                    names,
                )
        }),
{
    let p = panes[i];
    let ws = workspace_choices(c, home, workspaces);
    let ps = pane_choices(c, ws, panes);
    let palette = ps[p.id].0;
    let names = sorted_keys(c.palettes);
    let tokens = st.pane_tokens.restrict(ps.dom());
    let ids = sorted_keys(ps);
    let calls = sweep_of(c, home, st, workspaces, panes).panes;
    law_each_pane_has_its_own(c, ws, panes, i, p.id);
    lemma_panes_finite(c, ws, panes);
    lemma_sorted(ps);
    assert(ids.contains(p.id));
    let at = choose|at: int| 0 <= at < ids.len() && ids[at] == p.id;
    if is_remembered(st.pane_tokens, p.id, palette) {
        assert forall|t: int| 0 <= t < calls.len() implies (#[trigger] calls[t]).id != p.id by {
            law_sweep_tags_what_was_chosen("pane"@, ids, ps, tokens, c.marker, names, t);
            if calls[t].id == p.id {
                if palette is None {
                    assert(calls[t].want =~= tokens[p.id]);
                }
            }
        }
    } else {
        let t = law_a_change_is_told("pane"@, ids, ps, tokens, c.marker, names, at);
        law_sweep_tags_what_was_chosen("pane"@, ids, ps, tokens, c.marker, names, t);
        assert(tags(calls[t].args, "pane"@, p.id, palette, c.marker, names));
    }
}

/// A sweep calls for nothing that is not there.
pub proof fn law_only_what_is_there_is_tagged(
    c: ConfigView,
    home: Seq<char>,
    st: StateView,
    workspaces: Seq<WorkspaceView>,
    panes: Seq<PaneView>,
    t: int,
)
    ensures
        ({
            let sweep = sweep_of(c, home, st, workspaces, panes);
            &&& 0 <= t < sweep.workspaces.len() ==> exists|i: int|
                0 <= i < workspaces.len() && (#[trigger] workspaces[i]).id
                    == sweep.workspaces[t].id
            &&& 0 <= t < sweep.panes.len() ==> exists|i: int|
                0 <= i < panes.len() && (#[trigger] panes[i]).id == sweep.panes[t].id
        }),
{
    let sweep = sweep_of(c, home, st, workspaces, panes);
    let ws = workspace_choices(c, home, workspaces);
    let ps = pane_choices(c, ws, panes);
    let names = sorted_keys(c.palettes);
    lemma_workspaces_finite(c, home, workspaces);
    lemma_panes_finite(c, ws, panes);
    lemma_sorted(ws);
    lemma_sorted(ps);
    if 0 <= t < sweep.workspaces.len() {
        let tokens = st.ws_tokens.restrict(ws.dom());
        law_sweep_tags_what_was_chosen(
            "workspace"@,
            sorted_keys(ws),
            ws,
            tokens,
            c.marker,
            names,
            t,
        );
        lemma_workspace_choices(c, home, workspaces, sweep.workspaces[t].id);
    }
    if 0 <= t < sweep.panes.len() {
        let tokens = st.pane_tokens.restrict(ps.dom());
        law_sweep_tags_what_was_chosen("pane"@, sorted_keys(ps), ps, tokens, c.marker, names, t);
        lemma_pane_choices(c, ws, panes, sweep.panes[t].id);
    }
}

/// A sweep forgets the tags of the workspaces and the panes that are gone, and of no
/// other; all else that is remembered stays as it is.
pub proof fn law_sweep_forgets_what_is_gone(
    c: ConfigView,
    home: Seq<char>,
    st: StateView,
    workspaces: Seq<WorkspaceView>,
    panes: Seq<PaneView>,
    id: Seq<char>,
)
    ensures
        ({
            let st1 = sweep_of(c, home, st, workspaces, panes).state;
            let shown = exists|i: int| 0 <= i < workspaces.len() && (#[trigger] workspaces[i]).id
                == id;
            let open = exists|i: int| 0 <= i < panes.len() && (#[trigger] panes[i]).id == id;
            &&& shown ==> lookup(st1.ws_tokens, id) == lookup(st.ws_tokens, id)
            &&& !shown ==> !st1.ws_tokens.contains_key(id)
            &&& open ==> lookup(st1.pane_tokens, id) == lookup(st.pane_tokens, id)
            &&& !open ==> !st1.pane_tokens.contains_key(id)
            &&& st1.managed == st.managed
            &&& st1.managed_sidebar == st.managed_sidebar
            &&& st1.last_workspace == st.last_workspace
            &&& st1.last_palette == st.last_palette
            &&& st1.window == st.window
        }),
{
    let ws = workspace_choices(c, home, workspaces);
    lemma_workspace_choices(c, home, workspaces, id);
    lemma_pane_choices(c, ws, panes, id);
}

// --- what is remembered ----------------------------------------------------------

/// What is remembered after applying is what the plan says is managed, the workspace
/// and its palette; the tags and the windows stay as they are. Taking the edits back
/// leaves nothing managed, and all else as it is.
pub proof fn law_what_applying_remembers(st: StateView, a: ApplyView, workspace: Seq<char>)
    ensures
        ({
            let st1 = with_applied(st, a, workspace);
            &&& st1.managed == a.managed
            &&& st1.managed_sidebar == a.managed_sidebar
            &&& st1.last_workspace == Some(workspace)
            &&& st1.last_palette == a.palette
            &&& st1.ws_tokens == st.ws_tokens
            &&& st1.pane_tokens == st.pane_tokens
            &&& st1.window == st.window
        }),
        ({
            let st2 = without_edits(st);
            &&& st2.managed.len() == 0
            &&& st2.managed_sidebar.len() == 0
            &&& st2.last_workspace == st.last_workspace
            &&& st2.last_palette == st.last_palette
            &&& st2.ws_tokens == st.ws_tokens
            &&& st2.pane_tokens == st.pane_tokens
            &&& st2.window == st.window
        }),
        without_edits(with_applied(st, a, workspace)).managed == without_edits(st).managed,
{
}

/// A reset needs nothing else. Any other tint needs to know whether panes are tinted,
/// and then a pane; where panes are not tinted, their own background comes back.
pub proof fn law_what_a_tint_needs(reset: bool, tint: Option<bool>, pane: Option<Seq<char>>)
    ensures
        reset ==> first_osc(reset, tint, pane) is Reset,
        !reset && tint is None ==> first_osc(reset, tint, pane) is Configure,
        !reset && tint is Some && pane is None ==> first_osc(reset, tint, pane) is Fail,
        !reset && tint == Some(true) && pane is Some ==> first_osc(reset, tint, pane)
            == OscView::Tint(pane->0),
        !reset && tint == Some(false) && pane is Some ==> first_osc(reset, tint, pane) is Reset,
{
}

} // verus!
