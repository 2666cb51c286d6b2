//! What the user is shown: the state of things, the configuration, the palettes.
use crate::config::{AgentRule, ConfigView, PluginConfig, Rule, RuleView};
use crate::herdr::{pane_views, workspace_views, Pane, PaneView, Workspace, WorkspaceView};
use crate::keymap::{lookup, sorted_keys, KeyMap};
use crate::palette::{pane_bg_of, Palette, PaletteView};
use crate::paths::{file_name, file_name_of};
use crate::plan::token_pairs;
use crate::select::{
    assign, choice_map, choosable, law_chosen_palettes_are_defined, pane_choices, via_name, via_str,
    workspace_choices, ThemeMode, Via,
};
use crate::state::{State, StateView};
use crate::text::{
    as_opt_str, cat, cat3, cat4, cat5, debug_text, decimal, join, joined, number, opt_str, opt_text,
    pad, padded, quoted, replace_once, replaced_once, same, texts,
};
use vstd::prelude::*;

verus! {

/// An optional text, or a dash.
pub open spec fn or_dash(o: Option<Seq<char>>) -> Seq<char> {
    match o {
        Some(s) => s,
        None => "-"@,
    }
}

fn dashed<'a>(o: Option<&'a str>) -> (r: &'a str)
    ensures
        r@ == or_dash(opt_str(o)),
{
    match o {
        Some(s) => s,
        None => "-",
    }
}

/// Six columns, the last as wide as it is.
pub open spec fn row_text(
    cells: Seq<Seq<char>>,
    widths: Seq<int>,
) -> Seq<char> {
    padded(cells[0], widths[0]) + " "@ + padded(cells[1], widths[1]) + " "@ + padded(
        cells[2],
        widths[2],
    ) + " "@ + padded(cells[3], widths[3]) + " "@ + padded(cells[4], widths[4]) + " "@ + cells[5]
}

/// The widths of the columns for workspaces.
pub open spec fn workspace_widths() -> Seq<int> {
    seq![4, 2, 18, 10, 9]
}

/// The widths of the columns for panes.
pub open spec fn pane_widths() -> Seq<int> {
    seq![7, 7, 18, 10, 9]
}

fn line(a: &str, b: &str, c: &str, d: &str, e: &str, f: &str, wa: usize, wb: usize) -> (r: String)
    ensures
        r@ == row_text(
            seq![a@, b@, c@, d@, e@, f@],
            seq![wa as int, wb as int, 18, 10, 9],
        ),
{
    let mut out = cat5(
        pad(a, wa).as_str(),
        " ",
        pad(b, wb).as_str(),
        " ",
        pad(c, 18).as_str(),
    );
    out.append(" ");
    out.append(pad(d, 10).as_str());
    out.append(" ");
    out.append(pad(e, 9).as_str());
    out.append(" ");
    out.append(f);
    out
}

// --- status ----------------------------------------------------------------------

/// How a theme is lit, as the user reads it.
pub open spec fn mode_text(mode: Option<ThemeMode>) -> Seq<char> {
    match mode {
        Some(ThemeMode::Dark) => "dark"@,
        Some(ThemeMode::Light) => "light (using palettes' light variants where defined)"@,
        Some(ThemeMode::Auto) =>
            "auto_switch — host appearance unknown to plugins; dark palettes used"@,
        None => "unknown"@,
    }
}

fn mode_line(mode: Option<ThemeMode>) -> (r: &'static str)
    ensures
        r@ == mode_text(mode),
{
    match mode {
        Some(ThemeMode::Dark) => "dark",
        Some(ThemeMode::Light) => "light (using palettes' light variants where defined)",
        Some(ThemeMode::Auto) =>
            "auto_switch — host appearance unknown to plugins; dark palettes used",
        None => "unknown",
    }
}

/// The tinted windows, as the user reads them.
pub open spec fn window_text(window_tint: bool, tabs: Seq<(Seq<char>, Seq<char>)>) -> Seq<char> {
    if !window_tint {
        "off"@
    } else if tabs.len() == 0 {
        "on (Apple Terminal; nothing tinted right now)"@
    } else {
        joined(
            tabs.map_values(|p: (Seq<char>, Seq<char>)| p.0 + " "@ + p.1),
            ", "@,
        )
    }
}

fn window_line(window_tint: bool, current: &KeyMap<String>) -> (r: String)
    ensures
        r@ == window_text(window_tint, token_pairs(*current)),
{
    if !window_tint {
        return "off".to_owned();
    }
    if current.len() == 0 {
        return "on (Apple Terminal; nothing tinted right now)".to_owned();
    }
    let mut parts: Vec<String> = Vec::new();
    let ghost tabs = token_pairs(*current);
    let mut i: usize = 0;
    while i < current.entries.len()
        invariant
            tabs == token_pairs(*current),
            i <= current.entries@.len(),
            parts@.len() == i,
            forall|j: int| 0 <= j < i ==> (#[trigger] parts@[j])@ == tabs[j].0 + " "@ + tabs[j].1,
        decreases current.entries@.len() - i,
    {
        parts.push(
            cat3(current.entries[i].0.as_str(), " ", current.entries[i].1.as_str()),
        );
        i += 1;
    }
    assert(texts(parts@) =~= tabs.map_values(
        |p: (Seq<char>, Seq<char>)| p.0 + " "@ + p.1,
    ));
    join(&parts, ", ")
}

/// The head of the status: where things are, and what is managed.
pub open spec fn status_head_of(
    config: Seq<char>,
    state: Seq<char>,
    mode: Option<ThemeMode>,
    c: ConfigView,
    st: StateView,
    tabs: Seq<(Seq<char>, Seq<char>)>,
) -> Seq<Seq<char>> {
    seq![
        "herdr config:  "@ + config,
        "state:         "@ + state,
        "theme mode:    "@ + mode_text(mode),
        "theme keys:    "@ + if st.managed.len() == 0 {
            "none"@
        } else {
            joined(st.managed, ", "@)
        },
        "sidebar rows:  "@ + if !c.sidebar {
            "disabled"@
        } else if st.managed_sidebar.len() == 0 {
            "not managed yet (or user-defined)"@
        } else {
            "managed: "@ + joined(st.managed_sidebar, ", "@)
        },
        "pane tint:     "@ + if c.pane_tint {
            "on (needs the shell hook; run `shell-hook`)"@
        } else {
            "off"@
        },
        "window tint:   "@ + window_text(c.window_tint, tabs),
        ""@,
    ]
}

/// The head of the status: where things are, and what is managed.
pub fn status_head(
    config: &str,
    state: &str,
    mode: Option<ThemeMode>,
    cfg: &PluginConfig,
    st: &State,
) -> (r: Vec<String>)
    ensures
        texts(r@) == status_head_of(
            config@,
            state@,
            mode,
            cfg@,
            st@,
            token_pairs(st.window.current),
        ),
{
    let keys = if st.managed.len() == 0 {
        "none".to_owned()
    } else {
        join(&st.managed, ", ")
    };
    let sidebar = if !cfg.sidebar {
        "disabled".to_owned()
    } else if st.managed_sidebar.len() == 0 {
        "not managed yet (or user-defined)".to_owned()
    } else {
        cat("managed: ", join(&st.managed_sidebar, ", ").as_str())
    };
    let tint = if cfg.pane_tint {
        "on (needs the shell hook; run `shell-hook`)"
    } else {
        "off"
    };
    let r: Vec<String> = vec![
        cat("herdr config:  ", config),
        cat("state:         ", state),
        cat("theme mode:    ", mode_line(mode)),
        cat("theme keys:    ", keys.as_str()),
        cat("sidebar rows:  ", sidebar.as_str()),
        cat("pane tint:     ", tint),
        cat("window tint:   ", window_line(cfg.window_tint, &st.window.current).as_str()),
        "".to_owned(),
    ];
    assert(texts(r@) =~= status_head_of(
        config@,
        state@,
        mode,
        cfg@,
        st@,
        token_pairs(st.window.current),
    ));
    r
}

/// The row of a workspace.
pub open spec fn workspace_row(
    w: WorkspaceView,
    choices: Map<Seq<char>, (Option<Seq<char>>, Via)>,
    home: Seq<char>,
) -> Seq<char> {
    row_text(
        seq![
            w.id,
            if w.focused {
                "*"@
            } else {
                ""@
            },
            w.label,
            or_dash(choices[w.id].0),
            via_name(choices[w.id].1),
            replaced_once(w.cwd, home, "~"@),
        ],
        workspace_widths(),
    )
}

/// The label of a workspace; of the last, where several have the id.
pub open spec fn label_in(all: Seq<WorkspaceView>, id: Seq<char>) -> Seq<char>
    decreases all.len(),
{
    if all.len() == 0 {
        "?"@
    } else if all.last().id == id {
        all.last().label
    } else {
        label_in(all.drop_last(), id)
    }
}

/// A session, as the user reads it: the file name where it is a path.
pub open spec fn session_text(session: Option<Seq<char>>) -> Seq<char> {
    match session {
        None => "-"@,
        Some(s) => match file_name_of(s) {
            Some(n) => n,
            None => s,
        },
    }
}

/// The row of a pane.
pub open spec fn pane_row(
    p: PaneView,
    choices: Map<Seq<char>, (Option<Seq<char>>, Via)>,
    workspaces: Seq<WorkspaceView>,
) -> Seq<char> {
    row_text(
        seq![
            p.id,
            match p.agent {
                Some(a) => a,
                None => "shell"@,
            },
            label_in(workspaces, p.workspace_id),
            or_dash(choices[p.id].0),
            via_name(choices[p.id].1),
            session_text(p.session),
        ],
        pane_widths(),
    )
}

/// The tables of the status: what every workspace and every pane gets, and why.
pub open spec fn status_tables_of(
    c: ConfigView,
    home: Seq<char>,
    workspaces: Seq<WorkspaceView>,
    panes: Seq<PaneView>,
) -> Seq<Seq<char>> {
    let ws = workspace_choices(c, home, workspaces);
    let ps = pane_choices(c, ws, panes);
    seq![row_text(seq!["WS"@, ""@, "LABEL"@, "PALETTE"@, "VIA"@, "CWD"@], workspace_widths())]
        + workspaces.map_values(|w: WorkspaceView| workspace_row(w, ws, home)) + seq![
        ""@,
        row_text(
            seq!["PANE"@, "AGENT"@, "WORKSPACE"@, "PALETTE"@, "VIA"@, "SESSION"@],
            pane_widths(),
        ),
    ] + panes.map_values(|p: PaneView| pane_row(p, ps, workspaces))
}

proof fn lemma_workspace_known(
    c: ConfigView,
    home: Seq<char>,
    all: Seq<WorkspaceView>,
    i: int,
)
    requires
        0 <= i < all.len(),
    ensures
        workspace_choices(c, home, all).contains_key(all[i].id),
    decreases all.len(),
{
    if i < all.len() - 1 {
        lemma_workspace_known(c, home, all.drop_last(), i);
    }
}

proof fn lemma_pane_known(
    c: ConfigView,
    ws: Map<Seq<char>, (Option<Seq<char>>, Via)>,
    panes: Seq<PaneView>,
    i: int,
)
    requires
        0 <= i < panes.len(),
    ensures
        pane_choices(c, ws, panes).contains_key(panes[i].id),
    decreases panes.len(),
{
    if i < panes.len() - 1 {
        lemma_pane_known(c, ws, panes.drop_last(), i);
    }
}

fn label_of<'a>(all: &'a Vec<Workspace>, id: &str) -> (r: &'a str)
    ensures
        r@ == label_in(workspace_views(all@), id@),
{
    let ghost views = workspace_views(all@);
    let mut n: usize = all.len();
    assert(views.take(n as int) =~= views);
    while n > 0
        invariant
            views == workspace_views(all@),
            n <= all@.len(),
            label_in(views, id@) == label_in(views.take(n as int), id@),
        decreases n,
    {
        let w = &all[n - 1];
        proof {
            assert(views.take(n as int).last() == w@);
            assert(views.take(n as int).drop_last() =~= views.take(n - 1));
        }
        if same(w.id.as_str(), id) {
            return w.label.as_str();
        }
        n -= 1;
    }
    "?"
}

fn session_name(session: &Option<String>) -> (r: String)
    ensures
        r@ == session_text(opt_text(*session)),
{
    match session {
        None => "-".to_owned(),
        Some(s) => match file_name(s.as_str()) {
            Some(n) => n,
            None => s.clone(),
        },
    }
}

fn workspace_rows(
    workspaces: &Vec<Workspace>,
    choices: &KeyMap<(Option<String>, Via)>,
    home: &str,
) -> (r: Vec<String>)
    requires
        choices.wf(),
        forall|i: int|
            0 <= i < workspaces@.len() ==> choices@.contains_key((#[trigger] workspaces@[i]).id@),
    ensures
        texts(r@) == workspace_views(workspaces@).map_values(
            |w: WorkspaceView| workspace_row(w, choice_map(*choices), home@),
        ),
{
    let mut out: Vec<String> = Vec::new();
    let ghost cm = choice_map(*choices);
    let mut i: usize = 0;
    while i < workspaces.len()
        invariant
            choices.wf(),
            cm == choice_map(*choices),
            forall|i: int|
                0 <= i < workspaces@.len() ==> choices@.contains_key(
                    (#[trigger] workspaces@[i]).id@,
                ),
            i <= workspaces@.len(),
            out@.len() == i,
            forall|j: int|
                0 <= j < i ==> (#[trigger] out@[j])@ == workspace_row(workspaces@[j]@, cm, home@),
        decreases workspaces@.len() - i,
    {
        let w = &workspaces[i];
        assert(choices@.contains_key(w.id@));
        match choices.get(w.id.as_str()) {
            Some(e) => {
                out.push(
                    line(
                        w.id.as_str(),
                        if w.focused {
                            "*"
                        } else {
                            ""
                        },
                        w.label.as_str(),
                        dashed(as_opt_str(&e.0)),
                        via_str(e.1),
                        replace_once(w.cwd.as_str(), home, "~").as_str(),
                        4,
                        2,
                    ),
                );
            },
            None => {
                assert(false);
            },
        }
        i += 1;
    }
    assert(texts(out@) =~= workspace_views(workspaces@).map_values(
        |w: WorkspaceView| workspace_row(w, cm, home@),
    ));
    out
}

fn pane_rows(
    panes: &Vec<Pane>,
    choices: &KeyMap<(Option<String>, Via)>,
    workspaces: &Vec<Workspace>,
) -> (r: Vec<String>)
    requires
        choices.wf(),
        forall|i: int|
            0 <= i < panes@.len() ==> choices@.contains_key((#[trigger] panes@[i]).id@),
    ensures
        texts(r@) == pane_views(panes@).map_values(
            |p: PaneView| pane_row(p, choice_map(*choices), workspace_views(workspaces@)),
        ),
{
    let mut out: Vec<String> = Vec::new();
    let ghost cm = choice_map(*choices);
    let ghost wv = workspace_views(workspaces@);
    let mut i: usize = 0;
    while i < panes.len()
        invariant
            choices.wf(),
            cm == choice_map(*choices),
            wv == workspace_views(workspaces@),
            forall|i: int|
                0 <= i < panes@.len() ==> choices@.contains_key((#[trigger] panes@[i]).id@),
            i <= panes@.len(),
            out@.len() == i,
            forall|j: int| 0 <= j < i ==> (#[trigger] out@[j])@ == pane_row(panes@[j]@, cm, wv),
        decreases panes@.len() - i,
    {
        let p = &panes[i];
        assert(choices@.contains_key(p.id@));
        match choices.get(p.id.as_str()) {
            Some(e) => {
                out.push(
                    line(
                        p.id.as_str(),
                        match &p.agent {
                            Some(a) => a.as_str(),
                            None => "shell",
                        },
                        label_of(workspaces, p.workspace_id.as_str()),
                        dashed(as_opt_str(&e.0)),
                        via_str(e.1),
                        session_name(&p.session).as_str(),
                        7,
                        7,
                    ),
                );
            },
            None => {
                assert(false);
            },
        }
        i += 1;
    }
    assert(texts(out@) =~= pane_views(panes@).map_values(|p: PaneView| pane_row(p, cm, wv)));
    out
}

/// The tables of the status: what every workspace and every pane gets, and why.
pub fn status_tables(
    cfg: &PluginConfig,
    home: &str,
    workspaces: &Vec<Workspace>,
    panes: &Vec<Pane>,
) -> (r: Vec<String>)
    requires
        cfg.valid(),
    ensures
        texts(r@) == status_tables_of(
            cfg@,
            home@,
            workspace_views(workspaces@),
            pane_views(panes@),
        ),
{
    let ghost wv = workspace_views(workspaces@);
    let ghost pv = pane_views(panes@);
    proof {
        assert forall|i: int| 0 <= i < workspaces@.len() implies choosable(
            cfg@,
            home@,
            (#[trigger] workspaces@[i])@,
        ) by {
            law_chosen_palettes_are_defined(cfg, home@, workspaces@[i].label@, workspaces@[i].cwd@);
        }
    }
    let a = assign(cfg, home, workspaces, panes);
    proof {
        let ws = choice_map(a.ws_palette);
        let ps = choice_map(a.pane_palette);
        assert forall|i: int| 0 <= i < workspaces@.len() implies a.ws_palette@.contains_key(
            (#[trigger] workspaces@[i]).id@,
        ) by {
            lemma_workspace_known(cfg@, home@, wv, i);
            assert(wv[i].id == workspaces@[i].id@);
            assert(ws.contains_key(workspaces@[i].id@));
        }
        assert forall|i: int| 0 <= i < panes@.len() implies a.pane_palette@.contains_key(
            (#[trigger] panes@[i]).id@,
        ) by {
            lemma_pane_known(cfg@, ws, pv, i);
            assert(pv[i].id == panes@[i].id@);
            assert(ps.contains_key(panes@[i].id@));
        }
    }
    let mut out: Vec<String> = vec![line("WS", "", "LABEL", "PALETTE", "VIA", "CWD", 4, 2)];
    let mut rows = workspace_rows(workspaces, &a.ws_palette, home);
    let mut middle: Vec<String> = vec![
        "".to_owned(),
        line("PANE", "AGENT", "WORKSPACE", "PALETTE", "VIA", "SESSION", 7, 7),
    ];
    let mut more = pane_rows(panes, &a.pane_palette, workspaces);
    let ghost parts = (texts(out@), texts(rows@), texts(middle@), texts(more@));
    out.append(&mut rows);
    out.append(&mut middle);
    out.append(&mut more);
    proof {
        assert(texts(out@) =~= parts.0 + parts.1 + parts.2 + parts.3);
        assert(parts.0 =~= seq![
            row_text(seq!["WS"@, ""@, "LABEL"@, "PALETTE"@, "VIA"@, "CWD"@], workspace_widths()),
        ]);
        assert(parts.2 =~= seq![
            ""@,
            row_text(
                seq!["PANE"@, "AGENT"@, "WORKSPACE"@, "PALETTE"@, "VIA"@, "SESSION"@],
                pane_widths(),
            ),
        ]);
    }
    out
}

// --- validate --------------------------------------------------------------------

/// A truth value, as the user reads it.
pub open spec fn bool_text(b: bool) -> Seq<char> {
    if b {
        "true"@
    } else {
        "false"@
    }
}

fn truth(b: bool) -> (r: &'static str)
    ensures
        r@ == bool_text(b),
{
    if b {
        "true"
    } else {
        "false"
    }
}

/// A palette, as the user reads it.
pub open spec fn palette_line(name: Seq<char>, p: Palette) -> Seq<char> {
    "  "@ + name + ": "@ + joined(
        token_pairs(p.tokens).map_values(|e: (Seq<char>, Seq<char>)| e.0 + "="@ + e.1),
        " "@,
    ) + (match opt_text(p.pane_bg) {
        Some(bg) => " pane_bg="@ + bg,
        None => ""@,
    }) + (if p.light is Some {
        " (+light)"@
    } else {
        ""@
    })
}

fn show_palette(name: &str, p: &Palette) -> (r: String)
    ensures
        r@ == palette_line(name@, *p),
{
    let ghost pairs = token_pairs(p.tokens);
    let mut parts: Vec<String> = Vec::new();
    let mut i: usize = 0;
    while i < p.tokens.entries.len()
        invariant
            pairs == token_pairs(p.tokens),
            i <= p.tokens.entries@.len(),
            parts@.len() == i,
            forall|j: int|
                0 <= j < i ==> (#[trigger] parts@[j])@ == pairs[j].0 + "="@ + pairs[j].1,
        decreases p.tokens.entries@.len() - i,
    {
        parts.push(cat3(p.tokens.entries[i].0.as_str(), "=", p.tokens.entries[i].1.as_str()));
        i += 1;
    }
    assert(texts(parts@) =~= pairs.map_values(|e: (Seq<char>, Seq<char>)| e.0 + "="@ + e.1));
    let bg = match &p.pane_bg {
        Some(b) => cat(" pane_bg=", b.as_str()),
        None => "".to_owned(),
    };
    let light = if p.light.is_some() {
        " (+light)"
    } else {
        ""
    };
    let mut out = cat4("  ", name, ": ", join(&parts, " ").as_str());
    out.append(bg.as_str());
    out.append(light);
    out
}

/// What a workspace rule is for, as the user reads it.
pub open spec fn rule_text(r: RuleView) -> Seq<char> {
    match (r.label, r.path) {
        (Some(l), Some(p)) => "label "@ + debug_text(l) + " or path "@ + p,
        (Some(l), None) => "label "@ + debug_text(l),
        (None, Some(p)) => "path "@ + p,
        (None, None) => "(invalid)"@,
    }
}

fn show_rule(x: &Rule) -> (r: String)
    ensures
        r@ == "  "@ + rule_text(x@) + " → "@ + x.palette@,
{
    let what = match (&x.label, &x.path) {
        (Some(l), Some(p)) => cat4("label ", quoted(l.as_str()).as_str(), " or path ", p.as_str()),
        (Some(l), None) => cat("label ", quoted(l.as_str()).as_str()),
        (None, Some(p)) => cat("path ", p.as_str()),
        (None, None) => "(invalid)".to_owned(),
    };
    cat4("  ", what.as_str(), " → ", x.palette.as_str())
}

/// The report on a configuration that is accepted.
pub open spec fn validate_report_of(
    config: Seq<char>,
    herdr_config: Seq<char>,
    cfg: PluginConfig,
) -> Seq<Seq<char>> {
    seq![
        "config: "@ + config,
        "herdr config: "@ + herdr_config,
        "auto: "@ + bool_text(cfg.auto) + "   sidebar: "@ + bool_text(cfg.sidebar)
            + "   marker: "@ + cfg.marker@ + "   pane tint: "@ + bool_text(cfg.pane_tint),
        "palettes ("@ + decimal(cfg.palettes.entries@.len()) + "):"@,
    ] + cfg.palettes.entries@.map_values(|e: (String, Palette)| palette_line(e.0@, e.1)) + seq![
        "workspace rules ("@ + decimal(cfg.rules@.len()) + "):"@,
    ] + cfg.rules@.map_values(|x: Rule| "  "@ + rule_text(x@) + " → "@ + x.palette@) + seq![
        "agent rules ("@ + decimal(cfg.agents@.len()) + "):"@,
    ] + cfg.agents@.map_values(
        |x: AgentRule| "  session "@ + x.session@ + " → "@ + x.palette@,
    ) + seq!["config is valid."@]
}

fn palette_lines(m: &KeyMap<Palette>) -> (r: Vec<String>)
    ensures
        texts(r@) == m.entries@.map_values(|e: (String, Palette)| palette_line(e.0@, e.1)),
{
    let mut out: Vec<String> = Vec::new();
    let mut i: usize = 0;
    while i < m.entries.len()
        invariant
            i <= m.entries@.len(),
            out@.len() == i,
            forall|j: int|
                0 <= j < i ==> (#[trigger] out@[j])@ == palette_line(
                    m.entries@[j].0@,
                    m.entries@[j].1,
                ),
        decreases m.entries@.len() - i,
    {
        out.push(show_palette(m.entries[i].0.as_str(), &m.entries[i].1));
        i += 1;
    }
    assert(texts(out@) =~= m.entries@.map_values(
        |e: (String, Palette)| palette_line(e.0@, e.1),
    ));
    out
}

fn rule_lines(v: &Vec<Rule>) -> (r: Vec<String>)
    ensures
        texts(r@) == v@.map_values(|x: Rule| "  "@ + rule_text(x@) + " → "@ + x.palette@),
{
    let mut out: Vec<String> = Vec::new();
    let mut i: usize = 0;
    while i < v.len()
        invariant
            i <= v@.len(),
            out@.len() == i,
            forall|j: int|
                0 <= j < i ==> (#[trigger] out@[j])@ == "  "@ + rule_text(v@[j]@) + " → "@
                    + v@[j].palette@,
        decreases v@.len() - i,
    {
        out.push(show_rule(&v[i]));
        i += 1;
    }
    assert(texts(out@) =~= v@.map_values(
        |x: Rule| "  "@ + rule_text(x@) + " → "@ + x.palette@,
    ));
    out
}

fn agent_lines(v: &Vec<AgentRule>) -> (r: Vec<String>)
    ensures
        texts(r@) == v@.map_values(
            |x: AgentRule| "  session "@ + x.session@ + " → "@ + x.palette@,
        ),
{
    let mut out: Vec<String> = Vec::new();
    let mut i: usize = 0;
    while i < v.len()
        invariant
            i <= v@.len(),
            out@.len() == i,
            forall|j: int|
                0 <= j < i ==> (#[trigger] out@[j])@ == "  session "@ + v@[j].session@ + " → "@
                    + v@[j].palette@,
        decreases v@.len() - i,
    {
        out.push(cat4("  session ", v[i].session.as_str(), " → ", v[i].palette.as_str()));
        i += 1;
    }
    assert(texts(out@) =~= v@.map_values(
        |x: AgentRule| "  session "@ + x.session@ + " → "@ + x.palette@,
    ));
    out
}

/// The report on a configuration that is accepted.
pub fn validate_report(config: &str, herdr_config: &str, cfg: &PluginConfig) -> (r: Vec<String>)
    ensures
        texts(r@) == validate_report_of(config@, herdr_config@, *cfg),
{
    let mut flags = cat5(
        "auto: ",
        truth(cfg.auto),
        "   sidebar: ",
        truth(cfg.sidebar),
        "   marker: ",
    );
    flags.append(cfg.marker.as_str());
    flags.append("   pane tint: ");
    flags.append(truth(cfg.pane_tint));
    let mut out: Vec<String> = vec![
        cat("config: ", config),
        cat("herdr config: ", herdr_config),
        flags,
        cat3("palettes (", number(cfg.palettes.len() as u64).as_str(), "):"),
    ];
    let mut palettes = palette_lines(&cfg.palettes);
    let mut head2: Vec<String> = vec![
        cat3("workspace rules (", number(cfg.rules.len() as u64).as_str(), "):"),
    ];
    let mut rules = rule_lines(&cfg.rules);
    let mut head3: Vec<String> = vec![
        cat3("agent rules (", number(cfg.agents.len() as u64).as_str(), "):"),
    ];
    let mut agents = agent_lines(&cfg.agents);
    let mut tail: Vec<String> = vec!["config is valid.".to_owned()];
    let ghost parts = seq![
        texts(out@),
        texts(palettes@),
        texts(head2@),
        texts(rules@),
        texts(head3@),
        texts(agents@),
        texts(tail@),
    ];
    proof {
        assert(parts[0] =~= seq![
            "config: "@ + config@,
            "herdr config: "@ + herdr_config@,
            "auto: "@ + bool_text(cfg.auto) + "   sidebar: "@ + bool_text(cfg.sidebar)
                + "   marker: "@ + cfg.marker@ + "   pane tint: "@ + bool_text(cfg.pane_tint),
            "palettes ("@ + decimal(cfg.palettes.entries@.len()) + "):"@,
        ]);
        assert(parts[2] =~= seq!["workspace rules ("@ + decimal(cfg.rules@.len()) + "):"@]);
        assert(parts[4] =~= seq!["agent rules ("@ + decimal(cfg.agents@.len()) + "):"@]);
        assert(parts[6] =~= seq!["config is valid."@]);
    }
    out.append(&mut palettes);
    out.append(&mut head2);
    out.append(&mut rules);
    out.append(&mut head3);
    out.append(&mut agents);
    out.append(&mut tail);
    assert(texts(out@) =~= parts[0] + parts[1] + parts[2] + parts[3] + parts[4] + parts[5]
        + parts[6]);
    out
}

// --- palettes --------------------------------------------------------------------

/// A palette in the list of palettes.
pub open spec fn palette_entry(name: Seq<char>, p: PaletteView) -> Seq<char> {
    padded(name, 8) + " accent "@ + or_dash(lookup(p.tokens, "accent"@)) + "  sidebar_bg "@
        + or_dash(lookup(p.tokens, "sidebar_bg"@)) + "  pane "@ + or_dash(pane_bg_of(p, false))
        + if p.light is Some {
        "  (+light)"@
    } else {
        ""@
    }
}

fn list_palette(name: &str, p: &Palette) -> (r: String)
    requires
        p.wf(),
    ensures
        r@ == palette_entry(name@, p@),
{
    let accent = p.tokens.copy_of("accent");
    let sidebar = p.tokens.copy_of("sidebar_bg");
    let pane = p.pane_bg(false);
    let mut out = cat5(
        pad(name, 8).as_str(),
        " accent ",
        dashed(as_opt_str(&accent)),
        "  sidebar_bg ",
        dashed(as_opt_str(&sidebar)),
    );
    out.append("  pane ");
    out.append(dashed(as_opt_str(&pane)));
    out.append(
        if p.light.is_some() {
            "  (+light)"
        } else {
            ""
        },
    );
    out
}

/// The list of palettes, in the order of their names.
pub open spec fn palettes_report_of(c: ConfigView) -> Seq<Seq<char>> {
    sorted_keys(c.palettes).map_values(|n: Seq<char>| palette_entry(n, c.palettes[n]))
}

/// The list of palettes.
pub fn palettes_report(cfg: &PluginConfig) -> (r: Vec<String>)
    requires
        cfg.wf(),
    ensures
        texts(r@) == palettes_report_of(cfg@),
{
    let mut out: Vec<String> = Vec::new();
    let ghost names = cfg.palettes.keys();
    proof {
        assert(cfg@.palettes.dom() =~= cfg.palettes@.dom());
        cfg.palettes.lemma_sorted_keys(cfg@.palettes);
    }
    let mut i: usize = 0;
    while i < cfg.palettes.entries.len()
        invariant
            cfg.wf(),
            names == cfg.palettes.keys(),
            names.len() == cfg.palettes.entries@.len(),
            i <= names.len(),
            out@.len() == i,
            forall|j: int|
                0 <= j < i ==> (#[trigger] out@[j])@ == palette_entry(
                    names[j],
                    cfg@.palettes[names[j]],
                ),
        decreases names.len() - i,
    {
        proof {
            cfg.palettes.lemma_entry(i as int);
        }
        out.push(
            list_palette(cfg.palettes.entries[i].0.as_str(), &cfg.palettes.entries[i].1),
        );
        i += 1;
    }
    assert(texts(out@) =~= names.map_values(
        |n: Seq<char>| palette_entry(n, cfg@.palettes[n]),
    ));
    out
}

} // verus!
