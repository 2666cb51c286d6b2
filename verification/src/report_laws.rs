//! What the user reads: every value in its column, and every line about what it
//! says it is about.
use crate::config::{ConfigView, PluginConfig, RuleView};
use crate::herdr::{PaneView, WorkspaceView};
use crate::keymap::{lemma_sorted, sorted_keys};
use crate::palette::{Palette, PaletteView};
use crate::paths_laws::law_file_name;
use crate::plan::token_pairs;
use crate::report::{
    label_in, mode_text, palette_entry, palette_line, palettes_report_of, pane_row, row_text,
    rule_text, session_text, status_head_of, status_tables_of, validate_report_of, window_text,
    workspace_row,
};
use crate::select::{choice, pane_choices, via_name, workspace_choices, ThemeMode, Via};
use crate::select_laws::law_each_workspace_has_its_own;
use crate::state::StateView;
use crate::text::{debug_text, decimal, joined, padded, replaced_once};
use vstd::prelude::*;

verus! {

// --- columns ---------------------------------------------------------------------

/// Each cell of a row that is no wider than its column begins where the column
/// does, one blank behind the column before, and the last cell ends the row.
pub proof fn law_cells_stand_in_their_columns(cells: Seq<Seq<char>>, widths: Seq<int>)
    requires
        cells.len() == 6,
        widths.len() == 5,
        forall|k: int| 0 <= k < 5 ==> (#[trigger] cells[k]).len() <= widths[k],
    ensures
        ({
            let row = row_text(cells, widths);
            let b = widths[0] + 1;
            let c = b + widths[1] + 1;
            let d = c + widths[2] + 1;
            let e = d + widths[3] + 1;
            let f = e + widths[4] + 1;
            &&& row.len() == f + cells[5].len()
            &&& row.subrange(0, cells[0].len() as int) == cells[0]
            &&& row.subrange(b, b + cells[1].len()) == cells[1]
            &&& row.subrange(c, c + cells[2].len()) == cells[2]
            &&& row.subrange(d, d + cells[3].len()) == cells[3]
            &&& row.subrange(e, e + cells[4].len()) == cells[4]
            &&& row.skip(f) == cells[5]
            &&& forall|i: int|
                (cells[0].len() <= i < b || b + cells[1].len() <= i < c || c + cells[2].len() <= i
                    < d || d + cells[3].len() <= i < e || e + cells[4].len() <= i < f)
                    ==> #[trigger] row[i] == ' '
        }),
{
    reveal_strlit(" ");
    assert(" "@ =~= seq![' ']);
    assert(cells[0].len() <= widths[0] && cells[1].len() <= widths[1] && cells[2].len()
        <= widths[2] && cells[3].len() <= widths[3] && cells[4].len() <= widths[4]);
    let row = row_text(cells, widths);
    let p0 = padded(cells[0], widths[0]);
    let p1 = padded(cells[1], widths[1]);
    let p2 = padded(cells[2], widths[2]);
    let p3 = padded(cells[3], widths[3]);
    let p4 = padded(cells[4], widths[4]);
    assert(p0.len() == widths[0] && p1.len() == widths[1] && p2.len() == widths[2] && p3.len()
        == widths[3] && p4.len() == widths[4]);
    let b = widths[0] + 1;
    let c = b + widths[1] + 1;
    let d = c + widths[2] + 1;
    let e = d + widths[3] + 1;
    let f = e + widths[4] + 1;
    assert(row.subrange(0, cells[0].len() as int) =~= cells[0]);
    assert(row.subrange(b, b + cells[1].len()) =~= cells[1]);
    assert(row.subrange(c, c + cells[2].len()) =~= cells[2]);
    assert(row.subrange(d, d + cells[3].len()) =~= cells[3]);
    assert(row.subrange(e, e + cells[4].len()) =~= cells[4]);
    assert(row.skip(f) =~= cells[5]);
}

proof fn lemma_via_width(v: Via)
    ensures
        via_name(v).len() <= 9,
{
    reveal_strlit("agent");
    reveal_strlit("rule");
    reveal_strlit("auto");
    reveal_strlit("none");
}

// --- status ----------------------------------------------------------------------

/// The row of a workspace shows its id, a star where it is in focus, its label, the
/// palette that was chosen for its id or a dash, why, and its directory with a tilde
/// for the home directory; what is no wider than its column stands in it.
pub proof fn law_row_of_a_workspace(
    w: WorkspaceView,
    choices: Map<Seq<char>, (Option<Seq<char>>, Via)>,
    home: Seq<char>,
)
    requires
        w.id.len() <= 4,
        w.label.len() <= 18,
        choices[w.id].0 is Some ==> choices[w.id].0->0.len() <= 10,
    ensures
        ({
            let row = workspace_row(w, choices, home);
            let (palette, via) = choices[w.id];
            &&& row.subrange(0, w.id.len() as int) == w.id
            &&& row[5] == if w.focused {
                '*'
            } else {
                ' '
            }
            &&& row.subrange(8, 8 + w.label.len() as int) == w.label
            &&& palette is Some ==> row.subrange(27, 27 + palette->0.len() as int) == palette->0
            &&& palette is None ==> row[27] == '-'
            &&& row.subrange(38, 38 + via_name(via).len() as int) == via_name(via)
            &&& row.skip(48) == replaced_once(w.cwd, home, "~"@)
        }),
{
    reveal_strlit("-");
    reveal_strlit("*");
    reveal_strlit("");
    lemma_via_width(choices[w.id].1);
    let star = if w.focused {
        "*"@
    } else {
        ""@
    };
    let (palette, via) = choices[w.id];
    let shown = match palette {
        Some(s) => s,
        None => "-"@,
    };
    let cells = seq![w.id, star, w.label, shown, via_name(via), replaced_once(w.cwd, home, "~"@)];
    let widths = seq![4int, 2, 18, 10, 9];
    let row = workspace_row(w, choices, home);
    assert(row == row_text(cells, widths));
    law_cells_stand_in_their_columns(cells, widths);
    assert(row.subrange(5, 5 + star.len() as int) == star);
    if w.focused {
        assert(row[5] == row.subrange(5, 6)[0]);
    } else {
        assert(row[5] == ' ');
    }
    assert(row.subrange(27, 27 + shown.len() as int) == shown);
    if palette is None {
        assert(row[27] == row.subrange(27, 28)[0]);
    }
}

/// The row of a pane shows its id, its agent or that it is a shell, the label of its
/// workspace, the palette that was chosen for its id or a dash, why, and its session.
pub proof fn law_row_of_a_pane(
    p: PaneView,
    choices: Map<Seq<char>, (Option<Seq<char>>, Via)>,
    workspaces: Seq<WorkspaceView>,
)
    requires
        p.id.len() <= 7,
        p.agent is Some ==> p.agent->0.len() <= 7,
        label_in(workspaces, p.workspace_id).len() <= 18,
        choices[p.id].0 is Some ==> choices[p.id].0->0.len() <= 10,
    ensures
        ({
            let row = pane_row(p, choices, workspaces);
            let (palette, via) = choices[p.id];
            let label = label_in(workspaces, p.workspace_id);
            &&& row.subrange(0, p.id.len() as int) == p.id
            &&& p.agent is Some ==> row.subrange(8, 8 + p.agent->0.len() as int) == p.agent->0
            &&& p.agent is None ==> row.subrange(8, 13) == "shell"@
            &&& row.subrange(16, 16 + label.len() as int) == label
            &&& palette is Some ==> row.subrange(35, 35 + palette->0.len() as int) == palette->0
            &&& palette is None ==> row[35] == '-'
            &&& row.subrange(46, 46 + via_name(via).len() as int) == via_name(via)
            &&& row.skip(56) == session_text(p.session)
        }),
{
    reveal_strlit("-");
    reveal_strlit("shell");
    lemma_via_width(choices[p.id].1);
    let (palette, via) = choices[p.id];
    let agent = match p.agent {
        Some(a) => a,
        None => "shell"@,
    };
    let shown = match palette {
        Some(s) => s,
        None => "-"@,
    };
    let label = label_in(workspaces, p.workspace_id);
    let cells = seq![p.id, agent, label, shown, via_name(via), session_text(p.session)];
    let widths = seq![7int, 7, 18, 10, 9];
    let row = pane_row(p, choices, workspaces);
    assert(row == row_text(cells, widths));
    law_cells_stand_in_their_columns(cells, widths);
    assert(row.subrange(8, 8 + agent.len() as int) == agent);
    assert(row.subrange(35, 35 + shown.len() as int) == shown);
    if palette is None {
        assert(row[35] == row.subrange(35, 36)[0]);
    }
}

/// The label of a workspace is that of the last with its id, and a question mark
/// where none has it.
pub proof fn law_label_of_an_id(all: Seq<WorkspaceView>, id: Seq<char>, i: int)
    requires
        -1 <= i < all.len(),
        forall|j: int| i < j < all.len() ==> (#[trigger] all[j]).id != id,
        i >= 0 ==> all[i].id == id,
    ensures
        i >= 0 ==> label_in(all, id) == all[i].label,
        i < 0 ==> label_in(all, id) == seq!['?'],
    decreases all.len(),
{
    reveal_strlit("?");
    assert("?"@ =~= seq!['?']);
    if i < all.len() - 1 {
        let rest = all.drop_last();
        assert(all[all.len() - 1] == all.last());
        assert forall|j: int| i < j < rest.len() implies (#[trigger] rest[j]).id != id by {
            assert(rest[j] == all[j]);
        }
        law_label_of_an_id(rest, id, i);
    }
}

/// A session is shown by the name of its file where it is a path, as it is where it
/// is none, and by a dash where there is none.
pub proof fn law_session_is_shown_by_name(dir: Seq<char>, name: Seq<char>)
    requires
        !name.contains('/'),
        name.len() > 0,
        name != seq!['.'],
        name != seq!['.', '.'],
    ensures
        session_text(Some(dir + seq!['/'] + name)) == name,
        session_text(Some(name)) == name,
        session_text(None) == seq!['-'],
{
    reveal_strlit("-");
    assert("-"@ =~= seq!['-']);
    law_file_name(dir, name);
}

/// The tables of the status: a head, a row for each workspace in their order, a
/// blank line, a head, and a row for each pane in their order.
pub proof fn law_status_has_a_row_for_each(
    c: ConfigView,
    home: Seq<char>,
    workspaces: Seq<WorkspaceView>,
    panes: Seq<PaneView>,
    i: int,
)
    ensures
        ({
            let lines = status_tables_of(c, home, workspaces, panes);
            let ws = workspace_choices(c, home, workspaces);
            let ps = pane_choices(c, ws, panes);
            let n = workspaces.len() as int;
            &&& lines.len() == n + panes.len() + 3
            &&& 0 <= i < n ==> lines[1 + i] == workspace_row(workspaces[i], ws, home)
            &&& lines[1 + n].len() == 0
            &&& 0 <= i < panes.len() ==> lines[3 + n + i] == pane_row(panes[i], ps, workspaces)
        }),
{
    reveal_strlit("");
    let lines = status_tables_of(c, home, workspaces, panes);
    let n = workspaces.len() as int;
    if 0 <= i < n {
        assert(lines[1 + i] == workspace_row(
            workspaces[i],
            workspace_choices(c, home, workspaces),
            home,
        ));
    }
    assert(lines[1 + n] == ""@);
}

/// The heads of the tables name the columns over their places.
pub proof fn law_heads_name_the_columns(
    c: ConfigView,
    home: Seq<char>,
    workspaces: Seq<WorkspaceView>,
    panes: Seq<PaneView>,
)
    ensures
        ({
            let lines = status_tables_of(c, home, workspaces, panes);
            let head = lines[0];
            let other = lines[2 + workspaces.len() as int];
            &&& head.subrange(0, 2) == "WS"@
            &&& head.subrange(8, 13) == "LABEL"@
            &&& head.subrange(27, 34) == "PALETTE"@
            &&& head.subrange(38, 41) == "VIA"@
            &&& head.skip(48) == "CWD"@
            &&& other.subrange(0, 4) == "PANE"@
            &&& other.subrange(8, 13) == "AGENT"@
            &&& other.subrange(16, 25) == "WORKSPACE"@
            &&& other.subrange(35, 42) == "PALETTE"@
            &&& other.subrange(46, 49) == "VIA"@
            &&& other.skip(56) == "SESSION"@
        }),
{
    reveal_strlit("WS");
    reveal_strlit("");
    reveal_strlit("LABEL");
    reveal_strlit("PALETTE");
    reveal_strlit("VIA");
    reveal_strlit("CWD");
    reveal_strlit("PANE");
    reveal_strlit("AGENT");
    reveal_strlit("WORKSPACE");
    reveal_strlit("SESSION");
    let a = seq!["WS"@, ""@, "LABEL"@, "PALETTE"@, "VIA"@, "CWD"@];
    let b = seq!["PANE"@, "AGENT"@, "WORKSPACE"@, "PALETTE"@, "VIA"@, "SESSION"@];
    let lines = status_tables_of(c, home, workspaces, panes);
    assert(lines[0] == row_text(a, seq![4int, 2, 18, 10, 9]));
    assert(lines[2 + workspaces.len() as int] == row_text(b, seq![7int, 7, 18, 10, 9]));
    law_cells_stand_in_their_columns(a, seq![4int, 2, 18, 10, 9]);
    law_cells_stand_in_their_columns(b, seq![7int, 7, 18, 10, 9]);
}

/// The status tells of every workspace with an id of its own what applying it would
/// choose, and why.
pub proof fn law_status_tells_the_choice(
    c: ConfigView,
    home: Seq<char>,
    workspaces: Seq<WorkspaceView>,
    panes: Seq<PaneView>,
    i: int,
)
    requires
        0 <= i < workspaces.len(),
        forall|j: int| i < j < workspaces.len() ==> (#[trigger] workspaces[j]).id
            != workspaces[i].id,
        workspaces[i].id.len() <= 4,
        workspaces[i].label.len() <= 18,
        choice(c, home, workspaces[i].label, workspaces[i].cwd).0 is Some ==> choice(
            c,
            home,
            workspaces[i].label,
            workspaces[i].cwd,
        ).0->0.len() <= 10,
    ensures
        ({
            let w = workspaces[i];
            let row = status_tables_of(c, home, workspaces, panes)[1 + i];
            let (palette, via) = choice(c, home, w.label, w.cwd);
            &&& row.subrange(0, w.id.len() as int) == w.id
            &&& palette is Some ==> row.subrange(27, 27 + palette->0.len() as int) == palette->0
            &&& palette is None ==> row[27] == '-'
            &&& row.subrange(38, 38 + via_name(via).len() as int) == via_name(via)
        }),
{
    let ws = workspace_choices(c, home, workspaces);
    law_status_has_a_row_for_each(c, home, workspaces, panes, i);
    law_each_workspace_has_its_own(c, home, workspaces, i, workspaces[i].id);
    law_row_of_a_workspace(workspaces[i], ws, home);
}

/// How a theme is lit is told in different words.
pub proof fn law_modes_are_told_apart(a: Option<ThemeMode>, b: Option<ThemeMode>)
    ensures
        mode_text(a) == mode_text(b) ==> a == b,
        mode_text(Some(ThemeMode::Dark)) == "dark"@,
        mode_text(None) == "unknown"@,
        mode_text(Some(ThemeMode::Light)).take(5) == "light"@,
        mode_text(Some(ThemeMode::Auto)).take(11) == "auto_switch"@,
{
    reveal_strlit("dark");
    reveal_strlit("unknown");
    reveal_strlit("light");
    reveal_strlit("auto_switch");
    reveal_strlit("light (using palettes' light variants where defined)");
    reveal_strlit("auto_switch — host appearance unknown to plugins; dark palettes used");
    assert(mode_text(Some(ThemeMode::Light)).take(5) =~= "light"@);
    assert(mode_text(Some(ThemeMode::Auto)).take(11) =~= "auto_switch"@);
    assert(mode_text(Some(ThemeMode::Dark))[0] == 'd' && mode_text(None)[0] == 'u' && mode_text(
        Some(ThemeMode::Light),
    )[0] == 'l' && mode_text(Some(ThemeMode::Auto))[0] == 'a');
}

/// The head of the status tells, line by line, where Herdr's configuration and the
/// state are, how the theme is lit, which keys and which rows are managed, and
/// whether panes and windows are tinted; a blank line ends it.
pub proof fn law_head_of_the_status(
    config: Seq<char>,
    state: Seq<char>,
    mode: Option<ThemeMode>,
    c: ConfigView,
    st: StateView,
    tabs: Seq<(Seq<char>, Seq<char>)>,
)
    ensures
        ({
            let lines = status_head_of(config, state, mode, c, st, tabs);
            &&& lines.len() == 8
            &&& lines[0] == "herdr config:  "@ + config
            &&& lines[1] == "state:         "@ + state
            &&& lines[2] == "theme mode:    "@ + mode_text(mode)
            &&& st.managed.len() == 0 ==> lines[3] == "theme keys:    "@ + "none"@
            &&& st.managed.len() > 0 ==> lines[3] == "theme keys:    "@ + joined(st.managed, ", "@)
            &&& !c.sidebar ==> lines[4] == "sidebar rows:  "@ + "disabled"@
            &&& c.sidebar && st.managed_sidebar.len() == 0 ==> lines[4] == "sidebar rows:  "@
                + "not managed yet (or user-defined)"@
            &&& c.sidebar && st.managed_sidebar.len() > 0 ==> lines[4] == "sidebar rows:  "@ + (
            "managed: "@ + joined(st.managed_sidebar, ", "@))
            &&& c.pane_tint ==> lines[5] == "pane tint:     "@
                + "on (needs the shell hook; run `shell-hook`)"@
            &&& !c.pane_tint ==> lines[5] == "pane tint:     "@ + "off"@
            &&& !c.window_tint ==> lines[6] == "window tint:   "@ + "off"@
            &&& c.window_tint && tabs.len() == 0 ==> lines[6] == "window tint:   "@
                + "on (Apple Terminal; nothing tinted right now)"@
            &&& lines[7].len() == 0
        }),
{
    reveal_strlit("");
}

/// Every tinted tab is told with its own colour, in their order, with commas between
/// them.
pub proof fn law_tinted_tabs_are_told(
    tabs: Seq<(Seq<char>, Seq<char>)>,
    tty: Seq<char>,
    colour: Seq<char>,
)
    ensures
        window_text(true, seq![(tty, colour)]) == tty + " "@ + colour,
        tabs.len() > 0 ==> window_text(true, tabs.push((tty, colour))) == window_text(true, tabs)
            + ", "@ + (tty + " "@ + colour),
        window_text(false, tabs) == "off"@,
{
    let f = |p: (Seq<char>, Seq<char>)| p.0 + " "@ + p.1;
    let one = seq![(tty, colour)].map_values(f);
    assert(one =~= seq![tty + " "@ + colour]);
    let more = tabs.push((tty, colour)).map_values(f);
    assert(more.drop_last() =~= tabs.map_values(f));
    assert(more.last() == tty + " "@ + colour);
}

// --- validate --------------------------------------------------------------------

/// What a rule is for is told by its label, its path, or both.
pub proof fn law_rules_are_told(r: RuleView)
    ensures
        r.label is Some && r.path is None ==> rule_text(r) == "label "@ + debug_text(r.label->0),
        r.label is None && r.path is Some ==> rule_text(r) == "path "@ + r.path->0,
        r.label is Some && r.path is Some ==> rule_text(r) == "label "@ + debug_text(r.label->0)
            + " or path "@ + r.path->0,
        r.label is None && r.path is None ==> rule_text(r) == "(invalid)"@,
{
}

/// The report on a configuration has a line for every palette, every workspace rule
/// and every agent rule, in their order, under a line with their number; each line
/// is about its own.
pub proof fn law_report_has_a_line_for_each(
    config: Seq<char>,
    herdr_config: Seq<char>,
    cfg: PluginConfig,
    i: int,
)
    ensures
        ({
            let lines = validate_report_of(config, herdr_config, cfg);
            let p = cfg.palettes.entries@.len() as int;
            let r = cfg.rules@.len() as int;
            let a = cfg.agents@.len() as int;
            &&& lines.len() == 7 + p + r + a
            &&& lines[0] == "config: "@ + config
            &&& lines[1] == "herdr config: "@ + herdr_config
            &&& lines[3] == "palettes ("@ + decimal(p as nat) + "):"@
            &&& 0 <= i < p ==> lines[4 + i] == palette_line(
                cfg.palettes.entries@[i].0@,
                cfg.palettes.entries@[i].1,
            )
            &&& lines[4 + p] == "workspace rules ("@ + decimal(r as nat) + "):"@
            &&& 0 <= i < r ==> lines[5 + p + i] == "  "@ + rule_text(cfg.rules@[i]@) + " → "@
                + cfg.rules@[i].palette@
            &&& lines[5 + p + r] == "agent rules ("@ + decimal(a as nat) + "):"@
            &&& 0 <= i < a ==> lines[6 + p + r + i] == "  session "@ + cfg.agents@[i].session@
                + " → "@ + cfg.agents@[i].palette@
            &&& lines[6 + p + r + a] == "config is valid."@
        }),
{
    let lines = validate_report_of(config, herdr_config, cfg);
    let p = cfg.palettes.entries@.len() as int;
    let r = cfg.rules@.len() as int;
    let a = cfg.agents@.len() as int;
    if 0 <= i < p {
        assert(lines[4 + i] == palette_line(
            cfg.palettes.entries@[i].0@,
            cfg.palettes.entries@[i].1,
        ));
    }
    if 0 <= i < r {
        assert(lines[5 + p + i] == "  "@ + rule_text(cfg.rules@[i]@) + " → "@
            + cfg.rules@[i].palette@);
    }
    if 0 <= i < a {
        assert(lines[6 + p + r + i] == "  session "@ + cfg.agents@[i].session@ + " → "@
            + cfg.agents@[i].palette@);
    }
    assert(lines[6 + p + r + a] == "config is valid."@);
}

/// The third line of the report tells the settings.
pub proof fn law_report_tells_the_settings(
    config: Seq<char>,
    herdr_config: Seq<char>,
    cfg: PluginConfig,
)
    ensures
        ({
            let line = validate_report_of(config, herdr_config, cfg)[2];
            let truth = |b: bool|
                if b {
                    "true"@
                } else {
                    "false"@
                };
            line == "auto: "@ + truth(cfg.auto) + "   sidebar: "@ + truth(cfg.sidebar)
                + "   marker: "@ + cfg.marker@ + "   pane tint: "@ + truth(cfg.pane_tint)
        }),
{
}

/// The line of a palette tells its name and its tokens with their colours, then its
/// tint, where it has one, and whether it has a light variant.
pub proof fn law_palette_is_told(name: Seq<char>, p: Palette)
    ensures
        ({
            let tokens = Seq::new(
                p.tokens.entries@.len(),
                |i: int| p.tokens.entries@[i].0@ + "="@ + p.tokens.entries@[i].1@,
            );
            let plain = "  "@ + name + ": "@ + joined(tokens, " "@);
            &&& p.pane_bg is None && p.light is None ==> palette_line(name, p) == plain
            &&& p.pane_bg is Some && p.light is None ==> palette_line(name, p) == plain
                + " pane_bg="@ + p.pane_bg->0@
            &&& p.pane_bg is None && p.light is Some ==> palette_line(name, p) == plain
                + " (+light)"@
            &&& p.pane_bg is Some && p.light is Some ==> palette_line(name, p) == plain
                + " pane_bg="@ + p.pane_bg->0@ + " (+light)"@
        }),
{
    reveal_strlit("");
    let tokens = Seq::new(
        p.tokens.entries@.len(),
        |i: int| p.tokens.entries@[i].0@ + "="@ + p.tokens.entries@[i].1@,
    );
    let shown = token_pairs(p.tokens).map_values(|e: (Seq<char>, Seq<char>)| e.0 + "="@ + e.1);
    assert(shown =~= tokens);
    let plain = "  "@ + name + ": "@ + joined(tokens, " "@);
    assert(plain + ""@ =~= plain);
    if p.pane_bg is None {
        assert(palette_line(name, p) =~= plain + if p.light is Some {
            " (+light)"@
        } else {
            ""@
        });
    } else {
        assert(palette_line(name, p) =~= plain + " pane_bg="@ + p.pane_bg->0@ + if p.light is Some {
            " (+light)"@
        } else {
            ""@
        });
        assert(plain + " pane_bg="@ + p.pane_bg->0@ + ""@ =~= plain + " pane_bg="@
            + p.pane_bg->0@);
    }
}

/// In the list of palettes a palette is shown with its accent, the colour of its
/// sidebar and the tint of its panes on a dark theme, each a dash where there is none,
/// and with a mark where it has a light variant.
pub proof fn law_palette_is_listed(name: Seq<char>, p: PaletteView)
    ensures
        ({
            let shown = |token: Seq<char>|
                if p.tokens.contains_key(token) {
                    p.tokens[token]
                } else {
                    "-"@
                };
            let pane = match p.pane_bg {
                Some(c) => c,
                None => shown("sidebar_bg"@),
            };
            let plain = padded(name, 8) + " accent "@ + shown("accent"@) + "  sidebar_bg "@ + shown(
                "sidebar_bg"@,
            ) + "  pane "@ + pane;
            &&& p.light is None ==> palette_entry(name, p) == plain
            &&& p.light is Some ==> palette_entry(name, p) == plain + "  (+light)"@
        }),
{
    reveal_strlit("");
    let shown = |token: Seq<char>|
        if p.tokens.contains_key(token) {
            p.tokens[token]
        } else {
            "-"@
        };
    let pane = match p.pane_bg {
        Some(c) => c,
        None => shown("sidebar_bg"@),
    };
    let plain = padded(name, 8) + " accent "@ + shown("accent"@) + "  sidebar_bg "@ + shown(
        "sidebar_bg"@,
    ) + "  pane "@ + pane;
    assert(plain + ""@ =~= plain);
}

/// The list of palettes has a line for each palette, in the order of their names, and
/// each line is about its own palette.
pub proof fn law_every_palette_is_listed(c: ConfigView, i: int)
    requires
        c.palettes.dom().finite(),
    ensures
        ({
            let lines = palettes_report_of(c);
            let names = sorted_keys(c.palettes);
            &&& lines.len() == names.len()
            &&& forall|n: Seq<char>| #[trigger] names.contains(n) <==> c.palettes.contains_key(n)
            &&& 0 <= i < lines.len() ==> lines[i] == palette_entry(
                names[i],
                c.palettes[names[i]],
            )
        }),
{
    lemma_sorted(c.palettes);
}

} // verus!
