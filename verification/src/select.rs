//! Which palette a workspace or a pane gets, and why.
use crate::config::{
    agent_views, config_fault, law_rules_name_palettes, palette_views, rule_views, AgentRuleView,
    ConfigView, PluginConfig, RuleView,
};
use crate::herdr::{pane_views, workspace_views, Pane, PaneView, Workspace, WorkspaceView};
use crate::keymap::{lookup, sorted_keys, KeyMap};
use crate::palette::{effective_of, PaletteView};
use crate::paths::{expand_home, expanded, file_name, file_name_of, file_stem, stem_of};
use crate::sidebar::SidebarSpec;
use crate::text::{
    as_opt_str, begins, cat, contains, ends, ends_with, holds_part, opt_owned, opt_str, opt_text,
    same, same_opt, starts_with, trim_slashes, without_slashes,
};
use crate::toml::{document, parse_document, root, toml_parse, whole_document};
use crate::tree::{
    bool_of, read_item, str_of, tree_bool, tree_field2, tree_of, tree_str, Toml, Tree,
};
use vstd::prelude::*;
use vstd::utf8::encode_utf8;

verus! {

/// What decided on a palette.
#[derive(Clone, Copy, Debug, PartialEq, Eq, Structural)]
pub enum Via {
    Agent,
    Rule,
    Auto,
    Nothing,
}

/// The name of a reason, as the user sees it.
pub open spec fn via_name(v: Via) -> Seq<char> {
    match v {
        Via::Agent => "agent"@,
        Via::Rule => "rule"@,
        Via::Auto => "auto"@,
        Via::Nothing => "none"@,
    }
}

/// The name of a reason, as the user sees it.
pub fn via_str(v: Via) -> (r: &'static str)
    ensures
        r@ == via_name(v),
{
    match v {
        Via::Agent => "agent",
        Via::Rule => "rule",
        Via::Auto => "auto",
        Via::Nothing => "none",
    }
}

// --- workspaces ------------------------------------------------------------------

/// The directory that a rule names, without slashes at its end.
pub open spec fn rule_dir(path: Seq<char>, home: Seq<char>) -> Seq<char> {
    without_slashes(expanded(path, home))
}

/// Whether `cwd` is the directory `dir` or lies below it.
pub open spec fn inside(cwd: Seq<char>, dir: Seq<char>) -> bool {
    cwd.len() > 0 && (cwd == dir || begins(cwd, dir + "/"@))
}

/// The number of bytes of a text.
pub open spec fn byte_len(s: Seq<char>) -> int {
    encode_utf8(s).len() as usize as int
}

/// How well a rule fits a workspace: not at all, by the length of its path, or,
/// best of all, by label.
pub open spec fn rule_score(
    rule: RuleView,
    home: Seq<char>,
    label: Seq<char>,
    cwd: Seq<char>,
) -> Option<int> {
    if rule.label == Some(label) {
        Some(usize::MAX as int)
    } else {
        match rule.path {
            Some(p) if inside(cwd, rule_dir(p, home)) => Some(byte_len(rule_dir(p, home))),
            _ => None,
        }
    }
}

/// The rule that fits best; the first of those that fit equally well.
pub open spec fn best_rule(
    rules: Seq<RuleView>,
    home: Seq<char>,
    label: Seq<char>,
    cwd: Seq<char>,
) -> Option<int>
    decreases rules.len(),
{
    if rules.len() == 0 {
        None
    } else {
        let best = best_rule(rules.drop_last(), home, label, cwd);
        match (rule_score(rules.last(), home, label, cwd), best) {
            (None, _) => best,
            (Some(s), Some(b)) if s <= rule_score(rules[b], home, label, cwd)->0 => best,
            _ => Some(rules.len() - 1),
        }
    }
}

/// The hash of bytes by which a palette is picked.
pub open spec fn fnv(bytes: Seq<u8>) -> u64
    decreases bytes.len(),
{
    if bytes.len() == 0 {
        0xcbf2_9ce4_8422_2325
    } else {
        ((fnv(bytes.drop_last()) ^ (bytes.last() as u64)) as int * 0x0100_0000_01b3
            % 0x1_0000_0000_0000_0000) as u64
    }
}

/// The palette that a directory, or a label where there is no directory, gets by
/// itself.
pub open spec fn auto_palette(
    names: Seq<Seq<char>>,
    label: Seq<char>,
    cwd: Seq<char>,
) -> Seq<char> {
    let key = if cwd.len() == 0 {
        label
    } else {
        cwd
    };
    names[(fnv(encode_utf8(key)) as int) % (names.len() as int)]
}

/// The palette of a workspace, and why: by the rule that fits best, else by its
/// directory, unless that is switched off.
pub open spec fn choice(
    c: ConfigView,
    home: Seq<char>,
    label: Seq<char>,
    cwd: Seq<char>,
) -> (Option<Seq<char>>, Via) {
    match best_rule(c.rules, home, label, cwd) {
        Some(i) => (Some(c.rules[i].palette), Via::Rule),
        None => if c.auto {
            (Some(auto_palette(sorted_keys(c.palettes), label, cwd)), Via::Auto)
        } else {
            (None, Via::Nothing)
        },
    }
}

/// Whether there is a palette to give to the workspace.
pub open spec fn choosable(c: ConfigView, home: Seq<char>, w: WorkspaceView) -> bool {
    best_rule(c.rules, home, w.label, w.cwd) is Some || !c.auto || sorted_keys(c.palettes).len()
        > 0
}

proof fn lemma_best_rule(rules: Seq<RuleView>, home: Seq<char>, label: Seq<char>, cwd: Seq<char>)
    ensures
        match best_rule(rules, home, label, cwd) {
            Some(i) => {
                &&& 0 <= i < rules.len()
                &&& rule_score(rules[i], home, label, cwd) is Some
                &&& forall|j: int|
                    0 <= j < rules.len() ==> match rule_score(
                        #[trigger] rules[j],
                        home,
                        label,
                        cwd,
                    ) {
                        Some(s) => s <= rule_score(rules[i], home, label, cwd)->0 && (j < i ==> s
                            < rule_score(rules[i], home, label, cwd)->0),
                        None => true,
                    }
            },
            None => forall|j: int|
                0 <= j < rules.len() ==> rule_score(#[trigger] rules[j], home, label, cwd) is None,
        },
    decreases rules.len(),
{
    if rules.len() > 0 {
        let rest = rules.drop_last();
        lemma_best_rule(rest, home, label, cwd);
        assert forall|j: int| 0 <= j < rest.len() implies rest[j] == #[trigger] rules[j] by {}
    }
}

/// The hash of a text by which a palette is picked (FNV-1a, 64 bits).
pub fn fnv1a(s: &str) -> (r: u64)
    ensures
        r == fnv(encode_utf8(s@)),
{
    let bytes = s.as_bytes();
    let mut h: u64 = 0xcbf2_9ce4_8422_2325;
    let mut i: usize = 0;
    while i < bytes.len()
        invariant
            i <= bytes@.len(),
            h == fnv(bytes@.take(i as int)),
        decreases bytes@.len() - i,
    {
        proof {
            assert(bytes@.take(i + 1).drop_last() =~= bytes@.take(i as int));
            assert(bytes@.take(i + 1).last() == bytes@[i as int]);
        }
        h = (h ^ (bytes[i] as u64)).wrapping_mul(0x0100_0000_01b3);
        i += 1;
    }
    assert(bytes@.take(i as int) =~= bytes@);
    h
}

fn score(
    label_of: &Option<String>,
    path: &Option<String>,
    home: &str,
    label: &str,
    cwd: &str,
) -> (r: Option<usize>)
    ensures
        match (
            r,
            rule_score(
                RuleView { label: opt_text(*label_of), path: opt_text(*path), palette: seq![] },
                home@,
                label@,
                cwd@,
            ),
        ) {
            (Some(a), Some(b)) => a == b,
            (None, None) => true,
            _ => false,
        },
{
    if same_opt(as_opt_str(label_of), Some(label)) {
        return Some(usize::MAX);
    }
    match path {
        None => None,
        Some(p) => {
            let dir = trim_slashes(expand_home(p.as_str(), home).as_str());
            if !cwd.is_empty() && (same(cwd, dir.as_str()) || starts_with(
                cwd,
                cat(dir.as_str(), "/").as_str(),
            )) {
                Some(dir.as_str().len())
            } else {
                None
            }
        },
    }
}

/// The palette of a workspace, and why.
pub fn choose_palette<'a>(cfg: &'a PluginConfig, home: &str, ws: &Workspace) -> (r: (
    Option<&'a str>,
    Via,
))
    requires
        cfg.wf(),
        choosable(cfg@, home@, ws@),
    ensures
        (opt_str(r.0), r.1) == choice(cfg@, home@, ws.label@, ws.cwd@),
{
    let ghost rules = rule_views(cfg.rules@);
    let ghost label = ws.label@;
    let ghost cwd = ws.cwd@;
    let mut best: Option<(usize, usize)> = None;
    let mut i: usize = 0;
    while i < cfg.rules.len()
        invariant
            rules == rule_views(cfg.rules@),
            label == ws.label@,
            cwd == ws.cwd@,
            i <= cfg.rules@.len(),
            match (best, best_rule(rules.take(i as int), home@, label, cwd)) {
                (Some((s, at)), Some(b)) => at == b && at < i && rule_score(
                    rules[b],
                    home@,
                    label,
                    cwd,
                ) == Some(s as int),
                (None, None) => true,
                _ => false,
            },
        decreases cfg.rules@.len() - i,
    {
        let rule = &cfg.rules[i];
        proof {
            assert(rules.take(i + 1).drop_last() =~= rules.take(i as int));
            assert(rules.take(i + 1).last() == rule@);
            assert(rules[i as int] == rule@);
            lemma_best_rule(rules.take(i as int), home@, label, cwd);
        }
        match score(&rule.label, &rule.path, home, ws.label.as_str(), ws.cwd.as_str()) {
            Some(s) => {
                let better = match best {
                    None => true,
                    Some((b, _)) => s > b,
                };
                if better {
                    best = Some((s, i));
                }
            },
            None => {},
        }
        i += 1;
    }
    assert(rules.take(i as int) =~= rules);
    match best {
        Some((_, at)) => {
            assert(rules[at as int] == cfg.rules@[at as int]@);
            return (Some(cfg.rules[at].palette.as_str()), Via::Rule);
        },
        None => {},
    }
    if !cfg.auto {
        return (None, Via::Nothing);
    }
    proof {
        assert(cfg@.palettes.dom() =~= cfg.palettes@.dom());
        cfg.palettes.lemma_sorted_keys(cfg@.palettes);
    }
    let key = if ws.cwd.as_str().is_empty() {
        ws.label.as_str()
    } else {
        ws.cwd.as_str()
    };
    let n: u64 = cfg.palettes.len() as u64;
    let h: u64 = fnv1a(key);
    let at: usize = (h % n) as usize;
    (Some(cfg.palettes.entries[at].0.as_str()), Via::Auto)
}

// --- agents ----------------------------------------------------------------------

/// Whether a session is told by a path rather than by an id.
pub open spec fn is_path(session: Seq<char>) -> bool {
    holds_part(session, "/"@)
}

/// Whether an agent rule is meant for a session: by the whole of it or, where the
/// session is a path, by its file name, with or without the extension, or by the
/// end of either.
pub open spec fn agent_fits(rule: Seq<char>, session: Seq<char>) -> bool {
    let base = match file_name_of(session) {
        Some(n) => n,
        None => session,
    };
    let stem = match file_name_of(session) {
        Some(n) => stem_of(n),
        None => base,
    };
    rule == session || (is_path(session) && (rule == base || rule == stem || ends(stem, rule)
        || ends(session, rule)))
}

/// The palette of the first agent rule that fits a session.
pub open spec fn agent_choice(agents: Seq<AgentRuleView>, session: Seq<char>) -> Option<Seq<char>>
    decreases agents.len(),
{
    if agents.len() == 0 {
        None
    } else if agent_fits(agents[0].session, session) {
        Some(agents[0].palette)
    } else {
        agent_choice(agents.skip(1), session)
    }
}

/// The palette of an agent session that is pinned.
pub open spec fn session_choice(c: ConfigView, session: Option<Seq<char>>) -> Option<Seq<char>> {
    match session {
        Some(s) => agent_choice(c.agents, s),
        None => None,
    }
}

/// The palette of the first agent rule that fits a session. A rule fits by the
/// persisted session id, or by the file name or the end of a session path.
pub fn agent_palette<'a>(cfg: &'a PluginConfig, session: Option<&str>) -> (r: Option<&'a str>)
    ensures
        opt_str(r) == session_choice(cfg@, opt_str(session)),
{
    let s = match session {
        Some(s) => s,
        None => return None,
    };
    let (base, stem) = match file_name(s) {
        Some(n) => {
            let stem = file_stem(n.as_str());
            (n, stem)
        },
        None => (s.to_owned(), s.to_owned()),
    };
    let path = contains(s, "/");
    let ghost all = agent_views(cfg.agents@);
    let mut i: usize = 0;
    assert(all.skip(0) =~= all);
    while i < cfg.agents.len()
        invariant
            all == agent_views(cfg.agents@),
            i <= cfg.agents@.len(),
            base@ == match file_name_of(s@) {
                Some(n) => n,
                None => s@,
            },
            stem@ == match file_name_of(s@) {
                Some(n) => stem_of(n),
                None => s@,
            },
            agent_choice(all, s@) == agent_choice(all.skip(i as int), s@),
            path == is_path(s@),
            session is Some,
            s@ == session->0@,
        decreases cfg.agents@.len() - i,
    {
        let a = &cfg.agents[i];
        proof {
            assert(all.skip(i as int)[0] == a@);
            assert(all.skip(i as int).skip(1) =~= all.skip(i + 1));
        }
        let rule = a.session.as_str();
        if same(rule, s) || (path && (same(rule, base.as_str()) || same(rule, stem.as_str())
            || ends_with(stem.as_str(), rule) || ends_with(s, rule))) {
            return Some(a.palette.as_str());
        }
        i += 1;
    }
    None
}

// --- everything at once ----------------------------------------------------------

/// A palette and the reason for it, by id.
pub open spec fn choice_map(m: KeyMap<(Option<String>, Via)>) -> Map<
    Seq<char>,
    (Option<Seq<char>>, Via),
> {
    m@.map_values(|e: (Option<String>, Via)| (opt_text(e.0), e.1))
}

/// The palettes of workspaces, by id.
pub open spec fn workspace_choices(
    c: ConfigView,
    home: Seq<char>,
    all: Seq<WorkspaceView>,
) -> Map<Seq<char>, (Option<Seq<char>>, Via)>
    decreases all.len(),
{
    if all.len() == 0 {
        Map::empty()
    } else {
        let w = all.last();
        workspace_choices(c, home, all.drop_last()).insert(
            w.id,
            choice(c, home, w.label, w.cwd),
        )
    }
}

/// The palette of a pane: that of its agent session, else that of its workspace.
pub open spec fn pane_choice(
    c: ConfigView,
    workspaces: Map<Seq<char>, (Option<Seq<char>>, Via)>,
    p: PaneView,
) -> (Option<Seq<char>>, Via) {
    match session_choice(c, p.session) {
        Some(palette) => (Some(palette), Via::Agent),
        None => match lookup(workspaces, p.workspace_id) {
            Some(e) => e,
            None => (None, Via::Nothing),
        },
    }
}

/// The palettes of panes, by id.
pub open spec fn pane_choices(
    c: ConfigView,
    workspaces: Map<Seq<char>, (Option<Seq<char>>, Via)>,
    panes: Seq<PaneView>,
) -> Map<Seq<char>, (Option<Seq<char>>, Via)>
    decreases panes.len(),
{
    if panes.len() == 0 {
        Map::empty()
    } else {
        let p = panes.last();
        pane_choices(c, workspaces, panes.drop_last()).insert(
            p.id,
            pane_choice(c, workspaces, p),
        )
    }
}

/// The palette of every workspace and of every pane, and why.
pub struct Assignment {
    pub ws_palette: KeyMap<(Option<String>, Via)>,
    pub pane_palette: KeyMap<(Option<String>, Via)>,
}

impl Assignment {
    pub open spec fn wf(&self) -> bool {
        self.ws_palette.wf() && self.pane_palette.wf()
    }
}

fn assign_workspaces(cfg: &PluginConfig, home: &str, all: &Vec<Workspace>) -> (r: KeyMap<
    (Option<String>, Via),
>)
    requires
        cfg.wf(),
        forall|i: int| 0 <= i < all@.len() ==> choosable(cfg@, home@, (#[trigger] all@[i])@),
    ensures
        r.wf(),
        choice_map(r) == workspace_choices(cfg@, home@, workspace_views(all@)),
{
    let mut out: KeyMap<(Option<String>, Via)> = KeyMap::new();
    let ghost views = workspace_views(all@);
    let mut i: usize = 0;
    assert(choice_map(out) =~= Map::empty());
    while i < all.len()
        invariant
            cfg.wf(),
            forall|i: int| 0 <= i < all@.len() ==> choosable(cfg@, home@, (#[trigger] all@[i])@),
            views == workspace_views(all@),
            i <= all@.len(),
            out.wf(),
            choice_map(out) == workspace_choices(cfg@, home@, views.take(i as int)),
        decreases all@.len() - i,
    {
        let w = &all[i];
        proof {
            assert(views.take(i + 1).drop_last() =~= views.take(i as int));
            assert(views.take(i + 1).last() == w@);
        }
        let (p, via) = choose_palette(cfg, home, w);
        let ghost earlier = choice_map(out);
        let palette = opt_owned(p);
        out.insert(w.id.clone(), (palette, via));
        assert(choice_map(out) =~= earlier.insert(w.id@, (opt_text(palette), via)));
        i += 1;
    }
    assert(views.take(i as int) =~= views);
    out
}

fn assign_panes(
    cfg: &PluginConfig,
    workspaces: &KeyMap<(Option<String>, Via)>,
    panes: &Vec<Pane>,
) -> (r: KeyMap<(Option<String>, Via)>)
    requires
        workspaces.wf(),
    ensures
        r.wf(),
        choice_map(r) == pane_choices(cfg@, choice_map(*workspaces), pane_views(panes@)),
{
    let mut out: KeyMap<(Option<String>, Via)> = KeyMap::new();
    let ghost views = pane_views(panes@);
    let ghost ws = choice_map(*workspaces);
    let mut i: usize = 0;
    assert(choice_map(out) =~= Map::empty());
    while i < panes.len()
        invariant
            workspaces.wf(),
            ws == choice_map(*workspaces),
            views == pane_views(panes@),
            i <= panes@.len(),
            out.wf(),
            choice_map(out) == pane_choices(cfg@, ws, views.take(i as int)),
        decreases panes@.len() - i,
    {
        let p = &panes[i];
        proof {
            assert(views.take(i + 1).drop_last() =~= views.take(i as int));
            assert(views.take(i + 1).last() == p@);
        }
        let entry: (Option<String>, Via) = match agent_palette(cfg, as_opt_str(&p.session)) {
            Some(a) => (Some(a.to_owned()), Via::Agent),
            None => match workspaces.get(p.workspace_id.as_str()) {
                Some(e) => (opt_owned(as_opt_str(&e.0)), e.1),
                None => (None, Via::Nothing),
            },
        };
        let ghost earlier = choice_map(out);
        let ghost value = (opt_text(entry.0), entry.1);
        assert(value == pane_choice(cfg@, ws, p@));
        out.insert(p.id.clone(), entry);
        assert(choice_map(out) =~= earlier.insert(p.id@, value));
        i += 1;
    }
    assert(views.take(i as int) =~= views);
    out
}

/// The palette of every workspace and of every pane, and why.
pub fn assign(
    cfg: &PluginConfig,
    home: &str,
    workspaces: &Vec<Workspace>,
    panes: &Vec<Pane>,
) -> (r: Assignment)
    requires
        cfg.wf(),
        forall|i: int|
            0 <= i < workspaces@.len() ==> choosable(cfg@, home@, (#[trigger] workspaces@[i])@),
    ensures
        r.wf(),
        choice_map(r.ws_palette) == workspace_choices(
            cfg@,
            home@,
            workspace_views(workspaces@),
        ),
        choice_map(r.pane_palette) == pane_choices(
            cfg@,
            choice_map(r.ws_palette),
            pane_views(panes@),
        ),
{
    let ws_palette = assign_workspaces(cfg, home, workspaces);
    let pane_palette = assign_panes(cfg, &ws_palette, panes);
    Assignment { ws_palette, pane_palette }
}

// --- themes ----------------------------------------------------------------------

/// How Herdr's theme is lit.
#[derive(Clone, Copy, Debug, PartialEq, Eq, Structural)]
pub enum ThemeMode {
    Dark,
    Light,
    Auto,
}

/// What `str::to_lowercase` makes of a text.
pub uninterp spec fn lower_text(s: Seq<char>) -> Seq<char>;

/// `str::to_lowercase`. The result depends on the text alone.
#[verifier::external_body]
fn lowered(s: &str) -> (r: String)
    ensures
        r@ == lower_text(s@),
{
    s.to_lowercase()
}

/// Whether the name of a theme, in lower case, hints at a light background.
pub open spec fn light_name(name: Seq<char>) -> bool {
    ||| holds_part(name, "latte"@)
    ||| holds_part(name, "light"@)
    ||| holds_part(name, "dawn"@)
    ||| holds_part(name, "day"@)
    ||| holds_part(name, "lotus"@)
    ||| holds_part(name, "paper"@)
}

/// How a theme is lit, from its name in lower case.
pub fn named_mode(auto_switch: bool, name: &str) -> (r: ThemeMode)
    ensures
        r == if auto_switch {
            ThemeMode::Auto
        } else if light_name(name@) {
            ThemeMode::Light
        } else {
            ThemeMode::Dark
        },
{
    if auto_switch {
        ThemeMode::Auto
    } else if contains(name, "latte") || contains(name, "light") || contains(name, "dawn")
        || contains(name, "day") || contains(name, "lotus") || contains(name, "paper") {
        ThemeMode::Light
    } else {
        ThemeMode::Dark
    }
}

/// The name of the theme that a configuration of Herdr sets.
pub open spec fn theme_name(t: Tree) -> Seq<char> {
    match tree_str(tree_field2(t, "theme"@, "name"@)) {
        Some(n) => n,
        None => "catppuccin"@,
    }
}

/// How the theme of a configuration of Herdr is lit.
pub open spec fn mode_of(t: Tree) -> ThemeMode {
    if tree_bool(tree_field2(t, "theme"@, "auto_switch"@), false) {
        ThemeMode::Auto
    } else if light_name(lower_text(theme_name(t))) {
        ThemeMode::Light
    } else {
        ThemeMode::Dark
    }
}

/// How the theme of a configuration of Herdr is lit.
pub fn tree_mode(t: &Toml) -> (r: ThemeMode)
    ensures
        r == mode_of(t@),
{
    let auto_switch = bool_of(t.field2("theme", "auto_switch"), false);
    let name = match str_of(t.field2("theme", "name")) {
        Some(n) => n,
        None => "catppuccin",
    };
    named_mode(auto_switch, lowered(name).as_str())
}

/// How the theme of a configuration of Herdr is lit.
pub fn theme_mode(doc: &toml_edit::DocumentMut) -> (r: ThemeMode)
    requires
        whole_document(*doc),
    ensures
        r == mode_of(tree_of(document(*doc).root)),
{
    tree_mode(&read_item(root(doc)))
}

/// How the theme of a configuration of Herdr is lit, from its text; `None` where
/// it is not TOML.
pub fn text_mode(text: &str) -> (r: Option<ThemeMode>)
    ensures
        r == match toml_parse(text@) {
            Ok(doc) => Some(mode_of(tree_of(doc.root))),
            Err(_) => None,
        },
{
    match parse_document(text) {
        Ok(doc) => Some(theme_mode(&doc)),
        Err(_) => None,
    }
}

// --- sidebar ---------------------------------------------------------------------

/// The name and the accent of each palette that has one.
pub open spec fn accents(
    names: Seq<Seq<char>>,
    palettes: Map<Seq<char>, PaletteView>,
    light: bool,
) -> Seq<(Seq<char>, Seq<char>)>
    decreases names.len(),
{
    if names.len() == 0 {
        seq![]
    } else {
        let rest = accents(names.drop_last(), palettes, light);
        match lookup(effective_of(palettes[names.last()], light), "accent"@) {
            Some(c) => rest.push((names.last(), c)),
            None => rest,
        }
    }
}

/// What the sidebar rows show: one colour for each palette that has an accent, in
/// the order of their names; nothing where the rows are switched off.
pub fn sidebar_spec(cfg: &PluginConfig, light: bool) -> (r: Option<SidebarSpec>)
    requires
        cfg.wf(),
    ensures
        match r {
            None => !cfg.sidebar,
            Some(spec) => cfg.sidebar && spec.pairs() == accents(
                sorted_keys(cfg@.palettes),
                cfg@.palettes,
                light,
            ),
        },
{
    if !cfg.sidebar {
        return None;
    }
    let ghost names = cfg.palettes.keys();
    let ghost views = palette_views(cfg.palettes);
    proof {
        assert(cfg@.palettes.dom() =~= cfg.palettes@.dom());
        cfg.palettes.lemma_sorted_keys(cfg@.palettes);
    }
    let mut spec = SidebarSpec { colours: Vec::new() };
    assert(spec.pairs() =~= seq![]);
    let mut i: usize = 0;
    while i < cfg.palettes.entries.len()
        invariant
            cfg.wf(),
            names == cfg.palettes.keys(),
            views == palette_views(cfg.palettes),
            names.len() == cfg.palettes.entries@.len(),
            i <= names.len(),
            spec.pairs() == accents(names.take(i as int), views, light),
        decreases names.len() - i,
    {
        let name = &cfg.palettes.entries[i].0;
        let p = &cfg.palettes.entries[i].1;
        proof {
            cfg.palettes.lemma_entry(i as int);
            assert(names.take(i + 1).drop_last() =~= names.take(i as int));
            assert(names.take(i + 1).last() == name@);
            assert(p.wf());
            assert(views[name@] == p@);
        }
        match p.accent(light) {
            Some(c) => {
                let ghost earlier = spec.pairs();
                spec.colours.push((name.clone(), c));
                assert(spec.pairs() =~= earlier.push((name@, c@)));
            },
            None => {},
        }
        i += 1;
    }
    assert(names.take(i as int) =~= names);
    Some(spec)
}

// --- laws ------------------------------------------------------------------------

/// The best rule is one that fits, none fits better, and none before it fits as
/// well; where there is no best rule, none fits.
pub proof fn law_best_rule_is_best(
    rules: Seq<RuleView>,
    home: Seq<char>,
    label: Seq<char>,
    cwd: Seq<char>,
    j: int,
)
    requires
        0 <= j < rules.len(),
    ensures
        match (best_rule(rules, home, label, cwd), rule_score(rules[j], home, label, cwd)) {
            (Some(i), Some(s)) => {
                &&& 0 <= i < rules.len()
                &&& rule_score(rules[i], home, label, cwd) is Some
                &&& s <= rule_score(rules[i], home, label, cwd)->0
                &&& j < i ==> s < rule_score(rules[i], home, label, cwd)->0
            },
            (None, Some(_)) => false,
            _ => true,
        },
{
    lemma_best_rule(rules, home, label, cwd);
}

/// A rule for the exact label wins over every path, as long as the paths are
/// shorter than a machine can count.
pub proof fn law_label_wins(
    c: ConfigView,
    home: Seq<char>,
    label: Seq<char>,
    cwd: Seq<char>,
    j: int,
)
    requires
        0 <= j < c.rules.len(),
        c.rules[j].label == Some(label),
        forall|i: int|
            0 <= i < c.rules.len() && (#[trigger] c.rules[i]).path is Some ==> byte_len(
                rule_dir(c.rules[i].path->0, home),
            ) < usize::MAX,
    ensures
        exists|i: int|
            0 <= i < c.rules.len() && (#[trigger] c.rules[i]).label == Some(label) && choice(
                c,
                home,
                label,
                cwd,
            ) == (Some(c.rules[i].palette), Via::Rule),
{
    lemma_best_rule(c.rules, home, label, cwd);
    assert(rule_score(c.rules[j], home, label, cwd) == Some(usize::MAX as int));
    let i = best_rule(c.rules, home, label, cwd)->0;
    assert(c.rules[i].label == Some(label));
}

/// Of the rules that fit by path, none with a longer path than the chosen one.
pub proof fn law_longest_path_wins(
    c: ConfigView,
    home: Seq<char>,
    label: Seq<char>,
    cwd: Seq<char>,
    j: int,
)
    requires
        0 <= j < c.rules.len(),
        c.rules[j].path is Some,
        inside(cwd, rule_dir(c.rules[j].path->0, home)),
        forall|i: int| 0 <= i < c.rules.len() ==> (#[trigger] c.rules[i]).label != Some(label),
    ensures
        exists|i: int|
            0 <= i < c.rules.len() && choice(c, home, label, cwd) == (
                Some((#[trigger] c.rules[i]).palette),
                Via::Rule,
            ) && c.rules[i].path is Some && inside(cwd, rule_dir(c.rules[i].path->0, home))
                && byte_len(rule_dir(c.rules[j].path->0, home)) <= byte_len(
                rule_dir(c.rules[i].path->0, home),
            ),
{
    lemma_best_rule(c.rules, home, label, cwd);
    assert(rule_score(c.rules[j], home, label, cwd) is Some);
    let i = best_rule(c.rules, home, label, cwd)->0;
    assert(c.rules[i].path is Some);
}

/// The same directory gets the same colour everywhere: where no rule fits, the
/// palette depends on the directory and on the names of the palettes alone, not
/// on labels, home directories or the rest of the configuration.
pub proof fn law_same_directory_same_colour(
    c1: ConfigView,
    c2: ConfigView,
    home1: Seq<char>,
    home2: Seq<char>,
    label1: Seq<char>,
    label2: Seq<char>,
    cwd: Seq<char>,
)
    requires
        cwd.len() > 0,
        c1.auto && c2.auto,
        sorted_keys(c1.palettes) == sorted_keys(c2.palettes),
        best_rule(c1.rules, home1, label1, cwd) is None,
        best_rule(c2.rules, home2, label2, cwd) is None,
    ensures
        choice(c1, home1, label1, cwd) == choice(c2, home2, label2, cwd),
{
}

/// The palette that is chosen for a workspace is one that the configuration
/// defines.
pub proof fn law_chosen_palettes_are_defined(
    cfg: &PluginConfig,
    home: Seq<char>,
    label: Seq<char>,
    cwd: Seq<char>,
)
    requires
        cfg.wf(),
        config_fault(cfg@) is None,
    ensures
        match choice(cfg@, home, label, cwd).0 {
            Some(name) => cfg@.palettes.contains_key(name),
            None => true,
        },
        forall|w: WorkspaceView| #[trigger] choosable(cfg@, home, w),
{
    let c = cfg@;
    law_rules_name_palettes(c);
    lemma_best_rule(c.rules, home, label, cwd);
    assert(c.palettes.dom() =~= cfg.palettes@.dom());
    cfg.palettes.lemma_sorted_keys(c.palettes);
    let names = sorted_keys(c.palettes);
    if best_rule(c.rules, home, label, cwd) is None && c.auto {
        let key = if cwd.len() == 0 {
            label
        } else {
            cwd
        };
        let i = (fnv(encode_utf8(key)) as int) % (names.len() as int);
        assert(0 <= i < names.len()) by (nonlinear_arith)
            requires
                names.len() > 0,
                i == (fnv(encode_utf8(key)) as int) % (names.len() as int),
        ;
        assert(names.contains(names[i]));
        assert(cfg.palettes@.contains_key(names[i]));
    }
}

proof fn lemma_agent_choice_defined(
    agents: Seq<AgentRuleView>,
    palettes: Map<Seq<char>, PaletteView>,
    session: Seq<char>,
)
    requires
        forall|i: int|
            0 <= i < agents.len() ==> palettes.contains_key((#[trigger] agents[i]).palette),
    ensures
        match agent_choice(agents, session) {
            Some(name) => palettes.contains_key(name),
            None => true,
        },
    decreases agents.len(),
{
    if agents.len() > 0 && !agent_fits(agents[0].session, session) {
        let rest = agents.skip(1);
        assert forall|i: int| 0 <= i < rest.len() implies palettes.contains_key(
            (#[trigger] rest[i]).palette,
        ) by {
            assert(rest[i] == agents[i + 1]);
        }
        lemma_agent_choice_defined(rest, palettes, session);
    }
}

/// The palette that is pinned to a session is one that the configuration
/// defines.
pub proof fn law_pinned_palettes_are_defined(c: ConfigView, session: Option<Seq<char>>)
    requires
        config_fault(c) is None,
    ensures
        match session_choice(c, session) {
            Some(name) => c.palettes.contains_key(name),
            None => true,
        },
{
    law_rules_name_palettes(c);
    if session is Some {
        lemma_agent_choice_defined(c.agents, c.palettes, session->0);
    }
}

} // verus!
