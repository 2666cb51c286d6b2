//! The plugin's own configuration: read from TOML, and refused where anything in
//! it could not be used.
use crate::keymap::{lemma_sorted, sorted_keys, text_map, KeyMap};
use crate::palette::{allowed_tokens, hex_colour, is_hex_colour, theme_tokens, Palette, PaletteView};
use crate::text::{
    blank, cat, cat3, cat5, debug_text, decimal, is_blank, join, joined, list_has, number,
    opt_owned, opt_text, quoted, same,
};
use crate::toml::{parse_document, root, toml_parse};
use crate::tree::{
    bool_of, find_in, read_item, row, rows, str_of, tree_bool, tree_field, tree_field2, tree_of,
    tree_str, tree_tables, under, Toml, Tree,
};
use vstd::prelude::*;

verus! {

/// Pins a palette to workspaces, by exact label or by directory.
#[derive(Debug)]
pub struct Rule {
    pub label: Option<String>,
    pub path: Option<String>,
    pub palette: String,
}

/// Pins a palette to one agent session.
#[derive(Debug)]
pub struct AgentRule {
    pub session: String,
    pub palette: String,
}

/// The plugin's configuration.
#[derive(Debug)]
pub struct PluginConfig {
    pub auto: bool,
    pub herdr_config: Option<String>,
    pub sidebar: bool,
    pub marker: String,
    pub pane_tint: bool,
    pub window_tint: bool,
    pub palettes: KeyMap<Palette>,
    pub rules: Vec<Rule>,
    pub agents: Vec<AgentRule>,
}

/// What a [`Rule`] holds.
pub struct RuleView {
    pub label: Option<Seq<char>>,
    pub path: Option<Seq<char>>,
    pub palette: Seq<char>,
}

/// What an [`AgentRule`] holds.
pub struct AgentRuleView {
    pub session: Seq<char>,
    pub palette: Seq<char>,
}

/// What a [`PluginConfig`] holds.
pub struct ConfigView {
    pub auto: bool,
    pub herdr_config: Option<Seq<char>>,
    pub sidebar: bool,
    pub marker: Seq<char>,
    pub pane_tint: bool,
    pub window_tint: bool,
    pub palettes: Map<Seq<char>, PaletteView>,
    pub rules: Seq<RuleView>,
    pub agents: Seq<AgentRuleView>,
}

impl Rule {
    pub open spec fn view(&self) -> RuleView {
        RuleView {
            label: opt_text(self.label),
            path: opt_text(self.path),
            palette: self.palette@,
        }
    }
}

impl AgentRule {
    pub open spec fn view(&self) -> AgentRuleView {
        AgentRuleView { session: self.session@, palette: self.palette@ }
    }
}

/// The rules of a list.
pub open spec fn rule_views(v: Seq<Rule>) -> Seq<RuleView> {
    v.map_values(|r: Rule| r@)
}

/// The agent rules of a list.
pub open spec fn agent_views(v: Seq<AgentRule>) -> Seq<AgentRuleView> {
    v.map_values(|r: AgentRule| r@)
}

/// The palettes of a map.
pub open spec fn palette_views(m: KeyMap<Palette>) -> Map<Seq<char>, PaletteView> {
    m@.map_values(|p: Palette| p@)
}

/// The palettes are in order, and so are the tokens of each.
pub open spec fn palettes_wf(m: KeyMap<Palette>) -> bool {
    m.wf() && forall|k: Seq<char>| m@.contains_key(k) ==> (#[trigger] m@[k]).wf()
}

impl PluginConfig {
    pub open spec fn view(&self) -> ConfigView {
        ConfigView {
            auto: self.auto,
            herdr_config: opt_text(self.herdr_config),
            sidebar: self.sidebar,
            marker: self.marker@,
            pane_tint: self.pane_tint,
            window_tint: self.window_tint,
            palettes: palette_views(self.palettes),
            rules: rule_views(self.rules@),
            agents: agent_views(self.agents@),
        }
    }

    /// The palettes are in order, and so are the tokens of each.
    pub open spec fn wf(&self) -> bool {
        palettes_wf(self.palettes)
    }

    /// The configuration is one that is accepted.
    pub open spec fn valid(&self) -> bool {
        self.wf() && config_fault(self@) is None
    }
}

// --- what can be wrong -----------------------------------------------------------

/// Why a configuration is refused.
#[derive(Debug)]
pub enum ConfigError {
    /// The text is not TOML, for the reason given.
    Parse(String),
    /// The `light` of a palette is not a table.
    LightNotTable(String),
    /// A key of a palette is not a string.
    NotString(String, String),
    /// A key of a palette holds something that is not a colour.
    BadColour(String, String, String),
    /// A key of a palette is not a theme token.
    BadToken(String, String),
    /// A palette is not a table.
    PaletteNotTable(String),
    /// A workspace rule has neither label nor path.
    RuleNeedsTarget(usize),
    /// A workspace rule has no palette.
    RuleNeedsPalette(usize),
    /// An agent rule has no session.
    AgentNeedsSession(usize),
    /// An agent rule has no palette.
    AgentNeedsPalette(usize),
    NoPalettes,
    TooManyPalettes,
    EmptyPalette(String),
    /// A palette has no accent while sidebar rows are on.
    NeedsAccent(String),
    BadMarker,
    /// The label and the path of a workspace rule are blank or absent.
    BlankRule,
    /// A workspace rule names a palette that is not defined.
    UnknownRulePalette(String),
    BlankSession,
    /// An agent rule names a palette that is not defined.
    UnknownAgentPalette(String),
}

/// What a [`ConfigError`] says.
pub enum ConfigFault {
    Parse(Seq<char>),
    LightNotTable(Seq<char>),
    NotString(Seq<char>, Seq<char>),
    BadColour(Seq<char>, Seq<char>, Seq<char>),
    BadToken(Seq<char>, Seq<char>),
    PaletteNotTable(Seq<char>),
    RuleNeedsTarget(nat),
    RuleNeedsPalette(nat),
    AgentNeedsSession(nat),
    AgentNeedsPalette(nat),
    NoPalettes,
    TooManyPalettes,
    EmptyPalette(Seq<char>),
    NeedsAccent(Seq<char>),
    BadMarker,
    BlankRule,
    UnknownRulePalette(Seq<char>),
    BlankSession,
    UnknownAgentPalette(Seq<char>),
}

/// The message for the user.
pub open spec fn config_message(f: ConfigFault) -> Seq<char> {
    match f {
        ConfigFault::Parse(e) => "parse error: "@ + e,
        ConfigFault::LightNotTable(n) => "palettes."@ + n + ".light must be a table"@,
        ConfigFault::NotString(n, k) => "palettes."@ + n + "."@ + k + " must be a string"@,
        ConfigFault::BadColour(n, k, c) => "palettes."@ + n + "."@ + k + " = "@ + debug_text(c)
            + ": colours must be #rgb or #rrggbb"@,
        ConfigFault::BadToken(n, k) => "palettes."@ + n + "."@ + k
            + ": not a theme.custom token (allowed: "@ + joined(theme_tokens(), ", "@)
            + ", plus pane_bg, window_bg and a light sub-table)"@,
        ConfigFault::PaletteNotTable(n) => "palettes."@ + n
            + " must be a table of token = \"#hex\""@,
        ConfigFault::RuleNeedsTarget(i) => "workspaces["@ + decimal(i)
            + "] needs `label` or `path`"@,
        ConfigFault::RuleNeedsPalette(i) => "workspaces["@ + decimal(i) + "] needs `palette`"@,
        ConfigFault::AgentNeedsSession(i) => "agents["@ + decimal(i) + "] needs `session`"@,
        ConfigFault::AgentNeedsPalette(i) => "agents["@ + decimal(i) + "] needs `palette`"@,
        ConfigFault::NoPalettes => "no palettes defined"@,
        ConfigFault::TooManyPalettes =>
            "sidebar rows allow at most 16 tokens per row; keep to 14 palettes or set sidebar.enabled = false"@,
        ConfigFault::EmptyPalette(n) => "palettes."@ + n + " is empty"@,
        ConfigFault::NeedsAccent(n) => "palettes."@ + n
            + " needs `accent` (it colours the sidebar marker)"@,
        ConfigFault::BadMarker => "sidebar.marker must be 1–8 characters"@,
        ConfigFault::BlankRule => "workspaces[] needs a non-empty `label` or `path`"@,
        ConfigFault::UnknownRulePalette(p) => "workspaces[].palette = "@ + debug_text(p)
            + " is not a defined palette"@,
        ConfigFault::BlankSession => "agents[].session must not be empty"@,
        ConfigFault::UnknownAgentPalette(p) => "agents[].palette = "@ + debug_text(p)
            + " is not a defined palette"@,
    }
}

impl ConfigError {
    pub open spec fn view(&self) -> ConfigFault {
        match self {
            ConfigError::Parse(e) => ConfigFault::Parse(e@),
            ConfigError::LightNotTable(n) => ConfigFault::LightNotTable(n@),
            ConfigError::NotString(n, k) => ConfigFault::NotString(n@, k@),
            ConfigError::BadColour(n, k, c) => ConfigFault::BadColour(n@, k@, c@),
            ConfigError::BadToken(n, k) => ConfigFault::BadToken(n@, k@),
            ConfigError::PaletteNotTable(n) => ConfigFault::PaletteNotTable(n@),
            ConfigError::RuleNeedsTarget(i) => ConfigFault::RuleNeedsTarget(*i as nat),
            ConfigError::RuleNeedsPalette(i) => ConfigFault::RuleNeedsPalette(*i as nat),
            ConfigError::AgentNeedsSession(i) => ConfigFault::AgentNeedsSession(*i as nat),
            ConfigError::AgentNeedsPalette(i) => ConfigFault::AgentNeedsPalette(*i as nat),
            ConfigError::NoPalettes => ConfigFault::NoPalettes,
            ConfigError::TooManyPalettes => ConfigFault::TooManyPalettes,
            ConfigError::EmptyPalette(n) => ConfigFault::EmptyPalette(n@),
            ConfigError::NeedsAccent(n) => ConfigFault::NeedsAccent(n@),
            ConfigError::BadMarker => ConfigFault::BadMarker,
            ConfigError::BlankRule => ConfigFault::BlankRule,
            ConfigError::UnknownRulePalette(p) => ConfigFault::UnknownRulePalette(p@),
            ConfigError::BlankSession => ConfigFault::BlankSession,
            ConfigError::UnknownAgentPalette(p) => ConfigFault::UnknownAgentPalette(p@),
        }
    }

    /// The message for the user.
    pub fn message(&self) -> (r: String)
        ensures
            r@ == config_message(self@),
    {
        match self {
            ConfigError::Parse(e) => cat("parse error: ", e.as_str()),
            ConfigError::LightNotTable(n) => cat3(
                "palettes.",
                n.as_str(),
                ".light must be a table",
            ),
            ConfigError::NotString(n, k) => cat5(
                "palettes.",
                n.as_str(),
                ".",
                k.as_str(),
                " must be a string",
            ),
            ConfigError::BadColour(n, k, c) => {
                let mut out = cat5("palettes.", n.as_str(), ".", k.as_str(), " = ");
                out.append(quoted(c.as_str()).as_str());
                out.append(": colours must be #rgb or #rrggbb");
                out
            },
            ConfigError::BadToken(n, k) => {
                let mut out = cat5(
                    "palettes.",
                    n.as_str(),
                    ".",
                    k.as_str(),
                    ": not a theme.custom token (allowed: ",
                );
                out.append(join(&allowed_tokens(), ", ").as_str());
                out.append(", plus pane_bg, window_bg and a light sub-table)");
                out
            },
            ConfigError::PaletteNotTable(n) => cat3(
                "palettes.",
                n.as_str(),
                " must be a table of token = \"#hex\"",
            ),
            ConfigError::RuleNeedsTarget(i) => cat3(
                "workspaces[",
                number(*i as u64).as_str(),
                "] needs `label` or `path`",
            ),
            ConfigError::RuleNeedsPalette(i) => cat3(
                "workspaces[",
                number(*i as u64).as_str(),
                "] needs `palette`",
            ),
            ConfigError::AgentNeedsSession(i) => cat3(
                "agents[",
                number(*i as u64).as_str(),
                "] needs `session`",
            ),
            ConfigError::AgentNeedsPalette(i) => cat3(
                "agents[",
                number(*i as u64).as_str(),
                "] needs `palette`",
            ),
            ConfigError::NoPalettes => "no palettes defined".to_owned(),
            ConfigError::TooManyPalettes =>
                "sidebar rows allow at most 16 tokens per row; keep to 14 palettes or set sidebar.enabled = false".to_owned(),
            ConfigError::EmptyPalette(n) => cat3("palettes.", n.as_str(), " is empty"),
            ConfigError::NeedsAccent(n) => cat3(
                "palettes.",
                n.as_str(),
                " needs `accent` (it colours the sidebar marker)",
            ),
            ConfigError::BadMarker => "sidebar.marker must be 1–8 characters".to_owned(),
            ConfigError::BlankRule => "workspaces[] needs a non-empty `label` or `path`".to_owned(),
            ConfigError::UnknownRulePalette(p) => cat3(
                "workspaces[].palette = ",
                quoted(p.as_str()).as_str(),
                " is not a defined palette",
            ),
            ConfigError::BlankSession => "agents[].session must not be empty".to_owned(),
            ConfigError::UnknownAgentPalette(p) => cat3(
                "agents[].palette = ",
                quoted(p.as_str()).as_str(),
                " is not a defined palette",
            ),
        }
    }
}

// --- palettes --------------------------------------------------------------------

/// The palette that the entries of a table make, or the first entry that cannot
/// stand in one.
pub open spec fn palette_of(
    name: Seq<char>,
    entries: Seq<(Seq<char>, Tree)>,
    allow_light: bool,
) -> Result<PaletteView, ConfigFault>
    decreases (if allow_light {
        1int
    } else {
        0int
    }), entries.len(),
{
    if entries.len() == 0 {
        Ok(PaletteView { tokens: Map::empty(), pane_bg: None, window_bg: None, light: None })
    } else {
        let (key, value) = entries.last();
        match palette_of(name, entries.drop_last(), allow_light) {
            Err(f) => Err(f),
            Ok(p) => if key == "light"@ && allow_light {
                match value {
                    Tree::Table(sub) => match palette_of(name + ".light"@, sub, false) {
                        Err(f) => Err(f),
                        Ok(l) => Ok(PaletteView { light: Some(Box::new(l)), ..p }),
                    },
                    _ => Err(ConfigFault::LightNotTable(name)),
                }
            } else {
                with_colour(p, name, key, value)
            },
        }
    }
}

/// A palette with one more colour in it.
pub open spec fn with_colour(
    p: PaletteView,
    name: Seq<char>,
    key: Seq<char>,
    value: Tree,
) -> Result<PaletteView, ConfigFault> {
    match value {
        Tree::Str(c) => if key == "pane_bg"@ || key == "window_bg"@ {
            if !hex_colour(c) {
                Err(ConfigFault::BadColour(name, key, c))
            } else if key == "pane_bg"@ {
                Ok(PaletteView { pane_bg: Some(c), ..p })
            } else {
                Ok(PaletteView { window_bg: Some(c), ..p })
            }
        } else if !theme_tokens().contains(key) {
            Err(ConfigFault::BadToken(name, key))
        } else if !hex_colour(c) {
            Err(ConfigFault::BadColour(name, key, c))
        } else {
            Ok(PaletteView { tokens: p.tokens.insert(key, c), ..p })
        },
        _ => Err(ConfigFault::NotString(name, key)),
    }
}

fn add_colour(p: &mut Palette, name: &str, key: &str, value: &Toml) -> (r: Result<(), ConfigError>)
    requires
        old(p).wf(),
    ensures
        match (r, with_colour(old(p)@, name@, key@, value@)) {
            (Ok(_), Ok(q)) => final(p).wf() && final(p)@ == q,
            (Err(e), Err(f)) => e@ == f,
            _ => false,
        },
{
    let colour = match str_of(Some(value)) {
        Some(c) => c,
        None => return Err(ConfigError::NotString(name.to_owned(), key.to_owned())),
    };
    if same(key, "pane_bg") || same(key, "window_bg") {
        if !is_hex_colour(colour) {
            return Err(
                ConfigError::BadColour(name.to_owned(), key.to_owned(), colour.to_owned()),
            );
        }
        if same(key, "pane_bg") {
            p.pane_bg = Some(colour.to_owned());
        } else {
            p.window_bg = Some(colour.to_owned());
        }
        Ok(())
    } else {
        if !list_has(&allowed_tokens(), key) {
            return Err(ConfigError::BadToken(name.to_owned(), key.to_owned()));
        }
        if !is_hex_colour(colour) {
            return Err(
                ConfigError::BadColour(name.to_owned(), key.to_owned(), colour.to_owned()),
            );
        }
        let ghost before = text_map(p.tokens);
        p.tokens.insert(key.to_owned(), colour.to_owned());
        assert(text_map(p.tokens) =~= before.insert(key@, colour@));
        Ok(())
    }
}

/// Reads a palette from the entries of a table.
pub fn parse_palette_tokens(
    name: &str,
    entries: &Vec<(String, Toml)>,
    allow_light: bool,
) -> (r: Result<Palette, ConfigError>)
    ensures
        match (r, palette_of(name@, row(entries@), allow_light)) {
            (Ok(p), Ok(q)) => p.wf() && p@ == q,
            (Err(e), Err(f)) => e@ == f,
            _ => false,
        },
    decreases (if allow_light {
        1int
    } else {
        0int
    }),
{
    let mut p = Palette::empty();
    let mut i: usize = 0;
    let ghost all = row(entries@);
    while i < entries.len()
        invariant
            all == row(entries@),
            i <= entries@.len(),
            p.wf(),
            palette_of(name@, all.take(i as int), allow_light) == Ok::<PaletteView, ConfigFault>(
                p@,
            ),
        decreases entries@.len() - i,
    {
        let key = entries[i].0.as_str();
        let value = &entries[i].1;
        proof {
            assert(all.take(i + 1).drop_last() =~= all.take(i as int));
            assert(all.take(i + 1).last() == (key@, value@));
            lemma_palette_prefix(name@, all, allow_light, i + 1);
        }
        if allow_light && same(key, "light") {
            match value.table() {
                None => return Err(ConfigError::LightNotTable(name.to_owned())),
                Some(sub) => match parse_palette_tokens(
                    cat(name, ".light").as_str(),
                    sub,
                    false,
                ) {
                    Err(e) => return Err(e),
                    Ok(l) => {
                        p.light = Some(Box::new(l));
                    },
                },
            }
        } else {
            match add_colour(&mut p, name, key, value) {
                Err(e) => return Err(e),
                Ok(_) => {},
            }
        }
        i += 1;
    }
    assert(all.take(i as int) =~= all);
    Ok(p)
}

/// Where the first entries of a table make no palette, the whole makes none for
/// the same reason.
proof fn lemma_palette_prefix(
    name: Seq<char>,
    entries: Seq<(Seq<char>, Tree)>,
    allow_light: bool,
    n: int,
)
    requires
        0 <= n <= entries.len(),
    ensures
        palette_of(name, entries.take(n), allow_light) is Err ==> palette_of(
            name,
            entries,
            allow_light,
        ) == palette_of(name, entries.take(n), allow_light),
    decreases entries.len(),
{
    if n == entries.len() {
        assert(entries.take(n) =~= entries);
    } else {
        lemma_palette_prefix(name, entries.drop_last(), allow_light, n);
        assert(entries.drop_last().take(n) =~= entries.take(n));
    }
}

/// The palettes that the entries of a table make.
pub open spec fn palettes_of(entries: Seq<(Seq<char>, Tree)>) -> Result<
    Map<Seq<char>, PaletteView>,
    ConfigFault,
>
    decreases entries.len(),
{
    if entries.len() == 0 {
        Ok(Map::empty())
    } else {
        let (name, value) = entries.last();
        match palettes_of(entries.drop_last()) {
            Err(f) => Err(f),
            Ok(m) => match value {
                Tree::Table(sub) => match palette_of(name, sub, true) {
                    Err(f) => Err(f),
                    Ok(p) => Ok(m.insert(name, p)),
                },
                _ => Err(ConfigFault::PaletteNotTable(name)),
            },
        }
    }
}

proof fn lemma_palettes_prefix(entries: Seq<(Seq<char>, Tree)>, n: int)
    requires
        0 <= n <= entries.len(),
    ensures
        palettes_of(entries.take(n)) is Err ==> palettes_of(entries) == palettes_of(
            entries.take(n),
        ),
    decreases entries.len(),
{
    if n == entries.len() {
        assert(entries.take(n) =~= entries);
    } else {
        lemma_palettes_prefix(entries.drop_last(), n);
        assert(entries.drop_last().take(n) =~= entries.take(n));
    }
}

fn read_palettes(entries: &Vec<(String, Toml)>) -> (r: Result<KeyMap<Palette>, ConfigError>)
    ensures
        match (r, palettes_of(row(entries@))) {
            (Ok(m), Ok(want)) => palettes_wf(m) && palette_views(m) == want,
            (Err(e), Err(f)) => e@ == f,
            _ => false,
        },
{
    let mut m: KeyMap<Palette> = KeyMap::new();
    let mut i: usize = 0;
    let ghost all = row(entries@);
    assert(palette_views(m) =~= Map::empty());
    while i < entries.len()
        invariant
            all == row(entries@),
            i <= entries@.len(),
            palettes_wf(m),
            palettes_of(all.take(i as int)) == Ok::<Map<Seq<char>, PaletteView>, ConfigFault>(
                palette_views(m),
            ),
        decreases entries@.len() - i,
    {
        let name = entries[i].0.as_str();
        let value = &entries[i].1;
        proof {
            assert(all.take(i + 1).drop_last() =~= all.take(i as int));
            assert(all.take(i + 1).last() == (name@, value@));
            lemma_palettes_prefix(all, i + 1);
        }
        match value.table() {
            None => return Err(ConfigError::PaletteNotTable(name.to_owned())),
            Some(sub) => match parse_palette_tokens(name, sub, true) {
                Err(e) => return Err(e),
                Ok(p) => {
                    let ghost before = m;
                    m.insert(name.to_owned(), p);
                    proof {
                        assert(palette_views(m) =~= palette_views(before).insert(name@, p@));
                        assert forall|k: Seq<char>| m@.contains_key(k) implies (#[trigger] m@[k]).wf()
                            by {
                            if k != name@ {
                                assert(before@.contains_key(k) && before@[k].wf());
                            }
                        }
                    }
                },
            },
        }
        i += 1;
    }
    assert(all.take(i as int) =~= all);
    Ok(m)
}

// --- rules -----------------------------------------------------------------------

/// The workspace rule that one table makes.
pub open spec fn rule_of(t: Seq<(Seq<char>, Tree)>, i: nat) -> Result<RuleView, ConfigFault> {
    let label = tree_str(under(t, "label"@));
    let path = tree_str(under(t, "path"@));
    match tree_str(under(t, "palette"@)) {
        _ if label is None && path is None => Err(ConfigFault::RuleNeedsTarget(i)),
        None => Err(ConfigFault::RuleNeedsPalette(i)),
        Some(palette) => Ok(RuleView { label, path, palette }),
    }
}

/// The workspace rules that a list of tables makes, or why the first that makes
/// none does not.
pub open spec fn rules_of(list: Seq<Seq<(Seq<char>, Tree)>>) -> Result<Seq<RuleView>, ConfigFault>
    decreases list.len(),
{
    if list.len() == 0 {
        Ok(seq![])
    } else {
        match rules_of(list.drop_last()) {
            Err(f) => Err(f),
            Ok(v) => match rule_of(list.last(), (list.len() - 1) as nat) {
                Err(f) => Err(f),
                Ok(r) => Ok(v.push(r)),
            },
        }
    }
}

proof fn lemma_rules_prefix(list: Seq<Seq<(Seq<char>, Tree)>>, n: int)
    requires
        0 <= n <= list.len(),
    ensures
        rules_of(list.take(n)) is Err ==> rules_of(list) == rules_of(list.take(n)),
    decreases list.len(),
{
    if n == list.len() {
        assert(list.take(n) =~= list);
    } else {
        lemma_rules_prefix(list.drop_last(), n);
        assert(list.drop_last().take(n) =~= list.take(n));
    }
}

fn read_rule(t: &Vec<(String, Toml)>, i: usize) -> (r: Result<Rule, ConfigError>)
    ensures
        match (r, rule_of(row(t@), i as nat)) {
            (Ok(x), Ok(v)) => x@ == v,
            (Err(e), Err(f)) => e@ == f,
            _ => false,
        },
{
    let label = opt_owned(str_of(find_in(t, "label")));
    let path = opt_owned(str_of(find_in(t, "path")));
    if label.is_none() && path.is_none() {
        return Err(ConfigError::RuleNeedsTarget(i));
    }
    match str_of(find_in(t, "palette")) {
        None => Err(ConfigError::RuleNeedsPalette(i)),
        Some(palette) => Ok(Rule { label, path, palette: palette.to_owned() }),
    }
}

fn read_rules(list: &Vec<Vec<(String, Toml)>>) -> (r: Result<Vec<Rule>, ConfigError>)
    ensures
        match (r, rules_of(rows(list@))) {
            (Ok(v), Ok(want)) => rule_views(v@) == want,
            (Err(e), Err(f)) => e@ == f,
            _ => false,
        },
{
    let mut out: Vec<Rule> = Vec::new();
    let mut i: usize = 0;
    let ghost all = rows(list@);
    assert(rule_views(out@) =~= seq![]);
    while i < list.len()
        invariant
            all == rows(list@),
            i <= list@.len(),
            rules_of(all.take(i as int)) == Ok::<Seq<RuleView>, ConfigFault>(rule_views(out@)),
        decreases list@.len() - i,
    {
        proof {
            assert(all.take(i + 1).drop_last() =~= all.take(i as int));
            assert(all.take(i + 1).last() == row(list@[i as int]@));
            lemma_rules_prefix(all, i + 1);
        }
        match read_rule(&list[i], i) {
            Err(e) => return Err(e),
            Ok(x) => {
                let ghost before = out@;
                out.push(x);
                assert(rule_views(out@) =~= rule_views(before).push(x@));
            },
        }
        i += 1;
    }
    assert(all.take(i as int) =~= all);
    Ok(out)
}

/// The agent rule that one table makes.
pub open spec fn agent_of(t: Seq<(Seq<char>, Tree)>, i: nat) -> Result<AgentRuleView, ConfigFault> {
    match (tree_str(under(t, "session"@)), tree_str(under(t, "palette"@))) {
        (None, _) => Err(ConfigFault::AgentNeedsSession(i)),
        (_, None) => Err(ConfigFault::AgentNeedsPalette(i)),
        (Some(session), Some(palette)) => Ok(AgentRuleView { session, palette }),
    }
}

/// The agent rules that a list of tables makes, or why the first that makes none
/// does not.
pub open spec fn agents_of(list: Seq<Seq<(Seq<char>, Tree)>>) -> Result<
    Seq<AgentRuleView>,
    ConfigFault,
>
    decreases list.len(),
{
    if list.len() == 0 {
        Ok(seq![])
    } else {
        match agents_of(list.drop_last()) {
            Err(f) => Err(f),
            Ok(v) => match agent_of(list.last(), (list.len() - 1) as nat) {
                Err(f) => Err(f),
                Ok(r) => Ok(v.push(r)),
            },
        }
    }
}

proof fn lemma_agents_prefix(list: Seq<Seq<(Seq<char>, Tree)>>, n: int)
    requires
        0 <= n <= list.len(),
    ensures
        agents_of(list.take(n)) is Err ==> agents_of(list) == agents_of(list.take(n)),
    decreases list.len(),
{
    if n == list.len() {
        assert(list.take(n) =~= list);
    } else {
        lemma_agents_prefix(list.drop_last(), n);
        assert(list.drop_last().take(n) =~= list.take(n));
    }
}

fn read_agents(list: &Vec<Vec<(String, Toml)>>) -> (r: Result<Vec<AgentRule>, ConfigError>)
    ensures
        match (r, agents_of(rows(list@))) {
            (Ok(v), Ok(want)) => agent_views(v@) == want,
            (Err(e), Err(f)) => e@ == f,
            _ => false,
        },
{
    let mut out: Vec<AgentRule> = Vec::new();
    let mut i: usize = 0;
    let ghost all = rows(list@);
    assert(agent_views(out@) =~= seq![]);
    while i < list.len()
        invariant
            all == rows(list@),
            i <= list@.len(),
            agents_of(all.take(i as int)) == Ok::<Seq<AgentRuleView>, ConfigFault>(
                agent_views(out@),
            ),
        decreases list@.len() - i,
    {
        proof {
            assert(all.take(i + 1).drop_last() =~= all.take(i as int));
            assert(all.take(i + 1).last() == row(list@[i as int]@));
            lemma_agents_prefix(all, i + 1);
        }
        let session = match str_of(find_in(&list[i], "session")) {
            None => return Err(ConfigError::AgentNeedsSession(i)),
            Some(s) => s,
        };
        let palette = match str_of(find_in(&list[i], "palette")) {
            None => return Err(ConfigError::AgentNeedsPalette(i)),
            Some(p) => p,
        };
        let ghost before = out@;
        out.push(AgentRule { session: session.to_owned(), palette: palette.to_owned() });
        assert(agent_views(out@) =~= agent_views(before).push(
            AgentRuleView { session: session@, palette: palette@ },
        ));
        i += 1;
    }
    assert(all.take(i as int) =~= all);
    Ok(out)
}

// --- the whole configuration -----------------------------------------------------

/// What is wrong with one palette.
pub open spec fn palette_fault(name: Seq<char>, p: PaletteView, sidebar: bool) -> Option<
    ConfigFault,
> {
    if p.tokens.dom() =~= Set::empty() {
        Some(ConfigFault::EmptyPalette(name))
    } else if sidebar && !p.tokens.contains_key("accent"@) {
        Some(ConfigFault::NeedsAccent(name))
    } else {
        None
    }
}

/// What is wrong with the first faulty palette of a list.
pub open spec fn palettes_fault(
    names: Seq<Seq<char>>,
    palettes: Map<Seq<char>, PaletteView>,
    sidebar: bool,
) -> Option<ConfigFault>
    decreases names.len(),
{
    if names.len() == 0 {
        None
    } else {
        match palette_fault(names[0], palettes[names[0]], sidebar) {
            Some(f) => Some(f),
            None => palettes_fault(names.skip(1), palettes, sidebar),
        }
    }
}

/// Whether a text is absent or blank.
pub open spec fn blank_or_none(o: Option<Seq<char>>) -> bool {
    match o {
        Some(s) => blank(s),
        None => true,
    }
}

/// What is wrong with the first faulty workspace rule.
pub open spec fn rules_fault(
    rules: Seq<RuleView>,
    palettes: Map<Seq<char>, PaletteView>,
) -> Option<ConfigFault>
    decreases rules.len(),
{
    if rules.len() == 0 {
        None
    } else if blank_or_none(rules[0].label) && blank_or_none(rules[0].path) {
        Some(ConfigFault::BlankRule)
    } else if !palettes.contains_key(rules[0].palette) {
        Some(ConfigFault::UnknownRulePalette(rules[0].palette))
    } else {
        rules_fault(rules.skip(1), palettes)
    }
}

/// What is wrong with the first faulty agent rule.
pub open spec fn agents_fault(
    agents: Seq<AgentRuleView>,
    palettes: Map<Seq<char>, PaletteView>,
) -> Option<ConfigFault>
    decreases agents.len(),
{
    if agents.len() == 0 {
        None
    } else if blank(agents[0].session) {
        Some(ConfigFault::BlankSession)
    } else if !palettes.contains_key(agents[0].palette) {
        Some(ConfigFault::UnknownAgentPalette(agents[0].palette))
    } else {
        agents_fault(agents.skip(1), palettes)
    }
}

/// What is wrong with a configuration, the first thing in this order: the number
/// of palettes, the palettes by name, the marker, the workspace rules, the agent
/// rules.
pub open spec fn config_fault(c: ConfigView) -> Option<ConfigFault> {
    let names = sorted_keys(c.palettes);
    if names.len() == 0 {
        Some(ConfigFault::NoPalettes)
    } else if names.len() > 14 && c.sidebar {
        Some(ConfigFault::TooManyPalettes)
    } else {
        match palettes_fault(names, c.palettes, c.sidebar) {
            Some(f) => Some(f),
            None => if blank(c.marker) || c.marker.len() > 8 {
                Some(ConfigFault::BadMarker)
            } else {
                match rules_fault(c.rules, c.palettes) {
                    Some(f) => Some(f),
                    None => agents_fault(c.agents, c.palettes),
                }
            },
        }
    }
}

fn check_palettes(m: &KeyMap<Palette>, sidebar: bool) -> (r: Result<(), ConfigError>)
    requires
        palettes_wf(*m),
    ensures
        match (r, palettes_fault(m.keys(), palette_views(*m), sidebar)) {
            (Ok(_), None) => true,
            (Err(e), Some(f)) => e@ == f,
            _ => false,
        },
{
    let mut i: usize = 0;
    let ghost names = m.keys();
    let ghost views = palette_views(*m);
    assert(names.skip(0) =~= names);
    while i < m.entries.len()
        invariant
            palettes_wf(*m),
            names == m.keys(),
            views == palette_views(*m),
            names.len() == m.entries@.len(),
            i <= m.entries@.len(),
            palettes_fault(names, views, sidebar) == palettes_fault(
                names.skip(i as int),
                views,
                sidebar,
            ),
        decreases m.entries@.len() - i,
    {
        let name = m.entries[i].0.as_str();
        let p = &m.entries[i].1;
        proof {
            m.lemma_entry(i as int);
            let rest = names.skip(i as int);
            assert(rest[0] == names[i as int] && names[i as int] == name@);
            assert(rest.skip(1) =~= names.skip(i + 1));
            assert(views[name@] == p@);
            assert(p.wf());
            assert(p@.tokens.dom() =~= p.tokens@.dom());
            if p.tokens.entries@.len() == 0 {
                assert(p@.tokens.dom() =~= Set::empty());
            } else {
                p.tokens.lemma_entry(0);
                assert(p.tokens@.dom().contains(p.tokens.keys()[0]));
            }
        }
        if p.tokens.len() == 0 {
            return Err(ConfigError::EmptyPalette(name.to_owned()));
        }
        if sidebar && !p.tokens.has("accent") {
            return Err(ConfigError::NeedsAccent(name.to_owned()));
        }
        i += 1;
    }
    Ok(())
}

fn blank_opt(o: &Option<String>) -> (r: bool)
    ensures
        r == blank_or_none(opt_text(*o)),
{
    match o {
        Some(s) => is_blank(s.as_str()),
        None => true,
    }
}

fn check_rules(rules: &Vec<Rule>, m: &KeyMap<Palette>) -> (r: Result<(), ConfigError>)
    requires
        m.wf(),
    ensures
        match (r, rules_fault(rule_views(rules@), palette_views(*m))) {
            (Ok(_), None) => true,
            (Err(e), Some(f)) => e@ == f,
            _ => false,
        },
{
    let mut i: usize = 0;
    let ghost all = rule_views(rules@);
    assert(all.skip(0) =~= all);
    while i < rules.len()
        invariant
            m.wf(),
            all == rule_views(rules@),
            i <= rules@.len(),
            rules_fault(all, palette_views(*m)) == rules_fault(
                all.skip(i as int),
                palette_views(*m),
            ),
        decreases rules@.len() - i,
    {
        let x = &rules[i];
        proof {
            assert(all.skip(i as int)[0] == x@);
            assert(all.skip(i as int).skip(1) =~= all.skip(i + 1));
        }
        if blank_opt(&x.label) && blank_opt(&x.path) {
            return Err(ConfigError::BlankRule);
        }
        if !m.has(x.palette.as_str()) {
            return Err(ConfigError::UnknownRulePalette(x.palette.clone()));
        }
        i += 1;
    }
    Ok(())
}

fn check_agents(agents: &Vec<AgentRule>, m: &KeyMap<Palette>) -> (r: Result<(), ConfigError>)
    requires
        m.wf(),
    ensures
        match (r, agents_fault(agent_views(agents@), palette_views(*m))) {
            (Ok(_), None) => true,
            (Err(e), Some(f)) => e@ == f,
            _ => false,
        },
{
    let mut i: usize = 0;
    let ghost all = agent_views(agents@);
    assert(all.skip(0) =~= all);
    while i < agents.len()
        invariant
            m.wf(),
            all == agent_views(agents@),
            i <= agents@.len(),
            agents_fault(all, palette_views(*m)) == agents_fault(
                all.skip(i as int),
                palette_views(*m),
            ),
        decreases agents@.len() - i,
    {
        let x = &agents[i];
        proof {
            assert(all.skip(i as int)[0] == x@);
            assert(all.skip(i as int).skip(1) =~= all.skip(i + 1));
        }
        if is_blank(x.session.as_str()) {
            return Err(ConfigError::BlankSession);
        }
        if !m.has(x.palette.as_str()) {
            return Err(ConfigError::UnknownAgentPalette(x.palette.clone()));
        }
        i += 1;
    }
    Ok(())
}

/// Checks a configuration.
pub fn validate_plugin_config(cfg: &PluginConfig) -> (r: Result<(), ConfigError>)
    requires
        cfg.wf(),
    ensures
        match (r, config_fault(cfg@)) {
            (Ok(_), None) => true,
            (Err(e), Some(f)) => e@ == f,
            _ => false,
        },
{
    proof {
        assert(cfg@.palettes.dom() =~= cfg.palettes@.dom());
        cfg.palettes.lemma_sorted_keys(cfg@.palettes);
    }
    if cfg.palettes.len() == 0 {
        return Err(ConfigError::NoPalettes);
    }
    if cfg.palettes.len() > 14 && cfg.sidebar {
        return Err(ConfigError::TooManyPalettes);
    }
    match check_palettes(&cfg.palettes, cfg.sidebar) {
        Err(e) => return Err(e),
        Ok(_) => {},
    }
    if is_blank(cfg.marker.as_str()) || cfg.marker.as_str().unicode_len() > 8 {
        return Err(ConfigError::BadMarker);
    }
    match check_rules(&cfg.rules, &cfg.palettes) {
        Err(e) => return Err(e),
        Ok(_) => {},
    }
    check_agents(&cfg.agents, &cfg.palettes)
}

/// The marker in front of a coloured row where none is configured.
pub open spec fn default_marker() -> Seq<char> {
    "●"@
}

/// A configuration as it is written, before it is checked.
pub open spec fn draft_of(t: Tree) -> Result<ConfigView, ConfigFault> {
    let palettes = match tree_field(t, "palettes"@) {
        Some(Tree::Table(entries)) => palettes_of(entries),
        _ => Ok(Map::empty()),
    };
    let rules = rules_of(tree_tables(t, "workspaces"@));
    let agents = agents_of(tree_tables(t, "agents"@));
    match (palettes, rules, agents) {
        (Err(f), _, _) => Err(f),
        (_, Err(f), _) => Err(f),
        (_, _, Err(f)) => Err(f),
        (Ok(palettes), Ok(rules), Ok(agents)) => Ok(
            ConfigView {
                auto: tree_bool(tree_field(t, "auto"@), true),
                herdr_config: tree_str(tree_field(t, "herdr_config"@)),
                sidebar: tree_bool(tree_field2(t, "sidebar"@, "enabled"@), true),
                marker: match tree_str(tree_field2(t, "sidebar"@, "marker"@)) {
                    Some(m) => m,
                    None => default_marker(),
                },
                pane_tint: tree_bool(tree_field2(t, "pane"@, "tint"@), true),
                window_tint: tree_bool(tree_field2(t, "window"@, "tint"@), true),
                palettes,
                rules,
                agents,
            },
        ),
    }
}

/// The configuration that a document makes, or why it makes none.
pub open spec fn config_of(t: Tree) -> Result<ConfigView, ConfigFault> {
    match draft_of(t) {
        Err(f) => Err(f),
        Ok(c) => match config_fault(c) {
            Some(f) => Err(f),
            None => Ok(c),
        },
    }
}

fn read_draft(t: &Toml) -> (r: Result<PluginConfig, ConfigError>)
    ensures
        match (r, draft_of(t@)) {
            (Ok(c), Ok(want)) => c.wf() && c@ == want,
            (Err(e), Err(f)) => e@ == f,
            _ => false,
        },
{
    let palettes = match t.field("palettes") {
        None => KeyMap::new(),
        Some(x) => match x.table() {
            None => KeyMap::new(),
            Some(entries) => match read_palettes(entries) {
                Err(e) => return Err(e),
                Ok(m) => m,
            },
        },
    };
    proof {
        if palettes@ == Map::<Seq<char>, Palette>::empty() {
            assert(palette_views(palettes) =~= Map::empty());
        }
    }
    let rules = match t.tables("workspaces") {
        None => {
            let none: Vec<Rule> = Vec::new();
            assert(rule_views(none@) =~= seq![]);
            none
        },
        Some(list) => match read_rules(list) {
            Err(e) => return Err(e),
            Ok(v) => v,
        },
    };
    let agents = match t.tables("agents") {
        None => {
            let none: Vec<AgentRule> = Vec::new();
            assert(agent_views(none@) =~= seq![]);
            none
        },
        Some(list) => match read_agents(list) {
            Err(e) => return Err(e),
            Ok(v) => v,
        },
    };
    let marker = match str_of(t.field2("sidebar", "marker")) {
        Some(m) => m.to_owned(),
        None => "●".to_owned(),
    };
    Ok(
        PluginConfig {
            auto: bool_of(t.field("auto"), true),
            herdr_config: opt_owned(str_of(t.field("herdr_config"))),
            sidebar: bool_of(t.field2("sidebar", "enabled"), true),
            marker,
            pane_tint: bool_of(t.field2("pane", "tint"), true),
            window_tint: bool_of(t.field2("window", "tint"), true),
            palettes,
            rules,
            agents,
        },
    )
}

/// Reads a configuration from the contents of a document, and checks it.
pub fn read_plugin_config(t: &Toml) -> (r: Result<PluginConfig, ConfigError>)
    ensures
        match (r, config_of(t@)) {
            (Ok(c), Ok(want)) => c.valid() && c@ == want,
            (Err(e), Err(f)) => e@ == f,
            _ => false,
        },
{
    let cfg = match read_draft(t) {
        Err(e) => return Err(e),
        Ok(c) => c,
    };
    match validate_plugin_config(&cfg) {
        Err(e) => Err(e),
        Ok(_) => Ok(cfg),
    }
}

/// The configuration that a text makes, or why it makes none.
pub open spec fn config_of_text(text: Seq<char>) -> Result<ConfigView, ConfigFault> {
    match toml_parse(text) {
        Err(message) => Err(ConfigFault::Parse(message)),
        Ok(doc) => config_of(tree_of(doc.root)),
    }
}

/// Reads a configuration from its text, and checks it.
pub fn parse_plugin_config(text: &str) -> (r: Result<PluginConfig, ConfigError>)
    ensures
        match (r, config_of_text(text@)) {
            (Ok(c), Ok(want)) => c.valid() && c@ == want,
            (Err(e), Err(f)) => e@ == f,
            _ => false,
        },
{
    match parse_document(text) {
        Err(e) => Err(ConfigError::Parse(e)),
        Ok(doc) => read_plugin_config(&read_item(root(&doc))),
    }
}

// --- what a configuration that is accepted is known to hold ------------------------

/// Every token of a palette is one that Herdr takes, and every colour in it is
/// `#rgb` or `#rrggbb`.
pub open spec fn strict_colours(p: PaletteView) -> bool {
    &&& forall|k: Seq<char>| #[trigger]
        p.tokens.contains_key(k) ==> theme_tokens().contains(k) && hex_colour(p.tokens[k])
    &&& p.pane_bg is Some ==> hex_colour(p.pane_bg->0)
    &&& p.window_bg is Some ==> hex_colour(p.window_bg->0)
}

proof fn lemma_palette_strict(
    name: Seq<char>,
    entries: Seq<(Seq<char>, Tree)>,
    allow_light: bool,
)
    requires
        palette_of(name, entries, allow_light) is Ok,
    ensures
        strict_colours(palette_of(name, entries, allow_light)->Ok_0),
        ({
            let p = palette_of(name, entries, allow_light)->Ok_0;
            &&& p.light is Some ==> strict_colours(*p.light->0) && p.light->0.light is None
                && p.light->0.tokens.dom().finite()
            &&& p.tokens.dom().finite()
        }),
        !allow_light ==> palette_of(name, entries, allow_light)->Ok_0.light is None,
    decreases (if allow_light {
        1int
    } else {
        0int
    }), entries.len(),
{
    if entries.len() > 0 {
        lemma_palette_strict(name, entries.drop_last(), allow_light);
        let (key, value) = entries.last();
        if key == "light"@ && allow_light {
            lemma_palette_strict(name + ".light"@, value->Table_0, false);
        }
    }
}

proof fn lemma_palettes_strict(entries: Seq<(Seq<char>, Tree)>, name: Seq<char>)
    requires
        palettes_of(entries) is Ok,
        palettes_of(entries)->Ok_0.contains_key(name),
    ensures
        ({
            let p = palettes_of(entries)->Ok_0[name];
            &&& strict_colours(p)
            &&& p.tokens.dom().finite()
            &&& p.light is Some ==> strict_colours(*p.light->0) && p.light->0.light is None
                && p.light->0.tokens.dom().finite()
        }),
    decreases entries.len(),
{
    if entries.len() > 0 {
        let (last, value) = entries.last();
        if last == name {
            lemma_palette_strict(name, value->Table_0, true);
        } else {
            lemma_palettes_strict(entries.drop_last(), name);
        }
    }
}

/// Nothing reaches Herdr's configuration that was not checked: in a configuration
/// that is accepted, every token of every palette and of its light variant is on
/// the list, every colour is `#rgb` or `#rrggbb`, and there are finitely many.
pub proof fn law_accepted_colours_are_strict(t: Tree, name: Seq<char>)
    requires
        config_of(t) is Ok,
        config_of(t)->Ok_0.palettes.contains_key(name),
    ensures
        ({
            let p = config_of(t)->Ok_0.palettes[name];
            &&& strict_colours(p)
            &&& p.tokens.dom().finite()
            &&& p.light is Some ==> strict_colours(*p.light->0) && p.light->0.light is None
                && p.light->0.tokens.dom().finite()
        }),
{
    lemma_palettes_strict(tree_field(t, "palettes"@)->0->Table_0, name);
}

proof fn lemma_rules_named(
    rules: Seq<RuleView>,
    palettes: Map<Seq<char>, PaletteView>,
    i: int,
)
    requires
        rules_fault(rules, palettes) is None,
        0 <= i < rules.len(),
    ensures
        palettes.contains_key(rules[i].palette),
        !(blank_or_none(rules[i].label) && blank_or_none(rules[i].path)),
    decreases rules.len(),
{
    if i > 0 {
        lemma_rules_named(rules.skip(1), palettes, i - 1);
    }
}

proof fn lemma_agents_named(
    agents: Seq<AgentRuleView>,
    palettes: Map<Seq<char>, PaletteView>,
    i: int,
)
    requires
        agents_fault(agents, palettes) is None,
        0 <= i < agents.len(),
    ensures
        palettes.contains_key(agents[i].palette),
        !blank(agents[i].session),
    decreases agents.len(),
{
    if i > 0 {
        lemma_agents_named(agents.skip(1), palettes, i - 1);
    }
}

proof fn lemma_palettes_sound(
    names: Seq<Seq<char>>,
    palettes: Map<Seq<char>, PaletteView>,
    sidebar: bool,
    i: int,
)
    requires
        palettes_fault(names, palettes, sidebar) is None,
        0 <= i < names.len(),
    ensures
        palette_fault(names[i], palettes[names[i]], sidebar) is None,
    decreases names.len(),
{
    if i > 0 {
        lemma_palettes_sound(names.skip(1), palettes, sidebar, i - 1);
    }
}

/// Every palette that a rule can choose is there: the rules of a configuration
/// without fault name palettes that it defines.
pub proof fn law_rules_name_palettes(c: ConfigView)
    requires
        config_fault(c) is None,
    ensures
        forall|i: int|
            0 <= i < c.rules.len() ==> c.palettes.contains_key((#[trigger] c.rules[i]).palette),
        forall|i: int|
            0 <= i < c.agents.len() ==> c.palettes.contains_key((#[trigger] c.agents[i]).palette),
{
    assert forall|i: int| 0 <= i < c.rules.len() implies c.palettes.contains_key(
        (#[trigger] c.rules[i]).palette,
    ) by {
        lemma_rules_named(c.rules, c.palettes, i);
    }
    assert forall|i: int| 0 <= i < c.agents.len() implies c.palettes.contains_key(
        (#[trigger] c.agents[i]).palette,
    ) by {
        lemma_agents_named(c.agents, c.palettes, i);
    }
}

/// Every palette of a configuration without fault sets a token, and has an
/// accent where it colours sidebar rows.
pub proof fn law_palettes_hold_tokens(c: ConfigView, name: Seq<char>)
    requires
        config_fault(c) is None,
        c.palettes.contains_key(name),
        c.palettes.dom().finite(),
    ensures
        exists|token: Seq<char>| #[trigger] c.palettes[name].tokens.contains_key(token),
        c.sidebar ==> c.palettes[name].tokens.contains_key("accent"@),
{
    lemma_sorted(c.palettes);
    let names = sorted_keys(c.palettes);
    assert(names.contains(name));
    let i = choose|i: int| 0 <= i < names.len() && names[i] == name;
    lemma_palettes_sound(names, c.palettes, c.sidebar, i);
    let tokens = c.palettes[name].tokens;
    assert(exists|token: Seq<char>| #[trigger] tokens.contains_key(token)) by {
        if forall|token: Seq<char>| !tokens.contains_key(token) {
            assert(tokens.dom() =~= Set::empty());
        }
    }
}

proof fn lemma_palettes_finite(entries: Seq<(Seq<char>, Tree)>)
    requires
        palettes_of(entries) is Ok,
    ensures
        palettes_of(entries)->Ok_0.dom().finite(),
    decreases entries.len(),
{
    if entries.len() > 0 {
        lemma_palettes_finite(entries.drop_last());
    }
}

/// An accepted configuration has finitely many palettes.
pub proof fn law_palettes_are_finite(t: Tree)
    requires
        config_of(t) is Ok,
    ensures
        config_of(t)->Ok_0.palettes.dom().finite(),
{
    match tree_field(t, "palettes"@) {
        Some(Tree::Table(entries)) => {
            lemma_palettes_finite(entries);
        },
        _ => {},
    }
}

} // verus!
