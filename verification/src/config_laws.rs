//! What holds of every configuration that is read: each value is where it was
//! written, nothing is made up, and what is refused is refused for a reason.
use crate::config::{
    agents_fault, agents_of, blank_or_none, config_fault, config_message, config_of, draft_of,
    palette_fault, palette_of, palettes_fault, palettes_of, rules_fault, rules_of, AgentRuleView,
    ConfigFault, ConfigView, RuleView,
};
use crate::keymap::{lemma_sorted, sorted_keys};
use crate::palette::{hex_colour, theme_tokens, PaletteView};
use crate::text::{begins, blank, debug_text, decimal};
use crate::text_laws::law_parts_of_a_text;
use crate::toml::{
    child, entries_of, holds_key, index_of, lemma_index_of, node_bool, node_str, Body, Node,
};
use crate::tree::{tree_bool, tree_field, tree_field2, tree_of, tree_str, tree_tables, under, Tree};
use vstd::prelude::*;

verus! {

// --- what a reader sees ----------------------------------------------------------

proof fn lemma_under(entries: Seq<(Seq<char>, Tree)>, key: Seq<char>, i: int)
    requires
        0 <= i <= entries.len(),
        forall|j: int| 0 <= j < i ==> (#[trigger] entries[j]).0 != key,
        i < entries.len() ==> entries[i].0 == key,
    ensures
        i < entries.len() ==> under(entries, key) == Some(entries[i].1),
        i == entries.len() ==> under(entries, key) is None,
    decreases entries.len(),
{
    if i > 0 {
        assert(entries[0].0 != key);
        let rest = entries.skip(1);
        assert forall|j: int| 0 <= j < i - 1 implies (#[trigger] rest[j]).0 != key by {
            assert(rest[j] == entries[j + 1]);
        }
        lemma_under(rest, key, i - 1);
    }
}

/// What stands under a key of a table: the value of the first entry with that key,
/// and nothing where there is none, or where there is no table.
pub proof fn law_table_entries(entries: Seq<(Seq<char>, Tree)>, t: Tree, key: Seq<char>, i: int)
    requires
        0 <= i <= entries.len(),
        forall|j: int| 0 <= j < i ==> (#[trigger] entries[j]).0 != key,
        i < entries.len() ==> entries[i].0 == key,
    ensures
        i < entries.len() ==> tree_field(Tree::Table(entries), key) == Some(entries[i].1),
        i == entries.len() ==> tree_field(Tree::Table(entries), key) is None,
        !(t is Table) ==> tree_field(t, key) is None,
{
    lemma_under(entries, key, i);
}

/// A reader finds under each key of a table, of either form, what stands there in
/// the document; a string is read as that text, and a truth value as itself.
pub proof fn law_reader_sees_the_document(n: Node, key: Seq<char>, other: bool)
    ensures
        child(n, key) is Some ==> tree_field(tree_of(n), key) == Some(tree_of(child(n, key)->0)),
        child(n, key) is None ==> tree_field(tree_of(n), key) is None,
        tree_str(Some(tree_of(n))) == node_str(n),
        node_bool(n) is Some ==> tree_bool(Some(tree_of(n)), other) == node_bool(n)->0,
        node_bool(n) is None ==> tree_bool(Some(tree_of(n)), other) == other,
{
    let e = entries_of(n);
    lemma_index_of(e, key);
    if n is Table || n is Inline {
        let t = tree_of(n)->Table_0;
        assert(t.len() == e.len());
        assert forall|j: int| 0 <= j < e.len() implies (#[trigger] t[j]).0 == e[j].key && t[j].1
            == tree_of(e[j].node) by {}
        lemma_under(t, key, index_of(e, key));
    } else {
        assert(!holds_key(e, key));
    }
}

/// A reader finds under each key of a table in a list what stands there in the
/// document.
pub proof fn law_reader_sees_lists(list: Seq<Body>, i: int, key: Seq<char>, other: bool)
    requires
        0 <= i < list.len(),
    ensures
        ({
            let rows = tree_of(Node::Tables(list));
            let n = Node::Table(list[i]);
            let found = tree_field(Tree::Table(rows->Tables_0[i]), key);
            &&& rows is Tables
            &&& rows->Tables_0.len() == list.len()
            &&& child(n, key) is Some ==> found == Some(tree_of(child(n, key)->0)) && tree_str(
                found,
            ) == node_str(child(n, key)->0)
            &&& child(n, key) is None ==> found is None
        }),
{
    let n = Node::Table(list[i]);
    let rows = tree_of(Node::Tables(list))->Tables_0;
    assert(rows[i] =~= tree_of(n)->Table_0);
    law_reader_sees_the_document(n, key, other);
    if child(n, key) is Some {
        law_reader_sees_the_document(child(n, key)->0, key, other);
    }
}

// --- palettes --------------------------------------------------------------------

/// The tokens that a palette may set are the nineteen that Herdr takes.
pub proof fn law_tokens_that_herdr_takes(t: Seq<char>)
    ensures
        theme_tokens().contains(t) <==> (t == "accent"@ || t == "panel_bg"@ || t == "sidebar_bg"@
            || t == "active_row_bg"@ || t == "selection_bg"@ || t == "surface0"@ || t
            == "surface1"@ || t == "surface_dim"@ || t == "overlay0"@ || t == "overlay1"@ || t
            == "text"@ || t == "subtext0"@ || t == "mauve"@ || t == "green"@ || t == "yellow"@ || t
            == "red"@ || t == "blue"@ || t == "teal"@ || t == "peach"@),
{
    let all = theme_tokens();
    assert(all[0] == "accent"@ && all[1] == "panel_bg"@ && all[2] == "sidebar_bg"@ && all[3]
        == "active_row_bg"@ && all[4] == "selection_bg"@ && all[5] == "surface0"@ && all[6]
        == "surface1"@ && all[7] == "surface_dim"@ && all[8] == "overlay0"@ && all[9]
        == "overlay1"@ && all[10] == "text"@ && all[11] == "subtext0"@ && all[12] == "mauve"@
        && all[13] == "green"@ && all[14] == "yellow"@ && all[15] == "red"@ && all[16] == "blue"@
        && all[17] == "teal"@ && all[18] == "peach"@);
    assert(all.len() == 19);
}

/// Every entry of a palette is where it belongs: `pane_bg` and `window_bg` are the
/// tints, `light` is the light variant, and every other key is a token with its
/// colour. Of entries with the same key the last counts.
pub proof fn law_palette_takes_every_entry(
    name: Seq<char>,
    entries: Seq<(Seq<char>, Tree)>,
    allow_light: bool,
    i: int,
)
    requires
        palette_of(name, entries, allow_light) is Ok,
        0 <= i < entries.len(),
        forall|j: int| i < j < entries.len() ==> (#[trigger] entries[j]).0 != entries[i].0,
    ensures
        ({
            let p = palette_of(name, entries, allow_light)->Ok_0;
            let (key, value) = entries[i];
            &&& key == "light"@ && allow_light ==> {
                &&& value is Table
                &&& p.light is Some
                &&& palette_of(name + ".light"@, value->Table_0, false) == Ok::<
                    PaletteView,
                    ConfigFault,
                >(*p.light->0)
            }
            &&& !(key == "light"@ && allow_light) ==> {
                let colour = value->Str_0;
                &&& value is Str
                &&& hex_colour(colour)
                &&& key == "pane_bg"@ ==> p.pane_bg == Some(colour)
                &&& key == "window_bg"@ ==> p.window_bg == Some(colour)
                &&& key != "pane_bg"@ && key != "window_bg"@ ==> {
                    &&& theme_tokens().contains(key)
                    &&& p.tokens.contains_key(key)
                    &&& p.tokens[key] == colour
                }
            }
        }),
    decreases entries.len(),
{
    reveal_strlit("pane_bg");
    reveal_strlit("window_bg");
    assert("pane_bg"@.len() == 7 && "window_bg"@.len() == 9);
    if i < entries.len() - 1 {
        let rest = entries.drop_last();
        assert(entries[entries.len() - 1] == entries.last());
        assert(entries.last().0 != entries[i].0);
        assert forall|j: int| i < j < rest.len() implies (#[trigger] rest[j]).0 != rest[i].0 by {
            assert(entries[j].0 != entries[i].0);
        }
        law_palette_takes_every_entry(name, rest, allow_light, i);
    } else {
        assert(entries[i] == entries.last());
    }
}

/// Whether an entry has that key.
pub open spec fn mentions(entries: Seq<(Seq<char>, Tree)>, key: Seq<char>) -> bool {
    exists|i: int| 0 <= i < entries.len() && (#[trigger] entries[i]).0 == key
}

/// A palette holds nothing that no entry says.
pub proof fn law_palette_makes_nothing_up(
    name: Seq<char>,
    entries: Seq<(Seq<char>, Tree)>,
    allow_light: bool,
    token: Seq<char>,
)
    requires
        palette_of(name, entries, allow_light) is Ok,
    ensures
        ({
            let p = palette_of(name, entries, allow_light)->Ok_0;
            &&& p.tokens.contains_key(token) ==> mentions(entries, token)
            &&& p.pane_bg is Some ==> mentions(entries, "pane_bg"@)
            &&& p.window_bg is Some ==> mentions(entries, "window_bg"@)
            &&& p.light is Some ==> allow_light && mentions(entries, "light"@)
        }),
    decreases entries.len(),
{
    if entries.len() > 0 {
        let rest = entries.drop_last();
        law_palette_makes_nothing_up(name, rest, allow_light, token);
        assert(entries[entries.len() - 1] == entries.last());
        lemma_mentions(entries, token);
        lemma_mentions(entries, "pane_bg"@);
        lemma_mentions(entries, "window_bg"@);
        lemma_mentions(entries, "light"@);
    }
}

proof fn lemma_mentions(entries: Seq<(Seq<char>, Tree)>, key: Seq<char>)
    requires
        entries.len() > 0,
    ensures
        mentions(entries.drop_last(), key) ==> mentions(entries, key),
{
    let rest = entries.drop_last();
    if mentions(rest, key) {
        let i = choose|i: int| 0 <= i < rest.len() && (#[trigger] rest[i]).0 == key;
        assert(entries[i].0 == key);
    }
}

/// A palette is refused for the first entry that cannot stand in one, and for no
/// other reason: a light variant that is no table or is refused itself, a value that
/// is no string, a key that is no token, or a colour that is none.
pub proof fn law_why_a_palette_is_refused(
    name: Seq<char>,
    entries: Seq<(Seq<char>, Tree)>,
    allow_light: bool,
) -> (i: int)
    requires
        palette_of(name, entries, allow_light) is Err,
    ensures
        0 <= i < entries.len(),
        palette_of(name, entries.take(i), allow_light) is Ok,
        ({
            let (key, value) = entries[i];
            let f = palette_of(name, entries, allow_light)->Err_0;
            let tint = key == "pane_bg"@ || key == "window_bg"@;
            &&& key == "light"@ && allow_light && !(value is Table) ==> f
                == ConfigFault::LightNotTable(name)
            &&& key == "light"@ && allow_light && value is Table ==> palette_of(
                name + ".light"@,
                value->Table_0,
                false,
            ) == Err::<PaletteView, ConfigFault>(f)
            &&& !(key == "light"@ && allow_light) && !(value is Str) ==> f
                == ConfigFault::NotString(name, key)
            &&& !(key == "light"@ && allow_light) && value is Str ==> {
                &&& !tint && !theme_tokens().contains(key) ==> f == ConfigFault::BadToken(name, key)
                &&& tint || theme_tokens().contains(key) ==> !hex_colour(value->Str_0) && f
                    == ConfigFault::BadColour(name, key, value->Str_0)
            }
        }),
    decreases entries.len(),
{
    let rest = entries.drop_last();
    let n = entries.len() - 1;
    if palette_of(name, rest, allow_light) is Err {
        let i = law_why_a_palette_is_refused(name, rest, allow_light);
        assert(entries.take(i) =~= rest.take(i));
        assert(entries[i] == rest[i]);
        i
    } else {
        assert(entries.take(n) =~= rest);
        assert(entries[n] == entries.last());
        n
    }
}

/// Every palette is read from the table of its own name, the last where there are
/// several, and nothing else is a palette.
pub proof fn law_palettes_are_their_own(entries: Seq<(Seq<char>, Tree)>, i: int, name: Seq<char>)
    requires
        palettes_of(entries) is Ok,
        0 <= i < entries.len(),
        forall|j: int| i < j < entries.len() ==> (#[trigger] entries[j]).0 != entries[i].0,
    ensures
        ({
            let m = palettes_of(entries)->Ok_0;
            &&& m.contains_key(entries[i].0)
            &&& entries[i].1 is Table
            &&& palette_of(entries[i].0, entries[i].1->Table_0, true) == Ok::<
                PaletteView,
                ConfigFault,
            >(m[entries[i].0])
            &&& m.contains_key(name) ==> mentions(entries, name)
        }),
    decreases entries.len(),
{
    lemma_palettes_mentioned(entries, name);
    if i < entries.len() - 1 {
        let rest = entries.drop_last();
        assert(entries[entries.len() - 1] == entries.last());
        assert(entries.last().0 != entries[i].0);
        assert forall|j: int| i < j < rest.len() implies (#[trigger] rest[j]).0 != rest[i].0 by {
            assert(entries[j].0 != entries[i].0);
        }
        law_palettes_are_their_own(rest, i, name);
    } else {
        assert(entries[i] == entries.last());
    }
}

proof fn lemma_palettes_mentioned(entries: Seq<(Seq<char>, Tree)>, name: Seq<char>)
    requires
        palettes_of(entries) is Ok,
    ensures
        palettes_of(entries)->Ok_0.contains_key(name) ==> mentions(entries, name),
    decreases entries.len(),
{
    if entries.len() > 0 {
        lemma_palettes_mentioned(entries.drop_last(), name);
        lemma_mentions(entries, name);
        assert(entries[entries.len() - 1] == entries.last());
    }
}

/// Palettes are refused for the first that is no table or is refused itself.
pub proof fn law_why_palettes_are_refused(entries: Seq<(Seq<char>, Tree)>) -> (i: int)
    requires
        palettes_of(entries) is Err,
    ensures
        0 <= i < entries.len(),
        palettes_of(entries.take(i)) is Ok,
        ({
            let (name, value) = entries[i];
            let f = palettes_of(entries)->Err_0;
            &&& !(value is Table) ==> f == ConfigFault::PaletteNotTable(name)
            &&& value is Table ==> palette_of(name, value->Table_0, true) == Err::<
                PaletteView,
                ConfigFault,
            >(f)
        }),
    decreases entries.len(),
{
    let rest = entries.drop_last();
    let n = entries.len() - 1;
    if palettes_of(rest) is Err {
        let i = law_why_palettes_are_refused(rest);
        assert(entries.take(i) =~= rest.take(i));
        assert(entries[i] == rest[i]);
        i
    } else {
        assert(entries.take(n) =~= rest);
        assert(entries[n] == entries.last());
        n
    }
}

// --- rules -----------------------------------------------------------------------

/// Each workspace rule is what its table says, in the order of the tables; each has
/// a label or a path.
pub proof fn law_rules_are_their_own(list: Seq<Seq<(Seq<char>, Tree)>>, i: int)
    requires
        rules_of(list) is Ok,
        0 <= i < list.len(),
    ensures
        ({
            let rules = rules_of(list)->Ok_0;
            let t = Tree::Table(list[i]);
            &&& rules.len() == list.len()
            &&& rules[i].label == tree_str(tree_field(t, "label"@))
            &&& rules[i].path == tree_str(tree_field(t, "path"@))
            &&& Some(rules[i].palette) == tree_str(tree_field(t, "palette"@))
            &&& rules[i].label is Some || rules[i].path is Some
        }),
    decreases list.len(),
{
    let rest = list.drop_last();
    lemma_rules_len(rest);
    if i < rest.len() {
        law_rules_are_their_own(rest, i);
        assert(rules_of(list)->Ok_0[i] == rules_of(rest)->Ok_0[i]);
    } else {
        assert(list[i] == list.last());
    }
}

proof fn lemma_rules_len(list: Seq<Seq<(Seq<char>, Tree)>>)
    ensures
        rules_of(list) is Ok ==> rules_of(list)->Ok_0.len() == list.len(),
    decreases list.len(),
{
    if list.len() > 0 {
        lemma_rules_len(list.drop_last());
    }
}

/// Workspace rules are refused for the first that has neither label nor path, or
/// that has no palette, with its place in the list.
pub proof fn law_why_rules_are_refused(list: Seq<Seq<(Seq<char>, Tree)>>) -> (i: int)
    requires
        rules_of(list) is Err,
    ensures
        0 <= i < list.len(),
        rules_of(list.take(i)) is Ok,
        ({
            let t = Tree::Table(list[i]);
            let f = rules_of(list)->Err_0;
            let aimless = tree_str(tree_field(t, "label"@)) is None && tree_str(
                tree_field(t, "path"@),
            ) is None;
            &&& aimless ==> f == ConfigFault::RuleNeedsTarget(i as nat)
            &&& !aimless ==> f == ConfigFault::RuleNeedsPalette(i as nat) && tree_str(
                tree_field(t, "palette"@),
            ) is None
        }),
    decreases list.len(),
{
    let rest = list.drop_last();
    let n = list.len() - 1;
    if rules_of(rest) is Err {
        let i = law_why_rules_are_refused(rest);
        assert(list.take(i) =~= rest.take(i));
        assert(list[i] == rest[i]);
        i
    } else {
        assert(list.take(n) =~= rest);
        assert(list[n] == list.last());
        n
    }
}

/// Each agent rule is what its table says, in the order of the tables.
pub proof fn law_agent_rules_are_their_own(list: Seq<Seq<(Seq<char>, Tree)>>, i: int)
    requires
        agents_of(list) is Ok,
        0 <= i < list.len(),
    ensures
        ({
            let agents = agents_of(list)->Ok_0;
            let t = Tree::Table(list[i]);
            &&& agents.len() == list.len()
            &&& Some(agents[i].session) == tree_str(tree_field(t, "session"@))
            &&& Some(agents[i].palette) == tree_str(tree_field(t, "palette"@))
        }),
    decreases list.len(),
{
    let rest = list.drop_last();
    lemma_agents_len(rest);
    if i < rest.len() {
        law_agent_rules_are_their_own(rest, i);
        assert(agents_of(list)->Ok_0[i] == agents_of(rest)->Ok_0[i]);
    } else {
        assert(list[i] == list.last());
    }
}

proof fn lemma_agents_len(list: Seq<Seq<(Seq<char>, Tree)>>)
    ensures
        agents_of(list) is Ok ==> agents_of(list)->Ok_0.len() == list.len(),
    decreases list.len(),
{
    if list.len() > 0 {
        lemma_agents_len(list.drop_last());
    }
}

/// Agent rules are refused for the first that has no session, or that has no
/// palette, with its place in the list.
pub proof fn law_why_agent_rules_are_refused(list: Seq<Seq<(Seq<char>, Tree)>>) -> (i: int)
    requires
        agents_of(list) is Err,
    ensures
        0 <= i < list.len(),
        agents_of(list.take(i)) is Ok,
        ({
            let t = Tree::Table(list[i]);
            let f = agents_of(list)->Err_0;
            let aimless = tree_str(tree_field(t, "session"@)) is None;
            &&& aimless ==> f == ConfigFault::AgentNeedsSession(i as nat)
            &&& !aimless ==> f == ConfigFault::AgentNeedsPalette(i as nat) && tree_str(
                tree_field(t, "palette"@),
            ) is None
        }),
    decreases list.len(),
{
    let rest = list.drop_last();
    let n = list.len() - 1;
    if agents_of(rest) is Err {
        let i = law_why_agent_rules_are_refused(rest);
        assert(list.take(i) =~= rest.take(i));
        assert(list[i] == rest[i]);
        i
    } else {
        assert(list.take(n) =~= rest);
        assert(list[n] == list.last());
        n
    }
}

// --- the whole -------------------------------------------------------------------

/// The settings of an accepted configuration are those that are written. What is
/// not written, or is of another kind, is on, and the marker is a filled circle.
pub proof fn law_settings_are_read(t: Tree)
    requires
        config_of(t) is Ok,
    ensures
        ({
            let c = config_of(t)->Ok_0;
            &&& c.auto <==> tree_field(t, "auto"@) != Some(Tree::Bool(false))
            &&& c.sidebar <==> tree_field2(t, "sidebar"@, "enabled"@) != Some(Tree::Bool(false))
            &&& c.pane_tint <==> tree_field2(t, "pane"@, "tint"@) != Some(Tree::Bool(false))
            &&& c.window_tint <==> tree_field2(t, "window"@, "tint"@) != Some(Tree::Bool(false))
            &&& forall|p: Seq<char>|
                c.herdr_config == Some(p) <==> tree_field(t, "herdr_config"@) == Some(Tree::Str(p))
            &&& tree_field2(t, "sidebar"@, "marker"@) is Some && tree_field2(
                t,
                "sidebar"@,
                "marker"@,
            )->0 is Str ==> Some(Tree::Str(c.marker)) == tree_field2(t, "sidebar"@, "marker"@)
            &&& !(tree_field2(t, "sidebar"@, "marker"@) is Some && tree_field2(
                t,
                "sidebar"@,
                "marker"@,
            )->0 is Str) ==> c.marker == seq!['\u{25cf}']
        }),
{
    reveal_strlit("●");
    assert("●"@ =~= seq!['\u{25cf}']);
}

/// The palettes and the rules of an accepted configuration are those of its tables:
/// `palettes`, the list `workspaces` and the list `agents`. Where one of them is not
/// there, or is of another kind, there are none.
pub proof fn law_contents_are_read(t: Tree)
    requires
        config_of(t) is Ok,
    ensures
        ({
            let c = config_of(t)->Ok_0;
            let palettes = tree_field(t, "palettes"@);
            let rules = tree_field(t, "workspaces"@);
            let agents = tree_field(t, "agents"@);
            &&& palettes is Some && palettes->0 is Table ==> palettes_of(palettes->0->Table_0)
                == Ok::<Map<Seq<char>, PaletteView>, ConfigFault>(c.palettes)
            &&& rules is Some && rules->0 is Tables ==> rules_of(rules->0->Tables_0) == Ok::<
                Seq<RuleView>,
                ConfigFault,
            >(c.rules)
            &&& !(rules is Some && rules->0 is Tables) ==> c.rules.len() == 0
            &&& agents is Some && agents->0 is Tables ==> agents_of(agents->0->Tables_0) == Ok::<
                Seq<AgentRuleView>,
                ConfigFault,
            >(c.agents)
            &&& !(agents is Some && agents->0 is Tables) ==> c.agents.len() == 0
            &&& config_fault(c) is None
        }),
{
}

/// Whether a palette can be used: it sets a token, and has an accent where the
/// sidebar shows one.
pub open spec fn usable(p: PaletteView, sidebar: bool) -> bool {
    &&& exists|token: Seq<char>| p.tokens.contains_key(token)
    &&& sidebar ==> p.tokens.contains_key("accent"@)
}

proof fn lemma_palettes_fault(
    names: Seq<Seq<char>>,
    palettes: Map<Seq<char>, PaletteView>,
    sidebar: bool,
)
    ensures
        palettes_fault(names, palettes, sidebar) is None <==> forall|i: int|
            0 <= i < names.len() ==> usable(palettes[#[trigger] names[i]], sidebar),
        match palettes_fault(names, palettes, sidebar) {
            Some(ConfigFault::EmptyPalette(n)) => names.contains(n) && forall|token: Seq<char>|
                !palettes[n].tokens.contains_key(token),
            Some(ConfigFault::NeedsAccent(n)) => names.contains(n) && sidebar
                && !palettes[n].tokens.contains_key("accent"@) && exists|token: Seq<char>|
                palettes[n].tokens.contains_key(token),
            Some(_) => false,
            None => true,
        },
    decreases names.len(),
{
    if names.len() > 0 {
        let rest = names.skip(1);
        let p = palettes[names[0]];
        lemma_palettes_fault(rest, palettes, sidebar);
        assert(palette_fault(names[0], p, sidebar) is None <==> usable(p, sidebar)) by {
            if forall|token: Seq<char>| !p.tokens.contains_key(token) {
                assert(p.tokens.dom() =~= Set::empty());
            }
            if p.tokens.dom() =~= Set::empty() {
                assert forall|token: Seq<char>| !p.tokens.contains_key(token) by {
                    assert(!p.tokens.dom().contains(token));
                }
            }
        }
        if p.tokens.dom() =~= Set::empty() {
            assert forall|token: Seq<char>| !p.tokens.contains_key(token) by {
                assert(!p.tokens.dom().contains(token));
            }
        } else {
            if forall|token: Seq<char>| !p.tokens.contains_key(token) {
                assert(p.tokens.dom() =~= Set::empty());
            }
        }
        if palette_fault(names[0], p, sidebar) is None {
            match palettes_fault(rest, palettes, sidebar) {
                Some(ConfigFault::EmptyPalette(n)) => {
                    let i = choose|i: int| 0 <= i < rest.len() && rest[i] == n;
                    assert(names[i + 1] == n);
                },
                Some(ConfigFault::NeedsAccent(n)) => {
                    let i = choose|i: int| 0 <= i < rest.len() && rest[i] == n;
                    assert(names[i + 1] == n);
                },
                _ => {},
            }
            assert((forall|i: int|
                0 <= i < names.len() ==> usable(palettes[#[trigger] names[i]], sidebar)) <==> (
            forall|i: int| 0 <= i < rest.len() ==> usable(palettes[#[trigger] rest[i]], sidebar)))
                by {
                if forall|i: int|
                    0 <= i < names.len() ==> usable(palettes[#[trigger] names[i]], sidebar) {
                    assert forall|i: int| 0 <= i < rest.len() implies usable(
                        palettes[#[trigger] rest[i]],
                        sidebar,
                    ) by {
                        assert(rest[i] == names[i + 1]);
                    }
                }
                if forall|i: int|
                    0 <= i < rest.len() ==> usable(palettes[#[trigger] rest[i]], sidebar) {
                    assert forall|i: int| 0 <= i < names.len() implies usable(
                        palettes[#[trigger] names[i]],
                        sidebar,
                    ) by {
                        if i > 0 {
                            assert(rest[i - 1] == names[i]);
                        }
                    }
                }
            }
        } else {
            assert(names[0] == names[0]);
            assert(names.contains(names[0]));
        }
    }
}

/// Whether a workspace rule can be used: its label or its path is not blank, and its
/// palette is there.
pub open spec fn rule_usable(r: RuleView, palettes: Map<Seq<char>, PaletteView>) -> bool {
    &&& r.label is Some && !blank(r.label->0) || r.path is Some && !blank(r.path->0)
    &&& palettes.contains_key(r.palette)
}

proof fn lemma_rules_fault(rules: Seq<RuleView>, palettes: Map<Seq<char>, PaletteView>)
    ensures
        rules_fault(rules, palettes) is None <==> forall|i: int|
            0 <= i < rules.len() ==> rule_usable(#[trigger] rules[i], palettes),
        match rules_fault(rules, palettes) {
            Some(ConfigFault::BlankRule) => exists|i: int|
                0 <= i < rules.len() && blank_or_none((#[trigger] rules[i]).label)
                    && blank_or_none(rules[i].path),
            Some(ConfigFault::UnknownRulePalette(p)) => !palettes.contains_key(p) && exists|i: int|
                0 <= i < rules.len() && (#[trigger] rules[i]).palette == p,
            Some(_) => false,
            None => true,
        },
    decreases rules.len(),
{
    if rules.len() > 0 {
        let rest = rules.skip(1);
        lemma_rules_fault(rest, palettes);
        assert forall|i: int| 0 <= i < rest.len() implies #[trigger] rest[i] == rules[i + 1] by {}
        if rule_usable(rules[0], palettes) {
            match rules_fault(rest, palettes) {
                Some(ConfigFault::BlankRule) => {
                    let i = choose|i: int|
                        0 <= i < rest.len() && blank_or_none((#[trigger] rest[i]).label)
                            && blank_or_none(rest[i].path);
                    assert(rules[i + 1] == rest[i]);
                },
                Some(ConfigFault::UnknownRulePalette(p)) => {
                    let i = choose|i: int| 0 <= i < rest.len() && (#[trigger] rest[i]).palette == p;
                    assert(rules[i + 1] == rest[i]);
                },
                _ => {
                    assert forall|i: int| 0 <= i < rules.len() implies rule_usable(
                        #[trigger] rules[i],
                        palettes,
                    ) by {
                        if i > 0 {
                            assert(rest[i - 1] == rules[i]);
                        }
                    }
                },
            }
            if rules_fault(rest, palettes) is Some {
                let i = choose|i: int|
                    0 <= i < rest.len() && !rule_usable(#[trigger] rest[i], palettes);
                assert(!rule_usable(rules[i + 1], palettes));
            }
        } else {
            assert(rules[0] == rules[0]);
        }
    }
}

/// Whether an agent rule can be used: its session is not blank, and its palette is
/// there.
pub open spec fn agent_usable(r: AgentRuleView, palettes: Map<Seq<char>, PaletteView>) -> bool {
    !blank(r.session) && palettes.contains_key(r.palette)
}

proof fn lemma_agents_fault(agents: Seq<AgentRuleView>, palettes: Map<Seq<char>, PaletteView>)
    ensures
        agents_fault(agents, palettes) is None <==> forall|i: int|
            0 <= i < agents.len() ==> agent_usable(#[trigger] agents[i], palettes),
        match agents_fault(agents, palettes) {
            Some(ConfigFault::BlankSession) => exists|i: int|
                0 <= i < agents.len() && blank((#[trigger] agents[i]).session),
            Some(ConfigFault::UnknownAgentPalette(p)) => !palettes.contains_key(p) && exists|i: int|
                0 <= i < agents.len() && (#[trigger] agents[i]).palette == p,
            Some(_) => false,
            None => true,
        },
    decreases agents.len(),
{
    if agents.len() > 0 {
        let rest = agents.skip(1);
        lemma_agents_fault(rest, palettes);
        assert forall|i: int| 0 <= i < rest.len() implies #[trigger] rest[i] == agents[i + 1] by {}
        if agent_usable(agents[0], palettes) {
            match agents_fault(rest, palettes) {
                Some(ConfigFault::BlankSession) => {
                    let i = choose|i: int| 0 <= i < rest.len() && blank((#[trigger] rest[i]).session);
                    assert(agents[i + 1] == rest[i]);
                },
                Some(ConfigFault::UnknownAgentPalette(p)) => {
                    let i = choose|i: int| 0 <= i < rest.len() && (#[trigger] rest[i]).palette == p;
                    assert(agents[i + 1] == rest[i]);
                },
                _ => {
                    assert forall|i: int| 0 <= i < agents.len() implies agent_usable(
                        #[trigger] agents[i],
                        palettes,
                    ) by {
                        if i > 0 {
                            assert(rest[i - 1] == agents[i]);
                        }
                    }
                },
            }
            if agents_fault(rest, palettes) is Some {
                let i = choose|i: int|
                    0 <= i < rest.len() && !agent_usable(#[trigger] rest[i], palettes);
                assert(!agent_usable(agents[i + 1], palettes));
            }
        } else {
            assert(agents[0] == agents[0]);
        }
    }
}

/// A configuration is accepted where all of it can be used, and only there: it has
/// a palette, at most fourteen where the sidebar shows them, every one of them
/// usable; a marker of one to eight characters that is not blank; and rules that
/// say whom they are for and name palettes that are there.
pub proof fn law_what_is_accepted(c: ConfigView)
    requires
        c.palettes.dom().finite(),
    ensures
        config_fault(c) is None <==> {
            &&& 1 <= sorted_keys(c.palettes).len()
            &&& c.sidebar ==> sorted_keys(c.palettes).len() <= 14
            &&& forall|n: Seq<char>|
                c.palettes.contains_key(n) ==> usable(#[trigger] c.palettes[n], c.sidebar)
            &&& 1 <= c.marker.len() <= 8
            &&& !blank(c.marker)
            &&& forall|i: int|
                0 <= i < c.rules.len() ==> rule_usable(#[trigger] c.rules[i], c.palettes)
            &&& forall|i: int|
                0 <= i < c.agents.len() ==> agent_usable(#[trigger] c.agents[i], c.palettes)
        },
{
    let names = sorted_keys(c.palettes);
    lemma_sorted(c.palettes);
    lemma_palettes_fault(names, c.palettes, c.sidebar);
    lemma_rules_fault(c.rules, c.palettes);
    lemma_agents_fault(c.agents, c.palettes);
    assert((forall|n: Seq<char>|
        c.palettes.contains_key(n) ==> usable(#[trigger] c.palettes[n], c.sidebar)) <==> (forall|
        i: int,
    |
        0 <= i < names.len() ==> usable(c.palettes[#[trigger] names[i]], c.sidebar))) by {
        if forall|i: int|
            0 <= i < names.len() ==> usable(c.palettes[#[trigger] names[i]], c.sidebar) {
            assert forall|n: Seq<char>| c.palettes.contains_key(n) implies usable(
                #[trigger] c.palettes[n],
                c.sidebar,
            ) by {
                assert(names.contains(n));
                let i = choose|i: int| 0 <= i < names.len() && names[i] == n;
                assert(usable(c.palettes[names[i]], c.sidebar));
            }
        }
        if forall|n: Seq<char>|
            c.palettes.contains_key(n) ==> usable(#[trigger] c.palettes[n], c.sidebar) {
            assert forall|i: int| 0 <= i < names.len() implies usable(
                c.palettes[#[trigger] names[i]],
                c.sidebar,
            ) by {
                assert(names.contains(names[i]));
                assert(c.palettes.contains_key(names[i]));
            }
        }
    }
    if c.marker.len() == 0 {
        assert(blank(c.marker));
    }
}

/// What a configuration is refused for is there: the fault that is told is one that
/// it has.
pub proof fn law_faults_are_there(c: ConfigView)
    requires
        c.palettes.dom().finite(),
    ensures
        match config_fault(c) {
            None => true,
            Some(ConfigFault::NoPalettes) => sorted_keys(c.palettes).len() == 0,
            Some(ConfigFault::TooManyPalettes) => c.sidebar && sorted_keys(c.palettes).len() > 14,
            Some(ConfigFault::EmptyPalette(n)) => c.palettes.contains_key(n) && forall|
                token: Seq<char>,
            |
                !c.palettes[n].tokens.contains_key(token),
            Some(ConfigFault::NeedsAccent(n)) => c.palettes.contains_key(n) && c.sidebar
                && !c.palettes[n].tokens.contains_key("accent"@),
            Some(ConfigFault::BadMarker) => blank(c.marker) || c.marker.len() > 8,
            Some(ConfigFault::BlankRule) => exists|i: int|
                0 <= i < c.rules.len() && blank_or_none((#[trigger] c.rules[i]).label)
                    && blank_or_none(c.rules[i].path),
            Some(ConfigFault::UnknownRulePalette(p)) => !c.palettes.contains_key(p) && exists|
                i: int,
            |
                0 <= i < c.rules.len() && (#[trigger] c.rules[i]).palette == p,
            Some(ConfigFault::BlankSession) => exists|i: int|
                0 <= i < c.agents.len() && blank((#[trigger] c.agents[i]).session),
            Some(ConfigFault::UnknownAgentPalette(p)) => !c.palettes.contains_key(p) && exists|
                i: int,
            |
                0 <= i < c.agents.len() && (#[trigger] c.agents[i]).palette == p,
            Some(_) => false,
        },
{
    let names = sorted_keys(c.palettes);
    lemma_sorted(c.palettes);
    lemma_palettes_fault(names, c.palettes, c.sidebar);
    lemma_rules_fault(c.rules, c.palettes);
    lemma_agents_fault(c.agents, c.palettes);
}

/// Every configuration that cannot be read is refused with what made it so: the
/// palettes come before the workspace rules, those before the agent rules, and what
/// is written before what it means.
pub proof fn law_order_of_faults(t: Tree)
    ensures
        ({
            let palettes = tree_field(t, "palettes"@);
            let bad = palettes is Some && palettes->0 is Table && palettes_of(
                palettes->0->Table_0,
            ) is Err;
            let rules = rules_of(tree_tables(t, "workspaces"@));
            let agents = agents_of(tree_tables(t, "agents"@));
            &&& bad ==> config_of(t) is Err && config_of(t)->Err_0 == palettes_of(
                palettes->0->Table_0,
            )->Err_0
            &&& !bad && rules is Err ==> config_of(t) is Err && config_of(t)->Err_0 == rules->Err_0
            &&& !bad && rules is Ok && agents is Err ==> config_of(t) is Err && config_of(t)->Err_0
                == agents->Err_0
            &&& !bad && rules is Ok && agents is Ok ==> draft_of(t) is Ok && (config_of(t) is Err
                <==> config_fault(draft_of(t)->Ok_0) is Some) && (config_of(t) is Err ==> Some(
                config_of(t)->Err_0,
            ) == config_fault(draft_of(t)->Ok_0))
        }),
{
}

// --- messages --------------------------------------------------------------------

/// A message on a palette begins with the place of the trouble, and one on a rule
/// with its place in the list; what was found there follows.
pub proof fn law_messages_name_the_place(n: Seq<char>, k: Seq<char>, c: Seq<char>, i: nat)
    ensures
        begins(config_message(ConfigFault::LightNotTable(n)), "palettes."@ + n + ".light"@),
        begins(config_message(ConfigFault::NotString(n, k)), "palettes."@ + n + "."@ + k),
        begins(
            config_message(ConfigFault::BadColour(n, k, c)),
            "palettes."@ + n + "."@ + k + " = "@ + debug_text(c),
        ),
        begins(config_message(ConfigFault::BadToken(n, k)), "palettes."@ + n + "."@ + k),
        begins(config_message(ConfigFault::PaletteNotTable(n)), "palettes."@ + n),
        begins(config_message(ConfigFault::EmptyPalette(n)), "palettes."@ + n),
        begins(config_message(ConfigFault::NeedsAccent(n)), "palettes."@ + n),
        begins(config_message(ConfigFault::RuleNeedsTarget(i)), "workspaces["@ + decimal(i)),
        begins(config_message(ConfigFault::RuleNeedsPalette(i)), "workspaces["@ + decimal(i)),
        begins(config_message(ConfigFault::AgentNeedsSession(i)), "agents["@ + decimal(i)),
        begins(config_message(ConfigFault::AgentNeedsPalette(i)), "agents["@ + decimal(i)),
        begins(
            config_message(ConfigFault::UnknownRulePalette(n)),
            "workspaces[].palette = "@ + debug_text(n),
        ),
        begins(
            config_message(ConfigFault::UnknownAgentPalette(n)),
            "agents[].palette = "@ + debug_text(n),
        ),
        config_message(ConfigFault::Parse(n)) == "parse error: "@ + n,
{
    lemma_begins("palettes."@ + n + ".light"@, " must be a table"@);
    reveal_strlit(".light must be a table");
    reveal_strlit(".light");
    reveal_strlit(" must be a table");
    assert(".light must be a table"@ =~= ".light"@ + " must be a table"@);
    assert(config_message(ConfigFault::LightNotTable(n)) =~= "palettes."@ + n + ".light"@
        + " must be a table"@);
    lemma_begins("palettes."@ + n + "."@ + k, " must be a string"@);
    lemma_begins(
        "palettes."@ + n + "."@ + k + " = "@ + debug_text(c),
        ": colours must be #rgb or #rrggbb"@,
    );
    let at = "palettes."@ + n + "."@ + k;
    let token = config_message(ConfigFault::BadToken(n, k));
    assert(token =~= at + token.skip(at.len() as int));
    lemma_begins(at, token.skip(at.len() as int));
    lemma_begins("palettes."@ + n, " must be a table of token = \"#hex\""@);
    lemma_begins("palettes."@ + n, " is empty"@);
    lemma_begins("palettes."@ + n, " needs `accent` (it colours the sidebar marker)"@);
    lemma_begins("workspaces["@ + decimal(i), "] needs `label` or `path`"@);
    lemma_begins("workspaces["@ + decimal(i), "] needs `palette`"@);
    lemma_begins("agents["@ + decimal(i), "] needs `session`"@);
    lemma_begins("agents["@ + decimal(i), "] needs `palette`"@);
    lemma_begins("workspaces[].palette = "@ + debug_text(n), " is not a defined palette"@);
    lemma_begins("agents[].palette = "@ + debug_text(n), " is not a defined palette"@);
}

proof fn lemma_begins(a: Seq<char>, b: Seq<char>)
    ensures
        begins(a + b, a),
{
    law_parts_of_a_text(a + b, a);
}

} // verus!
