//! What holds of the choice of a palette, whoever asks.
use crate::config::{AgentRuleView, ConfigView, RuleView};
use crate::herdr::{PaneView, WorkspaceView};
use crate::keymap::{lemma_sorted, sorted_keys};
use crate::palette::PaletteView;
use crate::paths::{expanded, file_name_of};
use crate::paths_laws::{law_file_name, law_file_stem};
use crate::select::{
    accents, agent_choice, agent_fits, best_rule, choice, fnv, law_best_rule_is_best, light_name,
    lower_text, mode_of, pane_choices, rule_score, session_choice, via_name, workspace_choices,
    ThemeMode, Via,
};
use crate::text::{holds_part, stands_at, without_slashes};
use crate::text_laws::law_parts_of_a_text;
use crate::tree::{tree_field2, Tree};
use vstd::prelude::*;
use vstd::utf8::encode_utf8;

verus! {

// --- by the directory ------------------------------------------------------------

/// With `n` palettes, no rule that fits and automatic colours on, the palette at
/// place `p` of their sorted names is given to exactly the directories whose hash
/// leaves `p` when it is divided by `n`: the place is below `n`, and hash and place
/// differ by a multiple of `n`. So no palette is passed over. Where a workspace has
/// no directory, its label is hashed.
pub proof fn law_every_palette_has_its_residue(
    c: ConfigView,
    home: Seq<char>,
    label: Seq<char>,
    cwd: Seq<char>,
    p: int,
)
    requires
        c.auto,
        c.palettes.dom().finite(),
        sorted_keys(c.palettes).len() > 0,
        forall|j: int|
            0 <= j < c.rules.len() ==> rule_score(#[trigger] c.rules[j], home, label, cwd) is None,
    ensures
        ({
            let names = sorted_keys(c.palettes);
            let n = names.len() as int;
            let hash = fnv(
                encode_utf8(
                    if cwd.len() > 0 {
                        cwd
                    } else {
                        label
                    },
                ),
            ) as int;
            &&& choice(c, home, label, cwd).1 == Via::Auto
            &&& choice(c, home, label, cwd).0 is Some
            &&& 0 <= p < n ==> (choice(c, home, label, cwd).0 == Some(names[p]) <==> exists|q: int|
                hash - p == #[trigger] (q * n))
        }),
{
    let names = sorted_keys(c.palettes);
    let n = names.len() as int;
    let key = if cwd.len() > 0 {
        cwd
    } else {
        label
    };
    let hash = fnv(encode_utf8(key)) as int;
    match best_rule(c.rules, home, label, cwd) {
        Some(i) => {
            lemma_best_fits(c.rules, home, label, cwd);
        },
        None => {},
    }
    lemma_sorted(c.palettes);
    let r = hash % n;
    assert(0 <= r < n && hash - r == (hash / n) * n) by (nonlinear_arith)
        requires
            n > 0,
            r == hash % n,
    ;
    assert(choice(c, home, label, cwd).0 == Some(names[r]));
    if 0 <= p < n {
        if choice(c, home, label, cwd).0 == Some(names[p]) {
            assert(p == r);
            assert(hash - p == (hash / n) * n);
        }
        if exists|q: int| hash - p == #[trigger] (q * n) {
            let q = choose|q: int| hash - p == #[trigger] (q * n);
            assert(r == p) by (nonlinear_arith)
                requires
                    0 <= p < n,
                    hash - p == q * n,
                    0 <= r < n,
                    hash - r == (hash / n) * n,
            ;
        }
    }
}

proof fn lemma_best_fits(rules: Seq<RuleView>, home: Seq<char>, label: Seq<char>, cwd: Seq<char>)
    ensures
        match best_rule(rules, home, label, cwd) {
            Some(i) => 0 <= i < rules.len() && rule_score(rules[i], home, label, cwd) is Some,
            None => true,
        },
    decreases rules.len(),
{
    if rules.len() > 0 {
        lemma_best_fits(rules.drop_last(), home, label, cwd);
    }
}

/// The hash is FNV-1a in 64 bits: it begins with the offset basis, and each byte is
/// first mixed into the lowest eight bits, and the whole then multiplied by the
/// prime, 2^40 + 2^8 + 0xb3, with the carry lost.
pub proof fn law_hash_step(bytes: Seq<u8>, b: u8)
    ensures
        fnv(seq![]) as int == 14695981039346656037,
        exists|lost: int|
            fnv(bytes.push(b)) as int == (fnv(bytes) ^ (b as u64)) as int * 1099511628211
                - #[trigger] (lost * 18446744073709551616),
{
    assert(bytes.push(b).drop_last() =~= bytes);
    assert(bytes.push(b).last() == b);
    let x = (fnv(bytes) ^ (b as u64)) as int * 1099511628211;
    assert(x - (x / 18446744073709551616) * 18446744073709551616 == x % 18446744073709551616);
    assert(fnv(bytes.push(b)) as int == x - (x / 18446744073709551616) * 18446744073709551616);
}

// --- by the rules ----------------------------------------------------------------

/// When a rule fits a workspace: it names the label, or it names a directory, with
/// or without slashes at its end, that is the directory of the workspace or one
/// above it. A directory whose name merely begins alike is not below it.
pub proof fn law_when_a_rule_fits(
    rule: RuleView,
    home: Seq<char>,
    label: Seq<char>,
    cwd: Seq<char>,
)
    ensures
        rule_score(rule, home, label, cwd) is Some <==> (rule.label == Some(label) || (rule.path
            is Some && cwd.len() > 0 && ({
            let dir = without_slashes(expanded(rule.path->0, home));
            ||| cwd == dir
            ||| dir.len() < cwd.len() && cwd[dir.len() as int] == '/' && cwd.take(dir.len() as int)
                == dir
        }))),
{
    reveal_strlit("/");
    assert("/"@ =~= seq!['/']);
    if rule.path is Some {
        let dir = without_slashes(expanded(rule.path->0, home));
        let d = dir + "/"@;
        if cwd.len() >= d.len() {
            let front = cwd.take(d.len() as int);
            if front == d {
                assert(front[dir.len() as int] == '/');
                assert(cwd.take(dir.len() as int) =~= dir) by {
                    assert forall|i: int| 0 <= i < dir.len() implies cwd[i] == dir[i] by {
                        assert(front[i] == d[i]);
                    }
                }
            }
            if cwd[dir.len() as int] == '/' && cwd.take(dir.len() as int) == dir {
                assert(front =~= d) by {
                    assert forall|i: int| 0 <= i < dir.len() implies cwd[i] == dir[i] by {
                        assert(cwd.take(dir.len() as int)[i] == dir[i]);
                    }
                }
            }
        }
    }
}

/// The first rule with the exact label is the one that counts, whatever paths other
/// rules have, as long as the paths are shorter than a machine can count.
pub proof fn law_first_label_counts(
    c: ConfigView,
    home: Seq<char>,
    label: Seq<char>,
    cwd: Seq<char>,
    j: int,
)
    requires
        0 <= j < c.rules.len(),
        c.rules[j].label == Some(label),
        forall|i: int| 0 <= i < j ==> (#[trigger] c.rules[i]).label != Some(label),
        forall|i: int|
            0 <= i < c.rules.len() && (#[trigger] c.rules[i]).path is Some ==> encode_utf8(
                without_slashes(expanded(c.rules[i].path->0, home)),
            ).len() < usize::MAX,
    ensures
        choice(c, home, label, cwd) == (Some(c.rules[j].palette), Via::Rule),
{
    law_best_rule_is_best(c.rules, home, label, cwd, j);
    let i = best_rule(c.rules, home, label, cwd)->0;
    assert(c.rules[i] == c.rules[i]);
    law_best_rule_is_best(c.rules, home, label, cwd, i);
    if i != j {
        assert(c.rules[i].label == Some(label));
        assert(j < i);
    }
}

/// Where no rule names the label, the first of the rules with the longest path that
/// fits is the one that counts: a rule counts whose path fits, where no path that
/// fits is longer and none before it is as long.
pub proof fn law_first_longest_path_counts(
    c: ConfigView,
    home: Seq<char>,
    label: Seq<char>,
    cwd: Seq<char>,
    j: int,
)
    requires
        0 <= j < c.rules.len(),
        forall|i: int| 0 <= i < c.rules.len() ==> (#[trigger] c.rules[i]).label != Some(label),
        forall|i: int|
            0 <= i < c.rules.len() && (#[trigger] c.rules[i]).path is Some ==> encode_utf8(
                without_slashes(expanded(c.rules[i].path->0, home)),
            ).len() < usize::MAX,
        c.rules[j].path is Some,
        rule_score(c.rules[j], home, label, cwd) is Some,
        forall|i: int|
            0 <= i < c.rules.len() && rule_score(#[trigger] c.rules[i], home, label, cwd) is Some
                ==> {
                let other = encode_utf8(
                    without_slashes(expanded(c.rules[i].path->0, home)),
                ).len();
                let this = encode_utf8(without_slashes(expanded(c.rules[j].path->0, home))).len();
                other <= this && (i < j ==> other < this)
            },
    ensures
        choice(c, home, label, cwd) == (Some(c.rules[j].palette), Via::Rule),
{
    law_best_rule_is_best(c.rules, home, label, cwd, j);
    let i = best_rule(c.rules, home, label, cwd)->0;
    law_best_rule_is_best(c.rules, home, label, cwd, i);
    assert(c.rules[i].path is Some);
    assert(i == j);
}

/// Where no rule fits and automatic colours are off, there is no palette; with a
/// rule that fits, it does not matter whether they are on.
pub proof fn law_without_automatic_colours(
    c: ConfigView,
    home: Seq<char>,
    label: Seq<char>,
    cwd: Seq<char>,
    auto: bool,
)
    ensures
        !c.auto && (forall|j: int|
            0 <= j < c.rules.len() ==> rule_score(#[trigger] c.rules[j], home, label, cwd) is None)
            ==> choice(c, home, label, cwd) == (None::<Seq<char>>, Via::Nothing),
        forall|j: int|
            0 <= j < c.rules.len() && rule_score(#[trigger] c.rules[j], home, label, cwd) is Some
                ==> choice(c, home, label, cwd) == choice(ConfigView { auto, ..c }, home, label, cwd)
                && choice(c, home, label, cwd).1 == Via::Rule,
{
    lemma_best_fits(c.rules, home, label, cwd);
    assert forall|j: int|
        0 <= j < c.rules.len() && rule_score(#[trigger] c.rules[j], home, label, cwd) is Some
        implies choice(c, home, label, cwd) == choice(ConfigView { auto, ..c }, home, label, cwd)
        && choice(c, home, label, cwd).1 == Via::Rule by {
        law_best_rule_is_best(c.rules, home, label, cwd, j);
    }
}

// --- agents ----------------------------------------------------------------------

/// The first agent rule that fits a session is the one that counts, and a session
/// that none fits has no palette of its own; nor has a pane without a session.
pub proof fn law_first_agent_rule_counts(
    c: ConfigView,
    session: Seq<char>,
    j: int,
)
    requires
        0 <= j <= c.agents.len(),
        forall|i: int| 0 <= i < j ==> !agent_fits((#[trigger] c.agents[i]).session, session),
        j < c.agents.len() ==> agent_fits(c.agents[j].session, session),
    ensures
        j < c.agents.len() ==> session_choice(c, Some(session)) == Some(c.agents[j].palette),
        j == c.agents.len() ==> session_choice(c, Some(session)) is None,
        session_choice(c, None) is None,
{
    lemma_agent_choice_at(c.agents, session, j);
}

proof fn lemma_agent_choice_at(agents: Seq<AgentRuleView>, session: Seq<char>, j: int)
    requires
        0 <= j <= agents.len(),
        forall|i: int| 0 <= i < j ==> !agent_fits((#[trigger] agents[i]).session, session),
        j < agents.len() ==> agent_fits(agents[j].session, session),
    ensures
        j < agents.len() ==> agent_choice(agents, session) == Some(agents[j].palette),
        j == agents.len() ==> agent_choice(agents, session) is None,
    decreases agents.len(),
{
    if j > 0 {
        let rest = agents.skip(1);
        assert(!agent_fits(agents[0].session, session));
        assert forall|i: int| 0 <= i < j - 1 implies !agent_fits(
            (#[trigger] rest[i]).session,
            session,
        ) by {
            assert(rest[i] == agents[i + 1]);
        }
        lemma_agent_choice_at(rest, session, j - 1);
    }
}

/// A session that is no path is pinned by the whole of it alone: the end of an id,
/// or a part of it, is not enough.
pub proof fn law_plain_session_fits_whole(rule: Seq<char>, session: Seq<char>)
    requires
        !session.contains('/'),
    ensures
        agent_fits(rule, session) <==> rule == session,
{
    reveal_strlit("/");
    assert("/"@ =~= seq!['/']);
    law_parts_of_a_text(session, "/"@);
    if holds_part(session, "/"@) {
        let i = choose|i: int| stands_at(session, "/"@, i);
        assert(session.subrange(i, i + 1)[0] == '/');
        assert(session[i] == '/');
    }
}

/// A session that is a path is pinned by the end of the path or, without the
/// extension of the file, by the end of the file's name; and by nothing else.
pub proof fn law_session_path_fits_by_its_end(
    rule: Seq<char>,
    dir: Seq<char>,
    stem: Seq<char>,
    ext: Seq<char>,
)
    requires
        stem.len() > 0,
        ext.len() > 0,
        !stem.contains('/'),
        !ext.contains('/'),
        !ext.contains('.'),
    ensures
        agent_fits(rule, dir + seq!['/'] + (stem + seq!['.'] + ext)) <==> (exists|a: Seq<char>|
            dir + seq!['/'] + (stem + seq!['.'] + ext) == #[trigger] (a + rule)) || (exists|
            a: Seq<char>,
        |
            stem == #[trigger] (a + rule)),
{
    let name = stem + seq!['.'] + ext;
    let session = dir + seq!['/'] + name;
    reveal_strlit("/");
    assert("/"@ =~= seq!['/']);
    assert(!name.contains('/')) by {
        if name.contains('/') {
            let i = choose|i: int| 0 <= i < name.len() && name[i] == '/';
            if i < stem.len() {
                assert(stem[i] == '/');
            } else if i > stem.len() {
                assert(ext[i - stem.len() - 1] == '/');
            }
        }
    }
    assert(name != seq!['.'] && name != seq!['.', '.']) by {
        assert(name.last() == ext.last());
        assert(ext[ext.len() - 1] == ext.last());
        assert(name[name.len() - 1] != '.');
    }
    law_file_name(dir, name);
    law_file_stem(stem, ext);
    assert(file_name_of(session) == Some(name));
    law_parts_of_a_text(session, "/"@);
    assert(session =~= dir + "/"@ + name);
    assert(holds_part(session, "/"@));
    law_parts_of_a_text(session, rule);
    law_parts_of_a_text(stem, rule);
    if rule == name {
        assert(session == (dir + seq!['/']) + rule);
    }
    if rule == session {
        assert(session =~= Seq::<char>::empty() + rule);
    }
    if rule == stem {
        assert(stem =~= Seq::<char>::empty() + rule);
    }
}

// --- everything that is there ----------------------------------------------------

pub proof fn lemma_workspace_choices(
    c: ConfigView,
    home: Seq<char>,
    all: Seq<WorkspaceView>,
    id: Seq<char>,
)
    ensures
        workspace_choices(c, home, all).contains_key(id) <==> exists|i: int|
            0 <= i < all.len() && (#[trigger] all[i]).id == id,
    decreases all.len(),
{
    if all.len() > 0 {
        let rest = all.drop_last();
        lemma_workspace_choices(c, home, rest, id);
        if exists|i: int| 0 <= i < rest.len() && (#[trigger] rest[i]).id == id {
            let i = choose|i: int| 0 <= i < rest.len() && (#[trigger] rest[i]).id == id;
            assert(all[i].id == id);
        }
        if exists|i: int| 0 <= i < all.len() && (#[trigger] all[i]).id == id {
            let i = choose|i: int| 0 <= i < all.len() && (#[trigger] all[i]).id == id;
            if i < rest.len() {
                assert(rest[i].id == id);
            }
        }
        assert(all[all.len() - 1] == all.last());
    }
}

/// Every workspace gets what is chosen for its own label and directory, and nothing
/// that is not a workspace gets anything.
pub proof fn law_each_workspace_has_its_own(
    c: ConfigView,
    home: Seq<char>,
    all: Seq<WorkspaceView>,
    i: int,
    id: Seq<char>,
)
    requires
        0 <= i < all.len(),
        forall|j: int| i < j < all.len() ==> (#[trigger] all[j]).id != all[i].id,
    ensures
        workspace_choices(c, home, all).contains_key(all[i].id),
        workspace_choices(c, home, all)[all[i].id] == choice(c, home, all[i].label, all[i].cwd),
        workspace_choices(c, home, all).contains_key(id) ==> exists|j: int|
            0 <= j < all.len() && (#[trigger] all[j]).id == id,
    decreases all.len(),
{
    lemma_workspace_choices(c, home, all, id);
    if i < all.len() - 1 {
        let rest = all.drop_last();
        assert(all[all.len() - 1].id != all[i].id);
        assert forall|j: int| i < j < rest.len() implies (#[trigger] rest[j]).id != rest[i].id by {
            assert(all[j].id != all[i].id);
        }
        law_each_workspace_has_its_own(c, home, rest, i, id);
    }
}

/// Every pane gets the palette that its agent session is pinned to; without one it
/// gets what its own workspace got, for the same reason, and nothing where that
/// workspace is not there.
pub proof fn law_each_pane_has_its_own(
    c: ConfigView,
    workspaces: Map<Seq<char>, (Option<Seq<char>>, Via)>,
    panes: Seq<PaneView>,
    i: int,
    id: Seq<char>,
)
    requires
        0 <= i < panes.len(),
        forall|j: int| i < j < panes.len() ==> (#[trigger] panes[j]).id != panes[i].id,
    ensures
        ({
            let got = pane_choices(c, workspaces, panes);
            let p = panes[i];
            let pinned = session_choice(c, p.session);
            &&& got.contains_key(p.id)
            &&& pinned is Some ==> got[p.id] == (pinned, Via::Agent)
            &&& pinned is None && workspaces.contains_key(p.workspace_id) ==> got[p.id]
                == workspaces[p.workspace_id]
            &&& pinned is None && !workspaces.contains_key(p.workspace_id) ==> got[p.id] == (
                None::<Seq<char>>,
                Via::Nothing,
            )
            &&& got.contains_key(id) ==> exists|j: int|
                0 <= j < panes.len() && (#[trigger] panes[j]).id == id
        }),
    decreases panes.len(),
{
    lemma_pane_choices(c, workspaces, panes, id);
    if i < panes.len() - 1 {
        let rest = panes.drop_last();
        assert(panes[panes.len() - 1].id != panes[i].id);
        assert forall|j: int| i < j < rest.len() implies (#[trigger] rest[j]).id != rest[i].id by {
            assert(panes[j].id != panes[i].id);
        }
        law_each_pane_has_its_own(c, workspaces, rest, i, id);
    }
}

pub proof fn lemma_pane_choices(
    c: ConfigView,
    workspaces: Map<Seq<char>, (Option<Seq<char>>, Via)>,
    panes: Seq<PaneView>,
    id: Seq<char>,
)
    ensures
        pane_choices(c, workspaces, panes).contains_key(id) <==> exists|j: int|
            0 <= j < panes.len() && (#[trigger] panes[j]).id == id,
    decreases panes.len(),
{
    if panes.len() > 0 {
        let rest = panes.drop_last();
        lemma_pane_choices(c, workspaces, rest, id);
        if exists|j: int| 0 <= j < rest.len() && (#[trigger] rest[j]).id == id {
            let j = choose|j: int| 0 <= j < rest.len() && (#[trigger] rest[j]).id == id;
            assert(panes[j].id == id);
        }
        if exists|j: int| 0 <= j < panes.len() && (#[trigger] panes[j]).id == id {
            let j = choose|j: int| 0 <= j < panes.len() && (#[trigger] panes[j]).id == id;
            if j < rest.len() {
                assert(rest[j].id == id);
            }
        }
        assert(panes[panes.len() - 1] == panes.last());
    }
}

/// The reasons have four different names.
pub proof fn law_reasons_are_told_apart(a: Via, b: Via)
    ensures
        via_name(a) == via_name(b) ==> a == b,
        via_name(Via::Agent) == "agent"@,
        via_name(Via::Rule) == "rule"@,
        via_name(Via::Auto) == "auto"@,
        via_name(Via::Nothing) == "none"@,
{
    reveal_strlit("agent");
    reveal_strlit("rule");
    reveal_strlit("auto");
    reveal_strlit("none");
    assert("agent"@.len() == 5 && "rule"@[0] == 'r' && "auto"@[0] == 'a' && "none"@[0] == 'n');
    assert("rule"@.len() == 4 && "auto"@.len() == 4 && "none"@.len() == 4);
}

// --- light and dark --------------------------------------------------------------

/// A theme is light where its name holds one of six words anywhere, and only there.
pub proof fn law_light_names(a: Seq<char>, b: Seq<char>, name: Seq<char>)
    ensures
        light_name(a + "latte"@ + b),
        light_name(a + "light"@ + b),
        light_name(a + "dawn"@ + b),
        light_name(a + "day"@ + b),
        light_name(a + "lotus"@ + b),
        light_name(a + "paper"@ + b),
        light_name(name) ==> exists|x: Seq<char>, w: Seq<char>, y: Seq<char>|
            name == #[trigger] (x + w + y) && seq![
                "latte"@,
                "light"@,
                "dawn"@,
                "day"@,
                "lotus"@,
                "paper"@,
            ].contains(w),
{
    let words = seq!["latte"@, "light"@, "dawn"@, "day"@, "lotus"@, "paper"@];
    assert forall|w: int| 0 <= w < 6 implies holds_part(a + #[trigger] words[w] + b, words[w]) by {
        law_parts_of_a_text(a + words[w] + b, words[w]);
    }
    assert(words[0] == "latte"@ && words[1] == "light"@ && words[2] == "dawn"@);
    assert(words[3] == "day"@ && words[4] == "lotus"@ && words[5] == "paper"@);
    if light_name(name) {
        let w = choose|w: int| 0 <= w < 6 && holds_part(name, #[trigger] words[w]);
        assert(holds_part(name, words[w]));
        law_parts_of_a_text(name, words[w]);
        let (x, y) = choose|x: Seq<char>, y: Seq<char>| name == #[trigger] (x + words[w] + y);
        assert(name == x + words[w] + y && words.contains(words[w]));
    }
}

/// Whether a configuration of Herdr is lit: one that switches by itself is neither
/// light nor dark, whatever it is called; any other goes by the name of its theme in
/// lower case, and one without a name is catppuccin.
pub proof fn law_theme_mode(t: Tree, name: Seq<char>)
    requires
        match tree_field2(t, "theme"@, "name"@) {
            Some(Tree::Str(n)) => name == n,
            _ => name == "catppuccin"@,
        },
    ensures
        mode_of(t) == ThemeMode::Auto <==> tree_field2(t, "theme"@, "auto_switch"@) == Some(
            Tree::Bool(true),
        ),
        mode_of(t) != ThemeMode::Auto ==> (mode_of(t) == ThemeMode::Light <==> light_name(
            lower_text(name),
        )),
{
}

// --- sidebar ---------------------------------------------------------------------

/// The colours of the sidebar: the names are those of the palettes that have an
/// accent for the theme, in their order, and none is left out.
pub proof fn law_every_accent_is_shown(
    names: Seq<Seq<char>>,
    palettes: Map<Seq<char>, PaletteView>,
    light: bool,
)
    ensures
        accents(names, palettes, light).map_values(|e: (Seq<char>, Seq<char>)| e.0)
            == names.filter(
            |n: Seq<char>|
                palettes[n].tokens.contains_key("accent"@) || (light && palettes[n].light is Some
                    && palettes[n].light->0.tokens.contains_key("accent"@)),
        ),
    decreases names.len(),
{
    let shown = |n: Seq<char>|
        palettes[n].tokens.contains_key("accent"@) || (light && palettes[n].light is Some
            && palettes[n].light->0.tokens.contains_key("accent"@));
    let got = accents(names, palettes, light);
    reveal(Seq::filter);
    if names.len() > 0 {
        let rest = accents(names.drop_last(), palettes, light);
        let n = names.last();
        law_every_accent_is_shown(names.drop_last(), palettes, light);
        assert(shown(n) <==> got.len() > rest.len());
        if shown(n) {
            assert(got.map_values(|e: (Seq<char>, Seq<char>)| e.0) =~= rest.map_values(
                |e: (Seq<char>, Seq<char>)| e.0,
            ).push(n));
        }
    } else {
        assert(got.map_values(|e: (Seq<char>, Seq<char>)| e.0) =~= names.filter(shown));
    }
}

/// Each palette is shown in its own accent: on a light theme in that of its light
/// variant, where that has one.
pub proof fn law_accents_are_their_own(
    names: Seq<Seq<char>>,
    palettes: Map<Seq<char>, PaletteView>,
    light: bool,
    i: int,
)
    requires
        0 <= i < accents(names, palettes, light).len(),
    ensures
        ({
            let (name, colour) = accents(names, palettes, light)[i];
            let p = palettes[name];
            &&& names.contains(name)
            &&& light && p.light is Some && p.light->0.tokens.contains_key("accent"@) ==> colour
                == p.light->0.tokens["accent"@]
            &&& !(light && p.light is Some && p.light->0.tokens.contains_key("accent"@)) ==> colour
                == p.tokens["accent"@]
        }),
    decreases names.len(),
{
    if names.len() > 0 {
        let rest = accents(names.drop_last(), palettes, light);
        if i < rest.len() {
            law_accents_are_their_own(names.drop_last(), palettes, light, i);
            let name = rest[i].0;
            let at = choose|at: int| 0 <= at < names.drop_last().len() && names.drop_last()[at]
                == name;
            assert(names[at] == name);
        } else {
            assert(names[names.len() - 1] == names.last());
        }
    }
}

} // verus!
