//! Edits of Herdr's configuration.
use herdr_space_colors::keymap::KeyMap;
use herdr_space_colors::memo::{join_text, split_text, Memo};
use herdr_space_colors::own::{read_notes, write_notes};
use herdr_space_colors::plan::{plan_apply, plan_clear, plan_full, EditError, Plan};
use herdr_space_colors::sidebar::SidebarSpec;

fn tokens(pairs: &[(&str, &str)]) -> KeyMap<String> {
    let mut m = KeyMap::new();
    for (k, v) in pairs {
        m.insert(k.to_string(), v.to_string());
    }
    m
}

fn list(items: &[&str]) -> Vec<String> {
    items.iter().map(|s| s.to_string()).collect()
}

fn spec(pairs: &[(&str, &str)]) -> SidebarSpec {
    SidebarSpec {
        colours: pairs
            .iter()
            .map(|(k, v)| (k.to_string(), v.to_string()))
            .collect(),
    }
}

fn names(theme: Option<&KeyMap<String>>) -> Vec<String> {
    match theme {
        Some(t) => t.entries.iter().map(|(k, _)| k.clone()).collect(),
        None => vec![],
    }
}

const USER_CONFIG: &str = "\
# my herdr config
onboarding = false

[session]
resume_agents_on_restore = true   # keep

[ui]
agent_panel_sort = \"priority\"

[[keys.command]]
key = \"prefix+space\"
type = \"plugin_action\"
command = \"herdr-layout-cycle.cycle-layout\"
";

#[test]
fn apply_adds_keys_and_preserves_everything_else() {
    let out = plan_apply(
        USER_CONFIG,
        &tokens(&[("accent", "#f38ba8"), ("sidebar_bg", "#2e1f26")]),
        &vec![],
    )
    .unwrap();
    assert!(out.starts_with("# my herdr config\n"));
    assert!(out.contains("resume_agents_on_restore = true   # keep"));
    assert!(out.contains("agent_panel_sort = \"priority\""));
    assert!(out.contains("[theme.custom]"));
    assert!(out.contains("accent = \"#f38ba8\""));
    assert!(!out.contains("\n[theme]\n"));
}

#[test]
fn apply_is_idempotent_and_switching_removes_stale_keys() {
    let p = tokens(&[("accent", "#f38ba8"), ("sidebar_bg", "#2e1f26")]);
    let once = plan_apply(USER_CONFIG, &p, &vec![]).unwrap();
    let twice = plan_apply(&once, &p, &list(&["accent", "sidebar_bg"])).unwrap();
    assert_eq!(once, twice);
    let third = plan_apply(
        &twice,
        &tokens(&[("accent", "#89b4fa")]),
        &list(&["accent", "sidebar_bg"]),
    )
    .unwrap();
    assert!(third.contains("accent = \"#89b4fa\"") && !third.contains("sidebar_bg"));
}

#[test]
fn clear_restores_original_bytes_including_sidebar_rows() {
    let rows = spec(&[("red", "#f38ba8"), ("blue", "#89b4fa")]);
    let p = tokens(&[("accent", "#f38ba8")]);
    let plan = Plan {
        theme: Some(&p),
        previously_managed: &vec![],
        sidebar: Some(&rows),
        managed_sidebar: &vec![],
    };
    let (applied, managed) = plan_full(USER_CONFIG, &plan).unwrap();
    assert_eq!(managed, vec!["agents".to_string(), "spaces".to_string()]);
    assert!(applied.contains("[ui.sidebar.agents]"), "{applied}");
    assert!(
        applied.contains("token = \"$sc_red\", fg = \"#f38ba8\", bold = true"),
        "{applied}"
    );
    assert!(applied.contains("[ui.sidebar.spaces]"));
    assert!(
        !applied.contains("\n[ui.sidebar]\n"),
        "intermediate table must stay implicit"
    );
    assert!(
        applied.contains("agent_panel_sort = \"priority\""),
        "user's [ui] keys must survive"
    );
    let cleared = plan_clear(&applied, &list(&["accent"]), &managed).unwrap();
    assert_eq!(cleared, USER_CONFIG);
}

#[test]
fn user_defined_sidebar_rows_are_never_touched() {
    let base = format!("{USER_CONFIG}\n[ui.sidebar.agents]\nrows = [[\"agent\"]]\n");
    let rows = spec(&[("red", "#f38ba8")]);
    let plan = Plan {
        theme: None,
        previously_managed: &vec![],
        sidebar: Some(&rows),
        managed_sidebar: &vec![],
    };
    let (applied, managed) = plan_full(&base, &plan).unwrap();
    assert_eq!(
        managed,
        vec!["spaces".to_string()],
        "only the absent kind is managed"
    );
    assert!(
        applied.contains("rows = [[\"agent\"]]"),
        "user rows preserved verbatim"
    );
    let cleared = plan_clear(&applied, &vec![], &managed).unwrap();
    assert_eq!(cleared, base);
}

#[test]
fn user_owned_custom_keys_survive() {
    let base = format!(
        "{USER_CONFIG}\n[theme]\nname = \"catppuccin\"\n\n[theme.custom]\ntext = \"#ffffff\"\n"
    );
    let applied = plan_apply(&base, &tokens(&[("accent", "#f38ba8")]), &vec![]).unwrap();
    let cleared = plan_clear(&applied, &list(&["accent"]), &vec![]).unwrap();
    assert!(cleared.contains("text = \"#ffffff\"") && !cleared.contains("accent"));
    assert!(cleared.contains("[theme]\nname = \"catppuccin\""));
}

#[test]
fn inline_custom_table_is_handled() {
    let base = "[theme]\ncustom = { text = \"#ffffff\" }\n";
    let applied = plan_apply(base, &tokens(&[("accent", "#f38ba8")]), &vec![]).unwrap();
    assert!(applied.contains("accent = \"#f38ba8\"") && applied.contains("text = \"#ffffff\""));
    let cleared = plan_clear(&applied, &list(&["accent"]), &vec![]).unwrap();
    assert!(cleared.contains("text = \"#ffffff\"") && !cleared.contains("accent"));
}

#[test]
fn the_whole_edit_is_as_expected() {
    let rows = spec(&[("red", "#f38ba8")]);
    let p = tokens(&[("text", "#fff"), ("accent", "#f38ba8")]);
    let plan = Plan {
        theme: Some(&p),
        previously_managed: &vec![],
        sidebar: Some(&rows),
        managed_sidebar: &vec![],
    };
    let (applied, managed) = plan_full("a = 1\n", &plan).unwrap();
    assert_eq!(managed, list(&["agents", "spaces"]));
    assert_eq!(
        applied,
        "a = 1\n\n[theme.custom]\naccent = \"#f38ba8\"\ntext = \"#fff\"\n\n\
         [ui.sidebar.agents]\n\
         rows = [[\"state_icon\", { token = \"$sc_red\", fg = \"#f38ba8\", bold = true }, \"workspace\", \"tab\"], [\"agent\"]]\n\n\
         [ui.sidebar.spaces]\n\
         rows = [[\"state_icon\", { token = \"$sc_red\", fg = \"#f38ba8\", bold = true }, \"workspace\"], [\"branch\", \"git_status\"]]\n"
    );
    let cleared = plan_clear(&applied, &list(&["accent", "text"]), &managed).unwrap();
    assert_eq!(cleared, "a = 1\n");
}

#[test]
fn repeating_an_edit_with_rows_changes_nothing() {
    let rows = spec(&[("red", "#f38ba8"), ("blue", "#89b4fa")]);
    let p = tokens(&[("accent", "#f38ba8")]);
    let first = Plan {
        theme: Some(&p),
        previously_managed: &vec![],
        sidebar: Some(&rows),
        managed_sidebar: &vec![],
    };
    let (once, kinds) = plan_full(USER_CONFIG, &first).unwrap();
    let keys = list(&["accent"]);
    let second = Plan {
        theme: Some(&p),
        previously_managed: &keys,
        sidebar: Some(&rows),
        managed_sidebar: &kinds,
    };
    let (twice, kinds_again) = plan_full(&once, &second).unwrap();
    assert_eq!(once, twice);
    assert_eq!(kinds, kinds_again);
}

#[test]
fn a_header_that_the_user_wrote_stays() {
    let base = "[theme]\n\n[theme.other]\nx = 1\n";
    let applied = plan_apply(base, &tokens(&[("accent", "#fff")]), &vec![]).unwrap();
    assert!(applied.starts_with("[theme]\n"), "{applied}");
    let cleared = plan_clear(&applied, &list(&["accent"]), &vec![]).unwrap();
    assert_eq!(cleared, base);
}

#[test]
fn empty_tables_of_the_user_are_left_alone() {
    let base = "[ui]\n\n[theme]\n";
    assert_eq!(plan_clear(base, &vec![], &vec![]).unwrap(), base);
    let base = "[ui.sidebar]\n[theme.custom]\n";
    assert_eq!(plan_clear(base, &list(&["accent"]), &list(&["agents"])).unwrap(), base);
}

#[test]
fn other_keys_keep_their_order_and_comments() {
    let base = "# top\n[theme.custom]\n# mine\ntext = \"#fff\" # white\naccent = \"#000\"\n\n[z]\ny = 1 # last\n";
    let out = plan_apply(
        base,
        &tokens(&[("accent", "#abc"), ("red", "#f00")]),
        &list(&["accent"]),
    )
    .unwrap();
    assert_eq!(
        out,
        "# top\n[theme.custom]\n# mine\ntext = \"#fff\" # white\naccent = \"#abc\"\nred = \"#f00\"\n\n[z]\ny = 1 # last\n"
    );
}

#[test]
fn managed_keys_are_gone_after_clearing() {
    let base = "[theme.custom]\naccent = \"#000\"\ntext = \"#fff\"\nred = \"#f00\"\n";
    let out = plan_clear(base, &list(&["accent", "red", "blue"]), &vec![]).unwrap();
    assert_eq!(out, "[theme.custom]\ntext = \"#fff\"\n");
}

#[test]
fn a_theme_without_tokens_clears_what_was_managed() {
    let base = "[theme.custom]\naccent = \"#000\"\n\n[ui.sidebar.agents]\nrows = [[\"a\"]]\nwide = true\n";
    let rows = spec(&[("red", "#f00")]);
    let keys = list(&["accent"]);
    let kinds = list(&["agents"]);
    let plan = Plan {
        theme: None,
        previously_managed: &keys,
        sidebar: Some(&rows),
        managed_sidebar: &kinds,
    };
    let (out, managed) = plan_full(base, &plan).unwrap();
    assert!(!out.contains("accent"));
    assert!(out.contains("wide = true") && out.contains("$sc_red"));
    assert_eq!(managed, list(&["agents", "spaces"]));
}

#[test]
fn text_that_is_not_toml_is_refused() {
    let e = plan_apply("a = = 1", &tokens(&[("accent", "#fff")]), &vec![]).unwrap_err();
    assert!(matches!(e, EditError::Parse(_)));
    assert!(e.message().starts_with("herdr config parse error: TOML parse error at line 1"));
    assert!(plan_clear("[", &vec![], &vec![]).is_err());
}

#[test]
fn tables_in_the_way_are_refused() {
    let t = tokens(&[("accent", "#fff")]);
    let e = plan_apply("theme = 1\n", &t, &vec![]).unwrap_err();
    assert_eq!(e.message(), "theme exists but is not a table");
    let e = plan_apply("[theme]\ncustom = 1\n", &t, &vec![]).unwrap_err();
    assert_eq!(e.message(), "theme.custom exists but is not a table");
    let rows = spec(&[("red", "#f00")]);
    for (base, message) in [
        ("ui = 1\n", "ui exists but is not a standard table"),
        ("ui = {}\n", "ui exists but is not a standard table"),
        ("[ui]\nsidebar = 1\n", "ui.sidebar exists but is not a standard table"),
        (
            "[ui.sidebar]\nspaces = 1\n",
            "ui.sidebar.spaces exists but is not a standard table",
        ),
    ] {
        let plan = Plan {
            theme: None,
            previously_managed: &vec![],
            sidebar: Some(&rows),
            managed_sidebar: &vec![],
        };
        let e = plan_full(base, &plan).unwrap_err();
        assert_eq!(e.message(), message);
    }
}

#[test]
fn an_inline_theme_takes_tokens() {
    let out = plan_apply("theme = { name = \"x\" }\n", &tokens(&[("accent", "#fff")]), &vec![]).unwrap();
    assert_eq!(out, "theme = { name = \"x\" , custom = { accent = \"#fff\" } }\n");
}

#[test]
fn clear_restores_original_bytes_after_any_number_of_edits() {
    let palettes = [
        Some(tokens(&[("text", "#fff")])),
        Some(tokens(&[("accent", "#111"), ("text", "#222")])),
        None,
        Some(tokens(&[("accent", "#333"), ("red", "#444"), ("sidebar_bg", "#555")])),
        Some(tokens(&[("blue", "#666"), ("red", "#777")])),
    ];
    let many = spec(&[("red", "#f38ba8"), ("blue", "#89b4fa")]);
    let few = spec(&[("green", "#a6e3a1")]);
    let rows = [Some(&many), Some(&few), Some(&many), None, Some(&few)];
    let own = format!("{USER_CONFIG}\n[theme]\nname = \"x\"\n\n[theme.custom]\npeach = \"#abc\" # mine\n");
    for base in [USER_CONFIG, "", "a = 1\n", own.as_str()] {
        let mut text = base.to_string();
        let mut managed: Vec<String> = vec![];
        let mut kinds: Vec<String> = vec![];
        for (theme, sidebar) in palettes.iter().zip(rows) {
            let plan = Plan {
                theme: theme.as_ref(),
                previously_managed: &managed,
                sidebar,
                managed_sidebar: &kinds,
            };
            let (updated, now) = plan_full(&text, &plan).unwrap();
            managed = theme
                .as_ref()
                .map(|t| t.entries.iter().map(|(k, _)| k.clone()).collect())
                .unwrap_or_default();
            kinds = now;
            text = updated;
            let cleared = plan_clear(&text, &managed, &kinds).unwrap();
            assert_eq!(cleared, base, "after {text}");
        }
    }
}

#[test]
fn edits_follow_contents_and_not_layout() {
    let custom = |text: &str| {
        let out = plan_apply(text, &tokens(&[("accent", "#fff")]), &list(&["red"])).unwrap();
        let doc: toml_edit::DocumentMut = out.parse().unwrap();
        let table = doc["theme"]["custom"].as_table_like().unwrap();
        table
            .iter()
            .map(|(k, v)| (k.to_string(), v.as_str().unwrap().to_string()))
            .collect::<Vec<_>>()
    };
    let a = custom("[theme.custom]\nred = \"#f00\"\ntext = \"#000\"\n");
    let b = custom("# c\n[ theme . custom ] # d\n\nred=\"#f00\" # e\n  text = \"#000\"");
    assert_eq!(a, b);
    assert_eq!(
        a,
        vec![
            ("text".to_string(), "#000".to_string()),
            ("accent".to_string(), "#fff".to_string())
        ]
    );
}

#[test]
fn values_of_the_user_give_way_and_come_back() {
    let base = "[theme.custom]\naccent = \"#000000\"\n";
    let p = tokens(&[("accent", "#f38ba8")]);
    let applied = plan_apply(base, &p, &vec![]).unwrap();
    assert_eq!(
        applied,
        "# space-colors begin\n# space-colors keeps: accent = \"#000000\"\n# space-colors end\n\
         [theme.custom]\naccent = \"#f38ba8\"\n"
    );
    let cleared = plan_clear(&applied, &list(&["accent"]), &vec![]).unwrap();
    assert!(cleared.contains("accent = \"#000000\""));
    assert_eq!(cleared, base);
    assert_eq!(plan_clear(&applied, &vec![], &vec![]).unwrap(), applied);
    assert_eq!(plan_apply(&applied, &p, &list(&["accent"])).unwrap(), applied);
}

#[test]
fn values_of_the_user_come_back_through_any_number_of_edits() {
    let palettes = [
        Some(tokens(&[("accent", "#111"), ("text", "#222")])),
        Some(tokens(&[("accent", "#333"), ("red", "#444")])),
        None,
        Some(tokens(&[("red", "#555"), ("text", "#666")])),
        Some(tokens(&[("blue", "#777")])),
        Some(tokens(&[("accent", "#888"), ("blue", "#999"), ("text", "#aaa")])),
    ];
    let rows = spec(&[("red", "#f38ba8")]);
    for base in [
        "[theme.custom]\n# above\naccent = \"#000\" # mine\ngreen = '#0f0'\n\"text\"   = \"#fff\"\n\n[z]\ny = 1\n# the end\n",
        "a = 1\ntheme = { name = \"x\", custom = { text = \"#fff\", accent = '#000' } }\n",
        "[theme]\ncustom.accent = \"\"\"\n#0\n00\"\"\" # odd\n",
        "theme.custom.text = 3\n\n# tail",
        "[theme.custom]\naccent = [\n  1, # one\n  2,\n]\n",
    ] {
        let mut text = base.to_string();
        let mut keys: Vec<String> = vec![];
        let mut kinds: Vec<String> = vec![];
        for theme in &palettes {
            let plan = Plan {
                theme: theme.as_ref(),
                previously_managed: &keys,
                sidebar: Some(&rows),
                managed_sidebar: &kinds,
            };
            let (updated, now) = plan_full(&text, &plan).unwrap();
            text = updated;
            keys = names(theme.as_ref());
            if let Some(t) = theme {
                let doc: toml_edit::DocumentMut = text.parse().unwrap();
                for (k, v) in &t.entries {
                    assert_eq!(doc["theme"]["custom"][k.as_str()].as_str(), Some(v.as_str()));
                }
            }
            kinds = now;
            let cleared = plan_clear(&text, &keys, &kinds).unwrap();
            assert_eq!(cleared, base, "after {text}");
        }
    }
}

const BLOCK: &str =
    "# space-colors begin\n# space-colors leaves: theme\n# space-colors keeps: accent = 1\n# space-colors end\n";

#[test]
fn comments_of_the_user_survive_whatever_they_say() {
    let p = tokens(&[("accent", "#111")]);
    let rows = spec(&[("red", "#f38ba8")]);
    let block_in_the_middle = format!("a = 1\n{BLOCK}\n[theme.custom]\naccent = \"#abc\"\n");
    let two_blocks = format!("{BLOCK}{BLOCK}[theme]\n");
    let in_a_string = format!("a = \"\"\"\n{BLOCK}\"\"\"\n");
    for base in [
        "# space-colors keeps: x = 1\n",
        "# space-colors leaves: theme\n",
        "a = 1\n# space-colors keeps: = =\n# mine\n",
        "[theme.custom]\nred = \"#f00\"\n# space-colors keeps: red = 1",
        "# space-colors begin\n",
        "# space-colors begin\n# space-colors keeps: a = 1\n\n[theme]\n",
        "# space-colors end\n# space-colors begin\n# space-colors end\n",
        BLOCK,
        &block_in_the_middle,
        &two_blocks,
        &in_a_string,
    ] {
        assert_eq!(plan_clear(base, &vec![], &vec![]).unwrap(), base);
        let mut text = base.to_string();
        let mut keys: Vec<String> = vec![];
        let mut kinds: Vec<String> = vec![];
        for (theme, sidebar) in [
            (Some(&p), None),
            (Some(&p), Some(&rows)),
            (None, Some(&rows)),
            (Some(&p), None),
        ] {
            let plan = Plan {
                theme,
                previously_managed: &keys,
                sidebar,
                managed_sidebar: &kinds,
            };
            let (updated, now) = plan_full(&text, &plan).unwrap();
            text = updated;
            keys = names(theme);
            kinds = now;
            let plan = Plan {
                theme,
                previously_managed: &keys,
                sidebar,
                managed_sidebar: &kinds,
            };
            assert_eq!(plan_full(&text, &plan).unwrap().0, text);
            let cleared = plan_clear(&text, &keys, &kinds).unwrap();
            assert_eq!(cleared, base, "after {text}");
        }
    }
}

#[test]
fn what_is_kept_is_found_after_the_user_added_to_the_file() {
    let base = "[theme.custom]\naccent = \"#000\" # mine\n\n[ui]\n";
    let p = tokens(&[("accent", "#111")]);
    let rows = spec(&[("red", "#f38ba8")]);
    let plan = Plan {
        theme: Some(&p),
        previously_managed: &vec![],
        sidebar: Some(&rows),
        managed_sidebar: &vec![],
    };
    let (applied, kinds) = plan_full(base, &plan).unwrap();
    let grown = format!("# first\n{applied}\n[keys]\nx = 1 # last\n");
    let cleared = plan_clear(&grown, &list(&["accent"]), &kinds).unwrap();
    assert_eq!(cleared, format!("# first\n{base}\n[keys]\nx = 1 # last\n"));
}

#[test]
fn blocks_are_read_and_written() {
    let (text, memo) = split_text(&format!("x\n{BLOCK}y"), true).unwrap();
    assert_eq!(text, "x\ny");
    assert_eq!(memo.kept, "accent = 1\n");
    assert!(memo.own.theme && !memo.own.custom);
    assert_eq!(join_text("y", &memo, true), format!("{BLOCK}y"));
    assert_eq!(join_text("y", &Memo::nothing(), true), "y");
    assert_eq!(
        join_text(BLOCK, &Memo::nothing(), true),
        format!("# space-colors begin\n# space-colors end\n{BLOCK}")
    );
    assert_eq!(join_text(BLOCK, &Memo::nothing(), false), BLOCK);
    assert!(split_text(BLOCK, false).is_none());
    assert!(split_text("# space-colors begin\n# space-colors keeps: a", true).is_none());
    assert!(split_text(" # space-colors begin\n# space-colors end\n", true).is_none());
}

#[test]
fn tables_that_the_user_left_empty_survive_edits() {
    let dark = tokens(&[("accent", "#111"), ("text", "#222")]);
    let light = tokens(&[("accent", "#333")]);
    let rows = spec(&[("red", "#f38ba8")]);
    let themes = [Some(&dark), None, Some(&light), Some(&dark)];
    let sidebars = [Some(&rows), Some(&rows), None, Some(&rows)];
    for base in [
        "[theme]\n",
        "[theme.custom]\n",
        "# mine\n[theme] # too\n\n[theme.custom]\n",
        "[ui]\n",
        "[ui.sidebar]\n",
        "[ui.sidebar.agents]\n",
        "[ui.sidebar.spaces]\n",
        "[theme]\nname = \"x\"\n\n[ui]\n\n[ui.sidebar]\n",
        "theme = {}\n",
        "a = 1\n",
        "",
    ] {
        let mut text = base.to_string();
        let mut keys: Vec<String> = vec![];
        let mut kinds: Vec<String> = vec![];
        for (theme, sidebar) in themes.iter().zip(sidebars) {
            let plan = Plan {
                theme: *theme,
                previously_managed: &keys,
                sidebar,
                managed_sidebar: &kinds,
            };
            let (updated, now) = plan_full(&text, &plan).unwrap();
            text = updated;
            keys = names(*theme);
            kinds = now;
            let cleared = plan_clear(&text, &keys, &kinds).unwrap();
            assert_eq!(cleared, base, "after {text}");
        }
    }
}

#[test]
fn tables_that_were_empty_are_noted() {
    let p = tokens(&[("accent", "#111")]);
    let applied = plan_apply("[theme]\n\n[ui]\n# end\n", &p, &vec![]).unwrap();
    assert_eq!(
        applied,
        "# space-colors begin\n# space-colors leaves: theme\n# space-colors end\n\
         [theme]\n\n[theme.custom]\naccent = \"#111\"\n\n[ui]\n# end\n"
    );
    let applied = plan_apply("[theme]\nname = \"x\"\n", &p, &vec![]).unwrap();
    assert!(!applied.contains("space-colors"));

    let lines = "# space-colors leaves: theme.custom\n# space-colors leaves: ui.sidebar.spaces\n";
    let (own, rest) = read_notes(&format!("{lines}# mine\n"));
    assert!(own.custom && own.spaces);
    assert!(!own.theme && !own.ui && !own.sidebar && !own.agents);
    assert_eq!(rest, "# mine\n");
    assert_eq!(write_notes(own, "x"), format!("{lines}x"));
}
