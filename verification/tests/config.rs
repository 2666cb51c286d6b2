//! The plugin's own configuration, palettes and rules.
use herdr_space_colors::config::{
    parse_plugin_config, read_plugin_config, validate_plugin_config, ConfigError, PluginConfig,
};
use herdr_space_colors::default_config::DEFAULT_CONFIG;
use herdr_space_colors::palette::{allowed_tokens, is_hex_colour, Palette};
use herdr_space_colors::rules::{
    remove_agent, remove_rule, rule_target, set_agent_rule, set_rule, unset_agent_rule, unset_rule,
    upsert_agent, upsert_rule, RuleError,
};
use herdr_space_colors::tree::Toml;
use toml_edit::DocumentMut;

fn message(text: &str) -> String {
    parse_plugin_config(text).unwrap_err().message()
}

fn palette<'a>(cfg: &'a PluginConfig, name: &str) -> &'a Palette {
    cfg.palettes.get(name).unwrap()
}

#[test]
fn hex_validation_is_strict() {
    for ok in ["#fff", "#F38BA8", "#000000"] {
        assert!(is_hex_colour(ok), "{ok}");
    }
    for bad in [
        "fff",
        "#ff",
        "#ffff",
        "#ggg",
        "red",
        "rgb(1,2,3)",
        "#f38ba8 ",
    ] {
        assert!(!is_hex_colour(bad), "{bad}");
    }
}

#[test]
fn hex_validation_edges() {
    for bad in ["", "#", "#é1", "#fffffff", "##ff", "#12345G", "#-12"] {
        assert!(!is_hex_colour(bad), "{bad}");
    }
    assert!(is_hex_colour("#09afAF"));
}

#[test]
fn plugin_config_validation() {
    assert!(message("[palettes.x]\nnope = \"#fff\"\n").contains("not a theme.custom token"));
    assert!(message("[palettes.x]\naccent = \"red\"\n").contains("#rgb or #rrggbb"));
    assert!(message("[palettes.x]\naccent = \"#fff\"\n[[workspaces]]\nlabel = \"a\"\npalette = \"missing\"\n").contains("not a defined palette"));
    assert!(message(
        "[palettes.x]\naccent = \"#fff\"\n[[agents]]\nsession = \"s\"\npalette = \"missing\"\n"
    )
    .contains("not a defined palette"));
    assert!(
        message("[sidebar]\nenabled = true\n[palettes.x]\nsidebar_bg = \"#fff\"\n")
            .contains("needs `accent`")
    );
    let cfg = parse_plugin_config(DEFAULT_CONFIG).expect("shipped default config must validate");
    assert!(
        cfg.palettes.entries.iter().all(|(_, p)| p.light.is_some()),
        "every shipped palette has a light variant"
    );
}

#[test]
fn the_shipped_palettes() {
    let cfg = parse_plugin_config(DEFAULT_CONFIG).unwrap();
    let names: Vec<&str> = cfg.palettes.entries.iter().map(|(n, _)| n.as_str()).collect();
    assert_eq!(
        names,
        vec!["blue", "green", "mauve", "peach", "pink", "red", "teal", "yellow"]
    );
    let blue = palette(&cfg, "blue");
    assert_eq!(blue.tokens.get("accent").unwrap(), "#89b4fa");
    assert_eq!(blue.tokens.get("sidebar_bg").unwrap(), "#1f2535");
    assert_eq!(blue.tokens.get("active_row_bg").unwrap(), "#283248");
    assert!(cfg.auto && cfg.sidebar && cfg.pane_tint && cfg.window_tint);
    assert_eq!(cfg.marker, "●");
    assert!(cfg.herdr_config.is_none() && cfg.rules.is_empty() && cfg.agents.is_empty());
}

#[test]
fn light_variant_overlays_base_and_pane_bg_falls_back_to_sidebar_bg() {
    let cfg = parse_plugin_config(
        "[palettes.red]\naccent = \"#f38ba8\"\nsidebar_bg = \"#2e1f26\"\n[palettes.red.light]\naccent = \"#d20f39\"\nsidebar_bg = \"#f2dfe3\"\n",
    ).unwrap();
    let p = palette(&cfg, "red");
    assert_eq!(p.effective(false).get("accent").unwrap(), "#f38ba8");
    assert_eq!(p.effective(true).get("accent").unwrap(), "#d20f39");
    assert_eq!(p.pane_bg(false).unwrap(), "#2e1f26");
    assert_eq!(p.pane_bg(true).unwrap(), "#f2dfe3");
}

#[test]
fn tints_fall_back_step_by_step() {
    let cfg = parse_plugin_config(
        "[palettes.a]\naccent = \"#111\"\npane_bg = \"#222\"\nwindow_bg = \"#333\"\nsidebar_bg = \"#444\"\n\
         [palettes.a.light]\ntext = \"#555\"\n\
         [palettes.b]\naccent = \"#111\"\n\
         [palettes.c]\naccent = \"#111\"\nsidebar_bg = \"#444\"\n[palettes.c.light]\nwindow_bg = \"#666\"\n",
    )
    .unwrap();
    let a = palette(&cfg, "a");
    assert_eq!(a.pane_bg(false).unwrap(), "#222");
    assert_eq!(a.pane_bg(true).unwrap(), "#222");
    assert_eq!(a.window_bg(false).unwrap(), "#333");
    assert_eq!(a.window_bg(true).unwrap(), "#333");
    assert_eq!(a.effective(true).get("text").unwrap(), "#555");
    assert_eq!(a.effective(true).get("accent").unwrap(), "#111");
    assert_eq!(a.accent(true).unwrap(), "#111");
    let b = palette(&cfg, "b");
    assert!(b.pane_bg(false).is_none() && b.window_bg(true).is_none());
    let c = palette(&cfg, "c");
    assert_eq!(c.window_bg(false).unwrap(), "#444");
    assert_eq!(c.window_bg(true).unwrap(), "#666");
}

#[test]
fn every_field_is_read() {
    let cfg = parse_plugin_config(
        "auto = false\nherdr_config = \"~/h.toml\"\nsidebar = { enabled = false, marker = \"★\" }\n\
         [pane]\ntint = false\n[window]\ntint = false\n[palettes.x]\nsidebar_bg = \"#fff\"\n\
         [[workspaces]]\nlabel = \"A\"\npath = \"/p\"\npalette = \"x\"\n\
         [[agents]]\nsession = \"s\"\npalette = \"x\"\n",
    )
    .unwrap();
    assert!(!cfg.auto && !cfg.sidebar && !cfg.pane_tint && !cfg.window_tint);
    assert_eq!(cfg.herdr_config.as_deref(), Some("~/h.toml"));
    assert_eq!(cfg.marker, "★");
    assert_eq!(cfg.rules.len(), 1);
    assert_eq!(cfg.rules[0].label.as_deref(), Some("A"));
    assert_eq!(cfg.rules[0].path.as_deref(), Some("/p"));
    assert_eq!(cfg.rules[0].palette, "x");
    assert_eq!(cfg.agents[0].session, "s");
    assert!(validate_plugin_config(&cfg).is_ok());
}

#[test]
fn values_of_another_type_count_as_absent() {
    let cfg = parse_plugin_config(
        "auto = \"no\"\nherdr_config = 1\nworkspaces = 3\nagents = \"x\"\npane = 1\n[sidebar]\nmarker = true\n[palettes.x]\naccent = \"#fff\"\n",
    )
    .unwrap();
    assert!(cfg.auto && cfg.pane_tint && cfg.herdr_config.is_none());
    assert_eq!(cfg.marker, "●");
    assert!(cfg.rules.is_empty() && cfg.agents.is_empty());
}

#[test]
fn each_fault_has_its_message() {
    let x = "[palettes.x]\naccent = \"#fff\"\n";
    assert!(message("a = = 1").starts_with("parse error: TOML parse error"));
    assert_eq!(message("[palettes.x]\nlight = 1\n"), "palettes.x.light must be a table");
    assert_eq!(message("[palettes.x]\naccent = 1\n"), "palettes.x.accent must be a string");
    assert_eq!(message("[palettes.x]\npane_bg = 1\n"), "palettes.x.pane_bg must be a string");
    assert_eq!(
        message("[palettes.x]\nwindow_bg = \"no\\\"pe\"\n"),
        "palettes.x.window_bg = \"no\\\"pe\": colours must be #rgb or #rrggbb"
    );
    assert_eq!(
        message("[palettes.x]\naccent = \"#ff\"\n"),
        "palettes.x.accent = \"#ff\": colours must be #rgb or #rrggbb"
    );
    assert_eq!(
        message("[palettes.x.light]\nnope = \"#fff\"\n"),
        "palettes.x.light.nope: not a theme.custom token (allowed: accent, panel_bg, sidebar_bg, active_row_bg, selection_bg, surface0, surface1, surface_dim, overlay0, overlay1, text, subtext0, mauve, green, yellow, red, blue, teal, peach, plus pane_bg, window_bg and a light sub-table)"
    );
    assert_eq!(
        message("[palettes.x.light.light]\naccent = \"#fff\"\n"),
        "palettes.x.light.light must be a string"
    );
    assert_eq!(
        message("[palettes]\nx = 1\n"),
        "palettes.x must be a table of token = \"#hex\""
    );
    assert_eq!(
        message(&format!("{x}[[workspaces]]\npalette = \"x\"\n")),
        "workspaces[0] needs `label` or `path`"
    );
    assert_eq!(
        message(&format!("{x}[[workspaces]]\nlabel = \"a\"\npalette = \"x\"\n[[workspaces]]\nlabel = \"a\"\n")),
        "workspaces[1] needs `palette`"
    );
    assert_eq!(
        message(&format!("{x}[[agents]]\npalette = \"x\"\n")),
        "agents[0] needs `session`"
    );
    assert_eq!(
        message(&format!("{x}[[agents]]\nsession = \"s\"\n")),
        "agents[0] needs `palette`"
    );
    assert_eq!(message(""), "no palettes defined");
    let many: String = (0..15)
        .map(|i| format!("[palettes.p{i}]\naccent = \"#fff\"\n"))
        .collect();
    assert_eq!(
        message(&many),
        "sidebar rows allow at most 16 tokens per row; keep to 14 palettes or set sidebar.enabled = false"
    );
    assert!(parse_plugin_config(&format!("sidebar.enabled = false\n{many}")).is_ok());
    assert_eq!(message("[palettes.x]\npane_bg = \"#fff\"\n"), "palettes.x is empty");
    assert_eq!(
        message("[palettes.x]\ntext = \"#fff\"\n"),
        "palettes.x needs `accent` (it colours the sidebar marker)"
    );
    for marker in ["", "  ", "123456789"] {
        assert_eq!(
            message(&format!("sidebar.marker = \"{marker}\"\n{x}")),
            "sidebar.marker must be 1–8 characters"
        );
    }
    assert!(parse_plugin_config(&format!("sidebar.marker = \"12345678\"\n{x}")).is_ok());
    assert_eq!(
        message(&format!("{x}[[workspaces]]\nlabel = \" \"\npalette = \"x\"\n")),
        "workspaces[] needs a non-empty `label` or `path`"
    );
    assert_eq!(
        message(&format!("{x}[[workspaces]]\npath = \"/\"\npalette = \"y\"\n")),
        "workspaces[].palette = \"y\" is not a defined palette"
    );
    assert_eq!(
        message(&format!("{x}[[agents]]\nsession = \"\\t\"\npalette = \"x\"\n")),
        "agents[].session must not be empty"
    );
    assert_eq!(
        message(&format!("{x}[[agents]]\nsession = \"s\"\npalette = \"y\"\n")),
        "agents[].palette = \"y\" is not a defined palette"
    );
}

#[test]
fn the_first_fault_is_reported() {
    let text = "[palettes.b]\nnope = \"#fff\"\n[palettes.a]\naccent = 1\n[[workspaces]]\n";
    assert!(message(text).starts_with("palettes.b.nope"));
    let text = "[palettes.b]\npane_bg = \"#fff\"\n[palettes.a]\npane_bg = \"#fff\"\n";
    assert_eq!(message(text), "palettes.a is empty");
}

#[test]
fn a_configuration_from_plain_values() {
    let entry = |k: &str, v: Toml| (k.to_string(), v);
    let colour = |c: &str| Toml::Str(c.to_string());
    let x = Toml::Table(vec![entry("accent", colour("#abc"))]);
    let doc = Toml::Table(vec![
        entry("auto", Toml::Bool(false)),
        entry("palettes", Toml::Table(vec![entry("x", x)])),
        entry(
            "workspaces",
            Toml::Tables(vec![vec![
                entry("path", colour("/p")),
                entry("palette", colour("x")),
            ]]),
        ),
    ]);
    let cfg = read_plugin_config(&doc).unwrap();
    assert!(!cfg.auto);
    assert_eq!(cfg.rules[0].path.as_deref(), Some("/p"));
    assert!(cfg.rules[0].label.is_none());
    assert_eq!(palette(&cfg, "x").tokens.get("accent").unwrap(), "#abc");
    assert!(matches!(
        read_plugin_config(&Toml::Other),
        Err(ConfigError::NoPalettes)
    ));
}

#[test]
fn accepted_colours_are_strict_here() {
    let cfg = parse_plugin_config(DEFAULT_CONFIG).unwrap();
    let allowed = allowed_tokens();
    for (_, p) in &cfg.palettes.entries {
        for light in [false, true] {
            let t = p.effective(light);
            assert!(!t.entries.is_empty());
            for (token, colour) in &t.entries {
                assert!(allowed.contains(token) && is_hex_colour(colour));
            }
        }
    }
}

#[test]
fn rule_upsert_and_remove_preserve_comments() {
    let mut doc: DocumentMut = "# keep me\nauto = true\n\n[palettes.x]\naccent = \"#fff\"\n"
        .parse()
        .unwrap();
    upsert_rule(&mut doc, "label", "A", "x");
    upsert_rule(&mut doc, "path", "/p", "x");
    upsert_rule(&mut doc, "label", "A", "x");
    let s = doc.to_string();
    assert!(s.starts_with("# keep me\n"));
    assert_eq!(s.matches("[[workspaces]]").count(), 2, "{s}");
    assert_eq!(remove_rule(&mut doc, "A"), 1);
    assert_eq!(doc.to_string().matches("[[workspaces]]").count(), 1);
    parse_plugin_config(&doc.to_string()).unwrap();
}

const BASE: &str = "# mine\n[palettes.x]\naccent = \"#fff\"\n\n[palettes.y]\naccent = \"#000\"\n";

#[test]
fn a_rule_is_set_changed_and_taken_out() {
    let one = set_rule(BASE, "label", "A", "x").unwrap();
    assert_eq!(
        one,
        format!("{BASE}\n[[workspaces]]\nlabel = \"A\"\npalette = \"x\"\n")
    );
    assert_eq!(set_rule(&one, "label", "A", "x").unwrap(), one);
    let two = set_rule(&one, "label", "A", "y").unwrap();
    assert_eq!(
        two,
        format!("{BASE}\n[[workspaces]]\nlabel = \"A\"\npalette = \"y\"\n")
    );
    let three = set_rule(&two, "path", "/p", "x").unwrap();
    let (back, n) = unset_rule(&three, "/p").unwrap();
    assert_eq!((back, n), (two, 1));
    let (none, n) = unset_rule(&three, "nothing").unwrap();
    assert_eq!((none, n), (three, 0));
}

#[test]
fn an_agent_rule_is_set_changed_and_taken_out() {
    let one = set_agent_rule(BASE, "s1", "x", "pi in w1").unwrap();
    assert_eq!(
        one,
        format!(
            "{BASE}\n[[agents]]\nsession = \"s1\"\npalette = \"x\"\nnote = \"pi in w1\"\n"
        )
    );
    let two = set_agent_rule(&one, "s1", "y", "").unwrap();
    assert!(two.contains("palette = \"y\"") && two.contains("note = \"pi in w1\""));
    let three = set_agent_rule(&two, "s2", "x", "").unwrap();
    assert!(three.ends_with("[[agents]]\nsession = \"s2\"\npalette = \"x\"\n"));
    let (back, n) = unset_agent_rule(&three, "s2").unwrap();
    assert_eq!((back, n), (two, 1));
}

#[test]
fn edits_that_would_be_refused_are_not_made() {
    let e = set_rule(BASE, "label", "A", "missing").unwrap_err();
    assert_eq!(
        e.message(),
        "refusing to write an invalid config: workspaces[].palette = \"missing\" is not a defined palette"
    );
    let e = set_agent_rule("a = = 1", "s", "x", "").unwrap_err();
    assert!(matches!(e, RuleError::Parse(_)));
    assert!(e.message().starts_with("TOML parse error"));
    assert!(unset_rule("[", "x").is_err());
    assert!(unset_agent_rule("auto = true\n", "x").is_err());
}

#[test]
fn a_rule_takes_the_place_of_what_is_no_list() {
    let mut doc: DocumentMut = "workspaces = 1\nagents = 2\n".parse().unwrap();
    assert_eq!(remove_rule(&mut doc, "A"), 0);
    upsert_rule(&mut doc, "label", "A", "x");
    upsert_agent(&mut doc, "s", "x", "n");
    assert_eq!(
        doc.to_string(),
        "[[workspaces]]\nlabel = \"A\"\npalette = \"x\"\n\n[[agents]]\nsession = \"s\"\npalette = \"x\"\nnote = \"n\"\n"
    );
    assert_eq!(remove_agent(&mut doc, "s"), 1);
}

#[test]
fn targets_of_rules() {
    let pair = |a: &str, b: &str| (a.to_string(), b.to_string());
    assert_eq!(rule_target("/p", Some("L")), pair("path", "/p"));
    assert_eq!(rule_target("~/p", None), pair("path", "~/p"));
    assert_eq!(rule_target("w1", Some("L")), pair("label", "L"));
    assert_eq!(rule_target("Site", None), pair("label", "Site"));
}
