//! Which palette a workspace or a pane gets.
use herdr_space_colors::actions::{
    forget_edits, needs_workspace, osc, osc_step, pane_sequence, plan_workspace, remember, sweep,
    tags_line, tint_target,
    unknown_palette, what_line, would_drop, OscStep,
};
use herdr_space_colors::config::{parse_plugin_config, PluginConfig};
use herdr_space_colors::default_config::DEFAULT_CONFIG;
use herdr_space_colors::herdr::{Pane, Workspace};
use herdr_space_colors::keymap::KeyMap;
use herdr_space_colors::plan::plan_clear;
use herdr_space_colors::select::{
    agent_palette, assign, choose_palette, fnv1a, named_mode, sidebar_spec, text_mode, theme_mode,
    tree_mode, via_str, ThemeMode, Via,
};
use herdr_space_colors::state::State;
use herdr_space_colors::sweep::{clear_tags, key_list, record, report_args, would_tag};
use herdr_space_colors::tree::Toml;
use toml_edit::DocumentMut;

const HOME: &str = "/home/me";

fn ws(label: &str, cwd: &str) -> Workspace {
    Workspace {
        id: "w".into(),
        label: label.into(),
        cwd: cwd.into(),
        focused: false,
    }
}

fn pane(id: &str, workspace: &str, session: Option<&str>) -> Pane {
    Pane {
        id: id.into(),
        workspace_id: workspace.into(),
        agent: session.map(|_| "pi".into()),
        session: session.map(|s| s.into()),
    }
}

#[test]
fn selection_precedence_label_then_longest_path_then_auto_and_agent_override() {
    let cfg = parse_plugin_config(
        "[palettes.a]\naccent = \"#111\"\n[palettes.b]\naccent = \"#222\"\n[palettes.c]\naccent = \"#333\"\n\
         [[workspaces]]\npath = \"/p\"\npalette = \"a\"\n\
         [[workspaces]]\npath = \"/p/deep\"\npalette = \"b\"\n\
         [[workspaces]]\nlabel = \"Exact\"\npalette = \"c\"\n\
         [[agents]]\nsession = \"abc-123\"\npalette = \"c\"\n",
    ).unwrap();
    assert!(matches!(
        choose_palette(&cfg, HOME, &ws("Exact", "/p/deep/x")),
        (Some("c"), Via::Rule)
    ));
    assert!(matches!(
        choose_palette(&cfg, HOME, &ws("x", "/p/deep/x")),
        (Some("b"), Via::Rule)
    ));
    assert!(
        matches!(choose_palette(&cfg, HOME, &ws("x", "/plain")), (_, Via::Auto)),
        "no false prefix match"
    );
    assert_eq!(agent_palette(&cfg, Some("abc-123")), Some("c"));
    assert_eq!(
        agent_palette(&cfg, Some("/home/x/.pi/sessions/2026_abc-123.jsonl")),
        Some("c"),
        "pi path suffix"
    );
    assert_eq!(agent_palette(&cfg, Some("other")), None);
    assert_eq!(agent_palette(&cfg, None), None);
}

#[test]
fn assignment_uses_agent_override_over_workspace() {
    let cfg = parse_plugin_config(
        "[palettes.a]\naccent = \"#111\"\n[palettes.b]\naccent = \"#222\"\n[[workspaces]]\nlabel = \"W\"\npalette = \"a\"\n[[agents]]\nsession = \"s1\"\npalette = \"b\"\n",
    ).unwrap();
    let w = Workspace {
        id: "w1".into(),
        label: "W".into(),
        cwd: "/w".into(),
        focused: true,
    };
    let panes = vec![
        Pane {
            id: "w1:p1".into(),
            workspace_id: "w1".into(),
            agent: Some("pi".into()),
            session: Some("s1".into()),
        },
        Pane {
            id: "w1:p2".into(),
            workspace_id: "w1".into(),
            agent: None,
            session: None,
        },
    ];
    let a = assign(&cfg, HOME, &vec![w], &panes);
    assert_eq!(a.pane_palette.get("w1:p1").unwrap(), &(Some("b".into()), Via::Agent));
    assert_eq!(a.pane_palette.get("w1:p2").unwrap(), &(Some("a".into()), Via::Rule));
    assert_eq!(a.ws_palette.get("w1").unwrap(), &(Some("a".into()), Via::Rule));
}

#[test]
fn a_pane_of_an_unknown_workspace_has_no_palette() {
    let cfg = two();
    let a = assign(&cfg, HOME, &vec![], &vec![pane("p", "w9", Some("zzz"))]);
    assert_eq!(a.pane_palette.get("p").unwrap(), &(None, Via::Nothing));
}

fn two() -> PluginConfig {
    parse_plugin_config("[palettes.a]\naccent = \"#111\"\nsidebar_bg = \"#123456\"\n[palettes.b]\naccent = \"#222\"\n")
        .unwrap()
}

#[test]
fn rules_by_path() {
    let cfg = parse_plugin_config(
        "auto = false\n[palettes.a]\naccent = \"#111\"\n[palettes.b]\naccent = \"#222\"\n\
         [[workspaces]]\npath = \"~/p/\"\npalette = \"a\"\n\
         [[workspaces]]\npath = \"/home/me/p\"\npalette = \"b\"\n\
         [[workspaces]]\npath = \"~\"\npalette = \"b\"\n",
    )
    .unwrap();
    let pick = |cwd: &str| choose_palette(&cfg, HOME, &ws("x", cwd));
    assert_eq!(pick("/home/me/p"), (Some("a"), Via::Rule));
    assert_eq!(pick("/home/me/p/sub"), (Some("a"), Via::Rule));
    assert_eq!(pick("/home/me/px"), (Some("b"), Via::Rule));
    assert_eq!(pick("/home/me"), (Some("b"), Via::Rule));
    assert_eq!(pick("/home/mex"), (None, Via::Nothing));
    assert_eq!(pick(""), (None, Via::Nothing));
}

#[test]
fn the_hash_is_fnv_1a() {
    assert_eq!(fnv1a(""), 0xcbf2_9ce4_8422_2325);
    assert_eq!(fnv1a("a"), 0xaf63_dc4c_8601_ec8c);
    assert_eq!(fnv1a("foobar"), 0x8594_4171_f739_67e8);
}

#[test]
fn the_same_directory_gets_the_same_colour() {
    let cfg = two();
    let names = ["a", "b"];
    for cwd in ["/srv/api", "/x", "/home/me/é"] {
        let want = names[(fnv1a(cwd) % 2) as usize];
        assert_eq!(choose_palette(&cfg, HOME, &ws("one", cwd)), (Some(want), Via::Auto));
        assert_eq!(choose_palette(&cfg, "/root", &ws("two", cwd)), (Some(want), Via::Auto));
    }
    let want = names[(fnv1a("label") % 2) as usize];
    assert_eq!(choose_palette(&cfg, HOME, &ws("label", "")), (Some(want), Via::Auto));
}

#[test]
fn chosen_palettes_are_defined() {
    let cfg = parse_plugin_config(DEFAULT_CONFIG).unwrap();
    for i in 0..40 {
        let (name, via) = choose_palette(&cfg, HOME, &ws("x", &format!("/srv/{i}")));
        assert_eq!(via, Via::Auto);
        assert!(cfg.palettes.has(name.unwrap()));
    }
}

#[test]
fn agent_rules_fit_names_stems_and_ends() {
    let cfg = parse_plugin_config(
        "[palettes.a]\naccent = \"#111\"\n[palettes.b]\naccent = \"#222\"\n\
         [[agents]]\nsession = \"run.jsonl\"\npalette = \"a\"\n\
         [[agents]]\nsession = \"tail\"\npalette = \"b\"\n",
    )
    .unwrap();
    assert_eq!(agent_palette(&cfg, Some("/s/run.jsonl")), Some("a"));
    assert_eq!(agent_palette(&cfg, Some("/s/run.jsonl/")), Some("a"));
    assert_eq!(agent_palette(&cfg, Some("/s/x-tail.log")), Some("b"));
    assert_eq!(agent_palette(&cfg, Some("x/tail")), Some("b"));
    assert_eq!(agent_palette(&cfg, Some("/tail/..")), None);
    assert_eq!(agent_palette(&cfg, Some("")), None);
}

#[test]
fn agent_rules_fit_a_session_id_only_as_a_whole() {
    let cfg = parse_plugin_config(
        "[palettes.a]\naccent = \"#111\"\n[palettes.b]\naccent = \"#222\"\n\
         [[agents]]\nsession = \"123\"\npalette = \"a\"\n\
         [[agents]]\nsession = \"abc\"\npalette = \"b\"\n",
    )
    .unwrap();
    assert_eq!(agent_palette(&cfg, Some("abc-123")), None);
    assert_eq!(agent_palette(&cfg, Some("abc.jsonl")), None);
    assert_eq!(agent_palette(&cfg, Some("123")), Some("a"));
    assert_eq!(agent_palette(&cfg, Some("./abc-123")), Some("a"));
    assert_eq!(agent_palette(&cfg, Some("/s/abc.jsonl")), Some("b"));
}

#[test]
fn theme_mode_detection() {
    let d = |s: &str| theme_mode(&s.parse::<DocumentMut>().unwrap());
    assert_eq!(d(""), ThemeMode::Dark);
    assert_eq!(
        d("[theme]\nname = \"catppuccin-latte\"\n"),
        ThemeMode::Light
    );
    assert_eq!(d("[theme]\nname = \"rose-pine-dawn\"\n"), ThemeMode::Light);
    assert_eq!(
        d("[theme]\nname = \"dracula\"\nauto_switch = true\n"),
        ThemeMode::Auto
    );
}

#[test]
fn theme_names_in_any_case() {
    assert_eq!(text_mode("theme.name = \"GitHub LIGHT\"\n"), Some(ThemeMode::Light));
    assert_eq!(text_mode("theme = { name = \"Kanagawa Lotus\" }\n"), Some(ThemeMode::Light));
    assert_eq!(text_mode("theme = 1\n"), Some(ThemeMode::Dark));
    assert_eq!(text_mode("theme ="), None);
    assert_eq!(named_mode(false, "tokyonight-day"), ThemeMode::Light);
    assert_eq!(named_mode(false, "papercolor"), ThemeMode::Light);
    assert_eq!(named_mode(false, "DAY"), ThemeMode::Dark);
    assert_eq!(named_mode(true, "dawn"), ThemeMode::Auto);
    assert_eq!(tree_mode(&Toml::Other), ThemeMode::Dark);
}

#[test]
fn names_of_reasons() {
    assert_eq!(via_str(Via::Agent), "agent");
    assert_eq!(via_str(Via::Rule), "rule");
    assert_eq!(via_str(Via::Auto), "auto");
    assert_eq!(via_str(Via::Nothing), "none");
}

#[test]
fn sidebar_colours_are_the_accents() {
    let cfg = parse_plugin_config(
        "[palettes.b]\naccent = \"#222\"\n[palettes.a]\naccent = \"#111\"\n[palettes.a.light]\naccent = \"#999\"\n",
    )
    .unwrap();
    let pair = |a: &str, b: &str| (a.to_string(), b.to_string());
    assert_eq!(
        sidebar_spec(&cfg, false).unwrap().colours,
        vec![pair("a", "#111"), pair("b", "#222")]
    );
    assert_eq!(
        sidebar_spec(&cfg, true).unwrap().colours,
        vec![pair("a", "#999"), pair("b", "#222")]
    );
    let off = parse_plugin_config("sidebar.enabled = false\n[palettes.a]\ntext = \"#111\"\n").unwrap();
    assert!(sidebar_spec(&off, false).is_none());
}

#[test]
fn report_args_set_one_token_and_clear_the_rest() {
    let all = vec!["red".to_string(), "green".to_string()];
    let args = report_args("pane", "w1:p1", Some("green"), "●", &all);
    assert_eq!(
        args,
        vec![
            "pane",
            "report-metadata",
            "w1:p1",
            "--source",
            "space-colors",
            "--clear-token",
            "sc_red",
            "--token",
            "sc_green=●"
        ]
    );
    let none = report_args("workspace", "w1", None, "●", &all);
    assert!(none.iter().all(|a| a != "--token"));
}

#[test]
fn a_sweep_calls_only_for_what_changed_and_settles() {
    let cfg = parse_plugin_config(
        "auto = false\n[palettes.a]\naccent = \"#111\"\n[palettes.b]\naccent = \"#222\"\n[[workspaces]]\nlabel = \"W\"\npalette = \"a\"\n[[agents]]\nsession = \"s1\"\npalette = \"b\"\n",
    )
    .unwrap();
    let workspaces = vec![Workspace {
        id: "w1".into(),
        label: "W".into(),
        cwd: "/w".into(),
        focused: true,
    }];
    let panes = vec![pane("p2", "w1", None), pane("p1", "w1", Some("s1")), pane("p3", "w9", None)];
    let mut st = State::default();
    st.ws_tokens.insert("gone".into(), "a".into());
    st.pane_tokens.insert("p2".into(), "a".into());
    let due = sweep(&cfg, HOME, &mut st, &workspaces, &panes);
    assert!(st.ws_tokens.get("gone").is_none());
    assert_eq!(due.workspaces.len(), 1);
    assert_eq!(due.workspaces[0].id, "w1");
    assert_eq!(due.workspaces[0].want, "a");
    assert_eq!(
        due.workspaces[0].args,
        vec!["workspace", "report-metadata", "w1", "--source", "space-colors", "--token", "sc_a=●", "--clear-token", "sc_b"]
    );
    let ids: Vec<&str> = due.panes.iter().map(|t| t.id.as_str()).collect();
    assert_eq!(ids, vec!["p1", "p3"]);
    assert_eq!(due.panes[0].want, "b");
    assert_eq!(due.panes[1].want, "");
    assert_eq!(would_tag("pane", &due.panes[0]), "would tag pane p1 → b");
    assert_eq!(would_tag("pane", &due.panes[1]), "would tag pane p3 → none");
    for t in &due.workspaces {
        record(&mut st.ws_tokens, t);
    }
    for t in &due.panes {
        record(&mut st.pane_tokens, t);
    }
    let again = sweep(&cfg, HOME, &mut st, &workspaces, &panes);
    assert!(again.workspaces.is_empty() && again.panes.is_empty());
    let calls = clear_tags("pane", &st.pane_tokens, &cfg.marker, &key_list(&cfg.palettes));
    assert_eq!(calls.len(), 3);
    assert_eq!(
        calls[0],
        vec!["pane", "report-metadata", "p1", "--source", "space-colors", "--clear-token", "sc_a", "--clear-token", "sc_b"]
    );
    assert_eq!(tags_line(3), "sidebar tags: 3 updated");
    assert_eq!(would_drop(1, 12), "clear: would drop tags on 1 workspaces and 12 panes");
}

#[test]
fn applying_a_workspace_and_clearing_it() {
    let cfg = parse_plugin_config(
        "[palettes.a]\naccent = \"#111\"\nsidebar_bg = \"#222\"\n[palettes.a.light]\naccent = \"#eee\"\n[[workspaces]]\nlabel = \"W\"\npalette = \"a\"\n",
    )
    .unwrap();
    let base = "[theme]\nname = \"catppuccin-latte\"\n";
    let mut st = State::default();
    let plan = plan_workspace(&cfg, HOME, &st, &ws("W", "/w"), base).unwrap();
    assert_eq!(plan.what, "W → a (explicit rule)");
    assert_eq!(plan.managed, vec!["accent", "sidebar_bg"]);
    assert_eq!(plan.managed_sidebar, vec!["agents", "spaces"]);
    assert_eq!(plan.palette.as_deref(), Some("a"));
    assert_eq!(plan.window.as_deref(), Some("#222"));
    assert!(plan.updated.contains("accent = \"#eee\""));
    remember(&mut st, &plan, "w1");
    assert_eq!(st.managed, vec!["accent", "sidebar_bg"]);
    assert_eq!(st.last_workspace.as_deref(), Some("w1"));
    assert_eq!(st.last_palette.as_deref(), Some("a"));
    let again = plan_workspace(&cfg, HOME, &st, &ws("W", "/w"), &plan.updated).unwrap();
    assert_eq!(again.updated, plan.updated);
    let cleared = plan_clear(&plan.updated, &st.managed, &st.managed_sidebar).unwrap();
    assert_eq!(cleared, base);
    let e = plan_workspace(&cfg, HOME, &st, &ws("W", "/w"), "x = ").unwrap_err();
    assert!(e.message().starts_with("herdr config parse error: "));
}

#[test]
fn what_is_the_users_survives_applying_and_clearing() {
    let cfg = parse_plugin_config(
        "[palettes.a]\naccent = \"#111\"\n[palettes.b]\naccent = \"#222\"\ntext = \"#333\"\n\
         [[workspaces]]\nlabel = \"A\"\npalette = \"a\"\n[[workspaces]]\nlabel = \"B\"\npalette = \"b\"\n",
    )
    .unwrap();
    let base = "# mine\n[theme]\n\n[theme.custom]\ntext = \"#fff\" # white\n\n[ui]\n";
    let mut st = State::default();
    let mut text = base.to_string();
    for label in ["A", "B", "A", "B"] {
        let plan = plan_workspace(&cfg, HOME, &st, &ws(label, "/w"), &text).unwrap();
        remember(&mut st, &plan, "w1");
        text = plan.updated;
        assert!(text.contains("# space-colors leaves: ui\n"), "{text}");
        assert_eq!(text.contains("# space-colors keeps: text = \"#fff\" # white\n"), label == "B");
        assert_eq!(plan_clear(&text, &st.managed, &st.managed_sidebar).unwrap(), base);
    }
    forget_edits(&mut st);
    assert!(st.managed.is_empty() && st.managed_sidebar.is_empty());
    assert_eq!(st.last_workspace.as_deref(), Some("w1"));
}

#[test]
fn a_workspace_without_a_palette_goes_back_to_the_base_theme() {
    let cfg = parse_plugin_config("auto = false\nsidebar.enabled = false\n[palettes.a]\naccent = \"#111\"\n").unwrap();
    let mut st = State::default();
    st.managed = vec!["accent".into()];
    let plan = plan_workspace(&cfg, HOME, &st, &ws("W", "/w"), "[theme.custom]\naccent = \"#111\"\n").unwrap();
    assert_eq!(plan.updated, "");
    assert_eq!(plan.what, "W → base theme (no rule, auto off)");
    assert!(plan.managed.is_empty() && plan.window.is_none() && plan.palette.is_none());
    assert_eq!(what_line("L", Some("a"), Via::Auto), "L → a (auto)");
}

#[test]
fn pane_sequences() {
    let cfg = parse_plugin_config(
        "auto = false\n[palettes.a]\naccent = \"#111\"\nsidebar_bg = \"#222\"\n[palettes.a.light]\npane_bg = \"#eee\"\n[palettes.b]\naccent = \"#222\"\n\
         [[workspaces]]\nlabel = \"W\"\npalette = \"a\"\n[[agents]]\nsession = \"s1\"\npalette = \"b\"\n",
    )
    .unwrap();
    let all = vec![ws("W", "/w")];
    let p = pane("p1", "w", None);
    assert!(needs_workspace(&cfg, &p));
    assert_eq!(pane_sequence(&cfg, HOME, false, &p, &all).unwrap(), "\x1b]11;#222\x07");
    assert_eq!(pane_sequence(&cfg, HOME, true, &p, &all).unwrap(), "\x1b]11;#eee\x07");
    let pinned = pane("p2", "nowhere", Some("s1"));
    assert!(!needs_workspace(&cfg, &pinned));
    assert_eq!(pane_sequence(&cfg, HOME, false, &pinned, &vec![]).unwrap(), "\x1b]111\x07");
    let lost = pane("p3", "no\"where", None);
    assert_eq!(
        pane_sequence(&cfg, HOME, false, &lost, &all).unwrap_err(),
        "no workspace with id or label \"no\\\"where\""
    );
    assert_eq!(osc(None), "\x1b]111\x07");
    assert_eq!(unknown_palette("x y"), "unknown palette \"x y\"; see `palettes`");
}

#[test]
fn key_maps_keep_their_keys_in_order() {
    let mut m: KeyMap<u8> = KeyMap::new();
    for (k, v) in [("b", 1), ("a", 2), ("ab", 3), ("b", 4), ("Z", 5)] {
        m.insert(k.to_string(), v);
    }
    assert_eq!(key_list(&m), vec!["Z", "a", "ab", "b"]);
    assert_eq!(m.get("b"), Some(&4));
    m.remove("a");
    m.remove("zz");
    assert_eq!(m.len(), 3);
    assert!(!m.has("a") && m.has("ab"));
}

#[test]
fn tints_are_switched_by_the_configuration() {
    let on = parse_plugin_config("[palettes.a]\naccent = \"#111\"\n").unwrap();
    let off = parse_plugin_config(
        "[palettes.a]\naccent = \"#111\"\n[pane]\ntint = false\n[window]\ntint = false\n",
    )
    .unwrap();
    assert_eq!((on.pane_tint, on.window_tint), (true, true));
    assert_eq!((off.pane_tint, off.window_tint), (false, false));
    assert_eq!(tint_target(&on, Some("#111")), Some(Some("#111")));
    assert_eq!(tint_target(&on, None), Some(None));
    assert_eq!(tint_target(&off, Some("#111")), None);
    assert!(matches!(osc_step(true, None, None), OscStep::Reset));
    assert!(matches!(osc_step(false, None, Some("p")), OscStep::Configure));
    assert!(matches!(osc_step(false, Some(&on), Some("p")), OscStep::Tint(id) if id == "p"));
    assert!(matches!(osc_step(false, Some(&off), Some("p")), OscStep::Reset));
    assert!(matches!(
        osc_step(false, Some(&off), None),
        OscStep::Fail(m) if m == "no pane: pass --pane <id> or run inside a herdr pane"
    ));
}
