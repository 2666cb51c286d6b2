//! The state, the commit, Herdr's answers, the command line and the reports.
use herdr_space_colors::cli::{
    add_hook, agent_rule_saved, agent_rules_removed, command, focused_line, parse_args,
    rule_saved, rules_removed_line, shell_hook_snippet, unknown_command, usage, Command,
    HOOK_MARKER,
};
use herdr_space_colors::commit::{begin_commit, commit, diff, file_message, Commit, CommitStep};
use herdr_space_colors::config::parse_plugin_config;
use herdr_space_colors::herdr::{
    all_panes, all_workspaces, event_workspace, failed_message, find_pane, find_workspace,
    focused_workspace, named_workspace, not_run_message, read_answer, resolve_session, result_of,
};
use herdr_space_colors::json::{parse_json, Json};
use herdr_space_colors::paths::{
    backup_path, config_dir, expand_home, file_name, file_stem, herdr_config_path, join_path,
    lock_path, on_path, plugin_config_path, same_path, state_dir, state_path, temp_path,
};
use herdr_space_colors::report::{palettes_report, status_head, status_tables, validate_report};
use herdr_space_colors::select::ThemeMode;
use herdr_space_colors::state::{
    load_state, lock_is_stale, lock_step, read_state, save_state, LockAttempt, LockStep, State,
};
use herdr_space_colors::text;

fn list(items: &[&str]) -> Vec<String> {
    items.iter().map(|s| s.to_string()).collect()
}

fn json(text: &str) -> Json {
    parse_json(text).unwrap()
}

// --- state -----------------------------------------------------------------------

fn sample() -> State {
    let mut st = State::default();
    st.managed = list(&["accent", "text"]);
    st.managed_sidebar = list(&["agents"]);
    st.pane_tokens.insert("w1:p1".into(), "red".into());
    st.pane_tokens.insert("w1:p0".into(), "".into());
    st.ws_tokens.insert("w\"1\n".into(), "blüe".into());
    st.last_workspace = Some("w1".into());
    st.window.original.insert("/dev/t1".into(), "1,2,3".into());
    st.window.current.insert("/dev/t1".into(), "#fff".into());
    st.window.session.insert("/dev/t1".into(), "demo".into());
    st
}

#[test]
fn what_is_saved_is_read_back() {
    let st = sample();
    let back = load_state(&save_state(&st));
    assert_eq!(back.managed, st.managed);
    assert_eq!(back.managed_sidebar, st.managed_sidebar);
    assert_eq!(back.pane_tokens.entries, st.pane_tokens.entries);
    assert_eq!(back.ws_tokens.entries, st.ws_tokens.entries);
    assert_eq!(back.last_workspace, st.last_workspace);
    assert_eq!(back.last_palette, None);
    assert_eq!(back.window.original.entries, st.window.original.entries);
    assert_eq!(back.window.current.entries, st.window.current.entries);
    assert_eq!(back.window.session.entries, st.window.session.entries);
}

#[test]
fn the_saved_text() {
    let text = save_state(&State::default());
    assert_eq!(
        text,
        "{\n  \"last_palette\": null,\n  \"last_workspace\": null,\n  \"managed\": [],\n  \"managed_sidebar\": [],\n  \"pane_tokens\": {},\n  \"window_current\": {},\n  \"window_original\": {},\n  \"window_session\": {},\n  \"ws_tokens\": {}\n}"
    );
    assert!(save_state(&sample()).contains("\"managed\": [\n    \"accent\",\n    \"text\"\n  ]"));
}

#[test]
fn odd_states_are_read_as_far_as_they_go() {
    let empty = load_state("not json");
    assert!(empty.managed.is_empty() && empty.last_palette.is_none());
    let st = load_state("{\"managed\": [1, \"a\", null, \"b\"], \"ws_tokens\": {\"x\": 1, \"y\": \"z\"}, \"last_palette\": 3}");
    assert_eq!(st.managed, list(&["a", "b"]));
    assert_eq!(st.ws_tokens.entries, vec![("y".to_string(), "z".to_string())]);
    assert!(st.last_palette.is_none());
    assert!(read_state(&Json::Null).managed.is_empty());
    let j = Json::Object(vec![("last_palette".into(), Json::Text("red".into()))]);
    assert_eq!(read_state(&j).last_palette.as_deref(), Some("red"));
}

#[test]
fn locks() {
    assert!(lock_is_stale(None));
    assert!(!lock_is_stale(Some((15, 0))));
    assert!(lock_is_stale(Some((15, 1))));
    assert!(lock_is_stale(Some((16, 0))));
    assert!(matches!(lock_step(true, &LockAttempt::Created), LockStep::Held));
    assert!(matches!(lock_step(true, &LockAttempt::Failed), LockStep::Fail));
    assert!(matches!(lock_step(true, &LockAttempt::Exists(Some((1, 0)))), LockStep::Busy));
    assert!(matches!(lock_step(true, &LockAttempt::Exists(None)), LockStep::RemoveAndRetry));
    assert!(matches!(lock_step(false, &LockAttempt::Exists(None)), LockStep::RemoveAndGiveUp));
}

// --- commit ----------------------------------------------------------------------

/// Plays a commit on a file with the old text; returns its end and the last step.
fn play(updated: &str, dry: bool, bad: &[&str]) -> (String, Vec<String>, CommitStep) {
    let mut c: Commit = begin_commit("/h.toml", "old\n", updated, dry, "W → a (auto)");
    let mut content = String::from("old\n");
    let mut done = Vec::new();
    let mut outcome = Ok(());
    loop {
        let step = commit(&mut c, outcome);
        let (name, after) = match &step {
            CommitStep::Backup => ("backup", content.clone()),
            CommitStep::WriteNew => ("write", c.updated.clone()),
            CommitStep::Check => ("check", content.clone()),
            CommitStep::WriteOld => ("restore", c.original.clone()),
            CommitStep::Record => ("record", content.clone()),
            CommitStep::Reload => ("reload", content.clone()),
            _ => return (content, done, step),
        };
        done.push(name.to_string());
        if bad.contains(&name) {
            outcome = Err(format!("{name} failed"));
        } else {
            content = after;
            outcome = Ok(());
        }
    }
}

#[test]
fn a_commit_that_works() {
    let (content, done, last) = play("new\n", false, &[]);
    assert_eq!(content, "new\n");
    assert_eq!(done, list(&["backup", "write", "check", "record", "reload"]));
    match last {
        CommitStep::Applied(l) => assert_eq!(l, "W → a (auto): applied"),
        other => panic!("{other:?}"),
    }
}

#[test]
fn a_failed_check_restores_the_old_text() {
    let (content, done, last) = play("new\n", false, &["check"]);
    assert_eq!(content, "old\n");
    assert_eq!(done, list(&["backup", "write", "check", "restore"]));
    match last {
        CommitStep::Fail(Some(note), m) => {
            assert_eq!(note, "config check failed after an edit; the previous config.toml was restored");
            assert_eq!(m, "W → a (auto): `herdr config check` rejected the result, restored the previous config.\ncheck failed");
        }
        other => panic!("{other:?}"),
    }
}

#[test]
fn commits_that_stop_early() {
    let (content, done, last) = play("old\n", false, &[]);
    assert_eq!((content.as_str(), done.len()), ("old\n", 0));
    assert!(matches!(last, CommitStep::Idle(l) if l == "W → a (auto): already in place, nothing to do"));
    let (content, done, last) = play("new\n", true, &[]);
    assert_eq!((content.as_str(), done.len()), ("old\n", 0));
    match last {
        CommitStep::Preview(l, d) => {
            assert_eq!(l, "W → a (auto): dry run, would change /h.toml:");
            assert_eq!(d, "- old\n+ new\n");
        }
        other => panic!("{other:?}"),
    }
    let (content, done, last) = play("new\n", false, &["backup"]);
    assert_eq!((content.as_str(), done), ("old\n", list(&["backup"])));
    assert!(matches!(last, CommitStep::Fail(None, m) if m == "backup failed"));
    let (_, _, last) = play("new\n", false, &["write"]);
    assert!(matches!(last, CommitStep::Fail(None, m) if m == "write failed"));
    let (content, _, last) = play("new\n", false, &["check", "restore"]);
    assert_eq!(content, "new\n");
    assert!(matches!(last, CommitStep::Fail(None, m) if m == "restore failed"));
    let (content, done, last) = play("new\n", false, &["record"]);
    assert_eq!(content, "old\n");
    assert_eq!(done, list(&["backup", "write", "check", "record", "restore"]));
    assert!(matches!(last, CommitStep::Fail(None, m) if m == "record failed"));
    let (content, _, last) = play("new\n", false, &["record", "restore"]);
    assert_eq!(content, "new\n");
    assert!(matches!(last, CommitStep::Fail(None, m) if m == "restore failed"));
    let (content, done, last) = play("new\n", false, &["reload"]);
    assert_eq!(content, "new\n");
    assert_eq!(done, list(&["backup", "write", "check", "record", "reload"]));
    match last {
        CommitStep::Fail(Some(note), m) => {
            assert_eq!(note, "config.toml updated but the server reload failed");
            assert_eq!(m, "W → a (auto): config written and valid, but the reload failed (is the server running?)\nreload failed");
        }
        other => panic!("{other:?}"),
    }
}

#[test]
fn diffs() {
    assert_eq!(diff("a\nb\r\nc", "b\nd\na\n"), "- c\n+ d\n");
    assert_eq!(diff("x\nx\n", ""), "- x\n- x\n");
    assert_eq!(diff("", ""), "");
    assert_eq!(file_message("read", "/p", "gone"), "read /p: gone");
}

// --- herdr -----------------------------------------------------------------------

const LIST: &str = "{\"workspaces\": [{\"workspace_id\": \"w1\", \"label\": \"A\", \"focused\": false}, {\"label\": \"no id\"}, {\"workspace_id\": \"w2\", \"label\": \"w1\", \"focused\": true}]}";
const PANES: &str = "{\"panes\": [{\"pane_id\": \"p1\", \"workspace_id\": \"w1\", \"cwd\": \"\"}, {\"pane_id\": \"p2\", \"workspace_id\": \"w1\", \"cwd\": \"/one\"}, {\"pane_id\": \"p3\", \"workspace_id\": \"w1\", \"cwd\": \"/two\"}, {\"pane_id\": \"\", \"workspace_id\": \"w2\"}, {\"pane_id\": \"p2\", \"workspace_id\": \"w2\"}]}";
const AGENTS: &str = "{\"agents\": [{\"pane_id\": \"p2\", \"agent\": \"old\"}, {\"pane_id\": \"p2\", \"agent\": \"pi\", \"agent_session\": {\"value\": \"s1\"}}, {\"pane_id\": \"p3\"}]}";

#[test]
fn workspaces_and_their_directories() {
    let all = all_workspaces(&json(LIST), &json(PANES));
    assert_eq!(all.len(), 2);
    assert_eq!((all[0].id.as_str(), all[0].label.as_str(), all[0].cwd.as_str(), all[0].focused), ("w1", "A", "/one", false));
    assert_eq!((all[1].id.as_str(), all[1].cwd.as_str(), all[1].focused), ("w2", "", true));
    assert_eq!(find_workspace(&all, "w1").unwrap().label, "A");
    assert_eq!(find_workspace(&all, "A").unwrap().id, "w1");
    assert_eq!(find_workspace(&all, "x").unwrap_err(), "no workspace with id or label \"x\"");
    assert_eq!(focused_workspace(&all).unwrap(), "w2");
    assert_eq!(focused_workspace(&vec![]).unwrap_err(), "no focused workspace");
    assert!(all_workspaces(&Json::Null, &Json::Null).is_empty());
    let copy = all[0].copy();
    assert_eq!((copy.id, copy.cwd), ("w1".to_string(), "/one".to_string()));
}

#[test]
fn panes_and_their_agents() {
    let panes = all_panes(&json(PANES), &json(AGENTS));
    let ids: Vec<&str> = panes.iter().map(|p| p.id.as_str()).collect();
    assert_eq!(ids, vec!["p1", "p2", "p3", "p2"]);
    assert_eq!(panes[0].agent, None);
    assert_eq!(panes[1].agent.as_deref(), Some("pi"));
    assert_eq!(panes[1].session.as_deref(), Some("s1"));
    assert_eq!((panes[2].agent.as_deref(), panes[2].session.as_deref()), (Some(""), None));
    assert_eq!((panes[3].agent.as_deref(), panes[3].workspace_id.as_str()), (None, "w2"));
    assert_eq!(find_pane(&panes, "p3").unwrap().id, "p3");
    assert_eq!(find_pane(&panes, "p9").unwrap_err(), "no pane \"p9\"");
}

#[test]
fn sessions_to_pin() {
    let panes = all_panes(
        &json("{\"panes\": [{\"pane_id\": \"w1:p1\", \"workspace_id\": \"w1\"}, {\"pane_id\": \"w1:p2\", \"workspace_id\": \"w1\"}]}"),
        &json("{\"agents\": [{\"pane_id\": \"w1:p1\", \"agent\": \"pi\", \"agent_session\": {\"value\": \"s1\"}}]}"),
    );
    assert_eq!(resolve_session(&panes, "w1:p1").unwrap(), ("s1".to_string(), "pi in w1".to_string()));
    assert_eq!(resolve_session(&panes, "abc").unwrap(), ("abc".to_string(), String::new()));
    assert_eq!(resolve_session(&panes, "w1:p2").unwrap_err(), "pane w1:p2 has no agent session to pin");
    assert_eq!(resolve_session(&panes, "w1:p9").unwrap_err(), "no pane \"w1:p9\"");
}

#[test]
fn the_workspace_of_an_event() {
    let id = |t: &str| event_workspace(&json(t));
    assert_eq!(id("{\"data\": {\"workspace_id\": \"a\"}, \"workspace_id\": \"c\"}").as_deref(), Some("a"));
    assert_eq!(id("{\"data\": {\"workspace_id\": 1, \"workspace\": {\"workspace_id\": \"b\"}}}").as_deref(), Some("b"));
    assert_eq!(id("{\"data\": {}, \"workspace_id\": \"c\"}").as_deref(), Some("c"));
    assert_eq!(id("{\"workspace\": {\"workspace_id\": \"d\"}}").as_deref(), Some("d"));
    assert_eq!(id("[]"), None);
    assert_eq!(named_workspace(Some("{\"workspace_id\": \"a\"}"), Some("b")).as_deref(), Some("a"));
    assert_eq!(named_workspace(Some("nope"), Some("b")).as_deref(), Some("b"));
    assert_eq!(named_workspace(None, Some("")), None);
    assert_eq!(named_workspace(None, None), None);
}

#[test]
fn answers_and_failures() {
    let args = list(&["pane", "list"]);
    let j = read_answer(&args, &b"{\"result\": {\"a\": [true, 1.5, null]}}".to_vec()).unwrap();
    let r = result_of(&j);
    assert!(r.list("a").unwrap().len() == 3);
    assert!(matches!(r.list("a").unwrap()[0], Json::Bool(true)));
    assert!(matches!(r.list("a").unwrap()[1], Json::Number));
    assert!(matches!(result_of(r), Json::Object(_)));
    let e = read_answer(&args, &vec![0x7b, 0xff]).unwrap_err();
    assert!(e.starts_with("`herdr pane list`: bad JSON: "), "{e}");
    assert_eq!(not_run_message("/bin/herdr", &args, "gone"), "run /bin/herdr pane list: gone");
    assert_eq!(failed_message(&args, " out\n", "\terr "), "`herdr pane list` failed: outerr");
}

// --- paths -----------------------------------------------------------------------

#[test]
fn paths_of_files() {
    assert_eq!(join_path("/a", "b"), "/a/b");
    assert_eq!(join_path("/a/", "b"), "/a/b");
    assert_eq!(join_path("/a", "/b"), "/b");
    assert_eq!(join_path("", "b"), "b");
    assert_eq!(join_path("/a", ""), "/a/");
    assert_eq!(expand_home("~/x", "/h"), "/h/x");
    assert_eq!(expand_home("~", "/h"), "/h");
    assert_eq!(expand_home("~x", "/h"), "~x");
    assert_eq!(config_dir(None, "/h"), "/h/.config/herdr/plugins/config/ferretorres.space-colors");
    assert_eq!(config_dir(Some("/c"), "/h"), "/c");
    assert_eq!(state_dir(None, None, "/h"), "/h/.local/state/herdr/plugins/ferretorres.space-colors");
    assert_eq!(state_dir(None, Some("/x"), "/h"), "/x/herdr/plugins/ferretorres.space-colors");
    assert_eq!(state_dir(Some("/s"), Some("/x"), "/h"), "/s");
    assert_eq!(herdr_config_path(Some("/e"), Some("/c"), "/h"), "/e");
    assert_eq!(herdr_config_path(None, Some("~/c"), "/h"), "/h/c");
    assert_eq!(herdr_config_path(None, None, "/h"), "/h/.config/herdr/config.toml");
    assert_eq!(plugin_config_path("/c"), "/c/config.toml");
    assert_eq!(state_path("/s"), "/s/state.json");
    assert_eq!(lock_path("/s"), "/s/apply.lock");
    assert_eq!(backup_path("/h/c.toml"), "/h/c.toml.space-colors.bak");
    assert_eq!(temp_path("/h/c.toml"), "/h/c.toml.space-colors.tmp");
}

#[test]
fn names_in_paths_are_those_of_the_standard_library() {
    for p in ["", "/", ".", "..", "a", "a/", "a//", "/a/b.c", "a/.", "a/./", "a/..", ".b", "a/.b.c", "b.", "x.tar.gz", "./a", "../..x"] {
        let path = std::path::Path::new(p);
        let name = path.file_name().map(|f| f.to_str().unwrap().to_string());
        assert_eq!(file_name(p), name, "{p}");
        if let Some(n) = name {
            assert_eq!(file_stem(&n), path.file_stem().unwrap().to_str().unwrap(), "{p}");
        }
    }
    for (a, b) in [("/a", "/a/"), ("/a//b", "/a/./b"), ("a", "/a"), ("./a", "a"), (".", "./"), ("", "."), ("a/..", "")] {
        assert_eq!(same_path(a, b), std::path::Path::new(a) == std::path::Path::new(b), "{a} {b}");
    }
    assert!(on_path("/x:/h/.local/bin/:/y", "/h/.local/bin"));
    assert!(!on_path("/x:/y", "/h/.local/bin"));
}

// --- command line ----------------------------------------------------------------

#[test]
fn arguments() {
    let a = parse_args(&list(&["set", "--dry-run", "A", "--pane", "p1", "red", "--write", "--reset"]), None);
    assert_eq!(a.cmd, "set");
    assert_eq!(a.positional, list(&["A", "red"]));
    assert!(a.dry_run && a.write && a.reset);
    assert_eq!(a.pane.as_deref(), Some("p1"));
    let a = parse_args(&vec![], Some("p9"));
    assert_eq!((a.cmd.as_str(), a.pane), ("apply", None));
    let a = parse_args(&list(&["osc", "--current"]), Some("p9"));
    assert_eq!(a.pane.as_deref(), Some("p9"));
    let a = parse_args(&list(&["--current", "osc", "--pane"]), Some("p9"));
    assert_eq!(a.pane, None);
    let a = parse_args(&list(&["--pane", "--write"]), None);
    assert_eq!((a.pane.as_deref(), a.write), (Some("--write"), false));
}

#[test]
fn commands() {
    let names = [
        ("apply", Command::Apply),
        ("sweep", Command::Sweep),
        ("clear", Command::Clear),
        ("status", Command::Status),
        ("validate", Command::Validate),
        ("palettes", Command::Palettes),
        ("set", Command::SetRule),
        ("unset", Command::UnsetRule),
        ("set-agent", Command::SetAgent),
        ("unset-agent", Command::UnsetAgent),
        ("focus", Command::Focus),
        ("osc", Command::Osc),
        ("install-cli", Command::InstallCli),
        ("shell-hook", Command::ShellHook),
        ("help", Command::Help),
        ("-h", Command::Help),
        ("--help", Command::Help),
        ("other", Command::Unknown),
    ];
    for (name, want) in names {
        assert_eq!(command(name), want, "{name}");
    }
    assert!(usage().starts_with("herdr-space-colors — the Herdr theme"));
    assert!(usage().ends_with("Backup:        <herdr config>.space-colors.bak, written once before the first edit\n"));
    assert_eq!(unknown_command("x"), format!("unknown command `x`\n\n{}", usage()));
}

#[test]
fn shell_hook_is_guarded() {
    let s = shell_hook_snippet();
    assert!(s.contains(HOOK_MARKER) && s.contains("HERDR_PANE_ID") && s.contains("[ -t 1 ]"));
}

#[test]
fn the_hook_is_added_once() {
    let hook = shell_hook_snippet();
    assert_eq!(add_hook("").unwrap(), format!("\n{hook}"));
    assert_eq!(add_hook("a\n").unwrap(), format!("a\n\n{hook}"));
    let added = add_hook("a").unwrap();
    assert_eq!(added, format!("a\n\n{hook}"));
    assert!(add_hook(&added).is_none());
}

#[test]
fn lines_for_the_user() {
    assert_eq!(rule_saved("label", "A \"b\"", "red"), "rule saved: label \"A \\\"b\\\"\" → red");
    assert_eq!(rules_removed_line(2, "A"), "removed 2 rule(s) for \"A\"");
    assert_eq!(agent_rule_saved("s", "red"), "agent rule saved: s → red");
    assert_eq!(agent_rules_removed(10), "removed 10 agent rule(s)");
    assert_eq!(focused_line("A", "w1"), "focused A (w1)");
}

// --- reports ---------------------------------------------------------------------

#[test]
fn the_status() {
    let cfg = parse_plugin_config(
        "auto = false\n[palettes.red]\naccent = \"#111\"\n[[workspaces]]\nlabel = \"A\"\npalette = \"red\"\n",
    )
    .unwrap();
    let st = sample();
    assert_eq!(
        status_head("/h.toml", "/s.json", Some(ThemeMode::Light), &cfg, &st),
        list(&[
            "herdr config:  /h.toml",
            "state:         /s.json",
            "theme mode:    light (using palettes' light variants where defined)",
            "theme keys:    accent, text",
            "sidebar rows:  managed: agents",
            "pane tint:     on (needs the shell hook; run `shell-hook`)",
            "window tint:   /dev/t1 #fff",
            "",
        ])
    );
    let off = parse_plugin_config("sidebar.enabled = false\npane.tint = false\nwindow.tint = false\n[palettes.red]\naccent = \"#111\"\n").unwrap();
    let head = status_head("a", "b", None, &off, &State::default());
    assert_eq!(head[2], "theme mode:    unknown");
    assert_eq!(head[3], "theme keys:    none");
    assert_eq!(head[4], "sidebar rows:  disabled");
    assert_eq!(head[5], "pane tint:     off");
    assert_eq!(head[6], "window tint:   off");
    let head = status_head("a", "b", Some(ThemeMode::Auto), &cfg, &State::default());
    assert_eq!(head[2], "theme mode:    auto_switch — host appearance unknown to plugins; dark palettes used");
    assert_eq!(head[4], "sidebar rows:  not managed yet (or user-defined)");
    assert_eq!(head[6], "window tint:   on (Apple Terminal; nothing tinted right now)");
    let workspaces = all_workspaces(&json(LIST), &json(PANES));
    let panes = all_panes(&json(PANES), &json(AGENTS));
    assert_eq!(
        status_tables(&cfg, "/on", &workspaces, &panes),
        list(&[
            "WS      LABEL              PALETTE    VIA       CWD",
            "w1      A                  red        rule      ~e",
            "w2   *  w1                 -          none      ",
            "",
            "PANE    AGENT   WORKSPACE          PALETTE    VIA       SESSION",
            "p1      shell   A                  red        rule      -",
            "p2      pi      A                  -          none      s1",
            "p3              A                  red        rule      -",
            "p2      shell   w1                 -          none      -",
        ])
    );
}

#[test]
fn the_validation_report() {
    let cfg = parse_plugin_config(
        "[palettes.b]\naccent = \"#111\"\ntext = \"#222\"\npane_bg = \"#333\"\n[palettes.a]\naccent = \"#444\"\n[palettes.a.light]\naccent = \"#555\"\n\
         [[workspaces]]\nlabel = \"A\"\npath = \"/p\"\npalette = \"a\"\n[[workspaces]]\nlabel = \"B\"\npalette = \"a\"\n[[workspaces]]\npath = \"/q\"\npalette = \"b\"\n\
         [[agents]]\nsession = \"s\"\npalette = \"a\"\n",
    )
    .unwrap();
    assert_eq!(
        validate_report("/c", "/h", &cfg),
        list(&[
            "config: /c",
            "herdr config: /h",
            "auto: true   sidebar: true   marker: ●   pane tint: true",
            "palettes (2):",
            "  a: accent=#444 (+light)",
            "  b: accent=#111 text=#222 pane_bg=#333",
            "workspace rules (3):",
            "  label \"A\" or path /p → a",
            "  label \"B\" → a",
            "  path /q → b",
            "agent rules (1):",
            "  session s → a",
            "config is valid.",
        ])
    );
    assert_eq!(
        palettes_report(&cfg),
        list(&[
            "a        accent #444  sidebar_bg -  pane -  (+light)",
            "b        accent #111  sidebar_bg -  pane #333",
        ])
    );
}

// --- text ------------------------------------------------------------------------

#[test]
fn texts_behave_as_those_of_the_standard_library() {
    for s in ["", " ", "a", " a b\t\u{a0}c\u{2003}", "x\ny\r\nz\r", "\n\n", "a/b//", "é/ü"] {
        assert_eq!(text::trim(s), s.trim());
        assert_eq!(text::lines(s), s.lines().collect::<Vec<_>>());
        assert_eq!(text::words(s), s.split_whitespace().collect::<Vec<_>>());
        assert_eq!(text::split(s, '/'), s.split('/').collect::<Vec<_>>());
        assert_eq!(text::trim_slashes(s), s.trim_end_matches('/'));
        assert_eq!(text::is_blank(s), s.trim().is_empty());
        assert_eq!(text::pad(s, 4), format!("{s:<4}"));
        for p in ["", "a", "b/", "é"] {
            assert_eq!(text::starts_with(s, p), s.starts_with(p));
            assert_eq!(text::ends_with(s, p), s.ends_with(p));
            assert_eq!(text::contains(s, p), s.contains(p));
            assert_eq!(text::replace_once(s, p, "~"), s.replacen(p, "~", 1));
            assert_eq!(text::is_before(s, p), s < p);
        }
    }
    for n in [0u64, 9, 10, 12345, u64::MAX] {
        assert_eq!(text::number(n), n.to_string());
    }
    assert_eq!(text::join(&list(&["a", "b"]), ", "), "a, b");
}
