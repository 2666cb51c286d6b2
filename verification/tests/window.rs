//! The tint of the window.
use herdr_space_colors::window::{
    apply, client_ttys, hex_to_triple, restore_all, restore_report, session_ttys, tab_script,
    terminal_app_running, terminal_get, terminal_set, tint_job, Reply, Step, WindowState,
};

const PS: &str = "\
??       /System/Applications/Utilities/Terminal.app/Contents/MacOS/Terminal
??       /opt/homebrew/bin/herdr server
ttys001  herdr
ttys004  /opt/homebrew/bin/herdr attach
ttys009  herdr-space-colors status
ttys001  herdr
";

#[test]
fn client_ttys_skips_server_and_unrelated_binaries() {
    assert_eq!(client_ttys(PS), vec!["/dev/ttys001", "/dev/ttys004"]);
}

#[test]
fn detects_terminal_app() {
    assert!(terminal_app_running(PS));
    assert!(!terminal_app_running("ttys001  herdr\n"));
}

#[test]
fn hex_to_triple_handles_short_and_long_forms() {
    assert_eq!(hex_to_triple("#1e1f29").as_deref(), Some("7710,7967,10537"));
    assert_eq!(hex_to_triple("#fff").as_deref(), Some("65535,65535,65535"));
    assert_eq!(hex_to_triple("1e1f29"), None);
    assert_eq!(hex_to_triple("#12345"), None);
    assert_eq!(hex_to_triple("#gg0000"), None);
}

#[test]
fn hex_to_triple_edges() {
    assert_eq!(hex_to_triple("#AbC").as_deref(), Some("43690,48059,52428"));
    assert_eq!(hex_to_triple("#000000").as_deref(), Some("0,0,0"));
    assert_eq!(hex_to_triple("#+f+f+f"), None);
    assert_eq!(hex_to_triple("#+a+b+c"), None);
    assert_eq!(hex_to_triple("#f+f+f+"), None);
    assert_eq!(hex_to_triple("#-1 2 3"), None);
    assert_eq!(hex_to_triple("#+++"), None);
    assert_eq!(hex_to_triple("#é1"), None);
    assert_eq!(hex_to_triple(""), None);
}

#[test]
fn tab_script_targets_exactly_one_tty() {
    let s = tab_script("/dev/ttys001", "return \"ok\"");
    assert!(s.contains("if tty of t is \"/dev/ttys001\" then"));
    assert!(s.ends_with("return \"missing\""));
}

#[test]
fn scripts_are_as_expected() {
    assert_eq!(
        terminal_set("/dev/t", "1,2,3"),
        "tell application \"Terminal\"\nrepeat with w in windows\nrepeat with t in tabs of w\nif tty of t is \"/dev/t\" then\nset background color of t to {1,2,3}\nreturn \"ok\"\nend if\nend repeat\nend repeat\nend tell\nreturn \"missing\""
    );
    assert!(terminal_get("/dev/t").contains(
        "set c to background color of t\nreturn (item 1 of c as string) & \",\" & (item 2 of c as string) & \",\" & (item 3 of c as string)\nend if"
    ));
}

#[test]
fn lines_of_ps() {
    let ps = "? herdr\nttys1\n\n  ttys2   /a/b/herdr   server x\nttys3 /herdr/x\nttys4\therdr\tattach\r\n";
    assert_eq!(client_ttys(ps), vec!["/dev/ttys4"]);
    assert!(client_ttys("").is_empty());
}

#[test]
fn clients_of_other_sessions_are_told_apart() {
    let ps = "t1 herdr\nt2 herdr --session demo\nt3 /x/herdr attach --session=demo\nt4 herdr --session\n";
    assert_eq!(client_ttys(ps), vec!["/dev/t1", "/dev/t2", "/dev/t3", "/dev/t4"]);
    assert_eq!(session_ttys(ps, ""), vec!["/dev/t1", "/dev/t4"]);
    assert_eq!(session_ttys(ps, "demo"), vec!["/dev/t2", "/dev/t3"]);
}

const TERMINAL: &str = "?? /Applications/Terminal.app/Contents/MacOS/Terminal\n";

fn text(s: &str) -> Reply {
    Reply::Text(s.to_string())
}

/// Plays a job with the answers of a Terminal that has one colour on every tab.
fn play(st: &mut WindowState, ps: &str, session: &str, target: Option<&str>, dry: bool, colour: &str) -> (Vec<String>, Vec<String>) {
    let mut job = tint_job(st, ps, session, target, dry);
    let mut sent = Vec::new();
    let mut reply = Reply::Nothing;
    loop {
        match apply(st, &mut job, reply) {
            Step::Pass => reply = Reply::Nothing,
            Step::Run(s) => {
                reply = if s.contains("return (item 1") {
                    text(colour)
                } else {
                    text("ok")
                };
                sent.push(s);
            }
            Step::Try(s) => {
                sent.push(s);
                reply = Reply::Nothing;
            }
            Step::Finished => return (job.report, sent),
            Step::Failed(e) => panic!("{e}"),
        }
    }
}

#[test]
fn the_first_colour_is_saved_and_put_back_exactly() {
    let ps = format!("{TERMINAL}t1 herdr\n");
    let mut st = WindowState::new();
    let (report, sent) = play(&mut st, &ps, "", Some("#fff"), false, "1,2,3");
    assert_eq!(report, vec!["window /dev/t1: #fff"]);
    assert_eq!(sent, vec![terminal_get("/dev/t1"), terminal_set("/dev/t1", "65535,65535,65535")]);
    assert_eq!(st.original.get("/dev/t1").unwrap(), "1,2,3");
    assert_eq!(st.current.get("/dev/t1").unwrap(), "#fff");
    let (report, sent) = play(&mut st, &ps, "", Some("#fff"), false, "9,9,9");
    assert!(report.is_empty() && sent.is_empty());
    let (_, sent) = play(&mut st, &ps, "", Some("#000"), false, "9,9,9");
    assert_eq!(sent, vec![terminal_set("/dev/t1", "0,0,0")]);
    assert_eq!(st.original.get("/dev/t1").unwrap(), "1,2,3");
    let (report, sent) = play(&mut st, &ps, "", None, false, "9,9,9");
    assert_eq!(report, vec!["window /dev/t1: restored"]);
    assert_eq!(sent, vec![terminal_set("/dev/t1", "1,2,3")]);
    assert_eq!(st.original.len() + st.current.len() + st.session.len(), 0);
    let (report, sent) = play(&mut st, &ps, "", None, false, "9,9,9");
    assert!(report.is_empty() && sent.is_empty());
}

#[test]
fn tabs_without_a_client_are_put_back_and_forgotten() {
    let mut st = WindowState::new();
    play(&mut st, &format!("{TERMINAL}t1 herdr\nt2 herdr\n"), "", Some("#fff"), false, "1,2,3");
    let (report, sent) = play(&mut st, &format!("{TERMINAL}t2 herdr\n"), "", Some("#fff"), true, "");
    assert!(report.is_empty() && sent.is_empty());
    assert!(st.original.has("/dev/t1"));
    let (_, sent) = play(&mut st, &format!("{TERMINAL}t2 herdr\n"), "", Some("#fff"), false, "");
    assert_eq!(sent, vec![terminal_set("/dev/t1", "1,2,3")]);
    assert!(!st.original.has("/dev/t1") && !st.current.has("/dev/t1"));
    assert!(st.original.has("/dev/t2"));
}

#[test]
fn a_session_leaves_the_windows_of_others_alone() {
    let mut st = WindowState::new();
    let both = format!("{TERMINAL}t1 herdr\nt2 herdr --session demo\n");
    let (report, _) = play(&mut st, &both, "demo", Some("#fff"), false, "1,2,3");
    assert_eq!(report, vec!["window /dev/t2: #fff"]);
    let (report, _) = play(&mut st, &both, "", Some("#000"), false, "4,5,6");
    assert_eq!(report, vec!["window /dev/t1: #000"]);
    assert_eq!(st.current.get("/dev/t2").unwrap(), "#fff");
    let none = TERMINAL.to_string();
    let (_, sent) = play(&mut st, &none, "", Some("#000"), false, "");
    assert_eq!(sent, vec![terminal_set("/dev/t1", "4,5,6")]);
    assert!(st.original.has("/dev/t2"));
}

#[test]
fn a_dry_run_only_reports() {
    let ps = format!("{TERMINAL}t1 herdr\n");
    let mut st = WindowState::new();
    let (report, sent) = play(&mut st, &ps, "", Some("#fff"), true, "");
    assert_eq!(report, vec!["window /dev/t1: would tint #fff"]);
    assert!(sent.is_empty() && st.original.len() == 0);
    play(&mut st, &ps, "", Some("#fff"), false, "1,2,3");
    let (report, sent) = play(&mut st, &ps, "", None, true, "");
    assert_eq!(report, vec!["window /dev/t1: would restore"]);
    assert!(sent.is_empty() && st.original.len() == 1);
}

#[test]
fn nothing_happens_without_terminal() {
    let mut st = WindowState::new();
    st.original.insert("/dev/t9".into(), "1,1,1".into());
    let (report, sent) = play(&mut st, "t1 herdr\n", "", Some("#fff"), false, "");
    assert!(report.is_empty() && sent.is_empty());
    assert!(st.original.has("/dev/t9"));
}

#[test]
fn a_tab_in_another_emulator_is_passed_over() {
    let mut st = WindowState::new();
    let (report, sent) = play(&mut st, &format!("{TERMINAL}t1 herdr\n"), "", Some("#fff"), false, "missing");
    assert!(report.is_empty());
    assert_eq!(sent, vec![terminal_get("/dev/t1")]);
    assert_eq!(st.original.len(), 0);
}

#[test]
fn failures_end_a_job() {
    let ps = format!("{TERMINAL}t1 herdr\n");
    let mut st = WindowState::new();
    let mut job = tint_job(&st, &ps, "", Some("blue"), false);
    match apply(&mut st, &mut job, Reply::Nothing) {
        Step::Failed(e) => assert_eq!(e, "window colour \"blue\" is not #rgb/#rrggbb"),
        other => panic!("{other:?}"),
    }
    assert!(matches!(apply(&mut st, &mut job, Reply::Nothing), Step::Finished));
    let mut job = tint_job(&st, &ps, "", Some("#fff"), false);
    assert!(matches!(apply(&mut st, &mut job, Reply::Nothing), Step::Run(_)));
    match apply(&mut st, &mut job, Reply::Failed("osascript: no".into())) {
        Step::Failed(e) => assert_eq!(e, "osascript: no"),
        other => panic!("{other:?}"),
    }
    let mut job = tint_job(&st, &ps, "", Some("#fff"), false);
    apply(&mut st, &mut job, Reply::Nothing);
    assert!(matches!(apply(&mut st, &mut job, Reply::Nothing), Step::Pass));
    assert!(matches!(apply(&mut st, &mut job, text("1,2,3")), Step::Run(_)));
}

#[test]
fn tabs_of_clients_are_put_back_and_others_are_sent_nothing() {
    let mut st = WindowState::new();
    let two = format!("{TERMINAL}t1 herdr\nt2 herdr\n");
    play(&mut st, &two, "", Some("#fff"), false, "1,2,3");
    play(&mut st, &two, "", Some("#000"), false, "9,9,9");
    let three = format!("{TERMINAL}t3 herdr\nt2 herdr\nt4 herdr --session demo\n");
    st.original.insert("/dev/t4".into(), "7,7,7".into());
    st.session.insert("/dev/t4".into(), "demo".into());
    let (report, sent) = play(&mut st, &three, "", None, false, "9,9,9");
    assert_eq!(
        sent,
        vec![terminal_set("/dev/t1", "1,2,3"), terminal_set("/dev/t2", "1,2,3")]
    );
    assert_eq!(report, vec!["window /dev/t2: restored"]);
    assert_eq!(st.original.entries, vec![("/dev/t4".to_string(), "7,7,7".to_string())]);
    assert_eq!(st.current.len(), 0);
}

#[test]
fn a_run_that_fails_has_forgotten_the_stale_tabs() {
    let mut st = WindowState::new();
    play(&mut st, &format!("{TERMINAL}t1 herdr\nt2 herdr\n"), "", Some("#fff"), false, "1,2,3");
    let mut job = tint_job(&st, &format!("{TERMINAL}t2 herdr\n"), "", Some("#000"), false);
    match apply(&mut st, &mut job, Reply::Nothing) {
        Step::Try(s) => assert_eq!(s, terminal_set("/dev/t1", "1,2,3")),
        other => panic!("{other:?}"),
    }
    assert!(matches!(apply(&mut st, &mut job, Reply::Nothing), Step::Run(_)));
    assert!(matches!(apply(&mut st, &mut job, Reply::Failed("x".into())), Step::Failed(_)));
    assert_eq!(st.original.entries, vec![("/dev/t2".to_string(), "1,2,3".to_string())]);
    assert_eq!(st.current.entries, vec![("/dev/t2".to_string(), "#fff".to_string())]);
}

#[test]
fn restoring_everything() {
    let mut st = WindowState::new();
    play(&mut st, &format!("{TERMINAL}t2 herdr\nt1 herdr\n"), "", Some("#fff"), false, "1,2,3");
    let tabs = restore_all(&mut st);
    assert_eq!(
        tabs,
        vec![
            ("/dev/t1".to_string(), "1,2,3".to_string()),
            ("/dev/t2".to_string(), "1,2,3".to_string())
        ]
    );
    assert_eq!(st.original.len() + st.current.len() + st.session.len(), 0);
    assert_eq!(restore_report("/dev/t1", &text("ok")), "window /dev/t1: restored");
    assert_eq!(
        restore_report("/dev/t1", &text("missing")),
        "window /dev/t1: tab gone, nothing to restore"
    );
    assert_eq!(
        restore_report("/dev/t1", &Reply::Failed("x".into())),
        "window /dev/t1: restore failed: x"
    );
}
