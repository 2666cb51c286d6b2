//! The command line: its arguments, its help, and the shell hook.
use crate::text::{
    cat, cat3, cat4, cat5, contains, debug_text, decimal, ends_with, holds_part, lemma_texts_push,
    number, opt_owned, opt_str, opt_text, quoted, same, stands_at, texts,
};
use vstd::prelude::*;

verus! {

/// The arguments of a call.
pub struct Args {
    pub cmd: String,
    pub positional: Vec<String>,
    pub dry_run: bool,
    pub write: bool,
    pub reset: bool,
    pub pane: Option<String>,
}

/// What an [`Args`] holds.
pub struct ArgsView {
    pub cmd: Seq<char>,
    pub positional: Seq<Seq<char>>,
    pub dry_run: bool,
    pub write: bool,
    pub reset: bool,
    pub pane: Option<Seq<char>>,
}

impl Args {
    pub open spec fn view(&self) -> ArgsView {
        ArgsView {
            cmd: self.cmd@,
            positional: texts(self.positional@),
            dry_run: self.dry_run,
            write: self.write,
            reset: self.reset,
            pane: opt_text(self.pane),
        }
    }
}

/// The arguments with those that follow taken in. `current` is the pane that the
/// call was made in.
pub open spec fn taken_in(
    a: ArgsView,
    rest: Seq<Seq<char>>,
    current: Option<Seq<char>>,
) -> ArgsView
    decreases rest.len(),
{
    if rest.len() == 0 {
        a
    } else if rest[0] == "--dry-run"@ {
        taken_in(ArgsView { dry_run: true, ..a }, rest.skip(1), current)
    } else if rest[0] == "--write"@ {
        taken_in(ArgsView { write: true, ..a }, rest.skip(1), current)
    } else if rest[0] == "--reset"@ {
        taken_in(ArgsView { reset: true, ..a }, rest.skip(1), current)
    } else if rest[0] == "--pane"@ {
        if rest.len() > 1 {
            taken_in(ArgsView { pane: Some(rest[1]), ..a }, rest.skip(2), current)
        } else {
            ArgsView { pane: None, ..a }
        }
    } else if rest[0] == "--current"@ {
        taken_in(ArgsView { pane: current, ..a }, rest.skip(1), current)
    } else if a.cmd.len() == 0 {
        taken_in(ArgsView { cmd: rest[0], ..a }, rest.skip(1), current)
    } else {
        taken_in(
            ArgsView { positional: a.positional.push(rest[0]), ..a },
            rest.skip(1),
            current,
        )
    }
}

/// What a call says. Without a command it is `apply`.
pub open spec fn args_of(args: Seq<Seq<char>>, current: Option<Seq<char>>) -> ArgsView {
    let a = taken_in(
        ArgsView {
            cmd: seq![],
            positional: seq![],
            dry_run: false,
            write: false,
            reset: false,
            pane: None,
        },
        args,
        current,
    );
    if a.cmd.len() == 0 {
        ArgsView { cmd: "apply"@, ..a }
    } else {
        a
    }
}

/// Reads the arguments of a call. `current` is the pane that the call was made
/// in.
pub fn parse_args(args: &Vec<String>, current: Option<&str>) -> (r: Args)
    ensures
        r@ == args_of(texts(args@), opt_str(current)),
{
    broadcast use lemma_texts_push;

    let mut a = Args {
        cmd: String::new(),
        positional: Vec::new(),
        dry_run: false,
        write: false,
        reset: false,
        pane: None,
    };
    let ghost all = texts(args@);
    let ghost cur = opt_str(current);
    let ghost start = a@;
    proof {
        assert(a@.cmd =~= seq![]);
        assert(a@.positional =~= seq![]);
        assert(all.skip(0) =~= all);
    }
    let mut i: usize = 0;
    while i < args.len()
        invariant
            all == texts(args@),
            cur == opt_str(current),
            i <= args@.len(),
            taken_in(a@, all.skip(i as int), cur) == taken_in(start, all, cur),
        decreases args@.len() - i,
    {
        let x = args[i].as_str();
        proof {
            let rest = all.skip(i as int);
            assert(rest[0] == x@);
            assert(rest.skip(1) =~= all.skip(i + 1));
            if i + 1 < args@.len() {
                assert(rest[1] == args@[i + 1]@);
                assert(rest.skip(2) =~= all.skip(i + 2));
            }
        }
        let ghost earlier = a@;
        if same(x, "--dry-run") {
            a.dry_run = true;
        } else if same(x, "--write") {
            a.write = true;
        } else if same(x, "--reset") {
            a.reset = true;
        } else if same(x, "--pane") {
            if args.len() - i > 1 {
                a.pane = Some(args[i + 1].clone());
                i += 1;
            } else {
                a.pane = None;
            }
        } else if same(x, "--current") {
            a.pane = opt_owned(current);
        } else if a.cmd.as_str().is_empty() {
            a.cmd = x.to_owned();
        } else {
            a.positional.push(x.to_owned());
            assert(a@.positional =~= earlier.positional.push(x@));
        }
        i += 1;
    }
    assert(all.skip(i as int) =~= seq![]);
    if a.cmd.as_str().is_empty() {
        a.cmd = "apply".to_owned();
    }
    a
}

/// The commands.
#[derive(Clone, Copy, Debug, PartialEq, Eq, Structural)]
pub enum Command {
    Apply,
    Sweep,
    Clear,
    Status,
    Validate,
    Palettes,
    SetRule,
    UnsetRule,
    SetAgent,
    UnsetAgent,
    Focus,
    Osc,
    InstallCli,
    ShellHook,
    Help,
    Unknown,
}

/// The command of a name.
pub open spec fn command_of(name: Seq<char>) -> Command {
    if name == "apply"@ {
        Command::Apply
    } else if name == "sweep"@ {
        Command::Sweep
    } else if name == "clear"@ {
        Command::Clear
    } else if name == "status"@ {
        Command::Status
    } else if name == "validate"@ {
        Command::Validate
    } else if name == "palettes"@ {
        Command::Palettes
    } else if name == "set"@ {
        Command::SetRule
    } else if name == "unset"@ {
        Command::UnsetRule
    } else if name == "set-agent"@ {
        Command::SetAgent
    } else if name == "unset-agent"@ {
        Command::UnsetAgent
    } else if name == "focus"@ {
        Command::Focus
    } else if name == "osc"@ {
        Command::Osc
    } else if name == "install-cli"@ {
        Command::InstallCli
    } else if name == "shell-hook"@ {
        Command::ShellHook
    } else if name == "help"@ || name == "-h"@ || name == "--help"@ {
        Command::Help
    } else {
        Command::Unknown
    }
}

/// The command of a name.
pub fn command(name: &str) -> (r: Command)
    ensures
        r == command_of(name@),
{
    if same(name, "apply") {
        Command::Apply
    } else if same(name, "sweep") {
        Command::Sweep
    } else if same(name, "clear") {
        Command::Clear
    } else if same(name, "status") {
        Command::Status
    } else if same(name, "validate") {
        Command::Validate
    } else if same(name, "palettes") {
        Command::Palettes
    } else if same(name, "set") {
        Command::SetRule
    } else if same(name, "unset") {
        Command::UnsetRule
    } else if same(name, "set-agent") {
        Command::SetAgent
    } else if same(name, "unset-agent") {
        Command::UnsetAgent
    } else if same(name, "focus") {
        Command::Focus
    } else if same(name, "osc") {
        Command::Osc
    } else if same(name, "install-cli") {
        Command::InstallCli
    } else if same(name, "shell-hook") {
        Command::ShellHook
    } else if same(name, "help") || same(name, "-h") || same(name, "--help") {
        Command::Help
    } else {
        Command::Unknown
    }
}

/// The help.
pub open spec fn usage_text() -> Seq<char> {
    "herdr-space-colors — the Herdr theme, sidebar rows and panes follow each workspace's colour

Usage:
  herdr-space-colors [apply] [--dry-run]     colour the focused workspace + refresh sidebar tags (default)
  herdr-space-colors sweep   [--dry-run]     refresh sidebar tags only
  herdr-space-colors clear   [--dry-run]     remove everything this plugin wrote
  herdr-space-colors status                  what every workspace and pane gets, and why
  herdr-space-colors validate                check the plugin config and exit
  herdr-space-colors palettes                list palettes

  herdr-space-colors set <label|id|path> <palette>     pin a workspace (persisted rule)
  herdr-space-colors unset <label|path>
  herdr-space-colors set-agent <pane-id|session> <palette>   pin one agent session
  herdr-space-colors unset-agent <pane-id|session>
  herdr-space-colors focus <label|id>                  focus a workspace by label

  herdr-space-colors osc [--pane ID|--current] [--reset]   print the OSC 11 sequence for a pane
  herdr-space-colors install-cli              symlink this tool into ~/.local/bin
  herdr-space-colors shell-hook [--write]     print (or append to ~/.zshrc) the pane-tint hook

Plugin config: $HERDR_PLUGIN_CONFIG_DIR/config.toml  (seeded on first run)
Herdr config:  $HERDR_CONFIG_PATH, else `herdr_config` in the plugin config,
               else ~/.config/herdr/config.toml
Backup:        <herdr config>.space-colors.bak, written once before the first edit
"@
}

/// The help.
pub fn usage() -> (r: String)
    ensures
        r@ == usage_text(),
{
    "herdr-space-colors — the Herdr theme, sidebar rows and panes follow each workspace's colour

Usage:
  herdr-space-colors [apply] [--dry-run]     colour the focused workspace + refresh sidebar tags (default)
  herdr-space-colors sweep   [--dry-run]     refresh sidebar tags only
  herdr-space-colors clear   [--dry-run]     remove everything this plugin wrote
  herdr-space-colors status                  what every workspace and pane gets, and why
  herdr-space-colors validate                check the plugin config and exit
  herdr-space-colors palettes                list palettes

  herdr-space-colors set <label|id|path> <palette>     pin a workspace (persisted rule)
  herdr-space-colors unset <label|path>
  herdr-space-colors set-agent <pane-id|session> <palette>   pin one agent session
  herdr-space-colors unset-agent <pane-id|session>
  herdr-space-colors focus <label|id>                  focus a workspace by label

  herdr-space-colors osc [--pane ID|--current] [--reset]   print the OSC 11 sequence for a pane
  herdr-space-colors install-cli              symlink this tool into ~/.local/bin
  herdr-space-colors shell-hook [--write]     print (or append to ~/.zshrc) the pane-tint hook

Plugin config: $HERDR_PLUGIN_CONFIG_DIR/config.toml  (seeded on first run)
Herdr config:  $HERDR_CONFIG_PATH, else `herdr_config` in the plugin config,
               else ~/.config/herdr/config.toml
Backup:        <herdr config>.space-colors.bak, written once before the first edit
".to_owned()
}

/// The message for a command that there is not.
pub fn unknown_command(name: &str) -> (r: String)
    ensures
        r@ == "unknown command `"@ + name@ + "`\n\n"@ + usage_text(),
{
    cat4("unknown command `", name, "`\n\n", usage().as_str())
}

/// The line that begins the shell hook, by which it is found again.
pub const HOOK_MARKER: &'static str = "# herdr-space-colors shell hook";

/// The shell hook: each pane tints itself when its shell starts.
pub open spec fn hook_text() -> Seq<char> {
    HOOK_MARKER@
        + ": tint this pane to its workspace colour\nif [ -n \"$HERDR_PANE_ID\" ] && [ -t 1 ] && command -v herdr-space-colors >/dev/null 2>&1; then\n  herdr-space-colors osc\nfi\n"@
}

/// The shell hook: each pane tints itself when its shell starts. It does nothing
/// outside a pane, without a terminal, or where the tool is not installed.
pub fn shell_hook_snippet() -> (r: String)
    ensures
        r@ == hook_text(),
{
    cat(
        HOOK_MARKER,
        ": tint this pane to its workspace colour\nif [ -n \"$HERDR_PANE_ID\" ] && [ -t 1 ] && command -v herdr-space-colors >/dev/null 2>&1; then\n  herdr-space-colors osc\nfi\n",
    )
}

/// A shell's start file with the hook at its end, after a blank line; `None`
/// where it has the hook.
pub open spec fn with_hook(existing: Seq<char>) -> Option<Seq<char>> {
    if holds_part(existing, HOOK_MARKER@) {
        None
    } else if existing.len() > 0 && existing.last() != '\n' {
        Some(existing + "\n"@ + "\n"@ + hook_text())
    } else {
        Some(existing + "\n"@ + hook_text())
    }
}

/// A shell's start file with the hook at its end; `None` where it has the hook.
pub fn add_hook(existing: &str) -> (r: Option<String>)
    ensures
        opt_text(r) == with_hook(existing@),
{
    if contains(existing, HOOK_MARKER) {
        return None;
    }
    proof {
        reveal_strlit("\n");
        assert("\n"@ =~= seq!['\n']);
        if existing@.len() > 0 {
            let end = existing@.skip(existing@.len() - 1);
            assert(end =~= seq![existing@.last()]);
            assert(end == "\n"@ <==> existing@.last() == '\n') by {
                if end == "\n"@ {
                    assert(end[0] == "\n"@[0]);
                }
            }
        }
    }
    let hook = shell_hook_snippet();
    if !existing.is_empty() && !ends_with(existing, "\n") {
        Some(cat4(existing, "\n", "\n", hook.as_str()))
    } else {
        Some(cat3(existing, "\n", hook.as_str()))
    }
}

/// The hook is added once: a file that it was added to is left alone.
pub proof fn law_hook_is_added_once(existing: Seq<char>)
    ensures
        match with_hook(existing) {
            Some(updated) => with_hook(updated) is None,
            None => true,
        },
{
    match with_hook(existing) {
        Some(updated) => {
            let at = updated.len() - hook_text().len();
            assert(updated.subrange(at, at + HOOK_MARKER@.len()) =~= HOOK_MARKER@);
            assert(stands_at(updated, HOOK_MARKER@, at));
        },
        None => {},
    }
}

// --- lines for the user ----------------------------------------------------------

/// The line for a workspace rule that was saved.
pub fn rule_saved(field: &str, key: &str, palette: &str) -> (r: String)
    ensures
        r@ == "rule saved: "@ + field@ + " "@ + debug_text(key@) + " → "@ + palette@,
{
    let mut out = cat5("rule saved: ", field, " ", quoted(key).as_str(), " → ");
    out.append(palette);
    out
}

/// The line for workspace rules that were removed.
pub fn rules_removed_line(n: usize, target: &str) -> (r: String)
    ensures
        r@ == "removed "@ + decimal(n as nat) + " rule(s) for "@ + debug_text(target@),
{
    cat4("removed ", number(n as u64).as_str(), " rule(s) for ", quoted(target).as_str())
}

/// The line for an agent rule that was saved.
pub fn agent_rule_saved(session: &str, palette: &str) -> (r: String)
    ensures
        r@ == "agent rule saved: "@ + session@ + " → "@ + palette@,
{
    cat4("agent rule saved: ", session, " → ", palette)
}

/// The line for agent rules that were removed.
pub fn agent_rules_removed(n: usize) -> (r: String)
    ensures
        r@ == "removed "@ + decimal(n as nat) + " agent rule(s)"@,
{
    cat3("removed ", number(n as u64).as_str(), " agent rule(s)")
}

/// The line for a workspace that was focused.
pub fn focused_line(label: &str, id: &str) -> (r: String)
    ensures
        r@ == "focused "@ + label@ + " ("@ + id@ + ")"@,
{
    cat5("focused ", label, " (", id, ")")
}

} // verus!
