//! What a call of the command line tool says, in whatever order it says it.
use crate::cli::{
    args_of, command_of, hook_text, taken_in, with_hook, ArgsView, Command, HOOK_MARKER,
};
use crate::text::{begins, ends, holds_part, stands_at};
use vstd::prelude::*;

verus! {

/// Whether a word of a call is one of the switches that stand for themselves.
pub open spec fn is_switch(word: Seq<char>) -> bool {
    word == "--dry-run"@ || word == "--write"@ || word == "--reset"@ || word == "--current"@
}

/// The words of a call that are no switches.
pub open spec fn plain_words(args: Seq<Seq<char>>) -> Seq<Seq<char>> {
    args.filter(|w: Seq<char>| !is_switch(w))
}

proof fn lemma_switches_differ()
    ensures
        "--dry-run"@ != "--write"@,
        "--dry-run"@ != "--reset"@,
        "--dry-run"@ != "--current"@,
        "--dry-run"@ != "--pane"@,
        "--write"@ != "--reset"@,
        "--write"@ != "--current"@,
        "--write"@ != "--pane"@,
        "--reset"@ != "--current"@,
        "--reset"@ != "--pane"@,
        "--current"@ != "--pane"@,
{
    reveal_strlit("--dry-run");
    reveal_strlit("--write");
    reveal_strlit("--reset");
    reveal_strlit("--current");
    reveal_strlit("--pane");
    assert("--dry-run"@[2] == 'd' && "--write"@[2] == 'w' && "--reset"@[2] == 'r'
        && "--current"@[2] == 'c' && "--pane"@[2] == 'p');
}

proof fn lemma_filter_front(args: Seq<Seq<char>>)
    requires
        args.len() > 0,
    ensures
        plain_words(args) == (if is_switch(args[0]) {
            plain_words(args.skip(1))
        } else {
            seq![args[0]] + plain_words(args.skip(1))
        }),
    decreases args.len(),
{
    let f = |w: Seq<char>| !is_switch(w);
    reveal(Seq::filter);
    let rest = args.skip(1);
    if args.len() == 1 {
        assert(args.drop_last() =~= seq![]);
        assert(rest =~= seq![]);
        assert(plain_words(args) =~= (if is_switch(args[0]) {
            plain_words(rest)
        } else {
            seq![args[0]] + plain_words(rest)
        }));
    } else {
        let front = args.drop_last();
        lemma_filter_front(front);
        assert(front.skip(1) =~= rest.drop_last());
        assert(front[0] == args[0]);
        assert(rest.last() == args.last());
        assert(plain_words(args) =~= (if is_switch(args[0]) {
            plain_words(rest)
        } else {
            seq![args[0]] + plain_words(rest)
        }));
    }
}

proof fn lemma_taken(a: ArgsView, rest: Seq<Seq<char>>, current: Option<Seq<char>>)
    requires
        forall|i: int| 0 <= i < rest.len() ==> (#[trigger] rest[i]).len() > 0,
        !rest.contains("--pane"@),
    ensures
        ({
            let r = taken_in(a, rest, current);
            let words = plain_words(rest);
            &&& r.dry_run <==> a.dry_run || rest.contains("--dry-run"@)
            &&& r.write <==> a.write || rest.contains("--write"@)
            &&& r.reset <==> a.reset || rest.contains("--reset"@)
            &&& rest.contains("--current"@) ==> r.pane == current
            &&& !rest.contains("--current"@) ==> r.pane == a.pane
            &&& a.cmd.len() > 0 ==> r.cmd == a.cmd && r.positional == a.positional + words
            &&& a.cmd.len() == 0 && words.len() > 0 ==> r.cmd == words[0] && r.positional
                == a.positional + words.skip(1)
            &&& a.cmd.len() == 0 && words.len() == 0 ==> r.cmd == a.cmd && r.positional
                == a.positional
        }),
    decreases rest.len(),
{
    lemma_switches_differ();
    let words = plain_words(rest);
    if rest.len() == 0 {
        reveal(Seq::filter);
        assert(words =~= seq![]);
        assert(a.positional + words =~= a.positional);
    } else {
        let tail = rest.skip(1);
        let w = rest[0];
        assert(rest.contains(w));
        lemma_filter_front(rest);
        assert forall|i: int| 0 <= i < tail.len() implies (#[trigger] tail[i]).len() > 0 by {
            assert(tail[i] == rest[i + 1]);
        }
        lemma_contains_front(rest, "--pane"@);
        lemma_contains_front(rest, "--dry-run"@);
        lemma_contains_front(rest, "--write"@);
        lemma_contains_front(rest, "--reset"@);
        lemma_contains_front(rest, "--current"@);
        let next = if w == "--dry-run"@ {
            ArgsView { dry_run: true, ..a }
        } else if w == "--write"@ {
            ArgsView { write: true, ..a }
        } else if w == "--reset"@ {
            ArgsView { reset: true, ..a }
        } else if w == "--current"@ {
            ArgsView { pane: current, ..a }
        } else if a.cmd.len() == 0 {
            ArgsView { cmd: w, ..a }
        } else {
            ArgsView { positional: a.positional.push(w), ..a }
        };
        assert(taken_in(a, rest, current) == taken_in(next, tail, current));
        lemma_taken(next, tail, current);
        let others = plain_words(tail);
        if !is_switch(w) {
            assert(words =~= seq![w] + others);
            assert(words.skip(1) =~= others);
            if a.cmd.len() > 0 {
                assert(a.positional.push(w) + others =~= a.positional + words);
            } else {
                assert(w.len() > 0);
            }
        }
    }
}

proof fn lemma_contains_front(v: Seq<Seq<char>>, x: Seq<char>)
    requires
        v.len() > 0,
    ensures
        v.contains(x) <==> v[0] == x || v.skip(1).contains(x),
{
    if v.contains(x) {
        let i = choose|i: int| 0 <= i < v.len() && v[i] == x;
        if i > 0 {
            assert(v.skip(1)[i - 1] == x);
        }
    }
    if v.skip(1).contains(x) {
        let i = choose|i: int| 0 <= i < v.skip(1).len() && v.skip(1)[i] == x;
        assert(v[i + 1] == x);
    }
}

/// A switch counts wherever it stands, and each for itself; of the other words the
/// first is the command and the rest are its arguments, in their order. Without a
/// command it is `apply`. `--current` stands for the pane of the call.
pub proof fn law_switches_stand_anywhere(args: Seq<Seq<char>>, current: Option<Seq<char>>)
    requires
        forall|i: int| 0 <= i < args.len() ==> (#[trigger] args[i]).len() > 0,
        !args.contains("--pane"@),
    ensures
        ({
            let r = args_of(args, current);
            let words = plain_words(args);
            &&& r.dry_run <==> args.contains("--dry-run"@)
            &&& r.write <==> args.contains("--write"@)
            &&& r.reset <==> args.contains("--reset"@)
            &&& args.contains("--current"@) ==> r.pane == current
            &&& !args.contains("--current"@) ==> r.pane is None
            &&& words.len() > 0 ==> r.cmd == words[0] && r.positional == words.skip(1)
            &&& words.len() == 0 ==> r.cmd == "apply"@ && r.positional.len() == 0
        }),
{
    let start = ArgsView {
        cmd: seq![],
        positional: seq![],
        dry_run: false,
        write: false,
        reset: false,
        pane: None,
    };
    lemma_taken(start, args, current);
    let words = plain_words(args);
    if words.len() > 0 {
        assert(start.positional + words.skip(1) =~= words.skip(1));
        lemma_plain_words_from(args, 0);
    }
}

proof fn lemma_plain_words_from(args: Seq<Seq<char>>, i: int)
    requires
        0 <= i < plain_words(args).len(),
        forall|j: int| 0 <= j < args.len() ==> (#[trigger] args[j]).len() > 0,
    ensures
        plain_words(args)[i].len() > 0,
    decreases args.len(),
{
    if args.len() == 0 {
        reveal(Seq::filter);
    } else {
        lemma_filter_front(args);
        let tail = args.skip(1);
        assert forall|j: int| 0 <= j < tail.len() implies (#[trigger] tail[j]).len() > 0 by {
            assert(tail[j] == args[j + 1]);
        }
        if is_switch(args[0]) {
            lemma_plain_words_from(tail, i);
        } else if i > 0 {
            lemma_plain_words_from(tail, i - 1);
        }
    }
}

proof fn lemma_pane_taken(
    a: ArgsView,
    front: Seq<Seq<char>>,
    id: Seq<char>,
    after: Seq<Seq<char>>,
    current: Option<Seq<char>>,
)
    requires
        !front.contains("--pane"@),
    ensures
        taken_in(a, front + seq!["--pane"@, id] + after, current) == taken_in(
            ArgsView { pane: Some(id), ..taken_in(a, front, current) },
            after,
            current,
        ),
    decreases front.len(),
{
    lemma_switches_differ();
    let all = front + seq!["--pane"@, id] + after;
    if front.len() == 0 {
        assert(all[0] == "--pane"@ && all[1] == id);
        assert(all.skip(2) =~= after);
    } else {
        let tail = front.skip(1);
        let w = front[0];
        assert(front.contains(w));
        lemma_contains_front(front, "--pane"@);
        assert(all[0] == w);
        assert(all.skip(1) =~= tail + seq!["--pane"@, id] + after);
        let next = if w == "--dry-run"@ {
            ArgsView { dry_run: true, ..a }
        } else if w == "--write"@ {
            ArgsView { write: true, ..a }
        } else if w == "--reset"@ {
            ArgsView { reset: true, ..a }
        } else if w == "--current"@ {
            ArgsView { pane: current, ..a }
        } else if a.cmd.len() == 0 {
            ArgsView { cmd: w, ..a }
        } else {
            ArgsView { positional: a.positional.push(w), ..a }
        };
        lemma_pane_taken(next, tail, id, after, current);
    }
}

proof fn lemma_pane_only(
    a: ArgsView,
    pane: Option<Seq<char>>,
    rest: Seq<Seq<char>>,
    current: Option<Seq<char>>,
)
    requires
        !rest.contains("--pane"@),
        !rest.contains("--current"@),
    ensures
        taken_in(ArgsView { pane, ..a }, rest, current) == (ArgsView {
            pane,
            ..taken_in(a, rest, current)
        }),
    decreases rest.len(),
{
    if rest.len() > 0 {
        let w = rest[0];
        let tail = rest.skip(1);
        assert(rest.contains(w));
        lemma_contains_front(rest, "--pane"@);
        lemma_contains_front(rest, "--current"@);
        let next = if w == "--dry-run"@ {
            ArgsView { dry_run: true, ..a }
        } else if w == "--write"@ {
            ArgsView { write: true, ..a }
        } else if w == "--reset"@ {
            ArgsView { reset: true, ..a }
        } else if a.cmd.len() == 0 {
            ArgsView { cmd: w, ..a }
        } else {
            ArgsView { positional: a.positional.push(w), ..a }
        };
        lemma_pane_only(next, pane, tail, current);
    }
}

proof fn lemma_taken_twice(
    a: ArgsView,
    front: Seq<Seq<char>>,
    after: Seq<Seq<char>>,
    current: Option<Seq<char>>,
)
    requires
        !front.contains("--pane"@),
    ensures
        taken_in(a, front + after, current) == taken_in(
            taken_in(a, front, current),
            after,
            current,
        ),
    decreases front.len(),
{
    let all = front + after;
    if front.len() == 0 {
        assert(all =~= after);
    } else {
        let tail = front.skip(1);
        let w = front[0];
        assert(front.contains(w));
        lemma_contains_front(front, "--pane"@);
        assert(all[0] == w);
        assert(all.skip(1) =~= tail + after);
        let next = if w == "--dry-run"@ {
            ArgsView { dry_run: true, ..a }
        } else if w == "--write"@ {
            ArgsView { write: true, ..a }
        } else if w == "--reset"@ {
            ArgsView { reset: true, ..a }
        } else if w == "--current"@ {
            ArgsView { pane: current, ..a }
        } else if a.cmd.len() == 0 {
            ArgsView { cmd: w, ..a }
        } else {
            ArgsView { positional: a.positional.push(w), ..a }
        };
        lemma_taken_twice(next, tail, after, current);
    }
}

/// The word after `--pane` is the pane, whatever it looks like, and the call says
/// all else as it would without the two.
pub proof fn law_pane_takes_one_word(
    front: Seq<Seq<char>>,
    id: Seq<char>,
    after: Seq<Seq<char>>,
    current: Option<Seq<char>>,
)
    requires
        !front.contains("--pane"@),
        !after.contains("--pane"@),
        !after.contains("--current"@),
    ensures
        args_of(front + seq!["--pane"@, id] + after, current) == (ArgsView {
            pane: Some(id),
            ..args_of(front + after, current)
        }),
{
    let start = ArgsView {
        cmd: seq![],
        positional: seq![],
        dry_run: false,
        write: false,
        reset: false,
        pane: None,
    };
    lemma_pane_taken(start, front, id, after, current);
    lemma_taken_twice(start, front, after, current);
    lemma_pane_only(taken_in(start, front, current), Some(id), after, current);
}

/// Each command has its own name, `help` three of them, and nothing else is one.
pub proof fn law_commands_have_names(name: Seq<char>)
    ensures
        command_of(name) == Command::Apply <==> name == "apply"@,
        command_of(name) == Command::Sweep <==> name == "sweep"@,
        command_of(name) == Command::Clear <==> name == "clear"@,
        command_of(name) == Command::Status <==> name == "status"@,
        command_of(name) == Command::Validate <==> name == "validate"@,
        command_of(name) == Command::Palettes <==> name == "palettes"@,
        command_of(name) == Command::SetRule <==> name == "set"@,
        command_of(name) == Command::UnsetRule <==> name == "unset"@,
        command_of(name) == Command::SetAgent <==> name == "set-agent"@,
        command_of(name) == Command::UnsetAgent <==> name == "unset-agent"@,
        command_of(name) == Command::Focus <==> name == "focus"@,
        command_of(name) == Command::Osc <==> name == "osc"@,
        command_of(name) == Command::InstallCli <==> name == "install-cli"@,
        command_of(name) == Command::ShellHook <==> name == "shell-hook"@,
        command_of(name) == Command::Help <==> name == "help"@ || name == "-h"@ || name
            == "--help"@,
{
    reveal_strlit("apply");
    reveal_strlit("sweep");
    reveal_strlit("clear");
    reveal_strlit("status");
    reveal_strlit("validate");
    reveal_strlit("palettes");
    reveal_strlit("set");
    reveal_strlit("unset");
    reveal_strlit("set-agent");
    reveal_strlit("unset-agent");
    reveal_strlit("focus");
    reveal_strlit("osc");
    reveal_strlit("install-cli");
    reveal_strlit("shell-hook");
    reveal_strlit("help");
    reveal_strlit("-h");
    reveal_strlit("--help");
    assert("apply"@.len() == 5 && "sweep"@.len() == 5 && "clear"@.len() == 5 && "unset"@.len() == 5
        && "focus"@.len() == 5);
    assert("apply"@[0] == 'a' && "sweep"@[0] == 's' && "clear"@[0] == 'c' && "unset"@[0] == 'u'
        && "focus"@[0] == 'f');
    assert("status"@.len() == 6 && "--help"@.len() == 6 && "status"@[0] == 's' && "--help"@[0]
        == '-');
    assert("validate"@.len() == 8 && "palettes"@.len() == 8 && "validate"@[0] == 'v'
        && "palettes"@[0] == 'p');
    assert("set"@.len() == 3 && "osc"@.len() == 3 && "set"@[0] == 's' && "osc"@[0] == 'o');
    assert("set-agent"@.len() == 9 && "unset-agent"@.len() == 11 && "install-cli"@.len() == 11
        && "unset-agent"@[0] == 'u' && "install-cli"@[0] == 'i');
    assert("shell-hook"@.len() == 10 && "help"@.len() == 4 && "-h"@.len() == 2);
}

/// The hook begins with the line by which it is found again, and lets a pane tint
/// itself.
pub proof fn law_hook_tints_the_pane()
    ensures
        begins(hook_text(), "# herdr-space-colors shell hook"@),
        ends(hook_text(), "; then\n  herdr-space-colors osc\nfi\n"@),
        holds_part(hook_text(), "[ -n \"$HERDR_PANE_ID\" ] && [ -t 1 ]"@),
{
    reveal_strlit("# herdr-space-colors shell hook");
    reveal_strlit("; then\n  herdr-space-colors osc\nfi\n");
    reveal_strlit("[ -n \"$HERDR_PANE_ID\" ] && [ -t 1 ]");
    reveal_strlit(
        ": tint this pane to its workspace colour\nif [ -n \"$HERDR_PANE_ID\" ] && [ -t 1 ] && command -v herdr-space-colors >/dev/null 2>&1; then\n  herdr-space-colors osc\nfi\n",
    );
    let body =
        ": tint this pane to its workspace colour\nif [ -n \"$HERDR_PANE_ID\" ] && [ -t 1 ] && command -v herdr-space-colors >/dev/null 2>&1; then\n  herdr-space-colors osc\nfi\n"@;
    let h = hook_text();
    let m = HOOK_MARKER@;
    assert(h == m + body);
    assert(h.take(m.len() as int) =~= m);
    let tail = "; then\n  herdr-space-colors osc\nfi\n"@;
    assert(h.skip(h.len() - tail.len()) =~= tail);
    let test = "[ -n \"$HERDR_PANE_ID\" ] && [ -t 1 ]"@;
    let at: int = m.len() as int + 44;
    assert(h.subrange(at, at + test.len()) =~= test);
    assert(stands_at(h, test, at));
}

/// The hook is put at the end of the file, behind a blank line, and all that was in
/// the file stays before it; a file that has it anywhere stays as it is.
pub proof fn law_hook_is_put_at_the_end(existing: Seq<char>)
    ensures
        with_hook(existing) is None <==> holds_part(existing, HOOK_MARKER@),
        !holds_part(existing, HOOK_MARKER@) && (existing.len() == 0 || existing.last() == '\n')
            ==> with_hook(existing) == Some(existing + seq!['\n'] + hook_text()),
        !holds_part(existing, HOOK_MARKER@) && existing.len() > 0 && existing.last() != '\n'
            ==> with_hook(existing) == Some(existing + seq!['\n', '\n'] + hook_text()),
{
    reveal_strlit("\n");
    assert("\n"@ =~= seq!['\n']);
    assert(existing + "\n"@ + "\n"@ + hook_text() =~= existing + seq!['\n', '\n'] + hook_text());
}

/// A `--pane` with no word after it names no pane.
pub proof fn law_pane_without_a_word(front: Seq<Seq<char>>, current: Option<Seq<char>>)
    requires
        !front.contains("--pane"@),
    ensures
        args_of(front + seq!["--pane"@], current) == (ArgsView {
            pane: None,
            ..args_of(front, current)
        }),
{
    lemma_switches_differ();
    let start = ArgsView {
        cmd: seq![],
        positional: seq![],
        dry_run: false,
        write: false,
        reset: false,
        pane: None,
    };
    let last = seq!["--pane"@];
    lemma_taken_twice(start, front, last, current);
    assert(last[0] == "--pane"@ && last.len() == 1);
}

} // verus!
