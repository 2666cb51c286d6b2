//! What holds of the tint of the window: which tabs it is about, what is sent to
//! them, and what is remembered of them.
use crate::keymap::{lookup, text_map, KeyMap};
use crate::palette::{hex_colour, hex_digit};
use crate::paths_laws::lemma_pieces_last;
use crate::text::{begins, debug_text, decimal, holds_part, lines_of, pieces, words_of};
use crate::text_laws::law_parts_of_a_text;
use crate::window::{
    ask_script, client_tty, hex_value, job_of, owner_of, restored_line, session_of, set_script,
    shows_terminal, stale_of, tab_pairs, tint_step, triple_of, ttys_of, JobView, ReplyView,
    StepView, WindowView,
};
use vstd::prelude::*;

verus! {

// --- who is there ----------------------------------------------------------------

/// A line of `ps` shows a client of Herdr where its second word is `herdr`, by
/// itself or behind a path, the word after it is not `server`, and its first word
/// names a terminal; that terminal is then a device of that name.
pub proof fn law_which_lines_show_clients(line: Seq<char>, dir: Seq<char>, name: Seq<char>)
    requires
        words_of(line).len() >= 2,
        !name.contains('/'),
        words_of(line)[1] == name || words_of(line)[1] == dir + seq!['/'] + name,
    ensures
        ({
            let w = words_of(line);
            let client = name == "herdr"@ && w[0] != "?"@ && w[0] != "??"@ && !(w.len() > 2 && w[2]
                == "server"@);
            &&& client ==> client_tty(line, None) == Some("/dev/"@ + w[0])
            &&& !client ==> client_tty(line, None) is None
        }),
{
    lemma_pieces_last(dir, name, '/');
    assert(seq![name].last() == name);
    assert(pieces(dir, '/').push(name).last() == name);
}

/// A line with fewer than two words shows no client.
pub proof fn law_short_lines_show_none(line: Seq<char>, session: Option<Seq<char>>)
    requires
        words_of(line).len() < 2,
    ensures
        client_tty(line, session) is None,
{
}

/// A client belongs to the session that its arguments name; where a session is asked
/// for, the clients of the others are not shown, and nothing else changes.
pub proof fn law_clients_of_a_session(line: Seq<char>, session: Seq<char>)
    ensures
        client_tty(line, None) is None ==> client_tty(line, Some(session)) is None,
        client_tty(line, None) is Some ==> client_tty(line, Some(session)) == (if session_of(
            words_of(line).skip(2),
        ) == session {
            client_tty(line, None)
        } else {
            None
        }),
{
}

/// The session of a client: the argument after the first `--session`, or what stands
/// behind the equals sign where it is written as one word; the default session, with
/// an empty name, where neither is there.
pub proof fn law_session_of_arguments(
    before: Seq<Seq<char>>,
    name: Seq<char>,
    after: Seq<Seq<char>>,
)
    requires
        forall|i: int|
            0 <= i < before.len() ==> (#[trigger] before[i]) != "--session"@ && !begins(
                before[i],
                "--session="@,
            ),
    ensures
        session_of(before + seq!["--session"@, name] + after) == name,
        session_of(before + seq!["--session="@ + name] + after) == name,
        session_of(before).len() == 0,
    decreases before.len(),
{
    reveal_strlit("--session");
    reveal_strlit("--session=");
    let a = before + seq!["--session"@, name] + after;
    let b = before + seq!["--session="@ + name] + after;
    if before.len() > 0 {
        let rest = before.skip(1);
        assert(before[0] != "--session"@ && !begins(before[0], "--session="@));
        assert forall|i: int| 0 <= i < rest.len() implies (#[trigger] rest[i]) != "--session"@
            && !begins(rest[i], "--session="@) by {
            assert(rest[i] == before[i + 1]);
        }
        law_session_of_arguments(rest, name, after);
        assert(a.skip(1) =~= rest + seq!["--session"@, name] + after);
        assert(b.skip(1) =~= rest + seq!["--session="@ + name] + after);
        assert(a[0] == before[0] && b[0] == before[0]);
    } else {
        assert(a[0] == "--session"@ && a[1] == name);
        let one = "--session="@ + name;
        assert(b[0] == one);
        assert(one.len() >= 10);
        assert("--session"@.len() == 9);
        assert(one != "--session"@);
        law_parts_of_a_text(one, "--session="@);
        assert(one.skip("--session="@.len() as int) =~= name);
    }
}

/// The terminals of clients: every one that a line shows, each once, in the order in
/// which they are first shown.
pub proof fn law_every_client_is_found(
    lines: Seq<Seq<char>>,
    line: Seq<char>,
    session: Option<Seq<char>>,
    tty: Seq<char>,
)
    ensures
        ttys_of(lines, session).no_duplicates(),
        ttys_of(lines, session).contains(tty) <==> exists|i: int|
            0 <= i < lines.len() && client_tty(#[trigger] lines[i], session) == Some(tty),
        client_tty(line, session) == Some(tty) && !ttys_of(lines, session).contains(tty) ==> ttys_of(
            lines.push(line),
            session,
        ) == ttys_of(lines, session).push(tty),
        client_tty(line, session) is None || ttys_of(lines, session).contains(
            client_tty(line, session)->0,
        ) ==> ttys_of(lines.push(line), session) == ttys_of(lines, session),
    decreases lines.len(),
{
    assert(lines.push(line).drop_last() =~= lines);
    assert(lines.push(line).last() == line);
    let got = ttys_of(lines, session);
    if lines.len() > 0 {
        let rest = lines.drop_last();
        law_every_client_is_found(rest, line, session, tty);
        let found = ttys_of(rest, session);
        let last = client_tty(lines.last(), session);
        assert(lines[lines.len() - 1] == lines.last());
        if got.len() > found.len() {
            assert(got == found.push(last->0));
            assert(got[found.len() as int] == last->0);
        }
        if found.contains(tty) {
            let i = choose|i: int| 0 <= i < found.len() && found[i] == tty;
            assert(got[i] == tty);
            let j = choose|j: int|
                0 <= j < rest.len() && client_tty(#[trigger] rest[j], session) == Some(tty);
            assert(lines[j] == rest[j]);
        }
        if exists|i: int|
            0 <= i < lines.len() && client_tty(#[trigger] lines[i], session) == Some(tty) {
            let i = choose|i: int|
                0 <= i < lines.len() && client_tty(#[trigger] lines[i], session) == Some(tty);
            if i < rest.len() {
                assert(rest[i] == lines[i]);
            }
        }
    }
}

/// Apple Terminal runs where some line holds the path of its program.
pub proof fn law_terminal_is_seen(ls: Seq<Seq<char>>)
    ensures
        shows_terminal(ls) <==> exists|i: int, a: Seq<char>, b: Seq<char>|
            0 <= i < ls.len() && #[trigger] ls[i] == #[trigger] (a
                + "/Terminal.app/Contents/MacOS/Terminal"@ + b),
{
    let p = "/Terminal.app/Contents/MacOS/Terminal"@;
    if shows_terminal(ls) {
        let i = choose|i: int| 0 <= i < ls.len() && holds_part(#[trigger] ls[i], p);
        law_parts_of_a_text(ls[i], p);
        let (a, b) = choose|a: Seq<char>, b: Seq<char>| ls[i] == #[trigger] (a + p + b);
        assert(ls[i] == a + p + b);
    }
    if exists|i: int, a: Seq<char>, b: Seq<char>|
        0 <= i < ls.len() && #[trigger] ls[i] == #[trigger] (a + p + b) {
        let (i, a, b) = choose|i: int, a: Seq<char>, b: Seq<char>|
            0 <= i < ls.len() && #[trigger] ls[i] == #[trigger] (a + p + b);
        law_parts_of_a_text(ls[i], p);
        assert(holds_part(ls[i], p));
    }
}

// --- colours ---------------------------------------------------------------------

/// The digits from 0 to 9 and from a to f, in either case, have the values from 0 to
/// 15, and no other character has one.
pub proof fn law_hexadecimal_digits(c: char)
    ensures
        hex_value(c) is Some ==> 0 <= hex_value(c)->0 < 16,
        '0' <= c && c <= '9' ==> hex_value(c) == Some(c as int - 48),
        'a' <= c && c <= 'f' ==> hex_value(c) == Some(c as int - 97 + 10),
        'A' <= c && c <= 'F' ==> hex_value(c) == Some(c as int - 65 + 10),
        !('0' <= c && c <= '9') && !('a' <= c && c <= 'f') && !('A' <= c && c <= 'F') ==> hex_value(
            c,
        ) is None,
{
}

/// A colour of six digits becomes three numbers with commas between them: each
/// channel, the value of its own two digits, stretched from 255 to 65535. A colour of
/// three digits is the one with each digit twice.
pub proof fn law_channels(a: char, b: char, c: char, d: char, e: char, f: char)
    requires
        hex_colour(seq!['#', a, b, c, d, e, f]),
    ensures
        triple_of(seq!['#', a, b, c, d, e, f]) == Some(
            decimal(((hex_value(a)->0 * 16 + hex_value(b)->0) * 65535 / 255) as nat) + seq![',']
                + decimal(((hex_value(c)->0 * 16 + hex_value(d)->0) * 65535 / 255) as nat) + seq![
                ',',
            ] + decimal(((hex_value(e)->0 * 16 + hex_value(f)->0) * 65535 / 255) as nat),
        ),
        triple_of(seq!['#', a, c, e]) == triple_of(seq!['#', a, a, c, c, e, e]),
        triple_of(seq!['#', a, c, e]) is Some,
{
    reveal_strlit(",");
    assert(","@ =~= seq![',']);
    let s = seq!['#', a, b, c, d, e, f];
    assert(s[1] == a && s[2] == b && s[3] == c && s[4] == d && s[5] == e && s[6] == f);
    assert(seq!['#', a, c, e].len() == 4);
    assert(seq!['#', a, a, c, c, e, e].len() == 7);
}

/// What is no colour has no channels.
pub proof fn law_only_colours_have_channels(s: Seq<char>)
    ensures
        triple_of(s) is Some <==> hex_colour(s),
{
    if triple_of(s) is Some {
        assert forall|i: int| 1 <= i < s.len() implies hex_digit(#[trigger] s[i])
            by {
            assert(hex_value(s[i]) is Some);
        }
    }
}

// --- scripts ---------------------------------------------------------------------

/// The script that sets a colour is for the one tab with that terminal and sets that
/// colour; that terminal and that colour are all that differs between two of them.
pub proof fn law_script_sets_the_colour(tty: Seq<char>, triple: Seq<char>)
    ensures
        set_script(tty, triple)
            == "tell application \"Terminal\"\nrepeat with w in windows\nrepeat with t in tabs of w\nif tty of t is \""@
            + tty + "\" then\nset background color of t to {"@ + triple
            + "}\nreturn \"ok\"\nend if\nend repeat\nend repeat\nend tell\nreturn \"missing\""@,
{
    reveal_strlit("\" then\n");
    reveal_strlit("set background color of t to {");
    reveal_strlit("\" then\nset background color of t to {");
    reveal_strlit("}\nreturn \"ok\"");
    reveal_strlit("\nend if\nend repeat\nend repeat\nend tell\nreturn \"missing\"");
    reveal_strlit("}\nreturn \"ok\"\nend if\nend repeat\nend repeat\nend tell\nreturn \"missing\"");
    assert("\" then\nset background color of t to {"@ =~= "\" then\n"@
        + "set background color of t to {"@);
    assert("}\nreturn \"ok\"\nend if\nend repeat\nend repeat\nend tell\nreturn \"missing\""@
        =~= "}\nreturn \"ok\""@
        + "\nend if\nend repeat\nend repeat\nend tell\nreturn \"missing\""@);
    assert(set_script(tty, triple)
        =~= "tell application \"Terminal\"\nrepeat with w in windows\nrepeat with t in tabs of w\nif tty of t is \""@
        + tty + "\" then\nset background color of t to {"@ + triple
        + "}\nreturn \"ok\"\nend if\nend repeat\nend repeat\nend tell\nreturn \"missing\""@);
}

/// The script that asks for a colour is for the one tab with that terminal, and
/// answers the three channels in their order.
pub proof fn law_script_asks_for_the_colour(tty: Seq<char>)
    ensures
        ask_script(tty)
            == "tell application \"Terminal\"\nrepeat with w in windows\nrepeat with t in tabs of w\nif tty of t is \""@
            + tty + "\" then\n"@
            + "set c to background color of t\nreturn (item 1 of c as string) & \",\" & (item 2 of c as string) & \",\" & (item 3 of c as string)"@
            + "\nend if\nend repeat\nend repeat\nend tell\nreturn \"missing\""@,
{
}

// --- a job -----------------------------------------------------------------------

proof fn lemma_stale(
    tinted: Seq<Seq<char>>,
    st: WindowView,
    ttys: Seq<Seq<char>>,
    session: Seq<char>,
)
    ensures
        stale_of(tinted, st, ttys, session) == tinted.filter(
            |t: Seq<char>|
                !ttys.contains(t) && (if st.session.contains_key(t) {
                    st.session[t] == session
                } else {
                    session.len() == 0
                }),
        ),
    decreases tinted.len(),
{
    let own = |t: Seq<char>|
        !ttys.contains(t) && (if st.session.contains_key(t) {
            st.session[t] == session
        } else {
            session.len() == 0
        });
    reveal(Seq::filter);
    if tinted.len() > 0 {
        lemma_stale(tinted.drop_last(), st, ttys, session);
        if session.len() == 0 {
            assert(session =~= seq![]);
        }
        assert(own(tinted.last()) <==> !ttys.contains(tinted.last()) && owner_of(
            st,
            tinted.last(),
        ) == session);
    } else {
        assert(stale_of(tinted, st, ttys, session) =~= tinted.filter(own));
    }
}

/// A job is about the tabs of the clients of its session, and about those that the
/// session tinted before and that have no client any more, in their order; a tab
/// without a record of its session was tinted by the default session. Where Apple
/// Terminal does not run it is about none.
pub proof fn law_tabs_of_a_job(
    tinted: Seq<Seq<char>>,
    st: WindowView,
    ps: Seq<char>,
    session: Seq<char>,
    target: Option<Seq<char>>,
    dry_run: bool,
)
    ensures
        ({
            let job = job_of(tinted, st, ps, session, target, dry_run);
            let ls = lines_of(ps);
            &&& shows_terminal(ls) ==> job.ttys == ttys_of(ls, Some(session)) && job.stale
                == tinted.filter(
                |t: Seq<char>|
                    !job.ttys.contains(t) && (if st.session.contains_key(t) {
                        st.session[t] == session
                    } else {
                        session.len() == 0
                    }),
            )
            &&& !shows_terminal(ls) ==> job.ttys.len() == 0 && job.stale.len() == 0
            &&& job.session == session
            &&& job.target == target
            &&& job.dry_run == dry_run
            &&& job.stage is Ready
            &&& job.next == 0
            &&& job.next_stale == 0
            &&& job.report.len() == 0
        }),
{
    lemma_stale(tinted, st, ttys_of(lines_of(ps), Some(session)), session);
}

/// The tab that a step is about.
pub open spec fn tab_of(job: JobView) -> Seq<char> {
    if job.stage is Ready && job.next_stale < job.stale.len() {
        job.stale[job.next_stale as int]
    } else {
        job.ttys[job.next as int]
    }
}

/// A step changes what is remembered of its own tab alone.
pub proof fn law_a_step_is_about_one_tab(
    st: WindowView,
    job: JobView,
    reply: ReplyView,
    other: Seq<char>,
)
    requires
        other != tab_of(job),
    ensures
        ({
            let st1 = tint_step(st, job, reply).0;
            &&& lookup(st1.original, other) == lookup(st.original, other)
            &&& lookup(st1.current, other) == lookup(st.current, other)
            &&& lookup(st1.session, other) == lookup(st.session, other)
        }),
{
}

/// A step changes nothing of the job but its stage, its places and its lines, and
/// the places go up by one at most.
pub proof fn law_a_step_keeps_its_job(st: WindowView, job: JobView, reply: ReplyView)
    ensures
        ({
            let job1 = tint_step(st, job, reply).1;
            &&& job1.ttys == job.ttys
            &&& job1.stale == job.stale
            &&& job1.session == job.session
            &&& job1.target == job.target
            &&& job1.dry_run == job.dry_run
            &&& job.next <= job1.next <= job.next + 1
            &&& job.next_stale <= job1.next_stale <= job.next_stale + 1
            &&& job1.report == job.report || job1.report.drop_last() == job.report
        }),
{
    let job1 = tint_step(st, job, reply).1;
    if job1.report.len() > job.report.len() {
        assert(job1.report.drop_last() =~= job.report);
    }
}

/// A tab that is to be tinted and has not that colour: where its own colour is saved
/// the colour is sent to it at once, in channels; where it is not, the tab is first
/// asked for its own. One that has the colour already is passed over.
pub proof fn law_what_a_tab_is_sent(st: WindowView, job: JobView, reply: ReplyView)
    requires
        job.stage is Ready,
        job.next_stale == job.stale.len(),
        job.next < job.ttys.len(),
        job.target is Some,
        hex_colour(job.target->0),
        !job.dry_run,
    ensures
        ({
            let tty = job.ttys[job.next as int];
            let (st1, job1, step) = tint_step(st, job, reply);
            let done = st.current.contains_key(tty) && st.current[tty] == job.target->0;
            &&& st1 == st
            &&& done ==> step is Pass && job1.next == job.next + 1 && job1.stage is Ready
            &&& !done && st.original.contains_key(tty) ==> step == StepView::Run(
                set_script(tty, triple_of(job.target->0)->0),
            ) && job1.stage is Tinting && job1.next == job.next
            &&& !done && !st.original.contains_key(tty) ==> step == StepView::Run(ask_script(tty))
                && job1.stage is Asked && job1.next == job.next
        }),
{
    law_only_colours_have_channels(job.target->0);
}

/// A tab that answers what its own colour is has that answer saved for the session,
/// and is sent the colour of the job; one that is gone is passed over.
pub proof fn law_own_colour_is_saved(st: WindowView, job: JobView, answer: Seq<char>)
    requires
        job.stage is Asked,
        job.target is Some,
        hex_colour(job.target->0),
    ensures
        ({
            let tty = job.ttys[job.next as int];
            let (st1, job1, step) = tint_step(st, job, ReplyView::Text(answer));
            &&& answer == "missing"@ ==> st1 == st && step is Pass && job1.next == job.next + 1
                && job1.stage is Ready
            &&& answer != "missing"@ ==> {
                &&& lookup(st1.original, tty) == Some(answer)
                &&& lookup(st1.session, tty) == Some(job.session)
                &&& st1.current == st.current
                &&& step == StepView::Run(set_script(tty, triple_of(job.target->0)->0))
                &&& job1.stage is Tinting
                &&& job1.next == job.next
            }
        }),
{
    law_only_colours_have_channels(job.target->0);
}

/// A tab that took the colour is remembered with it and with the session, and the
/// user reads so; a tab that did not is passed over without a word. Its own colour
/// stays saved either way.
pub proof fn law_tint_is_remembered(st: WindowView, job: JobView, answer: Seq<char>)
    requires
        job.stage is Tinting,
        job.target is Some,
    ensures
        ({
            let tty = job.ttys[job.next as int];
            let (st1, job1, step) = tint_step(st, job, ReplyView::Text(answer));
            &&& step is Pass
            &&& job1.stage is Ready
            &&& job1.next == job.next + 1
            &&& st1.original == st.original
            &&& answer == "ok"@ ==> {
                &&& lookup(st1.current, tty) == job.target
                &&& lookup(st1.session, tty) == Some(job.session)
                &&& job1.report == job.report.push("window "@ + tty + ": "@ + job.target->0)
            }
            &&& answer != "ok"@ ==> st1 == st && job1.report == job.report
        }),
{
}

/// Without a colour to give, a tab whose own colour is saved is sent that, and then
/// forgotten; any other is passed over.
pub proof fn law_own_colour_is_put_back(st: WindowView, job: JobView, reply: ReplyView)
    requires
        job.target is None,
        !job.dry_run,
    ensures
        ({
            let tty = job.ttys[job.next as int];
            let (st1, job1, step) = tint_step(st, job, reply);
            let due = job.stage is Ready && job.next_stale == job.stale.len() && job.next
                < job.ttys.len();
            &&& due && st.original.contains_key(tty) ==> step == StepView::Run(
                set_script(tty, st.original[tty]),
            ) && job1.stage is Restoring && st1 == st
            &&& due && !st.original.contains_key(tty) ==> step is Pass && st1 == st && job1.next
                == job.next + 1
            &&& job.stage is Restoring && reply is Text ==> {
                &&& !st1.original.contains_key(tty)
                &&& !st1.current.contains_key(tty)
                &&& !st1.session.contains_key(tty)
                &&& job1.report == job.report.push("window "@ + tty + ": restored"@)
                &&& step is Pass
                &&& job1.stage is Ready
                &&& job1.next == job.next + 1
            }
        }),
{
}

/// A tab that the session tinted and that has no client any more is forgotten; the
/// colour that it had is sent to it, whatever becomes of that.
pub proof fn law_stale_tab_is_let_go(st: WindowView, job: JobView, reply: ReplyView)
    requires
        job.stage is Ready,
        job.next_stale < job.stale.len(),
        !job.dry_run,
    ensures
        ({
            let tty = job.stale[job.next_stale as int];
            let (st1, job1, step) = tint_step(st, job, reply);
            &&& !st1.original.contains_key(tty)
            &&& !st1.current.contains_key(tty)
            &&& !st1.session.contains_key(tty)
            &&& job1.next_stale == job.next_stale + 1
            &&& job1.next == job.next
            &&& job1.stage is Ready
            &&& job1.report == job.report
            &&& st.original.contains_key(tty) ==> step == StepView::Try(
                set_script(tty, st.original[tty]),
            )
            &&& !st.original.contains_key(tty) ==> step is Pass
        }),
{
}

/// A job ends when its tabs are done; a failed script and a colour that is none end
/// it with the reason, and then it does no more.
pub proof fn law_how_a_job_ends(st: WindowView, job: JobView, reply: ReplyView)
    ensures
        ({
            let (st1, job1, step) = tint_step(st, job, reply);
            let waits = !(job.stage is Ready) && !(job.stage is Over);
            &&& step is Finished <==> job.stage is Over || (job.stage is Ready && job.next_stale
                >= job.stale.len() && job.next >= job.ttys.len())
            &&& waits && reply is Failed ==> step == StepView::Failed(reply->Failed_0)
                && job1.stage is Over && st1 == st
            &&& waits && reply is Nothing ==> step is Pass && job1 == job && st1 == st
            &&& step is Failed && !waits ==> job1.stage is Over && st1 == st && job.target is Some
                && step->Failed_0 == "window colour "@ + debug_text(job.target->0)
                + " is not #rgb/#rrggbb"@ && !hex_colour(job.target->0)
        }),
{
    if job.target is Some {
        law_only_colours_have_channels(job.target->0);
    }
}

/// What a dry run tells of the tab that is next: that it would be tinted, or that it
/// would be put back.
pub proof fn law_what_a_dry_run_tells(st: WindowView, job: JobView, reply: ReplyView)
    requires
        job.stage is Ready,
        job.next_stale == job.stale.len(),
        job.next < job.ttys.len(),
        job.dry_run,
        job.target is Some ==> hex_colour(job.target->0),
    ensures
        ({
            let tty = job.ttys[job.next as int];
            let (st1, job1, step) = tint_step(st, job, reply);
            &&& step is Pass
            &&& job1.next == job.next + 1
            &&& job.target is Some && lookup(st.current, tty) != job.target ==> job1.report
                == job.report.push("window "@ + tty + ": would tint "@ + job.target->0)
            &&& job.target is Some && lookup(st.current, tty) == job.target ==> job1.report
                == job.report
            &&& job.target is None && st.original.contains_key(tty) ==> job1.report
                == job.report.push("window "@ + tty + ": would restore"@)
            &&& job.target is None && !st.original.contains_key(tty) ==> job1.report == job.report
        }),
{
    if job.target is Some {
        law_only_colours_have_channels(job.target->0);
    }
}

/// What the user reads of a tab that was put back: that it was, only where Terminal
/// said so; that the tab is gone where it said anything else or nothing; and the
/// reason of a failure. Each line names the tab.
pub proof fn law_what_is_told_of_a_restored_tab(tty: Seq<char>, reply: ReplyView)
    ensures
        begins(restored_line(tty, reply), "window "@ + tty + ": "@),
        restored_line(tty, reply) == "window "@ + tty + ": restored"@ <== reply == ReplyView::Text(
            "ok"@,
        ),
        reply is Failed ==> restored_line(tty, reply) == "window "@ + tty + ": restore failed: "@
            + reply->Failed_0,
        reply is Nothing || (reply is Text && reply->Text_0 != "ok"@) ==> restored_line(tty, reply)
            == "window "@ + tty + ": tab gone, nothing to restore"@,
{
    reveal_strlit(": ");
    reveal_strlit(": restored");
    reveal_strlit(": restore failed: ");
    reveal_strlit(": tab gone, nothing to restore");
    let p = "window "@ + tty + ": "@;
    let got = restored_line(tty, reply);
    assert(got.take(p.len() as int) =~= p);
}

/// The tabs that are put back in the end are all those whose own colour is saved, each
/// with that colour.
pub proof fn law_every_saved_colour_is_listed(m: KeyMap<String>, tty: Seq<char>, colour: Seq<char>)
    requires
        m.wf(),
    ensures
        tab_pairs(m).contains((tty, colour)) <==> text_map(m).contains_key(tty) && text_map(m)[tty]
            == colour,
        tab_pairs(m).len() == m.entries@.len(),
{
    let pairs = tab_pairs(m);
    if pairs.contains((tty, colour)) {
        let i = choose|i: int| 0 <= i < pairs.len() && pairs[i] == (tty, colour);
        m.lemma_entry(i);
    }
    if text_map(m).contains_key(tty) && text_map(m)[tty] == colour {
        assert(m@.contains_key(tty));
        assert(m.keys().contains(tty));
        let i = choose|i: int| 0 <= i < m.keys().len() && m.keys()[i] == tty;
        m.lemma_entry(i);
        assert(pairs[i] == (tty, colour));
    }
}

} // verus!
