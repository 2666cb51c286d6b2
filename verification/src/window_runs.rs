//! A whole run of a tint job: what is sent to Terminal, and what is remembered
//! when it is over.
use crate::keymap::lookup;
use crate::text::lines_of;
use crate::window::{
    job_of, owner_of, set_script, shows_terminal, stale_of, tint_step, ttys_of, JobView, ReplyView,
    Stage, StepView, WindowView,
};
use vstd::prelude::*;

verus! {

/// Where a run of a job stands: what is remembered, the job, the reply to hand on,
/// the scripts that were sent, and how the job ended once it did.
pub struct Run {
    pub st: WindowView,
    pub job: JobView,
    pub reply: ReplyView,
    pub sent: Seq<StepView>,
    pub end: Option<StepView>,
}

/// A run before its first step.
pub open spec fn begun(st: WindowView, job: JobView) -> Run {
    Run { st, job, reply: ReplyView::Nothing, sent: seq![], end: None }
}

/// A run with one more step; a script whose reply is waited for gets `answer`.
pub open spec fn went_on(r: Run, answer: ReplyView) -> Run {
    if r.end is Some {
        r
    } else {
        let (st, job, step) = tint_step(r.st, r.job, r.reply);
        Run {
            st,
            job,
            reply: if step is Run {
                answer
            } else {
                ReplyView::Nothing
            },
            sent: if step is Run || step is Try {
                r.sent.push(step)
            } else {
                r.sent
            },
            end: if step is Finished || step is Failed {
                Some(step)
            } else {
                None
            },
        }
    }
}

/// A run of as many steps as there are answers; the answer to a step that waits
/// for none is not used.
pub open spec fn run(st: WindowView, job: JobView, answers: Seq<ReplyView>) -> Run
    decreases answers.len(),
{
    if answers.len() == 0 {
        begun(st, job)
    } else {
        went_on(run(st, job, answers.drop_last()), answers.last())
    }
}

/// Every script that is waited for is answered, or fails.
pub open spec fn all_answer(answers: Seq<ReplyView>) -> bool {
    forall|i: int| 0 <= i < answers.len() ==> !(#[trigger] answers[i] is Nothing)
}

/// A list names the tabs whose colour is saved, each once.
pub open spec fn lists_saved(tinted: Seq<Seq<char>>, st: WindowView) -> bool {
    &&& tinted.no_duplicates()
    &&& forall|t: Seq<char>| #[trigger] tinted.contains(t) <==> st.original.contains_key(t)
}

/// Only tabs whose colour is saved count as tinted.
pub open spec fn tints_are_saved(st: WindowView) -> bool {
    forall|t: Seq<char>| #[trigger] st.current.contains_key(t) ==> st.original.contains_key(t)
}

/// The attempts to put the colours of tabs back.
pub open spec fn tries(st: WindowView, tabs: Seq<Seq<char>>) -> Seq<StepView> {
    tabs.map_values(|t: Seq<char>| StepView::Try(set_script(t, st.original[t])))
}

/// The scripts that put back those of the tabs whose colour is saved.
pub open spec fn restores(st: WindowView, tabs: Seq<Seq<char>>) -> Seq<StepView>
    decreases tabs.len(),
{
    if tabs.len() == 0 {
        seq![]
    } else {
        let rest = restores(st, tabs.drop_last());
        if st.original.contains_key(tabs.last()) {
            rest.push(StepView::Run(set_script(tabs.last(), st.original[tabs.last()])))
        } else {
            rest
        }
    }
}

/// The lines for the user on those of the tabs that were put back.
pub open spec fn restored_lines(st: WindowView, tabs: Seq<Seq<char>>) -> Seq<Seq<char>>
    decreases tabs.len(),
{
    if tabs.len() == 0 {
        seq![]
    } else {
        let rest = restored_lines(st, tabs.drop_last());
        if st.original.contains_key(tabs.last()) {
            rest.push("window "@ + tabs.last() + ": restored"@)
        } else {
            rest
        }
    }
}

/// Whether the same is remembered of a tab.
pub open spec fn same_tab(a: WindowView, b: WindowView, t: Seq<char>) -> bool {
    &&& lookup(a.original, t) == lookup(b.original, t)
    &&& lookup(a.current, t) == lookup(b.current, t)
    &&& lookup(a.session, t) == lookup(b.session, t)
}

/// Whether nothing is remembered of a tab.
pub open spec fn no_tab(st: WindowView, t: Seq<char>) -> bool {
    !st.original.contains_key(t) && !st.current.contains_key(t) && !st.session.contains_key(t)
}

// --- what holds along a run ------------------------------------------------------

/// What a job starts from: its tabs are named once, and the stale ones are tabs of
/// no client whose colour is saved.
spec fn sound_job(st: WindowView, job: JobView) -> bool {
    &&& job.stage is Ready
    &&& job.next_stale == 0
    &&& job.next == 0
    &&& job.report == Seq::<Seq<char>>::empty()
    &&& job.ttys.no_duplicates()
    &&& job.stale.no_duplicates()
    &&& forall|i: int|
        0 <= i < job.stale.len() ==> st.original.contains_key(#[trigger] job.stale[i])
            && !job.ttys.contains(job.stale[i])
}

proof fn lemma_ttys_once(ls: Seq<Seq<char>>, session: Option<Seq<char>>)
    ensures
        ttys_of(ls, session).no_duplicates(),
    decreases ls.len(),
{
    if ls.len() > 0 {
        lemma_ttys_once(ls.drop_last(), session);
    }
}

proof fn lemma_stale(
    tinted: Seq<Seq<char>>,
    st: WindowView,
    ttys: Seq<Seq<char>>,
    session: Seq<char>,
)
    requires
        tinted.no_duplicates(),
    ensures
        stale_of(tinted, st, ttys, session).no_duplicates(),
        forall|i: int|
            0 <= i < stale_of(tinted, st, ttys, session).len() ==> {
                let t = #[trigger] stale_of(tinted, st, ttys, session)[i];
                tinted.contains(t) && !ttys.contains(t) && owner_of(st, t) == session
            },
        forall|i: int|
            0 <= i < tinted.len() && !ttys.contains(#[trigger] tinted[i]) && owner_of(st, tinted[i])
                == session ==> stale_of(tinted, st, ttys, session).contains(tinted[i]),
    decreases tinted.len(),
{
    if tinted.len() > 0 {
        let rest = tinted.drop_last();
        let last = tinted.last();
        lemma_stale(rest, st, ttys, session);
        let found = stale_of(rest, st, ttys, session);
        let all = stale_of(tinted, st, ttys, session);
        assert(tinted[tinted.len() - 1] == last);
        assert forall|i: int| 0 <= i < all.len() implies {
            let t = #[trigger] all[i];
            tinted.contains(t) && !ttys.contains(t) && owner_of(st, t) == session
        } by {
            if i < found.len() {
                assert(all[i] == found[i]);
                let j = choose|j: int| 0 <= j < rest.len() && rest[j] == found[i];
                assert(tinted[j] == found[i]);
            }
        }
        assert forall|i: int, j: int| 0 <= i < j < all.len() implies all[i] != all[j] by {
            assert(all[i] == found[i]);
            if j == found.len() {
                let k = choose|k: int| 0 <= k < rest.len() && rest[k] == found[i];
                assert(tinted[k] == found[i]);
            } else {
                assert(all[j] == found[j]);
            }
        }
        assert forall|i: int|
            0 <= i < tinted.len() && !ttys.contains(#[trigger] tinted[i]) && owner_of(st, tinted[i])
                == session implies all.contains(tinted[i]) by {
            if i < rest.len() {
                assert(rest[i] == tinted[i]);
                let j = choose|j: int| 0 <= j < found.len() && found[j] == tinted[i];
                assert(all[j] == tinted[i]);
            } else {
                assert(all[found.len() as int] == last);
            }
        }
    }
}

proof fn lemma_sound_job(
    tinted: Seq<Seq<char>>,
    st: WindowView,
    ps: Seq<char>,
    session: Seq<char>,
    target: Option<Seq<char>>,
    dry_run: bool,
)
    requires
        lists_saved(tinted, st),
    ensures
        sound_job(st, job_of(tinted, st, ps, session, target, dry_run)),
{
    let ls = lines_of(ps);
    lemma_ttys_once(ls, Some(session));
    lemma_stale(tinted, st, ttys_of(ls, Some(session)), session);
}

/// What holds of every run that is not dry: the stale tabs come first, each with
/// one attempt, and are forgotten; nothing else is remembered otherwise but for the
/// tabs of clients.
spec fn holds(st0: WindowView, job0: JobView, r: Run) -> bool {
    let job = r.job;
    &&& job.ttys == job0.ttys
    &&& job.stale == job0.stale
    &&& job.session == job0.session
    &&& job.target == job0.target
    &&& job.dry_run == job0.dry_run
    &&& job.next_stale <= job.stale.len()
    &&& job.next <= job.ttys.len()
    &&& job.next_stale < job.stale.len() ==> job.stage is Ready && job.next == 0 && r.end is None
        && r.sent.len() == job.next_stale
    &&& !(job.stage is Ready || job.stage is Over) ==> job.next < job.ttys.len() && !(
    r.reply is Nothing)
    &&& job.stage is Over <==> r.end is Some && r.end->0 is Failed
    &&& r.end is Some && r.end->0 is Finished ==> job.next == job.ttys.len()
    &&& r.end is Some ==> r.end->0 is Finished || r.end->0 is Failed
    &&& r.sent.len() >= job.next_stale
    &&& forall|i: int|
        0 <= i < job.next_stale ==> #[trigger] r.sent[i] == StepView::Try(
            set_script(job.stale[i], st0.original[job.stale[i]]),
        )
    &&& forall|i: int| job.next_stale <= i < r.sent.len() ==> #[trigger] r.sent[i] is Run
    &&& forall|i: int| 0 <= i < job.next_stale ==> no_tab(r.st, #[trigger] job.stale[i])
    &&& forall|i: int|
        job.next_stale <= i < job.stale.len() ==> same_tab(st0, r.st, #[trigger] job.stale[i])
    &&& forall|t: Seq<char>|
        !job.ttys.contains(t) && !job.stale.contains(t) ==> #[trigger] same_tab(st0, r.st, t)
}

/// The tint of a tab is remembered only with the colour that it had.
spec fn holds_saved(st0: WindowView, r: Run) -> bool {
    &&& tints_are_saved(st0) ==> tints_are_saved(r.st)
    &&& r.job.stage is Tinting ==> r.st.original.contains_key(r.job.ttys[r.job.next as int])
    &&& r.job.stage is Asked ==> !r.st.original.contains_key(r.job.ttys[r.job.next as int])
    &&& r.job.stage is Asked || r.job.stage is Tinting ==> r.job.target is Some
    &&& r.job.stage is Restoring ==> r.job.target is None
}

/// A colour that is saved stays saved while tabs are tinted.
spec fn holds_first(st0: WindowView, r: Run) -> bool {
    r.job.target is Some ==> forall|t: Seq<char>|
        r.job.ttys.contains(t) && st0.original.contains_key(t) ==> #[trigger] lookup(
            r.st.original,
            t,
        ) == lookup(st0.original, t)
}

/// While tabs are put back, those that are done are forgotten, and the others are
/// as they were.
spec fn holds_back(st0: WindowView, r: Run) -> bool {
    let job = r.job;
    r.job.target is None ==> {
        &&& forall|j: int|
            0 <= j < job.next && st0.original.contains_key(#[trigger] job.ttys[j]) ==> no_tab(
                r.st,
                job.ttys[j],
            )
        &&& forall|j: int|
            0 <= j < job.next && !st0.original.contains_key(#[trigger] job.ttys[j]) ==> same_tab(
                st0,
                r.st,
                job.ttys[j],
            )
        &&& forall|j: int|
            job.next <= j < job.ttys.len() ==> same_tab(st0, r.st, #[trigger] job.ttys[j])
        &&& job.report == restored_lines(st0, job.ttys.take(job.next as int))
        &&& job.stage is Restoring ==> st0.original.contains_key(job.ttys[job.next as int])
        &&& !(job.stage is Over) ==> r.sent == tries(st0, job.stale.take(job.next_stale as int))
            + restores(
            st0,
            job.ttys.take(
                if job.stage is Restoring {
                    job.next as int + 1
                } else {
                    job.next as int
                },
            ),
        )
    }
}

proof fn lemma_holds(st0: WindowView, job0: JobView, answers: Seq<ReplyView>)
    requires
        sound_job(st0, job0),
        !job0.dry_run,
        all_answer(answers),
    ensures
        holds(st0, job0, run(st0, job0, answers)),
        holds_saved(st0, run(st0, job0, answers)),
    decreases answers.len(),
{
    if answers.len() > 0 {
        let some = answers.drop_last();
        assert forall|i: int| 0 <= i < some.len() implies !(#[trigger] some[i] is Nothing) by {
            assert(some[i] == answers[i]);
        }
        lemma_holds(st0, job0, some);
        assert(answers[answers.len() - 1] == answers.last());
        lemma_holds_step(st0, job0, run(st0, job0, some), answers.last());
        lemma_saved_step(st0, job0, run(st0, job0, some), answers.last());
    }
}

proof fn lemma_holds_step(st0: WindowView, job0: JobView, r: Run, answer: ReplyView)
    requires
        sound_job(st0, job0),
        !job0.dry_run,
        holds(st0, job0, r),
        !(answer is Nothing),
    ensures
        holds(st0, job0, went_on(r, answer)),
{
    let s = went_on(r, answer);
    let job = r.job;
    if r.end is None {
        let (st1, job1, step) = tint_step(r.st, r.job, r.reply);
        if job.stage is Ready && job.next_stale < job.stale.len() {
            let tty = job.stale[job.next_stale as int];
            assert(same_tab(st0, r.st, tty));
            assert(st0.original.contains_key(tty));
            assert(step == StepView::Try(set_script(tty, st0.original[tty])));
            assert forall|i: int| 0 <= i < s.job.next_stale implies no_tab(
                s.st,
                #[trigger] s.job.stale[i],
            ) by {
                if i < job.next_stale {
                    assert(no_tab(r.st, job.stale[i]));
                }
            }
            assert forall|i: int| s.job.next_stale <= i < s.job.stale.len() implies same_tab(
                st0,
                s.st,
                #[trigger] s.job.stale[i],
            ) by {
                assert(same_tab(st0, r.st, job.stale[i]));
                assert(job.stale[i] != tty);
            }
            assert forall|t: Seq<char>|
                !job.ttys.contains(t) && !job.stale.contains(t) implies #[trigger] same_tab(
                st0,
                s.st,
                t,
            ) by {
                assert(same_tab(st0, r.st, t));
                assert(job.stale.contains(tty));
            }
        } else if job.next < job.ttys.len() {
            let tty = job.ttys[job.next as int];
            assert(job.ttys.contains(tty));
            assert forall|t: Seq<char>| t != tty implies #[trigger] same_tab(r.st, s.st, t) by {}
            assert forall|i: int| 0 <= i < s.job.next_stale implies no_tab(
                s.st,
                #[trigger] s.job.stale[i],
            ) by {
                assert(no_tab(r.st, job.stale[i]));
                assert(job.stale[i] != tty);
                assert(same_tab(r.st, s.st, job.stale[i]));
            }
            assert forall|t: Seq<char>|
                !job.ttys.contains(t) && !job.stale.contains(t) implies #[trigger] same_tab(
                st0,
                s.st,
                t,
            ) by {
                assert(same_tab(st0, r.st, t));
                assert(same_tab(r.st, s.st, t));
            }
        }
    }
}

proof fn lemma_saved_step(st0: WindowView, job0: JobView, r: Run, answer: ReplyView)
    requires
        sound_job(st0, job0),
        !job0.dry_run,
        holds(st0, job0, r),
        holds_saved(st0, r),
    ensures
        holds_saved(st0, went_on(r, answer)),
{
    let s = went_on(r, answer);
    if r.end is None && tints_are_saved(st0) {
        assert forall|t: Seq<char>| #[trigger] s.st.current.contains_key(t) implies s.st.original.contains_key(
            t,
        ) by {
            assert(r.st.current.contains_key(t) ==> r.st.original.contains_key(t));
        }
    }
}

proof fn lemma_first(st0: WindowView, job0: JobView, answers: Seq<ReplyView>)
    requires
        sound_job(st0, job0),
        !job0.dry_run,
        job0.target is Some,
        all_answer(answers),
    ensures
        holds_first(st0, run(st0, job0, answers)),
    decreases answers.len(),
{
    if answers.len() > 0 {
        let some = answers.drop_last();
        assert forall|i: int| 0 <= i < some.len() implies !(#[trigger] some[i] is Nothing) by {
            assert(some[i] == answers[i]);
        }
        lemma_first(st0, job0, some);
        lemma_holds(st0, job0, some);
        let r = run(st0, job0, some);
        let s = run(st0, job0, answers);
        if r.end is None {
            assert forall|t: Seq<char>|
                s.job.ttys.contains(t) && st0.original.contains_key(t) implies #[trigger] lookup(
                s.st.original,
                t,
            ) == lookup(st0.original, t) by {
                assert(lookup(r.st.original, t) == lookup(st0.original, t));
                if r.job.stage is Ready && r.job.next_stale < r.job.stale.len() {
                    assert(!job0.ttys.contains(r.job.stale[r.job.next_stale as int]));
                }
            }
        }
    }
}

proof fn lemma_back(st0: WindowView, job0: JobView, answers: Seq<ReplyView>)
    requires
        sound_job(st0, job0),
        !job0.dry_run,
        job0.target is None,
        all_answer(answers),
    ensures
        holds_back(st0, run(st0, job0, answers)),
    decreases answers.len(),
{
    if answers.len() == 0 {
        let r = begun(st0, job0);
        assert(job0.ttys.take(0) =~= seq![]);
        assert(job0.stale.take(0) =~= seq![]);
        assert(r.sent =~= tries(st0, job0.stale.take(0)) + restores(st0, job0.ttys.take(0)));
    } else {
        let some = answers.drop_last();
        assert forall|i: int| 0 <= i < some.len() implies !(#[trigger] some[i] is Nothing) by {
            assert(some[i] == answers[i]);
        }
        lemma_back(st0, job0, some);
        lemma_holds(st0, job0, some);
        lemma_back_step(st0, job0, run(st0, job0, some), answers.last());
    }
}

proof fn lemma_back_step(st0: WindowView, job0: JobView, r: Run, answer: ReplyView)
    requires
        sound_job(st0, job0),
        !job0.dry_run,
        job0.target is None,
        holds(st0, job0, r),
        holds_saved(st0, r),
        holds_back(st0, r),
    ensures
        holds_back(st0, went_on(r, answer)),
{
    let s = went_on(r, answer);
    let job = r.job;
    if r.end is None {
        if job.stage is Ready && job.next_stale < job.stale.len() {
            lemma_back_stale(st0, job0, r, answer);
        } else if job.next < job.ttys.len() {
            let tty = job.ttys[job.next as int];
            let done = job.ttys.take(job.next as int);
            let more = job.ttys.take(job.next as int + 1);
            assert(same_tab(st0, r.st, tty));
            assert(more.drop_last() =~= done);
            assert(more.last() == tty);
            assert forall|j: int| 0 <= j < job.ttys.len() && j != job.next implies same_tab(
                r.st,
                s.st,
                #[trigger] job.ttys[j],
            ) by {
                assert(job.ttys[j] != tty);
            }
            let head = tries(st0, job.stale.take(job.next_stale as int));
            if job.stage is Ready && st0.original.contains_key(tty) {
                let step = StepView::Run(set_script(tty, st0.original[tty]));
                assert(s.sent == r.sent.push(step));
                assert(s.sent =~= head + restores(st0, more));
            }
        }
    }
}

proof fn lemma_back_stale(st0: WindowView, job0: JobView, r: Run, answer: ReplyView)
    requires
        sound_job(st0, job0),
        !job0.dry_run,
        job0.target is None,
        holds(st0, job0, r),
        holds_back(st0, r),
        r.end is None,
        r.job.stage is Ready,
        r.job.next_stale < r.job.stale.len(),
    ensures
        holds_back(st0, went_on(r, answer)),
{
    let s = went_on(r, answer);
    let job = r.job;
    let n = job.next_stale as int;
    let tty = job.stale[n];
    let step = StepView::Try(set_script(tty, st0.original[tty]));
    assert(same_tab(st0, r.st, tty));
    assert(st0.original.contains_key(tty));
    assert(s.sent == r.sent.push(step));
    assert(job.ttys.take(0) =~= seq![]);
    let head = tries(st0, job.stale.take(n));
    assert(tries(st0, job.stale.take(n + 1)) =~= head.push(step));
    assert(s.sent =~= tries(st0, job.stale.take(n + 1)) + restores(st0, job.ttys.take(0)));
    assert forall|j: int| 0 <= j < job.ttys.len() implies same_tab(
        st0,
        s.st,
        #[trigger] job.ttys[j],
    ) by {
        assert(same_tab(st0, r.st, job.ttys[j]));
        assert(job.ttys.contains(job.ttys[j]));
    }
}

// --- laws ------------------------------------------------------------------------

/// Putting back is complete: once a run without a target is over, every tab of a
/// client of the session whose colour was saved was sent that colour and reported
/// as restored, the other tabs of clients were sent nothing, and nothing is
/// remembered of the tabs that were put back; of tabs of other sessions the same is
/// remembered as before.
pub proof fn law_every_tab_is_put_back(
    tinted: Seq<Seq<char>>,
    st: WindowView,
    ps: Seq<char>,
    session: Seq<char>,
    answers: Seq<ReplyView>,
)
    requires
        lists_saved(tinted, st),
        all_answer(answers),
        run(st, job_of(tinted, st, ps, session, None, false), answers).end == Some(
            StepView::Finished,
        ),
    ensures
        ({
            let job = job_of(tinted, st, ps, session, None, false);
            let r = run(st, job, answers);
            &&& r.sent == tries(st, job.stale) + restores(st, job.ttys)
            &&& r.job.report == restored_lines(st, job.ttys)
            &&& forall|t: Seq<char>|
                job.stale.contains(t) || (job.ttys.contains(t) && st.original.contains_key(t))
                    ==> #[trigger] no_tab(r.st, t)
            &&& forall|t: Seq<char>|
                !job.stale.contains(t) && !(job.ttys.contains(t) && st.original.contains_key(t))
                    ==> #[trigger] same_tab(st, r.st, t)
        }),
{
    let job = job_of(tinted, st, ps, session, None, false);
    let r = run(st, job, answers);
    lemma_sound_job(tinted, st, ps, session, None, false);
    lemma_holds(st, job, answers);
    lemma_back(st, job, answers);
    assert(job.stale.take(job.stale.len() as int) =~= job.stale);
    assert(job.ttys.take(job.ttys.len() as int) =~= job.ttys);
    assert forall|t: Seq<char>|
        job.stale.contains(t) || (job.ttys.contains(t) && st.original.contains_key(
            t,
        )) implies #[trigger] no_tab(r.st, t) by {
        if job.stale.contains(t) {
            let i = choose|i: int| 0 <= i < job.stale.len() && job.stale[i] == t;
            assert(no_tab(r.st, r.job.stale[i]));
        } else {
            let i = choose|i: int| 0 <= i < job.ttys.len() && job.ttys[i] == t;
            assert(no_tab(r.st, r.job.ttys[i]));
        }
    }
    assert forall|t: Seq<char>|
        !job.stale.contains(t) && !(job.ttys.contains(t) && st.original.contains_key(
            t,
        )) implies #[trigger] same_tab(st, r.st, t) by {
        if job.ttys.contains(t) {
            let i = choose|i: int| 0 <= i < job.ttys.len() && job.ttys[i] == t;
            assert(same_tab(st, r.st, r.job.ttys[i]));
        }
    }
}

/// Every tab whose colour is saved is among those that are put back.
pub proof fn law_saved_tabs_are_among_the_restored(
    st: WindowView,
    tabs: Seq<Seq<char>>,
    t: Seq<char>,
)
    requires
        tabs.contains(t),
        st.original.contains_key(t),
    ensures
        restores(st, tabs).contains(StepView::Run(set_script(t, st.original[t]))),
        restored_lines(st, tabs).contains("window "@ + t + ": restored"@),
    decreases tabs.len(),
{
    let step = StepView::Run(set_script(t, st.original[t]));
    let line = "window "@ + t + ": restored"@;
    let all = restores(st, tabs);
    let lines = restored_lines(st, tabs);
    let i = choose|i: int| 0 <= i < tabs.len() && tabs[i] == t;
    if i == tabs.len() - 1 {
        assert(all[all.len() - 1] == step);
        assert(lines[lines.len() - 1] == line);
    } else {
        let p = tabs.drop_last();
        assert(p[i] == t);
        law_saved_tabs_are_among_the_restored(st, p, t);
        let j = choose|j: int| 0 <= j < restores(st, p).len() && restores(st, p)[j] == step;
        assert(all[j] == step);
        let k = choose|k: int|
            0 <= k < restored_lines(st, p).len() && restored_lines(st, p)[k] == line;
        assert(lines[k] == line);
    }
}

/// What is remembered never grows by tabs that are gone: once a run is over,
/// however it ended, every tab that the session tinted and that has no client any
/// more was sent its saved colour once, before anything else, and nothing is
/// remembered of it; what is left is of tabs of clients and of other sessions.
pub proof fn law_stale_tabs_are_forgotten(
    tinted: Seq<Seq<char>>,
    st: WindowView,
    ps: Seq<char>,
    session: Seq<char>,
    target: Option<Seq<char>>,
    answers: Seq<ReplyView>,
)
    requires
        lists_saved(tinted, st),
        all_answer(answers),
        run(st, job_of(tinted, st, ps, session, target, false), answers).end is Some,
    ensures
        ({
            let job = job_of(tinted, st, ps, session, target, false);
            let r = run(st, job, answers);
            &&& r.sent.len() >= job.stale.len()
            &&& r.sent.take(job.stale.len() as int) == tries(st, job.stale)
            &&& forall|i: int| job.stale.len() <= i < r.sent.len() ==> #[trigger] r.sent[i] is Run
            &&& job.stale.no_duplicates()
            &&& forall|i: int| 0 <= i < job.stale.len() ==> no_tab(r.st, #[trigger] job.stale[i])
            &&& forall|t: Seq<char>|
                !job.ttys.contains(t) && !job.stale.contains(t) ==> #[trigger] same_tab(st, r.st, t)
            &&& shows_terminal(lines_of(ps)) ==> forall|t: Seq<char>| #[trigger]
                r.st.original.contains_key(t) ==> job.ttys.contains(t) || owner_of(st, t) != session
        }),
{
    let job = job_of(tinted, st, ps, session, target, false);
    let r = run(st, job, answers);
    lemma_sound_job(tinted, st, ps, session, target, false);
    lemma_holds(st, job, answers);
    assert(r.job.next_stale == job.stale.len());
    assert(r.sent.take(job.stale.len() as int) =~= tries(st, job.stale));
    lemma_stale(tinted, st, job.ttys, session);
    if shows_terminal(lines_of(ps)) {
        assert forall|t: Seq<char>| #[trigger] r.st.original.contains_key(t) implies job.ttys.contains(
            t,
        ) || owner_of(st, t) != session by {
            if !job.ttys.contains(t) && owner_of(st, t) == session {
                if job.stale.contains(t) {
                    let i = choose|i: int| 0 <= i < job.stale.len() && job.stale[i] == t;
                    assert(no_tab(r.st, r.job.stale[i]));
                } else {
                    assert(same_tab(st, r.st, t));
                    assert(tinted.contains(t));
                    let i = choose|i: int| 0 <= i < tinted.len() && tinted[i] == t;
                    assert(job.stale.contains(tinted[i]));
                }
            }
        }
    }
}

/// A tab counts as tinted only with its colour saved: a run keeps that, wherever it
/// stands.
pub proof fn law_tints_stay_saved(
    tinted: Seq<Seq<char>>,
    st: WindowView,
    ps: Seq<char>,
    session: Seq<char>,
    target: Option<Seq<char>>,
    answers: Seq<ReplyView>,
)
    requires
        lists_saved(tinted, st),
        all_answer(answers),
        tints_are_saved(st),
    ensures
        tints_are_saved(
            run(st, job_of(tinted, st, ps, session, target, false), answers).st,
        ),
{
    lemma_sound_job(tinted, st, ps, session, target, false);
    lemma_holds(st, job_of(tinted, st, ps, session, target, false), answers);
}

/// The first colour seen on a tab survives: a run that tints leaves the colour that
/// is saved of a tab with a client as it is, so that it is the one that a later run
/// puts back.
pub proof fn law_first_colours_survive(
    tinted: Seq<Seq<char>>,
    st: WindowView,
    ps: Seq<char>,
    session: Seq<char>,
    hex: Seq<char>,
    answers: Seq<ReplyView>,
    t: Seq<char>,
)
    requires
        lists_saved(tinted, st),
        all_answer(answers),
        job_of(tinted, st, ps, session, Some(hex), false).ttys.contains(t),
        st.original.contains_key(t),
    ensures
        ({
            let r = run(st, job_of(tinted, st, ps, session, Some(hex), false), answers);
            r.st.original.contains_key(t) && r.st.original[t] == st.original[t]
        }),
{
    let job = job_of(tinted, st, ps, session, Some(hex), false);
    lemma_sound_job(tinted, st, ps, session, Some(hex), false);
    lemma_holds(st, job, answers);
    lemma_first(st, job, answers);
    let r = run(st, job, answers);
    assert(lookup(r.st.original, t) == lookup(st.original, t));
}

/// Tinting twice and then putting back gives a tab the colour that it had before
/// the first tint, for as long as it has a client.
pub proof fn law_tints_are_undone(
    st: WindowView,
    session: Seq<char>,
    first: (Seq<Seq<char>>, Seq<char>, Seq<char>, Seq<ReplyView>),
    second: (Seq<Seq<char>>, Seq<char>, Seq<char>, Seq<ReplyView>),
    last: (Seq<Seq<char>>, Seq<char>, Seq<ReplyView>),
    t: Seq<char>,
)
    requires
        ({
            let (tinted1, ps1, hex1, answers1) = first;
            let (tinted2, ps2, hex2, answers2) = second;
            let (tinted3, ps3, answers3) = last;
            let r1 = run(st, job_of(tinted1, st, ps1, session, Some(hex1), false), answers1);
            let r2 = run(r1.st, job_of(tinted2, r1.st, ps2, session, Some(hex2), false), answers2);
            let r3 = run(r2.st, job_of(tinted3, r2.st, ps3, session, None, false), answers3);
            &&& lists_saved(tinted1, st) && all_answer(answers1)
            &&& lists_saved(tinted2, r1.st) && all_answer(answers2)
            &&& lists_saved(tinted3, r2.st) && all_answer(answers3)
            &&& job_of(tinted2, r1.st, ps2, session, Some(hex2), false).ttys.contains(t)
            &&& job_of(tinted3, r2.st, ps3, session, None, false).ttys.contains(t)
            &&& r1.st.original.contains_key(t)
            &&& r3.end == Some(StepView::Finished)
        }),
    ensures
        ({
            let (tinted1, ps1, hex1, answers1) = first;
            let (tinted2, ps2, hex2, answers2) = second;
            let (tinted3, ps3, answers3) = last;
            let r1 = run(st, job_of(tinted1, st, ps1, session, Some(hex1), false), answers1);
            let r2 = run(r1.st, job_of(tinted2, r1.st, ps2, session, Some(hex2), false), answers2);
            let r3 = run(r2.st, job_of(tinted3, r2.st, ps3, session, None, false), answers3);
            &&& r3.sent.contains(StepView::Run(set_script(t, r1.st.original[t])))
            &&& r3.job.report.contains("window "@ + t + ": restored"@)
            &&& no_tab(r3.st, t)
        }),
{
    let (tinted1, ps1, hex1, answers1) = first;
    let (tinted2, ps2, hex2, answers2) = second;
    let (tinted3, ps3, answers3) = last;
    let r1 = run(st, job_of(tinted1, st, ps1, session, Some(hex1), false), answers1);
    let r2 = run(r1.st, job_of(tinted2, r1.st, ps2, session, Some(hex2), false), answers2);
    let job3 = job_of(tinted3, r2.st, ps3, session, None, false);
    let r3 = run(r2.st, job3, answers3);
    law_first_colours_survive(tinted2, r1.st, ps2, session, hex2, answers2, t);
    law_every_tab_is_put_back(tinted3, r2.st, ps3, session, answers3);
    law_saved_tabs_are_among_the_restored(r2.st, job3.ttys, t);
    let step = StepView::Run(set_script(t, r1.st.original[t]));
    let head = tries(r2.st, job3.stale);
    let tail = restores(r2.st, job3.ttys);
    let i = choose|i: int| 0 <= i < tail.len() && tail[i] == step;
    assert(r3.sent[head.len() + i] == step);
}

/// How many steps a run has left at most.
spec fn steps_left(r: Run) -> int {
    let waited: int = match r.job.stage {
        Stage::Ready | Stage::Over => 0,
        Stage::Asked => 1,
        Stage::Tinting => 2,
        Stage::Restoring => 1,
    };
    (r.job.stale.len() - r.job.next_stale) + 4 * (r.job.ttys.len() - r.job.next) - waited
}

/// A run ends: Terminal is asked at most twice for a tab, and each stale tab is
/// tried once.
pub proof fn law_runs_end(
    tinted: Seq<Seq<char>>,
    st: WindowView,
    ps: Seq<char>,
    session: Seq<char>,
    target: Option<Seq<char>>,
    answers: Seq<ReplyView>,
)
    requires
        lists_saved(tinted, st),
        all_answer(answers),
        answers.len() > job_of(tinted, st, ps, session, target, false).stale.len() + 4 * job_of(
            tinted,
            st,
            ps,
            session,
            target,
            false,
        ).ttys.len(),
    ensures
        run(st, job_of(tinted, st, ps, session, target, false), answers).end is Some,
{
    let job = job_of(tinted, st, ps, session, target, false);
    lemma_sound_job(tinted, st, ps, session, target, false);
    lemma_steps(st, job, answers);
    lemma_holds(st, job, answers);
}

proof fn lemma_steps(st0: WindowView, job0: JobView, answers: Seq<ReplyView>)
    requires
        sound_job(st0, job0),
        !job0.dry_run,
        all_answer(answers),
    ensures
        ({
            let r = run(st0, job0, answers);
            r.end is None ==> steps_left(r) + answers.len() <= job0.stale.len() + 4
                * job0.ttys.len()
        }),
    decreases answers.len(),
{
    if answers.len() > 0 {
        let some = answers.drop_last();
        assert forall|i: int| 0 <= i < some.len() implies !(#[trigger] some[i] is Nothing) by {
            assert(some[i] == answers[i]);
        }
        lemma_steps(st0, job0, some);
        lemma_holds(st0, job0, some);
    }
}

} // verus!
