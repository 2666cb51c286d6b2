//! How an edited configuration of Herdr is put in place: backed up once, written,
//! checked, rolled back where the check fails, and reloaded.
use crate::text::{cat, cat3, cat4, cat5, lines, lines_of, list_has, same, texts};
use vstd::prelude::*;

verus! {

/// The lines of `a` that `b` does not have, each after a sign.
pub open spec fn only_in(a: Seq<Seq<char>>, b: Seq<Seq<char>>, sign: Seq<char>) -> Seq<char>
    decreases a.len(),
{
    if a.len() == 0 {
        seq![]
    } else {
        let rest = only_in(a.drop_last(), b, sign);
        if b.contains(a.last()) {
            rest
        } else {
            rest + sign + a.last() + "\n"@
        }
    }
}

/// The lines that differ between two texts.
pub open spec fn diff_of(old_text: Seq<char>, new_text: Seq<char>) -> Seq<char> {
    only_in(lines_of(old_text), lines_of(new_text), "- "@) + only_in(
        lines_of(new_text),
        lines_of(old_text),
        "+ "@,
    )
}

fn lines_only_in(a: &Vec<String>, b: &Vec<String>, sign: &str) -> (r: String)
    ensures
        r@ == only_in(texts(a@), texts(b@), sign@),
{
    let ghost all = texts(a@);
    let mut out = String::new();
    assert(out@ =~= only_in(all.take(0), texts(b@), sign@));
    let mut i: usize = 0;
    while i < a.len()
        invariant
            all == texts(a@),
            i <= a@.len(),
            out@ == only_in(all.take(i as int), texts(b@), sign@),
        decreases a@.len() - i,
    {
        proof {
            assert(all.take(i + 1).drop_last() =~= all.take(i as int));
            assert(all.take(i + 1).last() == a@[i as int]@);
        }
        if !list_has(b, a[i].as_str()) {
            out.append(sign);
            out.append(a[i].as_str());
            out.append("\n");
        }
        i += 1;
    }
    assert(all.take(i as int) =~= all);
    out
}

/// The lines that only one of two texts has: first those that go, then those that
/// come.
pub fn diff(old_text: &str, new_text: &str) -> (r: String)
    ensures
        r@ == diff_of(old_text@, new_text@),
{
    let a = lines(old_text);
    let b = lines(new_text);
    cat(
        lines_only_in(&a, &b, "- ").as_str(),
        lines_only_in(&b, &a, "+ ").as_str(),
    )
}

/// Where a commit stands.
pub enum CommitStage {
    /// Nothing was done yet.
    Begun,
    /// The backup is being made, unless there is one.
    BackingUp,
    /// The new text is being written.
    Writing,
    /// Herdr checks the new text.
    Checking,
    /// The old text is being written back; the check said why.
    RollingBack(String),
    /// What is managed in the new text is put on record.
    Recording,
    /// The old text is being written back; the record could not be made, for this
    /// reason.
    Undoing(String),
    /// Herdr reloads its configuration.
    Reloading,
    Over,
}

/// What is to be done next.
#[derive(Debug)]
pub enum CommitStep {
    /// The commit is over with nothing to do; tell the user.
    Idle(String),
    /// The commit is over and nothing was written; tell the user, and show the
    /// lines that would change.
    Preview(String, String),
    /// Copy the old text to the backup, unless there is a backup.
    Backup,
    /// Write the new text.
    WriteNew,
    /// Let Herdr check its configuration.
    Check,
    /// Write the old text.
    WriteOld,
    /// Put on record what is managed in the new text, which stays.
    Record,
    /// Let Herdr reload its configuration.
    Reload,
    /// The commit is over and was applied; tell the user.
    Applied(String),
    /// The commit failed; show a notification, where there is one, and report.
    Fail(Option<String>, String),
}

/// Where a commit stands, as plain values.
pub enum StageView {
    Begun,
    BackingUp,
    Writing,
    Checking,
    RollingBack(Seq<char>),
    Recording,
    Undoing(Seq<char>),
    Reloading,
    Over,
}

/// What is to be done next, as plain values.
pub enum CommitView {
    Idle(Seq<char>),
    Preview(Seq<char>, Seq<char>),
    Backup,
    WriteNew,
    Check,
    WriteOld,
    Record,
    Reload,
    Applied(Seq<char>),
    Fail(Option<Seq<char>>, Seq<char>),
}

impl CommitStage {
    pub open spec fn view(&self) -> StageView {
        match self {
            CommitStage::Begun => StageView::Begun,
            CommitStage::BackingUp => StageView::BackingUp,
            CommitStage::Writing => StageView::Writing,
            CommitStage::Checking => StageView::Checking,
            CommitStage::RollingBack(e) => StageView::RollingBack(e@),
            CommitStage::Recording => StageView::Recording,
            CommitStage::Undoing(e) => StageView::Undoing(e@),
            CommitStage::Reloading => StageView::Reloading,
            CommitStage::Over => StageView::Over,
        }
    }
}

impl CommitStep {
    pub open spec fn view(&self) -> CommitView {
        match self {
            CommitStep::Idle(l) => CommitView::Idle(l@),
            CommitStep::Preview(l, d) => CommitView::Preview(l@, d@),
            CommitStep::Backup => CommitView::Backup,
            CommitStep::WriteNew => CommitView::WriteNew,
            CommitStep::Check => CommitView::Check,
            CommitStep::WriteOld => CommitView::WriteOld,
            CommitStep::Record => CommitView::Record,
            CommitStep::Reload => CommitView::Reload,
            CommitStep::Applied(l) => CommitView::Applied(l@),
            CommitStep::Fail(n, m) => CommitView::Fail(crate::text::opt_text(*n), m@),
        }
    }
}

/// A commit: from one text of a file to another.
pub struct Commit {
    pub path: String,
    pub original: String,
    pub updated: String,
    pub dry_run: bool,
    /// What the user is told that it is.
    pub what: String,
    pub stage: CommitStage,
}

/// The first step of a commit.
pub open spec fn first_step(
    path: Seq<char>,
    original: Seq<char>,
    updated: Seq<char>,
    dry_run: bool,
    what: Seq<char>,
) -> (StageView, CommitView) {
    if updated == original {
        (StageView::Over, CommitView::Idle(what + ": already in place, nothing to do"@))
    } else if dry_run {
        (
            StageView::Over,
            CommitView::Preview(
                what + ": dry run, would change "@ + path + ":"@,
                diff_of(original, updated),
            ),
        )
    } else {
        (StageView::BackingUp, CommitView::Backup)
    }
}

/// The step of a commit after what was asked for succeeded.
pub open spec fn step_after_success(stage: StageView, what: Seq<char>) -> (StageView, CommitView) {
    match stage {
        StageView::BackingUp => (StageView::Writing, CommitView::WriteNew),
        StageView::Writing => (StageView::Checking, CommitView::Check),
        StageView::Checking => (StageView::Recording, CommitView::Record),
        StageView::Recording => (StageView::Reloading, CommitView::Reload),
        StageView::RollingBack(e) => (
            StageView::Over,
            CommitView::Fail(
                Some(
                    "config check failed after an edit; the previous config.toml was restored"@,
                ),
                what + ": `herdr config check` rejected the result, restored the previous config.\n"@
                    + e,
            ),
        ),
        StageView::Undoing(e) => (StageView::Over, CommitView::Fail(None, e)),
        _ => (StageView::Over, CommitView::Applied(what + ": applied"@)),
    }
}

/// The step of a commit after what was asked for failed.
pub open spec fn step_after_failure(
    stage: StageView,
    what: Seq<char>,
    error: Seq<char>,
) -> (StageView, CommitView) {
    match stage {
        StageView::Checking => (StageView::RollingBack(error), CommitView::WriteOld),
        StageView::Recording => (StageView::Undoing(error), CommitView::WriteOld),
        StageView::Reloading => (
            StageView::Over,
            CommitView::Fail(
                Some("config.toml updated but the server reload failed"@),
                what
                    + ": config written and valid, but the reload failed (is the server running?)\n"@
                    + error,
            ),
        ),
        _ => (StageView::Over, CommitView::Fail(None, error)),
    }
}

/// One step of a commit. The outcome is that of what was asked for last; the
/// first step has none.
pub open spec fn commit_step(
    stage: StageView,
    path: Seq<char>,
    original: Seq<char>,
    updated: Seq<char>,
    dry_run: bool,
    what: Seq<char>,
    outcome: Result<(), Seq<char>>,
) -> (StageView, CommitView) {
    match (stage, outcome) {
        (StageView::Begun, _) => first_step(path, original, updated, dry_run, what),
        (_, Ok(_)) => step_after_success(stage, what),
        (_, Err(error)) => step_after_failure(stage, what, error),
    }
}

/// What came of what was asked for.
pub open spec fn outcome_view(o: Result<(), String>) -> Result<(), Seq<char>> {
    match o {
        Ok(_) => Ok(()),
        Err(e) => Err(e@),
    }
}

/// Begins a commit.
pub fn begin_commit(
    path: &str,
    original: &str,
    updated: &str,
    dry_run: bool,
    what: &str,
) -> (r: Commit)
    ensures
        r.path@ == path@,
        r.original@ == original@,
        r.updated@ == updated@,
        r.dry_run == dry_run,
        r.what@ == what@,
        r.stage@ == StageView::Begun,
{
    Commit {
        path: path.to_owned(),
        original: original.to_owned(),
        updated: updated.to_owned(),
        dry_run,
        what: what.to_owned(),
        stage: CommitStage::Begun,
    }
}

/// Takes one step of a commit: nothing is written where nothing changes or in a
/// dry run; the old text is backed up before the first edit; after every write
/// Herdr checks the result, and where it fails the old text is restored before
/// anything else happens; where it passes, what is managed is put on record before
/// Herdr is told, and where that fails the old text is restored too.
pub fn commit(c: &mut Commit, outcome: Result<(), String>) -> (r: CommitStep)
    ensures
        final(c).path == old(c).path,
        final(c).original == old(c).original,
        final(c).updated == old(c).updated,
        final(c).dry_run == old(c).dry_run,
        final(c).what == old(c).what,
        (final(c).stage@, r@) == commit_step(
            old(c).stage@,
            old(c).path@,
            old(c).original@,
            old(c).updated@,
            old(c).dry_run,
            old(c).what@,
            outcome_view(outcome),
        ),
{
    let (stage, step) = match (&c.stage, outcome) {
        (CommitStage::Begun, _) => begun(c),
        (CommitStage::BackingUp, Ok(_)) => (CommitStage::Writing, CommitStep::WriteNew),
        (CommitStage::Writing, Ok(_)) => (CommitStage::Checking, CommitStep::Check),
        (CommitStage::Checking, Ok(_)) => (CommitStage::Recording, CommitStep::Record),
        (CommitStage::Recording, Ok(_)) => (CommitStage::Reloading, CommitStep::Reload),
        (CommitStage::RollingBack(e), Ok(_)) => (
            CommitStage::Over,
            CommitStep::Fail(
                Some(
                    "config check failed after an edit; the previous config.toml was restored".to_owned(),
                ),
                cat3(
                    c.what.as_str(),
                    ": `herdr config check` rejected the result, restored the previous config.\n",
                    e.as_str(),
                ),
            ),
        ),
        (CommitStage::Undoing(e), Ok(_)) => (CommitStage::Over, CommitStep::Fail(None, e.clone())),
        (_, Ok(_)) => (
            CommitStage::Over,
            CommitStep::Applied(cat(c.what.as_str(), ": applied")),
        ),
        (CommitStage::Checking, Err(e)) => (CommitStage::RollingBack(e), CommitStep::WriteOld),
        (CommitStage::Recording, Err(e)) => (CommitStage::Undoing(e), CommitStep::WriteOld),
        (CommitStage::Reloading, Err(e)) => (
            CommitStage::Over,
            CommitStep::Fail(
                Some("config.toml updated but the server reload failed".to_owned()),
                cat3(
                    c.what.as_str(),
                    ": config written and valid, but the reload failed (is the server running?)\n",
                    e.as_str(),
                ),
            ),
        ),
        (_, Err(e)) => (CommitStage::Over, CommitStep::Fail(None, e)),
    };
    c.stage = stage;
    step
}

fn begun(c: &Commit) -> (r: (CommitStage, CommitStep))
    ensures
        (r.0@, r.1@) == first_step(
            c.path@,
            c.original@,
            c.updated@,
            c.dry_run,
            c.what@,
        ),
{
    if same(c.updated.as_str(), c.original.as_str()) {
        (
            CommitStage::Over,
            CommitStep::Idle(cat(c.what.as_str(), ": already in place, nothing to do")),
        )
    } else if c.dry_run {
        (
            CommitStage::Over,
            CommitStep::Preview(
                cat4(c.what.as_str(), ": dry run, would change ", c.path.as_str(), ":"),
                diff(c.original.as_str(), c.updated.as_str()),
            ),
        )
    } else {
        (CommitStage::BackingUp, CommitStep::Backup)
    }
}

/// The message for a file that could not be read, written or made.
pub fn file_message(doing: &str, path: &str, reason: &str) -> (r: String)
    ensures
        r@ == doing@ + " "@ + path@ + ": "@ + reason@,
{
    cat5(doing, " ", path, ": ", reason)
}

// --- laws ------------------------------------------------------------------------

/// What a file holds after a step, where each step that is taken either works or
/// leaves the file as it was.
pub open spec fn content_after(
    step: CommitView,
    works: bool,
    content: Seq<char>,
    original: Seq<char>,
    updated: Seq<char>,
) -> Seq<char> {
    match step {
        CommitView::WriteNew => if works {
            updated
        } else {
            content
        },
        CommitView::WriteOld => if works {
            original
        } else {
            content
        },
        _ => content,
    }
}

/// What the file holds, and the last step, once a commit is played to its end.
/// `works` says which steps work, `error` what those that do not say.
pub open spec fn played(
    stage: StageView,
    path: Seq<char>,
    original: Seq<char>,
    updated: Seq<char>,
    dry_run: bool,
    what: Seq<char>,
    outcome: Result<(), Seq<char>>,
    works: spec_fn(CommitView) -> bool,
    error: Seq<char>,
    content: Seq<char>,
    fuel: nat,
) -> (Seq<char>, CommitView)
    decreases fuel,
{
    let (stage1, step) = commit_step(stage, path, original, updated, dry_run, what, outcome);
    let content1 = content_after(step, works(step), content, original, updated);
    if stage1 is Over || fuel == 0 {
        (content1, step)
    } else {
        played(
            stage1,
            path,
            original,
            updated,
            dry_run,
            what,
            if works(step) {
                Ok(())
            } else {
                Err(error)
            },
            works,
            error,
            content1,
            (fuel - 1) as nat,
        )
    }
}

/// What the file holds, and the last step, after a whole commit.
pub open spec fn committed(
    path: Seq<char>,
    original: Seq<char>,
    updated: Seq<char>,
    dry_run: bool,
    what: Seq<char>,
    works: spec_fn(CommitView) -> bool,
    error: Seq<char>,
) -> (Seq<char>, CommitView) {
    played(
        StageView::Begun,
        path,
        original,
        updated,
        dry_run,
        what,
        Ok(()),
        works,
        error,
        original,
        6,
    )
}

/// A commit ends, and what it leaves in the file is known. Where nothing changes
/// and in a dry run nothing is written. The new text stays only where the check
/// passed and what is managed is on record. Where one of these fails, the old text is
/// restored and the commit fails.
pub proof fn law_failed_checks_are_rolled_back(
    path: Seq<char>,
    original: Seq<char>,
    updated: Seq<char>,
    dry_run: bool,
    what: Seq<char>,
    works: spec_fn(CommitView) -> bool,
    error: Seq<char>,
)
    ensures
        ({
            let (content, last) = committed(path, original, updated, dry_run, what, works, error);
            &&& updated == original ==> content == original && last is Idle
            &&& updated != original && dry_run ==> content == original && last is Preview
            &&& last is Applied ==> content == updated && works(CommitView::Check) && works(
                CommitView::Record,
            )
            &&& updated != original && !dry_run && works(CommitView::Backup) && works(
                CommitView::WriteNew,
            ) ==> {
                &&& works(CommitView::Check) && works(CommitView::Record) ==> content == updated
                &&& works(CommitView::Check) && works(CommitView::Record) && works(
                    CommitView::Reload,
                ) ==> last is Applied
                &&& !(works(CommitView::Check) && works(CommitView::Record)) ==> last is Fail
                &&& !(works(CommitView::Check) && works(CommitView::Record)) && works(
                    CommitView::WriteOld,
                ) ==> content == original
            }
            &&& !works(CommitView::Backup) || !works(CommitView::WriteNew) ==> content == original
        }),
{
    reveal_with_fuel(played, 8);
}

/// Nothing is written before the backup is there.
pub proof fn law_backup_comes_first(
    path: Seq<char>,
    original: Seq<char>,
    updated: Seq<char>,
    dry_run: bool,
    what: Seq<char>,
    outcome: Result<(), Seq<char>>,
    stage: StageView,
)
    requires
        commit_step(stage, path, original, updated, dry_run, what, outcome).1 is WriteNew,
    ensures
        stage is BackingUp,
        outcome is Ok,
{
}

/// What is managed is put on record as soon as the new text is checked, and before
/// Herdr is told: it is on record though the reload fails.
pub proof fn law_record_comes_before_reload(
    path: Seq<char>,
    original: Seq<char>,
    updated: Seq<char>,
    dry_run: bool,
    what: Seq<char>,
    outcome: Result<(), Seq<char>>,
    stage: StageView,
)
    ensures
        ({
            let step = commit_step(stage, path, original, updated, dry_run, what, outcome).1;
            &&& step is Record <==> stage is Checking && outcome is Ok
            &&& step is Reload <==> stage is Recording && outcome is Ok
        }),
{
}

proof fn lemma_only_in_split(
    a: Seq<Seq<char>>,
    b: Seq<Seq<char>>,
    sign: Seq<char>,
    i: int,
) -> (r: (Seq<char>, Seq<char>))
    requires
        0 <= i < a.len(),
        !b.contains(a[i]),
    ensures
        only_in(a, b, sign) == r.0 + (sign + a[i] + "\n"@) + r.1,
        r.0 == only_in(a.take(i), b, sign),
        r.1 == only_in(a.skip(i + 1), b, sign),
    decreases a.len(),
{
    let rest = a.drop_last();
    let none = Seq::<char>::empty();
    if i < rest.len() {
        let (x, y) = lemma_only_in_split(rest, b, sign, i);
        assert(rest.take(i) =~= a.take(i));
        let tail = a.skip(i + 1);
        assert(tail.drop_last() =~= rest.skip(i + 1));
        assert(tail.last() == a.last());
        let z = only_in(tail, b, sign);
        assert(only_in(a, b, sign) =~= x + (sign + a[i] + "\n"@) + z);
        (x, z)
    } else {
        assert(a.last() == a[i]);
        assert(a.take(i) =~= rest);
        assert(a.skip(i + 1) =~= seq![]);
        let x = only_in(rest, b, sign);
        assert(only_in(a, b, sign) =~= x + (sign + a[i] + "\n"@) + none);
        (x, none)
    }
}

proof fn lemma_only_in_none(a: Seq<Seq<char>>, b: Seq<Seq<char>>, sign: Seq<char>)
    requires
        forall|i: int| 0 <= i < a.len() ==> b.contains(#[trigger] a[i]),
    ensures
        only_in(a, b, sign).len() == 0,
    decreases a.len(),
{
    if a.len() > 0 {
        assert(a[a.len() - 1] == a.last());
        assert forall|i: int| 0 <= i < a.drop_last().len() implies b.contains(
            #[trigger] a.drop_last()[i],
        ) by {
            assert(a.drop_last()[i] == a[i]);
        }
        lemma_only_in_none(a.drop_last(), b, sign);
    }
}

/// What differs between a text and itself is nothing; more than that, where every
/// line of either text is one of the other, nothing differs.
pub proof fn law_same_lines_do_not_differ(a: Seq<char>, b: Seq<char>)
    requires
        forall|l: Seq<char>| #[trigger] lines_of(a).contains(l) <==> lines_of(b).contains(l),
    ensures
        diff_of(a, b).len() == 0,
{
    let x = lines_of(a);
    let y = lines_of(b);
    assert forall|i: int| 0 <= i < x.len() implies y.contains(#[trigger] x[i]) by {
        assert(x.contains(x[i]));
    }
    assert forall|i: int| 0 <= i < y.len() implies x.contains(#[trigger] y[i]) by {
        assert(y.contains(y[i]));
    }
    lemma_only_in_none(x, y, "- "@);
    lemma_only_in_none(y, x, "+ "@);
}

/// Every line that goes is shown behind a minus sign, on a line of its own, and the
/// lines before it and after it in the old text are shown before and after it.
pub proof fn law_lines_that_go_are_shown(old_text: Seq<char>, new_text: Seq<char>, i: int)
    requires
        0 <= i < lines_of(old_text).len(),
        !lines_of(new_text).contains(lines_of(old_text)[i]),
    ensures
        ({
            let x = lines_of(old_text);
            let y = lines_of(new_text);
            diff_of(old_text, new_text) == only_in(x.take(i), y, "- "@) + ("- "@ + x[i] + "\n"@)
                + only_in(x.skip(i + 1), y, "- "@) + only_in(y, x, "+ "@)
        }),
{
    let (a, b) = lemma_only_in_split(lines_of(old_text), lines_of(new_text), "- "@, i);
}

/// Every line that comes is shown behind a plus sign, on a line of its own, after all
/// those that go.
pub proof fn law_lines_that_come_are_shown(old_text: Seq<char>, new_text: Seq<char>, i: int)
    requires
        0 <= i < lines_of(new_text).len(),
        !lines_of(old_text).contains(lines_of(new_text)[i]),
    ensures
        ({
            let x = lines_of(old_text);
            let y = lines_of(new_text);
            diff_of(old_text, new_text) == only_in(x, y, "- "@) + only_in(y.take(i), x, "+ "@) + (
            "+ "@ + y[i] + "\n"@) + only_in(y.skip(i + 1), x, "+ "@)
        }),
{
    let x = lines_of(old_text);
    let y = lines_of(new_text);
    let (a, b) = lemma_only_in_split(y, x, "+ "@, i);
    assert(diff_of(old_text, new_text) =~= only_in(x, y, "- "@) + only_in(y.take(i), x, "+ "@) + (
    "+ "@ + y[i] + "\n"@) + only_in(y.skip(i + 1), x, "+ "@));
}

/// When a commit does what: it begins with the backup, unless nothing changes or it
/// is a dry run; each next step needs the one before to have worked; and the old text
/// is written back where the check or the record fails, and only there.
pub proof fn law_when_a_commit_does_what(
    path: Seq<char>,
    original: Seq<char>,
    updated: Seq<char>,
    dry_run: bool,
    what: Seq<char>,
    outcome: Result<(), Seq<char>>,
    stage: StageView,
)
    ensures
        ({
            let (stage1, step) = commit_step(
                stage,
                path,
                original,
                updated,
                dry_run,
                what,
                outcome,
            );
            let begun = stage is Begun;
            &&& step is Idle <==> begun && updated == original
            &&& step is Preview <==> begun && updated != original && dry_run
            &&& step is Backup <==> begun && updated != original && !dry_run
            &&& step is WriteNew <==> stage is BackingUp && outcome is Ok
            &&& step is Check <==> stage is Writing && outcome is Ok
            &&& step is WriteOld <==> (stage is Checking || stage is Recording) && outcome is Err
            &&& stage1 is Over <==> step is Idle || step is Preview || step is Applied
                || step is Fail
            &&& step is Backup ==> stage1 is BackingUp
            &&& step is WriteNew ==> stage1 is Writing
            &&& step is Check ==> stage1 is Checking
            &&& step is Record ==> stage1 is Recording
            &&& step is Reload ==> stage1 is Reloading
            &&& step is WriteOld && stage is Checking ==> stage1 == StageView::RollingBack(
                outcome->Err_0,
            )
            &&& step is WriteOld && stage is Recording ==> stage1 == StageView::Undoing(
                outcome->Err_0,
            )
        }),
{
}

/// What the user is told of a commit: that it was applied only where the reload
/// worked; of a failure always the reason, with a notification where the check or the
/// reload failed, and then with what it was.
pub proof fn law_what_is_told_of_a_commit(
    path: Seq<char>,
    original: Seq<char>,
    updated: Seq<char>,
    dry_run: bool,
    what: Seq<char>,
    outcome: Result<(), Seq<char>>,
    stage: StageView,
)
    ensures
        ({
            let step = commit_step(stage, path, original, updated, dry_run, what, outcome).1;
            &&& step is Idle ==> step->Idle_0 == what + ": already in place, nothing to do"@
            &&& step is Preview ==> step == CommitView::Preview(
                what + ": dry run, would change "@ + path + ":"@,
                diff_of(original, updated),
            )
            &&& step is Applied ==> step->Applied_0 == what + ": applied"@ && (stage is Reloading
                || stage is Over) && outcome is Ok
            &&& step is Fail && outcome is Ok ==> {
                &&& stage is RollingBack || stage is Undoing
                &&& stage is RollingBack ==> step == CommitView::Fail(
                    Some(
                        "config check failed after an edit; the previous config.toml was restored"@,
                    ),
                    what
                        + ": `herdr config check` rejected the result, restored the previous config.\n"@
                        + stage->RollingBack_0,
                )
                &&& stage is Undoing ==> step == CommitView::Fail(None, stage->Undoing_0)
            }
            &&& step is Fail && outcome is Err ==> {
                &&& stage is Reloading ==> step == CommitView::Fail(
                    Some("config.toml updated but the server reload failed"@),
                    what
                        + ": config written and valid, but the reload failed (is the server running?)\n"@
                        + outcome->Err_0,
                )
                &&& !(stage is Reloading) ==> step == CommitView::Fail(None, outcome->Err_0)
            }
        }),
{
}

} // verus!
