//! What the plugin keeps for the user in the text of Herdr's configuration.
//!
//! It stands in one block of comments before the user's text: which tables the user
//! left empty, and the user's own values that gave way to a palette. The block has a
//! line of its own at its beginning and at its end. The first such block of a text is
//! the plugin's; where the user's text holds one too, a block is written before it
//! though there is nothing to keep, so that the user's is never taken for it.
use crate::own::{
    after_note, after_notes, law_notes_tell_tables, lemma_notes_then, note_mark, noted, read_notes,
    write_notes, Own,
};
use crate::text::{
    begins, cat, chars_of, cut, first_at, lemma_first_at, matches_at, stands_at, starts_with,
};
use vstd::prelude::*;

verus! {

// --- lines of comment ------------------------------------------------------------

/// What the lines of a kept text begin with.
pub open spec fn marker() -> Seq<char> {
    "# space-colors keeps: "@
}

/// A text with an end to its last line.
pub open spec fn closed(t: Seq<char>) -> Seq<char> {
    if t.len() == 0 || t.last() == '\n' {
        t
    } else {
        t.push('\n')
    }
}

/// Ends the last line of a text.
pub fn close(t: String) -> (r: String)
    ensures
        r@ == closed(t@),
{
    let v = chars_of(t.as_str());
    let n: usize = v.len();
    if n == 0 || v[n - 1] == '\n' {
        t
    } else {
        let r = cat(t.as_str(), "\n");
        proof {
            reveal_strlit("\n");
            assert(r@ =~= t@.push('\n'));
        }
        r
    }
}

/// A text as lines of comment.
pub open spec fn commented(t: Seq<char>) -> Seq<char>
    decreases t.len(),
{
    let i = first_at(t, '\n');
    if t.len() == 0 {
        t
    } else if 0 <= i < t.len() {
        marker() + t.take(i + 1) + commented(t.skip(i + 1))
    } else {
        marker() + t.push('\n')
    }
}

/// The text that the first lines of comment keep, and what comes after them.
pub open spec fn uncommented(s: Seq<char>) -> (Seq<char>, Seq<char>)
    decreases s.len(),
{
    let i = first_at(s, '\n');
    if !begins(s, marker()) {
        (seq![], s)
    } else if 0 <= i < s.len() {
        let (t, rest) = uncommented(s.skip(i + 1));
        (s.take(i + 1).skip(marker().len() as int) + t, rest)
    } else {
        (s.skip(marker().len() as int), seq![])
    }
}

proof fn lemma_marker()
    ensures
        marker().len() == 22,
        forall|j: int| 0 <= j < 22 ==> marker()[j] != '\n',
{
    reveal_strlit("# space-colors keeps: ");
}

proof fn lemma_first_at_found(s: Seq<char>, c: char)
    ensures
        0 <= first_at(s, c) <= s.len(),
        first_at(s, c) < s.len() ==> s[first_at(s, c)] == c,
        forall|j: int| 0 <= j < first_at(s, c) ==> s[j] != c,
    decreases s.len(),
{
    if s.len() > 0 && s[0] != c {
        lemma_first_at_found(s.skip(1), c);
        assert forall|j: int| 0 <= j < first_at(s, c) implies s[j] != c by {
            if j > 0 {
                assert(s.skip(1)[j - 1] != c);
            }
        }
    }
}

/// A line of comment at the front is taken off whole.
proof fn lemma_line_off(line: Seq<char>, more: Seq<char>)
    requires
        line.len() > 0,
        line.last() == '\n',
        forall|j: int| 0 <= j < line.len() - 1 ==> line[j] != '\n',
    ensures
        uncommented(marker() + line + more) == (
            line + uncommented(more).0,
            uncommented(more).1,
        ),
{
    lemma_marker();
    let s = marker() + line + more;
    let i = 22 + line.len() - 1;
    assert forall|j: int| 0 <= j < i implies s[j] != '\n' by {
        if j < 22 {
            assert(s[j] == marker()[j]);
        } else {
            assert(s[j] == line[j - 22]);
        }
    }
    assert(s[i] == line[line.len() - 1]);
    lemma_first_at(s, '\n', i);
    assert(s.take(22) =~= marker());
    assert(s.take(i + 1).skip(22) =~= line);
    assert(s.skip(i + 1) =~= more);
}

/// Lines of comment give back the text that they keep, with an end to its last
/// line, and what comes after them.
pub proof fn law_comments_keep_the_text(t: Seq<char>, rest: Seq<char>)
    requires
        !begins(rest, marker()),
    ensures
        uncommented(commented(t) + rest) == (closed(t), rest),
    decreases t.len(),
{
    if t.len() == 0 {
        assert(commented(t) + rest =~= rest);
        assert(closed(t) =~= seq![]);
    } else {
        let i = first_at(t, '\n');
        lemma_first_at_found(t, '\n');
        if i < t.len() {
            let line = t.take(i + 1);
            let more = t.skip(i + 1);
            law_comments_keep_the_text(more, rest);
            lemma_line_off(line, commented(more) + rest);
            assert(commented(t) + rest =~= marker() + line + (commented(more) + rest));
            assert(line + closed(more) =~= closed(t)) by {
                if more.len() > 0 {
                    assert(more.last() == t.last());
                } else {
                    assert(line =~= t);
                }
            }
        } else {
            let line = t.push('\n');
            assert(t.last() != '\n');
            lemma_line_off(line, rest);
            assert(line + uncommented(rest).0 =~= line);
            assert(commented(t) + rest =~= marker() + line + rest);
        }
    }
}

fn comment_out(t: &str) -> (r: String)
    ensures
        r@ == commented(t@),
{
    let v = chars_of(t);
    let mut out = String::new();
    let mut from: usize = 0;
    assert(t@.skip(0) =~= t@);
    assert(out@ + commented(t@) =~= commented(t@));
    while from < v.len()
        invariant
            v@ == t@,
            from <= v@.len(),
            out@ + commented(t@.skip(from as int)) == commented(t@),
        decreases v@.len() - from,
    {
        let mut i: usize = from;
        while i < v.len() && v[i] != '\n'
            invariant
                from <= i <= v@.len(),
                forall|j: int| from <= j < i ==> v@[j] != '\n',
            decreases v@.len() - i,
        {
            i += 1;
        }
        let ghost rest = t@.skip(from as int);
        let ghost before = out@;
        proof {
            assert forall|j: int| 0 <= j < i - from implies rest[j] != '\n' by {
                assert(v@[from + j] != '\n');
            }
            lemma_first_at(rest, '\n', i - from);
        }
        out.append("# space-colors keeps: ");
        if i < v.len() {
            let line = cut(t, from, i + 1);
            out.append(line.as_str());
            proof {
                assert(line@ =~= rest.take(i - from + 1));
                assert(rest.skip(i - from + 1) =~= t@.skip(i + 1));
                assert(before + (marker() + line@ + commented(t@.skip(i + 1))) =~= before
                    + marker() + line@ + commented(t@.skip(i + 1)));
            }
            from = i + 1;
        } else {
            let line = cut(t, from, i);
            out.append(line.as_str());
            out.append("\n");
            proof {
                reveal_strlit("\n");
                assert(line@ =~= rest);
                assert("\n"@ =~= seq!['\n']);
                assert(before + (marker() + rest.push('\n')) =~= before + marker() + line@
                    + "\n"@);
                assert(t@.skip(i as int) =~= seq![]);
                assert(out@ + commented(t@.skip(i as int)) =~= out@);
            }
            from = i;
        }
    }
    assert(t@.skip(from as int) =~= seq![]);
    assert(out@ + commented(t@.skip(from as int)) =~= out@);
    out
}

fn comment_in(s: &str) -> (r: (String, String))
    ensures
        (r.0@, r.1@) == uncommented(s@),
{
    proof {
        lemma_marker();
    }
    let v = chars_of(s);
    let n: usize = v.len();
    let mark = "# space-colors keeps: ";
    let m: usize = mark.unicode_len();
    let mut text = String::new();
    let mut from: usize = 0;
    assert(s@.skip(0) =~= s@);
    assert(text@ + uncommented(s@).0 =~= uncommented(s@).0);
    loop
        invariant
            v@ == s@,
            n == v@.len(),
            m == 22,
            mark@ == marker(),
            marker().len() == 22,
            from <= n,
            text@ + uncommented(s@.skip(from as int)).0 == uncommented(s@).0,
            uncommented(s@.skip(from as int)).1 == uncommented(s@).1,
        decreases n - from,
    {
        let ghost here = s@.skip(from as int);
        let rest = cut(s, from, n);
        assert(rest@ =~= here);
        if !starts_with(rest.as_str(), mark) {
            assert(text@ + uncommented(here).0 =~= text@);
            return (text, rest);
        }
        let mut i: usize = from;
        while i < n && v[i] != '\n'
            invariant
                n == v@.len(),
                from <= i <= n,
                forall|j: int| from <= j < i ==> v@[j] != '\n',
            decreases n - i,
        {
            i += 1;
        }
        proof {
            assert forall|j: int| 0 <= j < i - from implies here[j] != '\n' by {
                assert(v@[from + j] != '\n');
            }
            lemma_first_at(here, '\n', i - from);
            lemma_marker();
            assert(here.take(22) == marker());
            if i < n && i - from < 22 {
                assert(here[i - from] == marker()[i - from]);
            }
        }
        if i < n {
            let line = cut(s, from + m, i + 1);
            let ghost before = text@;
            text.append(line.as_str());
            proof {
                assert(line@ =~= here.take(i - from + 1).skip(22));
                assert(here.skip(i - from + 1) =~= s@.skip(i + 1));
                let t = uncommented(s@.skip(i + 1)).0;
                assert(before + (line@ + t) =~= text@ + t);
            }
            from = i + 1;
        } else {
            let line = cut(s, from + m, n);
            text.append(line.as_str());
            assert(line@ =~= here.skip(22));
            let none = String::new();
            assert(none@ =~= seq![]);
            return (text, none);
        }
    }
}

// --- blocks ----------------------------------------------------------------------

/// What is kept for the user.
pub struct Memo {
    /// The tables that the user left empty.
    pub own: Own,
    /// The user's own values that gave way, as a TOML text.
    pub kept: String,
}

/// What a [`Memo`] holds.
pub struct MemoView {
    pub own: Own,
    pub kept: Seq<char>,
}

impl Memo {
    pub open spec fn view(&self) -> MemoView {
        MemoView { own: self.own, kept: self.kept@ }
    }

    /// Nothing is kept.
    pub fn nothing() -> (r: Memo)
        ensures
            r@ == no_memo(),
    {
        let kept = String::new();
        assert(kept@ =~= seq![]);
        Memo {
            own: Own {
                theme: false,
                custom: false,
                ui: false,
                sidebar: false,
                agents: false,
                spaces: false,
            },
            kept,
        }
    }

    fn is_nothing(&self) -> (r: bool)
        ensures
            r == (self@ == no_memo()),
    {
        let own = self.own;
        let none = !own.theme && !own.custom && !own.ui && !own.sidebar && !own.agents
            && !own.spaces;
        let empty = self.kept.unicode_len() == 0;
        assert(empty ==> self.kept@ =~= seq![]);
        none && empty
    }
}

/// Nothing is kept.
pub open spec fn no_memo() -> MemoView {
    MemoView { own: Own::none(), kept: seq![] }
}

/// The line that a block begins with.
pub open spec fn open_line() -> Seq<char> {
    "# space-colors begin\n"@
}

/// The line that a block ends with.
pub open spec fn close_line() -> Seq<char> {
    "# space-colors end\n"@
}

/// A text after a block.
pub open spec fn with_block(m: MemoView, t: Seq<char>) -> Seq<char> {
    open_line() + after_notes(m.own, commented(m.kept) + (close_line() + t))
}

/// What a block keeps and what comes after it, from behind its first line; none
/// where the block does not end.
pub open spec fn block_of(s: Seq<char>) -> Option<(MemoView, Seq<char>)> {
    let (own, s1) = noted(s);
    let (kept, s2) = uncommented(s1);
    if begins(s2, close_line()) {
        Some((MemoView { own, kept }, s2.skip(close_line().len() as int)))
    } else {
        None
    }
}

/// Whether a line of the text is one that a block begins with.
pub open spec fn opens(s: Seq<char>) -> bool
    decreases s.len(),
{
    let i = first_at(s, '\n');
    begins(s, open_line()) || (0 <= i < s.len() && opens(s.skip(i + 1)))
}

/// The text without its first block, and what that keeps; none where there is no
/// block, or the first does not end.
pub open spec fn without_block(s: Seq<char>) -> Option<(Seq<char>, MemoView)>
    decreases s.len(),
{
    let i = first_at(s, '\n');
    if begins(s, open_line()) {
        match block_of(s.skip(open_line().len() as int)) {
            Some((m, rest)) => Some((rest, m)),
            None => None,
        }
    } else if 0 <= i < s.len() {
        match without_block(s.skip(i + 1)) {
            Some((t, m)) => Some((s.take(i + 1) + t, m)),
            None => None,
        }
    } else {
        None
    }
}

/// The user's text and what is kept, from the whole text. Where nothing is managed
/// all of it is the user's.
pub open spec fn read_text(s: Seq<char>, managed: bool) -> (Seq<char>, MemoView) {
    if managed {
        match without_block(s) {
            Some((t, m)) => (t, m),
            None => (s, no_memo()),
        }
    } else {
        (s, no_memo())
    }
}

/// The whole text, from the user's and what is to be kept. Where nothing is managed
/// nothing is written but the user's.
pub open spec fn written(t: Seq<char>, m: MemoView, managed: bool) -> Seq<char> {
    if managed && (m != no_memo() || opens(t)) {
        with_block(m, t)
    } else {
        t
    }
}

proof fn lemma_nothing_opens(s: Seq<char>)
    requires
        !opens(s),
    ensures
        without_block(s) is None,
    decreases s.len(),
{
    let i = first_at(s, '\n');
    if 0 <= i < s.len() {
        lemma_nothing_opens(s.skip(i + 1));
    }
}

/// A text that begins with a line begins with no other that differs from it.
proof fn lemma_begun_otherwise(line: Seq<char>, rest: Seq<char>, other: Seq<char>, k: int)
    requires
        0 <= k < line.len(),
        k < other.len(),
        line[k] != other[k],
    ensures
        !begins(line + rest, other),
{
    if begins(line + rest, other) {
        assert((line + rest).take(other.len() as int)[k] == line[k]);
    }
}

proof fn lemma_block(m: MemoView, t: Seq<char>)
    requires
        closed(m.kept) == m.kept,
    ensures
        without_block(with_block(m, t)) == Some((t, m)),
{
    reveal_strlit("# space-colors begin\n");
    reveal_strlit("# space-colors end\n");
    reveal_strlit("# space-colors keeps: ");
    reveal_strlit("# space-colors leaves: ");
    let end = close_line() + t;
    let s1 = commented(m.kept) + end;
    let s = with_block(m, t);
    lemma_begun_otherwise(close_line(), t, marker(), 15);
    law_comments_keep_the_text(m.kept, end);
    assert(!begins(s1, note_mark())) by {
        if m.kept.len() == 0 {
            assert(s1 =~= end);
            lemma_begun_otherwise(close_line(), t, note_mark(), 15);
        } else {
            let more = s1.skip(marker().len() as int);
            assert(s1 =~= marker() + more);
            lemma_begun_otherwise(marker(), more, note_mark(), 15);
        }
    }
    law_notes_tell_tables(m.own, s1);
    assert(end.take(close_line().len() as int) =~= close_line());
    assert(end.skip(close_line().len() as int) =~= t);
    assert(s.take(open_line().len() as int) =~= open_line());
    assert(s.skip(open_line().len() as int) =~= after_notes(m.own, s1));
}

/// What is written is read: the user's text comes back whatever it holds, and what
/// is kept with it.
pub proof fn law_what_is_written_is_read(t: Seq<char>, m: MemoView, managed: bool)
    requires
        closed(m.kept) == m.kept,
        !managed ==> m == no_memo(),
    ensures
        read_text(written(t, m, managed), managed) == (t, m),
{
    if managed {
        if m != no_memo() || opens(t) {
            lemma_block(m, t);
        } else {
            lemma_nothing_opens(t);
        }
    }
}

/// Additions of the user's do not part the plugin from its block: it is found behind
/// lines that were added before it and in front of what was added after the user's
/// text, and all of these stay.
pub proof fn law_blocks_are_found_among_additions(
    before: Seq<char>,
    m: MemoView,
    t: Seq<char>,
    after: Seq<char>,
)
    requires
        closed(m.kept) == m.kept,
        closed(before) == before,
        !opens(before),
    ensures
        without_block(before + (with_block(m, t) + after)) == Some((before + (t + after), m)),
{
    lemma_block_then(m, t, after);
    lemma_block(m, t + after);
    lemma_found_behind(before, with_block(m, t) + after, t + after, m);
}

proof fn lemma_found_behind(before: Seq<char>, rest: Seq<char>, left: Seq<char>, m: MemoView)
    requires
        without_block(rest) == Some((left, m)),
        closed(before) == before,
        !opens(before),
    ensures
        without_block(before + rest) == Some((before + left, m)),
    decreases before.len(),
{
    if before.len() == 0 {
        assert(before + rest =~= rest);
        assert(before + left =~= left);
    } else {
        let s = before + rest;
        let i = first_at(before, '\n');
        lemma_first_at_found(before, '\n');
        assert(i < before.len()) by {
            if i == before.len() {
                assert(before[before.len() - 1] != '\n');
            }
        }
        lemma_first_at(s, '\n', i);
        lemma_no_open(before, rest, i);
        let more = before.skip(i + 1);
        assert(closed(more) == more) by {
            if more.len() > 0 {
                assert(more.last() == before.last());
            }
        }
        lemma_found_behind(more, rest, left, m);
        assert(s.skip(i + 1) =~= more + rest);
        assert(s.take(i + 1) + (more + left) =~= before + left);
    }
}

/// A first line that is whole and opens no block opens none with more behind it.
proof fn lemma_no_open(before: Seq<char>, rest: Seq<char>, i: int)
    requires
        0 <= i < before.len(),
        before[i] == '\n',
        !begins(before, open_line()),
    ensures
        !begins(before + rest, open_line()),
{
    reveal_strlit("# space-colors begin\n");
    let open = open_line();
    let s = before + rest;
    if begins(s, open) {
        assert(s.take(21)[i] == s[i] || i >= 21);
        assert(i >= 20) by {
            if i < 20 {
                assert(open[i] == '\n');
            }
        }
        assert(before.take(21) =~= s.take(21));
    }
}

proof fn lemma_block_then(m: MemoView, t: Seq<char>, after: Seq<char>)
    ensures
        with_block(m, t) + after == with_block(m, t + after),
{
    let a = commented(m.kept) + (close_line() + t);
    let b = commented(m.kept) + (close_line() + (t + after));
    assert(a + after =~= b);
    lemma_notes_then(m.own, a, after);
    assert(with_block(m, t) + after =~= open_line() + (after_notes(m.own, a) + after));
}

/// Where the first block begins.
fn find_open(s: &str) -> (r: Option<usize>)
    ensures
        match r {
            Some(p) => {
                &&& opens(s@)
                &&& stands_at(s@, open_line(), p as int)
                &&& without_block(s@) == match block_of(s@.skip(p + open_line().len())) {
                    Some((m, rest)) => Some((s@.take(p as int) + rest, m)),
                    None => None,
                }
            },
            None => !opens(s@) && without_block(s@) is None,
        },
{
    let v = chars_of(s);
    let line = chars_of("# space-colors begin\n");
    let n: usize = v.len();
    let m: usize = line.len();
    let mut from: usize = 0;
    proof {
        reveal_strlit("# space-colors begin\n");
        assert(s@.skip(0) =~= s@);
    }
    loop
        invariant
            v@ == s@,
            n == v@.len(),
            line@ == open_line(),
            m == line@.len(),
            m > 0,
            from <= n,
            opens(s@) == opens(s@.skip(from as int)),
            without_block(s@) == match without_block(s@.skip(from as int)) {
                Some((t, k)) => Some((s@.take(from as int) + t, k)),
                None => None,
            },
        decreases n - from,
    {
        let ghost here = s@.skip(from as int);
        proof {
            if m <= n - from {
                assert(here.take(m as int) =~= s@.subrange(from as int, from + m));
            }
        }
        if m <= n - from && matches_at(&v, &line, from) {
            assert(here.skip(m as int) =~= s@.skip(from + m));
            return Some(from);
        }
        let mut i: usize = from;
        while i < n && v[i] != '\n'
            invariant
                n == v@.len(),
                from <= i <= n,
                forall|j: int| from <= j < i ==> v@[j] != '\n',
            decreases n - i,
        {
            i += 1;
        }
        proof {
            assert forall|j: int| 0 <= j < i - from implies here[j] != '\n' by {
                assert(v@[from + j] != '\n');
            }
            lemma_first_at(here, '\n', i - from);
        }
        if i == n {
            return None;
        }
        proof {
            assert(here.skip(i - from + 1) =~= s@.skip(i + 1));
            match without_block(s@.skip(i + 1)) {
                Some((t, k)) => {
                    assert(s@.take(from as int) + (here.take(i - from + 1) + t) =~= s@.take(i + 1)
                        + t);
                },
                None => {},
            }
        }
        from = i + 1;
    }
}

/// Takes the first block off a text.
fn take_block(s: &str) -> (r: Option<(String, Memo)>)
    ensures
        match (r, without_block(s@)) {
            (Some((t, m)), Some((want, memo))) => t@ == want && m@ == memo,
            (None, None) => true,
            _ => false,
        },
{
    match find_open(s) {
        None => None,
        Some(p) => {
            let line = "# space-colors begin\n";
            let n: usize = s.unicode_len();
            let inner = cut(s, p + line.unicode_len(), n);
            assert(inner@ =~= s@.skip(p + open_line().len()));
            let (own, s1) = read_notes(inner.as_str());
            let (kept, s2) = comment_in(s1.as_str());
            let end = "# space-colors end\n";
            if starts_with(s2.as_str(), end) {
                let rest = cut(s2.as_str(), end.unicode_len(), s2.as_str().unicode_len());
                assert(rest@ =~= s2@.skip(close_line().len() as int));
                let before = cut(s, 0, p);
                assert(before@ =~= s@.take(p as int));
                Some((cat(before.as_str(), rest.as_str()), Memo { own, kept }))
            } else {
                None
            }
        },
    }
}

/// Reads the user's text, and what is kept, from the whole text; `None` where all of
/// it is the user's.
pub fn split_text(s: &str, managed: bool) -> (r: Option<(String, Memo)>)
    ensures
        match r {
            Some((t, m)) => read_text(s@, managed) == (t@, m@),
            None => read_text(s@, managed) == (s@, no_memo()),
        },
{
    if managed {
        take_block(s)
    } else {
        None
    }
}

/// Writes the whole text, from the user's and what is to be kept.
pub fn join_text(t: &str, m: &Memo, managed: bool) -> (r: String)
    ensures
        r@ == written(t@, m@, managed),
{
    if managed && (!m.is_nothing() || find_open(t).is_some()) {
        let end = cat("# space-colors end\n", t);
        let inner = cat(comment_out(m.kept.as_str()).as_str(), end.as_str());
        cat("# space-colors begin\n", write_notes(m.own, inner.as_str()).as_str())
    } else {
        t.to_owned()
    }
}

// --- what a block is for a reader of TOML ----------------------------------------

/// Whether a line of the text begins at that place.
pub open spec fn line_begins(b: Seq<char>, i: int) -> bool {
    0 <= i < b.len() && (i == 0 || b[i - 1] == '\n')
}

/// Whether a text is lines of comment alone: every line begins with a number sign,
/// and the last one is ended.
pub open spec fn all_comment(b: Seq<char>) -> bool {
    &&& b.len() == 0 || b.last() == '\n'
    &&& forall|i: int| #[trigger] line_begins(b, i) ==> b[i] == '#'
}

proof fn lemma_comment_joined(a: Seq<char>, b: Seq<char>)
    requires
        all_comment(a),
        all_comment(b),
    ensures
        all_comment(a + b),
{
    let c = a + b;
    assert forall|i: int| #[trigger] line_begins(c, i) implies c[i] == '#' by {
        if i < a.len() {
            assert(line_begins(a, i));
        } else {
            assert(line_begins(b, i - a.len()));
        }
    }
}

/// One line that begins with a number sign.
proof fn lemma_comment_line(line: Seq<char>)
    requires
        line.len() > 0,
        line[0] == '#',
        line.last() == '\n',
        forall|j: int| 0 <= j < line.len() - 1 ==> line[j] != '\n',
    ensures
        all_comment(line),
{
}

proof fn lemma_commented(t: Seq<char>)
    ensures
        all_comment(commented(t)),
    decreases t.len(),
{
    lemma_marker();
    lemma_first_at_found(t, '\n');
    reveal_strlit("# space-colors keeps: ");
    assert(marker()[0] == '#');
    let i = first_at(t, '\n');
    if t.len() > 0 {
        if i < t.len() {
            let line = marker() + t.take(i + 1);
            assert forall|j: int| 0 <= j < line.len() - 1 implies line[j] != '\n' by {
                if j < 22 {
                    assert(line[j] == marker()[j]);
                } else {
                    assert(line[j] == t[j - 22]);
                }
            }
            lemma_comment_line(line);
            lemma_commented(t.skip(i + 1));
            lemma_comment_joined(line, commented(t.skip(i + 1)));
        } else {
            let line = marker() + t.push('\n');
            assert forall|j: int| 0 <= j < line.len() - 1 implies line[j] != '\n' by {
                if j < 22 {
                    assert(line[j] == marker()[j]);
                } else {
                    assert(line[j] == t[j - 22]);
                }
            }
            lemma_comment_line(line);
        }
    }
}

/// A note, where it is there, before lines of comment.
proof fn lemma_note_comment(there: bool, line: Seq<char>, b: Seq<char>, rest: Seq<char>) -> (r: Seq<
    char,
>)
    requires
        all_comment(line),
        all_comment(b),
    ensures
        all_comment(r),
        after_note(there, line, b + rest) == r + rest,
{
    if there {
        lemma_comment_joined(line, b);
        assert(line + (b + rest) =~= (line + b) + rest);
        line + b
    } else {
        b
    }
}

proof fn lemma_note_lines()
    ensures
        all_comment("# space-colors leaves: ui.sidebar.spaces\n"@),
        all_comment("# space-colors leaves: ui.sidebar.agents\n"@),
        all_comment("# space-colors leaves: ui.sidebar\n"@),
{
    reveal_strlit("# space-colors leaves: ui.sidebar.spaces\n");
    reveal_strlit("# space-colors leaves: ui.sidebar.agents\n");
    reveal_strlit("# space-colors leaves: ui.sidebar\n");
    lemma_comment_line("# space-colors leaves: ui.sidebar.spaces\n"@);
    lemma_comment_line("# space-colors leaves: ui.sidebar.agents\n"@);
    lemma_comment_line("# space-colors leaves: ui.sidebar\n"@);
}

proof fn lemma_more_note_lines()
    ensures
        all_comment("# space-colors leaves: ui\n"@),
        all_comment("# space-colors leaves: theme.custom\n"@),
        all_comment("# space-colors leaves: theme\n"@),
        all_comment(open_line()),
        all_comment(close_line()),
{
    reveal_strlit("# space-colors leaves: ui\n");
    reveal_strlit("# space-colors leaves: theme.custom\n");
    reveal_strlit("# space-colors leaves: theme\n");
    reveal_strlit("# space-colors begin\n");
    reveal_strlit("# space-colors end\n");
    lemma_comment_line("# space-colors leaves: ui\n"@);
    lemma_comment_line("# space-colors leaves: theme.custom\n"@);
    lemma_comment_line("# space-colors leaves: theme\n"@);
    lemma_comment_line(open_line());
    lemma_comment_line(close_line());
}

proof fn lemma_notes_comment(own: Own, rest: Seq<char>) -> (b: Seq<char>)
    ensures
        all_comment(b),
        after_notes(own, rest) == b + rest,
{
    lemma_note_lines();
    lemma_more_note_lines();
    let none = Seq::<char>::empty();
    assert(none + rest =~= rest);
    let b6 = lemma_note_comment(
        own.spaces,
        "# space-colors leaves: ui.sidebar.spaces\n"@,
        none,
        rest,
    );
    let b5 = lemma_note_comment(
        own.agents,
        "# space-colors leaves: ui.sidebar.agents\n"@,
        b6,
        rest,
    );
    let b4 = lemma_note_comment(own.sidebar, "# space-colors leaves: ui.sidebar\n"@, b5, rest);
    let b3 = lemma_note_comment(own.ui, "# space-colors leaves: ui\n"@, b4, rest);
    let b2 = lemma_note_comment(own.custom, "# space-colors leaves: theme.custom\n"@, b3, rest);
    lemma_note_comment(own.theme, "# space-colors leaves: theme\n"@, b2, rest)
}

proof fn lemma_parts_joined(a: Seq<char>, b: Seq<char>, c: Seq<char>, d: Seq<char>, t: Seq<char>)
    ensures
        a + (b + (c + (d + t))) == (a + (b + (c + d))) + t,
{
    assert(a + (b + (c + (d + t))) =~= (a + (b + (c + d))) + t);
}

/// All that is written before the user's text is comment, which ends with a line of
/// its own, so a reader of TOML sees the user's text alone; and where nothing is
/// managed, nothing is written before it.
pub proof fn law_what_is_kept_is_comment(t: Seq<char>, m: MemoView, managed: bool) -> (b: Seq<char>)
    ensures
        all_comment(b),
        written(t, m, managed) == b + t,
        !managed ==> b.len() == 0,
{
    let none = Seq::<char>::empty();
    if managed && (m != no_memo() || opens(t)) {
        lemma_more_note_lines();
        lemma_commented(m.kept);
        let c = commented(m.kept) + close_line();
        lemma_comment_joined(commented(m.kept), close_line());
        let notes = lemma_notes_comment(m.own, commented(m.kept) + (close_line() + t));
        lemma_comment_joined(notes, c);
        lemma_comment_joined(open_line(), notes + c);
        let b = open_line() + (notes + c);
        lemma_parts_joined(open_line(), notes, commented(m.kept), close_line(), t);
        b
    } else {
        assert(none + t =~= t);
        none
    }
}

} // verus!
