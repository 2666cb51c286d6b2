//! Which tables of Herdr's configuration the user left empty.
//!
//! An edit that puts something in a table that stood there empty notes so in a
//! comment, so that the table stays when everything comes out of it again.
use crate::text::{begins, cat, cut, same, starts_with};
use vstd::prelude::*;

verus! {

/// Which of the tables that the edits pass through are the user's though nothing of
/// the user's stands in them.
#[derive(Clone, Copy, Debug, PartialEq, Eq, Structural)]
pub struct Own {
    /// `theme`
    pub theme: bool,
    /// `theme.custom`
    pub custom: bool,
    /// `ui`
    pub ui: bool,
    /// `ui.sidebar`
    pub sidebar: bool,
    /// `ui.sidebar.agents`
    pub agents: bool,
    /// `ui.sidebar.spaces`
    pub spaces: bool,
}

impl Own {
    /// None of the tables.
    pub open spec fn none() -> Own {
        Own {
            theme: false,
            custom: false,
            ui: false,
            sidebar: false,
            agents: false,
            spaces: false,
        }
    }

    /// Whether the table of a sidebar kind is the user's.
    pub open spec fn kind(&self, kind: Seq<char>) -> bool {
        (kind == "agents"@ && self.agents) || (kind == "spaces"@ && self.spaces)
    }

    pub(crate) fn has_kind(&self, kind: &str) -> (r: bool)
        ensures
            r == self.kind(kind@),
    {
        (same(kind, "agents") && self.agents) || (same(kind, "spaces") && self.spaces)
    }

    /// Those under `theme`, those under `ui`, or both.
    pub open spec fn within(&self, theme: bool, ui: bool) -> Own {
        Own {
            theme: self.theme && theme,
            custom: self.custom && theme,
            ui: self.ui && ui,
            sidebar: self.sidebar && ui,
            agents: self.agents && ui,
            spaces: self.spaces && ui,
        }
    }

    pub(crate) fn only(&self, theme: bool, ui: bool) -> (r: Own)
        ensures
            r == self.within(theme, ui),
    {
        Own {
            theme: self.theme && theme,
            custom: self.custom && theme,
            ui: self.ui && ui,
            sidebar: self.sidebar && ui,
            agents: self.agents && ui,
            spaces: self.spaces && ui,
        }
    }
}

// --- notes -----------------------------------------------------------------------

/// What every note begins with.
pub open spec fn note_mark() -> Seq<char> {
    "# space-colors leaves: "@
}

/// A text after a note, or without one.
pub open spec fn after_note(there: bool, line: Seq<char>, rest: Seq<char>) -> Seq<char> {
    if there {
        line + rest
    } else {
        rest
    }
}

/// A text after the notes on the user's tables.
pub open spec fn after_notes(own: Own, rest: Seq<char>) -> Seq<char> {
    let r5 = after_note(own.spaces, "# space-colors leaves: ui.sidebar.spaces\n"@, rest);
    let r4 = after_note(own.agents, "# space-colors leaves: ui.sidebar.agents\n"@, r5);
    let r3 = after_note(own.sidebar, "# space-colors leaves: ui.sidebar\n"@, r4);
    let r2 = after_note(own.ui, "# space-colors leaves: ui\n"@, r3);
    let r1 = after_note(own.custom, "# space-colors leaves: theme.custom\n"@, r2);
    after_note(own.theme, "# space-colors leaves: theme\n"@, r1)
}

/// A text without a note that it begins with.
pub open spec fn past(s: Seq<char>, line: Seq<char>) -> Seq<char> {
    if begins(s, line) {
        s.skip(line.len() as int)
    } else {
        s
    }
}

/// The tables that the first lines of a text note, and what comes after them.
pub open spec fn noted(s: Seq<char>) -> (Own, Seq<char>) {
    let s1 = past(s, "# space-colors leaves: theme\n"@);
    let s2 = past(s1, "# space-colors leaves: theme.custom\n"@);
    let s3 = past(s2, "# space-colors leaves: ui\n"@);
    let s4 = past(s3, "# space-colors leaves: ui.sidebar\n"@);
    let s5 = past(s4, "# space-colors leaves: ui.sidebar.agents\n"@);
    let s6 = past(s5, "# space-colors leaves: ui.sidebar.spaces\n"@);
    (
        Own {
            theme: begins(s, "# space-colors leaves: theme\n"@),
            custom: begins(s1, "# space-colors leaves: theme.custom\n"@),
            ui: begins(s2, "# space-colors leaves: ui\n"@),
            sidebar: begins(s3, "# space-colors leaves: ui.sidebar\n"@),
            agents: begins(s4, "# space-colors leaves: ui.sidebar.agents\n"@),
            spaces: begins(s5, "# space-colors leaves: ui.sidebar.spaces\n"@),
        },
        s6,
    )
}

fn go_past(s: &str, line: &str) -> (r: (bool, String))
    ensures
        r.0 == begins(s@, line@),
        r.1@ == past(s@, line@),
{
    if starts_with(s, line) {
        let rest = cut(s, line.unicode_len(), s.unicode_len());
        assert(rest@ =~= s@.skip(line@.len() as int));
        (true, rest)
    } else {
        (false, s.to_owned())
    }
}

/// Reads the notes on the user's tables off the front of a text.
pub fn read_notes(s: &str) -> (r: (Own, String))
    ensures
        (r.0, r.1@) == noted(s@),
{
    let (theme, s1) = go_past(s, "# space-colors leaves: theme\n");
    let (custom, s2) = go_past(s1.as_str(), "# space-colors leaves: theme.custom\n");
    let (ui, s3) = go_past(s2.as_str(), "# space-colors leaves: ui\n");
    let (sidebar, s4) = go_past(s3.as_str(), "# space-colors leaves: ui.sidebar\n");
    let (agents, s5) = go_past(s4.as_str(), "# space-colors leaves: ui.sidebar.agents\n");
    let (spaces, s6) = go_past(s5.as_str(), "# space-colors leaves: ui.sidebar.spaces\n");
    (Own { theme, custom, ui, sidebar, agents, spaces }, s6)
}

fn put_note(there: bool, line: &str, rest: &str) -> (r: String)
    ensures
        r@ == after_note(there, line@, rest@),
{
    if there {
        cat(line, rest)
    } else {
        rest.to_owned()
    }
}

/// Writes the notes on the user's tables before a text.
pub fn write_notes(own: Own, rest: &str) -> (r: String)
    ensures
        r@ == after_notes(own, rest@),
{
    let r5 = put_note(own.spaces, "# space-colors leaves: ui.sidebar.spaces\n", rest);
    let r4 = put_note(own.agents, "# space-colors leaves: ui.sidebar.agents\n", r5.as_str());
    let r3 = put_note(own.sidebar, "# space-colors leaves: ui.sidebar\n", r4.as_str());
    let r2 = put_note(own.ui, "# space-colors leaves: ui\n", r3.as_str());
    let r1 = put_note(own.custom, "# space-colors leaves: theme.custom\n", r2.as_str());
    put_note(own.theme, "# space-colors leaves: theme\n", r1.as_str())
}

/// Whether two texts differ at a place that both have.
spec fn differ(a: Seq<char>, b: Seq<char>) -> bool {
    exists|k: int| 0 <= k < a.len() && k < b.len() && #[trigger] a[k] != b[k]
}

/// A text that begins with one line does not begin with another that differs.
proof fn lemma_not_begun(line: Seq<char>, rest: Seq<char>, other: Seq<char>)
    requires
        differ(other, line),
    ensures
        !begins(line + rest, other),
{
    let k = choose|k: int| 0 <= k < other.len() && k < line.len() && #[trigger] other[k] != line[k];
    if begins(line + rest, other) {
        assert((line + rest).take(other.len() as int)[k] == line[k]);
    }
}

/// A note is read off, where it is there.
proof fn lemma_past(there: bool, line: Seq<char>, rest: Seq<char>)
    requires
        !begins(rest, line),
    ensures
        begins(after_note(there, line, rest), line) == there,
        past(after_note(there, line, rest), line) == rest,
{
    let s = after_note(there, line, rest);
    if there {
        assert(s.take(line.len() as int) =~= line);
        assert(s.skip(line.len() as int) =~= rest);
    }
}

proof fn lemma_lines_differ()
    ensures
        ({
            let l0 = "# space-colors leaves: theme\n"@;
            let l1 = "# space-colors leaves: theme.custom\n"@;
            let l2 = "# space-colors leaves: ui\n"@;
            let l3 = "# space-colors leaves: ui.sidebar\n"@;
            let l4 = "# space-colors leaves: ui.sidebar.agents\n"@;
            let l5 = "# space-colors leaves: ui.sidebar.spaces\n"@;
            &&& differ(l0, l1) && differ(l0, l2) && differ(l0, l3) && differ(l0, l4) && differ(
                l0,
                l5,
            )
            &&& differ(l1, l2) && differ(l1, l3) && differ(l1, l4) && differ(l1, l5)
            &&& differ(l2, l3) && differ(l2, l4) && differ(l2, l5)
            &&& differ(l3, l4) && differ(l3, l5)
            &&& differ(l4, l5)
        }),
{
    reveal_strlit("# space-colors leaves: theme\n");
    reveal_strlit("# space-colors leaves: theme.custom\n");
    reveal_strlit("# space-colors leaves: ui\n");
    reveal_strlit("# space-colors leaves: ui.sidebar\n");
    reveal_strlit("# space-colors leaves: ui.sidebar.agents\n");
    reveal_strlit("# space-colors leaves: ui.sidebar.spaces\n");
    let l0 = "# space-colors leaves: theme\n"@;
    let l1 = "# space-colors leaves: theme.custom\n"@;
    let l2 = "# space-colors leaves: ui\n"@;
    let l3 = "# space-colors leaves: ui.sidebar\n"@;
    let l4 = "# space-colors leaves: ui.sidebar.agents\n"@;
    let l5 = "# space-colors leaves: ui.sidebar.spaces\n"@;
    assert(l0[28] != l1[28]);
    assert(l0[23] != l2[23] && l0[23] != l3[23] && l0[23] != l4[23] && l0[23] != l5[23]);
    assert(l1[23] != l2[23] && l1[23] != l3[23] && l1[23] != l4[23] && l1[23] != l5[23]);
    assert(l2[25] != l3[25] && l2[25] != l4[25] && l2[25] != l5[25]);
    assert(l3[33] != l4[33] && l3[33] != l5[33]);
    assert(l4[34] != l5[34]);
}

/// A text that does not begin with the mark of a note begins with no note.
proof fn lemma_no_note(s: Seq<char>)
    requires
        !begins(s, note_mark()),
    ensures
        !begins(s, "# space-colors leaves: theme\n"@),
        !begins(s, "# space-colors leaves: theme.custom\n"@),
        !begins(s, "# space-colors leaves: ui\n"@),
        !begins(s, "# space-colors leaves: ui.sidebar\n"@),
        !begins(s, "# space-colors leaves: ui.sidebar.agents\n"@),
        !begins(s, "# space-colors leaves: ui.sidebar.spaces\n"@),
{
    reveal_strlit("# space-colors leaves: ");
    reveal_strlit("# space-colors leaves: theme\n");
    reveal_strlit("# space-colors leaves: theme.custom\n");
    reveal_strlit("# space-colors leaves: ui\n");
    reveal_strlit("# space-colors leaves: ui.sidebar\n");
    reveal_strlit("# space-colors leaves: ui.sidebar.agents\n");
    reveal_strlit("# space-colors leaves: ui.sidebar.spaces\n");
    lemma_marked(s, "# space-colors leaves: theme\n"@);
    lemma_marked(s, "# space-colors leaves: theme.custom\n"@);
    lemma_marked(s, "# space-colors leaves: ui\n"@);
    lemma_marked(s, "# space-colors leaves: ui.sidebar\n"@);
    lemma_marked(s, "# space-colors leaves: ui.sidebar.agents\n"@);
    lemma_marked(s, "# space-colors leaves: ui.sidebar.spaces\n"@);
}

proof fn lemma_marked(s: Seq<char>, line: Seq<char>)
    requires
        line.len() >= note_mark().len(),
        forall|k: int| 0 <= k < note_mark().len() ==> line[k] == note_mark()[k],
        !begins(s, note_mark()),
    ensures
        !begins(s, line),
{
    let m = note_mark();
    if begins(s, line) {
        assert forall|k: int| 0 <= k < m.len() implies s.take(m.len() as int)[k] == m[k] by {
            assert(s.take(line.len() as int)[k] == line[k]);
        }
        assert(s.take(m.len() as int) =~= m);
    }
}

/// A note that is not there, or differs, is not what a text begins with.
proof fn lemma_skipped(there: bool, line: Seq<char>, rest: Seq<char>, other: Seq<char>)
    requires
        differ(other, line),
        !begins(rest, other),
    ensures
        !begins(after_note(there, line, rest), other),
{
    if there {
        lemma_not_begun(line, rest, other);
    }
}

/// Notes tell which tables they are on, and what comes after them.
pub proof fn law_notes_tell_tables(own: Own, rest: Seq<char>)
    requires
        !begins(rest, note_mark()),
    ensures
        noted(after_notes(own, rest)) == (own, rest),
{
    let l0 = "# space-colors leaves: theme\n"@;
    let l1 = "# space-colors leaves: theme.custom\n"@;
    let l2 = "# space-colors leaves: ui\n"@;
    let l3 = "# space-colors leaves: ui.sidebar\n"@;
    let l4 = "# space-colors leaves: ui.sidebar.agents\n"@;
    let l5 = "# space-colors leaves: ui.sidebar.spaces\n"@;
    lemma_lines_differ();
    lemma_no_note(rest);
    let r5 = after_note(own.spaces, l5, rest);
    let r4 = after_note(own.agents, l4, r5);
    let r3 = after_note(own.sidebar, l3, r4);
    let r2 = after_note(own.ui, l2, r3);
    let r1 = after_note(own.custom, l1, r2);
    let r0 = after_note(own.theme, l0, r1);
    lemma_past(own.spaces, l5, rest);
    lemma_skipped(own.spaces, l5, rest, l4);
    lemma_past(own.agents, l4, r5);
    lemma_skipped(own.spaces, l5, rest, l3);
    lemma_skipped(own.agents, l4, r5, l3);
    lemma_past(own.sidebar, l3, r4);
    lemma_skipped(own.spaces, l5, rest, l2);
    lemma_skipped(own.agents, l4, r5, l2);
    lemma_skipped(own.sidebar, l3, r4, l2);
    lemma_past(own.ui, l2, r3);
    lemma_skipped(own.spaces, l5, rest, l1);
    lemma_skipped(own.agents, l4, r5, l1);
    lemma_skipped(own.sidebar, l3, r4, l1);
    lemma_skipped(own.ui, l2, r3, l1);
    lemma_past(own.custom, l1, r2);
    lemma_skipped(own.spaces, l5, rest, l0);
    lemma_skipped(own.agents, l4, r5, l0);
    lemma_skipped(own.sidebar, l3, r4, l0);
    lemma_skipped(own.ui, l2, r3, l0);
    lemma_skipped(own.custom, l1, r2, l0);
    lemma_past(own.theme, l0, r1);
    lemma_read(own, rest, r0, r1, r2, r3, r4, r5);
}

proof fn lemma_read(
    own: Own,
    rest: Seq<char>,
    r0: Seq<char>,
    r1: Seq<char>,
    r2: Seq<char>,
    r3: Seq<char>,
    r4: Seq<char>,
    r5: Seq<char>,
)
    requires
        past(r0, "# space-colors leaves: theme\n"@) == r1,
        past(r1, "# space-colors leaves: theme.custom\n"@) == r2,
        past(r2, "# space-colors leaves: ui\n"@) == r3,
        past(r3, "# space-colors leaves: ui.sidebar\n"@) == r4,
        past(r4, "# space-colors leaves: ui.sidebar.agents\n"@) == r5,
        past(r5, "# space-colors leaves: ui.sidebar.spaces\n"@) == rest,
        begins(r0, "# space-colors leaves: theme\n"@) == own.theme,
        begins(r1, "# space-colors leaves: theme.custom\n"@) == own.custom,
        begins(r2, "# space-colors leaves: ui\n"@) == own.ui,
        begins(r3, "# space-colors leaves: ui.sidebar\n"@) == own.sidebar,
        begins(r4, "# space-colors leaves: ui.sidebar.agents\n"@) == own.agents,
        begins(r5, "# space-colors leaves: ui.sidebar.spaces\n"@) == own.spaces,
    ensures
        noted(r0) == (own, rest),
{
}

proof fn lemma_note_then(there: bool, line: Seq<char>, rest: Seq<char>, more: Seq<char>)
    ensures
        after_note(there, line, rest) + more == after_note(there, line, rest + more),
{
    assert(after_note(there, line, rest) + more =~= after_note(there, line, rest + more));
}

/// What comes after the notes goes on after them.
pub proof fn lemma_notes_then(own: Own, rest: Seq<char>, more: Seq<char>)
    ensures
        after_notes(own, rest) + more == after_notes(own, rest + more),
{
    let l0 = "# space-colors leaves: theme\n"@;
    let l1 = "# space-colors leaves: theme.custom\n"@;
    let l2 = "# space-colors leaves: ui\n"@;
    let l3 = "# space-colors leaves: ui.sidebar\n"@;
    let l4 = "# space-colors leaves: ui.sidebar.agents\n"@;
    let l5 = "# space-colors leaves: ui.sidebar.spaces\n"@;
    let r5 = after_note(own.spaces, l5, rest);
    let r4 = after_note(own.agents, l4, r5);
    let r3 = after_note(own.sidebar, l3, r4);
    let r2 = after_note(own.ui, l2, r3);
    let r1 = after_note(own.custom, l1, r2);
    lemma_note_then(own.spaces, l5, rest, more);
    lemma_note_then(own.agents, l4, r5, more);
    lemma_note_then(own.sidebar, l3, r4, more);
    lemma_note_then(own.ui, l2, r3, more);
    lemma_note_then(own.custom, l1, r2, more);
    lemma_note_then(own.theme, l0, r1, more);
}

} // verus!
