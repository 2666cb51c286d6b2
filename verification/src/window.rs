//! The tint of the terminal window around Herdr.
//!
//! Herdr draws inside a terminal emulator, and only the emulator can colour the
//! window. Apple Terminal is scriptable: the tab that hosts a Herdr client is
//! found by its tty, and its background colour is set.
//!
//! The first colour seen on a tab is saved, so that it can be put back exactly.
//! Each tinted tab belongs to the Herdr session that tinted it; the others leave
//! it alone.
use crate::keymap::{lookup, text_map, KeyMap};
use crate::palette::{hex_colour, hex_digit};
use crate::text::{
    begins, cat, cat3, cat4, cat5, chars_of, contains, cut, debug_text, decimal, holds_part,
    lemma_texts_push, lines, lines_of, list_has, number, pieces, quoted, same, split, starts_with,
    texts, words, words_of,
};
use vstd::prelude::*;

verus! {

// --- who is there ----------------------------------------------------------------

/// The session that the arguments of a Herdr client name: the one after
/// `--session`, or an empty name for the default session.
pub open spec fn session_of(args: Seq<Seq<char>>) -> Seq<char>
    decreases args.len(),
{
    if args.len() == 0 {
        seq![]
    } else if args[0] == "--session"@ && args.len() > 1 {
        args[1]
    } else if begins(args[0], "--session="@) {
        args[0].skip("--session="@.len() as int)
    } else {
        session_of(args.skip(1))
    }
}

/// The terminal device of a Herdr client, where a line of `ps` shows one of the
/// session, or of any session where none is given.
pub open spec fn client_tty(line: Seq<char>, session: Option<Seq<char>>) -> Option<Seq<char>> {
    let w = words_of(line);
    if w.len() < 2 || w[0] == "??"@ || w[0] == "?"@ {
        None
    } else if pieces(w[1], '/').last() != "herdr"@ {
        None
    } else if w.len() > 2 && w[2] == "server"@ {
        None
    } else if session is Some && session_of(w.skip(2)) != session->0 {
        None
    } else {
        Some("/dev/"@ + w[0])
    }
}

/// The terminal devices of Herdr clients, each once, in the order of the lines.
pub open spec fn ttys_of(lines: Seq<Seq<char>>, session: Option<Seq<char>>) -> Seq<Seq<char>>
    decreases lines.len(),
{
    if lines.len() == 0 {
        seq![]
    } else {
        let found = ttys_of(lines.drop_last(), session);
        match client_tty(lines.last(), session) {
            Some(tty) if !found.contains(tty) => found.push(tty),
            _ => found,
        }
    }
}

fn session_name(w: &Vec<String>, from: usize) -> (r: String)
    requires
        from <= w@.len(),
    ensures
        r@ == session_of(texts(w@).skip(from as int)),
{
    let mut i: usize = from;
    let ghost all = texts(w@);
    while i < w.len()
        invariant
            all == texts(w@),
            from <= i <= w@.len(),
            session_of(all.skip(from as int)) == session_of(all.skip(i as int)),
        decreases w@.len() - i,
    {
        let word = w[i].as_str();
        proof {
            assert(all.skip(i as int)[0] == word@);
            assert(all.skip(i as int).skip(1) =~= all.skip(i + 1));
            if i + 1 < w@.len() {
                assert(all.skip(i as int)[1] == w@[i + 1]@);
            }
        }
        if same(word, "--session") && w.len() - i > 1 {
            return w[i + 1].clone();
        }
        if starts_with(word, "--session=") {
            let n: usize = "--session=".unicode_len();
            let r = cut(word, n, word.unicode_len());
            assert(r@ =~= word@.skip("--session="@.len() as int));
            return r;
        }
        i += 1;
    }
    let r = String::new();
    assert(r@ =~= seq![]);
    r
}

fn tty_on(line: &str, session: Option<&str>) -> (r: Option<String>)
    ensures
        crate::text::opt_text(r) == client_tty(line@, crate::text::opt_str(session)),
{
    let w = words(line);
    if w.len() < 2 {
        return None;
    }
    proof {
        assert(texts(w@)[0] == w@[0]@);
        assert(texts(w@)[1] == w@[1]@);
        if w@.len() > 2 {
            assert(texts(w@)[2] == w@[2]@);
        }
    }
    if same(w[0].as_str(), "??") || same(w[0].as_str(), "?") {
        return None;
    }
    let parts = split(w[1].as_str(), '/');
    proof {
        lemma_pieces_some(w@[1]@, '/');
        assert(texts(parts@).last() == parts@.last()@);
    }
    if !same(parts[parts.len() - 1].as_str(), "herdr") {
        return None;
    }
    if w.len() > 2 && same(w[2].as_str(), "server") {
        return None;
    }
    match session {
        Some(s) => {
            if !same(session_name(&w, 2).as_str(), s) {
                return None;
            }
        },
        None => {},
    }
    Some(cat("/dev/", w[0].as_str()))
}

proof fn lemma_pieces_some(s: Seq<char>, c: char)
    ensures
        pieces(s, c).len() > 0,
{
}

fn find_ttys(ps: &str, session: Option<&str>) -> (r: Vec<String>)
    ensures
        texts(r@) == ttys_of(lines_of(ps@), crate::text::opt_str(session)),
{
    broadcast use lemma_texts_push;

    let ls = lines(ps);
    let mut out: Vec<String> = Vec::new();
    let mut i: usize = 0;
    let ghost all = lines_of(ps@);
    assert(texts(out@) =~= seq![]);
    while i < ls.len()
        invariant
            all == texts(ls@),
            i <= ls@.len(),
            texts(out@) == ttys_of(all.take(i as int), crate::text::opt_str(session)),
        decreases ls@.len() - i,
    {
        proof {
            assert(all.take(i + 1).drop_last() =~= all.take(i as int));
            assert(all.take(i + 1).last() == ls@[i as int]@);
        }
        match tty_on(ls[i].as_str(), session) {
            Some(tty) => {
                if !list_has(&out, tty.as_str()) {
                    out.push(tty);
                }
            },
            None => {},
        }
        i += 1;
    }
    assert(all.take(i as int) =~= all);
    out
}

/// The terminal devices with a Herdr client on them (not the server, which has
/// no terminal), from the output of `ps -axo tty=,command=`.
pub fn client_ttys(ps: &str) -> (r: Vec<String>)
    ensures
        texts(r@) == ttys_of(lines_of(ps@), None),
{
    find_ttys(ps, None)
}

/// The terminal devices with a client of one Herdr session on them; the default
/// session has an empty name.
pub fn session_ttys(ps: &str, session: &str) -> (r: Vec<String>)
    ensures
        texts(r@) == ttys_of(lines_of(ps@), Some(session@)),
{
    find_ttys(ps, Some(session))
}

/// Whether a line of `ps` shows Apple Terminal.
pub open spec fn shows_terminal(lines: Seq<Seq<char>>) -> bool {
    exists|i: int|
        0 <= i < lines.len() && holds_part(
            #[trigger] lines[i],
            "/Terminal.app/Contents/MacOS/Terminal"@,
        )
}

/// Whether Apple Terminal runs, from the output of `ps -axo tty=,command=`.
pub fn terminal_app_running(ps: &str) -> (r: bool)
    ensures
        r == shows_terminal(lines_of(ps@)),
{
    let ls = lines(ps);
    let ghost all = lines_of(ps@);
    let mut i: usize = 0;
    while i < ls.len()
        invariant
            all == texts(ls@),
            all == lines_of(ps@),
            i <= ls@.len(),
            forall|j: int|
                0 <= j < i ==> !holds_part(
                    #[trigger] all[j],
                    "/Terminal.app/Contents/MacOS/Terminal"@,
                ),
        decreases ls@.len() - i,
    {
        if contains(ls[i].as_str(), "/Terminal.app/Contents/MacOS/Terminal") {
            assert(holds_part(all[i as int], "/Terminal.app/Contents/MacOS/Terminal"@));
            return true;
        }
        assert(all[i as int] == ls@[i as int]@);
        i += 1;
    }
    false
}

// --- colours ---------------------------------------------------------------------

/// The value of a hexadecimal digit.
pub open spec fn hex_value(c: char) -> Option<int> {
    if '0' <= c && c <= '9' {
        Some(c as int - '0' as int)
    } else if 'a' <= c && c <= 'f' {
        Some(c as int - 'a' as int + 10)
    } else if 'A' <= c && c <= 'F' {
        Some(c as int - 'A' as int + 10)
    } else {
        None
    }
}

/// The value of a colour channel: two hexadecimal digits.
pub open spec fn channel_value(a: char, b: char) -> Option<int> {
    match (hex_value(a), hex_value(b)) {
        (Some(x), Some(y)) => Some(16 * x + y),
        _ => None,
    }
}

/// Three channels as Terminal takes them: each from 0 to 65535.
pub open spec fn triple_text(r: Option<int>, g: Option<int>, b: Option<int>) -> Option<Seq<char>> {
    match (r, g, b) {
        (Some(x), Some(y), Some(z)) => Some(
            decimal((x * 257) as nat) + ","@ + decimal((y * 257) as nat) + ","@ + decimal(
                (z * 257) as nat,
            ),
        ),
        _ => None,
    }
}

/// A colour `#rgb` or `#rrggbb` as Terminal takes it.
pub open spec fn triple_of(hex: Seq<char>) -> Option<Seq<char>> {
    if hex.len() == 4 && hex[0] == '#' {
        triple_text(
            channel_value(hex[1], hex[1]),
            channel_value(hex[2], hex[2]),
            channel_value(hex[3], hex[3]),
        )
    } else if hex.len() == 7 && hex[0] == '#' {
        triple_text(
            channel_value(hex[1], hex[2]),
            channel_value(hex[3], hex[4]),
            channel_value(hex[5], hex[6]),
        )
    } else {
        None
    }
}

fn digit_value(c: char) -> (r: Option<u64>)
    ensures
        match r {
            Some(v) => hex_value(c) == Some(v as int) && v < 16,
            None => hex_value(c) is None,
        },
{
    let n: u64 = c as u64;
    if '0' <= c && c <= '9' {
        Some(n - 48)
    } else if 'a' <= c && c <= 'f' {
        Some(n - 87)
    } else if 'A' <= c && c <= 'F' {
        Some(n - 55)
    } else {
        None
    }
}

fn channel(a: char, b: char) -> (r: Option<u64>)
    ensures
        match r {
            Some(v) => channel_value(a, b) == Some(v as int) && v < 256,
            None => channel_value(a, b) is None,
        },
{
    match (digit_value(a), digit_value(b)) {
        (Some(x), Some(y)) => Some(16 * x + y),
        _ => None,
    }
}

fn triple(r: Option<u64>, g: Option<u64>, b: Option<u64>) -> (t: Option<String>)
    requires
        r is Some ==> r->0 < 256,
        g is Some ==> g->0 < 256,
        b is Some ==> b->0 < 256,
    ensures
        crate::text::opt_text(t) == triple_text(
            match r {
                Some(v) => Some(v as int),
                None => None,
            },
            match g {
                Some(v) => Some(v as int),
                None => None,
            },
            match b {
                Some(v) => Some(v as int),
                None => None,
            },
        ),
{
    match (r, g, b) {
        (Some(x), Some(y), Some(z)) => Some(
            cat5(
                number(x * 257).as_str(),
                ",",
                number(y * 257).as_str(),
                ",",
                number(z * 257).as_str(),
            ),
        ),
        _ => None,
    }
}

proof fn lemma_triple_of(hex: Seq<char>)
    ensures
        triple_of(hex) is Some <==> hex_colour(hex),
{
    if triple_of(hex) is Some {
        assert forall|i: int| 1 <= i < hex.len() implies hex_digit(#[trigger] hex[i]) by {
            assert(hex_value(hex[i]) is Some);
        }
    }
}

/// A colour `#rgb` or `#rrggbb` as Terminal takes it: three numbers from 0 to
/// 65535. Any other text is no colour.
pub fn hex_to_triple(hex: &str) -> (r: Option<String>)
    ensures
        crate::text::opt_text(r) == triple_of(hex@),
        r is Some <==> hex_colour(hex@),
{
    proof {
        lemma_triple_of(hex@);
    }
    let v = chars_of(hex);
    if v.len() == 4 && v[0] == '#' {
        triple(channel(v[1], v[1]), channel(v[2], v[2]), channel(v[3], v[3]))
    } else if v.len() == 7 && v[0] == '#' {
        triple(channel(v[1], v[2]), channel(v[3], v[4]), channel(v[5], v[6]))
    } else {
        None
    }
}

// --- scripts ---------------------------------------------------------------------

/// The script that runs `body` on the tab of `tty`, and answers `missing` where
/// there is none.
pub open spec fn script(tty: Seq<char>, body: Seq<char>) -> Seq<char> {
    "tell application \"Terminal\"\nrepeat with w in windows\nrepeat with t in tabs of w\nif tty of t is \""@
        + tty + "\" then\n"@ + body
        + "\nend if\nend repeat\nend repeat\nend tell\nreturn \"missing\""@
}

/// The script that runs `body` on the tab of `tty` as `t`, and answers `missing`
/// where no tab has that tty.
pub fn tab_script(tty: &str, body: &str) -> (r: String)
    ensures
        r@ == script(tty@, body@),
{
    cat5(
        "tell application \"Terminal\"\nrepeat with w in windows\nrepeat with t in tabs of w\nif tty of t is \"",
        tty,
        "\" then\n",
        body,
        "\nend if\nend repeat\nend repeat\nend tell\nreturn \"missing\"",
    )
}

/// The script that asks for the colour of a tab.
pub open spec fn ask_script(tty: Seq<char>) -> Seq<char> {
    script(
        tty,
        "set c to background color of t\nreturn (item 1 of c as string) & \",\" & (item 2 of c as string) & \",\" & (item 3 of c as string)"@,
    )
}

/// The script that sets the colour of a tab.
pub open spec fn set_script(tty: Seq<char>, triple: Seq<char>) -> Seq<char> {
    script(tty, "set background color of t to {"@ + triple + "}\nreturn \"ok\""@)
}

/// The script that asks for the colour of a tab.
pub fn terminal_get(tty: &str) -> (r: String)
    ensures
        r@ == ask_script(tty@),
{
    tab_script(
        tty,
        "set c to background color of t\nreturn (item 1 of c as string) & \",\" & (item 2 of c as string) & \",\" & (item 3 of c as string)",
    )
}

/// The script that sets the colour of a tab.
pub fn terminal_set(tty: &str, triple: &str) -> (r: String)
    ensures
        r@ == set_script(tty@, triple@),
{
    tab_script(
        tty,
        cat3("set background color of t to {", triple, "}\nreturn \"ok\"").as_str(),
    )
}

// --- what is tinted --------------------------------------------------------------

/// Which tabs are tinted.
pub struct WindowState {
    /// The colour of each tab before it was first tinted, by tty.
    pub original: KeyMap<String>,
    /// The colour that each tab was given, by tty.
    pub current: KeyMap<String>,
    /// The session that tinted each tab, by tty.
    pub session: KeyMap<String>,
}

/// What a [`WindowState`] holds.
pub struct WindowView {
    pub original: Map<Seq<char>, Seq<char>>,
    pub current: Map<Seq<char>, Seq<char>>,
    pub session: Map<Seq<char>, Seq<char>>,
}

impl WindowState {
    pub open spec fn view(&self) -> WindowView {
        WindowView {
            original: text_map(self.original),
            current: text_map(self.current),
            session: text_map(self.session),
        }
    }

    pub open spec fn wf(&self) -> bool {
        self.original.wf() && self.current.wf() && self.session.wf()
    }

    /// Nothing is tinted.
    pub fn new() -> (r: WindowState)
        ensures
            r.wf(),
            r@ == (WindowView {
                original: Map::empty(),
                current: Map::empty(),
                session: Map::empty(),
            }),
    {
        let r = WindowState {
            original: KeyMap::new(),
            current: KeyMap::new(),
            session: KeyMap::new(),
        };
        assert(r@.original =~= Map::empty());
        assert(r@.current =~= Map::empty());
        assert(r@.session =~= Map::empty());
        r
    }

    fn forget(&mut self, tty: &str)
        requires
            old(self).wf(),
        ensures
            final(self).wf(),
            final(self)@ == without_tab(old(self)@, tty@),
    {
        let ghost before = self@;
        self.original.remove(tty);
        self.current.remove(tty);
        self.session.remove(tty);
        proof {
            assert(self@.original =~= before.original.remove(tty@));
            assert(self@.current =~= before.current.remove(tty@));
            assert(self@.session =~= before.session.remove(tty@));
        }
    }

    fn remember(&mut self, tty: &str, colour: &str, session: &str)
        requires
            old(self).wf(),
        ensures
            final(self).wf(),
            final(self)@ == (WindowView {
                original: old(self)@.original.insert(tty@, colour@),
                session: old(self)@.session.insert(tty@, session@),
                ..old(self)@
            }),
    {
        let ghost before = self@;
        self.original.insert(tty.to_owned(), colour.to_owned());
        self.session.insert(tty.to_owned(), session.to_owned());
        proof {
            assert(self@.original =~= before.original.insert(tty@, colour@));
            assert(self@.session =~= before.session.insert(tty@, session@));
        }
    }

    fn note_tint(&mut self, tty: &str, hex: &str, session: &str)
        requires
            old(self).wf(),
        ensures
            final(self).wf(),
            final(self)@ == (WindowView {
                current: old(self)@.current.insert(tty@, hex@),
                session: old(self)@.session.insert(tty@, session@),
                ..old(self)@
            }),
    {
        let ghost before = self@;
        self.current.insert(tty.to_owned(), hex.to_owned());
        self.session.insert(tty.to_owned(), session.to_owned());
        proof {
            assert(self@.current =~= before.current.insert(tty@, hex@));
            assert(self@.session =~= before.session.insert(tty@, session@));
        }
    }
}

/// The state without one tab.
pub open spec fn without_tab(st: WindowView, tty: Seq<char>) -> WindowView {
    WindowView {
        original: st.original.remove(tty),
        current: st.current.remove(tty),
        session: st.session.remove(tty),
    }
}

// --- tinting, one answer at a time -----------------------------------------------

/// What a job waits for.
pub enum Stage {
    /// Nothing: the next tab comes.
    Ready,
    /// The colour that the current tab has.
    Asked,
    /// That the current tab is tinted.
    Tinting,
    /// That the current tab is put back.
    Restoring,
    /// Nothing more: the job failed.
    Over,
}

/// Tabs to tint, or to put back where there is no target.
pub struct TintJob {
    /// The tabs of clients of the session.
    pub ttys: Vec<String>,
    /// The tabs that the session tinted and that have no client any more.
    pub stale: Vec<String>,
    /// The session that the job belongs to.
    pub session: String,
    /// The colour to give.
    pub target: Option<String>,
    pub dry_run: bool,
    pub stage: Stage,
    /// The next tab of `stale`.
    pub next_stale: usize,
    /// The current tab of `ttys`.
    pub next: usize,
    /// Lines for the user.
    pub report: Vec<String>,
}

/// What a [`TintJob`] holds.
pub struct JobView {
    pub ttys: Seq<Seq<char>>,
    pub stale: Seq<Seq<char>>,
    pub session: Seq<char>,
    pub target: Option<Seq<char>>,
    pub dry_run: bool,
    pub stage: Stage,
    pub next_stale: nat,
    pub next: nat,
    pub report: Seq<Seq<char>>,
}

impl TintJob {
    pub open spec fn view(&self) -> JobView {
        JobView {
            ttys: texts(self.ttys@),
            stale: texts(self.stale@),
            session: self.session@,
            target: crate::text::opt_text(self.target),
            dry_run: self.dry_run,
            stage: self.stage,
            next_stale: self.next_stale as nat,
            next: self.next as nat,
            report: texts(self.report@),
        }
    }

    /// The positions are inside the lists, and a job that waits has a tab to
    /// wait for.
    pub open spec fn wf(&self) -> bool {
        &&& self.next_stale <= self.stale@.len()
        &&& self.next <= self.ttys@.len()
        &&& !(self.stage is Ready || self.stage is Over) ==> self.next < self.ttys@.len()
    }
}

/// What a script answered.
pub enum Reply {
    Nothing,
    Text(String),
    Failed(String),
}

/// What a [`Reply`] holds.
pub enum ReplyView {
    Nothing,
    Text(Seq<char>),
    Failed(Seq<char>),
}

impl Reply {
    pub open spec fn view(&self) -> ReplyView {
        match self {
            Reply::Nothing => ReplyView::Nothing,
            Reply::Text(s) => ReplyView::Text(s@),
            Reply::Failed(e) => ReplyView::Failed(e@),
        }
    }
}

/// What is to be done next.
#[derive(Debug)]
pub enum Step {
    /// Nothing; ask again.
    Pass,
    /// Run a script and hand its answer back.
    Run(String),
    /// Run a script, whatever it answers.
    Try(String),
    /// The job is done.
    Finished,
    /// The job failed.
    Failed(String),
}

/// What a [`Step`] holds.
pub enum StepView {
    Pass,
    Run(Seq<char>),
    Try(Seq<char>),
    Finished,
    Failed(Seq<char>),
}

impl Step {
    pub open spec fn view(&self) -> StepView {
        match self {
            Step::Pass => StepView::Pass,
            Step::Run(s) => StepView::Run(s@),
            Step::Try(s) => StepView::Try(s@),
            Step::Finished => StepView::Finished,
            Step::Failed(e) => StepView::Failed(e@),
        }
    }
}

/// The tabs that the session tinted and that are not among `ttys`.
pub open spec fn stale_of(
    tinted: Seq<Seq<char>>,
    st: WindowView,
    ttys: Seq<Seq<char>>,
    session: Seq<char>,
) -> Seq<Seq<char>>
    decreases tinted.len(),
{
    if tinted.len() == 0 {
        seq![]
    } else {
        let found = stale_of(tinted.drop_last(), st, ttys, session);
        let tty = tinted.last();
        if !ttys.contains(tty) && owner_of(st, tty) == session {
            found.push(tty)
        } else {
            found
        }
    }
}

/// The session that tinted a tab; the default session where none is recorded.
pub open spec fn owner_of(st: WindowView, tty: Seq<char>) -> Seq<char> {
    match lookup(st.session, tty) {
        Some(s) => s,
        None => seq![],
    }
}

/// A job for the clients that `ps` shows; an empty one where Apple Terminal does
/// not run.
pub open spec fn job_of(
    tinted: Seq<Seq<char>>,
    st: WindowView,
    ps: Seq<char>,
    session: Seq<char>,
    target: Option<Seq<char>>,
    dry_run: bool,
) -> JobView {
    let ls = lines_of(ps);
    let running = shows_terminal(ls);
    let ttys = if running {
        ttys_of(ls, Some(session))
    } else {
        seq![]
    };
    JobView {
        ttys,
        stale: if running {
            stale_of(tinted, st, ttys, session)
        } else {
            seq![]
        },
        session,
        target,
        dry_run,
        stage: Stage::Ready,
        next_stale: 0,
        next: 0,
        report: seq![],
    }
}

fn stale_ttys(st: &WindowState, ttys: &Vec<String>, session: &str) -> (r: Vec<String>)
    requires
        st.wf(),
    ensures
        texts(r@) == stale_of(st.original.keys(), st@, texts(ttys@), session@),
{
    broadcast use lemma_texts_push;

    let mut out: Vec<String> = Vec::new();
    let mut i: usize = 0;
    let ghost all = st.original.keys();
    assert(texts(out@) =~= seq![]);
    while i < st.original.entries.len()
        invariant
            st.wf(),
            all == st.original.keys(),
            all.len() == st.original.entries@.len(),
            i <= all.len(),
            texts(out@) == stale_of(all.take(i as int), st@, texts(ttys@), session@),
        decreases all.len() - i,
    {
        let tty = st.original.entries[i].0.as_str();
        proof {
            assert(all.take(i + 1).drop_last() =~= all.take(i as int));
            assert(all.take(i + 1).last() == tty@);
        }
        let owner = match st.session.copy_of(tty) {
            Some(s) => s,
            None => {
                let none = String::new();
                assert(none@ =~= seq![]);
                none
            },
        };
        if !list_has(ttys, tty) && same(owner.as_str(), session) {
            out.push(tty.to_owned());
        }
        i += 1;
    }
    assert(all.take(i as int) =~= all);
    out
}

/// Prepares to tint the tabs of the clients that `ps` shows for a session.
pub fn tint_job(
    st: &WindowState,
    ps: &str,
    session: &str,
    target: Option<&str>,
    dry_run: bool,
) -> (r: TintJob)
    requires
        st.wf(),
    ensures
        r.wf(),
        r@ == job_of(
            st.original.keys(),
            st@,
            ps@,
            session@,
            crate::text::opt_str(target),
            dry_run,
        ),
{
    let running = terminal_app_running(ps);
    let ttys = if running {
        session_ttys(ps, session)
    } else {
        Vec::new()
    };
    let stale = if running {
        stale_ttys(st, &ttys, session)
    } else {
        Vec::new()
    };
    let report: Vec<String> = Vec::new();
    proof {
        assert(texts(report@) =~= seq![]);
        if !running {
            assert(texts(ttys@) =~= seq![]);
            assert(texts(stale@) =~= seq![]);
        }
    }
    TintJob {
        ttys,
        stale,
        session: session.to_owned(),
        target: crate::text::opt_owned(target),
        dry_run,
        stage: Stage::Ready,
        next_stale: 0,
        next: 0,
        report,
    }
}

/// The job with its current tab done.
pub open spec fn onward(job: JobView) -> JobView {
    JobView { stage: Stage::Ready, next: job.next + 1, ..job }
}

/// The job with one more line for the user and its current tab done.
pub open spec fn reported(job: JobView, line: Seq<char>) -> JobView {
    JobView { report: job.report.push(line), ..onward(job) }
}

/// What happens with no answer to wait for: the next stale tab, then the next tab
/// of a client, then the end.
pub open spec fn ready_step(st: WindowView, job: JobView) -> (WindowView, JobView, StepView) {
    if job.next_stale < job.stale.len() {
        let tty = job.stale[job.next_stale as int];
        let job1 = JobView { next_stale: job.next_stale + 1, ..job };
        if job.dry_run {
            (st, job1, StepView::Pass)
        } else {
            match lookup(st.original, tty) {
                Some(colour) => (
                    without_tab(st, tty),
                    job1,
                    StepView::Try(set_script(tty, colour)),
                ),
                None => (without_tab(st, tty), job1, StepView::Pass),
            }
        }
    } else if job.next < job.ttys.len() {
        let tty = job.ttys[job.next as int];
        match job.target {
            Some(hex) => if lookup(st.current, tty) == Some(hex) {
                (st, onward(job), StepView::Pass)
            } else {
                match triple_of(hex) {
                    None => (
                        st,
                        JobView { stage: Stage::Over, ..job },
                        StepView::Failed(
                            "window colour "@ + debug_text(hex) + " is not #rgb/#rrggbb"@,
                        ),
                    ),
                    Some(triple) => if job.dry_run {
                        (
                            st,
                            reported(job, "window "@ + tty + ": would tint "@ + hex),
                            StepView::Pass,
                        )
                    } else if st.original.contains_key(tty) {
                        (
                            st,
                            JobView { stage: Stage::Tinting, ..job },
                            StepView::Run(set_script(tty, triple)),
                        )
                    } else {
                        (
                            st,
                            JobView { stage: Stage::Asked, ..job },
                            StepView::Run(ask_script(tty)),
                        )
                    },
                }
            },
            None => match lookup(st.original, tty) {
                None => (st, onward(job), StepView::Pass),
                Some(colour) => if job.dry_run {
                    (st, reported(job, "window "@ + tty + ": would restore"@), StepView::Pass)
                } else {
                    (
                        st,
                        JobView { stage: Stage::Restoring, ..job },
                        StepView::Run(set_script(tty, colour)),
                    )
                },
            },
        }
    } else {
        (st, job, StepView::Finished)
    }
}

/// What happens when the script for the current tab answered.
pub open spec fn answered(st: WindowView, job: JobView, answer: Seq<char>) -> (
    WindowView,
    JobView,
    StepView,
) {
    let tty = job.ttys[job.next as int];
    match (job.stage, job.target) {
        (Stage::Asked, Some(hex)) => match triple_of(hex) {
            Some(triple) if answer != "missing"@ => (
                WindowView {
                    original: st.original.insert(tty, answer),
                    session: st.session.insert(tty, job.session),
                    ..st
                },
                JobView { stage: Stage::Tinting, ..job },
                StepView::Run(set_script(tty, triple)),
            ),
            _ => (st, onward(job), StepView::Pass),
        },
        (Stage::Tinting, Some(hex)) => if answer == "ok"@ {
            (
                WindowView {
                    current: st.current.insert(tty, hex),
                    session: st.session.insert(tty, job.session),
                    ..st
                },
                reported(job, "window "@ + tty + ": "@ + hex),
                StepView::Pass,
            )
        } else {
            (st, onward(job), StepView::Pass)
        },
        (Stage::Restoring, _) => (
            without_tab(st, tty),
            reported(job, "window "@ + tty + ": restored"@),
            StepView::Pass,
        ),
        _ => (st, onward(job), StepView::Pass),
    }
}

/// One step of a job. A job that waits for an answer goes on waiting without one.
pub open spec fn tint_step(st: WindowView, job: JobView, reply: ReplyView) -> (
    WindowView,
    JobView,
    StepView,
) {
    match (job.stage, reply) {
        (Stage::Over, _) => (st, job, StepView::Finished),
        (Stage::Ready, _) => ready_step(st, job),
        (_, ReplyView::Text(answer)) => answered(st, job, answer),
        (_, ReplyView::Failed(e)) => (
            st,
            JobView { stage: Stage::Over, ..job },
            StepView::Failed(e),
        ),
        (_, ReplyView::Nothing) => (st, job, StepView::Pass),
    }
}

fn move_on(job: &mut TintJob)
    requires
        old(job).wf(),
        old(job).next < old(job).ttys@.len(),
    ensures
        final(job).wf(),
        final(job)@ == onward(old(job)@),
{
    let len: usize = job.ttys.len();
    assert(job.next < len);
    job.next = job.next + 1;
    job.stage = Stage::Ready;
}

fn tell(job: &mut TintJob, line: String)
    requires
        old(job).wf(),
        old(job).next < old(job).ttys@.len(),
    ensures
        final(job).wf(),
        final(job)@ == reported(old(job)@, line@),
{
    broadcast use lemma_texts_push;

    job.report.push(line);
    move_on(job);
}

fn step_ready(st: &mut WindowState, job: &mut TintJob) -> (r: Step)
    requires
        old(st).wf(),
        old(job).wf(),
        old(job).stage is Ready,
    ensures
        final(st).wf(),
        final(job).wf(),
        (final(st)@, final(job)@, r@) == ready_step(old(st)@, old(job)@),
{
    if job.next_stale < job.stale.len() {
        let tty = job.stale[job.next_stale].clone();
        assert(tty@ == job@.stale[job.next_stale as int]);
        job.next_stale = job.next_stale + 1;
        if job.dry_run {
            return Step::Pass;
        }
        let saved = st.original.copy_of(tty.as_str());
        st.forget(tty.as_str());
        match saved {
            Some(colour) => Step::Try(terminal_set(tty.as_str(), colour.as_str())),
            None => Step::Pass,
        }
    } else if job.next < job.ttys.len() {
        let tty = job.ttys[job.next].clone();
        assert(tty@ == job@.ttys[job.next as int]);
        match crate::text::as_opt_str(&job.target) {
            Some(hex_text) => {
                let hex = hex_text.to_owned();
                match st.current.copy_of(tty.as_str()) {
                    Some(c) => {
                        if same(c.as_str(), hex.as_str()) {
                            move_on(job);
                            return Step::Pass;
                        }
                    },
                    None => {},
                }
                match hex_to_triple(hex.as_str()) {
                    None => {
                        job.stage = Stage::Over;
                        Step::Failed(
                            cat3(
                                "window colour ",
                                quoted(hex.as_str()).as_str(),
                                " is not #rgb/#rrggbb",
                            ),
                        )
                    },
                    Some(t) => {
                        if job.dry_run {
                            tell(
                                job,
                                cat4("window ", tty.as_str(), ": would tint ", hex.as_str()),
                            );
                            Step::Pass
                        } else if st.original.has(tty.as_str()) {
                            job.stage = Stage::Tinting;
                            Step::Run(terminal_set(tty.as_str(), t.as_str()))
                        } else {
                            job.stage = Stage::Asked;
                            Step::Run(terminal_get(tty.as_str()))
                        }
                    },
                }
            },
            None => match st.original.copy_of(tty.as_str()) {
                None => {
                    move_on(job);
                    Step::Pass
                },
                Some(colour) => {
                    if job.dry_run {
                        tell(job, cat3("window ", tty.as_str(), ": would restore"));
                        Step::Pass
                    } else {
                        job.stage = Stage::Restoring;
                        Step::Run(terminal_set(tty.as_str(), colour.as_str()))
                    }
                },
            },
        }
    } else {
        Step::Finished
    }
}

fn step_answered(st: &mut WindowState, job: &mut TintJob, answer: &str) -> (r: Step)
    requires
        old(st).wf(),
        old(job).wf(),
        !(old(job).stage is Ready),
        !(old(job).stage is Over),
    ensures
        final(st).wf(),
        final(job).wf(),
        (final(st)@, final(job)@, r@) == answered(old(st)@, old(job)@, answer@),
{
    let tty = job.ttys[job.next].clone();
    assert(tty@ == job@.ttys[job.next as int]);
    let target = crate::text::opt_owned(crate::text::as_opt_str(&job.target));
    match (&job.stage, target) {
        (Stage::Asked, Some(hex)) => {
            match hex_to_triple(hex.as_str()) {
                Some(t) => {
                    if !same(answer, "missing") {
                        st.remember(tty.as_str(), answer, job.session.as_str());
                        job.stage = Stage::Tinting;
                        return Step::Run(terminal_set(tty.as_str(), t.as_str()));
                    }
                },
                None => {},
            }
            move_on(job);
            Step::Pass
        },
        (Stage::Tinting, Some(hex)) => {
            if same(answer, "ok") {
                st.note_tint(tty.as_str(), hex.as_str(), job.session.as_str());
                tell(job, cat4("window ", tty.as_str(), ": ", hex.as_str()));
            } else {
                move_on(job);
            }
            Step::Pass
        },
        (Stage::Restoring, _) => {
            st.forget(tty.as_str());
            tell(job, cat3("window ", tty.as_str(), ": restored"));
            Step::Pass
        },
        _ => {
            move_on(job);
            Step::Pass
        },
    }
}

/// Takes one step of tinting every Terminal tab that hosts a Herdr client of the
/// session with the target colour, or of putting the saved colour back where
/// there is no target. Tabs whose client went away are forgotten after an
/// attempt to put their colour back, so the state never grows.
pub fn apply(st: &mut WindowState, job: &mut TintJob, reply: Reply) -> (r: Step)
    requires
        old(st).wf(),
        old(job).wf(),
    ensures
        final(st).wf(),
        final(job).wf(),
        (final(st)@, final(job)@, r@) == tint_step(old(st)@, old(job)@, reply@),
{
    match &job.stage {
        Stage::Over => Step::Finished,
        Stage::Ready => step_ready(st, job),
        _ => match reply {
            Reply::Text(answer) => step_answered(st, job, answer.as_str()),
            Reply::Failed(e) => {
                job.stage = Stage::Over;
                Step::Failed(e)
            },
            Reply::Nothing => Step::Pass,
        },
    }
}

/// The tabs and their colours, in the order of the tabs.
pub open spec fn tab_pairs(m: KeyMap<String>) -> Seq<(Seq<char>, Seq<char>)> {
    m.entries@.map_values(|e: (String, String)| (e.0@, e.1@))
}

/// A list of pairs of texts.
pub open spec fn text_pairs(v: Seq<(String, String)>) -> Seq<(Seq<char>, Seq<char>)> {
    v.map_values(|e: (String, String)| (e.0@, e.1@))
}

/// Forgets every tinted tab. Returns each with the colour to put back: the one
/// that it had before it was first tinted.
pub fn restore_all(st: &mut WindowState) -> (r: Vec<(String, String)>)
    requires
        old(st).wf(),
    ensures
        final(st).wf(),
        final(st)@ == (WindowView {
            original: Map::empty(),
            current: Map::empty(),
            session: Map::empty(),
        }),
        text_pairs(r@) == tab_pairs(old(st).original),
{
    let r = st.original.copy().entries;
    *st = WindowState::new();
    r
}

/// The line for the user on a tab that was put back.
pub open spec fn restored_line(tty: Seq<char>, reply: ReplyView) -> Seq<char> {
    match reply {
        ReplyView::Text(answer) => if answer == "ok"@ {
            "window "@ + tty + ": restored"@
        } else {
            "window "@ + tty + ": tab gone, nothing to restore"@
        },
        ReplyView::Failed(e) => "window "@ + tty + ": restore failed: "@ + e,
        ReplyView::Nothing => "window "@ + tty + ": tab gone, nothing to restore"@,
    }
}

/// The line for the user on a tab that was put back.
pub fn restore_report(tty: &str, reply: &Reply) -> (r: String)
    ensures
        r@ == restored_line(tty@, reply@),
{
    match reply {
        Reply::Text(answer) => if same(answer.as_str(), "ok") {
            cat3("window ", tty, ": restored")
        } else {
            cat3("window ", tty, ": tab gone, nothing to restore")
        },
        Reply::Failed(e) => cat4("window ", tty, ": restore failed: ", e.as_str()),
        Reply::Nothing => cat3("window ", tty, ": tab gone, nothing to restore"),
    }
}

// --- laws ------------------------------------------------------------------------

/// The first colour seen on a tab stays saved: no step changes it, and it is
/// dropped only by a step that puts it back, or once Terminal has answered to
/// that.
pub proof fn law_first_colour_stays(st: WindowView, job: JobView, reply: ReplyView, tty: Seq<char>)
    requires
        st.original.contains_key(tty),
        job.stage is Asked ==> !st.original.contains_key(job.ttys[job.next as int]),
    ensures
        ({
            let (st1, job1, step) = tint_step(st, job, reply);
            if st1.original.contains_key(tty) {
                st1.original[tty] == st.original[tty]
            } else {
                ||| step == StepView::Try(set_script(tty, st.original[tty]))
                ||| job.stage is Restoring && job.ttys[job.next as int] == tty && reply is Text
            }
        }),
{
}

/// A colour is asked for only where none is saved.
pub proof fn law_saved_colours_are_not_asked_for(st: WindowView, job: JobView, reply: ReplyView)
    requires
        job.stage is Ready,
    ensures
        ({
            let (st1, job1, step) = tint_step(st, job, reply);
            job1.stage is Asked ==> !st1.original.contains_key(job1.ttys[job1.next as int])
        }),
{
}

/// A tab is put back exactly: the colour that is sent is the one that was saved,
/// and once Terminal has answered nothing is remembered of the tab.
pub proof fn law_restoring_is_exact(
    st: WindowView,
    job: JobView,
    reply: ReplyView,
    answer: Seq<char>,
)
    requires
        job.stage is Ready,
        tint_step(st, job, reply).1.stage is Restoring,
    ensures
        ({
            let (st1, job1, step) = tint_step(st, job, reply);
            let tty = job1.ttys[job1.next as int];
            let (st2, job2, step2) = tint_step(st1, job1, ReplyView::Text(answer));
            &&& st.original.contains_key(tty)
            &&& step == StepView::Run(set_script(tty, st.original[tty]))
            &&& st2 == without_tab(st, tty)
        }),
{
}

/// A dry run changes nothing and runs nothing.
pub proof fn law_dry_run_is_dry(st: WindowView, job: JobView, reply: ReplyView)
    requires
        job.dry_run,
        job.stage is Ready,
    ensures
        ({
            let (st1, job1, step) = tint_step(st, job, reply);
            &&& st1 == st
            &&& !(step is Run)
            &&& !(step is Try)
            &&& job1.stage is Ready || job1.stage is Over
        }),
{
}

/// A job touches only tabs of its own session: those with a client of it, and
/// those that it tinted before.
pub proof fn law_other_sessions_are_left_alone(
    tinted: Seq<Seq<char>>,
    st: WindowView,
    ps: Seq<char>,
    session: Seq<char>,
    target: Option<Seq<char>>,
    dry_run: bool,
    i: int,
)
    ensures
        ({
            let job = job_of(tinted, st, ps, session, target, dry_run);
            &&& 0 <= i < job.stale.len() ==> owner_of(st, job.stale[i]) == session
            &&& 0 <= i < job.ttys.len() ==> exists|j: int|
                0 <= j < lines_of(ps).len() && client_tty(#[trigger] lines_of(ps)[j], Some(session))
                    == Some(job.ttys[i])
        }),
{
    let ls = lines_of(ps);
    let ttys = ttys_of(ls, Some(session));
    if 0 <= i < stale_of(tinted, st, ttys, session).len() {
        lemma_stale_owned(tinted, st, ttys, session, i);
    }
    if 0 <= i < ttys.len() {
        lemma_ttys_shown(ls, session, i);
    }
}

proof fn lemma_stale_owned(
    tinted: Seq<Seq<char>>,
    st: WindowView,
    ttys: Seq<Seq<char>>,
    session: Seq<char>,
    i: int,
)
    requires
        0 <= i < stale_of(tinted, st, ttys, session).len(),
    ensures
        owner_of(st, stale_of(tinted, st, ttys, session)[i]) == session,
    decreases tinted.len(),
{
    if tinted.len() > 0 {
        let found = stale_of(tinted.drop_last(), st, ttys, session);
        if i < found.len() {
            lemma_stale_owned(tinted.drop_last(), st, ttys, session, i);
        }
    }
}

proof fn lemma_ttys_shown(ls: Seq<Seq<char>>, session: Seq<char>, i: int)
    requires
        0 <= i < ttys_of(ls, Some(session)).len(),
    ensures
        exists|j: int|
            0 <= j < ls.len() && client_tty(#[trigger] ls[j], Some(session)) == Some(
                ttys_of(ls, Some(session))[i],
            ),
    decreases ls.len(),
{
    if ls.len() > 0 {
        let rest = ls.drop_last();
        let found = ttys_of(rest, Some(session));
        if i < found.len() {
            lemma_ttys_shown(rest, session, i);
            let j = choose|j: int|
                0 <= j < rest.len() && client_tty(#[trigger] rest[j], Some(session)) == Some(
                    found[i],
                );
            assert(ls[j] == rest[j]);
        } else {
            assert(ls[ls.len() - 1] == ls.last());
        }
    }
}

} // verus!
