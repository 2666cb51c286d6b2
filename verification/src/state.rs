//! What the plugin remembers between runs, and the lock around it.
use crate::json::{
    entry_at, entry_keys, json, json_field, json_parse, json_str, json_text, list_trees, list_value,
    null_value, object_trees, object_value, parse_json, plain_json, text_value, value_text, Json,
    JsonTree,
};
use crate::keymap::{ascending, lemma_ascending_distinct, text_map, KeyMap};
use crate::text::{before, lemma_before_transitive, lemma_texts_push, opt_owned, opt_text, texts};
use crate::window::{WindowState, WindowView};
use vstd::prelude::*;

verus! {

/// What the plugin remembers.
pub struct State {
    /// The keys that it set under `theme.custom`.
    pub managed: Vec<String>,
    /// The sidebar kinds whose rows it wrote.
    pub managed_sidebar: Vec<String>,
    /// The palette that each pane was tagged with.
    pub pane_tokens: KeyMap<String>,
    /// The palette that each workspace was tagged with.
    pub ws_tokens: KeyMap<String>,
    pub last_workspace: Option<String>,
    pub last_palette: Option<String>,
    pub window: WindowState,
}

/// What a [`State`] holds.
pub struct StateView {
    pub managed: Seq<Seq<char>>,
    pub managed_sidebar: Seq<Seq<char>>,
    pub pane_tokens: Map<Seq<char>, Seq<char>>,
    pub ws_tokens: Map<Seq<char>, Seq<char>>,
    pub last_workspace: Option<Seq<char>>,
    pub last_palette: Option<Seq<char>>,
    pub window: WindowView,
}

/// Nothing is remembered.
pub open spec fn blank_state() -> StateView {
    StateView {
        managed: seq![],
        managed_sidebar: seq![],
        pane_tokens: Map::empty(),
        ws_tokens: Map::empty(),
        last_workspace: None,
        last_palette: None,
        window: WindowView {
            original: Map::empty(),
            current: Map::empty(),
            session: Map::empty(),
        },
    }
}

impl State {
    pub open spec fn view(&self) -> StateView {
        StateView {
            managed: texts(self.managed@),
            managed_sidebar: texts(self.managed_sidebar@),
            pane_tokens: text_map(self.pane_tokens),
            ws_tokens: text_map(self.ws_tokens),
            last_workspace: opt_text(self.last_workspace),
            last_palette: opt_text(self.last_palette),
            window: self.window@,
        }
    }

    pub open spec fn wf(&self) -> bool {
        self.pane_tokens.wf() && self.ws_tokens.wf() && self.window.wf()
    }
}

impl Default for State {
    /// Nothing is remembered.
    fn default() -> (r: State)
        ensures
            r.wf(),
            r@ == blank_state(),
    {
        let r = State {
            managed: Vec::new(),
            managed_sidebar: Vec::new(),
            pane_tokens: KeyMap::new(),
            ws_tokens: KeyMap::new(),
            last_workspace: None,
            last_palette: None,
            window: WindowState::new(),
        };
        proof {
            assert(r@.managed =~= seq![]);
            assert(r@.managed_sidebar =~= seq![]);
            assert(r@.pane_tokens =~= Map::empty());
            assert(r@.ws_tokens =~= Map::empty());
        }
        r
    }
}

// --- reading ---------------------------------------------------------------------

/// The texts of a list; other values are left out.
pub open spec fn only_texts(v: Seq<JsonTree>) -> Seq<Seq<char>>
    decreases v.len(),
{
    if v.len() == 0 {
        seq![]
    } else {
        let rest = only_texts(v.drop_last());
        match v.last() {
            JsonTree::Text(s) => rest.push(s),
            _ => rest,
        }
    }
}

/// The texts of the entries of an object; other values are left out.
pub open spec fn only_text_entries(v: Seq<(Seq<char>, JsonTree)>) -> Map<Seq<char>, Seq<char>>
    decreases v.len(),
{
    if v.len() == 0 {
        Map::empty()
    } else {
        let rest = only_text_entries(v.drop_last());
        match v.last().1 {
            JsonTree::Text(s) => rest.insert(v.last().0, s),
            _ => rest,
        }
    }
}

/// The texts of a value that is a list; none of another.
pub open spec fn str_vec_of(t: Option<JsonTree>) -> Seq<Seq<char>> {
    match t {
        Some(JsonTree::List(v)) => only_texts(v),
        _ => seq![],
    }
}

/// The texts of a value that is an object; none of another.
pub open spec fn str_map_of(t: Option<JsonTree>) -> Map<Seq<char>, Seq<char>> {
    match t {
        Some(JsonTree::Object(v)) => only_text_entries(v),
        _ => Map::empty(),
    }
}

/// An optional value.
pub open spec fn opt_tree(o: Option<&Json>) -> Option<JsonTree> {
    match o {
        Some(j) => Some(j@),
        None => None,
    }
}

/// The texts of a list.
pub fn str_vec(o: Option<&Json>) -> (r: Vec<String>)
    ensures
        texts(r@) == str_vec_of(opt_tree(o)),
{
    broadcast use lemma_texts_push;

    let mut out: Vec<String> = Vec::new();
    assert(texts(out@) =~= seq![]);
    match o {
        Some(Json::List(v)) => {
            let ghost all = list_trees(v@);
            let mut i: usize = 0;
            assert(o->0@->List_0 =~= all);
            while i < v.len()
                invariant
                    all == list_trees(v@),
                    i <= v@.len(),
                    texts(out@) == only_texts(all.take(i as int)),
                decreases v@.len() - i,
            {
                proof {
                    assert(all.take(i + 1).drop_last() =~= all.take(i as int));
                    assert(all.take(i + 1).last() == v@[i as int]@);
                }
                match &v[i] {
                    Json::Text(s) => out.push(s.clone()),
                    _ => {},
                }
                i += 1;
            }
            assert(all.take(i as int) =~= all);
        },
        _ => {},
    }
    out
}

/// The texts of an object.
pub fn str_map(o: Option<&Json>) -> (r: KeyMap<String>)
    ensures
        r.wf(),
        text_map(r) == str_map_of(opt_tree(o)),
{
    let mut out: KeyMap<String> = KeyMap::new();
    assert(text_map(out) =~= Map::empty());
    match o {
        Some(Json::Object(v)) => {
            let ghost all = object_trees(v@);
            let mut i: usize = 0;
            assert(o->0@->Object_0 =~= all);
            while i < v.len()
                invariant
                    all == object_trees(v@),
                    i <= v@.len(),
                    out.wf(),
                    text_map(out) == only_text_entries(all.take(i as int)),
                decreases v@.len() - i,
            {
                proof {
                    assert(all.take(i + 1).drop_last() =~= all.take(i as int));
                    assert(all.take(i + 1).last() == (v@[i as int].0@, v@[i as int].1@));
                }
                match &v[i].1 {
                    Json::Text(s) => {
                        let ghost earlier = text_map(out);
                        out.insert(v[i].0.clone(), s.clone());
                        assert(text_map(out) =~= earlier.insert(v@[i as int].0@, s@));
                    },
                    _ => {},
                }
                i += 1;
            }
            assert(all.take(i as int) =~= all);
        },
        _ => {},
    }
    out
}

/// What a saved value says.
pub open spec fn state_of(t: JsonTree) -> StateView {
    StateView {
        managed: str_vec_of(json_field(t, "managed"@)),
        managed_sidebar: str_vec_of(json_field(t, "managed_sidebar"@)),
        pane_tokens: str_map_of(json_field(t, "pane_tokens"@)),
        ws_tokens: str_map_of(json_field(t, "ws_tokens"@)),
        last_workspace: json_str(t, "last_workspace"@),
        last_palette: json_str(t, "last_palette"@),
        window: WindowView {
            original: str_map_of(json_field(t, "window_original"@)),
            current: str_map_of(json_field(t, "window_current"@)),
            session: str_map_of(json_field(t, "window_session"@)),
        },
    }
}

/// Reads what was saved.
pub fn read_state(j: &Json) -> (r: State)
    ensures
        r.wf(),
        r@ == state_of(j@),
{
    State {
        managed: str_vec(j.field("managed")),
        managed_sidebar: str_vec(j.field("managed_sidebar")),
        pane_tokens: str_map(j.field("pane_tokens")),
        ws_tokens: str_map(j.field("ws_tokens")),
        last_workspace: opt_owned(j.str("last_workspace")),
        last_palette: opt_owned(j.str("last_palette")),
        window: WindowState {
            original: str_map(j.field("window_original")),
            current: str_map(j.field("window_current")),
            session: str_map(j.field("window_session")),
        },
    }
}

/// What a saved text says; nothing where it is no JSON.
pub open spec fn state_of_text(text: Seq<char>) -> StateView {
    match json_parse(text) {
        Ok(t) => state_of(t),
        Err(_) => blank_state(),
    }
}

/// Reads a saved text. A text that is no JSON counts as nothing remembered.
pub fn load_state(text: &str) -> (r: State)
    ensures
        r.wf(),
        r@ == state_of_text(text@),
{
    match parse_json(text) {
        Ok(j) => read_state(&j),
        Err(_) => State::default(),
    }
}

// --- writing ---------------------------------------------------------------------

/// A list of texts as a value.
pub open spec fn list_tree(v: Seq<Seq<char>>) -> JsonTree {
    JsonTree::List(v.map_values(|s: Seq<char>| JsonTree::Text(s)))
}

/// A map of texts as a value.
pub open spec fn map_tree(m: KeyMap<String>) -> JsonTree {
    JsonTree::Object(m.entries@.map_values(|e: (String, String)| (e.0@, JsonTree::Text(e.1@))))
}

/// An optional text as a value.
pub open spec fn opt_text_tree(o: Option<Seq<char>>) -> JsonTree {
    match o {
        Some(s) => JsonTree::Text(s),
        None => JsonTree::Null,
    }
}

/// A state as it is saved.
pub open spec fn state_tree(st: State) -> JsonTree {
    JsonTree::Object(
        seq![
            ("last_palette"@, opt_text_tree(opt_text(st.last_palette))),
            ("last_workspace"@, opt_text_tree(opt_text(st.last_workspace))),
            ("managed"@, list_tree(texts(st.managed@))),
            ("managed_sidebar"@, list_tree(texts(st.managed_sidebar@))),
            ("pane_tokens"@, map_tree(st.pane_tokens)),
            ("window_current"@, map_tree(st.window.current)),
            ("window_original"@, map_tree(st.window.original)),
            ("window_session"@, map_tree(st.window.session)),
            ("ws_tokens"@, map_tree(st.ws_tokens)),
        ],
    )
}

fn list_of(v: &Vec<String>) -> (r: serde_json::Value)
    ensures
        json(r) == list_tree(texts(v@)),
{
    let mut out: Vec<serde_json::Value> = Vec::new();
    let mut i: usize = 0;
    while i < v.len()
        invariant
            i <= v@.len(),
            out@.len() == i,
            forall|j: int| 0 <= j < i ==> json(#[trigger] out@[j]) == JsonTree::Text(v@[j]@),
        decreases v@.len() - i,
    {
        out.push(text_value(v[i].clone()));
        i += 1;
    }
    proof {
        let got = out@.map_values(|x: serde_json::Value| json(x));
        let want = texts(v@).map_values(|s: Seq<char>| JsonTree::Text(s));
        assert forall|j: int| 0 <= j < want.len() implies got[j] == want[j] by {
            assert(json(out@[j]) == JsonTree::Text(v@[j]@));
        }
        assert(got =~= want);
    }
    list_value(out)
}

fn map_of(m: &KeyMap<String>) -> (r: serde_json::Value)
    requires
        m.wf(),
    ensures
        json(r) == map_tree(*m),
{
    let mut out: Vec<(String, serde_json::Value)> = Vec::new();
    let mut i: usize = 0;
    while i < m.entries.len()
        invariant
            i <= m.entries@.len(),
            out@.len() == i,
            forall|j: int|
                0 <= j < i ==> (#[trigger] out@[j]).0@ == m.entries@[j].0@ && json(out@[j].1)
                    == JsonTree::Text(m.entries@[j].1@),
        decreases m.entries@.len() - i,
    {
        out.push((m.entries[i].0.clone(), text_value(m.entries[i].1.clone())));
        i += 1;
    }
    proof {
        assert(entry_keys(out@) =~= m.keys());
        let got = out@.map_values(|x: (String, serde_json::Value)| (x.0@, json(x.1)));
        let want = m.entries@.map_values(|e: (String, String)| (e.0@, JsonTree::Text(e.1@)));
        assert forall|j: int| 0 <= j < want.len() implies got[j] == want[j] by {
            assert(json(out@[j].1) == JsonTree::Text(m.entries@[j].1@));
        }
        assert(got =~= want);
    }
    object_value(out)
}

fn opt_of(o: &Option<String>) -> (r: serde_json::Value)
    ensures
        json(r) == opt_text_tree(opt_text(*o)),
{
    match o {
        Some(s) => text_value(s.clone()),
        None => null_value(),
    }
}

/// Whether each text comes before the next.
spec fn stepwise(keys: Seq<Seq<char>>) -> bool {
    forall|i: int| 0 <= i < keys.len() - 1 ==> before(#[trigger] keys[i], keys[i + 1])
}

proof fn lemma_stepwise(keys: Seq<Seq<char>>, i: int, j: int)
    requires
        stepwise(keys),
        0 <= i < j < keys.len(),
    ensures
        before(keys[i], keys[j]),
    decreases j - i,
{
    assert(before(keys[j - 1], keys[j - 1 + 1]));
    if i < j - 1 {
        lemma_stepwise(keys, i, j - 1);
        lemma_before_transitive(keys[i], keys[j - 1], keys[j]);
    }
}

/// The keys of a saved state, in order.
spec fn state_keys() -> Seq<Seq<char>> {
    seq![
        "last_palette"@,
        "last_workspace"@,
        "managed"@,
        "managed_sidebar"@,
        "pane_tokens"@,
        "window_current"@,
        "window_original"@,
        "window_session"@,
        "ws_tokens"@,
    ]
}

proof fn lemma_state_keys()
    ensures
        ascending(state_keys()),
{
    reveal_strlit("last_palette");
    reveal_strlit("last_workspace");
    reveal_strlit("managed");
    reveal_strlit("managed_sidebar");
    reveal_strlit("pane_tokens");
    reveal_strlit("window_current");
    reveal_strlit("window_original");
    reveal_strlit("window_session");
    reveal_strlit("ws_tokens");
    reveal_with_fuel(before, 9);
    assert(before("last_palette"@, "last_workspace"@));
    assert(before("last_workspace"@, "managed"@));
    assert(before("managed"@, "managed_sidebar"@));
    assert(before("managed_sidebar"@, "pane_tokens"@));
    assert(before("pane_tokens"@, "window_current"@));
    assert(before("window_current"@, "window_original"@));
    assert(before("window_original"@, "window_session"@));
    assert(before("window_session"@, "ws_tokens"@));
    let keys = state_keys();
    assert(stepwise(keys));
    assert forall|i: int, j: int| 0 <= i < j < keys.len() implies before(
        #[trigger] keys[i],
        #[trigger] keys[j],
    ) by {
        lemma_stepwise(keys, i, j);
    }
}

/// The text that saves a state. Reading it gives the state back.
pub fn save_state(st: &State) -> (r: String)
    requires
        st.wf(),
    ensures
        r@ == json_text(state_tree(*st)),
        json_parse(r@) == Ok::<JsonTree, Seq<char>>(state_tree(*st)),
        state_of_text(r@) == st@,
{
    let entries: Vec<(String, serde_json::Value)> = vec![
        ("last_palette".to_owned(), opt_of(&st.last_palette)),
        ("last_workspace".to_owned(), opt_of(&st.last_workspace)),
        ("managed".to_owned(), list_of(&st.managed)),
        ("managed_sidebar".to_owned(), list_of(&st.managed_sidebar)),
        ("pane_tokens".to_owned(), map_of(&st.pane_tokens)),
        ("window_current".to_owned(), map_of(&st.window.current)),
        ("window_original".to_owned(), map_of(&st.window.original)),
        ("window_session".to_owned(), map_of(&st.window.session)),
        ("ws_tokens".to_owned(), map_of(&st.ws_tokens)),
    ];
    proof {
        lemma_state_keys();
        assert(entry_keys(entries@) =~= state_keys());
        assert(entries@.map_values(|x: (String, serde_json::Value)| (x.0@, json(x.1)))
            =~= state_tree(*st)->Object_0);
        lemma_state_plain(*st);
        law_saving_keeps_the_state(*st);
    }
    value_text(&object_value(entries))
}

proof fn lemma_list_plain(v: Seq<Seq<char>>, depth: nat)
    requires
        depth > 0,
    ensures
        plain_json(list_tree(v), depth),
{
    reveal_with_fuel(plain_json, 2);
}

proof fn lemma_map_plain(m: KeyMap<String>, depth: nat)
    requires
        depth > 0,
    ensures
        plain_json(map_tree(m), depth),
{
    reveal_with_fuel(plain_json, 2);
}

proof fn lemma_state_plain(st: State)
    ensures
        plain_json(state_tree(st), 100),
{
    reveal_with_fuel(plain_json, 2);
    lemma_list_plain(texts(st.managed@), 99);
    lemma_list_plain(texts(st.managed_sidebar@), 99);
    lemma_map_plain(st.pane_tokens, 99);
    lemma_map_plain(st.ws_tokens, 99);
    lemma_map_plain(st.window.current, 99);
    lemma_map_plain(st.window.original, 99);
    lemma_map_plain(st.window.session, 99);
}

proof fn lemma_list_back(v: Seq<Seq<char>>)
    ensures
        str_vec_of(Some(list_tree(v))) == v,
    decreases v.len(),
{
    let trees = list_tree(v)->List_0;
    if v.len() == 0 {
        assert(only_texts(trees) =~= v);
    } else {
        lemma_list_back(v.drop_last());
        assert(trees.drop_last() =~= list_tree(v.drop_last())->List_0);
        assert(v.drop_last().push(v.last()) =~= v);
    }
}

proof fn lemma_map_back(m: KeyMap<String>)
    requires
        m.wf(),
    ensures
        str_map_of(Some(map_tree(m))) == text_map(m),
{
    let trees = map_tree(m)->Object_0;
    lemma_map_back_prefix(m, trees.len() as int);
    assert(trees.take(trees.len() as int) =~= trees);
    let got = only_text_entries(trees);
    let want = text_map(m);
    assert forall|k: Seq<char>| got.contains_key(k) <==> want.contains_key(k) by {
        assert(m@.contains_key(k) == m.keys().contains(k));
        if want.contains_key(k) {
            let i = choose|i: int| 0 <= i < m.keys().len() && m.keys()[i] == k;
            assert(trees[i].0 == k);
        }
        if got.contains_key(k) {
            let i = choose|i: int| 0 <= i < trees.len() && (#[trigger] trees[i]).0 == k;
            assert(m.keys()[i] == k);
        }
    }
    assert forall|k: Seq<char>| got.contains_key(k) implies #[trigger] got[k] == want[k] by {
        assert(want.contains_key(k));
        let i = choose|i: int| 0 <= i < m.keys().len() && m.keys()[i] == k;
        m.lemma_entry(i);
        assert(trees[i].0 == k);
    }
    assert(got =~= want);
}

proof fn lemma_map_back_prefix(m: KeyMap<String>, n: int)
    requires
        m.wf(),
        0 <= n <= m.entries@.len(),
    ensures
        ({
            let trees = map_tree(m)->Object_0;
            let got = only_text_entries(trees.take(n));
            &&& forall|k: Seq<char>|
                got.contains_key(k) <==> exists|i: int|
                    0 <= i < n && (#[trigger] trees[i]).0 == k
            &&& forall|i: int|
                0 <= i < n ==> got[(#[trigger] trees[i]).0] == m.entries@[i].1@
        }),
    decreases n,
{
    let trees = map_tree(m)->Object_0;
    if n > 0 {
        lemma_map_back_prefix(m, n - 1);
        assert(trees.take(n).drop_last() =~= trees.take(n - 1));
        assert(trees.take(n).last() == trees[n - 1]);
        let before_map = only_text_entries(trees.take(n - 1));
        let got = only_text_entries(trees.take(n));
        assert(got == before_map.insert(trees[n - 1].0, m.entries@[n - 1].1@));
        assert forall|i: int| 0 <= i < n implies got[(#[trigger] trees[i]).0] == m.entries@[i].1@ by {
            if i < n - 1 && trees[i].0 == trees[n - 1].0 {
                assert(m.keys()[i] == m.keys()[n - 1]);
                lemma_ascending_distinct(m.keys(), i, n - 1);
            }
        }
        assert forall|k: Seq<char>|
            got.contains_key(k) <==> exists|i: int| 0 <= i < n && (#[trigger] trees[i]).0 == k by {
            if got.contains_key(k) {
                if k == trees[n - 1].0 {
                    assert(trees[n - 1].0 == k);
                } else {
                    assert(before_map.contains_key(k));
                    let i = choose|i: int| 0 <= i < n - 1 && (#[trigger] trees[i]).0 == k;
                    assert(trees[i].0 == k);
                }
            }
        }
    }
}

/// What is saved is what is read back.
pub proof fn law_saving_keeps_the_state(st: State)
    requires
        st.wf(),
    ensures
        state_of(state_tree(st)) == st@,
{
    lemma_state_keys();
    let t = state_tree(st);
    let v = t->Object_0;
    assert forall|i: int| 0 <= i < v.len() implies json_field(t, (#[trigger] v[i]).0) == Some(
        v[i].1,
    ) by {
        lemma_entry_at(v, i);
    }
    assert(v[0].0 == "last_palette"@);
    assert(v[1].0 == "last_workspace"@);
    assert(v[2].0 == "managed"@);
    assert(v[3].0 == "managed_sidebar"@);
    assert(v[4].0 == "pane_tokens"@);
    assert(v[5].0 == "window_current"@);
    assert(v[6].0 == "window_original"@);
    assert(v[7].0 == "window_session"@);
    assert(v[8].0 == "ws_tokens"@);
    lemma_list_back(texts(st.managed@));
    lemma_list_back(texts(st.managed_sidebar@));
    lemma_map_back(st.pane_tokens);
    lemma_map_back(st.ws_tokens);
    lemma_map_back(st.window.current);
    lemma_map_back(st.window.original);
    lemma_map_back(st.window.session);
}

proof fn lemma_entry_at(v: Seq<(Seq<char>, JsonTree)>, i: int)
    requires
        ascending(v.map_values(|e: (Seq<char>, JsonTree)| e.0)),
        0 <= i < v.len(),
    ensures
        entry_at(v, v[i].0) == Some(v[i].1),
    decreases v.len(),
{
    let keys = v.map_values(|e: (Seq<char>, JsonTree)| e.0);
    if i > 0 {
        if keys[0] == keys[i] {
            lemma_ascending_distinct(keys, 0, i);
        }
        let rest = v.skip(1);
        let rest_keys = rest.map_values(|e: (Seq<char>, JsonTree)| e.0);
        assert forall|a: int, b: int| 0 <= a < b < rest_keys.len() implies before(
            #[trigger] rest_keys[a],
            #[trigger] rest_keys[b],
        ) by {
            assert(rest_keys[a] == keys[a + 1] && rest_keys[b] == keys[b + 1]);
        }
        lemma_entry_at(rest, i - 1);
    }
}

// --- the lock --------------------------------------------------------------------

/// Whether a lock of that age was left behind. One whose age cannot be told
/// counts as left behind.
pub open spec fn left_behind(age: Option<(u64, u32)>) -> bool {
    match age {
        Some((secs, nanos)) => secs > 15 || (secs == 15 && nanos > 0),
        None => true,
    }
}

/// Whether a lock was left behind: it is older than fifteen seconds, or its age,
/// in seconds and nanoseconds, cannot be told.
pub fn lock_is_stale(age: Option<(u64, u32)>) -> (r: bool)
    ensures
        r == left_behind(age),
{
    match age {
        Some((secs, nanos)) => secs > 15 || (secs == 15 && nanos > 0),
        None => true,
    }
}

/// How an attempt to create the lock ended.
pub enum LockAttempt {
    Created,
    /// It was there already; its age in seconds and nanoseconds, if known.
    Exists(Option<(u64, u32)>),
    Failed,
}

/// What to do after an attempt to create the lock.
pub enum LockStep {
    /// The lock is held.
    Held,
    /// Another run holds it.
    Busy,
    /// Remove the old lock and try once more.
    RemoveAndRetry,
    /// Remove the old lock and give up for now.
    RemoveAndGiveUp,
    /// Report the failure.
    Fail,
}

/// What to do after an attempt to create the lock.
pub open spec fn after_attempt(first: bool, attempt: LockAttempt) -> LockStep {
    match attempt {
        LockAttempt::Created => LockStep::Held,
        LockAttempt::Failed => LockStep::Fail,
        LockAttempt::Exists(age) => if !left_behind(age) {
            LockStep::Busy
        } else if first {
            LockStep::RemoveAndRetry
        } else {
            LockStep::RemoveAndGiveUp
        },
    }
}

/// What to do after an attempt to create the lock: an old lock is removed, and
/// there are two attempts in all.
pub fn lock_step(first: bool, attempt: &LockAttempt) -> (r: LockStep)
    ensures
        r == after_attempt(first, *attempt),
{
    match attempt {
        LockAttempt::Created => LockStep::Held,
        LockAttempt::Failed => LockStep::Fail,
        LockAttempt::Exists(age) => if !lock_is_stale(*age) {
            LockStep::Busy
        } else if first {
            LockStep::RemoveAndRetry
        } else {
            LockStep::RemoveAndGiveUp
        },
    }
}

// --- what is read of a saved state -----------------------------------------------

proof fn lemma_only_texts(v: Seq<JsonTree>)
    ensures
        only_texts(v) == v.filter(|t: JsonTree| t is Text).map_values(
            |t: JsonTree| t->Text_0,
        ),
    decreases v.len(),
{
    let is_text = |t: JsonTree| t is Text;
    let text = |t: JsonTree| t->Text_0;
    reveal(Seq::filter);
    if v.len() > 0 {
        let rest = v.drop_last();
        lemma_only_texts(rest);
        if v.last() is Text {
            assert(v.filter(is_text).map_values(text) =~= rest.filter(is_text).map_values(
                text,
            ).push(v.last()->Text_0));
        }
    } else {
        assert(only_texts(v) =~= v.filter(is_text).map_values(text));
    }
}

proof fn lemma_only_entries(v: Seq<(Seq<char>, JsonTree)>, key: Seq<char>, i: int)
    requires
        -1 <= i < v.len(),
        forall|j: int|
            i < j < v.len() ==> (#[trigger] v[j]).0 != key || !(v[j].1 is Text),
        i >= 0 ==> v[i].0 == key && v[i].1 is Text,
    ensures
        i < 0 ==> !only_text_entries(v).contains_key(key),
        i >= 0 ==> only_text_entries(v).contains_key(key) && only_text_entries(v)[key]
            == v[i].1->Text_0,
    decreases v.len(),
{
    if v.len() > 0 {
        let rest = v.drop_last();
        assert(v[v.len() - 1] == v.last());
        if i < v.len() - 1 {
            assert forall|j: int| i < j < rest.len() implies (#[trigger] rest[j]).0 != key || !(
            rest[j].1 is Text) by {
                assert(rest[j] == v[j]);
            }
            lemma_only_entries(rest, key, i);
        }
    }
}

/// A saved state is read by the names of its entries: a list gives the texts in it,
/// in their order; anything else gives none.
pub proof fn law_saved_lists_are_read(t: JsonTree)
    ensures
        ({
            let managed = json_field(t, "managed"@);
            let kinds = json_field(t, "managed_sidebar"@);
            &&& managed is Some && managed->0 is List ==> state_of(t).managed
                == managed->0->List_0.filter(|x: JsonTree| x is Text).map_values(
                |x: JsonTree| x->Text_0,
            )
            &&& !(managed is Some && managed->0 is List) ==> state_of(t).managed.len() == 0
            &&& kinds is Some && kinds->0 is List ==> state_of(t).managed_sidebar
                == kinds->0->List_0.filter(|x: JsonTree| x is Text).map_values(
                |x: JsonTree| x->Text_0,
            )
            &&& !(kinds is Some && kinds->0 is List) ==> state_of(t).managed_sidebar.len() == 0
            &&& forall|s: Seq<char>|
                state_of(t).last_workspace == Some(s) <==> json_field(t, "last_workspace"@) == Some(
                    JsonTree::Text(s),
                )
            &&& forall|s: Seq<char>|
                state_of(t).last_palette == Some(s) <==> json_field(t, "last_palette"@) == Some(
                    JsonTree::Text(s),
                )
        }),
{
    let managed = json_field(t, "managed"@);
    let kinds = json_field(t, "managed_sidebar"@);
    if managed is Some && managed->0 is List {
        lemma_only_texts(managed->0->List_0);
    }
    if kinds is Some && kinds->0 is List {
        lemma_only_texts(kinds->0->List_0);
    }
}

/// The map that a saved state holds under a name.
pub open spec fn map_named(st: StateView, name: Seq<char>) -> Map<Seq<char>, Seq<char>> {
    if name == "pane_tokens"@ {
        st.pane_tokens
    } else if name == "ws_tokens"@ {
        st.ws_tokens
    } else if name == "window_original"@ {
        st.window.original
    } else if name == "window_current"@ {
        st.window.current
    } else {
        st.window.session
    }
}

/// An object in a saved state gives each key the last text that it has there; a key
/// without one is not there, and anything but an object gives no key.
pub proof fn law_saved_maps_are_read(t: JsonTree, name: Seq<char>, key: Seq<char>, i: int)
    requires
        seq![
            "pane_tokens"@,
            "ws_tokens"@,
            "window_original"@,
            "window_current"@,
            "window_session"@,
        ].contains(name),
    ensures
        ({
            let found = json_field(t, name);
            let v = found->0->Object_0;
            let m = map_named(state_of(t), name);
            &&& !(found is Some && found->0 is Object) ==> !m.contains_key(key)
            &&& found is Some && found->0 is Object && 0 <= i < v.len() && v[i].0 == key
                && v[i].1 is Text && (forall|j: int|
                i < j < v.len() ==> (#[trigger] v[j]).0 != key || !(v[j].1 is Text))
                ==> m.contains_key(key) && m[key] == v[i].1->Text_0
            &&& found is Some && found->0 is Object && (forall|j: int|
                0 <= j < v.len() ==> (#[trigger] v[j]).0 != key || !(v[j].1 is Text))
                ==> !m.contains_key(key)
        }),
{
    reveal_strlit("pane_tokens");
    reveal_strlit("ws_tokens");
    reveal_strlit("window_original");
    reveal_strlit("window_current");
    reveal_strlit("window_session");
    assert("pane_tokens"@.len() == 11 && "ws_tokens"@.len() == 9 && "window_original"@.len() == 15
        && "window_current"@.len() == 14 && "window_session"@.len() == 14);
    assert("window_current"@[7] == 'c' && "window_session"@[7] == 's');
    let found = json_field(t, name);
    if found is Some && found->0 is Object {
        let v = found->0->Object_0;
        if 0 <= i < v.len() && v[i].0 == key && v[i].1 is Text && (forall|j: int|
            i < j < v.len() ==> (#[trigger] v[j]).0 != key || !(v[j].1 is Text)) {
            lemma_only_entries(v, key, i);
        }
        if forall|j: int|
            0 <= j < v.len() ==> (#[trigger] v[j]).0 != key || !(v[j].1 is Text) {
            lemma_only_entries(v, key, -1);
        }
    }
}

/// A text that is no JSON says nothing.
pub proof fn law_no_json_says_nothing(text: Seq<char>)
    requires
        json_parse(text) is Err,
    ensures
        ({
            let st = state_of_text(text);
            &&& st.managed.len() == 0
            &&& st.managed_sidebar.len() == 0
            &&& st.last_workspace is None
            &&& st.last_palette is None
            &&& forall|k: Seq<char>|
                !st.pane_tokens.contains_key(k) && !st.ws_tokens.contains_key(k)
                    && !st.window.original.contains_key(k) && !st.window.current.contains_key(k)
                    && !#[trigger] st.window.session.contains_key(k)
        }),
{
}

/// A lock is left behind once it is more than fifteen seconds old, to the
/// nanosecond, and so is one whose age cannot be told.
pub proof fn law_locks_grow_old(secs: u64, nanos: u32)
    requires
        nanos < 1_000_000_000,
    ensures
        left_behind(Some((secs, nanos))) <==> secs * 1_000_000_000 + nanos > 15_000_000_000,
        left_behind(None),
{
}

/// The lock is held only where it was created. A lock that is not left behind is never
/// removed; one that is, always, and then there is one more attempt after the first.
pub proof fn law_locks_are_respected(first: bool, attempt: LockAttempt)
    ensures
        after_attempt(first, attempt) is Held <==> attempt is Created,
        after_attempt(first, attempt) is Fail <==> attempt is Failed,
        attempt is Exists && !left_behind(attempt->Exists_0) ==> after_attempt(
            first,
            attempt,
        ) is Busy,
        attempt is Exists && left_behind(attempt->Exists_0) && first ==> after_attempt(
            first,
            attempt,
        ) is RemoveAndRetry,
        attempt is Exists && left_behind(attempt->Exists_0) && !first ==> after_attempt(
            first,
            attempt,
        ) is RemoveAndGiveUp,
{
}

} // verus!
