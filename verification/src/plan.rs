//! The edits of Herdr's configuration: theme tokens and sidebar rows in, and
//! out again.
//!
//! An edit of a document has three parts. The user's own values that gave way are
//! put back; the plan is carried out on what is then the user's, with the managed
//! keys and rows added; and the user's values that the palette sets too give way to
//! it.
use crate::aside::{
    cover, covered_root, entry_keys, kept_entries, kept_of, keys_without, list_without, uncover,
    uncovered,
};
use crate::keymap::KeyMap;
use crate::memo::{join_text, read_text, split_text, written, Memo, MemoView};
use crate::own::{noted, Own};
use crate::sidebar::{apply_sidebar, clear_sidebar, sidebar_applied, sidebar_cleared, SidebarSpec};
use crate::text::{before, list_has, texts};
use crate::toml::{
    child, document, document_text, editable, entries_of, fitted, fresh_table, get, get_mut,
    holds_key, index_of, insert, is_table_like, lemma_index_is, lemma_index_of, new_table, node,
    nth, parse_document, put, put_entry, remove, root, root_mut, set_implicit, string_item,
    string_node, table_like, toml_parse, toml_text, whole, with_child, without, Document, Entry,
    Node,
};
use vstd::prelude::*;

verus! {

/// Why an edit cannot be made.
#[derive(Debug)]
pub enum EditError {
    /// The text is no TOML document; the message says why.
    Parse(String),
    /// `theme` is there and is no table.
    ThemeNotTable,
    /// `theme.custom` is there and is no table.
    CustomNotTable,
    /// The table at this path is there and has no header of its own.
    NotStandardTable(String),
}

/// What an [`EditError`] says.
pub enum Fault {
    Parse(Seq<char>),
    ThemeNotTable,
    CustomNotTable,
    NotStandardTable(Seq<char>),
}

impl EditError {
    pub open spec fn view(&self) -> Fault {
        match self {
            EditError::Parse(e) => Fault::Parse(e@),
            EditError::ThemeNotTable => Fault::ThemeNotTable,
            EditError::CustomNotTable => Fault::CustomNotTable,
            EditError::NotStandardTable(p) => Fault::NotStandardTable(p@),
        }
    }

    /// The message for an error.
    pub open spec fn message_of(f: Fault) -> Seq<char> {
        match f {
            Fault::Parse(e) => "herdr config parse error: "@ + e,
            Fault::ThemeNotTable => "theme exists but is not a table"@,
            Fault::CustomNotTable => "theme.custom exists but is not a table"@,
            Fault::NotStandardTable(p) => p + " exists but is not a standard table"@,
        }
    }

    /// The message for the user.
    pub fn message(&self) -> (r: String)
        ensures
            r@ == Self::message_of(self@),
    {
        match self {
            EditError::Parse(e) => "herdr config parse error: ".to_owned().concat(e.as_str()),
            EditError::ThemeNotTable => "theme exists but is not a table".to_owned(),
            EditError::CustomNotTable => "theme.custom exists but is not a table".to_owned(),
            EditError::NotStandardTable(p) => p.clone().concat(
                " exists but is not a standard table",
            ),
        }
    }
}

/// Theme tokens and their colours, in the order of the tokens.
pub open spec fn token_pairs(tokens: KeyMap<String>) -> Seq<(Seq<char>, Seq<char>)> {
    tokens.entries@.map_values(|e: (String, String)| (e.0@, e.1@))
}

/// The tokens of a list of tokens and colours.
pub open spec fn token_keys(pairs: Seq<(Seq<char>, Seq<char>)>) -> Seq<Seq<char>> {
    pairs.map_values(|p: (Seq<char>, Seq<char>)| p.0)
}

// --- theme -----------------------------------------------------------------------

/// The table with each token set to its colour, one after the other.
pub open spec fn with_tokens(n: Node, pairs: Seq<(Seq<char>, Seq<char>)>) -> Node
    decreases pairs.len(),
{
    if pairs.len() == 0 {
        n
    } else {
        put(with_tokens(n, pairs.drop_last()), pairs.last().0, string_node(pairs.last().1))
    }
}

/// The table without those of `keys` that are not in `keep`.
pub open spec fn without_stale(n: Node, keys: Seq<Seq<char>>, keep: Seq<Seq<char>>) -> Node
    decreases keys.len(),
{
    if keys.len() == 0 {
        n
    } else {
        let m = without_stale(n, keys.drop_last(), keep);
        if keep.contains(keys.last()) {
            m
        } else {
            without(m, keys.last())
        }
    }
}

/// The table `n`, with an empty table under `key` where nothing stands there.
pub open spec fn ensured(n: Node, key: Seq<char>, implicit: bool) -> Node {
    if child(n, key) is None {
        put(n, key, fresh_table(implicit))
    } else {
        n
    }
}

/// The tokens that an edit may set in a table: those that are managed, and those
/// whose key is not there. A key that is there and not managed is the user's.
pub open spec fn free_of(
    entries: Seq<Entry>,
    pairs: Seq<(Seq<char>, Seq<char>)>,
    managed: Seq<Seq<char>>,
) -> Seq<(Seq<char>, Seq<char>)>
    decreases pairs.len(),
{
    if pairs.len() == 0 {
        pairs
    } else {
        let rest = free_of(entries, pairs.drop_last(), managed);
        if managed.contains(pairs.last().0) || !holds_key(entries, pairs.last().0) {
            rest.push(pairs.last())
        } else {
            rest
        }
    }
}

/// The tokens that an edit may set in `theme.custom`.
pub open spec fn free_pairs(
    root: Node,
    pairs: Seq<(Seq<char>, Seq<char>)>,
    managed: Seq<Seq<char>>,
) -> Seq<(Seq<char>, Seq<char>)> {
    match child2(root, "theme"@, "custom"@) {
        Some(custom) => free_of(entries_of(custom), pairs, managed),
        None => free_of(seq![], pairs, managed),
    }
}

/// The document's root with the tokens set in `theme.custom`, but for the user's
/// own keys, and those of `managed` that are no longer among them taken out.
pub open spec fn theme_applied(
    root: Node,
    pairs: Seq<(Seq<char>, Seq<char>)>,
    managed: Seq<Seq<char>>,
) -> Result<Node, Fault> {
    theme_written(root, free_pairs(root, pairs, managed), managed)
}

/// The document's root with the tokens set in `theme.custom`, those of
/// `managed` that are no longer among them taken out.
pub open spec fn theme_written(
    root: Node,
    pairs: Seq<(Seq<char>, Seq<char>)>,
    managed: Seq<Seq<char>>,
) -> Result<Node, Fault> {
    let root1 = ensured(root, "theme"@, true);
    let theme = child(root1, "theme"@)->0;
    let theme1 = ensured(theme, "custom"@, false);
    let custom = child(theme1, "custom"@)->0;
    if !table_like(theme) {
        Err(Fault::ThemeNotTable)
    } else if !table_like(custom) {
        Err(Fault::CustomNotTable)
    } else {
        let custom1 = with_tokens(without_stale(custom, managed, token_keys(pairs)), pairs);
        Ok(with_child(root1, "theme"@, with_child(theme1, "custom"@, custom1)))
    }
}

/// After a value is put under a key, it stands there.
pub proof fn lemma_child_put(n: Node, key: Seq<char>, m: Node)
    requires
        table_like(n),
    ensures
        table_like(put(n, key, m)),
        n is Table ==> put(n, key, m) is Table,
        child(put(n, key, m), key) == Some(fitted(n, m)),
{
    let e = entries_of(n);
    let f = put_entry(e, key, fitted(n, m));
    lemma_index_of(e, key);
    lemma_index_is(f, key, index_of(e, key));
}

/// Putting back what stands under a key changes nothing.
pub proof fn lemma_same_child(n: Node, key: Seq<char>)
    requires
        child(n, key) is Some,
    ensures
        with_child(n, key, child(n, key)->0) == n,
{
    let e = entries_of(n);
    let i = index_of(e, key);
    lemma_index_of(e, key);
    assert(e.update(i, Entry { node: e[i].node, ..e[i] }) =~= e);
}

fn set_tokens(item: &mut toml_edit::Item, tokens: &KeyMap<String>)
    requires
        table_like(node(*old(item))),
        whole(*old(item)),
    ensures
        whole(*final(item)),
        node(*final(item)) == with_tokens(node(*old(item)), token_pairs(*tokens)),
        table_like(node(*final(item))),
{
    let mut i: usize = 0;
    let ghost start = node(*item);
    let ghost pairs = token_pairs(*tokens);
    assert(pairs.take(0) =~= seq![]);
    while i < tokens.entries.len()
        invariant
            i <= tokens.entries@.len(),
            pairs == token_pairs(*tokens),
            node(*item) == with_tokens(start, pairs.take(i as int)),
            table_like(node(*item)),
            whole(*item),
        decreases tokens.entries@.len() - i,
    {
        let value = string_item(tokens.entries[i].1.as_str());
        proof {
            assert(pairs.take(i + 1).drop_last() =~= pairs.take(i as int));
            lemma_child_put(node(*item), pairs[i as int].0, string_node(pairs[i as int].1));
        }
        insert(item, tokens.entries[i].0.as_str(), value);
        i += 1;
    }
    assert(pairs.take(i as int) =~= pairs);
}

fn drop_stale(item: &mut toml_edit::Item, keys: &Vec<String>, tokens: &KeyMap<String>)
    requires
        table_like(node(*old(item))),
        tokens.wf(),
        whole(*old(item)),
    ensures
        whole(*final(item)),
        node(*final(item)) == without_stale(
            node(*old(item)),
            texts(keys@),
            token_keys(token_pairs(*tokens)),
        ),
        table_like(node(*final(item))),
{
    let mut i: usize = 0;
    let ghost start = node(*item);
    let ghost keep = token_keys(token_pairs(*tokens));
    assert(keep =~= tokens.keys());
    assert(texts(keys@).take(0) =~= seq![]);
    while i < keys.len()
        invariant
            i <= keys@.len(),
            keep == tokens.keys(),
            tokens.wf(),
            node(*item) == without_stale(start, texts(keys@).take(i as int), keep),
            table_like(node(*item)),
            whole(*item),
        decreases keys@.len() - i,
    {
        assert(texts(keys@).take(i + 1).drop_last() =~= texts(keys@).take(i as int));
        if !tokens.has(keys[i].as_str()) {
            remove(item, keys[i].as_str());
        }
        i += 1;
    }
    assert(texts(keys@).take(i as int) =~= texts(keys@));
}

pub(crate) fn ensure_child(item: &mut toml_edit::Item, key: &str, implicit: bool)
    requires
        table_like(node(*old(item))),
        whole(*old(item)),
    ensures
        whole(*final(item)),
        node(*final(item)) == ensured(node(*old(item)), key@, implicit),
        table_like(node(*final(item))),
        node(*old(item)) is Table ==> node(*final(item)) is Table,
        child(node(*final(item)), key@) is Some,
{
    if get(item, key).is_none() {
        let mut t = new_table();
        set_implicit(&mut t, implicit);
        proof {
            lemma_child_put(node(*item), key@, node(t));
        }
        insert(item, key, t);
    }
}

/// What stands under the key `b` of what stands under the key `a`.
pub(crate) fn get2<'a>(item: &'a toml_edit::Item, a: &str, b: &str) -> (r: Option<&'a toml_edit::Item>)
    ensures
        match r {
            Some(x) => child2(node(*item), a@, b@) == Some(node(*x)) && (whole(*item) ==> whole(
                *x,
            )),
            None => child2(node(*item), a@, b@) is None,
        },
{
    match get(item, a) {
        Some(x) => get(x, b),
        None => None,
    }
}

/// The tokens that an edit may set in the document with that root.
fn free_tokens(item: &toml_edit::Item, tokens: &KeyMap<String>, managed: &Vec<String>) -> (r: KeyMap<
    String,
>)
    requires
        tokens.wf(),
    ensures
        r.wf(),
        token_pairs(r) == free_pairs(node(*item), token_pairs(*tokens), texts(managed@)),
{
    let custom = get2(item, "theme", "custom");
    let ghost entries = match custom {
        Some(c) => entries_of(node(*c)),
        None => seq![],
    };
    let ghost pairs = token_pairs(*tokens);
    let ghost keys = texts(managed@);
    let mut out: Vec<(String, String)> = Vec::new();
    let mut i: usize = 0;
    let ghost mut from: Seq<int> = seq![];
    assert(pairs.take(0) =~= seq![]);
    assert(out@.map_values(|e: (String, String)| (e.0@, e.1@)) =~= free_of(
        entries,
        pairs.take(0),
        keys,
    ));
    while i < tokens.entries.len()
        invariant
            i <= tokens.entries@.len(),
            tokens.wf(),
            pairs == token_pairs(*tokens),
            keys == texts(managed@),
            match custom {
                Some(c) => entries == entries_of(node(*c)),
                None => entries == Seq::<Entry>::empty(),
            },
            out@.map_values(|e: (String, String)| (e.0@, e.1@)) == free_of(
                entries,
                pairs.take(i as int),
                keys,
            ),
            from.len() == out@.len(),
            forall|a: int|
                0 <= a < out@.len() ==> 0 <= #[trigger] from[a] < i && out@[a].0@
                    == tokens.entries@[from[a]].0@,
            forall|a: int, b: int| 0 <= a < b < out@.len() ==> #[trigger] from[a] < #[trigger] from[b],
        decreases tokens.entries@.len() - i,
    {
        let key = tokens.entries[i].0.as_str();
        let there = match custom {
            Some(c) => get(c, key).is_some(),
            None => false,
        };
        proof {
            assert(pairs.take(i + 1).drop_last() =~= pairs.take(i as int));
            assert(pairs.take(i + 1).last() == pairs[i as int]);
            lemma_index_of(entries, key@);
        }
        if list_has(managed, key) || !there {
            let ghost before = out@;
            let pair = (tokens.entries[i].0.clone(), tokens.entries[i].1.clone());
            out.push(pair);
            proof {
                from = from.push(i as int);
                assert(out@.map_values(|e: (String, String)| (e.0@, e.1@)) =~= before.map_values(
                    |e: (String, String)| (e.0@, e.1@),
                ).push(pairs[i as int]));
            }
        }
        i += 1;
    }
    assert(pairs.take(i as int) =~= pairs);
    let r = KeyMap { entries: out };
    proof {
        assert forall|a: int, b: int| 0 <= a < b < r.keys().len() implies before(
            #[trigger] r.keys()[a],
            #[trigger] r.keys()[b],
        ) by {
            assert(from[a] < from[b]);
            assert(tokens.keys()[from[a]] == r.keys()[a]);
            assert(tokens.keys()[from[b]] == r.keys()[b]);
        }
    }
    r
}

/// Sets the tokens in `theme.custom`, but for the user's own keys, whose values give
/// way in another step, and takes out the keys that were managed before and are no
/// longer. Returns the keys that are now managed.
pub fn apply_theme(
    doc: &mut toml_edit::DocumentMut,
    tokens: &KeyMap<String>,
    previously_managed: &Vec<String>,
) -> (r: Result<Vec<String>, EditError>)
    requires
        tokens.wf(),
        editable(*old(doc)),
    ensures
        match (
            r,
            theme_applied(
                document(*old(doc)).root,
                token_pairs(*tokens),
                texts(previously_managed@),
            ),
        ) {
            (Ok(keys), Ok(root)) => {
                &&& texts(keys@) == token_keys(
                    free_pairs(
                        document(*old(doc)).root,
                        token_pairs(*tokens),
                        texts(previously_managed@),
                    ),
                )
                &&& document(*final(doc)) == (Document { root, ..document(*old(doc)) })
            },
            (Err(e), Err(f)) => e@ == f && document(*final(doc))
                == document(*old(doc)),
            _ => false,
        },
        editable(*final(doc)),
{
    let free = free_tokens(root(doc), tokens, previously_managed);
    proof {
        lemma_written_table(
            document(*doc).root,
            token_pairs(free),
            texts(previously_managed@),
        );
    }
    match write_theme(root_mut(doc), &free, previously_managed) {
        Ok(_) => Ok(keys_of(&free)),
        Err(e) => Err(e),
    }
}

proof fn lemma_written_table(
    root: Node,
    pairs: Seq<(Seq<char>, Seq<char>)>,
    managed: Seq<Seq<char>>,
)
    requires
        root is Table,
    ensures
        theme_written(root, pairs, managed) is Ok ==> theme_written(
            root,
            pairs,
            managed,
        )->Ok_0 is Table,
{
    if child(root, "theme"@) is None {
        lemma_child_put(root, "theme"@, fresh_table(true));
    }
}

pub(crate) fn keys_of(tokens: &KeyMap<String>) -> (r: Vec<String>)
    ensures
        texts(r@) == token_keys(token_pairs(*tokens)),
{
    let mut out: Vec<String> = Vec::new();
    let mut i: usize = 0;
    while i < tokens.entries.len()
        invariant
            i <= tokens.entries@.len(),
            out@.len() == i,
            forall|j: int| 0 <= j < i ==> (#[trigger] out@[j])@ == tokens.entries@[j].0@,
        decreases tokens.entries@.len() - i,
    {
        out.push(tokens.entries[i].0.clone());
        i += 1;
    }
    assert(texts(out@) =~= token_keys(token_pairs(*tokens)));
    out
}

fn write_theme(
    item: &mut toml_edit::Item,
    tokens: &KeyMap<String>,
    previously_managed: &Vec<String>,
) -> (r: Result<(), EditError>)
    requires
        tokens.wf(),
        node(*old(item)) is Table,
        whole(*old(item)),
    ensures
        match (
            r,
            theme_written(
                node(*old(item)),
                token_pairs(*tokens),
                texts(previously_managed@),
            ),
        ) {
            (Ok(_), Ok(root)) => node(*final(item)) == root,
            (Err(e), Err(f)) => e@ == f && node(*final(item)) == node(*old(item)),
            _ => false,
        },
        whole(*final(item)),
{
    let ghost before = node(*item);
    proof {
        if child(before, "theme"@) is None {
            lemma_child_put(before, "theme"@, fresh_table(true));
        } else {
            lemma_same_child(before, "theme"@);
        }
    }
    ensure_child(item, "theme", true);
    match get_mut(item, "theme") {
        None => Err(EditError::ThemeNotTable),
        Some(theme) => {
            if !is_table_like(theme) {
                return Err(EditError::ThemeNotTable);
            }
            proof {
                if child(node(*theme), "custom"@) is None {
                    lemma_child_put(node(*theme), "custom"@, fresh_table(false));
                } else {
                    lemma_same_child(node(*theme), "custom"@);
                }
            }
            ensure_child(theme, "custom", false);
            match get_mut(theme, "custom") {
                None => Err(EditError::CustomNotTable),
                Some(custom) => {
                    if !is_table_like(custom) {
                        return Err(EditError::CustomNotTable);
                    }
                    drop_stale(custom, previously_managed, tokens);
                    set_tokens(custom, tokens);
                    Ok(())
                },
            }
        },
    }
}

/// Whether an empty table of either form stands there.
pub open spec fn empty_table(o: Option<Node>) -> bool {
    o is Some && table_like(o->0) && entries_of(o->0).len() == 0
}

/// What stands under the key `b` of what stands under the key `a`.
pub open spec fn child2(n: Node, a: Seq<char>, b: Seq<char>) -> Option<Node> {
    match child(n, a) {
        Some(x) => child(x, b),
        None => None,
    }
}

/// The root without the keys `managed` of `theme.custom`.
pub open spec fn theme_cleared(root: Node, managed: Seq<Seq<char>>) -> Node {
    match (child(root, "theme"@), child2(root, "theme"@, "custom"@)) {
        (Some(theme), Some(custom)) => if table_like(custom) {
            with_child(
                root,
                "theme"@,
                with_child(theme, "custom"@, without_stale(custom, managed, seq![])),
            )
        } else {
            root
        },
        _ => root,
    }
}

/// Takes the managed keys out of `theme.custom`.
pub fn clear_theme(doc: &mut toml_edit::DocumentMut, managed: &Vec<String>)
    requires
        editable(*old(doc)),
    ensures
        editable(*final(doc)),
        document(*final(doc)) == (Document {
            root: theme_cleared(document(*old(doc)).root, texts(managed@)),
            ..document(*old(doc))
        }),
{
    let item = root_mut(doc);
    proof {
        if child(node(*item), "theme"@) is Some {
            lemma_same_child(node(*item), "theme"@);
        }
    }
    match get_mut(item, "theme") {
        None => {},
        Some(theme) => {
            proof {
                if child(node(*theme), "custom"@) is Some {
                    lemma_same_child(node(*theme), "custom"@);
                }
            }
            match get_mut(theme, "custom") {
                None => {},
                Some(custom) => {
                    if is_table_like(custom) {
                        let none: KeyMap<String> = KeyMap::new();
                        assert(token_keys(token_pairs(none)) =~= seq![]);
                        drop_stale(custom, managed, &none);
                    }
                },
            }
        },
    }
}

/// The root without a table `b` under `a`, and then without the table `a`, where
/// it is empty and not to be kept.
pub open spec fn tidied(
    root: Node,
    a: Seq<char>,
    b: Seq<char>,
    keep_a: bool,
    keep_b: bool,
) -> Node {
    match child(root, a) {
        Some(outer) => if table_like(outer) {
            let outer1 = if empty_table(child(outer, b)) && !keep_b {
                without(outer, b)
            } else {
                outer
            };
            if entries_of(outer1).len() == 0 && !keep_a {
                without(root, a)
            } else {
                with_child(root, a, outer1)
            }
        } else {
            root
        },
        None => root,
    }
}

fn is_empty_table(item: &toml_edit::Item) -> (r: bool)
    requires
        whole(*item),
    ensures
        r == empty_table(Some(node(*item))),
{
    is_table_like(item) && nth(item, 0).is_none()
}

fn is_empty_child(item: &toml_edit::Item, key: &str) -> (r: bool)
    requires
        whole(*item),
    ensures
        r == empty_table(child(node(*item), key@)),
{
    match get(item, key) {
        Some(x) => is_empty_table(x),
        None => false,
    }
}

pub(crate) fn tidy(item: &mut toml_edit::Item, a: &str, b: &str, keep_a: bool, keep_b: bool)
    requires
        node(*old(item)) is Table,
        whole(*old(item)),
    ensures
        whole(*final(item)),
        node(*final(item)) == tidied(node(*old(item)), a@, b@, keep_a, keep_b),
        node(*final(item)) is Table,
{
    let ghost start = node(*item);
    proof {
        if child(start, a@) is Some {
            lemma_same_child(start, a@);
        }
    }
    let mut emptied = false;
    let ghost mut left = start;
    match get_mut(item, a) {
        None => {},
        Some(outer) => {
            if is_table_like(outer) {
                if is_empty_child(outer, b) && !keep_b {
                    remove(outer, b);
                }
                emptied = is_empty_table(outer) && !keep_a;
                proof {
                    left = node(*outer);
                }
            }
        },
    }
    if emptied {
        proof {
            lemma_without_changed(start, a@, left);
            lemma_with_child(start, a@, left);
        }
        remove(item, a);
    }
}

/// Drops `theme.custom` and `theme` where they are empty and not to be kept.
pub fn tidy_theme(doc: &mut toml_edit::DocumentMut, keep_theme: bool, keep_custom: bool)
    requires
        editable(*old(doc)),
    ensures
        editable(*final(doc)),
        document(*final(doc)) == (Document {
            root: tidied(
                document(*old(doc)).root,
                "theme"@,
                "custom"@,
                keep_theme,
                keep_custom,
            ),
            ..document(*old(doc))
        }),
{
    let item = root_mut(doc);
    tidy(item, "theme", "custom", keep_theme, keep_custom);
}

/// After a child is replaced, the new one stands there.
pub proof fn lemma_with_child(n: Node, key: Seq<char>, m: Node)
    requires
        child(n, key) is Some,
    ensures
        child(with_child(n, key, m), key) == Some(m),
        table_like(n),
        table_like(with_child(n, key, m)),
        n is Table ==> with_child(n, key, m) is Table,
        entries_of(with_child(n, key, m)).len() == entries_of(n).len(),
{
    let e = entries_of(n);
    let i = index_of(e, key);
    lemma_index_of(e, key);
    let f = e.update(i, Entry { node: m, ..e[i] });
    assert forall|j: int| 0 <= j < i implies (#[trigger] f[j]).key != key by {
        assert(f[j] == e[j]);
    }
    lemma_index_is(f, key, i);
}

/// Taking out a child that was replaced is taking out the child.
pub proof fn lemma_without_changed(n: Node, key: Seq<char>, m: Node)
    requires
        child(n, key) is Some,
    ensures
        without(with_child(n, key, m), key) == without(n, key),
{
    let e = entries_of(n);
    let i = index_of(e, key);
    lemma_index_of(e, key);
    let f = e.update(i, Entry { node: m, ..e[i] });
    assert forall|j: int| 0 <= j < i implies (#[trigger] f[j]).key != key by {
        assert(f[j] == e[j]);
    }
    lemma_index_is(f, key, i);
    assert(f.remove(i) =~= e.remove(i));
}

// --- plans -----------------------------------------------------------------------

/// One edit of Herdr's configuration: tokens to set (or, without any, the
/// managed ones to take out) and sidebar rows to write (or take out).
pub struct Plan<'a> {
    pub theme: Option<&'a KeyMap<String>>,
    pub previously_managed: &'a Vec<String>,
    pub sidebar: Option<&'a SidebarSpec>,
    pub managed_sidebar: &'a Vec<String>,
}

/// What a [`Plan`] says, with what is noted of the user's tables.
pub struct PlanView {
    pub theme: Option<Seq<(Seq<char>, Seq<char>)>>,
    pub previously_managed: Seq<Seq<char>>,
    pub sidebar: Option<Seq<(Seq<char>, Seq<char>)>>,
    pub managed_sidebar: Seq<Seq<char>>,
    pub own: Own,
}

impl<'a> Plan<'a> {
    /// The plan for a document without notes.
    pub open spec fn view(&self) -> PlanView {
        self.given(Own::none())
    }

    /// The plan with what is noted of the user's tables.
    pub open spec fn given(&self, own: Own) -> PlanView {
        PlanView {
            theme: match self.theme {
                Some(t) => Some(token_pairs(*t)),
                None => None,
            },
            previously_managed: texts(self.previously_managed@),
            sidebar: match self.sidebar {
                Some(s) => Some(s.pairs()),
                None => None,
            },
            managed_sidebar: texts(self.managed_sidebar@),
            own,
        }
    }

    /// The tokens are in order.
    pub open spec fn wf(&self) -> bool {
        self.theme is Some ==> self.theme->0.wf()
    }
}

/// The table of a sidebar kind.
pub open spec fn kind_table(root: Node, kind: Seq<char>) -> Option<Node> {
    match child2(root, "ui"@, "sidebar"@) {
        Some(sidebar) => child(sidebar, kind),
        None => None,
    }
}

/// Whether a table that is there before an edit is the user's though nothing of the
/// user's stands in it: it is noted, or it is empty.
pub open spec fn owned(o: Option<Node>, noted: bool) -> bool {
    o is Some && (noted || empty_table(o))
}

/// Which of the tables that are there before an edit are the user's though nothing
/// of the user's stands in them.
pub open spec fn own_after(root: Node, plan: PlanView) -> Own {
    Own {
        theme: owned(child(root, "theme"@), plan.own.theme),
        custom: owned(child2(root, "theme"@, "custom"@), plan.own.custom),
        ui: owned(child(root, "ui"@), plan.own.ui),
        sidebar: owned(child2(root, "ui"@, "sidebar"@), plan.own.sidebar),
        agents: owned(kind_table(root, "agents"@), plan.own.agents),
        spaces: owned(kind_table(root, "spaces"@), plan.own.spaces),
    }
}

fn is_owned(item: Option<&toml_edit::Item>, noted: bool) -> (r: bool)
    requires
        item is Some ==> whole(*item->0),
    ensures
        r == owned(
            match item {
                Some(x) => Some(node(*x)),
                None => None,
            },
            noted,
        ),
{
    match item {
        Some(x) => noted || is_empty_table(x),
        None => false,
    }
}

fn get_kind<'a>(item: &'a toml_edit::Item, kind: &str) -> (r: Option<&'a toml_edit::Item>)
    ensures
        match r {
            Some(x) => kind_table(node(*item), kind@) == Some(node(*x)) && (whole(*item) ==> whole(
                *x,
            )),
            None => kind_table(node(*item), kind@) is None,
        },
{
    match get2(item, "ui", "sidebar") {
        Some(x) => get(x, kind),
        None => None,
    }
}

fn own_tables(item: &toml_edit::Item, own: Own) -> (r: Own)
    requires
        whole(*item),
    ensures
        forall|plan: PlanView| plan.own == own ==> r == #[trigger] own_after(node(*item), plan),
{
    Own {
        theme: is_owned(get(item, "theme"), own.theme),
        custom: is_owned(get2(item, "theme", "custom"), own.custom),
        ui: is_owned(get(item, "ui"), own.ui),
        sidebar: is_owned(get2(item, "ui", "sidebar"), own.sidebar),
        agents: is_owned(get_kind(item, "agents"), own.agents),
        spaces: is_owned(get_kind(item, "spaces"), own.spaces),
    }
}

/// The root after the theme part of a plan.
pub open spec fn theme_step(root: Node, plan: PlanView) -> Result<Node, Fault> {
    match plan.theme {
        Some(pairs) => theme_applied(root, pairs, plan.previously_managed),
        None => Ok(theme_cleared(root, plan.previously_managed)),
    }
}

/// The keys that are managed after the theme part of a plan.
pub open spec fn keys_after(root: Node, plan: PlanView) -> Seq<Seq<char>> {
    match plan.theme {
        Some(pairs) => token_keys(free_pairs(root, pairs, plan.previously_managed)),
        None => seq![],
    }
}

/// The root after the sidebar part of a plan, and the kinds that are then
/// managed.
pub open spec fn sidebar_step(root: Node, plan: PlanView, own: Own) -> Result<
    (Node, Seq<Seq<char>>),
    Fault,
> {
    match plan.sidebar {
        Some(pairs) => sidebar_applied(root, pairs, plan.managed_sidebar),
        None => Ok((sidebar_cleared(root, plan.managed_sidebar, own), seq![])),
    }
}

/// What a plan comes to: the root, the keys and the sidebar kinds that are then
/// managed, and which of the tables that they stand in are the user's.
pub struct Outcome {
    pub root: Node,
    pub keys: Seq<Seq<char>>,
    pub kinds: Seq<Seq<char>>,
    pub own: Own,
}

/// What the whole plan comes to on a root in which the user's own values are in
/// their places.
pub open spec fn planned(root: Node, plan: PlanView) -> Result<Outcome, Fault> {
    let own = own_after(root, plan);
    match theme_step(root, plan) {
        Err(f) => Err(f),
        Ok(root1) => match sidebar_step(root1, plan, own) {
            Err(f) => Err(f),
            Ok((root2, kinds)) => Ok(
                Outcome {
                    root: tidied(root2, "theme"@, "custom"@, own.theme, own.custom),
                    keys: keys_after(root, plan),
                    kinds,
                    own: own.within(keys_after(root, plan).len() > 0, kinds.len() > 0),
                },
            ),
        },
    }
}

/// What is managed after a plan was carried out, and which of the tables that it
/// stands in are the user's.
struct Managed {
    keys: Vec<String>,
    kinds: Vec<String>,
    own: Own,
}

/// Carries out a plan on a document in which the user's own values are in their
/// places.
fn edit_document(doc: &mut toml_edit::DocumentMut, plan: &Plan, own: Own) -> (r: Result<
    Managed,
    EditError,
>)
    requires
        plan.wf(),
        editable(*old(doc)),
    ensures
        match (r, planned(document(*old(doc)).root, plan.given(own))) {
            (Ok(m), Ok(o)) => {
                &&& texts(m.keys@) == o.keys
                &&& texts(m.kinds@) == o.kinds
                &&& m.own == o.own
                &&& document(*final(doc)) == (Document { root: o.root, ..document(*old(doc)) })
            },
            (Err(e), Err(f)) => e@ == f,
            _ => false,
        },
        editable(*final(doc)),
{
    let own1 = own_tables(root(doc), own);
    assert(own1 == own_after(document(*doc).root, plan.given(own)));
    let keys = match plan.theme {
        Some(tokens) => match apply_theme(doc, tokens, plan.previously_managed) {
            Ok(keys) => keys,
            Err(e) => return Err(e),
        },
        None => {
            clear_theme(doc, plan.previously_managed);
            let none: Vec<String> = Vec::new();
            assert(texts(none@) =~= seq![]);
            none
        },
    };
    let kinds = match plan.sidebar {
        Some(spec) => match apply_sidebar(doc, spec, plan.managed_sidebar) {
            Ok(kinds) => kinds,
            Err(e) => return Err(e),
        },
        None => {
            clear_sidebar(doc, plan.managed_sidebar, own1);
            let none: Vec<String> = Vec::new();
            assert(texts(none@) =~= seq![]);
            none
        },
    };
    tidy_theme(doc, own1.theme, own1.custom);
    let own2 = own1.only(keys.len() > 0, kinds.len() > 0);
    Ok(Managed { keys, kinds, own: own2 })
}

/// A plan for a document once the user's own values are back in their places: their
/// keys are not managed any more, and it is known which tables the user left empty.
pub open spec fn plan_on(memo: MemoView, plan: PlanView) -> PlanView {
    PlanView {
        previously_managed: keys_without(
            plan.previously_managed,
            entry_keys(kept_entries(memo.kept)),
        ),
        own: memo.own,
        ..plan
    }
}

/// What an edit of a document comes to: the document, what is kept for the user, and
/// the keys and the sidebar kinds that are then managed.
pub struct Edited {
    pub doc: Document,
    pub memo: MemoView,
    pub keys: Seq<Seq<char>>,
    pub kinds: Seq<Seq<char>>,
}

/// What a plan comes to on a document with what is kept for the user. Where it sets
/// tokens that the user has set too, their colours take the place of the user's,
/// which are kept; and so is which of the tables that something is managed in the
/// user left empty.
pub open spec fn edited(doc: Document, memo: MemoView, plan: PlanView) -> Result<Edited, Fault> {
    match planned(uncovered(doc.root, memo.kept), plan_on(memo, plan)) {
        Err(f) => Err(f),
        Ok(o) => Ok(
            match plan.theme {
                Some(pairs) => Edited {
                    doc: Document { root: covered_root(o.root, pairs, o.keys), ..doc },
                    memo: MemoView { own: o.own, kept: kept_of(o.root, pairs, o.keys) },
                    keys: token_keys(pairs),
                    kinds: o.kinds,
                },
                None => Edited {
                    doc: Document { root: o.root, ..doc },
                    memo: MemoView { own: o.own, kept: seq![] },
                    keys: seq![],
                    kinds: o.kinds,
                },
            },
        ),
    }
}

/// Carries out a plan on a document with what is kept for the user. Returns what is
/// then kept, and the sidebar kinds that are then managed.
pub fn plan_document(doc: &mut toml_edit::DocumentMut, memo: &Memo, plan: &Plan) -> (r: Result<
    (Memo, Vec<String>),
    EditError,
>)
    requires
        plan.wf(),
        editable(*old(doc)),
    ensures
        match (r, edited(document(*old(doc)), memo@, plan@)) {
            (Ok((m, kinds)), Ok(e)) => m@ == e.memo && texts(kinds@) == e.kinds && document(
                *final(doc),
            ) == e.doc,
            (Err(e), Err(f)) => e@ == f,
            _ => false,
        },
        editable(*final(doc)),
{
    let kept = uncover(doc, memo.kept.as_str());
    let managed = list_without(plan.previously_managed, &kept);
    let inner = Plan {
        theme: plan.theme,
        previously_managed: &managed,
        sidebar: plan.sidebar,
        managed_sidebar: plan.managed_sidebar,
    };
    assert(inner.given(memo.own) == plan_on(memo@, plan@));
    match edit_document(doc, &inner, memo.own) {
        Err(e) => Err(e),
        Ok(m) => {
            let text = match plan.theme {
                Some(tokens) => cover(doc, tokens, &m.keys),
                None => {
                    let none = String::new();
                    assert(none@ =~= seq![]);
                    none
                },
            };
            Ok((Memo { own: m.own, kept: text }, m.kinds))
        },
    }
}

/// Whether something is managed.
pub open spec fn any_managed(keys: Seq<Seq<char>>, kinds: Seq<Seq<char>>) -> bool {
    keys.len() > 0 || kinds.len() > 0
}

/// The text that an edited document is written as.
pub open spec fn edited_text(e: Edited) -> Seq<char> {
    written(toml_text(e.doc), e.memo, any_managed(e.keys, e.kinds))
}

/// What a plan comes to on the text of a configuration: the new text, and the sidebar
/// kinds that are then managed. Where nothing is managed before, all of the text is
/// the user's; else what is kept for the user is read off it first.
pub open spec fn text_edited(text: Seq<char>, plan: PlanView) -> Result<
    (Seq<char>, Seq<Seq<char>>),
    Fault,
> {
    let (own_text, memo) = read_text(
        text,
        any_managed(plan.previously_managed, plan.managed_sidebar),
    );
    match (toml_parse(text), toml_parse(own_text)) {
        (Err(message), _) => Err(Fault::Parse(message)),
        (_, Err(message)) => Err(Fault::Parse(message)),
        (Ok(_), Ok(doc)) => match edited(doc, memo, plan) {
            Err(f) => Err(f),
            Ok(e) => Ok((edited_text(e), e.kinds)),
        },
    }
}

fn finish(
    doc: toml_edit::DocumentMut,
    memo: &Memo,
    plan: &Plan,
) -> (r: Result<(String, Vec<String>), EditError>)
    requires
        plan.wf(),
        editable(doc),
    ensures
        match (r, edited(document(doc), memo@, plan@)) {
            (Ok((text, kinds)), Ok(e)) => text@ == edited_text(e) && texts(kinds@) == e.kinds,
            (Err(e), Err(f)) => e@ == f,
            _ => false,
        },
{
    let mut work = doc;
    match plan_document(&mut work, memo, plan) {
        Err(e) => Err(e),
        Ok((kept, kinds)) => {
            let some_keys = match plan.theme {
                Some(tokens) => tokens.entries.len() > 0,
                None => false,
            };
            let text = join_text(
                document_text(&work).as_str(),
                &kept,
                some_keys || kinds.len() > 0,
            );
            Ok((text, kinds))
        },
    }
}

/// Carries out a plan on the text of a configuration. Returns the new text and
/// the sidebar kinds that are then managed.
pub fn plan_full(original: &str, plan: &Plan) -> (r: Result<(String, Vec<String>), EditError>)
    requires
        plan.wf(),
    ensures
        match (r, text_edited(original@, plan@)) {
            (Ok((text, kinds)), Ok((want, managed))) => text@ == want && texts(kinds@) == managed,
            (Err(e), Err(f)) => e@ == f,
            _ => false,
        },
{
    let managed = plan.previously_managed.len() > 0 || plan.managed_sidebar.len() > 0;
    match parse_document(original) {
        Err(e) => Err(EditError::Parse(e)),
        Ok(doc) => match split_text(original, managed) {
            None => finish(doc, &Memo::nothing(), plan),
            Some((own_text, memo)) => match parse_document(own_text.as_str()) {
                Err(e) => Err(EditError::Parse(e)),
                Ok(own_doc) => finish(own_doc, &memo, plan),
            },
        },
    }
}

/// What a plan says that sets tokens and has nothing to do with the sidebar.
pub open spec fn applying(
    pairs: Seq<(Seq<char>, Seq<char>)>,
    managed: Seq<Seq<char>>,
) -> PlanView {
    PlanView {
        theme: Some(pairs),
        previously_managed: managed,
        sidebar: None,
        managed_sidebar: seq![],
        own: Own::none(),
    }
}

/// Sets theme tokens in the text of a configuration.
pub fn plan_apply(
    original: &str,
    tokens: &KeyMap<String>,
    previously_managed: &Vec<String>,
) -> (r: Result<String, EditError>)
    requires
        tokens.wf(),
    ensures
        match (
            r,
            text_edited(original@, applying(token_pairs(*tokens), texts(previously_managed@))),
        ) {
            (Ok(text), Ok((want, _))) => text@ == want,
            (Err(e), Err(f)) => e@ == f,
            _ => false,
        },
{
    let none: Vec<String> = Vec::new();
    assert(texts(none@) =~= seq![]);
    let plan = Plan {
        theme: Some(tokens),
        previously_managed,
        sidebar: None,
        managed_sidebar: &none,
    };
    match plan_full(original, &plan) {
        Ok((text, _)) => Ok(text),
        Err(e) => Err(e),
    }
}

/// What a plan says that takes everything managed out.
pub open spec fn clearing(
    managed: Seq<Seq<char>>,
    managed_sidebar: Seq<Seq<char>>,
    own: Own,
) -> PlanView {
    PlanView { theme: None, previously_managed: managed, sidebar: None, managed_sidebar, own }
}

/// The document without everything managed: the user's own values are back in their
/// places, and of the tables that this leaves empty only the user's are there.
pub open spec fn cleared(
    doc: Document,
    memo: MemoView,
    managed: Seq<Seq<char>>,
    managed_sidebar: Seq<Seq<char>>,
) -> Document {
    edited(doc, memo, clearing(managed, managed_sidebar, Own::none()))->Ok_0.doc
}

/// Takes everything managed out of the text of a configuration. What is left is the
/// user's text.
pub fn plan_clear(
    original: &str,
    managed: &Vec<String>,
    managed_sidebar: &Vec<String>,
) -> (r: Result<String, EditError>)
    ensures
        ({
            let (own_text, memo) = read_text(
                original@,
                any_managed(texts(managed@), texts(managed_sidebar@)),
            );
            match (toml_parse(original@), toml_parse(own_text)) {
                (Err(message), _) => r is Err && r->Err_0@ == Fault::Parse(message),
                (_, Err(message)) => r is Err && r->Err_0@ == Fault::Parse(message),
                (Ok(_), Ok(doc)) => r is Ok && r->Ok_0@ == toml_text(
                    cleared(doc, memo, texts(managed@), texts(managed_sidebar@)),
                ),
            }
        }),
{
    let plan = Plan { theme: None, previously_managed: managed, sidebar: None, managed_sidebar };
    match plan_full(original, &plan) {
        Ok((text, _)) => Ok(text),
        Err(e) => Err(e),
    }
}

} // verus!
