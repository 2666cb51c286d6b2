//! Values of the user's that give way to a palette.
//!
//! Where the user has set a token that a palette sets too, the palette's colour
//! takes the place of the value, and the value is kept, as a TOML text, until it
//! comes back.
use crate::keymap::KeyMap;
use crate::memo::{close, closed};
use crate::plan::{child2, get2, lemma_same_child, lemma_with_child, token_keys, token_pairs};
use crate::plan_laws::{lemma_index_update, lemma_sets_other};
use crate::text::{lemma_texts_push, list_has, texts};
use crate::toml::{
    blank_document, child, copy_item, document, document_text, editable, entries_of, get, get_mut,
    holds_key, index_of, insert, lemma_index_of, new_document, node, nth, parse_document, put, root,
    root_mut, string_item, string_node, toml_parse, toml_text, whole, with_child, Document, Entry,
    Node,
};
use vstd::prelude::*;

verus! {

// --- putting values aside --------------------------------------------------------

/// The entries of `theme.custom`.
pub open spec fn custom_entries(root: Node) -> Seq<Entry> {
    match child2(root, "theme"@, "custom"@) {
        Some(c) => entries_of(c),
        None => seq![],
    }
}

/// The tokens of a palette that are the user's: not managed, and there.
pub open spec fn held_of(
    e: Seq<Entry>,
    pairs: Seq<(Seq<char>, Seq<char>)>,
    managed: Seq<Seq<char>>,
) -> Seq<(Seq<char>, Seq<char>)>
    decreases pairs.len(),
{
    if pairs.len() == 0 {
        pairs
    } else {
        let rest = held_of(e, pairs.drop_last(), managed);
        if !managed.contains(pairs.last().0) && holds_key(e, pairs.last().0) {
            rest.push(pairs.last())
        } else {
            rest
        }
    }
}

/// A table with colours in the place of what stands under their keys.
pub open spec fn covered(c: Node, held: Seq<(Seq<char>, Seq<char>)>) -> Node
    decreases held.len(),
{
    if held.len() == 0 {
        c
    } else {
        with_child(covered(c, held.skip(1)), held[0].0, string_node(held[0].1))
    }
}

/// A table of what stands under the keys.
pub open spec fn kept_root(c: Node, held: Seq<(Seq<char>, Seq<char>)>) -> Node
    decreases held.len(),
{
    if held.len() == 0 {
        blank_document().root
    } else {
        put(kept_root(c, held.drop_last()), held.last().0, child(c, held.last().0)->0)
    }
}

/// The text that keeps what stands under the keys.
pub open spec fn kept_text(c: Node, held: Seq<(Seq<char>, Seq<char>)>) -> Seq<char> {
    closed(toml_text(Document { root: kept_root(c, held), ..blank_document() }))
}

/// The root with the colours of a palette in the place of the user's own values.
pub open spec fn covered_root(
    root: Node,
    pairs: Seq<(Seq<char>, Seq<char>)>,
    managed: Seq<Seq<char>>,
) -> Node {
    let held = held_of(custom_entries(root), pairs, managed);
    let theme = child(root, "theme"@)->0;
    let custom = child(theme, "custom"@)->0;
    if held.len() == 0 {
        root
    } else {
        with_child(root, "theme"@, with_child(theme, "custom"@, covered(custom, held)))
    }
}

/// The text that keeps the user's own values that a palette takes the place of.
pub open spec fn kept_of(
    root: Node,
    pairs: Seq<(Seq<char>, Seq<char>)>,
    managed: Seq<Seq<char>>,
) -> Seq<char> {
    let held = held_of(custom_entries(root), pairs, managed);
    if held.len() == 0 {
        seq![]
    } else {
        kept_text(child2(root, "theme"@, "custom"@)->0, held)
    }
}

/// What a text keeps.
pub open spec fn kept_entries(kept: Seq<char>) -> Seq<Entry> {
    if kept.len() == 0 {
        seq![]
    } else {
        match toml_parse(kept) {
            Ok(d) => entries_of(d.root),
            Err(_) => seq![],
        }
    }
}

/// The keys of entries.
pub open spec fn entry_keys(e: Seq<Entry>) -> Seq<Seq<char>> {
    e.map_values(|x: Entry| x.key)
}

/// A table with what was kept in the place of what stands under their keys.
pub open spec fn put_back(c: Node, e: Seq<Entry>) -> Node
    decreases e.len(),
{
    if e.len() == 0 {
        c
    } else {
        let rest = put_back(c, e.drop_last());
        if holds_key(entries_of(rest), e.last().key) {
            with_child(rest, e.last().key, e.last().node)
        } else {
            rest
        }
    }
}

/// The root with the user's own values that a text keeps back in their places.
pub open spec fn uncovered(root: Node, kept: Seq<char>) -> Node {
    match (child(root, "theme"@), child2(root, "theme"@, "custom"@)) {
        (Some(theme), Some(custom)) => with_child(
            root,
            "theme"@,
            with_child(theme, "custom"@, put_back(custom, kept_entries(kept))),
        ),
        _ => root,
    }
}

/// Where nothing is kept, nothing comes back.
pub proof fn lemma_nothing_back(root: Node)
    ensures
        uncovered(root, seq![]) == root,
{
    match (child(root, "theme"@), child2(root, "theme"@, "custom"@)) {
        (Some(theme), Some(custom)) => {
            lemma_same_child(theme, "custom"@);
            lemma_same_child(root, "theme"@);
        },
        _ => {},
    }
}

/// The keys of a list that are not among others, in their order.
pub open spec fn keys_without(keys: Seq<Seq<char>>, others: Seq<Seq<char>>) -> Seq<Seq<char>>
    decreases keys.len(),
{
    if keys.len() == 0 {
        keys
    } else {
        let rest = keys_without(keys.drop_last(), others);
        if others.contains(keys.last()) {
            rest
        } else {
            rest.push(keys.last())
        }
    }
}

pub(crate) fn list_without(keys: &Vec<String>, others: &Vec<String>) -> (r: Vec<String>)
    ensures
        texts(r@) == keys_without(texts(keys@), texts(others@)),
{
    broadcast use lemma_texts_push;

    let ghost all = texts(keys@);
    let mut out: Vec<String> = Vec::new();
    let mut i: usize = 0;
    assert(texts(out@) =~= keys_without(all.take(0), texts(others@)));
    while i < keys.len()
        invariant
            all == texts(keys@),
            i <= keys@.len(),
            texts(out@) == keys_without(all.take(i as int), texts(others@)),
        decreases keys@.len() - i,
    {
        proof {
            assert(all.take(i + 1).drop_last() =~= all.take(i as int));
            assert(all.take(i + 1).last() == keys@[i as int]@);
        }
        if !list_has(others, keys[i].as_str()) {
            out.push(keys[i].clone());
        }
        i += 1;
    }
    assert(all.take(i as int) =~= all);
    out
}

/// Replacing what stands under a key changes nothing under another.
pub proof fn lemma_with_child_other(n: Node, key: Seq<char>, m: Node, other: Seq<char>)
    requires
        child(n, key) is Some,
    ensures
        holds_key(entries_of(with_child(n, key, m)), other) == holds_key(entries_of(n), other),
        key != other ==> child(with_child(n, key, m), other) == child(n, other),
{
    let e = entries_of(n);
    let i = index_of(e, key);
    lemma_index_of(e, key);
    lemma_with_child(n, key, m);
    lemma_index_update(e, i, Entry { node: m, ..e[i] }, other);
    if key != other {
        lemma_sets_other(n, key, Some(m), other);
    }
}

/// What a list of keys and items holds, as entries.
spec fn same_entries(v: Seq<(String, toml_edit::Item)>, e: Seq<Entry>) -> bool {
    &&& v.len() == e.len()
    &&& forall|i: int| 0 <= i < e.len() ==> (#[trigger] v[i]).0@ == e[i].key
    &&& forall|i: int| 0 <= i < e.len() ==> node((#[trigger] v[i]).1) == e[i].node
    &&& forall|i: int| 0 <= i < e.len() ==> whole((#[trigger] v[i]).1)
}

fn read_entries(kept: &toml_edit::Item) -> (r: Vec<(String, toml_edit::Item)>)
    requires
        whole(*kept),
    ensures
        same_entries(r@, entries_of(node(*kept))),
{
    let ghost e = entries_of(node(*kept));
    let mut out: Vec<(String, toml_edit::Item)> = Vec::new();
    let mut i: usize = 0;
    loop
        invariant
            whole(*kept),
            e == entries_of(node(*kept)),
            i <= e.len(),
            i == out@.len(),
            same_entries(out@, e.take(i as int)),
        ensures
            i == e.len(),
        decreases e.len() - i,
    {
        match nth(kept, i) {
            None => break,
            Some((key, x)) => {
                out.push((key.to_owned(), copy_item(x)));
                i = out.len();
            },
        }
    }
    assert(e.take(i as int) =~= e);
    out
}

fn put_entries_back(
    item: &mut toml_edit::Item,
    kept: Vec<(String, toml_edit::Item)>,
    Ghost(e): Ghost<Seq<Entry>>,
)
    requires
        whole(*old(item)),
        same_entries(kept@, e),
    ensures
        whole(*final(item)),
        node(*final(item)) == put_back(node(*old(item)), e),
{
    let ghost start = node(*item);
    let mut i: usize = 0;
    assert(e.take(0) =~= seq![]);
    while i < kept.len()
        invariant
            whole(*item),
            same_entries(kept@, e),
            i <= kept@.len(),
            node(*item) == put_back(start, e.take(i as int)),
        decreases kept@.len() - i,
    {
        let key = kept[i].0.as_str();
        proof {
            assert(e.take(i + 1).drop_last() =~= e.take(i as int));
            assert(e.take(i + 1).last() == e[i as int]);
            lemma_index_of(entries_of(node(*item)), key@);
        }
        let value = copy_item(&kept[i].1);
        match get_mut(item, key) {
            Some(place) => {
                *place = value;
            },
            None => {},
        }
        i += 1;
    }
    assert(e.take(i as int) =~= e);
}

fn keys_in(v: &Vec<(String, toml_edit::Item)>, Ghost(e): Ghost<Seq<Entry>>) -> (r: Vec<String>)
    requires
        same_entries(v@, e),
    ensures
        texts(r@) == entry_keys(e),
{
    let mut out: Vec<String> = Vec::new();
    let mut i: usize = 0;
    while i < v.len()
        invariant
            same_entries(v@, e),
            i <= v@.len(),
            out@.len() == i,
            forall|j: int| 0 <= j < i ==> (#[trigger] out@[j])@ == e[j].key,
        decreases v@.len() - i,
    {
        out.push(v[i].0.clone());
        i += 1;
    }
    assert(texts(out@) =~= entry_keys(e));
    out
}

/// Puts the user's own values that a text keeps back in their places. Returns their
/// keys.
pub fn uncover(doc: &mut toml_edit::DocumentMut, text: &str) -> (r: Vec<String>)
    requires
        editable(*old(doc)),
    ensures
        editable(*final(doc)),
        document(*final(doc)) == (Document {
            root: uncovered(document(*old(doc)).root, text@),
            ..document(*old(doc))
        }),
        texts(r@) == entry_keys(kept_entries(text@)),
{
    let ghost before = document(*doc);
    let ghost e = kept_entries(text@);
    let kept: Vec<(String, toml_edit::Item)> = if text.unicode_len() == 0 {
        Vec::new()
    } else {
        match parse_document(text) {
            Ok(d) => read_entries(root(&d)),
            Err(_) => Vec::new(),
        }
    };
    let keys = keys_in(&kept, Ghost(e));
    let item = root_mut(doc);
    match get_mut(item, "theme") {
        None => {},
        Some(theme) => {
            let ghost t = node(*theme);
            proof {
                if child(t, "custom"@) is None {
                    lemma_same_child(before.root, "theme"@);
                }
            }
            match get_mut(theme, "custom") {
                None => {},
                Some(custom) => put_entries_back(custom, kept, Ghost(e)),
            }
        },
    }
    keys
}

// --- covering --------------------------------------------------------------------

pub proof fn lemma_held(
    e: Seq<Entry>,
    pairs: Seq<(Seq<char>, Seq<char>)>,
    managed: Seq<Seq<char>>,
)
    ensures
        forall|i: int|
            0 <= i < held_of(e, pairs, managed).len() ==> {
                let p = #[trigger] held_of(e, pairs, managed)[i];
                pairs.contains(p) && holds_key(e, p.0) && !managed.contains(p.0)
            },
        forall|i: int|
            0 <= i < pairs.len() && !managed.contains((#[trigger] pairs[i]).0) && holds_key(
                e,
                pairs[i].0,
            ) ==> held_of(e, pairs, managed).contains(pairs[i]),
    decreases pairs.len(),
{
    if pairs.len() > 0 {
        let p = pairs.drop_last();
        lemma_held(e, p, managed);
        let rest = held_of(e, p, managed);
        let all = held_of(e, pairs, managed);
        assert(pairs[pairs.len() - 1] == pairs.last());
        assert forall|i: int| 0 <= i < all.len() implies {
            let q = #[trigger] all[i];
            pairs.contains(q) && holds_key(e, q.0) && !managed.contains(q.0)
        } by {
            if i < rest.len() {
                assert(all[i] == rest[i]);
                let j = choose|j: int| 0 <= j < p.len() && p[j] == rest[i];
                assert(pairs[j] == rest[i]);
            }
        }
        assert forall|i: int|
            0 <= i < pairs.len() && !managed.contains((#[trigger] pairs[i]).0) && holds_key(
                e,
                pairs[i].0,
            ) implies all.contains(pairs[i]) by {
            if i < p.len() {
                assert(p[i] == pairs[i]);
                let j = choose|j: int| 0 <= j < rest.len() && rest[j] == pairs[i];
                assert(all[j] == pairs[i]);
            } else {
                assert(all[all.len() - 1] == pairs[i]);
            }
        }
    }
}

pub proof fn lemma_held_once(
    e: Seq<Entry>,
    pairs: Seq<(Seq<char>, Seq<char>)>,
    managed: Seq<Seq<char>>,
)
    requires
        token_keys(pairs).no_duplicates(),
    ensures
        token_keys(held_of(e, pairs, managed)).no_duplicates(),
    decreases pairs.len(),
{
    if pairs.len() > 0 {
        let p = pairs.drop_last();
        let keys = token_keys(pairs);
        assert(token_keys(p) =~= keys.drop_last());
        lemma_held_once(e, p, managed);
        lemma_held(e, p, managed);
        let rest = held_of(e, p, managed);
        let all = held_of(e, pairs, managed);
        assert forall|i: int, j: int|
            0 <= i < j < all.len() implies token_keys(all)[i] != token_keys(all)[j] by {
            assert(token_keys(rest)[i] == rest[i].0);
            if j == rest.len() {
                let a = choose|a: int| 0 <= a < p.len() && p[a] == rest[i];
                assert(keys[a] == rest[i].0);
                assert(keys[keys.len() - 1] == pairs.last().0);
            } else {
                assert(token_keys(rest)[i] != token_keys(rest)[j]);
            }
        }
    }
}

/// Every key of the list stands in the table.
pub open spec fn all_stand(c: Node, held: Seq<(Seq<char>, Seq<char>)>) -> bool {
    forall|i: int| 0 <= i < held.len() ==> holds_key(entries_of(c), (#[trigger] held[i]).0)
}

/// Covering values leaves the keys, and what stands under the others.
pub proof fn lemma_covered(c: Node, held: Seq<(Seq<char>, Seq<char>)>)
    requires
        all_stand(c, held),
    ensures
        forall|k: Seq<char>|
            #![trigger holds_key(entries_of(covered(c, held)), k)]
            holds_key(entries_of(covered(c, held)), k) == holds_key(entries_of(c), k),
        forall|k: Seq<char>|
            #![trigger child(covered(c, held), k)]
            !token_keys(held).contains(k) ==> child(covered(c, held), k) == child(c, k),
    decreases held.len(),
{
    if held.len() > 0 {
        let rest = held.skip(1);
        assert forall|i: int| 0 <= i < rest.len() implies holds_key(
            entries_of(c),
            (#[trigger] rest[i]).0,
        ) by {
            assert(rest[i] == held[i + 1]);
        }
        lemma_covered(c, rest);
        let x = covered(c, rest);
        let (key, colour) = held[0];
        assert(holds_key(entries_of(x), key));
        assert forall|k: Seq<char>|
            #![trigger holds_key(entries_of(covered(c, held)), k)]
            holds_key(entries_of(covered(c, held)), k) == holds_key(entries_of(c), k) by {
            lemma_with_child_other(x, key, string_node(colour), k);
            assert(holds_key(entries_of(x), k) == holds_key(entries_of(c), k));
        }
        assert forall|k: Seq<char>|
            #![trigger child(covered(c, held), k)]
            !token_keys(held).contains(k) implies child(covered(c, held), k) == child(c, k) by {
            assert(token_keys(held)[0] == key);
            assert(!token_keys(rest).contains(k)) by {
                if token_keys(rest).contains(k) {
                    let i = choose|i: int| 0 <= i < rest.len() && token_keys(rest)[i] == k;
                    assert(token_keys(held)[i + 1] == k);
                }
            }
            lemma_with_child_other(x, key, string_node(colour), k);
            assert(child(x, k) == child(c, k));
        }
    }
}

fn held_tokens(item: &toml_edit::Item, tokens: &KeyMap<String>, managed: &Vec<String>) -> (r: Vec<
    (String, String),
>)
    ensures
        r@.map_values(|e: (String, String)| (e.0@, e.1@)) == held_of(
            custom_entries(node(*item)),
            token_pairs(*tokens),
            texts(managed@),
        ),
{
    let custom = get2(item, "theme", "custom");
    let ghost e = custom_entries(node(*item));
    let ghost pairs = token_pairs(*tokens);
    let ghost keys = texts(managed@);
    let mut out: Vec<(String, String)> = Vec::new();
    let mut i: usize = 0;
    assert(pairs.take(0) =~= seq![]);
    assert(out@.map_values(|e: (String, String)| (e.0@, e.1@)) =~= seq![]);
    while i < tokens.entries.len()
        invariant
            i <= tokens.entries@.len(),
            pairs == token_pairs(*tokens),
            keys == texts(managed@),
            match custom {
                Some(c) => e == entries_of(node(*c)),
                None => e == Seq::<Entry>::empty(),
            },
            out@.map_values(|e: (String, String)| (e.0@, e.1@)) == held_of(
                e,
                pairs.take(i as int),
                keys,
            ),
        decreases tokens.entries@.len() - i,
    {
        let key = tokens.entries[i].0.as_str();
        let there = match custom {
            Some(c) => get(c, key).is_some(),
            None => false,
        };
        proof {
            assert(pairs.take(i + 1).drop_last() =~= pairs.take(i as int));
            assert(pairs.take(i + 1).last() == pairs[i as int]);
            lemma_index_of(e, key@);
        }
        if !list_has(managed, key) && there {
            let ghost before = out@;
            let pair = (tokens.entries[i].0.clone(), tokens.entries[i].1.clone());
            out.push(pair);
            assert(out@.map_values(|e: (String, String)| (e.0@, e.1@)) =~= before.map_values(
                |e: (String, String)| (e.0@, e.1@),
            ).push(pairs[i as int]));
        }
        i += 1;
    }
    assert(pairs.take(i as int) =~= pairs);
    out
}

fn keep_values(custom: &toml_edit::Item, held: &Vec<(String, String)>) -> (r: String)
    requires
        whole(*custom),
        all_stand(node(*custom), held@.map_values(|e: (String, String)| (e.0@, e.1@))),
    ensures
        r@ == kept_text(
            node(*custom),
            held@.map_values(|e: (String, String)| (e.0@, e.1@)),
        ),
{
    let ghost pairs = held@.map_values(|e: (String, String)| (e.0@, e.1@));
    let mut kept = new_document();
    let mut i: usize = 0;
    assert(pairs.take(0) =~= seq![]);
    while i < held.len()
        invariant
            i <= held@.len(),
            whole(*custom),
            pairs == held@.map_values(|e: (String, String)| (e.0@, e.1@)),
            all_stand(node(*custom), pairs),
            editable(kept),
            document(kept) == (Document {
                root: kept_root(node(*custom), pairs.take(i as int)),
                ..blank_document()
            }),
        decreases held@.len() - i,
    {
        let key = held[i].0.as_str();
        proof {
            assert(pairs.take(i + 1).drop_last() =~= pairs.take(i as int));
            assert(pairs.take(i + 1).last() == pairs[i as int]);
            assert(holds_key(entries_of(node(*custom)), pairs[i as int].0));
        }
        match get(custom, key) {
            Some(x) => {
                let value = copy_item(x);
                insert(root_mut(&mut kept), key, value);
            },
            None => {},
        }
        i += 1;
    }
    assert(pairs.take(i as int) =~= pairs);
    close(document_text(&kept))
}

fn cover_values(custom: &mut toml_edit::Item, held: &Vec<(String, String)>)
    requires
        whole(*old(custom)),
        all_stand(node(*old(custom)), held@.map_values(|e: (String, String)| (e.0@, e.1@))),
    ensures
        whole(*final(custom)),
        node(*final(custom)) == covered(
            node(*old(custom)),
            held@.map_values(|e: (String, String)| (e.0@, e.1@)),
        ),
{
    let ghost pairs = held@.map_values(|e: (String, String)| (e.0@, e.1@));
    let ghost start = node(*custom);
    let mut i: usize = held.len();
    assert(pairs.skip(i as int) =~= seq![]);
    while i > 0
        invariant
            i <= held@.len(),
            whole(*custom),
            pairs == held@.map_values(|e: (String, String)| (e.0@, e.1@)),
            all_stand(start, pairs),
            node(*custom) == covered(start, pairs.skip(i as int)),
        decreases i,
    {
        i -= 1;
        let key = held[i].0.as_str();
        proof {
            let rest = pairs.skip(i + 1);
            assert(pairs.skip(i as int).skip(1) =~= rest);
            assert(pairs.skip(i as int)[0] == pairs[i as int]);
            assert forall|j: int| 0 <= j < rest.len() implies holds_key(
                entries_of(start),
                (#[trigger] rest[j]).0,
            ) by {
                assert(rest[j] == pairs[i + 1 + j]);
            }
            lemma_covered(start, rest);
            assert(holds_key(entries_of(start), pairs[i as int].0));
            assert(holds_key(entries_of(node(*custom)), key@));
        }
        let value = string_item(held[i].1.as_str());
        match get_mut(custom, key) {
            Some(place) => {
                *place = value;
            },
            None => {},
        }
    }
    assert(pairs.skip(0) =~= pairs);
}

/// Puts the colours of a palette in the place of the user's own values. Returns the
/// text that keeps these.
pub fn cover(doc: &mut toml_edit::DocumentMut, tokens: &KeyMap<String>, managed: &Vec<String>) -> (r:
    String)
    requires
        editable(*old(doc)),
    ensures
        editable(*final(doc)),
        document(*final(doc)) == (Document {
            root: covered_root(
                document(*old(doc)).root,
                token_pairs(*tokens),
                texts(managed@),
            ),
            ..document(*old(doc))
        }),
        r@ == kept_of(document(*old(doc)).root, token_pairs(*tokens), texts(managed@)),
{
    let ghost before = document(*doc);
    let held = held_tokens(root(doc), tokens, managed);
    let ghost pairs = held@.map_values(|e: (String, String)| (e.0@, e.1@));
    if held.len() == 0 {
        assert(pairs =~= seq![]);
        let none = String::new();
        assert(none@ =~= seq![]);
        return none;
    }
    proof {
        lemma_held(custom_entries(before.root), token_pairs(*tokens), texts(managed@));
        assert(pairs.len() > 0);
        assert(holds_key(custom_entries(before.root), pairs[0].0));
        assert forall|i: int| 0 <= i < pairs.len() implies holds_key(
            custom_entries(before.root),
            (#[trigger] pairs[i]).0,
        ) by {}
    }
    let text = match get2(root(doc), "theme", "custom") {
        Some(custom) => keep_values(custom, &held),
        None => String::new(),
    };
    let item = root_mut(doc);
    match get_mut(item, "theme") {
        None => {},
        Some(theme) => match get_mut(theme, "custom") {
            None => {},
            Some(custom) => cover_values(custom, &held),
        },
    }
    text
}

} // verus!
