//! Edits of whole documents, one after the other: the user's own values give way
//! to palettes and come back.
use crate::aside::{
    all_stand, covered, covered_root, custom_entries, entry_keys, held_of, kept_entries, kept_of,
    kept_root, kept_text, keys_without, lemma_covered, lemma_held, lemma_held_once,
    lemma_nothing_back, lemma_with_child_other, put_back, uncovered,
};
use crate::memo::{closed, law_what_is_written_is_read, no_memo, read_text, MemoView};
use crate::own::Own;
use crate::plan::{
    any_managed, child2, clearing, edited, edited_text, free_of, free_pairs, kind_table,
    lemma_same_child, lemma_with_child, plan_on, planned, text_edited, token_keys, Edited, Fault,
    Outcome, PlanView,
};
use crate::plan_kept::{
    kept, kind_scope, law_the_rest_is_untouched, lemma_kept_sets, lemma_wider_opt, token_scope,
};
use crate::plan_laws::{
    base, custom_after, law_apply_is_idempotent, law_free_tokens_are_managed, law_tokens_are_set,
    lemma_custom_stays, lemma_free, lemma_held_stays, lemma_kind_names, lemma_sets_other,
    lemma_sets_twice, lemma_theme_applied, repeated,
};
use crate::plan_trail::{
    followed, followed_by, law_edits_only_add, law_own_entries_stay, next_plan, Edit,
};
use crate::plan_undo::{dressed, law_clear_leaves_the_users, theme_noted, ui_noted};
use crate::sidebar::user_rows;
use crate::toml::{
    child, entries_of, holds_key, lemma_index_of, string_node, toml_parse, toml_text, unique_keys,
    with_child, Document, Entry, Node,
};
use vstd::prelude::*;

verus! {

// --- a value gives way and comes back --------------------------------------------

/// Whether a text keeps what stands under the keys: read again, it holds just that.
pub open spec fn comes_back(c: Node, held: Seq<(Seq<char>, Seq<char>)>) -> bool {
    &&& kept_text(c, held).len() > 0
    &&& match toml_parse(kept_text(c, held)) {
        Ok(d) => {
            &&& entries_of(d.root).len() == held.len()
            &&& forall|i: int|
                0 <= i < held.len() ==> (#[trigger] entries_of(d.root)[i]).key == held[i].0
            &&& forall|i: int|
                0 <= i < held.len() ==> Some((#[trigger] entries_of(d.root)[i]).node) == child(
                    c,
                    held[i].0,
                )
        },
        Err(_) => false,
    }
}

proof fn lemma_put_back(c: Node, held: Seq<(Seq<char>, Seq<char>)>, e: Seq<Entry>, m: int)
    requires
        all_stand(c, held),
        token_keys(held).no_duplicates(),
        e.len() == held.len(),
        forall|i: int| 0 <= i < held.len() ==> (#[trigger] e[i]).key == held[i].0,
        forall|i: int| 0 <= i < held.len() ==> Some((#[trigger] e[i]).node) == child(c, held[i].0),
        0 <= m <= held.len(),
    ensures
        put_back(covered(c, held), e.take(m)) == covered(c, held.skip(m)),
    decreases m,
{
    if m == 0 {
        assert(held.skip(0) =~= held);
        assert(e.take(0) =~= seq![]);
    } else {
        lemma_put_back(c, held, e, m - 1);
        let i = m - 1;
        let rest = held.skip(m);
        let x = covered(c, rest);
        let key = held[i].0;
        assert(e.take(m).drop_last() =~= e.take(i));
        assert(e.take(m).last() == e[i]);
        assert(held.skip(i).skip(1) =~= rest);
        assert(held.skip(i)[0] == held[i]);
        assert forall|j: int| 0 <= j < rest.len() implies holds_key(
            entries_of(c),
            (#[trigger] rest[j]).0,
        ) by {
            assert(rest[j] == held[m + j]);
        }
        lemma_covered(c, rest);
        assert(holds_key(entries_of(c), held[i].0));
        assert(holds_key(entries_of(x), key));
        assert(!token_keys(rest).contains(key)) by {
            if token_keys(rest).contains(key) {
                let j = choose|j: int| 0 <= j < rest.len() && token_keys(rest)[j] == key;
                assert(token_keys(held)[m + j] == key);
                assert(token_keys(held)[i] == key);
            }
        }
        assert(child(x, key) == child(c, key));
        let s = string_node(held[i].1);
        let y = with_child(x, key, s);
        lemma_with_child(x, key, s);
        lemma_index_of(entries_of(y), key);
        lemma_sets_twice(x, key, s, Some(e[i].node));
        lemma_same_child(x, key);
    }
}

/// Putting back undoes covering: the root is as it was, and the keys that gave way
/// are told.
pub proof fn law_values_come_back(
    root: Node,
    pairs: Seq<(Seq<char>, Seq<char>)>,
    managed: Seq<Seq<char>>,
)
    requires
        token_keys(pairs).no_duplicates(),
    ensures
        ({
            let held = held_of(custom_entries(root), pairs, managed);
            let c = child2(root, "theme"@, "custom"@)->0;
            let kept = kept_of(root, pairs, managed);
            held.len() == 0 || comes_back(c, held) ==> {
                &&& uncovered(covered_root(root, pairs, managed), kept) == root
                &&& entry_keys(kept_entries(kept)) == token_keys(held)
            }
        }),
{
    let held = held_of(custom_entries(root), pairs, managed);
    let c = child2(root, "theme"@, "custom"@)->0;
    let kept = kept_of(root, pairs, managed);
    if held.len() == 0 {
        lemma_nothing_back(root);
        assert(entry_keys(kept_entries(kept)) =~= token_keys(held));
    } else if comes_back(c, held) {
        lemma_held(custom_entries(root), pairs, managed);
        lemma_held_once(custom_entries(root), pairs, managed);
        assert(holds_key(custom_entries(root), held[0].0));
        assert(child2(root, "theme"@, "custom"@) is Some);
        let e = entries_of(toml_parse(kept)->Ok_0.root);
        assert(entry_keys(kept_entries(kept)) =~= token_keys(held));
        lemma_put_back(c, held, e, held.len() as int);
        assert(e.take(held.len() as int) =~= e);
        assert(held.skip(held.len() as int) =~= seq![]);
        assert(put_back(covered(c, held), e) == c);
        let theme = child(root, "theme"@)->0;
        let theme1 = with_child(theme, "custom"@, covered(c, held));
        lemma_with_child(theme, "custom"@, covered(c, held));
        lemma_with_child(root, "theme"@, theme1);
        lemma_with_child_twice(theme, "custom"@, covered(c, held), c);
        lemma_with_child_twice(root, "theme"@, theme1, theme);
    }
}

proof fn lemma_with_child_twice(n: Node, key: Seq<char>, m: Node, w: Node)
    requires
        child(n, key) == Some(w),
    ensures
        with_child(with_child(n, key, m), key, w) == n,
{
    lemma_with_child(n, key, m);
    lemma_sets_twice(n, key, m, Some(w));
    lemma_same_child(n, key);
}

/// What is kept of two tables is the same where the same stands under the keys.
proof fn lemma_kept_same(c: Node, d: Node, held: Seq<(Seq<char>, Seq<char>)>)
    requires
        forall|i: int|
            0 <= i < held.len() ==> child(c, (#[trigger] held[i]).0) == child(d, held[i].0),
    ensures
        kept_root(c, held) == kept_root(d, held),
    decreases held.len(),
{
    if held.len() > 0 {
        let p = held.drop_last();
        assert forall|i: int| 0 <= i < p.len() implies child(c, (#[trigger] p[i]).0) == child(
            d,
            p[i].0,
        ) by {
            assert(p[i] == held[i]);
        }
        lemma_kept_same(c, d, p);
        assert(held[held.len() - 1] == held.last());
    }
}

/// Which tokens are the user's depends on whether each is managed and there.
proof fn lemma_held_same(
    e: Seq<Entry>,
    f: Seq<Entry>,
    pairs: Seq<(Seq<char>, Seq<char>)>,
    managed: Seq<Seq<char>>,
    others: Seq<Seq<char>>,
)
    requires
        forall|i: int|
            0 <= i < pairs.len() ==> {
                let k = (#[trigger] pairs[i]).0;
                (!managed.contains(k) && holds_key(e, k)) == (!others.contains(k) && holds_key(f, k))
            },
    ensures
        held_of(e, pairs, managed) == held_of(f, pairs, others),
    decreases pairs.len(),
{
    if pairs.len() > 0 {
        let p = pairs.drop_last();
        assert(pairs[pairs.len() - 1] == pairs.last());
        assert forall|i: int| 0 <= i < p.len() implies {
            let k = (#[trigger] p[i]).0;
            (!managed.contains(k) && holds_key(e, k)) == (!others.contains(k) && holds_key(f, k))
        } by {
            assert(p[i] == pairs[i]);
        }
        lemma_held_same(e, f, p, managed, others);
    }
}

/// The tokens that are free are those whose keys are left when others are taken
/// out.
proof fn lemma_free_left(
    e: Seq<Entry>,
    pairs: Seq<(Seq<char>, Seq<char>)>,
    managed: Seq<Seq<char>>,
    others: Seq<Seq<char>>,
)
    requires
        forall|i: int|
            0 <= i < pairs.len() ==> {
                let k = (#[trigger] pairs[i]).0;
                others.contains(k) == !(managed.contains(k) || !holds_key(e, k))
            },
    ensures
        keys_without(token_keys(pairs), others) == token_keys(free_of(e, pairs, managed)),
    decreases pairs.len(),
{
    let keys = token_keys(pairs);
    if pairs.len() == 0 {
        assert(keys_without(keys, others) =~= token_keys(free_of(e, pairs, managed)));
    } else {
        let p = pairs.drop_last();
        assert(pairs[pairs.len() - 1] == pairs.last());
        assert forall|i: int| 0 <= i < p.len() implies {
            let k = (#[trigger] p[i]).0;
            others.contains(k) == !(managed.contains(k) || !holds_key(e, k))
        } by {
            assert(p[i] == pairs[i]);
        }
        lemma_free_left(e, p, managed, others);
        assert(keys.drop_last() =~= token_keys(p));
        assert(keys.last() == pairs.last().0);
        let rest = free_of(e, p, managed);
        assert(token_keys(rest.push(pairs.last())) =~= token_keys(rest).push(pairs.last().0));
    }
}

proof fn lemma_nothing_left_out(keys: Seq<Seq<char>>)
    ensures
        keys_without(keys, seq![]) == keys,
    decreases keys.len(),
{
    if keys.len() > 0 {
        lemma_nothing_left_out(keys.drop_last());
        assert(keys.drop_last().push(keys.last()) =~= keys);
    }
}

// --- tokens ----------------------------------------------------------------------

proof fn lemma_covered_value(c: Node, held: Seq<(Seq<char>, Seq<char>)>, i: int)
    requires
        all_stand(c, held),
        token_keys(held).no_duplicates(),
        0 <= i < held.len(),
    ensures
        child(covered(c, held), held[i].0) == Some(string_node(held[i].1)),
    decreases held.len(),
{
    let rest = held.skip(1);
    assert forall|j: int| 0 <= j < rest.len() implies holds_key(
        entries_of(c),
        (#[trigger] rest[j]).0,
    ) by {
        assert(rest[j] == held[j + 1]);
    }
    lemma_covered(c, rest);
    let x = covered(c, rest);
    let (key, colour) = held[0];
    assert(holds_key(entries_of(c), held[0].0));
    assert(holds_key(entries_of(x), key));
    if i == 0 {
        lemma_with_child(x, key, string_node(colour));
    } else {
        assert(token_keys(rest) =~= token_keys(held).skip(1));
        lemma_covered_value(c, rest, i - 1);
        assert(rest[i - 1] == held[i]);
        assert(token_keys(held)[0] != token_keys(held)[i]);
        lemma_with_child_other(x, key, string_node(colour), held[i].0);
    }
}

/// After an edit that sets tokens, every one of them stands in `theme.custom` with
/// its colour, the user's own ones too, and all are managed.
pub proof fn law_every_token_is_set(
    doc: Document,
    memo: MemoView,
    plan: PlanView,
    i: int,
)
    requires
        uncovered(doc.root, memo.kept) is Table,
        plan.theme is Some,
        token_keys(plan.theme->0).no_duplicates(),
        edited(doc, memo, plan) is Ok,
        0 <= i < plan.theme->0.len(),
    ensures
        ({
            let e = edited(doc, memo, plan)->Ok_0;
            let (key, colour) = plan.theme->0[i];
            let custom = child2(e.doc.root, "theme"@, "custom"@);
            &&& e.keys == token_keys(plan.theme->0)
            &&& custom is Some
            &&& child(custom->0, key) == Some(string_node(colour))
        }),
{
    let root = uncovered(doc.root, memo.kept);
    let inner = plan_on(memo, plan);
    let pairs = plan.theme->0;
    let managed = inner.previously_managed;
    let o = planned(root, inner)->Ok_0;
    let (key, colour) = pairs[i];
    let theme = child(o.root, "theme"@)->0;
    let c = child(theme, "custom"@)->0;
    lemma_custom_stays(root, inner);
    assert(custom_entries(o.root) == entries_of(c));
    let held = held_of(entries_of(c), pairs, o.keys);
    lemma_held(entries_of(c), pairs, o.keys);
    lemma_held_once(entries_of(c), pairs, o.keys);
    lemma_covered(c, held);
    law_free_tokens_are_managed(root, inner, i);
    if o.keys.contains(key) {
        let j = choose|j: int| 0 <= j < o.keys.len() && o.keys[j] == key;
        law_tokens_are_set(root, inner, j);
        let pair = free_pairs(root, pairs, managed)[j];
        let k = choose|k: int| 0 <= k < pairs.len() && pairs[k] == pair;
        assert(token_keys(pairs)[k] == key && token_keys(pairs)[i] == key);
        assert(child(c, key) == Some(string_node(colour)));
        assert(!token_keys(held).contains(key)) by {
            if token_keys(held).contains(key) {
                let h = choose|h: int| 0 <= h < held.len() && token_keys(held)[h] == key;
                assert(held[h].0 == key);
            }
        }
        assert(child(covered(c, held), key) == child(c, key));
    } else {
        let c0 = base(base(root, "theme"@, true), "custom"@, false);
        lemma_theme_applied(root, pairs, managed);
        lemma_index_of(entries_of(c0), key);
        lemma_held_stays(root, pairs, managed, key);
        assert(custom_after(root, pairs, managed) == c);
        assert(held.contains(pairs[i]));
        let h = choose|h: int| 0 <= h < held.len() && held[h] == pairs[i];
        lemma_covered_value(c, held, h);
    }
    if held.len() > 0 {
        let theme1 = with_child(theme, "custom"@, covered(c, held));
        lemma_with_child(theme, "custom"@, covered(c, held));
        lemma_with_child(o.root, "theme"@, theme1);
    }
}

/// Where the user's own values give way, nothing else does: at the root all but
/// `theme` stays, there all but `custom`, and there all but those values.
pub proof fn law_covering_leaves_the_rest(
    root: Node,
    pairs: Seq<(Seq<char>, Seq<char>)>,
    managed: Seq<Seq<char>>,
)
    ensures
        ({
            let held = held_of(custom_entries(root), pairs, managed);
            let y = covered_root(root, pairs, managed);
            &&& kept(Some(root), Some(y), set!["theme"@])
            &&& kept(child(root, "theme"@), child(y, "theme"@), set!["custom"@])
            &&& kept(
                child2(root, "theme"@, "custom"@),
                child2(y, "theme"@, "custom"@),
                token_keys(held).to_set(),
            )
            &&& child(root, "theme"@) is Some <==> child(y, "theme"@) is Some
            &&& child2(root, "theme"@, "custom"@) is Some <==> child2(
                y,
                "theme"@,
                "custom"@,
            ) is Some
            &&& child(y, "ui"@) == child(root, "ui"@)
        }),
{
    let held = held_of(custom_entries(root), pairs, managed);
    let y = covered_root(root, pairs, managed);
    if held.len() > 0 {
        lemma_kind_names();
        lemma_held(custom_entries(root), pairs, managed);
        assert(holds_key(custom_entries(root), held[0].0));
        let theme = child(root, "theme"@)->0;
        let c = child(theme, "custom"@)->0;
        let theme1 = with_child(theme, "custom"@, covered(c, held));
        lemma_with_child(theme, "custom"@, covered(c, held));
        lemma_with_child(root, "theme"@, theme1);
        lemma_kept_sets(root, "theme"@, Some(theme1), set!["theme"@]);
        lemma_kept_sets(theme, "custom"@, Some(covered(c, held)), set!["custom"@]);
        lemma_sets_other(root, "theme"@, Some(theme1), "ui"@);
        lemma_covered_kept(c, held, token_keys(held).to_set());
    }
}

proof fn lemma_covered_kept(
    c: Node,
    held: Seq<(Seq<char>, Seq<char>)>,
    scope: Set<Seq<char>>,
)
    requires
        all_stand(c, held),
        forall|i: int| 0 <= i < held.len() ==> scope.contains(#[trigger] token_keys(held)[i]),
    ensures
        kept(Some(c), Some(covered(c, held)), scope),
    decreases held.len(),
{
    if held.len() > 0 {
        let rest = held.skip(1);
        assert forall|j: int| 0 <= j < rest.len() implies holds_key(
            entries_of(c),
            (#[trigger] rest[j]).0,
        ) by {
            assert(rest[j] == held[j + 1]);
        }
        assert forall|j: int| 0 <= j < rest.len() implies scope.contains(
            #[trigger] token_keys(rest)[j],
        ) by {
            assert(token_keys(rest)[j] == token_keys(held)[j + 1]);
        }
        lemma_covered_kept(c, rest, scope);
        lemma_covered(c, rest);
        let x = covered(c, rest);
        assert(token_keys(held)[0] == held[0].0);
        assert(holds_key(entries_of(c), held[0].0));
        assert(holds_key(entries_of(x), held[0].0));
        lemma_index_of(entries_of(x), held[0].0);
        lemma_kept_sets(x, held[0].0, Some(string_node(held[0].1)), scope);
    }
}

/// Where values are put back, nothing else changes.
proof fn lemma_uncovering_leaves_the_rest(root: Node, text: Seq<char>)
    requires
        root is Table,
    ensures
        ({
            let y = uncovered(root, text);
            let keys = entry_keys(kept_entries(text)).to_set();
            &&& y is Table
            &&& kept(Some(root), Some(y), set!["theme"@])
            &&& kept(child(root, "theme"@), child(y, "theme"@), set!["custom"@])
            &&& child(root, "theme"@) is Some <==> child(y, "theme"@) is Some
            &&& kept(
                child2(root, "theme"@, "custom"@),
                child2(y, "theme"@, "custom"@),
                keys,
            )
            &&& child2(root, "theme"@, "custom"@) is Some <==> child2(
                y,
                "theme"@,
                "custom"@,
            ) is Some
            &&& child(y, "ui"@) == child(root, "ui"@)
        }),
{
    let y = uncovered(root, text);
    if child2(root, "theme"@, "custom"@) is Some {
        lemma_kind_names();
        let e = kept_entries(text);
        let keys = entry_keys(e).to_set();
        let theme = child(root, "theme"@)->0;
        let c = child(theme, "custom"@)->0;
        let c1 = put_back(c, e);
        let theme1 = with_child(theme, "custom"@, c1);
        assert forall|i: int| 0 <= i < e.len() implies keys.contains((#[trigger] e[i]).key) by {
            assert(entry_keys(e)[i] == e[i].key);
        }
        lemma_put_back_kept(c, e, keys);
        lemma_with_child(theme, "custom"@, c1);
        lemma_with_child(root, "theme"@, theme1);
        lemma_kept_sets(root, "theme"@, Some(theme1), set!["theme"@]);
        lemma_kept_sets(theme, "custom"@, Some(c1), set!["custom"@]);
        lemma_sets_other(root, "theme"@, Some(theme1), "ui"@);
    }
}

proof fn lemma_put_back_kept(c: Node, e: Seq<Entry>, scope: Set<Seq<char>>)
    requires
        forall|i: int| 0 <= i < e.len() ==> scope.contains((#[trigger] e[i]).key),
    ensures
        kept(Some(c), Some(put_back(c, e)), scope),
    decreases e.len(),
{
    if e.len() > 0 {
        let d = e.drop_last();
        assert forall|i: int| 0 <= i < d.len() implies scope.contains((#[trigger] d[i]).key) by {
            assert(d[i] == e[i]);
        }
        lemma_put_back_kept(c, d, scope);
        let x = put_back(c, d);
        assert(e[e.len() - 1] == e.last());
        if holds_key(entries_of(x), e.last().key) {
            lemma_index_of(entries_of(x), e.last().key);
            lemma_kept_sets(x, e.last().key, Some(e.last().node), scope);
        }
    }
}

/// The keys of `theme.custom` that an edit of a document may change: those that were
/// managed, those of the values that come back, and the tokens that are set.
pub open spec fn edit_scope(memo: MemoView, plan: PlanView) -> Set<Seq<char>> {
    plan.previously_managed.to_set() + entry_keys(kept_entries(memo.kept)).to_set() + match plan.theme {
        Some(pairs) => token_keys(pairs).to_set(),
        None => Set::empty(),
    }
}

/// An edit leaves everything alone that is not its own, order and layout included.
/// At the root that is all but `theme` and `ui`; under `theme` all but `custom`;
/// there all but the keys that were managed, the values that come back and the
/// tokens that are set; under `ui` all but `sidebar`; there all but the managed
/// kinds; and in every kind all but its rows. Rows that the user set stay as they
/// are.
pub proof fn law_an_edit_leaves_the_rest(doc: Document, memo: MemoView, plan: PlanView)
    requires
        doc.root is Table,
        unique_keys(uncovered(doc.root, memo.kept)),
        edited(doc, memo, plan) is Ok,
    ensures
        ({
            let x = edited(doc, memo, plan)->Ok_0.doc.root;
            &&& kept(Some(doc.root), Some(x), set!["theme"@, "ui"@])
            &&& kept(child(doc.root, "theme"@), child(x, "theme"@), set!["custom"@])
            &&& kept(
                child2(doc.root, "theme"@, "custom"@),
                child2(x, "theme"@, "custom"@),
                edit_scope(memo, plan),
            )
            &&& kept(child(doc.root, "ui"@), child(x, "ui"@), set!["sidebar"@])
            &&& kept(
                child2(doc.root, "ui"@, "sidebar"@),
                child2(x, "ui"@, "sidebar"@),
                kind_scope(plan),
            )
            &&& forall|k: Seq<char>| kept(
                kind_table(doc.root, k),
                #[trigger] kind_table(x, k),
                set!["rows"@],
            )
            &&& plan.sidebar is Some ==> forall|k: Seq<char>|
                user_rows(doc.root, k, plan.managed_sidebar) ==> #[trigger] kind_table(x, k)
                    == kind_table(doc.root, k)
        }),
{
    let bare = uncovered(doc.root, memo.kept);
    let inner = plan_on(memo, plan);
    let o = planned(bare, inner)->Ok_0;
    let x = edited(doc, memo, plan)->Ok_0.doc.root;
    let scope = edit_scope(memo, plan);
    let two = set!["theme"@, "ui"@];
    lemma_uncovering_leaves_the_rest(doc.root, memo.kept);
    law_the_rest_is_untouched(bare, inner);
    lemma_wider_opt(Some(doc.root), Some(bare), set!["theme"@], two);
    let back = entry_keys(kept_entries(memo.kept)).to_set();
    let mid = token_scope(bare, inner);
    assert(mid.subset_of(scope)) by {
        assert forall|k: Seq<char>| mid.contains(k) implies scope.contains(k) by {
            if inner.previously_managed.contains(k) {
                lemma_keys_without(plan.previously_managed, entry_keys(kept_entries(memo.kept)), k);
            } else {
                let pairs = plan.theme->0;
                let free = free_pairs(bare, pairs, inner.previously_managed);
                let e = custom_entries(bare);
                lemma_free(e, pairs, inner.previously_managed);
                let i = choose|i: int| 0 <= i < free.len() && token_keys(free)[i] == k;
                let j = choose|j: int| 0 <= j < pairs.len() && pairs[j] == free[i];
                assert(token_keys(pairs)[j] == k);
            }
        }
    }
    lemma_wider_opt(
        child2(doc.root, "theme"@, "custom"@),
        child2(bare, "theme"@, "custom"@),
        back,
        scope,
    );
    lemma_wider_opt(
        child2(bare, "theme"@, "custom"@),
        child2(o.root, "theme"@, "custom"@),
        mid,
        scope,
    );
    assert forall|k: Seq<char>| #[trigger] kind_table(bare, k) == kind_table(doc.root, k) by {}
    match plan.theme {
        Some(pairs) => {
            let held = held_of(custom_entries(o.root), pairs, o.keys);
            let gone = token_keys(held).to_set();
            law_covering_leaves_the_rest(o.root, pairs, o.keys);
            lemma_wider_opt(Some(o.root), Some(x), set!["theme"@], two);
            lemma_held(custom_entries(o.root), pairs, o.keys);
            assert forall|k: Seq<char>| gone.contains(k) implies scope.contains(k) by {
                let i = choose|i: int| 0 <= i < held.len() && token_keys(held)[i] == k;
                let j = choose|j: int| 0 <= j < pairs.len() && pairs[j] == held[i];
                assert(token_keys(pairs)[j] == k);
            }
            lemma_wider_opt(
                child2(o.root, "theme"@, "custom"@),
                child2(x, "theme"@, "custom"@),
                gone,
                scope,
            );
            assert forall|k: Seq<char>| #[trigger] kind_table(x, k) == kind_table(o.root, k) by {}
        },
        None => {},
    }
}

proof fn lemma_keys_without(keys: Seq<Seq<char>>, others: Seq<Seq<char>>, k: Seq<char>)
    requires
        keys_without(keys, others).contains(k),
    ensures
        keys.contains(k),
    decreases keys.len(),
{
    if keys.len() > 0 {
        let d = keys.drop_last();
        let rest = keys_without(d, others);
        assert(keys[keys.len() - 1] == keys.last());
        if k != keys.last() {
            let i = choose|i: int|
                0 <= i < keys_without(keys, others).len() && keys_without(keys, others)[i] == k;
            assert(rest[i] == k);
            lemma_keys_without(d, others, k);
            let j = choose|j: int| 0 <= j < d.len() && d[j] == k;
            assert(keys[j] == k);
        }
    }
}

// --- series of edits -------------------------------------------------------------

/// What an edit says of a document with something managed in it.
pub open spec fn plan_after(t: Edited, edit: Edit) -> PlanView {
    PlanView {
        theme: edit.theme,
        previously_managed: t.keys,
        sidebar: edit.sidebar,
        managed_sidebar: t.kinds,
        own: Own::none(),
    }
}

/// A series of edits with one more. An edit that cannot be made changes nothing.
pub open spec fn gone_on(t: Edited, edit: Edit) -> Edited {
    match edited(t.doc, t.memo, plan_after(t, edit)) {
        Ok(e) => e,
        Err(_) => t,
    }
}

/// Where a series of edits of a document stands that begins with nothing managed and
/// nothing kept.
pub open spec fn series(doc: Document, edits: Seq<Edit>) -> Edited
    decreases edits.len(),
{
    if edits.len() == 0 {
        Edited { doc, memo: no_memo(), keys: seq![], kinds: seq![] }
    } else {
        gone_on(series(doc, edits.drop_last()), edits.last())
    }
}

/// Whether an edit names no token twice, and the user's own values that give way
/// to it come back from the text that keeps them.
pub open spec fn fits(root: Node, edit: Edit) -> bool {
    match edit.theme {
        Some(pairs) => {
            let held = held_of(custom_entries(root), pairs, seq![]);
            &&& token_keys(pairs).no_duplicates()
            &&& held.len() == 0 || comes_back(child2(root, "theme"@, "custom"@)->0, held)
        },
        None => true,
    }
}

/// The keys that are managed and that no value of the user's gave way to.
pub open spec fn keys_left(t: Edited) -> Seq<Seq<char>> {
    keys_without(t.keys, entry_keys(kept_entries(t.memo.kept)))
}

/// Whether an edited document, with the user's own values back in their places, is
/// what a series of plans came to.
spec fn stands_for(doc: Document, t: Edited, o: Outcome) -> bool {
    &&& uncovered(t.doc.root, t.memo.kept) == o.root
    &&& t.doc.trailing == doc.trailing
    &&& keys_left(t) == o.keys
    &&& t.kinds == o.kinds
    &&& t.memo.own == o.own
    &&& closed(t.memo.kept) == t.memo.kept
    &&& !any_managed(t.keys, t.kinds) ==> t.memo == no_memo()
}

proof fn lemma_series_step(doc: Document, edits: Seq<Edit>, edit: Edit)
    requires
        doc.root is Table,
        unique_keys(doc.root),
        fits(doc.root, edit),
        stands_for(doc, series(doc, edits), followed(doc.root, edits)),
    ensures
        stands_for(
            doc,
            gone_on(series(doc, edits), edit),
            followed_by(followed(doc.root, edits), edit),
        ),
{
    let t = series(doc, edits);
    let o = followed(doc.root, edits);
    let plan = plan_after(t, edit);
    assert(plan_on(t.memo, plan) == next_plan(o, edit));
    if planned(o.root, next_plan(o, edit)) is Ok {
        let o1 = planned(o.root, next_plan(o, edit))->Ok_0;
        let nothing = Seq::<Seq<char>>::empty();
        match edit.theme {
            None => {
                lemma_nothing_back(o1.root);
                lemma_nothing_kept();
                lemma_nothing_left_out(o1.keys);
            },
            Some(pairs) => {
                let all = edits.push(edit);
                assert(all.drop_last() =~= edits);
                assert(followed(doc.root, all) == o1);
                law_own_entries_stay(doc.root, all);
                let e0 = custom_entries(doc.root);
                let e1 = custom_entries(o1.root);
                let held = held_of(e1, pairs, o1.keys);
                assert forall|i: int| 0 <= i < pairs.len() implies {
                    let k = (#[trigger] pairs[i]).0;
                    (!o1.keys.contains(k) && holds_key(e1, k)) == (!nothing.contains(k)
                        && holds_key(e0, k))
                } by {
                    let k = pairs[i].0;
                    assert(holds_key(e0, k) <==> holds_key(e1, k) && !o1.keys.contains(k));
                }
                lemma_held_same(e1, e0, pairs, o1.keys, nothing);
                lemma_held(e0, pairs, nothing);
                let c0 = child2(doc.root, "theme"@, "custom"@)->0;
                let c1 = child2(o1.root, "theme"@, "custom"@)->0;
                assert forall|i: int| 0 <= i < held.len() implies child(
                    c0,
                    (#[trigger] held[i]).0,
                ) == child(c1, held[i].0) by {
                    assert(holds_key(e0, held[i].0));
                }
                lemma_kept_same(c0, c1, held);
                law_values_come_back(o1.root, pairs, o1.keys);
                lemma_keys_left(doc.root, edits, edit, pairs);
                lemma_nothing_managed(o1, pairs);
            },
        }
    }
}

proof fn lemma_nothing_kept()
    ensures
        entry_keys(kept_entries(seq![])) == Seq::<Seq<char>>::empty(),
{
    assert(entry_keys(kept_entries(seq![])) =~= Seq::<Seq<char>>::empty());
}

/// What is kept ends its last line, and nothing is where there are no tokens.
proof fn lemma_nothing_managed(o: Outcome, pairs: Seq<(Seq<char>, Seq<char>)>)
    ensures
        closed(kept_of(o.root, pairs, o.keys)) == kept_of(o.root, pairs, o.keys),
        pairs.len() == 0 ==> kept_of(o.root, pairs, o.keys) == Seq::<char>::empty(),
{
}

/// The keys that are managed and did not give way are those of the free tokens.
proof fn lemma_keys_left(
    root: Node,
    edits: Seq<Edit>,
    edit: Edit,
    pairs: Seq<(Seq<char>, Seq<char>)>,
)
    requires
        root is Table,
        unique_keys(root),
        edit.theme == Some(pairs),
        planned(followed(root, edits).root, next_plan(followed(root, edits), edit)) is Ok,
    ensures
        ({
            let o = followed(root, edits);
            let o1 = planned(o.root, next_plan(o, edit))->Ok_0;
            keys_without(
                token_keys(pairs),
                token_keys(held_of(custom_entries(o1.root), pairs, o1.keys)),
            ) == o1.keys
        }),
{
    let o = followed(root, edits);
    let plan = next_plan(o, edit);
    let o1 = planned(o.root, plan)->Ok_0;
    let all = edits.push(edit);
    assert(all.drop_last() =~= edits);
    assert(followed(root, all) == o1);
    law_own_entries_stay(root, edits);
    law_own_entries_stay(root, all);
    let e0 = custom_entries(root);
    let e = custom_entries(o.root);
    let e1 = custom_entries(o1.root);
    let held = held_of(e1, pairs, o1.keys);
    lemma_held(e1, pairs, o1.keys);
    assert forall|i: int| 0 <= i < pairs.len() implies {
        let k = (#[trigger] pairs[i]).0;
        token_keys(held).contains(k) == !(o.keys.contains(k) || !holds_key(e, k))
    } by {
        let k = pairs[i].0;
        law_free_tokens_are_managed(o.root, plan, i);
        if child2(o.root, "theme"@, "custom"@) is Some {
            lemma_index_of(e, k);
        } else {
            assert(!holds_key(Seq::<Entry>::empty(), k));
        }
        assert(o1.keys.contains(k) <==> (o.keys.contains(k) || !holds_key(e, k)));
        assert(holds_key(e0, k) <==> holds_key(e, k) && !o.keys.contains(k));
        assert(holds_key(e0, k) <==> holds_key(e1, k) && !o1.keys.contains(k));
        if token_keys(held).contains(k) {
            let h = choose|h: int| 0 <= h < held.len() && token_keys(held)[h] == k;
            assert(held[h].0 == k);
        }
        if !o1.keys.contains(k) && holds_key(e1, k) {
            assert(held.contains(pairs[i]));
            let h = choose|h: int| 0 <= h < held.len() && held[h] == pairs[i];
            assert(token_keys(held)[h] == k);
        }
    }
    lemma_free_left(e, pairs, o.keys, token_keys(held));
}

proof fn lemma_series(doc: Document, edits: Seq<Edit>)
    requires
        doc.root is Table,
        unique_keys(doc.root),
        forall|i: int| 0 <= i < edits.len() ==> fits(doc.root, #[trigger] edits[i]),
    ensures
        stands_for(doc, series(doc, edits), followed(doc.root, edits)),
    decreases edits.len(),
{
    if edits.len() == 0 {
        let t = series(doc, edits);
        lemma_nothing_back(doc.root);
        lemma_nothing_kept();
        lemma_nothing_left_out(t.keys);
    } else {
        let p = edits.drop_last();
        assert forall|i: int| 0 <= i < p.len() implies fits(doc.root, #[trigger] p[i]) by {
            assert(p[i] == edits[i]);
        }
        lemma_series(doc, p);
        assert(edits[edits.len() - 1] == edits.last());
        lemma_series_step(doc, p, edits.last());
    }
}

/// `clear` gets the user back from anywhere: however often palettes were applied
/// and switched, with rows or without, and whatever values of the user's gave way to
/// them, taking out what is managed gives the document back as it was, order, layout
/// and comments included.
pub proof fn law_clear_undoes_every_edit_of_a_document(doc: Document, edits: Seq<Edit>)
    requires
        doc.root is Table,
        unique_keys(doc.root),
        forall|i: int| 0 <= i < edits.len() ==> fits(doc.root, #[trigger] edits[i]),
    ensures
        ({
            let t = series(doc, edits);
            let clear = clearing(t.keys, t.kinds, Own::none());
            edited(t.doc, t.memo, clear) == Ok::<Edited, Fault>(
                Edited { doc, memo: no_memo(), keys: seq![], kinds: seq![] },
            )
        }),
{
    let t = series(doc, edits);
    let o = followed(doc.root, edits);
    let clear = clearing(t.keys, t.kinds, Own::none());
    lemma_series(doc, edits);
    law_edits_only_add(doc.root, edits);
    law_clear_leaves_the_users(doc.root, o.root, o.keys, o.kinds, o.own);
    assert(plan_on(t.memo, clear) == clearing(o.keys, o.kinds, o.own));
    assert(edited(t.doc, t.memo, clear)->Ok_0.kinds =~= Seq::<Seq<char>>::empty());
}

/// Repeating an edit changes nothing: carried out again on what it gave, with what
/// it says is managed, a plan gives the same document, and the same is managed.
pub proof fn law_repeating_changes_nothing(doc: Document, memo: MemoView, plan: PlanView)
    requires
        uncovered(doc.root, memo.kept) is Table,
        plan.theme is Some ==> plan.theme->0.len() > 0 && token_keys(
            plan.theme->0,
        ).no_duplicates(),
        edited(doc, memo, plan) is Ok,
        plan.theme is Some ==> {
            let o = planned(uncovered(doc.root, memo.kept), plan_on(memo, plan))->Ok_0;
            let held = held_of(custom_entries(o.root), plan.theme->0, o.keys);
            held.len() == 0 || comes_back(child2(o.root, "theme"@, "custom"@)->0, held)
        },
    ensures
        ({
            let first = edited(doc, memo, plan)->Ok_0;
            let again = PlanView {
                previously_managed: first.keys,
                managed_sidebar: first.kinds,
                ..plan
            };
            edited(first.doc, first.memo, again) == Ok::<Edited, Fault>(first)
        }),
{
    let bare = uncovered(doc.root, memo.kept);
    let inner = plan_on(memo, plan);
    let o = planned(bare, inner)->Ok_0;
    let first = edited(doc, memo, plan)->Ok_0;
    let again = PlanView {
        previously_managed: first.keys,
        managed_sidebar: first.kinds,
        ..plan
    };
    law_apply_is_idempotent(bare, inner);
    match plan.theme {
        None => {
            lemma_nothing_back(o.root);
            lemma_nothing_kept();
            lemma_nothing_left_out(first.keys);
        },
        Some(pairs) => {
            law_values_come_back(o.root, pairs, o.keys);
            lemma_left_after(bare, inner, pairs);
        },
    }
    assert(plan_on(first.memo, again) == repeated(inner, o));
}

proof fn lemma_left_after(root: Node, plan: PlanView, pairs: Seq<(Seq<char>, Seq<char>)>)
    requires
        root is Table,
        plan.theme == Some(pairs),
        pairs.len() > 0,
        token_keys(pairs).no_duplicates(),
        planned(root, plan) is Ok,
    ensures
        ({
            let o = planned(root, plan)->Ok_0;
            keys_without(
                token_keys(pairs),
                token_keys(held_of(custom_entries(o.root), pairs, o.keys)),
            ) == o.keys
        }),
{
    let o = planned(root, plan)->Ok_0;
    let managed = plan.previously_managed;
    let c0 = base(base(root, "theme"@, true), "custom"@, false);
    let e = custom_entries(root);
    let e1 = custom_entries(o.root);
    let held = held_of(e1, pairs, o.keys);
    lemma_custom_stays(root, plan);
    lemma_theme_applied(root, pairs, managed);
    assert(e1 == entries_of(custom_after(root, pairs, managed)));
    assert(e =~= entries_of(c0)) by {
        if child(root, "theme"@) is None {
            lemma_index_of(entries_of(base(root, "theme"@, true)), "custom"@);
        }
    }
    lemma_held(e1, pairs, o.keys);
    assert forall|i: int| 0 <= i < pairs.len() implies {
        let k = (#[trigger] pairs[i]).0;
        token_keys(held).contains(k) == !(managed.contains(k) || !holds_key(e, k))
    } by {
        let k = pairs[i].0;
        law_free_tokens_are_managed(root, plan, i);
        if child2(root, "theme"@, "custom"@) is Some {
            lemma_index_of(e, k);
        } else {
            assert(!holds_key(Seq::<Entry>::empty(), k));
        }
        assert(o.keys.contains(k) <==> (managed.contains(k) || !holds_key(e, k)));
        if token_keys(held).contains(k) {
            let h = choose|h: int| 0 <= h < held.len() && token_keys(held)[h] == k;
            assert(held[h].0 == k);
        }
        if !o.keys.contains(k) {
            lemma_held_stays(root, pairs, managed, k);
            assert(held.contains(pairs[i]));
            let h = choose|h: int| 0 <= h < held.len() && held[h] == pairs[i];
            assert(token_keys(held)[h] == k);
        }
    }
    lemma_free_left(e, pairs, managed, token_keys(held));
}

// --- texts -----------------------------------------------------------------------

/// Whether a document is the user's, with the managed keys and rows added to it in
/// whatever style, once the user's own values that are kept are back in their
/// places.
pub open spec fn added_to(
    doc: Document,
    x: Document,
    memo: MemoView,
    keys: Seq<Seq<char>>,
    kinds: Seq<Seq<char>>,
) -> bool {
    let left = keys_without(keys, entry_keys(kept_entries(memo.kept)));
    &&& x.trailing == doc.trailing
    &&& dressed(doc.root, uncovered(x.root, memo.kept), left, kinds)
}

/// However often palettes were applied and switched, the document is the user's with
/// the managed keys and rows added to it, what is kept tells the user's tables from
/// those that were made, and nothing is kept where nothing is managed.
pub proof fn law_edits_of_a_document_only_add(doc: Document, edits: Seq<Edit>)
    requires
        doc.root is Table,
        unique_keys(doc.root),
        forall|i: int| 0 <= i < edits.len() ==> fits(doc.root, #[trigger] edits[i]),
    ensures
        ({
            let t = series(doc, edits);
            &&& added_to(doc, t.doc, t.memo, t.keys, t.kinds)
            &&& keys_left(t).len() > 0 ==> theme_noted(doc.root, t.memo.own)
            &&& t.kinds.len() > 0 ==> ui_noted(doc.root, t.memo.own)
            &&& closed(t.memo.kept) == t.memo.kept
            &&& !any_managed(t.keys, t.kinds) ==> t.memo == no_memo()
        }),
{
    lemma_series(doc, edits);
    law_edits_only_add(doc.root, edits);
}

/// `clear` gets the user's text back, byte for byte: where the user's text prints
/// back unchanged, and what the text without the plugin's block reads as is the
/// user's document with the managed keys and rows added to it, taking them out of the
/// text gives the user's text, whatever it holds.
pub proof fn law_clear_gives_the_text_back(
    original: Seq<char>,
    text: Seq<char>,
    keys: Seq<Seq<char>>,
    kinds: Seq<Seq<char>>,
)
    ensures
        ({
            let (own_text, memo) = read_text(text, any_managed(keys, kinds));
            match (toml_parse(original), toml_parse(text), toml_parse(own_text)) {
                (Ok(doc), Ok(_), Ok(again)) => ({
                    &&& toml_text(doc) == original
                    &&& added_to(doc, again, memo, keys, kinds)
                    &&& keys_without(keys, entry_keys(kept_entries(memo.kept))).len() > 0
                        ==> theme_noted(doc.root, memo.own)
                    &&& kinds.len() > 0 ==> ui_noted(doc.root, memo.own)
                }) ==> match text_edited(text, clearing(keys, kinds, Own::none())) {
                    Ok((cleared_text, left)) => cleared_text == original && left.len() == 0,
                    Err(_) => false,
                },
                _ => true,
            }
        }),
{
    let (own_text, memo) = read_text(text, any_managed(keys, kinds));
    match (toml_parse(original), toml_parse(text), toml_parse(own_text)) {
        (Ok(doc), Ok(_), Ok(again)) => {
            let left = keys_without(keys, entry_keys(kept_entries(memo.kept)));
            let clear = clearing(keys, kinds, Own::none());
            if added_to(doc, again, memo, keys, kinds) && (left.len() > 0 ==> theme_noted(
                doc.root,
                memo.own,
            )) && (kinds.len() > 0 ==> ui_noted(doc.root, memo.own)) {
                let x = uncovered(again.root, memo.kept);
                law_clear_leaves_the_users(doc.root, x, left, kinds, memo.own);
                assert(plan_on(memo, clear) == clearing(left, kinds, memo.own));
                assert(edited(again, memo, clear)->Ok_0.doc == doc);
            }
        },
        _ => {},
    }
}

/// `clear` gets the user's text back, byte for byte, after any number of edits:
/// where the user's text prints back unchanged, and the text that was written last
/// reads as the user's document with the managed keys and rows added to it. These may
/// be read in another style than they were written in.
pub proof fn law_clear_gives_the_text_back_after_edits(original: Seq<char>, edits: Seq<Edit>)
    ensures
        match toml_parse(original) {
            Ok(doc) => {
                let t = series(doc, edits);
                let text = edited_text(t);
                ({
                    &&& doc.root is Table
                    &&& unique_keys(doc.root)
                    &&& forall|i: int|
                        0 <= i < edits.len() ==> fits(doc.root, #[trigger] edits[i])
                    &&& toml_text(doc) == original
                }) ==> match (toml_parse(text), toml_parse(toml_text(t.doc))) {
                    (Ok(_), Ok(again)) => added_to(doc, again, t.memo, t.keys, t.kinds)
                        ==> match text_edited(text, clearing(t.keys, t.kinds, Own::none())) {
                        Ok((cleared_text, left)) => cleared_text == original && left.len() == 0,
                        Err(_) => false,
                    },
                    _ => true,
                }
            },
            Err(_) => true,
        },
{
    match toml_parse(original) {
        Ok(doc) => {
            if doc.root is Table && unique_keys(doc.root) && (forall|i: int|
                0 <= i < edits.len() ==> fits(doc.root, #[trigger] edits[i])) {
                let t = series(doc, edits);
                let text = edited_text(t);
                law_edits_of_a_document_only_add(doc, edits);
                law_what_is_written_is_read(
                    toml_text(t.doc),
                    t.memo,
                    any_managed(t.keys, t.kinds),
                );
                law_clear_gives_the_text_back(original, text, t.keys, t.kinds);
            }
        },
        Err(_) => {},
    }
}

} // verus!
