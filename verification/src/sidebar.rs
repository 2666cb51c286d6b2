//! The sidebar rows in Herdr's configuration: in, and out again.
use crate::own::Own;
use crate::plan::{
    child2, ensure_child, ensured, lemma_child_put, lemma_same_child, lemma_with_child,
    lemma_without_changed, tidied, tidy, EditError, Fault,
};
use crate::text::{lemma_texts_push, list_has, same, texts};
use crate::toml::{
    array_push, bool_item, child, document, editable, entries_of, entry, fitted, fresh_table, get,
    get_mut, insert, is_table, is_table_like, lemma_index_is, new_array, new_inline, node, nth,
    plain, plainly, pushed, put, remove, root, root_mut, string_item, string_node, table_like,
    whole, with_child, without, Body, Document, Node, Scalar,
};
use vstd::prelude::*;

verus! {

/// The colours of the sidebar marks: palette name and foreground colour.
pub struct SidebarSpec {
    pub colours: Vec<(String, String)>,
}

impl SidebarSpec {
    /// The names and colours as text.
    pub open spec fn pairs(&self) -> Seq<(Seq<char>, Seq<char>)> {
        self.colours@.map_values(|e: (String, String)| (e.0@, e.1@))
    }
}

/// The mark of one palette in a sidebar row.
pub open spec fn mark_node(name: Seq<char>, fg: Seq<char>) -> Node {
    Node::Inline(
        Body {
            implicit: false,
            style: plain(),
            entries: seq![
                entry("token"@, string_node("$sc_"@ + name)),
                entry("fg"@, string_node(fg)),
                entry("bold"@, Node::Value(Scalar::Bool(true), plain())),
            ],
        },
    )
}

/// The values of a row, each pushed after the other.
pub open spec fn row_items(items: Seq<Node>) -> Seq<Node> {
    Seq::new(items.len(), |i: int| pushed(items[i], i == 0))
}

/// What the first row of a sidebar kind shows.
pub open spec fn first_row(pairs: Seq<(Seq<char>, Seq<char>)>, kind: Seq<char>) -> Seq<Node> {
    seq![string_node("state_icon"@)] + pairs.map_values(
        |p: (Seq<char>, Seq<char>)| mark_node(p.0, p.1),
    ) + if kind == "agents"@ {
        seq![string_node("workspace"@), string_node("tab"@)]
    } else {
        seq![string_node("workspace"@)]
    }
}

/// What the second row of a sidebar kind shows.
pub open spec fn second_row(kind: Seq<char>) -> Seq<Node> {
    if kind == "agents"@ {
        seq![string_node("agent"@)]
    } else {
        seq![string_node("branch"@), string_node("git_status"@)]
    }
}

/// The rows of a sidebar kind.
pub open spec fn rows_node(pairs: Seq<(Seq<char>, Seq<char>)>, kind: Seq<char>) -> Node {
    Node::Array(
        row_items(
            seq![
                Node::Array(row_items(first_row(pairs, kind)), plain()),
                Node::Array(row_items(second_row(kind)), plain()),
            ],
        ),
        plain(),
    )
}

fn mark(name: &str, fg: &str) -> (r: toml_edit::Item)
    ensures
        node(r) == mark_node(name@, fg@),
        whole(r),
{
    proof {
        reveal_strlit("token");
        reveal_strlit("fg");
        reveal_strlit("bold");
        assert("token"@.len() == 5 && "fg"@.len() == 2 && "bold"@.len() == 4);
    }
    let mut it = new_inline();
    let token = "$sc_".to_owned().concat(name);
    insert(&mut it, "token", string_item(token.as_str()));
    proof {
        lemma_index_is(seq![], "token"@, 0);
        assert(entries_of(node(it)) =~= seq![entry("token"@, string_node("$sc_"@ + name@))]);
        lemma_index_is(entries_of(node(it)), "fg"@, 1);
    }
    insert(&mut it, "fg", string_item(fg));
    proof {
        lemma_index_is(entries_of(node(it)), "bold"@, 2);
    }
    insert(&mut it, "bold", bool_item(true));
    assert(entries_of(node(it)) =~= entries_of(mark_node(name@, fg@)));
    it
}

fn push(item: &mut toml_edit::Item, value: toml_edit::Item, Ghost(so_far): Ghost<Seq<Node>>)
    requires
        node(*old(item)) == Node::Array(row_items(so_far), plain()),
        plainly(node(value)),
        whole(*old(item)),
        whole(value),
    ensures
        whole(*final(item)),
        node(*final(item)) == Node::Array(row_items(so_far.push(node(value))), plain()),
{
    array_push(item, value);
    assert(row_items(so_far.push(node(value))) =~= row_items(so_far).push(
        pushed(node(value), so_far.len() == 0),
    ));
}

/// Builds the rows of a sidebar kind.
pub(crate) fn build_rows(spec: &SidebarSpec, kind: &str) -> (r: toml_edit::Item)
    ensures
        node(r) == rows_node(spec.pairs(), kind@),
        whole(r),
{
    let agents = crate::text::same(kind, "agents");
    let ghost pairs = spec.pairs();
    let ghost marks = pairs.map_values(|p: (Seq<char>, Seq<char>)| mark_node(p.0, p.1));

    let mut first = new_array();
    let ghost mut items: Seq<Node> = seq![];
    assert(row_items(items) =~= seq![]);
    push(&mut first, string_item("state_icon"), Ghost(items));
    proof {
        items = items.push(string_node("state_icon"@));
        assert(items =~= seq![string_node("state_icon"@)] + marks.take(0));
    }
    let mut i: usize = 0;
    while i < spec.colours.len()
        invariant
            i <= spec.colours@.len(),
            pairs == spec.pairs(),
            marks == pairs.map_values(|p: (Seq<char>, Seq<char>)| mark_node(p.0, p.1)),
            items == seq![string_node("state_icon"@)] + marks.take(i as int),
            node(first) == Node::Array(row_items(items), plain()),
            whole(first),
        decreases spec.colours@.len() - i,
    {
        let m = mark(spec.colours[i].0.as_str(), spec.colours[i].1.as_str());
        push(&mut first, m, Ghost(items));
        proof {
            items = items.push(marks[i as int]);
            assert(items =~= seq![string_node("state_icon"@)] + marks.take(i + 1));
        }
        i += 1;
    }
    assert(marks.take(i as int) =~= marks);
    push(&mut first, string_item("workspace"), Ghost(items));
    proof {
        items = items.push(string_node("workspace"@));
    }
    if agents {
        push(&mut first, string_item("tab"), Ghost(items));
        proof {
            items = items.push(string_node("tab"@));
        }
    }
    assert(items =~= first_row(pairs, kind@));

    let mut second = new_array();
    let ghost mut others: Seq<Node> = seq![];
    assert(row_items(others) =~= seq![]);
    if agents {
        push(&mut second, string_item("agent"), Ghost(others));
        proof {
            others = others.push(string_node("agent"@));
        }
    } else {
        push(&mut second, string_item("branch"), Ghost(others));
        proof {
            others = others.push(string_node("branch"@));
        }
        push(&mut second, string_item("git_status"), Ghost(others));
        proof {
            others = others.push(string_node("git_status"@));
        }
    }
    assert(others =~= second_row(kind@));

    let mut rows = new_array();
    let ghost none: Seq<Node> = seq![];
    assert(row_items(none) =~= seq![]);
    let ghost a = node(first);
    let ghost b = node(second);
    push(&mut rows, first, Ghost(none));
    push(&mut rows, second, Ghost(none.push(a)));
    assert(none.push(a).push(b) =~= seq![a, b]);
    rows
}

/// The root with `m` as the rows of a sidebar kind, the tables on the way made
/// where they are missing.
pub open spec fn rows_put(root: Node, kind: Seq<char>, m: Node) -> Result<Node, Fault> {
    let root1 = ensured(root, "ui"@, true);
    let ui = child(root1, "ui"@)->0;
    let ui1 = ensured(ui, "sidebar"@, true);
    let sidebar = child(ui1, "sidebar"@)->0;
    let sidebar1 = ensured(sidebar, kind, false);
    let table = child(sidebar1, kind)->0;
    if !(ui is Table) {
        Err(Fault::NotStandardTable("ui"@))
    } else if !(sidebar is Table) {
        Err(Fault::NotStandardTable("ui.sidebar"@))
    } else if !(table is Table) {
        Err(Fault::NotStandardTable("ui.sidebar."@ + kind))
    } else {
        Ok(
            with_child(
                root1,
                "ui"@,
                with_child(
                    ui1,
                    "sidebar"@,
                    with_child(sidebar1, kind, put(table, "rows"@, m)),
                ),
            ),
        )
    }
}

proof fn lemma_ensured(n: Node, key: Seq<char>, implicit: bool)
    requires
        table_like(n),
    ensures
        child(n, key) is Some ==> ensured(n, key, implicit) == n && with_child(
            n,
            key,
            child(n, key)->0,
        ) == n,
        child(n, key) is None ==> child(ensured(n, key, implicit), key) == Some(
            fitted(n, fresh_table(implicit)),
        ),
{
    if child(n, key) is Some {
        lemma_same_child(n, key);
    } else {
        lemma_child_put(n, key, fresh_table(implicit));
    }
}

fn put_rows(item: &mut toml_edit::Item, kind: &str, value: toml_edit::Item) -> (r: Result<
    (),
    EditError,
>)
    requires
        node(*old(item)) is Table,
        node(value) is Array,
        whole(value),
        whole(*old(item)),
    ensures
        whole(*final(item)),
        match (r, rows_put(node(*old(item)), kind@, node(value))) {
            (Ok(_), Ok(root)) => node(*final(item)) == root,
            (Err(e), Err(f)) => e@ == f && node(*final(item)) == node(*old(item)),
            _ => false,
        },
        node(*final(item)) is Table,
{
    proof {
        lemma_ensured(node(*item), "ui"@, true);
    }
    ensure_child(item, "ui", true);
    match get_mut(item, "ui") {
        None => Err(EditError::NotStandardTable("ui".to_owned())),
        Some(ui) => {
            if !is_table(ui) {
                return Err(EditError::NotStandardTable("ui".to_owned()));
            }
            proof {
                lemma_ensured(node(*ui), "sidebar"@, true);
            }
            ensure_child(ui, "sidebar", true);
            match get_mut(ui, "sidebar") {
                None => Err(EditError::NotStandardTable("ui.sidebar".to_owned())),
                Some(sidebar) => {
                    if !is_table(sidebar) {
                        return Err(EditError::NotStandardTable("ui.sidebar".to_owned()));
                    }
                    proof {
                        lemma_ensured(node(*sidebar), kind@, false);
                    }
                    ensure_child(sidebar, kind, false);
                    match get_mut(sidebar, kind) {
                        None => Err(
                            EditError::NotStandardTable("ui.sidebar.".to_owned().concat(kind)),
                        ),
                        Some(table) => {
                            if !is_table(table) {
                                return Err(
                                    EditError::NotStandardTable(
                                        "ui.sidebar.".to_owned().concat(kind),
                                    ),
                                );
                            }
                            insert(table, "rows", value);
                            Ok(())
                        },
                    }
                },
            }
        },
    }
}

/// Whether the rows of a sidebar kind are there.
pub open spec fn has_rows(root: Node, kind: Seq<char>) -> bool {
    match child2(root, "ui"@, "sidebar"@) {
        Some(sidebar) => child2(sidebar, kind, "rows"@) is Some,
        None => false,
    }
}

/// Whether the user has set the rows of a sidebar kind: they are there, and are
/// not managed.
pub open spec fn user_rows(root: Node, kind: Seq<char>, managed: Seq<Seq<char>>) -> bool {
    has_rows(root, kind) && !managed.contains(kind)
}

/// The root with the rows of one sidebar kind, unless the user has set them.
pub open spec fn kind_applied(
    root: Node,
    pairs: Seq<(Seq<char>, Seq<char>)>,
    kind: Seq<char>,
    managed: Seq<Seq<char>>,
) -> Result<Node, Fault> {
    if user_rows(root, kind, managed) {
        Ok(root)
    } else {
        rows_put(root, kind, rows_node(pairs, kind))
    }
}

/// The root with the rows of both sidebar kinds, and the kinds that are then
/// managed.
pub open spec fn sidebar_applied(
    root: Node,
    pairs: Seq<(Seq<char>, Seq<char>)>,
    managed: Seq<Seq<char>>,
) -> Result<(Node, Seq<Seq<char>>), Fault> {
    match kind_applied(root, pairs, "agents"@, managed) {
        Err(f) => Err(f),
        Ok(root1) => match kind_applied(root1, pairs, "spaces"@, managed) {
            Err(f) => Err(f),
            Ok(root2) => {
                let kinds1 = if user_rows(root, "agents"@, managed) {
                    Seq::<Seq<char>>::empty()
                } else {
                    seq!["agents"@]
                };
                let kinds2 = if user_rows(root1, "spaces"@, managed) {
                    kinds1
                } else {
                    kinds1.push("spaces"@)
                };
                Ok((root2, kinds2))
            },
        },
    }
}

fn rows_are_there(item: &toml_edit::Item, kind: &str) -> (r: bool)
    ensures
        r == has_rows(node(*item), kind@),
{
    match get(item, "ui") {
        None => false,
        Some(ui) => match get(ui, "sidebar") {
            None => false,
            Some(sidebar) => match get(sidebar, kind) {
                None => false,
                Some(table) => get(table, "rows").is_some(),
            },
        },
    }
}

/// Writes the rows of one sidebar kind unless the user has set them; says
/// whether they are written.
fn apply_kind(
    item: &mut toml_edit::Item,
    spec: &SidebarSpec,
    kind: &str,
    managed: &Vec<String>,
) -> (r: Result<bool, EditError>)
    requires
        node(*old(item)) is Table,
        whole(*old(item)),
    ensures
        whole(*final(item)),
        match (r, kind_applied(node(*old(item)), spec.pairs(), kind@, texts(managed@))) {
            (Ok(written), Ok(root)) => node(*final(item)) == root && written == !user_rows(
                node(*old(item)),
                kind@,
                texts(managed@),
            ),
            (Err(e), Err(f)) => e@ == f && node(*final(item)) == node(*old(item)),
            _ => false,
        },
        node(*final(item)) is Table,
{
    if rows_are_there(item, kind) && !list_has(managed, kind) {
        return Ok(false);
    }
    let rows = build_rows(spec, kind);
    match put_rows(item, kind, rows) {
        Ok(_) => Ok(true),
        Err(e) => Err(e),
    }
}

/// Writes the sidebar rows of each kind that the user has not set. Returns the
/// kinds that are now managed.
pub fn apply_sidebar(
    doc: &mut toml_edit::DocumentMut,
    spec: &SidebarSpec,
    already_managed: &Vec<String>,
) -> (r: Result<Vec<String>, EditError>)
    requires
        editable(*old(doc)),
    ensures
        match (
            r,
            sidebar_applied(document(*old(doc)).root, spec.pairs(), texts(already_managed@)),
        ) {
            (Ok(kinds), Ok((root, want))) => texts(kinds@) == want && document(*final(doc)) == (
            Document { root, ..document(*old(doc)) }),
            (Err(e), Err(f)) => e@ == f,
            _ => false,
        },
        editable(*final(doc)),
{
    broadcast use lemma_texts_push;

    let item = root_mut(doc);
    let mut kinds: Vec<String> = Vec::new();
    assert(texts(kinds@) =~= Seq::<Seq<char>>::empty());
    match apply_kind(item, spec, "agents", already_managed) {
        Err(e) => return Err(e),
        Ok(written) => {
            if written {
                kinds.push("agents".to_owned());
                assert(texts(kinds@) =~= seq!["agents"@]);
            }
        },
    }
    match apply_kind(item, spec, "spaces", already_managed) {
        Err(e) => return Err(e),
        Ok(written) => {
            if written {
                kinds.push("spaces".to_owned());
            }
        },
    }
    Ok(kinds)
}

/// The root without the rows of one sidebar kind, and without its table where
/// that left the table empty and it is not the user's.
pub open spec fn kind_cleared(root: Node, kind: Seq<char>, own: Own) -> Node {
    let ui = child(root, "ui"@)->0;
    let sidebar = child(ui, "sidebar"@)->0;
    let table = child(sidebar, kind)->0;
    if child(root, "ui"@) is Some && child(ui, "sidebar"@) is Some && child(sidebar, kind) is Some
        && table_like(table) {
        let table1 = without(table, "rows"@);
        let sidebar1 = if entries_of(table1).len() == 0 && entries_of(table).len() > 0 && !own.kind(
            kind,
        ) {
            without(sidebar, kind)
        } else {
            with_child(sidebar, kind, table1)
        };
        with_child(root, "ui"@, with_child(ui, "sidebar"@, sidebar1))
    } else {
        root
    }
}

/// The root without the rows of each of the kinds.
pub open spec fn kinds_cleared(root: Node, kinds: Seq<Seq<char>>, own: Own) -> Node
    decreases kinds.len(),
{
    if kinds.len() == 0 {
        root
    } else {
        kind_cleared(kinds_cleared(root, kinds.drop_last(), own), kinds.last(), own)
    }
}

/// The root without the managed sidebar rows, and without the tables that this
/// left empty and that are not the user's.
pub open spec fn sidebar_cleared(root: Node, kinds: Seq<Seq<char>>, own: Own) -> Node {
    tidied(kinds_cleared(root, kinds, own), "ui"@, "sidebar"@, own.ui, own.sidebar)
}

fn clear_kind(item: &mut toml_edit::Item, kind: &str, own: Own)
    requires
        node(*old(item)) is Table,
        whole(*old(item)),
    ensures
        whole(*final(item)),
        node(*final(item)) == kind_cleared(node(*old(item)), kind@, own),
        node(*final(item)) is Table,
{
    proof {
        if child(node(*item), "ui"@) is Some {
            lemma_same_child(node(*item), "ui"@);
        }
    }
    match get_mut(item, "ui") {
        None => {},
        Some(ui) => {
            proof {
                if child(node(*ui), "sidebar"@) is Some {
                    lemma_same_child(node(*ui), "sidebar"@);
                }
            }
            match get_mut(ui, "sidebar") {
                None => {},
                Some(sidebar) => {
                    let ghost start = node(*sidebar);
                    let ghost mut left = start;
                    proof {
                        if child(start, kind@) is Some {
                            lemma_same_child(start, kind@);
                        }
                    }
                    let mut emptied = false;
                    match get_mut(sidebar, kind) {
                        None => {},
                        Some(table) => {
                            if is_table_like(table) {
                                let held = nth(table, 0).is_some();
                                remove(table, "rows");
                                emptied = held && nth(table, 0).is_none() && !own.has_kind(kind);
                            }
                            proof {
                                left = node(*table);
                            }
                        },
                    }
                    if emptied {
                        proof {
                            lemma_without_changed(start, kind@, left);
                            lemma_with_child(start, kind@, left);
                        }
                        remove(sidebar, kind);
                    }
                },
            }
        },
    }
}

/// Takes the managed sidebar rows out, and the tables that this leaves empty and
/// that are not the user's.
pub fn clear_sidebar(doc: &mut toml_edit::DocumentMut, managed: &Vec<String>, own: Own)
    requires
        editable(*old(doc)),
    ensures
        document(*final(doc)) == (Document {
            root: sidebar_cleared(document(*old(doc)).root, texts(managed@), own),
            ..document(*old(doc))
        }),
        editable(*final(doc)),
{
    let item = root_mut(doc);
    clear_kinds(item, managed, own);
    tidy(item, "ui", "sidebar", own.ui, own.sidebar);
}

fn clear_kinds(item: &mut toml_edit::Item, managed: &Vec<String>, own: Own)
    requires
        node(*old(item)) is Table,
        whole(*old(item)),
    ensures
        whole(*final(item)),
        node(*final(item)) == kinds_cleared(node(*old(item)), texts(managed@), own),
        node(*final(item)) is Table,
{
    let ghost start = node(*item);
    let mut i: usize = 0;
    assert(texts(managed@).take(0) =~= seq![]);
    while i < managed.len()
        invariant
            i <= managed@.len(),
            node(*item) == kinds_cleared(start, texts(managed@).take(i as int), own),
            node(*item) is Table,
            whole(*item),
        decreases managed@.len() - i,
    {
        assert(texts(managed@).take(i + 1).drop_last() =~= texts(managed@).take(i as int));
        clear_kind(item, managed[i].as_str(), own);
        i += 1;
    }
    assert(texts(managed@).take(i as int) =~= texts(managed@));
}

} // verus!
