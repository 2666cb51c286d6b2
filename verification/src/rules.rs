//! Edits of the plugin's own configuration: rules in, and out again, with
//! comments and layout kept.
use crate::config::{config_message, config_of_text, parse_plugin_config, ConfigError, ConfigFault};
use crate::config_laws::{law_reader_sees_lists, law_reader_sees_the_document};
use crate::plan::{lemma_child_put, lemma_same_child, lemma_with_child};
use crate::plan_laws::{lemma_index_push, lemma_index_update, lemma_sets_other};
use crate::text::{begins, cat, opt_str, same, starts_with, texts};
use crate::toml::{
    as_str, assign, assigned, child, document, document_text, editable, entries_of, fitted,
    fresh_table, get, get_mut, holds_key, index_of, insert, is_tables, lemma_index_is,
    lemma_index_of, new_table, new_tables, node, node_str, parse_document, put, root_mut,
    string_item, string_node, tables_get, tables_get_mut, tables_len, tables_of, tables_push,
    tables_remove, toml_parse, toml_text, whole, with_child, Body, Document, Entry, Node,
};
use crate::tree::{tree_field, tree_of, tree_str, tree_tables, Tree};
use vstd::prelude::*;

verus! {

/// The root with a list of tables under `key`; an empty one takes the place of
/// anything else.
pub open spec fn with_list(root: Node, key: Seq<char>) -> Node {
    match child(root, key) {
        Some(Node::Tables(_)) => root,
        _ => put(root, key, Node::Tables(seq![])),
    }
}

/// The tables of the list under `key`.
pub open spec fn list_at(root: Node, key: Seq<char>) -> Seq<Body> {
    match child(root, key) {
        Some(n) => tables_of(n),
        None => seq![],
    }
}

/// The text that a table of a list holds under `field`.
pub open spec fn body_str(b: Body, field: Seq<char>) -> Option<Seq<char>> {
    match child(Node::Table(b), field) {
        Some(n) => node_str(n),
        None => None,
    }
}

/// The first table that holds `key` under `field`, or the length.
pub open spec fn rule_at(list: Seq<Body>, field: Seq<char>, key: Seq<char>) -> int
    decreases list.len(),
{
    if list.len() == 0 {
        0
    } else if body_str(list[0], field) == Some(key) {
        0
    } else {
        1 + rule_at(list.skip(1), field, key)
    }
}

proof fn lemma_rule_at(list: Seq<Body>, field: Seq<char>, key: Seq<char>, i: int)
    requires
        0 <= i <= list.len(),
        i < list.len() ==> body_str(list[i], field) == Some(key),
        forall|j: int| 0 <= j < i ==> body_str(#[trigger] list[j], field) != Some(key),
    ensures
        rule_at(list, field, key) == i,
    decreases list.len(),
{
    if i > 0 {
        assert(body_str(list[0], field) != Some(key));
        assert forall|j: int| 0 <= j < i - 1 implies body_str(#[trigger] list.skip(1)[j], field)
            != Some(key) by {
            assert(body_str(list[j + 1], field) != Some(key));
        }
        lemma_rule_at(list.skip(1), field, key, i - 1);
    }
}

proof fn lemma_rule_at_is(list: Seq<Body>, field: Seq<char>, key: Seq<char>)
    ensures
        0 <= rule_at(list, field, key) <= list.len(),
        rule_at(list, field, key) < list.len() ==> body_str(
            list[rule_at(list, field, key)],
            field,
        ) == Some(key),
        forall|j: int|
            0 <= j < rule_at(list, field, key) ==> body_str(#[trigger] list[j], field) != Some(
                key,
            ),
    decreases list.len(),
{
    if list.len() > 0 && body_str(list[0], field) != Some(key) {
        let rest = list.skip(1);
        lemma_rule_at_is(rest, field, key);
        assert forall|j: int| 0 <= j < rule_at(list, field, key) implies body_str(
            #[trigger] list[j],
            field,
        ) != Some(key) by {
            if j > 0 {
                assert(body_str(rest[j - 1], field) != Some(key));
            }
        }
    }
}

/// A new rule, with a note where there is one.
pub open spec fn new_rule(
    field: Seq<char>,
    key: Seq<char>,
    palette: Seq<char>,
    note: Seq<char>,
) -> Node {
    let t = assigned(
        assigned(fresh_table(false), field, string_node(key)),
        "palette"@,
        string_node(palette),
    );
    if note.len() > 0 {
        assigned(t, "note"@, string_node(note))
    } else {
        t
    }
}

/// The list with a rule that gives `palette` to `key`: the first that is there
/// for it, changed, else a new one at the end.
pub open spec fn rule_set(
    list: Seq<Body>,
    field: Seq<char>,
    key: Seq<char>,
    palette: Seq<char>,
    note: Seq<char>,
) -> Seq<Body> {
    let i = rule_at(list, field, key);
    if i < list.len() {
        list.update(
            i,
            assigned(Node::Table(list[i]), "palette"@, string_node(palette))->Table_0,
        )
    } else {
        list.push(new_rule(field, key, palette, note)->Table_0)
    }
}

/// The root with a rule set in the list under `list_key`.
pub open spec fn upserted(
    root: Node,
    list_key: Seq<char>,
    field: Seq<char>,
    key: Seq<char>,
    palette: Seq<char>,
    note: Seq<char>,
) -> Node {
    let root1 = with_list(root, list_key);
    with_child(
        root1,
        list_key,
        Node::Tables(rule_set(list_at(root1, list_key), field, key, palette, note)),
    )
}

/// The root with a workspace rule set.
pub open spec fn with_rule(
    root: Node,
    field: Seq<char>,
    key: Seq<char>,
    palette: Seq<char>,
) -> Node {
    upserted(root, "workspaces"@, field, key, palette, seq![])
}

/// The root with an agent rule set.
pub open spec fn with_agent_rule(
    root: Node,
    session: Seq<char>,
    palette: Seq<char>,
    note: Seq<char>,
) -> Node {
    upserted(root, "agents"@, "session"@, session, palette, note)
}

fn ensure_list(item: &mut toml_edit::Item, key: &str)
    requires
        node(*old(item)) is Table,
        whole(*old(item)),
    ensures
        whole(*final(item)),
        node(*final(item)) == with_list(node(*old(item)), key@),
        node(*final(item)) is Table,
        child(node(*final(item)), key@) is Some,
        child(node(*final(item)), key@)->0 is Tables,
{
    let there = match get(item, key) {
        Some(x) => is_tables(x),
        None => false,
    };
    proof {
        lemma_child_put(node(*item), key@, Node::Tables(seq![]));
    }
    if !there {
        insert(item, key, new_tables());
    }
}

fn find_rule(item: &toml_edit::Item, field: &str, key: &str) -> (r: usize)
    requires
        node(*item) is Tables,
        whole(*item),
    ensures
        r == rule_at(tables_of(node(*item)), field@, key@),
        r <= tables_of(node(*item)).len(),
{
    let len: usize = tables_len(item);
    let ghost list = tables_of(node(*item));
    let mut i: usize = 0;
    while i < len
        invariant
            list == tables_of(node(*item)),
            whole(*item),
            len == list.len(),
            i <= len,
            forall|j: int| 0 <= j < i ==> body_str(#[trigger] list[j], field@) != Some(key@),
        decreases len - i,
    {
        if holds_text(tables_get(item, i), field, key) {
            proof {
                lemma_rule_at(list, field@, key@, i as int);
            }
            return i;
        }
        i += 1;
    }
    proof {
        lemma_rule_at(list, field@, key@, i as int);
    }
    i
}

fn holds_text(item: &toml_edit::Item, field: &str, key: &str) -> (r: bool)
    ensures
        r == (match child(node(*item), field@) {
            Some(n) => node_str(n),
            None => None,
        } == Some(key@)),
{
    match get(item, field) {
        None => false,
        Some(x) => match as_str(x) {
            Some(s) => same(s, key),
            None => false,
        },
    }
}

proof fn lemma_assigned(n: Node, key: Seq<char>, m: Node)
    requires
        n is Table,
    ensures
        assigned(n, key, m) is Table,
        child(assigned(n, key, m), key) == Some(m),
{
    if holds_key(entries_of(n), key) {
        lemma_with_child(n, key, m);
    } else {
        lemma_child_put(n, key, m);
    }
}

fn make_rule(field: &str, key: &str, palette: &str, note: &str) -> (r: toml_edit::Item)
    ensures
        node(r) == new_rule(field@, key@, palette@, note@),
        node(r) is Table,
        whole(r),
{
    let mut t = new_table();
    proof {
        let n0 = fresh_table(false);
        let n1 = assigned(n0, field@, string_node(key@));
        let n2 = assigned(n1, "palette"@, string_node(palette@));
        lemma_assigned(n0, field@, string_node(key@));
        lemma_assigned(n1, "palette"@, string_node(palette@));
        lemma_assigned(n2, "note"@, string_node(note@));
    }
    assign(&mut t, field, string_item(key));
    assign(&mut t, "palette", string_item(palette));
    if !note.is_empty() {
        assign(&mut t, "note", string_item(note));
    }
    t
}

fn set_in_list(item: &mut toml_edit::Item, field: &str, key: &str, palette: &str, note: &str)
    requires
        node(*old(item)) is Tables,
        whole(*old(item)),
    ensures
        whole(*final(item)),
        node(*final(item)) == Node::Tables(
            rule_set(tables_of(node(*old(item))), field@, key@, palette@, note@),
        ),
{
    let i: usize = find_rule(item, field, key);
    let len: usize = tables_len(item);
    if i < len {
        let ghost list = tables_of(node(*item));
        let t = tables_get_mut(item, i);
        proof {
            lemma_assigned(Node::Table(list[i as int]), "palette"@, string_node(palette@));
        }
        assign(t, "palette", string_item(palette));
    } else {
        tables_push(item, make_rule(field, key, palette, note));
    }
}

fn upsert(
    doc: &mut toml_edit::DocumentMut,
    list_key: &str,
    field: &str,
    key: &str,
    palette: &str,
    note: &str,
)
    requires
        editable(*old(doc)),
    ensures
        editable(*final(doc)),
        document(*final(doc)) == (Document {
            root: upserted(
                document(*old(doc)).root,
                list_key@,
                field@,
                key@,
                palette@,
                note@,
            ),
            ..document(*old(doc))
        }),
{
    let item = root_mut(doc);
    ensure_list(item, list_key);
    let list = get_mut(item, list_key);
    match list {
        Some(x) => set_in_list(x, field, key, palette, note),
        None => {},
    }
}

/// Gives a palette to the workspaces with that label or path. A rule that is
/// there is changed in its place.
pub fn upsert_rule(doc: &mut toml_edit::DocumentMut, field: &str, key: &str, palette: &str)
    requires
        editable(*old(doc)),
    ensures
        editable(*final(doc)),
        document(*final(doc)) == (Document {
            root: with_rule(document(*old(doc)).root, field@, key@, palette@),
            ..document(*old(doc))
        }),
{
    proof {
        reveal_strlit("");
        assert(""@ =~= seq![]);
    }
    upsert(doc, "workspaces", field, key, palette, "")
}

/// Gives a palette to an agent session, with a note on a new rule.
pub fn upsert_agent(doc: &mut toml_edit::DocumentMut, session: &str, palette: &str, note: &str)
    requires
        editable(*old(doc)),
    ensures
        editable(*final(doc)),
        document(*final(doc)) == (Document {
            root: with_agent_rule(document(*old(doc)).root, session@, palette@, note@),
            ..document(*old(doc))
        }),
{
    upsert(doc, "agents", "session", session, palette, note)
}

// --- removal ---------------------------------------------------------------------

/// Whether a table holds `key` under one of the fields.
pub open spec fn names_key(b: Body, fields: Seq<Seq<char>>, key: Seq<char>) -> bool {
    exists|i: int| 0 <= i < fields.len() && body_str(b, #[trigger] fields[i]) == Some(key)
}

/// The tables that do not hold `key` under any of the fields, in their order.
pub open spec fn without_rules(
    list: Seq<Body>,
    fields: Seq<Seq<char>>,
    key: Seq<char>,
) -> Seq<Body>
    decreases list.len(),
{
    if list.len() == 0 {
        seq![]
    } else {
        let rest = without_rules(list.drop_last(), fields, key);
        if names_key(list.last(), fields, key) {
            rest
        } else {
            rest.push(list.last())
        }
    }
}

/// The root without the rules for `key` in the list under `list_key`.
pub open spec fn rules_removed(
    root: Node,
    list_key: Seq<char>,
    fields: Seq<Seq<char>>,
    key: Seq<char>,
) -> Node {
    match child(root, list_key) {
        Some(Node::Tables(list)) => with_child(
            root,
            list_key,
            Node::Tables(without_rules(list, fields, key)),
        ),
        _ => root,
    }
}

/// The root without the workspace rules with that label or path.
pub open spec fn without_rule(root: Node, key: Seq<char>) -> Node {
    rules_removed(root, "workspaces"@, rule_fields(), key)
}

/// The root without the rules for an agent session.
pub open spec fn without_agent_rule(root: Node, session: Seq<char>) -> Node {
    rules_removed(root, "agents"@, seq!["session"@], session)
}

/// How many rules there are for `key` in the list under `list_key`.
pub open spec fn rule_count(
    root: Node,
    list_key: Seq<char>,
    fields: Seq<Seq<char>>,
    key: Seq<char>,
) -> int {
    let list = list_at(root, list_key);
    list.len() - without_rules(list, fields, key).len()
}

fn holds_any(item: &toml_edit::Item, fields: &Vec<String>, key: &str) -> (r: bool)
    requires
        node(*item) is Table,
    ensures
        r == names_key(node(*item)->Table_0, texts(fields@), key@),
{
    let mut i: usize = 0;
    let ghost all = texts(fields@);
    while i < fields.len()
        invariant
            all == texts(fields@),
            node(*item) is Table,
            i <= fields@.len(),
            forall|j: int|
                0 <= j < i ==> body_str(node(*item)->Table_0, #[trigger] all[j]) != Some(key@),
        decreases fields@.len() - i,
    {
        assert(all[i as int] == fields@[i as int]@);
        if holds_text(item, fields[i].as_str(), key) {
            assert(body_str(node(*item)->Table_0, all[i as int]) == Some(key@));
            return true;
        }
        i += 1;
    }
    false
}

fn remove_in_list(item: &mut toml_edit::Item, fields: &Vec<String>, key: &str) -> (r: usize)
    requires
        node(*old(item)) is Tables,
        whole(*old(item)),
    ensures
        whole(*final(item)),
        node(*final(item)) == Node::Tables(
            without_rules(tables_of(node(*old(item))), texts(fields@), key@),
        ),
        r == tables_of(node(*old(item))).len() - without_rules(
            tables_of(node(*old(item))),
            texts(fields@),
            key@,
        ).len(),
{
    let len: usize = tables_len(item);
    let ghost list = tables_of(node(*item));
    let ghost fs = texts(fields@);
    let mut at: usize = 0;
    let mut seen: usize = 0;
    assert(list.skip(0) =~= list);
    assert(without_rules(list.take(0), fs, key@) + list.skip(0) =~= list);
    while seen < len
        invariant
            list == tables_of(node(*old(item))),
            fs == texts(fields@),
            node(*item) is Tables,
            whole(*item),
            len == list.len(),
            at <= seen <= len,
            at == without_rules(list.take(seen as int), fs, key@).len(),
            tables_of(node(*item)) == without_rules(list.take(seen as int), fs, key@) + list.skip(
                seen as int,
            ),
        decreases len - seen,
    {
        let ghost kept = without_rules(list.take(seen as int), fs, key@);
        proof {
            assert(list.take(seen + 1).drop_last() =~= list.take(seen as int));
            assert(list.take(seen + 1).last() == list[seen as int]);
            assert(tables_of(node(*item))[at as int] == list[seen as int]);
        }
        if holds_any(tables_get(item, at), fields, key) {
            tables_remove(item, at);
            assert((kept + list.skip(seen as int)).remove(at as int) =~= kept + list.skip(seen + 1));
        } else {
            assert(kept + list.skip(seen as int) =~= kept.push(list[seen as int]) + list.skip(
                seen + 1,
            ));
            at += 1;
        }
        seen += 1;
    }
    assert(list.take(seen as int) =~= list);
    assert(tables_of(node(*item)) =~= without_rules(list, fs, key@));
    len - at
}

fn remove_from(
    doc: &mut toml_edit::DocumentMut,
    list_key: &str,
    fields: &Vec<String>,
    key: &str,
) -> (r: usize)
    requires
        editable(*old(doc)),
    ensures
        editable(*final(doc)),
        document(*final(doc)) == (Document {
            root: rules_removed(document(*old(doc)).root, list_key@, texts(fields@), key@),
            ..document(*old(doc))
        }),
        r == rule_count(document(*old(doc)).root, list_key@, texts(fields@), key@),
{
    let item = root_mut(doc);
    let there = match get(item, list_key) {
        Some(x) => is_tables(x),
        None => false,
    };
    if !there {
        return 0;
    }
    let list = get_mut(item, list_key);
    match list {
        Some(x) => remove_in_list(x, fields, key),
        None => 0,
    }
}

/// The fields by which a workspace rule is named.
pub open spec fn rule_fields() -> Seq<Seq<char>> {
    seq!["label"@, "path"@]
}

/// Takes the rules with that label or path out. Returns how many there were.
pub fn remove_rule(doc: &mut toml_edit::DocumentMut, key: &str) -> (r: usize)
    requires
        editable(*old(doc)),
    ensures
        editable(*final(doc)),
        document(*final(doc)) == (Document {
            root: without_rule(document(*old(doc)).root, key@),
            ..document(*old(doc))
        }),
        r == rule_count(document(*old(doc)).root, "workspaces"@, rule_fields(), key@),
{
    let fields: Vec<String> = vec!["label".to_owned(), "path".to_owned()];
    assert(texts(fields@) =~= rule_fields());
    remove_from(doc, "workspaces", &fields, key)
}

/// Takes the rules for an agent session out. Returns how many there were.
pub fn remove_agent(doc: &mut toml_edit::DocumentMut, session: &str) -> (r: usize)
    requires
        editable(*old(doc)),
    ensures
        editable(*final(doc)),
        document(*final(doc)) == (Document {
            root: without_agent_rule(document(*old(doc)).root, session@),
            ..document(*old(doc))
        }),
        r == rule_count(document(*old(doc)).root, "agents"@, seq!["session"@], session@),
{
    let fields: Vec<String> = vec!["session".to_owned()];
    assert(texts(fields@) =~= seq!["session"@]);
    remove_from(doc, "agents", &fields, session)
}

// --- edits of a text -------------------------------------------------------------

/// Why an edit is not written.
#[derive(Debug)]
pub enum RuleError {
    /// The configuration is not TOML, for the reason given.
    Parse(String),
    /// The result would be refused.
    Invalid(ConfigError),
}

/// What a [`RuleError`] says.
pub enum RuleFault {
    Parse(Seq<char>),
    Invalid(ConfigFault),
}

/// The message for the user.
pub open spec fn rule_message(f: RuleFault) -> Seq<char> {
    match f {
        RuleFault::Parse(e) => e,
        RuleFault::Invalid(c) => "refusing to write an invalid config: "@ + config_message(c),
    }
}

impl RuleError {
    pub open spec fn view(&self) -> RuleFault {
        match self {
            RuleError::Parse(e) => RuleFault::Parse(e@),
            RuleError::Invalid(c) => RuleFault::Invalid(c@),
        }
    }

    /// The message for the user.
    pub fn message(&self) -> (r: String)
        ensures
            r@ == rule_message(self@),
    {
        match self {
            RuleError::Parse(e) => e.clone(),
            RuleError::Invalid(c) => cat(
                "refusing to write an invalid config: ",
                c.message().as_str(),
            ),
        }
    }
}

/// The text of an edited configuration, which is written only where it is one
/// that would be accepted.
pub open spec fn checked(doc: Document) -> Result<Seq<char>, RuleFault> {
    match config_of_text(toml_text(doc)) {
        Ok(_) => Ok(toml_text(doc)),
        Err(f) => Err(RuleFault::Invalid(f)),
    }
}

fn check(doc: &toml_edit::DocumentMut) -> (r: Result<String, RuleError>)
    requires
        editable(*doc),
    ensures
        match (r, checked(document(*doc))) {
            (Ok(text), Ok(want)) => text@ == want,
            (Err(e), Err(f)) => e@ == f,
            _ => false,
        },
{
    let text = document_text(doc);
    match parse_plugin_config(text.as_str()) {
        Ok(_) => Ok(text),
        Err(e) => Err(RuleError::Invalid(e)),
    }
}

/// A configuration with a rule set in it.
pub open spec fn text_with_rule(
    text: Seq<char>,
    list_key: Seq<char>,
    field: Seq<char>,
    key: Seq<char>,
    palette: Seq<char>,
    note: Seq<char>,
) -> Result<Seq<char>, RuleFault> {
    match toml_parse(text) {
        Err(e) => Err(RuleFault::Parse(e)),
        Ok(doc) => checked(
            Document { root: upserted(doc.root, list_key, field, key, palette, note), ..doc },
        ),
    }
}

/// A configuration with a workspace rule set in it.
pub open spec fn text_with_workspace_rule(
    text: Seq<char>,
    field: Seq<char>,
    key: Seq<char>,
    palette: Seq<char>,
) -> Result<Seq<char>, RuleFault> {
    text_with_rule(text, "workspaces"@, field, key, palette, seq![])
}

/// A configuration with an agent rule set in it.
pub open spec fn text_with_agent_rule(
    text: Seq<char>,
    session: Seq<char>,
    palette: Seq<char>,
    note: Seq<char>,
) -> Result<Seq<char>, RuleFault> {
    text_with_rule(text, "agents"@, "session"@, session, palette, note)
}

/// Sets a workspace rule in the text of a configuration.
pub fn set_rule(text: &str, field: &str, key: &str, palette: &str) -> (r: Result<
    String,
    RuleError,
>)
    ensures
        match (r, text_with_workspace_rule(text@, field@, key@, palette@)) {
            (Ok(new), Ok(want)) => new@ == want && config_of_text(new@) is Ok,
            (Err(e), Err(f)) => e@ == f,
            _ => false,
        },
{
    match parse_document(text) {
        Err(e) => Err(RuleError::Parse(e)),
        Ok(mut doc) => {
            upsert_rule(&mut doc, field, key, palette);
            check(&doc)
        },
    }
}

/// Sets an agent rule in the text of a configuration.
pub fn set_agent_rule(text: &str, session: &str, palette: &str, note: &str) -> (r: Result<
    String,
    RuleError,
>)
    ensures
        match (r, text_with_agent_rule(text@, session@, palette@, note@)) {
            (Ok(new), Ok(want)) => new@ == want && config_of_text(new@) is Ok,
            (Err(e), Err(f)) => e@ == f,
            _ => false,
        },
{
    match parse_document(text) {
        Err(e) => Err(RuleError::Parse(e)),
        Ok(mut doc) => {
            upsert_agent(&mut doc, session, palette, note);
            check(&doc)
        },
    }
}

/// A configuration without the rules for a key, and how many there were.
pub open spec fn text_without_rules(
    text: Seq<char>,
    list_key: Seq<char>,
    fields: Seq<Seq<char>>,
    key: Seq<char>,
) -> Result<(Seq<char>, int), RuleFault> {
    match toml_parse(text) {
        Err(e) => Err(RuleFault::Parse(e)),
        Ok(doc) => match checked(
            Document { root: rules_removed(doc.root, list_key, fields, key), ..doc },
        ) {
            Err(f) => Err(f),
            Ok(new) => Ok((new, rule_count(doc.root, list_key, fields, key))),
        },
    }
}

/// A configuration without the workspace rules for a key, and how many there were.
pub open spec fn text_without_workspace_rule(text: Seq<char>, key: Seq<char>) -> Result<
    (Seq<char>, int),
    RuleFault,
> {
    text_without_rules(text, "workspaces"@, rule_fields(), key)
}

/// A configuration without the rules for an agent session, and how many there were.
pub open spec fn text_without_agent_rule(text: Seq<char>, session: Seq<char>) -> Result<
    (Seq<char>, int),
    RuleFault,
> {
    text_without_rules(text, "agents"@, seq!["session"@], session)
}

/// Takes the rules with that label or path out of the text of a configuration.
pub fn unset_rule(text: &str, key: &str) -> (r: Result<(String, usize), RuleError>)
    ensures
        match (r, text_without_workspace_rule(text@, key@)) {
            (Ok((new, n)), Ok((want, count))) => new@ == want && n == count && config_of_text(
                new@,
            ) is Ok,
            (Err(e), Err(f)) => e@ == f,
            _ => false,
        },
{
    match parse_document(text) {
        Err(e) => Err(RuleError::Parse(e)),
        Ok(mut doc) => {
            let n: usize = remove_rule(&mut doc, key);
            match check(&doc) {
                Ok(new) => Ok((new, n)),
                Err(e) => Err(e),
            }
        },
    }
}

/// Takes the rules for an agent session out of the text of a configuration.
pub fn unset_agent_rule(text: &str, session: &str) -> (r: Result<(String, usize), RuleError>)
    ensures
        match (r, text_without_agent_rule(text@, session@)) {
            (Ok((new, n)), Ok((want, count))) => new@ == want && n == count && config_of_text(
                new@,
            ) is Ok,
            (Err(e), Err(f)) => e@ == f,
            _ => false,
        },
{
    match parse_document(text) {
        Err(e) => Err(RuleError::Parse(e)),
        Ok(mut doc) => {
            let n: usize = remove_agent(&mut doc, session);
            match check(&doc) {
                Ok(new) => Ok((new, n)),
                Err(e) => Err(e),
            }
        },
    }
}

/// The field of a workspace rule that a target goes to.
pub open spec fn target_field(target: Seq<char>) -> Seq<char> {
    if begins(target, "/"@) || begins(target, "~"@) {
        "path"@
    } else {
        "label"@
    }
}

/// The field and the key of a rule for a target: a path as it is, else a label,
/// which is that of the workspace where the target names one.
pub open spec fn target_of(target: Seq<char>, found: Option<Seq<char>>) -> (Seq<char>, Seq<char>) {
    if target_field(target) == "label"@ && found is Some {
        ("label"@, found->0)
    } else {
        (target_field(target), target)
    }
}

/// The field and the key of a rule for a target: a path as it is, else a label,
/// which is that of the workspace where the target names one.
pub fn rule_target(target: &str, found: Option<&str>) -> (r: (String, String))
    ensures
        (r.0@, r.1@) == target_of(target@, opt_str(found)),
{
    proof {
        reveal_strlit("path");
        reveal_strlit("label");
        assert("path"@.len() == 4 && "label"@.len() == 5);
    }
    if is_path(target) {
        ("path".to_owned(), target.to_owned())
    } else {
        (
            "label".to_owned(),
            match found {
                Some(label) => label.to_owned(),
                None => target.to_owned(),
            },
        )
    }
}

/// Whether a target of a rule is a path.
pub fn is_path(target: &str) -> (r: bool)
    ensures
        r == (begins(target@, "/"@) || begins(target@, "~"@)),
{
    starts_with(target, "/") || starts_with(target, "~")
}

// --- laws ------------------------------------------------------------------------

proof fn lemma_assigned_other(n: Node, key: Seq<char>, m: Node, other: Seq<char>)
    requires
        n is Table,
        key != other,
    ensures
        child(assigned(n, key, m), other) == child(n, other),
{
    let e = entries_of(n);
    lemma_index_of(e, key);
    lemma_index_of(e, other);
    let f = entries_of(assigned(n, key, m));
    let i = index_of(e, other);
    if holds_key(e, key) {
        lemma_index_is(f, other, i);
    } else if i < e.len() {
        lemma_index_is(f, other, i);
    } else {
        lemma_index_is(f, other, f.len() as int);
    }
}

proof fn lemma_assigned_twice(n: Node, key: Seq<char>, m: Node, w: Node)
    requires
        n is Table,
    ensures
        assigned(assigned(n, key, m), key, w) == assigned(n, key, w),
{
    let e = entries_of(n);
    lemma_index_of(e, key);
    let a = assigned(n, key, m);
    let f = entries_of(a);
    let i = index_of(e, key);
    lemma_assigned(n, key, m);
    lemma_index_is(f, key, i);
    assert(entries_of(assigned(a, key, w)) =~= entries_of(assigned(n, key, w)));
}

proof fn lemma_new_rule(
    field: Seq<char>,
    key: Seq<char>,
    palette: Seq<char>,
    note: Seq<char>,
    later: Seq<char>,
)
    requires
        field != "palette"@,
        field != "note"@,
    ensures
        new_rule(field, key, palette, note) is Table,
        child(new_rule(field, key, palette, note), field) == Some(string_node(key)),
        assigned(new_rule(field, key, palette, note), "palette"@, string_node(later)) == new_rule(
            field,
            key,
            later,
            note,
        ),
{
    reveal_strlit("palette");
    reveal_strlit("note");
    assert("palette"@.len() == 7 && "note"@.len() == 4);
    let n0 = fresh_table(false);
    let n1 = assigned(n0, field, string_node(key));
    let n2 = assigned(n1, "palette"@, string_node(palette));
    let l2 = assigned(n1, "palette"@, string_node(later));
    lemma_assigned(n0, field, string_node(key));
    lemma_assigned(n1, "palette"@, string_node(palette));
    lemma_assigned(n1, "palette"@, string_node(later));
    lemma_assigned_other(n1, "palette"@, string_node(palette), field);
    lemma_assigned_twice(n1, "palette"@, string_node(palette), string_node(later));
    if note.len() > 0 {
        let n3 = assigned(n2, "note"@, string_node(note));
        lemma_assigned(n2, "note"@, string_node(note));
        lemma_assigned_other(n2, "note"@, string_node(note), field);
        lemma_assigned_other(n2, "note"@, string_node(note), "palette"@);
        // field, palette and note stand in this order in either table
        lemma_index_of(entries_of(n0), field);
        lemma_index_of(entries_of(n1), "palette"@);
        lemma_index_of(entries_of(n1), "note"@);
        lemma_index_of(entries_of(n2), "note"@);
        lemma_index_of(entries_of(l2), "note"@);
        lemma_index_of(entries_of(n3), "palette"@);
        assert(entries_of(assigned(n3, "palette"@, string_node(later))) =~= entries_of(
            assigned(l2, "note"@, string_node(note)),
        ));
    }
}

proof fn lemma_with_list(root: Node, key: Seq<char>)
    requires
        root is Table,
    ensures
        with_list(root, key) is Table,
        child(with_list(root, key), key) is Some,
        child(with_list(root, key), key)->0 is Tables,
{
    lemma_child_put(root, key, Node::Tables(seq![]));
}

proof fn lemma_with_child_twice(n: Node, key: Seq<char>, m: Node, w: Node)
    requires
        child(n, key) is Some,
    ensures
        with_child(with_child(n, key, m), key, w) == with_child(n, key, w),
{
    lemma_with_child(n, key, m);
    let e = entries_of(n);
    let i = index_of(e, key);
    lemma_index_of(e, key);
    let f = entries_of(with_child(n, key, m));
    lemma_index_is(f, key, i);
    assert(f.update(i, Entry { node: w, ..f[i] }) =~= e.update(i, Entry { node: w, ..e[i] }));
}

/// The later of two settings of a rule counts; setting the same twice is setting
/// it once.
pub proof fn law_later_setting_counts(
    root: Node,
    list_key: Seq<char>,
    field: Seq<char>,
    key: Seq<char>,
    palette: Seq<char>,
    later: Seq<char>,
    note: Seq<char>,
)
    requires
        root is Table,
        field != "palette"@,
        field != "note"@,
    ensures
        upserted(
            upserted(root, list_key, field, key, palette, note),
            list_key,
            field,
            key,
            later,
            note,
        ) == upserted(root, list_key, field, key, later, note),
{
    let root1 = with_list(root, list_key);
    let l0 = list_at(root1, list_key);
    let l1 = rule_set(l0, field, key, palette, note);
    let root2 = upserted(root, list_key, field, key, palette, note);
    lemma_with_list(root, list_key);
    lemma_with_child(root1, list_key, Node::Tables(l1));
    assert(with_list(root2, list_key) == root2);
    assert(list_at(root2, list_key) == l1);
    lemma_rule_at_is(l0, field, key);
    let i = rule_at(l0, field, key);
    if i < l0.len() {
        let t = Node::Table(l0[i]);
        lemma_assigned(t, "palette"@, string_node(palette));
        lemma_assigned(t, "palette"@, string_node(later));
        lemma_assigned_other(t, "palette"@, string_node(palette), field);
        lemma_assigned_twice(t, "palette"@, string_node(palette), string_node(later));
        assert(Node::Table(l1[i]) == assigned(t, "palette"@, string_node(palette)));
        assert forall|j: int| 0 <= j < i implies body_str(#[trigger] l1[j], field) != Some(key) by {
            assert(l1[j] == l0[j]);
        }
        lemma_rule_at(l1, field, key, i);
        assert(rule_set(l1, field, key, later, note) =~= rule_set(l0, field, key, later, note));
    } else {
        lemma_new_rule(field, key, palette, note, later);
        let new = new_rule(field, key, palette, note);
        assert(Node::Table(l1[i]) == new);
        assert forall|j: int| 0 <= j < i implies body_str(#[trigger] l1[j], field) != Some(key) by {
            assert(l1[j] == l0[j]);
        }
        lemma_rule_at(l1, field, key, i);
        assert(rule_set(l1, field, key, later, note) =~= rule_set(l0, field, key, later, note));
    }
    lemma_with_child_twice(
        root1,
        list_key,
        Node::Tables(l1),
        Node::Tables(rule_set(l0, field, key, later, note)),
    );
}

proof fn lemma_none_removed(list: Seq<Body>, fields: Seq<Seq<char>>, key: Seq<char>)
    requires
        forall|j: int| 0 <= j < list.len() ==> !names_key(#[trigger] list[j], fields, key),
    ensures
        without_rules(list, fields, key) == list,
    decreases list.len(),
{
    if list.len() > 0 {
        assert forall|j: int| 0 <= j < list.drop_last().len() implies !names_key(
            #[trigger] list.drop_last()[j],
            fields,
            key,
        ) by {
            assert(list.drop_last()[j] == list[j]);
        }
        lemma_none_removed(list.drop_last(), fields, key);
        assert(list[list.len() - 1] == list.last());
        assert(list.drop_last().push(list.last()) =~= list);
    } else {
        assert(without_rules(list, fields, key) =~= list);
    }
}

/// Taking a rule out undoes setting it, where there was a list without a rule
/// for that key.
pub proof fn law_unset_undoes_set(
    root: Node,
    list_key: Seq<char>,
    fields: Seq<Seq<char>>,
    field: Seq<char>,
    key: Seq<char>,
    palette: Seq<char>,
    note: Seq<char>,
)
    requires
        root is Table,
        child(root, list_key) is Some,
        child(root, list_key)->0 is Tables,
        fields.contains(field),
        field != "palette"@,
        field != "note"@,
        forall|j: int|
            0 <= j < list_at(root, list_key).len() ==> !names_key(
                #[trigger] list_at(root, list_key)[j],
                fields,
                key,
            ),
    ensures
        rules_removed(
            upserted(root, list_key, field, key, palette, note),
            list_key,
            fields,
            key,
        ) == root,
        rule_count(
            upserted(root, list_key, field, key, palette, note),
            list_key,
            fields,
            key,
        ) == 1,
{
    let l0 = list_at(root, list_key);
    let at = choose|at: int| 0 <= at < fields.len() && fields[at] == field;
    assert forall|j: int| 0 <= j < l0.len() implies body_str(#[trigger] l0[j], field) != Some(key)
        by {
        assert(!names_key(l0[j], fields, key));
        assert(fields[at] == field);
    }
    lemma_rule_at(l0, field, key, l0.len() as int);
    lemma_new_rule(field, key, palette, note, palette);
    let new = new_rule(field, key, palette, note)->Table_0;
    let l1 = rule_set(l0, field, key, palette, note);
    assert(l1 == l0.push(new));
    lemma_with_child(root, list_key, Node::Tables(l1));
    assert(body_str(new, fields[at]) == Some(key));
    assert(names_key(new, fields, key));
    assert(l1.drop_last() =~= l0);
    lemma_none_removed(l0, fields, key);
    lemma_with_child_twice(root, list_key, Node::Tables(l1), Node::Tables(l0));
    lemma_same_child(root, list_key);
}

/// After rules are taken out, none for that key is left.
pub proof fn law_removed_rules_are_gone(
    root: Node,
    list_key: Seq<char>,
    fields: Seq<Seq<char>>,
    key: Seq<char>,
    i: int,
)
    requires
        root is Table,
        0 <= i < list_at(rules_removed(root, list_key, fields, key), list_key).len(),
    ensures
        !names_key(
            list_at(rules_removed(root, list_key, fields, key), list_key)[i],
            fields,
            key,
        ),
{
    match child(root, list_key) {
        Some(Node::Tables(list)) => {
            lemma_with_child(root, list_key, Node::Tables(without_rules(list, fields, key)));
            lemma_rules_gone(list, fields, key, i);
        },
        _ => {},
    }
}

proof fn lemma_rules_gone(list: Seq<Body>, fields: Seq<Seq<char>>, key: Seq<char>, i: int)
    requires
        0 <= i < without_rules(list, fields, key).len(),
    ensures
        !names_key(without_rules(list, fields, key)[i], fields, key),
    decreases list.len(),
{
    if list.len() > 0 {
        let rest = without_rules(list.drop_last(), fields, key);
        if i < rest.len() {
            lemma_rules_gone(list.drop_last(), fields, key, i);
        }
    }
}

/// Edits of rules touch only their own list: everything else in the configuration
/// stays as it is.
pub proof fn law_rule_edits_touch_only_their_list(
    root: Node,
    list_key: Seq<char>,
    fields: Seq<Seq<char>>,
    field: Seq<char>,
    key: Seq<char>,
    palette: Seq<char>,
    note: Seq<char>,
    other: Seq<char>,
)
    requires
        root is Table,
        other != list_key,
    ensures
        child(upserted(root, list_key, field, key, palette, note), other) == child(root, other),
        child(rules_removed(root, list_key, fields, key), other) == child(root, other),
{
    let root1 = with_list(root, list_key);
    lemma_with_list(root, list_key);
    let l1 = rule_set(list_at(root1, list_key), field, key, palette, note);
    lemma_sets_other(root1, list_key, Some(Node::Tables(l1)), other);
    let none = Node::Tables(seq![]);
    lemma_put_other(root, list_key, none, other);
    match child(root, list_key) {
        Some(Node::Tables(list)) => {
            lemma_sets_other(
                root,
                list_key,
                Some(Node::Tables(without_rules(list, fields, key))),
                other,
            );
        },
        _ => {},
    }
}

proof fn lemma_put_other(n: Node, key: Seq<char>, m: Node, other: Seq<char>)
    requires
        n is Table,
        key != other,
    ensures
        child(put(n, key, m), other) == child(n, other),
{
    let e = entries_of(n);
    let x = crate::toml::entry(key, fitted(n, m));
    lemma_index_of(e, key);
    lemma_index_of(e, other);
    if holds_key(e, key) {
        lemma_index_update(e, index_of(e, key), x, other);
    } else {
        lemma_index_push(e, x, other);
    }
}

/// After a rule is set, it is there: one table of the list has the key, no table
/// before it has, and it gives the palette. The other tables stay as they are, and so
/// does all else in a table that was there for the key. Where there was none, the new
/// one is the last, and holds the key, the palette and, where there is one, the note.
pub proof fn law_rule_is_set(
    root: Node,
    list_key: Seq<char>,
    field: Seq<char>,
    key: Seq<char>,
    palette: Seq<char>,
    note: Seq<char>,
) -> (i: int)
    requires
        root is Table,
        field != "palette"@,
        field != "note"@,
    ensures
        ({
            let before = list_at(root, list_key);
            let after = list_at(
                upserted(root, list_key, field, key, palette, note),
                list_key,
            );
            &&& 0 <= i < after.len()
            &&& body_str(after[i], field) == Some(key)
            &&& body_str(after[i], "palette"@) == Some(palette)
            &&& forall|j: int| 0 <= j < i ==> body_str(#[trigger] after[j], field) != Some(key)
            &&& forall|j: int| 0 <= j < before.len() && j != i ==> #[trigger] after[j] == before[j]
            &&& i < before.len() ==> after.len() == before.len() && forall|other: Seq<char>|
                other != "palette"@ ==> #[trigger] child(Node::Table(after[i]), other) == child(
                    Node::Table(before[i]),
                    other,
                )
            &&& i >= before.len() ==> {
                &&& i == before.len()
                &&& after.len() == before.len() + 1
                &&& note.len() > 0 ==> after[i].entries.len() == 3 && body_str(after[i], "note"@)
                    == Some(note)
                &&& note.len() == 0 ==> after[i].entries.len() == 2
            }
        }),
{
    let root1 = with_list(root, list_key);
    let l0 = list_at(root1, list_key);
    let l1 = rule_set(l0, field, key, palette, note);
    lemma_with_list(root, list_key);
    lemma_child_put(root, list_key, Node::Tables(seq![]));
    lemma_with_child(root1, list_key, Node::Tables(l1));
    assert(l0 =~= list_at(root, list_key));
    lemma_rule_at_is(l0, field, key);
    let i = rule_at(l0, field, key);
    let after = list_at(upserted(root, list_key, field, key, palette, note), list_key);
    assert(after == l1);
    assert forall|j: int| 0 <= j < i implies body_str(#[trigger] l1[j], field) != Some(key) by {
        assert(l1[j] == l0[j]);
    }
    if i < l0.len() {
        let t = Node::Table(l0[i]);
        lemma_assigned(t, "palette"@, string_node(palette));
        lemma_assigned_other(t, "palette"@, string_node(palette), field);
        assert(Node::Table(l1[i]) == assigned(t, "palette"@, string_node(palette)));
        assert forall|other: Seq<char>| other != "palette"@ implies #[trigger] child(
            Node::Table(l1[i]),
            other,
        ) == child(t, other) by {
            lemma_assigned_other(t, "palette"@, string_node(palette), other);
        }
    } else {
        lemma_new_rule(field, key, palette, note, palette);
        lemma_new_rule_holds(field, key, palette, note);
        assert(Node::Table(l1[i]) == new_rule(field, key, palette, note));
    }
    i
}

proof fn lemma_new_rule_holds(
    field: Seq<char>,
    key: Seq<char>,
    palette: Seq<char>,
    note: Seq<char>,
)
    requires
        field != "palette"@,
        field != "note"@,
    ensures
        ({
            let t = new_rule(field, key, palette, note);
            &&& child(t, "palette"@) == Some(string_node(palette))
            &&& note.len() > 0 ==> child(t, "note"@) == Some(string_node(note))
            &&& entries_of(t).len() == if note.len() > 0 {
                3int
            } else {
                2int
            }
        }),
{
    reveal_strlit("palette");
    reveal_strlit("note");
    assert("palette"@.len() == 7 && "note"@.len() == 4);
    let n0 = fresh_table(false);
    let n1 = assigned(n0, field, string_node(key));
    let n2 = assigned(n1, "palette"@, string_node(palette));
    lemma_assigned(n0, field, string_node(key));
    lemma_assigned(n1, "palette"@, string_node(palette));
    lemma_index_of(entries_of(n0), field);
    assert(entries_of(n1).len() == 1 && entries_of(n1)[0].key == field);
    lemma_index_of(entries_of(n1), "palette"@);
    assert(entries_of(n2).len() == 2 && entries_of(n2)[0].key == field && entries_of(n2)[1].key
        == "palette"@);
    lemma_index_of(entries_of(n2), "note"@);
    lemma_assigned(n2, "note"@, string_node(note));
    lemma_assigned_other(n2, "note"@, string_node(note), "palette"@);
}

/// The rules that are left after some are taken out: those that have the key under
/// none of the fields, all of them, in their order; the count is how many are gone.
pub proof fn law_other_rules_are_left(
    root: Node,
    list_key: Seq<char>,
    fields: Seq<Seq<char>>,
    key: Seq<char>,
)
    requires
        root is Table,
    ensures
        ({
            let before = list_at(root, list_key);
            let after = list_at(rules_removed(root, list_key, fields, key), list_key);
            &&& after == before.filter(
                |b: Body|
                    forall|i: int|
                        0 <= i < fields.len() ==> body_str(b, #[trigger] fields[i]) != Some(key),
            )
            &&& rule_count(root, list_key, fields, key) == before.len() - after.len()
        }),
{
    let before = list_at(root, list_key);
    lemma_without_rules(before, fields, key);
    match child(root, list_key) {
        Some(Node::Tables(list)) => {
            lemma_with_child(root, list_key, Node::Tables(without_rules(list, fields, key)));
        },
        _ => {
            assert(before =~= seq![]);
            assert(without_rules(before, fields, key) =~= seq![]);
        },
    }
}

proof fn lemma_without_rules(list: Seq<Body>, fields: Seq<Seq<char>>, key: Seq<char>)
    ensures
        without_rules(list, fields, key) == list.filter(
            |b: Body|
                forall|i: int|
                    0 <= i < fields.len() ==> body_str(b, #[trigger] fields[i]) != Some(key),
        ),
    decreases list.len(),
{
    let others = |b: Body|
        forall|i: int| 0 <= i < fields.len() ==> body_str(b, #[trigger] fields[i]) != Some(key);
    reveal(Seq::filter);
    if list.len() > 0 {
        lemma_without_rules(list.drop_last(), fields, key);
        assert(others(list.last()) <==> !names_key(list.last(), fields, key));
    } else {
        assert(without_rules(list, fields, key) =~= list.filter(others));
    }
}

/// A rule for a workspace is taken out by its label and by its path alike, and by
/// nothing else that it holds.
pub proof fn law_rules_go_by_label_or_path(b: Body, key: Seq<char>)
    ensures
        names_key(b, rule_fields(), key) <==> body_str(b, "label"@) == Some(key) || body_str(
            b,
            "path"@,
        ) == Some(key),
{
    let f = rule_fields();
    assert(f[0] == "label"@ && f[1] == "path"@ && f.len() == 2);
}

/// A target that begins with a slash or a tilde is a path, and any other a label. The
/// rule for a path is for the target itself; that for a label is for the label of the
/// workspace that the target names, where it names one.
pub proof fn law_targets(target: Seq<char>, found: Option<Seq<char>>)
    ensures
        target.len() > 0 && (target[0] == '/' || target[0] == '~') ==> target_of(target, found) == (
            "path"@,
            target,
        ),
        (target.len() == 0 || (target[0] != '/' && target[0] != '~')) && found is Some ==> target_of(
            target,
            found,
        ) == ("label"@, found->0),
        (target.len() == 0 || (target[0] != '/' && target[0] != '~')) && found is None ==> target_of(
            target,
            found,
        ) == ("label"@, target),
{
    reveal_strlit("/");
    reveal_strlit("~");
    reveal_strlit("path");
    reveal_strlit("label");
    assert("/"@ =~= seq!['/']);
    assert("~"@ =~= seq!['~']);
    assert("path"@.len() == 4 && "label"@.len() == 5);
    if target.len() > 0 {
        assert(target.take(1) =~= seq![target[0]]);
        assert(target.take(1)[0] == target[0]);
        assert("/"@[0] == '/' && "~"@[0] == '~');
    }
}

proof fn lemma_list_read(root: Node, key: Seq<char>)
    requires
        child(root, key) is Some,
        child(root, key)->0 is Tables,
    ensures
        tree_tables(tree_of(root), key).len() == list_at(root, key).len(),
        forall|i: int, field: Seq<char>|
            0 <= i < list_at(root, key).len() ==> tree_str(
                tree_field(
                    Tree::Table(tree_tables(tree_of(root), key)[i]),
                    field,
                ),
            ) == #[trigger] body_str(list_at(root, key)[i], field),
{
    law_reader_sees_the_document(root, key, true);
    let list = list_at(root, key);
    let n = child(root, key)->0;
    let rows = tree_tables(tree_of(root), key);
    assert(tree_of(n) is Tables);
    assert(rows == tree_of(n)->Tables_0);
    assert forall|i: int, field: Seq<char>| 0 <= i < list.len() implies tree_str(
        tree_field(Tree::Table(rows[i]), field),
    ) == #[trigger] body_str(list[i], field) by {
        law_reader_sees_lists(list, i, field, true);
    }
}

/// A workspace rule that is set is read: the configuration then has, among its
/// workspace rules, one with that label or path and that palette.
pub proof fn law_set_rule_is_read(
    root: Node,
    field: Seq<char>,
    key: Seq<char>,
    palette: Seq<char>,
) -> (i: int)
    requires
        root is Table,
        field == "label"@ || field == "path"@,
    ensures
        ({
            let rules = tree_tables(tree_of(with_rule(root, field, key, palette)), "workspaces"@);
            &&& 0 <= i < rules.len()
            &&& tree_str(tree_field(Tree::Table(rules[i]), field)) == Some(key)
            &&& tree_str(tree_field(Tree::Table(rules[i]), "palette"@)) == Some(palette)
        }),
{
    reveal_strlit("label");
    reveal_strlit("path");
    reveal_strlit("palette");
    reveal_strlit("note");
    assert("label"@.len() == 5 && "path"@.len() == 4 && "palette"@.len() == 7 && "note"@.len()
        == 4);
    assert("path"@[0] == 'p' && "note"@[0] == 'n');
    let list = "workspaces"@;
    let i = law_rule_is_set(root, list, field, key, palette, seq![]);
    let root1 = with_list(root, list);
    lemma_with_list(root, list);
    lemma_with_child(
        root1,
        list,
        Node::Tables(rule_set(list_at(root1, list), field, key, palette, seq![])),
    );
    let after = with_rule(root, field, key, palette);
    lemma_list_read(after, list);
    assert(body_str(list_at(after, list)[i], field) == Some(key));
    assert(body_str(list_at(after, list)[i], "palette"@) == Some(palette));
    i
}

/// An agent rule that is set is read: the configuration then has, among its agent
/// rules, one with that session and that palette.
pub proof fn law_set_agent_rule_is_read(
    root: Node,
    session: Seq<char>,
    palette: Seq<char>,
    note: Seq<char>,
) -> (i: int)
    requires
        root is Table,
    ensures
        ({
            let rules = tree_tables(
                tree_of(with_agent_rule(root, session, palette, note)),
                "agents"@,
            );
            &&& 0 <= i < rules.len()
            &&& tree_str(tree_field(Tree::Table(rules[i]), "session"@)) == Some(session)
            &&& tree_str(tree_field(Tree::Table(rules[i]), "palette"@)) == Some(palette)
        }),
{
    reveal_strlit("session");
    reveal_strlit("palette");
    reveal_strlit("note");
    assert("session"@.len() == 7 && "palette"@.len() == 7 && "note"@.len() == 4);
    assert("session"@[0] == 's' && "palette"@[0] == 'p');
    let list = "agents"@;
    let i = law_rule_is_set(root, list, "session"@, session, palette, note);
    let root1 = with_list(root, list);
    lemma_with_list(root, list);
    lemma_with_child(
        root1,
        list,
        Node::Tables(rule_set(list_at(root1, list), "session"@, session, palette, note)),
    );
    let after = with_agent_rule(root, session, palette, note);
    lemma_list_read(after, list);
    assert(body_str(list_at(after, list)[i], "session"@) == Some(session));
    assert(body_str(list_at(after, list)[i], "palette"@) == Some(palette));
    i
}

/// A workspace rule that is taken out is not read: no rule of the configuration has
/// that label or that path. The rules that have neither are all there, in their order.
pub proof fn law_unset_rule_is_not_read(root: Node, key: Seq<char>, i: int)
    requires
        root is Table,
    ensures
        ({
            let rules = tree_tables(tree_of(without_rule(root, key)), "workspaces"@);
            0 <= i < rules.len() ==> {
                &&& tree_str(tree_field(Tree::Table(rules[i]), "label"@)) != Some(key)
                &&& tree_str(tree_field(Tree::Table(rules[i]), "path"@)) != Some(key)
            }
        }),
        list_at(without_rule(root, key), "workspaces"@) == list_at(root, "workspaces"@).filter(
            |b: Body| body_str(b, "label"@) != Some(key) && body_str(b, "path"@) != Some(key),
        ),
{
    let list = "workspaces"@;
    let after = without_rule(root, key);
    law_other_rules_are_left(root, list, rule_fields(), key);
    let others = |b: Body|
        forall|j: int|
            0 <= j < rule_fields().len() ==> body_str(b, #[trigger] rule_fields()[j]) != Some(key);
    let named = |b: Body| body_str(b, "label"@) != Some(key) && body_str(b, "path"@) != Some(key);
    assert forall|b: Body| #[trigger] others(b) == named(b) by {
        law_rules_go_by_label_or_path(b, key);
        assert(others(b) <==> !names_key(b, rule_fields(), key));
    }
    assert(others =~= named);
    match child(root, list) {
        Some(Node::Tables(l)) => {
            lemma_with_child(root, list, Node::Tables(without_rules(l, rule_fields(), key)));
            lemma_list_read(after, list);
            let rules = tree_tables(tree_of(after), list);
            if 0 <= i < rules.len() {
                law_removed_rules_are_gone(root, list, rule_fields(), key, i);
                law_rules_go_by_label_or_path(list_at(after, list)[i], key);
                assert(body_str(list_at(after, list)[i], "label"@) != Some(key));
                assert(body_str(list_at(after, list)[i], "path"@) != Some(key));
            }
        },
        _ => {
            law_reader_sees_the_document(root, list, true);
            if child(root, list) is Some {
                assert(!(tree_of(child(root, list)->0) is Tables));
            }
        },
    }
}

/// An agent rule that is taken out is not read: no rule of the configuration has that
/// session.
pub proof fn law_unset_agent_rule_is_not_read(root: Node, session: Seq<char>, i: int)
    requires
        root is Table,
    ensures
        ({
            let rules = tree_tables(tree_of(without_agent_rule(root, session)), "agents"@);
            0 <= i < rules.len() ==> tree_str(tree_field(Tree::Table(rules[i]), "session"@))
                != Some(session)
        }),
{
    let list = "agents"@;
    let fields = seq!["session"@];
    let after = without_agent_rule(root, session);
    match child(root, list) {
        Some(Node::Tables(l)) => {
            lemma_with_child(root, list, Node::Tables(without_rules(l, fields, session)));
            lemma_list_read(after, list);
            let rules = tree_tables(tree_of(after), list);
            if 0 <= i < rules.len() {
                law_removed_rules_are_gone(root, list, fields, session, i);
                assert(fields[0] == "session"@);
                assert(body_str(list_at(after, list)[i], "session"@) != Some(session));
            }
        },
        _ => {
            law_reader_sees_the_document(root, list, true);
            if child(root, list) is Some {
                assert(!(tree_of(child(root, list)->0) is Tables));
            }
        },
    }
}

/// What an edit of the rules comes to is a configuration that would be accepted, or
/// nothing is written: what is written is the edited document, and a text that is no
/// TOML is not touched.
pub proof fn law_only_accepted_texts_are_written(
    text: Seq<char>,
    field: Seq<char>,
    key: Seq<char>,
    palette: Seq<char>,
    note: Seq<char>,
)
    ensures
        match toml_parse(text) {
            Err(e) => {
                &&& text_with_workspace_rule(text, field, key, palette) is Err
                &&& text_with_agent_rule(text, key, palette, note) is Err
                &&& text_without_workspace_rule(text, key) is Err
                &&& text_without_agent_rule(text, key) is Err
                &&& text_with_workspace_rule(text, field, key, palette)->Err_0 == RuleFault::Parse(e)
            },
            Ok(doc) => {
                let set = toml_text(
                    Document { root: with_rule(doc.root, field, key, palette), ..doc },
                );
                let pinned = toml_text(
                    Document { root: with_agent_rule(doc.root, key, palette, note), ..doc },
                );
                let unset = toml_text(Document { root: without_rule(doc.root, key), ..doc });
                let loose = toml_text(Document { root: without_agent_rule(doc.root, key), ..doc });
                &&& text_with_workspace_rule(text, field, key, palette) is Ok <==> config_of_text(set) is Ok
                &&& text_with_workspace_rule(text, field, key, palette) is Ok ==> text_with_workspace_rule(
                    text,
                    field,
                    key,
                    palette,
                )->Ok_0 == set
                &&& text_with_agent_rule(text, key, palette, note) is Ok <==> config_of_text(
                    pinned,
                ) is Ok
                &&& text_with_agent_rule(text, key, palette, note) is Ok ==> text_with_agent_rule(
                    text,
                    key,
                    palette,
                    note,
                )->Ok_0 == pinned
                &&& text_without_workspace_rule(text, key) is Ok <==> config_of_text(unset) is Ok
                &&& text_without_workspace_rule(text, key) is Ok ==> text_without_workspace_rule(text, key)->Ok_0.0
                    == unset
                &&& text_without_agent_rule(text, key) is Ok <==> config_of_text(loose) is Ok
                &&& text_without_agent_rule(text, key) is Ok ==> text_without_agent_rule(
                    text,
                    key,
                )->Ok_0.0 == loose
            },
        },
{
}

/// The count of the rules that are taken out is how many fewer there are then.
pub proof fn law_removed_rules_are_counted(text: Seq<char>, key: Seq<char>)
    requires
        toml_parse(text) is Ok,
        toml_parse(text)->Ok_0.root is Table,
    ensures
        ({
            let root = toml_parse(text)->Ok_0.root;
            &&& text_without_workspace_rule(text, key) is Ok ==> text_without_workspace_rule(text, key)->Ok_0.1
                == list_at(root, "workspaces"@).len() - list_at(
                without_rule(root, key),
                "workspaces"@,
            ).len()
            &&& text_without_agent_rule(text, key) is Ok ==> text_without_agent_rule(
                text,
                key,
            )->Ok_0.1 == list_at(root, "agents"@).len() - list_at(
                without_agent_rule(root, key),
                "agents"@,
            ).len()
        }),
{
    let root = toml_parse(text)->Ok_0.root;
    law_other_rules_are_left(root, "workspaces"@, rule_fields(), key);
    law_other_rules_are_left(root, "agents"@, seq!["session"@], key);
}

} // verus!
