//! TOML documents that keep their comments, key order and layout while they
//! are edited, as `toml_edit` holds them.
//!
//! A document is described by [`Document`]: the tree of its tables and values,
//! each with a `style`, a number that stands for all that the document keeps
//! about how that part is written (comments and blanks around it, its place
//! among the other tables, the notation of a value). The style of a part that
//! was made here and not read from a text is [`plain`].
use vstd::prelude::*;

verus! {

// --- the contents of a document --------------------------------------------------

/// A table, a value or a list in a document.
pub enum Node {
    /// A table under a header of its own, or the tables that dotted keys make.
    Table(Body),
    /// A table written as a value, in braces.
    Inline(Body),
    /// A list of tables, each under a `[[header]]`.
    Tables(Seq<Body>),
    /// A list written as a value, in square brackets.
    Array(Seq<Node>, int),
    /// Any other value.
    Value(Scalar, int),
}

/// What a table holds.
pub struct Body {
    /// Whether the header is left out while nothing stands directly under it.
    pub implicit: bool,
    pub style: int,
    pub entries: Seq<Entry>,
}

/// One key of a table and what stands under it.
pub struct Entry {
    pub key: Seq<char>,
    pub key_style: int,
    pub node: Node,
}

/// A value that holds no other.
pub enum Scalar {
    Bool(bool),
    Str(Seq<char>),
    /// A number or a date, each with a number of its own.
    Other(int),
}

/// A whole document: its root table, and the comments and blanks after it.
pub struct Document {
    pub root: Node,
    pub trailing: Seq<char>,
}

/// A document without anything in it.
pub open spec fn blank_document() -> Document {
    Document {
        root: Node::Table(Body { implicit: false, style: rooted(), entries: seq![] }),
        trailing: seq![],
    }
}

/// The style of a part that was not read from a text.
pub open spec fn plain() -> int {
    0
}

/// The style of the first value that is pushed to a list: nothing around it.
pub open spec fn leading() -> int {
    1
}

/// The style of a later value that is pushed to a list: one space before it.
pub open spec fn following() -> int {
    2
}

/// The style of the root of a document that was not read from a text.
pub open spec fn rooted() -> int {
    3
}

/// The first position of `key`, or the number of entries where it does not occur.
pub open spec fn index_of(entries: Seq<Entry>, key: Seq<char>) -> int
    decreases entries.len(),
{
    if entries.len() == 0 {
        0
    } else if entries[0].key == key {
        0
    } else {
        1 + index_of(entries.skip(1), key)
    }
}

/// Whether `key` occurs among the entries.
pub open spec fn holds_key(entries: Seq<Entry>, key: Seq<char>) -> bool {
    index_of(entries, key) < entries.len()
}

pub broadcast proof fn lemma_index_of(entries: Seq<Entry>, key: Seq<char>)
    ensures
        0 <= #[trigger] index_of(entries, key) <= entries.len(),
        index_of(entries, key) < entries.len() ==> entries[index_of(entries, key)].key == key,
        forall|j: int|
            0 <= j < index_of(entries, key) ==> (#[trigger] entries[j]).key != key,
    decreases entries.len(),
{
    if entries.len() > 0 && entries[0].key != key {
        let rest = entries.skip(1);
        lemma_index_of(rest, key);
        assert forall|j: int| 0 <= j < index_of(entries, key) implies (#[trigger] entries[j]).key
            != key by {
            if j > 0 {
                assert(rest[j - 1].key != key);
            }
        }
    }
}

/// Says where `key` is: no earlier entry has it, and this one does or is the end.
pub proof fn lemma_index_is(entries: Seq<Entry>, key: Seq<char>, i: int)
    requires
        0 <= i <= entries.len(),
        i < entries.len() ==> entries[i].key == key,
        forall|j: int| 0 <= j < i ==> (#[trigger] entries[j]).key != key,
    ensures
        index_of(entries, key) == i,
{
    lemma_index_of(entries, key);
    let k = index_of(entries, key);
    if k < i {
        assert(entries[k].key != key);
    }
}

/// Whether no key occurs twice among the entries.
pub open spec fn unique(entries: Seq<Entry>) -> bool {
    forall|i: int, j: int|
        0 <= i < j < entries.len() ==> (#[trigger] entries[i]).key != (#[trigger] entries[j]).key
}

/// Whether no table in the node has a key twice.
pub open spec fn unique_keys(n: Node) -> bool
    decreases n,
{
    match n {
        Node::Table(b) => unique(b.entries) && forall|i: int|
            0 <= i < b.entries.len() ==> unique_keys((#[trigger] b.entries[i]).node),
        Node::Inline(b) => unique(b.entries) && forall|i: int|
            0 <= i < b.entries.len() ==> unique_keys((#[trigger] b.entries[i]).node),
        Node::Tables(t) => forall|i: int, j: int|
            0 <= i < t.len() && 0 <= j < t[i].entries.len() ==> unique(t[i].entries) && unique_keys(
                (#[trigger] t[i].entries[j]).node,
            ),
        Node::Array(items, _) => forall|i: int|
            0 <= i < items.len() ==> unique_keys(#[trigger] items[i]),
        Node::Value(_, _) => true,
    }
}

/// Whether a node holds entries: a table of either form.
pub open spec fn table_like(n: Node) -> bool {
    n is Table || n is Inline
}

/// The entries of a table of either form; none for another node.
pub open spec fn entries_of(n: Node) -> Seq<Entry> {
    match n {
        Node::Table(b) => b.entries,
        Node::Inline(b) => b.entries,
        _ => seq![],
    }
}

/// The same table with other entries.
pub open spec fn with_entries(n: Node, entries: Seq<Entry>) -> Node {
    match n {
        Node::Table(b) => Node::Table(Body { entries, ..b }),
        Node::Inline(b) => Node::Inline(Body { entries, ..b }),
        _ => n,
    }
}

/// What stands under `key` in a table.
pub open spec fn child(n: Node, key: Seq<char>) -> Option<Node> {
    if holds_key(entries_of(n), key) {
        Some(entries_of(n)[index_of(entries_of(n), key)].node)
    } else {
        None
    }
}

/// The table with `m` under the key `key`, which it has.
pub open spec fn with_child(n: Node, key: Seq<char>, m: Node) -> Node {
    let i = index_of(entries_of(n), key);
    with_entries(n, entries_of(n).update(i, Entry { node: m, ..entries_of(n)[i] }))
}

/// `m` as it stands in the table `n`: a braced table holds tables in braces.
pub open spec fn fitted(n: Node, m: Node) -> Node {
    match (n, m) {
        (Node::Inline(_), Node::Table(b)) => Node::Inline(
            Body { implicit: false, style: plain(), ..b },
        ),
        _ => m,
    }
}

/// One plainly written entry.
pub open spec fn entry(key: Seq<char>, node: Node) -> Entry {
    Entry { key, key_style: plain(), node }
}

/// The entries with `m` under a plainly written `key`: in its place where the
/// key is there, else at the end.
pub open spec fn put_entry(entries: Seq<Entry>, key: Seq<char>, m: Node) -> Seq<Entry> {
    let e = Entry { key, key_style: plain(), node: m };
    if holds_key(entries, key) {
        entries.update(index_of(entries, key), e)
    } else {
        entries.push(e)
    }
}

/// The table with `m` put under `key`.
pub open spec fn put(n: Node, key: Seq<char>, m: Node) -> Node {
    with_entries(n, put_entry(entries_of(n), key, fitted(n, m)))
}

/// The table with `m` assigned to `key`: the key keeps its notation where it is
/// there, and stands at the end where it is not.
pub open spec fn assigned(n: Node, key: Seq<char>, m: Node) -> Node {
    if holds_key(entries_of(n), key) {
        with_child(n, key, m)
    } else {
        put(n, key, m)
    }
}

/// The entries without `key`.
pub open spec fn cut_entry(entries: Seq<Entry>, key: Seq<char>) -> Seq<Entry> {
    if holds_key(entries, key) {
        entries.remove(index_of(entries, key))
    } else {
        entries
    }
}

/// The table without `key`.
pub open spec fn without(n: Node, key: Seq<char>) -> Node {
    with_entries(n, cut_entry(entries_of(n), key))
}

/// A table with a header of its own and nothing in it.
pub open spec fn fresh_table(implicit: bool) -> Node {
    Node::Table(Body { implicit, style: plain(), entries: seq![] })
}

/// A plainly written string.
pub open spec fn string_node(s: Seq<char>) -> Node {
    Node::Value(Scalar::Str(s), plain())
}

/// A value as it stands in a list that it was pushed to.
pub open spec fn pushed(m: Node, first: bool) -> Node {
    let style = if first {
        leading()
    } else {
        following()
    };
    match m {
        Node::Inline(b) => Node::Inline(Body { style, ..b }),
        Node::Array(items, _) => Node::Array(items, style),
        Node::Value(v, _) => Node::Value(v, style),
        _ => m,
    }
}

/// The string that a node is, if it is one.
pub open spec fn node_str(n: Node) -> Option<Seq<char>> {
    match n {
        Node::Value(Scalar::Str(s), _) => Some(s),
        _ => None,
    }
}

/// The truth value that a node is, if it is one.
pub open spec fn node_bool(n: Node) -> Option<bool> {
    match n {
        Node::Value(Scalar::Bool(b), _) => Some(b),
        _ => None,
    }
}

/// The tables of a list of tables; none for another node.
pub open spec fn tables_of(n: Node) -> Seq<Body> {
    match n {
        Node::Tables(t) => t,
        _ => seq![],
    }
}

// --- documents of the crate `toml_edit` ------------------------------------------

/// `toml_edit::DocumentMut`: a whole document.
#[verifier::external_type_specification]
#[verifier::external_body]
pub struct ExDocumentMut(toml_edit::DocumentMut);

/// `toml_edit::Item`: a table, a value or a list in a document.
#[verifier::external_type_specification]
#[verifier::external_body]
pub struct ExItem(toml_edit::Item);

/// What a document holds.
pub uninterp spec fn document(doc: toml_edit::DocumentMut) -> Document;

/// What an item of a document holds.
pub uninterp spec fn node(item: toml_edit::Item) -> Node;

/// Whether an item is whole: `toml_edit` can hold an empty place under a key, and
/// something else than a table in a list of tables. A whole item is no empty
/// place, and neither occurs anywhere in it.
pub uninterp spec fn whole(item: toml_edit::Item) -> bool;

/// Whether the root of a document is whole.
pub uninterp spec fn whole_document(doc: toml_edit::DocumentMut) -> bool;

/// Whether a document can be edited: its root is a table, and whole.
pub open spec fn editable(doc: toml_edit::DocumentMut) -> bool {
    document(doc).root is Table && whole_document(doc)
}

/// Whether a value is written as one that was made here.
pub open spec fn plainly(n: Node) -> bool {
    match n {
        Node::Inline(b) => b.style == plain(),
        Node::Array(_, style) => style == plain(),
        Node::Value(_, style) => style == plain(),
        _ => false,
    }
}

/// What `toml_edit` reads from a text: the document, or why the text is none.
pub uninterp spec fn toml_parse(text: Seq<char>) -> Result<Document, Seq<char>>;

/// The text that `toml_edit` writes for a document.
pub uninterp spec fn toml_text(doc: Document) -> Seq<char>;

/// `str::parse` to a `toml_edit::DocumentMut`: the document that the text is, or
/// the message of the `TomlError`. The result depends on the text alone. The root
/// of a document that was read is a table and whole, and none of its tables has a
/// key twice.
#[verifier::external_body]
pub(crate) fn parse_document(text: &str) -> (r: Result<toml_edit::DocumentMut, String>)
    ensures
        match r {
            Ok(d) => {
                &&& toml_parse(text@) == Ok::<Document, Seq<char>>(document(d))
                &&& document(d).root is Table
                &&& unique_keys(document(d).root)
                &&& whole_document(d)
            },
            Err(e) => toml_parse(text@) == Err::<Document, Seq<char>>(e@),
        },
{
    text.parse::<toml_edit::DocumentMut>().map_err(|e| e.to_string())
}

/// `toml_edit::DocumentMut::to_string`, of a document with a table at its root:
/// the text depends on what the document holds alone. Nothing is said of what the
/// text reads as: not every document that can be put together has a text that
/// reads as the same document.
#[verifier::external_body]
pub(crate) fn document_text(doc: &toml_edit::DocumentMut) -> (r: String)
    requires
        editable(*doc),
    ensures
        r@ == toml_text(document(*doc)),
{
    doc.to_string()
}

/// `toml_edit::DocumentMut::new`: a document without anything in it.
#[verifier::external_body]
pub(crate) fn new_document() -> (r: toml_edit::DocumentMut)
    ensures
        document(r) == blank_document(),
        whole_document(r),
{
    toml_edit::DocumentMut::new()
}

/// `Clone` of `toml_edit::Item`: another item that holds the same, written in the
/// same way.
#[verifier::external_body]
pub(crate) fn copy_item(item: &toml_edit::Item) -> (r: toml_edit::Item)
    ensures
        node(r) == node(*item),
        whole(r) == whole(*item),
{
    item.clone()
}

/// `toml_edit::DocumentMut::as_item`: the root table.
#[verifier::external_body]
pub(crate) fn root(doc: &toml_edit::DocumentMut) -> (r: &toml_edit::Item)
    ensures
        node(*r) == document(*doc).root,
        whole(*r) == whole_document(*doc),
{
    doc.as_item()
}

/// `toml_edit::DocumentMut::as_item_mut`: the root table, to edit; the rest of
/// the document stays as it is.
#[verifier::external_body]
pub(crate) fn root_mut(doc: &mut toml_edit::DocumentMut) -> (r: &mut toml_edit::Item)
    ensures
        node(*r) == document(*old(doc)).root,
        whole(*r) == whole_document(*old(doc)),
        document(*final(doc)) == (Document { root: node(*final(r)), ..document(*old(doc)) }),
        whole_document(*final(doc)) == whole(*final(r)),
{
    doc.as_item_mut()
}

/// `toml_edit::Item::get` with a key: what stands under it in a table of either
/// form.
#[verifier::external_body]
pub(crate) fn get<'a>(item: &'a toml_edit::Item, key: &str) -> (r: Option<&'a toml_edit::Item>)
    ensures
        match r {
            Some(x) => child(node(*item), key@) == Some(node(*x)) && (whole(*item) ==> whole(*x)),
            None => child(node(*item), key@) is None,
        },
{
    item.get(key)
}

/// `TableLike::get_mut` on `toml_edit::Item::as_table_like_mut`: what stands
/// under a key, to edit; the key and everything else stays as it is. What is
/// left there has to be whole.
#[verifier::external_body]
pub(crate) fn get_mut<'a>(item: &'a mut toml_edit::Item, key: &str) -> (r: Option<
    &'a mut toml_edit::Item,
>)
    requires
        whole(*old(item)),
    ensures
        match r {
            Some(x) => {
                &&& child(node(*old(item)), key@) == Some(node(*x))
                &&& whole(*x)
                &&& whole(*final(x)) ==> whole(*final(item)) && node(*final(item)) == with_child(
                    node(*old(item)),
                    key@,
                    node(*final(x)),
                )
            },
            None => {
                &&& child(node(*old(item)), key@) is None
                &&& node(*final(item)) == node(*old(item))
                &&& whole(*final(item))
            },
        },
{
    item.as_table_like_mut().and_then(|t| t.get_mut(key))
}

/// `TableLike::iter` on `toml_edit::Item::as_table_like`: the entry at a
/// position, in the order of the table.
#[verifier::external_body]
pub(crate) fn nth<'a>(item: &'a toml_edit::Item, i: usize) -> (r: Option<
    (&'a str, &'a toml_edit::Item),
>)
    requires
        whole(*item),
    ensures
        match r {
            Some((k, x)) => {
                &&& i < entries_of(node(*item)).len()
                &&& k@ == entries_of(node(*item))[i as int].key
                &&& node(*x) == entries_of(node(*item))[i as int].node
                &&& whole(*x)
            },
            None => i >= entries_of(node(*item)).len(),
        },
{
    item.as_table_like().and_then(|t| t.iter().nth(i))
}

/// `toml_edit::Item::is_table_like`: a table of either form.
#[verifier::external_body]
pub(crate) fn is_table_like(item: &toml_edit::Item) -> (r: bool)
    ensures
        r == table_like(node(*item)),
{
    item.is_table_like()
}

/// `toml_edit::Item::is_table`: a table that is not written in braces.
#[verifier::external_body]
pub(crate) fn is_table(item: &toml_edit::Item) -> (r: bool)
    ensures
        r == node(*item) is Table,
{
    item.is_table()
}

/// `toml_edit::Item::is_array_of_tables`: a list of tables under headers.
#[verifier::external_body]
pub(crate) fn is_tables(item: &toml_edit::Item) -> (r: bool)
    ensures
        r == node(*item) is Tables,
{
    item.is_array_of_tables()
}

/// `toml_edit::Item::as_str`: the string that the item is.
#[verifier::external_body]
pub(crate) fn as_str(item: &toml_edit::Item) -> (r: Option<&str>)
    ensures
        match r {
            Some(s) => node_str(node(*item)) == Some(s@),
            None => node_str(node(*item)) is None,
        },
{
    item.as_str()
}

/// `toml_edit::Item::as_bool`: the truth value that the item is.
#[verifier::external_body]
pub(crate) fn as_bool(item: &toml_edit::Item) -> (r: Option<bool>)
    ensures
        r == node_bool(node(*item)),
{
    item.as_bool()
}

/// `TableLike::insert` on `toml_edit::Item::as_table_like_mut`: puts a value
/// under a key. A key that is there keeps its place and loses its notation.
#[verifier::external_body]
pub(crate) fn insert(item: &mut toml_edit::Item, key: &str, value: toml_edit::Item)
    requires
        table_like(node(*old(item))),
        node(*old(item)) is Inline ==> !(node(value) is Tables) && (node(value) is Table
            ==> entries_of(node(value)).len() == 0),
        whole(*old(item)),
        whole(value),
    ensures
        whole(*final(item)),
        node(*final(item)) == put(node(*old(item)), key@, node(value)),
{
    item.as_table_like_mut().unwrap().insert(key, value);
}

/// `IndexMut` of `toml_edit::Item`, with a key of a table: assigns a value to
/// it. A key that is there keeps its place and its notation.
#[verifier::external_body]
pub(crate) fn assign(item: &mut toml_edit::Item, key: &str, value: toml_edit::Item)
    requires
        node(*old(item)) is Table,
        whole(*old(item)),
        whole(value),
    ensures
        whole(*final(item)),
        node(*final(item)) == assigned(node(*old(item)), key@, node(value)),
{
    item[key] = value;
}

/// `TableLike::remove` on `toml_edit::Item::as_table_like_mut`: takes a key out;
/// the other entries keep their order.
#[verifier::external_body]
pub(crate) fn remove(item: &mut toml_edit::Item, key: &str)
    requires
        table_like(node(*old(item))),
    ensures
        node(*final(item)) == without(node(*old(item)), key@),
        whole(*old(item)) ==> whole(*final(item)),
{
    item.as_table_like_mut().unwrap().remove(key);
}

/// `toml_edit::Table::set_implicit`.
#[verifier::external_body]
pub(crate) fn set_implicit(item: &mut toml_edit::Item, implicit: bool)
    requires
        node(*old(item)) is Table,
    ensures
        node(*final(item)) == Node::Table(Body { implicit, ..node(*old(item))->Table_0 }),
        whole(*old(item)) ==> whole(*final(item)),
{
    item.as_table_mut().unwrap().set_implicit(implicit);
}

/// `toml_edit::table`: an empty table with a header.
#[verifier::external_body]
pub(crate) fn new_table() -> (r: toml_edit::Item)
    ensures
        node(r) == fresh_table(false),
        whole(r),
{
    toml_edit::table()
}

/// `toml_edit::value` of a string.
#[verifier::external_body]
pub(crate) fn string_item(s: &str) -> (r: toml_edit::Item)
    ensures
        node(r) == string_node(s@),
        whole(r),
{
    toml_edit::value(s)
}

/// `toml_edit::value` of a truth value.
#[verifier::external_body]
pub(crate) fn bool_item(b: bool) -> (r: toml_edit::Item)
    ensures
        node(r) == Node::Value(Scalar::Bool(b), plain()),
        whole(r),
{
    toml_edit::value(b)
}

/// `toml_edit::InlineTable::new`: an empty table in braces.
#[verifier::external_body]
pub(crate) fn new_inline() -> (r: toml_edit::Item)
    ensures
        node(r) == Node::Inline(Body { implicit: false, style: plain(), entries: seq![] }),
        whole(r),
{
    toml_edit::value(toml_edit::InlineTable::new())
}

/// `toml_edit::Array::new`: an empty list in square brackets.
#[verifier::external_body]
pub(crate) fn new_array() -> (r: toml_edit::Item)
    ensures
        node(r) == Node::Array(seq![], plain()),
        whole(r),
{
    toml_edit::value(toml_edit::Array::new())
}

/// `toml_edit::Array::push`: adds a value that was made here at the end, with the
/// blanks that a list has around its values.
#[verifier::external_body]
pub(crate) fn array_push(item: &mut toml_edit::Item, value: toml_edit::Item)
    requires
        node(*old(item)) is Array,
        plainly(node(value)),
    ensures
        whole(*old(item)) && whole(value) ==> whole(*final(item)),
        node(*final(item)) == Node::Array(
            node(*old(item))->Array_0.push(
                pushed(node(value), node(*old(item))->Array_0.len() == 0),
            ),
            node(*old(item))->Array_1,
        ),
{
    item.as_array_mut().unwrap().push(value.into_value().unwrap());
}

/// `toml_edit::array`: a list of tables without any.
#[verifier::external_body]
pub(crate) fn new_tables() -> (r: toml_edit::Item)
    ensures
        node(r) == Node::Tables(seq![]),
        whole(r),
{
    toml_edit::array()
}

/// `toml_edit::ArrayOfTables::len`.
#[verifier::external_body]
pub(crate) fn tables_len(item: &toml_edit::Item) -> (r: usize)
    requires
        node(*item) is Tables,
    ensures
        r == tables_of(node(*item)).len(),
{
    item.as_array_of_tables().unwrap().len()
}

/// `Index` of `toml_edit::Item`, with a position: a table of a list of tables.
#[verifier::external_body]
pub(crate) fn tables_get(item: &toml_edit::Item, i: usize) -> (r: &toml_edit::Item)
    requires
        i < tables_of(node(*item)).len(),
        whole(*item),
    ensures
        whole(*r),
        node(*r) == Node::Table(tables_of(node(*item))[i as int]),
{
    &item[i]
}

/// `toml_edit::ArrayOfTables::push`: adds a table at the end.
#[verifier::external_body]
pub(crate) fn tables_push(item: &mut toml_edit::Item, table: toml_edit::Item)
    requires
        node(*old(item)) is Tables,
        node(table) is Table,
    ensures
        whole(*old(item)) && whole(table) ==> whole(*final(item)),
        node(*final(item)) == Node::Tables(
            tables_of(node(*old(item))).push(node(table)->Table_0),
        ),
{
    item.as_array_of_tables_mut().unwrap().push(table.into_table().unwrap());
}

/// `toml_edit::ArrayOfTables::remove`: takes one table out; the others keep
/// their order.
#[verifier::external_body]
pub(crate) fn tables_remove(item: &mut toml_edit::Item, i: usize)
    requires
        i < tables_of(node(*old(item))).len(),
    ensures
        whole(*old(item)) ==> whole(*final(item)),
        node(*final(item)) == Node::Tables(tables_of(node(*old(item))).remove(i as int)),
{
    item.as_array_of_tables_mut().unwrap().remove(i);
}

/// `IndexMut` of `toml_edit::Item`, with a position: a table of a list of
/// tables, to edit; the other tables stay as they are. What is left there has to
/// be a table, and whole.
#[verifier::external_body]
pub(crate) fn tables_get_mut(item: &mut toml_edit::Item, i: usize) -> (r: &mut toml_edit::Item)
    requires
        i < tables_of(node(*old(item))).len(),
        whole(*old(item)),
    ensures
        node(*r) == Node::Table(tables_of(node(*old(item)))[i as int]),
        whole(*r),
        node(*final(r)) is Table && whole(*final(r)) ==> whole(*final(item)) && node(*final(item))
            == Node::Tables(
            tables_of(node(*old(item))).update(i as int, node(*final(r))->Table_0),
        ),
{
    &mut item[i]
}

} // verus!
