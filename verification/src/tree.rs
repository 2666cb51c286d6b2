//! The contents of a TOML document as plain values: what a reader of a
//! configuration sees of it.
use crate::text::same;
use crate::toml::{
    as_bool, as_str, entries_of, is_table_like, is_tables, node, nth, tables_get, tables_len,
    tables_of, whole, Node, Scalar,
};
use vstd::prelude::*;

verus! {

/// A value, a table or a list of tables.
pub enum Toml {
    Bool(bool),
    Str(String),
    /// A table of either form, in the order of its entries.
    Table(Vec<(String, Toml)>),
    /// A list of tables under headers.
    Tables(Vec<Vec<(String, Toml)>>),
    /// Anything else.
    Other,
}

/// What a [`Toml`] holds.
pub enum Tree {
    Bool(bool),
    Str(Seq<char>),
    Table(Seq<(Seq<char>, Tree)>),
    Tables(Seq<Seq<(Seq<char>, Tree)>>),
    Other,
}

impl Toml {
    pub open spec fn view(&self) -> Tree
        decreases self,
    {
        match self {
            Toml::Bool(b) => Tree::Bool(*b),
            Toml::Str(s) => Tree::Str(s@),
            Toml::Table(v) => Tree::Table(
                Seq::new(
                    v@.len(),
                    |i: int|
                        if 0 <= i < v@.len() {
                            (v@[i].0@, v@[i].1.view())
                        } else {
                            (seq![], Tree::Other)
                        },
                ),
            ),
            Toml::Tables(t) => Tree::Tables(
                Seq::new(
                    t@.len(),
                    |i: int|
                        if 0 <= i < t@.len() {
                            Seq::new(
                                t@[i]@.len(),
                                |j: int|
                                    if 0 <= j < t@[i]@.len() {
                                        (t@[i]@[j].0@, t@[i]@[j].1.view())
                                    } else {
                                        (seq![], Tree::Other)
                                    },
                            )
                        } else {
                            seq![]
                        },
                ),
            ),
            Toml::Other => Tree::Other,
        }
    }
}

/// The entries of a table, as plain values.
pub open spec fn row(v: Seq<(String, Toml)>) -> Seq<(Seq<char>, Tree)> {
    Seq::new(
        v.len(),
        |i: int|
            if 0 <= i < v.len() {
                (v[i].0@, v[i].1@)
            } else {
                (seq![], Tree::Other)
            },
    )
}

/// The tables of a list, as plain values.
pub open spec fn rows(t: Seq<Vec<(String, Toml)>>) -> Seq<Seq<(Seq<char>, Tree)>> {
    Seq::new(
        t.len(),
        |i: int|
            if 0 <= i < t.len() {
                row(t[i]@)
            } else {
                seq![]
            },
    )
}

proof fn lemma_view(t: Toml)
    ensures
        t is Table ==> t@ == Tree::Table(row(t->Table_0@)),
        t is Tables ==> t@ == Tree::Tables(rows(t->Tables_0@)),
{
    match t {
        Toml::Table(v) => {
            assert(t@->Table_0 =~= row(v@));
        },
        Toml::Tables(l) => {
            assert forall|i: int| 0 <= i < l@.len() implies (#[trigger] t@->Tables_0[i]) == row(
                l@[i]@,
            ) by {
                assert(t@->Tables_0[i] =~= row(l@[i]@));
            }
            assert(t@->Tables_0 =~= rows(l@));
        },
        _ => {},
    }
}

/// What a reader sees of a node of a document.
pub open spec fn tree_of(n: Node) -> Tree
    decreases n,
{
    match n {
        Node::Table(b) => Tree::Table(
            Seq::new(
                b.entries.len(),
                |i: int|
                    if 0 <= i < b.entries.len() {
                        (b.entries[i].key, tree_of(b.entries[i].node))
                    } else {
                        (seq![], Tree::Other)
                    },
            ),
        ),
        Node::Inline(b) => Tree::Table(
            Seq::new(
                b.entries.len(),
                |i: int|
                    if 0 <= i < b.entries.len() {
                        (b.entries[i].key, tree_of(b.entries[i].node))
                    } else {
                        (seq![], Tree::Other)
                    },
            ),
        ),
        Node::Tables(t) => Tree::Tables(
            Seq::new(
                t.len(),
                |i: int|
                    if 0 <= i < t.len() {
                        Seq::new(
                            t[i].entries.len(),
                            |j: int|
                                if 0 <= j < t[i].entries.len() {
                                    (t[i].entries[j].key, tree_of(t[i].entries[j].node))
                                } else {
                                    (seq![], Tree::Other)
                                },
                        )
                    } else {
                        seq![]
                    },
            ),
        ),
        Node::Value(Scalar::Bool(b), _) => Tree::Bool(b),
        Node::Value(Scalar::Str(s), _) => Tree::Str(s),
        _ => Tree::Other,
    }
}

/// What a reader sees of the entries of a table.
pub open spec fn row_of(n: Node) -> Seq<(Seq<char>, Tree)> {
    Seq::new(
        entries_of(n).len(),
        |i: int|
            if 0 <= i < entries_of(n).len() {
                (entries_of(n)[i].key, tree_of(entries_of(n)[i].node))
            } else {
                (seq![], Tree::Other)
            },
    )
}

fn read_row(item: &toml_edit::Item) -> (r: Vec<(String, Toml)>)
    requires
        whole(*item),
    ensures
        row(r@) == row_of(node(*item)),
    decreases entries_of(node(*item)),
{
    let mut out: Vec<(String, Toml)> = Vec::new();
    let mut i: usize = 0;
    let ghost n = node(*item);
    loop
        invariant
            n == node(*item),
            whole(*item),
            i <= entries_of(n).len(),
            out@.len() == i,
            forall|j: int|
                0 <= j < i ==> (#[trigger] out@[j]).0@ == entries_of(n)[j].key && out@[j].1@
                    == tree_of(entries_of(n)[j].node),
        ensures
            i == entries_of(n).len(),
        decreases entries_of(n).len() - i,
    {
        match nth(item, i) {
            Some((key, x)) => {
                let value = read_item(x);
                out.push((key.to_owned(), value));
                i = out.len();
            },
            None => break,
        }
    }
    assert(row(out@) =~= row_of(n));
    out
}

/// Reads an item of a document.
pub fn read_item(item: &toml_edit::Item) -> (r: Toml)
    requires
        whole(*item),
    ensures
        r@ == tree_of(node(*item)),
    decreases node(*item),
{
    let ghost n = node(*item);
    if is_table_like(item) {
        let v = read_row(item);
        let r = Toml::Table(v);
        proof {
            lemma_view(r);
            assert(tree_of(n)->Table_0 =~= row_of(n));
        }
        r
    } else if is_tables(item) {
        let len: usize = tables_len(item);
        let mut out: Vec<Vec<(String, Toml)>> = Vec::new();
        let mut i: usize = 0;
        while i < len
            invariant
                n == node(*item),
                whole(*item),
                n is Tables,
                len == tables_of(n).len(),
                i <= len,
                out@.len() == i,
                forall|j: int|
                    0 <= j < i ==> row((#[trigger] out@[j])@) == row_of(
                        Node::Table(tables_of(n)[j]),
                    ),
            decreases len - i,
        {
            let t = tables_get(item, i);
            assert(decreases_to!(n => tables_of(n)[i as int].entries));
            let v = read_row(t);
            out.push(v);
            i += 1;
        }
        let r = Toml::Tables(out);
        proof {
            lemma_view(r);
            let want = tree_of(n)->Tables_0;
            assert forall|j: int| 0 <= j < want.len() implies #[trigger] want[j] == rows(out@)[j] by {
                assert(want[j] =~= row_of(Node::Table(tables_of(n)[j])));
                assert(out@[j]@ == out@[j]@);
            }
            assert(want =~= rows(out@));
        }
        r
    } else {
        match as_str(item) {
            Some(s) => Toml::Str(s.to_owned()),
            None => match as_bool(item) {
                Some(b) => Toml::Bool(b),
                None => Toml::Other,
            },
        }
    }
}

// --- looking things up -----------------------------------------------------------

/// What stands under `key` in a table; the first, where it is there twice.
pub open spec fn under(entries: Seq<(Seq<char>, Tree)>, key: Seq<char>) -> Option<Tree>
    decreases entries.len(),
{
    if entries.len() == 0 {
        None
    } else if entries[0].0 == key {
        Some(entries[0].1)
    } else {
        under(entries.skip(1), key)
    }
}

/// What stands under `key`, if `t` is a table that has it.
pub open spec fn tree_field(t: Tree, key: Seq<char>) -> Option<Tree> {
    match t {
        Tree::Table(entries) => under(entries, key),
        _ => None,
    }
}

/// The text that a value is, if it is one.
pub open spec fn tree_str(t: Option<Tree>) -> Option<Seq<char>> {
    match t {
        Some(Tree::Str(s)) => Some(s),
        _ => None,
    }
}

/// The truth value that a value is, or `other`.
pub open spec fn tree_bool(t: Option<Tree>, other: bool) -> bool {
    match t {
        Some(Tree::Bool(b)) => b,
        _ => other,
    }
}

/// What stands under `key` in the table under `section`.
pub open spec fn tree_field2(t: Tree, section: Seq<char>, key: Seq<char>) -> Option<Tree> {
    match tree_field(t, section) {
        Some(s) => tree_field(s, key),
        None => None,
    }
}

/// The tables of the list under `key`; none where it is no such list.
pub open spec fn tree_tables(t: Tree, key: Seq<char>) -> Seq<Seq<(Seq<char>, Tree)>> {
    match tree_field(t, key) {
        Some(Tree::Tables(l)) => l,
        _ => seq![],
    }
}

/// Looks a key up among the entries of a table.
pub fn find_in<'a>(v: &'a Vec<(String, Toml)>, key: &str) -> (r: Option<&'a Toml>)
    ensures
        match r {
            Some(x) => under(row(v@), key@) == Some(x@),
            None => under(row(v@), key@) is None,
        },
{
    let mut i: usize = 0;
    assert(row(v@).skip(0) =~= row(v@));
    while i < v.len()
        invariant
            i <= v@.len(),
            under(row(v@), key@) == under(row(v@).skip(i as int), key@),
        decreases v@.len() - i,
    {
        assert(row(v@).skip(i as int)[0] == row(v@)[i as int]);
        if same(v[i].0.as_str(), key) {
            return Some(&v[i].1);
        }
        assert(row(v@).skip(i as int).skip(1) =~= row(v@).skip(i + 1));
        i += 1;
    }
    None
}

impl Toml {
    /// What stands under `key`, if this is a table that has it.
    pub fn field(&self, key: &str) -> (r: Option<&Toml>)
        ensures
            match r {
                Some(x) => tree_field(self@, key@) == Some(x@),
                None => tree_field(self@, key@) is None,
            },
    {
        proof {
            lemma_view(*self);
        }
        match self {
            Toml::Table(v) => find_in(v, key),
            _ => None,
        }
    }

    /// What stands under `key` in the table under `section`.
    pub fn field2(&self, section: &str, key: &str) -> (r: Option<&Toml>)
        ensures
            match r {
                Some(x) => tree_field2(self@, section@, key@) == Some(x@),
                None => tree_field2(self@, section@, key@) is None,
            },
    {
        match self.field(section) {
            Some(s) => s.field(key),
            None => None,
        }
    }

    /// The entries of a table, in order.
    pub fn table(&self) -> (r: Option<&Vec<(String, Toml)>>)
        ensures
            match r {
                Some(v) => self@ == Tree::Table(row(v@)),
                None => !(self@ is Table),
            },
    {
        proof {
            lemma_view(*self);
        }
        match self {
            Toml::Table(v) => Some(v),
            _ => None,
        }
    }

    /// The tables of the list under `key`; `None` where it is no such list.
    pub fn tables(&self, key: &str) -> (r: Option<&Vec<Vec<(String, Toml)>>>)
        ensures
            match r {
                Some(t) => tree_tables(self@, key@) == rows(t@),
                None => tree_tables(self@, key@) == Seq::<Seq<(Seq<char>, Tree)>>::empty(),
            },
    {
        match self.field(key) {
            Some(x) => {
                proof {
                    lemma_view(*x);
                }
                match x {
                    Toml::Tables(t) => Some(t),
                    _ => None,
                }
            },
            None => None,
        }
    }
}

/// The text that an optional value is, if it is one.
pub fn str_of<'a>(o: Option<&'a Toml>) -> (r: Option<&'a str>)
    ensures
        crate::text::opt_str(r) == tree_str(
            match o {
                Some(x) => Some(x@),
                None => None,
            },
        ),
{
    match o {
        Some(Toml::Str(s)) => Some(s.as_str()),
        _ => None,
    }
}

/// The truth value that an optional value is, or `other`.
pub fn bool_of(o: Option<&Toml>, other: bool) -> (r: bool)
    ensures
        r == tree_bool(
            match o {
                Some(x) => Some(x@),
                None => None,
            },
            other,
        ),
{
    match o {
        Some(Toml::Bool(b)) => *b,
        _ => other,
    }
}

} // verus!
