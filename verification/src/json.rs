//! JSON values, as `serde_json` reads and writes them.
use crate::keymap::ascending;
use crate::text::same;
use vstd::prelude::*;

verus! {

/// A JSON value as plain values.
#[derive(Debug)]
pub enum Json {
    Null,
    Bool(bool),
    /// A number; no reader asks which.
    Number,
    Text(String),
    List(Vec<Json>),
    Object(Vec<(String, Json)>),
}

/// What a [`Json`] holds.
pub enum JsonTree {
    Null,
    Bool(bool),
    Number,
    Text(Seq<char>),
    List(Seq<JsonTree>),
    Object(Seq<(Seq<char>, JsonTree)>),
}

impl Json {
    pub open spec fn view(&self) -> JsonTree
        decreases self,
    {
        match self {
            Json::Null => JsonTree::Null,
            Json::Bool(b) => JsonTree::Bool(*b),
            Json::Number => JsonTree::Number,
            Json::Text(s) => JsonTree::Text(s@),
            Json::List(v) => JsonTree::List(
                Seq::new(
                    v@.len(),
                    |i: int|
                        if 0 <= i < v@.len() {
                            v@[i].view()
                        } else {
                            JsonTree::Null
                        },
                ),
            ),
            Json::Object(v) => JsonTree::Object(
                Seq::new(
                    v@.len(),
                    |i: int|
                        if 0 <= i < v@.len() {
                            (v@[i].0@, v@[i].1.view())
                        } else {
                            (seq![], JsonTree::Null)
                        },
                ),
            ),
        }
    }
}

/// The values of a list.
pub open spec fn list_trees(v: Seq<Json>) -> Seq<JsonTree> {
    v.map_values(|x: Json| x@)
}

/// The entries of an object.
pub open spec fn object_trees(v: Seq<(String, Json)>) -> Seq<(Seq<char>, JsonTree)> {
    v.map_values(|x: (String, Json)| (x.0@, x.1@))
}

proof fn lemma_json_view(j: Json)
    ensures
        j is List ==> j@ == JsonTree::List(list_trees(j->List_0@)),
        j is Object ==> j@ == JsonTree::Object(object_trees(j->Object_0@)),
{
    match j {
        Json::List(v) => {
            assert(j@->List_0 =~= list_trees(v@));
        },
        Json::Object(v) => {
            assert(j@->Object_0 =~= object_trees(v@));
        },
        _ => {},
    }
}

// --- values of the crate `serde_json` --------------------------------------------

/// `serde_json::Value`: any JSON value.
#[verifier::external_type_specification]
#[verifier::external_body]
pub struct ExValue(serde_json::Value);

/// What a value holds.
pub uninterp spec fn json(v: serde_json::Value) -> JsonTree;

/// What `serde_json` reads from a text: the value, or why the text is none.
pub uninterp spec fn json_parse(text: Seq<char>) -> Result<JsonTree, Seq<char>>;

/// What `serde_json` reads from bytes: the value, or why the bytes are none.
pub uninterp spec fn json_parse_bytes(bytes: Seq<u8>) -> Result<JsonTree, Seq<char>>;

/// The text that `serde_json` writes for a value without numbers, with line
/// breaks and indents.
pub uninterp spec fn json_text(t: JsonTree) -> Seq<char>;

/// A value, opened by one level.
pub enum Opened<'a> {
    Null,
    Bool(bool),
    Number,
    Text(&'a str),
    List(&'a Vec<serde_json::Value>),
    Object(Vec<(&'a String, &'a serde_json::Value)>),
}

/// What an opened value holds.
pub open spec fn opened(o: Opened) -> JsonTree {
    match o {
        Opened::Null => JsonTree::Null,
        Opened::Bool(b) => JsonTree::Bool(b),
        Opened::Number => JsonTree::Number,
        Opened::Text(s) => JsonTree::Text(s@),
        Opened::List(v) => JsonTree::List(v@.map_values(|x: serde_json::Value| json(x))),
        Opened::Object(v) => JsonTree::Object(
            v@.map_values(|x: (&String, &serde_json::Value)| (x.0@, json(*x.1))),
        ),
    }
}

/// `serde_json::from_str` to a `serde_json::Value`: the value that the text is,
/// or the message of the error. The result depends on the text alone.
#[verifier::external_body]
fn value_from_text(text: &str) -> (r: Result<serde_json::Value, String>)
    ensures
        match r {
            Ok(v) => json_parse(text@) == Ok::<JsonTree, Seq<char>>(json(v)),
            Err(e) => json_parse(text@) == Err::<JsonTree, Seq<char>>(e@),
        },
{
    serde_json::from_str::<serde_json::Value>(text).map_err(|e| e.to_string())
}

/// `serde_json::from_slice` to a `serde_json::Value`: the value that the bytes
/// are, or the message of the error. The result depends on the bytes alone.
#[verifier::external_body]
fn value_from_bytes(bytes: &Vec<u8>) -> (r: Result<serde_json::Value, String>)
    ensures
        match r {
            Ok(v) => json_parse_bytes(bytes@) == Ok::<JsonTree, Seq<char>>(json(v)),
            Err(e) => json_parse_bytes(bytes@) == Err::<JsonTree, Seq<char>>(e@),
        },
{
    serde_json::from_slice::<serde_json::Value>(bytes).map_err(|e| e.to_string())
}

/// The variants of `serde_json::Value`, and `serde_json::Map::iter` for an
/// object: its entries in their order.
#[verifier::external_body]
fn open_value<'a>(v: &'a serde_json::Value) -> (r: Opened<'a>)
    ensures
        opened(r) == json(*v),
{
    match v {
        serde_json::Value::Null => Opened::Null,
        serde_json::Value::Bool(b) => Opened::Bool(*b),
        serde_json::Value::Number(_) => Opened::Number,
        serde_json::Value::String(s) => Opened::Text(s.as_str()),
        serde_json::Value::Array(l) => Opened::List(l),
        serde_json::Value::Object(m) => Opened::Object(m.iter().collect()),
    }
}

/// `serde_json::Value::Null`.
#[verifier::external_body]
pub(crate) fn null_value() -> (r: serde_json::Value)
    ensures
        json(r) == JsonTree::Null,
{
    serde_json::Value::Null
}

/// `serde_json::Value::String`.
#[verifier::external_body]
pub(crate) fn text_value(s: String) -> (r: serde_json::Value)
    ensures
        json(r) == JsonTree::Text(s@),
{
    serde_json::Value::String(s)
}

/// `serde_json::Value::Array`.
#[verifier::external_body]
pub(crate) fn list_value(v: Vec<serde_json::Value>) -> (r: serde_json::Value)
    ensures
        json(r) == JsonTree::List(v@.map_values(|x: serde_json::Value| json(x))),
{
    serde_json::Value::Array(v)
}

/// The keys of the entries of an object.
pub open spec fn entry_keys(v: Seq<(String, serde_json::Value)>) -> Seq<Seq<char>> {
    v.map_values(|x: (String, serde_json::Value)| x.0@)
}

/// `serde_json::Value::Object` of a `serde_json::Map` that is collected from
/// entries: the map holds them in the order of their keys.
#[verifier::external_body]
pub(crate) fn object_value(v: Vec<(String, serde_json::Value)>) -> (r: serde_json::Value)
    requires
        ascending(entry_keys(v@)),
    ensures
        json(r) == JsonTree::Object(
            v@.map_values(|x: (String, serde_json::Value)| (x.0@, json(x.1))),
        ),
{
    serde_json::Value::Object(v.into_iter().collect())
}

/// Whether a value holds no number and is nested at most `depth` deep.
pub open spec fn plain_json(t: JsonTree, depth: nat) -> bool
    decreases t,
{
    match t {
        JsonTree::Number => false,
        JsonTree::List(v) => depth > 0 && forall|i: int|
            0 <= i < v.len() ==> plain_json(#[trigger] v[i], (depth - 1) as nat),
        JsonTree::Object(v) => depth > 0 && forall|i: int|
            0 <= i < v.len() ==> plain_json((#[trigger] v[i]).1, (depth - 1) as nat),
        _ => true,
    }
}

/// `serde_json::to_string_pretty` of a value without numbers, nested at most a
/// hundred deep. The text depends on the value alone, and `serde_json::from_str`
/// reads the value back from it.
#[verifier::external_body]
pub(crate) fn value_text(v: &serde_json::Value) -> (r: String)
    requires
        plain_json(json(*v), 100),
    ensures
        r@ == json_text(json(*v)),
        match json_parse(r@) {
            Ok(t) => t == json(*v),
            Err(_) => false,
        },
{
    serde_json::to_string_pretty(v).unwrap()
}

fn read_value(v: &serde_json::Value) -> (r: Json)
    ensures
        r@ == json(*v),
    decreases json(*v),
{
    let ghost t = json(*v);
    match open_value(v) {
        Opened::Null => Json::Null,
        Opened::Bool(b) => Json::Bool(b),
        Opened::Number => Json::Number,
        Opened::Text(s) => Json::Text(s.to_owned()),
        Opened::List(l) => {
            let mut out: Vec<Json> = Vec::new();
            let mut i: usize = 0;
            while i < l.len()
                invariant
                    t == json(*v),
                    t is List,
                    t->List_0 == l@.map_values(|x: serde_json::Value| json(x)),
                    i <= l@.len(),
                    out@.len() == i,
                    forall|j: int| 0 <= j < i ==> (#[trigger] out@[j])@ == t->List_0[j],
                decreases l@.len() - i,
            {
                assert(t->List_0[i as int] == json(l@[i as int]));
                assert(decreases_to!(t => t->List_0[i as int]));
                let x = read_value(&l[i]);
                out.push(x);
                i += 1;
            }
            let r = Json::List(out);
            proof {
                lemma_json_view(r);
                assert(list_trees(out@) =~= t->List_0);
            }
            r
        },
        Opened::Object(o) => {
            let mut out: Vec<(String, Json)> = Vec::new();
            let mut i: usize = 0;
            while i < o.len()
                invariant
                    t == json(*v),
                    t is Object,
                    t->Object_0 == o@.map_values(
                        |x: (&String, &serde_json::Value)| (x.0@, json(*x.1)),
                    ),
                    i <= o@.len(),
                    out@.len() == i,
                    forall|j: int|
                        0 <= j < i ==> ((#[trigger] out@[j]).0@, out@[j].1@) == t->Object_0[j],
                decreases o@.len() - i,
            {
                assert(t->Object_0[i as int] == (o@[i as int].0@, json(*o@[i as int].1)));
                assert(decreases_to!(t => t->Object_0[i as int].1));
                let x = read_value(o[i].1);
                out.push((o[i].0.clone(), x));
                i += 1;
            }
            let r = Json::Object(out);
            proof {
                lemma_json_view(r);
                assert(object_trees(out@) =~= t->Object_0);
            }
            r
        },
    }
}

/// Reads a JSON text.
pub fn parse_json(text: &str) -> (r: Result<Json, String>)
    ensures
        match r {
            Ok(j) => json_parse(text@) == Ok::<JsonTree, Seq<char>>(j@),
            Err(e) => json_parse(text@) == Err::<JsonTree, Seq<char>>(e@),
        },
{
    match value_from_text(text) {
        Ok(v) => Ok(read_value(&v)),
        Err(e) => Err(e),
    }
}

/// Reads JSON bytes.
pub fn parse_json_bytes(bytes: &Vec<u8>) -> (r: Result<Json, String>)
    ensures
        match r {
            Ok(j) => json_parse_bytes(bytes@) == Ok::<JsonTree, Seq<char>>(j@),
            Err(e) => json_parse_bytes(bytes@) == Err::<JsonTree, Seq<char>>(e@),
        },
{
    match value_from_bytes(bytes) {
        Ok(v) => Ok(read_value(&v)),
        Err(e) => Err(e),
    }
}

// --- looking things up -----------------------------------------------------------

/// What stands under `key` among the entries of an object.
pub open spec fn entry_at(v: Seq<(Seq<char>, JsonTree)>, key: Seq<char>) -> Option<JsonTree>
    decreases v.len(),
{
    if v.len() == 0 {
        None
    } else if v[0].0 == key {
        Some(v[0].1)
    } else {
        entry_at(v.skip(1), key)
    }
}

/// What stands under `key`, if `t` is an object that has it.
pub open spec fn json_field(t: JsonTree, key: Seq<char>) -> Option<JsonTree> {
    match t {
        JsonTree::Object(v) => entry_at(v, key),
        _ => None,
    }
}

/// The text under `key`, if there is one.
pub open spec fn json_str(t: JsonTree, key: Seq<char>) -> Option<Seq<char>> {
    match json_field(t, key) {
        Some(JsonTree::Text(s)) => Some(s),
        _ => None,
    }
}

/// The text under `key`, or an empty one.
pub open spec fn json_str_or(t: JsonTree, key: Seq<char>) -> Seq<char> {
    match json_str(t, key) {
        Some(s) => s,
        None => seq![],
    }
}

/// The values of the list under `key`; none where there is no list.
pub open spec fn json_list(t: JsonTree, key: Seq<char>) -> Seq<JsonTree> {
    match json_field(t, key) {
        Some(JsonTree::List(v)) => v,
        _ => seq![],
    }
}

impl Json {
    /// What stands under `key`, if this is an object that has it.
    pub fn field(&self, key: &str) -> (r: Option<&Json>)
        ensures
            match r {
                Some(x) => json_field(self@, key@) == Some(x@),
                None => json_field(self@, key@) is None,
            },
    {
        proof {
            lemma_json_view(*self);
        }
        match self {
            Json::Object(v) => {
                let ghost all = object_trees(v@);
                let mut i: usize = 0;
                assert(all.skip(0) =~= all);
                while i < v.len()
                    invariant
                        all == object_trees(v@),
                        self@ == JsonTree::Object(all),
                        i <= v@.len(),
                        entry_at(all, key@) == entry_at(all.skip(i as int), key@),
                    decreases v@.len() - i,
                {
                    assert(all.skip(i as int)[0] == all[i as int]);
                    if same(v[i].0.as_str(), key) {
                        return Some(&v[i].1);
                    }
                    assert(all.skip(i as int).skip(1) =~= all.skip(i + 1));
                    i += 1;
                }
                None
            },
            _ => None,
        }
    }

    /// The text under `key`, if there is one.
    pub fn str(&self, key: &str) -> (r: Option<&str>)
        ensures
            crate::text::opt_str(r) == json_str(self@, key@),
    {
        match self.field(key) {
            Some(Json::Text(s)) => Some(s.as_str()),
            _ => None,
        }
    }

    /// The text under `key`, or an empty one.
    pub fn str_or(&self, key: &str) -> (r: String)
        ensures
            r@ == json_str_or(self@, key@),
    {
        match self.str(key) {
            Some(s) => s.to_owned(),
            None => {
                let r = String::new();
                assert(r@ =~= seq![]);
                r
            },
        }
    }

    /// The values of the list under `key`, if there is one.
    pub fn list(&self, key: &str) -> (r: Option<&Vec<Json>>)
        ensures
            match r {
                Some(v) => json_list(self@, key@) == list_trees(v@),
                None => json_list(self@, key@) == Seq::<JsonTree>::empty(),
            },
    {
        match self.field(key) {
            Some(x) => {
                proof {
                    lemma_json_view(*x);
                }
                match x {
                    Json::List(v) => Some(v),
                    _ => None,
                }
            },
            None => None,
        }
    }

    /// The entries of an object.
    pub fn entries(&self) -> (r: Option<&Vec<(String, Json)>>)
        ensures
            match r {
                Some(v) => self@ == JsonTree::Object(object_trees(v@)),
                None => !(self@ is Object),
            },
    {
        proof {
            lemma_json_view(*self);
        }
        match self {
            Json::Object(v) => Some(v),
            _ => None,
        }
    }
}

} // verus!
