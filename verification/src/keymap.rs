//! A map from text keys to values, walked in the order of its keys.
use crate::text::{
    before, is_before, lemma_before_irreflexive, lemma_before_total, lemma_before_transitive, same,
};
use vstd::prelude::*;

verus! {

/// Entries in the order of their keys, no key twice.
#[derive(Debug)]
pub struct KeyMap<V> {
    pub entries: Vec<(String, V)>,
}

/// Whether each text comes before all that follow it.
pub open spec fn ascending(keys: Seq<Seq<char>>) -> bool {
    forall|i: int, j: int|
        0 <= i < j < keys.len() ==> before(#[trigger] keys[i], #[trigger] keys[j])
}

pub proof fn lemma_ascending_distinct(keys: Seq<Seq<char>>, i: int, j: int)
    requires
        ascending(keys),
        0 <= i < keys.len(),
        0 <= j < keys.len(),
        keys[i] == keys[j],
    ensures
        i == j,
{
    lemma_before_irreflexive(keys[i]);
}

/// Two ascending lists of the same texts are the same list.
proof fn lemma_ascending_unique(a: Seq<Seq<char>>, b: Seq<Seq<char>>)
    requires
        ascending(a),
        ascending(b),
        forall|k: Seq<char>| a.contains(k) <==> b.contains(k),
    ensures
        a == b,
    decreases a.len(),
{
    if a.len() == 0 {
        if b.len() > 0 {
            assert(b.contains(b[0]));
            assert(a.contains(b[0]));
        }
        assert(a =~= b);
    } else {
        let x = a.last();
        assert(a.contains(x));
        assert(b.contains(x));
        let y = b.last();
        assert(b.contains(y));
        assert(a.contains(y));
        let i = choose|i: int| 0 <= i < a.len() && a[i] == y;
        let j = choose|j: int| 0 <= j < b.len() && b[j] == x;
        assert(x == y) by {
            if i < a.len() - 1 && j < b.len() - 1 {
                lemma_before_transitive(x, y, x);
                lemma_before_irreflexive(x);
            }
        }
        let a1 = a.drop_last();
        let b1 = b.drop_last();
        assert forall|k: Seq<char>| a1.contains(k) <==> b1.contains(k) by {
            if a1.contains(k) {
                let m = choose|m: int| 0 <= m < a1.len() && a1[m] == k;
                assert(a[m] == k);
                assert(b.contains(k));
                let n = choose|n: int| 0 <= n < b.len() && b[n] == k;
                if n == b.len() - 1 {
                    lemma_ascending_distinct(a, m, a.len() - 1);
                }
                assert(b1[n] == k);
            }
            if b1.contains(k) {
                let m = choose|m: int| 0 <= m < b1.len() && b1[m] == k;
                assert(b[m] == k);
                assert(a.contains(k));
                let n = choose|n: int| 0 <= n < a.len() && a[n] == k;
                if n == a.len() - 1 {
                    lemma_ascending_distinct(b, m, b.len() - 1);
                }
                assert(a1[n] == k);
            }
        }
        lemma_ascending_unique(a1, b1);
        assert(a =~= a1.push(x));
        assert(b =~= b1.push(y));
    }
}

/// The keys of a map, in their order.
pub open spec fn sorted_keys<V>(m: Map<Seq<char>, V>) -> Seq<Seq<char>> {
    choose|keys: Seq<Seq<char>>| #[trigger]
        ascending(keys) && forall|k: Seq<char>| keys.contains(k) <==> m.contains_key(k)
}

/// An ascending list with one more text in it.
proof fn lemma_ascending_with(keys: Seq<Seq<char>>, k: Seq<char>) -> (r: Seq<Seq<char>>)
    requires
        ascending(keys),
        !keys.contains(k),
    ensures
        ascending(r),
        forall|x: Seq<char>| #[trigger] r.contains(x) <==> keys.contains(x) || x == k,
    decreases keys.len(),
{
    if keys.len() == 0 {
        let r = seq![k];
        assert(r[0] == k);
        assert forall|x: Seq<char>| #[trigger] r.contains(x) implies keys.contains(x) || x == k by {}
        r
    } else {
        let last = keys.last();
        assert(keys[keys.len() - 1] == last);
        lemma_before_total(last, k);
        if before(last, k) {
            let r = keys.push(k);
            assert forall|i: int, j: int| 0 <= i < j < r.len() implies before(
                #[trigger] r[i],
                #[trigger] r[j],
            ) by {
                if j == keys.len() && i < keys.len() - 1 {
                    assert(before(keys[i], keys[keys.len() - 1]));
                    lemma_before_transitive(keys[i], last, k);
                }
            }
            assert forall|x: Seq<char>| #[trigger] r.contains(x) <==> keys.contains(x) || x == k by {
                if keys.contains(x) {
                    let i = choose|i: int| 0 <= i < keys.len() && keys[i] == x;
                    assert(r[i] == x);
                }
                assert(r[keys.len() as int] == k);
            }
            r
        } else {
            let rest = keys.drop_last();
            assert(!rest.contains(k)) by {
                if rest.contains(k) {
                    let i = choose|i: int| 0 <= i < rest.len() && rest[i] == k;
                    assert(keys[i] == k);
                }
            }
            let small = lemma_ascending_with(rest, k);
            let r = small.push(last);
            assert forall|i: int, j: int| 0 <= i < j < r.len() implies before(
                #[trigger] r[i],
                #[trigger] r[j],
            ) by {
                if j == small.len() {
                    assert(small.contains(small[i]));
                    if r[i] != k {
                        assert(rest.contains(r[i]));
                        let m = choose|m: int| 0 <= m < rest.len() && rest[m] == r[i];
                        assert(before(keys[m], keys[keys.len() - 1]));
                    }
                }
            }
            assert forall|x: Seq<char>| #[trigger] r.contains(x) <==> keys.contains(x) || x == k by {
                if keys.contains(x) {
                    let i = choose|i: int| 0 <= i < keys.len() && keys[i] == x;
                    if i < rest.len() {
                        assert(rest[i] == x);
                        assert(small.contains(x));
                        let m = choose|m: int| 0 <= m < small.len() && small[m] == x;
                        assert(r[m] == x);
                    } else {
                        assert(r[small.len() as int] == x);
                    }
                }
                if x == k {
                    assert(small.contains(k));
                    let m = choose|m: int| 0 <= m < small.len() && small[m] == k;
                    assert(r[m] == k);
                }
                if r.contains(x) {
                    let m = choose|m: int| 0 <= m < r.len() && r[m] == x;
                    if m < small.len() {
                        assert(small.contains(x));
                        if x != k {
                            assert(rest.contains(x));
                            let i = choose|i: int| 0 <= i < rest.len() && rest[i] == x;
                            assert(keys[i] == x);
                        }
                    }
                }
            }
            r
        }
    }
}

proof fn lemma_ascending_exists(s: Set<Seq<char>>) -> (r: Seq<Seq<char>>)
    requires
        s.finite(),
    ensures
        ascending(r),
        forall|k: Seq<char>| #[trigger] r.contains(k) <==> s.contains(k),
    decreases s.len(),
{
    if s.len() == 0 {
        let r = Seq::<Seq<char>>::empty();
        assert(s =~= Set::empty());
        r
    } else {
        let k = s.choose();
        let rest = lemma_ascending_exists(s.remove(k));
        assert(!rest.contains(k));
        let r = lemma_ascending_with(rest, k);
        assert forall|x: Seq<char>| #[trigger] r.contains(x) <==> s.contains(x) by {
            assert(rest.contains(x) <==> s.remove(k).contains(x));
        }
        r
    }
}

/// The sorted keys of a finite map are its keys, each once, in order.
pub proof fn lemma_sorted<V>(m: Map<Seq<char>, V>)
    requires
        m.dom().finite(),
    ensures
        ascending(sorted_keys(m)),
        forall|k: Seq<char>| #[trigger] sorted_keys(m).contains(k) <==> m.contains_key(k),
        sorted_keys(m).no_duplicates(),
{
    let keys = lemma_ascending_exists(m.dom());
    assert(ascending(keys) && forall|k: Seq<char>| keys.contains(k) <==> m.contains_key(k));
    let got = sorted_keys(m);
    assert(ascending(got) && forall|k: Seq<char>| got.contains(k) <==> m.contains_key(k));
    assert forall|i: int, j: int| 0 <= i < got.len() && 0 <= j < got.len() && i != j implies got[i]
        != got[j] by {
        if got[i] == got[j] {
            lemma_ascending_distinct(got, i, j);
        }
    }
}

impl<V> KeyMap<V> {
    /// The keys, in order.
    pub open spec fn keys(&self) -> Seq<Seq<char>> {
        self.entries@.map_values(|e: (String, V)| e.0@)
    }

    /// The entries stand in the order of their keys, no key twice.
    pub open spec fn wf(&self) -> bool {
        ascending(self.keys())
    }

    /// The value of each key.
    pub open spec fn view(&self) -> Map<Seq<char>, V> {
        Map::new(
            |k: Seq<char>| self.keys().contains(k),
            |k: Seq<char>| self.entries@[self.keys().index_of(k)].1,
        )
    }

    /// The key and the value of each entry belong together.
    pub proof fn lemma_entry(&self, i: int)
        requires
            self.wf(),
            0 <= i < self.entries@.len(),
        ensures
            self.keys().len() == self.entries@.len(),
            self.keys()[i] == self.entries@[i].0@,
            self@.contains_key(self.keys()[i]),
            self@[self.keys()[i]] == self.entries@[i].1,
    {
        let k = self.keys()[i];
        assert(self.keys().contains(k));
        lemma_ascending_distinct(self.keys(), self.keys().index_of(k), i);
    }

    /// The keys of the map are the sorted keys of any map with the same ones.
    pub proof fn lemma_sorted_keys<W>(&self, m: Map<Seq<char>, W>)
        requires
            self.wf(),
            m.dom() == self@.dom(),
        ensures
            self.keys() == sorted_keys(m),
    {
        let keys = self.keys();
        assert forall|k: Seq<char>| keys.contains(k) <==> m.contains_key(k) by {
            assert(self@.contains_key(k) == keys.contains(k));
            assert(m.dom().contains(k) == self@.dom().contains(k));
        }
        assert(ascending(keys));
        let other = sorted_keys(m);
        assert(ascending(other) && forall|k: Seq<char>| other.contains(k) <==> m.contains_key(k));
        lemma_ascending_unique(keys, other);
    }

    /// An empty map.
    pub fn new() -> (r: Self)
        ensures
            r.wf(),
            r@ == Map::<Seq<char>, V>::empty(),
            r.keys() == Seq::<Seq<char>>::empty(),
    {
        let r = KeyMap { entries: Vec::new() };
        assert(r@ =~= Map::<Seq<char>, V>::empty());
        assert(r.keys() =~= Seq::<Seq<char>>::empty());
        r
    }

    /// How many keys the map holds.
    pub fn len(&self) -> (r: usize)
        ensures
            r == self.keys().len(),
            r == self.entries@.len(),
    {
        self.entries.len()
    }

    /// The index of the first entry whose key does not come before `key`, and
    /// whether it is the entry of `key`.
    fn place(&self, key: &str) -> (r: (usize, bool))
        requires
            self.wf(),
        ensures
            r.0 <= self.entries@.len(),
            forall|j: int| 0 <= j < r.0 ==> before(#[trigger] self.keys()[j], key@),
            r.1 ==> r.0 < self.entries@.len() && self.keys()[r.0 as int] == key@,
            !r.1 ==> !self.keys().contains(key@) && forall|j: int|
                r.0 <= j < self.keys().len() ==> before(key@, #[trigger] self.keys()[j]),
    {
        let mut i: usize = 0;
        while i < self.entries.len() && is_before(self.entries[i].0.as_str(), key)
            invariant
                i <= self.entries@.len(),
                forall|j: int| 0 <= j < i ==> before(#[trigger] self.keys()[j], key@),
            decreases self.entries@.len() - i,
        {
            i += 1;
        }
        if i < self.entries.len() && same(self.entries[i].0.as_str(), key) {
            return (i, true);
        }
        proof {
            let keys = self.keys();
            if i < keys.len() {
                lemma_before_total(keys[i as int], key@);
                assert forall|j: int| i <= j < keys.len() implies before(
                    key@,
                    #[trigger] keys[j],
                ) by {
                    if j > i {
                        lemma_before_transitive(key@, keys[i as int], keys[j]);
                    }
                }
            }
            lemma_before_irreflexive(key@);
            if keys.contains(key@) {
                let m = choose|m: int| 0 <= m < keys.len() && keys[m] == key@;
                assert(keys[m] == key@);
            }
        }
        (i, false)
    }

    /// The value of `key`, if the map holds it.
    pub fn get(&self, key: &str) -> (r: Option<&V>)
        requires
            self.wf(),
        ensures
            match r {
                Some(v) => self@.contains_key(key@) && self@[key@] == *v,
                None => !self@.contains_key(key@),
            },
    {
        let (i, found) = self.place(key);
        if found {
            proof {
                self.lemma_entry(i as int);
            }
            Some(&self.entries[i].1)
        } else {
            None
        }
    }

    /// Whether the map holds `key`.
    pub fn has(&self, key: &str) -> (r: bool)
        requires
            self.wf(),
        ensures
            r == self@.contains_key(key@),
    {
        self.get(key).is_some()
    }

    /// Gives `key` the value `value`.
    pub fn insert(&mut self, key: String, value: V)
        requires
            old(self).wf(),
        ensures
            final(self).wf(),
            final(self)@ == old(self)@.insert(key@, value),
    {
        let (i, found) = self.place(key.as_str());
        let ghost before_keys = self.keys();
        let ghost before_map = self@;
        let ghost olds = *self;
        if found {
            self.entries.set(i, (key, value));
            assert(self.keys() =~= before_keys);
        } else {
            self.entries.insert(i, (key, value));
            assert(self.keys() =~= before_keys.insert(i as int, key@));
            assert forall|a: int, b: int| 0 <= a < b < self.keys().len() implies before(
                #[trigger] self.keys()[a],
                #[trigger] self.keys()[b],
            ) by {
                let x = if a < i {
                    a
                } else {
                    a - 1
                };
                let y = if b < i {
                    b
                } else {
                    b - 1
                };
                if a != i {
                    assert(self.keys()[a] == before_keys[x]);
                }
                if b != i {
                    assert(self.keys()[b] == before_keys[y]);
                }
            }
        }
        proof {
            let want = before_map.insert(key@, value);
            assert forall|k: Seq<char>| self@.contains_key(k) <==> want.contains_key(k) by {
                if self.keys().contains(k) && k != key@ {
                    let m = choose|m: int| 0 <= m < self.keys().len() && self.keys()[m] == k;
                    let x = if found || m < i {
                        m
                    } else {
                        m - 1
                    };
                    assert(before_keys[x] == k);
                }
                if before_keys.contains(k) {
                    let m = choose|m: int| 0 <= m < before_keys.len() && before_keys[m] == k;
                    let x = if found || m < i {
                        m
                    } else {
                        m + 1
                    };
                    assert(self.keys()[x] == k);
                }
                assert(self.keys()[i as int] == key@);
            }
            assert forall|k: Seq<char>| self@.contains_key(k) implies #[trigger] self@[k]
                == want[k] by {
                let m = choose|m: int| 0 <= m < self.keys().len() && self.keys()[m] == k;
                self.lemma_entry(m);
                if m == i {
                } else {
                    let x = if found || m < i {
                        m
                    } else {
                        m - 1
                    };
                    olds.lemma_entry(x);
                    assert(olds.keys()[x] == k);
                    lemma_ascending_distinct(self.keys(), m, m);
                    if k == key@ {
                        lemma_ascending_distinct(self.keys(), m, i as int);
                    }
                }
            }
            assert(self@ =~= want);
        }
    }

    /// Takes `key` out of the map.
    pub fn remove(&mut self, key: &str)
        requires
            old(self).wf(),
        ensures
            final(self).wf(),
            final(self)@ == old(self)@.remove(key@),
    {
        let (i, found) = self.place(key);
        let ghost olds = *self;
        if found {
            self.entries.remove(i);
            proof {
                assert(self.keys() =~= olds.keys().remove(i as int));
                assert(self.wf());
                let want = olds@.remove(key@);
                assert forall|k: Seq<char>| self@.contains_key(k) <==> want.contains_key(k) by {
                    if self.keys().contains(k) {
                        let m = choose|m: int| 0 <= m < self.keys().len() && self.keys()[m] == k;
                        let x = if m < i {
                            m
                        } else {
                            m + 1
                        };
                        assert(olds.keys()[x] == k);
                        if k == key@ {
                            lemma_ascending_distinct(olds.keys(), x, i as int);
                        }
                    }
                    if olds.keys().contains(k) && k != key@ {
                        let m = choose|m: int| 0 <= m < olds.keys().len() && olds.keys()[m] == k;
                        let x = if m < i {
                            m
                        } else {
                            m - 1
                        };
                        assert(self.keys()[x] == k);
                    }
                }
                assert forall|k: Seq<char>| self@.contains_key(k) implies #[trigger] self@[k]
                    == want[k] by {
                    let m = choose|m: int| 0 <= m < self.keys().len() && self.keys()[m] == k;
                    self.lemma_entry(m);
                    let x = if m < i {
                        m
                    } else {
                        m + 1
                    };
                    olds.lemma_entry(x);
                    assert(olds.keys()[x] == k);
                    if k == key@ {
                        lemma_ascending_distinct(olds.keys(), x, i as int);
                    }
                    assert(want.contains_key(k));
                }
                assert(self@ =~= want);
            }
        } else {
            assert(self@ =~= olds@.remove(key@));
        }
    }
}

/// The text of each key.
pub open spec fn text_map(m: KeyMap<String>) -> Map<Seq<char>, Seq<char>> {
    m@.map_values(|s: String| s@)
}

/// The value of `key`, if the map holds it.
pub open spec fn lookup<V>(m: Map<Seq<char>, V>, key: Seq<char>) -> Option<V> {
    if m.contains_key(key) {
        Some(m[key])
    } else {
        None
    }
}

impl KeyMap<String> {
    /// A copy of the map.
    pub fn copy(&self) -> (r: Self)
        ensures
            r.entries@ == self.entries@,
    {
        let mut out: Vec<(String, String)> = Vec::new();
        let mut i: usize = 0;
        while i < self.entries.len()
            invariant
                i <= self.entries@.len(),
                out@ == self.entries@.take(i as int),
            decreases self.entries@.len() - i,
        {
            out.push((self.entries[i].0.clone(), self.entries[i].1.clone()));
            i += 1;
            assert(out@ =~= self.entries@.take(i as int));
        }
        assert(out@ =~= self.entries@);
        KeyMap { entries: out }
    }

    /// A copy of the value of `key`, if the map holds it.
    pub fn copy_of(&self, key: &str) -> (r: Option<String>)
        requires
            self.wf(),
        ensures
            crate::text::opt_text(r) == lookup(text_map(*self), key@),
    {
        match self.get(key) {
            Some(v) => Some(v.clone()),
            None => None,
        }
    }

    /// Gives every key of `other` the value that it has there.
    pub fn extend(&mut self, other: &Self)
        requires
            old(self).wf(),
            other.wf(),
        ensures
            final(self).wf(),
            final(self)@ == old(self)@.union_prefer_right(other@),
    {
        let ghost start = self@;
        let ghost none = Map::<Seq<char>, String>::empty();
        let mut i: usize = 0;
        assert(start.union_prefer_right(other@.restrict(other.keys().take(0).to_set())) =~= start);
        while i < other.entries.len()
            invariant
                i <= other.entries@.len(),
                self.wf(),
                other.wf(),
                other.keys().len() == other.entries@.len(),
                self@ == start.union_prefer_right(
                    other@.restrict(other.keys().take(i as int).to_set()),
                ),
            decreases other.entries@.len() - i,
        {
            proof {
                other.lemma_entry(i as int);
            }
            self.insert(other.entries[i].0.clone(), other.entries[i].1.clone());
            proof {
                let k = other.keys()[i as int];
                let a = other.keys().take(i as int);
                let b = other.keys().take(i + 1);
                assert(b =~= a.push(k));
                assert forall|x: Seq<char>| b.to_set().contains(x) <==> a.to_set().contains(x)
                    || x == k by {
                    if b.contains(x) {
                        let j = choose|j: int| 0 <= j < b.len() && b[j] == x;
                        if j < i {
                            assert(a[j] == x);
                        }
                    }
                    if a.contains(x) {
                        let j = choose|j: int| 0 <= j < a.len() && a[j] == x;
                        assert(b[j] == x);
                    }
                    assert(b[i as int] == k);
                }
                assert(self@ =~= start.union_prefer_right(other@.restrict(b.to_set())));
            }
            i += 1;
        }
        proof {
            assert(other.keys().take(i as int) =~= other.keys());
            assert(other@.restrict(other.keys().to_set()) =~= other@);
        }
    }
}

} // verus!
