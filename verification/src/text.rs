//! Text as sequences of characters: comparing, cutting and joining.
use vstd::prelude::*;

verus! {

broadcast use vstd::seq::group_seq_axioms;

/// The characters of each string of a list.
pub open spec fn texts(v: Seq<String>) -> Seq<Seq<char>> {
    v.map_values(|s: String| s@)
}

/// The characters of an optional string.
pub open spec fn opt_text(o: Option<String>) -> Option<Seq<char>> {
    match o {
        Some(s) => Some(s@),
        None => None,
    }
}

/// The characters of an optional string slice.
pub open spec fn opt_str(o: Option<&str>) -> Option<Seq<char>> {
    match o {
        Some(s) => Some(s@),
        None => None,
    }
}

pub broadcast proof fn lemma_texts_push(v: Seq<String>, s: String)
    ensures
        #[trigger] texts(v.push(s)) == texts(v).push(s@),
{
    assert(texts(v.push(s)) =~= texts(v).push(s@));
}

/// Whether two texts hold the same characters.
pub fn same(a: &str, b: &str) -> (r: bool)
    ensures
        r == (a@ == b@),
{
    a.to_owned() == b.to_owned()
}

/// Whether two optional texts are both absent, or both present and the same.
pub fn same_opt(a: Option<&str>, b: Option<&str>) -> (r: bool)
    ensures
        r == (opt_str(a) == opt_str(b)),
{
    match (a, b) {
        (Some(x), Some(y)) => same(x, y),
        (None, None) => true,
        _ => false,
    }
}

/// The characters of a text, in order.
pub fn chars_of(s: &str) -> (r: Vec<char>)
    ensures
        r@ == s@,
{
    let mut v: Vec<char> = Vec::new();
    for c in it: s.chars()
        invariant
            it.seq() == s@,
            v@ == it.seq().take(it.index() as int),
    {
        v.push(c);
    }
    v
}

/// The text between two positions, counted in characters.
pub fn cut(s: &str, from: usize, to: usize) -> (r: String)
    requires
        from <= to <= s@.len(),
    ensures
        r@ == s@.subrange(from as int, to as int),
{
    s.substring_char(from, to).to_owned()
}

/// A copy of an optional text.
pub fn opt_owned(o: Option<&str>) -> (r: Option<String>)
    ensures
        opt_text(r) == opt_str(o),
{
    match o {
        Some(s) => Some(s.to_owned()),
        None => None,
    }
}

/// An optional string as an optional slice.
pub fn as_opt_str(o: &Option<String>) -> (r: Option<&str>)
    ensures
        opt_str(r) == opt_text(*o),
{
    match o {
        Some(s) => Some(s.as_str()),
        None => None,
    }
}

/// Whether `list` holds `s`.
pub fn list_has(list: &Vec<String>, s: &str) -> (r: bool)
    ensures
        r == texts(list@).contains(s@),
{
    let mut i: usize = 0;
    while i < list.len()
        invariant
            i <= list@.len(),
            forall|j: int| 0 <= j < i ==> texts(list@)[j] != s@,
        decreases list@.len() - i,
    {
        if same(list[i].as_str(), s) {
            assert(texts(list@)[i as int] == s@);
            return true;
        }
        i += 1;
    }
    false
}

/// A copy of a list of strings.
pub fn list_copy(list: &Vec<String>) -> (r: Vec<String>)
    ensures
        r@ == list@,
{
    let mut out: Vec<String> = Vec::new();
    let mut i: usize = 0;
    while i < list.len()
        invariant
            i <= list@.len(),
            out@ == list@.take(i as int),
        decreases list@.len() - i,
    {
        out.push(list[i].clone());
        i += 1;
        assert(out@ =~= list@.take(i as int));
    }
    assert(list@.take(i as int) =~= list@);
    out
}

// --- prefixes, suffixes, parts ---------------------------------------------------

/// Whether `s` begins with `p`.
pub open spec fn begins(s: Seq<char>, p: Seq<char>) -> bool {
    p.len() <= s.len() && s.take(p.len() as int) == p
}

/// Whether `s` ends with `p`.
pub open spec fn ends(s: Seq<char>, p: Seq<char>) -> bool {
    p.len() <= s.len() && s.skip(s.len() - p.len()) == p
}

/// Whether `p` stands in `s` at position `i`.
pub open spec fn stands_at(s: Seq<char>, p: Seq<char>, i: int) -> bool {
    0 <= i && i + p.len() <= s.len() && s.subrange(i, i + p.len()) == p
}

/// Whether `p` stands anywhere in `s`.
pub open spec fn holds_part(s: Seq<char>, p: Seq<char>) -> bool {
    exists|i: int| stands_at(s, p, i)
}

pub(crate) fn matches_at(v: &Vec<char>, p: &Vec<char>, at: usize) -> (r: bool)
    requires
        at + p@.len() <= v@.len(),
    ensures
        r == stands_at(v@, p@, at as int),
{
    let n: usize = v.len();
    let mut j: usize = 0;
    while j < p.len()
        invariant
            j <= p@.len(),
            n == v@.len(),
            at + p@.len() <= n,
            forall|k: int| 0 <= k < j ==> #[trigger] p@[k] == v@[at + k],
        decreases p@.len() - j,
    {
        if v[at + j] != p[j] {
            assert(v@.subrange(at as int, at + p@.len())[j as int] != p@[j as int]);
            return false;
        }
        j += 1;
    }
    assert(v@.subrange(at as int, at + p@.len()) =~= p@);
    true
}

/// Whether `s` begins with `p`.
pub fn starts_with(s: &str, p: &str) -> (r: bool)
    ensures
        r == begins(s@, p@),
{
    let v = chars_of(s);
    let q = chars_of(p);
    if q.len() > v.len() {
        return false;
    }
    let r = matches_at(&v, &q, 0);
    assert(s@.subrange(0, p@.len() as int) =~= s@.take(p@.len() as int));
    r
}

/// Whether `s` ends with `p`.
pub fn ends_with(s: &str, p: &str) -> (r: bool)
    ensures
        r == ends(s@, p@),
{
    let v = chars_of(s);
    let q = chars_of(p);
    if q.len() > v.len() {
        return false;
    }
    let at: usize = v.len() - q.len();
    let r = matches_at(&v, &q, at);
    assert(s@.subrange(at as int, at + p@.len()) =~= s@.skip(s@.len() - p@.len()));
    r
}

/// The first position at which `p` stands in `s`, if it stands there at all.
pub fn find(s: &str, p: &str) -> (r: Option<usize>)
    ensures
        match r {
            Some(i) => stands_at(s@, p@, i as int) && forall|j: int|
                0 <= j < i ==> !stands_at(s@, p@, j),
            None => !holds_part(s@, p@),
        },
{
    let v = chars_of(s);
    let q = chars_of(p);
    if q.len() > v.len() {
        return None;
    }
    let last: usize = v.len() - q.len();
    let mut i: usize = 0;
    while i <= last
        invariant
            v@ == s@,
            q@ == p@,
            i <= last + 1,
            last == v@.len() - q@.len(),
            forall|j: int| 0 <= j < i ==> !stands_at(s@, p@, j),
        decreases last + 1 - i,
    {
        if matches_at(&v, &q, i) {
            return Some(i);
        }
        if i == last {
            return None;
        }
        i += 1;
    }
    None
}

/// Whether `p` stands anywhere in `s`.
pub fn contains(s: &str, p: &str) -> (r: bool)
    ensures
        r == holds_part(s@, p@),
{
    find(s, p).is_some()
}

/// `s` with its first `p` replaced by `by`, or `s` where `p` does not stand in it.
pub open spec fn replaced_once(s: Seq<char>, p: Seq<char>, by: Seq<char>) -> Seq<char> {
    if holds_part(s, p) {
        let i = first_part(s, p);
        s.take(i) + by + s.skip(i + p.len())
    } else {
        s
    }
}

/// The first position at which `p` stands in `s`.
pub open spec fn first_part(s: Seq<char>, p: Seq<char>) -> int {
    choose|i: int| stands_at(s, p, i) && forall|j: int| 0 <= j < i ==> !stands_at(s, p, j)
}

/// Replaces the first `p` in `s`.
pub fn replace_once(s: &str, p: &str, by: &str) -> (r: String)
    ensures
        r@ == replaced_once(s@, p@, by@),
{
    match find(s, p) {
        None => s.to_owned(),
        Some(i) => {
            proof {
                let k = first_part(s@, p@);
                assert(stands_at(s@, p@, i as int));
                assert(k == i) by {
                    if k < i {
                        assert(!stands_at(s@, p@, k));
                    }
                    if i < k {
                        assert(!stands_at(s@, p@, i as int));
                    }
                }
            }
            let n = s.unicode_len();
            let mut out = cut(s, 0, i);
            out.append(by);
            let tail = cut(s, i + p.unicode_len(), n);
            out.append(tail.as_str());
            assert(s@.subrange(0, i as int) =~= s@.take(i as int));
            assert(s@.subrange(i + p@.len(), n as int) =~= s@.skip(i + p@.len()));
            out
        },
    }
}

// --- cutting ---------------------------------------------------------------------

/// The first position of `c` in `s`, or the length of `s` where there is none.
pub open spec fn first_at(s: Seq<char>, c: char) -> int
    decreases s.len(),
{
    if s.len() == 0 {
        0
    } else if s[0] == c {
        0
    } else {
        1 + first_at(s.skip(1), c)
    }
}

pub proof fn lemma_first_at(s: Seq<char>, c: char, i: int)
    requires
        0 <= i <= s.len(),
        i < s.len() ==> s[i] == c,
        forall|j: int| 0 <= j < i ==> s[j] != c,
    ensures
        first_at(s, c) == i,
    decreases s.len(),
{
    if s.len() > 0 && i > 0 {
        assert(s[0] != c);
        assert forall|j: int| 0 <= j < i - 1 implies s.skip(1)[j] != c by {
            assert(s[j + 1] != c);
        }
        lemma_first_at(s.skip(1), c, i - 1);
    }
}

/// The pieces of `s` between the occurrences of `c`.
pub open spec fn pieces(s: Seq<char>, c: char) -> Seq<Seq<char>>
    decreases s.len(),
{
    let i = first_at(s, c);
    if 0 <= i < s.len() {
        seq![s.take(i)] + pieces(s.skip(i + 1), c)
    } else {
        seq![s]
    }
}

fn next_at(v: &Vec<char>, from: usize, c: char) -> (r: usize)
    requires
        from <= v@.len(),
    ensures
        from <= r <= v@.len(),
        r - from == first_at(v@.skip(from as int), c),
{
    let mut i: usize = from;
    while i < v.len() && v[i] != c
        invariant
            from <= i <= v@.len(),
            forall|j: int| from <= j < i ==> v@[j] != c,
        decreases v@.len() - i,
    {
        i += 1;
    }
    proof {
        let t = v@.skip(from as int);
        assert forall|j: int| 0 <= j < i - from implies t[j] != c by {
            assert(v@[from + j] != c);
        }
        lemma_first_at(t, c, i - from);
    }
    i
}

/// Cuts `s` at each `c`.
pub fn split(s: &str, c: char) -> (r: Vec<String>)
    ensures
        texts(r@) == pieces(s@, c),
{
    broadcast use lemma_texts_push;

    let v = chars_of(s);
    let mut out: Vec<String> = Vec::new();
    let mut from: usize = 0;
    assert(s@.skip(0) =~= s@);
    loop
        invariant
            v@ == s@,
            from <= v@.len(),
            texts(out@) + pieces(s@.skip(from as int), c) == pieces(s@, c),
        decreases v@.len() - from,
    {
        let i = next_at(&v, from, c);
        let ghost rest = s@.skip(from as int);
        let piece = cut(s, from, i);
        assert(piece@ =~= rest.take(i - from));
        let ghost before = texts(out@);
        out.push(piece);
        if i == v.len() {
            assert(piece@ =~= rest);
            assert(texts(out@) =~= before + seq![rest]);
            return out;
        }
        assert(rest.skip(i - from + 1) =~= s@.skip(i + 1));
        assert(before + (seq![piece@] + pieces(s@.skip(i + 1), c)) =~= before.push(piece@) + pieces(
            s@.skip(i + 1),
            c,
        ));
        from = i + 1;
    }
}

/// `s` without one final carriage return.
pub open spec fn without_return(s: Seq<char>) -> Seq<char> {
    if s.len() > 0 && s.last() == '\r' {
        s.drop_last()
    } else {
        s
    }
}

/// The lines of a text: each ends at a newline, or a carriage return and a
/// newline, which are not part of it; a last line need not be ended.
pub open spec fn lines_of(s: Seq<char>) -> Seq<Seq<char>>
    decreases s.len(),
{
    let i = first_at(s, '\n');
    if s.len() == 0 {
        seq![]
    } else if 0 <= i < s.len() {
        seq![without_return(s.take(i))] + lines_of(s.skip(i + 1))
    } else {
        seq![s]
    }
}

/// The lines of a text.
pub fn lines(s: &str) -> (r: Vec<String>)
    ensures
        texts(r@) == lines_of(s@),
{
    broadcast use lemma_texts_push;

    let v = chars_of(s);
    let mut out: Vec<String> = Vec::new();
    let mut from: usize = 0;
    assert(s@.skip(0) =~= s@);
    assert(texts(out@) + lines_of(s@) =~= lines_of(s@));
    while from < v.len()
        invariant
            v@ == s@,
            from <= v@.len(),
            texts(out@) + lines_of(s@.skip(from as int)) == lines_of(s@),
        decreases v@.len() - from,
    {
        let i = next_at(&v, from, '\n');
        let ghost rest = s@.skip(from as int);
        let ghost before = texts(out@);
        if i == v.len() {
            let piece = cut(s, from, i);
            assert(piece@ =~= rest);
            out.push(piece);
            assert(texts(out@) =~= before + seq![rest]);
            return out;
        }
        let ghost whole = rest.take(i - from);
        let end: usize = if i > from && v[i - 1] == '\r' {
            i - 1
        } else {
            i
        };
        let piece = cut(s, from, end);
        assert(i > from ==> whole.last() == v@[i - 1]);
        assert(piece@ =~= without_return(whole));
        out.push(piece);
        assert(rest.skip(i - from + 1) =~= s@.skip(i + 1));
        assert(before + (seq![piece@] + lines_of(s@.skip(i + 1))) =~= before.push(piece@)
            + lines_of(s@.skip(i + 1)));
        from = i + 1;
    }
    assert(s@.skip(from as int) =~= seq![]);
    assert(texts(out@) + seq![] =~= texts(out@));
    out
}

// --- white space -----------------------------------------------------------------

/// The characters that Unicode calls white space.
pub open spec fn space(c: char) -> bool {
    let n = c as int;
    ||| 0x9 <= n <= 0xd
    ||| n == 0x20
    ||| n == 0x85
    ||| n == 0xa0
    ||| n == 0x1680
    ||| 0x2000 <= n <= 0x200a
    ||| n == 0x2028
    ||| n == 0x2029
    ||| n == 0x202f
    ||| n == 0x205f
    ||| n == 0x3000
}

/// Whether `c` is white space.
pub fn is_space(c: char) -> (r: bool)
    ensures
        r == space(c),
{
    let n: u32 = c as u32;
    (0x9 <= n && n <= 0xd) || n == 0x20 || n == 0x85 || n == 0xa0 || n == 0x1680 || (0x2000 <= n
        && n <= 0x200a) || n == 0x2028 || n == 0x2029 || n == 0x202f || n == 0x205f || n == 0x3000
}

/// Whether every character of `s` is white space.
pub open spec fn blank(s: Seq<char>) -> bool {
    forall|i: int| 0 <= i < s.len() ==> space(#[trigger] s[i])
}

/// Whether every character of `s` is white space.
pub fn is_blank(s: &str) -> (r: bool)
    ensures
        r == blank(s@),
{
    let v = chars_of(s);
    let mut i: usize = 0;
    while i < v.len()
        invariant
            v@ == s@,
            i <= v@.len(),
            forall|j: int| 0 <= j < i ==> space(#[trigger] s@[j]),
        decreases v@.len() - i,
    {
        if !is_space(v[i]) {
            assert(!space(s@[i as int]));
            return false;
        }
        i += 1;
    }
    true
}

/// `s` without the white space before it.
pub open spec fn skip_space(s: Seq<char>) -> Seq<char>
    decreases s.len(),
{
    if s.len() > 0 && space(s[0]) {
        skip_space(s.skip(1))
    } else {
        s
    }
}

/// `s` without the white space after it.
pub open spec fn drop_space(s: Seq<char>) -> Seq<char>
    decreases s.len(),
{
    if s.len() > 0 && space(s.last()) {
        drop_space(s.drop_last())
    } else {
        s
    }
}

/// `s` without the white space around it.
pub open spec fn trimmed(s: Seq<char>) -> Seq<char> {
    drop_space(skip_space(s))
}

/// Takes the white space off both ends of `s`.
pub fn trim(s: &str) -> (r: String)
    ensures
        r@ == trimmed(s@),
{
    let v = chars_of(s);
    let mut from: usize = 0;
    assert(s@.skip(0) =~= s@);
    while from < v.len() && is_space(v[from])
        invariant
            v@ == s@,
            from <= v@.len(),
            skip_space(s@) == skip_space(s@.skip(from as int)),
        decreases v@.len() - from,
    {
        assert(s@.skip(from as int).skip(1) =~= s@.skip(from + 1));
        from += 1;
    }
    let ghost rest = s@.skip(from as int);
    assert(skip_space(s@) == rest);
    let mut to: usize = v.len();
    assert(s@.subrange(from as int, to as int) =~= rest);
    while to > from && is_space(v[to - 1])
        invariant
            v@ == s@,
            from <= to <= v@.len(),
            drop_space(rest) == drop_space(s@.subrange(from as int, to as int)),
        decreases to,
    {
        assert(s@.subrange(from as int, to as int).drop_last() =~= s@.subrange(
            from as int,
            to - 1,
        ));
        to -= 1;
    }
    cut(s, from, to)
}

/// The length of the run of characters, from the start of `s`, that are not
/// white space.
pub open spec fn word_len(s: Seq<char>) -> int
    decreases s.len(),
{
    if s.len() > 0 && !space(s[0]) {
        1 + word_len(s.skip(1))
    } else {
        0
    }
}

proof fn lemma_word_len(s: Seq<char>, i: int)
    requires
        0 <= i <= s.len(),
        i < s.len() ==> space(s[i]),
        forall|j: int| 0 <= j < i ==> !space(#[trigger] s[j]),
    ensures
        word_len(s) == i,
    decreases s.len(),
{
    if s.len() > 0 && i > 0 {
        assert(!space(s[0]));
        assert forall|j: int| 0 <= j < i - 1 implies !space(#[trigger] s.skip(1)[j]) by {
            assert(!space(s[j + 1]));
        }
        lemma_word_len(s.skip(1), i - 1);
    }
}

proof fn lemma_skip_space_len(s: Seq<char>)
    ensures
        skip_space(s).len() <= s.len(),
        skip_space(s).len() > 0 ==> !space(skip_space(s)[0]),
    decreases s.len(),
{
    if s.len() > 0 && space(s[0]) {
        lemma_skip_space_len(s.skip(1));
    }
}

/// The words of a text: its longest runs without white space.
pub open spec fn words_of(s: Seq<char>) -> Seq<Seq<char>>
    decreases s.len(),
    via words_of_decreases
{
    let t = skip_space(s);
    if t.len() == 0 {
        seq![]
    } else {
        seq![t.take(word_len(t))] + words_of(t.skip(word_len(t)))
    }
}

#[via_fn]
proof fn words_of_decreases(s: Seq<char>) {
    lemma_skip_space_len(s);
    let t = skip_space(s);
    lemma_word_len_bounds(t);
}

proof fn lemma_word_len_bounds(s: Seq<char>)
    ensures
        0 <= word_len(s) <= s.len(),
        s.len() > 0 && !space(s[0]) ==> word_len(s) > 0,
    decreases s.len(),
{
    if s.len() > 0 && !space(s[0]) {
        lemma_word_len_bounds(s.skip(1));
    }
}

/// The words of a text.
pub fn words(s: &str) -> (r: Vec<String>)
    ensures
        texts(r@) == words_of(s@),
{
    broadcast use lemma_texts_push;

    let v = chars_of(s);
    let mut out: Vec<String> = Vec::new();
    let mut at: usize = 0;
    assert(s@.skip(0) =~= s@);
    assert(texts(out@) + words_of(s@) =~= words_of(s@));
    loop
        invariant
            v@ == s@,
            at <= v@.len(),
            texts(out@) + words_of(s@.skip(at as int)) == words_of(s@),
        decreases v@.len() - at,
    {
        let ghost rest = s@.skip(at as int);
        let mut from: usize = at;
        while from < v.len() && is_space(v[from])
            invariant
                v@ == s@,
                at <= from <= v@.len(),
                rest == s@.skip(at as int),
                skip_space(rest) == skip_space(s@.skip(from as int)),
            decreases v@.len() - from,
        {
            assert(s@.skip(from as int).skip(1) =~= s@.skip(from + 1));
            from += 1;
        }
        let ghost t = s@.skip(from as int);
        assert(skip_space(rest) == t);
        if from == v.len() {
            assert(texts(out@) + seq![] =~= texts(out@));
            return out;
        }
        let mut to: usize = from;
        while to < v.len() && !is_space(v[to])
            invariant
                v@ == s@,
                from <= to <= v@.len(),
                forall|j: int| from <= j < to ==> !space(#[trigger] v@[j]),
            decreases v@.len() - to,
        {
            to += 1;
        }
        proof {
            assert forall|j: int| 0 <= j < to - from implies !space(#[trigger] t[j]) by {
                assert(!space(v@[from + j]));
            }
            assert(to < v@.len() ==> t[to - from] == v@[to as int]);
            lemma_word_len(t, to - from);
            assert(to > from) by {
                assert(t[0] == v@[from as int]);
            }
        }
        let word = cut(s, from, to);
        assert(word@ =~= t.take(to - from));
        assert(t.skip(to - from) =~= s@.skip(to as int));
        let ghost before = texts(out@);
        out.push(word);
        assert(before + (seq![word@] + words_of(s@.skip(to as int))) =~= before.push(word@)
            + words_of(s@.skip(to as int)));
        at = to;
    }
}

// --- joining and filling ---------------------------------------------------------

/// The parts one after the other, with `sep` between them.
pub open spec fn joined(parts: Seq<Seq<char>>, sep: Seq<char>) -> Seq<char>
    decreases parts.len(),
{
    if parts.len() == 0 {
        seq![]
    } else if parts.len() == 1 {
        parts[0]
    } else {
        joined(parts.drop_last(), sep) + sep + parts.last()
    }
}

/// Joins the strings of a list with `sep` between them.
pub fn join(parts: &Vec<String>, sep: &str) -> (r: String)
    ensures
        r@ == joined(texts(parts@), sep@),
{
    let mut out = String::new();
    let mut i: usize = 0;
    assert(texts(parts@).take(0) =~= seq![]);
    while i < parts.len()
        invariant
            i <= parts@.len(),
            out@ == joined(texts(parts@).take(i as int), sep@),
        decreases parts@.len() - i,
    {
        let ghost now = texts(parts@).take(i + 1);
        assert(now.drop_last() =~= texts(parts@).take(i as int));
        assert(now.last() == parts@[i as int]@);
        if i > 0 {
            out.append(sep);
            out.append(parts[i].as_str());
        } else {
            out.append(parts[i].as_str());
            assert(seq![] + parts@[0]@ =~= parts@[0]@);
        }
        i += 1;
    }
    assert(texts(parts@).take(i as int) =~= texts(parts@));
    out
}

/// `n` spaces.
pub open spec fn spaces(n: int) -> Seq<char> {
    Seq::new(
        if n > 0 {
            n as nat
        } else {
            0
        },
        |i: int| ' ',
    )
}

/// `s` filled with spaces on the right up to `width` characters.
pub open spec fn padded(s: Seq<char>, width: int) -> Seq<char> {
    s + spaces(width - s.len())
}

/// Fills `s` with spaces on the right up to `width` characters.
pub fn pad(s: &str, width: usize) -> (r: String)
    ensures
        r@ == padded(s@, width as int),
{
    let mut out = s.to_owned();
    let mut n: usize = s.unicode_len();
    assert(out@ =~= s@ + spaces(n - s@.len()));
    let ghost start = n;
    proof {
        reveal_strlit(" ");
    }
    while n < width
        invariant
            start == s@.len(),
            start <= n,
            n <= width || n == start,
            out@ == s@ + spaces(n - start),
            " "@ == seq![' '],
        decreases width - n,
    {
        out.append(" ");
        n += 1;
        assert(out@ =~= s@ + spaces(n - start));
    }
    assert(out@ =~= padded(s@, width as int));
    out
}

/// `s` without the slashes after it.
pub open spec fn without_slashes(s: Seq<char>) -> Seq<char>
    decreases s.len(),
{
    if s.len() > 0 && s.last() == '/' {
        without_slashes(s.drop_last())
    } else {
        s
    }
}

/// Takes the slashes off the end of `s`.
pub fn trim_slashes(s: &str) -> (r: String)
    ensures
        r@ == without_slashes(s@),
{
    let v = chars_of(s);
    let mut to: usize = v.len();
    assert(s@.take(to as int) =~= s@);
    while to > 0 && v[to - 1] == '/'
        invariant
            v@ == s@,
            to <= v@.len(),
            without_slashes(s@) == without_slashes(s@.take(to as int)),
        decreases to,
    {
        assert(s@.take(to as int).drop_last() =~= s@.take(to - 1));
        to -= 1;
    }
    assert(s@.subrange(0, to as int) =~= s@.take(to as int));
    cut(s, 0, to)
}

// --- numbers ---------------------------------------------------------------------

/// The decimal digit for `d`, below ten.
pub open spec fn digit(d: int) -> char {
    if d == 0 {
        '0'
    } else if d == 1 {
        '1'
    } else if d == 2 {
        '2'
    } else if d == 3 {
        '3'
    } else if d == 4 {
        '4'
    } else if d == 5 {
        '5'
    } else if d == 6 {
        '6'
    } else if d == 7 {
        '7'
    } else if d == 8 {
        '8'
    } else {
        '9'
    }
}

/// `n` in decimal, without leading zeros.
pub open spec fn decimal(n: nat) -> Seq<char>
    decreases n,
{
    if n < 10 {
        seq![digit(n as int)]
    } else {
        decimal(n / 10).push(digit((n % 10) as int))
    }
}

fn digit_text(d: u64) -> (r: &'static str)
    requires
        d < 10,
    ensures
        r@ == seq![digit(d as int)],
{
    proof {
        reveal_strlit("0");
        reveal_strlit("1");
        reveal_strlit("2");
        reveal_strlit("3");
        reveal_strlit("4");
        reveal_strlit("5");
        reveal_strlit("6");
        reveal_strlit("7");
        reveal_strlit("8");
        reveal_strlit("9");
    }
    let r: &'static str = match d {
        0 => "0",
        1 => "1",
        2 => "2",
        3 => "3",
        4 => "4",
        5 => "5",
        6 => "6",
        7 => "7",
        8 => "8",
        _ => "9",
    };
    assert(r@ =~= seq![digit(d as int)]);
    r
}

/// Writes `n` in decimal.
pub fn number(n: u64) -> (r: String)
    ensures
        r@ == decimal(n as nat),
    decreases n,
{
    if n < 10 {
        digit_text(n).to_owned()
    } else {
        let mut out = number(n / 10);
        out.append(digit_text(n % 10));
        assert(out@ =~= decimal(n as nat));
        out
    }
}

// --- order -----------------------------------------------------------------------

/// The dictionary order of texts, by character code.
pub open spec fn before(a: Seq<char>, b: Seq<char>) -> bool
    decreases a.len(),
{
    if b.len() == 0 {
        false
    } else if a.len() == 0 {
        true
    } else if a[0] == b[0] {
        before(a.skip(1), b.skip(1))
    } else {
        a[0] < b[0]
    }
}

pub proof fn lemma_before_irreflexive(a: Seq<char>)
    ensures
        !before(a, a),
    decreases a.len(),
{
    if a.len() > 0 {
        lemma_before_irreflexive(a.skip(1));
    }
}

pub proof fn lemma_before_transitive(a: Seq<char>, b: Seq<char>, c: Seq<char>)
    requires
        before(a, b),
        before(b, c),
    ensures
        before(a, c),
    decreases a.len(),
{
    if a.len() > 0 && b.len() > 0 && c.len() > 0 && a[0] == b[0] && b[0] == c[0] {
        lemma_before_transitive(a.skip(1), b.skip(1), c.skip(1));
    }
}

pub proof fn lemma_before_total(a: Seq<char>, b: Seq<char>)
    ensures
        before(a, b) || before(b, a) || a == b,
    decreases a.len(),
{
    if a.len() == 0 || b.len() == 0 {
        if a.len() == 0 && b.len() == 0 {
            assert(a =~= b);
        }
    } else if a[0] == b[0] {
        lemma_before_total(a.skip(1), b.skip(1));
        if a.skip(1) == b.skip(1) {
            assert(a =~= seq![a[0]] + a.skip(1));
            assert(b =~= seq![b[0]] + b.skip(1));
        }
    }
}

/// Whether `a` comes before `b` in dictionary order.
pub fn is_before(a: &str, b: &str) -> (r: bool)
    ensures
        r == before(a@, b@),
{
    let v = chars_of(a);
    let w = chars_of(b);
    let mut i: usize = 0;
    assert(a@.skip(0) =~= a@);
    assert(b@.skip(0) =~= b@);
    while i < v.len() && i < w.len() && v[i] == w[i]
        invariant
            v@ == a@,
            w@ == b@,
            i <= v@.len(),
            i <= w@.len(),
            before(a@, b@) == before(a@.skip(i as int), b@.skip(i as int)),
        decreases v@.len() - i,
    {
        assert(a@.skip(i as int).skip(1) =~= a@.skip(i + 1));
        assert(b@.skip(i as int).skip(1) =~= b@.skip(i + 1));
        i += 1;
    }
    if i == w.len() {
        false
    } else if i == v.len() {
        true
    } else {
        v[i] < w[i]
    }
}

// --- putting texts together ------------------------------------------------------

/// Two texts, one after the other.
pub fn cat(a: &str, b: &str) -> (r: String)
    ensures
        r@ == a@ + b@,
{
    let mut out = a.to_owned();
    out.append(b);
    out
}

/// Three texts, one after the other.
pub fn cat3(a: &str, b: &str, c: &str) -> (r: String)
    ensures
        r@ == a@ + b@ + c@,
{
    let mut out = cat(a, b);
    out.append(c);
    out
}

/// Four texts, one after the other.
pub fn cat4(a: &str, b: &str, c: &str, d: &str) -> (r: String)
    ensures
        r@ == a@ + b@ + c@ + d@,
{
    let mut out = cat3(a, b, c);
    out.append(d);
    out
}

/// Five texts, one after the other.
pub fn cat5(a: &str, b: &str, c: &str, d: &str, e: &str) -> (r: String)
    ensures
        r@ == a@ + b@ + c@ + d@ + e@,
{
    let mut out = cat4(a, b, c, d);
    out.append(e);
    out
}

/// What `Debug` writes for a text: in quotes, with escapes.
pub uninterp spec fn debug_text(s: Seq<char>) -> Seq<char>;

/// `Debug` of `str`: the text in quotes, with escapes. The result depends on the
/// text alone.
#[verifier::external_body]
pub(crate) fn quoted(s: &str) -> (r: String)
    ensures
        r@ == debug_text(s@),
{
    format!("{s:?}")
}

} // verus!
