//! What holds of texts that are cut, joined, filled and counted.
use crate::text::{
    before, begins, blank, decimal, drop_space, ends, first_at, first_part, holds_part, joined,
    lemma_first_at, lines_of, padded, pieces, replaced_once, skip_space, space, stands_at, trimmed,
    without_slashes, word_len, words_of,
};
use vstd::prelude::*;

verus! {

/// A text begins with another where something follows that one in it, ends with
/// it where something goes before, and holds it where it stands between two
/// others.
pub proof fn law_parts_of_a_text(s: Seq<char>, p: Seq<char>)
    ensures
        begins(s, p) <==> exists|b: Seq<char>| s == #[trigger] (p + b),
        ends(s, p) <==> exists|a: Seq<char>| s == #[trigger] (a + p),
        holds_part(s, p) <==> exists|a: Seq<char>, b: Seq<char>| s == #[trigger] (a + p + b),
{
    if begins(s, p) {
        assert(s =~= p + s.skip(p.len() as int));
    }
    if exists|b: Seq<char>| s == #[trigger] (p + b) {
        assert(s.take(p.len() as int) =~= p);
    }
    if ends(s, p) {
        assert(s =~= s.take(s.len() - p.len()) + p);
    }
    if exists|a: Seq<char>| s == #[trigger] (a + p) {
        assert(s.skip(s.len() - p.len()) =~= p);
    }
    if holds_part(s, p) {
        let i = choose|i: int| stands_at(s, p, i);
        assert(s =~= s.take(i) + p + s.skip(i + p.len()));
    }
    if exists|a: Seq<char>, b: Seq<char>| s == #[trigger] (a + p + b) {
        let (a, b) = choose|a: Seq<char>, b: Seq<char>| s == #[trigger] (a + p + b);
        assert(s.subrange(a.len() as int, (a.len() + p.len()) as int) =~= p);
        assert(stands_at(s, p, a.len() as int));
    }
}

/// Only the first of the places at which a part stands is replaced, and nothing
/// is where it stands nowhere.
pub proof fn law_one_part_is_replaced(s: Seq<char>, p: Seq<char>, by: Seq<char>, at: int)
    requires
        0 <= at <= s.len(),
        forall|i: int|
            #![trigger s.subrange(i, i + p.len())]
            0 <= i < at && i + p.len() <= s.len() ==> s.subrange(i, i + p.len()) != p,
    ensures
        at + p.len() <= s.len() && s.subrange(at, at + p.len()) == p ==> replaced_once(s, p, by)
            == s.take(at) + by + s.skip(at + p.len()),
        at == s.len() && p.len() > 0 ==> replaced_once(s, p, by) == s,
{
    if at + p.len() <= s.len() && s.subrange(at, at + p.len()) == p {
        assert(stands_at(s, p, at));
        let k = first_part(s, p);
        assert(stands_at(s, p, at) && forall|j: int| 0 <= j < at ==> !stands_at(s, p, j)) by {
            assert forall|j: int| 0 <= j < at implies !stands_at(s, p, j) by {
                if j + p.len() <= s.len() {
                    assert(s.subrange(j, j + p.len()) != p);
                }
            }
        }
        assert(k == at) by {
            if k < at {
                assert(!stands_at(s, p, k));
            }
            if at < k {
                assert(!stands_at(s, p, at));
            }
        }
    }
    if at == s.len() && p.len() > 0 {
        assert forall|i: int| !stands_at(s, p, i) by {
            if 0 <= i && i + p.len() <= s.len() {
                assert(s.subrange(i, i + p.len()) != p);
            }
        }
    }
}

// --- pieces and lines ------------------------------------------------------------

pub proof fn lemma_first_at_bounds(s: Seq<char>, c: char)
    ensures
        0 <= first_at(s, c) <= s.len(),
        first_at(s, c) < s.len() ==> s[first_at(s, c)] == c,
        forall|i: int| 0 <= i < first_at(s, c) ==> s[i] != c,
    decreases s.len(),
{
    if s.len() > 0 && s[0] != c {
        lemma_first_at_bounds(s.skip(1), c);
        assert forall|i: int| 0 <= i < first_at(s, c) implies s[i] != c by {
            if i > 0 {
                assert(s.skip(1)[i - 1] == s[i]);
            }
        }
    }
}

proof fn lemma_joined_front(a: Seq<char>, rest: Seq<Seq<char>>, sep: Seq<char>)
    requires
        rest.len() > 0,
    ensures
        joined(seq![a] + rest, sep) == a + sep + joined(rest, sep),
    decreases rest.len(),
{
    let all = seq![a] + rest;
    reveal_with_fuel(joined, 3);
    assert(all.last() == rest.last());
    assert(all.drop_last() =~= seq![a] + rest.drop_last());
    if rest.len() == 1 {
        assert(all.drop_last() =~= seq![a]);
        assert(joined(all, sep) =~= a + sep + joined(rest, sep));
    } else {
        lemma_joined_front(a, rest.drop_last(), sep);
        assert(joined(all, sep) =~= a + sep + joined(rest, sep));
    }
}

/// Cutting a text at a character loses nothing: the pieces with that character
/// between them are the text, and none of them holds it. There is one piece more
/// than there are places to cut.
pub proof fn law_pieces_make_the_text(s: Seq<char>, c: char)
    ensures
        pieces(s, c).len() > 0,
        joined(pieces(s, c), seq![c]) == s,
        forall|i: int, j: int|
            0 <= i < pieces(s, c).len() && 0 <= j < pieces(s, c)[i].len()
                ==> #[trigger] pieces(s, c)[i][j] != c,
    decreases s.len(),
{
    let i = first_at(s, c);
    lemma_first_at_bounds(s, c);
    let all = pieces(s, c);
    if i < s.len() {
        let tail = s.skip(i + 1);
        let rest = pieces(tail, c);
        law_pieces_make_the_text(tail, c);
        assert(all == seq![s.take(i)] + rest);
        lemma_joined_front(s.take(i), rest, seq![c]);
        assert(s =~= s.take(i) + seq![c] + tail);
        assert forall|a: int, b: int| 0 <= a < all.len() && 0 <= b < all[a].len() implies
            #[trigger] all[a][b] != c by {
            if a == 0 {
                assert(all[0] == s.take(i));
            } else {
                assert(all[a] == rest[a - 1]);
                assert(rest[a - 1][b] != c);
            }
        }
    }
}

/// The first line of a text ends at the first newline, and a carriage return
/// before that is no part of it; the other lines are those of what follows.
pub proof fn law_first_line(line: Seq<char>, rest: Seq<char>)
    requires
        !line.contains('\n'),
    ensures
        lines_of(line + seq!['\r', '\n'] + rest) == seq![line] + lines_of(rest),
        line.len() == 0 || line.last() != '\r' ==> lines_of(line + seq!['\n'] + rest) == seq![line]
            + lines_of(rest),
        line.len() > 0 ==> lines_of(line) == seq![line],
        lines_of(seq![]) == Seq::<Seq<char>>::empty(),
{
    let a = line + seq!['\r', '\n'] + rest;
    assert forall|j: int| 0 <= j < line.len() implies line[j] != '\n' by {
        if line[j] == '\n' {
            assert(line.contains('\n'));
        }
    }
    lemma_first_at(a, '\n', line.len() as int + 1);
    assert(a.skip(line.len() as int + 2) =~= rest);
    assert(a.take(line.len() as int + 1).drop_last() =~= line);
    let b = line + seq!['\n'] + rest;
    lemma_first_at(b, '\n', line.len() as int);
    assert(b.skip(line.len() as int + 1) =~= rest);
    assert(b.take(line.len() as int) =~= line);
    lemma_first_at(line, '\n', line.len() as int);
}

// --- white space -----------------------------------------------------------------

/// Among the characters of ASCII the white space is the tab, the line feed, the
/// vertical tab, the form feed, the carriage return and the blank. Outside of
/// ASCII it is what Unicode calls so.
pub proof fn law_white_space(c: char)
    ensures
        (c as int) < 128 ==> (space(c) <==> c == '\t' || c == '\n' || c == '\u{b}' || c == '\u{c}'
            || c == '\r' || c == ' '),
        (c as int) >= 128 ==> (space(c) <==> c == '\u{85}' || c == '\u{a0}' || c == '\u{1680}' || (
        '\u{2000}' <= c && c <= '\u{200a}') || c == '\u{2028}' || c == '\u{2029}' || c
            == '\u{202f}' || c == '\u{205f}' || c == '\u{3000}'),
{
}

proof fn lemma_skip_space(s: Seq<char>)
    ensures
        ({
            let t = skip_space(s);
            &&& t.len() <= s.len()
            &&& t == s.skip(s.len() - t.len())
            &&& blank(s.take(s.len() - t.len()))
            &&& t.len() > 0 ==> !space(t[0])
        }),
    decreases s.len(),
{
    if s.len() > 0 && space(s[0]) {
        lemma_skip_space(s.skip(1));
        let t = skip_space(s);
        let n = s.len() - t.len();
        assert(t =~= s.skip(n));
        assert forall|i: int| 0 <= i < n implies space(#[trigger] s.take(n)[i]) by {
            if i > 0 {
                assert(s.skip(1).take(n - 1)[i - 1] == s[i]);
            }
        }
    } else {
        assert(s.skip(0) =~= s);
    }
}

proof fn lemma_drop_space(s: Seq<char>)
    ensures
        ({
            let t = drop_space(s);
            &&& t.len() <= s.len()
            &&& t == s.take(t.len() as int)
            &&& blank(s.skip(t.len() as int))
            &&& t.len() > 0 ==> !space(t.last())
        }),
    decreases s.len(),
{
    if s.len() > 0 && space(s.last()) {
        lemma_drop_space(s.drop_last());
        let t = drop_space(s);
        let n = t.len() as int;
        assert(t =~= s.take(n));
        assert forall|i: int| 0 <= i < s.len() - n implies space(#[trigger] s.skip(n)[i]) by {
            if i < s.len() - n - 1 {
                assert(s.drop_last().skip(n)[i] == s[n + i]);
            }
        }
    } else {
        assert(s.take(s.len() as int) =~= s);
    }
}

/// Trimming takes off white space and nothing else, and what is left neither
/// begins nor ends with white space.
pub proof fn law_trimmed(s: Seq<char>)
    ensures
        exists|a: Seq<char>, b: Seq<char>|
            blank(a) && blank(b) && s == #[trigger] (a + trimmed(s) + b),
        trimmed(s).len() > 0 ==> !space(trimmed(s)[0]) && !space(trimmed(s).last()),
{
    lemma_skip_space(s);
    let m = skip_space(s);
    lemma_drop_space(m);
    let t = trimmed(s);
    let a = s.take(s.len() - m.len());
    let b = m.skip(t.len() as int);
    assert(s =~= a + t + b);
    if t.len() > 0 {
        assert(t[0] == m[0]);
    }
}

/// A text is the same however often it is trimmed, and one of white space alone
/// leaves nothing.
pub proof fn law_trimming_twice(s: Seq<char>)
    ensures
        trimmed(trimmed(s)) == trimmed(s),
        blank(s) <==> trimmed(s).len() == 0,
{
    law_trimmed(s);
    let t = trimmed(s);
    assert(trimmed(t) == t);
    let (a, b) = choose|a: Seq<char>, b: Seq<char>|
        blank(a) && blank(b) && s == #[trigger] (a + t + b);
    if t.len() > 0 {
        assert(s[a.len() as int] == t[0]);
    } else {
        assert forall|i: int| 0 <= i < s.len() implies space(#[trigger] s[i]) by {
            if i < a.len() {
                assert(s[i] == a[i]);
            } else {
                assert(s[i] == b[i - a.len()]);
            }
        }
    }
}

proof fn lemma_skip_blank(a: Seq<char>, s: Seq<char>)
    requires
        blank(a),
        s.len() == 0 || !space(s[0]),
    ensures
        skip_space(a + s) == s,
    decreases a.len(),
{
    if a.len() > 0 {
        let t = a + s;
        assert(t[0] == a[0]);
        assert(t.skip(1) =~= a.skip(1) + s);
        lemma_skip_blank(a.skip(1), s);
    } else {
        assert(a + s =~= s);
    }
}

proof fn lemma_word_is(w: Seq<char>, rest: Seq<char>)
    requires
        forall|i: int| 0 <= i < w.len() ==> !space(#[trigger] w[i]),
        rest.len() > 0 ==> space(rest[0]),
    ensures
        word_len(w + rest) == w.len(),
    decreases w.len(),
{
    let t = w + rest;
    if w.len() > 0 {
        assert(t[0] == w[0]);
        assert(t.skip(1) =~= w.skip(1) + rest);
        assert forall|i: int| 0 <= i < w.skip(1).len() implies !space(#[trigger] w.skip(1)[i]) by {
            assert(!space(w[i + 1]));
        }
        lemma_word_is(w.skip(1), rest);
    } else if rest.len() > 0 {
        assert(t[0] == rest[0]);
    }
}

/// The words of a text: a run without white space is one, whatever white space
/// goes before it; the other words are those of what follows. White space alone
/// holds none.
pub proof fn law_first_word(space_before: Seq<char>, word: Seq<char>, rest: Seq<char>)
    requires
        blank(space_before),
        word.len() > 0,
        forall|i: int| 0 <= i < word.len() ==> !space(#[trigger] word[i]),
        rest.len() > 0 ==> space(rest[0]),
    ensures
        words_of(space_before + word + rest) == seq![word] + words_of(rest),
        words_of(space_before) == Seq::<Seq<char>>::empty(),
{
    let s = space_before + word + rest;
    let t = word + rest;
    assert(s =~= space_before + t);
    assert(!space(word[0]));
    assert(t[0] == word[0]);
    lemma_skip_blank(space_before, t);
    lemma_word_is(word, rest);
    assert(t.take(word.len() as int) =~= word);
    assert(t.skip(word.len() as int) =~= rest);
    let nothing = Seq::<char>::empty();
    lemma_skip_blank(space_before, nothing);
    assert(space_before + nothing =~= space_before);
}

// --- joining, filling, counting --------------------------------------------------

/// Joining puts the separator between any two parts that follow each other, and
/// nowhere else.
pub proof fn law_joined(parts: Seq<Seq<char>>, more: Seq<char>, sep: Seq<char>)
    ensures
        joined(seq![], sep) == Seq::<char>::empty(),
        joined(seq![more], sep) == more,
        parts.len() > 0 ==> joined(parts.push(more), sep) == joined(parts, sep) + sep + more,
{
    assert(parts.push(more).drop_last() =~= parts);
}

/// A text is filled with blanks on the right up to the width, and one that is as
/// wide or wider stays as it is.
pub proof fn law_padded(s: Seq<char>, width: int)
    ensures
        s.len() >= width ==> padded(s, width) == s,
        s.len() < width ==> padded(s, width).len() == width,
        padded(s, width).take(s.len() as int) == s,
        forall|i: int|
            s.len() <= i < padded(s, width).len() ==> #[trigger] padded(s, width)[i] == ' ',
{
    assert(padded(s, width).take(s.len() as int) =~= s);
    if s.len() >= width {
        assert(padded(s, width) =~= s);
    }
}

/// A number in decimal: one digit below ten, and one digit more with each factor
/// of ten.
pub proof fn law_decimal(n: nat, d: nat)
    requires
        d < 10,
    ensures
        decimal(d).len() == 1,
        decimal(d)[0] as int == '0' as int + d,
        n > 0 ==> decimal(10 * n + d) == decimal(n) + decimal(d),
{
    if n > 0 {
        assert((10 * n + d) / 10 == n && (10 * n + d) % 10 == d) by (nonlinear_arith)
            requires
                d < 10,
        ;
        assert(decimal(10 * n + d) =~= decimal(n) + decimal(d));
    }
}

/// The slashes at the end of a text are taken off, all of them and nothing else.
pub proof fn law_slashes_are_taken_off(s: Seq<char>)
    ensures
        ({
            let t = without_slashes(s);
            &&& t.len() <= s.len()
            &&& t == s.take(t.len() as int)
            &&& t.len() > 0 ==> t.last() != '/'
            &&& forall|i: int| t.len() <= i < s.len() ==> #[trigger] s[i] == '/'
        }),
    decreases s.len(),
{
    if s.len() > 0 && s.last() == '/' {
        let rest = s.drop_last();
        law_slashes_are_taken_off(rest);
        let t = without_slashes(s);
        assert(t =~= s.take(t.len() as int));
        assert forall|i: int| t.len() <= i < s.len() implies #[trigger] s[i] == '/' by {
            if i < rest.len() {
                assert(rest[i] == s[i]);
            }
        }
    } else {
        assert(s.take(s.len() as int) =~= s);
    }
}

/// The order of two texts is decided at the first place at which they differ, by
/// the codes of the characters; one that the other begins with comes first.
pub proof fn law_dictionary_order(p: Seq<char>, a: Seq<char>, b: Seq<char>)
    ensures
        a.len() > 0 && b.len() > 0 && (a[0] as int) < (b[0] as int) ==> before(p + a, p + b)
            && !before(p + b, p + a),
        a.len() > 0 ==> before(p, p + a) && !before(p + a, p),
        !before(p, p),
    decreases p.len(),
{
    let none = Seq::<char>::empty();
    if p.len() > 0 {
        let q = p.skip(1);
        law_dictionary_order(q, a, b);
        assert((p + a).skip(1) =~= q + a);
        assert((p + b).skip(1) =~= q + b);
        assert((p + a)[0] == p[0] && (p + b)[0] == p[0]);
    } else {
        assert(p + a =~= a);
        assert(p + b =~= b);
    }
}

} // verus!
