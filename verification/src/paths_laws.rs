//! What holds of paths: where a path leads, what its last part is called, and
//! when two texts are one path.
use crate::paths::{
    config_dir_of, expanded, file_name_of, herdr_config_of, last_dot, last_part, one_path,
    path_join, path_parts, state_dir_of, stem_of, telling,
};
use crate::text::{first_at, lemma_first_at, pieces};
use crate::text_laws::lemma_first_at_bounds;
use vstd::prelude::*;

verus! {

/// A path that begins at the root leads to the same place from everywhere; any
/// other is put behind the directory, with one slash between them where the
/// directory does not end with one.
pub proof fn law_joined_path(base: Seq<char>, rest: Seq<char>)
    ensures
        rest.len() > 0 && rest[0] == '/' ==> path_join(base, rest) == rest,
        (rest.len() == 0 || rest[0] != '/') && base.len() > 0 && base.last() != '/' ==> path_join(
            base,
            rest,
        ) == base + seq!['/'] + rest,
        (rest.len() == 0 || rest[0] != '/') && (base.len() == 0 || base.last() == '/')
            ==> path_join(base, rest) == base + rest,
{
    reveal_strlit("/");
    assert("/"@ =~= seq!['/']);
    if rest.len() > 0 {
        assert(rest.take(1) =~= seq![rest[0]]);
        assert(rest.take(1)[0] == rest[0]);
    }
}

/// `~` alone is the home directory, and a path behind `~/` is that path in the
/// home directory. Every other path stays as it is, one that merely begins with
/// `~` too.
pub proof fn law_home_stands_for_tilde(p: Seq<char>, home: Seq<char>)
    ensures
        expanded(seq!['~'], home) == home,
        p.len() == 0 || p[0] != '/' ==> home.len() > 0 && home.last() != '/' ==> expanded(
            seq!['~', '/'] + p,
            home,
        ) == home + seq!['/'] + p,
        p.len() > 0 && p[0] != '~' ==> expanded(p, home) == p,
        p.len() > 1 && p[0] == '~' && p[1] != '/' ==> expanded(p, home) == p,
        expanded(seq![], home) == Seq::<char>::empty(),
{
    reveal_strlit("~/");
    reveal_strlit("~");
    assert("~/"@ =~= seq!['~', '/']);
    assert("~"@ =~= seq!['~']);
    assert(seq!['~'].len() == 1 && seq!['~'][0] == '~');
    let q = seq!['~', '/'] + p;
    assert(q.take(2) =~= seq!['~', '/']);
    assert(q.skip(2) =~= p);
    law_joined_path(home, p);
    if p.len() > 1 {
        assert(p.take(2)[0] == p[0] && p.take(2)[1] == p[1]);
    }
    if p.len() > 0 {
        assert("~"@[0] == '~');
    }
}

/// The plugin's directories: a directory that is given is taken as it is. Where
/// none is given, the configuration is kept below the home directory, and the
/// state below the directory for states or, without that, below the home
/// directory; both in a directory of the plugin's own name.
pub proof fn law_plugin_directories(
    given: Seq<char>,
    state_home: Seq<char>,
    other: Option<Seq<char>>,
    home: Seq<char>,
)
    requires
        home.len() > 0,
        home.last() != '/',
        state_home.len() > 0,
        state_home.last() != '/',
    ensures
        config_dir_of(Some(given), home) == given,
        config_dir_of(None, home) == home
            + "/.config/herdr/plugins/config/ferretorres.space-colors"@,
        state_dir_of(Some(given), other, home) == given,
        state_dir_of(None, Some(state_home), home) == state_home
            + "/herdr/plugins/ferretorres.space-colors"@,
        state_dir_of(None, None, home) == home
            + "/.local/state/herdr/plugins/ferretorres.space-colors"@,
{
    reveal_strlit("/.config/herdr/plugins/config/ferretorres.space-colors");
    reveal_strlit(".config/herdr/plugins/config");
    reveal_strlit("ferretorres.space-colors");
    reveal_strlit("/herdr/plugins/ferretorres.space-colors");
    reveal_strlit("herdr/plugins");
    reveal_strlit(".local/state");
    reveal_strlit("/.local/state/herdr/plugins/ferretorres.space-colors");
    let id = "ferretorres.space-colors"@;
    let c = path_join(home, ".config/herdr/plugins/config"@);
    law_joined_path(home, ".config/herdr/plugins/config"@);
    law_joined_path(c, id);
    assert(config_dir_of(None, home) =~= home
        + "/.config/herdr/plugins/config/ferretorres.space-colors"@);
    law_joined_path(state_home, "herdr/plugins"@);
    law_joined_path(path_join(state_home, "herdr/plugins"@), id);
    assert(state_dir_of(None, Some(state_home), home) =~= state_home
        + "/herdr/plugins/ferretorres.space-colors"@);
    let root = path_join(home, ".local/state"@);
    law_joined_path(home, ".local/state"@);
    law_joined_path(root, "herdr/plugins"@);
    law_joined_path(path_join(root, "herdr/plugins"@), id);
    assert(state_dir_of(None, None, home) =~= home
        + "/.local/state/herdr/plugins/ferretorres.space-colors"@);
}

/// Herdr's configuration: a path that is given wins over one that is configured,
/// in which `~` is the home directory; without either it is where Herdr keeps it.
pub proof fn law_herdr_configuration(
    given: Seq<char>,
    configured: Option<Seq<char>>,
    below: Seq<char>,
    home: Seq<char>,
)
    requires
        home.len() > 0,
        home.last() != '/',
    ensures
        herdr_config_of(Some(given), configured, home) == given,
        given.len() == 0 || given[0] != '~' ==> herdr_config_of(None, Some(given), home) == given,
        below.len() == 0 || below[0] != '/' ==> herdr_config_of(
            None,
            Some(seq!['~', '/'] + below),
            home,
        ) == home + seq!['/'] + below,
        herdr_config_of(None, None, home) == home + "/.config/herdr/config.toml"@,
{
    law_home_stands_for_tilde(below, home);
    law_home_stands_for_tilde(given, home);
    if given.len() == 0 {
        assert(given =~= seq![]);
    }
    reveal_strlit("/.config/herdr/config.toml");
    reveal_strlit(".config/herdr/config.toml");
    law_joined_path(home, ".config/herdr/config.toml"@);
    assert(herdr_config_of(None, None, home) =~= home + "/.config/herdr/config.toml"@);
}

// --- names -----------------------------------------------------------------------

pub proof fn lemma_pieces_last(a: Seq<char>, b: Seq<char>, c: char)
    requires
        !b.contains(c),
    ensures
        pieces(b, c) == seq![b],
        pieces(a + seq![c] + b, c) == pieces(a, c).push(b),
    decreases a.len(),
{
    assert forall|j: int| 0 <= j < b.len() implies b[j] != c by {
        if b[j] == c {
            assert(b.contains(c));
        }
    }
    lemma_first_at(b, c, b.len() as int);
    assert(pieces(b, c) == seq![b]);
    let s = a + seq![c] + b;
    let i = first_at(a, c);
    lemma_first_at_bounds(a, c);
    lemma_first_at(s, c, i);
    assert(s.take(i) =~= a.take(i));
    if i < a.len() {
        let tail = a.skip(i + 1);
        assert(s.skip(i + 1) =~= tail + seq![c] + b);
        lemma_pieces_last(tail, b, c);
        assert(pieces(a, c) == seq![a.take(i)] + pieces(tail, c));
        assert(pieces(s, c) == seq![a.take(i)] + pieces(tail, c).push(b));
        assert(pieces(s, c) =~= pieces(a, c).push(b));
    } else {
        assert(a.take(i) =~= a);
        assert(pieces(a, c) == seq![a]);
        assert(s.skip(i + 1) =~= b);
        assert(pieces(s, c) =~= pieces(a, c).push(b));
    }
}

/// The file name of a path is what stands behind its last slash, or the whole of
/// it where there is none; slashes and single dots after it do not count, and two
/// dots are no name.
pub proof fn law_file_name(dir: Seq<char>, name: Seq<char>)
    requires
        !name.contains('/'),
    ensures
        name.len() > 0 && name != seq!['.'] && name != seq!['.', '.'] ==> file_name_of(
            dir + seq!['/'] + name,
        ) == Some(name) && file_name_of(name) == Some(name),
        name.len() == 0 || name == seq!['.'] ==> file_name_of(dir + seq!['/'] + name)
            == file_name_of(dir) && file_name_of(name) is None,
        name == seq!['.', '.'] ==> file_name_of(dir + seq!['/'] + name) is None && file_name_of(
            name,
        ) is None,
{
    reveal_strlit(".");
    reveal_strlit("..");
    assert("."@ =~= seq!['.']);
    assert(".."@ =~= seq!['.', '.']);
    lemma_pieces_last(dir, name, '/');
    let all = pieces(dir, '/').push(name);
    assert(all.last() == name);
    assert(all.drop_last() =~= pieces(dir, '/'));
    assert(seq![name].last() == name);
    assert(seq![name].drop_last() =~= seq![]);
    reveal_with_fuel(last_part, 2);
    if name == seq!['.', '.'] {
        assert(name[1] == '.');
        assert(name.len() == 2 && seq!['.'].len() == 1);
    }
}

proof fn lemma_last_dot(s: Seq<char>, ext: Seq<char>)
    requires
        !ext.contains('.'),
    ensures
        last_dot(s + seq!['.'] + ext) == s.len(),
        last_dot(ext) == -1,
    decreases ext.len(),
{
    let t = s + seq!['.'] + ext;
    if ext.len() > 0 {
        let rest = ext.drop_last();
        assert(ext.last() != '.') by {
            assert(ext[ext.len() - 1] == ext.last());
        }
        assert(!rest.contains('.')) by {
            if rest.contains('.') {
                let j = choose|j: int| 0 <= j < rest.len() && rest[j] == '.';
                assert(ext[j] == '.');
            }
        }
        assert(t.last() == ext.last());
        assert(t.drop_last() =~= s + seq!['.'] + rest);
        lemma_last_dot(s, rest);
    } else {
        assert(t.last() == '.');
    }
}

/// A file name loses what stands behind its last dot, with the dot; one whose only
/// dot is the first of its characters, or that has none, stays as it is.
pub proof fn law_file_stem(stem: Seq<char>, ext: Seq<char>)
    requires
        !ext.contains('.'),
    ensures
        stem.len() > 0 ==> stem_of(stem + seq!['.'] + ext) == stem,
        stem_of(seq!['.'] + ext) == seq!['.'] + ext,
        stem_of(ext) == ext,
{
    lemma_last_dot(stem, ext);
    let none = Seq::<char>::empty();
    lemma_last_dot(none, ext);
    assert(none + seq!['.'] + ext =~= seq!['.'] + ext);
    assert((stem + seq!['.'] + ext).take(stem.len() as int) =~= stem);
}

/// Whether two texts are one path does not depend on slashes at the end, on slashes
/// that follow each other, or on single dots between slashes. Two paths that end in
/// different names are different, and one from the root is none of the others.
pub proof fn law_one_path(a: Seq<char>, name: Seq<char>, other: Seq<char>)
    requires
        a.len() > 0,
        !name.contains('/'),
        !other.contains('/'),
    ensures
        one_path(a, a),
        name.len() == 0 || name == seq!['.'] ==> one_path(a + seq!['/'] + name, a),
        name.len() > 0 && name != seq!['.'] && other.len() > 0 && other != seq!['.'] && name
            != other ==> !one_path(a + seq!['/'] + name, a + seq!['/'] + other),
        name.len() > 0 && name != seq!['.'] ==> !one_path(a + seq!['/'] + name, a),
        a[0] == '/' && (name.len() == 0 || name[0] != '/') ==> !one_path(a, name),
{
    reveal_strlit(".");
    reveal_strlit("/");
    assert("."@ =~= seq!['.']);
    assert("/"@ =~= seq!['/']);
    let n = a + seq!['/'] + name;
    let o = a + seq!['/'] + other;
    lemma_pieces_last(a, name, '/');
    lemma_pieces_last(a, other, '/');
    let base = pieces(a, '/');
    assert(base.len() > 0) by {
        lemma_first_at_bounds(a, '/');
    }
    assert(base.push(name)[0] == base[0]);
    assert(base.push(other)[0] == base[0]);
    assert(base.push(name).drop_last() =~= base);
    assert(base.push(other).drop_last() =~= base);
    assert(n.take(1)[0] == a[0] && o.take(1)[0] == a[0] && a.take(1)[0] == a[0]);
    assert(n.take(1) =~= a.take(1) && o.take(1) =~= a.take(1));
    if name.len() > 0 && name != seq!['.'] {
        assert(path_parts(n) =~= path_parts(a).push(name));
        assert(path_parts(n).last() == name);
        assert(path_parts(n).len() == path_parts(a).len() + 1);
    }
    if other.len() > 0 && other != seq!['.'] {
        assert(path_parts(o) =~= path_parts(a).push(other));
        assert(path_parts(o).last() == other);
    }
    if a[0] == '/' {
        assert(a.take(1) =~= seq!['/']);
        if name.len() > 0 {
            assert(name.take(1)[0] == name[0]);
        }
    }
}

/// A dot at the beginning of a path counts: the path through it is another text for
/// the same place, but not the same path.
pub proof fn law_leading_dot_counts(name: Seq<char>)
    requires
        !name.contains('/'),
        name.len() > 0,
        name != seq!['.'],
    ensures
        !one_path(seq!['.', '/'] + name, name),
        one_path(seq!['.', '/'] + name, seq!['.', '/'] + name + seq!['/']),
{
    reveal_strlit(".");
    reveal_strlit("/");
    assert("."@ =~= seq!['.']);
    assert("/"@ =~= seq!['/']);
    let dot = seq!['.'];
    let through = seq!['.', '/'] + name;
    assert(through =~= dot + seq!['/'] + name);
    assert(!dot.contains('/'));
    lemma_pieces_last(dot, dot, '/');
    lemma_pieces_last(dot, name, '/');
    let parts = pieces(through, '/');
    assert(parts =~= seq![dot, name]);
    reveal_with_fuel(telling, 3);
    assert(parts.drop_last() =~= seq![dot]);
    assert(seq![dot].drop_last() =~= seq![]);
    assert(path_parts(through).len() == 2);
    lemma_pieces_last(dot, name, '/');
    assert(pieces(name, '/') =~= seq![name]);
    assert(seq![name].drop_last() =~= seq![]);
    assert(path_parts(name).len() == 1);
    let none = Seq::<char>::empty();
    law_one_path(through, none, none);
    assert(through + seq!['/'] + none =~= through + seq!['/']);
    assert(one_path(through + seq!['/'], through));
}

} // verus!
