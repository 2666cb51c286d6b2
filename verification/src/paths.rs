//! Paths as texts: joining, the home directory, and where the plugin keeps its
//! files.
use crate::text::{
    begins, cat, cat3, cut, ends_with, lemma_texts_push, opt_str, opt_text, pieces, same, split,
    starts_with, texts,
};
use vstd::prelude::*;

verus! {

/// `rest` below `base`; `rest` itself where it begins at the root.
pub open spec fn path_join(base: Seq<char>, rest: Seq<char>) -> Seq<char> {
    if begins(rest, "/"@) {
        rest
    } else if base.len() == 0 || base.last() == '/' {
        base + rest
    } else {
        base + "/"@ + rest
    }
}

/// `rest` below `base`.
pub fn join_path(base: &str, rest: &str) -> (r: String)
    ensures
        r@ == path_join(base@, rest@),
{
    if starts_with(rest, "/") {
        return rest.to_owned();
    }
    proof {
        reveal_strlit("/");
        if base@.len() > 0 {
            assert(base@.skip(base@.len() - 1) =~= seq![base@.last()]);
            assert("/"@ =~= seq!['/']);
            if base@.last() == '/' {
                assert(base@.skip(base@.len() - 1) == "/"@);
            } else {
                assert(base@.skip(base@.len() - 1)[0] != "/"@[0]);
            }
        }
    }
    if base.is_empty() || ends_with(base, "/") {
        cat(base, rest)
    } else {
        cat3(base, "/", rest)
    }
}

/// A path in which `~` stands for the home directory.
pub open spec fn expanded(p: Seq<char>, home: Seq<char>) -> Seq<char> {
    if begins(p, "~/"@) {
        path_join(home, p.skip(2))
    } else if p == "~"@ {
        home
    } else {
        p
    }
}

/// A path with the home directory in place of a leading `~`.
pub fn expand_home(p: &str, home: &str) -> (r: String)
    ensures
        r@ == expanded(p@, home@),
{
    if starts_with(p, "~/") {
        proof {
            reveal_strlit("~/");
        }
        let rest = cut(p, 2, p.unicode_len());
        assert(rest@ =~= p@.skip(2));
        join_path(home, rest.as_str())
    } else if same(p, "~") {
        home.to_owned()
    } else {
        p.to_owned()
    }
}

/// The name of the plugin's directories.
pub open spec fn plugin_id() -> Seq<char> {
    "ferretorres.space-colors"@
}

/// The directory of the plugin's configuration.
pub open spec fn config_dir_of(given: Option<Seq<char>>, home: Seq<char>) -> Seq<char> {
    match given {
        Some(d) => d,
        None => path_join(path_join(home, ".config/herdr/plugins/config"@), plugin_id()),
    }
}

/// The directory of the plugin's configuration: the given one, or where Herdr
/// keeps it.
pub fn config_dir(given: Option<&str>, home: &str) -> (r: String)
    ensures
        r@ == config_dir_of(opt_str(given), home@),
{
    match given {
        Some(d) => d.to_owned(),
        None => join_path(
            join_path(home, ".config/herdr/plugins/config").as_str(),
            "ferretorres.space-colors",
        ),
    }
}

/// The directory of the plugin's state.
pub open spec fn state_dir_of(
    given: Option<Seq<char>>,
    state_home: Option<Seq<char>>,
    home: Seq<char>,
) -> Seq<char> {
    let root = match state_home {
        Some(d) => d,
        None => path_join(home, ".local/state"@),
    };
    match given {
        Some(d) => d,
        None => path_join(path_join(root, "herdr/plugins"@), plugin_id()),
    }
}

/// The directory of the plugin's state: the given one, or where Herdr keeps it,
/// below the directory for states.
pub fn state_dir(given: Option<&str>, state_home: Option<&str>, home: &str) -> (r: String)
    ensures
        r@ == state_dir_of(opt_str(given), opt_str(state_home), home@),
{
    let root = match state_home {
        Some(d) => d.to_owned(),
        None => join_path(home, ".local/state"),
    };
    match given {
        Some(d) => d.to_owned(),
        None => join_path(
            join_path(root.as_str(), "herdr/plugins").as_str(),
            "ferretorres.space-colors",
        ),
    }
}

/// Where Herdr's configuration is.
pub open spec fn herdr_config_of(
    given: Option<Seq<char>>,
    configured: Option<Seq<char>>,
    home: Seq<char>,
) -> Seq<char> {
    match (given, configured) {
        (Some(p), _) => p,
        (None, Some(p)) => expanded(p, home),
        (None, None) => path_join(home, ".config/herdr/config.toml"@),
    }
}

/// Where Herdr's configuration is: the given path wins over the configured one,
/// and that over the usual place.
pub fn herdr_config_path(given: Option<&str>, configured: Option<&str>, home: &str) -> (r: String)
    ensures
        r@ == herdr_config_of(opt_str(given), opt_str(configured), home@),
{
    match (given, configured) {
        (Some(p), _) => p.to_owned(),
        (None, Some(p)) => expand_home(p, home),
        (None, None) => join_path(home, ".config/herdr/config.toml"),
    }
}

/// The plugin's configuration file.
pub fn plugin_config_path(config_dir: &str) -> (r: String)
    ensures
        r@ == path_join(config_dir@, "config.toml"@),
{
    join_path(config_dir, "config.toml")
}

/// The file with the plugin's state.
pub fn state_path(state_dir: &str) -> (r: String)
    ensures
        r@ == path_join(state_dir@, "state.json"@),
{
    join_path(state_dir, "state.json")
}

/// The lock that one writer at a time holds.
pub fn lock_path(state_dir: &str) -> (r: String)
    ensures
        r@ == path_join(state_dir@, "apply.lock"@),
{
    join_path(state_dir, "apply.lock")
}

/// The copy of a file as it was before the first edit.
pub fn backup_path(path: &str) -> (r: String)
    ensures
        r@ == path@ + ".space-colors.bak"@,
{
    cat(path, ".space-colors.bak")
}

/// The file that is written before it takes the place of another.
pub fn temp_path(path: &str) -> (r: String)
    ensures
        r@ == path@ + ".space-colors.tmp"@,
{
    cat(path, ".space-colors.tmp")
}

// --- names -----------------------------------------------------------------------

/// Whether a part of a path between slashes says nothing.
pub open spec fn idle_part(p: Seq<char>) -> bool {
    p.len() == 0 || p == "."@
}

/// The last part of a path that says something.
pub open spec fn last_part(parts: Seq<Seq<char>>) -> Option<Seq<char>>
    decreases parts.len(),
{
    if parts.len() == 0 {
        None
    } else if idle_part(parts.last()) {
        last_part(parts.drop_last())
    } else {
        Some(parts.last())
    }
}

/// The file name of a path: its last part, unless that leads upwards.
pub open spec fn file_name_of(path: Seq<char>) -> Option<Seq<char>> {
    match last_part(pieces(path, '/')) {
        Some(p) if p != ".."@ => Some(p),
        _ => None,
    }
}

/// The file name of a path.
pub fn file_name(path: &str) -> (r: Option<String>)
    ensures
        opt_text(r) == file_name_of(path@),
{
    let parts = split(path, '/');
    let mut n: usize = parts.len();
    let ghost all = texts(parts@);
    assert(all.take(n as int) =~= all);
    while n > 0
        invariant
            all == texts(parts@),
            n <= parts@.len(),
            last_part(all) == last_part(all.take(n as int)),
            all == pieces(path@, '/'),
        decreases n,
    {
        let p = parts[n - 1].as_str();
        proof {
            assert(all.take(n as int).last() == p@);
            assert(all.take(n as int).drop_last() =~= all.take(n - 1));
        }
        if !p.is_empty() && !same(p, ".") {
            if same(p, "..") {
                return None;
            }
            return Some(p.to_owned());
        }
        n -= 1;
    }
    None
}

/// The position of the last dot, or -1.
pub open spec fn last_dot(s: Seq<char>) -> int
    decreases s.len(),
{
    if s.len() == 0 {
        -1
    } else if s.last() == '.' {
        s.len() - 1
    } else {
        last_dot(s.drop_last())
    }
}

/// A file name without its extension; a leading dot begins none.
pub open spec fn stem_of(name: Seq<char>) -> Seq<char> {
    if last_dot(name) > 0 {
        name.take(last_dot(name))
    } else {
        name
    }
}

/// A file name without its extension.
pub fn file_stem(name: &str) -> (r: String)
    ensures
        r@ == stem_of(name@),
{
    let v = crate::text::chars_of(name);
    let mut n: usize = v.len();
    assert(name@.take(n as int) =~= name@);
    while n > 0
        invariant
            v@ == name@,
            n <= v@.len(),
            last_dot(name@) == last_dot(name@.take(n as int)),
        decreases n,
    {
        proof {
            assert(name@.take(n as int).last() == name@[n - 1]);
            assert(name@.take(n as int).drop_last() =~= name@.take(n - 1));
        }
        if v[n - 1] == '.' {
            if n == 1 {
                return name.to_owned();
            }
            let r = cut(name, 0, n - 1);
            assert(r@ =~= name@.take(n - 1));
            return r;
        }
        n -= 1;
    }
    name.to_owned()
}

/// The parts of a path that say something: a leading `.` counts.
pub open spec fn path_parts(path: Seq<char>) -> Seq<Seq<char>> {
    let parts = pieces(path, '/');
    if parts[0] == "."@ {
        seq!["."@] + telling(parts)
    } else {
        telling(parts)
    }
}

/// The parts that say something.
pub open spec fn telling(parts: Seq<Seq<char>>) -> Seq<Seq<char>>
    decreases parts.len(),
{
    if parts.len() == 0 {
        seq![]
    } else if idle_part(parts.last()) {
        telling(parts.drop_last())
    } else {
        telling(parts.drop_last()).push(parts.last())
    }
}

/// Whether two texts are the same path: both begin at the root or neither does,
/// and their parts are the same.
pub open spec fn one_path(a: Seq<char>, b: Seq<char>) -> bool {
    begins(a, "/"@) == begins(b, "/"@) && path_parts(a) == path_parts(b)
}

fn parts_of(path: &str) -> (r: Vec<String>)
    ensures
        texts(r@) == path_parts(path@),
{
    broadcast use lemma_texts_push;

    let parts = split(path, '/');
    let ghost all = texts(parts@);
    let mut out: Vec<String> = Vec::new();
    assert(pieces(path@, '/').len() > 0);
    assert(all[0] == parts@[0]@);
    if same(parts[0].as_str(), ".") {
        out.push(".".to_owned());
    }
    let ghost start = texts(out@);
    assert(start =~= if all[0] == "."@ {
        seq!["."@]
    } else {
        seq![]
    });
    let mut i: usize = 0;
    assert(start + telling(all.take(0)) =~= start);
    while i < parts.len()
        invariant
            all == texts(parts@),
            i <= parts@.len(),
            texts(out@) == start + telling(all.take(i as int)),
        decreases parts@.len() - i,
    {
        proof {
            assert(all.take(i + 1).drop_last() =~= all.take(i as int));
            assert(all.take(i + 1).last() == parts@[i as int]@);
        }
        let p = parts[i].as_str();
        if !p.is_empty() && !same(p, ".") {
            out.push(p.to_owned());
            assert((start + telling(all.take(i as int))).push(p@) =~= start + telling(
                all.take(i as int),
            ).push(p@));
        }
        i += 1;
    }
    assert(all.take(i as int) =~= all);
    out
}

fn same_list(a: &Vec<String>, b: &Vec<String>) -> (r: bool)
    ensures
        r == (texts(a@) == texts(b@)),
{
    if a.len() != b.len() {
        assert(texts(a@).len() != texts(b@).len());
        return false;
    }
    let mut i: usize = 0;
    while i < a.len()
        invariant
            a@.len() == b@.len(),
            i <= a@.len(),
            forall|j: int| 0 <= j < i ==> texts(a@)[j] == texts(b@)[j],
        decreases a@.len() - i,
    {
        if !same(a[i].as_str(), b[i].as_str()) {
            assert(texts(a@)[i as int] != texts(b@)[i as int]);
            return false;
        }
        i += 1;
    }
    assert(texts(a@) =~= texts(b@));
    true
}

/// Whether two texts are the same path.
pub fn same_path(a: &str, b: &str) -> (r: bool)
    ensures
        r == one_path(a@, b@),
{
    starts_with(a, "/") == starts_with(b, "/") && same_list(&parts_of(a), &parts_of(b))
}

/// Whether a list of paths with colons between them names `dir`.
pub fn on_path(list: &str, dir: &str) -> (r: bool)
    ensures
        r == exists|i: int|
            0 <= i < pieces(list@, ':').len() && one_path(
                #[trigger] pieces(list@, ':')[i],
                dir@,
            ),
{
    let parts = split(list, ':');
    let ghost all = pieces(list@, ':');
    let mut i: usize = 0;
    while i < parts.len()
        invariant
            all == texts(parts@),
            all == pieces(list@, ':'),
            i <= parts@.len(),
            forall|j: int| 0 <= j < i ==> !one_path(#[trigger] all[j], dir@),
        decreases parts@.len() - i,
    {
        assert(all[i as int] == parts@[i as int]@);
        if same_path(parts[i].as_str(), dir) {
            return true;
        }
        i += 1;
    }
    false
}

} // verus!
