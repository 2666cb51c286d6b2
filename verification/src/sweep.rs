//! The tags by which Herdr's sidebar shows a colour: one token per palette, of
//! which every workspace and every pane has exactly the one that matches.
use crate::keymap::{lookup, text_map, KeyMap};
use crate::select::{choice_map, Via};
use crate::text::{as_opt_str, cat, cat4, cat5, lemma_texts_push, opt_str, same, same_opt, texts};
use vstd::prelude::*;

verus! {

/// The arguments that set the token of one palette and clear those of the
/// others.
pub open spec fn token_args(
    names: Seq<Seq<char>>,
    palette: Option<Seq<char>>,
    marker: Seq<char>,
) -> Seq<Seq<char>>
    decreases names.len(),
{
    if names.len() == 0 {
        seq![]
    } else {
        let rest = token_args(names.drop_last(), palette, marker);
        let name = names.last();
        if palette == Some(name) {
            rest.push("--token"@).push("sc_"@ + name + "="@ + marker)
        } else {
            rest.push("--clear-token"@).push("sc_"@ + name)
        }
    }
}

/// The arguments of the call that tags a workspace or a pane.
pub open spec fn report_call(
    kind: Seq<char>,
    id: Seq<char>,
    palette: Option<Seq<char>>,
    marker: Seq<char>,
    names: Seq<Seq<char>>,
) -> Seq<Seq<char>> {
    seq![kind, "report-metadata"@, id, "--source"@, "space-colors"@] + token_args(
        names,
        palette,
        marker,
    )
}

/// The arguments of the call that tags a workspace or a pane: the token of its
/// palette is set, and those of all other palettes are cleared.
pub fn report_args(
    kind: &str,
    id: &str,
    palette: Option<&str>,
    marker: &str,
    all: &Vec<String>,
) -> (r: Vec<String>)
    ensures
        texts(r@) == report_call(kind@, id@, opt_str(palette), marker@, texts(all@)),
{
    broadcast use lemma_texts_push;

    let mut args: Vec<String> = vec![
        kind.to_owned(),
        "report-metadata".to_owned(),
        id.to_owned(),
        "--source".to_owned(),
        "space-colors".to_owned(),
    ];
    let ghost head = seq![kind@, "report-metadata"@, id@, "--source"@, "space-colors"@];
    let ghost names = texts(all@);
    let ghost p = opt_str(palette);
    assert(texts(args@) =~= head);
    assert(head + token_args(names.take(0), p, marker@) =~= head);
    let mut i: usize = 0;
    while i < all.len()
        invariant
            names == texts(all@),
            p == opt_str(palette),
            i <= all@.len(),
            texts(args@) == head + token_args(names.take(i as int), p, marker@),
        decreases all@.len() - i,
    {
        let name = all[i].as_str();
        let ghost so_far = token_args(names.take(i as int), p, marker@);
        proof {
            assert(names.take(i + 1).drop_last() =~= names.take(i as int));
            assert(names.take(i + 1).last() == name@);
        }
        if same_opt(Some(name), palette) {
            let text = cat4("sc_", name, "=", marker);
            args.push("--token".to_owned());
            args.push(text);
            assert((head + so_far).push("--token"@).push(text@) =~= head + so_far.push(
                "--token"@,
            ).push(text@));
        } else {
            let text = cat("sc_", name);
            args.push("--clear-token".to_owned());
            args.push(text);
            assert((head + so_far).push("--clear-token"@).push(text@) =~= head + so_far.push(
                "--clear-token"@,
            ).push(text@));
        }
        i += 1;
    }
    assert(names.take(i as int) =~= names);
    args
}

/// A call that is to be made: what it tags, with which palette, and its
/// arguments.
pub struct Tag {
    pub id: String,
    /// The palette to remember; empty for none.
    pub want: String,
    pub args: Vec<String>,
}

/// What a [`Tag`] holds.
pub struct TagView {
    pub id: Seq<char>,
    pub want: Seq<char>,
    pub args: Seq<Seq<char>>,
}

impl Tag {
    pub open spec fn view(&self) -> TagView {
        TagView { id: self.id@, want: self.want@, args: texts(self.args@) }
    }
}

/// The tags of a list.
pub open spec fn tag_views(v: Seq<Tag>) -> Seq<TagView> {
    v.map_values(|t: Tag| t@)
}

/// The palette to remember: its name, or an empty text for none.
pub open spec fn wanted(palette: Option<Seq<char>>) -> Seq<char> {
    match palette {
        Some(p) => p,
        None => seq![],
    }
}

/// The calls that are to be made: one for each of `ids` whose palette is not the
/// one that is remembered.
pub open spec fn pending(
    kind: Seq<char>,
    ids: Seq<Seq<char>>,
    choices: Map<Seq<char>, (Option<Seq<char>>, Via)>,
    tokens: Map<Seq<char>, Seq<char>>,
    marker: Seq<char>,
    names: Seq<Seq<char>>,
) -> Seq<TagView>
    decreases ids.len(),
{
    if ids.len() == 0 {
        seq![]
    } else {
        let rest = pending(kind, ids.drop_last(), choices, tokens, marker, names);
        let id = ids.last();
        let palette = choices[id].0;
        if lookup(tokens, id) == Some(wanted(palette)) {
            rest
        } else {
            rest.push(
                TagView {
                    id,
                    want: wanted(palette),
                    args: report_call(kind, id, palette, marker, names),
                },
            )
        }
    }
}

/// The calls that are to be made for workspaces or for panes. Only those whose
/// colour changed since the last time cost a call.
pub fn pending_tags(
    kind: &str,
    choices: &KeyMap<(Option<String>, Via)>,
    tokens: &KeyMap<String>,
    marker: &str,
    names: &Vec<String>,
) -> (r: Vec<Tag>)
    requires
        choices.wf(),
        tokens.wf(),
    ensures
        tag_views(r@) == pending(
            kind@,
            choices.keys(),
            choice_map(*choices),
            text_map(*tokens),
            marker@,
            texts(names@),
        ),
{
    let mut out: Vec<Tag> = Vec::new();
    let ghost ids = choices.keys();
    let ghost cm = choice_map(*choices);
    let ghost tm = text_map(*tokens);
    assert(tag_views(out@) =~= seq![]);
    let mut i: usize = 0;
    while i < choices.entries.len()
        invariant
            choices.wf(),
            tokens.wf(),
            ids == choices.keys(),
            ids.len() == choices.entries@.len(),
            cm == choice_map(*choices),
            tm == text_map(*tokens),
            i <= ids.len(),
            tag_views(out@) == pending(
                kind@,
                ids.take(i as int),
                cm,
                tm,
                marker@,
                texts(names@),
            ),
        decreases ids.len() - i,
    {
        let id = &choices.entries[i].0;
        let palette = as_opt_str(&choices.entries[i].1.0);
        proof {
            choices.lemma_entry(i as int);
            assert(ids.take(i + 1).drop_last() =~= ids.take(i as int));
            assert(ids.take(i + 1).last() == id@);
            assert(cm[id@].0 == opt_str(palette));
        }
        let want = match palette {
            Some(p) => p.to_owned(),
            None => {
                let none = String::new();
                assert(none@ =~= seq![]);
                none
            },
        };
        let known = match tokens.get(id.as_str()) {
            Some(t) => same(t.as_str(), want.as_str()),
            None => false,
        };
        if !known {
            let args = report_args(kind, id.as_str(), palette, marker, names);
            let tag = Tag { id: id.clone(), want, args };
            let ghost earlier = out@;
            out.push(tag);
            assert(tag_views(out@) =~= tag_views(earlier).push(tag@));
        }
        i += 1;
    }
    assert(ids.take(i as int) =~= ids);
    out
}

/// Forgets the tags of everything that is not there any more.
pub fn retain_live(tokens: &mut KeyMap<String>, live: &KeyMap<(Option<String>, Via)>)
    requires
        old(tokens).wf(),
        live.wf(),
    ensures
        final(tokens).wf(),
        text_map(*final(tokens)) == text_map(*old(tokens)).restrict(live@.dom()),
{
    let ghost start = *tokens;
    let ghost keys = tokens.keys();
    let mut out: KeyMap<String> = KeyMap::new();
    let mut i: usize = 0;
    while i < tokens.entries.len()
        invariant
            *tokens == start,
            start.wf(),
            live.wf(),
            keys == start.keys(),
            keys.len() == start.entries@.len(),
            i <= keys.len(),
            out.wf(),
            forall|k: Seq<char>| #[trigger]
                out@.contains_key(k) <==> keys.take(i as int).contains(k) && live@.contains_key(k),
            forall|k: Seq<char>|
                out@.contains_key(k) ==> start@.contains_key(k) && #[trigger] out@[k] == start@[k],
        decreases keys.len() - i,
    {
        let key = &tokens.entries[i].0;
        proof {
            start.lemma_entry(i as int);
            let a = keys.take(i as int);
            let b = keys.take(i + 1);
            assert forall|k: Seq<char>| b.contains(k) <==> a.contains(k) || k == key@ by {
                if a.contains(k) {
                    let j = choose|j: int| 0 <= j < a.len() && a[j] == k;
                    assert(b[j] == k);
                }
                if b.contains(k) {
                    let j = choose|j: int| 0 <= j < b.len() && b[j] == k;
                    if j < i {
                        assert(a[j] == k);
                    }
                }
                assert(b[i as int] == key@);
            }
        }
        if live.has(key.as_str()) {
            out.insert(key.clone(), tokens.entries[i].1.clone());
        }
        i += 1;
    }
    proof {
        assert(keys.take(i as int) =~= keys);
        let got = text_map(out);
        let want = text_map(start).restrict(live@.dom());
        assert forall|k: Seq<char>| got.contains_key(k) <==> want.contains_key(k) by {
            assert(out@.contains_key(k) <==> keys.contains(k) && live@.contains_key(k));
            assert(start@.contains_key(k) == keys.contains(k));
        }
        assert forall|k: Seq<char>| got.contains_key(k) implies #[trigger] got[k] == want[k] by {
            assert(out@.contains_key(k));
            assert(out@[k] == start@[k]);
        }
        assert(got =~= want);
    }
    *tokens = out;
}

/// Remembers that a call was made.
pub fn record(tokens: &mut KeyMap<String>, tag: &Tag)
    requires
        old(tokens).wf(),
    ensures
        final(tokens).wf(),
        text_map(*final(tokens)) == text_map(*old(tokens)).insert(tag.id@, tag.want@),
{
    let ghost earlier = text_map(*tokens);
    tokens.insert(tag.id.clone(), tag.want.clone());
    assert(text_map(*tokens) =~= earlier.insert(tag.id@, tag.want@));
}

/// The line for the user on a call that a dry run would make.
pub fn would_tag(kind: &str, tag: &Tag) -> (r: String)
    ensures
        r@ == "would tag "@ + kind@ + " "@ + tag.id@ + " → "@ + if tag.want@.len() == 0 {
            "none"@
        } else {
            tag.want@
        },
{
    let mut out = cat5("would tag ", kind, " ", tag.id.as_str(), " → ");
    if tag.want.as_str().is_empty() {
        out.append("none");
    } else {
        out.append(tag.want.as_str());
    }
    out
}

/// The calls that clear the tags of everything that is remembered.
pub open spec fn clear_calls(
    kind: Seq<char>,
    ids: Seq<Seq<char>>,
    marker: Seq<char>,
    names: Seq<Seq<char>>,
) -> Seq<Seq<Seq<char>>> {
    ids.map_values(|id: Seq<char>| report_call(kind, id, None, marker, names))
}

/// The calls that clear the tags that are remembered, in the order of their ids.
pub open spec fn clears_of(
    kind: Seq<char>,
    tokens: KeyMap<String>,
    marker: Seq<char>,
    names: Seq<Seq<char>>,
) -> Seq<Seq<Seq<char>>> {
    clear_calls(kind, tokens.keys(), marker, names)
}

/// The arguments of a list of calls.
pub open spec fn call_views(v: Seq<Vec<String>>) -> Seq<Seq<Seq<char>>> {
    v.map_values(|c: Vec<String>| texts(c@))
}

/// The calls that clear the tags of everything that is remembered.
pub fn clear_tags(kind: &str, tokens: &KeyMap<String>, marker: &str, names: &Vec<String>) -> (r: Vec<
    Vec<String>,
>)
    ensures
        call_views(r@) == clears_of(kind@, *tokens, marker@, texts(names@)),
{
    let mut out: Vec<Vec<String>> = Vec::new();
    let ghost ids = tokens.keys();
    let mut i: usize = 0;
    while i < tokens.entries.len()
        invariant
            ids == tokens.keys(),
            ids.len() == tokens.entries@.len(),
            i <= ids.len(),
            out@.len() == i,
            forall|j: int|
                0 <= j < i ==> texts((#[trigger] out@[j])@) == report_call(
                    kind@,
                    ids[j],
                    None,
                    marker@,
                    texts(names@),
                ),
        decreases ids.len() - i,
    {
        out.push(report_args(kind, tokens.entries[i].0.as_str(), None, marker, names));
        i += 1;
    }
    assert(call_views(out@) =~= clear_calls(kind@, ids, marker@, texts(names@)));
    out
}

/// The names of the palettes, in order.
pub fn key_list<V>(m: &KeyMap<V>) -> (r: Vec<String>)
    ensures
        texts(r@) == m.keys(),
{
    broadcast use lemma_texts_push;

    let mut out: Vec<String> = Vec::new();
    let ghost keys = m.keys();
    assert(texts(out@) =~= keys.take(0));
    let mut i: usize = 0;
    while i < m.entries.len()
        invariant
            keys == m.keys(),
            keys.len() == m.entries@.len(),
            i <= keys.len(),
            texts(out@) == keys.take(i as int),
        decreases keys.len() - i,
    {
        out.push(m.entries[i].0.clone());
        assert(keys.take(i + 1) =~= keys.take(i as int).push(keys[i as int]));
        i += 1;
    }
    assert(keys.take(i as int) =~= keys);
    out
}

// --- laws ------------------------------------------------------------------------

/// A call says something of every palette: the token of the one that is given is
/// set, and that of every other is cleared.
pub proof fn law_one_token_is_set(
    names: Seq<Seq<char>>,
    palette: Option<Seq<char>>,
    marker: Seq<char>,
    i: int,
)
    requires
        0 <= i < names.len(),
    ensures
        token_args(names, palette, marker).len() == 2 * names.len(),
        if palette == Some(names[i]) {
            token_args(names, palette, marker)[2 * i] == "--token"@ && token_args(
                names,
                palette,
                marker,
            )[2 * i + 1] == "sc_"@ + names[i] + "="@ + marker
        } else {
            token_args(names, palette, marker)[2 * i] == "--clear-token"@ && token_args(
                names,
                palette,
                marker,
            )[2 * i + 1] == "sc_"@ + names[i]
        },
    decreases names.len(),
{
    let rest = names.drop_last();
    lemma_token_args_len(rest, palette, marker);
    if i < rest.len() {
        law_one_token_is_set(rest, palette, marker, i);
    }
}

proof fn lemma_token_args_len(names: Seq<Seq<char>>, palette: Option<Seq<char>>, marker: Seq<char>)
    ensures
        token_args(names, palette, marker).len() == 2 * names.len(),
    decreases names.len(),
{
    if names.len() > 0 {
        lemma_token_args_len(names.drop_last(), palette, marker);
    }
}

/// What is remembered after calls were made.
pub open spec fn recorded(
    tokens: Map<Seq<char>, Seq<char>>,
    tags: Seq<TagView>,
) -> Map<Seq<char>, Seq<char>>
    decreases tags.len(),
{
    if tags.len() == 0 {
        tokens
    } else {
        recorded(tokens, tags.drop_last()).insert(tags.last().id, tags.last().want)
    }
}

proof fn lemma_settled(
    kind: Seq<char>,
    ids: Seq<Seq<char>>,
    choices: Map<Seq<char>, (Option<Seq<char>>, Via)>,
    tokens: Map<Seq<char>, Seq<char>>,
    marker: Seq<char>,
    names: Seq<Seq<char>>,
)
    ensures
        ({
            let done = recorded(tokens, pending(kind, ids, choices, tokens, marker, names));
            &&& forall|i: int|
                0 <= i < ids.len() ==> lookup(done, #[trigger] ids[i]) == Some(
                    wanted(choices[ids[i]].0),
                )
            &&& forall|k: Seq<char>|
                lookup(tokens, k) == Some(wanted(choices[k].0)) ==> lookup(done, k)
                    == #[trigger] lookup(tokens, k)
        }),
    decreases ids.len(),
{
    if ids.len() > 0 {
        let rest = ids.drop_last();
        lemma_settled(kind, rest, choices, tokens, marker, names);
        let before = pending(kind, rest, choices, tokens, marker, names);
        let after = pending(kind, ids, choices, tokens, marker, names);
        let id = ids.last();
        let done = recorded(tokens, after);
        if after.len() > before.len() {
            assert(after.drop_last() =~= before);
        }
        assert forall|i: int| 0 <= i < ids.len() implies lookup(done, #[trigger] ids[i]) == Some(
            wanted(choices[ids[i]].0),
        ) by {
            if i < rest.len() {
                assert(rest[i] == ids[i]);
            } else {
                assert(ids[i] == id);
                if lookup(tokens, id) == Some(wanted(choices[id].0)) {
                    assert(lookup(recorded(tokens, before), id) == lookup(tokens, id));
                }
            }
        }
    }
}

proof fn lemma_none_pending(
    kind: Seq<char>,
    ids: Seq<Seq<char>>,
    choices: Map<Seq<char>, (Option<Seq<char>>, Via)>,
    tokens: Map<Seq<char>, Seq<char>>,
    marker: Seq<char>,
    names: Seq<Seq<char>>,
)
    requires
        forall|i: int|
            0 <= i < ids.len() ==> lookup(tokens, #[trigger] ids[i]) == Some(
                wanted(choices[ids[i]].0),
            ),
    ensures
        pending(kind, ids, choices, tokens, marker, names) == Seq::<TagView>::empty(),
    decreases ids.len(),
{
    if ids.len() > 0 {
        let rest = ids.drop_last();
        assert forall|i: int| 0 <= i < rest.len() implies lookup(tokens, #[trigger] rest[i])
            == Some(wanted(choices[rest[i]].0)) by {
            assert(rest[i] == ids[i]);
        }
        lemma_none_pending(kind, rest, choices, tokens, marker, names);
        assert(ids[ids.len() - 1] == ids.last());
    }
}

/// A sweep settles: once the calls that were due are made and remembered, none is
/// due.
pub proof fn law_sweep_settles(
    kind: Seq<char>,
    ids: Seq<Seq<char>>,
    choices: Map<Seq<char>, (Option<Seq<char>>, Via)>,
    tokens: Map<Seq<char>, Seq<char>>,
    marker: Seq<char>,
    names: Seq<Seq<char>>,
)
    ensures
        ({
            let due = pending(kind, ids, choices, tokens, marker, names);
            pending(kind, ids, choices, recorded(tokens, due), marker, names) == Seq::<
                TagView,
            >::empty()
        }),
{
    lemma_settled(kind, ids, choices, tokens, marker, names);
    let due = pending(kind, ids, choices, tokens, marker, names);
    lemma_none_pending(kind, ids, choices, recorded(tokens, due), marker, names);
}

proof fn lemma_call(
    kind: Seq<char>,
    id: Seq<char>,
    palette: Option<Seq<char>>,
    marker: Seq<char>,
    names: Seq<Seq<char>>,
)
    ensures
        ({
            let args = report_call(kind, id, palette, marker, names);
            &&& args.len() == 5 + 2 * names.len()
            &&& args[0] == kind
            &&& args[1] == "report-metadata"@
            &&& args[2] == id
            &&& args[3] == "--source"@
            &&& args[4] == "space-colors"@
            &&& forall|i: int|
                #![trigger names[i]]
                0 <= i < names.len() ==> if palette == Some(names[i]) {
                    args[5 + 2 * i] == "--token"@ && args[6 + 2 * i] == "sc_"@ + names[i] + "="@
                        + marker
                } else {
                    args[5 + 2 * i] == "--clear-token"@ && args[6 + 2 * i] == "sc_"@ + names[i]
                }
        }),
{
    let args = report_call(kind, id, palette, marker, names);
    let tail = token_args(names, palette, marker);
    lemma_token_args_len(names, palette, marker);
    assert forall|i: int| #![trigger names[i]] 0 <= i < names.len() implies if palette == Some(
        names[i],
    ) {
        args[5 + 2 * i] == "--token"@ && args[6 + 2 * i] == "sc_"@ + names[i] + "="@ + marker
    } else {
        args[5 + 2 * i] == "--clear-token"@ && args[6 + 2 * i] == "sc_"@ + names[i]
    } by {
        law_one_token_is_set(names, palette, marker, i);
        assert(args[5 + 2 * i] == tail[2 * i]);
        assert(args[6 + 2 * i] == tail[2 * i + 1]);
    }
}

/// What a call says that tags a workspace or a pane: the kind, `report-metadata`,
/// the id, `--source space-colors`, and then two arguments for each palette, in
/// the order of the palettes. They set the token of the palette that is given, to
/// the marker, and clear that of any other.
pub proof fn law_call_is_for_its_id(
    kind: Seq<char>,
    id: Seq<char>,
    palette: Option<Seq<char>>,
    marker: Seq<char>,
    names: Seq<Seq<char>>,
    i: int,
)
    requires
        0 <= i < names.len(),
    ensures
        ({
            let args = report_call(kind, id, palette, marker, names);
            &&& args.len() == 5 + 2 * names.len()
            &&& args.take(5) == seq![kind, "report-metadata"@, id, "--source"@, "space-colors"@]
            &&& palette == Some(names[i]) ==> args[5 + 2 * i] == "--token"@ && args[6 + 2 * i]
                == "sc_"@ + names[i] + "="@ + marker
            &&& palette != Some(names[i]) ==> args[5 + 2 * i] == "--clear-token"@ && args[6 + 2
                * i] == "sc_"@ + names[i]
        }),
{
    lemma_call(kind, id, palette, marker, names);
    let args = report_call(kind, id, palette, marker, names);
    assert(args.take(5) =~= seq![kind, "report-metadata"@, id, "--source"@, "space-colors"@]);
    assert(names[i] == names[i]);
}

/// Every call that a sweep makes is for its kind and its id, one of those that are
/// there; it sets the token of exactly the palette that was chosen for that id, and
/// clears the others. What is remembered of it is that palette, which is not what
/// was remembered before.
pub proof fn law_sweep_tags_what_was_chosen(
    kind: Seq<char>,
    ids: Seq<Seq<char>>,
    choices: Map<Seq<char>, (Option<Seq<char>>, Via)>,
    tokens: Map<Seq<char>, Seq<char>>,
    marker: Seq<char>,
    names: Seq<Seq<char>>,
    t: int,
)
    requires
        0 <= t < pending(kind, ids, choices, tokens, marker, names).len(),
    ensures
        ({
            let tag = pending(kind, ids, choices, tokens, marker, names)[t];
            let palette = choices[tag.id].0;
            &&& ids.contains(tag.id)
            &&& tag.args.len() == 5 + 2 * names.len()
            &&& tag.args[0] == kind
            &&& tag.args[1] == "report-metadata"@
            &&& tag.args[2] == tag.id
            &&& tag.args[3] == "--source"@
            &&& tag.args[4] == "space-colors"@
            &&& forall|i: int|
                #![trigger names[i]]
                0 <= i < names.len() ==> if palette == Some(names[i]) {
                    tag.args[5 + 2 * i] == "--token"@ && tag.args[6 + 2 * i] == "sc_"@ + names[i]
                        + "="@ + marker
                } else {
                    tag.args[5 + 2 * i] == "--clear-token"@ && tag.args[6 + 2 * i] == "sc_"@
                        + names[i]
                }
            &&& palette is Some ==> tag.want == palette->0
            &&& palette is None ==> tag.want.len() == 0
            &&& !(tokens.contains_key(tag.id) && tokens[tag.id] == tag.want)
        }),
    decreases ids.len(),
{
    if ids.len() > 0 {
        let rest = pending(kind, ids.drop_last(), choices, tokens, marker, names);
        if t < rest.len() {
            law_sweep_tags_what_was_chosen(
                kind,
                ids.drop_last(),
                choices,
                tokens,
                marker,
                names,
                t,
            );
            let id = rest[t].id;
            let at = choose|at: int|
                0 <= at < ids.drop_last().len() && ids.drop_last()[at] == id;
            assert(ids[at] == id);
        } else {
            let id = ids.last();
            assert(ids[ids.len() - 1] == id);
            lemma_call(kind, id, choices[id].0, marker, names);
        }
    }
}

/// A sweep calls for exactly the ids whose palette is not what is remembered of
/// them, each once and in their order; an id of which nothing is remembered is
/// among them.
pub proof fn law_sweep_leaves_nothing_out(
    kind: Seq<char>,
    ids: Seq<Seq<char>>,
    choices: Map<Seq<char>, (Option<Seq<char>>, Via)>,
    tokens: Map<Seq<char>, Seq<char>>,
    marker: Seq<char>,
    names: Seq<Seq<char>>,
)
    ensures
        pending(kind, ids, choices, tokens, marker, names).map_values(|t: TagView| t.id)
            == ids.filter(
            |id: Seq<char>|
                !tokens.contains_key(id) || (match choices[id].0 {
                    Some(p) => tokens[id] != p,
                    None => tokens[id].len() > 0,
                }),
        ),
    decreases ids.len(),
{
    let due = |id: Seq<char>|
        !tokens.contains_key(id) || (match choices[id].0 {
            Some(p) => tokens[id] != p,
            None => tokens[id].len() > 0,
        });
    let tags = pending(kind, ids, choices, tokens, marker, names);
    reveal(Seq::filter);
    if ids.len() > 0 {
        let rest = pending(kind, ids.drop_last(), choices, tokens, marker, names);
        let id = ids.last();
        law_sweep_leaves_nothing_out(kind, ids.drop_last(), choices, tokens, marker, names);
        if choices[id].0 is None && tokens.contains_key(id) && tokens[id].len() == 0 {
            assert(tokens[id] =~= seq![]);
        }
        assert(due(id) <==> tags.len() > rest.len());
        if due(id) {
            assert(tags.map_values(|t: TagView| t.id) =~= rest.map_values(
                |t: TagView| t.id,
            ).push(id));
        }
    } else {
        assert(tags.map_values(|t: TagView| t.id) =~= ids.filter(due));
    }
}

/// The calls that clear the tags: one for each id that is remembered, in the same
/// order.
pub proof fn law_every_id_is_cleared(
    kind: Seq<char>,
    ids: Seq<Seq<char>>,
    marker: Seq<char>,
    names: Seq<Seq<char>>,
)
    ensures
        clear_calls(kind, ids, marker, names).map_values(|args: Seq<Seq<char>>| args[2]) == ids,
{
    let calls = clear_calls(kind, ids, marker, names);
    let targets = calls.map_values(|args: Seq<Seq<char>>| args[2]);
    assert forall|c: int| 0 <= c < ids.len() implies targets[c] == ids[c] by {
        law_a_clear_clears_every_token(kind, ids, marker, names, c);
    }
    assert(targets =~= ids);
}

/// Each call that clears tags is of the given kind and for the id in its place,
/// and it clears the token of every palette.
pub proof fn law_a_clear_clears_every_token(
    kind: Seq<char>,
    ids: Seq<Seq<char>>,
    marker: Seq<char>,
    names: Seq<Seq<char>>,
    c: int,
)
    requires
        0 <= c < ids.len(),
    ensures
        ({
            let args = clear_calls(kind, ids, marker, names)[c];
            &&& args.len() == 5 + 2 * names.len()
            &&& args[0] == kind
            &&& args[1] == "report-metadata"@
            &&& args[2] == ids[c]
            &&& args[3] == "--source"@
            &&& args[4] == "space-colors"@
            &&& forall|i: int|
                #![trigger names[i]]
                0 <= i < names.len() ==> args.subrange(5 + 2 * i, 7 + 2 * i) == seq![
                    "--clear-token"@,
                    "sc_"@ + names[i],
                ]
        }),
{
    let args = clear_calls(kind, ids, marker, names)[c];
    lemma_call(kind, ids[c], None, marker, names);
    assert forall|i: int| #![trigger names[i]] 0 <= i < names.len() implies args.subrange(
        5 + 2 * i,
        7 + 2 * i,
    ) == seq!["--clear-token"@, "sc_"@ + names[i]] by {
        law_call_is_for_its_id(kind, ids[c], None, marker, names, i);
        assert(args.subrange(5 + 2 * i, 7 + 2 * i) =~= seq![
            "--clear-token"@,
            "sc_"@ + names[i],
        ]);
    }
}

/// An id whose palette is not what is remembered of it is called for.
pub proof fn law_a_change_is_told(
    kind: Seq<char>,
    ids: Seq<Seq<char>>,
    choices: Map<Seq<char>, (Option<Seq<char>>, Via)>,
    tokens: Map<Seq<char>, Seq<char>>,
    marker: Seq<char>,
    names: Seq<Seq<char>>,
    i: int,
) -> (t: int)
    requires
        0 <= i < ids.len(),
        !tokens.contains_key(ids[i]) || (match choices[ids[i]].0 {
            Some(p) => tokens[ids[i]] != p,
            None => tokens[ids[i]].len() > 0,
        }),
    ensures
        0 <= t < pending(kind, ids, choices, tokens, marker, names).len(),
        pending(kind, ids, choices, tokens, marker, names)[t].id == ids[i],
    decreases ids.len(),
{
    let rest = ids.drop_last();
    let before = pending(kind, rest, choices, tokens, marker, names);
    let all = pending(kind, ids, choices, tokens, marker, names);
    if i < rest.len() {
        let t = law_a_change_is_told(kind, rest, choices, tokens, marker, names, i);
        assert(all[t] == before[t]);
        t
    } else {
        assert(ids.last() == ids[i]);
        assert(all.len() == before.len() + 1);
        assert(all[before.len() as int].id == ids[i]);
        before.len() as int
    }
}

/// Every id that is remembered is cleared: among the calls there is one of the kind
/// that is for the id, and there are no more calls than ids.
pub proof fn law_everything_remembered_is_cleared(
    kind: Seq<char>,
    tokens: KeyMap<String>,
    marker: Seq<char>,
    names: Seq<Seq<char>>,
    id: Seq<char>,
) -> (c: int)
    requires
        tokens.wf(),
        text_map(tokens).contains_key(id),
    ensures
        ({
            let calls = clears_of(kind, tokens, marker, names);
            &&& calls.len() == tokens.entries@.len()
            &&& 0 <= c < calls.len()
            &&& calls[c].len() == 5 + 2 * names.len()
            &&& calls[c][0] == kind
            &&& calls[c][2] == id
            &&& forall|i: int|
                #![trigger names[i]]
                0 <= i < names.len() ==> calls[c].subrange(5 + 2 * i, 7 + 2 * i) == seq![
                    "--clear-token"@,
                    "sc_"@ + names[i],
                ]
        }),
{
    let ids = tokens.keys();
    assert(tokens@.contains_key(id));
    assert(ids.contains(id));
    let c = choose|c: int| 0 <= c < ids.len() && ids[c] == id;
    law_a_clear_clears_every_token(kind, ids, marker, names, c);
    c
}

} // verus!
