//! Palettes: sets of theme tokens with a colour each.
use crate::keymap::{lookup, text_map, KeyMap};
use crate::text::{chars_of, opt_text, texts};
use vstd::prelude::*;

verus! {

/// The tokens that Herdr takes under `theme.custom`.
pub open spec fn theme_tokens() -> Seq<Seq<char>> {
    seq![
        "accent"@,
        "panel_bg"@,
        "sidebar_bg"@,
        "active_row_bg"@,
        "selection_bg"@,
        "surface0"@,
        "surface1"@,
        "surface_dim"@,
        "overlay0"@,
        "overlay1"@,
        "text"@,
        "subtext0"@,
        "mauve"@,
        "green"@,
        "yellow"@,
        "red"@,
        "blue"@,
        "teal"@,
        "peach"@,
    ]
}

/// The tokens that Herdr takes under `theme.custom`, in the order in which they
/// are listed to the user.
pub fn allowed_tokens() -> (r: Vec<String>)
    ensures
        texts(r@) == theme_tokens(),
{
    let r: Vec<String> = vec![
        "accent".to_owned(),
        "panel_bg".to_owned(),
        "sidebar_bg".to_owned(),
        "active_row_bg".to_owned(),
        "selection_bg".to_owned(),
        "surface0".to_owned(),
        "surface1".to_owned(),
        "surface_dim".to_owned(),
        "overlay0".to_owned(),
        "overlay1".to_owned(),
        "text".to_owned(),
        "subtext0".to_owned(),
        "mauve".to_owned(),
        "green".to_owned(),
        "yellow".to_owned(),
        "red".to_owned(),
        "blue".to_owned(),
        "teal".to_owned(),
        "peach".to_owned(),
    ];
    assert(texts(r@) =~= theme_tokens());
    r
}

/// Whether `c` is a hexadecimal digit.
pub open spec fn hex_digit(c: char) -> bool {
    ('0' <= c && c <= '9') || ('a' <= c && c <= 'f') || ('A' <= c && c <= 'F')
}

/// Whether `c` is a hexadecimal digit.
pub fn is_hex_digit(c: char) -> (r: bool)
    ensures
        r == hex_digit(c),
{
    ('0' <= c && c <= '9') || ('a' <= c && c <= 'f') || ('A' <= c && c <= 'F')
}

/// Whether `s` is a colour: `#rgb` or `#rrggbb`.
pub open spec fn hex_colour(s: Seq<char>) -> bool {
    &&& s.len() == 4 || s.len() == 7
    &&& s[0] == '#'
    &&& forall|i: int| 1 <= i < s.len() ==> hex_digit(#[trigger] s[i])
}

/// Whether `s` is a colour: `#rgb` or `#rrggbb`.
pub fn is_hex_colour(s: &str) -> (r: bool)
    ensures
        r == hex_colour(s@),
{
    let v = chars_of(s);
    if v.len() != 4 && v.len() != 7 {
        return false;
    }
    if v[0] != '#' {
        return false;
    }
    let mut i: usize = 1;
    while i < v.len()
        invariant
            v@ == s@,
            1 <= i <= v@.len(),
            forall|j: int| 1 <= j < i ==> hex_digit(#[trigger] s@[j]),
        decreases v@.len() - i,
    {
        if !is_hex_digit(v[i]) {
            assert(!hex_digit(s@[i as int]));
            return false;
        }
        i += 1;
    }
    true
}

/// A palette: theme tokens, tints, and what differs on a light theme.
#[derive(Debug)]
pub struct Palette {
    pub tokens: KeyMap<String>,
    pub pane_bg: Option<String>,
    pub window_bg: Option<String>,
    pub light: Option<Box<Palette>>,
}

/// What a [`Palette`] holds.
pub struct PaletteView {
    pub tokens: Map<Seq<char>, Seq<char>>,
    pub pane_bg: Option<Seq<char>>,
    pub window_bg: Option<Seq<char>>,
    pub light: Option<Box<PaletteView>>,
}

/// The tokens that a palette sets: on a light theme those of its light variant
/// stand over its own.
pub open spec fn effective_of(p: PaletteView, light: bool) -> Map<Seq<char>, Seq<char>> {
    if light && p.light is Some {
        p.tokens.union_prefer_right(p.light->0.tokens)
    } else {
        p.tokens
    }
}

/// The first of two optional texts that is there.
pub open spec fn first_of(a: Option<Seq<char>>, b: Option<Seq<char>>) -> Option<Seq<char>> {
    if a is Some {
        a
    } else {
        b
    }
}

/// The tint of a palette by itself: its own, else the colour of the sidebar.
pub open spec fn own_bg(p: PaletteView) -> Option<Seq<char>> {
    first_of(p.pane_bg, lookup(p.tokens, "sidebar_bg"@))
}

/// The tint of a pane. On a light theme that of the light variant comes first.
pub open spec fn pane_bg_of(p: PaletteView, light: bool) -> Option<Seq<char>> {
    if light && p.light is Some {
        first_of(own_bg(*p.light->0), own_bg(p))
    } else {
        own_bg(p)
    }
}

/// The tint of the window around Herdr, else the tint of a pane.
pub open spec fn window_bg_of(p: PaletteView, light: bool) -> Option<Seq<char>> {
    let own = first_of(p.window_bg, pane_bg_of(p, light));
    if light && p.light is Some {
        first_of(p.light->0.window_bg, own)
    } else {
        own
    }
}

impl Palette {
    pub open spec fn view(&self) -> PaletteView
        decreases self,
    {
        PaletteView {
            tokens: text_map(self.tokens),
            pane_bg: opt_text(self.pane_bg),
            window_bg: opt_text(self.window_bg),
            light: match self.light {
                Some(l) => Some(Box::new(l.view())),
                None => None,
            },
        }
    }

    /// The tokens are in order, here and in the light variant.
    pub open spec fn wf(&self) -> bool
        decreases self,
    {
        self.tokens.wf() && match self.light {
            Some(l) => l.wf(),
            None => true,
        }
    }

    /// A palette without anything.
    pub fn empty() -> (r: Palette)
        ensures
            r.wf(),
            r@ == (PaletteView {
                tokens: Map::empty(),
                pane_bg: None,
                window_bg: None,
                light: None,
            }),
    {
        let r = Palette { tokens: KeyMap::new(), pane_bg: None, window_bg: None, light: None };
        assert(text_map(r.tokens) =~= Map::empty());
        r
    }

    /// The tokens that the palette sets.
    pub fn effective(&self, light: bool) -> (r: KeyMap<String>)
        requires
            self.wf(),
        ensures
            r.wf(),
            text_map(r) == effective_of(self@, light),
    {
        proof {
            reveal_with_fuel(Palette::wf, 2);
            reveal_with_fuel(Palette::view, 2);
        }
        let mut t = self.tokens.copy();
        assert(t.keys() =~= self.tokens.keys());
        assert(t@ =~= self.tokens@);
        if light {
            if let Some(l) = &self.light {
                t.extend(&l.tokens);
                assert(text_map(t) =~= effective_of(self@, light));
            }
        }
        t
    }

    /// The accent colour that the palette sets.
    pub fn accent(&self, light: bool) -> (r: Option<String>)
        requires
            self.wf(),
        ensures
            opt_text(r) == lookup(effective_of(self@, light), "accent"@),
    {
        self.effective(light).copy_of("accent")
    }

    fn own_tint(&self) -> (r: Option<String>)
        requires
            self.wf(),
        ensures
            opt_text(r) == own_bg(self@),
    {
        match &self.pane_bg {
            Some(bg) => Some(bg.clone()),
            None => self.tokens.copy_of("sidebar_bg"),
        }
    }

    /// The tint of a pane.
    pub fn pane_bg(&self, light: bool) -> (r: Option<String>)
        requires
            self.wf(),
        ensures
            opt_text(r) == pane_bg_of(self@, light),
    {
        if light {
            if let Some(l) = &self.light {
                match l.own_tint() {
                    Some(bg) => return Some(bg),
                    None => {},
                }
            }
        }
        self.own_tint()
    }

    /// The tint of the window around Herdr; the tint of a pane where the palette
    /// has none, so one palette colours the whole window.
    pub fn window_bg(&self, light: bool) -> (r: Option<String>)
        requires
            self.wf(),
        ensures
            opt_text(r) == window_bg_of(self@, light),
    {
        proof {
            reveal_with_fuel(Palette::wf, 2);
            reveal_with_fuel(Palette::view, 2);
        }
        if light {
            if let Some(l) = &self.light {
                if let Some(bg) = &l.window_bg {
                    return Some(bg.clone());
                }
            }
        }
        match &self.window_bg {
            Some(bg) => Some(bg.clone()),
            None => self.pane_bg(light),
        }
    }
}

// --- laws ------------------------------------------------------------------------

/// Where neither a palette nor its light variant sets a colour for the window, the
/// window is tinted as the panes are, for either kind of theme: on a light theme
/// by the `pane_bg` of the light variant or, where that has none, by its
/// `sidebar_bg`; only where it has neither, and on every other theme, by those of
/// the palette itself.
pub proof fn law_window_follows_the_panes(p: PaletteView, light: bool)
    requires
        p.window_bg is None,
        p.light is Some ==> p.light->0.window_bg is None,
    ensures
        window_bg_of(p, light) == pane_bg_of(p, light),
        light && p.light is Some && p.light->0.pane_bg is Some ==> window_bg_of(p, light)
            == p.light->0.pane_bg,
        light && p.light is Some && p.light->0.pane_bg is None
            && p.light->0.tokens.contains_key("sidebar_bg"@) ==> window_bg_of(p, light) == Some(
            p.light->0.tokens["sidebar_bg"@],
        ),
        !light || p.light is None || (p.light->0.pane_bg is None
            && !p.light->0.tokens.contains_key("sidebar_bg"@)) ==> (if p.pane_bg is Some {
            window_bg_of(p, light) == p.pane_bg
        } else if p.tokens.contains_key("sidebar_bg"@) {
            window_bg_of(p, light) == Some(p.tokens["sidebar_bg"@])
        } else {
            window_bg_of(p, light) is None
        }),
{
}

/// A colour that is set for the window is the tint of the window: on a light theme
/// that of the light variant, which no other colour goes before; else, and where
/// the light variant has none, that of the palette, whatever the panes have. A
/// dark theme never shows what a light variant sets.
pub proof fn law_own_window_colour_counts(
    p: PaletteView,
    light: bool,
    other: Option<Box<PaletteView>>,
)
    ensures
        light && p.light is Some && p.light->0.window_bg is Some ==> window_bg_of(p, light)
            == p.light->0.window_bg,
        p.window_bg is Some && (!light || p.light is None || p.light->0.window_bg is None)
            ==> window_bg_of(p, light) == p.window_bg,
        window_bg_of(PaletteView { light: other, ..p }, false) == window_bg_of(p, false),
        pane_bg_of(PaletteView { light: other, ..p }, false) == pane_bg_of(p, false),
{
}

/// The tint of a pane: on a light theme the `pane_bg` of the light variant, or its
/// `sidebar_bg`; where it has neither, and on every other theme, the `pane_bg` of
/// the palette, or its `sidebar_bg`. There is none only where all of these are
/// missing. What the window has does not count.
pub proof fn law_pane_tint(p: PaletteView, light: bool, window: Option<Seq<char>>)
    ensures
        ({
            let varied = light && p.light is Some;
            let l = p.light->0;
            let bar = "sidebar_bg"@;
            let tint = pane_bg_of(p, light);
            &&& varied && l.pane_bg is Some ==> tint == l.pane_bg
            &&& varied && l.pane_bg is None && l.tokens.contains_key(bar) ==> tint == Some(
                l.tokens[bar],
            )
            &&& (varied ==> l.pane_bg is None && !l.tokens.contains_key(bar)) ==> {
                &&& p.pane_bg is Some ==> tint == p.pane_bg
                &&& p.pane_bg is None && p.tokens.contains_key(bar) ==> tint == Some(p.tokens[bar])
                &&& p.pane_bg is None && !p.tokens.contains_key(bar) ==> tint is None
            }
        }),
        pane_bg_of(PaletteView { window_bg: window, ..p }, light) == pane_bg_of(p, light),
{
}

/// On a light theme every token of the light variant has the colour that it has
/// there; every other token of the palette keeps its own, and no token comes from
/// elsewhere. On any other theme the tokens are those of the palette.
pub proof fn law_light_tokens_stand_over(p: PaletteView, light: bool, token: Seq<char>)
    ensures
        ({
            let tokens = effective_of(p, light);
            let varied = light && p.light is Some && p.light->0.tokens.contains_key(token);
            &&& varied ==> tokens.contains_key(token) && tokens[token]
                == p.light->0.tokens[token]
            &&& !varied && p.tokens.contains_key(token) ==> tokens.contains_key(token)
                && tokens[token] == p.tokens[token]
            &&& !varied && !p.tokens.contains_key(token) ==> !tokens.contains_key(token)
        }),
{
}

/// A text is a colour where it is a `#` and three or six hexadecimal digits after
/// it, in either case, and nothing else is one.
pub proof fn law_colours(s: Seq<char>)
    ensures
        hex_colour(s) ==> s.len() == 4 || s.len() == 7,
        hex_colour(s) ==> s[0] == '#',
        hex_colour(s) ==> forall|i: int|
            1 <= i < s.len() ==> '0' <= (#[trigger] s[i]) <= '9' || 'a' <= s[i] <= 'f' || 'A'
                <= s[i] <= 'F',
        (s.len() == 4 || s.len() == 7) && s[0] == '#' && (forall|i: int|
            1 <= i < s.len() ==> '0' <= (#[trigger] s[i]) <= '9' || 'a' <= s[i] <= 'f' || 'A'
                <= s[i] <= 'F') ==> hex_colour(s),
{
}

} // verus!
