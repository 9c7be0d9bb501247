//! Syntax-highlighted source lines, through syntect.

use vstd::prelude::*;

use syntect::easy::HighlightLines;
use syntect::highlighting::{Color, FontStyle, Style, Theme, ThemeSet};
use syntect::parsing::SyntaxSet;
use syntect::util::as_24_bit_terminal_escaped;

use crate::env::RenderCtx;
use crate::escape::stripped;
use crate::render::sink::LineSink;
use crate::render::text::{lines_with_endings, lwe_from};
use crate::render::table::texts;
use crate::render::traceback::strip_ansi_pub;
use crate::strs::{chars_of, decimal, string_of};

verus! {

#[verifier::external_type_specification]
#[verifier::external_body]
pub struct ExSyntaxSet(SyntaxSet);

#[verifier::external_type_specification]
#[verifier::external_body]
pub struct ExThemeSet(ThemeSet);

#[verifier::external_type_specification]
#[verifier::external_body]
pub struct ExTheme(Theme);

#[verifier::external_type_specification]
#[verifier::external_body]
pub struct ExHighlightLines<'a>(HighlightLines<'a>);

/// An RGBA color, as syntect's `Color` holds it.
#[derive(Clone, Copy, PartialEq, Eq, Structural)]
pub struct Rgba {
    pub r: u8,
    pub g: u8,
    pub b: u8,
    pub a: u8,
}

/// A highlighted piece of a line: its foreground and background, and its
/// text.
pub struct Span {
    pub fg: Rgba,
    pub bg: Rgba,
    pub text: String,
}

/// The pieces' texts, joined.
pub open spec fn span_texts(spans: Seq<Span>) -> Seq<char>
    decreases spans.len(),
{
    if spans.len() == 0 {
        Seq::empty()
    } else {
        span_texts(spans.drop_last()) + spans.last().text@
    }
}

/// Every piece holds some text.
pub open spec fn nonempty_texts(spans: Seq<Span>) -> bool {
    forall|k: int| 0 <= k < spans.len() ==> (#[trigger] spans[k]).text@.len() > 0
}

/// One channel of a translucent foreground blended over the background.
pub open spec fn blend_channel(f: u8, b: u8, a: u8) -> nat {
    ((f as nat) * (a as nat) + (b as nat) * (255 - a) as nat) / 255
}

/// The foreground as the terminal gets it: as it is when opaque, blended
/// over the background otherwise.
pub open spec fn shown_fg(fg: Rgba, bg: Rgba) -> (nat, nat, nat) {
    if fg.a == 255 {
        (fg.r as nat, fg.g as nat, fg.b as nat)
    } else {
        (blend_channel(fg.r, bg.r, fg.a), blend_channel(fg.g, bg.g, fg.a), blend_channel(fg.b, bg.b, fg.a))
    }
}

/// A piece in 24-bit color: `ESC [ 38 ; 2 ; r ; g ; b m`, then its text.
pub open spec fn span_escaped(sp: Span) -> Seq<char> {
    let c = shown_fg(sp.fg, sp.bg);
    "\x1b[38;2;"@ + decimal(c.0) + ";"@ + decimal(c.1) + ";"@ + decimal(c.2) + "m"@ + sp.text@
}

/// A highlighted piece as plain values: foreground, background, text.
pub open spec fn span_view(sp: Span) -> (Rgba, Rgba, Seq<char>) {
    (sp.fg, sp.bg, sp.text@)
}

/// The pieces as plain values.
pub open spec fn spans_view(v: Seq<Span>) -> Seq<(Rgba, Rgba, Seq<char>)> {
    Seq::new(v.len(), |i: int| span_view(v[i]))
}

/// The pieces of an optional highlighting, as plain values.
pub open spec fn opt_spans_view(r: Option<Vec<Span>>) -> Option<Seq<(Rgba, Rgba, Seq<char>)>> {
    match r {
        Some(v) => Some(spans_view(v@)),
        None => None,
    }
}

/// A piece in 24-bit color: its (blended) foreground's SGR sequence, then
/// its text.
pub open spec fn piece_escaped(p: (Rgba, Rgba, Seq<char>)) -> Seq<char> {
    let c = shown_fg(p.0, p.1);
    "\x1b[38;2;"@ + decimal(c.0) + ";"@ + decimal(c.1) + ";"@ + decimal(c.2) + "m"@ + p.2
}

/// Pieces in 24-bit color, one after another.
pub open spec fn pieces_escaped(ps: Seq<(Rgba, Rgba, Seq<char>)>) -> Seq<char>
    decreases ps.len(),
{
    if ps.len() == 0 {
        Seq::empty()
    } else {
        pieces_escaped(ps.drop_last()) + piece_escaped(ps.last())
    }
}

proof fn lemma_spans_as_pieces(v: Seq<Span>)
    ensures
        spans_escaped(v) == pieces_escaped(spans_view(v)),
    decreases v.len(),
{
    if v.len() > 0 {
        lemma_spans_as_pieces(v.drop_last());
        assert(spans_view(v).drop_last() =~= spans_view(v.drop_last()));
    }
}

/// Every piece in 24-bit color, one after another.
pub open spec fn spans_escaped(spans: Seq<Span>) -> Seq<char>
    decreases spans.len(),
{
    if spans.len() == 0 {
        Seq::empty()
    } else {
        spans_escaped(spans.drop_last()) + span_escaped(spans.last())
    }
}

/// `SyntaxSet::load_defaults_newlines`: syntect's bundled grammars. Nothing
/// is claimed of them.
#[verifier::external_body]
fn load_syntaxes() -> SyntaxSet {
    SyntaxSet::load_defaults_newlines()
}

/// The names of syntect's bundled themes, as `ThemeSet::load_defaults`
/// documents the keys of its map.
pub open spec fn bundled_theme_names() -> Set<Seq<char>> {
    set![
        "base16-ocean.dark"@,
        "base16-eighties.dark"@,
        "base16-mocha.dark"@,
        "base16-ocean.light"@,
        "InspiredGitHub"@,
        "Solarized (dark)"@,
        "Solarized (light)"@,
    ]
}

/// `ThemeSet::load_defaults`: syntect's bundled themes. Claimed: the
/// theme names are the seven its documentation lists as the map's keys.
/// Nothing is claimed of the themes themselves.
#[verifier::external_body]
fn load_themes() -> (r: ThemeSet)
    ensures
        theme_set_names(r) == bundled_theme_names(),
{
    ThemeSet::load_defaults()
}

/// The names `SyntaxSet::find_syntax_by_name` finds a grammar by.
pub uninterp spec fn grammar_names(ss: SyntaxSet) -> Set<Seq<char>>;

/// The name of the grammar `SyntaxSet::find_syntax_by_token` finds for a
/// token; none when it finds none.
pub uninterp spec fn grammar_by_token(ss: SyntaxSet, token: Seq<char>) -> Option<Seq<char>>;

/// An optional string, by its characters.
pub open spec fn opt_str_view(s: Option<String>) -> Option<Seq<char>> {
    match s {
        Some(x) => Some(x@),
        None => None,
    }
}

/// `SyntaxSet::find_syntax_by_token` (a grammar by file extension or name),
/// the found grammar's `name` read. The result is named `grammar_by_token`;
/// as the grammar comes from the set, `find_syntax_by_name` finds one by
/// that name.
#[verifier::external_body]
fn find_grammar(ss: &SyntaxSet, token: &str) -> (r: Option<String>)
    ensures
        opt_str_view(r) == grammar_by_token(*ss, token@),
        r matches Some(n) ==> grammar_names(*ss).contains(n@),
{
    ss.find_syntax_by_token(token).map(|s| s.name.clone())
}

/// `SyntaxSet::find_syntax_by_name`: whether a grammar of that exact name
/// is in the set.
#[verifier::external_body]
fn has_grammar(ss: &SyntaxSet, name: &str) -> (r: bool)
    ensures
        r == grammar_names(*ss).contains(name@),
{
    ss.find_syntax_by_name(name).is_some()
}

/// The names under which a theme set holds its themes: the keys of its
/// `themes` map.
pub uninterp spec fn theme_set_names(ts: ThemeSet) -> Set<Seq<char>>;

/// `BTreeMap::get` on the theme set's `themes`: a theme by name. Claimed:
/// one comes back exactly when the name is a key of the map. Nothing is
/// claimed of the theme itself.
#[verifier::external_body]
fn theme_named<'a>(ts: &'a ThemeSet, name: &str) -> (r: Option<&'a Theme>)
    ensures
        r.is_some() == theme_set_names(*ts).contains(name@),
{
    ts.themes.get(name)
}

/// `BTreeMap::keys` on the theme set's themes, cloned: every key of the
/// map, each once, in increasing order, and nothing else.
#[verifier::external_body]
fn theme_keys(ts: &ThemeSet) -> (r: Vec<String>)
    ensures
        forall|i: int, j: int| 0 <= i < j < r@.len() ==> crate::render::output::seq_lt(r@[i]@, r@[j]@),
        forall|i: int| 0 <= i < r@.len() ==> theme_set_names(*ts).contains(#[trigger] r@[i]@),
        forall|n: Seq<char>| #[trigger] theme_set_names(*ts).contains(n) ==> exists|i: int| 0 <= i < r@.len() && r@[i]@ == n,
{
    ts.themes.keys().cloned().collect()
}

/// The `settings.background` and `settings.foreground` of the theme a
/// theme set holds under a name, as plain colors.
pub uninterp spec fn theme_colors_of(ts: ThemeSet, name: Seq<char>) -> (Option<Rgba>, Option<Rgba>);

/// The `settings.background` and `settings.foreground` of `ts.themes[name]`,
/// as plain colors; named `theme_colors_of`.
#[verifier::external_body]
fn theme_colors(ts: &ThemeSet, name: &str) -> (r: (Option<Rgba>, Option<Rgba>))
    requires
        theme_set_names(*ts).contains(name@),
    ensures
        r == theme_colors_of(*ts, name@),
{
    let conv = |c: Color| Rgba { r: c.r, g: c.g, b: c.b, a: c.a };
    let theme = &ts.themes[name];
    (theme.settings.background.map(conv), theme.settings.foreground.map(conv))
}

/// What `HighlightLines::highlight_line` returns (the error dropped, each
/// style reduced to its colors) for `line`, from a highlighter made by
/// `HighlightLines::new` for the grammar `find_syntax_by_name(grammar)` of
/// `ss` and the theme `ts.themes[theme]`, after it was given the lines
/// `prior`.
pub uninterp spec fn highlighted(
    ss: SyntaxSet,
    ts: ThemeSet,
    grammar: Seq<char>,
    theme: Seq<char>,
    prior: Seq<Seq<char>>,
    line: Seq<char>,
) -> Option<Seq<(Rgba, Rgba, Seq<char>)>>;

/// A syntect highlighter, with what it was made from and the lines it was
/// given so far.
struct Highlighter<'a> {
    lines: HighlightLines<'a>,
    ss: Ghost<SyntaxSet>,
    ts: Ghost<ThemeSet>,
    grammar: Ghost<Seq<char>>,
    theme: Ghost<Seq<char>>,
    fed: Ghost<Seq<Seq<char>>>,
}

/// `HighlightLines::new` for the grammar `find_syntax_by_name(grammar)` and
/// the theme `ts.themes[theme]`, both of which are there. Claimed: the
/// highlighter records them and has been given no line.
#[verifier::external_body]
fn highlighter<'a>(ss: &'a SyntaxSet, ts: &'a ThemeSet, grammar: &str, theme: &str) -> (h: Highlighter<'a>)
    requires
        grammar_names(*ss).contains(grammar@),
        theme_set_names(*ts).contains(theme@),
    ensures
        h.ss@ == *ss,
        h.ts@ == *ts,
        h.grammar@ == grammar@,
        h.theme@ == theme@,
        h.fed@ == Seq::<Seq<char>>::empty(),
{
    let syntax = ss.find_syntax_by_name(grammar).unwrap();
    Highlighter {
        lines: HighlightLines::new(syntax, &ts.themes[theme]),
        ss: Ghost(*ss),
        ts: Ghost(*ts),
        grammar: Ghost(grammar@),
        theme: Ghost(theme@),
        fed: Ghost(Seq::empty()),
    }
}

/// `HighlightLines::highlight_line`, with the error dropped and each style
/// reduced to its colors. The result is named `highlighted`; the line is
/// recorded as given. Nothing is claimed of how the pieces relate to the
/// line: `render` checks that itself.
#[verifier::external_body]
fn highlight_line(h: &mut Highlighter, line: &str, ss: &SyntaxSet) -> (r: Option<Vec<Span>>)
    requires
        *ss == old(h).ss@,
    ensures
        final(h).ss == old(h).ss,
        final(h).ts == old(h).ts,
        final(h).grammar == old(h).grammar,
        final(h).theme == old(h).theme,
        final(h).fed@ == old(h).fed@.push(line@),
        opt_spans_view(r) == highlighted(old(h).ss@, old(h).ts@, old(h).grammar@, old(h).theme@, old(h).fed@, line@),
{
    let conv = |c: Color| Rgba { r: c.r, g: c.g, b: c.b, a: c.a };
    let r = h.lines.highlight_line(line, ss).ok().map(
        |v| v.into_iter().map(|(st, t)| Span { fg: conv(st.foreground), bg: conv(st.background), text: t.to_string() }).collect(),
    );
    h.fed = Ghost(h.fed@.push(line@));
    r
}

/// `syntect::util::as_24_bit_terminal_escaped` without backgrounds: each
/// piece's (blended) foreground as a 24-bit SGR sequence, then its text.
#[verifier::external_body]
fn escape_spans(spans: &Vec<Span>) -> (r: String)
    ensures
        r@ == spans_escaped(spans@),
{
    let conv = |c: Rgba| Color { r: c.r, g: c.g, b: c.b, a: c.a };
    let styled: Vec<(Style, &str)> = spans.iter().map(
        |s| (Style { foreground: conv(s.fg), background: conv(s.bg), font_style: FontStyle::empty() }, s.text.as_str()),
    ).collect();
    as_24_bit_terminal_escaped(&styled[..], false)
}

/// syntect's bundled grammars and themes, loaded once.
pub struct Highlighting {
    syntaxes: SyntaxSet,
    themes: ThemeSet,
}

impl Highlighting {
    /// The names of the bundled themes.
    pub closed spec fn theme_set(&self) -> Set<Seq<char>> {
        theme_set_names(self.themes)
    }

    /// The grammars.
    pub closed spec fn syntax_value(&self) -> SyntaxSet {
        self.syntaxes
    }

    /// The themes.
    pub closed spec fn theme_value(&self) -> ThemeSet {
        self.themes
    }

    /// syntect's bundled grammars and themes; the themes are the seven
    /// `bundled_theme_names` lists.
    pub fn load() -> (r: Highlighting)
        ensures
            r.theme_set() == bundled_theme_names(),
    {
        Highlighting { syntaxes: load_syntaxes(), themes: load_themes() }
    }

    /// Whether a theme of that name is bundled.
    pub fn has_theme(&self, name: &str) -> (r: bool)
        ensures
            r == self.theme_set().contains(name@),
    {
        theme_named(&self.themes, name).is_some()
    }

    /// The bundled themes' names, sorted, each once: exactly the names that
    /// `has_theme` accepts.
    pub fn theme_names(&self) -> (r: Vec<String>)
        ensures
            forall|i: int, j: int| 0 <= i < j < r@.len() ==> crate::render::output::seq_lt(r@[i]@, r@[j]@),
            forall|n: Seq<char>| self.theme_set().contains(n) <==> exists|i: int| 0 <= i < r@.len() && #[trigger] r@[i]@ == n,
    {
        let r = theme_keys(&self.themes);
        assert forall|n: Seq<char>| self.theme_set().contains(n) <==> exists|i: int| 0 <= i < r@.len() && #[trigger] r@[i]@ == n by {
            if exists|i: int| 0 <= i < r@.len() && #[trigger] r@[i]@ == n {
                let i = choose|i: int| 0 <= i < r@.len() && #[trigger] r@[i]@ == n;
                assert(theme_set_names(self.themes).contains(r@[i]@));
            }
            if theme_set_names(self.themes).contains(n) {
            }
        }
        r
    }
}

/// Whether two colors agree on red, green and blue.
pub open spec fn same_rgb(x: Rgba, y: Rgba) -> bool {
    x.r == y.r && x.g == y.g && x.b == y.b
}

/// The default foreground when a theme names none.
pub open spec fn light_grey_spec() -> Rgba {
    Rgba { r: 220, g: 220, b: 220, a: 255 }
}

fn light_grey() -> (c: Rgba)
    ensures
        c == light_grey_spec(),
{
    Rgba { r: 220, g: 220, b: 220, a: 255 }
}

/// The colors code is drawn against: the theme's background, and its
/// foreground or light grey when it names none; no background and light
/// grey without a theme.
pub open spec fn code_palette(ts: ThemeSet, theme: Option<Seq<char>>) -> (Option<Rgba>, Rgba) {
    match theme {
        Some(t) => (theme_colors_of(ts, t).0, match theme_colors_of(ts, t).1 {
            Some(c) => c,
            None => light_grey_spec(),
        }),
        None => (None, light_grey_spec()),
    }
}

/// A theme's background, and its foreground or light grey when it names
/// none.
fn theme_palette(ts: &ThemeSet, name: &str) -> (r: (Option<Rgba>, Rgba))
    requires
        theme_set_names(*ts).contains(name@),
    ensures
        r == code_palette(*ts, Some(name@)),
{
    let (bg, fg) = theme_colors(ts, name);
    let default_fg = match fg {
        Some(c) => c,
        None => light_grey(),
    };
    (bg, default_fg)
}

/// `sanitized_span` on plain pieces.
pub open spec fn sanitized_piece(p: (Rgba, Rgba, Seq<char>), bg: Option<Rgba>, default_fg: Rgba) -> (Rgba, Rgba, Seq<char>) {
    match bg {
        Some(b) => if same_rgb(p.0, b) {
            (default_fg, p.1, p.2)
        } else {
            p
        },
        None => p,
    }
}

/// A piece whose foreground is exactly the theme background gets the
/// default foreground instead; every other piece is kept.
pub open spec fn sanitized_span(sp: Span, bg: Option<Rgba>, default_fg: Rgba) -> Span {
    match bg {
        Some(b) => if same_rgb(sp.fg, b) {
            Span { fg: default_fg, bg: sp.bg, text: sp.text }
        } else {
            sp
        },
        None => sp,
    }
}

/// Some bundled themes (the base16 dark ones) give tokens such as `./path`
/// a foreground equal to the theme background, which makes them invisible.
/// Those pieces get the default foreground; every other piece is kept.
pub fn sanitize_invisible_fg(spans: Vec<Span>, bg: Option<Rgba>, default_fg: Rgba) -> (r: Vec<Span>)
    ensures
        r@.len() == spans@.len(),
        forall|i: int| 0 <= i < r@.len() ==> #[trigger] r@[i] == sanitized_span(spans@[i], bg, default_fg),
{
    let ghost orig = spans@;
    let mut rest = spans;
    let mut rev: Vec<Span> = Vec::new();
    while rest.len() > 0
        invariant
            rest@.len() <= orig.len(),
            rest@ == orig.subrange(0, rest@.len() as int),
            rev@.len() == orig.len() - rest@.len(),
            forall|k: int| 0 <= k < rev@.len() ==> #[trigger] rev@[k] == sanitized_span(orig[orig.len() - 1 - k], bg, default_fg),
        decreases rest@.len(),
    {
        let sp = rest.pop().unwrap();
        let fixed = match bg {
            Some(b) => if sp.fg.r == b.r && sp.fg.g == b.g && sp.fg.b == b.b {
                Span { fg: default_fg, bg: sp.bg, text: sp.text }
            } else {
                sp
            },
            None => sp,
        };
        rev.push(fixed);
    }
    let mut r: Vec<Span> = Vec::new();
    while rev.len() > 0
        invariant
            rev@.len() + r@.len() == orig.len(),
            forall|k: int| 0 <= k < rev@.len() ==> #[trigger] rev@[k] == sanitized_span(orig[orig.len() - 1 - k], bg, default_fg),
            forall|k: int| 0 <= k < r@.len() ==> #[trigger] r@[k] == sanitized_span(orig[k], bg, default_fg),
        decreases rev@.len(),
    {
        let sp = rev.pop().unwrap();
        r.push(sp);
    }
    r
}

/// A line's escaped form as shown: trailing newlines dropped, and escapes
/// stripped when color is off.
pub open spec fn shown(escaped: Seq<char>, color: bool) -> Seq<char> {
    let t = trim_newlines(escaped);
    if color {
        t
    } else {
        stripped(t)
    }
}

/// `s` without its trailing newlines.
pub open spec fn trim_newlines(s: Seq<char>) -> Seq<char>
    decreases s.len(),
{
    if s.len() > 0 && s.last() == '\n' {
        trim_newlines(s.drop_last())
    } else {
        s
    }
}

/// `d` is how one source line is shown: some pieces whose texts join to the
/// line, their colors escaped (or stripped), without the newline.
pub open spec fn shows_line(d: Seq<char>, line: Seq<char>, color: bool) -> bool {
    exists|spans: Seq<Span>|
        span_texts(spans) == line && nonempty_texts(spans) && d == #[trigger] shown(spans_escaped(spans), color)
}

/// Lines emitted one after another through a sink of type `S`.
pub open spec fn sink_lines<S: LineSink>(ds: Seq<Seq<char>>, ctx: RenderCtx, raw: bool) -> Seq<char>
    decreases ds.len(),
{
    if ds.len() == 0 {
        Seq::empty()
    } else {
        sink_lines::<S>(ds.drop_last(), ctx, raw) + S::line_text(ds.last(), ctx, raw)
    }
}

/// The shape of what `render` emits for `source`: one raw line per source
/// line, each showing that line.
pub open spec fn code_shape<S: LineSink>(before: Seq<char>, after: Seq<char>, source: Seq<char>, ctx: RenderCtx) -> bool {
    exists|ds: Seq<Seq<char>>|
        {
            &&& ds.len() == lwe_from(source, 0).len()
            &&& forall|i: int| 0 <= i < ds.len() ==> shows_line(#[trigger] ds[i], lwe_from(source, 0)[i], ctx.use_color)
            &&& after == before + sink_lines::<S>(ds, ctx, true)
        }
}

/// The grammar code in `lang` is highlighted with: the one syntect finds for
/// `lang`, else for `python`, else Plain Text; none when not even that is
/// there.
pub open spec fn grammar_for(ss: SyntaxSet, lang: Seq<char>) -> Option<Seq<char>> {
    match grammar_by_token(ss, lang) {
        Some(g) => Some(g),
        None => match grammar_by_token(ss, "python"@) {
            Some(g) => Some(g),
            None => if grammar_names(ss).contains("Plain Text"@) {
                Some("Plain Text"@)
            } else {
                None
            },
        },
    }
}

/// The theme code is highlighted with: the one asked for when there is one
/// of that name, else `base16-ocean.dark`; none when neither is there.
pub open spec fn theme_for(ts: ThemeSet, name: Seq<char>) -> Option<Seq<char>> {
    if theme_set_names(ts).contains(name) {
        Some(name)
    } else if theme_set_names(ts).contains(default_code_theme()) {
        Some(default_code_theme())
    } else {
        None
    }
}

/// The theme used when the one asked for is not there.
pub open spec fn default_code_theme() -> Seq<char> {
    "base16-ocean.dark"@
}

pub open spec fn black_spec() -> Rgba {
    Rgba { r: 0, g: 0, b: 0, a: 255 }
}

pub open spec fn white_spec() -> Rgba {
    Rgba { r: 255, g: 255, b: 255, a: 255 }
}

/// A line that is not highlighted: one black-on-white piece.
pub open spec fn fallback_pieces(line: Seq<char>) -> Seq<(Rgba, Rgba, Seq<char>)> {
    seq![(black_spec(), white_spec(), line)]
}

/// The pieces' texts, joined.
pub open spec fn pieces_text(ps: Seq<(Rgba, Rgba, Seq<char>)>) -> Seq<char>
    decreases ps.len(),
{
    if ps.len() == 0 {
        Seq::empty()
    } else {
        pieces_text(ps.drop_last()) + ps.last().2
    }
}

/// Whether pieces split a line: none is empty, and their texts joined give
/// the line back.
pub open spec fn splits(ps: Seq<(Rgba, Rgba, Seq<char>)>, line: Seq<char>) -> bool {
    &&& pieces_text(ps) == line
    &&& forall|k: int| 0 <= k < ps.len() ==> (#[trigger] ps[k]).2.len() > 0
}

proof fn lemma_splits_spans(v: Seq<Span>, line: Seq<char>)
    ensures
        splits(spans_view(v), line) == (span_texts(v) == line && nonempty_texts(v)),
{
    lemma_span_pieces_text(v);
    assert(nonempty_texts(v) == (forall|k: int| 0 <= k < spans_view(v).len() ==> (#[trigger] spans_view(v)[k]).2.len() > 0)) by {
        if nonempty_texts(v) {
            assert forall|k: int| 0 <= k < spans_view(v).len() implies (#[trigger] spans_view(v)[k]).2.len() > 0 by {
                assert(spans_view(v)[k].2 == v[k].text@);
            }
        }
        if forall|k: int| 0 <= k < spans_view(v).len() ==> (#[trigger] spans_view(v)[k]).2.len() > 0 {
            assert forall|k: int| 0 <= k < v.len() implies (#[trigger] v[k]).text@.len() > 0 by {
                assert(spans_view(v)[k].2 == v[k].text@);
            }
        }
    }
}

proof fn lemma_span_pieces_text(v: Seq<Span>)
    ensures
        span_texts(v) == pieces_text(spans_view(v)),
    decreases v.len(),
{
    if v.len() > 0 {
        lemma_span_pieces_text(v.drop_last());
        assert(spans_view(v).drop_last() =~= spans_view(v.drop_last()));
    }
}

/// Whether the pieces split the line: no piece is empty and their texts
/// joined give the line back.
fn splits_line(spans: &Vec<Span>, line: &str) -> (r: bool)
    ensures
        r == (span_texts(spans@) == line@ && nonempty_texts(spans@)),
{
    let mut joined = String::new();
    let mut ok = true;
    let mut k: usize = 0;
    while k < spans.len()
        invariant
            k <= spans@.len(),
            joined@ == span_texts(spans@.take(k as int)),
            ok == nonempty_texts(spans@.take(k as int)),
        decreases spans@.len() - k,
    {
        let t = spans[k].text.as_str();
        proof {
            assert(spans@.take(k + 1).drop_last() =~= spans@.take(k as int));
            assert(spans@.take(k + 1).last() == spans@[k as int]);
        }
        let empty = t.is_empty();
        assert(nonempty_texts(spans@.take(k + 1)) == (nonempty_texts(spans@.take(k as int)) && !empty)) by {
            if nonempty_texts(spans@.take(k as int)) && !empty {
                assert forall|j: int| 0 <= j < spans@.take(k + 1).len() implies (#[trigger] spans@.take(k + 1)[j]).text@.len() > 0 by {
                    if j < k {
                        assert(spans@.take(k + 1)[j] == spans@.take(k as int)[j]);
                    }
                }
            }
            if nonempty_texts(spans@.take(k + 1)) {
                assert(spans@.take(k + 1)[k as int].text@.len() > 0);
                assert forall|j: int| 0 <= j < spans@.take(k as int).len() implies (#[trigger] spans@.take(k as int)[j]).text@.len() > 0 by {
                    assert(spans@.take(k + 1)[j] == spans@.take(k as int)[j]);
                }
            }
        }
        if empty {
            ok = false;
        }
        joined.append(t);
        k += 1;
    }
    proof {
        assert(spans@.take(k as int) =~= spans@);
    }
    ok && crate::strs::str_is(joined.as_str(), line)
}

/// The pieces of a line: syntect's for the grammar and theme, after the
/// lines before it, when they split the line; one plain piece when there is
/// no grammar or theme, syntect fails on the line, or its pieces do not
/// split the line.
pub open spec fn line_pieces(
    ss: SyntaxSet,
    ts: ThemeSet,
    grammar: Option<Seq<char>>,
    theme: Option<Seq<char>>,
    prior: Seq<Seq<char>>,
    line: Seq<char>,
) -> Seq<(Rgba, Rgba, Seq<char>)> {
    match (grammar, theme) {
        (Some(g), Some(t)) => match highlighted(ss, ts, g, t, prior, line) {
            Some(p) => if splits(p, line) {
                p
            } else {
                fallback_pieces(line)
            },
            None => fallback_pieces(line),
        },
        _ => fallback_pieces(line),
    }
}

/// How a source line is shown: its pieces, each invisible foreground
/// replaced, escaped, the newline dropped, and the escapes stripped when
/// color is off.
pub open spec fn code_line(
    ss: SyntaxSet,
    ts: ThemeSet,
    grammar: Option<Seq<char>>,
    theme: Option<Seq<char>>,
    prior: Seq<Seq<char>>,
    line: Seq<char>,
    color: bool,
) -> Seq<char> {
    let pal = code_palette(ts, theme);
    shown(
        pieces_escaped(
            line_pieces(ss, ts, grammar, theme, prior, line).map_values(
                |p: (Rgba, Rgba, Seq<char>)| sanitized_piece(p, pal.0, pal.1),
            ),
        ),
        color,
    )
}

/// How the source lines of code in `lang` are shown under the theme named
/// `theme`.
pub open spec fn code_lines(
    ss: SyntaxSet,
    ts: ThemeSet,
    lang: Seq<char>,
    theme: Seq<char>,
    lines: Seq<Seq<char>>,
    color: bool,
) -> Seq<Seq<char>> {
    Seq::new(
        lines.len(),
        |i: int| code_line(ss, ts, grammar_for(ss, lang), theme_for(ts, theme), lines.take(i), lines[i], color),
    )
}

/// What `render` emits for `source` in `lang`: one raw line per source line,
/// each showing that line, highlighted with the grammar for `lang` and the
/// context's theme.
pub open spec fn code_emitted<S: LineSink>(
    before: Seq<char>,
    after: Seq<char>,
    source: Seq<char>,
    lang: Seq<char>,
    hl: Highlighting,
    ctx: RenderCtx,
) -> bool {
    &&& code_shape::<S>(before, after, source, ctx)
    &&& after == before + sink_lines::<S>(
        code_lines(hl.syntax_value(), hl.theme_value(), lang, ctx.code_theme@, lwe_from(source, 0), ctx.use_color),
        ctx,
        true,
    )
}

fn trim_newlines_exec(s: String) -> (r: String)
    ensures
        r@ == trim_newlines(s@),
{
    let v = chars_of(s.as_str());
    proof {
        assert(v@.subrange(0, v@.len() as int) =~= v@);
    }
    let mut n = v.len();
    while n > 0 && v[n - 1] == '\n'
        invariant
            n <= v@.len(),
            trim_newlines(v@) == trim_newlines(v@.subrange(0, n as int)),
        decreases n,
    {
        proof {
            assert(v@.subrange(0, n as int).drop_last() =~= v@.subrange(0, n - 1));
        }
        n -= 1;
    }
    proof {
        assert(v@.subrange(0, v@.len() as int) =~= v@);
    }
    string_of(vstd::slice::slice_subrange(v.as_slice(), 0, n))
}

fn fallback_spans(line: &str) -> (r: Vec<Span>)
    requires
        line@.len() > 0,
    ensures
        span_texts(r@) == line@,
        nonempty_texts(r@),
        spans_view(r@) == fallback_pieces(line@),
{
    let black = Rgba { r: 0, g: 0, b: 0, a: 255 };
    let white = Rgba { r: 255, g: 255, b: 255, a: 255 };
    let text = String::from_str(line);
    let mut v: Vec<Span> = Vec::new();
    v.push(Span { fg: black, bg: white, text });
    proof {
        assert(v@.drop_last() =~= Seq::<Span>::empty());
        assert(span_texts(v@) == span_texts(v@.drop_last()) + v@.last().text@);
        assert(span_texts(Seq::<Span>::empty()) == Seq::<char>::empty());
        assert(v@.last().text@ == line@);
        assert(spans_view(v@) =~= fallback_pieces(line@));
    }
    v
}

proof fn lemma_sanitized_same_texts(a: Seq<Span>, b: Seq<Span>, bg: Option<Rgba>, default_fg: Rgba)
    requires
        a.len() == b.len(),
        forall|i: int| 0 <= i < b.len() ==> #[trigger] b[i] == sanitized_span(a[i], bg, default_fg),
    ensures
        span_texts(b) == span_texts(a),
    decreases a.len(),
{
    if a.len() > 0 {
        lemma_sanitized_same_texts(a.drop_last(), b.drop_last(), bg, default_fg);
        assert(b.last() == sanitized_span(a.last(), bg, default_fg));
    }
}

/// Highlight `source` as `lang` (falling back to Python, then plain text)
/// with the context's theme (falling back to `base16-ocean.dark`), and emit
/// one raw line per source line.
pub fn render<S: LineSink>(source: &str, lang: &str, ctx: &RenderCtx, hl: &Highlighting, sink: &mut S)
    ensures
        code_emitted::<S>(old(sink).output(), final(sink).output(), source@, lang@, *hl, *ctx),
{
    let ss = &hl.syntaxes;
    let ts = &hl.themes;
    proof {
        reveal_strlit("Plain Text");
    }
    let grammar: Option<String> = match find_grammar(ss, lang) {
        Some(g) => Some(g),
        None => match find_grammar(ss, "python") {
            Some(g) => Some(g),
            None => if has_grammar(ss, "Plain Text") {
                Some(String::from_str("Plain Text"))
            } else {
                None
            },
        },
    };
    let theme: Option<String> = if theme_named(ts, ctx.code_theme.as_str()).is_some() {
        Some(String::from_str(ctx.code_theme.as_str()))
    } else if theme_named(ts, "base16-ocean.dark").is_some() {
        Some(String::from_str("base16-ocean.dark"))
    } else {
        None
    };
    let ghost g = grammar_for(*ss, lang@);
    let ghost t = theme_for(*ts, ctx.code_theme@);
    assert(opt_str_view(grammar) == g);
    assert(opt_str_view(theme) == t);
    let pieces = lines_with_endings(source);
    let ghost lines = lwe_from(source@, 0);
    let ghost start = sink.output();
    let ghost mut ds: Seq<Seq<char>> = Seq::empty();
    let (bg, default_fg) = match &theme {
        Some(tn) => theme_palette(ts, tn.as_str()),
        None => (None, light_grey()),
    };
    assert((bg, default_fg) == code_palette(*ts, t));
    let mut h: Option<Highlighter> = match (&grammar, &theme) {
        (Some(gn), Some(tn)) => Some(highlighter(ss, ts, gn.as_str(), tn.as_str())),
        _ => None,
    };
    proof {
        assert(lines.take(0) =~= Seq::<Seq<char>>::empty());
    }
    let mut n: usize = 0;
    while n < pieces.len()
        invariant
            n <= pieces@.len(),
            lines == lwe_from(source@, 0),
            texts(pieces@) == lines,
            ds.len() == n,
            forall|i: int| 0 <= i < n ==> shows_line(#[trigger] ds[i], lines[i], ctx.use_color),
            forall|i: int|
                0 <= i < n ==> #[trigger] ds[i] == code_line(*ss, *ts, g, t, lines.take(i), lines[i], ctx.use_color),
            sink.output() == start + sink_lines::<S>(ds, *ctx, true),
            (bg, default_fg) == code_palette(*ts, t),
            h is Some <==> (g is Some && t is Some),
            h matches Some(hh) ==> {
                &&& hh.ss@ == *ss
                &&& hh.ts@ == *ts
                &&& Some(hh.grammar@) == g
                &&& Some(hh.theme@) == t
                &&& hh.fed@ == lines.take(n as int)
            },
            ss == &hl.syntaxes,
            ts == &hl.themes,
        decreases pieces@.len() - n,
    {
        let line = pieces[n].as_str();
        proof {
            assert(texts(pieces@)[n as int] == pieces@[n as int]@);
            crate::render::text::lemma_lwe_pieces(source@, 0);
            assert(line@.len() > 0);
            assert(line@ == lines[n as int]);
            assert(lines.take(n + 1) =~= lines.take(n as int).push(line@));
        }
        let ghost want = line_pieces(*ss, *ts, g, t, lines.take(n as int), line@);
        let spans = if h.is_some() {
            let mut hh = h.unwrap();
            let r = highlight_line(&mut hh, line, ss);
            h = Some(hh);
            match r {
                Some(v) => if splits_line(&v, line) {
                    proof {
                        lemma_splits_spans(v@, line@);
                    }
                    v
                } else {
                    proof {
                        lemma_splits_spans(v@, line@);
                    }
                    fallback_spans(line)
                },
                None => fallback_spans(line),
            }
        } else {
            fallback_spans(line)
        };
        assert(spans_view(spans@) == want);
        let ghost raw_spans = spans@;
        let safe = sanitize_invisible_fg(spans, bg, default_fg);
        proof {
            lemma_sanitized_same_texts(raw_spans, safe@, bg, default_fg);
            assert(nonempty_texts(safe@)) by {
                assert forall|k: int| 0 <= k < safe@.len() implies (#[trigger] safe@[k]).text@.len() > 0 by {
                    assert(safe@[k] == sanitized_span(raw_spans[k], bg, default_fg));
                }
            }
            assert(spans_view(safe@) =~= want.map_values(
                |p: (Rgba, Rgba, Seq<char>)| sanitized_piece(p, bg, default_fg),
            )) by {
                assert forall|k: int| 0 <= k < safe@.len() implies #[trigger] spans_view(safe@)[k] == sanitized_piece(
                    want[k],
                    bg,
                    default_fg,
                ) by {
                    assert(safe@[k] == sanitized_span(raw_spans[k], bg, default_fg));
                    assert(want[k] == spans_view(raw_spans)[k]);
                }
            }
            lemma_spans_as_pieces(safe@);
        }
        let escaped = escape_spans(&safe);
        let trimmed = trim_newlines_exec(escaped);
        let to_render = if ctx.use_color {
            trimmed
        } else {
            strip_ansi_pub(trimmed.as_str())
        };
        sink.raw_line(to_render.as_str(), ctx);
        proof {
            assert(shows_line(to_render@, lines[n as int], ctx.use_color)) by {
                assert(span_texts(safe@) == lines[n as int]);
                assert(to_render@ == shown(spans_escaped(safe@), ctx.use_color));
            }
            assert(to_render@ == code_line(*ss, *ts, g, t, lines.take(n as int), lines[n as int], ctx.use_color));
            let old_ds = ds;
            ds = ds.push(to_render@);
            assert(ds.drop_last() =~= old_ds);
        }
        n += 1;
    }
    proof {
        assert(lines.len() == pieces@.len());
        assert(ds =~= code_lines(hl.syntax_value(), hl.theme_value(), lang@, ctx.code_theme@, lines, ctx.use_color));
    }
}

/// What `render` emits comes after what was there.
pub proof fn lemma_code_emitted_grows<S: LineSink>(before: Seq<char>, after: Seq<char>, source: Seq<char>, ctx: RenderCtx)
    requires
        code_shape::<S>(before, after, source, ctx),
    ensures
        before.len() <= after.len(),
        after.subrange(0, before.len() as int) == before,
{
    let ds = choose|ds: Seq<Seq<char>>|
        {
            &&& ds.len() == lwe_from(source, 0).len()
            &&& forall|i: int| 0 <= i < ds.len() ==> shows_line(#[trigger] ds[i], lwe_from(source, 0)[i], ctx.use_color)
            &&& after == before + sink_lines::<S>(ds, ctx, true)
        };
    assert(after.subrange(0, before.len() as int) =~= before);
}


/// The SGR sequence that sets a 24-bit foreground.
pub open spec fn sgr_fg(c: (nat, nat, nat)) -> Seq<char> {
    "\x1b[38;2;"@ + decimal(c.0) + ";"@ + decimal(c.1) + ";"@ + decimal(c.2) + "m"@
}

proof fn lemma_first_final_at(s: Seq<char>, from: int, k: int)
    requires
        0 <= from <= k < s.len(),
        forall|j: int| from <= j < k ==> !crate::escape::is_final(#[trigger] s[j]),
        crate::escape::is_final(s[k]),
    ensures
        crate::escape::first_final(s, from) == Some(k),
    decreases k - from,
{
    if from < k {
        lemma_first_final_at(s, from + 1, k);
    }
}

proof fn lemma_digits_not_final(d: Seq<char>)
    requires
        crate::numeric::all_digits(d),
    ensures
        forall|j: int| 0 <= j < d.len() ==> !crate::escape::is_final(#[trigger] d[j]),
{
    assert forall|j: int| 0 <= j < d.len() implies !crate::escape::is_final(#[trigger] d[j]) by {
        assert(crate::numeric::is_digit(d[j]));
    }
}

/// An SGR foreground sequence strips away entirely.
proof fn lemma_strip_sgr(c: (nat, nat, nat), x: Seq<char>)
    ensures
        stripped(sgr_fg(c) + x) == stripped(x),
{
    reveal_strlit("\x1b[38;2;");
    reveal_strlit(";");
    reveal_strlit("m");
    let d0 = decimal(c.0);
    let d1 = decimal(c.1);
    let d2 = decimal(c.2);
    crate::numeric::lemma_decimal_reads_back(c.0);
    crate::numeric::lemma_decimal_reads_back(c.1);
    crate::numeric::lemma_decimal_reads_back(c.2);
    lemma_digits_not_final(d0);
    lemma_digits_not_final(d1);
    lemma_digits_not_final(d2);
    let p = sgr_fg(c);
    let head = "\x1b[38;2;"@;
    assert(head.len() == 7);
    let k = p.len() - 1;
    assert forall|j: int| 2 <= j < k implies !crate::escape::is_final(#[trigger] p[j]) by {
        if j < 7 {
            assert(p[j] == head[j]);
        } else if j < 7 + d0.len() {
            assert(p[j] == d0[j - 7]);
        } else if j == 7 + d0.len() {
            assert(p[j] == ';');
        } else if j < 8 + d0.len() + d1.len() {
            assert(p[j] == d1[j - 8 - d0.len()]);
        } else if j == 8 + d0.len() + d1.len() {
            assert(p[j] == ';');
        } else {
            assert(p[j] == d2[j - 9 - d0.len() - d1.len()]);
        }
    }
    assert(p[k] == 'm');
    lemma_first_final_at(p, 2, k);
    crate::escape::lemma_first_final_prefix(p, x, 2);
    let s = p + x;
    assert(s[0] == '\x1b' && s[1] == '[');
    assert(crate::escape::csi_stop(s, 2) == p.len());
    crate::escape::lemma_strip_shift(p, x, 0);
    assert(p.len() + 0 == p.len());
}

proof fn lemma_escaped_front(spans: Seq<Span>)
    requires
        spans.len() > 0,
    ensures
        spans_escaped(spans) == span_escaped(spans[0]) + spans_escaped(spans.drop_first()),
        span_texts(spans) == spans[0].text@ + span_texts(spans.drop_first()),
    decreases spans.len(),
{
    if spans.len() == 1 {
        assert(spans.drop_first() =~= Seq::<Span>::empty());
        assert(spans.drop_last() =~= Seq::<Span>::empty());
    } else {
        lemma_escaped_front(spans.drop_last());
        assert(spans.drop_last().drop_first() =~= spans.drop_first().drop_last());
        assert(spans.drop_last()[0] == spans[0]);
        assert(spans.drop_first().last() == spans.last());
    }
}

/// The pieces' texts, each without escapes.
pub open spec fn texts_plain(spans: Seq<Span>) -> bool {
    forall|k: int| 0 <= k < spans.len() ==> crate::escape::no_escape(#[trigger] spans[k].text@)
}

proof fn lemma_strip_escaped(spans: Seq<Span>, z: Seq<char>)
    requires
        texts_plain(spans),
    ensures
        stripped(spans_escaped(spans) + z) == span_texts(spans) + stripped(z),
    decreases spans.len(),
{
    if spans.len() == 0 {
        assert(spans_escaped(spans) + z =~= z);
        assert(span_texts(spans) + stripped(z) =~= stripped(z));
    } else {
        lemma_escaped_front(spans);
        let sp = spans[0];
        let rest = spans.drop_first();
        assert(texts_plain(rest)) by {
            assert forall|k: int| 0 <= k < rest.len() implies crate::escape::no_escape(#[trigger] rest[k].text@) by {
                assert(rest[k] == spans[k + 1]);
            }
        }
        lemma_strip_escaped(rest, z);
        let c = shown_fg(sp.fg, sp.bg);
        assert(span_escaped(sp) == sgr_fg(c) + sp.text@);
        assert(spans_escaped(spans) + z =~= sgr_fg(c) + (sp.text@ + (spans_escaped(rest) + z)));
        lemma_strip_sgr(c, sp.text@ + (spans_escaped(rest) + z));
        assert(crate::escape::no_escape(spans[0].text@));
        crate::escape::lemma_strip_plain_prefix(sp.text@, spans_escaped(rest) + z);
        assert(span_texts(spans) + stripped(z) =~= sp.text@ + (span_texts(rest) + stripped(z)));
    }
}

proof fn lemma_texts_plain_of(spans: Seq<Span>)
    requires
        crate::escape::no_escape(span_texts(spans)),
    ensures
        texts_plain(spans),
    decreases spans.len(),
{
    if spans.len() > 0 {
        let init = spans.drop_last();
        let t = spans.last().text@;
        assert(span_texts(spans) == span_texts(init) + t);
        assert(crate::escape::no_escape(span_texts(init))) by {
            assert forall|k: int| 0 <= k < span_texts(init).len() implies span_texts(init)[k] != crate::escape::esc() by {
                assert(span_texts(spans)[k] == span_texts(init)[k]);
            }
        }
        lemma_texts_plain_of(init);
        assert forall|k: int| 0 <= k < spans.len() implies crate::escape::no_escape(#[trigger] spans[k].text@) by {
            if k < init.len() {
                assert(spans[k] == init[k]);
                assert(crate::escape::no_escape(init[k].text@));
            } else {
                assert(spans[k] == spans.last());
                assert forall|j: int| 0 <= j < t.len() implies t[j] != crate::escape::esc() by {
                    assert(span_texts(spans)[span_texts(init).len() + j] == t[j]);
                }
                assert(crate::escape::no_escape(t));
            }
        }
    }
}

/// Without color, a line with no escapes and no newline but a last one is
/// shown as it is, without that newline.
pub proof fn lemma_plain_shown(d: Seq<char>, line: Seq<char>)
    requires
        shows_line(d, line, false),
        crate::escape::no_escape(line),
        forall|j: int| 0 <= j < line.len() - 1 ==> line[j] != '\n',
    ensures
        d == crate::render::text::without_newline(line),
{
    let spans = choose|spans: Seq<Span>|
        span_texts(spans) == line && nonempty_texts(spans) && d == #[trigger] shown(spans_escaped(spans), false);
    lemma_texts_plain_of(spans);
    if spans.len() == 0 {
        assert(spans_escaped(spans) =~= Seq::<char>::empty());
        lemma_strip_escaped(spans, Seq::empty());
        assert(Seq::<char>::empty() + Seq::<char>::empty() =~= Seq::<char>::empty());
    } else {
        let init = spans.drop_last();
        let sp = spans.last();
        let t = sp.text@;
        let c = shown_fg(sp.fg, sp.bg);
        assert(t.len() > 0);
        assert(texts_plain(init)) by {
            assert forall|k: int| 0 <= k < init.len() implies crate::escape::no_escape(#[trigger] init[k].text@) by {
                assert(init[k] == spans[k]);
            }
        }
        let ei = spans_escaped(init);
        let ti = span_texts(init);
        assert(line == ti + t);
        assert(spans_escaped(spans) == ei + (sgr_fg(c) + t));
        if t.last() != '\n' {
            let e = spans_escaped(spans);
            assert(e.last() == t.last());
            assert(trim_newlines(e) == e);
            lemma_strip_escaped(init, sgr_fg(c) + t);
            lemma_strip_sgr(c, t);
            crate::escape::lemma_strip_identity(t, 0);
            assert(t.subrange(0, t.len() as int) =~= t);
            assert(line.last() == t.last());
        } else {
            let t1 = t.drop_last();
            assert forall|j: int| 0 <= j < t1.len() implies t1[j] != '\n' by {
                assert(line[ti.len() + j] == t1[j]);
            }
            let e = spans_escaped(spans);
            let e1 = ei + (sgr_fg(c) + t1);
            assert(e =~= e1.push('\n'));
            assert(e1.drop_last() =~= e1.subrange(0, e1.len() - 1));
            assert(e.drop_last() =~= e1);
            reveal_strlit("m");
            assert(e1.last() != '\n') by {
                if t1.len() > 0 {
                    assert(e1.last() == t1.last());
                } else {
                    assert(e1.last() == sgr_fg(c).last());
                    assert(sgr_fg(c).last() == 'm');
                }
            }
            assert(e1.len() > 0);
            assert(trim_newlines(e1) == e1);
            assert(e.len() > 0 && e.last() == '\n');
            assert(trim_newlines(e) == trim_newlines(e.drop_last()));
            assert(trim_newlines(e) == e1);
            assert(crate::escape::no_escape(t1));
            lemma_strip_escaped(init, sgr_fg(c) + t1);
            lemma_strip_sgr(c, t1);
            crate::escape::lemma_strip_identity(t1, 0);
            assert(t1.subrange(0, t1.len() as int) =~= t1);
            assert(line.drop_last() =~= ti + t1);
        }
    }
}

/// Without color, code whose source holds no escape sequences renders as
/// its source lines, each as it is.
pub proof fn lemma_code_plain<S: LineSink>(before: Seq<char>, after: Seq<char>, source: Seq<char>, ctx: RenderCtx)
    requires
        code_shape::<S>(before, after, source, ctx),
        !ctx.use_color,
        crate::escape::no_escape(source),
    ensures
        after == before + sink_lines::<S>(crate::escape::lines_from(source, 0), ctx, true),
{
    let pieces = lwe_from(source, 0);
    let ds = choose|ds: Seq<Seq<char>>|
        {
            &&& ds.len() == pieces.len()
            &&& forall|i: int| 0 <= i < ds.len() ==> shows_line(#[trigger] ds[i], pieces[i], ctx.use_color)
            &&& after == before + sink_lines::<S>(ds, ctx, true)
        };
    crate::render::text::lemma_lwe_pieces(source, 0);
    crate::render::text::lemma_lwe_plain(source, 0);
    crate::render::text::lemma_lines_of_pieces(source, 0);
    assert forall|i: int| 0 <= i < ds.len() implies #[trigger] ds[i] == crate::render::text::without_newline(pieces[i]) by {
        assert(shows_line(ds[i], pieces[i], false));
        assert forall|j: int| 0 <= j < pieces[i].len() - 1 implies pieces[i][j] != '\n' by {
            assert(pieces[i][j] != '\n');
        }
        lemma_plain_shown(ds[i], pieces[i]);
    }
    assert(ds =~= pieces.map_values(|p: Seq<char>| crate::render::text::without_newline(p)));
}

} // verus!
