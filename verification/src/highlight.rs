//! Code with syntax colours: code blocks, source files and shell lines.
use vstd::prelude::*;
use crate::spans::{
    all_written, lemma_written_after, printed, written, ColorValue, SpanCollector, SpanOp,
    StyleChange,
};
use crate::text::{cell_width, chars_of, display_width, str_option, text_of};
use syntect::easy::HighlightLines;
use syntect::parsing::{SyntaxReference, SyntaxSet};
use two_face::theme::EmbeddedLazyThemeSet;

verus! {

/// syntect's set of syntaxes.
#[verifier::external_type_specification]
#[verifier::external_body]
pub struct ExSyntaxSet(SyntaxSet);

/// syntect's description of one syntax.
#[verifier::external_type_specification]
#[verifier::external_body]
pub struct ExSyntaxReference(SyntaxReference);

/// syntect's theme.
#[verifier::external_type_specification]
#[verifier::external_body]
pub struct ExSyntectTheme(syntect::highlighting::Theme);

/// syntect's highlighter, which remembers the lines it has seen.
#[verifier::external_type_specification]
#[verifier::external_body]
pub struct ExHighlightLines<'a>(HighlightLines<'a>);

/// two-face's set of themes.
#[verifier::external_type_specification]
#[verifier::external_body]
pub struct ExEmbeddedLazyThemeSet(EmbeddedLazyThemeSet);

/// What `SyntaxSet::find_syntax_by_name` finds in a set: a syntax of this very name.
pub uninterp spec fn syntax_by_name(set: SyntaxSet, name: Seq<char>) -> Option<SyntaxReference>;

/// What `SyntaxSet::find_syntax_by_extension` finds in a set: a syntax for files of this
/// extension, in capitals or not.
pub uninterp spec fn syntax_by_extension(set: SyntaxSet, extension: Seq<char>) -> Option<
    SyntaxReference,
>;

/// What `EmbeddedLazyThemeSet::get` has under a name.
pub uninterp spec fn theme_named(
    themes: EmbeddedLazyThemeSet,
    name: SyntaxThemeName,
) -> syntect::highlighting::Theme;

/// What `HighlightLines::new` makes of a syntax and a theme: a highlighter that has seen
/// nothing.
pub uninterp spec fn new_lines(
    syntax: &SyntaxReference,
    theme: syntect::highlighting::Theme,
) -> HighlightLines<'_>;

/// The runs that `HighlightLines::highlight_line` finds in a line, none where it fails.
pub uninterp spec fn line_regions(
    lines: HighlightLines<'_>,
    set: SyntaxSet,
    line: Seq<char>,
) -> Seq<Piece>;

/// What `HighlightLines::highlight_line` leaves of a highlighter once it has seen a line.
pub uninterp spec fn lines_after(
    lines: HighlightLines<'_>,
    set: SyntaxSet,
    line: Seq<char>,
) -> HighlightLines<'_>;

/// The syntax that an optional reference points to.
pub open spec fn syntax_option(syntax: Option<&SyntaxReference>) -> Option<SyntaxReference> {
    match syntax {
        Some(syntax) => Some(*syntax),
        None => None,
    }
}

/// `SyntaxSet::load_defaults_newlines`: the syntaxes that syntect brings, plain text
/// among them. Which others there are is not stated.
pub assume_specification[ SyntaxSet::load_defaults_newlines ]() -> (set: SyntaxSet)
    ensures
        syntax_by_name(set, "Plain Text"@) is Some,
;

/// `SyntaxSet::find_syntax_by_name`: what it finds is named, and is not said otherwise.
pub assume_specification<'a>[ SyntaxSet::find_syntax_by_name ](
    set: &'a SyntaxSet,
    name: &str,
) -> (syntax: Option<&'a SyntaxReference>)
    ensures
        syntax_option(syntax) == syntax_by_name(*set, name@),
;

/// `SyntaxSet::find_syntax_by_extension`: what it finds is named, and is not said otherwise.
pub assume_specification<'a>[ SyntaxSet::find_syntax_by_extension ](
    set: &'a SyntaxSet,
    extension: &str,
) -> (syntax: Option<&'a SyntaxReference>)
    ensures
        syntax_option(syntax) == syntax_by_extension(*set, extension@),
;

/// `SyntaxSet::find_syntax_plain_text`: the syntax named `Plain Text`, without which it
/// panics.
pub assume_specification[ SyntaxSet::find_syntax_plain_text ](set: &SyntaxSet) -> (syntax:
    &SyntaxReference)
    requires
        syntax_by_name(*set, "Plain Text"@) is Some,
    ensures
        Some(*syntax) == syntax_by_name(*set, "Plain Text"@),
;

/// `two_face::theme::extra`: the themes that two-face brings. Which those are is not stated.
pub assume_specification[ two_face::theme::extra ]() -> (themes: EmbeddedLazyThemeSet)
;

/// `HighlightLines::new`: a highlighter that has seen nothing; it is named.
pub assume_specification<'a>[ HighlightLines::<'a>::new ](
    syntax: &SyntaxReference,
    theme: &'a syntect::highlighting::Theme,
) -> (highlighter: HighlightLines<'a>)
    ensures
        highlighter == new_lines(syntax, *theme),
;

/// A theme that code is coloured by.
#[derive(Clone, Copy, Debug, PartialEq, Eq, Structural)]
pub enum SyntaxThemeName {
    MonokaiExtended,
    MonokaiExtendedLight,
}

/// `EmbeddedLazyThemeSet::get` of two-face: the theme of a name; what is in it is named, and
/// is not said otherwise.
#[verifier::external_body]
fn embedded_theme<'a>(themes: &'a EmbeddedLazyThemeSet, name: SyntaxThemeName) -> (theme:
    &'a syntect::highlighting::Theme)
    ensures
        *theme == theme_named(*themes, name),
{
    themes.get(
        match name {
            SyntaxThemeName::MonokaiExtended => two_face::theme::EmbeddedThemeName::MonokaiExtended,
            SyntaxThemeName::MonokaiExtendedLight => {
                two_face::theme::EmbeddedThemeName::MonokaiExtendedLight
            },
        },
    )
}

/// A colour by its parts.
#[derive(Clone, Copy, Debug, PartialEq, Eq, Structural)]
pub struct Rgb {
    pub r: u8,
    pub g: u8,
    pub b: u8,
}

impl Rgb {
    pub open spec fn spec_value(self) -> ColorValue {
        ColorValue::Rgb(self.r, self.g, self.b)
    }

    /// The colour as renderers write it.
    pub fn value(self) -> (c: ColorValue)
        ensures
            c == self.spec_value(),
    {
        ColorValue::Rgb(self.r, self.g, self.b)
    }
}

/// A run of code in one colour.
#[derive(Debug)]
pub struct Region {
    pub color: Rgb,
    pub text: String,
}

/// A run of code in one colour, as mathematical values.
pub struct Piece {
    pub color: Rgb,
    pub text: Seq<char>,
}

impl View for Region {
    type V = Piece;

    open spec fn view(&self) -> Piece {
        Piece { color: self.color, text: self.text@ }
    }
}

/// Some runs of code.
pub open spec fn pieces_of(regions: Seq<Region>) -> Seq<Piece> {
    regions.map_values(|region: Region| region@)
}

/// Rows of runs of code.
pub open spec fn piece_rows(rows: Seq<Vec<Region>>) -> Seq<Seq<Piece>> {
    rows.map_values(|row: Vec<Region>| pieces_of(row@))
}

/// The text of some runs.
pub open spec fn joined(pieces: Seq<Piece>) -> Seq<char>
    decreases pieces.len(),
{
    if pieces.len() == 0 {
        Seq::empty()
    } else {
        joined(pieces.drop_last()) + pieces.last().text
    }
}

/// The syntaxes and themes, once they are loaded, and which theme is in use.
pub struct SyntaxSets {
    syntaxes: Option<SyntaxSet>,
    themes: Option<EmbeddedLazyThemeSet>,
    light: bool,
}

/// The syntax for a language: by its extension, else by its name, else plain text.
pub open spec fn chosen_syntax(
    set: SyntaxSet,
    extension: Seq<char>,
    name: Option<Seq<char>>,
) -> SyntaxReference {
    match (syntax_by_extension(set, extension), name) {
        (Some(syntax), _) => syntax,
        (None, Some(name)) => match syntax_by_name(set, name) {
            Some(syntax) => syntax,
            None => syntax_by_name(set, "Plain Text"@)->0,
        },
        (None, None) => syntax_by_name(set, "Plain Text"@)->0,
    }
}

/// The theme in use.
pub open spec fn theme_for(light: bool) -> SyntaxThemeName {
    if light {
        SyntaxThemeName::MonokaiExtendedLight
    } else {
        SyntaxThemeName::MonokaiExtended
    }
}

/// The syntax is one that can be found in the set.
pub open spec fn from_set(syntax: SyntaxReference, set: SyntaxSet) -> bool {
    ||| exists|extension: Seq<char>| #[trigger] syntax_by_extension(set, extension) == Some(syntax)
    ||| exists|name: Seq<char>| #[trigger] syntax_by_name(set, name) == Some(syntax)
}

/// A highlighter once it has seen the first `n` of some texts.
pub open spec fn having_seen(
    lines: HighlightLines<'_>,
    set: SyntaxSet,
    texts: Seq<Seq<char>>,
    n: int,
) -> HighlightLines<'_>
    decreases n,
{
    if n <= 0 {
        lines
    } else {
        lines_after(having_seen(lines, set, texts, n - 1), set, texts[n - 1])
    }
}

/// The highlighter of a syntax of the set once it has seen some texts.
pub open spec fn seasoned(
    syntax: SyntaxReference,
    theme: syntect::highlighting::Theme,
    set: SyntaxSet,
    seen: Seq<Seq<char>>,
) -> HighlightLines<'static> {
    having_seen(new_lines(&syntax, theme), set, seen, seen.len() as int)
}

/// The highlighter was made for a syntax of the set, and has seen texts with that set only.
pub open spec fn made_for(lines: HighlightLines<'_>, set: SyntaxSet) -> bool {
    exists|
        syntax: SyntaxReference,
        theme: syntect::highlighting::Theme,
        seen: Seq<Seq<char>>,
    | from_set(syntax, set) && lines == #[trigger] seasoned(syntax, theme, set, seen)
}

impl SyntaxSets {
    /// Both sets are loaded.
    pub closed spec fn warm(&self) -> bool {
        self.syntaxes is Some && self.themes is Some
    }

    /// Whether the light theme is in use.
    pub closed spec fn is_light(&self) -> bool {
        self.light
    }

    /// The syntaxes, once they are loaded.
    pub closed spec fn syntax_set(&self) -> SyntaxSet {
        self.syntaxes->0
    }

    /// The themes, once they are loaded.
    pub closed spec fn theme_set(&self) -> EmbeddedLazyThemeSet {
        self.themes->0
    }

    /// A highlighter for a language that has seen nothing.
    pub open spec fn fresh(&self, extension: Seq<char>, name: Option<Seq<char>>) -> HighlightLines<
        'static,
    > {
        new_lines(
            &chosen_syntax(self.syntax_set(), extension, name),
            theme_named(self.theme_set(), theme_for(self.is_light())),
        )
    }

    /// What is loaded has plain text in it.
    pub closed spec fn wf(&self) -> bool {
        self.syntaxes matches Some(set) ==> syntax_by_name(set, "Plain Text"@) is Some
    }

    /// Nothing loaded, the dark theme in use.
    pub fn new() -> (sets: Self)
        ensures
            sets.wf(),
            !sets.warm(),
            !sets.is_light(),
    {
        SyntaxSets { syntaxes: None, themes: None, light: false }
    }

    /// Chooses between the light and the dark theme.
    pub fn set_syntax_theme_light(&mut self, light: bool)
        requires
            old(self).wf(),
        ensures
            final(self).wf(),
            final(self).warm() == old(self).warm(),
            final(self).syntax_set() == old(self).syntax_set(),
            final(self).theme_set() == old(self).theme_set(),
            final(self).is_light() == light,
    {
        self.light = light;
    }

    /// The name of the theme in use.
    pub fn theme_name(&self) -> (name: SyntaxThemeName)
        ensures
            name == theme_for(self.is_light()),
    {
        if self.light {
            SyntaxThemeName::MonokaiExtendedLight
        } else {
            SyntaxThemeName::MonokaiExtended
        }
    }

    /// A highlighter for a language: by its extension, else by its name, else as plain
    /// text. `None` while the sets are not loaded.
    pub fn highlighter(&self, extension: &str, name: Option<&str>) -> (h: Option<LineHighlighter>)
        requires
            self.wf(),
        ensures
            h is Some == self.warm(),
            h matches Some(h) ==> h.wf() && h.set() == self.syntax_set() && h.lines()
                == self.fresh(extension@, str_option(name)),
    {
        match (&self.syntaxes, &self.themes) {
            (Some(syntaxes), Some(themes)) => {
                let mut syntax = syntaxes.find_syntax_by_extension(extension);
                if syntax.is_none() {
                    if let Some(name) = name {
                        syntax = syntaxes.find_syntax_by_name(name);
                    }
                }
                let syntax = match syntax {
                    Some(syntax) => syntax,
                    None => syntaxes.find_syntax_plain_text(),
                };
                let theme = embedded_theme(themes, self.theme_name());
                let lines = HighlightLines::new(syntax, theme);
                proof {
                    let seen = Seq::<Seq<char>>::empty();
                    assert(from_set(*syntax, *syntaxes));
                    assert(lines == seasoned(*syntax, *theme, *syntaxes, seen));
                }
                Some(LineHighlighter { lines, syntaxes })
            },
            _ => None,
        }
    }
}

/// Loads the syntaxes and themes that are not loaded yet.
pub fn warm_up_syntect(sets: &mut SyntaxSets)
    requires
        old(sets).wf(),
    ensures
        final(sets).wf(),
        final(sets).warm(),
        old(sets).warm() ==> *final(sets) == *old(sets),
        final(sets).is_light() == old(sets).is_light(),
{
    if sets.syntaxes.is_none() {
        sets.syntaxes = Some(SyntaxSet::load_defaults_newlines());
    }
    if sets.themes.is_none() {
        sets.themes = Some(two_face::theme::extra());
    }
}

/// A highlighter with the set that its syntax is from.
pub struct LineHighlighter<'a> {
    lines: HighlightLines<'a>,
    syntaxes: &'a SyntaxSet,
}

/// `HighlightLines::highlight_line` of syntect, on a line of the set that the highlighter's
/// syntax is from: runs of the line from its start on, each with the colour that the theme
/// gives it, or none where the syntax cannot be applied. Which runs, and what the
/// highlighter is afterwards, is named, and is not said otherwise.
#[verifier::external_body]
fn highlight_regions(lines: &mut HighlightLines<'_>, set: &SyntaxSet, line: &str) -> (regions: Vec<
    Region,
>)
    requires
        made_for(*old(lines), *set),
    ensures
        pieces_of(regions@) == line_regions(*old(lines), *set, line@),
        *final(lines) == lines_after(*old(lines), *set, line@),
        joined(pieces_of(regions@)).is_prefix_of(line@),
{
    let found = lines.highlight_line(line, set).unwrap_or_default();
    found.iter().map(
        |(style, text)|
            Region {
                color: Rgb {
                    r: style.foreground.r,
                    g: style.foreground.g,
                    b: style.foreground.b,
                },
                text: text.to_string(),
            },
    ).collect()
}

/// A line with its line feed.
pub open spec fn with_newline(line: Seq<char>) -> Seq<char> {
    line.push('\n')
}

/// A highlighter once it has seen the first `n` of some lines.
pub open spec fn past_lines(
    start: HighlightLines<'_>,
    set: SyntaxSet,
    lines: Seq<Seq<char>>,
    n: int,
) -> HighlightLines<'_>
    decreases n,
{
    if n <= 0 {
        start
    } else {
        lines_after(past_lines(start, set, lines, n - 1), set, with_newline(lines[n - 1]))
    }
}

/// The runs of some lines that a highlighter sees one after the other.
pub open spec fn regions_of(
    start: HighlightLines<'_>,
    set: SyntaxSet,
    lines: Seq<Seq<char>>,
) -> Seq<Seq<Piece>> {
    Seq::new(
        lines.len(),
        |i: int| line_regions(past_lines(start, set, lines, i), set, with_newline(lines[i])),
    )
}

proof fn lemma_seen_prefix(
    lines: HighlightLines<'_>,
    set: SyntaxSet,
    a: Seq<Seq<char>>,
    b: Seq<Seq<char>>,
    n: int,
)
    requires
        n <= a.len(),
        n <= b.len(),
        forall|i: int| 0 <= i < n ==> a[i] == b[i],
    ensures
        having_seen(lines, set, a, n) == having_seen(lines, set, b, n),
    decreases n,
{
    if n > 0 {
        lemma_seen_prefix(lines, set, a, b, n - 1);
    }
}

proof fn lemma_made_for(lines: HighlightLines<'_>, set: SyntaxSet, line: Seq<char>)
    requires
        made_for(lines, set),
    ensures
        made_for(lines_after(lines, set, line), set),
{
    let (syntax, theme, seen) = choose|
        syntax: SyntaxReference,
        theme: syntect::highlighting::Theme,
        seen: Seq<Seq<char>>,
    | from_set(syntax, set) && lines == #[trigger] seasoned(syntax, theme, set, seen);
    let more = seen.push(line);
    lemma_seen_prefix(new_lines(&syntax, theme), set, seen, more, seen.len() as int);
    assert(lines_after(lines, set, line) == seasoned(syntax, theme, set, more));
}

impl<'a> LineHighlighter<'a> {
    /// What has been seen so far.
    pub closed spec fn lines(&self) -> HighlightLines<'a> {
        self.lines
    }

    /// The set that the syntax is from.
    pub closed spec fn set(&self) -> SyntaxSet {
        *self.syntaxes
    }

    /// The highlighter was made for a syntax of its set.
    pub closed spec fn wf(&self) -> bool {
        made_for(self.lines, *self.syntaxes)
    }

    /// The runs of one more line.
    pub fn next_line(&mut self, line: &str) -> (regions: Vec<Region>)
        requires
            old(self).wf(),
        ensures
            final(self).wf(),
            final(self).set() == old(self).set(),
            pieces_of(regions@) == line_regions(
                old(self).lines(),
                old(self).set(),
                with_newline(line@),
            ),
            final(self).lines() == lines_after(
                old(self).lines(),
                old(self).set(),
                with_newline(line@),
            ),
            joined(pieces_of(regions@)).is_prefix_of(with_newline(line@)),
    {
        let mut line_with_nl = String::from_str(line);
        line_with_nl.push('\n');
        proof {
            lemma_made_for(self.lines, *self.syntaxes, with_newline(line@));
        }
        highlight_regions(&mut self.lines, self.syntaxes, line_with_nl.as_str())
    }
}

/// `text` without the characters `c` at its end.
pub open spec fn end_stripped(text: Seq<char>, c: char) -> Seq<char>
    decreases text.len(),
{
    if text.len() > 0 && text.last() == c {
        end_stripped(text.drop_last(), c)
    } else {
        text
    }
}

/// `text` without its line feeds at the end, and the carriage returns before them.
pub open spec fn line_end_trimmed(text: Seq<char>) -> Seq<char> {
    end_stripped(end_stripped(text, '\n'), '\r')
}

/// `chars` without the characters `c` at its end.
fn strip_end(chars: &mut Vec<char>, c: char)
    ensures
        final(chars)@ == end_stripped(old(chars)@, c),
{
    let ghost before = chars@;
    while chars.len() > 0 && chars[chars.len() - 1] == c
        invariant
            end_stripped(chars@, c) == end_stripped(before, c),
        decreases chars@.len(),
    {
        let ghost now = chars@;
        chars.pop();
        proof {
            assert(chars@ =~= now.drop_last());
        }
    }
}

/// The characters of `text` without its line feeds at the end, and the carriage returns
/// before them.
pub(crate) fn trimmed_chars(text: &str) -> (chars: Vec<char>)
    ensures
        chars@ == line_end_trimmed(text@),
{
    let mut chars = chars_of(text);
    strip_end(&mut chars, '\n');
    strip_end(&mut chars, '\r');
    chars
}

/// Rows that are full and the row that is being filled.
pub struct SplitState {
    pub rows: Seq<Seq<Piece>>,
    pub current: Seq<Piece>,
}

/// Whether a row that says `row` has room for one more character. An empty row always has.
pub open spec fn has_room(row: Seq<char>, c: char, width: int) -> bool {
    row.len() == 0 || cell_width(row.push(c)) <= width
}

/// How far `text` goes into a row that says `row`, once its first `n` characters are in.
pub open spec fn room_from(row: Seq<char>, text: Seq<char>, n: int, width: int) -> int
    decreases text.len() - n,
{
    if 0 <= n < text.len() && has_room(row + text.take(n), text[n], width) {
        room_from(row, text, n + 1, width)
    } else {
        n
    }
}

/// A row takes of a text as much as has room, and no more.
pub proof fn row_takes_what_has_room(row: Seq<char>, text: Seq<char>, n: int, width: int)
    requires
        0 <= n <= text.len(),
    ensures
        ({
            let m = room_from(row, text, n, width);
            &&& n <= m <= text.len()
            &&& m < text.len() ==> !has_room(row + text.take(m), text[m], width)
            &&& m > n ==> has_room(row + text.take(m - 1), text[m - 1], width)
        }),
    decreases text.len() - n,
{
    if n < text.len() && has_room(row + text.take(n), text[n], width) {
        row_takes_what_has_room(row, text, n + 1, width);
    }
}

/// Rows of at most `width` columns once `text` is added.
pub open spec fn filled(s: SplitState, color: Rgb, text: Seq<char>, width: int) -> SplitState
    decreases text.len(), s.current.len(),
{
    if text.len() == 0 {
        s
    } else {
        let n = room_from(joined(s.current), text, 0, width);
        proof {
            row_takes_what_has_room(joined(s.current), text, 0, width);
            assert(joined(s.current) + text.take(0) =~= joined(s.current));
        }
        if n == 0 {
            filled(
                SplitState { rows: s.rows.push(s.current), current: Seq::empty() },
                color,
                text,
                width,
            )
        } else {
            filled(
                SplitState { current: s.current.push(Piece { color, text: text.take(n) }), ..s },
                color,
                text.skip(n),
                width,
            )
        }
    }
}

/// Rows of at most `width` columns once some runs are added.
pub open spec fn split_state(pieces: Seq<Piece>, width: int) -> SplitState
    decreases pieces.len(),
{
    if pieces.len() == 0 {
        SplitState { rows: Seq::empty(), current: Seq::empty() }
    } else {
        filled(
            split_state(pieces.drop_last(), width),
            pieces.last().color,
            line_end_trimmed(pieces.last().text),
            width,
        )
    }
}

/// Some runs of code in rows of at most `width` columns; at least one row.
pub open spec fn split_rows(pieces: Seq<Piece>, width: int) -> Seq<Seq<Piece>> {
    let s = split_state(pieces, width);
    if s.current.len() > 0 {
        s.rows.push(s.current)
    } else if s.rows.len() == 0 {
        seq![Seq::empty()]
    } else {
        s.rows
    }
}

/// How many of the characters from `at` on go into a row that says `row`.
fn count_room(row: &Vec<char>, chars: &Vec<char>, at: usize, max_width: usize) -> (n: usize)
    requires
        at <= chars@.len(),
    ensures
        n == room_from(row@, chars@.skip(at as int), 0, max_width as int),
        n <= chars@.len() - at,
{
    let ghost text = chars@.skip(at as int);
    let mut said = text_of(row, 0, row.len());
    let mut n: usize = 0;
    proof {
        row_takes_what_has_room(row@, text, 0, max_width as int);
        assert(said@ =~= row@ + text.take(0));
    }
    while n < chars.len() - at
        invariant
            at <= chars@.len(),
            n <= chars@.len() - at,
            text == chars@.skip(at as int),
            said@ == row@ + text.take(n as int),
            room_from(row@, text, n as int, max_width as int) == room_from(
                row@,
                text,
                0,
                max_width as int,
            ),
        decreases chars@.len() - at - n,
    {
        let empty = row.len() == 0 && n == 0;
        said.push(chars[at + n]);
        proof {
            assert(said@ == (row@ + text.take(n as int)).push(text[n as int]));
            assert(said@ =~= row@ + text.take(n + 1));
        }
        if !empty && display_width(said.as_str()) > max_width {
            return n;
        }
        n += 1;
    }
    n
}

/// Splits runs of code into rows of at most `max_width` columns. A character that is wider
/// than that has a row to itself.
pub fn split_regions_into_rows(
    out: &mut SpanCollector,
    regions: &Vec<Region>,
    max_width: usize,
) -> (rows: Vec<Vec<Region>>)
    ensures
        ({
            let split = split_rows(
                pieces_of(regions@),
                if max_width < 1 {
                    1
                } else {
                    max_width as int
                },
            );
            &&& piece_rows(rows@) == split
            &&& final(out)@ == if split.len() > 1 {
                written(old(out)@, SpanOp::MarkWrapped)
            } else {
                old(out)@
            }
        }),
{
    let max_width: usize = if max_width < 1 {
        1
    } else {
        max_width
    };
    let ghost pieces = pieces_of(regions@);
    let mut rows: Vec<Vec<Region>> = Vec::new();
    let mut current: Vec<Region> = Vec::new();
    let mut said: Vec<char> = Vec::new();
    let mut i: usize = 0;
    proof {
        assert(piece_rows(rows@) =~= Seq::<Seq<Piece>>::empty());
        assert(pieces_of(current@) =~= Seq::<Piece>::empty());
        assert(said@ =~= joined(pieces_of(current@)));
        assert(pieces.take(0) =~= Seq::<Piece>::empty());
    }
    while i < regions.len()
        invariant
            i <= regions@.len(),
            pieces == pieces_of(regions@),
            said@ == joined(pieces_of(current@)),
            (SplitState {
                rows: piece_rows(rows@),
                current: pieces_of(current@),
            }) == split_state(pieces.take(i as int), max_width as int),
        decreases regions@.len() - i,
    {
        let color = regions[i].color;
        let chars = trimmed_chars(regions[i].text.as_str());
        let mut at: usize = 0;
        let ghost target = split_state(pieces.take(i + 1), max_width as int);
        proof {
            assert(pieces.take(i + 1).drop_last() =~= pieces.take(i as int));
            assert(chars@.skip(0) =~= chars@);
        }
        while at < chars.len()
            invariant
                at <= chars@.len(),
                said@ == joined(pieces_of(current@)),
                filled(
                    SplitState { rows: piece_rows(rows@), current: pieces_of(current@) },
                    color,
                    chars@.skip(at as int),
                    max_width as int,
                ) == target,
            decreases chars@.len() - at, said@.len(),
        {
            let n = count_room(&said, &chars, at, max_width);
            let ghost text = chars@.skip(at as int);
            if n == 0 {
                let ghost before = rows@;
                let ghost row = current;
                proof {
                    row_takes_what_has_room(said@, text, 0, max_width as int);
                    assert(said@ + text.take(0) =~= said@);
                }
                rows.push(current);
                current = Vec::new();
                said = Vec::new();
                proof {
                    assert(piece_rows(rows@) =~= piece_rows(before).push(pieces_of(row@)));
                    assert(pieces_of(current@) =~= Seq::<Piece>::empty());
                    assert(said@ =~= joined(pieces_of(current@)));
                }
                continue ;
            }
            let text = text_of(&chars, at, at + n);
            let mut added = chars_of(text.as_str());
            let ghost before = current@;
            let ghost said_before = said@;
            said.append(&mut added);
            current.push(Region { color, text });
            proof {
                assert(chars@.skip(at as int).take(n as int) =~= text@);
                assert(chars@.skip(at as int).skip(n as int) =~= chars@.skip(at + n));
                let piece = Piece { color, text: text@ };
                assert(pieces_of(current@) =~= pieces_of(before).push(piece));
                assert(pieces_of(current@).drop_last() =~= pieces_of(before));
                assert(said@ =~= joined(pieces_of(current@)));
            }
            at += n;
        }
        proof {
            assert(chars@.skip(at as int).len() == 0);
        }
        i += 1;
    }
    proof {
        assert(pieces.take(i as int) =~= pieces);
    }
    if current.len() > 0 {
        let ghost before = rows@;
        let ghost row = current;
        rows.push(current);
        proof {
            assert(piece_rows(rows@) =~= piece_rows(before).push(pieces_of(row@)));
        }
    } else if rows.len() == 0 {
        rows.push(Vec::new());
        proof {
            assert(pieces_of(rows@[0]@) =~= Seq::<Piece>::empty());
            assert(piece_rows(rows@) =~= seq![Seq::<Piece>::empty()]);
        }
    }
    if rows.len() > 1 {
        out.mark_wrapped();
    }
    rows
}

/// The text of some runs once their line ends are trimmed.
pub open spec fn trimmed_text(pieces: Seq<Piece>) -> Seq<char>
    decreases pieces.len(),
{
    if pieces.len() == 0 {
        Seq::empty()
    } else {
        trimmed_text(pieces.drop_last()) + line_end_trimmed(pieces.last().text)
    }
}

/// The text of some rows, one behind the other.
pub open spec fn rows_text(rows: Seq<Seq<Piece>>) -> Seq<char>
    decreases rows.len(),
{
    if rows.len() == 0 {
        Seq::empty()
    } else {
        rows_text(rows.drop_last()) + joined(rows.last())
    }
}

/// A row that stays within `width` columns, or holds one character.
pub open spec fn within(row: Seq<char>, width: int) -> bool {
    row.len() == 1 || row.len() > 1 && cell_width(row) <= width
}

/// Full rows, each with no room for the first character of the next, and behind them a row
/// that says `next`.
spec fn rows_packed(rows: Seq<Seq<Piece>>, next: Seq<char>, width: int) -> bool {
    &&& forall|i: int| 0 <= i < rows.len() ==> within(joined(#[trigger] rows[i]), width)
    &&& forall|i: int|
        0 <= i < rows.len() - 1 ==> !has_room(
            joined(#[trigger] rows[i]),
            joined(rows[i + 1])[0],
            width,
        )
    &&& rows.len() > 0 && next.len() > 0 ==> !has_room(joined(rows.last()), next[0], width)
}

/// The rows are packed, and the state holds `text`. `rest` is what is about to be added.
spec fn split_holds(s: SplitState, width: int, text: Seq<char>, rest: Seq<char>) -> bool {
    &&& rows_packed(s.rows, joined(s.current) + rest, width)
    &&& s.current.len() > 0 ==> within(joined(s.current), width)
    &&& s.rows.len() > 0 && s.current.len() == 0 ==> rest.len() > 0
    &&& rows_text(s.rows) + joined(s.current) == text
}

proof fn lemma_filled(s: SplitState, color: Rgb, text: Seq<char>, width: int, before: Seq<char>)
    requires
        split_holds(s, width, before, text),
    ensures
        split_holds(filled(s, color, text, width), width, before + text, Seq::empty()),
    decreases text.len(), s.current.len(),
{
    let row = joined(s.current);
    let none = Seq::<char>::empty();
    if text.len() == 0 {
        assert(before + text =~= before);
        assert(row + none =~= row + text);
    } else {
        let n = room_from(row, text, 0, width);
        row_takes_what_has_room(row, text, 0, width);
        assert(row + text.take(0) =~= row);
        if n == 0 {
            let next = SplitState { rows: s.rows.push(s.current), current: Seq::empty() };
            assert(next.rows.drop_last() =~= s.rows);
            assert(joined(next.current) =~= none);
            assert(rows_text(next.rows) + joined(next.current) =~= rows_text(s.rows) + row);
            assert(joined(next.current) + text =~= text);
            assert((row + text)[0] == row[0]);
            assert forall|i: int| 0 <= i < next.rows.len() implies within(
                joined(#[trigger] next.rows[i]),
                width,
            ) by {
                if i < s.rows.len() {
                    assert(next.rows[i] == s.rows[i]);
                }
            }
            assert forall|i: int| 0 <= i < next.rows.len() - 1 implies !has_room(
                joined(#[trigger] next.rows[i]),
                joined(next.rows[i + 1])[0],
                width,
            ) by {
                assert(next.rows[i] == s.rows[i]);
                if i + 1 < s.rows.len() {
                    assert(next.rows[i + 1] == s.rows[i + 1]);
                }
            }
            lemma_filled(next, color, text, width, before);
        } else {
            let piece = Piece { color, text: text.take(n) };
            let next = SplitState { current: s.current.push(piece), ..s };
            assert(next.current.drop_last() =~= s.current);
            assert(joined(next.current) == row + text.take(n));
            assert(rows_text(next.rows) + joined(next.current) =~= before + text.take(n));
            assert(joined(next.current) + text.skip(n) =~= row + text);
            assert((row + text.take(n - 1)).push(text[n - 1]) =~= row + text.take(n));
            lemma_filled(next, color, text.skip(n), width, before + text.take(n));
            assert(before + text.take(n) + text.skip(n) =~= before + text);
        }
    }
}

proof fn lemma_split_state(pieces: Seq<Piece>, width: int)
    ensures
        split_holds(split_state(pieces, width), width, trimmed_text(pieces), Seq::empty()),
    decreases pieces.len(),
{
    let none = Seq::<char>::empty();
    if pieces.len() == 0 {
        let s = split_state(pieces, width);
        assert(joined(s.current) =~= none);
        assert(rows_text(s.rows) + joined(s.current) =~= none);
    } else {
        let s = split_state(pieces.drop_last(), width);
        let text = line_end_trimmed(pieces.last().text);
        lemma_split_state(pieces.drop_last(), width);
        assert(joined(s.current) + none =~= joined(s.current));
        if s.current.len() > 0 {
            assert((joined(s.current) + text)[0] == joined(s.current)[0]);
        }
        assert(s.rows.len() > 0 ==> s.current.len() > 0);
        lemma_filled(
            s,
            pieces.last().color,
            text,
            width,
            trimmed_text(pieces.drop_last()),
        );
    }
}

/// Splitting code into rows loses and adds nothing: the rows say what the runs say but
/// for their line ends. Every row stays within the width or holds one character, and a row
/// ends only where the next character has no room in it. There is an empty row only where
/// there is nothing to say.
pub proof fn splitting_keeps_text(pieces: Seq<Piece>, width: int)
    ensures
        ({
            let rows = split_rows(pieces, width);
            &&& rows_text(rows) == trimmed_text(pieces)
            &&& rows.len() >= 1
            &&& trimmed_text(pieces).len() == 0 ==> rows == seq![Seq::<Piece>::empty()]
            &&& trimmed_text(pieces).len() > 0 ==> forall|i: int|
                0 <= i < rows.len() ==> within(joined(#[trigger] rows[i]), width)
            &&& forall|i: int|
                0 <= i < rows.len() - 1 ==> !has_room(
                    joined(#[trigger] rows[i]),
                    joined(rows[i + 1])[0],
                    width,
                )
        }),
{
    lemma_split_state(pieces, width);
    let s = split_state(pieces, width);
    let rows = split_rows(pieces, width);
    let none = Seq::<char>::empty();
    assert(joined(s.current) + none =~= joined(s.current));
    if s.current.len() > 0 {
        assert(rows.drop_last() =~= s.rows);
        assert(rows_text(rows) == trimmed_text(pieces));
        assert(trimmed_text(pieces).len() >= joined(s.current).len());
        assert forall|i: int| 0 <= i < rows.len() implies within(
            joined(#[trigger] rows[i]),
            width,
        ) by {
            if i < s.rows.len() {
                assert(rows[i] == s.rows[i]);
            }
        }
        assert forall|i: int| 0 <= i < rows.len() - 1 implies !has_room(
            joined(#[trigger] rows[i]),
            joined(rows[i + 1])[0],
            width,
        ) by {
            assert(rows[i] == s.rows[i]);
            if i + 1 < s.rows.len() {
                assert(rows[i + 1] == s.rows[i + 1]);
            }
        }
    } else {
        assert(joined(s.current) =~= none);
        assert(s.rows.len() == 0);
        assert(rows.drop_last() =~= Seq::<Seq<Piece>>::empty());
        assert(joined(rows.last()) =~= none);
        assert(rows_text(rows.drop_last()) =~= none);
        assert(rows_text(rows) =~= none);
        assert(rows_text(s.rows) =~= none);
    }
}

/// What is written to print some runs in their colours, on a background if there is one.
pub open spec fn pieces_ops(pieces: Seq<Piece>, bg: Option<ColorValue>) -> Seq<SpanOp>
    decreases pieces.len(),
{
    if pieces.len() == 0 {
        Seq::empty()
    } else {
        pieces_ops(pieces.drop_last(), bg) + piece_ops(pieces.last(), bg)
    }
}

pub open spec fn piece_ops(piece: Piece, bg: Option<ColorValue>) -> Seq<SpanOp> {
    if piece.text.len() == 0 {
        Seq::empty()
    } else {
        (match bg {
            Some(bg) => seq![SpanOp::SetStyle { change: StyleChange::Bg(bg) }],
            None => Seq::empty(),
        }) + seq![
            SpanOp::SetStyle { change: StyleChange::Fg(piece.color.spec_value()) },
            printed(piece.text),
        ]
    }
}

/// Going back to the plain style.
pub open spec fn reset() -> SpanOp {
    SpanOp::SetStyle { change: StyleChange::Reset }
}

/// Prints runs of code and goes back to the plain style. The columns printed.
pub(crate) fn print_split_regions(
    out: &mut SpanCollector,
    regions: &Vec<Region>,
    bg: Option<ColorValue>,
) -> (cols: usize)
    ensures
        final(out)@ == all_written(old(out)@, pieces_ops(pieces_of(regions@), bg).push(reset())),
        cols == cell_width(joined(pieces_of(regions@))),
{
    broadcast use lemma_written_after;

    let ghost start = out@;
    let ghost pieces = pieces_of(regions@);
    let mut said = String::new();
    let mut i: usize = 0;
    proof {
        assert(pieces.take(0) =~= Seq::<Piece>::empty());
        assert(all_written(start, pieces_ops(pieces.take(0), bg)) == start);
        assert(said@ =~= joined(pieces.take(0)));
    }
    while i < regions.len()
        invariant
            i <= regions@.len(),
            pieces == pieces_of(regions@),
            out@ == all_written(start, pieces_ops(pieces.take(i as int), bg)),
            said@ == joined(pieces.take(i as int)),
        decreases regions@.len() - i,
    {
        let ghost ops = pieces_ops(pieces.take(i as int), bg);
        proof {
            assert(pieces.take(i + 1).drop_last() =~= pieces.take(i as int));
        }
        let region = &regions[i];
        let n = chars_of(region.text.as_str()).len();
        said.append(region.text.as_str());
        if n > 0 {
            if let Some(bg) = bg {
                out.set_bg(bg);
            }
            out.set_fg(region.color.value());
            out.print(region.text.as_str());
            proof {
                let fg = SpanOp::SetStyle { change: StyleChange::Fg(region.color.spec_value()) };
                let with_bg = match bg {
                    Some(bg) => ops.push(SpanOp::SetStyle { change: StyleChange::Bg(bg) }),
                    None => ops,
                };
                if let Some(bg) = bg {
                    lemma_written_after(
                        start,
                        ops,
                        SpanOp::SetStyle { change: StyleChange::Bg(bg) },
                    );
                }
                lemma_written_after(start, with_bg, fg);
                lemma_written_after(start, with_bg.push(fg), printed(region.text@));
                assert(out@ == all_written(start, with_bg.push(fg).push(printed(region.text@))));
                assert(with_bg.push(fg).push(printed(region.text@)) =~= ops + piece_ops(
                    region@,
                    bg,
                ));
            }
        } else {
            proof {
                assert(ops + piece_ops(region@, bg) =~= ops);
            }
        }
        i += 1;
    }
    out.reset_style();
    proof {
        assert(pieces.take(i as int) =~= pieces);
    }
    display_width(said.as_str())
}

/// A frame around a code block: what stands left and right of each row, its colour, and
/// the columns between.
#[derive(Debug)]
pub struct BoxContext {
    pub left: String,
    pub right: String,
    pub color: ColorValue,
    pub inner_w: usize,
}

impl BoxContext {
    /// What is written for the left side.
    pub open spec fn left_ops(&self) -> Seq<SpanOp> {
        seq![
            SpanOp::SetStyle { change: StyleChange::Fg(self.color) },
            printed(self.left@),
            reset(),
        ]
    }

    /// Prints the left side and goes back to the plain style.
    pub fn print_left(&self, out: &mut SpanCollector)
        ensures
            final(out)@ == all_written(old(out)@, self.left_ops()),
    {
        broadcast use lemma_written_after;

        let ghost start = out@;
        out.set_fg(self.color);
        out.print(self.left.as_str());
        out.reset_style();
        proof {
            let none = Seq::<SpanOp>::empty();
            let fg = SpanOp::SetStyle { change: StyleChange::Fg(self.color) };
            assert(all_written(start, none) == start);
            assert(out@ == all_written(
                start,
                none.push(fg).push(printed(self.left@)).push(reset()),
            ));
            assert(none.push(fg).push(printed(self.left@)).push(reset()) =~= self.left_ops());
        }
    }
}

} // verus!
