//! Which colours are painted, and how the colours of code go from line to line.
use vstd::prelude::*;
use crate::highlight::{
    chosen_syntax, past_lines, regions_of, syntax_by_extension, syntax_by_name, theme_for,
    SyntaxThemeName,
};
use crate::paint::{resolved, Color, ThemeColors};
use crate::spans::{ColorRole, ColorValue, NamedColor};
use syntect::easy::HighlightLines;
use syntect::parsing::SyntaxSet;

verus! {

/// A colour that is written out is painted as it is written, under every theme; a role is painted
/// in the theme's own colour for it.
pub proof fn roles_are_painted_in_their_own_colour(
    theme: ThemeColors,
    r: u8,
    g: u8,
    b: u8,
    named: NamedColor,
)
    ensures
        resolved(ColorValue::Rgb(r, g, b), theme) == (Color::Rgb { r, g, b }),
        resolved(ColorValue::Ansi(r), theme) == Color::AnsiValue(r),
        resolved(ColorValue::Named(named), theme) == Color::Named(named),
        resolved(ColorValue::Role(ColorRole::Accent), theme) == theme.accent,
        resolved(ColorValue::Role(ColorRole::Slug), theme) == theme.slug,
        resolved(ColorValue::Role(ColorRole::UserBg), theme) == theme.user_bg,
        resolved(ColorValue::Role(ColorRole::CodeBlockBg), theme) == theme.code_block_bg,
        resolved(ColorValue::Role(ColorRole::Bar), theme) == theme.bar,
        resolved(ColorValue::Role(ColorRole::ToolPending), theme) == theme.tool_pending,
        resolved(ColorValue::Role(ColorRole::ReasonOff), theme) == theme.reason_off,
        resolved(ColorValue::Role(ColorRole::Muted), theme) == theme.muted,
{
}

/// The extension of a language goes before its name, and a language that neither is known of is
/// plain text.
pub proof fn extension_goes_before_name(set: SyntaxSet, extension: Seq<char>, name: Seq<char>)
    ensures
        syntax_by_extension(set, extension) is Some ==> chosen_syntax(set, extension, Some(name))
            == syntax_by_extension(set, extension)->0 && chosen_syntax(set, extension, None)
            == syntax_by_extension(set, extension)->0,
        syntax_by_extension(set, extension) is None && syntax_by_name(set, name) is Some
            ==> chosen_syntax(set, extension, Some(name)) == syntax_by_name(set, name)->0,
        syntax_by_extension(set, extension) is None && syntax_by_name(set, name) is None
            ==> chosen_syntax(set, extension, Some(name)) == chosen_syntax(set, extension, None),
        theme_for(true) == SyntaxThemeName::MonokaiExtendedLight,
        theme_for(false) == SyntaxThemeName::MonokaiExtended,
{
}

/// The colours of some lines do not depend on the lines behind them, and those of further lines
/// go on where the lines before them left off.
pub proof fn colours_go_on_from_line_to_line(
    start: HighlightLines<'_>,
    set: SyntaxSet,
    a: Seq<Seq<char>>,
    b: Seq<Seq<char>>,
)
    ensures
        regions_of(start, set, a + b) == regions_of(start, set, a) + regions_of(
            past_lines(start, set, a, a.len() as int),
            set,
            b,
        ),
        regions_of(start, set, a).len() == a.len(),
{
    let all = a + b;
    assert forall|i: int| 0 <= i < all.len() implies #[trigger] regions_of(start, set, all)[i] == (
    regions_of(start, set, a) + regions_of(past_lines(start, set, a, a.len() as int), set, b))[i] by {
        if i < a.len() {
            lemma_past_same(start, set, a, b, i);
            assert(all[i] == a[i]);
        } else {
            lemma_past_more(start, set, a, b, i - a.len());
            assert(all[i] == b[i - a.len()]);
        }
    }
    assert(regions_of(start, set, all) =~= regions_of(start, set, a) + regions_of(
        past_lines(start, set, a, a.len() as int),
        set,
        b,
    ));
}

proof fn lemma_past_same(
    start: HighlightLines<'_>,
    set: SyntaxSet,
    a: Seq<Seq<char>>,
    b: Seq<Seq<char>>,
    n: int,
)
    requires
        0 <= n <= a.len(),
    ensures
        past_lines(start, set, a + b, n) == past_lines(start, set, a, n),
    decreases n,
{
    if n > 0 {
        lemma_past_same(start, set, a, b, n - 1);
        assert((a + b)[n - 1] == a[n - 1]);
    }
}

proof fn lemma_past_more(
    start: HighlightLines<'_>,
    set: SyntaxSet,
    a: Seq<Seq<char>>,
    b: Seq<Seq<char>>,
    n: int,
)
    requires
        0 <= n <= b.len(),
    ensures
        past_lines(start, set, a + b, a.len() + n) == past_lines(
            past_lines(start, set, a, a.len() as int),
            set,
            b,
            n,
        ),
    decreases n,
{
    if n > 0 {
        lemma_past_more(start, set, a, b, n - 1);
        assert((a + b)[a.len() + n - 1] == b[n - 1]);
    } else {
        lemma_past_same(start, set, a, b, a.len() as int);
    }
}

} // verus!
