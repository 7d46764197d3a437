//! Styled rows of the prompt: its text with cursor and selection, and the bars around it.
use vstd::prelude::*;
use crate::paint::Color;
use crate::spans::NamedColor;
use crate::text::chars_of;

verus! {

/// How a cell looks.
#[derive(Clone, Copy, Debug, PartialEq, Eq, Structural)]
pub struct CellStyle {
    pub fg: Option<Color>,
    pub bg: Option<Color>,
    pub bold: bool,
    pub dim: bool,
    pub italic: bool,
}

/// A run of text in one style.
#[derive(Debug)]
pub struct StyledSegment {
    pub text: String,
    pub style: CellStyle,
}

/// A run of text in one style, as mathematical values.
pub struct SegmentView {
    pub text: Seq<char>,
    pub style: CellStyle,
}

impl View for StyledSegment {
    type V = SegmentView;

    open spec fn view(&self) -> SegmentView {
        SegmentView { text: self.text@, style: self.style }
    }
}

/// Some runs of text.
pub open spec fn segments_of(segments: Seq<StyledSegment>) -> Seq<SegmentView> {
    segments.map_values(|segment: StyledSegment| segment@)
}

/// What a character of the prompt is part of.
#[derive(Clone, Copy, Debug, PartialEq, Eq, Structural)]
pub enum SpanKind {
    Plain,
    Attachment,
    AtRef,
}

/// The colours that the prompt is drawn in.
#[derive(Clone, Copy, Debug)]
pub struct PromptColors {
    pub is_light: bool,
    pub selection_bg: Color,
    pub accent: Color,
    pub muted: Color,
    pub bar: Color,
    pub user_bg: Color,
}

/// Nothing said of how a cell looks.
pub open spec fn plain_cell() -> CellStyle {
    CellStyle { fg: None, bg: None, bold: false, dim: false, italic: false }
}

/// Nothing said of how a cell looks.
pub fn plain_cell_style() -> (style: CellStyle)
    ensures
        style == plain_cell(),
{
    CellStyle { fg: None, bg: None, bold: false, dim: false, italic: false }
}

/// The colour of a group: its foreground, else its background, else none.
pub fn group_color(fg: Option<Color>, bg: Option<Color>) -> (color: Color)
    ensures
        color == match (fg, bg) {
            (Some(color), _) => color,
            (None, Some(color)) => color,
            (None, None) => Color::Named(NamedColor::Reset),
        },
{
    match (fg, bg) {
        (Some(color), _) => color,
        (None, Some(color)) => color,
        (None, None) => Color::Named(NamedColor::Reset),
    }
}

impl PromptColors {
    /// The cell under the cursor: black and white, as the theme is not.
    pub open spec fn cursor_cell(self) -> CellStyle {
        let black = Color::Named(NamedColor::Black);
        let white = Color::Named(NamedColor::White);
        if self.is_light {
            CellStyle { fg: Some(white), bg: Some(black), ..plain_cell() }
        } else {
            CellStyle { fg: Some(black), bg: Some(white), ..plain_cell() }
        }
    }

    /// The cell under the cursor.
    pub fn cursor_style(&self) -> (style: CellStyle)
        ensures
            style == self.cursor_cell(),
    {
        let black = Color::Named(NamedColor::Black);
        let white = Color::Named(NamedColor::White);
        let mut style = plain_cell_style();
        if self.is_light {
            style.fg = Some(white);
            style.bg = Some(black);
        } else {
            style.fg = Some(black);
            style.bg = Some(white);
        }
        style
    }
}

/// Places `start .. end` of a row.
#[derive(Clone, Copy, Debug, PartialEq, Eq, Structural)]
pub struct Selection {
    pub start: usize,
    pub end: usize,
}

/// How character `i` of a row looks.
pub open spec fn char_style(
    kinds: Seq<SpanKind>,
    selection: Option<Selection>,
    cursor: Option<usize>,
    colors: PromptColors,
    i: int,
) -> CellStyle {
    if cursor is Some && cursor->0 == i {
        colors.cursor_cell()
    } else {
        CellStyle {
            fg: if 0 <= i < kinds.len() && kinds[i] != SpanKind::Plain {
                Some(colors.accent)
            } else {
                None
            },
            bg: if selection is Some && selection->0.start <= i < selection->0.end {
                Some(colors.selection_bg)
            } else {
                None
            },
            ..plain_cell()
        }
    }
}

/// The first `n` characters of a row in runs of one style.
pub open spec fn runs(
    line: Seq<char>,
    kinds: Seq<SpanKind>,
    selection: Option<Selection>,
    cursor: Option<usize>,
    colors: PromptColors,
    n: int,
) -> Seq<SegmentView>
    decreases n,
{
    if n <= 0 {
        Seq::empty()
    } else {
        let before = runs(line, kinds, selection, cursor, colors, n - 1);
        let style = char_style(kinds, selection, cursor, colors, n - 1);
        if before.len() > 0 && before.last().style == style {
            before.drop_last().push(
                SegmentView { text: before.last().text.push(line[n - 1]), style },
            )
        } else {
            before.push(SegmentView { text: seq![line[n - 1]], style })
        }
    }
}

/// A cell behind the row: the cursor there, or the end of a selection that goes on.
pub open spec fn end_cell(
    len: int,
    selection: Option<Selection>,
    cursor: Option<usize>,
    colors: PromptColors,
) -> Seq<SegmentView> {
    if cursor is Some && cursor->0 == len {
        seq![SegmentView { text: seq![' '], style: colors.cursor_cell() }]
    } else if selection is Some && selection->0.end > len && selection->0.start <= len {
        seq![
            SegmentView {
                text: seq![' '],
                style: CellStyle { bg: Some(colors.selection_bg), ..plain_cell() },
            },
        ]
    } else {
        Seq::empty()
    }
}

/// A row in runs of one style, with cursor and selection.
pub open spec fn styled_row(
    line: Seq<char>,
    kinds: Seq<SpanKind>,
    selection: Option<Selection>,
    cursor: Option<usize>,
    colors: PromptColors,
) -> Seq<SegmentView> {
    runs(line, kinds, selection, cursor, colors, line.len() as int) + end_cell(
        line.len() as int,
        selection,
        cursor,
        colors,
    )
}

/// A row in runs of one style, with cursor and selection.
pub fn styled_char_segments(
    line: &str,
    kinds: &Vec<SpanKind>,
    selection: Option<Selection>,
    cursor_pos: Option<usize>,
    colors: &PromptColors,
) -> (segments: Vec<StyledSegment>)
    ensures
        segments_of(segments@) == styled_row(line@, kinds@, selection, cursor_pos, *colors),
{
    let chars = chars_of(line);
    proof {
        assert(chars@.skip(0) =~= line@);
        assert(kinds@.skip(0) =~= kinds@);
    }
    styled_chars(&chars, 0, kinds, 0, selection, cursor_pos, colors)
}

/// The row of `chars` from `from` on, whose kinds are those from `kinds_from` on.
fn styled_chars(
    chars: &Vec<char>,
    from: usize,
    kinds: &Vec<SpanKind>,
    kinds_from: usize,
    selection: Option<Selection>,
    cursor_pos: Option<usize>,
    colors: &PromptColors,
) -> (segments: Vec<StyledSegment>)
    requires
        from <= chars@.len(),
        kinds_from <= kinds@.len(),
    ensures
        segments_of(segments@) == styled_row(
            chars@.skip(from as int),
            kinds@.skip(kinds_from as int),
            selection,
            cursor_pos,
            *colors,
        ),
{
    let ghost line = chars@.skip(from as int);
    let ghost own = kinds@.skip(kinds_from as int);
    let mut segments: Vec<StyledSegment> = Vec::new();
    let count = chars.len() - from;
    let cursor_cell = colors.cursor_style();
    let mut i: usize = 0;
    proof {
        assert(segments_of(segments@) =~= runs(line, own, selection, cursor_pos, *colors, 0));
    }
    while i < count
        invariant
            i <= count,
            from + count == chars@.len(),
            from + count <= usize::MAX,
            kinds_from <= kinds@.len(),
            line == chars@.skip(from as int),
            own == kinds@.skip(kinds_from as int),
            cursor_cell == colors.cursor_cell(),
            segments_of(segments@) == runs(line, own, selection, cursor_pos, *colors, i as int),
        decreases count - i,
    {
        let kind = if i < kinds.len() - kinds_from {
            kinds[kinds_from + i]
        } else {
            SpanKind::Plain
        };
        let mut style = plain_cell_style();
        let under_cursor = match cursor_pos {
            Some(pos) => pos == i,
            None => false,
        };
        if under_cursor {
            style = cursor_cell;
        } else {
            if kind != SpanKind::Plain {
                style.fg = Some(colors.accent);
            }
            if let Some(selection) = selection {
                if i >= selection.start && i < selection.end {
                    style.bg = Some(colors.selection_bg);
                }
            }
        }
        proof {
            assert(style == char_style(own, selection, cursor_pos, *colors, i as int));
        }
        let ghost before = segments@;
        let n = segments.len();
        if n > 0 && segments[n - 1].style == style {
            if let Some(segment) = segments.pop() {
                let mut segment = segment;
                segment.text.push(chars[from + i]);
                segments.push(segment);
            }
        } else {
            let mut text = String::new();
            text.push(chars[from + i]);
            proof {
                assert(text@ =~= seq![line[i as int]]);
            }
            segments.push(StyledSegment { text, style });
        }
        proof {
            assert(segments_of(segments@) =~= runs(
                line,
                own,
                selection,
                cursor_pos,
                *colors,
                i + 1,
            ));
        }
        i += 1;
    }
    let at_end = match cursor_pos {
        Some(pos) => pos == count,
        None => false,
    };
    let ghost before = segments@;
    if at_end {
        segments.push(StyledSegment { text: String::from_str(" "), style: cursor_cell });
    } else if let Some(selection) = selection {
        if selection.end > count && selection.start <= count {
            let mut style = plain_cell_style();
            style.bg = Some(colors.selection_bg);
            segments.push(StyledSegment { text: String::from_str(" "), style });
        }
    }
    proof {
        reveal_strlit(" ");
        assert(" "@ =~= seq![' ']);
        assert(segments_of(segments@) =~= segments_of(before) + end_cell(
            count as int,
            selection,
            cursor_pos,
            *colors,
        ));
    }
    segments
}

/// The selection as it lies behind the first character of a row, if anything of it does.
pub open spec fn shifted_selection(selection: Option<Selection>) -> Option<Selection> {
    match selection {
        Some(selection) => {
            let start = if selection.start == 0 {
                0
            } else {
                (selection.start - 1) as usize
            };
            let end = selection.end.saturating_sub(1);
            if start < end {
                Some(Selection { start, end })
            } else {
                None
            }
        },
        None => None,
    }
}

/// The cursor as it lies behind the first character of a row.
pub open spec fn shifted_cursor(cursor: Option<usize>) -> Option<usize> {
    match cursor {
        Some(cursor) if cursor > 0 => Some((cursor - 1) as usize),
        _ => None,
    }
}

/// The `!` before a shell command: the cursor on it, or red and bold.
pub open spec fn bang_cell(
    selection: Option<Selection>,
    cursor: Option<usize>,
    colors: PromptColors,
) -> SegmentView {
    SegmentView {
        text: seq!['!'],
        style: if cursor == Some(0usize) {
            colors.cursor_cell()
        } else {
            CellStyle {
                fg: Some(Color::Named(NamedColor::Red)),
                bg: if selection is Some && selection->0.start == 0 {
                    Some(colors.selection_bg)
                } else {
                    None
                },
                bold: true,
                ..plain_cell()
            }
        },
    }
}

/// A row that begins with `!`, the mark apart from the rest.
pub open spec fn bang_row(
    line: Seq<char>,
    kinds: Seq<SpanKind>,
    selection: Option<Selection>,
    cursor: Option<usize>,
    colors: PromptColors,
) -> Seq<SegmentView> {
    let head = seq![bang_cell(selection, cursor, colors)];
    if line.len() > 1 {
        head + styled_row(
            line.skip(1),
            if kinds.len() > 1 {
                kinds.skip(1)
            } else {
                Seq::empty()
            },
            shifted_selection(selection),
            shifted_cursor(cursor),
            colors,
        )
    } else {
        head
    }
}

/// A row that begins with `!`, the mark apart from the rest.
pub fn exec_bang_segments(
    line: &str,
    kinds: &Vec<SpanKind>,
    selection: Option<Selection>,
    cursor_pos: Option<usize>,
    colors: &PromptColors,
) -> (segments: Vec<StyledSegment>)
    requires
        line@.len() > 0,
        line@[0] == '!',
    ensures
        segments_of(segments@) == bang_row(line@, kinds@, selection, cursor_pos, *colors),
{
    let chars = chars_of(line);
    let mut segments: Vec<StyledSegment> = Vec::new();
    let on_bang = match cursor_pos {
        Some(pos) => pos == 0,
        None => false,
    };
    let mut style = plain_cell_style();
    if on_bang {
        style = colors.cursor_style();
    } else {
        style.fg = Some(Color::Named(NamedColor::Red));
        style.bold = true;
        if let Some(selection) = selection {
            if selection.start == 0 {
                style.bg = Some(colors.selection_bg);
            }
        }
    }
    segments.push(StyledSegment { text: String::from_str("!"), style });
    proof {
        reveal_strlit("!");
        assert("!"@ =~= seq!['!']);
        assert(segments_of(segments@) =~= seq![bang_cell(selection, cursor_pos, *colors)]);
    }
    if chars.len() > 1 {
        let rest_selection = match selection {
            Some(selection) => {
                let start = if selection.start == 0 {
                    0
                } else {
                    selection.start - 1
                };
                let end = selection.end.saturating_sub(1);
                if start < end {
                    Some(Selection { start, end })
                } else {
                    None
                }
            },
            None => None,
        };
        let rest_cursor = match cursor_pos {
            Some(cursor) => cursor.checked_sub(1),
            None => None,
        };
        let none: Vec<SpanKind> = Vec::new();
        let mut rest = if kinds.len() > 1 {
            styled_chars(&chars, 1, kinds, 1, rest_selection, rest_cursor, colors)
        } else {
            proof {
                assert(none@.skip(0) =~= Seq::<SpanKind>::empty());
            }
            styled_chars(&chars, 1, &none, 0, rest_selection, rest_cursor, colors)
        };
        let ghost head = segments@;
        let ghost tail = rest@;
        segments.append(&mut rest);
        proof {
            assert(segments_of(segments@) =~= segments_of(head) + segments_of(tail));
        }
    }
    segments
}

/// The text of some runs.
pub open spec fn segments_text(segments: Seq<SegmentView>) -> Seq<char>
    decreases segments.len(),
{
    if segments.len() == 0 {
        Seq::empty()
    } else {
        segments_text(segments.drop_last()) + segments.last().text
    }
}

/// Styling a row changes nothing that it says: its runs are the row, with at most one
/// space behind it.
pub proof fn styling_keeps_text(
    line: Seq<char>,
    kinds: Seq<SpanKind>,
    selection: Option<Selection>,
    cursor: Option<usize>,
    colors: PromptColors,
)
    ensures
        ({
            let text = segments_text(styled_row(line, kinds, selection, cursor, colors));
            text == line || text == line.push(' ')
        }),
{
    let n = line.len() as int;
    lemma_runs_text(line, kinds, selection, cursor, colors, n);
    let body = runs(line, kinds, selection, cursor, colors, n);
    let end = end_cell(n, selection, cursor, colors);
    assert(line.take(n) =~= line);
    if end.len() == 0 {
        assert(body + end =~= body);
    } else {
        assert((body + end).drop_last() =~= body);
        assert(line + seq![' '] =~= line.push(' '));
    }
}

proof fn lemma_runs_text(
    line: Seq<char>,
    kinds: Seq<SpanKind>,
    selection: Option<Selection>,
    cursor: Option<usize>,
    colors: PromptColors,
    n: int,
)
    requires
        0 <= n <= line.len(),
    ensures
        segments_text(runs(line, kinds, selection, cursor, colors, n)) == line.take(n),
        forall|k: int|
            0 <= k < runs(line, kinds, selection, cursor, colors, n).len() ==> (#[trigger] runs(
                line,
                kinds,
                selection,
                cursor,
                colors,
                n,
            )[k]).text.len() > 0,
    decreases n,
{
    let now = runs(line, kinds, selection, cursor, colors, n);
    if n > 0 {
        lemma_runs_text(line, kinds, selection, cursor, colors, n - 1);
        let before = runs(line, kinds, selection, cursor, colors, n - 1);
        let style = char_style(kinds, selection, cursor, colors, n - 1);
        if before.len() > 0 && before.last().style == style {
            assert(now.drop_last() =~= before.drop_last());
            assert(segments_text(before.drop_last()) + before.last().text.push(line[n - 1])
                =~= segments_text(before).push(line[n - 1]));
        } else {
            assert(now.drop_last() =~= before);
        }
        assert(line.take(n) =~= line.take(n - 1).push(line[n - 1]));
    } else {
        assert(line.take(n) =~= Seq::<char>::empty());
    }
}

} // verus!
