//! The input area of the prompt: what of its text is shown, and where the cursor is.
use vstd::prelude::*;
use crate::chars::is_white;
use crate::prompt_bar::{
    bar_of, bar_row, bar_spans, build_top_bar_right, queued_message_rows, queued_rows, rows_of,
    stash_row, stash_segments, top_bar, BarInfo, BarSpan, BarSpanView, QueuedMessage,
};
use crate::prompt_style::{
    bang_row, exec_bang_segments, plain_cell, plain_cell_style, segments_of, segments_text,
    styled_char_segments, styled_row, styling_keeps_text, CellStyle, PromptColors, SegmentView,
    Selection, SpanKind, StyledSegment,
};
use crate::text::{chars_of, lines_of, split_lines, text_of, texts};

verus! {

/// A row of the prompt's text as it is wrapped, with the kind of each character.
#[derive(Debug)]
pub struct VisualLine {
    pub text: String,
    pub kinds: Vec<SpanKind>,
}

/// The prompt's text as it is shown.
#[derive(Debug)]
pub struct InputState {
    pub text: String,
    /// Whether the text reads as a command.
    pub looks_like_command: bool,
    pub lines: Vec<VisualLine>,
    /// Characters before each of the lines.
    pub line_offsets: Vec<usize>,
    pub cursor_line: usize,
    pub cursor_char_in_line: usize,
    pub selection: Option<Selection>,
    pub scroll_top: u16,
    pub pending_recenter: bool,
    /// Whether the cursor has moved since the prompt was last drawn.
    pub cursor_moved: bool,
}

/// Places `start .. end` of a row in a style.
#[derive(Clone, Copy, Debug, PartialEq, Eq, Structural)]
pub struct Highlight {
    pub row: usize,
    pub start: u16,
    pub end: u16,
    pub style: CellStyle,
}

/// The input area: its rows, their styles, the cursor, and what part of the text it is.
#[derive(Debug)]
pub struct InputArea {
    pub lines: Vec<String>,
    pub highlights: Vec<Highlight>,
    pub cursor_pos: Option<CursorPos>,
    pub cursor_cell: Option<CursorCell>,
    pub scroll_offset: usize,
    pub total_content_rows: usize,
    pub visible_rows: u16,
}

/// Where the cursor is.
#[derive(Clone, Copy, Debug, PartialEq, Eq, Structural)]
pub struct CursorPos {
    pub col: u16,
    pub row: u16,
}

/// What is under the cursor.
#[derive(Clone, Copy, Debug, PartialEq, Eq, Structural)]
pub struct CursorCell {
    pub style: CellStyle,
    pub glyph: char,
}

/// Rows that are shown of `total`, where `above` rows and two more are taken.
pub open spec fn shown_rows(total: int, height: int, above: int) -> int {
    let room = if height - (above + 2) < 1 {
        1
    } else {
        height - (above + 2)
    };
    if total < room {
        total
    } else {
        room
    }
}

/// The row that the cursor asks to be shown first, where `shown` rows are.
pub open spec fn wanted_scroll(state: InputState, shown: int) -> int {
    let line = state.cursor_line as int;
    let top = state.scroll_top as int;
    if state.pending_recenter {
        if line < shown / 2 {
            0
        } else {
            line - shown / 2
        }
    } else if state.cursor_moved {
        if line < top {
            line
        } else if line >= top + shown {
            line + 1 - shown
        } else {
            top
        }
    } else {
        top
    }
}

/// The first row that is shown.
pub open spec fn scroll_of(state: InputState, shown: int) -> int {
    let total = state.lines@.len() as int;
    if total > shown {
        let wanted = wanted_scroll(state, shown);
        if wanted < total - shown {
            wanted
        } else {
            total - shown
        }
    } else {
        0
    }
}

/// The part of a selection in a row of `len` characters that starts behind `start` others.
/// A row of nothing within the selection shows it on one cell.
pub open spec fn row_selection(
    selection: Option<Selection>,
    start: int,
    len: int,
) -> Option<Selection> {
    match selection {
        Some(s) => {
            let end = start + len;
            if len == 0 && s.start <= start && s.end > start {
                Some(Selection { start: 0, end: 1 })
            } else if s.end <= start || s.start >= end {
                None
            } else {
                Some(
                    Selection {
                        start: (if s.start < start {
                            0
                        } else {
                            s.start - start
                        }) as usize,
                        end: (if s.end < end {
                            s.end - start
                        } else {
                            len
                        }) as usize,
                    },
                )
            }
        },
        None => None,
    }
}

/// Whether a text is one line.
pub open spec fn is_one_line(text: Seq<char>) -> bool {
    !text.contains('\n')
}

/// Whether a character is one of the blanks of ASCII.
pub open spec fn is_ascii_blank(c: char) -> bool {
    c == ' ' || c == '\t' || c == '\n' || c == '\u{c}' || c == '\r'
}

/// Whether a text is a shell command: a `!`, and more behind it or nothing at all.
pub open spec fn is_shell(text: Seq<char>) -> bool {
    &&& is_one_line(text)
    &&& text.len() >= 1
    &&& text[0] == '!'
    &&& text.len() == 1 || !is_ascii_blank(text[1])
}

/// The first place from `i` on where `line` has white space, or its end.
pub open spec fn word_end(line: Seq<char>, i: int) -> int
    decreases line.len() - i,
{
    if i >= line.len() {
        line.len() as int
    } else if is_white(line[i]) {
        i
    } else {
        word_end(line, i + 1)
    }
}

/// The kinds of a command's characters: its name, on the first line, stands out.
pub open spec fn command_kinds(line: Seq<char>, first: bool) -> Seq<SpanKind> {
    Seq::new(
        line.len(),
        |i: int|
            if first && i < word_end(line, 0) {
                SpanKind::AtRef
            } else {
                SpanKind::Plain
            },
    )
}

/// A row in runs of one style, as its text asks for.
pub open spec fn row_segments(
    state: InputState,
    row: int,
    has_cursor: bool,
    colors: PromptColors,
) -> Seq<SegmentView> {
    let line = state.lines@[row];
    let selection = row_selection(
        state.selection,
        state.line_offsets@[row] as int,
        line.text@.len() as int,
    );
    let cursor = if row == state.cursor_line && has_cursor {
        Some(state.cursor_char_in_line)
    } else {
        None
    };
    if is_one_line(state.text@) && state.looks_like_command {
        styled_row(line.text@, command_kinds(line.text@, row == 0), selection, cursor, colors)
    } else if is_shell(state.text@) && row == 0 && line.text@.len() > 0 && line.text@[0] == '!' {
        bang_row(line.text@, line.kinds@, selection, cursor, colors)
    } else {
        styled_row(line.text@, line.kinds@, selection, cursor, colors)
    }
}

/// Characters of the first `n` runs.
pub open spec fn runs_len(segments: Seq<SegmentView>, n: int) -> int
    decreases n,
{
    if n <= 0 {
        0
    } else {
        runs_len(segments, n - 1) + segments[n - 1].text.len()
    }
}

/// The styles of the first `n` runs of a row, behind one cell. Plain runs have none.
pub open spec fn run_highlights(segments: Seq<SegmentView>, n: int, row: usize) -> Seq<Highlight>
    decreases n,
{
    if n <= 0 {
        Seq::empty()
    } else {
        let before = run_highlights(segments, n - 1, row);
        let segment = segments[n - 1];
        let start = 1 + runs_len(segments, n - 1);
        if segment.text.len() > 0 && segment.style != plain_cell() {
            before.push(
                Highlight {
                    row,
                    start: start as u16,
                    end: (start + segment.text.len()) as u16,
                    style: segment.style,
                },
            )
        } else {
            before
        }
    }
}

/// The styles of the first `n` rows shown.
pub open spec fn area_highlights(
    state: InputState,
    scroll: int,
    n: int,
    has_cursor: bool,
    colors: PromptColors,
) -> Seq<Highlight>
    decreases n,
{
    if n <= 0 {
        Seq::empty()
    } else {
        let segments = row_segments(state, scroll + n - 1, has_cursor, colors);
        area_highlights(state, scroll, n - 1, has_cursor, colors) + run_highlights(
            segments,
            segments.len() as int,
            (n - 1) as usize,
        )
    }
}

/// The rows shown, each behind a space; at least one.
pub open spec fn area_lines(state: InputState, scroll: int, n: int) -> Seq<Seq<char>> {
    if n <= 0 {
        seq![seq![' ']]
    } else {
        Seq::new(n as nat, |i: int| seq![' '] + state.lines@[scroll + i].text@)
    }
}

/// The prediction that is shown in an empty prompt: its first line, cut to the room.
pub open spec fn shown_prediction(prediction: Seq<char>, usable: int) -> Seq<char> {
    let first = if lines_of(prediction).len() > 0 {
        lines_of(prediction)[0]
    } else {
        prediction
    };
    let room = if usable < 1 {
        0
    } else {
        usable - 1
    };
    if room < first.len() {
        first.take(room)
    } else {
        first
    }
}

/// The dim part of a prediction: all of it, or all but the character under the cursor.
pub open spec fn prediction_highlights(shown: Seq<char>, has_cursor: bool) -> Seq<Highlight> {
    let dim = CellStyle { dim: true, ..plain_cell() };
    if shown.len() > 0 && !has_cursor {
        seq![Highlight { row: 0, start: 1, end: (1 + shown.len()) as u16, style: dim }]
    } else if shown.len() > 1 {
        seq![Highlight { row: 0, start: 2, end: (1 + shown.len()) as u16, style: dim }]
    } else {
        Seq::empty()
    }
}

/// `area` shows a prediction in an empty prompt.
pub open spec fn is_prediction_area(
    area: InputArea,
    prediction: Seq<char>,
    usable: int,
    has_cursor: bool,
    colors: PromptColors,
) -> bool {
    let shown = shown_prediction(prediction, usable);
    &&& texts(area.lines@) == seq![seq![' '] + shown]
    &&& area.highlights@ == prediction_highlights(shown, has_cursor)
    &&& area.cursor_pos == if has_cursor {
        Some(CursorPos { col: 1, row: 0 })
    } else {
        None
    }
    &&& area.cursor_cell == if has_cursor {
        Some(
            CursorCell {
                style: colors.cursor_cell(),
                glyph: if shown.len() > 0 {
                    shown[0]
                } else {
                    ' '
                },
            },
        )
    } else {
        None
    }
    &&& area.scroll_offset == 0
    &&& area.total_content_rows == 0
    &&& area.visible_rows == 1
}

/// Where the cursor is shown: on its row if that is shown, or below the text.
pub open spec fn shown_cursor(
    state: InputState,
    scroll: int,
    shown: int,
    has_cursor: bool,
) -> Option<CursorPos> {
    let total = state.lines@.len() as int;
    let line = state.cursor_line as int;
    if !has_cursor {
        None
    } else if line >= total {
        Some(
            CursorPos {
                col: 1,
                row: (if shown < 1 {
                    0
                } else {
                    shown - 1
                }) as u16,
            },
        )
    } else if scroll <= line < scroll + shown {
        Some(
            CursorPos {
                col: (1 + state.cursor_char_in_line) as u16,
                row: (line - scroll) as u16,
            },
        )
    } else {
        None
    }
}

/// `area` shows the rows of the text that fit, with the cursor among them.
pub open spec fn is_text_area(
    area: InputArea,
    state: InputState,
    height: int,
    above: int,
    has_cursor: bool,
    colors: PromptColors,
) -> bool {
    let total = state.lines@.len() as int;
    let shown = shown_rows(total, height, above);
    let scroll = scroll_of(state, shown);
    &&& texts(area.lines@) == area_lines(state, scroll, shown)
    &&& area.highlights@ == area_highlights(state, scroll, shown, has_cursor, colors)
    &&& area.cursor_pos == shown_cursor(state, scroll, shown, has_cursor)
    &&& area.cursor_cell == if state.cursor_line >= total && has_cursor {
        Some(CursorCell { style: colors.cursor_cell(), glyph: ' ' })
    } else {
        None
    }
    &&& area.scroll_offset == scroll
    &&& area.total_content_rows == total
    &&& area.visible_rows == shown
}

/// The lengths of rows and the place of the cursor can be counted in columns.
pub open spec fn fits_columns(state: InputState) -> bool {
    &&& state.line_offsets@.len() == state.lines@.len()
    &&& forall|i: int|
        0 <= i < state.lines@.len() ==> (#[trigger] state.lines@[i]).text@.len() + 2 <= u16::MAX
    &&& forall|i: int|
        0 <= i < state.lines@.len() ==> #[trigger] state.line_offsets@[i]
            + state.lines@[i].text@.len() <= usize::MAX
    &&& state.cursor_char_in_line < u16::MAX
    &&& state.cursor_line < usize::MAX
}

pub(crate) fn one_line(chars: &Vec<char>) -> (r: bool)
    ensures
        r == is_one_line(chars@),
{
    let mut i: usize = 0;
    while i < chars.len()
        invariant
            i <= chars@.len(),
            forall|k: int| 0 <= k < i ==> #[trigger] chars@[k] != '\n',
        decreases chars@.len() - i,
    {
        if chars[i] == '\n' {
            return false;
        }
        i += 1;
    }
    true
}

pub(crate) fn shell(chars: &Vec<char>) -> (r: bool)
    ensures
        r == is_shell(chars@),
{
    if chars.len() == 0 || chars[0] != '!' || !one_line(chars) {
        return false;
    }
    if chars.len() == 1 {
        return true;
    }
    let c = chars[1];
    !(c == ' ' || c == '\t' || c == '\n' || c == '\u{c}' || c == '\r')
}

/// The kinds of a command's characters: its name, on the first line, stands out.
fn kinds_of_command(line: &str, first: bool) -> (kinds: Vec<SpanKind>)
    ensures
        kinds@ == command_kinds(line@, first),
{
    let chars = chars_of(line);
    let mut end: usize = 0;
    while end < chars.len() && !chars[end].is_whitespace()
        invariant
            end <= chars@.len(),
            word_end(chars@, 0) == word_end(chars@, end as int),
        decreases chars@.len() - end,
    {
        end += 1;
    }
    let mut kinds: Vec<SpanKind> = Vec::new();
    let mut i: usize = 0;
    while i < chars.len()
        invariant
            i <= chars@.len(),
            chars@ == line@,
            end == word_end(line@, 0),
            kinds@ == command_kinds(line@, first).take(i as int),
        decreases chars@.len() - i,
    {
        if first && i < end {
            kinds.push(SpanKind::AtRef);
        } else {
            kinds.push(SpanKind::Plain);
        }
        i += 1;
        proof {
            assert(kinds@ =~= command_kinds(line@, first).take(i as int));
        }
    }
    proof {
        assert(command_kinds(line@, first).take(i as int) =~= command_kinds(line@, first));
    }
    kinds
}

fn selection_in_row(selection: Option<Selection>, start: usize, len: usize) -> (r: Option<
    Selection,
>)
    requires
        start + len <= usize::MAX,
    ensures
        r == row_selection(selection, start as int, len as int),
{
    match selection {
        Some(s) => {
            let end = start + len;
            if len == 0 && s.start <= start && s.end > start {
                Some(Selection { start: 0, end: 1 })
            } else if s.end <= start || s.start >= end {
                None
            } else {
                let last = if s.end < end {
                    s.end
                } else {
                    end
                };
                Some(Selection { start: s.start.saturating_sub(start), end: last - start })
            }
        },
        None => None,
    }
}

/// Adds the styles of a row's runs.
fn add_segments_to_buffer(
    highlights: &mut Vec<Highlight>,
    row: usize,
    segments: &Vec<StyledSegment>,
)
    requires
        1 + runs_len(segments_of(segments@), segments@.len() as int) <= u16::MAX,
    ensures
        final(highlights)@ == old(highlights)@ + run_highlights(
            segments_of(segments@),
            segments@.len() as int,
            row,
        ),
{
    let ghost all = segments_of(segments@);
    let ghost before = highlights@;
    let mut col: u16 = 1;
    let mut i: usize = 0;
    proof {
        assert(before + run_highlights(all, 0, row) =~= before);
    }
    while i < segments.len()
        invariant
            i <= segments@.len(),
            all == segments_of(segments@),
            1 + runs_len(all, segments@.len() as int) <= u16::MAX,
            col == 1 + runs_len(all, i as int),
            highlights@ == before + run_highlights(all, i as int, row),
        decreases segments@.len() - i,
    {
        let n = chars_of(segments[i].text.as_str()).len();
        proof {
            lemma_runs_len(all, i + 1, segments@.len() as int);
            assert(all[i as int] == segments@[i as int]@);
        }
        let len = n as u16;
        if len > 0 {
            let end = col + len;
            if segments[i].style != plain_cell_style() {
                let highlight = Highlight { row, start: col, end, style: segments[i].style };
                highlights.push(highlight);
                proof {
                    assert(highlights@ =~= before + run_highlights(all, i as int, row).push(
                        highlight,
                    ));
                }
            }
            col = end;
        }
        i += 1;
    }
}

pub(crate) proof fn lemma_runs_len(segments: Seq<SegmentView>, m: int, n: int)
    requires
        0 <= m <= n <= segments.len(),
    ensures
        0 <= runs_len(segments, m) <= runs_len(segments, n),
    decreases n,
{
    if m < n {
        lemma_runs_len(segments, m, n - 1);
    } else if m > 0 {
        lemma_runs_len(segments, m - 1, m - 1);
    }
}

proof fn lemma_runs_len_is_text(segments: Seq<SegmentView>, n: int)
    requires
        0 <= n <= segments.len(),
    ensures
        runs_len(segments, n) == segments_text(segments.take(n)).len(),
    decreases n,
{
    if n > 0 {
        lemma_runs_len_is_text(segments, n - 1);
        assert(segments.take(n).drop_last() =~= segments.take(n - 1));
    }
}

/// A row's runs have at most one character more than the row.
pub(crate) proof fn lemma_row_len(state: InputState, row: int, has_cursor: bool, colors: PromptColors)
    requires
        0 <= row < state.lines@.len(),
    ensures
        ({
            let segments = row_segments(state, row, has_cursor, colors);
            runs_len(segments, segments.len() as int) <= state.lines@[row].text@.len() + 1
        }),
{
    let line = state.lines@[row];
    let selection = row_selection(
        state.selection,
        state.line_offsets@[row] as int,
        line.text@.len() as int,
    );
    let cursor = if row == state.cursor_line && has_cursor {
        Some(state.cursor_char_in_line)
    } else {
        None
    };
    let segments = row_segments(state, row, has_cursor, colors);
    lemma_runs_len_is_text(segments, segments.len() as int);
    assert(segments.take(segments.len() as int) =~= segments);
    styling_keeps_text(line.text@, line.kinds@, selection, cursor, colors);
    styling_keeps_text(
        line.text@,
        command_kinds(line.text@, row == 0),
        selection,
        cursor,
        colors,
    );
    if line.text@.len() > 0 {
        let kinds = if line.kinds@.len() > 1 {
            line.kinds@.skip(1)
        } else {
            Seq::empty()
        };
        let rest = styled_row(
            line.text@.skip(1),
            kinds,
            crate::prompt_style::shifted_selection(selection),
            crate::prompt_style::shifted_cursor(cursor),
            colors,
        );
        styling_keeps_text(
            line.text@.skip(1),
            kinds,
            crate::prompt_style::shifted_selection(selection),
            crate::prompt_style::shifted_cursor(cursor),
            colors,
        );
        let head = crate::prompt_style::bang_cell(selection, cursor, colors);
        lemma_text_behind(head, rest);
        let alone = seq![head];
        assert(alone.drop_last() =~= Seq::<SegmentView>::empty());
        assert(segments_text(alone.drop_last()).len() == 0);
        assert(segments_text(alone).len() == 1);
    }
}

proof fn lemma_text_behind(head: SegmentView, rest: Seq<SegmentView>)
    ensures
        segments_text(seq![head] + rest) == head.text + segments_text(rest),
    decreases rest.len(),
{
    let all = seq![head] + rest;
    if rest.len() == 0 {
        assert(all.drop_last() =~= Seq::<SegmentView>::empty());
        assert(segments_text(all.drop_last()) =~= Seq::<char>::empty());
        assert(segments_text(all) =~= head.text + segments_text(rest));
    } else {
        lemma_text_behind(head, rest.drop_last());
        assert(all.drop_last() =~= seq![head] + rest.drop_last());
        assert(segments_text(all) =~= head.text + segments_text(rest));
    }
}

/// The first character of a prediction and the rest, cut to `max_chars`.
pub fn first_prediction_split(line: &str, max_chars: usize) -> (r: Option<(char, String)>)
    ensures
        ({
            let shown = if max_chars < line@.len() {
                line@.take(max_chars as int)
            } else {
                line@
            };
            match r {
                Some((first, rest)) => shown.len() > 0 && first == shown[0] && rest@ == shown.skip(
                    1,
                ),
                None => shown.len() == 0,
            }
        }),
{
    let chars = chars_of(line);
    let n = if max_chars < chars.len() {
        max_chars
    } else {
        chars.len()
    };
    if n == 0 {
        return None;
    }
    let rest = text_of(&chars, 1, n);
    proof {
        let shown = if max_chars < line@.len() {
            line@.take(max_chars as int)
        } else {
            line@
        };
        assert(rest@ =~= shown.skip(1));
    }
    Some((chars[0], rest))
}

/// The input area of an empty prompt that has a prediction.
fn prediction_area(
    prediction: &str,
    usable: usize,
    has_cursor: bool,
    colors: &PromptColors,
) -> (area: InputArea)
    requires
        usable <= 65533,
    ensures
        is_prediction_area(area, prediction@, usable as int, has_cursor, *colors),
{
    let all = split_lines(prediction);
    let first_line = if all.len() > 0 {
        all[0].clone()
    } else {
        String::from_str(prediction)
    };
    let max_chars = usable.saturating_sub(1);
    let ghost shown = shown_prediction(prediction@, usable as int);
    proof {
        assert(texts(all@).len() == all@.len());
        if all@.len() > 0 {
            assert(first_line@ == lines_of(prediction@)[0]);
        }
    }
    let mut line = String::new();
    line.push(' ');
    let mut highlights: Vec<Highlight> = Vec::new();
    let mut glyph: char = ' ';
    let mut dim = plain_cell_style();
    dim.dim = true;
    proof {
        assert(line@ =~= seq![' ']);
    }
    if let Some((first, rest)) = first_prediction_split(first_line.as_str(), max_chars) {
        glyph = first;
        line.push(first);
        line.append(rest.as_str());
        let n = chars_of(rest.as_str()).len();
        proof {
            assert(shown =~= seq![first] + rest@);
            assert(line@ =~= seq![' '] + shown);
        }
        if !has_cursor {
            highlights.push(Highlight { row: 0, start: 1, end: 2 + n as u16, style: dim });
        } else if n > 0 {
            highlights.push(Highlight { row: 0, start: 2, end: 2 + n as u16, style: dim });
        }
    } else {
        proof {
            assert(line@ =~= seq![' '] + shown);
        }
    }
    let mut lines: Vec<String> = Vec::new();
    lines.push(line);
    proof {
        assert(texts(lines@) =~= seq![seq![' '] + shown]);
        assert(highlights@ =~= prediction_highlights(shown, has_cursor));
    }
    InputArea {
        lines,
        highlights,
        cursor_pos: if has_cursor {
            Some(CursorPos { col: 1, row: 0 })
        } else {
            None
        },
        cursor_cell: if has_cursor {
            Some(CursorCell { style: colors.cursor_style(), glyph })
        } else {
            None
        },
        scroll_offset: 0,
        total_content_rows: 0,
        visible_rows: 1,
    }
}

/// The first row that is shown.
fn scroll_for(state: &InputState, shown: usize) -> (scroll: usize)
    requires
        state.cursor_line < usize::MAX,
        1 <= shown <= u16::MAX,
    ensures
        scroll == scroll_of(*state, shown as int),
{
    let total = state.lines.len();
    if total <= shown {
        return 0;
    }
    let max_off = total - shown;
    let top = state.scroll_top as usize;
    let wanted = if state.pending_recenter {
        state.cursor_line.saturating_sub(shown / 2)
    } else if state.cursor_moved {
        if state.cursor_line < top {
            state.cursor_line
        } else if state.cursor_line - top >= shown {
            state.cursor_line + 1 - shown
        } else {
            top
        }
    } else {
        top
    };
    if wanted < max_off {
        wanted
    } else {
        max_off
    }
}

/// The runs of a row.
fn segments_of_row(
    state: &InputState,
    row: usize,
    command: bool,
    is_shell_text: bool,
    has_cursor: bool,
    colors: &PromptColors,
) -> (segments: Vec<StyledSegment>)
    requires
        row < state.lines@.len(),
        fits_columns(*state),
        command == (is_one_line(state.text@) && state.looks_like_command),
        is_shell_text == is_shell(state.text@),
    ensures
        segments_of(segments@) == row_segments(*state, row as int, has_cursor, *colors),
{
    let line = &state.lines[row];
    let chars = chars_of(line.text.as_str());
    proof {
        assert(state.line_offsets@[row as int] + state.lines@[row as int].text@.len()
            <= usize::MAX);
    }
    let selection = selection_in_row(state.selection, state.line_offsets[row], chars.len());
    let cursor = if row == state.cursor_line && has_cursor {
        Some(state.cursor_char_in_line)
    } else {
        None
    };
    if command {
        let kinds = kinds_of_command(line.text.as_str(), row == 0);
        styled_char_segments(line.text.as_str(), &kinds, selection, cursor, colors)
    } else if is_shell_text && row == 0 && chars.len() > 0 && chars[0] == '!' {
        exec_bang_segments(line.text.as_str(), &line.kinds, selection, cursor, colors)
    } else {
        styled_char_segments(line.text.as_str(), &line.kinds, selection, cursor, colors)
    }
}

/// The input area: a prediction in an empty prompt, else the rows of the text that fit
/// below `row_offset` rows and above two more.
pub fn compute_input_area(
    state: &InputState,
    prediction: Option<&str>,
    height: u16,
    usable: usize,
    row_offset: u16,
    has_prompt_cursor: bool,
    colors: &PromptColors,
) -> (area: InputArea)
    requires
        fits_columns(*state),
        usable <= 65533,
    ensures
        prediction is Some && state.text@.len() == 0 ==> is_prediction_area(
            area,
            prediction->0@,
            usable as int,
            has_prompt_cursor,
            *colors,
        ),
        !(prediction is Some && state.text@.len() == 0) ==> is_text_area(
            area,
            *state,
            height as int,
            row_offset as int,
            has_prompt_cursor,
            *colors,
        ),
{
    let text_chars = chars_of(state.text.as_str());
    if let Some(prediction) = prediction {
        if text_chars.len() == 0 {
            return prediction_area(prediction, usable, has_prompt_cursor, colors);
        }
    }
    let command = one_line(&text_chars) && state.looks_like_command;
    let is_shell_text = shell(&text_chars);
    let total = state.lines.len();
    let fixed = row_offset as usize + 2;
    let room = (height as usize).saturating_sub(fixed);
    let max_rows = if room < 1 {
        1
    } else {
        room
    };
    let shown = if total < max_rows {
        total
    } else {
        max_rows
    };
    let scroll = if shown > 0 {
        scroll_for(state, shown)
    } else {
        0
    };
    proof {
        assert(shown == shown_rows(total as int, height as int, row_offset as int));
        assert(scroll == scroll_of(*state, shown as int));
        assert(scroll + shown <= total);
    }
    let mut lines: Vec<String> = Vec::new();
    let mut highlights: Vec<Highlight> = Vec::new();
    let mut cursor_pos: Option<CursorPos> = None;
    let mut i: usize = 0;
    while i < shown
        invariant
            i <= shown,
            shown <= u16::MAX,
            scroll + shown <= state.lines@.len(),
            fits_columns(*state),
            total == state.lines@.len(),
            command == (is_one_line(state.text@) && state.looks_like_command),
            is_shell_text == is_shell(state.text@),
            lines@.len() == i,
            forall|k: int|
                0 <= k < i ==> (#[trigger] lines@[k])@ == seq![' ']
                    + state.lines@[scroll + k].text@,
            highlights@ == area_highlights(
                *state,
                scroll as int,
                i as int,
                has_prompt_cursor,
                *colors,
            ),
            cursor_pos == if has_prompt_cursor && scroll <= state.cursor_line < scroll + i {
                Some(
                    CursorPos {
                        col: (1 + state.cursor_char_in_line) as u16,
                        row: (state.cursor_line - scroll) as u16,
                    },
                )
            } else {
                None
            },
        decreases shown - i,
    {
        let row = scroll + i;
        let mut line = String::new();
        line.push(' ');
        line.append(state.lines[row].text.as_str());
        proof {
            assert(line@ =~= seq![' '] + state.lines@[row as int].text@);
        }
        lines.push(line);
        let segments = segments_of_row(
            state,
            row,
            command,
            is_shell_text,
            has_prompt_cursor,
            colors,
        );
        proof {
            lemma_row_len(*state, row as int, has_prompt_cursor, *colors);
            assert(state.lines@[row as int].text@.len() + 2 <= u16::MAX);
            assert(segments_of(segments@).len() == segments@.len());
        }
        add_segments_to_buffer(&mut highlights, i, &segments);
        if row == state.cursor_line && has_prompt_cursor {
            cursor_pos = Some(
                CursorPos { col: 1 + state.cursor_char_in_line as u16, row: i as u16 },
            );
        }
        i += 1;
    }
    if shown == 0 {
        let mut line = String::new();
        line.push(' ');
        proof {
            assert(line@ =~= seq![' ']);
        }
        lines.push(line);
    }
    let mut cursor_cell: Option<CursorCell> = None;
    if state.cursor_line >= total && has_prompt_cursor {
        cursor_pos = Some(CursorPos { col: 1, row: shown.saturating_sub(1) as u16 });
        cursor_cell = Some(CursorCell { style: colors.cursor_style(), glyph: ' ' });
    }
    proof {
        assert(texts(lines@) =~= area_lines(*state, scroll as int, shown as int));
    }
    InputArea {
        lines,
        highlights,
        cursor_pos,
        cursor_cell,
        scroll_offset: scroll,
        total_content_rows: total,
        visible_rows: shown as u16,
    }
}

/// The cursor is shown whenever it has moved, whatever the scroll was before.
pub proof fn moved_cursor_is_shown(state: InputState, height: int, above: int)
    requires
        state.cursor_moved,
        !state.pending_recenter,
        state.cursor_line < state.lines@.len(),
        0 <= above,
    ensures
        ({
            let shown = shown_rows(state.lines@.len() as int, height, above);
            let scroll = scroll_of(state, shown);
            scroll <= state.cursor_line < scroll + shown
        }),
{
}

/// The cursor is shown when the prompt is centred on it.
pub proof fn recentred_cursor_is_shown(state: InputState, height: int, above: int)
    requires
        state.pending_recenter,
        state.cursor_line < state.lines@.len(),
        0 <= above,
    ensures
        ({
            let shown = shown_rows(state.lines@.len() as int, height, above);
            let scroll = scroll_of(state, shown);
            scroll <= state.cursor_line < scroll + shown
        }),
{
}

/// The input area never shows rows that the text does not have.
pub proof fn shown_rows_are_rows_of_text(state: InputState, height: int, above: int)
    requires
        0 <= above,
        state.cursor_line <= state.lines@.len(),
    ensures
        ({
            let total = state.lines@.len() as int;
            let shown = shown_rows(total, height, above);
            let scroll = scroll_of(state, shown);
            &&& 0 <= scroll
            &&& scroll + shown <= total
            &&& shown <= 1 || above + 2 + shown <= height
        }),
{
}

/// What the prompt is drawn from.
#[derive(Clone, Copy, Debug)]
pub struct PromptInput<'a> {
    pub queued: &'a Vec<QueuedMessage>,
    pub stashed: bool,
    pub state: &'a InputState,
    pub prediction: Option<&'a str>,
    pub width: u16,
    pub height: u16,
    pub has_prompt_cursor: bool,
    pub bar_info: &'a BarInfo,
}

/// The rows of the prompt in which its text is.
#[derive(Clone, Copy, Debug, PartialEq, Eq, Structural)]
pub struct InputViewport {
    pub top_row: u16,
    pub rows: u16,
    pub content_width: u16,
    pub total_rows: u16,
    pub scroll_top: u16,
}

/// The prompt as it is drawn: its rows, which are empty where its text goes, and its text.
#[derive(Debug)]
pub struct PromptOutput {
    pub chrome_rows: Vec<Vec<StyledSegment>>,
    pub area: InputArea,
    pub input_viewport: Option<InputViewport>,
}

/// Cells of a row of text.
pub open spec fn usable_cells(width: u16) -> usize {
    (width as usize).saturating_sub(2)
}

/// Cells of a row of text in a prompt of this width.
pub fn usable_width(width: u16) -> (cells: usize)
    ensures
        cells == usable_cells(width),
{
    (width as usize).saturating_sub(2)
}

/// The rows above the prompt's text: queued messages, what is stashed, and a bar.
pub open spec fn rows_above(input: PromptInput<'_>, colors: PromptColors) -> Seq<
    Seq<SegmentView>,
> {
    queued_rows(input.queued@, input.queued@.len() as int, colors) + (if input.stashed {
        seq![stash_segments(usable_cells(input.width), colors)]
    } else {
        Seq::empty()
    }) + seq![
        bar_of(
            Seq::empty(),
            top_bar(*input.bar_info, colors),
            input.width as usize,
            colors.bar,
        ),
    ]
}

/// `area` is what the input area shows below so many rows.
pub open spec fn is_input_area(
    area: InputArea,
    input: PromptInput<'_>,
    above: int,
    colors: PromptColors,
) -> bool {
    if input.prediction is Some && input.state.text@.len() == 0 {
        is_prediction_area(
            area,
            input.prediction->0@,
            usable_cells(input.width) as int,
            input.has_prompt_cursor,
            colors,
        )
    } else {
        is_text_area(
            area,
            *input.state,
            input.height as int,
            above,
            input.has_prompt_cursor,
            colors,
        )
    }
}

fn push_row(rows: &mut Vec<Vec<StyledSegment>>, row: Vec<StyledSegment>)
    ensures
        rows_of(final(rows)@) == rows_of(old(rows)@).push(segments_of(row@)),
        final(rows)@.len() == old(rows)@.len() + 1,
{
    let ghost before = rows@;
    rows.push(row);
    proof {
        assert(rows_of(rows@) =~= rows_of(before).push(segments_of(row@)));
    }
}

/// The prompt: queued messages, what is stashed, a bar, its text, and another bar.
pub fn compute_prompt(input: &PromptInput<'_>, colors: &PromptColors) -> (output: PromptOutput)
    requires
        fits_columns(*input.state),
        queued_rows(input.queued@, input.queued@.len() as int, *colors).len() <= 65531,
    ensures
        ({
            let above = rows_above(*input, *colors);
            let shown = output.area.visible_rows;
            &&& is_input_area(output.area, *input, above.len() as int, *colors)
            &&& rows_of(output.chrome_rows@) == above + Seq::new(
                shown as nat,
                |i: int| Seq::<SegmentView>::empty(),
            ) + seq![
                bar_of(Seq::empty(), Seq::empty(), input.width as usize, colors.bar),
            ]
            &&& output.input_viewport == if shown > 0 {
                Some(
                    InputViewport {
                        top_row: above.len() as u16,
                        rows: shown,
                        content_width: usable_cells(input.width) as u16,
                        total_rows: output.area.total_content_rows as u16,
                        scroll_top: output.area.scroll_offset as u16,
                    },
                )
            } else {
                None
            }
        }),
{
    let width = input.width as usize;
    let usable = usable_width(input.width);
    let no_spans: Vec<BarSpan> = Vec::new();
    proof {
        assert(bar_spans(no_spans@) =~= Seq::<BarSpanView>::empty());
    }
    let mut chrome_rows = queued_message_rows(input.queued, colors);
    proof {
        assert(rows_of(chrome_rows@).len() == chrome_rows@.len());
    }
    if input.stashed {
        push_row(&mut chrome_rows, stash_row(usable, colors));
    }
    let right = build_top_bar_right(input.bar_info, colors);
    push_row(&mut chrome_rows, bar_row(width, &no_spans, &right, colors));
    let row_offset = chrome_rows.len() as u16;
    let ghost above = rows_above(*input, *colors);
    proof {
        assert(rows_of(chrome_rows@) =~= above);
        assert(above.len() == chrome_rows@.len());
    }
    let area = compute_input_area(
        input.state,
        input.prediction,
        input.height,
        usable,
        row_offset,
        input.has_prompt_cursor,
        colors,
    );
    let shown = area.visible_rows;
    let mut i: u16 = 0;
    proof {
        assert(rows_of(chrome_rows@) =~= above + Seq::new(
            0,
            |i: int| Seq::<SegmentView>::empty(),
        ));
    }
    while i < shown
        invariant
            i <= shown,
            rows_of(chrome_rows@) == above + Seq::new(
                i as nat,
                |i: int| Seq::<SegmentView>::empty(),
            ),
        decreases shown - i,
    {
        let blank: Vec<StyledSegment> = Vec::new();
        proof {
            assert(segments_of(blank@) =~= Seq::<SegmentView>::empty());
        }
        push_row(&mut chrome_rows, blank);
        i += 1;
        proof {
            assert(rows_of(chrome_rows@) =~= above + Seq::new(
                i as nat,
                |i: int| Seq::<SegmentView>::empty(),
            ));
        }
    }
    push_row(&mut chrome_rows, bar_row(width, &no_spans, &no_spans, colors));
    let input_viewport = if shown > 0 {
        Some(
            InputViewport {
                top_row: row_offset,
                rows: shown,
                content_width: usable as u16,
                total_rows: #[verifier::truncate] (area.total_content_rows as u16),
                scroll_top: #[verifier::truncate] (area.scroll_offset as u16),
            },
        )
    } else {
        None
    };
    proof {
        assert(rows_of(chrome_rows@) =~= above + Seq::new(
            shown as nat,
            |i: int| Seq::<SegmentView>::empty(),
        ) + seq![bar_of(Seq::empty(), Seq::empty(), input.width as usize, colors.bar)]);
    }
    PromptOutput { chrome_rows, area, input_viewport }
}

/// The prompt never takes more rows than the screen has, where what is above its text and
/// two rows more fit.
pub proof fn prompt_fits_screen(total: int, height: int, above: int)
    requires
        0 <= total,
        0 <= above,
        above + 3 <= height,
    ensures
        above + shown_rows(total, height, above) + 1 <= height,
{
}

} // verus!
