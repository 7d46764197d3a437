//! How the characters of the prompt are shown: what is selected, what is under the cursor, and
//! what stands out.
use vstd::prelude::*;
use crate::paint::Color;
use crate::prompt_input::{
    area_highlights, command_kinds, fits_columns, is_one_line, is_shell, is_text_area,
    lemma_row_len, lemma_runs_len, row_segments, row_selection, run_highlights, runs_len, scroll_of,
    shown_rows, Highlight, InputArea, InputState,
};
use crate::prompt_style::{
    bang_cell, char_style, plain_cell, runs, shifted_cursor, shifted_selection, styled_row,
    CellStyle, PromptColors, SegmentView, Selection, SpanKind,
};
use crate::spans::NamedColor;

verus! {

/// The highlight is on the cell in this row and column.
pub open spec fn is_on(h: Highlight, row: int, col: int) -> bool {
    h.row == row && h.start <= col < h.end
}

/// The cell in this row and column is in `style`: some highlight on it says so, and none says
/// otherwise; a cell without a highlight is plain.
pub open spec fn cell_is_in(
    highlights: Seq<Highlight>,
    row: int,
    col: int,
    style: CellStyle,
) -> bool {
    &&& forall|k: int|
        0 <= k < highlights.len() && is_on(#[trigger] highlights[k], row, col)
            ==> highlights[k].style == style
    &&& (exists|k: int| 0 <= k < highlights.len() && is_on(#[trigger] highlights[k], row, col))
        || style == (CellStyle { fg: None, bg: None, bold: false, dim: false, italic: false })
}

/// The run has this character of the row.
spec fn has_char(segments: Seq<SegmentView>, k: int, i: int) -> bool {
    runs_len(segments, k) <= i < runs_len(segments, k) + segments[k].text.len()
}

proof fn lemma_one_run(segments: Seq<SegmentView>, a: int, b: int, i: int)
    requires
        0 <= a < segments.len(),
        0 <= b < segments.len(),
        has_char(segments, a, i),
        has_char(segments, b, i),
    ensures
        a == b,
{
    if a < b {
        lemma_runs_len(segments, a + 1, b);
    } else if b < a {
        lemma_runs_len(segments, b + 1, a);
    }
}

proof fn lemma_same_front(a: Seq<SegmentView>, b: Seq<SegmentView>, n: int)
    requires
        0 <= n <= a.len(),
        n <= b.len(),
        forall|k: int| 0 <= k < n ==> #[trigger] a[k] == b[k],
    ensures
        runs_len(a, n) == runs_len(b, n),
    decreases n,
{
    if n > 0 {
        lemma_same_front(a, b, n - 1);
    }
}

proof fn lemma_runs_total(
    line: Seq<char>,
    kinds: Seq<SpanKind>,
    selection: Option<Selection>,
    cursor: Option<usize>,
    colors: PromptColors,
    n: int,
)
    requires
        0 <= n <= line.len(),
    ensures
        ({
            let all = runs(line, kinds, selection, cursor, colors, n);
            runs_len(all, all.len() as int) == n
        }),
    decreases n,
{
    let all = runs(line, kinds, selection, cursor, colors, n);
    if n > 0 {
        let before = runs(line, kinds, selection, cursor, colors, n - 1);
        lemma_runs_total(line, kinds, selection, cursor, colors, n - 1);
        lemma_same_front(all, before, all.len() - 1);
        if before.len() == all.len() {
            assert(runs_len(before, before.len() as int) == runs_len(before, before.len() - 1)
                + before.last().text.len());
        }
    }
}

/// Some run has each character of a row, and is in the style of that character.
proof fn lemma_run_of(
    line: Seq<char>,
    kinds: Seq<SpanKind>,
    selection: Option<Selection>,
    cursor: Option<usize>,
    colors: PromptColors,
    n: int,
    i: int,
) -> (k: int)
    requires
        0 <= i < n <= line.len(),
    ensures
        ({
            let all = runs(line, kinds, selection, cursor, colors, n);
            &&& 0 <= k < all.len()
            &&& has_char(all, k, i)
            &&& all[k].style == char_style(kinds, selection, cursor, colors, i)
        }),
    decreases n,
{
    let all = runs(line, kinds, selection, cursor, colors, n);
    let before = runs(line, kinds, selection, cursor, colors, n - 1);
    lemma_runs_total(line, kinds, selection, cursor, colors, n);
    lemma_runs_total(line, kinds, selection, cursor, colors, n - 1);
    let last = all.len() - 1;
    lemma_same_front(all, before, last);
    if i == n - 1 {
        assert(runs_len(all, all.len() as int) == runs_len(all, last) + all[last].text.len());
        last
    } else {
        let k = lemma_run_of(line, kinds, selection, cursor, colors, n - 1, i);
        if k < last {
            lemma_same_front(all, before, k);
            assert(all[k] == before[k]);
        } else {
            assert(k == last);
        }
        k
    }
}

proof fn lemma_styled_run_of(
    line: Seq<char>,
    kinds: Seq<SpanKind>,
    selection: Option<Selection>,
    cursor: Option<usize>,
    colors: PromptColors,
    i: int,
) -> (k: int)
    requires
        0 <= i < line.len(),
    ensures
        ({
            let all = styled_row(line, kinds, selection, cursor, colors);
            &&& 0 <= k < all.len()
            &&& has_char(all, k, i)
            &&& all[k].style == char_style(kinds, selection, cursor, colors, i)
        }),
{
    let n = line.len() as int;
    let all = styled_row(line, kinds, selection, cursor, colors);
    let front = runs(line, kinds, selection, cursor, colors, n);
    let k = lemma_run_of(line, kinds, selection, cursor, colors, n, i);
    lemma_same_front(all, front, k);
    k
}

proof fn lemma_behind_head(head: SegmentView, rest: Seq<SegmentView>, n: int)
    requires
        0 <= n <= rest.len(),
    ensures
        runs_len(seq![head] + rest, n + 1) == head.text.len() + runs_len(rest, n),
    decreases n,
{
    let all = seq![head] + rest;
    if n > 0 {
        lemma_behind_head(head, rest, n - 1);
        assert(all[n] == rest[n - 1]);
    } else {
        assert(runs_len(all, 0) == 0);
        assert(runs_len(all, 1) == runs_len(all, 0) + all[0].text.len());
    }
}

/// How a character of a row of the prompt is to be shown.
spec fn wanted_style(
    state: InputState,
    row: int,
    i: int,
    has_cursor: bool,
    colors: PromptColors,
    style: CellStyle,
) -> bool {
    let line = state.lines@[row];
    let place = state.line_offsets@[row] + i;
    let command = is_one_line(state.text@) && state.looks_like_command;
    let bang = !command && is_shell(state.text@) && row == 0 && i == 0 && line.text@[0] == '!';
    if has_cursor && row == state.cursor_line && i == state.cursor_char_in_line {
        style == colors.cursor_cell()
    } else {
        &&& style.bg == if state.selection is Some && state.selection->0.start <= place
            < state.selection->0.end {
            Some(colors.selection_bg)
        } else {
            None
        }
        &&& !bang && !command ==> style.fg == if i < line.kinds@.len() && line.kinds@[i]
            != SpanKind::Plain {
            Some(colors.accent)
        } else {
            None
        }
        &&& command ==> style.fg == if row == 0 && i < crate::prompt_input::word_end(
            line.text@,
            0,
        ) {
            Some(colors.accent)
        } else {
            None
        }
        &&& bang ==> style.fg == Some(Color::Named(NamedColor::Red))
        &&& !style.dim && !style.italic
        &&& style.bold == bang
    }
}

proof fn lemma_row_run_of(
    state: InputState,
    row: int,
    i: int,
    has_cursor: bool,
    colors: PromptColors,
) -> (k: int)
    requires
        fits_columns(state),
        0 <= row < state.lines@.len(),
        0 <= i < state.lines@[row].text@.len(),
    ensures
        ({
            let all = row_segments(state, row, has_cursor, colors);
            &&& 0 <= k < all.len()
            &&& has_char(all, k, i)
            &&& wanted_style(state, row, i, has_cursor, colors, all[k].style)
        }),
{
    let line = state.lines@[row];
    let selection = row_selection(
        state.selection,
        state.line_offsets@[row] as int,
        line.text@.len() as int,
    );
    let cursor = if row == state.cursor_line && has_cursor {
        Some(state.cursor_char_in_line)
    } else {
        None
    };
    assert(state.line_offsets@[row] + state.lines@[row].text@.len() <= usize::MAX);
    let all = row_segments(state, row, has_cursor, colors);
    if is_one_line(state.text@) && state.looks_like_command {
        let kinds = command_kinds(line.text@, row == 0);
        lemma_styled_run_of(line.text@, kinds, selection, cursor, colors, i)
    } else if is_shell(state.text@) && row == 0 && line.text@.len() > 0 && line.text@[0] == '!' {
        let kinds = if line.kinds@.len() > 1 {
            line.kinds@.skip(1)
        } else {
            Seq::empty()
        };
        let head = bang_cell(selection, cursor, colors);
        if i == 0 {
            assert(runs_len(all, 0) == 0);
            assert(all[0] == head);
            0
        } else {
            let rest = styled_row(
                line.text@.skip(1),
                kinds,
                shifted_selection(selection),
                shifted_cursor(cursor),
                colors,
            );
            let k = lemma_styled_run_of(
                line.text@.skip(1),
                kinds,
                shifted_selection(selection),
                shifted_cursor(cursor),
                colors,
                i - 1,
            );
            lemma_behind_head(head, rest, k);
            assert(all == seq![head] + rest);
            assert(all[k + 1] == rest[k]);
            k + 1
        }
    } else {
        lemma_styled_run_of(line.text@, line.kinds@, selection, cursor, colors, i)
    }
}

/// Every highlight of a row is on the characters of a run that is not plain, and every such run
/// has one.
proof fn lemma_run_highlights(segments: Seq<SegmentView>, n: int, row: usize)
    requires
        0 <= n <= segments.len(),
        1 + runs_len(segments, segments.len() as int) <= u16::MAX,
    ensures
        forall|h: int|
            0 <= h < run_highlights(segments, n, row).len() ==> is_highlight_of(
                segments,
                n,
                #[trigger] run_highlights(segments, n, row)[h],
                row,
            ),
        forall|k: int|
            0 <= k < n && (#[trigger] segments[k]).text.len() > 0 && segments[k].style
                != plain_cell() ==> exists|h: int|
                0 <= h < run_highlights(segments, n, row).len() && highlights_run(
                    #[trigger] run_highlights(segments, n, row)[h],
                    segments,
                    k,
                    row,
                ),
    decreases n,
{
    if n > 0 {
        lemma_run_highlights(segments, n - 1, row);
        lemma_runs_len(segments, n - 1, segments.len() as int);
        lemma_runs_len(segments, n, segments.len() as int);
        let before = run_highlights(segments, n - 1, row);
        let now = run_highlights(segments, n, row);
        let own = segments[n - 1].text.len() > 0 && segments[n - 1].style != plain_cell();
        assert forall|h: int| 0 <= h < now.len() implies is_highlight_of(
            segments,
            n,
            #[trigger] now[h],
            row,
        ) by {
            if h < before.len() {
                assert(now[h] == before[h]);
                assert(is_highlight_of(segments, n - 1, before[h], row));
                let k = choose|k: int| 0 <= k < n - 1 && highlights_run(before[h], segments, k, row);
                assert(highlights_run(now[h], segments, k, row));
            } else {
                assert(highlights_run(now[h], segments, n - 1, row));
            }
        }
        assert forall|k: int|
            0 <= k < n && (#[trigger] segments[k]).text.len() > 0 && segments[k].style
                != plain_cell() implies exists|h: int|
            0 <= h < now.len() && highlights_run(#[trigger] now[h], segments, k, row) by {
            if k < n - 1 {
                let h = choose|h: int|
                    0 <= h < before.len() && highlights_run(
                        #[trigger] before[h],
                        segments,
                        k,
                        row,
                    );
                assert(now[h] == before[h]);
            } else {
                assert(highlights_run(now[before.len() as int], segments, k, row));
            }
        }
    }
}

spec fn highlights_run(h: Highlight, segments: Seq<SegmentView>, k: int, row: usize) -> bool {
    &&& h.row == row
    &&& h.start == 1 + runs_len(segments, k)
    &&& h.end == 1 + runs_len(segments, k) + segments[k].text.len()
    &&& h.style == segments[k].style
}

spec fn is_highlight_of(segments: Seq<SegmentView>, n: int, h: Highlight, row: usize) -> bool {
    exists|k: int| 0 <= k < n && highlights_run(h, segments, k, row)
}

proof fn lemma_area_highlights(
    state: InputState,
    scroll: int,
    n: int,
    has_cursor: bool,
    colors: PromptColors,
)
    requires
        fits_columns(state),
        0 <= scroll,
        0 <= n <= usize::MAX,
        scroll + n <= state.lines@.len(),
    ensures
        forall|h: int|
            0 <= h < area_highlights(state, scroll, n, has_cursor, colors).len() ==> {
                let one = #[trigger] area_highlights(state, scroll, n, has_cursor, colors)[h];
                let segments = row_segments(state, scroll + one.row, has_cursor, colors);
                one.row < n && is_highlight_of(segments, segments.len() as int, one, one.row)
            },
        forall|r: int, k: int|
            #![trigger row_segments(state, scroll + r, has_cursor, colors)[k]]
            0 <= r < n && 0 <= k < row_segments(state, scroll + r, has_cursor, colors).len()
                && row_segments(state, scroll + r, has_cursor, colors)[k].text.len() > 0
                && row_segments(state, scroll + r, has_cursor, colors)[k].style != plain_cell()
                ==> has_highlight(
                area_highlights(state, scroll, n, has_cursor, colors),
                row_segments(state, scroll + r, has_cursor, colors),
                k,
                r as usize,
            ),
    decreases n,
{
    if n > 0 {
        lemma_area_highlights(state, scroll, n - 1, has_cursor, colors);
        let before = area_highlights(state, scroll, n - 1, has_cursor, colors);
        let now = area_highlights(state, scroll, n, has_cursor, colors);
        let row = scroll + n - 1;
        let segments = row_segments(state, row, has_cursor, colors);
        lemma_row_len(state, row, has_cursor, colors);
        assert(state.lines@[row].text@.len() + 2 <= u16::MAX);
        let at = (n - 1) as usize;
        lemma_run_highlights(segments, segments.len() as int, at);
        let own = run_highlights(segments, segments.len() as int, at);
        assert(now == before + own);
        assert forall|h: int| 0 <= h < now.len() implies {
            let one = #[trigger] now[h];
            let segments = row_segments(state, scroll + one.row, has_cursor, colors);
            one.row < n && is_highlight_of(segments, segments.len() as int, one, one.row)
        } by {
            if h < before.len() {
                assert(now[h] == before[h]);
            } else {
                assert(now[h] == own[h - before.len()]);
                assert(is_highlight_of(segments, segments.len() as int, own[h - before.len()], at));
            }
        }
        assert forall|r: int, k: int|
            #![trigger row_segments(state, scroll + r, has_cursor, colors)[k]]
            0 <= r < n && 0 <= k < row_segments(state, scroll + r, has_cursor, colors).len()
                && row_segments(state, scroll + r, has_cursor, colors)[k].text.len() > 0
                && row_segments(state, scroll + r, has_cursor, colors)[k].style
                != plain_cell() implies has_highlight(
            now,
            row_segments(state, scroll + r, has_cursor, colors),
            k,
            r as usize,
        ) by {
            let of = row_segments(state, scroll + r, has_cursor, colors);
            if r < n - 1 {
                assert(has_highlight(before, of, k, r as usize));
                let h = choose|h: int|
                    0 <= h < before.len() && highlights_run(
                        #[trigger] before[h],
                        of,
                        k,
                        r as usize,
                    );
                assert(now[h] == before[h]);
            } else {
                assert(segments[k].text.len() > 0);
                let h = choose|h: int|
                    0 <= h < own.len() && highlights_run(#[trigger] own[h], segments, k, at);
                assert(now[before.len() + h] == own[h]);
            }
        }
    }
}

spec fn has_highlight(
    highlights: Seq<Highlight>,
    segments: Seq<SegmentView>,
    k: int,
    row: usize,
) -> bool {
    exists|h: int|
        0 <= h < highlights.len() && highlights_run(#[trigger] highlights[h], segments, k, row)
}

proof fn lemma_cell_of(
    area: InputArea,
    state: InputState,
    height: int,
    above: int,
    has_cursor: bool,
    colors: PromptColors,
    r: int,
    i: int,
) -> (style: CellStyle)
    requires
        is_text_area(area, state, height, above, has_cursor, colors),
        fits_columns(state),
        0 <= above,
        0 <= r < area.visible_rows,
        0 <= i < state.lines@[area.scroll_offset + r].text@.len(),
    ensures
        cell_is_in(area.highlights@, r, i + 1, style),
        wanted_style(state, area.scroll_offset + r, i, has_cursor, colors, style),
{
    let total = state.lines@.len() as int;
    let shown = shown_rows(total, height, above);
    let scroll = scroll_of(state, shown);
    assert(0 <= scroll && scroll + shown <= total);
    let row = scroll + r;
    let segments = row_segments(state, row, has_cursor, colors);
    let k = lemma_row_run_of(state, row, i, has_cursor, colors);
    let style = segments[k].style;
    let all = area.highlights@;
    lemma_area_highlights(state, scroll, shown, has_cursor, colors);
    assert(segments == row_segments(state, scroll + r, has_cursor, colors));
    assert forall|h: int| 0 <= h < all.len() && is_on(#[trigger] all[h], r, i + 1) implies all[h].style
        == style by {
        let one = all[h];
        assert(is_highlight_of(segments, segments.len() as int, one, one.row));
        let other = choose|j: int|
            0 <= j < segments.len() && highlights_run(one, segments, j, one.row);
        assert(has_char(segments, other, i));
        lemma_one_run(segments, k, other, i);
    }
    if style != plain_cell() {
        assert(segments[k].text.len() > 0);
        assert(has_highlight(all, segments, k, r as usize));
        let h = choose|h: int|
            0 <= h < all.len() && highlights_run(#[trigger] all[h], segments, k, r as usize);
        assert(is_on(all[h], r, i + 1));
    }
    style
}

/// A character of a shown row that is not under the cursor has the background of the selection
/// exactly where its place in the whole displayed text is selected, and else none.
pub proof fn selection_is_shown_where_it_is(
    area: InputArea,
    state: InputState,
    height: int,
    above: int,
    has_cursor: bool,
    colors: PromptColors,
    r: int,
    i: int,
)
    requires
        is_text_area(area, state, height, above, has_cursor, colors),
        fits_columns(state),
        0 <= above,
        0 <= r < area.visible_rows,
        0 <= i < state.lines@[area.scroll_offset + r].text@.len(),
        !(has_cursor && area.scroll_offset + r == state.cursor_line && i
            == state.cursor_char_in_line),
    ensures
        exists|style: CellStyle| #[trigger]
            cell_is_in(area.highlights@, r, i + 1, style) && style.bg == match state.selection {
                Some(selected) => if selected.start <= state.line_offsets@[area.scroll_offset + r]
                    + i < selected.end {
                    Some(colors.selection_bg)
                } else {
                    None
                },
                None => None,
            },
{
    let style = lemma_cell_of(area, state, height, above, has_cursor, colors, r, i);
    assert(cell_is_in(area.highlights@, r, i + 1, style));
}

/// The character under the cursor is shown in the two colours of the cursor, which are black
/// and white, the other way round than the theme has them.
pub proof fn cursor_is_shown_where_it_is(
    area: InputArea,
    state: InputState,
    height: int,
    above: int,
    colors: PromptColors,
    r: int,
)
    requires
        is_text_area(area, state, height, above, true, colors),
        fits_columns(state),
        0 <= above,
        0 <= r < area.visible_rows,
        area.scroll_offset + r == state.cursor_line,
        state.cursor_char_in_line < state.lines@[area.scroll_offset + r].text@.len(),
    ensures
        exists|style: CellStyle| #[trigger]
            cell_is_in(area.highlights@, r, state.cursor_char_in_line + 1, style) && style.fg
                == Some(
                Color::Named(
                    if colors.is_light {
                        NamedColor::White
                    } else {
                        NamedColor::Black
                    },
                ),
            ) && style.bg == Some(
                Color::Named(
                    if colors.is_light {
                        NamedColor::Black
                    } else {
                        NamedColor::White
                    },
                ),
            ),
        area.cursor_pos is Some,
        area.cursor_pos->0.row == r,
        area.cursor_pos->0.col == state.cursor_char_in_line + 1,
{
    let i = state.cursor_char_in_line as int;
    let style = lemma_cell_of(area, state, height, above, true, colors, r, i);
    assert(cell_is_in(area.highlights@, r, i + 1, style));
}

/// In a text that is no command, the characters of attachments and references stand out, and
/// no others do, but for the mark of a shell command.
pub proof fn references_stand_out(
    area: InputArea,
    state: InputState,
    height: int,
    above: int,
    has_cursor: bool,
    colors: PromptColors,
    r: int,
    i: int,
)
    requires
        is_text_area(area, state, height, above, has_cursor, colors),
        fits_columns(state),
        0 <= above,
        0 <= r < area.visible_rows,
        0 <= i < state.lines@[area.scroll_offset + r].text@.len(),
        !(has_cursor && area.scroll_offset + r == state.cursor_line && i
            == state.cursor_char_in_line),
        !state.looks_like_command || state.text@.contains('\n'),
        state.lines@[area.scroll_offset + r].text@[0] != '!' || i > 0,
    ensures
        exists|style: CellStyle| #[trigger]
            cell_is_in(area.highlights@, r, i + 1, style) && style.fg == ({
                let kinds = state.lines@[area.scroll_offset + r].kinds@;
                if i < kinds.len() && kinds[i] != SpanKind::Plain {
                    Some(colors.accent)
                } else {
                    None
                }
            }),
{
    let style = lemma_cell_of(area, state, height, above, has_cursor, colors, r, i);
    assert(cell_is_in(area.highlights@, r, i + 1, style));
}

/// In a command its name stands out, and nothing else does: the characters of its first row up
/// to the first white space.
pub proof fn command_name_stands_out(
    area: InputArea,
    state: InputState,
    height: int,
    above: int,
    has_cursor: bool,
    colors: PromptColors,
    r: int,
    i: int,
)
    requires
        is_text_area(area, state, height, above, has_cursor, colors),
        fits_columns(state),
        0 <= above,
        0 <= r < area.visible_rows,
        0 <= i < state.lines@[area.scroll_offset + r].text@.len(),
        !(has_cursor && area.scroll_offset + r == state.cursor_line && i
            == state.cursor_char_in_line),
        state.looks_like_command,
        !state.text@.contains('\n'),
    ensures
        exists|style: CellStyle| #[trigger]
            cell_is_in(area.highlights@, r, i + 1, style) && style.fg == ({
                let line = state.lines@[area.scroll_offset + r].text@;
                if area.scroll_offset + r == 0 && forall|k: int|
                    0 <= k <= i ==> !crate::chars::is_white(#[trigger] line[k]) {
                    Some(colors.accent)
                } else {
                    None
                }
            }),
{
    let style = lemma_cell_of(area, state, height, above, has_cursor, colors, r, i);
    let line = state.lines@[area.scroll_offset + r].text@;
    lemma_word_end(line, 0);
    assert(cell_is_in(area.highlights@, r, i + 1, style));
}

proof fn lemma_word_end(line: Seq<char>, i: int)
    requires
        0 <= i <= line.len(),
    ensures
        i <= crate::prompt_input::word_end(line, i) <= line.len(),
        forall|k: int|
            i <= k < crate::prompt_input::word_end(line, i) ==> !crate::chars::is_white(
                #[trigger] line[k],
            ),
        crate::prompt_input::word_end(line, i) < line.len() ==> crate::chars::is_white(
            line[crate::prompt_input::word_end(line, i)],
        ),
    decreases line.len() - i,
{
    if i < line.len() && !crate::chars::is_white(line[i]) {
        lemma_word_end(line, i + 1);
    }
}

/// The mark of a shell command, a `!` that begins a text of one line and is followed by no
/// blank, is red and bold; no other character of the prompt is bold.
pub proof fn shell_mark_stands_out(
    area: InputArea,
    state: InputState,
    height: int,
    above: int,
    has_cursor: bool,
    colors: PromptColors,
    r: int,
    i: int,
)
    requires
        is_text_area(area, state, height, above, has_cursor, colors),
        fits_columns(state),
        0 <= above,
        0 <= r < area.visible_rows,
        0 <= i < state.lines@[area.scroll_offset + r].text@.len(),
        !(has_cursor && area.scroll_offset + r == state.cursor_line && i
            == state.cursor_char_in_line),
        !state.looks_like_command,
    ensures
        ({
            let text = state.text@;
            let line = state.lines@[area.scroll_offset + r].text@;
            let marked = !text.contains('\n') && text.len() > 0 && text[0] == '!' && (text.len() == 1
                || !crate::prompt_input::is_ascii_blank(text[1])) && area.scroll_offset + r == 0 && i
                == 0 && line[0] == '!';
            exists|style: CellStyle| #[trigger]
                cell_is_in(area.highlights@, r, i + 1, style) && style.bold == marked && !style.dim
                    && !style.italic && (marked ==> style.fg == Some(
                    Color::Named(NamedColor::Red),
                ))
        }),
{
    let style = lemma_cell_of(area, state, height, above, has_cursor, colors, r, i);
    assert(cell_is_in(area.highlights@, r, i + 1, style));
}

} // verus!
