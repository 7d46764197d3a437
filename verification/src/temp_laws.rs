//! What a placed row shows, cell by cell.
use vstd::prelude::*;
use crate::prompt_style::CellStyle;
use crate::temp_rows::{
    advanced, before_highlight, budget, by_start, cells_before, cells_of, char_cells,
    decoration_steps, fills, fitting_from, highlight_style, highlights_are_ordered, plain_style,
    row_from, step_if, style_of, with_highlight, DecorationStep, LineDecoration, RowHighlight,
    RowState, RunContent, StyleOverlay,
};
use crate::text::{cell_width, clamp_u16};

verus! {

/// A cell that is placed: its character, its style where it has one, and what is known of it
/// where something is.
pub type PlacedCell = (char, Option<CellStyle>, Option<u64>);

/// The cells of some runs, where each character takes one.
pub open spec fn placed_cells(runs: Seq<RunContent>) -> Seq<PlacedCell> {
    runs.map_values(
        |run: RunContent| run.text.map_values(|c: char| (c, run.style, run.meta)),
    ).flatten()
}

/// Each character of a text takes one cell, and `slice` cuts it there.
pub open spec fn one_cell_each<S: Fn(&str, usize, usize) -> String>(slice: S, text: Seq<char>) -> bool {
    &&& text.len() <= u16::MAX
    &&& cell_width(text) == text.len()
    &&& forall|k: int| 0 <= k < text.len() ==> char_cells(#[trigger] text[k]) == 1
    &&& forall|a: u16, b: u16|
        a <= b <= text.len() ==> #[trigger] cells_of(slice, text, a, b) == text.subrange(
            a as int,
            b as int,
        )
}

/// A highlight is over cell `k`.
pub open spec fn is_over(h: RowHighlight, k: int) -> bool {
    h.col_start <= k < h.col_end
}

/// Highlight `j` is the first of `highlights` over cell `k`.
pub open spec fn is_first_over(highlights: Seq<RowHighlight>, j: int, k: int) -> bool {
    &&& 0 <= j < highlights.len()
    &&& is_over(highlights[j], k)
    &&& forall|i: int| 0 <= i < j ==> !is_over(#[trigger] highlights[i], k)
}

/// No highlight is over cell `k`.
pub open spec fn is_bare(highlights: Seq<RowHighlight>, k: int) -> bool {
    forall|i: int| 0 <= i < highlights.len() ==> !is_over(#[trigger] highlights[i], k)
}

/// A cell shows its character: in the style of the first highlight over it and with what is
/// known of that, or plain; dim and italic where the row is.
pub open spec fn is_shown<R: Fn(u64) -> CellStyle>(
    cell: PlacedCell,
    resolve: R,
    text: Seq<char>,
    highlights: Seq<RowHighlight>,
    overlay: Option<StyleOverlay>,
    k: int,
) -> bool {
    &&& cell.0 == text[k]
    &&& forall|j: int| #[trigger]
        is_first_over(highlights, j, k) ==> {
            let own = style_of(resolve, highlights[j].hl);
            &&& cell.2 == Some(highlights[j].meta)
            &&& cell.1 matches Some(style)
            &&& style == (CellStyle {
                dim: own.dim || (overlay is Some && overlay->0.dim),
                italic: own.italic || (overlay is Some && overlay->0.italic),
                ..own
            })
        }
    &&& is_bare(highlights, k) ==> {
        &&& cell.2 is None
        &&& overlay is None ==> cell.1 is None
        &&& overlay is Some ==> cell.1 == Some(
            (CellStyle {
                fg: None,
                bg: None,
                bold: false,
                dim: overlay->0.dim,
                italic: overlay->0.italic,
            }),
        )
    }
}

/// A placed row shows the start of its text, as much as there is room for, each cell in the
/// style of the first highlight over it, by where the highlights begin.
pub proof fn placed_row_shows_the_start_of_its_text<
    S: Fn(&str, usize, usize) -> String,
    R: Fn(u64) -> CellStyle,
>(
    slice: S,
    resolve: R,
    text: Seq<char>,
    highlights: Seq<RowHighlight>,
    overlay: Option<StyleOverlay>,
    max: u16,
)
    requires
        one_cell_each(slice, text),
    ensures
        ({
            let after = row_from(
                slice,
                resolve,
                text,
                by_start(highlights),
                0,
                (RowState { col: 0, emitted: 0, runs: Seq::empty() }),
                overlay,
                max,
            );
            let cells = placed_cells(after.runs);
            &&& cells.len() == if text.len() <= max {
                text.len() as int
            } else {
                max as int
            }
            &&& after.emitted == cells.len()
            &&& forall|k: int|
                0 <= k < cells.len() ==> is_shown(
                    #[trigger] cells[k],
                    resolve,
                    text,
                    by_start(highlights),
                    overlay,
                    k,
                )
        }),
{
    highlights_are_ordered(highlights);
    let start = RowState { col: 0, emitted: 0, runs: Seq::empty() };
    assert(placed_cells(start.runs) =~= Seq::<PlacedCell>::empty()) by {
        assert(Seq::<RunContent>::empty().map_values(
            |run: RunContent| run.text.map_values(|c: char| (c, run.style, run.meta)),
        ) =~= Seq::<Seq<PlacedCell>>::empty());
    }
    lemma_row(slice, resolve, text, by_start(highlights), 0, start, overlay, max);
}

/// What is placed so far is right, and no highlight before `i` is over what is to come.
spec fn is_right<R: Fn(u64) -> CellStyle>(
    resolve: R,
    text: Seq<char>,
    highlights: Seq<RowHighlight>,
    i: int,
    state: RowState,
    overlay: Option<StyleOverlay>,
    max: u16,
) -> bool {
    let cells = placed_cells(state.runs);
    &&& state.col <= text.len()
    &&& state.emitted == if state.col <= max {
        state.col
    } else {
        max
    }
    &&& cells.len() == state.emitted
    &&& forall|k: int|
        0 <= k < cells.len() ==> is_shown(
            #[trigger] cells[k],
            resolve,
            text,
            highlights,
            overlay,
            k,
        )
    &&& forall|j: int, k: int|
        0 <= j < i && state.col <= k < text.len() ==> !#[trigger] is_over(highlights[j], k)
}

proof fn lemma_cells_before(segment: Seq<char>, n: int)
    requires
        0 <= n <= segment.len() <= u16::MAX,
        forall|k: int| 0 <= k < segment.len() ==> char_cells(#[trigger] segment[k]) == 1,
    ensures
        cells_before(segment, n) == n,
    decreases n,
{
    if n > 0 {
        lemma_cells_before(segment, n - 1);
        assert(char_cells(segment[n - 1]) == 1);
    }
}

proof fn lemma_fitting(segment: Seq<char>, room: u16, i: int)
    requires
        0 <= i <= segment.len() <= u16::MAX,
        i <= room,
        forall|k: int| 0 <= k < segment.len() ==> char_cells(#[trigger] segment[k]) == 1,
    ensures
        fitting_from(segment, room, i) == if segment.len() <= room {
            segment.len() as int
        } else {
            room as int
        },
    decreases segment.len() - i,
{
    if i < segment.len() {
        lemma_cells_before(segment, i + 1);
        if i + 1 <= room {
            lemma_fitting(segment, room, i + 1);
        }
    }
}

/// Placing the cells up to `end` keeps what is placed right, if each of them is to be in this
/// style and no highlight before `next` is over what comes behind them.
proof fn lemma_advanced<S: Fn(&str, usize, usize) -> String, R: Fn(u64) -> CellStyle>(
    slice: S,
    resolve: R,
    text: Seq<char>,
    highlights: Seq<RowHighlight>,
    i: int,
    next: int,
    state: RowState,
    end: u16,
    style: Option<CellStyle>,
    meta: Option<u64>,
    overlay: Option<StyleOverlay>,
    max: u16,
)
    requires
        one_cell_each(slice, text),
        is_right(resolve, text, highlights, i, state, overlay, max),
        state.col <= end <= text.len(),
        forall|k: int|
            state.col <= k < end ==> is_shown(
                (#[trigger] text[k], style, meta),
                resolve,
                text,
                highlights,
                overlay,
                k,
            ),
        forall|j: int, k: int|
            0 <= j < next && end <= k < text.len() ==> !#[trigger] is_over(highlights[j], k),
    ensures
        is_right(
            resolve,
            text,
            highlights,
            next,
            advanced(slice, text, state, end, style, meta, max),
            overlay,
            max,
        ),
{
    let segment = text.subrange(state.col as int, end as int);
    assert(cells_of(slice, text, state.col, end) == segment);
    let room = budget(state, max);
    assert forall|k: int| 0 <= k < segment.len() implies char_cells(#[trigger] segment[k]) == 1 by {
        assert(segment[k] == text[state.col + k]);
    }
    lemma_fitting(segment, room, 0);
    let n = fitting_from(segment, room, 0);
    let after = advanced(slice, text, state, end, style, meta, max);
    let before = placed_cells(state.runs);
    if room == 0 || n == 0 {
        assert(after.runs == state.runs);
    } else {
        lemma_cells_before(segment, n);
        let run = RunContent { text: segment.take(n), style, meta };
        let cells = |run: RunContent| run.text.map_values(|c: char| (c, run.style, run.meta));
        assert(after.runs == state.runs.push(run));
        assert(state.runs.push(run).map_values(cells) =~= state.runs.map_values(cells).push(
            cells(run),
        ));
        state.runs.map_values(cells).lemma_flatten_push(cells(run));
        let all = placed_cells(after.runs);
        assert(all == before + cells(run));
        assert forall|k: int| 0 <= k < all.len() implies is_shown(
            #[trigger] all[k],
            resolve,
            text,
            highlights,
            overlay,
            k,
        ) by {
            if k < before.len() {
                assert(all[k] == before[k]);
            } else {
                assert(all[k] == cells(run)[k - before.len()]);
                assert(state.emitted == state.col);
                assert(segment[k - before.len()] == text[k]);
            }
        }
    }
}

proof fn lemma_row<S: Fn(&str, usize, usize) -> String, R: Fn(u64) -> CellStyle>(
    slice: S,
    resolve: R,
    text: Seq<char>,
    highlights: Seq<RowHighlight>,
    i: int,
    state: RowState,
    overlay: Option<StyleOverlay>,
    max: u16,
)
    requires
        0 <= i <= highlights.len(),
        one_cell_each(slice, text),
        forall|a: int, b: int|
            0 <= a <= b < highlights.len() ==> highlights[a].col_start <= highlights[b].col_start,
        is_right(resolve, text, highlights, i, state, overlay, max),
    ensures
        ({
            let after = row_from(slice, resolve, text, highlights, i, state, overlay, max);
            &&& is_right(resolve, text, highlights, 0, after, overlay, max)
            &&& after.col == text.len() || (after.emitted == max && max <= text.len())
        }),
    decreases highlights.len() - i,
{
    let cells = clamp_u16(cell_width(text) as int);
    assert(cells == text.len());
    if i >= highlights.len() {
        if state.col < cells && !state.is_full(max) {
            assert forall|k: int| state.col <= k < cells implies is_shown(
                (#[trigger] text[k], plain_style(overlay), None),
                resolve,
                text,
                highlights,
                overlay,
                k,
            ) by {
                assert forall|j: int| 0 <= j < highlights.len() implies !is_over(
                    #[trigger] highlights[j],
                    k,
                ) by {}
                assert(is_bare(highlights, k));
            }
            lemma_advanced(
                slice,
                resolve,
                text,
                highlights,
                i,
                0,
                state,
                cells,
                plain_style(overlay),
                None,
                overlay,
                max,
            );
        }
    } else {
        let h = highlights[i];
        let after = with_highlight(slice, resolve, text, state, h, overlay, max);
        lemma_with_highlight(slice, resolve, text, highlights, i, state, overlay, max);
        if !fills(slice, resolve, text, state, h, overlay, max) {
            lemma_row(slice, resolve, text, highlights, i + 1, after, overlay, max);
        }
    }
}

proof fn lemma_with_highlight<S: Fn(&str, usize, usize) -> String, R: Fn(u64) -> CellStyle>(
    slice: S,
    resolve: R,
    text: Seq<char>,
    highlights: Seq<RowHighlight>,
    i: int,
    state: RowState,
    overlay: Option<StyleOverlay>,
    max: u16,
)
    requires
        0 <= i < highlights.len(),
        one_cell_each(slice, text),
        forall|a: int, b: int|
            0 <= a <= b < highlights.len() ==> highlights[a].col_start <= highlights[b].col_start,
        is_right(resolve, text, highlights, i, state, overlay, max),
    ensures
        ({
            let h = highlights[i];
            let after = with_highlight(slice, resolve, text, state, h, overlay, max);
            let full = fills(slice, resolve, text, state, h, overlay, max);
            &&& is_right(
                resolve,
                text,
                highlights,
                if full {
                    0
                } else {
                    i + 1
                },
                after,
                overlay,
                max,
            )
            &&& full ==> after.emitted == max && max <= text.len()
        }),
{
    let cells = clamp_u16(cell_width(text) as int);
    assert(cells == text.len());
    let h = highlights[i];
    if h.col_end <= state.col {
        lemma_passed(resolve, text, highlights, i, state, overlay, max);
    } else {
        let start = if h.col_start < cells {
            h.col_start
        } else {
            cells
        };
        let end = if h.col_end < cells {
            h.col_end
        } else {
            cells
        };
        let before = before_highlight(slice, text, state, h, overlay, max);
        if h.col_start > state.col {
            assert forall|k: int| state.col <= k < start implies is_shown(
                (#[trigger] text[k], plain_style(overlay), None),
                resolve,
                text,
                highlights,
                overlay,
                k,
            ) by {
                assert forall|j: int| 0 <= j < highlights.len() implies !is_over(
                    #[trigger] highlights[j],
                    k,
                ) by {
                    if j >= i {
                        assert(highlights[i].col_start <= highlights[j].col_start);
                    }
                }
                assert(is_bare(highlights, k));
            }
            if state.col <= start {
                lemma_advanced(
                    slice,
                    resolve,
                    text,
                    highlights,
                    i,
                    i,
                    state,
                    start,
                    plain_style(overlay),
                    None,
                    overlay,
                    max,
                );
            }
        }
        assert(is_right(resolve, text, highlights, i, before, overlay, max));
        if h.col_start > state.col && before.is_full(max) {
        } else if end <= before.col {
            assert forall|j: int, k: int|
                0 <= j < i + 1 && before.col <= k < text.len() implies !#[trigger] is_over(
                highlights[j],
                k,
            ) by {}
        } else {
            let style = highlight_style(resolve, h.hl, overlay);
            assert forall|k: int| before.col <= k < end implies is_shown(
                (#[trigger] text[k], Some(style), Some(h.meta)),
                resolve,
                text,
                highlights,
                overlay,
                k,
            ) by {
                assert(is_over(highlights[i], k));
                assert forall|j: int| #[trigger] is_first_over(highlights, j, k) implies j == i by {
                    if j < i {
                        assert(!is_over(highlights[j], k));
                    } else if j > i {
                        assert(!is_over(highlights[i], k));
                    }
                }
                assert(!is_bare(highlights, k));
            }
            assert forall|j: int, k: int|
                0 <= j < i + 1 && end <= k < text.len() implies !#[trigger] is_over(
                highlights[j],
                k,
            ) by {}
            lemma_advanced(
                slice,
                resolve,
                text,
                highlights,
                i,
                i + 1,
                before,
                end,
                Some(style),
                Some(h.meta),
                overlay,
                max,
            );
        }
    }
}

proof fn lemma_passed<R: Fn(u64) -> CellStyle>(
    resolve: R,
    text: Seq<char>,
    highlights: Seq<RowHighlight>,
    i: int,
    state: RowState,
    overlay: Option<StyleOverlay>,
    max: u16,
)
    requires
        0 <= i < highlights.len(),
        highlights[i].col_end <= state.col,
        is_right(resolve, text, highlights, i, state, overlay, max),
    ensures
        is_right(resolve, text, highlights, i + 1, state, overlay, max),
{
}

/// A row takes over each mark of the row that is placed in it, and no other: soft wrapping goes
/// before the mark that copying goes on, and the fill only where it is wanted.
pub proof fn marks_are_taken_over(dec: LineDecoration, copy_fill_bg: bool, step: DecorationStep)
    ensures
        decoration_steps(dec, copy_fill_bg).contains(step) <==> match step {
            DecorationStep::SourceText(text) => dec.source_text is Some && dec.source_text->0@
                == text,
            DecorationStep::ExternalSourceText(text) => dec.external_source_text is Some
                && dec.external_source_text->0@ == text,
            DecorationStep::SourceLine(line) => dec.source_line == Some(line),
            DecorationStep::SoftWrapContinuation => dec.soft_wrapped,
            DecorationStep::CopyContinuation => dec.copy_continuation && !dec.soft_wrapped,
            DecorationStep::CellSelectable => dec.cell_selectable,
            DecorationStep::BlockSelectable => dec.block_selectable,
            DecorationStep::FillBg(color) => copy_fill_bg && dec.fill_bg == Some(color),
        },
{
    let a = step_if(dec.source_text is Some, DecorationStep::SourceText(dec.source_text->0@));
    let b = step_if(
        dec.external_source_text is Some,
        DecorationStep::ExternalSourceText(dec.external_source_text->0@),
    );
    let c = step_if(dec.source_line is Some, DecorationStep::SourceLine(dec.source_line->0));
    let d = step_if(dec.soft_wrapped, DecorationStep::SoftWrapContinuation);
    let e = step_if(
        !dec.soft_wrapped && dec.copy_continuation,
        DecorationStep::CopyContinuation,
    );
    let f = step_if(dec.cell_selectable, DecorationStep::CellSelectable);
    let g = step_if(dec.block_selectable, DecorationStep::BlockSelectable);
    let h = step_if(copy_fill_bg && dec.fill_bg is Some, DecorationStep::FillBg(dec.fill_bg->0));
    lemma_marks(a + b + c + d + e + f + g, h, step);
    lemma_marks(a + b + c + d + e + f, g, step);
    lemma_marks(a + b + c + d + e, f, step);
    lemma_marks(a + b + c + d, e, step);
    lemma_marks(a + b + c, d, step);
    lemma_marks(a + b, c, step);
    lemma_marks(a, b, step);
    lemma_mark(dec.source_text is Some, DecorationStep::SourceText(dec.source_text->0@), step);
    lemma_mark(
        dec.external_source_text is Some,
        DecorationStep::ExternalSourceText(dec.external_source_text->0@),
        step,
    );
    lemma_mark(dec.source_line is Some, DecorationStep::SourceLine(dec.source_line->0), step);
    lemma_mark(dec.soft_wrapped, DecorationStep::SoftWrapContinuation, step);
    lemma_mark(
        !dec.soft_wrapped && dec.copy_continuation,
        DecorationStep::CopyContinuation,
        step,
    );
    lemma_mark(dec.cell_selectable, DecorationStep::CellSelectable, step);
    lemma_mark(dec.block_selectable, DecorationStep::BlockSelectable, step);
    lemma_mark(
        copy_fill_bg && dec.fill_bg is Some,
        DecorationStep::FillBg(dec.fill_bg->0),
        step,
    );
}

proof fn lemma_marks(a: Seq<DecorationStep>, b: Seq<DecorationStep>, step: DecorationStep)
    ensures
        (a + b).contains(step) <==> a.contains(step) || b.contains(step),
{
    if (a + b).contains(step) {
        let i = choose|i: int| 0 <= i < (a + b).len() && (a + b)[i] == step;
        if i < a.len() {
            assert(a[i] == step);
        } else {
            assert(b[i - a.len()] == step);
        }
    }
    if a.contains(step) {
        let i = choose|i: int| 0 <= i < a.len() && a[i] == step;
        assert((a + b)[i] == step);
    }
    if b.contains(step) {
        let i = choose|i: int| 0 <= i < b.len() && b[i] == step;
        assert((a + b)[a.len() + i] == step);
    }
}

proof fn lemma_mark(wanted: bool, one: DecorationStep, step: DecorationStep)
    ensures
        step_if(wanted, one).contains(step) <==> wanted && step == one,
{
    if wanted {
        assert(step_if(wanted, one)[0] == one);
    }
}

} // verus!
