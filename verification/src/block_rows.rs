//! The rows of a block as a view state shows it: rows of its layout, and a note on those that
//! are hidden.
use vstd::prelude::*;
use crate::host::{LayoutHost, Metrics};
use crate::ir::{
    Constraint, ContentTextWindow, IrLeaf, LayoutIr, RetainedContentSpec, RowPrefixSpec, RunsSpec,
};
use crate::plan::{is_plan, plan_has_layout_rows, MeasuredLayout};
use crate::render::{range_rows, same_shape, RenderMeasurement};
use crate::render_laws::{draws_as_measured, range_draws_measured_rows, rows_within};
use crate::rows::{rows_view, RowOp};
use crate::window_laws::{draws_steadily, row_alone_is_row_in_range};
use crate::view_state::{
    ellipsis, ellipsis_text, render_projected_view_range, view_range, view_rows, ViewRow, ViewState,
};

verus! {

/// A row of a block as it is shown.
#[derive(Debug)]
pub enum BlockRow<'a> {
    Layout(Vec<RowOp<'a>>),
    Note(String),
}

/// A row of a block as it is shown, as mathematical values.
pub enum ShownRow<'a> {
    Layout(Seq<RowOp<'a>>),
    Note(Seq<char>),
}

impl<'a> View for BlockRow<'a> {
    type V = ShownRow<'a>;

    open spec fn view(&self) -> ShownRow<'a> {
        match self {
            BlockRow::Layout(row) => ShownRow::Layout(row@),
            BlockRow::Note(text) => ShownRow::Note(text@),
        }
    }
}

/// Some rows, as mathematical values.
pub open spec fn shown<'a>(rows: Seq<BlockRow<'a>>) -> Seq<ShownRow<'a>> {
    rows.map_values(|row: BlockRow<'a>| row@)
}

/// Rows of a layout.
pub open spec fn layout_part<'a>(rows: Seq<Seq<RowOp<'a>>>) -> Seq<ShownRow<'a>> {
    rows.map_values(|row: Seq<RowOp<'a>>| ShownRow::Layout(row))
}

/// The note in a row, if it stands above or below.
pub open spec fn note_part<'a>(row: ViewRow, above: bool) -> Seq<ShownRow<'a>> {
    match row {
        ViewRow::Ellipsis { hidden, above: at } if at == above => seq![
            ShownRow::Note(ellipsis(hidden as nat, above)),
        ],
        _ => Seq::empty(),
    }
}

/// Where the rows of the layout begin among some rows.
pub open spec fn first_source(rows: Seq<ViewRow>) -> int {
    if rows.len() > 0 && (rows[0] is Ellipsis) && rows[0]->above {
        1
    } else {
        0
    }
}

/// Where they end.
pub open spec fn end_source(rows: Seq<ViewRow>) -> int {
    if rows.len() > 0 && (rows.last() is Ellipsis) && !rows.last()->above {
        rows.len() - 1
    } else {
        rows.len() as int
    }
}

/// Which rows of the layout are among some rows: the first, and how many.
pub open spec fn source_part(rows: Seq<ViewRow>) -> (usize, usize) {
    let from = first_source(rows);
    let to = end_source(rows);
    if from < to {
        match rows[from] {
            ViewRow::Source { row } => (row, (to - from) as usize),
            ViewRow::Ellipsis { .. } => (0, 0),
        }
    } else {
        (0, 0)
    }
}

/// The rows of a block that a view state shows of the `row_count` rows from `row_start` on.
pub open spec fn block_rows<'a>(
    m: Metrics,
    layout: &'a LayoutIr,
    measured: MeasuredLayout,
    width: u16,
    state: ViewState,
    row_start: usize,
    row_count: usize,
) -> Seq<ShownRow<'a>> {
    if row_count == 0 {
        Seq::empty()
    } else if state == ViewState::Expanded {
        layout_part(
            range_rows(
                m,
                layout,
                width,
                row_start,
                row_count,
                None,
                RenderMeasurement::Measured(&measured),
            ),
        )
    } else {
        let rows = view_range(view_rows(state, measured.rows as int), row_start, row_count);
        let part = source_part(rows);
        let body = layout_part(
            range_rows(
                m,
                layout,
                width,
                part.0,
                part.1,
                None,
                RenderMeasurement::Measured(&measured),
            ),
        );
        if rows.len() == 0 {
            body
        } else {
            note_part(rows[0], true) + body + note_part(rows.last(), false)
        }
    }
}

fn add_layout_rows<'a>(out: &mut Vec<BlockRow<'a>>, rows: Vec<Vec<RowOp<'a>>>)
    ensures
        shown(final(out)@) == shown(old(out)@) + layout_part(rows_view(rows@)),
{
    let ghost before = shown(out@);
    let ghost all = rows@;
    let mut rows = rows;
    let total: usize = rows.len();
    let mut left: usize = total;
    proof {
        assert(shown(out@) =~= before + layout_part(rows_view(all.take(0))));
    }
    while left > 0
        invariant
            left == rows@.len(),
            left <= total,
            total == all.len(),
            rows@ == all.skip(total - left),
            shown(out@) == before + layout_part(rows_view(all.take(total - left))),
        decreases left,
    {
        let ghost passed = total - left;
        let ghost done = out@;
        let row = rows.remove(0);
        let ghost ops = row@;
        out.push(BlockRow::Layout(row));
        left -= 1;
        proof {
            assert(rows@ =~= all.skip(passed + 1));
            assert(all[passed]@ == ops);
            assert(all.take(passed + 1) =~= all.take(passed).push(all[passed]));
            assert(rows_view(all.take(passed + 1)) =~= rows_view(all.take(passed)).push(ops));
            assert(layout_part(rows_view(all.take(passed + 1))) =~= layout_part(
                rows_view(all.take(passed)),
            ).push(ShownRow::Layout(ops)));
            assert(shown(out@) =~= shown(done).push(ShownRow::Layout(ops)));
            assert(shown(out@) =~= before + layout_part(rows_view(all.take(passed + 1))));
        }
    }
    proof {
        assert(all.take(total as int) =~= all);
    }
}

fn add_note<'a>(out: &mut Vec<BlockRow<'a>>, row: ViewRow, above: bool)
    ensures
        shown(final(out)@) == shown(old(out)@) + note_part(row, above),
{
    let ghost before = shown(out@);
    if let ViewRow::Ellipsis { hidden, above: at } = row {
        if at == above {
            out.push(BlockRow::Note(ellipsis_text(hidden, above)));
        }
    }
    proof {
        assert(shown(out@) =~= before + note_part(row, above));
    }
}

fn source_range(rows: &Vec<ViewRow>) -> (part: (usize, usize))
    ensures
        part == source_part(rows@),
{
    if rows.len() == 0 {
        return (0, 0);
    }
    let last = rows.len() - 1;
    let from: usize = match rows[0] {
        ViewRow::Ellipsis { above: true, .. } => 1,
        _ => 0,
    };
    let to: usize = match rows[last] {
        ViewRow::Ellipsis { above: false, .. } => last,
        _ => rows.len(),
    };
    if from < to {
        match rows[from] {
            ViewRow::Source { row } => (row, to - from),
            ViewRow::Ellipsis { .. } => (0, 0),
        }
    } else {
        (0, 0)
    }
}

impl<
    A: Fn(&IrLeaf, u16, u16) -> usize,
    B: Fn(&RunsSpec, &RowPrefixSpec, u16) -> usize,
    C: Fn(&RetainedContentSpec, u16, usize) -> ContentTextWindow,
    D: Fn(u64) -> usize,
    E: Fn(&Vec<Constraint>, &Vec<u16>, u16) -> Vec<u16>,
    F: Fn(&IrLeaf, u16, usize, usize) -> bool,
    G: Fn(&LayoutIr, u16, usize, usize) -> bool,
> LayoutHost<A, B, C, D, E, F, G> {
    /// The rows of a block that a view state shows of the `row_count` rows from `row_start`
    /// on.
    pub fn render_block_range<'a>(
        &self,
        layout: &'a LayoutIr,
        measured: &MeasuredLayout,
        width: u16,
        state: ViewState,
        row_start: usize,
        row_count: usize,
    ) -> (rows: Vec<BlockRow<'a>>)
        requires
            self.wf(),
            same_shape(*layout, *measured),
        ensures
            shown(rows@) == block_rows(
                self.metrics(),
                layout,
                *measured,
                width,
                state,
                row_start,
                row_count,
            ),
    {
        let mut out: Vec<BlockRow<'a>> = Vec::new();
        proof {
            assert(shown(out@) =~= Seq::<ShownRow<'a>>::empty());
        }
        if row_count == 0 {
            return out;
        }
        if state == ViewState::Expanded {
            let rows = self.render_layout_ir_range_into_measured(
                layout,
                measured,
                width,
                row_start,
                row_count,
            );
            add_layout_rows(&mut out, rows);
            proof {
                assert(shown(out@) =~= block_rows(
                    self.metrics(),
                    layout,
                    *measured,
                    width,
                    state,
                    row_start,
                    row_count,
                ));
            }
            return out;
        }
        let view = render_projected_view_range(state, measured.rows(), row_start, row_count);
        let (first, count) = source_range(&view);
        let rows = self.render_layout_ir_range_into_measured(layout, measured, width, first, count);
        if view.len() > 0 {
            add_note(&mut out, view[0], true);
        }
        add_layout_rows(&mut out, rows);
        if view.len() > 0 {
            add_note(&mut out, view[view.len() - 1], false);
        }
        proof {
            assert(shown(out@) =~= block_rows(
                self.metrics(),
                layout,
                *measured,
                width,
                state,
                row_start,
                row_count,
            ));
        }
        out
    }
}

proof fn lemma_view_parts(state: ViewState, total: int, row_start: usize, row_count: usize)
    requires
        0 <= total <= usize::MAX,
    ensures
        ({
            let rows = view_range(view_rows(state, total), row_start, row_count);
            let part = source_part(rows);
            &&& part.1 <= row_count
            &&& part.1 > 0 ==> part.0 + part.1 <= total
            &&& rows.len() == 0 ==> part.1 == 0
            &&& rows.len() > 0 ==> rows.len() == note_part(rows[0], true).len() + part.1
                + note_part(rows.last(), false).len()
            &&& state == ViewState::Expanded ==> rows.len() == rows_within(
                total,
                row_start as int,
                row_count as int,
            )
        }),
{
    let rows = view_range(view_rows(state, total), row_start, row_count);
    match state {
        ViewState::Collapsed if total > 1 => {
            assert(view_rows(state, total)[0] == ViewRow::Source { row: 0 });
        },
        ViewState::TrimmedHead { keep } if total > keep => {
            assert(forall|i: int|
                0 <= i < keep ==> #[trigger] view_rows(state, total)[i] == (ViewRow::Source {
                    row: i as usize,
                }));
        },
        ViewState::TrimmedTail { keep } if total > keep => {
            assert(forall|i: int|
                1 <= i <= keep ==> #[trigger] view_rows(state, total)[i] == (ViewRow::Source {
                    row: (total - keep + (i - 1)) as usize,
                }));
        },
        _ => {
            assert(forall|i: int|
                0 <= i < total ==> #[trigger] view_rows(state, total)[i] == (ViewRow::Source {
                    row: i as usize,
                }));
        },
    }
}

/// A block shows as many rows as its view state leaves of the rows that its layout was
/// measured to have.
pub proof fn block_shows_projected_rows(
    m: Metrics,
    layout: &LayoutIr,
    measured: MeasuredLayout,
    width: u16,
    state: ViewState,
    row_start: usize,
    row_count: usize,
)
    requires
        is_plan(m, *layout, measured, width, 0),
        draws_as_measured(m, layout, width, None),
        view_range(view_rows(state, measured.rows as int), row_start, row_count).len() <= u16::MAX,
    ensures
        block_rows(m, layout, measured, width, state, row_start, row_count).len() == view_range(
            view_rows(state, measured.rows as int),
            row_start,
            row_count,
        ).len(),
{
    plan_has_layout_rows(m, *layout, measured, width, 0);
    if row_count > 0 {
        let total = measured.rows as int;
        let rows = view_range(view_rows(state, total), row_start, row_count);
        lemma_view_parts(state, total, row_start, row_count);
        if state == ViewState::Expanded {
            range_draws_measured_rows(m, layout, measured, width, row_start, row_count);
        } else {
            let part = source_part(rows);
            range_draws_measured_rows(m, layout, measured, width, part.0, part.1);
        }
    }
}

/// Row `row` of a block on its own.
spec fn shown_row_at<'a>(
    m: Metrics,
    layout: &'a LayoutIr,
    measured: MeasuredLayout,
    width: u16,
    row: ViewRow,
) -> ShownRow<'a> {
    match row {
        ViewRow::Source { row } => ShownRow::Layout(
            range_rows(
                m,
                layout,
                width,
                row,
                1,
                None,
                RenderMeasurement::Measured(&measured),
            )[0],
        ),
        ViewRow::Ellipsis { hidden, above } => ShownRow::Note(ellipsis(hidden as nat, above)),
    }
}

proof fn lemma_source_run(
    state: ViewState,
    total: int,
    row_start: usize,
    row_count: usize,
    i: int,
)
    requires
        0 <= total <= usize::MAX,
        0 <= i < view_range(view_rows(state, total), row_start, row_count).len(),
    ensures
        ({
            let rows = view_range(view_rows(state, total), row_start, row_count);
            let from = first_source(rows);
            let part = source_part(rows);
            &&& i < from ==> rows[i] is Ellipsis && rows[i]->above
            &&& from <= i < end_source(rows) ==> part.1 == end_source(rows) - from && rows[i] == (
            ViewRow::Source { row: (part.0 + (i - from)) as usize })
            &&& i >= end_source(rows) ==> i == rows.len() - 1 && rows[i] is Ellipsis
                && !rows[i]->above
        }),
{
    let all = view_rows(state, total);
    let rows = view_range(all, row_start, row_count);
    match state {
        ViewState::Collapsed if total > 1 => {
            assert(all[0] == ViewRow::Source { row: 0 });
        },
        ViewState::TrimmedHead { keep } if total > keep => {
            assert(forall|k: int|
                0 <= k < keep ==> #[trigger] all[k] == (ViewRow::Source { row: k as usize }));
        },
        ViewState::TrimmedTail { keep } if total > keep => {
            assert(forall|k: int|
                1 <= k <= keep ==> #[trigger] all[k] == (ViewRow::Source {
                    row: (total - keep + (k - 1)) as usize,
                }));
        },
        _ => {
            assert(forall|k: int|
                0 <= k < total ==> #[trigger] all[k] == (ViewRow::Source { row: k as usize }));
        },
    }
}

proof fn lemma_block_row_alone(
    m: Metrics,
    layout: &LayoutIr,
    measured: MeasuredLayout,
    width: u16,
    state: ViewState,
    row_start: usize,
    row_count: usize,
    i: int,
)
    requires
        is_plan(m, *layout, measured, width, 0),
        draws_steadily(m, layout, width, None),
        view_range(view_rows(state, measured.rows as int), row_start, row_count).len() <= u16::MAX,
        0 <= i < view_range(view_rows(state, measured.rows as int), row_start, row_count).len(),
    ensures
        block_rows(m, layout, measured, width, state, row_start, row_count)[i] == shown_row_at(
            m,
            layout,
            measured,
            width,
            view_range(view_rows(state, measured.rows as int), row_start, row_count)[i],
        ),
{
    let total = measured.rows as int;
    let rows = view_range(view_rows(state, total), row_start, row_count);
    lemma_view_parts(state, total, row_start, row_count);
    lemma_source_run(state, total, row_start, row_count, i);
    block_shows_projected_rows(m, layout, measured, width, state, row_start, row_count);
    if state == ViewState::Expanded {
        row_alone_is_row_in_range(m, layout, measured, width, row_start, row_count, i);
    } else {
        let part = source_part(rows);
        let from = first_source(rows);
        plan_has_layout_rows(m, *layout, measured, width, 0);
        range_draws_measured_rows(m, layout, measured, width, part.0, part.1);
        if from <= i < end_source(rows) {
            row_alone_is_row_in_range(m, layout, measured, width, part.0, part.1, i - from);
        }
    }
}

/// The rows `start .. start + count` of what is shown, as far as there are any.
pub open spec fn shown_cut<'a>(rows: Seq<ShownRow<'a>>, start: usize, count: usize) -> Seq<
    ShownRow<'a>,
> {
    let end = if start.saturating_add(count) < rows.len() {
        start.saturating_add(count) as int
    } else {
        rows.len() as int
    };
    if start < end {
        rows.subrange(start as int, end)
    } else {
        Seq::empty()
    }
}

/// A range of a block is the same range of all that the block shows, in every view state. The
/// note on hidden rows counts as a row like any other.
pub proof fn block_range_is_cut_of_whole(
    m: Metrics,
    layout: &LayoutIr,
    measured: MeasuredLayout,
    width: u16,
    state: ViewState,
    row_start: usize,
    row_count: usize,
)
    requires
        is_plan(m, *layout, measured, width, 0),
        draws_steadily(m, layout, width, None),
        view_rows(state, measured.rows as int).len() <= u16::MAX,
    ensures
        ({
            let whole = block_rows(m, layout, measured, width, state, 0, usize::MAX);
            &&& whole.len() == view_rows(state, measured.rows as int).len()
            &&& block_rows(m, layout, measured, width, state, row_start, row_count) == shown_cut(
                whole,
                row_start,
                row_count,
            )
        }),
{
    let all = view_rows(state, measured.rows as int);
    let whole = block_rows(m, layout, measured, width, state, 0, usize::MAX);
    let some = block_rows(m, layout, measured, width, state, row_start, row_count);
    let shown = view_range(all, row_start, row_count);
    assert(view_range(all, 0, usize::MAX) =~= all);
    block_shows_projected_rows(m, layout, measured, width, state, 0, usize::MAX);
    block_shows_projected_rows(m, layout, measured, width, state, row_start, row_count);
    let cut = shown_cut(whole, row_start, row_count);
    assert(some.len() == cut.len());
    assert forall|i: int| 0 <= i < some.len() implies some[i] == cut[i] by {
        lemma_block_row_alone(m, layout, measured, width, state, row_start, row_count, i);
        lemma_block_row_alone(m, layout, measured, width, state, 0, usize::MAX, row_start + i);
        assert(shown[i] == all[row_start + i]);
    }
    assert(some =~= cut);
}

} // verus!
