//! How much of a block is shown: all of it, one line, or its head or tail.
use vstd::prelude::*;
use crate::numbers::{decimal, decimal_text};

verus! {

/// How much of a block is shown.
#[derive(Clone, Copy, Debug, PartialEq, Eq, Structural)]
#[allow(inconsistent_fields)]
pub enum ViewState {
    Expanded,
    Peek,
    Collapsed,
    TrimmedHead { keep: u16 },
    TrimmedTail { keep: u16 },
}

/// One row of a block as it is shown.
#[derive(Clone, Copy, Debug, PartialEq, Eq, Structural)]
#[allow(inconsistent_fields)]
pub enum ViewRow {
    /// Row `row` of the expanded block.
    Source { row: usize },
    /// A note on `hidden` rows that are not shown, `above` or below.
    Ellipsis { hidden: usize, above: bool },
}

/// The rows `start .. end` of the expanded block.
pub open spec fn source_rows(start: int, end: int) -> Seq<ViewRow> {
    Seq::new((end - start) as nat, |i: int| ViewRow::Source { row: (start + i) as usize })
}

/// The rows that a state shows of a block of `total` rows.
pub open spec fn view_rows(state: ViewState, total: int) -> Seq<ViewRow> {
    match state {
        ViewState::Collapsed if total > 1 => source_rows(0, 1).push(
            ViewRow::Ellipsis { hidden: (total - 1) as usize, above: false },
        ),
        ViewState::TrimmedHead { keep } if total > keep => source_rows(0, keep as int).push(
            ViewRow::Ellipsis { hidden: (total - keep) as usize, above: false },
        ),
        ViewState::TrimmedTail { keep } if total > keep => seq![
            ViewRow::Ellipsis { hidden: (total - keep) as usize, above: true },
        ] + source_rows(total - keep, total),
        _ => source_rows(0, total),
    }
}

/// Whether a state shows fewer rows than there are.
pub open spec fn elides(state: ViewState, total: int) -> bool {
    match state {
        ViewState::Expanded | ViewState::Peek => false,
        ViewState::Collapsed => total > 1,
        ViewState::TrimmedHead { keep } => total > keep,
        ViewState::TrimmedTail { keep } => total > keep,
    }
}

impl ViewState {
    /// The name that renderers know the state by.
    pub open spec fn spec_label(self) -> Seq<char> {
        match self {
            ViewState::Expanded => "expanded"@,
            ViewState::Peek => "peek"@,
            ViewState::Collapsed => "collapsed"@,
            ViewState::TrimmedHead { .. } => "trimmed_head"@,
            ViewState::TrimmedTail { .. } => "trimmed_tail"@,
        }
    }

    /// Whether the state hides any of `total` rows.
    pub fn elides_rows(self, total: u64) -> (r: bool)
        ensures
            r == elides(self, total as int),
    {
        match self {
            ViewState::Expanded | ViewState::Peek => false,
            ViewState::Collapsed => total > 1,
            ViewState::TrimmedHead { keep } => total > keep as u64,
            ViewState::TrimmedTail { keep } => total > keep as u64,
        }
    }

    /// Rows that are shown of a block of `total` rows.
    pub fn measured_height(self, total: u64) -> (rows: u64)
        ensures
            rows == view_rows(self, total as int).len(),
    {
        match self {
            ViewState::Collapsed if total > 1 => 2,
            ViewState::TrimmedHead { keep } if total > keep as u64 => keep as u64 + 1,
            ViewState::TrimmedTail { keep } if total > keep as u64 => keep as u64 + 1,
            _ => total,
        }
    }
}

/// The name that renderers know a state by.
pub fn view_state_label(view_state: ViewState) -> (label: &'static str)
    ensures
        label@ == view_state.spec_label(),
{
    match view_state {
        ViewState::Expanded => "expanded",
        ViewState::Peek => "peek",
        ViewState::Collapsed => "collapsed",
        ViewState::TrimmedHead { .. } => "trimmed_head",
        ViewState::TrimmedTail { .. } => "trimmed_tail",
    }
}

/// What the note on hidden rows says.
pub open spec fn ellipsis(hidden: nat, above: bool) -> Seq<char> {
    "… "@ + decimal(hidden) + if above {
        " more lines above"@
    } else {
        " more lines"@
    }
}

/// What the note on hidden rows says.
pub fn ellipsis_text(hidden: usize, above: bool) -> (text: String)
    ensures
        text@ == ellipsis(hidden as nat, above),
{
    let mut text = String::from_str("… ");
    text.append(decimal_text(hidden as u64).as_str());
    if above {
        text.append(" more lines above");
    } else {
        text.append(" more lines");
    }
    text
}

fn push_source_rows(rows: &mut Vec<ViewRow>, start: usize, end: usize)
    requires
        start <= end,
    ensures
        final(rows)@ == old(rows)@ + source_rows(start as int, end as int),
{
    let ghost before = rows@;
    let mut row: usize = start;
    proof {
        assert(before + source_rows(start as int, start as int) =~= before);
    }
    while row < end
        invariant
            start <= row <= end,
            before == old(rows)@,
            rows@ == before + source_rows(start as int, row as int),
        decreases end - row,
    {
        rows.push(ViewRow::Source { row });
        row += 1;
        proof {
            assert(rows@ =~= before + source_rows(start as int, row as int));
        }
    }
}

/// The part of `rows` in `start .. start + count`.
pub open spec fn view_range(rows: Seq<ViewRow>, start: usize, count: usize) -> Seq<ViewRow> {
    let from = if start < rows.len() {
        start as int
    } else {
        rows.len() as int
    };
    let to = if from + count < rows.len() {
        from + count
    } else {
        rows.len() as int
    };
    rows.subrange(from, to)
}

/// The rows `row_start .. row_start + row_count` of what a state shows of a block of
/// `total` rows.
#[verifier::rlimit(40)]
pub fn render_projected_view_range(
    view_state: ViewState,
    total: usize,
    row_start: usize,
    row_count: usize,
) -> (rows: Vec<ViewRow>)
    ensures
        rows@ == view_range(view_rows(view_state, total as int), row_start, row_count),
{
    let projected_total = view_state.measured_height(total as u64) as usize;
    let start = if row_start < projected_total {
        row_start
    } else {
        projected_total
    };
    let end = if row_count < projected_total - start {
        start + row_count
    } else {
        projected_total
    };
    let mut rows: Vec<ViewRow> = Vec::new();
    let ghost all = view_rows(view_state, total as int);
    proof {
        assert(all.len() == projected_total);
        assert(view_range(all, row_start, row_count) == all.subrange(start as int, end as int));
    }
    match view_state {
        ViewState::Collapsed if total > 1 => {
            if start == 0 && end > 0 {
                push_source_rows(&mut rows, 0, 1);
            }
            if start <= 1 && end > 1 {
                rows.push(ViewRow::Ellipsis { hidden: total - 1, above: false });
            }
            proof {
                assert(rows@ =~= all.subrange(start as int, end as int));
            }
        },
        ViewState::TrimmedHead { keep } if total > keep as usize => {
            let keep = keep as usize;
            let source_start = if start < keep {
                start
            } else {
                keep
            };
            let source_end = if end < keep {
                end
            } else {
                keep
            };
            if source_start < source_end {
                push_source_rows(&mut rows, source_start, source_end);
            }
            if start <= keep && end > keep {
                rows.push(ViewRow::Ellipsis { hidden: total - keep, above: false });
            }
            proof {
                assert(rows@ =~= all.subrange(start as int, end as int));
            }
        },
        ViewState::TrimmedTail { keep } if total > keep as usize => {
            let keep = keep as usize;
            if start == 0 && end > 0 {
                rows.push(ViewRow::Ellipsis { hidden: total - keep, above: true });
            }
            let source_start = if start > 1 {
                start
            } else {
                1
            };
            if source_start < end {
                let from = (total - keep) + (source_start - 1);
                push_source_rows(&mut rows, from, from + (end - source_start));
            }
            proof {
                assert(rows@ =~= all.subrange(start as int, end as int));
            }
        },
        _ => {
            push_source_rows(&mut rows, start, end);
            proof {
                assert(rows@ =~= all.subrange(start as int, end as int));
            }
        },
    }
    rows
}

/// One line of a block as it is shown.
#[derive(Debug)]
pub enum ViewLine<T> {
    Row(T),
    Ellipsis(String),
}

/// `line` is what `row` stands for, among the lines of the expanded block.
pub open spec fn shows<T>(line: ViewLine<T>, row: ViewRow, lines: Seq<T>) -> bool {
    match row {
        ViewRow::Source { row } => line == ViewLine::Row(lines[row as int]),
        ViewRow::Ellipsis { hidden, above } => {
            &&& line matches ViewLine::Ellipsis(text)
            &&& text@ == ellipsis(hidden as nat, above)
        },
    }
}

fn push_lines<T: Copy>(out: &mut Vec<ViewLine<T>>, lines: &Vec<T>, start: usize, end: usize)
    requires
        start <= end <= lines@.len(),
    ensures
        final(out)@.len() == old(out)@.len() + (end - start),
        forall|i: int| 0 <= i < old(out)@.len() ==> final(out)@[i] == old(out)@[i],
        forall|i: int|
            0 <= i < end - start ==> #[trigger] final(out)@[old(out)@.len() + i] == ViewLine::Row(
                lines@[start + i],
            ),
{
    let ghost before = out@;
    let mut row: usize = start;
    while row < end
        invariant
            start <= row <= end <= lines@.len(),
            before == old(out)@,
            out@.len() == before.len() + (row - start),
            forall|i: int| 0 <= i < before.len() ==> out@[i] == before[i],
            forall|i: int|
                0 <= i < row - start ==> #[trigger] out@[before.len() + i] == ViewLine::Row(
                    lines@[start + i],
                ),
        decreases end - row,
    {
        out.push(ViewLine::Row(lines[row]));
        row += 1;
    }
}

/// Cuts the last `total` lines, those of an expanded block, down to what a state shows
/// of them. The lines before them stay.
pub fn apply_view_state<T: Copy>(
    lines: &Vec<T>,
    total: usize,
    state: ViewState,
) -> (out: Vec<ViewLine<T>>)
    requires
        total <= lines@.len(),
    ensures
        ({
            let start = lines@.len() - total;
            let rows = view_rows(state, total as int);
            &&& out@.len() == start + rows.len()
            &&& forall|i: int| 0 <= i < start ==> #[trigger] out@[i] == ViewLine::Row(lines@[i])
            &&& forall|i: int|
                0 <= i < rows.len() ==> shows(
                    #[trigger] out@[start + i],
                    rows[i],
                    lines@.skip(start),
                )
        }),
{
    let start = lines.len() - total;
    let mut out: Vec<ViewLine<T>> = Vec::new();
    push_lines(&mut out, lines, 0, start);
    proof {
        assert forall|i: int| 0 <= i < start implies #[trigger] out@[i] == ViewLine::Row(
            lines@[i],
        ) by {
            assert(out@[0 + i] == ViewLine::Row(lines@[0 + i]));
        }
    }
    if !state.elides_rows(total as u64) {
        push_lines(&mut out, lines, start, start + total);
        return out;
    }
    match state {
        ViewState::Expanded | ViewState::Peek => {},
        ViewState::Collapsed => {
            push_lines(&mut out, lines, start, start + 1);
            proof {
                let z: int = 0;
                assert(out@[start + z] == ViewLine::Row(lines@[start + z]));
            }
            out.push(ViewLine::Ellipsis(ellipsis_text(total - 1, false)));
        },
        ViewState::TrimmedHead { keep } => {
            let keep = keep as usize;
            push_lines(&mut out, lines, start, start + keep);
            proof {
                assert forall|i: int| 0 <= i < keep implies #[trigger] out@[start + i]
                    == ViewLine::Row(lines@[start + i]) by {}
            }
            out.push(ViewLine::Ellipsis(ellipsis_text(total - keep, false)));
        },
        ViewState::TrimmedTail { keep } => {
            let keep = keep as usize;
            out.push(ViewLine::Ellipsis(ellipsis_text(total - keep, true)));
            push_lines(&mut out, lines, start + (total - keep), start + total);
            proof {
                assert forall|i: int| 1 <= i < keep + 1 implies #[trigger] out@[start + i]
                    == ViewLine::Row(lines@.skip(start as int)[total - keep + i - 1]) by {
                    assert(out@[(start + 1) + (i - 1)] == ViewLine::Row(
                        lines@[start + (total - keep) + (i - 1)],
                    ));
                }
            }
        },
    }
    out
}

/// What drawing rows came to.
#[derive(Clone, Copy, Debug, PartialEq, Eq, Structural)]
pub struct Outcome {
    pub line_count: usize,
    pub was_wrapped: bool,
    pub max_line_width: u16,
    pub layout_width: u16,
}

/// What drawing a block came to, once it is cut down to what `state` shows: `outcome`
/// is that of the expanded block, `added` that of the note on hidden rows.
pub fn view_outcome(state: ViewState, outcome: Outcome, added: Outcome) -> (r: Outcome)
    ensures
        r.line_count == view_rows(state, outcome.line_count as int).len(),
        r.layout_width == outcome.layout_width,
        elides(state, outcome.line_count as int) && !(state is TrimmedTail) ==> {
            &&& r.was_wrapped == (outcome.was_wrapped || added.was_wrapped)
            &&& r.max_line_width == if outcome.max_line_width > added.max_line_width {
                outcome.max_line_width
            } else {
                added.max_line_width
            }
        },
        !elides(state, outcome.line_count as int) || state is TrimmedTail ==> {
            &&& r.was_wrapped == outcome.was_wrapped
            &&& r.max_line_width == outcome.max_line_width
        },
{
    let line_count = state.measured_height(outcome.line_count as u64) as usize;
    let tail = match state {
        ViewState::TrimmedTail { .. } => true,
        _ => false,
    };
    if !state.elides_rows(outcome.line_count as u64) || tail {
        return Outcome { line_count, ..outcome };
    }
    Outcome {
        line_count,
        was_wrapped: outcome.was_wrapped || added.was_wrapped,
        max_line_width: if outcome.max_line_width > added.max_line_width {
            outcome.max_line_width
        } else {
            added.max_line_width
        },
        layout_width: outcome.layout_width,
    }
}

/// A state never shows a row twice nor out of order, and says truly how many rows it
/// hides.
pub proof fn hidden_and_shown_make_all(state: ViewState, total: int)
    requires
        0 <= total <= usize::MAX,
    ensures
        ({
            let rows = view_rows(state, total);
            &&& forall|i: int, j: int|
                0 <= i < j < rows.len() && rows[i] is Source && rows[j] is Source
                    ==> rows[i]->row < rows[j]->row
            &&& forall|i: int| 0 <= i < rows.len() && rows[i] is Source ==> rows[i]->row < total
            &&& elides(state, total) ==> exists|i: int|
                0 <= i < rows.len() && (#[trigger] rows[i]) is Ellipsis && rows[i]->hidden
                    + rows.len() - 1 == total
            &&& !elides(state, total) ==> rows == source_rows(0, total)
        }),
{
    let rows = view_rows(state, total);
    match state {
        ViewState::Collapsed if total > 1 => {
            assert(rows[1] is Ellipsis);
        },
        ViewState::TrimmedHead { keep } if total > keep => {
            assert(rows[keep as int] is Ellipsis);
        },
        ViewState::TrimmedTail { keep } if total > keep => {
            assert(rows[0] is Ellipsis);
        },
        _ => {},
    }
}

} // verus!
