//! Which rows of a block are shown where some of them are left out.
use vstd::prelude::*;
use crate::cap_rows::{capped, omitted_of, CapDirection, CapRow};
use crate::ir::{CapKeep, CapMarker, CapSpec};
use crate::view_state::{view_rows, ViewRow, ViewState};

verus! {

/// A block that is not longer than what a state keeps of it is shown whole. Of a longer one a
/// collapsed state keeps the first row, a trimmed one as many of the first or of the last as
/// it says; a note beside them, on the side where rows are missing, tells how many are.
pub proof fn state_shows_what_it_keeps(state: ViewState, total: usize)
    ensures
        ({
            let rows = view_rows(state, total as int);
            let keep = match state {
                ViewState::Expanded | ViewState::Peek => total,
                ViewState::Collapsed => 1,
                ViewState::TrimmedHead { keep } => keep as usize,
                ViewState::TrimmedTail { keep } => keep as usize,
            };
            let below = ViewRow::Ellipsis { hidden: (total - keep) as usize, above: false };
            let above = ViewRow::Ellipsis { hidden: (total - keep) as usize, above: true };
            if total <= keep {
                &&& rows.len() == total
                &&& forall|i: int|
                    0 <= i < total ==> #[trigger] rows[i] == (ViewRow::Source { row: i as usize })
            } else if state is TrimmedTail {
                &&& rows.len() == keep + 1
                &&& rows[0] == above
                &&& forall|i: int|
                    1 <= i <= keep ==> #[trigger] rows[i] == (ViewRow::Source {
                        row: (total - keep + i - 1) as usize,
                    })
            } else {
                &&& rows.len() == keep + 1
                &&& rows[keep as int] == below
                &&& forall|i: int|
                    0 <= i < keep ==> #[trigger] rows[i] == (ViewRow::Source { row: i as usize })
            }
        }),
{
}

/// A cap shows all rows of a child that has no more than the cap keeps. Of a longer one it
/// shows as many as it keeps: the first of them, the last, or the first few and then the last.
/// Its marker stands where it is asked for: above the rows, below them or between, and counts
/// the rows that are missing and those that are there.
pub proof fn cap_shows_the_rows_it_keeps(n: usize, spec: CapSpec, with_omitted: bool)
    ensures
        ({
            let rows = capped(n as int, spec, with_omitted);
            let keep = spec.rows as int;
            let marker = |direction: CapDirection, total: Option<u64>|
                CapRow::Marker {
                    skipped: (n - keep) as usize,
                    kept: keep as usize,
                    total,
                    direction,
                };
            if n <= keep {
                &&& rows.len() == n
                &&& forall|i: int| 0 <= i < n ==> #[trigger] rows[i] == CapRow::Child(i as usize)
            } else {
                match spec.keep {
                    CapKeep::Head { marker: None } => {
                        &&& rows.len() == keep
                        &&& forall|i: int|
                            0 <= i < keep ==> #[trigger] rows[i] == CapRow::Child(i as usize)
                    },
                    CapKeep::Head { marker: Some(CapMarker::Below) } => {
                        &&& rows.len() == keep + 1
                        &&& rows[keep] == marker(CapDirection::Below, None)
                        &&& forall|i: int|
                            0 <= i < keep ==> #[trigger] rows[i] == CapRow::Child(i as usize)
                    },
                    CapKeep::Head { marker: Some(CapMarker::Above) } => {
                        &&& rows.len() == keep + 1
                        &&& rows[0] == marker(CapDirection::Above, None)
                        &&& forall|i: int|
                            1 <= i <= keep ==> #[trigger] rows[i] == CapRow::Child((i - 1) as usize)
                    },
                    CapKeep::Tail { marker: None } => {
                        &&& rows.len() == keep
                        &&& forall|i: int|
                            0 <= i < keep ==> #[trigger] rows[i] == CapRow::Child(
                                (n - keep + i) as usize,
                            )
                    },
                    CapKeep::Tail { marker: Some(CapMarker::Below) } => {
                        &&& rows.len() == keep + 1
                        &&& rows[keep] == marker(CapDirection::Below, None)
                        &&& forall|i: int|
                            0 <= i < keep ==> #[trigger] rows[i] == CapRow::Child(
                                (n - keep + i) as usize,
                            )
                    },
                    CapKeep::Tail { marker: Some(CapMarker::Above) } => {
                        &&& rows.len() == keep + 1
                        &&& rows[0] == marker(
                            CapDirection::Above,
                            if spec.total_rows is Some && spec.total_rows->0 > keep {
                                spec.total_rows
                            } else {
                                None
                            },
                        )
                        &&& forall|i: int|
                            1 <= i <= keep ==> #[trigger] rows[i] == CapRow::Child(
                                (n - keep + i - 1) as usize,
                            )
                    },
                    CapKeep::HeadTail { head, marker: shown } => {
                        let first = if head <= keep {
                            head as int
                        } else {
                            keep
                        };
                        let extra: int = if shown && with_omitted {
                            1
                        } else {
                            0
                        };
                        &&& rows.len() == keep + extra
                        &&& shown && with_omitted ==> rows[first] == marker(
                            CapDirection::Omitted,
                            None,
                        )
                        &&& forall|i: int|
                            0 <= i < first ==> #[trigger] rows[i] == CapRow::Child(i as usize)
                        &&& forall|i: int|
                            first + extra <= i < rows.len() ==> #[trigger] rows[i]
                                == CapRow::Child((n - rows.len() + i) as usize)
                    },
                }
            }
        }),
{
}

/// The rows that a marker between first and last rows stands for are the rows that are not
/// shown, and no others.
pub proof fn marker_stands_for_the_missing_rows(n: usize, spec: CapSpec, row: usize)
    requires
        row < n,
    ensures
        omitted_of(n as int, spec) matches Some((start, end)) ==> ((start <= row < end)
            <==> !capped(n as int, spec, true).contains(CapRow::Child(row))),
{
    if let Some((start, end)) = omitted_of(n as int, spec) {
        let rows = capped(n as int, spec, true);
        cap_shows_the_rows_it_keeps(n, spec, true);
        if row < start {
            assert(rows[row as int] == CapRow::Child(row));
        } else if row >= end {
            let i = rows.len() - n + row;
            assert(rows[i] == CapRow::Child(row));
        } else if rows.contains(CapRow::Child(row)) {
            let i = choose|i: int| 0 <= i < rows.len() && rows[i] == CapRow::Child(row);
            if i < start {
            } else if i > start {
                assert(rows[i] == CapRow::Child((n - rows.len() + i) as usize));
            } else {
                assert(rows[start as int] is Marker);
            }
        }
    }
}

} // verus!
