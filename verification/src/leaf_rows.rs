//! Which rows of which lines are drawn, where lines take several rows each.
use vstd::prelude::*;
use crate::line_ops::{add_op_if, steps, op_if, LineOp, LineStep};

verus! {

/// The rows of one line that are drawn, and whether it shows that lines are wrapped.
#[derive(Clone, Copy, Debug, PartialEq, Eq, Structural)]
pub struct LineRows {
    pub wrapped: bool,
    pub from: usize,
    pub to: usize,
}

/// Rows of the lines before line `i`.
pub open spec fn rows_before(counts: Seq<usize>, i: int) -> int
    decreases i,
{
    if i <= 0 {
        0
    } else {
        rows_before(counts, i - 1) + counts[i - 1]
    }
}

/// Rows of all lines.
pub open spec fn rows_in_all(counts: Seq<usize>) -> int {
    rows_before(counts, counts.len() as int)
}

/// More rows than can be counted are no bound.
pub open spec fn is_bounded(row_count: usize) -> bool {
    row_count <= u16::MAX
}

/// `n`, within `0 ..= max`.
pub open spec fn within(n: int, max: int) -> int {
    if n < 0 {
        0
    } else if n > max {
        max
    } else {
        n
    }
}

/// The rows of line `i` that are drawn of the `row_count` rows from `row_start` on. A line
/// shows that lines are wrapped where the rows drawn do not end before it.
pub open spec fn line_rows(
    counts: Seq<usize>,
    row_start: usize,
    row_count: usize,
    i: int,
) -> LineRows {
    let before = rows_before(counts, i);
    let count = counts[i] as int;
    LineRows {
        wrapped: count > 1 && (!is_bounded(row_count) || before <= row_start + row_count),
        from: within(row_start - before, count) as usize,
        to: (if is_bounded(row_count) {
            within(row_start + row_count - before, count)
        } else {
            count
        }) as usize,
    }
}

pub(crate) proof fn lemma_rows_before(counts: Seq<usize>, m: int, n: int)
    requires
        0 <= m <= n,
    ensures
        0 <= rows_before(counts, m) <= rows_before(counts, n),
    decreases n,
{
    if n > 0 {
        if m < n {
            lemma_rows_before(counts, m, n - 1);
        } else {
            lemma_rows_before(counts, m - 1, n - 1);
        }
    }
}

/// So many rows, as far as a machine can count them.
pub open spec fn clamped_rows(rows: int) -> usize {
    if rows > usize::MAX {
        usize::MAX
    } else if rows < 0 {
        0
    } else {
        rows as usize
    }
}

/// How many rows all lines take, as far as they can be counted.
pub fn total_rows(counts: &Vec<usize>) -> (total: usize)
    ensures
        total == clamped_rows(rows_in_all(counts@)),
{
    let mut total: usize = 0;
    let mut i: usize = 0;
    while i < counts.len()
        invariant
            i <= counts@.len(),
            0 <= rows_before(counts@, i as int),
            total == clamped_rows(rows_before(counts@, i as int)),
        decreases counts@.len() - i,
    {
        total = total.saturating_add(counts[i]);
        i += 1;
    }
    total
}

/// The rows of each line that are drawn of the `row_count` rows from `row_start` on.
pub fn plan_rows(counts: &Vec<usize>, row_start: usize, row_count: usize) -> (plan: Vec<LineRows>)
    requires
        rows_in_all(counts@) <= usize::MAX,
    ensures
        plan@.len() == counts@.len(),
        forall|i: int|
            0 <= i < counts@.len() ==> #[trigger] plan@[i] == line_rows(
                counts@,
                row_start,
                row_count,
                i,
            ),
{
    let bounded = row_count <= u16::MAX as usize;
    let mut plan: Vec<LineRows> = Vec::new();
    let mut before: usize = 0;
    let mut i: usize = 0;
    while i < counts.len()
        invariant
            i <= counts@.len(),
            rows_in_all(counts@) <= usize::MAX,
            bounded == is_bounded(row_count),
            before == rows_before(counts@, i as int),
            plan@.len() == i,
            forall|k: int|
                0 <= k < i ==> #[trigger] plan@[k] == line_rows(
                    counts@,
                    row_start,
                    row_count,
                    k,
                ),
        decreases counts@.len() - i,
    {
        let count = counts[i];
        proof {
            lemma_rows_before(counts@, i + 1, counts@.len() as int);
        }
        let from: usize = if before >= row_start {
            0
        } else if row_start - before > count {
            count
        } else {
            row_start - before
        };
        let to: usize = if !bounded {
            count
        } else if before >= row_start {
            let passed = before - row_start;
            if passed >= row_count {
                0
            } else if row_count - passed > count {
                count
            } else {
                row_count - passed
            }
        } else {
            let ahead = row_start - before;
            if ahead >= count || row_count > count - ahead {
                count
            } else {
                ahead + row_count
            }
        };
        let reached = !bounded || before <= row_start || before - row_start <= row_count;
        plan.push(LineRows { wrapped: count > 1 && reached, from, to });
        before = before + count;
        i += 1;
    }
    plan
}

/// Rows that are drawn of the first `n` lines.
pub open spec fn drawn_before(
    counts: Seq<usize>,
    row_start: usize,
    row_count: usize,
    n: int,
) -> int
    decreases n,
{
    if n <= 0 {
        0
    } else {
        let rows = line_rows(counts, row_start, row_count, n - 1);
        drawn_before(counts, row_start, row_count, n - 1) + (rows.to - rows.from)
    }
}

/// As many rows are drawn as are asked for, or as there are from where drawing starts.
pub proof fn drawn_rows_are_those_asked_for(
    counts: Seq<usize>,
    row_start: usize,
    row_count: usize,
    n: int,
)
    requires
        0 <= n <= counts.len(),
    ensures
        ({
            let there = within(rows_before(counts, n) - row_start, rows_before(counts, n));
            drawn_before(counts, row_start, row_count, n) == if is_bounded(row_count) && there
                > row_count {
                row_count as int
            } else {
                there
            }
        }),
    decreases n,
{
    lemma_rows_before(counts, 0, n);
    if n > 0 {
        drawn_rows_are_those_asked_for(counts, row_start, row_count, n - 1);
        lemma_rows_before(counts, n - 1, n);
    }
}

/// What the rows `from .. to` of line `i` are drawn with.
pub open spec fn rows_steps(
    row: spec_fn(int, int) -> Seq<LineStep>,
    i: int,
    from: int,
    to: int,
) -> Seq<LineStep>
    decreases to - from,
{
    if to <= from {
        Seq::empty()
    } else {
        rows_steps(row, i, from, to - 1) + row(i, to - 1)
    }
}

/// What the first `n` lines are drawn with.
pub open spec fn drawn_lines(
    counts: Seq<usize>,
    row_start: usize,
    row_count: usize,
    row: spec_fn(int, int) -> Seq<LineStep>,
    n: int,
) -> Seq<LineStep>
    decreases n,
{
    if n <= 0 {
        Seq::empty()
    } else {
        let rows = line_rows(counts, row_start, row_count, n - 1);
        drawn_lines(counts, row_start, row_count, row, n - 1) + op_if(
            rows.wrapped,
            LineStep::MarkWrapped,
        ) + rows_steps(row, n - 1, rows.from as int, rows.to as int)
    }
}

/// What the `row_count` rows from `row_start` on are drawn with.
pub open spec fn drawn(
    counts: Seq<usize>,
    row_start: usize,
    row_count: usize,
    row: spec_fn(int, int) -> Seq<LineStep>,
) -> Seq<LineStep> {
    drawn_lines(counts, row_start, row_count, row, counts.len() as int)
}

/// Draws the `row_count` rows from `row_start` on, each as `draw` says.
pub(crate) fn draw_rows<D: Fn(usize, usize) -> Vec<LineOp>>(
    counts: &Vec<usize>,
    row_start: usize,
    row_count: usize,
    draw: &D,
    row: Ghost<spec_fn(int, int) -> Seq<LineStep>>,
) -> (ops: Vec<LineOp>)
    requires
        rows_in_all(counts@) <= usize::MAX,
        forall|i: usize, r: usize|
            i < counts@.len() && r < counts@[i as int] ==> #[trigger] call_requires(
                *draw,
                (i, r),
            ),
        forall|i: usize, r: usize, out: Vec<LineOp>|
            i < counts@.len() && r < counts@[i as int] && #[trigger] call_ensures(
                *draw,
                (i, r),
                out,
            ) ==> steps(out@) == row@(i as int, r as int),
    ensures
        steps(ops@) == drawn(counts@, row_start, row_count, row@),
{
    let plan = plan_rows(counts, row_start, row_count);
    let mut ops: Vec<LineOp> = Vec::new();
    let mut i: usize = 0;
    proof {
        assert(steps(ops@) =~= Seq::<LineStep>::empty());
    }
    while i < counts.len()
        invariant
            i <= counts@.len(),
            plan@.len() == counts@.len(),
            forall|i: int|
                0 <= i < counts@.len() ==> #[trigger] plan@[i] == line_rows(
                    counts@,
                    row_start,
                    row_count,
                    i,
                ),
            forall|i: usize, r: usize|
                i < counts@.len() && r < counts@[i as int] ==> #[trigger] call_requires(
                    *draw,
                    (i, r),
                ),
            forall|i: usize, r: usize, out: Vec<LineOp>|
                i < counts@.len() && r < counts@[i as int] && #[trigger] call_ensures(
                    *draw,
                    (i, r),
                    out,
                ) ==> steps(out@) == row@(i as int, r as int),
            steps(ops@) == drawn_lines(counts@, row_start, row_count, row@, i as int),
        decreases counts@.len() - i,
    {
        let rows = plan[i];
        let ghost before = steps(ops@);
        add_op_if(&mut ops, rows.wrapped, LineOp::MarkWrapped);
        let ghost marked = steps(ops@);
        let mut r: usize = rows.from;
        proof {
            assert(marked + rows_steps(row@, i as int, rows.from as int, rows.from as int)
                =~= marked);
        }
        while r < rows.to
            invariant
                rows == line_rows(counts@, row_start, row_count, i as int),
                i < counts@.len(),
                rows.from <= r,
                rows.to <= counts@[i as int],
                r <= rows.to || r == rows.from,
                forall|i: usize, r: usize|
                    i < counts@.len() && r < counts@[i as int] ==> #[trigger] call_requires(
                        *draw,
                        (i, r),
                    ),
                forall|i: usize, r: usize, out: Vec<LineOp>|
                    i < counts@.len() && r < counts@[i as int] && #[trigger] call_ensures(
                        *draw,
                        (i, r),
                        out,
                    ) ==> steps(out@) == row@(i as int, r as int),
                steps(ops@) == marked + rows_steps(row@, i as int, rows.from as int, r as int),
            decreases rows.to - r,
        {
            let mut more = draw(i, r);
            let ghost so_far = ops@;
            let ghost added = more@;
            ops.append(&mut more);
            proof {
                assert(steps(ops@) =~= steps(so_far) + steps(added));
                assert(steps(ops@) =~= marked + rows_steps(
                    row@,
                    i as int,
                    rows.from as int,
                    r + 1,
                ));
            }
            r += 1;
        }
        proof {
            if rows.to <= rows.from {
                assert(rows_steps(row@, i as int, rows.from as int, rows.to as int) =~= Seq::<
                    LineStep,
                >::empty());
                assert(steps(ops@) =~= marked);
            }
            assert(steps(ops@) =~= drawn_lines(counts@, row_start, row_count, row@, i + 1));
        }
        i += 1;
    }
    ops
}

} // verus!
