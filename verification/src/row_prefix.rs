//! Runs whose rows carry a prefix: how prefix and text share characters and cells.
use vstd::prelude::*;
use crate::ir::{RowPrefixSpec, RunsSpec, StyledSpan};
use crate::leaf_text::columns;
use crate::line_ops::{lemma_behind, steps, LineOp, LineStep};
use crate::paint::Color;
use crate::styled_runs::{
    fragment_rows, line_runs, parts_of, run_views, styled_line_parts, Fragment, InlineRun,
    InlineShape, InlineText, RunView,
};
use crate::styled_text::{range_steps, Painting, SpanPainter};
use crate::text::{byte_len, text_bytes};

verus! {

/// Bytes of some runs.
pub open spec fn runs_bytes(runs: Seq<RunView>) -> nat
    decreases runs.len(),
{
    if runs.len() == 0 {
        0
    } else {
        runs_bytes(runs.drop_last()) + text_bytes(runs.last().text)
    }
}

/// The runs of a text that stands behind `count` spans.
pub open spec fn shifted(runs: Seq<RunView>, count: usize) -> Seq<RunView> {
    runs.map_values(
        |run: RunView| RunView { text: run.text, meta: run.meta.saturating_add(count) },
    )
}

/// The runs of a text that stood behind `count` spans.
pub open spec fn shifted_back(runs: Seq<RunView>, count: usize) -> Seq<RunView> {
    runs.map_values(
        |run: RunView| RunView { text: run.text, meta: run.meta.saturating_sub(count) },
    )
}

/// The first run from `i` on that is of no prefix of `count` spans.
pub open spec fn text_start(runs: Seq<RunView>, count: usize, i: int) -> int
    decreases runs.len() - i,
{
    if i < runs.len() && runs[i].meta < count {
        text_start(runs, count, i + 1)
    } else {
        i
    }
}

/// Prefix and text as one line.
pub open spec fn composed(
    shape: InlineShape,
    prefix: Seq<StyledSpan>,
    text: Seq<StyledSpan>,
) -> Seq<RunView> {
    (shape.join)(
        line_runs(shape, prefix) + shifted(line_runs(shape, text), prefix.len() as usize),
    )
}

/// Prefix and text once both stand in one line: each with the characters that are its own,
/// and how many bytes of the text went to the prefix.
pub struct Composed {
    pub prefix: Seq<RunView>,
    pub text: Seq<RunView>,
    pub moved: usize,
}

/// Prefix and text once both stand in one line.
pub open spec fn composition(
    shape: InlineShape,
    prefix: Seq<StyledSpan>,
    text: Seq<StyledSpan>,
) -> Composed {
    let all = composed(shape, prefix, text);
    let at = text_start(all, prefix.len() as usize, 0);
    let child = shifted_back(all.skip(at), prefix.len() as usize);
    let before = counted_bytes(runs_bytes(parts_of(text)));
    let after = counted_bytes(runs_bytes(child));
    Composed { prefix: all.take(at), text: child, moved: before.saturating_sub(after) }
}

/// So many bytes, as far as a machine can count them.
pub open spec fn counted_bytes(bytes: nat) -> usize {
    if bytes > usize::MAX {
        usize::MAX
    } else {
        bytes as usize
    }
}

fn total_bytes(runs: &Vec<InlineRun>) -> (n: usize)
    ensures
        n == counted_bytes(runs_bytes(run_views(runs@))),
{
    let ghost all = run_views(runs@);
    let mut n: usize = 0;
    let mut i: usize = 0;
    proof {
        assert(all.take(0) =~= Seq::<RunView>::empty());
    }
    while i < runs.len()
        invariant
            i <= runs@.len(),
            all == run_views(runs@),
            n == counted_bytes(runs_bytes(all.take(i as int))),
        decreases runs@.len() - i,
    {
        proof {
            assert(all.take(i + 1).drop_last() =~= all.take(i as int));
            assert(all.take(i + 1).last() == runs@[i as int]@);
        }
        n = n.saturating_add(byte_len(runs[i].text.as_str()));
        i += 1;
    }
    proof {
        assert(all.take(i as int) =~= all);
    }
    n
}

/// Prefix and text of a line, and the rows of the text.
#[derive(Debug)]
pub struct RowPrefixRunLine {
    pub first_prefix: Vec<InlineRun>,
    pub first_prefix_cols: u16,
    pub rest_prefix_cols: u16,
    pub child: Vec<InlineRun>,
    pub wrapped: Vec<Vec<Fragment>>,
}

/// Cells that a prefix may take of a row: all but one, where there is a text.
pub open spec fn reserved_cells(shape: InlineShape, text: Seq<RunView>, width: u16) -> u16 {
    if (shape.blank)(text) {
        columns(width) as u16
    } else {
        (columns(width) - 1) as u16
    }
}

/// Cells that a line takes of `cols`.
pub open spec fn taken_cells(shape: InlineShape, runs: Seq<RunView>, cols: u16) -> usize {
    let cells = (shape.cells)(runs);
    if cells < cols {
        cells
    } else {
        cols as usize
    }
}

/// Cells that the first prefix may take: all of the row, where characters of the text went
/// to it.
pub open spec fn first_cells(shape: InlineShape, line: Composed, width: u16) -> u16 {
    if line.moved > 0 {
        columns(width) as u16
    } else {
        reserved_cells(shape, line.text, width)
    }
}

/// The rows of a text behind its prefixes.
pub open spec fn prefixed_rows(
    shape: InlineShape,
    prefix: Seq<StyledSpan>,
    rest: Seq<RunView>,
    text: Seq<StyledSpan>,
    width: u16,
) -> Seq<Seq<Fragment>> {
    let line = composition(shape, prefix, text);
    let cols = columns(width) as usize;
    (shape.wrap_occupied)(
        line.text,
        cols,
        taken_cells(shape, line.prefix, first_cells(shape, line, width)),
        cols,
        taken_cells(shape, rest, reserved_cells(shape, line.text, width)),
    )
}

impl<
    'a,
    J: Fn(&Vec<InlineRun>) -> Vec<InlineRun>,
    W: Fn(&Vec<InlineRun>, usize, usize) -> Vec<Vec<Fragment>>,
    O: Fn(&Vec<InlineRun>, usize, usize, usize, usize) -> Vec<Vec<Fragment>>,
    C: Fn(&Vec<InlineRun>) -> usize,
    E: Fn(&Vec<InlineRun>) -> bool,
> InlineText<'a, J, W, O, C, E> {
    /// Prefix and text once both stand in one line, and how many bytes of the text went to
    /// the prefix.
    pub fn compose_styled_lines(&self, prefix: &Vec<StyledSpan>, text: &Vec<StyledSpan>) -> (r: (
        Vec<InlineRun>,
        Vec<InlineRun>,
        usize,
    ))
        requires
            self.wf(),
        ensures
            run_views(r.0@) == composition(self.shape(), prefix@, text@).prefix,
            run_views(r.1@) == composition(self.shape(), prefix@, text@).text,
            r.2 == composition(self.shape(), prefix@, text@).moved,
    {
        let ghost shape = self.shape();
        let count = prefix.len();
        let text_parts = styled_line_parts(text);
        let text_bytes_before = total_bytes(&text_parts);
        let mut runs = self.join_runs(&styled_line_parts(prefix));
        let ghost front = run_views(runs@);
        let mut more = self.join_runs(&text_parts);
        let ghost behind = run_views(more@);
        let mut i: usize = 0;
        let ghost first = more@;
        while i < more.len()
            invariant
                i <= more@.len(),
                more@.len() == first.len(),
                forall|k: int|
                    0 <= k < i ==> (#[trigger] more@[k])@ == shifted(run_views(first), count)[k],
                forall|k: int| i <= k < more@.len() ==> #[trigger] more@[k] == first[k],
            decreases more@.len() - i,
        {
            let meta = more[i].meta.saturating_add(count);
            let moved_text = more[i].text.clone();
            more.set(i, InlineRun { text: moved_text, meta });
            i += 1;
        }
        proof {
            assert(run_views(more@) =~= shifted(behind, count));
        }
        let ghost shifted_runs = more@;
        let ghost head = runs@;
        runs.append(&mut more);
        proof {
            assert(run_views(runs@) =~= front + shifted(behind, count));
        }
        let mut joined = self.join_runs(&runs);
        let ghost all = run_views(joined@);
        let mut at: usize = 0;
        while at < joined.len() && joined[at].meta < count
            invariant
                at <= joined@.len(),
                all == run_views(joined@),
                text_start(all, count, 0) == text_start(all, count, at as int),
            decreases joined@.len() - at,
        {
            proof {
                assert(all[at as int] == joined@[at as int]@);
            }
            at += 1;
        }
        proof {
            if at < joined@.len() {
                assert(all[at as int] == joined@[at as int]@);
            }
            assert(all.len() == joined@.len());
        }
        let ghost whole = joined@;
        let mut child = joined.split_off(at);
        let ghost tail = child@;
        let mut k: usize = 0;
        while k < child.len()
            invariant
                k <= child@.len(),
                child@.len() == tail.len(),
                forall|j: int|
                    0 <= j < k ==> (#[trigger] child@[j])@ == shifted_back(
                        run_views(tail),
                        count,
                    )[j],
                forall|j: int| k <= j < child@.len() ==> #[trigger] child@[j] == tail[j],
            decreases child@.len() - k,
        {
            let meta = child[k].meta.saturating_sub(count);
            let kept_text = child[k].text.clone();
            child.set(k, InlineRun { text: kept_text, meta });
            k += 1;
        }
        proof {
            assert(run_views(joined@) =~= all.take(at as int));
            assert(run_views(tail) =~= all.skip(at as int));
            assert(run_views(child@) =~= shifted_back(all.skip(at as int), count));
            assert(composition(shape, prefix@, text@).text == run_views(child@));
        }
        let moved = text_bytes_before.saturating_sub(total_bytes(&child));
        (joined, child, moved)
    }

    fn cells_taken(&self, runs: &Vec<InlineRun>, cols: u16) -> (n: usize)
        requires
            self.wf(),
        ensures
            n == taken_cells(self.shape(), run_views(runs@), cols),
    {
        let cells = (self.cells)(runs);
        proof {
            assert(self.has_cells(run_views(runs@), cells));
        }
        if cells < cols as usize {
            cells
        } else {
            cols as usize
        }
    }

    /// A line of text behind its prefix.
    pub fn row_prefix_run_line(
        &self,
        prefix: &Vec<StyledSpan>,
        rest_prefix: &Vec<InlineRun>,
        text: &Vec<StyledSpan>,
        width: u16,
    ) -> (line: RowPrefixRunLine)
        requires
            self.wf(),
        ensures
            ({
                let shape = self.shape();
                let parts = composition(shape, prefix@, text@);
                &&& run_views(line.first_prefix@) == parts.prefix
                &&& run_views(line.child@) == parts.text
                &&& line.first_prefix_cols == first_cells(shape, parts, width)
                &&& line.rest_prefix_cols == reserved_cells(shape, parts.text, width)
                &&& fragment_rows(line.wrapped@) == prefixed_rows(
                    shape,
                    prefix@,
                    run_views(rest_prefix@),
                    text@,
                    width,
                )
            }),
    {
        let total: u16 = if width < 1 {
            1
        } else {
            width
        };
        let (first_prefix, child, moved) = self.compose_styled_lines(prefix, text);
        let nothing = (self.blank)(&child);
        proof {
            assert(self.says_blank(run_views(child@), nothing));
        }
        let reserved = if nothing {
            total
        } else {
            total - 1
        };
        let first_cols = if moved > 0 {
            total
        } else {
            reserved
        };
        let first_taken = self.cells_taken(&first_prefix, first_cols);
        let rest_taken = self.cells_taken(rest_prefix, reserved);
        let wrapped = (self.wrap_occupied)(
            &child,
            total as usize,
            first_taken,
            total as usize,
            rest_taken,
        );
        proof {
            assert(self.wraps_occupied(
                run_views(child@),
                total as usize,
                first_taken,
                total as usize,
                rest_taken,
                fragment_rows(wrapped@),
            ));
        }
        RowPrefixRunLine {
            first_prefix,
            first_prefix_cols: first_cols,
            rest_prefix_cols: reserved,
            child,
            wrapped,
        }
    }

    /// How many rows runs take behind their prefixes: the first prefix stands before the
    /// first row of all, the other before the rest.
    pub fn measure_row_prefix_runs(&self, spec: &RunsSpec, prefix: &RowPrefixSpec, width: u16) -> (
    rows: usize)
        requires
            self.wf(),
        ensures
            rows == prefix_rows(
                self.shape(),
                *spec,
                *prefix,
                width,
                spec.lines@.len() as int,
            ),
    {
        let rest = self.join_runs(&styled_line_parts(&prefix.rest));
        let mut rows: usize = 0;
        let mut i: usize = 0;
        while i < spec.lines.len()
            invariant
                i <= spec.lines@.len(),
                self.wf(),
                run_views(rest@) == line_runs(self.shape(), prefix.rest@),
                rows == prefix_rows(self.shape(), *spec, *prefix, width, i as int),
            decreases spec.lines@.len() - i,
        {
            let before = if rows == 0 {
                &prefix.first
            } else {
                &prefix.rest
            };
            let line = self.row_prefix_run_line(before, &rest, &spec.lines[i], width);
            proof {
                assert(fragment_rows(line.wrapped@).len() == line.wrapped@.len());
            }
            rows = rows.saturating_add(line.wrapped.len());
            i += 1;
        }
        rows
    }
}

/// Rows of the first `n` lines behind their prefixes.
pub open spec fn prefix_rows(
    shape: InlineShape,
    spec: RunsSpec,
    prefix: RowPrefixSpec,
    width: u16,
    n: int,
) -> usize
    decreases n,
{
    if n <= 0 {
        0
    } else {
        let rows = prefix_rows(shape, spec, prefix, width, n - 1);
        rows.saturating_add(
            prefixed_rows(
                shape,
                if rows == 0 {
                    prefix.first@
                } else {
                    prefix.rest@
                },
                line_runs(shape, prefix.rest@),
                spec.lines@[n - 1]@,
                width,
            ).len() as usize,
        )
    }
}

/// A prefix never leaves a text without a cell.
pub proof fn prefix_leaves_room(shape: InlineShape, line: Composed, width: u16)
    requires
        !(shape.blank)(line.text),
        line.moved == 0,
    ensures
        taken_cells(shape, line.prefix, first_cells(shape, line, width)) < columns(width),
{
}

/// What of a row is known while its prefix is drawn: what it holds, and how text fits
/// behind that.
pub struct RowFit {
    /// Bytes of a text that belong to the last character of the row.
    pub boundary: spec_fn(Seq<char>, Seq<char>) -> usize,
    /// Bytes of a text that fit behind the row, up to so many cells.
    pub fitting: spec_fn(Seq<char>, Seq<char>, u16) -> usize,
}

/// `f` gives `n` for a row and a text.
pub open spec fn bounds_at<G: Fn(&str, &str) -> usize>(
    f: G,
    row: Seq<char>,
    text: Seq<char>,
    n: usize,
) -> bool {
    exists|r: &str, t: &str| #[trigger] call_ensures(f, (r, t), n) && r@ == row && t@ == text
}

/// `f` gives `n` for a row, a text and a limit.
pub open spec fn fits_at<H: Fn(&str, &str, u16) -> usize>(
    f: H,
    row: Seq<char>,
    text: Seq<char>,
    limit: u16,
    n: usize,
) -> bool {
    exists|r: &str, t: &str| #[trigger]
        call_ensures(f, (r, t, limit), n) && r@ == row && t@ == text
}

/// These functions as mathematical functions.
pub open spec fn row_fit<G: Fn(&str, &str) -> usize, H: Fn(&str, &str, u16) -> usize>(
    boundary: G,
    fitting: H,
) -> RowFit {
    RowFit {
        boundary: |row: Seq<char>, text: Seq<char>|
            choose|n: usize| #[trigger] bounds_at(boundary, row, text, n),
        fitting: |row: Seq<char>, text: Seq<char>, limit: u16|
            choose|n: usize| #[trigger] fits_at(fitting, row, text, limit, n),
    }
}

/// Every question may be asked and has one answer, and no more fits than there is.
pub open spec fn pure_fit<G: Fn(&str, &str) -> usize, H: Fn(&str, &str, u16) -> usize>(
    boundary: G,
    fitting: H,
) -> bool {
    &&& forall|r: &str, t: &str| #[trigger] call_requires(boundary, (r, t))
    &&& forall|row: Seq<char>, text: Seq<char>, a: usize, b: usize|
        #[trigger] bounds_at(boundary, row, text, a) && #[trigger] bounds_at(
            boundary,
            row,
            text,
            b,
        ) ==> a == b
    &&& forall|row: Seq<char>, text: Seq<char>, n: usize| #[trigger]
        bounds_at(boundary, row, text, n) ==> n <= text_bytes(text)
    &&& forall|r: &str, t: &str, limit: u16| #[trigger] call_requires(fitting, (r, t, limit))
    &&& forall|row: Seq<char>, text: Seq<char>, limit: u16, a: usize, b: usize|
        #[trigger] fits_at(fitting, row, text, limit, a) && #[trigger] fits_at(
            fitting,
            row,
            text,
            limit,
            b,
        ) ==> a == b
    &&& forall|row: Seq<char>, text: Seq<char>, limit: u16, n: usize| #[trigger]
        fits_at(fitting, row, text, limit, n) ==> n <= text_bytes(text)
}

/// What one run of a prefix is drawn with, what the row then holds, whether its last
/// character may still go on, and whether no more of the prefix fits.
pub struct RunOutcome {
    pub steps: Seq<LineStep>,
    pub row: Seq<char>,
    pub at_boundary: bool,
    pub full: bool,
}

/// What one run of a prefix is drawn with behind `row`: what belongs to the last character
/// of the row, if it fits into the row, and as much as fits into the prefix.
pub open spec fn prefix_run(
    painting: Painting,
    fit: RowFit,
    span: StyledSpan,
    text: Seq<char>,
    row: Seq<char>,
    at_boundary: bool,
    prefix_limit: u16,
    row_limit: u16,
) -> RunOutcome {
    let looks = at_boundary && text.len() > 0;
    let head = if looks {
        (fit.boundary)(row, text)
    } else {
        0
    };
    let head_text = (painting.slice)(text, 0, head);
    if head > 0 && (fit.fitting)(row, head_text, row_limit) < head {
        RunOutcome { steps: Seq::empty(), row, at_boundary: false, full: true }
    } else {
        let first = if head > 0 {
            range_steps(painting, span, text, None, 0, head, None)
        } else {
            Seq::empty()
        };
        let row1 = if head > 0 {
            row + head_text
        } else {
            row
        };
        let left = (painting.slice)(text, head, text_bytes(text) as usize);
        let keep = (fit.fitting)(row1, left, prefix_limit);
        let end = (head + keep) as usize;
        RunOutcome {
            steps: first + range_steps(painting, span, text, None, head, end, None),
            row: row1 + (painting.slice)(text, head, end),
            at_boundary: at_boundary && !looks,
            full: keep < text_bytes(left),
        }
    }
}

/// What the runs of a prefix from `i` on are drawn with behind `row`, until no more fits.
pub open spec fn prefix_steps(
    painting: Painting,
    fit: RowFit,
    spans: Seq<StyledSpan>,
    runs: Seq<RunView>,
    i: int,
    row: Seq<char>,
    at_boundary: bool,
    prefix_limit: u16,
    row_limit: u16,
) -> Seq<LineStep>
    decreases runs.len() - i,
{
    if i >= runs.len() {
        Seq::empty()
    } else if runs[i].meta >= spans.len() {
        prefix_steps(
            painting,
            fit,
            spans,
            runs,
            i + 1,
            row,
            at_boundary,
            prefix_limit,
            row_limit,
        )
    } else {
        let outcome = prefix_run(
            painting,
            fit,
            spans[runs[i].meta as int],
            runs[i].text,
            row,
            at_boundary,
            prefix_limit,
            row_limit,
        );
        if outcome.full {
            outcome.steps
        } else {
            outcome.steps + prefix_steps(
                painting,
                fit,
                spans,
                runs,
                i + 1,
                outcome.row,
                outcome.at_boundary,
                prefix_limit,
                row_limit,
            )
        }
    }
}

/// What a row holds behind the runs of a prefix from `i` on, as far as these fit.
pub open spec fn prefix_row(
    painting: Painting,
    fit: RowFit,
    spans: Seq<StyledSpan>,
    runs: Seq<RunView>,
    i: int,
    row: Seq<char>,
    at_boundary: bool,
    prefix_limit: u16,
    row_limit: u16,
) -> Seq<char>
    decreases runs.len() - i,
{
    if i >= runs.len() {
        row
    } else if runs[i].meta >= spans.len() {
        prefix_row(
            painting,
            fit,
            spans,
            runs,
            i + 1,
            row,
            at_boundary,
            prefix_limit,
            row_limit,
        )
    } else {
        let outcome = prefix_run(
            painting,
            fit,
            spans[runs[i].meta as int],
            runs[i].text,
            row,
            at_boundary,
            prefix_limit,
            row_limit,
        );
        if outcome.full {
            outcome.row
        } else {
            prefix_row(
                painting,
                fit,
                spans,
                runs,
                i + 1,
                outcome.row,
                outcome.at_boundary,
                prefix_limit,
                row_limit,
            )
        }
    }
}

/// Cutting a text never gives more bytes than it has.
pub open spec fn cuts_within(painting: Painting) -> bool {
    forall|text: Seq<char>, start: usize, end: usize|
        start <= text_bytes(text) ==> text_bytes(
            #[trigger] (painting.slice)(text, start, end),
        ) <= text_bytes(text) - start
}

fn print_prefix_run<
    'b,
    S: Fn(&str, usize, usize) -> String,
    F: Fn(&str) -> Option<Color>,
    B: Fn(&str) -> Option<Color>,
    G: Fn(&str, &str) -> usize,
    H: Fn(&str, &str, u16) -> usize,
>(
    painter: &SpanPainter<'b, S, F, B>,
    ops: &mut Vec<LineOp>,
    span: &StyledSpan,
    text: &str,
    row: &mut String,
    at_boundary: bool,
    prefix_limit: u16,
    row_limit: u16,
    boundary: &G,
    fitting: &H,
) -> (r: (bool, bool))
    requires
        painter.wf(),
        pure_fit(*boundary, *fitting),
        cuts_within(painter.painting()),
    ensures
        ({
            let outcome = prefix_run(
                painter.painting(),
                row_fit(*boundary, *fitting),
                *span,
                text@,
                old(row)@,
                at_boundary,
                prefix_limit,
                row_limit,
            );
            &&& steps(final(ops)@) == steps(old(ops)@) + outcome.steps
            &&& final(row)@ == outcome.row
            &&& r.0 == outcome.at_boundary
            &&& r.1 == outcome.full
        }),
{
    let ghost p = painter.painting();
    let ghost fit = row_fit(*boundary, *fitting);
    let ghost before = steps(ops@);
    let looks = at_boundary && !text.is_empty();
    let mut head: usize = 0;
    if looks {
        head = boundary(row.as_str(), text);
        proof {
            assert(bounds_at(*boundary, row@, text@, head));
            assert(head == (fit.boundary)(row@, text@));
        }
    }
    if head > 0 {
        let part = painter.cut(text, 0, head);
        let room = fitting(row.as_str(), part.as_str(), row_limit);
        proof {
            assert(fits_at(*fitting, row@, part@, row_limit, room));
            assert(room == (fit.fitting)(row@, part@, row_limit));
        }
        if room < head {
            proof {
                assert(before + Seq::<LineStep>::empty() =~= before);
            }
            return (false, true);
        }
        painter.print_styled_text_range(ops, span, text, &None, 0, head, None);
        row.append(part.as_str());
    }
    let ghost first = if head > 0 {
        range_steps(p, *span, text@, None, 0, head, None)
    } else {
        Seq::empty()
    };
    proof {
        if head == 0 {
            assert(before + Seq::<LineStep>::empty() =~= before);
        }
        assert(steps(ops@) == before + first);
    }
    let len = byte_len(text);
    let left = painter.cut(text, head, len);
    let keep = fitting(row.as_str(), left.as_str(), prefix_limit);
    proof {
        assert(fits_at(*fitting, row@, left@, prefix_limit, keep));
        assert(keep == (fit.fitting)(row@, left@, prefix_limit));
        assert(keep <= text_bytes(left@));
        assert(text_bytes(left@) <= text_bytes(text@) - head);
    }
    let end = head + keep;
    painter.print_styled_text_range(ops, span, text, &None, head, end, None);
    proof {
        lemma_behind(before, first, range_steps(p, *span, text@, None, head, end, None));
    }
    let part = painter.cut(text, head, end);
    row.append(part.as_str());
    (at_boundary && !looks, keep < byte_len(left.as_str()))
}

/// Draws the prefix of a row: of its own `max_cols` cells, of a row of `row_cols`. `row` is
/// what the row holds, and `start` how many cells that takes. What the row then holds.
pub fn print_row_prefix<
    'b,
    S: Fn(&str, usize, usize) -> String,
    F: Fn(&str) -> Option<Color>,
    B: Fn(&str) -> Option<Color>,
    G: Fn(&str, &str) -> usize,
    H: Fn(&str, &str, u16) -> usize,
>(
    painter: &SpanPainter<'b, S, F, B>,
    ops: &mut Vec<LineOp>,
    spans: &Vec<StyledSpan>,
    runs: &Vec<InlineRun>,
    row: &str,
    start: u16,
    max_cols: u16,
    row_cols: u16,
    boundary: &G,
    fitting: &H,
) -> (held: String)
    requires
        painter.wf(),
        pure_fit(*boundary, *fitting),
        cuts_within(painter.painting()),
    ensures
        steps(final(ops)@) == steps(old(ops)@) + prefix_steps(
            painter.painting(),
            row_fit(*boundary, *fitting),
            spans@,
            run_views(runs@),
            0,
            row@,
            true,
            start.saturating_add(max_cols),
            start.saturating_add(row_cols),
        ),
        held@ == prefix_row(
            painter.painting(),
            row_fit(*boundary, *fitting),
            spans@,
            run_views(runs@),
            0,
            row@,
            true,
            start.saturating_add(max_cols),
            start.saturating_add(row_cols),
        ),
{
    let prefix_limit = start.saturating_add(max_cols);
    let row_limit = start.saturating_add(row_cols);
    let ghost p = painter.painting();
    let ghost fit = row_fit(*boundary, *fitting);
    let ghost before = steps(ops@);
    let ghost views = run_views(runs@);
    let ghost all = prefix_steps(
        p,
        fit,
        spans@,
        views,
        0,
        row@,
        true,
        prefix_limit,
        row_limit,
    );
    let ghost whole = prefix_row(
        p,
        fit,
        spans@,
        views,
        0,
        row@,
        true,
        prefix_limit,
        row_limit,
    );
    let mut held = String::from_str(row);
    let mut at_boundary = true;
    let mut full = false;
    let mut i: usize = 0;
    proof {
        assert(views.len() == runs@.len());
        assert(held@ =~= row@);
    }
    while !full && i < runs.len()
        invariant
            i <= runs@.len(),
            views == run_views(runs@),
            views.len() == runs@.len(),
            painter.wf(),
            pure_fit(*boundary, *fitting),
            p == painter.painting(),
            cuts_within(p),
            fit == row_fit(*boundary, *fitting),
            full ==> before + all == steps(ops@) && held@ == whole,
            !full ==> whole == prefix_row(
                p,
                fit,
                spans@,
                views,
                i as int,
                held@,
                at_boundary,
                prefix_limit,
                row_limit,
            ),
            !full ==> before + all == steps(ops@) + prefix_steps(
                p,
                fit,
                spans@,
                views,
                i as int,
                held@,
                at_boundary,
                prefix_limit,
                row_limit,
            ),
        decreases runs@.len() - i,
    {
        let run = &runs[i];
        let ghost now = steps(ops@);
        let ghost held_before = held@;
        let ghost boundary_before = at_boundary;
        proof {
            assert(views[i as int] == run@);
        }
        if run.meta < spans.len() {
            let ghost outcome = prefix_run(
                p,
                fit,
                spans@[run.meta as int],
                run.text@,
                held@,
                at_boundary,
                prefix_limit,
                row_limit,
            );
            let (next, stop) = print_prefix_run(
                painter,
                ops,
                &spans[run.meta],
                run.text.as_str(),
                &mut held,
                at_boundary,
                prefix_limit,
                row_limit,
                boundary,
                fitting,
            );
            at_boundary = next;
            full = stop;
            proof {
                let after = prefix_steps(
                    p,
                    fit,
                    spans@,
                    views,
                    i + 1,
                    held@,
                    at_boundary,
                    prefix_limit,
                    row_limit,
                );
                lemma_behind(now, outcome.steps, after);
            }
        }
        i += 1;
    }
    proof {
        if !full {
            let end = prefix_steps(
                p,
                fit,
                spans@,
                views,
                i as int,
                held@,
                at_boundary,
                prefix_limit,
                row_limit,
            );
            assert(end =~= Seq::<LineStep>::empty());
            assert(steps(ops@) + end =~= steps(ops@));
        }
    }
    held
}

} // verus!
