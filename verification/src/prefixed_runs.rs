//! Runs whose rows carry a prefix, drawn.
use vstd::prelude::*;
use crate::ir::{GutterSpec, RowPrefixSpec, RunsSpec, StyledSpan};
use crate::leaf_laws::{
    lemma_ends_concat, lemma_ends_of_one, lemma_no_ends, lemma_range_ends, row_ends,
};
use crate::line_ops::{add_op, lemma_behind, steps, LineOp, LineStep};
use crate::paint::Color;
use crate::render_laws::rows_within;
use crate::row_prefix::{
    composition, cuts_within, first_cells, fits_at, prefix_row, prefix_rows, prefix_run,
    prefix_steps, prefixed_rows, print_row_prefix, pure_fit, reserved_cells, row_fit, RowFit,
    RowPrefixRunLine,
};
use crate::styled_runs::{
    fragment_rows, line_runs, run_views, styled_line_parts, Fragment, InlineRun, InlineShape,
    InlineText, RunView,
};
use crate::styled_text::{
    highlight_seq, highlights_of, range_steps, retained_spans, Painting, SpanPainter,
};
use crate::text::text_bytes;
use crate::widths::{gutter_width, some_gutter_cells};

verus! {

/// The text of a gutter, in its own style or in none.
pub open spec fn row_gutter_steps(gutter: Option<&GutterSpec>) -> Seq<LineStep> {
    match gutter {
        Some(gutter) => if gutter.styled {
            seq![LineStep::Gutter(gutter.text@)]
        } else {
            seq![
                LineStep::SaveStyle,
                LineStep::ResetStyle,
                LineStep::Gutter(gutter.text@),
                LineStep::PopStyle,
            ]
        },
        None => Seq::empty(),
    }
}

/// What a row holds behind its gutter.
pub open spec fn gutter_text(gutter: Option<&GutterSpec>) -> Seq<char> {
    match gutter {
        Some(gutter) => gutter.text@,
        None => Seq::empty(),
    }
}

/// What the fragments of a row from `k` on are drawn with behind `held`, until no more fits
/// into `limit` cells.
pub open spec fn clipped_steps(
    painting: Painting,
    fit: RowFit,
    spec: RunsSpec,
    line: int,
    runs: Seq<RunView>,
    row: Seq<Fragment>,
    k: int,
    held: Seq<char>,
    limit: u16,
) -> Seq<LineStep>
    decreases row.len() - k,
{
    if k >= row.len() {
        Seq::empty()
    } else {
        let f = row[k];
        if f.run_index < runs.len() && runs[f.run_index as int].meta < spec.lines@[line]@.len() {
            let run = runs[f.run_index as int];
            let piece = (painting.slice)(run.text, f.start, f.end);
            let keep = (fit.fitting)(held, piece, limit);
            let stop = f.start.saturating_add(keep);
            let drawn = range_steps(
                painting,
                spec.lines@[line]@[run.meta as int],
                run.text,
                spec.hl_group,
                f.start,
                stop,
                retained_spans(spec.syntax_highlights, line, run.meta as int),
            );
            if keep == text_bytes(piece) {
                drawn + clipped_steps(
                    painting,
                    fit,
                    spec,
                    line,
                    runs,
                    row,
                    k + 1,
                    held + (painting.slice)(run.text, f.start, stop),
                    limit,
                )
            } else {
                drawn
            }
        } else {
            clipped_steps(painting, fit, spec, line, runs, row, k + 1, held, limit)
        }
    }
}

/// The prefix of a line: the first one before the first row of all.
pub open spec fn line_prefix(
    shape: InlineShape,
    spec: RunsSpec,
    prefix: RowPrefixSpec,
    width: u16,
    line: int,
) -> Seq<StyledSpan> {
    if prefix_rows(shape, spec, prefix, width, line) == 0 {
        prefix.first@
    } else {
        prefix.rest@
    }
}

/// The rows of a line behind its prefixes.
pub open spec fn line_rows(
    shape: InlineShape,
    spec: RunsSpec,
    prefix: RowPrefixSpec,
    width: u16,
    line: int,
) -> Seq<Seq<Fragment>> {
    prefixed_rows(
        shape,
        line_prefix(shape, spec, prefix, width, line),
        line_runs(shape, prefix.rest@),
        spec.lines@[line]@,
        width,
    )
}

/// What row `row` of line `line` is drawn with: its gutter, its prefix, and as much of its text
/// as fits behind these. What of the text belongs to the last character of the first prefix
/// went to that prefix.
pub open spec fn prefixed_row_steps(
    painting: Painting,
    shape: InlineShape,
    fit: RowFit,
    spec: RunsSpec,
    prefix: RowPrefixSpec,
    width: u16,
    gutter: Option<&GutterSpec>,
    line: int,
    row: int,
) -> Seq<LineStep> {
    let own = line_prefix(shape, spec, prefix, width, line);
    let parts = composition(shape, own, spec.lines@[line]@);
    let spans = if row == 0 {
        own
    } else {
        prefix.rest@
    };
    let runs = if row == 0 {
        parts.prefix
    } else {
        line_runs(shape, prefix.rest@)
    };
    let cols = if row == 0 {
        first_cells(shape, parts, width)
    } else {
        reserved_cells(shape, parts.text, width)
    };
    let start = some_gutter_cells(gutter);
    let limit = start.saturating_add(width);
    let prefix_limit = start.saturating_add(cols);
    let before = gutter_text(gutter);
    row_gutter_steps(gutter) + prefix_steps(
        painting,
        fit,
        spans,
        runs,
        0,
        before,
        true,
        prefix_limit,
        limit,
    ) + seq![LineStep::Row { continuation: row > 0 }] + clipped_steps(
        painting,
        fit,
        spec,
        line,
        parts.text,
        line_rows(shape, spec, prefix, width, line)[row],
        0,
        prefix_row(painting, fit, spans, runs, 0, before, true, prefix_limit, limit),
        limit,
    ) + seq![LineStep::Newline]
}

/// What the first `n` rows of a line are drawn with, whose first row is row `base` of all: those
/// of `row_start .. row_end`.
pub open spec fn line_steps(
    row: spec_fn(int) -> Seq<LineStep>,
    base: usize,
    row_start: usize,
    row_end: usize,
    n: int,
) -> Seq<LineStep>
    decreases n,
{
    if n <= 0 {
        Seq::empty()
    } else {
        let at = base.saturating_add((n - 1) as usize);
        line_steps(row, base, row_start, row_end, n - 1) + if row_start <= at < row_end {
            row(n - 1)
        } else {
            Seq::empty()
        }
    }
}

/// What the rows `row_start .. row_end` of the first `n` lines are drawn with.
pub open spec fn prefixed_steps(
    painting: Painting,
    shape: InlineShape,
    fit: RowFit,
    spec: RunsSpec,
    prefix: RowPrefixSpec,
    width: u16,
    gutter: Option<&GutterSpec>,
    row_start: usize,
    row_end: usize,
    n: int,
) -> Seq<LineStep>
    decreases n,
{
    if n <= 0 {
        Seq::empty()
    } else {
        prefixed_steps(
            painting,
            shape,
            fit,
            spec,
            prefix,
            width,
            gutter,
            row_start,
            row_end,
            n - 1,
        ) + line_steps(
            |row: int|
                prefixed_row_steps(painting, shape, fit, spec, prefix, width, gutter, n - 1, row),
            prefix_rows(shape, spec, prefix, width, n - 1),
            row_start,
            row_end,
            line_rows(shape, spec, prefix, width, n - 1).len() as int,
        )
    }
}

fn add_row_gutter(ops: &mut Vec<LineOp>, gutter: Option<&GutterSpec>)
    ensures
        steps(final(ops)@) == steps(old(ops)@) + row_gutter_steps(gutter),
{
    let ghost before = steps(ops@);
    if let Some(gutter) = gutter {
        if gutter.styled {
            add_op(ops, LineOp::Gutter(gutter.text.clone()));
        } else {
            add_op(ops, LineOp::SaveStyle);
            add_op(ops, LineOp::ResetStyle);
            add_op(ops, LineOp::Gutter(gutter.text.clone()));
            add_op(ops, LineOp::PopStyle);
        }
    }
    proof {
        assert(steps(ops@) =~= before + row_gutter_steps(gutter));
    }
}

/// Draws the fragments of a row behind `held`, as far as they fit into `limit` cells.
fn print_fragments_clipped<
    'b,
    S: Fn(&str, usize, usize) -> String,
    F: Fn(&str) -> Option<Color>,
    B: Fn(&str) -> Option<Color>,
    G: Fn(&str, &str) -> usize,
    H: Fn(&str, &str, u16) -> usize,
>(
    painter: &SpanPainter<'b, S, F, B>,
    ops: &mut Vec<LineOp>,
    spec: &RunsSpec,
    line: usize,
    runs: &Vec<InlineRun>,
    row: &Vec<Fragment>,
    held: String,
    limit: u16,
    boundary: &G,
    fitting: &H,
)
    requires
        painter.wf(),
        pure_fit(*boundary, *fitting),
        line < spec.lines@.len(),
    ensures
        steps(final(ops)@) == steps(old(ops)@) + clipped_steps(
            painter.painting(),
            row_fit(*boundary, *fitting),
            *spec,
            line as int,
            run_views(runs@),
            row@,
            0,
            held@,
            limit,
        ),
{
    let ghost p = painter.painting();
    let ghost fit = row_fit(*boundary, *fitting);
    let ghost views = run_views(runs@);
    let ghost before = steps(ops@);
    let ghost all = clipped_steps(p, fit, *spec, line as int, views, row@, 0, held@, limit);
    let mut held = held;
    let mut full = false;
    let mut k: usize = 0;
    while !full && k < row.len()
        invariant
            k <= row@.len(),
            painter.wf(),
            pure_fit(*boundary, *fitting),
            line < spec.lines@.len(),
            p == painter.painting(),
            fit == row_fit(*boundary, *fitting),
            views == run_views(runs@),
            full ==> before + all == steps(ops@),
            !full ==> before + all == steps(ops@) + clipped_steps(
                p,
                fit,
                *spec,
                line as int,
                views,
                row@,
                k as int,
                held@,
                limit,
            ),
        decreases row@.len() - k,
    {
        let f = row[k];
        let ghost now = steps(ops@);
        if f.run_index < runs.len() && runs[f.run_index].meta < spec.lines[line].len() {
            let run = &runs[f.run_index];
            let span = &spec.lines[line][run.meta];
            let highlights = highlights_of(&spec.syntax_highlights, line, run.meta);
            let piece = painter.cut(run.text.as_str(), f.start, f.end);
            let keep = fitting(held.as_str(), piece.as_str(), limit);
            proof {
                assert(fits_at(*fitting, held@, piece@, limit, keep));
                assert(keep == (fit.fitting)(held@, piece@, limit));
                assert(views[f.run_index as int] == run@);
                assert(highlight_seq(highlights) == retained_spans(
                    spec.syntax_highlights,
                    line as int,
                    run.meta as int,
                ));
            }
            let ghost drawn = range_steps(
                p,
                *span,
                run.text@,
                spec.hl_group,
                f.start,
                f.start.saturating_add(keep),
                highlight_seq(highlights),
            );
            let whole = painter.print_styled_text_range_clipped(
                ops,
                span,
                run.text.as_str(),
                &spec.hl_group,
                f.start,
                f.end,
                highlights,
                keep,
            );
            if whole {
                let part = painter.cut(run.text.as_str(), f.start, f.start.saturating_add(keep));
                held.append(part.as_str());
                proof {
                    let rest = clipped_steps(
                        p,
                        fit,
                        *spec,
                        line as int,
                        views,
                        row@,
                        k + 1,
                        held@,
                        limit,
                    );
                    lemma_behind(now, drawn, rest);
                }
            }
            full = !whole;
        }
        k += 1;
    }
    proof {
        if !full {
            assert(steps(ops@) + Seq::<LineStep>::empty() =~= steps(ops@));
        }
    }
}

/// Draws row `row` of line `line`.
fn draw_prefixed_row<
    'a,
    'b,
    J: Fn(&Vec<InlineRun>) -> Vec<InlineRun>,
    W: Fn(&Vec<InlineRun>, usize, usize) -> Vec<Vec<Fragment>>,
    O: Fn(&Vec<InlineRun>, usize, usize, usize, usize) -> Vec<Vec<Fragment>>,
    C: Fn(&Vec<InlineRun>) -> usize,
    E: Fn(&Vec<InlineRun>) -> bool,
    S: Fn(&str, usize, usize) -> String,
    F: Fn(&str) -> Option<Color>,
    B: Fn(&str) -> Option<Color>,
    G: Fn(&str, &str) -> usize,
    H: Fn(&str, &str, u16) -> usize,
>(
    inline: &InlineText<'a, J, W, O, C, E>,
    painter: &SpanPainter<'b, S, F, B>,
    ops: &mut Vec<LineOp>,
    spec: &RunsSpec,
    prefix: &RowPrefixSpec,
    own: &Vec<StyledSpan>,
    rest: &Vec<InlineRun>,
    parts: &RowPrefixRunLine,
    width: u16,
    gutter: Option<&GutterSpec>,
    line: usize,
    row: usize,
    boundary: &G,
    fitting: &H,
)
    requires
        inline.wf(),
        painter.wf(),
        pure_fit(*boundary, *fitting),
        cuts_within(painter.painting()),
        line < spec.lines@.len(),
        own@ == line_prefix(inline.shape(), *spec, *prefix, width, line as int),
        run_views(rest@) == line_runs(inline.shape(), prefix.rest@),
        ({
            let shape = inline.shape();
            let both = composition(shape, own@, spec.lines@[line as int]@);
            &&& run_views(parts.first_prefix@) == both.prefix
            &&& run_views(parts.child@) == both.text
            &&& parts.first_prefix_cols == first_cells(shape, both, width)
            &&& parts.rest_prefix_cols == reserved_cells(shape, both.text, width)
            &&& fragment_rows(parts.wrapped@) == line_rows(
                shape,
                *spec,
                *prefix,
                width,
                line as int,
            )
        }),
        row < parts.wrapped@.len(),
    ensures
        steps(final(ops)@) == steps(old(ops)@) + prefixed_row_steps(
            painter.painting(),
            inline.shape(),
            row_fit(*boundary, *fitting),
            *spec,
            *prefix,
            width,
            gutter,
            line as int,
            row as int,
        ),
{
    let ghost p = painter.painting();
    let ghost fit = row_fit(*boundary, *fitting);
    let ghost before = steps(ops@);
    let start = gutter_width(gutter);
    let limit = start.saturating_add(width);
    let mut text = String::new();
    if let Some(gutter) = gutter {
        text.append(gutter.text.as_str());
    }
    proof {
        assert(text@ =~= gutter_text(gutter));
        assert(fragment_rows(parts.wrapped@)[row as int] == parts.wrapped@[row as int]@);
    }
    add_row_gutter(ops, gutter);
    let held = if row == 0 {
        print_row_prefix(
            painter,
            ops,
            own,
            &parts.first_prefix,
            text.as_str(),
            start,
            parts.first_prefix_cols,
            width,
            boundary,
            fitting,
        )
    } else {
        print_row_prefix(
            painter,
            ops,
            &prefix.rest,
            rest,
            text.as_str(),
            start,
            parts.rest_prefix_cols,
            width,
            boundary,
            fitting,
        )
    };
    add_op(ops, LineOp::Row { continuation: row > 0 });
    print_fragments_clipped(
        painter,
        ops,
        spec,
        line,
        &parts.child,
        &parts.wrapped[row],
        held,
        limit,
        boundary,
        fitting,
    );
    add_op(ops, LineOp::Newline);
    proof {
        assert(steps(ops@) =~= before + prefixed_row_steps(
            p,
            inline.shape(),
            fit,
            *spec,
            *prefix,
            width,
            gutter,
            line as int,
            row as int,
        ));
    }
}

/// Draws the `row_count` rows from `row_start` on of runs whose rows carry a prefix. `boundary`
/// says how much of a text belongs to the last character of a row, and `fitting` how much of it
/// fits behind the row.
pub fn render_row_prefix_runs<
    'a,
    'b,
    J: Fn(&Vec<InlineRun>) -> Vec<InlineRun>,
    W: Fn(&Vec<InlineRun>, usize, usize) -> Vec<Vec<Fragment>>,
    O: Fn(&Vec<InlineRun>, usize, usize, usize, usize) -> Vec<Vec<Fragment>>,
    C: Fn(&Vec<InlineRun>) -> usize,
    E: Fn(&Vec<InlineRun>) -> bool,
    S: Fn(&str, usize, usize) -> String,
    F: Fn(&str) -> Option<Color>,
    B: Fn(&str) -> Option<Color>,
    G: Fn(&str, &str) -> usize,
    H: Fn(&str, &str, u16) -> usize,
>(
    inline: &InlineText<'a, J, W, O, C, E>,
    painter: &SpanPainter<'b, S, F, B>,
    spec: &RunsSpec,
    prefix: &RowPrefixSpec,
    width: u16,
    row_start: usize,
    row_count: usize,
    gutter: Option<&GutterSpec>,
    boundary: &G,
    fitting: &H,
) -> (ops: Vec<LineOp>)
    requires
        inline.wf(),
        painter.wf(),
        pure_fit(*boundary, *fitting),
        cuts_within(painter.painting()),
    ensures
        steps(ops@) == prefixed_steps(
            painter.painting(),
            inline.shape(),
            row_fit(*boundary, *fitting),
            *spec,
            *prefix,
            width,
            gutter,
            row_start,
            row_start.saturating_add(row_count),
            spec.lines@.len() as int,
        ),
{
    let ghost p = painter.painting();
    let ghost shape = inline.shape();
    let ghost fit = row_fit(*boundary, *fitting);
    let rest = inline.join_runs(&styled_line_parts(&prefix.rest));
    let row_end = row_start.saturating_add(row_count);
    let mut ops: Vec<LineOp> = Vec::new();
    let mut source_row: usize = 0;
    let mut i: usize = 0;
    proof {
        assert(steps(ops@) =~= Seq::<LineStep>::empty());
    }
    while i < spec.lines.len()
        invariant
            i <= spec.lines@.len(),
            inline.wf(),
            painter.wf(),
            pure_fit(*boundary, *fitting),
            cuts_within(p),
            p == painter.painting(),
            shape == inline.shape(),
            fit == row_fit(*boundary, *fitting),
            row_end == row_start.saturating_add(row_count),
            run_views(rest@) == line_runs(shape, prefix.rest@),
            source_row == prefix_rows(shape, *spec, *prefix, width, i as int),
            steps(ops@) == prefixed_steps(
                p,
                shape,
                fit,
                *spec,
                *prefix,
                width,
                gutter,
                row_start,
                row_end,
                i as int,
            ),
        decreases spec.lines@.len() - i,
    {
        let own = if source_row == 0 {
            &prefix.first
        } else {
            &prefix.rest
        };
        let parts = inline.row_prefix_run_line(own, &rest, &spec.lines[i], width);
        let ghost base = source_row;
        let ghost so_far = steps(ops@);
        let ghost row_of = |row: int|
            prefixed_row_steps(p, shape, fit, *spec, *prefix, width, gutter, i as int, row);
        let mut row: usize = 0;
        proof {
            assert(fragment_rows(parts.wrapped@).len() == parts.wrapped@.len());
            assert(so_far + Seq::<LineStep>::empty() =~= so_far);
        }
        while row < parts.wrapped.len()
            invariant
                row <= parts.wrapped@.len(),
                i < spec.lines@.len(),
                inline.wf(),
                painter.wf(),
                pure_fit(*boundary, *fitting),
                cuts_within(p),
                p == painter.painting(),
                shape == inline.shape(),
                fit == row_fit(*boundary, *fitting),
                run_views(rest@) == line_runs(shape, prefix.rest@),
                own@ == line_prefix(shape, *spec, *prefix, width, i as int),
                ({
                    let both = composition(shape, own@, spec.lines@[i as int]@);
                    &&& run_views(parts.first_prefix@) == both.prefix
                    &&& run_views(parts.child@) == both.text
                    &&& parts.first_prefix_cols == first_cells(shape, both, width)
                    &&& parts.rest_prefix_cols == reserved_cells(shape, both.text, width)
                }),
                fragment_rows(parts.wrapped@) == line_rows(
                    shape,
                    *spec,
                    *prefix,
                    width,
                    i as int,
                ),
                row_of == (|row: int|
                    prefixed_row_steps(p, shape, fit, *spec, *prefix, width, gutter, i as int, row)),
                source_row == base.saturating_add(row),
                steps(ops@) == so_far + line_steps(row_of, base, row_start, row_end, row as int),
            decreases parts.wrapped@.len() - row,
        {
            let ghost now = steps(ops@);
            let ghost drawn = line_steps(row_of, base, row_start, row_end, row as int);
            if row_start <= source_row && source_row < row_end {
                draw_prefixed_row(
                    inline,
                    painter,
                    &mut ops,
                    spec,
                    prefix,
                    own,
                    &rest,
                    &parts,
                    width,
                    gutter,
                    i,
                    row,
                    boundary,
                    fitting,
                );
                proof {
                    lemma_behind(so_far, drawn, row_of(row as int));
                }
            } else {
                proof {
                    assert(drawn + Seq::<LineStep>::empty() =~= drawn);
                }
            }
            source_row = source_row.saturating_add(1);
            row += 1;
        }
        i += 1;
    }
    ops
}

proof fn lemma_prefix_ends(
    painting: Painting,
    fit: RowFit,
    spans: Seq<StyledSpan>,
    runs: Seq<RunView>,
    i: int,
    row: Seq<char>,
    at_boundary: bool,
    prefix_limit: u16,
    row_limit: u16,
)
    requires
        0 <= i,
    ensures
        row_ends(
            prefix_steps(painting, fit, spans, runs, i, row, at_boundary, prefix_limit, row_limit),
        ) == 0,
    decreases runs.len() - i,
{
    broadcast use lemma_ends_concat;

    if i < runs.len() {
        if runs[i].meta >= spans.len() {
            lemma_prefix_ends(
                painting,
                fit,
                spans,
                runs,
                i + 1,
                row,
                at_boundary,
                prefix_limit,
                row_limit,
            );
        } else {
            let span = spans[runs[i].meta as int];
            let text = runs[i].text;
            let outcome = prefix_run(
                painting,
                fit,
                span,
                text,
                row,
                at_boundary,
                prefix_limit,
                row_limit,
            );
            let head = if at_boundary && text.len() > 0 {
                (fit.boundary)(row, text)
            } else {
                0
            };
            let first = (painting.slice)(text, 0, head);
            let behind = if head > 0 {
                row + first
            } else {
                row
            };
            let left = (painting.slice)(text, head, text_bytes(text) as usize);
            let end = (head + (fit.fitting)(behind, left, prefix_limit)) as usize;
            lemma_range_ends(painting, span, text, None, 0, head, None);
            lemma_range_ends(painting, span, text, None, head, end, None);
            assert(row_ends(Seq::<LineStep>::empty()) == 0);
            assert(row_ends(outcome.steps) == 0);
            if !outcome.full {
                lemma_prefix_ends(
                    painting,
                    fit,
                    spans,
                    runs,
                    i + 1,
                    outcome.row,
                    outcome.at_boundary,
                    prefix_limit,
                    row_limit,
                );
            }
        }
    }
}

proof fn lemma_clipped_ends(
    painting: Painting,
    fit: RowFit,
    spec: RunsSpec,
    line: int,
    runs: Seq<RunView>,
    row: Seq<Fragment>,
    k: int,
    held: Seq<char>,
    limit: u16,
)
    requires
        0 <= k,
    ensures
        row_ends(clipped_steps(painting, fit, spec, line, runs, row, k, held, limit)) == 0,
    decreases row.len() - k,
{
    broadcast use lemma_ends_concat;

    if k < row.len() {
        let f = row[k];
        if f.run_index < runs.len() && runs[f.run_index as int].meta < spec.lines@[line]@.len() {
            let run = runs[f.run_index as int];
            let piece = (painting.slice)(run.text, f.start, f.end);
            let keep = (fit.fitting)(held, piece, limit);
            let stop = f.start.saturating_add(keep);
            lemma_range_ends(
                painting,
                spec.lines@[line]@[run.meta as int],
                run.text,
                spec.hl_group,
                f.start,
                stop,
                retained_spans(spec.syntax_highlights, line, run.meta as int),
            );
            let after = held + (painting.slice)(run.text, f.start, stop);
            lemma_clipped_ends(painting, fit, spec, line, runs, row, k + 1, after, limit);
        } else {
            lemma_clipped_ends(painting, fit, spec, line, runs, row, k + 1, held, limit);
        }
    }
}

proof fn lemma_row_ends(
    painting: Painting,
    shape: InlineShape,
    fit: RowFit,
    spec: RunsSpec,
    prefix: RowPrefixSpec,
    width: u16,
    gutter: Option<&GutterSpec>,
    line: int,
    row: int,
)
    ensures
        row_ends(
            prefixed_row_steps(painting, shape, fit, spec, prefix, width, gutter, line, row),
        ) == 1,
{
    broadcast use {lemma_ends_concat, lemma_ends_of_one};

    let own = line_prefix(shape, spec, prefix, width, line);
    let parts = composition(shape, own, spec.lines@[line]@);
    let spans = if row == 0 {
        own
    } else {
        prefix.rest@
    };
    let runs = if row == 0 {
        parts.prefix
    } else {
        line_runs(shape, prefix.rest@)
    };
    let cols = if row == 0 {
        first_cells(shape, parts, width)
    } else {
        reserved_cells(shape, parts.text, width)
    };
    let start = some_gutter_cells(gutter);
    let limit = start.saturating_add(width);
    let prefix_limit = start.saturating_add(cols);
    let before = gutter_text(gutter);
    lemma_no_ends(row_gutter_steps(gutter));
    lemma_prefix_ends(painting, fit, spans, runs, 0, before, true, prefix_limit, limit);
    lemma_clipped_ends(
        painting,
        fit,
        spec,
        line,
        parts.text,
        line_rows(shape, spec, prefix, width, line)[row],
        0,
        prefix_row(painting, fit, spans, runs, 0, before, true, prefix_limit, limit),
        limit,
    );
}

/// The rows `start .. end` of the first `rows`.
spec fn rows_below(rows: usize, start: usize, end: usize) -> int {
    let upto = if rows < end {
        rows
    } else {
        end
    };
    if start < upto {
        upto - start
    } else {
        0
    }
}

proof fn lemma_line_ends(
    row: spec_fn(int) -> Seq<LineStep>,
    base: usize,
    row_start: usize,
    row_end: usize,
    n: int,
)
    requires
        0 <= n <= usize::MAX,
        forall|r: int| row_ends(#[trigger] row(r)) == 1,
    ensures
        row_ends(line_steps(row, base, row_start, row_end, n)) == rows_below(
            base.saturating_add(n as usize),
            row_start,
            row_end,
        ) - rows_below(base, row_start, row_end),
    decreases n,
{
    broadcast use lemma_ends_concat;

    if n > 0 {
        lemma_line_ends(row, base, row_start, row_end, n - 1);
        assert(row_ends(row(n - 1)) == 1);
        assert(row_ends(Seq::<LineStep>::empty()) == 0);
    }
}

/// No line has more rows than a machine can count.
pub open spec fn rows_can_be_counted(
    shape: InlineShape,
    spec: RunsSpec,
    prefix: RowPrefixSpec,
    width: u16,
) -> bool {
    forall|i: int|
        0 <= i < spec.lines@.len() ==> (#[trigger] line_rows(
            shape,
            spec,
            prefix,
            width,
            i,
        )).len() <= usize::MAX
}

/// Runs whose rows carry a prefix are drawn as they are measured: of any range as many rows are
/// drawn as the runs are measured to have there.
pub proof fn prefixed_runs_draw_measured_rows(
    painting: Painting,
    shape: InlineShape,
    fit: RowFit,
    spec: RunsSpec,
    prefix: RowPrefixSpec,
    width: u16,
    gutter: Option<&GutterSpec>,
    row_start: usize,
    row_count: usize,
)
    requires
        rows_can_be_counted(shape, spec, prefix, width),
    ensures
        row_ends(
            prefixed_steps(
                painting,
                shape,
                fit,
                spec,
                prefix,
                width,
                gutter,
                row_start,
                row_start.saturating_add(row_count),
                spec.lines@.len() as int,
            ),
        ) == rows_within(
            prefix_rows(shape, spec, prefix, width, spec.lines@.len() as int) as int,
            row_start as int,
            row_count as int,
        ),
{
    let row_end = row_start.saturating_add(row_count);
    let n = spec.lines@.len() as int;
    lemma_prefixed_ends(painting, shape, fit, spec, prefix, width, gutter, row_start, row_end, n);
}

proof fn lemma_prefixed_ends(
    painting: Painting,
    shape: InlineShape,
    fit: RowFit,
    spec: RunsSpec,
    prefix: RowPrefixSpec,
    width: u16,
    gutter: Option<&GutterSpec>,
    row_start: usize,
    row_end: usize,
    n: int,
)
    requires
        0 <= n <= spec.lines@.len(),
        rows_can_be_counted(shape, spec, prefix, width),
    ensures
        row_ends(
            prefixed_steps(
                painting,
                shape,
                fit,
                spec,
                prefix,
                width,
                gutter,
                row_start,
                row_end,
                n,
            ),
        ) == rows_below(prefix_rows(shape, spec, prefix, width, n), row_start, row_end),
    decreases n,
{
    broadcast use lemma_ends_concat;

    if n > 0 {
        let rows = line_rows(shape, spec, prefix, width, n - 1).len() as int;
        let row_of = |row: int|
            prefixed_row_steps(painting, shape, fit, spec, prefix, width, gutter, n - 1, row);
        let base = prefix_rows(shape, spec, prefix, width, n - 1);
        lemma_prefixed_ends(
            painting,
            shape,
            fit,
            spec,
            prefix,
            width,
            gutter,
            row_start,
            row_end,
            n - 1,
        );
        assert forall|r: int| row_ends(#[trigger] row_of(r)) == 1 by {
            lemma_row_ends(painting, shape, fit, spec, prefix, width, gutter, n - 1, r);
        }
        lemma_line_ends(row_of, base, row_start, row_end, rows);
    }
}

} // verus!
