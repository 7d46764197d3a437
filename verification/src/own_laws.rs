//! What is drawn of a layout whose leaves this library measures and draws.
use vstd::prelude::*;
use crate::cap_laws::{content_heads, content_windows, cuts_at_bound, edge_is_head_of_rows, is_head};
use crate::content_draw::ContentCanvas;
use crate::highlight_laws::{overlooks_highlights, same_but_highlights, same_leaf};
use crate::host::Metrics;
use crate::ir::{
    BlockLayout, Constraint, ContentRenderSpec, ContentTextWindow, IrLeaf, LayoutIr,
    RetainedContentSpec, RowPrefixSpec, RunsSpec,
};
use crate::leaf_draw::ContentTextRow;
use crate::leaf_edges::{
    content_edge, content_rows, edge_mode, window_of, ContentFacts, ContentMetrics, ContentRuler,
    RetainedMarkdownEdgeMode, MAX_BOUNDED_MARKDOWN_PARSE_BYTES,
};
use crate::leaf_laws::{laid_out_here, leaf_draws_measured_rows, row_ends};
use crate::leaf_measure::{leaf_rows, LeafRuler};
use crate::leaf_render::leaf_drawn;
use crate::leaf_rows::clamped_rows;
use crate::line_ops::{LineOp, LineStep, RowsAsked};
use crate::measure::layout_rows;
use crate::named_rows::{drawn_rows_are_there, names_a_row, row_named};
use crate::own_host::own_metrics;
use crate::paint::Color;
use crate::plan::same_but_contents;
use crate::prefixed_runs::{prefixed_runs_draw_measured_rows, prefixed_steps, rows_can_be_counted};
use crate::render::{range_rows, RenderMeasurement};
use crate::render_laws::gutter_free;
use crate::row_prefix::{prefix_rows, RowFit};
use crate::rows::RowOp;
use crate::spot_laws::{drawing_draws_measured_rows, draws_on_the_spot};
use crate::styled_runs::{run_counts, Fragment, InlineRun, InlineShape, InlineText};
use crate::styled_text::SpanPainter;
use crate::text::spec_min;
use crate::view_state::Outcome;
use crate::widths::{after_gutter, prefix_cells, some_gutter_cells};

verus! {

/// Where a step of a row stands for a row of a leaf that this library lays out, the leaf draws
/// one row for it, and so do runs whose rows carry a prefix.
pub open spec fn draws_one_row<
    'a,
    P: Fn(&str, u16) -> Vec<String>,
    A: Fn(&str, u16) -> usize,
    I: Fn(&str, bool, bool, u16) -> usize,
    M: Fn(&str, bool, u16) -> usize,
    K: Fn(&Vec<String>, &str, u16) -> usize,
    V: Fn(u64, u16, u16) -> usize,
    J: Fn(&Vec<InlineRun>) -> Vec<InlineRun>,
    W: Fn(&Vec<InlineRun>, usize, usize) -> Vec<Vec<Fragment>>,
    O: Fn(&Vec<InlineRun>, usize, usize, usize, usize) -> Vec<Vec<Fragment>>,
    C: Fn(&Vec<InlineRun>) -> usize,
    E: Fn(&Vec<InlineRun>) -> bool,
    R0: Fn(u64) -> ContentFacts,
    R1: Fn(u64, u16, bool) -> usize,
    R2: Fn(u64, u16, bool, usize) -> ContentTextWindow,
    R3: Fn(u64, bool, bool, u16) -> usize,
    R4: Fn(u64, bool, u16) -> usize,
    R5: Fn(u64, bool, u16, usize) -> ContentTextWindow,
    R6: Fn(u64, u16) -> usize,
    R7: Fn(u64, u16, usize) -> ContentTextWindow,
    R8: Fn(u64, u16, u16) -> usize,
    R9: Fn(u64, u16, usize) -> ContentTextWindow,
    S: Fn(&str, usize, usize) -> String,
    F: Fn(&str) -> Option<Color>,
    B: Fn(&str) -> Option<Color>,
    Q: Fn(u64, u16, bool, RowsAsked) -> Vec<ContentTextRow>,
    L: Fn(u64, bool, bool, u16) -> Vec<usize>,
    T: Fn(&Vec<LineOp>, u16) -> Outcome,
    X: Fn(&str) -> String,
>(
    ruler: &'a LeafRuler<'a, P, A, I, M, K, V>,
    runs: &'a InlineText<'a, J, W, O, C, E>,
    canvas: &'a ContentCanvas<
        'a,
        ContentRuler<'a, R0, R1, R2, R3, R4, R5, R6, R7, R8, R9>,
        SpanPainter<'a, S, F, B>,
        Q,
        L,
        T,
        X,
    >,
    op: RowOp<'_>,
) -> bool {
    match op {
        RowOp::Leaf { leaf, width, row, gutter } => laid_out_here(*leaf) ==> forall|
            out: Seq<LineStep>,
        | #[trigger]
            leaf_drawn(ruler, runs, canvas, *leaf, width, row, 1, gutter, out) ==> row_ends(out)
                == 1,
        RowOp::PrefixedRuns { runs: spec, prefix, width, row, gutter } => rows_can_be_counted(
            runs.shape(),
            *spec,
            *prefix,
            width,
        ) ==> forall|fit: RowFit|
            row_ends(
                #[trigger] prefixed_steps(
                    canvas.painter.painting(),
                    runs.shape(),
                    fit,
                    *spec,
                    *prefix,
                    width,
                    gutter,
                    row,
                    row.saturating_add(1),
                    spec.lines@.len() as int,
                ),
            ) == 1,
        _ => true,
    }
}

proof fn lemma_named_row_is_drawn<
    'a,
    P: Fn(&str, u16) -> Vec<String>,
    A: Fn(&str, u16) -> usize,
    I: Fn(&str, bool, bool, u16) -> usize,
    M: Fn(&str, bool, u16) -> usize,
    K: Fn(&Vec<String>, &str, u16) -> usize,
    V: Fn(u64, u16, u16) -> usize,
    J: Fn(&Vec<InlineRun>) -> Vec<InlineRun>,
    W: Fn(&Vec<InlineRun>, usize, usize) -> Vec<Vec<Fragment>>,
    O: Fn(&Vec<InlineRun>, usize, usize, usize, usize) -> Vec<Vec<Fragment>>,
    C: Fn(&Vec<InlineRun>) -> usize,
    E: Fn(&Vec<InlineRun>) -> bool,
    R0: Fn(u64) -> ContentFacts,
    R1: Fn(u64, u16, bool) -> usize,
    R2: Fn(u64, u16, bool, usize) -> ContentTextWindow,
    R3: Fn(u64, bool, bool, u16) -> usize,
    R4: Fn(u64, bool, u16) -> usize,
    R5: Fn(u64, bool, u16, usize) -> ContentTextWindow,
    R6: Fn(u64, u16) -> usize,
    R7: Fn(u64, u16, usize) -> ContentTextWindow,
    R8: Fn(u64, u16, u16) -> usize,
    R9: Fn(u64, u16, usize) -> ContentTextWindow,
    S: Fn(&str, usize, usize) -> String,
    F: Fn(&str) -> Option<Color>,
    B: Fn(&str) -> Option<Color>,
    Q: Fn(u64, u16, bool, RowsAsked) -> Vec<ContentTextRow>,
    L: Fn(u64, bool, bool, u16) -> Vec<usize>,
    T: Fn(&Vec<LineOp>, u16) -> Outcome,
    X: Fn(&str) -> String,
>(
    m: Metrics,
    ruler: &'a LeafRuler<'a, P, A, I, M, K, V>,
    runs: &'a InlineText<'a, J, W, O, C, E>,
    canvas: &'a ContentCanvas<
        'a,
        ContentRuler<'a, R0, R1, R2, R3, R4, R5, R6, R7, R8, R9>,
        SpanPainter<'a, S, F, B>,
        Q,
        L,
        T,
        X,
    >,
    op: RowOp<'_>,
)
    requires
        m == own_metrics(
            ruler,
            runs,
            canvas.ruler,
            m.widths,
            m.leaf_visible,
            m.drawn_visible,
        ),
        names_a_row(m, op),
    ensures
        draws_one_row(ruler, runs, canvas, op),
{
    if let RowOp::Leaf { leaf, width, row, gutter } = op {
        if laid_out_here(*leaf) {
            let cells = some_gutter_cells(gutter);
            let total = leaf_rows(ruler, runs, canvas.ruler, *leaf, width, cells);
            assert(total == leaf_rows(ruler, runs, canvas.ruler, *leaf, width, 0));
            assert(row < clamped_rows(total));
            assert forall|out: Seq<LineStep>| #[trigger]
                leaf_drawn(
                    ruler,
                    runs,
                    canvas,
                    *leaf,
                    width,
                    row,
                    1,
                    gutter,
                    out,
                ) implies row_ends(out) == 1 by {
                leaf_draws_measured_rows(ruler, runs, canvas, *leaf, width, row, 1, gutter, out);
            }
        }
    }
    if let RowOp::PrefixedRuns { runs: spec, prefix, width, row, gutter } = op {
        let shape = runs.shape();
        let n = spec.lines@.len() as int;
        if rows_can_be_counted(shape, *spec, *prefix, width) {
            assert(row < prefix_rows(shape, *spec, *prefix, width, n));
            assert forall|fit: RowFit|
                row_ends(
                    #[trigger] prefixed_steps(
                        canvas.painter.painting(),
                        shape,
                        fit,
                        *spec,
                        *prefix,
                        width,
                        gutter,
                        row,
                        row.saturating_add(1),
                        n,
                    ),
                ) == 1 by {
                prefixed_runs_draw_measured_rows(
                    canvas.painter.painting(),
                    shape,
                    fit,
                    *spec,
                    *prefix,
                    width,
                    gutter,
                    row,
                    1,
                );
            }
        }
    }
}

/// A layout whose leaves this library measures and draws is drawn as it is measured: as many
/// rows are drawn as it is measured to have, if these can be counted in 16 bits, and the leaf
/// that a row stands for draws one row there.
pub proof fn own_layout_is_drawn_as_measured<
    'a,
    P: Fn(&str, u16) -> Vec<String>,
    A: Fn(&str, u16) -> usize,
    I: Fn(&str, bool, bool, u16) -> usize,
    M: Fn(&str, bool, u16) -> usize,
    K: Fn(&Vec<String>, &str, u16) -> usize,
    V: Fn(u64, u16, u16) -> usize,
    J: Fn(&Vec<InlineRun>) -> Vec<InlineRun>,
    W: Fn(&Vec<InlineRun>, usize, usize) -> Vec<Vec<Fragment>>,
    O: Fn(&Vec<InlineRun>, usize, usize, usize, usize) -> Vec<Vec<Fragment>>,
    C: Fn(&Vec<InlineRun>) -> usize,
    E: Fn(&Vec<InlineRun>) -> bool,
    R0: Fn(u64) -> ContentFacts,
    R1: Fn(u64, u16, bool) -> usize,
    R2: Fn(u64, u16, bool, usize) -> ContentTextWindow,
    R3: Fn(u64, bool, bool, u16) -> usize,
    R4: Fn(u64, bool, u16) -> usize,
    R5: Fn(u64, bool, u16, usize) -> ContentTextWindow,
    R6: Fn(u64, u16) -> usize,
    R7: Fn(u64, u16, usize) -> ContentTextWindow,
    R8: Fn(u64, u16, u16) -> usize,
    R9: Fn(u64, u16, usize) -> ContentTextWindow,
    S: Fn(&str, usize, usize) -> String,
    F: Fn(&str) -> Option<Color>,
    B: Fn(&str) -> Option<Color>,
    Q: Fn(u64, u16, bool, RowsAsked) -> Vec<ContentTextRow>,
    L: Fn(u64, bool, bool, u16) -> Vec<usize>,
    T: Fn(&Vec<LineOp>, u16) -> Outcome,
    X: Fn(&str) -> String,
>(
    ruler: &'a LeafRuler<'a, P, A, I, M, K, V>,
    runs: &'a InlineText<'a, J, W, O, C, E>,
    canvas: &'a ContentCanvas<
        'a,
        ContentRuler<'a, R0, R1, R2, R3, R4, R5, R6, R7, R8, R9>,
        SpanPainter<'a, S, F, B>,
        Q,
        L,
        T,
        X,
    >,
    widths: spec_fn(Seq<Constraint>, Seq<u16>, u16) -> Seq<u16>,
    leaf_visible: spec_fn(IrLeaf, u16, usize, usize) -> bool,
    drawn_visible: spec_fn(LayoutIr, u16, usize, usize) -> bool,
    layout: &LayoutIr,
    width: u16,
)
    requires
        ({
            let m = own_metrics(ruler, runs, canvas.ruler, widths, leaf_visible, drawn_visible);
            draws_on_the_spot(m, layout, width, None) && layout_rows(m, *layout, width, 0)
                <= u16::MAX
        }),
    ensures
        ({
            let m = own_metrics(ruler, runs, canvas.ruler, widths, leaf_visible, drawn_visible);
            let all = RenderMeasurement::Complete;
            let rows = range_rows(m, layout, width, 0, usize::MAX, None, all);
            &&& rows.len() == layout_rows(m, *layout, width, 0)
            &&& forall|i: int, j: int|
                0 <= i < rows.len() && 0 <= j < rows[i].len() ==> draws_one_row(
                    ruler,
                    runs,
                    canvas,
                    #[trigger] rows[i][j],
                )
        }),
{
    let m = own_metrics(ruler, runs, canvas.ruler, widths, leaf_visible, drawn_visible);
    let all = RenderMeasurement::Complete;
    let rows = range_rows(m, layout, width, 0, usize::MAX, None, all);
    drawing_draws_measured_rows(m, layout, width);
    drawn_rows_are_there(m, layout, width, 0, usize::MAX, None, all);
    assert forall|i: int, j: int|
        0 <= i < rows.len() && 0 <= j < rows[i].len() implies draws_one_row(
        ruler,
        runs,
        canvas,
        #[trigger] rows[i][j],
    ) by {
        assert(row_named(m, rows[i]));
        lemma_named_row_is_drawn(m, ruler, runs, canvas, rows[i][j]);
    }
}

/// Where a content grows, only what is said of contents changes.
pub proof fn contents_change_only_themselves<
    'a,
    P: Fn(&str, u16) -> Vec<String>,
    A: Fn(&str, u16) -> usize,
    I: Fn(&str, bool, bool, u16) -> usize,
    M: Fn(&str, bool, u16) -> usize,
    K: Fn(&Vec<String>, &str, u16) -> usize,
    V: Fn(u64, u16, u16) -> usize,
    J: Fn(&Vec<InlineRun>) -> Vec<InlineRun>,
    W: Fn(&Vec<InlineRun>, usize, usize) -> Vec<Vec<Fragment>>,
    O: Fn(&Vec<InlineRun>, usize, usize, usize, usize) -> Vec<Vec<Fragment>>,
    C: Fn(&Vec<InlineRun>) -> usize,
    E: Fn(&Vec<InlineRun>) -> bool,
    R0: Fn(u64) -> ContentFacts,
    R1: Fn(u64, u16, bool) -> usize,
    R2: Fn(u64, u16, bool, usize) -> ContentTextWindow,
    R3: Fn(u64, bool, bool, u16) -> usize,
    R4: Fn(u64, bool, u16) -> usize,
    R5: Fn(u64, bool, u16, usize) -> ContentTextWindow,
    R6: Fn(u64, u16) -> usize,
    R7: Fn(u64, u16, usize) -> ContentTextWindow,
    R8: Fn(u64, u16, u16) -> usize,
    R9: Fn(u64, u16, usize) -> ContentTextWindow,
>(
    ruler: &'a LeafRuler<'a, P, A, I, M, K, V>,
    runs: &'a InlineText<'a, J, W, O, C, E>,
    before: &'a ContentRuler<'a, R0, R1, R2, R3, R4, R5, R6, R7, R8, R9>,
    after: &'a ContentRuler<'a, R0, R1, R2, R3, R4, R5, R6, R7, R8, R9>,
    widths: spec_fn(Seq<Constraint>, Seq<u16>, u16) -> Seq<u16>,
    leaf_visible: spec_fn(IrLeaf, u16, usize, usize) -> bool,
    drawn_visible: spec_fn(LayoutIr, u16, usize, usize) -> bool,
)
    ensures
        same_but_contents(
            own_metrics(ruler, runs, before, widths, leaf_visible, drawn_visible),
            own_metrics(ruler, runs, after, widths, leaf_visible, drawn_visible),
        ),
{
    let a = own_metrics(ruler, runs, before, widths, leaf_visible, drawn_visible);
    let b = own_metrics(ruler, runs, after, widths, leaf_visible, drawn_visible);
    assert(a.prefix_rows =~= b.prefix_rows);
}

proof fn lemma_same_prefixed(
    shape: InlineShape,
    a: RunsSpec,
    b: RunsSpec,
    prefix: RowPrefixSpec,
    width: u16,
    n: int,
)
    requires
        a.lines == b.lines,
    ensures
        prefix_rows(shape, a, prefix, width, n) == prefix_rows(shape, b, prefix, width, n),
    decreases n,
{
    if n > 0 {
        lemma_same_prefixed(shape, a, b, prefix, width, n - 1);
    }
}

/// Highlights count for nothing where this library measures the leaves, if they count for
/// nothing in what is shown of a drawn layout.
pub proof fn own_leaves_overlook_highlights<
    'a,
    P: Fn(&str, u16) -> Vec<String>,
    A: Fn(&str, u16) -> usize,
    I: Fn(&str, bool, bool, u16) -> usize,
    M: Fn(&str, bool, u16) -> usize,
    K: Fn(&Vec<String>, &str, u16) -> usize,
    V: Fn(u64, u16, u16) -> usize,
    J: Fn(&Vec<InlineRun>) -> Vec<InlineRun>,
    W: Fn(&Vec<InlineRun>, usize, usize) -> Vec<Vec<Fragment>>,
    O: Fn(&Vec<InlineRun>, usize, usize, usize, usize) -> Vec<Vec<Fragment>>,
    C: Fn(&Vec<InlineRun>) -> usize,
    E: Fn(&Vec<InlineRun>) -> bool,
    R0: Fn(u64) -> ContentFacts,
    R1: Fn(u64, u16, bool) -> usize,
    R2: Fn(u64, u16, bool, usize) -> ContentTextWindow,
    R3: Fn(u64, bool, bool, u16) -> usize,
    R4: Fn(u64, bool, u16) -> usize,
    R5: Fn(u64, bool, u16, usize) -> ContentTextWindow,
    R6: Fn(u64, u16) -> usize,
    R7: Fn(u64, u16, usize) -> ContentTextWindow,
    R8: Fn(u64, u16, u16) -> usize,
    R9: Fn(u64, u16, usize) -> ContentTextWindow,
>(
    ruler: &'a LeafRuler<'a, P, A, I, M, K, V>,
    runs: &'a InlineText<'a, J, W, O, C, E>,
    contents: &'a ContentRuler<'a, R0, R1, R2, R3, R4, R5, R6, R7, R8, R9>,
    widths: spec_fn(Seq<Constraint>, Seq<u16>, u16) -> Seq<u16>,
    leaf_visible: spec_fn(IrLeaf, u16, usize, usize) -> bool,
    drawn_visible: spec_fn(LayoutIr, u16, usize, usize) -> bool,
)
    requires
        forall|a: LayoutIr, b: LayoutIr, width: u16, start: usize, end: usize|
            #![trigger same_but_highlights(a, b), drawn_visible(b, width, start, end)]
            same_but_highlights(a, b) ==> drawn_visible(a, width, start, end) == drawn_visible(
                b,
                width,
                start,
                end,
            ),
    ensures
        overlooks_highlights(
            own_metrics(ruler, runs, contents, widths, leaf_visible, drawn_visible),
        ),
{
    let m = own_metrics(ruler, runs, contents, widths, leaf_visible, drawn_visible);
    assert forall|a: IrLeaf, b: IrLeaf, width: u16, gutter: u16|
        #![trigger same_leaf(a, b), (m.leaf_rows)(b, width, gutter)]
        same_leaf(a, b) implies (m.leaf_rows)(a, width, gutter) == (m.leaf_rows)(
        b,
        width,
        gutter,
    ) by {
        if let (IrLeaf::Runs(x), IrLeaf::Runs(y)) = (a, b) {
            assert(run_counts(runs.shape(), x, width) =~= run_counts(runs.shape(), y, width));
        }
    }
    assert forall|a: IrLeaf, b: IrLeaf, prefix: RowPrefixSpec, width: u16|
        #![trigger same_leaf(a, b), (m.prefix_rows)(b->Runs_0, prefix, width)]
        a is Runs && same_leaf(a, b) implies (m.prefix_rows)(a->Runs_0, prefix, width) == (
    m.prefix_rows)(b->Runs_0, prefix, width) by {
        let (x, y) = (a->Runs_0, b->Runs_0);
        lemma_same_prefixed(runs.shape(), x, y, prefix, width, x.lines@.len() as int);
    }
}

/// The leaf takes as many rows behind a gutter as without, at the width that is left: it is
/// neither a file nor a source view.
pub open spec fn wraps_by_width(leaf: IrLeaf) -> bool {
    match leaf {
        IrLeaf::SourceView(_) => false,
        IrLeaf::Content(spec) => !(spec.render is File),
        _ => true,
    }
}

/// No leaf that a gutter around `layout` reaches is a file or a source view.
pub open spec fn all_wrap_by_width(layout: LayoutIr) -> bool
    decreases layout,
{
    match layout {
        BlockLayout::Leaf(leaf) => wraps_by_width(leaf),
        BlockLayout::Vbox(items) => forall|i: int|
            0 <= i < items@.len() ==> all_wrap_by_width(#[trigger] items@[i]),
        BlockLayout::RowPrefix { child, .. } => all_wrap_by_width(*child),
        BlockLayout::Style { child, .. } => all_wrap_by_width(*child),
        BlockLayout::Refresh { child, .. } => all_wrap_by_width(*child),
        _ => true,
    }
}

/// Where this library measures the leaves, only files and source views have other rows behind a
/// gutter than without.
pub proof fn own_leaves_ignore_gutters<
    'a,
    P: Fn(&str, u16) -> Vec<String>,
    A: Fn(&str, u16) -> usize,
    I: Fn(&str, bool, bool, u16) -> usize,
    M: Fn(&str, bool, u16) -> usize,
    K: Fn(&Vec<String>, &str, u16) -> usize,
    V: Fn(u64, u16, u16) -> usize,
    J: Fn(&Vec<InlineRun>) -> Vec<InlineRun>,
    W: Fn(&Vec<InlineRun>, usize, usize) -> Vec<Vec<Fragment>>,
    O: Fn(&Vec<InlineRun>, usize, usize, usize, usize) -> Vec<Vec<Fragment>>,
    C: Fn(&Vec<InlineRun>) -> usize,
    E: Fn(&Vec<InlineRun>) -> bool,
    R0: Fn(u64) -> ContentFacts,
    R1: Fn(u64, u16, bool) -> usize,
    R2: Fn(u64, u16, bool, usize) -> ContentTextWindow,
    R3: Fn(u64, bool, bool, u16) -> usize,
    R4: Fn(u64, bool, u16) -> usize,
    R5: Fn(u64, bool, u16, usize) -> ContentTextWindow,
    R6: Fn(u64, u16) -> usize,
    R7: Fn(u64, u16, usize) -> ContentTextWindow,
    R8: Fn(u64, u16, u16) -> usize,
    R9: Fn(u64, u16, usize) -> ContentTextWindow,
>(
    ruler: &'a LeafRuler<'a, P, A, I, M, K, V>,
    runs: &'a InlineText<'a, J, W, O, C, E>,
    contents: &'a ContentRuler<'a, R0, R1, R2, R3, R4, R5, R6, R7, R8, R9>,
    widths: spec_fn(Seq<Constraint>, Seq<u16>, u16) -> Seq<u16>,
    leaf_visible: spec_fn(IrLeaf, u16, usize, usize) -> bool,
    drawn_visible: spec_fn(LayoutIr, u16, usize, usize) -> bool,
    layout: LayoutIr,
    width: u16,
    gutter: u16,
)
    requires
        all_wrap_by_width(layout),
    ensures
        gutter_free(
            own_metrics(ruler, runs, contents, widths, leaf_visible, drawn_visible),
            layout,
            width,
            gutter,
        ),
    decreases layout,
{
    match layout {
        BlockLayout::Vbox(items) => {
            let m = own_metrics(ruler, runs, contents, widths, leaf_visible, drawn_visible);
            assert forall|i: int| 0 <= i < items@.len() implies gutter_free(
                m,
                #[trigger] items@[i],
                width,
                gutter,
            ) by {
                own_leaves_ignore_gutters(
                    ruler,
                    runs,
                    contents,
                    widths,
                    leaf_visible,
                    drawn_visible,
                    items@[i],
                    width,
                    gutter,
                );
            }
        },
        BlockLayout::RowPrefix { child, spec } => {
            own_leaves_ignore_gutters(
                ruler,
                runs,
                contents,
                widths,
                leaf_visible,
                drawn_visible,
                *child,
                after_gutter(width, prefix_cells(spec)),
                gutter,
            );
        },
        BlockLayout::Style { child, .. } => {
            own_leaves_ignore_gutters(
                ruler,
                runs,
                contents,
                widths,
                leaf_visible,
                drawn_visible,
                *child,
                width,
                gutter,
            );
        },
        BlockLayout::Refresh { child, .. } => {
            own_leaves_ignore_gutters(
                ruler,
                runs,
                contents,
                widths,
                leaf_visible,
                drawn_visible,
                *child,
                width,
                gutter,
            );
        },
        _ => {},
    }
}

/// What is said of the first rows of a content is said of the rows that it has.
pub open spec fn edges_of_rows(metrics: ContentMetrics) -> bool {
    &&& forall|c: u64, w: u16, ansi: bool|
        (metrics.facts)(c).logical_lines <= #[trigger] (metrics.text_rows)(c, w, ansi)
    &&& forall|c: u64, w: u16, ansi: bool, n: usize| #[trigger]
        (metrics.text_head)(c, w, ansi, n) == window_of((metrics.text_rows)(c, w, ansi), n)
    &&& forall|c: u64, dim: bool, w: u16, n: usize| #[trigger]
        (metrics.markdown_edge)(c, dim, w, n) == window_of((metrics.markdown_rows)(c, dim, w), n)
    &&& forall|c: u64, w: u16, n: usize| #[trigger]
        (metrics.code_edge)(c, w, n) == window_of((metrics.code_rows)(c, w), n)
    &&& forall|c: u64, w: u16, n: usize| #[trigger]
        (metrics.file_edge)(c, w, n) == window_of((metrics.file_rows)(c, w, 0), n)
}

/// The rows of which a content shows the first: one row where it is left out.
spec fn edge_total(metrics: ContentMetrics, content: RetainedContentSpec, width: u16) -> usize {
    let c = content.content;
    match content.render {
        ContentRenderSpec::Text { ansi, .. } => (metrics.text_rows)(c, width, ansi),
        ContentRenderSpec::Markdown { dim, italic, inline } => match edge_mode(
            (metrics.facts)(c),
            inline,
        ) {
            RetainedMarkdownEdgeMode::Literal => (metrics.text_rows)(c, width, false),
            RetainedMarkdownEdgeMode::Omitted => 1,
            RetainedMarkdownEdgeMode::Parsed => if inline {
                (metrics.inline_rows)(c, dim, italic, width)
            } else {
                (metrics.markdown_rows)(c, dim, width)
            },
        },
        ContentRenderSpec::Code { .. } => (metrics.code_rows)(c, width),
        ContentRenderSpec::File { .. } => (metrics.file_rows)(c, width, 0),
    }
}

proof fn lemma_edge_is_window(
    metrics: ContentMetrics,
    content: RetainedContentSpec,
    width: u16,
    n: usize,
)
    requires
        edges_of_rows(metrics),
    ensures
        content_edge(metrics, content, width, n) == window_of(
            edge_total(metrics, content, width),
            n,
        ),
{
    let c = content.content;
    match content.render {
        ContentRenderSpec::Text { ansi, .. } => {
            assert((metrics.facts)(c).logical_lines <= (metrics.text_rows)(c, width, ansi));
        },
        _ => {},
    }
}

/// Where what is said of the first rows of a content is said of the rows that it has, a host
/// whose leaves this library measures tells the first rows of one content, however many are
/// asked for.
pub proof fn own_contents_are_heads<
    'a,
    P: Fn(&str, u16) -> Vec<String>,
    A: Fn(&str, u16) -> usize,
    I: Fn(&str, bool, bool, u16) -> usize,
    M: Fn(&str, bool, u16) -> usize,
    K: Fn(&Vec<String>, &str, u16) -> usize,
    V: Fn(u64, u16, u16) -> usize,
    J: Fn(&Vec<InlineRun>) -> Vec<InlineRun>,
    W: Fn(&Vec<InlineRun>, usize, usize) -> Vec<Vec<Fragment>>,
    O: Fn(&Vec<InlineRun>, usize, usize, usize, usize) -> Vec<Vec<Fragment>>,
    C: Fn(&Vec<InlineRun>) -> usize,
    E: Fn(&Vec<InlineRun>) -> bool,
    R0: Fn(u64) -> ContentFacts,
    R1: Fn(u64, u16, bool) -> usize,
    R2: Fn(u64, u16, bool, usize) -> ContentTextWindow,
    R3: Fn(u64, bool, bool, u16) -> usize,
    R4: Fn(u64, bool, u16) -> usize,
    R5: Fn(u64, bool, u16, usize) -> ContentTextWindow,
    R6: Fn(u64, u16) -> usize,
    R7: Fn(u64, u16, usize) -> ContentTextWindow,
    R8: Fn(u64, u16, u16) -> usize,
    R9: Fn(u64, u16, usize) -> ContentTextWindow,
>(
    ruler: &'a LeafRuler<'a, P, A, I, M, K, V>,
    runs: &'a InlineText<'a, J, W, O, C, E>,
    contents: &'a ContentRuler<'a, R0, R1, R2, R3, R4, R5, R6, R7, R8, R9>,
    widths: spec_fn(Seq<Constraint>, Seq<u16>, u16) -> Seq<u16>,
    leaf_visible: spec_fn(IrLeaf, u16, usize, usize) -> bool,
    drawn_visible: spec_fn(LayoutIr, u16, usize, usize) -> bool,
)
    requires
        edges_of_rows(contents.metrics()),
    ensures
        content_heads(own_metrics(ruler, runs, contents, widths, leaf_visible, drawn_visible)),
{
    let m = own_metrics(ruler, runs, contents, widths, leaf_visible, drawn_visible);
    assert forall|content: RetainedContentSpec, width: u16| is_head(
        #[trigger] content_windows(m, content, width),
    ) && cuts_at_bound(content_windows(m, content, width)) by {
        let window = content_windows(m, content, width);
        let total = edge_total(contents.metrics(), content, width);
        assert forall|n: usize| #[trigger] window(n) == window_of(total, n) by {
            lemma_edge_is_window(contents.metrics(), content, width, n);
        }
    }
}

/// The first rows of markdown that is small enough to be parsed at once are the first of the
/// rows that it has.
pub proof fn own_markdown_edge_is_head_of_its_rows<
    'a,
    P: Fn(&str, u16) -> Vec<String>,
    A: Fn(&str, u16) -> usize,
    I: Fn(&str, bool, bool, u16) -> usize,
    M: Fn(&str, bool, u16) -> usize,
    K: Fn(&Vec<String>, &str, u16) -> usize,
    V: Fn(u64, u16, u16) -> usize,
    J: Fn(&Vec<InlineRun>) -> Vec<InlineRun>,
    W: Fn(&Vec<InlineRun>, usize, usize) -> Vec<Vec<Fragment>>,
    O: Fn(&Vec<InlineRun>, usize, usize, usize, usize) -> Vec<Vec<Fragment>>,
    C: Fn(&Vec<InlineRun>) -> usize,
    E: Fn(&Vec<InlineRun>) -> bool,
    R0: Fn(u64) -> ContentFacts,
    R1: Fn(u64, u16, bool) -> usize,
    R2: Fn(u64, u16, bool, usize) -> ContentTextWindow,
    R3: Fn(u64, bool, bool, u16) -> usize,
    R4: Fn(u64, bool, u16) -> usize,
    R5: Fn(u64, bool, u16, usize) -> ContentTextWindow,
    R6: Fn(u64, u16) -> usize,
    R7: Fn(u64, u16, usize) -> ContentTextWindow,
    R8: Fn(u64, u16, u16) -> usize,
    R9: Fn(u64, u16, usize) -> ContentTextWindow,
>(
    ruler: &'a LeafRuler<'a, P, A, I, M, K, V>,
    runs: &'a InlineText<'a, J, W, O, C, E>,
    contents: &'a ContentRuler<'a, R0, R1, R2, R3, R4, R5, R6, R7, R8, R9>,
    widths: spec_fn(Seq<Constraint>, Seq<u16>, u16) -> Seq<u16>,
    leaf_visible: spec_fn(IrLeaf, u16, usize, usize) -> bool,
    drawn_visible: spec_fn(LayoutIr, u16, usize, usize) -> bool,
    content: RetainedContentSpec,
    width: u16,
    gutter: u16,
)
    requires
        edges_of_rows(contents.metrics()),
        content.render is Markdown,
        ({
            let facts = (contents.metrics().facts)(content.content);
            &&& facts.len <= MAX_BOUNDED_MARKDOWN_PARSE_BYTES
            &&& !facts.large_markdown
            &&& edge_mode(facts, content.render->Markdown_inline)
                != RetainedMarkdownEdgeMode::Omitted
        }),
    ensures
        edge_is_head_of_rows(
            own_metrics(ruler, runs, contents, widths, leaf_visible, drawn_visible),
            content,
            width,
            gutter,
        ),
{
    let m = own_metrics(ruler, runs, contents, widths, leaf_visible, drawn_visible);
    let leaf = IrLeaf::Content(content);
    assert(leaf_rows(ruler, runs, contents, leaf, width, gutter) == content_rows(
        contents.metrics(),
        content,
        width,
        gutter,
    ));
    assert forall|n: usize| (#[trigger] (m.edge)(content, width, n)).row_count == spec_min(
        (m.leaf_rows)(leaf, width, gutter),
        n,
    ) by {
        lemma_edge_is_window(contents.metrics(), content, width, n);
    }
}

} // verus!
