//! How a leaf is drawn.
use vstd::prelude::*;
use crate::content_draw::{
    code_drawn, markdown_drawn, render_code_spec, render_markdown_rows, ContentCanvas,
};
use crate::ir::{ContentTextWindow, GutterSpec, IrLeaf, MarkdownSpec};
use crate::leaf_draw::ContentTextRow;
use crate::leaf_edges::{ContentFacts, ContentRuler};
use crate::leaf_measure::{code_lines, code_measured, leaf_rows, LeafRuler};
use crate::leaf_rows::{drawn, rows_in_all};
use crate::leaf_text::{
    can_render_markdown_as_plain, drawn_plain_markdown, inline_counts, inline_row_steps,
    is_ascii_word, is_plain_markdown, plain_counts, pure_inline, pure_wrap,
    render_inline_markdown_spec, render_plain_markdown_spec, render_text_spec, text_body,
    text_counts, text_row_steps,
};
use crate::line_ops::{steps, LineOp, LineStep, RowsAsked};
use crate::paint::Color;
use crate::styled_runs::{
    line_steps, render_line_spec, render_runs_spec, render_separator_spec, run_counts,
    run_row_steps, separator_steps, Fragment, InlineRun, InlineText,
};
use crate::styled_text::SpanPainter;
use crate::view_state::Outcome;
use crate::widths::{gutter_width, some_gutter_cells};

verus! {

/// The rows of markdown that is part of the layout can be counted.
pub open spec fn countable_markdown<
    P: Fn(&str, u16) -> Vec<String>,
    I: Fn(&str, bool, bool, u16) -> usize,
>(wrap: P, inline: I, spec: MarkdownSpec, width: u16) -> bool {
    if spec.inline {
        rows_in_all(inline_counts(inline, spec.content@, spec.dim, spec.italic, width))
            <= usize::MAX
    } else if is_plain_markdown(spec.content@) {
        is_ascii_word(spec.content@) || rows_in_all(plain_counts(wrap, spec.content@, width))
            <= usize::MAX
    } else {
        true
    }
}

/// What markdown that is part of the layout is drawn with.
pub open spec fn markdown_spec_drawn<
    P: Fn(&str, u16) -> Vec<String>,
    I: Fn(&str, bool, bool, u16) -> usize,
    T: Fn(&Vec<LineOp>, u16) -> Outcome,
>(
    wrap: P,
    inline: I,
    temp: T,
    spec: MarkdownSpec,
    width: u16,
    row_start: usize,
    row_count: usize,
    gutter: Option<&GutterSpec>,
    out: Seq<LineStep>,
) -> bool {
    if spec.inline {
        out == drawn(
            inline_counts(inline, spec.content@, spec.dim, spec.italic, width),
            row_start,
            row_count,
            |line: int, row: int| inline_row_steps(spec.dim, spec.italic, gutter, line, row),
        )
    } else if is_plain_markdown(spec.content@) {
        out == drawn_plain_markdown(wrap, spec, gutter, width, row_start, row_count)
    } else {
        markdown_drawn(
            temp,
            spec.dim,
            spec.italic,
            width,
            RowsAsked::Range { start: row_start, count: row_count },
            gutter,
            out,
        )
    }
}

/// Draws markdown that is part of the layout.
pub fn render_markdown_spec<
    P: Fn(&str, u16) -> Vec<String>,
    I: Fn(&str, bool, bool, u16) -> usize,
    T: Fn(&Vec<LineOp>, u16) -> Outcome,
>(
    spec: &MarkdownSpec,
    width: u16,
    row_start: usize,
    row_count: usize,
    gutter: Option<&GutterSpec>,
    wrap: &P,
    inline: &I,
    temp: &T,
) -> (ops: Vec<LineOp>)
    requires
        pure_wrap(*wrap),
        pure_inline(*inline),
        countable_markdown(*wrap, *inline, *spec, width),
        forall|ops: &Vec<LineOp>, w: u16| #[trigger] call_requires(*temp, (ops, w)),
    ensures
        markdown_spec_drawn(
            *wrap,
            *inline,
            *temp,
            *spec,
            width,
            row_start,
            row_count,
            gutter,
            steps(ops@),
        ),
{
    if spec.inline {
        return render_inline_markdown_spec(
            spec.content.as_str(),
            spec.dim,
            spec.italic,
            width,
            row_start,
            row_count,
            gutter,
            inline,
        );
    }
    if can_render_markdown_as_plain(spec.content.as_str()) {
        return render_plain_markdown_spec(spec, width, row_start, row_count, gutter, wrap);
    }
    let rows = RowsAsked::Range { start: row_start, count: row_count };
    render_markdown_rows(spec.dim, spec.italic, width, rows, gutter, temp)
}

/// What a leaf is drawn with.
pub open spec fn leaf_drawn<
    'a,
    'b,
    'c,
    'd,
    'e,
    P: Fn(&str, u16) -> Vec<String>,
    A: Fn(&str, u16) -> usize,
    I: Fn(&str, bool, bool, u16) -> usize,
    M: Fn(&str, bool, u16) -> usize,
    K: Fn(&Vec<String>, &str, u16) -> usize,
    V: Fn(u64, u16, u16) -> usize,
    J: Fn(&Vec<InlineRun>) -> Vec<InlineRun>,
    W: Fn(&Vec<InlineRun>, usize, usize) -> Vec<Vec<Fragment>>,
    O: Fn(&Vec<InlineRun>, usize, usize, usize, usize) -> Vec<Vec<Fragment>>,
    C: Fn(&Vec<InlineRun>) -> usize,
    E: Fn(&Vec<InlineRun>) -> bool,
    R0: Fn(u64) -> ContentFacts,
    R1: Fn(u64, u16, bool) -> usize,
    R2: Fn(u64, u16, bool, usize) -> ContentTextWindow,
    R3: Fn(u64, bool, bool, u16) -> usize,
    R4: Fn(u64, bool, u16) -> usize,
    R5: Fn(u64, bool, u16, usize) -> ContentTextWindow,
    R6: Fn(u64, u16) -> usize,
    R7: Fn(u64, u16, usize) -> ContentTextWindow,
    R8: Fn(u64, u16, u16) -> usize,
    R9: Fn(u64, u16, usize) -> ContentTextWindow,
    S: Fn(&str, usize, usize) -> String,
    F: Fn(&str) -> Option<Color>,
    B: Fn(&str) -> Option<Color>,
    Q: Fn(u64, u16, bool, RowsAsked) -> Vec<ContentTextRow>,
    L: Fn(u64, bool, bool, u16) -> Vec<usize>,
    T: Fn(&Vec<LineOp>, u16) -> Outcome,
    X: Fn(&str) -> String,
>(
    ruler: &LeafRuler<'a, P, A, I, M, K, V>,
    runs: &InlineText<'b, J, W, O, C, E>,
    canvas: &ContentCanvas<
        'c,
        ContentRuler<'d, R0, R1, R2, R3, R4, R5, R6, R7, R8, R9>,
        SpanPainter<'e, S, F, B>,
        Q,
        L,
        T,
        X,
    >,
    leaf: IrLeaf,
    width: u16,
    row_start: usize,
    row_count: usize,
    gutter: Option<&GutterSpec>,
    out: Seq<LineStep>,
) -> bool {
    let painting = canvas.painter.painting();
    match leaf {
        IrLeaf::Text(spec) => out == drawn(
            text_counts(*ruler.wrap, *ruler.ansi, spec, width),
            row_start,
            row_count,
            |line: int, row: int|
                text_row_steps(
                    spec.hl_group,
                    gutter,
                    row,
                    text_body(*ruler.wrap, spec, width, line, row),
                ),
        ),
        IrLeaf::Content(spec) => canvas.content_drawn(
            spec,
            width,
            row_start,
            row_count,
            gutter,
            out,
        ),
        IrLeaf::Runs(spec) => out == drawn(
            run_counts(runs.shape(), spec, width),
            row_start,
            row_count,
            |line: int, row: int|
                run_row_steps(painting, runs.shape(), spec, width, gutter, line, row),
        ),
        IrLeaf::Line(spec) => out == if row_start > 0 || row_count == 0 {
            Seq::empty()
        } else {
            line_steps(painting, runs.shape(), spec, gutter)
        },
        IrLeaf::Markdown(spec) => markdown_spec_drawn(
            *ruler.wrap,
            *ruler.inline,
            *canvas.temp,
            spec,
            width,
            row_start,
            row_count,
            gutter,
            out,
        ),
        IrLeaf::Code(spec) => code_drawn(
            *canvas.temp,
            code_measured(*ruler.code, code_lines(spec.content@), spec.lang@, width),
            width,
            row_start,
            row_count,
            gutter,
            out,
        ),
        IrLeaf::Separator(spec) => out == if row_start > 0 || row_count == 0 {
            Seq::empty()
        } else {
            separator_steps(painting, runs.shape(), spec, width, gutter)
        },
        IrLeaf::SourceView(_) => out == seq![
            LineStep::SourceView {
                columns: width.saturating_add(some_gutter_cells(gutter)),
                indent: some_gutter_cells(gutter),
                rows: RowsAsked::Range { start: row_start, count: row_count },
            },
        ],
    }
}

/// Draws rows of a leaf.
pub fn render_ir_leaf<
    'a,
    'b,
    'c,
    'd,
    'e,
    P: Fn(&str, u16) -> Vec<String>,
    A: Fn(&str, u16) -> usize,
    I: Fn(&str, bool, bool, u16) -> usize,
    M: Fn(&str, bool, u16) -> usize,
    K: Fn(&Vec<String>, &str, u16) -> usize,
    V: Fn(u64, u16, u16) -> usize,
    J: Fn(&Vec<InlineRun>) -> Vec<InlineRun>,
    W: Fn(&Vec<InlineRun>, usize, usize) -> Vec<Vec<Fragment>>,
    O: Fn(&Vec<InlineRun>, usize, usize, usize, usize) -> Vec<Vec<Fragment>>,
    C: Fn(&Vec<InlineRun>) -> usize,
    E: Fn(&Vec<InlineRun>) -> bool,
    R0: Fn(u64) -> ContentFacts,
    R1: Fn(u64, u16, bool) -> usize,
    R2: Fn(u64, u16, bool, usize) -> ContentTextWindow,
    R3: Fn(u64, bool, bool, u16) -> usize,
    R4: Fn(u64, bool, u16) -> usize,
    R5: Fn(u64, bool, u16, usize) -> ContentTextWindow,
    R6: Fn(u64, u16) -> usize,
    R7: Fn(u64, u16, usize) -> ContentTextWindow,
    R8: Fn(u64, u16, u16) -> usize,
    R9: Fn(u64, u16, usize) -> ContentTextWindow,
    S: Fn(&str, usize, usize) -> String,
    F: Fn(&str) -> Option<Color>,
    B: Fn(&str) -> Option<Color>,
    Q: Fn(u64, u16, bool, RowsAsked) -> Vec<ContentTextRow>,
    L: Fn(u64, bool, bool, u16) -> Vec<usize>,
    T: Fn(&Vec<LineOp>, u16) -> Outcome,
    X: Fn(&str) -> String,
>(
    ruler: &LeafRuler<'a, P, A, I, M, K, V>,
    runs: &InlineText<'b, J, W, O, C, E>,
    canvas: &ContentCanvas<
        'c,
        ContentRuler<'d, R0, R1, R2, R3, R4, R5, R6, R7, R8, R9>,
        SpanPainter<'e, S, F, B>,
        Q,
        L,
        T,
        X,
    >,
    leaf: &IrLeaf,
    width: u16,
    row_start: usize,
    row_count: usize,
    gutter: Option<&GutterSpec>,
) -> (ops: Vec<LineOp>)
    requires
        ruler.wf(),
        runs.wf(),
        canvas.wf(),
        leaf_rows(ruler, runs, canvas.ruler, *leaf, width, 0) <= usize::MAX,
    ensures
        leaf_drawn(
            ruler,
            runs,
            canvas,
            *leaf,
            width,
            row_start,
            row_count,
            gutter,
            steps(ops@),
        ),
{
    match leaf {
        IrLeaf::Text(spec) => render_text_spec(
            spec,
            width,
            row_start,
            row_count,
            gutter,
            ruler.wrap,
            ruler.ansi,
        ),
        IrLeaf::Content(spec) => canvas.render_content_spec(
            spec,
            width,
            row_start,
            row_count,
            gutter,
        ),
        IrLeaf::Runs(spec) => render_runs_spec(
            runs,
            canvas.painter,
            spec,
            width,
            row_start,
            row_count,
            gutter,
        ),
        IrLeaf::Line(spec) => render_line_spec(
            runs,
            canvas.painter,
            spec,
            row_start,
            row_count,
            gutter,
        ),
        IrLeaf::Markdown(spec) => render_markdown_spec(
            spec,
            width,
            row_start,
            row_count,
            gutter,
            ruler.wrap,
            ruler.inline,
            canvas.temp,
        ),
        IrLeaf::Code(spec) => {
            let total = ruler.measure_code_spec(spec, width);
            render_code_spec(total, width, row_start, row_count, gutter, canvas.temp)
        },
        IrLeaf::Separator(spec) => render_separator_spec(
            runs,
            canvas.painter,
            spec,
            width,
            row_start,
            row_count,
            gutter,
        ),
        IrLeaf::SourceView(_) => {
            let indent = gutter_width(gutter);
            let columns = width.saturating_add(indent);
            let rows = RowsAsked::Range { start: row_start, count: row_count };
            let mut ops: Vec<LineOp> = Vec::new();
            ops.push(LineOp::SourceView { columns, indent, rows });
            proof {
                assert(steps(ops@) =~= seq![LineStep::SourceView { columns, indent, rows }]);
            }
            ops
        },
    }
}

} // verus!
