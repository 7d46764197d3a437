//! A leaf draws the rows that it is measured to have.
use vstd::prelude::*;
use crate::content_draw::ContentCanvas;
use crate::ir::{
    ContentTextWindow, GutterSpec, InlineSyntaxSpan, IrLeaf, LineSpec, MarkdownSpec, RunsSpec,
    SeparatorSpec, StyledSpan,
};
use crate::leaf_draw::ContentTextRow;
use crate::leaf_edges::{ContentFacts, ContentRuler};
use crate::leaf_measure::{leaf_rows, LeafRuler};
use crate::leaf_render::leaf_drawn;
use crate::leaf_rows::{
    drawn, drawn_before, drawn_lines, drawn_rows_are_those_asked_for, is_bounded, line_rows,
    rows_in_all, rows_steps, within,
};
use crate::leaf_text::{
    inline_counts, inline_row_steps, is_ascii_word, is_plain_markdown, markdown_text_steps,
    plain_counts, plain_markdown_row_steps, plain_rows, text_body, text_counts, text_row_steps,
    word_rows, word_steps,
};
use crate::line_ops::{gutter_steps, op_if, LineOp, LineStep, RowsAsked};
use crate::paint::Color;
use crate::styled_runs::{
    any_gutter_steps, fragments_steps, line_runs, line_steps, run_counts, run_row_steps,
    separator_steps, spans_steps, Fragment, InlineRun, InlineShape, InlineText, RunView,
};
use crate::styled_text::{
    range_steps, span_style_steps, span_text_steps, syntax_steps, Painting, SpanPainter,
};
use crate::text::lines_of;
use crate::view_state::Outcome;

verus! {

/// Rows that some steps end.
pub open spec fn row_ends(steps: Seq<LineStep>) -> int
    decreases steps.len(),
{
    if steps.len() == 0 {
        0
    } else {
        row_ends(steps.drop_last()) + if steps.last() is Newline {
            1int
        } else {
            0
        }
    }
}

pub(crate) broadcast proof fn lemma_ends_concat(a: Seq<LineStep>, b: Seq<LineStep>)
    ensures
        #[trigger] row_ends(a + b) == row_ends(a) + row_ends(b),
    decreases b.len(),
{
    if b.len() == 0 {
        assert(a + b =~= a);
    } else {
        lemma_ends_concat(a, b.drop_last());
        assert((a + b).drop_last() =~= a + b.drop_last());
    }
}

pub(crate) proof fn lemma_no_ends(steps: Seq<LineStep>)
    requires
        forall|i: int| 0 <= i < steps.len() ==> !(#[trigger] steps[i] is Newline),
    ensures
        row_ends(steps) == 0,
    decreases steps.len(),
{
    if steps.len() > 0 {
        assert(!(steps[steps.len() - 1] is Newline));
        assert forall|i: int| 0 <= i < steps.drop_last().len() implies !(#[trigger]
        steps.drop_last()[i] is Newline) by {
            assert(steps.drop_last()[i] == steps[i]);
        }
        lemma_no_ends(steps.drop_last());
    }
}

pub(crate) broadcast proof fn lemma_ends_of_one(step: LineStep)
    ensures
        #[trigger] row_ends(seq![step]) == if step is Newline {
            1int
        } else {
            0
        },
{
    assert(seq![step].drop_last() =~= Seq::<LineStep>::empty());
    assert(row_ends(seq![step].drop_last()) == 0);
}

broadcast proof fn lemma_ends_if(wanted: bool, step: LineStep)
    requires
        !(step is Newline),
    ensures
        #[trigger] row_ends(op_if(wanted, step)) == 0,
{
    lemma_ends_of_one(step);
}

proof fn lemma_gutter_ends(gutter: Option<&GutterSpec>, styled: bool)
    ensures
        row_ends(gutter_steps(gutter, styled)) == 0,
        row_ends(any_gutter_steps(gutter)) == 0,
{
    lemma_no_ends(gutter_steps(gutter, styled));
    lemma_no_ends(any_gutter_steps(gutter));
}

/// Every row that is drawn ends once.
pub open spec fn rows_end_once(counts: Seq<usize>, row: spec_fn(int, int) -> Seq<LineStep>) -> bool {
    forall|i: int, r: int|
        0 <= i < counts.len() && 0 <= r < counts[i] ==> row_ends(#[trigger] row(i, r)) == 1
}

proof fn lemma_rows_ends(
    counts: Seq<usize>,
    row: spec_fn(int, int) -> Seq<LineStep>,
    i: int,
    from: int,
    to: int,
)
    requires
        rows_end_once(counts, row),
        0 <= i < counts.len(),
        0 <= from,
        to <= counts[i],
    ensures
        row_ends(rows_steps(row, i, from, to)) == if to > from {
            to - from
        } else {
            0
        },
    decreases to - from,
{
    if to > from {
        lemma_rows_ends(counts, row, i, from, to - 1);
        lemma_ends_concat(rows_steps(row, i, from, to - 1), row(i, to - 1));
    }
}

proof fn lemma_lines_ends(
    counts: Seq<usize>,
    row_start: usize,
    row_count: usize,
    row: spec_fn(int, int) -> Seq<LineStep>,
    n: int,
)
    requires
        rows_end_once(counts, row),
        0 <= n <= counts.len(),
    ensures
        row_ends(drawn_lines(counts, row_start, row_count, row, n)) == drawn_before(
            counts,
            row_start,
            row_count,
            n,
        ),
    decreases n,
{
    if n > 0 {
        lemma_lines_ends(counts, row_start, row_count, row, n - 1);
        let rows = line_rows(counts, row_start, row_count, n - 1);
        let before = drawn_lines(counts, row_start, row_count, row, n - 1);
        let mark = op_if(rows.wrapped, LineStep::MarkWrapped);
        let body = rows_steps(row, n - 1, rows.from as int, rows.to as int);
        lemma_ends_if(rows.wrapped, LineStep::MarkWrapped);
        lemma_ends_concat(before, mark);
        lemma_ends_concat(before + mark, body);
        lemma_rows_ends(counts, row, n - 1, rows.from as int, rows.to as int);
        assert(rows.from <= rows.to);
    }
}

/// Rows that are drawn of `total` where `row_count` are asked for from `row_start` on.
pub open spec fn rows_shown(total: int, row_start: usize, row_count: usize) -> int {
    let there = within(total - row_start, total);
    if there > row_count {
        row_count as int
    } else {
        there
    }
}

proof fn lemma_drawn_ends(
    counts: Seq<usize>,
    row_start: usize,
    row_count: usize,
    row: spec_fn(int, int) -> Seq<LineStep>,
)
    requires
        rows_end_once(counts, row),
        is_bounded(row_count) || within(
            rows_in_all(counts) - row_start,
            rows_in_all(counts),
        ) <= row_count,
    ensures
        row_ends(drawn(counts, row_start, row_count, row)) == rows_shown(
            rows_in_all(counts),
            row_start,
            row_count,
        ),
{
    lemma_lines_ends(counts, row_start, row_count, row, counts.len() as int);
    drawn_rows_are_those_asked_for(counts, row_start, row_count, counts.len() as int);
}

proof fn lemma_text_row_ends(
    hl_group: Option<String>,
    gutter: Option<&GutterSpec>,
    row: int,
    body: LineStep,
)
    requires
        !(body is Newline),
    ensures
        row_ends(text_row_steps(hl_group, gutter, row, body)) == 1,
{
    broadcast use {lemma_ends_concat, lemma_ends_of_one};

    lemma_gutter_ends(gutter, false);
    lemma_gutter_ends(gutter, true);
    let end = seq![body, LineStep::PopStyle, LineStep::Newline];
    assert(end =~= seq![body] + seq![LineStep::PopStyle] + seq![LineStep::Newline]);
}

proof fn lemma_markdown_text_ends(
    dim: bool,
    italic: bool,
    gutter: Option<&GutterSpec>,
    text: Seq<char>,
)
    ensures
        row_ends(markdown_text_steps(dim, italic, gutter, text)) == 0,
{
    broadcast use {lemma_ends_concat, lemma_ends_of_one, lemma_ends_if};

    lemma_gutter_ends(gutter, false);
    lemma_gutter_ends(gutter, true);
}

proof fn lemma_plain_row_ends(
    dim: bool,
    italic: bool,
    gutter: Option<&GutterSpec>,
    row: int,
    text: Seq<char>,
)
    ensures
        row_ends(plain_markdown_row_steps(dim, italic, gutter, row, text)) == 1,
{
    broadcast use {lemma_ends_concat, lemma_ends_of_one};

    lemma_markdown_text_ends(dim, italic, gutter, text);
}

proof fn lemma_inline_row_ends(
    dim: bool,
    italic: bool,
    gutter: Option<&GutterSpec>,
    line: int,
    row: int,
)
    ensures
        row_ends(inline_row_steps(dim, italic, gutter, line, row)) == 1,
{
    broadcast use {lemma_ends_concat, lemma_ends_of_one, lemma_ends_if};

    let body = LineStep::InlineRow { line: line as usize, row: row as usize };
    assert(seq![body, LineStep::Newline] =~= seq![body] + seq![LineStep::Newline]);
    if let Some(g) = gutter {
        let end = seq![LineStep::Gutter(g.text@), LineStep::PopStyle];
        assert(end =~= seq![LineStep::Gutter(g.text@)] + seq![LineStep::PopStyle]);
    } else {
        assert(row_ends(Seq::<LineStep>::empty()) == 0);
    }
}

proof fn lemma_word_ends(
    spec: MarkdownSpec,
    gutter: Option<&GutterSpec>,
    width: u16,
    from: int,
    to: int,
)
    ensures
        row_ends(word_steps(spec, gutter, width, from, to)) == if to > from {
            to - from
        } else {
            0
        },
    decreases to - from,
{
    broadcast use {lemma_ends_concat, lemma_ends_of_one};

    if to > from {
        lemma_word_ends(spec, gutter, width, from, to - 1);
        lemma_markdown_text_ends(
            spec.dim,
            spec.italic,
            gutter,
            crate::leaf_text::word_row(spec.content@, width, to - 1),
        );
    }
}

proof fn lemma_syntax_ends(
    painting: Painting,
    source: Seq<char>,
    start: usize,
    end: usize,
    highlights: Seq<InlineSyntaxSpan>,
    i: int,
    cursor: usize,
)
    ensures
        row_ends(syntax_steps(painting, source, start, end, highlights, i, cursor)) == 0,
    decreases highlights.len() - i,
{
    if i >= highlights.len() {
        lemma_ends_if(cursor < end, LineStep::Print((painting.slice)(source, cursor, end)));
    } else {
        let h = highlights[i];
        let (from, to) = crate::styled_text::clipped(h, start, end);
        if from >= to {
            lemma_syntax_ends(painting, source, start, end, highlights, i + 1, cursor);
        } else {
            let gap = LineStep::Print((painting.slice)(source, cursor, from));
            let coloured = seq![
                LineStep::SaveStyle,
                LineStep::SetFg(Color::Rgb { r: h.red, g: h.green, b: h.blue }),
                LineStep::Print((painting.slice)(source, from, to)),
                LineStep::PopStyle,
            ];
            let rest = syntax_steps(painting, source, start, end, highlights, i + 1, to);
            lemma_syntax_ends(painting, source, start, end, highlights, i + 1, to);
            lemma_ends_if(cursor < from, gap);
            lemma_no_ends(coloured);
            lemma_ends_concat(op_if(cursor < from, gap), coloured);
            lemma_ends_concat(op_if(cursor < from, gap) + coloured, rest);
        }
    }
}

pub(crate) proof fn lemma_range_ends(
    painting: Painting,
    span: StyledSpan,
    text: Seq<char>,
    default_hl: Option<String>,
    start: usize,
    end: usize,
    highlights: Option<Seq<InlineSyntaxSpan>>,
)
    ensures
        row_ends(range_steps(painting, span, text, default_hl, start, end, highlights)) == 0,
{
    broadcast use {lemma_ends_concat, lemma_ends_of_one, lemma_ends_if};

    assert(row_ends(span_style_steps(painting, span, default_hl)) == 0);
    if let Some(highlights) = highlights {
        lemma_syntax_ends(painting, text, start, end, highlights, 0, start);
    }
    assert(row_ends(span_text_steps(painting, span, text, start, end, highlights)) == 0);
}

proof fn lemma_fragments_ends(
    painting: Painting,
    spec: RunsSpec,
    line: int,
    runs: Seq<RunView>,
    row: Seq<Fragment>,
    n: int,
)
    ensures
        row_ends(fragments_steps(painting, spec, line, runs, row, n)) == 0,
    decreases n,
{
    broadcast use lemma_ends_concat;

    if n > 0 {
        lemma_fragments_ends(painting, spec, line, runs, row, n - 1);
        let f = row[n - 1];
        if f.run_index < runs.len() && runs[f.run_index as int].meta < spec.lines@[line]@.len() {
            let run = runs[f.run_index as int];
            lemma_range_ends(
                painting,
                spec.lines@[line]@[run.meta as int],
                run.text,
                spec.hl_group,
                f.start,
                f.end,
                crate::styled_text::retained_spans(spec.syntax_highlights, line, run.meta as int),
            );
        } else {
            assert(row_ends(Seq::<LineStep>::empty()) == 0);
        }
    }
}

proof fn lemma_spans_ends(
    painting: Painting,
    spans: Seq<StyledSpan>,
    runs: Seq<RunView>,
    default_hl: Option<String>,
    syntax: Option<crate::ir::RetainedInlineSyntax>,
    n: int,
)
    ensures
        row_ends(spans_steps(painting, spans, runs, default_hl, syntax, n)) == 0,
    decreases n,
{
    broadcast use lemma_ends_concat;

    if n > 0 {
        lemma_spans_ends(painting, spans, runs, default_hl, syntax, n - 1);
        let run = runs[n - 1];
        if run.meta < spans.len() {
            lemma_range_ends(
                painting,
                spans[run.meta as int],
                run.text,
                default_hl,
                0,
                crate::text::text_bytes(run.text) as usize,
                match syntax {
                    Some(syntax) => crate::styled_text::retained_spans(
                        syntax,
                        0,
                        run.meta as int,
                    ),
                    None => None,
                },
            );
        } else {
            assert(row_ends(Seq::<LineStep>::empty()) == 0);
        }
    }
}

proof fn lemma_run_row_ends(
    painting: Painting,
    shape: InlineShape,
    spec: RunsSpec,
    width: u16,
    gutter: Option<&GutterSpec>,
    line: int,
    row: int,
)
    ensures
        row_ends(run_row_steps(painting, shape, spec, width, gutter, line, row)) == 1,
{
    broadcast use {lemma_ends_concat, lemma_ends_of_one, lemma_ends_if};

    lemma_gutter_ends(gutter, true);
    let indent = crate::styled_runs::runs_indent(spec, width);
    let fragments = crate::styled_runs::styled_rows(
        shape,
        spec.lines@[line]@,
        width,
        indent,
    )[row];
    lemma_fragments_ends(
        painting,
        spec,
        line,
        line_runs(shape, spec.lines@[line]@),
        fragments,
        fragments.len() as int,
    );
}

proof fn lemma_line_ends(
    painting: Painting,
    shape: InlineShape,
    spec: LineSpec,
    gutter: Option<&GutterSpec>,
)
    ensures
        row_ends(line_steps(painting, shape, spec, gutter)) == 1,
{
    broadcast use {lemma_ends_concat, lemma_ends_of_one};

    lemma_gutter_ends(gutter, true);
    lemma_spans_ends(
        painting,
        spec.spans@,
        line_runs(shape, spec.spans@),
        spec.hl_group,
        Some(spec.syntax_highlights),
        line_runs(shape, spec.spans@).len() as int,
    );
}

proof fn lemma_separator_ends(
    painting: Painting,
    shape: InlineShape,
    spec: SeparatorSpec,
    width: u16,
    gutter: Option<&GutterSpec>,
)
    ensures
        row_ends(separator_steps(painting, shape, spec, width, gutter)) == 1,
{
    broadcast use {lemma_ends_concat, lemma_ends_of_one, lemma_ends_if};

    lemma_gutter_ends(gutter, true);
    lemma_spans_ends(
        painting,
        spec.label@,
        line_runs(shape, spec.label@),
        None,
        None,
        line_runs(shape, spec.label@).len() as int,
    );
}

/// The leaf is laid out by this library: its rows are drawn one by one, and none of them by
/// others.
pub open spec fn laid_out_here(leaf: IrLeaf) -> bool {
    match leaf {
        IrLeaf::Text(_) => true,
        IrLeaf::Runs(_) => true,
        IrLeaf::Line(_) => true,
        IrLeaf::Separator(_) => true,
        IrLeaf::Markdown(spec) => spec.inline || is_plain_markdown(spec.content@),
        _ => false,
    }
}

/// As many rows are drawn of a leaf as are asked for of those that it is measured to have.
pub proof fn leaf_draws_measured_rows<
    'a,
    'b,
    'c,
    'd,
    'e,
    P: Fn(&str, u16) -> Vec<String>,
    A: Fn(&str, u16) -> usize,
    I: Fn(&str, bool, bool, u16) -> usize,
    M: Fn(&str, bool, u16) -> usize,
    K: Fn(&Vec<String>, &str, u16) -> usize,
    V: Fn(u64, u16, u16) -> usize,
    J: Fn(&Vec<InlineRun>) -> Vec<InlineRun>,
    W: Fn(&Vec<InlineRun>, usize, usize) -> Vec<Vec<Fragment>>,
    O: Fn(&Vec<InlineRun>, usize, usize, usize, usize) -> Vec<Vec<Fragment>>,
    C: Fn(&Vec<InlineRun>) -> usize,
    E: Fn(&Vec<InlineRun>) -> bool,
    R0: Fn(u64) -> ContentFacts,
    R1: Fn(u64, u16, bool) -> usize,
    R2: Fn(u64, u16, bool, usize) -> ContentTextWindow,
    R3: Fn(u64, bool, bool, u16) -> usize,
    R4: Fn(u64, bool, u16) -> usize,
    R5: Fn(u64, bool, u16, usize) -> ContentTextWindow,
    R6: Fn(u64, u16) -> usize,
    R7: Fn(u64, u16, usize) -> ContentTextWindow,
    R8: Fn(u64, u16, u16) -> usize,
    R9: Fn(u64, u16, usize) -> ContentTextWindow,
    S: Fn(&str, usize, usize) -> String,
    F: Fn(&str) -> Option<Color>,
    B: Fn(&str) -> Option<Color>,
    Q: Fn(u64, u16, bool, RowsAsked) -> Vec<ContentTextRow>,
    L: Fn(u64, bool, bool, u16) -> Vec<usize>,
    T: Fn(&Vec<LineOp>, u16) -> Outcome,
    X: Fn(&str) -> String,
>(
    ruler: &LeafRuler<'a, P, A, I, M, K, V>,
    runs: &InlineText<'b, J, W, O, C, E>,
    canvas: &ContentCanvas<
        'c,
        ContentRuler<'d, R0, R1, R2, R3, R4, R5, R6, R7, R8, R9>,
        SpanPainter<'e, S, F, B>,
        Q,
        L,
        T,
        X,
    >,
    leaf: IrLeaf,
    width: u16,
    row_start: usize,
    row_count: usize,
    gutter: Option<&GutterSpec>,
    out: Seq<LineStep>,
)
    requires
        laid_out_here(leaf),
        leaf_drawn(ruler, runs, canvas, leaf, width, row_start, row_count, gutter, out),
        ({
            let total = leaf_rows(ruler, runs, canvas.ruler, leaf, width, 0);
            is_bounded(row_count) || within(total - row_start, total) <= row_count
        }),
    ensures
        row_ends(out) == rows_shown(
            leaf_rows(ruler, runs, canvas.ruler, leaf, width, 0),
            row_start,
            row_count,
        ),
{
    let painting = canvas.painter.painting();
    let shape = runs.shape();
    assert(row_ends(Seq::<LineStep>::empty()) == 0);
    match leaf {
        IrLeaf::Text(spec) => {
            let counts = text_counts(*ruler.wrap, *ruler.ansi, spec, width);
            let row = |line: int, row: int|
                text_row_steps(
                    spec.hl_group,
                    gutter,
                    row,
                    text_body(*ruler.wrap, spec, width, line, row),
                );
            assert forall|i: int, r: int| 0 <= i < counts.len() && 0 <= r < counts[i] implies
                row_ends(#[trigger] row(i, r)) == 1 by {
                lemma_text_row_ends(
                    spec.hl_group,
                    gutter,
                    r,
                    text_body(*ruler.wrap, spec, width, i, r),
                );
            }
            lemma_drawn_ends(counts, row_start, row_count, row);
        },
        IrLeaf::Runs(spec) => {
            let counts = run_counts(shape, spec, width);
            let row = |line: int, row: int|
                run_row_steps(painting, shape, spec, width, gutter, line, row);
            assert forall|i: int, r: int| 0 <= i < counts.len() && 0 <= r < counts[i] implies
                row_ends(#[trigger] row(i, r)) == 1 by {
                lemma_run_row_ends(painting, shape, spec, width, gutter, i, r);
            }
            lemma_drawn_ends(counts, row_start, row_count, row);
        },
        IrLeaf::Line(spec) => {
            lemma_line_ends(painting, shape, spec, gutter);
        },
        IrLeaf::Separator(spec) => {
            lemma_separator_ends(painting, shape, spec, width, gutter);
        },
        IrLeaf::Markdown(spec) => {
            if spec.inline {
                let counts = inline_counts(
                    *ruler.inline,
                    spec.content@,
                    spec.dim,
                    spec.italic,
                    width,
                );
                let row = |line: int, row: int|
                    inline_row_steps(spec.dim, spec.italic, gutter, line, row);
                assert forall|i: int, r: int| 0 <= i < counts.len() && 0 <= r < counts[i] implies
                    row_ends(#[trigger] row(i, r)) == 1 by {
                    lemma_inline_row_ends(spec.dim, spec.italic, gutter, i, r);
                }
                lemma_drawn_ends(counts, row_start, row_count, row);
            } else if is_ascii_word(spec.content@) {
                let total = word_rows(spec.content@.len() as int, width);
                let end = if row_start + row_count < total {
                    row_start + row_count
                } else {
                    total
                };
                let body = word_steps(spec, gutter, width, row_start as int, end);
                lemma_word_ends(spec, gutter, width, row_start as int, end);
                lemma_ends_if(total > 1, LineStep::MarkWrapped);
                lemma_ends_concat(op_if(total > 1, LineStep::MarkWrapped), body);
            } else {
                let counts = plain_counts(*ruler.wrap, spec.content@, width);
                let row = |line: int, row: int|
                    plain_markdown_row_steps(
                        spec.dim,
                        spec.italic,
                        gutter,
                        row,
                        plain_rows(*ruler.wrap, lines_of(spec.content@)[line], width)[row],
                    );
                assert forall|i: int, r: int| 0 <= i < counts.len() && 0 <= r < counts[i] implies
                    row_ends(#[trigger] row(i, r)) == 1 by {
                    lemma_plain_row_ends(
                        spec.dim,
                        spec.italic,
                        gutter,
                        r,
                        plain_rows(*ruler.wrap, lines_of(spec.content@)[i], width)[r],
                    );
                }
                lemma_drawn_ends(counts, row_start, row_count, row);
            }
        },
        _ => {},
    }
}

} // verus!
