//! Lines of styled runs: how they are wrapped, with and without a prefix before every row,
//! and what their rows are drawn with.
use vstd::prelude::*;
use crate::ir::{GutterSpec, LineSpec, RunsSpec, SeparatorSpec, StyledSpan};
use crate::leaf_rows::{clamped_rows, draw_rows, drawn, rows_in_all, total_rows};
use crate::leaf_text::columns;
use crate::line_ops::{add_op, add_op_if, lemma_behind, op_if, steps, LineOp, LineStep};
use crate::paint::Color;
use crate::styled_text::{
    highlight_seq, highlights_of, range_steps, retained_spans, Painting, SpanPainter,
};
use crate::text::{byte_len, text_bytes};
use crate::widths::styled_spans_width;

verus! {

/// A run of text; `meta` is the place of the span that it has its style from.
#[derive(Debug)]
pub struct InlineRun {
    pub text: String,
    pub meta: usize,
}

/// A run of text, as mathematical values.
pub struct RunView {
    pub text: Seq<char>,
    pub meta: usize,
}

impl View for InlineRun {
    type V = RunView;

    open spec fn view(&self) -> RunView {
        RunView { text: self.text@, meta: self.meta }
    }
}

/// Some runs, as mathematical values.
pub open spec fn run_views(runs: Seq<InlineRun>) -> Seq<RunView> {
    runs.map_values(|run: InlineRun| run@)
}

/// The bytes `start .. end` of a run.
#[derive(Clone, Copy, Debug, PartialEq, Eq, Structural)]
pub struct Fragment {
    pub run_index: usize,
    pub start: usize,
    pub end: usize,
}

/// Some rows of fragments, as mathematical values.
pub open spec fn fragment_rows(rows: Seq<Vec<Fragment>>) -> Seq<Seq<Fragment>> {
    rows.map_values(|row: Vec<Fragment>| row@)
}

/// The answers of an [`InlineText`] as mathematical functions.
pub struct InlineShape {
    /// Runs with what belongs to one character moved into one run.
    pub join: spec_fn(Seq<RunView>) -> Seq<RunView>,
    /// The rows of a line whose first row has so many cells, and the others so many.
    pub wrap: spec_fn(Seq<RunView>, usize, usize) -> Seq<Seq<Fragment>>,
    /// The rows of a line, given the cells of the first row and those of it that are taken,
    /// and the same of the others.
    pub wrap_occupied: spec_fn(Seq<RunView>, usize, usize, usize, usize) -> Seq<Seq<Fragment>>,
    /// The cells of a line that is not wrapped.
    pub cells: spec_fn(Seq<RunView>) -> usize,
    /// Whether a line holds nothing.
    pub blank: spec_fn(Seq<RunView>) -> bool,
}

/// How lines of runs are put together and wrapped.
pub struct InlineText<'a, J, W, O, C, E> {
    pub join: &'a J,
    pub wrap: &'a W,
    pub wrap_occupied: &'a O,
    pub cells: &'a C,
    pub blank: &'a E,
}

impl<
    'a,
    J: Fn(&Vec<InlineRun>) -> Vec<InlineRun>,
    W: Fn(&Vec<InlineRun>, usize, usize) -> Vec<Vec<Fragment>>,
    O: Fn(&Vec<InlineRun>, usize, usize, usize, usize) -> Vec<Vec<Fragment>>,
    C: Fn(&Vec<InlineRun>) -> usize,
    E: Fn(&Vec<InlineRun>) -> bool,
> InlineText<'a, J, W, O, C, E> {
    pub open spec fn joins(&self, runs: Seq<RunView>, out: Seq<RunView>) -> bool {
        exists|v: Vec<InlineRun>, r: Vec<InlineRun>| #[trigger]
            call_ensures(*self.join, (&v,), r) && run_views(v@) == runs && run_views(r@) == out
    }

    pub open spec fn wraps(
        &self,
        runs: Seq<RunView>,
        first: usize,
        rest: usize,
        out: Seq<Seq<Fragment>>,
    ) -> bool {
        exists|v: Vec<InlineRun>, r: Vec<Vec<Fragment>>| #[trigger]
            call_ensures(*self.wrap, (&v, first, rest), r) && run_views(v@) == runs
                && fragment_rows(r@) == out
    }

    pub open spec fn wraps_occupied(
        &self,
        runs: Seq<RunView>,
        first: usize,
        taken: usize,
        rest: usize,
        rest_taken: usize,
        out: Seq<Seq<Fragment>>,
    ) -> bool {
        exists|v: Vec<InlineRun>, r: Vec<Vec<Fragment>>| #[trigger]
            call_ensures(*self.wrap_occupied, (&v, first, taken, rest, rest_taken), r)
                && run_views(v@) == runs && fragment_rows(r@) == out
    }

    pub open spec fn has_cells(&self, runs: Seq<RunView>, n: usize) -> bool {
        exists|v: Vec<InlineRun>| #[trigger]
            call_ensures(*self.cells, (&v,), n) && run_views(v@) == runs
    }

    pub open spec fn says_blank(&self, runs: Seq<RunView>, r: bool) -> bool {
        exists|v: Vec<InlineRun>| #[trigger]
            call_ensures(*self.blank, (&v,), r) && run_views(v@) == runs
    }

    /// These functions as mathematical functions.
    pub open spec fn shape(&self) -> InlineShape {
        InlineShape {
            join: |runs: Seq<RunView>|
                choose|out: Seq<RunView>| #[trigger] self.joins(runs, out),
            wrap: |runs: Seq<RunView>, first: usize, rest: usize|
                choose|out: Seq<Seq<Fragment>>| #[trigger] self.wraps(runs, first, rest, out),
            wrap_occupied: |
                runs: Seq<RunView>,
                first: usize,
                taken: usize,
                rest: usize,
                rest_taken: usize,
            |
                choose|out: Seq<Seq<Fragment>>| #[trigger]
                    self.wraps_occupied(runs, first, taken, rest, rest_taken, out),
            cells: |runs: Seq<RunView>| choose|n: usize| #[trigger] self.has_cells(runs, n),
            blank: |runs: Seq<RunView>| choose|r: bool| #[trigger] self.says_blank(runs, r),
        }
    }

    /// Every question may be asked and has one answer.
    pub open spec fn wf(&self) -> bool {
        &&& forall|v: &Vec<InlineRun>| #[trigger] call_requires(*self.join, (v,))
        &&& forall|runs: Seq<RunView>, a: Seq<RunView>, b: Seq<RunView>|
            #[trigger] self.joins(runs, a) && #[trigger] self.joins(runs, b) ==> a == b
        &&& forall|v: &Vec<InlineRun>, first: usize, rest: usize| #[trigger]
            call_requires(*self.wrap, (v, first, rest))
        &&& forall|
            runs: Seq<RunView>,
            first: usize,
            rest: usize,
            a: Seq<Seq<Fragment>>,
            b: Seq<Seq<Fragment>>,
        |
            #[trigger] self.wraps(runs, first, rest, a) && #[trigger] self.wraps(
                runs,
                first,
                rest,
                b,
            ) ==> a == b
        &&& forall|v: &Vec<InlineRun>, first: usize, taken: usize, rest: usize, rest_taken: usize|
         #[trigger]
            call_requires(*self.wrap_occupied, (v, first, taken, rest, rest_taken))
        &&& forall|
            runs: Seq<RunView>,
            first: usize,
            taken: usize,
            rest: usize,
            rest_taken: usize,
            a: Seq<Seq<Fragment>>,
            b: Seq<Seq<Fragment>>,
        |
            #[trigger] self.wraps_occupied(runs, first, taken, rest, rest_taken, a) && #[trigger]
                self.wraps_occupied(runs, first, taken, rest, rest_taken, b) ==> a == b
        &&& forall|v: &Vec<InlineRun>| #[trigger] call_requires(*self.cells, (v,))
        &&& forall|runs: Seq<RunView>, a: usize, b: usize|
            #[trigger] self.has_cells(runs, a) && #[trigger] self.has_cells(runs, b) ==> a == b
        &&& forall|v: &Vec<InlineRun>| #[trigger] call_requires(*self.blank, (v,))
        &&& forall|runs: Seq<RunView>, a: bool, b: bool|
            #[trigger] self.says_blank(runs, a) && #[trigger] self.says_blank(runs, b) ==> a == b
    }

    pub(crate) fn join_runs(&self, runs: &Vec<InlineRun>) -> (out: Vec<InlineRun>)
        requires
            self.wf(),
        ensures
            run_views(out@) == (self.shape().join)(run_views(runs@)),
    {
        let out = (self.join)(runs);
        proof {
            assert(self.joins(run_views(runs@), run_views(out@)));
        }
        out
    }
}

/// The runs of some spans: each with its text and its place.
pub open spec fn parts_of(spans: Seq<StyledSpan>) -> Seq<RunView> {
    Seq::new(spans.len(), |i: int| RunView { text: spans[i].text@, meta: i as usize })
}

/// The runs of some spans.
pub fn styled_line_parts(spans: &Vec<StyledSpan>) -> (runs: Vec<InlineRun>)
    ensures
        run_views(runs@) == parts_of(spans@),
{
    let mut runs: Vec<InlineRun> = Vec::new();
    let mut i: usize = 0;
    while i < spans.len()
        invariant
            i <= spans@.len(),
            runs@.len() == i,
            forall|k: int| 0 <= k < i ==> (#[trigger] runs@[k])@ == parts_of(spans@)[k],
        decreases spans@.len() - i,
    {
        runs.push(InlineRun { text: spans[i].text.clone(), meta: i });
        i += 1;
    }
    proof {
        assert(run_views(runs@) =~= parts_of(spans@));
    }
    runs
}

/// The runs of a line of spans.
pub open spec fn line_runs(shape: InlineShape, spans: Seq<StyledSpan>) -> Seq<RunView> {
    (shape.join)(parts_of(spans))
}

/// The cells of rows behind the first of a line that is indented by so many.
pub open spec fn continuation_cells(width: u16, indent: u16) -> usize {
    let cols = columns(width);
    let taken = if indent < cols - 1 {
        indent as int
    } else {
        cols - 1
    };
    (cols - taken) as usize
}

/// The rows of a line of spans.
pub open spec fn styled_rows(
    shape: InlineShape,
    spans: Seq<StyledSpan>,
    width: u16,
    indent: u16,
) -> Seq<Seq<Fragment>> {
    (shape.wrap)(
        line_runs(shape, spans),
        columns(width) as usize,
        continuation_cells(width, indent),
    )
}

/// The indent of rows behind the first: there is room for something behind it.
pub open spec fn runs_indent(spec: RunsSpec, width: u16) -> u16 {
    let room = if width < 1 {
        0
    } else {
        width - 1
    };
    if spec.continuation_indent < room {
        spec.continuation_indent
    } else {
        room as u16
    }
}

/// How many rows each line of runs takes.
pub open spec fn run_counts(shape: InlineShape, spec: RunsSpec, width: u16) -> Seq<usize> {
    spec.lines@.map_values(
        |spans: Vec<StyledSpan>|
            styled_rows(shape, spans@, width, runs_indent(spec, width)).len() as usize,
    )
}

/// The indent of rows behind the first.
pub fn runs_continuation_indent(spec: &RunsSpec, width: u16) -> (indent: u16)
    ensures
        indent == runs_indent(*spec, width),
{
    let room = width.saturating_sub(1);
    if spec.continuation_indent < room {
        spec.continuation_indent
    } else {
        room
    }
}

impl<
    'a,
    J: Fn(&Vec<InlineRun>) -> Vec<InlineRun>,
    W: Fn(&Vec<InlineRun>, usize, usize) -> Vec<Vec<Fragment>>,
    O: Fn(&Vec<InlineRun>, usize, usize, usize, usize) -> Vec<Vec<Fragment>>,
    C: Fn(&Vec<InlineRun>) -> usize,
    E: Fn(&Vec<InlineRun>) -> bool,
> InlineText<'a, J, W, O, C, E> {
    /// The runs of a line of spans, and its rows.
    fn wrap_styled_runs(&self, spans: &Vec<StyledSpan>, width: u16, indent: u16) -> (r: (
        Vec<InlineRun>,
        Vec<Vec<Fragment>>,
    ))
        requires
            self.wf(),
        ensures
            run_views(r.0@) == line_runs(self.shape(), spans@),
            fragment_rows(r.1@) == styled_rows(self.shape(), spans@, width, indent),
    {
        let runs = self.join_runs(&styled_line_parts(spans));
        let cols: usize = if width < 1 {
            1
        } else {
            width as usize
        };
        let taken = if (indent as usize) < cols - 1 {
            indent as usize
        } else {
            cols - 1
        };
        let rows = (self.wrap)(&runs, cols, cols - taken);
        proof {
            assert(self.wraps(
                run_views(runs@),
                cols,
                (cols - taken) as usize,
                fragment_rows(rows@),
            ));
        }
        (runs, rows)
    }

    /// How many rows lines of runs take, as far as they can be counted.
    pub fn measure_runs_spec(&self, spec: &RunsSpec, width: u16) -> (rows: usize)
        requires
            self.wf(),
        ensures
            rows == clamped_rows(rows_in_all(run_counts(self.shape(), *spec, width))),
    {
        let indent = runs_continuation_indent(spec, width);
        let mut counts: Vec<usize> = Vec::new();
        let mut i: usize = 0;
        while i < spec.lines.len()
            invariant
                i <= spec.lines@.len(),
                self.wf(),
                indent == runs_indent(*spec, width),
                counts@.len() == i,
                forall|k: int|
                    0 <= k < i ==> #[trigger] counts@[k] == run_counts(
                        self.shape(),
                        *spec,
                        width,
                    )[k],
            decreases spec.lines@.len() - i,
        {
            let (_, rows) = self.wrap_styled_runs(&spec.lines[i], width, indent);
            proof {
                assert(fragment_rows(rows@).len() == rows@.len());
            }
            counts.push(rows.len());
            i += 1;
        }
        proof {
            assert(counts@ =~= run_counts(self.shape(), *spec, width));
        }
        total_rows(&counts)
    }
}

/// What the first `n` fragments of a row are drawn with.
pub open spec fn fragments_steps(
    painting: Painting,
    spec: RunsSpec,
    line: int,
    runs: Seq<RunView>,
    row: Seq<Fragment>,
    n: int,
) -> Seq<LineStep>
    decreases n,
{
    if n <= 0 {
        Seq::empty()
    } else {
        let f = row[n - 1];
        fragments_steps(painting, spec, line, runs, row, n - 1) + if f.run_index < runs.len()
            && runs[f.run_index as int].meta < spec.lines@[line]@.len() {
            let run = runs[f.run_index as int];
            range_steps(
                painting,
                spec.lines@[line]@[run.meta as int],
                run.text,
                spec.hl_group,
                f.start,
                f.end,
                retained_spans(spec.syntax_highlights, line, run.meta as int),
            )
        } else {
            Seq::empty()
        }
    }
}

/// So many spaces.
pub open spec fn blanks(n: int) -> Seq<char> {
    Seq::new(n as nat, |i: int| ' ')
}

fn blank_text(n: u16) -> (text: String)
    ensures
        text@ == blanks(n as int),
{
    let mut text = String::new();
    let mut i: u16 = 0;
    proof {
        assert(text@ =~= blanks(0));
    }
    while i < n
        invariant
            i <= n,
            text@ == blanks(i as int),
        decreases n - i,
    {
        text.push(' ');
        i += 1;
        proof {
            assert(text@ =~= blanks(i as int));
        }
    }
    text
}

/// The text of a gutter, if there is one.
pub open spec fn any_gutter_steps(gutter: Option<&GutterSpec>) -> Seq<LineStep> {
    match gutter {
        Some(gutter) => seq![LineStep::Gutter(gutter.text@)],
        None => Seq::empty(),
    }
}

fn add_any_gutter(ops: &mut Vec<LineOp>, gutter: Option<&GutterSpec>)
    ensures
        steps(final(ops)@) == steps(old(ops)@) + any_gutter_steps(gutter),
{
    let ghost before = steps(ops@);
    if let Some(gutter) = gutter {
        add_op(ops, LineOp::Gutter(gutter.text.clone()));
    }
    proof {
        assert(steps(ops@) =~= before + any_gutter_steps(gutter));
    }
}

/// What row `row` of line `line` of runs is drawn with.
pub open spec fn run_row_steps(
    painting: Painting,
    shape: InlineShape,
    spec: RunsSpec,
    width: u16,
    gutter: Option<&GutterSpec>,
    line: int,
    row: int,
) -> Seq<LineStep> {
    let indent = runs_indent(spec, width);
    let fragments = styled_rows(shape, spec.lines@[line]@, width, indent)[row];
    seq![LineStep::Row { continuation: row > 0 }] + any_gutter_steps(gutter) + op_if(
        row > 0 && indent > 0,
        LineStep::PrintMeta { text: blanks(indent as int), selectable: false },
    ) + fragments_steps(
        painting,
        spec,
        line,
        line_runs(shape, spec.lines@[line]@),
        fragments,
        fragments.len() as int,
    ) + seq![LineStep::Newline]
}

fn draw_run_row<
    'b,
    S: Fn(&str, usize, usize) -> String,
    F: Fn(&str) -> Option<Color>,
    B: Fn(&str) -> Option<Color>,
>(
    painter: &SpanPainter<'b, S, F, B>,
    spec: &RunsSpec,
    gutter: Option<&GutterSpec>,
    indent: u16,
    line: usize,
    row: usize,
    runs: &Vec<InlineRun>,
    fragments: &Vec<Fragment>,
) -> (ops: Vec<LineOp>)
    requires
        painter.wf(),
        line < spec.lines@.len(),
    ensures
        steps(ops@) == seq![LineStep::Row { continuation: row > 0 }] + any_gutter_steps(gutter)
            + op_if(
            row > 0 && indent > 0,
            LineStep::PrintMeta { text: blanks(indent as int), selectable: false },
        ) + fragments_steps(
            painter.painting(),
            *spec,
            line as int,
            run_views(runs@),
            fragments@,
            fragments@.len() as int,
        ) + seq![LineStep::Newline],
{
    let ghost p = painter.painting();
    let mut ops: Vec<LineOp> = Vec::new();
    proof {
        assert(steps(ops@) =~= Seq::<LineStep>::empty());
    }
    add_op(&mut ops, LineOp::Row { continuation: row > 0 });
    add_any_gutter(&mut ops, gutter);
    add_op_if(
        &mut ops,
        row > 0 && indent > 0,
        LineOp::PrintMeta { text: blank_text(indent), selectable: false },
    );
    let ghost begun = steps(ops@);
    let mut k: usize = 0;
    proof {
        assert(begun =~= seq![LineStep::Row { continuation: row > 0 }] + any_gutter_steps(gutter)
            + op_if(
            row > 0 && indent > 0,
            LineStep::PrintMeta { text: blanks(indent as int), selectable: false },
        ));
        assert(begun + fragments_steps(p, *spec, line as int, run_views(runs@), fragments@, 0)
            =~= begun);
    }
    while k < fragments.len()
        invariant
            k <= fragments@.len(),
            painter.wf(),
            p == painter.painting(),
            line < spec.lines@.len(),
            steps(ops@) == begun + fragments_steps(
                p,
                *spec,
                line as int,
                run_views(runs@),
                fragments@,
                k as int,
            ),
        decreases fragments@.len() - k,
    {
        let f = fragments[k];
        let ghost so_far = fragments_steps(
            p,
            *spec,
            line as int,
            run_views(runs@),
            fragments@,
            k as int,
        );
        let ghost before = steps(ops@);
        if f.run_index < runs.len() && runs[f.run_index].meta < spec.lines[line].len() {
            let run = &runs[f.run_index];
            let span = &spec.lines[line][run.meta];
            let highlights = highlights_of(&spec.syntax_highlights, line, run.meta);
            painter.print_styled_text_range(
                &mut ops,
                span,
                run.text.as_str(),
                &spec.hl_group,
                f.start,
                f.end,
                highlights,
            );
            proof {
                let added = range_steps(
                    p,
                    *span,
                    run.text@,
                    spec.hl_group,
                    f.start,
                    f.end,
                    retained_spans(spec.syntax_highlights, line as int, run.meta as int),
                );
                assert(run_views(runs@)[f.run_index as int] == run@);
                assert(highlight_seq(highlights) == retained_spans(
                    spec.syntax_highlights,
                    line as int,
                    run.meta as int,
                ));
                lemma_behind(begun, so_far, added);
            }
        } else {
            proof {
                lemma_behind(begun, so_far, Seq::empty());
                assert(before + Seq::<LineStep>::empty() =~= before);
            }
        }
        k += 1;
    }
    add_op(&mut ops, LineOp::Newline);
    ops
}

/// Draws the `row_count` rows of lines of runs from `row_start` on.
pub fn render_runs_spec<
    'a,
    'b,
    J: Fn(&Vec<InlineRun>) -> Vec<InlineRun>,
    W: Fn(&Vec<InlineRun>, usize, usize) -> Vec<Vec<Fragment>>,
    O: Fn(&Vec<InlineRun>, usize, usize, usize, usize) -> Vec<Vec<Fragment>>,
    C: Fn(&Vec<InlineRun>) -> usize,
    E: Fn(&Vec<InlineRun>) -> bool,
    S: Fn(&str, usize, usize) -> String,
    F: Fn(&str) -> Option<Color>,
    B: Fn(&str) -> Option<Color>,
>(
    inline: &InlineText<'a, J, W, O, C, E>,
    painter: &SpanPainter<'b, S, F, B>,
    spec: &RunsSpec,
    width: u16,
    row_start: usize,
    row_count: usize,
    gutter: Option<&GutterSpec>,
) -> (ops: Vec<LineOp>)
    requires
        inline.wf(),
        painter.wf(),
        rows_in_all(run_counts(inline.shape(), *spec, width)) <= usize::MAX,
    ensures
        steps(ops@) == drawn(
            run_counts(inline.shape(), *spec, width),
            row_start,
            row_count,
            |line: int, row: int|
                run_row_steps(
                    painter.painting(),
                    inline.shape(),
                    *spec,
                    width,
                    gutter,
                    line,
                    row,
                ),
        ),
{
    let ghost p = painter.painting();
    let ghost shape = inline.shape();
    let ghost row_of = |line: int, row: int|
        run_row_steps(p, shape, *spec, width, gutter, line, row);
    let indent = runs_continuation_indent(spec, width);
    let mut counts: Vec<usize> = Vec::new();
    let mut lines: Vec<Vec<InlineRun>> = Vec::new();
    let mut rows: Vec<Vec<Vec<Fragment>>> = Vec::new();
    let mut i: usize = 0;
    while i < spec.lines.len()
        invariant
            i <= spec.lines@.len(),
            inline.wf(),
            shape == inline.shape(),
            indent == runs_indent(*spec, width),
            counts@.len() == i,
            lines@.len() == i,
            rows@.len() == i,
            forall|k: int|
                0 <= k < i ==> #[trigger] counts@[k] == run_counts(shape, *spec, width)[k],
            forall|k: int|
                0 <= k < i ==> run_views((#[trigger] lines@[k])@) == line_runs(
                    shape,
                    spec.lines@[k]@,
                ),
            forall|k: int|
                0 <= k < i ==> fragment_rows((#[trigger] rows@[k])@) == styled_rows(
                    shape,
                    spec.lines@[k]@,
                    width,
                    indent,
                ) && counts@[k] == rows@[k]@.len(),
        decreases spec.lines@.len() - i,
    {
        let (line, wrapped) = inline.wrap_styled_runs(&spec.lines[i], width, indent);
        proof {
            assert(fragment_rows(wrapped@).len() == wrapped@.len());
        }
        counts.push(wrapped.len());
        lines.push(line);
        rows.push(wrapped);
        i += 1;
    }
    proof {
        assert(counts@ =~= run_counts(shape, *spec, width));
    }
    let draw = |line: usize, row: usize| -> (ops: Vec<LineOp>)
        requires
            line < spec.lines@.len(),
            line < lines@.len(),
            line < rows@.len(),
            row < rows@[line as int]@.len(),
            painter.wf(),
        ensures
            steps(ops@) == seq![LineStep::Row { continuation: row > 0 }] + any_gutter_steps(
                gutter,
            ) + op_if(
                row > 0 && indent > 0,
                LineStep::PrintMeta { text: blanks(indent as int), selectable: false },
            ) + fragments_steps(
                painter.painting(),
                *spec,
                line as int,
                run_views(lines@[line as int]@),
                rows@[line as int]@[row as int]@,
                rows@[line as int]@[row as int]@.len() as int,
            ) + seq![LineStep::Newline],
        { draw_run_row(painter, spec, gutter, indent, line, row, &lines[line], &rows[line][row]) };
    proof {
        assert forall|i: usize, r: usize, out: Vec<LineOp>|
            i < counts@.len() && r < counts@[i as int] && #[trigger] call_ensures(
                draw,
                (i, r),
                out,
            ) implies steps(out@) == row_of(i as int, r as int) by {
            assert(counts@[i as int] == rows@[i as int]@.len());
            assert(fragment_rows(rows@[i as int]@)[r as int] == rows@[i as int]@[r as int]@);
            assert(run_views(lines@[i as int]@) == line_runs(shape, spec.lines@[i as int]@));
        }
        assert forall|i: usize, r: usize|
            i < counts@.len() && r < counts@[i as int] implies #[trigger] call_requires(
            draw,
            (i, r),
        ) by {
            assert(counts@[i as int] == rows@[i as int]@.len());
        }
    }
    draw_rows(&counts, row_start, row_count, &draw, Ghost(row_of))
}

/// What the first `n` runs of a line of spans are drawn with, all of each.
pub open spec fn spans_steps(
    painting: Painting,
    spans: Seq<StyledSpan>,
    runs: Seq<RunView>,
    default_hl: Option<String>,
    syntax: Option<crate::ir::RetainedInlineSyntax>,
    n: int,
) -> Seq<LineStep>
    decreases n,
{
    if n <= 0 {
        Seq::empty()
    } else {
        let run = runs[n - 1];
        spans_steps(painting, spans, runs, default_hl, syntax, n - 1) + if run.meta < spans.len() {
            range_steps(
                painting,
                spans[run.meta as int],
                run.text,
                default_hl,
                0,
                text_bytes(run.text) as usize,
                match syntax {
                    Some(syntax) => retained_spans(syntax, 0, run.meta as int),
                    None => None,
                },
            )
        } else {
            Seq::empty()
        }
    }
}

/// The highlights of a line of spans, where there are any.
pub open spec fn syntax_option(syntax: Option<&crate::ir::RetainedInlineSyntax>) -> Option<
    crate::ir::RetainedInlineSyntax,
> {
    match syntax {
        Some(syntax) => Some(*syntax),
        None => None,
    }
}

/// Draws a line of spans.
pub fn print_styled_spans<
    'a,
    'b,
    J: Fn(&Vec<InlineRun>) -> Vec<InlineRun>,
    W: Fn(&Vec<InlineRun>, usize, usize) -> Vec<Vec<Fragment>>,
    O: Fn(&Vec<InlineRun>, usize, usize, usize, usize) -> Vec<Vec<Fragment>>,
    C: Fn(&Vec<InlineRun>) -> usize,
    E: Fn(&Vec<InlineRun>) -> bool,
    S: Fn(&str, usize, usize) -> String,
    F: Fn(&str) -> Option<Color>,
    B: Fn(&str) -> Option<Color>,
>(
    inline: &InlineText<'a, J, W, O, C, E>,
    painter: &SpanPainter<'b, S, F, B>,
    ops: &mut Vec<LineOp>,
    spans: &Vec<StyledSpan>,
    default_hl: &Option<String>,
    syntax: Option<&crate::ir::RetainedInlineSyntax>,
)
    requires
        inline.wf(),
        painter.wf(),
    ensures
        steps(final(ops)@) == steps(old(ops)@) + spans_steps(
            painter.painting(),
            spans@,
            line_runs(inline.shape(), spans@),
            *default_hl,
            syntax_option(syntax),
            line_runs(inline.shape(), spans@).len() as int,
        ),
{
    let ghost p = painter.painting();
    let ghost before = steps(ops@);
    let runs = inline.join_runs(&styled_line_parts(spans));
    let ghost all = run_views(runs@);
    let mut i: usize = 0;
    proof {
        assert(all.len() == runs@.len());
        assert(before + spans_steps(p, spans@, all, *default_hl, syntax_option(syntax), 0)
            =~= before);
    }
    while i < runs.len()
        invariant
            i <= runs@.len(),
            all == run_views(runs@),
            painter.wf(),
            p == painter.painting(),
            steps(ops@) == before + spans_steps(
                p,
                spans@,
                all,
                *default_hl,
                syntax_option(syntax),
                i as int,
            ),
        decreases runs@.len() - i,
    {
        let run = &runs[i];
        let ghost so_far = spans_steps(
            p,
            spans@,
            all,
            *default_hl,
            syntax_option(syntax),
            i as int,
        );
        let ghost now = steps(ops@);
        proof {
            assert(all[i as int] == run@);
        }
        if run.meta < spans.len() {
            let highlights = match syntax {
                Some(syntax) => highlights_of(syntax, 0, run.meta),
                None => None,
            };
            painter.print_styled_text_range(
                ops,
                &spans[run.meta],
                run.text.as_str(),
                default_hl,
                0,
                byte_len(run.text.as_str()),
                highlights,
            );
            proof {
                let expected = match syntax_option(syntax) {
                    Some(syntax) => retained_spans(syntax, 0, run.meta as int),
                    None => None,
                };
                assert(highlight_seq(highlights) == expected);
                let added = range_steps(
                    p,
                    spans@[run.meta as int],
                    run.text@,
                    *default_hl,
                    0,
                    text_bytes(run.text@) as usize,
                    expected,
                );
                lemma_behind(before, so_far, added);
            }
        } else {
            proof {
                lemma_behind(before, so_far, Seq::empty());
                assert(now + Seq::<LineStep>::empty() =~= now);
            }
        }
        i += 1;
    }
}

/// What a line is drawn with. It has one row.
pub open spec fn line_steps(
    painting: Painting,
    shape: InlineShape,
    spec: LineSpec,
    gutter: Option<&GutterSpec>,
) -> Seq<LineStep> {
    any_gutter_steps(gutter) + spans_steps(
        painting,
        spec.spans@,
        line_runs(shape, spec.spans@),
        spec.hl_group,
        Some(spec.syntax_highlights),
        line_runs(shape, spec.spans@).len() as int,
    ) + seq![LineStep::Newline]
}

/// Draws a line, where its only row is among those asked for.
pub fn render_line_spec<
    'a,
    'b,
    J: Fn(&Vec<InlineRun>) -> Vec<InlineRun>,
    W: Fn(&Vec<InlineRun>, usize, usize) -> Vec<Vec<Fragment>>,
    O: Fn(&Vec<InlineRun>, usize, usize, usize, usize) -> Vec<Vec<Fragment>>,
    C: Fn(&Vec<InlineRun>) -> usize,
    E: Fn(&Vec<InlineRun>) -> bool,
    S: Fn(&str, usize, usize) -> String,
    F: Fn(&str) -> Option<Color>,
    B: Fn(&str) -> Option<Color>,
>(
    inline: &InlineText<'a, J, W, O, C, E>,
    painter: &SpanPainter<'b, S, F, B>,
    spec: &LineSpec,
    row_start: usize,
    row_count: usize,
    gutter: Option<&GutterSpec>,
) -> (ops: Vec<LineOp>)
    requires
        inline.wf(),
        painter.wf(),
    ensures
        steps(ops@) == if row_start > 0 || row_count == 0 {
            Seq::empty()
        } else {
            line_steps(painter.painting(), inline.shape(), *spec, gutter)
        },
{
    let mut ops: Vec<LineOp> = Vec::new();
    proof {
        assert(steps(ops@) =~= Seq::<LineStep>::empty());
    }
    if row_start > 0 || row_count == 0 {
        return ops;
    }
    add_any_gutter(&mut ops, gutter);
    print_styled_spans(
        inline,
        painter,
        &mut ops,
        &spec.spans,
        &spec.hl_group,
        Some(&spec.syntax_highlights),
    );
    add_op(&mut ops, LineOp::Newline);
    proof {
        assert(Seq::<LineStep>::empty() + any_gutter_steps(gutter) =~= any_gutter_steps(gutter));
    }
    ops
}

/// So many dashes.
pub open spec fn rule(n: int) -> Seq<char> {
    Seq::new(n as nat, |i: int| '\u{2500}')
}

fn rule_text(n: usize) -> (text: String)
    ensures
        text@ == rule(n as int),
{
    let mut text = String::new();
    let mut i: usize = 0;
    proof {
        assert(text@ =~= rule(0));
    }
    while i < n
        invariant
            i <= n,
            text@ == rule(i as int),
        decreases n - i,
    {
        text.push('\u{2500}');
        i += 1;
        proof {
            assert(text@ =~= rule(i as int));
        }
    }
    text
}

/// Cells that are left and right of a separator's label.
pub open spec fn rule_cells(spec: SeparatorSpec, width: u16) -> (int, int) {
    let label = crate::text::cell_width(crate::widths::joined_text(spec.label@)) as int;
    let left = if width > label {
        width - label
    } else {
        0
    };
    (left / 2, left - left / 2)
}

/// What a separator is drawn with: its label amid a rule.
pub open spec fn separator_steps(
    painting: Painting,
    shape: InlineShape,
    spec: SeparatorSpec,
    width: u16,
    gutter: Option<&GutterSpec>,
) -> Seq<LineStep> {
    let (left, right) = rule_cells(spec, width);
    any_gutter_steps(gutter) + op_if(spec.dim, LineStep::PushDim) + seq![
        LineStep::PrintMeta { text: rule(left), selectable: spec.selectable },
    ] + spans_steps(
        painting,
        spec.label@,
        line_runs(shape, spec.label@),
        None,
        None,
        line_runs(shape, spec.label@).len() as int,
    ) + seq![LineStep::PrintMeta { text: rule(right), selectable: spec.selectable }] + op_if(
        spec.dim,
        LineStep::PopStyle,
    ) + seq![LineStep::Newline]
}

/// Draws a separator, where its only row is among those asked for.
pub fn render_separator_spec<
    'a,
    'b,
    J: Fn(&Vec<InlineRun>) -> Vec<InlineRun>,
    W: Fn(&Vec<InlineRun>, usize, usize) -> Vec<Vec<Fragment>>,
    O: Fn(&Vec<InlineRun>, usize, usize, usize, usize) -> Vec<Vec<Fragment>>,
    C: Fn(&Vec<InlineRun>) -> usize,
    E: Fn(&Vec<InlineRun>) -> bool,
    S: Fn(&str, usize, usize) -> String,
    F: Fn(&str) -> Option<Color>,
    B: Fn(&str) -> Option<Color>,
>(
    inline: &InlineText<'a, J, W, O, C, E>,
    painter: &SpanPainter<'b, S, F, B>,
    spec: &SeparatorSpec,
    width: u16,
    row_start: usize,
    row_count: usize,
    gutter: Option<&GutterSpec>,
) -> (ops: Vec<LineOp>)
    requires
        inline.wf(),
        painter.wf(),
    ensures
        steps(ops@) == if row_start > 0 || row_count == 0 {
            Seq::empty()
        } else {
            separator_steps(painter.painting(), inline.shape(), *spec, width, gutter)
        },
{
    let mut ops: Vec<LineOp> = Vec::new();
    proof {
        assert(steps(ops@) =~= Seq::<LineStep>::empty());
    }
    if row_start > 0 || row_count == 0 {
        return ops;
    }
    let label = styled_spans_width(&spec.label);
    let remaining = (width as usize).saturating_sub(label);
    let left = remaining / 2;
    let right = remaining - left;
    add_any_gutter(&mut ops, gutter);
    proof {
        assert(Seq::<LineStep>::empty() + any_gutter_steps(gutter) =~= any_gutter_steps(gutter));
        assert(rule_cells(*spec, width) == (left as int, right as int));
    }
    add_op_if(&mut ops, spec.dim, LineOp::PushDim);
    add_op(&mut ops, LineOp::PrintMeta { text: rule_text(left), selectable: spec.selectable });
    print_styled_spans(inline, painter, &mut ops, &spec.label, &None, None);
    add_op(&mut ops, LineOp::PrintMeta { text: rule_text(right), selectable: spec.selectable });
    add_op_if(&mut ops, spec.dim, LineOp::PopStyle);
    add_op(&mut ops, LineOp::Newline);
    ops
}

/// A separator fills the width, where its label leaves room.
pub proof fn separator_fills_width(spec: SeparatorSpec, width: u16)
    ensures
        ({
            let label = crate::text::cell_width(crate::widths::joined_text(spec.label@)) as int;
            let (left, right) = rule_cells(spec, width);
            &&& label <= width ==> left + label + right == width
            &&& label > width ==> left == 0 && right == 0
            &&& left <= right <= left + 1
        }),
{
}

} // verus!
