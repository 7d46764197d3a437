//! How retained contents, markdown and code are drawn: in place, or on their own and then
//! placed row by row behind a gutter.
use vstd::prelude::*;
use crate::ir::{ContentRenderSpec, ContentTextWindow, GutterSpec, RetainedContentSpec};
use crate::leaf_draw::{
    content_row_steps, plain_row_steps, render_retained_plain_markdown_row, ContentTextRow,
};
use crate::leaf_edges::{
    edge_mode, is_plain_line, markdown_edge, omitted_steps, render_omitted_markdown,
    retained_markdown_edge_mode, ContentFacts, ContentMetrics, ContentRuler,
    RetainedMarkdownEdgeMode,
};
use crate::leaf_rows::{drawn, rows_in_all};
use crate::leaf_text::{inline_row_steps, render_counted_inline_rows};
use crate::line_ops::{
    add_op, add_op_if, lemma_behind, op_if, print_row_gutter, row_gutter_steps, steps, LineOp,
    LineStep, RowsAsked,
};
use crate::paint::Color;
use crate::source_listing::{may_extend, path_extension};
use crate::spans::text_option;
use crate::styled_text::{Painting, SpanPainter};
use crate::temp_rows::StyleOverlay;
use crate::view_state::Outcome;
use crate::widths::{gutter_width, some_gutter_cells};

verus! {

/// A gutter of its own, if there is one.
pub open spec fn own_gutter_steps(gutter: Option<&GutterSpec>) -> Seq<LineStep> {
    match gutter {
        Some(gutter) => row_gutter_steps(*gutter),
        None => Seq::empty(),
    }
}

/// What rows `from .. to` of something that was drawn on its own are placed with.
pub open spec fn temp_rows_steps(
    gutter: Option<&GutterSpec>,
    width: u16,
    overlay: Option<StyleOverlay>,
    from: int,
    to: int,
) -> Seq<LineStep>
    decreases to - from,
{
    if to <= from {
        Seq::empty()
    } else {
        temp_rows_steps(gutter, width, overlay, from, to - 1) + own_gutter_steps(gutter) + seq![
            LineStep::TempRow { row: (to - 1) as usize, width, overlay },
            LineStep::Newline,
        ]
    }
}

/// What such rows are placed with, and the mark where some line was wrapped.
pub open spec fn placed_steps(
    wrapped: bool,
    gutter: Option<&GutterSpec>,
    width: u16,
    overlay: Option<StyleOverlay>,
    from: int,
    to: int,
) -> Seq<LineStep> {
    op_if(wrapped, LineStep::MarkWrapped) + temp_rows_steps(gutter, width, overlay, from, to)
}

fn place_rows(
    wrapped: bool,
    gutter: Option<&GutterSpec>,
    width: u16,
    overlay: Option<StyleOverlay>,
    from: usize,
    to: usize,
) -> (ops: Vec<LineOp>)
    ensures
        steps(ops@) == placed_steps(wrapped, gutter, width, overlay, from as int, to as int),
{
    let mut ops: Vec<LineOp> = Vec::new();
    proof {
        assert(steps(ops@) =~= Seq::<LineStep>::empty());
    }
    add_op_if(&mut ops, wrapped, LineOp::MarkWrapped);
    let ghost mark = op_if(wrapped, LineStep::MarkWrapped);
    let mut row: usize = from;
    proof {
        assert(steps(ops@) =~= mark + temp_rows_steps(
            gutter,
            width,
            overlay,
            from as int,
            from as int,
        ));
    }
    while row < to
        invariant
            from <= row,
            row <= to || row == from,
            mark == op_if(wrapped, LineStep::MarkWrapped),
            steps(ops@) == mark + temp_rows_steps(
                gutter,
                width,
                overlay,
                from as int,
                row as int,
            ),
        decreases to - row,
    {
        let ghost so_far = temp_rows_steps(gutter, width, overlay, from as int, row as int);
        let ghost begun = steps(ops@);
        if let Some(gutter) = gutter {
            print_row_gutter(&mut ops, gutter);
        }
        proof {
            assert(steps(ops@) =~= begun + own_gutter_steps(gutter));
        }
        let ghost opened = steps(ops@);
        add_op(&mut ops, LineOp::TempRow { row, width, overlay });
        add_op(&mut ops, LineOp::Newline);
        let ghost placed = seq![LineStep::TempRow { row, width, overlay }, LineStep::Newline];
        proof {
            assert(steps(ops@) =~= opened + placed);
            lemma_behind(mark, so_far, own_gutter_steps(gutter));
            lemma_behind(mark, so_far + own_gutter_steps(gutter), placed);
        }
        row += 1;
    }
    ops
}

/// The rows that are placed of something that was drawn on its own and has `total` rows: as
/// far as these can be numbered.
pub open spec fn placed_rows(row_start: usize, row_count: usize, total: usize) -> (int, int) {
    let end = if row_start + row_count < total {
        row_start + row_count
    } else {
        total as int
    };
    let numbered = if end < 65536 {
        end
    } else {
        65536
    };
    (
        row_start as int,
        if numbered < row_start {
            row_start as int
        } else {
            numbered
        },
    )
}

/// The rows that are placed of something that was drawn on its own and has `total` rows.
pub fn rows_to_place(row_start: usize, row_count: usize, total: usize) -> (rows: (usize, usize))
    ensures
        (rows.0 as int, rows.1 as int) == placed_rows(row_start, row_count, total),
{
    let end = if row_start < total && row_count < total - row_start {
        row_start + row_count
    } else {
        total
    };
    let numbered: usize = if end < 65536 {
        end
    } else {
        65536
    };
    if numbered < row_start {
        (row_start, row_start)
    } else {
        (row_start, numbered)
    }
}

/// `temp` draws these steps on their own at a width, with this outcome.
pub open spec fn temp_gives<T: Fn(&Vec<LineOp>, u16) -> Outcome>(
    temp: T,
    inner: Seq<LineStep>,
    width: u16,
    outcome: Outcome,
) -> bool {
    exists|ops: Vec<LineOp>| #[trigger]
        call_ensures(temp, (&ops, width), outcome) && steps(ops@) == inner
}

/// A width of one cell at least.
pub open spec fn some_width(width: u16) -> u16 {
    if width < 1 {
        1
    } else {
        width
    }
}

/// Rows that can be numbered of something drawn for a window.
pub open spec fn numbered_rows(outcome: Outcome) -> int {
    if outcome.line_count < 65535 {
        outcome.line_count as int
    } else {
        65535
    }
}

/// What is drawn of steps that are carried out on their own, and of which all rows are placed
/// behind a gutter.
pub open spec fn behind_gutter<T: Fn(&Vec<LineOp>, u16) -> Outcome>(
    temp: T,
    inner: Seq<LineStep>,
    gutter: &GutterSpec,
    width: u16,
    overlay: Option<StyleOverlay>,
    out: Seq<LineStep>,
) -> bool {
    exists|outcome: Outcome| #[trigger]
        temp_gives(temp, inner, some_width(width), outcome) && out == placed_steps(
            outcome.was_wrapped,
            Some(gutter),
            width,
            overlay,
            0,
            numbered_rows(outcome),
        )
}

fn draw_behind_gutter<T: Fn(&Vec<LineOp>, u16) -> Outcome>(
    inner: Vec<LineOp>,
    gutter: &GutterSpec,
    width: u16,
    overlay: Option<StyleOverlay>,
    temp: &T,
) -> (ops: Vec<LineOp>)
    requires
        forall|ops: &Vec<LineOp>, w: u16| #[trigger] call_requires(*temp, (ops, w)),
    ensures
        behind_gutter(*temp, steps(inner@), gutter, width, overlay, steps(ops@)),
{
    let cells: u16 = if width < 1 {
        1
    } else {
        width
    };
    let outcome = temp(&inner, cells);
    proof {
        assert(temp_gives(*temp, steps(inner@), some_width(width), outcome));
    }
    let rows: usize = if outcome.line_count < 65535 {
        outcome.line_count
    } else {
        65535
    };
    place_rows(outcome.was_wrapped, Some(gutter), width, overlay, 0, rows)
}

/// What is drawn of steps that are carried out on their own, and of which `row_count` rows
/// from `row_start` on are placed.
pub open spec fn drawn_via_temp<T: Fn(&Vec<LineOp>, u16) -> Outcome>(
    temp: T,
    inner: Seq<LineStep>,
    width: u16,
    row_start: usize,
    row_count: usize,
    gutter: Option<&GutterSpec>,
    overlay: Option<StyleOverlay>,
    out: Seq<LineStep>,
) -> bool {
    exists|outcome: Outcome| #[trigger]
        temp_gives(temp, inner, some_width(width), outcome) && ({
            let rows = placed_rows(row_start, row_count, outcome.line_count);
            out == placed_steps(outcome.was_wrapped, gutter, width, overlay, rows.0, rows.1)
        })
}

/// Draws steps on their own, and places `row_count` of their rows from `row_start` on.
pub fn render_via_temp<T: Fn(&Vec<LineOp>, u16) -> Outcome>(
    inner: &Vec<LineOp>,
    width: u16,
    row_start: usize,
    row_count: usize,
    gutter: Option<&GutterSpec>,
    overlay: Option<StyleOverlay>,
    temp: &T,
) -> (ops: Vec<LineOp>)
    requires
        forall|ops: &Vec<LineOp>, w: u16| #[trigger] call_requires(*temp, (ops, w)),
    ensures
        drawn_via_temp(
            *temp,
            steps(inner@),
            width,
            row_start,
            row_count,
            gutter,
            overlay,
            steps(ops@),
        ),
{
    let cells: u16 = if width < 1 {
        1
    } else {
        width
    };
    let outcome = temp(inner, cells);
    proof {
        assert(temp_gives(*temp, steps(inner@), some_width(width), outcome));
    }
    let (from, to) = rows_to_place(row_start, row_count, outcome.line_count);
    place_rows(outcome.was_wrapped, gutter, width, overlay, from, to)
}

/// What code that is part of the layout is drawn with: in place where all of its `total` rows
/// are asked for and no gutter stands in front of them.
pub open spec fn code_drawn<T: Fn(&Vec<LineOp>, u16) -> Outcome>(
    temp: T,
    total: usize,
    width: u16,
    row_start: usize,
    row_count: usize,
    gutter: Option<&GutterSpec>,
    out: Seq<LineStep>,
) -> bool {
    let whole = seq![LineStep::Code { width, rows: RowsAsked::All }];
    if row_start == 0 && row_count >= total && gutter is None {
        out == whole
    } else {
        drawn_via_temp(temp, whole, width, row_start, row_count, gutter, None, out)
    }
}

/// Draws code that is part of the layout and has `total` rows.
pub fn render_code_spec<T: Fn(&Vec<LineOp>, u16) -> Outcome>(
    total: usize,
    width: u16,
    row_start: usize,
    row_count: usize,
    gutter: Option<&GutterSpec>,
    temp: &T,
) -> (ops: Vec<LineOp>)
    requires
        forall|ops: &Vec<LineOp>, w: u16| #[trigger] call_requires(*temp, (ops, w)),
    ensures
        code_drawn(*temp, total, width, row_start, row_count, gutter, steps(ops@)),
{
    let mut whole: Vec<LineOp> = Vec::new();
    whole.push(LineOp::Code { width, rows: RowsAsked::All });
    proof {
        assert(steps(whole@) =~= seq![LineStep::Code { width, rows: RowsAsked::All }]);
    }
    if row_start == 0 && row_count >= total && gutter.is_none() {
        whole
    } else {
        render_via_temp(&whole, width, row_start, row_count, gutter, None, temp)
    }
}

/// What rows of markdown are drawn with where they stand, in italics or not.
pub open spec fn markdown_steps(dim: bool, italic: bool, width: u16, rows: RowsAsked) -> Seq<
    LineStep,
> {
    op_if(italic, LineStep::SaveStyle) + op_if(italic, LineStep::SetItalic) + seq![
        LineStep::Markdown { dim, width, rows },
    ] + op_if(italic, LineStep::PopStyle)
}

fn markdown_ops(dim: bool, italic: bool, width: u16, rows: RowsAsked) -> (ops: Vec<LineOp>)
    ensures
        steps(ops@) == markdown_steps(dim, italic, width, rows),
{
    let mut ops: Vec<LineOp> = Vec::new();
    add_op_if(&mut ops, italic, LineOp::SaveStyle);
    add_op_if(&mut ops, italic, LineOp::SetItalic);
    add_op(&mut ops, LineOp::Markdown { dim, width, rows });
    add_op_if(&mut ops, italic, LineOp::PopStyle);
    proof {
        assert(steps(ops@) =~= markdown_steps(dim, italic, width, rows));
    }
    ops
}

/// The style that is laid over markdown behind a gutter.
pub open spec fn gutter_overlay(gutter: &GutterSpec, dim: bool, italic: bool) -> Option<
    StyleOverlay,
> {
    if gutter.styled {
        Some(StyleOverlay { dim, italic })
    } else {
        None
    }
}

/// What markdown is drawn with: in place, or on its own and then placed behind a gutter.
pub open spec fn markdown_drawn<T: Fn(&Vec<LineOp>, u16) -> Outcome>(
    temp: T,
    dim: bool,
    italic: bool,
    width: u16,
    rows: RowsAsked,
    gutter: Option<&GutterSpec>,
    out: Seq<LineStep>,
) -> bool {
    match gutter {
        None => out == markdown_steps(dim, italic, width, rows),
        Some(gutter) => behind_gutter(
            temp,
            markdown_steps(dim, italic, width, rows),
            gutter,
            width,
            gutter_overlay(gutter, dim, italic),
            out,
        ),
    }
}

/// Draws rows of markdown that is neither inline nor plain.
pub fn render_markdown_rows<T: Fn(&Vec<LineOp>, u16) -> Outcome>(
    dim: bool,
    italic: bool,
    width: u16,
    rows: RowsAsked,
    gutter: Option<&GutterSpec>,
    temp: &T,
) -> (ops: Vec<LineOp>)
    requires
        forall|ops: &Vec<LineOp>, w: u16| #[trigger] call_requires(*temp, (ops, w)),
    ensures
        markdown_drawn(*temp, dim, italic, width, rows, gutter, steps(ops@)),
{
    let inner = markdown_ops(dim, italic, width, rows);
    match gutter {
        None => inner,
        Some(gutter) => {
            let overlay = if gutter.styled {
                Some(StyleOverlay { dim, italic })
            } else {
                None
            };
            draw_behind_gutter(inner, gutter, width, overlay, temp)
        },
    }
}

/// The first `n` rows of a retained text are drawn with this.
pub open spec fn text_rows_steps(
    painting: Painting,
    rows: Seq<ContentTextRow>,
    hl_group: Option<String>,
    ansi: bool,
    gutter: Option<&GutterSpec>,
    n: int,
) -> Seq<LineStep>
    decreases n,
{
    if n <= 0 {
        Seq::empty()
    } else {
        text_rows_steps(painting, rows, hl_group, ansi, gutter, n - 1) + content_row_steps(
            painting,
            rows[n - 1],
            hl_group,
            ansi,
            gutter,
        )
    }
}

/// The first `n` rows of retained markdown that reads as plain text are drawn with this.
pub open spec fn plain_rows_steps(
    rows: Seq<ContentTextRow>,
    dim: bool,
    italic: bool,
    gutter: Option<&GutterSpec>,
    n: int,
) -> Seq<LineStep>
    decreases n,
{
    if n <= 0 {
        Seq::empty()
    } else {
        plain_rows_steps(rows, dim, italic, gutter, n - 1) + plain_row_steps(
            rows[n - 1],
            dim,
            italic,
            gutter,
        )
    }
}

/// Draws rows of retained markdown that reads as plain text.
pub fn render_plain_rows(
    rows: &Vec<ContentTextRow>,
    dim: bool,
    italic: bool,
    gutter: Option<&GutterSpec>,
) -> (ops: Vec<LineOp>)
    ensures
        steps(ops@) == plain_rows_steps(rows@, dim, italic, gutter, rows@.len() as int),
{
    let mut ops: Vec<LineOp> = Vec::new();
    let mut i: usize = 0;
    proof {
        assert(steps(ops@) =~= plain_rows_steps(rows@, dim, italic, gutter, 0));
    }
    while i < rows.len()
        invariant
            i <= rows@.len(),
            steps(ops@) == plain_rows_steps(rows@, dim, italic, gutter, i as int),
        decreases rows@.len() - i,
    {
        render_retained_plain_markdown_row(&mut ops, &rows[i], dim, italic, gutter);
        i += 1;
    }
    ops
}

/// The extension that a retained file is coloured by: that of its language, of its path, or
/// that of plain text.
pub open spec fn file_coloured_as<X: Fn(&str) -> String>(
    lang_to_ext: X,
    path: Seq<char>,
    lang: Option<Seq<char>>,
    extension: Seq<char>,
) -> bool {
    match lang {
        Some(lang) => exists|l: &str, e: String| #[trigger]
            call_ensures(lang_to_ext, (l,), e) && l@ == lang && e@ == extension,
        None => exists|of_path: Option<Seq<char>>| #[trigger]
            may_extend(path, of_path) && extension == (match of_path {
                Some(found) => found,
                None => "txt"@,
            }),
    }
}

/// The extension that a retained file is coloured by.
pub fn file_extension<X: Fn(&str) -> String>(
    path: &str,
    lang: &Option<String>,
    lang_to_ext: &X,
) -> (extension: String)
    requires
        forall|l: &str| #[trigger] call_requires(*lang_to_ext, (l,)),
    ensures
        file_coloured_as(*lang_to_ext, path@, text_option(*lang), extension@),
{
    match lang {
        Some(lang) => lang_to_ext(lang.as_str()),
        None => {
            let of_path = path_extension(path);
            proof {
                assert(may_extend(path@, text_option(of_path)));
            }
            match of_path {
                Some(extension) => extension,
                None => String::from_str("txt"),
            }
        },
    }
}

/// What retained contents are drawn with.
pub struct ContentCanvas<'a, U, S, R, I, T, X> {
    /// What the contents are measured with.
    pub ruler: &'a U,
    /// What their texts are painted with.
    pub painter: &'a S,
    /// Rows of a content as text at a width, with or without escape codes.
    pub rows: &'a R,
    /// Rows that each line of a content takes as inline markdown, dim or italic, at a width.
    pub inline: &'a I,
    /// Draws steps on their own at a width.
    pub temp: &'a T,
    /// The extension of a language.
    pub lang_to_ext: &'a X,
}

/// The rows of a content as text are drawn with this.
pub open spec fn text_drawn<R: Fn(u64, u16, bool, RowsAsked) -> Vec<ContentTextRow>>(
    rows: R,
    painting: Painting,
    content: u64,
    hl_group: Option<String>,
    ansi: bool,
    width: u16,
    asked: RowsAsked,
    gutter: Option<&GutterSpec>,
    out: Seq<LineStep>,
) -> bool {
    exists|found: Vec<ContentTextRow>| #[trigger]
        call_ensures(rows, (content, width, ansi, asked), found) && out == text_rows_steps(
            painting,
            found@,
            hl_group,
            ansi,
            gutter,
            found@.len() as int,
        )
}

/// The rows of a content as plain markdown are drawn with this.
pub open spec fn plain_drawn<R: Fn(u64, u16, bool, RowsAsked) -> Vec<ContentTextRow>>(
    rows: R,
    content: u64,
    dim: bool,
    italic: bool,
    width: u16,
    asked: RowsAsked,
    gutter: Option<&GutterSpec>,
    out: Seq<LineStep>,
) -> bool {
    exists|found: Vec<ContentTextRow>| #[trigger]
        call_ensures(rows, (content, width, false, asked), found) && out == plain_rows_steps(
            found@,
            dim,
            italic,
            gutter,
            found@.len() as int,
        )
}

/// The rows of a content as inline markdown are drawn with this.
pub open spec fn inline_drawn<I: Fn(u64, bool, bool, u16) -> Vec<usize>>(
    inline: I,
    content: u64,
    dim: bool,
    italic: bool,
    width: u16,
    row_start: usize,
    row_count: usize,
    gutter: Option<&GutterSpec>,
    out: Seq<LineStep>,
) -> bool {
    exists|counts: Vec<usize>| #[trigger]
        call_ensures(inline, (content, dim, italic, width), counts) && out == drawn(
            counts@,
            row_start,
            row_count,
            |line: int, row: int| inline_row_steps(dim, italic, gutter, line, row),
        )
}

/// Rows of retained markdown are drawn with this.
pub open spec fn retained_markdown_drawn<
    R: Fn(u64, u16, bool, RowsAsked) -> Vec<ContentTextRow>,
    I: Fn(u64, bool, bool, u16) -> Vec<usize>,
    T: Fn(&Vec<LineOp>, u16) -> Outcome,
>(
    metrics: ContentMetrics,
    rows: R,
    inline_of: I,
    temp: T,
    content: u64,
    dim: bool,
    italic: bool,
    inline: bool,
    width: u16,
    row_start: usize,
    row_count: usize,
    gutter: Option<&GutterSpec>,
    out: Seq<LineStep>,
) -> bool {
    let asked = RowsAsked::Range { start: row_start, count: row_count };
    if inline {
        inline_drawn(
            inline_of,
            content,
            dim,
            italic,
            width,
            row_start,
            row_count,
            gutter,
            out,
        )
    } else if is_plain_line((metrics.facts)(content)) {
        plain_drawn(rows, content, dim, italic, width, asked, gutter, out)
    } else {
        markdown_drawn(temp, dim, italic, width, asked, gutter, out)
    }
}

/// The first or last rows.
pub open spec fn edge_asked(count: usize, tail: bool) -> RowsAsked {
    if tail {
        RowsAsked::Tail { count }
    } else {
        RowsAsked::Head { count }
    }
}

fn ask_edge(count: usize, tail: bool) -> (asked: RowsAsked)
    ensures
        asked == edge_asked(count, tail),
{
    if tail {
        RowsAsked::Tail { count }
    } else {
        RowsAsked::Head { count }
    }
}

/// An edge of retained markdown is drawn with this.
pub open spec fn markdown_edge_drawn<
    R: Fn(u64, u16, bool, RowsAsked) -> Vec<ContentTextRow>,
    I: Fn(u64, bool, bool, u16) -> Vec<usize>,
>(
    metrics: ContentMetrics,
    rows: R,
    inline_of: I,
    content: u64,
    dim: bool,
    italic: bool,
    inline: bool,
    width: u16,
    max_rows: usize,
    tail: bool,
    out: Seq<LineStep>,
) -> bool {
    let window = markdown_edge(metrics, content, dim, italic, inline, width, max_rows);
    match edge_mode((metrics.facts)(content), inline) {
        RetainedMarkdownEdgeMode::Literal => plain_drawn(
            rows,
            content,
            dim,
            italic,
            width,
            edge_asked(window.row_count, tail),
            None,
            out,
        ),
        RetainedMarkdownEdgeMode::Omitted => out == if window.row_count > 0 {
            omitted_steps(dim, italic)
        } else {
            Seq::empty()
        },
        RetainedMarkdownEdgeMode::Parsed => if inline {
            let total = (metrics.inline_rows)(content, dim, italic, width);
            inline_drawn(
                inline_of,
                content,
                dim,
                italic,
                width,
                if tail {
                    total.saturating_sub(window.row_count)
                } else {
                    0
                },
                window.row_count,
                None,
                out,
            )
        } else {
            out == markdown_steps(dim, italic, width, edge_asked(max_rows, tail))
        },
    }
}

impl<
    'a,
    'b,
    'c,
    R0: Fn(u64) -> ContentFacts,
    R1: Fn(u64, u16, bool) -> usize,
    R2: Fn(u64, u16, bool, usize) -> ContentTextWindow,
    R3: Fn(u64, bool, bool, u16) -> usize,
    R4: Fn(u64, bool, u16) -> usize,
    R5: Fn(u64, bool, u16, usize) -> ContentTextWindow,
    R6: Fn(u64, u16) -> usize,
    R7: Fn(u64, u16, usize) -> ContentTextWindow,
    R8: Fn(u64, u16, u16) -> usize,
    R9: Fn(u64, u16, usize) -> ContentTextWindow,
    S: Fn(&str, usize, usize) -> String,
    F: Fn(&str) -> Option<Color>,
    B: Fn(&str) -> Option<Color>,
    R: Fn(u64, u16, bool, RowsAsked) -> Vec<ContentTextRow>,
    I: Fn(u64, bool, bool, u16) -> Vec<usize>,
    T: Fn(&Vec<LineOp>, u16) -> Outcome,
    X: Fn(&str) -> String,
> ContentCanvas<
    'a,
    ContentRuler<'b, R0, R1, R2, R3, R4, R5, R6, R7, R8, R9>,
    SpanPainter<'c, S, F, B>,
    R,
    I,
    T,
    X,
> {
    /// Every question may be asked, and the rows of inline markdown can be counted.
    pub open spec fn wf(&self) -> bool {
        &&& self.ruler.wf()
        &&& self.painter.wf()
        &&& forall|c: u64, w: u16, ansi: bool, asked: RowsAsked| #[trigger]
            call_requires(*self.rows, (c, w, ansi, asked))
        &&& forall|c: u64, dim: bool, italic: bool, w: u16| #[trigger]
            call_requires(*self.inline, (c, dim, italic, w))
        &&& forall|c: u64, dim: bool, italic: bool, w: u16, counts: Vec<usize>| #[trigger]
            call_ensures(*self.inline, (c, dim, italic, w), counts) ==> rows_in_all(counts@)
                <= usize::MAX
        &&& forall|ops: &Vec<LineOp>, w: u16| #[trigger] call_requires(*self.temp, (ops, w))
        &&& forall|l: &str| #[trigger] call_requires(*self.lang_to_ext, (l,))
    }

    /// Draws rows of a retained text.
    pub fn render_content_text_spec(
        &self,
        content: u64,
        hl_group: &Option<String>,
        ansi: bool,
        width: u16,
        asked: RowsAsked,
        gutter: Option<&GutterSpec>,
    ) -> (ops: Vec<LineOp>)
        requires
            self.wf(),
        ensures
            text_drawn(
                *self.rows,
                self.painter.painting(),
                content,
                *hl_group,
                ansi,
                width,
                asked,
                gutter,
                steps(ops@),
            ),
    {
        let rows = (self.rows)(content, width, ansi, asked);
        let ghost p = self.painter.painting();
        let mut ops: Vec<LineOp> = Vec::new();
        let mut i: usize = 0;
        proof {
            assert(steps(ops@) =~= text_rows_steps(p, rows@, *hl_group, ansi, gutter, 0));
        }
        while i < rows.len()
            invariant
                i <= rows@.len(),
                self.wf(),
                p == self.painter.painting(),
                steps(ops@) == text_rows_steps(p, rows@, *hl_group, ansi, gutter, i as int),
            decreases rows@.len() - i,
        {
            self.painter.render_content_text_row(&mut ops, &rows[i], hl_group, ansi, gutter);
            i += 1;
        }
        ops
    }

    /// Draws rows of a content as plain markdown.
    fn render_plain_content(
        &self,
        content: u64,
        dim: bool,
        italic: bool,
        width: u16,
        asked: RowsAsked,
        gutter: Option<&GutterSpec>,
    ) -> (ops: Vec<LineOp>)
        requires
            self.wf(),
        ensures
            plain_drawn(*self.rows, content, dim, italic, width, asked, gutter, steps(ops@)),
    {
        let rows = (self.rows)(content, width, false, asked);
        render_plain_rows(&rows, dim, italic, gutter)
    }

    /// Draws rows of a content that is a single line of plain markdown. `None` where it is
    /// not.
    pub fn render_retained_plain_markdown_line(
        &self,
        content: u64,
        dim: bool,
        italic: bool,
        width: u16,
        row_start: usize,
        row_count: usize,
        gutter: Option<&GutterSpec>,
    ) -> (ops: Option<Vec<LineOp>>)
        requires
            self.wf(),
        ensures
            ops is Some == is_plain_line((self.ruler.metrics().facts)(content)),
            ops matches Some(ops) ==> plain_drawn(
                *self.rows,
                content,
                dim,
                italic,
                width,
                RowsAsked::Range { start: row_start, count: row_count },
                gutter,
                steps(ops@),
            ),
    {
        let facts = (self.ruler.facts)(content);
        if facts.logical_lines == 1 && facts.first_line_plain && facts.len > 0 {
            let asked = RowsAsked::Range { start: row_start, count: row_count };
            Some(self.render_plain_content(content, dim, italic, width, asked, gutter))
        } else {
            None
        }
    }

    /// Draws rows of a content as inline markdown.
    pub fn render_retained_inline_markdown_spec(
        &self,
        content: u64,
        dim: bool,
        italic: bool,
        width: u16,
        row_start: usize,
        row_count: usize,
        gutter: Option<&GutterSpec>,
    ) -> (ops: Vec<LineOp>)
        requires
            self.wf(),
        ensures
            inline_drawn(
                *self.inline,
                content,
                dim,
                italic,
                width,
                row_start,
                row_count,
                gutter,
                steps(ops@),
            ),
    {
        let counts = (self.inline)(content, dim, italic, width);
        render_counted_inline_rows(&counts, dim, italic, row_start, row_count, gutter)
    }

    /// Draws rows of retained markdown.
    pub fn render_retained_markdown_spec(
        &self,
        content: u64,
        dim: bool,
        italic: bool,
        inline: bool,
        width: u16,
        row_start: usize,
        row_count: usize,
        gutter: Option<&GutterSpec>,
    ) -> (ops: Vec<LineOp>)
        requires
            self.wf(),
        ensures
            retained_markdown_drawn(
                self.ruler.metrics(),
                *self.rows,
                *self.inline,
                *self.temp,
                content,
                dim,
                italic,
                inline,
                width,
                row_start,
                row_count,
                gutter,
                steps(ops@),
            ),
    {
        if inline {
            return self.render_retained_inline_markdown_spec(
                content,
                dim,
                italic,
                width,
                row_start,
                row_count,
                gutter,
            );
        }
        if let Some(ops) = self.render_retained_plain_markdown_line(
            content,
            dim,
            italic,
            width,
            row_start,
            row_count,
            gutter,
        ) {
            return ops;
        }
        let asked = RowsAsked::Range { start: row_start, count: row_count };
        render_markdown_rows(dim, italic, width, asked, gutter, self.temp)
    }

    /// Draws an edge of retained markdown, and says how much of it there is.
    pub fn render_retained_markdown_edge(
        &self,
        content: u64,
        dim: bool,
        italic: bool,
        inline: bool,
        width: u16,
        max_rows: usize,
        tail: bool,
    ) -> (r: (Vec<LineOp>, ContentTextWindow))
        requires
            self.wf(),
        ensures
            r.1 == markdown_edge(
                self.ruler.metrics(),
                content,
                dim,
                italic,
                inline,
                width,
                max_rows,
            ),
            markdown_edge_drawn(
                self.ruler.metrics(),
                *self.rows,
                *self.inline,
                content,
                dim,
                italic,
                inline,
                width,
                max_rows,
                tail,
                steps(r.0@),
            ),
    {
        let facts = (self.ruler.facts)(content);
        let mode = retained_markdown_edge_mode(facts, inline);
        let window = self.ruler.measure_retained_markdown_edge(
            content,
            dim,
            italic,
            inline,
            width,
            max_rows,
        );
        match mode {
            RetainedMarkdownEdgeMode::Literal => {
                let asked = ask_edge(window.row_count, tail);
                let ops = self.render_plain_content(content, dim, italic, width, asked, None);
                (ops, window)
            },
            RetainedMarkdownEdgeMode::Omitted => {
                let ops = if window.row_count > 0 {
                    render_omitted_markdown(dim, italic)
                } else {
                    Vec::new()
                };
                proof {
                    if window.row_count == 0 {
                        assert(steps(ops@) =~= Seq::<LineStep>::empty());
                    }
                }
                (ops, window)
            },
            RetainedMarkdownEdgeMode::Parsed => {
                if inline {
                    let total = (self.ruler.inline_rows)(content, dim, italic, width);
                    let row_start = if tail {
                        total.saturating_sub(window.row_count)
                    } else {
                        0
                    };
                    let ops = self.render_retained_inline_markdown_spec(
                        content,
                        dim,
                        italic,
                        width,
                        row_start,
                        window.row_count,
                        None,
                    );
                    (ops, window)
                } else {
                    (markdown_ops(dim, italic, width, ask_edge(max_rows, tail)), window)
                }
            },
        }
    }

    /// What a retained content is drawn with.
    pub open spec fn content_drawn(
        &self,
        spec: RetainedContentSpec,
        width: u16,
        row_start: usize,
        row_count: usize,
        gutter: Option<&GutterSpec>,
        out: Seq<LineStep>,
    ) -> bool {
        let asked = RowsAsked::Range { start: row_start, count: row_count };
        match spec.render {
            ContentRenderSpec::Text { hl_group, ansi } => text_drawn(
                *self.rows,
                self.painter.painting(),
                spec.content,
                hl_group,
                ansi,
                width,
                asked,
                gutter,
                out,
            ),
            ContentRenderSpec::Markdown { dim, italic, inline } => retained_markdown_drawn(
                self.ruler.metrics(),
                *self.rows,
                *self.inline,
                *self.temp,
                spec.content,
                dim,
                italic,
                inline,
                width,
                row_start,
                row_count,
                gutter,
                out,
            ),
            ContentRenderSpec::Code { .. } => {
                let code = seq![LineStep::Code { width, rows: asked }];
                if row_count == 0 {
                    out == Seq::<LineStep>::empty()
                } else {
                    match gutter {
                        None => out == code,
                        Some(gutter) => behind_gutter(*self.temp, code, gutter, width, None, out),
                    }
                }
            },
            ContentRenderSpec::File { path, lang } => {
                let indent = some_gutter_cells(gutter);
                exists|extension: Seq<char>| #[trigger]
                    file_coloured_as(*self.lang_to_ext, path@, text_option(lang), extension)
                        && out == seq![
                        LineStep::File {
                            extension,
                            columns: width.saturating_add(indent),
                            indent,
                            rows: asked,
                        },
                    ]
            },
        }
    }

    /// Draws rows of retained code.
    pub fn render_retained_code_spec(
        &self,
        width: u16,
        row_start: usize,
        row_count: usize,
        gutter: Option<&GutterSpec>,
    ) -> (ops: Vec<LineOp>)
        requires
            self.wf(),
        ensures
            ({
                let code = seq![
                    LineStep::Code {
                        width,
                        rows: RowsAsked::Range { start: row_start, count: row_count },
                    },
                ];
                if row_count == 0 {
                    steps(ops@) == Seq::<LineStep>::empty()
                } else {
                    match gutter {
                        None => steps(ops@) == code,
                        Some(gutter) => behind_gutter(
                            *self.temp,
                            code,
                            gutter,
                            width,
                            None,
                            steps(ops@),
                        ),
                    }
                }
            }),
    {
        let mut ops: Vec<LineOp> = Vec::new();
        if row_count == 0 {
            proof {
                assert(steps(ops@) =~= Seq::<LineStep>::empty());
            }
            return ops;
        }
        let rows = RowsAsked::Range { start: row_start, count: row_count };
        ops.push(LineOp::Code { width, rows });
        proof {
            assert(steps(ops@) =~= seq![LineStep::Code { width, rows }]);
        }
        match gutter {
            None => ops,
            Some(gutter) => draw_behind_gutter(ops, gutter, width, None, self.temp),
        }
    }

    /// Draws rows of a retained content.
    pub fn render_content_spec(
        &self,
        spec: &RetainedContentSpec,
        width: u16,
        row_start: usize,
        row_count: usize,
        gutter: Option<&GutterSpec>,
    ) -> (ops: Vec<LineOp>)
        requires
            self.wf(),
        ensures
            self.content_drawn(*spec, width, row_start, row_count, gutter, steps(ops@)),
    {
        let rows = RowsAsked::Range { start: row_start, count: row_count };
        match &spec.render {
            ContentRenderSpec::Text { hl_group, ansi } => self.render_content_text_spec(
                spec.content,
                hl_group,
                *ansi,
                width,
                rows,
                gutter,
            ),
            ContentRenderSpec::Markdown { dim, italic, inline } =>
                self.render_retained_markdown_spec(
                spec.content,
                *dim,
                *italic,
                *inline,
                width,
                row_start,
                row_count,
                gutter,
            ),
            ContentRenderSpec::Code { .. } => self.render_retained_code_spec(
                width,
                row_start,
                row_count,
                gutter,
            ),
            ContentRenderSpec::File { path, lang } => {
                let indent = gutter_width(gutter);
                let extension = file_extension(path.as_str(), lang, self.lang_to_ext);
                let ghost coloured = extension@;
                let mut ops: Vec<LineOp> = Vec::new();
                let columns = width.saturating_add(indent);
                ops.push(LineOp::File { extension, columns, indent, rows });
                proof {
                    assert(file_coloured_as(
                        *self.lang_to_ext,
                        path@,
                        text_option(*lang),
                        coloured,
                    ));
                    assert(steps(ops@) =~= seq![
                        LineStep::File { extension: coloured, columns, indent, rows },
                    ]);
                }
                ops
            },
        }
    }

    /// What an edge of a retained content is drawn with.
    pub open spec fn content_edge_drawn(
        &self,
        spec: RetainedContentSpec,
        width: u16,
        count: usize,
        tail: bool,
        out: Seq<LineStep>,
    ) -> bool {
        match spec.render {
            ContentRenderSpec::Text { hl_group, ansi } => text_drawn(
                *self.rows,
                self.painter.painting(),
                spec.content,
                hl_group,
                ansi,
                width,
                edge_asked(count, tail),
                None,
                out,
            ),
            ContentRenderSpec::Code { .. } => out == seq![
                LineStep::Code { width, rows: edge_asked(count, tail) },
            ],
            ContentRenderSpec::File { path, lang } => exists|extension: Seq<char>| #[trigger]
                file_coloured_as(*self.lang_to_ext, path@, text_option(lang), extension) && out
                    == seq![
                    LineStep::File {
                        extension,
                        columns: width,
                        indent: 0,
                        rows: edge_asked(count, tail),
                    },
                ],
            ContentRenderSpec::Markdown { dim, italic, inline } => markdown_edge_drawn(
                self.ruler.metrics(),
                *self.rows,
                *self.inline,
                spec.content,
                dim,
                italic,
                inline,
                width,
                count,
                tail,
                out,
            ),
        }
    }

    /// Draws the first, or last, rows of a retained content.
    pub fn render_retained_content_edge(
        &self,
        spec: &RetainedContentSpec,
        width: u16,
        count: usize,
        tail: bool,
    ) -> (ops: Vec<LineOp>)
        requires
            self.wf(),
        ensures
            self.content_edge_drawn(*spec, width, count, tail, steps(ops@)),
    {
        let rows = ask_edge(count, tail);
        match &spec.render {
            ContentRenderSpec::Text { hl_group, ansi } => self.render_content_text_spec(
                spec.content,
                hl_group,
                *ansi,
                width,
                rows,
                None,
            ),
            ContentRenderSpec::Code { .. } => {
                let mut ops: Vec<LineOp> = Vec::new();
                ops.push(LineOp::Code { width, rows });
                proof {
                    assert(steps(ops@) =~= seq![LineStep::Code { width, rows }]);
                }
                ops
            },
            ContentRenderSpec::File { path, lang } => {
                let extension = file_extension(path.as_str(), lang, self.lang_to_ext);
                let ghost coloured = extension@;
                let mut ops: Vec<LineOp> = Vec::new();
                ops.push(LineOp::File { extension, columns: width, indent: 0, rows });
                proof {
                    assert(file_coloured_as(
                        *self.lang_to_ext,
                        path@,
                        text_option(*lang),
                        coloured,
                    ));
                    assert(steps(ops@) =~= seq![
                        LineStep::File { extension: coloured, columns: width, indent: 0, rows },
                    ]);
                }
                ops
            },
            ContentRenderSpec::Markdown { dim, italic, inline } => {
                let (ops, _window) = self.render_retained_markdown_edge(
                    spec.content,
                    *dim,
                    *italic,
                    *inline,
                    width,
                    count,
                    tail,
                );
                ops
            },
        }
    }
}

} // verus!
