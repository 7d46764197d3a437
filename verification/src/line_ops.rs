//! Steps in drawing lines: text, styles and marks, one after the other.
use vstd::prelude::*;
use crate::ir::GutterSpec;
use crate::paint::Color;
use crate::prompt_style::CellStyle;
use crate::temp_rows::StyleOverlay;

verus! {

/// Which rows of something are asked for.
#[derive(Clone, Copy, Debug, PartialEq, Eq, Structural)]
#[allow(inconsistent_fields)]
pub enum RowsAsked {
    All,
    Range { start: usize, count: usize },
    Head { count: usize },
    Tail { count: usize },
}

/// One step in drawing lines.
#[derive(Debug)]
#[allow(inconsistent_fields)]
pub enum LineOp {
    /// Some line takes more than one row.
    MarkWrapped,
    /// A row of a line begins; `continuation` where it is not the first of it.
    Row { continuation: bool },
    /// The text of a gutter.
    Gutter(String),
    /// The style of this group, until it is popped.
    PushHl(String),
    /// The style in force, dimmed, until it is popped.
    PushDim,
    /// The style in force with this one over it, until it is popped.
    PushStyle(CellStyle),
    /// The style in force, until it is popped.
    SaveStyle,
    SetHl(String),
    SetFg(Color),
    SetBg(Color),
    SetDim,
    SetBold,
    SetItalic,
    ResetStyle,
    PopStyle,
    Print(String),
    /// Text that is selected only where `selectable`.
    PrintMeta { text: String, selectable: bool },
    /// Text that is copied as another.
    PrintCopyAs { text: String, copy: String },
    /// What fits of a text in this many further cells.
    PrintFitting { text: String, cells: u16 },
    /// Row `row` of line `line`, with the colours that its escape codes give it.
    AnsiRow { line: usize, row: usize },
    /// Row `row` of line `line` of inline markdown.
    InlineRow { line: usize, row: usize },
    /// The bytes `start .. end` of a text, highlighted as `lang`.
    SyntaxRange { lang: String, text: String, start: usize, end: usize },
    /// The left edge of the box that the line is in.
    BoxLeft,
    /// The right edge of the box, behind this many cells of text.
    BoxRight { cells: usize },
    /// Rows of the markdown that the leaf holds, dim or not, at a width.
    Markdown { dim: bool, width: u16, rows: RowsAsked },
    /// Rows of the code that the leaf holds, at a width.
    Code { width: u16, rows: RowsAsked },
    /// Rows of the file that the leaf holds, in the syntax of an extension, in so many columns
    /// of which the first are a gutter.
    File { extension: String, columns: u16, indent: u16, rows: RowsAsked },
    /// Rows of the source view that the leaf holds, in so many columns of which the first are
    /// a gutter.
    SourceView { columns: u16, indent: u16, rows: RowsAsked },
    /// Row `row` of what was drawn on its own, with a style laid over it.
    TempRow { row: usize, width: u16, overlay: Option<StyleOverlay> },
    Newline,
}

/// One step in drawing lines, as mathematical values.
#[allow(inconsistent_fields)]
pub enum LineStep {
    MarkWrapped,
    Row { continuation: bool },
    Gutter(Seq<char>),
    PushHl(Seq<char>),
    PushDim,
    PushStyle(CellStyle),
    SaveStyle,
    SetHl(Seq<char>),
    SetFg(Color),
    SetBg(Color),
    SetDim,
    SetBold,
    SetItalic,
    ResetStyle,
    PopStyle,
    Print(Seq<char>),
    PrintMeta { text: Seq<char>, selectable: bool },
    PrintCopyAs { text: Seq<char>, copy: Seq<char> },
    PrintFitting { text: Seq<char>, cells: u16 },
    AnsiRow { line: usize, row: usize },
    InlineRow { line: usize, row: usize },
    SyntaxRange { lang: Seq<char>, text: Seq<char>, start: usize, end: usize },
    BoxLeft,
    BoxRight { cells: usize },
    Markdown { dim: bool, width: u16, rows: RowsAsked },
    Code { width: u16, rows: RowsAsked },
    File { extension: Seq<char>, columns: u16, indent: u16, rows: RowsAsked },
    SourceView { columns: u16, indent: u16, rows: RowsAsked },
    TempRow { row: usize, width: u16, overlay: Option<StyleOverlay> },
    Newline,
}

impl View for LineOp {
    type V = LineStep;

    open spec fn view(&self) -> LineStep {
        match self {
            LineOp::MarkWrapped => LineStep::MarkWrapped,
            LineOp::Row { continuation } => LineStep::Row { continuation: *continuation },
            LineOp::Gutter(text) => LineStep::Gutter(text@),
            LineOp::PushHl(name) => LineStep::PushHl(name@),
            LineOp::PushDim => LineStep::PushDim,
            LineOp::PushStyle(style) => LineStep::PushStyle(*style),
            LineOp::SaveStyle => LineStep::SaveStyle,
            LineOp::SetHl(name) => LineStep::SetHl(name@),
            LineOp::SetFg(color) => LineStep::SetFg(*color),
            LineOp::SetBg(color) => LineStep::SetBg(*color),
            LineOp::SetDim => LineStep::SetDim,
            LineOp::SetBold => LineStep::SetBold,
            LineOp::SetItalic => LineStep::SetItalic,
            LineOp::ResetStyle => LineStep::ResetStyle,
            LineOp::PopStyle => LineStep::PopStyle,
            LineOp::Print(text) => LineStep::Print(text@),
            LineOp::PrintMeta { text, selectable } => LineStep::PrintMeta {
                text: text@,
                selectable: *selectable,
            },
            LineOp::PrintCopyAs { text, copy } => LineStep::PrintCopyAs {
                text: text@,
                copy: copy@,
            },
            LineOp::PrintFitting { text, cells } => LineStep::PrintFitting {
                text: text@,
                cells: *cells,
            },
            LineOp::AnsiRow { line, row } => LineStep::AnsiRow { line: *line, row: *row },
            LineOp::InlineRow { line, row } => LineStep::InlineRow { line: *line, row: *row },
            LineOp::SyntaxRange { lang, text, start, end } => LineStep::SyntaxRange {
                lang: lang@,
                text: text@,
                start: *start,
                end: *end,
            },
            LineOp::BoxLeft => LineStep::BoxLeft,
            LineOp::BoxRight { cells } => LineStep::BoxRight { cells: *cells },
            LineOp::Markdown { dim, width, rows } => LineStep::Markdown {
                dim: *dim,
                width: *width,
                rows: *rows,
            },
            LineOp::Code { width, rows } => LineStep::Code { width: *width, rows: *rows },
            LineOp::File { extension, columns, indent, rows } => LineStep::File {
                extension: extension@,
                columns: *columns,
                indent: *indent,
                rows: *rows,
            },
            LineOp::SourceView { columns, indent, rows } => LineStep::SourceView {
                columns: *columns,
                indent: *indent,
                rows: *rows,
            },
            LineOp::TempRow { row, width, overlay } => LineStep::TempRow {
                row: *row,
                width: *width,
                overlay: *overlay,
            },
            LineOp::Newline => LineStep::Newline,
        }
    }
}

/// Some steps, as mathematical values.
pub open spec fn steps(ops: Seq<LineOp>) -> Seq<LineStep> {
    ops.map_values(|op: LineOp| op@)
}

/// `step`, if `wanted`.
pub open spec fn op_if(wanted: bool, step: LineStep) -> Seq<LineStep> {
    if wanted {
        seq![step]
    } else {
        Seq::empty()
    }
}

pub(crate) proof fn lemma_behind(before: Seq<LineStep>, a: Seq<LineStep>, b: Seq<LineStep>)
    ensures
        before + a + b == before + (a + b),
{
    assert(before + a + b =~= before + (a + b));
}

/// Adds a step.
pub fn add_op(ops: &mut Vec<LineOp>, op: LineOp)
    ensures
        steps(final(ops)@) == steps(old(ops)@) + seq![op@],
{
    let ghost before = ops@;
    ops.push(op);
    proof {
        assert(steps(ops@) =~= steps(before) + seq![op@]);
    }
}

/// Adds a step, if it is wanted.
pub fn add_op_if(ops: &mut Vec<LineOp>, wanted: bool, op: LineOp)
    ensures
        steps(final(ops)@) == steps(old(ops)@) + op_if(wanted, op@),
{
    let ghost before = steps(ops@);
    let ghost step = op@;
    if wanted {
        add_op(ops, op);
    }
    proof {
        assert(steps(ops@) =~= before + op_if(wanted, step));
    }
}

/// The text of a gutter, if there is one that is `styled` or not.
pub open spec fn gutter_steps(gutter: Option<&GutterSpec>, styled: bool) -> Seq<LineStep> {
    match gutter {
        Some(gutter) => op_if(gutter.styled == styled, LineStep::Gutter(gutter.text@)),
        None => Seq::empty(),
    }
}

/// Adds the text of a gutter, if there is one that is `styled` or not.
pub fn add_gutter(ops: &mut Vec<LineOp>, gutter: Option<&GutterSpec>, styled: bool)
    ensures
        steps(final(ops)@) == steps(old(ops)@) + gutter_steps(gutter, styled),
{
    let ghost before = steps(ops@);
    if let Some(gutter) = gutter {
        if gutter.styled == styled {
            add_op(ops, LineOp::Gutter(gutter.text.clone()));
        }
    }
    proof {
        assert(steps(ops@) =~= before + gutter_steps(gutter, styled));
    }
}

/// A gutter of its own: in the style in force where it is styled, else in none.
pub open spec fn row_gutter_steps(gutter: GutterSpec) -> Seq<LineStep> {
    if gutter.styled {
        seq![LineStep::Gutter(gutter.text@)]
    } else {
        seq![
            LineStep::SaveStyle,
            LineStep::ResetStyle,
            LineStep::Gutter(gutter.text@),
            LineStep::PopStyle,
        ]
    }
}

/// Adds a gutter of its own.
pub fn print_row_gutter(ops: &mut Vec<LineOp>, gutter: &GutterSpec)
    ensures
        steps(final(ops)@) == steps(old(ops)@) + row_gutter_steps(*gutter),
{
    let ghost before = steps(ops@);
    if gutter.styled {
        add_op(ops, LineOp::Gutter(gutter.text.clone()));
    } else {
        add_op(ops, LineOp::SaveStyle);
        add_op(ops, LineOp::ResetStyle);
        add_op(ops, LineOp::Gutter(gutter.text.clone()));
        add_op(ops, LineOp::PopStyle);
    }
    proof {
        assert(steps(ops@) =~= before + row_gutter_steps(*gutter));
    }
}

} // verus!
