//! Drawing instructions for output rows.
use vstd::prelude::*;
use crate::cap_rows::CapDirection;
use crate::ir::{
    GutterSpec, IrLeaf, PanelSpec, RetainedContentSpec, RowPrefixSpec, RunsSpec, StyleSpec,
    StyledSpan,
};

verus! {

/// How much of a nested row's decoration passes to the row that it is drawn in.
#[derive(Clone, Copy, Debug, PartialEq, Eq, Structural)]
pub enum RowDecoration {
    Nothing,
    /// All but what belongs to the whole line.
    Partial,
    Full,
}

/// A row that is drawn on its own and then placed, clipped, in another.
#[derive(Clone, Copy, Debug, PartialEq, Eq, Structural)]
pub struct NestedRow {
    /// Width at which the row is drawn.
    pub width: u16,
    /// Cells that are kept of it; where `to_row_end`, counted from the end of the
    /// gutter instead of from where the row is placed.
    pub clip: u16,
    pub to_row_end: bool,
    /// The row starts out in the style in force where it is placed.
    pub inherit_style: bool,
    pub decoration: RowDecoration,
    /// Blank cells follow, up to `clip`.
    pub pad: bool,
    /// Where what is drawn in the row was wrapped, the output that it is placed in counts as
    /// wrapped too.
    pub carry_wrapped: bool,
}

/// One step in drawing an output row; steps between an `Open` and its `Close` draw
/// the nested part.
#[derive(Clone, Copy, Debug)]
#[allow(inconsistent_fields)]
pub enum RowOp<'a> {
    /// Row `row` of a leaf at a width, with the gutter in front of it.
    Leaf { leaf: &'a IrLeaf, width: u16, row: usize, gutter: Option<&'a GutterSpec> },
    /// Row `row` of runs laid out together with their prefix.
    PrefixedRuns {
        runs: &'a RunsSpec,
        prefix: &'a RowPrefixSpec,
        width: u16,
        row: usize,
        gutter: Option<&'a GutterSpec>,
    },
    /// Row `row` of the first, or last, `count` rows of a content.
    ContentEdge {
        content: &'a RetainedContentSpec,
        width: u16,
        count: usize,
        tail: bool,
        row: usize,
        gutter: Option<&'a GutterSpec>,
    },
    /// A note in place of something that is not drawn.
    Note { text: &'a str, selectable: bool },
    /// The text of a cap's marker.
    Marker {
        skipped: usize,
        kept: usize,
        total: Option<u64>,
        direction: CapDirection,
        gutter: Option<&'a GutterSpec>,
    },
    /// The text of a cap's marker, clipped at the end of the row.
    ClippedMarker {
        width: u16,
        skipped: usize,
        kept: usize,
        total: Option<u64>,
        direction: CapDirection,
    },
    /// A gutter in the style in force.
    PlainGutter(&'a GutterSpec),
    /// A gutter in the style in force where it is styled, else in none.
    RowGutter(&'a GutterSpec),
    /// A row prefix of at most `max_cols` cells in a row of `row_cols`.
    Prefix { spans: &'a Vec<StyledSpan>, max_cols: u16, row_cols: u16 },
    OpenRow(NestedRow),
    CloseRow(NestedRow),
    OpenPanel(&'a PanelSpec),
    ClosePanel(&'a PanelSpec),
    SaveStyle,
    ApplyStyle(&'a StyleSpec),
    SetDim,
    RestoreStyle,
}

/// The note that stands for a part that is too deep or too large. It cannot be selected.
pub open spec fn omitted_note<'a>() -> RowOp<'a> {
    RowOp::Note { text: "[large transient layout omitted]", selectable: false }
}

/// Draws the note that stands for a part that is too deep or too large.
pub fn note_omitted<'a>() -> (op: RowOp<'a>)
    ensures
        op == omitted_note(),
{
    RowOp::Note { text: "[large transient layout omitted]", selectable: false }
}

/// The steps of each row.
pub open spec fn rows_view<'a>(rows: Seq<Vec<RowOp<'a>>>) -> Seq<Seq<RowOp<'a>>> {
    rows.map_values(|row: Vec<RowOp<'a>>| row@)
}

/// Every row between `before` and `after`.
pub open spec fn wrapped<'a>(
    before: Seq<RowOp<'a>>,
    rows: Seq<Seq<RowOp<'a>>>,
    after: Seq<RowOp<'a>>,
) -> Seq<Seq<RowOp<'a>>> {
    Seq::new(rows.len(), |i: int| before + rows[i] + after)
}

pub fn push_all<'a>(row: &mut Vec<RowOp<'a>>, more: &Vec<RowOp<'a>>)
    ensures
        final(row)@ == old(row)@ + more@,
{
    let ghost start = row@;
    let mut i: usize = 0;
    while i < more.len()
        invariant
            i <= more@.len(),
            start == old(row)@,
            row@ == start + more@.take(i as int),
        decreases more.len() - i,
    {
        row.push(more[i]);
        i += 1;
        proof {
            assert(start + more@.take(i as int) =~= (start + more@.take(i - 1)).push(more@[i - 1]));
        }
    }
    proof {
        assert(more@.take(i as int) =~= more@);
    }
}

/// One row between `before` and `after`.
pub fn wrap_row<'a>(
    before: &Vec<RowOp<'a>>,
    row: &Vec<RowOp<'a>>,
    after: &Vec<RowOp<'a>>,
) -> (out: Vec<RowOp<'a>>)
    ensures
        out@ == before@ + row@ + after@,
{
    let mut out: Vec<RowOp<'a>> = Vec::new();
    push_all(&mut out, before);
    push_all(&mut out, row);
    push_all(&mut out, after);
    proof {
        assert(Seq::<RowOp<'a>>::empty() + before@ =~= before@);
    }
    out
}

/// Every row between `before` and `after`.
pub fn wrap_rows<'a>(
    before: &Vec<RowOp<'a>>,
    rows: &Vec<Vec<RowOp<'a>>>,
    after: &Vec<RowOp<'a>>,
) -> (out: Vec<Vec<RowOp<'a>>>)
    ensures
        rows_view(out@) == wrapped(before@, rows_view(rows@), after@),
{
    let mut out: Vec<Vec<RowOp<'a>>> = Vec::new();
    let mut i: usize = 0;
    while i < rows.len()
        invariant
            i <= rows@.len(),
            out@.len() == i,
            forall|j: int| 0 <= j < i ==> (#[trigger] out@[j])@ == before@ + rows@[j]@ + after@,
        decreases rows.len() - i,
    {
        out.push(wrap_row(before, &rows[i], after));
        i += 1;
    }
    proof {
        assert(rows_view(out@) =~= wrapped(before@, rows_view(rows@), after@));
    }
    out
}

/// Appends `more` to `rows`.
pub fn append_rows<'a>(rows: &mut Vec<Vec<RowOp<'a>>>, more: Vec<Vec<RowOp<'a>>>)
    ensures
        rows_view(final(rows)@) == rows_view(old(rows)@) + rows_view(more@),
{
    let mut more = more;
    let ghost before = rows@;
    let ghost added = more@;
    rows.append(&mut more);
    proof {
        assert(rows@ =~= before + added);
        assert(rows_view(before + added) =~= rows_view(before) + rows_view(added));
    }
}

/// `count` equal rows of the one step `op`.
pub open spec fn repeated<'a>(row: Seq<RowOp<'a>>, count: int) -> Seq<Seq<RowOp<'a>>> {
    Seq::new(count as nat, |i: int| row)
}

/// A row of the one step `op`.
pub fn single_row<'a>(op: RowOp<'a>) -> (row: Vec<RowOp<'a>>)
    ensures
        row@ == seq![op],
{
    let mut row: Vec<RowOp<'a>> = Vec::new();
    row.push(op);
    row
}

} // verus!
