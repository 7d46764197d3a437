//! The rows of a layout, drawn in any range.
use vstd::prelude::*;
use crate::budget::fits_exact;
use crate::cap_rows::{cap_rows, capped, CapRow};
use crate::edges::{
    cap_output, cells, columns_view, compose_cells, copy_owner, copy_owner_from, leaf_range,
    leaf_rows_in_range, rows_in_range, text_cap_body, text_leaf,
};
use crate::host::{LayoutHost, Metrics};
use crate::ir::{
    BlockLayout, CapSpec, Constraint, ContentTextWindow, GutterSpec, HboxItem, IrLeaf, LayoutIr,
    PanelSpec, RetainedContentSpec, RowPrefixSpec, RunsSpec,
};
use crate::measure::layout_rows;
use crate::plan::{MeasuredLayout, MeasuredLayoutKind};
use crate::rows::{
    append_rows, push_all, rows_view, single_row, wrap_rows, wrapped, NestedRow, RowDecoration,
    RowOp,
};
use crate::text::{display_width_u16, max_usize, min_usize, spec_max, spec_min};
use crate::widths::{
    after_gutter, both_paddings, child_width_after_gutter, gutter_cells, gutter_width, hbox_widths,
    inside_panel, panel_child_width, prefix_cells, row_prefix_child_widths, row_prefix_width,
    some_gutter_cells, spans_cells,
};

verus! {

/// Where the rows of a layout's nodes are taken from.
#[derive(Clone, Copy)]
pub enum RenderMeasurement<'a> {
    /// Measured on the spot.
    Complete,
    /// Read from an earlier measurement.
    Measured(&'a MeasuredLayout),
}

impl<'a> RenderMeasurement<'a> {
    pub open spec fn spec_child(self) -> Self {
        match self {
            RenderMeasurement::Measured(measured) => match measured.kind {
                MeasuredLayoutKind::Child(inner) => RenderMeasurement::Measured(&*inner),
                _ => RenderMeasurement::Complete,
            },
            RenderMeasurement::Complete => RenderMeasurement::Complete,
        }
    }

    pub open spec fn spec_nth(self, i: int) -> Self {
        match self {
            RenderMeasurement::Measured(measured) => match measured.kind {
                MeasuredLayoutKind::Children(children) => RenderMeasurement::Measured(
                    &children@[i],
                ),
                MeasuredLayoutKind::Hbox { children, .. } => RenderMeasurement::Measured(
                    &children@[i],
                ),
                _ => RenderMeasurement::Complete,
            },
            RenderMeasurement::Complete => RenderMeasurement::Complete,
        }
    }

    /// The measurement below a wrapper node.
    pub fn child(self) -> (child: Self)
        requires
            self matches RenderMeasurement::Measured(measured) ==> measured.kind is Child,
        ensures
            child == self.spec_child(),
    {
        match self {
            RenderMeasurement::Complete => RenderMeasurement::Complete,
            RenderMeasurement::Measured(measured) => match &measured.kind {
                MeasuredLayoutKind::Child(inner) => RenderMeasurement::Measured(&**inner),
                _ => RenderMeasurement::Complete,
            },
        }
    }

    /// The measurement of the `i`-th child of a vbox or hbox.
    pub fn nth(self, i: usize) -> (child: Self)
        requires
            self matches RenderMeasurement::Measured(measured) ==> match measured.kind {
                MeasuredLayoutKind::Children(children) => i < children@.len(),
                MeasuredLayoutKind::Hbox { children, .. } => i < children@.len(),
                _ => false,
            },
        ensures
            child == self.spec_nth(i as int),
    {
        match self {
            RenderMeasurement::Complete => RenderMeasurement::Complete,
            RenderMeasurement::Measured(measured) => match &measured.kind {
                MeasuredLayoutKind::Children(children) => RenderMeasurement::Measured(&children[i]),
                MeasuredLayoutKind::Hbox { children, .. } => RenderMeasurement::Measured(
                    &children[i],
                ),
                _ => RenderMeasurement::Complete,
            },
        }
    }
}

/// `measured` has a place for every node of `layout`.
pub open spec fn same_shape(layout: LayoutIr, measured: MeasuredLayout) -> bool
    decreases layout,
{
    match layout {
        BlockLayout::Empty => true,
        BlockLayout::Leaf(_) => true,
        BlockLayout::Cap { .. } => true,
        BlockLayout::Vbox(items) => {
            &&& measured.kind matches MeasuredLayoutKind::Children(children)
            &&& children@.len() == items@.len()
            &&& forall|i: int|
                0 <= i < items@.len() ==> same_shape(#[trigger] items@[i], children@[i])
        },
        BlockLayout::Hbox(items) => {
            &&& measured.kind matches MeasuredLayoutKind::Hbox { widths, children }
            &&& children@.len() == items@.len()
            &&& widths@.len() == items@.len()
            &&& forall|i: int|
                0 <= i < items@.len() ==> same_shape((#[trigger] items@[i]).layout, children@[i])
        },
        BlockLayout::Gutter { child, .. } => {
            &&& measured.kind matches MeasuredLayoutKind::Child(inner)
            &&& same_shape(*child, *inner)
        },
        BlockLayout::RowPrefix { child, .. } => {
            &&& measured.kind matches MeasuredLayoutKind::Child(inner)
            &&& same_shape(*child, *inner)
        },
        BlockLayout::Panel { child, .. } => {
            &&& measured.kind matches MeasuredLayoutKind::Child(inner)
            &&& same_shape(*child, *inner)
        },
        BlockLayout::Style { child, .. } => {
            &&& measured.kind matches MeasuredLayoutKind::Child(inner)
            &&& same_shape(*child, *inner)
        },
        BlockLayout::Refresh { child, .. } => {
            &&& measured.kind matches MeasuredLayoutKind::Child(inner)
            &&& same_shape(*child, *inner)
        },
    }
}

pub open spec fn fits_measurement(layout: LayoutIr, measurement: RenderMeasurement) -> bool {
    measurement matches RenderMeasurement::Measured(measured) ==> same_shape(layout, *measured)
}

/// Rows of `layout` as the measurement has them.
pub open spec fn rows_by(
    m: Metrics,
    layout: LayoutIr,
    width: u16,
    gutter: u16,
    measurement: RenderMeasurement,
) -> usize {
    match measurement {
        RenderMeasurement::Complete => layout_rows(m, layout, width, gutter),
        RenderMeasurement::Measured(measured) => measured.rows,
    }
}

/// Rows drawn, as far as a row counter of 16 bits can tell.
pub open spec fn counted(rows: int) -> int {
    if rows > u16::MAX {
        u16::MAX as int
    } else {
        rows
    }
}

pub open spec fn plain_gutter<'a>(gutter: Option<&'a GutterSpec>) -> Seq<RowOp<'a>> {
    match gutter {
        Some(gutter) => seq![RowOp::PlainGutter(gutter)],
        None => Seq::empty(),
    }
}

pub open spec fn row_gutter<'a>(gutter: Option<&'a GutterSpec>) -> Seq<RowOp<'a>> {
    match gutter {
        Some(gutter) => seq![RowOp::RowGutter(gutter)],
        None => Seq::empty(),
    }
}

/// The column widths of an hbox as the measurement has them.
pub open spec fn widths_by(
    m: Metrics,
    items: Seq<HboxItem<IrLeaf>>,
    width: u16,
    measurement: RenderMeasurement,
) -> Seq<u16> {
    match measurement {
        RenderMeasurement::Complete => hbox_widths(m, items, width),
        RenderMeasurement::Measured(measured) => match measured.kind {
            MeasuredLayoutKind::Hbox { widths, .. } => widths@,
            _ => Seq::empty(),
        },
    }
}

/// Rows of the tallest column that has cells.
pub open spec fn tallest_shown(m: Metrics, items: Seq<HboxItem<IrLeaf>>, widths: Seq<u16>) -> usize
    decreases items.len(),
{
    if items.len() == 0 {
        0
    } else {
        let k = items.len() - 1;
        let rest = tallest_shown(m, items.drop_last(), widths);
        if widths[k] == 0 {
            rest
        } else {
            spec_max(rest, layout_rows(m, items[k].layout, widths[k], 0))
        }
    }
}

pub open spec fn hbox_height(
    m: Metrics,
    items: Seq<HboxItem<IrLeaf>>,
    widths: Seq<u16>,
    measurement: RenderMeasurement,
) -> usize {
    match measurement {
        RenderMeasurement::Complete => tallest_shown(m, items, widths),
        RenderMeasurement::Measured(measured) => measured.rows,
    }
}

/// The rows `start .. start + count` of prefixed runs of `total` rows.
pub open spec fn prefixed_range<'a>(
    runs: &'a RunsSpec,
    prefix: &'a RowPrefixSpec,
    width: u16,
    start: usize,
    count: usize,
    gutter: Option<&'a GutterSpec>,
    total: usize,
) -> Seq<Seq<RowOp<'a>>> {
    let end = spec_min(start.saturating_add(count), total);
    Seq::new(
        end.saturating_sub(start) as nat,
        |i: int|
            seq![
                RowOp::PrefixedRuns { runs, prefix, width, row: (start + i) as usize, gutter },
            ],
    )
}

/// One output row of capped prefixed runs.
pub open spec fn prefixed_cap_row<'a>(
    runs: &'a RunsSpec,
    prefix: &'a RowPrefixSpec,
    width: u16,
    output_row: usize,
    row: CapRow,
    gutter: Option<&'a GutterSpec>,
) -> Seq<RowOp<'a>> {
    match row {
        CapRow::Child(child_row) => seq![
            RowOp::PrefixedRuns { runs, prefix, width, row: child_row, gutter },
        ],
        CapRow::Marker { skipped, kept, total, direction } => {
            let spans = if output_row == 0 {
                &prefix.first
            } else {
                &prefix.rest
            };
            row_gutter(gutter) + seq![
                RowOp::Prefix {
                    spans,
                    max_cols: width.saturating_sub(after_gutter(width, spans_cells(spans@))),
                    row_cols: width,
                },
                RowOp::ClippedMarker { width, skipped, kept, total, direction },
            ]
        },
    }
}

/// The output rows `start .. start + count` of capped prefixed runs.
pub open spec fn prefixed_cap_range<'a>(
    runs: &'a RunsSpec,
    prefix: &'a RowPrefixSpec,
    width: u16,
    start: usize,
    count: usize,
    gutter: Option<&'a GutterSpec>,
    output: Seq<CapRow>,
) -> Seq<Seq<RowOp<'a>>> {
    let end = if start.saturating_add(count) < output.len() {
        start.saturating_add(count) as int
    } else {
        output.len() as int
    };
    Seq::new(
        if start < end {
            (end - start) as nat
        } else {
            0
        },
        |i: int|
            prefixed_cap_row(
                runs,
                prefix,
                width,
                (start + i) as usize,
                output[start + i],
                gutter,
            ),
    )
}

/// A child row behind its prefix, clipped at the end of the row.
pub open spec fn prefix_row<'a>(
    spec: &'a RowPrefixSpec,
    width: u16,
    child_width: u16,
    source_row: usize,
    gutter: Option<&'a GutterSpec>,
    inner: Seq<RowOp<'a>>,
) -> Seq<RowOp<'a>> {
    let nested = NestedRow {
        width: child_width,
        clip: width,
        to_row_end: true,
        inherit_style: true,
        decoration: RowDecoration::Full,
        pad: false,
        carry_wrapped: true,
    };
    row_gutter(gutter) + seq![
        RowOp::Prefix {
            spans: if source_row == 0 {
                &spec.first
            } else {
                &spec.rest
            },
            max_cols: width.saturating_sub(child_width),
            row_cols: width,
        },
        RowOp::OpenRow(nested),
    ] + inner + seq![RowOp::CloseRow(nested)]
}

/// The nested row of a panel's child.
pub open spec fn panel_nested(width: u16) -> NestedRow {
    NestedRow {
        width,
        clip: width,
        to_row_end: false,
        inherit_style: false,
        decoration: RowDecoration::Partial,
        pad: false,
        carry_wrapped: true,
    }
}

/// Row `row` of a panel whose child has `child_rows` rows, of which `inner` are
/// drawn, from row `inner_start` on.
pub open spec fn panel_output_row<'a>(
    spec: &'a PanelSpec,
    child_width: u16,
    row: int,
    child_rows: usize,
    inner: Seq<Seq<RowOp<'a>>>,
    inner_start: int,
    gutter: Option<&'a GutterSpec>,
) -> Seq<RowOp<'a>> {
    let child_row = row - spec.padding;
    let drawn = child_row - inner_start;
    plain_gutter(gutter) + seq![RowOp::OpenPanel(spec)] + (if 0 <= child_row < child_rows && 0
        <= drawn < inner.len() {
        seq![RowOp::OpenRow(panel_nested(child_width))] + inner[drawn] + seq![
            RowOp::CloseRow(panel_nested(child_width)),
        ]
    } else {
        Seq::empty()
    }) + seq![RowOp::ClosePanel(spec)]
}

/// The rows `start .. start + count` of `layout` at `width`.
pub open spec fn range_rows<'a>(
    m: Metrics,
    layout: &'a LayoutIr,
    width: u16,
    start: usize,
    count: usize,
    gutter: Option<&'a GutterSpec>,
    measurement: RenderMeasurement,
) -> Seq<Seq<RowOp<'a>>>
    decreases *layout, 0nat,
{
    if count == 0 {
        Seq::empty()
    } else {
        match layout {
            BlockLayout::Empty => Seq::empty(),
            BlockLayout::Leaf(leaf) => leaf_range(
                leaf,
                width,
                start,
                count,
                gutter,
                (m.leaf_rows)(*leaf, width, some_gutter_cells(gutter)),
            ),
            BlockLayout::Vbox(items) => stack_range(
                m,
                items@,
                width,
                start,
                count,
                gutter,
                measurement,
                0,
                0,
            ),
            BlockLayout::Hbox(items) => hbox_range(
                m,
                items@,
                width,
                start,
                count,
                gutter,
                measurement,
            ),
            BlockLayout::Gutter { child, spec } => range_rows(
                m,
                child,
                after_gutter(width, gutter_cells(*spec)),
                start,
                count,
                Some(spec),
                measurement.spec_child(),
            ),
            BlockLayout::RowPrefix { child, spec } => row_prefix_range(
                m,
                child,
                spec,
                width,
                start,
                count,
                gutter,
                measurement.spec_child(),
            ),
            BlockLayout::Panel { child, spec } => panel_range(
                m,
                child,
                spec,
                width,
                start,
                count,
                gutter,
                measurement.spec_child(),
            ),
            BlockLayout::Style { child, spec } => wrapped(
                seq![RowOp::SaveStyle, RowOp::ApplyStyle(spec)],
                range_rows(m, child, width, start, count, gutter, measurement.spec_child()),
                seq![RowOp::RestoreStyle],
            ),
            BlockLayout::Refresh { child, .. } => range_rows(
                m,
                child,
                width,
                start,
                count,
                gutter,
                measurement.spec_child(),
            ),
            BlockLayout::Cap { child, spec } => cap_range(
                m,
                child,
                *spec,
                width,
                start,
                count,
                gutter,
            ),
        }
    }
}

/// The rows `start .. start + count` of columns side by side.
pub open spec fn hbox_range<'a>(
    m: Metrics,
    items: Seq<HboxItem<IrLeaf>>,
    width: u16,
    start: usize,
    count: usize,
    gutter: Option<&'a GutterSpec>,
    measurement: RenderMeasurement,
) -> Seq<Seq<RowOp<'a>>>
    decreases items, 1nat,
{
    let widths = widths_by(m, items, width, measurement);
    let height = hbox_height(m, items, widths, measurement);
    let shown = spec_min(start.saturating_add(count), height).saturating_sub(start);
    let columns = range_columns(m, items, widths, start, shown, measurement);
    Seq::new(
        counted(shown as int) as nat,
        |row: int|
            plain_gutter(gutter) + cells(
                widths,
                columns,
                copy_owner_from(items, 0),
                row,
                shown as int,
                false,
                false,
                columns.len() as int,
            ),
    )
}

/// The rows `start .. start + count` of a child with a prefix in front of every row.
pub open spec fn row_prefix_range<'a>(
    m: Metrics,
    child: &'a LayoutIr,
    spec: &'a RowPrefixSpec,
    width: u16,
    start: usize,
    count: usize,
    gutter: Option<&'a GutterSpec>,
    measurement: RenderMeasurement,
) -> Seq<Seq<RowOp<'a>>>
    decreases *child, 1nat,
{
    match special_child(m, *child) {
        SpecialChild::Runs(runs) => prefixed_range(
            &runs,
            spec,
            width,
            start,
            count,
            gutter,
            (m.prefix_rows)(runs, *spec, width),
        ),
        SpecialChild::CappedRuns(runs, cap) => prefixed_cap_range(
            &runs,
            spec,
            width,
            start,
            count,
            gutter,
            capped((m.prefix_rows)(runs, *spec, width) as int, cap, true),
        ),
        SpecialChild::Other => {
            let child_width = after_gutter(width, prefix_cells(*spec));
            let inner = range_rows(m, child, child_width, start, count, None, measurement);
            Seq::new(
                if inner.len() > 0x1_0000 {
                    0x1_0000
                } else {
                    inner.len()
                },
                |i: int|
                    prefix_row(
                        spec,
                        width,
                        child_width,
                        start.saturating_add(i as usize),
                        gutter,
                        inner[i],
                    ),
            )
        },
    }
}

/// The rows `start .. start + count` of a panel.
pub open spec fn panel_range<'a>(
    m: Metrics,
    child: &'a LayoutIr,
    spec: &'a PanelSpec,
    width: u16,
    start: usize,
    count: usize,
    gutter: Option<&'a GutterSpec>,
    measurement: RenderMeasurement,
) -> Seq<Seq<RowOp<'a>>>
    decreases *child, 1nat,
{
    let child_width = inside_panel(width, spec.padding);
    let child_rows = rows_by(m, *child, child_width, 0, measurement);
    let padding = spec.padding as usize;
    let total = child_rows.saturating_add(both_paddings(spec.padding) as usize);
    let end = spec_min(start.saturating_add(count), total);
    let child_start = spec_max(start, padding);
    let child_end = spec_min(end, padding.saturating_add(child_rows));
    let inner = if child_start < child_end {
        range_rows(
            m,
            child,
            child_width,
            (child_start - padding) as usize,
            (child_end - child_start) as usize,
            None,
            measurement,
        )
    } else {
        Seq::empty()
    };
    Seq::new(
        end.saturating_sub(start) as nat,
        |i: int|
            panel_output_row(
                spec,
                child_width,
                start + i,
                child_rows,
                inner,
                child_start - padding,
                gutter,
            ),
    )
}

/// The output rows `start .. start + count` of a cap.
pub open spec fn cap_range<'a>(
    m: Metrics,
    child: &'a LayoutIr,
    spec: CapSpec,
    width: u16,
    start: usize,
    count: usize,
    gutter: Option<&'a GutterSpec>,
) -> Seq<Seq<RowOp<'a>>> {
    match text_leaf(*child) {
        Some(content) => rows_in_range(
            text_cap_body(m, &content, spec, width, gutter),
            start,
            count,
        ),
        None => cap_output(m, child, spec, width, start, count, gutter, 0),
    }
}

/// A prefixed child that is laid out together with its prefix.
pub enum SpecialChild {
    Runs(RunsSpec),
    CappedRuns(RunsSpec, CapSpec),
    Other,
}

pub open spec fn special_child(m: Metrics, child: LayoutIr) -> SpecialChild {
    match child {
        BlockLayout::Leaf(IrLeaf::Runs(runs)) => SpecialChild::Runs(runs),
        BlockLayout::Cap { child: inner, spec } => match *inner {
            BlockLayout::Leaf(IrLeaf::Runs(runs)) => if fits_exact(m, *inner) {
                SpecialChild::CappedRuns(runs, spec)
            } else {
                SpecialChild::Other
            },
            _ => SpecialChild::Other,
        },
        _ => SpecialChild::Other,
    }
}

/// Rows of the children `items`, of which the first is child `index` of a vbox:
/// `skipped` rows are passed over, and `written` rows of `count` are drawn already.
pub open spec fn stack_range<'a>(
    m: Metrics,
    items: Seq<LayoutIr>,
    width: u16,
    skipped: usize,
    count: usize,
    gutter: Option<&'a GutterSpec>,
    measurement: RenderMeasurement,
    index: int,
    written: int,
) -> Seq<Seq<RowOp<'a>>>
    decreases items, 0nat,
{
    if items.len() == 0 || written >= count {
        Seq::empty()
    } else {
        let below = measurement.spec_nth(index);
        let rows = rows_by(m, items[0], width, some_gutter_cells(gutter), below);
        if skipped >= rows {
            stack_range(
                m,
                items.drop_first(),
                width,
                (skipped - rows) as usize,
                count,
                gutter,
                measurement,
                index + 1,
                written,
            )
        } else {
            let wanted = spec_min((count - written) as usize, (rows - skipped) as usize);
            let drawn = range_rows(m, &items[0], width, skipped, wanted, gutter, below);
            drawn + stack_range(
                m,
                items.drop_first(),
                width,
                0,
                count,
                gutter,
                measurement,
                index + 1,
                counted(written + counted(drawn.len() as int)),
            )
        }
    }
}

/// The same range of rows of every column that has cells.
pub open spec fn range_columns<'a>(
    m: Metrics,
    items: Seq<HboxItem<IrLeaf>>,
    widths: Seq<u16>,
    start: usize,
    count: usize,
    measurement: RenderMeasurement,
) -> Seq<Seq<Seq<RowOp<'a>>>>
    decreases items, 0nat,
{
    if items.len() == 0 {
        Seq::empty()
    } else {
        let k = items.len() - 1;
        range_columns(m, items.drop_last(), widths, start, count, measurement).push(
            if widths[k] == 0 {
                Seq::empty()
            } else {
                range_rows(
                    m,
                    &items.last().layout,
                    widths[k],
                    start,
                    count,
                    None,
                    measurement.spec_nth(k),
                )
            },
        )
    }
}

fn push_plain_gutter<'a>(row: &mut Vec<RowOp<'a>>, gutter: Option<&'a GutterSpec>)
    ensures
        final(row)@ == old(row)@ + plain_gutter(gutter),
{
    let ghost before = row@;
    if let Some(gutter) = gutter {
        row.push(RowOp::PlainGutter(gutter));
    }
    proof {
        assert(row@ =~= before + plain_gutter(gutter));
    }
}

fn push_row_gutter<'a>(row: &mut Vec<RowOp<'a>>, gutter: Option<&'a GutterSpec>)
    ensures
        final(row)@ == old(row)@ + row_gutter(gutter),
{
    let ghost before = row@;
    if let Some(gutter) = gutter {
        row.push(RowOp::RowGutter(gutter));
    }
    proof {
        assert(row@ =~= before + row_gutter(gutter));
    }
}

/// The rows `row_start .. row_start + row_count` of prefixed runs of `total` rows.
pub fn render_row_prefix_runs<'a>(
    runs: &'a RunsSpec,
    prefix: &'a RowPrefixSpec,
    width: u16,
    row_start: usize,
    row_count: usize,
    gutter: Option<&'a GutterSpec>,
    total: usize,
) -> (rows: Vec<Vec<RowOp<'a>>>)
    ensures
        rows_view(rows@) == prefixed_range(
            runs,
            prefix,
            width,
            row_start,
            row_count,
            gutter,
            total,
        ),
{
    let end = min_usize(row_start.saturating_add(row_count), total);
    let mut rows: Vec<Vec<RowOp<'a>>> = Vec::new();
    let mut row: usize = row_start;
    while row < end
        invariant
            row_start <= row,
            row <= end || row == row_start,
            rows@.len() == row - row_start,
            forall|j: int|
                0 <= j < rows@.len() ==> (#[trigger] rows@[j])@ == seq![
                    RowOp::PrefixedRuns {
                        runs,
                        prefix,
                        width,
                        row: (row_start + j) as usize,
                        gutter,
                    },
                ],
        decreases end - row,
    {
        rows.push(single_row(RowOp::PrefixedRuns { runs, prefix, width, row, gutter }));
        row += 1;
    }
    proof {
        assert(rows_view(rows@) =~= prefixed_range(
            runs,
            prefix,
            width,
            row_start,
            row_count,
            gutter,
            total,
        ));
    }
    rows
}

/// The output rows `row_start .. row_start + row_count` of capped prefixed runs of
/// `child_rows` rows.
pub fn render_row_prefix_runs_cap<'a>(
    runs: &'a RunsSpec,
    cap: &CapSpec,
    prefix: &'a RowPrefixSpec,
    width: u16,
    row_start: usize,
    row_count: usize,
    gutter: Option<&'a GutterSpec>,
    child_rows: usize,
) -> (rows: Vec<Vec<RowOp<'a>>>)
    ensures
        rows_view(rows@) == prefixed_cap_range(
            runs,
            prefix,
            width,
            row_start,
            row_count,
            gutter,
            capped(child_rows as int, *cap, true),
        ),
{
    let ghost output = capped(child_rows as int, *cap, true);
    let (first_width, rest_width) = row_prefix_child_widths(prefix, width);
    let shown = cap_rows(child_rows, cap);
    let end = min_usize(row_start.saturating_add(row_count), shown.row_count());
    let mut rows: Vec<Vec<RowOp<'a>>> = Vec::new();
    let mut output_row: usize = row_start;
    while output_row < end
        invariant
            row_start <= output_row,
            output_row <= end || output_row == row_start,
            shown.wf(),
            shown@ == output,
            output.len() <= u16::MAX + 1,
            end <= output.len(),
            first_width == after_gutter(width, spans_cells(prefix.first@)),
            rest_width == after_gutter(width, spans_cells(prefix.rest@)),
            rows@.len() == output_row - row_start,
            forall|j: int|
                0 <= j < rows@.len() ==> (#[trigger] rows@[j])@ == prefixed_cap_row(
                    runs,
                    prefix,
                    width,
                    (row_start + j) as usize,
                    output[row_start + j],
                    gutter,
                ),
        decreases end - output_row,
    {
        let mut ops: Vec<RowOp<'a>> = Vec::new();
        match shown.row_at(output_row) {
            Some(CapRow::Child(child_row)) => {
                ops.push(RowOp::PrefixedRuns { runs, prefix, width, row: child_row, gutter });
            },
            Some(CapRow::Marker { skipped, kept, total, direction }) => {
                push_row_gutter(&mut ops, gutter);
                let (spans, child_width) = if output_row == 0 {
                    (&prefix.first, first_width)
                } else {
                    (&prefix.rest, rest_width)
                };
                ops.push(
                    RowOp::Prefix {
                        spans,
                        max_cols: width.saturating_sub(child_width),
                        row_cols: width,
                    },
                );
                ops.push(RowOp::ClippedMarker { width, skipped, kept, total, direction });
            },
            None => {},
        }
        proof {
            assert(ops@ =~= prefixed_cap_row(
                runs,
                prefix,
                width,
                output_row,
                output[output_row as int],
                gutter,
            ));
        }
        rows.push(ops);
        output_row += 1;
    }
    proof {
        assert(rows_view(rows@) =~= prefixed_cap_range(
            runs,
            prefix,
            width,
            row_start,
            row_count,
            gutter,
            output,
        ));
    }
    rows
}

impl<
    A: Fn(&IrLeaf, u16, u16) -> usize,
    B: Fn(&RunsSpec, &RowPrefixSpec, u16) -> usize,
    C: Fn(&RetainedContentSpec, u16, usize) -> ContentTextWindow,
    D: Fn(u64) -> usize,
    E: Fn(&Vec<Constraint>, &Vec<u16>, u16) -> Vec<u16>,
    F: Fn(&IrLeaf, u16, usize, usize) -> bool,
    G: Fn(&LayoutIr, u16, usize, usize) -> bool,
> LayoutHost<A, B, C, D, E, F, G> {
    /// All rows of `layout` at `width`, measured on the spot.
    pub fn render_layout_ir_into<'a>(&self, layout: &'a LayoutIr, width: u16) -> (rows: Vec<
        Vec<RowOp<'a>>,
    >)
        requires
            self.wf(),
        ensures
            rows_view(rows@) == range_rows(
                self.metrics(),
                layout,
                width,
                0,
                usize::MAX,
                None,
                RenderMeasurement::Complete,
            ),
    {
        self.render_layout_ir_range_measured(
            layout,
            width,
            0,
            usize::MAX,
            None,
            RenderMeasurement::Complete,
        )
    }

    /// The rows `row_start .. row_start + row_count` of a measured layout.
    pub fn render_layout_ir_range_into_measured<'a>(
        &self,
        layout: &'a LayoutIr,
        measured: &MeasuredLayout,
        width: u16,
        row_start: usize,
        row_count: usize,
    ) -> (rows: Vec<Vec<RowOp<'a>>>)
        requires
            self.wf(),
            same_shape(*layout, *measured),
        ensures
            rows_view(rows@) == range_rows(
                self.metrics(),
                layout,
                width,
                row_start,
                row_count,
                None,
                RenderMeasurement::Measured(measured),
            ),
    {
        self.render_layout_ir_range_measured(
            layout,
            width,
            row_start,
            row_count,
            None,
            RenderMeasurement::Measured(measured),
        )
    }

    fn rows_of(
        &self,
        layout: &LayoutIr,
        width: u16,
        gutter_cells: u16,
        measurement: RenderMeasurement,
    ) -> (rows: usize)
        requires
            self.wf(),
        ensures
            rows == rows_by(self.metrics(), *layout, width, gutter_cells, measurement),
    {
        match measurement {
            RenderMeasurement::Complete => self.measure_layout_ir_full_with_gutter(
                layout,
                width,
                gutter_cells,
            ),
            RenderMeasurement::Measured(measured) => measured.rows(),
        }
    }

    /// The rows `row_start .. row_start + row_count` of `layout`.
    pub fn render_layout_ir_range_measured<'a>(
        &self,
        layout: &'a LayoutIr,
        width: u16,
        row_start: usize,
        row_count: usize,
        gutter: Option<&'a GutterSpec>,
        measurement: RenderMeasurement,
    ) -> (rows: Vec<Vec<RowOp<'a>>>)
        requires
            self.wf(),
            fits_measurement(*layout, measurement),
        ensures
            rows_view(rows@) == range_rows(
                self.metrics(),
                layout,
                width,
                row_start,
                row_count,
                gutter,
                measurement,
            ),
        decreases layout, 0nat,
    {
        let empty: Vec<Vec<RowOp<'a>>> = Vec::new();
        proof {
            assert(rows_view(empty@) =~= Seq::empty());
        }
        if row_count == 0 {
            return empty;
        }
        match layout {
            BlockLayout::Empty => empty,
            BlockLayout::Leaf(leaf) => {
                let total = self.ask_leaf_rows(leaf, width, gutter_width(gutter));
                leaf_rows_in_range(leaf, width, row_start, row_count, gutter, total)
            },
            BlockLayout::Vbox(items) => self.render_ir_vbox(
                items,
                width,
                row_start,
                row_count,
                gutter,
                measurement,
            ),
            BlockLayout::Hbox(items) => self.render_ir_hbox(
                items,
                width,
                row_start,
                row_count,
                gutter,
                measurement,
            ),
            BlockLayout::Gutter { child, spec } => {
                let spec_width = display_width_u16(spec.text.as_str());
                let child_width = child_width_after_gutter(width, spec_width);
                self.render_layout_ir_range_measured(
                    child,
                    child_width,
                    row_start,
                    row_count,
                    Some(spec),
                    measurement.child(),
                )
            },
            BlockLayout::RowPrefix { child, spec } => self.render_ir_row_prefix(
                child,
                spec,
                width,
                row_start,
                row_count,
                gutter,
                measurement.child(),
            ),
            BlockLayout::Panel { child, spec } => self.render_ir_panel(
                child,
                spec,
                width,
                row_start,
                row_count,
                gutter,
                measurement.child(),
            ),
            BlockLayout::Style { child, spec } => {
                let inner = self.render_layout_ir_range_measured(
                    child,
                    width,
                    row_start,
                    row_count,
                    gutter,
                    measurement.child(),
                );
                let mut before = single_row(RowOp::SaveStyle);
                before.push(RowOp::ApplyStyle(spec));
                let after = single_row(RowOp::RestoreStyle);
                proof {
                    assert(before@ =~= seq![RowOp::SaveStyle, RowOp::ApplyStyle(spec)]);
                }
                wrap_rows(&before, &inner, &after)
            },
            BlockLayout::Refresh { child, .. } => self.render_layout_ir_range_measured(
                child,
                width,
                row_start,
                row_count,
                gutter,
                measurement.child(),
            ),
            BlockLayout::Cap { child, spec } => self.render_ir_cap(
                child,
                spec,
                width,
                row_start,
                row_count,
                gutter,
            ),
        }
    }

    /// The output rows `row_start .. row_start + row_count` of a cap.
    pub fn render_ir_cap<'a>(
        &self,
        child: &'a LayoutIr,
        spec: &CapSpec,
        width: u16,
        row_start: usize,
        row_count: usize,
        gutter: Option<&'a GutterSpec>,
    ) -> (rows: Vec<Vec<RowOp<'a>>>)
        requires
            self.wf(),
        ensures
            rows_view(rows@) == cap_range(
                self.metrics(),
                child,
                *spec,
                width,
                row_start,
                row_count,
                gutter,
            ),
    {
        if let Some(rows) = self.render_retained_text_cap(
            child,
            spec,
            width,
            row_start,
            row_count,
            gutter,
        ) {
            return rows;
        }
        self.render_bounded_layout_cap_inner(child, spec, width, row_start, row_count, gutter, 0)
    }

    /// The rows `row_start .. row_start + row_count` of children one below the other.
    pub fn render_ir_vbox<'a>(
        &self,
        items: &'a Vec<LayoutIr>,
        width: u16,
        row_start: usize,
        row_count: usize,
        gutter: Option<&'a GutterSpec>,
        measurement: RenderMeasurement,
    ) -> (rows: Vec<Vec<RowOp<'a>>>)
        requires
            self.wf(),
            fits_measurement(BlockLayout::Vbox(*items), measurement),
        ensures
            rows_view(rows@) == stack_range(
                self.metrics(),
                items@,
                width,
                row_start,
                row_count,
                gutter,
                measurement,
                0,
                0,
            ),
        decreases items, 1nat,
    {
        let ghost m = self.metrics();
        let ghost all = stack_range(
            m,
            items@,
            width,
            row_start,
            row_count,
            gutter,
            measurement,
            0,
            0,
        );
        let mut rows: Vec<Vec<RowOp<'a>>> = Vec::new();
        let mut written: usize = 0;
        let mut skipped: usize = row_start;
        let mut index: usize = 0;
        proof {
            assert(items@.skip(0) =~= items@);
            assert(rows_view(rows@) + all =~= all);
        }
        while index < items.len()
            invariant
                self.wf(),
                m == self.metrics(),
                fits_measurement(BlockLayout::Vbox(*items), measurement),
                decreases_to!(items => items@),
                index <= items@.len(),
                written <= u16::MAX,
                all == stack_range(
                    m,
                    items@,
                    width,
                    row_start,
                    row_count,
                    gutter,
                    measurement,
                    0,
                    0,
                ),
                rows_view(rows@) + stack_range(
                    m,
                    items@.skip(index as int),
                    width,
                    skipped,
                    row_count,
                    gutter,
                    measurement,
                    index as int,
                    written as int,
                ) == all,
            decreases items.len() - index,
        {
            if written >= row_count {
                proof {
                    assert(rows_view(rows@) + Seq::<Seq<RowOp<'a>>>::empty() =~= rows_view(rows@));
                }
                return rows;
            }
            proof {
                assert(items@.skip(index as int)[0] == items@[index as int]);
                assert(items@.skip(index as int).drop_first() =~= items@.skip(index + 1));
            }
            let below = measurement.nth(index);
            let child_rows = self.rows_of(&items[index], width, gutter_width(gutter), below);
            if skipped >= child_rows {
                skipped = skipped - child_rows;
            } else {
                let child_count = min_usize(row_count - written, child_rows - skipped);
                let ghost before = rows_view(rows@);
                let drawn = self.render_layout_ir_range_measured(
                    &items[index],
                    width,
                    skipped,
                    child_count,
                    gutter,
                    below,
                );
                let ghost added = rows_view(drawn@);
                written = min_usize(
                    written + min_usize(drawn.len(), u16::MAX as usize),
                    u16::MAX as usize,
                );
                skipped = 0;
                append_rows(&mut rows, drawn);
                proof {
                    let rest = stack_range(
                        m,
                        items@.skip(index + 1),
                        width,
                        0,
                        row_count,
                        gutter,
                        measurement,
                        index + 1,
                        written as int,
                    );
                    assert((before + added) + rest =~= before + (added + rest));
                }
            }
            index += 1;
        }
        proof {
            assert(rows_view(rows@) + Seq::<Seq<RowOp<'a>>>::empty() =~= rows_view(rows@));
        }
        rows
    }

    /// The rows `row_start .. row_start + row_count` of columns side by side.
    pub fn render_ir_hbox<'a>(
        &self,
        items: &'a Vec<HboxItem<IrLeaf>>,
        total_width: u16,
        row_start: usize,
        row_count: usize,
        gutter: Option<&'a GutterSpec>,
        measurement: RenderMeasurement,
    ) -> (rows: Vec<Vec<RowOp<'a>>>)
        requires
            self.wf(),
            fits_measurement(BlockLayout::Hbox(*items), measurement),
        ensures
            rows_view(rows@) == hbox_range(
                self.metrics(),
                items@,
                total_width,
                row_start,
                row_count,
                gutter,
                measurement,
            ),
        decreases items, 1nat,
    {
        let ghost m = self.metrics();
        let computed: Vec<u16>;
        let (widths, total_rows) = match measurement {
            RenderMeasurement::Complete => {
                computed = self.solve_ir_hbox_widths(items, total_width);
                let rows = self.tallest_shown_column(items, &computed);
                (&computed, rows)
            },
            RenderMeasurement::Measured(measured) => match &measured.kind {
                MeasuredLayoutKind::Hbox { widths, .. } => (widths, measured.rows()),
                _ => {
                    proof {
                        assert(false);
                    }
                    computed = Vec::new();
                    (&computed, 0)
                },
            },
        };
        let end = min_usize(row_start.saturating_add(row_count), total_rows);
        let shown = end.saturating_sub(row_start);
        let columns = self.render_columns(items, widths, row_start, shown, measurement);
        let owner = copy_owner(items);
        let bounded = min_usize(shown, u16::MAX as usize);
        let mut rows: Vec<Vec<RowOp<'a>>> = Vec::new();
        let mut row: usize = 0;
        while row < bounded
            invariant
                row <= bounded,
                bounded <= shown,
                widths@.len() == columns@.len(),
                rows@.len() == row,
                forall|j: int|
                    0 <= j < row ==> (#[trigger] rows@[j])@ == plain_gutter(gutter) + cells(
                        widths@,
                        columns_view(columns@),
                        owner as int,
                        j,
                        shown as int,
                        false,
                        false,
                        columns@.len() as int,
                    ),
            decreases bounded - row,
        {
            let mut ops: Vec<RowOp<'a>> = Vec::new();
            push_plain_gutter(&mut ops, gutter);
            proof {
                assert(ops@ =~= plain_gutter(gutter));
            }
            compose_cells(&mut ops, widths, &columns, owner, row, shown, false, false);
            rows.push(ops);
            row += 1;
        }
        proof {
            assert(rows_view(rows@) =~= hbox_range(
                m,
                items@,
                total_width,
                row_start,
                row_count,
                gutter,
                measurement,
            ));
        }
        rows
    }

    fn tallest_shown_column(&self, items: &Vec<HboxItem<IrLeaf>>, widths: &Vec<u16>) -> (rows: usize)
        requires
            self.wf(),
            widths@.len() == items@.len(),
        ensures
            rows == tallest_shown(self.metrics(), items@, widths@),
    {
        let mut rows: usize = 0;
        let mut i: usize = 0;
        while i < items.len()
            invariant
                self.wf(),
                i <= items@.len(),
                widths@.len() == items@.len(),
                rows == tallest_shown(self.metrics(), items@.take(i as int), widths@),
            decreases items.len() - i,
        {
            proof {
                assert(items@.take(i + 1).drop_last() =~= items@.take(i as int));
            }
            if widths[i] != 0 {
                rows = max_usize(rows, self.measure_layout_ir_full(&items[i].layout, widths[i]));
            }
            i += 1;
        }
        proof {
            assert(items@.take(i as int) =~= items@);
        }
        rows
    }

    fn render_columns<'a>(
        &self,
        items: &'a Vec<HboxItem<IrLeaf>>,
        widths: &Vec<u16>,
        row_start: usize,
        row_count: usize,
        measurement: RenderMeasurement,
    ) -> (columns: Vec<Vec<Vec<RowOp<'a>>>>)
        requires
            self.wf(),
            widths@.len() == items@.len(),
            fits_measurement(BlockLayout::Hbox(*items), measurement),
        ensures
            columns@.len() == items@.len(),
            columns_view(columns@) == range_columns(
                self.metrics(),
                items@,
                widths@,
                row_start,
                row_count,
                measurement,
            ),
        decreases items, 0nat,
    {
        let ghost m = self.metrics();
        let mut columns: Vec<Vec<Vec<RowOp<'a>>>> = Vec::new();
        let mut i: usize = 0;
        while i < items.len()
            invariant
                self.wf(),
                m == self.metrics(),
                fits_measurement(BlockLayout::Hbox(*items), measurement),
                decreases_to!(items => items@),
                i <= items@.len(),
                widths@.len() == items@.len(),
                columns@.len() == i,
                columns_view(columns@) == range_columns(
                    m,
                    items@.take(i as int),
                    widths@,
                    row_start,
                    row_count,
                    measurement,
                ),
            decreases items.len() - i,
        {
            proof {
                assert(items@.take(i + 1).drop_last() =~= items@.take(i as int));
                assert(decreases_to!(items@ => items@[i as int]));
                assert(decreases_to!(items@[i as int] => items@[i as int].layout));
            }
            let column = if widths[i] == 0 {
                let column: Vec<Vec<RowOp<'a>>> = Vec::new();
                proof {
                    assert(rows_view(column@) =~= Seq::empty());
                }
                column
            } else {
                self.render_layout_ir_range_measured(
                    &items[i].layout,
                    widths[i],
                    row_start,
                    row_count,
                    None,
                    measurement.nth(i),
                )
            };
            let ghost before = columns@;
            columns.push(column);
            proof {
                assert(columns_view(columns@) =~= columns_view(before).push(rows_view(column@)));
            }
            i += 1;
        }
        proof {
            assert(items@.take(i as int) =~= items@);
        }
        columns
    }

    /// The rows `row_start .. row_start + row_count` of a child with a prefix in front
    /// of every row.
    pub fn render_ir_row_prefix<'a>(
        &self,
        child: &'a LayoutIr,
        spec: &'a RowPrefixSpec,
        width: u16,
        row_start: usize,
        row_count: usize,
        gutter: Option<&'a GutterSpec>,
        child_measurement: RenderMeasurement,
    ) -> (rows: Vec<Vec<RowOp<'a>>>)
        requires
            self.wf(),
            fits_measurement(*child, child_measurement),
        ensures
            rows_view(rows@) == row_prefix_range(
                self.metrics(),
                child,
                spec,
                width,
                row_start,
                row_count,
                gutter,
                child_measurement,
            ),
        decreases child, 1nat,
    {
        if let BlockLayout::Leaf(IrLeaf::Runs(runs)) = child {
            let total = self.ask_prefix_rows(runs, spec, width);
            return render_row_prefix_runs(runs, spec, width, row_start, row_count, gutter, total);
        }
        if let BlockLayout::Cap { child: cap_child, spec: cap_spec } = child {
            if let BlockLayout::Leaf(IrLeaf::Runs(runs)) = &**cap_child {
                if self.layout_fits_exact_measure_budget(cap_child) {
                    let child_rows = self.ask_prefix_rows(runs, spec, width);
                    return render_row_prefix_runs_cap(
                        runs,
                        cap_spec,
                        spec,
                        width,
                        row_start,
                        row_count,
                        gutter,
                        child_rows,
                    );
                }
            }
        }
        let child_width = child_width_after_gutter(width, row_prefix_width(spec));
        let inner = self.render_layout_ir_range_measured(
            child,
            child_width,
            row_start,
            row_count,
            None,
            child_measurement,
        );
        let total = min_usize(inner.len(), 0x1_0000);
        let nested = NestedRow {
            width: child_width,
            clip: width,
            to_row_end: true,
            inherit_style: true,
            decoration: RowDecoration::Full,
            pad: false,
            carry_wrapped: true,
        };
        let mut rows: Vec<Vec<RowOp<'a>>> = Vec::new();
        let mut row: usize = 0;
        while row < total
            invariant
                row <= total,
                total <= inner@.len(),
                nested == (NestedRow {
                    width: child_width,
                    clip: width,
                    to_row_end: true,
                    inherit_style: true,
                    decoration: RowDecoration::Full,
                    pad: false,
                    carry_wrapped: true,
                }),
                rows@.len() == row,
                forall|j: int|
                    0 <= j < row ==> (#[trigger] rows@[j])@ == prefix_row(
                        spec,
                        width,
                        child_width,
                        row_start.saturating_add(j as usize),
                        gutter,
                        inner@[j]@,
                    ),
            decreases total - row,
        {
            let source_row = row_start.saturating_add(row);
            let spans = if source_row == 0 {
                &spec.first
            } else {
                &spec.rest
            };
            let mut ops: Vec<RowOp<'a>> = Vec::new();
            push_row_gutter(&mut ops, gutter);
            ops.push(
                RowOp::Prefix {
                    spans,
                    max_cols: width.saturating_sub(child_width),
                    row_cols: width,
                },
            );
            ops.push(RowOp::OpenRow(nested));
            push_all(&mut ops, &inner[row]);
            ops.push(RowOp::CloseRow(nested));
            proof {
                assert(ops@ =~= prefix_row(
                    spec,
                    width,
                    child_width,
                    source_row,
                    gutter,
                    inner@[row as int]@,
                ));
            }
            rows.push(ops);
            row += 1;
        }
        proof {
            assert(rows_view(rows@) =~= row_prefix_range(
                self.metrics(),
                child,
                spec,
                width,
                row_start,
                row_count,
                gutter,
                child_measurement,
            ));
        }
        rows
    }

    /// The rows `row_start .. row_start + row_count` of a panel.
    pub fn render_ir_panel<'a>(
        &self,
        child: &'a LayoutIr,
        spec: &'a PanelSpec,
        width: u16,
        row_start: usize,
        row_count: usize,
        gutter: Option<&'a GutterSpec>,
        child_measurement: RenderMeasurement,
    ) -> (rows: Vec<Vec<RowOp<'a>>>)
        requires
            self.wf(),
            fits_measurement(*child, child_measurement),
        ensures
            rows_view(rows@) == panel_range(
                self.metrics(),
                child,
                spec,
                width,
                row_start,
                row_count,
                gutter,
                child_measurement,
            ),
        decreases child, 1nat,
    {
        let child_width = panel_child_width(width, spec.padding);
        let child_rows = self.rows_of(child, child_width, 0, child_measurement);
        let padding = spec.padding as usize;
        let total = child_rows.saturating_add(spec.padding.saturating_add(spec.padding) as usize);
        let end = min_usize(row_start.saturating_add(row_count), total);
        let child_start = max_usize(row_start, padding);
        let child_end = min_usize(end, padding.saturating_add(child_rows));
        let inner = if child_start < child_end {
            self.render_layout_ir_range_measured(
                child,
                child_width,
                child_start - padding,
                child_end - child_start,
                None,
                child_measurement,
            )
        } else {
            let inner: Vec<Vec<RowOp<'a>>> = Vec::new();
            proof {
                assert(rows_view(inner@) =~= Seq::empty());
            }
            inner
        };
        let nested = NestedRow {
            width: child_width,
            clip: child_width,
            to_row_end: false,
            inherit_style: false,
            decoration: RowDecoration::Partial,
            pad: false,
            carry_wrapped: true,
        };
        let mut rows: Vec<Vec<RowOp<'a>>> = Vec::new();
        let mut row: usize = row_start;
        while row < end
            invariant
                row_start <= row,
                row <= end || row == row_start,
                child_start >= padding,
                padding == spec.padding,
                nested == panel_nested(child_width),
                rows@.len() == row - row_start,
                forall|j: int|
                    0 <= j < rows@.len() ==> (#[trigger] rows@[j])@ == panel_output_row(
                        spec,
                        child_width,
                        row_start + j,
                        child_rows,
                        rows_view(inner@),
                        child_start - padding,
                        gutter,
                    ),
            decreases end - row,
        {
            let mut ops: Vec<RowOp<'a>> = Vec::new();
            push_plain_gutter(&mut ops, gutter);
            ops.push(RowOp::OpenPanel(spec));
            if row >= child_start && row - padding < child_rows && row - child_start < inner.len() {
                ops.push(RowOp::OpenRow(nested));
                push_all(&mut ops, &inner[row - child_start]);
                ops.push(RowOp::CloseRow(nested));
            }
            ops.push(RowOp::ClosePanel(spec));
            proof {
                assert(ops@ =~= panel_output_row(
                    spec,
                    child_width,
                    row as int,
                    child_rows,
                    rows_view(inner@),
                    child_start - padding,
                    gutter,
                ));
            }
            rows.push(ops);
            row += 1;
        }
        proof {
            assert(rows_view(rows@) =~= panel_range(
                self.metrics(),
                child,
                spec,
                width,
                row_start,
                row_count,
                gutter,
                child_measurement,
            ));
        }
        rows
    }
}

} // verus!
