//! A drawn layout names only rows that are there.
use vstd::prelude::*;
use crate::budget::MAX_BOUNDED_EDGE_DEPTH;
use crate::cap_rows::{capped, quoted_total, CapDirection, CapRow};
use crate::edges::{
    cap_body, cap_facts, cap_gutter, cap_output, cells, content_range, copy_owner_from,
    edge_row_columns, edge_rows, head_stack, marker_op, marker_rows, outer_styles, panel_replayed,
    panel_row, panel_split, replayed, rows_in_range, spec_min_int, tail_stack, text_cap_body,
    text_leaf, CapFacts,
};
use crate::host::Metrics;
use crate::ir::{
    BlockLayout, CapKeep, CapMarker, CapSpec, GutterSpec, HboxItem, IrLeaf, LayoutIr, PanelSpec,
    RetainedContentSpec, RowPrefixSpec,
};
use crate::measure::{bounded_cap_rows, edge_window};
use crate::render::{
    cap_range, hbox_height, hbox_range, panel_output_row, panel_range, plain_gutter, prefix_row,
    prefixed_cap_range, prefixed_cap_row, range_columns, range_rows, row_gutter, row_prefix_range,
    rows_by, special_child, stack_range, widths_by, RenderMeasurement, SpecialChild,
};
use crate::rows::{wrapped, RowOp};
use crate::text::{spec_max, spec_min};
use crate::widths::{
    after_gutter, both_paddings, gutter_cells, hbox_widths, inside_panel, prefix_cells,
    some_gutter_cells,
};

verus! {

/// The row that a step names, where it names one, is there: a leaf, or runs behind their
/// prefix, are measured to have it, and an edge is drawn with it.
pub open spec fn names_a_row(m: Metrics, op: RowOp<'_>) -> bool {
    match op {
        RowOp::Leaf { leaf, width, row, gutter } => row < (m.leaf_rows)(
            *leaf,
            width,
            some_gutter_cells(gutter),
        ),
        RowOp::PrefixedRuns { runs, prefix, width, row, .. } => row < (m.prefix_rows)(
            *runs,
            *prefix,
            width,
        ),
        RowOp::ContentEdge { count, row, .. } => row < count,
        _ => true,
    }
}

/// Every row that the steps of a row name is there.
pub open spec fn row_named(m: Metrics, row: Seq<RowOp<'_>>) -> bool {
    forall|j: int| 0 <= j < row.len() ==> names_a_row(m, #[trigger] row[j])
}

/// Every row that the steps of some rows name is there.
pub open spec fn rows_named(m: Metrics, rows: Seq<Seq<RowOp<'_>>>) -> bool {
    forall|i: int| 0 <= i < rows.len() ==> row_named(m, #[trigger] rows[i])
}

broadcast proof fn lemma_row_joined<'a>(m: Metrics, a: Seq<RowOp<'a>>, b: Seq<RowOp<'a>>)
    requires
        row_named(m, a),
        row_named(m, b),
    ensures
        #[trigger] row_named(m, a + b),
{
    assert forall|j: int| 0 <= j < (a + b).len() implies names_a_row(m, #[trigger] (a + b)[j]) by {
        if j < a.len() {
            assert((a + b)[j] == a[j]);
        } else {
            assert((a + b)[j] == b[j - a.len()]);
        }
    }
}

broadcast proof fn lemma_rows_joined<'a>(
    m: Metrics,
    a: Seq<Seq<RowOp<'a>>>,
    b: Seq<Seq<RowOp<'a>>>,
)
    requires
        rows_named(m, a),
        rows_named(m, b),
    ensures
        #[trigger] rows_named(m, a + b),
{
    assert forall|i: int| 0 <= i < (a + b).len() implies row_named(m, #[trigger] (a + b)[i]) by {
        if i < a.len() {
            assert((a + b)[i] == a[i]);
        } else {
            assert((a + b)[i] == b[i - a.len()]);
        }
    }
}

proof fn lemma_wrapped_named<'a>(
    m: Metrics,
    before: Seq<RowOp<'a>>,
    rows: Seq<Seq<RowOp<'a>>>,
    after: Seq<RowOp<'a>>,
)
    requires
        row_named(m, before),
        rows_named(m, rows),
        row_named(m, after),
    ensures
        rows_named(m, wrapped(before, rows, after)),
{
    assert forall|i: int| 0 <= i < rows.len() implies row_named(
        m,
        #[trigger] wrapped(before, rows, after)[i],
    ) by {
        lemma_row_joined(m, before, rows[i]);
        lemma_row_joined(m, before + rows[i], after);
    }
}

proof fn lemma_styles_named<'a>(m: Metrics, layout: &'a LayoutIr)
    ensures
        row_named(m, outer_styles(layout)),
    decreases *layout,
{
    match layout {
        BlockLayout::Style { child, spec } => {
            lemma_styles_named(m, child);
            lemma_row_joined(m, seq![RowOp::ApplyStyle(spec)], outer_styles(child));
        },
        BlockLayout::Refresh { child, .. } => lemma_styles_named(m, child),
        _ => {},
    }
}

proof fn lemma_cells_named<'a>(
    m: Metrics,
    widths: Seq<u16>,
    columns: Seq<Seq<Seq<RowOp<'a>>>>,
    owner: int,
    row: int,
    height: int,
    bottom: bool,
    inherit_style: bool,
    upto: int,
)
    requires
        upto <= columns.len(),
        0 <= row < height,
        forall|k: int| 0 <= k < columns.len() ==> rows_named(m, #[trigger] columns[k]),
    ensures
        row_named(
            m,
            cells(widths, columns, owner, row, height, bottom, inherit_style, upto),
        ),
    decreases upto,
{
    broadcast use lemma_row_joined;

    if upto > 0 {
        let k = upto - 1;
        lemma_cells_named(m, widths, columns, owner, row, height, bottom, inherit_style, k);
        assert(rows_named(m, columns[k]));
    }
}

proof fn lemma_edge_named<'a>(
    m: Metrics,
    layout: &'a LayoutIr,
    width: u16,
    max_rows: usize,
    tail: bool,
    depth: usize,
)
    ensures
        rows_named(m, edge_rows(m, layout, width, max_rows, tail, depth)),
    decreases *layout, 1nat,
{
    broadcast use lemma_row_joined, lemma_rows_joined;

    let rows = edge_rows(m, layout, width, max_rows, tail, depth);
    let window = edge_window(m, *layout, width, max_rows, depth);
    let below = (depth + 1) as usize;
    if depth <= MAX_BOUNDED_EDGE_DEPTH {
        match layout {
            BlockLayout::Vbox(items) => {
                lemma_head_named(m, items@, width, window.row_count, below);
                lemma_tail_named(m, items@, width, window.row_count, below);
            },
            BlockLayout::Hbox(items) => {
                let widths = hbox_widths(m, items@, width);
                let columns = edge_row_columns(m, items@, widths, window.row_count, tail, below);
                lemma_edge_columns_named(m, items@, widths, window.row_count, tail, below);
                assert forall|i: int| 0 <= i < rows.len() implies row_named(
                    m,
                    #[trigger] rows[i],
                ) by {
                    lemma_cells_named(
                        m,
                        widths,
                        columns,
                        copy_owner_from(items@, 0),
                        i,
                        window.row_count as int,
                        tail && window.truncated,
                        true,
                        columns.len() as int,
                    );
                }
            },
            BlockLayout::Gutter { child, spec } => {
                let child_width = after_gutter(width, gutter_cells(*spec));
                lemma_edge_named(m, child, child_width, window.row_count, tail, below);
                lemma_wrapped_named(
                    m,
                    seq![RowOp::RowGutter(spec), RowOp::OpenRow(replayed(child_width))],
                    edge_rows(m, child, child_width, window.row_count, tail, below),
                    seq![RowOp::CloseRow(replayed(child_width))],
                );
            },
            BlockLayout::RowPrefix { child, spec } => {
                let child_width = after_gutter(width, prefix_cells(*spec));
                let inner = edge_rows(m, child, child_width, window.row_count, tail, below);
                lemma_edge_named(m, child, child_width, window.row_count, tail, below);
                assert forall|i: int| 0 <= i < rows.len() implies row_named(
                    m,
                    #[trigger] rows[i],
                ) by {
                    assert(row_named(m, inner[i]));
                }
            },
            BlockLayout::Panel { child, spec } => {
                let child_width = inside_panel(width, spec.padding);
                let near = spec_min(spec.padding as usize, window.row_count);
                let child_window = edge_window(
                    m,
                    **child,
                    child_width,
                    window.row_count.saturating_sub(near),
                    below,
                );
                let (top, limit, bottom) = panel_split(
                    window.row_count,
                    spec.padding as usize,
                    child_window,
                    tail,
                );
                let blank = panel_row(spec, Seq::empty());
                assert(row_named(m, blank));
                if limit > 0 {
                    lemma_edge_named(m, child, child_width, limit, tail, below);
                    lemma_wrapped_named(
                        m,
                        seq![RowOp::OpenPanel(spec), RowOp::OpenRow(panel_replayed(child_width))],
                        edge_rows(m, child, child_width, limit, tail, below),
                        seq![RowOp::CloseRow(panel_replayed(child_width)), RowOp::ClosePanel(spec)],
                    );
                }
            },
            BlockLayout::Style { child, spec } => {
                lemma_edge_named(m, child, width, window.row_count, tail, below);
                lemma_wrapped_named(
                    m,
                    seq![RowOp::SaveStyle, RowOp::ApplyStyle(spec)],
                    edge_rows(m, child, width, window.row_count, tail, below),
                    seq![RowOp::RestoreStyle],
                );
            },
            BlockLayout::Refresh { child, .. } => {
                lemma_edge_named(m, child, width, window.row_count, tail, below);
            },
            BlockLayout::Cap { child, spec } => {
                let all = bounded_cap_rows(m, **child, *spec, width, below);
                lemma_cap_named(m, child, *spec, width, 0, all, None, below);
                let inner = cap_output(m, child, *spec, width, 0, all, None, below);
                let start = if tail {
                    inner.len() - spec_min_int(inner.len() as int, window.row_count as int)
                } else {
                    0
                };
                let end = spec_min_int(inner.len() as int, start + window.row_count);
                lemma_wrapped_named(
                    m,
                    seq![RowOp::OpenRow(replayed(width))],
                    inner.subrange(start, end),
                    seq![RowOp::CloseRow(replayed(width))],
                );
            },
            _ => {},
        }
    }
}

proof fn lemma_head_named<'a>(
    m: Metrics,
    items: Seq<LayoutIr>,
    width: u16,
    remaining: usize,
    depth: usize,
)
    ensures
        rows_named(m, head_stack(m, items, width, remaining, depth)),
    decreases items, 1nat,
{
    broadcast use lemma_rows_joined;

    if items.len() > 0 && remaining > 0 {
        let window = edge_window(m, items[0], width, remaining, depth);
        lemma_edge_named(m, &items[0], width, remaining, false, depth);
        lemma_head_named(
            m,
            items.drop_first(),
            width,
            remaining.saturating_sub(window.row_count),
            depth,
        );
    }
}

proof fn lemma_tail_named<'a>(
    m: Metrics,
    items: Seq<LayoutIr>,
    width: u16,
    remaining: usize,
    depth: usize,
)
    ensures
        rows_named(m, tail_stack(m, items, width, remaining, depth)),
    decreases items, 1nat,
{
    broadcast use lemma_rows_joined;

    if items.len() > 0 && remaining > 0 {
        let window = edge_window(m, items.last(), width, remaining, depth);
        lemma_edge_named(m, &items.last(), width, remaining, true, depth);
        lemma_wrapped_named(
            m,
            seq![RowOp::OpenRow(replayed(width))],
            edge_rows(m, &items.last(), width, remaining, true, depth),
            seq![RowOp::CloseRow(replayed(width))],
        );
        lemma_tail_named(
            m,
            items.drop_last(),
            width,
            remaining.saturating_sub(window.row_count),
            depth,
        );
    }
}

proof fn lemma_edge_columns_named<'a>(
    m: Metrics,
    items: Seq<HboxItem<IrLeaf>>,
    widths: Seq<u16>,
    max_rows: usize,
    tail: bool,
    depth: usize,
)
    ensures
        forall|k: int|
            0 <= k < edge_row_columns(m, items, widths, max_rows, tail, depth).len() ==> rows_named(
                m,
                #[trigger] edge_row_columns(m, items, widths, max_rows, tail, depth)[k],
            ),
    decreases items, 1nat,
{
    if items.len() > 0 {
        let width = widths[items.len() - 1];
        lemma_edge_columns_named(m, items.drop_last(), widths, max_rows, tail, depth);
        if width != 0 {
            lemma_edge_named(m, &items.last().layout, width, max_rows, tail, depth);
        }
        let before = edge_row_columns(m, items.drop_last(), widths, max_rows, tail, depth);
        let columns = edge_row_columns(m, items, widths, max_rows, tail, depth);
        assert forall|k: int| 0 <= k < columns.len() implies rows_named(
            m,
            #[trigger] columns[k],
        ) by {
            if k < before.len() {
                assert(columns[k] == before[k]);
            }
        }
    }
}

proof fn lemma_body_named<'a>(
    m: Metrics,
    child: &'a LayoutIr,
    spec: CapSpec,
    width: u16,
    facts: CapFacts,
    depth: usize,
)
    ensures
        rows_named(m, cap_body(m, child, spec, width, facts, depth)),
    decreases *child, 2nat,
{
    broadcast use lemma_rows_joined;

    let kept = facts.kept;
    match spec.keep {
        CapKeep::Head { .. } => lemma_edge_named(m, child, width, kept, false, depth),
        CapKeep::Tail { .. } => lemma_edge_named(m, child, width, kept, true, depth),
        CapKeep::HeadTail { head, .. } => {
            let head_rows = spec_min(head as usize, kept);
            lemma_edge_named(m, child, width, head_rows, false, depth);
            lemma_edge_named(m, child, width, (kept - head_rows) as usize, true, depth);
            lemma_edge_named(m, child, width, kept, false, depth);
        },
    }
}

proof fn lemma_cap_named<'a>(
    m: Metrics,
    child: &'a LayoutIr,
    spec: CapSpec,
    width: u16,
    start: usize,
    count: usize,
    gutter: Option<&'a GutterSpec>,
    depth: usize,
)
    ensures
        rows_named(m, cap_output(m, child, spec, width, start, count, gutter, depth)),
    decreases *child, 5nat,
{
    broadcast use lemma_row_joined;

    let facts = cap_facts(m, *child, spec, width, depth);
    if !facts.truncated && gutter is None && start == 0 {
        lemma_edge_named(m, child, width, spec_min(count, facts.kept), false, depth);
    } else {
        let body = cap_body(m, child, spec, width, facts, depth);
        lemma_body_named(m, child, spec, width, facts, depth);
        lemma_styles_named(m, child);
        let rows = cap_output(m, child, spec, width, start, count, gutter, depth);
        assert forall|i: int| 0 <= i < rows.len() implies row_named(m, #[trigger] rows[i]) by {
            assert(row_named(m, body[start + i]));
            assert(row_named(m, cap_gutter(gutter, child, true)));
            assert(row_named(m, cap_gutter(gutter, child, false)));
        }
    }
}

proof fn lemma_capped_within(n: int, cap: CapSpec, i: int)
    requires
        0 <= n,
        0 <= i < capped(n, cap, true).len(),
    ensures
        capped(n, cap, true)[i] matches CapRow::Child(row) ==> row < n,
{
}

proof fn lemma_text_body_named<'a>(
    m: Metrics,
    content: &'a RetainedContentSpec,
    spec: CapSpec,
    width: u16,
    gutter: Option<&'a GutterSpec>,
)
    ensures
        rows_named(m, text_cap_body(m, content, spec, width, gutter)),
{
    let probe = (m.edge)(*content, width, (spec.rows + 1) as usize);
    let truncated = probe.truncated || probe.row_count > spec.rows;
    let kept = spec_min(probe.row_count, spec.rows as usize);
    match spec.keep {
        CapKeep::Head { marker } => {
            lemma_content_named(m, content, width, kept, false, gutter);
            lemma_marked_named(
                m,
                marker_rows(
                    truncated && marker == Some(CapMarker::Above),
                    marker_op(spec, kept, CapDirection::Above, None, None, gutter),
                ),
                content_range(content, width, kept, false, gutter),
                marker_rows(
                    truncated && marker == Some(CapMarker::Below),
                    marker_op(spec, kept, CapDirection::Below, None, None, gutter),
                ),
            );
        },
        CapKeep::Tail { marker } => {
            lemma_content_named(m, content, width, kept, true, gutter);
            lemma_marked_named(
                m,
                marker_rows(
                    truncated && marker == Some(CapMarker::Above),
                    marker_op(
                        spec,
                        kept,
                        CapDirection::Above,
                        None,
                        quoted_total(spec, kept as int),
                        gutter,
                    ),
                ),
                content_range(content, width, kept, true, gutter),
                marker_rows(
                    truncated && marker == Some(CapMarker::Below),
                    marker_op(spec, kept, CapDirection::Below, None, None, gutter),
                ),
            );
        },
        CapKeep::HeadTail { head, marker } => {
            let head_rows = spec_min(head as usize, kept);
            let tail_rows = (kept - head_rows) as usize;
            lemma_content_named(m, content, width, kept, false, gutter);
            lemma_content_named(m, content, width, head_rows, false, gutter);
            lemma_content_named(m, content, width, tail_rows, true, gutter);
            lemma_marked_named(
                m,
                content_range(content, width, head_rows, false, gutter),
                marker_rows(
                    marker,
                    marker_op(spec, kept, CapDirection::Omitted, None, None, gutter),
                ),
                content_range(content, width, tail_rows, true, gutter),
            );
        },
    }
}

proof fn lemma_content_named<'a>(
    m: Metrics,
    content: &'a RetainedContentSpec,
    width: u16,
    count: usize,
    tail: bool,
    gutter: Option<&'a GutterSpec>,
)
    ensures
        rows_named(m, content_range(content, width, count, tail, gutter)),
{
}

proof fn lemma_marked_named<'a>(
    m: Metrics,
    a: Seq<Seq<RowOp<'a>>>,
    b: Seq<Seq<RowOp<'a>>>,
    c: Seq<Seq<RowOp<'a>>>,
)
    requires
        rows_named(m, a),
        rows_named(m, b),
        rows_named(m, c),
    ensures
        rows_named(m, a + b + c),
{
    lemma_rows_joined(m, a, b);
    lemma_rows_joined(m, a + b, c);
}

proof fn lemma_cap_range_named<'a>(
    m: Metrics,
    child: &'a LayoutIr,
    spec: CapSpec,
    width: u16,
    start: usize,
    count: usize,
    gutter: Option<&'a GutterSpec>,
)
    ensures
        rows_named(m, cap_range(m, child, spec, width, start, count, gutter)),
{
    match text_leaf(*child) {
        Some(content) => {
            let body = text_cap_body(m, &content, spec, width, gutter);
            lemma_text_body_named(m, &content, spec, width, gutter);
            let rows = rows_in_range(body, start, count);
            assert forall|i: int| 0 <= i < rows.len() implies row_named(m, #[trigger] rows[i]) by {
                assert(rows[i] == body[start + i]);
            }
        },
        None => {
            lemma_cap_named(m, child, spec, width, start, count, gutter, 0);
        },
    }
}

/// Every row that a drawn layout names is there: the leaf that it is of is measured to have it.
pub proof fn drawn_rows_are_there<'a>(
    m: Metrics,
    layout: &'a LayoutIr,
    width: u16,
    start: usize,
    count: usize,
    gutter: Option<&'a GutterSpec>,
    measurement: RenderMeasurement,
)
    ensures
        rows_named(m, range_rows(m, layout, width, start, count, gutter, measurement)),
    decreases *layout, 0nat,
{
    let below = measurement.spec_child();
    if count > 0 {
        match layout {
            BlockLayout::Vbox(items) => {
                lemma_stack_named(m, items@, width, start, count, gutter, measurement, 0, 0);
            },
            BlockLayout::Hbox(items) => {
                lemma_hbox_named(m, items@, width, start, count, gutter, measurement);
            },
            BlockLayout::Gutter { child, spec } => {
                let inside = after_gutter(width, gutter_cells(*spec));
                drawn_rows_are_there(m, child, inside, start, count, Some(spec), below);
            },
            BlockLayout::RowPrefix { child, spec } => {
                lemma_prefix_named(m, child, spec, width, start, count, gutter, below);
            },
            BlockLayout::Panel { child, spec } => {
                lemma_panel_named(m, child, spec, width, start, count, gutter, below);
            },
            BlockLayout::Style { child, spec } => {
                drawn_rows_are_there(m, child, width, start, count, gutter, below);
                lemma_wrapped_named(
                    m,
                    seq![RowOp::SaveStyle, RowOp::ApplyStyle(spec)],
                    range_rows(m, child, width, start, count, gutter, below),
                    seq![RowOp::RestoreStyle],
                );
            },
            BlockLayout::Refresh { child, .. } => {
                drawn_rows_are_there(m, child, width, start, count, gutter, below);
            },
            BlockLayout::Cap { child, spec } => {
                lemma_cap_range_named(m, child, *spec, width, start, count, gutter);
            },
            _ => {},
        }
    }
}

proof fn lemma_prefix_named<'a>(
    m: Metrics,
    child: &'a LayoutIr,
    spec: &'a RowPrefixSpec,
    width: u16,
    start: usize,
    count: usize,
    gutter: Option<&'a GutterSpec>,
    measurement: RenderMeasurement,
)
    ensures
        rows_named(m, row_prefix_range(m, child, spec, width, start, count, gutter, measurement)),
    decreases *child, 1nat,
{
    broadcast use lemma_row_joined;

    let rows = row_prefix_range(m, child, spec, width, start, count, gutter, measurement);
    assert(row_named(m, row_gutter(gutter)));
    match special_child(m, *child) {
        SpecialChild::Runs(_) => {},
        SpecialChild::CappedRuns(runs, cap) => {
            let total = (m.prefix_rows)(runs, *spec, width) as int;
            let output = capped(total, cap, true);
            assert(rows == prefixed_cap_range(&runs, spec, width, start, count, gutter, output));
            assert forall|i: int| 0 <= i < rows.len() implies row_named(m, #[trigger] rows[i]) by {
                lemma_capped_within(total, cap, start + i);
                assert(rows[i] == prefixed_cap_row(
                    &runs,
                    spec,
                    width,
                    (start + i) as usize,
                    output[start + i],
                    gutter,
                ));
            }
        },
        SpecialChild::Other => {
            let inside = after_gutter(width, prefix_cells(*spec));
            let inner = range_rows(m, child, inside, start, count, None, measurement);
            drawn_rows_are_there(m, child, inside, start, count, None, measurement);
            assert forall|i: int| 0 <= i < rows.len() implies row_named(m, #[trigger] rows[i]) by {
                assert(row_named(m, inner[i]));
                assert(rows[i] == prefix_row(
                    spec,
                    width,
                    inside,
                    start.saturating_add(i as usize),
                    gutter,
                    inner[i],
                ));
            }
        },
    }
}

proof fn lemma_panel_named<'a>(
    m: Metrics,
    child: &'a LayoutIr,
    spec: &'a PanelSpec,
    width: u16,
    start: usize,
    count: usize,
    gutter: Option<&'a GutterSpec>,
    measurement: RenderMeasurement,
)
    ensures
        rows_named(m, panel_range(m, child, spec, width, start, count, gutter, measurement)),
    decreases *child, 1nat,
{
    broadcast use lemma_row_joined;

    let rows = panel_range(m, child, spec, width, start, count, gutter, measurement);
    let child_width = inside_panel(width, spec.padding);
    let child_rows = rows_by(m, *child, child_width, 0, measurement);
    let padding = spec.padding as usize;
    let total = child_rows.saturating_add(both_paddings(spec.padding) as usize);
    let end = spec_min(start.saturating_add(count), total);
    let child_start = spec_max(start, padding);
    let child_end = spec_min(end, padding.saturating_add(child_rows));
    let first = (child_start - padding) as usize;
    let inner = if child_start < child_end {
        range_rows(
            m,
            child,
            child_width,
            first,
            (child_end - child_start) as usize,
            None,
            measurement,
        )
    } else {
        Seq::empty()
    };
    if child_start < child_end {
        let wanted = (child_end - child_start) as usize;
        drawn_rows_are_there(m, child, child_width, first, wanted, None, measurement);
    }
    assert(row_named(m, plain_gutter(gutter)));
    assert forall|i: int| 0 <= i < rows.len() implies row_named(m, #[trigger] rows[i]) by {
        assert(rows[i] == panel_output_row(
            spec,
            child_width,
            start + i,
            child_rows,
            inner,
            child_start - padding,
            gutter,
        ));
    }
}

proof fn lemma_hbox_named<'a>(
    m: Metrics,
    items: Seq<HboxItem<IrLeaf>>,
    width: u16,
    start: usize,
    count: usize,
    gutter: Option<&'a GutterSpec>,
    measurement: RenderMeasurement,
)
    ensures
        rows_named(m, hbox_range(m, items, width, start, count, gutter, measurement)),
    decreases items, 1nat,
{
    let rows = hbox_range(m, items, width, start, count, gutter, measurement);
    let widths = widths_by(m, items, width, measurement);
    let height = hbox_height(m, items, widths, measurement);
    let shown = spec_min(start.saturating_add(count), height).saturating_sub(start);
    let columns = range_columns(m, items, widths, start, shown, measurement);
    let owner = copy_owner_from(items, 0);
    let upto = columns.len() as int;
    lemma_columns_named(m, items, widths, start, shown, measurement);
    assert(row_named(m, plain_gutter(gutter)));
    assert forall|i: int| 0 <= i < rows.len() implies row_named(m, #[trigger] rows[i]) by {
        lemma_cells_named(m, widths, columns, owner, i, shown as int, false, false, upto);
        lemma_row_joined(
            m,
            plain_gutter(gutter),
            cells(widths, columns, owner, i, shown as int, false, false, upto),
        );
    }
}

proof fn lemma_stack_named<'a>(
    m: Metrics,
    items: Seq<LayoutIr>,
    width: u16,
    skipped: usize,
    count: usize,
    gutter: Option<&'a GutterSpec>,
    measurement: RenderMeasurement,
    index: int,
    written: int,
)
    ensures
        rows_named(
            m,
            stack_range(
                m,
                items,
                width,
                skipped,
                count,
                gutter,
                measurement,
                index,
                written,
            ),
        ),
    decreases items, 0nat,
{
    broadcast use lemma_rows_joined;

    if items.len() > 0 && written < count {
        let below = measurement.spec_nth(index);
        let rows = rows_by(m, items[0], width, some_gutter_cells(gutter), below);
        if skipped >= rows {
            lemma_stack_named(
                m,
                items.drop_first(),
                width,
                (skipped - rows) as usize,
                count,
                gutter,
                measurement,
                index + 1,
                written,
            );
        } else {
            let wanted = spec_min((count - written) as usize, (rows - skipped) as usize);
            let drawn = range_rows(m, &items[0], width, skipped, wanted, gutter, below);
            drawn_rows_are_there(m, &items[0], width, skipped, wanted, gutter, below);
            lemma_stack_named(
                m,
                items.drop_first(),
                width,
                0,
                count,
                gutter,
                measurement,
                index + 1,
                crate::render::counted(written + crate::render::counted(drawn.len() as int)),
            );
        }
    }
}

proof fn lemma_columns_named<'a>(
    m: Metrics,
    items: Seq<HboxItem<IrLeaf>>,
    widths: Seq<u16>,
    start: usize,
    count: usize,
    measurement: RenderMeasurement,
)
    ensures
        forall|k: int|
            0 <= k < range_columns(m, items, widths, start, count, measurement).len()
                ==> rows_named(
                m,
                #[trigger] range_columns(m, items, widths, start, count, measurement)[k],
            ),
    decreases items, 0nat,
{
    if items.len() > 0 {
        let k = items.len() - 1;
        lemma_columns_named(m, items.drop_last(), widths, start, count, measurement);
        if widths[k] != 0 {
            drawn_rows_are_there(
                m,
                &items.last().layout,
                widths[k],
                start,
                count,
                None,
                measurement.spec_nth(k),
            );
        }
        let before = range_columns(m, items.drop_last(), widths, start, count, measurement);
        let columns = range_columns(m, items, widths, start, count, measurement);
        assert forall|i: int| 0 <= i < columns.len() implies rows_named(
            m,
            #[trigger] columns[i],
        ) by {
            if i < before.len() {
                assert(columns[i] == before[i]);
            }
        }
    }
}

} // verus!
