//! The rows that a cap shows, drawn without laying out the rest of its child.
use vstd::prelude::*;
use crate::budget::{fits_exact, leaf_fits_exact, MAX_BOUNDED_EDGE_DEPTH};
use crate::cap_rows::{quoted_total, CapDirection};
use crate::host::{LayoutHost, Metrics};
use crate::ir::{
    BlockLayout, CapKeep, CapMarker, CapSpec, Constraint, ContentRenderSpec, ContentTextWindow,
    GutterSpec, HboxItem, IrLeaf, LayoutIr, PanelSpec, RetainedContentSpec, RowPrefixSpec, RunsSpec,
};
use crate::measure::{bounded_cap_rows, capped_child, edge_window, keep_has_marker, layout_rows};
use crate::rows::{
    append_rows, note_omitted, omitted_note, push_all, repeated, rows_view, single_row, wrap_row,
    wrap_rows, wrapped, NestedRow, RowDecoration, RowOp,
};
use crate::text::{display_width_u16, min_usize, spec_min};
use crate::widths::{
    after_gutter, child_width_after_gutter, gutter_cells, hbox_widths, inside_panel,
    panel_child_width, prefix_cells, row_prefix_width,
};

verus! {

/// A nested row that keeps the style and decoration of its surroundings.
pub open spec fn replayed(width: u16) -> NestedRow {
    NestedRow {
        width,
        clip: width,
        to_row_end: false,
        inherit_style: true,
        decoration: RowDecoration::Full,
        pad: false,
        carry_wrapped: true,
    }
}

pub fn replay(width: u16) -> (nested: NestedRow)
    ensures
        nested == replayed(width),
{
    NestedRow {
        width,
        clip: width,
        to_row_end: false,
        inherit_style: true,
        decoration: RowDecoration::Full,
        pad: false,
        carry_wrapped: true,
    }
}

/// The rows `start .. start + count` of a leaf of `total` rows.
pub open spec fn leaf_range<'a>(
    leaf: &'a IrLeaf,
    width: u16,
    start: usize,
    count: usize,
    gutter: Option<&'a GutterSpec>,
    total: usize,
) -> Seq<Seq<RowOp<'a>>> {
    let end = spec_min(start.saturating_add(count), total);
    Seq::new(
        end.saturating_sub(start) as nat,
        |i: int| seq![RowOp::Leaf { leaf, width, row: (start + i) as usize, gutter }],
    )
}

pub fn leaf_rows_in_range<'a>(
    leaf: &'a IrLeaf,
    width: u16,
    start: usize,
    count: usize,
    gutter: Option<&'a GutterSpec>,
    total: usize,
) -> (rows: Vec<Vec<RowOp<'a>>>)
    ensures
        rows_view(rows@) == leaf_range(leaf, width, start, count, gutter, total),
{
    let end = min_usize(start.saturating_add(count), total);
    let mut rows: Vec<Vec<RowOp<'a>>> = Vec::new();
    let mut row: usize = start;
    while row < end
        invariant
            row <= end || row == start,
            start <= row,
            end == spec_min(start.saturating_add(count), total),
            rows@.len() == row - start,
            forall|i: int|
                0 <= i < rows@.len() ==> (#[trigger] rows@[i])@ == seq![
                    RowOp::Leaf { leaf, width, row: (start + i) as usize, gutter },
                ],
        decreases end - row,
    {
        rows.push(single_row(RowOp::Leaf { leaf, width, row, gutter }));
        row += 1;
    }
    proof {
        assert(rows_view(rows@) =~= leaf_range(leaf, width, start, count, gutter, total));
    }
    rows
}

/// The first, or last, `count` rows of a content.
pub open spec fn content_range<'a>(
    content: &'a RetainedContentSpec,
    width: u16,
    count: usize,
    tail: bool,
    gutter: Option<&'a GutterSpec>,
) -> Seq<Seq<RowOp<'a>>> {
    Seq::new(
        count as nat,
        |i: int|
            seq![RowOp::ContentEdge { content, width, count, tail, row: i as usize, gutter }],
    )
}

pub fn content_rows<'a>(
    content: &'a RetainedContentSpec,
    width: u16,
    count: usize,
    tail: bool,
    gutter: Option<&'a GutterSpec>,
) -> (rows: Vec<Vec<RowOp<'a>>>)
    ensures
        rows_view(rows@) == content_range(content, width, count, tail, gutter),
{
    let mut rows: Vec<Vec<RowOp<'a>>> = Vec::new();
    let mut row: usize = 0;
    while row < count
        invariant
            row <= count,
            rows@.len() == row,
            forall|i: int|
                0 <= i < rows@.len() ==> (#[trigger] rows@[i])@ == seq![
                    RowOp::ContentEdge { content, width, count, tail, row: i as usize, gutter },
                ],
        decreases count - row,
    {
        rows.push(single_row(RowOp::ContentEdge { content, width, count, tail, row, gutter }));
        row += 1;
    }
    proof {
        assert(rows_view(rows@) =~= content_range(content, width, count, tail, gutter));
    }
    rows
}

/// The first column that owns the copied text, the first one where none does.
pub open spec fn copy_owner_from(items: Seq<HboxItem<IrLeaf>>, i: int) -> int
    decreases items.len() - i,
{
    if i >= items.len() {
        0
    } else if items[i].copy_owner {
        i
    } else {
        copy_owner_from(items, i + 1)
    }
}

pub fn copy_owner(items: &Vec<HboxItem<IrLeaf>>) -> (owner: usize)
    ensures
        owner == copy_owner_from(items@, 0),
{
    let mut i: usize = 0;
    while i < items.len()
        invariant
            i <= items@.len(),
            copy_owner_from(items@, 0) == copy_owner_from(items@, i as int),
        decreases items.len() - i,
    {
        if items[i].copy_owner {
            return i;
        }
        i += 1;
    }
    0
}

/// One column's part of an hbox row: row `shown` of the column, where it has one.
pub open spec fn cell<'a>(
    width: u16,
    column: Seq<Seq<RowOp<'a>>>,
    shown: Option<int>,
    owner: bool,
    inherit_style: bool,
) -> Seq<RowOp<'a>> {
    let nested = NestedRow {
        width,
        clip: width,
        to_row_end: false,
        inherit_style,
        decoration: if owner && shown is Some {
            RowDecoration::Partial
        } else {
            RowDecoration::Nothing
        },
        pad: true,
        carry_wrapped: true,
    };
    seq![RowOp::OpenRow(nested)] + match shown {
        Some(row) => column[row],
        None => Seq::empty(),
    } + seq![RowOp::CloseRow(nested)]
}

/// Which row of a column of `len` rows stands in row `row` of an hbox of `height`.
pub open spec fn shown_row(row: int, len: int, height: int, bottom: bool) -> Option<int> {
    if bottom && len < height {
        if row >= height - len {
            Some(row - (height - len))
        } else {
            None
        }
    } else if row < len {
        Some(row)
    } else {
        None
    }
}

/// The first `upto` columns of an hbox row; columns without cells take no part.
pub open spec fn cells<'a>(
    widths: Seq<u16>,
    columns: Seq<Seq<Seq<RowOp<'a>>>>,
    owner: int,
    row: int,
    height: int,
    bottom: bool,
    inherit_style: bool,
    upto: int,
) -> Seq<RowOp<'a>>
    decreases upto,
{
    if upto <= 0 {
        Seq::empty()
    } else {
        let k = upto - 1;
        let left = cells(widths, columns, owner, row, height, bottom, inherit_style, k);
        if widths[k] == 0 {
            left
        } else {
            left + cell(
                widths[k],
                columns[k],
                shown_row(row, columns[k].len() as int, height, bottom),
                k == owner,
                inherit_style,
            )
        }
    }
}

pub open spec fn columns_view<'a>(columns: Seq<Vec<Vec<RowOp<'a>>>>) -> Seq<
    Seq<Seq<RowOp<'a>>>,
> {
    columns.map_values(|column: Vec<Vec<RowOp<'a>>>| rows_view(column@))
}

/// Composes one hbox row from its columns.
pub fn compose_cells<'a>(
    row_ops: &mut Vec<RowOp<'a>>,
    widths: &Vec<u16>,
    columns: &Vec<Vec<Vec<RowOp<'a>>>>,
    owner: usize,
    row: usize,
    height: usize,
    bottom: bool,
    inherit_style: bool,
)
    requires
        widths@.len() == columns@.len(),
        row < height,
    ensures
        final(row_ops)@ == old(row_ops)@ + cells(
            widths@,
            columns_view(columns@),
            owner as int,
            row as int,
            height as int,
            bottom,
            inherit_style,
            columns@.len() as int,
        ),
{
    let ghost start = row_ops@;
    let ghost view = columns_view(columns@);
    let mut k: usize = 0;
    proof {
        assert(start + Seq::<RowOp<'a>>::empty() =~= start);
    }
    while k < columns.len()
        invariant
            k <= columns@.len(),
            widths@.len() == columns@.len(),
            row < height,
            start == old(row_ops)@,
            view == columns_view(columns@),
            row_ops@ == start + cells(
                widths@,
                view,
                owner as int,
                row as int,
                height as int,
                bottom,
                inherit_style,
                k as int,
            ),
        decreases columns.len() - k,
    {
        let width = widths[k];
        if width != 0 {
            let column = &columns[k];
            let len = column.len();
            let shown = if bottom && len < height {
                if row >= height - len {
                    Some(row - (height - len))
                } else {
                    None
                }
            } else if row < len {
                Some(row)
            } else {
                None
            };
            let nested = NestedRow {
                width,
                clip: width,
                to_row_end: false,
                inherit_style,
                decoration: if k == owner && shown.is_some() {
                    RowDecoration::Partial
                } else {
                    RowDecoration::Nothing
                },
                pad: true,
                carry_wrapped: true,
            };
            let ghost left = row_ops@;
            row_ops.push(RowOp::OpenRow(nested));
            if let Some(shown_row) = shown {
                push_all(row_ops, &column[shown_row]);
            }
            row_ops.push(RowOp::CloseRow(nested));
            proof {
                let spec_shown = shown_row(row as int, len as int, height as int, bottom);
                let c = cell(width, view[k as int], spec_shown, k == owner, inherit_style);
                assert(view[k as int] =~= rows_view(column@));
                assert(row_ops@ =~= left + c);
                assert(start + (cells(
                    widths@,
                    view,
                    owner as int,
                    row as int,
                    height as int,
                    bottom,
                    inherit_style,
                    k as int,
                ) + c) =~= left + c);
            }
        }
        k += 1;
    }
}

/// A cap marker that stands for `known` rows of the child, or for what is known of
/// their total, or for one row more than is shown.
pub open spec fn marker_op<'a>(
    spec: CapSpec,
    kept: usize,
    direction: CapDirection,
    known: Option<usize>,
    total: Option<u64>,
    gutter: Option<&'a GutterSpec>,
) -> RowOp<'a> {
    let estimated: int = match known {
        Some(rows) => rows as int,
        None => match total {
            Some(total) => total as int,
            None => match spec.total_rows {
                Some(total) => total as int,
                None => kept.saturating_add(1) as int,
            },
        },
    };
    RowOp::Marker {
        skipped: if estimated <= kept {
            0
        } else if estimated - kept > usize::MAX {
            usize::MAX
        } else {
            (estimated - kept) as usize
        },
        kept,
        total,
        direction,
        gutter,
    }
}

pub fn cap_marker_op<'a>(
    spec: &CapSpec,
    kept: usize,
    direction: CapDirection,
    known: Option<usize>,
    total: Option<u64>,
    gutter: Option<&'a GutterSpec>,
) -> (op: RowOp<'a>)
    ensures
        op == marker_op(*spec, kept, direction, known, total, gutter),
{
    let estimated: u64 = match known {
        Some(rows) => rows as u64,
        None => match total {
            Some(total) => total,
            None => match spec.total_rows {
                Some(total) => total,
                None => kept.saturating_add(1) as u64,
            },
        },
    };
    let skipped = estimated.saturating_sub(kept as u64);
    RowOp::Marker {
        skipped: if skipped > usize::MAX as u64 {
            usize::MAX
        } else {
            skipped as usize
        },
        kept,
        total,
        direction,
        gutter,
    }
}

/// The styles that wrap a layout from outside.
pub open spec fn outer_styles<'a>(layout: &'a LayoutIr) -> Seq<RowOp<'a>>
    decreases *layout,
{
    match layout {
        BlockLayout::Style { child, spec } => seq![RowOp::ApplyStyle(spec)] + outer_styles(child),
        BlockLayout::Refresh { child, .. } => outer_styles(child),
        _ => Seq::empty(),
    }
}

/// Applies the styles that wrap `layout` from outside.
pub fn apply_outer_layout_styles<'a>(row: &mut Vec<RowOp<'a>>, layout: &'a LayoutIr)
    ensures
        final(row)@ == old(row)@ + outer_styles(layout),
    decreases layout,
{
    match layout {
        BlockLayout::Style { child, spec } => {
            let ghost before = row@;
            row.push(RowOp::ApplyStyle(spec));
            apply_outer_layout_styles(row, child);
            proof {
                assert(row@ =~= before + (seq![RowOp::ApplyStyle(spec)] + outer_styles(child)));
            }
        },
        BlockLayout::Refresh { child, .. } => apply_outer_layout_styles(row, child),
        _ => {
            proof {
                assert(row@ + Seq::<RowOp<'a>>::empty() =~= row@);
            }
        },
    }
}

/// Whether output row `row` of a cap is its marker.
pub open spec fn row_is_marker(
    spec: CapSpec,
    truncated: bool,
    marker_visible: bool,
    kept: usize,
    row: usize,
) -> bool {
    truncated && marker_visible && match spec.keep {
        CapKeep::Head { marker: Some(CapMarker::Above) } => row == 0,
        CapKeep::Tail { marker: Some(CapMarker::Above) } => row == 0,
        CapKeep::Head { marker: Some(CapMarker::Below) } => row == kept,
        CapKeep::Tail { marker: Some(CapMarker::Below) } => row == kept,
        CapKeep::HeadTail { head, marker: true } => row == spec_min(head as usize, kept),
        _ => false,
    }
}

pub fn bounded_cap_row_is_marker(
    spec: &CapSpec,
    truncated: bool,
    marker_visible: bool,
    kept: usize,
    row: usize,
) -> (is_marker: bool)
    ensures
        is_marker == row_is_marker(*spec, truncated, marker_visible, kept, row),
{
    if !truncated || !marker_visible {
        return false;
    }
    match spec.keep {
        CapKeep::Head { marker: Some(CapMarker::Above) } => row == 0,
        CapKeep::Tail { marker: Some(CapMarker::Above) } => row == 0,
        CapKeep::Head { marker: Some(CapMarker::Below) } => row == kept,
        CapKeep::Tail { marker: Some(CapMarker::Below) } => row == kept,
        CapKeep::HeadTail { head, marker: true } => row == min_usize(head as usize, kept),
        _ => false,
    }
}

/// The gutter of a capped row: a styled one takes on the style of the row.
pub open spec fn cap_gutter<'a>(
    gutter: Option<&'a GutterSpec>,
    child: &'a LayoutIr,
    is_marker: bool,
) -> Seq<RowOp<'a>> {
    match gutter {
        None => Seq::empty(),
        Some(gutter) => if !gutter.styled {
            seq![RowOp::RowGutter(gutter)]
        } else {
            seq![RowOp::SaveStyle] + if is_marker {
                seq![RowOp::SetDim]
            } else {
                outer_styles(child)
            } + seq![RowOp::PlainGutter(gutter), RowOp::RestoreStyle]
        },
    }
}

pub fn print_bounded_cap_gutter<'a>(
    row: &mut Vec<RowOp<'a>>,
    gutter: Option<&'a GutterSpec>,
    child: &'a LayoutIr,
    is_marker: bool,
)
    ensures
        final(row)@ == old(row)@ + cap_gutter(gutter, child, is_marker),
{
    let ghost before = row@;
    if let Some(gutter) = gutter {
        if !gutter.styled {
            row.push(RowOp::RowGutter(gutter));
        } else {
            row.push(RowOp::SaveStyle);
            if is_marker {
                row.push(RowOp::SetDim);
            } else {
                apply_outer_layout_styles(row, child);
            }
            row.push(RowOp::PlainGutter(gutter));
            row.push(RowOp::RestoreStyle);
        }
    }
    proof {
        assert(row@ =~= before + cap_gutter(gutter, child, is_marker));
    }
}

/// A panel row around `inner`.
pub open spec fn panel_row<'a>(spec: &'a PanelSpec, inner: Seq<RowOp<'a>>) -> Seq<RowOp<'a>> {
    seq![RowOp::OpenPanel(spec)] + inner + seq![RowOp::ClosePanel(spec)]
}

/// How the rows shown of a panel divide: blank ones at the top, rows of the child,
/// blank ones at the bottom.
pub open spec fn panel_split(
    rows: usize,
    padding: usize,
    child: ContentTextWindow,
    tail: bool,
) -> (usize, usize, usize) {
    let near = spec_min(padding, rows);
    let limit = rows.saturating_sub(near);
    let far = if child.truncated {
        0
    } else {
        spec_min(limit.saturating_sub(child.row_count), padding)
    };
    if tail {
        (far, child.row_count, near)
    } else {
        (near, child.row_count, far)
    }
}

/// The first, or last, rows of `layout`, at most `max_rows`.
pub open spec fn edge_rows<'a>(
    m: Metrics,
    layout: &'a LayoutIr,
    width: u16,
    max_rows: usize,
    tail: bool,
    depth: usize,
) -> Seq<Seq<RowOp<'a>>>
    decreases *layout, 1nat,
{
    let window = edge_window(m, *layout, width, max_rows, depth);
    let below = (depth + 1) as usize;
    if depth > MAX_BOUNDED_EDGE_DEPTH {
        repeated(seq![omitted_note()], spec_min(max_rows, 1) as int)
    } else {
        match layout {
            BlockLayout::Empty => Seq::empty(),
            BlockLayout::Leaf(leaf) => match leaf {
                IrLeaf::Content(content) => content_range(
                    content,
                    width,
                    window.row_count,
                    tail,
                    None,
                ),
                _ => if !leaf_fits_exact(m, *leaf) {
                    repeated(
                        seq![omitted_note()],
                        if window.row_count > 0 {
                            1
                        } else {
                            0
                        },
                    )
                } else {
                    let total = (m.leaf_rows)(*leaf, width, 0);
                    leaf_range(
                        leaf,
                        width,
                        if tail {
                            total.saturating_sub(window.row_count)
                        } else {
                            0
                        },
                        window.row_count,
                        None,
                        total,
                    )
                },
            },
            BlockLayout::Vbox(items) => if !tail || !window.truncated {
                head_stack(m, items@, width, window.row_count, below)
            } else {
                tail_stack(m, items@, width, window.row_count, below)
            },
            BlockLayout::Hbox(items) => {
                let widths = hbox_widths(m, items@, width);
                let columns = edge_row_columns(m, items@, widths, window.row_count, tail, below);
                Seq::new(
                    window.row_count as nat,
                    |row: int|
                        cells(
                            widths,
                            columns,
                            copy_owner_from(items@, 0),
                            row,
                            window.row_count as int,
                            tail && window.truncated,
                            true,
                            columns.len() as int,
                        ),
                )
            },
            BlockLayout::Gutter { child, spec } => {
                let child_width = after_gutter(width, gutter_cells(*spec));
                wrapped(
                    seq![RowOp::RowGutter(spec), RowOp::OpenRow(replayed(child_width))],
                    edge_rows(m, child, child_width, window.row_count, tail, below),
                    seq![RowOp::CloseRow(replayed(child_width))],
                )
            },
            BlockLayout::RowPrefix { child, spec } => {
                let child_width = after_gutter(width, prefix_cells(*spec));
                let inner = edge_rows(m, child, child_width, window.row_count, tail, below);
                Seq::new(
                    inner.len(),
                    |i: int|
                        edge_prefix_row(
                            spec,
                            width,
                            child_width,
                            (!tail || !window.truncated) && i == 0,
                            inner[i],
                        ),
                )
            },
            BlockLayout::Panel { child, spec } => {
                let child_width = inside_panel(width, spec.padding);
                let near = spec_min(spec.padding as usize, window.row_count);
                let child_window = edge_window(
                    m,
                    **child,
                    child_width,
                    window.row_count.saturating_sub(near),
                    below,
                );
                let (top, limit, bottom) = panel_split(
                    window.row_count,
                    spec.padding as usize,
                    child_window,
                    tail,
                );
                repeated(panel_row(spec, Seq::empty()), top as int) + (if limit > 0 {
                    wrapped(
                        seq![RowOp::OpenPanel(spec), RowOp::OpenRow(panel_replayed(child_width))],
                        edge_rows(m, child, child_width, limit, tail, below),
                        seq![RowOp::CloseRow(panel_replayed(child_width)), RowOp::ClosePanel(spec)],
                    )
                } else {
                    Seq::empty()
                }) + repeated(panel_row(spec, Seq::empty()), bottom as int)
            },
            BlockLayout::Style { child, spec } => wrapped(
                seq![RowOp::SaveStyle, RowOp::ApplyStyle(spec)],
                edge_rows(m, child, width, window.row_count, tail, below),
                seq![RowOp::RestoreStyle],
            ),
            BlockLayout::Refresh { child, .. } => edge_rows(
                m,
                child,
                width,
                window.row_count,
                tail,
                below,
            ),
            BlockLayout::Cap { child, spec } => {
                let inner = cap_output(
                    m,
                    child,
                    *spec,
                    width,
                    0,
                    bounded_cap_rows(m, **child, *spec, width, below),
                    None,
                    below,
                );
                let start = if tail {
                    inner.len() - spec_min_int(inner.len() as int, window.row_count as int)
                } else {
                    0
                };
                let end = spec_min_int(inner.len() as int, start + window.row_count);
                wrapped(
                    seq![RowOp::OpenRow(replayed(width))],
                    inner.subrange(start, end),
                    seq![RowOp::CloseRow(replayed(width))],
                )
            },
        }
    }
}

pub open spec fn spec_min_int(a: int, b: int) -> int {
    if a < b {
        a
    } else {
        b
    }
}

/// A nested row of a panel's child.
pub open spec fn panel_replayed(width: u16) -> NestedRow {
    NestedRow { decoration: RowDecoration::Partial, ..replayed(width) }
}

/// A child row behind its prefix.
pub open spec fn edge_prefix_row<'a>(
    spec: &'a RowPrefixSpec,
    width: u16,
    child_width: u16,
    first: bool,
    inner: Seq<RowOp<'a>>,
) -> Seq<RowOp<'a>> {
    seq![
        RowOp::Prefix {
            spans: if first {
                &spec.first
            } else {
                &spec.rest
            },
            max_cols: prefix_cells(*spec),
            row_cols: width,
        },
        RowOp::OpenRow(replayed(child_width)),
    ] + inner + seq![RowOp::CloseRow(replayed(child_width))]
}

/// The first `remaining` rows of children, one below the other.
pub open spec fn head_stack<'a>(
    m: Metrics,
    items: Seq<LayoutIr>,
    width: u16,
    remaining: usize,
    depth: usize,
) -> Seq<Seq<RowOp<'a>>>
    decreases items, 1nat,
{
    if items.len() == 0 || remaining == 0 {
        Seq::empty()
    } else {
        let rows = edge_rows(m, &items[0], width, remaining, false, depth);
        let window = edge_window(m, items[0], width, remaining, depth);
        if window.truncated {
            rows
        } else {
            rows + head_stack(
                m,
                items.drop_first(),
                width,
                remaining.saturating_sub(window.row_count),
                depth,
            )
        }
    }
}

/// The last `remaining` rows of children, one below the other.
pub open spec fn tail_stack<'a>(
    m: Metrics,
    items: Seq<LayoutIr>,
    width: u16,
    remaining: usize,
    depth: usize,
) -> Seq<Seq<RowOp<'a>>>
    decreases items, 1nat,
{
    if items.len() == 0 || remaining == 0 {
        Seq::empty()
    } else {
        let rows = wrapped(
            seq![RowOp::OpenRow(replayed(width))],
            edge_rows(m, &items.last(), width, remaining, true, depth),
            seq![RowOp::CloseRow(replayed(width))],
        );
        let window = edge_window(m, items.last(), width, remaining, depth);
        if window.truncated {
            rows
        } else {
            tail_stack(
                m,
                items.drop_last(),
                width,
                remaining.saturating_sub(window.row_count),
                depth,
            ) + rows
        }
    }
}

/// The first, or last, rows of each column.
pub open spec fn edge_row_columns<'a>(
    m: Metrics,
    items: Seq<HboxItem<IrLeaf>>,
    widths: Seq<u16>,
    max_rows: usize,
    tail: bool,
    depth: usize,
) -> Seq<Seq<Seq<RowOp<'a>>>>
    decreases items, 1nat,
{
    if items.len() == 0 {
        Seq::empty()
    } else {
        let width = widths[items.len() - 1];
        edge_row_columns(m, items.drop_last(), widths, max_rows, tail, depth).push(
            if width == 0 {
                Seq::empty()
            } else {
                edge_rows(m, &items.last().layout, width, max_rows, tail, depth)
            },
        )
    }
}

/// What a cap finds out about its child before it draws it.
pub struct CapFacts {
    /// Rows of the child, where it is small enough to count them.
    pub known: Option<usize>,
    pub truncated: bool,
    pub kept: usize,
    pub marker_visible: bool,
}

pub open spec fn cap_facts(
    m: Metrics,
    child: LayoutIr,
    spec: CapSpec,
    width: u16,
    depth: usize,
) -> CapFacts
    decreases child, 4nat,
{
    let probe = edge_window(m, child, width, (spec.rows + 1) as usize, depth);
    if depth <= MAX_BOUNDED_EDGE_DEPTH && fits_exact(m, child) {
        let rows = layout_rows(m, child, width, 0);
        let kept = spec_min(rows, spec.rows as usize);
        CapFacts {
            known: Some(rows),
            truncated: rows > spec.rows,
            kept,
            marker_visible: capped_child(m, rows, spec, child, width).len() > kept,
        }
    } else {
        let truncated = probe.truncated || probe.row_count > spec.rows;
        CapFacts {
            known: None,
            truncated,
            kept: spec_min(probe.row_count, spec.rows as usize),
            marker_visible: truncated && keep_has_marker(spec.keep),
        }
    }
}

/// A marker row, where it is shown.
pub open spec fn marker_rows<'a>(shown: bool, op: RowOp<'a>) -> Seq<Seq<RowOp<'a>>> {
    if shown {
        seq![seq![op]]
    } else {
        Seq::empty()
    }
}

/// All output rows of a cap, without gutter.
pub open spec fn cap_body<'a>(
    m: Metrics,
    child: &'a LayoutIr,
    spec: CapSpec,
    width: u16,
    facts: CapFacts,
    depth: usize,
) -> Seq<Seq<RowOp<'a>>>
    decreases *child, 2nat,
{
    let kept = facts.kept;
    match spec.keep {
        CapKeep::Head { marker } => marker_rows(
            facts.marker_visible && marker == Some(CapMarker::Above),
            marker_op(spec, kept, CapDirection::Above, facts.known, None, None),
        ) + edge_rows(m, child, width, kept, false, depth) + marker_rows(
            facts.marker_visible && marker == Some(CapMarker::Below),
            marker_op(spec, kept, CapDirection::Below, facts.known, None, None),
        ),
        CapKeep::Tail { marker } => marker_rows(
            facts.marker_visible && marker == Some(CapMarker::Above),
            marker_op(
                spec,
                kept,
                CapDirection::Above,
                facts.known,
                quoted_total(spec, kept as int),
                None,
            ),
        ) + edge_rows(m, child, width, kept, true, depth) + marker_rows(
            facts.marker_visible && marker == Some(CapMarker::Below),
            marker_op(spec, kept, CapDirection::Below, facts.known, None, None),
        ),
        CapKeep::HeadTail { head, marker } => if facts.truncated {
            let head_rows = spec_min(head as usize, kept);
            edge_rows(m, child, width, head_rows, false, depth) + marker_rows(
                facts.marker_visible && marker,
                marker_op(spec, kept, CapDirection::Omitted, facts.known, None, None),
            ) + edge_rows(m, child, width, (kept - head_rows) as usize, true, depth)
        } else {
            edge_rows(m, child, width, kept, false, depth)
        },
    }
}

/// The output rows `start .. start + count` of a cap.
pub open spec fn cap_output<'a>(
    m: Metrics,
    child: &'a LayoutIr,
    spec: CapSpec,
    width: u16,
    start: usize,
    count: usize,
    gutter: Option<&'a GutterSpec>,
    depth: usize,
) -> Seq<Seq<RowOp<'a>>>
    decreases *child, 5nat,
{
    let facts = cap_facts(m, *child, spec, width, depth);
    if !facts.truncated && gutter is None && start == 0 {
        edge_rows(m, child, width, spec_min(count, facts.kept), false, depth)
    } else {
        let body = cap_body(m, child, spec, width, facts, depth);
        let end = spec_min_int(start.saturating_add(count) as int, body.len() as int);
        Seq::new(
            if start < end {
                (end - start) as nat
            } else {
                0
            },
            |i: int|
                cap_gutter(
                    gutter,
                    child,
                    row_is_marker(
                        spec,
                        facts.truncated,
                        facts.marker_visible,
                        facts.kept,
                        (start + i) as usize,
                    ),
                ) + seq![RowOp::OpenRow(replayed(width))] + body[start + i] + seq![
                    RowOp::CloseRow(replayed(width)),
                ],
        )
    }
}

/// All output rows of a cap over a retained text.
pub open spec fn text_cap_body<'a>(
    m: Metrics,
    content: &'a RetainedContentSpec,
    spec: CapSpec,
    width: u16,
    gutter: Option<&'a GutterSpec>,
) -> Seq<Seq<RowOp<'a>>> {
    let probe = (m.edge)(*content, width, (spec.rows + 1) as usize);
    let truncated = probe.truncated || probe.row_count > spec.rows;
    let kept = spec_min(probe.row_count, spec.rows as usize);
    match spec.keep {
        CapKeep::Head { marker } => marker_rows(
            truncated && marker == Some(CapMarker::Above),
            marker_op(spec, kept, CapDirection::Above, None, None, gutter),
        ) + content_range(content, width, kept, false, gutter) + marker_rows(
            truncated && marker == Some(CapMarker::Below),
            marker_op(spec, kept, CapDirection::Below, None, None, gutter),
        ),
        CapKeep::Tail { marker } => marker_rows(
            truncated && marker == Some(CapMarker::Above),
            marker_op(
                spec,
                kept,
                CapDirection::Above,
                None,
                quoted_total(spec, kept as int),
                gutter,
            ),
        ) + content_range(content, width, kept, true, gutter) + marker_rows(
            truncated && marker == Some(CapMarker::Below),
            marker_op(spec, kept, CapDirection::Below, None, None, gutter),
        ),
        CapKeep::HeadTail { head, marker } => if !truncated {
            content_range(content, width, kept, false, gutter)
        } else {
            let head_rows = spec_min(head as usize, kept);
            content_range(content, width, head_rows, false, gutter) + marker_rows(
                marker,
                marker_op(spec, kept, CapDirection::Omitted, None, None, gutter),
            ) + content_range(content, width, (kept - head_rows) as usize, true, gutter)
        },
    }
}

/// The rows `start .. start + count` of `rows`.
pub open spec fn rows_in_range<'a>(
    rows: Seq<Seq<RowOp<'a>>>,
    start: usize,
    count: usize,
) -> Seq<Seq<RowOp<'a>>> {
    let end = spec_min_int(start.saturating_add(count) as int, rows.len() as int);
    if start < end {
        rows.subrange(start as int, end)
    } else {
        Seq::empty()
    }
}

/// Takes the rows `start .. start + count` out of `rows`.
pub fn take_range<'a>(rows: Vec<Vec<RowOp<'a>>>, start: usize, count: usize) -> (out: Vec<
    Vec<RowOp<'a>>,
>)
    ensures
        rows_view(out@) == rows_in_range(rows_view(rows@), start, count),
{
    let end = min_usize(start.saturating_add(count), rows.len());
    let mut out: Vec<Vec<RowOp<'a>>> = Vec::new();
    let nothing: Vec<RowOp<'a>> = Vec::new();
    let mut i: usize = start;
    while i < end
        invariant
            start <= i,
            i <= end || i == start,
            end == spec_min(start.saturating_add(count), rows@.len() as usize),
            end <= rows@.len(),
            nothing@ == Seq::<RowOp<'a>>::empty(),
            out@.len() == i - start,
            forall|j: int| 0 <= j < out@.len() ==> (#[trigger] out@[j])@ == rows@[start + j]@,
        decreases end - i,
    {
        let row = wrap_row(&nothing, &rows[i], &nothing);
        proof {
            assert(row@ =~= rows@[i as int]@);
        }
        out.push(row);
        i += 1;
    }
    proof {
        assert(rows_view(out@) =~= rows_in_range(rows_view(rows@), start, count));
    }
    out
}

/// `count` rows of a panel without content.
pub fn blank_panel_rows<'a>(spec: &'a PanelSpec, count: usize) -> (rows: Vec<Vec<RowOp<'a>>>)
    ensures
        rows_view(rows@) == repeated(panel_row(spec, Seq::empty()), count as int),
{
    let mut rows: Vec<Vec<RowOp<'a>>> = Vec::new();
    let mut i: usize = 0;
    while i < count
        invariant
            i <= count,
            rows@.len() == i,
            forall|j: int|
                0 <= j < i ==> (#[trigger] rows@[j])@ == panel_row(spec, Seq::empty()),
        decreases count - i,
    {
        let mut row = single_row(RowOp::OpenPanel(spec));
        row.push(RowOp::ClosePanel(spec));
        proof {
            assert(row@ =~= panel_row(spec, Seq::empty()));
        }
        rows.push(row);
        i += 1;
    }
    proof {
        assert(rows_view(rows@) =~= repeated(panel_row(spec, Seq::empty()), count as int));
    }
    rows
}

/// Adds a marker row where it is shown.
fn push_marker<'a>(rows: &mut Vec<Vec<RowOp<'a>>>, shown: bool, op: RowOp<'a>)
    ensures
        rows_view(final(rows)@) == rows_view(old(rows)@) + marker_rows(shown, op),
{
    let ghost before = rows@;
    if shown {
        let row = single_row(op);
        rows.push(row);
        proof {
            assert(rows_view(rows@) =~= rows_view(before) + marker_rows(shown, op));
        }
    } else {
        proof {
            assert(rows_view(rows@) =~= rows_view(before) + marker_rows(shown, op));
        }
    }
}

/// Draws the note for an omitted part, where there is a row for it.
fn omitted_rows<'a>(shown: bool) -> (rows: Vec<Vec<RowOp<'a>>>)
    ensures
        rows_view(rows@) == repeated(
            seq![omitted_note()],
            if shown {
                1
            } else {
                0
            },
        ),
{
    let mut rows: Vec<Vec<RowOp<'a>>> = Vec::new();
    if shown {
        rows.push(single_row(note_omitted()));
    }
    proof {
        assert(rows_view(rows@) =~= repeated(
            seq![omitted_note()],
            if shown {
                1
            } else {
                0
            },
        ));
    }
    rows
}

impl<
    A: Fn(&IrLeaf, u16, u16) -> usize,
    B: Fn(&RunsSpec, &RowPrefixSpec, u16) -> usize,
    C: Fn(&RetainedContentSpec, u16, usize) -> ContentTextWindow,
    D: Fn(u64) -> usize,
    E: Fn(&Vec<Constraint>, &Vec<u16>, u16) -> Vec<u16>,
    F: Fn(&IrLeaf, u16, usize, usize) -> bool,
    G: Fn(&LayoutIr, u16, usize, usize) -> bool,
> LayoutHost<A, B, C, D, E, F, G> {
    /// The first, or last, rows of `layout`, at most `max_rows`, and what they are of it.
    pub fn render_bounded_layout_edge_inner<'a>(
        &self,
        layout: &'a LayoutIr,
        width: u16,
        max_rows: usize,
        tail: bool,
        depth: usize,
    ) -> (out: (Vec<Vec<RowOp<'a>>>, ContentTextWindow))
        requires
            self.wf(),
        ensures
            rows_view(out.0@) == edge_rows(self.metrics(), layout, width, max_rows, tail, depth),
            out.1 == edge_window(self.metrics(), *layout, width, max_rows, depth),
        decreases layout, 1nat,
    {
        let ghost m = self.metrics();
        let window = self.measure_bounded_layout_edge_inner(layout, width, max_rows, depth);
        if depth > MAX_BOUNDED_EDGE_DEPTH {
            return (omitted_rows(window.row_count > 0), window);
        }
        let rows = match layout {
            BlockLayout::Empty => {
                let rows: Vec<Vec<RowOp<'a>>> = Vec::new();
                proof {
                    assert(rows_view(rows@) =~= Seq::empty());
                }
                rows
            },
            BlockLayout::Leaf(leaf) => self.render_leaf_edge(leaf, width, window, tail),
            BlockLayout::Vbox(items) => if !tail || !window.truncated {
                self.render_head_stack(items, width, window.row_count, depth + 1)
            } else {
                self.render_tail_stack(items, width, window.row_count, depth + 1)
            },
            BlockLayout::Hbox(items) => {
                let widths = self.solve_ir_hbox_widths(items, width);
                let columns = self.render_edge_columns(
                    items,
                    &widths,
                    window.row_count,
                    tail,
                    depth + 1,
                );
                let owner = copy_owner(items);
                let bottom = tail && window.truncated;
                let mut rows: Vec<Vec<RowOp<'a>>> = Vec::new();
                let mut row: usize = 0;
                while row < window.row_count
                    invariant
                        row <= window.row_count,
                        widths@.len() == columns@.len(),
                        rows@.len() == row,
                        forall|j: int|
                            0 <= j < row ==> (#[trigger] rows@[j])@ == cells(
                                widths@,
                                columns_view(columns@),
                                owner as int,
                                j,
                                window.row_count as int,
                                bottom,
                                true,
                                columns@.len() as int,
                            ),
                    decreases window.row_count - row,
                {
                    let mut ops: Vec<RowOp<'a>> = Vec::new();
                    compose_cells(
                        &mut ops,
                        &widths,
                        &columns,
                        owner,
                        row,
                        window.row_count,
                        bottom,
                        true,
                    );
                    proof {
                        assert(ops@ =~= cells(
                            widths@,
                            columns_view(columns@),
                            owner as int,
                            row as int,
                            window.row_count as int,
                            bottom,
                            true,
                            columns@.len() as int,
                        ));
                    }
                    rows.push(ops);
                    row += 1;
                }
                proof {
                    assert(rows_view(rows@) =~= edge_rows(m, layout, width, max_rows, tail, depth));
                }
                rows
            },
            BlockLayout::Gutter { child, spec } => {
                let gutter_width = display_width_u16(spec.text.as_str());
                let child_width = child_width_after_gutter(width, gutter_width);
                let (inner, _) = self.render_bounded_layout_edge_inner(
                    child,
                    child_width,
                    window.row_count,
                    tail,
                    depth + 1,
                );
                let mut before = single_row(RowOp::RowGutter(spec));
                before.push(RowOp::OpenRow(replay(child_width)));
                let after = single_row(RowOp::CloseRow(replay(child_width)));
                proof {
                    assert(before@ =~= seq![
                        RowOp::RowGutter(spec),
                        RowOp::OpenRow(replayed(child_width)),
                    ]);
                }
                wrap_rows(&before, &inner, &after)
            },
            BlockLayout::RowPrefix { child, spec } => {
                let prefix_width = row_prefix_width(spec);
                let child_width = child_width_after_gutter(width, prefix_width);
                let (inner, _) = self.render_bounded_layout_edge_inner(
                    child,
                    child_width,
                    window.row_count,
                    tail,
                    depth + 1,
                );
                let starts_at_head = !tail || !window.truncated;
                let after = single_row(RowOp::CloseRow(replay(child_width)));
                let mut rows: Vec<Vec<RowOp<'a>>> = Vec::new();
                let mut i: usize = 0;
                while i < inner.len()
                    invariant
                        i <= inner@.len(),
                        prefix_width == prefix_cells(*spec),
                        after@ == seq![RowOp::CloseRow(replayed(child_width))],
                        rows@.len() == i,
                        forall|j: int|
                            0 <= j < i ==> (#[trigger] rows@[j])@ == edge_prefix_row(
                                spec,
                                width,
                                child_width,
                                starts_at_head && j == 0,
                                inner@[j]@,
                            ),
                    decreases inner.len() - i,
                {
                    let first = starts_at_head && i == 0;
                    let spans = if first {
                        &spec.first
                    } else {
                        &spec.rest
                    };
                    let mut before = single_row(
                        RowOp::Prefix { spans, max_cols: prefix_width, row_cols: width },
                    );
                    before.push(RowOp::OpenRow(replay(child_width)));
                    let row = wrap_row(&before, &inner[i], &after);
                    proof {
                        assert(row@ =~= edge_prefix_row(
                            spec,
                            width,
                            child_width,
                            first,
                            inner@[i as int]@,
                        ));
                    }
                    rows.push(row);
                    i += 1;
                }
                proof {
                    assert(rows_view(rows@) =~= edge_rows(m, layout, width, max_rows, tail, depth));
                }
                rows
            },
            BlockLayout::Panel { child, spec } => {
                let child_width = panel_child_width(width, spec.padding);
                let near = min_usize(spec.padding as usize, window.row_count);
                let child_limit = window.row_count.saturating_sub(near);
                let child_window = self.measure_bounded_layout_edge_inner(
                    child,
                    child_width,
                    child_limit,
                    depth + 1,
                );
                let far = if child_window.truncated {
                    0
                } else {
                    min_usize(
                        child_limit.saturating_sub(child_window.row_count),
                        spec.padding as usize,
                    )
                };
                let (top, bottom) = if tail {
                    (far, near)
                } else {
                    (near, far)
                };
                let limit = child_window.row_count;
                let mut rows = blank_panel_rows(spec, top);
                if limit > 0 {
                    let (inner, _) = self.render_bounded_layout_edge_inner(
                        child,
                        child_width,
                        limit,
                        tail,
                        depth + 1,
                    );
                    let nested = NestedRow {
                        width: child_width,
                        clip: child_width,
                        to_row_end: false,
                        inherit_style: true,
                        decoration: RowDecoration::Partial,
                        pad: false,
                        carry_wrapped: true,
                    };
                    let mut before = single_row(RowOp::OpenPanel(spec));
                    before.push(RowOp::OpenRow(nested));
                    let mut after = single_row(RowOp::CloseRow(nested));
                    after.push(RowOp::ClosePanel(spec));
                    proof {
                        assert(nested == panel_replayed(child_width));
                        assert(before@ =~= seq![RowOp::OpenPanel(spec), RowOp::OpenRow(nested)]);
                        assert(after@ =~= seq![RowOp::CloseRow(nested), RowOp::ClosePanel(spec)]);
                    }
                    append_rows(&mut rows, wrap_rows(&before, &inner, &after));
                }
                append_rows(&mut rows, blank_panel_rows(spec, bottom));
                proof {
                    assert(rows_view(rows@) =~= edge_rows(m, layout, width, max_rows, tail, depth));
                }
                rows
            },
            BlockLayout::Style { child, spec } => {
                let (inner, _) = self.render_bounded_layout_edge_inner(
                    child,
                    width,
                    window.row_count,
                    tail,
                    depth + 1,
                );
                let mut before = single_row(RowOp::SaveStyle);
                before.push(RowOp::ApplyStyle(spec));
                let after = single_row(RowOp::RestoreStyle);
                proof {
                    assert(before@ =~= seq![RowOp::SaveStyle, RowOp::ApplyStyle(spec)]);
                }
                wrap_rows(&before, &inner, &after)
            },
            BlockLayout::Refresh { child, .. } => {
                let (inner, _) = self.render_bounded_layout_edge_inner(
                    child,
                    width,
                    window.row_count,
                    tail,
                    depth + 1,
                );
                inner
            },
            BlockLayout::Cap { child, spec } => {
                let rows = self.measure_bounded_cap_rows_inner(child, spec, width, depth + 1);
                let inner = self.render_bounded_layout_cap_inner(
                    child,
                    spec,
                    width,
                    0,
                    rows,
                    None,
                    depth + 1,
                );
                let start = if tail {
                    inner.len().saturating_sub(window.row_count)
                } else {
                    0
                };
                let shown = take_range(inner, start, window.row_count);
                let before = single_row(RowOp::OpenRow(replay(width)));
                let after = single_row(RowOp::CloseRow(replay(width)));
                let rows = wrap_rows(&before, &shown, &after);
                proof {
                    assert(rows_view(rows@) =~= edge_rows(m, layout, width, max_rows, tail, depth));
                }
                rows
            },
        };
        (rows, window)
    }

    fn render_leaf_edge<'a>(
        &self,
        leaf: &'a IrLeaf,
        width: u16,
        window: ContentTextWindow,
        tail: bool,
    ) -> (rows: Vec<Vec<RowOp<'a>>>)
        requires
            self.wf(),
        ensures
            rows_view(rows@) == (match *leaf {
                IrLeaf::Content(content) => content_range(
                    &content,
                    width,
                    window.row_count,
                    tail,
                    None,
                ),
                _ => if !leaf_fits_exact(self.metrics(), *leaf) {
                    repeated(
                        seq![omitted_note()],
                        if window.row_count > 0 {
                            1
                        } else {
                            0
                        },
                    )
                } else {
                    let total = (self.metrics().leaf_rows)(*leaf, width, 0);
                    leaf_range(
                        leaf,
                        width,
                        if tail {
                            total.saturating_sub(window.row_count)
                        } else {
                            0
                        },
                        window.row_count,
                        None,
                        total,
                    )
                },
            }),
    {
        if let IrLeaf::Content(content) = leaf {
            return content_rows(content, width, window.row_count, tail, None);
        }
        if !self.leaf_fits_exact_measure_budget(leaf) {
            return omitted_rows(window.row_count > 0);
        }
        let total = self.ask_leaf_rows(leaf, width, 0);
        let row_start = if tail {
            total.saturating_sub(window.row_count)
        } else {
            0
        };
        leaf_rows_in_range(leaf, width, row_start, window.row_count, None, total)
    }

    fn render_head_stack<'a>(
        &self,
        items: &'a Vec<LayoutIr>,
        width: u16,
        row_count: usize,
        depth: usize,
    ) -> (rows: Vec<Vec<RowOp<'a>>>)
        requires
            self.wf(),
        ensures
            rows_view(rows@) == head_stack(self.metrics(), items@, width, row_count, depth),
        decreases items, 2nat,
    {
        let ghost m = self.metrics();
        let mut rows: Vec<Vec<RowOp<'a>>> = Vec::new();
        let mut remaining: usize = row_count;
        let mut i: usize = 0;
        proof {
            assert(items@.skip(0) =~= items@);
            assert(rows_view(rows@) + head_stack(m, items@, width, row_count, depth) =~= head_stack(
                m,
                items@,
                width,
                row_count,
                depth,
            ));
        }
        while i < items.len()
            invariant
                self.wf(),
                m == self.metrics(),
                decreases_to!(items => items@),
                i <= items@.len(),
                rows_view(rows@) + head_stack(m, items@.skip(i as int), width, remaining, depth)
                    == head_stack(m, items@, width, row_count, depth),
            decreases items.len() - i,
        {
            if remaining == 0 {
                proof {
                    assert(rows_view(rows@) + Seq::<Seq<RowOp<'a>>>::empty() =~= rows_view(rows@));
                }
                return rows;
            }
            proof {
                assert(items@.skip(i as int)[0] == items@[i as int]);
                assert(items@.skip(i as int).drop_first() =~= items@.skip(i + 1));
            }
            let ghost before = rows_view(rows@);
            let (inner, window) = self.render_bounded_layout_edge_inner(
                &items[i],
                width,
                remaining,
                false,
                depth,
            );
            let ghost added = rows_view(inner@);
            append_rows(&mut rows, inner);
            if window.truncated {
                return rows;
            }
            remaining = remaining.saturating_sub(window.row_count);
            proof {
                let rest = head_stack(m, items@.skip(i + 1), width, remaining, depth);
                assert((before + added) + rest =~= before + (added + rest));
            }
            i += 1;
        }
        proof {
            assert(rows_view(rows@) + Seq::<Seq<RowOp<'a>>>::empty() =~= rows_view(rows@));
        }
        rows
    }

    fn render_tail_stack<'a>(
        &self,
        items: &'a Vec<LayoutIr>,
        width: u16,
        row_count: usize,
        depth: usize,
    ) -> (rows: Vec<Vec<RowOp<'a>>>)
        requires
            self.wf(),
        ensures
            rows_view(rows@) == tail_stack(self.metrics(), items@, width, row_count, depth),
        decreases items, 2nat,
    {
        let ghost m = self.metrics();
        let mut rows: Vec<Vec<RowOp<'a>>> = Vec::new();
        let mut remaining: usize = row_count;
        let mut i: usize = items.len();
        let before = single_row(RowOp::OpenRow(replay(width)));
        let after = single_row(RowOp::CloseRow(replay(width)));
        proof {
            assert(items@.take(i as int) =~= items@);
            assert(tail_stack(m, items@, width, row_count, depth) + rows_view(rows@) =~= tail_stack(
                m,
                items@,
                width,
                row_count,
                depth,
            ));
        }
        while i > 0
            invariant
                self.wf(),
                m == self.metrics(),
                decreases_to!(items => items@),
                i <= items@.len(),
                before@ == seq![RowOp::OpenRow(replayed(width))],
                after@ == seq![RowOp::CloseRow(replayed(width))],
                tail_stack(m, items@.take(i as int), width, remaining, depth) + rows_view(rows@)
                    == tail_stack(m, items@, width, row_count, depth),
            decreases i,
        {
            if remaining == 0 {
                proof {
                    assert(Seq::<Seq<RowOp<'a>>>::empty() + rows_view(rows@) =~= rows_view(rows@));
                }
                return rows;
            }
            i -= 1;
            proof {
                assert(items@.take(i + 1).last() == items@[i as int]);
                assert(items@.take(i + 1).drop_last() =~= items@.take(i as int));
            }
            let ghost later = rows_view(rows@);
            let (inner, window) = self.render_bounded_layout_edge_inner(
                &items[i],
                width,
                remaining,
                true,
                depth,
            );
            let mut above = wrap_rows(&before, &inner, &after);
            let ghost added = rows_view(above@);
            append_rows(&mut above, rows);
            rows = above;
            if window.truncated {
                return rows;
            }
            remaining = remaining.saturating_sub(window.row_count);
            proof {
                let rest = tail_stack(m, items@.take(i as int), width, remaining, depth);
                assert(rest + (added + later) =~= (rest + added) + later);
            }
        }
        proof {
            assert(Seq::<Seq<RowOp<'a>>>::empty() + rows_view(rows@) =~= rows_view(rows@));
        }
        rows
    }

    fn render_edge_columns<'a>(
        &self,
        items: &'a Vec<HboxItem<IrLeaf>>,
        widths: &Vec<u16>,
        max_rows: usize,
        tail: bool,
        depth: usize,
    ) -> (columns: Vec<Vec<Vec<RowOp<'a>>>>)
        requires
            self.wf(),
            widths@.len() == items@.len(),
        ensures
            columns@.len() == items@.len(),
            columns_view(columns@) == edge_row_columns(
                self.metrics(),
                items@,
                widths@,
                max_rows,
                tail,
                depth,
            ),
        decreases items, 2nat,
    {
        let ghost m = self.metrics();
        let mut columns: Vec<Vec<Vec<RowOp<'a>>>> = Vec::new();
        let mut i: usize = 0;
        while i < items.len()
            invariant
                self.wf(),
                m == self.metrics(),
                decreases_to!(items => items@),
                i <= items@.len(),
                widths@.len() == items@.len(),
                columns@.len() == i,
                columns_view(columns@) == edge_row_columns(
                    m,
                    items@.take(i as int),
                    widths@,
                    max_rows,
                    tail,
                    depth,
                ),
            decreases items.len() - i,
        {
            proof {
                assert(items@.take(i + 1).drop_last() =~= items@.take(i as int));
                assert(decreases_to!(items@ => items@[i as int]));
                assert(decreases_to!(items@[i as int] => items@[i as int].layout));
            }
            let column = if widths[i] == 0 {
                let column: Vec<Vec<RowOp<'a>>> = Vec::new();
                proof {
                    assert(rows_view(column@) =~= Seq::empty());
                }
                column
            } else {
                let (column, _) = self.render_bounded_layout_edge_inner(
                    &items[i].layout,
                    widths[i],
                    max_rows,
                    tail,
                    depth,
                );
                column
            };
            let ghost before = columns@;
            columns.push(column);
            proof {
                assert(columns_view(columns@) =~= columns_view(before).push(rows_view(column@)));
            }
            i += 1;
        }
        proof {
            assert(items@.take(i as int) =~= items@);
        }
        columns
    }

    /// What a cap finds out about its child before it draws it.
    fn find_cap_facts(&self, child: &LayoutIr, spec: &CapSpec, width: u16, depth: usize) -> (facts: (
        Option<usize>,
        bool,
        usize,
        bool,
    ))
        requires
            self.wf(),
        ensures
            cap_facts(self.metrics(), *child, *spec, width, depth) == (CapFacts {
                known: facts.0,
                truncated: facts.1,
                kept: facts.2,
                marker_visible: facts.3,
            }),
    {
        let cap = spec.rows as usize;
        let known = if depth <= MAX_BOUNDED_EDGE_DEPTH {
            self.bounded_exact_layout_rows(child, width)
        } else {
            None
        };
        if let Some(rows) = known {
            let kept = min_usize(rows, cap);
            let shown = self.cap_rows_for_child(rows, spec, child, width).row_count();
            (known, rows > cap, kept, shown > kept)
        } else {
            let probe = self.measure_bounded_layout_edge_inner(
                child,
                width,
                cap.saturating_add(1),
                depth,
            );
            let truncated = probe.truncated || probe.row_count > cap;
            let marker_visible = truncated && match spec.keep {
                CapKeep::Head { marker } => marker.is_some(),
                CapKeep::Tail { marker } => marker.is_some(),
                CapKeep::HeadTail { marker, .. } => marker,
            };
            (None, truncated, min_usize(probe.row_count, cap), marker_visible)
        }
    }

    /// All output rows of a cap, without gutter.
    fn render_cap_body<'a>(
        &self,
        child: &'a LayoutIr,
        spec: &CapSpec,
        width: u16,
        known: Option<usize>,
        truncated: bool,
        kept: usize,
        marker_visible: bool,
        depth: usize,
    ) -> (rows: Vec<Vec<RowOp<'a>>>)
        requires
            self.wf(),
        ensures
            rows_view(rows@) == cap_body(
                self.metrics(),
                child,
                *spec,
                width,
                (CapFacts { known, truncated, kept, marker_visible }),
                depth,
            ),
        decreases child, 2nat,
    {
        let mut rows: Vec<Vec<RowOp<'a>>> = Vec::new();
        proof {
            assert(rows_view(rows@) =~= Seq::empty());
        }
        match spec.keep {
            CapKeep::Head { marker } => {
                push_marker(
                    &mut rows,
                    marker_visible && marker == Some(CapMarker::Above),
                    cap_marker_op(spec, kept, CapDirection::Above, known, None, None),
                );
                let (inner, _) = self.render_bounded_layout_edge_inner(
                    child,
                    width,
                    kept,
                    false,
                    depth,
                );
                append_rows(&mut rows, inner);
                push_marker(
                    &mut rows,
                    marker_visible && marker == Some(CapMarker::Below),
                    cap_marker_op(spec, kept, CapDirection::Below, known, None, None),
                );
            },
            CapKeep::Tail { marker } => {
                let total = match spec.total_rows {
                    Some(total) if total > kept as u64 => Some(total),
                    _ => None,
                };
                push_marker(
                    &mut rows,
                    marker_visible && marker == Some(CapMarker::Above),
                    cap_marker_op(spec, kept, CapDirection::Above, known, total, None),
                );
                let (inner, _) = self.render_bounded_layout_edge_inner(
                    child,
                    width,
                    kept,
                    true,
                    depth,
                );
                append_rows(&mut rows, inner);
                push_marker(
                    &mut rows,
                    marker_visible && marker == Some(CapMarker::Below),
                    cap_marker_op(spec, kept, CapDirection::Below, known, None, None),
                );
            },
            CapKeep::HeadTail { head, marker } => {
                if truncated {
                    let head_rows = min_usize(head as usize, kept);
                    let (inner, _) = self.render_bounded_layout_edge_inner(
                        child,
                        width,
                        head_rows,
                        false,
                        depth,
                    );
                    append_rows(&mut rows, inner);
                    push_marker(
                        &mut rows,
                        marker_visible && marker,
                        cap_marker_op(spec, kept, CapDirection::Omitted, known, None, None),
                    );
                    let (inner, _) = self.render_bounded_layout_edge_inner(
                        child,
                        width,
                        kept - head_rows,
                        true,
                        depth,
                    );
                    append_rows(&mut rows, inner);
                } else {
                    let (inner, _) = self.render_bounded_layout_edge_inner(
                        child,
                        width,
                        kept,
                        false,
                        depth,
                    );
                    append_rows(&mut rows, inner);
                }
            },
        }
        proof {
            assert(rows_view(rows@) =~= cap_body(
                self.metrics(),
                child,
                *spec,
                width,
                (CapFacts { known, truncated, kept, marker_visible }),
                depth,
            ));
        }
        rows
    }

    /// The output rows `row_start .. row_start + row_count` of a cap.
    pub fn render_bounded_layout_cap_inner<'a>(
        &self,
        child: &'a LayoutIr,
        spec: &CapSpec,
        width: u16,
        row_start: usize,
        row_count: usize,
        gutter: Option<&'a GutterSpec>,
        depth: usize,
    ) -> (rows: Vec<Vec<RowOp<'a>>>)
        requires
            self.wf(),
        ensures
            rows_view(rows@) == cap_output(
                self.metrics(),
                child,
                *spec,
                width,
                row_start,
                row_count,
                gutter,
                depth,
            ),
        decreases child, 5nat,
    {
        let ghost m = self.metrics();
        let (known, truncated, kept, marker_visible) = self.find_cap_facts(
            child,
            spec,
            width,
            depth,
        );
        if !truncated && gutter.is_none() && row_start == 0 {
            let requested = min_usize(row_count, kept);
            let (inner, _) = self.render_bounded_layout_edge_inner(
                child,
                width,
                requested,
                false,
                depth,
            );
            return inner;
        }
        let body = self.render_cap_body(
            child,
            spec,
            width,
            known,
            truncated,
            kept,
            marker_visible,
            depth,
        );
        let end = min_usize(row_start.saturating_add(row_count), body.len());
        let mut rows: Vec<Vec<RowOp<'a>>> = Vec::new();
        let mut row: usize = row_start;
        while row < end
            invariant
                row_start <= row,
                row <= end || row == row_start,
                end <= body@.len(),
                rows@.len() == row - row_start,
                forall|j: int|
                    0 <= j < rows@.len() ==> (#[trigger] rows@[j])@ == cap_gutter(
                        gutter,
                        child,
                        row_is_marker(
                            *spec,
                            truncated,
                            marker_visible,
                            kept,
                            (row_start + j) as usize,
                        ),
                    ) + seq![RowOp::OpenRow(replayed(width))] + body@[row_start + j]@ + seq![
                        RowOp::CloseRow(replayed(width)),
                    ],
            decreases end - row,
        {
            let mut ops: Vec<RowOp<'a>> = Vec::new();
            let is_marker = bounded_cap_row_is_marker(spec, truncated, marker_visible, kept, row);
            print_bounded_cap_gutter(&mut ops, gutter, child, is_marker);
            ops.push(RowOp::OpenRow(replay(width)));
            push_all(&mut ops, &body[row]);
            ops.push(RowOp::CloseRow(replay(width)));
            proof {
                assert(ops@ =~= cap_gutter(gutter, child, is_marker) + seq![
                    RowOp::OpenRow(replayed(width)),
                ] + body@[row as int]@ + seq![RowOp::CloseRow(replayed(width))]);
            }
            rows.push(ops);
            row += 1;
        }
        proof {
            assert(rows_view(rows@) =~= cap_output(
                m,
                child,
                *spec,
                width,
                row_start,
                row_count,
                gutter,
                depth,
            ));
        }
        rows
    }

    /// The output rows of a cap over a retained text; `None` over anything else.
    pub fn render_retained_text_cap<'a>(
        &self,
        child: &'a LayoutIr,
        spec: &CapSpec,
        width: u16,
        row_start: usize,
        row_count: usize,
        gutter: Option<&'a GutterSpec>,
    ) -> (rows: Option<Vec<Vec<RowOp<'a>>>>)
        requires
            self.wf(),
        ensures
            rows is Some == (text_leaf(*child) is Some),
            rows matches Some(rows) ==> rows_view(rows@) == rows_in_range(
                text_cap_body(self.metrics(), &text_leaf(*child)->0, *spec, width, gutter),
                row_start,
                row_count,
            ),
    {
        let content = match child {
            BlockLayout::Leaf(IrLeaf::Content(content)) => match &content.render {
                ContentRenderSpec::Text { .. } => content,
                _ => {
                    return None;
                },
            },
            _ => {
                return None;
            },
        };
        let cap = spec.rows as usize;
        let probe = self.ask_edge(content, width, cap.saturating_add(1));
        let truncated = probe.truncated || probe.row_count > cap;
        let kept = min_usize(probe.row_count, cap);
        let mut rows: Vec<Vec<RowOp<'a>>> = Vec::new();
        proof {
            assert(rows_view(rows@) =~= Seq::empty());
        }
        match spec.keep {
            CapKeep::Head { marker } => {
                push_marker(
                    &mut rows,
                    truncated && marker == Some(CapMarker::Above),
                    cap_marker_op(spec, kept, CapDirection::Above, None, None, gutter),
                );
                append_rows(&mut rows, content_rows(content, width, kept, false, gutter));
                push_marker(
                    &mut rows,
                    truncated && marker == Some(CapMarker::Below),
                    cap_marker_op(spec, kept, CapDirection::Below, None, None, gutter),
                );
            },
            CapKeep::Tail { marker } => {
                let total = match spec.total_rows {
                    Some(total) if total > kept as u64 => Some(total),
                    _ => None,
                };
                push_marker(
                    &mut rows,
                    truncated && marker == Some(CapMarker::Above),
                    cap_marker_op(spec, kept, CapDirection::Above, None, total, gutter),
                );
                append_rows(&mut rows, content_rows(content, width, kept, true, gutter));
                push_marker(
                    &mut rows,
                    truncated && marker == Some(CapMarker::Below),
                    cap_marker_op(spec, kept, CapDirection::Below, None, None, gutter),
                );
            },
            CapKeep::HeadTail { head, marker } => {
                if !truncated {
                    append_rows(&mut rows, content_rows(content, width, kept, false, gutter));
                } else {
                    let head_rows = min_usize(head as usize, kept);
                    append_rows(&mut rows, content_rows(content, width, head_rows, false, gutter));
                    push_marker(
                        &mut rows,
                        marker,
                        cap_marker_op(spec, kept, CapDirection::Omitted, None, None, gutter),
                    );
                    append_rows(
                        &mut rows,
                        content_rows(content, width, kept - head_rows, true, gutter),
                    );
                }
            },
        }
        proof {
            assert(rows_view(rows@) =~= text_cap_body(
                self.metrics(),
                content,
                *spec,
                width,
                gutter,
            ));
        }
        Some(take_range(rows, row_start, row_count))
    }
}

/// The retained text that a layout consists of, where it does.
pub open spec fn text_leaf(layout: LayoutIr) -> Option<RetainedContentSpec> {
    match layout {
        BlockLayout::Leaf(IrLeaf::Content(content)) if content.render is Text => Some(content),
        _ => None,
    }
}

} // verus!
