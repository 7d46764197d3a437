//! How many rows a layout takes at a width, and how many of them a cap shows.
use vstd::prelude::*;
use crate::budget::{fits_exact, leaf_fits_exact, MAX_BOUNDED_EDGE_DEPTH};
use crate::cap_rows::{cap_rows, capped, omitted_of, CapRow, CapRows};
use crate::host::{LayoutHost, Metrics};
use crate::ir::{
    BlockLayout, CapKeep, CapSpec, Constraint, ContentRenderSpec, ContentTextWindow, HboxItem,
    IrLeaf, LayoutIr, RetainedContentSpec, RowPrefixSpec, RunsSpec,
};
use crate::text::{display_width_u16, max_usize, min_usize, spec_max, spec_min};
use crate::widths::{
    after_gutter, both_paddings, child_width_after_gutter, gutter_cells, hbox_widths, inside_panel,
    panel_child_width, prefix_cells, row_prefix_width,
};

verus! {

/// Rows of prefixed runs, where the rows are laid out together with their prefix:
/// runs, and small runs under a cap.
pub open spec fn special_rows(
    m: Metrics,
    child: LayoutIr,
    prefix: RowPrefixSpec,
    width: u16,
) -> Option<usize> {
    match child {
        BlockLayout::Leaf(IrLeaf::Runs(runs)) => Some((m.prefix_rows)(runs, prefix, width)),
        BlockLayout::Cap { child: inner, spec } => match *inner {
            BlockLayout::Leaf(IrLeaf::Runs(runs)) => if fits_exact(m, *inner) {
                Some(capped((m.prefix_rows)(runs, prefix, width) as int, spec, true).len() as usize)
            } else {
                None
            },
            _ => None,
        },
        _ => None,
    }
}

/// Rows of `layout` at `width`, behind a gutter of `gutter` cells.
pub open spec fn layout_rows(m: Metrics, layout: LayoutIr, width: u16, gutter: u16) -> usize
    decreases layout, 0nat,
{
    match layout {
        BlockLayout::Empty => 0,
        BlockLayout::Leaf(leaf) => (m.leaf_rows)(leaf, width, gutter),
        BlockLayout::Vbox(items) => stacked_rows(m, items@, width, gutter),
        BlockLayout::Hbox(items) => tallest_rows(m, items@, hbox_widths(m, items@, width)),
        BlockLayout::Gutter { child, spec } => layout_rows(
            m,
            *child,
            after_gutter(width, gutter_cells(spec)),
            gutter_cells(spec),
        ),
        BlockLayout::RowPrefix { child, spec } => match special_rows(m, *child, spec, width) {
            Some(rows) => rows,
            None => layout_rows(m, *child, after_gutter(width, prefix_cells(spec)), gutter),
        },
        BlockLayout::Panel { child, spec } => layout_rows(
            m,
            *child,
            inside_panel(width, spec.padding),
            0,
        ).saturating_add(both_paddings(spec.padding) as usize),
        BlockLayout::Style { child, .. } => layout_rows(m, *child, width, gutter),
        BlockLayout::Refresh { child, .. } => layout_rows(m, *child, width, gutter),
        BlockLayout::Cap { child, spec } => bounded_cap_rows(m, *child, spec, width, 0),
    }
}

/// Rows of a vbox: those of its children, one below the other.
pub open spec fn stacked_rows(m: Metrics, items: Seq<LayoutIr>, width: u16, gutter: u16) -> usize
    decreases items, 0nat,
{
    if items.len() == 0 {
        0
    } else {
        stacked_rows(m, items.drop_last(), width, gutter).saturating_add(
            layout_rows(m, items.last(), width, gutter),
        )
    }
}

/// Rows of an hbox: those of its tallest column.
pub open spec fn tallest_rows(m: Metrics, items: Seq<HboxItem<IrLeaf>>, widths: Seq<u16>) -> usize
    decreases items, 0nat,
{
    if items.len() == 0 {
        0
    } else {
        spec_max(
            tallest_rows(m, items.drop_last(), widths),
            layout_rows(m, items.last().layout, widths[items.len() - 1], 0),
        )
    }
}

/// The first rows of `layout`, at most `max_rows`, found without laying out more of
/// it than that; a part that is too deep or too large counts as one row and more.
pub open spec fn edge_window(
    m: Metrics,
    layout: LayoutIr,
    width: u16,
    max_rows: usize,
    depth: usize,
) -> ContentTextWindow
    decreases layout, 1nat,
{
    if depth > MAX_BOUNDED_EDGE_DEPTH {
        ContentTextWindow { row_count: spec_min(max_rows, 1), truncated: true }
    } else {
        match layout {
            BlockLayout::Empty => ContentTextWindow { row_count: 0, truncated: false },
            BlockLayout::Leaf(IrLeaf::Content(content)) => (m.edge)(content, width, max_rows),
            BlockLayout::Leaf(leaf) => if leaf_fits_exact(m, leaf) {
                first_of((m.leaf_rows)(leaf, width, 0), max_rows)
            } else {
                ContentTextWindow { row_count: spec_min(max_rows, 1), truncated: true }
            },
            BlockLayout::Vbox(items) => edge_stack(m, items@, width, max_rows, 0, (depth + 1) as usize),
            BlockLayout::Hbox(items) => edge_columns(
                m,
                items@,
                hbox_widths(m, items@, width),
                max_rows,
                (depth + 1) as usize,
            ),
            BlockLayout::Gutter { child, spec } => edge_window(
                m,
                *child,
                after_gutter(width, gutter_cells(spec)),
                max_rows,
                (depth + 1) as usize,
            ),
            BlockLayout::RowPrefix { child, spec } => edge_window(
                m,
                *child,
                after_gutter(width, prefix_cells(spec)),
                max_rows,
                (depth + 1) as usize,
            ),
            BlockLayout::Panel { child, spec } => if spec.padding >= max_rows {
                ContentTextWindow { row_count: max_rows, truncated: true }
            } else {
                let inner = edge_window(
                    m,
                    *child,
                    inside_panel(width, spec.padding),
                    (max_rows - spec.padding) as usize,
                    (depth + 1) as usize,
                );
                panel_window(inner, spec.padding as usize, max_rows)
            },
            BlockLayout::Style { child, .. } => edge_window(
                m,
                *child,
                width,
                max_rows,
                (depth + 1) as usize,
            ),
            BlockLayout::Refresh { child, .. } => edge_window(
                m,
                *child,
                width,
                max_rows,
                (depth + 1) as usize,
            ),
            BlockLayout::Cap { child, spec } => first_of(
                bounded_cap_rows(m, *child, spec, width, (depth + 1) as usize),
                max_rows,
            ),
        }
    }
}

/// The first of `total` rows, at most `max_rows`.
pub open spec fn first_of(total: usize, max_rows: usize) -> ContentTextWindow {
    ContentTextWindow { row_count: spec_min(total, max_rows), truncated: total > max_rows }
}

/// The first rows of a panel whose child's first rows are `inner`.
pub open spec fn panel_window(
    inner: ContentTextWindow,
    padding: usize,
    max_rows: usize,
) -> ContentTextWindow {
    let rows = padding.saturating_add(inner.row_count);
    if inner.truncated {
        ContentTextWindow { row_count: rows, truncated: true }
    } else {
        first_of(rows.saturating_add(padding), max_rows)
    }
}

/// The first rows of the children `items`, below `above` rows already counted.
pub open spec fn edge_stack(
    m: Metrics,
    items: Seq<LayoutIr>,
    width: u16,
    max_rows: usize,
    above: usize,
    depth: usize,
) -> ContentTextWindow
    decreases items, 1nat,
{
    if items.len() == 0 {
        ContentTextWindow { row_count: above, truncated: false }
    } else if above >= max_rows {
        ContentTextWindow { row_count: above, truncated: true }
    } else {
        let child = edge_window(m, items[0], width, (max_rows - above) as usize, depth);
        let rows = above.saturating_add(child.row_count);
        if child.truncated {
            ContentTextWindow { row_count: rows, truncated: true }
        } else {
            edge_stack(m, items.drop_first(), width, max_rows, rows, depth)
        }
    }
}

/// The first rows of the columns `items`; a column without cells has none.
pub open spec fn edge_columns(
    m: Metrics,
    items: Seq<HboxItem<IrLeaf>>,
    widths: Seq<u16>,
    max_rows: usize,
    depth: usize,
) -> ContentTextWindow
    decreases items, 1nat,
{
    if items.len() == 0 {
        ContentTextWindow { row_count: 0, truncated: false }
    } else {
        let rest = edge_columns(m, items.drop_last(), widths, max_rows, depth);
        let width = widths[items.len() - 1];
        if width == 0 {
            rest
        } else {
            let child = edge_window(m, items.last().layout, width, max_rows, depth);
            ContentTextWindow {
                row_count: spec_max(rest.row_count, child.row_count),
                truncated: rest.truncated || child.truncated,
            }
        }
    }
}

/// Whether the rows `start..end` of `layout` show any text, where that can be told
/// without drawing it.
pub open spec fn range_visible(
    m: Metrics,
    layout: LayoutIr,
    width: u16,
    start: usize,
    end: usize,
) -> Option<bool>
    decreases layout, 1nat,
{
    if start >= end {
        Some(false)
    } else {
        match layout {
            BlockLayout::Empty => Some(false),
            BlockLayout::Leaf(IrLeaf::Markdown(spec)) if !spec.inline => Some(
                (m.leaf_visible)(IrLeaf::Markdown(spec), width, start, end),
            ),
            BlockLayout::Leaf(IrLeaf::Content(spec)) => if spec.render is Text {
                Some((m.leaf_visible)(IrLeaf::Content(spec), width, start, end))
            } else {
                None
            },
            BlockLayout::Vbox(items) => stack_visible(m, items@, width, start, end, 0, false),
            BlockLayout::Hbox(items) => columns_visible(
                m,
                items@,
                hbox_widths(m, items@, width),
                start,
                end,
                false,
            ),
            BlockLayout::Gutter { child, spec } => range_visible(
                m,
                *child,
                after_gutter(width, gutter_cells(spec)),
                start,
                end,
            ),
            BlockLayout::Style { child, .. } => range_visible(m, *child, width, start, end),
            _ => None,
        }
    }
}

/// As [`range_visible`], of the children `items` whose first row is row `base`.
pub open spec fn stack_visible(
    m: Metrics,
    items: Seq<LayoutIr>,
    width: u16,
    start: usize,
    end: usize,
    base: usize,
    unknown: bool,
) -> Option<bool>
    decreases items, 1nat,
{
    if items.len() == 0 || base >= end {
        if unknown {
            None
        } else {
            Some(false)
        }
    } else {
        let rows = layout_rows(m, items[0], width, 0);
        let child_end = base.saturating_add(rows);
        let seen = if child_end > start {
            range_visible(
                m,
                items[0],
                width,
                start.saturating_sub(base),
                spec_min((end - base) as usize, rows),
            )
        } else {
            Some(false)
        };
        if seen == Some(true) {
            Some(true)
        } else {
            stack_visible(
                m,
                items.drop_first(),
                width,
                start,
                end,
                child_end,
                unknown || seen is None,
            )
        }
    }
}

/// As [`range_visible`], of columns side by side.
pub open spec fn columns_visible(
    m: Metrics,
    items: Seq<HboxItem<IrLeaf>>,
    widths: Seq<u16>,
    start: usize,
    end: usize,
    unknown: bool,
) -> Option<bool>
    decreases items, 1nat,
{
    if items.len() == 0 {
        if unknown {
            None
        } else {
            Some(false)
        }
    } else {
        let seen = range_visible(m, items[0].layout, widths[0], start, end);
        if seen == Some(true) {
            Some(true)
        } else {
            columns_visible(
                m,
                items.drop_first(),
                widths.drop_first(),
                start,
                end,
                unknown || seen is None,
            )
        }
    }
}

/// Whether the rows `start..end` that a cap leaves out show any text.
pub open spec fn omitted_visible(
    m: Metrics,
    child: LayoutIr,
    width: u16,
    start: usize,
    end: usize,
) -> bool
    decreases child, 2nat,
{
    start < end && match range_visible(m, child, width, start, end) {
        Some(visible) => visible,
        None => (m.drawn_visible)(child, width, start, end),
    }
}

/// The output rows of a cap over a child of `child_rows` rows: a marker between
/// head and tail is shown only where it stands for visible text.
pub open spec fn capped_child(
    m: Metrics,
    child_rows: usize,
    spec: CapSpec,
    child: LayoutIr,
    width: u16,
) -> Seq<CapRow>
    decreases child, 3nat,
{
    let with_omitted = match omitted_of(child_rows as int, spec) {
        Some((start, end)) => omitted_visible(m, child, width, start, end),
        None => true,
    };
    capped(child_rows as int, spec, with_omitted)
}

pub open spec fn keep_has_marker(keep: CapKeep) -> bool {
    match keep {
        CapKeep::Head { marker } => marker is Some,
        CapKeep::Tail { marker } => marker is Some,
        CapKeep::HeadTail { marker, .. } => marker,
    }
}

/// Output rows of a cap: counted exactly over a small child, else from the first
/// rows of the child, one more than the cap keeps.
pub open spec fn bounded_cap_rows(
    m: Metrics,
    child: LayoutIr,
    spec: CapSpec,
    width: u16,
    depth: usize,
) -> usize
    decreases child, 4nat,
{
    if depth <= MAX_BOUNDED_EDGE_DEPTH && fits_exact(m, child) {
        capped_child(m, layout_rows(m, child, width, 0), spec, child, width).len() as usize
    } else {
        let window = edge_window(m, child, width, (spec.rows + 1) as usize, depth);
        let truncated = window.truncated || window.row_count > spec.rows;
        let kept = spec_min(window.row_count, spec.rows as usize);
        if truncated && keep_has_marker(spec.keep) {
            (kept + 1) as usize
        } else {
            kept
        }
    }
}

impl<
    A: Fn(&IrLeaf, u16, u16) -> usize,
    B: Fn(&RunsSpec, &RowPrefixSpec, u16) -> usize,
    C: Fn(&RetainedContentSpec, u16, usize) -> ContentTextWindow,
    D: Fn(u64) -> usize,
    E: Fn(&Vec<Constraint>, &Vec<u16>, u16) -> Vec<u16>,
    F: Fn(&IrLeaf, u16, usize, usize) -> bool,
    G: Fn(&LayoutIr, u16, usize, usize) -> bool,
> LayoutHost<A, B, C, D, E, F, G> {
    pub fn measure_row_prefix_special(
        &self,
        child: &LayoutIr,
        prefix: &RowPrefixSpec,
        width: u16,
    ) -> (rows: Option<usize>)
        requires
            self.wf(),
        ensures
            rows == special_rows(self.metrics(), *child, *prefix, width),
    {
        match child {
            BlockLayout::Leaf(IrLeaf::Runs(runs)) => Some(
                self.ask_prefix_rows(runs, prefix, width),
            ),
            BlockLayout::Cap { child: inner, spec } => {
                if let BlockLayout::Leaf(IrLeaf::Runs(runs)) = &**inner {
                    if !self.layout_fits_exact_measure_budget(inner) {
                        return None;
                    }
                    let child_rows = self.ask_prefix_rows(runs, prefix, width);
                    Some(cap_rows(child_rows, spec).row_count())
                } else {
                    None
                }
            },
            _ => None,
        }
    }

    /// Rows of `layout` at `width`.
    pub fn measure_layout_ir_full(&self, layout: &LayoutIr, width: u16) -> (rows: usize)
        requires
            self.wf(),
        ensures
            rows == layout_rows(self.metrics(), *layout, width, 0),
        decreases layout, 1nat,
    {
        self.measure_layout_ir_full_with_gutter(layout, width, 0)
    }

    /// Rows of `layout` at `width`, behind a gutter of `gutter_cells` cells.
    pub fn measure_layout_ir_full_with_gutter(
        &self,
        layout: &LayoutIr,
        width: u16,
        gutter_cells: u16,
    ) -> (rows: usize)
        requires
            self.wf(),
        ensures
            rows == layout_rows(self.metrics(), *layout, width, gutter_cells),
        decreases layout, 0nat,
    {
        let ghost m = self.metrics();
        match layout {
            BlockLayout::Empty => 0,
            BlockLayout::Leaf(leaf) => self.ask_leaf_rows(leaf, width, gutter_cells),
            BlockLayout::Vbox(items) => {
                let mut rows: usize = 0;
                let mut i: usize = 0;
                while i < items.len()
                    invariant
                        self.wf(),
                        m == self.metrics(),
                        decreases_to!(layout => items@),
                        i <= items@.len(),
                        rows == stacked_rows(m, items@.take(i as int), width, gutter_cells),
                    decreases items.len() - i,
                {
                    proof {
                        assert(items@.take(i + 1).drop_last() =~= items@.take(i as int));
                    }
                    rows = rows.saturating_add(
                        self.measure_layout_ir_full_with_gutter(&items[i], width, gutter_cells),
                    );
                    i += 1;
                }
                proof {
                    assert(items@.take(i as int) =~= items@);
                }
                rows
            },
            BlockLayout::Hbox(items) => {
                let widths = self.solve_ir_hbox_widths(items, width);
                let mut rows: usize = 0;
                let mut i: usize = 0;
                while i < items.len()
                    invariant
                        self.wf(),
                        m == self.metrics(),
                        decreases_to!(layout => items@),
                        i <= items@.len(),
                        widths@.len() == items@.len(),
                        rows == tallest_rows(m, items@.take(i as int), widths@),
                    decreases items.len() - i,
                {
                    proof {
                        assert(items@.take(i + 1).drop_last() =~= items@.take(i as int));
                        assert(decreases_to!(items@ => items@[i as int]));
                        assert(decreases_to!(items@[i as int] => items@[i as int].layout));
                    }
                    rows = max_usize(
                        rows,
                        self.measure_layout_ir_full_with_gutter(&items[i].layout, widths[i], 0),
                    );
                    i += 1;
                }
                proof {
                    assert(items@.take(i as int) =~= items@);
                }
                rows
            },
            BlockLayout::Gutter { child, spec } => {
                let spec_width = display_width_u16(spec.text.as_str());
                let child_width = child_width_after_gutter(width, spec_width);
                self.measure_layout_ir_full_with_gutter(child, child_width, spec_width)
            },
            BlockLayout::RowPrefix { child, spec } => {
                if let Some(rows) = self.measure_row_prefix_special(child, spec, width) {
                    rows
                } else {
                    let child_width = child_width_after_gutter(width, row_prefix_width(spec));
                    self.measure_layout_ir_full_with_gutter(child, child_width, gutter_cells)
                }
            },
            BlockLayout::Panel { child, spec } => {
                let child_width = panel_child_width(width, spec.padding);
                let rows = self.measure_layout_ir_full_with_gutter(child, child_width, 0);
                rows.saturating_add(spec.padding.saturating_add(spec.padding) as usize)
            },
            BlockLayout::Style { child, .. } | BlockLayout::Refresh { child, .. } => {
                self.measure_layout_ir_full_with_gutter(child, width, gutter_cells)
            },
            BlockLayout::Cap { child, spec } => self.measure_bounded_cap_rows_inner(
                child,
                spec,
                width,
                0,
            ),
        }
    }

    /// The first rows of `layout`, at most `max_rows`, at bounded cost.
    pub fn measure_bounded_layout_edge_inner(
        &self,
        layout: &LayoutIr,
        width: u16,
        max_rows: usize,
        depth: usize,
    ) -> (window: ContentTextWindow)
        requires
            self.wf(),
        ensures
            window == edge_window(self.metrics(), *layout, width, max_rows, depth),
        decreases layout, 1nat,
    {
        let ghost m = self.metrics();
        if depth > MAX_BOUNDED_EDGE_DEPTH {
            return ContentTextWindow { row_count: min_usize(max_rows, 1), truncated: true };
        }
        match layout {
            BlockLayout::Empty => ContentTextWindow { row_count: 0, truncated: false },
            BlockLayout::Leaf(IrLeaf::Content(content)) => self.ask_edge(content, width, max_rows),
            BlockLayout::Leaf(leaf) => {
                if !self.leaf_fits_exact_measure_budget(leaf) {
                    return ContentTextWindow { row_count: min_usize(max_rows, 1), truncated: true };
                }
                let total = self.ask_leaf_rows(leaf, width, 0);
                ContentTextWindow {
                    row_count: min_usize(total, max_rows),
                    truncated: total > max_rows,
                }
            },
            BlockLayout::Vbox(items) => {
                let mut row_count: usize = 0;
                let mut i: usize = 0;
                proof {
                    assert(items@.skip(0) =~= items@);
                }
                while i < items.len()
                    invariant
                        self.wf(),
                        m == self.metrics(),
                        depth <= MAX_BOUNDED_EDGE_DEPTH,
                        decreases_to!(layout => items@),
                        layout == BlockLayout::Vbox(*items),
                        i <= items@.len(),
                        edge_window(m, *layout, width, max_rows, depth) == edge_stack(
                            m,
                            items@.skip(i as int),
                            width,
                            max_rows,
                            row_count,
                            (depth + 1) as usize,
                        ),
                    decreases items.len() - i,
                {
                    let remaining = max_rows.saturating_sub(row_count);
                    if remaining == 0 {
                        return ContentTextWindow { row_count, truncated: true };
                    }
                    proof {
                        assert(items@.skip(i as int)[0] == items@[i as int]);
                        assert(items@.skip(i as int).drop_first() =~= items@.skip(i + 1));
                    }
                    let child = self.measure_bounded_layout_edge_inner(
                        &items[i],
                        width,
                        remaining,
                        depth + 1,
                    );
                    row_count = row_count.saturating_add(child.row_count);
                    if child.truncated {
                        return ContentTextWindow { row_count, truncated: true };
                    }
                    i += 1;
                }
                ContentTextWindow { row_count, truncated: false }
            },
            BlockLayout::Hbox(items) => {
                let widths = self.solve_ir_hbox_widths(items, width);
                let mut row_count: usize = 0;
                let mut truncated = false;
                let mut i: usize = 0;
                while i < items.len()
                    invariant
                        self.wf(),
                        m == self.metrics(),
                        depth <= MAX_BOUNDED_EDGE_DEPTH,
                        decreases_to!(layout => items@),
                        i <= items@.len(),
                        widths@.len() == items@.len(),
                        edge_columns(
                            m,
                            items@.take(i as int),
                            widths@,
                            max_rows,
                            (depth + 1) as usize,
                        ) == (ContentTextWindow { row_count, truncated }),
                    decreases items.len() - i,
                {
                    proof {
                        assert(items@.take(i + 1).drop_last() =~= items@.take(i as int));
                        assert(decreases_to!(items@ => items@[i as int]));
                        assert(decreases_to!(items@[i as int] => items@[i as int].layout));
                    }
                    if widths[i] != 0 {
                        let child = self.measure_bounded_layout_edge_inner(
                            &items[i].layout,
                            widths[i],
                            max_rows,
                            depth + 1,
                        );
                        row_count = max_usize(row_count, child.row_count);
                        truncated = truncated || child.truncated;
                    }
                    i += 1;
                }
                proof {
                    assert(items@.take(i as int) =~= items@);
                }
                ContentTextWindow { row_count, truncated }
            },
            BlockLayout::Gutter { child, spec } => {
                let gutter_width = display_width_u16(spec.text.as_str());
                self.measure_bounded_layout_edge_inner(
                    child,
                    child_width_after_gutter(width, gutter_width),
                    max_rows,
                    depth + 1,
                )
            },
            BlockLayout::RowPrefix { child, spec } => self.measure_bounded_layout_edge_inner(
                child,
                child_width_after_gutter(width, row_prefix_width(spec)),
                max_rows,
                depth + 1,
            ),
            BlockLayout::Panel { child, spec } => {
                let padding = spec.padding as usize;
                let top_rows = min_usize(padding, max_rows);
                if top_rows == max_rows {
                    return ContentTextWindow { row_count: top_rows, truncated: true };
                }
                let child = self.measure_bounded_layout_edge_inner(
                    child,
                    panel_child_width(width, spec.padding),
                    max_rows.saturating_sub(top_rows),
                    depth + 1,
                );
                let row_count = top_rows.saturating_add(child.row_count);
                if child.truncated {
                    return ContentTextWindow { row_count, truncated: true };
                }
                let total = row_count.saturating_add(padding);
                ContentTextWindow {
                    row_count: min_usize(total, max_rows),
                    truncated: total > max_rows,
                }
            },
            BlockLayout::Style { child, .. } | BlockLayout::Refresh { child, .. } => {
                self.measure_bounded_layout_edge_inner(child, width, max_rows, depth + 1)
            },
            BlockLayout::Cap { child, spec } => {
                let rows = self.measure_bounded_cap_rows_inner(child, spec, width, depth + 1);
                ContentTextWindow { row_count: min_usize(rows, max_rows), truncated: rows > max_rows }
            },
        }
    }

    /// Whether the rows `start..end` show any text, where that can be told without
    /// drawing them.
    pub fn layout_range_has_visible_text(
        &self,
        layout: &LayoutIr,
        width: u16,
        start: usize,
        end: usize,
    ) -> (visible: Option<bool>)
        requires
            self.wf(),
        ensures
            visible == range_visible(self.metrics(), *layout, width, start, end),
        decreases layout, 1nat,
    {
        let ghost m = self.metrics();
        if start >= end {
            return Some(false);
        }
        match layout {
            BlockLayout::Empty => Some(false),
            BlockLayout::Leaf(leaf) => match leaf {
                IrLeaf::Markdown(spec) => if spec.inline {
                    None
                } else {
                    Some(self.ask_leaf_visible(leaf, width, start, end))
                },
                IrLeaf::Content(spec) => match &spec.render {
                    ContentRenderSpec::Text { .. } => Some(
                        self.ask_leaf_visible(leaf, width, start, end),
                    ),
                    _ => None,
                },
                _ => None,
            },
            BlockLayout::Vbox(items) => self.vbox_range_has_visible_text(items, width, start, end),
            BlockLayout::Hbox(items) => {
                let widths = self.solve_ir_hbox_widths(items, width);
                let mut saw_unknown = false;
                let mut i: usize = 0;
                proof {
                    assert(items@.skip(0) =~= items@);
                    assert(widths@.skip(0) =~= widths@);
                }
                while i < items.len()
                    invariant
                        self.wf(),
                        m == self.metrics(),
                        start < end,
                        decreases_to!(layout => items@),
                        layout == BlockLayout::Hbox(*items),
                        i <= items@.len(),
                        widths@.len() == items@.len(),
                        range_visible(m, *layout, width, start, end) == columns_visible(
                            m,
                            items@.skip(i as int),
                            widths@.skip(i as int),
                            start,
                            end,
                            saw_unknown,
                        ),
                    decreases items.len() - i,
                {
                    proof {
                        assert(items@.skip(i as int)[0] == items@[i as int]);
                        assert(widths@.skip(i as int)[0] == widths@[i as int]);
                        assert(items@.skip(i as int).drop_first() =~= items@.skip(i + 1));
                        assert(widths@.skip(i as int).drop_first() =~= widths@.skip(i + 1));
                        assert(decreases_to!(items@ => items@[i as int]));
                        assert(decreases_to!(items@[i as int] => items@[i as int].layout));
                    }
                    match self.layout_range_has_visible_text(
                        &items[i].layout,
                        widths[i],
                        start,
                        end,
                    ) {
                        Some(true) => {
                            return Some(true);
                        },
                        Some(false) => {},
                        None => {
                            saw_unknown = true;
                        },
                    }
                    i += 1;
                }
                if saw_unknown {
                    None
                } else {
                    Some(false)
                }
            },
            BlockLayout::Gutter { child, spec } => {
                let child_width = child_width_after_gutter(
                    width,
                    display_width_u16(spec.text.as_str()),
                );
                self.layout_range_has_visible_text(child, child_width, start, end)
            },
            BlockLayout::Style { child, .. } => self.layout_range_has_visible_text(
                child,
                width,
                start,
                end,
            ),
            _ => None,
        }
    }

    /// As [`Self::layout_range_has_visible_text`], of children one below the other.
    pub fn vbox_range_has_visible_text(
        &self,
        items: &Vec<LayoutIr>,
        width: u16,
        start: usize,
        end: usize,
    ) -> (visible: Option<bool>)
        requires
            self.wf(),
        ensures
            visible == stack_visible(self.metrics(), items@, width, start, end, 0, false),
        decreases items, 2nat,
    {
        let ghost m = self.metrics();
        let mut base: usize = 0;
        let mut saw_unknown = false;
        let mut i: usize = 0;
        proof {
            assert(items@.skip(0) =~= items@);
        }
        while i < items.len()
            invariant
                self.wf(),
                m == self.metrics(),
                decreases_to!(items => items@),
                i <= items@.len(),
                stack_visible(m, items@, width, start, end, 0, false) == stack_visible(
                    m,
                    items@.skip(i as int),
                    width,
                    start,
                    end,
                    base,
                    saw_unknown,
                ),
            decreases items.len() - i,
        {
            if base >= end {
                return if saw_unknown {
                    None
                } else {
                    Some(false)
                };
            }
            proof {
                assert(items@.skip(i as int)[0] == items@[i as int]);
                assert(items@.skip(i as int).drop_first() =~= items@.skip(i + 1));
            }
            let rows = self.measure_layout_ir_full_with_gutter(&items[i], width, 0);
            let child_end = base.saturating_add(rows);
            if child_end > start {
                let local_start = start.saturating_sub(base);
                let local_end = min_usize(end.saturating_sub(base), rows);
                match self.layout_range_has_visible_text(&items[i], width, local_start, local_end) {
                    Some(true) => {
                        return Some(true);
                    },
                    Some(false) => {},
                    None => {
                        saw_unknown = true;
                    },
                }
            }
            base = child_end;
            i += 1;
        }
        if saw_unknown {
            None
        } else {
            Some(false)
        }
    }

    /// Whether rows that a cap leaves out show any text.
    pub fn omitted_rows_have_visible_text(
        &self,
        child: &LayoutIr,
        width: u16,
        start: usize,
        end: usize,
    ) -> (visible: bool)
        requires
            self.wf(),
        ensures
            visible == omitted_visible(self.metrics(), *child, width, start, end),
        decreases child, 2nat,
    {
        if start >= end {
            return false;
        }
        match self.layout_range_has_visible_text(child, width, start, end) {
            Some(visible) => visible,
            None => self.ask_drawn_visible(child, width, start, end),
        }
    }

    /// The output rows of a cap over a child of `child_rows` rows.
    pub fn cap_rows_for_child(
        &self,
        child_rows: usize,
        spec: &CapSpec,
        child: &LayoutIr,
        width: u16,
    ) -> (rows: CapRows)
        requires
            self.wf(),
        ensures
            rows.wf(),
            rows@ == capped_child(self.metrics(), child_rows, *spec, *child, width),
            rows@.len() <= spec.rows + 1,
        decreases child, 3nat,
    {
        let mut rows = cap_rows(child_rows, spec);
        if let Some((start, end)) = rows.omitted_range() {
            if !self.omitted_rows_have_visible_text(child, width, start, end) {
                rows.remove_omitted_marker();
            }
        }
        rows
    }

    /// Rows of `layout`, where it is small enough to be measured exactly.
    pub fn bounded_exact_layout_rows(&self, layout: &LayoutIr, width: u16) -> (rows: Option<usize>)
        requires
            self.wf(),
        ensures
            rows == (if fits_exact(self.metrics(), *layout) {
                Some(layout_rows(self.metrics(), *layout, width, 0))
            } else {
                None
            }),
        decreases layout, 2nat,
    {
        if self.layout_fits_exact_measure_budget(layout) {
            Some(self.measure_layout_ir_full(layout, width))
        } else {
            None
        }
    }

    /// Output rows of a cap.
    pub fn measure_bounded_cap_rows(&self, child: &LayoutIr, spec: &CapSpec, width: u16) -> (rows:
        usize)
        requires
            self.wf(),
        ensures
            rows == bounded_cap_rows(self.metrics(), *child, *spec, width, 0),
    {
        self.measure_bounded_cap_rows_inner(child, spec, width, 0)
    }

    /// Output rows of a cap `depth` levels below the outermost one.
    pub fn measure_bounded_cap_rows_inner(
        &self,
        child: &LayoutIr,
        spec: &CapSpec,
        width: u16,
        depth: usize,
    ) -> (rows: usize)
        requires
            self.wf(),
        ensures
            rows == bounded_cap_rows(self.metrics(), *child, *spec, width, depth),
        decreases child, 4nat,
    {
        if depth <= MAX_BOUNDED_EDGE_DEPTH {
            if let Some(child_rows) = self.bounded_exact_layout_rows(child, width) {
                return self.cap_rows_for_child(child_rows, spec, child, width).row_count();
            }
        }
        let probe_rows = (spec.rows as usize).saturating_add(1);
        let window = self.measure_bounded_layout_edge_inner(child, width, probe_rows, depth);
        let truncated = window.truncated || window.row_count > spec.rows as usize;
        let kept = min_usize(window.row_count, spec.rows as usize);
        let marker = truncated && match spec.keep {
            CapKeep::Head { marker } => marker.is_some(),
            CapKeep::Tail { marker } => marker.is_some(),
            CapKeep::HeadTail { marker, .. } => marker,
        };
        if marker {
            kept.saturating_add(1)
        } else {
            kept
        }
    }
}

} // verus!
