//! A measured layout: the rows of every node, kept beside the layout tree.
use vstd::prelude::*;
use crate::budget::{fits_exact, layout_size};
use crate::host::{LayoutHost, Metrics};
use crate::ir::{
    BlockLayout, Constraint, ContentTextWindow, HboxItem, IrLeaf, LayoutIr, RetainedContentSpec,
    RowPrefixSpec, RunsSpec,
};
use crate::measure::{bounded_cap_rows, layout_rows, special_rows, stacked_rows, tallest_rows};
use crate::text::{display_width_u16, max_usize, spec_max};
use crate::widths::{
    after_gutter, both_paddings, child_width_after_gutter, gutter_cells, hbox_widths, inside_panel,
    panel_child_width, prefix_cells, row_prefix_width,
};

verus! {

/// Rows of a node, and the measurements below it.
#[derive(Debug)]
pub struct MeasuredLayout {
    pub rows: usize,
    pub kind: MeasuredLayoutKind,
}

#[derive(Debug)]
#[allow(inconsistent_fields)]
pub enum MeasuredLayoutKind {
    Terminal,
    Child(Box<MeasuredLayout>),
    Children(Vec<MeasuredLayout>),
    Hbox { widths: Vec<u16>, children: Vec<MeasuredLayout> },
}

/// Rows of measured children, one below the other.
pub open spec fn summed_rows(children: Seq<MeasuredLayout>) -> usize
    decreases children.len(),
{
    if children.len() == 0 {
        0
    } else {
        summed_rows(children.drop_last()).saturating_add(children.last().rows)
    }
}

/// Rows of the tallest measured child.
pub open spec fn most_rows(children: Seq<MeasuredLayout>) -> usize
    decreases children.len(),
{
    if children.len() == 0 {
        0
    } else {
        spec_max(most_rows(children.drop_last()), children.last().rows)
    }
}

/// `measured` holds the rows of every node of `layout` at `width`.
pub open spec fn is_plan(
    m: Metrics,
    layout: LayoutIr,
    measured: MeasuredLayout,
    width: u16,
    gutter: u16,
) -> bool
    decreases layout,
{
    match layout {
        BlockLayout::Empty => measured.kind is Terminal && measured.rows == 0,
        BlockLayout::Leaf(leaf) => measured.kind is Terminal && measured.rows == (m.leaf_rows)(
            leaf,
            width,
            gutter,
        ),
        BlockLayout::Vbox(items) => {
            &&& measured.kind matches MeasuredLayoutKind::Children(children)
            &&& children@.len() == items@.len()
            &&& measured.rows == summed_rows(children@)
            &&& forall|i: int|
                0 <= i < items@.len() ==> is_plan(
                    m,
                    #[trigger] items@[i],
                    children@[i],
                    width,
                    gutter,
                )
        },
        BlockLayout::Hbox(items) => {
            &&& measured.kind matches MeasuredLayoutKind::Hbox { widths, children }
            &&& children@.len() == items@.len()
            &&& widths@ == hbox_widths(m, items@, width)
            &&& widths@.len() == items@.len()
            &&& measured.rows == most_rows(children@)
            &&& forall|i: int|
                0 <= i < items@.len() ==> is_plan(
                    m,
                    (#[trigger] items@[i]).layout,
                    children@[i],
                    widths@[i],
                    0,
                )
        },
        BlockLayout::Gutter { child, spec } => {
            &&& measured.kind matches MeasuredLayoutKind::Child(inner)
            &&& measured.rows == inner.rows
            &&& is_plan(
                m,
                *child,
                *inner,
                after_gutter(width, gutter_cells(spec)),
                gutter_cells(spec),
            )
        },
        BlockLayout::RowPrefix { child, spec } => {
            &&& measured.kind matches MeasuredLayoutKind::Child(inner)
            &&& measured.rows == (match special_rows(m, *child, spec, width) {
                Some(rows) => rows,
                None => inner.rows,
            })
            &&& is_plan(m, *child, *inner, after_gutter(width, prefix_cells(spec)), gutter)
        },
        BlockLayout::Panel { child, spec } => {
            &&& measured.kind matches MeasuredLayoutKind::Child(inner)
            &&& measured.rows == inner.rows.saturating_add(both_paddings(spec.padding) as usize)
            &&& is_plan(m, *child, *inner, inside_panel(width, spec.padding), 0)
        },
        BlockLayout::Style { child, .. } => {
            &&& measured.kind matches MeasuredLayoutKind::Child(inner)
            &&& measured.rows == inner.rows
            &&& is_plan(m, *child, *inner, width, gutter)
        },
        BlockLayout::Refresh { child, .. } => {
            &&& measured.kind matches MeasuredLayoutKind::Child(inner)
            &&& measured.rows == inner.rows
            &&& is_plan(m, *child, *inner, width, gutter)
        },
        BlockLayout::Cap { child, spec } => measured.kind is Terminal && measured.rows
            == bounded_cap_rows(m, *child, spec, width, 0),
    }
}

/// What refreshing a measurement did.
#[derive(Clone, Copy, Debug, PartialEq, Eq, Structural)]
pub enum ContentMeasurementRefresh {
    Unchanged,
    Updated,
    Incompatible,
}

impl ContentMeasurementRefresh {
    /// The stronger of the two outcomes.
    pub open spec fn merged(self, other: Self) -> Self {
        if self is Incompatible || other is Incompatible {
            ContentMeasurementRefresh::Incompatible
        } else if self is Updated || other is Updated {
            ContentMeasurementRefresh::Updated
        } else {
            ContentMeasurementRefresh::Unchanged
        }
    }

    pub fn merge(self, other: Self) -> (r: Self)
        ensures
            r == self.merged(other),
    {
        match (self, other) {
            (Self::Incompatible, _) | (_, Self::Incompatible) => Self::Incompatible,
            (Self::Updated, _) | (_, Self::Updated) => Self::Updated,
            (Self::Unchanged, Self::Unchanged) => Self::Unchanged,
        }
    }
}

/// What a refresh of `measured` for `layout` does: nothing without contents or
/// caps, nothing sensible where the shapes differ.
pub open spec fn refresh_outcome(
    layout: LayoutIr,
    measured: MeasuredLayout,
) -> ContentMeasurementRefresh
    decreases layout,
{
    match (layout, measured.kind) {
        (BlockLayout::Empty, MeasuredLayoutKind::Terminal) => ContentMeasurementRefresh::Unchanged,
        (BlockLayout::Leaf(leaf), MeasuredLayoutKind::Terminal) => if leaf is Content {
            ContentMeasurementRefresh::Updated
        } else {
            ContentMeasurementRefresh::Unchanged
        },
        (BlockLayout::Vbox(items), MeasuredLayoutKind::Children(children)) => if items@.len()
            == children@.len() {
            stack_outcome(items@, children@)
        } else {
            ContentMeasurementRefresh::Incompatible
        },
        (BlockLayout::Hbox(items), MeasuredLayoutKind::Hbox { widths, children }) => if items@.len()
            == widths@.len() && items@.len() == children@.len() {
            columns_outcome(items@, children@)
        } else {
            ContentMeasurementRefresh::Incompatible
        },
        (BlockLayout::Gutter { child, .. }, MeasuredLayoutKind::Child(inner)) => refresh_outcome(
            *child,
            *inner,
        ),
        (BlockLayout::RowPrefix { child, .. }, MeasuredLayoutKind::Child(inner)) => refresh_outcome(
            *child,
            *inner,
        ),
        (BlockLayout::Panel { child, .. }, MeasuredLayoutKind::Child(inner)) => refresh_outcome(
            *child,
            *inner,
        ),
        (BlockLayout::Style { child, .. }, MeasuredLayoutKind::Child(inner)) => refresh_outcome(
            *child,
            *inner,
        ),
        (BlockLayout::Refresh { child, .. }, MeasuredLayoutKind::Child(inner)) => refresh_outcome(
            *child,
            *inner,
        ),
        (BlockLayout::Cap { .. }, MeasuredLayoutKind::Terminal) => {
            ContentMeasurementRefresh::Updated
        },
        _ => ContentMeasurementRefresh::Incompatible,
    }
}

pub open spec fn stack_outcome(
    items: Seq<LayoutIr>,
    children: Seq<MeasuredLayout>,
) -> ContentMeasurementRefresh
    decreases items,
{
    if items.len() == 0 || children.len() == 0 {
        ContentMeasurementRefresh::Unchanged
    } else {
        stack_outcome(items.drop_last(), children.drop_last()).merged(
            refresh_outcome(items.last(), children.last()),
        )
    }
}

pub open spec fn columns_outcome(
    items: Seq<HboxItem<IrLeaf>>,
    children: Seq<MeasuredLayout>,
) -> ContentMeasurementRefresh
    decreases items,
{
    if items.len() == 0 || children.len() == 0 {
        ContentMeasurementRefresh::Unchanged
    } else {
        columns_outcome(items.drop_last(), children.drop_last()).merged(
            refresh_outcome(items.last().layout, children.last()),
        )
    }
}

/// `after` is `before` with the rows of contents and caps measured anew, and with
/// them the rows of every node above one. A content behind a gutter is measured with it.
pub open spec fn refreshed(
    m: Metrics,
    layout: LayoutIr,
    before: MeasuredLayout,
    after: MeasuredLayout,
    width: u16,
    gutter: u16,
) -> bool
    decreases layout,
{
    let updated = refresh_outcome(layout, before) is Updated;
    match (layout, before.kind) {
        (BlockLayout::Leaf(leaf), MeasuredLayoutKind::Terminal) => {
            &&& after.kind is Terminal
            &&& after.rows == (if leaf is Content {
                (m.leaf_rows)(leaf, width, gutter)
            } else {
                before.rows
            })
        },
        (BlockLayout::Cap { child, spec }, MeasuredLayoutKind::Terminal) => {
            &&& after.kind is Terminal
            &&& after.rows == bounded_cap_rows(m, *child, spec, width, 0)
        },
        (BlockLayout::Vbox(items), MeasuredLayoutKind::Children(old_children)) if items@.len()
            == old_children@.len() => {
            &&& after.kind matches MeasuredLayoutKind::Children(children)
            &&& children@.len() == old_children@.len()
            &&& after.rows == (if updated {
                summed_rows(children@)
            } else {
                before.rows
            })
            &&& forall|i: int|
                0 <= i < items@.len() ==> refreshed(
                    m,
                    #[trigger] items@[i],
                    old_children@[i],
                    children@[i],
                    width,
                    gutter,
                )
        },
        (
            BlockLayout::Hbox(items),
            MeasuredLayoutKind::Hbox { widths: old_widths, children: old_children },
        ) if items@.len() == old_widths@.len() && items@.len() == old_children@.len() => {
            &&& after.kind matches MeasuredLayoutKind::Hbox { widths, children }
            &&& widths == old_widths
            &&& children@.len() == old_children@.len()
            &&& after.rows == (if updated {
                most_rows(children@)
            } else {
                before.rows
            })
            &&& forall|i: int|
                0 <= i < items@.len() ==> refreshed(
                    m,
                    (#[trigger] items@[i]).layout,
                    old_children@[i],
                    children@[i],
                    old_widths@[i],
                    0,
                )
        },
        (BlockLayout::Gutter { child, spec }, MeasuredLayoutKind::Child(old_inner)) => {
            &&& after.kind matches MeasuredLayoutKind::Child(inner)
            &&& after.rows == (if updated {
                inner.rows
            } else {
                before.rows
            })
            &&& refreshed(
                m,
                *child,
                *old_inner,
                *inner,
                after_gutter(width, gutter_cells(spec)),
                gutter_cells(spec),
            )
        },
        (BlockLayout::RowPrefix { child, spec }, MeasuredLayoutKind::Child(old_inner)) => {
            &&& after.kind matches MeasuredLayoutKind::Child(inner)
            &&& after.rows == (if updated {
                match special_rows(m, *child, spec, width) {
                    Some(rows) => rows,
                    None => inner.rows,
                }
            } else {
                before.rows
            })
            &&& refreshed(
                m,
                *child,
                *old_inner,
                *inner,
                after_gutter(width, prefix_cells(spec)),
                gutter,
            )
        },
        (BlockLayout::Panel { child, spec }, MeasuredLayoutKind::Child(old_inner)) => {
            &&& after.kind matches MeasuredLayoutKind::Child(inner)
            &&& after.rows == (if updated {
                inner.rows.saturating_add(both_paddings(spec.padding) as usize)
            } else {
                before.rows
            })
            &&& refreshed(m, *child, *old_inner, *inner, inside_panel(width, spec.padding), 0)
        },
        (BlockLayout::Style { child, .. }, MeasuredLayoutKind::Child(old_inner)) => {
            &&& after.kind matches MeasuredLayoutKind::Child(inner)
            &&& after.rows == (if updated {
                inner.rows
            } else {
                before.rows
            })
            &&& refreshed(m, *child, *old_inner, *inner, width, gutter)
        },
        (BlockLayout::Refresh { child, .. }, MeasuredLayoutKind::Child(old_inner)) => {
            &&& after.kind matches MeasuredLayoutKind::Child(inner)
            &&& after.rows == (if updated {
                inner.rows
            } else {
                before.rows
            })
            &&& refreshed(m, *child, *old_inner, *inner, width, gutter)
        },
        _ => after == before,
    }
}

impl MeasuredLayout {
    /// Rows of the measured layout.
    pub fn rows(&self) -> (rows: usize)
        ensures
            rows == self.rows,
    {
        self.rows
    }

    /// The measurement below a wrapper node.
    pub fn child(&self) -> (child: Option<&Self>)
        ensures
            child == (match self.kind {
                MeasuredLayoutKind::Child(inner) => Some(&*inner),
                _ => None,
            }),
    {
        match &self.kind {
            MeasuredLayoutKind::Child(child) => Some(&**child),
            _ => None,
        }
    }

    /// The measurements below a vbox or hbox.
    pub fn children(&self) -> (children: Option<&Vec<Self>>)
        ensures
            children == (match self.kind {
                MeasuredLayoutKind::Children(children) => Some(&children),
                MeasuredLayoutKind::Hbox { children, .. } => Some(&children),
                _ => None,
            }),
    {
        match &self.kind {
            MeasuredLayoutKind::Children(children) => Some(children),
            MeasuredLayoutKind::Hbox { children, .. } => Some(children),
            _ => None,
        }
    }

    /// The column widths of a measured hbox.
    pub fn hbox_widths(&self) -> (widths: Option<&Vec<u16>>)
        ensures
            widths == (match self.kind {
                MeasuredLayoutKind::Hbox { widths, .. } => Some(&widths),
                _ => None,
            }),
    {
        match &self.kind {
            MeasuredLayoutKind::Hbox { widths, .. } => Some(widths),
            _ => None,
        }
    }
}

fn sum_rows(children: &Vec<MeasuredLayout>) -> (rows: usize)
    ensures
        rows == summed_rows(children@),
{
    let mut rows: usize = 0;
    let mut i: usize = 0;
    while i < children.len()
        invariant
            i <= children@.len(),
            rows == summed_rows(children@.take(i as int)),
        decreases children.len() - i,
    {
        proof {
            assert(children@.take(i + 1).drop_last() =~= children@.take(i as int));
        }
        rows = rows.saturating_add(children[i].rows);
        i += 1;
    }
    proof {
        assert(children@.take(i as int) =~= children@);
    }
    rows
}

fn max_rows(children: &Vec<MeasuredLayout>) -> (rows: usize)
    ensures
        rows == most_rows(children@),
{
    let mut rows: usize = 0;
    let mut i: usize = 0;
    while i < children.len()
        invariant
            i <= children@.len(),
            rows == most_rows(children@.take(i as int)),
        decreases children.len() - i,
    {
        proof {
            assert(children@.take(i + 1).drop_last() =~= children@.take(i as int));
        }
        rows = max_usize(rows, children[i].rows);
        i += 1;
    }
    proof {
        assert(children@.take(i as int) =~= children@);
    }
    rows
}

impl<
    A: Fn(&IrLeaf, u16, u16) -> usize,
    B: Fn(&RunsSpec, &RowPrefixSpec, u16) -> usize,
    C: Fn(&RetainedContentSpec, u16, usize) -> ContentTextWindow,
    D: Fn(u64) -> usize,
    E: Fn(&Vec<Constraint>, &Vec<u16>, u16) -> Vec<u16>,
    F: Fn(&IrLeaf, u16, usize, usize) -> bool,
    G: Fn(&LayoutIr, u16, usize, usize) -> bool,
> LayoutHost<A, B, C, D, E, F, G> {
    /// Measures every node of `layout` at `width`.
    pub fn measure_layout_ir_plan(&self, layout: &LayoutIr, width: u16) -> (measured: MeasuredLayout)
        requires
            self.wf(),
        ensures
            is_plan(self.metrics(), *layout, measured, width, 0),
            measured.rows == layout_rows(self.metrics(), *layout, width, 0),
    {
        let measured = self.measure_layout_ir_plan_with_gutter(layout, width, 0);
        proof {
            plan_has_layout_rows(self.metrics(), *layout, measured, width, 0);
        }
        measured
    }

    /// As [`Self::measure_layout_ir_plan`], behind a gutter.
    pub fn measure_layout_ir_plan_with_gutter(
        &self,
        layout: &LayoutIr,
        width: u16,
        gutter_cells: u16,
    ) -> (measured: MeasuredLayout)
        requires
            self.wf(),
        ensures
            is_plan(self.metrics(), *layout, measured, width, gutter_cells),
        decreases layout,
    {
        let ghost m = self.metrics();
        match layout {
            BlockLayout::Empty => MeasuredLayout { rows: 0, kind: MeasuredLayoutKind::Terminal },
            BlockLayout::Leaf(leaf) => MeasuredLayout {
                rows: self.ask_leaf_rows(leaf, width, gutter_cells),
                kind: MeasuredLayoutKind::Terminal,
            },
            BlockLayout::Vbox(items) => {
                let mut children: Vec<MeasuredLayout> = Vec::new();
                let mut i: usize = 0;
                while i < items.len()
                    invariant
                        self.wf(),
                        m == self.metrics(),
                        decreases_to!(layout => items@),
                        i <= items@.len(),
                        children@.len() == i,
                        forall|j: int|
                            0 <= j < i ==> is_plan(
                                m,
                                #[trigger] items@[j],
                                children@[j],
                                width,
                                gutter_cells,
                            ),
                    decreases items.len() - i,
                {
                    let child = self.measure_layout_ir_plan_with_gutter(
                        &items[i],
                        width,
                        gutter_cells,
                    );
                    children.push(child);
                    i += 1;
                }
                let rows = sum_rows(&children);
                MeasuredLayout { rows, kind: MeasuredLayoutKind::Children(children) }
            },
            BlockLayout::Hbox(items) => {
                let widths = self.solve_ir_hbox_widths(items, width);
                let mut children: Vec<MeasuredLayout> = Vec::new();
                let mut i: usize = 0;
                while i < items.len()
                    invariant
                        self.wf(),
                        m == self.metrics(),
                        decreases_to!(layout => items@),
                        i <= items@.len(),
                        widths@.len() == items@.len(),
                        children@.len() == i,
                        forall|j: int|
                            0 <= j < i ==> is_plan(
                                m,
                                (#[trigger] items@[j]).layout,
                                children@[j],
                                widths@[j],
                                0,
                            ),
                    decreases items.len() - i,
                {
                    proof {
                        assert(decreases_to!(items@ => items@[i as int]));
                        assert(decreases_to!(items@[i as int] => items@[i as int].layout));
                    }
                    let child = self.measure_layout_ir_plan_with_gutter(
                        &items[i].layout,
                        widths[i],
                        0,
                    );
                    children.push(child);
                    i += 1;
                }
                let rows = max_rows(&children);
                MeasuredLayout { rows, kind: MeasuredLayoutKind::Hbox { widths, children } }
            },
            BlockLayout::Gutter { child, spec } => {
                let spec_width = display_width_u16(spec.text.as_str());
                let inner = self.measure_layout_ir_plan_with_gutter(
                    child,
                    child_width_after_gutter(width, spec_width),
                    spec_width,
                );
                MeasuredLayout { rows: inner.rows, kind: MeasuredLayoutKind::Child(Box::new(inner)) }
            },
            BlockLayout::RowPrefix { child, spec } => {
                let child_width = child_width_after_gutter(width, row_prefix_width(spec));
                let inner = self.measure_layout_ir_plan_with_gutter(
                    child,
                    child_width,
                    gutter_cells,
                );
                let rows = match self.measure_row_prefix_special(child, spec, width) {
                    Some(rows) => rows,
                    None => inner.rows,
                };
                MeasuredLayout { rows, kind: MeasuredLayoutKind::Child(Box::new(inner)) }
            },
            BlockLayout::Panel { child, spec } => {
                let inner = self.measure_layout_ir_plan_with_gutter(
                    child,
                    panel_child_width(width, spec.padding),
                    0,
                );
                MeasuredLayout {
                    rows: inner.rows.saturating_add(
                        spec.padding.saturating_add(spec.padding) as usize,
                    ),
                    kind: MeasuredLayoutKind::Child(Box::new(inner)),
                }
            },
            BlockLayout::Style { child, .. } | BlockLayout::Refresh { child, .. } => {
                let inner = self.measure_layout_ir_plan_with_gutter(child, width, gutter_cells);
                MeasuredLayout { rows: inner.rows, kind: MeasuredLayoutKind::Child(Box::new(inner)) }
            },
            BlockLayout::Cap { child, spec } => MeasuredLayout {
                rows: self.measure_bounded_cap_rows(child, spec, width),
                kind: MeasuredLayoutKind::Terminal,
            },
        }
    }

    /// Measures contents and caps anew, in place; `true` where the measurement
    /// fits the layout and has a content or a cap.
    pub fn refresh_layout_ir_content_measurements(
        &self,
        layout: &LayoutIr,
        measured: &mut MeasuredLayout,
        width: u16,
    ) -> (updated: bool)
        requires
            self.wf(),
        ensures
            updated == (refresh_outcome(*layout, *old(measured)) is Updated),
            refreshed(self.metrics(), *layout, *old(measured), *final(measured), width, 0),
    {
        match self.refresh_layout_ir_content_measurements_inner(layout, measured, width, 0) {
            ContentMeasurementRefresh::Updated => true,
            _ => false,
        }
    }

    /// Measures contents and caps anew, in place, behind a gutter of so many cells.
    pub fn refresh_layout_ir_content_measurements_inner(
        &self,
        layout: &LayoutIr,
        measured: &mut MeasuredLayout,
        width: u16,
        gutter: u16,
    ) -> (outcome: ContentMeasurementRefresh)
        requires
            self.wf(),
        ensures
            outcome == refresh_outcome(*layout, *old(measured)),
            refreshed(self.metrics(), *layout, *old(measured), *final(measured), width, gutter),
        decreases layout,
    {
        let ghost m = self.metrics();
        match (layout, &mut measured.kind) {
            (BlockLayout::Empty, MeasuredLayoutKind::Terminal) => {
                ContentMeasurementRefresh::Unchanged
            },
            (BlockLayout::Leaf(leaf), MeasuredLayoutKind::Terminal) => {
                if let IrLeaf::Content(_) = leaf {
                    measured.rows = self.ask_leaf_rows(leaf, width, gutter);
                    ContentMeasurementRefresh::Updated
                } else {
                    ContentMeasurementRefresh::Unchanged
                }
            },
            (BlockLayout::Cap { child, spec }, MeasuredLayoutKind::Terminal) => {
                measured.rows = self.measure_bounded_cap_rows(child, spec, width);
                ContentMeasurementRefresh::Updated
            },
            (BlockLayout::Vbox(items), MeasuredLayoutKind::Children(children)) => {
                if items.len() != children.len() {
                    return ContentMeasurementRefresh::Incompatible;
                }
                let refresh = self.refresh_stack(items, children, width, gutter);
                if refresh == ContentMeasurementRefresh::Updated {
                    measured.rows = sum_rows(children);
                }
                refresh
            },
            (BlockLayout::Hbox(items), MeasuredLayoutKind::Hbox { widths, children }) => {
                if items.len() != widths.len() || items.len() != children.len() {
                    return ContentMeasurementRefresh::Incompatible;
                }
                let refresh = self.refresh_columns(items, children, widths);
                if refresh == ContentMeasurementRefresh::Updated {
                    measured.rows = max_rows(children);
                }
                refresh
            },
            (BlockLayout::Gutter { child, spec }, MeasuredLayoutKind::Child(inner)) => {
                let spec_width = display_width_u16(spec.text.as_str());
                let refresh = self.refresh_layout_ir_content_measurements_inner(
                    child,
                    inner,
                    child_width_after_gutter(width, spec_width),
                    spec_width,
                );
                if refresh == ContentMeasurementRefresh::Updated {
                    measured.rows = inner.rows;
                }
                refresh
            },
            (BlockLayout::RowPrefix { child, spec }, MeasuredLayoutKind::Child(inner)) => {
                let prefix_width = row_prefix_width(spec);
                let refresh = self.refresh_layout_ir_content_measurements_inner(
                    child,
                    inner,
                    child_width_after_gutter(width, prefix_width),
                    gutter,
                );
                if refresh == ContentMeasurementRefresh::Updated {
                    measured.rows = match self.measure_row_prefix_special(child, spec, width) {
                        Some(rows) => rows,
                        None => inner.rows,
                    };
                }
                refresh
            },
            (BlockLayout::Panel { child, spec }, MeasuredLayoutKind::Child(inner)) => {
                let refresh = self.refresh_layout_ir_content_measurements_inner(
                    child,
                    inner,
                    panel_child_width(width, spec.padding),
                    0,
                );
                if refresh == ContentMeasurementRefresh::Updated {
                    measured.rows = inner.rows.saturating_add(
                        spec.padding.saturating_add(spec.padding) as usize,
                    );
                }
                refresh
            },
            (BlockLayout::Style { child, .. }, MeasuredLayoutKind::Child(inner)) => {
                let refresh = self.refresh_layout_ir_content_measurements_inner(
                    child,
                    inner,
                    width,
                    gutter,
                );
                if refresh == ContentMeasurementRefresh::Updated {
                    measured.rows = inner.rows;
                }
                refresh
            },
            (BlockLayout::Refresh { child, .. }, MeasuredLayoutKind::Child(inner)) => {
                let refresh = self.refresh_layout_ir_content_measurements_inner(
                    child,
                    inner,
                    width,
                    gutter,
                );
                if refresh == ContentMeasurementRefresh::Updated {
                    measured.rows = inner.rows;
                }
                refresh
            },
            _ => ContentMeasurementRefresh::Incompatible,
        }
    }

    fn refresh_stack(
        &self,
        items: &Vec<LayoutIr>,
        children: &mut Vec<MeasuredLayout>,
        width: u16,
        gutter: u16,
    ) -> (outcome: ContentMeasurementRefresh)
        requires
            self.wf(),
            items@.len() == old(children)@.len(),
        ensures
            outcome == stack_outcome(items@, old(children)@),
            final(children)@.len() == items@.len(),
            forall|i: int|
                0 <= i < items@.len() ==> refreshed(
                    self.metrics(),
                    #[trigger] items@[i],
                    old(children)@[i],
                    final(children)@[i],
                    width,
                    gutter,
                ),
        decreases items,
    {
        let ghost m = self.metrics();
        let ghost before = children@;
        let mut outcome = ContentMeasurementRefresh::Unchanged;
        let mut i: usize = 0;
        while i < items.len()
            invariant
                self.wf(),
                m == self.metrics(),
                decreases_to!(items => items@),
                i <= items@.len(),
                children@.len() == items@.len(),
                before.len() == items@.len(),
                before == old(children)@,
                forall|j: int| i <= j < items@.len() ==> children@[j] == before[j],
                forall|j: int|
                    0 <= j < i ==> refreshed(
                        m,
                        #[trigger] items@[j],
                        before[j],
                        children@[j],
                        width,
                        gutter,
                    ),
                outcome == stack_outcome(items@.take(i as int), before.take(i as int)),
            decreases items.len() - i,
        {
            proof {
                assert(items@.take(i + 1).drop_last() =~= items@.take(i as int));
                assert(before.take(i + 1).drop_last() =~= before.take(i as int));
            }
            outcome = outcome.merge(
                self.refresh_layout_ir_content_measurements_inner(
                    &items[i],
                    &mut children[i],
                    width,
                    gutter,
                ),
            );
            i += 1;
        }
        proof {
            assert(items@.take(i as int) =~= items@);
            assert(before.take(i as int) =~= before);
        }
        outcome
    }

    fn refresh_columns(
        &self,
        items: &Vec<HboxItem<IrLeaf>>,
        children: &mut Vec<MeasuredLayout>,
        widths: &Vec<u16>,
    ) -> (outcome: ContentMeasurementRefresh)
        requires
            self.wf(),
            items@.len() == old(children)@.len(),
            items@.len() == widths@.len(),
        ensures
            outcome == columns_outcome(items@, old(children)@),
            final(children)@.len() == items@.len(),
            forall|i: int|
                0 <= i < items@.len() ==> refreshed(
                    self.metrics(),
                    (#[trigger] items@[i]).layout,
                    old(children)@[i],
                    final(children)@[i],
                    widths@[i],
                    0,
                ),
        decreases items,
    {
        let ghost m = self.metrics();
        let ghost before = children@;
        let mut outcome = ContentMeasurementRefresh::Unchanged;
        let mut i: usize = 0;
        while i < items.len()
            invariant
                self.wf(),
                m == self.metrics(),
                decreases_to!(items => items@),
                i <= items@.len(),
                widths@.len() == items@.len(),
                children@.len() == items@.len(),
                before.len() == items@.len(),
                before == old(children)@,
                forall|j: int| i <= j < items@.len() ==> children@[j] == before[j],
                forall|j: int|
                    0 <= j < i ==> refreshed(
                        m,
                        (#[trigger] items@[j]).layout,
                        before[j],
                        children@[j],
                        widths@[j],
                        0,
                    ),
                outcome == columns_outcome(items@.take(i as int), before.take(i as int)),
            decreases items.len() - i,
        {
            proof {
                assert(items@.take(i + 1).drop_last() =~= items@.take(i as int));
                assert(before.take(i + 1).drop_last() =~= before.take(i as int));
                assert(decreases_to!(items@ => items@[i as int]));
                assert(decreases_to!(items@[i as int] => items@[i as int].layout));
            }
            outcome = outcome.merge(
                self.refresh_layout_ir_content_measurements_inner(
                    &items[i].layout,
                    &mut children[i],
                    widths[i],
                    0,
                ),
            );
            i += 1;
        }
        proof {
            assert(items@.take(i as int) =~= items@);
            assert(before.take(i as int) =~= before);
        }
        outcome
    }
}

/// The rows of a plan are the rows of the layout that it was made for.
pub proof fn plan_has_layout_rows(
    m: Metrics,
    layout: LayoutIr,
    measured: MeasuredLayout,
    width: u16,
    gutter: u16,
)
    requires
        is_plan(m, layout, measured, width, gutter),
    ensures
        measured.rows == layout_rows(m, layout, width, gutter),
    decreases layout,
{
    match layout {
        BlockLayout::Vbox(items) => {
            let children = measured.kind->Children_0;
            assert forall|i: int| 0 <= i < items@.len() implies (#[trigger] children@[i]).rows
                == layout_rows(m, items@[i], width, gutter) by {
                plan_has_layout_rows(m, items@[i], children@[i], width, gutter);
            }
            lemma_summed_rows(m, items@, children@, width, gutter);
        },
        BlockLayout::Hbox(items) => {
            let children = measured.kind->Hbox_children;
            let widths = measured.kind->Hbox_widths;
            assert forall|i: int| 0 <= i < items@.len() implies (#[trigger] children@[i]).rows
                == layout_rows(m, items@[i].layout, widths@[i], 0) by {
                assert(is_plan(m, items@[i].layout, children@[i], widths@[i], 0));
                plan_has_layout_rows(m, items@[i].layout, children@[i], widths@[i], 0);
            }
            lemma_most_rows(m, items@, children@, widths@);
        },
        BlockLayout::Gutter { child, spec } => {
            plan_has_layout_rows(
                m,
                *child,
                *measured.kind->Child_0,
                after_gutter(width, gutter_cells(spec)),
                gutter_cells(spec),
            );
        },
        BlockLayout::RowPrefix { child, spec } => {
            plan_has_layout_rows(
                m,
                *child,
                *measured.kind->Child_0,
                after_gutter(width, prefix_cells(spec)),
                gutter,
            );
        },
        BlockLayout::Panel { child, spec } => {
            plan_has_layout_rows(
                m,
                *child,
                *measured.kind->Child_0,
                inside_panel(width, spec.padding),
                0,
            );
        },
        BlockLayout::Style { child, .. } => {
            plan_has_layout_rows(m, *child, *measured.kind->Child_0, width, gutter);
        },
        BlockLayout::Refresh { child, .. } => {
            plan_has_layout_rows(m, *child, *measured.kind->Child_0, width, gutter);
        },
        _ => {},
    }
}

proof fn lemma_summed_rows(
    m: Metrics,
    items: Seq<LayoutIr>,
    children: Seq<MeasuredLayout>,
    width: u16,
    gutter: u16,
)
    requires
        items.len() == children.len(),
        forall|i: int|
            0 <= i < items.len() ==> (#[trigger] children[i]).rows == layout_rows(
                m,
                items[i],
                width,
                gutter,
            ),
    ensures
        summed_rows(children) == stacked_rows(m, items, width, gutter),
    decreases items.len(),
{
    if items.len() > 0 {
        lemma_summed_rows(m, items.drop_last(), children.drop_last(), width, gutter);
    }
}

proof fn lemma_most_rows(
    m: Metrics,
    items: Seq<HboxItem<IrLeaf>>,
    children: Seq<MeasuredLayout>,
    widths: Seq<u16>,
)
    requires
        items.len() == children.len(),
        forall|i: int|
            0 <= i < items.len() ==> (#[trigger] children[i]).rows == layout_rows(
                m,
                items[i].layout,
                widths[i],
                0,
            ),
    ensures
        most_rows(children) == tallest_rows(m, items, widths),
    decreases items.len(),
{
    if items.len() > 0 {
        lemma_most_rows(m, items.drop_last(), children.drop_last(), widths);
    }
}

/// `a` and `b` differ at most in what they say of contents.
pub open spec fn same_but_contents(a: Metrics, b: Metrics) -> bool {
    &&& forall|leaf: IrLeaf, width: u16, gutter: u16|
        #![trigger (b.leaf_rows)(leaf, width, gutter)]
        !(leaf is Content) ==> (a.leaf_rows)(leaf, width, gutter) == (b.leaf_rows)(
            leaf,
            width,
            gutter,
        )
    &&& a.prefix_rows == b.prefix_rows
    &&& a.widths == b.widths
}

proof fn lemma_special_rows_same(
    a: Metrics,
    b: Metrics,
    child: LayoutIr,
    prefix: RowPrefixSpec,
    width: u16,
)
    requires
        same_but_contents(a, b),
    ensures
        special_rows(a, child, prefix, width) == special_rows(b, child, prefix, width),
{
    if let BlockLayout::Cap { child: inner, .. } = child {
        if let BlockLayout::Leaf(IrLeaf::Runs(_)) = *inner {
            assert(layout_size(a, *inner) == layout_size(b, *inner));
            assert(fits_exact(a, *inner) == fits_exact(b, *inner));
        }
    }
}

proof fn lemma_stack_outcome(items: Seq<LayoutIr>, children: Seq<MeasuredLayout>, i: int)
    requires
        items.len() == children.len(),
        0 <= i < items.len(),
    ensures
        stack_outcome(items, children) is Unchanged ==> refresh_outcome(
            items[i],
            children[i],
        ) is Unchanged,
    decreases items.len(),
{
    if i < items.len() - 1 {
        lemma_stack_outcome(items.drop_last(), children.drop_last(), i);
    }
}

proof fn lemma_columns_outcome(items: Seq<HboxItem<IrLeaf>>, children: Seq<MeasuredLayout>, i: int)
    requires
        items.len() == children.len(),
        0 <= i < items.len(),
    ensures
        columns_outcome(items, children) is Unchanged ==> refresh_outcome(
            items[i].layout,
            children[i],
        ) is Unchanged,
    decreases items.len(),
{
    if i < items.len() - 1 {
        lemma_columns_outcome(items.drop_last(), children.drop_last(), i);
    }
}

proof fn lemma_stack_compatible(items: Seq<LayoutIr>, children: Seq<MeasuredLayout>)
    requires
        items.len() == children.len(),
        forall|i: int|
            0 <= i < items.len() ==> !(refresh_outcome(
                #[trigger] items[i],
                children[i],
            ) is Incompatible),
    ensures
        !(stack_outcome(items, children) is Incompatible),
    decreases items.len(),
{
    if items.len() > 0 {
        assert(!(refresh_outcome(items[items.len() - 1], children.last()) is Incompatible));
        assert forall|i: int| 0 <= i < items.len() - 1 implies !(refresh_outcome(
            #[trigger] items.drop_last()[i],
            children.drop_last()[i],
        ) is Incompatible) by {
            assert(items.drop_last()[i] == items[i]);
        }
        lemma_stack_compatible(items.drop_last(), children.drop_last());
    }
}

proof fn lemma_columns_compatible(items: Seq<HboxItem<IrLeaf>>, children: Seq<MeasuredLayout>)
    requires
        items.len() == children.len(),
        forall|i: int|
            0 <= i < items.len() ==> !(refresh_outcome(
                (#[trigger] items[i]).layout,
                children[i],
            ) is Incompatible),
    ensures
        !(columns_outcome(items, children) is Incompatible),
    decreases items.len(),
{
    if items.len() > 0 {
        assert(!(refresh_outcome(items[items.len() - 1].layout, children.last()) is Incompatible));
        assert forall|i: int| 0 <= i < items.len() - 1 implies !(refresh_outcome(
            (#[trigger] items.drop_last()[i]).layout,
            children.drop_last()[i],
        ) is Incompatible) by {
            assert(items.drop_last()[i] == items[i]);
        }
        lemma_columns_compatible(items.drop_last(), children.drop_last());
    }
}

proof fn lemma_same_rows(a: Seq<MeasuredLayout>, b: Seq<MeasuredLayout>)
    requires
        a.len() == b.len(),
        forall|i: int| 0 <= i < a.len() ==> (#[trigger] a[i]).rows == b[i].rows,
    ensures
        summed_rows(a) == summed_rows(b),
        most_rows(a) == most_rows(b),
    decreases a.len(),
{
    if a.len() > 0 {
        assert(a.last().rows == b.last().rows) by {
            assert(a[a.len() - 1].rows == b[a.len() - 1].rows);
        }
        assert forall|i: int| 0 <= i < a.len() - 1 implies (#[trigger] a.drop_last()[i]).rows
            == b.drop_last()[i].rows by {
            assert(a.drop_last()[i] == a[i]);
        }
        lemma_same_rows(a.drop_last(), b.drop_last());
    }
}

/// Refreshing equals rebuilding: where only contents have changed since a plan was
/// made, refreshing it yields a plan for what they are now.
pub proof fn refresh_equals_rebuild(
    earlier: Metrics,
    m: Metrics,
    layout: LayoutIr,
    before: MeasuredLayout,
    after: MeasuredLayout,
    width: u16,
    gutter: u16,
)
    requires
        same_but_contents(earlier, m),
        is_plan(earlier, layout, before, width, gutter),
        refreshed(m, layout, before, after, width, gutter),
    ensures
        is_plan(m, layout, after, width, gutter),
        !(refresh_outcome(layout, before) is Incompatible),
        refresh_outcome(layout, before) is Unchanged ==> after.rows == before.rows,
    decreases layout,
{
    match layout {
        BlockLayout::Vbox(items) => {
            let old_children = before.kind->Children_0;
            let children = after.kind->Children_0;
            assert forall|i: int| 0 <= i < items@.len() implies {
                &&& is_plan(m, #[trigger] items@[i], children@[i], width, gutter)
                &&& !(refresh_outcome(items@[i], old_children@[i]) is Incompatible)
                &&& refresh_outcome(items@[i], old_children@[i]) is Unchanged
                    ==> children@[i].rows == old_children@[i].rows
            } by {
                refresh_equals_rebuild(
                    earlier,
                    m,
                    items@[i],
                    old_children@[i],
                    children@[i],
                    width,
                    gutter,
                );
            }
            lemma_stack_compatible(items@, old_children@);
            if stack_outcome(items@, old_children@) is Unchanged {
                assert forall|i: int| 0 <= i < children@.len() implies (
                #[trigger] children@[i]).rows == old_children@[i].rows by {
                    lemma_stack_outcome(items@, old_children@, i);
                    assert(is_plan(m, items@[i], children@[i], width, gutter));
                }
                lemma_same_rows(children@, old_children@);
            }
        },
        BlockLayout::Hbox(items) => {
            let old_children = before.kind->Hbox_children;
            let children = after.kind->Hbox_children;
            let widths = before.kind->Hbox_widths;
            assert forall|i: int| 0 <= i < items@.len() implies {
                &&& is_plan(m, (#[trigger] items@[i]).layout, children@[i], widths@[i], 0)
                &&& !(refresh_outcome(items@[i].layout, old_children@[i]) is Incompatible)
                &&& refresh_outcome(items@[i].layout, old_children@[i]) is Unchanged
                    ==> children@[i].rows == old_children@[i].rows
            } by {
                refresh_equals_rebuild(
                    earlier,
                    m,
                    items@[i].layout,
                    old_children@[i],
                    children@[i],
                    widths@[i],
                    0,
                );
            }
            lemma_columns_compatible(items@, old_children@);
            if columns_outcome(items@, old_children@) is Unchanged {
                assert forall|i: int| 0 <= i < children@.len() implies (
                #[trigger] children@[i]).rows == old_children@[i].rows by {
                    lemma_columns_outcome(items@, old_children@, i);
                    assert(is_plan(m, items@[i].layout, children@[i], widths@[i], 0));
                }
                lemma_same_rows(children@, old_children@);
            }
        },
        BlockLayout::Gutter { child, spec } => {
            refresh_equals_rebuild(
                earlier,
                m,
                *child,
                *before.kind->Child_0,
                *after.kind->Child_0,
                after_gutter(width, gutter_cells(spec)),
                gutter_cells(spec),
            );
        },
        BlockLayout::RowPrefix { child, spec } => {
            refresh_equals_rebuild(
                earlier,
                m,
                *child,
                *before.kind->Child_0,
                *after.kind->Child_0,
                after_gutter(width, prefix_cells(spec)),
                gutter,
            );
            lemma_special_rows_same(earlier, m, *child, spec, width);
        },
        BlockLayout::Panel { child, spec } => {
            refresh_equals_rebuild(
                earlier,
                m,
                *child,
                *before.kind->Child_0,
                *after.kind->Child_0,
                inside_panel(width, spec.padding),
                0,
            );
        },
        BlockLayout::Style { child, .. } => {
            refresh_equals_rebuild(
                earlier,
                m,
                *child,
                *before.kind->Child_0,
                *after.kind->Child_0,
                width,
                gutter,
            );
        },
        BlockLayout::Refresh { child, .. } => {
            refresh_equals_rebuild(
                earlier,
                m,
                *child,
                *before.kind->Child_0,
                *after.kind->Child_0,
                width,
                gutter,
            );
        },
        _ => {},
    }
}

} // verus!
