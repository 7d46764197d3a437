//! What holds of drawing a layout as a whole.
use vstd::prelude::*;
use crate::cap_laws::{cap_draws_its_rows, cap_rows_are_drawn};
use crate::cap_rows::capped;
use crate::edges::{cells, text_cap_body, text_leaf};
use crate::host::Metrics;
use crate::ir::{BlockLayout, CapKeep, CapMarker, CapSpec, GutterSpec, HboxItem, IrLeaf, LayoutIr};
use crate::measure::{
    bounded_cap_rows, edge_columns, edge_stack, edge_window, keep_has_marker, layout_rows,
};
use crate::plan::{is_plan, summed_rows, MeasuredLayout, MeasuredLayoutKind};
use crate::render::{
    cap_range, hbox_range, panel_range, range_rows, row_prefix_range, same_shape, special_child,
    stack_range, RenderMeasurement, SpecialChild,
};
use crate::text::spec_min;
use crate::widths::{
    after_gutter, both_paddings, gutter_cells, hbox_widths, inside_panel, prefix_cells,
    some_gutter_cells,
};

verus! {

/// A host never answers with more rows of a content than it was asked for.
pub open spec fn edges_bounded(m: Metrics) -> bool {
    forall|content: crate::ir::RetainedContentSpec, width: u16, max_rows: usize|
        (#[trigger] (m.edge)(content, width, max_rows)).row_count <= max_rows
}

/// A bounded measurement never reports more rows than it was asked for, and a cap
/// never takes more rows than it keeps, and one for its marker.
pub proof fn bounded_measure_keeps_its_bound(
    m: Metrics,
    layout: LayoutIr,
    width: u16,
    max_rows: usize,
    depth: usize,
)
    requires
        edges_bounded(m),
    ensures
        edge_window(m, layout, width, max_rows, depth).row_count <= max_rows,
    decreases layout, 0nat,
{
    let below = (depth + 1) as usize;
    if depth <= crate::budget::MAX_BOUNDED_EDGE_DEPTH {
        match layout {
            BlockLayout::Vbox(items) => {
                lemma_edge_stack_bound(m, items@, width, max_rows, 0, below);
            },
            BlockLayout::Hbox(items) => {
                lemma_edge_columns_bound(
                    m,
                    items@,
                    hbox_widths(m, items@, width),
                    max_rows,
                    below,
                );
            },
            BlockLayout::Gutter { child, spec } => {
                bounded_measure_keeps_its_bound(
                    m,
                    *child,
                    after_gutter(width, gutter_cells(spec)),
                    max_rows,
                    below,
                );
            },
            BlockLayout::RowPrefix { child, spec } => {
                bounded_measure_keeps_its_bound(
                    m,
                    *child,
                    after_gutter(width, prefix_cells(spec)),
                    max_rows,
                    below,
                );
            },
            BlockLayout::Panel { child, spec } => {
                if spec.padding < max_rows {
                    bounded_measure_keeps_its_bound(
                        m,
                        *child,
                        inside_panel(width, spec.padding),
                        (max_rows - spec.padding) as usize,
                        below,
                    );
                }
            },
            BlockLayout::Style { child, .. } => {
                bounded_measure_keeps_its_bound(m, *child, width, max_rows, below);
            },
            BlockLayout::Refresh { child, .. } => {
                bounded_measure_keeps_its_bound(m, *child, width, max_rows, below);
            },
            _ => {},
        }
    }
}

proof fn lemma_edge_stack_bound(
    m: Metrics,
    items: Seq<LayoutIr>,
    width: u16,
    max_rows: usize,
    above: usize,
    depth: usize,
)
    requires
        edges_bounded(m),
        above <= max_rows,
    ensures
        edge_stack(m, items, width, max_rows, above, depth).row_count <= max_rows,
    decreases items, 0nat,
{
    if items.len() > 0 && above < max_rows {
        let remaining = (max_rows - above) as usize;
        bounded_measure_keeps_its_bound(m, items[0], width, remaining, depth);
        let child = edge_window(m, items[0], width, remaining, depth);
        if !child.truncated {
            lemma_edge_stack_bound(
                m,
                items.drop_first(),
                width,
                max_rows,
                (above + child.row_count) as usize,
                depth,
            );
        }
    }
}

proof fn lemma_edge_columns_bound(
    m: Metrics,
    items: Seq<HboxItem<IrLeaf>>,
    widths: Seq<u16>,
    max_rows: usize,
    depth: usize,
)
    requires
        edges_bounded(m),
    ensures
        edge_columns(m, items, widths, max_rows, depth).row_count <= max_rows,
    decreases items, 0nat,
{
    if items.len() > 0 {
        lemma_edge_columns_bound(m, items.drop_last(), widths, max_rows, depth);
        bounded_measure_keeps_its_bound(
            m,
            items.last().layout,
            widths[items.len() - 1],
            max_rows,
            depth,
        );
    }
}

/// A cap never takes more rows than it keeps, and one for its marker.
pub proof fn cap_keeps_its_rows(
    m: Metrics,
    child: LayoutIr,
    spec: CapSpec,
    width: u16,
    depth: usize,
)
    ensures
        bounded_cap_rows(m, child, spec, width, depth) <= spec.rows + 1,
{
    let n = layout_rows(m, child, width, 0) as int;
    assert(capped(n, spec, true).len() <= spec.rows + 1);
    assert(capped(n, spec, false).len() <= spec.rows + 1);
}

/// How many of `total` rows lie in `start .. start + count`.
pub open spec fn rows_within(total: int, start: int, count: int) -> int {
    if start >= total {
        0
    } else if total - start < count {
        total - start
    } else {
        count
    }
}

/// Rows of the children from the `i`-th on.
pub open spec fn rows_from(children: Seq<MeasuredLayout>, i: int) -> int
    decreases children.len() - i,
{
    if i >= children.len() {
        0
    } else {
        children[i].rows + rows_from(children, i + 1)
    }
}

/// `measured` holds the rows that are drawn of `layout`, in every node on which the
/// number of rows drawn depends.
pub open spec fn true_to(
    m: Metrics,
    layout: &LayoutIr,
    measured: MeasuredLayout,
    width: u16,
    gutter: Option<&GutterSpec>,
) -> bool
    decreases *layout,
{
    match layout {
        BlockLayout::Empty => measured.rows == 0,
        BlockLayout::Leaf(leaf) => measured.rows == (m.leaf_rows)(
            *leaf,
            width,
            some_gutter_cells(gutter),
        ),
        BlockLayout::Vbox(items) => {
            &&& measured.kind matches MeasuredLayoutKind::Children(children)
            &&& children@.len() == items@.len()
            &&& measured.rows == rows_from(children@, 0)
            &&& forall|i: int|
                0 <= i < items@.len() ==> true_to(
                    m,
                    &#[trigger] items@[i],
                    children@[i],
                    width,
                    gutter,
                )
        },
        BlockLayout::Hbox(items) => true,
        BlockLayout::Panel { child, spec } => {
            &&& measured.kind matches MeasuredLayoutKind::Child(inner)
            &&& measured.rows == inner.rows.saturating_add(both_paddings(spec.padding) as usize)
        },
        BlockLayout::Gutter { child, spec } => {
            &&& measured.kind matches MeasuredLayoutKind::Child(inner)
            &&& measured.rows == inner.rows
            &&& true_to(m, child, *inner, after_gutter(width, gutter_cells(*spec)), Some(spec))
        },
        BlockLayout::RowPrefix { child, spec } => {
            &&& measured.kind matches MeasuredLayoutKind::Child(inner)
            &&& match special_child(m, **child) {
                SpecialChild::Runs(runs) => measured.rows == (m.prefix_rows)(runs, *spec, width),
                SpecialChild::CappedRuns(runs, cap) => measured.rows == capped(
                    (m.prefix_rows)(runs, *spec, width) as int,
                    cap,
                    true,
                ).len(),
                SpecialChild::Other => {
                    &&& measured.rows == inner.rows
                    &&& true_to(m, child, *inner, after_gutter(width, prefix_cells(*spec)), None)
                },
            }
        },
        BlockLayout::Style { child, .. } => {
            &&& measured.kind matches MeasuredLayoutKind::Child(inner)
            &&& measured.rows == inner.rows
            &&& true_to(m, child, *inner, width, gutter)
        },
        BlockLayout::Refresh { child, .. } => {
            &&& measured.kind matches MeasuredLayoutKind::Child(inner)
            &&& measured.rows == inner.rows
            &&& true_to(m, child, *inner, width, gutter)
        },
        BlockLayout::Cap { child, spec } => {
            &&& measured.rows == bounded_cap_rows(m, **child, *spec, width, 0)
            &&& cap_rows_are_drawn(m, **child, *spec, width)
        },
    }
}

/// As many rows are drawn as were measured: exactly those that the measured layout has in the
/// range, if these can be counted in 16 bits.
pub proof fn drawn_rows_match_measured(
    m: Metrics,
    layout: &LayoutIr,
    measured: MeasuredLayout,
    width: u16,
    start: usize,
    count: usize,
    gutter: Option<&GutterSpec>,
)
    requires
        same_shape(*layout, measured),
        true_to(m, layout, measured, width, gutter),
        rows_within(measured.rows as int, start as int, count as int) <= u16::MAX,
    ensures
        range_rows(
            m,
            layout,
            width,
            start,
            count,
            gutter,
            RenderMeasurement::Measured(&measured),
        ).len() == rows_within(measured.rows as int, start as int, count as int),
    decreases *layout, 0int,
{
    if count > 0 {
        match layout {
            BlockLayout::Vbox(items) => {
                assert(items@.skip(0) =~= items@);
                lemma_stack_count(m, items@, measured, width, start, count, gutter, 0, 0);
            },
            BlockLayout::Hbox(items) => {
                let by = RenderMeasurement::Measured(&measured);
                assert(hbox_range(m, items@, width, start, count, gutter, by).len() == rows_within(
                    measured.rows as int,
                    start as int,
                    count as int,
                ));
            },
            BlockLayout::Panel { child, spec } => {
                let by = RenderMeasurement::Measured(&*measured.kind->Child_0);
                assert(panel_range(m, child, spec, width, start, count, gutter, by).len()
                    == rows_within(measured.rows as int, start as int, count as int));
            },
            BlockLayout::Gutter { child, spec } => {
                drawn_rows_match_measured(
                    m,
                    child,
                    *measured.kind->Child_0,
                    after_gutter(width, gutter_cells(*spec)),
                    start,
                    count,
                    Some(spec),
                );
            },
            BlockLayout::RowPrefix { child, spec } => {
                if special_child(m, **child) is Other {
                    drawn_rows_match_measured(
                        m,
                        child,
                        *measured.kind->Child_0,
                        after_gutter(width, prefix_cells(*spec)),
                        start,
                        count,
                        None,
                    );
                }
                let by = RenderMeasurement::Measured(&*measured.kind->Child_0);
                assert(row_prefix_range(m, child, spec, width, start, count, gutter, by).len()
                    == rows_within(measured.rows as int, start as int, count as int));
            },
            BlockLayout::Style { child, .. } => {
                drawn_rows_match_measured(
                    m,
                    child,
                    *measured.kind->Child_0,
                    width,
                    start,
                    count,
                    gutter,
                );
            },
            BlockLayout::Refresh { child, .. } => {
                drawn_rows_match_measured(
                    m,
                    child,
                    *measured.kind->Child_0,
                    width,
                    start,
                    count,
                    gutter,
                );
            },
            BlockLayout::Cap { child, spec } => {
                cap_draws_its_rows(m, child, *spec, width, start, count, gutter);
            },
            _ => {},
        }
    }
}

pub proof fn lemma_stack_count(
    m: Metrics,
    all: Seq<LayoutIr>,
    measured: MeasuredLayout,
    width: u16,
    skipped: usize,
    count: usize,
    gutter: Option<&GutterSpec>,
    index: int,
    written: int,
)
    requires
        measured.kind is Children,
        measured.kind->Children_0@.len() == all.len(),
        0 <= index <= all.len(),
        0 <= written <= count,
        written < count || skipped == 0,
        written + rows_within(
            rows_from(measured.kind->Children_0@, index),
            skipped as int,
            count - written,
        ) <= u16::MAX,
        forall|i: int|
            0 <= i < all.len() ==> same_shape(#[trigger] all[i], measured.kind->Children_0@[i]),
        forall|i: int|
            0 <= i < all.len() ==> true_to(
                m,
                &#[trigger] all[i],
                measured.kind->Children_0@[i],
                width,
                gutter,
            ),
    ensures
        stack_range(
            m,
            all.skip(index),
            width,
            skipped,
            count,
            gutter,
            RenderMeasurement::Measured(&measured),
            index,
            written,
        ).len() == rows_within(
            rows_from(measured.kind->Children_0@, index),
            skipped as int,
            count - written,
        ),
    decreases all, all.len() - index,
{
    let children = measured.kind->Children_0@;
    lemma_rows_from_nonnegative(children, index);
    if index < all.len() && written < count {
        assert(all.skip(index)[0] == all[index]);
        assert(all.skip(index).drop_first() =~= all.skip(index + 1));
        lemma_rows_from_nonnegative(children, index + 1);
        let rows = children[index].rows;
        if skipped >= rows {
            lemma_stack_count(
                m,
                all,
                measured,
                width,
                (skipped - rows) as usize,
                count,
                gutter,
                index + 1,
                written,
            );
        } else {
            let wanted = spec_min((count - written) as usize, (rows - skipped) as usize);
            drawn_rows_match_measured(
                m,
                &all[index],
                children[index],
                width,
                skipped,
                wanted,
                gutter,
            );
            lemma_stack_count(
                m,
                all,
                measured,
                width,
                0,
                count,
                gutter,
                index + 1,
                written + wanted,
            );
        }
    }
}

pub proof fn lemma_rows_from_nonnegative(children: Seq<MeasuredLayout>, i: int)
    ensures
        rows_from(children, i) >= 0,
    decreases children.len() - i,
{
    if i < children.len() {
        lemma_rows_from_nonnegative(children, i + 1);
    }
}

/// No leaf of `layout` has other rows behind the gutter than without.
pub open spec fn gutter_free(m: Metrics, layout: LayoutIr, width: u16, gutter: u16) -> bool
    decreases layout,
{
    match layout {
        BlockLayout::Leaf(leaf) => (m.leaf_rows)(leaf, width, gutter) == (m.leaf_rows)(
            leaf,
            width,
            0,
        ),
        BlockLayout::Vbox(items) => forall|i: int|
            0 <= i < items@.len() ==> gutter_free(m, #[trigger] items@[i], width, gutter),
        BlockLayout::RowPrefix { child, spec } => gutter_free(
            m,
            *child,
            after_gutter(width, prefix_cells(spec)),
            gutter,
        ),
        BlockLayout::Style { child, .. } => gutter_free(m, *child, width, gutter),
        BlockLayout::Refresh { child, .. } => gutter_free(m, *child, width, gutter),
        _ => true,
    }
}

/// Rows of the children from the `i`-th on, however many that are.
pub open spec fn all_rows_from(
    m: Metrics,
    items: Seq<LayoutIr>,
    width: u16,
    gutter: u16,
    i: int,
) -> int
    decreases items.len() - i,
{
    if i >= items.len() {
        0
    } else {
        layout_rows(m, items[i], width, gutter) + all_rows_from(m, items, width, gutter, i + 1)
    }
}

/// Nothing in `layout` is drawn with other rows than it is measured with: a vbox has
/// no more rows than a machine can count, a leaf between a gutter and a row prefix
/// does not wrap differently for the gutter, and nothing keeps a cap from drawing the rows
/// that it has.
pub open spec fn draws_as_measured(
    m: Metrics,
    layout: &LayoutIr,
    width: u16,
    gutter: Option<&GutterSpec>,
) -> bool
    decreases *layout,
{
    match layout {
        BlockLayout::Vbox(items) => {
            &&& all_rows_from(m, items@, width, some_gutter_cells(gutter), 0) <= usize::MAX
            &&& forall|i: int|
                0 <= i < items@.len() ==> draws_as_measured(
                    m,
                    &#[trigger] items@[i],
                    width,
                    gutter,
                )
        },
        BlockLayout::Gutter { child, spec } => draws_as_measured(
            m,
            child,
            after_gutter(width, gutter_cells(*spec)),
            Some(spec),
        ),
        BlockLayout::RowPrefix { child, spec } => special_child(m, **child) is Other ==> {
            &&& gutter_free(
                m,
                **child,
                after_gutter(width, prefix_cells(*spec)),
                some_gutter_cells(gutter),
            )
            &&& draws_as_measured(m, child, after_gutter(width, prefix_cells(*spec)), None)
        },
        BlockLayout::Style { child, .. } => draws_as_measured(m, child, width, gutter),
        BlockLayout::Refresh { child, .. } => draws_as_measured(m, child, width, gutter),
        BlockLayout::Cap { child, spec } => cap_rows_are_drawn(m, **child, *spec, width),
        _ => true,
    }
}

pub proof fn lemma_plan_without_gutter(
    m: Metrics,
    layout: LayoutIr,
    measured: MeasuredLayout,
    width: u16,
    gutter: u16,
)
    requires
        is_plan(m, layout, measured, width, gutter),
        gutter_free(m, layout, width, gutter),
    ensures
        is_plan(m, layout, measured, width, 0),
    decreases layout,
{
    match layout {
        BlockLayout::Vbox(items) => {
            let children = measured.kind->Children_0;
            assert forall|i: int| 0 <= i < items@.len() implies is_plan(
                m,
                #[trigger] items@[i],
                children@[i],
                width,
                0,
            ) by {
                lemma_plan_without_gutter(m, items@[i], children@[i], width, gutter);
            }
        },
        BlockLayout::RowPrefix { child, spec } => {
            lemma_plan_without_gutter(
                m,
                *child,
                *measured.kind->Child_0,
                after_gutter(width, prefix_cells(spec)),
                gutter,
            );
        },
        BlockLayout::Style { child, .. } => {
            lemma_plan_without_gutter(m, *child, *measured.kind->Child_0, width, gutter);
        },
        BlockLayout::Refresh { child, .. } => {
            lemma_plan_without_gutter(m, *child, *measured.kind->Child_0, width, gutter);
        },
        _ => {},
    }
}

/// A plan has a place for every node of the layout that it was made for.
pub proof fn plan_has_same_shape(
    m: Metrics,
    layout: LayoutIr,
    measured: MeasuredLayout,
    width: u16,
    gutter: u16,
)
    requires
        is_plan(m, layout, measured, width, gutter),
    ensures
        same_shape(layout, measured),
    decreases layout,
{
    match layout {
        BlockLayout::Vbox(items) => {
            let children = measured.kind->Children_0;
            assert forall|i: int| 0 <= i < items@.len() implies same_shape(
                #[trigger] items@[i],
                children@[i],
            ) by {
                plan_has_same_shape(m, items@[i], children@[i], width, gutter);
            }
        },
        BlockLayout::Hbox(items) => {
            let children = measured.kind->Hbox_children;
            let widths = measured.kind->Hbox_widths;
            assert forall|i: int| 0 <= i < items@.len() implies same_shape(
                (#[trigger] items@[i]).layout,
                children@[i],
            ) by {
                plan_has_same_shape(m, items@[i].layout, children@[i], widths@[i], 0);
            }
        },
        BlockLayout::Gutter { child, spec } => {
            plan_has_same_shape(
                m,
                *child,
                *measured.kind->Child_0,
                after_gutter(width, gutter_cells(spec)),
                gutter_cells(spec),
            );
        },
        BlockLayout::RowPrefix { child, spec } => {
            plan_has_same_shape(
                m,
                *child,
                *measured.kind->Child_0,
                after_gutter(width, prefix_cells(spec)),
                gutter,
            );
        },
        BlockLayout::Panel { child, spec } => {
            plan_has_same_shape(
                m,
                *child,
                *measured.kind->Child_0,
                inside_panel(width, spec.padding),
                0,
            );
        },
        BlockLayout::Style { child, .. } => {
            plan_has_same_shape(m, *child, *measured.kind->Child_0, width, gutter);
        },
        BlockLayout::Refresh { child, .. } => {
            plan_has_same_shape(m, *child, *measured.kind->Child_0, width, gutter);
        },
        _ => {},
    }
}

pub(crate) proof fn lemma_text_cap_count(
    m: Metrics,
    child: &LayoutIr,
    spec: CapSpec,
    width: u16,
    start: usize,
    count: usize,
    gutter: Option<&GutterSpec>,
)
    requires
        text_leaf(*child) is Some,
    ensures
        cap_range(m, child, spec, width, start, count, gutter).len() == rows_within(
            bounded_cap_rows(m, *child, spec, width, 0) as int,
            start as int,
            count as int,
        ),
{
    let content = text_leaf(*child)->0;
    assert(!crate::budget::leaf_countable(IrLeaf::Content(content)));
    assert(!crate::budget::fits_exact(m, *child));
    let probe = (m.edge)(content, width, (spec.rows + 1) as usize);
    assert(edge_window(m, *child, width, (spec.rows + 1) as usize, 0) == probe);
    let body = text_cap_body(m, &content, spec, width, gutter);
    let truncated = probe.truncated || probe.row_count > spec.rows;
    let kept = spec_min(probe.row_count, spec.rows as usize);
    let shown = truncated && keep_has_marker(spec.keep);
    assert(bounded_cap_rows(m, *child, spec, width, 0) == kept + if shown {
        1int
    } else {
        0
    });
    match spec.keep {
        CapKeep::Head { marker: Some(CapMarker::Above) } => {
            assert(body.len() == kept + if truncated { 1int } else { 0 });
        },
        CapKeep::Head { marker: Some(CapMarker::Below) } => {
            assert(body.len() == kept + if truncated { 1int } else { 0 });
        },
        CapKeep::Tail { marker: Some(CapMarker::Above) } => {
            assert(body.len() == kept + if truncated { 1int } else { 0 });
        },
        CapKeep::Tail { marker: Some(CapMarker::Below) } => {
            assert(body.len() == kept + if truncated { 1int } else { 0 });
        },
        CapKeep::Head { marker: None } => {
            assert(body.len() == kept);
        },
        CapKeep::Tail { marker: None } => {
            assert(body.len() == kept);
        },
        CapKeep::HeadTail { .. } => {},
    }
}

proof fn lemma_rows_from_summed(
    m: Metrics,
    items: Seq<LayoutIr>,
    children: Seq<MeasuredLayout>,
    width: u16,
    gutter: u16,
    i: int,
)
    requires
        items.len() == children.len(),
        0 <= i <= items.len(),
        forall|j: int|
            0 <= j < items.len() ==> (#[trigger] children[j]).rows == layout_rows(
                m,
                items[j],
                width,
                gutter,
            ),
        all_rows_from(m, items, width, gutter, 0) <= usize::MAX,
        summed_rows(children.take(i)) + rows_from(children, i) == rows_from(children, 0),
    ensures
        summed_rows(children) == rows_from(children, 0),
    decreases items.len() - i,
{
    lemma_all_rows_from(m, items, children, width, gutter, 0);
    if i == items.len() {
        assert(children.take(i) =~= children);
    } else {
        lemma_rows_from_nonnegative(children, i + 1);
        assert(children.take(i + 1).drop_last() =~= children.take(i));
        lemma_rows_from_summed(m, items, children, width, gutter, i + 1);
    }
}

proof fn lemma_all_rows_from(
    m: Metrics,
    items: Seq<LayoutIr>,
    children: Seq<MeasuredLayout>,
    width: u16,
    gutter: u16,
    i: int,
)
    requires
        items.len() == children.len(),
        0 <= i <= items.len(),
        forall|j: int|
            0 <= j < items.len() ==> (#[trigger] children[j]).rows == layout_rows(
                m,
                items[j],
                width,
                gutter,
            ),
    ensures
        all_rows_from(m, items, width, gutter, i) == rows_from(children, i),
    decreases items.len() - i,
{
    if i < items.len() {
        assert(children[i].rows == layout_rows(m, items[i], width, gutter));
        lemma_all_rows_from(m, items, children, width, gutter, i + 1);
    }
}

pub proof fn lemma_plan_is_true(
    m: Metrics,
    layout: &LayoutIr,
    measured: MeasuredLayout,
    width: u16,
    gutter: Option<&GutterSpec>,
)
    requires
        is_plan(m, *layout, measured, width, some_gutter_cells(gutter)),
        draws_as_measured(m, layout, width, gutter),
    ensures
        true_to(m, layout, measured, width, gutter),
    decreases *layout,
{
    let cells = some_gutter_cells(gutter);
    match layout {
        BlockLayout::Vbox(items) => {
            let children = measured.kind->Children_0;
            assert forall|i: int| 0 <= i < items@.len() implies true_to(
                m,
                &#[trigger] items@[i],
                children@[i],
                width,
                gutter,
            ) by {
                assert(draws_as_measured(m, &items@[i], width, gutter));
                lemma_plan_is_true(m, &items@[i], children@[i], width, gutter);
            }
            assert forall|i: int| 0 <= i < items@.len() implies (#[trigger] children@[i]).rows
                == layout_rows(m, items@[i], width, cells) by {
                assert(is_plan(m, items@[i], children@[i], width, cells));
                crate::plan::plan_has_layout_rows(m, items@[i], children@[i], width, cells);
            }
            assert(children@.take(0) =~= Seq::<MeasuredLayout>::empty());
            lemma_rows_from_summed(m, items@, children@, width, cells, 0);
        },
        BlockLayout::Gutter { child, spec } => {
            lemma_plan_is_true(
                m,
                child,
                *measured.kind->Child_0,
                after_gutter(width, gutter_cells(*spec)),
                Some(spec),
            );
        },
        BlockLayout::RowPrefix { child, spec } => {
            if special_child(m, **child) is Other {
                let child_width = after_gutter(width, prefix_cells(*spec));
                lemma_plan_without_gutter(
                    m,
                    **child,
                    *measured.kind->Child_0,
                    child_width,
                    cells,
                );
                lemma_plan_is_true(m, child, *measured.kind->Child_0, child_width, None);
            }
        },
        BlockLayout::Style { child, .. } => {
            lemma_plan_is_true(m, child, *measured.kind->Child_0, width, gutter);
        },
        BlockLayout::Refresh { child, .. } => {
            lemma_plan_is_true(m, child, *measured.kind->Child_0, width, gutter);
        },
        _ => {},
    }
}

/// Drawing agrees with measuring: of any range as many rows are drawn as the layout was
/// measured to have there, if these can be counted in 16 bits.
pub proof fn range_draws_measured_rows(
    m: Metrics,
    layout: &LayoutIr,
    measured: MeasuredLayout,
    width: u16,
    start: usize,
    count: usize,
)
    requires
        is_plan(m, *layout, measured, width, 0),
        draws_as_measured(m, layout, width, None),
        rows_within(
            layout_rows(m, *layout, width, 0) as int,
            start as int,
            count as int,
        ) <= u16::MAX,
    ensures
        range_rows(
            m,
            layout,
            width,
            start,
            count,
            None,
            RenderMeasurement::Measured(&measured),
        ).len() == rows_within(
            layout_rows(m, *layout, width, 0) as int,
            start as int,
            count as int,
        ),
{
    plan_has_same_shape(m, *layout, measured, width, 0);
    lemma_plan_is_true(m, layout, measured, width, None);
    crate::plan::plan_has_layout_rows(m, *layout, measured, width, 0);
    drawn_rows_match_measured(m, layout, measured, width, start, count, None);
}

} // verus!
