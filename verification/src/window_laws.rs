//! A row looks the same in whatever range it is drawn.
use vstd::prelude::*;
use crate::edges::{cap_facts, cell, cells, copy_owner_from, rows_in_range, shown_row, text_leaf};
use crate::host::Metrics;
use crate::ir::{BlockLayout, CapSpec, GutterSpec, HboxItem, IrLeaf, LayoutIr, PanelSpec};
use crate::plan::{is_plan, MeasuredLayout};
use crate::render::{
    cap_range, hbox_range, panel_range, range_columns, range_rows, row_prefix_range, same_shape,
    special_child, stack_range, RenderMeasurement,
};
use crate::render_laws::{
    draws_as_measured, drawn_rows_match_measured, lemma_plan_is_true, lemma_plan_without_gutter,
    lemma_rows_from_nonnegative, lemma_stack_count, plan_has_same_shape, rows_from, rows_within,
    true_to,
};
use crate::rows::RowOp;
use crate::text::{spec_max, spec_min};
use crate::widths::{
    after_gutter, both_paddings, gutter_cells, hbox_widths, inside_panel, prefix_cells,
    some_gutter_cells,
};

verus! {

/// A cap cuts all its rows out of one drawing: it is over a retained text, or has a gutter, or
/// leaves rows out. A cap that shows all of another child draws its first rows by themselves.
pub open spec fn cap_is_steady(
    m: Metrics,
    child: LayoutIr,
    spec: CapSpec,
    width: u16,
    gutter: Option<&GutterSpec>,
) -> bool {
    ||| text_leaf(child) is Some
    ||| gutter is Some
    ||| cap_facts(m, child, spec, width, 0).truncated
}

/// `measured` holds the rows that are drawn of every node of `layout`, and every cap cuts its
/// rows out of one drawing.
pub open spec fn steady(
    m: Metrics,
    layout: &LayoutIr,
    measured: MeasuredLayout,
    width: u16,
    gutter: Option<&GutterSpec>,
) -> bool
    decreases *layout,
{
    &&& same_shape(*layout, measured)
    &&& true_to(m, layout, measured, width, gutter)
    &&& match layout {
        BlockLayout::Vbox(items) => forall|i: int|
            0 <= i < items@.len() ==> steady(
                m,
                &#[trigger] items@[i],
                measured.kind->Children_0@[i],
                width,
                gutter,
            ),
        BlockLayout::Hbox(items) => forall|i: int|
            0 <= i < items@.len() ==> steady(
                m,
                &(#[trigger] items@[i]).layout,
                measured.kind->Hbox_children@[i],
                measured.kind->Hbox_widths@[i],
                None,
            ),
        BlockLayout::Panel { child, spec } => steady(
            m,
            child,
            *measured.kind->Child_0,
            inside_panel(width, spec.padding),
            None,
        ),
        BlockLayout::Gutter { child, spec } => steady(
            m,
            child,
            *measured.kind->Child_0,
            after_gutter(width, gutter_cells(*spec)),
            Some(spec),
        ),
        BlockLayout::RowPrefix { child, spec } => special_child(m, **child) is Other ==> steady(
            m,
            child,
            *measured.kind->Child_0,
            after_gutter(width, prefix_cells(*spec)),
            None,
        ),
        BlockLayout::Style { child, .. } => steady(
            m,
            child,
            *measured.kind->Child_0,
            width,
            gutter,
        ),
        BlockLayout::Refresh { child, .. } => steady(
            m,
            child,
            *measured.kind->Child_0,
            width,
            gutter,
        ),
        BlockLayout::Cap { child, spec } => cap_is_steady(m, **child, *spec, width, gutter),
        _ => true,
    }
}

/// Row `start + i` of a measured layout, drawn as part of `start .. start + count`, is
/// the row that is drawn when it alone is asked for.
pub proof fn row_is_the_same_in_every_range(
    m: Metrics,
    layout: &LayoutIr,
    measured: MeasuredLayout,
    width: u16,
    start: usize,
    count: usize,
    gutter: Option<&GutterSpec>,
    i: int,
)
    requires
        steady(m, layout, measured, width, gutter),
        rows_within(measured.rows as int, start as int, count as int) <= u16::MAX,
        0 <= i < rows_within(measured.rows as int, start as int, count as int),
    ensures
        ({
            let by = RenderMeasurement::Measured(&measured);
            let rows = range_rows(m, layout, width, start, count, gutter, by);
            let alone = range_rows(m, layout, width, (start + i) as usize, 1, gutter, by);
            rows.len() > i && alone.len() == 1 && rows[i] == alone[0]
        }),
    decreases *layout, 0int,
{
    let by = RenderMeasurement::Measured(&measured);
    let at = (start + i) as usize;
    drawn_rows_match_measured(m, layout, measured, width, start, count, gutter);
    drawn_rows_match_measured(m, layout, measured, width, at, 1, gutter);
    match layout {
        BlockLayout::Vbox(items) => {
            assert(items@.skip(0) =~= items@);
            lemma_stack_row(m, items@, measured, width, start, count, gutter, 0, 0, i);
        },
        BlockLayout::Hbox(items) => {
            lemma_hbox_row(m, items@, measured, width, start, count, gutter, i);
        },
        BlockLayout::Gutter { child, spec } => {
            row_is_the_same_in_every_range(
                m,
                child,
                *measured.kind->Child_0,
                after_gutter(width, gutter_cells(*spec)),
                start,
                count,
                Some(spec),
                i,
            );
        },
        BlockLayout::RowPrefix { child, spec } => {
            let below = RenderMeasurement::Measured(&*measured.kind->Child_0);
            if special_child(m, **child) is Other {
                row_is_the_same_in_every_range(
                    m,
                    child,
                    *measured.kind->Child_0,
                    after_gutter(width, prefix_cells(*spec)),
                    start,
                    count,
                    None,
                    i,
                );
            }
            assert(row_prefix_range(m, child, spec, width, start, count, gutter, below)[i]
                == row_prefix_range(m, child, spec, width, at, 1, gutter, below)[0]);
        },
        BlockLayout::Panel { child, spec } => {
            lemma_panel_row(
                m,
                child,
                spec,
                *measured.kind->Child_0,
                width,
                start,
                count,
                gutter,
                i,
            );
        },
        BlockLayout::Style { child, .. } => {
            row_is_the_same_in_every_range(
                m,
                child,
                *measured.kind->Child_0,
                width,
                start,
                count,
                gutter,
                i,
            );
        },
        BlockLayout::Refresh { child, .. } => {
            row_is_the_same_in_every_range(
                m,
                child,
                *measured.kind->Child_0,
                width,
                start,
                count,
                gutter,
                i,
            );
        },
        BlockLayout::Cap { child, spec } => {
            assert(cap_range(m, child, *spec, width, start, count, gutter)[i] == cap_range(
                m,
                child,
                *spec,
                width,
                at,
                1,
                gutter,
            )[0]);
        },
        _ => {},
    }
}

proof fn lemma_stack_row(
    m: Metrics,
    all: Seq<LayoutIr>,
    measured: MeasuredLayout,
    width: u16,
    skipped: usize,
    count: usize,
    gutter: Option<&GutterSpec>,
    index: int,
    written: int,
    i: int,
)
    requires
        measured.kind is Children,
        measured.kind->Children_0@.len() == all.len(),
        rows_from(measured.kind->Children_0@, 0) <= usize::MAX,
        0 <= index <= all.len(),
        0 <= written <= count,
        written + rows_within(
            rows_from(measured.kind->Children_0@, index),
            skipped as int,
            count - written,
        ) <= u16::MAX,
        forall|j: int|
            0 <= j < all.len() ==> steady(
                m,
                &#[trigger] all[j],
                measured.kind->Children_0@[j],
                width,
                gutter,
            ),
        0 <= i < rows_within(
            rows_from(measured.kind->Children_0@, index),
            skipped as int,
            count - written,
        ),
        rows_from(measured.kind->Children_0@, index) <= usize::MAX,
    ensures
        ({
            let by = RenderMeasurement::Measured(&measured);
            let rows = stack_range(
                m,
                all.skip(index),
                width,
                skipped,
                count,
                gutter,
                by,
                index,
                written,
            );
            let alone = stack_range(
                m,
                all.skip(index),
                width,
                (skipped + i) as usize,
                1,
                gutter,
                by,
                index,
                0,
            );
            rows.len() > i && alone.len() == 1 && rows[i] == alone[0]
        }),
    decreases all, all.len() - index,
{
    let children = measured.kind->Children_0@;
    let by = RenderMeasurement::Measured(&measured);
    assert forall|j: int| 0 <= j < all.len() implies same_shape(
        #[trigger] all[j],
        children[j],
    ) by {
        assert(steady(m, &all[j], children[j], width, gutter));
    }
    assert forall|j: int| 0 <= j < all.len() implies true_to(
        m,
        &#[trigger] all[j],
        children[j],
        width,
        gutter,
    ) by {
        assert(steady(m, &all[j], children[j], width, gutter));
    }
    lemma_stack_count(m, all, measured, width, skipped, count, gutter, index, written);
    lemma_stack_count(m, all, measured, width, (skipped + i) as usize, 1, gutter, index, 0);
    if index < all.len() {
        assert(all.skip(index)[0] == all[index]);
        assert(all.skip(index).drop_first() =~= all.skip(index + 1));
        lemma_rows_from_nonnegative(children, index + 1);
        let rows = children[index].rows;
        assert(steady(m, &all[index], children[index], width, gutter));
        if skipped >= rows {
            lemma_stack_row(
                m,
                all,
                measured,
                width,
                (skipped - rows) as usize,
                count,
                gutter,
                index + 1,
                written,
                i,
            );
        } else {
            let wanted = spec_min((count - written) as usize, (rows - skipped) as usize);
            drawn_rows_match_measured(
                m,
                &all[index],
                children[index],
                width,
                skipped,
                wanted,
                gutter,
            );
            if i < wanted {
                row_is_the_same_in_every_range(
                    m,
                    &all[index],
                    children[index],
                    width,
                    skipped,
                    wanted,
                    gutter,
                    i,
                );
            } else {
                assert(wanted == rows - skipped);
                lemma_stack_row(
                    m,
                    all,
                    measured,
                    width,
                    0,
                    count,
                    gutter,
                    index + 1,
                    written + wanted,
                    i - wanted,
                );
            }
        }
    } else {
        lemma_rows_from_nonnegative(children, index);
    }
}

proof fn lemma_columns_at(
    m: Metrics,
    items: Seq<HboxItem<IrLeaf>>,
    widths: Seq<u16>,
    start: usize,
    count: usize,
    measurement: RenderMeasurement,
    k: int,
)
    requires
        0 <= k < items.len(),
    ensures
        range_columns(m, items, widths, start, count, measurement).len() == items.len(),
        range_columns(m, items, widths, start, count, measurement)[k] == (if widths[k] == 0 {
            Seq::empty()
        } else {
            range_rows(
                m,
                &items[k].layout,
                widths[k],
                start,
                count,
                None,
                measurement.spec_nth(k),
            )
        }),
    decreases items.len(),
{
    if items.len() > 1 {
        lemma_columns_at(
            m,
            items.drop_last(),
            widths,
            start,
            count,
            measurement,
            if k < items.len() - 1 {
                k
            } else {
                0
            },
        );
    } else {
        assert(range_columns(m, items.drop_last(), widths, start, count, measurement).len() == 0);
    }
}

proof fn lemma_cells_same<'a>(
    widths: Seq<u16>,
    a: Seq<Seq<Seq<RowOp<'a>>>>,
    b: Seq<Seq<Seq<RowOp<'a>>>>,
    owner: int,
    row: int,
    height: int,
    upto: int,
)
    requires
        forall|k: int|
            0 <= k < upto && #[trigger] widths[k] != 0 ==> {
                &&& (row < a[k].len()) == (b[k].len() > 0)
                &&& row < a[k].len() ==> a[k][row] == b[k][0]
            },
    ensures
        cells(widths, a, owner, row, height, false, false, upto) == cells(
            widths,
            b,
            owner,
            0,
            1,
            false,
            false,
            upto,
        ),
    decreases upto,
{
    if upto > 0 {
        lemma_cells_same(widths, a, b, owner, row, height, upto - 1);
        let k = upto - 1;
        if widths[k] != 0 {
            assert(cell(
                widths[k],
                a[k],
                shown_row(row, a[k].len() as int, height, false),
                k == owner,
                false,
            ) == cell(
                widths[k],
                b[k],
                shown_row(0, b[k].len() as int, 1, false),
                k == owner,
                false,
            ));
        }
    }
}

proof fn lemma_hbox_row(
    m: Metrics,
    items: Seq<HboxItem<IrLeaf>>,
    measured: MeasuredLayout,
    width: u16,
    start: usize,
    count: usize,
    gutter: Option<&GutterSpec>,
    i: int,
)
    requires
        measured.kind is Hbox,
        measured.kind->Hbox_children@.len() == items.len(),
        measured.kind->Hbox_widths@.len() == items.len(),
        forall|j: int|
            0 <= j < items.len() ==> steady(
                m,
                &(#[trigger] items[j]).layout,
                measured.kind->Hbox_children@[j],
                measured.kind->Hbox_widths@[j],
                None,
            ),
        0 < count,
        0 <= i < rows_within(measured.rows as int, start as int, count as int) <= u16::MAX,
    ensures
        ({
            let by = RenderMeasurement::Measured(&measured);
            hbox_range(m, items, width, start, count, gutter, by)[i] == hbox_range(
                m,
                items,
                width,
                (start + i) as usize,
                1,
                gutter,
                by,
            )[0]
        }),
    decreases items, 0int,
{
    let by = RenderMeasurement::Measured(&measured);
    let at = (start + i) as usize;
    let widths = measured.kind->Hbox_widths@;
    let children = measured.kind->Hbox_children@;
    let shown = spec_min(start.saturating_add(count), measured.rows).saturating_sub(start);
    let a = range_columns(m, items, widths, start, shown, by);
    let b = range_columns(m, items, widths, at, 1, by);
    assert(spec_min(at.saturating_add(1), measured.rows).saturating_sub(at) == 1);
    assert forall|k: int| 0 <= k < items.len() && #[trigger] widths[k] != 0 implies {
        &&& (i < a[k].len()) == (b[k].len() > 0)
        &&& i < a[k].len() ==> a[k][i] == b[k][0]
    } by {
        lemma_columns_at(m, items, widths, start, shown, by, k);
        lemma_columns_at(m, items, widths, at, 1, by, k);
        let child = items[k];
        assert(steady(m, &items[k].layout, children[k], widths[k], None));
        drawn_rows_match_measured(m, &items[k].layout, children[k], widths[k], start, shown, None);
        drawn_rows_match_measured(m, &items[k].layout, children[k], widths[k], at, 1, None);
        if i < a[k].len() {
            row_is_the_same_in_every_range(
                m,
                &items[k].layout,
                children[k],
                widths[k],
                start,
                shown,
                None,
                i,
            );
        }
    }
    if items.len() > 0 {
        lemma_columns_at(m, items, widths, start, shown, by, 0);
        lemma_columns_at(m, items, widths, at, 1, by, 0);
    }
    lemma_cells_same(
        widths,
        a,
        b,
        copy_owner_from(items, 0),
        i,
        shown as int,
        items.len() as int,
    );
}

proof fn lemma_panel_row(
    m: Metrics,
    child: &LayoutIr,
    spec: &PanelSpec,
    inner: MeasuredLayout,
    width: u16,
    start: usize,
    count: usize,
    gutter: Option<&GutterSpec>,
    i: int,
)
    requires
        steady(m, child, inner, inside_panel(width, spec.padding), None),
        0 < count,
        0 <= i < rows_within(
            inner.rows.saturating_add(both_paddings(spec.padding) as usize) as int,
            start as int,
            count as int,
        ) <= u16::MAX,
    ensures
        ({
            let by = RenderMeasurement::Measured(&inner);
            panel_range(m, child, spec, width, start, count, gutter, by)[i] == panel_range(
                m,
                child,
                spec,
                width,
                (start + i) as usize,
                1,
                gutter,
                by,
            )[0]
        }),
    decreases *child, 1int,
{
    let by = RenderMeasurement::Measured(&inner);
    let at = (start + i) as usize;
    let child_width = inside_panel(width, spec.padding);
    let padding = spec.padding as usize;
    let total = inner.rows.saturating_add(both_paddings(spec.padding) as usize);
    let end = spec_min(start.saturating_add(count), total);
    let child_start = spec_max(start, padding);
    let child_end = spec_min(end, padding.saturating_add(inner.rows));
    if child_start < child_end {
        let from = (child_start - padding) as usize;
        let wanted = (child_end - child_start) as usize;
        drawn_rows_match_measured(m, child, inner, child_width, from, wanted, None);
        if child_start <= at < child_end {
            row_is_the_same_in_every_range(
                m,
                child,
                inner,
                child_width,
                from,
                wanted,
                None,
                at - child_start,
            );
        }
    }
    let rows = panel_range(m, child, spec, width, start, count, gutter, by);
    let alone = panel_range(m, child, spec, width, at, 1, gutter, by);
    assert(rows[i] == alone[0]);
}

/// Every node of `layout` is drawn with the rows that it is measured with, and every cap cuts
/// its rows out of one drawing.
pub open spec fn draws_steadily(
    m: Metrics,
    layout: &LayoutIr,
    width: u16,
    gutter: Option<&GutterSpec>,
) -> bool
    decreases *layout,
{
    &&& draws_as_measured(m, layout, width, gutter)
    &&& match layout {
        BlockLayout::Vbox(items) => forall|i: int|
            0 <= i < items@.len() ==> draws_steadily(m, &#[trigger] items@[i], width, gutter),
        BlockLayout::Hbox(items) => forall|i: int|
            0 <= i < items@.len() ==> draws_steadily(
                m,
                &(#[trigger] items@[i]).layout,
                hbox_widths(m, items@, width)[i],
                None,
            ),
        BlockLayout::Panel { child, spec } => draws_steadily(
            m,
            child,
            inside_panel(width, spec.padding),
            None,
        ),
        BlockLayout::Gutter { child, spec } => draws_steadily(
            m,
            child,
            after_gutter(width, gutter_cells(*spec)),
            Some(spec),
        ),
        BlockLayout::RowPrefix { child, spec } => special_child(m, **child) is Other
            ==> draws_steadily(m, child, after_gutter(width, prefix_cells(*spec)), None),
        BlockLayout::Style { child, .. } => draws_steadily(m, child, width, gutter),
        BlockLayout::Refresh { child, .. } => draws_steadily(m, child, width, gutter),
        BlockLayout::Cap { child, spec } => cap_is_steady(m, **child, *spec, width, gutter),
        _ => true,
    }
}

proof fn lemma_plan_is_steady(
    m: Metrics,
    layout: &LayoutIr,
    measured: MeasuredLayout,
    width: u16,
    gutter: Option<&GutterSpec>,
)
    requires
        is_plan(m, *layout, measured, width, some_gutter_cells(gutter)),
        draws_steadily(m, layout, width, gutter),
    ensures
        steady(m, layout, measured, width, gutter),
    decreases *layout,
{
    let cells = some_gutter_cells(gutter);
    plan_has_same_shape(m, *layout, measured, width, cells);
    lemma_plan_is_true(m, layout, measured, width, gutter);
    match layout {
        BlockLayout::Vbox(items) => {
            let children = measured.kind->Children_0;
            assert forall|i: int| 0 <= i < items@.len() implies steady(
                m,
                &#[trigger] items@[i],
                children@[i],
                width,
                gutter,
            ) by {
                assert(draws_steadily(m, &items@[i], width, gutter));
                lemma_plan_is_steady(m, &items@[i], children@[i], width, gutter);
            }
        },
        BlockLayout::Hbox(items) => {
            let children = measured.kind->Hbox_children;
            let widths = measured.kind->Hbox_widths;
            assert forall|i: int| 0 <= i < items@.len() implies steady(
                m,
                &(#[trigger] items@[i]).layout,
                children@[i],
                widths@[i],
                None,
            ) by {
                assert(draws_steadily(m, &items@[i].layout, widths@[i], None));
                lemma_plan_is_steady(m, &items@[i].layout, children@[i], widths@[i], None);
            }
        },
        BlockLayout::Panel { child, spec } => {
            lemma_plan_is_steady(
                m,
                child,
                *measured.kind->Child_0,
                inside_panel(width, spec.padding),
                None,
            );
        },
        BlockLayout::Gutter { child, spec } => {
            lemma_plan_is_steady(
                m,
                child,
                *measured.kind->Child_0,
                after_gutter(width, gutter_cells(*spec)),
                Some(spec),
            );
        },
        BlockLayout::RowPrefix { child, spec } => {
            if special_child(m, **child) is Other {
                let child_width = after_gutter(width, prefix_cells(*spec));
                lemma_plan_without_gutter(
                    m,
                    **child,
                    *measured.kind->Child_0,
                    child_width,
                    cells,
                );
                lemma_plan_is_steady(m, child, *measured.kind->Child_0, child_width, None);
            }
        },
        BlockLayout::Style { child, .. } => {
            lemma_plan_is_steady(m, child, *measured.kind->Child_0, width, gutter);
        },
        BlockLayout::Refresh { child, .. } => {
            lemma_plan_is_steady(m, child, *measured.kind->Child_0, width, gutter);
        },
        _ => {},
    }
}

/// A row of a range of a planned layout is the row that is drawn when it alone is asked for.
pub proof fn row_alone_is_row_in_range(
    m: Metrics,
    layout: &LayoutIr,
    measured: MeasuredLayout,
    width: u16,
    start: usize,
    count: usize,
    i: int,
)
    requires
        is_plan(m, *layout, measured, width, 0),
        draws_steadily(m, layout, width, None),
        0 <= i < rows_within(measured.rows as int, start as int, count as int) <= u16::MAX,
    ensures
        ({
            let by = RenderMeasurement::Measured(&measured);
            let rows = range_rows(m, layout, width, start, count, None, by);
            let alone = range_rows(m, layout, width, (start + i) as usize, 1, None, by);
            rows.len() > i && alone.len() == 1 && rows[i] == alone[0]
        }),
{
    lemma_plan_is_steady(m, layout, measured, width, None);
    row_is_the_same_in_every_range(m, layout, measured, width, start, count, None, i);
}

/// A range cut out of a larger range is the range itself: drawing rows
/// `start .. start + count` of a planned layout yields the rows that drawing
/// `outer_start .. outer_start + outer_count` has there.
pub proof fn range_is_cut_of_larger_range(
    m: Metrics,
    layout: &LayoutIr,
    measured: MeasuredLayout,
    width: u16,
    start: usize,
    count: usize,
    outer_start: usize,
    outer_count: usize,
)
    requires
        is_plan(m, *layout, measured, width, 0),
        draws_steadily(m, layout, width, None),
        outer_start <= start,
        start.saturating_add(count) <= outer_start.saturating_add(outer_count),
        rows_within(measured.rows as int, outer_start as int, outer_count as int) <= u16::MAX,
    ensures
        ({
            let by = RenderMeasurement::Measured(&measured);
            let inner = range_rows(m, layout, width, start, count, None, by);
            let outer = range_rows(m, layout, width, outer_start, outer_count, None, by);
            inner == rows_in_range(outer, (start - outer_start) as usize, count)
        }),
{
    let by = RenderMeasurement::Measured(&measured);
    let inner = range_rows(m, layout, width, start, count, None, by);
    let outer = range_rows(m, layout, width, outer_start, outer_count, None, by);
    let offset = (start - outer_start) as usize;
    lemma_plan_is_steady(m, layout, measured, width, None);
    drawn_rows_match_measured(m, layout, measured, width, start, count, None);
    drawn_rows_match_measured(m, layout, measured, width, outer_start, outer_count, None);
    let cut = rows_in_range(outer, offset, count);
    assert(inner.len() == cut.len());
    assert forall|i: int| 0 <= i < inner.len() implies inner[i] == cut[i] by {
        row_is_the_same_in_every_range(m, layout, measured, width, start, count, None, i);
        row_is_the_same_in_every_range(
            m,
            layout,
            measured,
            width,
            outer_start,
            outer_count,
            None,
            offset + i,
        );
    }
    assert(inner =~= cut);
}

} // verus!
