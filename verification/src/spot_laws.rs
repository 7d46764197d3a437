//! Layouts that are measured while they are drawn have the rows that they are measured with.
use vstd::prelude::*;
use crate::cap_laws::{cap_draws_its_rows, cap_rows_are_drawn};
use crate::host::Metrics;
use crate::ir::{BlockLayout, GutterSpec, HboxItem, IrLeaf, LayoutIr};
use crate::measure::{layout_rows, stacked_rows, tallest_rows};
use crate::render::{
    hbox_range, panel_range, range_rows, row_prefix_range, special_child, stack_range,
    tallest_shown, RenderMeasurement,
};
use crate::render_laws::{all_rows_from, gutter_free, rows_within};
use crate::text::spec_min;
use crate::widths::{after_gutter, gutter_cells, hbox_widths, prefix_cells, some_gutter_cells};

verus! {

/// Nothing in `layout` is drawn with other rows than it is measured with on the spot: a vbox
/// has no more rows than a machine can count, every column of an hbox has cells, a leaf
/// between a gutter and a row prefix does not wrap differently for the gutter, and nothing keeps
/// a cap from drawing the rows that it has.
pub open spec fn draws_on_the_spot(
    m: Metrics,
    layout: &LayoutIr,
    width: u16,
    gutter: Option<&GutterSpec>,
) -> bool
    decreases *layout,
{
    match layout {
        BlockLayout::Vbox(items) => {
            &&& all_rows_from(m, items@, width, some_gutter_cells(gutter), 0) <= usize::MAX
            &&& forall|i: int|
                0 <= i < items@.len() ==> draws_on_the_spot(
                    m,
                    &#[trigger] items@[i],
                    width,
                    gutter,
                )
        },
        BlockLayout::Hbox(items) => forall|i: int|
            0 <= i < items@.len() ==> #[trigger] hbox_widths(m, items@, width)[i] > 0,
        BlockLayout::Gutter { child, spec } => draws_on_the_spot(
            m,
            child,
            after_gutter(width, gutter_cells(*spec)),
            Some(spec),
        ),
        BlockLayout::RowPrefix { child, spec } => special_child(m, **child) is Other ==> {
            &&& gutter_free(
                m,
                **child,
                after_gutter(width, prefix_cells(*spec)),
                some_gutter_cells(gutter),
            )
            &&& draws_on_the_spot(m, child, after_gutter(width, prefix_cells(*spec)), None)
        },
        BlockLayout::Style { child, .. } => draws_on_the_spot(m, child, width, gutter),
        BlockLayout::Refresh { child, .. } => draws_on_the_spot(m, child, width, gutter),
        BlockLayout::Cap { child, spec } => cap_rows_are_drawn(m, **child, *spec, width),
        _ => true,
    }
}

proof fn lemma_tallest_shown(m: Metrics, items: Seq<HboxItem<IrLeaf>>, widths: Seq<u16>)
    requires
        forall|i: int| 0 <= i < items.len() ==> #[trigger] widths[i] > 0,
    ensures
        tallest_shown(m, items, widths) == tallest_rows(m, items, widths),
    decreases items.len(),
{
    if items.len() > 0 {
        lemma_tallest_shown(m, items.drop_last(), widths);
        assert(widths[items.len() - 1] > 0);
    }
}

proof fn lemma_rows_without_gutter(m: Metrics, layout: LayoutIr, width: u16, gutter: u16)
    requires
        gutter_free(m, layout, width, gutter),
    ensures
        layout_rows(m, layout, width, gutter) == layout_rows(m, layout, width, 0),
    decreases layout,
{
    match layout {
        BlockLayout::Vbox(items) => {
            assert forall|i: int| 0 <= i < items@.len() implies layout_rows(
                m,
                #[trigger] items@[i],
                width,
                gutter,
            ) == layout_rows(m, items@[i], width, 0) by {
                lemma_rows_without_gutter(m, items@[i], width, gutter);
            }
            lemma_stack_without_gutter(m, items@, width, gutter);
        },
        BlockLayout::RowPrefix { child, spec } => {
            lemma_rows_without_gutter(m, *child, after_gutter(width, prefix_cells(spec)), gutter);
        },
        BlockLayout::Style { child, .. } => lemma_rows_without_gutter(m, *child, width, gutter),
        BlockLayout::Refresh { child, .. } => lemma_rows_without_gutter(m, *child, width, gutter),
        _ => {},
    }
}

proof fn lemma_stack_without_gutter(m: Metrics, items: Seq<LayoutIr>, width: u16, gutter: u16)
    requires
        forall|i: int|
            0 <= i < items.len() ==> layout_rows(m, #[trigger] items[i], width, gutter)
                == layout_rows(m, items[i], width, 0),
    ensures
        stacked_rows(m, items, width, gutter) == stacked_rows(m, items, width, 0),
    decreases items.len(),
{
    if items.len() > 0 {
        assert(layout_rows(m, items[items.len() - 1], width, gutter) == layout_rows(
            m,
            items[items.len() - 1],
            width,
            0,
        ));
        assert forall|i: int| 0 <= i < items.len() - 1 implies layout_rows(
            m,
            #[trigger] items.drop_last()[i],
            width,
            gutter,
        ) == layout_rows(m, items.drop_last()[i], width, 0) by {
            assert(items.drop_last()[i] == items[i]);
        }
        lemma_stack_without_gutter(m, items.drop_last(), width, gutter);
    }
}

proof fn lemma_rest_of_rows(m: Metrics, items: Seq<LayoutIr>, width: u16, gutter: u16, i: int)
    ensures
        all_rows_from(m, items, width, gutter, i) >= 0,
    decreases items.len() - i,
{
    if i < items.len() {
        lemma_rest_of_rows(m, items, width, gutter, i + 1);
    }
}

proof fn lemma_stacked_is_sum(
    m: Metrics,
    items: Seq<LayoutIr>,
    width: u16,
    gutter: u16,
    i: int,
)
    requires
        0 <= i <= items.len(),
        all_rows_from(m, items, width, gutter, 0) <= usize::MAX,
        stacked_rows(m, items.take(i), width, gutter) + all_rows_from(m, items, width, gutter, i)
            == all_rows_from(m, items, width, gutter, 0),
    ensures
        stacked_rows(m, items, width, gutter) == all_rows_from(m, items, width, gutter, 0),
    decreases items.len() - i,
{
    if i == items.len() {
        assert(items.take(i) =~= items);
    } else {
        lemma_rest_of_rows(m, items, width, gutter, i + 1);
        assert(items.take(i + 1).drop_last() =~= items.take(i));
        lemma_stacked_is_sum(m, items, width, gutter, i + 1);
    }
}

/// Drawing a range of rows that are measured on the spot agrees with measuring: as many rows
/// are drawn as the layout is measured to have there, if they can be counted in 16 bits.
pub proof fn range_on_the_spot_draws_measured_rows(
    m: Metrics,
    layout: &LayoutIr,
    width: u16,
    start: usize,
    count: usize,
    gutter: Option<&GutterSpec>,
)
    requires
        draws_on_the_spot(m, layout, width, gutter),
        rows_within(
            layout_rows(m, *layout, width, some_gutter_cells(gutter)) as int,
            start as int,
            count as int,
        ) <= u16::MAX,
    ensures
        range_rows(
            m,
            layout,
            width,
            start,
            count,
            gutter,
            RenderMeasurement::Complete,
        ).len() == rows_within(
            layout_rows(m, *layout, width, some_gutter_cells(gutter)) as int,
            start as int,
            count as int,
        ),
    decreases *layout, 0int,
{
    let spot = RenderMeasurement::Complete;
    let cells = some_gutter_cells(gutter);
    let total = layout_rows(m, *layout, width, cells);
    let expected = rows_within(total as int, start as int, count as int);
    if count > 0 {
        match layout {
            BlockLayout::Vbox(items) => {
                assert(items@.take(0) =~= Seq::<LayoutIr>::empty());
                lemma_stacked_is_sum(m, items@, width, cells, 0);
                assert(items@.skip(0) =~= items@);
                lemma_stack_on_the_spot(m, items@, width, start, count, gutter, 0, 0);
            },
            BlockLayout::Hbox(items) => {
                let widths = hbox_widths(m, items@, width);
                lemma_tallest_shown(m, items@, widths);
                assert(hbox_range(m, items@, width, start, count, gutter, spot).len() == expected);
            },
            BlockLayout::Panel { child, spec } => {
                assert(panel_range(m, child, spec, width, start, count, gutter, spot).len()
                    == expected);
            },
            BlockLayout::Gutter { child, spec } => {
                range_on_the_spot_draws_measured_rows(
                    m,
                    child,
                    after_gutter(width, gutter_cells(*spec)),
                    start,
                    count,
                    Some(spec),
                );
            },
            BlockLayout::RowPrefix { child, spec } => {
                if special_child(m, **child) is Other {
                    let child_width = after_gutter(width, prefix_cells(*spec));
                    lemma_rows_without_gutter(m, **child, child_width, cells);
                    range_on_the_spot_draws_measured_rows(
                        m,
                        child,
                        child_width,
                        start,
                        count,
                        None,
                    );
                }
                assert(row_prefix_range(m, child, spec, width, start, count, gutter, spot).len()
                    == expected);
            },
            BlockLayout::Style { child, .. } => {
                range_on_the_spot_draws_measured_rows(m, child, width, start, count, gutter);
            },
            BlockLayout::Refresh { child, .. } => {
                range_on_the_spot_draws_measured_rows(m, child, width, start, count, gutter);
            },
            BlockLayout::Cap { child, spec } => {
                cap_draws_its_rows(m, child, *spec, width, start, count, gutter);
            },
            _ => {},
        }
    }
}

proof fn lemma_stack_on_the_spot(
    m: Metrics,
    all: Seq<LayoutIr>,
    width: u16,
    skipped: usize,
    count: usize,
    gutter: Option<&GutterSpec>,
    index: int,
    written: int,
)
    requires
        0 <= index <= all.len(),
        0 <= written <= count,
        written < count || skipped == 0,
        written + rows_within(
            all_rows_from(m, all, width, some_gutter_cells(gutter), index),
            skipped as int,
            count - written,
        ) <= u16::MAX,
        forall|i: int|
            0 <= i < all.len() ==> draws_on_the_spot(m, &#[trigger] all[i], width, gutter),
    ensures
        stack_range(
            m,
            all.skip(index),
            width,
            skipped,
            count,
            gutter,
            RenderMeasurement::Complete,
            index,
            written,
        ).len() == rows_within(
            all_rows_from(m, all, width, some_gutter_cells(gutter), index),
            skipped as int,
            count - written,
        ),
    decreases all, all.len() - index,
{
    let cells = some_gutter_cells(gutter);
    lemma_rest_of_rows(m, all, width, cells, index);
    if index < all.len() && written < count {
        assert(all.skip(index)[0] == all[index]);
        assert(all.skip(index).drop_first() =~= all.skip(index + 1));
        lemma_rest_of_rows(m, all, width, cells, index + 1);
        let rows = layout_rows(m, all[index], width, cells);
        if skipped >= rows {
            lemma_stack_on_the_spot(
                m,
                all,
                width,
                (skipped - rows) as usize,
                count,
                gutter,
                index + 1,
                written,
            );
        } else {
            let wanted = spec_min((count - written) as usize, (rows - skipped) as usize);
            range_on_the_spot_draws_measured_rows(m, &all[index], width, skipped, wanted, gutter);
            lemma_stack_on_the_spot(
                m,
                all,
                width,
                0,
                count,
                gutter,
                index + 1,
                written + wanted,
            );
        }
    }
}

/// Drawing all of a layout agrees with measuring it: as many rows are drawn as it is measured
/// to have, if these can be counted in 16 bits.
pub proof fn drawing_draws_measured_rows(m: Metrics, layout: &LayoutIr, width: u16)
    requires
        draws_on_the_spot(m, layout, width, None),
        layout_rows(m, *layout, width, 0) <= u16::MAX,
    ensures
        range_rows(
            m,
            layout,
            width,
            0,
            usize::MAX,
            None,
            RenderMeasurement::Complete,
        ).len() == layout_rows(m, *layout, width, 0),
{
    range_on_the_spot_draws_measured_rows(m, layout, width, 0, usize::MAX, None);
}

} // verus!
