//! Where the parts of a layout stand among its rows, and how many rows it has by theirs.
use vstd::prelude::*;
use crate::edges::{cell, cells, copy_owner_from, shown_row};
use crate::host::Metrics;
use crate::ir::{
    BlockLayout, GutterSpec, HboxItem, IrLeaf, LayoutIr, PanelSpec, RowPrefixSpec, StyleSpec,
};
use crate::measure::{layout_rows, stacked_rows, tallest_rows};
use crate::render::{
    hbox_range, panel_range, plain_gutter, range_columns, range_rows, row_prefix_range,
    special_child, stack_range, tallest_shown, RenderMeasurement,
};
use crate::rows::{NestedRow, RowDecoration, RowOp};
use crate::widths::{
    after_gutter, prefix_cells, gutter_cells, hbox_widths, inside_panel, some_gutter_cells,
};

verus! {

/// Rows that the first `n` of `items` have together.
pub open spec fn rows_above(m: Metrics, items: Seq<LayoutIr>, width: u16, gutter: u16, n: int) -> int
    decreases n,
{
    if n <= 0 {
        0
    } else {
        rows_above(m, items, width, gutter, n - 1) + layout_rows(m, items[n - 1], width, gutter)
    }
}

/// Row `row` of a layout that is measured on the spot, drawn alone.
pub open spec fn row_alone<'a>(
    m: Metrics,
    layout: &'a LayoutIr,
    width: u16,
    row: usize,
    gutter: Option<&'a GutterSpec>,
) -> Seq<Seq<RowOp<'a>>> {
    range_rows(m, layout, width, row, 1, gutter, RenderMeasurement::Complete)
}

proof fn lemma_rows_above_same(
    m: Metrics,
    a: Seq<LayoutIr>,
    b: Seq<LayoutIr>,
    width: u16,
    gutter: u16,
    n: int,
)
    requires
        0 <= n <= a.len(),
        n <= b.len(),
        forall|i: int| 0 <= i < n ==> a[i] == b[i],
    ensures
        rows_above(m, a, width, gutter, n) == rows_above(m, b, width, gutter, n),
    decreases n,
{
    if n > 0 {
        lemma_rows_above_same(m, a, b, width, gutter, n - 1);
    }
}

proof fn lemma_rows_above_shifted(m: Metrics, items: Seq<LayoutIr>, width: u16, gutter: u16, n: int)
    requires
        0 < n <= items.len(),
    ensures
        rows_above(m, items, width, gutter, n) == layout_rows(m, items[0], width, gutter)
            + rows_above(m, items.drop_first(), width, gutter, n - 1),
    decreases n,
{
    if n > 1 {
        lemma_rows_above_shifted(m, items, width, gutter, n - 1);
        assert(items.drop_first()[n - 2] == items[n - 1]);
    } else {
        assert(rows_above(m, items, width, gutter, 0) == 0);
        assert(rows_above(m, items.drop_first(), width, gutter, 0) == 0);
    }
}

proof fn lemma_rows_above_grow(
    m: Metrics,
    items: Seq<LayoutIr>,
    width: u16,
    gutter: u16,
    n: int,
    k: int,
)
    requires
        0 <= n <= k <= items.len(),
    ensures
        0 <= rows_above(m, items, width, gutter, n) <= rows_above(m, items, width, gutter, k),
    decreases k,
{
    if n < k {
        lemma_rows_above_grow(m, items, width, gutter, n, k - 1);
    } else if k > 0 {
        lemma_rows_above_grow(m, items, width, gutter, n - 1, k - 1);
    }
}

/// A stack has the rows of its parts together.
pub proof fn stack_has_the_rows_of_its_parts(
    m: Metrics,
    items: Vec<LayoutIr>,
    width: u16,
    gutter: u16,
)
    requires
        rows_above(m, items@, width, gutter, items@.len() as int) <= usize::MAX,
    ensures
        layout_rows(m, BlockLayout::Vbox(items), width, gutter) == rows_above(
            m,
            items@,
            width,
            gutter,
            items@.len() as int,
        ),
{
    lemma_stacked(m, items@, width, gutter);
}

proof fn lemma_stacked(m: Metrics, items: Seq<LayoutIr>, width: u16, gutter: u16)
    requires
        rows_above(m, items, width, gutter, items.len() as int) <= usize::MAX,
    ensures
        stacked_rows(m, items, width, gutter) == rows_above(
            m,
            items,
            width,
            gutter,
            items.len() as int,
        ),
    decreases items.len(),
{
    if items.len() > 0 {
        let rest = items.drop_last();
        let n = items.len() as int;
        lemma_rows_above_same(m, rest, items, width, gutter, n - 1);
        lemma_rows_above_grow(m, items, width, gutter, n - 1, n);
        lemma_stacked(m, rest, width, gutter);
    }
}

/// Columns side by side have the rows of the tallest of them: none has more, and one has as
/// many, where there is any.
pub proof fn columns_have_the_rows_of_the_tallest(
    m: Metrics,
    items: Vec<HboxItem<IrLeaf>>,
    width: u16,
    gutter: u16,
)
    ensures
        ({
            let widths = hbox_widths(m, items@, width);
            let rows = layout_rows(m, BlockLayout::Hbox(items), width, gutter);
            &&& forall|k: int|
                0 <= k < items@.len() ==> layout_rows(
                    m,
                    (#[trigger] items@[k]).layout,
                    widths[k],
                    0,
                ) <= rows
            &&& items@.len() > 0 ==> exists|k: int|
                0 <= k < items@.len() && layout_rows(
                    m,
                    (#[trigger] items@[k]).layout,
                    widths[k],
                    0,
                ) == rows
            &&& items@.len() == 0 ==> rows == 0
        }),
{
    lemma_tallest(m, items@, hbox_widths(m, items@, width));
}

proof fn lemma_tallest(m: Metrics, items: Seq<HboxItem<IrLeaf>>, widths: Seq<u16>)
    ensures
        forall|k: int|
            0 <= k < items.len() ==> layout_rows(m, (#[trigger] items[k]).layout, widths[k], 0)
                <= tallest_rows(m, items, widths),
        items.len() > 0 ==> exists|k: int|
            0 <= k < items.len() && layout_rows(m, (#[trigger] items[k]).layout, widths[k], 0)
                == tallest_rows(m, items, widths),
        items.len() == 0 ==> tallest_rows(m, items, widths) == 0,
    decreases items.len(),
{
    if items.len() > 0 {
        let rest = items.drop_last();
        let last = items.len() - 1;
        let rows = tallest_rows(m, items, widths);
        lemma_tallest(m, rest, widths);
        assert forall|k: int| 0 <= k < items.len() implies layout_rows(
            m,
            (#[trigger] items[k]).layout,
            widths[k],
            0,
        ) <= rows by {
            if k < last {
                assert(rest[k] == items[k]);
            }
        }
        if layout_rows(m, items[last].layout, widths[last], 0) == rows {
        } else {
            let k = choose|k: int|
                0 <= k < rest.len() && layout_rows(m, (#[trigger] rest[k]).layout, widths[k], 0)
                    == rows;
            assert(items[k] == rest[k]);
        }
    }
}

/// A panel has its padding above and below the rows of its child, which is as wide as the
/// padding on both sides leaves.
pub proof fn panel_adds_its_padding(
    m: Metrics,
    child: Box<LayoutIr>,
    spec: PanelSpec,
    width: u16,
    gutter: u16,
)
    requires
        width > 2 * spec.padding,
    ensures
        ({
            let inside = layout_rows(m, *child, (width - 2 * spec.padding) as u16, 0);
            inside + 2 * spec.padding <= usize::MAX ==> layout_rows(
                m,
                BlockLayout::Panel { child, spec },
                width,
                gutter,
            ) == inside + 2 * spec.padding
        }),
{
}

/// A child behind a gutter has the columns that the gutter leaves, and the rows that it has
/// there; one that is styled or refreshed has the rows that it has without.
pub proof fn wrappers_have_the_rows_of_their_child(
    m: Metrics,
    child: Box<LayoutIr>,
    spec: GutterSpec,
    style: StyleSpec,
    refresh: crate::ir::RefreshSpec,
    width: u16,
    gutter: u16,
)
    requires
        width > gutter_cells(spec),
    ensures
        layout_rows(m, BlockLayout::Gutter { child, spec }, width, gutter) == layout_rows(
            m,
            *child,
            (width - gutter_cells(spec)) as u16,
            gutter_cells(spec),
        ),
        layout_rows(m, BlockLayout::Style { child, spec: style }, width, gutter) == layout_rows(
            m,
            *child,
            width,
            gutter,
        ),
        layout_rows(m, BlockLayout::Refresh { child, spec: refresh }, width, gutter) == layout_rows(
            m,
            *child,
            width,
            gutter,
        ),
{
}

/// The parts of a stack stand below each other in their order: the row that is `row` rows
/// below the first of part `i` is row `row` of that part.
pub proof fn stack_shows_its_parts_in_order(
    m: Metrics,
    items: &Vec<LayoutIr>,
    layout: &LayoutIr,
    width: u16,
    gutter: Option<&GutterSpec>,
    i: int,
    row: usize,
)
    requires
        *layout == BlockLayout::Vbox(*items),
        0 <= i < items@.len(),
        row < layout_rows(m, items@[i], width, some_gutter_cells(gutter)),
        rows_above(m, items@, width, some_gutter_cells(gutter), i) + row <= usize::MAX,
        row_alone(m, &items@[i], width, row, gutter).len() == 1,
    ensures
        row_alone(
            m,
            layout,
            width,
            (rows_above(m, items@, width, some_gutter_cells(gutter), i) + row) as usize,
            gutter,
        ) == row_alone(m, &items@[i], width, row, gutter),
{
    lemma_rows_above_grow(m, items@, width, some_gutter_cells(gutter), 0, i);
    lemma_stack_row(m, items@, width, gutter, i, row, 0);
}

proof fn lemma_stack_row(
    m: Metrics,
    items: Seq<LayoutIr>,
    width: u16,
    gutter: Option<&GutterSpec>,
    i: int,
    row: usize,
    index: int,
)
    requires
        0 <= i < items.len(),
        row < layout_rows(m, items[i], width, some_gutter_cells(gutter)),
        rows_above(m, items, width, some_gutter_cells(gutter), i) + row <= usize::MAX,
        row_alone(m, &items[i], width, row, gutter).len() == 1,
    ensures
        stack_range(
            m,
            items,
            width,
            (rows_above(m, items, width, some_gutter_cells(gutter), i) + row) as usize,
            1,
            gutter,
            RenderMeasurement::Complete,
            index,
            0,
        ) == row_alone(m, &items[i], width, row, gutter),
    decreases i,
{
    let g = some_gutter_cells(gutter);
    lemma_rows_above_grow(m, items, width, g, 0, i);
    if i == 0 {
        assert(rows_above(m, items, width, g, 0) == 0);
        let drawn = range_rows(m, &items[0], width, row, 1, gutter, RenderMeasurement::Complete);
        let below = stack_range(
            m,
            items.drop_first(),
            width,
            0,
            1,
            gutter,
            RenderMeasurement::Complete,
            index + 1,
            1,
        );
        assert(below == Seq::<Seq<RowOp>>::empty());
        assert(drawn + below =~= drawn);
    } else {
        lemma_rows_above_shifted(m, items, width, g, i);
        lemma_rows_above_grow(m, items.drop_first(), width, g, 0, i - 1);
        assert(items.drop_first()[i - 1] == items[i]);
        lemma_stack_row(m, items.drop_first(), width, gutter, i - 1, row, index + 1);
    }
}

/// A panel's child stands between the padding: the rows above and below it hold nothing but
/// the panel, and each of its rows stands inside one of the panel's.
pub proof fn panel_shows_its_child_inside(
    m: Metrics,
    child: Box<LayoutIr>,
    spec: &PanelSpec,
    layout: &LayoutIr,
    width: u16,
    gutter: Option<&GutterSpec>,
    row: usize,
)
    requires
        *layout == (BlockLayout::Panel { child, spec: *spec }),
        width > 2 * spec.padding,
        layout_rows(m, *child, (width - 2 * spec.padding) as u16, 0) + 2 * spec.padding < usize::MAX,
        row < layout_rows(m, *child, (width - 2 * spec.padding) as u16, 0) + 2 * spec.padding,
    ensures
        ({
            let inside = (width - 2 * spec.padding) as u16;
            let rows = layout_rows(m, *child, inside, 0);
            let shown = row_alone(m, layout, width, row, gutter);
            let before = match gutter {
                Some(gutter) => seq![RowOp::PlainGutter(gutter), RowOp::OpenPanel(spec)],
                None => seq![RowOp::OpenPanel(spec)],
            };
            let after = seq![RowOp::ClosePanel(spec)];
            let nested = NestedRow {
                width: inside,
                clip: inside,
                to_row_end: false,
                inherit_style: false,
                decoration: RowDecoration::Partial,
                pad: false,
                carry_wrapped: true,
            };
            &&& shown.len() == 1
            &&& row < spec.padding || row >= spec.padding + rows ==> shown[0] == before + after
            &&& spec.padding <= row < spec.padding + rows && row_alone(
                m,
                &*child,
                inside,
                (row - spec.padding) as usize,
                None,
            ).len() == 1 ==> shown[0] == before + seq![RowOp::OpenRow(nested)] + row_alone(
                m,
                &*child,
                inside,
                (row - spec.padding) as usize,
                None,
            )[0] + seq![RowOp::CloseRow(nested)] + after
        }),
{
    let inside = (width - 2 * spec.padding) as u16;
    let rows = layout_rows(m, *child, inside, 0);
    let shown = row_alone(m, layout, width, row, gutter);
    let before = match gutter {
        Some(gutter) => seq![RowOp::PlainGutter(gutter), RowOp::OpenPanel(spec)],
        None => seq![RowOp::OpenPanel(spec)],
    };
    let after = seq![RowOp::ClosePanel(spec)];
    assert(inside_panel(width, spec.padding) == inside);
    assert(shown == panel_range(
        m,
        &*child,
        spec,
        width,
        row,
        1,
        gutter,
        RenderMeasurement::Complete,
    ));
    assert(shown.len() == 1);
    if row < spec.padding || row >= spec.padding + rows {
        assert(shown[0] =~= before + after);
    } else {
        let inner = row_alone(m, &*child, inside, (row - spec.padding) as usize, None);
        if inner.len() == 1 {
            let nested = NestedRow {
                width: inside,
                clip: inside,
                to_row_end: false,
                inherit_style: false,
                decoration: RowDecoration::Partial,
                pad: false,
                carry_wrapped: true,
            };
            assert(shown[0] =~= before + seq![RowOp::OpenRow(nested)] + inner[0] + seq![
                RowOp::CloseRow(nested),
            ] + after);
        }
    }
}

/// A style holds for each row of its child and for nothing else: it is taken on before the
/// row and given up behind it.
pub proof fn style_holds_for_its_child(
    m: Metrics,
    child: Box<LayoutIr>,
    spec: &StyleSpec,
    layout: &LayoutIr,
    width: u16,
    start: usize,
    count: usize,
    gutter: Option<&GutterSpec>,
)
    requires
        *layout == (BlockLayout::Style { child, spec: *spec }),
    ensures
        ({
            let rows = range_rows(
                m,
                &*child,
                width,
                start,
                count,
                gutter,
                RenderMeasurement::Complete,
            );
            let shown = range_rows(
                m,
                layout,
                width,
                start,
                count,
                gutter,
                RenderMeasurement::Complete,
            );
            &&& shown.len() == rows.len()
            &&& forall|i: int|
                0 <= i < rows.len() ==> #[trigger] shown[i] == seq![
                    RowOp::SaveStyle,
                    RowOp::ApplyStyle(spec),
                ] + rows[i] + seq![RowOp::RestoreStyle]
        }),
{
    if count == 0 {
    }
}

/// The rows of a child behind a gutter are its own rows, each behind the gutter, in the
/// columns that the gutter leaves; a refreshed child is drawn as it is.
pub proof fn gutter_stands_before_its_child(
    m: Metrics,
    child: Box<LayoutIr>,
    spec: &GutterSpec,
    refresh: crate::ir::RefreshSpec,
    width: u16,
    start: usize,
    count: usize,
    gutter: Option<&GutterSpec>,
)
    requires
        width > gutter_cells(*spec),
    ensures
        range_rows(
            m,
            &(BlockLayout::Gutter { child, spec: *spec }),
            width,
            start,
            count,
            gutter,
            RenderMeasurement::Complete,
        ) == range_rows(
            m,
            &*child,
            (width - gutter_cells(*spec)) as u16,
            start,
            count,
            Some(spec),
            RenderMeasurement::Complete,
        ),
        range_rows(
            m,
            &(BlockLayout::Refresh { child, spec: refresh }),
            width,
            start,
            count,
            gutter,
            RenderMeasurement::Complete,
        ) == range_rows(m, &*child, width, start, count, gutter, RenderMeasurement::Complete),
{
}

/// The column that the text copied off a row comes from: the first that is said to be, or the
/// first of all.
pub open spec fn is_copied(items: Seq<HboxItem<IrLeaf>>, k: int) -> bool {
    ||| items[k].copy_owner && forall|j: int| 0 <= j < k ==> !(#[trigger] items[j]).copy_owner
    ||| k == 0 && forall|j: int| 0 <= j < items.len() ==> !(#[trigger] items[j]).copy_owner
}

/// What stands in column `k` of row `row` of columns side by side: the column's own row, where
/// it has one, in exactly as many cells as the column has. A column without cells is not there.
pub open spec fn column_row<'a>(
    m: Metrics,
    items: Seq<HboxItem<IrLeaf>>,
    widths: Seq<u16>,
    row: usize,
    k: int,
) -> Seq<RowOp<'a>> {
    let own = row_alone(m, &items[k].layout, widths[k], row, None);
    let nested = NestedRow {
        width: widths[k],
        clip: widths[k],
        to_row_end: false,
        inherit_style: false,
        decoration: if is_copied(items, k) && own.len() > 0 {
            RowDecoration::Partial
        } else {
            RowDecoration::Nothing
        },
        pad: true,
        carry_wrapped: true,
    };
    if widths[k] == 0 {
        Seq::empty()
    } else {
        seq![RowOp::OpenRow(nested)] + (if own.len() > 0 {
            own[0]
        } else {
            Seq::empty()
        }) + seq![RowOp::CloseRow(nested)]
    }
}

/// Columns stand side by side in their order, behind one gutter: each row of all of them holds
/// that row of each.
pub proof fn columns_stand_side_by_side(
    m: Metrics,
    items: &Vec<HboxItem<IrLeaf>>,
    layout: &LayoutIr,
    width: u16,
    gutter: Option<&GutterSpec>,
    row: usize,
    tall: int,
)
    requires
        *layout == BlockLayout::Hbox(*items),
        row < usize::MAX,
        0 <= tall < items@.len(),
        hbox_widths(m, items@, width)[tall] > 0,
        row < layout_rows(m, items@[tall].layout, hbox_widths(m, items@, width)[tall], 0),
    ensures
        ({
            let widths = hbox_widths(m, items@, width);
            let shown = row_alone(m, layout, width, row, gutter);
            let before = match gutter {
                Some(gutter) => seq![RowOp::PlainGutter(gutter)],
                None => Seq::empty(),
            };
            &&& shown.len() == 1
            &&& shown[0] == before + Seq::new(
                items@.len(),
                |k: int| column_row(m, items@, widths, row, k),
            ).flatten()
        }),
{
    let widths = hbox_widths(m, items@, width);
    let height = tallest_shown(m, items@, widths);
    lemma_tallest_shown(m, items@, widths, tall);
    let columns = range_columns(m, items@, widths, row, 1, RenderMeasurement::Complete);
    lemma_range_columns(m, items@, widths, row);
    let owner = copy_owner_from(items@, 0);
    lemma_copy_owner(items@, 0);
    let shown = row_alone(m, layout, width, row, gutter);
    assert(shown == hbox_range(m, items@, width, row, 1, gutter, RenderMeasurement::Complete));
    assert(shown.len() == 1);
    lemma_cells(m, items@, widths, columns, row, items@.len() as int);
    let parts = Seq::new(items@.len(), |k: int| column_row(m, items@, widths, row, k));
    assert(parts.take(items@.len() as int) =~= parts);
    assert(shown[0] == plain_gutter(gutter) + cells(
        widths,
        columns,
        owner,
        0,
        1,
        false,
        false,
        columns.len() as int,
    ));
}

proof fn lemma_tallest_shown(m: Metrics, items: Seq<HboxItem<IrLeaf>>, widths: Seq<u16>, k: int)
    requires
        0 <= k < items.len(),
        widths[k] > 0,
    ensures
        layout_rows(m, items[k].layout, widths[k], 0) <= tallest_shown(m, items, widths),
    decreases items.len(),
{
    if k < items.len() - 1 {
        assert(items.drop_last()[k] == items[k]);
        lemma_tallest_shown(m, items.drop_last(), widths, k);
    }
}

proof fn lemma_range_columns(m: Metrics, items: Seq<HboxItem<IrLeaf>>, widths: Seq<u16>, row: usize)
    ensures
        ({
            let columns = range_columns(m, items, widths, row, 1, RenderMeasurement::Complete);
            &&& columns.len() == items.len()
            &&& forall|k: int|
                0 <= k < items.len() ==> #[trigger] columns[k] == if widths[k] == 0 {
                    Seq::empty()
                } else {
                    row_alone(m, &items[k].layout, widths[k], row, None)
                }
        }),
    decreases items.len(),
{
    if items.len() > 0 {
        lemma_range_columns(m, items.drop_last(), widths, row);
        let before = range_columns(
            m,
            items.drop_last(),
            widths,
            row,
            1,
            RenderMeasurement::Complete,
        );
        let columns = range_columns(m, items, widths, row, 1, RenderMeasurement::Complete);
        assert forall|k: int| 0 <= k < items.len() implies #[trigger] columns[k] == (if widths[k]
            == 0 {
            Seq::empty()
        } else {
            row_alone(m, &items[k].layout, widths[k], row, None)
        }) by {
            if k < items.len() - 1 {
                assert(columns[k] == before[k]);
                assert(items.drop_last()[k] == items[k]);
            }
        }
    }
}

proof fn lemma_copy_owner(items: Seq<HboxItem<IrLeaf>>, i: int)
    requires
        0 <= i <= items.len(),
        forall|j: int| 0 <= j < i ==> !(#[trigger] items[j]).copy_owner,
    ensures
        forall|k: int|
            0 <= k < items.len() ==> #[trigger] is_copied(items, k) == (k == copy_owner_from(
                items,
                i,
            )),
    decreases items.len() - i,
{
    let owner = copy_owner_from(items, i);
    if i < items.len() && !items[i].copy_owner {
        lemma_copy_owner(items, i + 1);
    } else if i < items.len() {
        assert forall|k: int| 0 <= k < items.len() implies #[trigger] is_copied(items, k) == (k
            == owner) by {
            assert(items[i].copy_owner);
            if k < i {
                assert(!items[k].copy_owner);
            }
        }
    }
}

proof fn lemma_cells(
    m: Metrics,
    items: Seq<HboxItem<IrLeaf>>,
    widths: Seq<u16>,
    columns: Seq<Seq<Seq<RowOp>>>,
    row: usize,
    upto: int,
)
    requires
        0 <= upto <= items.len(),
        columns == range_columns(m, items, widths, row, 1, RenderMeasurement::Complete),
    ensures
        cells(widths, columns, copy_owner_from(items, 0), 0, 1, false, false, upto) == Seq::new(
            items.len(),
            |k: int| column_row(m, items, widths, row, k),
        ).take(upto).flatten(),
    decreases upto,
{
    let owner = copy_owner_from(items, 0);
    let parts = Seq::new(items.len(), |k: int| column_row(m, items, widths, row, k));
    if upto > 0 {
        lemma_cells(m, items, widths, columns, row, upto - 1);
        lemma_range_columns(m, items, widths, row);
        lemma_copy_owner(items, 0);
        let k = upto - 1;
        assert(is_copied(items, k) == (k == owner));
        assert(parts.take(upto) =~= parts.take(k).push(parts[k]));
        parts.take(k).lemma_flatten_push(parts[k]);
        let left = cells(widths, columns, owner, 0, 1, false, false, k);
        if widths[k] == 0 {
            assert(left + parts[k] =~= left);
        } else {
            assert(columns[k] == row_alone(m, &items[k].layout, widths[k], row, None));
            assert(parts[k] =~= cell(
                widths[k],
                columns[k],
                shown_row(0, columns[k].len() as int, 1, false),
                k == owner,
                false,
            ));
        }
    } else {
        assert(parts.take(0) =~= Seq::empty());
    }
}

/// The first row of a prefixed child stands behind the first prefix, and every later one behind
/// the other, in the columns that the prefix leaves.
pub proof fn prefix_stands_before_each_row(
    m: Metrics,
    child: Box<LayoutIr>,
    spec: &RowPrefixSpec,
    layout: &LayoutIr,
    width: u16,
    gutter: Option<&GutterSpec>,
    row: usize,
)
    requires
        *layout == (BlockLayout::RowPrefix { child, spec: *spec }),
        special_child(m, *child) is Other,
        width > prefix_cells(*spec),
        row_alone(m, &*child, (width - prefix_cells(*spec)) as u16, row, None).len() == 1,
    ensures
        ({
            let inside = (width - prefix_cells(*spec)) as u16;
            let shown = row_alone(m, layout, width, row, gutter);
            let before = match gutter {
                Some(gutter) => seq![RowOp::RowGutter(gutter)],
                None => Seq::empty(),
            };
            let nested = NestedRow {
                width: inside,
                clip: width,
                to_row_end: true,
                inherit_style: true,
                decoration: RowDecoration::Full,
                pad: false,
                carry_wrapped: true,
            };
            &&& shown.len() == 1
            &&& shown[0] == before + seq![
                RowOp::Prefix {
                    spans: if row == 0 {
                        &spec.first
                    } else {
                        &spec.rest
                    },
                    max_cols: prefix_cells(*spec),
                    row_cols: width,
                },
                RowOp::OpenRow(nested),
            ] + row_alone(m, &*child, inside, row, None)[0] + seq![RowOp::CloseRow(nested)]
        }),
{
    let inside = (width - prefix_cells(*spec)) as u16;
    assert(after_gutter(width, prefix_cells(*spec)) == inside);
    assert(row_alone(m, layout, width, row, gutter) == row_prefix_range(
        m,
        &*child,
        spec,
        width,
        row,
        1,
        gutter,
        RenderMeasurement::Complete,
    ));
}

} // verus!
