//! What a refresh of a measurement does to it.
use vstd::prelude::*;
use crate::host::Metrics;
use crate::ir::{BlockLayout, HboxItem, IrLeaf, LayoutIr};
use crate::plan::{
    columns_outcome, is_plan, refresh_equals_rebuild, refresh_outcome, refreshed, same_but_contents,
    stack_outcome, MeasuredLayout, MeasuredLayoutKind,
};
use crate::retained::{
    can_keep, capped, column_counts, column_counts_of_all, layout_bytes, node_bytes,
    node_bytes_of_all, places_hold,
};
use crate::widths::{after_gutter, gutter_cells, inside_panel, prefix_cells};

verus! {

proof fn lemma_same_bytes_of_all(before: Seq<MeasuredLayout>, after: Seq<MeasuredLayout>)
    requires
        before.len() == after.len(),
        forall|i: int|
            0 <= i < before.len() ==> node_bytes(#[trigger] before[i]) == node_bytes(after[i]),
        forall|i: int|
            0 <= i < before.len() ==> column_counts(#[trigger] before[i]) == column_counts(
                after[i],
            ),
    ensures
        node_bytes_of_all(before) == node_bytes_of_all(after),
        column_counts_of_all(before) == column_counts_of_all(after),
    decreases before.len(),
{
    if before.len() > 0 {
        let n = before.len() - 1;
        assert(node_bytes(before[n]) == node_bytes(after[n]));
        assert forall|i: int| 0 <= i < n implies {
            &&& node_bytes(#[trigger] before.drop_last()[i]) == node_bytes(after.drop_last()[i])
            &&& column_counts(before.drop_last()[i]) == column_counts(after.drop_last()[i])
        } by {
            assert(before.drop_last()[i] == before[i]);
        }
        lemma_same_bytes_of_all(before.drop_last(), after.drop_last());
    }
}

proof fn lemma_refresh_keeps_shape(
    m: Metrics,
    layout: LayoutIr,
    before: MeasuredLayout,
    after: MeasuredLayout,
    width: u16,
    gutter: u16,
)
    requires
        refreshed(m, layout, before, after, width, gutter),
    ensures
        node_bytes(after) == node_bytes(before),
        column_counts(after) == column_counts(before),
    decreases layout,
{
    match (layout, before.kind) {
        (BlockLayout::Vbox(items), MeasuredLayoutKind::Children(old_children)) if items@.len()
            == old_children@.len() => {
            let children = after.kind->Children_0;
            assert forall|i: int| 0 <= i < items@.len() implies {
                &&& node_bytes(#[trigger] old_children@[i]) == node_bytes(children@[i])
                &&& column_counts(old_children@[i]) == column_counts(children@[i])
            } by {
                assert(refreshed(m, items@[i], old_children@[i], children@[i], width, gutter));
                lemma_refresh_keeps_shape(m, items@[i], old_children@[i], children@[i], width, gutter);
            }
            lemma_same_bytes_of_all(old_children@, children@);
        },
        (
            BlockLayout::Hbox(items),
            MeasuredLayoutKind::Hbox { widths, children: old_children },
        ) if items@.len() == widths@.len() && items@.len() == old_children@.len() => {
            let children = after.kind->Hbox_children;
            assert forall|i: int| 0 <= i < items@.len() implies {
                &&& node_bytes(#[trigger] old_children@[i]) == node_bytes(children@[i])
                &&& column_counts(old_children@[i]) == column_counts(children@[i])
            } by {
                assert(refreshed(
                    m,
                    items@[i].layout,
                    old_children@[i],
                    children@[i],
                    widths@[i],
                    0,
                ));
                lemma_refresh_keeps_shape(
                    m,
                    items@[i].layout,
                    old_children@[i],
                    children@[i],
                    widths@[i],
                    0,
                );
            }
            lemma_same_bytes_of_all(old_children@, children@);
        },
        (BlockLayout::Gutter { child, spec }, MeasuredLayoutKind::Child(inner)) => {
            lemma_refresh_keeps_shape(
                m,
                *child,
                *inner,
                *after.kind->Child_0,
                after_gutter(width, gutter_cells(spec)),
                gutter_cells(spec),
            );
        },
        (BlockLayout::RowPrefix { child, spec }, MeasuredLayoutKind::Child(inner)) => {
            lemma_refresh_keeps_shape(
                m,
                *child,
                *inner,
                *after.kind->Child_0,
                after_gutter(width, prefix_cells(spec)),
                gutter,
            );
        },
        (BlockLayout::Panel { child, spec }, MeasuredLayoutKind::Child(inner)) => {
            lemma_refresh_keeps_shape(
                m,
                *child,
                *inner,
                *after.kind->Child_0,
                inside_panel(width, spec.padding),
                0,
            );
        },
        (BlockLayout::Style { child, .. }, MeasuredLayoutKind::Child(inner)) => {
            lemma_refresh_keeps_shape(m, *child, *inner, *after.kind->Child_0, width, gutter);
        },
        (BlockLayout::Refresh { child, .. }, MeasuredLayoutKind::Child(inner)) => {
            lemma_refresh_keeps_shape(m, *child, *inner, *after.kind->Child_0, width, gutter);
        },
        _ => {},
    }
}

/// A refresh keeps the bytes of a measurement: the same numbers can be kept before and after.
pub proof fn refresh_keeps_bytes(
    m: Metrics,
    layout: LayoutIr,
    before: MeasuredLayout,
    after: MeasuredLayout,
    width: u16,
    bytes: usize,
)
    requires
        refreshed(m, layout, before, after, width, 0),
    ensures
        can_keep(after, bytes) == can_keep(before, bytes),
{
    lemma_refresh_keeps_shape(m, layout, before, after, width, 0);
    if can_keep(before, bytes) {
        let places = choose|places: Seq<usize>|
            #[trigger] places_hold(places, column_counts(before)) && bytes == capped(
                layout_bytes(before, places),
            );
        assert(places_hold(places, column_counts(after)) && bytes == capped(
            layout_bytes(after, places),
        ));
    }
    if can_keep(after, bytes) {
        let places = choose|places: Seq<usize>|
            #[trigger] places_hold(places, column_counts(after)) && bytes == capped(
                layout_bytes(after, places),
            );
        assert(places_hold(places, column_counts(before)) && bytes == capped(
            layout_bytes(before, places),
        ));
    }
}

proof fn lemma_stack_updated(items: Seq<LayoutIr>, children: Seq<MeasuredLayout>)
    requires
        items.len() == children.len(),
        !(stack_outcome(items, children) is Incompatible),
    ensures
        (stack_outcome(items, children) is Updated) == exists|i: int|
            0 <= i < items.len() && !has_no_content(#[trigger] items[i]),
    decreases items, 0int,
{
    if items.len() > 0 {
        let front = items.drop_last();
        let last = items.len() - 1;
        lemma_stack_updated(front, children.drop_last());
        lemma_outcome_updated(items.last(), children.last());
        assert(items[last] == items.last());
        assert forall|i: int| 0 <= i < front.len() implies #[trigger] front[i] == items[i] by {}
        if stack_outcome(front, children.drop_last()) is Updated {
            let i = choose|i: int| 0 <= i < front.len() && !has_no_content(#[trigger] front[i]);
            assert(!has_no_content(items[i]));
        }
        if exists|i: int| 0 <= i < items.len() && !has_no_content(#[trigger] items[i]) {
            let i = choose|i: int| 0 <= i < items.len() && !has_no_content(#[trigger] items[i]);
            if i < last {
                assert(!has_no_content(front[i]));
            }
        }
    }
}

proof fn lemma_columns_updated(items: Seq<HboxItem<IrLeaf>>, children: Seq<MeasuredLayout>)
    requires
        items.len() == children.len(),
        !(columns_outcome(items, children) is Incompatible),
    ensures
        (columns_outcome(items, children) is Updated) == exists|i: int|
            0 <= i < items.len() && !has_no_content((#[trigger] items[i]).layout),
    decreases items, 0int,
{
    if items.len() > 0 {
        let front = items.drop_last();
        let last = items.len() - 1;
        lemma_columns_updated(front, children.drop_last());
        lemma_outcome_updated(items.last().layout, children.last());
        assert(items[last] == items.last());
        assert forall|i: int| 0 <= i < front.len() implies #[trigger] front[i] == items[i] by {}
        if columns_outcome(front, children.drop_last()) is Updated {
            let i = choose|i: int|
                0 <= i < front.len() && !has_no_content((#[trigger] front[i]).layout);
            assert(!has_no_content(items[i].layout));
        }
        if exists|i: int| 0 <= i < items.len() && !has_no_content((#[trigger] items[i]).layout) {
            let i = choose|i: int|
                0 <= i < items.len() && !has_no_content((#[trigger] items[i]).layout);
            if i < last {
                assert(!has_no_content(front[i].layout));
            }
        }
    }
}

proof fn lemma_outcome_updated(layout: LayoutIr, measured: MeasuredLayout)
    requires
        !(refresh_outcome(layout, measured) is Incompatible),
    ensures
        (refresh_outcome(layout, measured) is Updated) == !has_no_content(layout),
    decreases layout, 1int,
{
    match (layout, measured.kind) {
        (BlockLayout::Vbox(items), MeasuredLayoutKind::Children(children)) => {
            lemma_stack_updated(items@, children@);
        },
        (BlockLayout::Hbox(items), MeasuredLayoutKind::Hbox { children, .. }) => {
            lemma_columns_updated(items@, children@);
        },
        (BlockLayout::Gutter { child, .. }, MeasuredLayoutKind::Child(inner)) => {
            lemma_outcome_updated(*child, *inner);
        },
        (BlockLayout::RowPrefix { child, .. }, MeasuredLayoutKind::Child(inner)) => {
            lemma_outcome_updated(*child, *inner);
        },
        (BlockLayout::Panel { child, .. }, MeasuredLayoutKind::Child(inner)) => {
            lemma_outcome_updated(*child, *inner);
        },
        (BlockLayout::Style { child, .. }, MeasuredLayoutKind::Child(inner)) => {
            lemma_outcome_updated(*child, *inner);
        },
        (BlockLayout::Refresh { child, .. }, MeasuredLayoutKind::Child(inner)) => {
            lemma_outcome_updated(*child, *inner);
        },
        _ => {},
    }
}

/// Refreshing equals rebuilding: the refreshed measurement is one of what the contents are
/// now, and keeps the bytes that it kept. An update is reported exactly where the layout has a
/// content or a cap.
pub proof fn refreshed_contents_equal_rebuilt(
    earlier: Metrics,
    m: Metrics,
    layout: LayoutIr,
    before: MeasuredLayout,
    after: MeasuredLayout,
    width: u16,
    bytes: usize,
)
    requires
        same_but_contents(earlier, m),
        is_plan(earlier, layout, before, width, 0),
        refreshed(m, layout, before, after, width, 0),
        can_keep(before, bytes),
    ensures
        is_plan(m, layout, after, width, 0),
        !(refresh_outcome(layout, before) is Incompatible),
        (refresh_outcome(layout, before) is Updated) == !has_no_content(layout),
        can_keep(after, bytes),
{
    refresh_equals_rebuild(earlier, m, layout, before, after, width, 0);
    refresh_keeps_bytes(m, layout, before, after, width, bytes);
    lemma_outcome_updated(layout, before);
}

/// No node is a retained content or a cap.
pub open spec fn has_no_content(layout: LayoutIr) -> bool
    decreases layout,
{
    match layout {
        BlockLayout::Empty => true,
        BlockLayout::Leaf(leaf) => !(leaf is Content),
        BlockLayout::Vbox(items) => forall|i: int|
            0 <= i < items@.len() ==> has_no_content(#[trigger] items@[i]),
        BlockLayout::Hbox(items) => forall|i: int|
            0 <= i < items@.len() ==> has_no_content((#[trigger] items@[i]).layout),
        BlockLayout::Gutter { child, .. } => has_no_content(*child),
        BlockLayout::RowPrefix { child, .. } => has_no_content(*child),
        BlockLayout::Panel { child, .. } => has_no_content(*child),
        BlockLayout::Style { child, .. } => has_no_content(*child),
        BlockLayout::Refresh { child, .. } => has_no_content(*child),
        BlockLayout::Cap { .. } => false,
    }
}

/// Both measurements have the same rows and columns in every node.
pub open spec fn same_measured(a: MeasuredLayout, b: MeasuredLayout) -> bool
    decreases a,
{
    &&& a.rows == b.rows
    &&& match a.kind {
        MeasuredLayoutKind::Terminal => b.kind is Terminal,
        MeasuredLayoutKind::Child(inner) => {
            &&& b.kind matches MeasuredLayoutKind::Child(other)
            &&& same_measured(*inner, *other)
        },
        MeasuredLayoutKind::Children(children) => {
            &&& b.kind matches MeasuredLayoutKind::Children(others)
            &&& children@.len() == others@.len()
            &&& forall|i: int|
                0 <= i < children@.len() ==> same_measured(#[trigger] children@[i], others@[i])
        },
        MeasuredLayoutKind::Hbox { widths, children } => {
            &&& b.kind matches MeasuredLayoutKind::Hbox { widths: other_widths, children: others }
            &&& widths@ == other_widths@
            &&& children@.len() == others@.len()
            &&& forall|i: int|
                0 <= i < children@.len() ==> same_measured(#[trigger] children@[i], others@[i])
        },
    }
}

proof fn lemma_same_measured(a: MeasuredLayout)
    ensures
        same_measured(a, a),
    decreases a,
{
    match a.kind {
        MeasuredLayoutKind::Terminal => {},
        MeasuredLayoutKind::Child(inner) => lemma_same_measured(*inner),
        MeasuredLayoutKind::Children(children) => {
            assert forall|i: int| 0 <= i < children@.len() implies same_measured(
                #[trigger] children@[i],
                children@[i],
            ) by {
                assert(decreases_to!(children@ => children@[i]));
                lemma_same_measured(children@[i]);
            }
        },
        MeasuredLayoutKind::Hbox { children, .. } => {
            assert forall|i: int| 0 <= i < children@.len() implies same_measured(
                #[trigger] children@[i],
                children@[i],
            ) by {
                assert(decreases_to!(children@ => children@[i]));
                lemma_same_measured(children@[i]);
            }
        },
    }
}

proof fn lemma_stack_not_updated(items: Seq<LayoutIr>, children: Seq<MeasuredLayout>)
    requires
        items.len() == children.len(),
        forall|i: int|
            0 <= i < items.len() ==> !(refresh_outcome(#[trigger] items[i], children[i])
                is Updated),
    ensures
        !(stack_outcome(items, children) is Updated),
    decreases items.len(),
{
    if items.len() > 0 {
        assert(!(refresh_outcome(items[items.len() - 1], children.last()) is Updated));
        assert forall|i: int| 0 <= i < items.len() - 1 implies !(refresh_outcome(
            #[trigger] items.drop_last()[i],
            children.drop_last()[i],
        ) is Updated) by {
            assert(items.drop_last()[i] == items[i]);
        }
        lemma_stack_not_updated(items.drop_last(), children.drop_last());
    }
}

proof fn lemma_columns_not_updated(items: Seq<HboxItem<IrLeaf>>, children: Seq<MeasuredLayout>)
    requires
        items.len() == children.len(),
        forall|i: int|
            0 <= i < items.len() ==> !(refresh_outcome((#[trigger] items[i]).layout, children[i])
                is Updated),
    ensures
        !(columns_outcome(items, children) is Updated),
    decreases items.len(),
{
    if items.len() > 0 {
        assert(!(refresh_outcome(items[items.len() - 1].layout, children.last()) is Updated));
        assert forall|i: int| 0 <= i < items.len() - 1 implies !(refresh_outcome(
            (#[trigger] items.drop_last()[i]).layout,
            children.drop_last()[i],
        ) is Updated) by {
            assert(items.drop_last()[i] == items[i]);
        }
        lemma_columns_not_updated(items.drop_last(), children.drop_last());
    }
}

/// A refresh leaves the measurement of a layout alone that has neither contents nor caps.
pub proof fn refresh_leaves_the_rest_alone(
    m: Metrics,
    layout: LayoutIr,
    before: MeasuredLayout,
    after: MeasuredLayout,
    width: u16,
    gutter: u16,
)
    requires
        has_no_content(layout),
        refreshed(m, layout, before, after, width, gutter),
    ensures
        !(refresh_outcome(layout, before) is Updated),
        same_measured(before, after),
    decreases layout,
{
    match (layout, before.kind) {
        (BlockLayout::Vbox(items), MeasuredLayoutKind::Children(old_children)) if items@.len()
            == old_children@.len() => {
            let children = after.kind->Children_0;
            assert forall|i: int| 0 <= i < items@.len() implies {
                &&& !(refresh_outcome(#[trigger] items@[i], old_children@[i]) is Updated)
                &&& same_measured(old_children@[i], children@[i])
            } by {
                refresh_leaves_the_rest_alone(
                    m,
                    items@[i],
                    old_children@[i],
                    children@[i],
                    width,
                    gutter,
                );
            }
            lemma_stack_not_updated(items@, old_children@);
            assert forall|i: int| 0 <= i < old_children@.len() implies same_measured(
                #[trigger] old_children@[i],
                children@[i],
            ) by {
                assert(!(refresh_outcome(items@[i], old_children@[i]) is Updated));
            }
        },
        (
            BlockLayout::Hbox(items),
            MeasuredLayoutKind::Hbox { widths, children: old_children },
        ) if items@.len() == widths@.len() && items@.len() == old_children@.len() => {
            let children = after.kind->Hbox_children;
            assert forall|i: int| 0 <= i < items@.len() implies {
                &&& !(refresh_outcome((#[trigger] items@[i]).layout, old_children@[i]) is Updated)
                &&& same_measured(old_children@[i], children@[i])
            } by {
                refresh_leaves_the_rest_alone(
                    m,
                    items@[i].layout,
                    old_children@[i],
                    children@[i],
                    widths@[i],
                    0,
                );
            }
            lemma_columns_not_updated(items@, old_children@);
            assert forall|i: int| 0 <= i < old_children@.len() implies same_measured(
                #[trigger] old_children@[i],
                children@[i],
            ) by {
                assert(!(refresh_outcome(items@[i].layout, old_children@[i]) is Updated));
            }
        },
        (BlockLayout::Gutter { child, spec }, MeasuredLayoutKind::Child(inner)) => {
            refresh_leaves_the_rest_alone(
                m,
                *child,
                *inner,
                *after.kind->Child_0,
                after_gutter(width, gutter_cells(spec)),
                gutter_cells(spec),
            );
        },
        (BlockLayout::RowPrefix { child, spec }, MeasuredLayoutKind::Child(inner)) => {
            refresh_leaves_the_rest_alone(
                m,
                *child,
                *inner,
                *after.kind->Child_0,
                after_gutter(width, prefix_cells(spec)),
                gutter,
            );
        },
        (BlockLayout::Panel { child, spec }, MeasuredLayoutKind::Child(inner)) => {
            refresh_leaves_the_rest_alone(
                m,
                *child,
                *inner,
                *after.kind->Child_0,
                inside_panel(width, spec.padding),
                0,
            );
        },
        (BlockLayout::Style { child, .. }, MeasuredLayoutKind::Child(inner)) => {
            refresh_leaves_the_rest_alone(m, *child, *inner, *after.kind->Child_0, width, gutter);
        },
        (BlockLayout::Refresh { child, .. }, MeasuredLayoutKind::Child(inner)) => {
            refresh_leaves_the_rest_alone(m, *child, *inner, *after.kind->Child_0, width, gutter);
        },
        _ => {
            lemma_same_measured(before);
        },
    }
}

} // verus!
