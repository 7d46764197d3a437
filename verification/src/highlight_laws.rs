//! The highlights of a layout change none of its rows.
use vstd::prelude::*;
use crate::budget::{columns_size, fits_exact, layout_size, leaf_fits_exact, stack_size};
use crate::cap_rows::omitted_of;
use crate::compile::{syntax_compiled, CompileEnv};
use crate::host::Metrics;
use crate::ir::{BlockLayout, CapSpec, HboxItem, IrLeaf, LayoutIr, RowPrefixSpec};
use crate::measure::{
    bounded_cap_rows, capped_child, columns_visible, edge_columns, edge_stack, edge_window,
    layout_rows, omitted_visible, range_visible, special_rows, stack_visible, stacked_rows,
    tallest_rows,
};
use crate::plan::{is_plan, MeasuredLayout, MeasuredLayoutKind};
use crate::text::spec_min;
use crate::widths::{
    after_gutter, columns_intrinsic, constraints_of, gutter_cells, hbox_widths, inside_panel,
    intrinsic, prefix_cells, widest_child,
};

verus! {

/// Both leaves are the same but for their highlights.
pub open spec fn same_leaf(a: IrLeaf, b: IrLeaf) -> bool {
    match (a, b) {
        (IrLeaf::Runs(x), IrLeaf::Runs(y)) => {
            &&& y.lines == x.lines
            &&& y.hl_group == x.hl_group
            &&& y.continuation_indent == x.continuation_indent
        },
        (IrLeaf::Line(x), IrLeaf::Line(y)) => {
            &&& y.spans == x.spans
            &&& y.hl_group == x.hl_group
        },
        (IrLeaf::Runs(_), _) | (IrLeaf::Line(_), _) => false,
        _ => a == b,
    }
}

/// Both layouts are the same but for their highlights.
pub open spec fn same_but_highlights(a: LayoutIr, b: LayoutIr) -> bool
    decreases a,
{
    match (a, b) {
        (BlockLayout::Empty, BlockLayout::Empty) => true,
        (BlockLayout::Leaf(x), BlockLayout::Leaf(y)) => same_leaf(x, y),
        (BlockLayout::Vbox(x), BlockLayout::Vbox(y)) => {
            &&& x@.len() == y@.len()
            &&& forall|i: int| 0 <= i < x@.len() ==> same_but_highlights(#[trigger] x@[i], y@[i])
        },
        (BlockLayout::Hbox(x), BlockLayout::Hbox(y)) => {
            &&& x@.len() == y@.len()
            &&& forall|i: int|
                0 <= i < x@.len() ==> {
                    &&& same_but_highlights((#[trigger] x@[i]).layout, y@[i].layout)
                    &&& y@[i].constraint == x@[i].constraint
                    &&& y@[i].copy_owner == x@[i].copy_owner
                }
        },
        (
            BlockLayout::Gutter { child: x, spec: p },
            BlockLayout::Gutter { child: y, spec: q },
        ) => same_but_highlights(*x, *y) && p == q,
        (
            BlockLayout::RowPrefix { child: x, spec: p },
            BlockLayout::RowPrefix { child: y, spec: q },
        ) => same_but_highlights(*x, *y) && p == q,
        (
            BlockLayout::Panel { child: x, spec: p },
            BlockLayout::Panel { child: y, spec: q },
        ) => same_but_highlights(*x, *y) && p == q,
        (
            BlockLayout::Style { child: x, spec: p },
            BlockLayout::Style { child: y, spec: q },
        ) => same_but_highlights(*x, *y) && p == q,
        (BlockLayout::Cap { child: x, spec: p }, BlockLayout::Cap { child: y, spec: q }) => {
            same_but_highlights(*x, *y) && p == q
        },
        (
            BlockLayout::Refresh { child: x, spec: p },
            BlockLayout::Refresh { child: y, spec: q },
        ) => same_but_highlights(*x, *y) && p == q,
        _ => false,
    }
}

/// Highlights count for nothing in what is said of leaves and layouts.
pub open spec fn overlooks_highlights(m: Metrics) -> bool {
    &&& forall|a: IrLeaf, b: IrLeaf, width: u16, gutter: u16|
        #![trigger same_leaf(a, b), (m.leaf_rows)(b, width, gutter)]
        same_leaf(a, b) ==> (m.leaf_rows)(a, width, gutter) == (m.leaf_rows)(b, width, gutter)
    &&& forall|a: IrLeaf, b: IrLeaf, prefix: RowPrefixSpec, width: u16|
        #![trigger same_leaf(a, b), (m.prefix_rows)(b->Runs_0, prefix, width)]
        a is Runs && same_leaf(a, b) ==> (m.prefix_rows)(a->Runs_0, prefix, width) == (
        m.prefix_rows)(b->Runs_0, prefix, width)
    &&& forall|a: LayoutIr, b: LayoutIr, width: u16, start: usize, end: usize|
        #![trigger same_but_highlights(a, b), (m.drawn_visible)(b, width, start, end)]
        same_but_highlights(a, b) ==> (m.drawn_visible)(a, width, start, end) == (
        m.drawn_visible)(b, width, start, end)
}

/// Children that are the same but for their highlights.
pub open spec fn same_children(a: Seq<LayoutIr>, b: Seq<LayoutIr>) -> bool {
    &&& a.len() == b.len()
    &&& forall|i: int| 0 <= i < a.len() ==> same_but_highlights(#[trigger] a[i], b[i])
}

/// Columns that are the same but for their highlights.
pub open spec fn same_columns(a: Seq<HboxItem<IrLeaf>>, b: Seq<HboxItem<IrLeaf>>) -> bool {
    &&& a.len() == b.len()
    &&& forall|i: int|
        0 <= i < a.len() ==> {
            &&& same_but_highlights((#[trigger] a[i]).layout, b[i].layout)
            &&& b[i].constraint == a[i].constraint
        }
}

/// Highlighting a layout anew changes nothing but its highlights.
pub proof fn highlighting_changes_highlights_only(
    env: CompileEnv,
    before: LayoutIr,
    after: LayoutIr,
)
    requires
        syntax_compiled(env, before, after),
    ensures
        same_but_highlights(before, after),
    decreases before,
{
    match (before, after) {
        (BlockLayout::Vbox(x), BlockLayout::Vbox(y)) => {
            assert forall|i: int| 0 <= i < x@.len() implies same_but_highlights(
                #[trigger] x@[i],
                y@[i],
            ) by {
                highlighting_changes_highlights_only(env, x@[i], y@[i]);
            }
        },
        (BlockLayout::Hbox(x), BlockLayout::Hbox(y)) => {
            assert forall|i: int| 0 <= i < x@.len() implies same_but_highlights(
                (#[trigger] x@[i]).layout,
                y@[i].layout,
            ) by {
                highlighting_changes_highlights_only(env, x@[i].layout, y@[i].layout);
            }
        },
        (BlockLayout::Gutter { child: x, .. }, BlockLayout::Gutter { child: y, .. }) => {
            highlighting_changes_highlights_only(env, *x, *y);
        },
        (BlockLayout::RowPrefix { child: x, .. }, BlockLayout::RowPrefix { child: y, .. }) => {
            highlighting_changes_highlights_only(env, *x, *y);
        },
        (BlockLayout::Panel { child: x, .. }, BlockLayout::Panel { child: y, .. }) => {
            highlighting_changes_highlights_only(env, *x, *y);
        },
        (BlockLayout::Style { child: x, .. }, BlockLayout::Style { child: y, .. }) => {
            highlighting_changes_highlights_only(env, *x, *y);
        },
        (BlockLayout::Cap { child: x, .. }, BlockLayout::Cap { child: y, .. }) => {
            highlighting_changes_highlights_only(env, *x, *y);
        },
        (BlockLayout::Refresh { child: x, .. }, BlockLayout::Refresh { child: y, .. }) => {
            highlighting_changes_highlights_only(env, *x, *y);
        },
        _ => {},
    }
}

proof fn lemma_same_intrinsic(a: LayoutIr, b: LayoutIr, total: u16)
    requires
        same_but_highlights(a, b),
    ensures
        intrinsic(a, total) == intrinsic(b, total),
    decreases a,
{
    match (a, b) {
        (BlockLayout::Vbox(x), BlockLayout::Vbox(y)) => {
            assert(same_children(x@, y@));
            lemma_same_widest(x@, y@, total);
        },
        (BlockLayout::Hbox(x), BlockLayout::Hbox(y)) => {
            assert(same_columns(x@, y@));
            lemma_same_columns_intrinsic(x@, y@, total);
        },
        (BlockLayout::Gutter { child: x, .. }, BlockLayout::Gutter { child: y, .. }) => {
            lemma_same_intrinsic(*x, *y, total);
        },
        (BlockLayout::RowPrefix { child: x, .. }, BlockLayout::RowPrefix { child: y, .. }) => {
            lemma_same_intrinsic(*x, *y, total);
        },
        (BlockLayout::Panel { child: x, .. }, BlockLayout::Panel { child: y, .. }) => {
            lemma_same_intrinsic(*x, *y, total);
        },
        (BlockLayout::Style { child: x, .. }, BlockLayout::Style { child: y, .. }) => {
            lemma_same_intrinsic(*x, *y, total);
        },
        (BlockLayout::Cap { child: x, .. }, BlockLayout::Cap { child: y, .. }) => {
            lemma_same_intrinsic(*x, *y, total);
        },
        (BlockLayout::Refresh { child: x, .. }, BlockLayout::Refresh { child: y, .. }) => {
            lemma_same_intrinsic(*x, *y, total);
        },
        _ => {},
    }
}

proof fn lemma_same_widest(a: Seq<LayoutIr>, b: Seq<LayoutIr>, total: u16)
    requires
        same_children(a, b),
    ensures
        widest_child(a, total) == widest_child(b, total),
    decreases a,
{
    if a.len() > 0 {
        assert(same_children(a.drop_last(), b.drop_last()));
        lemma_same_widest(a.drop_last(), b.drop_last(), total);
        assert(same_but_highlights(a[a.len() - 1], b[a.len() - 1]));
        lemma_same_intrinsic(a.last(), b.last(), total);
    }
}

proof fn lemma_same_columns_intrinsic(
    a: Seq<HboxItem<IrLeaf>>,
    b: Seq<HboxItem<IrLeaf>>,
    total: u16,
)
    requires
        same_columns(a, b),
    ensures
        columns_intrinsic(a, total) == columns_intrinsic(b, total),
    decreases a,
{
    if a.len() > 0 {
        assert(same_columns(a.drop_last(), b.drop_last()));
        lemma_same_columns_intrinsic(a.drop_last(), b.drop_last(), total);
        assert(same_but_highlights(a[a.len() - 1].layout, b[a.len() - 1].layout));
        lemma_same_intrinsic(a.last().layout, b.last().layout, total);
    }
}

proof fn lemma_same_widths(
    m: Metrics,
    a: Seq<HboxItem<IrLeaf>>,
    b: Seq<HboxItem<IrLeaf>>,
    total: u16,
)
    requires
        same_columns(a, b),
    ensures
        hbox_widths(m, a, total) == hbox_widths(m, b, total),
{
    lemma_same_columns_intrinsic(a, b, total);
    assert(constraints_of(a) =~= constraints_of(b));
}

proof fn lemma_same_size(m: Metrics, a: LayoutIr, b: LayoutIr)
    requires
        same_but_highlights(a, b),
    ensures
        layout_size(m, a) == layout_size(m, b),
    decreases a,
{
    match (a, b) {
        (BlockLayout::Vbox(x), BlockLayout::Vbox(y)) => {
            assert(same_children(x@, y@));
            lemma_same_stack_size(m, x@, y@);
        },
        (BlockLayout::Hbox(x), BlockLayout::Hbox(y)) => {
            assert(same_columns(x@, y@));
            lemma_same_columns_size(m, x@, y@);
        },
        (BlockLayout::Gutter { child: x, .. }, BlockLayout::Gutter { child: y, .. }) => {
            lemma_same_size(m, *x, *y);
        },
        (BlockLayout::RowPrefix { child: x, .. }, BlockLayout::RowPrefix { child: y, .. }) => {
            lemma_same_size(m, *x, *y);
        },
        (BlockLayout::Panel { child: x, .. }, BlockLayout::Panel { child: y, .. }) => {
            lemma_same_size(m, *x, *y);
        },
        (BlockLayout::Style { child: x, .. }, BlockLayout::Style { child: y, .. }) => {
            lemma_same_size(m, *x, *y);
        },
        (BlockLayout::Cap { child: x, .. }, BlockLayout::Cap { child: y, .. }) => {
            lemma_same_size(m, *x, *y);
        },
        (BlockLayout::Refresh { child: x, .. }, BlockLayout::Refresh { child: y, .. }) => {
            lemma_same_size(m, *x, *y);
        },
        _ => {},
    }
}

proof fn lemma_same_stack_size(m: Metrics, a: Seq<LayoutIr>, b: Seq<LayoutIr>)
    requires
        same_children(a, b),
    ensures
        stack_size(m, a) == stack_size(m, b),
    decreases a,
{
    if a.len() > 0 {
        assert(same_children(a.drop_last(), b.drop_last()));
        lemma_same_stack_size(m, a.drop_last(), b.drop_last());
        assert(same_but_highlights(a[a.len() - 1], b[a.len() - 1]));
        lemma_same_size(m, a.last(), b.last());
    }
}

proof fn lemma_same_columns_size(
    m: Metrics,
    a: Seq<HboxItem<IrLeaf>>,
    b: Seq<HboxItem<IrLeaf>>,
)
    requires
        same_columns(a, b),
    ensures
        columns_size(m, a) == columns_size(m, b),
    decreases a,
{
    if a.len() > 0 {
        assert(same_columns(a.drop_last(), b.drop_last()));
        lemma_same_columns_size(m, a.drop_last(), b.drop_last());
        assert(same_but_highlights(a[a.len() - 1].layout, b[a.len() - 1].layout));
        lemma_same_size(m, a.last().layout, b.last().layout);
    }
}

proof fn lemma_same_special(
    m: Metrics,
    a: LayoutIr,
    b: LayoutIr,
    prefix: RowPrefixSpec,
    width: u16,
)
    requires
        overlooks_highlights(m),
        same_but_highlights(a, b),
    ensures
        special_rows(m, a, prefix, width) == special_rows(m, b, prefix, width),
{
    reveal_with_fuel(same_but_highlights, 2);
    match (a, b) {
        (BlockLayout::Leaf(x), BlockLayout::Leaf(y)) => {
            if x is Runs {
                assert(same_leaf(x, y));
                let rows = (m.prefix_rows)(y->Runs_0, prefix, width);
                assert((m.prefix_rows)(x->Runs_0, prefix, width) == rows);
            }
        },
        (BlockLayout::Cap { child: x, .. }, BlockLayout::Cap { child: y, .. }) => {
            lemma_same_size(m, *x, *y);
            if let (BlockLayout::Leaf(x), BlockLayout::Leaf(y)) = (*x, *y) {
                if x is Runs {
                    assert(same_leaf(x, y));
                    let rows = (m.prefix_rows)(y->Runs_0, prefix, width);
                    assert((m.prefix_rows)(x->Runs_0, prefix, width) == rows);
                }
            }
        },
        _ => {},
    }
}

proof fn lemma_same_rows(m: Metrics, a: LayoutIr, b: LayoutIr, width: u16, gutter: u16)
    requires
        overlooks_highlights(m),
        same_but_highlights(a, b),
    ensures
        layout_rows(m, a, width, gutter) == layout_rows(m, b, width, gutter),
    decreases a, 0nat,
{
    match (a, b) {
        (BlockLayout::Leaf(x), BlockLayout::Leaf(y)) => {
            assert(same_leaf(x, y));
            assert((m.leaf_rows)(x, width, gutter) == (m.leaf_rows)(y, width, gutter));
        },
        (BlockLayout::Vbox(x), BlockLayout::Vbox(y)) => {
            assert(same_children(x@, y@));
            lemma_same_stacked(m, x@, y@, width, gutter);
        },
        (BlockLayout::Hbox(x), BlockLayout::Hbox(y)) => {
            assert(same_columns(x@, y@));
            lemma_same_widths(m, x@, y@, width);
            lemma_same_tallest(m, x@, y@, hbox_widths(m, x@, width));
        },
        (
            BlockLayout::Gutter { child: x, spec },
            BlockLayout::Gutter { child: y, .. },
        ) => {
            let cells = gutter_cells(spec);
            lemma_same_rows(m, *x, *y, after_gutter(width, cells), cells);
        },
        (
            BlockLayout::RowPrefix { child: x, spec },
            BlockLayout::RowPrefix { child: y, .. },
        ) => {
            lemma_same_special(m, *x, *y, spec, width);
            lemma_same_rows(m, *x, *y, after_gutter(width, prefix_cells(spec)), gutter);
        },
        (BlockLayout::Panel { child: x, spec }, BlockLayout::Panel { child: y, .. }) => {
            lemma_same_rows(m, *x, *y, inside_panel(width, spec.padding), 0);
        },
        (BlockLayout::Style { child: x, .. }, BlockLayout::Style { child: y, .. }) => {
            lemma_same_rows(m, *x, *y, width, gutter);
        },
        (BlockLayout::Refresh { child: x, .. }, BlockLayout::Refresh { child: y, .. }) => {
            lemma_same_rows(m, *x, *y, width, gutter);
        },
        (BlockLayout::Cap { child: x, spec }, BlockLayout::Cap { child: y, .. }) => {
            lemma_same_cap_rows(m, *x, *y, spec, width, 0);
        },
        _ => {},
    }
}

proof fn lemma_same_stacked(
    m: Metrics,
    a: Seq<LayoutIr>,
    b: Seq<LayoutIr>,
    width: u16,
    gutter: u16,
)
    requires
        overlooks_highlights(m),
        same_children(a, b),
    ensures
        stacked_rows(m, a, width, gutter) == stacked_rows(m, b, width, gutter),
    decreases a, 0nat,
{
    if a.len() > 0 {
        assert(same_children(a.drop_last(), b.drop_last()));
        lemma_same_stacked(m, a.drop_last(), b.drop_last(), width, gutter);
        assert(same_but_highlights(a[a.len() - 1], b[a.len() - 1]));
        lemma_same_rows(m, a.last(), b.last(), width, gutter);
    }
}

proof fn lemma_same_tallest(
    m: Metrics,
    a: Seq<HboxItem<IrLeaf>>,
    b: Seq<HboxItem<IrLeaf>>,
    widths: Seq<u16>,
)
    requires
        overlooks_highlights(m),
        same_columns(a, b),
    ensures
        tallest_rows(m, a, widths) == tallest_rows(m, b, widths),
    decreases a, 0nat,
{
    if a.len() > 0 {
        assert(same_columns(a.drop_last(), b.drop_last()));
        lemma_same_tallest(m, a.drop_last(), b.drop_last(), widths);
        assert(same_but_highlights(a[a.len() - 1].layout, b[a.len() - 1].layout));
        lemma_same_rows(m, a.last().layout, b.last().layout, widths[a.len() - 1], 0);
    }
}

proof fn lemma_same_edge(
    m: Metrics,
    a: LayoutIr,
    b: LayoutIr,
    width: u16,
    max_rows: usize,
    depth: usize,
)
    requires
        overlooks_highlights(m),
        same_but_highlights(a, b),
    ensures
        edge_window(m, a, width, max_rows, depth) == edge_window(m, b, width, max_rows, depth),
    decreases a, 1nat,
{
    let below = (depth + 1) as usize;
    match (a, b) {
        (BlockLayout::Leaf(x), BlockLayout::Leaf(y)) => {
            assert(same_leaf(x, y));
            assert((m.leaf_rows)(x, width, 0) == (m.leaf_rows)(y, width, 0));
            assert(leaf_fits_exact(m, x) == leaf_fits_exact(m, y));
        },
        (BlockLayout::Vbox(x), BlockLayout::Vbox(y)) => {
            assert(same_children(x@, y@));
            lemma_same_edge_stack(m, x@, y@, width, max_rows, 0, below);
        },
        (BlockLayout::Hbox(x), BlockLayout::Hbox(y)) => {
            assert(same_columns(x@, y@));
            lemma_same_widths(m, x@, y@, width);
            lemma_same_edge_columns(m, x@, y@, hbox_widths(m, x@, width), max_rows, below);
        },
        (
            BlockLayout::Gutter { child: x, spec },
            BlockLayout::Gutter { child: y, .. },
        ) => {
            lemma_same_edge(m, *x, *y, after_gutter(width, gutter_cells(spec)), max_rows, below);
        },
        (
            BlockLayout::RowPrefix { child: x, spec },
            BlockLayout::RowPrefix { child: y, .. },
        ) => {
            lemma_same_edge(m, *x, *y, after_gutter(width, prefix_cells(spec)), max_rows, below);
        },
        (BlockLayout::Panel { child: x, spec }, BlockLayout::Panel { child: y, .. }) => {
            lemma_same_edge(
                m,
                *x,
                *y,
                inside_panel(width, spec.padding),
                (max_rows - spec.padding) as usize,
                below,
            );
        },
        (BlockLayout::Style { child: x, .. }, BlockLayout::Style { child: y, .. }) => {
            lemma_same_edge(m, *x, *y, width, max_rows, below);
        },
        (BlockLayout::Refresh { child: x, .. }, BlockLayout::Refresh { child: y, .. }) => {
            lemma_same_edge(m, *x, *y, width, max_rows, below);
        },
        (BlockLayout::Cap { child: x, spec }, BlockLayout::Cap { child: y, .. }) => {
            lemma_same_cap_rows(m, *x, *y, spec, width, below);
        },
        _ => {},
    }
}

proof fn lemma_same_edge_stack(
    m: Metrics,
    a: Seq<LayoutIr>,
    b: Seq<LayoutIr>,
    width: u16,
    max_rows: usize,
    above: usize,
    depth: usize,
)
    requires
        overlooks_highlights(m),
        same_children(a, b),
    ensures
        edge_stack(m, a, width, max_rows, above, depth) == edge_stack(
            m,
            b,
            width,
            max_rows,
            above,
            depth,
        ),
    decreases a, 1nat,
{
    if a.len() > 0 && above < max_rows {
        let left = (max_rows - above) as usize;
        assert(same_but_highlights(a[0], b[0]));
        lemma_same_edge(m, a[0], b[0], width, left, depth);
        let child = edge_window(m, a[0], width, left, depth);
        assert(same_children(a.drop_first(), b.drop_first()));
        lemma_same_edge_stack(
            m,
            a.drop_first(),
            b.drop_first(),
            width,
            max_rows,
            above.saturating_add(child.row_count),
            depth,
        );
    }
}

proof fn lemma_same_edge_columns(
    m: Metrics,
    a: Seq<HboxItem<IrLeaf>>,
    b: Seq<HboxItem<IrLeaf>>,
    widths: Seq<u16>,
    max_rows: usize,
    depth: usize,
)
    requires
        overlooks_highlights(m),
        same_columns(a, b),
    ensures
        edge_columns(m, a, widths, max_rows, depth) == edge_columns(
            m,
            b,
            widths,
            max_rows,
            depth,
        ),
    decreases a, 1nat,
{
    if a.len() > 0 {
        let width = widths[a.len() - 1];
        assert(same_columns(a.drop_last(), b.drop_last()));
        lemma_same_edge_columns(m, a.drop_last(), b.drop_last(), widths, max_rows, depth);
        assert(same_but_highlights(a[a.len() - 1].layout, b[a.len() - 1].layout));
        lemma_same_edge(m, a.last().layout, b.last().layout, width, max_rows, depth);
    }
}

proof fn lemma_same_visible(
    m: Metrics,
    a: LayoutIr,
    b: LayoutIr,
    width: u16,
    start: usize,
    end: usize,
)
    requires
        overlooks_highlights(m),
        same_but_highlights(a, b),
    ensures
        range_visible(m, a, width, start, end) == range_visible(m, b, width, start, end),
    decreases a, 1nat,
{
    match (a, b) {
        (BlockLayout::Vbox(x), BlockLayout::Vbox(y)) => {
            assert(same_children(x@, y@));
            lemma_same_stack_visible(m, x@, y@, width, start, end, 0, false);
        },
        (BlockLayout::Hbox(x), BlockLayout::Hbox(y)) => {
            assert(same_columns(x@, y@));
            lemma_same_widths(m, x@, y@, width);
            let widths = hbox_widths(m, x@, width);
            lemma_same_columns_visible(m, x@, y@, widths, start, end, false);
        },
        (
            BlockLayout::Gutter { child: x, spec },
            BlockLayout::Gutter { child: y, .. },
        ) => {
            let inside = after_gutter(width, gutter_cells(spec));
            lemma_same_visible(m, *x, *y, inside, start, end);
        },
        (BlockLayout::Style { child: x, .. }, BlockLayout::Style { child: y, .. }) => {
            lemma_same_visible(m, *x, *y, width, start, end);
        },
        _ => {},
    }
}

proof fn lemma_same_stack_visible(
    m: Metrics,
    a: Seq<LayoutIr>,
    b: Seq<LayoutIr>,
    width: u16,
    start: usize,
    end: usize,
    base: usize,
    unknown: bool,
)
    requires
        overlooks_highlights(m),
        same_children(a, b),
    ensures
        stack_visible(m, a, width, start, end, base, unknown) == stack_visible(
            m,
            b,
            width,
            start,
            end,
            base,
            unknown,
        ),
    decreases a, 1nat,
{
    if a.len() > 0 && base < end {
        assert(same_but_highlights(a[0], b[0]));
        lemma_same_rows(m, a[0], b[0], width, 0);
        let rows = layout_rows(m, a[0], width, 0);
        let child_end = base.saturating_add(rows);
        let first = start.saturating_sub(base);
        let last = spec_min((end - base) as usize, rows);
        lemma_same_visible(m, a[0], b[0], width, first, last);
        let seen = if child_end > start {
            range_visible(m, a[0], width, first, last)
        } else {
            Some(false)
        };
        assert(same_children(a.drop_first(), b.drop_first()));
        lemma_same_stack_visible(
            m,
            a.drop_first(),
            b.drop_first(),
            width,
            start,
            end,
            child_end,
            unknown || seen is None,
        );
    }
}

proof fn lemma_same_columns_visible(
    m: Metrics,
    a: Seq<HboxItem<IrLeaf>>,
    b: Seq<HboxItem<IrLeaf>>,
    widths: Seq<u16>,
    start: usize,
    end: usize,
    unknown: bool,
)
    requires
        overlooks_highlights(m),
        same_columns(a, b),
    ensures
        columns_visible(m, a, widths, start, end, unknown) == columns_visible(
            m,
            b,
            widths,
            start,
            end,
            unknown,
        ),
    decreases a, 1nat,
{
    if a.len() > 0 {
        assert(same_but_highlights(a[0].layout, b[0].layout));
        lemma_same_visible(m, a[0].layout, b[0].layout, widths[0], start, end);
        let seen = range_visible(m, a[0].layout, widths[0], start, end);
        assert(same_columns(a.drop_first(), b.drop_first()));
        lemma_same_columns_visible(
            m,
            a.drop_first(),
            b.drop_first(),
            widths.drop_first(),
            start,
            end,
            unknown || seen is None,
        );
    }
}

proof fn lemma_same_capped(
    m: Metrics,
    rows: usize,
    spec: CapSpec,
    a: LayoutIr,
    b: LayoutIr,
    width: u16,
)
    requires
        overlooks_highlights(m),
        same_but_highlights(a, b),
    ensures
        capped_child(m, rows, spec, a, width) == capped_child(m, rows, spec, b, width),
    decreases a, 3nat,
{
    if let Some((start, end)) = omitted_of(rows as int, spec) {
        lemma_same_visible(m, a, b, width, start, end);
        assert((m.drawn_visible)(a, width, start, end) == (m.drawn_visible)(
            b,
            width,
            start,
            end,
        ));
        assert(omitted_visible(m, a, width, start, end) == omitted_visible(
            m,
            b,
            width,
            start,
            end,
        ));
    }
}

proof fn lemma_same_cap_rows(
    m: Metrics,
    a: LayoutIr,
    b: LayoutIr,
    spec: CapSpec,
    width: u16,
    depth: usize,
)
    requires
        overlooks_highlights(m),
        same_but_highlights(a, b),
    ensures
        bounded_cap_rows(m, a, spec, width, depth) == bounded_cap_rows(m, b, spec, width, depth),
    decreases a, 4nat,
{
    lemma_same_size(m, a, b);
    assert(fits_exact(m, a) == fits_exact(m, b));
    lemma_same_rows(m, a, b, width, 0);
    lemma_same_capped(m, layout_rows(m, a, width, 0), spec, a, b, width);
    lemma_same_edge(m, a, b, width, (spec.rows + 1) as usize, depth);
}

/// What is measured of a layout holds of it with other highlights too.
pub proof fn highlights_change_no_rows(
    m: Metrics,
    before: LayoutIr,
    after: LayoutIr,
    measured: MeasuredLayout,
    width: u16,
    gutter: u16,
)
    requires
        overlooks_highlights(m),
        same_but_highlights(before, after),
        is_plan(m, before, measured, width, gutter),
    ensures
        is_plan(m, after, measured, width, gutter),
    decreases before,
{
    match (before, after) {
        (BlockLayout::Leaf(x), BlockLayout::Leaf(y)) => {
            assert(same_leaf(x, y));
            assert((m.leaf_rows)(x, width, gutter) == (m.leaf_rows)(y, width, gutter));
        },
        (BlockLayout::Vbox(x), BlockLayout::Vbox(y)) => {
            if let MeasuredLayoutKind::Children(children) = measured.kind {
                assert forall|i: int| 0 <= i < y@.len() implies is_plan(
                    m,
                    #[trigger] y@[i],
                    children@[i],
                    width,
                    gutter,
                ) by {
                    assert(same_but_highlights(x@[i], y@[i]));
                    highlights_change_no_rows(m, x@[i], y@[i], children@[i], width, gutter);
                }
            }
        },
        (BlockLayout::Hbox(x), BlockLayout::Hbox(y)) => {
            assert(same_columns(x@, y@));
            lemma_same_widths(m, x@, y@, width);
            if let MeasuredLayoutKind::Hbox { widths, children } = measured.kind {
                assert forall|i: int| 0 <= i < y@.len() implies is_plan(
                    m,
                    (#[trigger] y@[i]).layout,
                    children@[i],
                    widths@[i],
                    0,
                ) by {
                    assert(same_but_highlights(x@[i].layout, y@[i].layout));
                    highlights_change_no_rows(
                        m,
                        x@[i].layout,
                        y@[i].layout,
                        children@[i],
                        widths@[i],
                        0,
                    );
                }
            }
        },
        (
            BlockLayout::Gutter { child: x, spec },
            BlockLayout::Gutter { child: y, .. },
        ) => {
            if let MeasuredLayoutKind::Child(inner) = measured.kind {
                let cells = gutter_cells(spec);
                let inside = after_gutter(width, cells);
                highlights_change_no_rows(m, *x, *y, *inner, inside, cells);
            }
        },
        (
            BlockLayout::RowPrefix { child: x, spec },
            BlockLayout::RowPrefix { child: y, .. },
        ) => {
            lemma_same_special(m, *x, *y, spec, width);
            if let MeasuredLayoutKind::Child(inner) = measured.kind {
                let inside = after_gutter(width, prefix_cells(spec));
                highlights_change_no_rows(m, *x, *y, *inner, inside, gutter);
            }
        },
        (BlockLayout::Panel { child: x, spec }, BlockLayout::Panel { child: y, .. }) => {
            if let MeasuredLayoutKind::Child(inner) = measured.kind {
                let inside = inside_panel(width, spec.padding);
                highlights_change_no_rows(m, *x, *y, *inner, inside, 0);
            }
        },
        (BlockLayout::Style { child: x, .. }, BlockLayout::Style { child: y, .. }) => {
            if let MeasuredLayoutKind::Child(inner) = measured.kind {
                highlights_change_no_rows(m, *x, *y, *inner, width, gutter);
            }
        },
        (BlockLayout::Refresh { child: x, .. }, BlockLayout::Refresh { child: y, .. }) => {
            if let MeasuredLayoutKind::Child(inner) = measured.kind {
                highlights_change_no_rows(m, *x, *y, *inner, width, gutter);
            }
        },
        (BlockLayout::Cap { child: x, spec }, BlockLayout::Cap { child: y, .. }) => {
            lemma_same_cap_rows(m, *x, *y, spec, width, 0);
        },
        _ => {},
    }
}

} // verus!
