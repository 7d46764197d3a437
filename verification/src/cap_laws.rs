//! A cap is drawn with the rows that it is measured to have.
use vstd::prelude::*;
use crate::budget::{
    columns_size, fits_exact, layout_size, leaf_fits_exact, lemma_columns_size_monotone,
    lemma_stack_size_monotone, size_fits, stack_size, ExactLayoutBudget, MAX_BOUNDED_EDGE_DEPTH,
};
use crate::edges::{
    cap_body, cap_facts, cap_output, edge_rows, head_stack, panel_split, tail_stack, text_leaf,
};
use crate::host::Metrics;
use crate::ir::{
    BlockLayout, CapKeep, CapMarker, CapSpec, ContentTextWindow, GutterSpec, HboxItem, IrLeaf,
    LayoutIr, PanelSpec, RetainedContentSpec,
};
use crate::measure::{
    bounded_cap_rows, capped_child, edge_columns, edge_stack, edge_window, keep_has_marker,
    layout_rows, special_rows, stacked_rows, tallest_rows,
};
use crate::render::cap_range;
use crate::render_laws::{lemma_text_cap_count, rows_within};
use crate::text::spec_min;
use crate::widths::{after_gutter, gutter_cells, hbox_widths, inside_panel, prefix_cells};

verus! {

/// `window` tells the first rows of one and the same thing, however many are asked for: never
/// more than are asked for; all that are asked for, where they were there before; and the same
/// where all were there before and more are asked for.
pub open spec fn is_head(window: spec_fn(usize) -> ContentTextWindow) -> bool {
    &&& forall|n: usize| (#[trigger] window(n)).row_count <= n
    &&& forall|n: usize, k: usize|
        k <= (#[trigger] window(n)).row_count ==> (#[trigger] window(k)).row_count == k
    &&& forall|n: usize, k: usize|
        !(#[trigger] window(n)).truncated && k > window(n).row_count ==> #[trigger] window(k)
            == window(n)
}

/// Where rows are left out, all rows that are asked for are there.
pub open spec fn cuts_at_bound(window: spec_fn(usize) -> ContentTextWindow) -> bool {
    forall|n: usize| (#[trigger] window(n)).truncated ==> window(n).row_count == n
}

/// The first rows of a content at a width.
pub open spec fn content_windows(m: Metrics, content: RetainedContentSpec, width: u16) -> spec_fn(
    usize,
) -> ContentTextWindow {
    |n: usize| (m.edge)(content, width, n)
}

/// What is said of the first rows of a content is said of one content: more rows of it are
/// asked for, or fewer.
pub open spec fn content_heads(m: Metrics) -> bool {
    forall|content: RetainedContentSpec, width: u16|
        #![trigger content_windows(m, content, width)]
        is_head(content_windows(m, content, width)) && cuts_at_bound(
            content_windows(m, content, width),
        )
}

proof fn lemma_content_head(m: Metrics, content: RetainedContentSpec, width: u16)
    requires
        content_heads(m),
    ensures
        forall|n: usize| (#[trigger] (m.edge)(content, width, n)).row_count <= n,
        forall|n: usize, k: usize|
            k <= (#[trigger] (m.edge)(content, width, n)).row_count ==> (
            #[trigger] (m.edge)(content, width, k)).row_count == k,
        forall|n: usize, k: usize|
            !(#[trigger] (m.edge)(content, width, n)).truncated && k > (m.edge)(
                content,
                width,
                n,
            ).row_count ==> #[trigger] (m.edge)(content, width, k) == (m.edge)(content, width, n),
        forall|n: usize|
            (#[trigger] (m.edge)(content, width, n)).truncated ==> (m.edge)(
                content,
                width,
                n,
            ).row_count == n,
{
    let f = content_windows(m, content, width);
    assert(is_head(f) && cuts_at_bound(f));
    assert forall|n: usize| (#[trigger] (m.edge)(content, width, n)).row_count <= n by {
        assert(f(n).row_count <= n);
    }
    assert forall|n: usize, k: usize| k <= (#[trigger] (m.edge)(
        content,
        width,
        n,
    )).row_count implies (#[trigger] (m.edge)(content, width, k)).row_count == k by {
        assert(k <= f(n).row_count);
        assert(f(k).row_count == k);
    }
    assert forall|n: usize, k: usize|
        !(#[trigger] (m.edge)(content, width, n)).truncated && k > (m.edge)(
            content,
            width,
            n,
        ).row_count implies #[trigger] (m.edge)(content, width, k) == (m.edge)(
        content,
        width,
        n,
    ) by {
        assert(!f(n).truncated);
        assert(f(k) == f(n));
    }
    assert forall|n: usize| (#[trigger] (m.edge)(content, width, n)).truncated implies (m.edge)(
        content,
        width,
        n,
    ).row_count == n by {
        assert(f(n).truncated);
    }
}

/// Asked for fewer rows than are there, a bounded measurement reports all that are asked for;
/// asked for more than are there, it reports what is there.
proof fn lemma_window_head(
    m: Metrics,
    layout: LayoutIr,
    width: u16,
    n: usize,
    k: usize,
    depth: usize,
)
    requires
        content_heads(m),
    ensures
        edge_window(m, layout, width, n, depth).row_count <= n,
        k <= edge_window(m, layout, width, n, depth).row_count ==> edge_window(
            m,
            layout,
            width,
            k,
            depth,
        ).row_count == k,
        !edge_window(m, layout, width, n, depth).truncated && k > edge_window(
            m,
            layout,
            width,
            n,
            depth,
        ).row_count ==> edge_window(m, layout, width, k, depth) == edge_window(
            m,
            layout,
            width,
            n,
            depth,
        ),
    decreases layout, 0nat,
{
    let below = (depth + 1) as usize;
    if depth <= MAX_BOUNDED_EDGE_DEPTH {
        match layout {
            BlockLayout::Leaf(IrLeaf::Content(content)) => {
                lemma_content_head(m, content, width);
            },
            BlockLayout::Vbox(items) => {
                lemma_stack_head(m, items@, width, n, k, 0, below);
            },
            BlockLayout::Hbox(items) => {
                lemma_columns_head(m, items@, hbox_widths(m, items@, width), n, k, below);
            },
            BlockLayout::Gutter { child, spec } => {
                let inside = after_gutter(width, gutter_cells(spec));
                lemma_window_head(m, *child, inside, n, k, below);
            },
            BlockLayout::RowPrefix { child, spec } => {
                let inside = after_gutter(width, prefix_cells(spec));
                lemma_window_head(m, *child, inside, n, k, below);
            },
            BlockLayout::Panel { child, spec } => {
                let inside = inside_panel(width, spec.padding);
                let a = (n - spec.padding) as usize;
                let b = (k - spec.padding) as usize;
                lemma_window_head(m, *child, inside, a, b, below);
                lemma_window_head(m, *child, inside, b, a, below);
            },
            BlockLayout::Style { child, .. } => {
                lemma_window_head(m, *child, width, n, k, below);
            },
            BlockLayout::Refresh { child, .. } => {
                lemma_window_head(m, *child, width, n, k, below);
            },
            _ => {},
        }
    }
}

proof fn lemma_stack_head(
    m: Metrics,
    items: Seq<LayoutIr>,
    width: u16,
    n: usize,
    k: usize,
    above: usize,
    depth: usize,
)
    requires
        content_heads(m),
        above <= n,
    ensures
        ({
            let window = edge_stack(m, items, width, n, above, depth);
            let other = edge_stack(m, items, width, k, above, depth);
            &&& above <= window.row_count <= n
            &&& above <= k <= window.row_count ==> other.row_count == k
            &&& !window.truncated && k > window.row_count ==> other == window
        }),
    decreases items, 0nat,
{
    if items.len() > 0 && above < n {
        let child = edge_window(m, items[0], width, (n - above) as usize, depth);
        lemma_window_head(
            m,
            items[0],
            width,
            (n - above) as usize,
            (k - above) as usize,
            depth,
        );
        if !child.truncated {
            lemma_stack_head(
                m,
                items.drop_first(),
                width,
                n,
                k,
                (above + child.row_count) as usize,
                depth,
            );
        }
        if above < k <= above + child.row_count {
            let other = edge_window(m, items[0], width, (k - above) as usize, depth);
            assert(other.row_count == k - above);
            if !other.truncated {
                assert(edge_stack(m, items.drop_first(), width, k, k, depth).row_count == k);
            }
        }
    }
}

proof fn lemma_columns_head(
    m: Metrics,
    items: Seq<HboxItem<IrLeaf>>,
    widths: Seq<u16>,
    n: usize,
    k: usize,
    depth: usize,
)
    requires
        content_heads(m),
    ensures
        ({
            let window = edge_columns(m, items, widths, n, depth);
            let other = edge_columns(m, items, widths, k, depth);
            &&& window.row_count <= n
            &&& other.row_count <= k
            &&& k <= window.row_count ==> other.row_count == k
            &&& !window.truncated && k > window.row_count ==> other == window
        }),
    decreases items, 0nat,
{
    if items.len() > 0 {
        let width = widths[items.len() - 1];
        lemma_columns_head(m, items.drop_last(), widths, n, k, depth);
        if width != 0 {
            lemma_window_head(m, items.last().layout, width, n, k, depth);
            lemma_window_head(m, items.last().layout, width, k, n, depth);
        }
    }
}

/// No part of `layout` is too deep or too large to be counted from its start.
pub open spec fn counts_every_part(m: Metrics, layout: LayoutIr, depth: usize) -> bool
    decreases layout,
{
    let below = (depth + 1) as usize;
    &&& depth <= MAX_BOUNDED_EDGE_DEPTH
    &&& match layout {
        BlockLayout::Leaf(IrLeaf::Content(_)) => true,
        BlockLayout::Leaf(leaf) => leaf_fits_exact(m, leaf),
        BlockLayout::Vbox(items) => forall|i: int|
            0 <= i < items@.len() ==> counts_every_part(m, #[trigger] items@[i], below),
        BlockLayout::Hbox(items) => forall|i: int|
            0 <= i < items@.len() ==> counts_every_part(m, (#[trigger] items@[i]).layout, below),
        BlockLayout::Gutter { child, .. } => counts_every_part(m, *child, below),
        BlockLayout::RowPrefix { child, .. } => counts_every_part(m, *child, below),
        BlockLayout::Panel { child, .. } => counts_every_part(m, *child, below),
        BlockLayout::Style { child, .. } => counts_every_part(m, *child, below),
        BlockLayout::Refresh { child, .. } => counts_every_part(m, *child, below),
        _ => true,
    }
}

proof fn lemma_cut_at_bound(m: Metrics, layout: LayoutIr, width: u16, n: usize, depth: usize)
    requires
        content_heads(m),
        counts_every_part(m, layout, depth),
    ensures
        edge_window(m, layout, width, n, depth).truncated ==> edge_window(
            m,
            layout,
            width,
            n,
            depth,
        ).row_count == n,
    decreases layout, 0nat,
{
    let below = (depth + 1) as usize;
    match layout {
        BlockLayout::Leaf(IrLeaf::Content(content)) => {
            lemma_content_head(m, content, width);
        },
        BlockLayout::Vbox(items) => {
            lemma_stack_cut(m, items@, width, n, 0, below);
        },
        BlockLayout::Hbox(items) => {
            lemma_columns_cut(m, items@, hbox_widths(m, items@, width), n, below);
        },
        BlockLayout::Gutter { child, spec } => {
            lemma_cut_at_bound(m, *child, after_gutter(width, gutter_cells(spec)), n, below);
        },
        BlockLayout::RowPrefix { child, spec } => {
            lemma_cut_at_bound(m, *child, after_gutter(width, prefix_cells(spec)), n, below);
        },
        BlockLayout::Panel { child, spec } => {
            let inside = inside_panel(width, spec.padding);
            lemma_cut_at_bound(m, *child, inside, (n - spec.padding) as usize, below);
        },
        BlockLayout::Style { child, .. } => {
            lemma_cut_at_bound(m, *child, width, n, below);
        },
        BlockLayout::Refresh { child, .. } => {
            lemma_cut_at_bound(m, *child, width, n, below);
        },
        _ => {},
    }
}

proof fn lemma_stack_cut(
    m: Metrics,
    items: Seq<LayoutIr>,
    width: u16,
    n: usize,
    above: usize,
    depth: usize,
)
    requires
        content_heads(m),
        above <= n,
        forall|i: int| 0 <= i < items.len() ==> counts_every_part(m, #[trigger] items[i], depth),
    ensures
        edge_stack(m, items, width, n, above, depth).truncated ==> edge_stack(
            m,
            items,
            width,
            n,
            above,
            depth,
        ).row_count == n,
    decreases items, 0nat,
{
    if items.len() > 0 && above < n {
        let left = (n - above) as usize;
        let child = edge_window(m, items[0], width, left, depth);
        lemma_cut_at_bound(m, items[0], width, left, depth);
        lemma_window_head(m, items[0], width, left, left, depth);
        if !child.truncated {
            lemma_stack_cut(
                m,
                items.drop_first(),
                width,
                n,
                (above + child.row_count) as usize,
                depth,
            );
        }
    }
}

proof fn lemma_columns_cut(
    m: Metrics,
    items: Seq<HboxItem<IrLeaf>>,
    widths: Seq<u16>,
    n: usize,
    depth: usize,
)
    requires
        content_heads(m),
        forall|i: int|
            0 <= i < items.len() ==> counts_every_part(m, (#[trigger] items[i]).layout, depth),
    ensures
        edge_columns(m, items, widths, n, depth).truncated ==> edge_columns(
            m,
            items,
            widths,
            n,
            depth,
        ).row_count == n,
        edge_columns(m, items, widths, n, depth).row_count <= n,
    decreases items, 0nat,
{
    if items.len() > 0 {
        let width = widths[items.len() - 1];
        lemma_columns_cut(m, items.drop_last(), widths, n, depth);
        if width != 0 {
            assert(counts_every_part(m, items[items.len() - 1].layout, depth));
            lemma_cut_at_bound(m, items.last().layout, width, n, depth);
            lemma_window_head(m, items.last().layout, width, n, n, depth);
        }
    }
}

/// Nothing counted yet.
pub open spec fn unspent() -> ExactLayoutBudget {
    ExactLayoutBudget { bytes: 0, nodes: 0, spans: 0 }
}

proof fn lemma_item_fits(m: Metrics, items: Seq<LayoutIr>, i: int, depth: int)
    requires
        0 <= i < items.len(),
        size_fits(stack_size(m, items), unspent(), depth),
    ensures
        size_fits(layout_size(m, items[i]), unspent(), depth),
{
    lemma_stack_size_monotone(m, items, i + 1);
    assert(items.take(i + 1).drop_last() =~= items.take(i));
    assert(items.take(i + 1).last() == items[i]);
}

proof fn lemma_column_fits(m: Metrics, items: Seq<HboxItem<IrLeaf>>, i: int, depth: int)
    requires
        0 <= i < items.len(),
        size_fits(columns_size(m, items), unspent(), depth),
    ensures
        size_fits(layout_size(m, items[i].layout), unspent(), depth),
{
    lemma_columns_size_monotone(m, items, i + 1);
    assert(items.take(i + 1).drop_last() =~= items.take(i));
    assert(items.take(i + 1).last() == items[i]);
}

proof fn lemma_fitting_is_counted(m: Metrics, layout: LayoutIr, depth: usize)
    requires
        size_fits(layout_size(m, layout), unspent(), depth as int),
    ensures
        counts_every_part(m, layout, depth),
    decreases layout,
{
    let below = (depth + 1) as usize;
    match layout {
        BlockLayout::Vbox(items) => {
            assert forall|i: int| 0 <= i < items@.len() implies counts_every_part(
                m,
                #[trigger] items@[i],
                below,
            ) by {
                lemma_item_fits(m, items@, i, below as int);
                lemma_fitting_is_counted(m, items@[i], below);
            }
        },
        BlockLayout::Hbox(items) => {
            assert forall|i: int| 0 <= i < items@.len() implies counts_every_part(
                m,
                (#[trigger] items@[i]).layout,
                below,
            ) by {
                lemma_column_fits(m, items@, i, below as int);
                lemma_fitting_is_counted(m, items@[i].layout, below);
            }
        },
        BlockLayout::Gutter { child, .. } => lemma_fitting_is_counted(m, *child, below),
        BlockLayout::RowPrefix { child, .. } => lemma_fitting_is_counted(m, *child, below),
        BlockLayout::Panel { child, .. } => lemma_fitting_is_counted(m, *child, below),
        BlockLayout::Style { child, .. } => lemma_fitting_is_counted(m, *child, below),
        BlockLayout::Refresh { child, .. } => lemma_fitting_is_counted(m, *child, below),
        _ => {},
    }
}

/// The first rows of a content are the first of the rows that it has as a leaf.
pub open spec fn edge_is_head_of_rows(
    m: Metrics,
    content: RetainedContentSpec,
    width: u16,
    gutter: u16,
) -> bool {
    forall|n: usize|
        (#[trigger] (m.edge)(content, width, n)).row_count == spec_min(
            (m.leaf_rows)(IrLeaf::Content(content), width, gutter),
            n,
        )
}

/// Counting from the start and counting all agree on every part of `layout`: no column is
/// without cells, no runs are laid out with their prefix, no leaf wraps differently for the
/// gutter, no panel has more rows of padding than a width can count, and the first rows of a
/// content are the first of its rows.
pub open spec fn measures_alike(m: Metrics, layout: LayoutIr, width: u16, gutter: u16) -> bool
    decreases layout,
{
    match layout {
        BlockLayout::Leaf(IrLeaf::Content(content)) => edge_is_head_of_rows(
            m,
            content,
            width,
            gutter,
        ),
        BlockLayout::Leaf(leaf) => (m.leaf_rows)(leaf, width, gutter) == (m.leaf_rows)(
            leaf,
            width,
            0,
        ),
        BlockLayout::Vbox(items) => forall|i: int|
            0 <= i < items@.len() ==> measures_alike(m, #[trigger] items@[i], width, gutter),
        BlockLayout::Hbox(items) => forall|i: int|
            0 <= i < items@.len() ==> {
                let column = hbox_widths(m, items@, width)[i];
                column > 0 && measures_alike(m, (#[trigger] items@[i]).layout, column, 0)
            },
        BlockLayout::Gutter { child, spec } => measures_alike(
            m,
            *child,
            after_gutter(width, gutter_cells(spec)),
            gutter_cells(spec),
        ),
        BlockLayout::RowPrefix { child, spec } => special_rows(m, *child, spec, width) is None
            && measures_alike(m, *child, after_gutter(width, prefix_cells(spec)), gutter),
        BlockLayout::Panel { child, spec } => spec.padding + spec.padding <= u16::MAX
            && measures_alike(m, *child, inside_panel(width, spec.padding), 0),
        BlockLayout::Style { child, .. } => measures_alike(m, *child, width, gutter),
        BlockLayout::Refresh { child, .. } => measures_alike(m, *child, width, gutter),
        _ => true,
    }
}

spec fn rows_sum(m: Metrics, items: Seq<LayoutIr>, width: u16, gutter: u16) -> int
    decreases items.len(),
{
    if items.len() == 0 {
        0
    } else {
        layout_rows(m, items[0], width, gutter) + rows_sum(m, items.drop_first(), width, gutter)
    }
}

proof fn lemma_sum_by_last(m: Metrics, items: Seq<LayoutIr>, width: u16, gutter: u16)
    ensures
        rows_sum(m, items, width, gutter) >= 0,
        items.len() > 0 ==> rows_sum(m, items, width, gutter) == rows_sum(
            m,
            items.drop_last(),
            width,
            gutter,
        ) + layout_rows(m, items.last(), width, gutter),
    decreases items.len(),
{
    if items.len() > 0 {
        lemma_sum_by_last(m, items.drop_first(), width, gutter);
        if items.len() == 1 {
            assert(items.drop_last() =~= Seq::<LayoutIr>::empty());
            assert(items.drop_first() =~= Seq::<LayoutIr>::empty());
        } else {
            assert(items.drop_first().drop_last() =~= items.drop_last().drop_first());
            assert(items.drop_last()[0] == items[0]);
            assert(items.drop_first().last() == items.last());
        }
    }
}

proof fn lemma_stacked_sum(m: Metrics, items: Seq<LayoutIr>, width: u16, gutter: u16)
    ensures
        stacked_rows(m, items, width, gutter) == if rows_sum(m, items, width, gutter)
            > usize::MAX {
            usize::MAX as int
        } else {
            rows_sum(m, items, width, gutter)
        },
    decreases items.len(),
{
    if items.len() > 0 {
        lemma_sum_by_last(m, items, width, gutter);
        lemma_sum_by_last(m, items.drop_last(), width, gutter);
        lemma_stacked_sum(m, items.drop_last(), width, gutter);
    }
}

proof fn lemma_edge_of_rows(
    m: Metrics,
    layout: LayoutIr,
    width: u16,
    gutter: u16,
    n: usize,
    depth: usize,
)
    requires
        content_heads(m),
        size_fits(layout_size(m, layout), unspent(), depth as int),
        measures_alike(m, layout, width, gutter),
    ensures
        edge_window(m, layout, width, n, depth).row_count == spec_min(
            layout_rows(m, layout, width, gutter),
            n,
        ),
    decreases layout, 0nat,
{
    let below = (depth + 1) as usize;
    lemma_fitting_is_counted(m, layout, depth);
    match layout {
        BlockLayout::Vbox(items) => {
            assert forall|i: int| 0 <= i < items@.len() implies size_fits(
                layout_size(m, #[trigger] items@[i]),
                unspent(),
                below as int,
            ) by {
                lemma_item_fits(m, items@, i, below as int);
            }
            lemma_edge_of_stack(m, items@, width, gutter, n, 0, below);
            lemma_stacked_sum(m, items@, width, gutter);
        },
        BlockLayout::Hbox(items) => {
            assert forall|i: int| 0 <= i < items@.len() implies size_fits(
                layout_size(m, (#[trigger] items@[i]).layout),
                unspent(),
                below as int,
            ) by {
                lemma_column_fits(m, items@, i, below as int);
            }
            lemma_edge_of_columns(m, items@, hbox_widths(m, items@, width), n, below);
        },
        BlockLayout::Gutter { child, spec } => {
            let cells = gutter_cells(spec);
            lemma_edge_of_rows(m, *child, after_gutter(width, cells), cells, n, below);
        },
        BlockLayout::RowPrefix { child, spec } => {
            let inside = after_gutter(width, prefix_cells(spec));
            lemma_edge_of_rows(m, *child, inside, gutter, n, below);
        },
        BlockLayout::Panel { child, spec } => {
            let inside = inside_panel(width, spec.padding);
            let left = (n - spec.padding) as usize;
            lemma_edge_of_rows(m, *child, inside, 0, left, below);
            lemma_cut_at_bound(m, *child, inside, left, below);
        },
        BlockLayout::Style { child, .. } => {
            lemma_edge_of_rows(m, *child, width, gutter, n, below);
        },
        BlockLayout::Refresh { child, .. } => {
            lemma_edge_of_rows(m, *child, width, gutter, n, below);
        },
        BlockLayout::Cap { child, spec } => {
            assert(fits_exact(m, *child));
            assert(bounded_cap_rows(m, *child, spec, width, below) == bounded_cap_rows(
                m,
                *child,
                spec,
                width,
                0,
            ));
        },
        _ => {},
    }
}

proof fn lemma_edge_of_stack(
    m: Metrics,
    items: Seq<LayoutIr>,
    width: u16,
    gutter: u16,
    n: usize,
    above: usize,
    depth: usize,
)
    requires
        content_heads(m),
        above <= n,
        forall|i: int|
            0 <= i < items.len() ==> size_fits(
                layout_size(m, #[trigger] items[i]),
                unspent(),
                depth as int,
            ),
        forall|i: int|
            0 <= i < items.len() ==> measures_alike(m, #[trigger] items[i], width, gutter),
    ensures
        edge_stack(m, items, width, n, above, depth).row_count == if above + rows_sum(
            m,
            items,
            width,
            gutter,
        ) < n {
            above + rows_sum(m, items, width, gutter)
        } else {
            n as int
        },
    decreases items, 0nat,
{
    lemma_sum_by_last(m, items, width, gutter);
    if items.len() > 0 {
        lemma_sum_by_last(m, items.drop_first(), width, gutter);
        if above < n {
            let left = (n - above) as usize;
            let child = edge_window(m, items[0], width, left, depth);
            assert(size_fits(layout_size(m, items[0]), unspent(), depth as int));
            lemma_edge_of_rows(m, items[0], width, gutter, left, depth);
            lemma_fitting_is_counted(m, items[0], depth);
            lemma_cut_at_bound(m, items[0], width, left, depth);
            if !child.truncated {
                lemma_edge_of_stack(
                    m,
                    items.drop_first(),
                    width,
                    gutter,
                    n,
                    (above + child.row_count) as usize,
                    depth,
                );
            }
        }
    }
}

proof fn lemma_edge_of_columns(
    m: Metrics,
    items: Seq<HboxItem<IrLeaf>>,
    widths: Seq<u16>,
    n: usize,
    depth: usize,
)
    requires
        content_heads(m),
        forall|i: int|
            0 <= i < items.len() ==> size_fits(
                layout_size(m, (#[trigger] items[i]).layout),
                unspent(),
                depth as int,
            ),
        forall|i: int|
            0 <= i < items.len() ==> widths[i] > 0 && measures_alike(
                m,
                (#[trigger] items[i]).layout,
                widths[i],
                0,
            ),
    ensures
        edge_columns(m, items, widths, n, depth).row_count == spec_min(
            tallest_rows(m, items, widths),
            n,
        ),
    decreases items, 0nat,
{
    if items.len() > 0 {
        let last = items.len() - 1;
        lemma_edge_of_columns(m, items.drop_last(), widths, n, depth);
        assert(size_fits(layout_size(m, items[last].layout), unspent(), depth as int));
        lemma_edge_of_rows(m, items.last().layout, widths[last], 0, n, depth);
    }
}

/// A bounded drawing of `layout`, of its first rows or of its last, has as many rows as a bounded
/// measurement counts. What keeps it from that is said here: the last rows of a stack are drawn
/// from its end, so no part of it may be cut short for its depth or size, and a cap inside must
/// draw its rows.
pub open spec fn edge_is_drawn(
    m: Metrics,
    layout: LayoutIr,
    width: u16,
    tail: bool,
    depth: usize,
) -> bool
    decreases layout, 0nat,
{
    let below = (depth + 1) as usize;
    depth > MAX_BOUNDED_EDGE_DEPTH || match layout {
        BlockLayout::Vbox(items) => forall|i: int|
            0 <= i < items@.len() ==> {
                &&& edge_is_drawn(m, #[trigger] items@[i], width, false, below)
                &&& tail ==> counts_every_part(m, items@[i], below) && edge_is_drawn(
                    m,
                    items@[i],
                    width,
                    true,
                    below,
                )
            },
        BlockLayout::Gutter { child, spec } => edge_is_drawn(
            m,
            *child,
            after_gutter(width, gutter_cells(spec)),
            tail,
            below,
        ),
        BlockLayout::RowPrefix { child, spec } => edge_is_drawn(
            m,
            *child,
            after_gutter(width, prefix_cells(spec)),
            tail,
            below,
        ),
        BlockLayout::Panel { child, spec } => edge_is_drawn(
            m,
            *child,
            inside_panel(width, spec.padding),
            tail,
            below,
        ),
        BlockLayout::Style { child, .. } => edge_is_drawn(m, *child, width, tail, below),
        BlockLayout::Refresh { child, .. } => edge_is_drawn(m, *child, width, tail, below),
        BlockLayout::Cap { child, spec } => cap_is_drawn(m, *child, spec, width, below),
        _ => true,
    }
}

/// A cap over `child` draws the rows that it is measured to have: where the child is counted in
/// full, counting it from its start agrees with that, and what the cap keeps of the child is
/// drawn as it is counted.
pub open spec fn cap_is_drawn(
    m: Metrics,
    child: LayoutIr,
    spec: CapSpec,
    width: u16,
    depth: usize,
) -> bool
    decreases child, 1nat,
{
    &&& depth <= MAX_BOUNDED_EDGE_DEPTH && fits_exact(m, child) ==> size_fits(
        layout_size(m, child),
        unspent(),
        depth as int,
    ) && measures_alike(m, child, width, 0)
    &&& edge_is_drawn(m, child, width, false, depth)
    &&& !(spec.keep is Head) ==> edge_is_drawn(m, child, width, true, depth)
}

proof fn lemma_capped_rows(m: Metrics, child: LayoutIr, spec: CapSpec, width: u16, depth: usize)
    ensures
        ({
            let facts = cap_facts(m, child, spec, width, depth);
            &&& facts.kept <= spec.rows
            &&& facts.marker_visible ==> facts.truncated && keep_has_marker(spec.keep)
            &&& bounded_cap_rows(m, child, spec, width, depth) == facts.kept + (
            if facts.marker_visible {
                1int
            } else {
                0
            })
        }),
{
    if depth <= MAX_BOUNDED_EDGE_DEPTH && fits_exact(m, child) {
        let rows = layout_rows(m, child, width, 0);
        let shown = capped_child(m, rows, spec, child, width);
        let kept = spec_min(rows, spec.rows as usize);
        assert(kept <= shown.len() <= kept + 1);
        assert(shown.len() > kept ==> rows > spec.rows && keep_has_marker(spec.keep));
    }
}

proof fn lemma_cap_count<'a>(
    m: Metrics,
    child: &'a LayoutIr,
    spec: CapSpec,
    width: u16,
    start: usize,
    count: usize,
    gutter: Option<&'a GutterSpec>,
    depth: usize,
)
    requires
        forall|j: usize|
            j <= cap_facts(m, *child, spec, width, depth).kept ==> (#[trigger] edge_rows(
                m,
                child,
                width,
                j,
                false,
                depth,
            )).len() == j,
        !(spec.keep is Head) ==> forall|j: usize|
            j <= cap_facts(m, *child, spec, width, depth).kept ==> (#[trigger] edge_rows(
                m,
                child,
                width,
                j,
                true,
                depth,
            )).len() == j,
    ensures
        cap_output(m, child, spec, width, start, count, gutter, depth).len() == rows_within(
            bounded_cap_rows(m, *child, spec, width, depth) as int,
            start as int,
            count as int,
        ),
{
    let facts = cap_facts(m, *child, spec, width, depth);
    lemma_capped_rows(m, *child, spec, width, depth);
    let kept = facts.kept;
    let body = cap_body(m, child, spec, width, facts, depth);
    assert(edge_rows(m, child, width, kept, false, depth).len() == kept);
    match spec.keep {
        CapKeep::Head { marker } => {
            assert(marker is Some ==> marker == Some(CapMarker::Above) || marker == Some(
                CapMarker::Below,
            ));
        },
        CapKeep::Tail { marker } => {
            assert(edge_rows(m, child, width, kept, true, depth).len() == kept);
            assert(marker is Some ==> marker == Some(CapMarker::Above) || marker == Some(
                CapMarker::Below,
            ));
        },
        CapKeep::HeadTail { head, marker } => {
            let head_rows = spec_min(head as usize, kept);
            assert(edge_rows(m, child, width, head_rows, false, depth).len() == head_rows);
            assert(edge_rows(m, child, width, (kept - head_rows) as usize, true, depth).len()
                == kept - head_rows);
        },
    }
    assert(body.len() == bounded_cap_rows(m, *child, spec, width, depth));
    assert(edge_rows(m, child, width, spec_min(count, kept), false, depth).len() == spec_min(
        count,
        kept,
    ));
}

/// A cap over a leaf that is no content draws the rows that it is measured to have.
pub proof fn cap_over_leaf_draws_its_rows(
    m: Metrics,
    child: &LayoutIr,
    spec: CapSpec,
    width: u16,
    start: usize,
    count: usize,
    gutter: Option<&GutterSpec>,
)
    requires
        child matches BlockLayout::Leaf(leaf) && !(leaf is Content),
        0 < count,
    ensures
        cap_range(m, child, spec, width, start, count, gutter).len() == rows_within(
            bounded_cap_rows(m, *child, spec, width, 0) as int,
            start as int,
            count as int,
        ),
{
    lemma_cap_count(m, child, spec, width, start, count, gutter, 0);
}

spec fn counted_sum(
    m: Metrics,
    items: Seq<LayoutIr>,
    width: u16,
    n: usize,
    depth: usize,
) -> int
    decreases items.len(),
{
    if items.len() == 0 {
        0
    } else {
        edge_window(m, items[0], width, n, depth).row_count + counted_sum(
            m,
            items.drop_first(),
            width,
            n,
            depth,
        )
    }
}

proof fn lemma_counted_by_last(
    m: Metrics,
    items: Seq<LayoutIr>,
    width: u16,
    n: usize,
    depth: usize,
)
    ensures
        counted_sum(m, items, width, n, depth) >= 0,
        items.len() > 0 ==> counted_sum(m, items, width, n, depth) == counted_sum(
            m,
            items.drop_last(),
            width,
            n,
            depth,
        ) + edge_window(m, items.last(), width, n, depth).row_count,
    decreases items.len(),
{
    if items.len() > 0 {
        lemma_counted_by_last(m, items.drop_first(), width, n, depth);
        if items.len() == 1 {
            assert(items.drop_last() =~= Seq::<LayoutIr>::empty());
            assert(items.drop_first() =~= Seq::<LayoutIr>::empty());
        } else {
            assert(items.drop_first().drop_last() =~= items.drop_last().drop_first());
            assert(items.drop_last()[0] == items[0]);
            assert(items.drop_first().last() == items.last());
        }
    }
}

/// A part counted within a smaller bound has the rows that it had, as far as they fit.
proof fn lemma_counted_within(
    m: Metrics,
    layout: LayoutIr,
    width: u16,
    n: usize,
    k: usize,
    depth: usize,
)
    requires
        content_heads(m),
        counts_every_part(m, layout, depth),
        k <= n,
    ensures
        edge_window(m, layout, width, k, depth).row_count == spec_min(
            edge_window(m, layout, width, n, depth).row_count,
            k,
        ),
        edge_window(m, layout, width, k, depth).truncated ==> edge_window(
            m,
            layout,
            width,
            k,
            depth,
        ).row_count == k,
{
    lemma_window_head(m, layout, width, n, k, depth);
    lemma_cut_at_bound(m, layout, width, n, depth);
    lemma_cut_at_bound(m, layout, width, k, depth);
}

proof fn lemma_stack_counted(
    m: Metrics,
    items: Seq<LayoutIr>,
    width: u16,
    n: usize,
    above: usize,
    depth: usize,
)
    requires
        content_heads(m),
        above <= n,
        forall|i: int| 0 <= i < items.len() ==> counts_every_part(m, #[trigger] items[i], depth),
    ensures
        edge_stack(m, items, width, n, above, depth).row_count == if above + counted_sum(
            m,
            items,
            width,
            n,
            depth,
        ) < n {
            above + counted_sum(m, items, width, n, depth)
        } else {
            n as int
        },
    decreases items.len(),
{
    lemma_counted_by_last(m, items, width, n, depth);
    if items.len() > 0 {
        lemma_counted_by_last(m, items.drop_first(), width, n, depth);
        if above < n {
            let left = (n - above) as usize;
            let child = edge_window(m, items[0], width, left, depth);
            lemma_counted_within(m, items[0], width, n, left, depth);
            if !child.truncated {
                lemma_stack_counted(
                    m,
                    items.drop_first(),
                    width,
                    n,
                    (above + child.row_count) as usize,
                    depth,
                );
            }
        }
    }
}

/// A bounded drawing of a layout has as many rows as a bounded measurement of it counts, from
/// its start and from its end.
pub proof fn bounded_edge_draws_counted_rows(
    m: Metrics,
    layout: &LayoutIr,
    width: u16,
    n: usize,
    tail: bool,
    depth: usize,
)
    requires
        content_heads(m),
        edge_is_drawn(m, *layout, width, tail, depth),
    ensures
        edge_rows(m, layout, width, n, tail, depth).len() == edge_window(
            m,
            *layout,
            width,
            n,
            depth,
        ).row_count,
    decreases *layout, 0nat,
{
    let below = (depth + 1) as usize;
    let rows = edge_window(m, *layout, width, n, depth).row_count;
    lemma_window_head(m, *layout, width, n, rows, depth);
    if depth <= MAX_BOUNDED_EDGE_DEPTH {
        match layout {
            BlockLayout::Vbox(items) => {
                lemma_stack_drawn(m, layout, items@, width, n, tail, depth);
            },
            BlockLayout::Gutter { child, spec } => {
                let inside = after_gutter(width, gutter_cells(*spec));
                bounded_edge_draws_counted_rows(m, child, inside, rows, tail, below);
            },
            BlockLayout::RowPrefix { child, spec } => {
                let inside = after_gutter(width, prefix_cells(*spec));
                bounded_edge_draws_counted_rows(m, child, inside, rows, tail, below);
            },
            BlockLayout::Panel { child, spec } => {
                lemma_panel_drawn(m, layout, child, *spec, width, n, tail, depth);
            },
            BlockLayout::Style { child, .. } => {
                bounded_edge_draws_counted_rows(m, child, width, rows, tail, below);
            },
            BlockLayout::Refresh { child, .. } => {
                bounded_edge_draws_counted_rows(m, child, width, rows, tail, below);
            },
            BlockLayout::Cap { child, spec } => {
                let all = bounded_cap_rows(m, **child, *spec, width, below);
                lemma_cap_drawn(m, child, *spec, width, 0, all, None, below);
            },
            _ => {},
        }
    }
}

proof fn lemma_panel_drawn(
    m: Metrics,
    layout: &LayoutIr,
    child: &LayoutIr,
    spec: PanelSpec,
    width: u16,
    n: usize,
    tail: bool,
    depth: usize,
)
    requires
        content_heads(m),
        depth <= MAX_BOUNDED_EDGE_DEPTH,
        layout matches BlockLayout::Panel { child: inner, spec: own } && **inner == *child && own
            == spec,
        edge_is_drawn(
            m,
            *child,
            inside_panel(width, spec.padding),
            tail,
            (depth + 1) as usize,
        ),
    ensures
        edge_rows(m, layout, width, n, tail, depth).len() == edge_window(
            m,
            *layout,
            width,
            n,
            depth,
        ).row_count,
    decreases *child, 1nat,
{
    let below = (depth + 1) as usize;
    let rows = edge_window(m, *layout, width, n, depth).row_count;
    let padding = spec.padding as usize;
    let inside = inside_panel(width, spec.padding);
    let near = spec_min(padding, rows);
    let room = rows.saturating_sub(near);
    let shown = edge_window(m, *child, inside, room, below);
    lemma_window_head(m, *child, inside, room, shown.row_count, below);
    bounded_edge_draws_counted_rows(m, child, inside, shown.row_count, tail, below);
    if padding < n {
        let left = (n - padding) as usize;
        lemma_window_head(m, *child, inside, left, room, below);
    }
    let (top, limit, bottom) = panel_split(rows, padding, shown, tail);
    assert(top + limit + bottom == rows);
}

proof fn lemma_stack_drawn(
    m: Metrics,
    layout: &LayoutIr,
    items: Seq<LayoutIr>,
    width: u16,
    n: usize,
    tail: bool,
    depth: usize,
)
    requires
        content_heads(m),
        depth <= MAX_BOUNDED_EDGE_DEPTH,
        layout matches BlockLayout::Vbox(own) && own@ == items,
        forall|i: int|
            0 <= i < items.len() ==> {
                &&& edge_is_drawn(m, #[trigger] items[i], width, false, (depth + 1) as usize)
                &&& tail ==> counts_every_part(m, items[i], (depth + 1) as usize) && edge_is_drawn(
                    m,
                    items[i],
                    width,
                    true,
                    (depth + 1) as usize,
                )
            },
    ensures
        edge_rows(m, layout, width, n, tail, depth).len() == edge_window(
            m,
            *layout,
            width,
            n,
            depth,
        ).row_count,
    decreases items, 2nat,
{
    let below = (depth + 1) as usize;
    let window = edge_window(m, *layout, width, n, depth);
    lemma_window_head(m, *layout, width, n, window.row_count, depth);
    if !tail || !window.truncated {
        lemma_head_stack(m, items, width, window.row_count, 0, below);
    } else {
        lemma_stack_cut(m, items, width, n, 0, below);
        lemma_stack_counted(m, items, width, n, 0, below);
        lemma_tail_stack(m, items, width, n, n, below);
    }
}

proof fn lemma_head_stack(
    m: Metrics,
    items: Seq<LayoutIr>,
    width: u16,
    n: usize,
    above: usize,
    depth: usize,
)
    requires
        content_heads(m),
        above <= n,
        forall|i: int|
            0 <= i < items.len() ==> edge_is_drawn(m, #[trigger] items[i], width, false, depth),
    ensures
        above + head_stack(m, items, width, (n - above) as usize, depth).len() == edge_stack(
            m,
            items,
            width,
            n,
            above,
            depth,
        ).row_count,
    decreases items, 1nat,
{
    if items.len() > 0 && above < n {
        let left = (n - above) as usize;
        let child = edge_window(m, items[0], width, left, depth);
        lemma_window_head(m, items[0], width, left, left, depth);
        bounded_edge_draws_counted_rows(m, &items[0], width, left, false, depth);
        if !child.truncated {
            lemma_head_stack(
                m,
                items.drop_first(),
                width,
                n,
                (above + child.row_count) as usize,
                depth,
            );
        }
    }
}

proof fn lemma_tail_stack(
    m: Metrics,
    items: Seq<LayoutIr>,
    width: u16,
    n: usize,
    k: usize,
    depth: usize,
)
    requires
        content_heads(m),
        k <= n,
        forall|i: int|
            0 <= i < items.len() ==> counts_every_part(m, #[trigger] items[i], depth)
                && edge_is_drawn(m, items[i], width, true, depth),
    ensures
        tail_stack(m, items, width, k, depth).len() == if counted_sum(m, items, width, n, depth)
            < k {
            counted_sum(m, items, width, n, depth)
        } else {
            k as int
        },
    decreases items, 1nat,
{
    lemma_counted_by_last(m, items, width, n, depth);
    if items.len() > 0 {
        lemma_counted_by_last(m, items.drop_last(), width, n, depth);
        if k > 0 {
            let last = items[items.len() - 1];
            let child = edge_window(m, last, width, k, depth);
            lemma_counted_within(m, last, width, n, k, depth);
            bounded_edge_draws_counted_rows(m, &last, width, k, true, depth);
            if !child.truncated {
                lemma_tail_stack(
                    m,
                    items.drop_last(),
                    width,
                    n,
                    (k - child.row_count) as usize,
                    depth,
                );
            }
        }
    }
}

proof fn lemma_cap_drawn<'a>(
    m: Metrics,
    child: &'a LayoutIr,
    spec: CapSpec,
    width: u16,
    start: usize,
    count: usize,
    gutter: Option<&'a GutterSpec>,
    depth: usize,
)
    requires
        content_heads(m),
        cap_is_drawn(m, *child, spec, width, depth),
    ensures
        cap_output(m, child, spec, width, start, count, gutter, depth).len() == rows_within(
            bounded_cap_rows(m, *child, spec, width, depth) as int,
            start as int,
            count as int,
        ),
    decreases *child, 1nat,
{
    let kept = cap_facts(m, *child, spec, width, depth).kept;
    if depth <= MAX_BOUNDED_EDGE_DEPTH && fits_exact(m, *child) {
        lemma_edge_of_rows(m, *child, width, 0, kept, depth);
    } else {
        lemma_window_head(m, *child, width, (spec.rows + 1) as usize, kept, depth);
    }
    assert(edge_window(m, *child, width, kept, depth).row_count == kept);
    assert forall|j: usize| j <= kept implies (#[trigger] edge_rows(
        m,
        child,
        width,
        j,
        false,
        depth,
    )).len() == j by {
        lemma_window_head(m, *child, width, kept, j, depth);
        bounded_edge_draws_counted_rows(m, child, width, j, false, depth);
    }
    if !(spec.keep is Head) {
        assert forall|j: usize| j <= kept implies (#[trigger] edge_rows(
            m,
            child,
            width,
            j,
            true,
            depth,
        )).len() == j by {
            lemma_window_head(m, *child, width, kept, j, depth);
            bounded_edge_draws_counted_rows(m, child, width, j, true, depth);
        }
    }
    lemma_cap_count(m, child, spec, width, start, count, gutter, depth);
}

/// Nothing keeps a cap from drawing the rows that it is measured to have: it is over a retained
/// text, or a leaf that is no content, or what it keeps of its child is drawn as it is counted.
pub open spec fn cap_rows_are_drawn(
    m: Metrics,
    child: LayoutIr,
    spec: CapSpec,
    width: u16,
) -> bool {
    ||| text_leaf(child) is Some
    ||| child matches BlockLayout::Leaf(leaf) && !(leaf is Content)
    ||| content_heads(m) && cap_is_drawn(m, child, spec, width, 0)
}

/// A cap draws, of any range, the rows that it is measured to have there.
pub proof fn cap_draws_its_rows(
    m: Metrics,
    child: &LayoutIr,
    spec: CapSpec,
    width: u16,
    start: usize,
    count: usize,
    gutter: Option<&GutterSpec>,
)
    requires
        cap_rows_are_drawn(m, *child, spec, width),
    ensures
        cap_range(m, child, spec, width, start, count, gutter).len() == rows_within(
            bounded_cap_rows(m, *child, spec, width, 0) as int,
            start as int,
            count as int,
        ),
{
    if text_leaf(*child) is Some {
        lemma_text_cap_count(m, child, spec, width, start, count, gutter);
    } else if child matches BlockLayout::Leaf(leaf) && !(leaf is Content) {
        lemma_cap_count(m, child, spec, width, start, count, gutter, 0);
    } else {
        lemma_cap_drawn(m, child, spec, width, start, count, gutter, 0);
    }
}

} // verus!
