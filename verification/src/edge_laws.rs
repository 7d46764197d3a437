//! Which rows of a layout its edges show, and what a cap shows of its child.
use vstd::prelude::*;
use crate::budget::{leaf_fits_exact, MAX_BOUNDED_EDGE_DEPTH};
use crate::cap_rows::CapDirection;
use crate::edges::{
    cap_body, content_range, edge_rows, head_stack, leaf_range, marker_op, replayed, tail_stack,
    CapFacts,
};
use crate::host::Metrics;
use crate::ir::{
    BlockLayout, CapKeep, CapMarker, CapSpec, GutterSpec, IrLeaf, LayoutIr, RetainedContentSpec,
};
use crate::measure::{edge_stack, edge_window};
use crate::rows::{wrapped, RowOp};

verus! {

/// A row of a leaf, by the leaf and the row's place in it.
pub type NamedRow = (IrLeaf, int);

/// A layout of leaves that are counted exactly, stacked, styled or refreshed, and not too deep.
pub open spec fn is_stacked(m: Metrics, layout: LayoutIr, depth: usize) -> bool
    decreases layout,
{
    depth <= MAX_BOUNDED_EDGE_DEPTH && match layout {
        BlockLayout::Empty => true,
        BlockLayout::Leaf(leaf) => !(leaf is Content) && leaf_fits_exact(m, leaf),
        BlockLayout::Vbox(items) => forall|i: int|
            0 <= i < items@.len() ==> is_stacked(m, #[trigger] items@[i], (depth + 1) as usize),
        BlockLayout::Style { child, .. } => is_stacked(m, *child, (depth + 1) as usize),
        BlockLayout::Refresh { child, .. } => is_stacked(m, *child, (depth + 1) as usize),
        _ => false,
    }
}

/// All rows of such a layout, from top to bottom.
pub open spec fn rows_in_order(m: Metrics, layout: LayoutIr, width: u16) -> Seq<NamedRow>
    decreases layout, 1nat,
{
    match layout {
        BlockLayout::Leaf(leaf) => Seq::new(
            (m.leaf_rows)(leaf, width, 0) as nat,
            |i: int| (leaf, i),
        ),
        BlockLayout::Vbox(items) => stack_in_order(m, items@, width),
        BlockLayout::Style { child, .. } => rows_in_order(m, *child, width),
        BlockLayout::Refresh { child, .. } => rows_in_order(m, *child, width),
        _ => Seq::empty(),
    }
}

pub open spec fn stack_in_order(m: Metrics, items: Seq<LayoutIr>, width: u16) -> Seq<NamedRow>
    decreases items, 0nat,
{
    if items.len() == 0 {
        Seq::empty()
    } else {
        stack_in_order(m, items.drop_last(), width) + rows_in_order(m, items.last(), width)
    }
}

/// The rows of leaves that one row shows.
pub open spec fn shown_in_row(row: Seq<RowOp>) -> Seq<NamedRow>
    decreases row.len(),
{
    if row.len() == 0 {
        Seq::empty()
    } else {
        shown_in_row(row.drop_last()) + match row.last() {
            RowOp::Leaf { leaf, row, .. } => seq![(*leaf, row as int)],
            _ => Seq::empty(),
        }
    }
}

/// The rows of leaves that some rows show, from top to bottom.
pub open spec fn shown_in_rows(rows: Seq<Seq<RowOp>>) -> Seq<NamedRow> {
    rows.map_values(|row: Seq<RowOp>| shown_in_row(row)).flatten()
}

proof fn lemma_row_concat(a: Seq<RowOp>, b: Seq<RowOp>)
    ensures
        shown_in_row(a + b) == shown_in_row(a) + shown_in_row(b),
    decreases b.len(),
{
    if b.len() == 0 {
        assert(a + b =~= a);
        assert(shown_in_row(a) + shown_in_row(b) =~= shown_in_row(a));
    } else {
        let rest = b.drop_last();
        lemma_row_concat(a, rest);
        assert((a + b).drop_last() =~= a + rest);
        assert((a + b).last() == b.last());
        let last = match b.last() {
            RowOp::Leaf { leaf, row, .. } => seq![(*leaf, row as int)],
            _ => Seq::empty(),
        };
        assert(shown_in_row(a) + shown_in_row(rest) + last =~= shown_in_row(a) + (shown_in_row(rest)
            + last));
    }
}

proof fn lemma_rows_concat(a: Seq<Seq<RowOp>>, b: Seq<Seq<RowOp>>)
    ensures
        shown_in_rows(a + b) == shown_in_rows(a) + shown_in_rows(b),
    decreases b.len(),
{
    let shown = |row: Seq<RowOp>| shown_in_row(row);
    if b.len() == 0 {
        assert(a + b =~= a);
        assert(b.map_values(shown) =~= Seq::<Seq<NamedRow>>::empty());
        assert(shown_in_rows(a) + shown_in_rows(b) =~= shown_in_rows(a));
    } else {
        let rest = b.drop_last();
        lemma_rows_concat(a, rest);
        assert((a + b).map_values(shown) =~= (a + rest).map_values(shown).push(shown(b.last())));
        (a + rest).map_values(shown).lemma_flatten_push(shown(b.last()));
        assert(b.map_values(shown) =~= rest.map_values(shown).push(shown(b.last())));
        rest.map_values(shown).lemma_flatten_push(shown(b.last()));
        assert(shown_in_rows(a) + shown_in_rows(rest) + shown(b.last()) =~= shown_in_rows(a) + (
        shown_in_rows(rest) + shown(b.last())));
    }
}

proof fn lemma_wrapped(before: Seq<RowOp>, rows: Seq<Seq<RowOp>>, after: Seq<RowOp>)
    requires
        shown_in_row(before).len() == 0,
        shown_in_row(after).len() == 0,
    ensures
        shown_in_rows(wrapped(before, rows, after)) == shown_in_rows(rows),
{
    let shown = |row: Seq<RowOp>| shown_in_row(row);
    let around = wrapped(before, rows, after);
    assert forall|i: int| 0 <= i < rows.len() implies shown(#[trigger] around[i]) == shown(
        rows[i],
    ) by {
        lemma_row_concat(before + rows[i], after);
        lemma_row_concat(before, rows[i]);
        assert(shown_in_row(around[i]) =~= shown_in_row(rows[i]));
    }
    assert(around.map_values(shown) =~= rows.map_values(shown));
}

proof fn lemma_leaf_range(
    leaf: &IrLeaf,
    width: u16,
    start: usize,
    count: usize,
    total: usize,
    n: int,
)
    requires
        start + count <= total,
        0 <= n <= count,
    ensures
        leaf_range(leaf, width, start, count, None, total).len() == count,
        shown_in_rows(leaf_range(leaf, width, start, count, None, total).take(n)) == Seq::new(
            n as nat,
            |i: int| (*leaf, start + i),
        ),
    decreases n,
{
    let rows = leaf_range(leaf, width, start, count, None, total);
    let shown = |row: Seq<RowOp>| shown_in_row(row);
    if n > 0 {
        lemma_leaf_range(leaf, width, start, count, total, n - 1);
        let op = RowOp::Leaf { leaf, width, row: (start + n - 1) as usize, gutter: None };
        assert(rows[n - 1] == seq![op]);
        assert(seq![op].drop_last() =~= Seq::<RowOp>::empty());
        assert(shown_in_row(seq![op].drop_last()) =~= Seq::<NamedRow>::empty());
        assert(seq![op].last() == op);
        assert((start + n - 1) as usize == start + n - 1);
        assert(shown_in_row(seq![op]) =~= seq![(*leaf, start + n - 1)]);
        assert(rows.take(n).map_values(shown) =~= rows.take(n - 1).map_values(shown).push(
            shown(rows[n - 1]),
        ));
        rows.take(n - 1).map_values(shown).lemma_flatten_push(shown(rows[n - 1]));
        assert(shown_in_rows(rows.take(n)) =~= Seq::new(n as nat, |i: int| (*leaf, start + i)));
    } else {
        assert(rows.take(0).map_values(shown) =~= Seq::<Seq<NamedRow>>::empty());
        assert(shown_in_rows(rows.take(0)) =~= Seq::new(0, |i: int| (*leaf, start + i)));
    }
}

proof fn lemma_first_then_rest(m: Metrics, items: Seq<LayoutIr>, width: u16)
    requires
        items.len() > 0,
    ensures
        stack_in_order(m, items, width) == rows_in_order(m, items[0], width) + stack_in_order(
            m,
            items.drop_first(),
            width,
        ),
    decreases items.len(),
{
    if items.len() == 1 {
        assert(items.drop_last() =~= Seq::<LayoutIr>::empty());
        assert(items.drop_first() =~= Seq::<LayoutIr>::empty());
        assert(stack_in_order(m, items, width) =~= rows_in_order(m, items[0], width)
            + stack_in_order(m, items.drop_first(), width));
    } else {
        lemma_first_then_rest(m, items.drop_last(), width);
        assert(items.drop_last().drop_first() =~= items.drop_first().drop_last());
        assert(items.drop_first().last() == items.last());
        let a = rows_in_order(m, items[0], width);
        let b = stack_in_order(m, items.drop_last().drop_first(), width);
        let c = rows_in_order(m, items.last(), width);
        assert(a + b + c =~= a + (b + c));
    }
}

/// What is said of the first rows is right: as many as there are, at most `n`; and more are
/// said to follow only where all that were asked for are there.
pub open spec fn counts_right(
    window: crate::ir::ContentTextWindow,
    total: nat,
    n: usize,
) -> bool {
    &&& window.row_count == if total <= n {
        total as int
    } else {
        n as int
    }
    &&& window.truncated ==> total >= n
    &&& !window.truncated ==> total <= n
}

proof fn lemma_window(m: Metrics, layout: LayoutIr, width: u16, n: usize, depth: usize)
    requires
        is_stacked(m, layout, depth),
        rows_in_order(m, layout, width).len() <= usize::MAX,
    ensures
        counts_right(
            edge_window(m, layout, width, n, depth),
            rows_in_order(m, layout, width).len(),
            n,
        ),
    decreases layout, 1nat,
{
    match layout {
        BlockLayout::Empty => {},
        BlockLayout::Leaf(leaf) => {},
        BlockLayout::Vbox(items) => {
            lemma_window_stack(m, items@, width, n, 0, (depth + 1) as usize);
        },
        BlockLayout::Style { child, .. } => {
            lemma_window(m, *child, width, n, (depth + 1) as usize);
        },
        BlockLayout::Refresh { child, .. } => {
            lemma_window(m, *child, width, n, (depth + 1) as usize);
        },
        _ => {},
    }
}

proof fn lemma_window_stack(
    m: Metrics,
    items: Seq<LayoutIr>,
    width: u16,
    n: usize,
    above: usize,
    depth: usize,
)
    requires
        forall|i: int| 0 <= i < items.len() ==> is_stacked(m, #[trigger] items[i], depth),
        above + stack_in_order(m, items, width).len() <= usize::MAX,
        above <= n,
    ensures
        counts_right(
            edge_stack(m, items, width, n, above, depth),
            above as nat + stack_in_order(m, items, width).len(),
            n,
        ),
    decreases items, 0nat,
{
    if items.len() > 0 {
        lemma_first_then_rest(m, items, width);
        let rest = items.drop_first();
        if above < n {
            lemma_window(m, items[0], width, (n - above) as usize, depth);
            let child = edge_window(m, items[0], width, (n - above) as usize, depth);
            if !child.truncated {
                assert forall|i: int| 0 <= i < rest.len() implies is_stacked(
                    m,
                    #[trigger] rest[i],
                    depth,
                ) by {
                    assert(rest[i] == items[i + 1]);
                }
                lemma_window_stack(
                    m,
                    rest,
                    width,
                    n,
                    (above + child.row_count) as usize,
                    depth,
                );
            }
        }
    }
}

/// The edge of a stack of leaves shows its first rows, or its last, as many as are asked for and
/// there are, each once and in their order.
pub proof fn edge_shows_the_first_or_last_rows(
    m: Metrics,
    layout: &LayoutIr,
    width: u16,
    n: usize,
    tail: bool,
    depth: usize,
)
    requires
        is_stacked(m, *layout, depth),
        rows_in_order(m, *layout, width).len() <= usize::MAX,
    ensures
        ({
            let all = rows_in_order(m, *layout, width);
            let shown = shown_in_rows(edge_rows(m, layout, width, n, tail, depth));
            let count = if all.len() <= n {
                all.len() as int
            } else {
                n as int
            };
            &&& !tail ==> shown == all.take(count)
            &&& tail ==> shown == all.skip(all.len() - count)
        }),
    decreases *layout, 1nat,
{
    let all = rows_in_order(m, *layout, width);
    let window = edge_window(m, *layout, width, n, depth);
    let below = (depth + 1) as usize;
    lemma_window(m, *layout, width, n, depth);
    let none = Seq::<Seq<RowOp>>::empty();
    assert(shown_in_rows(none) =~= Seq::<NamedRow>::empty()) by {
        assert(none.map_values(|row: Seq<RowOp>| shown_in_row(row)) =~= Seq::<
            Seq<NamedRow>,
        >::empty());
    }
    match layout {
        BlockLayout::Empty => {
            assert(all.take(0) =~= all);
            assert(all.skip(0) =~= all);
        },
        BlockLayout::Leaf(leaf) => {
            let total = (m.leaf_rows)(*leaf, width, 0);
            let start = if tail {
                total.saturating_sub(window.row_count)
            } else {
                0
            };
            lemma_leaf_range(
                leaf,
                width,
                start,
                window.row_count,
                total,
                window.row_count as int,
            );
            let rows = leaf_range(leaf, width, start, window.row_count, None, total);
            assert(rows.take(window.row_count as int) =~= rows);
            let named = Seq::new(window.row_count as nat, |i: int| (*leaf, start + i));
            if tail {
                assert(named =~= all.skip(all.len() - window.row_count));
            } else {
                assert(named =~= all.take(window.row_count as int));
            }
        },
        BlockLayout::Vbox(items) => {
            if !tail || !window.truncated {
                lemma_head_stack(m, items@, width, window.row_count, below);
                assert(all.take(all.len() as int) =~= all.skip(0));
            } else {
                lemma_tail_stack(m, items@, width, window.row_count, below);
            }
        },
        BlockLayout::Style { child, spec } => {
            let before = seq![RowOp::SaveStyle, RowOp::ApplyStyle(spec)];
            let after = seq![RowOp::RestoreStyle];
            lemma_no_leaf(before);
            lemma_no_leaf(after);
            edge_shows_the_first_or_last_rows(m, &**child, width, window.row_count, tail, below);
            let inner = edge_rows(m, &**child, width, window.row_count, tail, below);
            lemma_wrapped(before, inner, after);
        },
        BlockLayout::Refresh { child, .. } => {
            edge_shows_the_first_or_last_rows(m, &**child, width, window.row_count, tail, below);
        },
        _ => {},
    }
}

proof fn lemma_no_leaf(row: Seq<RowOp>)
    requires
        forall|i: int| 0 <= i < row.len() ==> !(#[trigger] row[i] is Leaf),
    ensures
        shown_in_row(row).len() == 0,
    decreases row.len(),
{
    if row.len() > 0 {
        assert(!(row[row.len() - 1] is Leaf));
        lemma_no_leaf(row.drop_last());
    }
}

proof fn lemma_head_stack(
    m: Metrics,
    items: Seq<LayoutIr>,
    width: u16,
    remaining: usize,
    depth: usize,
)
    requires
        forall|i: int| 0 <= i < items.len() ==> is_stacked(m, #[trigger] items[i], depth),
        stack_in_order(m, items, width).len() <= usize::MAX,
        remaining <= stack_in_order(m, items, width).len(),
    ensures
        shown_in_rows(head_stack(m, items, width, remaining, depth)) == stack_in_order(
            m,
            items,
            width,
        ).take(remaining as int),
    decreases items, 0nat,
{
    let all = stack_in_order(m, items, width);
    let none = Seq::<Seq<RowOp>>::empty();
    assert(none.map_values(|row: Seq<RowOp>| shown_in_row(row)) =~= Seq::<Seq<NamedRow>>::empty());
    if items.len() == 0 || remaining == 0 {
        assert(shown_in_rows(none) =~= all.take(remaining as int));
    } else {
        lemma_first_then_rest(m, items, width);
        let first = rows_in_order(m, items[0], width);
        let rest = items.drop_first();
        assert forall|i: int| 0 <= i < rest.len() implies is_stacked(
            m,
            #[trigger] rest[i],
            depth,
        ) by {
            assert(rest[i] == items[i + 1]);
        }
        lemma_window(m, items[0], width, remaining, depth);
        edge_shows_the_first_or_last_rows(m, &items[0], width, remaining, false, depth);
        let window = edge_window(m, items[0], width, remaining, depth);
        let rows = edge_rows(m, &items[0], width, remaining, false, depth);
        if window.truncated {
            assert(first.take(remaining as int) =~= all.take(remaining as int));
        } else {
            let left = remaining.saturating_sub(window.row_count);
            lemma_head_stack(m, rest, width, left, depth);
            lemma_rows_concat(rows, head_stack(m, rest, width, left, depth));
            assert(first.take(first.len() as int) =~= first);
            assert(first + stack_in_order(m, rest, width).take(left as int) =~= all.take(
                remaining as int,
            ));
        }
    }
}

proof fn lemma_tail_stack(
    m: Metrics,
    items: Seq<LayoutIr>,
    width: u16,
    remaining: usize,
    depth: usize,
)
    requires
        forall|i: int| 0 <= i < items.len() ==> is_stacked(m, #[trigger] items[i], depth),
        stack_in_order(m, items, width).len() <= usize::MAX,
        remaining <= stack_in_order(m, items, width).len(),
    ensures
        shown_in_rows(tail_stack(m, items, width, remaining, depth)) == stack_in_order(
            m,
            items,
            width,
        ).skip(stack_in_order(m, items, width).len() - remaining),
    decreases items, 0nat,
{
    let all = stack_in_order(m, items, width);
    let none = Seq::<Seq<RowOp>>::empty();
    assert(none.map_values(|row: Seq<RowOp>| shown_in_row(row)) =~= Seq::<Seq<NamedRow>>::empty());
    if items.len() == 0 || remaining == 0 {
        assert(shown_in_rows(none) =~= all.skip(all.len() - remaining));
    } else {
        let last = rows_in_order(m, items.last(), width);
        let rest = items.drop_last();
        let above = stack_in_order(m, rest, width);
        assert(is_stacked(m, items[items.len() - 1], depth));
        assert forall|i: int| 0 <= i < rest.len() implies is_stacked(
            m,
            #[trigger] rest[i],
            depth,
        ) by {
            assert(rest[i] == items[i]);
        }
        lemma_window(m, items.last(), width, remaining, depth);
        edge_shows_the_first_or_last_rows(m, &items.last(), width, remaining, true, depth);
        let window = edge_window(m, items.last(), width, remaining, depth);
        let inner = edge_rows(m, &items.last(), width, remaining, true, depth);
        let before = seq![RowOp::OpenRow(replayed(width))];
        let after = seq![RowOp::CloseRow(replayed(width))];
        lemma_no_leaf(before);
        lemma_no_leaf(after);
        lemma_wrapped(before, inner, after);
        let rows = wrapped(before, inner, after);
        if window.truncated {
            assert(last.skip(last.len() - remaining) =~= all.skip(all.len() - remaining));
        } else {
            let left = remaining.saturating_sub(window.row_count);
            lemma_tail_stack(m, rest, width, left, depth);
            lemma_rows_concat(tail_stack(m, rest, width, left, depth), rows);
            assert(last.skip(0) =~= last);
            assert(above.skip(above.len() - left) + last =~= all.skip(all.len() - remaining));
        }
    }
}

/// Rows of a content are named in their order, counted from its start or, at its end, from the
/// first of those shown.
pub proof fn content_rows_are_named_in_order(
    content: &RetainedContentSpec,
    width: u16,
    count: usize,
    tail: bool,
    gutter: Option<&GutterSpec>,
    i: int,
)
    requires
        0 <= i < count,
    ensures
        content_range(content, width, count, tail, gutter).len() == count,
        content_range(content, width, count, tail, gutter)[i] == seq![
            (RowOp::ContentEdge { content, width, count, tail, row: i as usize, gutter }),
        ],
{
}

/// What a cap draws: the first rows of its child, or the last, or first ones and then last ones
/// that together are as many as it keeps; and its marker, where it is shown, above, below or
/// between them.
pub proof fn cap_draws_the_rows_it_keeps(
    m: Metrics,
    child: &LayoutIr,
    spec: CapSpec,
    width: u16,
    facts: CapFacts,
    depth: usize,
)
    ensures
        ({
            let body = cap_body(m, child, spec, width, facts, depth);
            let first = edge_rows(m, child, width, facts.kept, false, depth);
            let last = edge_rows(m, child, width, facts.kept, true, depth);
            let marked = facts.marker_visible;
            match spec.keep {
                CapKeep::Head { marker: Some(CapMarker::Above) } if marked => body.len()
                    == first.len() + 1 && body.skip(1) == first,
                CapKeep::Head { marker: Some(CapMarker::Below) } if marked => body.len()
                    == first.len() + 1 && body.drop_last() == first,
                CapKeep::Head { .. } => body == first,
                CapKeep::Tail { marker: Some(CapMarker::Above) } if marked => body.len()
                    == last.len() + 1 && body.skip(1) == last,
                CapKeep::Tail { marker: Some(CapMarker::Below) } if marked => body.len()
                    == last.len() + 1 && body.drop_last() == last,
                CapKeep::Tail { .. } => body == last,
                CapKeep::HeadTail { head, marker } => {
                    let h = if head <= facts.kept {
                        head as usize
                    } else {
                        facts.kept
                    };
                    let top = edge_rows(m, child, width, h, false, depth);
                    let bottom = edge_rows(m, child, width, (facts.kept - h) as usize, true, depth);
                    &&& !facts.truncated ==> body == first
                    &&& facts.truncated ==> top.is_prefix_of(body) && bottom.is_suffix_of(body)
                        && body.len() == top.len() + bottom.len() + if marked && marker {
                        1int
                    } else {
                        0
                    }
                },
            }
        }),
{
    let body = cap_body(m, child, spec, width, facts, depth);
    let first = edge_rows(m, child, width, facts.kept, false, depth);
    let last = edge_rows(m, child, width, facts.kept, true, depth);
    match spec.keep {
        CapKeep::Head { marker } => {
            if facts.marker_visible && marker == Some(CapMarker::Above) {
                assert(body.skip(1) =~= first);
            } else if facts.marker_visible && marker == Some(CapMarker::Below) {
                assert(body.drop_last() =~= first);
            } else {
                assert(body =~= first);
            }
        },
        CapKeep::Tail { marker } => {
            if facts.marker_visible && marker == Some(CapMarker::Above) {
                assert(body.skip(1) =~= last);
            } else if facts.marker_visible && marker == Some(CapMarker::Below) {
                assert(body.drop_last() =~= last);
            } else {
                assert(body =~= last);
            }
        },
        CapKeep::HeadTail { head, marker } => {},
    }
}

/// A marker counts the rows that are missing: of the rows that the child is known to have, or
/// else of those that it is said to have, those that are not kept; or one, where nothing is
/// known.
pub proof fn marker_counts_the_missing_rows(
    spec: CapSpec,
    kept: usize,
    direction: CapDirection,
    known: Option<usize>,
    gutter: Option<&GutterSpec>,
)
    ensures
        ({
            let op = marker_op(spec, kept, direction, known, None, gutter);
            &&& op matches RowOp::Marker {
                skipped,
                kept: shown,
                total,
                direction: place,
                gutter: before,
            }
            &&& shown == kept && place == direction && before == gutter && total is None
            &&& known matches Some(rows) ==> (rows >= kept ==> skipped + kept == rows)
            &&& known is None && spec.total_rows is Some ==> (spec.total_rows->0 >= kept
                && spec.total_rows->0 - kept <= usize::MAX ==> skipped + kept
                == spec.total_rows->0)
            &&& known is None && spec.total_rows is None && kept < usize::MAX ==> skipped == 1
        }),
{
}

} // verus!
