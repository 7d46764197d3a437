//! What is found in cached layouts and sources, which work is planned, and in which order rows
//! are placed.
use vstd::prelude::*;
use crate::cached_layout::CachedLayout;
use crate::compile::earliest;
use crate::compile_jobs::{due, present, NodeSource};
use crate::compile_laws::is_soonest;
use crate::content_draw::{
    own_gutter_steps, placed_rows, plain_rows_steps, temp_rows_steps, text_rows_steps,
};
use crate::ir::{BlockLayout, GutterSpec, HboxItem, IrLeaf, LayoutIr};
use crate::layout_cache::{
    block_position, columns_show_content, earliest_refresh, kept, planned, shows_content,
    stack_shows_content, syntax_evicted, work_for, LiveBlock, NodeRequest, PlannedWork,
    RequestedNode, Shelf,
};
use crate::layout_cache_use::due_ids;
use crate::leaf_draw::{content_row_steps, plain_row_steps, ContentTextRow};
use crate::line_ops::LineStep;
use crate::retained::capped;
use crate::styled_text::Painting;
use crate::syntax_cache::{bucket_bytes, within_budget, SyntaxBucket, INLINE_SYNTAX_CACHE_BUDGET};
use crate::temp_rows::StyleOverlay;
use crate::view_state::ViewState;

verus! {

proof fn lemma_sooner(
    a: Option<u64>,
    b: Option<u64>,
    left: spec_fn(u64) -> bool,
    both: spec_fn(u64) -> bool,
)
    requires
        is_soonest(a, left),
        forall|e: u64| #[trigger] both(e) == (left(e) || b == Some(e)),
    ensures
        is_soonest(earliest(a, b), both),
{
    if let Some(t) = b {
        assert(both(t));
    }
}

/// The cache is to be looked at again when the soonest of its layouts is to be drawn again, and
/// never where none is.
pub proof fn refresh_is_the_soonest_of_all<T>(blocks: Seq<CachedLayout<T>>)
    ensures
        is_soonest(
            earliest_refresh(blocks),
            |t: u64| exists|i: int|
                0 <= i < blocks.len() && (#[trigger] blocks[i]).refresh_at == Some(t),
        ),
    decreases blocks.len(),
{
    let both = |t: u64| exists|i: int|
        0 <= i < blocks.len() && (#[trigger] blocks[i]).refresh_at == Some(t);
    if blocks.len() > 0 {
        let rest = blocks.drop_last();
        let last = blocks.last();
        refresh_is_the_soonest_of_all(rest);
        let left = |t: u64| exists|i: int|
            0 <= i < rest.len() && (#[trigger] rest[i]).refresh_at == Some(t);
        assert forall|e: u64| #[trigger] both(e) == (left(e) || last.refresh_at == Some(e)) by {
            if both(e) {
                let i = choose|i: int|
                    0 <= i < blocks.len() && (#[trigger] blocks[i]).refresh_at == Some(e);
                if i < rest.len() {
                    assert(rest[i] == blocks[i]);
                }
            }
            if left(e) {
                let i = choose|i: int|
                    0 <= i < rest.len() && (#[trigger] rest[i]).refresh_at == Some(e);
                assert(blocks[i] == rest[i]);
            }
            if last.refresh_at == Some(e) {
                assert(blocks[blocks.len() - 1].refresh_at == Some(e));
            }
        }
        lemma_sooner(earliest_refresh(rest), last.refresh_at, left, both);
    }
}

/// Some leaf of a layout is this content.
pub open spec fn has_content(layout: LayoutIr, id: u64) -> bool
    decreases layout,
{
    match layout {
        BlockLayout::Empty => false,
        BlockLayout::Leaf(leaf) => leaf is Content && leaf->Content_0.content == id,
        BlockLayout::Vbox(items) => exists|i: int|
            0 <= i < items@.len() && has_content(#[trigger] items@[i], id),
        BlockLayout::Hbox(items) => exists|i: int|
            0 <= i < items@.len() && {
                let item = #[trigger] items@[i];
                proof {
                    assert(decreases_to!(items => items@));
                    assert(decreases_to!(items@ => items@[i]));
                    assert(decreases_to!(items@[i] => items@[i].layout));
                }
                has_content(item.layout, id)
            },
        BlockLayout::Gutter { child, .. } => has_content(*child, id),
        BlockLayout::RowPrefix { child, .. } => has_content(*child, id),
        BlockLayout::Panel { child, .. } => has_content(*child, id),
        BlockLayout::Style { child, .. } => has_content(*child, id),
        BlockLayout::Cap { child, .. } => has_content(*child, id),
        BlockLayout::Refresh { child, .. } => has_content(*child, id),
    }
}

/// A layout shows a content if and only if one of its leaves, wherever it is, is that content.
pub proof fn content_is_found_wherever_it_is(layout: LayoutIr, id: u64)
    ensures
        shows_content(layout, id) == has_content(layout, id),
    decreases layout, 1nat,
{
    match layout {
        BlockLayout::Empty => {},
        BlockLayout::Leaf(_) => {},
        BlockLayout::Vbox(items) => {
            lemma_stack_content(items@, id);
        },
        BlockLayout::Hbox(items) => {
            lemma_columns_content(items@, id);
        },
        BlockLayout::Gutter { child, .. } => content_is_found_wherever_it_is(*child, id),
        BlockLayout::RowPrefix { child, .. } => content_is_found_wherever_it_is(*child, id),
        BlockLayout::Panel { child, .. } => content_is_found_wherever_it_is(*child, id),
        BlockLayout::Style { child, .. } => content_is_found_wherever_it_is(*child, id),
        BlockLayout::Cap { child, .. } => content_is_found_wherever_it_is(*child, id),
        BlockLayout::Refresh { child, .. } => content_is_found_wherever_it_is(*child, id),
    }
}

proof fn lemma_stack_content(items: Seq<LayoutIr>, id: u64)
    ensures
        stack_shows_content(items, id) == (exists|i: int|
            0 <= i < items.len() && has_content(#[trigger] items[i], id)),
    decreases items, 0nat,
{
    if items.len() > 0 {
        let rest = items.drop_last();
        lemma_stack_content(rest, id);
        content_is_found_wherever_it_is(items.last(), id);
        if stack_shows_content(rest, id) {
            let i = choose|i: int| 0 <= i < rest.len() && has_content(#[trigger] rest[i], id);
            assert(has_content(items[i], id));
        }
        if has_content(items.last(), id) {
            assert(has_content(items[items.len() - 1], id));
        }
        if exists|i: int| 0 <= i < items.len() && has_content(#[trigger] items[i], id) {
            let i = choose|i: int| 0 <= i < items.len() && has_content(#[trigger] items[i], id);
            if i < rest.len() {
                assert(has_content(rest[i], id));
            }
        }
    }
}

proof fn lemma_columns_content(items: Seq<HboxItem<IrLeaf>>, id: u64)
    ensures
        columns_show_content(items, id) == (exists|i: int|
            0 <= i < items.len() && has_content((#[trigger] items[i]).layout, id)),
    decreases items, 0nat,
{
    if items.len() > 0 {
        let rest = items.drop_last();
        lemma_columns_content(rest, id);
        assert(decreases_to!(items => items.last()));
        assert(decreases_to!(items.last() => items.last().layout));
        content_is_found_wherever_it_is(items.last().layout, id);
        if columns_show_content(rest, id) {
            let i = choose|i: int|
                0 <= i < rest.len() && has_content((#[trigger] rest[i]).layout, id);
            assert(has_content(items[i].layout, id));
        }
        if has_content(items.last().layout, id) {
            assert(has_content(items[items.len() - 1].layout, id));
        }
        if exists|i: int| 0 <= i < items.len() && has_content((#[trigger] items[i]).layout, id) {
            let i = choose|i: int|
                0 <= i < items.len() && has_content((#[trigger] items[i]).layout, id);
            if i < rest.len() {
                assert(has_content(rest[i].layout, id));
            }
        }
    }
}

/// Nodes are due whose moment has come, and no others, in the order of their layouts.
pub proof fn due_nodes_are_those_whose_moment_has_come<T>(blocks: Seq<CachedLayout<T>>, now: u64)
    ensures
        due_ids(blocks, now) == blocks.filter(
            |b: CachedLayout<T>| b.refresh_at is Some && b.refresh_at->0 <= now,
        ).map_values(|b: CachedLayout<T>| b.id),
    decreases blocks.len(),
{
    let is_due = |b: CachedLayout<T>| b.refresh_at is Some && b.refresh_at->0 <= now;
    let id = |b: CachedLayout<T>| b.id;
    reveal(Seq::filter);
    if blocks.len() > 0 {
        let rest = blocks.drop_last();
        due_nodes_are_those_whose_moment_has_come(rest, now);
        if is_due(blocks.last()) {
            assert(rest.filter(is_due).push(blocks.last()).map_values(id) =~= rest.filter(
                is_due,
            ).map_values(id).push(blocks.last().id));
        }
    } else {
        assert(blocks.filter(is_due).map_values(id) =~= Seq::<u64>::empty());
    }
}

/// The layouts that are kept are those that are to be, in their order.
pub proof fn kept_layouts_stay_in_order<T>(
    blocks: Seq<CachedLayout<T>>,
    keep: spec_fn(CachedLayout<T>) -> bool,
)
    ensures
        kept(blocks, keep) == blocks.filter(keep),
    decreases blocks.len(),
{
    reveal(Seq::filter);
    if blocks.len() > 0 {
        kept_layouts_stay_in_order(blocks.drop_last(), keep);
    }
}

/// The layout that is found for a node is the first of that node, and none is where it has none.
pub proof fn first_layout_of_a_node_is_found<T>(blocks: Seq<CachedLayout<T>>, id: u64, i: int)
    requires
        0 <= i <= blocks.len(),
    ensures
        match block_position(blocks, id, i) {
            Some(k) => {
                &&& i <= k < blocks.len()
                &&& blocks[k].id == id
                &&& forall|j: int| i <= j < k ==> (#[trigger] blocks[j]).id != id
            },
            None => forall|j: int| i <= j < blocks.len() ==> (#[trigger] blocks[j]).id != id,
        },
    decreases blocks.len() - i,
{
    if i < blocks.len() && blocks[i].id != id {
        first_layout_of_a_node_is_found(blocks, id, i + 1);
    }
}

/// Highlights are dropped from the oldest on, no more than have to be: what is left are the
/// newest, within the budget, and one more would be over it.
pub proof fn newest_highlights_stay(buckets: Seq<SyntaxBucket>)
    ensures
        ({
            let left = within_budget(buckets);
            let gone = buckets.len() - left.len();
            &&& 0 <= gone
            &&& left == buckets.skip(gone)
            &&& left.len() > 0 ==> bucket_bytes(left) <= INLINE_SYNTAX_CACHE_BUDGET
            &&& gone > 0 ==> bucket_bytes(buckets.skip(gone - 1)) > INLINE_SYNTAX_CACHE_BUDGET
        }),
    decreases buckets.len(),
{
    if buckets.len() > 0 && bucket_bytes(buckets) > INLINE_SYNTAX_CACHE_BUDGET {
        let rest = buckets.drop_first();
        newest_highlights_stay(rest);
        let left = within_budget(rest);
        let gone = rest.len() - left.len();
        assert(rest.skip(gone) =~= buckets.skip(gone + 1));
        if gone > 0 {
            assert(rest.skip(gone - 1) =~= buckets.skip(gone));
        } else {
            assert(buckets.skip(0) =~= buckets);
        }
    } else {
        assert(buckets.skip(0) =~= buckets);
    }
}

/// Highlights make room for layouts from the oldest on, no more than have to.
pub proof fn oldest_highlights_make_room(
    buckets: Seq<SyntaxBucket>,
    retained: usize,
    budget: usize,
)
    ensures
        ({
            let left = syntax_evicted(buckets, retained, budget);
            let gone = buckets.len() - left.len();
            &&& 0 <= gone
            &&& left == buckets.skip(gone)
            &&& left.len() > 0 ==> capped(retained + bucket_bytes(left)) <= budget
            &&& gone > 0 ==> capped(retained + bucket_bytes(buckets.skip(gone - 1))) > budget
        }),
    decreases buckets.len(),
{
    if buckets.len() > 0 && capped(retained + bucket_bytes(buckets)) > budget {
        let rest = buckets.drop_first();
        oldest_highlights_make_room(rest, retained, budget);
        let left = syntax_evicted(rest, retained, budget);
        let gone = rest.len() - left.len();
        assert(rest.skip(gone) =~= buckets.skip(gone + 1));
        if gone > 0 {
            assert(rest.skip(gone - 1) =~= buckets.skip(gone));
        } else {
            assert(buckets.skip(0) =~= buckets);
        }
    } else {
        assert(buckets.skip(0) =~= buckets);
    }
}

/// A block is shown from its own content only while it streams, is shown whole, and is a text or
/// a thought without any title. Other blocks are left to their renderer, and so are groups, over
/// their children only where they are shown whole. What is gone leaves no work.
pub proof fn work_follows_what_is_asked_for(request: NodeRequest)
    ensures
        ({
            let whole = request.view_state == ViewState::Expanded;
            match request.node {
                RequestedNode::Missing => work_for(request) is None,
                RequestedNode::Group => work_for(request) == Some(
                    (PlannedWork::Group { with_children: whole }),
                ),
                RequestedNode::Block { streaming, live } => {
                    let as_it_is = match live {
                        LiveBlock::Text { .. } => true,
                        LiveBlock::Thinking { titled, summary_titles, .. } => !titled
                            && summary_titles == 0,
                        LiveBlock::Other => false,
                    };
                    work_for(request) == Some(
                        if streaming && whole && as_it_is {
                            PlannedWork::Live(live)
                        } else {
                            PlannedWork::Node
                        },
                    )
                },
            }
        }),
{
}

/// Each job is for the request that it names, and jobs come in the order of the requests, at
/// most one for each.
pub proof fn jobs_follow_their_requests<T>(shelf: Shelf<T>, requests: Seq<NodeRequest>, n: int)
    requires
        0 <= n <= requests.len() <= usize::MAX,
    ensures
        ({
            let jobs = planned(shelf, requests, n).jobs;
            &&& forall|j: int|
                0 <= j < jobs.len() ==> {
                    let job = #[trigger] jobs[j];
                    &&& job.request < n
                    &&& job.id == requests[job.request as int].id
                    &&& job.key == requests[job.request as int].key
                    &&& job.view_state == requests[job.request as int].view_state
                    &&& work_for(requests[job.request as int]) == Some(job.work)
                }
            &&& forall|i: int, j: int|
                0 <= i < j < jobs.len() ==> (#[trigger] jobs[i]).request < (
                #[trigger] jobs[j]).request
        }),
    decreases n,
{
    if n > 0 {
        jobs_follow_their_requests(shelf, requests, n - 1);
    }
}

/// A layout is due after its delay, counted from now.
pub proof fn delay_counts_from_now(now: u64, delay: u64)
    ensures
        due(now, None) is None,
        now + delay <= u64::MAX ==> due(now, Some(delay)) == Some((now + delay) as u64),
        now + delay > u64::MAX ==> due(now, Some(delay)) is None,
{
}

/// The children of a group that are there keep their order.
pub proof fn present_children_stay_in_order(found: Seq<Option<NodeSource>>)
    ensures
        present(found) == found.filter(|n: Option<NodeSource>| n is Some).map_values(
            |n: Option<NodeSource>| n->0,
        ),
    decreases found.len(),
{
    let is_there = |n: Option<NodeSource>| n is Some;
    let own = |n: Option<NodeSource>| n->0;
    reveal(Seq::filter);
    if found.len() > 0 {
        let rest = found.drop_last();
        present_children_stay_in_order(rest);
        if found.last() is Some {
            assert(rest.filter(is_there).push(found.last()).map_values(own) =~= rest.filter(
                is_there,
            ).map_values(own).push(found.last()->0));
        }
    } else {
        assert(found.filter(is_there).map_values(own) =~= Seq::<NodeSource>::empty());
    }
}

/// Rows that were drawn on their own are placed in their order, each behind the gutter and on a
/// row of its own.
pub proof fn drawn_rows_are_placed_in_order(
    gutter: Option<&GutterSpec>,
    width: u16,
    overlay: Option<StyleOverlay>,
    from: int,
    to: int,
)
    requires
        0 <= from <= to <= usize::MAX,
    ensures
        temp_rows_steps(gutter, width, overlay, from, to) == Seq::new(
            (to - from) as nat,
            |i: int|
                own_gutter_steps(gutter) + seq![
                    LineStep::TempRow { row: (from + i) as usize, width, overlay },
                    LineStep::Newline,
                ],
        ).flatten(),
    decreases to - from,
{
    let row = |i: int|
        own_gutter_steps(gutter) + seq![
            LineStep::TempRow { row: (from + i) as usize, width, overlay },
            LineStep::Newline,
        ];
    let rows = Seq::new((to - from) as nat, row);
    if from < to {
        drawn_rows_are_placed_in_order(gutter, width, overlay, from, to - 1);
        let before = Seq::new((to - 1 - from) as nat, row);
        assert(rows =~= before.push(row(to - 1 - from)));
        before.lemma_flatten_push(row(to - 1 - from));
        let above = temp_rows_steps(gutter, width, overlay, from, to - 1);
        assert(above + own_gutter_steps(gutter) + seq![
            LineStep::TempRow { row: (to - 1) as usize, width, overlay },
            LineStep::Newline,
        ] =~= above + row(to - 1 - from));
    } else {
        assert(rows =~= Seq::<Seq<LineStep>>::empty());
    }
}

/// Of what was drawn on its own, just the rows that are asked for and are there are placed, as
/// far as they can be numbered.
pub proof fn rows_asked_for_are_placed(row_start: usize, row_count: usize, total: usize, row: int)
    requires
        0 <= row < total,
        row < 65536,
    ensures
        ({
            let (from, to) = placed_rows(row_start, row_count, total);
            (from <= row < to) <==> row_start <= row < row_start + row_count
        }),
{
}

/// Rows of a retained text are drawn one below the other, in their order.
pub proof fn content_rows_are_drawn_in_order(
    painting: Painting,
    rows: Seq<ContentTextRow>,
    hl_group: Option<String>,
    ansi: bool,
    dim: bool,
    italic: bool,
    gutter: Option<&GutterSpec>,
    n: int,
)
    requires
        0 <= n <= rows.len(),
    ensures
        text_rows_steps(painting, rows, hl_group, ansi, gutter, n) == Seq::new(
            n as nat,
            |i: int| content_row_steps(painting, rows[i], hl_group, ansi, gutter),
        ).flatten(),
        plain_rows_steps(rows, dim, italic, gutter, n) == Seq::new(
            n as nat,
            |i: int| plain_row_steps(rows[i], dim, italic, gutter),
        ).flatten(),
    decreases n,
{
    let text = |i: int| content_row_steps(painting, rows[i], hl_group, ansi, gutter);
    let plain = |i: int| plain_row_steps(rows[i], dim, italic, gutter);
    if n > 0 {
        content_rows_are_drawn_in_order(
            painting,
            rows,
            hl_group,
            ansi,
            dim,
            italic,
            gutter,
            n - 1,
        );
        assert(Seq::new(n as nat, text) =~= Seq::new((n - 1) as nat, text).push(text(n - 1)));
        Seq::new((n - 1) as nat, text).lemma_flatten_push(text(n - 1));
        assert(Seq::new(n as nat, plain) =~= Seq::new((n - 1) as nat, plain).push(plain(n - 1)));
        Seq::new((n - 1) as nat, plain).lemma_flatten_push(plain(n - 1));
    } else {
        assert(Seq::new(0, text) =~= Seq::<Seq<LineStep>>::empty());
        assert(Seq::new(0, plain) =~= Seq::<Seq<LineStep>>::empty());
    }
}

} // verus!
