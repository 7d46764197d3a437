//! What compiling a layout looks for in it: when it is to be drawn again, and what is wrong.
use vstd::prelude::*;
use crate::compile::{
    columns_delay, columns_error, earliest, has_syntax, layout_delay, layout_error, leaf_error,
    spans_before, stack_delay, stack_error, syntax_of_lines, CompileEnv, CompileError, LuaLayout,
    LuaLeaf,
};
use crate::ir::{BlockLayout, HboxItem, RetainedInlineSyntax, StyledSpan};
use crate::styled_text::retained_spans;

verus! {

/// Some part of a layout asks to be drawn again after `delay`.
pub open spec fn asks_for(layout: LuaLayout, delay: u64) -> bool
    decreases layout,
{
    match layout {
        BlockLayout::Empty => false,
        BlockLayout::Leaf(_) => false,
        BlockLayout::Vbox(items) => exists|i: int|
            0 <= i < items@.len() && asks_for(#[trigger] items@[i], delay),
        BlockLayout::Hbox(items) => exists|i: int|
            0 <= i < items@.len() && {
                let item = #[trigger] items@[i];
                proof {
                    assert(decreases_to!(items => items@));
                    assert(decreases_to!(items@ => items@[i]));
                    assert(decreases_to!(items@[i] => items@[i].layout));
                }
                asks_for(item.layout, delay)
            },
        BlockLayout::Gutter { child, .. } => asks_for(*child, delay),
        BlockLayout::RowPrefix { child, .. } => asks_for(*child, delay),
        BlockLayout::Panel { child, .. } => asks_for(*child, delay),
        BlockLayout::Style { child, .. } => asks_for(*child, delay),
        BlockLayout::Cap { child, .. } => asks_for(*child, delay),
        BlockLayout::Refresh { child, spec } => spec.after_ms == delay || asks_for(*child, delay),
    }
}

/// `delay` is the soonest of those that hold.
pub open spec fn is_soonest(delay: Option<u64>, holds: spec_fn(u64) -> bool) -> bool {
    match delay {
        Some(d) => holds(d) && forall|e: u64| #[trigger] holds(e) ==> d <= e,
        None => forall|e: u64| !#[trigger] holds(e),
    }
}

/// A layout is drawn again at the soonest time that any part of it asks for, and never where
/// none asks.
pub proof fn delay_is_the_soonest_asked_for(layout: LuaLayout)
    ensures
        is_soonest(layout_delay(layout), |d: u64| asks_for(layout, d)),
    decreases layout, 1nat,
{
    let holds = |d: u64| asks_for(layout, d);
    match layout {
        BlockLayout::Empty => {},
        BlockLayout::Leaf(_) => {},
        BlockLayout::Vbox(items) => {
            lemma_stack_delay(items@);
            let inner = |d: u64| exists|i: int|
                0 <= i < items@.len() && asks_for(#[trigger] items@[i], d);
            assert forall|e: u64| #[trigger] holds(e) == inner(e) by {}
        },
        BlockLayout::Hbox(items) => {
            lemma_columns_delay(items@);
            let inner = |d: u64| exists|i: int|
                0 <= i < items@.len() && asks_for((#[trigger] items@[i]).layout, d);
            assert forall|e: u64| #[trigger] holds(e) == inner(e) by {}
        },
        BlockLayout::Gutter { child, .. } => {
            delay_is_the_soonest_asked_for(*child);
            lemma_same(layout, *child);
        },
        BlockLayout::RowPrefix { child, .. } => {
            delay_is_the_soonest_asked_for(*child);
            lemma_same(layout, *child);
        },
        BlockLayout::Panel { child, .. } => {
            delay_is_the_soonest_asked_for(*child);
            lemma_same(layout, *child);
        },
        BlockLayout::Style { child, .. } => {
            delay_is_the_soonest_asked_for(*child);
            lemma_same(layout, *child);
        },
        BlockLayout::Cap { child, .. } => {
            delay_is_the_soonest_asked_for(*child);
            lemma_same(layout, *child);
        },
        BlockLayout::Refresh { child, spec } => {
            delay_is_the_soonest_asked_for(*child);
            let inner = |d: u64| asks_for(*child, d);
            assert forall|e: u64| #[trigger] holds(e) == (spec.after_ms == e || inner(e)) by {}
            assert(holds(spec.after_ms));
        },
    }
}

proof fn lemma_same(layout: LuaLayout, child: LuaLayout)
    requires
        is_soonest(layout_delay(child), |d: u64| asks_for(child, d)),
        layout_delay(layout) == layout_delay(child),
        forall|d: u64| asks_for(layout, d) == asks_for(child, d),
    ensures
        is_soonest(layout_delay(layout), |d: u64| asks_for(layout, d)),
{
    let holds = |d: u64| asks_for(layout, d);
    let inner = |d: u64| asks_for(child, d);
    assert forall|e: u64| #[trigger] holds(e) == inner(e) by {}
}

proof fn lemma_joint(
    a: Option<u64>,
    b: Option<u64>,
    left: spec_fn(u64) -> bool,
    right: spec_fn(u64) -> bool,
    both: spec_fn(u64) -> bool,
)
    requires
        is_soonest(a, left),
        is_soonest(b, right),
        forall|e: u64| #[trigger] both(e) == (left(e) || right(e)),
    ensures
        is_soonest(earliest(a, b), both),
{
}

proof fn lemma_stack_delay(items: Seq<LuaLayout>)
    ensures
        is_soonest(
            stack_delay(items),
            |d: u64| exists|i: int| 0 <= i < items.len() && asks_for(#[trigger] items[i], d),
        ),
    decreases items, 0nat,
{
    let both = |d: u64| exists|i: int| 0 <= i < items.len() && asks_for(#[trigger] items[i], d);
    if items.len() > 0 {
        let rest = items.drop_last();
        let last = items.last();
        lemma_stack_delay(rest);
        delay_is_the_soonest_asked_for(last);
        let left = |d: u64| exists|i: int| 0 <= i < rest.len() && asks_for(#[trigger] rest[i], d);
        let right = |d: u64| asks_for(last, d);
        assert forall|e: u64| #[trigger] both(e) == (left(e) || right(e)) by {
            if both(e) {
                let i = choose|i: int| 0 <= i < items.len() && asks_for(#[trigger] items[i], e);
                if i < rest.len() {
                    assert(rest[i] == items[i]);
                }
            }
            if left(e) {
                let i = choose|i: int| 0 <= i < rest.len() && asks_for(#[trigger] rest[i], e);
                assert(items[i] == rest[i]);
            }
            if right(e) {
                assert(asks_for(items[items.len() - 1], e));
            }
        }
        lemma_joint(stack_delay(rest), layout_delay(last), left, right, both);
    }
}

proof fn lemma_columns_delay(items: Seq<HboxItem<LuaLeaf>>)
    ensures
        is_soonest(
            columns_delay(items),
            |d: u64| exists|i: int| 0 <= i < items.len() && asks_for((#[trigger] items[i]).layout, d),
        ),
    decreases items, 0nat,
{
    let both = |d: u64| exists|i: int|
        0 <= i < items.len() && asks_for((#[trigger] items[i]).layout, d);
    if items.len() > 0 {
        let rest = items.drop_last();
        let last = items.last();
        lemma_columns_delay(rest);
        assert(decreases_to!(items => items.last()));
        assert(decreases_to!(items.last() => items.last().layout));
        delay_is_the_soonest_asked_for(items.last().layout);
        let left = |d: u64| exists|i: int|
            0 <= i < rest.len() && asks_for((#[trigger] rest[i]).layout, d);
        let right = |d: u64| asks_for(last.layout, d);
        assert forall|e: u64| #[trigger] both(e) == (left(e) || right(e)) by {
            if both(e) {
                let i = choose|i: int|
                    0 <= i < items.len() && asks_for((#[trigger] items[i]).layout, e);
                if i < rest.len() {
                    assert(rest[i] == items[i]);
                }
            }
            if left(e) {
                let i = choose|i: int|
                    0 <= i < rest.len() && asks_for((#[trigger] rest[i]).layout, e);
                assert(items[i] == rest[i]);
            }
            if right(e) {
                assert(asks_for(items[items.len() - 1].layout, e));
            }
        }
        lemma_joint(columns_delay(rest), layout_delay(last.layout), left, right, both);
    }
}

/// The leaves of a layout in reading order.
pub open spec fn leaves(layout: LuaLayout) -> Seq<LuaLeaf>
    decreases layout, 1nat,
{
    match layout {
        BlockLayout::Empty => Seq::empty(),
        BlockLayout::Leaf(leaf) => seq![leaf],
        BlockLayout::Vbox(items) => stack_leaves(items@),
        BlockLayout::Hbox(items) => column_leaves(items@),
        BlockLayout::Gutter { child, .. } => leaves(*child),
        BlockLayout::RowPrefix { child, .. } => leaves(*child),
        BlockLayout::Panel { child, .. } => leaves(*child),
        BlockLayout::Style { child, .. } => leaves(*child),
        BlockLayout::Cap { child, .. } => leaves(*child),
        BlockLayout::Refresh { child, .. } => leaves(*child),
    }
}

pub open spec fn stack_leaves(items: Seq<LuaLayout>) -> Seq<LuaLeaf>
    decreases items, 0nat,
{
    if items.len() == 0 {
        Seq::empty()
    } else {
        stack_leaves(items.drop_last()) + leaves(items.last())
    }
}

pub open spec fn column_leaves(items: Seq<HboxItem<LuaLeaf>>) -> Seq<LuaLeaf>
    decreases items, 0nat,
{
    if items.len() == 0 {
        Seq::empty()
    } else {
        proof {
            assert(decreases_to!(items => items.last()));
            assert(decreases_to!(items.last() => items.last().layout));
        }
        column_leaves(items.drop_last()) + leaves(items.last().layout)
    }
}

/// `error` is what is wrong with the first of `leaves` that something is wrong with.
pub open spec fn is_first_error(
    env: CompileEnv,
    leaves: Seq<LuaLeaf>,
    error: Option<CompileError>,
) -> bool {
    match error {
        Some(e) => exists|k: int|
            0 <= k < leaves.len() && leaf_error(env, #[trigger] leaves[k]) == Some(e) && forall|
                j: int,
            |
                0 <= j < k ==> leaf_error(env, #[trigger] leaves[j]) is None,
        None => forall|k: int|
            0 <= k < leaves.len() ==> leaf_error(env, #[trigger] leaves[k]) is None,
    }
}

/// A layout compiles if and only if each of its leaves does; where some do not, the first of
/// them in reading order is what is told.
pub proof fn first_wrong_leaf_is_told(env: CompileEnv, layout: LuaLayout)
    ensures
        is_first_error(env, leaves(layout), layout_error(env, layout)),
    decreases layout, 1nat,
{
    match layout {
        BlockLayout::Empty => {},
        BlockLayout::Leaf(leaf) => {
            assert(seq![leaf][0] == leaf);
        },
        BlockLayout::Vbox(items) => {
            lemma_stack_first(env, items@);
        },
        BlockLayout::Hbox(items) => {
            lemma_columns_first(env, items@);
        },
        BlockLayout::Gutter { child, .. } => first_wrong_leaf_is_told(env, *child),
        BlockLayout::RowPrefix { child, .. } => first_wrong_leaf_is_told(env, *child),
        BlockLayout::Panel { child, .. } => first_wrong_leaf_is_told(env, *child),
        BlockLayout::Style { child, .. } => first_wrong_leaf_is_told(env, *child),
        BlockLayout::Cap { child, .. } => first_wrong_leaf_is_told(env, *child),
        BlockLayout::Refresh { child, .. } => first_wrong_leaf_is_told(env, *child),
    }
}

proof fn lemma_first_of_two(
    env: CompileEnv,
    a: Seq<LuaLeaf>,
    b: Seq<LuaLeaf>,
    left: Option<CompileError>,
    right: Option<CompileError>,
)
    requires
        is_first_error(env, a, left),
        is_first_error(env, b, right),
    ensures
        is_first_error(
            env,
            a + b,
            if left is Some {
                left
            } else {
                right
            },
        ),
{
    let all = a + b;
    if let Some(e) = left {
        let k = choose|k: int|
            0 <= k < a.len() && leaf_error(env, #[trigger] a[k]) == Some(e) && forall|j: int|
                0 <= j < k ==> leaf_error(env, #[trigger] a[j]) is None;
        assert(all[k] == a[k]);
        assert forall|j: int| 0 <= j < k implies leaf_error(env, #[trigger] all[j]) is None by {
            assert(all[j] == a[j]);
        }
    } else if let Some(e) = right {
        let k = choose|k: int|
            0 <= k < b.len() && leaf_error(env, #[trigger] b[k]) == Some(e) && forall|j: int|
                0 <= j < k ==> leaf_error(env, #[trigger] b[j]) is None;
        assert(all[a.len() + k] == b[k]);
        assert forall|j: int| 0 <= j < a.len() + k implies leaf_error(
            env,
            #[trigger] all[j],
        ) is None by {
            if j < a.len() {
                assert(all[j] == a[j]);
            } else {
                assert(all[j] == b[j - a.len()]);
            }
        }
    } else {
        assert forall|j: int| 0 <= j < all.len() implies leaf_error(
            env,
            #[trigger] all[j],
        ) is None by {
            if j < a.len() {
                assert(all[j] == a[j]);
            } else {
                assert(all[j] == b[j - a.len()]);
            }
        }
    }
}

proof fn lemma_stack_first(env: CompileEnv, items: Seq<LuaLayout>)
    ensures
        is_first_error(env, stack_leaves(items), stack_error(env, items)),
    decreases items, 0nat,
{
    if items.len() > 0 {
        let rest = items.drop_last();
        lemma_stack_first(env, rest);
        first_wrong_leaf_is_told(env, items.last());
        lemma_first_of_two(
            env,
            stack_leaves(rest),
            leaves(items.last()),
            stack_error(env, rest),
            layout_error(env, items.last()),
        );
    }
}

proof fn lemma_columns_first(env: CompileEnv, items: Seq<HboxItem<LuaLeaf>>)
    ensures
        is_first_error(env, column_leaves(items), columns_error(env, items)),
    decreases items, 0nat,
{
    if items.len() > 0 {
        let rest = items.drop_last();
        lemma_columns_first(env, rest);
        assert(decreases_to!(items => items.last()));
        assert(decreases_to!(items.last() => items.last().layout));
        first_wrong_leaf_is_told(env, items.last().layout);
        lemma_first_of_two(
            env,
            column_leaves(rest),
            leaves(items.last().layout),
            columns_error(env, rest),
            layout_error(env, items.last().layout),
        );
    }
}

/// Where spans of some lines have syntaxes of their own, each of these finds the highlights that
/// were compiled for it.
pub proof fn spans_find_their_highlights(
    env: CompileEnv,
    lines: Seq<Vec<StyledSpan>>,
    syntax: RetainedInlineSyntax,
    i: int,
    j: int,
)
    requires
        syntax_of_lines(env, lines, syntax),
        0 <= i < lines.len(),
        0 <= j < lines[i]@.len(),
        lines[i]@[j].selectable,
        lines[i]@[j].syntax is Some,
    ensures
        retained_spans(syntax, i, j) == Some(
            (env.highlights)(lines[i]@[j].syntax->0@, lines[i]@[j].text@),
        ),
{
    assert(has_syntax(lines[i]@[j]));
    lemma_spans_before(lines, i + 1, lines.len() as int);
    assert(syntax.line_offsets@[i] == spans_before(lines, i));
    assert(syntax.line_offsets@[i + 1] == spans_before(lines, i + 1));
}

proof fn lemma_spans_before(lines: Seq<Vec<StyledSpan>>, m: int, n: int)
    requires
        0 <= m <= n,
    ensures
        0 <= spans_before(lines, m) <= spans_before(lines, n),
    decreases n,
{
    if n > 0 {
        if m < n {
            lemma_spans_before(lines, m, n - 1);
        } else {
            lemma_spans_before(lines, m - 1, n - 1);
        }
    }
}

} // verus!
