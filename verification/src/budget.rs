//! Whether a layout is small enough to be measured exactly.
use vstd::prelude::*;
use crate::host::{LayoutHost, Metrics};
use crate::ir::{
    BlockLayout, Constraint, ContentRenderSpec, ContentTextWindow, HboxItem, IrLeaf, LayoutIr,
    RetainedContentSpec, RowPrefixSpec, RunsSpec, StyledSpan,
};
use crate::text::{byte_len, text_bytes};

verus! {

pub const MAX_BOUNDED_EDGE_EXACT_BYTES: usize = 64 * 1024;
pub const MAX_BOUNDED_EDGE_EXACT_NODES: usize = 4 * 1024;
pub const MAX_BOUNDED_EDGE_EXACT_SPANS: usize = 4 * 1024;
pub const MAX_BOUNDED_EDGE_DEPTH: usize = 32;

/// What has been counted so far.
#[derive(Clone, Copy, Debug, PartialEq, Eq, Structural)]
pub struct ExactLayoutBudget {
    pub bytes: usize,
    pub nodes: usize,
    pub spans: usize,
}

/// Bytes of the spans' texts.
pub open spec fn spans_bytes(spans: Seq<StyledSpan>) -> nat
    decreases spans.len(),
{
    if spans.len() == 0 {
        0
    } else {
        spans_bytes(spans.drop_last()) + text_bytes(spans.last().text@)
    }
}

pub open spec fn lines_bytes(lines: Seq<Vec<StyledSpan>>) -> nat
    decreases lines.len(),
{
    if lines.len() == 0 {
        0
    } else {
        lines_bytes(lines.drop_last()) + spans_bytes(lines.last()@)
    }
}

pub open spec fn lines_spans(lines: Seq<Vec<StyledSpan>>) -> nat
    decreases lines.len(),
{
    if lines.len() == 0 {
        0
    } else {
        lines_spans(lines.drop_last()) + lines.last()@.len()
    }
}

/// Whether the size of a leaf is known without laying it out.
pub open spec fn leaf_countable(leaf: IrLeaf) -> bool {
    match leaf {
        IrLeaf::Content(spec) => spec.render is Markdown,
        IrLeaf::SourceView(_) => false,
        _ => true,
    }
}

/// Bytes of text in a leaf.
pub open spec fn leaf_bytes(m: Metrics, leaf: IrLeaf) -> nat {
    match leaf {
        IrLeaf::Text(spec) => text_bytes(spec.content@),
        IrLeaf::Runs(spec) => lines_bytes(spec.lines@),
        IrLeaf::Line(spec) => spans_bytes(spec.spans@),
        IrLeaf::Markdown(spec) => text_bytes(spec.content@),
        IrLeaf::Code(spec) => text_bytes(spec.content@),
        IrLeaf::Separator(spec) => spans_bytes(spec.label@),
        IrLeaf::Content(spec) => (m.content_len)(spec.content) as nat,
        IrLeaf::SourceView(_) => 0,
    }
}

/// Styled spans in a leaf.
pub open spec fn leaf_spans(leaf: IrLeaf) -> nat {
    match leaf {
        IrLeaf::Runs(spec) => lines_spans(spec.lines@),
        IrLeaf::Line(spec) => spec.spans@.len(),
        IrLeaf::Separator(spec) => spec.label@.len(),
        _ => 0,
    }
}

/// The size of a layout: its nodes, bytes and spans, how deep it goes, and
/// whether all its leaves can be counted.
pub struct LayoutSize {
    pub nodes: nat,
    pub bytes: nat,
    pub spans: nat,
    pub height: nat,
    pub countable: bool,
}

pub open spec fn no_size() -> LayoutSize {
    LayoutSize { nodes: 0, bytes: 0, spans: 0, height: 0, countable: true }
}

/// Two siblings together.
pub open spec fn beside(a: LayoutSize, b: LayoutSize) -> LayoutSize {
    LayoutSize {
        nodes: a.nodes + b.nodes,
        bytes: a.bytes + b.bytes,
        spans: a.spans + b.spans,
        height: if a.height < b.height {
            b.height
        } else {
            a.height
        },
        countable: a.countable && b.countable,
    }
}

/// A node over its children.
pub open spec fn above(child: LayoutSize) -> LayoutSize {
    LayoutSize { nodes: child.nodes + 1, height: child.height + 1, ..child }
}

pub open spec fn layout_size(m: Metrics, layout: LayoutIr) -> LayoutSize
    decreases layout,
{
    above(
        match layout {
            BlockLayout::Empty => no_size(),
            BlockLayout::Leaf(leaf) => LayoutSize {
                nodes: 0,
                bytes: leaf_bytes(m, leaf),
                spans: leaf_spans(leaf),
                height: 0,
                countable: leaf_countable(leaf),
            },
            BlockLayout::Vbox(items) => stack_size(m, items@),
            BlockLayout::Hbox(items) => columns_size(m, items@),
            BlockLayout::Gutter { child, .. } => layout_size(m, *child),
            BlockLayout::RowPrefix { child, .. } => layout_size(m, *child),
            BlockLayout::Panel { child, .. } => layout_size(m, *child),
            BlockLayout::Style { child, .. } => layout_size(m, *child),
            BlockLayout::Cap { child, .. } => layout_size(m, *child),
            BlockLayout::Refresh { child, .. } => layout_size(m, *child),
        },
    )
}

pub open spec fn stack_size(m: Metrics, items: Seq<LayoutIr>) -> LayoutSize
    decreases items,
{
    if items.len() == 0 {
        no_size()
    } else {
        beside(stack_size(m, items.drop_last()), layout_size(m, items.last()))
    }
}

pub open spec fn columns_size(m: Metrics, items: Seq<HboxItem<IrLeaf>>) -> LayoutSize
    decreases items,
{
    if items.len() == 0 {
        no_size()
    } else {
        beside(columns_size(m, items.drop_last()), layout_size(m, items.last().layout))
    }
}

/// A layout of `size` at `depth` keeps within the limits after `budget`.
pub open spec fn size_fits(size: LayoutSize, budget: ExactLayoutBudget, depth: int) -> bool {
    &&& size.countable
    &&& depth + size.height <= MAX_BOUNDED_EDGE_DEPTH + 1
    &&& budget.nodes + size.nodes <= MAX_BOUNDED_EDGE_EXACT_NODES
    &&& budget.bytes + size.bytes <= MAX_BOUNDED_EDGE_EXACT_BYTES
    &&& budget.spans + size.spans <= MAX_BOUNDED_EDGE_EXACT_SPANS
}

/// The layout can be measured exactly at bounded cost.
pub open spec fn fits_exact(m: Metrics, layout: LayoutIr) -> bool {
    size_fits(
        layout_size(m, layout),
        ExactLayoutBudget { bytes: 0, nodes: 0, spans: 0 },
        0,
    )
}

/// The leaf can be measured exactly at bounded cost.
pub open spec fn leaf_fits_exact(m: Metrics, leaf: IrLeaf) -> bool {
    &&& leaf_countable(leaf)
    &&& leaf_bytes(m, leaf) <= MAX_BOUNDED_EDGE_EXACT_BYTES
    &&& leaf_spans(leaf) <= MAX_BOUNDED_EDGE_EXACT_SPANS
}

/// The count after a layout of `size`.
pub open spec fn spent(budget: ExactLayoutBudget, size: LayoutSize) -> ExactLayoutBudget {
    ExactLayoutBudget {
        bytes: (budget.bytes + size.bytes) as usize,
        nodes: (budget.nodes + size.nodes) as usize,
        spans: (budget.spans + size.spans) as usize,
    }
}

impl ExactLayoutBudget {
    /// Nothing counted so far is over its limit.
    pub open spec fn within(self) -> bool {
        &&& self.bytes <= MAX_BOUNDED_EDGE_EXACT_BYTES
        &&& self.nodes <= MAX_BOUNDED_EDGE_EXACT_NODES
        &&& self.spans <= MAX_BOUNDED_EDGE_EXACT_SPANS
    }

    pub fn new() -> (budget: Self)
        ensures
            budget == (ExactLayoutBudget { bytes: 0, nodes: 0, spans: 0 }),
    {
        ExactLayoutBudget { bytes: 0, nodes: 0, spans: 0 }
    }

    /// Counts a node; `false` once there are too many.
    pub fn add_node(&mut self) -> (ok: bool)
        ensures
            *final(self) == (ExactLayoutBudget {
                nodes: old(self).nodes.saturating_add(1),
                ..*old(self)
            }),
            ok == (old(self).nodes + 1 <= MAX_BOUNDED_EDGE_EXACT_NODES),
    {
        self.nodes = self.nodes.saturating_add(1);
        self.nodes <= MAX_BOUNDED_EDGE_EXACT_NODES
    }

    /// Counts bytes; `false` once there are too many.
    pub fn add_bytes(&mut self, bytes: usize) -> (ok: bool)
        ensures
            *final(self) == (ExactLayoutBudget {
                bytes: old(self).bytes.saturating_add(bytes),
                ..*old(self)
            }),
            ok == (old(self).bytes + bytes <= MAX_BOUNDED_EDGE_EXACT_BYTES),
    {
        self.bytes = self.bytes.saturating_add(bytes);
        self.bytes <= MAX_BOUNDED_EDGE_EXACT_BYTES
    }

    /// Counts spans and their bytes; `false` once there are too many of either.
    pub fn add_spans(&mut self, spans: &Vec<StyledSpan>) -> (ok: bool)
        ensures
            ok == (spans@.len() == 0 || (old(self).spans + spans@.len()
                <= MAX_BOUNDED_EDGE_EXACT_SPANS && old(self).bytes + spans_bytes(spans@)
                <= MAX_BOUNDED_EDGE_EXACT_BYTES)),
            ok ==> *final(self) == (ExactLayoutBudget {
                bytes: (old(self).bytes + spans_bytes(spans@)) as usize,
                nodes: old(self).nodes,
                spans: (old(self).spans + spans@.len()) as usize,
            }),
    {
        let ghost before = *self;
        let mut i: usize = 0;
        while i < spans.len()
            invariant
                i <= spans@.len(),
                before == *old(self),
                self.nodes == before.nodes,
                self.spans == before.spans + i,
                self.bytes == before.bytes + spans_bytes(spans@.take(i as int)),
                i > 0 ==> self.spans <= MAX_BOUNDED_EDGE_EXACT_SPANS && self.bytes
                    <= MAX_BOUNDED_EDGE_EXACT_BYTES,
            decreases spans.len() - i,
        {
            proof {
                assert(spans@.take(i + 1).drop_last() =~= spans@.take(i as int));
                lemma_spans_bytes_monotone(spans@, i + 1);
            }
            self.spans = self.spans.saturating_add(1);
            if self.spans > MAX_BOUNDED_EDGE_EXACT_SPANS || !self.add_bytes(
                byte_len(spans[i].text.as_str()),
            ) {
                return false;
            }
            i += 1;
        }
        proof {
            assert(spans@.take(i as int) =~= spans@);
        }
        true
    }

    /// Counts the spans of several lines.
    pub fn add_lines(&mut self, lines: &Vec<Vec<StyledSpan>>) -> (ok: bool)
        ensures
            ok == (lines_spans(lines@) == 0 || (old(self).spans + lines_spans(lines@)
                <= MAX_BOUNDED_EDGE_EXACT_SPANS && old(self).bytes + lines_bytes(lines@)
                <= MAX_BOUNDED_EDGE_EXACT_BYTES)),
            ok ==> *final(self) == (ExactLayoutBudget {
                bytes: (old(self).bytes + lines_bytes(lines@)) as usize,
                nodes: old(self).nodes,
                spans: (old(self).spans + lines_spans(lines@)) as usize,
            }),
    {
        let ghost before = *self;
        let mut i: usize = 0;
        while i < lines.len()
            invariant
                i <= lines@.len(),
                before == *old(self),
                self.nodes == before.nodes,
                self.spans == before.spans + lines_spans(lines@.take(i as int)),
                self.bytes == before.bytes + lines_bytes(lines@.take(i as int)),
                lines_spans(lines@.take(i as int)) > 0 ==> self.spans
                    <= MAX_BOUNDED_EDGE_EXACT_SPANS && self.bytes <= MAX_BOUNDED_EDGE_EXACT_BYTES,
            decreases lines.len() - i,
        {
            proof {
                assert(lines@.take(i + 1).drop_last() =~= lines@.take(i as int));
                lemma_lines_monotone(lines@, i + 1);
                lemma_no_spans_no_bytes(lines@.take(i as int));
            }
            if !self.add_spans(&lines[i]) {
                return false;
            }
            i += 1;
        }
        proof {
            assert(lines@.take(i as int) =~= lines@);
        }
        true
    }
}

proof fn lemma_spans_bytes_monotone(spans: Seq<StyledSpan>, i: int)
    requires
        0 <= i <= spans.len(),
    ensures
        spans_bytes(spans.take(i)) <= spans_bytes(spans),
    decreases spans.len() - i,
{
    if i == spans.len() {
        assert(spans.take(i) =~= spans);
    } else {
        lemma_spans_bytes_monotone(spans, i + 1);
        assert(spans.take(i + 1).drop_last() =~= spans.take(i));
    }
}

proof fn lemma_lines_monotone(lines: Seq<Vec<StyledSpan>>, i: int)
    requires
        0 <= i <= lines.len(),
    ensures
        lines_bytes(lines.take(i)) <= lines_bytes(lines),
        lines_spans(lines.take(i)) <= lines_spans(lines),
    decreases lines.len() - i,
{
    if i == lines.len() {
        assert(lines.take(i) =~= lines);
    } else {
        lemma_lines_monotone(lines, i + 1);
        assert(lines.take(i + 1).drop_last() =~= lines.take(i));
    }
}

proof fn lemma_no_spans_no_bytes(lines: Seq<Vec<StyledSpan>>)
    ensures
        lines_spans(lines) == 0 ==> lines_bytes(lines) == 0,
    decreases lines.len(),
{
    if lines.len() > 0 {
        lemma_no_spans_no_bytes(lines.drop_last());
    }
}

impl<
    A: Fn(&IrLeaf, u16, u16) -> usize,
    B: Fn(&RunsSpec, &RowPrefixSpec, u16) -> usize,
    C: Fn(&RetainedContentSpec, u16, usize) -> ContentTextWindow,
    D: Fn(u64) -> usize,
    E: Fn(&Vec<Constraint>, &Vec<u16>, u16) -> Vec<u16>,
    F: Fn(&IrLeaf, u16, usize, usize) -> bool,
    G: Fn(&LayoutIr, u16, usize, usize) -> bool,
> LayoutHost<A, B, C, D, E, F, G> {
    /// Counts a leaf; `false` where it cannot be counted or is over the limits.
    pub fn include_leaf_in_exact_measure_budget(
        &self,
        leaf: &IrLeaf,
        budget: &mut ExactLayoutBudget,
    ) -> (ok: bool)
        requires
            self.wf(),
            old(budget).within(),
        ensures
            ok == (leaf_countable(*leaf) && old(budget).bytes + leaf_bytes(self.metrics(), *leaf)
                <= MAX_BOUNDED_EDGE_EXACT_BYTES && old(budget).spans + leaf_spans(*leaf)
                <= MAX_BOUNDED_EDGE_EXACT_SPANS),
            ok ==> final(budget).within() && *final(budget) == (ExactLayoutBudget {
                bytes: (old(budget).bytes + leaf_bytes(self.metrics(), *leaf)) as usize,
                nodes: old(budget).nodes,
                spans: (old(budget).spans + leaf_spans(*leaf)) as usize,
            }),
    {
        match leaf {
            IrLeaf::Text(spec) => budget.add_bytes(byte_len(spec.content.as_str())),
            IrLeaf::Runs(spec) => {
                proof {
                    lemma_no_spans_no_bytes(spec.lines@);
                }
                budget.add_lines(&spec.lines)
            },
            IrLeaf::Line(spec) => budget.add_spans(&spec.spans),
            IrLeaf::Markdown(spec) => budget.add_bytes(byte_len(spec.content.as_str())),
            IrLeaf::Code(spec) => budget.add_bytes(byte_len(spec.content.as_str())),
            IrLeaf::Separator(spec) => budget.add_spans(&spec.label),
            IrLeaf::Content(spec) => match &spec.render {
                ContentRenderSpec::Markdown { .. } => budget.add_bytes(
                    self.ask_content_len(spec.content),
                ),
                _ => false,
            },
            IrLeaf::SourceView(_) => false,
        }
    }

    /// Whether the layout can be measured exactly, counting from an empty budget.
    pub fn layout_fits_exact_measure_budget(&self, layout: &LayoutIr) -> (ok: bool)
        requires
            self.wf(),
        ensures
            ok == fits_exact(self.metrics(), *layout),
    {
        let mut budget = ExactLayoutBudget::new();
        self.layout_fits_exact_measure_budget_inner(layout, &mut budget, 0)
    }

    /// Whether a layout at `depth` keeps within the limits after what is counted.
    pub fn layout_fits_exact_measure_budget_inner(
        &self,
        layout: &LayoutIr,
        budget: &mut ExactLayoutBudget,
        depth: usize,
    ) -> (ok: bool)
        requires
            self.wf(),
            old(budget).within(),
        ensures
            ok == size_fits(layout_size(self.metrics(), *layout), *old(budget), depth as int),
            ok ==> final(budget).within() && *final(budget) == spent(
                *old(budget),
                layout_size(self.metrics(), *layout),
            ),
        decreases layout,
    {
        let ghost m = self.metrics();
        let ghost before = *budget;
        if depth > MAX_BOUNDED_EDGE_DEPTH || !budget.add_node() {
            return false;
        }
        match layout {
            BlockLayout::Empty => true,
            BlockLayout::Leaf(leaf) => self.include_leaf_in_exact_measure_budget(leaf, budget),
            BlockLayout::Vbox(items) => {
                let mut i: usize = 0;
                while i < items.len()
                    invariant
                        self.wf(),
                        m == self.metrics(),
                        before == *old(budget),
                        depth <= MAX_BOUNDED_EDGE_DEPTH,
                        layout == BlockLayout::Vbox(*items),
                        decreases_to!(layout => items@),
                        i <= items@.len(),
                        size_fits(above(stack_size(m, items@.take(i as int))), before, depth as int),
                        budget.within(),
                        *budget == spent(before, above(stack_size(m, items@.take(i as int)))),
                    decreases items.len() - i,
                {
                    proof {
                        assert(items@.take(i + 1).drop_last() =~= items@.take(i as int));
                        lemma_stack_size_monotone(m, items@, i + 1);
                    }
                    if !self.layout_fits_exact_measure_budget_inner(&items[i], budget, depth + 1) {
                        return false;
                    }
                    i += 1;
                }
                proof {
                    assert(items@.take(i as int) =~= items@);
                }
                true
            },
            BlockLayout::Hbox(items) => {
                let mut i: usize = 0;
                while i < items.len()
                    invariant
                        self.wf(),
                        m == self.metrics(),
                        before == *old(budget),
                        depth <= MAX_BOUNDED_EDGE_DEPTH,
                        layout == BlockLayout::Hbox(*items),
                        decreases_to!(layout => items@),
                        i <= items@.len(),
                        size_fits(above(columns_size(m, items@.take(i as int))), before, depth as int),
                        budget.within(),
                        *budget == spent(before, above(columns_size(m, items@.take(i as int)))),
                    decreases items.len() - i,
                {
                    proof {
                        assert(items@.take(i + 1).drop_last() =~= items@.take(i as int));
                        lemma_columns_size_monotone(m, items@, i + 1);
                        assert(decreases_to!(items@ => items@[i as int]));
                        assert(decreases_to!(items@[i as int] => items@[i as int].layout));
                    }
                    if !self.layout_fits_exact_measure_budget_inner(
                        &items[i].layout,
                        budget,
                        depth + 1,
                    ) {
                        return false;
                    }
                    i += 1;
                }
                proof {
                    assert(items@.take(i as int) =~= items@);
                }
                true
            },
            BlockLayout::Gutter { child, .. } | BlockLayout::RowPrefix { child, .. }
            | BlockLayout::Panel { child, .. } | BlockLayout::Style { child, .. }
            | BlockLayout::Cap { child, .. } | BlockLayout::Refresh { child, .. } => {
                self.layout_fits_exact_measure_budget_inner(child, budget, depth + 1)
            },
        }
    }

    /// Whether the leaf can be measured exactly.
    pub fn leaf_fits_exact_measure_budget(&self, leaf: &IrLeaf) -> (ok: bool)
        requires
            self.wf(),
        ensures
            ok == leaf_fits_exact(self.metrics(), *leaf),
    {
        let mut budget = ExactLayoutBudget::new();
        self.include_leaf_in_exact_measure_budget(leaf, &mut budget)
    }
}

/// `a` is in no way larger than `b`.
pub open spec fn no_larger(a: LayoutSize, b: LayoutSize) -> bool {
    &&& a.nodes <= b.nodes
    &&& a.bytes <= b.bytes
    &&& a.spans <= b.spans
    &&& a.height <= b.height
    &&& b.countable ==> a.countable
}

pub(crate) proof fn lemma_stack_size_monotone(m: Metrics, items: Seq<LayoutIr>, i: int)
    requires
        0 <= i <= items.len(),
    ensures
        no_larger(stack_size(m, items.take(i)), stack_size(m, items)),
    decreases items.len() - i,
{
    if i == items.len() {
        assert(items.take(i) =~= items);
    } else {
        lemma_stack_size_monotone(m, items, i + 1);
        assert(items.take(i + 1).drop_last() =~= items.take(i));
    }
}

pub(crate) proof fn lemma_columns_size_monotone(m: Metrics, items: Seq<HboxItem<IrLeaf>>, i: int)
    requires
        0 <= i <= items.len(),
    ensures
        no_larger(columns_size(m, items.take(i)), columns_size(m, items)),
    decreases items.len() - i,
{
    if i == items.len() {
        assert(items.take(i) =~= items);
    } else {
        lemma_columns_size_monotone(m, items, i + 1);
        assert(items.take(i + 1).drop_last() =~= items.take(i));
    }
}

} // verus!
