//! What the size of a layout is to the sizes of its parts, and what is done with large contents.
use vstd::prelude::*;
use crate::budget::{
    columns_size, fits_exact, layout_size, leaf_bytes, leaf_spans, lines_bytes, lines_spans,
    spans_bytes, stack_size, LayoutSize,
};
use crate::cap_rows::CapDirection;
use crate::host::Metrics;
use crate::ir::{BlockLayout, HboxItem, IrLeaf, LayoutIr, StyledSpan};
use crate::leaf_edges::{edge_mode, marker_text, ContentFacts, MAX_BOUNDED_MARKDOWN_PARSE_BYTES};
use crate::numbers::{counted_noun, decimal};
use crate::text::text_bytes;
use crate::view_state::ellipsis;

verus! {

/// A layout that is small enough to be measured exactly has no part that is not.
pub proof fn parts_of_a_small_layout_are_small(
    m: Metrics,
    items: Vec<LayoutIr>,
    columns: Vec<HboxItem<IrLeaf>>,
    i: int,
)
    ensures
        0 <= i < items@.len() && fits_exact(m, BlockLayout::Vbox(items)) ==> fits_exact(
            m,
            items@[i],
        ),
        0 <= i < columns@.len() && fits_exact(m, BlockLayout::Hbox(columns)) ==> fits_exact(
            m,
            columns@[i].layout,
        ),
{
    if 0 <= i < items@.len() {
        lemma_in_stack(m, items@, i);
    }
    if 0 <= i < columns@.len() {
        lemma_in_columns(m, columns@, i);
    }
}

/// One size is no larger than another in anything.
pub open spec fn no_larger(a: LayoutSize, b: LayoutSize) -> bool {
    &&& a.nodes <= b.nodes
    &&& a.bytes <= b.bytes
    &&& a.spans <= b.spans
    &&& a.height <= b.height
    &&& b.countable ==> a.countable
}

proof fn lemma_in_stack(m: Metrics, items: Seq<LayoutIr>, i: int)
    requires
        0 <= i < items.len(),
    ensures
        no_larger(layout_size(m, items[i]), stack_size(m, items)),
    decreases items.len(),
{
    if i < items.len() - 1 {
        assert(items.drop_last()[i] == items[i]);
        lemma_in_stack(m, items.drop_last(), i);
    }
}

proof fn lemma_in_columns(m: Metrics, items: Seq<HboxItem<IrLeaf>>, i: int)
    requires
        0 <= i < items.len(),
    ensures
        no_larger(layout_size(m, items[i].layout), columns_size(m, items)),
    decreases items.len(),
{
    if i < items.len() - 1 {
        assert(items.drop_last()[i] == items[i]);
        lemma_in_columns(m, items.drop_last(), i);
    }
}

/// Numbers added up.
pub open spec fn added_up(n: Seq<nat>) -> nat
    decreases n.len(),
{
    if n.len() == 0 {
        0
    } else {
        added_up(n.drop_last()) + n.last()
    }
}

/// A stack has the bytes, spans and nodes of its parts together and one node more, and is one
/// deeper than the deepest of them.
pub proof fn sizes_of_parts_add_up(m: Metrics, items: Vec<LayoutIr>)
    ensures
        ({
            let size = layout_size(m, BlockLayout::Vbox(items));
            let sizes = items@.map_values(|item: LayoutIr| layout_size(m, item));
            &&& size.bytes == added_up(sizes.map_values(|s: LayoutSize| s.bytes))
            &&& size.spans == added_up(sizes.map_values(|s: LayoutSize| s.spans))
            &&& size.nodes == added_up(sizes.map_values(|s: LayoutSize| s.nodes)) + 1
            &&& forall|i: int| 0 <= i < sizes.len() ==> (#[trigger] sizes[i]).height < size.height
            &&& items@.len() > 0 ==> exists|i: int|
                0 <= i < sizes.len() && (#[trigger] sizes[i]).height + 1 == size.height
        }),
{
    lemma_stack_adds_up(m, items@);
}

proof fn lemma_stack_adds_up(m: Metrics, items: Seq<LayoutIr>)
    ensures
        ({
            let size = stack_size(m, items);
            let sizes = items.map_values(|item: LayoutIr| layout_size(m, item));
            &&& size.bytes == added_up(sizes.map_values(|s: LayoutSize| s.bytes))
            &&& size.spans == added_up(sizes.map_values(|s: LayoutSize| s.spans))
            &&& size.nodes == added_up(sizes.map_values(|s: LayoutSize| s.nodes))
            &&& forall|i: int| 0 <= i < sizes.len() ==> (#[trigger] sizes[i]).height <= size.height
            &&& items.len() > 0 ==> exists|i: int|
                0 <= i < sizes.len() && (#[trigger] sizes[i]).height == size.height
        }),
    decreases items.len(),
{
    let of = |item: LayoutIr| layout_size(m, item);
    let sizes = items.map_values(of);
    if items.len() > 0 {
        let rest = items.drop_last();
        lemma_stack_adds_up(m, rest);
        let before = rest.map_values(of);
        let last = layout_size(m, items.last());
        assert(sizes =~= before.push(last));
        let bytes = |s: LayoutSize| s.bytes;
        let spans = |s: LayoutSize| s.spans;
        let nodes = |s: LayoutSize| s.nodes;
        assert(sizes.map_values(bytes).drop_last() =~= before.map_values(bytes));
        assert(sizes.map_values(spans).drop_last() =~= before.map_values(spans));
        assert(sizes.map_values(nodes).drop_last() =~= before.map_values(nodes));
        let size = stack_size(m, items);
        assert forall|i: int| 0 <= i < sizes.len() implies (#[trigger] sizes[i]).height
            <= size.height by {
            if i < rest.len() {
                assert(before[i] == sizes[i]);
            }
        }
        if last.height == size.height {
            assert(sizes[rest.len() as int].height == size.height);
        } else {
            let i = choose|i: int|
                0 <= i < before.len() && (#[trigger] before[i]).height == stack_size(m, rest).height;
            assert(sizes[i] == before[i]);
        }
    }
}

/// A leaf of runs has the bytes of all its spans, and as many spans as its lines have together.
pub proof fn runs_count_all_their_spans(m: Metrics, leaf: IrLeaf)
    ensures
        leaf matches IrLeaf::Runs(spec) ==> {
            &&& leaf_spans(leaf) == added_up(
                spec.lines@.map_values(|line: Vec<StyledSpan>| line@.len()),
            )
            &&& leaf_bytes(m, leaf) == added_up(
                spec.lines@.map_values(|line: Vec<StyledSpan>| spans_bytes(line@)),
            )
        },
        leaf matches IrLeaf::Line(spec) ==> leaf_bytes(m, leaf) == added_up(
            spec.spans@.map_values(|span: StyledSpan| text_bytes(span.text@)),
        ) && leaf_spans(leaf) == spec.spans@.len(),
{
    if let IrLeaf::Runs(spec) = leaf {
        lemma_lines(spec.lines@);
    }
    if let IrLeaf::Line(spec) = leaf {
        lemma_span_bytes(spec.spans@);
    }
}

proof fn lemma_lines(lines: Seq<Vec<StyledSpan>>)
    ensures
        lines_spans(lines) == added_up(lines.map_values(|line: Vec<StyledSpan>| line@.len())),
        lines_bytes(lines) == added_up(
            lines.map_values(|line: Vec<StyledSpan>| spans_bytes(line@)),
        ),
    decreases lines.len(),
{
    if lines.len() > 0 {
        lemma_lines(lines.drop_last());
        let count = |line: Vec<StyledSpan>| line@.len();
        let bytes = |line: Vec<StyledSpan>| spans_bytes(line@);
        assert(lines.map_values(count).drop_last() =~= lines.drop_last().map_values(count));
        assert(lines.map_values(bytes).drop_last() =~= lines.drop_last().map_values(bytes));
    }
}

proof fn lemma_span_bytes(spans: Seq<StyledSpan>)
    ensures
        spans_bytes(spans) == added_up(
            spans.map_values(|span: StyledSpan| text_bytes(span.text@)),
        ),
    decreases spans.len(),
{
    if spans.len() > 0 {
        lemma_span_bytes(spans.drop_last());
        let bytes = |span: StyledSpan| text_bytes(span.text@);
        assert(spans.map_values(bytes).drop_last() =~= spans.drop_last().map_values(bytes));
    }
}

/// An edge of markdown is left out only where it is large and its rows cannot be counted by its
/// bytes; it is taken as it is only where it is one plain line, or large; and one that is
/// neither is parsed.
pub proof fn only_large_markdown_is_left_out(facts: ContentFacts, inline: bool)
    ensures
        ({
            let mode = edge_mode(facts, inline);
            let plain_line = !inline && facts.logical_lines == 1 && facts.first_line_plain
                && facts.len > 0;
            let large = if inline {
                facts.len > MAX_BOUNDED_MARKDOWN_PARSE_BYTES
            } else if plain_line {
                facts.first_line_len is Some && facts.first_line_len->0
                    > MAX_BOUNDED_MARKDOWN_PARSE_BYTES
            } else {
                facts.large_markdown && facts.len > 0
            };
            let counted = if plain_line {
                facts.first_line_ascii
            } else {
                facts.large_lines_ascii
            };
            &&& mode is Omitted <==> large && !counted
            &&& mode is Parsed <==> !large && !plain_line
            &&& mode is Literal <==> (large && counted) || (!large && plain_line)
        }),
{
}

/// A count is told with the noun for one, or for many: none are many.
pub proof fn counts_are_told_with_their_noun(n: nat, one: Seq<char>, many: Seq<char>)
    ensures
        n == 1 ==> counted_noun(n, one, many) == decimal(1) + seq![' '] + one,
        n != 1 ==> counted_noun(n, one, many) == decimal(n) + seq![' '] + many,
{
    assert(decimal(n).push(' ') =~= decimal(n) + seq![' ']);
}

/// What a marker says: how many rows are missing, and where; or, above the last rows of a known
/// number, how many are there and how many there are in all.
pub proof fn markers_tell_what_is_missing(
    skipped: nat,
    kept: nat,
    total: Option<u64>,
    direction: CapDirection,
    above: bool,
)
    ensures
        ({
            let lines = |n: nat|
                decimal(n) + seq![' '] + if n == 1 {
                    "line"@
                } else {
                    "lines"@
                };
            let text = marker_text(skipped, kept, total, direction);
            &&& direction is Below ==> text == "… "@ + lines(skipped) + " below"@
            &&& direction is Omitted ==> text == "… "@ + lines(skipped) + " omitted …"@
            &&& direction is Above && total is None ==> text == "… "@ + lines(skipped) + " above"@
            &&& direction is Above && total is Some && total->0 <= usize::MAX ==> text
                == "… showing last "@ + decimal(kept) + " of "@ + lines(total->0 as nat)
        }),
        ellipsis(skipped, above) == "… "@ + decimal(skipped) + (if above {
            " more lines above"@
        } else {
            " more lines"@
        }),
{
    counts_are_told_with_their_noun(skipped, "line"@, "lines"@);
    if total is Some {
        counts_are_told_with_their_noun(total->0 as nat, "line"@, "lines"@);
    }
}

} // verus!
