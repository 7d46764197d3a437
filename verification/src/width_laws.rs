//! What the width that a layout would take unwrapped is to the widths of its parts.
use vstd::prelude::*;
use crate::ir::{
    BlockLayout, GutterSpec, HboxItem, IrLeaf, LayoutIr, PanelSpec, RowPrefixSpec, StyledSpan,
};
use crate::text::{cell_width, lines_of, widest};
use crate::widths::{
    after_gutter, columns_intrinsic, inside_panel, intrinsic, joined_text, leaf_intrinsic,
    prefix_cells, spans_cells, total_width, widest_child, widest_spans,
};

verus! {

/// A stack is as wide as the widest layout in it: none of them is wider, and one of them is
/// as wide, where there is any.
pub proof fn vbox_is_as_wide_as_its_widest_child(items: Vec<LayoutIr>, total: u16)
    ensures
        forall|i: int|
            0 <= i < items@.len() ==> intrinsic(#[trigger] items@[i], total) <= intrinsic(
                BlockLayout::Vbox(items),
                total,
            ),
        items@.len() > 0 ==> exists|i: int|
            0 <= i < items@.len() && intrinsic(#[trigger] items@[i], total) == intrinsic(
                BlockLayout::Vbox(items),
                total,
            ),
        items@.len() == 0 ==> intrinsic(BlockLayout::Vbox(items), total) == 0,
{
    lemma_widest_child(items@, total);
}

proof fn lemma_widest_child(items: Seq<LayoutIr>, total: u16)
    ensures
        forall|i: int|
            0 <= i < items.len() ==> intrinsic(#[trigger] items[i], total) <= widest_child(
                items,
                total,
            ),
        items.len() > 0 ==> exists|i: int|
            0 <= i < items.len() && intrinsic(#[trigger] items[i], total) == widest_child(
                items,
                total,
            ),
        items.len() == 0 ==> widest_child(items, total) == 0,
    decreases items.len(),
{
    if items.len() > 0 {
        let rest = items.drop_last();
        let last = items.len() - 1;
        lemma_widest_child(rest, total);
        assert forall|i: int| 0 <= i < items.len() implies intrinsic(#[trigger] items[i], total)
            <= widest_child(items, total) by {
            if i < last {
                assert(rest[i] == items[i]);
            }
        }
        if intrinsic(items[last], total) == widest_child(items, total) {
        } else {
            let i = choose|i: int|
                0 <= i < rest.len() && intrinsic(#[trigger] rest[i], total) == widest_child(
                    rest,
                    total,
                );
            assert(items[i] == rest[i]);
        }
    }
}

/// The sum of some numbers.
spec fn sum(numbers: Seq<int>) -> int {
    numbers.fold_left(0, |a: int, b: int| a + b)
}

/// The widths of layouts side by side add up, as far as they can be counted.
pub proof fn hbox_is_as_wide_as_its_columns_together(
    items: Vec<HboxItem<IrLeaf>>,
    total: u16,
)
    ensures
        ({
            let widths = items@.map_values(
                |item: HboxItem<IrLeaf>| intrinsic(item.layout, total) as int,
            );
            let all = widths.fold_left(0, |a: int, b: int| a + b);
            intrinsic(BlockLayout::Hbox(items), total) == if all > u16::MAX {
                u16::MAX as int
            } else {
                all
            }
        }),
{
    lemma_columns(items@, total);
}

proof fn lemma_columns(items: Seq<HboxItem<IrLeaf>>, total: u16)
    ensures
        ({
            let widths = items.map_values(
                |item: HboxItem<IrLeaf>| intrinsic(item.layout, total) as int,
            );
            let all = sum(widths);
            &&& all >= 0
            &&& total_width(columns_intrinsic(items, total)) == if all > u16::MAX {
                u16::MAX as int
            } else {
                all
            }
        }),
    decreases items.len(),
{
    let width = |item: HboxItem<IrLeaf>| intrinsic(item.layout, total) as int;
    let widths = items.map_values(width);
    if items.len() > 0 {
        lemma_columns(items.drop_last(), total);
        assert(widths.drop_last() =~= items.drop_last().map_values(width));
        let now = columns_intrinsic(items, total);
        assert(now.drop_last() =~= columns_intrinsic(items.drop_last(), total));
        assert(now.last() == intrinsic(items.last().layout, total));
    }
}

/// Each column's width is asked for in its place.
pub proof fn columns_have_their_own_widths(items: Seq<HboxItem<IrLeaf>>, total: u16)
    ensures
        columns_intrinsic(items, total).len() == items.len(),
        forall|i: int|
            0 <= i < items.len() ==> columns_intrinsic(items, total)[i] == intrinsic(
                (#[trigger] items[i]).layout,
                total,
            ),
    decreases items.len(),
{
    if items.len() > 0 {
        columns_have_their_own_widths(items.drop_last(), total);
        assert forall|i: int| 0 <= i < items.len() implies columns_intrinsic(items, total)[i]
            == intrinsic((#[trigger] items[i]).layout, total) by {
            if i < items.len() - 1 {
                assert(items.drop_last()[i] == items[i]);
            }
        }
    }
}

/// A gutter, a prefix and the padding of a panel stand beside what they are around: a layout in
/// one of them takes its own cells and theirs, and one that is only styled, capped or drawn
/// again later its own alone.
pub proof fn frames_add_their_cells(
    child: Box<LayoutIr>,
    gutter: GutterSpec,
    prefix: RowPrefixSpec,
    panel: PanelSpec,
    total: u16,
)
    requires
        intrinsic(*child, total) + cell_width(gutter.text@) <= u16::MAX,
        intrinsic(*child, total) + prefix_cells(prefix) <= u16::MAX,
        intrinsic(*child, total) + panel.padding + panel.padding <= u16::MAX,
    ensures
        intrinsic(BlockLayout::Gutter { child, spec: gutter }, total) == intrinsic(*child, total)
            + cell_width(gutter.text@),
        intrinsic(BlockLayout::RowPrefix { child, spec: prefix }, total) == intrinsic(
            *child,
            total,
        ) + prefix_cells(prefix),
        intrinsic(BlockLayout::Panel { child, spec: panel }, total) == intrinsic(*child, total)
            + panel.padding + panel.padding,
{
}

/// A layout that is only styled, capped or drawn again later is as wide as it is.
pub proof fn wrappers_add_no_cells(
    child: Box<LayoutIr>,
    style: crate::ir::StyleSpec,
    cap: crate::ir::CapSpec,
    refresh: crate::ir::RefreshSpec,
    total: u16,
)
    ensures
        intrinsic(BlockLayout::Style { child, spec: style }, total) == intrinsic(*child, total),
        intrinsic(BlockLayout::Cap { child, spec: cap }, total) == intrinsic(*child, total),
        intrinsic(BlockLayout::Refresh { child, spec: refresh }, total) == intrinsic(
            *child,
            total,
        ),
{
}

/// A leaf of lines is as wide as its widest line.
pub proof fn widest_line_is_the_widest(lines: Seq<Seq<char>>)
    requires
        forall|i: int| 0 <= i < lines.len() ==> cell_width(#[trigger] lines[i]) <= u16::MAX,
    ensures
        forall|i: int| 0 <= i < lines.len() ==> cell_width(#[trigger] lines[i]) <= widest(lines),
        lines.len() > 0 ==> exists|i: int|
            0 <= i < lines.len() && cell_width(#[trigger] lines[i]) == widest(lines),
        lines.len() == 0 ==> widest(lines) == 0,
    decreases lines.len(),
{
    if lines.len() > 0 {
        let rest = lines.drop_last();
        let last = lines.len() - 1;
        assert forall|i: int| 0 <= i < rest.len() implies cell_width(#[trigger] rest[i])
            <= u16::MAX by {
            assert(rest[i] == lines[i]);
        }
        widest_line_is_the_widest(rest);
        assert forall|i: int| 0 <= i < lines.len() implies cell_width(#[trigger] lines[i])
            <= widest(lines) by {
            if i < last {
                assert(rest[i] == lines[i]);
            }
        }
        if cell_width(lines[last]) == widest(lines) {
        } else {
            let i = choose|i: int|
                0 <= i < rest.len() && cell_width(#[trigger] rest[i]) == widest(rest);
            assert(lines[i] == rest[i]);
        }
    }
}

/// Runs are as wide as their widest line.
pub proof fn widest_run_line_is_the_widest(lines: Seq<Vec<StyledSpan>>)
    ensures
        forall|i: int|
            0 <= i < lines.len() ==> spans_cells((#[trigger] lines[i])@) <= widest_spans(lines),
        lines.len() > 0 ==> exists|i: int|
            0 <= i < lines.len() && spans_cells((#[trigger] lines[i])@) == widest_spans(lines),
        lines.len() == 0 ==> widest_spans(lines) == 0,
    decreases lines.len(),
{
    if lines.len() > 0 {
        let rest = lines.drop_last();
        let last = lines.len() - 1;
        widest_run_line_is_the_widest(rest);
        assert forall|i: int| 0 <= i < lines.len() implies spans_cells((#[trigger] lines[i])@)
            <= widest_spans(lines) by {
            if i < last {
                assert(rest[i] == lines[i]);
            }
        }
        if spans_cells(lines[last]@) == widest_spans(lines) {
        } else {
            let i = choose|i: int|
                0 <= i < rest.len() && spans_cells((#[trigger] rest[i])@) == widest_spans(rest);
            assert(lines[i] == rest[i]);
        }
    }
}

/// The cells of a row of spans are those of their texts, one behind the other.
pub proof fn spans_are_measured_as_one_text(spans: Seq<StyledSpan>)
    requires
        cell_width(spans.map_values(|span: StyledSpan| span.text@).flatten()) <= u16::MAX,
    ensures
        spans_cells(spans) == cell_width(
            spans.map_values(|span: StyledSpan| span.text@).flatten(),
        ),
{
    lemma_joined_text(spans);
}

proof fn lemma_joined_text(spans: Seq<StyledSpan>)
    ensures
        joined_text(spans) == spans.map_values(|span: StyledSpan| span.text@).flatten(),
    decreases spans.len(),
{
    let text = |span: StyledSpan| span.text@;
    if spans.len() == 0 {
        assert(spans.map_values(text) =~= Seq::<Seq<char>>::empty());
        assert(joined_text(spans) =~= spans.map_values(text).flatten());
    } else {
        lemma_joined_text(spans.drop_last());
        let front = spans.drop_last().map_values(text);
        assert(spans.map_values(text) =~= front.push(spans.last().text@));
        front.lemma_flatten_push(spans.last().text@);
    }
}

/// A leaf takes the cells of its text: of its widest line, of its one line, or of its label.
/// What wraps by the width that it is given takes all there is.
pub proof fn leaves_are_as_wide_as_their_text(leaf: IrLeaf, total: u16)
    requires
        ({
            let fits = |text: Seq<char>|
                forall|i: int|
                    0 <= i < lines_of(text).len() ==> cell_width(#[trigger] lines_of(text)[i])
                        <= u16::MAX;
            match leaf {
                IrLeaf::Text(spec) => fits(spec.content@),
                IrLeaf::Markdown(spec) => fits(spec.content@),
                IrLeaf::Code(spec) => fits(spec.content@),
                _ => true,
            }
        }),
    ensures
        ({
            let reaches = |text: Seq<char>|
                {
                    &&& forall|i: int|
                        0 <= i < lines_of(text).len() ==> cell_width(
                            #[trigger] lines_of(text)[i],
                        ) <= leaf_intrinsic(leaf, total)
                    &&& leaf_intrinsic(leaf, total) == 0 || exists|i: int|
                        0 <= i < lines_of(text).len() && cell_width(#[trigger] lines_of(text)[i])
                            == leaf_intrinsic(leaf, total)
                };
            match leaf {
                IrLeaf::Text(spec) => reaches(spec.content@),
                IrLeaf::Markdown(spec) => reaches(spec.content@),
                IrLeaf::Code(spec) => reaches(spec.content@),
                IrLeaf::Content(_) => leaf_intrinsic(leaf, total) == total,
                IrLeaf::SourceView(_) => leaf_intrinsic(leaf, total) == total,
                IrLeaf::Line(spec) => leaf_intrinsic(leaf, total) == spans_cells(spec.spans@),
                IrLeaf::Separator(spec) => leaf_intrinsic(leaf, total) == spans_cells(
                    spec.label@,
                ),
                IrLeaf::Runs(spec) => forall|i: int|
                    0 <= i < spec.lines@.len() ==> spans_cells((#[trigger] spec.lines@[i])@)
                        <= leaf_intrinsic(leaf, total),
            }
        }),
{
    match leaf {
        IrLeaf::Text(spec) => widest_line_is_the_widest(lines_of(spec.content@)),
        IrLeaf::Markdown(spec) => widest_line_is_the_widest(lines_of(spec.content@)),
        IrLeaf::Code(spec) => widest_line_is_the_widest(lines_of(spec.content@)),
        IrLeaf::Runs(spec) => widest_run_line_is_the_widest(spec.lines@),
        _ => {},
    }
}

/// A row prefix takes the cells of the wider of its two texts, so that neither overlaps what
/// stands behind it.
pub proof fn prefix_is_as_wide_as_the_wider_text(spec: RowPrefixSpec)
    ensures
        spans_cells(spec.first@) <= prefix_cells(spec),
        spans_cells(spec.rest@) <= prefix_cells(spec),
        prefix_cells(spec) == spans_cells(spec.first@) || prefix_cells(spec) == spans_cells(
            spec.rest@,
        ),
{
}

/// What stands behind a gutter has a cell, and with the gutter no more cells than there are, if
/// there is room for both.
pub proof fn gutter_and_child_share_a_width(width: u16, gutter: u16)
    ensures
        after_gutter(width, gutter) >= 1,
        gutter < width ==> after_gutter(width, gutter) + gutter == width,
        gutter >= width ==> after_gutter(width, gutter) == 1,
{
}

/// What stands in a panel has a cell, and with the padding on both sides no more cells than
/// there are, if there is room for all.
pub proof fn panel_and_child_share_a_width(width: u16, padding: u16)
    ensures
        inside_panel(width, padding) >= 1,
        padding + padding < width ==> inside_panel(width, padding) + padding + padding == width,
        padding + padding >= width ==> inside_panel(width, padding) == 1,
{
}

} // verus!
