//! Cell widths of layout nodes: gutters, prefixes, panels and hbox columns.
use vstd::prelude::*;
use crate::host::{LayoutHost, Metrics};
use crate::ir::{
    BlockLayout, Constraint, ContentTextWindow, GutterSpec, HboxItem, IrLeaf, LayoutIr,
    RetainedContentSpec, RowPrefixSpec, RunsSpec, StyledSpan,
};
use crate::text::{
    cell_width, clamp_u16, display_width, display_width_u16, lines_of, to_u16, widest, widest_line,
};

verus! {

/// The texts of the spans, joined.
pub open spec fn joined_text(spans: Seq<StyledSpan>) -> Seq<char>
    decreases spans.len(),
{
    if spans.len() == 0 {
        Seq::empty()
    } else {
        joined_text(spans.drop_last()) + spans.last().text@
    }
}

/// Cells of a row of spans.
pub fn styled_spans_width(spans: &Vec<StyledSpan>) -> (cells: usize)
    ensures
        cells == cell_width(joined_text(spans@)),
{
    let mut text = String::new();
    let mut i: usize = 0;
    while i < spans.len()
        invariant
            i <= spans@.len(),
            text@ == joined_text(spans@.take(i as int)),
        decreases spans.len() - i,
    {
        proof {
            assert(spans@.take(i + 1).drop_last() =~= spans@.take(i as int));
        }
        text.append(spans[i].text.as_str());
        i += 1;
    }
    proof {
        assert(spans@.take(i as int) =~= spans@);
    }
    display_width(text.as_str())
}

pub open spec fn spans_cells(spans: Seq<StyledSpan>) -> u16 {
    clamp_u16(cell_width(joined_text(spans)) as int)
}

/// Cells of the wider of the two prefixes.
pub open spec fn prefix_cells(spec: RowPrefixSpec) -> u16 {
    if spans_cells(spec.first@) > spans_cells(spec.rest@) {
        spans_cells(spec.first@)
    } else {
        spans_cells(spec.rest@)
    }
}

pub fn row_prefix_width(spec: &RowPrefixSpec) -> (cells: u16)
    ensures
        cells == prefix_cells(*spec),
{
    let first = styled_spans_width(&spec.first);
    let rest = styled_spans_width(&spec.rest);
    to_u16(
        if first > rest {
            first
        } else {
            rest
        },
    )
}

pub open spec fn gutter_cells(spec: GutterSpec) -> u16 {
    clamp_u16(cell_width(spec.text@) as int)
}

pub open spec fn some_gutter_cells(gutter: Option<&GutterSpec>) -> u16 {
    match gutter {
        Some(gutter) => gutter_cells(*gutter),
        None => 0,
    }
}

/// Cells of a gutter, none where there is none.
pub fn gutter_width(gutter: Option<&GutterSpec>) -> (cells: u16)
    ensures
        cells == some_gutter_cells(gutter),
{
    match gutter {
        Some(gutter) => display_width_u16(gutter.text.as_str()),
        None => 0,
    }
}

/// What a gutter leaves of a width, never less than one cell.
pub open spec fn after_gutter(width: u16, gutter: u16) -> u16 {
    if width > gutter + 1 {
        (width - gutter) as u16
    } else {
        1
    }
}

pub fn child_width_after_gutter(width: u16, gutter_width: u16) -> (child: u16)
    ensures
        child == after_gutter(width, gutter_width),
{
    let child = width.saturating_sub(gutter_width);
    if child > 1 {
        child
    } else {
        1
    }
}

/// Rows, or columns, of padding on both sides of a panel's child.
pub open spec fn both_paddings(padding: u16) -> u16 {
    padding.saturating_add(padding)
}

pub open spec fn inside_panel(width: u16, padding: u16) -> u16 {
    after_gutter(width, both_paddings(padding))
}

pub fn panel_child_width(width: u16, padding: u16) -> (child: u16)
    ensures
        child == inside_panel(width, padding),
{
    child_width_after_gutter(width, padding.saturating_add(padding))
}

/// Child widths behind the first and behind the other prefixes.
pub fn row_prefix_child_widths(spec: &RowPrefixSpec, width: u16) -> (widths: (u16, u16))
    ensures
        widths.0 == after_gutter(width, spans_cells(spec.first@)),
        widths.1 == after_gutter(width, spans_cells(spec.rest@)),
{
    let first = to_u16(styled_spans_width(&spec.first));
    let rest = to_u16(styled_spans_width(&spec.rest));
    (child_width_after_gutter(width, first), child_width_after_gutter(width, rest))
}

/// Cells of the widest of the lines.
pub open spec fn widest_spans(lines: Seq<Vec<StyledSpan>>) -> u16
    decreases lines.len(),
{
    if lines.len() == 0 {
        0
    } else {
        let rest = widest_spans(lines.drop_last());
        let last = spans_cells(lines.last()@);
        if last > rest {
            last
        } else {
            rest
        }
    }
}

/// The width that a leaf would take unwrapped; leaves without one take all there is.
pub open spec fn leaf_intrinsic(leaf: IrLeaf, total: u16) -> u16 {
    match leaf {
        IrLeaf::Content(_) => total,
        IrLeaf::Text(spec) => widest(lines_of(spec.content@)),
        IrLeaf::Runs(spec) => widest_spans(spec.lines@),
        IrLeaf::Line(spec) => spans_cells(spec.spans@),
        IrLeaf::Markdown(spec) => widest(lines_of(spec.content@)),
        IrLeaf::Code(spec) => widest(lines_of(spec.content@)),
        IrLeaf::Separator(spec) => spans_cells(spec.label@),
        IrLeaf::SourceView(_) => total,
    }
}

/// The width that a layout would take unwrapped.
pub open spec fn intrinsic(layout: LayoutIr, total: u16) -> u16
    decreases layout,
{
    match layout {
        BlockLayout::Empty => 0,
        BlockLayout::Leaf(leaf) => leaf_intrinsic(leaf, total),
        BlockLayout::Vbox(items) => widest_child(items@, total),
        BlockLayout::Hbox(items) => total_width(columns_intrinsic(items@, total)),
        BlockLayout::Gutter { child, spec } => gutter_cells(spec).saturating_add(
            intrinsic(*child, total),
        ),
        BlockLayout::RowPrefix { child, spec } => prefix_cells(spec).saturating_add(
            intrinsic(*child, total),
        ),
        BlockLayout::Panel { child, spec } => intrinsic(*child, total).saturating_add(
            both_paddings(spec.padding),
        ),
        BlockLayout::Style { child, .. } => intrinsic(*child, total),
        BlockLayout::Cap { child, .. } => intrinsic(*child, total),
        BlockLayout::Refresh { child, .. } => intrinsic(*child, total),
    }
}

pub open spec fn widest_child(items: Seq<LayoutIr>, total: u16) -> u16
    decreases items,
{
    if items.len() == 0 {
        0
    } else {
        let rest = widest_child(items.drop_last(), total);
        let last = intrinsic(items.last(), total);
        if last > rest {
            last
        } else {
            rest
        }
    }
}

pub open spec fn columns_intrinsic(items: Seq<HboxItem<IrLeaf>>, total: u16) -> Seq<u16>
    decreases items,
{
    if items.len() == 0 {
        Seq::empty()
    } else {
        columns_intrinsic(items.drop_last(), total).push(intrinsic(items.last().layout, total))
    }
}

pub open spec fn total_width(widths: Seq<u16>) -> u16
    decreases widths.len(),
{
    if widths.len() == 0 {
        0
    } else {
        total_width(widths.drop_last()).saturating_add(widths.last())
    }
}

pub open spec fn constraints_of(items: Seq<HboxItem<IrLeaf>>) -> Seq<Constraint> {
    items.map_values(|item: HboxItem<IrLeaf>| item.constraint)
}

/// The widths of an hbox's columns at a total width.
pub open spec fn hbox_widths(m: Metrics, items: Seq<HboxItem<IrLeaf>>, total: u16) -> Seq<u16> {
    (m.widths)(constraints_of(items), columns_intrinsic(items, total), total)
}

pub fn widest_spans_line(lines: &Vec<Vec<StyledSpan>>) -> (cells: u16)
    ensures
        cells == widest_spans(lines@),
{
    let mut cells: u16 = 0;
    let mut i: usize = 0;
    while i < lines.len()
        invariant
            i <= lines@.len(),
            cells == widest_spans(lines@.take(i as int)),
        decreases lines.len() - i,
    {
        proof {
            assert(lines@.take(i + 1).drop_last() =~= lines@.take(i as int));
        }
        let width = to_u16(styled_spans_width(&lines[i]));
        if width > cells {
            cells = width;
        }
        i += 1;
    }
    proof {
        assert(lines@.take(i as int) =~= lines@);
    }
    cells
}

pub fn intrinsic_leaf_width(leaf: &IrLeaf, total_width: u16) -> (cells: u16)
    ensures
        cells == leaf_intrinsic(*leaf, total_width),
{
    match leaf {
        IrLeaf::Content(_) => total_width,
        IrLeaf::Text(spec) => widest_line(spec.content.as_str()),
        IrLeaf::Runs(spec) => widest_spans_line(&spec.lines),
        IrLeaf::Line(spec) => to_u16(styled_spans_width(&spec.spans)),
        IrLeaf::Markdown(spec) => widest_line(spec.content.as_str()),
        IrLeaf::Code(spec) => widest_line(spec.content.as_str()),
        IrLeaf::Separator(spec) => to_u16(styled_spans_width(&spec.label)),
        IrLeaf::SourceView(_) => total_width,
    }
}

/// The width that `layout` would take unwrapped, where `total_width` is all there is.
pub fn intrinsic_layout_width(layout: &LayoutIr, total_width: u16) -> (cells: u16)
    ensures
        cells == intrinsic(*layout, total_width),
    decreases layout,
{
    match layout {
        BlockLayout::Empty => 0,
        BlockLayout::Leaf(leaf) => intrinsic_leaf_width(leaf, total_width),
        BlockLayout::Vbox(items) => {
            let mut cells: u16 = 0;
            let mut i: usize = 0;
            while i < items.len()
                invariant
                    i <= items@.len(),
                    decreases_to!(layout => items@),
                    cells == widest_child(items@.take(i as int), total_width),
                decreases items.len() - i,
            {
                proof {
                    assert(items@.take(i + 1).drop_last() =~= items@.take(i as int));
                }
                let width = intrinsic_layout_width(&items[i], total_width);
                if width > cells {
                    cells = width;
                }
                i += 1;
            }
            proof {
                assert(items@.take(i as int) =~= items@);
            }
            cells
        },
        BlockLayout::Hbox(items) => {
            let mut cells: u16 = 0;
            let mut i: usize = 0;
            proof {
                assert(items@.take(0) =~= Seq::<HboxItem<IrLeaf>>::empty());
            }
            while i < items.len()
                invariant
                    i <= items@.len(),
                    decreases_to!(layout => items@),
                    cells == self::total_width(
                        columns_intrinsic(items@.take(i as int), total_width),
                    ),
                decreases items.len() - i,
            {
                proof {
                    assert(items@.take(i + 1).drop_last() =~= items@.take(i as int));
                    let sofar = columns_intrinsic(items@.take(i as int), total_width);
                    let next = columns_intrinsic(items@.take(i + 1), total_width);
                    assert(next.drop_last() =~= sofar);
                    assert(decreases_to!(items@ => items@[i as int]));
                    assert(decreases_to!(items@[i as int] => items@[i as int].layout));
                }
                cells = cells.saturating_add(intrinsic_layout_width(&items[i].layout, total_width));
                i += 1;
            }
            proof {
                assert(items@.take(i as int) =~= items@);
            }
            cells
        },
        BlockLayout::Gutter { child, spec } => display_width_u16(spec.text.as_str()).saturating_add(
            intrinsic_layout_width(child, total_width),
        ),
        BlockLayout::RowPrefix { child, spec } => row_prefix_width(spec).saturating_add(
            intrinsic_layout_width(child, total_width),
        ),
        BlockLayout::Panel { child, spec } => intrinsic_layout_width(
            child,
            total_width,
        ).saturating_add(spec.padding.saturating_add(spec.padding)),
        BlockLayout::Style { child, .. } | BlockLayout::Cap { child, .. }
        | BlockLayout::Refresh { child, .. } => intrinsic_layout_width(child, total_width),
    }
}

impl<
    A: Fn(&IrLeaf, u16, u16) -> usize,
    B: Fn(&RunsSpec, &RowPrefixSpec, u16) -> usize,
    C: Fn(&RetainedContentSpec, u16, usize) -> ContentTextWindow,
    D: Fn(u64) -> usize,
    E: Fn(&Vec<Constraint>, &Vec<u16>, u16) -> Vec<u16>,
    F: Fn(&IrLeaf, u16, usize, usize) -> bool,
    G: Fn(&LayoutIr, u16, usize, usize) -> bool,
> LayoutHost<A, B, C, D, E, F, G> {
    /// The widths of the columns `items` at a total width.
    pub fn solve_ir_hbox_widths(&self, items: &Vec<HboxItem<IrLeaf>>, total_width: u16) -> (widths:
        Vec<u16>)
        requires
            self.wf(),
        ensures
            widths@ == hbox_widths(self.metrics(), items@, total_width),
            widths@.len() == items@.len(),
    {
        let mut constraints: Vec<Constraint> = Vec::new();
        let mut fits: Vec<u16> = Vec::new();
        let mut i: usize = 0;
        while i < items.len()
            invariant
                i <= items@.len(),
                constraints@ == constraints_of(items@.take(i as int)),
                fits@ == columns_intrinsic(items@.take(i as int), total_width),
            decreases items.len() - i,
        {
            proof {
                assert(items@.take(i + 1).drop_last() =~= items@.take(i as int));
                assert(constraints_of(items@.take(i + 1)) =~= constraints_of(
                    items@.take(i as int),
                ).push(items@[i as int].constraint));
            }
            constraints.push(items[i].constraint);
            fits.push(intrinsic_layout_width(&items[i].layout, total_width));
            i += 1;
        }
        proof {
            assert(items@.take(i as int) =~= items@);
        }
        self.ask_widths(&constraints, &fits, total_width)
    }
}

} // verus!
