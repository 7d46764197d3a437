//! Copies of layouts and their parts.
use vstd::prelude::*;
use crate::ir::{
    BlockLayout, CodeSpec, ContentRenderSpec, GutterSpec, HboxItem, InlineSyntaxSpan, IrLeaf,
    LayoutIr, LineSpec, MarkdownSpec, PanelSpec, RetainedContentSpec, RetainedInlineSyntax,
    RowPrefixSpec, RunsSpec, SeparatorSpec, StyleSpec, StyledSpan, TextSpec,
};

verus! {

/// `a` and `b` hold the same highlights.
pub open spec fn same_syntax(a: RetainedInlineSyntax, b: RetainedInlineSyntax) -> bool {
    &&& a.line_offsets@ == b.line_offsets@
    &&& a.source_spans@.len() == b.source_spans@.len()
    &&& forall|i: int|
        0 <= i < a.source_spans@.len() ==> (#[trigger] a.source_spans@[i])@
            == b.source_spans@[i]@
}

/// `a` and `b` hold the same spans, line by line.
pub open spec fn same_lines(a: Seq<Vec<StyledSpan>>, b: Seq<Vec<StyledSpan>>) -> bool {
    &&& a.len() == b.len()
    &&& forall|i: int| 0 <= i < a.len() ==> (#[trigger] a[i])@ == b[i]@
}

/// `a` and `b` are equal, their vectors taken by what they hold.
pub open spec fn same_leaf(a: IrLeaf, b: IrLeaf) -> bool {
    match (a, b) {
        (IrLeaf::Runs(x), IrLeaf::Runs(y)) => {
            &&& same_lines(x.lines@, y.lines@)
            &&& x.hl_group == y.hl_group
            &&& x.continuation_indent == y.continuation_indent
            &&& same_syntax(x.syntax_highlights, y.syntax_highlights)
        },
        (IrLeaf::Line(x), IrLeaf::Line(y)) => {
            &&& x.spans@ == y.spans@
            &&& x.hl_group == y.hl_group
            &&& same_syntax(x.syntax_highlights, y.syntax_highlights)
        },
        (IrLeaf::Separator(x), IrLeaf::Separator(y)) => {
            &&& x.label@ == y.label@
            &&& x.dim == y.dim
            &&& x.selectable == y.selectable
        },
        (IrLeaf::Runs(_), _) | (IrLeaf::Line(_), _) | (IrLeaf::Separator(_), _) => false,
        _ => a == b,
    }
}

/// `a` and `b` are equal, their vectors taken by what they hold.
pub open spec fn same_layout(a: LayoutIr, b: LayoutIr) -> bool
    decreases a,
{
    match (a, b) {
        (BlockLayout::Empty, BlockLayout::Empty) => true,
        (BlockLayout::Leaf(x), BlockLayout::Leaf(y)) => same_leaf(x, y),
        (BlockLayout::Vbox(x), BlockLayout::Vbox(y)) => {
            &&& x@.len() == y@.len()
            &&& forall|i: int| 0 <= i < x@.len() ==> same_layout(#[trigger] x@[i], y@[i])
        },
        (BlockLayout::Hbox(x), BlockLayout::Hbox(y)) => {
            &&& x@.len() == y@.len()
            &&& forall|i: int|
                0 <= i < x@.len() ==> {
                    &&& same_layout((#[trigger] x@[i]).layout, y@[i].layout)
                    &&& x@[i].constraint == y@[i].constraint
                    &&& x@[i].copy_owner == y@[i].copy_owner
                }
        },
        (
            BlockLayout::Gutter { child: x, spec: p },
            BlockLayout::Gutter { child: y, spec: q },
        ) => same_layout(*x, *y) && p == q,
        (
            BlockLayout::RowPrefix { child: x, spec: p },
            BlockLayout::RowPrefix { child: y, spec: q },
        ) => same_layout(*x, *y) && p.first@ == q.first@ && p.rest@ == q.rest@,
        (
            BlockLayout::Panel { child: x, spec: p },
            BlockLayout::Panel { child: y, spec: q },
        ) => same_layout(*x, *y) && p == q,
        (
            BlockLayout::Style { child: x, spec: p },
            BlockLayout::Style { child: y, spec: q },
        ) => same_layout(*x, *y) && p == q,
        (BlockLayout::Cap { child: x, spec: p }, BlockLayout::Cap { child: y, spec: q }) => {
            same_layout(*x, *y) && p == q
        },
        (
            BlockLayout::Refresh { child: x, spec: p },
            BlockLayout::Refresh { child: y, spec: q },
        ) => same_layout(*x, *y) && p == q,
        _ => false,
    }
}

pub fn copy_name(name: &Option<String>) -> (r: Option<String>)
    ensures
        r == *name,
{
    match name {
        Some(name) => Some(name.clone()),
        None => None,
    }
}

pub fn copy_span(span: &StyledSpan) -> (r: StyledSpan)
    ensures
        r == *span,
{
    StyledSpan {
        text: span.text.clone(),
        hl: copy_name(&span.hl),
        fg: copy_name(&span.fg),
        bg: copy_name(&span.bg),
        dim: span.dim,
        bold: span.bold,
        italic: span.italic,
        syntax: copy_name(&span.syntax),
        selectable: span.selectable,
    }
}

pub fn copy_spans(spans: &Vec<StyledSpan>) -> (r: Vec<StyledSpan>)
    ensures
        r@ == spans@,
{
    let mut r: Vec<StyledSpan> = Vec::new();
    let mut i: usize = 0;
    while i < spans.len()
        invariant
            i <= spans@.len(),
            r@ == spans@.take(i as int),
        decreases spans@.len() - i,
    {
        r.push(copy_span(&spans[i]));
        i += 1;
        proof {
            assert(r@ =~= spans@.take(i as int));
        }
    }
    proof {
        assert(spans@.take(i as int) =~= spans@);
    }
    r
}

pub fn copy_lines(lines: &Vec<Vec<StyledSpan>>) -> (r: Vec<Vec<StyledSpan>>)
    ensures
        same_lines(r@, lines@),
{
    let mut r: Vec<Vec<StyledSpan>> = Vec::new();
    let mut i: usize = 0;
    while i < lines.len()
        invariant
            i <= lines@.len(),
            r@.len() == i,
            forall|j: int| 0 <= j < i ==> (#[trigger] r@[j])@ == lines@[j]@,
        decreases lines@.len() - i,
    {
        r.push(copy_spans(&lines[i]));
        i += 1;
    }
    r
}

pub fn copy_highlights(spans: &Vec<InlineSyntaxSpan>) -> (r: Vec<InlineSyntaxSpan>)
    ensures
        r@ == spans@,
{
    let mut r: Vec<InlineSyntaxSpan> = Vec::new();
    let mut i: usize = 0;
    while i < spans.len()
        invariant
            i <= spans@.len(),
            r@ == spans@.take(i as int),
        decreases spans@.len() - i,
    {
        r.push(spans[i]);
        i += 1;
        proof {
            assert(r@ =~= spans@.take(i as int));
        }
    }
    proof {
        assert(spans@.take(i as int) =~= spans@);
    }
    r
}

pub fn copy_syntax(syntax: &RetainedInlineSyntax) -> (r: RetainedInlineSyntax)
    ensures
        same_syntax(r, *syntax),
{
    let mut source_spans: Vec<Vec<InlineSyntaxSpan>> = Vec::new();
    let mut i: usize = 0;
    while i < syntax.source_spans.len()
        invariant
            i <= syntax.source_spans@.len(),
            source_spans@.len() == i,
            forall|j: int|
                0 <= j < i ==> (#[trigger] source_spans@[j])@ == syntax.source_spans@[j]@,
        decreases syntax.source_spans@.len() - i,
    {
        source_spans.push(copy_highlights(&syntax.source_spans[i]));
        i += 1;
    }
    let mut line_offsets: Vec<usize> = Vec::new();
    let mut i: usize = 0;
    while i < syntax.line_offsets.len()
        invariant
            i <= syntax.line_offsets@.len(),
            line_offsets@ == syntax.line_offsets@.take(i as int),
        decreases syntax.line_offsets@.len() - i,
    {
        line_offsets.push(syntax.line_offsets[i]);
        i += 1;
        proof {
            assert(line_offsets@ =~= syntax.line_offsets@.take(i as int));
        }
    }
    proof {
        assert(syntax.line_offsets@.take(i as int) =~= syntax.line_offsets@);
    }
    RetainedInlineSyntax { source_spans, line_offsets }
}

pub fn copy_text(spec: &TextSpec) -> (r: TextSpec)
    ensures
        r == *spec,
{
    TextSpec { content: spec.content.clone(), hl_group: copy_name(&spec.hl_group), ansi: spec.ansi }
}

pub fn copy_render(spec: &ContentRenderSpec) -> (r: ContentRenderSpec)
    ensures
        r == *spec,
{
    match spec {
        ContentRenderSpec::Text { hl_group, ansi } => ContentRenderSpec::Text {
            hl_group: copy_name(hl_group),
            ansi: *ansi,
        },
        ContentRenderSpec::Markdown { dim, italic, inline } => ContentRenderSpec::Markdown {
            dim: *dim,
            italic: *italic,
            inline: *inline,
        },
        ContentRenderSpec::Code { lang } => ContentRenderSpec::Code { lang: lang.clone() },
        ContentRenderSpec::File { path, lang } => ContentRenderSpec::File {
            path: path.clone(),
            lang: copy_name(lang),
        },
    }
}

pub fn copy_markdown(spec: &MarkdownSpec) -> (r: MarkdownSpec)
    ensures
        r == *spec,
{
    MarkdownSpec {
        content: spec.content.clone(),
        dim: spec.dim,
        italic: spec.italic,
        inline: spec.inline,
    }
}

pub fn copy_code(spec: &CodeSpec) -> (r: CodeSpec)
    ensures
        r == *spec,
{
    CodeSpec { content: spec.content.clone(), lang: spec.lang.clone() }
}

pub fn copy_separator(spec: &SeparatorSpec) -> (r: SeparatorSpec)
    ensures
        r.label@ == spec.label@,
        r.dim == spec.dim,
        r.selectable == spec.selectable,
{
    SeparatorSpec { label: copy_spans(&spec.label), dim: spec.dim, selectable: spec.selectable }
}

pub fn copy_gutter(spec: &GutterSpec) -> (r: GutterSpec)
    ensures
        r == *spec,
{
    GutterSpec { text: spec.text.clone(), styled: spec.styled }
}

pub fn copy_row_prefix(spec: &RowPrefixSpec) -> (r: RowPrefixSpec)
    ensures
        r.first@ == spec.first@,
        r.rest@ == spec.rest@,
{
    RowPrefixSpec { first: copy_spans(&spec.first), rest: copy_spans(&spec.rest) }
}

pub fn copy_panel(spec: &PanelSpec) -> (r: PanelSpec)
    ensures
        r == *spec,
{
    PanelSpec { hl_group: spec.hl_group.clone(), padding: spec.padding }
}

pub fn copy_style(spec: &StyleSpec) -> (r: StyleSpec)
    ensures
        r == *spec,
{
    StyleSpec {
        hl_group: copy_name(&spec.hl_group),
        fg: copy_name(&spec.fg),
        bg: copy_name(&spec.bg),
        dim: spec.dim,
        bold: spec.bold,
        italic: spec.italic,
    }
}

pub fn copy_leaf(leaf: &IrLeaf) -> (r: IrLeaf)
    ensures
        same_leaf(r, *leaf),
{
    match leaf {
        IrLeaf::Text(spec) => IrLeaf::Text(copy_text(spec)),
        IrLeaf::Content(spec) => IrLeaf::Content(
            RetainedContentSpec { content: spec.content, render: copy_render(&spec.render) },
        ),
        IrLeaf::Runs(spec) => IrLeaf::Runs(
            RunsSpec {
                lines: copy_lines(&spec.lines),
                hl_group: copy_name(&spec.hl_group),
                continuation_indent: spec.continuation_indent,
                syntax_highlights: copy_syntax(&spec.syntax_highlights),
            },
        ),
        IrLeaf::Line(spec) => IrLeaf::Line(
            LineSpec {
                spans: copy_spans(&spec.spans),
                hl_group: copy_name(&spec.hl_group),
                syntax_highlights: copy_syntax(&spec.syntax_highlights),
            },
        ),
        IrLeaf::Markdown(spec) => IrLeaf::Markdown(copy_markdown(spec)),
        IrLeaf::Code(spec) => IrLeaf::Code(copy_code(spec)),
        IrLeaf::Separator(spec) => IrLeaf::Separator(copy_separator(spec)),
        IrLeaf::SourceView(id) => IrLeaf::SourceView(*id),
    }
}

/// A copy of a layout.
pub fn copy_layout(layout: &LayoutIr) -> (r: LayoutIr)
    ensures
        same_layout(r, *layout),
    decreases layout,
{
    match layout {
        BlockLayout::Empty => BlockLayout::Empty,
        BlockLayout::Leaf(leaf) => BlockLayout::Leaf(copy_leaf(leaf)),
        BlockLayout::Vbox(items) => {
            let mut r: Vec<LayoutIr> = Vec::new();
            let mut i: usize = 0;
            while i < items.len()
                invariant
                    i <= items@.len(),
                    r@.len() == i,
                    decreases_to!(layout => items@),
                    forall|j: int| 0 <= j < i ==> same_layout(#[trigger] r@[j], items@[j]),
                decreases items@.len() - i,
            {
                proof {
                    assert(decreases_to!(items@ => items@[i as int]));
                }
                r.push(copy_layout(&items[i]));
                i += 1;
            }
            BlockLayout::Vbox(r)
        },
        BlockLayout::Hbox(items) => {
            let mut r: Vec<HboxItem<IrLeaf>> = Vec::new();
            let mut i: usize = 0;
            while i < items.len()
                invariant
                    i <= items@.len(),
                    r@.len() == i,
                    decreases_to!(layout => items@),
                    forall|j: int|
                        0 <= j < i ==> {
                            &&& same_layout((#[trigger] r@[j]).layout, items@[j].layout)
                            &&& r@[j].constraint == items@[j].constraint
                            &&& r@[j].copy_owner == items@[j].copy_owner
                        },
                decreases items@.len() - i,
            {
                proof {
                    assert(decreases_to!(items@ => items@[i as int]));
                    assert(decreases_to!(items@[i as int] => items@[i as int].layout));
                }
                let item = HboxItem {
                    constraint: items[i].constraint,
                    layout: copy_layout(&items[i].layout),
                    copy_owner: items[i].copy_owner,
                };
                r.push(item);
                i += 1;
            }
            BlockLayout::Hbox(r)
        },
        BlockLayout::Gutter { child, spec } => BlockLayout::Gutter {
            child: Box::new(copy_layout(child)),
            spec: copy_gutter(spec),
        },
        BlockLayout::RowPrefix { child, spec } => BlockLayout::RowPrefix {
            child: Box::new(copy_layout(child)),
            spec: copy_row_prefix(spec),
        },
        BlockLayout::Panel { child, spec } => BlockLayout::Panel {
            child: Box::new(copy_layout(child)),
            spec: copy_panel(spec),
        },
        BlockLayout::Style { child, spec } => BlockLayout::Style {
            child: Box::new(copy_layout(child)),
            spec: copy_style(spec),
        },
        BlockLayout::Cap { child, spec } => BlockLayout::Cap {
            child: Box::new(copy_layout(child)),
            spec: *spec,
        },
        BlockLayout::Refresh { child, spec } => BlockLayout::Refresh {
            child: Box::new(copy_layout(child)),
            spec: *spec,
        },
    }
}

} // verus!
