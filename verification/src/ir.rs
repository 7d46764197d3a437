//! The block layout tree: what a transcript block is made of before any width
//! is known.
use vstd::prelude::*;

verus! {

/// How an hbox column asks for its width.
#[derive(Clone, Copy, Debug, PartialEq, Eq, Structural)]
pub enum Constraint {
    Length(u16),
    Percentage(u16),
    Fill(u16),
    Fit,
}

/// A run of text with its own style names.
#[derive(Debug)]
pub struct StyledSpan {
    pub text: String,
    pub hl: Option<String>,
    pub fg: Option<String>,
    pub bg: Option<String>,
    pub dim: bool,
    pub bold: bool,
    pub italic: bool,
    pub syntax: Option<String>,
    pub selectable: bool,
}

/// A foreground colour over the bytes `byte_start..byte_end` of a span.
#[derive(Clone, Copy, Debug, PartialEq, Eq, Structural)]
pub struct InlineSyntaxSpan {
    pub byte_start: usize,
    pub byte_end: usize,
    pub red: u8,
    pub green: u8,
    pub blue: u8,
}

/// Highlights of every span of every line, one after the other; those of line `i` are
/// `source_spans[line_offsets[i] .. line_offsets[i + 1]]`. Empty where no span has a
/// syntax of its own.
#[derive(Debug)]
pub struct RetainedInlineSyntax {
    pub source_spans: Vec<Vec<InlineSyntaxSpan>>,
    pub line_offsets: Vec<usize>,
}

#[derive(Debug)]
pub struct TextSpec {
    pub content: String,
    pub hl_group: Option<String>,
    pub ansi: bool,
}

#[derive(Debug)]
pub struct RunsSpec {
    pub lines: Vec<Vec<StyledSpan>>,
    pub hl_group: Option<String>,
    pub continuation_indent: u16,
    pub syntax_highlights: RetainedInlineSyntax,
}

#[derive(Debug)]
pub struct LineSpec {
    pub spans: Vec<StyledSpan>,
    pub hl_group: Option<String>,
    pub syntax_highlights: RetainedInlineSyntax,
}

#[derive(Debug)]
pub struct MarkdownSpec {
    pub content: String,
    pub dim: bool,
    pub italic: bool,
    pub inline: bool,
}

#[derive(Debug)]
pub struct CodeSpec {
    pub content: String,
    pub lang: String,
}

#[derive(Debug)]
pub struct SeparatorSpec {
    pub label: Vec<StyledSpan>,
    pub dim: bool,
    pub selectable: bool,
}

/// How a retained content is drawn.
#[allow(inconsistent_fields)]
#[derive(Debug)]
pub enum ContentRenderSpec {
    Text { hl_group: Option<String>, ansi: bool },
    Markdown { dim: bool, italic: bool, inline: bool },
    Code { lang: String },
    File { path: String, lang: Option<String> },
}

/// A content that lives outside the tree and may grow; `content` is its id.
#[derive(Debug)]
pub struct RetainedContentSpec {
    pub content: u64,
    pub render: ContentRenderSpec,
}

/// A leaf of a compiled layout.
#[derive(Debug)]
pub enum IrLeaf {
    Text(TextSpec),
    Content(RetainedContentSpec),
    Runs(RunsSpec),
    Line(LineSpec),
    Markdown(MarkdownSpec),
    Code(CodeSpec),
    Separator(SeparatorSpec),
    /// A side-by-side source view, by the id of its cached diff.
    SourceView(u64),
}

#[derive(Debug)]
pub struct GutterSpec {
    pub text: String,
    pub styled: bool,
}

#[derive(Debug)]
pub struct RowPrefixSpec {
    pub first: Vec<StyledSpan>,
    pub rest: Vec<StyledSpan>,
}

#[derive(Debug)]
pub struct PanelSpec {
    pub hl_group: String,
    pub padding: u16,
}

#[derive(Debug)]
pub struct StyleSpec {
    pub hl_group: Option<String>,
    pub fg: Option<String>,
    pub bg: Option<String>,
    pub dim: bool,
    pub bold: bool,
    pub italic: bool,
}

/// Side of the kept rows on which a cap's marker stands.
#[derive(Clone, Copy, Debug, PartialEq, Eq, Structural)]
pub enum CapMarker {
    Above,
    Below,
}

/// Which rows a cap keeps when its child has too many.
#[derive(Clone, Copy, Debug, PartialEq, Eq, Structural)]
#[allow(inconsistent_fields)]
pub enum CapKeep {
    Head { marker: Option<CapMarker> },
    Tail { marker: Option<CapMarker> },
    HeadTail { head: u16, marker: bool },
}

#[derive(Clone, Copy, Debug, PartialEq, Eq, Structural)]
pub struct CapSpec {
    pub rows: u16,
    pub keep: CapKeep,
    pub total_rows: Option<u64>,
}

#[derive(Clone, Copy, Debug, PartialEq, Eq, Structural)]
pub struct RefreshSpec {
    pub after_ms: u64,
}

/// A layout tree over leaves `L`.
#[allow(inconsistent_fields)]
#[derive(Debug)]
pub enum BlockLayout<L> {
    Empty,
    Leaf(L),
    Vbox(Vec<BlockLayout<L>>),
    Hbox(Vec<HboxItem<L>>),
    Gutter { child: Box<BlockLayout<L>>, spec: GutterSpec },
    RowPrefix { child: Box<BlockLayout<L>>, spec: RowPrefixSpec },
    Panel { child: Box<BlockLayout<L>>, spec: PanelSpec },
    Style { child: Box<BlockLayout<L>>, spec: StyleSpec },
    Cap { child: Box<BlockLayout<L>>, spec: CapSpec },
    Refresh { child: Box<BlockLayout<L>>, spec: RefreshSpec },
}

/// One column of an hbox.
#[derive(Debug)]
pub struct HboxItem<L> {
    pub constraint: Constraint,
    pub layout: BlockLayout<L>,
    pub copy_owner: bool,
}

/// A compiled layout.
pub type LayoutIr = BlockLayout<IrLeaf>;

/// A prefix or suffix of a content's rows: how many rows it has, and whether the
/// content goes on beyond them.
#[derive(Clone, Copy, Debug, PartialEq, Eq, Structural)]
pub struct ContentTextWindow {
    pub row_count: usize,
    pub truncated: bool,
}

} // verus!
