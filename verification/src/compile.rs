//! Layouts as renderers write them, and what they are compiled to.
use vstd::prelude::*;
use crate::ir::{
    BlockLayout, CodeSpec, ContentRenderSpec, HboxItem, InlineSyntaxSpan, IrLeaf, LayoutIr,
    LineSpec, MarkdownSpec, RetainedContentSpec, RetainedInlineSyntax, RunsSpec, SeparatorSpec,
    StyledSpan, TextSpec,
};
use crate::ir_copy::{
    copy_code, copy_gutter, copy_layout, copy_lines, copy_markdown, copy_name, copy_panel,
    copy_render, copy_row_prefix, copy_separator, copy_spans, copy_style, copy_text, same_layout,
    same_lines,
};
use crate::numbers::{decimal, decimal_text};
use crate::syntax_cache::{
    highlighted, lemma_more_lookups, lemma_one_more_lookup, lookups_leave, pure_highlighter,
    InlineSyntaxCache, SyntaxLookup,
};

verus! {

/// A content by its id, and how it is drawn.
#[derive(Debug)]
pub struct ContentSpec {
    pub id: u64,
    pub render: ContentRenderSpec,
}

/// The difference of two contents.
#[derive(Debug)]
pub struct ContentDiffSpec {
    pub old_id: u64,
    pub new_id: u64,
    pub path: String,
    pub lang: Option<String>,
}

/// The difference of two texts.
#[derive(Debug)]
pub struct DiffSpec {
    pub old: String,
    pub new: String,
    pub base: String,
    pub path: String,
    pub anchor: String,
    pub lang: Option<String>,
    pub full_file: bool,
}

/// The text of a file.
#[derive(Debug)]
pub struct FileViewSpec {
    pub content: String,
    pub path: String,
    pub lang: Option<String>,
}

/// A leaf as a renderer writes it.
#[derive(Debug)]
pub enum LuaLeaf {
    Text(TextSpec),
    Content(ContentSpec),
    ContentDiff(ContentDiffSpec),
    GroupChildren,
    Runs(RunsSpec),
    Line(LineSpec),
    Markdown(MarkdownSpec),
    Code(CodeSpec),
    Separator(SeparatorSpec),
    Diff(DiffSpec),
    FileView(FileViewSpec),
}

/// A layout as a renderer writes it.
pub type LuaLayout = BlockLayout<LuaLeaf>;

/// A source view that is to be built.
#[derive(Debug)]
pub enum SourceViewRequest<'a> {
    /// Of two contents.
    ContentDiff(&'a ContentDiffSpec),
    /// Of two texts, the old one being the whole file.
    WholeFileDiff(&'a DiffSpec),
    /// Of two texts within their base.
    DiffInBase(&'a DiffSpec),
    /// Of one file.
    FileView(&'a FileViewSpec),
}

/// Why a layout does not compile.
#[derive(Clone, Copy, Debug, PartialEq, Eq, Structural)]
pub enum CompileError {
    /// No such content belongs to the node.
    UnknownContent(u64),
    /// The node is no group.
    NoGroupChildren,
}

impl CompileError {
    /// The error in words.
    pub open spec fn message(self) -> Seq<char> {
        match self {
            CompileError::UnknownContent(id) => "unknown transcript content id "@ + decimal(
                id as nat,
            ),
            CompileError::NoGroupChildren => {
                "group child layouts are only available in group renderers"@
            },
        }
    }

    /// The error in words.
    pub fn text(&self) -> (text: String)
        ensures
            text@ == self.message(),
    {
        match self {
            CompileError::UnknownContent(id) => {
                let mut text = String::from_str("unknown transcript content id ");
                text.append(decimal_text(*id).as_str());
                text
            },
            CompileError::NoGroupChildren => String::from_str(
                "group child layouts are only available in group renderers",
            ),
        }
    }
}

/// The sooner of two delays, where there are any.
pub open spec fn earliest(left: Option<u64>, right: Option<u64>) -> Option<u64> {
    match (left, right) {
        (Some(a), Some(b)) => Some(
            if a < b {
                a
            } else {
                b
            },
        ),
        (Some(a), None) => Some(a),
        (None, b) => b,
    }
}

/// The sooner of two delays, where there are any.
pub fn earliest_delay(left: Option<u64>, right: Option<u64>) -> (delay: Option<u64>)
    ensures
        delay == earliest(left, right),
{
    match (left, right) {
        (Some(left), Some(right)) => Some(
            if left < right {
                left
            } else {
                right
            },
        ),
        (Some(delay), None) => Some(delay),
        (None, right) => right,
    }
}

/// What a layout is compiled against: the contents of its node, the layouts of its
/// children where it is a group, what the highlighter finds in a source, and the ids of
/// built source views.
pub struct CompileEnv<'a> {
    pub contents: Seq<u64>,
    pub group: Option<LayoutIr>,
    pub highlights: spec_fn(Seq<char>, Seq<char>) -> Seq<InlineSyntaxSpan>,
    pub views: spec_fn(SourceViewRequest<'a>) -> u64,
}

/// Whether a span is highlighted by a syntax of its own.
pub open spec fn has_syntax(span: StyledSpan) -> bool {
    span.selectable && span.syntax is Some
}

/// Highlights of one span.
pub open spec fn span_highlights(env: CompileEnv, span: StyledSpan) -> Seq<InlineSyntaxSpan> {
    if has_syntax(span) {
        (env.highlights)(span.syntax->0@, span.text@)
    } else {
        Seq::empty()
    }
}

/// Spans of the first `n` lines.
pub open spec fn spans_before(lines: Seq<Vec<StyledSpan>>, n: int) -> int
    decreases n,
{
    if n <= 0 {
        0
    } else {
        spans_before(lines, n - 1) + lines[n - 1]@.len()
    }
}

/// `syntax` holds the highlights of every span of `lines`, or nothing where no span has
/// a syntax of its own.
pub open spec fn syntax_of_lines(
    env: CompileEnv,
    lines: Seq<Vec<StyledSpan>>,
    syntax: RetainedInlineSyntax,
) -> bool {
    if exists|i: int, j: int|
        0 <= i < lines.len() && 0 <= j < lines[i]@.len() && has_syntax(#[trigger] lines[i]@[j]) {
        &&& syntax.line_offsets@.len() == lines.len() + 1
        &&& forall|i: int|
            0 <= i <= lines.len() ==> #[trigger] syntax.line_offsets@[i] == spans_before(lines, i)
        &&& syntax.source_spans@.len() == spans_before(lines, lines.len() as int)
        &&& forall|i: int, j: int|
            0 <= i < lines.len() && 0 <= j < lines[i]@.len() ==> syntax.source_spans@[spans_before(
                lines,
                i,
            ) + j]@ == span_highlights(env, #[trigger] lines[i]@[j])
    } else {
        syntax.line_offsets@.len() == 0 && syntax.source_spans@.len() == 0
    }
}

/// `syntax` holds the highlights of every span of one line, or nothing where no span has
/// a syntax of its own.
pub open spec fn syntax_of_spans(
    env: CompileEnv,
    spans: Seq<StyledSpan>,
    syntax: RetainedInlineSyntax,
) -> bool {
    if exists|j: int| 0 <= j < spans.len() && has_syntax(#[trigger] spans[j]) {
        &&& syntax.line_offsets@ == seq![0usize, spans.len() as usize]
        &&& syntax.source_spans@.len() == spans.len()
        &&& forall|j: int|
            0 <= j < spans.len() ==> syntax.source_spans@[j]@ == span_highlights(
                env,
                #[trigger] spans[j],
            )
    } else {
        syntax.line_offsets@.len() == 0 && syntax.source_spans@.len() == 0
    }
}

/// The request that a leaf stands for, if it is a source view.
pub open spec fn view_request<'a>(leaf: LuaLeaf) -> SourceViewRequest<'a> {
    match leaf {
        LuaLeaf::ContentDiff(spec) => SourceViewRequest::ContentDiff(&spec),
        LuaLeaf::Diff(spec) => if spec.full_file {
            SourceViewRequest::WholeFileDiff(&spec)
        } else {
            SourceViewRequest::DiffInBase(&spec)
        },
        LuaLeaf::FileView(spec) => SourceViewRequest::FileView(&spec),
        _ => arbitrary(),
    }
}

/// Why a leaf does not compile, if it does not.
pub open spec fn leaf_error(env: CompileEnv, leaf: LuaLeaf) -> Option<CompileError> {
    match leaf {
        LuaLeaf::Content(spec) if !env.contents.contains(spec.id) => Some(
            CompileError::UnknownContent(spec.id),
        ),
        LuaLeaf::ContentDiff(spec) if !env.contents.contains(spec.old_id) => Some(
            CompileError::UnknownContent(spec.old_id),
        ),
        LuaLeaf::ContentDiff(spec) if !env.contents.contains(spec.new_id) => Some(
            CompileError::UnknownContent(spec.new_id),
        ),
        LuaLeaf::GroupChildren if env.group is None => Some(CompileError::NoGroupChildren),
        _ => None,
    }
}

/// `ir` is what a leaf compiles to.
pub open spec fn leaf_compiles(env: CompileEnv, leaf: LuaLeaf, ir: LayoutIr) -> bool {
    match leaf {
        LuaLeaf::GroupChildren => env.group is Some && same_layout(ir, env.group->0),
        LuaLeaf::Text(spec) => ir == LayoutIr::Leaf(IrLeaf::Text(spec)),
        LuaLeaf::Content(spec) => ir == LayoutIr::Leaf(
            IrLeaf::Content(RetainedContentSpec { content: spec.id, render: spec.render }),
        ),
        LuaLeaf::Runs(spec) => {
            &&& ir matches BlockLayout::Leaf(IrLeaf::Runs(runs))
            &&& same_lines(runs.lines@, spec.lines@)
            &&& runs.hl_group == spec.hl_group
            &&& runs.continuation_indent == spec.continuation_indent
            &&& syntax_of_lines(env, spec.lines@, runs.syntax_highlights)
        },
        LuaLeaf::Line(spec) => {
            &&& ir matches BlockLayout::Leaf(IrLeaf::Line(line))
            &&& line.spans@ == spec.spans@
            &&& line.hl_group == spec.hl_group
            &&& syntax_of_spans(env, spec.spans@, line.syntax_highlights)
        },
        LuaLeaf::Markdown(spec) => ir == LayoutIr::Leaf(IrLeaf::Markdown(spec)),
        LuaLeaf::Code(spec) => ir == LayoutIr::Leaf(IrLeaf::Code(spec)),
        LuaLeaf::Separator(spec) => {
            &&& ir matches BlockLayout::Leaf(IrLeaf::Separator(separator))
            &&& separator.label@ == spec.label@
            &&& separator.dim == spec.dim
            &&& separator.selectable == spec.selectable
        },
        LuaLeaf::ContentDiff(_) | LuaLeaf::Diff(_) | LuaLeaf::FileView(_) => ir == LayoutIr::Leaf(
            IrLeaf::SourceView((env.views)(view_request(leaf))),
        ),
    }
}

/// The first reason, in reading order, why a layout does not compile.
pub open spec fn layout_error(env: CompileEnv, layout: LuaLayout) -> Option<CompileError>
    decreases layout, 1nat,
{
    match layout {
        BlockLayout::Empty => None,
        BlockLayout::Leaf(leaf) => leaf_error(env, leaf),
        BlockLayout::Vbox(items) => stack_error(env, items@),
        BlockLayout::Hbox(items) => columns_error(env, items@),
        BlockLayout::Gutter { child, .. } => layout_error(env, *child),
        BlockLayout::RowPrefix { child, .. } => layout_error(env, *child),
        BlockLayout::Panel { child, .. } => layout_error(env, *child),
        BlockLayout::Style { child, .. } => layout_error(env, *child),
        BlockLayout::Cap { child, .. } => layout_error(env, *child),
        BlockLayout::Refresh { child, .. } => layout_error(env, *child),
    }
}

pub open spec fn stack_error(env: CompileEnv, items: Seq<LuaLayout>) -> Option<CompileError>
    decreases items, 0nat,
{
    if items.len() == 0 {
        None
    } else {
        match stack_error(env, items.drop_last()) {
            Some(error) => Some(error),
            None => layout_error(env, items.last()),
        }
    }
}

pub open spec fn columns_error(
    env: CompileEnv,
    items: Seq<HboxItem<LuaLeaf>>,
) -> Option<CompileError>
    decreases items, 0nat,
{
    if items.len() == 0 {
        None
    } else {
        match columns_error(env, items.drop_last()) {
            Some(error) => Some(error),
            None => {
                proof {
                    assert(decreases_to!(items => items.last()));
                    assert(decreases_to!(items.last() => items.last().layout));
                }
                layout_error(env, items.last().layout)
            },
        }
    }
}

/// The soonest delay that a layout asks to be drawn again after.
pub open spec fn layout_delay(layout: LuaLayout) -> Option<u64>
    decreases layout, 1nat,
{
    match layout {
        BlockLayout::Empty => None,
        BlockLayout::Leaf(_) => None,
        BlockLayout::Vbox(items) => stack_delay(items@),
        BlockLayout::Hbox(items) => columns_delay(items@),
        BlockLayout::Gutter { child, .. } => layout_delay(*child),
        BlockLayout::RowPrefix { child, .. } => layout_delay(*child),
        BlockLayout::Panel { child, .. } => layout_delay(*child),
        BlockLayout::Style { child, .. } => layout_delay(*child),
        BlockLayout::Cap { child, .. } => layout_delay(*child),
        BlockLayout::Refresh { child, spec } => earliest(
            Some(spec.after_ms),
            layout_delay(*child),
        ),
    }
}

pub open spec fn stack_delay(items: Seq<LuaLayout>) -> Option<u64>
    decreases items, 0nat,
{
    if items.len() == 0 {
        None
    } else {
        earliest(stack_delay(items.drop_last()), layout_delay(items.last()))
    }
}

pub open spec fn columns_delay(items: Seq<HboxItem<LuaLeaf>>) -> Option<u64>
    decreases items, 0nat,
{
    if items.len() == 0 {
        None
    } else {
        proof {
            assert(decreases_to!(items => items.last()));
            assert(decreases_to!(items.last() => items.last().layout));
        }
        earliest(columns_delay(items.drop_last()), layout_delay(items.last().layout))
    }
}

/// The soonest delay that compiling a layout comes upon: that of the whole layout, or, where it
/// does not compile, of what stands before and around what is wrong with it.
pub open spec fn reached_delay(env: CompileEnv, layout: LuaLayout) -> Option<u64>
    decreases layout, 1nat,
{
    match layout {
        BlockLayout::Empty => None,
        BlockLayout::Leaf(_) => None,
        BlockLayout::Vbox(items) => stack_reached_delay(env, items@),
        BlockLayout::Hbox(items) => columns_reached_delay(env, items@),
        BlockLayout::Gutter { child, .. } => reached_delay(env, *child),
        BlockLayout::RowPrefix { child, .. } => reached_delay(env, *child),
        BlockLayout::Panel { child, .. } => reached_delay(env, *child),
        BlockLayout::Style { child, .. } => reached_delay(env, *child),
        BlockLayout::Cap { child, .. } => reached_delay(env, *child),
        BlockLayout::Refresh { child, spec } => earliest(
            Some(spec.after_ms),
            reached_delay(env, *child),
        ),
    }
}

pub open spec fn stack_reached_delay(env: CompileEnv, items: Seq<LuaLayout>) -> Option<u64>
    decreases items, 0nat,
{
    if items.len() == 0 {
        None
    } else if stack_error(env, items.drop_last()) is Some {
        stack_reached_delay(env, items.drop_last())
    } else {
        earliest(
            stack_reached_delay(env, items.drop_last()),
            reached_delay(env, items.last()),
        )
    }
}

pub open spec fn columns_reached_delay(env: CompileEnv, items: Seq<HboxItem<LuaLeaf>>) -> Option<
    u64,
>
    decreases items, 0nat,
{
    if items.len() == 0 {
        None
    } else if columns_error(env, items.drop_last()) is Some {
        columns_reached_delay(env, items.drop_last())
    } else {
        proof {
            assert(decreases_to!(items => items.last()));
            assert(decreases_to!(items.last() => items.last().layout));
        }
        earliest(
            columns_reached_delay(env, items.drop_last()),
            reached_delay(env, items.last().layout),
        )
    }
}

/// `ir` is what a layout compiles to: the same tree, with compiled leaves and without
/// its refresh nodes.
pub open spec fn compiles_to(env: CompileEnv, layout: LuaLayout, ir: LayoutIr) -> bool
    decreases layout,
{
    match layout {
        BlockLayout::Empty => ir is Empty,
        BlockLayout::Leaf(leaf) => leaf_compiles(env, leaf, ir),
        BlockLayout::Vbox(items) => {
            &&& ir matches BlockLayout::Vbox(compiled)
            &&& compiled@.len() == items@.len()
            &&& forall|i: int|
                0 <= i < items@.len() ==> compiles_to(env, #[trigger] items@[i], compiled@[i])
        },
        BlockLayout::Hbox(items) => {
            &&& ir matches BlockLayout::Hbox(compiled)
            &&& compiled@.len() == items@.len()
            &&& forall|i: int|
                0 <= i < items@.len() ==> {
                    &&& compiles_to(env, (#[trigger] items@[i]).layout, compiled@[i].layout)
                    &&& compiled@[i].constraint == items@[i].constraint
                    &&& compiled@[i].copy_owner == items@[i].copy_owner
                }
        },
        BlockLayout::Gutter { child, spec } => {
            &&& ir matches BlockLayout::Gutter { child: inner, spec: kept }
            &&& compiles_to(env, *child, *inner)
            &&& kept == spec
        },
        BlockLayout::RowPrefix { child, spec } => {
            &&& ir matches BlockLayout::RowPrefix { child: inner, spec: kept }
            &&& compiles_to(env, *child, *inner)
            &&& kept.first@ == spec.first@
            &&& kept.rest@ == spec.rest@
        },
        BlockLayout::Panel { child, spec } => {
            &&& ir matches BlockLayout::Panel { child: inner, spec: kept }
            &&& compiles_to(env, *child, *inner)
            &&& kept == spec
        },
        BlockLayout::Style { child, spec } => {
            &&& ir matches BlockLayout::Style { child: inner, spec: kept }
            &&& compiles_to(env, *child, *inner)
            &&& kept == spec
        },
        BlockLayout::Cap { child, spec } => {
            &&& ir matches BlockLayout::Cap { child: inner, spec: kept }
            &&& compiles_to(env, *child, *inner)
            &&& kept == spec
        },
        BlockLayout::Refresh { child, .. } => compiles_to(env, *child, ir),
    }
}

/// What is looked up for the first `n` spans: those that have a syntax of their own.
pub open spec fn span_lookups(spans: Seq<StyledSpan>, n: int) -> Seq<SyntaxLookup>
    decreases n,
{
    if n <= 0 {
        Seq::empty()
    } else if has_syntax(spans[n - 1]) {
        span_lookups(spans, n - 1).push(
            SyntaxLookup { language: spans[n - 1].syntax->0@, source: spans[n - 1].text@ },
        )
    } else {
        span_lookups(spans, n - 1)
    }
}

/// What is looked up for the first `n` lines.
pub open spec fn line_lookups(lines: Seq<Vec<StyledSpan>>, n: int) -> Seq<SyntaxLookup>
    decreases n,
{
    if n <= 0 {
        Seq::empty()
    } else {
        line_lookups(lines, n - 1) + span_lookups(lines[n - 1]@, lines[n - 1]@.len() as int)
    }
}

/// What is looked up for a leaf.
pub open spec fn leaf_lookups(leaf: LuaLeaf) -> Seq<SyntaxLookup> {
    match leaf {
        LuaLeaf::Runs(spec) => line_lookups(spec.lines@, spec.lines@.len() as int),
        LuaLeaf::Line(spec) => span_lookups(spec.spans@, spec.spans@.len() as int),
        _ => Seq::empty(),
    }
}

/// What is looked up to compile a layout, in reading order, up to where it does not compile.
pub open spec fn layout_lookups(env: CompileEnv, layout: LuaLayout) -> Seq<SyntaxLookup>
    decreases layout, 1nat,
{
    match layout {
        BlockLayout::Empty => Seq::empty(),
        BlockLayout::Leaf(leaf) => leaf_lookups(leaf),
        BlockLayout::Vbox(items) => stack_lookups(env, items@),
        BlockLayout::Hbox(items) => columns_lookups(env, items@),
        BlockLayout::Gutter { child, .. } => layout_lookups(env, *child),
        BlockLayout::RowPrefix { child, .. } => layout_lookups(env, *child),
        BlockLayout::Panel { child, .. } => layout_lookups(env, *child),
        BlockLayout::Style { child, .. } => layout_lookups(env, *child),
        BlockLayout::Cap { child, .. } => layout_lookups(env, *child),
        BlockLayout::Refresh { child, .. } => layout_lookups(env, *child),
    }
}

pub open spec fn stack_lookups(env: CompileEnv, items: Seq<LuaLayout>) -> Seq<SyntaxLookup>
    decreases items, 0nat,
{
    if items.len() == 0 {
        Seq::empty()
    } else if stack_error(env, items.drop_last()) is Some {
        stack_lookups(env, items.drop_last())
    } else {
        stack_lookups(env, items.drop_last()) + layout_lookups(env, items.last())
    }
}

pub open spec fn columns_lookups(
    env: CompileEnv,
    items: Seq<HboxItem<LuaLeaf>>,
) -> Seq<SyntaxLookup>
    decreases items, 0nat,
{
    if items.len() == 0 {
        Seq::empty()
    } else if columns_error(env, items.drop_last()) is Some {
        columns_lookups(env, items.drop_last())
    } else {
        proof {
            assert(decreases_to!(items => items.last()));
            assert(decreases_to!(items.last() => items.last().layout));
        }
        columns_lookups(env, items.drop_last()) + layout_lookups(env, items.last().layout)
    }
}

/// What is looked up to highlight a compiled layout, in reading order.
pub open spec fn ir_lookups(layout: LayoutIr) -> Seq<SyntaxLookup>
    decreases layout, 1nat,
{
    match layout {
        BlockLayout::Empty => Seq::empty(),
        BlockLayout::Leaf(leaf) => match leaf {
            IrLeaf::Runs(spec) => line_lookups(spec.lines@, spec.lines@.len() as int),
            IrLeaf::Line(spec) => span_lookups(spec.spans@, spec.spans@.len() as int),
            _ => Seq::empty(),
        },
        BlockLayout::Vbox(items) => stack_ir_lookups(items@),
        BlockLayout::Hbox(items) => columns_ir_lookups(items@),
        BlockLayout::Gutter { child, .. } => ir_lookups(*child),
        BlockLayout::RowPrefix { child, .. } => ir_lookups(*child),
        BlockLayout::Panel { child, .. } => ir_lookups(*child),
        BlockLayout::Style { child, .. } => ir_lookups(*child),
        BlockLayout::Cap { child, .. } => ir_lookups(*child),
        BlockLayout::Refresh { child, .. } => ir_lookups(*child),
    }
}

pub open spec fn stack_ir_lookups(items: Seq<LayoutIr>) -> Seq<SyntaxLookup>
    decreases items, 0nat,
{
    if items.len() == 0 {
        Seq::empty()
    } else {
        stack_ir_lookups(items.drop_last()) + ir_lookups(items.last())
    }
}

pub open spec fn columns_ir_lookups(items: Seq<HboxItem<IrLeaf>>) -> Seq<SyntaxLookup>
    decreases items, 0nat,
{
    if items.len() == 0 {
        Seq::empty()
    } else {
        proof {
            assert(decreases_to!(items => items.last()));
            assert(decreases_to!(items.last() => items.last().layout));
        }
        columns_ir_lookups(items.drop_last()) + ir_lookups(items.last().layout)
    }
}

/// What a layout is compiled against, with this highlighter and builder of source views.
pub open spec fn compile_env<
    'a,
    F: Fn(&str, &str) -> Vec<InlineSyntaxSpan>,
    V: Fn(SourceViewRequest) -> u64,
>(contents: Seq<u64>, group: Option<LayoutIr>, highlight: F, build_view: V) -> CompileEnv<'a> {
    CompileEnv {
        contents,
        group,
        highlights: |language: Seq<char>, source: Seq<char>|
            highlighted(highlight, language, source),
        views: |request: SourceViewRequest<'a>|
            choose|id: u64| call_ensures(build_view, (request,), id),
    }
}

/// The builder of source views can be called on anything, and gives the same for the
/// same.
pub open spec fn pure_builder<'a, V: Fn(SourceViewRequest) -> u64>(build_view: V) -> bool {
    &&& forall|request: SourceViewRequest<'a>| #[trigger] call_requires(build_view, (request,))
    &&& forall|request: SourceViewRequest<'a>, a: u64, b: u64|
        #[trigger] call_ensures(build_view, (request,), a) && #[trigger] call_ensures(
            build_view,
            (request,),
            b,
        ) ==> a == b
}

/// What a layout is compiled with.
pub struct CompileSources<'a, F, V> {
    pub contents: &'a Vec<u64>,
    pub group_children: Option<&'a LayoutIr>,
    pub theme_revision: u64,
    pub highlight: &'a F,
    pub build_view: &'a V,
}

impl<'a, F: Fn(&str, &str) -> Vec<InlineSyntaxSpan>, V: Fn(SourceViewRequest) -> u64>
    CompileSources<'a, F, V> {
    /// What the layout is compiled against.
    pub open spec fn env(&self) -> CompileEnv<'a> {
        compile_env(
            self.contents@,
            match self.group_children {
                Some(layout) => Some(*layout),
                None => None,
            },
            *self.highlight,
            *self.build_view,
        )
    }

    /// The highlighter and the builder of source views can be called on anything, and
    /// give the same for the same.
    pub open spec fn wf(&self) -> bool {
        pure_highlighter(*self.highlight) && pure_builder(*self.build_view)
    }

    /// `cache` can be used with the highlighter.
    pub open spec fn admits(&self, cache: InlineSyntaxCache) -> bool {
        cache.wf() && cache.agrees(*self.highlight, self.theme_revision)
    }

    /// `after` is what some lookups leave of `before`.
    pub open spec fn leaves(
        &self,
        before: InlineSyntaxCache,
        lookups: Seq<SyntaxLookup>,
        after: InlineSyntaxCache,
    ) -> bool {
        lookups_leave(*self.highlight, self.theme_revision, before, lookups, after)
    }

    proof fn lemma_more(
        &self,
        before: InlineSyntaxCache,
        lookups: Seq<SyntaxLookup>,
        mid: InlineSyntaxCache,
        more: Seq<SyntaxLookup>,
        after: InlineSyntaxCache,
    )
        requires
            self.leaves(before, lookups, mid),
            self.leaves(mid, more, after),
        ensures
            self.leaves(before, lookups + more, after),
    {
        lemma_more_lookups(
            *self.highlight,
            self.theme_revision,
            before,
            lookups,
            mid,
            more,
            after,
        );
    }

    fn has_content(&self, id: u64) -> (found: bool)
        ensures
            found == self.contents@.contains(id),
    {
        let mut i: usize = 0;
        while i < self.contents.len()
            invariant
                i <= self.contents@.len(),
                forall|j: int| 0 <= j < i ==> #[trigger] self.contents@[j] != id,
            decreases self.contents@.len() - i,
        {
            if self.contents[i] == id {
                return true;
            }
            i += 1;
        }
        false
    }

    /// Adds the highlights of every span to `out`.
    fn append_span_syntax(
        &self,
        spans: &Vec<StyledSpan>,
        inline_syntax: &mut InlineSyntaxCache,
        out: &mut Vec<Vec<InlineSyntaxSpan>>,
    )
        requires
            self.wf(),
            self.admits(*old(inline_syntax)),
        ensures
            self.admits(*final(inline_syntax)),
            self.leaves(
                *old(inline_syntax),
                span_lookups(spans@, spans@.len() as int),
                *final(inline_syntax),
            ),
            final(out)@.len() == old(out)@.len() + spans@.len(),
            forall|i: int| 0 <= i < old(out)@.len() ==> final(out)@[i] == old(out)@[i],
            forall|j: int|
                0 <= j < spans@.len() ==> final(out)@[old(out)@.len() + j]@ == span_highlights(
                    self.env(),
                    #[trigger] spans@[j],
                ),
    {
        let ghost before = out@;
        let mut i: usize = 0;
        while i < spans.len()
            invariant
                before == old(out)@,
                i <= spans@.len(),
                self.wf(),
                self.admits(*inline_syntax),
                self.leaves(
                    *old(inline_syntax),
                    span_lookups(spans@, i as int),
                    *inline_syntax,
                ),
                out@.len() == before.len() + i,
                forall|k: int| 0 <= k < before.len() ==> out@[k] == before[k],
                forall|j: int|
                    0 <= j < i ==> out@[before.len() + j]@ == span_highlights(
                        self.env(),
                        #[trigger] spans@[j],
                    ),
            decreases spans@.len() - i,
        {
            let span = &spans[i];
            let mut highlights: Vec<InlineSyntaxSpan> = Vec::new();
            if span.selectable {
                if let Some(language) = &span.syntax {
                    let ghost mid = *inline_syntax;
                    highlights = inline_syntax.get_or_compile(
                        self.theme_revision,
                        language.as_str(),
                        span.text.as_str(),
                        self.highlight,
                    );
                    proof {
                        let lookup = SyntaxLookup { language: language@, source: span.text@ };
                        lemma_one_more_lookup(
                            *self.highlight,
                            self.theme_revision,
                            *old(inline_syntax),
                            span_lookups(spans@, i as int),
                            mid,
                            lookup,
                            *inline_syntax,
                        );
                    }
                }
            }
            out.push(highlights);
            i += 1;
        }
    }

    /// Highlights of all spans of some lines.
    pub fn compile_styled_syntax(
        &self,
        lines: &Vec<Vec<StyledSpan>>,
        inline_syntax: &mut InlineSyntaxCache,
    ) -> (syntax: RetainedInlineSyntax)
        requires
            self.wf(),
            self.admits(*old(inline_syntax)),
        ensures
            self.admits(*final(inline_syntax)),
            self.leaves(
                *old(inline_syntax),
                line_lookups(lines@, lines@.len() as int),
                *final(inline_syntax),
            ),
            syntax_of_lines(self.env(), lines@, syntax),
    {
        let mut any = false;
        let mut i: usize = 0;
        while i < lines.len() && !any
            invariant
                i <= lines@.len(),
                any ==> exists|i: int, j: int|
                    0 <= i < lines@.len() && 0 <= j < lines@[i]@.len() && has_syntax(
                        #[trigger] lines@[i]@[j],
                    ),
                !any ==> forall|k: int, j: int|
                    0 <= k < i && 0 <= j < lines@[k]@.len() ==> !has_syntax(
                        #[trigger] lines@[k]@[j],
                    ),
            decreases lines@.len() - i,
        {
            any = any_inline_syntax(&lines[i]);
            i += 1;
        }
        let mut source_spans: Vec<Vec<InlineSyntaxSpan>> = Vec::new();
        let mut line_offsets: Vec<usize> = Vec::new();
        if !any {
            proof {
                lemma_no_line_lookups(lines@, lines@.len() as int);
            }
            return RetainedInlineSyntax { source_spans, line_offsets };
        }
        line_offsets.push(0);
        let mut i: usize = 0;
        while i < lines.len()
            invariant
                i <= lines@.len(),
                self.wf(),
                self.admits(*inline_syntax),
                self.leaves(
                    *old(inline_syntax),
                    line_lookups(lines@, i as int),
                    *inline_syntax,
                ),
                line_offsets@.len() == i + 1,
                forall|k: int|
                    0 <= k <= i ==> #[trigger] line_offsets@[k] == spans_before(lines@, k),
                source_spans@.len() == spans_before(lines@, i as int),
                forall|k: int, j: int|
                    0 <= k < i && 0 <= j < lines@[k]@.len() ==> source_spans@[spans_before(
                        lines@,
                        k,
                    ) + j]@ == span_highlights(self.env(), #[trigger] lines@[k]@[j]),
            decreases lines@.len() - i,
        {
            let ghost before = source_spans@;
            let ghost mid = *inline_syntax;
            self.append_span_syntax(&lines[i], inline_syntax, &mut source_spans);
            line_offsets.push(source_spans.len());
            proof {
                self.lemma_more(
                    *old(inline_syntax),
                    line_lookups(lines@, i as int),
                    mid,
                    span_lookups(lines@[i as int]@, lines@[i as int]@.len() as int),
                    *inline_syntax,
                );
                assert forall|k: int, j: int|
                    0 <= k < i + 1 && 0 <= j < lines@[k]@.len() implies source_spans@[spans_before(
                    lines@,
                    k,
                ) + j]@ == span_highlights(self.env(), #[trigger] lines@[k]@[j]) by {
                    if k < i {
                        lemma_spans_before(lines@, k + 1, i as int);
                        lemma_spans_before(lines@, 0, k);
                        let at = spans_before(lines@, k) + j;
                        assert(source_spans@[at] == before[at]);
                    }
                }
            }
            i += 1;
        }
        RetainedInlineSyntax { source_spans, line_offsets }
    }

    /// Highlights of all spans of one line.
    pub fn compile_span_syntax(
        &self,
        spans: &Vec<StyledSpan>,
        inline_syntax: &mut InlineSyntaxCache,
    ) -> (syntax: RetainedInlineSyntax)
        requires
            self.wf(),
            self.admits(*old(inline_syntax)),
        ensures
            self.admits(*final(inline_syntax)),
            self.leaves(
                *old(inline_syntax),
                span_lookups(spans@, spans@.len() as int),
                *final(inline_syntax),
            ),
            syntax_of_spans(self.env(), spans@, syntax),
    {
        let mut source_spans: Vec<Vec<InlineSyntaxSpan>> = Vec::new();
        let mut line_offsets: Vec<usize> = Vec::new();
        if !any_inline_syntax(spans) {
            proof {
                lemma_no_span_lookups(spans@, spans@.len() as int);
            }
            return RetainedInlineSyntax { source_spans, line_offsets };
        }
        self.append_span_syntax(spans, inline_syntax, &mut source_spans);
        line_offsets.push(0);
        line_offsets.push(source_spans.len());
        proof {
            assert forall|j: int| 0 <= j < spans@.len() implies source_spans@[j]@
                == span_highlights(self.env(), #[trigger] spans@[j]) by {
                assert(source_spans@[0 + j]@ == span_highlights(self.env(), spans@[j]));
            }
            assert(line_offsets@ =~= seq![0usize, spans@.len() as usize]);
        }
        RetainedInlineSyntax { source_spans, line_offsets }
    }

    /// Compiles a leaf.
    fn compile_leaf(&self, leaf: &LuaLeaf, inline_syntax: &mut InlineSyntaxCache) -> (r: Result<
        LayoutIr,
        CompileError,
    >)
        requires
            self.wf(),
            self.admits(*old(inline_syntax)),
        ensures
            self.admits(*final(inline_syntax)),
            self.leaves(*old(inline_syntax), leaf_lookups(*leaf), *final(inline_syntax)),
            match r {
                Ok(ir) => leaf_error(self.env(), *leaf) is None && leaf_compiles(
                    self.env(),
                    *leaf,
                    ir,
                ),
                Err(error) => leaf_error(self.env(), *leaf) == Some(error),
            },
    {
        match leaf {
            LuaLeaf::Text(spec) => Ok(BlockLayout::Leaf(IrLeaf::Text(copy_text(spec)))),
            LuaLeaf::Content(spec) => {
                if !self.has_content(spec.id) {
                    return Err(CompileError::UnknownContent(spec.id));
                }
                Ok(
                    BlockLayout::Leaf(
                        IrLeaf::Content(
                            RetainedContentSpec {
                                content: spec.id,
                                render: copy_render(&spec.render),
                            },
                        ),
                    ),
                )
            },
            LuaLeaf::ContentDiff(spec) => {
                if !self.has_content(spec.old_id) {
                    return Err(CompileError::UnknownContent(spec.old_id));
                }
                if !self.has_content(spec.new_id) {
                    return Err(CompileError::UnknownContent(spec.new_id));
                }
                let id = (self.build_view)(SourceViewRequest::ContentDiff(spec));
                Ok(BlockLayout::Leaf(IrLeaf::SourceView(id)))
            },
            LuaLeaf::GroupChildren => match self.group_children {
                Some(layout) => Ok(copy_layout(layout)),
                None => Err(CompileError::NoGroupChildren),
            },
            LuaLeaf::Runs(spec) => {
                let syntax_highlights = self.compile_styled_syntax(&spec.lines, inline_syntax);
                Ok(
                    BlockLayout::Leaf(
                        IrLeaf::Runs(
                            RunsSpec {
                                lines: copy_lines(&spec.lines),
                                hl_group: copy_name(&spec.hl_group),
                                continuation_indent: spec.continuation_indent,
                                syntax_highlights,
                            },
                        ),
                    ),
                )
            },
            LuaLeaf::Line(spec) => {
                let syntax_highlights = self.compile_span_syntax(&spec.spans, inline_syntax);
                Ok(
                    BlockLayout::Leaf(
                        IrLeaf::Line(
                            LineSpec {
                                spans: copy_spans(&spec.spans),
                                hl_group: copy_name(&spec.hl_group),
                                syntax_highlights,
                            },
                        ),
                    ),
                )
            },
            LuaLeaf::Markdown(spec) => Ok(BlockLayout::Leaf(IrLeaf::Markdown(copy_markdown(spec)))),
            LuaLeaf::Code(spec) => Ok(BlockLayout::Leaf(IrLeaf::Code(copy_code(spec)))),
            LuaLeaf::Separator(spec) => Ok(
                BlockLayout::Leaf(IrLeaf::Separator(copy_separator(spec))),
            ),
            LuaLeaf::Diff(spec) => {
                let id = if spec.full_file {
                    (self.build_view)(SourceViewRequest::WholeFileDiff(spec))
                } else {
                    (self.build_view)(SourceViewRequest::DiffInBase(spec))
                };
                Ok(BlockLayout::Leaf(IrLeaf::SourceView(id)))
            },
            LuaLeaf::FileView(spec) => {
                let id = (self.build_view)(SourceViewRequest::FileView(spec));
                Ok(BlockLayout::Leaf(IrLeaf::SourceView(id)))
            },
        }
    }
}

/// What compiling a layout came to.
#[derive(Debug)]
pub struct CompiledLayout {
    pub layout: LayoutIr,
    pub refresh_after_ms: Option<u64>,
}

impl<'a, F: Fn(&str, &str) -> Vec<InlineSyntaxSpan>, V: Fn(SourceViewRequest) -> u64>
    CompileSources<'a, F, V> {
    /// Compiles a layout; the soonest delay that it asks to be drawn again after goes
    /// into `refresh_after_ms`, unless a sooner one is there. Of a layout that does not
    /// compile, the delays that were come upon before stay there.
    pub fn compile_layout_ir_with_cache(
        &self,
        layout: &LuaLayout,
        inline_syntax: &mut InlineSyntaxCache,
        refresh_after_ms: &mut Option<u64>,
    ) -> (r: Result<LayoutIr, CompileError>)
        requires
            self.wf(),
            self.admits(*old(inline_syntax)),
        ensures
            self.admits(*final(inline_syntax)),
            self.leaves(
                *old(inline_syntax),
                layout_lookups(self.env(), *layout),
                *final(inline_syntax),
            ),
            *final(refresh_after_ms) == earliest(
                *old(refresh_after_ms),
                reached_delay(self.env(), *layout),
            ),
            match r {
                Ok(ir) => {
                    &&& layout_error(self.env(), *layout) is None
                    &&& compiles_to(self.env(), *layout, ir)
                    &&& *final(refresh_after_ms) == earliest(
                        *old(refresh_after_ms),
                        layout_delay(*layout),
                    )
                },
                Err(error) => layout_error(self.env(), *layout) == Some(error),
            },
        decreases layout,
    {
        proof {
            lemma_all_delays_reached(self.env(), *layout);
        }
        match layout {
            BlockLayout::Empty => Ok(BlockLayout::Empty),
            BlockLayout::Leaf(leaf) => self.compile_leaf(leaf, inline_syntax),
            BlockLayout::Vbox(items) => {
                let mut compiled: Vec<LayoutIr> = Vec::new();
                let mut i: usize = 0;
                let ghost delay = *refresh_after_ms;
                proof {
                    assert(stack_error(self.env(), items@.take(0)) is None);
                    assert(stack_reached_delay(self.env(), items@.take(0)) is None);
                    assert(stack_lookups(self.env(), items@.take(0)) =~= Seq::empty());
                    assert(items@.take(items@.len() as int) =~= items@);
                }
                while i < items.len()
                    invariant
                        i <= items@.len(),
                        self.wf(),
                        self.admits(*inline_syntax),
                        self.leaves(
                            *old(inline_syntax),
                            stack_lookups(self.env(), items@.take(i as int)),
                            *inline_syntax,
                        ),
                        *layout == LuaLayout::Vbox(*items),
                        items@.take(items@.len() as int) == items@,
                        decreases_to!(layout => items@),
                        delay == *old(refresh_after_ms),
                        compiled@.len() == i,
                        stack_error(self.env(), items@.take(i as int)) is None,
                        *refresh_after_ms == earliest(
                            delay,
                            stack_reached_delay(self.env(), items@.take(i as int)),
                        ),
                        forall|j: int|
                            0 <= j < i ==> compiles_to(
                                self.env(),
                                #[trigger] items@[j],
                                compiled@[j],
                            ),
                    decreases items@.len() - i,
                {
                    proof {
                        assert(decreases_to!(items@ => items@[i as int]));
                        assert(items@.take(i + 1).drop_last() =~= items@.take(i as int));
                    }
                    let ghost mid = *inline_syntax;
                    let compiled_item = self.compile_layout_ir_with_cache(
                        &items[i],
                        inline_syntax,
                        refresh_after_ms,
                    );
                    proof {
                        self.lemma_more(
                            *old(inline_syntax),
                            stack_lookups(self.env(), items@.take(i as int)),
                            mid,
                            layout_lookups(self.env(), items@[i as int]),
                            *inline_syntax,
                        );
                    }
                    match compiled_item {
                        Ok(ir) => {
                            compiled.push(ir);
                        },
                        Err(error) => {
                            proof {
                                lemma_stack_error(self.env(), items@, i + 1);
                                lemma_stack_lookups(self.env(), items@, i + 1);
                                lemma_stack_reached(self.env(), items@, i + 1);
                            }
                            return Err(error);
                        },
                    }
                    i += 1;
                }
                Ok(BlockLayout::Vbox(compiled))
            },
            BlockLayout::Hbox(items) => {
                let mut compiled: Vec<HboxItem<IrLeaf>> = Vec::new();
                let mut i: usize = 0;
                let ghost delay = *refresh_after_ms;
                proof {
                    assert(columns_error(self.env(), items@.take(0)) is None);
                    assert(columns_reached_delay(self.env(), items@.take(0)) is None);
                    assert(columns_lookups(self.env(), items@.take(0)) =~= Seq::empty());
                    assert(items@.take(items@.len() as int) =~= items@);
                }
                while i < items.len()
                    invariant
                        i <= items@.len(),
                        self.wf(),
                        self.admits(*inline_syntax),
                        self.leaves(
                            *old(inline_syntax),
                            columns_lookups(self.env(), items@.take(i as int)),
                            *inline_syntax,
                        ),
                        *layout == LuaLayout::Hbox(*items),
                        items@.take(items@.len() as int) == items@,
                        decreases_to!(layout => items@),
                        delay == *old(refresh_after_ms),
                        compiled@.len() == i,
                        columns_error(self.env(), items@.take(i as int)) is None,
                        *refresh_after_ms == earliest(
                            delay,
                            columns_reached_delay(self.env(), items@.take(i as int)),
                        ),
                        forall|j: int|
                            0 <= j < i ==> {
                                &&& compiles_to(
                                    self.env(),
                                    (#[trigger] items@[j]).layout,
                                    compiled@[j].layout,
                                )
                                &&& compiled@[j].constraint == items@[j].constraint
                                &&& compiled@[j].copy_owner == items@[j].copy_owner
                            },
                    decreases items@.len() - i,
                {
                    proof {
                        assert(decreases_to!(items@ => items@[i as int]));
                        assert(decreases_to!(items@[i as int] => items@[i as int].layout));
                        assert(items@.take(i + 1).drop_last() =~= items@.take(i as int));
                    }
                    let ghost mid = *inline_syntax;
                    let compiled_item = self.compile_layout_ir_with_cache(
                        &items[i].layout,
                        inline_syntax,
                        refresh_after_ms,
                    );
                    proof {
                        self.lemma_more(
                            *old(inline_syntax),
                            columns_lookups(self.env(), items@.take(i as int)),
                            mid,
                            layout_lookups(self.env(), items@[i as int].layout),
                            *inline_syntax,
                        );
                    }
                    match compiled_item {
                        Ok(ir) => {
                            compiled.push(
                                HboxItem {
                                    constraint: items[i].constraint,
                                    layout: ir,
                                    copy_owner: items[i].copy_owner,
                                },
                            );
                        },
                        Err(error) => {
                            proof {
                                lemma_columns_error(self.env(), items@, i + 1);
                                lemma_columns_lookups(self.env(), items@, i + 1);
                                lemma_columns_reached(self.env(), items@, i + 1);
                            }
                            return Err(error);
                        },
                    }
                    i += 1;
                }
                Ok(BlockLayout::Hbox(compiled))
            },
            BlockLayout::Gutter { child, spec } => {
                match self.compile_layout_ir_with_cache(child, inline_syntax, refresh_after_ms) {
                    Ok(ir) => Ok(
                        BlockLayout::Gutter { child: Box::new(ir), spec: copy_gutter(spec) },
                    ),
                    Err(error) => Err(error),
                }
            },
            BlockLayout::RowPrefix { child, spec } => {
                match self.compile_layout_ir_with_cache(child, inline_syntax, refresh_after_ms) {
                    Ok(ir) => Ok(
                        BlockLayout::RowPrefix { child: Box::new(ir), spec: copy_row_prefix(spec) },
                    ),
                    Err(error) => Err(error),
                }
            },
            BlockLayout::Panel { child, spec } => {
                match self.compile_layout_ir_with_cache(child, inline_syntax, refresh_after_ms) {
                    Ok(ir) => Ok(BlockLayout::Panel { child: Box::new(ir), spec: copy_panel(spec) }),
                    Err(error) => Err(error),
                }
            },
            BlockLayout::Style { child, spec } => {
                match self.compile_layout_ir_with_cache(child, inline_syntax, refresh_after_ms) {
                    Ok(ir) => Ok(BlockLayout::Style { child: Box::new(ir), spec: copy_style(spec) }),
                    Err(error) => Err(error),
                }
            },
            BlockLayout::Cap { child, spec } => {
                match self.compile_layout_ir_with_cache(child, inline_syntax, refresh_after_ms) {
                    Ok(ir) => Ok(BlockLayout::Cap { child: Box::new(ir), spec: *spec }),
                    Err(error) => Err(error),
                }
            },
            BlockLayout::Refresh { child, spec } => {
                *refresh_after_ms = earliest_delay(*refresh_after_ms, Some(spec.after_ms));
                self.compile_layout_ir_with_cache(child, inline_syntax, refresh_after_ms)
            },
        }
    }

    /// Compiles a layout; what does not compile becomes a line that names `kind`, and
    /// the error in words.
    pub fn compile_node(
        &self,
        layout: &LuaLayout,
        kind: &str,
        index: usize,
        inline_syntax: &mut InlineSyntaxCache,
    ) -> (r: (CompiledLayout, Option<String>))
        requires
            self.wf(),
            self.admits(*old(inline_syntax)),
        ensures
            self.admits(*final(inline_syntax)),
            self.leaves(
                *old(inline_syntax),
                layout_lookups(self.env(), *layout),
                *final(inline_syntax),
            ),
            node_compiles(self.env(), *layout, kind@, r.0),
            match layout_error(self.env(), *layout) {
                None => r.1 is None,
                Some(error) => r.1 is Some && r.1->0@ == node_error(kind@, index as nat, error),
            },
    {
        let mut refresh_after_ms: Option<u64> = None;
        match self.compile_layout_ir_with_cache(layout, inline_syntax, &mut refresh_after_ms) {
            Ok(layout) => (CompiledLayout { layout, refresh_after_ms }, None),
            Err(error) => {
                let mut content = String::from_str(kind);
                content.append(" render error");
                let layout = BlockLayout::Leaf(
                    IrLeaf::Text(
                        TextSpec {
                            content,
                            hl_group: Some(String::from_str("ErrorMsg")),
                            ansi: false,
                        },
                    ),
                );
                let mut message = String::from_str("transcript render `");
                message.append(kind);
                message.append("` #");
                message.append(decimal_text(index as u64).as_str());
                message.append(": compile layout IR: ");
                message.append(error.text().as_str());
                (CompiledLayout { layout, refresh_after_ms: None }, Some(message))
            },
        }
    }

    /// Highlights the runs and lines of a compiled layout.
    pub fn compile_layout_syntax(&self, layout: &mut LayoutIr, inline_syntax: &mut InlineSyntaxCache)
        requires
            self.wf(),
            self.admits(*old(inline_syntax)),
        ensures
            self.admits(*final(inline_syntax)),
            self.leaves(*old(inline_syntax), ir_lookups(*old(layout)), *final(inline_syntax)),
            syntax_compiled(self.env(), *old(layout), *final(layout)),
        decreases *old(layout),
    {
        match layout {
            BlockLayout::Empty => {},
            BlockLayout::Leaf(leaf) => match leaf {
                IrLeaf::Runs(spec) => {
                    spec.syntax_highlights = self.compile_styled_syntax(
                        &spec.lines,
                        inline_syntax,
                    );
                },
                IrLeaf::Line(spec) => {
                    spec.syntax_highlights = self.compile_span_syntax(&spec.spans, inline_syntax);
                },
                _ => {},
            },
            BlockLayout::Vbox(items) => {
                let ghost before = items@;
                let mut i: usize = 0;
                proof {
                    assert(stack_ir_lookups(before.take(0)) =~= Seq::empty());
                    assert(before.take(before.len() as int) =~= before);
                }
                while i < items.len()
                    invariant
                        i <= items@.len(),
                        items@.len() == before.len(),
                        self.wf(),
                        self.admits(*inline_syntax),
                        before.take(before.len() as int) == before,
                        self.leaves(
                            *old(inline_syntax),
                            stack_ir_lookups(before.take(i as int)),
                            *inline_syntax,
                        ),
                        decreases_to!(*old(layout) => before),
                        forall|j: int|
                            0 <= j < i ==> syntax_compiled(
                                self.env(),
                                #[trigger] before[j],
                                items@[j],
                            ),
                        forall|j: int| i <= j < items@.len() ==> items@[j] == before[j],
                    decreases items@.len() - i,
                {
                    proof {
                        assert(decreases_to!(before => before[i as int]));
                    }
                    let ghost mid = *inline_syntax;
                    self.compile_layout_syntax(&mut items[i], inline_syntax);
                    proof {
                        assert(before.take(i + 1).drop_last() =~= before.take(i as int));
                        self.lemma_more(
                            *old(inline_syntax),
                            stack_ir_lookups(before.take(i as int)),
                            mid,
                            ir_lookups(before[i as int]),
                            *inline_syntax,
                        );
                    }
                    i += 1;
                }
            },
            BlockLayout::Hbox(items) => {
                let ghost before = items@;
                let mut i: usize = 0;
                proof {
                    assert(columns_ir_lookups(before.take(0)) =~= Seq::empty());
                    assert(before.take(before.len() as int) =~= before);
                }
                while i < items.len()
                    invariant
                        i <= items@.len(),
                        items@.len() == before.len(),
                        self.wf(),
                        self.admits(*inline_syntax),
                        before.take(before.len() as int) == before,
                        self.leaves(
                            *old(inline_syntax),
                            columns_ir_lookups(before.take(i as int)),
                            *inline_syntax,
                        ),
                        decreases_to!(*old(layout) => before),
                        forall|j: int|
                            0 <= j < i ==> {
                                &&& syntax_compiled(
                                    self.env(),
                                    (#[trigger] before[j]).layout,
                                    items@[j].layout,
                                )
                                &&& items@[j].constraint == before[j].constraint
                                &&& items@[j].copy_owner == before[j].copy_owner
                            },
                        forall|j: int| i <= j < items@.len() ==> items@[j] == before[j],
                    decreases items@.len() - i,
                {
                    proof {
                        assert(decreases_to!(before => before[i as int]));
                        assert(decreases_to!(before[i as int] => before[i as int].layout));
                    }
                    let ghost mid = *inline_syntax;
                    self.compile_layout_syntax(&mut items[i].layout, inline_syntax);
                    proof {
                        assert(before.take(i + 1).drop_last() =~= before.take(i as int));
                        self.lemma_more(
                            *old(inline_syntax),
                            columns_ir_lookups(before.take(i as int)),
                            mid,
                            ir_lookups(before[i as int].layout),
                            *inline_syntax,
                        );
                    }
                    i += 1;
                }
            },
            BlockLayout::Gutter { child, .. } => self.compile_layout_syntax(child, inline_syntax),
            BlockLayout::RowPrefix { child, .. } => self.compile_layout_syntax(
                child,
                inline_syntax,
            ),
            BlockLayout::Panel { child, .. } => self.compile_layout_syntax(child, inline_syntax),
            BlockLayout::Style { child, .. } => self.compile_layout_syntax(child, inline_syntax),
            BlockLayout::Cap { child, .. } => self.compile_layout_syntax(child, inline_syntax),
            BlockLayout::Refresh { child, .. } => self.compile_layout_syntax(child, inline_syntax),
        }
    }
}

/// `after` is `before` with the highlights of its runs and lines as they are found now.
pub open spec fn syntax_compiled(env: CompileEnv, before: LayoutIr, after: LayoutIr) -> bool
    decreases before,
{
    match (before, after) {
        (BlockLayout::Leaf(x), BlockLayout::Leaf(y)) => match (x, y) {
            (IrLeaf::Runs(x), IrLeaf::Runs(y)) => {
                &&& y.lines == x.lines
                &&& y.hl_group == x.hl_group
                &&& y.continuation_indent == x.continuation_indent
                &&& syntax_of_lines(env, x.lines@, y.syntax_highlights)
            },
            (IrLeaf::Line(x), IrLeaf::Line(y)) => {
                &&& y.spans == x.spans
                &&& y.hl_group == x.hl_group
                &&& syntax_of_spans(env, x.spans@, y.syntax_highlights)
            },
            (IrLeaf::Runs(_), _) | (IrLeaf::Line(_), _) => false,
            _ => x == y,
        },
        (BlockLayout::Vbox(x), BlockLayout::Vbox(y)) => {
            &&& x@.len() == y@.len()
            &&& forall|i: int| 0 <= i < x@.len() ==> syntax_compiled(env, #[trigger] x@[i], y@[i])
        },
        (BlockLayout::Hbox(x), BlockLayout::Hbox(y)) => {
            &&& x@.len() == y@.len()
            &&& forall|i: int|
                0 <= i < x@.len() ==> {
                    &&& syntax_compiled(env, (#[trigger] x@[i]).layout, y@[i].layout)
                    &&& y@[i].constraint == x@[i].constraint
                    &&& y@[i].copy_owner == x@[i].copy_owner
                }
        },
        (
            BlockLayout::Gutter { child: x, spec: p },
            BlockLayout::Gutter { child: y, spec: q },
        ) => syntax_compiled(env, *x, *y) && p == q,
        (
            BlockLayout::RowPrefix { child: x, spec: p },
            BlockLayout::RowPrefix { child: y, spec: q },
        ) => syntax_compiled(env, *x, *y) && p == q,
        (
            BlockLayout::Panel { child: x, spec: p },
            BlockLayout::Panel { child: y, spec: q },
        ) => syntax_compiled(env, *x, *y) && p == q,
        (
            BlockLayout::Style { child: x, spec: p },
            BlockLayout::Style { child: y, spec: q },
        ) => syntax_compiled(env, *x, *y) && p == q,
        (BlockLayout::Cap { child: x, spec: p }, BlockLayout::Cap { child: y, spec: q }) => {
            syntax_compiled(env, *x, *y) && p == q
        },
        (
            BlockLayout::Refresh { child: x, spec: p },
            BlockLayout::Refresh { child: y, spec: q },
        ) => syntax_compiled(env, *x, *y) && p == q,
        (BlockLayout::Empty, BlockLayout::Empty) => true,
        _ => false,
    }
}

/// `compiled` is what a node's layout compiles to, or the line that says that it does
/// not compile.
pub open spec fn node_compiles(
    env: CompileEnv,
    layout: LuaLayout,
    kind: Seq<char>,
    compiled: CompiledLayout,
) -> bool {
    if layout_error(env, layout) is None {
        &&& compiles_to(env, layout, compiled.layout)
        &&& compiled.refresh_after_ms == layout_delay(layout)
    } else {
        &&& compiled.refresh_after_ms is None
        &&& compiled.layout matches BlockLayout::Leaf(IrLeaf::Text(text))
        &&& text.content@ == kind + " render error"@
        &&& text.hl_group is Some
        &&& text.hl_group->0@ == "ErrorMsg"@
        &&& !text.ansi
    }
}

/// What is recorded of a node's layout that does not compile.
pub open spec fn node_error(kind: Seq<char>, index: nat, error: CompileError) -> Seq<char> {
    "transcript render `"@ + kind + "` #"@ + decimal(index) + ": compile layout IR: "@
        + error.message()
}

proof fn lemma_stack_error(env: CompileEnv, items: Seq<LuaLayout>, n: int)
    requires
        0 <= n <= items.len(),
        stack_error(env, items.take(n)) is Some,
    ensures
        stack_error(env, items) == stack_error(env, items.take(n)),
    decreases items.len(),
{
    if n == items.len() {
        assert(items.take(n) =~= items);
    } else {
        assert(items.drop_last().take(n) =~= items.take(n));
        lemma_stack_error(env, items.drop_last(), n);
    }
}

/// Of what a layout is compiled against, only the contents and whether there is a group
/// decide where it fails and what is looked up.
pub(crate) proof fn lemma_same_lookups(a: CompileEnv, b: CompileEnv, layout: LuaLayout)
    requires
        a.contents == b.contents,
        a.group is Some == b.group is Some,
    ensures
        layout_error(a, layout) == layout_error(b, layout),
        layout_lookups(a, layout) == layout_lookups(b, layout),
    decreases layout, 1nat,
{
    match layout {
        BlockLayout::Empty => {},
        BlockLayout::Leaf(_) => {},
        BlockLayout::Vbox(items) => lemma_same_stack_lookups(a, b, items@),
        BlockLayout::Hbox(items) => lemma_same_columns_lookups(a, b, items@),
        BlockLayout::Gutter { child, .. } => lemma_same_lookups(a, b, *child),
        BlockLayout::RowPrefix { child, .. } => lemma_same_lookups(a, b, *child),
        BlockLayout::Panel { child, .. } => lemma_same_lookups(a, b, *child),
        BlockLayout::Style { child, .. } => lemma_same_lookups(a, b, *child),
        BlockLayout::Cap { child, .. } => lemma_same_lookups(a, b, *child),
        BlockLayout::Refresh { child, .. } => lemma_same_lookups(a, b, *child),
    }
}

proof fn lemma_same_stack_lookups(a: CompileEnv, b: CompileEnv, items: Seq<LuaLayout>)
    requires
        a.contents == b.contents,
        a.group is Some == b.group is Some,
    ensures
        stack_error(a, items) == stack_error(b, items),
        stack_lookups(a, items) == stack_lookups(b, items),
    decreases items, 0nat,
{
    if items.len() > 0 {
        lemma_same_stack_lookups(a, b, items.drop_last());
        lemma_same_lookups(a, b, items.last());
    }
}

proof fn lemma_same_columns_lookups(a: CompileEnv, b: CompileEnv, items: Seq<HboxItem<LuaLeaf>>)
    requires
        a.contents == b.contents,
        a.group is Some == b.group is Some,
    ensures
        columns_error(a, items) == columns_error(b, items),
        columns_lookups(a, items) == columns_lookups(b, items),
    decreases items, 0nat,
{
    if items.len() > 0 {
        lemma_same_columns_lookups(a, b, items.drop_last());
        assert(decreases_to!(items => items.last()));
        assert(decreases_to!(items.last() => items.last().layout));
        lemma_same_lookups(a, b, items.last().layout);
    }
}

proof fn lemma_stack_lookups(env: CompileEnv, items: Seq<LuaLayout>, n: int)
    requires
        0 <= n <= items.len(),
        stack_error(env, items.take(n)) is Some,
    ensures
        stack_lookups(env, items) == stack_lookups(env, items.take(n)),
    decreases items.len(),
{
    if n == items.len() {
        assert(items.take(n) =~= items);
    } else {
        assert(items.drop_last().take(n) =~= items.take(n));
        lemma_stack_error(env, items.drop_last(), n);
        lemma_stack_lookups(env, items.drop_last(), n);
    }
}

proof fn lemma_columns_lookups(env: CompileEnv, items: Seq<HboxItem<LuaLeaf>>, n: int)
    requires
        0 <= n <= items.len(),
        columns_error(env, items.take(n)) is Some,
    ensures
        columns_lookups(env, items) == columns_lookups(env, items.take(n)),
    decreases items.len(),
{
    if n == items.len() {
        assert(items.take(n) =~= items);
    } else {
        assert(items.drop_last().take(n) =~= items.take(n));
        lemma_columns_error(env, items.drop_last(), n);
        lemma_columns_lookups(env, items.drop_last(), n);
    }
}

proof fn lemma_stack_reached(env: CompileEnv, items: Seq<LuaLayout>, n: int)
    requires
        0 <= n <= items.len(),
        stack_error(env, items.take(n)) is Some,
    ensures
        stack_reached_delay(env, items) == stack_reached_delay(env, items.take(n)),
    decreases items.len(),
{
    if n == items.len() {
        assert(items.take(n) =~= items);
    } else {
        assert(items.drop_last().take(n) =~= items.take(n));
        lemma_stack_error(env, items.drop_last(), n);
        lemma_stack_reached(env, items.drop_last(), n);
    }
}

proof fn lemma_columns_reached(env: CompileEnv, items: Seq<HboxItem<LuaLeaf>>, n: int)
    requires
        0 <= n <= items.len(),
        columns_error(env, items.take(n)) is Some,
    ensures
        columns_reached_delay(env, items) == columns_reached_delay(env, items.take(n)),
    decreases items.len(),
{
    if n == items.len() {
        assert(items.take(n) =~= items);
    } else {
        assert(items.drop_last().take(n) =~= items.take(n));
        lemma_columns_error(env, items.drop_last(), n);
        lemma_columns_reached(env, items.drop_last(), n);
    }
}

proof fn lemma_all_delays_reached(env: CompileEnv, layout: LuaLayout)
    ensures
        layout_error(env, layout) is None ==> reached_delay(env, layout) == layout_delay(layout),
    decreases layout, 1nat,
{
    match layout {
        BlockLayout::Vbox(items) => lemma_stack_delays_reached(env, items@),
        BlockLayout::Hbox(items) => lemma_column_delays_reached(env, items@),
        BlockLayout::Gutter { child, .. } => lemma_all_delays_reached(env, *child),
        BlockLayout::RowPrefix { child, .. } => lemma_all_delays_reached(env, *child),
        BlockLayout::Panel { child, .. } => lemma_all_delays_reached(env, *child),
        BlockLayout::Style { child, .. } => lemma_all_delays_reached(env, *child),
        BlockLayout::Cap { child, .. } => lemma_all_delays_reached(env, *child),
        BlockLayout::Refresh { child, .. } => lemma_all_delays_reached(env, *child),
        _ => {},
    }
}

proof fn lemma_stack_delays_reached(env: CompileEnv, items: Seq<LuaLayout>)
    ensures
        stack_error(env, items) is None ==> stack_reached_delay(env, items) == stack_delay(items),
    decreases items, 0nat,
{
    if items.len() > 0 {
        lemma_stack_delays_reached(env, items.drop_last());
        lemma_all_delays_reached(env, items.last());
    }
}

proof fn lemma_column_delays_reached(env: CompileEnv, items: Seq<HboxItem<LuaLeaf>>)
    ensures
        columns_error(env, items) is None ==> columns_reached_delay(env, items) == columns_delay(
            items,
        ),
    decreases items, 0nat,
{
    if items.len() > 0 {
        assert(decreases_to!(items => items.last()));
        assert(decreases_to!(items.last() => items.last().layout));
        lemma_column_delays_reached(env, items.drop_last());
        lemma_all_delays_reached(env, items.last().layout);
    }
}

proof fn lemma_no_span_lookups(spans: Seq<StyledSpan>, n: int)
    requires
        0 <= n <= spans.len(),
        forall|j: int| 0 <= j < n ==> !has_syntax(#[trigger] spans[j]),
    ensures
        span_lookups(spans, n) == Seq::<SyntaxLookup>::empty(),
    decreases n,
{
    if n > 0 {
        lemma_no_span_lookups(spans, n - 1);
    }
}

proof fn lemma_no_line_lookups(lines: Seq<Vec<StyledSpan>>, n: int)
    requires
        0 <= n <= lines.len(),
        forall|i: int, j: int|
            0 <= i < n && 0 <= j < lines[i]@.len() ==> !has_syntax(#[trigger] lines[i]@[j]),
    ensures
        line_lookups(lines, n) == Seq::<SyntaxLookup>::empty(),
    decreases n,
{
    if n > 0 {
        lemma_no_line_lookups(lines, n - 1);
        let spans = lines[n - 1]@;
        assert forall|j: int| 0 <= j < spans.len() implies !has_syntax(#[trigger] spans[j]) by {
            assert(!has_syntax(lines[n - 1]@[j]));
        }
        lemma_no_span_lookups(spans, spans.len() as int);
        assert(line_lookups(lines, n) =~= Seq::<SyntaxLookup>::empty());
    }
}

proof fn lemma_columns_error(env: CompileEnv, items: Seq<HboxItem<LuaLeaf>>, n: int)
    requires
        0 <= n <= items.len(),
        columns_error(env, items.take(n)) is Some,
    ensures
        columns_error(env, items) == columns_error(env, items.take(n)),
    decreases items.len(),
{
    if n == items.len() {
        assert(items.take(n) =~= items);
    } else {
        assert(items.drop_last().take(n) =~= items.take(n));
        lemma_columns_error(env, items.drop_last(), n);
    }
}

/// Whether a span is highlighted by a syntax of its own.
pub fn has_inline_syntax(span: &StyledSpan) -> (r: bool)
    ensures
        r == has_syntax(*span),
{
    span.selectable && span.syntax.is_some()
}

/// Whether any span is highlighted by a syntax of its own.
fn any_inline_syntax(spans: &Vec<StyledSpan>) -> (r: bool)
    ensures
        r == exists|j: int| 0 <= j < spans@.len() && has_syntax(#[trigger] spans@[j]),
{
    let mut i: usize = 0;
    while i < spans.len()
        invariant
            i <= spans@.len(),
            forall|j: int| 0 <= j < i ==> !has_syntax(#[trigger] spans@[j]),
        decreases spans@.len() - i,
    {
        if has_inline_syntax(&spans[i]) {
            return true;
        }
        i += 1;
    }
    false
}

proof fn lemma_spans_before(lines: Seq<Vec<StyledSpan>>, m: int, n: int)
    requires
        0 <= m <= n,
    ensures
        0 <= spans_before(lines, m) <= spans_before(lines, n),
    decreases n,
{
    if m < n {
        lemma_spans_before(lines, m, n - 1);
    } else if m > 0 {
        lemma_spans_before(lines, m - 1, m - 1);
    }
}

} // verus!
