//! Jobs that compile the layout of a transcript node.
use vstd::prelude::*;
use crate::compile::{
    compile_env, compiles_to, earliest, earliest_delay, ir_lookups, layout_delay, layout_error,
    layout_lookups, lemma_same_lookups, node_compiles, node_error, pure_builder, syntax_compiled,
    CompileEnv, CompileSources, CompiledLayout, LuaLayout, SourceViewRequest,
};
use crate::ir::{
    BlockLayout, InlineSyntaxSpan, IrLeaf, LayoutIr, LineSpec, RetainedInlineSyntax, StyledSpan,
};
use crate::ir_copy::same_layout;
use crate::keys::DisplayCacheKey;
use crate::syntax_cache::{
    lemma_more_lookups, lookups_leave, pure_highlighter, InlineSyntaxCache, SyntaxLookup,
};
use crate::text::texts;

verus! {

/// What the renderer wrote for a node, and the contents that belong to the node.
#[derive(Debug)]
pub struct NodeSource {
    pub layout: LuaLayout,
    pub kind: String,
    pub index: usize,
    pub contents: Vec<u64>,
}

/// What a job compiles.
#[derive(Debug)]
#[allow(inconsistent_fields)]
pub enum CompileJobSource {
    Node(NodeSource),
    Group { node: NodeSource, children: Vec<NodeSource> },
    /// A layout that only its highlights are missing of.
    Ready(LayoutIr),
}

/// A layout that is to be compiled for a node.
#[derive(Debug)]
pub struct CompileJob {
    pub id: u64,
    pub key: DisplayCacheKey,
    pub source: CompileJobSource,
}

/// The compiled layout of a node, when it is to be drawn again, and what did not
/// compile.
#[derive(Debug)]
pub struct CompiledJob {
    pub id: u64,
    pub key: DisplayCacheKey,
    pub layout: LayoutIr,
    pub refresh_at: Option<u64>,
    pub errors: Vec<String>,
}

/// A span of nothing in the default style.
pub open spec fn is_plain_empty_span(span: StyledSpan) -> bool {
    &&& span.text@.len() == 0
    &&& span.hl is None
    &&& span.fg is None
    &&& span.bg is None
    &&& !span.dim
    &&& !span.bold
    &&& !span.italic
    &&& span.syntax is None
    &&& span.selectable
}

/// An empty line.
pub open spec fn is_blank_line(layout: LayoutIr) -> bool {
    &&& layout matches BlockLayout::Leaf(IrLeaf::Line(line))
    &&& line.spans@.len() == 1
    &&& is_plain_empty_span(line.spans@[0])
    &&& line.hl_group is None
    &&& line.syntax_highlights.source_spans@.len() == 0
    &&& line.syntax_highlights.line_offsets@.len() == 0
}

/// An empty line.
pub fn blank_line_layout() -> (layout: LayoutIr)
    ensures
        is_blank_line(layout),
{
    let mut spans: Vec<StyledSpan> = Vec::new();
    spans.push(
        StyledSpan {
            text: String::new(),
            hl: None,
            fg: None,
            bg: None,
            dim: false,
            bold: false,
            italic: false,
            syntax: None,
            selectable: true,
        },
    );
    BlockLayout::Leaf(
        IrLeaf::Line(
            LineSpec {
                spans,
                hl_group: None,
                syntax_highlights: RetainedInlineSyntax {
                    source_spans: Vec::new(),
                    line_offsets: Vec::new(),
                },
            },
        ),
    )
}

/// What a node leaves in the record of errors.
pub open spec fn node_errors(env: CompileEnv, node: NodeSource) -> Seq<Seq<char>> {
    match layout_error(env, node.layout) {
        None => Seq::empty(),
        Some(error) => seq![node_error(node.kind@, node.index as nat, error)],
    }
}

/// What some nodes leave in the record of errors, each compiled by itself.
pub open spec fn children_errors<
    F: Fn(&str, &str) -> Vec<InlineSyntaxSpan>,
    V: Fn(SourceViewRequest) -> u64,
>(children: Seq<NodeSource>, highlight: F, build_view: V) -> Seq<Seq<char>>
    decreases children.len(),
{
    if children.len() == 0 {
        Seq::empty()
    } else {
        children_errors(children.drop_last(), highlight, build_view) + node_errors(
            compile_env(children.last().contents@, None, highlight, build_view),
            children.last(),
        )
    }
}

/// The soonest delay that some nodes ask to be drawn again after. A node that does not
/// compile asks for none.
pub open spec fn children_delay<
    F: Fn(&str, &str) -> Vec<InlineSyntaxSpan>,
    V: Fn(SourceViewRequest) -> u64,
>(children: Seq<NodeSource>, highlight: F, build_view: V) -> Option<u64>
    decreases children.len(),
{
    if children.len() == 0 {
        None
    } else {
        earliest(
            children_delay(children.drop_last(), highlight, build_view),
            node_delay(
                compile_env(children.last().contents@, None, highlight, build_view),
                children.last(),
            ),
        )
    }
}

/// The soonest delay that a node asks to be drawn again after, if it compiles.
pub open spec fn node_delay(env: CompileEnv, node: NodeSource) -> Option<u64> {
    if layout_error(env, node.layout) is None {
        layout_delay(node.layout)
    } else {
        None
    }
}

/// `layout` is what a node shows.
pub open spec fn node_shows(env: CompileEnv, node: NodeSource, layout: LayoutIr) -> bool {
    node_compiles(
        env,
        node.layout,
        node.kind@,
        (CompiledLayout { layout, refresh_after_ms: node_delay(env, node) }),
    )
}

/// `items` are what the children show, each after the first below an empty line.
pub open spec fn group_items<
    F: Fn(&str, &str) -> Vec<InlineSyntaxSpan>,
    V: Fn(SourceViewRequest) -> u64,
>(children: Seq<NodeSource>, highlight: F, build_view: V, items: Seq<LayoutIr>) -> bool {
    &&& items.len() == if children.len() == 0 {
        0
    } else {
        2 * children.len() - 1
    }
    &&& forall|i: int|
        0 <= i < children.len() ==> node_shows(
            compile_env((#[trigger] children[i]).contents@, None, highlight, build_view),
            children[i],
            items[2 * i],
        )
    &&& forall|k: int| 0 <= k < items.len() && k % 2 == 1 ==> is_blank_line(#[trigger] items[k])
}

/// `children` is a column of what the children of a group show, and `layout` is what the
/// group shows then.
pub open spec fn group_shows<
    F: Fn(&str, &str) -> Vec<InlineSyntaxSpan>,
    V: Fn(SourceViewRequest) -> u64,
>(
    node: NodeSource,
    nodes: Seq<NodeSource>,
    highlight: F,
    build_view: V,
    children: Vec<LayoutIr>,
    compiled: CompiledJob,
    now: u64,
) -> bool {
    let env = compile_env(
        Seq::empty(),
        Some(BlockLayout::Vbox(children)),
        highlight,
        build_view,
    );
    &&& group_items(nodes, highlight, build_view, children@)
    &&& node_shows(env, node, compiled.layout)
    &&& compiled.refresh_at == due(
        now,
        earliest(node_delay(env, node), children_delay(nodes, highlight, build_view)),
    )
    &&& texts(compiled.errors@) == children_errors(nodes, highlight, build_view) + node_errors(
        env,
        node,
    )
}

/// The moment after a delay, unless it is past the end of time.
pub open spec fn due(now: u64, delay: Option<u64>) -> Option<u64> {
    match delay {
        Some(delay) if now + delay <= u64::MAX => Some((now + delay) as u64),
        _ => None,
    }
}

/// `compiled` is what a job comes to at a moment.
pub open spec fn job_shows<
    F: Fn(&str, &str) -> Vec<InlineSyntaxSpan>,
    V: Fn(SourceViewRequest) -> u64,
>(job: CompileJob, highlight: F, build_view: V, now: u64, compiled: CompiledJob) -> bool {
    &&& compiled.id == job.id
    &&& compiled.key == job.key
    &&& match job.source {
        CompileJobSource::Node(node) => {
            let env = compile_env(node.contents@, None, highlight, build_view);
            &&& node_shows(env, node, compiled.layout)
            &&& compiled.refresh_at == due(now, node_delay(env, node))
            &&& texts(compiled.errors@) == node_errors(env, node)
        },
        CompileJobSource::Group { node, children } => exists|column: Vec<LayoutIr>| #[trigger]
            group_shows(node, children@, highlight, build_view, column, compiled, now),
        CompileJobSource::Ready(layout) => {
            &&& syntax_compiled(
                compile_env(Seq::empty(), None, highlight, build_view),
                layout,
                compiled.layout,
            )
            &&& compiled.refresh_at is None
            &&& compiled.errors@.len() == 0
        },
    }
}

/// What is looked up to compile some nodes, each by itself.
pub open spec fn children_lookups<
    F: Fn(&str, &str) -> Vec<InlineSyntaxSpan>,
    V: Fn(SourceViewRequest) -> u64,
>(children: Seq<NodeSource>, highlight: F, build_view: V) -> Seq<SyntaxLookup>
    decreases children.len(),
{
    if children.len() == 0 {
        Seq::empty()
    } else {
        children_lookups(children.drop_last(), highlight, build_view) + layout_lookups(
            compile_env(children.last().contents@, None, highlight, build_view),
            children.last().layout,
        )
    }
}

/// What is looked up to compile a job. The node of a group comes after its children.
pub open spec fn job_lookups<
    F: Fn(&str, &str) -> Vec<InlineSyntaxSpan>,
    V: Fn(SourceViewRequest) -> u64,
>(job: CompileJob, highlight: F, build_view: V) -> Seq<SyntaxLookup> {
    match job.source {
        CompileJobSource::Node(node) => layout_lookups(
            compile_env(node.contents@, None, highlight, build_view),
            node.layout,
        ),
        CompileJobSource::Group { node, children } => children_lookups(
            children@,
            highlight,
            build_view,
        ) + layout_lookups(
            compile_env(Seq::empty(), Some(LayoutIr::Empty), highlight, build_view),
            node.layout,
        ),
        CompileJobSource::Ready(layout) => ir_lookups(layout),
    }
}

impl CompileJob {
    /// Compiles the job's layout.
    pub fn compile<
        F: Fn(&str, &str) -> Vec<InlineSyntaxSpan>,
        V: Fn(SourceViewRequest) -> u64,
    >(
        self,
        now: u64,
        theme_revision: u64,
        highlight: &F,
        build_view: &V,
        inline_syntax: &mut InlineSyntaxCache,
    ) -> (compiled: CompiledJob)
        requires
            pure_highlighter(*highlight),
            pure_builder(*build_view),
            old(inline_syntax).wf(),
            old(inline_syntax).agrees(*highlight, theme_revision),
        ensures
            final(inline_syntax).wf(),
            final(inline_syntax).agrees(*highlight, theme_revision),
            lookups_leave(
                *highlight,
                theme_revision,
                *old(inline_syntax),
                job_lookups(self, *highlight, *build_view),
                *final(inline_syntax),
            ),
            job_shows(self, *highlight, *build_view, now, compiled),
    {
        let no_contents: Vec<u64> = Vec::new();
        proof {
            assert(no_contents@ =~= Seq::<u64>::empty());
        }
        match self.source {
            CompileJobSource::Node(node) => {
                let sources = CompileSources {
                    contents: &node.contents,
                    group_children: None,
                    theme_revision,
                    highlight,
                    build_view,
                };
                let (compiled, error) = sources.compile_node(
                    &node.layout,
                    node.kind.as_str(),
                    node.index,
                    inline_syntax,
                );
                let mut errors: Vec<String> = Vec::new();
                push_error(&mut errors, error);
                proof {
                    assert(texts(errors@) =~= node_errors(sources.env(), node));
                }
                CompiledJob {
                    id: self.id,
                    key: self.key,
                    layout: compiled.layout,
                    refresh_at: due_at(now, compiled.refresh_after_ms),
                    errors,
                }
            },
            CompileJobSource::Group { node, children } => {
                let mut child_layouts: Vec<LayoutIr> = Vec::new();
                let mut refresh_after_ms: Option<u64> = None;
                let mut errors: Vec<String> = Vec::new();
                let mut i: usize = 0;
                proof {
                    assert(children@.take(0) =~= Seq::<NodeSource>::empty());
                    assert(texts(errors@) =~= Seq::<Seq<char>>::empty());
                    assert(children_errors(
                        children@.take(0),
                        *highlight,
                        *build_view,
                    ) =~= Seq::<Seq<char>>::empty());
                    assert(children_lookups(
                        children@.take(0),
                        *highlight,
                        *build_view,
                    ) =~= Seq::<SyntaxLookup>::empty());
                }
                while i < children.len()
                    invariant
                        i <= children@.len(),
                        pure_highlighter(*highlight),
                        pure_builder(*build_view),
                        inline_syntax.wf(),
                        inline_syntax.agrees(*highlight, theme_revision),
                        lookups_leave(
                            *highlight,
                            theme_revision,
                            *old(inline_syntax),
                            children_lookups(children@.take(i as int), *highlight, *build_view),
                            *inline_syntax,
                        ),
                        group_items(
                            children@.take(i as int),
                            *highlight,
                            *build_view,
                            child_layouts@,
                        ),
                        refresh_after_ms == children_delay(
                            children@.take(i as int),
                            *highlight,
                            *build_view,
                        ),
                        texts(errors@) == children_errors(
                            children@.take(i as int),
                            *highlight,
                            *build_view,
                        ),
                    decreases children@.len() - i,
                {
                    let child = &children[i];
                    let sources = CompileSources {
                        contents: &child.contents,
                        group_children: None,
                        theme_revision,
                        highlight,
                        build_view,
                    };
                    let ghost mid = *inline_syntax;
                    let (compiled, error) = sources.compile_node(
                        &child.layout,
                        child.kind.as_str(),
                        child.index,
                        inline_syntax,
                    );
                    let ghost before = child_layouts@;
                    let ghost errors_before = errors@;
                    if child_layouts.len() > 0 {
                        child_layouts.push(blank_line_layout());
                    }
                    child_layouts.push(compiled.layout);
                    push_error(&mut errors, error);
                    refresh_after_ms = earliest_delay(refresh_after_ms, compiled.refresh_after_ms);
                    proof {
                        let old_nodes = children@.take(i as int);
                        let nodes = children@.take(i + 1);
                        assert(nodes.drop_last() =~= old_nodes);
                        lemma_more_lookups(
                            *highlight,
                            theme_revision,
                            *old(inline_syntax),
                            children_lookups(old_nodes, *highlight, *build_view),
                            mid,
                            layout_lookups(sources.env(), child.layout),
                            *inline_syntax,
                        );
                        assert(texts(errors@) =~= texts(errors_before) + node_errors(
                            sources.env(),
                            *child,
                        ));
                        assert forall|j: int| 0 <= j < nodes.len() implies node_shows(
                            compile_env(
                                (#[trigger] nodes[j]).contents@,
                                None,
                                *highlight,
                                *build_view,
                            ),
                            nodes[j],
                            child_layouts@[2 * j],
                        ) by {
                            if j < i {
                                assert(old_nodes[j] == nodes[j]);
                                assert(child_layouts@[2 * j] == before[2 * j]);
                            }
                        }
                        assert forall|k: int| 0 <= k < child_layouts@.len() && k % 2 == 1 implies
                            is_blank_line(#[trigger] child_layouts@[k]) by {
                            if k < before.len() {
                                assert(child_layouts@[k] == before[k]);
                            }
                        }
                    }
                    i += 1;
                }
                proof {
                    assert(children@.take(i as int) =~= children@);
                }
                let ghost column = child_layouts;
                let ghost child_errors = errors@;
                let group = BlockLayout::Vbox(child_layouts);
                let sources = CompileSources {
                    contents: &no_contents,
                    group_children: Some(&group),
                    theme_revision,
                    highlight,
                    build_view,
                };
                let ghost mid = *inline_syntax;
                let (compiled, error) = sources.compile_node(
                    &node.layout,
                    node.kind.as_str(),
                    node.index,
                    inline_syntax,
                );
                proof {
                    let env = compile_env(
                        Seq::empty(),
                        Some(LayoutIr::Empty),
                        *highlight,
                        *build_view,
                    );
                    lemma_same_lookups(sources.env(), env, node.layout);
                    lemma_more_lookups(
                        *highlight,
                        theme_revision,
                        *old(inline_syntax),
                        children_lookups(children@, *highlight, *build_view),
                        mid,
                        layout_lookups(env, node.layout),
                        *inline_syntax,
                    );
                }
                push_error(&mut errors, error);
                let refresh_after_ms = earliest_delay(compiled.refresh_after_ms, refresh_after_ms);
                let job = CompiledJob {
                    id: self.id,
                    key: self.key,
                    layout: compiled.layout,
                    refresh_at: due_at(now, refresh_after_ms),
                    errors,
                };
                proof {
                    assert(texts(job.errors@) =~= texts(child_errors) + node_errors(
                        sources.env(),
                        node,
                    ));
                    assert(group_shows(
                        node,
                        children@,
                        *highlight,
                        *build_view,
                        column,
                        job,
                        now,
                    ));
                }
                job
            },
            CompileJobSource::Ready(layout) => {
                let mut layout = layout;
                let sources = CompileSources {
                    contents: &no_contents,
                    group_children: None,
                    theme_revision,
                    highlight,
                    build_view,
                };
                sources.compile_layout_syntax(&mut layout, inline_syntax);
                CompiledJob {
                    id: self.id,
                    key: self.key,
                    layout,
                    refresh_at: None,
                    errors: Vec::new(),
                }
            },
        }
    }
}

/// The contents that a block has, and those of its tool.
pub fn block_content_sources(own: &Vec<u64>, of_tool: Option<&Vec<u64>>) -> (contents: Vec<u64>)
    ensures
        contents@ == own@ + (match of_tool {
            Some(more) => more@,
            None => Seq::empty(),
        }),
{
    let mut contents: Vec<u64> = Vec::new();
    contents.extend_from_slice(own.as_slice());
    if let Some(more) = of_tool {
        contents.extend_from_slice(more.as_slice());
    }
    proof {
        assert(contents@ =~= own@ + (match of_tool {
            Some(more) => more@,
            None => Seq::empty(),
        }));
    }
    contents
}

/// `at` is where child `i` of a group is that begins at block `start`.
pub open spec fn child_index(start: usize, i: int) -> usize {
    start.saturating_add(i as usize)
}

/// Those that are there, in order.
pub open spec fn present(found: Seq<Option<NodeSource>>) -> Seq<NodeSource>
    decreases found.len(),
{
    if found.len() == 0 {
        Seq::empty()
    } else {
        match found.last() {
            Some(node) => present(found.drop_last()).push(node),
            None => present(found.drop_last()),
        }
    }
}

/// `found` is what is known of the children of a group.
pub open spec fn children_found<N: Fn(u64, usize) -> Option<NodeSource>>(
    node_of: N,
    children: Seq<u64>,
    start: usize,
    found: Seq<Option<NodeSource>>,
) -> bool {
    &&& found.len() == children.len()
    &&& forall|i: int|
        0 <= i < children.len() ==> call_ensures(
            node_of,
            (children[i], child_index(start, i)),
            #[trigger] found[i],
        )
}

/// The sources of the children of a group that begins at block `start`. A child whose block
/// is gone has none.
pub fn group_child_compile_sources<N: Fn(u64, usize) -> Option<NodeSource>>(
    children: &Vec<u64>,
    start: usize,
    node_of: &N,
) -> (sources: Vec<NodeSource>)
    requires
        forall|id: u64, index: usize| #[trigger] call_requires(*node_of, (id, index)),
    ensures
        exists|found: Seq<Option<NodeSource>>| #[trigger]
            children_found(*node_of, children@, start, found) && sources@ == present(found),
{
    let mut sources: Vec<NodeSource> = Vec::new();
    let ghost mut found: Seq<Option<NodeSource>> = Seq::empty();
    let mut i: usize = 0;
    while i < children.len()
        invariant
            i <= children@.len(),
            found.len() == i,
            forall|id: u64, index: usize| #[trigger] call_requires(*node_of, (id, index)),
            forall|k: int|
                0 <= k < i ==> call_ensures(
                    *node_of,
                    (children@[k], child_index(start, k)),
                    #[trigger] found[k],
                ),
            sources@ == present(found),
        decreases children@.len() - i,
    {
        let node = node_of(children[i], start.saturating_add(i));
        let ghost before = found;
        proof {
            found = found.push(node);
            assert(found.drop_last() =~= before);
        }
        if let Some(node) = node {
            sources.push(node);
        }
        i += 1;
    }
    proof {
        assert(children_found(*node_of, children@, start, found));
    }
    sources
}

fn push_error(errors: &mut Vec<String>, error: Option<String>)
    ensures
        final(errors)@ == match error {
            Some(error) => old(errors)@.push(error),
            None => old(errors)@,
        },
{
    if let Some(error) = error {
        errors.push(error);
    }
}

fn due_at(now: u64, delay: Option<u64>) -> (at: Option<u64>)
    ensures
        at == due(now, delay),
{
    match delay {
        Some(delay) => now.checked_add(delay),
        None => None,
    }
}

/// No node of the layout asks to be drawn again.
pub open spec fn never_refreshes(layout: LayoutIr) -> bool
    decreases layout,
{
    match layout {
        BlockLayout::Empty => true,
        BlockLayout::Leaf(_) => true,
        BlockLayout::Vbox(items) => forall|i: int|
            0 <= i < items@.len() ==> never_refreshes(#[trigger] items@[i]),
        BlockLayout::Hbox(items) => forall|i: int|
            0 <= i < items@.len() ==> never_refreshes((#[trigger] items@[i]).layout),
        BlockLayout::Gutter { child, .. } => never_refreshes(*child),
        BlockLayout::RowPrefix { child, .. } => never_refreshes(*child),
        BlockLayout::Panel { child, .. } => never_refreshes(*child),
        BlockLayout::Style { child, .. } => never_refreshes(*child),
        BlockLayout::Cap { child, .. } => never_refreshes(*child),
        BlockLayout::Refresh { .. } => false,
    }
}

proof fn lemma_copy_never_refreshes(a: LayoutIr, b: LayoutIr)
    requires
        same_layout(a, b),
        never_refreshes(b),
    ensures
        never_refreshes(a),
    decreases a,
{
    match (a, b) {
        (BlockLayout::Vbox(x), BlockLayout::Vbox(y)) => {
            assert forall|i: int| 0 <= i < x@.len() implies never_refreshes(#[trigger] x@[i]) by {
                assert(same_layout(x@[i], y@[i]));
                assert(never_refreshes(y@[i]));
                lemma_copy_never_refreshes(x@[i], y@[i]);
            }
        },
        (BlockLayout::Hbox(x), BlockLayout::Hbox(y)) => {
            assert forall|i: int| 0 <= i < x@.len() implies never_refreshes(
                (#[trigger] x@[i]).layout,
            ) by {
                assert(same_layout(x@[i].layout, y@[i].layout));
                assert(never_refreshes(y@[i].layout));
                assert(decreases_to!(x@ => x@[i]));
                assert(decreases_to!(x@[i] => x@[i].layout));
                lemma_copy_never_refreshes(x@[i].layout, y@[i].layout);
            }
        },
        (BlockLayout::Gutter { child: x, .. }, BlockLayout::Gutter { child: y, .. }) => {
            lemma_copy_never_refreshes(*x, *y)
        },
        (BlockLayout::RowPrefix { child: x, .. }, BlockLayout::RowPrefix { child: y, .. }) => {
            lemma_copy_never_refreshes(*x, *y)
        },
        (BlockLayout::Panel { child: x, .. }, BlockLayout::Panel { child: y, .. }) => {
            lemma_copy_never_refreshes(*x, *y)
        },
        (BlockLayout::Style { child: x, .. }, BlockLayout::Style { child: y, .. }) => {
            lemma_copy_never_refreshes(*x, *y)
        },
        (BlockLayout::Cap { child: x, .. }, BlockLayout::Cap { child: y, .. }) => {
            lemma_copy_never_refreshes(*x, *y)
        },
        _ => {},
    }
}

/// A compiled layout asks for nothing any more: the delays that its source asked for are
/// in the soonest one that compiling gives back.
pub proof fn compiling_takes_refreshes_out(env: CompileEnv, layout: LuaLayout, ir: LayoutIr)
    requires
        compiles_to(env, layout, ir),
        env.group is Some ==> never_refreshes(env.group->0),
    ensures
        never_refreshes(ir),
    decreases layout,
{
    match layout {
        BlockLayout::Empty => {},
        BlockLayout::Leaf(leaf) => {
            if leaf is GroupChildren {
                lemma_copy_never_refreshes(ir, env.group->0);
            }
        },
        BlockLayout::Vbox(items) => {
            assert forall|i: int| 0 <= i < items@.len() implies never_refreshes(
                #[trigger] ir->Vbox_0@[i],
            ) by {
                assert(compiles_to(env, items@[i], ir->Vbox_0@[i]));
                compiling_takes_refreshes_out(env, items@[i], ir->Vbox_0@[i]);
            }
        },
        BlockLayout::Hbox(items) => {
            assert forall|i: int| 0 <= i < items@.len() implies never_refreshes(
                (#[trigger] ir->Hbox_0@[i]).layout,
            ) by {
                assert(compiles_to(env, items@[i].layout, ir->Hbox_0@[i].layout));
                assert(decreases_to!(items@ => items@[i]));
                assert(decreases_to!(items@[i] => items@[i].layout));
                compiling_takes_refreshes_out(env, items@[i].layout, ir->Hbox_0@[i].layout);
            }
        },
        BlockLayout::Gutter { child, .. } => {
            compiling_takes_refreshes_out(env, *child, *ir->Gutter_child)
        },
        BlockLayout::RowPrefix { child, .. } => {
            compiling_takes_refreshes_out(env, *child, *ir->RowPrefix_child)
        },
        BlockLayout::Panel { child, .. } => {
            compiling_takes_refreshes_out(env, *child, *ir->Panel_child)
        },
        BlockLayout::Style { child, .. } => {
            compiling_takes_refreshes_out(env, *child, *ir->Style_child)
        },
        BlockLayout::Cap { child, .. } => {
            compiling_takes_refreshes_out(env, *child, *ir->Cap_child)
        },
        BlockLayout::Refresh { child, .. } => compiling_takes_refreshes_out(env, *child, ir),
    }
}

} // verus!
