use smelt_content::compile::{
    CompileError, CompileSources, ContentDiffSpec, ContentSpec, LuaLayout, LuaLeaf,
    SourceViewRequest,
};
use smelt_content::compile_jobs::{
    block_content_sources, group_child_compile_sources, CompileJobSource, NodeSource,
};
use smelt_content::cached_layout::MeasurementKey;
use smelt_content::host::LayoutHost;
use smelt_content::ir::{
    BlockLayout, Constraint, ContentRenderSpec, ContentTextWindow, InlineSyntaxSpan, IrLeaf,
    LayoutIr, RefreshSpec, RetainedContentSpec, RetainedInlineSyntax, RowPrefixSpec, RunsSpec,
    StyledSpan, TextSpec,
};
use smelt_content::keys::DisplayCacheKey;
use smelt_content::layout_cache::{
    expanded_live_streaming_layout, AppendedRange, LayoutCache, LiveBlock, NodeRequest,
    PlannedJob, PlannedWork, RequestedNode,
};
use smelt_content::layout_cache_use::{CompiledEntry, RangeRequest};
use smelt_content::plan::MeasuredLayout;
use smelt_content::syntax_cache::InlineSyntaxCache;
use smelt_content::view_state::ViewState;
use std::cell::Cell;

fn text_layout(content: &str) -> LayoutIr {
    BlockLayout::Leaf(IrLeaf::Text(TextSpec {
        content: content.to_string(),
        hl_group: None,
        ansi: false,
    }))
}

fn weigh(layout: &LayoutIr) -> usize {
    match layout {
        BlockLayout::Leaf(IrLeaf::Text(spec)) => 100 + spec.content.len(),
        _ => 100,
    }
}

fn entry(id: u64, key: DisplayCacheKey, layout: LayoutIr, refresh_at: Option<u64>) -> CompiledEntry {
    let weight = weigh(&layout);
    CompiledEntry { id, key, layout, refresh_at, weight }
}

fn has<T>(cache: &LayoutCache<T>, id: u64) -> bool {
    cache.blocks.iter().any(|block| block.id == id)
}

fn key() -> DisplayCacheKey {
    DisplayCacheKey::new(1, 0, 0, None, 0)
}

/// One row for each line of a text, whatever the width.
fn rows_of(leaf: &IrLeaf) -> usize {
    match leaf {
        IrLeaf::Text(spec) => spec.content.lines().count(),
        IrLeaf::Runs(spec) => spec.lines.len(),
        _ => 1,
    }
}

fn host() -> LayoutHost<
    impl Fn(&IrLeaf, u16, u16) -> usize,
    impl Fn(&RunsSpec, &RowPrefixSpec, u16) -> usize,
    impl Fn(&RetainedContentSpec, u16, usize) -> ContentTextWindow,
    impl Fn(u64) -> usize,
    impl Fn(&Vec<Constraint>, &Vec<u16>, u16) -> Vec<u16>,
    impl Fn(&IrLeaf, u16, usize, usize) -> bool,
    impl Fn(&LayoutIr, u16, usize, usize) -> bool,
> {
    LayoutHost::new(
        |leaf: &IrLeaf, _: u16, _: u16| rows_of(leaf),
        |runs: &RunsSpec, _: &RowPrefixSpec, _: u16| runs.lines.len(),
        |_: &RetainedContentSpec, _: u16, max: usize| ContentTextWindow {
            row_count: max.min(1),
            truncated: max == 0,
        },
        |_: u64| 1,
        |constraints: &Vec<Constraint>, _: &Vec<u16>, total: u16| {
            vec![total; constraints.len()]
        },
        |_: &IrLeaf, _: u16, _: usize, _: usize| true,
        |_: &LayoutIr, _: u16, _: usize, _: usize| true,
    )
}

fn no_highlights(_: &str, _: &str) -> Vec<InlineSyntaxSpan> {
    Vec::new()
}

fn view_of(request: SourceViewRequest) -> u64 {
    match request {
        SourceViewRequest::ContentDiff(spec) => spec.old_id * 1000 + spec.new_id,
        _ => 0,
    }
}

#[test]
fn layout_cache_lru_accounts_replacement_access_and_pins() {
    let mut model: LayoutCache<()> = LayoutCache::new();
    model.set_budget(usize::MAX);
    let (first, second) = (1, 2);
    let small = || text_layout("small layout");
    let weight = weigh(&small());

    model.insert_compiled_blocks(
        vec![entry(first, key(), small(), None), entry(second, key(), small(), None)],
        0,
    );
    assert_eq!(model.retained_bytes, weight * 2);
    assert!(model.get(first, key()).is_some());
    model.set_budget(weight);
    assert!(has(&model, first));
    assert!(!has(&model, second));
    assert_eq!(model.retained_bytes, weight);

    let replacement = text_layout(&"replacement ".repeat(128));
    let replacement_weight = weigh(&replacement);
    model.set_budget(usize::MAX);
    model.insert_compiled_blocks(vec![entry(first, key(), replacement, None)], 0);
    assert_eq!(model.len(), 1);
    assert_eq!(model.retained_bytes, replacement_weight);

    model.set_pinned_nodes(&vec![first]);
    model.set_budget(0);
    let pinned = model.memory_snapshot();
    assert_eq!(pinned.pinned_layout_bytes, replacement_weight);
    assert_eq!(pinned.oversize_debt_bytes, replacement_weight);
    assert!(has(&model, first));
    model.set_pinned_nodes(&Vec::new());
    assert_eq!(model.len(), 0);
    assert_eq!(model.retained_bytes(), 0);
}

fn request(id: u64, key: DisplayCacheKey) -> NodeRequest {
    NodeRequest {
        id,
        key,
        view_state: ViewState::Expanded,
        node: RequestedNode::Block { streaming: false, live: LiveBlock::Other },
    }
}

/// Compiles what is not in the cache; returns how many layouts that is.
fn ensure_many(
    model: &mut LayoutCache<()>,
    requests: &Vec<NodeRequest>,
    layout: &dyn Fn(u64) -> LuaLayout,
    now: u64,
) -> usize {
    let source_of = |job: PlannedJob| {
        CompileJobSource::Node(NodeSource {
            layout: layout(job.id),
            kind: "user".into(),
            index: 0,
            contents: Vec::new(),
        })
    };
    let mut errors = Vec::new();
    let count = model.ensure_many(
        requests,
        &source_of,
        now,
        0,
        &no_highlights,
        &view_of,
        &weigh,
        &mut errors,
    );
    assert!(errors.is_empty());
    count
}

fn lua_text(content: &str) -> LuaLayout {
    BlockLayout::Leaf(LuaLeaf::Text(TextSpec {
        content: content.to_string(),
        hl_group: None,
        ansi: false,
    }))
}

#[test]
fn layout_cache_caches_width_independent_blocks() {
    let mut model: LayoutCache<()> = LayoutCache::new();
    let layout = |_: u64| lua_text("fn main() {}");
    assert_eq!(ensure_many(&mut model, &vec![request(1, key())], &layout, 0), 1);
    assert_eq!(ensure_many(&mut model, &vec![request(1, key())], &layout, 0), 0);
    let measure = |model: &mut LayoutCache<()>, width: u16| {
        let measurement = MeasurementKey { width, inline_options: 0 };
        model.measure_height(1, key(), measurement, ViewState::Expanded, &host())
    };
    assert_eq!(measure(&mut model, 80), Some(1));
    assert_eq!(measure(&mut model, 40), Some(1));
    assert_eq!(
        model.measure_height(
            9,
            key(),
            MeasurementKey { width: 80, inline_options: 0 },
            ViewState::Expanded,
            &host()
        ),
        None
    );
}

#[test]
fn dirty_shifted_render_range_reuses_its_row_allocations() {
    let id = 1;
    let layout = text_layout(&format!("{}\n{}", "a".repeat(64), "b".repeat(32)));
    let mut cache: LayoutCache<String> = LayoutCache::new();
    cache.set_budget(usize::MAX);
    cache.insert_compiled_blocks(vec![entry(id, key(), layout, None)], 0);
    let contents = Vec::new();
    let sources = CompileSources {
        contents: &contents,
        group_children: None,
        theme_revision: 0,
        highlight: &no_highlights,
        build_view: &view_of,
    };
    let request = |row_start: usize| RangeRequest {
        width: 80,
        view_state: ViewState::Expanded,
        inline_options: 0,
        row_start,
        row_count: 1,
    };
    let draw = |row: usize| {
        move |layout: &LayoutIr, _: &MeasuredLayout, spare: Option<String>| {
            let mut buffer = spare.unwrap_or_else(|| String::with_capacity(256));
            buffer.clear();
            if let BlockLayout::Leaf(IrLeaf::Text(spec)) = layout {
                buffer.push_str(spec.content.lines().nth(row).unwrap_or(""));
            }
            let bytes = buffer.capacity();
            (buffer, 1, bytes)
        }
    };
    let address = |buffer: &String, _: usize| buffer.as_ptr() as usize;
    let first = cache
        .with_rendered_range(id, key(), request(0), &host(), &sources, &weigh, draw(0), address)
        .expect("first rendered range");
    cache.blocks[0].rendered_ranges[0].dirty = true;
    let shifted = cache
        .with_rendered_range(id, key(), request(1), &host(), &sources, &weigh, draw(1), address)
        .expect("shifted rendered range");
    assert_eq!(shifted, first);
    let ranges = &cache.blocks[0].rendered_ranges;
    assert_eq!(ranges.len(), 1);
    assert_eq!(ranges[0].key.row_start, 1);
    assert!(!ranges[0].dirty);
    assert_eq!(ranges[0].buffer, "b".repeat(32));
}

#[test]
fn grown_contents_are_drawn_anew() {
    let content = 5;
    let layout = BlockLayout::Leaf(IrLeaf::Content(RetainedContentSpec {
        content,
        render: ContentRenderSpec::Text { hl_group: None, ansi: false },
    }));
    let mut cache: LayoutCache<String> = LayoutCache::new();
    cache.set_budget(usize::MAX);
    cache.insert_compiled_blocks(vec![entry(1, key(), layout, None)], 0);
    let contents = Vec::new();
    let sources = CompileSources {
        contents: &contents,
        group_children: None,
        theme_revision: 0,
        highlight: &no_highlights,
        build_view: &view_of,
    };
    let request = || RangeRequest {
        width: 80,
        view_state: ViewState::Expanded,
        inline_options: 0,
        row_start: 0,
        row_count: 1,
    };
    let draws = Cell::new(0);
    let show = |cache: &mut LayoutCache<String>, text: &str| -> String {
        let draw = |_: &LayoutIr, _: &MeasuredLayout, _: Option<String>| {
            draws.set(draws.get() + 1);
            (text.to_string(), 1, text.len())
        };
        let text_of = |buffer: &String, _: usize| buffer.clone();
        cache
            .with_rendered_range(1, key(), request(), &host(), &sources, &weigh, draw, text_of)
            .expect("rendered range")
    };
    assert_eq!(show(&mut cache, "one"), "one");
    assert_eq!(show(&mut cache, "one"), "one");
    assert_eq!(draws.get(), 1);
    let grown = vec![AppendedRange { start: 3, end: 7 }];
    assert!(cache.apply_content_append(1, content, 7, &grown));
    assert!(cache.blocks[0].rendered_ranges.iter().all(|range| range.dirty));
    cache.blocks[0].key = key();
    assert_eq!(show(&mut cache, "one two"), "one two");
    assert_eq!(draws.get(), 2);
}

fn span(text: &str) -> StyledSpan {
    StyledSpan {
        text: text.to_string(),
        hl: None,
        fg: None,
        bg: None,
        dim: false,
        bold: false,
        italic: false,
        syntax: None,
        selectable: true,
    }
}

fn runs(lines: Vec<Vec<StyledSpan>>, hl_group: &str, continuation_indent: u16) -> LuaLayout {
    BlockLayout::Leaf(LuaLeaf::Runs(RunsSpec {
        lines,
        hl_group: Some(hl_group.to_string()),
        continuation_indent,
        syntax_highlights: RetainedInlineSyntax {
            source_spans: Vec::new(),
            line_offsets: Vec::new(),
        },
    }))
}

fn refresh(child: LuaLayout, after_ms: u64) -> LuaLayout {
    BlockLayout::Refresh { child: Box::new(child), spec: RefreshSpec { after_ms } }
}

#[test]
fn refresh_compilation_is_visually_transparent_and_uses_earliest_delay() {
    let child = runs(vec![vec![span("select me")]], "SmeltAccent", 2);
    let layout = refresh(
        BlockLayout::Vbox(vec![refresh(child, 400), refresh(BlockLayout::Empty, 75)]),
        250,
    );
    let contents = Vec::new();
    let sources = CompileSources {
        contents: &contents,
        group_children: None,
        theme_revision: 0,
        highlight: &no_highlights,
        build_view: &view_of,
    };
    let mut inline_syntax = InlineSyntaxCache::new();
    let mut refresh_after_ms = None;
    let compiled = sources
        .compile_layout_ir_with_cache(&layout, &mut inline_syntax, &mut refresh_after_ms)
        .unwrap();
    assert_eq!(refresh_after_ms, Some(75));
    assert_eq!(host().measure_layout_ir_full(&compiled, 10), 1);
    let BlockLayout::Vbox(items) = compiled else {
        panic!("refresh wrappers must be stripped");
    };
    let BlockLayout::Leaf(IrLeaf::Runs(spec)) = &items[0] else {
        panic!("refresh child layout changed during compilation");
    };
    assert_eq!(spec.lines[0][0].text, "select me");
    assert!(spec.lines[0][0].selectable);
    assert_eq!(spec.continuation_indent, 2);
}

#[test]
fn retained_content_diff_resolves_ids_without_lua_source_payloads() {
    let (old, new) = (41, 42);
    let input = BlockLayout::Leaf(LuaLeaf::ContentDiff(ContentDiffSpec {
        old_id: old,
        new_id: new,
        path: "src/lib.rs".into(),
        lang: None,
    }));
    let contents = vec![old, new];
    let sources = CompileSources {
        contents: &contents,
        group_children: None,
        theme_revision: 0,
        highlight: &no_highlights,
        build_view: &view_of,
    };
    let mut inline_syntax = InlineSyntaxCache::new();
    let mut delay = None;
    let compiled =
        sources.compile_layout_ir_with_cache(&input, &mut inline_syntax, &mut delay).unwrap();
    assert!(matches!(compiled, BlockLayout::Leaf(IrLeaf::SourceView(41042))));
    assert_eq!(host().measure_layout_ir_full(&compiled, 80), 1);
}

#[test]
fn delays_before_what_does_not_compile_are_kept() {
    let unknown = || -> LuaLayout {
        BlockLayout::Leaf(LuaLeaf::Content(ContentSpec {
            id: 7,
            render: ContentRenderSpec::Text { hl_group: None, ansi: false },
        }))
    };
    let contents = Vec::new();
    let sources = CompileSources {
        contents: &contents,
        group_children: None,
        theme_revision: 0,
        highlight: &no_highlights,
        build_view: &view_of,
    };
    let mut inline_syntax = InlineSyntaxCache::new();
    let layout = BlockLayout::Vbox(vec![
        refresh(BlockLayout::Empty, 300),
        refresh(unknown(), 200),
        refresh(BlockLayout::Empty, 100),
    ]);
    let mut delay = None;
    sources.compile_layout_ir_with_cache(&layout, &mut inline_syntax, &mut delay).unwrap_err();
    assert_eq!(delay, Some(200));
    let mut sooner = Some(150);
    sources.compile_layout_ir_with_cache(&layout, &mut inline_syntax, &mut sooner).unwrap_err();
    assert_eq!(sooner, Some(150));
    let late = BlockLayout::Vbox(vec![unknown(), refresh(BlockLayout::Empty, 100)]);
    let mut untouched = None;
    sources.compile_layout_ir_with_cache(&late, &mut inline_syntax, &mut untouched).unwrap_err();
    assert_eq!(untouched, None);
}

#[test]
fn contents_of_other_nodes_do_not_compile() {
    let input: LuaLayout = BlockLayout::Leaf(LuaLeaf::Content(ContentSpec {
        id: 7,
        render: ContentRenderSpec::Text { hl_group: None, ansi: false },
    }));
    let contents = vec![8];
    let sources = CompileSources {
        contents: &contents,
        group_children: None,
        theme_revision: 0,
        highlight: &no_highlights,
        build_view: &view_of,
    };
    let mut inline_syntax = InlineSyntaxCache::new();
    let mut delay = None;
    let error = sources
        .compile_layout_ir_with_cache(&input, &mut inline_syntax, &mut delay)
        .unwrap_err();
    assert_eq!(error, CompileError::UnknownContent(7));
    assert_eq!(error.text(), "unknown transcript content id 7");
    let children: LuaLayout = BlockLayout::Leaf(LuaLeaf::GroupChildren);
    let error = sources
        .compile_layout_ir_with_cache(&children, &mut inline_syntax, &mut delay)
        .unwrap_err();
    assert_eq!(error.text(), "group child layouts are only available in group renderers");
}

#[test]
fn retained_inline_syntax_matches_live_wrapped_render_and_reuses_compilation() {
    let source = "printf '%s\\n' alpha beta gamma delta";
    let calls = Cell::new(0);
    let highlight = |_: &str, text: &str| -> Vec<InlineSyntaxSpan> {
        calls.set(calls.get() + 1);
        vec![InlineSyntaxSpan { byte_start: 0, byte_end: text.len(), red: 1, green: 2, blue: 3 }]
    };
    let input = runs(
        vec![vec![StyledSpan { syntax: Some("bash".into()), ..span(source) }]],
        "SmeltToolPending",
        3,
    );
    let contents = Vec::new();
    let sources = CompileSources {
        contents: &contents,
        group_children: None,
        theme_revision: 0,
        highlight: &highlight,
        build_view: &view_of,
    };
    let mut inline_syntax = InlineSyntaxCache::new();
    let mut delay = None;
    let mut compile = || {
        let compiled =
            sources.compile_layout_ir_with_cache(&input, &mut inline_syntax, &mut delay).unwrap();
        match compiled {
            BlockLayout::Leaf(IrLeaf::Runs(spec)) => spec,
            _ => panic!("compiled runs leaf changed shape"),
        }
    };
    let first = compile();
    let second = compile();
    assert!(!first.syntax_highlights.source_spans[0].is_empty());
    assert_eq!(first.syntax_highlights.source_spans, second.syntax_highlights.source_spans);
    assert_eq!(first.syntax_highlights.source_spans[0], highlight("bash", source));
    assert_eq!(calls.get(), 2);
}

#[test]
fn refresh_deadlines_are_replaced_removed_retained_and_evicted_with_nodes() {
    let start = 5_000;
    let layout = || text_layout("cached");
    let (first, second, static_node) = (1, 2, 3);
    let mut model: LayoutCache<()> = LayoutCache::new();
    model.set_budget(usize::MAX);
    model.insert_compiled_blocks(
        vec![
            entry(first, key(), layout(), Some(start + 100)),
            entry(second, key(), layout(), Some(start + 200)),
            entry(static_node, key(), layout(), None),
        ],
        0,
    );
    assert_eq!(model.next_refresh_at(), Some(start + 100));
    assert!(model.expire_due_refreshes(start + 99).is_empty());
    assert_eq!(model.expire_due_refreshes(start + 100), vec![first]);
    assert!(has(&model, second));
    assert!(has(&model, static_node));

    model.insert_compiled_blocks(vec![entry(second, key(), layout(), None)], 0);
    assert_eq!(model.next_refresh_at(), None);

    model.insert_compiled_blocks(vec![entry(first, key(), layout(), Some(start + 1000))], 0);
    model.retain_nodes(&vec![static_node]);
    assert_eq!(model.next_refresh_at(), None);

    model.insert_compiled_blocks(vec![entry(first, key(), layout(), Some(start + 1000))], 0);
    model.set_budget(0);
    assert_eq!(model.len(), 0);
    assert_eq!(model.next_refresh_at(), None);
}

#[test]
fn due_refresh_recompiles_only_its_top_level_node() {
    let (dynamic, fixed) = (1, 2);
    let layout = |id: u64| {
        if id == dynamic {
            refresh(lua_text("dynamic"), 100)
        } else {
            lua_text("static")
        }
    };
    let requests = || vec![request(dynamic, key()), request(fixed, key())];
    let start = 5_000;
    let mut model: LayoutCache<()> = LayoutCache::new();
    assert_eq!(ensure_many(&mut model, &requests(), &layout, start), 2);
    assert_eq!(model.next_refresh_at(), Some(start + 100));
    assert_eq!(model.expire_due_refreshes(start + 100), vec![dynamic]);
    assert_eq!(ensure_many(&mut model, &requests(), &layout, start + 100), 1);
    assert_eq!(model.len(), 2);
}

#[test]
fn grown_contents_keep_their_layout_until_the_new_hash_is_known() {
    let content = 5;
    let layout = BlockLayout::Leaf(IrLeaf::Content(RetainedContentSpec {
        content,
        render: ContentRenderSpec::Text { hl_group: None, ansi: false },
    }));
    let mut model: LayoutCache<()> = LayoutCache::new();
    model.set_budget(usize::MAX);
    model.insert_compiled_blocks(vec![entry(1, key(), layout, None)], 0);
    let grown = vec![AppendedRange { start: 3, end: 9 }];
    assert!(!model.apply_content_append(1, 6, 9, &grown));
    assert!(!model.apply_content_append(1, content, 8, &grown));
    assert!(model.apply_content_append(1, content, 9, &grown));
    let later = DisplayCacheKey::new(2, 0, 0, None, 0);
    assert!(model.collect_compile_jobs(&vec![request(1, later)]).is_empty());
    assert!(model.get(1, later).is_some());
    assert!(model.get(1, key()).is_none());
}

#[test]
fn live_blocks_need_no_renderer() {
    let mut model: LayoutCache<()> = LayoutCache::new();
    let live = LiveBlock::Text { content: 4 };
    let streaming = NodeRequest {
        id: 1,
        key: key(),
        view_state: ViewState::Expanded,
        node: RequestedNode::Block { streaming: true, live },
    };
    let jobs = model.collect_compile_jobs(&vec![streaming]);
    assert!(matches!(jobs[0].work, PlannedWork::Live(_)));
    assert!(matches!(
        expanded_live_streaming_layout(live),
        Some(BlockLayout::Leaf(IrLeaf::Content(RetainedContentSpec { content: 4, .. })))
    ));
    assert!(expanded_live_streaming_layout(LiveBlock::Other).is_none());
}

#[test]
fn group_children_that_are_gone_have_no_source() {
    let node_of = |id: u64, index: usize| {
        if id == 2 {
            None
        } else {
            Some(NodeSource {
                layout: lua_text("child"),
                kind: "text".into(),
                index,
                contents: vec![id],
            })
        }
    };
    let sources = group_child_compile_sources(&vec![1, 2, 3], 10, &node_of);
    let places: Vec<usize> = sources.iter().map(|source| source.index).collect();
    assert_eq!(places, vec![10, 12]);
    assert_eq!(block_content_sources(&vec![1], Some(&vec![2, 3])), vec![1, 2, 3]);
    assert_eq!(block_content_sources(&vec![1], None), vec![1]);
}

#[test]
fn what_did_not_compile_is_reported_once() {
    let source_of = |job: PlannedJob| {
        CompileJobSource::Node(NodeSource {
            layout: if job.id == 2 {
                BlockLayout::Leaf(LuaLeaf::GroupChildren)
            } else {
                lua_text("text")
            },
            kind: "user".into(),
            index: 0,
            contents: Vec::new(),
        })
    };
    let mut model: LayoutCache<()> = LayoutCache::new();
    let mut errors = vec!["earlier".to_string()];
    let requests = vec![request(1, key()), request(2, key())];
    let mut ensure = |errors: &mut Vec<String>| {
        model.ensure_many(
            &requests,
            &source_of,
            0,
            0,
            &no_highlights,
            &view_of,
            &weigh,
            errors,
        )
    };
    assert_eq!(ensure(&mut errors), 2);
    assert_eq!(errors[0], "earlier");
    assert_eq!(errors.len(), 2);
    assert!(errors[1].contains("group child layouts are only available in group renderers"));
    assert_eq!(ensure(&mut errors), 0);
    assert_eq!(errors.len(), 2);
}

#[test]
fn highlights_of_a_source_are_made_once_for_all_nodes() {
    let calls = Cell::new(0);
    let highlight = |_: &str, text: &str| -> Vec<InlineSyntaxSpan> {
        calls.set(calls.get() + 1);
        vec![InlineSyntaxSpan { byte_start: 0, byte_end: text.len(), red: 1, green: 2, blue: 3 }]
    };
    let source_of = |_: PlannedJob| {
        CompileJobSource::Node(NodeSource {
            layout: runs(
                vec![vec![StyledSpan { syntax: Some("bash".into()), ..span("ls -l") }]],
                "SmeltToolPending",
                0,
            ),
            kind: "user".into(),
            index: 0,
            contents: Vec::new(),
        })
    };
    let mut model: LayoutCache<()> = LayoutCache::new();
    let mut errors = Vec::new();
    let mut ensure = |ids: Vec<u64>| {
        let requests = ids.iter().map(|id| request(*id, key())).collect();
        model.ensure_many(
            &requests,
            &source_of,
            0,
            0,
            &highlight,
            &view_of,
            &weigh,
            &mut errors,
        )
    };
    assert_eq!(ensure(vec![1, 2]), 2);
    assert_eq!(calls.get(), 1);
    assert_eq!(ensure(vec![1, 2, 3]), 1);
    assert_eq!(calls.get(), 1);
    assert!(errors.is_empty());
}
