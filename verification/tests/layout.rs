use smelt_content::block_rows::BlockRow;
use smelt_content::budget::{MAX_BOUNDED_EDGE_DEPTH, MAX_BOUNDED_EDGE_EXACT_BYTES, MAX_BOUNDED_EDGE_EXACT_SPANS};
use smelt_content::cap_rows::{cap_rows, CapDirection, CapRow};
use smelt_content::host::LayoutHost;
use smelt_content::inline_markers::strip_markdown_markers;
use smelt_content::ir::{
    BlockLayout, CapKeep, CapMarker, CapSpec, CodeSpec, Constraint, ContentRenderSpec,
    ContentTextWindow, GutterSpec, HboxItem, IrLeaf, LayoutIr, LineSpec, MarkdownSpec, PanelSpec,
    RetainedContentSpec, RetainedInlineSyntax, RowPrefixSpec, RunsSpec, SeparatorSpec, StyleSpec,
    StyledSpan, TextSpec,
};
use smelt_content::leaf_edges::{
    cap_marker_text, render_omitted_markdown, retained_markdown_edge_mode, ContentFacts,
    RetainedMarkdownEdgeMode,
};
use smelt_content::leaf_text::{can_render_markdown_as_plain, render_text_spec};
use smelt_content::line_ops::LineOp;
use smelt_content::paint::Color;
use smelt_content::plan::{MeasuredLayout, MeasuredLayoutKind};
use smelt_content::prefixed_runs::render_row_prefix_runs;
use smelt_content::render::RenderMeasurement;
use smelt_content::retained::layout_bytes_at;
use smelt_content::rows::RowOp;
use smelt_content::styled_runs::{
    render_line_spec, render_runs_spec, render_separator_spec, Fragment, InlineRun, InlineText,
};
use smelt_content::styled_text::SpanPainter;
use smelt_content::temp_rows::emit_buffer_row_clipped;
use smelt_content::prompt_style::{plain_cell_style, CellStyle};
use smelt_content::view_state::{render_projected_view_range, ellipsis_text, ViewRow, ViewState};
use smelt_content::widths::intrinsic_layout_width;
use std::cell::{Cell, RefCell};
use std::collections::HashMap;

/// What stands in for Markdown that is not shown.
fn omitted_note() -> String {
    render_omitted_markdown(false, false)
        .into_iter()
        .map(|op| match op {
            LineOp::Print(text) | LineOp::PrintMeta { text, .. } => text,
            _ => String::new(),
        })
        .collect()
}

fn cells(text: &str) -> usize {
    unicode_width::UnicodeWidthStr::width(text)
}

/// What fits of a text in so many cells.
fn clip(text: &str, max: usize) -> String {
    let ends = text.char_indices().map(|(at, c)| at + c.len_utf8());
    let fitting = ends.filter(|end| cells(&text[..*end]) <= max).last().unwrap_or(0);
    text[..fitting].to_string()
}

/// The contents that live outside the layouts, and how often leaves were measured.
#[derive(Default)]
struct Texts {
    contents: RefCell<HashMap<u64, String>>,
    leaves_measured: Cell<usize>,
}

impl Texts {
    fn with(content: impl Into<String>) -> Self {
        let texts = Texts::default();
        texts.contents.borrow_mut().insert(1, content.into());
        texts
    }
}

/// A line in rows of at most `width` cells, with no regard to words.
fn wrap_chars(line: &str, width: u16) -> Vec<String> {
    let width = width.max(1) as usize;
    let mut rows = vec![String::new()];
    let mut used = 0;
    for c in line.chars() {
        let n = if c.is_ascii() && !c.is_control() { 1 } else { cells(&c.to_string()) };
        if used + n > width && used > 0 {
            rows.push(String::new());
            used = 0;
        }
        rows.last_mut().unwrap().push(c);
        used += n;
    }
    rows
}

/// A line in rows of at most `width` cells, broken behind spaces where that is possible.
fn wrap_words(line: &str, width: u16) -> Vec<String> {
    let limit = width.max(1) as usize;
    let mut rows = vec![String::new()];
    for word in line.split_inclusive(' ') {
        let room = limit.saturating_sub(cells(rows.last().unwrap()));
        if cells(word.trim_end()) <= room {
            rows.last_mut().unwrap().push_str(word);
        } else if cells(word.trim_end()) <= limit {
            rows.push(word.to_string());
        } else {
            if !rows.last().unwrap().is_empty() {
                rows.push(String::new());
            }
            let mut parts = wrap_chars(word, width);
            rows.pop();
            rows.append(&mut parts);
        }
    }
    rows
}

fn facts(text: &str) -> ContentFacts {
    let first = text.lines().next();
    let largest = if text.starts_with("```") {
        text.len()
    } else {
        text.split("\n\n").map(str::len).max().unwrap_or(0)
    };
    ContentFacts {
        len: text.len(),
        logical_lines: text.lines().count(),
        first_line_plain: first.is_some_and(can_render_markdown_as_plain),
        first_line_len: first.map(str::len),
        first_line_ascii: first.is_some_and(str::is_ascii),
        large_lines_ascii: text.is_ascii(),
        large_markdown: largest > 65536,
    }
}

/// The rows of a content at a width.
fn content_lines(texts: &Texts, spec: &RetainedContentSpec, width: u16) -> Vec<String> {
    let contents = texts.contents.borrow();
    let text = &contents[&spec.content];
    let by = |wrap: fn(&str, u16) -> Vec<String>| -> Vec<String> {
        text.split('\n').flat_map(|line| wrap(line, width)).collect()
    };
    match &spec.render {
        ContentRenderSpec::Text { .. } => by(wrap_words),
        ContentRenderSpec::Code { .. } | ContentRenderSpec::File { .. } => by(wrap_chars),
        ContentRenderSpec::Markdown { inline, .. } => {
            match retained_markdown_edge_mode(facts(text), *inline) {
                RetainedMarkdownEdgeMode::Parsed => by(wrap_words),
                RetainedMarkdownEdgeMode::Literal => by(wrap_chars),
                RetainedMarkdownEdgeMode::Omitted => vec![omitted_note()],
            }
        }
    }
}

fn slice(text: &str, start: usize, end: usize) -> String {
    text.get(start..end).unwrap_or("").to_string()
}

fn no_color(_: &str) -> Option<Color> {
    None
}

/// The bytes of a text that go on with the character before it.
fn joining_bytes(text: &str) -> usize {
    text.find(|c: char| c != '\u{fe0f}' && c != '\u{200d}').unwrap_or(text.len())
}

/// The runs, where no run starts within a character.
fn join(runs: &Vec<InlineRun>) -> Vec<InlineRun> {
    let mut joined: Vec<InlineRun> = Vec::new();
    for run in runs {
        let mut text = run.text.as_str();
        if let Some(last) = joined.last_mut() {
            let (head, tail) = text.split_at(joining_bytes(text));
            last.text.push_str(head);
            text = tail;
        }
        joined.push(InlineRun { text: text.to_string(), meta: run.meta });
    }
    joined
}

/// The bytes of a text that fit behind a row in so many cells.
fn fitting(row: &str, text: &str, limit: u16) -> usize {
    let ends = text.char_indices().map(|(at, c)| at + c.len_utf8());
    let fits = |end: &usize| cells(&format!("{row}{}", &text[..*end])) <= limit as usize;
    ends.take_while(fits).last().unwrap_or(0)
}

/// The bytes of a text that belong to the last character of a row.
fn boundary(row: &str, text: &str) -> usize {
    if row.is_empty() {
        0
    } else {
        joining_bytes(text)
    }
}

/// The rows of a line of runs, whose first row has `first` cells and the others `rest`.
fn wrap_runs(runs: &Vec<InlineRun>, first: usize, rest: usize) -> Vec<Vec<Fragment>> {
    let text: String = runs.iter().map(|run| run.text.as_str()).collect();
    let head = wrap_words(&text, first as u16).remove(0);
    let mut lens = vec![head.len()];
    if head.len() < text.len() {
        lens.extend(wrap_words(&text[head.len()..], rest as u16).iter().map(String::len));
    }
    let mut rows = Vec::new();
    let mut at = 0;
    for len in lens {
        let end = at + len;
        let mut row = Vec::new();
        let mut begin = 0;
        for (run_index, run) in runs.iter().enumerate() {
            let stop = begin + run.text.len();
            let (s, e) = (at.max(begin), end.min(stop));
            if s < e {
                row.push(Fragment { run_index, start: s - begin, end: e - begin });
            }
            begin = stop;
        }
        rows.push(row);
        at = end;
    }
    rows
}

fn wrap_occupied(
    runs: &Vec<InlineRun>,
    first: usize,
    taken: usize,
    rest: usize,
    rest_taken: usize,
) -> Vec<Vec<Fragment>> {
    let left = rest.saturating_sub(rest_taken).max(1);
    if taken >= first && !run_blank(runs) {
        let mut rows = vec![Vec::new()];
        rows.extend(wrap_runs(runs, left, left));
        return rows;
    }
    wrap_runs(runs, first.saturating_sub(taken).max(1), left)
}

fn run_cells(runs: &Vec<InlineRun>) -> usize {
    cells(&runs.iter().map(|run| run.text.as_str()).collect::<String>())
}

fn run_blank(runs: &Vec<InlineRun>) -> bool {
    runs.iter().all(|run| run.text.is_empty())
}

/// A drawn line: its text, and whether it goes on from the line above.
#[derive(Clone, Debug, PartialEq)]
struct DrawnLine {
    text: String,
    continuation: bool,
}

/// The lines that some steps draw.
fn drawn_lines(ops: &[LineOp]) -> Vec<DrawnLine> {
    let mut lines = Vec::new();
    let mut text = String::new();
    let mut continuation = false;
    for op in ops {
        match op {
            LineOp::Row { continuation: c } => continuation = *c,
            LineOp::Gutter(t) | LineOp::Print(t) => text.push_str(t),
            LineOp::PrintMeta { text: t, .. } | LineOp::PrintCopyAs { text: t, .. } => {
                text.push_str(t)
            }
            LineOp::Newline => {
                lines.push(DrawnLine { text: std::mem::take(&mut text), continuation });
                continuation = false;
            }
            _ => {}
        }
    }
    lines
}

/// The rows of a leaf at a width.
fn leaf_lines(
    texts: &Texts,
    leaf: &IrLeaf,
    width: u16,
    gutter: Option<&GutterSpec>,
) -> Vec<DrawnLine> {
    let inline = InlineText {
        join: &join,
        wrap: &wrap_runs,
        wrap_occupied: &wrap_occupied,
        cells: &run_cells,
        blank: &run_blank,
    };
    let painter = SpanPainter { slice: &slice, fg: &no_color, bg: &no_color };
    let plain = |rows: Vec<String>| -> Vec<DrawnLine> {
        let gutter = gutter.map_or("", |gutter| gutter.text.as_str());
        rows.into_iter()
            .map(|row| DrawnLine { text: format!("{gutter}{row}"), continuation: false })
            .collect()
    };
    match leaf {
        IrLeaf::Text(spec) => drawn_lines(&render_text_spec(
            spec,
            width,
            0,
            usize::MAX,
            gutter,
            &|line: &str, w: u16| wrap_words(line, w),
            &|line: &str, w: u16| wrap_words(line, w).len(),
        )),
        IrLeaf::Runs(spec) => {
            drawn_lines(&render_runs_spec(&inline, &painter, spec, width, 0, usize::MAX, gutter))
        }
        IrLeaf::Line(spec) => {
            drawn_lines(&render_line_spec(&inline, &painter, spec, 0, usize::MAX, gutter))
        }
        IrLeaf::Separator(spec) => drawn_lines(&render_separator_spec(
            &inline, &painter, spec, width, 0, usize::MAX, gutter,
        )),
        IrLeaf::Content(spec) => plain(content_lines(texts, spec, width)),
        IrLeaf::Markdown(spec) => plain(
            spec.content
                .split('\n')
                .flat_map(|line| {
                    if can_render_markdown_as_plain(line) {
                        wrap_words(line, width)
                    } else {
                        wrap_words(&strip_markdown_markers(line), width)
                    }
                })
                .collect(),
        ),
        IrLeaf::Code(spec) => {
            plain(spec.content.lines().flat_map(|line| wrap_chars(line, width)).collect())
        }
        IrLeaf::SourceView(_) => Vec::new(),
    }
}

fn column_widths(constraints: &Vec<Constraint>, fits: &Vec<u16>, total: u16) -> Vec<u16> {
    let mut left = total;
    let mut widths = vec![0; constraints.len()];
    for (i, constraint) in constraints.iter().enumerate() {
        let wanted = match constraint {
            Constraint::Length(cells) => *cells,
            Constraint::Percentage(percent) => total * percent / 100,
            Constraint::Fit => fits[i],
            Constraint::Fill(_) => 0,
        };
        widths[i] = wanted.min(left);
        left -= widths[i];
    }
    let fills = constraints.iter().filter(|c| matches!(c, Constraint::Fill(_))).count() as u16;
    for (i, constraint) in constraints.iter().enumerate() {
        if matches!(constraint, Constraint::Fill(_)) {
            widths[i] = left / fills;
        }
    }
    widths
}

fn host<'a>(
    texts: &'a Texts,
) -> LayoutHost<
    impl Fn(&IrLeaf, u16, u16) -> usize + 'a,
    impl Fn(&RunsSpec, &RowPrefixSpec, u16) -> usize + 'a,
    impl Fn(&RetainedContentSpec, u16, usize) -> ContentTextWindow + 'a,
    impl Fn(u64) -> usize + 'a,
    impl Fn(&Vec<Constraint>, &Vec<u16>, u16) -> Vec<u16> + 'a,
    impl Fn(&IrLeaf, u16, usize, usize) -> bool + 'a,
    impl Fn(&LayoutIr, u16, usize, usize) -> bool + 'a,
> {
    LayoutHost::new(
        move |leaf: &IrLeaf, width: u16, _: u16| {
            texts.leaves_measured.set(texts.leaves_measured.get() + 1);
            leaf_lines(texts, leaf, width, None).len()
        },
        move |runs: &RunsSpec, prefix: &RowPrefixSpec, width: u16| {
            let inline = InlineText {
                join: &join,
                wrap: &wrap_runs,
                wrap_occupied: &wrap_occupied,
                cells: &run_cells,
                blank: &run_blank,
            };
            inline.measure_row_prefix_runs(runs, prefix, width)
        },
        move |spec: &RetainedContentSpec, width: u16, max_rows: usize| {
            let rows = content_lines(texts, spec, width).len();
            ContentTextWindow { row_count: rows.min(max_rows), truncated: rows > max_rows }
        },
        move |content: u64| texts.contents.borrow()[&content].len(),
        column_widths,
        move |leaf: &IrLeaf, width: u16, start: usize, end: usize| {
            shows_text(texts, leaf, width, start, end)
        },
        move |layout: &LayoutIr, width: u16, start: usize, end: usize| match layout {
            BlockLayout::Leaf(leaf) => shows_text(texts, leaf, width, start, end),
            _ => true,
        },
    )
}

/// Whether the rows `start .. end` of a leaf show any text.
fn shows_text(texts: &Texts, leaf: &IrLeaf, width: u16, start: usize, end: usize) -> bool {
    let lines = leaf_lines(texts, leaf, width, None);
    lines[start.min(lines.len())..end.min(lines.len())]
        .iter()
        .any(|line| !line.text.trim().is_empty())
}

fn prefix_text(spans: &[StyledSpan]) -> String {
    spans.iter().map(|span| span.text.as_str()).collect()
}

/// The rows of runs whose rows carry a prefix.
fn prefixed_lines(
    runs: &RunsSpec,
    prefix: &RowPrefixSpec,
    width: u16,
    gutter: Option<&GutterSpec>,
) -> Vec<String> {
    let inline = InlineText {
        join: &join,
        wrap: &wrap_runs,
        wrap_occupied: &wrap_occupied,
        cells: &run_cells,
        blank: &run_blank,
    };
    let painter = SpanPainter { slice: &slice, fg: &no_color, bg: &no_color };
    let ops = render_row_prefix_runs(
        &inline,
        &painter,
        runs,
        prefix,
        width,
        0,
        usize::MAX,
        gutter,
        &boundary,
        &fitting,
    );
    drawn_lines(&ops).into_iter().map(|line| line.text).collect()
}

#[derive(Clone, Copy, Debug, Default, PartialEq)]
struct Ink {
    dim: bool,
    italic: bool,
}

/// A drawn row: its text, the style of its gutter, and the panels that it is part of.
#[derive(Debug)]
struct Row {
    text: String,
    continuation: bool,
    gutter: Option<Ink>,
    panels: usize,
}

fn draw(texts: &Texts, ops: &[RowOp]) -> Row {
    let mut stack: Vec<String> = vec![String::new()];
    let mut styles: Vec<Ink> = Vec::new();
    let mut ink = Ink::default();
    let mut row =
        Row { text: String::new(), continuation: false, gutter: None, panels: 0 };
    let mut gutter_cells = 0;
    for op in ops {
        let line = stack.last_mut().unwrap();
        match op {
            RowOp::Leaf { leaf, width, row: at, gutter } => {
                let drawn = leaf_lines(texts, leaf, *width, *gutter).swap_remove(*at);
                row.continuation |= drawn.continuation;
                line.push_str(&drawn.text);
            }
            RowOp::PrefixedRuns { runs, prefix, width, row: at, gutter } => {
                line.push_str(&prefixed_lines(runs, prefix, *width, *gutter)[*at]);
            }
            RowOp::ContentEdge { content, width, count, tail, row: at, gutter } => {
                line.push_str(gutter.map_or("", |gutter| gutter.text.as_str()));
                let lines = content_lines(texts, content, *width);
                let first = if *tail { lines.len() - count } else { 0 };
                line.push_str(&lines[first + at]);
            }
            RowOp::Note { text, selectable } => {
                assert!(!selectable);
                line.push_str(text);
            }
            RowOp::Marker { skipped, kept, total, direction, gutter } => {
                line.push_str(gutter.map_or("", |gutter| gutter.text.as_str()));
                line.push_str(&cap_marker_text(*skipped, *kept, *total, *direction));
            }
            RowOp::ClippedMarker { width, skipped, kept, total, direction } => {
                let text = cap_marker_text(*skipped, *kept, *total, *direction);
                let room = (*width as usize + gutter_cells).saturating_sub(cells(line));
                line.push_str(&clip(&text, room));
            }
            RowOp::PlainGutter(gutter) | RowOp::RowGutter(gutter) => {
                line.push_str(&gutter.text);
                gutter_cells = cells(line);
                row.gutter = Some(ink);
            }
            RowOp::Prefix { spans, max_cols, .. } => {
                line.push_str(&clip(&prefix_text(spans), *max_cols as usize));
            }
            RowOp::OpenRow(_) => stack.push(String::new()),
            RowOp::CloseRow(nested) => {
                let inner = stack.pop().unwrap();
                let line = stack.last_mut().unwrap();
                let limit = if nested.to_row_end {
                    nested.clip as usize + gutter_cells
                } else {
                    cells(line) + nested.clip as usize
                };
                line.push_str(&inner[..fitting(line, &inner, limit as u16)]);
                if nested.pad {
                    line.push_str(&" ".repeat(limit - cells(line)));
                }
            }
            RowOp::OpenPanel(spec) => {
                row.panels += 1;
                line.push_str(&" ".repeat(spec.padding as usize));
            }
            RowOp::ClosePanel(_) => {}
            RowOp::SaveStyle => styles.push(ink),
            RowOp::ApplyStyle(spec) => {
                ink.dim |= spec.dim;
                ink.italic |= spec.italic;
            }
            RowOp::SetDim => ink.dim = true,
            RowOp::RestoreStyle => ink = styles.pop().unwrap(),
        }
    }
    row.text = stack.pop().unwrap();
    row
}

fn render_rows(texts: &Texts, layout: &LayoutIr, width: u16) -> Vec<Row> {
    let rows = host(texts).render_layout_ir_into(layout, width);
    rows.iter().map(|ops| draw(texts, ops)).collect()
}

fn render_lines(texts: &Texts, layout: &LayoutIr, width: u16) -> Vec<String> {
    render_rows(texts, layout, width).into_iter().map(|row| row.text).collect()
}

fn range_lines(
    texts: &Texts,
    layout: &LayoutIr,
    width: u16,
    start: usize,
    count: usize,
) -> Vec<String> {
    let host = host(texts);
    let measured = host.measure_layout_ir_plan(layout, width);
    let rows = host.render_layout_ir_range_into_measured(layout, &measured, width, start, count);
    rows.iter().map(|ops| draw(texts, ops).text).collect()
}

fn measure(texts: &Texts, layout: &LayoutIr, width: u16) -> usize {
    host(texts).measure_layout_ir_full(layout, width)
}

fn span(text: &str) -> StyledSpan {
    StyledSpan {
        text: text.to_string(),
        hl: None,
        fg: None,
        bg: None,
        dim: false,
        bold: false,
        italic: false,
        syntax: None,
        selectable: true,
    }
}

fn no_syntax() -> RetainedInlineSyntax {
    RetainedInlineSyntax { source_spans: Vec::new(), line_offsets: Vec::new() }
}

fn text_leaf(content: &str) -> LayoutIr {
    BlockLayout::Leaf(IrLeaf::Text(TextSpec {
        content: content.to_string(),
        hl_group: None,
        ansi: false,
    }))
}

fn line_leaf(spans: Vec<StyledSpan>) -> LayoutIr {
    BlockLayout::Leaf(IrLeaf::Line(LineSpec {
        spans,
        hl_group: None,
        syntax_highlights: no_syntax(),
    }))
}

fn runs_spec(lines: Vec<Vec<StyledSpan>>, continuation_indent: u16) -> RunsSpec {
    RunsSpec { lines, hl_group: None, continuation_indent, syntax_highlights: no_syntax() }
}

fn runs_leaf(lines: Vec<Vec<StyledSpan>>, continuation_indent: u16) -> LayoutIr {
    BlockLayout::Leaf(IrLeaf::Runs(runs_spec(lines, continuation_indent)))
}

fn content_leaf(content: u64, render: ContentRenderSpec) -> LayoutIr {
    BlockLayout::Leaf(IrLeaf::Content(RetainedContentSpec { content, render }))
}

fn retained_text(content: u64) -> LayoutIr {
    content_leaf(content, ContentRenderSpec::Text { hl_group: None, ansi: true })
}

fn retained_markdown(content: u64) -> LayoutIr {
    content_leaf(
        content,
        ContentRenderSpec::Markdown { dim: false, italic: false, inline: false },
    )
}

fn panel_layout(child: LayoutIr, padding: u16) -> LayoutIr {
    BlockLayout::Panel {
        child: Box::new(child),
        spec: PanelSpec { hl_group: "Normal".into(), padding },
    }
}

fn cap(child: LayoutIr, rows: u16, keep: CapKeep, total_rows: Option<u64>) -> LayoutIr {
    BlockLayout::Cap { child: Box::new(child), spec: CapSpec { rows, keep, total_rows } }
}

fn tail(marker: bool) -> CapKeep {
    CapKeep::Tail { marker: if marker { Some(CapMarker::Above) } else { None } }
}

fn style_spec(dim: bool, italic: bool) -> StyleSpec {
    StyleSpec { hl_group: None, fg: None, bg: None, dim, bold: false, italic }
}

fn gutter_layout(child: LayoutIr, text: &str, styled: bool) -> LayoutIr {
    BlockLayout::Gutter {
        child: Box::new(child),
        spec: GutterSpec { text: text.to_string(), styled },
    }
}

fn prefix_layout(child: LayoutIr, first: &str, rest: &str) -> LayoutIr {
    let spans = |text: &str| if text.is_empty() { Vec::new() } else { vec![span(text)] };
    BlockLayout::RowPrefix {
        child: Box::new(child),
        spec: RowPrefixSpec { first: spans(first), rest: spans(rest) },
    }
}

#[test]
fn panel_renders_requested_child_range_once() {
    let texts = Texts::with("one\ntwo\nthree\nfour");
    let layout = panel_layout(retained_text(1), 1);
    let host = host(&texts);
    let measured = host.measure_layout_ir_plan(&layout, 12);
    let rows = host.render_layout_ir_range_measured(
        &layout,
        12,
        1,
        3,
        None,
        RenderMeasurement::Measured(&measured),
    );
    assert_eq!(rows.len(), 3);
    let lines: Vec<String> = rows.iter().map(|ops| draw(&texts, ops).text).collect();
    assert_eq!(lines, vec![" one", " two", " three"]);
    for (at, ops) in rows.iter().enumerate() {
        let leaves: Vec<usize> = ops
            .iter()
            .filter_map(|op| match op {
                RowOp::Leaf { row, .. } => Some(*row),
                _ => None,
            })
            .collect();
        assert_eq!(leaves, vec![at]);
    }
}

#[test]
fn panel_preserves_padding_background_copy_and_soft_wrap_metadata() {
    let texts = Texts::with("abcdef");
    let layout = panel_layout(retained_text(1), 1);
    let rows = render_rows(&texts, &layout, 5);
    let lines: Vec<&str> = rows.iter().map(|row| row.text.as_str()).collect();
    assert_eq!(lines, vec![" ", " abc", " def", " "]);
    assert!(rows.iter().all(|row| row.panels == 1));
}

#[test]
fn panel_renders_child_ranges_past_terminal_row_limits() {
    let texts = Texts::with("x".repeat(70_001));
    let layout = panel_layout(retained_text(1), 1);
    assert_eq!(range_lines(&texts, &layout, 3, 70_000, 2), vec![" x", " x"]);
}

#[test]
fn retained_measurement_refresh_matches_full_rebuild_without_reallocating_tree() {
    let texts = Texts::with("one");
    let layout = BlockLayout::Vbox(vec![
        panel_layout(
            BlockLayout::Style {
                child: Box::new(gutter_layout(
                    cap(retained_text(1), 3, tail(true), None),
                    "│ ",
                    true,
                )),
                spec: style_spec(false, false),
            },
            1,
        ),
        BlockLayout::Hbox(vec![
            HboxItem {
                constraint: Constraint::Length(3),
                layout: text_leaf("log"),
                copy_owner: true,
            },
            HboxItem {
                constraint: Constraint::Fill(1),
                layout: prefix_layout(retained_text(1), "", ""),
                copy_owner: false,
            },
        ]),
    ]);
    let host = host(&texts);
    let mut measured = host.measure_layout_ir_plan(&layout, 12);
    let retained_bytes = measured.retained_bytes();
    texts.contents.borrow_mut().get_mut(&1).unwrap().push_str(
        "\ntwo two two\nthree three three\nfour",
    );
    assert!(host.refresh_layout_ir_content_measurements(&layout, &mut measured, 12));
    let rebuilt = host.measure_layout_ir_plan(&layout, 12);
    assert_eq!(format!("{measured:?}"), format!("{rebuilt:?}"));
    assert_eq!(measured.retained_bytes(), retained_bytes);
}

#[test]
fn retained_code_matches_transient_code_layout_and_copy_text() {
    let source = "fn main() {\n\tprintln!(\"hello world\");\n}";
    let texts = Texts::with(source);
    let transient = BlockLayout::Leaf(IrLeaf::Code(CodeSpec {
        content: source.to_string(),
        lang: "rust".into(),
    }));
    let retained = content_leaf(1, ContentRenderSpec::Code { lang: "rust".into() });
    assert_eq!(measure(&texts, &retained, 18), measure(&texts, &transient, 18));
    assert_eq!(render_lines(&texts, &retained, 18), render_lines(&texts, &transient, 18));
}

#[test]
fn retained_code_tail_cap_does_not_build_a_full_file_layout() {
    let texts = Texts::with("x".repeat(70_001));
    let code = content_leaf(1, ContentRenderSpec::Code { lang: "text".into() });
    let layout = cap(code, 2, tail(true), Some(70_001));
    let measured = host(&texts).measure_layout_ir_plan(&layout, 40);
    assert_eq!(measured.rows(), 3);
    assert!(matches!(measured.kind, MeasuredLayoutKind::Terminal));
    assert_eq!(
        render_lines(&texts, &layout, 40),
        [
            "… showing last 2 of 70001 lines".to_string(),
            "x".repeat(40),
            "x".to_string(),
        ]
    );
    assert_eq!(texts.leaves_measured.get(), 0);
}

#[test]
fn retained_file_tail_cap_does_not_build_a_full_file_layout() {
    let texts = Texts::with("x".repeat(70_001));
    let file = content_leaf(1, ContentRenderSpec::File { path: "output.txt".into(), lang: None });
    let layout = cap(file, 2, tail(false), None);
    let measured = host(&texts).measure_layout_ir_plan(&layout, 10);
    assert_eq!(measured.rows(), 2);
    assert!(matches!(measured.kind, MeasuredLayoutKind::Terminal));
    assert_eq!(render_lines(&texts, &layout, 10).len(), 2);
    assert_eq!(texts.leaves_measured.get(), 0);
}

#[test]
fn retained_code_renders_ranges_past_terminal_row_limits() {
    let texts = Texts::with("x".repeat(70_001));
    let layout = content_leaf(1, ContentRenderSpec::Code { lang: "text".into() });
    assert_eq!(host(&texts).measure_layout_ir_plan(&layout, 1).rows(), 70_001);
    assert_eq!(range_lines(&texts, &layout, 1, 69_999, 2), vec!["x", "x"]);
}

#[test]
fn retained_markdown_ascii_word_renders_deep_ranges_without_snapshotting() {
    let texts = Texts::with("x".repeat(70_001));
    let layout = retained_markdown(1);
    assert_eq!(host(&texts).measure_layout_ir_plan(&layout, 1).rows(), 70_001);
    assert_eq!(range_lines(&texts, &layout, 1, 69_999, 2), vec!["x", "x"]);
}

fn paragraphs() -> String {
    (0..2_000)
        .map(|i| format!("Paragraph {i}: {}", "alpha beta gamma delta ".repeat(6)))
        .collect::<Vec<_>>()
        .join("\n\n")
}

#[test]
fn markdown_range_render_does_not_materialize_full_block() {
    let texts = Texts::default();
    let layout = BlockLayout::Leaf(IrLeaf::Markdown(MarkdownSpec {
        content: paragraphs(),
        dim: false,
        italic: false,
        inline: false,
    }));
    let host = host(&texts);
    let measured = host.measure_layout_ir_plan(&layout, 60);
    let rows = host.render_layout_ir_range_into_measured(&layout, &measured, 60, 300, 3);
    assert_eq!(rows.len(), 3);
    for (at, ops) in rows.iter().enumerate() {
        assert!(matches!(ops.as_slice(), [RowOp::Leaf { row, .. }] if *row == 300 + at));
    }
}

#[test]
fn large_markdown_tail_range_matches_measured_rows() {
    let texts = Texts::default();
    let layout = BlockLayout::Leaf(IrLeaf::Markdown(MarkdownSpec {
        content: "x".repeat(2_100_000),
        dim: false,
        italic: false,
        inline: false,
    }));
    let width = 51;
    let host = host(&texts);
    let measured = host.measure_layout_ir_plan(&layout, width);
    let row_count = 43;
    let row_start = measured.rows() - row_count;
    let rows =
        host.render_layout_ir_range_into_measured(&layout, &measured, width, row_start, row_count);
    assert_eq!(rows.len(), row_count);
}

#[test]
fn markdown_entities_use_markdown_renderer() {
    assert!(!can_render_markdown_as_plain("alpha &amp; beta"));
    assert!(can_render_markdown_as_plain("alpha beta"));
}

#[test]
fn guttered_markdown_range_render_stays_bounded() {
    let texts = Texts::default();
    let layout = gutter_layout(
        BlockLayout::Leaf(IrLeaf::Markdown(MarkdownSpec {
            content: paragraphs(),
            dim: true,
            italic: true,
            inline: false,
        })),
        "│ ",
        true,
    );
    let lines = range_lines(&texts, &layout, 60, 300, 3);
    assert_eq!(lines.len(), 3);
    for line in lines {
        assert!(line.starts_with("│ "), "{line:?}");
    }
}

#[test]
fn clipped_rows_count_controls_as_cells() {
    let slice_cells = |text: &str, start: usize, end: usize| -> String {
        text.chars().skip(start).take(end - start).collect()
    };
    let resolve = |_: u64| -> CellStyle { plain_cell_style() };
    let (runs, emitted) = emit_buffer_row_clipped(
        "abcdefghi\u{7f}j",
        &Vec::new(),
        10,
        None,
        &slice_cells,
        &resolve,
    );
    let line: String = runs.iter().map(|run| run.text.as_str()).collect();
    assert_eq!(emitted, 10);
    assert_eq!(cells(&line), 10);
    assert_eq!(line, "abcdefghi\u{7f}");
}

#[test]
fn row_prefix_clips_long_control_chrome_to_viewport() {
    let texts = Texts::default();
    let chrome = format!("* {}", "\u{1c}".repeat(8));
    let layout = prefix_layout(line_leaf(vec![span("x")]), &chrome, &chrome);
    let lines = render_lines(&texts, &layout, 10);
    assert_eq!(lines, vec![format!("* {}x", "\u{1c}".repeat(7))]);
    assert!(lines.iter().all(|line| cells(line) <= 10));
}

#[test]
fn hbox_children_share_grapheme_width_without_overflow() {
    let texts = Texts::default();
    let layout = BlockLayout::Hbox(vec![
        HboxItem {
            constraint: Constraint::Length(1),
            layout: line_leaf(vec![span("9")]),
            copy_owner: false,
        },
        HboxItem {
            constraint: Constraint::Length(1),
            layout: line_leaf(vec![span("\u{fe0f}x")]),
            copy_owner: true,
        },
    ]);
    let lines = render_lines(&texts, &layout, 2);
    assert_eq!(lines, vec!["9\u{fe0f}"]);
    assert!(lines.iter().all(|line| cells(line) <= 2));
}

#[test]
fn row_prefix_and_child_share_grapheme_width() {
    let texts = Texts::default();
    let layout = prefix_layout(runs_leaf(vec![vec![span("\u{fe0f}x")]], 0), "9", "");
    let lines = render_lines(&texts, &layout, 2);
    assert_eq!(lines, vec!["9\u{fe0f}", "x"]);
    assert!(lines.iter().all(|line| cells(line) <= 2));
    assert_eq!(measure(&texts, &layout, 2), lines.len());

    let clipped_line = prefix_layout(line_leaf(vec![span("\u{fe0f}x")]), "9", "");
    assert_eq!(render_lines(&texts, &clipped_line, 2), vec!["9\u{fe0f}"]);

    let ordinary_prefix = prefix_layout(runs_leaf(vec![vec![span("x")]], 0), "**", "**");
    assert_eq!(render_lines(&texts, &ordinary_prefix, 2), vec!["*x"]);

    let gutter_join = gutter_layout(
        prefix_layout(runs_leaf(vec![vec![span("x")]], 0), "\u{fe0f}", ""),
        "9",
        false,
    );
    let lines = render_lines(&texts, &gutter_join, 2);
    assert_eq!(lines, vec!["9\u{fe0f}"]);
    assert!(lines.iter().all(|line| cells(line) <= 2));
}

#[test]
fn replaying_temp_rows_with_wide_chars_uses_display_columns() {
    let texts = Texts::default();
    let layout = prefix_layout(
        line_leaf(vec![
            span("aaaaaaaaaaaaaaaaaaaaaaaaaaa界界"),
            StyledSpan { hl: Some("accent".into()), ..span("x") },
        ]),
        "",
        "",
    );
    assert_eq!(
        render_lines(&texts, &layout, 80),
        vec!["aaaaaaaaaaaaaaaaaaaaaaaaaaa界界x"]
    );
}

/// What copying some lines gives: those that go on from the line above are not broken.
fn copied(lines: &[DrawnLine]) -> String {
    let mut text = String::new();
    for (i, line) in lines.iter().enumerate() {
        if i > 0 && !line.continuation {
            text.push('\n');
        }
        text.push_str(&line.text);
    }
    text
}

#[test]
fn text_copy_omits_soft_wraps_and_preserves_source_newlines() {
    let source = "alpha beta gamma delta\nsecond logical line";
    let spec = TextSpec { content: source.into(), hl_group: None, ansi: false };
    let lines = leaf_lines(&Texts::default(), &IrLeaf::Text(spec), 10, None);
    assert!(lines.len() > 2);
    assert_eq!(copied(&lines), source);
}

#[test]
fn hbox_copy_preserves_owner_soft_wraps() {
    let texts = Texts::default();
    let source = "alpha beta gamma delta\nsecond logical line";
    let layout = BlockLayout::Hbox(vec![
        HboxItem {
            constraint: Constraint::Length(4),
            layout: line_leaf(vec![StyledSpan { selectable: false, ..span("time") }]),
            copy_owner: false,
        },
        HboxItem {
            constraint: Constraint::Fill(1),
            layout: runs_leaf(source.lines().map(|line| vec![span(line)]).collect(), 0),
            copy_owner: true,
        },
    ]);
    let rows = render_rows(&texts, &layout, 16);
    assert!(rows.len() > 2);
    let owned: Vec<DrawnLine> = rows
        .iter()
        .map(|row| DrawnLine {
            text: row.text.chars().skip(4).collect::<String>(),
            continuation: row.continuation,
        })
        .collect();
    let words = |text: &str| text.split_whitespace().map(str::to_string).collect::<Vec<_>>();
    let lines: Vec<Vec<String>> = copied(&owned).lines().map(words).collect();
    assert_eq!(lines, source.lines().map(words).collect::<Vec<_>>());
}

#[test]
fn runs_continuation_indent_aligns_soft_wrapped_rows() {
    let texts = Texts::default();
    let layout = runs_leaf(
        vec![vec![
            StyledSpan { selectable: false, ..span("* grep ") },
            span("alpha beta gamma delta epsilon"),
        ]],
        7,
    );
    assert_eq!(
        render_lines(&texts, &layout, 20),
        vec!["* grep alpha beta ", "       gamma delta ", "       epsilon"]
    );
    assert_eq!(measure(&texts, &layout, 20), 3);
}

fn numbered_lines(count: usize) -> String {
    (0..count).map(|line| format!("line {line:06}")).collect::<Vec<_>>().join("\n")
}

#[test]
fn retained_text_tail_cap_keeps_measurement_and_rendering_bounded() {
    let texts = Texts::with(numbered_lines(100_000));
    let layout = cap(retained_text(1), 3, tail(true), Some(100_000));
    let measured = host(&texts).measure_layout_ir_plan(&layout, 80);
    assert_eq!(measured.rows(), 4);
    assert!(matches!(measured.kind, MeasuredLayoutKind::Terminal));
    assert_eq!(
        render_lines(&texts, &layout, 80),
        [
            "… showing last 3 of 100000 lines",
            "line 099997",
            "line 099998",
            "line 099999",
        ]
    );
    assert_eq!(texts.leaves_measured.get(), 0);
}

#[test]
fn thinking_peek_cap_queries_wrapped_retained_markdown_edges() {
    let texts = Texts::with(format!("{}x", "word ".repeat(14_000)));
    let thinking = BlockLayout::Style {
        child: Box::new(BlockLayout::Vbox(vec![
            BlockLayout::Leaf(IrLeaf::Markdown(MarkdownSpec {
                content: "**Title**".into(),
                dim: false,
                italic: false,
                inline: false,
            })),
            retained_markdown(1),
        ])),
        spec: style_spec(true, true),
    };
    let layout = gutter_layout(
        cap(thinking, 4, CapKeep::HeadTail { head: 1, marker: true }, Some(7_002)),
        "│ ",
        true,
    );
    assert_eq!(host(&texts).measure_layout_ir_plan(&layout, 40).rows(), 5);
    assert_eq!(
        render_lines(&texts, &layout, 40),
        [
            "│ Title".to_string(),
            "│ … 6998 lines omitted …".to_string(),
            "│ word word word word word word word wor".to_string(),
            "│ d word word word word word word word w".to_string(),
            "│ ord x".to_string(),
        ]
    );
}

#[test]
fn pathological_retained_markdown_nodes_use_bounded_literal_edges() {
    let texts = Texts::with(format!("# {}", "word ".repeat(14_000)));
    let layout = cap(retained_markdown(1), 2, tail(true), Some(1_751));
    let measured = host(&texts).measure_layout_ir_plan(&layout, 40);
    assert_eq!(measured.rows(), 3);
    assert!(matches!(measured.kind, MeasuredLayoutKind::Terminal));
    assert_eq!(
        render_lines(&texts, &layout, 40),
        [
            "… showing last 2 of 1751 lines",
            "d word word word word word word word wor",
            "d ",
        ]
    );
}

#[test]
fn pathological_non_ascii_markdown_uses_bounded_omission() {
    let texts = Texts::with("界".repeat(30_000));
    let markdown = content_leaf(
        1,
        ContentRenderSpec::Markdown { dim: true, italic: false, inline: false },
    );
    let layout = cap(markdown, 4, tail(true), None);
    let measured = host(&texts).measure_layout_ir_plan(&layout, 80);
    assert_eq!(measured.rows(), 1);
    assert!(matches!(measured.kind, MeasuredLayoutKind::Terminal));
    assert_eq!(render_lines(&texts, &layout, 80), ["[large Markdown content omitted]"]);
}

#[test]
fn pathological_multiline_markdown_nodes_use_bounded_literal_edges() {
    let body = (0..10_000).map(|line| format!("line {line:05}")).collect::<Vec<_>>().join("\n");
    let texts = Texts::with(format!("```\n{body}\n```"));
    let layout = cap(retained_markdown(1), 2, tail(true), Some(10_002));
    let measured = host(&texts).measure_layout_ir_plan(&layout, 80);
    assert_eq!(measured.rows(), 3);
    assert!(matches!(measured.kind, MeasuredLayoutKind::Terminal));
    assert_eq!(
        render_lines(&texts, &layout, 80),
        ["… showing last 2 of 10002 lines", "line 09999", "```"]
    );
}

#[test]
fn oversized_transient_caps_never_measure_or_render_the_payload() {
    let texts = Texts::default();
    let layout = cap(
        text_leaf(&"x".repeat(MAX_BOUNDED_EDGE_EXACT_BYTES + 1)),
        2,
        CapKeep::HeadTail { head: 1, marker: true },
        None,
    );
    let measured = host(&texts).measure_layout_ir_plan(&layout, 40);
    let lines = render_lines(&texts, &layout, 40);
    assert!(matches!(measured.kind, MeasuredLayoutKind::Terminal));
    assert_eq!(lines, vec!["[large transient layout omitted]", "… 1 line omitted …"]);
    assert_eq!(texts.leaves_measured.get(), 0);
}

#[test]
fn transient_span_budget_bounds_zero_width_layouts() {
    let texts = Texts::default();
    let spans = || (0..=MAX_BOUNDED_EDGE_EXACT_SPANS).map(|_| span("")).collect::<Vec<_>>();
    let leaf = IrLeaf::Line(LineSpec {
        spans: spans(),
        hl_group: None,
        syntax_highlights: no_syntax(),
    });
    assert!(!host(&texts).leaf_fits_exact_measure_budget(&leaf));

    let layout = prefix_layout(
        cap(runs_leaf(vec![spans()], 0), 1, CapKeep::Head { marker: None }, None),
        "F ",
        "R ",
    );
    assert_eq!(render_lines(&texts, &layout, 40), vec!["F [large transient layout omitted]"]);
}

#[test]
fn transient_depth_budget_bounds_deeply_nested_caps() {
    let texts = Texts::default();
    let mut child = text_leaf("payload");
    for _ in 0..=MAX_BOUNDED_EDGE_DEPTH {
        child = BlockLayout::Style { child: Box::new(child), spec: style_spec(false, false) };
    }
    assert!(!host(&texts).layout_fits_exact_measure_budget(&child));
    let layout = cap(child, 1, CapKeep::HeadTail { head: 1, marker: true }, None);
    assert_eq!(
        render_lines(&texts, &layout, 40),
        vec!["[large transient layout omitted]", "… 1 line omitted …"]
    );
}

#[test]
fn edges_below_the_depth_budget_are_one_note() {
    let texts = Texts::default();
    let layout = text_leaf("payload");
    let host = host(&texts);
    for (max_rows, shown) in [(0, 0), (1, 1), (5, 1)] {
        let (rows, window) = host.render_bounded_layout_edge_inner(
            &layout,
            40,
            max_rows,
            false,
            MAX_BOUNDED_EDGE_DEPTH + 1,
        );
        assert_eq!(window, ContentTextWindow { row_count: shown, truncated: true });
        let lines: Vec<String> = rows.iter().map(|ops| draw(&texts, ops).text).collect();
        assert_eq!(lines, vec!["[large transient layout omitted]"; shown]);
    }
    let (rows, window) =
        host.render_bounded_layout_edge_inner(&layout, 40, 5, false, MAX_BOUNDED_EDGE_DEPTH);
    assert_eq!(window, ContentTextWindow { row_count: 1, truncated: false });
    assert_eq!(draw(&texts, &rows[0]).text, "payload");
}

#[test]
fn layouts_drawn_on_the_spot_have_their_measured_rows() {
    let texts = Texts::with("one\ntwo two\nthree three three");
    let column = |layout: LayoutIr, constraint: Constraint| HboxItem {
        constraint,
        layout,
        copy_owner: false,
    };
    let layouts = [
        text_leaf("alpha beta gamma"),
        BlockLayout::Vbox(vec![text_leaf("alpha beta"), retained_text(1)]),
        panel_layout(gutter_layout(retained_text(1), "> ", true), 1),
        BlockLayout::Hbox(vec![
            column(text_leaf("a b c d e f g h"), Constraint::Length(4)),
            column(retained_text(1), Constraint::Fill(1)),
        ]),
        cap(retained_text(1), 2, tail(true), None),
    ];
    for layout in &layouts {
        let rows = measure(&texts, layout, 12);
        assert_eq!(render_lines(&texts, layout, 12).len(), rows);
        for start in 0..rows {
            for count in 0..4 {
                let drawn = host(&texts).render_layout_ir_range_measured(
                    layout,
                    12,
                    start,
                    count,
                    None,
                    RenderMeasurement::Complete,
                );
                assert_eq!(drawn.len(), count.min(rows - start));
            }
        }
    }
}

#[test]
fn measured_layouts_keep_nodes_and_column_widths() {
    let texts = Texts::default();
    let node = std::mem::size_of::<MeasuredLayout>();
    let measured = host(&texts).measure_layout_ir_plan(&text_leaf("a"), 10);
    assert_eq!(measured.retained_bytes(), node);
    assert_eq!(layout_bytes_at(&measured, &Vec::new()), node);
    let columns = BlockLayout::Hbox(vec![
        HboxItem {
            constraint: Constraint::Length(3),
            layout: text_leaf("a"),
            copy_owner: false,
        },
        HboxItem {
            constraint: Constraint::Fill(1),
            layout: text_leaf("b"),
            copy_owner: false,
        },
    ]);
    let measured = host(&texts).measure_layout_ir_plan(&columns, 10);
    assert_eq!(layout_bytes_at(&measured, &vec![2]), 3 * node + 4);
    assert_eq!(layout_bytes_at(&measured, &vec![5]), 3 * node + 10);
    assert_eq!(layout_bytes_at(&measured, &vec![usize::MAX]), usize::MAX);
    assert!(measured.retained_bytes() >= 3 * node + 4);
}

#[test]
fn refreshing_leaves_layouts_without_contents_alone() {
    let texts = Texts::default();
    let host = host(&texts);
    let layout = BlockLayout::Vbox(vec![text_leaf("alpha beta"), text_leaf("gamma")]);
    let mut measured = host.measure_layout_ir_plan(&layout, 6);
    let before = format!("{measured:?}");
    assert!(!host.refresh_layout_ir_content_measurements(&layout, &mut measured, 6));
    assert_eq!(format!("{measured:?}"), before);
}

#[test]
fn bounded_caps_render_retained_content_through_recursive_wrappers() {
    let texts = Texts::with("one\ntwo\nthree\nfour\nfive");
    texts.contents.borrow_mut().insert(2, "six\nseven\neight\nnine\nten".to_string());
    let tail_cap = |child, total_rows| cap(child, 2, tail(true), Some(total_rows));
    let cases = [
        (
            "style",
            tail_cap(
                BlockLayout::Style {
                    child: Box::new(retained_text(1)),
                    spec: style_spec(true, false),
                },
                5,
            ),
            vec!["… showing last 2 of 5 lines", "four", "five"],
        ),
        (
            "vbox",
            tail_cap(BlockLayout::Vbox(vec![text_leaf("title"), retained_text(1)]), 6),
            vec!["… showing last 2 of 6 lines", "four", "five"],
        ),
        (
            "gutter",
            tail_cap(gutter_layout(retained_text(1), "│ ", false), 5),
            vec!["… showing last 2 of 5 lines", "│ four", "│ five"],
        ),
        (
            "row prefix",
            tail_cap(prefix_layout(retained_text(1), "F ", "R "), 5),
            vec!["… showing last 2 of 5 lines", "R four", "R five"],
        ),
        (
            "panel",
            tail_cap(panel_layout(retained_text(1), 1), 7),
            vec!["… showing last 2 of 7 lines", " five", " "],
        ),
        (
            "hbox",
            tail_cap(
                BlockLayout::Hbox(vec![
                    HboxItem {
                        constraint: Constraint::Length(5),
                        layout: retained_text(1),
                        copy_owner: true,
                    },
                    HboxItem {
                        constraint: Constraint::Length(5),
                        layout: retained_text(2),
                        copy_owner: false,
                    },
                ]),
                5,
            ),
            vec!["… showing last 2 of 5 lines", "four nine ", "five ten  "],
        ),
        (
            "nested cap",
            tail_cap(cap(retained_text(1), 3, tail(true), Some(5)), 4),
            vec!["… showing last 2 of 4 lines", "four", "five"],
        ),
    ];

    for (name, layout, expected) in cases {
        let measured = host(&texts).measure_layout_ir_plan(&layout, 40);
        assert!(
            matches!(measured.kind, MeasuredLayoutKind::Terminal),
            "{name} used a full child measurement"
        );
        assert_eq!(render_lines(&texts, &layout, 40), expected, "{name}");
    }
}

#[test]
fn bounded_cap_preserves_styled_gutters_for_content_and_markers() {
    let texts = Texts::with("one\ntwo\nthree\nfour\nfive");
    let layout = gutter_layout(
        cap(
            BlockLayout::Style {
                child: Box::new(retained_text(1)),
                spec: style_spec(true, true),
            },
            2,
            CapKeep::HeadTail { head: 1, marker: true },
            Some(5),
        ),
        "│ ",
        true,
    );
    let rows = render_rows(&texts, &layout, 40);
    let lines: Vec<&str> = rows.iter().map(|row| row.text.as_str()).collect();
    assert_eq!(lines, vec!["│ one", "│ … 3 lines omitted …", "│ five"]);
    let head = rows[0].gutter.unwrap();
    assert!(head.dim && head.italic);
    let marker = rows[1].gutter.unwrap();
    assert!(marker.dim && !marker.italic);
    let tail = rows[2].gutter.unwrap();
    assert!(tail.dim && tail.italic);
}

#[test]
fn bounded_cap_wrappers_preserve_copy_and_soft_wrap_metadata() {
    let texts = Texts::with("abcdef");
    let layout = cap(prefix_layout(retained_text(1), "R ", "R "), 2, tail(false), Some(3));
    assert_eq!(render_lines(&texts, &layout, 4), vec!["R cd", "R ef"]);
}

#[test]
fn retained_text_range_renders_past_terminal_row_limits_through_wrappers() {
    let content =
        (0..70_000).map(|line| format!("line {line}")).collect::<Vec<_>>().join("\n");
    let texts = Texts::with(content);
    let layout = gutter_layout(
        BlockLayout::Style {
            child: Box::new(content_leaf(
                1,
                ContentRenderSpec::Text { hl_group: None, ansi: false },
            )),
            spec: style_spec(false, false),
        },
        "│ ",
        false,
    );
    assert_eq!(host(&texts).measure_layout_ir_plan(&layout, 80).rows(), 70_000);
    assert_eq!(range_lines(&texts, &layout, 80, 69_999, 1), vec!["│ line 69999"]);
}

#[test]
fn cap_head_tail_uses_three_bounded_segments() {
    let rows = cap_rows(
        10,
        &CapSpec {
            rows: 4,
            keep: CapKeep::HeadTail { head: 2, marker: true },
            total_rows: None,
        },
    );
    assert_eq!(rows.row_count(), 5);
    assert_eq!(rows.row_at(0), Some(CapRow::Child(0)));
    assert_eq!(rows.row_at(1), Some(CapRow::Child(1)));
    assert_eq!(
        rows.row_at(2),
        Some(CapRow::Marker {
            skipped: 6,
            kept: 4,
            total: None,
            direction: CapDirection::Omitted,
        })
    );
    assert_eq!(rows.row_at(3), Some(CapRow::Child(8)));
    assert_eq!(rows.row_at(4), Some(CapRow::Child(9)));
    assert_eq!(rows.row_at(5), None);
}

#[test]
fn retained_cap_head_tail_marks_truncation_even_when_omitted_rows_are_blank() {
    let texts = Texts::with("head\n\n\n\ntail");
    let layout =
        cap(retained_text(1), 2, CapKeep::HeadTail { head: 1, marker: true }, Some(5));
    assert_eq!(
        render_lines(&texts, &layout, 80),
        vec!["head", "… 3 lines omitted …", "tail"]
    );
    assert_eq!(measure(&texts, &layout, 80), 3);
}

#[test]
fn retained_markdown_cap_suppresses_marker_for_blank_omitted_row() {
    let texts = Texts::with(
        "first paragraph\n\nsecond paragraph\nthird paragraph\nfourth paragraph",
    );
    let markdown = content_leaf(
        1,
        ContentRenderSpec::Markdown { dim: true, italic: true, inline: false },
    );
    let layout = cap(markdown, 4, CapKeep::HeadTail { head: 1, marker: true }, Some(5));
    assert_eq!(
        render_lines(&texts, &layout, 80),
        vec!["first paragraph", "second paragraph", "third paragraph", "fourth paragraph"]
    );
    assert_eq!(measure(&texts, &layout, 80), 4);
}

#[test]
fn cap_head_tail_suppresses_marker_for_blank_omitted_rows() {
    let texts = Texts::default();
    let layout = cap(
        text_leaf("head\n\n\n\ntail"),
        2,
        CapKeep::HeadTail { head: 1, marker: true },
        None,
    );
    assert_eq!(render_lines(&texts, &layout, 80), vec!["head", "tail"]);
    assert_eq!(measure(&texts, &layout, 80), 2);
}

#[test]
fn cap_head_tail_keeps_marker_for_visible_omitted_rows() {
    let texts = Texts::default();
    let layout = cap(
        text_leaf("head\n\nmiddle\n\ntail"),
        2,
        CapKeep::HeadTail { head: 1, marker: true },
        None,
    );
    assert_eq!(
        render_lines(&texts, &layout, 80),
        vec!["head", "… 3 lines omitted …", "tail"]
    );
    assert_eq!(measure(&texts, &layout, 80), 3);
}

#[test]
fn cap_tail_marker_uses_total_rows_when_available() {
    let texts = Texts::default();
    let layout = cap(text_leaf("one\ntwo\nthree\nfour"), 2, tail(true), Some(100));
    assert_eq!(
        render_lines(&texts, &layout, 80),
        vec!["… showing last 2 of 100 lines", "three", "four"]
    );
}

#[test]
fn line_prefix_and_separator_share_cross_span_grapheme_widths() {
    let texts = Texts::default();
    let split = || {
        vec![
            StyledSpan { fg: Some("first".into()), ..span("⌚") },
            StyledSpan { fg: Some("second".into()), ..span("\u{fe0e}") },
        ]
    };
    let line = line_leaf(split());
    assert_eq!(render_lines(&texts, &line, 10), vec!["⌚\u{fe0e}"]);
    assert_eq!(intrinsic_layout_width(&line, 10), 1);

    let prefixed = BlockLayout::RowPrefix {
        child: Box::new(line_leaf(vec![span("x")])),
        spec: RowPrefixSpec { first: split(), rest: split() },
    };
    assert_eq!(render_lines(&texts, &prefixed, 2), vec!["⌚\u{fe0e}x"]);
    assert_eq!(intrinsic_layout_width(&prefixed, 10), 2);

    let separator = BlockLayout::Leaf(IrLeaf::Separator(SeparatorSpec {
        label: split(),
        dim: false,
        selectable: true,
    }));
    assert_eq!(render_lines(&texts, &separator, 1), vec!["⌚\u{fe0e}"]);
    assert_eq!(intrinsic_layout_width(&separator, 10), 1);
}

#[test]
fn layout_ir_measurement_matches_rendered_rows() {
    let texts = Texts::default();
    let layout = BlockLayout::Vbox(vec![
        BlockLayout::Leaf(IrLeaf::Runs(RunsSpec {
            hl_group: Some("SmeltToolPending".into()),
            ..runs_spec(
                vec![vec![StyledSpan {
                    syntax: Some("bash".into()),
                    ..span("echo hello && echo world && echo done")
                }]],
                0,
            )
        })),
        text_leaf("output line that wraps at narrow widths"),
    ]);
    assert_eq!(measure(&texts, &layout, 24), render_lines(&texts, &layout, 24).len());
}

#[test]
fn every_range_is_a_cut_of_all_rows() {
    let texts = Texts::with("one\ntwo\nthree");
    let layout = panel_layout(
        gutter_layout(
            BlockLayout::Vbox(vec![text_leaf("alpha beta gamma"), retained_text(1)]),
            "> ",
            true,
        ),
        1,
    );
    let all = render_lines(&texts, &layout, 10);
    assert_eq!(all.len(), measure(&texts, &layout, 10));
    for start in 0..all.len() {
        for count in 0..4 {
            let end = (start + count).min(all.len());
            assert_eq!(range_lines(&texts, &layout, 10, start, count), all[start..end]);
        }
    }
}

#[test]
fn projected_view_ranges_render_only_requested_retained_rows() {
    let texts = Texts::with(numbered_lines(100_000));
    let layout = content_leaf(1, ContentRenderSpec::Text { hl_group: None, ansi: false });
    let host = host(&texts);
    let measured = host.measure_layout_ir_plan(&layout, 80);
    let cases = [
        (ViewState::Collapsed, 0, 2, vec!["line 000000", "… 99999 more lines"]),
        (
            ViewState::TrimmedHead { keep: 2 },
            1,
            2,
            vec!["line 000001", "… 99998 more lines"],
        ),
        (
            ViewState::TrimmedTail { keep: 2 },
            0,
            2,
            vec!["… 99998 more lines above", "line 099998"],
        ),
        (ViewState::TrimmedTail { keep: 2 }, 1, 2, vec!["line 099998", "line 099999"]),
    ];
    for (view_state, row_start, row_count, expected) in cases {
        let rows = render_projected_view_range(view_state, measured.rows(), row_start, row_count);
        let lines: Vec<String> = rows
            .iter()
            .map(|row| match row {
                ViewRow::Source { row } => {
                    let ops =
                        host.render_layout_ir_range_into_measured(&layout, &measured, 80, *row, 1);
                    draw(&texts, &ops[0]).text
                }
                ViewRow::Ellipsis { hidden, above } => ellipsis_text(*hidden, *above),
            })
            .collect();
        assert_eq!(lines, expected);
    }
}

#[test]
fn blocks_show_rows_and_a_note_on_the_rest() {
    let texts = Texts::with("one\ntwo\nthree\nfour");
    let layout = retained_text(1);
    let host = host(&texts);
    let measured = host.measure_layout_ir_plan(&layout, 40);
    let shown = |state: ViewState, start: usize, count: usize| -> Vec<String> {
        host.render_block_range(&layout, &measured, 40, state, start, count)
            .iter()
            .map(|row| match row {
                BlockRow::Layout(ops) => draw(&texts, ops).text,
                BlockRow::Note(text) => text.clone(),
            })
            .collect()
    };
    assert_eq!(shown(ViewState::Expanded, 1, 2), vec!["two", "three"]);
    assert_eq!(shown(ViewState::Expanded, 0, 0), Vec::<String>::new());
    assert_eq!(shown(ViewState::Collapsed, 0, 9), vec!["one", "… 3 more lines"]);
    assert_eq!(
        shown(ViewState::TrimmedHead { keep: 2 }, 1, 9),
        vec!["two", "… 2 more lines"]
    );
    assert_eq!(
        shown(ViewState::TrimmedTail { keep: 2 }, 0, 9),
        vec!["… 2 more lines above", "three", "four"]
    );
    assert_eq!(shown(ViewState::TrimmedTail { keep: 2 }, 2, 9), vec!["four"]);
    assert_eq!(shown(ViewState::TrimmedTail { keep: 2 }, 0, 1), vec!["… 2 more lines above"]);
    assert_eq!(shown(ViewState::Peek, 3, 9), vec!["four"]);
}

#[test]
fn ranges_of_blocks_are_cut_from_the_whole() {
    let texts = Texts::with("one\ntwo\nthree\nfour\nfive");
    let layout = retained_text(1);
    let host = host(&texts);
    let measured = host.measure_layout_ir_plan(&layout, 40);
    let shown = |state: ViewState, start: usize, count: usize| -> Vec<String> {
        host.render_block_range(&layout, &measured, 40, state, start, count)
            .iter()
            .map(|row| match row {
                BlockRow::Layout(ops) => draw(&texts, ops).text,
                BlockRow::Note(text) => text.clone(),
            })
            .collect()
    };
    for state in [
        ViewState::Expanded,
        ViewState::Peek,
        ViewState::Collapsed,
        ViewState::TrimmedHead { keep: 3 },
        ViewState::TrimmedTail { keep: 2 },
        ViewState::TrimmedTail { keep: 9 },
    ] {
        let whole = shown(state, 0, usize::MAX);
        for start in 0..7usize {
            for count in 0..7usize {
                let first = start.min(whole.len());
                let last = (first + count).min(whole.len());
                assert_eq!(shown(state, start, count), whole[first..last].to_vec());
            }
        }
    }
}

#[test]
fn files_behind_a_gutter_are_refreshed_as_they_are_measured() {
    let len = Cell::new(3usize);
    let host = LayoutHost::new(
        |leaf: &IrLeaf, _: u16, gutter: u16| match leaf {
            IrLeaf::Content(_) => len.get() + gutter as usize,
            _ => 1,
        },
        |runs: &RunsSpec, _: &RowPrefixSpec, _: u16| runs.lines.len(),
        |_: &RetainedContentSpec, _: u16, max_rows: usize| ContentTextWindow {
            row_count: max_rows,
            truncated: true,
        },
        |_: u64| len.get(),
        column_widths,
        |_: &IrLeaf, _: u16, _: usize, _: usize| true,
        |_: &LayoutIr, _: u16, _: usize, _: usize| true,
    );
    let file = ContentRenderSpec::File { path: "a.rs".into(), lang: None };
    let layout = gutter_layout(content_leaf(1, file), "| ", false);
    let mut measured = host.measure_layout_ir_plan(&layout, 20);
    assert_eq!(measured.rows(), 5);
    len.set(4);
    assert!(host.refresh_layout_ir_content_measurements(&layout, &mut measured, 20));
    assert_eq!(measured.rows(), 6);
    let rebuilt = host.measure_layout_ir_plan(&layout, 20);
    assert_eq!(format!("{measured:?}"), format!("{rebuilt:?}"));
}

/// Caps of every kind that keep `rows` rows.
fn kept(rows: u16) -> Vec<CapKeep> {
    let marker = || vec![None, Some(CapMarker::Above), Some(CapMarker::Below)];
    let mut keeps = Vec::new();
    keeps.extend(marker().into_iter().map(|marker| CapKeep::Head { marker }));
    keeps.extend(marker().into_iter().map(|marker| CapKeep::Tail { marker }));
    for head in 0..=rows {
        keeps.push(CapKeep::HeadTail { head, marker: true });
        keeps.push(CapKeep::HeadTail { head, marker: false });
    }
    keeps
}

fn lettered(count: usize) -> LayoutIr {
    runs_leaf((0..count).map(|i| vec![span(&format!("row {i}"))]).collect(), 0)
}

#[test]
fn caps_draw_the_rows_that_they_are_measured_to_have() {
    let texts = Texts::with(numbered_lines(40));
    let children: Vec<fn() -> LayoutIr> = vec![
        || lettered(6),
        || BlockLayout::Vbox(vec![lettered(2), panel_layout(lettered(3), 1), lettered(4)]),
        || BlockLayout::Vbox(vec![retained_markdown(1), lettered(2)]),
        || BlockLayout::Vbox(vec![lettered(3), cap(lettered(9), 2, tail(true), None)]),
        || gutter_layout(panel_layout(lettered(4), 2), "| ", true),
        || retained_text(1),
        || BlockLayout::Leaf(IrLeaf::Text(TextSpec {
            content: "x".repeat(MAX_BOUNDED_EDGE_EXACT_BYTES + 1),
            hl_group: None,
            ansi: false,
        })),
    ];
    for child in children {
        for rows in [0, 1, 2, 3, 5, 7, 50] {
            for keep in kept(rows.min(4)) {
                let layout = cap(child(), rows, keep, None);
                let host = host(&texts);
                let measured = host.measure_layout_ir_plan(&layout, 30);
                assert_eq!(measure(&texts, &layout, 30), measured.rows());
                for (start, count) in [(0, usize::MAX), (0, 1), (1, 2), (2, 9), (60, 1)] {
                    let drawn = host.render_layout_ir_range_into_measured(
                        &layout, &measured, 30, start, count,
                    );
                    assert_eq!(
                        drawn.len(),
                        measured.rows().saturating_sub(start).min(count),
                        "{layout:?} {start} {count}"
                    );
                }
            }
        }
    }
}

#[test]
fn ranges_of_a_cap_that_leaves_rows_out_are_cut_of_the_whole() {
    let texts = Texts::default();
    for keep in kept(3) {
        let child = BlockLayout::Vbox(vec![lettered(2), panel_layout(lettered(3), 1)]);
        let layout = cap(child, 3, keep, None);
        let host = host(&texts);
        let measured = host.measure_layout_ir_plan(&layout, 20);
        let drawn = |start: usize, count: usize| -> Vec<String> {
            host.render_layout_ir_range_into_measured(&layout, &measured, 20, start, count)
                .iter()
                .map(|row| format!("{row:?}"))
                .collect()
        };
        let whole = drawn(0, usize::MAX);
        for start in 0..whole.len() {
            for count in 1..=whole.len() - start {
                assert_eq!(drawn(start, count), whole[start..start + count].to_vec());
            }
        }
    }
}

#[test]
fn prefixed_runs_draw_the_rows_of_a_range() {
    let runs = runs_spec(vec![vec![span("alpha beta")], vec![span("gamma")]], 0);
    let prefix = RowPrefixSpec { first: vec![span("> ")], rest: vec![span("  ")] };
    let inline = InlineText {
        join: &join,
        wrap: &wrap_runs,
        wrap_occupied: &wrap_occupied,
        cells: &run_cells,
        blank: &run_blank,
    };
    let painter = SpanPainter { slice: &slice, fg: &no_color, bg: &no_color };
    let gutter = GutterSpec { text: "|".into(), styled: false };
    let lines = |start: usize, count: usize| -> Vec<DrawnLine> {
        drawn_lines(&render_row_prefix_runs(
            &inline, &painter, &runs, &prefix, 8, start, count, Some(&gutter), &boundary, &fitting,
        ))
    };
    let line = |text: &str, continuation: bool| DrawnLine { text: text.into(), continuation };
    let all = vec![line("|> alpha ", false), line("|  beta", true), line("|  gamma", false)];
    assert_eq!(inline.measure_row_prefix_runs(&runs, &prefix, 8), 3);
    assert_eq!(lines(0, usize::MAX), all);
    assert_eq!(lines(1, 1), all[1..2].to_vec());
    assert_eq!(lines(1, 9), all[1..].to_vec());
    assert!(lines(3, 1).is_empty() && lines(0, 0).is_empty());
}
