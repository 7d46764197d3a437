use smelt_content::markdown_flow::{FlowLine, FlowNode, FlowRow, FlowState, MarkdownTextKind};
use smelt_content::markdown_retained::{
    markdown_range_has_visible_text_with_options, measure_retained_markdown_inner_edge_with_options,
    render_markdown_inner, render_markdown_inner_range_with_options,
    render_markdown_inner_with_options, render_retained_markdown_inner_edge_with_options,
    ByteRange, RetainedMarkdownLayout, RetainedParsedMarkdown,
};
use smelt_content::markdown_flow::measure_markdown_inner_with_options;
use smelt_content::markdown_spans::{
    fallback_markdown_line_spans, inline_spans_have_visible_text, shift_markdown_nodes,
    InlineStyle, MarkdownLine, MarkdownNode, MarkdownSpan,
};
use smelt_content::chrome::{print_hbox_padding, render_horizontal_rule};
use smelt_content::line_ops::LineOp;
use smelt_content::parse_cache::{
    arc_header_bytes, markdown_arc_retained_bytes, retained_parsed_allocation_bytes,
    MarkdownParseCacheKey, ParseCache, ParseCacheEntry, ParsedMarkdown,
    MARKDOWN_PARSE_CACHE_BYTES, MARKDOWN_PARSE_CACHE_CAP,
};
use smelt_content::retained::parsed_bytes_at;
use std::cell::Cell;

/// A text as it is parsed and wrapped: its parts, and the rows of each.
struct Doc {
    nodes: Vec<FlowNode>,
    rows: Vec<Vec<Vec<String>>>,
}

fn wrap(line: &str, width: usize) -> Vec<String> {
    let mut rows = vec![String::new()];
    for word in line.split_inclusive(' ') {
        let last = rows.last_mut().unwrap();
        if last.chars().count() + word.trim_end().chars().count() <= width || last.is_empty() {
            last.push_str(word);
        } else {
            rows.push(word.to_string());
        }
    }
    rows
}

fn kind_of(line: &str) -> MarkdownTextKind {
    let first = line.trim_start();
    if first.starts_with('#') {
        MarkdownTextKind::Heading
    } else if first.starts_with("- ") || first.starts_with("1. ") || first.starts_with("2. ") {
        MarkdownTextKind::List
    } else if first.starts_with('>') {
        MarkdownTextKind::BlockQuote
    } else {
        MarkdownTextKind::Paragraph
    }
}

/// The parts of a text at a width. A fenced block, a table, or a run of lines with the
/// blank lines behind it is one part.
fn parse(md: &str, width: usize) -> Doc {
    let lines: Vec<&str> = md.split('\n').collect();
    let mut doc = Doc { nodes: Vec::new(), rows: Vec::new() };
    let mut i = 0;
    while i < lines.len() {
        if lines[i].starts_with("```") {
            let mut body = Vec::new();
            i += 1;
            while i < lines.len() && !lines[i].starts_with("```") {
                body.push(lines[i].to_string());
                i += 1;
            }
            i += 1;
            let visible = body.iter().any(|line| !line.trim().is_empty());
            doc.nodes.push(FlowNode::Code { rows: body.len(), visible });
            doc.rows.push(vec![body]);
        } else if lines[i].starts_with('|') {
            let mut body = Vec::new();
            while i < lines.len() && lines[i].starts_with('|') {
                if !lines[i].starts_with("| ---") {
                    body.extend(wrap(lines[i], width));
                }
                i += 1;
            }
            doc.nodes.push(FlowNode::Table { rows: body.len() as u16, visible: true });
            doc.rows.push(vec![body]);
        } else {
            let mut flow = Vec::new();
            let mut rows = Vec::new();
            let mut kind = None;
            let mut ended = false;
            while i < lines.len() {
                let blank = lines[i].trim().is_empty();
                let fence = lines[i].starts_with("```") || lines[i].starts_with('|');
                if fence || (ended && !blank) {
                    break;
                }
                if blank {
                    ended |= kind.is_some();
                } else {
                    kind = kind.or(Some(kind_of(lines[i])));
                }
                let wrapped = wrap(lines[i], width);
                flow.push(FlowLine {
                    blank,
                    list_item: kind_of(lines[i]) == MarkdownTextKind::List,
                    rows: wrapped.iter().map(|row| !row.trim().is_empty()).collect(),
                });
                rows.push(wrapped);
                i += 1;
            }
            doc.nodes.push(FlowNode::Text {
                kind: kind.unwrap_or(MarkdownTextKind::Paragraph),
                lines: flow,
            });
            doc.rows.push(rows);
        }
    }
    doc
}

/// What rows show of texts.
fn shown(rows: &[FlowRow], docs: &[Doc]) -> Vec<String> {
    rows.iter()
        .map(|row| match row {
            FlowRow::Blank => String::new(),
            FlowRow::Line { doc, node, line, segment, .. } => {
                docs[*doc].rows[*node][*line][*segment].clone()
            }
            FlowRow::Code { doc, node, row, .. } | FlowRow::Table { doc, node, row, .. } => {
                docs[*doc].rows[*node][0][*row].clone()
            }
            FlowRow::Rule { .. } => "───".to_string(),
        })
        .collect()
}

fn whole(md: &str, width: usize) -> Vec<String> {
    let doc = parse(md, width);
    let docs = vec![parse(md, width).nodes];
    shown(&render_markdown_inner_with_options(&docs), &[doc])
}

/// The texts that are separated by blank lines, with where each begins. Fenced blocks stay
/// whole.
fn blocks(md: &str) -> Vec<(usize, &str)> {
    let mut out = Vec::new();
    let mut start = 0;
    let mut fenced = false;
    let mut at = 0;
    for line in md.split_inclusive('\n') {
        let next = at + line.len();
        if line.starts_with("```") {
            fenced = !fenced;
        }
        if line == "\n" && !fenced && next < md.len() && !md[next..].starts_with('\n') {
            out.push((start, &md[start..next]));
            start = next;
        }
        at = next;
    }
    out.push((start, &md[start..]));
    out
}

/// A retained text, with what is known of its finished texts.
struct Retained {
    text: String,
    revision: u64,
    parsed: RetainedParsedMarkdown,
}

impl Retained {
    fn new(text: &str) -> Self {
        let mut retained = Retained {
            text: text.to_string(),
            revision: 0,
            parsed: RetainedParsedMarkdown::empty(),
        };
        retained.update();
        retained
    }

    fn update(&mut self) {
        let blocks = blocks(&self.text);
        let (suffix, _) = *blocks.last().unwrap();
        let known = self.parsed.completed_end;
        let more = blocks[..blocks.len() - 1]
            .iter()
            .filter(|(start, _)| *start >= known)
            .map(|(start, text)| ByteRange { start: *start, end: start + text.len() })
            .collect();
        self.parsed.update_retained_markdown(self.revision, self.text.len(), suffix, more);
    }

    fn append(&mut self, more: &str) {
        self.text.push_str(more);
        self.revision += 1;
        self.update();
    }

    fn doc_at(text: &str, width: usize, i: usize) -> Vec<FlowNode> {
        let blocks = blocks(text);
        if i < blocks.len() {
            parse(blocks[i].1, width).nodes
        } else {
            Vec::new()
        }
    }

    fn measure(&mut self, width: usize) -> usize {
        let text = self.text.clone();
        let last = blocks(&text).len() - 1;
        let docs = |width: usize, i: usize| Self::doc_at(&text, width, i);
        let suffix = |width: usize| Self::doc_at(&text, width, last);
        self.parsed.measure_retained_markdown_inner_with_options(width, &docs, &suffix)
    }

    fn range(&mut self, width: usize, start: usize, count: usize) -> Vec<String> {
        let text = self.text.clone();
        let last = blocks(&text).len() - 1;
        let docs = |width: usize, i: usize| Self::doc_at(&text, width, i);
        let suffix = |width: usize| Self::doc_at(&text, width, last);
        let rows = self
            .parsed
            .render_retained_markdown_inner_range_with_options(width, &docs, &suffix, start, count)
            .unwrap();
        let texts: Vec<Doc> = blocks(&text).iter().map(|(_, text)| parse(text, width)).collect();
        shown(&rows, &texts)
    }
}

fn edge(md: &str, width: usize, max_rows: usize, tail: bool) -> (Vec<String>, usize, bool) {
    let texts: Vec<Doc> = blocks(md).iter().map(|(_, text)| parse(text, width)).collect();
    let doc_at = |i: usize| parse(blocks(md)[i].1, width).nodes;
    let (rows, window) = render_retained_markdown_inner_edge_with_options(
        &doc_at,
        texts.len(),
        md.is_empty(),
        max_rows,
        tail,
    )
    .unwrap();
    (shown(&rows, &texts), window.row_count, window.truncated)
}

#[test]
fn markdown_range_matches_full_render_slice() {
    let md = "# Heading\n\nParagraph with enough words to wrap over multiple terminal rows at a narrow width.\n\n```rust\nfn main() {\n    println!(\"hello\");\n}\n```\n\n| col | value |\n| --- | --- |\n| a | table cell that also wraps over several rows |\n\nAfter table text.";
    let docs = vec![parse(md, 36).nodes];
    let full = render_markdown_inner(&docs);
    assert_eq!(full.len(), measure_markdown_inner_with_options(&docs[0]));
    for start in 0..full.len() {
        for count in [1usize, 4, 8] {
            let range = render_markdown_inner_range_with_options(&docs, start, count);
            let end = start.saturating_add(count).min(full.len());
            assert_eq!(range, full[start..end], "start={start} count={count}");
        }
    }
}

#[test]
fn markdown_arc_accounting_includes_the_header_for_empty_nodes() {
    assert_eq!(markdown_arc_retained_bytes(0), arc_header_bytes());
}

type Nodes = std::rc::Rc<Vec<(String, bool)>>;

/// The words of a text, bold where they stand between stars.
fn spans(source: &str) -> Nodes {
    std::rc::Rc::new(
        source
            .split(' ')
            .map(|word| (word.trim_matches('*').to_string(), word.starts_with("**")))
            .collect(),
    )
}

fn span_bytes(nodes: &Nodes) -> usize {
    nodes.len() * 256
}

#[test]
fn markdown_cache_evicts_an_oversize_many_span_entry() {
    let mut cache: ParseCache<MarkdownParseCacheKey, ParsedMarkdown<Nodes>> = ParseCache::new();
    let source = "**x** ".repeat(120_000);
    let parsed = cache.parse_markdown_cached(&source, 0, 0, 0, &spans, &span_bytes);
    assert!(!parsed.is_empty());
    assert!(cache.entries.is_empty());
    assert_eq!(cache.retained_bytes, 0);
}

#[test]
fn parsed_texts_are_parsed_once() {
    let mut cache: ParseCache<MarkdownParseCacheKey, ParsedMarkdown<Nodes>> = ParseCache::new();
    let parses = Cell::new(0);
    let parse = |source: &str| {
        parses.set(parses.get() + 1);
        spans(source)
    };
    let first = cache.parse_markdown_cached("**a** b", 1, 0, 0, &parse, &span_bytes);
    cache.parse_markdown_cached("c", 1, 0, 0, &parse, &span_bytes);
    let again = cache.parse_markdown_cached("**a** b", 1, 0, 0, &parse, &span_bytes);
    assert_eq!(parses.get(), 2);
    assert!(std::rc::Rc::ptr_eq(&first, &again));
    assert_eq!(cache.entries[0].value.source, "**a** b");
    cache.parse_markdown_cached("**a** b", 2, 0, 0, &parse, &span_bytes);
    assert_eq!(parses.get(), 3);
    assert_eq!(cache.entries.len(), 3);
    cache.clear();
    assert_eq!(cache.retained_bytes, 0);
}

#[test]
fn retained_markdown_cache_updates_after_lazy_parse_and_layout_growth() {
    let text = (0..128)
        .map(|index| {
            format!("Paragraph {index} with **bold** and [link](https://example.test/{index}).")
        })
        .collect::<Vec<_>>()
        .join("\n\n");
    let mut cache: ParseCache<u64, RetainedParsedMarkdown> = ParseCache::new();
    let mut retained = Retained::new(&text);
    let bytes = retained.parsed.dynamic_retained_bytes(0);
    let fresh = std::mem::replace(&mut retained.parsed, RetainedParsedMarkdown::empty());
    assert!(!cache.parse_retained_markdown_cached(1, 0, 0, fresh, bytes));
    let before = cache.retained_bytes;

    retained.parsed = std::mem::replace(
        &mut cache.entries[0].value,
        RetainedParsedMarkdown::empty(),
    );
    retained.measure(40);
    let bytes = retained.parsed.dynamic_retained_bytes(0);
    cache.entries[0].value = retained.parsed;
    cache.refresh_entry(1, 0, bytes);

    assert_eq!(cache.entries.len(), 1);
    assert!(cache.retained_bytes > before);
    assert_eq!(cache.retained_bytes, cache.entries[0].retained_bytes);
    assert!(!cache.entries[0].value.layouts.is_empty());
    let none = RetainedParsedMarkdown::empty();
    assert!(cache.parse_retained_markdown_cached(1, 0, 0, none, 0));
    assert!(!cache.entries[0].value.layouts.is_empty());
}

#[test]
fn retained_markdown_cache_evicts_after_oversize_table_materializes() {
    let oversize = 64 * 1024 * 1024;
    let mut cache: ParseCache<u64, RetainedParsedMarkdown> = ParseCache::new();
    let retained = Retained::new("| value |\n| --- |\n| x |\n\nsuffix");
    assert!(!retained.parsed.completed.is_empty());
    let bytes = retained.parsed.dynamic_retained_bytes(0);
    let materialized = retained.parsed.dynamic_retained_bytes(oversize);
    cache.parse_retained_markdown_cached(1, 0, 0, retained.parsed, bytes);
    assert_eq!(cache.entries.len(), 1);
    cache.refresh_entry(1, 0, materialized);
    assert!(cache.entries.is_empty());
    assert_eq!(cache.retained_bytes, 0);
}

#[test]
fn retained_markdown_reuses_completed_prefix_nodes_after_suffix_appends() {
    let mut content = Retained::new("# café\n\nmutable");
    assert_eq!(content.parsed.completed.len(), 1);
    let first_prefix = content.parsed.completed[0];
    content.measure(30);
    let first_states = content.parsed.layouts[0].completed_states.clone();

    content.append(" suffix");
    content.measure(30);
    assert_eq!(content.parsed.completed.len(), 1);
    assert_eq!(content.parsed.completed[0], first_prefix);
    assert_eq!(content.parsed.layouts[0].completed_states, first_states);

    content.append("\n\nnext");
    assert_eq!(content.parsed.completed.len(), 2);
    assert_eq!(content.parsed.completed[0], first_prefix);
}

#[test]
fn retained_markdown_matches_contiguous_render_across_chunk_boundaries() {
    let mut content = Retained::new("# café");
    content.append(" heading\n\nParagraph with **bold** 東京.\n\n```rust\n");
    content.append("fn main() {}\n```\n\n| col | value |\n| --- | --- |\n");
    content.append("| α | β |\n\nAfter table.");
    let contiguous = whole(&content.text, 42);
    assert_eq!(content.range(42, 0, usize::MAX), contiguous);
    for start in 0..contiguous.len() {
        let end = start.saturating_add(3).min(contiguous.len());
        assert_eq!(content.range(42, start, 3), contiguous[start..end], "start={start}");
    }
    assert!(contiguous.iter().any(|line| line.contains("| col |")));
}

#[test]
fn retained_markdown_constructs_match_contiguous_render() {
    let cases = [
        ("loose unordered list", "- first\n\n  continuation\n\n- second"),
        ("loose ordered list", "1. first\n\n   continuation\n\n2. second"),
        ("block quote", "> quote\n>\n> continued\n\noutside"),
        ("indented code", "    code one\n\n    code two\n\noutside"),
        ("forward reference", "[reference][id]\n\n[id]: https://example.com"),
        ("backward reference", "[id]: https://example.com\n\n[reference][id]"),
    ];
    for (name, source) in cases {
        let contiguous = whole(source, 40);
        let mut retained = Retained::new(source);
        assert_eq!(retained.range(40, 0, usize::MAX), contiguous, "{name}");
        for max_rows in 0..=contiguous.len().min(4) {
            for tail in [false, true] {
                let (rows, count, truncated) = edge(source, 40, max_rows, tail);
                assert_eq!(count, max_rows, "{name} tail={tail}");
                assert_eq!(truncated, contiguous.len() > max_rows, "{name} tail={tail}");
                let expected = if tail {
                    &contiguous[contiguous.len().saturating_sub(max_rows)..]
                } else {
                    &contiguous[..max_rows]
                };
                assert_eq!(rows, expected, "{name} tail={tail}");
            }
        }
    }
}

#[test]
fn retained_markdown_edges_match_full_rendered_rows() {
    let source = "# Heading\n\nFirst paragraph with **bold** text.\n\n- one\n- two\n\n> quote\n\nLast paragraph.";
    let full = Retained::new(source).range(28, 0, usize::MAX);
    for tail in [false, true] {
        let (rows, count, truncated) = edge(source, 28, 4, tail);
        assert_eq!(count, 4);
        assert!(truncated);
        let expected = if tail { &full[full.len() - 4..] } else { &full[..4] };
        assert_eq!(rows, expected, "tail={tail}");
    }
}

#[test]
fn retained_markdown_edges_do_not_build_complete_parse_or_layout_caches() {
    let parsed = Cell::new(0);
    let doc_at = |i: usize| {
        parsed.set(parsed.get() + 1);
        parse(&format!("Paragraph {i:05} with **bold** text.\n\n"), 40).nodes
    };
    let measured = measure_retained_markdown_inner_edge_with_options(&doc_at, 20_000, false, 4);
    assert_eq!(measured.row_count, 4);
    assert!(measured.truncated);
    let (rows, _) =
        render_retained_markdown_inner_edge_with_options(&doc_at, 20_000, false, 4, true).unwrap();
    assert_eq!(rows.len(), 4);
    assert!(parsed.get() < 40);
}

fn plain() -> InlineStyle {
    InlineStyle { bold: false, italic: false, dim: false, heading: false, other: 0 }
}

/// What makes a line an item, and its text.
fn split_item(line: &str) -> (String, String) {
    let end = line.find(' ').map_or(0, |space| space + 1);
    (line[..end].to_string(), line[end..].to_string())
}

fn one_span(text: &str) -> Vec<MarkdownSpan> {
    vec![MarkdownSpan { text: text.to_string(), style: plain(), meta: 0 }]
}

#[test]
fn markdown_line_spans_use_shared_block_markers() {
    let spans = |line: &str, kind: MarkdownTextKind| {
        fallback_markdown_line_spans(line, kind, false, &split_item, &one_span)
    };
    let heading = spans("#not heading", MarkdownTextKind::Paragraph);
    assert!(!heading[0].style.heading);
    let bullet = spans("+ item", MarkdownTextKind::List);
    assert_eq!(bullet[0].text, "+ ");
    assert!(bullet[0].style.dim);
    let ordered = spans("12) item", MarkdownTextKind::List);
    assert_eq!(ordered[0].text, "12) ");
    assert!(ordered[0].style.dim);
    let indented = spans("  - item", MarkdownTextKind::List);
    let text: String = indented.iter().map(|span| span.text.as_str()).collect();
    assert_eq!(text, "  - item");
    assert!(spans("title", MarkdownTextKind::Heading)[0].style.heading);
    assert!(spans("quote", MarkdownTextKind::BlockQuote)[0].style.italic);
    assert!(inline_spans_have_visible_text(&bullet));
    assert!(!inline_spans_have_visible_text(&one_span(" \t")));
}

#[test]
fn markdown_collapses_leading_blank_run_before_code_block() {
    let md = "\n\nValidation run in the new worktree:\n\n```bash\ncargo test\n```\n";
    let rows = whole(md, 80);
    assert_eq!(rows[0], "Validation run in the new worktree:");
    assert_eq!(rows.iter().filter(|row| row.is_empty()).count(), 1);
    assert!(rows.iter().any(|row| row.contains("cargo test")));
    assert!(!rows.iter().any(|row| row.contains("``")), "rows: {rows:?}");
}

#[test]
fn blank_ranges_show_no_text() {
    let docs = vec![parse("first\n\nsecond", 20).nodes];
    assert!(markdown_range_has_visible_text_with_options(&docs, 0, 1));
    assert!(!markdown_range_has_visible_text_with_options(&docs, 1, 1));
    assert!(markdown_range_has_visible_text_with_options(&docs, 1, 2));
    assert!(!markdown_range_has_visible_text_with_options(&docs, 0, 0));
}

#[test]
fn shifted_nodes_move_as_a_whole() {
    let range = |start: usize, end: usize| ByteRange { start, end };
    let line = |start: usize, end: usize| MarkdownLine {
        source: range(start, end),
        spans: one_span("text"),
    };
    let mut nodes = vec![
        MarkdownNode::Text {
            range: range(0, 9),
            lines: vec![line(0, 4), line(5, 9)],
            kind: MarkdownTextKind::List,
        },
        MarkdownNode::Rule { range: range(10, 13) },
        MarkdownNode::Code {
            range: range(14, 30),
            body: vec![range(20, 25)],
            lang: "rs".to_string(),
        },
    ];
    shift_markdown_nodes(&mut nodes, 7);
    match (&nodes[0], &nodes[1], &nodes[2]) {
        (
            MarkdownNode::Text { range: text, lines, kind },
            MarkdownNode::Rule { range: rule },
            MarkdownNode::Code { range: code, body, lang },
        ) => {
            assert_eq!(*text, range(7, 16));
            let sources: Vec<ByteRange> = lines.iter().map(|line| line.source).collect();
            assert_eq!(sources, vec![range(7, 11), range(12, 16)]);
            assert_eq!(lines[1].spans[0].text, "text");
            assert_eq!(*kind, MarkdownTextKind::List);
            assert_eq!(*rule, range(17, 20));
            assert_eq!(*code, range(21, 37));
            assert_eq!(*body, vec![range(27, 32)]);
            assert_eq!(lang, "rs");
        }
        _ => panic!("nodes changed their kind"),
    }
}

#[test]
fn rules_are_copied_as_they_were_written() {
    let ops = render_horizontal_rule(false, "  ");
    assert!(matches!(&ops[0], LineOp::Print(indent) if indent == "  "));
    assert!(ops.iter().any(
        |op| matches!(op, LineOp::PrintCopyAs { text, copy } if text == "───" && copy == "---")
    ));
    let boxed = render_horizontal_rule(true, "  ");
    assert!(matches!(boxed[0], LineOp::BoxLeft));
    assert!(boxed.iter().any(|op| matches!(op, LineOp::BoxRight { cells: 3 })));
    assert_eq!(print_hbox_padding(150), vec![64, 64, 22]);
    assert!(print_hbox_padding(0).is_empty());
}

#[test]
fn shared_parses_count_their_cell() {
    assert_eq!(retained_parsed_allocation_bytes(48, 40, 100), 2 * std::mem::size_of::<usize>() + 108);
    assert_eq!(retained_parsed_allocation_bytes(40, 48, 0), 2 * std::mem::size_of::<usize>());
    assert_eq!(retained_parsed_allocation_bytes(0, 0, usize::MAX), usize::MAX);
}

#[test]
fn parsed_texts_keep_their_places() {
    let word = std::mem::size_of::<usize>();
    let range = std::mem::size_of::<ByteRange>();
    let layout = std::mem::size_of::<RetainedMarkdownLayout>();
    let state = std::mem::size_of::<FlowState>();
    assert_eq!(parsed_bytes_at(0, 0, &Vec::new(), 0), 2 * word);
    assert_eq!(
        parsed_bytes_at(4, 2, &vec![3, 5], 100),
        4 * range + 2 * word + 100 + 2 * layout + 8 * state
    );
    assert_eq!(parsed_bytes_at(usize::MAX, 0, &Vec::new(), 0), usize::MAX);
    let parsed = RetainedParsedMarkdown::empty();
    assert_eq!(parsed.dynamic_retained_bytes(7), 2 * word + 7);
}

fn cached(count: u64, bytes: usize) -> ParseCache<u64, u64> {
    let mut cache = ParseCache::new();
    for key in 0..count {
        cache.entries.push_front(ParseCacheEntry {
            key,
            options: 0,
            value: key,
            retained_bytes: bytes,
        });
        cache.retained_bytes += bytes;
    }
    cache
}

#[test]
fn entries_go_only_while_the_cache_is_over_its_budget() {
    let entry = std::mem::size_of::<ParseCacheEntry<u64, u64>>();
    let mut cache = cached(130, 1);
    cache.evict_with_places(130);
    assert_eq!(cache.entries.len(), MARKDOWN_PARSE_CACHE_CAP);
    assert_eq!(cache.retained_bytes, 128);
    let keys: Vec<u64> = cache.entries.iter().map(|entry| entry.key).collect();
    assert_eq!(keys, (2..130).rev().collect::<Vec<u64>>());

    let quarter = MARKDOWN_PARSE_CACHE_BYTES / 4;
    let mut cache = cached(4, quarter);
    assert_eq!(cache.measured_retained_bytes(3), 4 * quarter + 3 * entry);
    cache.evict_with_places(0);
    assert_eq!(cache.entries.len(), 4);
    cache.evict_with_places(1);
    assert_eq!(cache.entries.len(), 3);
    assert_eq!(cache.retained_bytes, 3 * quarter);
    assert_eq!(cache.entries.back().unwrap().key, 1);
    cache.evict_with_places(usize::MAX);
    assert!(cache.entries.is_empty());
    assert_eq!(cache.retained_bytes, 0);
}

#[test]
fn parsed_contents_are_found_again() {
    let mut cache: ParseCache<u64, u64> = ParseCache::new();
    assert!(!cache.parse_retained_markdown_cached(1, 7, 0, 10, 100));
    assert!(!cache.parse_retained_markdown_cached(2, 7, 0, 20, 100));
    assert!(!cache.find_content(1, 8));
    assert!(cache.find_content(1, 7));
    assert_eq!(cache.entries[0].value, 10);
    assert!(cache.parse_retained_markdown_cached(1, 7, 0, 99, 0));
    assert_eq!(cache.entries[0].value, 10);
    assert_eq!(cache.entries.len(), 2);
}

#[test]
fn cut_texts_have_the_rows_of_the_whole() {
    let md = "# Title\n\nfirst words here\n\n- a\n- b\n\n```\ncode\n```\n\nlast";
    let whole = vec![parse(md, 12).nodes];
    let parts: Vec<Vec<FlowNode>> =
        blocks(md).iter().map(|(_, text)| parse(text, 12).nodes).collect();
    assert!(parts.len() > 2);
    let rows = render_markdown_inner(&whole);
    assert_eq!(render_markdown_inner(&parts).len(), rows.len());
    let visible = |rows: &[FlowRow]| -> Vec<bool> {
        rows.iter().map(|row| row.has_visible_text()).collect()
    };
    let all = render_markdown_inner(&parts);
    assert_eq!(visible(&all), visible(&rows));
    for from in 0..parts.len() {
        let last: Vec<Vec<FlowNode>> =
            blocks(md)[from..].iter().map(|(_, text)| parse(text, 12).nodes).collect();
        let own = visible(&render_markdown_inner(&last));
        assert!(visible(&all).ends_with(&own));
    }
}

#[test]
fn edges_are_heads_and_tails() {
    let md = "one two three\n\nfour five\n\nsix";
    let texts: Vec<Doc> = blocks(md).iter().map(|(_, text)| parse(text, 5)).collect();
    let docs: Vec<Vec<FlowNode>> =
        blocks(md).iter().map(|(_, text)| parse(text, 5).nodes).collect();
    let all = shown(&render_markdown_inner(&docs), &texts);
    for max_rows in 0..all.len() + 2 {
        let kept = max_rows.min(all.len());
        let head = edge(md, 5, max_rows, false);
        assert_eq!(head, (all[..kept].to_vec(), kept, all.len() > max_rows));
        let tail = edge(md, 5, max_rows, true);
        assert_eq!(tail, (all[all.len() - kept..].to_vec(), kept, all.len() > max_rows));
    }
}

#[test]
fn width_used_least_recently_gives_way() {
    let mut content = Retained::new("# one\n\nsome words that wrap\n\nlast");
    let widths = |content: &Retained| -> Vec<usize> {
        content.parsed.layouts.iter().map(|layout| layout.width).collect()
    };
    content.measure(30);
    content.measure(10);
    assert_eq!(widths(&content), vec![30, 10]);
    content.measure(30);
    assert_eq!(widths(&content), vec![10, 30]);
    content.measure(20);
    assert_eq!(widths(&content), vec![30, 20]);
    assert_eq!(content.measure(30), Retained::new(&content.text).measure(30));
}

#[test]
fn chunks_do_not_show_in_a_retained_text() {
    let md = "# Heading\n\nsome words that wrap over rows\n\n- a\n- b\n\nend";
    let docs: Vec<Doc> = vec![parse(md, 12)];
    let nodes = vec![parse(md, 12).nodes];
    let whole = shown(&render_markdown_inner(&nodes), &docs);
    for cut in 1..md.len() {
        let mut content = Retained::new(&md[..cut]);
        content.append(&md[cut..]);
        assert_eq!(content.range(12, 0, usize::MAX), whole, "cut at {cut}");
        for start in 0..whole.len() {
            let end = (start + 3).min(whole.len());
            assert_eq!(content.range(12, start, 3), whole[start..end].to_vec());
        }
    }
}
