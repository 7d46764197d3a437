use smelt_content::chrome::{apply_style_spec, render_cap_marker_text, render_view_ellipsis};
use smelt_content::cap_rows::CapDirection;
use smelt_content::estimate::estimate_text_rows;
use smelt_content::hbox_scratch::{can_keep, BufferSize, HboxScratchPool};
use smelt_content::inline_markers::{
    breakable_positions, can_open_emphasis, skip_inline_span_range, strip_markdown_markers,
    InlineSpan,
};
use smelt_content::ir::{
    BlockLayout, CodeSpec, Constraint, ContentRenderSpec, ContentTextWindow, GutterSpec, IrLeaf,
    LayoutIr, MarkdownSpec, RetainedContentSpec, RetainedInlineSyntax, RowPrefixSpec, RunsSpec, SeparatorSpec, StyleSpec, StyledSpan, TextSpec,
};
use smelt_content::content_draw::{file_extension, rows_to_place, ContentCanvas};
use smelt_content::leaf_draw::ContentTextRow;
use smelt_content::leaf_render::render_ir_leaf;
use smelt_content::leaf_edges::{
    cap_marker_text, retained_markdown_edge_mode, ContentFacts, ContentRuler,
    RetainedMarkdownEdgeMode,
};
use smelt_content::leaf_measure::{code_block_lines, measure_ir_leaf, LeafRuler};
use smelt_content::leaf_text::{
    ascii_word_rows, measure_inline_markdown_spec, measure_plain_markdown_spec, measure_text_spec,
    plain_markdown_is_single_ascii_word, render_inline_markdown_spec, render_plain_markdown_spec,
};
use smelt_content::line_ops::{LineOp, RowsAsked};
use smelt_content::own_host::own_host;
use smelt_content::rows::RowOp;
use smelt_content::numbers::{decimal_text, pluralize};
use smelt_content::paint::Color;
use smelt_content::retained::{rendered_buffer_retained_bytes, BufferSizes};
use smelt_content::spans::NamedColor;
use smelt_content::styled_runs::{Fragment, InlineRun, InlineText};
use smelt_content::styled_text::SpanPainter;
use smelt_content::syntax_cache::{InlineSyntaxCache, INLINE_SYNTAX_CACHE_BUDGET};
use smelt_content::ir::InlineSyntaxSpan;
use smelt_content::text::{display_width, expand_tabs, split_lines, widest_line};
use smelt_content::view_state::{
    apply_view_state, ellipsis_text, view_outcome, view_state_label, Outcome, ViewLine, ViewState,
};
use smelt_content::widths::{
    child_width_after_gutter, gutter_width, panel_child_width, styled_spans_width,
};
use smelt_content::wrapped_output::{
    above_text, measure_wrapped_output, render_wrapped_output, OutputRow,
};
use std::cell::Cell;

/// A line in rows of so many characters, without its escape codes.
fn chunks(line: &str, width: u16) -> Vec<String> {
    let mut plain = String::new();
    let mut rest = line;
    while let Some(at) = rest.find("\u{1b}[") {
        plain.push_str(&rest[..at]);
        let end = rest[at..].find('m').unwrap();
        rest = &rest[at + end + 1..];
    }
    plain.push_str(rest);
    let chars: Vec<char> = plain.chars().collect();
    if chars.is_empty() {
        return vec![String::new()];
    }
    chars.chunks(width.max(1) as usize).map(|row| row.iter().collect()).collect()
}

/// A line in rows of whole words.
fn words(line: &str, width: u16) -> Vec<String> {
    let mut rows = vec![String::new()];
    for word in line.split(' ') {
        let last = rows.last_mut().unwrap();
        if last.is_empty() {
            last.push_str(word);
        } else if last.chars().count() + 1 + word.chars().count() <= width as usize {
            last.push(' ');
            last.push_str(word);
        } else {
            rows.push(String::from(word));
        }
    }
    rows
}

fn facts(text: &str) -> ContentFacts {
    ContentFacts {
        len: text.len(),
        logical_lines: text.lines().count(),
        first_line_plain: true,
        first_line_len: text.lines().next().map(str::len),
        first_line_ascii: text.is_ascii(),
        large_lines_ascii: text.is_ascii(),
        large_markdown: false,
    }
}

fn head(text: &str, width: u16, max_rows: usize) -> ContentTextWindow {
    let rows: usize = text.lines().map(|line| chunks(line, width).len()).sum();
    ContentTextWindow { row_count: rows.min(max_rows), truncated: rows > max_rows }
}

fn text_edge(text: &str, width: u16, ansi: bool, max_rows: usize) -> ContentTextWindow {
    let window = |_: u64, _: u16, _: usize| ContentTextWindow { row_count: 0, truncated: false };
    let ruler = ContentRuler {
        facts: &|_: u64| facts(text),
        text_rows: &|_: u64, _: u16, _: bool| 0usize,
        text_head: &|_: u64, width: u16, _: bool, max: usize| head(text, width, max),
        inline_rows: &|_: u64, _: bool, _: bool, _: u16| 0usize,
        markdown_rows: &|_: u64, _: bool, _: u16| 0usize,
        markdown_edge: &|_: u64, _: bool, _: u16, _: usize| ContentTextWindow {
            row_count: 0,
            truncated: false,
        },
        code_rows: &|_: u64, _: u16| 0usize,
        code_edge: &window,
        file_rows: &|_: u64, _: u16, _: u16| 0usize,
        file_edge: &window,
    };
    ruler.measure_retained_text_edge(1, width, ansi, max_rows)
}

#[test]
fn retained_text_edge_measurement_preserves_wrapping_ansi_and_truncation() {
    assert_eq!(
        text_edge("abcdefgh", 4, false, 3),
        ContentTextWindow { row_count: 2, truncated: false }
    );
    assert_eq!(
        text_edge("\u{1b}[31mabcdefgh\u{1b}[0m", 4, true, 3),
        ContentTextWindow { row_count: 2, truncated: false }
    );
    assert_eq!(
        text_edge("one\ntwo\nthree\nfour", 80, false, 3),
        ContentTextWindow { row_count: 3, truncated: true }
    );
    assert_eq!(
        text_edge("abcdefgh\nx\ny", 4, false, 3),
        ContentTextWindow { row_count: 3, truncated: true }
    );
}

#[test]
fn inline_markdown_copy_omits_soft_wraps_and_preserves_source_newlines() {
    let content = "alpha **beta** gamma delta\nsecond *logical* line";
    let shown = |line: &str, width: u16| words(&strip_markdown_markers(line), width);
    let count = |line: &str, _: bool, _: bool, width: u16| shown(line, width).len();
    let ops = render_inline_markdown_spec(content, false, false, 10, 0, 100, None, &count);
    let mut rows: Vec<String> = Vec::new();
    let mut copied = String::new();
    let mut continued = false;
    for op in &ops {
        match op {
            LineOp::Row { continuation } => continued = *continuation,
            LineOp::InlineRow { line, row } => {
                let source = content.lines().nth(*line).unwrap();
                let text = shown(source, 10)[*row].clone();
                if !rows.is_empty() {
                    copied.push(if continued { ' ' } else { '\n' });
                }
                copied.push_str(&text);
                rows.push(text);
            }
            _ => {}
        }
    }
    assert!(rows.len() > 2);
    assert_eq!(copied, "alpha beta gamma delta\nsecond logical line");
}

#[test]
fn estimate_counts_every_line_once_at_least() {
    let cells = |line: &str| display_width(line);
    assert_eq!(estimate_text_rows("", 10, &cells), 1);
    assert_eq!(estimate_text_rows("a\n\nb", 10, &cells), 3);
    assert_eq!(estimate_text_rows("abcdefghijk", 10, &cells), 2);
    assert_eq!(estimate_text_rows("漢字", 3, &cells), 2);
    assert_eq!(estimate_text_rows("abc", 0, &cells), 3);
}

#[test]
fn output_keeps_its_last_rows() {
    let wrap = |line: &str, cols: usize| chunks(line, cols as u16).len();
    let content = "one\ntwo\nthree\nfour";
    assert_eq!(measure_wrapped_output(content, 80, 2, &wrap), 3);
    let (rows, wrapped) = render_wrapped_output(content, 80, 2, &wrap);
    assert_eq!(
        rows,
        vec![
            OutputRow::Above { skipped: 2 },
            OutputRow::Line { line: 2, row: 0 },
            OutputRow::Line { line: 3, row: 0 },
        ]
    );
    assert!(!wrapped);
    let (rows, wrapped) = render_wrapped_output("\tab", 4, 9, &wrap);
    assert_eq!(
        rows,
        vec![OutputRow::Line { line: 0, row: 0 }, OutputRow::Line { line: 0, row: 1 }]
    );
    assert!(wrapped);
    assert_eq!(measure_wrapped_output("", 80, 2, &wrap), 0);
    assert_eq!(above_text(1), "  ... 1 line above");
    assert_eq!(above_text(2), "  ... 2 lines above");
}

#[test]
fn markers_are_stripped_and_spans_are_not_broken() {
    assert_eq!(strip_markdown_markers("a **b *c* d** `e*` ~~f~~"), "a b c d e* f");
    assert_eq!(strip_markdown_markers("2 * 3 * 4"), "2 * 3 * 4");
    assert_eq!(strip_markdown_markers("snake_case_name"), "snake_case_name");
    assert_eq!(strip_markdown_markers("_word_"), "word");
    assert_eq!(
        breakable_positions("a `b c` d"),
        vec![false, true, false, false, false, false, false, true, false]
    );
    assert_eq!(breakable_positions("**a b*"), vec![false, false, false, true, false, false]);
}

#[test]
fn emphasis_opens_before_a_letter_and_not_inside_a_word() {
    let chars: Vec<char> = "a_b *c* * d".chars().collect();
    assert!(!can_open_emphasis(&chars, 1, 1, chars.len(), '_'));
    assert!(can_open_emphasis(&chars, 4, 1, chars.len(), '*'));
    assert!(!can_open_emphasis(&chars, 8, 1, chars.len(), '*'));
    assert_eq!(
        skip_inline_span_range(&chars, 4, chars.len()),
        Some(InlineSpan { content_start: 5, content_end: 6, after: 7 })
    );
    assert_eq!(skip_inline_span_range(&chars, 0, chars.len()), None);
}

#[test]
fn view_states_hide_rows_and_say_so() {
    let lines: Vec<u32> = vec![10, 11, 12, 13];
    let shown = |state: ViewState| -> Vec<String> {
        apply_view_state(&lines, 4, state)
            .iter()
            .map(|line| match line {
                ViewLine::Row(n) => n.to_string(),
                ViewLine::Ellipsis(text) => text.clone(),
            })
            .collect()
    };
    assert_eq!(shown(ViewState::Expanded), vec!["10", "11", "12", "13"]);
    let collapsed = shown(ViewState::Collapsed);
    assert_eq!(collapsed.len(), 2);
    assert_eq!(collapsed[0], "10");
    assert_eq!(collapsed[1], ellipsis_text(3, false));
    let head = shown(ViewState::TrimmedHead { keep: 2 });
    assert_eq!(head, vec![String::from("10"), String::from("11"), ellipsis_text(2, false)]);
    let tail = shown(ViewState::TrimmedTail { keep: 1 });
    assert_eq!(tail, vec![ellipsis_text(3, true), String::from("13")]);
    for state in [
        ViewState::Expanded,
        ViewState::Peek,
        ViewState::Collapsed,
        ViewState::TrimmedHead { keep: 2 },
        ViewState::TrimmedTail { keep: 9 },
    ] {
        assert_eq!(state.measured_height(4) as usize, shown(state).len());
        assert_eq!(state.elides_rows(4), shown(state).len() != 4 || state == ViewState::TrimmedHead { keep: 3 });
    }
    assert_eq!(view_state_label(ViewState::Collapsed), "collapsed");
}

#[test]
fn outcome_counts_the_note_where_one_is_drawn() {
    let drawn = Outcome { line_count: 5, was_wrapped: false, max_line_width: 8, layout_width: 40 };
    let note = Outcome { line_count: 1, was_wrapped: true, max_line_width: 12, layout_width: 40 };
    let head = view_outcome(ViewState::TrimmedHead { keep: 2 }, drawn, note);
    assert_eq!(head.line_count, 3);
    assert_eq!(head.max_line_width, 12);
    assert!(head.was_wrapped);
    let tail = view_outcome(ViewState::TrimmedTail { keep: 2 }, drawn, note);
    assert_eq!(tail.line_count, 3);
    assert_eq!(tail.max_line_width, 8);
    assert_eq!(view_outcome(ViewState::Peek, drawn, note), drawn);
}

#[test]
fn numbers_are_written_out() {
    assert_eq!(decimal_text(0), "0");
    assert_eq!(decimal_text(18446744073709551615), "18446744073709551615");
    assert_eq!(pluralize(1, "line", "lines"), "1 line");
    assert_eq!(pluralize(0, "line", "lines"), "0 lines");
}

#[test]
fn cap_markers_say_what_is_left_out() {
    assert_eq!(cap_marker_text(3, 2, Some(7), CapDirection::Above), "… showing last 2 of 7 lines");
    assert_eq!(cap_marker_text(3, 2, None, CapDirection::Above), "… 3 lines above");
    assert_eq!(cap_marker_text(1, 2, None, CapDirection::Below), "… 1 line below");
    assert_eq!(cap_marker_text(4, 2, None, CapDirection::Omitted), "… 4 lines omitted …");
    let ops = render_cap_marker_text(4, 2, None, CapDirection::Below, 6);
    assert!(matches!(
        &ops[1],
        LineOp::PrintFitting { text, cells: 6 } if text == "… 4 lines below"
    ));
    assert!(matches!(&ops[3], LineOp::Newline));
    let ops = render_view_ellipsis("note");
    assert!(ops.iter().any(|op| matches!(op, LineOp::Print(text) if text == "note")));
}

#[test]
fn style_spec_sets_what_it_names() {
    let spec = StyleSpec {
        hl_group: Some(String::from("Comment")),
        fg: Some(String::from("Accent")),
        bg: Some(String::from("Unknown")),
        dim: true,
        bold: false,
        italic: true,
    };
    let accent = Color::Named(NamedColor::Red);
    let theme = |name: &str| {
        if name == "Accent" {
            (Some(accent), None)
        } else {
            (None, None)
        }
    };
    let ops = apply_style_spec(&spec, &theme);
    assert_eq!(ops.len(), 4);
    assert!(matches!(&ops[0], LineOp::SetHl(name) if name == "Comment"));
    assert!(matches!(&ops[1], LineOp::SetFg(color) if *color == accent));
    assert!(ops.iter().any(|op| matches!(op, LineOp::SetDim)));
    assert!(ops.iter().any(|op| matches!(op, LineOp::SetItalic)));
    assert!(!ops.iter().any(|op| matches!(op, LineOp::SetBold)));
}

#[test]
fn scratch_buffers_are_kept_while_they_are_small_and_few() {
    let small = vec![BufferSize { rows: 256, text_bytes: 10 }];
    assert!(can_keep(&small));
    assert!(!can_keep(&vec![BufferSize { rows: 257, text_bytes: 0 }]));
    assert!(!can_keep(&vec![BufferSize { rows: 1, text_bytes: 262145 }]));
    let columns: Vec<BufferSize> =
        (0..17).map(|_| BufferSize { rows: 0, text_bytes: 0 }).collect();
    assert!(!can_keep(&columns));
    let mut pool: HboxScratchPool<u8> = HboxScratchPool::new();
    assert_eq!(pool.take_hbox_scratch(), None);
    for set in 0..5u8 {
        pool.recycle_hbox_scratch(set, &small);
    }
    pool.recycle_hbox_scratch(9, &columns);
    let mut taken = Vec::new();
    while let Some(set) = pool.take_hbox_scratch() {
        taken.push(set);
    }
    assert_eq!(taken.len(), 4);
    assert!(!taken.contains(&4) && !taken.contains(&9));
}

#[test]
fn drawn_rows_keep_their_bytes() {
    let sizes = BufferSizes { buffer: 100, line: 24, decoration: 8 };
    assert_eq!(rendered_buffer_retained_bytes(sizes, &vec![5, 7], 3), 100 + 48 + 12 + 24);
    assert_eq!(rendered_buffer_retained_bytes(sizes, &vec![], 0), 100);
    let large = BufferSizes { line: usize::MAX, ..sizes };
    assert_eq!(rendered_buffer_retained_bytes(large, &vec![1, 1], 0), usize::MAX);
}

#[test]
fn inline_syntax_is_compiled_once_and_forgotten_with_the_theme() {
    let calls = Cell::new(0);
    let highlight = |_: &str, source: &str| {
        calls.set(calls.get() + 1);
        vec![InlineSyntaxSpan {
            byte_start: 0,
            byte_end: source.len(),
            red: 1,
            green: 2,
            blue: 3,
        }]
    };
    let mut cache = InlineSyntaxCache::new();
    let first = cache.get_or_compile(1, "rs", "fn f() {}", &highlight);
    assert_eq!(cache.get_or_compile(1, "rs", "fn f() {}", &highlight), first);
    assert_eq!(calls.get(), 1);
    assert_eq!(first[0].byte_end, 9);
    cache.get_or_compile(1, "py", "fn f() {}", &highlight);
    cache.get_or_compile(1, "rs", "fn g() {}", &highlight);
    assert_eq!(calls.get(), 3);
    cache.get_or_compile(2, "rs", "fn f() {}", &highlight);
    assert_eq!(calls.get(), 4);
    assert_eq!(cache.theme_revision, 2);
    assert_eq!(cache.buckets.len(), 1);
}

#[test]
fn inline_syntax_stays_within_its_budget() {
    let highlight = |_: &str, _: &str| Vec::<InlineSyntaxSpan>::new();
    let mut cache = InlineSyntaxCache::new();
    for i in 0..40 {
        let source = format!("{i}{}", "x".repeat(10_000));
        cache.get_or_compile(1, "rs", &source, &highlight);
        assert!(cache.retained_bytes <= INLINE_SYNTAX_CACHE_BUDGET);
    }
    let newest = format!("39{}", "x".repeat(10_000));
    let kept: Vec<&String> =
        cache.buckets.iter().flat_map(|b| b.entries.iter().map(|e| &e.source)).collect();
    assert!(kept.len() < 40 && kept.contains(&&newest));
    assert!(!kept.contains(&&format!("0{}", "x".repeat(10_000))));
    let same_key = cache.get_or_compile_keyed(1, 7, "rs", "a", &highlight);
    cache.get_or_compile_keyed(1, 7, "rs", "b", &highlight);
    assert!(same_key.is_empty());
    assert!(cache.buckets.iter().any(|b| b.key == 7 && b.entries.len() == 2));
}

#[test]
fn text_is_measured_in_cells() {
    assert_eq!(display_width("a漢"), 3);
    assert_eq!(expand_tabs("a\tb"), "a    b");
    assert_eq!(split_lines("a\r\nb\n"), vec!["a", "b"]);
    assert_eq!(widest_line("ab\n漢字x\n"), 5);
    let spans = vec![span("ab"), span("漢")];
    assert_eq!(styled_spans_width(&spans), 4);
    assert_eq!(gutter_width(None), 0);
    let gutter = GutterSpec { text: String::from("│ "), styled: false };
    assert_eq!(gutter_width(Some(&gutter)), 2);
    assert_eq!(child_width_after_gutter(10, 2), 8);
    assert_eq!(panel_child_width(10, 2), 6);
}

fn span(text: &str) -> StyledSpan {
    StyledSpan {
        text: String::from(text),
        hl: None,
        fg: None,
        bg: None,
        dim: false,
        bold: false,
        italic: false,
        syntax: None,
        selectable: true,
    }
}

#[test]
fn texts_take_as_many_rows_as_are_drawn() {
    let wrap = |line: &str, width: u16| chunks(line, width);
    let ansi = |line: &str, width: u16| chunks(line, width).len();
    let spec = TextSpec { content: String::from("abcdefgh\nx"), hl_group: None, ansi: false };
    assert_eq!(measure_text_spec(&spec, 4, &wrap, &ansi), 3);
    let plain = MarkdownSpec {
        content: String::from("abcdefgh\nx"),
        dim: false,
        italic: true,
        inline: false,
    };
    assert_eq!(measure_plain_markdown_spec(&plain, 4, &wrap), 3);
    let ops = render_plain_markdown_spec(&plain, 4, 1, 2, None, &wrap);
    let printed: Vec<&String> =
        ops.iter().filter_map(|op| if let LineOp::Print(text) = op { Some(text) } else { None }).collect();
    assert_eq!(printed, vec!["efgh", "x"]);
    let count = |line: &str, _: bool, _: bool, width: u16| words(line, width).len();
    assert_eq!(measure_inline_markdown_spec("one two\nthree", false, false, 4, &count), 3);
}

#[test]
fn one_word_is_cut_every_so_many_letters() {
    assert!(plain_markdown_is_single_ascii_word("word"));
    assert!(!plain_markdown_is_single_ascii_word("two words"));
    assert!(!plain_markdown_is_single_ascii_word("wörd"));
    assert_eq!(ascii_word_rows(9, 4), 3);
    assert_eq!(ascii_word_rows(8, 4), 2);
}

#[test]
fn leaves_are_measured_by_their_rulers() {
    let wrap = |line: &str, width: u16| chunks(line, width);
    let ruler = LeafRuler {
        wrap: &wrap,
        ansi: &|line: &str, width: u16| chunks(line, width).len(),
        inline: &|line: &str, _: bool, _: bool, width: u16| words(line, width).len(),
        markdown: &|text: &str, _: bool, _: u16| text.lines().count() + 100,
        code: &|lines: &Vec<String>, lang: &str, _: u16| lines.len() + lang.len(),
        source_view: &|_: u64, _: u16, _: u16| 7usize,
    };
    let markdown = |content: &str, inline: bool| MarkdownSpec {
        content: String::from(content),
        dim: false,
        italic: false,
        inline,
    };
    assert_eq!(ruler.measure_markdown_spec(&markdown("one two", true), 4), 2);
    assert_eq!(ruler.measure_markdown_spec(&markdown("plain words", false), 80), 1);
    assert_eq!(ruler.measure_markdown_spec(&markdown("# one\ntwo", false), 80), 102);
    let code = CodeSpec { content: String::new(), lang: String::from("rs") };
    assert_eq!(code_block_lines(&code), vec![""]);
    assert_eq!(ruler.measure_code_spec(&code, 80), 3);
}

#[test]
fn large_markdown_is_shown_without_being_parsed() {
    let plain = facts("some text");
    assert_eq!(retained_markdown_edge_mode(plain, false), RetainedMarkdownEdgeMode::Literal);
    let small = ContentFacts { first_line_plain: false, ..plain };
    assert_eq!(retained_markdown_edge_mode(small, false), RetainedMarkdownEdgeMode::Parsed);
    let large = ContentFacts {
        len: 70_000,
        logical_lines: 2,
        large_markdown: true,
        ..small
    };
    let mode = retained_markdown_edge_mode(large, false);
    assert_ne!(mode, RetainedMarkdownEdgeMode::Parsed);
}

/// The steps as they read, without their texts' styles.
fn told(ops: &[LineOp]) -> Vec<String> {
    ops.iter().map(|op| format!("{op:?}")).collect()
}

fn text_row(text: &str) -> ContentTextRow {
    ContentTextRow {
        wrapped: false,
        continuation: false,
        pieces: vec![String::from(text)],
        spans: Vec::new(),
    }
}

/// Draws what `draw` draws of a content of three lines of inline markdown of two rows each, of
/// which this is known.
fn with_canvas<R>(facts: ContentFacts, draw: impl Fn(&dyn DrawsContent) -> R) -> R {
    let window = |_: u64, _: u16, n: usize| ContentTextWindow { row_count: n, truncated: true };
    let ruler = ContentRuler {
        facts: &move |_: u64| facts,
        text_rows: &|_: u64, _: u16, _: bool| 1usize,
        text_head: &|_: u64, _: u16, _: bool, n: usize| ContentTextWindow {
            row_count: n.min(2),
            truncated: false,
        },
        inline_rows: &|_: u64, _: bool, _: bool, _: u16| 6usize,
        markdown_rows: &|_: u64, _: bool, _: u16| 9usize,
        markdown_edge: &|_: u64, _: bool, _: u16, n: usize| ContentTextWindow {
            row_count: n,
            truncated: true,
        },
        code_rows: &|_: u64, _: u16| 4usize,
        code_edge: &window,
        file_rows: &|_: u64, _: u16, _: u16| 5usize,
        file_edge: &window,
    };
    let painter = SpanPainter {
        slice: &|text: &str, start: usize, end: usize| String::from(&text[start..end]),
        fg: &|_: &str| None,
        bg: &|_: &str| None,
    };
    let canvas = ContentCanvas {
        ruler: &ruler,
        painter: &painter,
        rows: &|_: u64, _: u16, _: bool, asked: RowsAsked| match asked {
            RowsAsked::Tail { count } => (0..count).map(|n| text_row(&format!("t{n}"))).collect(),
            _ => vec![text_row("a"), text_row("b")],
        },
        inline: &|_: u64, _: bool, _: bool, _: u16| vec![2usize, 2, 2],
        temp: &|ops: &Vec<LineOp>, _: u16| Outcome {
            line_count: 1 + ops.len(),
            was_wrapped: true,
            max_line_width: 0,
            layout_width: 0,
        },
        lang_to_ext: &|lang: &str| format!("{lang}-ext"),
    };
    let spec = |render: &ContentRenderSpec| RetainedContentSpec { content: 1, render: copy(render) };
    draw(&Drawn {
        content: &|render: &ContentRenderSpec, start: usize, count: usize, gutter| {
            told(&canvas.render_content_spec(&spec(render), 40, start, count, gutter))
        },
        edge: &|render: &ContentRenderSpec, count: usize, tail: bool| {
            told(&canvas.render_retained_content_edge(&spec(render), 40, count, tail))
        },
    })
}

fn copy(render: &ContentRenderSpec) -> ContentRenderSpec {
    match render {
        ContentRenderSpec::Text { hl_group, ansi } => {
            ContentRenderSpec::Text { hl_group: hl_group.clone(), ansi: *ansi }
        }
        ContentRenderSpec::Markdown { dim, italic, inline } => {
            ContentRenderSpec::Markdown { dim: *dim, italic: *italic, inline: *inline }
        }
        ContentRenderSpec::Code { lang } => ContentRenderSpec::Code { lang: lang.clone() },
        ContentRenderSpec::File { path, lang } => {
            ContentRenderSpec::File { path: path.clone(), lang: lang.clone() }
        }
    }
}

type DrawContent<'a> =
    dyn Fn(&ContentRenderSpec, usize, usize, Option<&GutterSpec>) -> Vec<String> + 'a;
type DrawEdge<'a> = dyn Fn(&ContentRenderSpec, usize, bool) -> Vec<String> + 'a;

struct Drawn<'a> {
    content: &'a DrawContent<'a>,
    edge: &'a DrawEdge<'a>,
}

trait DrawsContent {
    fn content(
        &self,
        render: &ContentRenderSpec,
        start: usize,
        count: usize,
        gutter: Option<&GutterSpec>,
    ) -> Vec<String>;
    fn edge(&self, render: &ContentRenderSpec, count: usize, tail: bool) -> Vec<String>;
}

impl DrawsContent for Drawn<'_> {
    fn content(
        &self,
        render: &ContentRenderSpec,
        start: usize,
        count: usize,
        gutter: Option<&GutterSpec>,
    ) -> Vec<String> {
        (self.content)(render, start, count, gutter)
    }

    fn edge(&self, render: &ContentRenderSpec, count: usize, tail: bool) -> Vec<String> {
        (self.edge)(render, count, tail)
    }
}

fn markdown(italic: bool, inline: bool) -> ContentRenderSpec {
    ContentRenderSpec::Markdown { dim: false, italic, inline }
}

#[test]
fn retained_contents_are_drawn_by_kind() {
    let known = ContentFacts { first_line_plain: false, ..facts("some text") };
    let gutter = GutterSpec { text: String::from("│ "), styled: true };
    with_canvas(known, |canvas| {
        let text = ContentRenderSpec::Text { hl_group: None, ansi: false };
        let drawn = canvas.content(&text, 0, 2, None);
        assert_eq!(drawn.iter().filter(|op| *op == "Newline").count(), 2);
        assert!(drawn.contains(&String::from("Print(\"b\")")));

        let code = ContentRenderSpec::Code { lang: String::from("rs") };
        assert!(canvas.content(&code, 0, 0, None).is_empty());
        assert_eq!(
            canvas.content(&code, 1, 2, None),
            vec!["Code { width: 40, rows: Range { start: 1, count: 2 } }"]
        );
        let placed = canvas.content(&code, 1, 2, Some(&gutter));
        assert_eq!(placed[0], "MarkWrapped");
        assert_eq!(placed[1], "Gutter(\"│ \")");
        assert_eq!(placed[2], "TempRow { row: 0, width: 40, overlay: None }");
        assert_eq!(placed.iter().filter(|op| op.starts_with("TempRow")).count(), 2);

        let file = ContentRenderSpec::File { path: String::from("a/b.rs"), lang: None };
        assert_eq!(
            canvas.content(&file, 0, 3, Some(&gutter)),
            vec!["File { extension: \"rs\", columns: 42, indent: 2, rows: Range { start: 0, count: 3 } }"]
        );

        assert_eq!(
            canvas.content(&markdown(true, false), 0, 3, None),
            vec![
                "SaveStyle",
                "SetItalic",
                "Markdown { dim: false, width: 40, rows: Range { start: 0, count: 3 } }",
                "PopStyle",
            ]
        );
        let behind = canvas.content(&markdown(true, false), 0, 3, Some(&gutter));
        assert_eq!(
            behind[2],
            "TempRow { row: 0, width: 40, overlay: Some(StyleOverlay { dim: false, italic: true }) }"
        );
        assert_eq!(behind.iter().filter(|op| op.starts_with("TempRow")).count(), 5);

        let inline = canvas.content(&markdown(false, true), 3, 2, None);
        assert!(inline.contains(&String::from("InlineRow { line: 1, row: 1 }")));
        assert!(inline.contains(&String::from("InlineRow { line: 2, row: 0 }")));
        assert_eq!(inline.iter().filter(|op| *op == "Newline").count(), 2);
    });
    with_canvas(facts("some text"), |canvas| {
        let plain = canvas.content(&markdown(false, false), 0, 2, None);
        assert_eq!(plain.iter().filter(|op| *op == "Newline").count(), 2);
        assert!(plain.contains(&String::from("Print(\"a\")")));
    });
}

#[test]
fn edges_of_contents_are_drawn_from_either_end() {
    let known = ContentFacts { first_line_plain: false, ..facts("some text") };
    with_canvas(known, |canvas| {
        let text = ContentRenderSpec::Text { hl_group: None, ansi: false };
        assert!(canvas.edge(&text, 2, true).contains(&String::from("Print(\"t1\")")));
        assert!(canvas.edge(&text, 2, false).contains(&String::from("Print(\"b\")")));
        let code = ContentRenderSpec::Code { lang: String::new() };
        assert_eq!(canvas.edge(&code, 3, true), vec!["Code { width: 40, rows: Tail { count: 3 } }"]);
        assert_eq!(
            canvas.edge(&markdown(false, false), 3, false),
            vec!["Markdown { dim: false, width: 40, rows: Head { count: 3 } }"]
        );
        let last = canvas.edge(&markdown(false, true), 2, true);
        assert!(last.contains(&String::from("InlineRow { line: 2, row: 1 }")));
        assert!(!last.contains(&String::from("InlineRow { line: 1, row: 1 }")));
    });
    let large = ContentFacts { len: 70_000, large_markdown: true, logical_lines: 2, ..known };
    with_canvas(large, |canvas| {
        let literal = canvas.edge(&markdown(false, false), 9, true);
        assert!(literal.contains(&String::from("Print(\"t1\")")));
    });
    let foreign = ContentFacts { large_lines_ascii: false, ..large };
    with_canvas(foreign, |canvas| {
        let omitted = canvas.edge(&markdown(false, false), 9, false);
        assert_eq!(omitted.iter().filter(|op| *op == "Newline").count(), 1);
        assert!(omitted[1].contains("[large Markdown content omitted]"));
        assert!(canvas.edge(&markdown(false, false), 0, false).is_empty());
    });
}

#[test]
fn files_are_coloured_by_language_then_path() {
    let ext = |lang: &str| format!("of-{lang}");
    assert_eq!(file_extension("a.rs", &Some(String::from("go")), &ext), "of-go");
    assert_eq!(file_extension("a.rs", &None, &ext), "rs");
    assert_eq!(file_extension("Makefile", &None, &ext), "txt");
}

#[test]
fn placed_rows_are_those_that_can_be_numbered() {
    assert_eq!(rows_to_place(2, 3, 10), (2, 5));
    assert_eq!(rows_to_place(8, 9, 10), (8, 10));
    assert_eq!(rows_to_place(12, 9, 10), (12, 12));
    assert_eq!(rows_to_place(0, usize::MAX, usize::MAX), (0, 65536));
}

#[test]
fn leaves_of_the_layout_are_drawn_by_kind() {
    let window = |_: u64, _: u16, n: usize| ContentTextWindow { row_count: n, truncated: true };
    let contents = ContentRuler {
        facts: &|_: u64| facts("x"),
        text_rows: &|_: u64, _: u16, _: bool| 1usize,
        text_head: &|_: u64, _: u16, _: bool, n: usize| ContentTextWindow {
            row_count: n,
            truncated: false,
        },
        inline_rows: &|_: u64, _: bool, _: bool, _: u16| 1usize,
        markdown_rows: &|_: u64, _: bool, _: u16| 1usize,
        markdown_edge: &|_: u64, _: bool, _: u16, n: usize| ContentTextWindow {
            row_count: n,
            truncated: false,
        },
        code_rows: &|_: u64, _: u16| 1usize,
        code_edge: &window,
        file_rows: &|_: u64, _: u16, _: u16| 1usize,
        file_edge: &window,
    };
    let painter = SpanPainter {
        slice: &|text: &str, start: usize, end: usize| String::from(&text[start..end]),
        fg: &|_: &str| None,
        bg: &|_: &str| None,
    };
    let canvas = ContentCanvas {
        ruler: &contents,
        painter: &painter,
        rows: &|_: u64, _: u16, _: bool, _: RowsAsked| vec![text_row("a")],
        inline: &|_: u64, _: bool, _: bool, _: u16| vec![1usize],
        temp: &|_: &Vec<LineOp>, _: u16| Outcome {
            line_count: 3,
            was_wrapped: false,
            max_line_width: 0,
            layout_width: 0,
        },
        lang_to_ext: &|lang: &str| String::from(lang),
    };
    let wrap = |line: &str, width: u16| chunks(line, width);
    let ruler = LeafRuler {
        wrap: &wrap,
        ansi: &|line: &str, width: u16| chunks(line, width).len(),
        inline: &|line: &str, _: bool, _: bool, width: u16| words(line, width).len(),
        markdown: &|text: &str, _: bool, _: u16| text.lines().count(),
        code: &|lines: &Vec<String>, _: &str, _: u16| lines.len(),
        source_view: &|_: u64, _: u16, _: u16| 7usize,
    };
    let runs = InlineText {
        join: &|runs: &Vec<InlineRun>| {
            runs.iter().map(|r| InlineRun { text: r.text.clone(), meta: r.meta }).collect::<Vec<_>>()
        },
        wrap: &|_: &Vec<InlineRun>, _: usize, _: usize| vec![Vec::<Fragment>::new()],
        wrap_occupied: &|_: &Vec<InlineRun>, _: usize, _: usize, _: usize, _: usize| {
            vec![Vec::<Fragment>::new()]
        },
        cells: &|_: &Vec<InlineRun>| 0usize,
        blank: &|runs: &Vec<InlineRun>| runs.is_empty(),
    };
    let draw = |leaf: &IrLeaf, start: usize, count: usize, gutter: Option<&GutterSpec>| {
        told(&render_ir_leaf(&ruler, &runs, &canvas, leaf, 40, start, count, gutter))
    };
    let gutter = GutterSpec { text: String::from("│ "), styled: false };
    let code = IrLeaf::Code(CodeSpec { content: String::from("x\ny\nz"), lang: String::new() });
    assert_eq!(draw(&code, 0, 3, None), vec!["Code { width: 40, rows: All }"]);
    let second = draw(&code, 1, 1, None);
    assert_eq!(second, vec!["TempRow { row: 1, width: 40, overlay: None }", "Newline"]);
    assert_eq!(draw(&code, 0, 3, Some(&gutter)).len(), 3 * 6);
    assert_eq!(
        draw(&IrLeaf::SourceView(4), 0, 9, Some(&gutter)),
        vec!["SourceView { columns: 42, indent: 2, rows: Range { start: 0, count: 9 } }"]
    );
    let heading = IrLeaf::Markdown(MarkdownSpec {
        content: String::from("# x"),
        dim: true,
        italic: false,
        inline: false,
    });
    assert_eq!(
        draw(&heading, 0, 9, None),
        vec!["Markdown { dim: true, width: 40, rows: Range { start: 0, count: 9 } }"]
    );
    let text = IrLeaf::Text(TextSpec {
        content: String::from("one\ntwo"),
        hl_group: None,
        ansi: false,
    });
    assert!(draw(&text, 1, 1, None).contains(&String::from("Print(\"two\")")));
    let separator = IrLeaf::Separator(SeparatorSpec {
        label: Vec::new(),
        dim: false,
        selectable: true,
    });
    for leaf in [&text, &separator] {
        let rows = measure_ir_leaf(&ruler, &runs, &contents, leaf, 40, 0);
        for start in 0..4usize {
            for count in 0..4usize {
                let drawn = draw(leaf, start, count, Some(&gutter));
                let ends = drawn.iter().filter(|op| *op == "Newline").count();
                assert_eq!(ends, rows.saturating_sub(start).min(count));
            }
        }
    }
    let content = IrLeaf::Content(RetainedContentSpec {
        content: 1,
        render: ContentRenderSpec::Code { lang: String::new() },
    });
    assert_eq!(
        draw(&content, 0, 1, None),
        vec!["Code { width: 40, rows: Range { start: 0, count: 1 } }"]
    );

    let share = |constraints: &Vec<Constraint>, _: &Vec<u16>, total: u16| {
        vec![total / constraints.len().max(1) as u16; constraints.len()]
    };
    let shows = |_: &IrLeaf, _: u16, _: usize, _: usize| true;
    let shows_drawn = |_: &LayoutIr, _: u16, _: usize, _: usize| true;
    let host = own_host(&ruler, &runs, &contents, share, shows, shows_drawn);
    let word = IrLeaf::Markdown(MarkdownSpec {
        content: "x".repeat(100),
        dim: false,
        italic: false,
        inline: false,
    });
    let layout = BlockLayout::Gutter {
        child: Box::new(BlockLayout::Vbox(vec![
            BlockLayout::Leaf(text),
            BlockLayout::Leaf(separator),
            BlockLayout::Leaf(word),
        ])),
        spec: GutterSpec { text: String::from("| "), styled: false },
    };
    let rows = host.render_layout_ir_into(&layout, 42);
    assert_eq!(rows.len(), 2 + 1 + 3);
    assert_eq!(host.measure_layout_ir_full(&layout, 42), rows.len());
    for row in &rows {
        assert_eq!(row.len(), 1);
        let RowOp::Leaf { leaf, width, row, gutter } = &row[0] else {
            panic!("a row of a leaf");
        };
        assert_eq!(*width, 40);
        let ends = draw(leaf, *row, 1, *gutter).iter().filter(|op| *op == "Newline").count();
        assert_eq!(ends, 1);
    }
    let prefix = RowPrefixSpec { first: vec![span("- ")], rest: vec![span("  ")] };
    let runs_leaf = |source_spans: Vec<Vec<InlineSyntaxSpan>>| RunsSpec {
        lines: vec![vec![span("a")], vec![span("b")]],
        hl_group: None,
        continuation_indent: 0,
        syntax_highlights: RetainedInlineSyntax { source_spans, line_offsets: Vec::new() },
    };
    let red = InlineSyntaxSpan { byte_start: 0, byte_end: 1, red: 255, green: 0, blue: 0 };
    for highlights in [Vec::new(), vec![vec![red]]] {
        let spec = runs_leaf(highlights);
        assert_eq!(host.ask_prefix_rows(&spec, &prefix, 40), 2);
        let leaf = IrLeaf::Runs(spec);
        assert_eq!(host.ask_leaf_rows(&leaf, 40, 0), 2);
        assert_eq!(host.ask_leaf_rows(&leaf, 40, 7), 2);
    }
    assert_eq!(host.ask_content_len(1), 1);
}

#[test]
fn styled_ranges_print_what_they_span() {
    let painter = SpanPainter {
        slice: &|text: &str, start: usize, end: usize| String::from(&text[start..end]),
        fg: &|_: &str| None,
        bg: &|_: &str| None,
    };
    let mut ops = Vec::new();
    let highlights = vec![InlineSyntaxSpan {
        byte_start: 1,
        byte_end: 3,
        red: 9,
        green: 8,
        blue: 7,
    }];
    painter.print_retained_inline_syntax(&mut ops, "abcdef", 0, 4, &highlights);
    let printed: String = ops
        .iter()
        .filter_map(|op| match op {
            LineOp::Print(text) | LineOp::PrintMeta { text, .. } => Some(text.as_str()),
            _ => None,
        })
        .collect();
    assert_eq!(printed, "abcd");
    assert!(ops.iter().any(|op| matches!(
        op,
        LineOp::SetFg(Color::Rgb { r: 9, g: 8, b: 7 })
    )));
}
