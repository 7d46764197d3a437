use smelt_content::cap_rows::{cap_rows, CapRow};
use smelt_content::chrome::print_hbox_padding;
use smelt_content::code_block::spaces_text;
use smelt_content::inline_markers::{breakable_positions, strip_markdown_markers};
use smelt_content::leaf_rows::{plan_rows, total_rows};
use smelt_content::leaf_text::{ascii_word_rows, render_text_spec};
use smelt_content::ir::{CapKeep, CapMarker, CapSpec, RunsSpec, RetainedInlineSyntax, TextSpec};
use smelt_content::line_ops::LineOp;
use smelt_content::markdown_flow::MarkdownTextKind;
use smelt_content::markdown_retained::ByteRange;
use smelt_content::markdown_spans::{
    markdown_line_spans, shift_markdown_nodes, InlineStyle, MarkdownNode, MarkdownSpan,
};
use smelt_content::paint::{resolve, Color, ThemeColors};
use smelt_content::prompt_bar::BarInfo;
use smelt_content::prompt_input::{
    compute_input_area, compute_prompt, InputState, PromptInput, VisualLine,
};
use smelt_content::prompt_parser::build_coord_maps;
use smelt_content::prompt_spans::{
    build_char_kinds, display_safe_plain_char, spans_to_string, SpanSources, ATTACHMENT_MARKER,
};
use smelt_content::prompt_style::{PromptColors, SpanKind};
use smelt_content::prompt_wrap::build_src_disp_byte_maps;
use smelt_content::spans::{ColorRole, ColorValue, NamedColor};
use smelt_content::styled_runs::runs_continuation_indent;
use smelt_content::view_state::{render_projected_view_range, ViewRow, ViewState};

#[test]
fn rows_shown_and_hidden_are_all_rows() {
    for state in [
        ViewState::Expanded,
        ViewState::Peek,
        ViewState::Collapsed,
        ViewState::TrimmedHead { keep: 3 },
        ViewState::TrimmedTail { keep: 3 },
        ViewState::TrimmedTail { keep: 0 },
    ] {
        for total in [0usize, 1, 3, 10] {
            let rows = render_projected_view_range(state, total, 0, usize::MAX);
            let count: usize = rows
                .iter()
                .map(|row| match row {
                    ViewRow::Source { .. } => 1,
                    ViewRow::Ellipsis { hidden, .. } => *hidden,
                })
                .sum();
            assert_eq!(count, total, "{state:?} {total}");
        }
    }
}

fn theme(accent: Color) -> ThemeColors {
    let other = Color::Named(NamedColor::Grey);
    ThemeColors {
        accent,
        slug: other,
        user_bg: other,
        code_block_bg: other,
        bar: other,
        tool_pending: other,
        reason_off: other,
        muted: other,
    }
}

#[test]
fn themes_colour_roles_and_nothing_else() {
    let red = theme(Color::Named(NamedColor::Red));
    let blue = theme(Color::AnsiValue(12));
    assert_eq!(resolve(ColorValue::Role(ColorRole::Accent), &red), Color::Named(NamedColor::Red));
    assert_eq!(resolve(ColorValue::Role(ColorRole::Accent), &blue), Color::AnsiValue(12));
    for value in [
        ColorValue::Rgb(1, 2, 3),
        ColorValue::Ansi(9),
        ColorValue::Named(NamedColor::Cyan),
    ] {
        assert_eq!(resolve(value, &red), resolve(value, &blue));
    }
    assert_eq!(resolve(ColorValue::Rgb(1, 2, 3), &red), Color::Rgb { r: 1, g: 2, b: 3 });
}

fn no_reference(_: &Vec<char>, _: usize) -> Option<usize> {
    None
}

#[test]
fn kinds_and_places_cover_the_display() {
    let labels = vec![String::from("[image]")];
    let sources = SpanSources {
        labels: &labels,
        at_ref: &no_reference,
        at_token: &no_reference,
        tabs: true,
    };
    let source = format!("a\tb{ATTACHMENT_MARKER}\u{7}漢");
    let spans = sources.build_display_spans(&source);
    let display = spans_to_string(&spans);
    assert_eq!(display, "a    b[image]\u{FFFD}漢");
    let kinds = build_char_kinds(&spans);
    assert_eq!(kinds.len(), display.chars().count());
    assert_eq!(kinds.iter().filter(|kind| **kind == SpanKind::Attachment).count(), 7);
    let (to_display, to_source) = build_coord_maps(&spans);
    assert_eq!(to_display.len(), source.chars().count() + 1);
    for (place, shown) in to_display.iter().enumerate() {
        assert_eq!(to_source[*shown], place);
    }
    assert!(to_display.windows(2).all(|pair| pair[0] <= pair[1]));
    let (src_disp, disp_src) = build_src_disp_byte_maps(&spans, source.len(), display.len());
    for byte in 0..=source.len() {
        if source.is_char_boundary(byte) {
            assert_eq!(disp_src[src_disp[byte]], byte);
        }
    }
}

#[test]
fn controls_are_never_displayed() {
    assert_eq!(display_safe_plain_char('a'), 'a');
    assert_eq!(display_safe_plain_char('\u{1b}'), '\u{FFFD}');
    assert_eq!(display_safe_plain_char('\n'), '\n');
}

#[test]
fn stripped_text_is_no_longer_than_it_was() {
    for text in ["", "plain", "**a** _b_", "`x` ~~y~~", "***", "a*b", "**a*"] {
        let stripped = strip_markdown_markers(text);
        assert!(stripped.chars().count() <= text.chars().count());
        let breaks = breakable_positions(text);
        for (at, c) in text.chars().enumerate() {
            assert!(!breaks[at] || c == ' ');
        }
    }
    assert_eq!(strip_markdown_markers("plain"), "plain");
    assert_eq!(strip_markdown_markers("a*b"), "a*b");
}

#[test]
fn rows_drawn_are_those_asked_for() {
    let counts = vec![2usize, 0, 3];
    assert_eq!(total_rows(&counts), 5);
    for start in 0..6usize {
        for count in 0..7usize {
            let drawn: usize =
                plan_rows(&counts, start, count).iter().map(|line| line.to - line.from).sum();
            assert_eq!(drawn, (start + count).min(5).saturating_sub(start));
        }
    }
    let spec = TextSpec { content: String::from("abcd\nef"), hl_group: None, ansi: false };
    let wrap = |line: &str, width: u16| -> Vec<String> {
        let chars: Vec<char> = line.chars().collect();
        chars.chunks(width as usize).map(|row| row.iter().collect()).collect()
    };
    let none = |_: &str, _: u16| 0usize;
    let ops = render_text_spec(&spec, 2, 1, 1, None, &wrap, &none);
    let rows = ops.iter().filter(|op| matches!(op, LineOp::Newline)).count();
    assert_eq!(rows, 1);
}

#[test]
fn word_rows_hold_the_whole_word() {
    for len in 1..40usize {
        for width in 1..9u16 {
            let rows = ascii_word_rows(len, width);
            assert!(rows * width as usize >= len);
            assert!((rows - 1) * (width as usize) < len);
        }
    }
}

#[test]
fn caps_keep_their_rows_and_one_marker() {
    let keeps = [
        CapKeep::Head { marker: Some(CapMarker::Below) },
        CapKeep::Tail { marker: Some(CapMarker::Above) },
        CapKeep::HeadTail { head: 2, marker: true },
        CapKeep::Head { marker: None },
    ];
    for keep in keeps {
        for total in [0usize, 3, 4, 20] {
            let spec = CapSpec { rows: 4, keep, total_rows: None };
            let capped = cap_rows(total, &spec);
            let rows: Vec<CapRow> =
                (0..capped.row_count()).map(|at| capped.row_at(at).unwrap()).collect();
            let kept = rows.iter().filter(|row| matches!(row, CapRow::Child(_))).count();
            assert_eq!(kept, total.min(4));
            let marked = total > 4 && keep != (CapKeep::Head { marker: None });
            assert_eq!(rows.len(), kept + usize::from(marked));
        }
    }
}

#[test]
fn removed_markers_leave_the_kept_rows() {
    let between = CapSpec {
        rows: 4,
        keep: CapKeep::HeadTail { head: 2, marker: true },
        total_rows: None,
    };
    let mut capped = cap_rows(10, &between);
    assert_eq!(capped.omitted_range(), Some((2, 8)));
    assert_eq!(capped.row_count(), 5);
    capped.remove_omitted_marker();
    let rows = |capped: &smelt_content::cap_rows::CapRows| -> Vec<CapRow> {
        (0..capped.row_count()).map(|at| capped.row_at(at).unwrap()).collect()
    };
    let kept = vec![CapRow::Child(0), CapRow::Child(1), CapRow::Child(8), CapRow::Child(9)];
    assert_eq!(rows(&capped), kept);
    assert_eq!(capped.omitted_range(), None);
    capped.remove_omitted_marker();
    assert_eq!(rows(&capped), kept);

    let below =
        CapSpec { rows: 4, keep: CapKeep::Head { marker: Some(CapMarker::Below) }, total_rows: None };
    let mut capped = cap_rows(10, &below);
    capped.remove_omitted_marker();
    assert_eq!(capped.row_count(), 5);
    assert!(matches!(capped.row_at(4), Some(CapRow::Marker { skipped: 6, .. })));
}

#[test]
fn padding_takes_the_cells_it_is_given() {
    for cells in [0u16, 1, 64, 65, 200] {
        let texts = print_hbox_padding(cells);
        assert_eq!(texts.iter().map(|n| *n as usize).sum::<usize>(), cells as usize);
        assert!(texts.iter().all(|n| *n <= 64 && spaces_text(*n as usize).len() == *n as usize));
    }
}

fn range(start: usize, end: usize) -> MarkdownNode {
    MarkdownNode::Rule { range: ByteRange { start, end } }
}

#[test]
fn shifts_add_up_to_one() {
    let nodes = || vec![range(0, 3), range(5, 9)];
    let mut twice = nodes();
    shift_markdown_nodes(&mut twice, 4);
    shift_markdown_nodes(&mut twice, 6);
    let mut once = nodes();
    shift_markdown_nodes(&mut once, 10);
    assert_eq!(format!("{twice:?}"), format!("{once:?}"));
    let mut still = nodes();
    shift_markdown_nodes(&mut still, 0);
    assert_eq!(format!("{still:?}"), format!("{:?}", nodes()));
}

#[test]
fn list_items_show_their_whole_line() {
    let plain = InlineStyle { bold: false, italic: false, dim: false, heading: false, other: 0 };
    let base = vec![MarkdownSpan { text: String::from("item"), style: plain, meta: 0 }];
    let spans = markdown_line_spans("item", "- ", &base, MarkdownTextKind::List, false);
    let text: String = spans.iter().map(|span| span.text.as_str()).collect();
    assert_eq!(text, "- item");
    let heading = markdown_line_spans("item", "", &base, MarkdownTextKind::Heading, false);
    assert!(heading.iter().all(|span| span.style.heading || span.style.bold));
}

#[test]
fn continuation_leaves_room_for_text() {
    let spec = |indent: u16| RunsSpec {
        lines: Vec::new(),
        hl_group: None,
        continuation_indent: indent,
        syntax_highlights: RetainedInlineSyntax {
            source_spans: Vec::new(),
            line_offsets: Vec::new(),
        },
    };
    for width in [0u16, 1, 4, 10] {
        for indent in [0u16, 3, 50] {
            assert!(runs_continuation_indent(&spec(indent), width) < width.max(1));
        }
    }
}

fn colors() -> PromptColors {
    PromptColors {
        is_light: false,
        selection_bg: Color::AnsiValue(238),
        accent: Color::AnsiValue(208),
        muted: Color::AnsiValue(244),
        bar: Color::AnsiValue(236),
        user_bg: Color::AnsiValue(235),
    }
}

/// A prompt of ten lines with the cursor in line `line`.
fn ten_lines(line: usize, scroll_top: u16) -> InputState {
    let lines: Vec<VisualLine> = (0..10)
        .map(|n| VisualLine { text: format!("line {n}"), kinds: vec![SpanKind::Plain; 6] })
        .collect();
    let text: Vec<String> = lines.iter().map(|line| line.text.clone()).collect();
    InputState {
        text: text.join("\n"),
        looks_like_command: false,
        lines,
        line_offsets: (0..10).map(|n| n * 7).collect(),
        cursor_line: line,
        cursor_char_in_line: 0,
        selection: None,
        scroll_top,
        pending_recenter: false,
        cursor_moved: true,
    }
}

#[test]
fn moved_cursor_scrolls_into_view() {
    for (line, scroll_top) in [(0usize, 5u16), (9, 0), (4, 3), (7, 7)] {
        let state = ten_lines(line, scroll_top);
        let area = compute_input_area(&state, None, 4, 20, 0, true, &colors());
        assert!(area.scroll_offset <= line);
        assert!(line < area.scroll_offset + area.visible_rows as usize);
        assert_eq!(area.total_content_rows, 10);
        let shown = format!("line {}", area.scroll_offset);
        assert!(area.lines[0].contains(&shown), "{} in {:?}", shown, area.lines);
    }
    let recentred = InputState { pending_recenter: true, ..ten_lines(6, 0) };
    let area = compute_input_area(&recentred, None, 4, 20, 0, true, &colors());
    assert!(area.scroll_offset <= 6 && 6 < area.scroll_offset + 4);
}

#[test]
fn prompt_takes_no_more_than_the_screen() {
    let state = ten_lines(9, 0);
    let bar = BarInfo {
        model_label: Some(String::from("model")),
        effort: None,
        tokens_label: None,
        context_percent: None,
        cost_label: None,
    };
    let queued = Vec::new();
    for height in [3u16, 5, 30] {
        let input = PromptInput {
            queued: &queued,
            stashed: false,
            state: &state,
            prediction: None,
            width: 40,
            height,
            has_prompt_cursor: true,
            bar_info: &bar,
        };
        let output = compute_prompt(&input, &colors());
        assert!(output.area.visible_rows <= height);
        let viewport = output.input_viewport.unwrap();
        assert_eq!(viewport.rows, output.area.visible_rows);
        assert_eq!(viewport.total_rows, 10);
    }
}
