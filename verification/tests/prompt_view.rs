use smelt_content::paint::Color;
use smelt_content::spans::NamedColor;
use smelt_content::prompt_bar::{
    bar_row, build_top_bar_right, queued_message_rows, stash_row, BarInfo, BarSpan, QueuedLine,
    QueuedMessage,
};
use smelt_content::prompt_input::{
    compute_prompt, first_prediction_split, InputState, PromptInput, VisualLine,
};
use smelt_content::prompt_spans::{Span, SpanSources, ATTACHMENT_MARKER};
use smelt_content::prompt_state::{columns_fit, InputLayout, TypedPrompt, WrappedInput};
use smelt_content::queued::{queue_messages, queued_text_width};
use smelt_content::prompt_style::{
    exec_bang_segments, group_color, styled_char_segments, PromptColors, Selection, SpanKind,
    StyledSegment,
};

fn colors() -> PromptColors {
    PromptColors {
        is_light: false,
        selection_bg: Color::AnsiValue(238),
        accent: Color::AnsiValue(208),
        muted: Color::AnsiValue(244),
        bar: Color::AnsiValue(236),
        user_bg: Color::AnsiValue(235),
    }
}

fn text_of(segments: &[StyledSegment]) -> String {
    segments.iter().map(|s| s.text.as_str()).collect()
}

fn no_bar() -> BarInfo {
    BarInfo {
        model_label: None,
        effort: None,
        tokens_label: None,
        context_percent: None,
        cost_label: None,
    }
}

fn empty_state() -> InputState {
    InputState {
        text: String::new(),
        looks_like_command: false,
        lines: vec![VisualLine { text: String::new(), kinds: Vec::new() }],
        line_offsets: vec![0],
        cursor_line: 0,
        cursor_char_in_line: 0,
        selection: None,
        scroll_top: 0,
        pending_recenter: false,
        cursor_moved: false,
    }
}

#[test]
fn stash_row_has_muted_style() {
    let row = stash_row(40, &colors());
    assert!(row[1].style.dim);
    assert_eq!(row[1].style.fg, Some(colors().muted));
    assert_eq!(row[1].text, "› Stashed (ctrl+s to unstash)");
    assert_eq!(stash_row(9, &colors())[1].text, "› Stashed");
}

#[test]
fn bar_row_fills_with_dashes() {
    let row = bar_row(20, &Vec::new(), &Vec::new(), &colors());
    assert!(text_of(&row).contains("────"));
}

#[test]
fn bar_row_with_right_spans() {
    let right = vec![BarSpan {
        text: " model".into(),
        color: Color::Named(NamedColor::White),
        bg: None,
        bold: false,
        dim: false,
        priority: 0,
    }];
    let row = bar_row(30, &Vec::new(), &right, &colors());
    let text = text_of(&row);
    assert!(text.contains(" model"));
    assert!(text.contains("────"));
}

#[test]
fn bar_row_drops_labels_that_do_not_fit() {
    let span = |text: &str, priority: u8| BarSpan {
        text: text.to_string(),
        color: Color::Named(NamedColor::White),
        bg: None,
        bold: false,
        dim: false,
        priority,
    };
    let right = vec![span(" important", 0), span(" optional and very long", 3)];
    let text = text_of(&bar_row(24, &Vec::new(), &right, &colors()));
    assert!(text.contains(" important"));
    assert!(!text.contains("optional"));
}

#[test]
fn styled_char_segments_plain() {
    let segs = styled_char_segments("hello", &vec![SpanKind::Plain; 5], None, None, &colors());
    assert_eq!(segs.len(), 1);
    assert_eq!(segs[0].text, "hello");
}

#[test]
fn styled_char_segments_with_cursor() {
    let segs = styled_char_segments("hello", &vec![SpanKind::Plain; 5], None, Some(2), &colors());
    assert!(segs.len() >= 3);
    let cursor_seg = &segs[1];
    assert_eq!(cursor_seg.text, "l");
    assert!(cursor_seg.style.bg.is_some());
}

#[test]
fn styled_char_segments_cursor_at_end() {
    let segs = styled_char_segments("hi", &vec![SpanKind::Plain; 2], None, Some(2), &colors());
    let last = segs.last().unwrap();
    assert_eq!(last.text, " ");
    assert!(last.style.bg.is_some());
}

#[test]
fn styled_char_segments_with_selection() {
    let segs = styled_char_segments(
        "hello",
        &vec![SpanKind::Plain; 5],
        Some(Selection { start: 1, end: 4 }),
        None,
        &colors(),
    );
    assert!(segs.len() >= 3);
    assert_eq!(segs[0].text, "h");
    assert!(segs[0].style.bg.is_none());
    assert!(segs[1].style.bg.is_some());
    assert_eq!(segs[1].text, "ell");
}

#[test]
fn exec_bang_segments_highlights_bang() {
    let kinds = vec![SpanKind::Plain; 4];
    let segs = exec_bang_segments("!ls", &kinds, None, None, &colors());
    assert_eq!(segs[0].text, "!");
    assert_eq!(segs[0].style.fg, Some(Color::Named(NamedColor::Red)));
    assert!(segs[0].style.bold);
    assert_eq!(text_of(&segs), "!ls");
}

#[test]
fn compute_prompt_produces_bars_and_status() {
    let queued = Vec::new();
    let state = empty_state();
    let bar_info = no_bar();
    let input = PromptInput {
        queued: &queued,
        stashed: false,
        state: &state,
        prediction: None,
        width: 80,
        height: 10,
        has_prompt_cursor: true,
        bar_info: &bar_info,
    };
    let output = compute_prompt(&input, &colors());
    assert!(output.chrome_rows.len() >= 3);
    assert!(output.area.cursor_pos.is_some());
    let viewport = output.input_viewport.unwrap();
    assert_eq!((viewport.top_row, viewport.rows, viewport.total_rows), (1, 1, 1));
}

#[test]
fn prediction_is_shown_where_nothing_was_typed() {
    assert_eq!(first_prediction_split("try this", 5), Some(('t', "ry t".to_string())));
    assert_eq!(first_prediction_split("", 5), None);
    let queued = Vec::new();
    let state = empty_state();
    let bar_info = no_bar();
    let input = PromptInput {
        queued: &queued,
        stashed: true,
        state: &state,
        prediction: Some("try this"),
        width: 80,
        height: 10,
        has_prompt_cursor: true,
        bar_info: &bar_info,
    };
    let output = compute_prompt(&input, &colors());
    assert!(output.area.lines[0].contains("try this"));
    assert!(text_of(&output.chrome_rows[0]).contains("Stashed"));
}

#[test]
fn top_bar_lists_model_tokens_and_cost() {
    let info = BarInfo {
        model_label: Some("model".to_string()),
        effort: None,
        tokens_label: Some("12k".to_string()),
        context_percent: Some(6),
        cost_label: Some("$0.10".to_string()),
    };
    let spans = build_top_bar_right(&info, &colors());
    let text: String = spans.iter().map(|s| s.text.as_str()).collect();
    assert!(text.starts_with(" model"));
    assert!(text.contains("12k (6%)"));
    assert!(text.contains("$0.10"));
}

#[test]
fn queued_messages_stand_on_their_own_background() {
    let queued = vec![QueuedMessage {
        is_command: false,
        block_width: 6,
        lines: vec![QueuedLine { empty: false, chunks: vec!["hello".to_string()] }],
    }];
    let rows = queued_message_rows(&queued, &colors());
    assert!(rows.iter().any(|row| text_of(row).contains("hello")));
    assert!(rows.iter().all(|row| row.iter().any(|s| s.style.bg == Some(colors().user_bg))));
    assert_eq!(group_color(None, Some(Color::AnsiValue(3))), Color::AnsiValue(3));
}

#[test]
fn queued_messages_are_wrapped_behind_their_indent() {
    assert_eq!(queued_text_width(0), 1);
    assert_eq!(queued_text_width(2), 1);
    assert_eq!(queued_text_width(3), 1);
    assert_eq!(queued_text_width(10), 8);
    let command = |text: &str| text.starts_with('/') && !text.contains(' ');
    let geometry = |text: &str, columns: usize| {
        let lines: Vec<String> = text.split('\n').map(String::from).collect();
        let widest = lines.iter().map(String::len).max().unwrap_or(0).min(columns);
        (lines, widest)
    };
    let wrap = |line: &str, columns: usize| -> Vec<String> {
        let chars: Vec<char> = line.chars().collect();
        chars.chunks(columns).map(|row| row.iter().collect()).collect()
    };
    let texts = vec!["  /clear\n".to_string(), "abcdefghij\n\nk".to_string()];
    let queued = queue_messages(&texts, 6, &command, &geometry, &wrap);
    assert_eq!(queued.len(), 2);
    assert!(queued[0].is_command);
    assert_eq!(queued[0].lines.len(), 2);
    assert_eq!(queued[0].lines[0].chunks, vec!["  /c", "lear"]);
    assert!(queued[0].lines[1].empty);
    assert!(!queued[1].is_command);
    assert_eq!(queued[1].block_width, 4);
    assert_eq!(queued[1].lines[0].chunks, vec!["abcd", "efgh", "ij"]);
    assert!(queued[1].lines[1].empty && queued[1].lines[1].chunks.is_empty());
    let rows = queued_message_rows(&queued, &colors());
    assert_eq!(rows.len(), 8);
    assert_eq!(text_of(&rows[3]), "  abcd");
    assert_eq!(text_of(&rows[5]), "  ij  ");
    assert_eq!(text_of(&rows[6]), "      ");
}

fn char_pos(text: &str, byte: usize) -> usize {
    text[..byte].chars().count()
}

/// The place on the display of a character of a text whose attachments have labels.
fn map_cursor(at: usize, text: &str, spans: &Vec<Span>) -> usize {
    let mut labels = spans.iter().filter_map(|span| match span {
        Span::Attachment(label) => Some(label.chars().count()),
        _ => None,
    });
    text.chars()
        .take(at)
        .map(|c| if c == ATTACHMENT_MARKER { labels.next().unwrap_or(1) } else { 1 })
        .sum()
}

fn wrap_and_locate(
    display: &str,
    kinds: &Vec<SpanKind>,
    cursor: usize,
    usable: usize,
) -> WrappedInput {
    let chars: Vec<char> = display.chars().collect();
    let mut lines = Vec::new();
    for (at, row) in chars.chunks(usable).enumerate() {
        let first = at * usable;
        lines.push(VisualLine {
            text: row.iter().collect(),
            kinds: kinds[first..first + row.len()].to_vec(),
        });
    }
    WrappedInput { lines, cursor_line: cursor / usable, cursor_char_in_line: cursor % usable }
}

fn offsets(_: &str, lines: &Vec<VisualLine>) -> Vec<usize> {
    let mut before = 0;
    lines
        .iter()
        .map(|line| {
            let first = before;
            before += line.text.chars().count();
            first
        })
        .collect()
}

fn laid_out(prompt: &TypedPrompt, labels: Vec<String>, usable: usize) -> InputState {
    let none = |_: &Vec<char>, _: usize| -> Option<usize> { None };
    let sources = SpanSources { labels: &labels, at_ref: &none, at_token: &none, tabs: false };
    let layout = InputLayout {
        char_pos: &char_pos,
        map_cursor: &map_cursor,
        wrap_and_locate_cursor: &wrap_and_locate,
        line_offsets: &offsets,
        is_command: &|text: &str| text.starts_with('/'),
    };
    layout.lay_out(prompt, &sources, usable)
}

fn typed(text: &str) -> TypedPrompt<'_> {
    TypedPrompt {
        text,
        cursor_char: 0,
        selection: None,
        cursor_place: 0,
        drawn_cursor_place: Some(0),
        scroll_top: 0,
        pending_recenter: false,
    }
}

#[test]
fn typed_text_is_displayed_wrapped_and_pointed_at() {
    let text = format!("ab{ATTACHMENT_MARKER}cd");
    let prompt = TypedPrompt {
        cursor_char: 4,
        selection: Some(Selection { start: 1, end: text.len() }),
        scroll_top: 2,
        pending_recenter: true,
        ..typed(&text)
    };
    let state = laid_out(&prompt, vec!["[file]".into()], 5);
    assert_eq!(state.text, text);
    let rows: Vec<&str> = state.lines.iter().map(|line| line.text.as_str()).collect();
    assert_eq!(rows, vec!["ab[fi", "le]cd"]);
    assert_eq!(state.lines[0].kinds[1], SpanKind::Plain);
    assert_eq!(state.lines[0].kinds[2], SpanKind::Attachment);
    assert_eq!(state.line_offsets, vec![0, 5]);
    assert_eq!((state.cursor_line, state.cursor_char_in_line), (1, 4));
    assert_eq!(state.selection, Some(Selection { start: 1, end: 10 }));
    assert_eq!((state.scroll_top, state.pending_recenter), (2, true));
    assert!(!state.cursor_moved && !state.looks_like_command);
    assert!(columns_fit(&state));

    let moved = TypedPrompt { drawn_cursor_place: None, ..typed("x") };
    assert!(laid_out(&moved, Vec::new(), 5).cursor_moved);
    assert!(laid_out(&TypedPrompt { cursor_place: 3, ..typed("x") }, Vec::new(), 5).cursor_moved);
    assert!(laid_out(&typed("  /help \t"), Vec::new(), 20).looks_like_command);
    assert!(!laid_out(&typed("/help\nme"), Vec::new(), 20).looks_like_command);
}

#[test]
fn typed_text_is_drawn_in_the_prompt() {
    let queued = Vec::new();
    let bar = no_bar();
    let prompt = TypedPrompt { cursor_char: 7, drawn_cursor_place: None, ..typed("abcdefgh") };
    let state = laid_out(&prompt, Vec::new(), 5);
    let output = compute_prompt(
        &PromptInput {
            queued: &queued,
            stashed: false,
            state: &state,
            prediction: None,
            width: 7,
            height: 10,
            has_prompt_cursor: true,
            bar_info: &bar,
        },
        &colors(),
    );
    assert_eq!(output.area.lines, vec![" abcde", " fgh"]);
    let cursor = output.area.cursor_pos.unwrap();
    assert_eq!((cursor.row, cursor.col), (1, 3));
    let too_long = laid_out(&typed(&"x".repeat(65534)), Vec::new(), 70000);
    assert!(!columns_fit(&too_long));
    let long = laid_out(&typed(&"x".repeat(65533)), Vec::new(), 70000);
    assert!(columns_fit(&long));
}
