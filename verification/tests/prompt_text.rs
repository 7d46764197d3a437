use smelt_content::prompt_buffer::{
    placeholder_text, set_placeholder_extmark, ExtmarkPayload, HighlightGroup, ParsedPrompt,
    PromptBufferParser, PromptCopier,
};
use smelt_content::prompt_parser::prompt_display_uses_cursor_padding;
use smelt_content::prompt_spans::{
    display_safe_plain_text, spans_to_string, Span, SpanSources, ATTACHMENT_MARKER,
};
use smelt_content::prompt_style::SpanKind;
use smelt_content::prompt_wrap::PromptWrap;

fn no_reference(_: &Vec<char>, _: usize) -> Option<usize> {
    None
}

/// Rows of at most `usable` characters, broken behind spaces where there are any.
fn wrap(text: &str, _: &Vec<SpanKind>, usable: usize) -> Vec<String> {
    let mut rows = Vec::new();
    for line in text.split('\n') {
        let mut rest: Vec<char> = line.chars().collect();
        while rest.len() > usable {
            let end = rest[..usable]
                .iter()
                .rposition(|c| *c == ' ')
                .map(|space| space + 1)
                .unwrap_or(usable);
            rows.push(rest[..end].iter().collect());
            rest = rest[end..].to_vec();
        }
        rows.push(rest.iter().collect());
    }
    rows
}

fn wrapped(text: &str, usable: usize) -> PromptWrap {
    let labels = Vec::new();
    let sources = SpanSources {
        labels: &labels,
        at_ref: &no_reference,
        at_token: &no_reference,
        tabs: false,
    };
    PromptWrap::build(&sources, text, usable, &wrap)
}

fn char_width(c: char) -> u16 {
    unicode_width::UnicodeWidthStr::width(c.to_string().as_str()) as u16
}

fn line_cells(line: &str) -> usize {
    unicode_width::UnicodeWidthStr::width(line)
}

fn parse_with(
    parser: &PromptBufferParser,
    source: &str,
    labels: Vec<String>,
    command_token_end: usize,
) -> ParsedPrompt {
    let sources = SpanSources {
        labels: &labels,
        at_ref: &no_reference,
        at_token: &no_reference,
        tabs: true,
    };
    parser.parse(source, &sources, command_token_end, &char_width, &line_cells)
}

fn parse(source: &str, labels: Vec<String>) -> ParsedPrompt {
    parse_with(&PromptBufferParser::new(), source, labels, 0)
}

/// The row and the column of a byte of the source.
fn display_cursor_pos(parsed: &ParsedPrompt, source: &str, byte: usize) -> (usize, usize) {
    let at = source[..byte].chars().count();
    let shown = parsed.maps.source_char_to_display_char[at];
    let row = parsed.maps.row_offsets.iter().rposition(|start| *start <= shown).unwrap();
    (row, shown - parsed.maps.row_offsets[row])
}

/// The byte of the source at a place of the display.
fn byte_at_display_pos(parsed: &ParsedPrompt, source: &str, row: usize, col: usize) -> usize {
    let places = &parsed.maps.display_char_to_source_char;
    let shown = (parsed.maps.row_offsets[row] + col).min(places.len() - 1);
    source.chars().take(places[shown]).map(|c| c.len_utf8()).sum()
}

#[test]
fn translates_plain_buffer_identity() {
    let w = wrapped("hello world", 80);
    assert_eq!(w.rows, vec!["hello world".to_string()]);
    assert_eq!(w.src_to_wrapped(0), 0);
    assert_eq!(w.src_to_wrapped(5), 5);
    assert_eq!(w.src_to_wrapped(11), 11);
    assert_eq!(w.wrapped_to_src(0), 0);
    assert_eq!(w.wrapped_to_src(11), 11);
}

#[test]
fn translates_hard_break() {
    let w = wrapped("abc\ndef", 80);
    assert_eq!(w.rows, vec!["abc".to_string(), "def".to_string()]);
    assert_eq!(w.joined, "abc\ndef");
    assert_eq!(w.hard_breaks, vec![3]);
    assert!(w.soft_breaks.is_empty());
    assert_eq!(w.src_to_wrapped(4), 4);
    assert_eq!(w.wrapped_to_src(4), 4);
}

#[test]
fn translates_soft_break() {
    let w = wrapped("hello world foo", 8);
    assert!(!w.soft_breaks.is_empty());
    assert!(w.hard_breaks.is_empty());
    let wrapped_w = w.src_to_wrapped(6);
    assert_eq!(w.wrapped_to_src(wrapped_w), 6);
}

#[test]
fn every_place_survives_wrapping() {
    let text = "hello world foo\nbär baz quux";
    let w = wrapped(text, 6);
    for (byte, _) in text.char_indices() {
        assert_eq!(w.wrapped_to_src(w.src_to_wrapped(byte)), byte);
    }
    assert_eq!(w.src_to_wrapped(text.len() + 5), w.joined.len());
    assert_eq!(w.wrapped_to_src(w.joined.len() + 5), text.len());
    assert_eq!(w.joined, "hello \nworld \nfoo\nbär \nbaz \nquux");
    assert_eq!(w.hard_breaks, vec![17]);
}

#[test]
fn plain_bytes_lead_back_from_the_rows() {
    let text = "äb cd\nefg hij";
    let w = wrapped(text, 4);
    for byte in 0..=text.len() {
        assert_eq!(w.wrapped_to_src(w.src_to_wrapped(byte)), byte);
    }
    for past in [1, 7, usize::MAX - text.len()] {
        assert_eq!(w.wrapped_to_src(w.src_to_wrapped(text.len() + past)), text.len());
    }
    for place in [w.joined.len(), w.joined.len() + 1, usize::MAX] {
        assert_eq!(w.wrapped_to_src(place), text.len());
    }
}

#[test]
fn display_spans_sanitize_plain_controls_but_keep_newlines() {
    let labels = Vec::new();
    let sources = SpanSources {
        labels: &labels,
        at_ref: &no_reference,
        at_token: &no_reference,
        tabs: false,
    };
    let spans = sources.build_display_spans("a\0\tb\nc");
    assert_eq!(spans_to_string(&spans), "a\u{FFFD}\u{FFFD}b\nc");
    assert_eq!(display_safe_plain_text("a\0b\n"), "a\u{FFFD}b\n");
}

#[test]
fn missing_attachments_have_a_label_of_their_own() {
    let labels = vec!["[a.png]".to_string()];
    let sources = SpanSources {
        labels: &labels,
        at_ref: &no_reference,
        at_token: &no_reference,
        tabs: true,
    };
    let spans = sources.build_display_spans(&format!("{ATTACHMENT_MARKER}\t{ATTACHMENT_MARKER}"));
    assert_eq!(spans_to_string(&spans), "[a.png]    [?]");
    assert!(matches!(spans[1], Span::Tab));
}

#[test]
fn parser_keeps_prompt_lines_unwrapped() {
    let parsed = parse(&"a".repeat(79), Vec::new());
    assert_eq!(parsed.lines.len(), 1);
    assert_eq!(parsed.lines[0].chars().count(), 79);
}

#[test]
fn parser_splits_source_newlines_only() {
    let parsed = parse("hello world\nsecond", Vec::new());
    assert_eq!(parsed.lines.len(), 2);
    assert_eq!(parsed.lines[0], "hello world");
    assert_eq!(parsed.lines[1], "second");
}

#[test]
fn parser_expands_tabs_for_display_without_changing_source_mapping() {
    let parsed = parse("a\tb", Vec::new());
    assert_eq!(parsed.lines[0], "a    b");
    assert_eq!(display_cursor_pos(&parsed, "a\tb", 2), (0, 5));
    assert_eq!(byte_at_display_pos(&parsed, "a\tb", 0, 5), 2);
}

#[test]
fn parser_renders_empty_prompt_placeholder_as_ghost_display() {
    let parser = PromptBufferParser::with_placeholder(Some("ghost prediction wraps".to_string()));
    let parsed = parse_with(&parser, "", Vec::new(), 0);
    assert_eq!(parsed.lines[0], "ghost prediction wraps");
    assert_eq!(byte_at_display_pos(&parsed, "", 0, 10), 0);
    assert!(parsed.highlights.iter().any(|span| span.row == 0 && !span.selectable));
    assert!(parsed.preserve_cursor);
    assert!(!prompt_display_uses_cursor_padding("", Some("ghost")));
}

#[test]
fn parser_clears_stale_placeholder_when_placeholder_disappears() {
    let shown = PromptBufferParser::with_placeholder(Some("ghost".to_string()));
    assert_eq!(parse_with(&shown, "", Vec::new(), 0).lines[0], "ghost");
    let parsed = parse_with(&PromptBufferParser::with_placeholder(None), "", Vec::new(), 0);
    assert_eq!(parsed.lines.len(), 1);
    assert!(parsed.lines[0].is_empty());
    assert_eq!(byte_at_display_pos(&parsed, "", 0, 10), 0);
}

#[test]
fn parser_ignores_placeholder_when_source_is_nonempty() {
    let parser = PromptBufferParser::with_placeholder(Some("ghost".to_string()));
    let parsed = parse_with(&parser, "real", Vec::new(), 0);
    assert_eq!(parsed.lines[0], "real");
    assert!(parsed.highlights.iter().all(|span| span.selectable));
    assert!(prompt_display_uses_cursor_padding("real", Some("ghost")));
}

#[test]
fn parser_highlights_multiline_command_token_only() {
    let source = "/simplify first line\nsecond line";
    let parsed = parse_with(&PromptBufferParser::new(), source, Vec::new(), "/simplify".len());
    let rows = |row: usize| parsed.highlights.iter().filter(move |h| h.row == row);
    assert!(rows(0).any(|h| h.start == 0 && h.end == 1));
    assert!(rows(0).all(|h| h.end <= 9));
    assert_eq!(rows(1).count(), 0);
    assert!(rows(0).all(|h| h.group == HighlightGroup::Accent));
}

#[test]
fn parser_maps_cursor_past_attachment() {
    let source = format!("a{ATTACHMENT_MARKER}b");
    let parsed = parse(&source, vec!["[img.png]".to_string()]);
    let marker_len = ATTACHMENT_MARKER.len_utf8();
    let b_byte = 1 + marker_len;
    assert_eq!(display_cursor_pos(&parsed, &source, b_byte), (0, 10));
    assert_eq!(byte_at_display_pos(&parsed, &source, 0, 10), b_byte);
}

#[test]
fn parser_highlight_attachment() {
    let source = format!("hello {ATTACHMENT_MARKER}");
    let parsed = parse(&source, vec!["[img.png]".to_string()]);
    assert!(parsed.highlights.iter().any(|h| h.row == 0 && h.start == 6 && h.end == 7));
    assert!(parsed.highlights.iter().any(|h| h.row == 0 && h.start == 14 && h.end == 15));
}

#[test]
fn parser_marks_the_bang_of_a_shell_command() {
    let parsed = parse("!ls", Vec::new());
    assert_eq!(parsed.highlights.len(), 1);
    assert_eq!(parsed.highlights[0].group, HighlightGroup::ExecPrefix);
    assert_eq!((parsed.highlights[0].start, parsed.highlights[0].end), (0, 1));
}

#[test]
fn prompt_copier_passes_through_plain_text() {
    let copier = PromptCopier::new(Vec::new());
    let out = copier.copy("hello world", 0, 5);
    assert_eq!(out.kill_ring, "hello");
    assert_eq!(out.clipboard, "hello");
}

#[test]
fn prompt_copier_expands_attachment_marker_in_clipboard() {
    let copier = PromptCopier::new(vec!["[photo.png]".to_string()]);
    let source = format!("a{ATTACHMENT_MARKER}b");
    let out = copier.copy(&source, 0, source.len());
    assert_eq!(out.kill_ring, source);
    assert_eq!(out.clipboard, "a[photo.png]b");
}

#[test]
fn prompt_copier_range_inside_attachment_marker_only() {
    let copier = PromptCopier::new(vec!["[img.png]".to_string()]);
    let source = format!("xy{ATTACHMENT_MARKER}z");
    let marker_start = 2;
    let marker_end = marker_start + ATTACHMENT_MARKER.len_utf8();
    let out = copier.copy(&source, marker_start, marker_end);
    assert_eq!(out.kill_ring, ATTACHMENT_MARKER.to_string());
    assert_eq!(out.clipboard, "[img.png]");
}

#[test]
fn placeholder_marks_hold_one_text() {
    let mut marks = vec![ExtmarkPayload::Other, ExtmarkPayload::VirtText("old".to_string())];
    assert_eq!(placeholder_text(&marks), Some("old".to_string()));
    set_placeholder_extmark(&mut marks, Some("new".to_string()));
    assert_eq!(marks.len(), 1);
    assert_eq!(placeholder_text(&marks), Some("new".to_string()));
    set_placeholder_extmark(&mut marks, Some(String::new()));
    assert_eq!(placeholder_text(&marks), None);
}

#[test]
fn longer_stand_in_for_a_control_leaves_the_ends_in_place() {
    let wrap = wrapped("\u{85}", 10);
    assert_eq!(wrap.rows, vec!["\u{FFFD}"]);
    assert_eq!(wrap.src_to_wrapped(0), 0);
    assert_eq!(wrap.src_to_wrapped(1), 1);
    assert_eq!(wrap.src_to_wrapped(2), 3);
    assert_eq!(wrap.wrapped_to_src(2), 2);
    assert_eq!(wrap.wrapped_to_src(3), 2);
}
