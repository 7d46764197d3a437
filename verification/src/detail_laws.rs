//! What holds of the details that rows depend on: runs of markers, labels, characters and sizes.
use vstd::prelude::*;
use crate::chars::is_control_code;
use crate::code_block::language_extension;
use crate::hbox_scratch::{all_rows, all_text_bytes, is_small, BufferSize};
use crate::inline_markers::run_end;
use crate::leaf_edges::{edge_mode, ContentFacts, MAX_BOUNDED_MARKDOWN_PARSE_BYTES};
use crate::markdown_retained::ByteRange;
use crate::markdown_spans::{shifted_node, MarkdownNodeView};
use crate::prompt_buffer::{first_virt_text, ExtmarkPayload};
use crate::prompt_spans::{safe_char, safe_text};
use crate::prompt_style::{CellStyle, PromptColors};
use crate::temp_rows::{overlaid, StyleOverlay};
use crate::view_state::{elides, view_rows, ViewState};

verus! {

/// A run of markers goes on up to the first other character, or to the end.
pub proof fn run_of_markers_goes_on_to_its_end(chars: Seq<char>, i: int, end: int, marker: char)
    requires
        0 <= i <= end <= chars.len(),
    ensures
        ({
            let stop = run_end(chars, i, end, marker);
            &&& i <= stop <= end
            &&& forall|k: int| i <= k < stop ==> #[trigger] chars[k] == marker
            &&& stop < end ==> chars[stop] != marker
        }),
    decreases end - i,
{
    if i < end && chars[i] == marker {
        run_of_markers_goes_on_to_its_end(chars, i + 1, end, marker);
    }
}

/// A part of the buffers that are small enough to be kept is so, too; what is not is refused
/// with more buffers beside it.
pub proof fn small_buffers_are_small_in_part(a: Seq<BufferSize>, b: Seq<BufferSize>)
    ensures
        all_rows(a + b) == all_rows(a) + all_rows(b),
        all_text_bytes(a + b) == all_text_bytes(a) + all_text_bytes(b),
        is_small(a + b) ==> is_small(a) && is_small(b),
    decreases b.len(),
{
    lemma_sums_are_counts(a);
    lemma_sums_are_counts(b);
    if b.len() == 0 {
        assert(a + b =~= a);
    } else {
        small_buffers_are_small_in_part(a, b.drop_last());
        assert((a + b).drop_last() =~= a + b.drop_last());
    }
}

proof fn lemma_sums_are_counts(sizes: Seq<BufferSize>)
    ensures
        all_rows(sizes) >= 0,
        all_text_bytes(sizes) >= 0,
    decreases sizes.len(),
{
    if sizes.len() > 0 {
        lemma_sums_are_counts(sizes.drop_last());
    }
}

/// Every buffer of a set that is kept is within the bounds by itself.
pub proof fn kept_buffers_are_within_bounds(sizes: Seq<BufferSize>, i: int)
    requires
        is_small(sizes),
        0 <= i < sizes.len(),
    ensures
        sizes[i].rows <= 256,
        sizes[i].text_bytes <= 262144,
{
    let one = seq![sizes[i]];
    let front = sizes.take(i);
    let back = sizes.skip(i + 1);
    assert(sizes =~= front + (one + back));
    small_buffers_are_small_in_part(front, one + back);
    small_buffers_are_small_in_part(one, back);
    let none = Seq::<BufferSize>::empty();
    assert(one.drop_last() =~= none);
    assert(all_rows(none) == 0);
    assert(all_text_bytes(none) == 0);
    assert(all_rows(one) == sizes[i].rows);
    assert(all_text_bytes(one) == sizes[i].text_bytes);
}

/// A state hides rows if and only if it shows a note on rows that are hidden.
pub proof fn state_that_hides_rows_tells_so(state: ViewState, total: int)
    requires
        total >= 0,
    ensures
        elides(state, total) <==> exists|i: int|
            0 <= i < view_rows(state, total).len() && (#[trigger] view_rows(state, total)[i])
                is Ellipsis,
{
    let rows = view_rows(state, total);
    if elides(state, total) {
        match state {
            ViewState::TrimmedTail { .. } => {
                assert(rows[0] is Ellipsis);
            },
            _ => {
                assert(rows[rows.len() - 1] is Ellipsis);
            },
        }
    }
}

/// No two states go by one label, but for how many rows they keep.
pub proof fn labels_tell_the_states_apart(a: ViewState, b: ViewState)
    requires
        a.spec_label() == b.spec_label(),
    ensures
        a is Expanded <==> b is Expanded,
        a is Peek <==> b is Peek,
        a is Collapsed <==> b is Collapsed,
        a is TrimmedHead <==> b is TrimmedHead,
        a is TrimmedTail <==> b is TrimmedTail,
{
    reveal_strlit("expanded");
    reveal_strlit("peek");
    reveal_strlit("collapsed");
    reveal_strlit("trimmed_head");
    reveal_strlit("trimmed_tail");
    assert("expanded"@[0] == 'e');
    assert("peek"@[0] == 'p');
    assert("collapsed"@[0] == 'c');
    assert("trimmed_head"@[8] == 'h');
    assert("trimmed_head"@[0] == 't');
    assert("trimmed_tail"@[8] == 't');
    assert("trimmed_tail"@[0] == 't');
}

/// The cursor is drawn in two colours that differ, the one for the other where the theme is
/// light.
pub proof fn cursor_can_be_seen(light: PromptColors, dark: PromptColors)
    requires
        light.is_light,
        !dark.is_light,
    ensures
        light.cursor_cell().fg is Some,
        light.cursor_cell().bg is Some,
        light.cursor_cell().fg != light.cursor_cell().bg,
        light.cursor_cell().fg == dark.cursor_cell().bg,
        light.cursor_cell().bg == dark.cursor_cell().fg,
        !light.cursor_cell().dim && !dark.cursor_cell().dim,
{
}

/// A displayed text has as many characters as the text, none of them a control code but the
/// line feed, and those that are none are kept.
pub proof fn control_codes_are_not_displayed(text: Seq<char>)
    ensures
        safe_text(text).len() == text.len(),
        safe_text(safe_text(text)) == safe_text(text),
        forall|i: int|
            0 <= i < text.len() ==> {
                let c = #[trigger] safe_text(text)[i];
                &&& c == '\n' || !is_control_code(c)
                &&& c == '\n' <==> text[i] == '\n'
                &&& !is_control_code(text[i]) ==> c == text[i]
            },
{
    let safe = safe_text(text);
    assert forall|i: int| 0 <= i < text.len() implies {
        let c = #[trigger] safe[i];
        &&& c == '\n' || !is_control_code(c)
        &&& c == '\n' <==> text[i] == '\n'
        &&& !is_control_code(text[i]) ==> c == text[i]
    } by {
        assert(safe[i] == safe_char(text[i]));
    }
    assert(safe_text(safe) =~= safe);
}

/// The range that a node stands for.
pub open spec fn node_range(node: MarkdownNodeView) -> ByteRange {
    match node {
        MarkdownNodeView::Source { range } => range,
        MarkdownNodeView::Rule { range } => range,
        MarkdownNodeView::Text { range, .. } => range,
        MarkdownNodeView::Code { range, .. } => range,
        MarkdownNodeView::Table { range, .. } => range,
    }
}

/// A node that stands further on is as long as it was, with all that is in it as far from its
/// start as before.
pub proof fn shifted_node_keeps_its_shape(node: MarkdownNodeView, offset: usize)
    requires
        node_range(node).end + offset <= usize::MAX,
        node_range(node).start <= node_range(node).end,
    ensures
        ({
            let shifted = shifted_node(node, offset);
            let base = node_range(shifted).start - node_range(node).start;
            &&& base == offset
            &&& node_range(shifted).end - node_range(node).end == offset
            &&& match (node, shifted) {
                (
                    MarkdownNodeView::Text { lines, kind, range },
                    MarkdownNodeView::Text { lines: moved, kind: same, .. },
                ) => {
                    &&& kind == same
                    &&& moved.len() == lines.len()
                    &&& forall|i: int|
                        0 <= i < lines.len() && lines[i].source.start <= lines[i].source.end
                            <= range.end ==> {
                            &&& (#[trigger] moved[i]).source.start - lines[i].source.start == offset
                            &&& moved[i].source.end - lines[i].source.end == offset
                            &&& moved[i].spans == lines[i].spans
                        }
                },
                (
                    MarkdownNodeView::Code { body, lang, range },
                    MarkdownNodeView::Code { body: moved, lang: same, .. },
                ) => {
                    &&& lang == same
                    &&& moved.len() == body.len()
                    &&& forall|i: int|
                        0 <= i < body.len() && body[i].start <= body[i].end <= range.end ==> {
                            &&& (#[trigger] moved[i]).start - body[i].start == offset
                            &&& moved[i].end - body[i].end == offset
                        }
                },
                (
                    MarkdownNodeView::Table { alignments, rows, .. },
                    MarkdownNodeView::Table { alignments: same, rows: texts, .. },
                ) => alignments == same && rows == texts,
                (MarkdownNodeView::Source { .. }, MarkdownNodeView::Source { .. }) => true,
                (MarkdownNodeView::Rule { .. }, MarkdownNodeView::Rule { .. }) => true,
                _ => false,
            }
        }),
{
}

/// What is laid over a style makes it dimmer or more italic, never less, and leaves its colours
/// and its weight; in which order two are laid over it does not matter.
pub proof fn overlay_only_adds(
    base: Option<CellStyle>,
    a: StyleOverlay,
    b: StyleOverlay,
)
    ensures
        a.dim ==> overlaid(base, a).dim,
        a.italic ==> overlaid(base, a).italic,
        overlaid(Some(overlaid(base, a)), b) == overlaid(Some(overlaid(base, b)), a),
        overlaid(Some(overlaid(base, a)), a) == overlaid(base, a),
        base matches Some(style) ==> {
            &&& overlaid(base, a).fg == style.fg
            &&& overlaid(base, a).bg == style.bg
            &&& overlaid(base, a).bold == style.bold
            &&& overlaid(base, a).dim ==> style.dim || a.dim
            &&& overlaid(base, a).italic ==> style.italic || a.italic
            &&& style.dim ==> overlaid(base, a).dim
            &&& style.italic ==> overlaid(base, a).italic
        },
{
}

/// The edge of retained markdown is left out only where there is too much of it to be parsed and
/// it is not plain letters; what is small is parsed, but for a single plain line.
pub proof fn only_large_edges_are_left_out(facts: ContentFacts, inline: bool)
    ensures
        facts.len == 0 ==> edge_mode(facts, inline) is Parsed,
        inline && facts.len <= MAX_BOUNDED_MARKDOWN_PARSE_BYTES ==> edge_mode(facts, inline)
            is Parsed,
        inline && facts.len > MAX_BOUNDED_MARKDOWN_PARSE_BYTES ==> !(edge_mode(facts, inline)
            is Parsed),
        facts.large_lines_ascii && facts.first_line_ascii ==> !(edge_mode(facts, inline)
            is Omitted),
        !inline && facts.len > 0 && facts.logical_lines == 1 && facts.first_line_plain ==> !(
        edge_mode(facts, inline) is Parsed),
        !inline && !facts.first_line_plain ==> (edge_mode(facts, inline) is Parsed <==> (facts.len
            == 0 || !facts.large_markdown)),
        edge_mode(facts, inline) is Omitted && inline ==> facts.len
            > MAX_BOUNDED_MARKDOWN_PARSE_BYTES,
{
}

/// The first mark with a text gives it, and there is none only where no mark has one.
pub proof fn first_text_among_marks_is_found(marks: Seq<ExtmarkPayload>, i: int)
    requires
        0 <= i <= marks.len(),
    ensures
        first_virt_text(marks, i) is None <==> (forall|k: int|
            i <= k < marks.len() ==> (#[trigger] marks[k]) is Other),
        first_virt_text(marks, i) matches Some(text) ==> exists|k: int|
            #![trigger marks[k]]
            {
                &&& i <= k < marks.len()
                &&& (marks[k] matches ExtmarkPayload::VirtText(own) && own@ == text)
                &&& forall|j: int| i <= j < k ==> (#[trigger] marks[j]) is Other
            },
    decreases marks.len() - i,
{
    if i < marks.len() {
        match marks[i] {
            ExtmarkPayload::VirtText(text) => {
                assert(!(marks[i] is Other));
            },
            ExtmarkPayload::Other => {
                first_text_among_marks_is_found(marks, i + 1);
            },
        }
    }
}

/// The extension of a language is its own extension, so that a file is coloured as a block of its
/// extension is.
pub proof fn extensions_stand_for_themselves(lang: Seq<char>)
    ensures
        language_extension(language_extension(lang)) == language_extension(lang),
        language_extension(lang).len() > 0,
{
    reveal_strlit("");
    reveal_strlit("txt");
    reveal_strlit("js");
    reveal_strlit("javascript");
    reveal_strlit("ts");
    reveal_strlit("typescript");
    reveal_strlit("py");
    reveal_strlit("python");
    reveal_strlit("rb");
    reveal_strlit("ruby");
    reveal_strlit("rs");
    reveal_strlit("rust");
    reveal_strlit("sh");
    reveal_strlit("bash");
    reveal_strlit("zsh");
    reveal_strlit("shell");
    reveal_strlit("yml");
    reveal_strlit("yaml");
    assert("txt"@[0] == 't' && "zsh"@[0] == 'z' && "yml"@[0] == 'y');
    assert("js"@[0] == 'j' && "ts"@[0] == 't' && "py"@[0] == 'p' && "rb"@[0] == 'r');
    assert("rb"@[1] == 'b' && "rs"@[1] == 's' && "sh"@[0] == 's');
    assert("yaml"@[0] == 'y' && "ruby"@[0] == 'r' && "rust"@[0] == 'r' && "bash"@[0] == 'b');
    if lang.len() == 0 {
        assert(lang =~= ""@);
    }
}

} // verus!
