//! Retained contents: how many rows they take, and what their first or last rows are without
//! looking at all of them.
use vstd::prelude::*;
use crate::cap_rows::CapDirection;
use crate::ir::{ContentRenderSpec, ContentTextWindow, GutterSpec, RetainedContentSpec};
use crate::line_ops::{
    add_gutter, add_op, add_op_if, gutter_steps, lemma_behind, op_if, steps, LineOp, LineStep,
};
use crate::numbers::{counted_noun, decimal, decimal_text, pluralize};

verus! {

/// Bytes of markdown that are parsed at once to find an edge.
pub const MAX_BOUNDED_MARKDOWN_PARSE_BYTES: usize = 65536;

/// What is known of a retained content without laying it out.
#[derive(Clone, Copy, Debug, PartialEq, Eq, Structural)]
pub struct ContentFacts {
    /// Bytes of the content.
    pub len: usize,
    pub logical_lines: usize,
    /// Whether its first line reads as plain text.
    pub first_line_plain: bool,
    /// Bytes of its first line, where it has one.
    pub first_line_len: Option<usize>,
    /// Whether every character of its first line takes one cell.
    pub first_line_ascii: bool,
    /// Whether every character of its large lines takes one cell.
    pub large_lines_ascii: bool,
    /// Whether some part that is parsed at once is larger than can be bounded.
    pub large_markdown: bool,
}

/// How an edge of retained markdown is found: by parsing, by its text as it is, or not at
/// all.
#[derive(Clone, Copy, Debug, PartialEq, Eq, Structural)]
pub enum RetainedMarkdownEdgeMode {
    Parsed,
    Literal,
    Omitted,
}

/// Whether a content is one line that reads as plain text.
pub open spec fn is_plain_line(facts: ContentFacts) -> bool {
    facts.logical_lines == 1 && facts.first_line_plain && facts.len > 0
}

/// How an edge of retained markdown is found. What is too large to be parsed is taken as it
/// is, where its rows can be counted by its bytes, and else left out.
pub open spec fn edge_mode(facts: ContentFacts, inline: bool) -> RetainedMarkdownEdgeMode {
    let by_text = if facts.large_lines_ascii {
        RetainedMarkdownEdgeMode::Literal
    } else {
        RetainedMarkdownEdgeMode::Omitted
    };
    if facts.len == 0 {
        RetainedMarkdownEdgeMode::Parsed
    } else if inline {
        if facts.len <= MAX_BOUNDED_MARKDOWN_PARSE_BYTES {
            RetainedMarkdownEdgeMode::Parsed
        } else {
            by_text
        }
    } else if facts.logical_lines == 1 && facts.first_line_plain {
        let small = match facts.first_line_len {
            Some(len) => len <= MAX_BOUNDED_MARKDOWN_PARSE_BYTES,
            None => true,
        };
        if small || facts.first_line_ascii {
            RetainedMarkdownEdgeMode::Literal
        } else {
            RetainedMarkdownEdgeMode::Omitted
        }
    } else if !facts.large_markdown {
        RetainedMarkdownEdgeMode::Parsed
    } else {
        by_text
    }
}

/// How an edge of retained markdown is found.
pub fn retained_markdown_edge_mode(facts: ContentFacts, inline: bool) -> (mode:
    RetainedMarkdownEdgeMode)
    ensures
        mode == edge_mode(facts, inline),
{
    if facts.len == 0 {
        return RetainedMarkdownEdgeMode::Parsed;
    }
    if inline {
        return if facts.len <= MAX_BOUNDED_MARKDOWN_PARSE_BYTES {
            RetainedMarkdownEdgeMode::Parsed
        } else if facts.large_lines_ascii {
            RetainedMarkdownEdgeMode::Literal
        } else {
            RetainedMarkdownEdgeMode::Omitted
        };
    }
    if facts.logical_lines == 1 && facts.first_line_plain {
        let small = match facts.first_line_len {
            Some(len) => len <= MAX_BOUNDED_MARKDOWN_PARSE_BYTES,
            None => true,
        };
        return if small || facts.first_line_ascii {
            RetainedMarkdownEdgeMode::Literal
        } else {
            RetainedMarkdownEdgeMode::Omitted
        };
    }
    if !facts.large_markdown {
        RetainedMarkdownEdgeMode::Parsed
    } else if facts.large_lines_ascii {
        RetainedMarkdownEdgeMode::Literal
    } else {
        RetainedMarkdownEdgeMode::Omitted
    }
}

/// The answers of a [`ContentRuler`] as mathematical functions.
pub struct ContentMetrics {
    pub facts: spec_fn(u64) -> ContentFacts,
    /// Rows of a content as text at a width, with or without escape codes.
    pub text_rows: spec_fn(u64, u16, bool) -> usize,
    /// Its first rows, at most so many.
    pub text_head: spec_fn(u64, u16, bool, usize) -> ContentTextWindow,
    /// Rows of a content as inline markdown, dim or italic.
    pub inline_rows: spec_fn(u64, bool, bool, u16) -> usize,
    /// Rows of a content as markdown, dim or not.
    pub markdown_rows: spec_fn(u64, bool, u16) -> usize,
    pub markdown_edge: spec_fn(u64, bool, u16, usize) -> ContentTextWindow,
    /// Rows of a content as code.
    pub code_rows: spec_fn(u64, u16) -> usize,
    pub code_edge: spec_fn(u64, u16, usize) -> ContentTextWindow,
    /// Rows of a content as a file, at a width of which so many cells are a gutter.
    pub file_rows: spec_fn(u64, u16, u16) -> usize,
    pub file_edge: spec_fn(u64, u16, usize) -> ContentTextWindow,
}

/// What retained contents are measured with.
pub struct ContentRuler<'a, A, B, C, D, E, F, G, H, I, J> {
    pub facts: &'a A,
    pub text_rows: &'a B,
    pub text_head: &'a C,
    pub inline_rows: &'a D,
    pub markdown_rows: &'a E,
    pub markdown_edge: &'a F,
    pub code_rows: &'a G,
    pub code_edge: &'a H,
    pub file_rows: &'a I,
    pub file_edge: &'a J,
}

/// The rows of an edge of a content of so many rows.
pub open spec fn window_of(total: usize, max_rows: usize) -> ContentTextWindow {
    ContentTextWindow {
        row_count: if total < max_rows {
            total
        } else {
            max_rows
        },
        truncated: total > max_rows,
    }
}

/// The edge of a content that is left out: one row that says so.
pub open spec fn omitted_window(max_rows: usize) -> ContentTextWindow {
    ContentTextWindow {
        row_count: if max_rows < 1 {
            max_rows
        } else {
            1
        },
        truncated: max_rows == 0,
    }
}

/// The edge of a retained text: where it has more lines than rows are asked for, it has all
/// of these.
pub open spec fn text_edge(
    metrics: ContentMetrics,
    content: u64,
    width: u16,
    ansi: bool,
    max_rows: usize,
) -> ContentTextWindow {
    if max_rows != 0 && (metrics.facts)(content).logical_lines > max_rows {
        ContentTextWindow { row_count: max_rows, truncated: true }
    } else {
        (metrics.text_head)(content, width, ansi, max_rows)
    }
}

/// The edge of retained markdown.
pub open spec fn markdown_edge(
    metrics: ContentMetrics,
    content: u64,
    dim: bool,
    italic: bool,
    inline: bool,
    width: u16,
    max_rows: usize,
) -> ContentTextWindow {
    match edge_mode((metrics.facts)(content), inline) {
        RetainedMarkdownEdgeMode::Literal => (metrics.text_head)(content, width, false, max_rows),
        RetainedMarkdownEdgeMode::Omitted => omitted_window(max_rows),
        RetainedMarkdownEdgeMode::Parsed => if inline {
            window_of((metrics.inline_rows)(content, dim, italic, width), max_rows)
        } else {
            (metrics.markdown_edge)(content, dim, width, max_rows)
        },
    }
}

/// The edge of a retained content.
pub open spec fn content_edge(
    metrics: ContentMetrics,
    content: RetainedContentSpec,
    width: u16,
    max_rows: usize,
) -> ContentTextWindow {
    match content.render {
        ContentRenderSpec::Text { ansi, .. } => text_edge(
            metrics,
            content.content,
            width,
            ansi,
            max_rows,
        ),
        ContentRenderSpec::Markdown { dim, italic, inline } => markdown_edge(
            metrics,
            content.content,
            dim,
            italic,
            inline,
            width,
            max_rows,
        ),
        ContentRenderSpec::Code { .. } => (metrics.code_edge)(content.content, width, max_rows),
        ContentRenderSpec::File { .. } => (metrics.file_edge)(content.content, width, max_rows),
    }
}

/// Rows of retained markdown.
pub open spec fn markdown_rows(
    metrics: ContentMetrics,
    content: u64,
    dim: bool,
    italic: bool,
    inline: bool,
    width: u16,
) -> usize {
    if inline {
        (metrics.inline_rows)(content, dim, italic, width)
    } else if is_plain_line((metrics.facts)(content)) {
        (metrics.text_rows)(content, width, false)
    } else {
        (metrics.markdown_rows)(content, dim, width)
    }
}

/// Rows of a retained content, behind a gutter of so many cells.
pub open spec fn content_rows(
    metrics: ContentMetrics,
    content: RetainedContentSpec,
    width: u16,
    gutter_cells: u16,
) -> usize {
    match content.render {
        ContentRenderSpec::Text { ansi, .. } => (metrics.text_rows)(content.content, width, ansi),
        ContentRenderSpec::Markdown { dim, italic, inline } => markdown_rows(
            metrics,
            content.content,
            dim,
            italic,
            inline,
            width,
        ),
        ContentRenderSpec::Code { .. } => (metrics.code_rows)(content.content, width),
        ContentRenderSpec::File { .. } => (metrics.file_rows)(
            content.content,
            width.saturating_add(gutter_cells),
            gutter_cells,
        ),
    }
}

impl<
    'a,
    A: Fn(u64) -> ContentFacts,
    B: Fn(u64, u16, bool) -> usize,
    C: Fn(u64, u16, bool, usize) -> ContentTextWindow,
    D: Fn(u64, bool, bool, u16) -> usize,
    E: Fn(u64, bool, u16) -> usize,
    F: Fn(u64, bool, u16, usize) -> ContentTextWindow,
    G: Fn(u64, u16) -> usize,
    H: Fn(u64, u16, usize) -> ContentTextWindow,
    I: Fn(u64, u16, u16) -> usize,
    J: Fn(u64, u16, usize) -> ContentTextWindow,
> ContentRuler<'a, A, B, C, D, E, F, G, H, I, J> {
    /// These functions as mathematical functions.
    pub open spec fn metrics(&self) -> ContentMetrics {
        ContentMetrics {
            facts: |c: u64| choose|r: ContentFacts| call_ensures(*self.facts, (c,), r),
            text_rows: |c: u64, w: u16, ansi: bool|
                choose|r: usize| call_ensures(*self.text_rows, (c, w, ansi), r),
            text_head: |c: u64, w: u16, ansi: bool, n: usize|
                choose|r: ContentTextWindow| call_ensures(*self.text_head, (c, w, ansi, n), r),
            inline_rows: |c: u64, dim: bool, italic: bool, w: u16|
                choose|r: usize| call_ensures(*self.inline_rows, (c, dim, italic, w), r),
            markdown_rows: |c: u64, dim: bool, w: u16|
                choose|r: usize| call_ensures(*self.markdown_rows, (c, dim, w), r),
            markdown_edge: |c: u64, dim: bool, w: u16, n: usize|
                choose|r: ContentTextWindow| call_ensures(*self.markdown_edge, (c, dim, w, n), r),
            code_rows: |c: u64, w: u16|
                choose|r: usize| call_ensures(*self.code_rows, (c, w), r),
            code_edge: |c: u64, w: u16, n: usize|
                choose|r: ContentTextWindow| call_ensures(*self.code_edge, (c, w, n), r),
            file_rows: |c: u64, w: u16, g: u16|
                choose|r: usize| call_ensures(*self.file_rows, (c, w, g), r),
            file_edge: |c: u64, w: u16, n: usize|
                choose|r: ContentTextWindow| call_ensures(*self.file_edge, (c, w, n), r),
        }
    }

    /// Every question may be asked.
    pub open spec fn answers(&self) -> bool {
        &&& forall|c: u64| #[trigger] call_requires(*self.facts, (c,))
        &&& forall|c: u64, w: u16, ansi: bool| #[trigger]
            call_requires(*self.text_rows, (c, w, ansi))
        &&& forall|c: u64, w: u16, ansi: bool, n: usize| #[trigger]
            call_requires(*self.text_head, (c, w, ansi, n))
        &&& forall|c: u64, dim: bool, italic: bool, w: u16| #[trigger]
            call_requires(*self.inline_rows, (c, dim, italic, w))
        &&& forall|c: u64, dim: bool, w: u16| #[trigger]
            call_requires(*self.markdown_rows, (c, dim, w))
        &&& forall|c: u64, dim: bool, w: u16, n: usize| #[trigger]
            call_requires(*self.markdown_edge, (c, dim, w, n))
        &&& forall|c: u64, w: u16| #[trigger] call_requires(*self.code_rows, (c, w))
        &&& forall|c: u64, w: u16, n: usize| #[trigger]
            call_requires(*self.code_edge, (c, w, n))
        &&& forall|c: u64, w: u16, g: u16| #[trigger] call_requires(*self.file_rows, (c, w, g))
        &&& forall|c: u64, w: u16, n: usize| #[trigger]
            call_requires(*self.file_edge, (c, w, n))
    }

    /// Every question has one answer.
    pub open spec fn agrees(&self) -> bool {
        &&& forall|c: u64, a: ContentFacts, b: ContentFacts|
            #[trigger] call_ensures(*self.facts, (c,), a) && #[trigger] call_ensures(
                *self.facts,
                (c,),
                b,
            ) ==> a == b
        &&& forall|c: u64, w: u16, ansi: bool, a: usize, b: usize|
            #[trigger] call_ensures(*self.text_rows, (c, w, ansi), a) && #[trigger] call_ensures(
                *self.text_rows,
                (c, w, ansi),
                b,
            ) ==> a == b
        &&& forall|
            c: u64,
            w: u16,
            ansi: bool,
            n: usize,
            a: ContentTextWindow,
            b: ContentTextWindow,
        |
            #[trigger] call_ensures(*self.text_head, (c, w, ansi, n), a)
                && #[trigger] call_ensures(*self.text_head, (c, w, ansi, n), b) ==> a == b
        &&& forall|c: u64, dim: bool, italic: bool, w: u16, a: usize, b: usize|
            #[trigger] call_ensures(*self.inline_rows, (c, dim, italic, w), a)
                && #[trigger] call_ensures(*self.inline_rows, (c, dim, italic, w), b) ==> a == b
        &&& forall|c: u64, dim: bool, w: u16, a: usize, b: usize|
            #[trigger] call_ensures(*self.markdown_rows, (c, dim, w), a)
                && #[trigger] call_ensures(*self.markdown_rows, (c, dim, w), b) ==> a == b
        &&& forall|
            c: u64,
            dim: bool,
            w: u16,
            n: usize,
            a: ContentTextWindow,
            b: ContentTextWindow,
        |
            #[trigger] call_ensures(*self.markdown_edge, (c, dim, w, n), a)
                && #[trigger] call_ensures(*self.markdown_edge, (c, dim, w, n), b) ==> a == b
        &&& forall|c: u64, w: u16, a: usize, b: usize|
            #[trigger] call_ensures(*self.code_rows, (c, w), a) && #[trigger] call_ensures(
                *self.code_rows,
                (c, w),
                b,
            ) ==> a == b
        &&& forall|c: u64, w: u16, n: usize, a: ContentTextWindow, b: ContentTextWindow|
            #[trigger] call_ensures(*self.code_edge, (c, w, n), a) && #[trigger] call_ensures(
                *self.code_edge,
                (c, w, n),
                b,
            ) ==> a == b
        &&& forall|c: u64, w: u16, g: u16, a: usize, b: usize|
            #[trigger] call_ensures(*self.file_rows, (c, w, g), a) && #[trigger] call_ensures(
                *self.file_rows,
                (c, w, g),
                b,
            ) ==> a == b
        &&& forall|c: u64, w: u16, n: usize, a: ContentTextWindow, b: ContentTextWindow|
            #[trigger] call_ensures(*self.file_edge, (c, w, n), a) && #[trigger] call_ensures(
                *self.file_edge,
                (c, w, n),
                b,
            ) ==> a == b
    }

    pub open spec fn wf(&self) -> bool {
        self.answers() && self.agrees()
    }

    /// The edge of a retained text.
    pub fn measure_retained_text_edge(
        &self,
        content: u64,
        width: u16,
        ansi: bool,
        max_rows: usize,
    ) -> (window: ContentTextWindow)
        requires
            self.wf(),
        ensures
            window == text_edge(self.metrics(), content, width, ansi, max_rows),
    {
        let facts = (self.facts)(content);
        if max_rows != 0 && facts.logical_lines > max_rows {
            return ContentTextWindow { row_count: max_rows, truncated: true };
        }
        (self.text_head)(content, width, ansi, max_rows)
    }

    /// The edge of retained markdown.
    pub fn measure_retained_markdown_edge(
        &self,
        content: u64,
        dim: bool,
        italic: bool,
        inline: bool,
        width: u16,
        max_rows: usize,
    ) -> (window: ContentTextWindow)
        requires
            self.wf(),
        ensures
            window == markdown_edge(
                self.metrics(),
                content,
                dim,
                italic,
                inline,
                width,
                max_rows,
            ),
    {
        let facts = (self.facts)(content);
        match retained_markdown_edge_mode(facts, inline) {
            RetainedMarkdownEdgeMode::Literal => (self.text_head)(
                content,
                width,
                false,
                max_rows,
            ),
            RetainedMarkdownEdgeMode::Omitted => ContentTextWindow {
                row_count: if max_rows < 1 {
                    max_rows
                } else {
                    1
                },
                truncated: max_rows == 0,
            },
            RetainedMarkdownEdgeMode::Parsed => {
                if inline {
                    let total = (self.inline_rows)(content, dim, italic, width);
                    ContentTextWindow {
                        row_count: if total < max_rows {
                            total
                        } else {
                            max_rows
                        },
                        truncated: total > max_rows,
                    }
                } else {
                    (self.markdown_edge)(content, dim, width, max_rows)
                }
            },
        }
    }

    /// The edge of a retained content.
    pub fn measure_retained_content_edge(
        &self,
        content: &RetainedContentSpec,
        width: u16,
        max_rows: usize,
    ) -> (window: ContentTextWindow)
        requires
            self.wf(),
        ensures
            window == content_edge(self.metrics(), *content, width, max_rows),
    {
        match &content.render {
            ContentRenderSpec::Text { ansi, .. } => self.measure_retained_text_edge(
                content.content,
                width,
                *ansi,
                max_rows,
            ),
            ContentRenderSpec::Markdown { dim, italic, inline } => {
                self.measure_retained_markdown_edge(
                    content.content,
                    *dim,
                    *italic,
                    *inline,
                    width,
                    max_rows,
                )
            },
            ContentRenderSpec::Code { .. } => (self.code_edge)(content.content, width, max_rows),
            ContentRenderSpec::File { .. } => (self.file_edge)(content.content, width, max_rows),
        }
    }

    /// Rows of retained markdown.
    pub fn measure_retained_markdown_spec(
        &self,
        content: u64,
        dim: bool,
        italic: bool,
        inline: bool,
        width: u16,
    ) -> (rows: usize)
        requires
            self.wf(),
        ensures
            rows == markdown_rows(self.metrics(), content, dim, italic, inline, width),
    {
        if inline {
            return (self.inline_rows)(content, dim, italic, width);
        }
        let facts = (self.facts)(content);
        if facts.logical_lines == 1 && facts.first_line_plain && facts.len > 0 {
            return (self.text_rows)(content, width, false);
        }
        (self.markdown_rows)(content, dim, width)
    }

    /// Rows of a retained content, behind a gutter of so many cells.
    pub fn measure_content_spec(&self, content: &RetainedContentSpec, width: u16, gutter_cells: u16) -> (
    rows: usize)
        requires
            self.wf(),
        ensures
            rows == content_rows(self.metrics(), *content, width, gutter_cells),
    {
        match &content.render {
            ContentRenderSpec::Text { ansi, .. } => (self.text_rows)(
                content.content,
                width,
                *ansi,
            ),
            ContentRenderSpec::Markdown { dim, italic, inline } => {
                self.measure_retained_markdown_spec(content.content, *dim, *italic, *inline, width)
            },
            ContentRenderSpec::Code { .. } => (self.code_rows)(content.content, width),
            ContentRenderSpec::File { .. } => (self.file_rows)(
                content.content,
                width.saturating_add(gutter_cells),
                gutter_cells,
            ),
        }
    }
}

/// No edge has more rows than are asked for, where those that are laid out have not.
pub proof fn edges_are_bounded(
    metrics: ContentMetrics,
    content: RetainedContentSpec,
    width: u16,
    max_rows: usize,
)
    requires
        forall|c: u64, w: u16, ansi: bool, n: usize|
            (#[trigger] (metrics.text_head)(c, w, ansi, n)).row_count <= n,
        forall|c: u64, dim: bool, w: u16, n: usize|
            (#[trigger] (metrics.markdown_edge)(c, dim, w, n)).row_count <= n,
        forall|c: u64, w: u16, n: usize|
            (#[trigger] (metrics.code_edge)(c, w, n)).row_count <= n,
        forall|c: u64, w: u16, n: usize|
            (#[trigger] (metrics.file_edge)(c, w, n)).row_count <= n,
    ensures
        content_edge(metrics, content, width, max_rows).row_count <= max_rows,
{
}

/// Only what is small, or whose rows can be counted by its bytes, is looked at to find an
/// edge.
pub proof fn large_markdown_is_never_parsed(facts: ContentFacts, inline: bool)
    requires
        facts.len > MAX_BOUNDED_MARKDOWN_PARSE_BYTES,
        inline || (facts.large_markdown && !(facts.logical_lines == 1 && facts.first_line_plain)),
    ensures
        edge_mode(facts, inline) != RetainedMarkdownEdgeMode::Parsed,
{
}

/// What a cap's marker says.
pub open spec fn marker_text(
    skipped: nat,
    kept: nat,
    total: Option<u64>,
    direction: CapDirection,
) -> Seq<char> {
    match (direction, total) {
        (CapDirection::Above, Some(total)) => "… showing last "@ + decimal(kept) + " of "@
            + counted_noun(
            if total <= usize::MAX {
                total as nat
            } else {
                usize::MAX as nat
            },
            "line"@,
            "lines"@,
        ),
        (CapDirection::Above, None) => "… "@ + counted_noun(skipped, "line"@, "lines"@)
            + " above"@,
        (CapDirection::Omitted, _) => "… "@ + counted_noun(skipped, "line"@, "lines"@)
            + " omitted …"@,
        (CapDirection::Below, _) => "… "@ + counted_noun(skipped, "line"@, "lines"@) + " below"@,
    }
}

/// What a cap's marker says.
pub fn cap_marker_text(skipped: usize, kept: usize, total: Option<u64>, direction: CapDirection) -> (
text: String)
    ensures
        text@ == marker_text(skipped as nat, kept as nat, total, direction),
{
    match (direction, total) {
        (CapDirection::Above, Some(total)) => {
            let shown: usize = if total <= usize::MAX as u64 {
                total as usize
            } else {
                usize::MAX
            };
            let mut text = String::from_str("… showing last ");
            text.append(decimal_text(kept as u64).as_str());
            text.append(" of ");
            text.append(pluralize(shown, "line", "lines").as_str());
            text
        },
        (CapDirection::Above, None) => counted_marker(skipped, " above"),
        (CapDirection::Omitted, _) => counted_marker(skipped, " omitted …"),
        (CapDirection::Below, _) => counted_marker(skipped, " below"),
    }
}

fn counted_marker(skipped: usize, tail: &str) -> (text: String)
    ensures
        text@ == "… "@ + counted_noun(skipped as nat, "line"@, "lines"@) + tail@,
{
    let mut text = String::from_str("… ");
    text.append(pluralize(skipped, "line", "lines").as_str());
    text.append(tail);
    text
}

/// What a cap's marker is drawn with.
pub open spec fn cap_marker_steps(gutter: Option<&GutterSpec>, text: Seq<char>) -> Seq<LineStep> {
    gutter_steps(gutter, false) + seq![LineStep::PushDim] + gutter_steps(gutter, true) + seq![
        LineStep::Print(text),
        LineStep::PopStyle,
        LineStep::Newline,
    ]
}

/// Draws a cap's marker.
pub fn render_cap_marker(
    ops: &mut Vec<LineOp>,
    skipped: usize,
    kept: usize,
    total: Option<u64>,
    direction: CapDirection,
    gutter: Option<&GutterSpec>,
)
    ensures
        steps(final(ops)@) == steps(old(ops)@) + cap_marker_steps(
            gutter,
            marker_text(skipped as nat, kept as nat, total, direction),
        ),
{
    let ghost before = steps(ops@);
    let text = cap_marker_text(skipped, kept, total, direction);
    let ghost content = text@;
    add_gutter(ops, gutter, false);
    add_op(ops, LineOp::PushDim);
    add_gutter(ops, gutter, true);
    let ghost a = gutter_steps(gutter, false);
    let ghost b = gutter_steps(gutter, true);
    let ghost dim = seq![LineStep::PushDim];
    let ghost print = seq![LineStep::Print(content), LineStep::PopStyle, LineStep::Newline];
    let ghost opened = steps(ops@);
    add_op(ops, LineOp::Print(text));
    add_op(ops, LineOp::PopStyle);
    add_op(ops, LineOp::Newline);
    proof {
        assert(steps(ops@) =~= opened + print);
        lemma_behind(before, a, dim);
        lemma_behind(before, a + dim, b);
        lemma_behind(before, a + dim + b, print);
    }
}

/// The row that stands for markdown that is left out.
pub open spec fn omitted_steps(dim: bool, italic: bool) -> Seq<LineStep> {
    seq![LineStep::SaveStyle] + op_if(dim, LineStep::SetDim) + op_if(italic, LineStep::SetItalic)
        + seq![
        LineStep::PrintMeta { text: "[large Markdown content omitted]"@, selectable: false },
        LineStep::PopStyle,
        LineStep::Newline,
    ]
}

/// Draws the row that stands for markdown that is left out.
pub fn render_omitted_markdown(dim: bool, italic: bool) -> (ops: Vec<LineOp>)
    ensures
        steps(ops@) == omitted_steps(dim, italic),
{
    let mut ops: Vec<LineOp> = Vec::new();
    proof {
        assert(steps(ops@) =~= Seq::<LineStep>::empty());
    }
    add_op(&mut ops, LineOp::SaveStyle);
    add_op_if(&mut ops, dim, LineOp::SetDim);
    add_op_if(&mut ops, italic, LineOp::SetItalic);
    add_op(
        &mut ops,
        LineOp::PrintMeta {
            text: String::from_str("[large Markdown content omitted]"),
            selectable: false,
        },
    );
    add_op(&mut ops, LineOp::PopStyle);
    add_op(&mut ops, LineOp::Newline);
    proof {
        assert(steps(ops@) =~= omitted_steps(dim, italic));
    }
    ops
}

} // verus!
