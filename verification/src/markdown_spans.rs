//! The spans of lines of markdown, and where nodes of markdown are in their text.
use vstd::prelude::*;
use crate::chars::is_white;
use crate::markdown_flow::MarkdownTextKind;
use crate::markdown_retained::ByteRange;
use crate::text::{chars_of, text_of, texts};

verus! {

/// The style of a span; `heading` where it is of the group of headings.
#[derive(Clone, Copy, Debug, PartialEq, Eq, Structural)]
pub struct InlineStyle {
    pub bold: bool,
    pub italic: bool,
    pub dim: bool,
    pub heading: bool,
    /// What else the span is: code, a link and the like, by number.
    pub other: u64,
}

/// A span of a line. What is known of it besides its text and style goes by number.
#[derive(Debug)]
pub struct MarkdownSpan {
    pub text: String,
    pub style: InlineStyle,
    pub meta: u64,
}

/// A span of a line, as mathematical values.
pub struct MarkdownSpanView {
    pub text: Seq<char>,
    pub style: InlineStyle,
    pub meta: u64,
}

impl View for MarkdownSpan {
    type V = MarkdownSpanView;

    open spec fn view(&self) -> MarkdownSpanView {
        MarkdownSpanView { text: self.text@, style: self.style, meta: self.meta }
    }
}

/// Some spans, as mathematical values.
pub open spec fn span_views(spans: Seq<MarkdownSpan>) -> Seq<MarkdownSpanView> {
    spans.map_values(|span: MarkdownSpan| span@)
}

/// A style of nothing, dim or not.
pub open spec fn plain_style(dim: bool) -> InlineStyle {
    InlineStyle { bold: false, italic: false, dim, heading: false, other: 0 }
}

/// Where the white space at the start of a text ends.
pub open spec fn white_end(text: Seq<char>, i: int) -> int
    decreases text.len() - i,
{
    if i < text.len() && is_white(text[i]) {
        white_end(text, i + 1)
    } else {
        i
    }
}

/// The white space at the start of a line, and what follows it.
pub open spec fn trimmed(line: Seq<char>) -> Seq<char> {
    line.skip(white_end(line, 0))
}

pub(crate) fn split_white(line: &str) -> (r: (String, String))
    ensures
        r.0@ == line@.take(white_end(line@, 0)),
        r.1@ == trimmed(line@),
{
    let chars = chars_of(line);
    let mut i: usize = 0;
    while i < chars.len() && chars[i].is_whitespace()
        invariant
            i <= chars@.len(),
            chars@ == line@,
            white_end(line@, 0) == white_end(line@, i as int),
        decreases chars@.len() - i,
    {
        i += 1;
    }
    let head = text_of(&chars, 0, i);
    let tail = text_of(&chars, i, chars.len());
    proof {
        assert(head@ =~= line@.take(i as int));
        assert(tail@ =~= line@.skip(i as int));
    }
    (head, tail)
}

/// How the style of a span changes by the kind of text that it is in.
pub open spec fn restyled(style: InlineStyle, kind: MarkdownTextKind, dim: bool) -> InlineStyle {
    match kind {
        MarkdownTextKind::Heading => InlineStyle {
            bold: true,
            dim: style.dim || dim,
            heading: true,
            ..style
        },
        MarkdownTextKind::BlockQuote => InlineStyle { dim: true, italic: true, ..style },
        _ => InlineStyle { dim: style.dim || dim, ..style },
    }
}

/// The spans of a text by its kind.
pub open spec fn restyled_spans(
    spans: Seq<MarkdownSpanView>,
    kind: MarkdownTextKind,
    dim: bool,
) -> Seq<MarkdownSpanView> {
    spans.map_values(
        |span: MarkdownSpanView|
            MarkdownSpanView { style: restyled(span.style, kind, dim), ..span },
    )
}

/// A plain span, if it has a text.
pub open spec fn plain_span(text: Seq<char>, dim: bool) -> Seq<MarkdownSpanView> {
    if text.len() > 0 {
        seq![MarkdownSpanView { text, style: plain_style(dim), meta: 0 }]
    } else {
        Seq::empty()
    }
}

/// The spans of a line: what it is indented with, what makes it an item, and its text.
/// Headings and quotes have neither of the first two.
pub open spec fn line_spans(
    line: Seq<char>,
    prefix: Seq<char>,
    base: Seq<MarkdownSpanView>,
    kind: MarkdownTextKind,
    dim: bool,
) -> Seq<MarkdownSpanView> {
    if kind == MarkdownTextKind::Heading || kind == MarkdownTextKind::BlockQuote {
        restyled_spans(base, kind, dim)
    } else {
        plain_span(line.take(white_end(line, 0)), dim) + (if kind == MarkdownTextKind::List {
            plain_span(prefix, true)
        } else {
            Seq::empty()
        }) + restyled_spans(base, kind, dim)
    }
}

fn push_restyled(
    spans: &mut Vec<MarkdownSpan>,
    base: &Vec<MarkdownSpan>,
    kind: MarkdownTextKind,
    dim: bool,
)
    ensures
        span_views(final(spans)@) == span_views(old(spans)@) + restyled_spans(
            span_views(base@),
            kind,
            dim,
        ),
{
    let ghost before = span_views(spans@);
    let ghost all = restyled_spans(span_views(base@), kind, dim);
    let mut i: usize = 0;
    proof {
        assert(before + all.take(0) =~= before);
    }
    while i < base.len()
        invariant
            i <= base@.len(),
            all == restyled_spans(span_views(base@), kind, dim),
            span_views(spans@) == before + all.take(i as int),
        decreases base@.len() - i,
    {
        let mut style = base[i].style;
        match kind {
            MarkdownTextKind::Heading => {
                style.bold = true;
                style.dim = style.dim || dim;
                style.heading = true;
            },
            MarkdownTextKind::BlockQuote => {
                style.dim = true;
                style.italic = true;
            },
            _ => {
                style.dim = style.dim || dim;
            },
        }
        let ghost now = spans@;
        let span = MarkdownSpan { text: base[i].text.clone(), style, meta: base[i].meta };
        let ghost view = span@;
        spans.push(span);
        proof {
            assert(view == all[i as int]);
            assert(span_views(spans@) =~= span_views(now).push(view));
            assert(span_views(spans@) =~= before + all.take(i + 1));
        }
        i += 1;
    }
    proof {
        assert(all.take(i as int) =~= all);
    }
}

fn push_plain(spans: &mut Vec<MarkdownSpan>, text: String, dim: bool)
    ensures
        span_views(final(spans)@) == span_views(old(spans)@) + plain_span(text@, dim),
{
    let ghost before = spans@;
    let ghost content = text@;
    if !text.as_str().is_empty() {
        spans.push(
            MarkdownSpan {
                text,
                style: InlineStyle { bold: false, italic: false, dim, heading: false, other: 0 },
                meta: 0,
            },
        );
    }
    proof {
        assert(span_views(spans@) =~= span_views(before) + plain_span(content, dim));
    }
}

/// The spans of a line whose text has the spans `base`; `prefix` is what makes it an item.
pub fn markdown_line_spans(
    line: &str,
    prefix: &str,
    base: &Vec<MarkdownSpan>,
    kind: MarkdownTextKind,
    dim: bool,
) -> (spans: Vec<MarkdownSpan>)
    ensures
        span_views(spans@) == line_spans(line@, prefix@, span_views(base@), kind, dim),
{
    let mut spans: Vec<MarkdownSpan> = Vec::new();
    proof {
        assert(span_views(spans@) =~= Seq::<MarkdownSpanView>::empty());
    }
    match kind {
        MarkdownTextKind::Heading => {},
        MarkdownTextKind::BlockQuote => {},
        _ => {
            let (white, _) = split_white(line);
            push_plain(&mut spans, white, dim);
            if kind == MarkdownTextKind::List {
                push_plain(&mut spans, String::from_str(prefix), true);
            }
        },
    }
    let ghost head = span_views(spans@);
    push_restyled(&mut spans, base, kind, dim);
    proof {
        assert(span_views(spans@) =~= line_spans(line@, prefix@, span_views(base@), kind, dim));
    }
    spans
}

/// `split` parts an item into what makes it one and its text.
pub open spec fn splits_to<L: Fn(&str) -> (String, String)>(
    split: L,
    text: Seq<char>,
    prefix: Seq<char>,
    body: Seq<char>,
) -> bool {
    exists|s: &str, r: (String, String)| #[trigger]
        call_ensures(split, (s,), r) && s@ == text && r.0@ == prefix && r.1@ == body
}

/// `parse` gives these spans for a text.
pub open spec fn spans_to<P: Fn(&str) -> Vec<MarkdownSpan>>(
    parse: P,
    text: Seq<char>,
    spans: Seq<MarkdownSpanView>,
) -> bool {
    exists|s: &str, r: Vec<MarkdownSpan>| #[trigger]
        call_ensures(parse, (s,), r) && s@ == text && span_views(r@) == spans
}

/// The spans of a line that was not parsed before.
pub fn fallback_markdown_line_spans<
    L: Fn(&str) -> (String, String),
    P: Fn(&str) -> Vec<MarkdownSpan>,
>(line: &str, kind: MarkdownTextKind, dim: bool, split: &L, parse: &P) -> (spans: Vec<
    MarkdownSpan,
>)
    requires
        forall|s: &str| #[trigger] call_requires(*split, (s,)),
        forall|s: &str| #[trigger] call_requires(*parse, (s,)),
    ensures
        exists|prefix: Seq<char>, body: Seq<char>, base: Seq<MarkdownSpanView>|
            {
                &&& #[trigger] spans_to(*parse, body, base)
                &&& kind == MarkdownTextKind::List ==> splits_to(
                    *split,
                    trimmed(line@),
                    prefix,
                    body,
                )
                &&& kind != MarkdownTextKind::List ==> body == trimmed(line@)
                &&& span_views(spans@) == #[trigger] line_spans(line@, prefix, base, kind, dim)
            },
{
    let (_, rest) = split_white(line);
    if kind == MarkdownTextKind::List {
        let (prefix, body) = split(rest.as_str());
        let base = parse(body.as_str());
        let spans = markdown_line_spans(line, prefix.as_str(), &base, kind, dim);
        proof {
            assert(splits_to(*split, rest@, prefix@, body@));
            assert(spans_to(*parse, body@, span_views(base@)));
        }
        spans
    } else {
        let base = parse(rest.as_str());
        let spans = markdown_line_spans(line, "", &base, kind, dim);
        proof {
            assert(spans_to(*parse, rest@, span_views(base@)));
            assert(span_views(spans@) == line_spans(line@, ""@, span_views(base@), kind, dim));
        }
        spans
    }
}

/// Whether a text has anything but white space.
pub open spec fn is_visible(text: Seq<char>) -> bool {
    exists|i: int| 0 <= i < text.len() && !is_white(#[trigger] text[i])
}

/// Whether a text has anything but white space.
pub fn has_visible_text(text: &str) -> (visible: bool)
    ensures
        visible == is_visible(text@),
{
    let chars = chars_of(text);
    let mut k: usize = 0;
    while k < chars.len()
        invariant
            k <= chars@.len(),
            chars@ == text@,
            forall|j: int| 0 <= j < k ==> is_white(#[trigger] chars@[j]),
        decreases chars@.len() - k,
    {
        if !chars[k].is_whitespace() {
            proof {
                assert(!is_white(text@[k as int]));
            }
            return true;
        }
        k += 1;
    }
    false
}

/// Whether some span has anything but white space.
pub fn inline_spans_have_visible_text(spans: &Vec<MarkdownSpan>) -> (visible: bool)
    ensures
        visible == exists|i: int|
            0 <= i < spans@.len() && is_visible((#[trigger] spans@[i]).text@),
{
    let mut i: usize = 0;
    while i < spans.len()
        invariant
            i <= spans@.len(),
            forall|k: int| 0 <= k < i ==> !is_visible((#[trigger] spans@[k]).text@),
        decreases spans@.len() - i,
    {
        if has_visible_text(spans[i].text.as_str()) {
            return true;
        }
        i += 1;
    }
    false
}

/// How a column of a table is aligned.
#[derive(Clone, Copy, Debug, PartialEq, Eq, Structural)]
pub enum ColumnAlignment {
    Unset,
    Left,
    Center,
    Right,
}

/// A line of markdown: where it is in the text, and the spans of its text.
#[derive(Debug)]
pub struct MarkdownLine {
    pub source: ByteRange,
    pub spans: Vec<MarkdownSpan>,
}

/// A line of markdown, as mathematical values.
pub struct MarkdownLineView {
    pub source: ByteRange,
    pub spans: Seq<MarkdownSpanView>,
}

impl View for MarkdownLine {
    type V = MarkdownLineView;

    open spec fn view(&self) -> MarkdownLineView {
        MarkdownLineView { source: self.source, spans: span_views(self.spans@) }
    }
}

/// A node of markdown: where it is in the text, and what it was parsed to.
#[derive(Debug)]
#[allow(inconsistent_fields)]
pub enum MarkdownNode {
    Source { range: ByteRange },
    Rule { range: ByteRange },
    Text { range: ByteRange, lines: Vec<MarkdownLine>, kind: MarkdownTextKind },
    Code { range: ByteRange, body: Vec<ByteRange>, lang: String },
    Table { range: ByteRange, alignments: Vec<ColumnAlignment>, rows: Vec<Vec<String>> },
}

/// A node of markdown, as mathematical values.
#[allow(inconsistent_fields)]
pub enum MarkdownNodeView {
    Source { range: ByteRange },
    Rule { range: ByteRange },
    Text { range: ByteRange, lines: Seq<MarkdownLineView>, kind: MarkdownTextKind },
    Code { range: ByteRange, body: Seq<ByteRange>, lang: Seq<char> },
    Table { range: ByteRange, alignments: Seq<ColumnAlignment>, rows: Seq<Seq<Seq<char>>> },
}

/// Some lines, as mathematical values.
pub open spec fn line_views(lines: Seq<MarkdownLine>) -> Seq<MarkdownLineView> {
    lines.map_values(|line: MarkdownLine| line@)
}

/// The cells of a table.
pub open spec fn cell_texts(rows: Seq<Vec<String>>) -> Seq<Seq<Seq<char>>> {
    rows.map_values(|row: Vec<String>| texts(row@))
}

impl View for MarkdownNode {
    type V = MarkdownNodeView;

    open spec fn view(&self) -> MarkdownNodeView {
        match self {
            MarkdownNode::Source { range } => MarkdownNodeView::Source { range: *range },
            MarkdownNode::Rule { range } => MarkdownNodeView::Rule { range: *range },
            MarkdownNode::Text { range, lines, kind } => MarkdownNodeView::Text {
                range: *range,
                lines: line_views(lines@),
                kind: *kind,
            },
            MarkdownNode::Code { range, body, lang } => MarkdownNodeView::Code {
                range: *range,
                body: body@,
                lang: lang@,
            },
            MarkdownNode::Table { range, alignments, rows } => MarkdownNodeView::Table {
                range: *range,
                alignments: alignments@,
                rows: cell_texts(rows@),
            },
        }
    }
}

/// A range that begins and ends later.
pub open spec fn shifted_range(range: ByteRange, offset: usize) -> ByteRange {
    ByteRange {
        start: range.start.saturating_add(offset),
        end: range.end.saturating_add(offset),
    }
}

/// Ranges that begin and end later.
pub open spec fn shifted_ranges(ranges: Seq<ByteRange>, offset: usize) -> Seq<ByteRange> {
    ranges.map_values(|range: ByteRange| shifted_range(range, offset))
}

/// Lines that begin and end later.
pub open spec fn shifted_lines(lines: Seq<MarkdownLineView>, offset: usize) -> Seq<
    MarkdownLineView,
> {
    lines.map_values(
        |line: MarkdownLineView|
            MarkdownLineView { source: shifted_range(line.source, offset), ..line },
    )
}

/// A node whose text stands `offset` bytes further on.
pub open spec fn shifted_node(node: MarkdownNodeView, offset: usize) -> MarkdownNodeView {
    match node {
        MarkdownNodeView::Source { range } => MarkdownNodeView::Source {
            range: shifted_range(range, offset),
        },
        MarkdownNodeView::Rule { range } => MarkdownNodeView::Rule {
            range: shifted_range(range, offset),
        },
        MarkdownNodeView::Text { range, lines, kind } => MarkdownNodeView::Text {
            range: shifted_range(range, offset),
            lines: shifted_lines(lines, offset),
            kind,
        },
        MarkdownNodeView::Code { range, body, lang } => MarkdownNodeView::Code {
            range: shifted_range(range, offset),
            body: shifted_ranges(body, offset),
            lang,
        },
        MarkdownNodeView::Table { range, alignments, rows } => MarkdownNodeView::Table {
            range: shifted_range(range, offset),
            alignments,
            rows,
        },
    }
}

fn shift(range: ByteRange, offset: usize) -> (r: ByteRange)
    ensures
        r == shifted_range(range, offset),
{
    ByteRange { start: range.start.saturating_add(offset), end: range.end.saturating_add(offset) }
}

fn shift_all(ranges: &mut Vec<ByteRange>, offset: usize)
    ensures
        final(ranges)@ == shifted_ranges(old(ranges)@, offset),
{
    let ghost before = ranges@;
    let mut i: usize = 0;
    while i < ranges.len()
        invariant
            i <= ranges@.len(),
            ranges@.len() == before.len(),
            forall|k: int| 0 <= k < i ==> #[trigger] ranges@[k] == shifted_range(before[k], offset),
            forall|k: int| i <= k < before.len() ==> #[trigger] ranges@[k] == before[k],
        decreases ranges@.len() - i,
    {
        let moved = shift(ranges[i], offset);
        ranges.set(i, moved);
        i += 1;
    }
    proof {
        assert(ranges@ =~= shifted_ranges(before, offset));
    }
}

fn shift_line(line: &mut MarkdownLine, offset: usize)
    ensures
        final(line)@ == (MarkdownLineView {
            source: shifted_range(old(line)@.source, offset),
            ..old(line)@
        }),
{
    line.source = shift(line.source, offset);
}

fn shift_lines(lines: &mut Vec<MarkdownLine>, offset: usize)
    ensures
        line_views(final(lines)@) == shifted_lines(line_views(old(lines)@), offset),
{
    let ghost before = lines@;
    let mut i: usize = 0;
    while i < lines.len()
        invariant
            i <= lines@.len(),
            lines@.len() == before.len(),
            forall|k: int|
                0 <= k < i ==> (#[trigger] lines@[k])@ == (MarkdownLineView {
                    source: shifted_range(before[k]@.source, offset),
                    ..before[k]@
                }),
            forall|k: int| i <= k < before.len() ==> #[trigger] lines@[k] == before[k],
        decreases lines@.len() - i,
    {
        shift_line(&mut lines[i], offset);
        i += 1;
    }
    proof {
        assert(line_views(lines@) =~= shifted_lines(line_views(before), offset));
    }
}

fn shift_node(node: &mut MarkdownNode, offset: usize)
    ensures
        final(node)@ == shifted_node(old(node)@, offset),
{
    match node {
        MarkdownNode::Source { range } => {
            *range = shift(*range, offset);
        },
        MarkdownNode::Rule { range } => {
            *range = shift(*range, offset);
        },
        MarkdownNode::Text { range, lines, .. } => {
            *range = shift(*range, offset);
            shift_lines(lines, offset);
        },
        MarkdownNode::Code { range, body, .. } => {
            *range = shift(*range, offset);
            shift_all(body, offset);
        },
        MarkdownNode::Table { range, .. } => {
            *range = shift(*range, offset);
        },
    }
}

/// Moves nodes to where their text is in a larger one.
pub fn shift_markdown_nodes(nodes: &mut Vec<MarkdownNode>, offset: usize)
    ensures
        final(nodes)@.len() == old(nodes)@.len(),
        forall|i: int|
            0 <= i < old(nodes)@.len() ==> (#[trigger] final(nodes)@[i])@ == shifted_node(
                old(nodes)@[i]@,
                offset,
            ),
{
    let ghost before = nodes@;
    let mut i: usize = 0;
    while i < nodes.len()
        invariant
            i <= nodes@.len(),
            nodes@.len() == before.len(),
            forall|k: int|
                0 <= k < i ==> (#[trigger] nodes@[k])@ == shifted_node(before[k]@, offset),
            forall|k: int| i <= k < before.len() ==> #[trigger] nodes@[k] == before[k],
        decreases nodes@.len() - i,
    {
        shift_node(&mut nodes[i], offset);
        i += 1;
    }
}

/// Nodes that are moved twice are where one move by both offsets puts them.
pub proof fn shifts_add_up(node: MarkdownNodeView, a: usize, b: usize)
    requires
        a + b <= usize::MAX,
    ensures
        shifted_node(shifted_node(node, a), b) == shifted_node(node, (a + b) as usize),
        shifted_node(node, 0) == node,
{
    match node {
        MarkdownNodeView::Text { lines, .. } => {
            assert(shifted_lines(shifted_lines(lines, a), b) =~= shifted_lines(
                lines,
                (a + b) as usize,
            ));
            assert(shifted_lines(lines, 0) =~= lines);
        },
        MarkdownNodeView::Code { body, .. } => {
            assert(shifted_ranges(shifted_ranges(body, a), b) =~= shifted_ranges(
                body,
                (a + b) as usize,
            ));
            assert(shifted_ranges(body, 0) =~= body);
        },
        _ => {},
    }
}

proof fn lemma_joined(a: Seq<MarkdownSpanView>, b: Seq<MarkdownSpanView>)
    ensures
        spans_text(a + b) == spans_text(a) + spans_text(b),
    decreases b.len(),
{
    if b.len() == 0 {
        assert(a + b =~= a);
        assert(spans_text(a) + spans_text(b) =~= spans_text(a));
    } else {
        lemma_joined(a, b.drop_last());
        assert((a + b).drop_last() =~= a + b.drop_last());
        assert(spans_text(a + b) =~= spans_text(a) + spans_text(b));
    }
}

/// The text of some spans.
pub open spec fn spans_text(spans: Seq<MarkdownSpanView>) -> Seq<char>
    decreases spans.len(),
{
    if spans.len() == 0 {
        Seq::empty()
    } else {
        spans_text(spans.drop_last()) + spans.last().text
    }
}

proof fn lemma_restyled_text(spans: Seq<MarkdownSpanView>, kind: MarkdownTextKind, dim: bool)
    ensures
        spans_text(restyled_spans(spans, kind, dim)) == spans_text(spans),
    decreases spans.len(),
{
    if spans.len() > 0 {
        lemma_restyled_text(spans.drop_last(), kind, dim);
        assert(restyled_spans(spans, kind, dim).drop_last() =~= restyled_spans(
            spans.drop_last(),
            kind,
            dim,
        ));
    }
}

proof fn lemma_plain_text(text: Seq<char>, dim: bool)
    ensures
        spans_text(plain_span(text, dim)) == text,
{
    if text.len() > 0 {
        let span = MarkdownSpanView { text, style: plain_style(dim), meta: 0 };
        assert(seq![span].drop_last() =~= Seq::<MarkdownSpanView>::empty());
        assert(spans_text(seq![span].drop_last()) =~= Seq::<char>::empty());
        assert(spans_text(seq![span]) =~= text);
    } else {
        assert(text =~= Seq::<char>::empty());
    }
}

/// The spans of an item show its indent, what makes it an item, and its text, and nothing
/// else.
pub proof fn item_spans_show_whole_line(
    line: Seq<char>,
    prefix: Seq<char>,
    base: Seq<MarkdownSpanView>,
    dim: bool,
)
    ensures
        spans_text(line_spans(line, prefix, base, MarkdownTextKind::List, dim)) == line.take(
            white_end(line, 0),
        ) + prefix + spans_text(base),
{
    let white = line.take(white_end(line, 0));
    let a = plain_span(white, dim);
    let b = plain_span(prefix, true);
    let c = restyled_spans(base, MarkdownTextKind::List, dim);
    lemma_plain_text(white, dim);
    lemma_plain_text(prefix, true);
    lemma_restyled_text(base, MarkdownTextKind::List, dim);
    lemma_joined(a, b);
    lemma_joined(a + b, c);
}

} // verus!
