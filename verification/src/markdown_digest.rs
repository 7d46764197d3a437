//! Parsed Markdown at one width: what its nodes take in rows, and how a line is drawn.
use vstd::prelude::*;
use crate::leaf_draw::joined;
use crate::line_ops::{add_op, add_op_if, lemma_behind, op_if, steps, LineOp, LineStep};
use crate::markdown_flow::{
    after_doc, doc_rows, emits, measure_markdown_inner_with_options,
    render_markdown_docs_from_state, should_emit, FlowLine, FlowNode, FlowRow, FlowState,
    MarkdownTextKind, RowClip,
};
use crate::markdown_retained::ByteRange;
use crate::markdown_spans::{
    fallback_markdown_line_spans, has_visible_text, inline_spans_have_visible_text, is_visible,
    line_spans, markdown_line_spans, span_views, spans_to, split_white, splits_to, trimmed,
    ColumnAlignment, MarkdownLine, MarkdownLineView, MarkdownNode, MarkdownSpan, MarkdownSpanView,
};
use crate::text::{cell_width, display_width, lines_of, split_lines, texts};

verus! {

/// Where Markdown is drawn: at a width behind an indent, dim or not, or in a box with so many
/// columns inside.
#[derive(Clone, Copy, Debug)]
pub struct MarkdownPlace<'a> {
    pub width: usize,
    pub indent: &'a str,
    pub dim: bool,
    pub inner_w: Option<usize>,
}

impl<'a> MarkdownPlace<'a> {
    /// Columns that a line may take.
    pub open spec fn spec_max_cols(&self) -> usize {
        match self.inner_w {
            Some(columns) => columns,
            None => self.width.saturating_sub(cell_width(self.indent@).saturating_add(1)),
        }
    }

    /// Columns that a line may take: those of the box, or what the indent and one more column
    /// leave.
    pub fn max_cols(&self) -> (columns: usize)
        ensures
            columns == self.spec_max_cols(),
    {
        match self.inner_w {
            Some(columns) => columns,
            None => self.width.saturating_sub(display_width(self.indent).saturating_add(1)),
        }
    }
}

/// What Markdown is laid out with.
pub struct FlowSources<'a, S, I, L, P, W, K, T> {
    /// The text between two bytes of the source.
    pub slice: &'a S,
    /// Whether a line starts an item of a list.
    pub list_item: &'a I,
    /// Parts an item into what makes it one and its text.
    pub split: &'a L,
    /// The spans of a text.
    pub parse: &'a P,
    /// Breaks spans into rows of so many columns.
    pub wrap: &'a W,
    /// Counts the rows of code in a language at a width.
    pub code_rows: &'a K,
    /// Counts the rows of a table at a width.
    pub table_rows: &'a T,
}

/// `slice` gives this text for a range.
pub open spec fn slices_to<S: Fn(usize, usize) -> String>(
    slice: S,
    range: ByteRange,
    text: Seq<char>,
) -> bool {
    exists|s: String| #[trigger] call_ensures(slice, (range.start, range.end), s) && s@ == text
}

/// `list_item` says this of a text.
pub open spec fn says_of<I: Fn(&str) -> bool>(list_item: I, text: Seq<char>, r: bool) -> bool {
    exists|s: &str| #[trigger] call_ensures(list_item, (s,), r) && s@ == text
}

/// Whether some span has anything but white space.
pub open spec fn shows_text(spans: Seq<MarkdownSpan>) -> bool {
    exists|i: int| 0 <= i < spans.len() && is_visible((#[trigger] spans[i]).text@)
}

/// `wrap` can break spans into rows, of which these show text.
pub open spec fn breaks_to<W: Fn(&Vec<MarkdownSpan>, usize) -> Vec<Vec<MarkdownSpan>>>(
    wrap: W,
    spans: Seq<MarkdownSpanView>,
    columns: usize,
    visible: Seq<bool>,
) -> bool {
    exists|given: Vec<MarkdownSpan>, rows: Vec<Vec<MarkdownSpan>>| #[trigger]
        call_ensures(wrap, (&given, columns), rows) && span_views(given@) == spans && visible
            == rows@.map_values(|row: Vec<MarkdownSpan>| shows_text(row@))
}

/// Whether any of some texts has anything but white space.
pub open spec fn any_visible(all: Seq<Seq<char>>) -> bool {
    exists|i: int| 0 <= i < all.len() && is_visible(#[trigger] all[i])
}

/// Whether any of some texts has anything but white space.
fn some_text_visible(all: &Vec<String>) -> (visible: bool)
    ensures
        visible == any_visible(texts(all@)),
{
    let mut i: usize = 0;
    while i < all.len()
        invariant
            i <= all@.len(),
            forall|k: int| 0 <= k < i ==> !is_visible(#[trigger] texts(all@)[k]),
        decreases all@.len() - i,
    {
        if has_visible_text(all[i].as_str()) {
            proof {
                assert(is_visible(texts(all@)[i as int]));
            }
            return true;
        }
        i += 1;
    }
    false
}

/// `text` without the line feeds and carriage returns at its end.
pub open spec fn without_line_end(text: Seq<char>) -> Seq<char>
    decreases text.len(),
{
    if text.len() > 0 && (text.last() == '\r' || text.last() == '\n') {
        without_line_end(text.drop_last())
    } else {
        text
    }
}

/// What a table is copied as: its source without the line feeds and carriage returns at its
/// end.
pub fn table_copy_text(source: &str) -> (copy: String)
    ensures
        copy@ == without_line_end(source@),
{
    let chars = crate::text::chars_of(source);
    let mut n: usize = chars.len();
    proof {
        assert(chars@.take(n as int) =~= source@);
    }
    while n > 0 && (chars[n - 1] == '\r' || chars[n - 1] == '\n')
        invariant
            n <= chars@.len(),
            without_line_end(chars@.take(n as int)) == without_line_end(source@),
        decreases n,
    {
        proof {
            assert(chars@.take(n as int).drop_last() =~= chars@.take(n - 1));
        }
        n -= 1;
    }
    let copy = crate::text::text_of(&chars, 0, n);
    proof {
        assert(copy@ =~= chars@.take(n as int));
    }
    copy
}

/// How a row is copied.
#[derive(Debug)]
pub enum RowCopy {
    /// By what it shows.
    Own,
    /// By this text, which stands for the rows behind it too.
    Group(String),
    /// Not by itself: the text of a row above stands for it.
    Continuation,
}

/// Cells of a table, however many rows it has, with anything but white space.
pub open spec fn any_cell_visible(rows: Seq<Vec<String>>) -> bool {
    exists|i: int| 0 <= i < rows.len() && any_visible(texts((#[trigger] rows[i])@))
}

impl<
    'a,
    S: Fn(usize, usize) -> String,
    I: Fn(&str) -> bool,
    L: Fn(&str) -> (String, String),
    P: Fn(&str) -> Vec<MarkdownSpan>,
    W: Fn(&Vec<MarkdownSpan>, usize) -> Vec<Vec<MarkdownSpan>>,
    K: Fn(&Vec<String>, &str, usize) -> usize,
    T: Fn(&Vec<Vec<String>>, &Vec<ColumnAlignment>, usize) -> u16,
> FlowSources<'a, S, I, L, P, W, K, T> {
    /// Every question may be asked.
    pub open spec fn wf(&self) -> bool {
        &&& forall|a: usize, b: usize| #[trigger] call_requires(*self.slice, (a, b))
        &&& forall|s: &str| #[trigger] call_requires(*self.list_item, (s,))
        &&& forall|s: &str| #[trigger] call_requires(*self.split, (s,))
        &&& forall|s: &str| #[trigger] call_requires(*self.parse, (s,))
        &&& forall|s: &Vec<MarkdownSpan>, n: usize| #[trigger] call_requires(*self.wrap, (s, n))
        &&& forall|l: &Vec<String>, s: &str, n: usize| #[trigger]
            call_requires(*self.code_rows, (l, s, n))
        &&& forall|r: &Vec<Vec<String>>, a: &Vec<ColumnAlignment>, n: usize| #[trigger]
            call_requires(*self.table_rows, (r, a, n))
    }

    /// `flow` is what a line of this text and these spans takes. A line of nothing but white
    /// space is not broken into rows.
    pub open spec fn is_flow_line(
        &self,
        text: Seq<char>,
        spans: Seq<MarkdownSpanView>,
        columns: usize,
        flow: FlowLine,
    ) -> bool {
        &&& flow.blank == !is_visible(text)
        &&& says_of(*self.list_item, text, flow.list_item)
        &&& if flow.blank {
            flow.rows@.len() == 0
        } else {
            breaks_to(*self.wrap, spans, columns, flow.rows@)
        }
    }

    /// `prefix` is what makes a line an item, if it is a visible one of a list.
    pub open spec fn is_prefix(
        &self,
        text: Seq<char>,
        kind: MarkdownTextKind,
        prefix: Seq<char>,
    ) -> bool {
        kind is List && is_visible(text) ==> exists|body: Seq<char>| #[trigger]
            splits_to(*self.split, trimmed(text), prefix, body)
    }

    /// `flow` is what a parsed line takes: its spans behind its indent and what makes it an
    /// item.
    pub open spec fn is_parsed_line(
        &self,
        line: MarkdownLineView,
        kind: MarkdownTextKind,
        place: MarkdownPlace<'_>,
        flow: FlowLine,
    ) -> bool {
        exists|text: Seq<char>, prefix: Seq<char>|
            {
                &&& #[trigger] slices_to(*self.slice, line.source, text)
                &&& #[trigger] self.is_prefix(text, kind, prefix)
                &&& self.is_flow_line(
                    text,
                    line_spans(text, prefix, line.spans, kind, place.dim),
                    place.spec_max_cols(),
                    flow,
                )
            }
    }

    /// `flow` is what a line takes that was not parsed before.
    pub open spec fn is_source_line(
        &self,
        text: Seq<char>,
        place: MarkdownPlace<'_>,
        flow: FlowLine,
    ) -> bool {
        exists|base: Seq<MarkdownSpanView>, prefix: Seq<char>|
            {
                &&& is_visible(text) ==> spans_to(*self.parse, trimmed(text), base)
                &&& #[trigger] self.is_flow_line(
                    text,
                    line_spans(text, prefix, base, MarkdownTextKind::Paragraph, place.dim),
                    place.spec_max_cols(),
                    flow,
                )
            }
    }

    /// `flows` are what the lines of a range take that was not parsed before.
    pub open spec fn are_source_lines(
        &self,
        range: ByteRange,
        place: MarkdownPlace<'_>,
        flows: Seq<FlowLine>,
    ) -> bool {
        exists|text: Seq<char>|
            {
                &&& #[trigger] slices_to(*self.slice, range, text)
                &&& flows.len() == lines_of(text).len()
                &&& forall|i: int|
                    0 <= i < flows.len() ==> self.is_source_line(
                        lines_of(text)[i],
                        place,
                        #[trigger] flows[i],
                    )
            }
    }

    /// `rows` and `visible` are what code takes whose lines are these ranges.
    pub open spec fn is_code(
        &self,
        body: Seq<ByteRange>,
        lang: Seq<char>,
        width: usize,
        rows: usize,
        visible: bool,
    ) -> bool {
        exists|parts: Seq<Seq<char>>, lines: Vec<String>, l: &str|
            {
                &&& parts.len() == body.len()
                &&& forall|i: int|
                    0 <= i < body.len() ==> slices_to(*self.slice, body[i], #[trigger] parts[i])
                &&& texts(lines@) == lines_of(#[trigger] joined(parts))
                &&& l@ == lang
                &&& #[trigger] call_ensures(*self.code_rows, (&lines, l, width), rows)
                &&& visible == any_visible(texts(lines@))
            }
    }

    /// `flow` is what a node takes.
    pub open spec fn is_flow(
        &self,
        node: MarkdownNode,
        place: MarkdownPlace<'_>,
        flow: FlowNode,
    ) -> bool {
        match node {
            MarkdownNode::Source { range } => {
                &&& flow matches FlowNode::Text { kind, lines }
                &&& kind is Paragraph
                &&& self.are_source_lines(range, place, lines@)
            },
            MarkdownNode::Text { lines: parsed, kind, .. } => {
                &&& flow matches FlowNode::Text { kind: shown, lines }
                &&& shown == kind
                &&& lines@.len() == parsed@.len()
                &&& forall|i: int|
                    0 <= i < lines@.len() ==> self.is_parsed_line(
                        parsed@[i]@,
                        kind,
                        place,
                        #[trigger] lines@[i],
                    )
            },
            MarkdownNode::Code { body, lang, .. } => {
                &&& flow matches FlowNode::Code { rows, visible }
                &&& self.is_code(body@, lang@, place.width, rows, visible)
            },
            MarkdownNode::Table { alignments, rows: cells, .. } => {
                &&& flow matches FlowNode::Table { rows, visible }
                &&& call_ensures(*self.table_rows, (&cells, &alignments, place.width), rows)
                &&& visible == any_cell_visible(cells@)
            },
            MarkdownNode::Rule { .. } => flow is Rule,
        }
    }

    /// `flows` are what the nodes take.
    pub open spec fn are_flows(
        &self,
        nodes: Seq<MarkdownNode>,
        place: MarkdownPlace<'_>,
        flows: Seq<FlowNode>,
    ) -> bool {
        &&& flows.len() == nodes.len()
        &&& forall|i: int|
            0 <= i < nodes.len() ==> self.is_flow(nodes[i], place, #[trigger] flows[i])
    }

    fn flow_rows(&self, spans: &Vec<MarkdownSpan>, columns: usize) -> (visible: Vec<bool>)
        requires
            self.wf(),
        ensures
            breaks_to(*self.wrap, span_views(spans@), columns, visible@),
    {
        let rows = (self.wrap)(spans, columns);
        let mut visible: Vec<bool> = Vec::new();
        let mut i: usize = 0;
        while i < rows.len()
            invariant
                i <= rows@.len(),
                visible@.len() == i,
                forall|k: int| 0 <= k < i ==> #[trigger] visible@[k] == shows_text(rows@[k]@),
            decreases rows@.len() - i,
        {
            visible.push(inline_spans_have_visible_text(&rows[i]));
            i += 1;
        }
        proof {
            assert(visible@ =~= rows@.map_values(|row: Vec<MarkdownSpan>| shows_text(row@)));
            assert(call_ensures(*self.wrap, (spans, columns), rows));
        }
        visible
    }

    fn parsed_line(
        &self,
        line: &MarkdownLine,
        kind: MarkdownTextKind,
        place: &MarkdownPlace<'_>,
    ) -> (flow: FlowLine)
        requires
            self.wf(),
        ensures
            self.is_parsed_line(line@, kind, *place, flow),
    {
        let text = (self.slice)(line.source.start, line.source.end);
        let shown = text.as_str();
        let list_item = (self.list_item)(shown);
        let visible = has_visible_text(shown);
        let mut prefix = String::new();
        if visible && kind == MarkdownTextKind::List {
            let (_, rest) = split_white(shown);
            let (head, tail) = (self.split)(rest.as_str());
            proof {
                assert(splits_to(*self.split, trimmed(text@), head@, tail@));
            }
            prefix = head;
        }
        let rows = if visible {
            let spans = markdown_line_spans(
                shown,
                prefix.as_str(),
                &line.spans,
                kind,
                place.dim,
            );
            self.flow_rows(&spans, place.max_cols())
        } else {
            Vec::new()
        };
        let flow = FlowLine { blank: !visible, list_item, rows };
        proof {
            assert(slices_to(*self.slice, line@.source, text@));
            assert(says_of(*self.list_item, text@, list_item));
            let spans = line_spans(text@, prefix@, line@.spans, kind, place.dim);
            assert(self.is_flow_line(text@, spans, place.spec_max_cols(), flow));
            assert(self.is_prefix(text@, kind, prefix@));
        }
        flow
    }

    fn source_line(&self, text: &str, place: &MarkdownPlace<'_>) -> (flow: FlowLine)
        requires
            self.wf(),
        ensures
            self.is_source_line(text@, *place, flow),
    {
        let list_item = (self.list_item)(text);
        let visible = has_visible_text(text);
        let kind = MarkdownTextKind::Paragraph;
        if !visible {
            let rows: Vec<bool> = Vec::new();
            let flow = FlowLine { blank: true, list_item, rows };
            proof {
                let none = Seq::<MarkdownSpanView>::empty();
                let spans = line_spans(text@, Seq::empty(), none, kind, place.dim);
                assert(says_of(*self.list_item, text@, list_item));
                assert(self.is_flow_line(text@, spans, place.spec_max_cols(), flow));
            }
            return flow;
        }
        let spans = fallback_markdown_line_spans(text, kind, place.dim, self.split, self.parse);
        let rows = self.flow_rows(&spans, place.max_cols());
        let flow = FlowLine { blank: false, list_item, rows };
        proof {
            let (prefix, body, base) = choose|
                prefix: Seq<char>,
                body: Seq<char>,
                base: Seq<MarkdownSpanView>,
            |
                {
                    &&& #[trigger] spans_to(*self.parse, body, base)
                    &&& kind == MarkdownTextKind::List ==> splits_to(
                        *self.split,
                        trimmed(text@),
                        prefix,
                        body,
                    )
                    &&& kind != MarkdownTextKind::List ==> body == trimmed(text@)
                    &&& span_views(spans@) == #[trigger] line_spans(
                        text@,
                        prefix,
                        base,
                        kind,
                        place.dim,
                    )
                };
            assert(says_of(*self.list_item, text@, list_item));
            assert(self.is_flow_line(
                text@,
                line_spans(text@, prefix, base, kind, place.dim),
                place.spec_max_cols(),
                flow,
            ));
        }
        flow
    }

    /// The text of code whose lines are these ranges.
    fn code_text(&self, body: &Vec<ByteRange>) -> (code: (String, Ghost<Seq<Seq<char>>>))
        requires
            self.wf(),
        ensures
            code.0@ == joined(code.1@),
            code.1@.len() == body@.len(),
            forall|i: int|
                0 <= i < body@.len() ==> slices_to(*self.slice, body@[i], #[trigger] code.1@[i]),
    {
        let mut text = String::new();
        let ghost mut parts: Seq<Seq<char>> = Seq::empty();
        let mut i: usize = 0;
        proof {
            assert(text@ =~= joined(parts));
        }
        while i < body.len()
            invariant
                i <= body@.len(),
                self.wf(),
                parts.len() == i,
                text@ == joined(parts),
                forall|k: int|
                    0 <= k < i ==> slices_to(*self.slice, body@[k], #[trigger] parts[k]),
            decreases body@.len() - i,
        {
            let part = (self.slice)(body[i].start, body[i].end);
            text.append(part.as_str());
            proof {
                let before = parts;
                parts = parts.push(part@);
                assert(parts.drop_last() =~= before);
                assert(slices_to(*self.slice, body@[i as int], part@));
            }
            i += 1;
        }
        (text, Ghost(parts))
    }

    fn code_flow(&self, body: &Vec<ByteRange>, lang: &String, width: usize) -> (flow: FlowNode)
        requires
            self.wf(),
        ensures
            flow matches FlowNode::Code { rows, visible } && self.is_code(
                body@,
                lang@,
                width,
                rows,
                visible,
            ),
    {
        let (text, Ghost(parts)) = self.code_text(body);
        let lines = split_lines(text.as_str());
        let name = lang.as_str();
        let rows = (self.code_rows)(&lines, name, width);
        let visible = some_text_visible(&lines);
        proof {
            assert(texts(lines@) == lines_of(joined(parts)));
            assert(call_ensures(*self.code_rows, (&lines, name, width), rows));
        }
        FlowNode::Code { rows, visible }
    }

    fn source_flow(&self, range: ByteRange, place: &MarkdownPlace<'_>) -> (flow: FlowNode)
        requires
            self.wf(),
        ensures
            self.is_flow(MarkdownNode::Source { range }, *place, flow),
    {
        let text = (self.slice)(range.start, range.end);
        let sources = split_lines(text.as_str());
        let mut lines: Vec<FlowLine> = Vec::new();
        let mut i: usize = 0;
        while i < sources.len()
            invariant
                i <= sources@.len(),
                self.wf(),
                texts(sources@) == lines_of(text@),
                lines@.len() == i,
                forall|k: int|
                    0 <= k < i ==> self.is_source_line(
                        lines_of(text@)[k],
                        *place,
                        #[trigger] lines@[k],
                    ),
            decreases sources@.len() - i,
        {
            let line = self.source_line(sources[i].as_str(), place);
            proof {
                assert(texts(sources@)[i as int] == sources@[i as int]@);
            }
            lines.push(line);
            i += 1;
        }
        proof {
            assert(slices_to(*self.slice, range, text@));
            assert(texts(sources@).len() == sources@.len());
            assert(self.are_source_lines(range, *place, lines@));
        }
        FlowNode::Text { kind: MarkdownTextKind::Paragraph, lines }
    }

    fn table_visible(&self, rows: &Vec<Vec<String>>) -> (visible: bool)
        ensures
            visible == any_cell_visible(rows@),
    {
        let mut i: usize = 0;
        while i < rows.len()
            invariant
                i <= rows@.len(),
                forall|k: int| 0 <= k < i ==> !any_visible(texts((#[trigger] rows@[k])@)),
            decreases rows@.len() - i,
        {
            if some_text_visible(&rows[i]) {
                return true;
            }
            i += 1;
        }
        false
    }

    /// What a node takes.
    fn flow_node(&self, node: &MarkdownNode, place: &MarkdownPlace<'_>) -> (flow: FlowNode)
        requires
            self.wf(),
        ensures
            self.is_flow(*node, *place, flow),
    {
        match node {
            MarkdownNode::Source { range } => self.source_flow(*range, place),
            MarkdownNode::Text { lines: parsed, kind, .. } => {
                let mut lines: Vec<FlowLine> = Vec::new();
                let mut i: usize = 0;
                while i < parsed.len()
                    invariant
                        i <= parsed@.len(),
                        self.wf(),
                        lines@.len() == i,
                        forall|k: int|
                            0 <= k < i ==> self.is_parsed_line(
                                parsed@[k]@,
                                *kind,
                                *place,
                                #[trigger] lines@[k],
                            ),
                    decreases parsed@.len() - i,
                {
                    let line = self.parsed_line(&parsed[i], *kind, place);
                    lines.push(line);
                    i += 1;
                }
                FlowNode::Text { kind: *kind, lines }
            },
            MarkdownNode::Code { body, lang, .. } => self.code_flow(body, lang, place.width),
            MarkdownNode::Table { alignments, rows: cells, .. } => {
                let rows = (self.table_rows)(cells, alignments, place.width);
                let visible = self.table_visible(cells);
                FlowNode::Table { rows, visible }
            },
            MarkdownNode::Rule { .. } => FlowNode::Rule,
        }
    }

    /// What nodes take.
    pub fn flow_nodes(&self, nodes: &Vec<MarkdownNode>, place: &MarkdownPlace<'_>) -> (flows: Vec<
        FlowNode,
    >)
        requires
            self.wf(),
        ensures
            self.are_flows(nodes@, *place, flows@),
    {
        let mut flows: Vec<FlowNode> = Vec::new();
        let mut i: usize = 0;
        while i < nodes.len()
            invariant
                i <= nodes@.len(),
                self.wf(),
                flows@.len() == i,
                forall|k: int|
                    0 <= k < i ==> self.is_flow(nodes@[k], *place, #[trigger] flows@[k]),
            decreases nodes@.len() - i,
        {
            let flow = self.flow_node(&nodes[i], place);
            flows.push(flow);
            i += 1;
        }
        flows
    }

    /// `copy` is how a row of parsed Markdown is copied. The source of a table, without its last
    /// line end, goes with the first of its rows; every other row shows its own text.
    pub open spec fn is_row_copy(
        &self,
        nodes: Seq<MarkdownNode>,
        row: FlowRow,
        copy: RowCopy,
    ) -> bool {
        match row {
            FlowRow::Table { node, row: at, .. } if node < nodes.len() => match nodes[node as int] {
                MarkdownNode::Table { range, .. } => if at > 0 {
                    copy is Continuation
                } else {
                    &&& copy matches RowCopy::Group(copied)
                    &&& exists|text: Seq<char>| #[trigger]
                        slices_to(*self.slice, range, text) && copied@ == without_line_end(text)
                },
                _ => copy is Own,
            },
            _ => copy is Own,
        }
    }

    /// How a row of parsed Markdown is copied.
    pub fn row_copy(&self, nodes: &Vec<MarkdownNode>, row: FlowRow) -> (copy: RowCopy)
        requires
            self.wf(),
        ensures
            self.is_row_copy(nodes@, row, copy),
    {
        if let FlowRow::Table { node, row: at, .. } = row {
            if node < nodes.len() {
                if let MarkdownNode::Table { range, .. } = &nodes[node] {
                    if at > 0 {
                        return RowCopy::Continuation;
                    }
                    let text = (self.slice)(range.start, range.end);
                    proof {
                        assert(slices_to(*self.slice, *range, text@));
                    }
                    return RowCopy::Group(table_copy_text(text.as_str()));
                }
            }
        }
        RowCopy::Own
    }

    /// Rows of parsed Markdown.
    pub fn measure_markdown_block(
        &self,
        nodes: &Vec<MarkdownNode>,
        place: &MarkdownPlace<'_>,
    ) -> (rows: usize)
        requires
            self.wf(),
        ensures
            exists|flows: Seq<FlowNode>| #[trigger]
                self.are_flows(nodes@, *place, flows) && rows == after_doc(
                    FlowState::start(),
                    flows,
                ).rows,
    {
        let flows = self.flow_nodes(nodes, place);
        measure_markdown_inner_with_options(&flows)
    }

    /// Draws rows of parsed Markdown; `None` where it has more rows than a machine can count.
    pub fn render_markdown_block(
        &self,
        nodes: &Vec<MarkdownNode>,
        place: &MarkdownPlace<'_>,
        clip: Option<RowClip>,
    ) -> (rows: Option<Vec<FlowRow>>)
        requires
            self.wf(),
        ensures
            exists|flows: Seq<FlowNode>| #[trigger]
                self.are_flows(nodes@, *place, flows) && {
                    &&& rows is None == (after_doc(FlowState::start(), flows).rows == usize::MAX)
                    &&& rows matches Some(rows) ==> rows@ == crate::markdown_flow::clipped(
                        doc_rows(FlowState::start(), flows, 0, flows.len() as int),
                        0,
                        clip,
                    )
                },
    {
        let flows = self.flow_nodes(nodes, place);
        let ghost all = flows@;
        if measure_markdown_inner_with_options(&flows) == usize::MAX {
            proof {
                assert(self.are_flows(nodes@, *place, all));
            }
            return None;
        }
        let mut docs: Vec<Vec<FlowNode>> = Vec::new();
        docs.push(flows);
        proof {
            let s = FlowState::start();
            reveal_with_fuel(crate::markdown_flow::docs_state, 2);
            reveal_with_fuel(crate::markdown_flow::docs_rows, 2);
            assert(crate::markdown_flow::docs_rows(s, docs@, 0, 1) =~= doc_rows(
                s,
                all,
                0,
                all.len() as int,
            ));
            assert(self.are_flows(nodes@, *place, all));
        }
        Some(render_markdown_docs_from_state(&docs, 0, clip, FlowState::new()))
    }
}

/// What row `row` of a line is drawn with: in its box, or behind its indent.
pub open spec fn line_row_steps(
    line: usize,
    row: int,
    cells: usize,
    boxed: bool,
    indent: Seq<char>,
) -> Seq<LineStep> {
    seq![LineStep::Row { continuation: row > 0 }] + op_if(boxed, LineStep::BoxLeft) + op_if(
        !boxed,
        LineStep::Print(indent),
    ) + seq![LineStep::InlineRow { line, row: row as usize }] + op_if(
        boxed,
        LineStep::BoxRight { cells },
    ) + seq![LineStep::Newline]
}

/// What the rows of a line from `row` on are drawn with, where the first is row `at` of the
/// text. Behind the last row to be drawn, the line is not gone on with.
pub open spec fn line_walk_steps(
    line: usize,
    cells: Seq<usize>,
    row: int,
    at: usize,
    boxed: bool,
    indent: Seq<char>,
    clip: Option<RowClip>,
) -> Seq<LineStep>
    decreases cells.len() - row,
{
    if row < 0 || row >= cells.len() {
        Seq::empty()
    } else {
        let own = if emits(clip, at as int) {
            line_row_steps(line, row, cells[row], boxed, indent)
        } else {
            Seq::empty()
        };
        let next = at.saturating_add(1);
        if clip matches Some(clip) && next >= clip.end {
            own
        } else {
            own + line_walk_steps(line, cells, row + 1, next, boxed, indent, clip)
        }
    }
}

/// The row of the text behind those of a line that were gone through.
pub open spec fn line_walk_end(cells: Seq<usize>, row: int, at: usize, clip: Option<RowClip>) -> usize
    decreases cells.len() - row,
{
    if row < 0 || row >= cells.len() {
        at
    } else {
        let next = at.saturating_add(1);
        if clip matches Some(clip) && next >= clip.end {
            next
        } else {
            line_walk_end(cells, row + 1, next, clip)
        }
    }
}

fn add_line_row(
    ops: &mut Vec<LineOp>,
    line: usize,
    row: usize,
    cells: usize,
    boxed: bool,
    indent: &str,
)
    ensures
        steps(final(ops)@) == steps(old(ops)@) + line_row_steps(
            line,
            row as int,
            cells,
            boxed,
            indent@,
        ),
{
    let ghost before = steps(ops@);
    let ghost a = seq![LineStep::Row { continuation: row > 0 }];
    let ghost b = op_if(boxed, LineStep::BoxLeft);
    let ghost c = op_if(!boxed, LineStep::Print(indent@));
    let ghost d = seq![LineStep::InlineRow { line, row }];
    let ghost e = op_if(boxed, LineStep::BoxRight { cells });
    let ghost f = seq![LineStep::Newline];
    add_op(ops, LineOp::Row { continuation: row > 0 });
    add_op_if(ops, boxed, LineOp::BoxLeft);
    add_op_if(ops, !boxed, LineOp::Print(String::from_str(indent)));
    add_op(ops, LineOp::InlineRow { line, row });
    add_op_if(ops, boxed, LineOp::BoxRight { cells });
    add_op(ops, LineOp::Newline);
    proof {
        lemma_behind(before, a, b);
        lemma_behind(before, a + b, c);
        lemma_behind(before, a + b + c, d);
        lemma_behind(before, a + b + c + d, e);
        lemma_behind(before, a + b + c + d + e, f);
    }
}

/// Draws the rows of line `line` that lie in the range, in its box or behind its indent;
/// `cells` are the columns that each of its rows takes.
pub fn render_markdown_line(
    line: usize,
    cells: &Vec<usize>,
    boxed: bool,
    indent: &str,
    clip: Option<RowClip>,
    state: &mut FlowState,
) -> (ops: Vec<LineOp>)
    ensures
        steps(ops@) == op_if(cells@.len() > 1, LineStep::MarkWrapped) + line_walk_steps(
            line,
            cells@,
            0,
            old(state).rows,
            boxed,
            indent@,
            clip,
        ),
        *final(state) == (FlowState {
            rows: line_walk_end(cells@, 0, old(state).rows, clip),
            ..*old(state)
        }),
{
    let ghost first = *state;
    let mut ops: Vec<LineOp> = Vec::new();
    proof {
        assert(steps(ops@) =~= Seq::<LineStep>::empty());
    }
    add_op_if(&mut ops, cells.len() > 1, LineOp::MarkWrapped);
    let ghost all = steps(ops@) + line_walk_steps(
        line,
        cells@,
        0,
        first.rows,
        boxed,
        indent@,
        clip,
    );
    let mut row: usize = 0;
    while row < cells.len()
        invariant_except_break
            row <= cells@.len(),
            *state == (FlowState { rows: state.rows, ..first }),
            all == steps(ops@) + line_walk_steps(
                line,
                cells@,
                row as int,
                state.rows,
                boxed,
                indent@,
                clip,
            ),
            line_walk_end(cells@, row as int, state.rows, clip) == line_walk_end(
                cells@,
                0,
                first.rows,
                clip,
            ),
        ensures
            all == steps(ops@),
            *state == (FlowState {
                rows: line_walk_end(cells@, 0, first.rows, clip),
                ..first
            }),
        decreases cells@.len() - row,
    {
        let ghost before = steps(ops@);
        let ghost at = state.rows;
        let ghost own = if emits(clip, at as int) {
            line_row_steps(line, row as int, cells@[row as int], boxed, indent@)
        } else {
            Seq::empty()
        };
        if should_emit(clip, state.rows) {
            add_line_row(&mut ops, line, row, cells[row], boxed, indent);
        }
        proof {
            assert(steps(ops@) =~= before + own);
        }
        state.rows = state.rows.saturating_add(1);
        if let Some(clip) = clip {
            if state.rows >= clip.end {
                break ;
            }
        }
        proof {
            let rest = line_walk_steps(
                line,
                cells@,
                row + 1,
                state.rows,
                boxed,
                indent@,
                clip,
            );
            assert(before + own + rest =~= before + (own + rest));
        }
        row += 1;
    }
    proof {
        assert(all =~= op_if(cells@.len() > 1, LineStep::MarkWrapped) + line_walk_steps(
            line,
            cells@,
            0,
            first.rows,
            boxed,
            indent@,
            clip,
        ));
    }
    ops
}

} // verus!
