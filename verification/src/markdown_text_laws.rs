//! How the lines of a Markdown text follow each other, how texts follow texts, and what becomes
//! of spans, tables and rows.
use vstd::prelude::*;
use crate::chars::is_white;
use crate::line_ops::LineStep;
use crate::markdown_digest::{line_row_steps, line_walk_steps, without_line_end};
use crate::markdown_flow::{
    after_doc, after_line, at_blank_lines, before_line, blank_rows, doc_rows, doc_state, docs_rows,
    docs_state, lemma_next_text, line_rows, next_text, node_rows, walk_rows, FlowLine, FlowNode,
    FlowRow, FlowState, MarkdownTextKind, RowClip,
};
use crate::markdown_spans::{
    line_spans, plain_style, restyled_spans, trimmed, white_end, MarkdownSpanView,
};

verus! {

/// A text has begun: something of it is shown, and it is what was shown last.
pub open spec fn has_begun(s: FlowState, kind: MarkdownTextKind) -> bool {
    &&& s.rows > 0
    &&& !s.prev_was_block
    &&& !s.pending_blank
    &&& s.last_content_was_heading == (kind is Heading)
}

/// Line `j` is the next line behind line `i` that is not blank.
pub open spec fn is_next_line(lines: Seq<FlowLine>, i: int, j: int) -> bool {
    &&& i < j < lines.len()
    &&& !lines[j].blank
    &&& forall|k: int| i < k < j ==> (#[trigger] lines[k]).blank
}

proof fn lemma_next(lines: Seq<FlowLine>, i: int, j: int)
    requires
        0 <= i <= j < lines.len(),
        !lines[j].blank,
        forall|k: int| i <= k < j ==> (#[trigger] lines[k]).blank,
    ensures
        next_text(lines, i) == j,
    decreases j - i,
{
    if i < j {
        lemma_next(lines, i + 1, j);
    }
}

/// Once a text has begun, two lines of it that follow each other stand right below each other,
/// unless blank lines are between them: then one blank row is, but not in a heading and not
/// before an item of a list. However many blank lines there are, there is one row.
pub proof fn lines_stand_apart_where_blank_lines_are(
    lines: Seq<FlowLine>,
    kind: MarkdownTextKind,
    i: int,
    j: int,
    s: FlowState,
    doc: int,
    node: int,
)
    requires
        0 <= i,
        is_next_line(lines, i, j),
        !lines[i].blank,
        has_begun(s, kind),
        s.rows + lines[i].rows@.len() < usize::MAX,
    ensures
        exists|t: FlowState| #[trigger]
            has_begun(t, kind) && walk_rows(lines, kind, i, true, s, doc, node) == line_rows(
                lines[i],
                doc,
                node,
                i,
            ) + (if j > i + 1 && !(kind is Heading) && !lines[j].list_item {
                seq![FlowRow::Blank]
            } else {
                Seq::empty()
            }) + walk_rows(lines, kind, j, true, t, doc, node),
{
    let own = line_rows(lines[i], doc, node, i);
    assert(blank_rows(0) =~= Seq::<FlowRow>::empty());
    let after = after_line(s, kind, lines[i].rows@.len() as int);
    assert(before_line(s, kind, true) == s);
    assert(blank_rows(0) + own =~= own);
    assert(walk_rows(lines, kind, i, true, s, doc, node) == own + walk_rows(
        lines,
        kind,
        i + 1,
        true,
        after,
        doc,
        node,
    ));
    assert(has_begun(after, kind));
    if j == i + 1 {
        assert(own + Seq::<FlowRow>::empty() =~= own);
    } else {
        assert(lines[i + 1].blank);
        lemma_next(lines, i + 2, j);
        let at = at_blank_lines(after, lines, j);
        assert(walk_rows(lines, kind, i + 1, true, after, doc, node) == walk_rows(
            lines,
            kind,
            j,
            true,
            at,
            doc,
            node,
        ));
        if !(kind is Heading) && !lines[j].list_item {
            let t = after.after_blank();
            assert(has_begun(t, kind));
            assert(before_line(at, kind, true) == t);
            assert(before_line(t, kind, true) == t);
            let below = line_rows(lines[j], doc, node, j);
            let rest = walk_rows(
                lines,
                kind,
                j + 1,
                true,
                after_line(t, kind, lines[j].rows@.len() as int),
                doc,
                node,
            );
            assert(blank_rows(1) =~= seq![FlowRow::Blank]);
            assert(walk_rows(lines, kind, j, true, at, doc, node) == blank_rows(1) + below + rest);
            assert(walk_rows(lines, kind, j, true, t, doc, node) == blank_rows(0) + below + rest);
            assert(blank_rows(1) + below + rest =~= seq![FlowRow::Blank] + (blank_rows(0) + below
                + rest));
            assert(own + (seq![FlowRow::Blank] + walk_rows(lines, kind, j, true, t, doc, node))
                =~= own + seq![FlowRow::Blank] + walk_rows(lines, kind, j, true, t, doc, node));
        } else {
            assert(at == after);
            assert(own + Seq::<FlowRow>::empty() =~= own);
        }
    }
}

/// Which of some rows are blank.
pub open spec fn gaps(rows: Seq<FlowRow>) -> Seq<bool> {
    rows.map_values(|row: FlowRow| row is Blank)
}

proof fn lemma_gaps_concat(a: Seq<FlowRow>, b: Seq<FlowRow>)
    ensures
        gaps(a + b) == gaps(a) + gaps(b),
{
    assert(gaps(a + b) =~= gaps(a) + gaps(b));
}

proof fn lemma_walk_gaps(
    lines: Seq<FlowLine>,
    kind: MarkdownTextKind,
    i: int,
    started: bool,
    s: FlowState,
    a: (int, int),
    b: (int, int),
)
    requires
        0 <= i,
    ensures
        gaps(walk_rows(lines, kind, i, started, s, a.0, a.1)) == gaps(
            walk_rows(lines, kind, i, started, s, b.0, b.1),
        ),
    decreases lines.len() - i,
{
    if i < lines.len() {
        if lines[i].blank {
            lemma_next_text(lines, i + 1);
            let next = next_text(lines, i + 1);
            lemma_walk_gaps(lines, kind, next, started, at_blank_lines(s, lines, next), a, b);
        } else {
            let at = before_line(s, kind, started);
            let blanks = blank_rows(at.rows - s.rows);
            let next = after_line(at, kind, lines[i].rows@.len() as int);
            let one = line_rows(lines[i], a.0, a.1, i);
            let two = line_rows(lines[i], b.0, b.1, i);
            lemma_walk_gaps(lines, kind, i + 1, true, next, a, b);
            assert(gaps(one) =~= gaps(two));
            lemma_gaps_concat(blanks, one);
            lemma_gaps_concat(blanks, two);
            lemma_gaps_concat(
                blanks + one,
                walk_rows(lines, kind, i + 1, true, next, a.0, a.1),
            );
            lemma_gaps_concat(
                blanks + two,
                walk_rows(lines, kind, i + 1, true, next, b.0, b.1),
            );
        }
    }
}

proof fn lemma_node_gaps(s: FlowState, node: FlowNode, a: (int, int), b: (int, int))
    ensures
        gaps(node_rows(s, node, a.0, a.1)) == gaps(node_rows(s, node, b.0, b.1)),
{
    match node {
        FlowNode::Text { kind, lines } => {
            lemma_walk_gaps(lines@, kind, 0, false, s, a, b);
        },
        _ => {
            assert(gaps(node_rows(s, node, a.0, a.1)) =~= gaps(node_rows(s, node, b.0, b.1)));
        },
    }
}

proof fn lemma_doc_gaps(
    s: FlowState,
    before: Seq<FlowNode>,
    nodes: Seq<FlowNode>,
    doc: int,
    n: int,
)
    requires
        0 <= n <= nodes.len(),
    ensures
        doc_state(s, before + nodes, before.len() + n) == doc_state(after_doc(s, before), nodes, n),
        gaps(doc_rows(s, before + nodes, 0, before.len() + n)) == gaps(
            doc_rows(s, before, 0, before.len() as int),
        ) + gaps(doc_rows(after_doc(s, before), nodes, doc, n)),
    decreases n,
{
    let all = before + nodes;
    let m = before.len() as int;
    if n == 0 {
        lemma_same_nodes(s, all, before, m);
        let rows = doc_rows(s, before, 0, m);
        assert(gaps(rows) + gaps(doc_rows(after_doc(s, before), nodes, doc, 0)) =~= gaps(rows));
    } else {
        lemma_doc_gaps(s, before, nodes, doc, n - 1);
        assert(all[m + n - 1] == nodes[n - 1]);
        let at = doc_state(after_doc(s, before), nodes, n - 1);
        lemma_node_gaps(at, nodes[n - 1], (0, m + n - 1), (doc, n - 1));
        lemma_gaps_concat(
            doc_rows(s, all, 0, m + n - 1),
            node_rows(at, nodes[n - 1], 0, m + n - 1),
        );
        lemma_gaps_concat(
            doc_rows(after_doc(s, before), nodes, doc, n - 1),
            node_rows(at, nodes[n - 1], doc, n - 1),
        );
        let x = gaps(doc_rows(s, before, 0, m));
        let y = gaps(doc_rows(after_doc(s, before), nodes, doc, n - 1));
        let z = gaps(node_rows(at, nodes[n - 1], doc, n - 1));
        assert(x + y + z =~= x + (y + z));
    }
}

proof fn lemma_same_nodes(s: FlowState, a: Seq<FlowNode>, b: Seq<FlowNode>, n: int)
    requires
        0 <= n <= a.len(),
        n <= b.len(),
        forall|i: int| 0 <= i < n ==> a[i] == b[i],
    ensures
        doc_state(s, a, n) == doc_state(s, b, n),
        doc_rows(s, a, 0, n) == doc_rows(s, b, 0, n),
    decreases n,
{
    if n > 0 {
        lemma_same_nodes(s, a, b, n - 1);
    }
}

/// The parts of several texts, one text behind the other.
pub open spec fn all_nodes(docs: Seq<Vec<FlowNode>>, n: int) -> Seq<FlowNode>
    decreases n,
{
    if n <= 0 {
        Seq::empty()
    } else {
        all_nodes(docs, n - 1) + docs[n - 1]@
    }
}

/// Several texts that follow each other take the rows, and have the blank rows, of one text of
/// all their parts.
pub proof fn texts_flow_as_one(s: FlowState, docs: Seq<Vec<FlowNode>>, first: int, n: int)
    requires
        0 <= n <= docs.len(),
    ensures
        docs_state(s, docs, n) == after_doc(s, all_nodes(docs, n)),
        gaps(docs_rows(s, docs, first, n)) == gaps(
            doc_rows(s, all_nodes(docs, n), 0, all_nodes(docs, n).len() as int),
        ),
    decreases n,
{
    if n > 0 {
        texts_flow_as_one(s, docs, first, n - 1);
        let before = all_nodes(docs, n - 1);
        let nodes = docs[n - 1]@;
        lemma_doc_gaps(s, before, nodes, first + n - 1, nodes.len() as int);
        lemma_gaps_concat(
            docs_rows(s, docs, first, n - 1),
            doc_rows(after_doc(s, before), nodes, first + n - 1, nodes.len() as int),
        );
    }
}

/// The text of a span never changes by the kind of text that it is in; its style does: what is
/// in a heading is bold and of a heading, what is in a quote is dim and italic, and all of it
/// is dim where the text is. What else a span is stays.
pub proof fn kind_of_text_styles_its_spans(
    spans: Seq<MarkdownSpanView>,
    kind: MarkdownTextKind,
    dim: bool,
    i: int,
)
    requires
        0 <= i < spans.len(),
    ensures
        ({
            let shown = restyled_spans(spans, kind, dim);
            &&& shown.len() == spans.len()
            &&& shown[i].text == spans[i].text
            &&& shown[i].meta == spans[i].meta
            &&& shown[i].style.other == spans[i].style.other
            &&& shown[i].style.bold == (spans[i].style.bold || kind is Heading)
            &&& shown[i].style.heading == (spans[i].style.heading || kind is Heading)
            &&& shown[i].style.italic == (spans[i].style.italic || kind is BlockQuote)
            &&& shown[i].style.dim == (spans[i].style.dim || dim || kind is BlockQuote)
        }),
{
}

/// A line shows the white space that it begins with and, if it is an item, what makes it one,
/// dim, before its spans; a heading and a quote show their spans alone.
pub proof fn line_shows_its_indent_before_its_spans(
    line: Seq<char>,
    prefix: Seq<char>,
    base: Seq<MarkdownSpanView>,
    kind: MarkdownTextKind,
    dim: bool,
)
    ensures
        ({
            let shown = line_spans(line, prefix, base, kind, dim);
            let indent = line.len() - trimmed(line).len();
            let plain = kind is Heading || kind is BlockQuote;
            let first: int = if !plain && indent > 0 {
                1
            } else {
                0
            };
            let second: int = if kind is List && prefix.len() > 0 {
                1
            } else {
                0
            };
            &&& shown.len() == first + second + base.len()
            &&& first == 1 ==> shown[0].text == line.take(indent as int) && shown[0].style
                == plain_style(dim)
            &&& second == 1 ==> shown[first].text == prefix && shown[first].style.dim
            &&& forall|i: int|
                0 <= i < base.len() ==> #[trigger] shown[first + second + i].text == base[i].text
            &&& forall|k: int| 0 <= k < indent ==> is_white(#[trigger] line[k])
            &&& trimmed(line).len() > 0 ==> !is_white(trimmed(line)[0])
            &&& line.take(indent as int) + trimmed(line) == line
        }),
{
    lemma_white(line, 0);
    let n = white_end(line, 0);
    assert(line.take(n) + line.skip(n) =~= line);
    let shown = line_spans(line, prefix, base, kind, dim);
    let indent = line.len() - trimmed(line).len();
    assert(indent == n);
    let plain = kind is Heading || kind is BlockQuote;
    let first: int = if !plain && indent > 0 {
        1
    } else {
        0
    };
    let second: int = if kind is List && prefix.len() > 0 {
        1
    } else {
        0
    };
    let spans = restyled_spans(base, kind, dim);
    assert forall|i: int| 0 <= i < base.len() implies #[trigger] shown[first + second + i].text
        == base[i].text by {
        assert(shown[first + second + i] == spans[i]);
    }
}

proof fn lemma_white(text: Seq<char>, i: int)
    requires
        0 <= i <= text.len(),
    ensures
        i <= white_end(text, i) <= text.len(),
        forall|k: int| i <= k < white_end(text, i) ==> is_white(#[trigger] text[k]),
        white_end(text, i) < text.len() ==> !is_white(text[white_end(text, i)]),
    decreases text.len() - i,
{
    if i < text.len() && is_white(text[i]) {
        lemma_white(text, i + 1);
    }
}

/// A table is copied as its source up to the line ends behind it: these are left out, all of
/// them, and nothing else is.
pub proof fn table_is_copied_without_its_line_ends(text: Seq<char>)
    ensures
        ({
            let copy = without_line_end(text);
            &&& copy.is_prefix_of(text)
            &&& copy.len() > 0 ==> copy.last() != '\n' && copy.last() != '\r'
            &&& forall|k: int|
                copy.len() <= k < text.len() ==> (#[trigger] text[k] == '\n' || text[k] == '\r')
        }),
    decreases text.len(),
{
    if text.len() > 0 && (text.last() == '\r' || text.last() == '\n') {
        table_is_copied_without_its_line_ends(text.drop_last());
        let copy = without_line_end(text);
        assert forall|k: int| copy.len() <= k < text.len() implies (#[trigger] text[k] == '\n'
            || text[k] == '\r') by {
            if k < text.len() - 1 {
                assert(text.drop_last()[k] == text[k]);
            }
        }
    }
}

/// Of the rows of a line just those that lie in the range are drawn, in their order.
pub proof fn rows_of_a_line_are_drawn_in_range(
    line: usize,
    cells: Seq<usize>,
    row: int,
    at: usize,
    boxed: bool,
    indent: Seq<char>,
    clip: Option<RowClip>,
)
    requires
        0 <= row <= cells.len(),
        at + cells.len() - row < usize::MAX,
    ensures
        line_walk_steps(line, cells, row, at, boxed, indent, clip) == Seq::new(
            (cells.len() - row) as nat,
            |k: int|
                if clip is None || clip->0.start <= at + k < clip->0.end {
                    line_row_steps(line, row + k, cells[row + k], boxed, indent)
                } else {
                    Seq::empty()
                },
        ).flatten(),
    decreases cells.len() - row,
{
    let parts = Seq::new(
        (cells.len() - row) as nat,
        |k: int|
            if clip is None || clip->0.start <= at + k < clip->0.end {
                line_row_steps(line, row + k, cells[row + k], boxed, indent)
            } else {
                Seq::empty()
            },
    );
    if row < cells.len() {
        let next = at.saturating_add(1);
        rows_of_a_line_are_drawn_in_range(line, cells, row + 1, next, boxed, indent, clip);
        let rest = Seq::new(
            (cells.len() - (row + 1)) as nat,
            |k: int|
                if clip is None || clip->0.start <= next + k < clip->0.end {
                    line_row_steps(line, row + 1 + k, cells[row + 1 + k], boxed, indent)
                } else {
                    Seq::empty()
                },
        );
        assert(parts.drop_first() =~= rest);
        let own = parts[0];
        assert(parts.flatten() == own + rest.flatten());
        if clip is Some && next >= clip->0.end {
            lemma_nothing(rest);
            assert(own + rest.flatten() =~= own);
        }
    } else {
        assert(parts =~= Seq::<Seq<LineStep>>::empty());
    }
}

proof fn lemma_nothing(parts: Seq<Seq<LineStep>>)
    requires
        forall|k: int| 0 <= k < parts.len() ==> (#[trigger] parts[k]).len() == 0,
    ensures
        parts.flatten() == Seq::<LineStep>::empty(),
    decreases parts.len(),
{
    if parts.len() > 0 {
        assert(parts[0].len() == 0);
        assert forall|k: int| 0 <= k < parts.drop_first().len() implies (
        #[trigger] parts.drop_first()[k]).len() == 0 by {
            assert(parts.drop_first()[k] == parts[k + 1]);
        }
        lemma_nothing(parts.drop_first());
        assert(parts.flatten() =~= Seq::<LineStep>::empty());
    }
}

} // verus!
