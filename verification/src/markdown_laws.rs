//! What holds of drawing a Markdown text in parts.
use vstd::prelude::*;
use crate::markdown_flow::{
    after_doc, after_line, at_blank_lines, before_line, blank_rows, block_gap, doc_rows, doc_state,
    docs_rows, docs_state, lemma_doc, lemma_docs, lemma_next_text, lemma_node, lemma_walk,
    line_rows, next_text, node_rows, node_state, walk_rows, walk_state, FlowLine, FlowNode, FlowRow,
    FlowState, MarkdownTextKind,
};
use crate::markdown_retained::{
    all_rows, cut, doc_of, docs_between, drawing_can_start_at_any_text, head_docs, is_edge,
    lemma_docs_rows_same, measured_rows, tail_docs, whole, RetainedMarkdownEdge,
};

verus! {

/// The parts of the first `n` of several texts, one behind the other.
pub open spec fn parts_of(docs: Seq<Vec<FlowNode>>, n: int) -> Seq<FlowNode>
    decreases n,
{
    if n <= 0 {
        Seq::empty()
    } else {
        parts_of(docs, n - 1) + docs[n - 1]@
    }
}

/// A row of part `node` of text `doc`.
pub open spec fn row_of(row: FlowRow, doc: usize, node: usize) -> FlowRow {
    match row {
        FlowRow::Blank => FlowRow::Blank,
        FlowRow::Line { line, segment, visible, .. } => FlowRow::Line {
            doc,
            node,
            line,
            segment,
            visible,
        },
        FlowRow::Code { row, visible, .. } => FlowRow::Code { doc, node, row, visible },
        FlowRow::Table { row, visible, .. } => FlowRow::Table { doc, node, row, visible },
        FlowRow::Rule { .. } => FlowRow::Rule { doc, node },
    }
}

/// The text and the part that a row is of.
pub open spec fn place_of(row: FlowRow) -> Option<(usize, usize)> {
    match row {
        FlowRow::Blank => None,
        FlowRow::Line { doc, node, .. } => Some((doc, node)),
        FlowRow::Code { doc, node, .. } => Some((doc, node)),
        FlowRow::Table { doc, node, .. } => Some((doc, node)),
        FlowRow::Rule { doc, node } => Some((doc, node)),
    }
}

/// The row, were all texts one.
pub open spec fn in_one_text(docs: Seq<Vec<FlowNode>>, row: FlowRow) -> FlowRow {
    match place_of(row) {
        None => row,
        Some((doc, node)) => row_of(
            row,
            0,
            (parts_of(docs, doc as int).len() + node) as usize,
        ),
    }
}

proof fn lemma_walk_moved(
    docs: Seq<Vec<FlowNode>>,
    lines: Seq<FlowLine>,
    kind: MarkdownTextKind,
    i: int,
    started: bool,
    s: FlowState,
    doc: usize,
    node: usize,
)
    requires
        0 <= i <= lines.len(),
        parts_of(docs, doc as int).len() + node <= usize::MAX,
    ensures
        ({
            let to = parts_of(docs, doc as int).len() + node;
            walk_rows(lines, kind, i, started, s, 0, to) == walk_rows(
                lines,
                kind,
                i,
                started,
                s,
                doc as int,
                node as int,
            ).map_values(|row: FlowRow| in_one_text(docs, row))
        }),
    decreases lines.len() - i,
{
    let to = parts_of(docs, doc as int).len() + node;
    let moved = |row: FlowRow| in_one_text(docs, row);
    let here = walk_rows(lines, kind, i, started, s, doc as int, node as int);
    let there = walk_rows(lines, kind, i, started, s, 0, to);
    if i < lines.len() {
        if lines[i].blank {
            let next = next_text(lines, i + 1);
            lemma_next_text(lines, i + 1);
            lemma_walk_moved(
                docs,
                lines,
                kind,
                next,
                started,
                at_blank_lines(s, lines, next),
                doc,
                node,
            );
        } else {
            let at = before_line(s, kind, started);
            let after = after_line(at, kind, lines[i].rows@.len() as int);
            lemma_walk_moved(docs, lines, kind, i + 1, true, after, doc, node);
            let gap = blank_rows(at.rows - s.rows);
            let own = line_rows(lines[i], doc as int, node as int, i);
            let rest = walk_rows(lines, kind, i + 1, true, after, doc as int, node as int);
            assert(gap.map_values(moved) =~= gap);
            assert(own.map_values(moved) =~= line_rows(lines[i], 0, to, i));
            assert((gap + own + rest).map_values(moved) =~= gap.map_values(moved) + own.map_values(
                moved,
            ) + rest.map_values(moved));
        }
    }
    assert(there =~= here.map_values(moved));
}

proof fn lemma_node_moved(
    docs: Seq<Vec<FlowNode>>,
    s: FlowState,
    part: FlowNode,
    doc: usize,
    node: usize,
)
    requires
        parts_of(docs, doc as int).len() + node <= usize::MAX,
    ensures
        node_rows(s, part, 0, parts_of(docs, doc as int).len() + node) == node_rows(
            s,
            part,
            doc as int,
            node as int,
        ).map_values(|row: FlowRow| in_one_text(docs, row)),
{
    let to = parts_of(docs, doc as int).len() + node;
    let moved = |row: FlowRow| in_one_text(docs, row);
    if let FlowNode::Text { kind, lines } = part {
        lemma_walk_moved(docs, lines@, kind, 0, false, s, doc, node);
    } else {
        assert(node_rows(s, part, 0, to) =~= node_rows(
            s,
            part,
            doc as int,
            node as int,
        ).map_values(moved));
    }
}

proof fn lemma_doc_moved(
    docs: Seq<Vec<FlowNode>>,
    all: Seq<FlowNode>,
    s: FlowState,
    doc: usize,
    n: int,
)
    requires
        doc < docs.len(),
        0 <= n <= docs[doc as int]@.len(),
        parts_of(docs, doc as int).len() + n <= all.len() <= usize::MAX,
        forall|i: int|
            0 <= i < n ==> all[parts_of(docs, doc as int).len() + i] == #[trigger] docs[doc as int]@[i],
    ensures
        ({
            let from = parts_of(docs, doc as int).len() as int;
            let mid = doc_state(s, all, from);
            &&& doc_state(s, all, from + n) == doc_state(mid, docs[doc as int]@, n)
            &&& doc_rows(s, all, 0, from + n) == doc_rows(s, all, 0, from) + doc_rows(
                mid,
                docs[doc as int]@,
                doc as int,
                n,
            ).map_values(|row: FlowRow| in_one_text(docs, row))
        }),
    decreases n,
{
    let nodes = docs[doc as int]@;
    let from = parts_of(docs, doc as int).len() as int;
    let mid = doc_state(s, all, from);
    let moved = |row: FlowRow| in_one_text(docs, row);
    if n > 0 {
        lemma_doc_moved(docs, all, s, doc, n - 1);
        let t = doc_state(mid, nodes, n - 1);
        assert(all[from + n - 1] == nodes[n - 1]);
        lemma_node_moved(docs, t, nodes[n - 1], doc, (n - 1) as usize);
        let before = doc_rows(mid, nodes, doc as int, n - 1);
        let own = node_rows(t, nodes[n - 1], doc as int, n - 1);
        assert((before + own).map_values(moved) =~= before.map_values(moved) + own.map_values(
            moved,
        ));
        assert(doc_rows(s, all, 0, from + n) =~= doc_rows(s, all, 0, from) + (before
            + own).map_values(moved));
    } else {
        assert(doc_rows(s, all, 0, from) =~= doc_rows(s, all, 0, from) + doc_rows(
            mid,
            nodes,
            doc as int,
            0,
        ).map_values(moved));
    }
}

proof fn lemma_parts_prefix(docs: Seq<Vec<FlowNode>>, n: int, m: int)
    requires
        0 <= n <= m <= docs.len(),
    ensures
        parts_of(docs, n).len() <= parts_of(docs, m).len(),
        forall|i: int|
            0 <= i < parts_of(docs, n).len() ==> #[trigger] parts_of(docs, m)[i] == parts_of(
                docs,
                n,
            )[i],
    decreases m - n,
{
    if n < m {
        lemma_parts_prefix(docs, n, m - 1);
    }
}

proof fn lemma_docs_moved(s: FlowState, docs: Seq<Vec<FlowNode>>, n: int)
    requires
        0 <= n <= docs.len() <= usize::MAX,
        parts_of(docs, docs.len() as int).len() <= usize::MAX,
    ensures
        ({
            let all = parts_of(docs, docs.len() as int);
            let len = parts_of(docs, n).len() as int;
            &&& doc_state(s, all, len) == docs_state(s, docs, n)
            &&& doc_rows(s, all, 0, len) == docs_rows(s, docs, 0, n).map_values(
                |row: FlowRow| in_one_text(docs, row),
            )
        }),
    decreases n,
{
    let all = parts_of(docs, docs.len() as int);
    let moved = |row: FlowRow| in_one_text(docs, row);
    if n > 0 {
        lemma_docs_moved(s, docs, n - 1);
        lemma_parts_prefix(docs, n, docs.len() as int);
        let nodes = docs[n - 1]@;
        let from = parts_of(docs, n - 1).len() as int;
        assert forall|i: int| 0 <= i < nodes.len() implies all[from + i] == #[trigger] nodes[i] by {
            assert(parts_of(docs, n)[from + i] == nodes[i]);
        }
        lemma_doc_moved(docs, all, s, (n - 1) as usize, nodes.len() as int);
        let before = docs_rows(s, docs, 0, n - 1);
        let own = doc_rows(docs_state(s, docs, n - 1), nodes, n - 1, nodes.len() as int);
        assert((before + own).map_values(moved) =~= before.map_values(moved) + own.map_values(
            moved,
        ));
    } else {
        assert(docs_rows(s, docs, 0, 0).map_values(moved) =~= Seq::<FlowRow>::empty());
    }
}

/// A Markdown text has the same rows however it is cut into texts that follow each other: they
/// are those of one text with all the parts.
pub proof fn cutting_a_text_changes_no_row(docs: Seq<Vec<FlowNode>>)
    requires
        docs.len() <= usize::MAX,
        parts_of(docs, docs.len() as int).len() <= usize::MAX,
    ensures
        ({
            let parts = parts_of(docs, docs.len() as int);
            &&& all_rows(docs).map_values(|row: FlowRow| in_one_text(docs, row)) == doc_rows(
                FlowState::start(),
                parts,
                0,
                parts.len() as int,
            )
            &&& docs_state(FlowState::start(), docs, docs.len() as int) == after_doc(
                FlowState::start(),
                parts,
            )
        }),
{
    lemma_docs_moved(FlowState::start(), docs, docs.len() as int);
}

/// Rows of a retained text are rows of the text as a whole, wherever it was cut into finished
/// texts and a suffix: a range of them is the same range of the rows that the text has in one
/// piece. This asks of the parser that it finds the same parts in the pieces, one behind the
/// other, as in the whole.
pub proof fn retained_range_is_cut_of_contiguous<
    D: Fn(usize, usize) -> Vec<FlowNode>,
    S: Fn(usize) -> Vec<FlowNode>,
>(
    doc_at: D,
    suffix: S,
    width: usize,
    count: usize,
    contiguous: Seq<FlowNode>,
    row_start: usize,
    row_count: usize,
)
    requires
        count < usize::MAX,
        contiguous == parts_of(whole(doc_at, suffix, width, count as int), count + 1),
        contiguous.len() <= usize::MAX,
    ensures
        ({
            let docs = whole(doc_at, suffix, width, count as int);
            let all = doc_rows(FlowState::start(), contiguous, 0, contiguous.len() as int);
            &&& measured_rows(docs) == after_doc(FlowState::start(), contiguous).rows
            &&& cut(all_rows(docs), row_start, row_count).map_values(
                |row: FlowRow| in_one_text(docs, row),
            ) == cut(all, row_start, row_count)
        }),
{
    let docs = whole(doc_at, suffix, width, count as int);
    assert(docs.len() == count + 1);
    cutting_a_text_changes_no_row(docs);
    let moved = |row: FlowRow| in_one_text(docs, row);
    let rows = all_rows(docs);
    assert(cut(rows, row_start, row_count).map_values(moved) =~= cut(
        rows.map_values(moved),
        row_start,
        row_count,
    ));
}

/// `rows` ends with `end`.
pub open spec fn ends_with(rows: Seq<FlowRow>, end: Seq<FlowRow>) -> bool {
    end.len() <= rows.len() && rows.skip(rows.len() - end.len()) == end
}

/// `f` is a state that was started afresh and `g` one with rows before that: once `f` has a
/// row, they differ in rows alone.
spec fn caught_up(f: FlowState, g: FlowState) -> bool {
    &&& f.rows <= g.rows
    &&& if f.rows > 0 {
        &&& f.last_content_was_heading == g.last_content_was_heading
        &&& f.pending_blank == g.pending_blank
        &&& f.prev_was_block == g.prev_was_block
    } else {
        &&& !f.pending_blank
        &&& f.prev_was_block ==> g.prev_was_block
    }
}

/// The rows `a` from `f` on, and `b` from `g` on: the same once `f` has a row, else `b` ends
/// with `a`.
spec fn rows_agree(f: FlowState, a: Seq<FlowRow>, b: Seq<FlowRow>) -> bool {
    ends_with(b, a) && (f.rows > 0 ==> a == b)
}

proof fn lemma_agree_concat(
    f: FlowState,
    mid: FlowState,
    a1: Seq<FlowRow>,
    b1: Seq<FlowRow>,
    a2: Seq<FlowRow>,
    b2: Seq<FlowRow>,
)
    requires
        rows_agree(f, a1, b1),
        rows_agree(mid, a2, b2),
        mid.rows == f.rows + a1.len(),
    ensures
        rows_agree(f, a1 + a2, b1 + b2),
{
    if mid.rows > 0 {
        let n = b1.len() - a1.len();
        assert((b1 + b2).skip(n) =~= b1.skip(n) + b2);
    } else {
        let n = b2.len() - a2.len();
        assert(a1 + a2 =~= a2);
        assert((b1 + b2).skip(b1.len() + n) =~= b2.skip(n));
    }
    if f.rows > 0 {
        assert(a1 + a2 =~= b1 + b2);
    }
}

proof fn lemma_line_agrees(
    f: FlowState,
    g: FlowState,
    kind: MarkdownTextKind,
    started: bool,
    own: Seq<FlowRow>,
)
    requires
        caught_up(f, g),
        after_line(before_line(g, kind, started), kind, own.len() as int).rows < usize::MAX,
    ensures
        ({
            let f1 = before_line(f, kind, started);
            let g1 = before_line(g, kind, started);
            &&& caught_up(
                after_line(f1, kind, own.len() as int),
                after_line(g1, kind, own.len() as int),
            )
            &&& after_line(f1, kind, own.len() as int).rows == f1.rows + own.len()
            &&& rows_agree(
                f,
                blank_rows(f1.rows - f.rows) + own,
                blank_rows(g1.rows - g.rows) + own,
            )
        }),
{
    let f1 = before_line(f, kind, started);
    let g1 = before_line(g, kind, started);
    let a = blank_rows(f1.rows - f.rows);
    let b = blank_rows(g1.rows - g.rows);
    assert(g1.rows + own.len() < usize::MAX);
    assert(f1.rows - f.rows <= g1.rows - g.rows);
    assert((b + own).skip(b.len() - a.len()) =~= a + own);
}

proof fn lemma_walk_agrees(
    lines: Seq<FlowLine>,
    kind: MarkdownTextKind,
    i: int,
    started: bool,
    f: FlowState,
    g: FlowState,
    doc: int,
    node: int,
)
    requires
        0 <= i <= lines.len(),
        caught_up(f, g),
        walk_state(lines, kind, i, started, g).rows < usize::MAX,
    ensures
        caught_up(walk_state(lines, kind, i, started, f), walk_state(lines, kind, i, started, g)),
        rows_agree(
            f,
            walk_rows(lines, kind, i, started, f, doc, node),
            walk_rows(lines, kind, i, started, g, doc, node),
        ),
    decreases lines.len() - i,
{
    let a = walk_rows(lines, kind, i, started, f, doc, node);
    let b = walk_rows(lines, kind, i, started, g, doc, node);
    if i >= lines.len() {
        assert(b.skip(0) =~= a);
    } else if lines[i].blank {
        let next = next_text(lines, i + 1);
        lemma_next_text(lines, i + 1);
        lemma_walk_agrees(
            lines,
            kind,
            next,
            started,
            at_blank_lines(f, lines, next),
            at_blank_lines(g, lines, next),
            doc,
            node,
        );
    } else {
        let own = line_rows(lines[i], doc, node, i);
        let n = lines[i].rows@.len() as int;
        let f1 = before_line(f, kind, started);
        let g1 = before_line(g, kind, started);
        let f2 = after_line(f1, kind, n);
        let g2 = after_line(g1, kind, n);
        lemma_walk(lines, kind, i + 1, true, g2, doc, node);
        lemma_line_agrees(f, g, kind, started, own);
        lemma_walk_agrees(lines, kind, i + 1, true, f2, g2, doc, node);
        let a1 = blank_rows(f1.rows - f.rows) + own;
        let b1 = blank_rows(g1.rows - g.rows) + own;
        let a2 = walk_rows(lines, kind, i + 1, true, f2, doc, node);
        let b2 = walk_rows(lines, kind, i + 1, true, g2, doc, node);
        crate::markdown_flow::lemma_before_line(f, kind, started);
        lemma_agree_concat(f, f2, a1, b1, a2, b2);
    }
}

proof fn lemma_node_agrees(f: FlowState, g: FlowState, part: FlowNode, doc: int, node: int)
    requires
        caught_up(f, g),
        node_state(g, part).rows < usize::MAX,
    ensures
        caught_up(node_state(f, part), node_state(g, part)),
        rows_agree(f, node_rows(f, part, doc, node), node_rows(g, part, doc, node)),
{
    if let FlowNode::Text { kind, lines } = part {
        lemma_walk_agrees(lines@, kind, 0, false, f, g, doc, node);
    } else {
        let a = node_rows(f, part, doc, node);
        let b = node_rows(g, part, doc, node);
        let gap_f = block_gap(f).rows - f.rows;
        let gap_g = block_gap(g).rows - g.rows;
        assert(0 <= gap_f <= gap_g);
        assert(b.len() - a.len() == gap_g - gap_f);
        assert(b.skip(b.len() - a.len()) =~= a);
    }
}

proof fn lemma_doc_agrees(f: FlowState, g: FlowState, nodes: Seq<FlowNode>, doc: int, n: int)
    requires
        0 <= n <= nodes.len(),
        caught_up(f, g),
        doc_state(g, nodes, n).rows < usize::MAX,
    ensures
        caught_up(doc_state(f, nodes, n), doc_state(g, nodes, n)),
        rows_agree(f, doc_rows(f, nodes, doc, n), doc_rows(g, nodes, doc, n)),
    decreases n,
{
    if n > 0 {
        lemma_node(doc_state(g, nodes, n - 1), nodes[n - 1], doc, n - 1);
        lemma_doc_agrees(f, g, nodes, doc, n - 1);
        let mid = doc_state(f, nodes, n - 1);
        lemma_node_agrees(mid, doc_state(g, nodes, n - 1), nodes[n - 1], doc, n - 1);
        lemma_doc_count(f, nodes, doc, n - 1);
        lemma_agree_concat(
            f,
            mid,
            doc_rows(f, nodes, doc, n - 1),
            doc_rows(g, nodes, doc, n - 1),
            node_rows(mid, nodes[n - 1], doc, n - 1),
            node_rows(doc_state(g, nodes, n - 1), nodes[n - 1], doc, n - 1),
        );
    } else {
        assert(doc_rows(g, nodes, doc, 0).skip(0) =~= doc_rows(f, nodes, doc, 0));
    }
}

proof fn lemma_doc_count(s: FlowState, nodes: Seq<FlowNode>, doc: int, n: int)
    requires
        0 <= n <= nodes.len(),
        doc_state(s, nodes, n).rows < usize::MAX,
    ensures
        doc_state(s, nodes, n).rows == s.rows + doc_rows(s, nodes, doc, n).len(),
{
    lemma_doc(s, nodes, doc, n);
}

proof fn lemma_docs_agree(
    f: FlowState,
    g: FlowState,
    docs: Seq<Vec<FlowNode>>,
    first: int,
    n: int,
)
    requires
        0 <= n <= docs.len(),
        caught_up(f, g),
        docs_state(g, docs, n).rows < usize::MAX,
    ensures
        caught_up(docs_state(f, docs, n), docs_state(g, docs, n)),
        rows_agree(f, docs_rows(f, docs, first, n), docs_rows(g, docs, first, n)),
        docs_state(f, docs, n).rows == f.rows + docs_rows(f, docs, first, n).len(),
    decreases n,
{
    if n > 0 {
        let nodes = docs[n - 1]@;
        let len = nodes.len() as int;
        let mid_g = docs_state(g, docs, n - 1);
        lemma_doc(mid_g, nodes, first + n - 1, len);
        lemma_docs_agree(f, g, docs, first, n - 1);
        let mid = docs_state(f, docs, n - 1);
        lemma_doc_agrees(mid, mid_g, nodes, first + n - 1, len);
        lemma_doc_count(mid, nodes, first + n - 1, len);
        lemma_agree_concat(
            f,
            mid,
            docs_rows(f, docs, first, n - 1),
            docs_rows(g, docs, first, n - 1),
            doc_rows(mid, nodes, first + n - 1, len),
            doc_rows(mid_g, nodes, first + n - 1, len),
        );
    } else {
        assert(docs_rows(g, docs, first, 0).skip(0) =~= docs_rows(f, docs, first, 0));
    }
}

/// The last texts, drawn on their own, show the last rows of the whole: what stands in front
/// of them changes at most the gap before their first row.
pub proof fn last_texts_show_last_rows(docs: Seq<Vec<FlowNode>>, from: int)
    requires
        0 <= from <= docs.len(),
        docs_state(FlowState::start(), docs, docs.len() as int).rows < usize::MAX,
    ensures
        ends_with(
            all_rows(docs),
            docs_rows(FlowState::start(), docs.skip(from), from, docs.len() - from),
        ),
{
    let f = FlowState::start();
    let n = docs.len() as int;
    drawing_can_start_at_any_text(f, docs, 0, from, n);
    let g = docs_state(f, docs, from);
    lemma_docs_agree(f, g, docs.skip(from), from, n - from);
    let before = docs_rows(f, docs, 0, from);
    let a = docs_rows(f, docs.skip(from), from, n - from);
    let b = docs_rows(g, docs.skip(from), from, n - from);
    assert((before + b).skip(before.len() + (b.len() - a.len())) =~= b.skip(b.len() - a.len()));
}

proof fn lemma_tail_docs<F: Fn(usize) -> Vec<FlowNode>>(
    doc_at: F,
    count: int,
    start: int,
    estimated: usize,
    target: usize,
)
    requires
        0 <= start <= count <= usize::MAX,
        docs_state(FlowState::start(), docs_between(doc_at, 0, count), count).rows < usize::MAX,
        estimated <= docs_state(
            FlowState::start(),
            docs_between(doc_at, start, count),
            count - start,
        ).rows,
    ensures
        ({
            let from = tail_docs(doc_at, start, estimated, target);
            &&& 0 <= from <= count
            &&& from > 0 ==> docs_state(
                FlowState::start(),
                docs_between(doc_at, from, count),
                count - from,
            ).rows > target
        }),
    decreases start,
{
    if start > 0 && estimated <= target {
        let s = FlowState::start();
        let docs = docs_between(doc_at, start - 1, count);
        let rest = docs_between(doc_at, start, count);
        let one = doc_of(doc_at, (start - 1) as usize)@;
        let all = docs_between(doc_at, 0, count);
        let n = count - start;
        assert(docs.skip(1) =~= rest);
        assert(all.skip(start - 1) =~= docs);
        drawing_can_start_at_any_text(s, all, 0, start - 1, count);
        lemma_docs(s, all, 0, start - 1);
        let g = docs_state(s, all, start - 1);
        lemma_docs_agree(s, g, docs, 0, n + 1);
        drawing_can_start_at_any_text(s, docs, 0, 1, n + 1);
        reveal_with_fuel(docs_state, 2);
        let mid = docs_state(s, docs, 1);
        assert(docs[0]@ == one);
        assert(mid == after_doc(s, one));
        lemma_docs(s, docs, 0, 1);
        lemma_docs_agree(s, mid, rest, 1, n);
        lemma_docs(mid, rest, 1, n);
        lemma_docs(s, rest, 1, n);
        assert(docs_state(s, docs, n + 1).rows >= mid.rows + docs_state(s, rest, n).rows);
        lemma_tail_docs(doc_at, count, start - 1, estimated.saturating_add(mid.rows), target);
    }
}

proof fn lemma_head_docs<F: Fn(usize) -> Vec<FlowNode>>(
    doc_at: F,
    count: int,
    max_rows: int,
    k: int,
)
    requires
        0 <= k <= count,
    ensures
        ({
            let upto = head_docs(doc_at, count, max_rows, k);
            &&& k <= upto <= count
            &&& upto < count ==> docs_state(
                FlowState::start(),
                docs_between(doc_at, 0, upto),
                upto,
            ).rows > max_rows
        }),
    decreases count - k,
{
    if k < count && docs_state(FlowState::start(), docs_between(doc_at, 0, k), k).rows
        <= max_rows {
        lemma_head_docs(doc_at, count, max_rows, k + 1);
    }
}

/// The edge of a Markdown text is the head, or the tail, of all its rows: as many as are asked
/// for, or all, and there are more exactly where all are more than asked for. This leaves one
/// kind of text out, and only where no row is asked for: one that is not empty and yet has no
/// rows counts as more. The rows of the texts that the edge is drawn from can be counted, so
/// that it is always drawn.
pub proof fn edge_is_head_or_tail<F: Fn(usize) -> Vec<FlowNode>>(
    edge: RetainedMarkdownEdge,
    doc_at: F,
    count: usize,
    empty: bool,
    max_rows: usize,
    tail: bool,
)
    requires
        is_edge(edge, doc_at, count, empty, max_rows, tail),
        max_rows == 0 ==> empty == (all_rows(docs_between(doc_at, 0, count as int)).len() == 0),
        docs_state(
            FlowState::start(),
            docs_between(doc_at, 0, count as int),
            count as int,
        ).rows < usize::MAX,
    ensures
        ({
            let all = all_rows(docs_between(doc_at, 0, count as int));
            let drawn = cut(
                docs_rows(
                    FlowState::start(),
                    edge.docs@,
                    edge.first as int,
                    edge.docs@.len() as int,
                ),
                edge.row_start,
                edge.row_count,
            );
            &&& edge.row_count == if all.len() < max_rows {
                all.len() as int
            } else {
                max_rows as int
            }
            &&& edge.truncated == (all.len() > max_rows)
            &&& docs_state(FlowState::start(), edge.docs@, edge.docs@.len() as int).rows
                < usize::MAX
            &&& drawn == if tail {
                all.skip(all.len() - edge.row_count)
            } else {
                all.take(edge.row_count as int)
            }
        }),
{
    let s = FlowState::start();
    let docs = docs_between(doc_at, 0, count as int);
    let all = all_rows(docs);
    let n = count as int;
    lemma_docs(s, docs, 0, n);
    if max_rows == 0 {
        assert(all.take(0) =~= all.skip(all.len() as int));
        assert(cut(docs_rows(s, edge.docs@, edge.first as int, 0), 0, 0) =~= all.take(0));
    } else if tail {
        let target = max_rows.saturating_add(2);
        let start = tail_docs(doc_at, n, 0, target);
        assert(docs_between(doc_at, n, n) =~= Seq::<Vec<FlowNode>>::empty());
        lemma_tail_docs(doc_at, n, n, 0, target);
        let part = docs_between(doc_at, start, n);
        assert(docs.skip(start) =~= part);
        last_texts_show_last_rows(docs, start);
        let rows = docs_rows(s, part, start, n - start);
        drawing_can_start_at_any_text(s, docs, 0, start, n);
        lemma_docs_agree(s, docs_state(s, docs, start), part, start, n - start);
        assert(rows.len() == docs_state(s, part, n - start).rows);
        if start == 0 {
            assert(part =~= docs);
        }
        assert(cut(rows, edge.row_start, edge.row_count) =~= all.skip(
            all.len() - edge.row_count,
        ));
    } else {
        let upto = head_docs(doc_at, n, max_rows as int, 0);
        lemma_head_docs(doc_at, n, max_rows as int, 0);
        let part = docs_between(doc_at, 0, upto);
        lemma_docs_rows_same(s, part, docs, 0, upto);
        drawing_can_start_at_any_text(s, docs, 0, upto, n);
        lemma_docs(s, docs, 0, upto);
        let rows = docs_rows(s, part, 0, upto);
        assert(cut(rows, 0, edge.row_count) =~= all.take(edge.row_count as int));
    }
}

} // verus!
