//! How the parts of a Markdown text follow each other in rows.
use vstd::prelude::*;
use crate::markdown_flow::{
    after_line, at_blank_lines, before_line, blank_rows, block_gap, doc_rows, doc_state,
    lemma_next_text, line_rows, next_text, node_rows, node_state, walk_rows, walk_state, FlowLine,
    FlowNode, FlowRow, FlowState, MarkdownTextKind,
};

verus! {

/// The part of a text that a row is of; a blank row is of none.
pub open spec fn part_of(row: FlowRow) -> Option<usize> {
    match row {
        FlowRow::Blank => None,
        FlowRow::Line { node, .. } => Some(node),
        FlowRow::Code { node, .. } => Some(node),
        FlowRow::Table { node, .. } => Some(node),
        FlowRow::Rule { node, .. } => Some(node),
    }
}

/// Whatever a part shows takes a row.
pub open spec fn is_solid(node: FlowNode) -> bool {
    match node {
        FlowNode::Text { lines, .. } => forall|i: int|
            0 <= i < lines@.len() && !(#[trigger] lines@[i]).blank ==> lines@[i].rows@.len() > 0,
        FlowNode::Code { rows, .. } => rows > 0,
        FlowNode::Table { rows, .. } => rows > 0,
        FlowNode::Rule => true,
    }
}

/// Whether a part shows anything: a text of blank lines alone does not.
pub open spec fn is_shown(node: FlowNode) -> bool {
    match node {
        FlowNode::Text { lines, .. } => exists|i: int|
            0 <= i < lines@.len() && !(#[trigger] lines@[i]).blank,
        _ => true,
    }
}

/// Whether a part is a text of this kind.
pub open spec fn is_text(node: FlowNode, kind: MarkdownTextKind) -> bool {
    node matches FlowNode::Text { kind: own, .. } && own == kind
}

/// Whether a part is no text: code, a table or a rule.
pub open spec fn is_block(node: FlowNode) -> bool {
    !(node is Text)
}

/// What the state of a text says behind its last part that shows anything.
spec fn stands_behind(s: FlowState, last: Option<FlowNode>) -> bool {
    &&& !s.pending_blank
    &&& match last {
        None => s.rows == 0 && !s.last_content_was_heading && !s.prev_was_block,
        Some(node) => {
            &&& s.rows > 0
            &&& s.last_content_was_heading == is_text(node, MarkdownTextKind::Heading)
            &&& s.prev_was_block == is_block(node)
        },
    }
}

/// The last of the first `n` parts that shows anything.
spec fn last_shown(nodes: Seq<FlowNode>, n: int) -> Option<FlowNode>
    decreases n,
{
    if n <= 0 {
        None
    } else if is_shown(nodes[n - 1]) {
        Some(nodes[n - 1])
    } else {
        last_shown(nodes, n - 1)
    }
}

/// Blank rows between two parts.
spec fn blanks_between(above: Option<FlowNode>, below: FlowNode) -> int {
    match above {
        None => 0,
        Some(above) => if is_block(above) {
            1
        } else if is_text(above, MarkdownTextKind::Heading) || is_text(
            below,
            MarkdownTextKind::List,
        ) {
            0
        } else {
            1
        },
    }
}

/// The rows of a part are blank rows, and behind them its own, of which the last one ends them.
spec fn rows_behind_gap(rows: Seq<FlowRow>, gap: int, index: int) -> bool {
    &&& rows.len() > gap
    &&& forall|i: int| 0 <= i < gap ==> (#[trigger] rows[i]) is Blank
    &&& part_of(rows[gap]) == Some(index as usize)
    &&& part_of(rows.last()) == Some(index as usize)
}

/// Once a text has begun: lines that follow keep the state of a text, and no row is blank at
/// the end.
proof fn lemma_started(
    lines: Seq<FlowLine>,
    kind: MarkdownTextKind,
    i: int,
    s: FlowState,
    doc: int,
    node: int,
)
    requires
        0 <= i <= lines.len(),
        0 <= node <= usize::MAX,
        forall|k: int|
            0 <= k < lines.len() && !(#[trigger] lines[k]).blank ==> lines[k].rows@.len() > 0,
        s.rows > 0,
        !s.prev_was_block,
        s.last_content_was_heading == (kind is Heading),
        s.pending_blank ==> i < lines.len() && !lines[i].blank,
    ensures
        ({
            let to = walk_state(lines, kind, i, true, s);
            let rows = walk_rows(lines, kind, i, true, s, doc, node);
            &&& to.rows > 0
            &&& !to.prev_was_block
            &&& !to.pending_blank
            &&& to.last_content_was_heading == (kind is Heading)
            &&& rows.len() > 0 ==> part_of(rows.last()) == Some(node as usize)
        }),
    decreases lines.len() - i,
{
    if i < lines.len() {
        if lines[i].blank {
            lemma_next_text(lines, i + 1);
            let next = next_text(lines, i + 1);
            lemma_first_text(lines, i + 1);
            lemma_started(lines, kind, next, at_blank_lines(s, lines, next), doc, node);
        } else {
            let at = before_line(s, kind, true);
            let to = after_line(at, kind, lines[i].rows@.len() as int);
            lemma_started(lines, kind, i + 1, to, doc, node);
            let own = line_rows(lines[i], doc, node, i);
            let rest = walk_rows(lines, kind, i + 1, true, to, doc, node);
            let all = walk_rows(lines, kind, i, true, s, doc, node);
            let gap = blank_rows(at.rows - s.rows);
            assert(all == gap + own + rest);
            if rest.len() > 0 {
                assert(all.last() == rest.last());
            } else {
                assert(all.last() == own.last());
            }
        }
    }
}

proof fn lemma_first_text(lines: Seq<FlowLine>, i: int)
    requires
        0 <= i <= lines.len(),
    ensures
        next_text(lines, i) < lines.len() ==> !lines[next_text(lines, i)].blank,
        forall|k: int| i <= k < next_text(lines, i) ==> (#[trigger] lines[k]).blank,
    decreases lines.len() - i,
{
    if i < lines.len() && lines[i].blank {
        lemma_first_text(lines, i + 1);
        lemma_next_text(lines, i + 1);
        assert forall|k: int| i <= k < next_text(lines, i) implies (#[trigger] lines[k]).blank by {}
    }
}

proof fn lemma_text_part(
    lines: Seq<FlowLine>,
    kind: MarkdownTextKind,
    i: int,
    s: FlowState,
    last: Option<FlowNode>,
    doc: int,
    node: int,
)
    requires
        0 <= i <= lines.len(),
        0 <= node <= usize::MAX,
        forall|k: int|
            0 <= k < lines.len() && !(#[trigger] lines[k]).blank ==> lines[k].rows@.len() > 0,
        walk_state(lines, kind, i, false, s).rows < usize::MAX,
        s.pending_blank ==> last is Some && i < lines.len() && !lines[i].blank
            && !s.last_content_was_heading,
        stands_behind(FlowState { pending_blank: false, ..s }, last),
        forall|k: int| 0 <= k < i ==> (#[trigger] lines[k]).blank,
    ensures
        ({
            let to = walk_state(lines, kind, i, false, s);
            let rows = walk_rows(lines, kind, i, false, s, doc, node);
            let shown = exists|k: int| 0 <= k < lines.len() && !(#[trigger] lines[k]).blank;
            let gap: int = match last {
                None => 0,
                Some(above) => if is_block(above) {
                    1
                } else if is_text(above, MarkdownTextKind::Heading) || kind is List {
                    0
                } else {
                    1
                },
            };
            &&& shown ==> rows_behind_gap(rows, gap, node)
            &&& shown ==> to.rows > 0 && !to.prev_was_block && !to.pending_blank
                && to.last_content_was_heading == (kind is Heading)
            &&& !shown ==> rows.len() == 0 && to == s
        }),
    decreases lines.len() - i,
{
    if i < lines.len() {
        if lines[i].blank {
            lemma_next_text(lines, i + 1);
            let next = next_text(lines, i + 1);
            lemma_first_text(lines, i + 1);
            let at = at_blank_lines(s, lines, next);
            assert forall|k: int| 0 <= k < next implies (#[trigger] lines[k]).blank by {}
            lemma_text_part(lines, kind, next, at, last, doc, node);
        } else {
            let at = before_line(s, kind, false);
            let count = lines[i].rows@.len() as int;
            let to = after_line(at, kind, count);
            crate::markdown_flow::lemma_walk(lines, kind, i + 1, true, to, doc, node);
            crate::markdown_flow::lemma_before_line(s, kind, false);
            assert(to.rows == at.rows + count);
            lemma_started(lines, kind, i + 1, to, doc, node);
            let own = line_rows(lines[i], doc, node, i);
            let rest = walk_rows(lines, kind, i + 1, true, to, doc, node);
            let all = walk_rows(lines, kind, i, false, s, doc, node);
            let gap = blank_rows(at.rows - s.rows);
            assert(all == gap + own + rest);
            assert(all[gap.len() as int] == own[0]);
            if rest.len() > 0 {
                assert(all.last() == rest.last());
            } else {
                assert(all.last() == own.last());
            }
        }
    } else {
        assert(forall|k: int| 0 <= k < lines.len() ==> (#[trigger] lines[k]).blank);
    }
}

/// One part behind another.
proof fn lemma_part(s: FlowState, last: Option<FlowNode>, node: FlowNode, doc: int, index: int)
    requires
        stands_behind(s, last),
        is_solid(node),
        0 <= index <= usize::MAX,
        node_state(s, node).rows < usize::MAX,
    ensures
        is_shown(node) ==> rows_behind_gap(
            node_rows(s, node, doc, index),
            blanks_between(last, node),
            index,
        ),
        is_shown(node) ==> stands_behind(node_state(s, node), Some(node)),
        !is_shown(node) ==> node_rows(s, node, doc, index).len() == 0 && node_state(s, node) == s,
{
    match node {
        FlowNode::Text { kind, lines } => {
            lemma_text_part(lines@, kind, 0, s, last, doc, index);
        },
        FlowNode::Code { rows, .. } => {
            assert(block_gap(s).rows - s.rows == blanks_between(last, node));
            let all = node_rows(s, node, doc, index);
            assert(all.len() == blanks_between(last, node) + rows);
        },
        FlowNode::Table { rows, .. } => {
            assert(block_gap(s).rows - s.rows == blanks_between(last, node));
            let all = node_rows(s, node, doc, index);
            assert(all.len() == blanks_between(last, node) + rows);
        },
        FlowNode::Rule => {
            assert(block_gap(s).rows - s.rows == blanks_between(last, node));
        },
    }
}

proof fn lemma_parts(nodes: Seq<FlowNode>, doc: int, n: int)
    requires
        0 <= n <= nodes.len() <= usize::MAX,
        forall|i: int| 0 <= i < nodes.len() ==> is_solid(#[trigger] nodes[i]),
        doc_state(FlowState::start(), nodes, n).rows < usize::MAX,
    ensures
        stands_behind(doc_state(FlowState::start(), nodes, n), last_shown(nodes, n)),
    decreases n,
{
    if n > 0 {
        let s = doc_state(FlowState::start(), nodes, n - 1);
        crate::markdown_flow::lemma_node(s, nodes[n - 1], doc, n - 1);
        lemma_parts(nodes, doc, n - 1);
        assert(is_solid(nodes[n - 1]));
        lemma_part(s, last_shown(nodes, n - 1), nodes[n - 1], doc, n - 1);
    }
}

/// Two parts of a text that follow each other and both show something: the rows of the first
/// end with one of its own. Then there is one blank row, or none: none behind a heading, and
/// none before a list that does not follow code, a table or a rule. Then the rows of the second
/// begin.
pub proof fn parts_are_one_row_apart(nodes: Seq<FlowNode>, doc: int, k: int)
    requires
        0 <= k,
        k + 1 < nodes.len() <= usize::MAX,
        forall|i: int| 0 <= i < nodes.len() ==> is_solid(#[trigger] nodes[i]),
        is_shown(nodes[k]),
        is_shown(nodes[k + 1]),
        doc_state(FlowState::start(), nodes, k + 2).rows < usize::MAX,
    ensures
        ({
            let above = doc_rows(FlowState::start(), nodes, doc, k + 1);
            let both = doc_rows(FlowState::start(), nodes, doc, k + 2);
            let heading = is_text(nodes[k], MarkdownTextKind::Heading);
            let list = is_text(nodes[k + 1], MarkdownTextKind::List);
            let n = above.len() as int;
            &&& n > 0
            &&& both.len() > n
            &&& both.take(n) == above
            &&& part_of(above.last()) == Some(k as usize)
            &&& !is_block(nodes[k]) && (heading || list) ==> part_of(both[n]) == Some(
                (k + 1) as usize,
            )
            &&& is_block(nodes[k]) || !(heading || list) ==> both.len() > n + 1 && both[n] is Blank
                && part_of(both[n + 1]) == Some((k + 1) as usize)
            &&& part_of(both.last()) == Some((k + 1) as usize)
        }),
{
    let start = FlowState::start();
    let s0 = doc_state(start, nodes, k);
    let s1 = doc_state(start, nodes, k + 1);
    crate::markdown_flow::lemma_node(s1, nodes[k + 1], doc, k + 1);
    crate::markdown_flow::lemma_node(s0, nodes[k], doc, k);
    lemma_parts(nodes, doc, k);
    lemma_parts(nodes, doc, k + 1);
    assert(is_solid(nodes[k]) && is_solid(nodes[k + 1]));
    lemma_part(s0, last_shown(nodes, k), nodes[k], doc, k);
    lemma_part(s1, last_shown(nodes, k + 1), nodes[k + 1], doc, k + 1);
    let above = doc_rows(start, nodes, doc, k + 1);
    let both = doc_rows(start, nodes, doc, k + 2);
    let own = node_rows(s0, nodes[k], doc, k);
    let next = node_rows(s1, nodes[k + 1], doc, k + 1);
    assert(above == doc_rows(start, nodes, doc, k) + own);
    assert(both == above + next);
    assert(both.take(above.len() as int) =~= above);
    let gap = blanks_between(Some(nodes[k]), nodes[k + 1]);
    assert(both[above.len() + gap] == next[gap]);
    if gap == 1 {
        assert(both[above.len() as int] == next[0]);
    }
}

/// The rows of a text that are not blank.
pub open spec fn inked_rows(rows: Seq<FlowRow>) -> Seq<FlowRow> {
    rows.filter(|row: FlowRow| !(row is Blank))
}

/// The rows that a part has of its own: those of its lines that are not blank, in order, or
/// those of its block.
pub open spec fn own_rows(node: FlowNode, doc: int, index: int) -> Seq<FlowRow> {
    match node {
        FlowNode::Text { lines, .. } => Seq::new(
            lines@.len(),
            |line: int|
                if lines@[line].blank {
                    Seq::empty()
                } else {
                    Seq::new(
                        lines@[line].rows@.len(),
                        |segment: int|
                            FlowRow::Line {
                                doc: doc as usize,
                                node: index as usize,
                                line: line as usize,
                                segment: segment as usize,
                                visible: lines@[line].rows@[segment],
                            },
                    )
                },
        ).flatten(),
        FlowNode::Code { rows, visible } => Seq::new(
            rows as nat,
            |row: int|
                FlowRow::Code {
                    doc: doc as usize,
                    node: index as usize,
                    row: row as usize,
                    visible,
                },
        ),
        FlowNode::Table { rows, visible } => Seq::new(
            rows as nat,
            |row: int|
                FlowRow::Table {
                    doc: doc as usize,
                    node: index as usize,
                    row: row as usize,
                    visible,
                },
        ),
        FlowNode::Rule => seq![FlowRow::Rule { doc: doc as usize, node: index as usize }],
    }
}

/// But for blank rows, the rows of a text are the rows of its parts, each once and in order.
pub proof fn every_part_is_drawn_once_in_order(
    s: FlowState,
    nodes: Seq<FlowNode>,
    doc: int,
    n: int,
)
    requires
        0 <= n <= nodes.len(),
    ensures
        inked_rows(doc_rows(s, nodes, doc, n)) == Seq::new(
            n as nat,
            |i: int| own_rows(nodes[i], doc, i),
        ).flatten(),
    decreases n,
{
    let pred = |row: FlowRow| !(row is Blank);
    let own = |i: int| own_rows(nodes[i], doc, i);
    let all = Seq::new(n as nat, own);
    reveal(Seq::filter);
    if n > 0 {
        every_part_is_drawn_once_in_order(s, nodes, doc, n - 1);
        let before = Seq::new((n - 1) as nat, own);
        assert(all =~= before.push(own(n - 1)));
        before.lemma_flatten_push(own(n - 1));
        let front = doc_rows(s, nodes, doc, n - 1);
        let last = node_rows(doc_state(s, nodes, n - 1), nodes[n - 1], doc, n - 1);
        Seq::filter_distributes_over_add(front, last, pred);
        lemma_own_rows(doc_state(s, nodes, n - 1), nodes[n - 1], doc, n - 1);
    } else {
        assert(all =~= Seq::<Seq<FlowRow>>::empty());
        assert(inked_rows(doc_rows(s, nodes, doc, n)) =~= all.flatten());
    }
}

proof fn lemma_all_kept(rows: Seq<FlowRow>)
    requires
        forall|i: int| 0 <= i < rows.len() ==> !((#[trigger] rows[i]) is Blank),
    ensures
        inked_rows(rows) == rows,
    decreases rows.len(),
{
    reveal(Seq::filter);
    if rows.len() > 0 {
        lemma_all_kept(rows.drop_last());
        assert(rows =~= rows.drop_last().push(rows.last()));
        assert(!(rows[rows.len() - 1] is Blank));
    } else {
        assert(inked_rows(rows) =~= rows);
    }
}

proof fn lemma_blanks_dropped(n: int)
    requires
        0 <= n,
    ensures
        inked_rows(blank_rows(n)) == Seq::<FlowRow>::empty(),
    decreases n,
{
    reveal(Seq::filter);
    if n > 0 {
        lemma_blanks_dropped(n - 1);
        assert(blank_rows(n).drop_last() =~= blank_rows(n - 1));
    }
}

spec fn lines_rows(lines: Seq<FlowLine>, doc: int, node: int) -> Seq<Seq<FlowRow>> {
    Seq::new(
        lines.len(),
        |line: int|
            if lines[line].blank {
                Seq::empty()
            } else {
                line_rows(lines[line], doc, node, line)
            },
    )
}

proof fn lemma_skip_blank(all: Seq<Seq<FlowRow>>, i: int, next: int)
    requires
        0 <= i <= next <= all.len(),
        forall|k: int| i <= k < next ==> (#[trigger] all[k]).len() == 0,
    ensures
        all.skip(i).flatten() == all.skip(next).flatten(),
    decreases next - i,
{
    if i < next {
        lemma_skip_blank(all, i + 1, next);
        assert(all.skip(i).drop_first() =~= all.skip(i + 1));
        assert(all.skip(i).first() == all[i]);
        assert(all[i] + all.skip(i + 1).flatten() =~= all.skip(i + 1).flatten());
    }
}

proof fn lemma_walk_own(
    lines: Seq<FlowLine>,
    kind: MarkdownTextKind,
    i: int,
    started: bool,
    s: FlowState,
    doc: int,
    node: int,
)
    requires
        0 <= i <= lines.len(),
    ensures
        inked_rows(walk_rows(lines, kind, i, started, s, doc, node)) == lines_rows(
            lines,
            doc,
            node,
        ).skip(i).flatten(),
    decreases lines.len() - i,
{
    let all = lines_rows(lines, doc, node);
    let pred = |row: FlowRow| !(row is Blank);
    if i >= lines.len() {
        assert(all.skip(i) =~= Seq::<Seq<FlowRow>>::empty());
        reveal(Seq::filter);
    } else if lines[i].blank {
        lemma_next_text(lines, i + 1);
        lemma_first_text(lines, i + 1);
        let next = next_text(lines, i + 1);
        lemma_walk_own(lines, kind, next, started, at_blank_lines(s, lines, next), doc, node);
        lemma_skip_blank(all, i, next);
    } else {
        let at = before_line(s, kind, started);
        let to = after_line(at, kind, lines[i].rows@.len() as int);
        crate::markdown_flow::lemma_before_line(s, kind, started);
        lemma_walk_own(lines, kind, i + 1, true, to, doc, node);
        let gap = blank_rows(at.rows - s.rows);
        let own = line_rows(lines[i], doc, node, i);
        let rest = walk_rows(lines, kind, i + 1, true, to, doc, node);
        Seq::filter_distributes_over_add(gap + own, rest, pred);
        Seq::filter_distributes_over_add(gap, own, pred);
        lemma_blanks_dropped(at.rows - s.rows);
        lemma_all_kept(own);
        assert(inked_rows(gap) + inked_rows(own) =~= own);
        assert(all.skip(i).drop_first() =~= all.skip(i + 1));
        assert(all.skip(i).first() == own);
    }
}

proof fn lemma_own_rows(s: FlowState, node: FlowNode, doc: int, index: int)
    ensures
        inked_rows(node_rows(s, node, doc, index)) == own_rows(node, doc, index),
{
    let pred = |row: FlowRow| !(row is Blank);
    let own = own_rows(node, doc, index);
    match node {
        FlowNode::Text { kind, lines } => {
            lemma_walk_own(lines@, kind, 0, false, s, doc, index);
            let all = lines_rows(lines@, doc, index);
            assert(all.skip(0) =~= all);
            let own_lines = Seq::new(
                lines@.len(),
                |line: int|
                    if lines@[line].blank {
                        Seq::empty()
                    } else {
                        Seq::new(
                            lines@[line].rows@.len(),
                            |segment: int|
                                FlowRow::Line {
                                    doc: doc as usize,
                                    node: index as usize,
                                    line: line as usize,
                                    segment: segment as usize,
                                    visible: lines@[line].rows@[segment],
                                },
                        )
                    },
            );
            assert forall|k: int| 0 <= k < all.len() implies all[k] == own_lines[k] by {
                assert(all[k] =~= own_lines[k]);
            }
            assert(all =~= own_lines);
        },
        _ => {
            let gap = block_gap(s).rows - s.rows;
            Seq::filter_distributes_over_add(blank_rows(gap), own, pred);
            lemma_blanks_dropped(gap);
            lemma_all_kept(own);
            assert(node_rows(s, node, doc, index) =~= blank_rows(gap) + own);
            assert(inked_rows(blank_rows(gap)) + own =~= own);
        },
    }
}

} // verus!
