//! How the parts of a Markdown text follow each other: gaps, blank lines and rows.
//!
//! A text is given by what its parts take at one width: lines with their wrapped
//! rows, code blocks and tables with their heights.
use vstd::prelude::*;

verus! {

/// What kind of text a run of lines is.
#[derive(Clone, Copy, Debug, PartialEq, Eq, Structural)]
pub enum MarkdownTextKind {
    Paragraph,
    Heading,
    List,
    BlockQuote,
}

/// One source line of a text.
#[derive(Debug)]
pub struct FlowLine {
    /// Nothing but white space.
    pub blank: bool,
    /// Starts an item of a list.
    pub list_item: bool,
    /// For each row that the line wraps to, whether it shows any text.
    pub rows: Vec<bool>,
}

/// One part of a Markdown text.
#[derive(Debug)]
#[allow(inconsistent_fields)]
pub enum FlowNode {
    Text { kind: MarkdownTextKind, lines: Vec<FlowLine> },
    Code { rows: usize, visible: bool },
    Table { rows: u16, visible: bool },
    Rule,
}

/// One output row of a Markdown text; `visible` tells whether it shows any text.
#[derive(Clone, Copy, Debug, PartialEq, Eq, Structural)]
#[allow(inconsistent_fields)]
pub enum FlowRow {
    Blank,
    /// Row `segment` of line `line` of part `node` of text `doc`.
    Line { doc: usize, node: usize, line: usize, segment: usize, visible: bool },
    Code { doc: usize, node: usize, row: usize, visible: bool },
    Table { doc: usize, node: usize, row: usize, visible: bool },
    Rule { doc: usize, node: usize },
}

impl FlowRow {
    pub open spec fn shows_text(self) -> bool {
        match self {
            FlowRow::Blank => false,
            FlowRow::Line { visible, .. } => visible,
            FlowRow::Code { visible, .. } => visible,
            FlowRow::Table { visible, .. } => visible,
            FlowRow::Rule { .. } => true,
        }
    }

    /// Whether the row shows any text.
    pub fn has_visible_text(&self) -> (visible: bool)
        ensures
            visible == self.shows_text(),
    {
        match *self {
            FlowRow::Blank => false,
            FlowRow::Line { visible, .. } => visible,
            FlowRow::Code { visible, .. } => visible,
            FlowRow::Table { visible, .. } => visible,
            FlowRow::Rule { .. } => true,
        }
    }
}

/// Where a text stands after some of its parts.
#[derive(Clone, Copy, Debug, PartialEq, Eq, Structural)]
pub struct FlowState {
    pub rows: usize,
    pub last_content_was_heading: bool,
    pub pending_blank: bool,
    pub prev_was_block: bool,
}

impl FlowState {
    pub open spec fn start() -> FlowState {
        FlowState {
            rows: 0,
            last_content_was_heading: false,
            pending_blank: false,
            prev_was_block: false,
        }
    }

    /// The state before the first part.
    pub fn new() -> (state: FlowState)
        ensures
            state == FlowState::start(),
    {
        FlowState {
            rows: 0,
            last_content_was_heading: false,
            pending_blank: false,
            prev_was_block: false,
        }
    }

    /// `count` rows further.
    pub open spec fn after_rows(self, count: int) -> FlowState {
        FlowState {
            rows: if self.rows + count > usize::MAX {
                usize::MAX
            } else {
                (self.rows + count) as usize
            },
            ..self
        }
    }

    /// A blank row further, with none owed any more.
    pub open spec fn after_blank(self) -> FlowState {
        FlowState { pending_blank: false, ..self.after_rows(1) }
    }
}

/// A range of rows.
#[derive(Clone, Copy, Debug, PartialEq, Eq, Structural)]
pub struct RowClip {
    pub start: usize,
    pub end: usize,
}

impl RowClip {
    pub fn contains(self, row: usize) -> (r: bool)
        ensures
            r == (self.start <= row < self.end),
    {
        row >= self.start && row < self.end
    }

    /// Whether any of the `rows` rows from `start` on lies in the range, or, where
    /// there are none, whether the place where they would stand lies inside it.
    pub fn intersects(self, start: usize, rows: usize) -> (r: bool)
        ensures
            r == (start < self.end && start.saturating_add(rows) > self.start),
    {
        let end = start.saturating_add(rows);
        start < self.end && end > self.start
    }
}

pub open spec fn emits(clip: Option<RowClip>, row: int) -> bool {
    match clip {
        Some(clip) => clip.start <= row < clip.end,
        None => true,
    }
}

/// Whether row `row` is to be drawn.
pub fn should_emit(clip: Option<RowClip>, row: usize) -> (r: bool)
    ensures
        r == emits(clip, row as int),
{
    match clip {
        Some(clip) => clip.contains(row),
        None => true,
    }
}

/// The state after the gap in front of a block: the blank row that is owed, else one
/// unless the block comes first or follows a heading.
pub open spec fn block_gap(s: FlowState) -> FlowState {
    if s.pending_blank {
        s.after_blank()
    } else if s.rows > 0 && !s.last_content_was_heading {
        s.after_rows(1)
    } else {
        s
    }
}

/// The state after the gap in front of a text: none before the first one, nor before
/// a list that does not follow a block.
pub open spec fn text_gap(s: FlowState, kind: MarkdownTextKind) -> FlowState {
    if s.rows == 0 || (kind is List && !s.prev_was_block) {
        FlowState { pending_blank: false, ..s }
    } else {
        block_gap(s)
    }
}

/// The first line from `i` on that is not blank.
pub open spec fn next_text(lines: Seq<FlowLine>, i: int) -> int
    decreases lines.len() - i,
{
    if i < lines.len() && lines[i].blank {
        next_text(lines, i + 1)
    } else {
        i
    }
}

pub(crate) proof fn lemma_next_text(lines: Seq<FlowLine>, i: int)
    requires
        0 <= i <= lines.len(),
    ensures
        i <= next_text(lines, i) <= lines.len(),
    decreases lines.len() - i,
{
    if i < lines.len() && lines[i].blank {
        lemma_next_text(lines, i + 1);
    }
}

/// The state at blank lines before line `next`: a blank row is owed where text that
/// is no heading stands before them and text that is no list item follows.
pub open spec fn at_blank_lines(s: FlowState, lines: Seq<FlowLine>, next: int) -> FlowState {
    if s.rows > 0 && !s.last_content_was_heading && next < lines.len() && !lines[next].list_item {
        FlowState { pending_blank: true, ..s }
    } else {
        s
    }
}

/// The state in front of a line of text: after the gap before the first one, the
/// blank row that is owed, and, failing both, a blank row after a block.
pub open spec fn before_line(s: FlowState, kind: MarkdownTextKind, started: bool) -> FlowState {
    let s1 = if started {
        s
    } else {
        text_gap(s, kind)
    };
    let gap = !started && s1.rows != s.rows;
    let (s2, gap2) = if s1.pending_blank {
        (s1.after_blank(), true)
    } else {
        (s1, gap)
    };
    if s2.prev_was_block && !gap2 {
        s2.after_blank()
    } else {
        s2
    }
}

/// The state after a line of `rows` rows.
pub open spec fn after_line(s: FlowState, kind: MarkdownTextKind, rows: int) -> FlowState {
    FlowState {
        last_content_was_heading: kind is Heading,
        prev_was_block: false,
        ..s.after_rows(rows)
    }
}

/// The state after a block of `rows` rows.
pub open spec fn after_block(s: FlowState, rows: int) -> FlowState {
    FlowState { last_content_was_heading: false, prev_was_block: true, ..s.after_rows(rows) }
}

/// The state after the lines from `i` on.
pub open spec fn walk_state(
    lines: Seq<FlowLine>,
    kind: MarkdownTextKind,
    i: int,
    started: bool,
    s: FlowState,
) -> FlowState
    decreases lines.len() - i,
    when 0 <= i
    via walk_state_decreases
{
    if i >= lines.len() {
        s
    } else if lines[i].blank {
        let next = next_text(lines, i + 1);
        walk_state(lines, kind, next, started, at_blank_lines(s, lines, next))
    } else {
        walk_state(
            lines,
            kind,
            i + 1,
            true,
            after_line(before_line(s, kind, started), kind, lines[i].rows@.len() as int),
        )
    }
}

#[via_fn]
proof fn walk_state_decreases(
    lines: Seq<FlowLine>,
    kind: MarkdownTextKind,
    i: int,
    started: bool,
    s: FlowState,
) {
    if i < lines.len() {
        lemma_next_text(lines, i + 1);
    }
}

/// The rows of line `line` of part `node` of text `doc`.
pub open spec fn line_rows(l: FlowLine, doc: int, node: int, line: int) -> Seq<FlowRow> {
    Seq::new(
        l.rows@.len(),
        |segment: int|
            FlowRow::Line {
                doc: doc as usize,
                node: node as usize,
                line: line as usize,
                segment: segment as usize,
                visible: l.rows@[segment],
            },
    )
}

/// `count` blank rows.
pub open spec fn blank_rows(count: int) -> Seq<FlowRow> {
    Seq::new(count as nat, |i: int| FlowRow::Blank)
}

/// The rows of the lines from `i` on.
pub open spec fn walk_rows(
    lines: Seq<FlowLine>,
    kind: MarkdownTextKind,
    i: int,
    started: bool,
    s: FlowState,
    doc: int,
    node: int,
) -> Seq<FlowRow>
    decreases lines.len() - i,
    when 0 <= i
    via walk_rows_decreases
{
    if i >= lines.len() {
        Seq::empty()
    } else if lines[i].blank {
        let next = next_text(lines, i + 1);
        walk_rows(lines, kind, next, started, at_blank_lines(s, lines, next), doc, node)
    } else {
        let at = before_line(s, kind, started);
        blank_rows(at.rows - s.rows) + line_rows(lines[i], doc, node, i) + walk_rows(
            lines,
            kind,
            i + 1,
            true,
            after_line(at, kind, lines[i].rows@.len() as int),
            doc,
            node,
        )
    }
}

#[via_fn]
proof fn walk_rows_decreases(
    lines: Seq<FlowLine>,
    kind: MarkdownTextKind,
    i: int,
    started: bool,
    s: FlowState,
    doc: int,
    node: int,
) {
    if i < lines.len() {
        lemma_next_text(lines, i + 1);
    }
}

/// The state after one part.
pub open spec fn node_state(s: FlowState, node: FlowNode) -> FlowState {
    match node {
        FlowNode::Text { kind, lines } => walk_state(lines@, kind, 0, false, s),
        FlowNode::Code { rows, .. } => after_block(block_gap(s), rows as int),
        FlowNode::Table { rows, .. } => after_block(block_gap(s), rows as int),
        FlowNode::Rule => after_block(block_gap(s), 1),
    }
}

/// The rows of one part.
pub open spec fn node_rows(s: FlowState, node: FlowNode, doc: int, index: int) -> Seq<FlowRow> {
    let gap = blank_rows(block_gap(s).rows - s.rows);
    match node {
        FlowNode::Text { kind, lines } => walk_rows(lines@, kind, 0, false, s, doc, index),
        FlowNode::Code { rows, visible } => gap + Seq::new(
            rows as nat,
            |row: int|
                FlowRow::Code {
                    doc: doc as usize,
                    node: index as usize,
                    row: row as usize,
                    visible,
                },
        ),
        FlowNode::Table { rows, visible } => gap + Seq::new(
            rows as nat,
            |row: int|
                FlowRow::Table {
                    doc: doc as usize,
                    node: index as usize,
                    row: row as usize,
                    visible,
                },
        ),
        FlowNode::Rule => gap + seq![
            FlowRow::Rule { doc: doc as usize, node: index as usize },
        ],
    }
}

/// The state after the first `upto` parts of a text.
pub open spec fn doc_state(s: FlowState, nodes: Seq<FlowNode>, upto: int) -> FlowState
    decreases upto,
{
    if upto <= 0 {
        s
    } else {
        node_state(doc_state(s, nodes, upto - 1), nodes[upto - 1])
    }
}

/// The state after a text.
pub open spec fn after_doc(s: FlowState, nodes: Seq<FlowNode>) -> FlowState {
    doc_state(s, nodes, nodes.len() as int)
}

/// The rows of the first `upto` parts of a text.
pub open spec fn doc_rows(s: FlowState, nodes: Seq<FlowNode>, doc: int, upto: int) -> Seq<FlowRow>
    decreases upto,
{
    if upto <= 0 {
        Seq::empty()
    } else {
        doc_rows(s, nodes, doc, upto - 1) + node_rows(
            doc_state(s, nodes, upto - 1),
            nodes[upto - 1],
            doc,
            upto - 1,
        )
    }
}

/// The state after the first `upto` of several texts that follow each other.
pub open spec fn docs_state(s: FlowState, docs: Seq<Vec<FlowNode>>, upto: int) -> FlowState
    decreases upto,
{
    if upto <= 0 {
        s
    } else {
        after_doc(docs_state(s, docs, upto - 1), docs[upto - 1]@)
    }
}

/// The rows of the first `upto` of several texts; the first one is text `first`.
pub open spec fn docs_rows(
    s: FlowState,
    docs: Seq<Vec<FlowNode>>,
    first: int,
    upto: int,
) -> Seq<FlowRow>
    decreases upto,
{
    if upto <= 0 {
        Seq::empty()
    } else {
        docs_rows(s, docs, first, upto - 1) + doc_rows(
            docs_state(s, docs, upto - 1),
            docs[upto - 1]@,
            first + upto - 1,
            docs[upto - 1]@.len() as int,
        )
    }
}

/// The part of `rows`, of which the first is row `base`, that lies in the range.
pub open spec fn clipped(rows: Seq<FlowRow>, base: int, clip: Option<RowClip>) -> Seq<FlowRow> {
    match clip {
        None => rows,
        Some(clip) => {
            let from = if clip.start > base {
                clip.start - base
            } else {
                0
            };
            let to = if clip.end - base < rows.len() {
                clip.end - base
            } else {
                rows.len() as int
            };
            if from < to {
                rows.subrange(from, to)
            } else {
                Seq::empty()
            }
        },
    }
}

proof fn lemma_clipped_concat(
    a: Seq<FlowRow>,
    b: Seq<FlowRow>,
    base: int,
    clip: Option<RowClip>,
)
    ensures
        clipped(a + b, base, clip) == clipped(a, base, clip) + clipped(b, base + a.len(), clip),
{
    assert(clipped(a + b, base, clip) =~= clipped(a, base, clip) + clipped(
        b,
        base + a.len(),
        clip,
    ));
}

proof fn lemma_clipped_past(rows: Seq<FlowRow>, base: int, clip: Option<RowClip>)
    requires
        clip matches Some(clip) && clip.end <= base,
    ensures
        clipped(rows, base, clip) == Seq::<FlowRow>::empty(),
{
}

/// Nothing between two states takes rows back.
pub(crate) proof fn lemma_before_line(s: FlowState, kind: MarkdownTextKind, started: bool)
    ensures
        before_line(s, kind, started).rows >= s.rows,
        before_line(s, kind, started).rows < usize::MAX ==> before_line(s, kind, started).rows
            <= s.rows + 2,
{
}

pub(crate) proof fn lemma_walk(
    lines: Seq<FlowLine>,
    kind: MarkdownTextKind,
    i: int,
    started: bool,
    s: FlowState,
    doc: int,
    node: int,
)
    requires
        0 <= i <= lines.len(),
    ensures
        walk_state(lines, kind, i, started, s).rows >= s.rows,
        walk_state(lines, kind, i, started, s).rows < usize::MAX ==> walk_rows(
            lines,
            kind,
            i,
            started,
            s,
            doc,
            node,
        ).len() == walk_state(lines, kind, i, started, s).rows - s.rows,
    decreases lines.len() - i,
{
    if i < lines.len() {
        if lines[i].blank {
            lemma_next_text(lines, i + 1);
            let next = next_text(lines, i + 1);
            lemma_walk(lines, kind, next, started, at_blank_lines(s, lines, next), doc, node);
        } else {
            let at = before_line(s, kind, started);
            lemma_before_line(s, kind, started);
            lemma_walk(
                lines,
                kind,
                i + 1,
                true,
                after_line(at, kind, lines[i].rows@.len() as int),
                doc,
                node,
            );
        }
    }
}

/// A text that ends at a row that a machine can count has one row for each row that
/// the state moves on.
pub(crate) proof fn lemma_node(s: FlowState, node: FlowNode, doc: int, index: int)
    ensures
        node_state(s, node).rows >= s.rows,
        node_state(s, node).rows < usize::MAX ==> node_rows(s, node, doc, index).len()
            == node_state(s, node).rows - s.rows,
{
    if let FlowNode::Text { kind, lines } = node {
        lemma_walk(lines@, kind, 0, false, s, doc, index);
    }
}

pub(crate) proof fn lemma_doc(s: FlowState, nodes: Seq<FlowNode>, doc: int, upto: int)
    requires
        0 <= upto <= nodes.len(),
    ensures
        doc_state(s, nodes, upto).rows >= s.rows,
        doc_state(s, nodes, upto).rows <= after_doc(s, nodes).rows,
        doc_state(s, nodes, upto).rows < usize::MAX ==> doc_rows(s, nodes, doc, upto).len()
            == doc_state(s, nodes, upto).rows - s.rows,
    decreases upto,
{
    lemma_doc_monotone(s, nodes, upto);
    if upto > 0 {
        lemma_doc(s, nodes, doc, upto - 1);
        lemma_node(doc_state(s, nodes, upto - 1), nodes[upto - 1], doc, upto - 1);
    }
}

proof fn lemma_doc_monotone(s: FlowState, nodes: Seq<FlowNode>, upto: int)
    requires
        0 <= upto <= nodes.len(),
    ensures
        doc_state(s, nodes, upto).rows <= after_doc(s, nodes).rows,
    decreases nodes.len() - upto,
{
    if upto < nodes.len() {
        lemma_doc_monotone(s, nodes, upto + 1);
        lemma_node(doc_state(s, nodes, upto), nodes[upto], 0, upto);
    }
}

pub proof fn lemma_docs(s: FlowState, docs: Seq<Vec<FlowNode>>, first: int, upto: int)
    requires
        0 <= upto <= docs.len(),
    ensures
        docs_state(s, docs, upto).rows >= s.rows,
        docs_state(s, docs, upto).rows <= docs_state(s, docs, docs.len() as int).rows,
        docs_state(s, docs, upto).rows < usize::MAX ==> docs_rows(s, docs, first, upto).len()
            == docs_state(s, docs, upto).rows - s.rows,
    decreases upto,
{
    lemma_docs_monotone(s, docs, upto);
    if upto > 0 {
        lemma_docs(s, docs, first, upto - 1);
        lemma_doc(
            docs_state(s, docs, upto - 1),
            docs[upto - 1]@,
            first + upto - 1,
            docs[upto - 1]@.len() as int,
        );
    }
}

proof fn lemma_docs_monotone(s: FlowState, docs: Seq<Vec<FlowNode>>, upto: int)
    requires
        0 <= upto <= docs.len(),
    ensures
        docs_state(s, docs, upto).rows <= docs_state(s, docs, docs.len() as int).rows,
    decreases docs.len() - upto,
{
    if upto < docs.len() {
        lemma_docs_monotone(s, docs, upto + 1);
        lemma_doc(docs_state(s, docs, upto), docs[upto]@, 0, docs[upto]@.len() as int);
    }
}

/// Moves on by the gap in front of a block.
pub fn measure_block_gap(state: &mut FlowState)
    ensures
        *final(state) == block_gap(*old(state)),
{
    let mut gap_emitted = false;
    if state.pending_blank {
        state.rows = state.rows.saturating_add(1);
        state.pending_blank = false;
        gap_emitted = true;
    }
    if state.rows > 0 && !gap_emitted && !state.last_content_was_heading {
        state.rows = state.rows.saturating_add(1);
    }
}

/// Moves on by the gap in front of a text; `true` where it has a row.
pub fn measure_text_gap(state: &mut FlowState, kind: MarkdownTextKind) -> (gap: bool)
    ensures
        *final(state) == text_gap(*old(state), kind),
        gap == (final(state).rows != old(state).rows),
{
    if state.rows == 0 {
        state.pending_blank = false;
        return false;
    }
    if kind == MarkdownTextKind::List && !state.prev_was_block {
        state.pending_blank = false;
        return false;
    }
    let before = state.rows;
    measure_block_gap(state);
    state.rows != before
}

fn skip_blank_lines(lines: &Vec<FlowLine>, from: usize) -> (next: usize)
    requires
        from <= lines@.len(),
    ensures
        next == next_text(lines@, from as int),
        from <= next <= lines@.len(),
{
    let mut next: usize = from;
    while next < lines.len() && lines[next].blank
        invariant
            from <= next <= lines@.len(),
            next_text(lines@, from as int) == next_text(lines@, next as int),
        decreases lines.len() - next,
    {
        next += 1;
    }
    next
}

/// Moves on to the place of a line of text.
fn measure_before_line(state: &mut FlowState, kind: MarkdownTextKind, started: bool)
    ensures
        *final(state) == before_line(*old(state), kind, started),
{
    let mut gap_emitted = false;
    if !started {
        gap_emitted = measure_text_gap(state, kind);
    }
    if state.pending_blank {
        state.rows = state.rows.saturating_add(1);
        state.pending_blank = false;
        gap_emitted = true;
    }
    if state.prev_was_block && !gap_emitted {
        state.rows = state.rows.saturating_add(1);
        state.pending_blank = false;
    }
}

/// Moves on by the lines of a text.
pub fn measure_text_lines(lines: &Vec<FlowLine>, kind: MarkdownTextKind, state: &mut FlowState)
    ensures
        *final(state) == walk_state(lines@, kind, 0, false, *old(state)),
{
    let ghost start = *state;
    let mut started = false;
    let mut i: usize = 0;
    while i < lines.len()
        invariant
            i <= lines@.len(),
            start == *old(state),
            walk_state(lines@, kind, 0, false, start) == walk_state(
                lines@,
                kind,
                i as int,
                started,
                *state,
            ),
        decreases lines.len() - i,
    {
        if lines[i].blank {
            let next = skip_blank_lines(lines, i + 1);
            if state.rows > 0 && !state.last_content_was_heading && next < lines.len()
                && !lines[next].list_item {
                state.pending_blank = true;
            }
            i = next;
        } else {
            measure_before_line(state, kind, started);
            started = true;
            state.rows = state.rows.saturating_add(lines[i].rows.len());
            state.last_content_was_heading = kind == MarkdownTextKind::Heading;
            state.prev_was_block = false;
            i += 1;
        }
    }
}

/// Moves on by one text.
pub fn measure_markdown_doc(nodes: &Vec<FlowNode>, state: &mut FlowState)
    ensures
        *final(state) == after_doc(*old(state), nodes@),
{
    let ghost start = *state;
    let mut i: usize = 0;
    while i < nodes.len()
        invariant
            i <= nodes@.len(),
            start == *old(state),
            *state == doc_state(start, nodes@, i as int),
        decreases nodes.len() - i,
    {
        match &nodes[i] {
            FlowNode::Text { kind, lines } => {
                measure_text_lines(lines, *kind, state);
            },
            FlowNode::Code { rows, .. } => {
                measure_block_gap(state);
                state.rows = state.rows.saturating_add(*rows);
                state.last_content_was_heading = false;
                state.prev_was_block = true;
            },
            FlowNode::Table { rows, .. } => {
                measure_block_gap(state);
                state.rows = state.rows.saturating_add(*rows as usize);
                state.last_content_was_heading = false;
                state.prev_was_block = true;
            },
            FlowNode::Rule => {
                measure_block_gap(state);
                state.rows = state.rows.saturating_add(1);
                state.last_content_was_heading = false;
                state.prev_was_block = true;
            },
        }
        i += 1;
    }
}

/// Rows of several texts that follow each other.
pub fn measure_markdown_docs(docs: &Vec<Vec<FlowNode>>) -> (rows: usize)
    ensures
        rows == docs_state(FlowState::start(), docs@, docs@.len() as int).rows,
{
    let mut state = FlowState::new();
    let mut i: usize = 0;
    while i < docs.len()
        invariant
            i <= docs@.len(),
            state == docs_state(FlowState::start(), docs@, i as int),
        decreases docs.len() - i,
    {
        measure_markdown_doc(&docs[i], &mut state);
        i += 1;
    }
    state.rows
}

/// Rows of a Markdown text at the width that it was laid out for.
pub fn measure_markdown_inner_with_options(nodes: &Vec<FlowNode>) -> (rows: usize)
    ensures
        rows == after_doc(FlowState::start(), nodes@).rows,
{
    let mut state = FlowState::new();
    measure_markdown_doc(nodes, &mut state);
    state.rows
}

/// Draws `row` where it is to be drawn, and moves on.
fn emit_row(out: &mut Vec<FlowRow>, clip: Option<RowClip>, state: &mut FlowState, row: FlowRow)
    requires
        old(state).rows < usize::MAX,
    ensures
        final(out)@ == old(out)@ + clipped(seq![row], old(state).rows as int, clip),
        *final(state) == old(state).after_rows(1),
{
    let ghost before = out@;
    if should_emit(clip, state.rows) {
        out.push(row);
    }
    proof {
        assert(out@ =~= before + clipped(seq![row], state.rows as int, clip));
    }
    state.rows = state.rows + 1;
}

/// Whether everything from here on lies behind the range.
fn past_clip(clip: Option<RowClip>, state: &FlowState) -> (past: bool)
    ensures
        past == (clip matches Some(clip) && clip.end <= state.rows),
{
    match clip {
        Some(clip) => state.rows >= clip.end,
        None => false,
    }
}

/// Draws the blank row between `s` and the present state, where there is one.
fn emit_gap(out: &mut Vec<FlowRow>, clip: Option<RowClip>, from: usize, to: usize)
    requires
        from <= to,
    ensures
        final(out)@ == old(out)@ + clipped(blank_rows(to - from), from as int, clip),
{
    let ghost start = out@;
    let mut row: usize = from;
    proof {
        assert(start + clipped(blank_rows(0), from as int, clip) =~= start);
    }
    while row < to
        invariant
            from <= row <= to,
            start == old(out)@,
            out@ == start + clipped(blank_rows(row - from), from as int, clip),
        decreases to - row,
    {
        proof {
            assert(blank_rows(row + 1 - from) =~= blank_rows(row - from) + seq![FlowRow::Blank]);
            lemma_clipped_concat(
                blank_rows(row - from),
                seq![FlowRow::Blank],
                from as int,
                clip,
            );
            assert(clipped(seq![FlowRow::Blank], row as int, clip) =~= if emits(
                clip,
                row as int,
            ) {
                seq![FlowRow::Blank]
            } else {
                Seq::empty()
            });
        }
        let ghost before = out@;
        if should_emit(clip, row) {
            out.push(FlowRow::Blank);
        }
        proof {
            assert(out@ =~= before + clipped(seq![FlowRow::Blank], row as int, clip));
            assert(out@ =~= start + clipped(blank_rows(row + 1 - from), from as int, clip));
        }
        row += 1;
    }
}

/// Draws the lines of a text. Where it stops at the end of the range, the state is
/// left there.
#[verifier::spinoff_prover]
#[verifier::rlimit(40)]
fn render_text_lines(
    out: &mut Vec<FlowRow>,
    lines: &Vec<FlowLine>,
    kind: MarkdownTextKind,
    clip: Option<RowClip>,
    state: &mut FlowState,
    doc: usize,
    node: usize,
)
    requires
        walk_state(lines@, kind, 0, false, *old(state)).rows < usize::MAX,
    ensures
        final(out)@ == old(out)@ + clipped(
            walk_rows(lines@, kind, 0, false, *old(state), doc as int, node as int),
            old(state).rows as int,
            clip,
        ),
        *final(state) == walk_state(lines@, kind, 0, false, *old(state)) || (clip matches Some(
            clip,
        ) && clip.end <= final(state).rows && clip.end <= walk_state(
            lines@,
            kind,
            0,
            false,
            *old(state),
        ).rows),
{
    let ghost start = *state;
    let ghost before = out@;
    let ghost all = walk_rows(lines@, kind, 0, false, start, doc as int, node as int);
    let ghost base = start.rows as int;
    let mut started = false;
    let mut i: usize = 0;
    proof {
        lemma_walk(lines@, kind, 0, false, start, doc as int, node as int);
        assert(before + clipped(Seq::empty(), base, clip) =~= before);
        assert(Seq::<FlowRow>::empty() + all =~= all);
    }
    let ghost mut drawn: Seq<FlowRow> = Seq::empty();
    while i < lines.len()
        invariant
            i <= lines@.len(),
            start == *old(state),
            before == old(out)@,
            base == start.rows,
            walk_state(lines@, kind, 0, false, start).rows < usize::MAX,
            walk_state(lines@, kind, 0, false, start) == walk_state(
                lines@,
                kind,
                i as int,
                started,
                *state,
            ),
            all == walk_rows(lines@, kind, 0, false, start, doc as int, node as int),
            all == drawn + walk_rows(
                lines@,
                kind,
                i as int,
                started,
                *state,
                doc as int,
                node as int,
            ),
            state.rows == base + drawn.len(),
            out@ == before + clipped(drawn, base, clip),
        decreases lines.len() - i,
    {
        let ghost s = *state;
        let ghost rest = walk_rows(
            lines@,
            kind,
            i as int,
            started,
            s,
            doc as int,
            node as int,
        );
        proof {
            lemma_walk(lines@, kind, i as int, started, s, doc as int, node as int);
        }
        if past_clip(clip, state) {
            proof {
                lemma_clipped_concat(drawn, rest, base, clip);
                lemma_clipped_past(rest, base + drawn.len(), clip);
                assert(clipped(all, base, clip) =~= clipped(drawn, base, clip));
            }
            return;
        }
        if lines[i].blank {
            let next = skip_blank_lines(lines, i + 1);
            if state.rows > 0 && !state.last_content_was_heading && next < lines.len()
                && !lines[next].list_item {
                state.pending_blank = true;
            }
            i = next;
        } else {
            let from = state.rows;
            measure_before_line(state, kind, started);
            let ghost at = *state;
            let ghost gap = blank_rows(at.rows - s.rows);
            let ghost own = line_rows(lines@[i as int], doc as int, node as int, i as int);
            let ghost after = after_line(at, kind, lines@[i as int].rows@.len() as int);
            let ghost later = walk_rows(
                lines@,
                kind,
                i + 1,
                true,
                after,
                doc as int,
                node as int,
            );
            proof {
                lemma_before_line(s, kind, started);
                lemma_walk(lines@, kind, i + 1, true, after, doc as int, node as int);
            }
            emit_gap(out, clip, from, state.rows);
            render_line_rows(out, &lines[i], clip, state, doc, node, i);
            state.last_content_was_heading = kind == MarkdownTextKind::Heading;
            state.prev_was_block = false;
            proof {
                lemma_clipped_concat(drawn, gap, base, clip);
                lemma_clipped_concat(drawn + gap, own, base, clip);
                assert(before + (clipped(drawn, base, clip) + clipped(gap, s.rows as int, clip)
                    + clipped(own, at.rows as int, clip)) =~= before + clipped(drawn, base, clip)
                    + clipped(gap, s.rows as int, clip) + clipped(own, at.rows as int, clip));
                assert(rest == gap + own + later);
                assert(drawn + (gap + own + later) =~= (drawn + gap + own) + later);
                drawn = drawn + gap + own;
            }
            started = true;
            i += 1;
        }
    }
    proof {
        assert(drawn + Seq::<FlowRow>::empty() =~= drawn);
    }
}

/// Draws the rows of one line.
fn render_line_rows(
    out: &mut Vec<FlowRow>,
    line: &FlowLine,
    clip: Option<RowClip>,
    state: &mut FlowState,
    doc: usize,
    node: usize,
    index: usize,
)
    requires
        old(state).rows + line.rows@.len() < usize::MAX,
    ensures
        final(out)@ == old(out)@ + clipped(
            line_rows(*line, doc as int, node as int, index as int),
            old(state).rows as int,
            clip,
        ),
        *final(state) == old(state).after_rows(line.rows@.len() as int),
{
    let ghost start = *state;
    let ghost before = out@;
    let ghost all = line_rows(*line, doc as int, node as int, index as int);
    let mut segment: usize = 0;
    proof {
        assert(before + clipped(all.take(0), start.rows as int, clip) =~= before);
    }
    while segment < line.rows.len()
        invariant
            segment <= line.rows@.len(),
            start == *old(state),
            before == old(out)@,
            start.rows + line.rows@.len() < usize::MAX,
            *state == start.after_rows(segment as int),
            all == line_rows(*line, doc as int, node as int, index as int),
            out@ == before + clipped(all.take(segment as int), start.rows as int, clip),
        decreases line.rows.len() - segment,
    {
        let row = FlowRow::Line { doc, node, line: index, segment, visible: line.rows[segment] };
        emit_row(out, clip, state, row);
        proof {
            let sofar = all.take(segment as int);
            assert(all.take(segment + 1) =~= sofar + seq![row]);
            lemma_clipped_concat(sofar, seq![row], start.rows as int, clip);
            assert(out@ =~= before + clipped(all.take(segment + 1), start.rows as int, clip));
        }
        segment += 1;
    }
    proof {
        assert(all.take(segment as int) =~= all);
    }
}

/// The rows of a code block or table.
pub open spec fn block_rows(code: bool, doc: int, node: int, rows: int, visible: bool) -> Seq<
    FlowRow,
> {
    Seq::new(
        rows as nat,
        |row: int|
            if code {
                FlowRow::Code { doc: doc as usize, node: node as usize, row: row as usize, visible }
            } else {
                FlowRow::Table { doc: doc as usize, node: node as usize, row: row as usize, visible }
            },
    )
}

/// Draws those rows of a code block or table that lie in the range.
fn render_block_rows(
    out: &mut Vec<FlowRow>,
    code: bool,
    doc: usize,
    node: usize,
    rows: usize,
    visible: bool,
    clip: Option<RowClip>,
    base: usize,
)
    requires
        base + rows < usize::MAX,
    ensures
        final(out)@ == old(out)@ + clipped(
            block_rows(code, doc as int, node as int, rows as int, visible),
            base as int,
            clip,
        ),
{
    let ghost before = out@;
    let ghost all = block_rows(code, doc as int, node as int, rows as int, visible);
    let (start, end) = match clip {
        None => (0, rows),
        Some(clip) => {
            let start = clip.start.saturating_sub(base);
            let end = clip.end.saturating_sub(base);
            (if start < rows { start } else { rows }, if end < rows { end } else { rows })
        },
    };
    let mut row: usize = start;
    proof {
        assert(before + all.subrange(start as int, start as int) =~= before);
    }
    while row < end
        invariant
            start <= row,
            row <= end || row == start,
            start <= rows,
            end <= rows,
            before == old(out)@,
            all == block_rows(code, doc as int, node as int, rows as int, visible),
            out@ == before + all.subrange(start as int, row as int),
        decreases end - row,
    {
        let item = if code {
            FlowRow::Code { doc, node, row, visible }
        } else {
            FlowRow::Table { doc, node, row, visible }
        };
        out.push(item);
        proof {
            assert(all.subrange(start as int, row + 1) =~= all.subrange(
                start as int,
                row as int,
            ).push(item));
            assert(out@ =~= before + all.subrange(start as int, row + 1));
        }
        row += 1;
    }
    proof {
        assert(clipped(all, base as int, clip) =~= all.subrange(start as int, row as int));
    }
}

/// Draws one part of a text. Where it stops at the end of the range, the state is
/// left there.
#[verifier::spinoff_prover]
#[verifier::rlimit(40)]
fn render_node(
    out: &mut Vec<FlowRow>,
    node: &FlowNode,
    clip: Option<RowClip>,
    state: &mut FlowState,
    doc: usize,
    index: usize,
)
    requires
        node_state(*old(state), *node).rows < usize::MAX,
    ensures
        final(out)@ == old(out)@ + clipped(
            node_rows(*old(state), *node, doc as int, index as int),
            old(state).rows as int,
            clip,
        ),
        *final(state) == node_state(*old(state), *node) || (clip matches Some(clip) && clip.end
            <= final(state).rows && clip.end <= node_state(*old(state), *node).rows),
{
    let ghost s = *state;
    let ghost before = out@;
    let ghost gap = blank_rows(block_gap(s).rows - s.rows);
    match node {
        FlowNode::Text { kind, lines } => {
            render_text_lines(out, lines, *kind, clip, state, doc, index);
        },
        FlowNode::Code { rows, visible } => {
            let from = state.rows;
            measure_block_gap(state);
            emit_gap(out, clip, from, state.rows);
            render_block_rows(out, true, doc, index, *rows, *visible, clip, state.rows);
            proof {
                let own = block_rows(true, doc as int, index as int, *rows as int, *visible);
                assert(node_rows(s, *node, doc as int, index as int) =~= gap + own);
                lemma_clipped_concat(gap, own, s.rows as int, clip);
                assert(out@ =~= before + clipped(gap + own, s.rows as int, clip));
            }
            state.rows = state.rows.saturating_add(*rows);
            state.last_content_was_heading = false;
            state.prev_was_block = true;
        },
        FlowNode::Table { rows, visible } => {
            let from = state.rows;
            measure_block_gap(state);
            emit_gap(out, clip, from, state.rows);
            render_block_rows(out, false, doc, index, *rows as usize, *visible, clip, state.rows);
            proof {
                let own = block_rows(false, doc as int, index as int, *rows as int, *visible);
                assert(node_rows(s, *node, doc as int, index as int) =~= gap + own);
                lemma_clipped_concat(gap, own, s.rows as int, clip);
                assert(out@ =~= before + clipped(gap + own, s.rows as int, clip));
            }
            state.rows = state.rows.saturating_add(*rows as usize);
            state.last_content_was_heading = false;
            state.prev_was_block = true;
        },
        FlowNode::Rule => {
            let from = state.rows;
            measure_block_gap(state);
            emit_gap(out, clip, from, state.rows);
            let row = FlowRow::Rule { doc, node: index };
            emit_row(out, clip, state, row);
            proof {
                lemma_clipped_concat(gap, seq![row], s.rows as int, clip);
                assert(out@ =~= before + clipped(gap + seq![row], s.rows as int, clip));
            }
            state.last_content_was_heading = false;
            state.prev_was_block = true;
        },
    }
}

/// Draws several texts that follow each other, from a state in front of the first,
/// which is text `first`: those rows that lie in the range.
pub fn render_markdown_docs_from_state(
    docs: &Vec<Vec<FlowNode>>,
    first: usize,
    clip: Option<RowClip>,
    from: FlowState,
) -> (out: Vec<FlowRow>)
    requires
        docs_state(from, docs@, docs@.len() as int).rows < usize::MAX,
        first + docs@.len() <= usize::MAX,
    ensures
        out@ == clipped(
            docs_rows(from, docs@, first as int, docs@.len() as int),
            from.rows as int,
            clip,
        ),
{
    let ghost start = from;
    let ghost base = start.rows as int;
    let mut state = from;
    let mut out: Vec<FlowRow> = Vec::new();
    let mut d: usize = 0;
    proof {
        assert(clipped(Seq::empty(), base, clip) =~= Seq::<FlowRow>::empty());
    }
    while d < docs.len()
        invariant
            d <= docs@.len(),
            first + docs@.len() <= usize::MAX,
            start == from,
            base == start.rows,
            docs_state(start, docs@, docs@.len() as int).rows < usize::MAX,
            state == docs_state(start, docs@, d as int),
            out@ == clipped(docs_rows(start, docs@, first as int, d as int), base, clip),
        decreases docs.len() - d,
    {
        let ghost s = state;
        let ghost nodes = docs@[d as int]@;
        let ghost drawn = docs_rows(start, docs@, first as int, d as int);
        let ghost which = first + d;
        let ghost before = out@;
        proof {
            lemma_docs(start, docs@, first as int, d as int);
            lemma_docs(start, docs@, first as int, d + 1);
            assert(before + clipped(Seq::empty(), s.rows as int, clip) =~= before);
        }
        let mut i: usize = 0;
        while i < docs[d].len()
            invariant
                d < docs@.len(),
                nodes == docs@[d as int]@,
                i <= nodes.len(),
                which == first + d,
                first + docs@.len() <= usize::MAX,
                start == from,
                base == start.rows,
                docs_state(start, docs@, docs@.len() as int).rows < usize::MAX,
                s == docs_state(start, docs@, d as int),
                after_doc(s, nodes).rows < usize::MAX,
                drawn == docs_rows(start, docs@, first as int, d as int),
                s.rows == base + drawn.len(),
                before == clipped(drawn, base, clip),
                state == doc_state(s, nodes, i as int),
                out@ == before + clipped(
                    doc_rows(s, nodes, which, i as int),
                    s.rows as int,
                    clip,
                ),
            decreases nodes.len() - i,
        {
            let ghost sofar = doc_rows(s, nodes, which, i as int);
            proof {
                lemma_doc(s, nodes, which, i as int);
                lemma_doc(s, nodes, which, i + 1);
            }
            if past_clip(clip, &state) {
                proof {
                    let all = docs_rows(start, docs@, first as int, docs@.len() as int);
                    lemma_docs_prefix(start, docs@, first as int, d as int, i as int);
                    lemma_clipped_concat(drawn, sofar, base, clip);
                    let upto = drawn + sofar;
                    assert(all =~= upto + all.skip(upto.len() as int));
                    lemma_clipped_concat(upto, all.skip(upto.len() as int), base, clip);
                    lemma_clipped_past(
                        all.skip(upto.len() as int),
                        base + upto.len(),
                        clip,
                    );
                    assert(out@ =~= clipped(all, base, clip));
                }
                return out;
            }
            let ghost t = state;
            let ghost own = node_rows(t, nodes[i as int], which, i as int);
            let ghost mid = out@;
            render_node(&mut out, &docs[d][i], clip, &mut state, first + d, i);
            proof {
                lemma_clipped_concat(sofar, own, s.rows as int, clip);
                assert(out@ =~= before + clipped(sofar + own, s.rows as int, clip));
            }
            if past_clip(clip, &state) {
                proof {
                    let all = docs_rows(start, docs@, first as int, docs@.len() as int);
                    lemma_docs_prefix(start, docs@, first as int, d as int, i + 1);
                    lemma_clipped_concat(drawn, sofar + own, base, clip);
                    let upto = drawn + (sofar + own);
                    assert(doc_rows(s, nodes, which, i + 1) == sofar + own);
                    assert(upto.len() == doc_state(s, nodes, i + 1).rows - base);
                    assert(all =~= upto + all.skip(upto.len() as int));
                    lemma_clipped_concat(upto, all.skip(upto.len() as int), base, clip);
                    lemma_clipped_past(
                        all.skip(upto.len() as int),
                        base + upto.len(),
                        clip,
                    );
                    assert(out@ =~= clipped(all, base, clip));
                }
                return out;
            }
            i += 1;
        }
        proof {
            let own = doc_rows(s, nodes, which, nodes.len() as int);
            lemma_clipped_concat(drawn, own, base, clip);
        }
        d += 1;
    }
    out
}

/// The rows of the first texts, and of the first parts of the next one, stand at the
/// start of the rows of all.
proof fn lemma_docs_prefix(
    s: FlowState,
    docs: Seq<Vec<FlowNode>>,
    first: int,
    d: int,
    i: int,
)
    requires
        0 <= d < docs.len(),
        0 <= i <= docs[d]@.len(),
    ensures
        ({
            let all = docs_rows(s, docs, first, docs.len() as int);
            let upto = docs_rows(s, docs, first, d) + doc_rows(
                docs_state(s, docs, d),
                docs[d]@,
                first + d,
                i,
            );
            all.len() >= upto.len() && all.take(upto.len() as int) == upto
        }),
{
    let all = docs_rows(s, docs, first, docs.len() as int);
    let near = docs_rows(s, docs, first, d + 1);
    let own = doc_rows(docs_state(s, docs, d), docs[d]@, first + d, docs[d]@.len() as int);
    let part = doc_rows(docs_state(s, docs, d), docs[d]@, first + d, i);
    let upto = docs_rows(s, docs, first, d) + part;
    lemma_docs_rows_prefix(s, docs, first, d + 1);
    lemma_doc_rows_prefix(docs_state(s, docs, d), docs[d]@, first + d, i);
    assert(near == docs_rows(s, docs, first, d) + own);
    assert(upto =~= near.take(upto.len() as int));
    assert(all.take(upto.len() as int) =~= upto);
}

proof fn lemma_docs_rows_prefix(s: FlowState, docs: Seq<Vec<FlowNode>>, first: int, upto: int)
    requires
        0 <= upto <= docs.len(),
    ensures
        docs_rows(s, docs, first, docs.len() as int).len() >= docs_rows(
            s,
            docs,
            first,
            upto,
        ).len(),
        docs_rows(s, docs, first, docs.len() as int).take(
            docs_rows(s, docs, first, upto).len() as int,
        ) == docs_rows(s, docs, first, upto),
    decreases docs.len() - upto,
{
    let all = docs_rows(s, docs, first, docs.len() as int);
    let part = docs_rows(s, docs, first, upto);
    if upto < docs.len() {
        lemma_docs_rows_prefix(s, docs, first, upto + 1);
        let more = docs_rows(s, docs, first, upto + 1);
        assert(more.take(part.len() as int) =~= part);
        assert(all.take(part.len() as int) =~= part);
    } else {
        assert(all.take(part.len() as int) =~= part);
    }
}

proof fn lemma_doc_rows_prefix(s: FlowState, nodes: Seq<FlowNode>, doc: int, upto: int)
    requires
        0 <= upto <= nodes.len(),
    ensures
        doc_rows(s, nodes, doc, nodes.len() as int).len() >= doc_rows(s, nodes, doc, upto).len(),
        doc_rows(s, nodes, doc, nodes.len() as int).take(
            doc_rows(s, nodes, doc, upto).len() as int,
        ) == doc_rows(s, nodes, doc, upto),
    decreases nodes.len() - upto,
{
    let all = doc_rows(s, nodes, doc, nodes.len() as int);
    let part = doc_rows(s, nodes, doc, upto);
    if upto < nodes.len() {
        lemma_doc_rows_prefix(s, nodes, doc, upto + 1);
        let more = doc_rows(s, nodes, doc, upto + 1);
        assert(more.take(part.len() as int) =~= part);
        assert(all.take(part.len() as int) =~= part);
    } else {
        assert(all.take(part.len() as int) =~= part);
    }
}

} // verus!
