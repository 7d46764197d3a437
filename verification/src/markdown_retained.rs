//! Markdown as a whole: drawing ranges of it, its edges, and a growing text whose
//! finished parts are measured once per width.
use vstd::prelude::*;
use crate::ir::ContentTextWindow;
use crate::markdown_flow::{
    after_doc, clipped, doc_rows, docs_rows, docs_state, lemma_docs, measure_markdown_doc,
    measure_markdown_docs, render_markdown_docs_from_state, FlowNode, FlowRow, FlowState, RowClip,
};
use crate::text::{min_usize, spec_min};

verus! {

/// All rows of a Markdown text.
pub open spec fn all_rows(docs: Seq<Vec<FlowNode>>) -> Seq<FlowRow> {
    docs_rows(FlowState::start(), docs, 0, docs.len() as int)
}

/// Rows that a Markdown text is measured to have.
pub open spec fn measured_rows(docs: Seq<Vec<FlowNode>>) -> usize {
    docs_state(FlowState::start(), docs, docs.len() as int).rows
}

/// A Markdown text has as many rows as it is measured to have.
pub proof fn markdown_draws_measured_rows(docs: Seq<Vec<FlowNode>>)
    requires
        measured_rows(docs) < usize::MAX,
    ensures
        all_rows(docs).len() == measured_rows(docs),
{
    lemma_docs(FlowState::start(), docs, 0, docs.len() as int);
}

/// Rows `start .. start + count` of `rows`.
pub open spec fn cut(rows: Seq<FlowRow>, start: usize, count: usize) -> Seq<FlowRow> {
    let end = if start.saturating_add(count) < rows.len() {
        start.saturating_add(count) as int
    } else {
        rows.len() as int
    };
    if start < end {
        rows.subrange(start as int, end)
    } else {
        Seq::empty()
    }
}

/// Draws all rows of a Markdown text.
pub fn render_markdown_inner(docs: &Vec<Vec<FlowNode>>) -> (rows: Vec<FlowRow>)
    requires
        measured_rows(docs@) < usize::MAX,
    ensures
        rows@ == all_rows(docs@),
{
    render_markdown_inner_with_options(docs)
}

/// Draws all rows of a Markdown text that was laid out with options of its own.
pub fn render_markdown_inner_with_options(docs: &Vec<Vec<FlowNode>>) -> (rows: Vec<FlowRow>)
    requires
        measured_rows(docs@) < usize::MAX,
    ensures
        rows@ == all_rows(docs@),
{
    assert(docs.len() <= usize::MAX);
    render_markdown_docs_from_state(docs, 0, None, FlowState::new())
}

/// Draws the rows `row_start .. row_start + row_count` of a Markdown text.
pub fn render_markdown_inner_range_with_options(
    docs: &Vec<Vec<FlowNode>>,
    row_start: usize,
    row_count: usize,
) -> (rows: Vec<FlowRow>)
    requires
        measured_rows(docs@) < usize::MAX,
    ensures
        rows@ == cut(all_rows(docs@), row_start, row_count),
{
    if row_count == 0 {
        return Vec::new();
    }
    let clip = RowClip { start: row_start, end: row_start.saturating_add(row_count) };
    assert(docs.len() <= usize::MAX);
    let rows = render_markdown_docs_from_state(docs, 0, Some(clip), FlowState::new());
    proof {
        assert(rows@ =~= cut(all_rows(docs@), row_start, row_count));
    }
    rows
}

/// Whether any of `rows` shows text.
pub open spec fn any_text(rows: Seq<FlowRow>) -> bool {
    exists|i: int| 0 <= i < rows.len() && (#[trigger] rows[i]).shows_text()
}

/// Whether the rows `row_start .. row_start + row_count` of a Markdown text show any
/// text.
pub fn markdown_range_has_visible_text_with_options(
    docs: &Vec<Vec<FlowNode>>,
    row_start: usize,
    row_count: usize,
) -> (visible: bool)
    requires
        measured_rows(docs@) < usize::MAX,
    ensures
        visible == any_text(cut(all_rows(docs@), row_start, row_count)),
{
    let rows = render_markdown_inner_range_with_options(docs, row_start, row_count);
    let mut i: usize = 0;
    while i < rows.len()
        invariant
            i <= rows@.len(),
            rows@ == cut(all_rows(docs@), row_start, row_count),
            forall|j: int| 0 <= j < i ==> !(#[trigger] rows@[j]).shows_text(),
        decreases rows.len() - i,
    {
        if rows[i].has_visible_text() {
            return true;
        }
        i += 1;
    }
    false
}

/// Texts from `k` on, drawn from the state that the texts before them leave, are the
/// rest of all rows: a range can be drawn from any finished text before it.
pub proof fn drawing_can_start_at_any_text(
    s: FlowState,
    docs: Seq<Vec<FlowNode>>,
    first: int,
    k: int,
    upto: int,
)
    requires
        0 <= k <= upto <= docs.len(),
    ensures
        docs_rows(s, docs, first, upto) == docs_rows(s, docs, first, k) + docs_rows(
            docs_state(s, docs, k),
            docs.skip(k),
            first + k,
            upto - k,
        ),
        docs_state(s, docs, upto) == docs_state(docs_state(s, docs, k), docs.skip(k), upto - k),
    decreases upto - k,
{
    let t = docs_state(s, docs, k);
    if upto > k {
        drawing_can_start_at_any_text(s, docs, first, k, upto - 1);
        assert(docs.skip(k)[upto - k - 1] == docs[upto - 1]);
        let own = doc_rows(
            docs_state(s, docs, upto - 1),
            docs[upto - 1]@,
            first + upto - 1,
            docs[upto - 1]@.len() as int,
        );
        assert(docs_rows(s, docs, first, k) + (docs_rows(
            t,
            docs.skip(k),
            first + k,
            upto - k - 1,
        ) + own) =~= (docs_rows(s, docs, first, k) + docs_rows(
            t,
            docs.skip(k),
            first + k,
            upto - k - 1,
        )) + own);
    } else {
        assert(docs_rows(s, docs, first, k) + docs_rows(t, docs.skip(k), first + k, 0)
            =~= docs_rows(s, docs, first, k));
    }
}

/// The texts that a function hands out, each laid out anew.
pub open spec fn doc_of<F: Fn(usize) -> Vec<FlowNode>>(doc_at: F, i: usize) -> Vec<FlowNode> {
    choose|nodes: Vec<FlowNode>| call_ensures(doc_at, (i,), nodes)
}

/// The function can be asked for every text and always hands out the same.
pub open spec fn steady_docs<F: Fn(usize) -> Vec<FlowNode>>(doc_at: F) -> bool {
    &&& forall|i: usize| call_requires(doc_at, (i,))
    &&& forall|i: usize, a: Vec<FlowNode>, b: Vec<FlowNode>|
        call_ensures(doc_at, (i,), a) && call_ensures(doc_at, (i,), b) ==> a == b
}

/// Texts `from .. to`.
pub open spec fn docs_between<F: Fn(usize) -> Vec<FlowNode>>(doc_at: F, from: int, to: int) -> Seq<
    Vec<FlowNode>,
> {
    Seq::new((to - from) as nat, |i: int| doc_of(doc_at, (from + i) as usize))
}

/// How many texts from the start are laid out, at `k` of them, to find the first
/// `max_rows` rows and one more.
pub open spec fn head_docs<F: Fn(usize) -> Vec<FlowNode>>(
    doc_at: F,
    count: int,
    max_rows: int,
    k: int,
) -> int
    decreases count - k,
{
    if k >= count || docs_state(FlowState::start(), docs_between(doc_at, 0, k), k).rows > max_rows {
        k
    } else {
        head_docs(doc_at, count, max_rows, k + 1)
    }
}

/// Where the texts begin that are laid out to find the last rows: so many from the
/// end that they have more than `target` rows, each counted on its own.
pub open spec fn tail_docs<F: Fn(usize) -> Vec<FlowNode>>(
    doc_at: F,
    start: int,
    estimated: usize,
    target: usize,
) -> int
    decreases start,
{
    if start <= 0 || estimated > target {
        start
    } else {
        tail_docs(
            doc_at,
            start - 1,
            estimated.saturating_add(
                after_doc(FlowState::start(), doc_of(doc_at, (start - 1) as usize)@).rows,
            ),
            target,
        )
    }
}

/// The first, or last, rows of a retained Markdown text: `row_count` rows from
/// `row_start` on of the texts `docs`, of which the first is text `first`.
pub struct RetainedMarkdownEdge {
    pub docs: Vec<Vec<FlowNode>>,
    pub first: usize,
    pub row_start: usize,
    pub row_count: usize,
    pub truncated: bool,
}

impl RetainedMarkdownEdge {
    /// How many rows there are, and whether there are more.
    pub fn window(&self) -> (window: ContentTextWindow)
        ensures
            window.row_count == self.row_count,
            window.truncated == self.truncated,
    {
        ContentTextWindow { row_count: self.row_count, truncated: self.truncated }
    }
}

/// What the edge of a text of `count` texts is.
pub open spec fn is_edge<F: Fn(usize) -> Vec<FlowNode>>(
    edge: RetainedMarkdownEdge,
    doc_at: F,
    count: usize,
    empty: bool,
    max_rows: usize,
    tail: bool,
) -> bool {
    if max_rows == 0 {
        &&& edge.docs@.len() == 0
        &&& edge.row_start == 0
        &&& edge.row_count == 0
        &&& edge.truncated == !empty
    } else if tail {
        let start = tail_docs(doc_at, count as int, 0, max_rows.saturating_add(2));
        let total = docs_state(
            FlowState::start(),
            docs_between(doc_at, start, count as int),
            count - start,
        ).rows;
        &&& edge.first == start
        &&& edge.docs@ == docs_between(doc_at, start, count as int)
        &&& edge.row_count == spec_min(total, max_rows)
        &&& edge.row_start == total - edge.row_count
        &&& edge.truncated == (start > 0 || total > max_rows)
    } else {
        let upto = head_docs(doc_at, count as int, max_rows as int, 0);
        let total = docs_state(FlowState::start(), docs_between(doc_at, 0, upto), upto).rows;
        &&& edge.first == 0
        &&& edge.docs@ == docs_between(doc_at, 0, upto)
        &&& edge.row_count == spec_min(total, max_rows)
        &&& edge.row_start == 0
        &&& edge.truncated == (upto < count || total > max_rows)
    }
}

proof fn lemma_docs_state_same(
    s: FlowState,
    a: Seq<Vec<FlowNode>>,
    b: Seq<Vec<FlowNode>>,
    upto: int,
)
    requires
        upto <= a.len(),
        upto <= b.len(),
        forall|i: int| 0 <= i < upto ==> a[i] == b[i],
    ensures
        docs_state(s, a, upto) == docs_state(s, b, upto),
    decreases upto,
{
    if upto > 0 {
        lemma_docs_state_same(s, a, b, upto - 1);
    }
}

/// Finds the first, or last, `max_rows` rows of `range_count` texts without laying
/// out more of them than needed.
pub fn retained_markdown_edge<F: Fn(usize) -> Vec<FlowNode>>(
    doc_at: &F,
    range_count: usize,
    is_empty: bool,
    max_rows: usize,
    tail: bool,
) -> (edge: RetainedMarkdownEdge)
    requires
        steady_docs(*doc_at),
    ensures
        is_edge(edge, *doc_at, range_count, is_empty, max_rows, tail),
        edge.first + edge.docs@.len() <= range_count,
{
    if max_rows == 0 {
        return RetainedMarkdownEdge {
            docs: Vec::new(),
            first: 0,
            row_start: 0,
            row_count: 0,
            truncated: !is_empty,
        };
    }
    if tail {
        let target_rows = max_rows.saturating_add(2);
        let mut start: usize = range_count;
        let mut estimated_rows: usize = 0;
        let mut docs: Vec<Vec<FlowNode>> = Vec::new();
        while start > 0 && estimated_rows <= target_rows
            invariant
                steady_docs(*doc_at),
                start <= range_count,
                docs@.len() == range_count - start,
                docs@ =~= docs_between(*doc_at, start as int, range_count as int),
                tail_docs(*doc_at, range_count as int, 0, target_rows) == tail_docs(
                    *doc_at,
                    start as int,
                    estimated_rows,
                    target_rows,
                ),
            decreases start,
        {
            start -= 1;
            let nodes = doc_at(start);
            proof {
                assert(nodes == doc_of(*doc_at, start));
            }
            let mut doc_state = FlowState::new();
            measure_markdown_doc(&nodes, &mut doc_state);
            estimated_rows = estimated_rows.saturating_add(doc_state.rows);
            docs.insert(0, nodes);
        }
        let total = measure_markdown_docs(&docs);
        let row_count = min_usize(total, max_rows);
        proof {
            assert(docs@ =~= docs_between(*doc_at, start as int, range_count as int));
        }
        RetainedMarkdownEdge {
            docs,
            first: start,
            row_start: total - row_count,
            row_count,
            truncated: start > 0 || total > max_rows,
        }
    } else {
        let mut state = FlowState::new();
        let mut docs: Vec<Vec<FlowNode>> = Vec::new();
        let mut next: usize = 0;
        while next < range_count && state.rows <= max_rows
            invariant
                steady_docs(*doc_at),
                next <= range_count,
                docs@.len() == next,
                docs@ =~= docs_between(*doc_at, 0, next as int),
                state == docs_state(FlowState::start(), docs@, next as int),
                head_docs(*doc_at, range_count as int, max_rows as int, 0) == head_docs(
                    *doc_at,
                    range_count as int,
                    max_rows as int,
                    next as int,
                ),
            decreases range_count - next,
        {
            let nodes = doc_at(next);
            proof {
                assert(nodes == doc_of(*doc_at, next));
            }
            measure_markdown_doc(&nodes, &mut state);
            let ghost before = docs@;
            docs.push(nodes);
            proof {
                lemma_docs_state_same(FlowState::start(), before, docs@, next as int);
                assert(docs@ =~= docs_between(*doc_at, 0, next + 1));
            }
            next += 1;
        }
        proof {
            assert(docs@ =~= docs_between(*doc_at, 0, next as int));
        }
        RetainedMarkdownEdge {
            docs,
            first: 0,
            row_start: 0,
            row_count: min_usize(state.rows, max_rows),
            truncated: next < range_count || state.rows > max_rows,
        }
    }
}

/// The first rows of a retained Markdown text, at most `max_rows`.
pub fn measure_retained_markdown_inner_edge_with_options<F: Fn(usize) -> Vec<FlowNode>>(
    doc_at: &F,
    range_count: usize,
    is_empty: bool,
    max_rows: usize,
) -> (window: ContentTextWindow)
    requires
        steady_docs(*doc_at),
    ensures
        exists|edge: RetainedMarkdownEdge|
            #[trigger] is_edge(edge, *doc_at, range_count, is_empty, max_rows, false)
                && window.row_count == edge.row_count && window.truncated == edge.truncated,
        window.row_count <= max_rows,
{
    let edge = retained_markdown_edge(doc_at, range_count, is_empty, max_rows, false);
    edge.window()
}

/// Draws the first, or last, rows of a retained Markdown text, at most `max_rows`;
/// `None` where it has more rows than a machine can count.
pub fn render_retained_markdown_inner_edge_with_options<F: Fn(usize) -> Vec<FlowNode>>(
    doc_at: &F,
    range_count: usize,
    is_empty: bool,
    max_rows: usize,
    tail: bool,
) -> (drawn: Option<(Vec<FlowRow>, ContentTextWindow)>)
    requires
        steady_docs(*doc_at),
    ensures
        exists|edge: RetainedMarkdownEdge|
            #[trigger] is_edge(edge, *doc_at, range_count, is_empty, max_rows, tail) && {
                &&& drawn is None == (measured_rows(edge.docs@) == usize::MAX)
                &&& drawn matches Some((rows, window)) ==> {
                    &&& window.row_count == edge.row_count
                    &&& window.truncated == edge.truncated
                    &&& rows@ == cut(
                        docs_rows(
                            FlowState::start(),
                            edge.docs@,
                            edge.first as int,
                            edge.docs@.len() as int,
                        ),
                        edge.row_start,
                        edge.row_count,
                    )
                    &&& rows@.len() == window.row_count
                }
            },
{
    let edge = retained_markdown_edge(doc_at, range_count, is_empty, max_rows, tail);
    let total = measure_markdown_docs(&edge.docs);
    if total == usize::MAX {
        proof {
            assert(is_edge(edge, *doc_at, range_count, is_empty, max_rows, tail));
        }
        return None;
    }
    let clip = RowClip {
        start: edge.row_start,
        end: edge.row_start.saturating_add(edge.row_count),
    };
    let rows = render_markdown_docs_from_state(
        &edge.docs,
        edge.first,
        Some(clip),
        FlowState::new(),
    );
    proof {
        lemma_docs(FlowState::start(), edge.docs@, edge.first as int, edge.docs@.len() as int);
        assert(rows@ =~= cut(
            docs_rows(
                FlowState::start(),
                edge.docs@,
                edge.first as int,
                edge.docs@.len() as int,
            ),
            edge.row_start,
            edge.row_count,
        ));
        assert(is_edge(edge, *doc_at, range_count, is_empty, max_rows, tail));
    }
    let window = edge.window();
    Some((rows, window))
}

pub const RETAINED_MARKDOWN_LAYOUT_WIDTHS: usize = 2;

/// A range of bytes.
#[derive(Clone, Copy, Debug, PartialEq, Eq, Structural)]
pub struct ByteRange {
    pub start: usize,
    pub end: usize,
}

/// The measurement of a retained text at one width.
#[derive(Debug)]
pub struct RetainedMarkdownLayout {
    pub width: usize,
    /// The state in front of each finished text, and after the last one.
    pub completed_states: Vec<FlowState>,
    /// The revision that `total_state` was measured for.
    pub suffix_revision: Option<u64>,
    pub total_state: FlowState,
    pub last_used: u64,
}

/// A retained Markdown text that grows at its end: finished texts, which change no
/// more, and a suffix.
#[derive(Debug)]
pub struct RetainedParsedMarkdown {
    pub revision: Option<u64>,
    pub content_len: usize,
    pub completed_end: usize,
    pub completed: Vec<ByteRange>,
    pub layout_clock: u64,
    pub layouts: Vec<RetainedMarkdownLayout>,
}

/// The texts that functions hand out, laid out at a width: finished ones by their
/// number, and the suffix.
pub open spec fn completed_of<D: Fn(usize, usize) -> Vec<FlowNode>>(
    doc_at: D,
    width: usize,
    i: usize,
) -> Vec<FlowNode> {
    choose|nodes: Vec<FlowNode>| call_ensures(doc_at, (width, i), nodes)
}

pub open spec fn suffix_of<S: Fn(usize) -> Vec<FlowNode>>(suffix: S, width: usize) -> Vec<FlowNode> {
    choose|nodes: Vec<FlowNode>| call_ensures(suffix, (width,), nodes)
}

pub open spec fn steady_texts<D: Fn(usize, usize) -> Vec<FlowNode>, S: Fn(usize) -> Vec<FlowNode>>(
    doc_at: D,
    suffix: S,
) -> bool {
    &&& forall|w: usize, i: usize| call_requires(doc_at, (w, i))
    &&& forall|w: usize, i: usize, a: Vec<FlowNode>, b: Vec<FlowNode>|
        call_ensures(doc_at, (w, i), a) && call_ensures(doc_at, (w, i), b) ==> a == b
    &&& forall|w: usize| call_requires(suffix, (w,))
    &&& forall|w: usize, a: Vec<FlowNode>, b: Vec<FlowNode>|
        call_ensures(suffix, (w,), a) && call_ensures(suffix, (w,), b) ==> a == b
}

/// The first `count` finished texts at a width.
pub open spec fn finished<D: Fn(usize, usize) -> Vec<FlowNode>>(
    doc_at: D,
    width: usize,
    count: int,
) -> Seq<Vec<FlowNode>> {
    Seq::new(count as nat, |i: int| completed_of(doc_at, width, i as usize))
}

/// All texts at a width: the finished ones and the suffix.
pub open spec fn whole<D: Fn(usize, usize) -> Vec<FlowNode>, S: Fn(usize) -> Vec<FlowNode>>(
    doc_at: D,
    suffix: S,
    width: usize,
    count: int,
) -> Seq<Vec<FlowNode>> {
    finished(doc_at, width, count).push(suffix_of(suffix, width))
}

impl RetainedMarkdownLayout {
    /// The states are those that the finished texts leave, one after the other.
    pub open spec fn holds<D: Fn(usize, usize) -> Vec<FlowNode>>(
        &self,
        doc_at: D,
        count: int,
    ) -> bool {
        &&& 1 <= self.completed_states@.len() <= count + 1
        &&& forall|k: int|
            0 <= k < self.completed_states@.len() ==> #[trigger] self.completed_states@[k]
                == docs_state(FlowState::start(), finished(doc_at, self.width, k), k)
    }

    /// The total is that of all texts, where it was measured for the revision.
    pub open spec fn fresh<D: Fn(usize, usize) -> Vec<FlowNode>, S: Fn(usize) -> Vec<FlowNode>>(
        &self,
        doc_at: D,
        suffix: S,
        count: int,
        revision: Option<u64>,
    ) -> bool {
        self.suffix_revision == revision && revision is Some ==> {
            &&& self.completed_states@.len() == count + 1
            &&& self.total_state == docs_state(
                FlowState::start(),
                whole(doc_at, suffix, self.width, count),
                count + 1,
            )
        }
    }
}

/// `after` is `before` with a new revision taken in.
pub open spec fn is_update(
    before: RetainedParsedMarkdown,
    after: RetainedParsedMarkdown,
    revision: u64,
    len: usize,
    suffix_start: usize,
    more: Seq<ByteRange>,
) -> bool {
    if before.revision == Some(revision) {
        after == before
    } else {
        &&& after.revision == Some(revision)
        &&& after.content_len == len
        &&& after.completed_end == suffix_start
        &&& after.layout_clock == before.layout_clock
        &&& after.completed@ == (if before.must_reset(len, suffix_start) {
            more
        } else {
            before.completed@ + more
        })
        &&& after.layouts@ == (if before.must_reset(len, suffix_start) {
            Seq::empty()
        } else {
            before.layouts@
        })
    }
}

/// What was measured of a text stays true when it grows: a new revision keeps every
/// measurement of finished texts, and asks for a new one of the suffix.
pub proof fn growth_keeps_measurements<
    D1: Fn(usize, usize) -> Vec<FlowNode>,
    S1: Fn(usize) -> Vec<FlowNode>,
    D2: Fn(usize, usize) -> Vec<FlowNode>,
    S2: Fn(usize) -> Vec<FlowNode>,
>(
    before: RetainedParsedMarkdown,
    after: RetainedParsedMarkdown,
    revision: u64,
    len: usize,
    suffix_start: usize,
    more: Seq<ByteRange>,
    old_doc: D1,
    old_suffix: S1,
    doc: D2,
    suffix: S2,
)
    requires
        before.wf(old_doc, old_suffix),
        before.revision != Some(revision),
        is_update(before, after, revision, len, suffix_start, more),
        before.completed@.len() <= usize::MAX,
        !before.must_reset(len, suffix_start) ==> forall|w: usize, i: usize|
            i < before.completed@.len() ==> #[trigger] completed_of(doc, w, i) == completed_of(
                old_doc,
                w,
                i,
            ),
        forall|i: int|
            0 <= i < before.layouts@.len() ==> (#[trigger] before.layouts@[i]).suffix_revision
                != Some(revision),
    ensures
        after.wf(doc, suffix),
{
    if !before.must_reset(len, suffix_start) {
        let count = before.completed@.len() as int;
        assert forall|i: int| 0 <= i < after.layouts@.len() implies (
        #[trigger] after.layouts@[i]).holds(doc, after.completed@.len() as int) by {
            let layout = before.layouts@[i];
            assert(layout.holds(old_doc, count));
            assert forall|k: int| 0 <= k < layout.completed_states@.len() implies
                #[trigger] layout.completed_states@[k] == docs_state(
                FlowState::start(),
                finished(doc, layout.width, k),
                k,
            ) by {
                let a = finished(old_doc, layout.width, k);
                let b = finished(doc, layout.width, k);
                assert forall|j: int| 0 <= j < k implies a[j] == b[j] by {
                    assert(completed_of(doc, layout.width, j as usize) == completed_of(
                        old_doc,
                        layout.width,
                        j as usize,
                    ));
                }
                lemma_docs_state_same(FlowState::start(), a, b, k);
            }
        }
    }
}

/// The first measurement at `width` from `i` on.
pub open spec fn layout_place(
    layouts: Seq<RetainedMarkdownLayout>,
    width: usize,
    i: int,
) -> Option<int>
    decreases layouts.len() - i,
{
    if i >= layouts.len() {
        None
    } else if layouts[i].width == width {
        Some(i)
    } else {
        layout_place(layouts, width, i + 1)
    }
}

/// The measurements without the one at `i`, whose place the last one takes.
pub open spec fn taken_out(layouts: Seq<RetainedMarkdownLayout>, i: int) -> Seq<
    RetainedMarkdownLayout,
> {
    layouts.update(i, layouts.last()).drop_last()
}

/// Of the first `n` measurements the one that was used least recently.
pub open spec fn least_recent(layouts: Seq<RetainedMarkdownLayout>, n: int) -> int
    decreases n,
{
    if n <= 1 {
        0
    } else {
        let before = least_recent(layouts, n - 1);
        if layouts[n - 1].last_used < layouts[before].last_used {
            n - 1
        } else {
            before
        }
    }
}

/// The measurements at other widths.
pub open spec fn other_widths(layouts: Seq<RetainedMarkdownLayout>, width: usize) -> Seq<
    RetainedMarkdownLayout,
> {
    match layout_place(layouts, width, 0) {
        Some(i) => taken_out(layouts, i),
        None => layouts,
    }
}

/// The measurements at other widths that are kept beside one at `width`: all, unless there
/// are as many as may be kept; the one that was used least recently gives way then.
pub open spec fn kept_beside(layouts: Seq<RetainedMarkdownLayout>, width: usize) -> Seq<
    RetainedMarkdownLayout,
> {
    let others = other_widths(layouts, width);
    if others.len() >= RETAINED_MARKDOWN_LAYOUT_WIDTHS {
        taken_out(others, least_recent(others, others.len() as int))
    } else {
        others
    }
}

/// `after` is `before` once it was used at a width: the measurement at the width is the last
/// one, and what is kept of the others stands before it.
pub open spec fn used_at(
    before: RetainedParsedMarkdown,
    after: RetainedParsedMarkdown,
    width: usize,
) -> bool {
    &&& after.revision == before.revision
    &&& after.content_len == before.content_len
    &&& after.completed_end == before.completed_end
    &&& after.completed == before.completed
    &&& after.layout_clock == before.layout_clock + 1
    &&& after.layouts@.len() > 0
    &&& after.layouts@.drop_last() == kept_beside(before.layouts@, width)
    &&& after.layouts@.last().width == width
    &&& after.layouts@.last().suffix_revision == after.revision
    &&& after.layouts@.last().last_used == after.layout_clock
    &&& after.layouts@.last().completed_states@.len() == after.completed@.len() + 1
}

impl RetainedParsedMarkdown {
    /// Every measurement kept is true of the texts.
    pub open spec fn wf<D: Fn(usize, usize) -> Vec<FlowNode>, S: Fn(usize) -> Vec<FlowNode>>(
        &self,
        doc_at: D,
        suffix: S,
    ) -> bool {
        &&& self.layouts@.len() <= RETAINED_MARKDOWN_LAYOUT_WIDTHS
        &&& forall|i: int|
            0 <= i < self.layouts@.len() ==> (#[trigger] self.layouts@[i]).holds(
                doc_at,
                self.completed@.len() as int,
            )
        &&& forall|i: int|
            0 <= i < self.layouts@.len() ==> (#[trigger] self.layouts@[i]).fresh(
                doc_at,
                suffix,
                self.completed@.len() as int,
                self.revision,
            )
    }

    /// Nothing known of the text yet.
    pub fn empty() -> (parsed: Self)
        ensures
            parsed.revision is None,
            parsed.content_len == 0,
            parsed.completed_end == 0,
            parsed.completed@.len() == 0,
            parsed.layout_clock == 0,
            parsed.layouts@.len() == 0,
    {
        RetainedParsedMarkdown {
            revision: None,
            content_len: 0,
            completed_end: 0,
            completed: Vec::new(),
            layout_clock: 0,
            layouts: Vec::new(),
        }
    }

    /// Whether a text of `len` bytes whose suffix starts at `suffix_start` is not the
    /// known one grown at its end.
    pub open spec fn must_reset(&self, len: usize, suffix_start: usize) -> bool {
        len < self.content_len || suffix_start < self.completed_end
    }

    /// Takes in a new revision: `more` are the finished texts from `completed_end`
    /// on, or all of them where the text did not merely grow. The same revision
    /// changes nothing.
    pub fn update_retained_markdown(
        &mut self,
        revision: u64,
        len: usize,
        suffix_start: usize,
        more: Vec<ByteRange>,
    )
        ensures
            is_update(*old(self), *final(self), revision, len, suffix_start, more@),
    {
        if self.revision == Some(revision) {
            return;
        }
        let mut more = more;
        if len < self.content_len || suffix_start < self.completed_end {
            self.completed.clear();
            self.layouts.clear();
        }
        let ghost before = self.completed@;
        let ghost added = more@;
        self.completed.append(&mut more);
        proof {
            assert(before + added =~= self.completed@);
            assert(Seq::<ByteRange>::empty() + added =~= added);
        }
        self.revision = Some(revision);
        self.content_len = len;
        self.completed_end = suffix_start;
    }

    /// Measures the text at `width`, as far as that is not known; returns the place
    /// of the measurement. At most two widths are kept: the one that was used least
    /// recently gives way.
    pub fn ensure_retained_markdown_layout<
        D: Fn(usize, usize) -> Vec<FlowNode>,
        S: Fn(usize) -> Vec<FlowNode>,
    >(&mut self, width: usize, doc_at: &D, suffix: &S) -> (index: usize)
        requires
            steady_texts(*doc_at, *suffix),
            old(self).wf(*doc_at, *suffix),
            old(self).revision is Some,
            old(self).layout_clock < u64::MAX,
        ensures
            final(self).wf(*doc_at, *suffix),
            used_at(*old(self), *final(self), width),
            index + 1 == final(self).layouts@.len(),
            final(self).layouts@[index as int].total_state == docs_state(
                FlowState::start(),
                whole(*doc_at, *suffix, width, final(self).completed@.len() as int),
                final(self).completed@.len() as int + 1,
            ),
    {
        let ghost count = self.completed@.len() as int;
        self.layout_clock = self.layout_clock + 1;
        let mut layout = self.take_layout(width, doc_at, suffix);
        let mut next: usize = layout.completed_states.len() - 1;
        let mut state = layout.completed_states[next];
        while next < self.completed.len()
            invariant
                steady_texts(*doc_at, *suffix),
                count == self.completed@.len(),
                layout.width == width,
                layout.holds(*doc_at, count),
                layout.suffix_revision == self.revision ==> layout.completed_states@.len() == count
                    + 1,
                layout.fresh(*doc_at, *suffix, count, self.revision),
                layout.completed_states@.len() == next + 1,
                next <= count,
                state == layout.completed_states@[next as int],
            decreases self.completed.len() - next,
        {
            let nodes = doc_at(width, next);
            proof {
                assert(nodes == completed_of(*doc_at, width, next));
                lemma_docs_state_same(
                    FlowState::start(),
                    finished(*doc_at, width, next as int),
                    finished(*doc_at, width, next + 1),
                    next as int,
                );
            }
            measure_markdown_doc(&nodes, &mut state);
            layout.completed_states.push(state);
            next += 1;
        }
        if layout.suffix_revision != self.revision {
            let mut state = layout.completed_states[layout.completed_states.len() - 1];
            let nodes = suffix(width);
            proof {
                assert(nodes == suffix_of(*suffix, width));
                lemma_docs_state_same(
                    FlowState::start(),
                    finished(*doc_at, width, count),
                    whole(*doc_at, *suffix, width, count),
                    count,
                );
            }
            measure_markdown_doc(&nodes, &mut state);
            layout.total_state = state;
            layout.suffix_revision = self.revision;
        }
        layout.last_used = self.layout_clock;
        if self.layouts.len() >= RETAINED_MARKDOWN_LAYOUT_WIDTHS {
            let oldest = self.oldest_layout();
            self.layouts.swap_remove(oldest);
        }
        let ghost kept = self.layouts@;
        self.layouts.push(layout);
        proof {
            assert(kept =~= kept_beside(old(self).layouts@, width));
            assert(self.layouts@.drop_last() =~= kept);
        }
        self.layouts.len() - 1
    }

    /// Takes out the measurement at `width`, or begins one.
    fn take_layout<D: Fn(usize, usize) -> Vec<FlowNode>, S: Fn(usize) -> Vec<FlowNode>>(
        &mut self,
        width: usize,
        doc_at: &D,
        suffix: &S,
    ) -> (layout: RetainedMarkdownLayout)
        requires
            old(self).wf(*doc_at, *suffix),
            old(self).revision is Some,
        ensures
            final(self).wf(*doc_at, *suffix),
            final(self).layouts@ == other_widths(old(self).layouts@, width),
            final(self).revision == old(self).revision,
            final(self).content_len == old(self).content_len,
            final(self).completed_end == old(self).completed_end,
            final(self).completed == old(self).completed,
            final(self).layout_clock == old(self).layout_clock,
            layout.width == width,
            layout.holds(*doc_at, final(self).completed@.len() as int),
            layout.fresh(
                *doc_at,
                *suffix,
                final(self).completed@.len() as int,
                final(self).revision,
            ),
    {
        let mut i: usize = 0;
        while i < self.layouts.len()
            invariant
                *self == *old(self),
                self.wf(*doc_at, *suffix),
                i <= self.layouts@.len(),
                layout_place(self.layouts@, width, 0) == layout_place(
                    self.layouts@,
                    width,
                    i as int,
                ),
            decreases self.layouts.len() - i,
        {
            if self.layouts[i].width == width {
                let ghost before = self.layouts@;
                let layout = self.layouts.swap_remove(i);
                proof {
                    assert(self.layouts@ =~= taken_out(before, i as int));
                    assert forall|j: int| 0 <= j < self.layouts@.len() implies before.contains(
                        #[trigger] self.layouts@[j],
                    ) by {
                        assert(self.layouts@[j] == before[if j == i {
                            before.len() - 1
                        } else {
                            j
                        }]);
                    }
                }
                return layout;
            }
            i += 1;
        }
        let mut completed_states: Vec<FlowState> = Vec::new();
        completed_states.push(FlowState::new());
        RetainedMarkdownLayout {
            width,
            completed_states,
            suffix_revision: None,
            total_state: FlowState::new(),
            last_used: 0,
        }
    }

    /// The measurement that was used least recently.
    fn oldest_layout(&self) -> (oldest: usize)
        requires
            self.layouts@.len() > 0,
        ensures
            oldest < self.layouts@.len(),
            oldest == least_recent(self.layouts@, self.layouts@.len() as int),
    {
        let mut oldest: usize = 0;
        let mut i: usize = 1;
        while i < self.layouts.len()
            invariant
                1 <= i <= self.layouts@.len(),
                oldest < i,
                oldest == least_recent(self.layouts@, i as int),
            decreases self.layouts.len() - i,
        {
            if self.layouts[i].last_used < self.layouts[oldest].last_used {
                oldest = i;
            }
            i += 1;
        }
        oldest
    }

    /// Rows of the retained text at `width`.
    pub fn measure_retained_markdown_inner_with_options<
        D: Fn(usize, usize) -> Vec<FlowNode>,
        S: Fn(usize) -> Vec<FlowNode>,
    >(&mut self, width: usize, doc_at: &D, suffix: &S) -> (rows: usize)
        requires
            steady_texts(*doc_at, *suffix),
            old(self).wf(*doc_at, *suffix),
            old(self).revision is Some,
            old(self).layout_clock < u64::MAX,
        ensures
            final(self).wf(*doc_at, *suffix),
            used_at(*old(self), *final(self), width),
            rows == measured_rows(
                whole(*doc_at, *suffix, width, old(self).completed@.len() as int),
            ),
    {
        let index = self.ensure_retained_markdown_layout(width, doc_at, suffix);
        self.layouts[index].total_state.rows
    }

    /// Draws the rows `row_start .. row_start + row_count` of the retained text at
    /// `width`, from the last finished text that begins before them on; `None` where
    /// the text has more rows than a machine can count.
    pub fn render_retained_markdown_inner_range_with_options<
        D: Fn(usize, usize) -> Vec<FlowNode>,
        S: Fn(usize) -> Vec<FlowNode>,
    >(
        &mut self,
        width: usize,
        doc_at: &D,
        suffix: &S,
        row_start: usize,
        row_count: usize,
    ) -> (rows: Option<Vec<FlowRow>>)
        requires
            steady_texts(*doc_at, *suffix),
            old(self).wf(*doc_at, *suffix),
            old(self).revision is Some,
            old(self).layout_clock < u64::MAX,
        ensures
            final(self).wf(*doc_at, *suffix),
            used_at(*old(self), *final(self), width),
            ({
                let docs = whole(*doc_at, *suffix, width, old(self).completed@.len() as int);
                &&& rows is None == (measured_rows(docs) == usize::MAX)
                &&& rows matches Some(rows) ==> rows@ == cut(all_rows(docs), row_start, row_count)
            }),
    {
        let index = self.ensure_retained_markdown_layout(width, doc_at, suffix);
        let ghost count = self.completed@.len() as int;
        let ghost docs = whole(*doc_at, *suffix, width, count);
        let layout = &self.layouts[index];
        proof {
            assert(layout.holds(*doc_at, count));
        }
        if layout.total_state.rows == usize::MAX {
            return None;
        }
        let end = row_start.saturating_add(row_count);
        let completed = layout.completed_states.len() - 1;
        let mut first: usize = 0;
        while first < completed && layout.completed_states[first + 1].rows <= row_start
            invariant
                first <= completed,
                completed == count,
                layout.completed_states@.len() == count + 1,
                layout.completed_states@[first as int].rows <= row_start || first == 0,
            decreases completed - first,
        {
            first += 1;
        }
        let state = layout.completed_states[first];
        let mut texts: Vec<Vec<FlowNode>> = Vec::new();
        let mut next: usize = first;
        while next < completed && layout.completed_states[next].rows < end
            invariant
                steady_texts(*doc_at, *suffix),
                completed == count,
                layout.completed_states@.len() == count + 1,
                first <= next <= completed,
                docs == whole(*doc_at, *suffix, width, count),
                texts@ =~= docs.subrange(first as int, next as int),
            decreases completed - next,
        {
            let nodes = doc_at(width, next);
            proof {
                assert(nodes == completed_of(*doc_at, width, next));
                assert(docs[next as int] == nodes);
            }
            texts.push(nodes);
            next += 1;
        }
        let at_end = next == completed && layout.completed_states[next].rows < end;
        if at_end {
            texts.push(suffix(width));
        }
        let ghost upto = if at_end { count + 1 } else { next as int };
        proof {
            assert(texts@ =~= docs.subrange(first as int, upto));
            assert forall|k: int| 0 <= k <= count implies #[trigger] docs_state(
                FlowState::start(),
                docs,
                k,
            ) == layout.completed_states@[k] by {
                lemma_docs_state_same(
                    FlowState::start(),
                    finished(*doc_at, width, k),
                    docs,
                    k,
                );
            }
            lemma_cut_from(docs, first as int, upto, texts@, row_start, row_count);
        }
        let clip = RowClip { start: row_start, end };
        Some(render_markdown_docs_from_state(&texts, first, Some(clip), state))
    }
}

/// The rows `start .. start + count` of `docs` come from the texts `from .. upto`
/// alone, where the texts before end at or before the range, and the texts behind
/// begin at or behind its end.
proof fn lemma_cut_from(
    docs: Seq<Vec<FlowNode>>,
    from: int,
    upto: int,
    part: Seq<Vec<FlowNode>>,
    start: usize,
    count: usize,
)
    requires
        0 <= from <= upto <= docs.len(),
        part =~= docs.subrange(from, upto),
        measured_rows(docs) < usize::MAX,
        docs_state(FlowState::start(), docs, from).rows <= start || from == 0,
        upto < docs.len() ==> docs_state(FlowState::start(), docs, upto).rows
            >= start.saturating_add(count),
    ensures
        ({
            let s = docs_state(FlowState::start(), docs, from);
            let clip = Some(RowClip { start, end: start.saturating_add(count) });
            &&& docs_state(s, part, part.len() as int).rows < usize::MAX
            &&& cut(all_rows(docs), start, count) == clipped(
                docs_rows(s, part, from, part.len() as int),
                s.rows as int,
                clip,
            )
        }),
{
    let s0 = FlowState::start();
    let s = docs_state(s0, docs, from);
    let n = docs.len() as int;
    lemma_docs(s0, docs, 0, from);
    lemma_docs(s0, docs, 0, upto);
    lemma_docs(s0, docs, 0, n);
    drawing_can_start_at_any_text(s0, docs, 0, upto, n);
    drawing_can_start_at_any_text(s0, docs, 0, from, upto);
    lemma_docs_rows_same(s, docs.skip(from), part, from, upto - from);
    let before = docs_rows(s0, docs, 0, from);
    let mid = docs_rows(s, part, from, part.len() as int);
    let all = all_rows(docs);
    assert(docs_rows(s0, docs, 0, upto) == before + mid);
    let clip = Some(RowClip { start, end: start.saturating_add(count) });
    assert(cut(all, start, count) =~= clipped(mid, s.rows as int, clip));
}

pub(crate) proof fn lemma_docs_rows_same(
    s: FlowState,
    a: Seq<Vec<FlowNode>>,
    b: Seq<Vec<FlowNode>>,
    first: int,
    upto: int,
)
    requires
        upto <= a.len(),
        upto <= b.len(),
        forall|i: int| 0 <= i < upto ==> a[i] == b[i],
    ensures
        docs_state(s, a, upto) == docs_state(s, b, upto),
        docs_rows(s, a, first, upto) == docs_rows(s, b, first, upto),
    decreases upto,
{
    if upto > 0 {
        lemma_docs_rows_same(s, a, b, first, upto - 1);
    }
}

} // verus!
