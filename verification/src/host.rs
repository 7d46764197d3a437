//! What the layout asks of its surroundings: how leaves wrap, how columns share a
//! width, and what a retained content looks like.
use vstd::prelude::*;
use crate::ir::{
    Constraint, ContentTextWindow, IrLeaf, LayoutIr, RetainedContentSpec, RowPrefixSpec, RunsSpec,
};

verus! {

/// The answers of a [`LayoutHost`] as mathematical functions.
pub struct Metrics {
    /// Rows of a leaf at a width, behind a gutter of so many cells.
    pub leaf_rows: spec_fn(IrLeaf, u16, u16) -> usize,
    /// Rows of styled runs whose rows carry a prefix, at the full width.
    pub prefix_rows: spec_fn(RunsSpec, RowPrefixSpec, u16) -> usize,
    /// The first rows of a content, at most so many.
    pub edge: spec_fn(RetainedContentSpec, u16, usize) -> ContentTextWindow,
    /// Bytes of a content.
    pub content_len: spec_fn(u64) -> usize,
    /// Column widths from their constraints, fitting widths and the total.
    pub widths: spec_fn(Seq<Constraint>, Seq<u16>, u16) -> Seq<u16>,
    /// Whether the rows `start..end` of a leaf show any text.
    pub leaf_visible: spec_fn(IrLeaf, u16, usize, usize) -> bool,
    /// Whether the rows `start..end` of a layout, once drawn, show any text.
    pub drawn_visible: spec_fn(LayoutIr, u16, usize, usize) -> bool,
}

/// The functions that a layout is measured with.
///
/// Each is expected to answer the same question in the same way every time
/// ([`LayoutHost::wf`]).
pub struct LayoutHost<A, B, C, D, E, F, G> {
    pub leaf_rows: A,
    pub prefix_rows: B,
    pub edge: C,
    pub content_len: D,
    pub widths: E,
    pub leaf_visible: F,
    pub drawn_visible: G,
    /// What they answer.
    pub model: Ghost<Metrics>,
}

/// What is asked of leaves and contents may be asked and has one answer.
pub open spec fn steady<
    A: Fn(&IrLeaf, u16, u16) -> usize,
    B: Fn(&RunsSpec, &RowPrefixSpec, u16) -> usize,
    C: Fn(&RetainedContentSpec, u16, usize) -> ContentTextWindow,
    D: Fn(u64) -> usize,
>(leaf_rows: A, prefix_rows: B, edge: C, content_len: D) -> bool {
    &&& forall|l: &IrLeaf, w: u16, g: u16| call_requires(leaf_rows, (l, w, g))
    &&& forall|l: &IrLeaf, w: u16, g: u16, a: usize, b: usize|
        call_ensures(leaf_rows, (l, w, g), a) && call_ensures(leaf_rows, (l, w, g), b) ==> a == b
    &&& forall|r: &RunsSpec, p: &RowPrefixSpec, w: u16| call_requires(prefix_rows, (r, p, w))
    &&& forall|r: &RunsSpec, p: &RowPrefixSpec, w: u16, a: usize, b: usize|
        call_ensures(prefix_rows, (r, p, w), a) && call_ensures(prefix_rows, (r, p, w), b) ==> a
            == b
    &&& forall|c: &RetainedContentSpec, w: u16, n: usize| call_requires(edge, (c, w, n))
    &&& forall|
        c: &RetainedContentSpec,
        w: u16,
        n: usize,
        a: ContentTextWindow,
        b: ContentTextWindow,
    |
        call_ensures(edge, (c, w, n), a) && call_ensures(edge, (c, w, n), b) ==> a == b
    &&& forall|c: u64| call_requires(content_len, (c,))
    &&& forall|c: u64, a: usize, b: usize|
        call_ensures(content_len, (c,), a) && call_ensures(content_len, (c,), b) ==> a == b
}

/// `widths` is an answer to how columns of these constraints share `total`.
pub open spec fn solves<E: Fn(&Vec<Constraint>, &Vec<u16>, u16) -> Vec<u16>>(
    solver: E,
    constraints: Seq<Constraint>,
    fits: Seq<u16>,
    total: u16,
    widths: Seq<u16>,
) -> bool {
    exists|c: Vec<Constraint>, f: Vec<u16>, w: Vec<u16>|
        #![trigger call_ensures(solver, (&c, &f, total), w)]
        call_ensures(solver, (&c, &f, total), w) && c@ == constraints && f@ == fits && w@ == widths
}

/// `solver` shares every width in one way, with a share for every column.
pub open spec fn steady_widths<E: Fn(&Vec<Constraint>, &Vec<u16>, u16) -> Vec<u16>>(
    solver: E,
) -> bool {
    &&& forall|c: &Vec<Constraint>, f: &Vec<u16>, w: u16| call_requires(solver, (c, f, w))
    &&& forall|c: &Vec<Constraint>, f: &Vec<u16>, w: u16, a: Vec<u16>|
        call_ensures(solver, (c, f, w), a) ==> a@.len() == c@.len()
    &&& forall|
        c: &Vec<Constraint>,
        f: &Vec<u16>,
        w: u16,
        a: Vec<u16>,
        d: &Vec<Constraint>,
        e: &Vec<u16>,
        b: Vec<u16>,
    |
        #![trigger call_ensures(solver, (c, f, w), a), call_ensures(solver, (d, e, w), b)]
        call_ensures(solver, (c, f, w), a) && call_ensures(solver, (d, e, w), b) && c@ == d@ && f@
            == e@ ==> a@ == b@
}

/// What is shown is always said in the same way.
pub open spec fn steady_visible<
    F: Fn(&IrLeaf, u16, usize, usize) -> bool,
    G: Fn(&LayoutIr, u16, usize, usize) -> bool,
>(leaf_visible: F, drawn_visible: G) -> bool {
    &&& forall|l: &IrLeaf, w: u16, s: usize, e: usize| call_requires(leaf_visible, (l, w, s, e))
    &&& forall|l: &IrLeaf, w: u16, s: usize, e: usize, a: bool, b: bool|
        call_ensures(leaf_visible, (l, w, s, e), a) && call_ensures(leaf_visible, (l, w, s, e), b)
            ==> a == b
    &&& forall|l: &LayoutIr, w: u16, s: usize, e: usize|
        call_requires(drawn_visible, (l, w, s, e))
    &&& forall|l: &LayoutIr, w: u16, s: usize, e: usize, a: bool, b: bool|
        call_ensures(drawn_visible, (l, w, s, e), a) && call_ensures(
            drawn_visible,
            (l, w, s, e),
            b,
        ) ==> a == b
}

/// How `solver` shares a width.
pub open spec fn solved<E: Fn(&Vec<Constraint>, &Vec<u16>, u16) -> Vec<u16>>(solver: E) -> spec_fn(
    Seq<Constraint>,
    Seq<u16>,
    u16,
) -> Seq<u16> {
    |constraints: Seq<Constraint>, fits: Seq<u16>, total: u16|
        choose|widths: Seq<u16>| #[trigger] solves(solver, constraints, fits, total, widths)
}

/// What `leaf_visible` says.
pub open spec fn shown<F: Fn(&IrLeaf, u16, usize, usize) -> bool>(leaf_visible: F) -> spec_fn(
    IrLeaf,
    u16,
    usize,
    usize,
) -> bool {
    |leaf: IrLeaf, width: u16, start: usize, end: usize|
        choose|visible: bool| call_ensures(leaf_visible, (&leaf, width, start, end), visible)
}

/// What `drawn_visible` says.
pub open spec fn shown_drawn<G: Fn(&LayoutIr, u16, usize, usize) -> bool>(
    drawn_visible: G,
) -> spec_fn(LayoutIr, u16, usize, usize) -> bool {
    |layout: LayoutIr, width: u16, start: usize, end: usize|
        choose|visible: bool| call_ensures(drawn_visible, (&layout, width, start, end), visible)
}

pub(crate) proof fn lemma_solved<E: Fn(&Vec<Constraint>, &Vec<u16>, u16) -> Vec<u16>>(
    solver: E,
    c: &Vec<Constraint>,
    f: &Vec<u16>,
    total: u16,
    w: Vec<u16>,
)
    requires
        steady_widths(solver),
        call_ensures(solver, (c, f, total), w),
    ensures
        w@ == solved(solver)(c@, f@, total),
{
    let chosen = solved(solver)(c@, f@, total);
    assert(solves(solver, c@, f@, total, w@));
    assert(solves(solver, c@, f@, total, chosen));
    let (d, e, v) = choose|d: Vec<Constraint>, e: Vec<u16>, v: Vec<u16>|
        #![trigger call_ensures(solver, (&d, &e, total), v)]
        call_ensures(solver, (&d, &e, total), v) && d@ == c@ && e@ == f@ && v@ == chosen;
    assert(call_ensures(solver, (&d, &e, total), v));
}

impl<
    A: Fn(&IrLeaf, u16, u16) -> usize,
    B: Fn(&RunsSpec, &RowPrefixSpec, u16) -> usize,
    C: Fn(&RetainedContentSpec, u16, usize) -> ContentTextWindow,
    D: Fn(u64) -> usize,
    E: Fn(&Vec<Constraint>, &Vec<u16>, u16) -> Vec<u16>,
    F: Fn(&IrLeaf, u16, usize, usize) -> bool,
    G: Fn(&LayoutIr, u16, usize, usize) -> bool,
> LayoutHost<A, B, C, D, E, F, G> {
    /// The host as mathematical functions.
    pub open spec fn metrics(&self) -> Metrics {
        self.model@
    }

    /// Every question may be asked and is answered as the model says, and there is a width for
    /// every column.
    pub open spec fn wf(&self) -> bool {
        &&& forall|l: &IrLeaf, w: u16, g: u16| call_requires(self.leaf_rows, (l, w, g))
        &&& forall|l: &IrLeaf, w: u16, g: u16, a: usize|
            call_ensures(self.leaf_rows, (l, w, g), a) ==> a == (self.metrics().leaf_rows)(
                *l,
                w,
                g,
            )
        &&& forall|r: &RunsSpec, p: &RowPrefixSpec, w: u16|
            call_requires(self.prefix_rows, (r, p, w))
        &&& forall|r: &RunsSpec, p: &RowPrefixSpec, w: u16, a: usize|
            call_ensures(self.prefix_rows, (r, p, w), a) ==> a == (self.metrics().prefix_rows)(
                *r,
                *p,
                w,
            )
        &&& forall|c: &RetainedContentSpec, w: u16, n: usize| call_requires(self.edge, (c, w, n))
        &&& forall|c: &RetainedContentSpec, w: u16, n: usize, a: ContentTextWindow|
            call_ensures(self.edge, (c, w, n), a) ==> a == (self.metrics().edge)(*c, w, n)
        &&& forall|c: u64| call_requires(self.content_len, (c,))
        &&& forall|c: u64, a: usize|
            call_ensures(self.content_len, (c,), a) ==> a == (self.metrics().content_len)(c)
        &&& forall|c: &Vec<Constraint>, f: &Vec<u16>, w: u16| call_requires(self.widths, (c, f, w))
        &&& forall|c: &Vec<Constraint>, f: &Vec<u16>, w: u16, a: Vec<u16>|
            call_ensures(self.widths, (c, f, w), a) ==> a@.len() == c@.len() && a@ == (
            self.metrics().widths)(c@, f@, w)
        &&& forall|l: &IrLeaf, w: u16, s: usize, e: usize|
            call_requires(self.leaf_visible, (l, w, s, e))
        &&& forall|l: &IrLeaf, w: u16, s: usize, e: usize, a: bool|
            call_ensures(self.leaf_visible, (l, w, s, e), a) ==> a == (
            self.metrics().leaf_visible)(*l, w, s, e)
        &&& forall|l: &LayoutIr, w: u16, s: usize, e: usize|
            call_requires(self.drawn_visible, (l, w, s, e))
        &&& forall|l: &LayoutIr, w: u16, s: usize, e: usize, a: bool|
            call_ensures(self.drawn_visible, (l, w, s, e), a) ==> a == (
            self.metrics().drawn_visible)(*l, w, s, e)
    }

    /// A host of these functions.
    pub fn new(
        leaf_rows: A,
        prefix_rows: B,
        edge: C,
        content_len: D,
        widths: E,
        leaf_visible: F,
        drawn_visible: G,
    ) -> (host: Self)
        requires
            steady(leaf_rows, prefix_rows, edge, content_len),
            steady_widths(widths),
            steady_visible(leaf_visible, drawn_visible),
        ensures
            host.wf(),
            host.leaf_rows == leaf_rows,
            host.prefix_rows == prefix_rows,
            host.edge == edge,
            host.content_len == content_len,
            host.widths == widths,
            host.leaf_visible == leaf_visible,
            host.drawn_visible == drawn_visible,
    {
        let ghost model = Metrics {
            leaf_rows: |leaf: IrLeaf, width: u16, gutter: u16|
                choose|rows: usize| call_ensures(leaf_rows, (&leaf, width, gutter), rows),
            prefix_rows: |runs: RunsSpec, prefix: RowPrefixSpec, width: u16|
                choose|rows: usize| call_ensures(prefix_rows, (&runs, &prefix, width), rows),
            edge: |content: RetainedContentSpec, width: u16, max_rows: usize|
                choose|window: ContentTextWindow|
                    call_ensures(edge, (&content, width, max_rows), window),
            content_len: |content: u64|
                choose|len: usize| call_ensures(content_len, (content,), len),
            widths: solved(widths),
            leaf_visible: shown(leaf_visible),
            drawn_visible: shown_drawn(drawn_visible),
        };
        proof {
            assert forall|c: &Vec<Constraint>, f: &Vec<u16>, w: u16, a: Vec<u16>|
                call_ensures(widths, (c, f, w), a) implies a@ == (model.widths)(c@, f@, w) by {
                lemma_solved(widths, c, f, w, a);
            }
        }
        LayoutHost {
            leaf_rows,
            prefix_rows,
            edge,
            content_len,
            widths,
            leaf_visible,
            drawn_visible,
            model: Ghost(model),
        }
    }

    pub fn ask_leaf_rows(&self, leaf: &IrLeaf, width: u16, gutter: u16) -> (rows: usize)
        requires
            self.wf(),
        ensures
            rows == (self.metrics().leaf_rows)(*leaf, width, gutter),
    {
        (self.leaf_rows)(leaf, width, gutter)
    }

    pub fn ask_prefix_rows(&self, runs: &RunsSpec, prefix: &RowPrefixSpec, width: u16) -> (rows:
        usize)
        requires
            self.wf(),
        ensures
            rows == (self.metrics().prefix_rows)(*runs, *prefix, width),
    {
        (self.prefix_rows)(runs, prefix, width)
    }

    pub fn ask_edge(&self, content: &RetainedContentSpec, width: u16, max_rows: usize) -> (window:
        ContentTextWindow)
        requires
            self.wf(),
        ensures
            window == (self.metrics().edge)(*content, width, max_rows),
    {
        (self.edge)(content, width, max_rows)
    }

    pub fn ask_content_len(&self, content: u64) -> (len: usize)
        requires
            self.wf(),
        ensures
            len == (self.metrics().content_len)(content),
    {
        (self.content_len)(content)
    }

    pub fn ask_widths(&self, constraints: &Vec<Constraint>, fits: &Vec<u16>, total: u16) -> (widths:
        Vec<u16>)
        requires
            self.wf(),
        ensures
            widths@ == (self.metrics().widths)(constraints@, fits@, total),
            widths@.len() == constraints@.len(),
    {
        (self.widths)(constraints, fits, total)
    }

    pub fn ask_leaf_visible(&self, leaf: &IrLeaf, width: u16, start: usize, end: usize) -> (visible:
        bool)
        requires
            self.wf(),
        ensures
            visible == (self.metrics().leaf_visible)(*leaf, width, start, end),
    {
        (self.leaf_visible)(leaf, width, start, end)
    }

    pub fn ask_drawn_visible(&self, layout: &LayoutIr, width: u16, start: usize, end: usize) -> (
        visible: bool)
        requires
            self.wf(),
        ensures
            visible == (self.metrics().drawn_visible)(*layout, width, start, end),
    {
        (self.drawn_visible)(layout, width, start, end)
    }
}

} // verus!
