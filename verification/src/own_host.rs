//! A host whose leaves are measured by this library.
use vstd::prelude::*;
use crate::host::{
    lemma_solved, shown, shown_drawn, solved, steady_visible, steady_widths, LayoutHost, Metrics,
};
use crate::ir::{
    Constraint, ContentTextWindow, IrLeaf, LayoutIr, RetainedContentSpec, RowPrefixSpec, RunsSpec,
};
use crate::leaf_edges::{content_edge, ContentFacts, ContentRuler};
use crate::leaf_measure::{leaf_rows, measure_ir_leaf, LeafRuler};
use crate::leaf_rows::clamped_rows;
use crate::row_prefix::prefix_rows;
use crate::styled_runs::{Fragment, InlineRun, InlineText};

verus! {

/// What a host answers whose leaves are measured by this library; how columns share a width and
/// what is shown is as given.
pub open spec fn own_metrics<
    'a,
    P: Fn(&str, u16) -> Vec<String>,
    A: Fn(&str, u16) -> usize,
    I: Fn(&str, bool, bool, u16) -> usize,
    M: Fn(&str, bool, u16) -> usize,
    K: Fn(&Vec<String>, &str, u16) -> usize,
    V: Fn(u64, u16, u16) -> usize,
    J: Fn(&Vec<InlineRun>) -> Vec<InlineRun>,
    W: Fn(&Vec<InlineRun>, usize, usize) -> Vec<Vec<Fragment>>,
    O: Fn(&Vec<InlineRun>, usize, usize, usize, usize) -> Vec<Vec<Fragment>>,
    C: Fn(&Vec<InlineRun>) -> usize,
    E: Fn(&Vec<InlineRun>) -> bool,
    R0: Fn(u64) -> ContentFacts,
    R1: Fn(u64, u16, bool) -> usize,
    R2: Fn(u64, u16, bool, usize) -> ContentTextWindow,
    R3: Fn(u64, bool, bool, u16) -> usize,
    R4: Fn(u64, bool, u16) -> usize,
    R5: Fn(u64, bool, u16, usize) -> ContentTextWindow,
    R6: Fn(u64, u16) -> usize,
    R7: Fn(u64, u16, usize) -> ContentTextWindow,
    R8: Fn(u64, u16, u16) -> usize,
    R9: Fn(u64, u16, usize) -> ContentTextWindow,
>(
    ruler: &'a LeafRuler<'a, P, A, I, M, K, V>,
    runs: &'a InlineText<'a, J, W, O, C, E>,
    contents: &'a ContentRuler<'a, R0, R1, R2, R3, R4, R5, R6, R7, R8, R9>,
    widths: spec_fn(Seq<Constraint>, Seq<u16>, u16) -> Seq<u16>,
    leaf_visible: spec_fn(IrLeaf, u16, usize, usize) -> bool,
    drawn_visible: spec_fn(LayoutIr, u16, usize, usize) -> bool,
) -> Metrics {
    Metrics {
        leaf_rows: |leaf: IrLeaf, width: u16, gutter: u16|
            clamped_rows(leaf_rows(ruler, runs, contents, leaf, width, gutter)),
        prefix_rows: |spec: RunsSpec, prefix: RowPrefixSpec, width: u16|
            prefix_rows(runs.shape(), spec, prefix, width, spec.lines@.len() as int),
        edge: |content: RetainedContentSpec, width: u16, max_rows: usize|
            content_edge(contents.metrics(), content, width, max_rows),
        content_len: |content: u64| (contents.metrics().facts)(content).len,
        widths,
        leaf_visible,
        drawn_visible,
    }
}

/// A host whose leaves are measured by this library.
pub fn own_host<
    'a,
    P: Fn(&str, u16) -> Vec<String>,
    A: Fn(&str, u16) -> usize,
    I: Fn(&str, bool, bool, u16) -> usize,
    M: Fn(&str, bool, u16) -> usize,
    K: Fn(&Vec<String>, &str, u16) -> usize,
    V: Fn(u64, u16, u16) -> usize,
    J: Fn(&Vec<InlineRun>) -> Vec<InlineRun>,
    W: Fn(&Vec<InlineRun>, usize, usize) -> Vec<Vec<Fragment>>,
    O: Fn(&Vec<InlineRun>, usize, usize, usize, usize) -> Vec<Vec<Fragment>>,
    C: Fn(&Vec<InlineRun>) -> usize,
    E: Fn(&Vec<InlineRun>) -> bool,
    R0: Fn(u64) -> ContentFacts,
    R1: Fn(u64, u16, bool) -> usize,
    R2: Fn(u64, u16, bool, usize) -> ContentTextWindow,
    R3: Fn(u64, bool, bool, u16) -> usize,
    R4: Fn(u64, bool, u16) -> usize,
    R5: Fn(u64, bool, u16, usize) -> ContentTextWindow,
    R6: Fn(u64, u16) -> usize,
    R7: Fn(u64, u16, usize) -> ContentTextWindow,
    R8: Fn(u64, u16, u16) -> usize,
    R9: Fn(u64, u16, usize) -> ContentTextWindow,
    X: Fn(&Vec<Constraint>, &Vec<u16>, u16) -> Vec<u16>,
    Y: Fn(&IrLeaf, u16, usize, usize) -> bool,
    Z: Fn(&LayoutIr, u16, usize, usize) -> bool,
>(
    ruler: &'a LeafRuler<'a, P, A, I, M, K, V>,
    runs: &'a InlineText<'a, J, W, O, C, E>,
    contents: &'a ContentRuler<'a, R0, R1, R2, R3, R4, R5, R6, R7, R8, R9>,
    widths: X,
    leaf_visible: Y,
    drawn_visible: Z,
) -> (host: LayoutHost<
    impl Fn(&IrLeaf, u16, u16) -> usize + 'a,
    impl Fn(&RunsSpec, &RowPrefixSpec, u16) -> usize + 'a,
    impl Fn(&RetainedContentSpec, u16, usize) -> ContentTextWindow + 'a,
    impl Fn(u64) -> usize + 'a,
    X,
    Y,
    Z,
>)
    requires
        ruler.wf(),
        runs.wf(),
        contents.wf(),
        steady_widths(widths),
        steady_visible(leaf_visible, drawn_visible),
    ensures
        host.wf(),
        host.metrics() == own_metrics(
            ruler,
            runs,
            contents,
            solved(widths),
            shown(leaf_visible),
            shown_drawn(drawn_visible),
        ),
{
    let ghost model = own_metrics(
        ruler,
        runs,
        contents,
        solved(widths),
        shown(leaf_visible),
        shown_drawn(drawn_visible),
    );
    let own_rows = move |leaf: &IrLeaf, width: u16, gutter: u16| -> (rows: usize)
        ensures
            rows == (model.leaf_rows)(*leaf, width, gutter),
        { measure_ir_leaf(ruler, runs, contents, leaf, width, gutter) };
    let own_prefixed = move |spec: &RunsSpec, prefix: &RowPrefixSpec, width: u16| -> (rows: usize)
        ensures
            rows == (model.prefix_rows)(*spec, *prefix, width),
        { runs.measure_row_prefix_runs(spec, prefix, width) };
    let own_edge = move |content: &RetainedContentSpec, width: u16, max_rows: usize| -> (window:
        ContentTextWindow)
        ensures
            window == (model.edge)(*content, width, max_rows),
        { contents.measure_retained_content_edge(content, width, max_rows) };
    let own_len = move |content: u64| -> (len: usize)
        ensures
            len == (model.content_len)(content),
        { (contents.facts)(content).len };
    proof {
        assert forall|c: &Vec<Constraint>, f: &Vec<u16>, w: u16, a: Vec<u16>|
            call_ensures(widths, (c, f, w), a) implies a@ == (model.widths)(c@, f@, w) by {
            lemma_solved(widths, c, f, w, a);
        }
    }
    LayoutHost {
        leaf_rows: own_rows,
        prefix_rows: own_prefixed,
        edge: own_edge,
        content_len: own_len,
        widths,
        leaf_visible,
        drawn_visible,
        model: Ghost(model),
    }
}

} // verus!
