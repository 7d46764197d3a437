//! How many rows a leaf takes.
use vstd::prelude::*;
use crate::ir::{CodeSpec, ContentTextWindow, IrLeaf, MarkdownSpec};
use crate::leaf_edges::{content_rows, ContentFacts, ContentRuler};
use crate::leaf_rows::{clamped_rows, rows_in_all};
use crate::leaf_text::{
    can_render_markdown_as_plain, inline_counts, is_plain_markdown, measure_inline_markdown_spec,
    measure_plain_markdown_spec, measure_text_spec, plain_markdown_rows, pure_count, pure_inline,
    pure_wrap, text_counts,
};
use crate::styled_runs::{run_counts, Fragment, InlineRun, InlineText};
use crate::text::{lines_of, split_lines, texts};

verus! {

/// `measure` says that markdown, dim or not, takes so many rows.
pub open spec fn markdown_measures<M: Fn(&str, bool, u16) -> usize>(
    measure: M,
    content: Seq<char>,
    dim: bool,
    width: u16,
    n: usize,
) -> bool {
    exists|s: &str| #[trigger] call_ensures(measure, (s, dim, width), n) && s@ == content
}

/// The rows of markdown, as `measure` says.
pub open spec fn markdown_measured<M: Fn(&str, bool, u16) -> usize>(
    measure: M,
    content: Seq<char>,
    dim: bool,
    width: u16,
) -> usize {
    choose|n: usize| #[trigger] markdown_measures(measure, content, dim, width, n)
}

/// `measure` says that lines of code take so many rows.
pub open spec fn code_measures<K: Fn(&Vec<String>, &str, u16) -> usize>(
    measure: K,
    lines: Seq<Seq<char>>,
    lang: Seq<char>,
    width: u16,
    n: usize,
) -> bool {
    exists|v: Vec<String>, s: &str| #[trigger]
        call_ensures(measure, (&v, s, width), n) && texts(v@) == lines && s@ == lang
}

/// The rows of code, as `measure` says.
pub open spec fn code_measured<K: Fn(&Vec<String>, &str, u16) -> usize>(
    measure: K,
    lines: Seq<Seq<char>>,
    lang: Seq<char>,
    width: u16,
) -> usize {
    choose|n: usize| #[trigger] code_measures(measure, lines, lang, width, n)
}

/// The lines of a piece of code: one that is empty, where there is nothing.
pub open spec fn code_lines(content: Seq<char>) -> Seq<Seq<char>> {
    if content.len() == 0 {
        seq![Seq::empty()]
    } else {
        lines_of(content)
    }
}

/// The lines of a piece of code.
pub fn code_block_lines(spec: &CodeSpec) -> (lines: Vec<String>)
    ensures
        texts(lines@) == code_lines(spec.content@),
{
    if spec.content.as_str().is_empty() {
        let mut lines: Vec<String> = Vec::new();
        lines.push(String::new());
        proof {
            assert(texts(lines@) =~= seq![Seq::<char>::empty()]);
        }
        lines
    } else {
        split_lines(spec.content.as_str())
    }
}

/// What leaves are measured with, besides retained contents and runs.
pub struct LeafRuler<'a, P, A, I, M, K, V> {
    /// Breaks a line of plain text.
    pub wrap: &'a P,
    /// Counts the rows of a line with escape codes.
    pub ansi: &'a A,
    /// Counts the rows of a line of inline markdown.
    pub inline: &'a I,
    /// Counts the rows of markdown.
    pub markdown: &'a M,
    /// Counts the rows of code.
    pub code: &'a K,
    /// Counts the rows of a source view, at a width of which so many cells are a gutter.
    pub source_view: &'a V,
}

impl<
    'a,
    P: Fn(&str, u16) -> Vec<String>,
    A: Fn(&str, u16) -> usize,
    I: Fn(&str, bool, bool, u16) -> usize,
    M: Fn(&str, bool, u16) -> usize,
    K: Fn(&Vec<String>, &str, u16) -> usize,
    V: Fn(u64, u16, u16) -> usize,
> LeafRuler<'a, P, A, I, M, K, V> {
    /// Every question may be asked and has one answer.
    pub open spec fn wf(&self) -> bool {
        &&& pure_wrap(*self.wrap)
        &&& pure_count(*self.ansi)
        &&& pure_inline(*self.inline)
        &&& forall|s: &str, dim: bool, width: u16| #[trigger]
            call_requires(*self.markdown, (s, dim, width))
        &&& forall|content: Seq<char>, dim: bool, width: u16, a: usize, b: usize|
            #[trigger] markdown_measures(*self.markdown, content, dim, width, a) && #[trigger]
                markdown_measures(*self.markdown, content, dim, width, b) ==> a == b
        &&& forall|v: &Vec<String>, s: &str, width: u16| #[trigger]
            call_requires(*self.code, (v, s, width))
        &&& forall|lines: Seq<Seq<char>>, lang: Seq<char>, width: u16, a: usize, b: usize|
            #[trigger] code_measures(*self.code, lines, lang, width, a) && #[trigger]
                code_measures(*self.code, lines, lang, width, b) ==> a == b
        &&& forall|c: u64, w: u16, g: u16| #[trigger] call_requires(*self.source_view, (c, w, g))
        &&& forall|c: u64, w: u16, g: u16, a: usize, b: usize|
            #[trigger] call_ensures(*self.source_view, (c, w, g), a) && #[trigger] call_ensures(
                *self.source_view,
                (c, w, g),
                b,
            ) ==> a == b
    }

    /// Rows of markdown that is part of the layout.
    pub open spec fn markdown_rows(&self, spec: MarkdownSpec, width: u16) -> int {
        if spec.inline {
            rows_in_all(
                inline_counts(*self.inline, spec.content@, spec.dim, spec.italic, width),
            )
        } else if is_plain_markdown(spec.content@) {
            plain_markdown_rows(*self.wrap, spec.content@, width)
        } else {
            markdown_measured(*self.markdown, spec.content@, spec.dim, width) as int
        }
    }

    /// Rows of markdown that is part of the layout, as far as they can be counted.
    pub fn measure_markdown_spec(&self, spec: &MarkdownSpec, width: u16) -> (rows: usize)
        requires
            self.wf(),
        ensures
            rows == clamped_rows(self.markdown_rows(*spec, width)),
    {
        if spec.inline {
            return measure_inline_markdown_spec(
                spec.content.as_str(),
                spec.dim,
                spec.italic,
                width,
                self.inline,
            );
        }
        if can_render_markdown_as_plain(spec.content.as_str()) {
            return measure_plain_markdown_spec(spec, width, self.wrap);
        }
        let rows = (self.markdown)(spec.content.as_str(), spec.dim, width);
        proof {
            assert(markdown_measures(*self.markdown, spec.content@, spec.dim, width, rows));
        }
        rows
    }

    /// Rows of code.
    pub fn measure_code_spec(&self, spec: &CodeSpec, width: u16) -> (rows: usize)
        requires
            self.wf(),
        ensures
            rows == code_measured(*self.code, code_lines(spec.content@), spec.lang@, width),
    {
        let lines = code_block_lines(spec);
        let rows = (self.code)(&lines, spec.lang.as_str(), width);
        proof {
            assert(code_measures(*self.code, texts(lines@), spec.lang@, width, rows));
        }
        rows
    }

    fn measure_source_view(&self, view: u64, width: u16, gutter: u16) -> (rows: usize)
        requires
            self.wf(),
        ensures
            rows == choose|n: usize|
                call_ensures(*self.source_view, (view, width.saturating_add(gutter), gutter), n),
    {
        (self.source_view)(view, width.saturating_add(gutter), gutter)
    }
}

/// Rows of a leaf, behind a gutter of so many cells. A line and a separator have one.
pub open spec fn leaf_rows<
    'a,
    'b,
    'c,
    P: Fn(&str, u16) -> Vec<String>,
    A: Fn(&str, u16) -> usize,
    I: Fn(&str, bool, bool, u16) -> usize,
    M: Fn(&str, bool, u16) -> usize,
    K: Fn(&Vec<String>, &str, u16) -> usize,
    V: Fn(u64, u16, u16) -> usize,
    J: Fn(&Vec<InlineRun>) -> Vec<InlineRun>,
    W: Fn(&Vec<InlineRun>, usize, usize) -> Vec<Vec<Fragment>>,
    O: Fn(&Vec<InlineRun>, usize, usize, usize, usize) -> Vec<Vec<Fragment>>,
    C: Fn(&Vec<InlineRun>) -> usize,
    E: Fn(&Vec<InlineRun>) -> bool,
    R0: Fn(u64) -> ContentFacts,
    R1: Fn(u64, u16, bool) -> usize,
    R2: Fn(u64, u16, bool, usize) -> ContentTextWindow,
    R3: Fn(u64, bool, bool, u16) -> usize,
    R4: Fn(u64, bool, u16) -> usize,
    R5: Fn(u64, bool, u16, usize) -> ContentTextWindow,
    R6: Fn(u64, u16) -> usize,
    R7: Fn(u64, u16, usize) -> ContentTextWindow,
    R8: Fn(u64, u16, u16) -> usize,
    R9: Fn(u64, u16, usize) -> ContentTextWindow,
>(
    ruler: &LeafRuler<'a, P, A, I, M, K, V>,
    runs: &InlineText<'b, J, W, O, C, E>,
    contents: &ContentRuler<'c, R0, R1, R2, R3, R4, R5, R6, R7, R8, R9>,
    leaf: IrLeaf,
    width: u16,
    gutter: u16,
) -> int {
    match leaf {
        IrLeaf::Text(spec) => rows_in_all(text_counts(*ruler.wrap, *ruler.ansi, spec, width)),
        IrLeaf::Content(spec) => content_rows(contents.metrics(), spec, width, gutter) as int,
        IrLeaf::Runs(spec) => rows_in_all(run_counts(runs.shape(), spec, width)),
        IrLeaf::Line(_) => 1,
        IrLeaf::Markdown(spec) => ruler.markdown_rows(spec, width),
        IrLeaf::Code(spec) => code_measured(
            *ruler.code,
            code_lines(spec.content@),
            spec.lang@,
            width,
        ) as int,
        IrLeaf::Separator(_) => 1,
        IrLeaf::SourceView(view) => (choose|n: usize|
            call_ensures(*ruler.source_view, (view, width.saturating_add(gutter), gutter), n))
            as int,
    }
}

/// How many rows a leaf takes, behind a gutter of so many cells, as far as they can be counted.
pub fn measure_ir_leaf<
    'a,
    'b,
    'c,
    P: Fn(&str, u16) -> Vec<String>,
    A: Fn(&str, u16) -> usize,
    I: Fn(&str, bool, bool, u16) -> usize,
    M: Fn(&str, bool, u16) -> usize,
    K: Fn(&Vec<String>, &str, u16) -> usize,
    V: Fn(u64, u16, u16) -> usize,
    J: Fn(&Vec<InlineRun>) -> Vec<InlineRun>,
    W: Fn(&Vec<InlineRun>, usize, usize) -> Vec<Vec<Fragment>>,
    O: Fn(&Vec<InlineRun>, usize, usize, usize, usize) -> Vec<Vec<Fragment>>,
    C: Fn(&Vec<InlineRun>) -> usize,
    E: Fn(&Vec<InlineRun>) -> bool,
    R0: Fn(u64) -> ContentFacts,
    R1: Fn(u64, u16, bool) -> usize,
    R2: Fn(u64, u16, bool, usize) -> ContentTextWindow,
    R3: Fn(u64, bool, bool, u16) -> usize,
    R4: Fn(u64, bool, u16) -> usize,
    R5: Fn(u64, bool, u16, usize) -> ContentTextWindow,
    R6: Fn(u64, u16) -> usize,
    R7: Fn(u64, u16, usize) -> ContentTextWindow,
    R8: Fn(u64, u16, u16) -> usize,
    R9: Fn(u64, u16, usize) -> ContentTextWindow,
>(
    ruler: &LeafRuler<'a, P, A, I, M, K, V>,
    runs: &InlineText<'b, J, W, O, C, E>,
    contents: &ContentRuler<'c, R0, R1, R2, R3, R4, R5, R6, R7, R8, R9>,
    leaf: &IrLeaf,
    width: u16,
    gutter: u16,
) -> (rows: usize)
    requires
        ruler.wf(),
        runs.wf(),
        contents.wf(),
    ensures
        rows == clamped_rows(leaf_rows(ruler, runs, contents, *leaf, width, gutter)),
{
    match leaf {
        IrLeaf::Text(spec) => measure_text_spec(spec, width, ruler.wrap, ruler.ansi),
        IrLeaf::Content(spec) => contents.measure_content_spec(spec, width, gutter),
        IrLeaf::Runs(spec) => runs.measure_runs_spec(spec, width),
        IrLeaf::Line(_) => 1,
        IrLeaf::Markdown(spec) => ruler.measure_markdown_spec(spec, width),
        IrLeaf::Code(spec) => ruler.measure_code_spec(spec, width),
        IrLeaf::Separator(_) => 1,
        IrLeaf::SourceView(view) => ruler.measure_source_view(*view, width, gutter),
    }
}

} // verus!
