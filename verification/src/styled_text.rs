//! Styled spans as they are drawn: their colours by name, and the highlights of their code.
use vstd::prelude::*;
use crate::ir::{InlineSyntaxSpan, RetainedInlineSyntax, StyledSpan};
use crate::line_ops::{add_op, add_op_if, lemma_behind, op_if, steps, LineOp, LineStep};
use crate::paint::Color;

verus! {

/// The answers of a [`SpanPainter`] as mathematical functions.
pub struct Painting {
    /// The bytes `start .. end` of a text.
    pub slice: spec_fn(Seq<char>, usize, usize) -> Seq<char>,
    /// The foreground of a named style.
    pub fg: spec_fn(Seq<char>) -> Option<Color>,
    /// The background of a named style.
    pub bg: spec_fn(Seq<char>) -> Option<Color>,
}

/// How text is cut by bytes, and what colours names stand for.
pub struct SpanPainter<'a, S, F, B> {
    pub slice: &'a S,
    pub fg: &'a F,
    pub bg: &'a B,
}

impl<
    'a,
    S: Fn(&str, usize, usize) -> String,
    F: Fn(&str) -> Option<Color>,
    B: Fn(&str) -> Option<Color>,
> SpanPainter<'a, S, F, B> {
    /// `part` is a cut of the text.
    pub open spec fn cuts(&self, text: Seq<char>, start: usize, end: usize, part: Seq<char>) -> bool {
        exists|s: &str, p: String| #[trigger]
            call_ensures(*self.slice, (s, start, end), p) && s@ == text && p@ == part
    }

    /// `color` is the foreground of the name.
    pub open spec fn has_fg(&self, name: Seq<char>, color: Option<Color>) -> bool {
        exists|s: &str| #[trigger] call_ensures(*self.fg, (s,), color) && s@ == name
    }

    /// `color` is the background of the name.
    pub open spec fn has_bg(&self, name: Seq<char>, color: Option<Color>) -> bool {
        exists|s: &str| #[trigger] call_ensures(*self.bg, (s,), color) && s@ == name
    }

    /// The painter as mathematical functions.
    pub open spec fn painting(&self) -> Painting {
        Painting {
            slice: |text: Seq<char>, start: usize, end: usize|
                choose|part: Seq<char>| #[trigger] self.cuts(text, start, end, part),
            fg: |name: Seq<char>| choose|color: Option<Color>| #[trigger] self.has_fg(name, color),
            bg: |name: Seq<char>| choose|color: Option<Color>| #[trigger] self.has_bg(name, color),
        }
    }

    /// Every question may be asked and has one answer.
    pub open spec fn wf(&self) -> bool {
        &&& forall|s: &str, start: usize, end: usize| #[trigger]
            call_requires(*self.slice, (s, start, end))
        &&& forall|text: Seq<char>, start: usize, end: usize, a: Seq<char>, b: Seq<char>|
            #[trigger] self.cuts(text, start, end, a) && #[trigger] self.cuts(text, start, end, b)
                ==> a == b
        &&& forall|s: &str| #[trigger] call_requires(*self.fg, (s,))
        &&& forall|name: Seq<char>, a: Option<Color>, b: Option<Color>|
            #[trigger] self.has_fg(name, a) && #[trigger] self.has_fg(name, b) ==> a == b
        &&& forall|s: &str| #[trigger] call_requires(*self.bg, (s,))
        &&& forall|name: Seq<char>, a: Option<Color>, b: Option<Color>|
            #[trigger] self.has_bg(name, a) && #[trigger] self.has_bg(name, b) ==> a == b
    }

    pub(crate) fn cut(&self, text: &str, start: usize, end: usize) -> (part: String)
        requires
            self.wf(),
        ensures
            part@ == (self.painting().slice)(text@, start, end),
    {
        let part = (self.slice)(text, start, end);
        proof {
            assert(self.cuts(text@, start, end, part@));
        }
        part
    }

    fn foreground(&self, name: &Option<String>) -> (color: Option<Color>)
        requires
            self.wf(),
        ensures
            color == named_color(self.painting().fg, *name),
    {
        match name {
            Some(name) => {
                let color = (self.fg)(name.as_str());
                proof {
                    assert(self.has_fg(name@, color));
                }
                color
            },
            None => None,
        }
    }

    fn background(&self, name: &Option<String>) -> (color: Option<Color>)
        requires
            self.wf(),
        ensures
            color == named_color(self.painting().bg, *name),
    {
        match name {
            Some(name) => {
                let color = (self.bg)(name.as_str());
                proof {
                    assert(self.has_bg(name@, color));
                }
                color
            },
            None => None,
        }
    }
}

/// The colour that a name stands for, where there is a name.
pub open spec fn named_color(
    colors: spec_fn(Seq<char>) -> Option<Color>,
    name: Option<String>,
) -> Option<Color> {
    match name {
        Some(name) => colors(name@),
        None => None,
    }
}

/// The highlights of a span of a line, where there are any.
pub open spec fn retained_spans(
    syntax: RetainedInlineSyntax,
    line: int,
    span: int,
) -> Option<Seq<InlineSyntaxSpan>> {
    if 0 <= line && line + 1 < syntax.line_offsets@.len() {
        let at = syntax.line_offsets@[line] + span;
        if at < syntax.line_offsets@[line + 1] && at < syntax.source_spans@.len() {
            Some(syntax.source_spans@[at]@)
        } else {
            None
        }
    } else {
        None
    }
}

/// The highlights of a span of a line, where there are any.
pub fn highlights_of(syntax: &RetainedInlineSyntax, line: usize, span: usize) -> (r: Option<
    &Vec<InlineSyntaxSpan>,
>)
    ensures
        r is Some <==> retained_spans(*syntax, line as int, span as int) is Some,
        r is Some ==> r->0@ == retained_spans(*syntax, line as int, span as int)->0,
{
    if line < syntax.line_offsets.len() && syntax.line_offsets.len() - line > 1 {
        let start = syntax.line_offsets[line];
        let end = syntax.line_offsets[line + 1];
        if start <= end && span < end - start {
            let at = start + span;
            if at < syntax.source_spans.len() {
                return Some(&syntax.source_spans[at]);
            }
        }
    }
    None
}

/// The part of a highlight that lies in `start .. end`.
pub open spec fn clipped(h: InlineSyntaxSpan, start: usize, end: usize) -> (usize, usize) {
    (
        if h.byte_start > start {
            h.byte_start
        } else {
            start
        },
        if h.byte_end < end {
            h.byte_end
        } else {
            end
        },
    )
}

/// What the bytes `cursor .. end` of a text are drawn with, with the highlights from `i` on.
pub open spec fn syntax_steps(
    painting: Painting,
    source: Seq<char>,
    start: usize,
    end: usize,
    highlights: Seq<InlineSyntaxSpan>,
    i: int,
    cursor: usize,
) -> Seq<LineStep>
    decreases highlights.len() - i,
{
    if i >= highlights.len() {
        op_if(cursor < end, LineStep::Print((painting.slice)(source, cursor, end)))
    } else {
        let h = highlights[i];
        let (from, to) = clipped(h, start, end);
        if from >= to {
            syntax_steps(painting, source, start, end, highlights, i + 1, cursor)
        } else {
            op_if(cursor < from, LineStep::Print((painting.slice)(source, cursor, from))) + seq![
                LineStep::SaveStyle,
                LineStep::SetFg(Color::Rgb { r: h.red, g: h.green, b: h.blue }),
                LineStep::Print((painting.slice)(source, from, to)),
                LineStep::PopStyle,
            ] + syntax_steps(painting, source, start, end, highlights, i + 1, to)
        }
    }
}

impl<
    'a,
    S: Fn(&str, usize, usize) -> String,
    F: Fn(&str) -> Option<Color>,
    B: Fn(&str) -> Option<Color>,
> SpanPainter<'a, S, F, B> {
    /// Draws the bytes `start .. end` of a text with its highlights.
    pub fn print_retained_inline_syntax(
        &self,
        ops: &mut Vec<LineOp>,
        source: &str,
        start: usize,
        end: usize,
        highlights: &Vec<InlineSyntaxSpan>,
    )
        requires
            self.wf(),
        ensures
            steps(final(ops)@) == steps(old(ops)@) + syntax_steps(
                self.painting(),
                source@,
                start,
                end,
                highlights@,
                0,
                start,
            ),
    {
        let ghost p = self.painting();
        let ghost before = steps(ops@);
        let ghost all = syntax_steps(p, source@, start, end, highlights@, 0, start);
        let mut cursor: usize = start;
        let mut i: usize = 0;
        while i < highlights.len()
            invariant
                i <= highlights@.len(),
                self.wf(),
                p == self.painting(),
                before + all == steps(ops@) + syntax_steps(
                    p,
                    source@,
                    start,
                    end,
                    highlights@,
                    i as int,
                    cursor,
                ),
            decreases highlights@.len() - i,
        {
            let h = highlights[i];
            let ghost so_far = steps(ops@);
            let ghost at = cursor;
            let from = if h.byte_start > start {
                h.byte_start
            } else {
                start
            };
            let to = if h.byte_end < end {
                h.byte_end
            } else {
                end
            };
            if from < to {
                if cursor < from {
                    let gap = self.cut(source, cursor, from);
                    add_op(ops, LineOp::Print(gap));
                }
                add_op(ops, LineOp::SaveStyle);
                add_op(ops, LineOp::SetFg(Color::Rgb { r: h.red, g: h.green, b: h.blue }));
                let part = self.cut(source, from, to);
                add_op(ops, LineOp::Print(part));
                add_op(ops, LineOp::PopStyle);
                cursor = to;
            }
            proof {
                assert(steps(ops@) + syntax_steps(
                    p,
                    source@,
                    start,
                    end,
                    highlights@,
                    i + 1,
                    cursor,
                ) =~= so_far + syntax_steps(p, source@, start, end, highlights@, i as int, at));
            }
            i += 1;
        }
        let ghost so_far = steps(ops@);
        if cursor < end {
            let rest = self.cut(source, cursor, end);
            add_op(ops, LineOp::Print(rest));
        }
        proof {
            assert(steps(ops@) =~= so_far + syntax_steps(
                p,
                source@,
                start,
                end,
                highlights@,
                i as int,
                cursor,
            ));
        }
    }
}

/// What sets the style of a span, whose group is `default_hl` where it has none.
pub open spec fn span_style_steps(
    painting: Painting,
    span: StyledSpan,
    default_hl: Option<String>,
) -> Seq<LineStep> {
    let hl = if span.hl is Some {
        span.hl
    } else {
        default_hl
    };
    let fg = named_color(painting.fg, span.fg);
    let bg = named_color(painting.bg, span.bg);
    op_if(hl is Some, LineStep::SetHl(hl->0@)) + op_if(fg is Some, LineStep::SetFg(fg->0)) + op_if(
        bg is Some,
        LineStep::SetBg(bg->0),
    ) + op_if(span.dim, LineStep::SetDim) + op_if(span.bold, LineStep::SetBold) + op_if(
        span.italic,
        LineStep::SetItalic,
    )
}

/// The highlights, as mathematical values.
pub open spec fn highlight_seq(highlights: Option<&Vec<InlineSyntaxSpan>>) -> Option<
    Seq<InlineSyntaxSpan>,
> {
    match highlights {
        Some(highlights) => Some(highlights@),
        None => None,
    }
}

/// The bytes `start .. end` of a span's text in the style in force: with their highlights
/// where the span has a syntax, and not selectable where it is not.
pub open spec fn span_text_steps(
    painting: Painting,
    span: StyledSpan,
    text: Seq<char>,
    start: usize,
    end: usize,
    highlights: Option<Seq<InlineSyntaxSpan>>,
) -> Seq<LineStep> {
    let piece = (painting.slice)(text, start, end);
    if !span.selectable {
        seq![LineStep::PrintMeta { text: piece, selectable: false }]
    } else {
        match (span.syntax, highlights) {
            (Some(_), Some(highlights)) => syntax_steps(
                painting,
                text,
                start,
                end,
                highlights,
                0,
                start,
            ),
            (Some(lang), None) => seq![LineStep::SyntaxRange { lang: lang@, text, start, end }],
            (None, _) => seq![LineStep::Print(piece)],
        }
    }
}

/// What the bytes `start .. end` of a span's text are drawn with. Nothing is drawn with
/// nothing.
pub open spec fn range_steps(
    painting: Painting,
    span: StyledSpan,
    text: Seq<char>,
    default_hl: Option<String>,
    start: usize,
    end: usize,
    highlights: Option<Seq<InlineSyntaxSpan>>,
) -> Seq<LineStep> {
    if (painting.slice)(text, start, end).len() == 0 {
        Seq::empty()
    } else {
        seq![LineStep::SaveStyle] + span_style_steps(painting, span, default_hl) + span_text_steps(
            painting,
            span,
            text,
            start,
            end,
            highlights,
        ) + seq![LineStep::PopStyle]
    }
}

fn add_color(ops: &mut Vec<LineOp>, color: Option<Color>, fg: bool)
    ensures
        steps(final(ops)@) == steps(old(ops)@) + op_if(
            color is Some,
            if fg {
                LineStep::SetFg(color->0)
            } else {
                LineStep::SetBg(color->0)
            },
        ),
{
    let ghost before = steps(ops@);
    if let Some(color) = color {
        if fg {
            add_op(ops, LineOp::SetFg(color));
        } else {
            add_op(ops, LineOp::SetBg(color));
        }
    }
    proof {
        if color is None {
            assert(steps(ops@) =~= before + Seq::<LineStep>::empty());
        }
    }
}

fn add_hl(ops: &mut Vec<LineOp>, own: &Option<String>, default_hl: &Option<String>)
    ensures
        ({
            let hl = if *own is Some {
                *own
            } else {
                *default_hl
            };
            steps(final(ops)@) == steps(old(ops)@) + op_if(hl is Some, LineStep::SetHl(hl->0@))
        }),
{
    let ghost before = steps(ops@);
    match (own, default_hl) {
        (Some(name), _) => add_op(ops, LineOp::SetHl(name.clone())),
        (None, Some(name)) => add_op(ops, LineOp::SetHl(name.clone())),
        (None, None) => {},
    }
    proof {
        let hl = if *own is Some {
            *own
        } else {
            *default_hl
        };
        assert(steps(ops@) =~= before + op_if(hl is Some, LineStep::SetHl(hl->0@)));
    }
}

impl<
    'a,
    S: Fn(&str, usize, usize) -> String,
    F: Fn(&str) -> Option<Color>,
    B: Fn(&str) -> Option<Color>,
> SpanPainter<'a, S, F, B> {
    fn add_span_style(
        &self,
        ops: &mut Vec<LineOp>,
        span: &StyledSpan,
        default_hl: &Option<String>,
    )
        requires
            self.wf(),
        ensures
            steps(final(ops)@) == steps(old(ops)@) + span_style_steps(
                self.painting(),
                *span,
                *default_hl,
            ),
    {
        let ghost before = steps(ops@);
        let ghost p = self.painting();
        let fg = self.foreground(&span.fg);
        let bg = self.background(&span.bg);
        let ghost hl = if span.hl is Some {
            span.hl
        } else {
            *default_hl
        };
        let ghost a = op_if(hl is Some, LineStep::SetHl(hl->0@));
        let ghost b = op_if(fg is Some, LineStep::SetFg(fg->0));
        let ghost c = op_if(bg is Some, LineStep::SetBg(bg->0));
        let ghost d = op_if(span.dim, LineStep::SetDim);
        let ghost e = op_if(span.bold, LineStep::SetBold);
        let ghost f = op_if(span.italic, LineStep::SetItalic);
        add_hl(ops, &span.hl, default_hl);
        add_color(ops, fg, true);
        add_color(ops, bg, false);
        add_op_if(ops, span.dim, LineOp::SetDim);
        add_op_if(ops, span.bold, LineOp::SetBold);
        add_op_if(ops, span.italic, LineOp::SetItalic);
        proof {
            lemma_behind(before, a, b);
            lemma_behind(before, a + b, c);
            lemma_behind(before, a + b + c, d);
            lemma_behind(before, a + b + c + d, e);
            lemma_behind(before, a + b + c + d + e, f);
        }
    }

    /// Draws the bytes `start .. end` of a span's text.
    pub fn print_styled_text_range(
        &self,
        ops: &mut Vec<LineOp>,
        span: &StyledSpan,
        text: &str,
        default_hl: &Option<String>,
        start: usize,
        end: usize,
        highlights: Option<&Vec<InlineSyntaxSpan>>,
    )
        requires
            self.wf(),
        ensures
            steps(final(ops)@) == steps(old(ops)@) + range_steps(
                self.painting(),
                *span,
                text@,
                *default_hl,
                start,
                end,
                highlight_seq(highlights),
            ),
    {
        let ghost p = self.painting();
        let ghost before = steps(ops@);
        let piece = self.cut(text, start, end);
        if piece.as_str().is_empty() {
            proof {
                assert(steps(ops@) =~= before + Seq::<LineStep>::empty());
            }
            return ;
        }
        add_op(ops, LineOp::SaveStyle);
        self.add_span_style(ops, span, default_hl);
        let ghost styled = steps(ops@);
        if !span.selectable {
            add_op(ops, LineOp::PrintMeta { text: piece, selectable: false });
        } else {
            match (&span.syntax, highlights) {
                (Some(_), Some(highlights)) => {
                    self.print_retained_inline_syntax(ops, text, start, end, highlights);
                },
                (Some(lang), None) => {
                    add_op(
                        ops,
                        LineOp::SyntaxRange {
                            lang: lang.clone(),
                            text: String::from_str(text),
                            start,
                            end,
                        },
                    );
                },
                (None, _) => {
                    add_op(ops, LineOp::Print(piece));
                },
            }
        }
        let ghost body = span_text_steps(
            p,
            *span,
            text@,
            start,
            end,
            highlight_seq(highlights),
        );
        proof {
            assert(steps(ops@) == styled + body);
        }
        add_op(ops, LineOp::PopStyle);
        proof {
            assert(steps(ops@) =~= before + (seq![LineStep::SaveStyle] + span_style_steps(
                p,
                *span,
                *default_hl,
            ) + body + seq![LineStep::PopStyle]));
        }
    }

    /// Draws as much of the bytes from `start` on as fits: `keep` bytes do. Says whether
    /// that was all of them.
    pub fn print_styled_text_range_clipped(
        &self,
        ops: &mut Vec<LineOp>,
        span: &StyledSpan,
        text: &str,
        default_hl: &Option<String>,
        start: usize,
        end: usize,
        highlights: Option<&Vec<InlineSyntaxSpan>>,
        keep: usize,
    ) -> (all: bool)
        requires
            self.wf(),
        ensures
            steps(final(ops)@) == steps(old(ops)@) + range_steps(
                self.painting(),
                *span,
                text@,
                *default_hl,
                start,
                start.saturating_add(keep),
                highlight_seq(highlights),
            ),
            all == (keep == crate::text::text_bytes((self.painting().slice)(text@, start, end))),
    {
        let piece = self.cut(text, start, end);
        let stop = start.saturating_add(keep);
        self.print_styled_text_range(ops, span, text, default_hl, start, stop, highlights);
        keep == crate::text::byte_len(piece.as_str())
    }
}

/// A save of the style for every step that pops one, at every place.
pub open spec fn depth(ops: Seq<LineStep>, n: int) -> int
    decreases n,
{
    if n <= 0 {
        0
    } else {
        depth(ops, n - 1) + match ops[n - 1] {
            LineStep::SaveStyle => 1int,
            LineStep::PushDim => 1,
            LineStep::PushHl(_) => 1,
            LineStep::PushStyle(_) => 1,
            LineStep::PopStyle => -1,
            _ => 0,
        }
    }
}

/// How much deeper styles are stacked behind some steps.
pub open spec fn depth_of(ops: Seq<LineStep>) -> int {
    depth(ops, ops.len() as int)
}

pub(crate) proof fn lemma_depth_of_concat(a: Seq<LineStep>, b: Seq<LineStep>, n: int)
    requires
        0 <= n <= b.len(),
    ensures
        depth(a + b, a.len() + n) == depth_of(a) + depth(b, n),
    decreases n,
{
    if n > 0 {
        lemma_depth_of_concat(a, b, n - 1);
    } else {
        lemma_depth_prefix(a, b, a.len() as int);
    }
}

proof fn lemma_depth_prefix(a: Seq<LineStep>, b: Seq<LineStep>, n: int)
    requires
        0 <= n <= a.len(),
    ensures
        depth(a + b, n) == depth(a, n),
    decreases n,
{
    if n > 0 {
        lemma_depth_prefix(a, b, n - 1);
    }
}

pub(crate) proof fn lemma_depth_add(a: Seq<LineStep>, b: Seq<LineStep>)
    ensures
        depth_of(a + b) == depth_of(a) + depth_of(b),
{
    lemma_depth_of_concat(a, b, b.len() as int);
}

proof fn lemma_depth_syntax(
    painting: Painting,
    source: Seq<char>,
    start: usize,
    end: usize,
    highlights: Seq<InlineSyntaxSpan>,
    i: int,
    cursor: usize,
)
    ensures
        depth_of(syntax_steps(painting, source, start, end, highlights, i, cursor)) == 0,
    decreases highlights.len() - i,
{
    reveal_with_fuel(depth, 6);
    if i < highlights.len() {
        let h = highlights[i];
        let (from, to) = clipped(h, start, end);
        if from >= to {
            lemma_depth_syntax(painting, source, start, end, highlights, i + 1, cursor);
        } else {
            lemma_depth_syntax(painting, source, start, end, highlights, i + 1, to);
            let gap = op_if(cursor < from, LineStep::Print((painting.slice)(source, cursor, from)));
            let part = seq![
                LineStep::SaveStyle,
                LineStep::SetFg(Color::Rgb { r: h.red, g: h.green, b: h.blue }),
                LineStep::Print((painting.slice)(source, from, to)),
                LineStep::PopStyle,
            ];
            let rest = syntax_steps(painting, source, start, end, highlights, i + 1, to);
            lemma_depth_add(gap, part);
            lemma_depth_add(gap + part, rest);
        }
    }
}

proof fn lemma_depth_one(step: LineStep)
    ensures
        depth_of(seq![step]) == match step {
            LineStep::SaveStyle => 1int,
            LineStep::PushDim => 1,
            LineStep::PushHl(_) => 1,
            LineStep::PushStyle(_) => 1,
            LineStep::PopStyle => -1,
            _ => 0,
        },
{
    reveal_with_fuel(depth, 2);
}

proof fn lemma_depth_neutral(wanted: bool, step: LineStep)
    requires
        step is SetHl || step is SetFg || step is SetBg || step is SetDim || step is SetBold
            || step is SetItalic,
    ensures
        depth_of(op_if(wanted, step)) == 0,
{
    lemma_depth_one(step);
}

proof fn lemma_depth_style(painting: Painting, span: StyledSpan, default_hl: Option<String>)
    ensures
        depth_of(span_style_steps(painting, span, default_hl)) == 0,
{
    let hl = if span.hl is Some {
        span.hl
    } else {
        default_hl
    };
    let fg = named_color(painting.fg, span.fg);
    let bg = named_color(painting.bg, span.bg);
    let a = op_if(hl is Some, LineStep::SetHl(hl->0@));
    let b = op_if(fg is Some, LineStep::SetFg(fg->0));
    let c = op_if(bg is Some, LineStep::SetBg(bg->0));
    let d = op_if(span.dim, LineStep::SetDim);
    let e = op_if(span.bold, LineStep::SetBold);
    let f = op_if(span.italic, LineStep::SetItalic);
    lemma_depth_neutral(hl is Some, LineStep::SetHl(hl->0@));
    lemma_depth_neutral(fg is Some, LineStep::SetFg(fg->0));
    lemma_depth_neutral(bg is Some, LineStep::SetBg(bg->0));
    lemma_depth_neutral(span.dim, LineStep::SetDim);
    lemma_depth_neutral(span.bold, LineStep::SetBold);
    lemma_depth_neutral(span.italic, LineStep::SetItalic);
    lemma_depth_add(a, b);
    lemma_depth_add(a + b, c);
    lemma_depth_add(a + b + c, d);
    lemma_depth_add(a + b + c + d, e);
    lemma_depth_add(a + b + c + d + e, f);
}

proof fn lemma_depth_body(
    painting: Painting,
    span: StyledSpan,
    text: Seq<char>,
    start: usize,
    end: usize,
    highlights: Option<Seq<InlineSyntaxSpan>>,
)
    ensures
        depth_of(span_text_steps(painting, span, text, start, end, highlights)) == 0,
{
    let piece = (painting.slice)(text, start, end);
    lemma_depth_one(LineStep::PrintMeta { text: piece, selectable: false });
    lemma_depth_one(LineStep::Print(piece));
    if span.syntax is Some {
        lemma_depth_one(LineStep::SyntaxRange { lang: span.syntax->0@, text, start, end });
    }
    if highlights is Some {
        lemma_depth_syntax(painting, text, start, end, highlights->0, 0, start);
    }
}

/// Drawing a range of a span leaves the stack of styles as it was.
pub proof fn range_keeps_styles(
    painting: Painting,
    span: StyledSpan,
    text: Seq<char>,
    default_hl: Option<String>,
    start: usize,
    end: usize,
    highlights: Option<Seq<InlineSyntaxSpan>>,
)
    ensures
        depth_of(range_steps(painting, span, text, default_hl, start, end, highlights)) == 0,
{
    let open = seq![LineStep::SaveStyle];
    let style = span_style_steps(painting, span, default_hl);
    let body = span_text_steps(painting, span, text, start, end, highlights);
    let close = seq![LineStep::PopStyle];
    lemma_depth_one(LineStep::SaveStyle);
    lemma_depth_one(LineStep::PopStyle);
    lemma_depth_style(painting, span, default_hl);
    lemma_depth_body(painting, span, text, start, end, highlights);
    lemma_depth_add(open, style);
    lemma_depth_add(open + style, body);
    lemma_depth_add(open + style + body, close);
}

} // verus!
