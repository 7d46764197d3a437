//! What rows of styled runs, lines, separators, texts and markers read as, and in which styles.
use vstd::prelude::*;
use crate::chrome::{ellipsis_steps, rule_steps, style_steps};
use crate::drawn_text::{
    cuts_at_bytes, drawn_text, highlights_in_order, lemma_drawn_concat, lemma_drawn_if,
    lemma_drawn_none, lemma_drawn_one, span_part_reads_as_it_is,
};
use crate::ink::{dry, ink_of, inked, lemma_ink_concat, lemma_ink_one, Ink};
use crate::ir::{
    GutterSpec, InlineSyntaxSpan, LineSpec, RunsSpec, SeparatorSpec, StyleSpec, StyledSpan,
};
use crate::leaf_edges::cap_marker_steps;
use crate::leaf_text::text_row_steps;
use crate::line_ops::{gutter_steps, op_if, LineStep};
use crate::paint::Color;
use crate::prefixed_runs::clipped_steps;
use crate::row_prefix::{prefix_row, prefix_run, prefix_steps, RowFit};
use crate::styled_runs::{
    fragments_steps, line_runs, line_steps, rule_cells, run_row_steps, runs_indent, separator_steps,
    spans_steps, styled_rows, Fragment, InlineShape, RunView,
};
use crate::styled_text::{
    named_color, range_steps, retained_spans, span_style_steps, span_text_steps, Painting,
};
use crate::text::text_bytes;

verus! {

/// The part of a run's text that a fragment stands for.
pub open spec fn fragment_text(painting: Painting, runs: Seq<RunView>, f: Fragment) -> Seq<char> {
    (painting.slice)(runs[f.run_index as int].text, f.start, f.end)
}

/// A fragment is a part of a run of a span that is there, and its span's highlights are known.
pub open spec fn is_part(painting: Painting, spec: RunsSpec, line: int, runs: Seq<RunView>, f: Fragment) -> bool {
    let run = runs[f.run_index as int];
    &&& f.run_index < runs.len()
    &&& run.meta < spec.lines@[line]@.len()
    &&& is_drawable(
        painting,
        spec.lines@[line]@[run.meta as int],
        run.text,
        retained_spans(spec.syntax_highlights, line, run.meta as int),
    )
    &&& f.start <= f.end <= text_bytes(run.text)
}

/// A text can be cut at any byte, and the highlights of its span are known and in order, if it
/// has a syntax.
pub open spec fn is_drawable(
    painting: Painting,
    span: StyledSpan,
    text: Seq<char>,
    highlights: Option<Seq<InlineSyntaxSpan>>,
) -> bool {
    &&& cuts_at_bytes(painting, text)
    &&& highlights is Some ==> highlights_in_order(highlights->0)
    &&& span.selectable && span.syntax is Some ==> highlights is Some
}

/// A row of runs reads as its fragments one behind the other, behind blanks where it goes on
/// with the row before.
pub proof fn run_row_reads_as_its_fragments(
    painting: Painting,
    shape: InlineShape,
    spec: RunsSpec,
    width: u16,
    gutter: Option<&GutterSpec>,
    line: int,
    row: int,
)
    requires
        ({
            let fragments = styled_rows(
                shape,
                spec.lines@[line]@,
                width,
                runs_indent(spec, width),
            )[row];
            let runs = line_runs(shape, spec.lines@[line]@);
            forall|k: int|
                0 <= k < fragments.len() ==> is_part(
                    painting,
                    spec,
                    line,
                    runs,
                    #[trigger] fragments[k],
                )
        }),
    ensures
        ({
            let indent = runs_indent(spec, width);
            let fragments = styled_rows(shape, spec.lines@[line]@, width, indent)[row];
            let runs = line_runs(shape, spec.lines@[line]@);
            drawn_text(run_row_steps(painting, shape, spec, width, gutter, line, row)) == (if row
                > 0 {
                Seq::new(indent as nat, |i: int| ' ')
            } else {
                Seq::empty()
            }) + fragments.map_values(|f: Fragment| fragment_text(painting, runs, f)).flatten()
        }),
{
    broadcast use {lemma_drawn_concat, lemma_drawn_one};

    lemma_drawn_none();
    let indent = runs_indent(spec, width);
    let fragments = styled_rows(shape, spec.lines@[line]@, width, indent)[row];
    let runs = line_runs(shape, spec.lines@[line]@);
    let blank = LineStep::PrintMeta {
        text: crate::styled_runs::blanks(indent as int),
        selectable: false,
    };
    lemma_drawn_if(row > 0 && indent > 0, blank);
    lemma_fragments(painting, spec, line, runs, fragments, fragments.len() as int);
    assert(fragments.take(fragments.len() as int) =~= fragments);
    let text = fragments.map_values(|f: Fragment| fragment_text(painting, runs, f)).flatten();
    assert(drawn_text(run_row_steps(painting, shape, spec, width, gutter, line, row)) =~= (if row
        > 0 {
        Seq::new(indent as nat, |i: int| ' ')
    } else {
        Seq::empty()
    }) + text);
}

proof fn lemma_fragments(
    painting: Painting,
    spec: RunsSpec,
    line: int,
    runs: Seq<RunView>,
    fragments: Seq<Fragment>,
    n: int,
)
    requires
        0 <= n <= fragments.len(),
        forall|k: int|
            0 <= k < fragments.len() ==> is_part(
                painting,
                spec,
                line,
                runs,
                #[trigger] fragments[k],
            ),
    ensures
        drawn_text(fragments_steps(painting, spec, line, runs, fragments, n)) == fragments.take(
            n,
        ).map_values(|f: Fragment| fragment_text(painting, runs, f)).flatten(),
    decreases n,
{
    broadcast use {lemma_drawn_concat, lemma_drawn_one};

    lemma_drawn_none();
    let text = |f: Fragment| fragment_text(painting, runs, f);
    if n > 0 {
        lemma_fragments(painting, spec, line, runs, fragments, n - 1);
        let f = fragments[n - 1];
        assert(is_part(painting, spec, line, runs, f));
        let run = runs[f.run_index as int];
        span_part_reads_as_it_is(
            painting,
            spec.lines@[line]@[run.meta as int],
            run.text,
            spec.hl_group,
            f.start,
            f.end,
            retained_spans(spec.syntax_highlights, line, run.meta as int),
        );
        assert(fragments.take(n).map_values(text) =~= fragments.take(n - 1).map_values(text).push(
            text(f),
        ));
        fragments.take(n - 1).map_values(text).lemma_flatten_push(text(f));
    } else {
        assert(fragments.take(0).map_values(text) =~= Seq::<Seq<char>>::empty());
    }
}

/// The text of some runs.
pub open spec fn runs_text(runs: Seq<RunView>) -> Seq<char> {
    runs.map_values(|run: RunView| run.text).flatten()
}

/// Each run is of a span that is there and can be drawn.
pub open spec fn are_drawable(
    painting: Painting,
    spans: Seq<StyledSpan>,
    runs: Seq<RunView>,
    syntax: Option<crate::ir::RetainedInlineSyntax>,
) -> bool {
    forall|k: int|
        0 <= k < runs.len() ==> {
            let run = #[trigger] runs[k];
            &&& run.meta < spans.len()
            &&& is_drawable(
                painting,
                spans[run.meta as int],
                run.text,
                match syntax {
                    Some(syntax) => retained_spans(syntax, 0, run.meta as int),
                    None => None,
                },
            )
        }
}

proof fn lemma_spans_text(
    painting: Painting,
    spans: Seq<StyledSpan>,
    runs: Seq<RunView>,
    default_hl: Option<String>,
    syntax: Option<crate::ir::RetainedInlineSyntax>,
    n: int,
)
    requires
        0 <= n <= runs.len(),
        are_drawable(painting, spans, runs, syntax),
    ensures
        drawn_text(spans_steps(painting, spans, runs, default_hl, syntax, n)) == runs_text(
            runs.take(n),
        ),
    decreases n,
{
    broadcast use {lemma_drawn_concat, lemma_drawn_one};

    lemma_drawn_none();
    let text = |run: RunView| run.text;
    if n > 0 {
        lemma_spans_text(painting, spans, runs, default_hl, syntax, n - 1);
        let run = runs[n - 1];
        span_part_reads_as_it_is(
            painting,
            spans[run.meta as int],
            run.text,
            default_hl,
            0,
            text_bytes(run.text) as usize,
            match syntax {
                Some(syntax) => retained_spans(syntax, 0, run.meta as int),
                None => None,
            },
        );
        assert(runs.take(n).map_values(text) =~= runs.take(n - 1).map_values(text).push(run.text));
        runs.take(n - 1).map_values(text).lemma_flatten_push(run.text);
    } else {
        assert(runs.take(0).map_values(text) =~= Seq::<Seq<char>>::empty());
    }
}

/// A line reads as its runs one behind the other.
pub proof fn line_reads_as_its_runs(
    painting: Painting,
    shape: InlineShape,
    spec: LineSpec,
    gutter: Option<&GutterSpec>,
)
    requires
        are_drawable(
            painting,
            spec.spans@,
            line_runs(shape, spec.spans@),
            Some(spec.syntax_highlights),
        ),
    ensures
        drawn_text(line_steps(painting, shape, spec, gutter)) == runs_text(
            line_runs(shape, spec.spans@),
        ),
{
    broadcast use {lemma_drawn_concat, lemma_drawn_one};

    lemma_drawn_none();
    let runs = line_runs(shape, spec.spans@);
    lemma_spans_text(
        painting,
        spec.spans@,
        runs,
        spec.hl_group,
        Some(spec.syntax_highlights),
        runs.len() as int,
    );
    assert(runs.take(runs.len() as int) =~= runs);
    assert(drawn_text(line_steps(painting, shape, spec, gutter)) =~= runs_text(runs));
}

/// A separator reads as its label between two pieces of a rule.
pub proof fn separator_reads_as_its_label_in_a_rule(
    painting: Painting,
    shape: InlineShape,
    spec: SeparatorSpec,
    width: u16,
    gutter: Option<&GutterSpec>,
)
    requires
        are_drawable(painting, spec.label@, line_runs(shape, spec.label@), None),
    ensures
        ({
            let (left, right) = rule_cells(spec, width);
            drawn_text(separator_steps(painting, shape, spec, width, gutter)) == Seq::new(
                left as nat,
                |i: int| '\u{2500}',
            ) + runs_text(line_runs(shape, spec.label@)) + Seq::new(
                right as nat,
                |i: int| '\u{2500}',
            )
        }),
{
    broadcast use {lemma_drawn_concat, lemma_drawn_one};

    lemma_drawn_none();
    let runs = line_runs(shape, spec.label@);
    let (left, right) = rule_cells(spec, width);
    lemma_spans_text(painting, spec.label@, runs, None, None, runs.len() as int);
    assert(runs.take(runs.len() as int) =~= runs);
    lemma_drawn_if(spec.dim, LineStep::PushDim);
    lemma_drawn_if(spec.dim, LineStep::PopStyle);
    assert(drawn_text(separator_steps(painting, shape, spec, width, gutter)) =~= Seq::new(
        left as nat,
        |i: int| '\u{2500}',
    ) + runs_text(runs) + Seq::new(right as nat, |i: int| '\u{2500}'));
}

/// The changes of style that a span asks for: its own group or that of its line, its colours
/// as far as the theme has them, and dim, bold and italic.
pub open spec fn span_asks(
    painting: Painting,
    span: StyledSpan,
    default_hl: Option<String>,
    step: LineStep,
) -> bool {
    match step {
        LineStep::SetHl(name) => match (span.hl, default_hl) {
            (Some(own), _) => name == own@,
            (None, Some(group)) => name == group@,
            (None, None) => false,
        },
        LineStep::SetFg(color) => span.fg is Some && (painting.fg)(span.fg->0@) == Some(color),
        LineStep::SetBg(color) => span.bg is Some && (painting.bg)(span.bg->0@) == Some(color),
        LineStep::SetDim => span.dim,
        LineStep::SetBold => span.bold,
        LineStep::SetItalic => span.italic,
        _ => false,
    }
}

/// A part of a span without a syntax is printed in the style in force and all that the span
/// asks for, and in nothing else; behind it the style is what it was.
pub proof fn span_is_in_its_style(
    painting: Painting,
    span: StyledSpan,
    text: Seq<char>,
    default_hl: Option<String>,
    start: usize,
    end: usize,
    highlights: Option<Seq<InlineSyntaxSpan>>,
    from: Ink,
)
    requires
        span.syntax is None || !span.selectable,
    ensures
        ({
            let after = ink_of(
                from,
                range_steps(painting, span, text, default_hl, start, end, highlights),
            );
            let own = from.style + span_style_steps(painting, span, default_hl);
            &&& after.cells == from.cells + inked((painting.slice)(text, start, end), own)
            &&& after.style == from.style
            &&& after.saved == from.saved
            &&& after.gutter == from.gutter
            &&& forall|step: LineStep| #[trigger]
                own.contains(step) <==> from.style.contains(step) || span_asks(
                    painting,
                    span,
                    default_hl,
                    step,
                )
        }),
{
    let changes = span_style_steps(painting, span, default_hl);
    let own = from.style + changes;
    assert forall|step: LineStep| #[trigger] own.contains(step) <==> from.style.contains(step)
        || span_asks(painting, span, default_hl, step) by {
        lemma_contains(from.style, changes, step);
        lemma_span_asks(painting, span, default_hl, step);
    }
    let piece = (painting.slice)(text, start, end);
    let steps = range_steps(painting, span, text, default_hl, start, end, highlights);
    if piece.len() == 0 {
        assert(ink_of(from, steps) == from);
        assert(from.cells + inked(piece, own) =~= from.cells);
    } else {
        let save = seq![LineStep::SaveStyle];
        let restore = seq![LineStep::PopStyle];
        let body = span_text_steps(painting, span, text, start, end, highlights);
        lemma_ink_concat(from, save + changes + body, restore);
        lemma_ink_concat(from, save + changes, body);
        lemma_ink_concat(from, save, changes);
        lemma_ink_one(from, LineStep::SaveStyle);
        let saved = ink_of(from, save);
        lemma_span_changes(painting, span, default_hl);
        lemma_style_changes(saved, changes);
        let styled = ink_of(saved, changes);
        let print = if span.selectable {
            LineStep::Print(piece)
        } else {
            LineStep::PrintMeta { text: piece, selectable: false }
        };
        assert(body == seq![print]);
        lemma_ink_one(styled, print);
        let printed = ink_of(styled, body);
        assert(printed.cells == from.cells + inked(piece, own));
        lemma_ink_one(printed, LineStep::PopStyle);
        let after = ink_of(printed, restore);
        assert(after.saved =~= from.saved);
    }
}

proof fn lemma_span_asks(
    painting: Painting,
    span: StyledSpan,
    default_hl: Option<String>,
    step: LineStep,
)
    ensures
        span_style_steps(painting, span, default_hl).contains(step) <==> span_asks(
            painting,
            span,
            default_hl,
            step,
        ),
{
    let hl = if span.hl is Some {
        span.hl
    } else {
        default_hl
    };
    let fg = named_color(painting.fg, span.fg);
    let bg = named_color(painting.bg, span.bg);
    let a = op_if(hl is Some, LineStep::SetHl(hl->0@));
    let b = op_if(fg is Some, LineStep::SetFg(fg->0));
    let c = op_if(bg is Some, LineStep::SetBg(bg->0));
    let d = op_if(span.dim, LineStep::SetDim);
    let e = op_if(span.bold, LineStep::SetBold);
    let f = op_if(span.italic, LineStep::SetItalic);
    lemma_contains(a + b + c + d + e, f, step);
    lemma_contains(a + b + c + d, e, step);
    lemma_contains(a + b + c, d, step);
    lemma_contains(a + b, c, step);
    lemma_contains(a, b, step);
    lemma_contains_if(hl is Some, LineStep::SetHl(hl->0@), step);
    lemma_contains_if(fg is Some, LineStep::SetFg(fg->0), step);
    lemma_contains_if(bg is Some, LineStep::SetBg(bg->0), step);
    lemma_contains_if(span.dim, LineStep::SetDim, step);
    lemma_contains_if(span.bold, LineStep::SetBold, step);
    lemma_contains_if(span.italic, LineStep::SetItalic, step);
}

proof fn lemma_span_changes(painting: Painting, span: StyledSpan, default_hl: Option<String>)
    ensures
        only_changes(span_style_steps(painting, span, default_hl)),
{
    let changes = span_style_steps(painting, span, default_hl);
    assert forall|i: int| 0 <= i < changes.len() implies (#[trigger] changes[i] is SetHl
        || changes[i] is SetFg || changes[i] is SetBg || changes[i] is SetDim
        || changes[i] is SetBold || changes[i] is SetItalic) by {
        assert(changes.contains(changes[i]));
        lemma_span_asks(painting, span, default_hl, changes[i]);
    }
}

proof fn lemma_contains(a: Seq<LineStep>, b: Seq<LineStep>, step: LineStep)
    ensures
        (a + b).contains(step) <==> a.contains(step) || b.contains(step),
{
    if (a + b).contains(step) {
        let i = choose|i: int| 0 <= i < (a + b).len() && (a + b)[i] == step;
        if i < a.len() {
            assert(a[i] == step);
        } else {
            assert(b[i - a.len()] == step);
        }
    }
    if a.contains(step) {
        let i = choose|i: int| 0 <= i < a.len() && a[i] == step;
        assert((a + b)[i] == step);
    }
    if b.contains(step) {
        let i = choose|i: int| 0 <= i < b.len() && b[i] == step;
        assert((a + b)[a.len() + i] == step);
    }
}

proof fn lemma_contains_if(wanted: bool, one: LineStep, step: LineStep)
    ensures
        op_if(wanted, one).contains(step) <==> wanted && step == one,
{
    if wanted {
        assert(op_if(wanted, one)[0] == one);
    }
}

/// Each of some steps is a change of style.
pub open spec fn only_changes(steps: Seq<LineStep>) -> bool {
    forall|i: int|
        0 <= i < steps.len() ==> (#[trigger] steps[i] is SetHl || steps[i] is SetFg
            || steps[i] is SetBg || steps[i] is SetDim || steps[i] is SetBold
            || steps[i] is SetItalic)
}

proof fn lemma_style_changes(from: Ink, changes: Seq<LineStep>)
    requires
        only_changes(changes),
    ensures
        ink_of(from, changes) == (Ink { style: from.style + changes, ..from }),
    decreases changes.len(),
{
    if changes.len() == 0 {
        assert(from.style + changes =~= from.style);
    } else {
        lemma_style_changes(from, changes.drop_last());
        assert(changes.last() == changes[changes.len() - 1]);
        assert((from.style + changes.drop_last()).push(changes.last()) =~= from.style + changes);
    }
}

/// The changes that a style asks for: a group, the colours that the theme has for it, and dim,
/// bold and italic.
pub proof fn style_changes_what_it_names(
    spec: StyleSpec,
    fg: Option<Color>,
    bg: Option<Color>,
    from: Ink,
)
    ensures
        ({
            let steps = style_steps(spec, fg, bg);
            let after = ink_of(from, steps);
            &&& after == (Ink { style: from.style + steps, ..from })
            &&& forall|step: LineStep| #[trigger]
                steps.contains(step) <==> match step {
                    LineStep::SetHl(name) => spec.hl_group is Some && spec.hl_group->0@ == name,
                    LineStep::SetFg(color) => fg == Some(color),
                    LineStep::SetBg(color) => bg == Some(color),
                    LineStep::SetDim => spec.dim,
                    LineStep::SetBold => spec.bold,
                    LineStep::SetItalic => spec.italic,
                    _ => false,
                }
        }),
{
    let steps = style_steps(spec, fg, bg);
    let a = op_if(spec.hl_group is Some, LineStep::SetHl(spec.hl_group->0@));
    let b = op_if(fg is Some, LineStep::SetFg(fg->0));
    let c = op_if(bg is Some, LineStep::SetBg(bg->0));
    let d = op_if(spec.dim, LineStep::SetDim);
    let e = op_if(spec.bold, LineStep::SetBold);
    let f = op_if(spec.italic, LineStep::SetItalic);
    assert(steps =~= a + b + c + d + e + f);
    lemma_style_changes(from, steps);
    assert forall|step: LineStep| #[trigger] steps.contains(step) <==> match step {
        LineStep::SetHl(name) => spec.hl_group is Some && spec.hl_group->0@ == name,
        LineStep::SetFg(color) => fg == Some(color),
        LineStep::SetBg(color) => bg == Some(color),
        LineStep::SetDim => spec.dim,
        LineStep::SetBold => spec.bold,
        LineStep::SetItalic => spec.italic,
        _ => false,
    } by {
        lemma_contains(a + b + c + d + e, f, step);
        lemma_contains(a + b + c + d, e, step);
        lemma_contains(a + b + c, d, step);
        lemma_contains(a + b, c, step);
        lemma_contains(a, b, step);
        lemma_contains_if(spec.hl_group is Some, LineStep::SetHl(spec.hl_group->0@), step);
        lemma_contains_if(fg is Some, LineStep::SetFg(fg->0), step);
        lemma_contains_if(bg is Some, LineStep::SetBg(bg->0), step);
        lemma_contains_if(spec.dim, LineStep::SetDim, step);
        lemma_contains_if(spec.bold, LineStep::SetBold, step);
        lemma_contains_if(spec.italic, LineStep::SetItalic, step);
    }
}

/// The gutter that a row begins with: in the style of the text where it asks for it, else in
/// none.
pub open spec fn gutter_ink(gutter: Option<&GutterSpec>, style: Seq<LineStep>) -> Seq<
    crate::ink::Inked,
> {
    match gutter {
        Some(gutter) => inked(
            gutter.text@,
            if gutter.styled {
                style
            } else {
                Seq::empty()
            },
        ),
        None => Seq::empty(),
    }
}

proof fn lemma_gutter_ink(gutter: Option<&GutterSpec>, styled: bool, from: Ink)
    ensures
        ink_of(from, gutter_steps(gutter, styled)) == (Ink {
            gutter: from.gutter + if gutter is Some && gutter->0.styled == styled {
                inked(gutter->0.text@, from.style)
            } else {
                Seq::empty()
            },
            ..from
        }),
{
    broadcast use {lemma_ink_concat, lemma_ink_one};

    let none = Seq::<LineStep>::empty();
    assert(ink_of(from, none) == from);
    assert(from.gutter + Seq::<crate::ink::Inked>::empty() =~= from.gutter);
}

/// A row of text stands in the style of its group, or dim where it has none, behind its gutter;
/// behind the row no style is left.
pub proof fn text_row_is_in_its_style(
    hl_group: Option<String>,
    gutter: Option<&GutterSpec>,
    row: int,
    text: Seq<char>,
)
    ensures
        ({
            let ink = ink_of(dry(), text_row_steps(hl_group, gutter, row, LineStep::Print(text)));
            let style = match hl_group {
                Some(name) => seq![LineStep::PushHl(name@)],
                None => seq![LineStep::PushDim],
            };
            &&& ink.cells == inked(text, style)
            &&& ink.gutter == gutter_ink(gutter, style)
            &&& ink.style.len() == 0
            &&& ink.saved.len() == 0
        }),
{
    broadcast use {lemma_ink_concat, lemma_ink_one};

    let begun = ink_of(dry(), seq![LineStep::Row { continuation: row > 0 }]);
    assert(inked(Seq::<char>::empty(), dry().style) =~= Seq::empty());
    assert(begun.cells =~= dry().cells);
    lemma_gutter_ink(gutter, false, begun);
    let plain = ink_of(begun, gutter_steps(gutter, false));
    let push = match hl_group {
        Some(name) => LineStep::PushHl(name@),
        None => LineStep::PushDim,
    };
    let pushed = ink_of(plain, seq![push]);
    assert(pushed.style =~= seq![push]);
    lemma_gutter_ink(gutter, true, pushed);
    let ready = ink_of(pushed, gutter_steps(gutter, true));
    let body = seq![LineStep::Print(text), LineStep::PopStyle, LineStep::Newline];
    assert(body =~= seq![LineStep::Print(text)] + seq![LineStep::PopStyle] + seq![LineStep::Newline]);
    let done = ink_of(ready, body);
    assert(done.cells =~= inked(text, seq![push]));
    assert(ready.gutter =~= gutter_ink(gutter, seq![push]));
    assert(done.saved =~= Seq::<Seq<LineStep>>::empty());
    assert(done.style =~= Seq::<LineStep>::empty());
}

/// A cap's marker stands dim behind the gutter of its rows, and the note on hidden rows dim and
/// as a comment; behind them no style is left.
pub proof fn markers_are_dim(gutter: Option<&GutterSpec>, text: Seq<char>)
    ensures
        ({
            let ink = ink_of(dry(), cap_marker_steps(gutter, text));
            &&& ink.cells == inked(text, seq![LineStep::PushDim])
            &&& ink.gutter == gutter_ink(gutter, seq![LineStep::PushDim])
            &&& ink.style.len() == 0
        }),
        ({
            let ink = ink_of(dry(), ellipsis_steps(text));
            &&& ink.cells == inked(text, seq![LineStep::PushDim, LineStep::PushHl("Comment"@)])
            &&& ink.style.len() == 0
        }),
{
    broadcast use {lemma_ink_concat, lemma_ink_one};

    let dim = LineStep::PushDim;
    lemma_gutter_ink(gutter, false, dry());
    let plain = ink_of(dry(), gutter_steps(gutter, false));
    let pushed = ink_of(plain, seq![dim]);
    assert(pushed.style =~= seq![dim]);
    lemma_gutter_ink(gutter, true, pushed);
    let ready = ink_of(pushed, gutter_steps(gutter, true));
    let body = seq![LineStep::Print(text), LineStep::PopStyle, LineStep::Newline];
    assert(body =~= seq![LineStep::Print(text)] + seq![LineStep::PopStyle] + seq![LineStep::Newline]);
    let done = ink_of(ready, body);
    assert(done.cells =~= inked(text, seq![dim]));
    assert(ready.gutter =~= gutter_ink(gutter, seq![dim]));
    let comment = LineStep::PushHl("Comment"@);
    assert(ellipsis_steps(text) =~= seq![dim] + seq![comment] + body.subrange(0, 2) + seq![
        LineStep::PopStyle,
    ] + seq![LineStep::Newline]);
    assert(body.subrange(0, 2) =~= seq![LineStep::Print(text)] + seq![LineStep::PopStyle]);
    let opened = ink_of(ink_of(dry(), seq![dim]), seq![comment]);
    assert(opened.style =~= seq![dim, comment]);
    assert(ink_of(dry(), ellipsis_steps(text)).cells =~= inked(text, seq![dim, comment]));
    assert(ink_of(dry(), ellipsis_steps(text)).style =~= Seq::<LineStep>::empty());
}

/// A rule is copied as the dashes that it was written with, whatever it looks like.
pub proof fn rule_is_copied_as_dashes(boxed: bool, indent: Seq<char>)
    ensures
        rule_steps(boxed, indent).contains(
            (LineStep::PrintCopyAs { text: "───"@, copy: "---"@ }),
        ),
        drawn_text(rule_steps(boxed, indent)) == (if boxed {
            Seq::empty()
        } else {
            indent
        }) + "───"@,
{
    broadcast use {lemma_drawn_concat, lemma_drawn_one};

    reveal_strlit("───");
    lemma_drawn_none();
    let a = op_if(boxed, LineStep::BoxLeft);
    let b = op_if(!boxed && indent.len() > 0, LineStep::Print(indent));
    let c = LineStep::PrintCopyAs { text: "───"@, copy: "---"@ };
    let steps = rule_steps(boxed, indent);
    assert(steps[(a.len() + b.len() + 1) as int] == c);
    lemma_drawn_if(boxed, LineStep::BoxLeft);
    lemma_drawn_if(!boxed && indent.len() > 0, LineStep::Print(indent));
    lemma_drawn_if(boxed, LineStep::BoxRight { cells: 3 });
    assert(seq![LineStep::PushDim, c, LineStep::PopStyle] =~= seq![LineStep::PushDim] + seq![c]
        + seq![LineStep::PopStyle]);
    assert(drawn_text(steps) =~= (if boxed {
        Seq::empty()
    } else {
        indent
    }) + "───"@);
}

/// Cutting a text gives as many bytes as are asked for.
pub open spec fn cuts_exactly(painting: Painting, text: Seq<char>) -> bool {
    &&& cuts_at_bytes(painting, text)
    &&& forall|a: usize, b: usize|
        a <= b <= text_bytes(text) ==> text_bytes(#[trigger] (painting.slice)(text, a, b)) == b - a
}

/// No more of a text fits, or belongs to a row, than there is.
pub open spec fn fits_within(fit: RowFit) -> bool {
    &&& forall|row: Seq<char>, text: Seq<char>|
        (#[trigger] (fit.boundary)(row, text)) <= text_bytes(text)
    &&& forall|row: Seq<char>, text: Seq<char>, limit: u16|
        (#[trigger] (fit.fitting)(row, text, limit)) <= text_bytes(text)
}

/// What a row is said to hold behind its prefix is what it held before and what is drawn of the
/// prefix.
pub proof fn row_holds_what_is_drawn_of_its_prefix(
    painting: Painting,
    fit: RowFit,
    spans: Seq<StyledSpan>,
    runs: Seq<RunView>,
    i: int,
    row: Seq<char>,
    at_boundary: bool,
    prefix_limit: u16,
    row_limit: u16,
)
    requires
        0 <= i,
        fits_within(fit),
        forall|k: int| 0 <= k < runs.len() ==> cuts_exactly(painting, (#[trigger] runs[k]).text),
        forall|k: int|
            0 <= k < spans.len() ==> !((#[trigger] spans[k]).selectable && spans[k].syntax is Some),
    ensures
        prefix_row(painting, fit, spans, runs, i, row, at_boundary, prefix_limit, row_limit) == row
            + drawn_text(
            prefix_steps(painting, fit, spans, runs, i, row, at_boundary, prefix_limit, row_limit),
        ),
    decreases runs.len() - i,
{
    broadcast use {lemma_drawn_concat, lemma_drawn_one};

    lemma_drawn_none();
    if i >= runs.len() {
        assert(row + Seq::<char>::empty() =~= row);
    } else if runs[i].meta >= spans.len() {
        row_holds_what_is_drawn_of_its_prefix(
            painting,
            fit,
            spans,
            runs,
            i + 1,
            row,
            at_boundary,
            prefix_limit,
            row_limit,
        );
    } else {
        let span = spans[runs[i].meta as int];
        let text = runs[i].text;
        assert(cuts_exactly(painting, text));
        let o = prefix_run(
            painting,
            fit,
            span,
            text,
            row,
            at_boundary,
            prefix_limit,
            row_limit,
        );
        lemma_prefix_run(painting, fit, span, text, row, at_boundary, prefix_limit, row_limit);
        if !o.full {
            row_holds_what_is_drawn_of_its_prefix(
                painting,
                fit,
                spans,
                runs,
                i + 1,
                o.row,
                o.at_boundary,
                prefix_limit,
                row_limit,
            );
            let rest = drawn_text(
                prefix_steps(
                    painting,
                    fit,
                    spans,
                    runs,
                    i + 1,
                    o.row,
                    o.at_boundary,
                    prefix_limit,
                    row_limit,
                ),
            );
            assert(row + drawn_text(o.steps) + rest =~= row + (drawn_text(o.steps) + rest));
        }
    }
}

proof fn lemma_prefix_run(
    painting: Painting,
    fit: RowFit,
    span: StyledSpan,
    text: Seq<char>,
    row: Seq<char>,
    at_boundary: bool,
    prefix_limit: u16,
    row_limit: u16,
)
    requires
        fits_within(fit),
        cuts_exactly(painting, text),
        !(span.selectable && span.syntax is Some),
    ensures
        ({
            let o = prefix_run(
                painting,
                fit,
                span,
                text,
                row,
                at_boundary,
                prefix_limit,
                row_limit,
            );
            o.row == row + drawn_text(o.steps)
        }),
{
    broadcast use {lemma_drawn_concat, lemma_drawn_one};

    lemma_drawn_none();
    let looks = at_boundary && text.len() > 0;
    let head = if looks {
        (fit.boundary)(row, text)
    } else {
        0
    };
    let head_text = (painting.slice)(text, 0, head);
    assert(row + Seq::<char>::empty() =~= row);
    if head > 0 && (fit.fitting)(row, head_text, row_limit) < head {
    } else {
        let row1 = if head > 0 {
            row + head_text
        } else {
            row
        };
        let left = (painting.slice)(text, head, text_bytes(text) as usize);
        let keep = (fit.fitting)(row1, left, prefix_limit);
        let end = (head + keep) as usize;
        assert(text_bytes(left) == text_bytes(text) - head);
        span_part_reads_as_it_is(painting, span, text, None, head, end, None);
        let tail = (painting.slice)(text, head, end);
        if head > 0 {
            span_part_reads_as_it_is(painting, span, text, None, 0, head, None);
            assert(row + head_text + tail =~= row + (head_text + tail));
        } else {
            assert(Seq::<char>::empty() + tail =~= tail);
        }
    }
}

/// Of the fragments of a row behind its prefix the start is drawn: as much as fits. All of it is
/// where all of each fits behind what the row holds.
pub proof fn clipped_row_is_the_start_of_its_fragments(
    painting: Painting,
    fit: RowFit,
    spec: RunsSpec,
    line: int,
    runs: Seq<RunView>,
    row: Seq<Fragment>,
    k: int,
    held: Seq<char>,
    limit: u16,
)
    requires
        0 <= k <= row.len(),
        fits_within(fit),
        forall|j: int|
            0 <= j < row.len() ==> is_part(painting, spec, line, runs, #[trigger] row[j])
                && cuts_exactly(painting, runs[row[j].run_index as int].text),
    ensures
        ({
            let drawn = drawn_text(
                clipped_steps(painting, fit, spec, line, runs, row, k, held, limit),
            );
            let all = row.skip(k).map_values(
                |f: Fragment| fragment_text(painting, runs, f),
            ).flatten();
            &&& drawn.is_prefix_of(all)
            &&& (forall|h: Seq<char>, t: Seq<char>|
                (#[trigger] (fit.fitting)(h, t, limit)) == text_bytes(t)) ==> drawn == all
        }),
    decreases row.len() - k,
{
    broadcast use {lemma_drawn_concat, lemma_drawn_one};

    lemma_drawn_none();
    let text = |f: Fragment| fragment_text(painting, runs, f);
    let all = row.skip(k).map_values(text);
    if k >= row.len() {
        assert(all =~= Seq::<Seq<char>>::empty());
    } else {
        let f = row[k];
        assert(is_part(painting, spec, line, runs, f));
        let run = runs[f.run_index as int];
        let piece = (painting.slice)(run.text, f.start, f.end);
        let keep = (fit.fitting)(held, piece, limit);
        assert(text_bytes(piece) == f.end - f.start);
        let stop = f.start.saturating_add(keep);
        assert(stop == f.start + keep);
        span_part_reads_as_it_is(
            painting,
            spec.lines@[line]@[run.meta as int],
            run.text,
            spec.hl_group,
            f.start,
            stop,
            retained_spans(spec.syntax_highlights, line, run.meta as int),
        );
        let here = (painting.slice)(run.text, f.start, stop);
        assert(here + (painting.slice)(run.text, stop, f.end) == piece);
        let rest = row.skip(k + 1).map_values(text);
        assert(all.drop_first() =~= rest);
        assert(all.first() == piece);
        assert(all.flatten() =~= piece + rest.flatten());
        if keep == text_bytes(piece) {
            clipped_row_is_the_start_of_its_fragments(
                painting,
                fit,
                spec,
                line,
                runs,
                row,
                k + 1,
                held + here,
                limit,
            );
        }
    }
}

} // verus!
