//! What is left in a collector by what is written into it.
use vstd::prelude::*;
use crate::spans::{
    restyled, with_span, written, CollectorView, ColorValue, SpanOp, SpanStyle, SpanView,
    StyleChange,
};

verus! {

/// A character of a row: its style, whether it is selected, and what it is copied as, if not as
/// itself.
pub type SpanCell = (char, SpanStyle, bool, Option<Seq<char>>);

/// The characters of one span.
pub open spec fn cells_of_span(span: SpanView) -> Seq<SpanCell> {
    span.text.map_values(|c: char| (c, span.style, span.selectable, span.copy_as))
}

/// The characters of a row.
pub open spec fn cells_of_row(spans: Seq<SpanView>) -> Seq<SpanCell> {
    spans.map_values(|span: SpanView| cells_of_span(span)).flatten()
}

proof fn lemma_row_push(spans: Seq<SpanView>, span: SpanView)
    ensures
        cells_of_row(spans.push(span)) == cells_of_row(spans) + cells_of_span(span),
{
    let cells = |span: SpanView| cells_of_span(span);
    assert(spans.push(span).map_values(cells) =~= spans.map_values(cells).push(cells(span)));
    spans.map_values(cells).lemma_flatten_push(cells(span));
}

/// Each character that is printed goes behind the row, in the style in force, and is selected
/// and copied as it was asked for; what the row held before stays as it is.
pub proof fn printed_text_keeps_its_style(
    c: CollectorView,
    text: Seq<char>,
    selectable: bool,
    copy_as: Option<Seq<char>>,
)
    ensures
        ({
            let after = written(c, SpanOp::Print { text, selectable, copy_as });
            &&& cells_of_row(after.line.spans) == cells_of_row(c.line.spans) + Seq::new(
                text.len(),
                |i: int| (text[i], c.style, selectable, copy_as),
            )
            &&& after.block == c.block
            &&& after.style == c.style
            &&& after.stack == c.stack
            &&& after.pending_source_text == c.pending_source_text
        }),
{
    let span = SpanView { text, style: c.style, selectable, copy_as };
    let spans = c.line.spans;
    let after = with_span(spans, span);
    let new = Seq::new(text.len(), |i: int| (text[i], c.style, selectable, copy_as));
    assert(cells_of_span(span) =~= new);
    if text.len() == 0 {
        assert(cells_of_row(spans) + new =~= cells_of_row(spans));
    } else if after.len() == spans.len() {
        let rest = spans.drop_last();
        let last = spans.last();
        let joined = SpanView { text: last.text + text, ..span };
        assert(rest.push(last) =~= spans);
        lemma_row_push(rest, last);
        lemma_row_push(rest, joined);
        assert(cells_of_span(joined) =~= cells_of_span(last) + new);
        assert(cells_of_row(rest) + (cells_of_span(last) + new) =~= cells_of_row(rest)
            + cells_of_span(last) + new);
    } else {
        lemma_row_push(spans, span);
    }
}

/// A finished row is the last of the block, and the next one begins with nothing; the block is
/// as wide as its widest row.
pub proof fn finished_row_is_the_last(c: CollectorView)
    ensures
        ({
            let after = written(c, SpanOp::Newline);
            &&& after.block.lines.len() == c.block.lines.len() + 1
            &&& after.block.lines.drop_last() == c.block.lines
            &&& after.block.lines.last().spans == c.line.spans
            &&& after.line.spans.len() == 0
            &&& after.line.source_text is None
            &&& after.cols == 0
            &&& after.block.max_line_width >= c.cols
            &&& after.block.max_line_width >= c.block.max_line_width
            &&& after.block.max_line_width == c.cols || after.block.max_line_width
                == c.block.max_line_width
        }),
{
    let after = written(c, SpanOp::Newline);
    assert(after.block.lines.drop_last() =~= c.block.lines);
}

/// A source that is armed goes with the next row that is finished; the rows behind it go on with
/// it, until it is disarmed.
pub proof fn armed_source_goes_with_the_next_row(c: CollectorView, text: Seq<char>)
    requires
        c.line.source_text is None,
        !c.line.soft_wrapped,
    ensures
        ({
            let armed = written(c, SpanOp::ArmSourceText { text });
            let first = written(armed, SpanOp::Newline);
            let second = written(first, SpanOp::Newline);
            let disarmed = written(first, SpanOp::DisarmSourceText);
            let third = written(disarmed, SpanOp::Newline);
            &&& first.block.lines.last().source_text == Some(text)
            &&& !first.block.lines.last().soft_wrapped
            &&& second.block.lines.last().source_text is None
            &&& second.block.lines.last().soft_wrapped
            &&& third.block.lines.last().source_text is None
            &&& !third.block.lines.last().soft_wrapped
        }),
{
}

/// A change of style changes what it names and leaves the rest.
pub proof fn change_of_style_leaves_the_rest(style: SpanStyle, color: ColorValue)
    ensures
        restyled(style, StyleChange::Fg(color)).fg == Some(color),
        restyled(restyled(style, StyleChange::Fg(color)), StyleChange::Bg(color)) == restyled(
            restyled(style, StyleChange::Bg(color)),
            StyleChange::Fg(color),
        ),
        ({
            let s = restyled(style, StyleChange::Bg(color));
            &&& s.bg == Some(color)
            &&& s.fg == style.fg && s.bold == style.bold && s.dim == style.dim && s.italic
                == style.italic && s.crossedout == style.crossedout
        }),
        ({
            let s = restyled(style, StyleChange::Bold);
            &&& s.bold
            &&& s.fg == style.fg && s.bg == style.bg && s.dim == style.dim && s.italic
                == style.italic && s.crossedout == style.crossedout
        }),
        ({
            let s = restyled(style, StyleChange::Dim);
            &&& s.dim
            &&& s.fg == style.fg && s.bg == style.bg && s.bold == style.bold && s.italic
                == style.italic && s.crossedout == style.crossedout
        }),
        ({
            let s = restyled(style, StyleChange::Italic);
            &&& s.italic
            &&& s.fg == style.fg && s.bg == style.bg && s.bold == style.bold && s.dim == style.dim
                && s.crossedout == style.crossedout
        }),
        restyled(style, StyleChange::DimItalic) == restyled(
            restyled(style, StyleChange::Dim),
            StyleChange::Italic,
        ),
        ({
            let s = restyled(style, StyleChange::CrossedOut);
            &&& s.crossedout
            &&& s.fg == style.fg && s.bg == style.bg && s.bold == style.bold && s.dim == style.dim
                && s.italic == style.italic
        }),
        ({
            let s = restyled(style, StyleChange::Reset);
            s.fg is None && s.bg is None && !s.bold && !s.dim && !s.italic && !s.crossedout
        }),
{
}

} // verus!
