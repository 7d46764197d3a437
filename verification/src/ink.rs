//! Drawing steps carried out: which characters stand on a row, and in which style each of them
//! is.
use vstd::prelude::*;
use crate::drawn_text::{
    cuts_at_bytes, drawn_text, in_order, lemma_drawn_concat, lemma_drawn_none, lemma_drawn_one,
    lemma_empty_cut, lemma_joined, step_text,
};
use crate::ir::GutterSpec;
use crate::leaf_draw::{
    content_row_steps, pieces_steps, row_marks, spanned_steps, styled_part, ContentTextRow, RowSpan,
};
use crate::line_ops::{gutter_steps, op_if, LineStep};
use crate::prompt_style::CellStyle;
use crate::styled_text::Painting;
use crate::text::{text_bytes, texts};

verus! {

/// A character and the steps whose styles it is in.
pub type Inked = (char, Seq<LineStep>);

/// A row while steps are carried out: the styles in force, those to go back to, and what the
/// row and its gutter hold.
pub struct Ink {
    pub style: Seq<LineStep>,
    pub saved: Seq<Seq<LineStep>>,
    pub cells: Seq<Inked>,
    pub gutter: Seq<Inked>,
}

/// A text in one style.
pub open spec fn inked(text: Seq<char>, style: Seq<LineStep>) -> Seq<Inked> {
    text.map_values(|c: char| (c, style))
}

/// A row that holds nothing, with no style in force.
pub open spec fn dry() -> Ink {
    Ink { style: Seq::empty(), saved: Seq::empty(), cells: Seq::empty(), gutter: Seq::empty() }
}

/// A row after one more step.
pub open spec fn ink_step(ink: Ink, step: LineStep) -> Ink {
    match step {
        LineStep::PushStyle(_) | LineStep::PushHl(_) | LineStep::PushDim => Ink {
            style: ink.style.push(step),
            saved: ink.saved.push(ink.style),
            ..ink
        },
        LineStep::SaveStyle => Ink { saved: ink.saved.push(ink.style), ..ink },
        LineStep::PopStyle => Ink {
            style: ink.saved.last(),
            saved: ink.saved.drop_last(),
            ..ink
        },
        LineStep::SetHl(_) | LineStep::SetFg(_) | LineStep::SetBg(_) | LineStep::SetDim
        | LineStep::SetBold | LineStep::SetItalic => Ink { style: ink.style.push(step), ..ink },
        LineStep::ResetStyle => Ink { style: Seq::empty(), ..ink },
        LineStep::Gutter(text) => Ink { gutter: ink.gutter + inked(text, ink.style), ..ink },
        _ => Ink { cells: ink.cells + inked(step_text(step), ink.style), ..ink },
    }
}

/// A row after some steps.
pub open spec fn ink_of(from: Ink, steps: Seq<LineStep>) -> Ink
    decreases steps.len(),
{
    if steps.len() == 0 {
        from
    } else {
        ink_step(ink_of(from, steps.drop_last()), steps.last())
    }
}

pub(crate) broadcast proof fn lemma_ink_concat(from: Ink, a: Seq<LineStep>, b: Seq<LineStep>)
    ensures
        #[trigger] ink_of(from, a + b) == ink_of(ink_of(from, a), b),
    decreases b.len(),
{
    if b.len() == 0 {
        assert(a + b =~= a);
    } else {
        lemma_ink_concat(from, a, b.drop_last());
        assert((a + b).drop_last() =~= a + b.drop_last());
    }
}

pub(crate) broadcast proof fn lemma_ink_one(from: Ink, step: LineStep)
    ensures
        #[trigger] ink_of(from, seq![step]) == ink_step(from, step),
{
    assert(seq![step].drop_last() =~= Seq::<LineStep>::empty());
    assert(ink_of(from, seq![step].drop_last()) == from);
}

/// What a row says in the end is what its steps print.
pub proof fn inked_cells_are_what_is_printed(from: Ink, steps: Seq<LineStep>)
    ensures
        ink_of(from, steps).cells.map_values(|c: Inked| c.0) == from.cells.map_values(
            |c: Inked| c.0,
        ) + drawn_text(steps),
    decreases steps.len(),
{
    broadcast use {lemma_drawn_concat, lemma_drawn_one};

    lemma_drawn_none();
    let glyph = |c: Inked| c.0;
    if steps.len() > 0 {
        let rest = steps.drop_last();
        let last = steps.last();
        inked_cells_are_what_is_printed(from, rest);
        assert(steps =~= rest + seq![last]);
        let before = ink_of(from, rest);
        let text = step_text(last);
        assert(inked(text, before.style).map_values(glyph) =~= text);
        assert((before.cells + inked(text, before.style)).map_values(glyph)
            =~= before.cells.map_values(glyph) + text);
        assert(before.cells.map_values(glyph) + Seq::<char>::empty() =~= before.cells.map_values(
            glyph,
        ));
        assert(from.cells.map_values(glyph) + drawn_text(rest) + text =~= from.cells.map_values(
            glyph,
        ) + (drawn_text(rest) + text));
    } else {
        assert(from.cells.map_values(glyph) + drawn_text(steps) =~= from.cells.map_values(glyph));
    }
}

/// The characters of a text before one of its bytes.
pub open spec fn chars_before(painting: Painting, text: Seq<char>, byte: usize) -> int {
    (painting.slice)(text, 0, byte).len() as int
}

proof fn lemma_chars_before(painting: Painting, text: Seq<char>, a: usize, b: usize)
    requires
        cuts_at_bytes(painting, text),
        a <= b <= text_bytes(text),
    ensures
        chars_before(painting, text, b) == chars_before(painting, text, a) + (painting.slice)(
            text,
            a,
            b,
        ).len(),
{
    assert((painting.slice)(text, 0, a) + (painting.slice)(text, a, b) == (painting.slice)(
        text,
        0,
        b,
    ));
}

/// Whether character `k` of a text is in a span of its bytes.
pub open spec fn in_span(painting: Painting, text: Seq<char>, span: RowSpan, k: int) -> bool {
    chars_before(painting, text, span.start) <= k < chars_before(painting, text, span.end)
}

/// The steps whose styles a character of a span is in, on a row in `base`.
pub open spec fn span_ink(base: Seq<LineStep>, style: CellStyle) -> Seq<LineStep> {
    if style.fg is None && style.bg is None && !style.bold && !style.dim && !style.italic {
        base
    } else {
        base.push(LineStep::PushStyle(style))
    }
}

/// The cells from `first` on are in the styles that the spans from `i` on give them.
spec fn spans_inked(
    painting: Painting,
    text: Seq<char>,
    spans: Seq<RowSpan>,
    i: int,
    base: Seq<LineStep>,
    cells: Seq<Inked>,
    first: int,
) -> bool {
    forall|k: int|
        first <= k < cells.len() ==> {
            &&& (forall|j: int|
                i <= j < spans.len() ==> !in_span(painting, text, #[trigger] spans[j], k)) ==> (
            #[trigger] cells[k]).1 == base
            &&& forall|j: int|
                i <= j < spans.len() && in_span(painting, text, #[trigger] spans[j], k)
                    ==> cells[k].1 == span_ink(base, spans[j].style)
        }
}

proof fn lemma_spanned_ink(
    painting: Painting,
    text: Seq<char>,
    spans: Seq<RowSpan>,
    i: int,
    cursor: usize,
    from: Ink,
)
    requires
        cuts_at_bytes(painting, text),
        in_order(spans, text),
        0 <= i <= spans.len(),
        cursor <= text_bytes(text),
        i < spans.len() ==> cursor <= spans[i].start,
        from.cells.len() == chars_before(painting, text, cursor),
    ensures
        ({
            let to = ink_of(from, spanned_steps(painting, text, spans, i, cursor));
            &&& to.style == from.style
            &&& to.saved == from.saved
            &&& to.gutter == from.gutter
            &&& to.cells.len() == chars_before(painting, text, text_bytes(text) as usize)
            &&& to.cells.take(from.cells.len() as int) == from.cells
            &&& spans_inked(
                painting,
                text,
                spans,
                i,
                from.style,
                to.cells,
                from.cells.len() as int,
            )
        }),
    decreases spans.len() - i,
{
    broadcast use {lemma_ink_concat, lemma_ink_one};

    let len = text_bytes(text) as usize;
    let to = ink_of(from, spanned_steps(painting, text, spans, i, cursor));
    let n = from.cells.len() as int;
    if i >= spans.len() {
        lemma_chars_before(painting, text, cursor, len);
        let rest = (painting.slice)(text, cursor, len);
        lemma_empty_cut(painting, text, len);
        assert(to.cells =~= from.cells + inked(rest, from.style));
        assert(to.cells.take(n) =~= from.cells);
    } else {
        let span = spans[i];
        assert(span.start <= span.end <= len);
        let gap = (painting.slice)(text, cursor, span.start);
        let part = (painting.slice)(text, span.start, span.end);
        lemma_empty_cut(painting, text, cursor);
        lemma_chars_before(painting, text, cursor, span.start);
        lemma_chars_before(painting, text, span.start, span.end);
        lemma_chars_before(painting, text, span.end, len);
        let mid = Ink { cells: from.cells + inked(gap, from.style), ..from };
        let gap_steps = op_if(cursor < span.start, LineStep::Print(gap));
        assert(ink_of(from, gap_steps).cells =~= mid.cells);
        assert(ink_of(from, gap_steps) == mid);
        let own = span_ink(from.style, span.style);
        let next = Ink { cells: mid.cells + inked(part, own), ..from };
        let push = LineStep::PushStyle(span.style);
        let framed = seq![push, LineStep::Print(part), LineStep::PopStyle];
        assert(framed =~= seq![push] + seq![LineStep::Print(part)] + seq![LineStep::PopStyle]);
        assert(from.saved.push(from.style).drop_last() =~= from.saved);
        assert(ink_of(mid, styled_part(span.style, part)) == next);
        if i + 1 < spans.len() {
            assert(spans[i].end <= spans[i + 1].start);
        }
        lemma_spanned_ink(painting, text, spans, i + 1, span.end, next);
        assert(to == ink_of(next, spanned_steps(painting, text, spans, i + 1, span.end)));
        let m = next.cells.len() as int;
        assert(to.cells.take(n) =~= to.cells.take(m).take(n));
        assert(next.cells.take(n) =~= from.cells);
        assert forall|k: int| n <= k < to.cells.len() implies {
            &&& (forall|j: int|
                i <= j < spans.len() ==> !in_span(painting, text, #[trigger] spans[j], k)) ==> (
            #[trigger] to.cells[k]).1 == from.style
            &&& forall|j: int|
                i <= j < spans.len() && in_span(painting, text, #[trigger] spans[j], k)
                    ==> to.cells[k].1 == span_ink(from.style, spans[j].style)
        } by {
            if k < m {
                assert(to.cells[k] == to.cells.take(m)[k]);
                assert(to.cells[k] == next.cells[k]);
                assert forall|j: int| i + 1 <= j < spans.len() implies !in_span(
                    painting,
                    text,
                    #[trigger] spans[j],
                    k,
                ) by {
                    assert(spans[i].end <= spans[j].start);
                    assert(spans[j].start <= spans[j].end);
                    lemma_chars_before(painting, text, spans[i].end, spans[j].start);
                }
                assert(in_span(painting, text, spans[i], k) <==> k >= mid.cells.len());
            } else {
                assert(!in_span(painting, text, spans[i], k));
            }
        }
    }
}

/// A character of a row of a retained text is in the style of the span of escape codes that it
/// is in, on top of the style of the text, and else in that style alone. Without escape codes
/// all of them are. The gutter is in the style of the text only where it asks for it.
pub proof fn content_row_is_in_its_styles(
    painting: Painting,
    row: ContentTextRow,
    hl_group: Option<String>,
    ansi: bool,
    gutter: Option<&GutterSpec>,
)
    requires
        ansi ==> cuts_at_bytes(painting, texts(row.pieces@).flatten()),
        ansi ==> in_order(row.spans@, texts(row.pieces@).flatten()),
    ensures
        ({
            let text = texts(row.pieces@).flatten();
            let ink = ink_of(dry(), content_row_steps(painting, row, hl_group, ansi, gutter));
            let base = seq![
                match hl_group {
                    Some(name) => LineStep::PushHl(name@),
                    None => LineStep::PushDim,
                },
            ];
            &&& forall|k: int|
                0 <= k < ink.cells.len() ==> {
                    &&& (!ansi || forall|j: int|
                        0 <= j < row.spans@.len() ==> !in_span(
                            painting,
                            text,
                            #[trigger] row.spans@[j],
                            k,
                        )) ==> (#[trigger] ink.cells[k]).1 == base
                    &&& forall|j: int|
                        ansi && 0 <= j < row.spans@.len() && in_span(
                            painting,
                            text,
                            #[trigger] row.spans@[j],
                            k,
                        ) ==> ink.cells[k].1 == span_ink(base, row.spans@[j].style)
                }
            &&& ink.gutter == match gutter {
                Some(gutter) => inked(
                    gutter.text@,
                    if gutter.styled {
                        base
                    } else {
                        Seq::empty()
                    },
                ),
                None => Seq::empty(),
            }
        }),
{
    broadcast use {lemma_ink_concat, lemma_ink_one};

    let text = texts(row.pieces@).flatten();
    lemma_joined(texts(row.pieces@));
    let open = match hl_group {
        Some(name) => LineStep::PushHl(name@),
        None => LineStep::PushDim,
    };
    let base = seq![open];
    let marked = ink_of(dry(), row_marks(row));
    assert(marked.cells =~= Seq::<Inked>::empty());
    assert(marked == dry());
    let a = ink_of(marked, gutter_steps(gutter, false));
    let b = ink_of(a, seq![open]);
    assert(b.style =~= base);
    let c = ink_of(b, gutter_steps(gutter, true));
    let gutter_cells = match gutter {
        Some(gutter) => inked(
            gutter.text@,
            if gutter.styled {
                base
            } else {
                Seq::empty()
            },
        ),
        None => Seq::empty(),
    };
    assert(c.gutter =~= gutter_cells);
    assert(c.cells =~= Seq::<Inked>::empty());
    let body = crate::leaf_draw::row_body_steps(painting, row, ansi);
    let d = ink_of(c, body);
    if ansi && row.spans@.len() > 0 {
        lemma_empty_cut(painting, text, 0);
        lemma_spanned_ink(painting, text, row.spans@, 0, 0, c);
    } else {
        lemma_pieces_ink(texts(row.pieces@), c);
    }
    let close = seq![LineStep::PopStyle, LineStep::Newline];
    assert(close =~= seq![LineStep::PopStyle] + seq![LineStep::Newline]);
    let e = ink_of(d, close);
    assert(e.cells =~= d.cells);
    assert(e == ink_of(dry(), content_row_steps(painting, row, hl_group, ansi, gutter)));
}

proof fn lemma_pieces_ink(pieces: Seq<Seq<char>>, from: Ink)
    ensures
        ({
            let to = ink_of(from, pieces_steps(pieces));
            &&& to.style == from.style
            &&& to.saved == from.saved
            &&& to.gutter == from.gutter
            &&& to.cells.len() >= from.cells.len()
            &&& forall|k: int|
                from.cells.len() <= k < to.cells.len() ==> (#[trigger] to.cells[k]).1
                    == from.style
        }),
    decreases pieces.len(),
{
    if pieces.len() > 0 {
        lemma_pieces_ink(pieces.drop_last(), from);
        assert(pieces_steps(pieces).drop_last() =~= pieces_steps(pieces.drop_last()));
        assert(pieces_steps(pieces).last() == LineStep::Print(pieces.last()));
    }
}

} // verus!
