//! What drawing steps leave on a row: its characters, and the styles that they are in.
use vstd::prelude::*;
use crate::ir::{GutterSpec, InlineSyntaxSpan, StyledSpan};
use crate::leaf_draw::{
    content_row_steps, joined, pieces_steps, plain_row_steps, row_body_steps, spanned_steps,
    styled_part, ContentTextRow, RowSpan,
};
use crate::leaf_text::markdown_text_steps;
use crate::line_ops::{gutter_steps, op_if, LineStep};
use crate::styled_text::{clipped, range_steps, span_text_steps, syntax_steps, Painting};
use crate::text::{text_bytes, texts};

verus! {

/// What a step puts on the row, apart from its gutter.
pub open spec fn step_text(step: LineStep) -> Seq<char> {
    match step {
        LineStep::Print(text) => text,
        LineStep::PrintMeta { text, .. } => text,
        LineStep::PrintCopyAs { text, .. } => text,
        _ => Seq::empty(),
    }
}

/// What some steps put on the row, apart from its gutter.
pub open spec fn drawn_text(steps: Seq<LineStep>) -> Seq<char> {
    steps.map_values(|step: LineStep| step_text(step)).flatten()
}

pub(crate) broadcast proof fn lemma_drawn_concat(a: Seq<LineStep>, b: Seq<LineStep>)
    ensures
        #[trigger] drawn_text(a + b) == drawn_text(a) + drawn_text(b),
    decreases b.len(),
{
    let text = |step: LineStep| step_text(step);
    if b.len() == 0 {
        assert(a + b =~= a);
        assert(b.map_values(text) =~= Seq::<Seq<char>>::empty());
        assert(drawn_text(a) + drawn_text(b) =~= drawn_text(a));
    } else {
        let rest = b.drop_last();
        lemma_drawn_concat(a, rest);
        assert((a + b).map_values(text) =~= (a + rest).map_values(text).push(text(b.last())));
        (a + rest).map_values(text).lemma_flatten_push(text(b.last()));
        assert(b.map_values(text) =~= rest.map_values(text).push(text(b.last())));
        rest.map_values(text).lemma_flatten_push(text(b.last()));
        assert(drawn_text(a) + (drawn_text(rest) + text(b.last())) =~= drawn_text(a) + drawn_text(
            rest,
        ) + text(b.last()));
    }
}

pub(crate) broadcast proof fn lemma_drawn_one(step: LineStep)
    ensures
        #[trigger] drawn_text(seq![step]) == step_text(step),
{
    let text = |step: LineStep| step_text(step);
    let none = Seq::<Seq<char>>::empty();
    assert(seq![step].map_values(text) =~= none.push(text(step)));
    none.lemma_flatten_push(text(step));
    assert(none.flatten() + text(step) =~= text(step));
}

pub(crate) proof fn lemma_drawn_none()
    ensures
        drawn_text(Seq::<LineStep>::empty()) == Seq::<char>::empty(),
{
    let text = |step: LineStep| step_text(step);
    assert(Seq::<LineStep>::empty().map_values(text) =~= Seq::<Seq<char>>::empty());
}

pub(crate) proof fn lemma_drawn_if(wanted: bool, step: LineStep)
    ensures
        drawn_text(op_if(wanted, step)) == if wanted {
            step_text(step)
        } else {
            Seq::empty()
        },
{
    lemma_drawn_one(step);
    lemma_drawn_none();
}

pub(crate) proof fn lemma_drawn_gutter(gutter: Option<&GutterSpec>, styled: bool)
    ensures
        drawn_text(gutter_steps(gutter, styled)) == Seq::<char>::empty(),
{
    lemma_drawn_none();
    if let Some(gutter) = gutter {
        lemma_drawn_if(gutter.styled == styled, LineStep::Gutter(gutter.text@));
    }
}

/// Cutting a text at some bytes gives parts that are the text again, one behind the other.
pub open spec fn cuts_at_bytes(painting: Painting, text: Seq<char>) -> bool {
    &&& (painting.slice)(text, 0, text_bytes(text) as usize) == text
    &&& text_bytes(text) <= usize::MAX
    &&& forall|a: usize, b: usize, c: usize|
        a <= b <= c <= text_bytes(text) ==> (#[trigger] (painting.slice)(text, a, b)) + (
        #[trigger] (painting.slice)(text, b, c)) == (painting.slice)(text, a, c)
}

pub(crate) proof fn lemma_empty_cut(painting: Painting, text: Seq<char>, a: usize)
    requires
        cuts_at_bytes(painting, text),
        a <= text_bytes(text),
    ensures
        (painting.slice)(text, a, a) == Seq::<char>::empty(),
{
    let s = (painting.slice)(text, a, a);
    assert(s + s == s);
    assert(s.len() + s.len() == s.len());
    assert(s =~= Seq::<char>::empty());
}

/// A row of a retained text reads as its pieces do, one behind the other, whatever styles its
/// escape codes give it: where these come in order, apart from each other and within the row,
/// every character is printed once and in its place.
pub proof fn content_row_reads_as_its_pieces(
    painting: Painting,
    row: ContentTextRow,
    hl_group: Option<String>,
    ansi: bool,
    gutter: Option<&GutterSpec>,
)
    requires
        ansi ==> cuts_at_bytes(painting, texts(row.pieces@).flatten()),
        ansi ==> in_order(row.spans@, texts(row.pieces@).flatten()),
    ensures
        drawn_text(content_row_steps(painting, row, hl_group, ansi, gutter)) == texts(
            row.pieces@,
        ).flatten(),
{
    broadcast use {lemma_drawn_concat, lemma_drawn_one};

    lemma_drawn_none();
    let text = texts(row.pieces@).flatten();
    lemma_joined(texts(row.pieces@));
    lemma_drawn_gutter(gutter, false);
    lemma_drawn_gutter(gutter, true);
    lemma_drawn_if(row.wrapped, LineStep::MarkWrapped);
    lemma_drawn_if(row.continuation, LineStep::Row { continuation: true });
    let close = seq![LineStep::PopStyle, LineStep::Newline];
    assert(close =~= seq![LineStep::PopStyle] + seq![LineStep::Newline]);
    assert(drawn_text(close) =~= Seq::<char>::empty());
    if ansi && row.spans@.len() > 0 {
        lemma_spanned_text(painting, text, row.spans@, 0, 0);
    } else {
        let pieces = texts(row.pieces@);
        assert(pieces_steps(pieces).map_values(|step: LineStep| step_text(step)) =~= pieces);
    }
    let drawn = drawn_text(content_row_steps(painting, row, hl_group, ansi, gutter));
    assert(drawn =~= drawn_text(row_body_steps(painting, row, ansi)));
}

/// The spans of a row come in order, apart from each other and within its text.
pub open spec fn in_order(spans: Seq<RowSpan>, text: Seq<char>) -> bool {
    &&& forall|i: int|
        0 <= i < spans.len() ==> (#[trigger] spans[i]).start <= spans[i].end <= text_bytes(text)
    &&& forall|i: int, j: int|
        0 <= i < j < spans.len() ==> (#[trigger] spans[i]).end <= (#[trigger] spans[j]).start
}

pub(crate) proof fn lemma_joined(pieces: Seq<Seq<char>>)
    ensures
        joined(pieces) == pieces.flatten(),
    decreases pieces.len(),
{
    if pieces.len() == 0 {
        assert(joined(pieces) =~= pieces.flatten());
    } else {
        lemma_joined(pieces.drop_last());
        assert(pieces =~= pieces.drop_last().push(pieces.last()));
        pieces.drop_last().lemma_flatten_push(pieces.last());
    }
}

proof fn lemma_spanned_text(
    painting: Painting,
    text: Seq<char>,
    spans: Seq<RowSpan>,
    i: int,
    cursor: usize,
)
    requires
        cuts_at_bytes(painting, text),
        in_order(spans, text),
        0 <= i <= spans.len(),
        cursor <= text_bytes(text),
        i < spans.len() ==> cursor <= spans[i].start,
    ensures
        drawn_text(spanned_steps(painting, text, spans, i, cursor)) == (painting.slice)(
            text,
            cursor,
            text_bytes(text) as usize,
        ),
    decreases spans.len() - i,
{
    broadcast use {lemma_drawn_concat, lemma_drawn_one};

    lemma_drawn_none();
    let len = text_bytes(text) as usize;
    if i >= spans.len() {
        lemma_drawn_if(cursor < len, LineStep::Print((painting.slice)(text, cursor, len)));
        lemma_empty_cut(painting, text, len);
    } else {
        let span = spans[i];
        let gap = (painting.slice)(text, cursor, span.start);
        let part = (painting.slice)(text, span.start, span.end);
        assert(span.start <= span.end <= len);
        lemma_drawn_if(cursor < span.start, LineStep::Print(gap));
        lemma_empty_cut(painting, text, cursor);
        let styled = styled_part(span.style, part);
        let framed = seq![
            LineStep::PushStyle(span.style),
            LineStep::Print(part),
            LineStep::PopStyle,
        ];
        assert(framed =~= seq![LineStep::PushStyle(span.style)] + seq![LineStep::Print(part)]
            + seq![LineStep::PopStyle]);
        assert(drawn_text(framed) =~= part);
        assert(drawn_text(styled) == part);
        if i + 1 < spans.len() {
            assert(spans[i].end <= spans[i + 1].start);
        }
        lemma_spanned_text(painting, text, spans, i + 1, span.end);
        let rest = (painting.slice)(text, span.end, len);
        assert(gap + part == (painting.slice)(text, cursor, span.end));
        assert((painting.slice)(text, cursor, span.end) + rest == (painting.slice)(
            text,
            cursor,
            len,
        ));
    }
}

/// A row of retained markdown that reads as plain text reads as its pieces do.
pub proof fn plain_content_row_reads_as_its_pieces(
    row: ContentTextRow,
    dim: bool,
    italic: bool,
    gutter: Option<&GutterSpec>,
)
    ensures
        drawn_text(plain_row_steps(row, dim, italic, gutter)) == texts(row.pieces@).flatten(),
{
    broadcast use {lemma_drawn_concat, lemma_drawn_one};

    lemma_drawn_none();
    lemma_joined(texts(row.pieces@));
    lemma_drawn_if(row.wrapped, LineStep::MarkWrapped);
    lemma_drawn_if(row.continuation, LineStep::Row { continuation: true });
    plain_markdown_reads_as_its_text(dim, italic, gutter, joined(texts(row.pieces@)));
    assert(drawn_text(plain_row_steps(row, dim, italic, gutter)) =~= joined(texts(row.pieces@)));
}

/// A row of plain markdown reads as its text.
pub proof fn plain_markdown_reads_as_its_text(
    dim: bool,
    italic: bool,
    gutter: Option<&GutterSpec>,
    text: Seq<char>,
)
    ensures
        drawn_text(markdown_text_steps(dim, italic, gutter, text)) == text,
{
    broadcast use {lemma_drawn_concat, lemma_drawn_one};

    lemma_drawn_none();
    lemma_drawn_gutter(gutter, false);
    lemma_drawn_gutter(gutter, true);
    lemma_drawn_if(dim, LineStep::PushDim);
    lemma_drawn_if(italic, LineStep::SaveStyle);
    lemma_drawn_if(italic, LineStep::SetItalic);
    lemma_drawn_if(italic, LineStep::PopStyle);
    lemma_drawn_if(dim, LineStep::PopStyle);
    assert(drawn_text(markdown_text_steps(dim, italic, gutter, text)) =~= text);
}

/// The highlights of a text come in order and apart from each other.
pub open spec fn highlights_in_order(highlights: Seq<InlineSyntaxSpan>) -> bool {
    &&& forall|i: int|
        0 <= i < highlights.len() ==> (#[trigger] highlights[i]).byte_start
            <= highlights[i].byte_end
    &&& forall|i: int, j: int|
        0 <= i < j < highlights.len() ==> (#[trigger] highlights[i]).byte_end <= (
        #[trigger] highlights[j]).byte_start
}

/// A part of a span's text reads as that part, whatever highlights it has: where these come in
/// order and apart from each other, every character is printed once and in its place.
pub proof fn span_part_reads_as_it_is(
    painting: Painting,
    span: StyledSpan,
    text: Seq<char>,
    default_hl: Option<String>,
    start: usize,
    end: usize,
    highlights: Option<Seq<InlineSyntaxSpan>>,
)
    requires
        cuts_at_bytes(painting, text),
        start <= end <= text_bytes(text),
        highlights is Some ==> highlights_in_order(highlights->0),
        span.selectable && span.syntax is Some ==> highlights is Some,
    ensures
        drawn_text(range_steps(painting, span, text, default_hl, start, end, highlights))
            == (painting.slice)(text, start, end),
{
    broadcast use {lemma_drawn_concat, lemma_drawn_one};

    lemma_drawn_none();
    let hl = if span.hl is Some {
        span.hl
    } else {
        default_hl
    };
    let fg = crate::styled_text::named_color(painting.fg, span.fg);
    let bg = crate::styled_text::named_color(painting.bg, span.bg);
    lemma_drawn_if(hl is Some, LineStep::SetHl(hl->0@));
    lemma_drawn_if(fg is Some, LineStep::SetFg(fg->0));
    lemma_drawn_if(bg is Some, LineStep::SetBg(bg->0));
    lemma_drawn_if(span.dim, LineStep::SetDim);
    lemma_drawn_if(span.bold, LineStep::SetBold);
    lemma_drawn_if(span.italic, LineStep::SetItalic);
    if let Some(highlights) = highlights {
        lemma_syntax_text(painting, text, start, end, highlights, 0, start);
    }
    let body = span_text_steps(painting, span, text, start, end, highlights);
    assert(drawn_text(body) == (painting.slice)(text, start, end));
    assert(drawn_text(range_steps(painting, span, text, default_hl, start, end, highlights))
        =~= (painting.slice)(text, start, end));
}

proof fn lemma_syntax_text(
    painting: Painting,
    text: Seq<char>,
    start: usize,
    end: usize,
    highlights: Seq<InlineSyntaxSpan>,
    i: int,
    cursor: usize,
)
    requires
        cuts_at_bytes(painting, text),
        start <= cursor <= end <= text_bytes(text),
        highlights_in_order(highlights),
        0 <= i <= highlights.len(),
        forall|j: int|
            i <= j < highlights.len() ==> cursor <= start || cursor <= (
            #[trigger] highlights[j]).byte_start,
    ensures
        drawn_text(syntax_steps(painting, text, start, end, highlights, i, cursor))
            == (painting.slice)(text, cursor, end),
    decreases highlights.len() - i,
{
    broadcast use {lemma_drawn_concat, lemma_drawn_one};

    lemma_drawn_none();
    if i >= highlights.len() {
        lemma_drawn_if(cursor < end, LineStep::Print((painting.slice)(text, cursor, end)));
        lemma_empty_cut(painting, text, end);
    } else {
        let h = highlights[i];
        let (from, to) = clipped(h, start, end);
        if from >= to {
            lemma_syntax_text(painting, text, start, end, highlights, i + 1, cursor);
        } else {
            let gap = (painting.slice)(text, cursor, from);
            let part = (painting.slice)(text, from, to);
            let rest = (painting.slice)(text, to, end);
            let color = LineStep::SetFg(
                crate::paint::Color::Rgb { r: h.red, g: h.green, b: h.blue },
            );
            let framed = seq![
                LineStep::SaveStyle,
                color,
                LineStep::Print(part),
                LineStep::PopStyle,
            ];
            assert(framed =~= seq![LineStep::SaveStyle] + seq![color] + seq![LineStep::Print(part)]
                + seq![LineStep::PopStyle]);
            assert(drawn_text(framed) =~= part);
            lemma_drawn_if(cursor < from, LineStep::Print(gap));
            lemma_empty_cut(painting, text, cursor);
            assert forall|j: int| i + 1 <= j < highlights.len() implies to <= start || to <= (
            #[trigger] highlights[j]).byte_start by {
                assert(highlights[i].byte_end <= highlights[j].byte_start);
            }
            lemma_syntax_text(painting, text, start, end, highlights, i + 1, to);
            assert(gap + part == (painting.slice)(text, cursor, to));
            assert((painting.slice)(text, cursor, to) + rest == (painting.slice)(
                text,
                cursor,
                end,
            ));
        }
    }
}

} // verus!
