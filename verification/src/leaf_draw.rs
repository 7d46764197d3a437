//! How rows of retained texts are drawn.
use vstd::prelude::*;
use crate::ir::GutterSpec;
use crate::leaf_text::{emit_plain_markdown_slice, markdown_text_steps, text_style_step};
use crate::line_ops::{
    add_gutter, add_op, add_op_if, gutter_steps, lemma_behind, op_if, steps, LineOp, LineStep,
};
use crate::paint::Color;
use crate::prompt_style::{plain_cell, plain_cell_style, CellStyle};
use crate::styled_text::{Painting, SpanPainter};
use crate::text::{byte_len, text_bytes, texts};

verus! {

/// The bytes `start .. end` of a row in one style.
#[derive(Clone, Copy, Debug, PartialEq, Eq, Structural)]
pub struct RowSpan {
    pub start: usize,
    pub end: usize,
    pub style: CellStyle,
}

/// A row of a retained text as it is laid out.
#[derive(Debug)]
pub struct ContentTextRow {
    /// Whether its line takes more than one row.
    pub wrapped: bool,
    /// Whether it is not the first row of its line.
    pub continuation: bool,
    /// Its text, piece by piece.
    pub pieces: Vec<String>,
    /// What its escape codes give it.
    pub spans: Vec<RowSpan>,
}

/// Some texts, one behind the other.
pub open spec fn joined(pieces: Seq<Seq<char>>) -> Seq<char>
    decreases pieces.len(),
{
    if pieces.len() == 0 {
        Seq::empty()
    } else {
        joined(pieces.drop_last()) + pieces.last()
    }
}

/// What the first `n` pieces of a row are drawn with.
pub open spec fn pieces_steps(pieces: Seq<Seq<char>>) -> Seq<LineStep> {
    pieces.map_values(|piece: Seq<char>| LineStep::Print(piece))
}

/// A part of a row in a style; a plain one needs none.
pub open spec fn styled_part(style: CellStyle, text: Seq<char>) -> Seq<LineStep> {
    if style == plain_cell() {
        seq![LineStep::Print(text)]
    } else {
        seq![LineStep::PushStyle(style), LineStep::Print(text), LineStep::PopStyle]
    }
}

/// What a row is drawn with from byte `cursor` on, with the spans from `i` on.
pub open spec fn spanned_steps(
    painting: Painting,
    text: Seq<char>,
    spans: Seq<RowSpan>,
    i: int,
    cursor: usize,
) -> Seq<LineStep>
    decreases spans.len() - i,
{
    if i >= spans.len() {
        op_if(
            cursor < text_bytes(text),
            LineStep::Print((painting.slice)(text, cursor, text_bytes(text) as usize)),
        )
    } else {
        let span = spans[i];
        op_if(
            cursor < span.start,
            LineStep::Print((painting.slice)(text, cursor, span.start)),
        ) + styled_part(span.style, (painting.slice)(text, span.start, span.end)) + spanned_steps(
            painting,
            text,
            spans,
            i + 1,
            span.end,
        )
    }
}

/// The text of a row in the style in force: with what its escape codes give it, where these
/// count and give it anything.
pub open spec fn row_body_steps(painting: Painting, row: ContentTextRow, ansi: bool) -> Seq<
    LineStep,
> {
    if ansi && row.spans@.len() > 0 {
        spanned_steps(painting, joined(texts(row.pieces@)), row.spans@, 0, 0)
    } else {
        pieces_steps(texts(row.pieces@))
    }
}

/// What opens a row: whether lines are wrapped, and whether it goes on with one.
pub open spec fn row_marks(row: ContentTextRow) -> Seq<LineStep> {
    op_if(row.wrapped, LineStep::MarkWrapped) + op_if(
        row.continuation,
        LineStep::Row { continuation: true },
    )
}

/// What a row of a retained text is drawn with.
pub open spec fn content_row_steps(
    painting: Painting,
    row: ContentTextRow,
    hl_group: Option<String>,
    ansi: bool,
    gutter: Option<&GutterSpec>,
) -> Seq<LineStep> {
    row_marks(row) + gutter_steps(gutter, false) + seq![text_style_step(hl_group)] + gutter_steps(
        gutter,
        true,
    ) + row_body_steps(painting, row, ansi) + seq![LineStep::PopStyle, LineStep::Newline]
}

fn join_pieces(pieces: &Vec<String>) -> (text: String)
    ensures
        text@ == joined(texts(pieces@)),
{
    let ghost all = texts(pieces@);
    let mut text = String::new();
    let mut i: usize = 0;
    proof {
        assert(all.take(0) =~= Seq::<Seq<char>>::empty());
        assert(text@ =~= joined(all.take(0)));
    }
    while i < pieces.len()
        invariant
            i <= pieces@.len(),
            all == texts(pieces@),
            text@ == joined(all.take(i as int)),
        decreases pieces@.len() - i,
    {
        proof {
            assert(all.take(i + 1).drop_last() =~= all.take(i as int));
            assert(all.take(i + 1).last() == pieces@[i as int]@);
        }
        text.append(pieces[i].as_str());
        i += 1;
    }
    proof {
        assert(all.take(i as int) =~= all);
    }
    text
}

fn add_pieces(ops: &mut Vec<LineOp>, pieces: &Vec<String>)
    ensures
        steps(final(ops)@) == steps(old(ops)@) + pieces_steps(texts(pieces@)),
{
    let ghost before = steps(ops@);
    let ghost all = texts(pieces@);
    let mut i: usize = 0;
    proof {
        assert(before + pieces_steps(all.take(0)) =~= before);
    }
    while i < pieces.len()
        invariant
            i <= pieces@.len(),
            all == texts(pieces@),
            steps(ops@) == before + pieces_steps(all.take(i as int)),
        decreases pieces@.len() - i,
    {
        add_op(ops, LineOp::Print(pieces[i].clone()));
        proof {
            assert(pieces_steps(all.take(i + 1)) =~= pieces_steps(all.take(i as int)) + seq![
                LineStep::Print(all[i as int]),
            ]);
            lemma_behind(
                before,
                pieces_steps(all.take(i as int)),
                seq![LineStep::Print(all[i as int])],
            );
        }
        i += 1;
    }
    proof {
        assert(all.take(i as int) =~= all);
    }
}

impl<
    'a,
    S: Fn(&str, usize, usize) -> String,
    F: Fn(&str) -> Option<Color>,
    B: Fn(&str) -> Option<Color>,
> SpanPainter<'a, S, F, B> {
    fn add_spanned(&self, ops: &mut Vec<LineOp>, text: &str, spans: &Vec<RowSpan>)
        requires
            self.wf(),
        ensures
            steps(final(ops)@) == steps(old(ops)@) + spanned_steps(
                self.painting(),
                text@,
                spans@,
                0,
                0,
            ),
    {
        let ghost p = self.painting();
        let ghost before = steps(ops@);
        let ghost all = spanned_steps(p, text@, spans@, 0, 0);
        let mut cursor: usize = 0;
        let mut i: usize = 0;
        while i < spans.len()
            invariant
                i <= spans@.len(),
                self.wf(),
                p == self.painting(),
                before + all == steps(ops@) + spanned_steps(
                    p,
                    text@,
                    spans@,
                    i as int,
                    cursor,
                ),
            decreases spans@.len() - i,
        {
            let span = spans[i];
            let ghost now = steps(ops@);
            let ghost gap_step = LineStep::Print((p.slice)(text@, cursor, span.start));
            let ghost gap = op_if(cursor < span.start, gap_step);
            let ghost rest = spanned_steps(p, text@, spans@, i + 1, span.end);
            if cursor < span.start {
                let part = self.cut(text, cursor, span.start);
                add_op(ops, LineOp::Print(part));
            }
            proof {
                assert(steps(ops@) =~= now + gap);
            }
            let part = self.cut(text, span.start, span.end);
            let ghost styled = styled_part(span.style, part@);
            let ghost opened = steps(ops@);
            if span.style == plain_cell_style() {
                add_op(ops, LineOp::Print(part));
            } else {
                add_op(ops, LineOp::PushStyle(span.style));
                add_op(ops, LineOp::Print(part));
                add_op(ops, LineOp::PopStyle);
            }
            proof {
                assert(steps(ops@) =~= opened + styled);
                lemma_behind(now, gap, styled);
                lemma_behind(now, gap + styled, rest);
            }
            cursor = span.end;
            i += 1;
        }
        let len = byte_len(text);
        let ghost now = steps(ops@);
        if cursor < len {
            let part = self.cut(text, cursor, len);
            add_op(ops, LineOp::Print(part));
        }
        proof {
            assert(steps(ops@) =~= now + spanned_steps(p, text@, spans@, i as int, cursor));
        }
    }

    /// Draws a row of a retained text.
    pub fn render_content_text_row(
        &self,
        ops: &mut Vec<LineOp>,
        row: &ContentTextRow,
        hl_group: &Option<String>,
        ansi: bool,
        gutter: Option<&GutterSpec>,
    )
        requires
            self.wf(),
        ensures
            steps(final(ops)@) == steps(old(ops)@) + content_row_steps(
                self.painting(),
                *row,
                *hl_group,
                ansi,
                gutter,
            ),
    {
        let ghost p = self.painting();
        let ghost before = steps(ops@);
        let ghost marks = row_marks(*row);
        let ghost a = gutter_steps(gutter, false);
        let ghost style = seq![text_style_step(*hl_group)];
        let ghost b = gutter_steps(gutter, true);
        let ghost body = row_body_steps(p, *row, ansi);
        let ghost close = seq![LineStep::PopStyle, LineStep::Newline];
        add_row_marks(ops, row);
        add_gutter(ops, gutter, false);
        match hl_group {
            Some(name) => add_op(ops, LineOp::PushHl(name.clone())),
            None => add_op(ops, LineOp::PushDim),
        }
        add_gutter(ops, gutter, true);
        if ansi && row.spans.len() > 0 {
            let text = join_pieces(&row.pieces);
            self.add_spanned(ops, text.as_str(), &row.spans);
        } else {
            add_pieces(ops, &row.pieces);
        }
        let ghost drawn = steps(ops@);
        add_op(ops, LineOp::PopStyle);
        add_op(ops, LineOp::Newline);
        proof {
            assert(steps(ops@) =~= drawn + close);
            lemma_behind(before, marks, a);
            lemma_behind(before, marks + a, style);
            lemma_behind(before, marks + a + style, b);
            lemma_behind(before, marks + a + style + b, body);
            lemma_behind(before, marks + a + style + b + body, close);
        }
    }
}

fn add_row_marks(ops: &mut Vec<LineOp>, row: &ContentTextRow)
    ensures
        steps(final(ops)@) == steps(old(ops)@) + row_marks(*row),
{
    let ghost before = steps(ops@);
    add_op_if(ops, row.wrapped, LineOp::MarkWrapped);
    add_op_if(ops, row.continuation, LineOp::Row { continuation: true });
    proof {
        lemma_behind(
            before,
            op_if(row.wrapped, LineStep::MarkWrapped),
            op_if(row.continuation, LineStep::Row { continuation: true }),
        );
    }
}

/// What a row of retained markdown that reads as plain text is drawn with.
pub open spec fn plain_row_steps(
    row: ContentTextRow,
    dim: bool,
    italic: bool,
    gutter: Option<&GutterSpec>,
) -> Seq<LineStep> {
    row_marks(row) + markdown_text_steps(dim, italic, gutter, joined(texts(row.pieces@))) + seq![
        LineStep::Newline,
    ]
}

/// Draws a row of retained markdown that reads as plain text.
pub fn render_retained_plain_markdown_row(
    ops: &mut Vec<LineOp>,
    row: &ContentTextRow,
    dim: bool,
    italic: bool,
    gutter: Option<&GutterSpec>,
)
    ensures
        steps(final(ops)@) == steps(old(ops)@) + plain_row_steps(*row, dim, italic, gutter),
{
    let ghost before = steps(ops@);
    let ghost text = markdown_text_steps(dim, italic, gutter, joined(texts(row.pieces@)));
    add_row_marks(ops, row);
    emit_plain_markdown_slice(ops, dim, italic, gutter, join_pieces(&row.pieces));
    add_op(ops, LineOp::Newline);
    proof {
        lemma_behind(before, row_marks(*row), text);
        lemma_behind(before, row_marks(*row) + text, seq![LineStep::Newline]);
    }
}

} // verus!
