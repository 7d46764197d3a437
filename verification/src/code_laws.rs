//! What a code block shows, row by row, and what it was drawn from.
use vstd::prelude::*;
use crate::code_block::{
    code_bg, code_block_ops, code_line_ops, code_lines_ops, code_row_ops, code_rows_ops,
    frame_left_ops, frame_right_ops, head_ops, only_if, pad_ops, spaces, CodeBlockStyle,
};
use crate::highlight::{joined, piece_ops, pieces_ops, reset, split_rows, BoxContext, Piece};
use crate::spans::{printed, ColorValue, SpanOp, StyleChange};
use crate::text::cell_width;

verus! {

/// The colours that are in force.
pub struct Pen {
    pub fg: Option<ColorValue>,
    pub bg: Option<ColorValue>,
}

/// A character in its colours.
pub type Glyph = (char, Pen);

/// Rows while steps are carried out: those that are finished, the one that is being written,
/// the colours in force, and for each row what it was drawn from, if it does not go on with
/// the one before.
pub struct Sheet {
    pub rows: Seq<Seq<Glyph>>,
    pub row: Seq<Glyph>,
    pub pen: Pen,
    pub heads: Seq<Option<Seq<char>>>,
}

/// Nothing written, and no colours in force.
pub open spec fn bare_sheet() -> Sheet {
    Sheet {
        rows: Seq::empty(),
        row: Seq::empty(),
        pen: Pen { fg: None, bg: None },
        heads: Seq::empty(),
    }
}

/// A text in some colours.
pub open spec fn glyphs(text: Seq<char>, pen: Pen) -> Seq<Glyph> {
    text.map_values(|c: char| (c, pen))
}

/// The characters of a row.
pub open spec fn glyph_text(row: Seq<Glyph>) -> Seq<char> {
    row.map_values(|g: Glyph| g.0)
}

/// The rows after one more step.
pub open spec fn sheet_step(sheet: Sheet, op: SpanOp) -> Sheet {
    match op {
        SpanOp::Print { text, .. } => Sheet { row: sheet.row + glyphs(text, sheet.pen), ..sheet },
        SpanOp::Newline => Sheet {
            rows: sheet.rows.push(sheet.row),
            row: Seq::empty(),
            ..sheet
        },
        SpanOp::SetStyle { change: StyleChange::Fg(color) } => Sheet {
            pen: Pen { fg: Some(color), ..sheet.pen },
            ..sheet
        },
        SpanOp::SetStyle { change: StyleChange::Bg(color) } => Sheet {
            pen: Pen { bg: Some(color), ..sheet.pen },
            ..sheet
        },
        SpanOp::SetStyle { change: StyleChange::Reset } => Sheet {
            pen: Pen { fg: None, bg: None },
            ..sheet
        },
        SpanOp::SetSourceText { text } => Sheet { heads: sheet.heads.push(Some(text)), ..sheet },
        SpanOp::MarkSoftWrapContinuation => Sheet { heads: sheet.heads.push(None), ..sheet },
        _ => sheet,
    }
}

/// The rows that some steps write.
pub open spec fn sheet_of(from: Sheet, ops: Seq<SpanOp>) -> Sheet
    decreases ops.len(),
{
    if ops.len() == 0 {
        from
    } else {
        sheet_step(sheet_of(from, ops.drop_last()), ops.last())
    }
}

broadcast proof fn lemma_sheet_concat(from: Sheet, a: Seq<SpanOp>, b: Seq<SpanOp>)
    ensures
        #[trigger] sheet_of(from, a + b) == sheet_of(sheet_of(from, a), b),
    decreases b.len(),
{
    if b.len() == 0 {
        assert(a + b =~= a);
    } else {
        lemma_sheet_concat(from, a, b.drop_last());
        assert((a + b).drop_last() =~= a + b.drop_last());
    }
}

broadcast proof fn lemma_sheet_one(from: Sheet, op: SpanOp)
    ensures
        #[trigger] sheet_of(from, seq![op]) == sheet_step(from, op),
{
    assert(seq![op].drop_last() =~= Seq::<SpanOp>::empty());
    assert(sheet_of(from, seq![op].drop_last()) == from);
}

/// Some pieces of code, each in its own colour on the background of code.
pub open spec fn code_glyphs(pieces: Seq<Piece>) -> Seq<Glyph> {
    pieces.map_values(
        |piece: Piece|
            glyphs(piece.text, Pen { fg: Some(piece.color.spec_value()), bg: Some(code_bg()) }),
    ).flatten()
}

/// The sides of a frame, if there is one.
pub open spec fn frame_sides(frame: Option<&BoxContext>) -> (Seq<char>, Seq<char>) {
    match frame {
        Some(frame) => (frame.left@, frame.right@),
        None => (Seq::empty(), Seq::empty()),
    }
}

/// `row` shows some pieces of code between the sides of a frame, if there is one: each piece in
/// its colour on the background of code, and blanks on that background up to `width` cells.
pub open spec fn shows_code(
    row: Seq<Glyph>,
    pieces: Seq<Piece>,
    frame: Option<&BoxContext>,
    width: int,
) -> bool {
    let (left, right) = frame_sides(frame);
    let code = code_glyphs(pieces);
    let text = glyph_text(code);
    let pad = if width > cell_width(text) {
        (width - cell_width(text)) as nat
    } else {
        0
    };
    let blanks = Seq::new(pad, |i: int| ' ');
    &&& glyph_text(row) == left + text + blanks + right
    &&& row.subrange(left.len() as int, left.len() + code.len() as int) == code
    &&& forall|i: int|
        left.len() + code.len() <= i < left.len() + code.len() + pad ==> (#[trigger] row[i]).1.bg
            == Some(code_bg())
    &&& frame matches Some(frame) ==> {
        &&& forall|i: int|
            0 <= i < left.len() ==> (#[trigger] row[i]).1.fg == Some(frame.color)
        &&& forall|i: int|
            row.len() - right.len() <= i < row.len() ==> (#[trigger] row[i]).1.fg == Some(
                frame.color,
            )
    }
}

proof fn lemma_pieces_sheet(pieces: Seq<Piece>, from: Sheet)
    ensures
        ({
            let sheet = sheet_of(from, pieces_ops(pieces, Some(code_bg())));
            &&& sheet.row == from.row + code_glyphs(pieces)
            &&& sheet.rows == from.rows
            &&& sheet.heads == from.heads
        }),
    decreases pieces.len(),
{
    broadcast use {lemma_sheet_concat, lemma_sheet_one};

    let ink = |piece: Piece|
        glyphs(piece.text, Pen { fg: Some(piece.color.spec_value()), bg: Some(code_bg()) });
    if pieces.len() == 0 {
        assert(pieces.map_values(ink) =~= Seq::<Seq<Glyph>>::empty());
        assert(from.row + code_glyphs(pieces) =~= from.row);
    } else {
        let rest = pieces.drop_last();
        let last = pieces.last();
        lemma_pieces_sheet(rest, from);
        assert(pieces.map_values(ink) =~= rest.map_values(ink).push(ink(last)));
        rest.map_values(ink).lemma_flatten_push(ink(last));
        let ops = piece_ops(last, Some(code_bg()));
        if last.text.len() == 0 {
            assert(ink(last) =~= Seq::<Glyph>::empty());
            assert(code_glyphs(pieces) =~= code_glyphs(rest));
            assert(pieces_ops(rest, Some(code_bg())) + ops =~= pieces_ops(rest, Some(code_bg())));
        } else {
            let bg = SpanOp::SetStyle { change: StyleChange::Bg(code_bg()) };
            let fg = SpanOp::SetStyle { change: StyleChange::Fg(last.color.spec_value()) };
            assert(ops =~= seq![bg] + seq![fg] + seq![printed(last.text)]);
            assert(from.row + code_glyphs(rest) + ink(last) =~= from.row + (code_glyphs(rest)
                + ink(last)));
        }
    }
}

proof fn lemma_glyph_text(pieces: Seq<Piece>)
    ensures
        glyph_text(code_glyphs(pieces)) == joined(pieces),
    decreases pieces.len(),
{
    let ink = |piece: Piece|
        glyphs(piece.text, Pen { fg: Some(piece.color.spec_value()), bg: Some(code_bg()) });
    if pieces.len() == 0 {
        assert(pieces.map_values(ink) =~= Seq::<Seq<Glyph>>::empty());
        assert(glyph_text(code_glyphs(pieces)) =~= joined(pieces));
    } else {
        let rest = pieces.drop_last();
        let last = pieces.last();
        lemma_glyph_text(rest);
        assert(pieces.map_values(ink) =~= rest.map_values(ink).push(ink(last)));
        rest.map_values(ink).lemma_flatten_push(ink(last));
        assert(glyph_text(code_glyphs(pieces)) =~= glyph_text(code_glyphs(rest)) + last.text);
    }
}

proof fn lemma_row_sheet(
    row: Seq<Piece>,
    head: Option<Seq<char>>,
    dim: bool,
    frame: Option<&BoxContext>,
    width: int,
    from: Sheet,
)
    requires
        from.row.len() == 0,
    ensures
        ({
            let sheet = sheet_of(from, code_row_ops(row, head, dim, frame, width));
            &&& sheet.row.len() == 0
            &&& sheet.heads == from.heads.push(head)
            &&& sheet.rows.len() == from.rows.len() + 1
            &&& sheet.rows.drop_last() == from.rows
            &&& shows_code(sheet.rows.last(), row, frame, width)
        }),
{
    broadcast use {lemma_sheet_concat, lemma_sheet_one};

    let code = pieces_ops(row, Some(code_bg()));
    assert(code.push(reset()) =~= code + seq![reset()]);
    let none = Seq::<SpanOp>::empty();
    let a = sheet_of(from, head_ops(head));
    let dimmed = SpanOp::SetStyle { change: StyleChange::Dim };
    let b = sheet_of(a, frame_left_ops(frame, dim));
    let (left, right) = frame_sides(frame);
    if let Some(frame) = frame {
        let color = SpanOp::SetStyle { change: StyleChange::Fg(frame.color) };
        assert(frame.left_ops() =~= seq![color] + seq![printed(left)] + seq![reset()]);
        assert(sheet_of(a, none) == a);
    } else {
        assert(sheet_of(a, none) == a);
    }
    assert(a.row =~= Seq::<Glyph>::empty());
    assert(b.rows == from.rows && b.heads == from.heads.push(head));
    assert(glyph_text(b.row) =~= left);
    assert(forall|i: int|
        0 <= i < left.len() && frame is Some ==> (#[trigger] b.row[i]).1.fg == Some(
            frame->0.color,
        ));
    lemma_pieces_sheet(row, b);
    let c = sheet_of(b, code.push(reset()));
    assert(c.row == b.row + code_glyphs(row));
    lemma_glyph_text(row);
    let pad = width - cell_width(joined(row));
    let blanks = Seq::new(
        if pad > 0 {
            pad as nat
        } else {
            0
        },
        |i: int| ' ',
    );
    let d = sheet_of(c, pad_ops(pad));
    let filled = SpanOp::SetStyle { change: StyleChange::Bg(code_bg()) };
    if pad > 0 {
        assert(pad_ops(pad) =~= seq![filled] + seq![printed(spaces(pad))]);
        assert(spaces(pad) =~= blanks);
        assert(d.row =~= c.row + glyphs(blanks, Pen { fg: None, bg: Some(code_bg()) }));
    } else {
        assert(d == c);
        assert(d.row =~= c.row + glyphs(blanks, Pen { fg: None, bg: Some(code_bg()) }));
    }
    let e = sheet_of(d, frame_right_ops(frame, dim));
    if let Some(frame) = frame {
        let color = SpanOp::SetStyle { change: StyleChange::Fg(frame.color) };
        assert(seq![color, printed(right)] =~= seq![color] + seq![printed(right)]);
        assert(sheet_of(d, none) == d);
        let pen = if dim {
            Pen { fg: Some(frame.color), bg: None }
        } else {
            Pen { fg: Some(frame.color), ..d.pen }
        };
        assert(e.row == d.row + glyphs(right, pen));
    } else {
        assert(e == d);
    }
    assert(seq![reset(), SpanOp::Newline] =~= seq![reset()] + seq![SpanOp::Newline]);
    let f = sheet_of(e, seq![reset(), SpanOp::Newline]);
    assert(f == sheet_of(from, code_row_ops(row, head, dim, frame, width)));
    assert(f.rows == from.rows.push(e.row));
    assert(f.rows.drop_last() =~= from.rows);
    let cells = code_glyphs(row);
    assert(glyph_text(e.row) =~= left + joined(row) + blanks + right);
    assert(e.row.subrange(left.len() as int, left.len() + cells.len() as int) =~= cells);
    assert forall|i: int|
        left.len() + cells.len() <= i < left.len() + cells.len() + blanks.len() implies (
    #[trigger] e.row[i]).1.bg == Some(code_bg()) by {
        assert(e.row[i] == d.row[i]);
    }
    if let Some(frame) = frame {
        assert forall|i: int| 0 <= i < left.len() implies (#[trigger] e.row[i]).1.fg == Some(
            frame.color,
        ) by {
            assert(e.row[i] == b.row[i]);
        }
    }
}

/// `sheet` holds the rows of `from` and, below them, one for each of `pieces`, which shows it.
pub open spec fn adds_code_rows(
    from: Sheet,
    sheet: Sheet,
    pieces: Seq<Seq<Piece>>,
    heads: Seq<Option<Seq<char>>>,
    frame: Option<&BoxContext>,
    width: int,
) -> bool {
    &&& sheet.row.len() == 0
    &&& sheet.heads == from.heads + heads
    &&& sheet.rows.len() == from.rows.len() + pieces.len()
    &&& sheet.rows.take(from.rows.len() as int) == from.rows
    &&& forall|k: int|
        0 <= k < pieces.len() ==> shows_code(
            sheet.rows[from.rows.len() + k],
            #[trigger] pieces[k],
            frame,
            width,
        )
}

/// What the rows of a line say that they were drawn from: the first says it, the others go on
/// with it.
pub open spec fn line_heads(rows: nat, source: Seq<char>) -> Seq<Option<Seq<char>>> {
    Seq::new(
        rows,
        |r: int|
            if r == 0 {
                Some(source)
            } else {
                None
            },
    )
}

proof fn lemma_rows_sheet(
    rows: Seq<Seq<Piece>>,
    n: int,
    source: Seq<char>,
    dim: bool,
    frame: Option<&BoxContext>,
    width: int,
    from: Sheet,
)
    requires
        0 <= n <= rows.len(),
        from.row.len() == 0,
    ensures
        adds_code_rows(
            from,
            sheet_of(from, code_rows_ops(rows, n, source, dim, frame, width)),
            rows.take(n),
            line_heads(n as nat, source),
            frame,
            width,
        ),
    decreases n,
{
    broadcast use {lemma_sheet_concat, lemma_sheet_one};

    if n <= 0 {
        assert(from.heads + line_heads(0, source) =~= from.heads);
        assert(from.rows.take(from.rows.len() as int) =~= from.rows);
    } else {
        lemma_rows_sheet(rows, n - 1, source, dim, frame, width, from);
        let before = sheet_of(from, code_rows_ops(rows, n - 1, source, dim, frame, width));
        let head = if n == 1 {
            Some(source)
        } else {
            None
        };
        lemma_row_sheet(rows[n - 1], head, dim, frame, width, before);
        let after = sheet_of(from, code_rows_ops(rows, n, source, dim, frame, width));
        assert(after == sheet_of(before, code_row_ops(rows[n - 1], head, dim, frame, width)));
        assert(from.heads + line_heads(n as nat, source) =~= (from.heads + line_heads(
            (n - 1) as nat,
            source,
        )).push(head));
        assert(after.rows =~= before.rows.push(after.rows.last()));
        assert(after.rows.take(from.rows.len() as int) =~= from.rows);
        assert forall|k: int| 0 <= k < n implies shows_code(
            after.rows[from.rows.len() + k],
            #[trigger] rows.take(n)[k],
            frame,
            width,
        ) by {
            if k < n - 1 {
                assert(rows.take(n)[k] == rows.take(n - 1)[k]);
            }
        }
    }
}

/// The rows of all lines, one line below the other.
pub open spec fn block_rows(regions: Seq<Seq<Piece>>, n: int, width: int) -> Seq<Seq<Piece>> {
    Seq::new(n as nat, |i: int| split_rows(regions[i], width)).flatten()
}

/// What the rows of all lines say that they were drawn from.
pub open spec fn block_heads(
    regions: Seq<Seq<Piece>>,
    sources: Seq<Seq<char>>,
    n: int,
    width: int,
) -> Seq<Option<Seq<char>>> {
    Seq::new(
        n as nat,
        |i: int| line_heads(split_rows(regions[i], width).len(), sources[i]),
    ).flatten()
}

/// What the lines of a block were drawn from: the lines themselves and, if they are fenced, the
/// fences before the first and behind the last.
pub open spec fn line_sources(lines: Seq<Seq<char>>, style: CodeBlockStyle) -> Seq<Seq<char>> {
    Seq::new(lines.len(), |i: int| style.source(lines[i], i, lines.len() as int))
}

/// A code block shows the rows of its lines below each other, each in its colours, and says of
/// the first row of each line what the line was drawn from.
pub proof fn code_block_shows_its_lines(
    regions: Seq<Seq<Piece>>,
    lines: Seq<Seq<char>>,
    style: CodeBlockStyle,
)
    requires
        regions.len() == lines.len(),
    ensures
        ({
            let width = if style.content_width() < 1 {
                1
            } else {
                style.content_width() as int
            };
            adds_code_rows(
                bare_sheet(),
                sheet_of(bare_sheet(), code_block_ops(regions, lines, style)),
                block_rows(regions, lines.len() as int, width),
                block_heads(regions, line_sources(lines, style), lines.len() as int, width),
                style.frame,
                style.content_width() as int,
            )
        }),
{
    broadcast use {lemma_sheet_concat, lemma_sheet_one};

    let from = bare_sheet();
    let opened = sheet_of(
        from,
        only_if(style.dim, seq![SpanOp::SetStyle { change: StyleChange::Dim }]),
    );
    assert(opened == from);
    lemma_lines_sheet(regions, lines, lines.len() as int, style);
    let drawn = sheet_of(from, code_lines_ops(regions, lines, lines.len() as int, style));
    let closed = sheet_of(drawn, only_if(style.dim, seq![reset()]));
    assert(closed.rows == drawn.rows && closed.heads == drawn.heads && closed.row == drawn.row);
}

proof fn lemma_lines_sheet(
    regions: Seq<Seq<Piece>>,
    lines: Seq<Seq<char>>,
    n: int,
    style: CodeBlockStyle,
)
    requires
        0 <= n <= lines.len(),
        regions.len() == lines.len(),
    ensures
        adds_code_rows(
            bare_sheet(),
            sheet_of(bare_sheet(), code_lines_ops(regions, lines, n, style)),
            block_rows(regions, n, style.text_width()),
            block_heads(regions, line_sources(lines, style), n, style.text_width()),
            style.frame,
            style.content_width() as int,
        ),
    decreases n,
{
    broadcast use {lemma_sheet_concat, lemma_sheet_one};

    let from = bare_sheet();
    let width = style.text_width();
    let room = style.content_width() as int;
    let sources = line_sources(lines, style);
    let parts = |m: int| Seq::new(m as nat, |i: int| split_rows(regions[i], width));
    let marks = |m: int|
        Seq::new(m as nat, |i: int| line_heads(split_rows(regions[i], width).len(), sources[i]));
    if n <= 0 {
        assert(block_rows(regions, n, width) =~= Seq::<Seq<Piece>>::empty());
        assert(block_heads(regions, sources, n, width) =~= Seq::<Option<Seq<char>>>::empty());
        assert(from.heads + block_heads(regions, sources, n, width) =~= from.heads);
        assert(from.rows.take(0) =~= from.rows);
    } else {
        lemma_lines_sheet(regions, lines, n - 1, style);
        let before = sheet_of(from, code_lines_ops(regions, lines, n - 1, style));
        let rows = split_rows(regions[n - 1], width);
        let source = style.source(lines[n - 1], n - 1, lines.len() as int);
        let ops = code_line_ops(regions[n - 1], source, width, style.dim, style.frame, room);
        let marked = only_if(rows.len() > 1, seq![SpanOp::MarkWrapped, SpanOp::MarkWrapped]);
        assert(seq![SpanOp::MarkWrapped, SpanOp::MarkWrapped] =~= seq![SpanOp::MarkWrapped] + seq![
            SpanOp::MarkWrapped,
        ]);
        assert(sheet_of(before, marked) == before);
        lemma_rows_sheet(rows, rows.len() as int, source, style.dim, style.frame, room, before);
        assert(rows.take(rows.len() as int) =~= rows);
        let after = sheet_of(from, code_lines_ops(regions, lines, n, style));
        assert(after == sheet_of(before, ops));
        let above = block_rows(regions, n - 1, width);
        assert(parts(n) =~= parts(n - 1).push(rows));
        parts(n - 1).lemma_flatten_push(rows);
        assert(block_rows(regions, n, width) == above + rows);
        assert(marks(n) =~= marks(n - 1).push(line_heads(rows.len(), source)));
        marks(n - 1).lemma_flatten_push(line_heads(rows.len(), source));
        assert(from.heads + block_heads(regions, sources, n, width) =~= from.heads + block_heads(
            regions,
            sources,
            n - 1,
            width,
        ) + line_heads(rows.len(), source));
        assert(from.rows.take(0) =~= from.rows);
        assert(after.rows.take(0) =~= from.rows);
        assert forall|k: int| 0 <= k < (above + rows).len() implies shows_code(
            after.rows[from.rows.len() + k],
            #[trigger] (above + rows)[k],
            style.frame,
            room,
        ) by {
            if k < above.len() {
                assert(after.rows.take(before.rows.len() as int)[k] == before.rows[k]);
                assert((above + rows)[k] == above[k]);
            } else {
                assert((above + rows)[k] == rows[k - above.len()]);
            }
        }
    }
}

/// Some lines one below the other, with a line feed between them.
pub open spec fn joined_lines(lines: Seq<Seq<char>>) -> Seq<char>
    decreases lines.len(),
{
    if lines.len() == 0 {
        Seq::empty()
    } else if lines.len() == 1 {
        lines[0]
    } else {
        joined_lines(lines.drop_last()) + seq!['\n'] + lines.last()
    }
}

/// What the lines of a block were drawn from is together what the block was drawn from: its
/// lines and, if it is fenced, the fence with its language above them and the other below.
pub proof fn sources_make_the_block(lines: Seq<Seq<char>>, style: CodeBlockStyle)
    requires
        lines.len() > 0,
    ensures
        joined_lines(line_sources(lines, style)) == if style.fence {
            "```"@ + style.lang@ + seq!['\n'] + joined_lines(lines) + "\n```"@
        } else {
            joined_lines(lines)
        },
{
    let sources = line_sources(lines, style);
    let n = lines.len() as int;
    lemma_sources(lines, style, n - 1);
    let opening = if style.fence {
        "```"@ + style.lang@ + seq!['\n']
    } else {
        Seq::empty()
    };
    let closing = if style.fence {
        "\n```"@
    } else {
        Seq::empty()
    };
    assert(sources.drop_last() =~= sources.take(n - 1));
    assert(lines.drop_last() =~= lines.take(n - 1));
    if n == 1 {
        assert(joined_lines(sources) =~= opening + joined_lines(lines) + closing);
    } else {
        assert(sources.last() =~= lines.last() + closing);
        assert(joined_lines(sources) =~= opening + joined_lines(lines) + closing);
    }
    assert(opening + joined_lines(lines) + closing =~= if style.fence {
        "```"@ + style.lang@ + seq!['\n'] + joined_lines(lines) + "\n```"@
    } else {
        joined_lines(lines)
    });
}

proof fn lemma_sources(lines: Seq<Seq<char>>, style: CodeBlockStyle, n: int)
    requires
        0 <= n < lines.len(),
    ensures
        n > 0 ==> joined_lines(line_sources(lines, style).take(n)) == (if style.fence {
            "```"@ + style.lang@ + seq!['\n']
        } else {
            Seq::empty()
        }) + joined_lines(lines.take(n)),
    decreases n,
{
    let sources = line_sources(lines, style);
    let opening = if style.fence {
        "```"@ + style.lang@ + seq!['\n']
    } else {
        Seq::empty()
    };
    if n == 1 {
        assert(sources.take(1)[0] =~= opening + lines[0]);
        assert(lines.take(1)[0] == lines[0]);
    } else if n > 1 {
        lemma_sources(lines, style, n - 1);
        assert(sources.take(n).drop_last() =~= sources.take(n - 1));
        assert(lines.take(n).drop_last() =~= lines.take(n - 1));
        assert(sources.take(n).last() =~= lines[n - 1]);
        assert(lines.take(n).last() == lines[n - 1]);
        assert(joined_lines(sources.take(n)) =~= opening + joined_lines(lines.take(n)));
    }
}

} // verus!
