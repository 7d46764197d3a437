//! What holds of the forms that rows are made of: runs, prefixes, gutters, notes and plain text.
use vstd::prelude::*;
use crate::cap_rows::capped;
use crate::code_block::shell_ops;
use crate::code_laws::{bare_sheet, glyphs, sheet_of, Glyph, Pen, Sheet};
use crate::content_draw::{gutter_overlay, markdown_steps};
use crate::edges::row_is_marker;
use crate::highlight::{end_stripped, line_end_trimmed, piece_ops, pieces_ops, Piece};
use crate::ink::{dry, ink_of, inked, lemma_ink_concat, lemma_ink_one, Ink};
use crate::inline_markers::{stripped, unmarked_text_is_kept};
use crate::ir::{CapSpec, GutterSpec, RunsSpec, StyledSpan};
use crate::leaf_edges::omitted_steps;
use crate::leaf_rows::{rows_before, rows_in_all};
use crate::leaf_text::{is_ascii_word, is_plain_markdown};
use crate::line_ops::{op_if, row_gutter_steps, LineStep, RowsAsked};
use crate::plan::ContentMeasurementRefresh;
use crate::queued::queued_columns;
use crate::row_prefix::{composed, composition, text_start};
use crate::run_laws::runs_text;
use crate::spans::{finished, printed, CollectorView, SpanOp, StyleChange};
use crate::styled_runs::{continuation_cells, runs_indent, InlineShape, RunView};
use crate::temp_rows::StyleOverlay;
use crate::text::{lines_of, tabs_expanded};
use crate::text_laws::text_without_line_feeds_is_one_line;

verus! {

/// Rows that go on with a line stand behind its indent, as far as there is room for one cell
/// more: indent and cells make up the width.
pub proof fn indent_and_cells_make_up_the_width(spec: RunsSpec, width: u16)
    requires
        width > 0,
    ensures
        ({
            let indent = runs_indent(spec, width);
            &&& continuation_cells(width, indent) + indent == width
            &&& continuation_cells(width, indent) >= 1
            &&& indent <= spec.continuation_indent
            &&& spec.continuation_indent < width ==> indent == spec.continuation_indent
        }),
{
}

/// Rows of lines add up, line by line.
pub proof fn rows_of_lines_add_up(a: Seq<usize>, b: Seq<usize>, n: usize)
    ensures
        rows_in_all(a + b) == rows_in_all(a) + rows_in_all(b),
        rows_in_all(seq![n]) == n,
        rows_in_all(Seq::<usize>::empty()) == 0,
{
    lemma_rows_add_up(a, b, b.len() as int);
    let one = seq![n];
    assert(rows_before(one, 0) == 0);
    assert(rows_before(one, 1) == n);
}

proof fn lemma_rows_add_up(a: Seq<usize>, b: Seq<usize>, n: int)
    requires
        0 <= n <= b.len(),
    ensures
        rows_before(a + b, a.len() + n) == rows_before(a, a.len() as int) + rows_before(b, n),
    decreases n,
{
    if n > 0 {
        lemma_rows_add_up(a, b, n - 1);
        assert((a + b)[a.len() + n - 1] == b[n - 1]);
    } else {
        lemma_rows_same(a + b, a, a.len() as int);
    }
}

proof fn lemma_rows_same(a: Seq<usize>, b: Seq<usize>, n: int)
    requires
        0 <= n <= a.len(),
        n <= b.len(),
        forall|i: int| 0 <= i < n ==> a[i] == b[i],
    ensures
        rows_before(a, n) == rows_before(b, n),
    decreases n,
{
    if n > 0 {
        lemma_rows_same(a, b, n - 1);
    }
}

/// A prefix and the text behind it are put together and taken apart again without anything
/// being lost: what is the prefix's and what is the text's is together what stands in the line,
/// and all of the prefix is of its own spans.
pub proof fn prefix_and_text_make_up_the_line(
    shape: InlineShape,
    prefix: Seq<StyledSpan>,
    text: Seq<StyledSpan>,
)
    requires
        prefix.len() <= usize::MAX,
    ensures
        ({
            let parts = composition(shape, prefix, text);
            &&& runs_text(parts.prefix) + runs_text(parts.text) == runs_text(
                composed(shape, prefix, text),
            )
            &&& forall|i: int|
                0 <= i < parts.prefix.len() ==> (#[trigger] parts.prefix[i]).meta < prefix.len()
        }),
{
    let all = composed(shape, prefix, text);
    let count = prefix.len() as usize;
    let at = text_start(all, count, 0);
    lemma_text_start(all, count, 0);
    let parts = composition(shape, prefix, text);
    let own = |run: RunView| run.text;
    assert(parts.text.map_values(own) =~= all.skip(at).map_values(own));
    assert(all.map_values(own) =~= all.take(at).map_values(own) + all.skip(at).map_values(own));
    lemma_flatten_concat(all.take(at).map_values(own), all.skip(at).map_values(own));
}

proof fn lemma_text_start(runs: Seq<RunView>, count: usize, i: int)
    requires
        0 <= i <= runs.len(),
    ensures
        i <= text_start(runs, count, i) <= runs.len(),
        forall|k: int|
            i <= k < text_start(runs, count, i) ==> (#[trigger] runs[k]).meta < count,
    decreases runs.len() - i,
{
    if i < runs.len() && runs[i].meta < count {
        lemma_text_start(runs, count, i + 1);
    }
}

proof fn lemma_flatten_concat<A>(a: Seq<Seq<A>>, b: Seq<Seq<A>>)
    ensures
        (a + b).flatten() == a.flatten() + b.flatten(),
    decreases b.len(),
{
    if b.len() == 0 {
        assert(a + b =~= a);
        assert(a.flatten() + b.flatten() =~= a.flatten());
    } else {
        let rest = b.drop_last();
        lemma_flatten_concat(a, rest);
        assert(a + b =~= (a + rest).push(b.last()));
        (a + rest).lemma_flatten_push(b.last());
        assert(b =~= rest.push(b.last()));
        rest.lemma_flatten_push(b.last());
        assert(a.flatten() + rest.flatten() + b.last() =~= a.flatten() + (rest.flatten()
            + b.last()));
    }
}

/// A text loses the characters of a kind at its end, all of them and nothing else.
pub proof fn line_ends_are_trimmed(text: Seq<char>, c: char)
    ensures
        end_stripped(text, c).is_prefix_of(text),
        end_stripped(text, c).len() > 0 ==> end_stripped(text, c).last() != c,
        forall|i: int| end_stripped(text, c).len() <= i < text.len() ==> #[trigger] text[i] == c,
    decreases text.len(),
{
    if text.len() > 0 && text.last() == c {
        line_ends_are_trimmed(text.drop_last(), c);
        assert forall|i: int| end_stripped(text, c).len() <= i < text.len() implies
            #[trigger] text[i] == c by {
            if i < text.len() - 1 {
                assert(text.drop_last()[i] == text[i]);
            }
        }
    }
}

/// The runs of a shell line stand one behind the other, each in its colour and without the line
/// end behind it.
pub proof fn shell_line_shows_its_runs(regions: Seq<Piece>)
    ensures
        sheet_of(bare_sheet(), shell_ops(regions)).row == regions.map_values(
            |piece: Piece|
                glyphs(
                    line_end_trimmed(piece.text),
                    Pen { fg: Some(piece.color.spec_value()), bg: None },
                ),
        ).flatten(),
        sheet_of(bare_sheet(), shell_ops(regions)).pen.bg is None,
        sheet_of(bare_sheet(), shell_ops(regions)).rows.len() == 0,
    decreases regions.len(),
{
    let ink = |piece: Piece|
        glyphs(
            line_end_trimmed(piece.text),
            Pen { fg: Some(piece.color.spec_value()), bg: None },
        );
    if regions.len() == 0 {
        assert(regions.map_values(ink) =~= Seq::<Seq<Glyph>>::empty());
    } else {
        let rest = regions.drop_last();
        let last = regions.last();
        shell_line_shows_its_runs(rest);
        let before = sheet_of(bare_sheet(), shell_ops(rest));
        assert(regions.map_values(ink) =~= rest.map_values(ink).push(ink(last)));
        rest.map_values(ink).lemma_flatten_push(ink(last));
        let text = line_end_trimmed(last.text);
        let piece = Piece { color: last.color, text };
        let ops = pieces_ops(seq![piece], None);
        assert(seq![piece].drop_last() =~= Seq::<Piece>::empty());
        assert(pieces_ops(seq![piece].drop_last(), None) =~= Seq::<SpanOp>::empty());
        assert(ops =~= piece_ops(piece, None));
        lemma_sheet_after(bare_sheet(), shell_ops(rest), ops);
        if text.len() == 0 {
            assert(ink(last) =~= Seq::<Glyph>::empty());
            assert(before.row + ink(last) =~= before.row);
            assert(sheet_of(before, ops) == before);
        } else {
            let fg = SpanOp::SetStyle { change: StyleChange::Fg(piece.color.spec_value()) };
            assert(ops =~= seq![fg, printed(text)]);
            let two = seq![fg, printed(text)];
            assert(two.drop_last() =~= seq![fg]);
            assert(seq![fg].drop_last() =~= Seq::<SpanOp>::empty());
            assert(sheet_of(before, seq![fg].drop_last()) == before);
            let coloured = sheet_of(before, seq![fg]);
            assert(coloured == (Sheet {
                pen: Pen { fg: Some(piece.color.spec_value()), bg: None },
                ..before
            }));
            assert(sheet_of(before, two).row == before.row + ink(last));
        }
    }
}

proof fn lemma_sheet_after(from: Sheet, a: Seq<SpanOp>, b: Seq<SpanOp>)
    ensures
        sheet_of(from, a + b) == sheet_of(sheet_of(from, a), b),
    decreases b.len(),
{
    if b.len() == 0 {
        assert(a + b =~= a);
    } else {
        lemma_sheet_after(from, a, b.drop_last());
        assert((a + b).drop_last() =~= a + b.drop_last());
    }
}

/// A row that was begun and not finished is the last of a block, and none is added where nothing
/// was begun.
pub proof fn begun_row_is_not_lost(c: CollectorView)
    ensures
        c.line.spans.len() > 0 ==> finished(c).lines == c.block.lines.push(c.line)
            && finished(c).max_line_width >= c.cols,
        c.line.spans.len() == 0 && c.line.fill_bg is None && c.cols == 0 ==> finished(c) == c.block,
        finished(c).max_line_width >= c.block.max_line_width,
{
}

/// A gutter of its own is in the style in force where it asks for it, and else in none; the style
/// behind it is what it was before.
pub proof fn gutter_is_in_its_own_style(gutter: GutterSpec, from: Ink)
    ensures
        ink_of(from, row_gutter_steps(gutter)) == (Ink {
            gutter: from.gutter + inked(
                gutter.text@,
                if gutter.styled {
                    from.style
                } else {
                    Seq::empty()
                },
            ),
            ..from
        }),
{
    broadcast use {lemma_ink_concat, lemma_ink_one};

    let text = LineStep::Gutter(gutter.text@);
    if !gutter.styled {
        assert(row_gutter_steps(gutter) =~= seq![LineStep::SaveStyle] + seq![LineStep::ResetStyle]
            + seq![text] + seq![LineStep::PopStyle]);
        assert(from.saved.push(from.style).drop_last() =~= from.saved);
    }
}

/// Markdown in italics is drawn in italics, and the style behind it is what it was before; behind
/// a gutter that takes on the style of the text, the gutter is as dim and italic as the text is.
pub proof fn markdown_is_drawn_in_its_style(
    gutter: &GutterSpec,
    dim: bool,
    italic: bool,
    width: u16,
    rows: RowsAsked,
)
    ensures
        markdown_steps(dim, italic, width, rows) == if italic {
            seq![
                LineStep::SaveStyle,
                LineStep::SetItalic,
                LineStep::Markdown { dim, width, rows },
                LineStep::PopStyle,
            ]
        } else {
            seq![LineStep::Markdown { dim, width, rows }]
        },
        gutter.styled ==> gutter_overlay(gutter, dim, italic) == Some(
            (StyleOverlay { dim, italic }),
        ),
        !gutter.styled ==> gutter_overlay(gutter, dim, italic) is None,
{
    assert(markdown_steps(dim, italic, width, rows) =~= if italic {
        seq![
            LineStep::SaveStyle,
            LineStep::SetItalic,
            LineStep::Markdown { dim, width, rows },
            LineStep::PopStyle,
        ]
    } else {
        seq![LineStep::Markdown { dim, width, rows }]
    });
}

/// The note on markdown that is left out is as dim and italic as the markdown would be, and
/// leaves no style behind.
pub proof fn note_on_omitted_markdown_is_in_its_style(dim: bool, italic: bool)
    ensures
        ({
            let ink = ink_of(dry(), omitted_steps(dim, italic));
            let style = (if dim {
                seq![LineStep::SetDim]
            } else {
                Seq::empty()
            }) + (if italic {
                seq![LineStep::SetItalic]
            } else {
                Seq::empty()
            });
            &&& ink.cells == inked("[large Markdown content omitted]"@, style)
            &&& ink.style.len() == 0
            &&& ink.saved.len() == 0
        }),
{
    broadcast use {lemma_ink_concat, lemma_ink_one};

    let text = "[large Markdown content omitted]"@;
    let note = LineStep::PrintMeta { text, selectable: false };
    let a = op_if(dim, LineStep::SetDim);
    let b = op_if(italic, LineStep::SetItalic);
    let end = seq![note, LineStep::PopStyle, LineStep::Newline];
    assert(end =~= seq![note] + seq![LineStep::PopStyle] + seq![LineStep::Newline]);
    let saved = ink_of(dry(), seq![LineStep::SaveStyle]);
    let none = Seq::<LineStep>::empty();
    assert(ink_of(saved, none) == saved);
    let styled = ink_of(ink_of(saved, a), b);
    let style = (if dim {
        seq![LineStep::SetDim]
    } else {
        Seq::empty()
    }) + (if italic {
        seq![LineStep::SetItalic]
    } else {
        Seq::empty()
    });
    assert(ink_of(ink_of(saved, a), none) == ink_of(saved, a));
    assert(styled.style =~= style);
    assert(styled.saved =~= seq![Seq::<LineStep>::empty()]);
    let done = ink_of(styled, end);
    assert(done.cells =~= inked(text, style));
    assert(done.saved =~= Seq::<Seq<LineStep>>::empty());
}

/// Markdown that reads as plain text is one line, and has no markers to lose.
pub proof fn plain_markdown_has_nothing_to_lose(content: Seq<char>)
    requires
        is_plain_markdown(content),
    ensures
        lines_of(content) == seq![content],
        stripped(content, 0, content.len() as int) == content,
{
    assert(!content.contains('\n'));
    text_without_line_feeds_is_one_line(content);
    unmarked_text_is_kept(content, 0, content.len() as int);
    assert(content.subrange(0, content.len() as int) =~= content);
}

/// A word of visible characters is one line, and has no tabs to be written out.
pub proof fn word_is_one_line_without_tabs(content: Seq<char>)
    requires
        is_ascii_word(content),
        content.len() > 0,
    ensures
        lines_of(content) == seq![content],
        tabs_expanded(content) == content,
{
    assert(!content.contains('\n')) by {
        if content.contains('\n') {
            let i = choose|i: int| 0 <= i < content.len() && content[i] == '\n';
            assert('!' <= content[i]);
        }
    }
    text_without_line_feeds_is_one_line(content);
    lemma_no_tabs(content);
}

proof fn lemma_no_tabs(content: Seq<char>)
    requires
        is_ascii_word(content),
    ensures
        tabs_expanded(content) == content,
    decreases content.len(),
{
    if content.len() > 0 {
        assert('!' <= content[content.len() - 1]);
        let rest = content.drop_last();
        assert forall|i: int| 0 <= i < rest.len() implies '!' <= #[trigger] rest[i] <= '~' by {
            assert(rest[i] == content[i]);
        }
        lemma_no_tabs(content.drop_last());
        assert(content.drop_last().push(content.last()) =~= content);
    } else {
        assert(tabs_expanded(content) =~= content);
    }
}

/// What several refreshes come to does not depend on their order: that a measurement no longer
/// fits goes before that it changed, and that it changed before that it did not.
pub proof fn outcomes_are_merged_in_any_order(
    a: ContentMeasurementRefresh,
    b: ContentMeasurementRefresh,
    c: ContentMeasurementRefresh,
)
    ensures
        a.merged(b) == b.merged(a),
        a.merged(b).merged(c) == a.merged(b.merged(c)),
        a.merged(a) == a,
        a.merged(ContentMeasurementRefresh::Unchanged) == a,
        a.merged(ContentMeasurementRefresh::Incompatible)
            == ContentMeasurementRefresh::Incompatible,
{
}

/// A row of a cap is taken for its marker if and only if it is.
pub proof fn marker_is_known_by_its_row(n: usize, spec: CapSpec, row: usize)
    requires
        row < capped(n as int, spec, true).len(),
    ensures
        ({
            let rows = capped(n as int, spec, true);
            let kept = if n <= spec.rows {
                n
            } else {
                spec.rows as usize
            };
            row_is_marker(spec, n > spec.rows, rows.len() > kept, kept, row)
                <==> rows[row as int] is Marker
        }),
{
}

/// Queued messages leave two columns: for the indent before them and the blank behind it.
pub proof fn queued_messages_leave_two_columns(usable: usize)
    ensures
        usable > 2 ==> queued_columns(usable) + 2 == usable,
        queued_columns(usable) >= 1,
{
}

} // verus!
