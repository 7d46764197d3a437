//! What the lines, tabs and rows of a text are to the text.
use vstd::prelude::*;
use crate::estimate::{estimated_rows, line_rows, lines_rows};
use crate::leaf_rows::{is_bounded, rows_before};
use crate::leaf_text::word_rows;
use crate::prompt_buffer::text_cells;
use crate::text::{lines_from, lines_of, tabs_expanded, without_cr};
use crate::wrapped_output::{all_rows, output_rows, rows_of, shown_rows, OutputRow};

verus! {

/// A text without line feeds is one line, or none where it is empty.
pub proof fn text_without_line_feeds_is_one_line(text: Seq<char>)
    requires
        !text.contains('\n'),
    ensures
        lines_of(text) == if text.len() == 0 {
            Seq::<Seq<char>>::empty()
        } else {
            seq![text]
        },
{
    lemma_no_line_feed(text, 0);
    assert(text.subrange(0, text.len() as int) =~= text);
}

proof fn lemma_no_line_feed(text: Seq<char>, at: int)
    requires
        !text.contains('\n'),
        0 <= at <= text.len(),
    ensures
        lines_from(text, 0, at) == lines_from(text, 0, text.len() as int),
    decreases text.len() - at,
{
    if at < text.len() {
        assert(text.contains(text[at]));
        lemma_no_line_feed(text, at + 1);
    }
}

/// The first line of a text ends at its first line feed, without the carriage return that may
/// stand before it; the other lines are those of what follows.
pub proof fn first_line_ends_at_the_first_line_feed(first: Seq<char>, rest: Seq<char>)
    requires
        !first.contains('\n'),
    ensures
        first.len() > 0 && first.last() == '\r' ==> lines_of(first + seq!['\n'] + rest) == seq![
            first.drop_last(),
        ] + lines_of(rest),
        first.len() == 0 || first.last() != '\r' ==> lines_of(first + seq!['\n'] + rest) == seq![
            first,
        ] + lines_of(rest),
{
    let text = first + seq!['\n'] + rest;
    lemma_up_to_line_feed(first, rest, 0);
    assert(text.subrange(0, first.len() as int) =~= first);
    lemma_lines_behind(first + seq!['\n'], rest, 0, 0);
    assert(first + seq!['\n'] + rest =~= text);
}

proof fn lemma_up_to_line_feed(first: Seq<char>, rest: Seq<char>, at: int)
    requires
        !first.contains('\n'),
        0 <= at <= first.len(),
    ensures
        lines_from(first + seq!['\n'] + rest, 0, at) == lines_from(
            first + seq!['\n'] + rest,
            0,
            first.len() as int,
        ),
    decreases first.len() - at,
{
    let text = first + seq!['\n'] + rest;
    if at < first.len() {
        assert(first.contains(first[at]));
        assert(text[at] == first[at]);
        lemma_up_to_line_feed(first, rest, at + 1);
    }
}

proof fn lemma_lines_behind(before: Seq<char>, text: Seq<char>, start: int, at: int)
    requires
        0 <= start <= at <= text.len(),
    ensures
        lines_from(before + text, before.len() + start, before.len() + at) == lines_from(
            text,
            start,
            at,
        ),
    decreases text.len() - at,
{
    let all = before + text;
    let n = before.len() as int;
    if at >= text.len() {
        assert(all.subrange(n + start, all.len() as int) =~= text.subrange(
            start,
            text.len() as int,
        ));
    } else {
        assert(all[n + at] == text[at]);
        if text[at] == '\n' {
            assert(all.subrange(n + start, n + at) =~= text.subrange(start, at));
            lemma_lines_behind(before, text, at + 1, at + 1);
        } else {
            lemma_lines_behind(before, text, start, at + 1);
        }
    }
}

/// No line holds a line feed.
pub proof fn no_line_holds_a_line_feed(text: Seq<char>)
    ensures
        forall|i: int| 0 <= i < lines_of(text).len() ==> !(#[trigger] lines_of(text)[i]).contains('\n'),
{
    lemma_no_feed_inside(text, 0, 0);
}

proof fn lemma_no_feed_inside(text: Seq<char>, start: int, at: int)
    requires
        0 <= start <= at <= text.len(),
        forall|i: int| start <= i < at ==> text[i] != '\n',
    ensures
        forall|i: int|
            0 <= i < lines_from(text, start, at).len() ==> !(#[trigger] lines_from(
                text,
                start,
                at,
            )[i]).contains('\n'),
    decreases text.len() - at,
{
    let lines = lines_from(text, start, at);
    if at >= text.len() {
        if start < text.len() {
            let line = text.subrange(start, text.len() as int);
            if line.contains('\n') {
                let k = choose|k: int| 0 <= k < line.len() && line[k] == '\n';
                assert(text[start + k] == '\n');
            }
            assert(lines == seq![line]);
            assert forall|i: int| 0 <= i < lines.len() implies !(#[trigger] lines[i]).contains(
                '\n',
            ) by {
                assert(lines[i] == line);
            }
        }
    } else if text[at] == '\n' {
        lemma_no_feed_inside(text, at + 1, at + 1);
        let raw = text.subrange(start, at);
        let line = without_cr(raw);
        if line.contains('\n') {
            let k = choose|k: int| 0 <= k < line.len() && line[k] == '\n';
            assert(raw[k] == '\n');
            assert(text[start + k] == '\n');
        }
        let rest = lines_from(text, at + 1, at + 1);
        assert forall|i: int| 0 <= i < lines.len() implies !(#[trigger] lines[i]).contains('\n') by {
            if i > 0 {
                assert(lines[i] == rest[i - 1]);
            }
        }
    } else {
        lemma_no_feed_inside(text, start, at + 1);
        assert(lines == lines_from(text, start, at + 1));
        assert forall|i: int| 0 <= i < lines.len() implies !(#[trigger] lines[i]).contains('\n') by {
            assert(lines[i] == lines_from(text, start, at + 1)[i]);
        }
    }
}

/// Tabs are written out one by one: a tab as four spaces, any other character as it is, and
/// what stands side by side side by side.
pub proof fn tabs_are_four_spaces(c: char, a: Seq<char>, b: Seq<char>)
    ensures
        tabs_expanded(seq![c]) == if c == '\t' {
            seq![' ', ' ', ' ', ' ']
        } else {
            seq![c]
        },
        tabs_expanded(a + b) == tabs_expanded(a) + tabs_expanded(b),
        !tabs_expanded(a).contains('\t'),
{
    let one = seq![c];
    assert(one.drop_last() =~= Seq::<char>::empty());
    assert(tabs_expanded(one.drop_last()) =~= Seq::<char>::empty());
    assert(tabs_expanded(one) =~= if c == '\t' {
        seq![' ', ' ', ' ', ' ']
    } else {
        seq![c]
    });
    lemma_tabs_side_by_side(a, b);
    lemma_no_tabs(a);
}

proof fn lemma_tabs_side_by_side(a: Seq<char>, b: Seq<char>)
    ensures
        tabs_expanded(a + b) == tabs_expanded(a) + tabs_expanded(b),
    decreases b.len(),
{
    if b.len() == 0 {
        assert(a + b =~= a);
        assert(tabs_expanded(a) + tabs_expanded(b) =~= tabs_expanded(a));
    } else {
        lemma_tabs_side_by_side(a, b.drop_last());
        assert((a + b).drop_last() =~= a + b.drop_last());
        assert(tabs_expanded(a + b) =~= tabs_expanded(a) + tabs_expanded(b));
    }
}

proof fn lemma_no_tabs(a: Seq<char>)
    ensures
        forall|i: int| 0 <= i < tabs_expanded(a).len() ==> tabs_expanded(a)[i] != '\t',
    decreases a.len(),
{
    if a.len() > 0 {
        lemma_no_tabs(a.drop_last());
        let rest = tabs_expanded(a.drop_last());
        let all = tabs_expanded(a);
        assert forall|i: int| 0 <= i < all.len() implies all[i] != '\t' by {
            if i < rest.len() {
                assert(all[i] == rest[i]);
            } else if a.last() == '\t' {
                assert(all[i] == seq![' ', ' ', ' ', ' '][i - rest.len()]);
            }
        }
    }
}

/// A line takes just the rows that its cells need: they do not fit in fewer, and do in these.
pub proof fn line_takes_the_rows_it_needs(cells: usize, width: u16)
    requires
        width > 0,
    ensures
        cells > 0 ==> (line_rows(cells, width) - 1) * width < cells <= line_rows(cells, width)
            * width,
        cells == 0 ==> line_rows(cells, width) == 1,
        cells > 0 ==> (word_rows(cells as int, width) - 1) * width < cells <= word_rows(
            cells as int,
            width,
        ) * width,
        cells == 0 ==> word_rows(cells as int, width) == 1,
{
    let w = width as int;
    if cells > 0 {
        let rows = (cells + w - 1) / w;
        assert((rows - 1) * w < cells <= rows * w) by (nonlinear_arith)
            requires
                w > 0,
                rows == (cells + w - 1) / w,
        ;
    } else {
        assert((1 + w - 1) / w == 1) by (nonlinear_arith)
            requires
                w > 0,
        ;
    }
}

/// A text is taken to have the rows of its first line and those of the text behind it.
pub proof fn estimated_rows_add_up<C: Fn(&str) -> usize>(
    cells: C,
    first: Seq<char>,
    rest: Seq<char>,
    width: u16,
)
    requires
        !first.contains('\n'),
        first.len() == 0 || first.last() != '\r',
        rest.len() > 0,
        width > 0,
    ensures
        estimated_rows(cells, first + seq!['\n'] + rest, width) == line_rows(
            text_cells(cells, first),
            width,
        ) + estimated_rows(cells, rest, width),
{
    first_line_ends_at_the_first_line_feed(first, rest);
    let lines = lines_of(rest);
    let all = seq![first] + lines;
    lemma_lines_rows_shifted(cells, first, lines, width, lines.len() as int);
    lemma_rows_of_lines(cells, lines, width, lines.len() as int);
    line_takes_the_rows_it_needs(text_cells(cells, first), width);
    lemma_some_line(rest, 0, 0);
    if text_cells(cells, first) > 0 {
        let rows = line_rows(text_cells(cells, first), width);
        assert(rows >= 1) by (nonlinear_arith)
            requires
                0 < rows * (width as int),
                width > 0,
        ;
    }
}

proof fn lemma_some_line(text: Seq<char>, start: int, at: int)
    requires
        0 <= start <= at <= text.len(),
        start < text.len(),
    ensures
        lines_from(text, start, at).len() > 0,
    decreases text.len() - at,
{
    if at < text.len() && text[at] != '\n' {
        lemma_some_line(text, start, at + 1);
    }
}

proof fn lemma_rows_of_lines<C: Fn(&str) -> usize>(
    cells: C,
    lines: Seq<Seq<char>>,
    width: u16,
    n: int,
)
    requires
        0 <= n,
        width > 0,
    ensures
        lines_rows(cells, lines, width, n) >= n,
{
    crate::estimate::every_line_has_a_row(cells, lines, width, n);
}

proof fn lemma_lines_rows_shifted<C: Fn(&str) -> usize>(
    cells: C,
    first: Seq<char>,
    lines: Seq<Seq<char>>,
    width: u16,
    n: int,
)
    requires
        0 <= n <= lines.len(),
    ensures
        lines_rows(cells, seq![first] + lines, width, n + 1) == line_rows(
            text_cells(cells, first),
            width,
        ) + lines_rows(cells, lines, width, n),
    decreases n,
{
    let all = seq![first] + lines;
    if n > 0 {
        lemma_lines_rows_shifted(cells, first, lines, width, n - 1);
        assert(all[n] == lines[n - 1]);
    } else {
        assert(all[0] == first);
        assert(lines_rows(cells, all, width, 0) == 0);
    }
}

/// Rows that the first `n` lines of an output take.
pub open spec fn output_above<W: Fn(&str, usize) -> usize>(
    wrap: W,
    lines: Seq<Seq<char>>,
    cols: usize,
    n: int,
) -> int
    decreases n,
{
    if n <= 0 {
        0
    } else {
        output_above(wrap, lines, cols, n - 1) + rows_of(wrap, tabs_expanded(lines[n - 1]), cols)
    }
}

proof fn lemma_output_row<W: Fn(&str, usize) -> usize>(
    wrap: W,
    lines: Seq<Seq<char>>,
    cols: usize,
    n: int,
    line: int,
    row: int,
)
    requires
        0 <= line < n <= lines.len(),
        0 <= row < rows_of(wrap, tabs_expanded(lines[line]), cols),
        n <= usize::MAX,
    ensures
        output_rows(wrap, lines, cols, n).len() == output_above(wrap, lines, cols, n),
        output_above(wrap, lines, cols, line) + row < output_above(wrap, lines, cols, n),
        0 <= output_above(wrap, lines, cols, line),
        output_rows(wrap, lines, cols, n)[output_above(wrap, lines, cols, line) + row] == (
        OutputRow::Line { line: line as usize, row: row as usize }),
    decreases n,
{
    lemma_output_len(wrap, lines, cols, n - 1);
    lemma_output_len(wrap, lines, cols, n);
    if line < n - 1 {
        lemma_output_row(wrap, lines, cols, n - 1, line, row);
    }
}

proof fn lemma_output_len<W: Fn(&str, usize) -> usize>(
    wrap: W,
    lines: Seq<Seq<char>>,
    cols: usize,
    n: int,
)
    requires
        0 <= n <= lines.len(),
    ensures
        output_rows(wrap, lines, cols, n).len() == output_above(wrap, lines, cols, n),
    decreases n,
{
    if n > 0 {
        lemma_output_len(wrap, lines, cols, n - 1);
    }
}

/// Every row of every line of an output has its place among the rows, in the order of the
/// lines; there are no others. Where not all are let through, the last are shown, each
/// where it would stand at the end of all, below a note that counts those that are not.
pub proof fn last_rows_of_an_output_are_shown<W: Fn(&str, usize) -> usize>(
    wrap: W,
    content: Seq<char>,
    cols: usize,
    max_rows: usize,
    line: int,
    row: int,
)
    requires
        all_rows(wrap, content, cols).len() <= usize::MAX,
        lines_of(content).len() <= usize::MAX,
        0 <= line < lines_of(content).len(),
        0 <= row < rows_of(wrap, tabs_expanded(lines_of(content)[line]), cols),
    ensures
        ({
            let lines = lines_of(content);
            let total = output_above(wrap, lines, cols, lines.len() as int);
            let shown = shown_rows(all_rows(wrap, content, cols), max_rows as int);
            let place = output_above(wrap, lines, cols, line) + row;
            &&& 0 <= place < total
            &&& total <= max_rows ==> shown.len() == total && shown[place] == (OutputRow::Line {
                line: line as usize,
                row: row as usize,
            })
            &&& total > max_rows ==> {
                &&& shown.len() == max_rows + 1
                &&& shown[0] == (OutputRow::Above { skipped: (total - max_rows) as usize })
                &&& place >= total - max_rows ==> shown[place - (total - max_rows) + 1] == (
                OutputRow::Line { line: line as usize, row: row as usize })
            }
        }),
{
    let lines = lines_of(content);
    lemma_output_row(wrap, lines, cols, lines.len() as int, line, row);
}

/// Of lines that take several rows each, just the rows that are asked for are drawn: row `row`
/// of line `i` is, if and only if its place among all rows is one of those asked for.
pub proof fn rows_asked_for_are_drawn(
    counts: Seq<usize>,
    row_start: usize,
    row_count: usize,
    i: int,
    row: int,
)
    requires
        0 <= i < counts.len(),
        0 <= row < counts[i],
    ensures
        ({
            let rows = crate::leaf_rows::line_rows(counts, row_start, row_count, i);
            let place = rows_before(counts, i) + row;
            (rows.from <= row < rows.to) <==> row_start <= place && (is_bounded(row_count) ==> place
                < row_start + row_count)
        }),
{
    crate::leaf_rows::lemma_rows_before(counts, 0, i);
}

} // verus!
