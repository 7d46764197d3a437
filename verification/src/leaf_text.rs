//! Leaves of text: plain text, markdown that is plain, and inline markdown. How many rows
//! they take, and what these are drawn with.
use vstd::prelude::*;
use crate::ir::{GutterSpec, MarkdownSpec, TextSpec};
use crate::leaf_rows::{clamped_rows, draw_rows, drawn, rows_in_all, total_rows, within};
use crate::line_ops::{
    add_gutter, add_op, add_op_if, gutter_steps, lemma_behind, steps, op_if, LineOp, LineStep,
};
use crate::text::{chars_of, expand_tabs, lines_of, split_lines, tabs_expanded, text_of, texts};

verus! {

/// `wrap` breaks a line into these rows.
pub open spec fn wraps_to<P: Fn(&str, u16) -> Vec<String>>(
    wrap: P,
    line: Seq<char>,
    width: u16,
    rows: Seq<Seq<char>>,
) -> bool {
    exists|s: &str, v: Vec<String>| #[trigger]
        call_ensures(wrap, (s, width), v) && s@ == line && texts(v@) == rows
}

/// The rows that `wrap` breaks a line into.
pub open spec fn wrapped<P: Fn(&str, u16) -> Vec<String>>(
    wrap: P,
    line: Seq<char>,
    width: u16,
) -> Seq<Seq<char>> {
    choose|rows: Seq<Seq<char>>| #[trigger] wraps_to(wrap, line, width, rows)
}

/// `wrap` breaks any line, and always in the same way.
pub open spec fn pure_wrap<P: Fn(&str, u16) -> Vec<String>>(wrap: P) -> bool {
    &&& forall|s: &str, width: u16| #[trigger] call_requires(wrap, (s, width))
    &&& forall|line: Seq<char>, width: u16, a: Seq<Seq<char>>, b: Seq<Seq<char>>|
        #[trigger] wraps_to(wrap, line, width, a) && #[trigger] wraps_to(wrap, line, width, b)
            ==> a == b
}

/// `count` says that a line with escape codes takes so many rows.
pub open spec fn counts_to<A: Fn(&str, u16) -> usize>(
    count: A,
    line: Seq<char>,
    width: u16,
    n: usize,
) -> bool {
    exists|s: &str| #[trigger] call_ensures(count, (s, width), n) && s@ == line
}

/// The rows that a line takes, as `count` says.
pub open spec fn counted<A: Fn(&str, u16) -> usize>(count: A, line: Seq<char>, width: u16) -> usize {
    choose|n: usize| #[trigger] counts_to(count, line, width, n)
}

/// `count` takes any line, and always says the same of it.
pub open spec fn pure_count<A: Fn(&str, u16) -> usize>(count: A) -> bool {
    &&& forall|s: &str, width: u16| #[trigger] call_requires(count, (s, width))
    &&& forall|line: Seq<char>, width: u16, a: usize, b: usize|
        #[trigger] counts_to(count, line, width, a) && #[trigger] counts_to(count, line, width, b)
            ==> a == b
}

/// The rows of a line of plain text, with its tabs as spaces.
pub open spec fn plain_rows<P: Fn(&str, u16) -> Vec<String>>(
    wrap: P,
    line: Seq<char>,
    width: u16,
) -> Seq<Seq<char>> {
    wrapped(wrap, tabs_expanded(line), width)
}

/// How many rows each line of plain text takes.
pub open spec fn plain_counts<P: Fn(&str, u16) -> Vec<String>>(
    wrap: P,
    content: Seq<char>,
    width: u16,
) -> Seq<usize> {
    lines_of(content).map_values(|line: Seq<char>| plain_rows(wrap, line, width).len() as usize)
}

/// How many rows each line of text with escape codes takes.
pub open spec fn ansi_counts<A: Fn(&str, u16) -> usize>(
    count: A,
    content: Seq<char>,
    width: u16,
) -> Seq<usize> {
    lines_of(content).map_values(|line: Seq<char>| counted(count, tabs_expanded(line), width))
}

/// How many rows each line of a text takes.
pub open spec fn text_counts<P: Fn(&str, u16) -> Vec<String>, A: Fn(&str, u16) -> usize>(
    wrap: P,
    count: A,
    spec: TextSpec,
    width: u16,
) -> Seq<usize> {
    if spec.ansi {
        ansi_counts(count, spec.content@, width)
    } else {
        plain_counts(wrap, spec.content@, width)
    }
}

fn wrap_plain_lines<P: Fn(&str, u16) -> Vec<String>>(content: &str, width: u16, wrap: &P) -> (rows:
    Vec<Vec<String>>)
    requires
        pure_wrap(*wrap),
    ensures
        rows@.len() == lines_of(content@).len(),
        forall|i: int|
            0 <= i < rows@.len() ==> texts((#[trigger] rows@[i])@) == plain_rows(
                *wrap,
                lines_of(content@)[i],
                width,
            ),
{
    let lines = split_lines(content);
    let mut rows: Vec<Vec<String>> = Vec::new();
    let mut i: usize = 0;
    while i < lines.len()
        invariant
            i <= lines@.len(),
            texts(lines@) == lines_of(content@),
            pure_wrap(*wrap),
            rows@.len() == i,
            forall|k: int|
                0 <= k < i ==> texts((#[trigger] rows@[k])@) == plain_rows(
                    *wrap,
                    lines_of(content@)[k],
                    width,
                ),
        decreases lines@.len() - i,
    {
        let expanded = expand_tabs(lines[i].as_str());
        let pieces = wrap(expanded.as_str(), width);
        proof {
            assert(texts(lines@)[i as int] == lines@[i as int]@);
            assert(wraps_to(*wrap, expanded@, width, texts(pieces@)));
        }
        rows.push(pieces);
        i += 1;
    }
    proof {
        assert(texts(lines@).len() == lines@.len());
    }
    rows
}

fn lengths(rows: &Vec<Vec<String>>) -> (counts: Vec<usize>)
    ensures
        counts@.len() == rows@.len(),
        forall|i: int| 0 <= i < rows@.len() ==> #[trigger] counts@[i] == rows@[i]@.len(),
{
    let mut counts: Vec<usize> = Vec::new();
    let mut i: usize = 0;
    while i < rows.len()
        invariant
            i <= rows@.len(),
            counts@.len() == i,
            forall|k: int| 0 <= k < i ==> #[trigger] counts@[k] == rows@[k]@.len(),
        decreases rows@.len() - i,
    {
        counts.push(rows[i].len());
        i += 1;
    }
    counts
}

fn count_ansi_lines<A: Fn(&str, u16) -> usize>(content: &str, width: u16, count: &A) -> (counts:
    Vec<usize>)
    requires
        pure_count(*count),
    ensures
        counts@ == ansi_counts(*count, content@, width),
{
    let lines = split_lines(content);
    let mut counts: Vec<usize> = Vec::new();
    let mut i: usize = 0;
    let ghost all = ansi_counts(*count, content@, width);
    while i < lines.len()
        invariant
            i <= lines@.len(),
            texts(lines@) == lines_of(content@),
            pure_count(*count),
            counts@.len() == i,
            all == ansi_counts(*count, content@, width),
            forall|k: int| 0 <= k < i ==> #[trigger] counts@[k] == all[k],
        decreases lines@.len() - i,
    {
        proof {
            assert(texts(lines@)[i as int] == lines@[i as int]@);
        }
        let expanded = expand_tabs(lines[i].as_str());
        let n = count(expanded.as_str(), width);
        proof {
            assert(counts_to(*count, expanded@, width, n));
        }
        counts.push(n);
        i += 1;
    }
    proof {
        assert(texts(lines@).len() == lines@.len());
        assert(counts@ =~= all);
    }
    counts
}

fn counts_of_text<P: Fn(&str, u16) -> Vec<String>, A: Fn(&str, u16) -> usize>(
    spec: &TextSpec,
    width: u16,
    wrap: &P,
    count: &A,
) -> (counts: Vec<usize>)
    requires
        pure_wrap(*wrap),
        pure_count(*count),
    ensures
        counts@ == text_counts(*wrap, *count, *spec, width),
{
    if spec.ansi {
        count_ansi_lines(spec.content.as_str(), width, count)
    } else {
        let rows = wrap_plain_lines(spec.content.as_str(), width, wrap);
        let counts = lengths(&rows);
        proof {
            lemma_lengths(*wrap, spec.content@, width, rows@, counts@);
        }
        counts
    }
}

proof fn lemma_lengths<P: Fn(&str, u16) -> Vec<String>>(
    wrap: P,
    content: Seq<char>,
    width: u16,
    rows: Seq<Vec<String>>,
    counts: Seq<usize>,
)
    requires
        rows.len() == lines_of(content).len(),
        forall|i: int|
            0 <= i < rows.len() ==> texts((#[trigger] rows[i])@) == plain_rows(
                wrap,
                lines_of(content)[i],
                width,
            ),
        counts.len() == rows.len(),
        forall|i: int| 0 <= i < rows.len() ==> #[trigger] counts[i] == rows[i]@.len(),
    ensures
        counts == plain_counts(wrap, content, width),
{
    let all = plain_counts(wrap, content, width);
    assert forall|i: int| 0 <= i < counts.len() implies counts[i] == all[i] by {
        assert(texts(rows[i]@).len() == rows[i]@.len());
        assert(counts[i] == rows[i]@.len());
    }
    assert(counts =~= all);
}

/// How many rows a text takes, as far as they can be counted.
pub fn measure_text_spec<P: Fn(&str, u16) -> Vec<String>, A: Fn(&str, u16) -> usize>(
    spec: &TextSpec,
    width: u16,
    wrap: &P,
    count: &A,
) -> (rows: usize)
    requires
        pure_wrap(*wrap),
        pure_count(*count),
    ensures
        rows == clamped_rows(rows_in_all(text_counts(*wrap, *count, *spec, width))),
{
    total_rows(&counts_of_text(spec, width, wrap, count))
}

/// What opens the style of a text: that of its group, or a dim one.
pub open spec fn text_style_step(hl_group: Option<String>) -> LineStep {
    match hl_group {
        Some(name) => LineStep::PushHl(name@),
        None => LineStep::PushDim,
    }
}

/// What row `row` of line `line` of a text is drawn with; `body` is its text.
pub open spec fn text_row_steps(
    hl_group: Option<String>,
    gutter: Option<&GutterSpec>,
    row: int,
    body: LineStep,
) -> Seq<LineStep> {
    seq![LineStep::Row { continuation: row > 0 }] + gutter_steps(gutter, false) + seq![
        text_style_step(hl_group),
    ] + gutter_steps(gutter, true) + seq![body, LineStep::PopStyle, LineStep::Newline]
}

fn text_row(hl_group: &Option<String>, gutter: Option<&GutterSpec>, row: usize, body: LineOp) -> (
ops: Vec<LineOp>)
    ensures
        steps(ops@) == text_row_steps(*hl_group, gutter, row as int, body@),
{
    let ghost body_step = body@;
    let mut ops: Vec<LineOp> = Vec::new();
    proof {
        assert(steps(ops@) =~= Seq::<LineStep>::empty());
    }
    add_op(&mut ops, LineOp::Row { continuation: row > 0 });
    add_gutter(&mut ops, gutter, false);
    match hl_group {
        Some(name) => add_op(&mut ops, LineOp::PushHl(name.clone())),
        None => add_op(&mut ops, LineOp::PushDim),
    }
    add_gutter(&mut ops, gutter, true);
    add_op(&mut ops, body);
    add_op(&mut ops, LineOp::PopStyle);
    add_op(&mut ops, LineOp::Newline);
    proof {
        assert(steps(ops@) =~= text_row_steps(*hl_group, gutter, row as int, body_step));
    }
    ops
}

/// What row `row` of line `line` of a text holds.
pub open spec fn text_body<P: Fn(&str, u16) -> Vec<String>>(
    wrap: P,
    spec: TextSpec,
    width: u16,
    line: int,
    row: int,
) -> LineStep {
    if spec.ansi {
        LineStep::AnsiRow { line: line as usize, row: row as usize }
    } else {
        LineStep::Print(plain_rows(wrap, lines_of(spec.content@)[line], width)[row])
    }
}

/// Draws the `row_count` rows of a text from `row_start` on.
pub fn render_text_spec<P: Fn(&str, u16) -> Vec<String>, A: Fn(&str, u16) -> usize>(
    spec: &TextSpec,
    width: u16,
    row_start: usize,
    row_count: usize,
    gutter: Option<&GutterSpec>,
    wrap: &P,
    count: &A,
) -> (ops: Vec<LineOp>)
    requires
        pure_wrap(*wrap),
        pure_count(*count),
        rows_in_all(text_counts(*wrap, *count, *spec, width)) <= usize::MAX,
    ensures
        steps(ops@) == drawn(
            text_counts(*wrap, *count, *spec, width),
            row_start,
            row_count,
            |line: int, row: int|
                text_row_steps(
                    spec.hl_group,
                    gutter,
                    row,
                    text_body(*wrap, *spec, width, line, row),
                ),
        ),
{
    let ghost row_of = |line: int, row: int|
        text_row_steps(spec.hl_group, gutter, row, text_body(*wrap, *spec, width, line, row));
    if spec.ansi {
        let counts = counts_of_text(spec, width, wrap, count);
        let draw = |line: usize, row: usize| -> (ops: Vec<LineOp>)
            ensures
                steps(ops@) == text_row_steps(
                    spec.hl_group,
                    gutter,
                    row as int,
                    LineStep::AnsiRow { line, row },
                ),
            { text_row(&spec.hl_group, gutter, row, LineOp::AnsiRow { line, row }) };
        draw_rows(&counts, row_start, row_count, &draw, Ghost(row_of))
    } else {
        let rows = wrap_plain_lines(spec.content.as_str(), width, wrap);
        let counts = lengths(&rows);
        proof {
            lemma_lengths(*wrap, spec.content@, width, rows@, counts@);
        }
        let draw = |line: usize, row: usize| -> (ops: Vec<LineOp>)
            requires
                line < rows@.len(),
                row < rows@[line as int]@.len(),
            ensures
                steps(ops@) == text_row_steps(
                    spec.hl_group,
                    gutter,
                    row as int,
                    LineStep::Print(rows@[line as int]@[row as int]@),
                ),
            { text_row(&spec.hl_group, gutter, row, LineOp::Print(rows[line][row].clone())) };
        proof {
            assert forall|i: usize, r: usize, out: Vec<LineOp>|
                i < counts@.len() && r < counts@[i as int] && #[trigger] call_ensures(
                    draw,
                    (i, r),
                    out,
                ) implies steps(out@) == row_of(i as int, r as int) by {
                let line = rows@[i as int];
                assert(counts@[i as int] == line@.len());
                assert(texts(line@)[r as int] == line@[r as int]@);
                assert(texts(rows@[i as int]@) == plain_rows(
                    *wrap,
                    lines_of(spec.content@)[i as int],
                    width,
                ));
            }
        }
        draw_rows(&counts, row_start, row_count, &draw, Ghost(row_of))
    }
}

/// A character that markdown gives a meaning.
pub open spec fn is_markdown_char(c: char) -> bool {
    c == '\\' || c == '`' || c == '*' || c == '_' || c == '[' || c == ']' || c == '(' || c == ')'
        || c == '#' || c == '>' || c == '-' || c == '+' || c == '=' || c == '|' || c == '~' || c
        == '!' || c == '&' || c == '<'
}

/// Whether markdown reads as plain text: one line of something, without any character of
/// markdown.
pub open spec fn is_plain_markdown(content: Seq<char>) -> bool {
    content.len() > 0 && forall|i: int|
        0 <= i < content.len() ==> #[trigger] content[i] != '\n' && !is_markdown_char(content[i])
}

fn markdown_char(c: char) -> (r: bool)
    ensures
        r == is_markdown_char(c),
{
    c == '\\' || c == '`' || c == '*' || c == '_' || c == '[' || c == ']' || c == '(' || c == ')'
        || c == '#' || c == '>' || c == '-' || c == '+' || c == '=' || c == '|' || c == '~' || c
        == '!' || c == '&' || c == '<'
}

/// Whether markdown reads as plain text.
pub fn can_render_markdown_as_plain(content: &str) -> (r: bool)
    ensures
        r == is_plain_markdown(content@),
{
    let chars = chars_of(content);
    if chars.len() == 0 {
        return false;
    }
    let mut i: usize = 0;
    while i < chars.len()
        invariant
            i <= chars@.len(),
            chars@ == content@,
            forall|k: int|
                0 <= k < i ==> #[trigger] chars@[k] != '\n' && !is_markdown_char(chars@[k]),
        decreases chars@.len() - i,
    {
        if chars[i] == '\n' || markdown_char(chars[i]) {
            proof {
                assert(content@[i as int] == '\n' || is_markdown_char(content@[i as int]));
            }
            return false;
        }
        i += 1;
    }
    true
}

/// Whether a text is one word of visible ASCII characters.
pub open spec fn is_ascii_word(content: Seq<char>) -> bool {
    forall|i: int| 0 <= i < content.len() ==> '!' <= #[trigger] content[i] <= '~'
}

/// Whether a text is one word of visible ASCII characters.
pub fn plain_markdown_is_single_ascii_word(content: &str) -> (r: bool)
    ensures
        r == is_ascii_word(content@),
{
    let chars = chars_of(content);
    let mut i: usize = 0;
    while i < chars.len()
        invariant
            i <= chars@.len(),
            chars@ == content@,
            forall|k: int| 0 <= k < i ==> '!' <= #[trigger] chars@[k] <= '~',
        decreases chars@.len() - i,
    {
        if chars[i] < '!' || chars[i] > '~' {
            proof {
                assert(!('!' <= content@[i as int] <= '~'));
            }
            return false;
        }
        i += 1;
    }
    true
}

/// At least one column.
pub open spec fn columns(width: u16) -> int {
    if width < 1 {
        1
    } else {
        width as int
    }
}

/// Rows of a word of `len` cells, at least one.
pub open spec fn word_rows(len: int, width: u16) -> int {
    ((if len < 1 {
        1
    } else {
        len
    }) + columns(width) - 1) / columns(width)
}

/// Rows of a word of `len` cells, at least one.
pub fn ascii_word_rows(len: usize, width: u16) -> (rows: usize)
    ensures
        rows == word_rows(len as int, width),
        rows >= 1,
{
    let cols: usize = if width < 1 {
        1
    } else {
        width as usize
    };
    let filled: usize = if len < 1 {
        1
    } else {
        len
    };
    proof {
        assert((filled - 1) / cols as int + 1 == (filled + cols - 1) / cols as int)
            by (nonlinear_arith)
            requires
                cols >= 1,
                filled >= 1,
        ;
        assert(0 <= (filled - 1) / cols as int <= filled - 1) by (nonlinear_arith)
            requires
                cols >= 1,
                filled >= 1,
        ;
    }
    (filled - 1) / cols + 1
}

/// The characters of row `row` of a word.
pub open spec fn word_row(content: Seq<char>, width: u16, row: int) -> Seq<char> {
    let start = within(row * columns(width), content.len() as int);
    content.subrange(start, within(start + columns(width), content.len() as int))
}

/// What a row of plain markdown is drawn with.
pub open spec fn markdown_text_steps(
    dim: bool,
    italic: bool,
    gutter: Option<&GutterSpec>,
    text: Seq<char>,
) -> Seq<LineStep> {
    gutter_steps(gutter, false) + op_if(dim, LineStep::PushDim) + op_if(
        italic,
        LineStep::SaveStyle,
    ) + op_if(italic, LineStep::SetItalic) + gutter_steps(gutter, true) + seq![
        LineStep::Print(text),
    ] + op_if(italic, LineStep::PopStyle) + op_if(dim, LineStep::PopStyle)
}

/// Adds a row of plain markdown.
pub fn emit_plain_markdown_slice(
    ops: &mut Vec<LineOp>,
    dim: bool,
    italic: bool,
    gutter: Option<&GutterSpec>,
    text: String,
)
    ensures
        steps(final(ops)@) == steps(old(ops)@) + markdown_text_steps(dim, italic, gutter, text@),
{
    let ghost before = steps(ops@);
    let ghost content = text@;
    add_gutter(ops, gutter, false);
    add_op_if(ops, dim, LineOp::PushDim);
    add_op_if(ops, italic, LineOp::SaveStyle);
    add_op_if(ops, italic, LineOp::SetItalic);
    let ghost opened = gutter_steps(gutter, false) + op_if(dim, LineStep::PushDim) + op_if(
        italic,
        LineStep::SaveStyle,
    ) + op_if(italic, LineStep::SetItalic);
    proof {
        assert(steps(ops@) =~= before + opened);
    }
    add_gutter(ops, gutter, true);
    add_op(ops, LineOp::Print(text));
    add_op_if(ops, italic, LineOp::PopStyle);
    add_op_if(ops, dim, LineOp::PopStyle);
    proof {
        assert(steps(ops@) =~= before + (opened + gutter_steps(gutter, true) + seq![
            LineStep::Print(content),
        ] + op_if(italic, LineStep::PopStyle) + op_if(dim, LineStep::PopStyle)));
    }
}

/// What row `row` of a line of plain markdown is drawn with.
pub open spec fn plain_markdown_row_steps(
    dim: bool,
    italic: bool,
    gutter: Option<&GutterSpec>,
    row: int,
    text: Seq<char>,
) -> Seq<LineStep> {
    seq![LineStep::Row { continuation: row > 0 }] + markdown_text_steps(dim, italic, gutter, text)
        + seq![LineStep::Newline]
}

/// What the rows `from .. to` of a word are drawn with.
pub open spec fn word_steps(
    spec: MarkdownSpec,
    gutter: Option<&GutterSpec>,
    width: u16,
    from: int,
    to: int,
) -> Seq<LineStep>
    decreases to - from,
{
    if to <= from {
        Seq::empty()
    } else {
        word_steps(spec, gutter, width, from, to - 1) + markdown_text_steps(
            spec.dim,
            spec.italic,
            gutter,
            word_row(spec.content@, width, to - 1),
        ) + seq![LineStep::Newline]
    }
}

/// What the `row_count` rows of a word from `row_start` on are drawn with.
pub open spec fn drawn_word(
    spec: MarkdownSpec,
    gutter: Option<&GutterSpec>,
    width: u16,
    row_start: usize,
    row_count: usize,
) -> Seq<LineStep> {
    let total = word_rows(spec.content@.len() as int, width);
    if row_count == 0 {
        Seq::empty()
    } else {
        op_if(total > 1, LineStep::MarkWrapped) + word_steps(
            spec,
            gutter,
            width,
            row_start as int,
            if row_start + row_count < total {
                row_start + row_count
            } else {
                total
            },
        )
    }
}

fn render_plain_markdown_ascii_word(
    spec: &MarkdownSpec,
    width: u16,
    row_start: usize,
    row_count: usize,
    gutter: Option<&GutterSpec>,
) -> (ops: Vec<LineOp>)
    ensures
        steps(ops@) == drawn_word(*spec, gutter, width, row_start, row_count),
{
    let mut ops: Vec<LineOp> = Vec::new();
    proof {
        assert(steps(ops@) =~= Seq::<LineStep>::empty());
    }
    if row_count == 0 {
        return ops;
    }
    let cols: usize = if width < 1 {
        1
    } else {
        width as usize
    };
    let chars = chars_of(spec.content.as_str());
    let total = ascii_word_rows(chars.len(), width);
    add_op_if(&mut ops, total > 1, LineOp::MarkWrapped);
    let end = if row_start < total && row_count < total - row_start {
        row_start + row_count
    } else {
        total
    };
    let ghost marked = steps(ops@);
    let mut row: usize = row_start;
    proof {
        assert(marked =~= op_if(total > 1, LineStep::MarkWrapped));
        assert(marked + word_steps(*spec, gutter, width, row as int, row as int) =~= marked);
    }
    while row < end
        invariant
            row_start <= row,
            row <= end || row == row_start,
            end <= total,
            chars@ == spec.content@,
            cols == columns(width),
            total == word_rows(chars@.len() as int, width),
            steps(ops@) == marked + word_steps(
                *spec,
                gutter,
                width,
                row_start as int,
                row as int,
            ),
        decreases end - row,
    {
        let start = match row.checked_mul(cols) {
            Some(at) => if at < chars.len() {
                at
            } else {
                chars.len()
            },
            None => chars.len(),
        };
        let stop = if chars.len() - start < cols {
            chars.len()
        } else {
            start + cols
        };
        let ghost before = steps(ops@);
        proof {
            assert(row * cols >= 0) by (nonlinear_arith)
                requires
                    row >= 0,
                    cols >= 1,
            ;
        }
        let text = text_of(&chars, start, stop);
        proof {
            assert(text@ == word_row(spec.content@, width, row as int));
        }
        emit_plain_markdown_slice(&mut ops, spec.dim, spec.italic, gutter, text);
        add_op(&mut ops, LineOp::Newline);
        proof {
            let so_far = word_steps(*spec, gutter, width, row_start as int, row as int);
            let added = markdown_text_steps(
                spec.dim,
                spec.italic,
                gutter,
                word_row(spec.content@, width, row as int),
            );
            lemma_behind(marked, so_far, added);
            lemma_behind(marked, so_far + added, seq![LineStep::Newline]);
            assert(word_steps(*spec, gutter, width, row_start as int, row + 1) == so_far + added
                + seq![LineStep::Newline]);
        }
        row += 1;
    }
    proof {
        if end <= row_start {
            assert(word_steps(*spec, gutter, width, row_start as int, end as int) =~= Seq::<
                LineStep,
            >::empty());
            assert(steps(ops@) =~= marked);
        }
    }
    ops
}

/// What plain markdown is drawn with.
pub open spec fn drawn_plain_markdown<P: Fn(&str, u16) -> Vec<String>>(
    wrap: P,
    spec: MarkdownSpec,
    gutter: Option<&GutterSpec>,
    width: u16,
    row_start: usize,
    row_count: usize,
) -> Seq<LineStep> {
    if is_ascii_word(spec.content@) {
        drawn_word(spec, gutter, width, row_start, row_count)
    } else {
        drawn(
            plain_counts(wrap, spec.content@, width),
            row_start,
            row_count,
            |line: int, row: int|
                plain_markdown_row_steps(
                    spec.dim,
                    spec.italic,
                    gutter,
                    row,
                    plain_rows(wrap, lines_of(spec.content@)[line], width)[row],
                ),
        )
    }
}

fn plain_markdown_row(
    dim: bool,
    italic: bool,
    gutter: Option<&GutterSpec>,
    row: usize,
    text: String,
) -> (ops: Vec<LineOp>)
    ensures
        steps(ops@) == plain_markdown_row_steps(dim, italic, gutter, row as int, text@),
{
    let ghost content = text@;
    let mut ops: Vec<LineOp> = Vec::new();
    proof {
        assert(steps(ops@) =~= Seq::<LineStep>::empty());
    }
    add_op(&mut ops, LineOp::Row { continuation: row > 0 });
    emit_plain_markdown_slice(&mut ops, dim, italic, gutter, text);
    add_op(&mut ops, LineOp::Newline);
    proof {
        assert(steps(ops@) =~= plain_markdown_row_steps(
            dim,
            italic,
            gutter,
            row as int,
            content,
        ));
    }
    ops
}

/// Draws the `row_count` rows of plain markdown from `row_start` on.
pub fn render_plain_markdown_spec<P: Fn(&str, u16) -> Vec<String>>(
    spec: &MarkdownSpec,
    width: u16,
    row_start: usize,
    row_count: usize,
    gutter: Option<&GutterSpec>,
    wrap: &P,
) -> (ops: Vec<LineOp>)
    requires
        pure_wrap(*wrap),
        !is_ascii_word(spec.content@) ==> rows_in_all(plain_counts(*wrap, spec.content@, width))
            <= usize::MAX,
    ensures
        steps(ops@) == drawn_plain_markdown(*wrap, *spec, gutter, width, row_start, row_count),
{
    if plain_markdown_is_single_ascii_word(spec.content.as_str()) {
        return render_plain_markdown_ascii_word(spec, width, row_start, row_count, gutter);
    }
    let rows = wrap_plain_lines(spec.content.as_str(), width, wrap);
    let counts = lengths(&rows);
    let ghost row_of = |line: int, row: int|
        plain_markdown_row_steps(
            spec.dim,
            spec.italic,
            gutter,
            row,
            plain_rows(*wrap, lines_of(spec.content@)[line], width)[row],
        );
    proof {
        lemma_lengths(*wrap, spec.content@, width, rows@, counts@);
    }
    let draw = |line: usize, row: usize| -> (ops: Vec<LineOp>)
        requires
            line < rows@.len(),
            row < rows@[line as int]@.len(),
        ensures
            steps(ops@) == plain_markdown_row_steps(
                spec.dim,
                spec.italic,
                gutter,
                row as int,
                rows@[line as int]@[row as int]@,
            ),
        { plain_markdown_row(spec.dim, spec.italic, gutter, row, rows[line][row].clone()) };
    proof {
        assert forall|i: usize, r: usize, out: Vec<LineOp>|
            i < counts@.len() && r < counts@[i as int] && #[trigger] call_ensures(
                draw,
                (i, r),
                out,
            ) implies steps(out@) == row_of(i as int, r as int) by {
            let line = rows@[i as int];
            assert(counts@[i as int] == line@.len());
            assert(texts(line@)[r as int] == line@[r as int]@);
            assert(texts(rows@[i as int]@) == plain_rows(
                *wrap,
                lines_of(spec.content@)[i as int],
                width,
            ));
        }
    }
    draw_rows(&counts, row_start, row_count, &draw, Ghost(row_of))
}

/// How many rows plain markdown takes, as far as they can be counted.
pub open spec fn plain_markdown_rows<P: Fn(&str, u16) -> Vec<String>>(
    wrap: P,
    content: Seq<char>,
    width: u16,
) -> int {
    if is_ascii_word(content) {
        word_rows(content.len() as int, width)
    } else {
        rows_in_all(plain_counts(wrap, content, width))
    }
}

/// How many rows plain markdown takes, as far as they can be counted.
pub fn measure_plain_markdown_spec<P: Fn(&str, u16) -> Vec<String>>(
    spec: &MarkdownSpec,
    width: u16,
    wrap: &P,
) -> (rows: usize)
    requires
        pure_wrap(*wrap),
    ensures
        rows == clamped_rows(plain_markdown_rows(*wrap, spec.content@, width)),
{
    if plain_markdown_is_single_ascii_word(spec.content.as_str()) {
        let chars = chars_of(spec.content.as_str());
        return ascii_word_rows(chars.len(), width);
    }
    let rows = wrap_plain_lines(spec.content.as_str(), width, wrap);
    let counts = lengths(&rows);
    proof {
        lemma_lengths(*wrap, spec.content@, width, rows@, counts@);
    }
    total_rows(&counts)
}

/// The gutter of a row of inline markdown: in the style of the text where it is styled.
pub open spec fn inline_gutter_steps(dim: bool, italic: bool, gutter: Option<&GutterSpec>) -> Seq<
    LineStep,
> {
    match gutter {
        Some(gutter) => if gutter.styled {
            seq![LineStep::SaveStyle] + op_if(dim, LineStep::SetDim) + op_if(
                italic,
                LineStep::SetItalic,
            ) + seq![LineStep::Gutter(gutter.text@), LineStep::PopStyle]
        } else {
            seq![LineStep::Gutter(gutter.text@)]
        },
        None => Seq::empty(),
    }
}

/// What row `row` of line `line` of inline markdown is drawn with.
pub open spec fn inline_row_steps(
    dim: bool,
    italic: bool,
    gutter: Option<&GutterSpec>,
    line: int,
    row: int,
) -> Seq<LineStep> {
    seq![LineStep::Row { continuation: row > 0 }] + inline_gutter_steps(dim, italic, gutter)
        + seq![
        LineStep::InlineRow { line: line as usize, row: row as usize },
        LineStep::Newline,
    ]
}

fn inline_row(dim: bool, italic: bool, gutter: Option<&GutterSpec>, line: usize, row: usize) -> (ops:
    Vec<LineOp>)
    ensures
        steps(ops@) == inline_row_steps(dim, italic, gutter, line as int, row as int),
{
    let mut ops: Vec<LineOp> = Vec::new();
    proof {
        assert(steps(ops@) =~= Seq::<LineStep>::empty());
    }
    add_op(&mut ops, LineOp::Row { continuation: row > 0 });
    let ghost begun = steps(ops@);
    if let Some(gutter) = gutter {
        if gutter.styled {
            add_op(&mut ops, LineOp::SaveStyle);
            add_op_if(&mut ops, dim, LineOp::SetDim);
            add_op_if(&mut ops, italic, LineOp::SetItalic);
            add_op(&mut ops, LineOp::Gutter(gutter.text.clone()));
            add_op(&mut ops, LineOp::PopStyle);
        } else {
            add_op(&mut ops, LineOp::Gutter(gutter.text.clone()));
        }
    }
    proof {
        assert(steps(ops@) =~= begun + inline_gutter_steps(dim, italic, gutter));
    }
    add_op(&mut ops, LineOp::InlineRow { line, row });
    add_op(&mut ops, LineOp::Newline);
    proof {
        assert(steps(ops@) =~= inline_row_steps(dim, italic, gutter, line as int, row as int));
    }
    ops
}

/// `count` says that a line of inline markdown, dim or italic, takes so many rows.
pub open spec fn inline_counts_to<I: Fn(&str, bool, bool, u16) -> usize>(
    count: I,
    line: Seq<char>,
    dim: bool,
    italic: bool,
    width: u16,
    n: usize,
) -> bool {
    exists|s: &str| #[trigger] call_ensures(count, (s, dim, italic, width), n) && s@ == line
}

/// The rows that a line of inline markdown takes, as `count` says.
pub open spec fn inline_counted<I: Fn(&str, bool, bool, u16) -> usize>(
    count: I,
    line: Seq<char>,
    dim: bool,
    italic: bool,
    width: u16,
) -> usize {
    choose|n: usize| #[trigger] inline_counts_to(count, line, dim, italic, width, n)
}

/// `count` takes any line of inline markdown, and always says the same of it.
pub open spec fn pure_inline<I: Fn(&str, bool, bool, u16) -> usize>(count: I) -> bool {
    &&& forall|s: &str, dim: bool, italic: bool, width: u16| #[trigger]
        call_requires(count, (s, dim, italic, width))
    &&& forall|line: Seq<char>, dim: bool, italic: bool, width: u16, a: usize, b: usize|
        #[trigger] inline_counts_to(count, line, dim, italic, width, a) && #[trigger]
            inline_counts_to(count, line, dim, italic, width, b) ==> a == b
}

/// How many rows each line of inline markdown takes; there is at least one column.
pub open spec fn inline_counts<I: Fn(&str, bool, bool, u16) -> usize>(
    count: I,
    content: Seq<char>,
    dim: bool,
    italic: bool,
    width: u16,
) -> Seq<usize> {
    lines_of(content).map_values(
        |line: Seq<char>| inline_counted(count, line, dim, italic, columns(width) as u16),
    )
}

fn counts_of_inline<I: Fn(&str, bool, bool, u16) -> usize>(
    content: &str,
    dim: bool,
    italic: bool,
    width: u16,
    count: &I,
) -> (counts: Vec<usize>)
    requires
        pure_inline(*count),
    ensures
        counts@ == inline_counts(*count, content@, dim, italic, width),
{
    let cols: u16 = if width < 1 {
        1
    } else {
        width
    };
    let lines = split_lines(content);
    let mut counts: Vec<usize> = Vec::new();
    let mut i: usize = 0;
    let ghost all = inline_counts(*count, content@, dim, italic, width);
    while i < lines.len()
        invariant
            i <= lines@.len(),
            texts(lines@) == lines_of(content@),
            pure_inline(*count),
            cols == columns(width),
            counts@.len() == i,
            all == inline_counts(*count, content@, dim, italic, width),
            forall|k: int| 0 <= k < i ==> #[trigger] counts@[k] == all[k],
        decreases lines@.len() - i,
    {
        proof {
            assert(texts(lines@)[i as int] == lines@[i as int]@);
        }
        let line = lines[i].as_str();
        let n = count(line, dim, italic, cols);
        proof {
            assert(inline_counts_to(*count, line@, dim, italic, cols, n));
        }
        counts.push(n);
        i += 1;
    }
    proof {
        assert(texts(lines@).len() == lines@.len());
        assert(counts@ =~= all);
    }
    counts
}

/// How many rows inline markdown takes, as far as they can be counted; `count` says it of a
/// line.
pub fn measure_inline_markdown_spec<I: Fn(&str, bool, bool, u16) -> usize>(
    content: &str,
    dim: bool,
    italic: bool,
    width: u16,
    count: &I,
) -> (rows: usize)
    requires
        pure_inline(*count),
    ensures
        rows == clamped_rows(rows_in_all(inline_counts(*count, content@, dim, italic, width))),
{
    total_rows(&counts_of_inline(content, dim, italic, width, count))
}

/// Draws the `row_count` rows from `row_start` on of inline markdown whose lines take so many
/// rows each.
pub fn render_counted_inline_rows(
    counts: &Vec<usize>,
    dim: bool,
    italic: bool,
    row_start: usize,
    row_count: usize,
    gutter: Option<&GutterSpec>,
) -> (ops: Vec<LineOp>)
    requires
        rows_in_all(counts@) <= usize::MAX,
    ensures
        steps(ops@) == drawn(
            counts@,
            row_start,
            row_count,
            |line: int, row: int| inline_row_steps(dim, italic, gutter, line, row),
        ),
{
    let ghost row_of = |line: int, row: int| inline_row_steps(dim, italic, gutter, line, row);
    let draw = |line: usize, row: usize| -> (ops: Vec<LineOp>)
        ensures
            steps(ops@) == inline_row_steps(dim, italic, gutter, line as int, row as int),
        { inline_row(dim, italic, gutter, line, row) };
    draw_rows(counts, row_start, row_count, &draw, Ghost(row_of))
}

/// Draws the `row_count` rows of inline markdown from `row_start` on.
pub fn render_inline_markdown_spec<I: Fn(&str, bool, bool, u16) -> usize>(
    content: &str,
    dim: bool,
    italic: bool,
    width: u16,
    row_start: usize,
    row_count: usize,
    gutter: Option<&GutterSpec>,
    count: &I,
) -> (ops: Vec<LineOp>)
    requires
        pure_inline(*count),
        rows_in_all(inline_counts(*count, content@, dim, italic, width)) <= usize::MAX,
    ensures
        steps(ops@) == drawn(
            inline_counts(*count, content@, dim, italic, width),
            row_start,
            row_count,
            |line: int, row: int| inline_row_steps(dim, italic, gutter, line, row),
        ),
{
    let counts = counts_of_inline(content, dim, italic, width, count);
    render_counted_inline_rows(&counts, dim, italic, row_start, row_count, gutter)
}

/// The rows of a word hold all of it: together they are the word.
pub proof fn word_rows_hold_word(content: Seq<char>, width: u16, i: int)
    requires
        0 <= i < content.len(),
    ensures
        ({
            let row = i / columns(width);
            &&& 0 <= row < word_rows(content.len() as int, width)
            &&& 0 <= i - row * columns(width) < word_row(content, width, row).len()
            &&& word_row(content, width, row)[i - row * columns(width)] == content[i]
        }),
{
    let cols = columns(width);
    let row = i / cols;
    let n = content.len() as int;
    vstd::arithmetic::div_mod::lemma_fundamental_div_mod(i, cols);
    vstd::arithmetic::div_mod::lemma_mod_bound(i, cols);
    vstd::arithmetic::div_mod::lemma_div_pos_is_pos(i, cols);
    assert(cols * row == row * cols) by (nonlinear_arith);
    assert(row * cols >= 0) by (nonlinear_arith)
        requires
            row >= 0,
            cols >= 1,
    ;
    assert(row < (n + cols - 1) / cols) by (nonlinear_arith)
        requires
            row == i / cols,
            0 <= i < n,
            cols >= 1,
    ;
}

} // verus!
