//! Rows of highlighted code: fenced blocks, source files and shell lines.
use vstd::prelude::*;
use syntect::easy::HighlightLines;
use syntect::parsing::SyntaxSet;
use crate::highlight::{
    joined, line_end_trimmed, line_regions, lines_after, past_lines, pieces_of, pieces_ops,
    piece_rows, print_split_regions, regions_of, reset, split_regions_into_rows, split_rows,
    trimmed_chars, with_newline, BoxContext, LineHighlighter, Piece, Region, SyntaxSets,
};
use crate::spans::{
    all_written, lemma_all_written, lemma_written_after, printed, ColorRole, ColorValue,
    SpanCollector, SpanOp, StyleChange,
};
use crate::text::{cell_width, clamp_u16, expand_tabs, tabs_expanded, text_of, texts, to_u16};

verus! {

/// So many spaces.
pub open spec fn spaces(n: int) -> Seq<char> {
    Seq::new(
        (if n < 0 {
            0
        } else {
            n
        }) as nat,
        |i: int| ' ',
    )
}

/// So many spaces.
pub fn spaces_text(n: usize) -> (text: String)
    ensures
        text@ == spaces(n as int),
{
    let mut text = String::new();
    let mut i: usize = 0;
    proof {
        assert(text@ =~= spaces(0));
    }
    while i < n
        invariant
            i <= n,
            text@ == spaces(i as int),
        decreases n - i,
    {
        text.push(' ');
        i += 1;
        proof {
            assert(text@ =~= spaces(i as int));
        }
    }
    text
}

/// The background of code blocks.
pub open spec fn code_bg() -> ColorValue {
    ColorValue::Role(ColorRole::CodeBlockBg)
}

/// Some steps, if a condition holds.
pub open spec fn only_if(condition: bool, ops: Seq<SpanOp>) -> Seq<SpanOp> {
    if condition {
        ops
    } else {
        Seq::empty()
    }
}

/// What is written to say what a row was drawn from, or that it goes on with the one before.
pub open spec fn head_ops(head: Option<Seq<char>>) -> Seq<SpanOp> {
    match head {
        Some(text) => seq![SpanOp::SetSourceText { text }],
        None => seq![SpanOp::MarkSoftWrapContinuation],
    }
}

/// What is written for the left side of a frame.
pub open spec fn frame_left_ops(frame: Option<&BoxContext>, dim: bool) -> Seq<SpanOp> {
    match frame {
        Some(frame) => only_if(dim, seq![reset()]) + frame.left_ops() + only_if(
            dim,
            seq![SpanOp::SetStyle { change: StyleChange::Dim }],
        ),
        None => Seq::empty(),
    }
}

/// What is written for the right side of a frame.
pub open spec fn frame_right_ops(frame: Option<&BoxContext>, dim: bool) -> Seq<SpanOp> {
    match frame {
        Some(frame) => only_if(dim, seq![reset()]) + seq![
            SpanOp::SetStyle { change: StyleChange::Fg(frame.color) },
            printed(frame.right@),
        ],
        None => Seq::empty(),
    }
}

/// What is written to fill a row.
pub open spec fn pad_ops(pad: int) -> Seq<SpanOp> {
    only_if(
        pad > 0,
        seq![SpanOp::SetStyle { change: StyleChange::Bg(code_bg()) }, printed(spaces(pad))],
    )
}

/// What is written for one row of a code block. `head` is what the row was drawn from, if
/// it is the first of its line.
pub open spec fn code_row_ops(
    row: Seq<Piece>,
    head: Option<Seq<char>>,
    dim: bool,
    frame: Option<&BoxContext>,
    content_width: int,
) -> Seq<SpanOp> {
    head_ops(head) + frame_left_ops(frame, dim) + pieces_ops(row, Some(code_bg())).push(reset())
        + pad_ops(content_width - cell_width(joined(row))) + frame_right_ops(frame, dim) + seq![
        reset(),
        SpanOp::Newline,
    ]
}

/// What a line of a code block was drawn from: the line, and the fences on the first and
/// last line.
pub open spec fn fenced(
    line: Seq<char>,
    lang: Seq<char>,
    opens: bool,
    closes: bool,
) -> Seq<char> {
    (if opens {
        "```"@ + lang + seq!['\n']
    } else {
        Seq::empty()
    }) + line + (if closes {
        "\n```"@
    } else {
        Seq::empty()
    })
}

/// What is written for the first `n` rows of a line of a code block.
pub open spec fn code_rows_ops(
    rows: Seq<Seq<Piece>>,
    n: int,
    source: Seq<char>,
    dim: bool,
    frame: Option<&BoxContext>,
    content_width: int,
) -> Seq<SpanOp>
    decreases n,
{
    if n <= 0 {
        Seq::empty()
    } else {
        code_rows_ops(rows, n - 1, source, dim, frame, content_width) + code_row_ops(
            rows[n - 1],
            if n == 1 {
                Some(source)
            } else {
                None
            },
            dim,
            frame,
            content_width,
        )
    }
}

/// What is written for a line of a code block.
pub open spec fn code_line_ops(
    pieces: Seq<Piece>,
    source: Seq<char>,
    text_width: int,
    dim: bool,
    frame: Option<&BoxContext>,
    content_width: int,
) -> Seq<SpanOp> {
    let rows = split_rows(pieces, text_width);
    only_if(rows.len() > 1, seq![SpanOp::MarkWrapped, SpanOp::MarkWrapped]) + code_rows_ops(
        rows,
        rows.len() as int,
        source,
        dim,
        frame,
        content_width,
    )
}

/// Prints the left side of a frame.
fn print_frame_left(out: &mut SpanCollector, frame: Option<&BoxContext>, dim: bool)
    ensures
        final(out)@ == all_written(old(out)@, frame_left_ops(frame, dim)),
{
    let ghost start = out@;
    let ghost mut ops: Seq<SpanOp> = Seq::empty();
    if let Some(frame) = frame {
        if dim {
            out.reset_style();
            proof {
                lemma_written_after(start, ops, reset());
                ops = ops.push(reset());
            }
        }
        frame.print_left(out);
        proof {
            lemma_all_written(start, ops, frame.left_ops());
            ops = ops + frame.left_ops();
        }
        if dim {
            out.set_dim();
            proof {
                let op = SpanOp::SetStyle { change: StyleChange::Dim };
                lemma_written_after(start, ops, op);
                ops = ops.push(op);
            }
        }
    }
    proof {
        assert(ops =~= frame_left_ops(frame, dim));
    }
}

/// Prints the right side of a frame.
fn print_frame_right(out: &mut SpanCollector, frame: Option<&BoxContext>, dim: bool)
    ensures
        final(out)@ == all_written(old(out)@, frame_right_ops(frame, dim)),
{
    let ghost start = out@;
    let ghost mut ops: Seq<SpanOp> = Seq::empty();
    if let Some(frame) = frame {
        if dim {
            out.reset_style();
            proof {
                lemma_written_after(start, ops, reset());
                ops = ops.push(reset());
            }
        }
        out.set_fg(frame.color);
        out.print(frame.right.as_str());
        proof {
            let op = SpanOp::SetStyle { change: StyleChange::Fg(frame.color) };
            lemma_written_after(start, ops, op);
            ops = ops.push(op);
            lemma_written_after(start, ops, printed(frame.right@));
            ops = ops.push(printed(frame.right@));
        }
    }
    proof {
        assert(ops =~= frame_right_ops(frame, dim));
    }
}

/// Fills a row.
fn print_pad(out: &mut SpanCollector, pad: usize)
    ensures
        final(out)@ == all_written(old(out)@, pad_ops(pad as int)),
{
    let ghost start = out@;
    let ghost mut ops: Seq<SpanOp> = Seq::empty();
    if pad > 0 {
        let bg = ColorValue::Role(ColorRole::CodeBlockBg);
        out.set_bg(bg);
        out.print_string(spaces_text(pad));
        proof {
            let op = SpanOp::SetStyle { change: StyleChange::Bg(bg) };
            lemma_written_after(start, ops, op);
            ops = ops.push(op);
            lemma_written_after(start, ops, printed(spaces(pad as int)));
            ops = ops.push(printed(spaces(pad as int)));
        }
    }
    proof {
        assert(ops =~= pad_ops(pad as int));
    }
}

/// Says what a row was drawn from, or that it goes on with the one before.
fn mark_head(out: &mut SpanCollector, head: Option<&str>)
    ensures
        final(out)@ == all_written(
            old(out)@,
            head_ops(
                match head {
                    Some(text) => Some(text@),
                    None => None,
                },
            ),
        ),
{
    let ghost start = out@;
    let ghost none = Seq::<SpanOp>::empty();
    if let Some(text) = head {
        out.set_source_text(text);
        proof {
            let op = SpanOp::SetSourceText { text: text@ };
            lemma_written_after(start, none, op);
            assert(none.push(op) =~= seq![op]);
        }
    } else {
        out.mark_soft_wrap_continuation();
        proof {
            let op = SpanOp::MarkSoftWrapContinuation;
            lemma_written_after(start, none, op);
            assert(none.push(op) =~= seq![op]);
        }
    }
}

/// Draws one row of a code block.
fn render_code_row(
    out: &mut SpanCollector,
    row: &Vec<Region>,
    head: Option<&str>,
    dim: bool,
    frame: Option<&BoxContext>,
    content_width: usize,
)
    ensures
        final(out)@ == all_written(
            old(out)@,
            code_row_ops(
                pieces_of(row@),
                match head {
                    Some(text) => Some(text@),
                    None => None,
                },
                dim,
                frame,
                content_width as int,
            ),
        ),
{
    let ghost start = out@;
    let ghost source = match head {
        Some(text) => Some(text@),
        None => None,
    };
    let ghost a = head_ops(source);
    let ghost b = frame_left_ops(frame, dim);
    let ghost c = pieces_ops(pieces_of(row@), Some(code_bg())).push(reset());
    let ghost d = pad_ops(content_width - cell_width(joined(pieces_of(row@))));
    let ghost e = frame_right_ops(frame, dim);
    mark_head(out, head);
    print_frame_left(out, frame, dim);
    let cols = print_split_regions(out, row, Some(ColorValue::Role(ColorRole::CodeBlockBg)));
    let pad = content_width.saturating_sub(cols);
    proof {
        assert(pad_ops(pad as int) =~= d);
    }
    print_pad(out, pad);
    print_frame_right(out, frame, dim);
    let ghost before = out@;
    out.reset_style();
    out.newline();
    proof {
        let none = Seq::<SpanOp>::empty();
        lemma_written_after(before, none, reset());
        lemma_written_after(before, none.push(reset()), SpanOp::Newline);
        assert(none.push(reset()).push(SpanOp::Newline) =~= seq![reset(), SpanOp::Newline]);
        lemma_all_written(start, a, b);
        lemma_all_written(start, a + b, c);
        lemma_all_written(start, a + b + c, d);
        lemma_all_written(start, a + b + c + d, e);
        lemma_all_written(start, a + b + c + d + e, seq![reset(), SpanOp::Newline]);
    }
}

/// Draws one line of a code block. The rows drawn.
pub fn render_code_line(
    out: &mut SpanCollector,
    regions: &Vec<Region>,
    source: &str,
    text_width: usize,
    dim: bool,
    frame: Option<&BoxContext>,
    content_width: usize,
) -> (rows: usize)
    requires
        text_width >= 1,
    ensures
        final(out)@ == all_written(
            old(out)@,
            code_line_ops(
                pieces_of(regions@),
                source@,
                text_width as int,
                dim,
                frame,
                content_width as int,
            ),
        ),
        rows == split_rows(pieces_of(regions@), text_width as int).len(),
{
    let ghost start = out@;
    let ghost mut ops: Seq<SpanOp> = Seq::empty();
    let visual_rows = split_regions_into_rows(out, regions, text_width);
    let ghost rows = split_rows(pieces_of(regions@), text_width as int);
    if visual_rows.len() > 1 {
        out.mark_wrapped();
        proof {
            lemma_written_after(start, ops, SpanOp::MarkWrapped);
            ops = ops.push(SpanOp::MarkWrapped);
            lemma_written_after(start, ops, SpanOp::MarkWrapped);
            ops = ops.push(SpanOp::MarkWrapped);
        }
    }
    let ghost marks = ops;
    let mut i: usize = 0;
    proof {
        assert(marks =~= only_if(rows.len() > 1, seq![SpanOp::MarkWrapped, SpanOp::MarkWrapped]));
        assert(marks + code_rows_ops(rows, 0, source@, dim, frame, content_width as int) =~= marks);
    }
    while i < visual_rows.len()
        invariant
            i <= visual_rows@.len(),
            piece_rows(visual_rows@) == rows,
            out@ == all_written(
                start,
                marks + code_rows_ops(
                    rows,
                    i as int,
                    source@,
                    dim,
                    frame,
                    content_width as int,
                ),
            ),
        decreases visual_rows@.len() - i,
    {
        let head = if i == 0 {
            Some(source)
        } else {
            None
        };
        proof {
            assert(rows[i as int] == pieces_of(visual_rows@[i as int]@));
        }
        let ghost before = marks + code_rows_ops(
            rows,
            i as int,
            source@,
            dim,
            frame,
            content_width as int,
        );
        render_code_row(out, &visual_rows[i], head, dim, frame, content_width);
        proof {
            let row_ops = code_row_ops(
                rows[i as int],
                match head {
                    Some(text) => Some(text@),
                    None => None,
                },
                dim,
                frame,
                content_width as int,
            );
            lemma_all_written(start, before, row_ops);
            assert(before + row_ops =~= marks + code_rows_ops(
                rows,
                i + 1,
                source@,
                dim,
                frame,
                content_width as int,
            ));
        }
        i += 1;
    }
    visual_rows.len()
}

/// The file extension that stands for a language.
pub open spec fn language_extension(lang: Seq<char>) -> Seq<char> {
    if lang == ""@ {
        "txt"@
    } else if lang == "js"@ || lang == "javascript"@ {
        "js"@
    } else if lang == "ts"@ || lang == "typescript"@ {
        "ts"@
    } else if lang == "py"@ || lang == "python"@ {
        "py"@
    } else if lang == "rb"@ || lang == "ruby"@ {
        "rb"@
    } else if lang == "rs"@ || lang == "rust"@ {
        "rs"@
    } else if lang == "sh"@ || lang == "bash"@ || lang == "zsh"@ || lang == "shell"@ {
        "sh"@
    } else if lang == "yml"@ {
        "yaml"@
    } else {
        lang
    }
}

fn is_text(text: &String, other: &str) -> (r: bool)
    ensures
        r == (text@ == other@),
{
    *text == String::from_str(other)
}

/// The file extension that stands for a language.
pub fn code_extension(lang: &str) -> (extension: String)
    ensures
        extension@ == language_extension(lang@),
{
    let name = String::from_str(lang);
    if is_text(&name, "") {
        String::from_str("txt")
    } else if is_text(&name, "js") || is_text(&name, "javascript") {
        String::from_str("js")
    } else if is_text(&name, "ts") || is_text(&name, "typescript") {
        String::from_str("ts")
    } else if is_text(&name, "py") || is_text(&name, "python") {
        String::from_str("py")
    } else if is_text(&name, "rb") || is_text(&name, "ruby") {
        String::from_str("rb")
    } else if is_text(&name, "rs") || is_text(&name, "rust") {
        String::from_str("rs")
    } else if is_text(&name, "sh") || is_text(&name, "bash") || is_text(&name, "zsh") || is_text(
        &name,
        "shell",
    ) {
        String::from_str("sh")
    } else if is_text(&name, "yml") {
        String::from_str("yaml")
    } else {
        name
    }
}

/// How a code block is drawn.
#[derive(Clone, Copy, Debug)]
pub struct CodeBlockStyle<'a> {
    pub lang: &'a str,
    pub width: usize,
    pub dim: bool,
    pub frame: Option<&'a BoxContext>,
    pub fence: bool,
}

impl<'a> CodeBlockStyle<'a> {
    /// Columns between the sides of the frame, or all of them.
    pub open spec fn content_width(&self) -> usize {
        match self.frame {
            Some(frame) => frame.inner_w,
            None => self.width,
        }
    }

    /// Columns of a row.
    pub open spec fn text_width(&self) -> int {
        if self.content_width() < 1 {
            1
        } else {
            self.content_width() as int
        }
    }

    /// What a line was drawn from.
    pub open spec fn source(&self, line: Seq<char>, i: int, count: int) -> Seq<char> {
        fenced(line, self.lang@, self.fence && i == 0, self.fence && i == count - 1)
    }
}

/// What is written for the first `n` lines of a code block, coloured by `regions`.
pub open spec fn code_lines_ops(
    regions: Seq<Seq<Piece>>,
    lines: Seq<Seq<char>>,
    n: int,
    style: CodeBlockStyle,
) -> Seq<SpanOp>
    decreases n,
{
    if n <= 0 {
        Seq::empty()
    } else {
        code_lines_ops(regions, lines, n - 1, style) + code_line_ops(
            regions[n - 1],
            style.source(lines[n - 1], n - 1, lines.len() as int),
            style.text_width(),
            style.dim,
            style.frame,
            style.content_width() as int,
        )
    }
}

/// What is written for a code block, coloured by `regions`.
pub open spec fn code_block_ops(
    regions: Seq<Seq<Piece>>,
    lines: Seq<Seq<char>>,
    style: CodeBlockStyle,
) -> Seq<SpanOp> {
    only_if(style.dim, seq![SpanOp::SetStyle { change: StyleChange::Dim }]) + code_lines_ops(
        regions,
        lines,
        lines.len() as int,
        style,
    ) + only_if(style.dim, seq![reset()])
}

/// Rows of the first `n` lines, coloured by `regions`.
pub open spec fn code_rows(regions: Seq<Seq<Piece>>, width: int, n: int) -> int
    decreases n,
{
    if n <= 0 {
        0
    } else {
        code_rows(regions, width, n - 1) + split_rows(regions[n - 1], width).len()
    }
}

/// Every tab of every line written as four spaces.
pub open spec fn all_expanded(lines: Seq<Seq<char>>) -> Seq<Seq<char>> {
    lines.map_values(|line: Seq<char>| tabs_expanded(line))
}

/// What a line was drawn from.
fn source_text(line: &str, lang: &str, opens: bool, closes: bool) -> (source: String)
    ensures
        source@ == fenced(line@, lang@, opens, closes),
{
    let mut source = String::new();
    if opens {
        source.append("```");
        source.append(lang);
        source.push('\n');
    }
    source.append(line);
    if closes {
        source.append("\n```");
    }
    proof {
        assert(source@ =~= fenced(line@, lang@, opens, closes));
    }
    source
}

/// The runs of a code block in a language.
pub open spec fn code_regions(sets: SyntaxSets, lines: Seq<Seq<char>>, lang: Seq<char>) -> Seq<
    Seq<Piece>,
> {
    regions_of(sets.fresh(language_extension(lang), Some(lang)), sets.syntax_set(), lines)
}

/// Draws a code block, its tabs as spaces. What a row was drawn from is its line as it
/// stands, and with `fence` the fences around the first and the last. The rows drawn, as far
/// as they can be counted.
pub fn render_code_block(
    out: &mut SpanCollector,
    lines: &Vec<String>,
    style: CodeBlockStyle,
    sets: &SyntaxSets,
) -> (rows: u16)
    requires
        sets.wf(),
        sets.warm(),
    ensures
        ({
            let raw = texts(lines@);
            let regions = code_regions(*sets, all_expanded(raw), style.lang@);
            &&& final(out)@ == all_written(old(out)@, code_block_ops(regions, raw, style))
            &&& rows == clamp_u16(code_rows(regions, style.text_width(), lines@.len() as int))
        }),
{
    let ghost start = out@;
    let ghost raw = texts(lines@);
    let ghost expanded = all_expanded(raw);
    let extension = code_extension(style.lang);
    let content_width = match style.frame {
        Some(frame) => frame.inner_w,
        None => style.width,
    };
    let text_w = if content_width < 1 {
        1
    } else {
        content_width
    };
    let ghost opening = only_if(style.dim, seq![SpanOp::SetStyle { change: StyleChange::Dim }]);
    if style.dim {
        out.set_dim();
    }
    proof {
        let none = Seq::<SpanOp>::empty();
        let op = SpanOp::SetStyle { change: StyleChange::Dim };
        lemma_written_after(start, none, op);
        assert(none.push(op) =~= seq![op]);
        assert(out@ == all_written(start, opening));
    }
    let mut rows: u16 = 0;
    let ghost set = sets.syntax_set();
    let ghost fresh = sets.fresh(language_extension(style.lang@), Some(style.lang@));
    let ghost regions = code_regions(*sets, expanded, style.lang@);
    if let Some(highlighter) = sets.highlighter(extension.as_str(), Some(style.lang)) {
        let mut highlighter = highlighter;
        let mut i: usize = 0;
        proof {
            assert(opening + code_lines_ops(regions, raw, 0, style) =~= opening);
        }
        while i < lines.len()
            invariant
                i <= lines@.len(),
                raw == texts(lines@),
                expanded == all_expanded(raw),
                text_w == style.text_width(),
                text_w >= 1,
                content_width == style.content_width(),
                highlighter.wf(),
                highlighter.set() == set,
                highlighter.lines() == past_lines(fresh, set, expanded, i as int),
                regions == regions_of(fresh, set, expanded),
                out@ == all_written(
                    start,
                    opening + code_lines_ops(regions, raw, i as int, style),
                ),
                rows == clamp_u16(code_rows(regions, text_w as int, i as int)),
                code_rows(regions, text_w as int, i as int) >= 0,
            decreases lines@.len() - i,
        {
            let line = expand_tabs(lines[i].as_str());
            let found = highlighter.next_line(line.as_str());
            let source = source_text(
                lines[i].as_str(),
                style.lang,
                style.fence && i == 0,
                style.fence && i == lines.len() - 1,
            );
            let ghost before_ops = opening + code_lines_ops(regions, raw, i as int, style);
            proof {
                assert(expanded[i as int] == line@);
                assert(regions[i as int] == pieces_of(found@));
            }
            let n = render_code_line(
                out,
                &found,
                source.as_str(),
                text_w,
                style.dim,
                style.frame,
                content_width,
            );
            rows = rows.saturating_add(to_u16(n));
            proof {
                let line_ops = code_line_ops(
                    regions[i as int],
                    source@,
                    text_w as int,
                    style.dim,
                    style.frame,
                    content_width as int,
                );
                lemma_all_written(start, before_ops, line_ops);
                assert(before_ops + line_ops =~= opening + code_lines_ops(
                    regions,
                    raw,
                    i + 1,
                    style,
                ));
            }
            i += 1;
        }
    }
    let ghost body = opening + code_lines_ops(regions, raw, lines@.len() as int, style);
    if style.dim {
        out.reset_style();
    }
    proof {
        let none = Seq::<SpanOp>::empty();
        lemma_written_after(start, body, reset());
        assert(body.push(reset()) =~= body + seq![reset()]);
        assert(body + none =~= body);
    }
    rows
}

/// A shell highlighter that remembers the lines it has seen.
pub struct BashHighlighter<'a> {
    h: LineHighlighter<'a>,
}

/// What is written for some runs of a shell line.
pub open spec fn shell_ops(regions: Seq<Piece>) -> Seq<SpanOp>
    decreases regions.len(),
{
    if regions.len() == 0 {
        Seq::empty()
    } else {
        let last = regions.last();
        shell_ops(regions.drop_last()) + pieces_ops(
            seq![Piece { color: last.color, text: line_end_trimmed(last.text) }],
            None,
        )
    }
}

/// Prints the runs of a shell line and goes back to the plain style.
pub fn print_shell_regions(out: &mut SpanCollector, regions: &Vec<Region>)
    ensures
        final(out)@ == all_written(old(out)@, shell_ops(pieces_of(regions@)).push(reset())),
{
    let ghost start = out@;
    let ghost pieces = pieces_of(regions@);
    let mut i: usize = 0;
    proof {
        assert(pieces.take(0) =~= Seq::<Piece>::empty());
        assert(shell_ops(pieces.take(0)) =~= Seq::<SpanOp>::empty());
        assert(all_written(start, Seq::<SpanOp>::empty()) == start);
    }
    while i < regions.len()
        invariant
            i <= regions@.len(),
            pieces == pieces_of(regions@),
            out@ == all_written(start, shell_ops(pieces.take(i as int))),
        decreases regions@.len() - i,
    {
        let chars = trimmed_chars(regions[i].text.as_str());
        let ghost ops = shell_ops(pieces.take(i as int));
        let ghost piece = Piece { color: regions@[i as int].color, text: chars@ };
        proof {
            assert(pieces.take(i + 1).drop_last() =~= pieces.take(i as int));
            assert(seq![piece].drop_last() =~= Seq::<Piece>::empty());
            assert(pieces_ops(seq![piece].drop_last(), None) =~= Seq::<SpanOp>::empty());
        }
        if chars.len() > 0 {
            let text = text_of(&chars, 0, chars.len());
            out.set_fg(regions[i].color.value());
            out.print(text.as_str());
            proof {
                assert(text@ =~= chars@);
                let fg = SpanOp::SetStyle { change: StyleChange::Fg(piece.color.spec_value()) };
                lemma_written_after(start, ops, fg);
                lemma_written_after(start, ops.push(fg), printed(text@));
                assert(ops.push(fg).push(printed(text@)) =~= shell_ops(pieces.take(i + 1)));
            }
        } else {
            proof {
                assert(ops =~= shell_ops(pieces.take(i + 1)));
            }
        }
        i += 1;
    }
    out.reset_style();
    proof {
        assert(pieces.take(i as int) =~= pieces);
        lemma_written_after(start, shell_ops(pieces), reset());
    }
}

impl<'a> BashHighlighter<'a> {
    /// What has been seen so far.
    pub closed spec fn lines(&self) -> HighlightLines<'a> {
        self.h.lines()
    }

    /// The set that the shell's syntax is from.
    pub closed spec fn set(&self) -> SyntaxSet {
        self.h.set()
    }

    /// The highlighter was made for a syntax of its set.
    pub closed spec fn wf(&self) -> bool {
        self.h.wf()
    }

    /// A highlighter that has seen nothing. `None` while the sets are not loaded.
    pub fn new(sets: &'a SyntaxSets) -> (h: Option<Self>)
        requires
            sets.wf(),
        ensures
            h is Some == sets.warm(),
            h matches Some(h) ==> h.wf() && h.set() == sets.syntax_set() && h.lines()
                == sets.fresh("sh"@, None),
    {
        match sets.highlighter("sh", None) {
            Some(h) => Some(BashHighlighter { h }),
            None => None,
        }
    }

    /// Sees a line without printing it.
    pub fn advance(&mut self, line: &str)
        requires
            old(self).wf(),
        ensures
            final(self).wf(),
            final(self).set() == old(self).set(),
            final(self).lines() == lines_after(
                old(self).lines(),
                old(self).set(),
                with_newline(line@),
            ),
    {
        let _regions = self.h.next_line(line);
    }

    /// Prints a line in its colours, without ending the row.
    pub fn print_line(&mut self, out: &mut SpanCollector, line: &str)
        requires
            old(self).wf(),
        ensures
            final(self).wf(),
            final(self).set() == old(self).set(),
            final(self).lines() == lines_after(
                old(self).lines(),
                old(self).set(),
                with_newline(line@),
            ),
            final(out)@ == all_written(
                old(out)@,
                shell_ops(
                    line_regions(old(self).lines(), old(self).set(), with_newline(line@)),
                ).push(reset()),
            ),
    {
        let regions = self.h.next_line(line);
        print_shell_regions(out, &regions);
    }
}

/// A line that is seen without being printed counts as much as one that is printed: what
/// follows is coloured the same.
pub proof fn advancing_is_seeing(lines: HighlightLines<'_>, set: SyntaxSet, a: Seq<char>, b: Seq<char>)
    ensures
        regions_of(lines, set, seq![a, b])[1] == line_regions(
            lines_after(lines, set, with_newline(a)),
            set,
            with_newline(b),
        ),
{
    reveal_with_fuel(past_lines, 2);
}

} // verus!
