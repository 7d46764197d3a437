//! The output of a command, wrapped, of which the last rows are shown.
use vstd::prelude::*;
use crate::numbers::{counted_noun, pluralize};
use crate::text::{expand_tabs, lines_of, split_lines, tabs_expanded, texts};

verus! {

/// One row of shown output.
#[derive(Clone, Copy, Debug, PartialEq, Eq, Structural)]
#[allow(inconsistent_fields)]
pub enum OutputRow {
    /// So many rows are not shown.
    Above { skipped: usize },
    /// Row `row` of line `line`.
    Line { line: usize, row: usize },
}

/// `wrap` makes so many rows of a line.
pub open spec fn wraps_into<W: Fn(&str, usize) -> usize>(
    wrap: W,
    line: Seq<char>,
    cols: usize,
    n: usize,
) -> bool {
    exists|s: &str| #[trigger] call_ensures(wrap, (s, cols), n) && s@ == line
}

/// How many rows `wrap` makes of a line.
pub open spec fn rows_of<W: Fn(&str, usize) -> usize>(wrap: W, line: Seq<char>, cols: usize) -> usize {
    choose|n: usize| #[trigger] wraps_into(wrap, line, cols, n)
}

/// `wrap` takes any line, and makes the same of the same.
pub open spec fn pure_wrap<W: Fn(&str, usize) -> usize>(wrap: W) -> bool {
    &&& forall|s: &str, cols: usize| #[trigger] call_requires(wrap, (s, cols))
    &&& forall|line: Seq<char>, cols: usize, a: usize, b: usize|
        #[trigger] wraps_into(wrap, line, cols, a) && #[trigger] wraps_into(wrap, line, cols, b)
            ==> a == b
}

/// The rows of the first `n` lines.
pub open spec fn output_rows<W: Fn(&str, usize) -> usize>(
    wrap: W,
    lines: Seq<Seq<char>>,
    cols: usize,
    n: int,
) -> Seq<OutputRow>
    decreases n,
{
    if n <= 0 {
        Seq::empty()
    } else {
        output_rows(wrap, lines, cols, n - 1) + Seq::new(
            rows_of(wrap, tabs_expanded(lines[n - 1]), cols) as nat,
            |row: int| OutputRow::Line { line: (n - 1) as usize, row: row as usize },
        )
    }
}

/// All rows of an output.
pub open spec fn all_rows<W: Fn(&str, usize) -> usize>(
    wrap: W,
    content: Seq<char>,
    cols: usize,
) -> Seq<OutputRow> {
    output_rows(wrap, lines_of(content), cols, lines_of(content).len() as int)
}

/// The rows that are shown: the last `max_rows`, and above them how many others there are.
pub open spec fn shown_rows(rows: Seq<OutputRow>, max_rows: int) -> Seq<OutputRow> {
    if rows.len() > max_rows {
        let skipped = rows.len() - max_rows;
        seq![OutputRow::Above { skipped: skipped as usize }] + rows.skip(skipped)
    } else {
        rows
    }
}

/// Whether some line takes more than one row.
pub open spec fn wraps_any<W: Fn(&str, usize) -> usize>(
    wrap: W,
    lines: Seq<Seq<char>>,
    cols: usize,
    n: int,
) -> bool
    decreases n,
{
    n > 0 && (wraps_any(wrap, lines, cols, n - 1) || rows_of(
        wrap,
        tabs_expanded(lines[n - 1]),
        cols,
    ) > 1)
}

proof fn lemma_rows_grow<W: Fn(&str, usize) -> usize>(
    wrap: W,
    lines: Seq<Seq<char>>,
    cols: usize,
    m: int,
    n: int,
)
    requires
        0 <= m <= n,
    ensures
        output_rows(wrap, lines, cols, m).len() <= output_rows(wrap, lines, cols, n).len(),
    decreases n - m,
{
    if m < n {
        lemma_rows_grow(wrap, lines, cols, m, n - 1);
    }
}

/// How many rows each line takes.
fn row_counts<W: Fn(&str, usize) -> usize>(
    lines: &Vec<String>,
    max_cols: usize,
    wrap: &W,
) -> (counts: Vec<usize>)
    requires
        pure_wrap(*wrap),
    ensures
        counts@.len() == lines@.len(),
        forall|i: int|
            0 <= i < lines@.len() ==> #[trigger] counts@[i] == rows_of(
                *wrap,
                tabs_expanded(texts(lines@)[i]),
                max_cols,
            ),
{
    let mut counts: Vec<usize> = Vec::new();
    let mut i: usize = 0;
    while i < lines.len()
        invariant
            i <= lines@.len(),
            counts@.len() == i,
            pure_wrap(*wrap),
            forall|k: int|
                0 <= k < i ==> #[trigger] counts@[k] == rows_of(
                    *wrap,
                    tabs_expanded(texts(lines@)[k]),
                    max_cols,
                ),
        decreases lines@.len() - i,
    {
        let expanded = expand_tabs(lines[i].as_str());
        let n = wrap(expanded.as_str(), max_cols);
        proof {
            assert(wraps_into(*wrap, expanded@, max_cols, n));
        }
        counts.push(n);
        i += 1;
    }
    counts
}

fn total_rows<W: Fn(&str, usize) -> usize>(
    counts: &Vec<usize>,
    lines: Ghost<Seq<Seq<char>>>,
    max_cols: usize,
    wrap: &W,
) -> (total: usize)
    requires
        counts@.len() == lines@.len(),
        forall|i: int|
            0 <= i < lines@.len() ==> #[trigger] counts@[i] == rows_of(
                *wrap,
                tabs_expanded(lines@[i]),
                max_cols,
            ),
        output_rows(*wrap, lines@, max_cols, lines@.len() as int).len() <= usize::MAX,
    ensures
        total == output_rows(*wrap, lines@, max_cols, lines@.len() as int).len(),
{
    let mut total: usize = 0;
    let mut i: usize = 0;
    while i < counts.len()
        invariant
            i <= counts@.len(),
            counts@.len() == lines@.len(),
            forall|i: int|
                0 <= i < lines@.len() ==> #[trigger] counts@[i] == rows_of(
                    *wrap,
                    tabs_expanded(lines@[i]),
                    max_cols,
                ),
            output_rows(*wrap, lines@, max_cols, lines@.len() as int).len() <= usize::MAX,
            total == output_rows(*wrap, lines@, max_cols, i as int).len(),
        decreases counts@.len() - i,
    {
        proof {
            lemma_rows_grow(*wrap, lines@, max_cols, i + 1, lines@.len() as int);
        }
        total = total + counts[i];
        i += 1;
    }
    total
}

/// How many rows are shown of an output.
pub fn measure_wrapped_output<W: Fn(&str, usize) -> usize>(
    content: &str,
    max_cols: usize,
    max_rows: usize,
    wrap: &W,
) -> (rows: u16)
    requires
        pure_wrap(*wrap),
        max_rows < u16::MAX,
        all_rows(*wrap, content@, max_cols).len() <= usize::MAX,
    ensures
        rows == shown_rows(all_rows(*wrap, content@, max_cols), max_rows as int).len(),
{
    let lines = split_lines(content);
    let counts = row_counts(&lines, max_cols, wrap);
    let total = total_rows(&counts, Ghost(texts(lines@)), max_cols, wrap);
    if total > max_rows {
        max_rows as u16 + 1
    } else {
        total as u16
    }
}

/// The rows that are shown of an output, and whether some line was wrapped.
pub fn render_wrapped_output<W: Fn(&str, usize) -> usize>(
    content: &str,
    max_cols: usize,
    max_rows: usize,
    wrap: &W,
) -> (r: (Vec<OutputRow>, bool))
    requires
        pure_wrap(*wrap),
        max_rows < u16::MAX,
        all_rows(*wrap, content@, max_cols).len() <= usize::MAX,
    ensures
        r.0@ == shown_rows(all_rows(*wrap, content@, max_cols), max_rows as int),
        r.1 == wraps_any(
            *wrap,
            lines_of(content@),
            max_cols,
            lines_of(content@).len() as int,
        ),
{
    let lines = split_lines(content);
    let ghost texts_of = texts(lines@);
    let counts = row_counts(&lines, max_cols, wrap);
    let total = total_rows(&counts, Ghost(texts_of), max_cols, wrap);
    let ghost all = all_rows(*wrap, content@, max_cols);
    let mut rows: Vec<OutputRow> = Vec::new();
    let hidden: usize = if total > max_rows {
        total - max_rows
    } else {
        0
    };
    if hidden > 0 {
        rows.push(OutputRow::Above { skipped: hidden });
    }
    let ghost head = rows@;
    let mut skip: usize = hidden;
    let mut wrapped = false;
    let mut i: usize = 0;
    proof {
        assert(rows@ =~= head + Seq::<OutputRow>::empty());
    }
    while i < counts.len()
        invariant
            i <= counts@.len(),
            counts@.len() == texts_of.len(),
            forall|k: int|
                0 <= k < texts_of.len() ==> #[trigger] counts@[k] == rows_of(
                    *wrap,
                    tabs_expanded(texts_of[k]),
                    max_cols,
                ),
            wrapped == wraps_any(*wrap, texts_of, max_cols, i as int),
            skip == if output_rows(*wrap, texts_of, max_cols, i as int).len() < hidden {
                hidden - output_rows(*wrap, texts_of, max_cols, i as int).len()
            } else {
                0
            },
            rows@ == head + if output_rows(*wrap, texts_of, max_cols, i as int).len() < hidden {
                Seq::empty()
            } else {
                output_rows(*wrap, texts_of, max_cols, i as int).skip(hidden as int)
            },
        decreases counts@.len() - i,
    {
        let count = counts[i];
        let ghost before = output_rows(*wrap, texts_of, max_cols, i as int);
        let ghost after = output_rows(*wrap, texts_of, max_cols, i + 1);
        let ghost rows_before = rows@;
        if count > 1 {
            wrapped = true;
        }
        if skip >= count {
            skip = skip - count;
            proof {
                if after.len() >= hidden {
                    assert(after.skip(hidden as int) =~= Seq::<OutputRow>::empty() || count == 0);
                    if count == 0 {
                        assert(after =~= before);
                    }
                }
            }
        } else {
            let start = skip;
            skip = 0;
            let mut row: usize = start;
            while row < count
                invariant
                    start <= row <= count,
                    rows@ == rows_before + Seq::new(
                        (row - start) as nat,
                        |k: int| OutputRow::Line { line: i, row: (start + k) as usize },
                    ),
                decreases count - row,
            {
                rows.push(OutputRow::Line { line: i, row });
                row += 1;
                proof {
                    assert(rows@ =~= rows_before + Seq::new(
                        (row - start) as nat,
                        |k: int| OutputRow::Line { line: i, row: (start + k) as usize },
                    ));
                }
            }
            proof {
                let added = Seq::new(
                    (count - start) as nat,
                    |k: int| OutputRow::Line { line: i, row: (start + k) as usize },
                );
                assert(rows@ =~= head + after.skip(hidden as int));
            }
        }
        i += 1;
    }
    proof {
        assert(all == output_rows(*wrap, texts_of, max_cols, i as int));
        assert(rows@ =~= shown_rows(all, max_rows as int));
    }
    (rows, wrapped)
}

/// What stands above the shown rows: a gutter and how many rows are not shown.
pub fn above_text(skipped: usize) -> (text: String)
    ensures
        text@ == "  ... "@ + counted_noun(skipped as nat, "line"@, "lines"@) + " above"@,
{
    let mut text = String::from_str("  ... ");
    text.append(pluralize(skipped, "line", "lines").as_str());
    text.append(" above");
    text
}

/// As many rows are drawn as are measured, and never more than are let through and one.
pub proof fn drawn_output_is_bounded(rows: Seq<OutputRow>, max_rows: int)
    requires
        0 <= max_rows,
    ensures
        shown_rows(rows, max_rows).len() <= max_rows + 1,
        rows.len() <= max_rows ==> shown_rows(rows, max_rows) == rows,
        rows.len() > max_rows ==> shown_rows(rows, max_rows).skip(1) == rows.skip(
            rows.len() - max_rows,
        ),
{
    if rows.len() > max_rows {
        assert(shown_rows(rows, max_rows).skip(1) =~= rows.skip(rows.len() - max_rows));
    }
}

} // verus!
