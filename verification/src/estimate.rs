//! A guess at the rows that a text takes.
use vstd::prelude::*;
use crate::prompt_buffer::{measures_to, pure_ruler, text_cells};
use crate::text::{lines_of, split_lines, texts};

verus! {

/// Rows of a line that takes so many cells: at least one.
pub open spec fn line_rows(cells: usize, width: u16) -> int {
    let columns = if width < 1 {
        1
    } else {
        width as int
    };
    let filled = if cells < 1 {
        1
    } else {
        cells as int
    };
    (filled + columns - 1) / columns
}

/// Rows of the first `n` lines.
pub open spec fn lines_rows<C: Fn(&str) -> usize>(
    cells: C,
    lines: Seq<Seq<char>>,
    width: u16,
    n: int,
) -> int
    decreases n,
{
    if n <= 0 {
        0
    } else {
        lines_rows(cells, lines, width, n - 1) + line_rows(
            text_cells(cells, lines[n - 1]),
            width,
        )
    }
}

/// The rows that a text takes where every line is broken after as many cells as there are,
/// at least one.
pub open spec fn estimated_rows<C: Fn(&str) -> usize>(cells: C, text: Seq<char>, width: u16) -> int {
    let rows = lines_rows(cells, lines_of(text), width, lines_of(text).len() as int);
    if rows < 1 {
        1
    } else {
        rows
    }
}

proof fn lemma_line_rows(cells: usize, width: u16)
    ensures
        1 <= line_rows(cells, width),
        cells > 0 ==> line_rows(cells, width) <= cells,
        cells == 0 ==> line_rows(cells, width) == 1,
{
    let columns = if width < 1 {
        1
    } else {
        width as int
    };
    let filled = if cells < 1 {
        1
    } else {
        cells as int
    };
    assert((filled + columns - 1) / columns >= 1) by (nonlinear_arith)
        requires
            filled >= 1,
            columns >= 1,
    ;
    assert((filled + columns - 1) / columns <= filled) by (nonlinear_arith)
        requires
            filled >= 1,
            columns >= 1,
    ;
}

proof fn lemma_lines_rows<C: Fn(&str) -> usize>(
    cells: C,
    lines: Seq<Seq<char>>,
    width: u16,
    m: int,
    n: int,
)
    requires
        0 <= m <= n,
    ensures
        0 <= lines_rows(cells, lines, width, m) <= lines_rows(cells, lines, width, n),
    decreases n,
{
    if n > 0 {
        if m < n {
            lemma_lines_rows(cells, lines, width, m, n - 1);
        } else {
            lemma_lines_rows(cells, lines, width, m - 1, n - 1);
        }
        lemma_line_rows(text_cells(cells, lines[n - 1]), width);
    }
}

/// A guess at the rows that a text takes at a width: `cells` measures a line.
pub fn estimate_text_rows<C: Fn(&str) -> usize>(text: &str, width: u16, cells: &C) -> (rows: u64)
    requires
        pure_ruler(*cells),
        estimated_rows(*cells, text@, width) <= u64::MAX,
    ensures
        rows == estimated_rows(*cells, text@, width),
{
    let columns: usize = if width < 1 {
        1
    } else {
        width as usize
    };
    let lines = split_lines(text);
    let ghost all = texts(lines@);
    let mut rows: u64 = 0;
    let mut i: usize = 0;
    while i < lines.len()
        invariant
            i <= lines@.len(),
            all == texts(lines@),
            pure_ruler(*cells),
            columns == if width < 1 {
                1
            } else {
                width as int
            },
            lines_rows(*cells, all, width, all.len() as int) <= u64::MAX,
            rows == lines_rows(*cells, all, width, i as int),
        decreases lines@.len() - i,
    {
        let line = lines[i].as_str();
        let measured = cells(line);
        proof {
            assert(measures_to(*cells, line@, measured));
            assert(line@ == all[i as int]);
            lemma_lines_rows(*cells, all, width, i + 1, all.len() as int);
            lemma_line_rows(measured, width);
        }
        let filled: usize = if measured < 1 {
            1
        } else {
            measured
        };
        let more = (filled - 1) / columns + 1;
        proof {
            assert((filled - 1) / columns as int + 1 == (filled + columns - 1) / columns as int)
                by (nonlinear_arith)
                requires
                    columns >= 1,
                    filled >= 1,
            ;
        }
        rows = rows + more as u64;
        i += 1;
    }
    if rows < 1 {
        1
    } else {
        rows
    }
}

/// A text is never taken to have no rows, and has at least one for each line.
pub proof fn every_line_has_a_row<C: Fn(&str) -> usize>(
    cells: C,
    lines: Seq<Seq<char>>,
    width: u16,
    n: int,
)
    requires
        0 <= n,
    ensures
        lines_rows(cells, lines, width, n) >= n,
    decreases n,
{
    if n > 0 {
        every_line_has_a_row(cells, lines, width, n - 1);
        lemma_line_rows(text_cells(cells, lines[n - 1]), width);
    }
}

} // verus!
