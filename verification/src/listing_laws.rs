//! What a listing of a source file says, row by row.
use vstd::prelude::*;
use crate::code_block::spaces;
use crate::highlight::{piece_ops, pieces_ops, reset, split_rows, Piece};
use crate::numbers::decimal;
use crate::source_listing::{
    digits_of, line_number, listed, listing_row_ops, with_rows, Listing, ListingWindow,
};
use crate::spans::{printed, printed_gutter, SpanOp};

verus! {

/// Rows as they are written: each with what cannot be selected of it, and what can.
pub type PrintedRow = (Seq<char>, Seq<char>);

/// The rows that are finished, and the one that is being written.
pub struct Printed {
    pub rows: Seq<PrintedRow>,
    pub gutter: Seq<char>,
    pub code: Seq<char>,
}

/// Nothing written yet.
pub open spec fn unwritten() -> Printed {
    Printed { rows: Seq::empty(), gutter: Seq::empty(), code: Seq::empty() }
}

/// The rows after one more step.
pub open spec fn write_step(page: Printed, op: SpanOp) -> Printed {
    match op {
        SpanOp::Print { text, selectable, .. } => if selectable {
            Printed { code: page.code + text, ..page }
        } else {
            Printed { gutter: page.gutter + text, ..page }
        },
        SpanOp::Newline => Printed {
            rows: page.rows.push((page.gutter, page.code)),
            gutter: Seq::empty(),
            code: Seq::empty(),
        },
        _ => page,
    }
}

/// The rows that some steps write.
pub open spec fn written_rows(from: Printed, ops: Seq<SpanOp>) -> Printed
    decreases ops.len(),
{
    if ops.len() == 0 {
        from
    } else {
        write_step(written_rows(from, ops.drop_last()), ops.last())
    }
}

broadcast proof fn lemma_written_concat(from: Printed, a: Seq<SpanOp>, b: Seq<SpanOp>)
    ensures
        #[trigger] written_rows(from, a + b) == written_rows(written_rows(from, a), b),
    decreases b.len(),
{
    if b.len() == 0 {
        assert(a + b =~= a);
    } else {
        lemma_written_concat(from, a, b.drop_last());
        assert((a + b).drop_last() =~= a + b.drop_last());
    }
}

broadcast proof fn lemma_written_one(from: Printed, op: SpanOp)
    ensures
        #[trigger] written_rows(from, seq![op]) == write_step(from, op),
{
    assert(seq![op].drop_last() =~= Seq::<SpanOp>::empty());
    assert(written_rows(from, seq![op].drop_last()) == from);
}

/// The text of some pieces of code.
pub open spec fn code_text(pieces: Seq<Piece>) -> Seq<char> {
    pieces.map_values(|piece: Piece| piece.text).flatten()
}

/// A gutter of `digits + 6` cells: blank, but for a number that ends three cells before its
/// end.
pub open spec fn gutter_with(number: Option<nat>, digits: int) -> Seq<char> {
    Seq::new(
        (digits + 6) as nat,
        |i: int|
            match number {
                Some(n) => {
                    let first = 3 + digits - decimal(n).len();
                    if first <= i < 3 + digits {
                        decimal(n)[i - first]
                    } else {
                        ' '
                    }
                },
                None => ' ',
            },
    )
}

/// The rows of line `line`: its number stands before the first of them and before no other.
pub open spec fn line_page(rows: Seq<Seq<Piece>>, line: int, digits: int) -> Seq<PrintedRow> {
    Seq::new(
        rows.len(),
        |r: int|
            (
                gutter_with(
                    if r == 0 {
                        Some((line + 1) as nat)
                    } else {
                        None
                    },
                    digits,
                ),
                code_text(rows[r]),
            ),
    )
}

/// The rows of the first `n` lines, one line below the other.
pub open spec fn page_of(
    regions: Seq<Seq<Piece>>,
    n: int,
    width: int,
    digits: int,
) -> Seq<PrintedRow> {
    Seq::new(
        n as nat,
        |line: int| line_page(split_rows(regions[line], width), line, digits),
    ).flatten()
}

/// The rows from `skip` on, at most `limit` of them.
pub open spec fn window_of(rows: Seq<PrintedRow>, skip: int, limit: int) -> Seq<PrintedRow> {
    if skip >= rows.len() {
        Seq::empty()
    } else if rows.len() - skip <= limit {
        rows.skip(skip)
    } else {
        rows.subrange(skip, skip + limit)
    }
}

proof fn lemma_pieces_written(pieces: Seq<Piece>, from: Printed)
    ensures
        written_rows(from, pieces_ops(pieces, None)) == (Printed {
            code: from.code + code_text(pieces),
            ..from
        }),
    decreases pieces.len(),
{
    broadcast use {lemma_written_concat, lemma_written_one};

    let text = |piece: Piece| piece.text;
    if pieces.len() == 0 {
        assert(pieces.map_values(text) =~= Seq::<Seq<char>>::empty());
        assert(from.code + code_text(pieces) =~= from.code);
    } else {
        let rest = pieces.drop_last();
        let last = pieces.last();
        lemma_pieces_written(rest, from);
        assert(pieces.map_values(text) =~= rest.map_values(text).push(last.text));
        rest.map_values(text).lemma_flatten_push(last.text);
        let before = written_rows(from, pieces_ops(rest, None));
        let ops = piece_ops(last, None);
        if last.text.len() == 0 {
            assert(code_text(pieces) =~= code_text(rest));
        } else {
            let color = SpanOp::SetStyle {
                change: crate::spans::StyleChange::Fg(last.color.spec_value()),
            };
            assert(ops =~= seq![color] + seq![printed(last.text)]);
            assert(from.code + code_text(rest) + last.text =~= from.code + (code_text(rest)
                + last.text));
        }
    }
}

proof fn lemma_row_written(
    row: Seq<Piece>,
    number: Option<nat>,
    digits: int,
    from: Printed,
)
    requires
        digits >= 0,
        number is Some ==> decimal(number->0).len() <= digits,
        from.gutter.len() == 0,
        from.code.len() == 0,
    ensures
        written_rows(from, listing_row_ops(row, number, digits)) == (Printed {
            rows: from.rows.push((gutter_with(number, digits), code_text(row))),
            gutter: Seq::empty(),
            code: Seq::empty(),
        }),
{
    broadcast use {lemma_written_concat, lemma_written_one};

    reveal_strlit("  ");
    reveal_strlit("   ");
    let two = written_rows(from, seq![printed_gutter("  "@)]);
    let grey = SpanOp::SetStyle {
        change: crate::spans::StyleChange::Fg(
            crate::spans::ColorValue::Named(crate::spans::NamedColor::DarkGrey),
        ),
    };
    let middle = match number {
        Some(n) => seq![
            grey,
            printed_gutter(line_number(n, digits)),
            reset(),
            printed_gutter("   "@),
        ],
        None => seq![printed_gutter(spaces(1 + digits + 3))],
    };
    let head = written_rows(two, middle);
    match number {
        Some(n) => {
            assert(middle =~= seq![grey] + seq![printed_gutter(line_number(n, digits))] + seq![
                reset(),
            ] + seq![printed_gutter("   "@)]);
            assert(head.gutter =~= gutter_with(number, digits));
        },
        None => {
            assert(head.gutter =~= gutter_with(number, digits));
        },
    }
    lemma_pieces_written(row, head);
    let body = pieces_ops(row, None);
    assert(body.push(reset()) =~= body + seq![reset()]);
    let code = written_rows(head, body.push(reset()));
    assert(head.code + code_text(row) =~= code_text(row));
    assert(code.code == code_text(row));
}

proof fn lemma_window_more(rows: Seq<PrintedRow>, row: PrintedRow, skip: int, limit: int)
    requires
        skip >= 0,
        limit >= 0,
    ensures
        window_of(rows.push(row), skip, limit) == if rows.len() >= skip && window_of(
            rows,
            skip,
            limit,
        ).len() < limit {
            window_of(rows, skip, limit).push(row)
        } else {
            window_of(rows, skip, limit)
        },
{
    let now = window_of(rows.push(row), skip, limit);
    if rows.len() >= skip && window_of(rows, skip, limit).len() < limit {
        assert(now =~= window_of(rows, skip, limit).push(row));
    } else {
        assert(now =~= window_of(rows, skip, limit));
    }
}

/// What has been listed is the window of the rows so far.
spec fn lists(listing: Listing, rows: Seq<PrintedRow>, window: ListingWindow) -> bool {
    let page = written_rows(unwritten(), listing.ops);
    &&& page.rows == window_of(rows, window.skip, window.limit)
    &&& page.gutter.len() == 0
    &&& page.code.len() == 0
    &&& listing.total == rows.len()
    &&& listing.emitted == page.rows.len()
}

proof fn lemma_with_rows(
    listing: Listing,
    above: Seq<PrintedRow>,
    rows: Seq<Seq<Piece>>,
    n: int,
    line: int,
    window: ListingWindow,
)
    requires
        0 <= n <= rows.len(),
        line >= 0,
        window.skip >= 0,
        window.limit >= 0,
        decimal((line + 1) as nat).len() <= window.digits,
        lists(listing, above, window),
    ensures
        lists(
            with_rows(listing, rows, n, line, window),
            above + line_page(rows, line, window.digits).take(n),
            window,
        ),
    decreases n,
{
    broadcast use {lemma_written_concat, lemma_written_one};

    let page = line_page(rows, line, window.digits);
    if n <= 0 {
        assert(above + page.take(n) =~= above);
    } else {
        lemma_with_rows(listing, above, rows, n - 1, line, window);
        let before = with_rows(listing, rows, n - 1, line, window);
        let so_far = above + page.take(n - 1);
        assert(above + page.take(n) =~= so_far.push(page[n - 1]));
        lemma_window_more(so_far, page[n - 1], window.skip, window.limit);
        if before.total >= window.skip && before.emitted < window.limit {
            let number = if n == 1 {
                Some((line + 1) as nat)
            } else {
                None
            };
            let written = written_rows(unwritten(), before.ops);
            lemma_row_written(rows[n - 1], number, window.digits, written);
            assert(page[n - 1] == (gutter_with(number, window.digits), code_text(rows[n - 1])));
        }
    }
}

/// A listing says the rows of its lines from `skip` on, at most `limit` of them: each line
/// number once, on the first row of its line, before the code of that row; further rows of the
/// line behind a blank gutter of the same width.
pub proof fn listing_numbers_each_line_once(
    regions: Seq<Seq<Piece>>,
    n: int,
    width: int,
    window: ListingWindow,
)
    requires
        0 <= n <= regions.len(),
        window.skip >= 0,
        window.limit >= 0,
        window.digits >= digits_of(n as nat),
    ensures
        written_rows(unwritten(), listed(regions, n, width, window).ops).rows == window_of(
            page_of(regions, n, width, window.digits),
            window.skip,
            window.limit,
        ),
{
    lemma_listed(regions, n, n, width, window);
}

proof fn lemma_listed(
    regions: Seq<Seq<Piece>>,
    n: int,
    last: int,
    width: int,
    window: ListingWindow,
)
    requires
        0 <= n <= last <= regions.len(),
        window.skip >= 0,
        window.limit >= 0,
        window.digits >= digits_of(last as nat),
    ensures
        ({
            let listing = listed(regions, n, width, window);
            let page = written_rows(unwritten(), listing.ops);
            let rows = page_of(regions, n, width, window.digits);
            &&& page.rows == window_of(rows, window.skip, window.limit)
            &&& listing.emitted == page.rows.len()
            &&& listing.emitted < window.limit ==> lists(listing, rows, window)
            &&& n == 0 ==> lists(listing, rows, window)
        }),
    decreases n,
{
    broadcast use {lemma_written_concat, lemma_written_one};

    let line_of = |line: int| line_page(split_rows(regions[line], width), line, window.digits);
    let all = Seq::new(n as nat, line_of);
    if n <= 0 {
        assert(all =~= Seq::<Seq<PrintedRow>>::empty());
        assert(window_of(all.flatten(), window.skip, window.limit) =~= Seq::<PrintedRow>::empty());
    } else {
        lemma_listed(regions, n - 1, last, width, window);
        let before = listed(regions, n - 1, width, window);
        let front = Seq::new((n - 1) as nat, line_of);
        assert(all =~= front.push(line_of(n - 1)));
        front.lemma_flatten_push(line_of(n - 1));
        let above = page_of(regions, n - 1, width, window.digits);
        let rows = page_of(regions, n, width, window.digits);
        assert(rows == above + line_of(n - 1));
        if before.emitted >= window.limit {
            assert(window_of(rows, window.skip, window.limit) =~= window_of(
                above,
                window.skip,
                window.limit,
            ));
        } else {
            let split = split_rows(regions[n - 1], width);
            let marked = Listing {
                ops: if split.len() > 1 {
                    before.ops.push(SpanOp::MarkWrapped)
                } else {
                    before.ops
                },
                ..before
            };
            assert(before.ops.push(SpanOp::MarkWrapped) =~= before.ops + seq![
                SpanOp::MarkWrapped,
            ]);
            assert(lists(marked, above, window));
            decimal_grows(n as nat, last as nat);
            lemma_with_rows(marked, above, split, split.len() as int, n - 1, window);
            let page = line_page(split, n - 1, window.digits);
            assert(page.take(split.len() as int) =~= page);
        }
    }
}

/// A larger number has no fewer digits.
pub proof fn decimal_grows(a: nat, b: nat)
    requires
        a <= b,
    ensures
        decimal(a).len() <= decimal(b).len(),
    decreases b,
{
    if a >= 10 {
        decimal_grows(a / 10, b / 10);
    }
}

/// The number that some digits stand for.
pub open spec fn read_decimal(text: Seq<char>) -> int
    decreases text.len(),
{
    if text.len() == 0 {
        0
    } else {
        10 * read_decimal(text.drop_last()) + (text.last() as int - '0' as int)
    }
}

/// A number in decimal digits reads as that number, and has no zero in front of it.
pub proof fn decimal_reads_as_its_number(n: nat)
    ensures
        read_decimal(decimal(n)) == n,
        decimal(n).len() > 0,
        forall|i: int| 0 <= i < decimal(n).len() ==> '0' <= #[trigger] decimal(n)[i] <= '9',
        n > 0 ==> decimal(n)[0] != '0',
    decreases n,
{
    let text = decimal(n);
    if n < 10 {
        assert(text.drop_last() =~= Seq::<char>::empty());
        assert(read_decimal(text.drop_last()) == 0);
    } else {
        decimal_reads_as_its_number(n / 10);
        assert(text.drop_last() =~= decimal(n / 10));
    }
}

} // verus!
