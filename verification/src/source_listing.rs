//! Source files with line numbers, a window of rows at a time.
use vstd::prelude::*;
use crate::code_block::{spaces, spaces_text};
use crate::highlight::{
    past_lines, pieces_of, pieces_ops, piece_rows, print_split_regions, regions_of, reset,
    split_regions_into_rows, split_rows, LineHighlighter, Piece, Region, SyntaxSets,
};
use crate::numbers::{decimal, decimal_text};
use crate::spans::{
    all_written, text_option, lemma_all_written, lemma_written_after, printed_gutter, ColorValue,
    NamedColor, SpanCollector, SpanOp, StyleChange,
};
use crate::text::{chars_of, lines_of, split_lines, str_option, texts};

verus! {

/// What has been written of a listing, and the rows emitted and passed so far.
pub struct Listing {
    pub ops: Seq<SpanOp>,
    pub emitted: int,
    pub total: int,
}

/// Which rows of a listing are emitted: those from `skip` on, at most `limit` of them.
/// `digits` is the width of its line numbers.
pub struct ListingWindow {
    pub skip: int,
    pub limit: int,
    pub digits: int,
}

/// A line number, right-aligned behind a space.
pub open spec fn line_number(n: nat, digits: int) -> Seq<char> {
    seq![' '] + spaces(digits - decimal(n).len()) + decimal(n)
}

/// What is written for one row of a listing; `number` where it is the first of its line.
pub open spec fn listing_row_ops(row: Seq<Piece>, number: Option<nat>, digits: int) -> Seq<SpanOp> {
    seq![printed_gutter("  "@)] + (match number {
        Some(n) => seq![
            SpanOp::SetStyle { change: StyleChange::Fg(ColorValue::Named(NamedColor::DarkGrey)) },
            printed_gutter(line_number(n, digits)),
            reset(),
            printed_gutter("   "@),
        ],
        None => seq![printed_gutter(spaces(1 + digits + 3))],
    }) + pieces_ops(row, None).push(reset()) + seq![SpanOp::Newline]
}

/// A listing after the first `n` rows of line `line`.
pub open spec fn with_rows(
    listing: Listing,
    rows: Seq<Seq<Piece>>,
    n: int,
    line: int,
    window: ListingWindow,
) -> Listing
    decreases n,
{
    if n <= 0 {
        listing
    } else {
        let before = with_rows(listing, rows, n - 1, line, window);
        if before.total >= window.skip && before.emitted < window.limit {
            Listing {
                ops: before.ops + listing_row_ops(
                    rows[n - 1],
                    if n == 1 {
                        Some((line + 1) as nat)
                    } else {
                        None
                    },
                    window.digits,
                ),
                emitted: before.emitted + 1,
                total: before.total + 1,
            }
        } else {
            Listing { total: before.total + 1, ..before }
        }
    }
}

/// A listing after its first `n` lines, coloured by `regions`.
pub open spec fn listed(
    regions: Seq<Seq<Piece>>,
    n: int,
    width: int,
    window: ListingWindow,
) -> Listing
    decreases n,
{
    if n <= 0 {
        Listing { ops: Seq::empty(), emitted: 0, total: 0 }
    } else {
        let before = listed(regions, n - 1, width, window);
        if before.emitted >= window.limit {
            before
        } else {
            let rows = split_rows(regions[n - 1], width);
            with_rows(
                Listing {
                    ops: if rows.len() > 1 {
                        before.ops.push(SpanOp::MarkWrapped)
                    } else {
                        before.ops
                    },
                    ..before
                },
                rows,
                rows.len() as int,
                n - 1,
                window,
            )
        }
    }
}

/// A line number, right-aligned behind a space.
fn line_number_text(n: usize, digits: usize) -> (text: String)
    ensures
        text@ == line_number(n as nat, digits as int),
{
    let number = decimal_text(n as u64);
    let len = chars_of(number.as_str()).len();
    let mut text = String::from_str(" ");
    text.append(spaces_text(digits.saturating_sub(len)).as_str());
    text.append(number.as_str());
    proof {
        reveal_strlit(" ");
        assert(spaces(digits - decimal(n as nat).len()) =~= spaces(
            digits.saturating_sub(len) as int,
        ));
        assert(text@ =~= line_number(n as nat, digits as int));
    }
    text
}

/// Draws one row of a listing.
pub fn render_listing_row(
    out: &mut SpanCollector,
    row: &Vec<Region>,
    number: Option<usize>,
    digits: usize,
)
    requires
        digits <= 20,
    ensures
        final(out)@ == all_written(
            old(out)@,
            listing_row_ops(
                pieces_of(row@),
                match number {
                    Some(n) => Some(n as nat),
                    None => None,
                },
                digits as int,
            ),
        ),
{
    let ghost start = out@;
    let ghost mut ops: Seq<SpanOp> = Seq::empty();
    out.print_gutter("  ");
    proof {
        lemma_written_after(start, ops, printed_gutter("  "@));
        ops = ops.push(printed_gutter("  "@));
    }
    if let Some(n) = number {
        out.set_fg(ColorValue::Named(NamedColor::DarkGrey));
        out.print_gutter(line_number_text(n, digits).as_str());
        out.reset_style();
        out.print_gutter("   ");
        proof {
            let fg = SpanOp::SetStyle {
                change: StyleChange::Fg(ColorValue::Named(NamedColor::DarkGrey)),
            };
            lemma_written_after(start, ops, fg);
            ops = ops.push(fg);
            let number = printed_gutter(line_number(n as nat, digits as int));
            lemma_written_after(start, ops, number);
            ops = ops.push(number);
            lemma_written_after(start, ops, reset());
            ops = ops.push(reset());
            lemma_written_after(start, ops, printed_gutter("   "@));
            ops = ops.push(printed_gutter("   "@));
        }
    } else {
        out.print_gutter(spaces_text(1 + digits + 3).as_str());
        proof {
            let op = printed_gutter(spaces(1 + digits + 3));
            lemma_written_after(start, ops, op);
            ops = ops.push(op);
        }
    }
    let ghost head = ops;
    print_split_regions(out, row, None);
    out.newline();
    proof {
        let body = pieces_ops(pieces_of(row@), None).push(reset());
        lemma_all_written(start, head, body);
        lemma_written_after(start, head + body, SpanOp::Newline);
        assert((head + body).push(SpanOp::Newline) =~= listing_row_ops(
            pieces_of(row@),
            match number {
                Some(n) => Some(n as nat),
                None => None,
            },
            digits as int,
        ));
    }
}

/// Rows passed, as far as they are counted: past the largest number that can be skipped it
/// makes no difference how many they are.
pub open spec fn counted(rows: int) -> int {
    if rows > u16::MAX {
        u16::MAX as int
    } else {
        rows
    }
}

/// Draws one line of a listing.
fn render_listing_line(
    out: &mut SpanCollector,
    regions: &Vec<Region>,
    line: usize,
    width: usize,
    skip: u16,
    limit: u16,
    digits: usize,
    total: &mut u16,
    emitted: &mut u16,
    Ghost(start): Ghost<crate::spans::CollectorView>,
    Ghost(before): Ghost<Listing>,
)
    requires
        width >= 1,
        digits <= 20,
        line < usize::MAX,
        old(out)@ == all_written(start, before.ops),
        before.emitted == *old(emitted),
        before.total >= 0,
        counted(before.total) == *old(total),
        *old(emitted) < limit,
    ensures
        ({
            let rows = split_rows(pieces_of(regions@), width as int);
            let window = ListingWindow {
                skip: skip as int,
                limit: limit as int,
                digits: digits as int,
            };
            let after = with_rows(
                Listing {
                    ops: if rows.len() > 1 {
                        before.ops.push(SpanOp::MarkWrapped)
                    } else {
                        before.ops
                    },
                    ..before
                },
                rows,
                rows.len() as int,
                line as int,
                window,
            );
            &&& final(out)@ == all_written(start, after.ops)
            &&& *final(emitted) == after.emitted
            &&& *final(total) == counted(after.total)
            &&& *final(emitted) <= limit
            &&& after.total == before.total + rows.len()
        }),
{
    let ghost rows = split_rows(pieces_of(regions@), width as int);
    let ghost window = ListingWindow {
        skip: skip as int,
        limit: limit as int,
        digits: digits as int,
    };
    let visual_rows = split_regions_into_rows(out, regions, width);
    let ghost marked = Listing {
        ops: if rows.len() > 1 {
            before.ops.push(SpanOp::MarkWrapped)
        } else {
            before.ops
        },
        ..before
    };
    proof {
        lemma_written_after(start, before.ops, SpanOp::MarkWrapped);
    }
    let mut i: usize = 0;
    while i < visual_rows.len()
        invariant
            i <= visual_rows@.len(),
            digits <= 20,
            line < usize::MAX,
            piece_rows(visual_rows@) == rows,
            before.total >= 0,
            window == (ListingWindow {
                skip: skip as int,
                limit: limit as int,
                digits: digits as int,
            }),
            marked.total == before.total,
            ({
                let now = with_rows(marked, rows, i as int, line as int, window);
                &&& out@ == all_written(start, now.ops)
                &&& *emitted == now.emitted
                &&& *total == counted(now.total)
                &&& *emitted <= limit
                &&& now.total == before.total + i
            }),
        decreases visual_rows@.len() - i,
    {
        let ghost now = with_rows(marked, rows, i as int, line as int, window);
        proof {
            assert(rows[i as int] == pieces_of(visual_rows@[i as int]@));
        }
        if *total >= skip && *emitted < limit {
            let number = if i == 0 {
                Some(line + 1)
            } else {
                None
            };
            render_listing_row(out, &visual_rows[i], number, digits);
            *emitted = *emitted + 1;
            proof {
                lemma_all_written(
                    start,
                    now.ops,
                    listing_row_ops(
                        rows[i as int],
                        match number {
                            Some(n) => Some(n as nat),
                            None => None,
                        },
                        digits as int,
                    ),
                );
            }
        }
        *total = total.saturating_add(1);
        i += 1;
    }
}

/// Decimal digits of a length.
pub open spec fn digits_of(n: nat) -> int {
    decimal(n).len() as int
}

/// Columns of a row of a listing with line numbers of so many digits.
pub open spec fn listing_width(term_width: int, digits: int) -> int {
    let room = term_width - (2 + 1 + digits + 3 + 1);
    if room < 1 {
        1
    } else {
        room
    }
}

/// The rows that may be emitted: all that can be counted where no limit is set.
pub open spec fn emit_limit(max_rows: u16) -> u16 {
    if max_rows == 0 {
        u16::MAX
    } else {
        max_rows
    }
}

proof fn lemma_decimal_len(n: nat)
    requires
        n <= u64::MAX,
    ensures
        1 <= decimal(n).len() <= 20,
{
    lemma_decimal_digits(n, 20);
}

spec fn ten_to(k: nat) -> nat
    decreases k,
{
    if k == 0 {
        1
    } else {
        10 * ten_to((k - 1) as nat)
    }
}

proof fn lemma_decimal_digits(n: nat, k: nat)
    requires
        k >= 1,
        n < ten_to(k) || k == 20 && n <= u64::MAX,
    ensures
        1 <= decimal(n).len() <= k,
    decreases k,
{
    if k == 20 {
        reveal_with_fuel(ten_to, 21);
        assert(n < ten_to(20));
    }
    if n >= 10 {
        if k == 1 {
            reveal_with_fuel(ten_to, 2);
        } else {
            assert(ten_to(k) == 10 * ten_to((k - 1) as nat));
            lemma_decimal_digits(n / 10, (k - 1) as nat);
        }
    }
}

/// Draws numbered lines of code: the rows from `skip` on, at most `max_rows` of them, or
/// all where that is 0. The rows drawn.
fn render_highlighted(
    out: &mut SpanCollector,
    lines: &Vec<String>,
    highlighter: LineHighlighter,
    skip: u16,
    max_rows: u16,
    term_width: usize,
) -> (emitted: u16)
    requires
        highlighter.wf(),
    ensures
        ({
            let digits = digits_of(lines@.len());
            let listing = listed(
                regions_of(highlighter.lines(), highlighter.set(), texts(lines@)),
                lines@.len() as int,
                listing_width(term_width as int, digits),
                ListingWindow { skip: skip as int, limit: emit_limit(max_rows) as int, digits },
            );
            final(out)@ == all_written(old(out)@, listing.ops) && emitted == listing.emitted
        }),
{
    let ghost start = out@;
    let ghost all = texts(lines@);
    let ghost fresh = highlighter.lines();
    let ghost set = highlighter.set();
    let ghost regions = regions_of(fresh, set, all);
    let mut highlighter = highlighter;
    let count = decimal_text(lines.len() as u64);
    let digits = chars_of(count.as_str()).len();
    proof {
        lemma_decimal_len(lines@.len());
    }
    let room = term_width.saturating_sub(2 + 1 + digits + 3 + 1);
    let width = if room < 1 {
        1
    } else {
        room
    };
    let limit = if max_rows == 0 {
        u16::MAX
    } else {
        max_rows
    };
    let ghost window = ListingWindow {
        skip: skip as int,
        limit: limit as int,
        digits: digits as int,
    };
    let mut total: u16 = 0;
    let mut emitted: u16 = 0;
    let mut i: usize = 0;
    proof {
        assert(all_written(start, Seq::<SpanOp>::empty()) == start);
    }
    while i < lines.len() && emitted < limit
        invariant
            i <= lines@.len(),
            all == texts(lines@),
            width >= 1,
            digits <= 20,
            limit >= 1,
            emitted <= limit,
            window == (ListingWindow {
                skip: skip as int,
                limit: limit as int,
                digits: digits as int,
            }),
            highlighter.wf(),
            highlighter.set() == set,
            highlighter.lines() == past_lines(fresh, set, all, i as int),
            regions == regions_of(fresh, set, all),
            ({
                let now = listed(regions, i as int, width as int, window);
                &&& out@ == all_written(start, now.ops)
                &&& emitted == now.emitted
                &&& now.total >= 0
                &&& total == counted(now.total)
            }),
        decreases lines@.len() - i,
    {
        let found = highlighter.next_line(lines[i].as_str());
        let ghost now = listed(regions, i as int, width as int, window);
        proof {
            assert(regions[i as int] == pieces_of(found@));
        }
        render_listing_line(
            out,
            &found,
            i,
            width,
            skip,
            limit,
            digits,
            &mut total,
            &mut emitted,
            Ghost(start),
            Ghost(now),
        );
        i += 1;
    }
    proof {
        lemma_listing_ends(regions, i as int, lines@.len() as int, width as int, window);
    }
    emitted
}

proof fn lemma_listing_ends(
    regions: Seq<Seq<Piece>>,
    i: int,
    n: int,
    width: int,
    window: ListingWindow,
)
    requires
        0 <= i <= n,
        i == n || listed(regions, i, width, window).emitted >= window.limit,
    ensures
        listed(regions, n, width, window) == listed(regions, i, width, window),
    decreases n,
{
    if i < n {
        lemma_listing_ends(regions, i, n - 1, width, window);
    }
}

/// A listing emits the rows of its window and no others: of the rows passed, those from
/// `skip` on, at most `limit` of them.
pub proof fn listing_stays_in_window(
    regions: Seq<Seq<Piece>>,
    n: int,
    width: int,
    window: ListingWindow,
)
    requires
        window.skip >= 0,
        window.limit >= 0,
    ensures
        ({
            let listing = listed(regions, n, width, window);
            let past = if listing.total > window.skip {
                listing.total - window.skip
            } else {
                0
            };
            listing.emitted == if past < window.limit {
                past
            } else {
                window.limit
            }
        }),
    decreases n,
{
    if n > 0 {
        listing_stays_in_window(regions, n - 1, width, window);
        let before = listed(regions, n - 1, width, window);
        if before.emitted < window.limit {
            let rows = split_rows(regions[n - 1], width);
            let marked = Listing {
                ops: if rows.len() > 1 {
                    before.ops.push(SpanOp::MarkWrapped)
                } else {
                    before.ops
                },
                ..before
            };
            lemma_rows_in_window(marked, rows, rows.len() as int, n - 1, window);
        }
    }
}

spec fn in_window(listing: Listing, window: ListingWindow) -> bool {
    let past = if listing.total > window.skip {
        listing.total - window.skip
    } else {
        0
    };
    listing.emitted == if past < window.limit {
        past
    } else {
        window.limit
    }
}

proof fn lemma_rows_in_window(
    listing: Listing,
    rows: Seq<Seq<Piece>>,
    n: int,
    line: int,
    window: ListingWindow,
)
    requires
        window.skip >= 0,
        window.limit >= 0,
        in_window(listing, window),
    ensures
        in_window(with_rows(listing, rows, n, line, window), window),
    decreases n,
{
    if n > 0 {
        lemma_rows_in_window(listing, rows, n - 1, line, window);
    }
}

/// Where the last `c` of a text is, or -1.
pub open spec fn last_of(text: Seq<char>, c: char) -> int
    decreases text.len(),
{
    if text.len() == 0 {
        -1
    } else if text.last() == c {
        text.len() - 1
    } else {
        last_of(text.drop_last(), c)
    }
}

/// What follows the last slash of a path.
pub open spec fn last_component(path: Seq<char>) -> Seq<char> {
    path.skip(last_of(path, '/') + 1)
}

/// Whether what follows the last slash of a path is its file name on every platform. A path
/// that begins with two slashes names a computer on some.
pub open spec fn has_plain_name(path: Seq<char>) -> bool {
    let name = last_component(path);
    &&& name.len() > 0
    &&& name != "."@
    &&& name != ".."@
    &&& !path.contains('\\')
    &&& !path.contains(':')
    &&& !starts_with_slashes(path)
}

/// Whether a path begins with two slashes.
pub open spec fn starts_with_slashes(path: Seq<char>) -> bool {
    path.len() > 1 && path[0] == '/' && path[1] == '/'
}

/// What follows the last dot of a file name, unless nothing is before that dot.
pub open spec fn name_extension(name: Seq<char>) -> Option<Seq<char>> {
    if last_of(name, '.') > 0 {
        Some(name.skip(last_of(name, '.') + 1))
    } else {
        None
    }
}

/// `extension` can be that of a path. For paths whose file name depends on the platform, or
/// that end otherwise than in a name, it is not said which it is.
pub open spec fn may_extend(path: Seq<char>, extension: Option<Seq<char>>) -> bool {
    &&& has_plain_name(path) ==> extension == name_extension(last_component(path))
    &&& !path.contains('.') ==> extension is None
}

/// `Path::extension` of the standard library, as text: what follows the last dot of the
/// file name, unless the name has no other dot than one at its start. What the file name is
/// of a path that ends in a slash or in dots, that begins with two slashes, or that has
/// characters which some platform takes apart otherwise, is not stated.
#[verifier::external_body]
pub(crate) fn path_extension(path: &str) -> (extension: Option<String>)
    ensures
        may_extend(path@, text_option(extension)),
{
    std::path::Path::new(path).extension().and_then(|e| e.to_str()).map(|e| e.to_string())
}

/// What a listing of a file in the syntax of an extension leaves of a collector.
pub open spec fn file_listed(
    sets: SyntaxSets,
    extension: Seq<char>,
    content: Seq<char>,
    skip: u16,
    max_rows: u16,
    term_width: usize,
    before: crate::spans::CollectorView,
    after: crate::spans::CollectorView,
    emitted: u16,
) -> bool {
    let lines = lines_of(content);
    let digits = digits_of(lines.len());
    let listing = listed(
        regions_of(sets.fresh(extension, None), sets.syntax_set(), lines),
        lines.len() as int,
        listing_width(term_width as int, digits),
        ListingWindow { skip: skip as int, limit: emit_limit(max_rows) as int, digits },
    );
    after == all_written(before, listing.ops) && emitted == listing.emitted
}

/// The extension that a file is listed by: the one given, that of its path, or that of plain
/// text.
pub open spec fn listed_as(
    path: Seq<char>,
    given: Option<Seq<char>>,
    extension: Seq<char>,
) -> bool {
    match given {
        Some(given) => extension == given,
        None => exists|of_path: Option<Seq<char>>| #[trigger]
            may_extend(path, of_path) && extension == (match of_path {
                Some(found) => found,
                None => "txt"@,
            }),
    }
}

/// Draws a source file: the rows from `skip` on, at most `max_rows` of them, or all where
/// that is 0. The rows drawn.
pub fn print_syntax_file(
    out: &mut SpanCollector,
    content: &str,
    path: &str,
    skip: u16,
    max_rows: u16,
    term_width: usize,
    sets: &SyntaxSets,
) -> (emitted: u16)
    requires
        sets.wf(),
        sets.warm(),
    ensures
        exists|extension: Seq<char>| #[trigger]
            listed_as(path@, None, extension) && file_listed(
                *sets,
                extension,
                content@,
                skip,
                max_rows,
                term_width,
                old(out)@,
                final(out)@,
                emitted,
            ),
{
    print_syntax_file_ext(out, content, path, None, skip, max_rows, term_width, sets)
}

/// As [`print_syntax_file`], in the syntax of an extension if one is given.
pub fn print_syntax_file_ext(
    out: &mut SpanCollector,
    content: &str,
    path: &str,
    syntax_ext: Option<&str>,
    skip: u16,
    max_rows: u16,
    term_width: usize,
    sets: &SyntaxSets,
) -> (emitted: u16)
    requires
        sets.wf(),
        sets.warm(),
    ensures
        exists|extension: Seq<char>| #[trigger]
            listed_as(path@, str_option(syntax_ext), extension) && file_listed(
                *sets,
                extension,
                content@,
                skip,
                max_rows,
                term_width,
                old(out)@,
                final(out)@,
                emitted,
            ),
{
    let extension = match syntax_ext {
        Some(extension) => String::from_str(extension),
        None => {
            let of_path = path_extension(path);
            proof {
                assert(may_extend(path@, text_option(of_path)));
            }
            match of_path {
                Some(extension) => extension,
                None => String::from_str("txt"),
            }
        },
    };
    proof {
        assert(listed_as(path@, str_option(syntax_ext), extension@));
    }
    let lines = split_lines(content);
    proof {
        assert(texts(lines@).len() == lines@.len());
    }
    match sets.highlighter(extension.as_str(), None) {
        Some(highlighter) => render_highlighted(
            out,
            &lines,
            highlighter,
            skip,
            max_rows,
            term_width,
        ),
        None => 0,
    }
}

/// The extension that a path with a plain file name is listed by is the one that the name
/// ends in.
pub proof fn plain_names_fix_the_extension(path: Seq<char>, extension: Seq<char>)
    requires
        has_plain_name(path),
        listed_as(path, None, extension),
    ensures
        extension == (match name_extension(last_component(path)) {
            Some(found) => found,
            None => "txt"@,
        }),
{
}

} // verus!
