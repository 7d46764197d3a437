//! Places in the prompt by bytes: of its source, of what is displayed, and of the rows that
//! the display is wrapped into, joined by line breaks.
use vstd::prelude::*;
use vstd::utf8::encode_utf8;
use crate::prompt_spans::{
    build_char_kinds, display_kinds, displayed, label_at, part_text, parts, parts_from, plain_part,
    safe_char, safe_text, spans_to_string, Span, SpanPart, SpanScan, SpanSources, ATTACHMENT_MARKER,
};
use crate::prompt_style::SpanKind;
use crate::text::{byte_len, text_bytes, texts};
use crate::utf8::{char_len, lemma_bytes_of_concat, lemma_bytes_of_push, lemma_bytes_of_take};

verus! {

/// Bytes of the character that stands for an attachment.
pub const MARKER_BYTES: usize = 3;

/// Bytes of the source that a part stands for.
pub open spec fn part_source(part: SpanPart) -> nat {
    match part {
        SpanPart::Plain(text) => text_bytes(text),
        SpanPart::AtRef(text) => text_bytes(text),
        SpanPart::Attachment(_) => MARKER_BYTES as nat,
        SpanPart::Tab => 1,
    }
}

/// Whether the bytes of a part are displayed one by one.
pub open spec fn is_literal(part: SpanPart) -> bool {
    part is Plain || part is AtRef
}

/// Bytes of the source that the parts stand for.
pub open spec fn source_bytes(spans: Seq<SpanPart>) -> nat
    decreases spans.len(),
{
    if spans.len() == 0 {
        0
    } else {
        source_bytes(spans.drop_last()) + part_source(spans.last())
    }
}

/// Bytes that the parts are displayed as.
pub open spec fn shown_bytes(spans: Seq<SpanPart>) -> nat
    decreases spans.len(),
{
    if spans.len() == 0 {
        0
    } else {
        shown_bytes(spans.drop_last()) + text_bytes(part_text(spans.last()))
    }
}

/// For every byte of the source, the displayed byte that it is at.
pub open spec fn source_to_display(spans: Seq<SpanPart>) -> Seq<usize>
    decreases spans.len(),
{
    if spans.len() == 0 {
        Seq::empty()
    } else {
        let start = shown_bytes(spans.drop_last());
        let part = spans.last();
        source_to_display(spans.drop_last()) + Seq::new(
            part_source(part),
            |k: int|
                if is_literal(part) {
                    (start + k) as usize
                } else {
                    start as usize
                },
        )
    }
}

/// For every byte of a source of so many bytes, the displayed byte that it is at. Bytes that
/// no part stands for are at the start.
pub open spec fn source_map(spans: Seq<SpanPart>, src_len: nat) -> Seq<usize> {
    Seq::new(
        src_len,
        |b: int|
            if b < source_to_display(spans).len() {
                source_to_display(spans)[b]
            } else {
                0
            },
    )
}

/// For every displayed byte, the byte of the source that it stands for.
pub open spec fn display_to_source(spans: Seq<SpanPart>) -> Seq<usize>
    decreases spans.len(),
{
    if spans.len() == 0 {
        Seq::empty()
    } else {
        let start = source_bytes(spans.drop_last());
        let part = spans.last();
        display_to_source(spans.drop_last()) + Seq::new(
            text_bytes(part_text(part)),
            |k: int|
                if is_literal(part) {
                    (start + k) as usize
                } else {
                    start as usize
                },
        )
    }
}

proof fn lemma_map_lengths(spans: Seq<SpanPart>)
    ensures
        source_to_display(spans).len() == source_bytes(spans),
        display_to_source(spans).len() == shown_bytes(spans),
        shown_bytes(spans) == text_bytes(displayed(spans)),
    decreases spans.len(),
{
    if spans.len() > 0 {
        lemma_map_lengths(spans.drop_last());
        lemma_bytes_of_concat(displayed(spans.drop_last()), part_text(spans.last()));
    }
}

proof fn lemma_bytes_prefix(spans: Seq<SpanPart>, n: int)
    requires
        0 <= n <= spans.len(),
    ensures
        source_bytes(spans.take(n)) <= source_bytes(spans),
        shown_bytes(spans.take(n)) <= shown_bytes(spans),
    decreases spans.len(),
{
    if n == spans.len() {
        assert(spans.take(n) =~= spans);
    } else {
        lemma_bytes_prefix(spans.drop_last(), n);
        assert(spans.drop_last().take(n) =~= spans.take(n));
    }
}

fn push_run(map: &mut Vec<usize>, count: usize, from: usize, counting: bool)
    requires
        counting ==> from + count <= usize::MAX,
    ensures
        final(map)@ == old(map)@ + Seq::new(
            count as nat,
            |k: int|
                if counting {
                    (from + k) as usize
                } else {
                    from
                },
        ),
{
    let ghost before = map@;
    let mut k: usize = 0;
    while k < count
        invariant
            k <= count,
            counting ==> from + count <= usize::MAX,
            map@ == before + Seq::new(
                k as nat,
                |k: int|
                    if counting {
                        (from + k) as usize
                    } else {
                        from
                    },
            ),
        decreases count - k,
    {
        map.push(if counting { from + k } else { from });
        k += 1;
        proof {
            assert(map@ =~= before + Seq::new(
                k as nat,
                |k: int|
                    if counting {
                        (from + k) as usize
                    } else {
                        from
                    },
            ));
        }
    }
    proof {
        assert(map@ =~= before + Seq::new(
            count as nat,
            |k: int|
                if counting {
                    (from + k) as usize
                } else {
                    from
                },
        ));
    }
}

/// For every byte of the source the displayed byte that it is at, and the other way round.
/// Each map ends with the end of the other text. The parts may stand for one byte more than
/// there is.
pub fn build_src_disp_byte_maps(spans: &Vec<Span>, src_len: usize, display_len: usize) -> (maps: (
    Vec<usize>,
    Vec<usize>,
))
    requires
        source_bytes(parts(spans@)) <= src_len + 1,
        src_len < usize::MAX,
        shown_bytes(parts(spans@)) == display_len,
    ensures
        maps.0@ == source_map(parts(spans@), src_len as nat).push(display_len),
        maps.1@ == display_to_source(parts(spans@)).push(src_len),
{
    let ghost all = parts(spans@);
    let mut s2d: Vec<usize> = Vec::new();
    let mut d2s: Vec<usize> = Vec::new();
    let mut s_byte: usize = 0;
    let mut d_byte: usize = 0;
    let mut i: usize = 0;
    proof {
        assert(all.take(0) =~= Seq::<SpanPart>::empty());
        assert(s2d@ =~= source_to_display(all.take(0)));
        assert(d2s@ =~= display_to_source(all.take(0)));
    }
    while i < spans.len()
        invariant
            i <= spans@.len(),
            all == parts(spans@),
            source_bytes(all) <= src_len + 1,
            src_len < usize::MAX,
            shown_bytes(all) == display_len,
            s_byte == source_bytes(all.take(i as int)),
            d_byte == shown_bytes(all.take(i as int)),
            s2d@ == source_to_display(all.take(i as int)),
            d2s@ == display_to_source(all.take(i as int)),
        decreases spans@.len() - i,
    {
        proof {
            assert(all.take(i + 1).drop_last() =~= all.take(i as int));
            assert(all.take(i + 1).last() == spans@[i as int]@);
            lemma_bytes_prefix(all, i + 1);
        }
        let (source, shown, literal): (usize, usize, bool) = match &spans[i] {
            Span::Plain(text) => (byte_len(text.as_str()), byte_len(text.as_str()), true),
            Span::AtRef(text) => (byte_len(text.as_str()), byte_len(text.as_str()), true),
            Span::Attachment(label) => (MARKER_BYTES, byte_len(label.as_str()), false),
            Span::Tab => (1, tab_bytes(), false),
        };
        push_run(&mut s2d, source, d_byte, literal);
        push_run(&mut d2s, shown, s_byte, literal);
        proof {
            assert(s2d@ =~= source_to_display(all.take(i + 1)));
            assert(d2s@ =~= display_to_source(all.take(i + 1)));
        }
        s_byte += source;
        d_byte += shown;
        i += 1;
    }
    proof {
        assert(all.take(i as int) =~= all);
        lemma_map_lengths(all);
    }
    if s2d.len() > src_len {
        s2d.pop();
    }
    while s2d.len() < src_len
        invariant
            s2d@.len() <= src_len,
            source_bytes(all) <= src_len + 1,
            source_to_display(all).len() == source_bytes(all),
            forall|b: int|
                0 <= b < s2d@.len() ==> #[trigger] s2d@[b] == source_map(all, src_len as nat)[b],
            s2d@.len() < src_len ==> source_bytes(all) <= s2d@.len(),
        decreases src_len - s2d@.len(),
    {
        s2d.push(0);
    }
    proof {
        assert(s2d@ =~= source_map(all, src_len as nat));
    }
    s2d.push(display_len);
    d2s.push(src_len);
    (s2d, d2s)
}

/// Bytes that a tab is displayed as.
fn tab_bytes() -> (n: usize)
    ensures
        n == text_bytes(part_text(SpanPart::Tab)),
{
    proof {
        let a = Seq::<char>::empty();
        let spaces = part_text(SpanPart::Tab);
        assert(encode_utf8(a).len() == 0);
        lemma_bytes_of_push(a, ' ');
        lemma_bytes_of_push(a.push(' '), ' ');
        lemma_bytes_of_push(a.push(' ').push(' '), ' ');
        lemma_bytes_of_push(a.push(' ').push(' ').push(' '), ' ');
        assert(spaces =~= a.push(' ').push(' ').push(' ').push(' '));
    }
    4
}

/// Bytes of row `i`.
pub open spec fn row_bytes(rows: Seq<Seq<char>>, i: int) -> nat {
    text_bytes(rows[i])
}

/// The displayed byte at which row `i` begins. A line break between rows belongs to none.
pub open spec fn row_start(display: Seq<u8>, rows: Seq<Seq<char>>, i: int) -> int
    decreases i,
{
    if i <= 0 {
        0
    } else {
        let end = row_start(display, rows, i - 1) + row_bytes(rows, i - 1);
        if end < display.len() && display[end] == 10 {
            end + 1
        } else {
            end
        }
    }
}

/// The displayed byte at which row `i` ends.
pub open spec fn row_end(display: Seq<u8>, rows: Seq<Seq<char>>, i: int) -> int {
    row_start(display, rows, i) + row_bytes(rows, i)
}

/// Whether the break behind row `i` is a line break of the display.
pub open spec fn is_hard(display: Seq<u8>, rows: Seq<Seq<char>>, i: int) -> bool {
    row_start(display, rows, i + 1) > row_end(display, rows, i)
}

/// The byte of the joined rows at which row `i` begins.
pub open spec fn joined_start(rows: Seq<Seq<char>>, i: int) -> int
    decreases i,
{
    if i <= 0 {
        0
    } else {
        joined_start(rows, i - 1) + row_bytes(rows, i - 1) + 1
    }
}

/// Some rows, joined by line breaks.
pub open spec fn joined_rows(rows: Seq<Seq<char>>) -> Seq<char>
    decreases rows.len(),
{
    if rows.len() == 0 {
        Seq::empty()
    } else if rows.len() == 1 {
        rows[0]
    } else {
        joined_rows(rows.drop_last()).push('\n') + rows.last()
    }
}

/// Every row lies within the display.
pub open spec fn rows_fit(display: Seq<u8>, rows: Seq<Seq<char>>) -> bool {
    forall|i: int| 0 <= i < rows.len() ==> #[trigger] row_end(display, rows, i) <= display.len()
}

/// The byte of the joined rows for a displayed byte, by the first `n` rows.
pub open spec fn joined_of(display: Seq<u8>, rows: Seq<Seq<char>>, n: int, d: int) -> int
    decreases n,
{
    if n <= 0 {
        0
    } else if row_start(display, rows, n - 1) <= d < row_end(display, rows, n - 1) {
        joined_start(rows, n - 1) + (d - row_start(display, rows, n - 1))
    } else if d == row_end(display, rows, n - 1) && n < rows.len() && is_hard(
        display,
        rows,
        n - 1,
    ) {
        joined_start(rows, n - 1) + row_bytes(rows, n - 1)
    } else {
        joined_of(display, rows, n - 1, d)
    }
}

/// The displayed byte for a byte of the joined rows, by the first `n` rows.
pub open spec fn shown_of(display: Seq<u8>, rows: Seq<Seq<char>>, n: int, j: int) -> int
    decreases n,
{
    if n <= 0 {
        0
    } else if joined_start(rows, n - 1) <= j < joined_start(rows, n - 1) + row_bytes(
        rows,
        n - 1,
    ) {
        row_start(display, rows, n - 1) + (j - joined_start(rows, n - 1))
    } else if j == joined_start(rows, n - 1) + row_bytes(rows, n - 1) && n < rows.len() {
        row_end(display, rows, n - 1)
    } else {
        shown_of(display, rows, n - 1, j)
    }
}

/// The byte of the joined rows for a displayed byte, or for the end of the display.
pub open spec fn to_joined(display: Seq<u8>, rows: Seq<Seq<char>>, d: int) -> int {
    if d >= display.len() {
        text_bytes(joined_rows(rows)) as int
    } else {
        joined_of(display, rows, rows.len() as int, d)
    }
}

/// The displayed byte for a byte of the joined rows, or for their end.
pub open spec fn from_joined(display: Seq<u8>, rows: Seq<Seq<char>>, j: int) -> int {
    if j >= text_bytes(joined_rows(rows)) {
        display.len() as int
    } else {
        shown_of(display, rows, rows.len() as int, j)
    }
}

/// Where the joined rows have breaks of one kind, behind the first `n` rows.
pub open spec fn breaks(display: Seq<u8>, rows: Seq<Seq<char>>, n: int, hard: bool) -> Seq<usize>
    decreases n,
{
    if n <= 0 {
        Seq::empty()
    } else if n < rows.len() && is_hard(display, rows, n - 1) == hard {
        breaks(display, rows, n - 1, hard).push(
            (joined_start(rows, n - 1) + row_bytes(rows, n - 1)) as usize,
        )
    } else {
        breaks(display, rows, n - 1, hard)
    }
}

proof fn lemma_joined_bytes(rows: Seq<Seq<char>>)
    ensures
        rows.len() == 0 ==> text_bytes(joined_rows(rows)) == 0,
        rows.len() > 0 ==> text_bytes(joined_rows(rows)) == joined_start(
            rows,
            rows.len() as int,
        ) - 1,
    decreases rows.len(),
{
    if rows.len() == 1 {
        assert(joined_start(rows, 0) == 0);
    } else if rows.len() > 1 {
        let front = rows.drop_last();
        lemma_joined_bytes(front);
        lemma_bytes_of_push(joined_rows(front), '\n');
        assert(char_len('\n') == 1);
        lemma_bytes_of_concat(joined_rows(front).push('\n'), rows.last());
        lemma_joined_start_prefix(front, rows, front.len() as int);
    }
}

proof fn lemma_joined_start_prefix(a: Seq<Seq<char>>, b: Seq<Seq<char>>, i: int)
    requires
        0 <= i <= a.len() <= b.len(),
        forall|k: int| 0 <= k < a.len() ==> a[k] == b[k],
    ensures
        joined_start(a, i) == joined_start(b, i),
    decreases i,
{
    if i > 0 {
        lemma_joined_start_prefix(a, b, i - 1);
    }
}

proof fn lemma_starts(display: Seq<u8>, rows: Seq<Seq<char>>, m: int, n: int)
    requires
        0 <= m <= n,
    ensures
        0 <= row_start(display, rows, m) <= row_start(display, rows, n),
        m < n ==> row_end(display, rows, m) <= row_start(display, rows, n),
        0 <= joined_start(rows, m) <= joined_start(rows, n),
        m < n ==> joined_start(rows, m) + row_bytes(rows, m) < joined_start(rows, n),
    decreases n,
{
    if n > 0 {
        if m < n {
            lemma_starts(display, rows, m, n - 1);
        } else {
            lemma_starts(display, rows, m - 1, n - 1);
        }
    }
}

/// The prompt's text, wrapped, and how its places correspond.
#[derive(Debug)]
pub struct PromptWrap {
    pub rows: Vec<String>,
    pub joined: String,
    /// Bytes of `joined` at which a row was broken.
    pub soft_breaks: Vec<usize>,
    /// Bytes of `joined` at which the text has a line break.
    pub hard_breaks: Vec<usize>,
    pub src_len: usize,
    pub src_to_wrapped_byte: Vec<usize>,
    pub wrapped_to_src_byte: Vec<usize>,
}

/// What wrapping a text into `rows` gives.
pub open spec fn is_wrap(
    wrap: PromptWrap,
    spans: Seq<SpanPart>,
    src_len: int,
    rows: Seq<Seq<char>>,
) -> bool {
    let display = encode_utf8(displayed(spans));
    let s2d = source_map(spans, src_len as nat).push(display.len() as usize);
    let d2s = display_to_source(spans).push(src_len as usize);
    &&& texts(wrap.rows@) == rows
    &&& wrap.joined@ == joined_rows(rows)
    &&& wrap.soft_breaks@ == breaks(display, rows, rows.len() as int, false)
    &&& wrap.hard_breaks@ == breaks(display, rows, rows.len() as int, true)
    &&& wrap.src_len == src_len
    &&& wrap.src_to_wrapped_byte@.len() == src_len + 1
    &&& wrap.wrapped_to_src_byte@.len() == text_bytes(joined_rows(rows)) + 1
    &&& forall|b: int|
        0 <= b <= src_len ==> #[trigger] wrap.src_to_wrapped_byte@[b] == to_joined(
            display,
            rows,
            s2d[b] as int,
        )
    &&& forall|j: int|
        0 <= j <= text_bytes(joined_rows(rows)) ==> #[trigger] wrap.wrapped_to_src_byte@[j]
            == d2s[from_joined(display, rows, j)]
}

/// `wrap` can break the displayed parts into these rows.
pub open spec fn wraps_to<W: Fn(&str, &Vec<SpanKind>, usize) -> Vec<String>>(
    wrap: W,
    spans: Seq<SpanPart>,
    usable: usize,
    rows: Vec<String>,
) -> bool {
    exists|text: &str, kinds: Vec<SpanKind>| #[trigger]
        call_ensures(wrap, (text, &kinds, usable), rows) && text@ == displayed(spans) && kinds@
            == display_kinds(spans)
}

/// `wrap` can be asked to break the displayed parts, and the rows that it gives lie within
/// the display.
pub open spec fn can_wrap<W: Fn(&str, &Vec<SpanKind>, usize) -> Vec<String>>(
    wrap: W,
    spans: Seq<SpanPart>,
    usable: usize,
) -> bool {
    &&& forall|text: &str, kinds: &Vec<SpanKind>| #[trigger]
        call_requires(wrap, (text, kinds, usable))
    &&& forall|rows: Vec<String>| #[trigger]
        wraps_to(wrap, spans, usable, rows) ==> rows_fit(
            encode_utf8(displayed(spans)),
            texts(rows@),
        ) && text_bytes(joined_rows(texts(rows@))) < usize::MAX
}

fn zeros(n: usize) -> (v: Vec<usize>)
    ensures
        v@.len() == n,
        forall|i: int| 0 <= i < n ==> v@[i] == 0,
{
    let mut v: Vec<usize> = Vec::new();
    let mut i: usize = 0;
    while i < n
        invariant
            i <= n,
            v@.len() == i,
            forall|i: int| 0 <= i < v@.len() ==> v@[i] == 0,
        decreases n - i,
    {
        v.push(0);
        i += 1;
    }
    v
}

fn join_rows(rows: &Vec<String>) -> (joined: String)
    ensures
        joined@ == joined_rows(texts(rows@)),
{
    let ghost all = texts(rows@);
    let mut joined = String::new();
    let mut i: usize = 0;
    proof {
        assert(all.take(0) =~= Seq::<Seq<char>>::empty());
        assert(joined@ =~= joined_rows(all.take(0)));
    }
    while i < rows.len()
        invariant
            i <= rows@.len(),
            all == texts(rows@),
            joined@ == joined_rows(all.take(i as int)),
        decreases rows@.len() - i,
    {
        if i > 0 {
            joined.push('\n');
        }
        joined.append(rows[i].as_str());
        proof {
            assert(all.take(i + 1).drop_last() =~= all.take(i as int));
            assert(all.take(i + 1).last() == rows@[i as int]@);
            if i == 0 {
                assert(joined@ =~= rows@[0]@);
            }
        }
        i += 1;
    }
    proof {
        assert(all.take(i as int) =~= all);
    }
    joined
}

/// The displayed byte at which each row begins.
fn line_starts(display: &[u8], rows: &Vec<String>) -> (starts: Vec<usize>)
    requires
        rows_fit(display@, texts(rows@)),
    ensures
        starts@.len() == rows@.len(),
        forall|i: int|
            0 <= i < rows@.len() ==> #[trigger] starts@[i] == row_start(
                display@,
                texts(rows@),
                i,
            ),
{
    let ghost all = texts(rows@);
    let mut starts: Vec<usize> = Vec::new();
    let mut cursor: usize = 0;
    let mut i: usize = 0;
    while i < rows.len()
        invariant
            i <= rows@.len(),
            all == texts(rows@),
            rows_fit(display@, all),
            starts@.len() == i,
            cursor == row_start(display@, all, i as int),
            forall|k: int|
                0 <= k < i ==> #[trigger] starts@[k] == row_start(display@, all, k),
        decreases rows@.len() - i,
    {
        starts.push(cursor);
        let ghost end = row_end(display@, all, i as int);
        proof {
            assert(end <= display@.len());
            assert(all[i as int] == rows@[i as int]@);
            assert(display.len() <= usize::MAX);
        }
        cursor = cursor + byte_len(rows[i].as_str());
        if cursor < display.len() && display[cursor] == 10 {
            cursor += 1;
        }
        i += 1;
    }
    starts
}

struct RowMaps {
    disp_to_joined: Vec<usize>,
    joined_to_disp: Vec<usize>,
    soft_breaks: Vec<usize>,
    hard_breaks: Vec<usize>,
}

spec fn maps_rows(maps: RowMaps, display: Seq<u8>, rows: Seq<Seq<char>>, n: int) -> bool {
    &&& maps.disp_to_joined@.len() == display.len() + 1
    &&& maps.joined_to_disp@.len() == text_bytes(joined_rows(rows)) + 1
    &&& maps.soft_breaks@ == breaks(display, rows, n, false)
    &&& maps.hard_breaks@ == breaks(display, rows, n, true)
    &&& forall|d: int|
        0 <= d <= display.len() ==> #[trigger] maps.disp_to_joined@[d] == joined_of(
            display,
            rows,
            n,
            d,
        )
    &&& forall|j: int|
        0 <= j <= text_bytes(joined_rows(rows)) ==> #[trigger] maps.joined_to_disp@[j]
            == shown_of(display, rows, n, j)
}

fn map_row(
    maps: &mut RowMaps,
    display: Ghost<Seq<u8>>,
    rows: Ghost<Seq<Seq<char>>>,
    i: usize,
    start: usize,
    next: Option<usize>,
    len: usize,
    at: usize,
)
    requires
        i < rows@.len(),
        maps_rows(*old(maps), display@, rows@, i as int),
        rows_fit(display@, rows@),
        display@.len() < usize::MAX,
        text_bytes(joined_rows(rows@)) < usize::MAX,
        start == row_start(display@, rows@, i as int),
        len == row_bytes(rows@, i as int),
        at == joined_start(rows@, i as int),
        i + 1 < rows@.len() ==> next is Some && next->0 == row_start(display@, rows@, i + 1),
        i + 1 >= rows@.len() ==> next is None,
    ensures
        maps_rows(*final(maps), display@, rows@, i + 1),
{
    let ghost d_bytes = display@;
    let ghost all = rows@;
    let ghost before = *maps;
    proof {
        assert(row_end(d_bytes, all, i as int) <= d_bytes.len());
        lemma_joined_bytes(all);
        lemma_starts(d_bytes, all, i as int, all.len() as int);
    }
    let mut off: usize = 0;
    while off < len
        invariant
            off <= len,
            start + len <= d_bytes.len() < usize::MAX,
            at + len <= text_bytes(joined_rows(all)) < usize::MAX,
            maps.disp_to_joined@.len() == d_bytes.len() + 1,
            maps.joined_to_disp@.len() == text_bytes(joined_rows(all)) + 1,
            maps.soft_breaks@ == before.soft_breaks@,
            maps.hard_breaks@ == before.hard_breaks@,
            before.disp_to_joined@.len() == d_bytes.len() + 1,
            before.joined_to_disp@.len() == text_bytes(joined_rows(all)) + 1,
            forall|d: int|
                0 <= d <= d_bytes.len() ==> #[trigger] maps.disp_to_joined@[d] == if start <= d
                    < start + off {
                    (at + (d - start)) as usize
                } else {
                    before.disp_to_joined@[d]
                },
            forall|j: int|
                0 <= j <= text_bytes(joined_rows(all)) ==> #[trigger] maps.joined_to_disp@[j]
                    == if at <= j < at + off {
                    (start + (j - at)) as usize
                } else {
                    before.joined_to_disp@[j]
                },
        decreases len - off,
    {
        maps.disp_to_joined.set(start + off, at + off);
        maps.joined_to_disp.set(at + off, start + off);
        off += 1;
    }
    let end = start + len;
    let end_joined = at + len;
    if let Some(next_start) = next {
        if next_start > end {
            maps.hard_breaks.push(end_joined);
            maps.disp_to_joined.set(end, end_joined);
        } else {
            maps.soft_breaks.push(end_joined);
        }
        maps.joined_to_disp.set(end_joined, end);
    }
}

impl PromptWrap {
    /// What wrapping the displayed `spans` of a text into `rows` gives.
    pub fn from_rows(spans: &Vec<Span>, src_len: usize, display: &str, rows: Vec<String>) -> (wrap:
        Self)
        requires
            source_bytes(parts(spans@)) <= src_len + 1,
            display@ == displayed(parts(spans@)),
            rows_fit(encode_utf8(display@), texts(rows@)),
            src_len < usize::MAX,
            text_bytes(display@) < usize::MAX,
            text_bytes(joined_rows(texts(rows@))) < usize::MAX,
        ensures
            is_wrap(wrap, parts(spans@), src_len as int, texts(rows@)),
    {
        let ghost spans_view = parts(spans@);
        let ghost all = texts(rows@);
        let bytes = display.as_bytes();
        let ghost d_bytes = bytes@;
        let display_len = bytes.len();
        proof {
            lemma_map_lengths(spans_view);
            lemma_joined_bytes(all);
        }
        let (s2d, d2s) = build_src_disp_byte_maps(spans, src_len, display_len);
        let joined = join_rows(&rows);
        let joined_len = byte_len(joined.as_str());
        let starts = line_starts(bytes, &rows);
        let mut maps = RowMaps {
            disp_to_joined: zeros(display_len + 1),
            joined_to_disp: zeros(joined_len + 1),
            soft_breaks: Vec::new(),
            hard_breaks: Vec::new(),
        };
        let mut at: usize = 0;
        let mut i: usize = 0;
        proof {
            assert(maps.soft_breaks@ =~= breaks(d_bytes, all, 0, false));
            assert(maps.hard_breaks@ =~= breaks(d_bytes, all, 0, true));
        }
        while i < rows.len()
            invariant
                i <= rows@.len(),
                all == texts(rows@),
                starts@.len() == rows@.len(),
                forall|k: int|
                    0 <= k < rows@.len() ==> #[trigger] starts@[k] == row_start(d_bytes, all, k),
                rows_fit(d_bytes, all),
                d_bytes.len() < usize::MAX,
                text_bytes(joined_rows(all)) < usize::MAX,
                maps_rows(maps, d_bytes, all, i as int),
                i < rows@.len() ==> at == joined_start(all, i as int),
            decreases rows@.len() - i,
        {
            let len = byte_len(rows[i].as_str());
            proof {
                assert(all[i as int] == rows@[i as int]@);
                lemma_joined_bytes(all);
                lemma_starts(d_bytes, all, i as int, all.len() as int);
                lemma_starts(d_bytes, all, i + 1, all.len() as int);
            }
            let next = if i + 1 < rows.len() {
                Some(starts[i + 1])
            } else {
                None
            };
            map_row(&mut maps, Ghost(d_bytes), Ghost(all), i, starts[i], next, len, at);
            if i + 1 < rows.len() {
                at = at + len + 1;
            }
            i += 1;
        }
        maps.disp_to_joined.set(display_len, joined_len);
        maps.joined_to_disp.set(joined_len, display_len);
        proof {
            lemma_in_range(d_bytes, all);
            lemma_maps_stay_in_range(spans_view);
        }
        let mut src_to_wrapped_byte: Vec<usize> = Vec::new();
        let mut b: usize = 0;
        while b < s2d.len()
            invariant
                b <= s2d@.len(),
                s2d@.len() == src_len + 1,
                s2d@ == source_map(spans_view, src_len as nat).push(d_bytes.len() as usize),
                maps.disp_to_joined@.len() == d_bytes.len() + 1,
                display_len == d_bytes.len(),
                forall|k: int| 0 <= k < s2d@.len() ==> #[trigger] s2d@[k] <= d_bytes.len(),
                forall|d: int|
                    0 <= d <= d_bytes.len() ==> #[trigger] maps.disp_to_joined@[d] == to_joined(
                        d_bytes,
                        all,
                        d,
                    ),
                src_to_wrapped_byte@.len() == b,
                forall|k: int|
                    0 <= k < b ==> #[trigger] src_to_wrapped_byte@[k] == to_joined(
                        d_bytes,
                        all,
                        s2d@[k] as int,
                    ),
            decreases s2d@.len() - b,
        {
            let d = s2d[b];
            src_to_wrapped_byte.push(maps.disp_to_joined[d]);
            b += 1;
        }
        let mut wrapped_to_src_byte: Vec<usize> = Vec::new();
        let mut j: usize = 0;
        while j < maps.joined_to_disp.len()
            invariant
                j <= maps.joined_to_disp@.len(),
                maps.joined_to_disp@.len() == text_bytes(joined_rows(all)) + 1,
                d2s@.len() == d_bytes.len() + 1,
                forall|k: int|
                    0 <= k <= text_bytes(joined_rows(all)) ==> #[trigger] maps.joined_to_disp@[k]
                        == from_joined(d_bytes, all, k),
                forall|k: int|
                    0 <= k <= text_bytes(joined_rows(all)) ==> 0 <= #[trigger] from_joined(
                        d_bytes,
                        all,
                        k,
                    ) <= d_bytes.len(),
                wrapped_to_src_byte@.len() == j,
                forall|k: int|
                    0 <= k < j ==> #[trigger] wrapped_to_src_byte@[k] == d2s@[from_joined(
                        d_bytes,
                        all,
                        k,
                    )],
            decreases maps.joined_to_disp@.len() - j,
        {
            let d = maps.joined_to_disp[j];
            wrapped_to_src_byte.push(d2s[d]);
            j += 1;
        }
        PromptWrap {
            rows,
            joined,
            soft_breaks: maps.soft_breaks,
            hard_breaks: maps.hard_breaks,
            src_len,
            src_to_wrapped_byte,
            wrapped_to_src_byte,
        }
    }

    /// Wraps a text to `usable` cells as `wrap` does it.
    pub fn build<
        'a,
        F: Fn(&Vec<char>, usize) -> Option<usize>,
        G: Fn(&Vec<char>, usize) -> Option<usize>,
        W: Fn(&str, &Vec<SpanKind>, usize) -> Vec<String>,
    >(sources: &SpanSources<'a, F, G>, src: &str, usable: usize, wrap: &W) -> (r: Self)
        requires
            sources.wf(),
            text_bytes(src@) < usize::MAX,
            text_bytes(displayed(sources.parts_of(src@))) < usize::MAX,
            source_bytes(sources.parts_of(src@)) <= text_bytes(src@) + 1,
            can_wrap(*wrap, sources.parts_of(src@), usable),
        ensures
            exists|rows: Vec<String>| #[trigger]
                wraps_to(*wrap, sources.parts_of(src@), usable, rows) && is_wrap(
                    r,
                    sources.parts_of(src@),
                    text_bytes(src@) as int,
                    texts(rows@),
                ),
    {
        let spans = sources.build_display_spans(src);
        let display = spans_to_string(&spans);
        let kinds = build_char_kinds(&spans);
        let rows = wrap(display.as_str(), &kinds, usable);
        let ghost given = rows;
        proof {
            assert(wraps_to(*wrap, sources.parts_of(src@), usable, rows));
        }
        PromptWrap::from_rows(&spans, byte_len(src), display.as_str(), rows)
    }

    /// The place in the joined rows of a byte of the source.
    pub fn src_to_wrapped(&self, src_byte: usize) -> (r: usize)
        requires
            self.src_to_wrapped_byte@.len() == self.src_len + 1,
        ensures
            r == wrapped_place(*self, src_byte as int),
    {
        let i = if src_byte < self.src_len {
            src_byte
        } else {
            self.src_len
        };
        self.src_to_wrapped_byte[i]
    }

    /// The byte of the source at a place in the joined rows.
    pub fn wrapped_to_src(&self, w_byte: usize) -> (r: usize)
        requires
            self.wrapped_to_src_byte@.len() == text_bytes(self.joined@) + 1,
        ensures
            r == source_place(*self, w_byte as int),
    {
        let len = byte_len(self.joined.as_str());
        let i = if w_byte < len {
            w_byte
        } else {
            len
        };
        self.wrapped_to_src_byte[i]
    }
}

proof fn lemma_joined_of(display: Seq<u8>, rows: Seq<Seq<char>>, n: int, d: int)
    requires
        0 <= n <= rows.len(),
        0 <= d,
    ensures
        0 <= joined_of(display, rows, n, d) <= text_bytes(joined_rows(rows)),
    decreases n,
{
    lemma_joined_bytes(rows);
    if n > 0 {
        lemma_joined_of(display, rows, n - 1, d);
        lemma_starts(display, rows, n - 1, rows.len() as int);
    }
}

proof fn lemma_shown_of(display: Seq<u8>, rows: Seq<Seq<char>>, n: int, j: int)
    requires
        0 <= n <= rows.len(),
        rows_fit(display, rows),
    ensures
        0 <= shown_of(display, rows, n, j) <= display.len(),
    decreases n,
{
    if n > 0 {
        lemma_shown_of(display, rows, n - 1, j);
        lemma_starts(display, rows, n - 1, n - 1);
        assert(row_end(display, rows, n - 1) <= display.len());
    }
}

proof fn lemma_in_range(display: Seq<u8>, rows: Seq<Seq<char>>)
    requires
        rows_fit(display, rows),
    ensures
        forall|d: int|
            0 <= d <= display.len() ==> 0 <= #[trigger] to_joined(display, rows, d)
                <= text_bytes(joined_rows(rows)),
        forall|j: int|
            0 <= j <= text_bytes(joined_rows(rows)) ==> 0 <= #[trigger] from_joined(
                display,
                rows,
                j,
            ) <= display.len(),
{
    assert forall|d: int| 0 <= d <= display.len() implies 0 <= #[trigger] to_joined(
        display,
        rows,
        d,
    ) <= text_bytes(joined_rows(rows)) by {
        lemma_joined_of(display, rows, rows.len() as int, d);
    }
    assert forall|j: int| 0 <= j <= text_bytes(joined_rows(rows)) implies 0
        <= #[trigger] from_joined(display, rows, j) <= display.len() by {
        lemma_shown_of(display, rows, rows.len() as int, j);
    }
}

proof fn lemma_maps_stay_in_range(spans: Seq<SpanPart>)
    requires
        shown_bytes(spans) <= usize::MAX,
    ensures
        forall|b: int|
            0 <= b < source_to_display(spans).len() ==> #[trigger] source_to_display(spans)[b]
                <= shown_bytes(spans),
    decreases spans.len(),
{
    if spans.len() > 0 {
        lemma_maps_stay_in_range(spans.drop_last());
        lemma_map_lengths(spans.drop_last());
        lemma_map_lengths(spans);
    }
}

/// The rows cover the display: the last one ends where it ends.
pub open spec fn rows_cover(display: Seq<u8>, rows: Seq<Seq<char>>) -> bool {
    rows.len() > 0 && row_end(display, rows, rows.len() - 1) == display.len()
}

proof fn lemma_place_survives(display: Seq<u8>, rows: Seq<Seq<char>>, n: int, d: int)
    requires
        0 < n <= rows.len(),
        0 <= d,
        n < rows.len() ==> d < row_start(display, rows, n),
        n == rows.len() ==> d < row_end(display, rows, n - 1),
    ensures
        ({
            let j = joined_of(display, rows, n, d);
            &&& 0 <= j < joined_start(rows, n)
            &&& n == rows.len() ==> j < joined_start(rows, n) - 1
            &&& shown_of(display, rows, n, j) == d
        }),
    decreases n,
{
    lemma_starts(display, rows, n - 1, n);
    if d < row_start(display, rows, n - 1) {
        lemma_place_survives(display, rows, n - 1, d);
    }
}

/// A displayed place is found again from the joined rows, wherever these cover the display.
pub proof fn place_survives_wrapping(display: Seq<u8>, rows: Seq<Seq<char>>, d: int)
    requires
        rows_cover(display, rows),
        0 <= d <= display.len(),
    ensures
        from_joined(display, rows, to_joined(display, rows, d)) == d,
{
    lemma_joined_bytes(rows);
    if d < display.len() {
        lemma_place_survives(display, rows, rows.len() as int, d);
    }
}

/// The byte of the source at which what holds byte `b` begins: the byte itself, but for an
/// attachment or a tab, which are one.
pub open spec fn unit_start(spans: Seq<SpanPart>, b: int) -> int
    decreases spans.len(),
{
    if spans.len() == 0 {
        b
    } else if b < source_bytes(spans.drop_last()) {
        unit_start(spans.drop_last(), b)
    } else if is_literal(spans.last()) {
        b
    } else {
        source_bytes(spans.drop_last()) as int
    }
}

/// No part is displayed as nothing.
pub open spec fn all_shown(spans: Seq<SpanPart>) -> bool {
    forall|i: int| 0 <= i < spans.len() ==> text_bytes(part_text(#[trigger] spans[i])) > 0
}

/// A byte of the source is found again from the display, up to what is displayed as one.
pub proof fn source_byte_survives_display(spans: Seq<SpanPart>, b: int)
    requires
        all_shown(spans),
        0 <= b < source_bytes(spans),
        source_bytes(spans) <= usize::MAX,
        shown_bytes(spans) <= usize::MAX,
    ensures
        ({
            let d = source_to_display(spans)[b] as int;
            &&& 0 <= d < shown_bytes(spans)
            &&& display_to_source(spans)[d] == unit_start(spans, b)
        }),
    decreases spans.len(),
{
    let front = spans.drop_last();
    lemma_map_lengths(front);
    lemma_map_lengths(spans);
    assert(text_bytes(part_text(spans[spans.len() - 1])) > 0);
    if b < source_bytes(front) {
        assert forall|i: int| 0 <= i < front.len() implies text_bytes(
            part_text(#[trigger] front[i]),
        ) > 0 by {
            assert(front[i] == spans[i]);
        }
        source_byte_survives_display(front, b);
    } else {
        let part = spans.last();
        let k = b - source_bytes(front);
        if is_literal(part) {
            assert(part_source(part) == text_bytes(part_text(part)));
        }
        assert(source_to_display(spans)[b] == if is_literal(part) {
            shown_bytes(front) + k
        } else {
            shown_bytes(front) as int
        });
    }
}

/// A place of the source is found again from the wrapped rows, up to what is displayed as
/// one, and so is its end.
pub proof fn wrapped_place_leads_back(
    wrap: PromptWrap,
    spans: Seq<SpanPart>,
    rows: Seq<Seq<char>>,
    b: int,
)
    requires
        is_wrap(wrap, spans, source_bytes(spans) as int, rows),
        all_shown(spans),
        rows_fit(encode_utf8(displayed(spans)), rows),
        rows_cover(encode_utf8(displayed(spans)), rows),
        source_bytes(spans) <= usize::MAX,
        shown_bytes(spans) <= usize::MAX,
        0 <= b <= source_bytes(spans),
    ensures
        wrap.wrapped_to_src_byte@[wrap.src_to_wrapped_byte@[b] as int] == if b < source_bytes(
            spans,
        ) {
            unit_start(spans, b)
        } else {
            b
        },
        wrap.src_to_wrapped_byte@[b] <= text_bytes(wrap.joined@),
{
    let display = encode_utf8(displayed(spans));
    lemma_map_lengths(spans);
    lemma_in_range(display, rows);
    let s2d = source_map(spans, source_bytes(spans)).push(display.len() as usize);
    if b < source_bytes(spans) {
        source_byte_survives_display(spans, b);
    }
    let d = s2d[b] as int;
    place_survives_wrapping(display, rows, d);
    let j = to_joined(display, rows, d);
    assert(wrap.src_to_wrapped_byte@[b] == j);
    assert(0 <= to_joined(display, rows, d) <= text_bytes(joined_rows(rows)));
    assert(wrap.wrapped_to_src_byte@[j] == display_to_source(spans).push(
        source_bytes(spans) as usize,
    )[d]);
}

proof fn lemma_source_of_concat(a: Seq<SpanPart>, b: Seq<SpanPart>)
    ensures
        source_bytes(a + b) == source_bytes(a) + source_bytes(b),
    decreases b.len(),
{
    if b.len() == 0 {
        assert(a + b =~= a);
    } else {
        lemma_source_of_concat(a, b.drop_last());
        assert((a + b).drop_last() =~= a + b.drop_last());
    }
}

proof fn lemma_source_of_one(part: SpanPart)
    ensures
        source_bytes(seq![part]) == part_source(part),
{
    assert(seq![part].drop_last() =~= Seq::<SpanPart>::empty());
    assert(source_bytes(seq![part].drop_last()) == 0);
}

proof fn lemma_safe_text(text: Seq<char>)
    requires
        forall|i: int| 0 <= i < text.len() ==> safe_char(#[trigger] text[i]) == text[i],
    ensures
        safe_text(text) == text,
{
    assert(safe_text(text) =~= text);
}

proof fn lemma_source_of_parts(
    scan: SpanScan,
    chars: Seq<char>,
    i: int,
    plain: Seq<char>,
    attachments: int,
)
    requires
        0 <= i <= chars.len(),
        forall|k: int|
            0 <= k < chars.len() ==> safe_char(#[trigger] chars[k]) == chars[k],
    ensures
        source_bytes(parts_from(scan, chars, i, plain, attachments)) == text_bytes(plain)
            + text_bytes(chars.skip(i)),
    decreases chars.len() - i,
{
    let head = plain_part(plain);
    let none = Seq::<char>::empty();
    assert(text_bytes(none) == 0);
    if plain.len() > 0 {
        lemma_source_of_one(SpanPart::Plain(plain));
    } else {
        assert(plain =~= none);
        assert(source_bytes(head) == 0);
    }
    if i >= chars.len() {
        assert(chars.skip(i) =~= none);
    } else {
        let at_ref = (scan.at_ref)(chars, i);
        let at_token = (scan.at_token)(chars, i);
        let one = seq![chars[i]];
        assert(chars.skip(i) =~= one + chars.skip(i + 1));
        lemma_bytes_of_concat(one, chars.skip(i + 1));
        lemma_bytes_of_push(none, chars[i]);
        assert(one =~= none.push(chars[i]));
        if chars[i] == ATTACHMENT_MARKER {
            let part = SpanPart::Attachment(label_at(scan.labels, attachments));
            let rest = parts_from(scan, chars, i + 1, none, attachments + 1);
            lemma_source_of_parts(scan, chars, i + 1, none, attachments + 1);
            lemma_source_of_one(part);
            lemma_source_of_concat(head, seq![part]);
            lemma_source_of_concat(head + seq![part], rest);
            assert(char_len(ATTACHMENT_MARKER) == 3);
        } else if at_ref is Some && i < at_ref->0 <= chars.len() {
            let end = at_ref->0 as int;
            let text = chars.subrange(i, end);
            let part = SpanPart::AtRef(safe_text(text));
            let rest = parts_from(scan, chars, end, none, attachments);
            lemma_safe_text(text);
            lemma_source_of_parts(scan, chars, end, none, attachments);
            lemma_source_of_one(part);
            lemma_source_of_concat(head, seq![part]);
            lemma_source_of_concat(head + seq![part], rest);
            assert(chars.skip(i) =~= text + chars.skip(end));
            lemma_bytes_of_concat(text, chars.skip(end));
        } else if at_token is Some && i < at_token->0 <= chars.len() {
            let end = at_token->0 as int;
            let text = chars.subrange(i, end);
            let part = SpanPart::Plain(safe_text(text));
            let rest = parts_from(scan, chars, end, none, attachments);
            lemma_safe_text(text);
            lemma_source_of_parts(scan, chars, end, none, attachments);
            lemma_source_of_one(part);
            lemma_source_of_concat(head, seq![part]);
            lemma_source_of_concat(head + seq![part], rest);
            assert(chars.skip(i) =~= text + chars.skip(end));
            lemma_bytes_of_concat(text, chars.skip(end));
        } else if scan.tabs && chars[i] == '\t' {
            let rest = parts_from(scan, chars, i + 1, none, attachments);
            lemma_source_of_parts(scan, chars, i + 1, none, attachments);
            lemma_source_of_one(SpanPart::Tab);
            lemma_source_of_concat(head, seq![SpanPart::Tab]);
            lemma_source_of_concat(head + seq![SpanPart::Tab], rest);
            assert(char_len('\t') == 1);
        } else {
            lemma_source_of_parts(scan, chars, i + 1, plain.push(chars[i]), attachments);
            lemma_bytes_of_push(plain, chars[i]);
        }
    }
}

/// The parts of a text stand for all its bytes, where it has no control codes but line
/// breaks.
pub proof fn parts_stand_for_all_bytes(scan: SpanScan, chars: Seq<char>)
    requires
        forall|k: int|
            0 <= k < chars.len() ==> safe_char(#[trigger] chars[k]) == chars[k],
    ensures
        source_bytes(parts_from(scan, chars, 0, Seq::empty(), 0)) == text_bytes(chars),
{
    lemma_source_of_parts(scan, chars, 0, Seq::empty(), 0);
    assert(chars.skip(0) =~= chars);
    assert(text_bytes(Seq::<char>::empty()) == 0);
}

/// A text without attachments, control codes but line breaks, and tabs that are displayed as
/// spaces.
pub open spec fn is_plain(scan: SpanScan, chars: Seq<char>) -> bool {
    forall|k: int|
        0 <= k < chars.len() ==> safe_char(#[trigger] chars[k]) == chars[k] && chars[k]
            != ATTACHMENT_MARKER && !(scan.tabs && chars[k] == '\t')
}

/// Every part is displayed byte by byte, and none as nothing.
spec fn all_literal(spans: Seq<SpanPart>) -> bool {
    forall|i: int|
        0 <= i < spans.len() ==> is_literal(#[trigger] spans[i]) && text_bytes(part_text(spans[i]))
            > 0
}

proof fn lemma_some_bytes(text: Seq<char>)
    requires
        text.len() > 0,
    ensures
        text_bytes(text) > 0,
{
    lemma_bytes_of_take(text, 0, text.len() as int);
    assert(text.take(text.len() as int) =~= text);
}

proof fn lemma_literal_concat(a: Seq<SpanPart>, b: Seq<SpanPart>)
    requires
        all_literal(a),
        all_literal(b),
    ensures
        all_literal(a + b),
{
    assert forall|i: int| 0 <= i < (a + b).len() implies is_literal(#[trigger] (a + b)[i])
        && text_bytes(part_text((a + b)[i])) > 0 by {
        if i < a.len() {
            assert((a + b)[i] == a[i]);
        } else {
            assert((a + b)[i] == b[i - a.len()]);
        }
    }
}

proof fn lemma_plain_is_literal(
    scan: SpanScan,
    chars: Seq<char>,
    i: int,
    plain: Seq<char>,
    attachments: int,
)
    requires
        0 <= i <= chars.len(),
        is_plain(scan, chars),
    ensures
        all_literal(parts_from(scan, chars, i, plain, attachments)),
    decreases chars.len() - i,
{
    let head = plain_part(plain);
    let none = Seq::<char>::empty();
    if plain.len() > 0 {
        lemma_some_bytes(plain);
    }
    if i < chars.len() {
        let at_ref = (scan.at_ref)(chars, i);
        let at_token = (scan.at_token)(chars, i);
        assert(safe_char(chars[i]) == chars[i]);
        if at_ref is Some && i < at_ref->0 <= chars.len() {
            let end = at_ref->0 as int;
            let text = safe_text(chars.subrange(i, end));
            lemma_some_bytes(text);
            lemma_plain_is_literal(scan, chars, end, none, attachments);
            lemma_literal_concat(head, seq![SpanPart::AtRef(text)]);
            lemma_literal_concat(
                head + seq![SpanPart::AtRef(text)],
                parts_from(scan, chars, end, none, attachments),
            );
        } else if at_token is Some && i < at_token->0 <= chars.len() {
            let end = at_token->0 as int;
            let text = safe_text(chars.subrange(i, end));
            lemma_some_bytes(text);
            lemma_plain_is_literal(scan, chars, end, none, attachments);
            lemma_literal_concat(head, seq![SpanPart::Plain(text)]);
            lemma_literal_concat(
                head + seq![SpanPart::Plain(text)],
                parts_from(scan, chars, end, none, attachments),
            );
        } else {
            lemma_plain_is_literal(
                scan,
                chars,
                i + 1,
                plain.push(safe_char(chars[i])),
                attachments,
            );
        }
    }
}

proof fn lemma_literal_units(spans: Seq<SpanPart>, b: int)
    requires
        all_literal(spans),
    ensures
        unit_start(spans, b) == b,
    decreases spans.len(),
{
    if spans.len() > 0 {
        let front = spans.drop_last();
        assert forall|i: int| 0 <= i < front.len() implies is_literal(#[trigger] front[i])
            && text_bytes(part_text(front[i])) > 0 by {
            assert(front[i] == spans[i]);
        }
        assert(is_literal(spans[spans.len() - 1]));
        lemma_literal_units(front, b);
    }
}

/// What [`PromptWrap::src_to_wrapped`] gives for a byte: a byte behind the source counts as its
/// end.
pub open spec fn wrapped_place(wrap: PromptWrap, src_byte: int) -> int {
    wrap.src_to_wrapped_byte@[if src_byte < wrap.src_len {
        src_byte
    } else {
        wrap.src_len as int
    }] as int
}

/// What [`PromptWrap::wrapped_to_src`] gives for a place: a place behind the joined rows counts
/// as their end.
pub open spec fn source_place(wrap: PromptWrap, w_byte: int) -> int {
    let end = text_bytes(wrap.joined@) as int;
    wrap.wrapped_to_src_byte@[if w_byte < end {
        w_byte
    } else {
        end
    }] as int
}

/// Every place of a plain text is found again from the wrapped rows, and so is its end: a place
/// behind the text leads back to its end, and so does any at the end of the rows or behind it.
pub proof fn plain_place_leads_back(
    scan: SpanScan,
    text: Seq<char>,
    wrap: PromptWrap,
    rows: Seq<Seq<char>>,
    b: int,
    place: int,
)
    requires
        is_plain(scan, text),
        ({
            let spans = parts_from(scan, text, 0, Seq::empty(), 0);
            let display = encode_utf8(displayed(spans));
            &&& is_wrap(wrap, spans, text_bytes(text) as int, rows)
            &&& rows_fit(display, rows)
            &&& rows_cover(display, rows)
            &&& display.len() <= usize::MAX
        }),
        text_bytes(text) <= usize::MAX,
        0 <= b,
        text_bytes(wrap.joined@) <= place,
    ensures
        source_place(wrap, wrapped_place(wrap, b)) == if b < text_bytes(text) {
            b
        } else {
            text_bytes(text) as int
        },
        source_place(wrap, place) == text_bytes(text),
{
    let spans = parts_from(scan, text, 0, Seq::empty(), 0);
    let end = text_bytes(text) as int;
    let own = if b < end {
        b
    } else {
        end
    };
    parts_stand_for_all_bytes(scan, text);
    lemma_plain_is_literal(scan, text, 0, Seq::empty(), 0);
    lemma_map_lengths(spans);
    wrapped_place_leads_back(wrap, spans, rows, own);
    lemma_literal_units(spans, own);
    wrapped_place_leads_back(wrap, spans, rows, end);
    lemma_literal_units(spans, end);
}

} // verus!
