//! The prompt's text projected into displayed rows, with maps between the two.
use vstd::prelude::*;
use crate::prompt_spans::{
    build_char_kinds, display_kinds, displayed, part_text, parts, spans_to_string, Span, SpanPart,
    SpanSources, TAB_CELLS,
};
use crate::prompt_style::SpanKind;
use crate::text::{chars_of, str_option, text_of, texts};

verus! {

/// How many displayed characters each character of the source has, for one part.
pub open spec fn part_widths(part: SpanPart) -> Seq<nat> {
    match part {
        SpanPart::Plain(text) => Seq::new(text.len(), |i: int| 1nat),
        SpanPart::AtRef(text) => Seq::new(text.len(), |i: int| 1nat),
        SpanPart::Tab => seq![part_text(part).len()],
        SpanPart::Attachment(text) => seq![text.len()],
    }
}

/// How many displayed characters each character of the source has.
pub open spec fn source_widths(spans: Seq<SpanPart>) -> Seq<nat>
    decreases spans.len(),
{
    if spans.len() == 0 {
        Seq::empty()
    } else {
        source_widths(spans.drop_last()) + part_widths(spans.last())
    }
}

/// Displayed characters before source character `n`.
pub open spec fn display_start(widths: Seq<nat>, n: int) -> int
    decreases n,
{
    if n <= 0 {
        0
    } else {
        display_start(widths, n - 1) + widths[n - 1]
    }
}

/// Where each character of the source is displayed, and its end.
pub open spec fn is_source_map(map: Seq<usize>, widths: Seq<nat>) -> bool {
    &&& map.len() == widths.len() + 1
    &&& forall|i: int| 0 <= i <= widths.len() ==> #[trigger] map[i] == display_start(widths, i)
}

/// Which character of the source each displayed place belongs to: a place within what a
/// character is displayed as belongs to the character, the place behind it to the next.
pub open spec fn is_display_map(map: Seq<usize>, widths: Seq<nat>) -> bool {
    &&& map.len() == display_start(widths, widths.len() as int) + 1
    &&& map[0] == 0
    &&& forall|i: int, k: int|
        0 <= i < widths.len() && 1 <= k <= widths[i] ==> #[trigger] map[display_start(widths, i)
            + k] == if k == widths[i] {
            i + 1
        } else {
            i
        }
}

proof fn lemma_display_start(widths: Seq<nat>, m: int, n: int)
    requires
        0 <= m <= n <= widths.len(),
    ensures
        0 <= display_start(widths, m) <= display_start(widths, n),
    decreases n,
{
    if m < n {
        lemma_display_start(widths, m, n - 1);
    } else if m > 0 {
        lemma_display_start(widths, m - 1, m - 1);
    }
}

proof fn lemma_display_start_prefix(a: Seq<nat>, b: Seq<nat>, n: int)
    requires
        0 <= n <= a.len(),
        n <= b.len(),
        forall|i: int| 0 <= i < n ==> #[trigger] a[i] == b[i],
    ensures
        display_start(a, n) == display_start(b, n),
    decreases n,
{
    if n > 0 {
        lemma_display_start_prefix(a, b, n - 1);
        assert(a[n - 1] == b[n - 1]);
    }
}

/// Adds one character of the source that is displayed as `width` characters.
fn map_source_char(
    s2d: &mut Vec<usize>,
    d2s: &mut Vec<usize>,
    width: usize,
    Ghost(widths): Ghost<Seq<nat>>,
)
    requires
        is_source_map(old(s2d)@, widths),
        is_display_map(old(d2s)@, widths),
        old(s2d)@.len() < usize::MAX,
        old(d2s)@.len() + width <= usize::MAX,
    ensures
        is_source_map(final(s2d)@, widths.push(width as nat)),
        is_display_map(final(d2s)@, widths.push(width as nat)),
{
    let ghost next = widths.push(width as nat);
    let ghost n = widths.len() as int;
    let ghost s_before = s2d@;
    let ghost d_before = d2s@;
    proof {
        lemma_display_start(widths, 0, n);
    }
    let source = s2d.len() - 1;
    let start = d2s.len() - 1;
    proof {
        assert forall|i: int| 0 <= i <= n implies #[trigger] display_start(next, i)
            == display_start(widths, i) by {
            lemma_display_start_prefix(widths, next, i);
        }
        assert(display_start(next, n) == display_start(widths, n));
        assert(next[n] == width);
        assert(display_start(next, n + 1) == display_start(widths, n) + width);
    }
    s2d.push(start + width);
    let mut k: usize = 0;
    while k < width
        invariant
            k <= width,
            source == n,
            n < usize::MAX,
            start + 1 == d_before.len(),
            start + 1 + width <= usize::MAX,
            d2s@.len() == d_before.len() + k,
            forall|j: int| 0 <= j < d_before.len() ==> #[trigger] d2s@[j] == d_before[j],
            forall|j: int|
                1 <= j <= k ==> #[trigger] d2s@[start + j] == if j == width {
                    n + 1
                } else {
                    n
                },
        decreases width - k,
    {
        k += 1;
        if k == width {
            d2s.push(source + 1);
        } else {
            d2s.push(source);
        }
    }
    proof {
        assert forall|i: int| 0 <= i <= next.len() implies #[trigger] s2d@[i] == display_start(
            next,
            i,
        ) by {
            if i <= n {
                assert(s2d@[i] == s_before[i]);
                assert(display_start(next, i) == display_start(widths, i));
            }
        }
        assert forall|i: int, j: int| 0 <= i < next.len() && 1 <= j <= next[i] implies #[trigger] d2s@[display_start(
            next,
            i,
        ) + j] == if j == next[i] {
            i + 1
        } else {
            i
        } by {
            if i < n {
                assert(display_start(next, i) == display_start(widths, i));
                assert(next[i] == widths[i]);
                lemma_display_start(widths, i + 1, n);
                lemma_display_start(widths, 0, i);
                let at = display_start(widths, i) + j;
                assert(d2s@[at] == d_before[at]);
            } else {
                assert(display_start(next, i) == start);
            }
        }
    }
}

/// Maps between the characters of a text and what it is displayed as.
#[derive(Debug)]
pub struct ProjectionMaps {
    pub source_char_to_display_char: Vec<usize>,
    pub display_char_to_source_char: Vec<usize>,
    pub row_offsets: Vec<usize>,
}

/// The maps between the characters of some parts and what they are displayed as.
pub fn build_coord_maps(spans: &Vec<Span>) -> (maps: (Vec<usize>, Vec<usize>))
    requires
        source_widths(parts(spans@)).len() < usize::MAX,
        display_start(
            source_widths(parts(spans@)),
            source_widths(parts(spans@)).len() as int,
        ) < usize::MAX,
    ensures
        is_source_map(maps.0@, source_widths(parts(spans@))),
        is_display_map(maps.1@, source_widths(parts(spans@))),
{
    let ghost all = parts(spans@);
    let ghost total = source_widths(all);
    let mut s2d: Vec<usize> = Vec::new();
    let mut d2s: Vec<usize> = Vec::new();
    s2d.push(0);
    d2s.push(0);
    let mut i: usize = 0;
    proof {
        assert(source_widths(all.take(0)) =~= Seq::<nat>::empty());
    }
    while i < spans.len()
        invariant
            i <= spans@.len(),
            all == parts(spans@),
            total == source_widths(all),
            total.len() < usize::MAX,
            display_start(total, total.len() as int) < usize::MAX,
            is_source_map(s2d@, source_widths(all.take(i as int))),
            is_display_map(d2s@, source_widths(all.take(i as int))),
        decreases spans@.len() - i,
    {
        let ghost before = source_widths(all.take(i as int));
        let ghost after = source_widths(all.take(i + 1));
        proof {
            assert(all.take(i + 1).drop_last() =~= all.take(i as int));
            lemma_widths_prefix(all, i + 1);
            assert forall|k: int| 0 <= k < after.len() implies #[trigger] after[k] == total[k] by {}
        }
        let (count, width) = match &spans[i] {
            Span::Plain(t) => (chars_of(t.as_str()).len(), 1),
            Span::AtRef(t) => (chars_of(t.as_str()).len(), 1),
            Span::Tab => (1, TAB_CELLS),
            Span::Attachment(label) => (1, chars_of(label.as_str()).len()),
        };
        let ghost own = part_widths(all[i as int]);
        proof {
            assert(own.len() == count);
            assert forall|k: int| 0 <= k < own.len() implies own[k] == width by {}
        }
        let mut k: usize = 0;
        proof {
            assert(before + own.take(0) =~= before);
        }
        while k < count
            invariant
                k <= count,
                count == own.len(),
                forall|j: int| 0 <= j < own.len() ==> own[j] == width,
                after == before + own,
                after.len() <= total.len(),
                forall|j: int| 0 <= j < after.len() ==> #[trigger] after[j] == total[j],
                total.len() < usize::MAX,
                display_start(total, total.len() as int) < usize::MAX,
                is_source_map(s2d@, before + own.take(k as int)),
                is_display_map(d2s@, before + own.take(k as int)),
            decreases count - k,
        {
            let ghost now = before + own.take(k as int);
            proof {
                let next = before + own.take(k + 1);
                assert(next =~= now.push(width as nat));
                assert forall|j: int| 0 <= j < next.len() implies #[trigger] next[j] == total[j] by {
                    assert(next[j] == after[j]);
                }
                lemma_display_start_prefix(next, total, next.len() as int);
                lemma_display_start(total, next.len() as int, total.len() as int);
                lemma_display_start_prefix(now, next, now.len() as int);
                assert(display_start(next, next.len() as int) == display_start(
                    next,
                    now.len() as int,
                ) + width);
            }
            map_source_char(&mut s2d, &mut d2s, width, Ghost(now));
            k += 1;
        }
        proof {
            assert(own.take(count as int) =~= own);
        }
        i += 1;
    }
    proof {
        assert(all.take(i as int) =~= all);
    }
    (s2d, d2s)
}

proof fn lemma_widths_prefix(spans: Seq<SpanPart>, n: int)
    requires
        0 <= n <= spans.len(),
    ensures
        source_widths(spans.take(n)).len() <= source_widths(spans).len(),
        forall|k: int|
            0 <= k < source_widths(spans.take(n)).len() ==> #[trigger] source_widths(
                spans.take(n),
            )[k] == source_widths(spans)[k],
    decreases spans.len(),
{
    if n == spans.len() {
        assert(spans.take(n) =~= spans);
    } else {
        lemma_widths_prefix(spans.drop_last(), n);
        assert(spans.drop_last().take(n) =~= spans.take(n));
    }
}

/// What a text is displayed as is as long as its characters are wide.
pub proof fn widths_cover_display(spans: Seq<SpanPart>)
    ensures
        display_start(source_widths(spans), source_widths(spans).len() as int) == displayed(
            spans,
        ).len(),
    decreases spans.len(),
{
    if spans.len() > 0 {
        let init = spans.drop_last();
        let before = source_widths(init);
        let own = part_widths(spans.last());
        let all = source_widths(spans);
        widths_cover_display(init);
        lemma_display_start_prefix(before, all, before.len() as int);
        lemma_added_widths(before, own, own.len() as int);
        let text = part_text(spans.last());
        match spans.last() {
            SpanPart::Plain(_) | SpanPart::AtRef(_) => {
                lemma_ones(own, own.len() as int);
            },
            _ => {
                assert(display_start(own, 1) == display_start(own, 0) + own[0]);
            },
        }
    }
}

proof fn lemma_ones(widths: Seq<nat>, n: int)
    requires
        0 <= n <= widths.len(),
        forall|i: int| 0 <= i < widths.len() ==> widths[i] == 1,
    ensures
        display_start(widths, n) == n,
    decreases n,
{
    if n > 0 {
        lemma_ones(widths, n - 1);
    }
}

proof fn lemma_added_widths(a: Seq<nat>, b: Seq<nat>, n: int)
    requires
        0 <= n <= b.len(),
    ensures
        display_start(a + b, a.len() + n) == display_start(a, a.len() as int) + display_start(b, n),
    decreases n,
{
    if n > 0 {
        lemma_added_widths(a, b, n - 1);
        assert((a + b)[a.len() + n - 1] == b[n - 1]);
    } else {
        lemma_display_start_prefix(a, a + b, a.len() as int);
    }
}

/// Going from the source to the display and back comes home, where every character is
/// displayed as something.
pub proof fn source_place_survives_display(
    s2d: Seq<usize>,
    d2s: Seq<usize>,
    widths: Seq<nat>,
    i: int,
)
    requires
        is_source_map(s2d, widths),
        is_display_map(d2s, widths),
        forall|k: int| 0 <= k < widths.len() ==> #[trigger] widths[k] >= 1,
        0 <= i <= widths.len(),
    ensures
        s2d[i] < d2s.len(),
        d2s[s2d[i] as int] == i,
{
    lemma_display_start(widths, i, widths.len() as int);
    if i > 0 {
        assert(widths[i - 1] >= 1);
        let k = widths[i - 1] as int;
        assert(display_start(widths, i) == display_start(widths, i - 1) + k);
        assert(d2s[display_start(widths, i - 1) + k] == i);
    }
}

/// The source map never goes back.
pub proof fn source_map_is_ordered(s2d: Seq<usize>, widths: Seq<nat>, i: int, j: int)
    requires
        is_source_map(s2d, widths),
        0 <= i <= j <= widths.len(),
    ensures
        s2d[i] <= s2d[j],
{
    lemma_display_start(widths, i, j);
}

/// A displayed row with the kind of each character.
#[derive(Debug)]
pub struct DisplayRow {
    pub text: String,
    pub kinds: Vec<SpanKind>,
}

/// A displayed row as mathematical values.
pub struct RowPart {
    pub text: Seq<char>,
    pub kinds: Seq<SpanKind>,
}

impl View for DisplayRow {
    type V = RowPart;

    open spec fn view(&self) -> RowPart {
        RowPart { text: self.text@, kinds: self.kinds@ }
    }
}

/// Some displayed rows.
pub open spec fn row_parts(rows: Seq<DisplayRow>) -> Seq<RowPart> {
    rows.map_values(|row: DisplayRow| row@)
}

/// The characters `start .. end` with their kinds.
pub open spec fn row_between(
    text: Seq<char>,
    kinds: Seq<SpanKind>,
    start: int,
    end: int,
) -> RowPart {
    RowPart {
        text: text.subrange(start, end),
        kinds: Seq::new(
            (end - start) as nat,
            |i: int|
                if start + i < kinds.len() {
                    kinds[start + i]
                } else {
                    SpanKind::Plain
                },
        ),
    }
}

/// The rows of a text: what is between its line feeds. `start` is where the row begins that
/// is being read.
pub open spec fn rows_from(
    text: Seq<char>,
    kinds: Seq<SpanKind>,
    start: int,
    at: int,
) -> Seq<RowPart>
    decreases text.len() - at,
{
    if at >= text.len() {
        seq![row_between(text, kinds, start, text.len() as int)]
    } else if text[at] == '\n' {
        seq![row_between(text, kinds, start, at)] + rows_from(text, kinds, at + 1, at + 1)
    } else {
        rows_from(text, kinds, start, at + 1)
    }
}

/// The places behind the line feeds of a text, from `at` on.
pub open spec fn offsets_from(text: Seq<char>, at: int) -> Seq<usize>
    decreases text.len() - at,
{
    if at >= text.len() {
        Seq::empty()
    } else if text[at] == '\n' {
        seq![(at + 1) as usize] + offsets_from(text, at + 1)
    } else {
        offsets_from(text, at + 1)
    }
}

fn kinds_between(kinds: &Vec<SpanKind>, start: usize, end: usize) -> (r: Vec<SpanKind>)
    requires
        start <= end,
    ensures
        r@ == Seq::new(
            (end - start) as nat,
            |i: int|
                if start + i < kinds@.len() {
                    kinds@[start + i]
                } else {
                    SpanKind::Plain
                },
        ),
{
    let mut r: Vec<SpanKind> = Vec::new();
    let mut i: usize = start;
    while i < end
        invariant
            start <= i <= end,
            r@.len() == i - start,
            forall|k: int|
                0 <= k < i - start ==> #[trigger] r@[k] == if start + k < kinds@.len() {
                    kinds@[start + k]
                } else {
                    SpanKind::Plain
                },
        decreases end - i,
    {
        if i < kinds.len() {
            r.push(kinds[i]);
        } else {
            r.push(SpanKind::Plain);
        }
        i += 1;
    }
    proof {
        assert(r@ =~= Seq::new(
            (end - start) as nat,
            |i: int|
                if start + i < kinds@.len() {
                    kinds@[start + i]
                } else {
                    SpanKind::Plain
                },
        ));
    }
    r
}

/// The rows of a text with the kind of each character, and where each row begins.
pub fn display_rows_with_kinds_and_offsets(
    buf: &str,
    char_kinds: &Vec<SpanKind>,
) -> (r: (Vec<DisplayRow>, Vec<usize>))
    ensures
        row_parts(r.0@) == rows_from(buf@, char_kinds@, 0, 0),
        r.1@ == seq![0usize] + offsets_from(buf@, 0),
{
    let chars = chars_of(buf);
    let mut rows: Vec<DisplayRow> = Vec::new();
    let mut offsets: Vec<usize> = Vec::new();
    offsets.push(0);
    let mut start: usize = 0;
    let mut at: usize = 0;
    let ghost all = rows_from(buf@, char_kinds@, 0, 0);
    let ghost all_offsets = seq![0usize] + offsets_from(buf@, 0);
    proof {
        assert(row_parts(rows@) + all =~= all);
        assert(offsets@ + offsets_from(buf@, 0) =~= all_offsets);
    }
    while at < chars.len()
        invariant
            start <= at <= chars@.len(),
            chars@ == buf@,
            row_parts(rows@) + rows_from(buf@, char_kinds@, start as int, at as int) == all,
            offsets@ + offsets_from(buf@, at as int) == all_offsets,
        decreases chars@.len() - at,
    {
        if chars[at] == '\n' {
            let row = DisplayRow {
                text: text_of(&chars, start, at),
                kinds: kinds_between(char_kinds, start, at),
            };
            let ghost before = rows@;
            let ghost before_offsets = offsets@;
            proof {
                assert(row@ == row_between(buf@, char_kinds@, start as int, at as int));
            }
            rows.push(row);
            offsets.push(at + 1);
            proof {
                let rest = rows_from(buf@, char_kinds@, at + 1, at + 1);
                assert(row_parts(rows@) =~= row_parts(before).push(row@));
                assert(row_parts(before).push(row@) + rest =~= row_parts(before) + (seq![row@]
                    + rest));
                let more = offsets_from(buf@, at + 1);
                assert(offsets@ + more =~= before_offsets + (seq![(at + 1) as usize] + more));
            }
            start = at + 1;
        }
        at += 1;
    }
    let row = DisplayRow {
        text: text_of(&chars, start, chars.len()),
        kinds: kinds_between(char_kinds, start, chars.len()),
    };
    let ghost before = rows@;
    proof {
        assert(row@ == row_between(buf@, char_kinds@, start as int, buf@.len() as int));
    }
    rows.push(row);
    proof {
        assert(row_parts(rows@) =~= row_parts(before) + seq![row@]);
        assert(offsets@ + Seq::<usize>::empty() =~= offsets@);
    }
    (rows, offsets)
}

/// A prompt that is displayed: its parts and rows, or a placeholder.
#[derive(Debug)]
pub struct PromptDisplayRows {
    pub spans: Vec<Span>,
    pub visual_lines: Vec<DisplayRow>,
    pub row_offsets: Vec<usize>,
    pub ghost_text: bool,
}

/// The placeholder that is shown in place of a text: that of an empty prompt, if it says
/// anything.
pub open spec fn shown_placeholder(
    source: Seq<char>,
    placeholder: Option<Seq<char>>,
) -> Option<Seq<char>> {
    match placeholder {
        Some(text) if source.len() == 0 && text.len() > 0 => Some(text),
        _ => None,
    }
}

/// Whether the cursor stands behind the text: not where a placeholder is shown.
pub fn prompt_display_uses_cursor_padding(source: &str, placeholder: Option<&str>) -> (r: bool)
    ensures
        r == (source@.len() > 0 || placeholder is None || placeholder->0@.len() == 0),
{
    !source.is_empty() || match placeholder {
        Some(text) => text.is_empty(),
        None => true,
    }
}

impl<
    'a,
    F: Fn(&Vec<char>, usize) -> Option<usize>,
    G: Fn(&Vec<char>, usize) -> Option<usize>,
> SpanSources<'a, F, G> {
    /// `rows` are how a prompt is displayed.
    pub open spec fn displays(
        &self,
        source: Seq<char>,
        placeholder: Option<Seq<char>>,
        rows: PromptDisplayRows,
    ) -> bool {
        match shown_placeholder(source, placeholder) {
            Some(text) => {
                &&& rows.spans@.len() == 0
                &&& row_parts(rows.visual_lines@) == seq![
                    RowPart { text, kinds: Seq::new(text.len(), |i: int| SpanKind::Plain) },
                ]
                &&& rows.row_offsets@ == seq![0usize]
                &&& rows.ghost_text
            },
            None => {
                let spans = self.parts_of(source);
                &&& parts(rows.spans@) == spans
                &&& row_parts(rows.visual_lines@) == rows_from(
                    displayed(spans),
                    display_kinds(spans),
                    0,
                    0,
                )
                &&& rows.row_offsets@ == seq![0usize] + offsets_from(displayed(spans), 0)
                &&& !rows.ghost_text
            },
        }
    }

    /// How a prompt is displayed.
    pub fn build_prompt_display_rows(&self, source: &str, placeholder: Option<&str>) -> (rows:
        PromptDisplayRows)
        requires
            self.wf(),
        ensures
            self.displays(source@, str_option(placeholder), rows),
    {
        if source.is_empty() {
            if let Some(text) = placeholder {
                if !text.is_empty() {
                    let n = chars_of(text).len();
                    let none: Vec<SpanKind> = Vec::new();
                    let row = DisplayRow {
                        text: String::from_str(text),
                        kinds: kinds_between(&none, 0, n),
                    };
                    let ghost row_view = row@;
                    let mut visual_lines: Vec<DisplayRow> = Vec::new();
                    visual_lines.push(row);
                    let mut row_offsets: Vec<usize> = Vec::new();
                    row_offsets.push(0);
                    proof {
                        assert(row_view.kinds =~= Seq::new(text@.len(), |i: int| SpanKind::Plain));
                        assert(row_parts(visual_lines@) =~= seq![row_view]);
                        assert(row_offsets@ =~= seq![0usize]);
                    }
                    return PromptDisplayRows {
                        spans: Vec::new(),
                        visual_lines,
                        row_offsets,
                        ghost_text: true,
                    };
                }
            }
        }
        let spans = self.build_display_spans(source);
        let display_buf = spans_to_string(&spans);
        let char_kinds = build_char_kinds(&spans);
        let (visual_lines, row_offsets) = display_rows_with_kinds_and_offsets(
            display_buf.as_str(),
            &char_kinds,
        );
        PromptDisplayRows { spans, visual_lines, row_offsets, ghost_text: false }
    }

    /// The displayed rows of a prompt.
    pub fn build_prompt_display_lines(&self, source: &str, placeholder: Option<&str>) -> (lines:
        Vec<String>)
        requires
            self.wf(),
        ensures
            exists|rows: PromptDisplayRows| #[trigger]
                self.displays(source@, str_option(placeholder), rows) && texts(lines@) == row_parts(
                    rows.visual_lines@,
                ).map_values(|row: RowPart| row.text),
    {
        let rows = self.build_prompt_display_rows(source, placeholder);
        let lines = row_texts(&rows.visual_lines);
        lines
    }
}

/// The texts of some rows.
pub(crate) fn row_texts(rows: &Vec<DisplayRow>) -> (lines: Vec<String>)
    ensures
        texts(lines@) == row_parts(rows@).map_values(|row: RowPart| row.text),
{
    let mut lines: Vec<String> = Vec::new();
    let mut i: usize = 0;
    while i < rows.len()
        invariant
            i <= rows@.len(),
            lines@.len() == i,
            forall|k: int| 0 <= k < i ==> (#[trigger] lines@[k])@ == rows@[k].text@,
        decreases rows@.len() - i,
    {
        lines.push(rows[i].text.clone());
        i += 1;
    }
    proof {
        assert(texts(lines@) =~= row_parts(rows@).map_values(|row: RowPart| row.text));
    }
    lines
}

} // verus!
