//! What the prompt's text is displayed as and copied as, and which of its rows are shown.
use vstd::prelude::*;
use crate::chars::{is_control_code, is_white};
use crate::markdown_spans::{trimmed, white_end};
use crate::prompt_parser::{offsets_from, row_between, rows_from};
use crate::queued::{bare, end_trimmed};
use crate::prompt_buffer::{
    char_highlights, column, labelled, markers, row_highlights, Accents, GroupHighlight,
    HighlightGroup,
};
use crate::prompt_input::{
    area_lines, rows_above, scroll_of, shown_prediction, shown_rows, InputState, PromptInput,
};
use crate::prompt_spans::{
    display_kinds, displayed, label_at, parts_from, part_kind, part_text, plain_part, safe_char,
    safe_text, SpanPart, SpanScan, ATTACHMENT_MARKER,
};
use crate::prompt_style::{PromptColors, SpanKind};
use crate::text_laws::first_line_ends_at_the_first_line_feed;

verus! {

/// A text as it is displayed: with control codes made visible, but for line feeds.
pub open spec fn made_safe(text: Seq<char>) -> Seq<char> {
    Seq::new(
        text.len(),
        |i: int|
            if is_control_code(text[i]) && text[i] != '\n' {
                '\u{FFFD}'
            } else {
                text[i]
            },
    )
}

proof fn lemma_made_safe(text: Seq<char>)
    ensures
        safe_text(text) == made_safe(text),
{
    assert(safe_text(text) =~= made_safe(text));
}

proof fn lemma_displayed_concat(a: Seq<SpanPart>, b: Seq<SpanPart>)
    ensures
        displayed(a + b) == displayed(a) + displayed(b),
        display_kinds(a + b) == display_kinds(a) + display_kinds(b),
    decreases b.len(),
{
    if b.len() == 0 {
        assert(a + b =~= a);
        assert(displayed(a) + displayed(b) =~= displayed(a));
        assert(display_kinds(a) + display_kinds(b) =~= display_kinds(a));
    } else {
        let rest = b.drop_last();
        lemma_displayed_concat(a, rest);
        assert((a + b).drop_last() =~= a + rest);
        assert((a + b).last() == b.last());
        let text = part_text(b.last());
        let kinds = Seq::new(text.len(), |i: int| part_kind(b.last()));
        assert(displayed(a) + displayed(rest) + text =~= displayed(a) + (displayed(rest) + text));
        assert(display_kinds(a) + display_kinds(rest) + kinds =~= display_kinds(a) + (
        display_kinds(rest) + kinds));
    }
}

proof fn lemma_displayed_one(part: SpanPart)
    ensures
        displayed(seq![part]) == part_text(part),
        display_kinds(seq![part]) == Seq::new(part_text(part).len(), |i: int| part_kind(part)),
{
    let one = seq![part];
    assert(one.drop_last() =~= Seq::<SpanPart>::empty());
    assert(displayed(one.drop_last()) =~= Seq::<char>::empty());
    assert(display_kinds(one.drop_last()) =~= Seq::<SpanKind>::empty());
    assert(displayed(one) =~= part_text(part));
    assert(display_kinds(one) =~= Seq::new(part_text(part).len(), |i: int| part_kind(part)));
}

proof fn lemma_displayed_plain(plain: Seq<char>)
    ensures
        displayed(plain_part(plain)) == plain,
        display_kinds(plain_part(plain)) == Seq::new(plain.len(), |i: int| SpanKind::Plain),
{
    if plain.len() > 0 {
        lemma_displayed_one(SpanPart::Plain(plain));
    } else {
        assert(displayed(plain_part(plain)) =~= plain);
        assert(display_kinds(plain_part(plain)) =~= Seq::new(
            plain.len(),
            |i: int| SpanKind::Plain,
        ));
    }
}

/// What is read as plain text before goes before what follows.
proof fn lemma_plain_before(
    scan: SpanScan,
    chars: Seq<char>,
    i: int,
    plain: Seq<char>,
    attachments: int,
)
    requires
        0 <= i,
    ensures
        displayed(parts_from(scan, chars, i, plain, attachments)) == plain + displayed(
            parts_from(scan, chars, i, Seq::empty(), attachments),
        ),
        display_kinds(parts_from(scan, chars, i, plain, attachments)) == Seq::new(
            plain.len(),
            |k: int| SpanKind::Plain,
        ) + display_kinds(parts_from(scan, chars, i, Seq::empty(), attachments)),
    decreases chars.len() - i,
{
    let none = Seq::<char>::empty();
    let kinds = Seq::new(plain.len(), |k: int| SpanKind::Plain);
    lemma_displayed_plain(plain);
    lemma_displayed_plain(none);
    assert(displayed(Seq::<SpanPart>::empty()) =~= none);
    if i >= chars.len() {
        assert(plain + none =~= plain);
        assert(kinds + display_kinds(plain_part(none)) =~= kinds);
    } else {
        let at_ref = (scan.at_ref)(chars, i);
        let at_token = (scan.at_token)(chars, i);
        let rest = parts_from(scan, chars, i, none, attachments);
        let is_ref = at_ref is Some && i < at_ref->0 <= chars.len();
        let is_token = at_token is Some && i < at_token->0 <= chars.len();
        if chars[i] == ATTACHMENT_MARKER || is_ref || is_token || (scan.tabs && chars[i] == '\t') {
            let all = parts_from(scan, chars, i, plain, attachments);
            assert(all =~= plain_part(plain) + rest);
            lemma_displayed_concat(plain_part(plain), rest);
        } else {
            let c = safe_char(chars[i]);
            lemma_plain_before(scan, chars, i + 1, plain.push(c), attachments);
            lemma_plain_before(scan, chars, i + 1, none.push(c), attachments);
            let after = parts_from(scan, chars, i + 1, none, attachments);
            assert(plain.push(c) + displayed(after) =~= plain + (none.push(c) + displayed(after)));
            assert(Seq::new(plain.push(c).len(), |k: int| SpanKind::Plain) + display_kinds(after)
                =~= kinds + (Seq::new(none.push(c).len(), |k: int| SpanKind::Plain)
                + display_kinds(after)));
        }
    }
}

/// The characters of one part of the display, all of one kind.
pub open spec fn all_of(kind: SpanKind, n: nat) -> Seq<SpanKind> {
    Seq::new(n, |i: int| kind)
}

/// The display of a text goes through it from left to right. An attachment is displayed as its
/// label, by how many came before it. A reference to a file is displayed as it is written, of a
/// kind of its own, and so is another token, but plain. Where tabs are displayed as blanks, a
/// tab is four of them. Any other character is displayed plain. Control codes are made visible.
pub proof fn text_is_displayed_in_order(scan: SpanScan, chars: Seq<char>, i: int, attachments: int)
    requires
        0 <= i < chars.len(),
    ensures
        ({
            let none = Seq::<char>::empty();
            let shown = |at: int, passed: int|
                displayed(parts_from(scan, chars, at, none, passed));
            let kinds = |at: int, passed: int|
                display_kinds(parts_from(scan, chars, at, none, passed));
            let label = if 0 <= attachments < scan.labels.len() {
                scan.labels[attachments]
            } else {
                seq!['[', '?', ']']
            };
            let is_ref = (scan.at_ref)(chars, i) is Some && i < (scan.at_ref)(chars, i)->0
                <= chars.len();
            let ref_end = (scan.at_ref)(chars, i)->0 as int;
            let is_token = (scan.at_token)(chars, i) is Some && i < (scan.at_token)(chars, i)->0
                <= chars.len();
            let token_end = (scan.at_token)(chars, i)->0 as int;
            if chars[i] == ATTACHMENT_MARKER {
                &&& shown(i, attachments) == label + shown(i + 1, attachments + 1)
                &&& kinds(i, attachments) == all_of(SpanKind::Attachment, label.len()) + kinds(
                    i + 1,
                    attachments + 1,
                )
            } else if is_ref {
                &&& shown(i, attachments) == made_safe(chars.subrange(i, ref_end)) + shown(
                    ref_end,
                    attachments,
                )
                &&& kinds(i, attachments) == all_of(SpanKind::AtRef, (ref_end - i) as nat) + kinds(
                    ref_end,
                    attachments,
                )
            } else if is_token {
                &&& shown(i, attachments) == made_safe(chars.subrange(i, token_end)) + shown(
                    token_end,
                    attachments,
                )
                &&& kinds(i, attachments) == all_of(SpanKind::Plain, (token_end - i) as nat)
                    + kinds(token_end, attachments)
            } else if scan.tabs && chars[i] == '\t' {
                &&& shown(i, attachments) == seq![' ', ' ', ' ', ' '] + shown(i + 1, attachments)
                &&& kinds(i, attachments) == all_of(SpanKind::Plain, 4) + kinds(i + 1, attachments)
            } else {
                &&& shown(i, attachments) == made_safe(seq![chars[i]]) + shown(i + 1, attachments)
                &&& kinds(i, attachments) == all_of(SpanKind::Plain, 1) + kinds(i + 1, attachments)
            }
        }),
{
    let none = Seq::<char>::empty();
    let at_ref = (scan.at_ref)(chars, i);
    let at_token = (scan.at_token)(chars, i);
    let is_ref = at_ref is Some && i < at_ref->0 <= chars.len();
    let is_token = at_token is Some && i < at_token->0 <= chars.len();
    let all = parts_from(scan, chars, i, none, attachments);
    if chars[i] == ATTACHMENT_MARKER {
        let part = SpanPart::Attachment(label_at(scan.labels, attachments));
        let rest = parts_from(scan, chars, i + 1, none, attachments + 1);
        lemma_one_part(all, part, rest);
    } else if is_ref {
        let part = SpanPart::AtRef(safe_text(chars.subrange(i, at_ref->0 as int)));
        let rest = parts_from(scan, chars, at_ref->0 as int, none, attachments);
        lemma_made_safe(chars.subrange(i, at_ref->0 as int));
        lemma_one_part(all, part, rest);
    } else if is_token {
        let part = SpanPart::Plain(safe_text(chars.subrange(i, at_token->0 as int)));
        let rest = parts_from(scan, chars, at_token->0 as int, none, attachments);
        lemma_made_safe(chars.subrange(i, at_token->0 as int));
        lemma_one_part(all, part, rest);
    } else if scan.tabs && chars[i] == '\t' {
        let rest = parts_from(scan, chars, i + 1, none, attachments);
        lemma_one_part(all, SpanPart::Tab, rest);
    } else {
        let c = safe_char(chars[i]);
        lemma_plain_before(scan, chars, i + 1, none.push(c), attachments);
        assert(none.push(c) =~= made_safe(seq![chars[i]]));
        assert(Seq::new(none.push(c).len(), |k: int| SpanKind::Plain) =~= all_of(
            SpanKind::Plain,
            1,
        ));
    }
}

proof fn lemma_one_part(all: Seq<SpanPart>, part: SpanPart, rest: Seq<SpanPart>)
    requires
        all == plain_part(Seq::empty()) + seq![part] + rest,
    ensures
        displayed(all) == part_text(part) + displayed(rest),
        display_kinds(all) == all_of(part_kind(part), part_text(part).len()) + display_kinds(rest),
{
    assert(all =~= seq![part] + rest);
    lemma_displayed_concat(seq![part], rest);
    lemma_displayed_one(part);
    assert(Seq::new(part_text(part).len(), |i: int| part_kind(part)) =~= all_of(
        part_kind(part),
        part_text(part).len(),
    ));
}

/// What is copied of a text is copied character by character: an attachment as its label, by
/// how many came before it, and any other character as it is.
pub proof fn text_is_copied_in_order(
    c: char,
    a: Seq<char>,
    b: Seq<char>,
    labels: Seq<Seq<char>>,
    before: int,
)
    ensures
        labelled(seq![c], labels, before) == if c == ATTACHMENT_MARKER {
            if 0 <= before < labels.len() {
                labels[before]
            } else {
                seq!['[', '?', ']']
            }
        } else {
            seq![c]
        },
        labelled(a + b, labels, before) == labelled(a, labels, before) + labelled(
            b,
            labels,
            before + markers(a),
        ),
        markers(a + b) == markers(a) + markers(b),
        markers(seq![c]) == if c == ATTACHMENT_MARKER {
            1int
        } else {
            0
        },
{
    let one = seq![c];
    assert(one.drop_last() =~= Seq::<char>::empty());
    assert(markers(one.drop_last()) == 0);
    assert(labelled(one.drop_last(), labels, before) =~= Seq::<char>::empty());
    assert(labelled(one, labels, before) =~= if c == ATTACHMENT_MARKER {
        label_at(labels, before)
    } else {
        seq![c]
    });
    lemma_copied(a, b, labels, before);
}

proof fn lemma_copied(a: Seq<char>, b: Seq<char>, labels: Seq<Seq<char>>, before: int)
    ensures
        labelled(a + b, labels, before) == labelled(a, labels, before) + labelled(
            b,
            labels,
            before + markers(a),
        ),
        markers(a + b) == markers(a) + markers(b),
    decreases b.len(),
{
    if b.len() == 0 {
        assert(a + b =~= a);
        assert(labelled(a, labels, before) + labelled(b, labels, before + markers(a)) =~= labelled(
            a,
            labels,
            before,
        ));
    } else {
        lemma_copied(a, b.drop_last(), labels, before);
        assert((a + b).drop_last() =~= a + b.drop_last());
        assert(labelled(a + b, labels, before) =~= labelled(a, labels, before) + labelled(
            b,
            labels,
            before + markers(a),
        ));
    }
}

/// A character of the prompt's buffer stands out, over just its cells, where it is of a
/// reference or an attachment, or of the name of a command on the first row; nothing else does.
pub proof fn buffer_marks_what_stands_out<W: Fn(char) -> u16>(
    f: W,
    text: Seq<char>,
    kinds: Seq<SpanKind>,
    row: usize,
    n: int,
    accents: Accents,
    h: GroupHighlight,
)
    requires
        0 <= n <= text.len(),
        n <= kinds.len(),
        h.group == HighlightGroup::Accent,
    ensures
        row_highlights(f, text, kinds, row, n, accents).contains(h) <==> exists|i: int|
            #![trigger text[i]]
            {
                &&& 0 <= i < n
                &&& kinds[i] != SpanKind::Plain || (row == 0 && i < accents.token_end)
                &&& h.start == column(f, text, i)
                &&& h.end == column(f, text, i + 1)
                &&& h.start < h.end
                &&& h.row == row
                &&& h.selectable
            },
    decreases n,
{
    let all = row_highlights(f, text, kinds, row, n, accents);
    if n > 0 {
        buffer_marks_what_stands_out(f, text, kinds, row, n - 1, accents, h);
        let before = row_highlights(f, text, kinds, row, n - 1, accents);
        let here = char_highlights(f, text, kinds, row, n - 1, accents);
        assert(all == before + here);
        if all.contains(h) {
            let k = choose|k: int| 0 <= k < all.len() && all[k] == h;
            if k < before.len() {
                assert(before[k] == h);
            } else {
                assert(here[k - before.len()] == h);
                assert(text[n - 1] == text[n - 1]);
            }
        }
        if before.contains(h) {
            let k = choose|k: int| 0 <= k < before.len() && before[k] == h;
            assert(all[k] == h);
        }
        let stands = kinds[n - 1] != SpanKind::Plain || (row == 0 && n - 1 < accents.token_end);
        if stands && h.start == column(f, text, n - 1) && h.end == column(f, text, n) && h.start
            < h.end && h.row == row && h.selectable {
            assert(here[0] == h);
            assert(all[before.len() as int] == h);
        }
    }
}

/// The rows of the prompt that are shown follow the cursor no further than they have to: where
/// it is among the rows shown before, these stay; above them, its row comes first; below them,
/// last. Where it did not move, nothing does. The end of the text is never left.
pub proof fn scroll_follows_the_cursor(state: InputState, height: int, above: int)
    requires
        0 <= above,
        state.cursor_line < state.lines@.len(),
        !state.pending_recenter,
    ensures
        ({
            let total = state.lines@.len() as int;
            let shown = shown_rows(total, height, above);
            let top = state.scroll_top as int;
            let scroll = scroll_of(state, shown);
            let line = state.cursor_line as int;
            &&& top + shown <= total && (!state.cursor_moved || top <= line < top + shown)
                ==> scroll == top
            &&& state.cursor_moved && line < top && line + shown <= total ==> scroll == line
            &&& state.cursor_moved && line >= top + shown ==> scroll + shown == line + 1
            &&& scroll + shown <= total
        }),
{
}

/// Where the prompt is centred on the cursor, as many rows are shown above the cursor's row as
/// below it, or one more, as far as the text has them.
pub proof fn recentring_puts_the_cursor_in_the_middle(state: InputState, height: int, above: int)
    requires
        0 <= above,
        state.cursor_line < state.lines@.len(),
        state.pending_recenter,
    ensures
        ({
            let total = state.lines@.len() as int;
            let shown = shown_rows(total, height, above);
            let scroll = scroll_of(state, shown);
            let before = state.cursor_line - scroll;
            let behind = scroll + shown - 1 - state.cursor_line;
            scroll > 0 && scroll + shown < total ==> behind <= before <= behind + 1
        }),
{
}

/// As many rows of text are shown as there is room for between the rows above and two more, and
/// at least one, where there are so many; they follow each other, each behind a blank.
pub proof fn shown_rows_follow_each_other(
    state: InputState,
    height: int,
    above: int,
    scroll: int,
    i: int,
)
    requires
        0 <= above,
        0 <= i < shown_rows(state.lines@.len() as int, height, above),
    ensures
        ({
            let total = state.lines@.len() as int;
            let shown = shown_rows(total, height, above);
            let lines = area_lines(state, scroll, shown);
            &&& lines.len() == shown
            &&& lines[i] == seq![' '] + state.lines@[scroll + i].text@
            &&& shown < total ==> above + shown + 2 == height || shown == 1
            &&& shown <= total
        }),
{
}

/// Of a prediction the start of its first line is shown, as much as there is room for.
pub proof fn prediction_shows_the_start_of_its_first_line(
    first: Seq<char>,
    rest: Seq<char>,
    usable: int,
)
    requires
        !first.contains('\n'),
        first.len() == 0 || first.last() != '\r',
        usable >= 1,
    ensures
        ({
            let shown = shown_prediction(first + seq!['\n'] + rest, usable);
            &&& shown.is_prefix_of(first)
            &&& shown.len() == if first.len() < usable - 1 {
                first.len() as int
            } else {
                usable - 1
            }
        }),
{
    first_line_ends_at_the_first_line_feed(first, rest);
}

/// Above the prompt's text stand the queued messages, the note on the stash, if there is one,
/// and right above the text the bar.
pub proof fn bar_stands_right_above_the_text(input: PromptInput<'_>, colors: PromptColors)
    ensures
        ({
            let rows = rows_above(input, colors);
            let queued = crate::prompt_bar::queued_rows(
                input.queued@,
                input.queued@.len() as int,
                colors,
            );
            &&& queued.is_prefix_of(rows)
            &&& rows.len() == queued.len() + if input.stashed {
                2int
            } else {
                1
            }
            &&& rows.last() == crate::prompt_bar::bar_of(
                Seq::empty(),
                crate::prompt_bar::top_bar(*input.bar_info, colors),
                input.width as usize,
                colors.bar,
            )
            &&& input.stashed && input.width >= 2 ==> rows[queued.len() as int]
                == crate::prompt_bar::stash_segments((input.width - 2) as usize, colors)
        }),
{
}

/// Where the row that begins at place `k` of `offsets` ends: at the line feed before the next
/// one, or at the end of the text.
pub open spec fn row_end(text: Seq<char>, offsets: Seq<usize>, k: int) -> int {
    if k + 1 < offsets.len() {
        offsets[k + 1] - 1
    } else {
        text.len() as int
    }
}

/// The rows of a display are what is between its line feeds, each with the kinds of its own
/// characters, and the offsets are where they begin.
pub proof fn display_rows_are_between_line_feeds(text: Seq<char>, kinds: Seq<SpanKind>, k: int)
    requires
        text.len() < usize::MAX,
        kinds.len() == text.len(),
        0 <= k < rows_from(text, kinds, 0, 0).len(),
    ensures
        ({
            let rows = rows_from(text, kinds, 0, 0);
            let offsets = seq![0usize] + offsets_from(text, 0);
            let start = offsets[k] as int;
            let end = row_end(text, offsets, k);
            &&& rows.len() == offsets.len()
            &&& 0 <= start <= end <= text.len()
            &&& rows[k].text == text.subrange(start, end)
            &&& rows[k].kinds == kinds.subrange(start, end)
            &&& forall|i: int| start <= i < end ==> #[trigger] text[i] != '\n'
            &&& k + 1 < rows.len() ==> text[end] == '\n'
            &&& k == 0 ==> start == 0
        }),
{
    lemma_display_rows(text, kinds, 0, 0, k);
    let rows = rows_from(text, kinds, 0, 0);
    let offsets = seq![0usize] + offsets_from(text, 0);
    let start = offsets[k] as int;
    let end = row_end(text, offsets, k);
    assert(rows[k].kinds =~= kinds.subrange(start, end));
}

proof fn lemma_display_rows(text: Seq<char>, kinds: Seq<SpanKind>, start: usize, at: int, k: int)
    requires
        text.len() < usize::MAX,
        0 <= start <= at <= text.len(),
        forall|i: int| start <= i < at ==> text[i] != '\n',
        0 <= k < rows_from(text, kinds, start as int, at).len(),
    ensures
        ({
            let rows = rows_from(text, kinds, start as int, at);
            let offsets = seq![start] + offsets_from(text, at);
            let from = offsets[k] as int;
            let end = row_end(text, offsets, k);
            &&& rows.len() == offsets.len()
            &&& start <= from <= end <= text.len()
            &&& rows[k] == row_between(text, kinds, from, end)
            &&& forall|i: int| from <= i < end ==> #[trigger] text[i] != '\n'
            &&& k + 1 < rows.len() ==> text[end] == '\n'
        }),
    decreases text.len() - at,
{
    let rows = rows_from(text, kinds, start as int, at);
    let offsets = seq![start] + offsets_from(text, at);
    if at >= text.len() {
        assert(offsets_from(text, at).len() == 0);
    } else if text[at] == '\n' {
        let next = (at + 1) as usize;
        let rest = rows_from(text, kinds, at + 1, at + 1);
        let behind = seq![next] + offsets_from(text, at + 1);
        assert(offsets =~= seq![start] + behind);
        lemma_some_row(text, kinds, at + 1, at + 1);
        if k > 0 {
            lemma_display_rows(text, kinds, next, at + 1, k - 1);
            assert(rows[k] == rest[k - 1]);
            assert(offsets[k] == behind[k - 1]);
            assert(row_end(text, offsets, k) == row_end(text, behind, k - 1));
        } else {
            lemma_display_rows(text, kinds, next, at + 1, 0);
            assert(offsets[1] == next);
        }
    } else {
        lemma_display_rows(text, kinds, start, at + 1, k);
    }
}

proof fn lemma_some_row(text: Seq<char>, kinds: Seq<SpanKind>, start: int, at: int)
    requires
        0 <= start <= at <= text.len(),
    ensures
        rows_from(text, kinds, start, at).len() > 0,
    decreases text.len() - at,
{
    if at < text.len() && text[at] != '\n' {
        lemma_some_row(text, kinds, start, at + 1);
    }
}

/// A text without the white space around it is a part of the text that neither begins nor ends
/// with white space; nothing but white space is left out.
pub proof fn bare_text_has_no_white_space_around_it(text: Seq<char>)
    ensures
        ({
            let shown = bare(text);
            let start = text.len() - trimmed(text).len();
            &&& 0 <= start
            &&& start + shown.len() <= text.len()
            &&& shown == text.subrange(start as int, start + shown.len() as int)
            &&& shown.len() > 0 ==> !is_white(shown[0]) && !is_white(shown.last())
            &&& forall|i: int|
                0 <= i < start || start + shown.len() <= i < text.len() ==> is_white(
                    #[trigger] text[i],
                )
        }),
{
    let inner = trimmed(text);
    let shown = bare(text);
    lemma_white_before(text, 0);
    lemma_end_trimmed(inner);
    let start = text.len() - inner.len();
    assert(inner =~= text.skip(start as int));
    assert(shown =~= text.subrange(start as int, start + shown.len() as int));
    assert forall|i: int|
        0 <= i < start || start + shown.len() <= i < text.len() implies is_white(
        #[trigger] text[i],
    ) by {
        if i >= start {
            assert(inner[i - start] == text[i]);
        }
    }
    if shown.len() > 0 {
        assert(shown[0] == inner[0]);
    }
}

proof fn lemma_white_before(text: Seq<char>, i: int)
    requires
        0 <= i <= text.len(),
    ensures
        i <= white_end(text, i) <= text.len(),
        forall|k: int| i <= k < white_end(text, i) ==> is_white(#[trigger] text[k]),
        white_end(text, i) < text.len() ==> !is_white(text[white_end(text, i)]),
    decreases text.len() - i,
{
    if i < text.len() && is_white(text[i]) {
        lemma_white_before(text, i + 1);
    }
}

proof fn lemma_end_trimmed(text: Seq<char>)
    ensures
        end_trimmed(text).is_prefix_of(text),
        end_trimmed(text).len() > 0 ==> !is_white(end_trimmed(text).last()),
        forall|i: int| end_trimmed(text).len() <= i < text.len() ==> is_white(#[trigger] text[i]),
    decreases text.len(),
{
    if text.len() > 0 && is_white(text.last()) {
        lemma_end_trimmed(text.drop_last());
        assert forall|i: int| end_trimmed(text).len() <= i < text.len() implies is_white(
            #[trigger] text[i],
        ) by {
            if i < text.len() - 1 {
                assert(text.drop_last()[i] == text[i]);
            }
        }
    }
}

} // verus!
