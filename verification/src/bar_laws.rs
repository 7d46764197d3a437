//! What the rows around the prompt show, and the cells that they take.
use vstd::prelude::*;
use crate::numbers::decimal;
use crate::prompt_bar::{
    bar_of, bar_segments, below, dashes, dotted, highest, label, label_segments, line_rows,
    queued_blank, queued_row, queued_rows, stash_segments, taken, tokens_text, top_bar, BarInfo,
    BarSpanView, QueuedLine, QueuedMessage,
};
use crate::paint::Color;
use crate::prompt_style::{plain_cell, PromptColors, SegmentView};
use crate::text::cell_width;

verus! {

/// What some runs of text say together.
pub open spec fn said(segments: Seq<SegmentView>) -> Seq<char> {
    segments.map_values(|s: SegmentView| s.text).flatten()
}

/// What some labels say together.
pub open spec fn labels_text(spans: Seq<BarSpanView>) -> Seq<char> {
    spans.map_values(|s: BarSpanView| s.text).flatten()
}

proof fn lemma_said_concat(a: Seq<SegmentView>, b: Seq<SegmentView>)
    ensures
        said(a + b) == said(a) + said(b),
    decreases b.len(),
{
    let text = |s: SegmentView| s.text;
    if b.len() == 0 {
        assert(a + b =~= a);
        assert(b.map_values(text) =~= Seq::<Seq<char>>::empty());
        assert(said(a) + said(b) =~= said(a));
    } else {
        let rest = b.drop_last();
        lemma_said_concat(a, rest);
        assert((a + b).map_values(text) =~= (a + rest).map_values(text).push(text(b.last())));
        (a + rest).map_values(text).lemma_flatten_push(text(b.last()));
        assert(b.map_values(text) =~= rest.map_values(text).push(text(b.last())));
        rest.map_values(text).lemma_flatten_push(text(b.last()));
        assert(said(a) + said(rest) + text(b.last()) =~= said(a) + (said(rest) + text(b.last())));
    }
}

proof fn lemma_said_one(s: SegmentView)
    ensures
        said(seq![s]) == s.text,
{
    let text = |s: SegmentView| s.text;
    let none = Seq::<Seq<char>>::empty();
    assert(seq![s].map_values(text) =~= none.push(s.text));
    none.lemma_flatten_push(s.text);
    assert(none.flatten() + s.text =~= s.text);
}

proof fn lemma_said_none()
    ensures
        said(Seq::<SegmentView>::empty()) == Seq::<char>::empty(),
{
    let text = |s: SegmentView| s.text;
    assert(Seq::<SegmentView>::empty().map_values(text) =~= Seq::<Seq<char>>::empty());
}

/// A bar reads from left to right: the labels of the left side, a blank behind them, dashes,
/// and the labels of the right side with a blank and a last dash behind them. A side without
/// labels has no blank. There are as many dashes as the rest leaves of the width.
pub proof fn bar_reads_from_left_to_right(
    left: Seq<BarSpanView>,
    right: Seq<BarSpanView>,
    width: usize,
    bar: Color,
)
    ensures
        ({
            let labels = taken(left, 1) + taken(right, 2);
            let n = if labels <= width {
                (width - labels) as nat
            } else {
                0
            };
            said(bar_segments(left, right, width, bar)) == labels_text(left) + (if left.len() > 0 {
                seq![' ']
            } else {
                Seq::empty()
            }) + Seq::new(n, |i: int| '─') + labels_text(right) + (if right.len() > 0 {
                seq![' ', '─']
            } else {
                Seq::empty()
            })
        }),
{
    let gap = SegmentView { text: seq![' '], style: plain_cell() };
    let segments = bar_segments(left, right, width, bar);
    let middle = width.saturating_sub(taken(left, 1).saturating_add(taken(right, 2)));
    let n = middle as nat;
    let rule = segments[(label_segments(left).len() + if left.len() > 0 {
        1int
    } else {
        0
    })];
    let a = label_segments(left);
    let b = if left.len() > 0 {
        seq![gap]
    } else {
        Seq::empty()
    };
    let c = seq![rule];
    let d = label_segments(right);
    let last = segments.last();
    let e = if right.len() > 0 {
        seq![gap, last]
    } else {
        Seq::empty()
    };
    assert(rule.text =~= dashes(middle as int));
    assert(segments =~= a + b + c + d + e);
    lemma_said_concat(a + b + c + d, e);
    lemma_said_concat(a + b + c, d);
    lemma_said_concat(a + b, c);
    lemma_said_concat(a, b);
    lemma_said_one(rule);
    lemma_said_one(gap);
    lemma_said_none();
    lemma_label_text(left);
    lemma_label_text(right);
    if right.len() > 0 {
        assert(last.text =~= seq!['─']);
        assert(e =~= seq![gap] + seq![last]);
        lemma_said_concat(seq![gap], seq![last]);
        lemma_said_one(last);
        assert(said(e) =~= seq![' ', '─']);
    }
    assert(dashes(middle as int) =~= Seq::new(n, |i: int| '─'));
    assert(said(segments) =~= labels_text(left) + (if left.len() > 0 {
        seq![' ']
    } else {
        Seq::empty()
    }) + Seq::new(n, |i: int| '─') + labels_text(right) + (if right.len() > 0 {
        seq![' ', '─']
    } else {
        Seq::empty()
    }));
}

proof fn lemma_label_text(spans: Seq<BarSpanView>)
    ensures
        said(label_segments(spans)) == labels_text(spans),
{
    assert(label_segments(spans).map_values(|s: SegmentView| s.text) =~= spans.map_values(
        |s: BarSpanView| s.text,
    ));
}

/// Labels are left out by their priority alone: those below a level stay, in their order.
pub proof fn labels_are_left_out_by_priority(spans: Seq<BarSpanView>, level: int)
    ensures
        below(spans, level) == spans.filter(|s: BarSpanView| s.priority < level),
    decreases spans.len(),
{
    let low = |s: BarSpanView| s.priority < level;
    reveal(Seq::filter);
    if spans.len() > 0 {
        labels_are_left_out_by_priority(spans.drop_last(), level);
    }
}

/// Where all labels fit, a bar shows all of them.
pub proof fn bar_with_room_shows_all_labels(
    left: Seq<BarSpanView>,
    right: Seq<BarSpanView>,
    width: usize,
    bar: Color,
)
    requires
        taken(left, 1).saturating_add(4).saturating_add(taken(right, 2)) <= width,
    ensures
        bar_of(left, right, width, bar) == bar_segments(left, right, width, bar),
{
    let top = if highest(left) > highest(right) {
        highest(left)
    } else {
        highest(right)
    };
    lemma_all_below(left, top + 1);
    lemma_all_below(right, top + 1);
    lemma_highest(left);
    lemma_highest(right);
}

proof fn lemma_highest(spans: Seq<BarSpanView>)
    ensures
        0 <= highest(spans),
    decreases spans.len(),
{
    if spans.len() > 0 {
        lemma_highest(spans.drop_last());
    }
}

proof fn lemma_all_below(spans: Seq<BarSpanView>, level: int)
    requires
        level > highest(spans),
    ensures
        below(spans, level) == spans,
    decreases spans.len(),
{
    if spans.len() > 0 {
        lemma_all_below(spans.drop_last(), level);
        assert(spans.drop_last().push(spans.last()) =~= spans);
    }
}

/// Some texts one behind the other, with ` ·` between them.
pub open spec fn dotted_text(parts: Seq<Seq<char>>) -> Seq<char>
    decreases parts.len(),
{
    if parts.len() == 0 {
        Seq::empty()
    } else if parts.len() == 1 {
        parts[0]
    } else {
        dotted_text(parts.drop_last()) + " ·"@ + parts.last()
    }
}

/// The text, if there is one.
pub open spec fn if_any(text: Option<Seq<char>>) -> Seq<Seq<char>> {
    match text {
        Some(text) => seq![text],
        None => Seq::empty(),
    }
}

proof fn lemma_labels_push(spans: Seq<BarSpanView>, span: BarSpanView)
    ensures
        labels_text(spans.push(span)) == labels_text(spans) + span.text,
{
    let text = |s: BarSpanView| s.text;
    assert(spans.push(span).map_values(text) =~= spans.map_values(text).push(span.text));
    spans.map_values(text).lemma_flatten_push(span.text);
}

/// The top bar tells the model with its effort, the tokens with their part of the window, and
/// the cost, each behind a blank and as far as it is known, with a dot between those that are
/// told. The model and the dots are left out before the tokens and the cost.
pub proof fn top_bar_tells_what_is_known(info: BarInfo, colors: PromptColors)
    ensures
        ({
            let model = match (info.model_label, info.effort) {
                (Some(model), Some(effort)) => Some(seq![' '] + model@ + seq![' '] + effort.text@),
                (Some(model), None) => Some(seq![' '] + model@),
                (None, _) => None,
            };
            let tokens = match (info.tokens_label, info.context_percent) {
                (Some(tokens), Some(percent)) => Some(
                    seq![' '] + tokens@ + " ("@ + decimal(percent as nat) + "%)"@,
                ),
                (Some(tokens), None) => Some(seq![' '] + tokens@),
                (None, _) => None,
            };
            let cost = match info.cost_label {
                Some(cost) => Some(seq![' '] + cost@),
                None => None,
            };
            &&& labels_text(top_bar(info, colors)) == dotted_text(
                if_any(model) + if_any(tokens) + if_any(cost),
            )
            &&& labels_text(below(top_bar(info, colors), 2)) == (if_any(tokens) + if_any(
                cost,
            )).flatten()
        }),
{
    let none = Seq::<BarSpanView>::empty();
    let text = |s: BarSpanView| s.text;
    assert(none.map_values(text) =~= Seq::<Seq<char>>::empty());
    assert(labels_text(none) =~= Seq::<char>::empty());
    let bar = colors.bar;
    let name = match info.model_label {
        Some(model) => none.push(label(seq![' '] + model@, colors.muted, 2)),
        None => none,
    };
    let first = match (info.model_label, info.effort) {
        (Some(_), Some(effort)) => name.push(label(seq![' '] + effort.text@, effort.color, 2)),
        _ => name,
    };
    let model_text = match (info.model_label, info.effort) {
        (Some(model), Some(effort)) => Some(seq![' '] + model@ + seq![' '] + effort.text@),
        (Some(model), None) => Some(seq![' '] + model@),
        (None, _) => None,
    };
    if let Some(model) = info.model_label {
        lemma_labels_push(none, label(seq![' '] + model@, colors.muted, 2));
        assert(labels_text(name) =~= seq![' '] + model@);
        if let Some(effort) = info.effort {
            lemma_labels_push(name, label(seq![' '] + effort.text@, effort.color, 2));
            assert(labels_text(first) =~= seq![' '] + model@ + seq![' '] + effort.text@);
        }
    }
    lemma_low_push(none, label(seq![' '], colors.muted, 2));
    assert(below(none, 2) =~= none);
    if let Some(model) = info.model_label {
        lemma_low_push(none, label(seq![' '] + model@, colors.muted, 2));
    }
    if let Some(effort) = info.effort {
        lemma_low_push(name, label(seq![' '] + effort.text@, effort.color, 2));
    }
    assert(below(first, 2) == none);
    let one = if_any(model_text);
    assert(labels_text(first) == dotted_text(one));
    assert((first.len() > 0) == (one.len() > 0));
    let tokens_said = match (info.tokens_label, info.context_percent) {
        (Some(tokens), Some(percent)) => Some(
            seq![' '] + tokens@ + " ("@ + decimal(percent as nat) + "%)"@,
        ),
        (Some(tokens), None) => Some(seq![' '] + tokens@),
        (None, _) => None,
    };
    let second = match info.tokens_label {
        Some(tokens) => dotted(first, bar).push(
            label(tokens_text(tokens@, info.context_percent), colors.muted, 1),
        ),
        None => first,
    };
    if let Some(tokens) = info.tokens_label {
        let span = label(tokens_text(tokens@, info.context_percent), colors.muted, 1);
        assert(span.text =~= tokens_said->0);
        lemma_dotted_part(first, one, span, bar);
    }
    let two = one + if_any(tokens_said);
    assert(one + Seq::<Seq<char>>::empty() =~= one);
    assert(labels_text(second) == dotted_text(two));
    assert((second.len() > 0) == (two.len() > 0));
    assert(labels_text(below(second, 2)) =~= if_any(tokens_said).flatten()) by {
        if let Some(text) = tokens_said {
            if_any(tokens_said).lemma_flatten_one_element();
        }
    }
    let cost_said = match info.cost_label {
        Some(cost) => Some(seq![' '] + cost@),
        None => None,
    };
    if let Some(cost) = info.cost_label {
        let span = label(seq![' '] + cost@, colors.muted, 1);
        lemma_dotted_part(second, two, span, bar);
        assert(two + if_any(cost_said) =~= two.push(span.text));
        assert(if_any(tokens_said) + if_any(cost_said) =~= if_any(tokens_said).push(span.text));
        if_any(tokens_said).lemma_flatten_push(span.text);
    } else {
        assert(two + if_any(cost_said) =~= two);
        assert(if_any(tokens_said) + if_any(cost_said) =~= if_any(tokens_said));
    }
    assert(first =~= match info.model_label {
        Some(model) => seq![label(seq![' '] + model@, colors.muted, 2)] + match info.effort {
            Some(effort) => seq![label(seq![' '] + effort.text@, effort.color, 2)],
            None => Seq::empty(),
        },
        None => Seq::empty(),
    });
}

proof fn lemma_low_push(spans: Seq<BarSpanView>, span: BarSpanView)
    ensures
        below(spans.push(span), 2) == if span.priority < 2 {
            below(spans, 2).push(span)
        } else {
            below(spans, 2)
        },
{
    assert(spans.push(span).drop_last() =~= spans);
}

proof fn lemma_dotted_part(
    spans: Seq<BarSpanView>,
    parts: Seq<Seq<char>>,
    span: BarSpanView,
    bar: Color,
)
    requires
        (spans.len() > 0) == (parts.len() > 0),
        labels_text(spans) == dotted_text(parts),
        span.priority == 1,
    ensures
        labels_text(dotted(spans, bar).push(span)) == dotted_text(parts.push(span.text)),
        labels_text(below(dotted(spans, bar).push(span), 2)) == labels_text(below(spans, 2))
            + span.text,
        parts.push(span.text) == parts + seq![span.text],
{
    let dot = label(" ·"@, bar, 2);
    lemma_labels_push(spans, dot);
    lemma_labels_push(dotted(spans, bar), span);
    lemma_low_push(spans, dot);
    lemma_low_push(dotted(spans, bar), span);
    lemma_labels_push(below(spans, 2), span);
    assert(parts.push(span.text).drop_last() =~= parts);
    assert(parts.push(span.text) =~= parts + seq![span.text]);
    if parts.len() == 0 {
        assert(labels_text(spans) + span.text =~= span.text);
    }
}

/// Cells of a row of a queued message, where a blank takes one.
pub open spec fn queued_cells(row: Seq<SegmentView>, chunk: Option<Seq<char>>) -> int {
    match chunk {
        Some(chunk) => row[0].text.len() + row[1].text.len() + cell_width(chunk)
            + row[3].text.len(),
        None => (row[0].text.len() + row[1].text.len()) as int,
    }
}

/// All rows of a queued message take the same cells: one before its block, and one more than
/// the block has columns. Only blanks stand around the text.
pub proof fn queued_rows_are_as_wide_as_their_block(
    chunk: Seq<char>,
    is_command: bool,
    block_width: usize,
    colors: PromptColors,
)
    requires
        cell_width(chunk) <= block_width < usize::MAX,
    ensures
        ({
            let row = queued_row(chunk, is_command, block_width, colors);
            let blank = queued_blank(block_width, colors);
            &&& row.len() == 4 && row[2].text == chunk
            &&& blank.len() == 2
            &&& block_width > 0 ==> queued_cells(row, Some(chunk)) == block_width + 2
            &&& block_width > 0 ==> queued_cells(blank, None) == block_width + 2
            &&& block_width == 0 ==> queued_cells(row, Some(chunk)) == 3 && queued_cells(
                blank,
                None,
            ) == 3
            &&& forall|k: int, i: int|
                0 <= k < 4 && k != 2 && 0 <= i < row[k].text.len() ==> #[trigger] row[k].text[i]
                    == ' '
            &&& forall|k: int, i: int|
                0 <= k < 2 && 0 <= i < blank[k].text.len() ==> #[trigger] blank[k].text[i] == ' '
        }),
{
}

/// The rows of one line of a queued message: one for each chunk of it, or a blank one.
pub open spec fn rows_of_line(line: QueuedLine, message: QueuedMessage, colors: PromptColors) -> Seq<
    Seq<SegmentView>,
> {
    if line.empty {
        seq![queued_blank(message.block_width, colors)]
    } else {
        line.chunks@.map_values(
            |chunk: String| queued_row(chunk@, message.is_command, message.block_width, colors),
        )
    }
}

/// Queued messages stand below each other in their order, and so do the lines of each.
pub proof fn queued_messages_stand_in_order(queued: Seq<QueuedMessage>, colors: PromptColors)
    ensures
        queued_rows(queued, queued.len() as int, colors) == queued.map_values(
            |message: QueuedMessage|
                message.lines@.map_values(
                    |line: QueuedLine| rows_of_line(line, message, colors),
                ).flatten(),
        ).flatten(),
{
    lemma_queued_order(queued, queued.len() as int, colors);
    assert(queued.take(queued.len() as int) =~= queued);
}

proof fn lemma_queued_order(queued: Seq<QueuedMessage>, n: int, colors: PromptColors)
    requires
        0 <= n <= queued.len(),
    ensures
        queued_rows(queued, n, colors) == queued.take(n).map_values(
            |message: QueuedMessage|
                message.lines@.map_values(
                    |line: QueuedLine| rows_of_line(line, message, colors),
                ).flatten(),
        ).flatten(),
    decreases n,
{
    let rows = |message: QueuedMessage|
        message.lines@.map_values(|line: QueuedLine| rows_of_line(line, message, colors)).flatten();
    if n > 0 {
        lemma_queued_order(queued, n - 1, colors);
        let message = queued[n - 1];
        let len = message.lines@.len() as int;
        lemma_lines_order(message, len, colors);
        assert(message.lines@.take(len) =~= message.lines@);
        assert(queued.take(n).map_values(rows) =~= queued.take(n - 1).map_values(rows).push(
            rows(message),
        ));
        queued.take(n - 1).map_values(rows).lemma_flatten_push(rows(message));
    } else {
        assert(queued.take(0).map_values(rows) =~= Seq::<Seq<Seq<SegmentView>>>::empty());
    }
}

proof fn lemma_lines_order(message: QueuedMessage, n: int, colors: PromptColors)
    requires
        0 <= n <= message.lines@.len(),
    ensures
        line_rows(message, n, colors) == message.lines@.take(n).map_values(
            |line: QueuedLine| rows_of_line(line, message, colors),
        ).flatten(),
    decreases n,
{
    let rows = |line: QueuedLine| rows_of_line(line, message, colors);
    let lines = message.lines@;
    if n > 0 {
        lemma_lines_order(message, n - 1, colors);
        let line = lines[n - 1];
        assert(lines.take(n).map_values(rows) =~= lines.take(n - 1).map_values(rows).push(
            rows(line),
        ));
        lines.take(n - 1).map_values(rows).lemma_flatten_push(rows(line));
        if !line.empty {
            assert(crate::prompt_bar::chunk_rows(
                line.chunks@,
                line.chunks@.len() as int,
                message.is_command,
                message.block_width,
                colors,
            ) =~= rows_of_line(line, message, colors));
        }
    } else {
        assert(lines.take(0).map_values(rows) =~= Seq::<Seq<Seq<SegmentView>>>::empty());
    }
}

/// The note on the stash is the start of its text, as much as there is room for, behind two
/// blanks.
pub proof fn stash_note_is_cut_to_its_room(usable: usize, colors: PromptColors)
    ensures
        ({
            let row = stash_segments(usable, colors);
            let note = "› Stashed (ctrl+s to unstash)"@;
            &&& row.len() == 2
            &&& row[0].text == seq![' ', ' ']
            &&& row[1].text.len() <= usable
            &&& row[1].text.is_prefix_of(note)
            &&& usable >= note.len() ==> row[1].text == note
            &&& usable < note.len() ==> row[1].text.len() == usable
        }),
{
}

} // verus!
