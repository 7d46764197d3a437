//! Rows around the prompt: the bars, queued messages and the stash.
use vstd::prelude::*;
use crate::code_block::{spaces, spaces_text};
use crate::numbers::{decimal, decimal_text};
use crate::paint::Color;
use crate::prompt_style::{
    plain_cell, plain_cell_style, segments_of, CellStyle, PromptColors, SegmentView, StyledSegment,
};
use crate::text::{cell_width, chars_of, display_width, text_of};

verus! {

/// A label in a bar. The higher its priority number, the sooner it is left out.
#[derive(Debug)]
pub struct BarSpan {
    pub text: String,
    pub color: Color,
    pub bg: Option<Color>,
    pub bold: bool,
    pub dim: bool,
    pub priority: u8,
}

/// A label as mathematical values.
pub struct BarSpanView {
    pub text: Seq<char>,
    pub color: Color,
    pub bg: Option<Color>,
    pub bold: bool,
    pub dim: bool,
    pub priority: u8,
}

impl View for BarSpan {
    type V = BarSpanView;

    open spec fn view(&self) -> BarSpanView {
        BarSpanView {
            text: self.text@,
            color: self.color,
            bg: self.bg,
            bold: self.bold,
            dim: self.dim,
            priority: self.priority,
        }
    }
}

/// Some labels.
pub open spec fn bar_spans(spans: Seq<BarSpan>) -> Seq<BarSpanView> {
    spans.map_values(|span: BarSpan| span@)
}

/// The labels of a priority below `level`.
pub open spec fn below(spans: Seq<BarSpanView>, level: int) -> Seq<BarSpanView>
    decreases spans.len(),
{
    if spans.len() == 0 {
        Seq::empty()
    } else if spans.last().priority < level {
        below(spans.drop_last(), level).push(spans.last())
    } else {
        below(spans.drop_last(), level)
    }
}

/// Cells of some labels.
pub open spec fn labels_cells(spans: Seq<BarSpanView>) -> usize
    decreases spans.len(),
{
    if spans.len() == 0 {
        0
    } else {
        labels_cells(spans.drop_last()).saturating_add(cell_width(spans.last().text))
    }
}

/// The highest priority number of some labels, or 0.
pub open spec fn highest(spans: Seq<BarSpanView>) -> int
    decreases spans.len(),
{
    if spans.len() == 0 {
        0
    } else {
        let rest = highest(spans.drop_last());
        if spans.last().priority > rest {
            spans.last().priority as int
        } else {
            rest
        }
    }
}

/// Cells with `more` beside them, or none where there are none.
pub open spec fn beside(cells: usize, more: usize) -> usize {
    if cells > 0 {
        cells.saturating_add(more)
    } else {
        0
    }
}

/// Whether the labels below `level` fit in a bar with four dashes between.
pub open spec fn bar_fits(
    left: Seq<BarSpanView>,
    right: Seq<BarSpanView>,
    level: int,
    width: usize,
) -> bool {
    beside(labels_cells(below(left, level)), 1).saturating_add(4).saturating_add(
        beside(labels_cells(below(right, level)), 2),
    ) <= width
}

/// The level below which labels are shown: the highest up to `level` at which they fit, or
/// the lowest.
pub open spec fn bar_level(
    left: Seq<BarSpanView>,
    right: Seq<BarSpanView>,
    level: int,
    width: usize,
) -> int
    decreases level,
{
    if level <= 1 || bar_fits(left, right, level, width) {
        level
    } else {
        bar_level(left, right, level - 1, width)
    }
}

/// Labels as runs of text.
pub open spec fn label_segments(spans: Seq<BarSpanView>) -> Seq<SegmentView> {
    spans.map_values(
        |span: BarSpanView|
            SegmentView {
                text: span.text,
                style: CellStyle {
                    fg: Some(span.color),
                    bg: span.bg,
                    bold: span.bold,
                    dim: span.dim,
                    italic: false,
                },
            },
    )
}

/// So many dashes.
pub open spec fn dashes(n: int) -> Seq<char> {
    Seq::new(
        (if n < 0 {
            0
        } else {
            n
        }) as nat,
        |i: int| '─',
    )
}

/// Cells of some labels with `more` beside them, or none where there is no label.
pub open spec fn taken(spans: Seq<BarSpanView>, more: usize) -> usize {
    if spans.len() == 0 {
        0
    } else {
        labels_cells(spans).saturating_add(more)
    }
}

/// A bar: labels on the left, dashes, labels on the right and one more dash.
pub open spec fn bar_segments(
    left: Seq<BarSpanView>,
    right: Seq<BarSpanView>,
    width: usize,
    bar: Color,
) -> Seq<SegmentView> {
    let dash_style = CellStyle { fg: Some(bar), ..plain_cell() };
    let gap = SegmentView { text: seq![' '], style: plain_cell() };
    let middle = width.saturating_sub(taken(left, 1).saturating_add(taken(right, 2)));
    label_segments(left) + (if left.len() > 0 {
        seq![gap]
    } else {
        Seq::empty()
    }) + seq![SegmentView { text: dashes(middle as int), style: dash_style }] + label_segments(
        right,
    ) + (if right.len() > 0 {
        seq![gap, SegmentView { text: dashes(1), style: dash_style }]
    } else {
        Seq::empty()
    })
}

/// A bar of `width` cells that shows as many of the labels as fit.
pub open spec fn bar_of(
    left: Seq<BarSpanView>,
    right: Seq<BarSpanView>,
    width: usize,
    bar: Color,
) -> Seq<SegmentView> {
    let top = if highest(left) > highest(right) {
        highest(left)
    } else {
        highest(right)
    };
    let level = bar_level(left, right, top + 1, width);
    bar_segments(below(left, level), below(right, level), width, bar)
}

/// The labels of a priority below `level`, by their places.
fn places_below(spans: &Vec<BarSpan>, level: u16) -> (places: Vec<usize>)
    ensures
        places@.len() == below(bar_spans(spans@), level as int).len(),
        forall|i: int| 0 <= i < places@.len() ==> #[trigger] places@[i] < spans@.len(),
        forall|i: int|
            0 <= i < places@.len() ==> spans@[(#[trigger] places@[i]) as int]@ == below(
                bar_spans(spans@),
                level as int,
            )[i],
{
    let ghost all = bar_spans(spans@);
    let mut places: Vec<usize> = Vec::new();
    let mut i: usize = 0;
    proof {
        assert(below(all.take(0), level as int).len() == 0);
    }
    while i < spans.len()
        invariant
            i <= spans@.len(),
            all == bar_spans(spans@),
            places@.len() == below(all.take(i as int), level as int).len(),
            forall|k: int| 0 <= k < places@.len() ==> #[trigger] places@[k] < spans@.len(),
            forall|k: int|
                0 <= k < places@.len() ==> spans@[(#[trigger] places@[k]) as int]@ == below(
                    all.take(i as int),
                    level as int,
                )[k],
        decreases spans@.len() - i,
    {
        proof {
            assert(all.take(i + 1).drop_last() =~= all.take(i as int));
        }
        if (spans[i].priority as u16) < level {
            places.push(i);
        }
        i += 1;
    }
    proof {
        assert(all.take(i as int) =~= all);
    }
    places
}

/// Cells of the labels at some places.
fn cells_at(
    spans: &Vec<BarSpan>,
    places: &Vec<usize>,
    Ghost(shown): Ghost<Seq<BarSpanView>>,
) -> (cells: usize)
    requires
        places@.len() == shown.len(),
        forall|i: int| 0 <= i < places@.len() ==> #[trigger] places@[i] < spans@.len(),
        forall|i: int|
            0 <= i < places@.len() ==> spans@[(#[trigger] places@[i]) as int]@ == shown[i],
    ensures
        cells == labels_cells(shown),
{
    let mut cells: usize = 0;
    let mut i: usize = 0;
    proof {
        assert(labels_cells(shown.take(0)) == 0);
    }
    while i < places.len()
        invariant
            i <= places@.len(),
            places@.len() == shown.len(),
            forall|k: int| 0 <= k < places@.len() ==> #[trigger] places@[k] < spans@.len(),
            forall|k: int|
                0 <= k < places@.len() ==> spans@[(#[trigger] places@[k]) as int]@ == shown[k],
            cells == labels_cells(shown.take(i as int)),
        decreases places@.len() - i,
    {
        proof {
            assert(shown.take(i + 1).drop_last() =~= shown.take(i as int));
        }
        cells = cells.saturating_add(display_width(spans[places[i]].text.as_str()));
        i += 1;
    }
    proof {
        assert(shown.take(i as int) =~= shown);
    }
    cells
}

fn highest_priority(spans: &Vec<BarSpan>) -> (top: u8)
    ensures
        top == highest(bar_spans(spans@)),
{
    let ghost all = bar_spans(spans@);
    let mut top: u8 = 0;
    let mut i: usize = 0;
    proof {
        assert(highest(all.take(0)) == 0);
    }
    while i < spans.len()
        invariant
            i <= spans@.len(),
            all == bar_spans(spans@),
            top == highest(all.take(i as int)),
        decreases spans@.len() - i,
    {
        proof {
            assert(all.take(i + 1).drop_last() =~= all.take(i as int));
        }
        if spans[i].priority > top {
            top = spans[i].priority;
        }
        i += 1;
    }
    proof {
        assert(all.take(i as int) =~= all);
    }
    top
}

fn cells_beside(cells: usize, more: usize) -> (r: usize)
    ensures
        r == beside(cells, more),
{
    if cells > 0 {
        cells.saturating_add(more)
    } else {
        0
    }
}

fn fits_at(left: &Vec<BarSpan>, right: &Vec<BarSpan>, level: u16, width: usize) -> (fits: bool)
    ensures
        fits == bar_fits(bar_spans(left@), bar_spans(right@), level as int, width),
{
    let left_places = places_below(left, level);
    let right_places = places_below(right, level);
    let left_cells = cells_at(
        left,
        &left_places,
        Ghost(below(bar_spans(left@), level as int)),
    );
    let right_cells = cells_at(
        right,
        &right_places,
        Ghost(below(bar_spans(right@), level as int)),
    );
    cells_beside(left_cells, 1).saturating_add(4).saturating_add(cells_beside(right_cells, 2))
        <= width
}

fn dashes_text(n: usize) -> (text: String)
    ensures
        text@ == dashes(n as int),
{
    let mut text = String::new();
    let mut i: usize = 0;
    proof {
        assert(text@ =~= dashes(0));
    }
    while i < n
        invariant
            i <= n,
            text@ == dashes(i as int),
        decreases n - i,
    {
        text.push('─');
        i += 1;
        proof {
            assert(text@ =~= dashes(i as int));
        }
    }
    text
}

/// Adds the labels at some places.
fn push_labels(
    segments: &mut Vec<StyledSegment>,
    spans: &Vec<BarSpan>,
    places: &Vec<usize>,
    Ghost(shown): Ghost<Seq<BarSpanView>>,
)
    requires
        places@.len() == shown.len(),
        forall|i: int| 0 <= i < places@.len() ==> #[trigger] places@[i] < spans@.len(),
        forall|i: int|
            0 <= i < places@.len() ==> spans@[(#[trigger] places@[i]) as int]@ == shown[i],
    ensures
        segments_of(final(segments)@) == segments_of(old(segments)@) + label_segments(shown),
{
    let ghost before = segments@;
    let mut i: usize = 0;
    proof {
        assert(segments_of(before) + label_segments(shown.take(0)) =~= segments_of(before));
    }
    while i < places.len()
        invariant
            i <= places@.len(),
            places@.len() == shown.len(),
            forall|k: int| 0 <= k < places@.len() ==> #[trigger] places@[k] < spans@.len(),
            forall|k: int|
                0 <= k < places@.len() ==> spans@[(#[trigger] places@[k]) as int]@ == shown[k],
            segments_of(segments@) == segments_of(before) + label_segments(shown.take(i as int)),
        decreases places@.len() - i,
    {
        let span = &spans[places[i]];
        let ghost now = segments@;
        segments.push(
            StyledSegment {
                text: span.text.clone(),
                style: CellStyle {
                    fg: Some(span.color),
                    bg: span.bg,
                    bold: span.bold,
                    dim: span.dim,
                    italic: false,
                },
            },
        );
        proof {
            let at = places@[i as int] as int;
            assert(spans@[at]@ == shown[i as int]);
            let added = label_segments(shown.take(i + 1));
            assert(added =~= label_segments(shown.take(i as int)).push(added[i as int]));
            assert(segments@.last()@ == added[i as int]);
            assert(segments_of(segments@) =~= segments_of(now).push(segments@.last()@));
            assert(segments_of(segments@) =~= segments_of(before) + added);
        }
        i += 1;
    }
    proof {
        assert(shown.take(i as int) =~= shown);
    }
}

/// A bar of `width` cells that shows as many of the labels as fit.
pub fn bar_row(
    width: usize,
    left: &Vec<BarSpan>,
    right: &Vec<BarSpan>,
    colors: &PromptColors,
) -> (segments: Vec<StyledSegment>)
    ensures
        segments_of(segments@) == bar_of(bar_spans(left@), bar_spans(right@), width, colors.bar),
{
    let ghost l = bar_spans(left@);
    let ghost r = bar_spans(right@);
    let left_top = highest_priority(left);
    let right_top = highest_priority(right);
    let top = if left_top > right_top {
        left_top
    } else {
        right_top
    };
    let mut level: u16 = top as u16 + 1;
    let ghost start = level as int;
    while level > 1 && !fits_at(left, right, level, width)
        invariant
            1 <= level <= start,
            l == bar_spans(left@),
            r == bar_spans(right@),
            bar_level(l, r, start, width) == bar_level(l, r, level as int, width),
        decreases level,
    {
        level -= 1;
    }
    let ghost shown_left = below(l, level as int);
    let ghost shown_right = below(r, level as int);
    let left_places = places_below(left, level);
    let right_places = places_below(right, level);
    let left_len = if left_places.len() == 0 {
        0
    } else {
        cells_at(left, &left_places, Ghost(shown_left)).saturating_add(1)
    };
    let right_len = if right_places.len() == 0 {
        0
    } else {
        cells_at(right, &right_places, Ghost(shown_right)).saturating_add(2)
    };
    let bar_len = width.saturating_sub(left_len.saturating_add(right_len));
    let mut segments: Vec<StyledSegment> = Vec::new();
    proof {
        assert(segments_of(segments@) =~= Seq::<SegmentView>::empty());
        reveal_strlit(" ");
        assert(" "@ =~= seq![' ']);
    }
    push_labels(&mut segments, left, &left_places, Ghost(shown_left));
    let ghost a = segments@;
    if left_places.len() > 0 {
        segments.push(StyledSegment { text: String::from_str(" "), style: plain_cell_style() });
    }
    let mut dash_style = plain_cell_style();
    dash_style.fg = Some(colors.bar);
    segments.push(StyledSegment { text: dashes_text(bar_len), style: dash_style });
    let ghost b = segments@;
    push_labels(&mut segments, right, &right_places, Ghost(shown_right));
    let ghost c = segments@;
    if right_places.len() > 0 {
        segments.push(StyledSegment { text: String::from_str(" "), style: plain_cell_style() });
        segments.push(StyledSegment { text: dashes_text(1), style: dash_style });
    }
    proof {
        let gap = SegmentView { text: seq![' '], style: plain_cell() };
        let left_gap = if shown_left.len() > 0 {
            seq![gap]
        } else {
            Seq::empty()
        };
        let line = SegmentView { text: dashes(bar_len as int), style: dash_style };
        let right_gap = if shown_right.len() > 0 {
            seq![gap, SegmentView { text: dashes(1), style: dash_style }]
        } else {
            Seq::empty()
        };
        assert(segments_of(a) =~= label_segments(shown_left));
        assert(segments_of(b) =~= segments_of(a) + left_gap + seq![line]);
        assert(segments_of(segments@) =~= segments_of(c) + right_gap);
        assert(segments_of(segments@) =~= bar_segments(
            shown_left,
            shown_right,
            width,
            colors.bar,
        ));
    }
    segments
}

/// A bar leaves out no label that it has room for: at the next level up, the labels do
/// not fit.
pub proof fn bar_shows_what_fits(
    left: Seq<BarSpanView>,
    right: Seq<BarSpanView>,
    level: int,
    width: usize,
)
    requires
        level >= 1,
    ensures
        ({
            let chosen = bar_level(left, right, level, width);
            &&& 1 <= chosen <= level
            &&& chosen < level ==> !bar_fits(left, right, chosen + 1, width)
            &&& chosen > 1 ==> bar_fits(left, right, chosen, width)
        }),
    decreases level,
{
    if level > 1 && !bar_fits(left, right, level, width) {
        bar_shows_what_fits(left, right, level - 1, width);
    }
}

/// What the top bar says on the right.
#[derive(Debug)]
pub struct BarInfo {
    pub model_label: Option<String>,
    /// The reasoning effort and its colour, where there is any.
    pub effort: Option<EffortLabel>,
    /// The tokens in use, where they are shown.
    pub tokens_label: Option<String>,
    /// The part of the window that they take, where its size is known.
    pub context_percent: Option<u32>,
    /// What the session has cost, where it is shown and has cost anything.
    pub cost_label: Option<String>,
}

/// A reasoning effort and its colour.
#[derive(Debug)]
pub struct EffortLabel {
    pub text: String,
    pub color: Color,
}

/// A plain label.
pub open spec fn label(text: Seq<char>, color: Color, priority: u8) -> BarSpanView {
    BarSpanView { text, color, bg: None, bold: false, dim: false, priority }
}

/// The tokens in use and the part of the window that they take.
pub open spec fn tokens_text(tokens: Seq<char>, percent: Option<u32>) -> Seq<char> {
    seq![' '] + tokens + match percent {
        Some(percent) => " ("@ + decimal(percent as nat) + "%)"@,
        None => Seq::empty(),
    }
}

/// Labels with a dot before the next one, if there are any.
pub open spec fn dotted(spans: Seq<BarSpanView>, bar: Color) -> Seq<BarSpanView> {
    if spans.len() > 0 {
        spans.push(label(" ·"@, bar, 2))
    } else {
        spans
    }
}

/// The labels of the top bar: the model with its effort, the tokens, the cost.
pub open spec fn top_bar(info: BarInfo, colors: PromptColors) -> Seq<BarSpanView> {
    let model = match info.model_label {
        Some(model) => seq![label(seq![' '] + model@, colors.muted, 2)] + match info.effort {
            Some(effort) => seq![label(seq![' '] + effort.text@, effort.color, 2)],
            None => Seq::empty(),
        },
        None => Seq::empty(),
    };
    let tokens = match info.tokens_label {
        Some(tokens) => dotted(model, colors.bar).push(
            label(tokens_text(tokens@, info.context_percent), colors.muted, 1),
        ),
        None => model,
    };
    match info.cost_label {
        Some(cost) => dotted(tokens, colors.bar).push(
            label(seq![' '] + cost@, colors.muted, 1),
        ),
        None => tokens,
    }
}

fn plain_label(text: String, color: Color, priority: u8) -> (span: BarSpan)
    ensures
        span@ == label(text@, color, priority),
{
    BarSpan { text, color, bg: None, bold: false, dim: false, priority }
}

fn spaced(text: &str) -> (r: String)
    ensures
        r@ == seq![' '] + text@,
{
    let mut r = String::new();
    r.push(' ');
    r.append(text);
    proof {
        assert(r@ =~= seq![' '] + text@);
    }
    r
}

fn push_dot(spans: &mut Vec<BarSpan>, bar: Color)
    ensures
        bar_spans(final(spans)@) == dotted(bar_spans(old(spans)@), bar),
{
    let ghost before = spans@;
    if spans.len() > 0 {
        spans.push(plain_label(String::from_str(" ·"), bar, 2));
    }
    proof {
        assert(bar_spans(spans@) =~= dotted(bar_spans(before), bar));
    }
}

/// The labels of the top bar: the model with its effort, the tokens, the cost.
pub fn build_top_bar_right(info: &BarInfo, colors: &PromptColors) -> (spans: Vec<BarSpan>)
    ensures
        bar_spans(spans@) == top_bar(*info, *colors),
{
    let mut spans: Vec<BarSpan> = Vec::new();
    proof {
        assert(bar_spans(spans@) =~= Seq::<BarSpanView>::empty());
    }
    if let Some(model) = &info.model_label {
        spans.push(plain_label(spaced(model.as_str()), colors.muted, 2));
        proof {
            assert(bar_spans(spans@) =~= seq![label(seq![' '] + model@, colors.muted, 2)]);
        }
        if let Some(effort) = &info.effort {
            let ghost before = spans@;
            spans.push(plain_label(spaced(effort.text.as_str()), effort.color, 2));
            proof {
                assert(bar_spans(spans@) =~= bar_spans(before) + seq![
                    label(seq![' '] + effort.text@, effort.color, 2),
                ]);
            }
        } else {
            proof {
                assert(bar_spans(spans@) + Seq::<BarSpanView>::empty() =~= bar_spans(spans@));
            }
        }
    }
    if let Some(tokens) = &info.tokens_label {
        push_dot(&mut spans, colors.bar);
        let mut text = spaced(tokens.as_str());
        if let Some(percent) = info.context_percent {
            text.append(" (");
            text.append(decimal_text(percent as u64).as_str());
            text.append("%)");
        }
        let ghost before = spans@;
        proof {
            assert(text@ =~= tokens_text(tokens@, info.context_percent));
        }
        spans.push(plain_label(text, colors.muted, 1));
        proof {
            assert(bar_spans(spans@) =~= bar_spans(before).push(
                label(tokens_text(tokens@, info.context_percent), colors.muted, 1),
            ));
        }
    }
    if let Some(cost) = &info.cost_label {
        push_dot(&mut spans, colors.bar);
        let ghost before = spans@;
        spans.push(plain_label(spaced(cost.as_str()), colors.muted, 1));
        proof {
            assert(bar_spans(spans@) =~= bar_spans(before).push(
                label(seq![' '] + cost@, colors.muted, 1),
            ));
        }
    }
    spans
}

/// The row that says that something is stashed, cut to the room there is.
pub open spec fn stash_segments(usable: usize, colors: PromptColors) -> Seq<SegmentView> {
    let text = "› Stashed (ctrl+s to unstash)"@;
    seq![
        SegmentView { text: seq![' ', ' '], style: plain_cell() },
        SegmentView {
            text: if usable < text.len() {
                text.take(usable as int)
            } else {
                text
            },
            style: CellStyle { fg: Some(colors.muted), dim: true, ..plain_cell() },
        },
    ]
}

/// The row that says that something is stashed, cut to the room there is.
pub fn stash_row(usable: usize, colors: &PromptColors) -> (segments: Vec<StyledSegment>)
    ensures
        segments_of(segments@) == stash_segments(usable, *colors),
{
    let chars = chars_of("› Stashed (ctrl+s to unstash)");
    let n = if usable < chars.len() {
        usable
    } else {
        chars.len()
    };
    let text = text_of(&chars, 0, n);
    let mut style = plain_cell_style();
    style.fg = Some(colors.muted);
    style.dim = true;
    let mut segments: Vec<StyledSegment> = Vec::new();
    segments.push(StyledSegment { text: spaces_text(2), style: plain_cell_style() });
    segments.push(StyledSegment { text, style });
    proof {
        assert(chars@.subrange(0, n as int) =~= chars@.take(n as int));
        assert(chars@.take(chars@.len() as int) =~= chars@);
        assert(spaces(2) =~= seq![' ', ' ']);
        assert(segments_of(segments@) =~= stash_segments(usable, *colors));
    }
    segments
}

/// A line of a queued message, wrapped; a line of nothing has no chunks.
#[derive(Debug)]
pub struct QueuedLine {
    pub empty: bool,
    pub chunks: Vec<String>,
}

/// A queued message: whether it is a command, the cells of its block, and its lines.
#[derive(Debug)]
pub struct QueuedMessage {
    pub is_command: bool,
    pub block_width: usize,
    pub lines: Vec<QueuedLine>,
}

/// A row of a queued message that says nothing.
pub open spec fn queued_blank(block_width: usize, colors: PromptColors) -> Seq<SegmentView> {
    seq![
        SegmentView { text: seq![' '], style: plain_cell() },
        SegmentView {
            text: spaces(
                if block_width > 0 {
                    block_width.saturating_add(1) as int
                } else {
                    2
                },
            ),
            style: CellStyle { bg: Some(colors.user_bg), ..plain_cell() },
        },
    ]
}

/// A row of a queued message, filled to the width of its block.
pub open spec fn queued_row(
    chunk: Seq<char>,
    is_command: bool,
    block_width: usize,
    colors: PromptColors,
) -> Seq<SegmentView> {
    let style = CellStyle { bg: Some(colors.user_bg), bold: true, ..plain_cell() };
    seq![
        SegmentView { text: seq![' '], style: plain_cell() },
        SegmentView { text: seq![' '], style },
        SegmentView {
            text: chunk,
            style: if is_command {
                CellStyle { fg: Some(colors.accent), ..style }
            } else {
                style
            },
        },
        SegmentView {
            text: spaces(
                if block_width > 0 {
                    block_width.saturating_sub(cell_width(chunk)) as int
                } else {
                    1
                },
            ),
            style,
        },
    ]
}

/// Rows of runs of text.
pub open spec fn rows_of(rows: Seq<Vec<StyledSegment>>) -> Seq<Seq<SegmentView>> {
    rows.map_values(|row: Vec<StyledSegment>| segments_of(row@))
}

/// Rows of the first `n` chunks of a line.
pub open spec fn chunk_rows(
    chunks: Seq<String>,
    n: int,
    is_command: bool,
    block_width: usize,
    colors: PromptColors,
) -> Seq<Seq<SegmentView>> {
    Seq::new(
        n as nat,
        |i: int| queued_row(chunks[i]@, is_command, block_width, colors),
    )
}

/// Rows of the first `n` lines of a message.
pub open spec fn line_rows(message: QueuedMessage, n: int, colors: PromptColors) -> Seq<
    Seq<SegmentView>,
>
    decreases n,
{
    if n <= 0 {
        Seq::empty()
    } else {
        let line = message.lines@[n - 1];
        line_rows(message, n - 1, colors) + if line.empty {
            seq![queued_blank(message.block_width, colors)]
        } else {
            chunk_rows(
                line.chunks@,
                line.chunks@.len() as int,
                message.is_command,
                message.block_width,
                colors,
            )
        }
    }
}

/// Rows of the first `n` messages.
pub open spec fn queued_rows(queued: Seq<QueuedMessage>, n: int, colors: PromptColors) -> Seq<
    Seq<SegmentView>,
>
    decreases n,
{
    if n <= 0 {
        Seq::empty()
    } else {
        queued_rows(queued, n - 1, colors) + line_rows(
            queued[n - 1],
            queued[n - 1].lines@.len() as int,
            colors,
        )
    }
}

fn push_queued_row(
    rows: &mut Vec<Vec<StyledSegment>>,
    chunk: &str,
    is_command: bool,
    block_width: usize,
    colors: &PromptColors,
)
    ensures
        rows_of(final(rows)@) == rows_of(old(rows)@).push(
            queued_row(chunk@, is_command, block_width, *colors),
        ),
{
    let ghost before = rows@;
    let trailing = if block_width > 0 {
        block_width.saturating_sub(display_width(chunk))
    } else {
        1
    };
    let mut style = plain_cell_style();
    style.bg = Some(colors.user_bg);
    style.bold = true;
    let mut chunk_style = style;
    if is_command {
        chunk_style.fg = Some(colors.accent);
    }
    let mut row: Vec<StyledSegment> = Vec::new();
    row.push(StyledSegment { text: spaces_text(1), style: plain_cell_style() });
    row.push(StyledSegment { text: spaces_text(1), style });
    row.push(StyledSegment { text: String::from_str(chunk), style: chunk_style });
    row.push(StyledSegment { text: spaces_text(trailing), style });
    proof {
        assert(spaces(1) =~= seq![' ']);
        assert(segments_of(row@) =~= queued_row(chunk@, is_command, block_width, *colors));
    }
    rows.push(row);
    proof {
        assert(rows_of(rows@) =~= rows_of(before).push(
            queued_row(chunk@, is_command, block_width, *colors),
        ));
    }
}

fn push_queued_blank(rows: &mut Vec<Vec<StyledSegment>>, block_width: usize, colors: &PromptColors)
    ensures
        rows_of(final(rows)@) == rows_of(old(rows)@).push(queued_blank(block_width, *colors)),
{
    let ghost before = rows@;
    let fill = if block_width > 0 {
        block_width.saturating_add(1)
    } else {
        2
    };
    let mut style = plain_cell_style();
    style.bg = Some(colors.user_bg);
    let mut row: Vec<StyledSegment> = Vec::new();
    row.push(StyledSegment { text: spaces_text(1), style: plain_cell_style() });
    row.push(StyledSegment { text: spaces_text(fill), style });
    proof {
        assert(spaces(1) =~= seq![' ']);
        assert(segments_of(row@) =~= queued_blank(block_width, *colors));
    }
    rows.push(row);
    proof {
        assert(rows_of(rows@) =~= rows_of(before).push(queued_blank(block_width, *colors)));
    }
}

/// Rows of the queued messages.
pub fn queued_message_rows(queued: &Vec<QueuedMessage>, colors: &PromptColors) -> (rows: Vec<
    Vec<StyledSegment>,
>)
    ensures
        rows_of(rows@) == queued_rows(queued@, queued@.len() as int, *colors),
{
    let mut rows: Vec<Vec<StyledSegment>> = Vec::new();
    let mut m: usize = 0;
    proof {
        assert(rows_of(rows@) =~= Seq::<Seq<SegmentView>>::empty());
    }
    while m < queued.len()
        invariant
            m <= queued@.len(),
            rows_of(rows@) == queued_rows(queued@, m as int, *colors),
        decreases queued@.len() - m,
    {
        let message = &queued[m];
        let ghost base = rows_of(rows@);
        let mut l: usize = 0;
        proof {
            assert(base + line_rows(*message, 0, *colors) =~= base);
        }
        while l < message.lines.len()
            invariant
                l <= message.lines@.len(),
                rows_of(rows@) == base + line_rows(*message, l as int, *colors),
            decreases message.lines@.len() - l,
        {
            let line = &message.lines[l];
            let ghost above = line_rows(*message, l as int, *colors);
            if line.empty {
                push_queued_blank(&mut rows, message.block_width, colors);
                proof {
                    assert((base + above).push(queued_blank(message.block_width, *colors)) =~= base
                        + line_rows(*message, l + 1, *colors));
                }
            } else {
                let mut c: usize = 0;
                proof {
                    assert(base + above + chunk_rows(
                        line.chunks@,
                        0,
                        message.is_command,
                        message.block_width,
                        *colors,
                    ) =~= base + above);
                }
                while c < line.chunks.len()
                    invariant
                        c <= line.chunks@.len(),
                        rows_of(rows@) == base + above + chunk_rows(
                            line.chunks@,
                            c as int,
                            message.is_command,
                            message.block_width,
                            *colors,
                        ),
                    decreases line.chunks@.len() - c,
                {
                    let ghost now = rows_of(rows@);
                    push_queued_row(
                        &mut rows,
                        line.chunks[c].as_str(),
                        message.is_command,
                        message.block_width,
                        colors,
                    );
                    proof {
                        assert(rows_of(rows@) =~= base + above + chunk_rows(
                            line.chunks@,
                            c + 1,
                            message.is_command,
                            message.block_width,
                            *colors,
                        ));
                    }
                    c += 1;
                }
                proof {
                    assert(rows_of(rows@) =~= base + line_rows(*message, l + 1, *colors));
                }
            }
            l += 1;
        }
        m += 1;
    }
    rows
}

} // verus!
