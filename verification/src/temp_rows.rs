//! Rows that were drawn on their own, placed in another row: what is kept of their text, and
//! of what is known of the line.
use vstd::prelude::*;
use crate::prompt_style::CellStyle;
use crate::spans::ColorValue;
use crate::text::{cell_width, chars_of, clamp_u16, display_width_u16, text_of};

verus! {

/// What is known of a line: what is copied for it, where it comes from, and how it is
/// selected and filled.
#[derive(Debug)]
pub struct LineDecoration {
    pub source_text: Option<String>,
    pub external_source_text: Option<String>,
    pub source_line: Option<usize>,
    pub soft_wrapped: bool,
    pub copy_continuation: bool,
    pub cell_selectable: bool,
    pub block_selectable: bool,
    pub fill_bg: Option<ColorValue>,
}

/// One thing that a line is marked with.
#[derive(Debug)]
pub enum DecorationOp {
    SourceText(String),
    ExternalSourceText(String),
    SourceLine(usize),
    SoftWrapContinuation,
    CopyContinuation,
    CellSelectable,
    BlockSelectable,
    FillBg(ColorValue),
}

/// One thing that a line is marked with, as mathematical values.
pub enum DecorationStep {
    SourceText(Seq<char>),
    ExternalSourceText(Seq<char>),
    SourceLine(usize),
    SoftWrapContinuation,
    CopyContinuation,
    CellSelectable,
    BlockSelectable,
    FillBg(ColorValue),
}

impl View for DecorationOp {
    type V = DecorationStep;

    open spec fn view(&self) -> DecorationStep {
        match self {
            DecorationOp::SourceText(text) => DecorationStep::SourceText(text@),
            DecorationOp::ExternalSourceText(text) => DecorationStep::ExternalSourceText(text@),
            DecorationOp::SourceLine(line) => DecorationStep::SourceLine(*line),
            DecorationOp::SoftWrapContinuation => DecorationStep::SoftWrapContinuation,
            DecorationOp::CopyContinuation => DecorationStep::CopyContinuation,
            DecorationOp::CellSelectable => DecorationStep::CellSelectable,
            DecorationOp::BlockSelectable => DecorationStep::BlockSelectable,
            DecorationOp::FillBg(color) => DecorationStep::FillBg(*color),
        }
    }
}

/// Some marks, as mathematical values.
pub open spec fn steps_of(ops: Seq<DecorationOp>) -> Seq<DecorationStep> {
    ops.map_values(|op: DecorationOp| op@)
}

/// `step`, if `wanted`.
pub open spec fn step_if(wanted: bool, step: DecorationStep) -> Seq<DecorationStep> {
    if wanted {
        seq![step]
    } else {
        Seq::empty()
    }
}

/// What the row is marked with that a row with this decoration is placed in.
pub open spec fn decoration_steps(dec: LineDecoration, copy_fill_bg: bool) -> Seq<DecorationStep> {
    step_if(
        dec.source_text is Some,
        DecorationStep::SourceText(dec.source_text->0@),
    ) + step_if(
        dec.external_source_text is Some,
        DecorationStep::ExternalSourceText(dec.external_source_text->0@),
    ) + step_if(
        dec.source_line is Some,
        DecorationStep::SourceLine(dec.source_line->0),
    ) + step_if(dec.soft_wrapped, DecorationStep::SoftWrapContinuation) + step_if(
        !dec.soft_wrapped && dec.copy_continuation,
        DecorationStep::CopyContinuation,
    ) + step_if(dec.cell_selectable, DecorationStep::CellSelectable) + step_if(
        dec.block_selectable,
        DecorationStep::BlockSelectable,
    ) + step_if(
        copy_fill_bg && dec.fill_bg is Some,
        DecorationStep::FillBg(dec.fill_bg->0),
    )
}

/// What the row is marked with that a row with this decoration is placed in.
pub fn apply_temp_decoration(dec: &LineDecoration, copy_fill_bg: bool) -> (ops: Vec<DecorationOp>)
    ensures
        steps_of(ops@) == decoration_steps(*dec, copy_fill_bg),
{
    let mut ops: Vec<DecorationOp> = Vec::new();
    let ghost mut steps = Seq::<DecorationStep>::empty();
    if let Some(source) = &dec.source_text {
        ops.push(DecorationOp::SourceText(source.clone()));
    }
    proof {
        let step = DecorationStep::SourceText(dec.source_text->0@);
        steps = steps + step_if(dec.source_text is Some, step);
        assert(steps_of(ops@) =~= steps);
    }
    if let Some(source) = &dec.external_source_text {
        push_op(&mut ops, DecorationOp::ExternalSourceText(source.clone()));
    }
    proof {
        let step = DecorationStep::ExternalSourceText(dec.external_source_text->0@);
        steps = steps + step_if(dec.external_source_text is Some, step);
        assert(steps_of(ops@) =~= steps);
    }
    if let Some(line) = dec.source_line {
        push_op(&mut ops, DecorationOp::SourceLine(line));
    }
    proof {
        let step = DecorationStep::SourceLine(dec.source_line->0);
        steps = steps + step_if(dec.source_line is Some, step);
        assert(steps_of(ops@) =~= steps);
    }
    push_op_if(&mut ops, dec.soft_wrapped, DecorationOp::SoftWrapContinuation);
    push_op_if(
        &mut ops,
        !dec.soft_wrapped && dec.copy_continuation,
        DecorationOp::CopyContinuation,
    );
    push_op_if(&mut ops, dec.cell_selectable, DecorationOp::CellSelectable);
    push_op_if(&mut ops, dec.block_selectable, DecorationOp::BlockSelectable);
    proof {
        steps = steps + step_if(dec.soft_wrapped, DecorationStep::SoftWrapContinuation) + step_if(
            !dec.soft_wrapped && dec.copy_continuation,
            DecorationStep::CopyContinuation,
        ) + step_if(dec.cell_selectable, DecorationStep::CellSelectable) + step_if(
            dec.block_selectable,
            DecorationStep::BlockSelectable,
        );
        assert(steps_of(ops@) == steps);
    }
    if copy_fill_bg {
        if let Some(bg) = dec.fill_bg {
            push_op(&mut ops, DecorationOp::FillBg(bg));
        }
    }
    proof {
        let step = DecorationStep::FillBg(dec.fill_bg->0);
        assert(steps_of(ops@) =~= steps + step_if(copy_fill_bg && dec.fill_bg is Some, step));
        assert(steps_of(ops@) == decoration_steps(*dec, copy_fill_bg));
    }
    ops
}

fn push_op(ops: &mut Vec<DecorationOp>, op: DecorationOp)
    ensures
        steps_of(final(ops)@) == steps_of(old(ops)@).push(op@),
{
    let ghost before = ops@;
    ops.push(op);
    proof {
        assert(steps_of(ops@) =~= steps_of(before).push(op@));
    }
}

fn push_op_if(ops: &mut Vec<DecorationOp>, wanted: bool, op: DecorationOp)
    ensures
        steps_of(final(ops)@) == steps_of(old(ops)@) + step_if(wanted, op@),
{
    let ghost before = steps_of(ops@);
    let ghost step = op@;
    if wanted {
        push_op(ops, op);
    }
    proof {
        assert(steps_of(ops@) =~= before + step_if(wanted, step));
    }
}

/// Cells `col_start .. col_end` of a row in one highlight.
#[derive(Clone, Copy, Debug, PartialEq, Eq, Structural)]
pub struct RowHighlight {
    pub col_start: u16,
    pub col_end: u16,
    pub hl: u64,
    pub meta: u64,
}

/// A run of text that is placed, in a style where it has one, with what is known of it
/// where something is.
#[derive(Debug)]
pub struct EmittedRun {
    pub text: String,
    pub style: Option<CellStyle>,
    pub meta: Option<u64>,
}

/// A run of text that is placed, as mathematical values.
pub struct RunContent {
    pub text: Seq<char>,
    pub style: Option<CellStyle>,
    pub meta: Option<u64>,
}

impl View for EmittedRun {
    type V = RunContent;

    open spec fn view(&self) -> RunContent {
        RunContent { text: self.text@, style: self.style, meta: self.meta }
    }
}

/// Some runs, as mathematical values.
pub open spec fn run_contents(runs: Seq<EmittedRun>) -> Seq<RunContent> {
    runs.map_values(|run: EmittedRun| run@)
}

/// A style that is laid over others: it makes them dim, or italic.
#[derive(Clone, Copy, Debug, PartialEq, Eq, Structural)]
pub struct StyleOverlay {
    pub dim: bool,
    pub italic: bool,
}

/// A style with another laid over it. No style is a plain one.
pub open spec fn overlaid(base: Option<CellStyle>, overlay: StyleOverlay) -> CellStyle {
    let style = match base {
        Some(style) => style,
        None => CellStyle { fg: None, bg: None, bold: false, dim: false, italic: false },
    };
    CellStyle {
        dim: style.dim || overlay.dim,
        italic: style.italic || overlay.italic,
        ..style
    }
}

/// A style with another laid over it.
pub fn overlay_style(base: Option<CellStyle>, overlay: StyleOverlay) -> (style: CellStyle)
    ensures
        style == overlaid(base, overlay),
{
    let mut style = match base {
        Some(style) => style,
        None => CellStyle { fg: None, bg: None, bold: false, dim: false, italic: false },
    };
    if overlay.dim {
        style.dim = true;
    }
    if overlay.italic {
        style.italic = true;
    }
    style
}

/// Cells of one character.
pub open spec fn char_cells(c: char) -> u16 {
    clamp_u16(cell_width(seq![c]) as int)
}

/// Cells of one character.
pub fn char_display_width(c: char) -> (cells: u16)
    ensures
        cells == char_cells(c),
{
    let mut text = String::new();
    text.push(c);
    proof {
        assert(text@ =~= seq![c]);
    }
    display_width_u16(text.as_str())
}

/// Cells of the first `n` characters of a segment.
pub open spec fn cells_before(segment: Seq<char>, n: int) -> u16
    decreases n,
{
    if n <= 0 {
        0
    } else {
        cells_before(segment, n - 1).saturating_add(char_cells(segment[n - 1]))
    }
}

/// How many characters of a segment fit into `budget` cells, where `i` do.
pub open spec fn fitting_from(segment: Seq<char>, budget: u16, i: int) -> int
    decreases segment.len() - i,
{
    if i < segment.len() && cells_before(segment, i + 1) <= budget {
        fitting_from(segment, budget, i + 1)
    } else {
        i
    }
}

/// The state of placing a row: the cell of the row that comes next, the cells that are
/// taken, and what was placed.
pub struct RowState {
    pub col: u16,
    pub emitted: u16,
    pub runs: Seq<RunContent>,
}

/// What is left of `max` cells.
pub open spec fn budget(state: RowState, max: u16) -> u16 {
    max.saturating_sub(state.emitted)
}

impl RowState {
    pub open spec fn is_full(self, max: u16) -> bool {
        self.emitted >= max
    }
}

/// As much of a segment as fits is placed.
pub open spec fn placed(
    state: RowState,
    segment: Seq<char>,
    style: Option<CellStyle>,
    meta: Option<u64>,
    max: u16,
) -> RowState {
    let n = fitting_from(segment, budget(state, max), 0);
    if budget(state, max) == 0 || n == 0 {
        state
    } else {
        RowState {
            col: state.col,
            emitted: state.emitted.saturating_add(cells_before(segment, n)),
            runs: state.runs.push(RunContent { text: segment.take(n), style, meta }),
        }
    }
}

/// `slice` gives this part of a text.
pub open spec fn slices_to<S: Fn(&str, usize, usize) -> String>(
    slice: S,
    text: Seq<char>,
    start: usize,
    end: usize,
    part: Seq<char>,
) -> bool {
    exists|s: &str, p: String| #[trigger]
        call_ensures(slice, (s, start, end), p) && s@ == text && p@ == part
}

/// The cells `start .. end` of a text, as `slice` cuts them.
pub open spec fn cells_of<S: Fn(&str, usize, usize) -> String>(
    slice: S,
    text: Seq<char>,
    start: u16,
    end: u16,
) -> Seq<char> {
    let from = start as usize;
    let to = end as usize;
    choose|part: Seq<char>| #[trigger] slices_to(slice, text, from, to, part)
}

/// `slice` can be asked for any cells in order, and always gives the same.
pub open spec fn pure_slice<S: Fn(&str, usize, usize) -> String>(slice: S) -> bool {
    &&& forall|s: &str, start: usize, end: usize|
        start <= end ==> #[trigger] call_requires(slice, (s, start, end))
    &&& forall|text: Seq<char>, start: usize, end: usize, a: Seq<char>, b: Seq<char>|
        #[trigger] slices_to(slice, text, start, end, a) && #[trigger] slices_to(
            slice,
            text,
            start,
            end,
            b,
        ) ==> a == b
}

/// `resolve` knows every highlight, and always gives it the same style.
pub open spec fn pure_styles<R: Fn(u64) -> CellStyle>(resolve: R) -> bool {
    &&& forall|hl: u64| #[trigger] call_requires(resolve, (hl,))
    &&& forall|hl: u64, a: CellStyle, b: CellStyle|
        #[trigger] call_ensures(resolve, (hl,), a) && #[trigger] call_ensures(resolve, (hl,), b)
            ==> a == b
}

/// The style of a highlight, as `resolve` gives it.
pub open spec fn style_of<R: Fn(u64) -> CellStyle>(resolve: R, hl: u64) -> CellStyle {
    choose|style: CellStyle| call_ensures(resolve, (hl,), style)
}

/// Places the cells up to `end`, if there are any.
pub open spec fn advanced<S: Fn(&str, usize, usize) -> String>(
    slice: S,
    text: Seq<char>,
    state: RowState,
    end: u16,
    style: Option<CellStyle>,
    meta: Option<u64>,
    max: u16,
) -> RowState {
    RowState {
        col: end,
        ..placed(state, cells_of(slice, text, state.col, end), style, meta, max)
    }
}

/// The style of text that has no highlight.
pub open spec fn plain_style(overlay: Option<StyleOverlay>) -> Option<CellStyle> {
    match overlay {
        Some(overlay) => Some(overlaid(None, overlay)),
        None => None,
    }
}

/// The style of text that has a highlight.
pub open spec fn highlight_style<R: Fn(u64) -> CellStyle>(
    resolve: R,
    hl: u64,
    overlay: Option<StyleOverlay>,
) -> CellStyle {
    overlaid(
        Some(style_of(resolve, hl)),
        match overlay {
            Some(overlay) => overlay,
            None => StyleOverlay { dim: false, italic: false },
        },
    )
}

/// Places what stands before a highlight.
pub open spec fn before_highlight<S: Fn(&str, usize, usize) -> String>(
    slice: S,
    text: Seq<char>,
    state: RowState,
    h: RowHighlight,
    overlay: Option<StyleOverlay>,
    max: u16,
) -> RowState {
    let cells = clamp_u16(cell_width(text) as int);
    if h.col_start > state.col {
        advanced(
            slice,
            text,
            state,
            if h.col_start < cells {
                h.col_start
            } else {
                cells
            },
            plain_style(overlay),
            None,
            max,
        )
    } else {
        state
    }
}

/// Places a highlight, and what stands before it.
pub open spec fn with_highlight<S: Fn(&str, usize, usize) -> String, R: Fn(u64) -> CellStyle>(
    slice: S,
    resolve: R,
    text: Seq<char>,
    state: RowState,
    h: RowHighlight,
    overlay: Option<StyleOverlay>,
    max: u16,
) -> RowState {
    let cells = clamp_u16(cell_width(text) as int);
    let end = if h.col_end < cells {
        h.col_end
    } else {
        cells
    };
    let before = before_highlight(slice, text, state, h, overlay, max);
    if h.col_end <= state.col {
        state
    } else if (h.col_start > state.col && before.is_full(max)) || end <= before.col {
        before
    } else {
        advanced(
            slice,
            text,
            before,
            end,
            Some(highlight_style(resolve, h.hl, overlay)),
            Some(h.meta),
            max,
        )
    }
}

/// Whether placing a highlight fills the row.
pub open spec fn fills<S: Fn(&str, usize, usize) -> String, R: Fn(u64) -> CellStyle>(
    slice: S,
    resolve: R,
    text: Seq<char>,
    state: RowState,
    h: RowHighlight,
    overlay: Option<StyleOverlay>,
    max: u16,
) -> bool {
    let cells = clamp_u16(cell_width(text) as int);
    let end = if h.col_end < cells {
        h.col_end
    } else {
        cells
    };
    let before = before_highlight(slice, text, state, h, overlay, max);
    let after = with_highlight(slice, resolve, text, state, h, overlay, max);
    h.col_end > state.col && ((h.col_start > state.col && before.is_full(max)) || (end > before.col
        && after.is_full(max)))
}

/// Places the highlights from `i` on, until the row is full, and the rest of the text.
pub open spec fn row_from<S: Fn(&str, usize, usize) -> String, R: Fn(u64) -> CellStyle>(
    slice: S,
    resolve: R,
    text: Seq<char>,
    highlights: Seq<RowHighlight>,
    i: int,
    state: RowState,
    overlay: Option<StyleOverlay>,
    max: u16,
) -> RowState
    decreases highlights.len() - i,
{
    let cells = clamp_u16(cell_width(text) as int);
    if i >= highlights.len() {
        if state.col < cells && !state.is_full(max) {
            advanced(slice, text, state, cells, plain_style(overlay), None, max)
        } else {
            state
        }
    } else {
        let after = with_highlight(slice, resolve, text, state, highlights[i], overlay, max);
        if fills(slice, resolve, text, state, highlights[i], overlay, max) {
            after
        } else {
            row_from(slice, resolve, text, highlights, i + 1, after, overlay, max)
        }
    }
}

/// `h` put behind all that do not begin after it.
pub open spec fn inserted(sorted: Seq<RowHighlight>, h: RowHighlight) -> Seq<RowHighlight>
    decreases sorted.len(),
{
    if sorted.len() > 0 && sorted.last().col_start > h.col_start {
        inserted(sorted.drop_last(), h).push(sorted.last())
    } else {
        sorted.push(h)
    }
}

/// Highlights by where they begin, those that begin together in the order they had.
pub open spec fn by_start(highlights: Seq<RowHighlight>) -> Seq<RowHighlight>
    decreases highlights.len(),
{
    if highlights.len() == 0 {
        Seq::empty()
    } else {
        inserted(by_start(highlights.drop_last()), highlights.last())
    }
}

fn sort_by_start(highlights: &Vec<RowHighlight>) -> (sorted: Vec<RowHighlight>)
    ensures
        sorted@ == by_start(highlights@),
{
    let mut sorted: Vec<RowHighlight> = Vec::new();
    let mut i: usize = 0;
    proof {
        assert(highlights@.take(0) =~= Seq::<RowHighlight>::empty());
        assert(sorted@ =~= by_start(highlights@.take(0)));
    }
    while i < highlights.len()
        invariant
            i <= highlights@.len(),
            sorted@ == by_start(highlights@.take(i as int)),
        decreases highlights@.len() - i,
    {
        let h = highlights[i];
        let ghost before = sorted@;
        let mut at: usize = sorted.len();
        proof {
            assert(before.take(at as int) =~= before);
            assert(before.skip(at as int) =~= Seq::<RowHighlight>::empty());
            assert(inserted(before, h) =~= inserted(before, h) + Seq::<RowHighlight>::empty());
        }
        while at > 0 && sorted[at - 1].col_start > h.col_start
            invariant
                at <= sorted@.len(),
                sorted@ == before,
                inserted(before, h) == inserted(before.take(at as int), h) + before.skip(
                    at as int,
                ),
            decreases at,
        {
            proof {
                let part = before.take(at as int);
                assert(part.drop_last() =~= before.take(at - 1));
                assert(inserted(part, h) == inserted(before.take(at - 1), h).push(part.last()));
                assert(inserted(part, h) + before.skip(at as int) =~= inserted(
                    before.take(at - 1),
                    h,
                ) + before.skip(at - 1));
            }
            at -= 1;
        }
        sorted.insert(at, h);
        proof {
            let part = before.take(at as int);
            assert(inserted(part, h) == part.push(h));
            assert(sorted@ =~= inserted(before, h));
            assert(highlights@.take(i + 1).drop_last() =~= highlights@.take(i as int));
        }
        i += 1;
    }
    proof {
        assert(highlights@.take(i as int) =~= highlights@);
    }
    sorted
}

/// Places as much of a segment as fits, and says how many cells that took.
fn emit_clipped(
    runs: &mut Vec<EmittedRun>,
    segment: &str,
    style: Option<CellStyle>,
    meta: Option<u64>,
    max_cols: u16,
    already: u16,
) -> (used: u16)
    ensures
        ({
            let state = RowState { col: 0, emitted: already, runs: run_contents(old(runs)@) };
            let after = placed(state, segment@, style, meta, max_cols);
            &&& run_contents(final(runs)@) == after.runs
            &&& already.saturating_add(used) == after.emitted
        }),
{
    let ghost state = RowState { col: 0, emitted: already, runs: run_contents(runs@) };
    let left = max_cols.saturating_sub(already);
    if left == 0 {
        return 0;
    }
    let chars = chars_of(segment);
    let mut n: usize = 0;
    let mut cells: u16 = 0;
    let mut fits: bool = true;
    while fits && n < chars.len()
        invariant
            n <= chars@.len(),
            chars@ == segment@,
            cells == cells_before(segment@, n as int),
            fits ==> fitting_from(segment@, left, 0) == fitting_from(segment@, left, n as int),
            !fits ==> fitting_from(segment@, left, 0) == n,
        decreases chars@.len() - n + if fits {
            1int
        } else {
            0int
        },
    {
        let next = cells.saturating_add(char_display_width(chars[n]));
        if next > left {
            fits = false;
        } else {
            cells = next;
            n += 1;
        }
    }
    if n == 0 {
        return 0;
    }
    let ghost before = runs@;
    let run = EmittedRun { text: text_of(&chars, 0, n), style, meta };
    runs.push(run);
    proof {
        assert(run@.text =~= segment@.take(n as int));
        assert(run_contents(runs@) =~= run_contents(before).push(run@));
    }
    cells
}

/// Places a row in at most `max_cols` cells, and says how many it took.
pub fn emit_buffer_row_clipped<S: Fn(&str, usize, usize) -> String, R: Fn(u64) -> CellStyle>(
    text: &str,
    highlights: &Vec<RowHighlight>,
    max_cols: u16,
    overlay: Option<StyleOverlay>,
    slice: &S,
    resolve: &R,
) -> (r: (Vec<EmittedRun>, u16))
    requires
        pure_slice(*slice),
        pure_styles(*resolve),
    ensures
        ({
            let after = row_from(
                *slice,
                *resolve,
                text@,
                by_start(highlights@),
                0,
                RowState { col: 0, emitted: 0, runs: Seq::empty() },
                overlay,
                max_cols,
            );
            &&& run_contents(r.0@) == after.runs
            &&& r.1 == after.emitted
        }),
{
    let sorted = sort_by_start(highlights);
    let text_width = display_width_u16(text);
    let plain = match overlay {
        Some(overlay) => Some(overlay_style(None, overlay)),
        None => None,
    };
    let over = match overlay {
        Some(overlay) => overlay,
        None => StyleOverlay { dim: false, italic: false },
    };
    let mut runs: Vec<EmittedRun> = Vec::new();
    let mut emitted: u16 = 0;
    let mut col: u16 = 0;
    let mut i: usize = 0;
    proof {
        assert(run_contents(runs@) =~= Seq::<RunContent>::empty());
    }
    let ghost all = row_from(
        *slice,
        *resolve,
        text@,
        sorted@,
        0,
        RowState { col: 0, emitted: 0, runs: Seq::empty() },
        overlay,
        max_cols,
    );
    while i < sorted.len()
        invariant
            i <= sorted@.len(),
            pure_slice(*slice),
            pure_styles(*resolve),
            col <= text_width,
            text_width == clamp_u16(cell_width(text@) as int),
            plain == plain_style(overlay),
            over == match overlay {
                Some(overlay) => overlay,
                None => StyleOverlay { dim: false, italic: false },
            },
            sorted@ == by_start(highlights@),
            all == row_from(
                *slice,
                *resolve,
                text@,
                sorted@,
                0,
                RowState { col: 0, emitted: 0, runs: Seq::empty() },
                overlay,
                max_cols,
            ),
            all == row_from(
                *slice,
                *resolve,
                text@,
                sorted@,
                i as int,
                RowState { col, emitted, runs: run_contents(runs@) },
                overlay,
                max_cols,
            ),
        decreases sorted@.len() - i,
    {
        let h = sorted[i];
        let ghost state = RowState { col, emitted, runs: run_contents(runs@) };
        let ghost before = before_highlight(*slice, text@, state, h, overlay, max_cols);
        if h.col_end > col {
            if h.col_start > col {
                let end = if h.col_start < text_width {
                    h.col_start
                } else {
                    text_width
                };
                let part = slice(text, col as usize, end as usize);
                proof {
                    assert(slices_to(*slice, text@, col as usize, end as usize, part@));
                    assert(part@ == cells_of(*slice, text@, col, end));
                }
                let used = emit_clipped(
                    &mut runs,
                    part.as_str(),
                    plain,
                    None,
                    max_cols,
                    emitted,
                );
                emitted = emitted.saturating_add(used);
                col = end;
                proof {
                    assert(RowState { col, emitted, runs: run_contents(runs@) } == before);
                }
                if emitted >= max_cols {
                    proof {
                        lemma_full_row_stays(
                            *slice,
                            *resolve,
                            text@,
                            sorted@,
                            i as int,
                            state,
                            overlay,
                            max_cols,
                        );
                    }
                    return (runs, emitted);
                }
            }
            let end = if h.col_end < text_width {
                h.col_end
            } else {
                text_width
            };
            if end > col {
                let part = slice(text, col as usize, end as usize);
                proof {
                    assert(slices_to(*slice, text@, col as usize, end as usize, part@));
                    assert(part@ == cells_of(*slice, text@, col, end));
                }
                let base = resolve(h.hl);
                proof {
                    assert(base == style_of(*resolve, h.hl));
                }
                let used = emit_clipped(
                    &mut runs,
                    part.as_str(),
                    Some(overlay_style(Some(base), over)),
                    Some(h.meta),
                    max_cols,
                    emitted,
                );
                emitted = emitted.saturating_add(used);
                col = end;
                if emitted >= max_cols {
                    return (runs, emitted);
                }
            }
        }
        i += 1;
    }
    if col < text_width && emitted < max_cols {
        let part = slice(text, col as usize, text_width as usize);
        proof {
            assert(slices_to(*slice, text@, col as usize, text_width as usize, part@));
            assert(part@ == cells_of(*slice, text@, col, text_width));
        }
        let used = emit_clipped(&mut runs, part.as_str(), plain, None, max_cols, emitted);
        emitted = emitted.saturating_add(used);
    }
    (runs, emitted)
}

proof fn lemma_full_row_stays<S: Fn(&str, usize, usize) -> String, R: Fn(u64) -> CellStyle>(
    slice: S,
    resolve: R,
    text: Seq<char>,
    highlights: Seq<RowHighlight>,
    i: int,
    state: RowState,
    overlay: Option<StyleOverlay>,
    max: u16,
)
    requires
        0 <= i < highlights.len(),
        highlights[i].col_end > state.col,
        highlights[i].col_start > state.col,
        before_highlight(slice, text, state, highlights[i], overlay, max).is_full(max),
    ensures
        row_from(slice, resolve, text, highlights, i, state, overlay, max)
            == before_highlight(slice, text, state, highlights[i], overlay, max),
{
}

proof fn lemma_fitting(segment: Seq<char>, left: u16, i: int)
    requires
        0 <= i <= segment.len(),
        cells_before(segment, i) <= left,
    ensures
        i <= fitting_from(segment, left, i) <= segment.len(),
        cells_before(segment, fitting_from(segment, left, i)) <= left,
    decreases segment.len() - i,
{
    if i < segment.len() && cells_before(segment, i + 1) <= left {
        lemma_fitting(segment, left, i + 1);
    }
}

/// A row that is placed never takes more cells than it may.
pub proof fn placed_row_fits<S: Fn(&str, usize, usize) -> String, R: Fn(u64) -> CellStyle>(
    slice: S,
    resolve: R,
    text: Seq<char>,
    highlights: Seq<RowHighlight>,
    i: int,
    state: RowState,
    overlay: Option<StyleOverlay>,
    max: u16,
)
    requires
        state.emitted <= max,
    ensures
        row_from(slice, resolve, text, highlights, i, state, overlay, max).emitted <= max,
    decreases highlights.len() - i,
{
    let cells = clamp_u16(cell_width(text) as int);
    if i >= highlights.len() {
        lemma_fitting(cells_of(slice, text, state.col, cells), budget(state, max), 0);
    } else {
        let h = highlights[i];
        let start = if h.col_start < cells {
            h.col_start
        } else {
            cells
        };
        let end = if h.col_end < cells {
            h.col_end
        } else {
            cells
        };
        let before = before_highlight(slice, text, state, h, overlay, max);
        lemma_fitting(cells_of(slice, text, state.col, start), budget(state, max), 0);
        lemma_fitting(cells_of(slice, text, before.col, end), budget(before, max), 0);
        let after = with_highlight(slice, resolve, text, state, h, overlay, max);
        placed_row_fits(slice, resolve, text, highlights, i + 1, after, overlay, max);
    }
}

proof fn lemma_inserted(sorted: Seq<RowHighlight>, h: RowHighlight)
    requires
        forall|i: int, j: int|
            0 <= i <= j < sorted.len() ==> sorted[i].col_start <= sorted[j].col_start,
    ensures
        inserted(sorted, h).to_multiset() == sorted.to_multiset().insert(h),
        inserted(sorted, h).len() == sorted.len() + 1,
        forall|i: int, j: int|
            0 <= i <= j < inserted(sorted, h).len() ==> inserted(sorted, h)[i].col_start
                <= inserted(sorted, h)[j].col_start,
        sorted.len() > 0 ==> inserted(sorted, h).last().col_start == if sorted.last().col_start
            > h.col_start {
            sorted.last().col_start
        } else {
            h.col_start
        },
    decreases sorted.len(),
{
    broadcast use vstd::seq_lib::group_to_multiset_ensures;

    if sorted.len() > 0 && sorted.last().col_start > h.col_start {
        let front = sorted.drop_last();
        lemma_inserted(front, h);
        assert(front.push(sorted.last()) =~= sorted);
        let longer = inserted(front, h).push(sorted.last());
        assert(longer.to_multiset() =~= sorted.to_multiset().insert(h));
        assert forall|i: int, j: int| 0 <= i <= j < longer.len() implies longer[i].col_start
            <= longer[j].col_start by {
            if j == longer.len() - 1 && i < j {
                assert(inserted(front, h)[i].col_start <= inserted(front, h)[front.len()
                    as int].col_start);
                if front.len() > 0 {
                    assert(sorted[sorted.len() - 2].col_start <= sorted[sorted.len()
                        - 1].col_start);
                }
            }
        }
    }
}

/// Sorting highlights keeps all of them, and puts them in the order in which they begin.
pub proof fn highlights_are_ordered(highlights: Seq<RowHighlight>)
    ensures
        by_start(highlights).to_multiset() == highlights.to_multiset(),
        forall|i: int, j: int|
            0 <= i <= j < by_start(highlights).len() ==> by_start(highlights)[i].col_start
                <= by_start(highlights)[j].col_start,
    decreases highlights.len(),
{
    broadcast use vstd::seq_lib::group_to_multiset_ensures;

    if highlights.len() > 0 {
        highlights_are_ordered(highlights.drop_last());
        lemma_inserted(by_start(highlights.drop_last()), highlights.last());
        assert(highlights.drop_last().push(highlights.last()) =~= highlights);
    }
}

} // verus!
