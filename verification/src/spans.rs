//! Styled spans of a drawn block, and the collector that block renderers write into.
use vstd::prelude::*;
use crate::text::{cell_width, display_width};

verus! {

/// A colour by name.
#[derive(Clone, Copy, Debug, PartialEq, Eq, Structural)]
pub enum NamedColor {
    Reset,
    Black,
    DarkGrey,
    Red,
    DarkRed,
    Green,
    DarkGreen,
    Yellow,
    DarkYellow,
    Blue,
    DarkBlue,
    Magenta,
    DarkMagenta,
    Cyan,
    DarkCyan,
    White,
    Grey,
}

/// A colour by what it is for. The theme says which one it is.
#[derive(Clone, Copy, Debug, PartialEq, Eq, Structural)]
pub enum ColorRole {
    Accent,
    Slug,
    UserBg,
    CodeBlockBg,
    Bar,
    ToolPending,
    ReasonOff,
    Muted,
}

/// A colour as renderers write it.
#[derive(Clone, Copy, Debug, PartialEq, Eq, Structural)]
pub enum ColorValue {
    Rgb(u8, u8, u8),
    Ansi(u8),
    Named(NamedColor),
    Role(ColorRole),
}

/// How a span looks.
#[derive(Clone, Copy, Debug, PartialEq, Eq, Structural)]
pub struct SpanStyle {
    pub fg: Option<ColorValue>,
    pub bg: Option<ColorValue>,
    pub bold: bool,
    pub dim: bool,
    pub italic: bool,
    pub crossedout: bool,
}

/// What a span is for those who select and copy.
#[derive(Debug)]
pub struct SpanMeta {
    pub selectable: bool,
    pub copy_as: Option<String>,
}

/// A run of text in one style.
#[derive(Debug)]
pub struct DisplaySpan {
    pub text: String,
    pub style: SpanStyle,
    pub meta: SpanMeta,
}

/// One row.
#[derive(Debug)]
pub struct DisplayLine {
    pub spans: Vec<DisplaySpan>,
    pub fill_bg: Option<ColorValue>,
    pub fill_right_margin: u16,
    pub gutter_bg: Option<ColorValue>,
    pub soft_wrapped: bool,
    pub source_text: Option<String>,
}

/// The rows of a block at a width.
#[derive(Debug)]
pub struct DisplayBlock {
    pub lines: Vec<DisplayLine>,
    pub layout_width: u16,
    pub was_wrapped: bool,
    pub max_line_width: u16,
}

/// A span as mathematical values.
pub struct SpanView {
    pub text: Seq<char>,
    pub style: SpanStyle,
    pub selectable: bool,
    pub copy_as: Option<Seq<char>>,
}

/// A row as mathematical values.
pub struct LineView {
    pub spans: Seq<SpanView>,
    pub fill_bg: Option<ColorValue>,
    pub fill_right_margin: u16,
    pub gutter_bg: Option<ColorValue>,
    pub soft_wrapped: bool,
    pub source_text: Option<Seq<char>>,
}

/// A block as mathematical values.
pub struct BlockView {
    pub lines: Seq<LineView>,
    pub layout_width: u16,
    pub was_wrapped: bool,
    pub max_line_width: u16,
}

pub open spec fn text_option(text: Option<String>) -> Option<Seq<char>> {
    match text {
        Some(text) => Some(text@),
        None => None,
    }
}

impl View for DisplaySpan {
    type V = SpanView;

    open spec fn view(&self) -> SpanView {
        SpanView {
            text: self.text@,
            style: self.style,
            selectable: self.meta.selectable,
            copy_as: text_option(self.meta.copy_as),
        }
    }
}

impl View for DisplayLine {
    type V = LineView;

    open spec fn view(&self) -> LineView {
        LineView {
            spans: self.spans@.map_values(|span: DisplaySpan| span@),
            fill_bg: self.fill_bg,
            fill_right_margin: self.fill_right_margin,
            gutter_bg: self.gutter_bg,
            soft_wrapped: self.soft_wrapped,
            source_text: text_option(self.source_text),
        }
    }
}

impl View for DisplayBlock {
    type V = BlockView;

    open spec fn view(&self) -> BlockView {
        BlockView {
            lines: self.lines@.map_values(|line: DisplayLine| line@),
            layout_width: self.layout_width,
            was_wrapped: self.was_wrapped,
            max_line_width: self.max_line_width,
        }
    }
}

/// The style of text that nothing was said of.
pub open spec fn plain() -> SpanStyle {
    SpanStyle { fg: None, bg: None, bold: false, dim: false, italic: false, crossedout: false }
}

/// A row of nothing.
pub open spec fn blank() -> LineView {
    LineView {
        spans: Seq::empty(),
        fill_bg: None,
        fill_right_margin: 0,
        gutter_bg: None,
        soft_wrapped: false,
        source_text: None,
    }
}

/// What is written into a collector.
pub enum SpanOp {
    /// Text that is selected and copied as it stands, or otherwise.
    Print { text: Seq<char>, selectable: bool, copy_as: Option<Seq<char>> },
    Newline,
    MarkWrapped,
    FillLineBg { bg: ColorValue, right_margin: u16 },
    SetGutterBg { bg: ColorValue },
    MarkSoftWrapContinuation,
    SetSourceText { text: Seq<char> },
    ArmSourceText { text: Seq<char> },
    DisarmSourceText,
    SetStyle { change: StyleChange },
    PushStyle { change: StyleChange },
    PopStyle,
}

/// A change of style.
pub enum StyleChange {
    To(SpanStyle),
    Reset,
    Fg(ColorValue),
    Bg(ColorValue),
    Bold,
    Dim,
    Italic,
    DimItalic,
    CrossedOut,
}

/// A style after a change.
pub open spec fn restyled(style: SpanStyle, change: StyleChange) -> SpanStyle {
    match change {
        StyleChange::To(style) => style,
        StyleChange::Reset => plain(),
        StyleChange::Fg(c) => SpanStyle { fg: Some(c), ..style },
        StyleChange::Bg(c) => SpanStyle { bg: Some(c), ..style },
        StyleChange::Bold => SpanStyle { bold: true, ..style },
        StyleChange::Dim => SpanStyle { dim: true, ..style },
        StyleChange::Italic => SpanStyle { italic: true, ..style },
        StyleChange::DimItalic => SpanStyle { dim: true, italic: true, ..style },
        StyleChange::CrossedOut => SpanStyle { crossedout: true, ..style },
    }
}

/// A collector as mathematical values.
pub struct CollectorView {
    pub block: BlockView,
    pub line: LineView,
    pub style: SpanStyle,
    pub stack: Seq<SpanStyle>,
    pub cols: u16,
    pub pending_source_text: Option<Seq<char>>,
    pub auto_soft_wrap_continuation: bool,
}

/// Text printed in plain meta.
pub open spec fn printed(text: Seq<char>) -> SpanOp {
    SpanOp::Print { text, selectable: true, copy_as: None }
}

/// Text printed that is not selected.
pub open spec fn printed_gutter(text: Seq<char>) -> SpanOp {
    SpanOp::Print { text, selectable: false, copy_as: None }
}

/// The spans of a row once one more is printed: text in the style and meta of the last
/// span goes on with it.
pub open spec fn with_span(spans: Seq<SpanView>, span: SpanView) -> Seq<SpanView> {
    if span.text.len() == 0 {
        spans
    } else if spans.len() > 0 && spans.last().style == span.style && spans.last().selectable
        == span.selectable && spans.last().copy_as == span.copy_as {
        spans.drop_last().push(
            SpanView { text: spans.last().text + span.text, ..span },
        )
    } else {
        spans.push(span)
    }
}

/// The wider of two widths.
pub open spec fn wider(a: u16, b: u16) -> u16 {
    if b > a {
        b
    } else {
        a
    }
}

/// A collector once something is written into it.
pub open spec fn written(c: CollectorView, op: SpanOp) -> CollectorView {
    match op {
        SpanOp::Print { text, selectable, copy_as } => CollectorView {
            line: LineView {
                spans: with_span(
                    c.line.spans,
                    SpanView { text, style: c.style, selectable, copy_as },
                ),
                ..c.line
            },
            cols: if text.len() == 0 {
                c.cols
            } else {
                c.cols.saturating_add(cell_width(text) as u16)
            },
            ..c
        },
        SpanOp::Newline => {
            let line = match c.pending_source_text {
                Some(text) => LineView { source_text: Some(text), ..c.line },
                None => LineView {
                    soft_wrapped: c.line.soft_wrapped || c.auto_soft_wrap_continuation,
                    ..c.line
                },
            };
            CollectorView {
                block: BlockView {
                    lines: c.block.lines.push(line),
                    max_line_width: wider(c.block.max_line_width, c.cols),
                    ..c.block
                },
                line: blank(),
                cols: 0,
                pending_source_text: None,
                ..c
            }
        },
        SpanOp::MarkWrapped => CollectorView {
            block: BlockView { was_wrapped: true, ..c.block },
            ..c
        },
        SpanOp::FillLineBg { bg, right_margin } => CollectorView {
            line: LineView { fill_bg: Some(bg), fill_right_margin: right_margin, ..c.line },
            ..c
        },
        SpanOp::SetGutterBg { bg } => CollectorView {
            line: LineView { gutter_bg: Some(bg), ..c.line },
            ..c
        },
        SpanOp::MarkSoftWrapContinuation => CollectorView {
            line: LineView { soft_wrapped: true, ..c.line },
            ..c
        },
        SpanOp::SetSourceText { text } => CollectorView {
            line: LineView { source_text: Some(text), ..c.line },
            ..c
        },
        SpanOp::ArmSourceText { text } => CollectorView {
            pending_source_text: Some(text),
            auto_soft_wrap_continuation: true,
            ..c
        },
        SpanOp::DisarmSourceText => CollectorView {
            pending_source_text: None,
            auto_soft_wrap_continuation: false,
            ..c
        },
        SpanOp::SetStyle { change } => CollectorView { style: restyled(c.style, change), ..c },
        SpanOp::PushStyle { change } => CollectorView {
            style: restyled(c.style, change),
            stack: c.stack.push(c.style),
            ..c
        },
        SpanOp::PopStyle => if c.stack.len() > 0 {
            CollectorView { style: c.stack.last(), stack: c.stack.drop_last(), ..c }
        } else {
            c
        },
    }
}

/// A collector once some things are written into it, one after the other.
pub open spec fn all_written(c: CollectorView, ops: Seq<SpanOp>) -> CollectorView
    decreases ops.len(),
{
    if ops.len() == 0 {
        c
    } else {
        written(all_written(c, ops.drop_last()), ops.last())
    }
}

/// Writing one thing after some others.
pub broadcast proof fn lemma_written_after(c: CollectorView, ops: Seq<SpanOp>, op: SpanOp)
    ensures
        #[trigger] all_written(c, ops.push(op)) == written(all_written(c, ops), op),
{
    assert(ops.push(op).drop_last() =~= ops);
}

/// Writing some things after some others.
pub proof fn lemma_all_written(c: CollectorView, a: Seq<SpanOp>, b: Seq<SpanOp>)
    ensures
        all_written(c, a + b) == all_written(all_written(c, a), b),
    decreases b.len(),
{
    if b.len() == 0 {
        assert(a + b =~= a);
    } else {
        lemma_all_written(c, a, b.drop_last());
        assert((a + b).drop_last() =~= a + b.drop_last());
    }
}

/// The rows of a block once its collector is finished: a row that was begun is the last.
pub open spec fn finished(c: CollectorView) -> BlockView {
    if c.line.spans.len() > 0 || c.line.fill_bg is Some || c.cols > 0 {
        BlockView {
            lines: c.block.lines.push(c.line),
            max_line_width: wider(c.block.max_line_width, c.cols),
            ..c.block
        }
    } else {
        c.block
    }
}

/// Collects the rows of a block.
#[derive(Debug)]
pub struct SpanCollector {
    pub block: DisplayBlock,
    pub cur_line: DisplayLine,
    pub cur_style: SpanStyle,
    pub style_stack: Vec<SpanStyle>,
    pub cur_visible_cols: u16,
    pub pending_source_text: Option<String>,
    pub auto_soft_wrap_continuation: bool,
}

impl View for SpanCollector {
    type V = CollectorView;

    open spec fn view(&self) -> CollectorView {
        CollectorView {
            block: self.block@,
            line: self.cur_line@,
            style: self.cur_style,
            stack: self.style_stack@,
            cols: self.cur_visible_cols,
            pending_source_text: text_option(self.pending_source_text),
            auto_soft_wrap_continuation: self.auto_soft_wrap_continuation,
        }
    }
}

fn blank_line() -> (line: DisplayLine)
    ensures
        line@ == blank(),
{
    let line = DisplayLine {
        spans: Vec::new(),
        fill_bg: None,
        fill_right_margin: 0,
        gutter_bg: None,
        soft_wrapped: false,
        source_text: None,
    };
    proof {
        assert(line@.spans =~= Seq::<SpanView>::empty());
    }
    line
}

/// The style of text that nothing was said of.
pub fn plain_style() -> (style: SpanStyle)
    ensures
        style == plain(),
{
    SpanStyle { fg: None, bg: None, bold: false, dim: false, italic: false, crossedout: false }
}

fn same_copy(a: &Option<String>, b: &Option<String>) -> (r: bool)
    ensures
        r == (text_option(*a) == text_option(*b)),
{
    match (a, b) {
        (Some(a), Some(b)) => *a == *b,
        (None, None) => true,
        _ => false,
    }
}

impl SpanCollector {
    /// A collector for a block at a width.
    pub fn new(layout_width: u16) -> (c: Self)
        ensures
            c@ == (CollectorView {
                block: BlockView {
                    lines: Seq::empty(),
                    layout_width,
                    was_wrapped: false,
                    max_line_width: 0,
                },
                line: blank(),
                style: plain(),
                stack: Seq::empty(),
                cols: 0,
                pending_source_text: None,
                auto_soft_wrap_continuation: false,
            }),
    {
        let c = SpanCollector {
            block: DisplayBlock {
                lines: Vec::new(),
                layout_width,
                was_wrapped: false,
                max_line_width: 0,
            },
            cur_line: blank_line(),
            cur_style: plain_style(),
            style_stack: Vec::new(),
            cur_visible_cols: 0,
            pending_source_text: None,
            auto_soft_wrap_continuation: false,
        };
        proof {
            assert(c@.block.lines =~= Seq::<LineView>::empty());
            assert(c@.stack =~= Seq::<SpanStyle>::empty());
        }
        c
    }

    /// The rows that were collected. A row that was begun is the last.
    pub fn finish(self) -> (block: DisplayBlock)
        ensures
            block@ == finished(self@),
    {
        let mut block = self.block;
        if self.cur_line.spans.len() > 0 || self.cur_line.fill_bg.is_some()
            || self.cur_visible_cols > 0 {
            if self.cur_visible_cols > block.max_line_width {
                block.max_line_width = self.cur_visible_cols;
            }
            block.lines.push(self.cur_line);
        }
        proof {
            assert(block@.lines =~= finished(self@).lines);
        }
        block
    }

    /// Prints text that is selected and copied as it stands.
    pub fn print(&mut self, text: &str)
        ensures
            final(self)@ == written(old(self)@, printed(text@)),
    {
        self.print_with_meta(text, SpanMeta { selectable: true, copy_as: None });
    }

    /// Prints text that is selected and copied as it stands.
    pub fn print_string(&mut self, s: String)
        ensures
            final(self)@ == written(old(self)@, printed(s@)),
    {
        self.print(s.as_str());
    }

    /// Prints text that is not selected.
    pub fn print_gutter(&mut self, text: &str)
        ensures
            final(self)@ == written(old(self)@, printed_gutter(text@)),
    {
        self.print_with_meta(text, SpanMeta { selectable: false, copy_as: None });
    }

    /// Prints text.
    pub fn print_with_meta(&mut self, text: &str, meta: SpanMeta)
        ensures
            final(self)@ == written(
                old(self)@,
                SpanOp::Print {
                    text: text@,
                    selectable: meta.selectable,
                    copy_as: text_option(meta.copy_as),
                },
            ),
    {
        let text_owned = String::from_str(text);
        let ghost before = self@;
        let ghost target = written(
            before,
            SpanOp::Print {
                text: text@,
                selectable: meta.selectable,
                copy_as: text_option(meta.copy_as),
            },
        );
        if text.is_empty() {
            proof {
                assert(self@.line.spans =~= target.line.spans);
            }
            return ;
        }
        let w = display_width(text) as u16;
        self.cur_visible_cols = self.cur_visible_cols.saturating_add(w);
        let ghost spans = self.cur_line.spans@;
        let n = self.cur_line.spans.len();
        if n > 0 {
            let last = &self.cur_line.spans[n - 1];
            if last.style == self.cur_style && last.meta.selectable == meta.selectable && same_copy(
                &last.meta.copy_as,
                &meta.copy_as,
            ) {
                if let Some(span) = self.cur_line.spans.pop() {
                    let mut span = span;
                    span.text.append(text);
                    self.cur_line.spans.push(span);
                    proof {
                        assert(self@.line.spans =~= target.line.spans);
                    }
                }
                return ;
            }
        }
        self.cur_line.spans.push(DisplaySpan { text: text_owned, style: self.cur_style, meta });
        proof {
            assert(self@.line.spans =~= target.line.spans);
        }
    }

    /// Ends the row.
    pub fn newline(&mut self)
        ensures
            final(self)@ == written(old(self)@, SpanOp::Newline),
    {
        let ghost target = written(self@, SpanOp::Newline);
        let mut line = blank_line();
        core::mem::swap(&mut line, &mut self.cur_line);
        let mut pending: Option<String> = None;
        core::mem::swap(&mut pending, &mut self.pending_source_text);
        if let Some(text) = pending {
            line.source_text = Some(text);
        } else if self.auto_soft_wrap_continuation {
            line.soft_wrapped = true;
        }
        if self.cur_visible_cols > self.block.max_line_width {
            self.block.max_line_width = self.cur_visible_cols;
        }
        self.block.lines.push(line);
        self.cur_visible_cols = 0;
        proof {
            assert(self@.block.lines =~= target.block.lines);
        }
    }

    /// Marks the block as one that can only be shown at its width.
    pub fn mark_wrapped(&mut self)
        ensures
            final(self)@ == written(old(self)@, SpanOp::MarkWrapped),
    {
        self.block.was_wrapped = true;
    }

    /// Fills the rest of the row, but for some columns on the right.
    pub fn fill_line_bg(&mut self, bg: ColorValue, right_margin: u16)
        requires
            old(self)@.line.fill_bg is None,
        ensures
            final(self)@ == written(old(self)@, SpanOp::FillLineBg { bg, right_margin }),
    {
        self.cur_line.fill_bg = Some(bg);
        self.cur_line.fill_right_margin = right_margin;
    }

    /// Gives the gutter of the row a background.
    pub fn set_gutter_bg(&mut self, bg: ColorValue)
        ensures
            final(self)@ == written(old(self)@, SpanOp::SetGutterBg { bg }),
    {
        self.cur_line.gutter_bg = Some(bg);
    }

    /// Marks the row as one that goes on with the one before.
    pub fn mark_soft_wrap_continuation(&mut self)
        ensures
            final(self)@ == written(old(self)@, SpanOp::MarkSoftWrapContinuation),
    {
        self.cur_line.soft_wrapped = true;
    }

    /// Says what the row was drawn from.
    pub fn set_source_text(&mut self, text: &str)
        ensures
            final(self)@ == written(old(self)@, SpanOp::SetSourceText { text: text@ }),
    {
        self.cur_line.source_text = Some(String::from_str(text));
    }

    /// Says what the next rows were drawn from: the first carries the source, the others
    /// go on with it.
    pub fn arm_source_text(&mut self, source: String)
        ensures
            final(self)@ == written(old(self)@, SpanOp::ArmSourceText { text: source@ }),
    {
        self.pending_source_text = Some(source);
        self.auto_soft_wrap_continuation = true;
    }

    /// Ends what [`Self::arm_source_text`] began.
    pub fn disarm_source_text(&mut self)
        ensures
            final(self)@ == written(old(self)@, SpanOp::DisarmSourceText),
    {
        self.pending_source_text = None;
        self.auto_soft_wrap_continuation = false;
    }

    /// The style that text is printed in.
    pub fn snapshot_style(&self) -> (style: SpanStyle)
        ensures
            style == self@.style,
    {
        self.cur_style
    }

    fn apply_style(&mut self, style: SpanStyle)
        ensures
            final(self)@ == written(old(self)@, SpanOp::SetStyle { change: StyleChange::To(style) }),
    {
        self.cur_style = style;
    }

    /// Prints in a style until [`Self::pop_style`].
    pub fn push_style(&mut self, style: SpanStyle)
        ensures
            final(self)@ == written(old(self)@, SpanOp::PushStyle { change: StyleChange::To(style) }),
    {
        self.style_stack.push(self.cur_style);
        self.cur_style = style;
    }

    /// Goes back to the style before the last [`Self::push_style`].
    pub fn pop_style(&mut self)
        ensures
            final(self)@ == written(old(self)@, SpanOp::PopStyle),
    {
        if let Some(prev) = self.style_stack.pop() {
            self.cur_style = prev;
        }
    }

    /// Goes back to the plain style.
    pub fn reset_style(&mut self)
        ensures
            final(self)@ == written(old(self)@, SpanOp::SetStyle { change: StyleChange::Reset }),
    {
        self.apply_style(plain_style());
    }

    pub fn set_fg(&mut self, c: ColorValue)
        ensures
            final(self)@ == written(
                old(self)@,
                SpanOp::SetStyle { change: StyleChange::Fg(c) },
            ),
    {
        let mut s = self.snapshot_style();
        s.fg = Some(c);
        self.apply_style(s);
    }

    pub fn set_bg(&mut self, c: ColorValue)
        ensures
            final(self)@ == written(
                old(self)@,
                SpanOp::SetStyle { change: StyleChange::Bg(c) },
            ),
    {
        let mut s = self.snapshot_style();
        s.bg = Some(c);
        self.apply_style(s);
    }

    pub fn set_bold(&mut self)
        ensures
            final(self)@ == written(
                old(self)@,
                SpanOp::SetStyle { change: StyleChange::Bold },
            ),
    {
        let mut s = self.snapshot_style();
        s.bold = true;
        self.apply_style(s);
    }

    pub fn set_dim(&mut self)
        ensures
            final(self)@ == written(
                old(self)@,
                SpanOp::SetStyle { change: StyleChange::Dim },
            ),
    {
        let mut s = self.snapshot_style();
        s.dim = true;
        self.apply_style(s);
    }

    pub fn set_dim_italic(&mut self)
        ensures
            final(self)@ == written(
                old(self)@,
                SpanOp::SetStyle { change: StyleChange::DimItalic },
            ),
    {
        let mut s = self.snapshot_style();
        s.dim = true;
        s.italic = true;
        self.apply_style(s);
    }

    pub fn push_fg(&mut self, c: ColorValue)
        ensures
            final(self)@ == written(
                old(self)@,
                SpanOp::PushStyle { change: StyleChange::Fg(c) },
            ),
    {
        let mut s = self.snapshot_style();
        s.fg = Some(c);
        self.push_style(s);
    }

    pub fn push_bold(&mut self)
        ensures
            final(self)@ == written(
                old(self)@,
                SpanOp::PushStyle { change: StyleChange::Bold },
            ),
    {
        let mut s = self.snapshot_style();
        s.bold = true;
        self.push_style(s);
    }

    pub fn push_dim(&mut self)
        ensures
            final(self)@ == written(
                old(self)@,
                SpanOp::PushStyle { change: StyleChange::Dim },
            ),
    {
        let mut s = self.snapshot_style();
        s.dim = true;
        self.push_style(s);
    }

    pub fn push_italic(&mut self)
        ensures
            final(self)@ == written(
                old(self)@,
                SpanOp::PushStyle { change: StyleChange::Italic },
            ),
    {
        let mut s = self.snapshot_style();
        s.italic = true;
        self.push_style(s);
    }

    pub fn push_crossedout(&mut self)
        ensures
            final(self)@ == written(
                old(self)@,
                SpanOp::PushStyle { change: StyleChange::CrossedOut },
            ),
    {
        let mut s = self.snapshot_style();
        s.crossedout = true;
        self.push_style(s);
    }
}

/// Going back to a style undoes a push, whatever was printed in between.
pub proof fn pop_undoes_push(c: CollectorView, style: SpanStyle, text: Seq<char>)
    ensures
        ({
            let pushed = written(c, SpanOp::PushStyle { change: StyleChange::To(style) });
            let popped = written(written(pushed, printed(text)), SpanOp::PopStyle);
            popped.style == c.style && popped.stack == c.stack
        }),
{
    assert(c.stack.push(c.style).drop_last() =~= c.stack);
}

/// The text of a row.
pub open spec fn row_text(spans: Seq<SpanView>) -> Seq<char>
    decreases spans.len(),
{
    if spans.len() == 0 {
        Seq::empty()
    } else {
        row_text(spans.drop_last()) + spans.last().text
    }
}

/// What is printed goes behind what the row says already, in whatever style.
pub proof fn printing_appends_to_row(c: CollectorView, text: Seq<char>, selectable: bool, copy_as: Option<Seq<char>>)
    ensures
        row_text(written(c, SpanOp::Print { text, selectable, copy_as }).line.spans) == row_text(
            c.line.spans,
        ) + text,
{
    let after = written(c, SpanOp::Print { text, selectable, copy_as }).line.spans;
    let spans = c.line.spans;
    if text.len() == 0 {
        assert(row_text(spans) + text =~= row_text(spans));
    } else if after.len() == spans.len() {
        assert(after.drop_last() =~= spans.drop_last());
        assert(row_text(spans.drop_last()) + (spans.last().text + text) =~= row_text(
            spans.drop_last(),
        ) + spans.last().text + text);
    } else {
        assert(after.drop_last() =~= spans);
    }
}

} // verus!
