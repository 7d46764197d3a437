//! Where the transcript and the prompt stand on the screen.
use vstd::prelude::*;

verus! {

/// The window of the transcript.
pub const TRANSCRIPT_WIN: u64 = 1;

/// The window of the prompt.
pub const PROMPT_WIN: u64 = 2;

/// Some cells of the screen.
#[derive(Clone, Copy, Debug, PartialEq, Eq, Structural)]
pub struct Rect {
    pub top: u16,
    pub left: u16,
    pub width: u16,
    pub height: u16,
}

impl Rect {
    /// The cell is one of the rectangle.
    pub open spec fn has(self, row: int, col: int) -> bool {
        &&& self.top <= row < self.top + self.height
        &&& self.left <= col < self.left + self.width
    }

    /// Whether a cell is one of the rectangle.
    pub fn contains(&self, row: u16, col: u16) -> (r: bool)
        ensures
            r == self.has(row as int, col as int),
    {
        row >= self.top && row - self.top < self.height && col >= self.left && col - self.left
            < self.width
    }

    /// No cells.
    pub fn empty() -> (r: Self)
        ensures
            r == (Rect { top: 0, left: 0, width: 0, height: 0 }),
    {
        Rect { top: 0, left: 0, width: 0, height: 0 }
    }
}

/// A window under a name.
#[derive(Debug)]
pub struct NamedWin {
    pub name: String,
    pub win: u64,
}

/// The cells of a window.
#[derive(Clone, Copy, Debug, PartialEq, Eq, Structural)]
pub struct SplitRect {
    pub win: u64,
    pub rect: Rect,
}

/// The windows of the screen: those with a name, and those that share it.
#[derive(Debug)]
pub struct Ui {
    pub named: Vec<NamedWin>,
    pub splits: Vec<SplitRect>,
}

/// The first window of this name from `i` on.
pub open spec fn named_from(named: Seq<NamedWin>, name: Seq<char>, i: int) -> Option<u64>
    decreases named.len() - i,
{
    if i >= named.len() {
        None
    } else if named[i].name@ == name {
        Some(named[i].win)
    } else {
        named_from(named, name, i + 1)
    }
}

/// The cells of the first entry for a window from `i` on.
pub open spec fn rect_from(splits: Seq<SplitRect>, win: u64, i: int) -> Option<Rect>
    decreases splits.len() - i,
{
    if i >= splits.len() {
        None
    } else if splits[i].win == win {
        Some(splits[i].rect)
    } else {
        rect_from(splits, win, i + 1)
    }
}

impl Ui {
    /// The window of a name.
    pub fn named_win(&self, name: &str) -> (win: Option<u64>)
        ensures
            win == named_from(self.named@, name@, 0),
    {
        let wanted = String::from_str(name);
        let mut i: usize = 0;
        while i < self.named.len()
            invariant
                i <= self.named@.len(),
                wanted@ == name@,
                named_from(self.named@, name@, 0) == named_from(self.named@, name@, i as int),
            decreases self.named@.len() - i,
        {
            if self.named[i].name == wanted {
                return Some(self.named[i].win);
            }
            i += 1;
        }
        None
    }

    /// The cells of a window.
    pub fn split_rect(&self, win: u64) -> (rect: Option<Rect>)
        ensures
            rect == rect_from(self.splits@, win, 0),
    {
        let mut i: usize = 0;
        while i < self.splits.len()
            invariant
                i <= self.splits@.len(),
                rect_from(self.splits@, win, 0) == rect_from(self.splits@, win, i as int),
            decreases self.splits@.len() - i,
        {
            if self.splits[i].win == win {
                return Some(self.splits[i].rect);
            }
            i += 1;
        }
        None
    }
}

/// The window at the top of what surrounds the prompt: the bar above it, or the prompt.
pub open spec fn chrome_top(ui: Ui) -> u64 {
    match named_from(ui.named@, "smelt.prompt_bar.top"@, 0) {
        Some(win) => win,
        None => PROMPT_WIN,
    }
}

/// The window at the top of what surrounds the prompt: the bar above it, or the prompt.
pub fn prompt_chrome_top_win(ui: &Ui) -> (win: u64)
    ensures
        win == chrome_top(*ui),
{
    match ui.named_win("smelt.prompt_bar.top") {
        Some(win) => win,
        None => PROMPT_WIN,
    }
}

/// Rows above what surrounds the prompt.
pub fn available_rows_above_prompt_chrome(ui: &Ui) -> (rows: u16)
    ensures
        rows == match rect_from(ui.splits@, chrome_top(*ui), 0) {
            Some(rect) => rect.top,
            None => 0,
        },
{
    match ui.split_rect(prompt_chrome_top_win(ui)) {
        Some(rect) => rect.top,
        None => 0,
    }
}

/// The corner of an overlay that is held to a window.
#[derive(Clone, Copy, Debug, PartialEq, Eq, Structural)]
pub enum Align {
    NW,
}

/// Where an overlay floats: against a corner of a window.
#[derive(Clone, Copy, Debug, PartialEq, Eq, Structural)]
pub struct Anchor {
    pub target: u64,
    pub attach: Align,
    pub row_offset: i32,
    pub col_offset: i32,
}

/// Where an overlay of `height` rows floats right above what surrounds the prompt.
pub fn anchor_above_prompt_chrome(ui: &Ui, height: u16) -> (anchor: Anchor)
    ensures
        anchor.target == chrome_top(*ui),
        anchor.attach == Align::NW,
        anchor.row_offset == -(height as int),
        anchor.col_offset == 0,
{
    Anchor {
        target: prompt_chrome_top_win(ui),
        attach: Align::NW,
        row_offset: -(height as i32),
        col_offset: 0,
    }
}

/// How many rows a part of the screen asks for.
#[derive(Clone, Copy, Debug, PartialEq, Eq, Structural)]
pub enum SplitConstraint {
    Fill,
    Length(u16),
}

/// A window with the rows it asks for.
#[derive(Clone, Copy, Debug, PartialEq, Eq, Structural)]
pub struct SplitItem {
    pub constraint: SplitConstraint,
    pub win: u64,
}

/// Windows one below the other, with empty rows between them.
#[derive(Debug)]
pub struct LayoutTree {
    pub items: Vec<SplitItem>,
    pub gap: u16,
}

impl LayoutTree {
    /// The windows from top to bottom.
    pub fn leaves_in_order(&self) -> (leaves: Vec<u64>)
        ensures
            leaves@ == self.items@.map_values(|item: SplitItem| item.win),
    {
        let mut leaves: Vec<u64> = Vec::new();
        let mut i: usize = 0;
        while i < self.items.len()
            invariant
                i <= self.items@.len(),
                leaves@ == self.items@.take(i as int).map_values(|item: SplitItem| item.win),
            decreases self.items@.len() - i,
        {
            leaves.push(self.items[i].win);
            i += 1;
            proof {
                assert(leaves@ =~= self.items@.take(i as int).map_values(
                    |item: SplitItem| item.win,
                ));
            }
        }
        proof {
            assert(self.items@.take(i as int) =~= self.items@);
        }
        leaves
    }
}

/// The rows of the prompt's input, at least one.
pub open spec fn input_rows(prompt_input_rows: u16) -> u16 {
    if prompt_input_rows < 1 {
        1
    } else {
        prompt_input_rows
    }
}

/// The layout before any other is composed: the transcript, an empty row, the prompt.
pub fn seed_layout_tree(prompt_input_rows: u16) -> (tree: LayoutTree)
    ensures
        tree.gap == 1,
        tree.items@ == seq![
            SplitItem { constraint: SplitConstraint::Fill, win: TRANSCRIPT_WIN },
            SplitItem {
                constraint: SplitConstraint::Length(input_rows(prompt_input_rows)),
                win: PROMPT_WIN,
            },
        ],
{
    let rows = if prompt_input_rows < 1 {
        1
    } else {
        prompt_input_rows
    };
    let mut items: Vec<SplitItem> = Vec::new();
    items.push(SplitItem { constraint: SplitConstraint::Fill, win: TRANSCRIPT_WIN });
    items.push(SplitItem { constraint: SplitConstraint::Length(rows), win: PROMPT_WIN });
    LayoutTree { items, gap: 1 }
}

/// The cells of the transcript and the prompt.
#[derive(Clone, Copy, Debug, PartialEq, Eq, Structural)]
pub struct LayoutState {
    pub transcript: Rect,
    pub prompt: Rect,
}

/// What a cell of the screen belongs to.
#[derive(Clone, Copy, Debug, PartialEq, Eq, Structural)]
pub enum HitRegion {
    Transcript,
    Prompt,
    Outside,
}

/// A rectangle, or no cells where there is none.
pub open spec fn or_empty(rect: Option<Rect>) -> Rect {
    match rect {
        Some(rect) => rect,
        None => Rect { top: 0, left: 0, width: 0, height: 0 },
    }
}

impl LayoutState {
    /// The cells that the screen gives the two windows.
    pub fn from_ui(ui: &Ui) -> (state: Self)
        ensures
            state.transcript == or_empty(rect_from(ui.splits@, TRANSCRIPT_WIN, 0)),
            state.prompt == or_empty(rect_from(ui.splits@, PROMPT_WIN, 0)),
    {
        LayoutState {
            transcript: match ui.split_rect(TRANSCRIPT_WIN) {
                Some(rect) => rect,
                None => Rect::empty(),
            },
            prompt: match ui.split_rect(PROMPT_WIN) {
                Some(rect) => rect,
                None => Rect::empty(),
            },
        }
    }

    /// Rows of the transcript.
    pub fn viewport_rows(&self) -> (rows: u16)
        ensures
            rows == self.transcript.height,
    {
        self.transcript.height
    }

    /// What a cell belongs to. The prompt lies over the transcript.
    pub fn hit_test(&self, row: u16, col: u16) -> (region: HitRegion)
        ensures
            region == if self.prompt.has(row as int, col as int) {
                HitRegion::Prompt
            } else if self.transcript.has(row as int, col as int) {
                HitRegion::Transcript
            } else {
                HitRegion::Outside
            },
    {
        if self.prompt.contains(row, col) {
            return HitRegion::Prompt;
        }
        if self.transcript.contains(row, col) {
            return HitRegion::Transcript;
        }
        HitRegion::Outside
    }
}

} // verus!
