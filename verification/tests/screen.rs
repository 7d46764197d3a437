use smelt_content::highlight::{warm_up_syntect, SyntaxSets};
use smelt_content::screen::{
    anchor_above_prompt_chrome, available_rows_above_prompt_chrome, prompt_chrome_top_win,
    seed_layout_tree, Align, HitRegion, LayoutState, NamedWin, Rect, SplitConstraint, SplitRect, Ui,
    PROMPT_WIN, TRANSCRIPT_WIN,
};

/// The screen that shares its rows as the seed layout asks.
fn set_up_layout(prompt_input_rows: u16, term_width: u16, term_height: u16) -> Ui {
    let tree = seed_layout_tree(prompt_input_rows);
    let fixed: u16 = tree
        .items
        .iter()
        .map(|item| match item.constraint {
            SplitConstraint::Length(rows) => rows,
            SplitConstraint::Fill => 0,
        })
        .sum();
    let mut top = 0;
    let mut splits = Vec::new();
    for item in &tree.items {
        let height = match item.constraint {
            SplitConstraint::Length(rows) => rows,
            SplitConstraint::Fill => term_height - fixed - tree.gap,
        };
        splits.push(SplitRect {
            win: item.win,
            rect: Rect { top, left: 0, width: term_width, height },
        });
        top += height + tree.gap;
    }
    Ui { named: Vec::new(), splits }
}

#[test]
fn prompt_rect_width_equals_terminal_width() {
    let ui = set_up_layout(1, 80, 40);
    let layout = LayoutState::from_ui(&ui);
    assert_eq!(layout.prompt.width, 80);
}

#[test]
fn seed_layout_splits_term() {
    let ui = set_up_layout(1, 80, 40);
    let layout = LayoutState::from_ui(&ui);
    assert_eq!(layout.transcript.top, 0);
    assert_eq!(layout.transcript.height, 38);
    assert_eq!(layout.prompt.top, 39);
    assert_eq!(layout.prompt.height, 1);
    assert_eq!(layout.viewport_rows(), 38);
}

#[test]
fn hit_test_routes_correctly() {
    let ui = set_up_layout(1, 80, 40);
    let layout = LayoutState::from_ui(&ui);
    assert_eq!(layout.hit_test(0, 0), HitRegion::Transcript);
    assert_eq!(layout.hit_test(37, 0), HitRegion::Transcript);
    assert_eq!(layout.hit_test(38, 0), HitRegion::Outside);
    assert_eq!(layout.hit_test(39, 0), HitRegion::Prompt);
}

#[test]
fn seed_layout_lists_leaves_in_order() {
    let tree = seed_layout_tree(1);
    let leaves: Vec<u64> = tree.leaves_in_order();
    assert_eq!(leaves, vec![TRANSCRIPT_WIN, PROMPT_WIN]);
}

#[test]
fn seed_layout_keeps_a_row_for_an_empty_prompt() {
    let tree = seed_layout_tree(0);
    assert_eq!(tree.items[1].constraint, SplitConstraint::Length(1));
    assert_eq!(tree.gap, 1);
}

#[test]
fn overlays_float_above_the_topmost_chrome() {
    let mut ui = set_up_layout(1, 80, 40);
    assert_eq!(prompt_chrome_top_win(&ui), PROMPT_WIN);
    assert_eq!(available_rows_above_prompt_chrome(&ui), 39);
    ui.named.push(NamedWin { name: "smelt.prompt_bar.top".to_string(), win: 7 });
    ui.splits.push(SplitRect { win: 7, rect: Rect { top: 38, left: 0, width: 80, height: 1 } });
    assert_eq!(prompt_chrome_top_win(&ui), 7);
    assert_eq!(available_rows_above_prompt_chrome(&ui), 38);
    let anchor = anchor_above_prompt_chrome(&ui, 5);
    assert_eq!(anchor.target, 7);
    assert_eq!(anchor.attach, Align::NW);
    assert_eq!((anchor.row_offset, anchor.col_offset), (-5, 0));
}

#[test]
fn missing_windows_have_no_cells() {
    let ui = Ui { named: Vec::new(), splits: Vec::new() };
    let layout = LayoutState::from_ui(&ui);
    assert_eq!(layout.transcript, Rect::empty());
    assert_eq!(available_rows_above_prompt_chrome(&ui), 0);
    assert_eq!(layout.hit_test(0, 0), HitRegion::Outside);
}

#[test]
fn warming_up_loads_the_sets() {
    let mut sets = SyntaxSets::new();
    assert!(sets.highlighter("rs", None).is_none());
    warm_up_syntect(&mut sets);
    assert!(sets.highlighter("rs", None).is_some());
}
