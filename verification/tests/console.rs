use ename::editor::console::{flatten, truncate_left, ClickModifiers, ConsoleState};
use ename::engine::log::{Level, LogRing};

const NONE: ClickModifiers = ClickModifiers { command: false, shift: false };
const SHIFT: ClickModifiers = ClickModifiers { command: false, shift: true };
const COMMAND: ClickModifiers = ClickModifiers { command: true, shift: false };

#[test]
fn a_plain_click_replaces_the_selection_and_moves_the_anchor() {
    let mut state = ConsoleState::new();
    state.click(5, NONE, 0, 10);
    state.click(7, NONE, 0, 10);
    assert_eq!(state.selected(), [7]);
    assert_eq!(state.anchor(), Some(7));
    assert_eq!(state.detail(), Some(7));
}

#[test]
fn a_shift_click_range_is_clamped_to_what_the_buffer_still_holds() {
    let mut state = ConsoleState::new();
    state.click(2, NONE, 0, 10);
    // Entries 0..=3 have since aged out.
    state.click(6, SHIFT, 4, 10);
    assert_eq!(state.selected(), [4, 5, 6]);
}

#[test]
fn a_shift_click_backwards_selects_the_same_range() {
    let mut state = ConsoleState::new();
    state.click(8, NONE, 0, 10);
    state.click(6, SHIFT, 0, 10);
    assert_eq!(state.selected(), [6, 7, 8]);
}

#[test]
fn a_ctrl_click_toggles_one_row_and_leaves_the_anchor_alone() {
    let mut state = ConsoleState::new();
    state.click(3, NONE, 0, 10);
    state.click(9, COMMAND, 0, 10);
    assert_eq!(state.selected(), [3, 9]);
    assert_eq!(state.anchor(), Some(3));

    state.click(9, COMMAND, 0, 10);
    assert_eq!(state.selected(), [3]);
    assert_eq!(state.anchor(), Some(3));
    // The detail pane follows the click, not the anchor.
    assert_eq!(state.detail(), Some(9));
}

#[test]
fn a_module_path_keeps_its_tail() {
    assert_eq!(truncate_left("bevy::render", 24), "bevy::render");
    assert_eq!(truncate_left("abcdefghij", 5), "…ghij");
}

#[test]
fn a_multiline_message_draws_as_one_row() {
    assert_eq!(flatten("one\r\ntwo"), "one⏎two");
    assert_eq!(flatten("plain"), "plain");
}

#[test]
fn truncating_to_nothing_leaves_the_ellipsis() {
    assert_eq!(truncate_left("abc", 0), "…");
    assert_eq!(truncate_left("abc", 3), "abc");
    assert_eq!(truncate_left("abcd", 3), "…cd");
}

#[test]
fn a_shift_click_with_no_anchor_selects_one_row() {
    let mut state = ConsoleState::new();
    state.click(4, SHIFT, 0, 10);
    assert_eq!(state.selected(), [4]);
    assert_eq!(state.anchor(), Some(4));
}

#[test]
fn a_ctrl_click_inserts_in_order() {
    let mut state = ConsoleState::new();
    state.click(5, NONE, 0, 10);
    state.click(2, COMMAND, 0, 10);
    state.click(8, COMMAND, 0, 10);
    assert_eq!(state.selected(), [2, 5, 8]);
}

#[test]
fn select_all_takes_what_the_buffer_holds() {
    let mut state = ConsoleState::new();
    state.select_all(3, 6);
    assert_eq!(state.selected(), [3, 4, 5, 6]);
    assert_eq!(state.anchor(), Some(3));
    state.forget_rows();
    assert!(state.selected().is_empty());
    assert_eq!(state.anchor(), None);
    assert_eq!(state.detail(), None);
}

#[test]
fn a_copy_skips_rows_that_aged_out() {
    let mut ring = LogRing::new(3);
    for i in 0..5u64 {
        ring.push(i, Level::Info, "t", i.to_string());
    }
    let mut state = ConsoleState::new();
    state.select_all(0, 4);
    assert_eq!(state.copied_rows(&ring), [2, 3, 4]);
}

#[test]
fn a_second_ctrl_click_undoes_the_first() {
    let mut state = ConsoleState::new();
    state.click(2, NONE, 0, 10);
    let before = (state.selected(), state.anchor());
    state.click(6, COMMAND, 0, 10);
    state.click(6, COMMAND, 0, 10);
    assert_eq!((state.selected(), state.anchor()), before);
}
