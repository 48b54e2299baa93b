use pain_tournament::chooser::{KeyInput, Selection, Side, StepResult, choose_scripted, chooser_step};
use pain_tournament::item::Item;

fn pair() -> (Item, Item) {
    (
        Item { name: String::from("L"), description: String::from("left") },
        Item { name: String::from("R"), description: String::from("right") },
    )
}

#[test]
fn moves_select_their_side_from_any_state() {
    for s in [Selection::NoSelection, Selection::LeftSelected, Selection::RightSelected] {
        assert_eq!(
            chooser_step(s, KeyInput::MoveLeft),
            StepResult::Continue(Selection::LeftSelected)
        );
        assert_eq!(
            chooser_step(s, KeyInput::MoveRight),
            StepResult::Continue(Selection::RightSelected)
        );
        assert_eq!(chooser_step(s, KeyInput::Other), StepResult::Continue(s));
    }
}

#[test]
fn confirm_is_terminal_only_with_a_selection() {
    assert_eq!(
        chooser_step(Selection::NoSelection, KeyInput::Confirm),
        StepResult::Continue(Selection::NoSelection)
    );
    assert_eq!(
        chooser_step(Selection::LeftSelected, KeyInput::Confirm),
        StepResult::Confirmed(Side::Left)
    );
    assert_eq!(
        chooser_step(Selection::RightSelected, KeyInput::Confirm),
        StepResult::Confirmed(Side::Right)
    );
}

#[test]
fn last_move_before_confirm_wins() {
    let (a, b) = pair();
    let events = vec![KeyInput::MoveLeft, KeyInput::MoveRight, KeyInput::Confirm];
    let w = choose_scripted(&a, &b, &events).unwrap();
    assert_eq!(w.name, "R");
}

#[test]
fn single_move_then_confirm_wins_that_side() {
    let (a, b) = pair();
    let events = vec![KeyInput::MoveLeft, KeyInput::Confirm];
    let w = choose_scripted(&a, &b, &events).unwrap();
    assert_eq!(w.name, "L");
    assert_eq!(w.description, "left");
}

#[test]
fn confirm_without_selection_keeps_blocking() {
    let (a, b) = pair();
    assert!(choose_scripted(&a, &b, &vec![KeyInput::Confirm]).is_none());
    assert!(choose_scripted(&a, &b, &vec![KeyInput::Other, KeyInput::Confirm]).is_none());
    assert!(choose_scripted(&a, &b, &Vec::new()).is_none());
}

#[test]
fn ignored_confirm_then_move_then_confirm() {
    let (a, b) = pair();
    let events = vec![KeyInput::Confirm, KeyInput::MoveLeft, KeyInput::Confirm];
    let w = choose_scripted(&a, &b, &events).unwrap();
    assert_eq!(w.name, "L");
}

#[test]
fn moves_without_confirm_choose_nothing() {
    let (a, b) = pair();
    let events = vec![KeyInput::MoveLeft, KeyInput::MoveRight, KeyInput::MoveLeft];
    assert!(choose_scripted(&a, &b, &events).is_none());
}

#[test]
fn other_events_between_moves_are_ignored() {
    let (a, b) = pair();
    let events = vec![KeyInput::MoveRight, KeyInput::Other, KeyInput::Confirm];
    let w = choose_scripted(&a, &b, &events).unwrap();
    assert_eq!(w.name, "R");
}
