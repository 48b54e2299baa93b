//! The pairwise chooser: a render-then-await-input state machine that
//! resolves one head-to-head comparison.
//!
//! The caller renders the current [`Selection`], blocks for one key event,
//! feeds it to [`chooser_step`], and repeats until a side is confirmed. The
//! transition relation is the whole logic; rendering and reading events stay
//! with the caller.
use vstd::prelude::*;

use crate::item::Item;

verus! {

/// The discrete key events the chooser understands. Anything else a
/// terminal can produce is `Other`.
#[derive(Clone, Copy, PartialEq, Eq, Structural, Debug)]
pub enum KeyInput {
    MoveLeft,
    MoveRight,
    Confirm,
    Other,
}

/// Which side, if any, is currently highlighted.
#[derive(Clone, Copy, PartialEq, Eq, Structural, Debug)]
pub enum Selection {
    NoSelection,
    LeftSelected,
    RightSelected,
}

/// The side a confirmed choice names.
#[derive(Clone, Copy, PartialEq, Eq, Structural, Debug)]
pub enum Side {
    Left,
    Right,
}

/// What one step yields: keep going from a (possibly new) selection, or a
/// confirmed winner.
#[derive(Clone, Copy, PartialEq, Eq, Structural, Debug)]
pub enum StepResult {
    Continue(Selection),
    Confirmed(Side),
}

/// The transition relation: a move event highlights that side whatever the
/// current state; confirm on a highlighted side is terminal; confirm with no
/// selection, and any other event, change nothing.
pub open spec fn step_spec(s: Selection, k: KeyInput) -> StepResult {
    match k {
        KeyInput::MoveLeft => StepResult::Continue(Selection::LeftSelected),
        KeyInput::MoveRight => StepResult::Continue(Selection::RightSelected),
        KeyInput::Confirm => match s {
            Selection::NoSelection => StepResult::Continue(Selection::NoSelection),
            Selection::LeftSelected => StepResult::Confirmed(Side::Left),
            Selection::RightSelected => StepResult::Confirmed(Side::Right),
        },
        KeyInput::Other => StepResult::Continue(s),
    }
}

/// Apply one key event to the chooser state.
pub fn chooser_step(s: Selection, k: KeyInput) -> (r: StepResult)
    ensures
        r == step_spec(s, k),
{
    match k {
        KeyInput::MoveLeft => StepResult::Continue(Selection::LeftSelected),
        KeyInput::MoveRight => StepResult::Continue(Selection::RightSelected),
        KeyInput::Confirm => match s {
            Selection::NoSelection => StepResult::Continue(Selection::NoSelection),
            Selection::LeftSelected => StepResult::Confirmed(Side::Left),
            Selection::RightSelected => StepResult::Confirmed(Side::Right),
        },
        KeyInput::Other => StepResult::Continue(s),
    }
}

/// What a run of the chooser from state `s` over the event sequence yields:
/// the side confirmed by the first effective confirm, or nothing if the
/// events run out first (the chooser would still be blocking).
pub open spec fn run_from(s: Selection, events: Seq<KeyInput>) -> Option<Side>
    decreases events.len(),
{
    if events.len() == 0 {
        None
    } else {
        match step_spec(s, events[0]) {
            StepResult::Confirmed(side) => Some(side),
            StepResult::Continue(s2) => run_from(s2, events.drop_first()),
        }
    }
}

/// What a fresh chooser (nothing selected yet) yields on an event sequence.
pub open spec fn outcome_of(events: Seq<KeyInput>) -> Option<Side> {
    run_from(Selection::NoSelection, events)
}

/// Resolve one comparison from a scripted event sequence: the item of the
/// confirmed side, or `None` if the events end before an effective confirm.
pub fn choose_scripted(a: &Item, b: &Item, events: &Vec<KeyInput>) -> (r: Option<Item>)
    ensures
        match outcome_of(events@) {
            Some(Side::Left) => r matches Some(w) && w@ == a@,
            Some(Side::Right) => r matches Some(w) && w@ == b@,
            None => r is None,
        },
{
    let mut s = Selection::NoSelection;
    let mut i: usize = 0;
    proof {
        assert(events@.skip(0) =~= events@);
    }
    while i < events.len()
        invariant
            i <= events@.len(),
            run_from(s, events@.skip(i as int)) == outcome_of(events@),
        decreases events@.len() - i,
    {
        let ghost pre_s = s;
        match chooser_step(s, events[i]) {
            StepResult::Confirmed(side) => {
                proof {
                    assert(events@.skip(i as int)[0] == events@[i as int]);
                }
                return match side {
                    Side::Left => Some(a.duplicate()),
                    Side::Right => Some(b.duplicate()),
                };
            },
            StepResult::Continue(s2) => {
                s = s2;
            },
        }
        i = i + 1;
        proof {
            assert(events@.skip(i - 1).drop_first() =~= events@.skip(i as int));
            assert(events@.skip(i - 1)[0] == events@[i - 1]);
            assert(run_from(pre_s, events@.skip(i - 1)) == run_from(s, events@.skip(i as int)));
        }
    }
    proof {
        assert(events@.skip(i as int) =~= Seq::<KeyInput>::empty());
    }
    None
}

/// Law: for a sequence of zero or more move events followed by one confirm,
/// the outcome names the side of the last move before the confirm, and a
/// confirm with no prior move confirms nothing — the chooser keeps blocking.
pub proof fn lemma_last_move_wins(moves: Seq<KeyInput>)
    requires
        forall|j: int|
            0 <= j < moves.len() ==> moves[j] == KeyInput::MoveLeft || moves[j]
                == KeyInput::MoveRight,
    ensures
        moves.len() == 0 ==> outcome_of(moves.push(KeyInput::Confirm)) is None,
        moves.len() > 0 ==> outcome_of(moves.push(KeyInput::Confirm)) == Some(
            if moves.last() == KeyInput::MoveLeft {
                Side::Left
            } else {
                Side::Right
            },
        ),
{
    lemma_moves_then_confirm(Selection::NoSelection, moves);
}

/// Generalisation of [`lemma_last_move_wins`] over the starting state.
proof fn lemma_moves_then_confirm(s: Selection, moves: Seq<KeyInput>)
    requires
        forall|j: int|
            0 <= j < moves.len() ==> moves[j] == KeyInput::MoveLeft || moves[j]
                == KeyInput::MoveRight,
    ensures
        moves.len() == 0 ==> run_from(s, moves.push(KeyInput::Confirm)) == (match s {
            Selection::NoSelection => None::<Side>,
            Selection::LeftSelected => Some(Side::Left),
            Selection::RightSelected => Some(Side::Right),
        }),
        moves.len() > 0 ==> run_from(s, moves.push(KeyInput::Confirm)) == Some(
            if moves.last() == KeyInput::MoveLeft {
                Side::Left
            } else {
                Side::Right
            },
        ),
    decreases moves.len(),
{
    let events = moves.push(KeyInput::Confirm);
    if moves.len() == 0 {
        assert(events[0] == KeyInput::Confirm);
        assert(events.drop_first() =~= Seq::<KeyInput>::empty());
        match s {
            Selection::NoSelection => {
                assert(step_spec(s, KeyInput::Confirm) == StepResult::Continue(
                    Selection::NoSelection,
                ));
                assert(run_from(s, events) == run_from(Selection::NoSelection, events.drop_first()));
                assert(run_from(Selection::NoSelection, events.drop_first()) is None);
            },
            Selection::LeftSelected => {
                assert(run_from(s, events) == Some(Side::Left));
            },
            Selection::RightSelected => {
                assert(run_from(s, events) == Some(Side::Right));
            },
        }
    } else {
        assert(events[0] == moves[0]);
        let s2 = match step_spec(s, moves[0]) {
            StepResult::Continue(s2) => s2,
            StepResult::Confirmed(_) => s,
        };
        assert(step_spec(s, moves[0]) == StepResult::Continue(s2));
        lemma_moves_then_confirm(s2, moves.drop_first());
        assert(events.drop_first() =~= moves.drop_first().push(KeyInput::Confirm));
        if moves.len() == 1 {
            assert(moves.last() == moves[0]);
        } else {
            assert(moves.drop_first().last() == moves.last());
        }
    }
}

} // verus!
