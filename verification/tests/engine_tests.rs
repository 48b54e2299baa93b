use pain_tournament::engine::{Phase, Tournament, run_with_picks};
use pain_tournament::item::Item;

fn item(name: &str, description: &str) -> Item {
    Item { name: String::from(name), description: String::from(description) }
}

#[test]
fn single_entrant_is_winner_without_comparisons() {
    let t = Tournament::new_in_order(vec![item("A", "a")]);
    assert_eq!(t.phase, Phase::Finished);
    assert_eq!(t.round, 1);
    let w = t.winner();
    assert_eq!(w.name, "A");
    assert_eq!(w.description, "a");
}

#[test]
fn three_entrants_play_two_rounds() {
    // Population [A, B, C] in post-shuffle order: round 1 pairs (A, B) and C
    // advances on a bye; round 2 pairs (winner, C).
    let mut t = Tournament::new_in_order(vec![item("A", "a"), item("B", "b"), item("C", "c")]);
    assert_eq!(t.phase, Phase::Announcing);
    assert_eq!(t.round, 1);
    assert_eq!(t.pool.len(), 3);
    t.ack_announce();
    assert_eq!(t.left().name, "A");
    assert_eq!(t.right().name, "B");
    t.resolve(false); // A wins the pair; C advances on the bye.
    assert_eq!(t.phase, Phase::Announcing);
    assert_eq!(t.round, 2);
    assert_eq!(t.pool.len(), 2);
    t.ack_announce();
    assert_eq!(t.left().name, "A");
    assert_eq!(t.right().name, "C");
    t.resolve(true); // C wins the final.
    assert_eq!(t.phase, Phase::Finished);
    assert_eq!(t.round, 3); // two full rounds were played
    let w = t.winner();
    assert_eq!(w.name, "C");
}

#[test]
fn four_entrants_need_exactly_two_rounds() {
    // A power-of-two population of size 4 plays exactly log2(4) == 2 rounds.
    let pop = vec![item("A", "a"), item("B", "b"), item("C", "c"), item("D", "d")];
    let picks = vec![false, true, true];
    let (w, rounds) = run_with_picks(pop, &picks);
    // Round 1: (A,B) -> A, (C,D) -> D; round 2: (A,D) -> D.
    assert_eq!(w.name, "D");
    assert_eq!(rounds, 2);
}

#[test]
fn scripted_run_of_one_needs_no_picks() {
    let (w, rounds) = run_with_picks(vec![item("Solo", "s")], &Vec::new());
    assert_eq!(w.name, "Solo");
    assert_eq!(rounds, 0);
}

#[test]
fn scripted_run_left_picks_advance_first_item() {
    let pop = vec![item("A", "a"), item("B", "b"), item("C", "c"), item("D", "d"), item("E", "e")];
    let picks = vec![false, false, false, false];
    let (w, rounds) = run_with_picks(pop, &picks);
    // Round 1: (A,B) -> A, (C,D) -> C, E byes; round 2: (A,C) -> A, E byes;
    // round 3: (A,E) -> A.
    assert_eq!(w.name, "A");
    assert_eq!(rounds, 3);
}

#[test]
fn shuffled_start_keeps_the_entrants() {
    let mut t = Tournament::new(vec![item("A", "a"), item("B", "b")]);
    assert_eq!(t.phase, Phase::Announcing);
    assert_eq!(t.pool.len(), 2);
    t.ack_announce();
    t.resolve(false);
    let w = t.winner();
    assert!(w.name == "A" || w.name == "B");
}

#[test]
fn duplicate_entrants_are_distinct_entries() {
    let pop = vec![item("Same", "s"), item("Same", "s"), item("Same", "s")];
    let picks = vec![true, false];
    let (w, rounds) = run_with_picks(pop, &picks);
    assert_eq!(w.name, "Same");
    assert_eq!(rounds, 2);
}
