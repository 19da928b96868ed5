use refinement_optimizer::chance::Chance;
use refinement_optimizer::game::GameState;

#[test]
fn default_game() {
    let gs = GameState::default();
    assert_eq!(gs.chance(), Chance::SeventyFive);
    assert_eq!(gs.num_slots(), 8);
    for t in 0..3 {
        assert!(gs.row(t).is_empty());
    }
}

#[test]
fn record_moves_the_chance_and_stops_when_full() {
    let mut gs = GameState::new(Chance::FiftyFive, 2);
    assert!(gs.record(0, true));
    assert_eq!(gs.chance(), Chance::FourtyFive);
    assert!(gs.record(0, false));
    assert_eq!(gs.chance(), Chance::FiftyFive);
    assert!(!gs.record(0, true));
    assert_eq!(gs.row(0), &[true, false]);
    assert_eq!(gs.chance(), Chance::FiftyFive);
}

#[test]
fn undo_takes_back_the_last_outcome() {
    let mut gs = GameState::new(Chance::FiftyFive, 3);
    gs.record(1, true);
    gs.record(1, false);
    assert_eq!(gs.undo(1), Some(false));
    assert_eq!(gs.chance(), Chance::FourtyFive);
    assert_eq!(gs.undo(1), Some(true));
    assert_eq!(gs.chance(), Chance::FiftyFive);
    assert_eq!(gs.undo(1), None);
    assert_eq!(gs.chance(), Chance::FiftyFive);
}

#[test]
fn reset_and_resize() {
    let mut gs = GameState::new(Chance::FiftyFive, 4);
    for _ in 0..3 {
        gs.record(2, true);
    }
    gs.set_num_slots(2);
    assert_eq!(gs.num_slots(), 2);
    assert_eq!(gs.row(2), &[true, true]);
    gs.reset();
    assert_eq!(gs.chance(), Chance::SeventyFive);
    assert!(gs.row(2).is_empty());
    assert_eq!(gs.num_slots(), 2);
}
