use rand::rngs::StdRng;
use rand::SeedableRng;
use refinement_optimizer::chance::Chance;
use refinement_optimizer::game::GameState;
use refinement_optimizer::scoring::Scoring;
use refinement_optimizer::service::{latest, Published, Session, Work};

fn w(x: i64) -> Scoring {
    Scoring { success: [x, 1, -1], fail: [0, 0, 0] }
}

fn session() -> Session {
    Session { scoring: Some(w(1)), sim_tries: None, game_state: GameState::new(Chance::SeventyFive, 2) }
}

#[test]
fn burst_of_weights_gives_one_rebuild_with_the_last() {
    let mut s = session();
    let work = s.take_weights(w(2), vec![w(3), w(4)]);
    assert_eq!(work, Work::Rebuild);
    assert_eq!(s.scoring, Some(w(4)));
    let solution = s.rebuild_solution().unwrap();
    assert_eq!(solution.scoring(), w(4));
    assert_eq!(solution.count(), 2);
}

#[test]
fn latest_value_wins() {
    assert_eq!(latest(1, vec![]), 1);
    assert_eq!(latest(1, vec![2, 3]), 3);
}

#[test]
fn sim_tries_change_reruns_only_the_simulation() {
    let mut s = session();
    assert_eq!(s.take_sim_tries(100, vec![1000]), Work::Resimulate);
    assert_eq!(s.sim_tries, Some(1000));
}

#[test]
fn game_state_change_rebuilds_only_when_slots_change() {
    let mut s = session();
    let mut played = GameState::new(Chance::SeventyFive, 2);
    played.record(0, true);
    assert_eq!(s.take_game_state(played, vec![]), Work::Resimulate);
    assert_eq!(s.game_state.row(0), &[true]);
    let bigger = GameState::new(Chance::SeventyFive, 3);
    assert_eq!(s.take_game_state(GameState::new(Chance::SeventyFive, 2), vec![bigger]), Work::Rebuild);
    assert_eq!(s.game_state.num_slots(), 3);
}

#[test]
fn no_weights_no_policy() {
    let s = Session { scoring: None, sim_tries: Some(10), game_state: GameState::default() };
    assert!(s.rebuild_solution().is_none());
}

#[test]
fn simulation_waits_for_sample_count() {
    let mut s = session();
    let solution = s.rebuild_solution().unwrap();
    let mut rng = StdRng::seed_from_u64(2);
    assert!(s.rerun_simulation(&solution, &mut rng).is_none());
    s.take_sim_tries(100, vec![]);
    let results = s.rerun_simulation(&solution, &mut rng).unwrap();
    assert!(!results.is_empty());
    let total: u32 = results.iter().map(|r| r.occurrences).sum();
    assert!(total <= 100);
    for r in &results {
        assert_eq!(r.trials, 100);
    }
}

#[test]
fn status_follows_the_published_pair() {
    let mut p = Published::new();
    assert_eq!(p.status(), "finding solution…");
    p.solution = session().rebuild_solution();
    assert_eq!(p.status(), "solved (156 states); running simulations…");
    p.most_likely = Some(vec![]);
    assert_eq!(p.status(), "solved (156 states)");
    p.reset_simulation();
    assert!(p.most_likely.is_none() && p.solution.is_some());
    p.reset_solution();
    assert!(p.solution.is_none());
    assert_eq!(p.status(), "finding solution…");
}
