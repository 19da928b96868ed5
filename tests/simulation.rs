use rand::rngs::StdRng;
use rand::SeedableRng;
use refinement_optimizer::chance::Chance;
use refinement_optimizer::game::GameState;
use refinement_optimizer::outcomes::{decode_outcome, encode_outcome, most_frequent, SimResult};
use refinement_optimizer::scoring::Scoring;
use refinement_optimizer::solution::Solution;
use refinement_optimizer::state::State;

fn balanced() -> Scoring {
    Scoring { success: [11, 10, -10], fail: [0, 0, 0] }
}

#[test]
fn top_outcomes_are_ranked_and_bounded() {
    let solution = Solution::build(balanced(), 4);
    let gs = GameState::new(Chance::SeventyFive, 4);
    let mut rng = StdRng::seed_from_u64(11);
    let results = solution.simulate_top_10(2000, &gs, &mut rng);
    assert!(!results.is_empty() && results.len() <= 10);
    let mut total = 0;
    for (i, r) in results.iter().enumerate() {
        assert!(r.occurrences >= 1 && r.occurrences <= 2000);
        assert_eq!(r.trials, 2000);
        assert_eq!(r.probability(), (r.occurrences, 2000));
        for t in 0..3 {
            assert!(r.counts[t] <= 4);
        }
        assert_eq!(r.score, solution.eval_result(r.counts));
        if i > 0 {
            let prev = &results[i - 1];
            assert!(prev.occurrences >= r.occurrences);
            if prev.occurrences == r.occurrences {
                assert!(encode_outcome(prev.counts) < encode_outcome(r.counts));
            }
        }
        total += r.occurrences;
    }
    assert!(total <= 2000);
}

#[test]
fn recorded_successes_are_kept() {
    let solution = Solution::build(balanced(), 4);
    let mut gs = GameState::new(Chance::SeventyFive, 4);
    gs.record(0, true);
    gs.record(0, true);
    let mut rng = StdRng::seed_from_u64(3);
    for _ in 0..200 {
        let counts = solution.simulate_once(&gs, &mut rng);
        assert!(counts[0] >= 2 && counts[0] <= 4);
    }
    for r in solution.simulate_top_10(500, &gs, &mut rng) {
        assert!(r.counts[0] >= 2);
    }
}

#[test]
fn same_seed_same_outcomes() {
    let solution = Solution::build(balanced(), 3);
    let gs = GameState::new(Chance::FiftyFive, 3);
    let a = solution.simulate_top_10(300, &gs, &mut StdRng::seed_from_u64(5));
    let b = solution.simulate_top_10(300, &gs, &mut StdRng::seed_from_u64(5));
    assert_eq!(a.len(), b.len());
    for i in 0..a.len() {
        assert_eq!(a[i].counts, b[i].counts);
        assert_eq!(a[i].occurrences, b[i].occurrences);
    }
}

#[test]
fn zero_trials_give_no_outcomes() {
    let solution = Solution::build(balanced(), 2);
    let gs = GameState::new(Chance::FiftyFive, 2);
    let results = solution.simulate_top_10(0, &gs, &mut StdRng::seed_from_u64(1));
    assert!(results.is_empty());
}

#[test]
fn finished_game_has_one_outcome() {
    let solution = Solution::build(balanced(), 1);
    let mut gs = GameState::new(Chance::FiftyFive, 1);
    gs.record(0, true);
    gs.record(1, false);
    gs.record(2, true);
    let results = solution.simulate_top_10(50, &gs, &mut StdRng::seed_from_u64(9));
    assert_eq!(results.len(), 1);
    assert_eq!(results[0].counts, [1, 0, 1]);
    assert_eq!(results[0].occurrences, 50);
    assert_eq!(results[0].score, 11 - 10);
}

#[test]
fn play_out_follows_the_rolls() {
    // only track 0 open, one slot: the roll alone decides
    let solution = Solution::build(balanced(), 1);
    let start = State { chance: Chance::SeventyFive, remaining: [1, 0, 0] };
    assert_eq!(solution.play_out(&start, [0, 1, 0], &vec![74]), [1, 1, 0]);
    assert_eq!(solution.play_out(&start, [0, 1, 0], &vec![75]), [0, 1, 0]);
    // track 2 is never chosen while a positive track is open
    let both = State { chance: Chance::SeventyFive, remaining: [1, 0, 1] };
    assert_eq!(solution.play_out(&both, [0, 0, 0], &vec![0, 99]), [1, 0, 0]);
}

#[test]
fn outcome_keys_round_trip() {
    for c in [[0u8, 0, 0], [1, 2, 3], [255, 255, 255], [16, 0, 9]] {
        let k = encode_outcome(c);
        assert_eq!(decode_outcome(k), c);
    }
    assert_eq!(encode_outcome([1, 2, 3]), 65536 + 2 * 256 + 3);
}

#[test]
fn most_frequent_ranks_by_count_then_key() {
    let entries = vec![(5, 3), (1, 3), (7, 9), (2, 1)];
    assert_eq!(most_frequent(&entries, 2), vec![(7, 9), (1, 3)]);
    assert_eq!(most_frequent(&entries, 10), vec![(7, 9), (1, 3), (5, 3), (2, 1)]);
    assert_eq!(most_frequent(&entries, 0), vec![]);
    assert_eq!(most_frequent(&vec![], 3), vec![]);
}

fn counts_and_occurrences(results: &[SimResult]) -> Vec<([u8; 3], u32)> {
    results.iter().map(|r| (r.counts, r.occurrences)).collect()
}

#[test]
fn top_outcomes_counts_each_outcome() {
    let solution = Solution::build(balanced(), 3);
    let outs = vec![[1, 0, 0], [2, 1, 0], [1, 0, 0], [0, 0, 3], [2, 1, 0], [1, 0, 0]];
    let results = solution.top_outcomes(&outs);
    assert_eq!(
        counts_and_occurrences(&results),
        vec![([1, 0, 0], 3), ([2, 1, 0], 2), ([0, 0, 3], 1)]
    );
    for r in &results {
        assert_eq!(r.trials, 6);
        assert_eq!(r.score, solution.eval_result(r.counts));
    }
    assert_eq!(results[1].score, 11 * 2 + 10 - 0);
}

#[test]
fn top_outcomes_breaks_ties_by_key_and_keeps_ten() {
    let solution = Solution::build(balanced(), 12);
    // twelve different outcomes, each once, plus one outcome twice
    let mut outs: Vec<[u8; 3]> = (0u8..12).map(|i| [i, 12 - i, 0]).collect();
    outs.push([5, 5, 5]);
    outs.push([5, 5, 5]);
    let results = solution.top_outcomes(&outs);
    assert_eq!(results.len(), 10);
    assert_eq!(results[0].counts, [5, 5, 5]);
    assert_eq!(results[0].occurrences, 2);
    // then by ascending key: the outcomes with the fewest successes on track 0
    for i in 1..10 {
        assert_eq!(results[i].counts, [(i - 1) as u8, (13 - i) as u8, 0]);
        assert_eq!(results[i].occurrences, 1);
    }
}

#[test]
fn top_outcomes_of_nothing_is_empty() {
    let solution = Solution::build(balanced(), 2);
    assert!(solution.top_outcomes(&vec![]).is_empty());
    assert_eq!(solution.top_outcomes(&vec![[1, 1, 1]]).len(), 1);
}

#[test]
fn positive_sample_count_gives_outcomes() {
    let solution = Solution::build(balanced(), 2);
    let gs = GameState::new(Chance::TwentyFive, 2);
    let results = solution.simulate_top_10(1, &gs, &mut StdRng::seed_from_u64(21));
    assert_eq!(results.len(), 1);
    assert_eq!(results[0].occurrences, 1);
}
