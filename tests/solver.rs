use refinement_optimizer::chance::Chance;
use refinement_optimizer::game::GameState;
use refinement_optimizer::scoring::{parsed_fields_to_scoring, Scoring};
use refinement_optimizer::solution::Solution;
use refinement_optimizer::state::State;

fn weights(success: [i64; 3], fail: [i64; 3]) -> Scoring {
    Scoring { success, fail }
}

#[test]
fn num_states_counts_every_non_terminal_state() {
    let w = weights([1, 1, -1], [0, 0, 0]);
    for c in 0u8..6 {
        let n = (c as usize + 1).pow(3);
        assert_eq!(Solution::build(w, c).num_states(), 6 * (n - 1));
    }
    assert_eq!(Solution::build(w, 2).num_states(), 156);
}

#[test]
fn top_answer_avoids_the_negative_track() {
    let w = weights([1, 1, -1], [0, 0, 0]);
    let solution = Solution::build(w, 2);
    let gs = GameState::new(Chance::SeventyFive, 2);
    let answers = solution.sorted_choices(&gs).unwrap();
    assert_eq!(answers.len(), 3);
    assert!(answers[0].index == 0 || answers[0].index == 1);
    assert_eq!(answers[2].index, 2);
}

#[test]
fn single_open_track_scores_its_expectation() {
    let w = weights([100, 0, 0], [0, 0, 0]);
    let solution = Solution::build(w, 1);
    let mut gs = GameState::new(Chance::SeventyFive, 1);
    assert!(gs.record(1, false));
    assert!(gs.record(2, false));
    let answers = solution.sorted_choices(&gs).unwrap();
    assert_eq!(answers.len(), 1);
    assert_eq!(answers[0].index, 0);
    assert_eq!(answers[0].score, 75);
}

#[test]
fn scores_are_rounded_down() {
    let mut gs = GameState::new(Chance::SeventyFive, 1);
    gs.record(1, false);
    gs.record(2, false);
    let up = Solution::build(weights([1, 0, 0], [0, 0, 0]), 1);
    assert_eq!(up.sorted_choices(&gs).unwrap()[0].score, 0);
    let down = Solution::build(weights([-1, 0, 0], [0, 0, 0]), 1);
    assert_eq!(down.sorted_choices(&gs).unwrap()[0].score, -1);
}

#[test]
fn partial_score_is_added_to_every_answer() {
    let w = weights([100, 10, -50], [-3, 0, 7]);
    let solution = Solution::build(w, 2);
    let fresh = GameState::new(Chance::FourtyFive, 2);
    let mut played = fresh.clone();
    played.record(2, false);
    // same state as the played game, reached without the recorded failure
    let same_state = State::from_game(&played);
    let bare = solution.lookup(&same_state).unwrap();
    let with_progress = solution.sorted_choices(&played).unwrap();
    assert_eq!(bare.len(), with_progress.len());
    for i in 0..bare.len() {
        assert_eq!(bare[i].index, with_progress[i].index);
        assert_eq!(bare[i].score + 7, with_progress[i].score);
    }
}

#[test]
fn equal_scores_rank_lower_track_first() {
    let w = weights([5, 5, 5], [1, 1, 1]);
    let solution = Solution::build(w, 1);
    let gs = GameState::new(Chance::FiftyFive, 1);
    let answers = solution.sorted_choices(&gs).unwrap();
    let order: Vec<usize> = answers.iter().map(|a| a.index).collect();
    assert_eq!(order, vec![0, 1, 2]);
    assert!(answers[0].score == answers[1].score && answers[1].score == answers[2].score);
}

#[test]
fn building_twice_gives_the_same_answers() {
    let w = weights([11, 10, -10], [0, 0, 0]);
    let a = Solution::build(w, 4);
    let b = Solution::build(w, 4);
    for level in 0u8..6 {
        for r0 in 0u8..=4 {
            for r1 in 0u8..=4 {
                for r2 in 0u8..=4 {
                    let s = State { chance: Chance::from_level(level), remaining: [r0, r1, r2] };
                    match (a.lookup(&s), b.lookup(&s)) {
                        (Some(x), Some(y)) => {
                            assert_eq!(x.len(), y.len());
                            for i in 0..x.len() {
                                assert_eq!(x[i], y[i]);
                            }
                        }
                        (None, None) => assert_eq!([r0, r1, r2], [0, 0, 0]),
                        _ => panic!("lookups disagree"),
                    }
                }
            }
        }
    }
}

#[test]
fn never_recommends_a_spent_track() {
    let w = weights([1, 1, -1], [0, 0, 0]);
    let solution = Solution::build(w, 3);
    for level in 0u8..6 {
        for r0 in 0u8..=3 {
            for r1 in 0u8..=3 {
                for r2 in 0u8..=3 {
                    let s = State { chance: Chance::from_level(level), remaining: [r0, r1, r2] };
                    if let Some(answers) = solution.lookup(&s) {
                        for a in answers.iter() {
                            assert!(s.remaining[a.index] > 0);
                        }
                        let open = s.remaining.iter().filter(|&&r| r > 0).count();
                        assert_eq!(answers.len(), open);
                    }
                }
            }
        }
    }
}

#[test]
fn finished_game_has_no_answers() {
    let solution = Solution::build(weights([1, 1, -1], [0, 0, 0]), 1);
    let mut gs = GameState::new(Chance::SeventyFive, 1);
    gs.record(0, true);
    gs.record(1, true);
    gs.record(2, false);
    assert!(solution.sorted_choices(&gs).is_none());
}

#[test]
fn eval_scores_a_finished_game() {
    let w = weights([3, 2, -5], [-1, 0, 4]);
    // 3*2 + 2*1 - 5*0 + (-1)*(3-2) + 0 + 4*(3-0)
    assert_eq!(w.eval([2, 1, 0], 3), 6 + 2 - 1 + 12);
    let solution = Solution::build(w, 3);
    assert_eq!(solution.eval_result([2, 1, 0]), 19);
}

#[test]
fn eval_partial_sums_recorded_outcomes() {
    let w = weights([3, 2, -5], [-1, 0, 4]);
    let mut gs = GameState::new(Chance::SeventyFive, 3);
    gs.record(0, true);
    gs.record(0, false);
    gs.record(2, false);
    gs.record(1, true);
    assert_eq!(w.eval_partial(&gs), 3 - 1 + 4 + 2);
}

#[test]
fn parsed_fields_need_all_six() {
    let ok = parsed_fields_to_scoring([Some(1), Some(2), Some(3)], [Some(4), Some(5), Some(6)]);
    assert_eq!(ok, Some(weights([1, 2, 3], [4, 5, 6])));
    let missing = parsed_fields_to_scoring([Some(1), None, Some(3)], [Some(4), Some(5), Some(6)]);
    assert_eq!(missing, None);
    let missing_fail = parsed_fields_to_scoring([Some(1), Some(2), Some(3)], [Some(4), Some(5), None]);
    assert_eq!(missing_fail, None);
}

#[test]
fn extreme_weights_do_not_overflow() {
    let w = weights([i64::MAX, i64::MIN, i64::MAX], [i64::MIN, i64::MAX, i64::MIN]);
    let solution = Solution::build(w, 3);
    let gs = GameState::new(Chance::TwentyFive, 3);
    let answers = solution.sorted_choices(&gs).unwrap();
    assert_eq!(answers.len(), 3);
    assert!(answers[0].score >= answers[1].score && answers[1].score >= answers[2].score);
}
