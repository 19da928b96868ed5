use refinement_optimizer::chance::Chance;
use refinement_optimizer::state::State;

const LADDER: [Chance; 6] = [
    Chance::TwentyFive,
    Chance::ThirtyFive,
    Chance::FourtyFive,
    Chance::FiftyFive,
    Chance::SixtyFive,
    Chance::SeventyFive,
];

#[test]
fn up_and_down_saturate_at_the_ends() {
    let mut top = Chance::SeventyFive;
    top.up();
    assert_eq!(top, Chance::SeventyFive);
    let mut bottom = Chance::TwentyFive;
    bottom.down();
    assert_eq!(bottom, Chance::TwentyFive);
}

#[test]
fn up_then_down_returns_below_the_top() {
    for &c in &LADDER[..5] {
        let mut x = c;
        x.up();
        assert_ne!(x, c);
        x.down();
        assert_eq!(x, c);
    }
}

#[test]
fn down_then_up_returns_above_the_bottom() {
    for &c in &LADDER[1..] {
        let mut x = c;
        x.down();
        assert_ne!(x, c);
        x.up();
        assert_eq!(x, c);
    }
}

#[test]
fn percent_and_labels() {
    let expected = [(25, "25%"), (35, "35%"), (45, "45%"), (55, "55%"), (65, "65%"), (75, "75%")];
    for (i, &c) in LADDER.iter().enumerate() {
        assert_eq!(c.percent(), expected[i].0);
        assert_eq!(c.as_str(), expected[i].1);
        assert_eq!(c.level_index(), i as u32);
        assert_eq!(Chance::from_level(i as u8), c);
    }
}

#[test]
fn transition_consumes_a_slot_either_way() {
    let s = State { chance: Chance::FiftyFive, remaining: [2, 0, 1] };
    let (success, fail) = s.transition(0);
    assert_eq!(success.remaining, [1, 0, 1]);
    assert_eq!(fail.remaining, [1, 0, 1]);
    assert_eq!(success.chance, Chance::FourtyFive);
    assert_eq!(fail.chance, Chance::SixtyFive);
}

#[test]
fn available_choices_lists_open_tracks() {
    let s = State { chance: Chance::FiftyFive, remaining: [2, 0, 1] };
    assert_eq!(s.available_choices().as_slice(), &[0, 2]);
    let done = State { chance: Chance::FiftyFive, remaining: [0, 0, 0] };
    assert!(done.available_choices().is_empty());
}

#[test]
fn update_uses_the_roll_against_the_percentage() {
    let mut s = State { chance: Chance::SeventyFive, remaining: [1, 1, 1] };
    assert!(s.update(1, 74));
    assert_eq!(s.remaining, [1, 0, 1]);
    assert_eq!(s.chance, Chance::SixtyFive);
    assert!(!s.update(2, 65));
    assert_eq!(s.remaining, [1, 0, 0]);
    assert_eq!(s.chance, Chance::SeventyFive);
}
