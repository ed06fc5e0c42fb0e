use advent::cubes::{fewest_cubes, game_is_possible, is_valid_draw_for_part_1, sum_of_powers, sum_possible_game_ids, Draw};
use advent::error::GenericError;

fn d(r: usize, g: usize, b: usize) -> Draw {
    Draw { r, g, b }
}

fn example_games() -> Vec<(usize, Vec<Draw>)> {
    vec![
        (1, vec![d(4, 0, 3), d(1, 2, 6), d(0, 2, 0)]),
        (2, vec![d(0, 2, 1), d(1, 3, 4), d(0, 1, 1)]),
        (3, vec![d(20, 8, 6), d(4, 13, 5), d(1, 5, 0)]),
        (4, vec![d(3, 1, 6), d(6, 3, 0), d(14, 3, 15)]),
        (5, vec![d(6, 3, 1), d(1, 2, 2)]),
    ]
}

#[test]
fn day2_run_test_1() {
    assert_eq!(sum_possible_game_ids(&example_games()), Ok(8));
}

#[test]
fn day2_run_test_2() {
    let draws: Vec<Vec<Draw>> = example_games().into_iter().map(|(_, g)| g).collect();
    assert_eq!(sum_of_powers(&draws), Ok(2286));
}

#[test]
fn draw_limits() {
    assert!(is_valid_draw_for_part_1(&d(12, 13, 14)));
    assert!(!is_valid_draw_for_part_1(&d(13, 0, 0)));
    assert!(!is_valid_draw_for_part_1(&d(0, 14, 0)));
    assert!(!is_valid_draw_for_part_1(&d(0, 0, 15)));
    assert!(game_is_possible(&vec![]));
    assert!(!game_is_possible(&vec![d(1, 1, 1), d(20, 8, 6)]));
}

#[test]
fn fewest_and_power() {
    let f = fewest_cubes(&vec![d(4, 0, 3), d(1, 2, 6), d(0, 2, 0)]);
    assert_eq!(f, d(4, 2, 6));
    assert_eq!(f.power(), 48);
    assert_eq!(fewest_cubes(&vec![]), d(0, 0, 0));
}

#[test]
fn power_overflow_is_reported() {
    let huge = usize::MAX / 2;
    assert_eq!(sum_of_powers(&vec![vec![d(huge, huge, 2)]]), Err(GenericError::Overflow));
    assert_eq!(sum_of_powers(&vec![vec![d(huge, huge, 0)]]), Ok(0));
}
