use advent::scratchcards::{card_points, total_cards_won, total_points, Card};

fn example_cards() -> Vec<Card> {
    let data: [(u32, [u32; 5], [u32; 8]); 6] = [
        (1, [41, 48, 83, 86, 17], [83, 86, 6, 31, 17, 9, 48, 53]),
        (2, [13, 32, 20, 16, 61], [61, 30, 68, 82, 17, 32, 24, 19]),
        (3, [1, 21, 53, 59, 44], [69, 82, 63, 72, 16, 21, 14, 1]),
        (4, [41, 92, 73, 84, 69], [59, 84, 76, 51, 58, 5, 54, 83]),
        (5, [87, 83, 26, 28, 32], [88, 30, 70, 12, 93, 22, 82, 36]),
        (6, [31, 18, 13, 56, 72], [74, 77, 10, 23, 35, 67, 36, 11]),
    ];
    data.iter().map(|(id, w, y)| Card::with_numbers(*id, w.to_vec(), y.to_vec())).collect()
}

#[test]
fn day4_run_test_1() {
    assert_eq!(total_points(&example_cards()), Ok(13));
}

#[test]
fn day4_run_test_2() {
    assert_eq!(total_cards_won(&example_cards()), Ok(30));
}

#[test]
fn matches_are_counted() {
    let counts: Vec<usize> = example_cards().iter().map(|c| c.num_matches).collect();
    assert_eq!(counts, vec![4, 2, 2, 1, 0, 0]);
    let c = Card::with_numbers(9, vec![5, 5], vec![5, 5, 5]);
    assert_eq!(c.num_matches, 6);
    assert_eq!(Card::new(3).num_matches, 0);
}

#[test]
fn points_double_per_match() {
    assert_eq!(card_points(0), Some(0));
    assert_eq!(card_points(1), Some(1));
    assert_eq!(card_points(4), Some(8));
    assert_eq!(card_points(64), Some(1u64 << 63));
    assert_eq!(card_points(65), None);
}
