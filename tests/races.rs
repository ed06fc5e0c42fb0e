use advent::races::{count_ways_to_beat, product_of_ways};

#[test]
fn day6_run_test_1() {
    assert_eq!(product_of_ways(&vec![7, 15, 30], &vec![9, 40, 200]), Ok(288));
}

#[test]
fn day6_run_test_2() {
    assert_eq!(count_ways_to_beat(71530, 940200), 71503);
}

#[test]
fn single_races() {
    assert_eq!(count_ways_to_beat(7, 9), 4);
    assert_eq!(count_ways_to_beat(15, 40), 8);
    assert_eq!(count_ways_to_beat(30, 200), 9);
    assert_eq!(count_ways_to_beat(4, 4), 0);
    assert_eq!(count_ways_to_beat(0, 0), 0);
}

#[test]
fn unwinnable_race_gives_zero_product() {
    assert_eq!(product_of_ways(&vec![7, 4], &vec![9, 4]), Ok(0));
    assert_eq!(product_of_ways(&vec![], &vec![]), Ok(1));
}
