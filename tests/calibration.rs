use advent::calibration::{find_value, line_calibration, run};

fn lines(text: &[&str]) -> Vec<String> {
    text.iter().map(|s| s.to_string()).collect()
}

#[test]
fn digits_only_example() {
    let input = lines(&["1abc2", "pqr3stu8vwx", "a1b2c3d4e5f", "treb7uchet"]);
    assert_eq!(run(&input).0, 142);
}

#[test]
fn spelled_digits_example() {
    let input = lines(&[
        "two1nine",
        "eightwothree",
        "abcone2threexyz",
        "xtwone3four",
        "4nineeightseven2",
        "zoneight234",
        "7pqrstsixteen",
    ]);
    assert_eq!(run(&input).1, 281);
}

#[test]
fn single_lines() {
    assert_eq!(line_calibration(b"treb7uchet", false), 77);
    assert_eq!(line_calibration(b"no digits", false), 0);
    assert_eq!(line_calibration(b"eightwo", true), 82);
    assert_eq!(line_calibration(b"eightwo", false), 0);
    assert_eq!(line_calibration(b"x0y", true), 0);
    assert_eq!(line_calibration(b"nine0", true), 90);
}
#[test]
fn first_and_last_values() {
    assert_eq!(find_value(b"xtwone3four", true, false), Some(2));
    assert_eq!(find_value(b"xtwone3four", true, true), Some(4));
    assert_eq!(find_value(b"xtwone3four", false, false), Some(3));
    assert_eq!(find_value(b"abc", true, true), None);
}
