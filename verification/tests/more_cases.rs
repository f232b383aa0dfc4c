use puzzles::{day1, day2, day3, day4, day5, day6, day7};

#[test]
fn day1_part_one_example() {
    let input = "1abc2
pqr3stu8vwx
a1b2c3d4e5f
treb7uchet";
    assert_eq!(142, day1::part_one(input));
}

#[test]
fn day1_part_two_example() {
    let input = "two1nine
eightwothree
abcone2threexyz
xtwone3four
4nineeightseven2
zoneight234
7pqrstsixteen";
    assert_eq!(281, day1::part_two(input));
}

#[test]
fn day1_single_digit_counts_twice() {
    assert_eq!(77, day1::part_one("7"));
    assert_eq!(77, day1::part_two("seven"));
}

#[test]
fn day2_minimum_set_power_single_game() {
    let input = "Game 1: 3 blue, 4 red; 1 red, 2 green, 6 blue; 2 green\n";
    assert_eq!(48, day2::part_two(input));
}

#[test]
fn day3_single_row_gear_needs_two_numbers() {
    let input = "617*......\n";
    assert_eq!(617, day3::part_one(input));
    assert_eq!(0, day3::part_two(input));
}

#[test]
fn day3_gear_between_two_numbers() {
    let input = "12*34\n";
    assert_eq!(46, day3::part_one(input));
    assert_eq!(408, day3::part_two(input));
}

#[test]
fn day4_no_matches_scores_nothing() {
    let input = "Card 1: 1 2 | 3 4\n";
    assert_eq!(0, day4::part_one(input));
    assert_eq!(1, day4::part_two(input));
}

#[test]
fn day5_no_tables_keeps_seed() {
    let input = "seeds: 5\n";
    assert_eq!(5, day5::part_one(input));
}

#[test]
fn day6_single_race() {
    let input = "Time: 7\nDistance: 9\n";
    assert_eq!(4, day6::part_one(input));
    assert_eq!(4, day6::part_two(input));
}

#[test]
fn day7_equal_hands_keep_reading_order() {
    let input = "AAAAA 1\nAAAAA 2\n";
    assert_eq!(5, day7::part_one(input));
}

#[test]
fn day7_kind_of_full_house() {
    let hand = puzzles::day7::Hand {
        cards: vec![
            puzzles::day7::Card::K,
            puzzles::day7::Card::K,
            puzzles::day7::Card::C2,
            puzzles::day7::Card::K,
            puzzles::day7::Card::C2,
        ],
    };
    assert!(matches!(hand.kind(), puzzles::day7::Kind::FullHouse));
}
