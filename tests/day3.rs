use aoc_days::day3::{Day3, EngineNumber};

const SCHEMATIC: &str = "467..114..
...*......
..35..633.
......#...
617*......
.....+.58.
..592.....
......755.
...$.*....
.664.598..
";

#[test]
fn day3_test_day1_sol1() {
    let day = Day3::make_day(SCHEMATIC);
    assert_eq!(day.solution1(), "4361");
}

#[test]
fn day3_test_day1_sol2() {
    let day = Day3::make_day(SCHEMATIC);
    assert_eq!(day.solution2(), "467835");
}

#[test]
fn day3_numbers_and_neighbours() {
    let day = Day3::make_day(SCHEMATIC);
    let numbers = day.construct_engine_numbers();
    assert_eq!(numbers.len(), 10);
    assert_eq!(numbers[0], EngineNumber { value: 467, row: 0, start_col: 0, end_col: 2, marked: false });
    let mut n = numbers[1];
    assert!(!n.is_next_to(1, 3));
    assert!(n.is_next_to(1, 4));
    n.try_mark(5, 5);
    assert!(!n.marked);
    n.try_mark(1, 8);
    assert!(n.marked);
}
