use aoc_days::day11::{get_missing_values, number_of_expanded_between, Day11};

const IMAGE: &str = "...#......
.......#..
#.........
..........
......#...
.#........
.........#
..........
.......#..
#...#.....
";

#[test]
fn test_day11_sol1() {
    let day = Day11::make_day(IMAGE);
    assert_eq!(day.solution1(), "374");
}

#[test]
fn test_day11_sol2() {
    let day = Day11::make_day(IMAGE);
    assert_eq!(day.get_result(100), Some(8410));
    assert_eq!(day.get_result(10), Some(1030));
}

#[test]
fn day11_missing_and_between() {
    assert_eq!(get_missing_values(vec![5, 1, 3, 1]), vec![2, 4]);
    assert_eq!(number_of_expanded_between(&vec![2, 4, 7], 8, 3), 2);
    assert_eq!(Day11::make_day("...\n").get_result(2), None);
}
