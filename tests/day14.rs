use aoc_days::day14::Tile::{Circle as O, Empty as E, Square as S};
use aoc_days::day14::{get_differences, get_load, get_set_up, tilt, tilt_lane, Day14};

const PLATFORM: &str = "O....#....
O.OO#....#
.....##...
OO.#O....O
.O.....O#.
O.#..O.#.#
..O..#O..O
.......O..
#....###..
#OO..#....
";

#[test]
fn test_day14_sol1() {
    let day = Day14::make_day(PLATFORM).unwrap();
    assert_eq!(day.solution1(), "136");
}

#[test]
fn day14_differences() {
    assert_eq!(get_differences(&[3, 7, 7, 12]), vec![4, 0, 5]);
    assert_eq!(get_differences(&[]), Vec::<usize>::new());
}

#[test]
fn day14_tilting() {
    assert_eq!(tilt_lane(&vec![E, O, S, E, O, O], false), vec![O, E, S, O, O, E]);
    assert_eq!(tilt_lane(&vec![E, O, S, E, O, O], true), vec![E, O, S, E, O, O]);
    assert_eq!(tilt_lane(&vec![O, E, S, O, E, E], true), vec![E, O, S, E, E, O]);
    assert_eq!(get_set_up(5, true), (4, -1));
    assert_eq!(get_set_up(5, false), (0, 1));
    let grid = vec![vec![E, O], vec![O, S]];
    assert_eq!(tilt(&grid, 1, false), vec![vec![O, O], vec![E, S]]);
    assert_eq!(tilt(&grid, 0, false), vec![vec![O, E], vec![O, S]]);
    assert_eq!(get_load(&vec![vec![O, O], vec![E, S]]), Some(4));
    assert!(Day14::make_day("O.\n.\n").is_none());
}
