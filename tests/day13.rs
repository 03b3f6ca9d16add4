use aoc_days::day13::{count_bit_diffs, find_symmetry, find_symmetry_one_diff, to_key, Day13, Island, Terrain};

const PATTERNS: &str = "#.##..##.
..#.##.#.
##......#
##......#
..#.##.#.
..##..##.
#.##..##.

#...##..#
#....#..#
..##..###
#####.##.
#####.##.
..##..###
#....#..#
";

#[test]
fn test_day13_sol1() {
    let day = Day13::make_day(PATTERNS).unwrap();
    assert_eq!(day.solution1(), "405");
}

#[test]
fn test_day13_sol2() {
    let day = Day13::make_day(PATTERNS).unwrap();
    assert_eq!(day.solution2(), "400");
}

#[test]
fn day13_keys_and_mirrors() {
    assert_eq!(to_key(&[Terrain::Ash, Terrain::Rock, Terrain::Ash]), 5);
    assert_eq!(count_bit_diffs(0b1011, 0b0010), 2);
    assert_eq!(find_symmetry(&[1, 2, 2, 1, 7]), Some(1));
    assert_eq!(find_symmetry(&[1, 2, 3]), None);
    assert_eq!(find_symmetry_one_diff(&[1, 2, 3, 1]), Some(1));
    let island = Island::parse(b"#.\n.#\n").unwrap();
    assert_eq!(island.get_horizontal_keys(), vec![1, 2]);
    assert_eq!(island.get_vertical_keys(), vec![1, 2]);
}
