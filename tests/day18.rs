use aoc_days::day18::{Day18, DigInstruction, Direction};

const PLAN: &str = "R 6 (#70c710)
D 5 (#0dc571)
L 2 (#5713f0)
D 2 (#d2c081)
R 2 (#59c680)
D 2 (#411b91)
L 5 (#8ceee2)
U 2 (#caa173)
L 1 (#1b58a2)
U 2 (#caa171)
R 2 (#7807d2)
U 3 (#a77fa3)
L 2 (#015232)
U 2 (#7a21e3)
";

#[test]
fn test_day18_sol1() {
    let day = Day18::make_day(PLAN).unwrap();
    assert_eq!(day.solution1(), "62");
}

#[test]
fn test_day18_sol2() {
    let day = Day18::make_day(PLAN).unwrap();
    assert_eq!(day.solution2(), "952408144115");
}

#[test]
fn day18_lines_and_moves() {
    let (a, b) = DigInstruction::get_two_instructions_from_line(b"R 6 (#70c710)").unwrap();
    assert_eq!(a.direction, Direction::Right);
    assert_eq!(a.nb_digs, 6);
    assert_eq!(b.direction, Direction::Right);
    assert_eq!(b.nb_digs, 461937);
    assert_eq!(Direction::Up.get_movement(), (-1, 0));
    assert_eq!(Direction::from_letter(b'L'), Some(Direction::Left));
    assert!(DigInstruction::get_two_instructions_from_line(b"X 6 (#70c710)").is_none());
    let square = Day18::make_day("R 2 (#000020)\nD 2 (#000021)\nL 2 (#000022)\nU 2 (#000023)\n").unwrap();
    assert_eq!(square.compute_inside_points(false), 9);
    assert_eq!(square.compute_inside_points(true), 9);
}
