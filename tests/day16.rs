use aoc_days::day16::{Contraption, Day16, Direction, LeavingDirections, Ray};

const GRID: &str = r".|...\....
|.-.\.....
.....|-...
........|.
..........
.........\
..../.\\..
.-.-/..|..
.|....-|.\
..//.|....
";

#[test]
fn test_day16_sol1() {
    let day = Day16::make_day(GRID).unwrap();
    assert_eq!(day.solution1(), "46");
}

#[test]
fn test_day16_sol2() {
    let day = Day16::make_day(GRID).unwrap();
    assert_eq!(day.solution2(), "51");
}

#[test]
fn day16_pieces() {
    assert_eq!(Contraption::get_from_char(b'/'), Some(Contraption::MirrorLeft));
    assert_eq!(Contraption::get_from_char(b'.'), None);
    assert_eq!(
        Contraption::SplitterVertical.get_leaving_directions(Direction::Right),
        LeavingDirections::Two { dir1: Direction::Up, dir2: Direction::Down }
    );
    assert_eq!(Contraption::MirrorRight.get_leaving_directions(Direction::Up), LeavingDirections::One(Direction::Left));
    let ray = Ray { direction: Direction::Left, pos: (0, 0) };
    assert_eq!(ray.get_next_cell(3, 3), None);
    let ray = Ray { direction: Direction::Down, pos: (-1, 2) };
    assert_eq!(ray.get_next_cell(3, 3), Some((0, 2)));
    let day = Day16::make_day(GRID).unwrap();
    assert_eq!(day.edge_rays().len(), 40);
    assert_eq!(day.compute_energized_cells(Ray { direction: Direction::Down, pos: (-1, 3) }), 51);
    assert!(Day16::make_day("..\n.\n").is_none());
}
