use aoc_days::day2::{CubeGrab, Day2, Game};

const GAMES: [&str; 5] = [
    "Game 1: 3 blue, 4 red; 1 red, 2 green, 6 blue; 2 green",
    "Game 2: 1 blue, 2 green; 3 green, 4 blue, 1 red; 1 green, 1 blue",
    "Game 3: 8 green, 6 blue, 20 red; 5 blue, 4 red, 13 green; 5 green, 1 red",
    "Game 4: 1 green, 3 red, 6 blue; 3 green, 6 red; 3 green, 15 blue, 14 red",
    "Game 5: 6 red, 1 blue, 3 green; 2 blue, 1 red, 2 green",
];

#[test]
fn test_day2_sol1() {
    let games = GAMES.iter().map(|line| Game::parse(line.as_bytes()).unwrap()).collect();
    let day2 = Day2 { games };
    assert_eq!(day2.solution1(), "8");
}

#[test]
fn test_day2_sol2() {
    let games = GAMES.iter().map(|line| Game::parse(line.as_bytes()).unwrap()).collect();
    let day2 = Day2 { games };
    assert_eq!(day2.solution2(), "2286");
}

#[test]
fn day2_minimum_bag_and_power() {
    let game = Game::parse(GAMES[0].as_bytes()).unwrap();
    assert_eq!(game.id, 1);
    assert_eq!(game.get_minimum_dice_bag(), [4, 2, 6]);
    assert_eq!(game.get_power(), 48);
}

#[test]
fn day2_grabs() {
    let grab = CubeGrab::parse(b" 3 blue, 4 red").unwrap();
    assert_eq!(grab.nb_cubes_by_color, [4, 0, 3]);
    assert!(grab.is_acceptable(4, 0, 3));
    assert!(!grab.is_acceptable(3, 0, 3));
    assert!(CubeGrab::parse(b" 3 purple").is_none());
    assert!(Game::parse(b"Game 1 3 blue").is_none());
}

#[test]
fn day2_make_day() {
    let day2 = Day2::make_day(&GAMES.join("\n")).unwrap();
    assert_eq!(day2.games.len(), 5);
    assert_eq!(day2.solution1(), "8");
    assert!(Day2::make_day("Game x: 1 red").is_none());
}
