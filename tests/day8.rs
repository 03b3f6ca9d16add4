use aoc_days::day8::{Day8, EndCondition, Walker};

#[test]
fn test_day8_sol1() {
    let day = Day8::make_day("RL\n\nAAA = (BBB, CCC)\nBBB = (DDD, EEE)\nCCC = (ZZZ, GGG)\nDDD = (DDD, DDD)\nEEE = (EEE, EEE)\nGGG = (GGG, GGG)\nZZZ = (ZZZ, ZZZ)\n").unwrap();
    assert_eq!(day.solution1(), "2");
}

#[test]
fn test_day8_sol1_bis() {
    let day = Day8::make_day("LLR\n\nAAA = (BBB, BBB)\nBBB = (AAA, ZZZ)\nZZZ = (ZZZ, ZZZ)\n").unwrap();
    assert_eq!(day.solution1(), "6");
}

#[test]
fn test_day8_sol2() {
    let day = Day8::make_day(
        "LR\n\n11A = (11B, XXX)\n11B = (XXX, 11Z)\n11Z = (11B, XXX)\n22A = (22B, XXX)\n22B = (22C, 22C)\n22C = (22Z, 22Z)\n22Z = (22B, 22B)\nXXX = (XXX, XXX)\n",
    )
    .unwrap();
    assert_eq!(day.solution2(), "6");
}

#[test]
fn day8_walks() {
    let day = Day8::make_day("L\n\nAAA = (BBB, BBB)\nBBB = (BBB, BBB)\n").unwrap();
    assert_eq!(Walker::make_from_id(0).walk(&day, EndCondition::Exact), None);
    assert_eq!(day.solution1(), "");
    assert!(Day8::make_day("L\n\nAAA = (QQQ, QQQ)\n").is_none());
    assert!(Day8::make_day("X\n\nAAA = (AAA, AAA)\n").is_none());
}
