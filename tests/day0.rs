use aoc_days::day0::Day0;

#[test]
fn test_day0_sol1() {
    let day = Day0::make_day("anything\n");
    assert_eq!(day.solution1(), "sol1");
}

#[test]
fn test_day0_sol2() {
    let day = Day0::make_day("anything\n");
    assert_eq!(day.solution2(), "sol2");
}
