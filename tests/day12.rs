use aoc_days::day12::SpringElement::{Broken, Unknown, Working};
use aoc_days::day12::{find_ways_to_fit_recursive, form_broken_seq, BrokenSeqResult, Day12, SpringElement, SpringLine};

const RECORDS: &str = "???.### 1,1,3
.??..??...?##. 1,1,3
?#?#?#?#?#?#?#? 1,3,1,6
????.#...#... 4,1,1
????.######..#####. 1,6,5
?###???????? 3,2,1
";

#[test]
fn test_find_ways() {
    let g1 = SpringLine::parse(b"#.??. 1").unwrap();
    let v = find_ways_to_fit_recursive(&g1.groups, &g1.goal);
    assert_eq!(v, 1);
}

#[test]
fn test_find_ways_2() {
    let g1 = SpringLine::parse(b"????.#...#... 4,1,1").unwrap();
    let v = g1.find_ways_to_fit_unfold();
    assert_eq!(v, 16);
}

#[test]
fn test_day12_sol1() {
    let day = Day12::make_day(RECORDS).unwrap();
    assert_eq!(day.solution1(), "21");
}

#[test]
fn test_day12_sol2() {
    let day = Day12::make_day(RECORDS).unwrap();
    assert_eq!(day.solution2(), "525152");
}

#[test]
fn day12_broken_groups() {
    assert_eq!(form_broken_seq(&[Broken, Unknown, Working], 2), BrokenSeqResult::SuccessWithSpringsRemaining(3));
    assert_eq!(form_broken_seq(&[Broken, Unknown], 2), BrokenSeqResult::SuccessWithSpringsEnd);
    assert_eq!(form_broken_seq(&[Broken, Working], 2), BrokenSeqResult::FailureToForm);
    assert_eq!(form_broken_seq(&[Broken, Broken, Broken], 2), BrokenSeqResult::FailureToForm);
    let line = SpringLine::parse(b"?###???????? 3,2,1").unwrap();
    assert_eq!(line.find_ways_to_fit(), 10);
    assert!(SpringLine::parse(b"?x? 1").is_none());
}
