use aoc_days::day19::{intersection, Category, Day19, Part, RangePart, Rule, RuleKind, ComparisonType, Workflow};

const SYSTEM: &str = "px{a<2006:qkq,m>2090:A,rfg}
pv{a>1716:R,A}
lnx{m>1548:A,A}
rfg{s<537:gd,x>2440:R,A}
qs{s>3448:A,lnx}
qkq{x<1416:A,crn}
crn{x>2662:A,R}
in{s<1351:px,qqz}
qqz{s>2770:qs,m<1801:hdj,R}
gd{a>3333:R,R}
hdj{m>838:A,pv}

{x=787,m=2655,a=1222,s=2876}
{x=1679,m=44,a=2067,s=496}
{x=2036,m=264,a=79,s=2244}
{x=2461,m=1339,a=466,s=291}
{x=2127,m=1623,a=2188,s=1013}
";

#[test]
fn test_day19_sol1() {
    let day = Day19::make_day(SYSTEM).unwrap();
    assert_eq!(day.solution1(), "19114");
}

#[test]
fn day19_accepts() {
    let day = Day19::make_day(SYSTEM).unwrap();
    assert_eq!(day.workflows.len(), 11);
    assert_eq!(day.parts.len(), 5);
    assert_eq!(day.does_accept(&day.parts[0]), Some(true));
    assert_eq!(day.does_accept(&day.parts[1]), Some(false));
    assert_eq!(day.parts[0].get_score(), 7540);
    let looping = Day19::make_day("in{x>0:in,A}\n\n{x=1,m=1,a=1,s=1}\n").unwrap();
    assert_eq!(looping.does_accept(&looping.parts[0]), None);
    assert_eq!(looping.solution1(), "");
}

#[test]
fn day19_rules_and_conditions() {
    let rule = Rule::parse(b"a<2006:qkq").unwrap();
    assert_eq!(rule.category, Category::A);
    assert_eq!(rule.rule_kind, RuleKind::SmallerThan);
    assert_eq!(rule.compared_to, 2006);
    assert_eq!(rule.rule_kind.compute_same(), ComparisonType::SmallerThan);
    assert_eq!(rule.rule_kind.compute_opposite(), ComparisonType::GreaterEqual);
    let w = Workflow::parse(b"qqz{s>2770:qs,m<1801:hdj,R}").unwrap();
    let conds = w.find_conditions_for_accepting();
    assert_eq!(conds.len(), 2);
    assert_eq!(conds[1].conditions.len(), 2);
    assert_eq!(conds[1].conditions[0].rule_kind, ComparisonType::SmallerEqual);
    assert!(Part::parse(b"{x=1,m=2}").is_none());
}

#[test]
fn day19_boxes() {
    assert_eq!(intersection(&(1..10), &(5..20)), 5..10);
    let all = RangePart::new();
    assert_eq!(all.compute_size(), 4000u128 * 4000 * 4000 * 4000);
    let small = RangePart { x: 1..3, m: 1..3, a: 1..3, s: 2..3 };
    assert_eq!(all.intersection(&small).compute_size(), 8);
    let both = RangePart::intersection_slice(&[small, RangePart { x: 2..9, m: 1..4001, a: 1..4001, s: 1..4001 }]).unwrap();
    assert_eq!(both.compute_size(), 4);
    assert!(RangePart::intersection_slice(&[]).is_none());
}

#[test]
fn day19_accepted_count() {
    let above = Day19::make_day("in{x>3999:A,R}\n\n{x=1,m=1,a=1,s=1}\n").unwrap();
    assert_eq!(above.find_numbers_of_accepting(), Some(64_000_000_000));
    let below = Day19::make_day("in{x<3:A,R}\n\n{x=1,m=1,a=1,s=1}\n").unwrap();
    assert_eq!(below.find_numbers_of_accepting(), Some(64_000_000_000));
    let two = Day19::make_day("in{x>3999:A,m>3999:A,R}\n\n{x=1,m=1,a=1,s=1}\n").unwrap();
    assert_eq!(two.solution2(), "127968000000");
    let missing = Day19::make_day("in{x>3999:nowhere,R}\n\n{x=1,m=1,a=1,s=1}\n").unwrap();
    assert_eq!(missing.find_numbers_of_accepting(), None);
}
