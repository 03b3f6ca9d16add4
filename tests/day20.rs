use aoc_days::day20::{
    handle_button_press, least_common_multiple, Day20, ModuleType, ParseError, Pulse,
};

const EXAMPLE_ONE: &str = "broadcaster -> a, b, c\n%a -> b\n%b -> c\n%c -> inv\n&inv -> a\n";

const EXAMPLE_TWO: &str = "broadcaster -> a\n%a -> inv, con\n&inv -> b\n%b -> con\n&con -> output\n";

const THREE_COUNTERS: &str = "broadcaster -> a\n%a -> b, c3, c5\n%b -> c, c3\n%c -> c4, c5\n&c3 -> f\n&c4 -> f\n&c5 -> f\n&f -> rx\n";

#[test]
fn test_day20_sol1() {
    let day = Day20::make_day(EXAMPLE_TWO).unwrap();
    assert_eq!(day.solution1(), "11687500");
}

#[test]
fn day20_first_example_product() {
    let day = Day20::make_day(EXAMPLE_ONE).unwrap();
    assert_eq!(day.solution1(), "32000000");
}

#[test]
fn day20_first_example_single_press() {
    let day = Day20::make_day(EXAMPLE_ONE).unwrap();
    assert_eq!(day.press_counts(1), vec![Some((8, 4))]);
}

#[test]
fn day20_conjunction_without_inputs_sends_low() {
    let mut m = ModuleType::Conjunction { most_recent_pulses: vec![] };
    assert_eq!(m.handle_pulse(Pulse::High, Some(3)), Some(Pulse::Low));
    assert_eq!(m.handle_pulse(Pulse::Low, None), Some(Pulse::Low));
}

#[test]
fn day20_flip_flop_and_conjunction() {
    let mut f = ModuleType::FlipFlop { state: false };
    assert_eq!(f.handle_pulse(Pulse::High, None), None);
    assert_eq!(f.handle_pulse(Pulse::Low, None), Some(Pulse::High));
    assert_eq!(f.handle_pulse(Pulse::Low, None), Some(Pulse::Low));
    let mut c = ModuleType::Conjunction { most_recent_pulses: vec![(1, Pulse::Low), (2, Pulse::Low)] };
    assert_eq!(c.handle_pulse(Pulse::High, Some(1)), Some(Pulse::High));
    assert_eq!(c.handle_pulse(Pulse::High, Some(2)), Some(Pulse::Low));
    assert_eq!(c.handle_pulse(Pulse::Low, Some(1)), Some(Pulse::High));
    let mut b = ModuleType::Broadcast;
    assert_eq!(b.handle_pulse(Pulse::High, None), Some(Pulse::High));
    let mut o = ModuleType::Output;
    assert_eq!(o.handle_pulse(Pulse::Low, Some(0)), None);
}

#[test]
fn day20_parse_twice_gives_same_graph() {
    let a = Day20::make_day(EXAMPLE_TWO).unwrap();
    let b = Day20::make_day(EXAMPLE_TWO).unwrap();
    assert_eq!(format!("{:?}", a), format!("{:?}", b));
    assert_eq!(a.modules.len(), 6);
    assert_eq!(a.modules[5].id, b"output".to_vec());
    assert!(matches!(a.modules[5].module_type, ModuleType::Output));
    match &a.modules[4].module_type {
        ModuleType::Conjunction { most_recent_pulses } => {
            assert_eq!(most_recent_pulses, &vec![(1, Pulse::Low), (3, Pulse::Low)]);
        }
        _ => panic!("con should be a conjunction"),
    }
}

#[test]
fn day20_replay_is_deterministic() {
    let a = Day20::make_day(EXAMPLE_TWO).unwrap();
    let b = Day20::make_day(EXAMPLE_TWO).unwrap();
    assert_eq!(a.press_counts(50), b.press_counts(50));
    assert_eq!(a.press_counts(4), vec![Some((4, 4)), Some((4, 2)), Some((5, 3)), Some((4, 2))]);
}

#[test]
fn day20_period_detector_combines_feeder_periods() {
    let day = Day20::make_day(THREE_COUNTERS).unwrap();
    let watch = vec![4, 5, 6];
    assert_eq!(day.feeders_of(7), watch);
    assert_eq!(day.record_first_lows(&watch), Some(vec![3, 4, 5]));
    assert_eq!(day.rx_period(), Some(60));
    assert_eq!(day.solution2(), "60");
}

#[test]
fn day20_first_lows_match_brute_force() {
    let day = Day20::make_day(THREE_COUNTERS).unwrap();
    let mut modules = day.copy_modules();
    let mut table: Vec<(usize, u64)> = vec![(4, 0), (5, 0), (6, 0)];
    for press in 1..=10u64 {
        handle_button_press(&mut modules, day.broadcast, press, &mut table).unwrap();
    }
    let found = day.record_first_lows(&vec![4, 5, 6]).unwrap();
    assert_eq!(table.iter().map(|e| e.1).collect::<Vec<_>>(), found);
}

#[test]
fn day20_without_rx_has_no_period() {
    let day = Day20::make_day(EXAMPLE_TWO).unwrap();
    assert_eq!(day.rx_period(), None);
    assert_eq!(day.solution2(), "");
}

#[test]
fn day20_lcm() {
    assert_eq!(least_common_multiple(&vec![3, 4, 5]), Some(60));
    assert_eq!(least_common_multiple(&vec![4, 6]), Some(12));
    assert_eq!(least_common_multiple(&vec![]), Some(1));
    assert_eq!(least_common_multiple(&vec![u64::MAX, 2]), None);
}

#[test]
fn day20_parse_errors() {
    assert_eq!(Day20::make_day("broadcaster -> a\n%a b\n").unwrap_err(), ParseError::MalformedLine(1));
    assert_eq!(Day20::make_day("broadcaster -> a\n?a -> b\n").unwrap_err(), ParseError::UnknownPrefix(1));
    assert_eq!(Day20::make_day("broadcaster -> a\n%a -> b\n&a -> b\n").unwrap_err(), ParseError::DuplicateModule(2));
    assert_eq!(Day20::make_day("%a -> b\n").unwrap_err(), ParseError::MissingBroadcaster);
}
