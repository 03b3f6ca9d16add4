use aoc_days::day6::{approx_end, approx_start, join_numbers, product_of_ways, Day6};

const RACES: &str = "Time:      7  15   30\nDistance:  9  40  200\n";

fn interval(time: i64, distance: i64) -> (i64, i64) {
    let t = time as f64;
    let d = distance as f64;
    let sq = (t * t - 4.0 * d).sqrt();
    let low = (t - sq) / 2.0;
    let high = (t + sq) / 2.0;
    (
        approx_start(low.floor() as i64, time, distance),
        approx_end(high.ceil() as i64, time, distance),
    )
}

#[test]
fn test_day6_sol1() {
    let day = Day6::make_day(RACES).unwrap();
    let intervals: Vec<(i64, i64)> = day.times.iter().zip(day.distances.iter()).map(|(t, d)| interval(*t, *d)).collect();
    assert_eq!(product_of_ways(&intervals), Some(288));
}

#[test]
fn test_day6_sol2() {
    let day = Day6::make_day(RACES).unwrap();
    let time = join_numbers(&day.times).unwrap();
    let distance = join_numbers(&day.distances).unwrap();
    assert_eq!((time, distance), (71530, 940200));
    let (a, b) = interval(time, distance);
    assert_eq!(b + 1 - a, 71503);
}

#[test]
fn day6_rounding() {
    assert_eq!(approx_start(2, 7, 9), 2);
    assert_eq!(approx_start(10, 30, 200), 11);
    assert_eq!(approx_end(20, 30, 200), 19);
    assert_eq!(approx_end(5, 7, 9), 5);
    assert_eq!(join_numbers(&vec![7, 15, 30]), Some(71530));
    assert_eq!(join_numbers(&vec![9_000_000_000, 9_000_000_000]), None);
    assert_eq!(product_of_ways(&vec![(2, 5), (4, 11)]), Some(32));
    assert!(Day6::make_day("Time: 7\n").is_none());
}
