use aoc_days::day9::{Binomial, Day9, Sequence};

const HISTORY: &str = "0 3 6 9 12 15\n1 3 6 10 15 21\n10 13 16 21 30 45\n";

#[test]
fn test_compute_next_value() {
    let seq = Sequence {
        values: vec![1, 3, 6, 10, 15, 21],
    };
    let binomial = Binomial::construct_from_n_value(7);
    assert_eq!(seq.compute_next_value(&binomial), 28);
}

#[test]
fn test_compute_previous_value() {
    let seq = Sequence {
        values: vec![10, 13, 16, 21, 30, 45],
    }
    .reverse();
    let binomial = Binomial::construct_from_n_value(7);
    assert_eq!(seq.compute_next_value(&binomial), 5);
}

#[test]
fn test_day9_sol1() {
    let day = Day9::make_day(HISTORY).unwrap();
    assert_eq!(day.solution1(), "114");
}

#[test]
fn test_day9_sol2() {
    let day = Day9::make_day(HISTORY).unwrap();
    assert_eq!(day.solution2(), "2");
}

#[test]
fn day9_pascal_and_differences() {
    let binomial = Binomial::construct_from_n_value(4);
    assert_eq!(binomial.coefficients[4], vec![1, 4, 6, 4, 1]);
    let seq = Sequence { values: vec![1, 3, 6, 10, 15, 21] };
    assert_eq!(seq.compute_higher_differences(&binomial_of(7)), vec![1, 2, 1]);
    let falling = Sequence::parse(b"5 -1 -7").unwrap();
    assert_eq!(falling.values, vec![5, -1, -7]);
    assert_eq!(falling.next_value_checked(&binomial_of(4)), Some(-13));
    assert!(Sequence::parse(b"1 x").is_none());
}

fn binomial_of(n: usize) -> Binomial {
    Binomial::construct_from_n_value(n)
}

#[test]
fn day9_negative_answer() {
    let day = Day9::make_day("5 -1 -7\n").unwrap();
    assert_eq!(day.solution1(), "-13");
}
