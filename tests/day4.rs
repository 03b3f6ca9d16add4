use aoc_days::day4::{Card, Day4};

const CARDS: &str = "Card 1: 41 48 83 86 17 | 83 86  6 31 17  9 48 53
Card 2: 13 32 20 16 61 | 61 30 68 82 17 32 24 19
Card 3:  1 21 53 59 44 | 69 82 63 72 16 21 14  1
Card 4: 41 92 73 84 69 | 59 84 76 51 58  5 54 83
Card 5: 87 83 26 28 32 | 88 30 70 12 93 22 82 36
Card 6: 31 18 13 56 72 | 74 77 10 23 35 67 36 11
";

#[test]
fn test_day4_sol1() {
    let day4 = Day4::make_day(CARDS).unwrap();
    assert_eq!(day4.solution1(), "13");
}

#[test]
fn test_day4_sol2() {
    let day4 = Day4::make_day(CARDS).unwrap();
    assert_eq!(day4.solution2(), "30");
}

#[test]
fn day4_copies_past_the_last_card_count() {
    let day4 = Day4::make_day("Card 1: 1 2 | 1 2\n").unwrap();
    assert_eq!(day4.solution2(), "5");
}

#[test]
fn day4_card_score() {
    let card = Card::parse(b"Card 1: 41 48 83 86 17 | 83 86  6 31 17  9 48 53").unwrap();
    assert_eq!(card.winning_numbers, vec![41, 48, 83, 86, 17]);
    assert_eq!(card.compute_number_of_winning_in_found_numbers(), 4);
    assert_eq!(card.compute_score(), 8);
    let none = Card::parse(b"Card 5: 87 83 | 88 30").unwrap();
    assert_eq!(none.compute_score(), 0);
    assert!(Card::parse(b"Card 5: 87 x | 88").is_none());
}
