use aoc_days::day7::{
    char_to_card, compute_card_numbers_from_cards_map, get_hex_power_from_nb_cards, Day7, Hand,
};

const HANDS: &str = "32T3K 765\nT55J5 684\nKK677 28\nKTJJT 220\nQQQJA 483\n";

#[test]
fn test_day7_sol1() {
    let day = Day7::make_day(HANDS).unwrap();
    assert_eq!(day.solution1(), "6440");
}

#[test]
fn test_day7_sol2() {
    let day = Day7::make_day(HANDS).unwrap();
    assert_eq!(day.solution2(), "5905");
}

#[test]
fn day7_cards_and_types() {
    assert_eq!(char_to_card('T'), Ok(10));
    assert_eq!(char_to_card('7'), Ok(7));
    assert_eq!(char_to_card('x'), Err(()));
    let mut map = [0usize; 15];
    map[3] = 2;
    map[10] = 1;
    map[13] = 2;
    assert_eq!(compute_card_numbers_from_cards_map(map), (2, 2));
    assert_eq!(get_hex_power_from_nb_cards(3, 2), Some('4'));
    assert_eq!(get_hex_power_from_nb_cards(4, 0), None);
}

#[test]
fn day7_hand_power() {
    let hand = Hand::parse(b"KTJJT 220").unwrap();
    assert_eq!(hand.cards, [13, 10, 11, 11, 10]);
    assert_eq!(hand.compute_hand_hex_value(), vec!['D', 'A', 'B', 'B', 'A']);
    assert_eq!(hand.compute_hand_hex_value_joker(), vec!['D', 'A', '0', '0', 'A']);
    assert_eq!(hand.compute_hand_power(), Some(0x2DABBA));
    assert_eq!(hand.compute_hand_power_joker(), Some(0x5DA00A));
}
