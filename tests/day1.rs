use aoc_days::day1::{
    extract_numbers_from_string, extract_words, get_number_from_line, get_number_from_line2, Day1,
};

#[test]
fn day1_test_day1_sol1() {
    let document_lines = vec![
        "1abc2".as_bytes().to_vec(),
        "pqr3stu8vwx".as_bytes().to_vec(),
        "a1b2c3d4e5f".as_bytes().to_vec(),
        "treb7uchet".as_bytes().to_vec(),
    ];
    let day1 = Day1 { document_lines };
    assert_eq!(day1.solution1(), "142");
}

#[test]
fn day1_test_day1_sol2() {
    let document_lines = vec![
        "two1nine".as_bytes().to_vec(),
        "eightwothree".as_bytes().to_vec(),
        "abcone2threexyz".as_bytes().to_vec(),
        "xtwone3four".as_bytes().to_vec(),
        "4nineeightseven2".as_bytes().to_vec(),
        "zoneight234".as_bytes().to_vec(),
        "7pqrstsixteen".as_bytes().to_vec(),
    ];
    let day1 = Day1 { document_lines };
    assert_eq!(day1.solution2(), "281");
}

#[test]
fn day1_make_day_reads_lines() {
    let day1 = Day1::make_day("1abc2\npqr3stu8vwx\na1b2c3d4e5f\ntreb7uchet\n");
    assert_eq!(day1.document_lines.len(), 4);
    assert_eq!(day1.solution1(), "142");
}

#[test]
fn day1_single_digit_counts_twice() {
    assert_eq!(get_number_from_line(b"treb7uchet"), Ok(77));
    assert_eq!(get_number_from_line(b"nodigits"), Err(()));
}

#[test]
fn day1_overlapping_words() {
    let table = extract_words();
    assert_eq!(extract_numbers_from_string(b"eightwothree", &table), vec![8, 2, 3]);
    assert_eq!(get_number_from_line2(b"zoneight234"), Ok(14));
    assert_eq!(get_number_from_line2(b"xyz"), Err(()));
}

#[test]
fn day1_line_without_digit_gives_no_answer() {
    let day1 = Day1::make_day("1abc2\nnothing\n");
    assert_eq!(day1.solution1(), "");
}
