use aoc_days::day5::{merge_ranges, Day5, Transformer, TransformerLine};

const ALMANAC: &str = "seeds: 79 14 55 13

seed-to-soil map:
50 98 2
52 50 48

soil-to-fertilizer map:
0 15 37
37 52 2
39 0 15

fertilizer-to-water map:
49 53 8
0 11 42
42 0 7
57 7 4

water-to-light map:
88 18 7
18 25 70

light-to-temperature map:
45 77 23
81 45 19
68 64 13

temperature-to-humidity map:
0 69 1
1 0 69

humidity-to-location map:
60 56 37
56 93 4
";

#[test]
fn test_day5_sol1() {
    let day = Day5::make_day(ALMANAC).unwrap();
    assert_eq!(day.solution1(), "35");
}

#[test]
fn test_day5_sol2() {
    let day = Day5::make_day(ALMANAC).unwrap();
    assert_eq!(day.solution2(), "46");
}

#[test]
fn day5_conversions() {
    let day = Day5::make_day(ALMANAC).unwrap();
    assert_eq!(day.transformers.len(), 7);
    assert_eq!(day.transformers[0].transformer_lines[0].source_start, 50);
    assert_eq!(day.convert_quantity(79), 82);
    assert_eq!(day.get_ranges(), vec![79..93, 55..68]);
    assert_eq!(day.transformers[0].convert_quantity(98), 50);
    assert_eq!(day.transformers[0].convert_quantity(10), 10);
}

#[test]
fn day5_ranges() {
    let line = TransformerLine { destination_start: 100, source_start: 10, length: 5 };
    let res = line.map_range(5..20);
    assert_eq!(res.mapped_range, Some(100..105));
    assert_eq!(res.remaining_ranges, vec![5..10, 15..20]);
    let map = Transformer { transformer_lines: vec![line] };
    assert_eq!(map.map_range(5..20), vec![5..10, 15..20, 100..105]);
    let mut ranges = vec![10..12, 1..4, 3..8];
    merge_ranges(&mut ranges);
    assert_eq!(ranges, vec![1..8, 10..12]);
}
