use aoc_days::day15::{hash_algorithm, Day15, Instruction};

#[test]
fn test_hash() {
    assert_eq!(hash_algorithm("HASH"), 52);
    assert_eq!(hash_algorithm("rn=1"), 30);
}

#[test]
fn test_day15_sol1() {
    let day = Day15::make_day("rn=1,cm-,qp=3,cm=2,qp-,pc=4,ot=9,ab=5,pc-,pc=6,ot=7\n");
    assert_eq!(day.solution1(), "1320");
}

#[test]
fn day15_instructions() {
    let put = Instruction::parse(b"rn=1").unwrap();
    assert_eq!(put.get_label(), &b"rn".to_vec());
    let remove = Instruction::parse(b"cm-").unwrap();
    assert_eq!(remove.get_label(), &b"cm".to_vec());
    assert!(Instruction::parse(b"rn=x").is_none());
}

#[test]
fn test_day15_sol2() {
    let day = Day15::make_day("rn=1,cm-,qp=3,cm=2,qp-,pc=4,ot=9,ab=5,pc-,pc=6,ot=7\n");
    assert_eq!(day.solution2(), "145");
}

#[test]
fn day15_bad_step_gives_no_answer() {
    let day = Day15::make_day("rn=x,cm-");
    assert_eq!(day.solution2(), "");
}
