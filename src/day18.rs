//! A dig plan: a closed path of straight trenches, and the number of cells
//! inside it and on it, by the shoelace formula and the boundary count.
use vstd::prelude::*;
use vstd::string::StringSliceAdditionalSpecFns;
use crate::text::{is_number, lines, number_value, parse_number, pieces, signed_decimal, split_lines, split_words, words};

verus! {

/// A length or coordinate of the plan.
pub type Num = i128;

/// A direction of digging.
#[derive(Clone, Copy, PartialEq, Eq, Debug, Structural)]
pub enum Direction {
    Up,
    Left,
    Down,
    Right,
}

/// The step of a direction, as (row, column).
pub open spec fn movement(d: Direction) -> (int, int) {
    match d {
        Direction::Up => (-1, 0),
        Direction::Left => (0, -1),
        Direction::Down => (1, 0),
        Direction::Right => (0, 1),
    }
}

impl Direction {
    /// The step of the direction, as (row, column).
    pub fn get_movement(&self) -> (r: (Num, Num))
        ensures
            r.0 as int == movement(*self).0 && r.1 as int == movement(*self).1,
    {
        match self {
            Direction::Up => (-1, 0),
            Direction::Left => (0, -1),
            Direction::Down => (1, 0),
            Direction::Right => (0, 1),
        }
    }
}

/// One trench: a direction and a length.
#[derive(Clone, Copy, Debug)]
pub struct DigInstruction {
    pub direction: Direction,
    pub nb_digs: Num,
}

/// After the first `k` trenches from (0, 0): the position, twice the signed
/// area swept so far, and the number of boundary cells dug.
pub open spec fn dig_state(ins: Seq<DigInstruction>, k: int) -> (int, int, int, int)
    decreases k,
{
    if k <= 0 {
        (0, 0, 0, 0)
    } else {
        let (r, c, area, boundary) = dig_state(ins, k - 1);
        let (dr, dc) = movement(ins[k - 1].direction);
        let n = ins[k - 1].nb_digs as int;
        let nr = r + dr * n;
        let nc = c + dc * n;
        let diff = if dr == 0 { nr * n * dc } else { -nc * n * dr };
        (nr, nc, area + diff, boundary + n)
    }
}

/// The number of cells inside the path or on it: half the absolute twice
/// area, plus half the boundary, plus one.
pub open spec fn inside_points(ins: Seq<DigInstruction>) -> int {
    let (_, _, area, boundary) = dig_state(ins, ins.len() as int);
    let a = if area < 0 { -area } else { area };
    a / 2 + boundary / 2 + 1
}

/// The plan is small enough for exact 128-bit arithmetic: fewer than 2^20
/// trenches, each shorter than 2^32.
pub open spec fn plan_ok(ins: Seq<DigInstruction>) -> bool {
    ins.len() < 0x10_0000 && forall|k: int| 0 <= k < ins.len() ==> 0 <= #[trigger] ins[k].nb_digs < 0x1_0000_0000
}

proof fn lemma_prod_bound(a: int, n: int)
    requires
        -0x10_0000_0000_0000 <= a <= 0x10_0000_0000_0000,
        0 <= n <= 0x1_0000_0000,
    ensures
        -0x10_0000_0000_0000_0000_0000 <= a * n <= 0x10_0000_0000_0000_0000_0000,
{
    let big: int = 0x10_0000_0000_0000;
    vstd::arithmetic::mul::lemma_mul_inequality(a, big, n);
    assert(a * n <= big * n);
    vstd::arithmetic::mul::lemma_mul_inequality(n, 0x1_0000_0000, big);
    assert(n * big <= 0x1_0000_0000 * big);
    vstd::arithmetic::mul::lemma_mul_is_commutative(n, big);
    assert(0x1_0000_0000 * big == 0x10_0000_0000_0000_0000_0000);
    assert(a * n <= 0x10_0000_0000_0000_0000_0000);
    vstd::arithmetic::mul::lemma_mul_inequality(-big, a, n);
    assert((-big) * n <= a * n);
    vstd::arithmetic::mul::lemma_mul_unary_negation(big, n);
    assert((-big) * n == -(big * n));
}

proof fn lemma_dig_bounds(ins: Seq<DigInstruction>, k: int)
    requires
        plan_ok(ins),
        0 <= k <= ins.len(),
    ensures
        ({
            let (r, c, area, boundary) = dig_state(ins, k);
            &&& -(k * 0x1_0000_0000) <= r <= k * 0x1_0000_0000
            &&& -(k * 0x1_0000_0000) <= c <= k * 0x1_0000_0000
            &&& 0 <= boundary <= k * 0x1_0000_0000
            &&& -(k * 0x10_0000_0000_0000_0000_0000) <= area <= k * 0x10_0000_0000_0000_0000_0000
            &&& -0x100_0000_0000_0000_0000_0000_0000 <= area <= 0x100_0000_0000_0000_0000_0000_0000
            &&& 0 <= boundary <= 0x10_0000_0000_0000
        }),
    decreases k,
{
    let (r0, c0, area0, boundary0) = dig_state(ins, k);
    assert(k <= 0x10_0000);
    lemma_dig_bounds_step(ins, k);
    vstd::arithmetic::mul::lemma_mul_inequality(k, 0x10_0000, 0x10_0000_0000_0000_0000_0000);
    vstd::arithmetic::mul::lemma_mul_inequality(k, 0x10_0000, 0x1_0000_0000);
    assert(0x10_0000 * 0x10_0000_0000_0000_0000_0000 == 0x100_0000_0000_0000_0000_0000_0000);
    assert(0x10_0000 * 0x1_0000_0000 == 0x10_0000_0000_0000);
    assert(k * 0x10_0000_0000_0000_0000_0000 <= 0x100_0000_0000_0000_0000_0000_0000);
    assert(k * 0x1_0000_0000 <= 0x10_0000_0000_0000);
    assert(-0x100_0000_0000_0000_0000_0000_0000 <= area0 <= 0x100_0000_0000_0000_0000_0000_0000);
    assert(0 <= boundary0 <= 0x10_0000_0000_0000);
}

proof fn lemma_dig_bounds_step(ins: Seq<DigInstruction>, k: int)
    requires
        plan_ok(ins),
        0 <= k <= ins.len(),
    ensures
        ({
            let (r, c, area, boundary) = dig_state(ins, k);
            &&& -(k * 0x1_0000_0000) <= r <= k * 0x1_0000_0000
            &&& -(k * 0x1_0000_0000) <= c <= k * 0x1_0000_0000
            &&& 0 <= boundary <= k * 0x1_0000_0000
            &&& -(k * 0x10_0000_0000_0000_0000_0000) <= area <= k * 0x10_0000_0000_0000_0000_0000
        }),
    decreases k,
{
    if k > 0 {
        lemma_dig_bounds_step(ins, k - 1);
        let (r, c, area, boundary) = dig_state(ins, k - 1);
        let (dr, dc) = movement(ins[k - 1].direction);
        let n = ins[k - 1].nb_digs as int;
        assert(0 <= n < 0x1_0000_0000);
        let nr = r + dr * n;
        let nc = c + dc * n;
        assert(-(k * 0x1_0000_0000) <= nr <= k * 0x1_0000_0000) by (nonlinear_arith)
            requires -((k - 1) * 0x1_0000_0000) <= r <= (k - 1) * 0x1_0000_0000, -1 <= dr <= 1, 0 <= n < 0x1_0000_0000, nr == r + dr * n;
        assert(-(k * 0x1_0000_0000) <= nc <= k * 0x1_0000_0000) by (nonlinear_arith)
            requires -((k - 1) * 0x1_0000_0000) <= c <= (k - 1) * 0x1_0000_0000, -1 <= dc <= 1, 0 <= n < 0x1_0000_0000, nc == c + dc * n;
        let diff = if dr == 0 { nr * n * dc } else { -nc * n * dr };
        vstd::arithmetic::mul::lemma_mul_inequality(k, 0x10_0000, 0x1_0000_0000);
        assert(-0x10_0000_0000_0000 <= nr <= 0x10_0000_0000_0000);
        assert(-0x10_0000_0000_0000 <= nc <= 0x10_0000_0000_0000);
        lemma_prod_bound(nr, n);
        lemma_prod_bound(nc, n);
        assert(-0x10_0000_0000_0000_0000_0000 <= diff <= 0x10_0000_0000_0000_0000_0000) by (nonlinear_arith)
            requires
                -0x10_0000_0000_0000_0000_0000 <= nr * n <= 0x10_0000_0000_0000_0000_0000,
                -0x10_0000_0000_0000_0000_0000 <= nc * n <= 0x10_0000_0000_0000_0000_0000,
                -1 <= dr <= 1, -1 <= dc <= 1,
                diff == (if dr == 0 { nr * n * dc } else { -nc * n * dr }),
        ;
    }
}

/// The number of cells inside the path that `instructions` dig, or on it.
fn inside_points_of(instructions: &Vec<DigInstruction>) -> (r: Num)
    requires
        plan_ok(instructions@),
    ensures
        r == inside_points(instructions@),
{
    let ghost ins = instructions@;
    let mut current: (Num, Num) = (0, 0);
    let mut double_area: Num = 0;
    let mut boundary_points: Num = 0;
    let mut k: usize = 0;
    while k < instructions.len()
        invariant
            k <= ins.len(),
            ins == instructions@,
            plan_ok(ins),
            dig_state(ins, k as int) == (current.0 as int, current.1 as int, double_area as int, boundary_points as int),
        decreases ins.len() - k,
    {
        proof {
            lemma_dig_bounds(ins, k + 1);
            lemma_dig_bounds(ins, k as int);
            assert(-0x10_0000 * 0x1_0000_0000 <= current.0 + movement(ins[k as int].direction).0 * ins[k as int].nb_digs <= 0x10_0000 * 0x1_0000_0000);
            assert(-0x10_0000 * 0x1_0000_0000 <= current.1 + movement(ins[k as int].direction).1 * ins[k as int].nb_digs <= 0x10_0000 * 0x1_0000_0000);
        }
        let ins_k = instructions[k];
        let (dr, dc) = ins_k.direction.get_movement();
        let n = ins_k.nb_digs;
        assert(0 <= n < 0x1_0000_0000);
        let nr = current.0 + dr * n;
        let nc = current.1 + dc * n;
        assert(-0x100_0000_0000_0000_0000_0000_0000 <= nr * n <= 0x100_0000_0000_0000_0000_0000_0000) by (nonlinear_arith)
            requires -0x10_0000 * 0x1_0000_0000 <= nr <= 0x10_0000 * 0x1_0000_0000, 0 <= n < 0x1_0000_0000;
        assert(-0x100_0000_0000_0000_0000_0000_0000 <= nc * n <= 0x100_0000_0000_0000_0000_0000_0000) by (nonlinear_arith)
            requires -0x10_0000 * 0x1_0000_0000 <= nc <= 0x10_0000 * 0x1_0000_0000, 0 <= n < 0x1_0000_0000;
        let diff = if dr == 0 {
            nr * n * dc
        } else {
            let t = nc * n;
            assert(-nc * n * dr == -(t * dr)) by (nonlinear_arith) requires t == nc * n;
            -(t * dr)
        };
        double_area = double_area + diff;
        boundary_points = boundary_points + n;
        current = (nr, nc);
        k = k + 1;
    }
    proof {
        lemma_dig_bounds(ins, ins.len() as int);
        assert(-0x10_0000 * 0x10_0000_0000_0000_0000_0000 <= double_area <= 0x10_0000 * 0x10_0000_0000_0000_0000_0000);
    }
    let a = if double_area < 0 { -double_area } else { double_area };
    a / 2 + boundary_points / 2 + 1
}

/// The direction that a letter names.
pub open spec fn direction_of(b: u8) -> Option<Direction> {
    if b == 85 {
        Some(Direction::Up)
    } else if b == 76 {
        Some(Direction::Left)
    } else if b == 68 {
        Some(Direction::Down)
    } else if b == 82 {
        Some(Direction::Right)
    } else {
        None
    }
}

/// The direction that a digit of a colour code names.
pub open spec fn direction_of_digit(b: u8) -> Option<Direction> {
    if b == 48 {
        Some(Direction::Right)
    } else if b == 49 {
        Some(Direction::Down)
    } else if b == 50 {
        Some(Direction::Left)
    } else if b == 51 {
        Some(Direction::Up)
    } else {
        None
    }
}

impl Direction {
    /// The direction that a letter names: `U`, `L`, `D` or `R`.
    pub fn from_letter(b: u8) -> (r: Option<Direction>)
        ensures
            r == direction_of(b),
    {
        if b == 85 {
            Some(Direction::Up)
        } else if b == 76 {
            Some(Direction::Left)
        } else if b == 68 {
            Some(Direction::Down)
        } else if b == 82 {
            Some(Direction::Right)
        } else {
            None
        }
    }
}

/// The value of a hexadecimal digit.
pub open spec fn hex_digit(b: u8) -> Option<nat> {
    if 48 <= b <= 57 {
        Some((b - 48) as nat)
    } else if 97 <= b <= 102 {
        Some((b - 87) as nat)
    } else if 65 <= b <= 70 {
        Some((b - 55) as nat)
    } else {
        None
    }
}

/// The number that the hexadecimal digits `s` write, if each is one.
pub open spec fn hex_value(s: Seq<u8>) -> Option<nat>
    decreases s.len(),
{
    if s.len() == 0 {
        Some(0)
    } else {
        match (hex_value(s.drop_last()), hex_digit(s.last())) {
            (Some(v), Some(d)) => Some(v * 16 + d),
            _ => None,
        }
    }
}

/// The two trenches that a line `<letter> <length> (#<5 hex digits><digit>)`
/// writes: the plain one, and the one that the colour code writes.
pub open spec fn parse_line(line: Seq<u8>) -> Option<(DigInstruction, DigInstruction)> {
    let ws = words(line);
    if ws.len() < 3 || ws[0].len() == 0 || ws[2].len() < 8 {
        None
    } else {
        match (direction_of(ws[0][0]), direction_of_digit(ws[2][7]), hex_value(ws[2].subrange(2, 7))) {
            (Some(d1), Some(d2), Some(h)) => if is_number(ws[1]) && number_value(ws[1]) <= u64::MAX {
                Some((
                    DigInstruction { direction: d1, nb_digs: number_value(ws[1]) as i128 },
                    DigInstruction { direction: d2, nb_digs: h as i128 },
                ))
            } else {
                None
            },
            _ => None,
        }
    }
}

proof fn lemma_hex_bound(s: Seq<u8>)
    ensures
        hex_value(s) matches Some(v) ==> v < vstd::arithmetic::power2::pow2(4 * s.len()),
    decreases s.len(),
{
    if s.len() > 0 {
        lemma_hex_bound(s.drop_last());
        vstd::arithmetic::power2::lemma_pow2_adds(4 * (s.len() - 1) as nat, 4);
        vstd::arithmetic::power2::lemma2_to64();
    } else {
        vstd::arithmetic::power2::lemma2_to64();
    }
}

impl DigInstruction {
    /// Reads a line `<letter> <length> (#<5 hex digits><digit>)`: the plain
    /// trench, and the one that the colour code writes.
    pub fn get_two_instructions_from_line(line: &[u8]) -> (r: Option<(DigInstruction, DigInstruction)>)
        ensures
            match parse_line(line@) {
                Some((a, b)) => r matches Some((x, y)) && x == a && y == b,
                None => r is None,
            },
    {
        let ws = split_words(line);
        assert(pieces(ws@) == words(line@));
        if ws.len() < 3 || ws[0].len() == 0 || ws[2].len() < 8 {
            proof {
                if ws@.len() >= 3 {
                    assert(pieces(ws@)[0] == ws@[0]@);
                    assert(pieces(ws@)[2] == ws@[2]@);
                }
            }
            return None;
        }
        assert(pieces(ws@)[0] == ws@[0]@);
        assert(pieces(ws@)[1] == ws@[1]@);
        assert(pieces(ws@)[2] == ws@[2]@);
        let d1 = match Direction::from_letter(ws[0][0]) {
            Some(d) => d,
            None => {
                return None;
            },
        };
        let c = ws[2][7];
        let d2 = if c == 48 {
            Direction::Right
        } else if c == 49 {
            Direction::Down
        } else if c == 50 {
            Direction::Left
        } else if c == 51 {
            Direction::Up
        } else {
            return None;
        };
        let code = &ws[2];
        let mut h: u64 = 0;
        let mut i: usize = 2;
        let ghost hex = code@.subrange(2, 7);
        assert(hex.subrange(0, 0) =~= seq![]);
        while i < 7
            invariant
                2 <= i <= 7,
                code@.len() >= 8,
                hex == code@.subrange(2, 7),
                pieces(ws@) == words(line@),
                ws@.len() >= 3,
                code@ == ws@[2]@,
                pieces(ws@)[2] == ws@[2]@,
                hex_value(hex.subrange(0, i - 2)) == Some(h as nat),
                h < 0x10_0000,
            decreases 7 - i,
        {
            assert(hex.subrange(0, i - 1).drop_last() =~= hex.subrange(0, i - 2));
            assert(hex.subrange(0, i - 1).last() == code@[i as int]);
            proof {
                lemma_hex_bound(hex.subrange(0, i - 1));
                vstd::arithmetic::power2::lemma_pow2_strictly_increases((4 * (i - 1)) as nat, 21);
                vstd::arithmetic::power2::lemma2_to64();
            }
            let b = code[i];
            let d: u64 = if 48 <= b && b <= 57 {
                (b - 48) as u64
            } else if 97 <= b && b <= 102 {
                (b - 87) as u64
            } else if 65 <= b && b <= 70 {
                (b - 55) as u64
            } else {
                proof {
                    lemma_hex_none(hex, i - 1);
                }
                return None;
            };
            h = h * 16 + d;
            i = i + 1;
        }
        assert(hex.subrange(0, 5) =~= hex);
        let n = match parse_number(ws[1].as_slice()) {
            Some(n) => n,
            None => {
                return None;
            },
        };
        Some((DigInstruction { direction: d1, nb_digs: n as i128 }, DigInstruction { direction: d2, nb_digs: h as i128 }))
    }
}

proof fn lemma_hex_none(s: Seq<u8>, i: int)
    requires
        0 <= i <= s.len(),
        hex_value(s.subrange(0, i)) is None,
    ensures
        hex_value(s) is None,
    decreases s.len() - i,
{
    if i < s.len() {
        assert(s.subrange(0, i + 1).drop_last() =~= s.subrange(0, i));
        lemma_hex_none(s, i + 1);
    } else {
        assert(s.subrange(0, i) =~= s);
    }
}

/// A dig plan, read plainly and through the colour codes.
pub struct Day18 {
    pub dig_instructions: Vec<DigInstruction>,
    pub dig_instructions_alternate: Vec<DigInstruction>,
}

/// The trench pairs that the lines write, if each writes one.
pub open spec fn parse_plan(ls: Seq<Seq<u8>>) -> Option<Seq<(DigInstruction, DigInstruction)>>
    decreases ls.len(),
{
    if ls.len() == 0 {
        Some(seq![])
    } else {
        match (parse_plan(ls.drop_last()), parse_line(ls.last())) {
            (Some(v), Some(p)) => Some(v.push(p)),
            _ => None,
        }
    }
}

proof fn lemma_plan_none(ls: Seq<Seq<u8>>, i: int)
    requires
        0 <= i <= ls.len(),
        parse_plan(ls.subrange(0, i)) is None,
    ensures
        parse_plan(ls) is None,
    decreases ls.len() - i,
{
    if i < ls.len() {
        assert(ls.subrange(0, i + 1).drop_last() =~= ls.subrange(0, i));
        lemma_plan_none(ls, i + 1);
    } else {
        assert(ls.subrange(0, i) =~= ls);
    }
}

/// Whether the plan is small enough for exact 128-bit arithmetic.
fn check_plan(ins: &Vec<DigInstruction>) -> (r: bool)
    ensures
        r == plan_ok(ins@),
{
    if ins.len() >= 0x10_0000 {
        return false;
    }
    let mut k: usize = 0;
    while k < ins.len()
        invariant
            k <= ins@.len() < 0x10_0000,
            forall|q: int| 0 <= q < k ==> 0 <= #[trigger] ins@[q].nb_digs < 0x1_0000_0000,
        decreases ins@.len() - k,
    {
        if ins[k].nb_digs < 0 || ins[k].nb_digs >= 0x1_0000_0000 {
            return false;
        }
        k = k + 1;
    }
    true
}

/// The text of the number of cells of a plan, or the empty text when the
/// plan is too large.
pub open spec fn plan_answer(ins: Seq<DigInstruction>) -> Seq<char> {
    if plan_ok(ins) {
        signed_decimal(inside_points(ins))
    } else {
        Seq::empty()
    }
}

impl Day18 {
    /// Reads the plan, one trench pair per line; `None` if a line does not
    /// read.
    pub fn make_day(input: &str) -> (r: Option<Day18>)
        ensures
            match parse_plan(lines(input.spec_bytes())) {
                Some(v) => r matches Some(d) && d.dig_instructions@ == v.map_values(|p: (DigInstruction, DigInstruction)| p.0)
                    && d.dig_instructions_alternate@ == v.map_values(|p: (DigInstruction, DigInstruction)| p.1),
                None => r is None,
            },
    {
        let ls = split_lines(input.as_bytes());
        let ghost ps = pieces(ls@);
        let mut a: Vec<DigInstruction> = Vec::new();
        let mut b: Vec<DigInstruction> = Vec::new();
        let ghost mut pairs: Seq<(DigInstruction, DigInstruction)> = seq![];
        let mut i: usize = 0;
        assert(ps.subrange(0, 0) =~= seq![]);
        while i < ls.len()
            invariant
                i <= ls@.len(),
                ps == pieces(ls@),
                ps == lines(input.spec_bytes()),
                parse_plan(ps.subrange(0, i as int)) == Some(pairs),
                a@ == pairs.map_values(|p: (DigInstruction, DigInstruction)| p.0),
                b@ == pairs.map_values(|p: (DigInstruction, DigInstruction)| p.1),
            decreases ls@.len() - i,
        {
            assert(ps.subrange(0, i + 1).drop_last() =~= ps.subrange(0, i as int));
            assert(ps.subrange(0, i + 1).last() == ls@[i as int]@);
            match DigInstruction::get_two_instructions_from_line(ls[i].as_slice()) {
                Some((x, y)) => {
                    a.push(x);
                    b.push(y);
                    proof {
                        pairs = pairs.push((x, y));
                    }
                    assert(a@ =~= pairs.map_values(|p: (DigInstruction, DigInstruction)| p.0));
                    assert(b@ =~= pairs.map_values(|p: (DigInstruction, DigInstruction)| p.1));
                },
                None => {
                    proof { lemma_plan_none(ps, i + 1); }
                    return None;
                },
            }
            i = i + 1;
        }
        assert(ps.subrange(0, i as int) =~= ps);
        Some(Day18 { dig_instructions: a, dig_instructions_alternate: b })
    }

    /// The number of cells inside the path or on it, for the plain plan or
    /// the colour-code plan.
    pub fn compute_inside_points(&self, alternate: bool) -> (r: Num)
        requires
            plan_ok(if alternate { self.dig_instructions_alternate@ } else { self.dig_instructions@ }),
        ensures
            r == inside_points(if alternate { self.dig_instructions_alternate@ } else { self.dig_instructions@ }),
    {
        if alternate {
            inside_points_of(&self.dig_instructions_alternate)
        } else {
            inside_points_of(&self.dig_instructions)
        }
    }

    /// The number of cells of the plain plan.
    pub fn solution1(&self) -> (r: String)
        ensures
            r@ == plan_answer(self.dig_instructions@),
    {
        if !check_plan(&self.dig_instructions) {
            return String::new();
        }
        crate::text::i128_text(self.compute_inside_points(false))
    }

    /// The number of cells of the colour-code plan.
    pub fn solution2(&self) -> (r: String)
        ensures
            r@ == plan_answer(self.dig_instructions_alternate@),
    {
        if !check_plan(&self.dig_instructions_alternate) {
            return String::new();
        }
        crate::text::i128_text(self.compute_inside_points(true))
    }
}

} // verus!
