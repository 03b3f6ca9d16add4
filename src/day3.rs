//! Engine schematics: numbers on a grid, and the symbols next to them.
use vstd::prelude::*;
use vstd::string::StringSliceAdditionalSpecFns;
use crate::text::{answer, answer_text, lines, pieces, split_lines};

verus! {

/// One cell of a schematic.
#[derive(Clone, Copy, PartialEq, Eq, Debug, Structural)]
pub enum EngineElement {
    Digit(u32),
    Symbol(u8),
    Period,
}

/// A number of the schematic: its value, its row and its first and last
/// columns; `marked` once a symbol is found next to it.
#[derive(Clone, Copy, PartialEq, Eq, Debug, Structural)]
pub struct EngineNumber {
    pub value: u32,
    pub row: i32,
    pub start_col: i32,
    pub end_col: i32,
    pub marked: bool,
}

/// A number as read, before the symbols are looked at.
pub struct NumberView {
    pub value: nat,
    pub row: int,
    pub start_col: int,
    pub end_col: int,
}

/// The numbers of row `row` from column `c` on, the digits read so far
/// being `cur` (their first column and value), up to column `width`.
pub open spec fn scan(cells: Seq<EngineElement>, row: int, width: int, c: int, cur: Option<(int, nat)>) -> Seq<NumberView>
    decreases width - c,
{
    if c >= width {
        match cur {
            Some((s, v)) => seq![NumberView { value: v, row, start_col: s, end_col: width - 1 }],
            None => seq![],
        }
    } else {
        match (cur, cells[c]) {
            (None, EngineElement::Digit(d)) => scan(cells, row, width, c + 1, Some((c, d as nat))),
            (Some((s, v)), EngineElement::Digit(d)) => scan(cells, row, width, c + 1, Some((s, 10 * v + d as nat))),
            (None, _) => scan(cells, row, width, c + 1, None),
            (Some((s, v)), _) => seq![NumberView { value: v, row, start_col: s, end_col: c - 1 }] + scan(
                cells,
                row,
                width,
                c + 1,
                None,
            ),
        }
    }
}

/// The numbers of the first `n` rows of `g`, each row read up to the width
/// of the first.
pub open spec fn numbers_upto(g: Seq<Seq<EngineElement>>, n: int) -> Seq<NumberView>
    decreases n,
{
    if n <= 0 {
        seq![]
    } else {
        numbers_upto(g, n - 1) + scan(g[n - 1], n - 1, g[0].len() as int, 0, None)
    }
}

/// The mathematical form of an engine number.
pub open spec fn number_view(e: EngineNumber) -> NumberView {
    NumberView { value: e.value as nat, row: e.row as int, start_col: e.start_col as int, end_col: e.end_col as int }
}

/// The rows of a schematic.
pub open spec fn grid_view(s: Seq<Vec<EngineElement>>) -> Seq<Seq<EngineElement>> {
    s.map_values(|r: Vec<EngineElement>| r@)
}

/// Each row is at least as wide as the first, the sizes fit in an `i32`,
/// and every digit is below 10.
pub open spec fn well_formed(g: Seq<Seq<EngineElement>>) -> bool {
    &&& g.len() < i32::MAX
    &&& (g.len() > 0 ==> g[0].len() < i32::MAX)
    &&& forall|r: int| 0 <= r < g.len() ==> (#[trigger] g[r]).len() >= g[0].len()
    &&& forall|r: int, c: int| 0 <= r < g.len() && 0 <= c < g[r].len() ==> (#[trigger] g[r][c] matches EngineElement::Digit(d) ==> d < 10)
}

/// Every number of the schematic fits in 32 bits.
pub open spec fn numbers_fit(g: Seq<Seq<EngineElement>>) -> bool {
    forall|k: int| 0 <= k < numbers_upto(g, g.len() as int).len() ==> (#[trigger] numbers_upto(g, g.len() as int)[k]).value <= u32::MAX
}

/// An engine schematic.
pub struct Day3 {
    pub engine_schematic: Vec<Vec<EngineElement>>,
}

impl EngineNumber {
    /// The cell at `row`, `col` touches the number, diagonals included.
    pub fn is_next_to(&self, row: i32, col: i32) -> (r: bool)
        ensures
            r == (self.row - 1 <= row <= self.row + 1 && self.start_col - 1 <= col <= self.end_col + 1),
    {
        (self.row as i64 - 1 <= row as i64 && row as i64 <= self.row as i64 + 1) && (self.start_col as i64 - 1
            <= col as i64 && col as i64 <= self.end_col as i64 + 1)
    }

    /// Marks the number if the cell at `row`, `col` touches it.
    pub fn try_mark(&mut self, row: i32, col: i32)
        ensures
            final(self).marked == (old(self).marked || (old(self).row - 1 <= row <= old(self).row + 1
                && old(self).start_col - 1 <= col <= old(self).end_col + 1)),
            final(self).value == old(self).value,
            final(self).row == old(self).row,
            final(self).start_col == old(self).start_col,
            final(self).end_col == old(self).end_col,
    {
        let next = self.is_next_to(row, col);
        self.marked = self.marked || next;
    }
}

proof fn lemma_scan_first(cells: Seq<EngineElement>, row: int, width: int, c: int, s: int, v: nat)
    ensures
        scan(cells, row, width, c, Some((s, v))).len() >= 1,
        scan(cells, row, width, c, Some((s, v)))[0].value >= v,
    decreases width - c,
{
    if c < width {
        match cells[c] {
            EngineElement::Digit(d) => {
                lemma_scan_first(cells, row, width, c + 1, s, 10 * v + d as nat);
            },
            _ => {},
        }
    }
}

proof fn lemma_numbers_prefix(g: Seq<Seq<EngineElement>>, n: int, m: int)
    requires
        0 <= n <= m,
    ensures
        numbers_upto(g, n).len() <= numbers_upto(g, m).len(),
        forall|k: int| 0 <= k < numbers_upto(g, n).len() ==> #[trigger] numbers_upto(g, m)[k] == numbers_upto(g, n)[k],
    decreases m - n,
{
    if n < m {
        lemma_numbers_prefix(g, n, m - 1);
        assert forall|k: int| 0 <= k < numbers_upto(g, n).len() implies #[trigger] numbers_upto(g, m)[k] == numbers_upto(g, n)[k] by {
            assert(numbers_upto(g, m)[k] == numbers_upto(g, m - 1)[k]);
        }
    }
}

/// The mathematical form of a list of engine numbers.
pub open spec fn number_views(v: Seq<EngineNumber>) -> Seq<NumberView> {
    v.map_values(|e: EngineNumber| number_view(e))
}

/// The digits read so far, in mathematical form.
pub open spec fn cur_view(cur: Option<(usize, u32)>) -> Option<(int, nat)> {
    match cur {
        Some((s, v)) => Some((s as int, v as nat)),
        None => None,
    }
}

impl Day3 {
    /// The numbers of the schematic, row by row, each unmarked; `None` if
    /// one does not fit in 32 bits.
    fn numbers_checked(&self) -> (r: Option<Vec<EngineNumber>>)
        requires
            well_formed(grid_view(self.engine_schematic@)),
        ensures
            r is Some <==> numbers_fit(grid_view(self.engine_schematic@)),
            r matches Some(v) ==> number_views(v@) == numbers_upto(grid_view(self.engine_schematic@), self.engine_schematic@.len() as int)
                && forall|k: int| 0 <= k < v@.len() ==> !(#[trigger] v@[k]).marked,
    {
        let ghost g = grid_view(self.engine_schematic@);
        let mut engine_numbers: Vec<EngineNumber> = Vec::new();
        let rows = self.engine_schematic.len();
        if rows == 0 {
            assert(number_views(engine_numbers@) =~= seq![]);
            return Some(engine_numbers);
        }
        let width = self.engine_schematic[0].len();
        assert(g[0] == self.engine_schematic@[0]@);
        let mut row: usize = 0;
        assert(number_views(engine_numbers@) =~= numbers_upto(g, 0));
        while row < rows
            invariant
                row <= rows == g.len(),
                g == grid_view(self.engine_schematic@),
                width == g[0].len(),
                well_formed(g),
                number_views(engine_numbers@) == numbers_upto(g, row as int),
                forall|k: int| 0 <= k < engine_numbers@.len() ==> (#[trigger] numbers_upto(g, row as int)[k]).value <= u32::MAX,
                forall|k: int| 0 <= k < engine_numbers@.len() ==> !(#[trigger] engine_numbers@[k]).marked,
            decreases rows - row,
        {
            let line = &self.engine_schematic[row];
            assert(g[row as int] == line@);
            assert(line@.len() >= width);
            proof {
                lemma_numbers_prefix(g, row + 1, g.len() as int);
            }
            let ghost target = numbers_upto(g, row + 1);
            let mut cur: Option<(usize, u32)> = None;
            let mut column: usize = 0;
            while column < width
                invariant
                    column <= width == g[0].len(),
                    row < rows == g.len(),
                    g == grid_view(self.engine_schematic@),
                    line@ == g[row as int],
                    line@.len() >= width,
                    well_formed(g),
                    target == numbers_upto(g, row + 1),
                    forall|k: int| 0 <= k < engine_numbers@.len() ==> (#[trigger] number_views(engine_numbers@)[k]).value <= u32::MAX,
                    target.len() <= numbers_upto(g, g.len() as int).len(),
                    forall|k: int| 0 <= k < target.len() ==> #[trigger] numbers_upto(g, g.len() as int)[k] == target[k],
                    number_views(engine_numbers@) + scan(line@, row as int, width as int, column as int, cur_view(cur)) == target,
                    cur matches Some((st, _)) ==> st < column,
                    forall|k: int| 0 <= k < engine_numbers@.len() ==> !(#[trigger] engine_numbers@[k]).marked,
                decreases width - column,
            {
                let ghost before = number_views(engine_numbers@);
                match (cur, line[column]) {
                    (None, EngineElement::Digit(d)) => {
                        cur = Some((column, d));
                    },
                    (Some((col_num, num)), EngineElement::Digit(d)) => {
                        let next = match num.checked_mul(10) {
                            Some(t) => t.checked_add(d),
                            None => None,
                        };
                        match next {
                            Some(n) => {
                                cur = Some((col_num, n));
                            },
                            None => {
                                proof {
                                    lemma_scan_first(line@, row as int, width as int, column + 1, col_num as int, 10 * (num as nat) + d as nat);
                                    let k = before.len() as int;
                                    assert(target[k] == scan(line@, row as int, width as int, column + 1, Some((col_num as int, 10 * (num as nat) + d as nat)))[0]);
                                    assert(numbers_upto(g, g.len() as int)[k].value > u32::MAX);
                                }
                                return None;
                            },
                        }
                    },
                    (None, _) => {},
                    (Some((col_num, num)), _) => {
                        cur = None;
                        engine_numbers.push(EngineNumber {
                            value: num,
                            row: row as i32,
                            start_col: col_num as i32,
                            end_col: column as i32 - 1,
                            marked: false,
                        });
                        assert(number_views(engine_numbers@) =~= before.push(NumberView {
                            value: num as nat,
                            row: row as int,
                            start_col: col_num as int,
                            end_col: column - 1,
                        }));
                    },
                }
                column = column + 1;
            }
            assert forall|k: int| 0 <= k < engine_numbers@.len() implies (#[trigger] number_views(engine_numbers@)[k]).value <= u32::MAX by {}
            if let Some((col_num, num)) = cur {
                let ghost before = number_views(engine_numbers@);
                engine_numbers.push(EngineNumber {
                    value: num,
                    row: row as i32,
                    start_col: col_num as i32,
                    end_col: width as i32 - 1,
                    marked: false,
                });
                assert(number_views(engine_numbers@) =~= before.push(NumberView {
                    value: num as nat,
                    row: row as int,
                    start_col: col_num as int,
                    end_col: width - 1,
                }));
            } else {
                assert(number_views(engine_numbers@) + seq![] =~= number_views(engine_numbers@));
            }
            assert forall|k: int| 0 <= k < engine_numbers@.len() implies (#[trigger] numbers_upto(g, row + 1)[k]).value <= u32::MAX by {
                assert(numbers_upto(g, row + 1)[k] == number_views(engine_numbers@)[k]);
            }
            row = row + 1;
        }
        assert(numbers_fit(g)) by {
            assert forall|k: int| 0 <= k < numbers_upto(g, g.len() as int).len() implies (#[trigger] numbers_upto(g, g.len() as int)[k]).value <= u32::MAX by {
            }
        }
        Some(engine_numbers)
    }

    /// The numbers of the schematic, row by row, each unmarked.
    pub fn construct_engine_numbers(&self) -> (r: Vec<EngineNumber>)
        requires
            well_formed(grid_view(self.engine_schematic@)),
            numbers_fit(grid_view(self.engine_schematic@)),
        ensures
            number_views(r@) == numbers_upto(grid_view(self.engine_schematic@), self.engine_schematic@.len() as int),
            forall|k: int| 0 <= k < r@.len() ==> !(#[trigger] r@[k]).marked,
    {
        match self.numbers_checked() {
            Some(v) => v,
            None => Vec::new(),
        }
    }
}

/// The cell that a byte stands for.
pub open spec fn element_of(b: u8) -> EngineElement {
    if b == 46 {
        EngineElement::Period
    } else if 48 <= b <= 57 {
        EngineElement::Digit((b - 48) as u32)
    } else {
        EngineElement::Symbol(b)
    }
}

/// A symbol cell at `r`, `c` touches the number `n`.
pub open spec fn touches(n: NumberView, r: int, c: int) -> bool {
    n.row - 1 <= r <= n.row + 1 && n.start_col - 1 <= c <= n.end_col + 1
}

/// Some symbol of `g` touches the number `n`.
pub open spec fn next_to_symbol(g: Seq<Seq<EngineElement>>, n: NumberView) -> bool {
    exists|r: int, c: int|
        0 <= r < g.len() && 0 <= c < g[r].len() && (#[trigger] g[r][c]) is Symbol && touches(n, r, c)
}

/// The sum of the values of the first `k` numbers that a symbol touches.
pub open spec fn part_sum(g: Seq<Seq<EngineElement>>, ns: Seq<NumberView>, k: int) -> nat
    decreases k,
{
    if k <= 0 {
        0
    } else {
        part_sum(g, ns, k - 1) + if next_to_symbol(g, ns[k - 1]) { ns[k - 1].value } else { 0 }
    }
}

/// The number of the first `k` numbers that the cell `r`, `c` touches.
pub open spec fn adjacent_count(ns: Seq<NumberView>, r: int, c: int, k: int) -> nat
    decreases k,
{
    if k <= 0 {
        0
    } else {
        adjacent_count(ns, r, c, k - 1) + if touches(ns[k - 1], r, c) { 1nat } else { 0nat }
    }
}

/// The product of the values of the first `k` numbers that the cell `r`,
/// `c` touches.
pub open spec fn adjacent_product(ns: Seq<NumberView>, r: int, c: int, k: int) -> nat
    decreases k,
{
    if k <= 0 {
        1
    } else {
        adjacent_product(ns, r, c, k - 1) * if touches(ns[k - 1], r, c) { ns[k - 1].value } else { 1 }
    }
}

/// The gear ratio of the cell `r`, `c`: the product of the two numbers it
/// touches if it is a `*` touching exactly two, else 0.
pub open spec fn gear_ratio(g: Seq<Seq<EngineElement>>, ns: Seq<NumberView>, r: int, c: int) -> nat {
    if g[r][c] == EngineElement::Symbol(42) && adjacent_count(ns, r, c, ns.len() as int) == 2 {
        adjacent_product(ns, r, c, ns.len() as int)
    } else {
        0
    }
}

/// The sum of the gear ratios of the first `c` cells of row `r`.
pub open spec fn row_gears(g: Seq<Seq<EngineElement>>, ns: Seq<NumberView>, r: int, c: int) -> nat
    decreases c,
{
    if c <= 0 {
        0
    } else {
        row_gears(g, ns, r, c - 1) + gear_ratio(g, ns, r, c - 1)
    }
}

/// The sum of the gear ratios of the first `r` rows.
pub open spec fn gear_sum(g: Seq<Seq<EngineElement>>, ns: Seq<NumberView>, r: int) -> nat
    decreases r,
{
    if r <= 0 {
        0
    } else {
        gear_sum(g, ns, r - 1) + row_gears(g, ns, r - 1, g[r - 1].len() as int)
    }
}

/// The answer of the schematic `g` through `f` on its numbers, when it is
/// well formed and its numbers fit in 32 bits.
pub open spec fn schematic_answer(g: Seq<Seq<EngineElement>>, total: nat) -> Seq<char> {
    if well_formed(g) && numbers_fit(g) {
        answer(Some(total))
    } else {
        Seq::empty()
    }
}

proof fn lemma_part_sum_grows(g: Seq<Seq<EngineElement>>, ns: Seq<NumberView>, i: int, n: int)
    requires
        0 <= i <= n,
    ensures
        part_sum(g, ns, i) <= part_sum(g, ns, n),
    decreases n - i,
{
    if i < n {
        lemma_part_sum_grows(g, ns, i, n - 1);
    }
}

proof fn lemma_gears_grow(g: Seq<Seq<EngineElement>>, ns: Seq<NumberView>, r: int, c: int)
    requires
        0 <= r < g.len(),
        0 <= c <= g[r].len(),
    ensures
        gear_sum(g, ns, r) + row_gears(g, ns, r, c) <= gear_sum(g, ns, g.len() as int),
    decreases g.len() - r, g[r].len() - c,
{
    if c < g[r].len() {
        lemma_gears_grow(g, ns, r, c + 1);
    } else if r + 1 < g.len() {
        lemma_gears_grow(g, ns, r + 1, 0);
    } else {
    }
}

impl Day3 {
    /// Reads the schematic: `.` is empty, a digit is a digit, anything else
    /// is a symbol.
    pub fn make_day(input: &str) -> (r: Day3)
        ensures
            grid_view(r.engine_schematic@) == lines(input.spec_bytes()).map_values(|l: Seq<u8>| l.map_values(|b: u8| element_of(b))),
    {
        let ls = split_lines(input.as_bytes());
        let ghost target = pieces(ls@).map_values(|l: Seq<u8>| l.map_values(|b: u8| element_of(b)));
        let mut engine_schematic: Vec<Vec<EngineElement>> = Vec::new();
        let mut i: usize = 0;
        while i < ls.len()
            invariant
                i <= ls@.len(),
                target == pieces(ls@).map_values(|l: Seq<u8>| l.map_values(|b: u8| element_of(b))),
                grid_view(engine_schematic@) == target.subrange(0, i as int),
            decreases ls@.len() - i,
        {
            let line = &ls[i];
            let mut row: Vec<EngineElement> = Vec::new();
            let mut j: usize = 0;
            while j < line.len()
                invariant
                    j <= line@.len(),
                    row@ == line@.map_values(|b: u8| element_of(b)).subrange(0, j as int),
                decreases line@.len() - j,
            {
                let b = line[j];
                let e = if b == 46 {
                    EngineElement::Period
                } else if 48 <= b && b <= 57 {
                    EngineElement::Digit((b - 48) as u32)
                } else {
                    EngineElement::Symbol(b)
                };
                row.push(e);
                j = j + 1;
                assert(row@ =~= line@.map_values(|b: u8| element_of(b)).subrange(0, j as int));
            }
            let ghost before = grid_view(engine_schematic@);
            assert(row@ =~= line@.map_values(|b: u8| element_of(b)));
            engine_schematic.push(row);
            assert(grid_view(engine_schematic@) =~= before.push(target[i as int]));
            i = i + 1;
            assert(grid_view(engine_schematic@) =~= target.subrange(0, i as int));
        }
        assert(target.subrange(0, i as int) =~= target);
        Day3 { engine_schematic }
    }

    /// Whether the rows are at least as wide as the first, the sizes fit in
    /// an `i32` and every digit is below 10.
    fn is_well_formed(&self) -> (r: bool)
        ensures
            r == well_formed(grid_view(self.engine_schematic@)),
    {
        let ghost g = grid_view(self.engine_schematic@);
        let rows = self.engine_schematic.len();
        if rows >= 2147483647 {
            return false;
        }
        if rows == 0 {
            return true;
        }
        let width = self.engine_schematic[0].len();
        assert(g[0] == self.engine_schematic@[0]@);
        if width >= 2147483647 {
            return false;
        }
        let mut r: usize = 0;
        while r < rows
            invariant
                r <= rows == g.len(),
                g == grid_view(self.engine_schematic@),
                width == g[0].len(),
                forall|q: int| 0 <= q < r ==> (#[trigger] g[q]).len() >= width,
                forall|q: int, c: int| 0 <= q < r && 0 <= c < g[q].len() ==> (#[trigger] g[q][c] matches EngineElement::Digit(d) ==> d < 10),
            decreases rows - r,
        {
            let line = &self.engine_schematic[r];
            assert(g[r as int] == line@);
            if line.len() < width {
                return false;
            }
            let mut c: usize = 0;
            while c < line.len()
                invariant
                    c <= line@.len(),
                    r < g.len(),
                    g == grid_view(self.engine_schematic@),
                    g[r as int] == line@,
                    forall|q: int| 0 <= q < c ==> (#[trigger] line@[q] matches EngineElement::Digit(d) ==> d < 10),
                decreases line@.len() - c,
            {
                if let EngineElement::Digit(d) = line[c] {
                    if d >= 10 {
                        assert(g[r as int][c as int] == line@[c as int]);
                        assert(!well_formed(g));
                        return false;
                    }
                }
                c = c + 1;
            }
            r = r + 1;
        }
        true
    }

    /// Whether a symbol of the schematic touches the number `n`.
    fn has_symbol_near(&self, n: &EngineNumber) -> (r: bool)
        ensures
            r == next_to_symbol(grid_view(self.engine_schematic@), number_view(*n)),
    {
        let ghost g = grid_view(self.engine_schematic@);
        let ghost nv = number_view(*n);
        let mut r: usize = 0;
        while r < self.engine_schematic.len()
            invariant
                r <= g.len(),
                g == grid_view(self.engine_schematic@),
                nv == number_view(*n),
                forall|q: int, c: int| 0 <= q < r && 0 <= c < g[q].len() ==> !((#[trigger] g[q][c]) is Symbol && touches(nv, q, c)),
            decreases g.len() - r,
        {
            let line = &self.engine_schematic[r];
            assert(g[r as int] == line@);
            let mut c: usize = 0;
            while c < line.len()
                invariant
                    c <= line@.len(),
                    r < g.len(),
                    g == grid_view(self.engine_schematic@),
                    g[r as int] == line@,
                    nv == number_view(*n),
                    forall|q: int, cc: int| 0 <= q < r && 0 <= cc < g[q].len() ==> !((#[trigger] g[q][cc]) is Symbol && touches(nv, q, cc)),
                    forall|cc: int| 0 <= cc < c ==> !((#[trigger] g[r as int][cc]) is Symbol && touches(nv, r as int, cc)),
                decreases line@.len() - c,
            {
                let near = (n.row as i128) - 1 <= (r as i128) && (r as i128) <= (n.row as i128) + 1
                    && (n.start_col as i128) - 1 <= (c as i128) && (c as i128) <= (n.end_col as i128) + 1;
                if near {
                    if let EngineElement::Symbol(_) = line[c] {
                        assert(g[r as int][c as int] is Symbol && touches(nv, r as int, c as int));
                        return true;
                    }
                }
                c = c + 1;
            }
            r = r + 1;
        }
        false
    }

    /// The sum of the numbers next to a symbol; the empty text if the
    /// schematic is not well formed or a number does not fit in 32 bits.
    pub fn solution1(&self) -> (r: String)
        ensures
            r@ == schematic_answer(grid_view(self.engine_schematic@), part_sum(
                grid_view(self.engine_schematic@),
                numbers_upto(grid_view(self.engine_schematic@), self.engine_schematic@.len() as int),
                numbers_upto(grid_view(self.engine_schematic@), self.engine_schematic@.len() as int).len() as int,
            )),
    {
        let ghost g = grid_view(self.engine_schematic@);
        if !self.is_well_formed() {
            return String::new();
        }
        let engine_numbers = match self.numbers_checked() {
            Some(v) => v,
            None => {
                return String::new();
            },
        };
        let ghost ns = number_views(engine_numbers@);
        let mut total: u64 = 0;
        let mut k: usize = 0;
        while k < engine_numbers.len()
            invariant
                k <= engine_numbers@.len() == ns.len(),
                g == grid_view(self.engine_schematic@),
                well_formed(g),
                numbers_fit(g),
                ns == number_views(engine_numbers@),
                ns == numbers_upto(g, g.len() as int),
                total == part_sum(g, ns, k as int),
            decreases engine_numbers@.len() - k,
        {
            let n = &engine_numbers[k];
            assert(ns[k as int] == number_view(*n));
            if self.has_symbol_near(n) {
                match total.checked_add(n.value as u64) {
                    Some(t) => {
                        total = t;
                    },
                    None => {
                        proof { lemma_part_sum_grows(g, ns, k + 1, ns.len() as int); }
                        return String::new();
                    },
                }
            }
            k = k + 1;
        }
        answer_text(Some(total))
    }

    /// The sum of the gear ratios; the empty text if the schematic is not
    /// well formed or a number does not fit in 32 bits.
    pub fn solution2(&self) -> (r: String)
        ensures
            r@ == schematic_answer(grid_view(self.engine_schematic@), gear_sum(
                grid_view(self.engine_schematic@),
                numbers_upto(grid_view(self.engine_schematic@), self.engine_schematic@.len() as int),
                self.engine_schematic@.len() as int,
            )),
    {
        let ghost g = grid_view(self.engine_schematic@);
        if !self.is_well_formed() {
            return String::new();
        }
        let engine_numbers = match self.numbers_checked() {
            Some(v) => v,
            None => {
                return String::new();
            },
        };
        let ghost ns = number_views(engine_numbers@);
        let mut total: u64 = 0;
        let mut r: usize = 0;
        while r < self.engine_schematic.len()
            invariant
                r <= g.len(),
                g == grid_view(self.engine_schematic@),
                well_formed(g),
                numbers_fit(g),
                ns == number_views(engine_numbers@),
                ns == numbers_upto(g, g.len() as int),
                total == gear_sum(g, ns, r as int),
            decreases g.len() - r,
        {
            let line = &self.engine_schematic[r];
            assert(g[r as int] == line@);
            let mut c: usize = 0;
            while c < line.len()
                invariant
                    c <= line@.len(),
                    r < g.len(),
                    g == grid_view(self.engine_schematic@),
                    g[r as int] == line@,
                    well_formed(g),
                    numbers_fit(g),
                    ns == number_views(engine_numbers@),
                    ns == numbers_upto(g, g.len() as int),
                    total == gear_sum(g, ns, r as int) + row_gears(g, ns, r as int, c as int),
                decreases line@.len() - c,
            {
                if line[c] == EngineElement::Symbol(42) {
                    let ratio = gear_at(&engine_numbers, r, c);
                    assert(ratio == gear_ratio(g, ns, r as int, c as int));
                    match total.checked_add(ratio) {
                        Some(t) => {
                            total = t;
                        },
                        None => {
                            proof { lemma_gears_grow(g, ns, r as int, c + 1); }
                            return String::new();
                        },
                    }
                }
                c = c + 1;
            }
            r = r + 1;
        }
        answer_text(Some(total))
    }
}

/// The product of the two numbers that the cell `r`, `c` touches, or 0
/// unless it touches exactly two.
fn gear_at(numbers: &Vec<EngineNumber>, r: usize, c: usize) -> (g: u64)
    ensures
        g == (if adjacent_count(number_views(numbers@), r as int, c as int, numbers@.len() as int) == 2 {
            adjacent_product(number_views(numbers@), r as int, c as int, numbers@.len() as int)
        } else {
            0
        }),
{
    let ghost ns = number_views(numbers@);
    let mut count: usize = 0;
    let mut product: u64 = 1;
    let mut k: usize = 0;
    while k < numbers.len()
        invariant
            k <= numbers@.len() == ns.len(),
            ns == number_views(numbers@),
            count == adjacent_count(ns, r as int, c as int, k as int),
            count <= 2 ==> product == adjacent_product(ns, r as int, c as int, k as int),
            count <= 2 ==> product <= (if count == 0 { 1 } else if count == 1 { u32::MAX as int } else { u32::MAX as int * u32::MAX as int }),
            count <= k,
        decreases numbers@.len() - k,
    {
        let n = &numbers[k];
        assert(ns[k as int] == number_view(*n));
        let near = (n.row as i128) - 1 <= (r as i128) && (r as i128) <= (n.row as i128) + 1
            && (n.start_col as i128) - 1 <= (c as i128) && (c as i128) <= (n.end_col as i128) + 1;
        if near {
            if count < 2 {
                assert(product * (n.value as int) <= (if count + 1 == 1 { u32::MAX as int } else { u32::MAX as int * u32::MAX as int })) by (nonlinear_arith)
                    requires
                        count < 2,
                        product <= (if count == 0 { 1 } else if count == 1 { u32::MAX as int } else { u32::MAX as int * u32::MAX as int }),
                        n.value <= u32::MAX,
                        product >= 0;
                product = product * (n.value as u64);
            }
            count = count + 1;
        }
        k = k + 1;
    }
    if count == 2 {
        product
    } else {
        0
    }
}

} // verus!