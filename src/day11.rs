//! Galaxies in an expanding universe: rows and columns without a galaxy
//! count as `factor` rows or columns in the distances between galaxies.
use vstd::prelude::*;
use vstd::string::StringSliceAdditionalSpecFns;
use crate::text::{answer_text, lines, pieces, split_lines};

verus! {

/// The smallest entry of the non-empty `s`.
pub open spec fn seq_min(s: Seq<usize>) -> usize
    decreases s.len(),
{
    if s.len() <= 1 {
        s[0]
    } else if s.last() < seq_min(s.drop_last()) {
        s.last()
    } else {
        seq_min(s.drop_last())
    }
}

/// The largest entry of the non-empty `s`.
pub open spec fn seq_max(s: Seq<usize>) -> usize
    decreases s.len(),
{
    if s.len() <= 1 {
        s[0]
    } else if s.last() > seq_max(s.drop_last()) {
        s.last()
    } else {
        seq_max(s.drop_last())
    }
}

/// The values from `lo` up to `hi`, excluded, that are not in `s`, in
/// increasing order.
pub open spec fn missing_upto(s: Seq<usize>, lo: int, hi: int) -> Seq<usize>
    decreases hi - lo,
{
    if hi <= lo {
        seq![]
    } else {
        let m = missing_upto(s, lo, hi - 1);
        if s.contains((hi - 1) as usize) {
            m
        } else {
            m.push((hi - 1) as usize)
        }
    }
}

/// The values strictly between the smallest and the largest entry of `vec`
/// that are not in it, in increasing order.
pub fn get_missing_values(vec: Vec<usize>) -> (r: Vec<usize>)
    requires
        vec@.len() > 0,
    ensures
        r@ == missing_upto(vec@, seq_min(vec@) + 1, seq_max(vec@) as int),
{
    let ghost s = vec@;
    let mut lo: usize = vec[0];
    let mut hi: usize = vec[0];
    let mut i: usize = 1;
    assert(s.subrange(0, 1).len() == 1);
    while i < vec.len()
        invariant
            1 <= i <= s.len(),
            s == vec@,
            lo == seq_min(s.subrange(0, i as int)),
            hi == seq_max(s.subrange(0, i as int)),
        decreases s.len() - i,
    {
        assert(s.subrange(0, i + 1).drop_last() =~= s.subrange(0, i as int));
        if vec[i] < lo {
            lo = vec[i];
        }
        if vec[i] > hi {
            hi = vec[i];
        }
        i = i + 1;
    }
    assert(s.subrange(0, i as int) =~= s);
    let mut r: Vec<usize> = Vec::new();
    if lo >= hi {
        return r;
    }
    let mut v: usize = lo + 1;
    while v < hi
        invariant
            lo < v <= hi,
            s == vec@,
            lo == seq_min(s),
            hi == seq_max(s),
            r@ == missing_upto(s, lo + 1, v as int),
        decreases hi - v,
    {
        let mut present: bool = false;
        let mut k: usize = 0;
        while k < vec.len()
            invariant
                k <= s.len(),
                s == vec@,
                present == exists|q: int| 0 <= q < k && s[q] == v,
            decreases s.len() - k,
        {
            if vec[k] == v {
                present = true;
            }
            k = k + 1;
        }
        if !present {
            r.push(v);
        }
        v = v + 1;
    }
    r
}

/// The first index at or after `k` whose entry is at least `lo`.
pub open spec fn skip_below(e: Seq<usize>, lo: int, k: int) -> int
    decreases e.len() - k,
{
    if k < 0 || k >= e.len() || e[k] >= lo {
        k
    } else {
        skip_below(e, lo, k + 1)
    }
}

/// The number of consecutive entries from `k` on that are below `hi`.
pub open spec fn run_below(e: Seq<usize>, hi: int, k: int) -> nat
    decreases e.len() - k,
{
    if k < 0 || k >= e.len() || e[k] >= hi {
        0
    } else {
        1 + run_below(e, hi, k + 1)
    }
}

/// The smaller of two values.
pub open spec fn min2(a: usize, b: usize) -> usize {
    if a < b { a } else { b }
}

/// The larger of two values.
pub open spec fn max2(a: usize, b: usize) -> usize {
    if a > b { a } else { b }
}

/// The number of entries of `expanded` between `r1` and `r2`: after the
/// leading entries below the smaller, the run of entries below the larger.
pub fn number_of_expanded_between(expanded: &Vec<usize>, r1: usize, r2: usize) -> (r: usize)
    ensures
        r == run_below(expanded@, max2(r1, r2) as int, skip_below(expanded@, min2(r1, r2) as int, 0)),
{
    let row_min = if r1 < r2 { r1 } else { r2 };
    let row_max = if r1 > r2 { r1 } else { r2 };
    let mut k: usize = 0;
    while k < expanded.len() && expanded[k] < row_min
        invariant
            k <= expanded@.len(),
            skip_below(expanded@, row_min as int, 0) == skip_below(expanded@, row_min as int, k as int),
        decreases expanded@.len() - k,
    {
        k = k + 1;
    }
    let start = k;
    let mut count: usize = 0;
    while k < expanded.len() && expanded[k] < row_max
        invariant
            start <= k <= expanded@.len(),
            count == k - start,
            run_below(expanded@, row_max as int, start as int) == count + run_below(expanded@, row_max as int, k as int),
        decreases expanded@.len() - k,
    {
        count = count + 1;
        k = k + 1;
    }
    count
}

/// The absolute difference of two values.
pub open spec fn gap(a: usize, b: usize) -> nat {
    if a >= b { (a - b) as nat } else { (b - a) as nat }
}

/// The distance between two galaxies once each row of `rows` and each
/// column of `cols` counts `factor` times.
pub open spec fn dist(p1: (usize, usize), p2: (usize, usize), rows: Seq<usize>, cols: Seq<usize>, factor: nat) -> nat {
    gap(p1.0, p2.0) + gap(p1.1, p2.1)
        + run_below(rows, max2(p1.0, p2.0) as int, skip_below(rows, min2(p1.0, p2.0) as int, 0)) * (factor - 1) as nat
        + run_below(cols, max2(p1.1, p2.1) as int, skip_below(cols, min2(p1.1, p2.1) as int, 0)) * (factor - 1) as nat
}

/// The distance between two galaxies in the expanded universe, or `None`
/// if it does not fit in a `usize`.
pub fn distance(
    p1: (usize, usize),
    p2: (usize, usize),
    rows_to_expand: &Vec<usize>,
    cols_to_expand: &Vec<usize>,
    factor: usize,
) -> (r: Option<usize>)
    requires
        factor >= 1,
    ensures
        r matches Some(d) ==> d == dist(p1, p2, rows_to_expand@, cols_to_expand@, factor as nat),
        r is None ==> dist(p1, p2, rows_to_expand@, cols_to_expand@, factor as nat) > usize::MAX,
{
    let (x1, y1) = p1;
    let (x2, y2) = p2;
    let nr = number_of_expanded_between(rows_to_expand, x1, x2);
    let nc = number_of_expanded_between(cols_to_expand, y1, y2);
    let dx = if x1 >= x2 { x1 - x2 } else { x2 - x1 };
    let dy = if y1 >= y2 { y1 - y2 } else { y2 - y1 };
    let er = match nr.checked_mul(factor - 1) {
        Some(v) => v,
        None => {
            return None;
        },
    };
    let ec = match nc.checked_mul(factor - 1) {
        Some(v) => v,
        None => {
            return None;
        },
    };
    let a = match dx.checked_add(dy) {
        Some(v) => v,
        None => {
            return None;
        },
    };
    let b = match a.checked_add(er) {
        Some(v) => v,
        None => {
            return None;
        },
    };
    b.checked_add(ec)
}

/// The galaxies of an image.
pub struct Day11 {
    pub galaxies: Vec<(usize, usize)>,
}

/// The sum of the distances from galaxy `i` to the galaxies after it and
/// before `n`.
pub open spec fn row_sum(g: Seq<(usize, usize)>, rows: Seq<usize>, cols: Seq<usize>, factor: nat, i: int, n: int) -> nat
    decreases n - i,
{
    if n <= i + 1 || i < 0 || n > g.len() {
        0
    } else {
        row_sum(g, rows, cols, factor, i, n - 1) + dist(g[i], g[n - 1], rows, cols, factor)
    }
}

/// The sum of the distances between the pairs of galaxies whose first is
/// before `m`.
pub open spec fn pair_sum(g: Seq<(usize, usize)>, rows: Seq<usize>, cols: Seq<usize>, factor: nat, m: int) -> nat
    decreases m,
{
    if m <= 0 {
        0
    } else {
        pair_sum(g, rows, cols, factor, m - 1) + row_sum(g, rows, cols, factor, m - 1, g.len() as int)
    }
}

/// The rows of the galaxies.
pub open spec fn rows_of(g: Seq<(usize, usize)>) -> Seq<usize> {
    g.map_values(|p: (usize, usize)| p.0)
}

/// The columns of the galaxies.
pub open spec fn cols_of(g: Seq<(usize, usize)>) -> Seq<usize> {
    g.map_values(|p: (usize, usize)| p.1)
}

/// The sum of the distances between all pairs of galaxies, rows and
/// columns without a galaxy counting `factor` times.
pub open spec fn total_distance(g: Seq<(usize, usize)>, factor: nat) -> nat {
    let rows = missing_upto(rows_of(g), seq_min(rows_of(g)) + 1, seq_max(rows_of(g)) as int);
    let cols = missing_upto(cols_of(g), seq_min(cols_of(g)) + 1, seq_max(cols_of(g)) as int);
    pair_sum(g, rows, cols, factor, g.len() as int)
}

proof fn lemma_row_sum_grows(g: Seq<(usize, usize)>, rows: Seq<usize>, cols: Seq<usize>, f: nat, i: int, j: int, n: int)
    requires
        j <= n <= g.len(),
        0 <= i,
    ensures
        row_sum(g, rows, cols, f, i, j) <= row_sum(g, rows, cols, f, i, n),
        i + 1 <= j < n ==> dist(g[i], g[j], rows, cols, f) <= row_sum(g, rows, cols, f, i, n),
    decreases n - j,
{
    if j < n {
        lemma_row_sum_grows(g, rows, cols, f, i, j, n - 1);
    }
}

proof fn lemma_pair_sum_grows(g: Seq<(usize, usize)>, rows: Seq<usize>, cols: Seq<usize>, f: nat, i: int, m: int)
    requires
        0 <= i < m,
    ensures
        pair_sum(g, rows, cols, f, i) + row_sum(g, rows, cols, f, i, g.len() as int) <= pair_sum(g, rows, cols, f, m),
    decreases m - i,
{
    if i + 1 < m {
        lemma_pair_sum_grows(g, rows, cols, f, i, m - 1);
    }
}

/// The text of the sum of the distances: its decimal writing when there are
/// galaxies and it fits in a `usize`, else the empty text.
pub open spec fn expanded_answer(g: Seq<(usize, usize)>, factor: nat) -> Seq<char> {
    if g.len() > 0 && total_distance(g, factor) <= usize::MAX {
        crate::text::decimal(total_distance(g, factor))
    } else {
        Seq::empty()
    }
}

impl Day11 {
    /// The sum of the distances between all pairs of galaxies, rows and
    /// columns without a galaxy counting `factor` times; `None` without
    /// galaxies or if the sum does not fit in a `usize`.
    pub fn get_result(&self, factor: usize) -> (r: Option<usize>)
        requires
            factor >= 1,
        ensures
            r matches Some(v) ==> self.galaxies@.len() > 0 && v == total_distance(self.galaxies@, factor as nat),
            r is None ==> self.galaxies@.len() == 0 || total_distance(self.galaxies@, factor as nat) > usize::MAX,
    {
        let ghost g = self.galaxies@;
        let length = self.galaxies.len();
        if length == 0 {
            return None;
        }
        let mut present_rows: Vec<usize> = Vec::new();
        let mut present_cols: Vec<usize> = Vec::new();
        let mut k: usize = 0;
        while k < length
            invariant
                k <= length == g.len(),
                g == self.galaxies@,
                present_rows@ == rows_of(g).subrange(0, k as int),
                present_cols@ == cols_of(g).subrange(0, k as int),
            decreases length - k,
        {
            present_rows.push(self.galaxies[k].0);
            present_cols.push(self.galaxies[k].1);
            k = k + 1;
            assert(present_rows@ =~= rows_of(g).subrange(0, k as int));
            assert(present_cols@ =~= cols_of(g).subrange(0, k as int));
        }
        assert(present_rows@ =~= rows_of(g));
        assert(present_cols@ =~= cols_of(g));
        let rows_to_expand = get_missing_values(present_rows);
        let cols_to_expand = get_missing_values(present_cols);
        let ghost rs = rows_to_expand@;
        let ghost cs = cols_to_expand@;
        let ghost f = factor as nat;
        let mut result: usize = 0;
        let mut i: usize = 0;
        while i < length
            invariant
                i <= length == g.len(),
                g == self.galaxies@,
                factor >= 1,
                f == factor as nat,
                rs == rows_to_expand@,
                cs == cols_to_expand@,
                total_distance(g, f) == pair_sum(g, rs, cs, f, length as int),
                result == pair_sum(g, rs, cs, f, i as int),
            decreases length - i,
        {
            let mut j: usize = i + 1;
            while j < length
                invariant
                    i < length == g.len(),
                    i + 1 <= j <= length,
                    g == self.galaxies@,
                    factor >= 1,
                    f == factor as nat,
                    rs == rows_to_expand@,
                    cs == cols_to_expand@,
                    total_distance(g, f) == pair_sum(g, rs, cs, f, length as int),
                    result == pair_sum(g, rs, cs, f, i as int) + row_sum(g, rs, cs, f, i as int, j as int),
                decreases length - j,
            {
                let d = distance(self.galaxies[i], self.galaxies[j], &rows_to_expand, &cols_to_expand, factor);
                proof {
                    lemma_row_sum_grows(g, rs, cs, f, i as int, j as int, length as int);
                    lemma_pair_sum_grows(g, rs, cs, f, i as int, length as int);
                    lemma_row_sum_grows(g, rs, cs, f, i as int, j + 1, length as int);
                }
                match d {
                    Some(d) => match result.checked_add(d) {
                        Some(t) => {
                            result = t;
                        },
                        None => {
                            return None;
                        },
                    },
                    None => {
                        return None;
                    },
                }
                j = j + 1;
            }
            i = i + 1;
        }
        Some(result)
    }

    /// The sum of the distances when empty rows and columns count twice.
    pub fn solution1(&self) -> (r: String)
        ensures
            r@ == expanded_answer(self.galaxies@, 2),
    {
        match self.get_result(2) {
            Some(v) => answer_text(Some(v as u64)),
            None => String::new(),
        }
    }

    /// The sum of the distances when empty rows and columns count a million
    /// times.
    pub fn solution2(&self) -> (r: String)
        ensures
            r@ == expanded_answer(self.galaxies@, 1000000),
    {
        match self.get_result(1000000) {
            Some(v) => answer_text(Some(v as u64)),
            None => String::new(),
        }
    }
}

/// The galaxies (`#`) among the first `n` bytes of line `row`, by column.
pub open spec fn galaxies_in(line: Seq<u8>, row: usize, n: int) -> Seq<(usize, usize)>
    decreases n,
{
    if n <= 0 {
        seq![]
    } else {
        let g = galaxies_in(line, row, n - 1);
        if line[n - 1] == 35 {
            g.push((row, (n - 1) as usize))
        } else {
            g
        }
    }
}

/// The galaxies of the first `n` lines, row by row.
pub open spec fn galaxies_of(ls: Seq<Seq<u8>>, n: int) -> Seq<(usize, usize)>
    decreases n,
{
    if n <= 0 {
        seq![]
    } else {
        galaxies_of(ls, n - 1) + galaxies_in(ls[n - 1], (n - 1) as usize, ls[n - 1].len() as int)
    }
}

impl Day11 {
    /// Reads the image: the position (row, column) of each `#`, row by row.
    pub fn make_day(input: &str) -> (r: Day11)
        ensures
            r.galaxies@ == galaxies_of(lines(input.spec_bytes()), lines(input.spec_bytes()).len() as int),
    {
        let ls = split_lines(input.as_bytes());
        let ghost ps = pieces(ls@);
        let mut galaxies: Vec<(usize, usize)> = Vec::new();
        let mut row: usize = 0;
        while row < ls.len()
            invariant
                row <= ls@.len(),
                ps == pieces(ls@),
                galaxies@ == galaxies_of(ps, row as int),
            decreases ls@.len() - row,
        {
            let line = &ls[row];
            assert(ps[row as int] == line@);
            let ghost base = galaxies@;
            let mut col: usize = 0;
            while col < line.len()
                invariant
                    col <= line@.len(),
                    row < ls@.len(),
                    line == &ls@[row as int],
                    galaxies@ == base + galaxies_in(line@, row, col as int),
                decreases line@.len() - col,
            {
                if line[col] == 35 {
                    galaxies.push((row, col));
                }
                col = col + 1;
                assert(galaxies@ =~= base + galaxies_in(line@, row, col as int));
            }
            row = row + 1;
        }
        assert(ps == lines(input.spec_bytes()));
        Day11 { galaxies }
    }
}

} // verus!
