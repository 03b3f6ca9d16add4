//! Mirrors in patterns of ash and rocks: each row and column is read as a
//! binary key, and a mirror is a line between two keys about which the
//! keys are symmetric.
use vstd::prelude::*;
use vstd::string::StringSliceAdditionalSpecFns;
use vstd::arithmetic::power2::{pow2, lemma_pow2_unfold};
use crate::text::{decimal, lines, pieces, split, split_lines, split_on, u64_text};

verus! {

/// One cell of a pattern.
#[derive(Clone, Copy, PartialEq, Eq, Debug, Structural)]
pub enum Terrain {
    Ash,
    Rock,
}

/// The bit of a cell: 1 for ash, 0 for rock.
pub open spec fn bit(t: Terrain) -> nat {
    match t {
        Terrain::Ash => 1,
        Terrain::Rock => 0,
    }
}

/// The number whose binary digits, most significant first, are the bits of
/// the cells of `line`.
pub open spec fn key(line: Seq<Terrain>) -> nat
    decreases line.len(),
{
    if line.len() == 0 {
        0
    } else {
        key(line.drop_last()) * 2 + bit(line.last())
    }
}

proof fn lemma_key_bound(line: Seq<Terrain>)
    ensures
        key(line) < pow2(line.len()),
    decreases line.len(),
{
    if line.len() > 0 {
        lemma_key_bound(line.drop_last());
        lemma_pow2_unfold(line.len());
    } else {
        vstd::arithmetic::power2::lemma2_to64();
    }
}

proof fn lemma_pow2_128()
    ensures
        pow2(128) == u128::MAX + 1,
{
    vstd::arithmetic::power2::lemma2_to64_rest();
    vstd::arithmetic::power2::lemma_pow2_adds(64, 64);
    assert(pow2(64) == 0x10000000000000000);
    assert(0x10000000000000000nat * 0x10000000000000000nat == u128::MAX + 1) by (nonlinear_arith);
}

/// The key of a line of at most 128 cells.
pub fn to_key(line: &[Terrain]) -> (r: u128)
    requires
        line@.len() <= 128,
    ensures
        r == key(line@),
{
    let mut k: u128 = 0;
    let mut i: usize = 0;
    assert(line@.subrange(0, 0) =~= seq![]);
    while i < line.len()
        invariant
            i <= line@.len() <= 128,
            k == key(line@.subrange(0, i as int)),
        decreases line@.len() - i,
    {
        assert(line@.subrange(0, i + 1).drop_last() =~= line@.subrange(0, i as int));
        proof {
            lemma_key_bound(line@.subrange(0, i + 1));
            if i + 1 < 128 {
                vstd::arithmetic::power2::lemma_pow2_strictly_increases((i + 1) as nat, 128);
            }
            lemma_pow2_128();
        }
        let b: u128 = match line[i] {
            Terrain::Ash => 1,
            Terrain::Rock => 0,
        };
        k = k * 2 + b;
        i = i + 1;
    }
    assert(line@.subrange(0, i as int) =~= line@);
    k
}

/// A pattern: rows of cells.
#[derive(Debug)]
pub struct Island {
    pub grid: Vec<Vec<Terrain>>,
}

/// The rows of a pattern, as sequences of cells.
pub open spec fn rows(i: &Island) -> Seq<Seq<Terrain>> {
    i.grid@.map_values(|r: Vec<Terrain>| r@)
}

/// Column `c` of the rows `g`.
pub open spec fn column(g: Seq<Seq<Terrain>>, c: int) -> Seq<Terrain> {
    Seq::new(g.len(), |r: int| g[r][c])
}

/// The rows are all as long as the first, and there is a first.
pub open spec fn rectangular(g: Seq<Seq<Terrain>>) -> bool {
    g.len() > 0 && forall|r: int| 0 <= r < g.len() ==> (#[trigger] g[r]).len() == g[0].len()
}

impl Island {
    /// The key of each row, top to bottom.
    pub fn get_horizontal_keys(&self) -> (r: Vec<u128>)
        requires
            forall|k: int| 0 <= k < self.grid@.len() ==> (#[trigger] self.grid@[k])@.len() <= 128,
        ensures
            r@ == rows(self).map_values(|l: Seq<Terrain>| key(l) as u128),
            forall|k: int| 0 <= k < r@.len() ==> r@[k] == key(rows(self)[k]),
    {
        let mut r: Vec<u128> = Vec::new();
        let mut i: usize = 0;
        while i < self.grid.len()
            invariant
                i <= self.grid@.len(),
                forall|k: int| 0 <= k < self.grid@.len() ==> (#[trigger] self.grid@[k])@.len() <= 128,
                r@.len() == i,
                forall|k: int| 0 <= k < i ==> r@[k] == key(#[trigger] rows(self)[k]),
            decreases self.grid@.len() - i,
        {
            r.push(to_key(self.grid[i].as_slice()));
            i = i + 1;
        }
        assert(r@ =~= rows(self).map_values(|l: Seq<Terrain>| key(l) as u128));
        r
    }

    /// The key of each column, left to right.
    pub fn get_vertical_keys(&self) -> (r: Vec<u128>)
        requires
            rectangular(rows(self)),
            self.grid@.len() <= 128,
        ensures
            r@.len() == rows(self)[0].len(),
            forall|c: int| 0 <= c < r@.len() ==> r@[c] == key(column(rows(self), c)),
    {
        let ghost g = rows(self);
        let width = self.grid[0].len();
        let mut r: Vec<u128> = Vec::new();
        let mut c: usize = 0;
        while c < width
            invariant
                c <= width,
                g == rows(self),
                rectangular(g),
                width == g[0].len(),
                self.grid@.len() <= 128,
                r@.len() == c,
                forall|k: int| 0 <= k < c ==> r@[k] == key(#[trigger] column(g, k)),
            decreases width - c,
        {
            let mut col: Vec<Terrain> = Vec::new();
            let mut row: usize = 0;
            while row < self.grid.len()
                invariant
                    row <= self.grid@.len(),
                    c < width,
                    g == rows(self),
                    rectangular(g),
                    width == g[0].len(),
                    col@ == column(g, c as int).subrange(0, row as int),
                decreases self.grid@.len() - row,
            {
                assert(g[row as int] == self.grid@[row as int]@);
                col.push(self.grid[row][c]);
                row = row + 1;
                assert(col@ =~= column(g, c as int).subrange(0, row as int));
            }
            assert(col@ =~= column(g, c as int));
            r.push(to_key(col.as_slice()));
            c = c + 1;
        }
        r
    }
}

/// How far a mirror after key `idx` reaches: the smaller of the number of
/// keys on each side.
pub open spec fn reach(n: int, idx: int) -> int {
    if idx + 1 < n - 1 - idx {
        idx + 1
    } else {
        n - 1 - idx
    }
}

/// The keys are symmetric about the line after key `idx`.
pub open spec fn is_mirror(keys: Seq<u128>, idx: int) -> bool {
    &&& 0 <= idx < keys.len() - 1
    &&& forall|o: int| 0 <= o < reach(keys.len() as int, idx) ==> #[trigger] keys[idx - o] == keys[idx + 1 + o]
}

/// The first line about which the keys are symmetric.
pub fn find_symmetry(keys: &[u128]) -> (r: Option<usize>)
    ensures
        r matches Some(i) ==> is_mirror(keys@, i as int) && forall|j: int| 0 <= j < i ==> !is_mirror(keys@, j),
        r is None ==> forall|j: int| 0 <= j < keys@.len() - 1 ==> !is_mirror(keys@, j),
{
    if keys.len() == 0 {
        return None;
    }
    let length = keys.len() - 1;
    let mut idx: usize = 0;
    while idx < length
        invariant
            length == keys@.len() - 1,
            idx <= length,
            forall|j: int| 0 <= j < idx ==> !is_mirror(keys@, j),
        decreases length - idx,
    {
        let diff = if idx + 1 < length - idx { idx + 1 } else { length - idx };
        let mut ok: bool = true;
        let mut o: usize = 0;
        while o < diff
            invariant
                idx < length,
                length == keys@.len() - 1,
                diff == reach(keys@.len() as int, idx as int),
                o <= diff,
                ok == forall|p: int| 0 <= p < o ==> #[trigger] keys@[idx - p] == keys@[idx + 1 + p],
            decreases diff - o,
        {
            if keys[idx - o] != keys[idx + 1 + o] {
                ok = false;
            }
            o = o + 1;
        }
        if ok {
            return Some(idx);
        }
        idx = idx + 1;
    }
    None
}

/// The number of the lowest `n` binary digits in which `a` and `b` differ.
pub open spec fn bit_diffs(a: nat, b: nat, n: nat) -> nat
    decreases n,
{
    if n == 0 {
        0
    } else {
        (if a % 2 != b % 2 { 1nat } else { 0nat }) + bit_diffs(a / 2, b / 2, (n - 1) as nat)
    }
}

/// The number of binary digits in which `a` and `b` differ.
pub fn count_bit_diffs(a: u128, b: u128) -> (r: usize)
    ensures
        r == bit_diffs(a as nat, b as nat, 128),
{
    let mut x = a;
    let mut y = b;
    let mut count: usize = 0;
    let mut k: usize = 0;
    while k < 128
        invariant
            k <= 128,
            count <= k,
            count + bit_diffs(x as nat, y as nat, (128 - k) as nat) == bit_diffs(a as nat, b as nat, 128),
        decreases 128 - k,
    {
        if x % 2 != y % 2 {
            count = count + 1;
        }
        x = x / 2;
        y = y / 2;
        k = k + 1;
    }
    count
}

/// The number of offsets within the reach of the line after `idx`, among
/// the first `n`, at which the keys on either side differ.
pub open spec fn mismatches(keys: Seq<u128>, idx: int, n: int) -> nat
    decreases n,
{
    if n <= 0 {
        0
    } else {
        mismatches(keys, idx, n - 1) + if keys[idx - (n - 1)] != keys[idx + 1 + (n - 1)] { 1nat } else { 0nat }
    }
}

/// The keys would be symmetric about the line after `idx` but for one bit:
/// exactly one pair of keys in reach differs, and in one binary digit.
pub open spec fn is_smudged_mirror(keys: Seq<u128>, idx: int) -> bool {
    &&& 0 <= idx < keys.len() - 1
    &&& mismatches(keys, idx, reach(keys.len() as int, idx)) == 1
    &&& exists|o: int|
        0 <= o < reach(keys.len() as int, idx) && #[trigger] keys[idx - o] != keys[idx + 1 + o]
            && bit_diffs(keys[idx - o] as nat, keys[idx + 1 + o] as nat, 128) == 1
}

/// The first line about which the keys would be symmetric but for one bit.
pub fn find_symmetry_one_diff(keys: &[u128]) -> (r: Option<usize>)
    ensures
        r matches Some(i) ==> is_smudged_mirror(keys@, i as int) && forall|j: int|
            0 <= j < i ==> !is_smudged_mirror(keys@, j),
        r is None ==> forall|j: int| 0 <= j < keys@.len() - 1 ==> !is_smudged_mirror(keys@, j),
{
    if keys.len() == 0 {
        return None;
    }
    let length = keys.len() - 1;
    let mut idx: usize = 0;
    while idx < length
        invariant
            length == keys@.len() - 1,
            idx <= length,
            forall|j: int| 0 <= j < idx ==> !is_smudged_mirror(keys@, j),
        decreases length - idx,
    {
        let diff = if idx + 1 < length - idx { idx + 1 } else { length - idx };
        let mut count: usize = 0;
        let mut first: usize = 0;
        let mut o: usize = 0;
        while o < diff
            invariant
                idx < length,
                length == keys@.len() - 1,
                diff == reach(keys@.len() as int, idx as int),
                o <= diff,
                count == mismatches(keys@, idx as int, o as int),
                count <= o,
                count >= 1 ==> first < o && keys@[idx - first] != keys@[idx + 1 + first],
                count >= 1 ==> forall|p: int| 0 <= p < first ==> #[trigger] keys@[idx - p] == keys@[idx + 1 + p],
                count == 0 ==> forall|p: int| 0 <= p < o ==> #[trigger] keys@[idx - p] == keys@[idx + 1 + p],
            decreases diff - o,
        {
            if keys[idx - o] != keys[idx + 1 + o] {
                if count == 0 {
                    first = o;
                }
                count = count + 1;
            }
            o = o + 1;
        }
        if count == 1 {
            let d = count_bit_diffs(keys[idx - first], keys[idx + 1 + first]);
            if d == 1 {
                return Some(idx);
            }
            proof {
                assert forall|p: int|
                    0 <= p < diff && #[trigger] keys@[idx - p] != keys@[idx + 1 + p] implies p == first by {
                    if p != first {
                        lemma_two_mismatches(keys@, idx as int, first as int, p, diff as int);
                    }
                }
            }
        }
        idx = idx + 1;
    }
    None
}

proof fn lemma_two_mismatches(keys: Seq<u128>, idx: int, a: int, b: int, n: int)
    requires
        0 <= a < n,
        0 <= b < n,
        a != b,
        0 <= idx,
        idx + n < keys.len(),
        n <= idx + 1,
        keys[idx - a] != keys[idx + 1 + a],
        keys[idx - b] != keys[idx + 1 + b],
    ensures
        mismatches(keys, idx, n) >= 2,
    decreases n,
{
    if n - 1 != a && n - 1 != b {
        lemma_two_mismatches(keys, idx, a, b, n - 1);
    } else if n - 1 == a {
        lemma_one_mismatch(keys, idx, b, n - 1);
    } else {
        lemma_one_mismatch(keys, idx, a, n - 1);
    }
}

proof fn lemma_one_mismatch(keys: Seq<u128>, idx: int, a: int, n: int)
    requires
        0 <= a < n,
        0 <= idx,
        idx + n < keys.len(),
        n <= idx + 1,
        keys[idx - a] != keys[idx + 1 + a],
    ensures
        mismatches(keys, idx, n) >= 1,
    decreases n,
{
    if n - 1 != a {
        lemma_one_mismatch(keys, idx, a, n - 1);
    }
}

/// The line is a mirror, with or without a smudge.
pub open spec fn mirror_kind(keys: Seq<u128>, idx: int, smudge: bool) -> bool {
    if smudge {
        is_smudged_mirror(keys, idx)
    } else {
        is_mirror(keys, idx)
    }
}

/// The first mirror line at or after `j`.
pub open spec fn search(keys: Seq<u128>, j: int, smudge: bool) -> Option<int>
    decreases keys.len() - j,
{
    if j < 0 || j >= keys.len() - 1 {
        None
    } else if mirror_kind(keys, j, smudge) {
        Some(j)
    } else {
        search(keys, j + 1, smudge)
    }
}

proof fn lemma_search(keys: Seq<u128>, j: int, smudge: bool, r: Option<int>)
    requires
        0 <= j,
        r matches Some(i) ==> j <= i && mirror_kind(keys, i, smudge) && forall|k: int| j <= k < i ==> !mirror_kind(keys, k, smudge),
        r is None ==> forall|k: int| j <= k < keys.len() - 1 ==> !mirror_kind(keys, k, smudge),
    ensures
        search(keys, j, smudge) == r,
    decreases keys.len() - j,
{
    if j < keys.len() - 1 {
        if !mirror_kind(keys, j, smudge) {
            lemma_search(keys, j + 1, smudge, r);
        }
    } else {
        if let Some(i) = r {
            assert(mirror_kind(keys, i, smudge));
        }
    }
}

/// The keys of the rows.
pub open spec fn row_keys(g: Seq<Seq<Terrain>>) -> Seq<u128> {
    g.map_values(|l: Seq<Terrain>| key(l) as u128)
}

/// The keys of the columns.
pub open spec fn column_keys(g: Seq<Seq<Terrain>>) -> Seq<u128> {
    Seq::new(g[0].len(), |c: int| key(column(g, c)) as u128)
}

/// The summary of a pattern: 100 times the number of rows above its first
/// horizontal mirror, else the number of columns left of its first vertical
/// mirror; `None` when it has neither, or is not a rectangle of at most 128
/// by 128 cells.
pub open spec fn summary(g: Seq<Seq<Terrain>>, smudge: bool) -> Option<nat> {
    if !rectangular(g) || g.len() > 128 || g[0].len() > 128 {
        None
    } else {
        match search(row_keys(g), 0, smudge) {
            Some(t) => Some(100 * (t + 1) as nat),
            None => match search(column_keys(g), 0, smudge) {
                Some(t) => Some((t + 1) as nat),
                None => None,
            },
        }
    }
}

/// The sum of the summaries of the patterns, if each has one.
pub open spec fn total_summary(gs: Seq<Seq<Seq<Terrain>>>, smudge: bool) -> Option<nat>
    decreases gs.len(),
{
    if gs.len() == 0 {
        Some(0)
    } else {
        match (total_summary(gs.drop_last(), smudge), summary(gs.last(), smudge)) {
            (Some(a), Some(b)) => Some(a + b),
            _ => None,
        }
    }
}

/// The cell that a byte stands for: `.` ash, `#` rock.
pub open spec fn terrain_of(b: u8) -> Option<Terrain> {
    if b == 46 {
        Some(Terrain::Ash)
    } else if b == 35 {
        Some(Terrain::Rock)
    } else {
        None
    }
}

/// The cells that a line writes, if each byte is one.
pub open spec fn cells_of(s: Seq<u8>) -> Option<Seq<Terrain>>
    decreases s.len(),
{
    if s.len() == 0 {
        Some(seq![])
    } else {
        match (cells_of(s.drop_last()), terrain_of(s.last())) {
            (Some(c), Some(t)) => Some(c.push(t)),
            _ => None,
        }
    }
}

/// The rows that the lines `ls` write, if each writes one.
pub open spec fn grid_of(ls: Seq<Seq<u8>>) -> Option<Seq<Seq<Terrain>>>
    decreases ls.len(),
{
    if ls.len() == 0 {
        Some(seq![])
    } else {
        match (grid_of(ls.drop_last()), cells_of(ls.last())) {
            (Some(g), Some(c)) => Some(g.push(c)),
            _ => None,
        }
    }
}

/// The patterns that the blocks `bs` write, if each writes one.
pub open spec fn islands_of(bs: Seq<Seq<u8>>) -> Option<Seq<Seq<Seq<Terrain>>>>
    decreases bs.len(),
{
    if bs.len() == 0 {
        Some(seq![])
    } else {
        match (islands_of(bs.drop_last()), grid_of(lines(bs.last()))) {
            (Some(v), Some(g)) => Some(v.push(g)),
            _ => None,
        }
    }
}

/// The blank-line separator between patterns.
pub open spec fn blank_line() -> Seq<u8> {
    seq![10u8, 10u8]
}

/// Reads the cells of a line.
fn parse_cells(s: &[u8]) -> (r: Option<Vec<Terrain>>)
    ensures
        match cells_of(s@) {
            Some(c) => r matches Some(v) && v@ == c,
            None => r is None,
        },
{
    let mut v: Vec<Terrain> = Vec::new();
    let mut i: usize = 0;
    assert(s@.subrange(0, 0) =~= seq![]);
    while i < s.len()
        invariant
            i <= s@.len(),
            cells_of(s@.subrange(0, i as int)) == Some(v@),
        decreases s@.len() - i,
    {
        assert(s@.subrange(0, i + 1).drop_last() =~= s@.subrange(0, i as int));
        let t = if s[i] == 46 {
            Terrain::Ash
        } else if s[i] == 35 {
            Terrain::Rock
        } else {
            proof { lemma_cells_stay_none(s@, i + 1); }
            return None;
        };
        v.push(t);
        i = i + 1;
    }
    assert(s@.subrange(0, i as int) =~= s@);
    Some(v)
}

proof fn lemma_cells_stay_none(s: Seq<u8>, i: int)
    requires
        0 <= i <= s.len(),
        cells_of(s.subrange(0, i)) is None,
    ensures
        cells_of(s) is None,
    decreases s.len() - i,
{
    if i < s.len() {
        assert(s.subrange(0, i + 1).drop_last() =~= s.subrange(0, i));
        lemma_cells_stay_none(s, i + 1);
    } else {
        assert(s.subrange(0, i) =~= s);
    }
}

proof fn lemma_grid_stays_none(ls: Seq<Seq<u8>>, i: int)
    requires
        0 <= i <= ls.len(),
        grid_of(ls.subrange(0, i)) is None,
    ensures
        grid_of(ls) is None,
    decreases ls.len() - i,
{
    if i < ls.len() {
        assert(ls.subrange(0, i + 1).drop_last() =~= ls.subrange(0, i));
        lemma_grid_stays_none(ls, i + 1);
    } else {
        assert(ls.subrange(0, i) =~= ls);
    }
}

proof fn lemma_islands_stay_none(bs: Seq<Seq<u8>>, i: int)
    requires
        0 <= i <= bs.len(),
        islands_of(bs.subrange(0, i)) is None,
    ensures
        islands_of(bs) is None,
    decreases bs.len() - i,
{
    if i < bs.len() {
        assert(bs.subrange(0, i + 1).drop_last() =~= bs.subrange(0, i));
        lemma_islands_stay_none(bs, i + 1);
    } else {
        assert(bs.subrange(0, i) =~= bs);
    }
}

impl Island {
    /// Reads a pattern: one row per line, `.` for ash and `#` for rock.
    pub fn parse(block: &[u8]) -> (r: Option<Island>)
        ensures
            match grid_of(lines(block@)) {
                Some(g) => r matches Some(i) && rows(&i) == g,
                None => r is None,
            },
    {
        let ls = split_lines(block);
        let ghost ps = pieces(ls@);
        let mut grid: Vec<Vec<Terrain>> = Vec::new();
        let mut i: usize = 0;
        assert(ps.subrange(0, 0) =~= seq![]);
        assert(grid@.map_values(|r: Vec<Terrain>| r@) =~= seq![]);
        while i < ls.len()
            invariant
                i <= ls@.len(),
                ps == pieces(ls@),
                ps == lines(block@),
                grid_of(ps.subrange(0, i as int)) == Some(grid@.map_values(|r: Vec<Terrain>| r@)),
            decreases ls@.len() - i,
        {
            assert(ps.subrange(0, i + 1).drop_last() =~= ps.subrange(0, i as int));
            assert(ps.subrange(0, i + 1).last() == ls@[i as int]@);
            match parse_cells(ls[i].as_slice()) {
                Some(row) => {
                    let ghost before = grid@.map_values(|r: Vec<Terrain>| r@);
                    let ghost rv = row@;
                    grid.push(row);
                    assert(grid@.map_values(|r: Vec<Terrain>| r@) =~= before.push(rv));
                },
                None => {
                    proof { lemma_grid_stays_none(ps, i + 1); }
                    return None;
                },
            }
            i = i + 1;
        }
        assert(ps.subrange(0, i as int) =~= ps);
        Some(Island { grid })
    }

    /// The summary of the pattern, with or without a smudge.
    pub fn summarize(&self, smudge: bool) -> (r: Option<u64>)
        ensures
            r matches Some(v) ==> summary(rows(self), smudge) == Some(v as nat),
            r is None ==> summary(rows(self), smudge) is None,
    {
        let ghost g = rows(self);
        if self.grid.len() == 0 || self.grid.len() > 128 {
            return None;
        }
        let width = self.grid[0].len();
        if width > 128 {
            return None;
        }
        let mut k: usize = 0;
        while k < self.grid.len()
            invariant
                k <= self.grid@.len(),
                g == rows(self),
                width == g[0].len(),
                forall|q: int| 0 <= q < k ==> (#[trigger] g[q]).len() == width,
            decreases self.grid@.len() - k,
        {
            assert(g[k as int] == self.grid@[k as int]@);
            if self.grid[k].len() != width {
                assert(!rectangular(g));
                return None;
            }
            k = k + 1;
        }
        assert(rectangular(g));
        assert forall|q: int| 0 <= q < self.grid@.len() implies (#[trigger] self.grid@[q])@.len() <= 128 by {
            assert(g[q] == self.grid@[q]@);
        }
        let h = self.get_horizontal_keys();
        assert(h@ =~= row_keys(g));
        let found = if smudge { find_symmetry_one_diff(h.as_slice()) } else { find_symmetry(h.as_slice()) };
        match found {
            Some(t) => {
                proof { lemma_search(row_keys(g), 0, smudge, Some(t as int)); }
                return Some(100 * (t as u64 + 1));
            },
            None => {
                proof { lemma_search(row_keys(g), 0, smudge, None); }
            },
        }
        let v = self.get_vertical_keys();
        assert(v@ =~= column_keys(g));
        let found = if smudge { find_symmetry_one_diff(v.as_slice()) } else { find_symmetry(v.as_slice()) };
        match found {
            Some(t) => {
                proof { lemma_search(column_keys(g), 0, smudge, Some(t as int)); }
                Some(t as u64 + 1)
            },
            None => {
                proof { lemma_search(column_keys(g), 0, smudge, None); }
                None
            },
        }
    }
}

/// A list of patterns.
pub struct Day13 {
    pub islands: Vec<Island>,
}

/// The rows of each pattern.
pub open spec fn island_views(is: Seq<Island>) -> Seq<Seq<Seq<Terrain>>> {
    is.map_values(|i: Island| rows(&i))
}

proof fn lemma_total_summary_fails(gs: Seq<Seq<Seq<Terrain>>>, smudge: bool, i: int)
    requires
        0 <= i <= gs.len(),
        total_summary(gs.subrange(0, i), smudge) is None || (total_summary(gs.subrange(0, i), smudge) matches Some(t) && t > u64::MAX),
    ensures
        crate::text::answer(total_summary(gs, smudge)) == Seq::<char>::empty(),
    decreases gs.len() - i,
{
    if i < gs.len() {
        assert(gs.subrange(0, i + 1).drop_last() =~= gs.subrange(0, i));
        lemma_total_summary_fails(gs, smudge, i + 1);
    } else {
        assert(gs.subrange(0, i) =~= gs);
    }
}

impl Day13 {
    /// Reads the patterns, separated by blank lines; `None` if one holds a
    /// byte other than `.`, `#` and the line breaks.
    pub fn make_day(input: &str) -> (r: Option<Day13>)
        ensures
            match islands_of(split(input.spec_bytes(), blank_line())) {
                Some(v) => r matches Some(d) && island_views(d.islands@) == v,
                None => r is None,
            },
    {
        let sep: [u8; 2] = [10, 10];
        assert(sep@ =~= blank_line());
        let blocks = split_on(input.as_bytes(), &sep);
        let ghost bs = pieces(blocks@);
        let mut islands: Vec<Island> = Vec::new();
        let mut i: usize = 0;
        assert(bs.subrange(0, 0) =~= seq![]);
        assert(island_views(islands@) =~= seq![]);
        while i < blocks.len()
            invariant
                i <= blocks@.len(),
                bs == pieces(blocks@),
                bs == split(input.spec_bytes(), blank_line()),
                islands_of(bs.subrange(0, i as int)) == Some(island_views(islands@)),
            decreases blocks@.len() - i,
        {
            assert(bs.subrange(0, i + 1).drop_last() =~= bs.subrange(0, i as int));
            assert(bs.subrange(0, i + 1).last() == blocks@[i as int]@);
            match Island::parse(blocks[i].as_slice()) {
                Some(island) => {
                    let ghost before = island_views(islands@);
                    let ghost iv = rows(&island);
                    islands.push(island);
                    assert(island_views(islands@) =~= before.push(iv));
                },
                None => {
                    proof { lemma_islands_stay_none(bs, i + 1); }
                    return None;
                },
            }
            i = i + 1;
        }
        assert(bs.subrange(0, i as int) =~= bs);
        Some(Day13 { islands })
    }

    /// The sum of the summaries, with or without smudges; the empty text if
    /// a pattern has no mirror.
    fn total(&self, smudge: bool) -> (r: String)
        ensures
            r@ == crate::text::answer(total_summary(island_views(self.islands@), smudge)),
    {
        let ghost gs = island_views(self.islands@);
        let mut total: u64 = 0;
        let mut i: usize = 0;
        while i < self.islands.len()
            invariant
                i <= self.islands@.len() == gs.len(),
                gs == island_views(self.islands@),
                total_summary(gs.subrange(0, i as int), smudge) == Some(total as nat),
            decreases self.islands@.len() - i,
        {
            assert(gs.subrange(0, i + 1).drop_last() =~= gs.subrange(0, i as int));
            match self.islands[i].summarize(smudge) {
                Some(v) => match total.checked_add(v) {
                    Some(t) => {
                        total = t;
                    },
                    None => {
                        proof { lemma_total_summary_fails(gs, smudge, i + 1); }
                        return String::new();
                    },
                },
                None => {
                    proof { lemma_total_summary_fails(gs, smudge, i + 1); }
                    return String::new();
                },
            }
            i = i + 1;
        }
        assert(gs.subrange(0, i as int) =~= gs);
        crate::text::answer_text(Some(total))
    }

    /// The sum of the summaries of the patterns.
    pub fn solution1(&self) -> (r: String)
        ensures
            r@ == crate::text::answer(total_summary(island_views(self.islands@), false)),
    {
        self.total(false)
    }

    /// The sum of the summaries of the patterns, each with its smudge.
    pub fn solution2(&self) -> (r: String)
        ensures
            r@ == crate::text::answer(total_summary(island_views(self.islands@), true)),
    {
        self.total(true)
    }
}

} // verus!
