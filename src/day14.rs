//! Rolling rocks on a tilting platform: the part of the cycle detection
//! that reads the gaps between the steps at which a load was seen.
use vstd::prelude::*;
use vstd::string::StringSliceAdditionalSpecFns;
use crate::text::{lines, pieces, split_lines};

verus! {

/// The gaps between consecutive entries of the non-decreasing `values`.
pub fn get_differences(values: &[usize]) -> (r: Vec<usize>)
    requires
        forall|i: int| 0 <= i < values@.len() - 1 ==> #[trigger] values@[i] <= values@[i + 1],
    ensures
        r@.len() == if values@.len() == 0 { 0 } else { values@.len() - 1 },
        forall|i: int| 0 <= i < r@.len() ==> #[trigger] r@[i] == values@[i + 1] - values@[i],
{
    let mut r: Vec<usize> = Vec::new();
    if values.len() == 0 {
        return r;
    }
    let mut i: usize = 0;
    while i < values.len() - 1
        invariant
            i + 1 <= values@.len(),
            forall|k: int| 0 <= k < values@.len() - 1 ==> #[trigger] values@[k] <= values@[k + 1],
            r@.len() == i,
            forall|k: int| 0 <= k < i ==> #[trigger] r@[k] == values@[k + 1] - values@[k],
        decreases values@.len() - i,
    {
        r.push(values[i + 1] - values[i]);
        i = i + 1;
    }
    r
}

/// One cell of the platform.
#[derive(Clone, Copy, PartialEq, Eq, Debug, Structural)]
pub enum Tile {
    Empty,
    Square,
    Circle,
}

/// The tile that a character stands for: `.`, `#` or `O`.
pub open spec fn tile_of(b: u8) -> Option<Tile> {
    if b == 46 {
        Some(Tile::Empty)
    } else if b == 35 {
        Some(Tile::Square)
    } else if b == 79 {
        Some(Tile::Circle)
    } else {
        None
    }
}

/// Where the scan of a lane of `len` cells starts, its step, and the order
/// of the positions it visits: from the start, or from the end when
/// `reversed`.
pub fn get_set_up(len: usize, reversed: bool) -> (r: (i64, i64))
    requires
        len <= i64::MAX,
    ensures
        reversed ==> r.0 == len - 1 && r.1 == -1,
        !reversed ==> r.0 == 0 && r.1 == 1,
{
    if reversed {
        (len as i64 - 1, -1)
    } else {
        (0, 1)
    }
}

/// The position visited at step `k` of a scan of `n` cells.
pub open spec fn visit(n: int, k: int, reversed: bool) -> int {
    if reversed { n - 1 - k } else { k }
}

/// A lane after its first `k` visited cells are rolled: round rocks roll
/// towards the start of the scan until they meet a square rock or another
/// round rock; the next free cell.
pub open spec fn roll(lane: Seq<Tile>, k: int, reversed: bool) -> (Seq<Tile>, int)
    decreases k,
{
    let n = lane.len() as int;
    if k <= 0 {
        (Seq::new(lane.len(), |i: int| Tile::Empty), if reversed { n - 1 } else { 0 })
    } else {
        let (out, free) = roll(lane, k - 1, reversed);
        let idx = visit(n, k - 1, reversed);
        let step = if reversed { -1int } else { 1int };
        match lane[idx] {
            Tile::Square => (out.update(idx, Tile::Square), idx + step),
            Tile::Circle => (out.update(free, Tile::Circle), free + step),
            Tile::Empty => (out, free),
        }
    }
}

proof fn lemma_roll_free(lane: Seq<Tile>, k: int, reversed: bool)
    requires
        0 <= k <= lane.len(),
    ensures
        roll(lane, k, reversed).0.len() == lane.len(),
        !reversed ==> 0 <= roll(lane, k, reversed).1 <= k,
        reversed ==> lane.len() - 1 - k <= roll(lane, k, reversed).1 <= lane.len() - 1,
    decreases k,
{
    if k > 0 {
        lemma_roll_free(lane, k - 1, reversed);
    }
}

/// A lane with its round rocks rolled towards the start of the scan.
pub fn tilt_lane(lane: &Vec<Tile>, reversed: bool) -> (r: Vec<Tile>)
    requires
        lane@.len() < i64::MAX,
    ensures
        r@ == roll(lane@, lane@.len() as int, reversed).0,
{
    let n = lane.len();
    let mut out: Vec<Tile> = Vec::new();
    let mut i: usize = 0;
    while i < n
        invariant
            i <= n == lane@.len(),
            out@ == Seq::new(i as nat, |j: int| Tile::Empty),
        decreases n - i,
    {
        out.push(Tile::Empty);
        i = i + 1;
        assert(out@ =~= Seq::new(i as nat, |j: int| Tile::Empty));
    }
    let (start, step) = get_set_up(n, reversed);
    let mut free: i64 = start;
    let mut k: usize = 0;
    while k < n
        invariant
            k <= n == lane@.len() < i64::MAX,
            reversed ==> step == -1,
            !reversed ==> step == 1,
            (out@, free as int) == roll(lane@, k as int, reversed),
        decreases n - k,
    {
        proof {
            lemma_roll_free(lane@, k as int, reversed);
        }
        let idx: usize = if reversed { n - 1 - k } else { k };
        match lane[idx] {
            Tile::Square => {
                out.set(idx, Tile::Square);
                free = idx as i64 + step;
            },
            Tile::Circle => {
                let f = free as usize;
                out.set(f, Tile::Circle);
                free = free + step;
            },
            Tile::Empty => {},
        }
        k = k + 1;
    }
    out
}

/// Column `c` of the rows `g`.
pub open spec fn column(g: Seq<Seq<Tile>>, c: int) -> Seq<Tile> {
    Seq::new(g.len(), |r: int| g[r][c])
}

/// The rows `g` tilted: along the columns (`axis_number` 1) or along the
/// rows (0), towards the start of each, or towards the end when `reversed`.
pub open spec fn tilted(g: Seq<Seq<Tile>>, axis_number: int, reversed: bool) -> Seq<Seq<Tile>> {
    if axis_number == 1 {
        Seq::new(g.len(), |r: int| Seq::new(g[0].len(), |c: int| roll(column(g, c), g.len() as int, reversed).0[r]))
    } else {
        Seq::new(g.len(), |r: int| roll(g[r], g[r].len() as int, reversed).0)
    }
}

/// The rows are a non-empty rectangle.
pub open spec fn platform_ok(g: Seq<Seq<Tile>>) -> bool {
    g.len() > 0 && g.len() < i64::MAX && g[0].len() < i64::MAX && forall|r: int| 0 <= r < g.len() ==> (#[trigger] g[r]).len() == g[0].len()
}

/// The rows of a platform.
pub open spec fn platform_view(v: Seq<Vec<Tile>>) -> Seq<Seq<Tile>> {
    v.map_values(|r: Vec<Tile>| r@)
}

/// The platform with its round rocks rolled: along the columns
/// (`axis_number` 1) or the rows (otherwise), towards the start of each
/// lane, or the end when `reversed`.
pub fn tilt(tiles: &Vec<Vec<Tile>>, axis_number: usize, reversed: bool) -> (r: Vec<Vec<Tile>>)
    requires
        platform_ok(platform_view(tiles@)),
    ensures
        platform_view(r@) == tilted(platform_view(tiles@), axis_number as int, reversed),
{
    let ghost g = platform_view(tiles@);
    let rows = tiles.len();
    assert(g[0] == tiles@[0]@);
    let cols = tiles[0].len();
    let mut result: Vec<Vec<Tile>> = Vec::new();
    if axis_number == 1 {
        let mut lanes: Vec<Vec<Tile>> = Vec::new();
        let mut c: usize = 0;
        while c < cols
            invariant
                c <= cols == g[0].len(),
                rows == g.len(),
                g == platform_view(tiles@),
                platform_ok(g),
                lanes@.len() == c,
                forall|q: int| 0 <= q < c ==> (#[trigger] lanes@[q])@ == roll(column(g, q), rows as int, reversed).0,
            decreases cols - c,
        {
            let mut col: Vec<Tile> = Vec::new();
            let mut r: usize = 0;
            while r < rows
                invariant
                    r <= rows == g.len(),
                    c < cols == g[0].len(),
                    g == platform_view(tiles@),
                    platform_ok(g),
                    col@ == column(g, c as int).subrange(0, r as int),
                decreases rows - r,
            {
                assert(g[r as int] == tiles@[r as int]@);
                col.push(tiles[r][c]);
                r = r + 1;
                assert(col@ =~= column(g, c as int).subrange(0, r as int));
            }
            assert(col@ =~= column(g, c as int));
            lanes.push(tilt_lane(&col, reversed));
            c = c + 1;
        }
        let mut r: usize = 0;
        while r < rows
            invariant
                r <= rows == g.len(),
                cols == g[0].len(),
                g == platform_view(tiles@),
                platform_ok(g),
                lanes@.len() == cols,
                forall|q: int| 0 <= q < cols ==> (#[trigger] lanes@[q])@ == roll(column(g, q), rows as int, reversed).0,
                platform_view(result@) == tilted(g, 1, reversed).subrange(0, r as int),
            decreases rows - r,
        {
            let mut row: Vec<Tile> = Vec::new();
            let mut c: usize = 0;
            while c < cols
                invariant
                    c <= cols == g[0].len(),
                    r < rows == g.len(),
                    lanes@.len() == cols,
                    forall|q: int| 0 <= q < cols ==> (#[trigger] lanes@[q])@ == roll(column(g, q), rows as int, reversed).0,
                    row@ == tilted(g, 1, reversed)[r as int].subrange(0, c as int),
                decreases cols - c,
            {
                proof {
                    lemma_roll_free(column(g, c as int), rows as int, reversed);
                }
                assert(lanes@[c as int]@.len() == rows);
                row.push(lanes[c][r]);
                c = c + 1;
                assert(row@ =~= tilted(g, 1, reversed)[r as int].subrange(0, c as int));
            }
            let ghost before = platform_view(result@);
            assert(row@ =~= tilted(g, 1, reversed)[r as int]);
            let ghost rv = row@;
            result.push(row);
            assert(platform_view(result@) =~= before.push(rv));
            r = r + 1;
            assert(platform_view(result@) =~= tilted(g, 1, reversed).subrange(0, r as int));
        }
    } else {
        let mut r: usize = 0;
        while r < rows
            invariant
                r <= rows == g.len(),
                g == platform_view(tiles@),
                platform_ok(g),
                axis_number != 1,
                platform_view(result@) == tilted(g, axis_number as int, reversed).subrange(0, r as int),
            decreases rows - r,
        {
            assert(g[r as int] == tiles@[r as int]@);
            let lane = tilt_lane(&tiles[r], reversed);
            let ghost before = platform_view(result@);
            let ghost lv = lane@;
            assert(lv == tilted(g, axis_number as int, reversed)[r as int]);
            result.push(lane);
            assert(platform_view(result@) =~= before.push(lv));
            r = r + 1;
            assert(platform_view(result@) =~= tilted(g, axis_number as int, reversed).subrange(0, r as int));
        }
    }
    assert(platform_view(result@) =~= tilted(g, axis_number as int, reversed));
    result
}

/// The number of round rocks among the first `n` cells of a row.
pub open spec fn circles(row: Seq<Tile>, n: int) -> nat
    decreases n,
{
    if n <= 0 {
        0
    } else {
        circles(row, n - 1) + if row[n - 1] == Tile::Circle { 1nat } else { 0nat }
    }
}

/// The load of the first `n` rows: each round rock weighs the number of
/// rows from its own to the bottom edge.
pub open spec fn load(g: Seq<Seq<Tile>>, n: int) -> nat
    decreases n,
{
    if n <= 0 {
        0
    } else {
        load(g, n - 1) + circles(g[n - 1], g[n - 1].len() as int) * (g.len() - (n - 1)) as nat
    }
}

proof fn lemma_circles_bound(row: Seq<Tile>, n: int)
    requires
        0 <= n,
    ensures
        circles(row, n) <= n,
    decreases n,
{
    if n > 0 {
        lemma_circles_bound(row, n - 1);
    }
}

proof fn lemma_load_grows(g: Seq<Seq<Tile>>, i: int, n: int)
    requires
        0 <= i <= n,
    ensures
        load(g, i) <= load(g, n),
    decreases n - i,
{
    if i < n {
        lemma_load_grows(g, i, n - 1);
    }
}

/// The load on the north beams; `None` if it leaves 64 bits.
pub fn get_load(tiles: &Vec<Vec<Tile>>) -> (r: Option<u64>)
    ensures
        r matches Some(v) ==> v == load(platform_view(tiles@), tiles@.len() as int),
        r is None ==> load(platform_view(tiles@), tiles@.len() as int) > u64::MAX,
{
    let ghost g = platform_view(tiles@);
    let rows = tiles.len();
    let mut total: u64 = 0;
    let mut r: usize = 0;
    while r < rows
        invariant
            r <= rows == g.len(),
            g == platform_view(tiles@),
            total == load(g, r as int),
        decreases rows - r,
    {
        let row = &tiles[r];
        assert(g[r as int] == row@);
        let mut count: u64 = 0;
        let mut c: usize = 0;
        while c < row.len()
            invariant
                c <= row@.len(),
                count == circles(row@, c as int),
                count <= c,
            decreases row@.len() - c,
        {
            if row[c] == Tile::Circle {
                count = count + 1;
            }
            c = c + 1;
        }
        let weight = (rows - r) as u64;
        let term = match count.checked_mul(weight) {
            Some(t) => t,
            None => {
                proof {
                    lemma_load_grows(g, r + 1, rows as int);
                }
                return None;
            },
        };
        match total.checked_add(term) {
            Some(t) => {
                total = t;
            },
            None => {
                proof {
                    lemma_load_grows(g, r + 1, rows as int);
                }
                return None;
            },
        }
        r = r + 1;
    }
    Some(total)
}

/// A platform of rocks.
pub struct Day14 {
    pub tiles: Vec<Vec<Tile>>,
}

/// The rows that the lines write, if each byte is a tile.
pub open spec fn platform_of(ls: Seq<Seq<u8>>) -> Option<Seq<Seq<Tile>>> {
    if forall|r: int, c: int| 0 <= r < ls.len() && 0 <= c < ls[r].len() ==> (#[trigger] tile_of(ls[r][c])) is Some {
        Some(ls.map_values(|l: Seq<u8>| l.map_values(|b: u8| tile_of(b)->0)))
    } else {
        None
    }
}

impl Day14 {
    /// Reads the platform, one row per line; `None` if a byte is not a
    /// tile, or the rows are not a non-empty rectangle.
    pub fn make_day(input: &str) -> (r: Option<Day14>)
        ensures
            r matches Some(d) ==> platform_ok(platform_view(d.tiles@))
                && platform_of(lines(input.spec_bytes())) == Some(platform_view(d.tiles@)),
            r is None ==> (platform_of(lines(input.spec_bytes())) matches Some(g) ==> !platform_ok(g)),
    {
        let ls = split_lines(input.as_bytes());
        let ghost ps = pieces(ls@);
        let ghost target = ps.map_values(|l: Seq<u8>| l.map_values(|b: u8| tile_of(b)->0));
        let mut tiles: Vec<Vec<Tile>> = Vec::new();
        let mut i: usize = 0;
        while i < ls.len()
            invariant
                i <= ls@.len(),
                ps == pieces(ls@),
                ps == lines(input.spec_bytes()),
                target == ps.map_values(|l: Seq<u8>| l.map_values(|b: u8| tile_of(b)->0)),
                forall|r: int, c: int| 0 <= r < i && 0 <= c < ps[r].len() ==> (#[trigger] tile_of(ps[r][c])) is Some,
                platform_view(tiles@) == target.subrange(0, i as int),
            decreases ls@.len() - i,
        {
            let line = &ls[i];
            assert(ps[i as int] == line@);
            let mut row: Vec<Tile> = Vec::new();
            let mut j: usize = 0;
            while j < line.len()
                invariant
                    j <= line@.len(),
                    i < ps.len(),
                    ps[i as int] == line@,
                    ps == lines(input.spec_bytes()),
                    forall|c: int| 0 <= c < j ==> (#[trigger] tile_of(line@[c])) is Some,
                    row@ == line@.map_values(|b: u8| tile_of(b)->0).subrange(0, j as int),
                decreases line@.len() - j,
            {
                let b = line[j];
                let t = if b == 46 {
                    Tile::Empty
                } else if b == 35 {
                    Tile::Square
                } else if b == 79 {
                    Tile::Circle
                } else {
                    assert(tile_of(line@[j as int]) is None);
                    assert(!(tile_of(ps[i as int][j as int]) is Some));
                    return None;
                };
                row.push(t);
                j = j + 1;
                assert(row@ =~= line@.map_values(|b: u8| tile_of(b)->0).subrange(0, j as int));
            }
            assert(row@ =~= line@.map_values(|b: u8| tile_of(b)->0));
            let ghost before = platform_view(tiles@);
            let ghost rv = row@;
            tiles.push(row);
            assert(platform_view(tiles@) =~= before.push(rv));
            i = i + 1;
            assert(platform_view(tiles@) =~= target.subrange(0, i as int));
        }
        assert(target.subrange(0, i as int) =~= target);
        let ghost g = platform_view(tiles@);
        assert(platform_of(lines(input.spec_bytes())) == Some(g));
        if tiles.len() == 0 || tiles.len() as u64 >= 0x7fff_ffff_ffff_ffff {
            return None;
        }
        assert(g[0] == tiles@[0]@);
        let width = tiles[0].len();
        if width as u64 >= 0x7fff_ffff_ffff_ffff {
            return None;
        }
        let mut k: usize = 0;
        while k < tiles.len()
            invariant
                k <= tiles@.len(),
                g == platform_view(tiles@),
                platform_of(lines(input.spec_bytes())) == Some(g),
                width == g[0].len(),
                forall|q: int| 0 <= q < k ==> (#[trigger] g[q]).len() == width,
            decreases tiles@.len() - k,
        {
            assert(g[k as int] == tiles@[k as int]@);
            if tiles[k].len() != width {
                return None;
            }
            k = k + 1;
        }
        Some(Day14 { tiles })
    }

    /// The load on the north beams once every round rock has rolled north;
    /// the empty text if it leaves 64 bits.
    pub fn solution1(&self) -> (r: String)
        requires
            platform_ok(platform_view(self.tiles@)),
        ensures
            ({
                let t = tilted(platform_view(self.tiles@), 1, false);
                r@ == crate::text::answer(Some(load(t, t.len() as int)))
            }),
    {
        let tilted_tiles = tilt(&self.tiles, 1, false);
        match get_load(&tilted_tiles) {
            Some(v) => crate::text::answer_text(Some(v)),
            None => String::new(),
        }
    }
}

} // verus!
