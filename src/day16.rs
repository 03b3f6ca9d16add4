//! Light beams through a grid of mirrors and splitters: which cells a beam
//! entering from one edge energizes.
use vstd::prelude::*;
use vstd::string::StringSliceAdditionalSpecFns;
use crate::text::{lines, pieces, split_lines};

verus! {

/// A direction of travel.
#[derive(Clone, Copy, PartialEq, Eq, Debug, Structural)]
pub enum Direction {
    Up,
    Down,
    Left,
    Right,
}

/// What stands in a cell.
#[derive(Clone, Copy, PartialEq, Eq, Debug, Structural)]
pub enum Contraption {
    SplitterVertical,
    SplitterHorizontal,
    MirrorRight,
    MirrorLeft,
}

/// The directions in which a beam leaves a cell.
#[derive(Clone, Copy, PartialEq, Eq, Debug, Structural)]
pub enum LeavingDirections {
    One(Direction),
    Two { dir1: Direction, dir2: Direction },
}

/// The contraption that a character stands for: `|`, `-`, a backslash or
/// `/`; anything else is empty space.
pub open spec fn contraption_of(ch: u8) -> Option<Contraption> {
    if ch == 124 {
        Some(Contraption::SplitterVertical)
    } else if ch == 45 {
        Some(Contraption::SplitterHorizontal)
    } else if ch == 92 {
        Some(Contraption::MirrorRight)
    } else if ch == 47 {
        Some(Contraption::MirrorLeft)
    } else {
        None
    }
}

/// How a beam travelling in `d` leaves a cell holding `k`.
pub open spec fn leaving(k: Contraption, d: Direction) -> LeavingDirections {
    match (k, d) {
        (Contraption::SplitterVertical, Direction::Left) | (Contraption::SplitterVertical, Direction::Right) =>
            LeavingDirections::Two { dir1: Direction::Up, dir2: Direction::Down },
        (Contraption::SplitterVertical, dir) => LeavingDirections::One(dir),
        (Contraption::SplitterHorizontal, Direction::Up) | (Contraption::SplitterHorizontal, Direction::Down) =>
            LeavingDirections::Two { dir1: Direction::Left, dir2: Direction::Right },
        (Contraption::SplitterHorizontal, dir) => LeavingDirections::One(dir),
        (Contraption::MirrorRight, Direction::Up) => LeavingDirections::One(Direction::Left),
        (Contraption::MirrorRight, Direction::Down) => LeavingDirections::One(Direction::Right),
        (Contraption::MirrorRight, Direction::Left) => LeavingDirections::One(Direction::Up),
        (Contraption::MirrorRight, Direction::Right) => LeavingDirections::One(Direction::Down),
        (Contraption::MirrorLeft, Direction::Up) => LeavingDirections::One(Direction::Right),
        (Contraption::MirrorLeft, Direction::Down) => LeavingDirections::One(Direction::Left),
        (Contraption::MirrorLeft, Direction::Left) => LeavingDirections::One(Direction::Down),
        (Contraption::MirrorLeft, Direction::Right) => LeavingDirections::One(Direction::Up),
    }
}

impl Contraption {
    /// The contraption that a character stands for, if any.
    pub fn get_from_char(ch: u8) -> (r: Option<Contraption>)
        ensures
            r == contraption_of(ch),
    {
        if ch == 124 {
            Some(Contraption::SplitterVertical)
        } else if ch == 45 {
            Some(Contraption::SplitterHorizontal)
        } else if ch == 92 {
            Some(Contraption::MirrorRight)
        } else if ch == 47 {
            Some(Contraption::MirrorLeft)
        } else {
            None
        }
    }

    /// How a beam travelling in `ray_direction` leaves the cell.
    pub fn get_leaving_directions(&self, ray_direction: Direction) -> (r: LeavingDirections)
        ensures
            r == leaving(*self, ray_direction),
    {
        match (self, ray_direction) {
            (Contraption::SplitterVertical, Direction::Left) | (Contraption::SplitterVertical, Direction::Right) =>
                LeavingDirections::Two { dir1: Direction::Up, dir2: Direction::Down },
            (Contraption::SplitterVertical, dir) => LeavingDirections::One(dir),
            (Contraption::SplitterHorizontal, Direction::Up) | (Contraption::SplitterHorizontal, Direction::Down) =>
                LeavingDirections::Two { dir1: Direction::Left, dir2: Direction::Right },
            (Contraption::SplitterHorizontal, dir) => LeavingDirections::One(dir),
            (Contraption::MirrorRight, Direction::Up) => LeavingDirections::One(Direction::Left),
            (Contraption::MirrorRight, Direction::Down) => LeavingDirections::One(Direction::Right),
            (Contraption::MirrorRight, Direction::Left) => LeavingDirections::One(Direction::Up),
            (Contraption::MirrorRight, Direction::Right) => LeavingDirections::One(Direction::Down),
            (Contraption::MirrorLeft, Direction::Up) => LeavingDirections::One(Direction::Right),
            (Contraption::MirrorLeft, Direction::Down) => LeavingDirections::One(Direction::Left),
            (Contraption::MirrorLeft, Direction::Left) => LeavingDirections::One(Direction::Down),
            (Contraption::MirrorLeft, Direction::Right) => LeavingDirections::One(Direction::Up),
        }
    }
}

/// A beam: its direction and the cell it stands on (possibly just outside
/// the grid, for a beam about to enter).
#[derive(Clone, Copy, Debug)]
pub struct Ray {
    pub direction: Direction,
    pub pos: (isize, isize),
}

/// The cell that the beam moves into, if it is in a grid of `rows` by
/// `cols`.
pub open spec fn next_cell(ray: Ray, rows: int, cols: int) -> Option<(int, int)> {
    let (r, c) = (ray.pos.0 as int, ray.pos.1 as int);
    let (nr, nc) = match ray.direction {
        Direction::Up => (r - 1, c),
        Direction::Down => (r + 1, c),
        Direction::Left => (r, c - 1),
        Direction::Right => (r, c + 1),
    };
    if 0 <= nr < rows && 0 <= nc < cols { Some((nr, nc)) } else { None }
}

impl Ray {
    /// The cell that the beam moves into, if it is in the grid.
    pub fn get_next_cell(&self, nb_rows: usize, nb_cols: usize) -> (r: Option<(isize, isize)>)
        requires
            nb_rows < isize::MAX,
            nb_cols < isize::MAX,
            -1 <= self.pos.0 <= nb_rows,
            -1 <= self.pos.1 <= nb_cols,
        ensures
            match next_cell(*self, nb_rows as int, nb_cols as int) {
                Some((a, b)) => r == Some((a as isize, b as isize)),
                None => r is None,
            },
    {
        let (r, c) = self.pos;
        let (new_row, new_col) = match self.direction {
            Direction::Up => (r - 1, c),
            Direction::Down => (r + 1, c),
            Direction::Left => (r, c - 1),
            Direction::Right => (r, c + 1),
        };
        if 0 <= new_row && new_row < nb_rows as isize && 0 <= new_col && new_col < nb_cols as isize {
            Some((new_row, new_col))
        } else {
            None
        }
    }
}

/// The index of a direction in a cell's table of seen beams.
pub open spec fn dir_index(d: Direction) -> int {
    match d {
        Direction::Up => 0,
        Direction::Down => 1,
        Direction::Left => 2,
        Direction::Right => 3,
    }
}

/// The position of cell `r`, `c` in a table of a grid `cols` wide.
pub open spec fn cell_index(r: int, c: int, cols: int) -> int {
    r * cols + c
}

proof fn lemma_cell_index(r: int, c: int, rows: int, cols: int)
    requires
        0 <= r < rows,
        0 <= c < cols,
    ensures
        0 <= cell_index(r, c, cols) < rows * cols,
        0 <= cell_index(r, c, cols) * 4 + 3 < rows * cols * 4,
{
    assert(0 <= r * cols + c < rows * cols) by (nonlinear_arith)
        requires 0 <= r < rows, 0 <= c < cols;
    assert((r * cols + c) * 4 + 3 < rows * cols * 4) by (nonlinear_arith)
        requires r * cols + c < rows * cols, 0 <= r * cols + c;
}

/// The directions in which a beam travelling in `d` leaves a cell holding
/// `cell`, in order.
pub open spec fn out_dirs(cell: Option<Contraption>, d: Direction) -> Seq<Direction> {
    match cell {
        None => seq![d],
        Some(k) => match leaving(k, d) {
            LeavingDirections::One(x) => seq![x],
            LeavingDirections::Two { dir1, dir2 } => seq![dir1, dir2],
        },
    }
}

/// What the BFS keeps: the beams seen (cell and direction), the beams of
/// the next round, and the cells energized.
pub type BeamState = (Seq<bool>, Seq<Ray>, Seq<bool>);

/// Adds the beam leaving cell `r`, `c` in `d` to the next round unless it
/// was seen.
pub open spec fn add_beam(st: BeamState, r: int, c: int, d: Direction, cols: int) -> BeamState {
    let i = cell_index(r, c, cols) * 4 + dir_index(d);
    if st.0[i] {
        st
    } else {
        (st.0.update(i, true), st.1.push(Ray { direction: d, pos: (r as isize, c as isize) }), st.2)
    }
}

/// Moves one beam a cell on: the cell it enters is energized and the beams
/// leaving it are added.
pub open spec fn move_beam(g: Seq<Seq<Option<Contraption>>>, rows: int, cols: int, st: BeamState, ray: Ray) -> BeamState {
    match next_cell(ray, rows, cols) {
        None => st,
        Some((r, c)) => {
            let dirs = out_dirs(g[r][c], ray.direction);
            let st1 = add_beam(st, r, c, dirs[0], cols);
            let st2 = if dirs.len() == 2 { add_beam(st1, r, c, dirs[1], cols) } else { st1 };
            (st2.0, st2.1, st2.2.update(cell_index(r, c, cols), true))
        },
    }
}

/// The first `k` beams of a round moved on, in order.
pub open spec fn move_beams(g: Seq<Seq<Option<Contraption>>>, rows: int, cols: int, rays: Seq<Ray>, k: int, seen: Seq<bool>, energized: Seq<bool>) -> BeamState
    decreases k,
{
    if k <= 0 {
        (seen, seq![], energized)
    } else {
        move_beam(g, rows, cols, move_beams(g, rows, cols, rays, k - 1, seen, energized), rays[k - 1])
    }
}

/// Rounds of moving every beam on, for at most `fuel` rounds or until no
/// beam is left: the cells energized.
pub open spec fn run_beams(g: Seq<Seq<Option<Contraption>>>, rows: int, cols: int, rays: Seq<Ray>, seen: Seq<bool>, energized: Seq<bool>, fuel: nat) -> Seq<bool>
    decreases fuel,
{
    if rays.len() == 0 || fuel == 0 {
        energized
    } else {
        let st = move_beams(g, rows, cols, rays, rays.len() as int, seen, energized);
        run_beams(g, rows, cols, st.1, st.0, st.2, (fuel - 1) as nat)
    }
}

/// The number of `true` among the first `n` entries.
pub open spec fn count_true(s: Seq<bool>, n: int) -> nat
    decreases n,
{
    if n <= 0 {
        0
    } else {
        count_true(s, n - 1) + if s[n - 1] { 1nat } else { 0nat }
    }
}

/// The number of cells that a beam starting as `start` energizes: the
/// rounds of the breadth-first walk over beams, at most one more than there
/// are beams (cell and direction), each beam followed once.
pub open spec fn energized_cells(g: Seq<Seq<Option<Contraption>>>, start: Ray) -> nat {
    let rows = g.len() as int;
    let cols = g[0].len() as int;
    let e = run_beams(
        g,
        rows,
        cols,
        seq![start],
        Seq::new((rows * cols * 4) as nat, |i: int| false),
        Seq::new((rows * cols) as nat, |i: int| false),
        (rows * cols * 4 + 1) as nat,
    );
    count_true(e, rows * cols)
}

/// The grid is a non-empty rectangle small enough for its tables.
pub open spec fn grid_ok(g: Seq<Seq<Option<Contraption>>>) -> bool {
    &&& g.len() > 0
    &&& g[0].len() > 0
    &&& forall|r: int| 0 <= r < g.len() ==> (#[trigger] g[r]).len() == g[0].len()
    &&& g.len() * g[0].len() * 4 < usize::MAX
}

/// A beam that stands on the grid, or just outside it.
pub open spec fn ray_ok(ray: Ray, rows: int, cols: int) -> bool {
    -1 <= ray.pos.0 <= rows && -1 <= ray.pos.1 <= cols
}

/// A grid of contraptions.
pub struct Day16 {
    pub contraptions: Vec<Vec<Option<Contraption>>>,
}

/// The rows of the grid.
pub open spec fn grid_view(v: Seq<Vec<Option<Contraption>>>) -> Seq<Seq<Option<Contraption>>> {
    v.map_values(|r: Vec<Option<Contraption>>| r@)
}

/// Adds the beam to the next round unless it was seen.
fn add_if_not_in_cache(ray: Ray, cache: &mut Vec<bool>, new_rays: &mut Vec<Ray>, rows: usize, cols: usize)
    requires
        0 <= ray.pos.0 < rows,
        0 <= ray.pos.1 < cols,
        old(cache)@.len() == rows * cols * 4,
    ensures
        ({
            let st = add_beam((old(cache)@, old(new_rays)@, Seq::<bool>::empty()), ray.pos.0 as int, ray.pos.1 as int, ray.direction, cols as int);
            final(cache)@ == st.0 && final(new_rays)@ == st.1
        }),
        final(cache)@.len() == old(cache)@.len(),
{
    proof {
        lemma_cell_index(ray.pos.0 as int, ray.pos.1 as int, rows as int, cols as int);
    }
    let r = ray.pos.0 as usize;
    let c = ray.pos.1 as usize;
    let d: usize = match ray.direction {
        Direction::Up => 0,
        Direction::Down => 1,
        Direction::Left => 2,
        Direction::Right => 3,
    };
    let n = cache.len();
    assert(r * cols + c <= (r * cols + c) * 4 + d < n) by (nonlinear_arith)
        requires (r * cols + c) * 4 + 3 < n, 0 <= d <= 3, 0 <= r * cols + c, r * cols + c == cell_index(r as int, c as int, cols as int);
    assert(r * cols <= r * cols + c);
    let i = (r * cols + c) * 4 + d;
    if !cache[i] {
        cache.set(i, true);
        new_rays.push(ray);
    }
}

/// A table of `n` entries, all `false`.
fn falses(n: usize) -> (r: Vec<bool>)
    ensures
        r@ == Seq::new(n as nat, |i: int| false),
{
    let mut r: Vec<bool> = Vec::new();
    let mut i: usize = 0;
    while i < n
        invariant
            i <= n,
            r@ == Seq::new(i as nat, |j: int| false),
        decreases n - i,
    {
        r.push(false);
        i = i + 1;
        assert(r@ =~= Seq::new(i as nat, |j: int| false));
    }
    r
}

impl Day16 {
    /// The number of cells that a beam starting as `start_ray` energizes.
    pub fn compute_energized_cells(&self, start_ray: Ray) -> (r: usize)
        requires
            grid_ok(grid_view(self.contraptions@)),
            ray_ok(start_ray, self.contraptions@.len() as int, self.contraptions@[0]@.len() as int),
        ensures
            r == energized_cells(grid_view(self.contraptions@), start_ray),
    {
        let ghost g = grid_view(self.contraptions@);
        let rows = self.contraptions.len();
        let cols = self.contraptions[0].len();
        assert(g[0] == self.contraptions@[0]@);
        assert(rows * cols <= rows * cols * 4) by (nonlinear_arith) requires rows >= 1, cols >= 1;
        assert(rows <= rows * cols) by (nonlinear_arith) requires rows >= 1, cols >= 1;
        assert(cols <= rows * cols) by (nonlinear_arith) requires rows >= 1, cols >= 1;
        let size = rows * cols;
        let mut cache = falses(size * 4);
        let mut energized = falses(size);
        let mut current: Vec<Ray> = Vec::new();
        current.push(start_ray);
        let mut fuel: usize = size * 4 + 1;
        let ghost target = run_beams(
            g,
            rows as int,
            cols as int,
            seq![start_ray],
            Seq::new((rows * cols * 4) as nat, |i: int| false),
            Seq::new((rows * cols) as nat, |i: int| false),
            (rows * cols * 4 + 1) as nat,
        );
        assert(current@ =~= seq![start_ray]);
        while current.len() > 0 && fuel > 0
            invariant
                g == grid_view(self.contraptions@),
                grid_ok(g),
                rows == g.len(),
                cols == g[0].len(),
                size == rows * cols,
                cache@.len() == size * 4,
                energized@.len() == size,
                forall|k: int| 0 <= k < current@.len() ==> ray_ok(#[trigger] current@[k], rows as int, cols as int),
                run_beams(g, rows as int, cols as int, current@, cache@, energized@, fuel as nat) == target,
            decreases fuel,
        {
            let ghost seen0 = cache@;
            let ghost en0 = energized@;
            let mut new_rays: Vec<Ray> = Vec::new();
            let mut k: usize = 0;
            while k < current.len()
                invariant
                    g == grid_view(self.contraptions@),
                    grid_ok(g),
                    rows == g.len(),
                    cols == g[0].len(),
                    size == rows * cols,
                    k <= current@.len(),
                    cache@.len() == size * 4,
                    energized@.len() == size,
                    forall|q: int| 0 <= q < current@.len() ==> ray_ok(#[trigger] current@[q], rows as int, cols as int),
                    forall|q: int| 0 <= q < new_rays@.len() ==> ray_ok(#[trigger] new_rays@[q], rows as int, cols as int),
                    move_beams(g, rows as int, cols as int, current@, k as int, seen0, en0) == (cache@, new_rays@, energized@),
                decreases current@.len() - k,
            {
                let ray = current[k];
                assert(ray_ok(current@[k as int], rows as int, cols as int));
                assert(rows < isize::MAX && cols < isize::MAX) by (nonlinear_arith)
                    requires rows * cols * 4 < usize::MAX, rows >= 1, cols >= 1, usize::MAX <= 2 * (isize::MAX as int) + 1;
                match ray.get_next_cell(rows, cols) {
                    Some((r, c)) => {
                        let ru = r as usize;
                        let cu = c as usize;
                        assert(g[ru as int] == self.contraptions@[ru as int]@);
                        assert(g[ru as int].len() == cols);
                        let cell = self.contraptions[ru][cu];
                        let ghost dirs = out_dirs(cell, ray.direction);
                        let ghost st0 = (cache@, new_rays@, energized@);
                        match cell {
                            None => {
                                add_if_not_in_cache(Ray { direction: ray.direction, pos: (r, c) }, &mut cache, &mut new_rays, rows, cols);
                            },
                            Some(kind) => match kind.get_leaving_directions(ray.direction) {
                                LeavingDirections::One(d) => {
                                    add_if_not_in_cache(Ray { direction: d, pos: (r, c) }, &mut cache, &mut new_rays, rows, cols);
                                },
                                LeavingDirections::Two { dir1, dir2 } => {
                                    add_if_not_in_cache(Ray { direction: dir1, pos: (r, c) }, &mut cache, &mut new_rays, rows, cols);
                                    add_if_not_in_cache(Ray { direction: dir2, pos: (r, c) }, &mut cache, &mut new_rays, rows, cols);
                                },
                            },
                        }
                        proof {
                            lemma_cell_index(r as int, c as int, rows as int, cols as int);
                        }
                        let n = energized.len();
                        assert(ru * cols + cu < n) by (nonlinear_arith)
                            requires ru * cols + cu == cell_index(ru as int, cu as int, cols as int), cell_index(ru as int, cu as int, cols as int) < rows * cols, n == rows * cols;
                        assert(ru * cols <= ru * cols + cu);
                        energized.set(ru * cols + cu, true);
                    },
                    None => {},
                }
                k = k + 1;
            }
            assert(current@.len() > 0);
            current = new_rays;
            fuel = fuel - 1;
        }
        let mut count: usize = 0;
        let mut i: usize = 0;
        while i < energized.len()
            invariant
                i <= energized@.len(),
                count == count_true(energized@, i as int),
                count <= i,
            decreases energized@.len() - i,
        {
            if energized[i] {
                count = count + 1;
            }
            i = i + 1;
        }
        count
    }
}

/// The beams that enter the grid from its edges: into each row from the
/// left and from the right, then into each column from the top and from the
/// bottom.
pub open spec fn edge_rays_spec(rows: int, cols: int) -> Seq<Ray> {
    Seq::new((2 * rows + 2 * cols) as nat, |i: int|
        if i < 2 * rows {
            if i % 2 == 0 {
                Ray { direction: Direction::Right, pos: ((i / 2) as isize, -1isize) }
            } else {
                Ray { direction: Direction::Left, pos: ((i / 2) as isize, cols as isize) }
            }
        } else {
            let j = i - 2 * rows;
            if j % 2 == 0 {
                Ray { direction: Direction::Down, pos: (-1isize, (j / 2) as isize) }
            } else {
                Ray { direction: Direction::Up, pos: (rows as isize, (j / 2) as isize) }
            }
        })
}

/// The largest of the first `n` counts.
pub open spec fn max_of(v: Seq<nat>, n: int) -> nat
    decreases n,
{
    if n <= 0 {
        0
    } else if v[n - 1] > max_of(v, n - 1) {
        v[n - 1]
    } else {
        max_of(v, n - 1)
    }
}

impl Day16 {
    /// Reads the grid, one row per line; `None` unless it is a non-empty
    /// rectangle small enough for the beam tables.
    pub fn make_day(input: &str) -> (r: Option<Day16>)
        ensures
            r matches Some(d) ==> grid_ok(grid_view(d.contraptions@)) && grid_view(d.contraptions@)
                == lines(input.spec_bytes()).map_values(|l: Seq<u8>| l.map_values(|b: u8| contraption_of(b))),
            r is None ==> !grid_ok(lines(input.spec_bytes()).map_values(|l: Seq<u8>| l.map_values(|b: u8| contraption_of(b)))),
    {
        let ls = split_lines(input.as_bytes());
        let ghost target = pieces(ls@).map_values(|l: Seq<u8>| l.map_values(|b: u8| contraption_of(b)));
        assert(target == lines(input.spec_bytes()).map_values(|l: Seq<u8>| l.map_values(|b: u8| contraption_of(b))));
        let mut rows: Vec<Vec<Option<Contraption>>> = Vec::new();
        let mut i: usize = 0;
        while i < ls.len()
            invariant
                i <= ls@.len(),
                target == pieces(ls@).map_values(|l: Seq<u8>| l.map_values(|b: u8| contraption_of(b))),
                grid_view(rows@) == target.subrange(0, i as int),
            decreases ls@.len() - i,
        {
            let line = &ls[i];
            let mut row: Vec<Option<Contraption>> = Vec::new();
            let mut j: usize = 0;
            while j < line.len()
                invariant
                    j <= line@.len(),
                    row@ == line@.map_values(|b: u8| contraption_of(b)).subrange(0, j as int),
                decreases line@.len() - j,
            {
                row.push(Contraption::get_from_char(line[j]));
                j = j + 1;
                assert(row@ =~= line@.map_values(|b: u8| contraption_of(b)).subrange(0, j as int));
            }
            assert(row@ =~= line@.map_values(|b: u8| contraption_of(b)));
            let ghost before = grid_view(rows@);
            rows.push(row);
            assert(grid_view(rows@) =~= before.push(target[i as int]));
            i = i + 1;
            assert(grid_view(rows@) =~= target.subrange(0, i as int));
        }
        assert(target.subrange(0, i as int) =~= target);
        let ghost g = grid_view(rows@);
        if rows.len() == 0 || rows[0].len() == 0 {
            proof {
                if rows@.len() > 0 {
                    assert(g[0] == rows@[0]@);
                }
            }
            return None;
        }
        assert(g[0] == rows@[0]@);
        let width = rows[0].len();
        let mut k: usize = 0;
        while k < rows.len()
            invariant
                k <= rows@.len(),
                g == grid_view(rows@),
                g == target,
                target == lines(input.spec_bytes()).map_values(|l: Seq<u8>| l.map_values(|b: u8| contraption_of(b))),
                width == g[0].len(),
                forall|q: int| 0 <= q < k ==> (#[trigger] g[q]).len() == width,
            decreases rows@.len() - k,
        {
            assert(g[k as int] == rows@[k as int]@);
            if rows[k].len() != width {
                return None;
            }
            k = k + 1;
        }
        let n = rows.len() as u128;
        let w = width as u128;
        assert(n * w <= 0xffff_ffff_ffff_ffff * 0xffff_ffff_ffff_ffff) by (nonlinear_arith)
            requires n <= 0xffff_ffff_ffff_ffff, w <= 0xffff_ffff_ffff_ffff;
        let nw = n * w;
        if nw > (usize::MAX as u128 - 1) / 4 {
            assert(nw * 4 >= usize::MAX);
            return None;
        }
        assert(nw * 4 < usize::MAX);
        Some(Day16 { contraptions: rows })
    }

    /// The number of cells energized by a beam entering the top-left cell
    /// from the left.
    pub fn solution1(&self) -> (r: String)
        requires
            grid_ok(grid_view(self.contraptions@)),
        ensures
            r@ == crate::text::decimal(energized_cells(grid_view(self.contraptions@), Ray { direction: Direction::Right, pos: (0isize, -1isize) }) as nat),
    {
        let n = self.compute_energized_cells(Ray { direction: Direction::Right, pos: (0, -1) });
        crate::text::u64_text(n as u64)
    }

    /// The beams that enter the grid from its edges.
    pub fn edge_rays(&self) -> (r: Vec<Ray>)
        requires
            grid_ok(grid_view(self.contraptions@)),
        ensures
            r@ == edge_rays_spec(self.contraptions@.len() as int, self.contraptions@[0]@.len() as int),
            forall|k: int| 0 <= k < r@.len() ==> ray_ok(#[trigger] r@[k], self.contraptions@.len() as int, self.contraptions@[0]@.len() as int),
    {
        let ghost g = grid_view(self.contraptions@);
        assert(g[0] == self.contraptions@[0]@);
        let rows = self.contraptions.len();
        let cols = self.contraptions[0].len();
        assert(rows < isize::MAX && cols < isize::MAX && 2 * rows + 2 * cols < usize::MAX) by (nonlinear_arith)
            requires rows * cols * 4 < usize::MAX, rows >= 1, cols >= 1, usize::MAX <= 2 * (isize::MAX as int) + 1;
        let ghost target = edge_rays_spec(rows as int, cols as int);
        let mut r: Vec<Ray> = Vec::new();
        let mut i: usize = 0;
        while i < rows
            invariant
                i <= rows,
                rows < isize::MAX,
                cols < isize::MAX,
                2 * rows + 2 * cols < usize::MAX,
                target == edge_rays_spec(rows as int, cols as int),
                r@ == target.subrange(0, 2 * i),
            decreases rows - i,
        {
            r.push(Ray { direction: Direction::Right, pos: (i as isize, -1) });
            r.push(Ray { direction: Direction::Left, pos: (i as isize, cols as isize) });
            i = i + 1;
            assert(r@ =~= target.subrange(0, 2 * i));
        }
        let mut j: usize = 0;
        while j < cols
            invariant
                j <= cols,
                rows < isize::MAX,
                cols < isize::MAX,
                2 * rows + 2 * cols < usize::MAX,
                target == edge_rays_spec(rows as int, cols as int),
                r@ == target.subrange(0, 2 * rows + 2 * j),
            decreases cols - j,
        {
            r.push(Ray { direction: Direction::Down, pos: (-1, j as isize) });
            r.push(Ray { direction: Direction::Up, pos: (rows as isize, j as isize) });
            j = j + 1;
            assert(r@ =~= target.subrange(0, 2 * rows + 2 * j));
        }
        assert(r@ =~= target);
        r
    }

    /// The most cells that a beam entering from an edge energizes, trying
    /// each edge beam in turn.
    pub fn solution2(&self) -> (r: String)
        requires
            grid_ok(grid_view(self.contraptions@)),
        ensures
            ({
                let g = grid_view(self.contraptions@);
                let starts = edge_rays_spec(self.contraptions@.len() as int, self.contraptions@[0]@.len() as int);
                r@ == crate::text::decimal(max_of(Seq::new(starts.len(), |k: int| energized_cells(g, starts[k])), starts.len() as int))
            }),
    {
        let ghost g = grid_view(self.contraptions@);
        let starts = self.edge_rays();
        let ghost counts = Seq::new(starts@.len(), |k: int| energized_cells(g, starts@[k]));
        let mut best: usize = 0;
        let mut k: usize = 0;
        while k < starts.len()
            invariant
                k <= starts@.len(),
                g == grid_view(self.contraptions@),
                grid_ok(g),
                counts == Seq::new(starts@.len(), |q: int| energized_cells(g, starts@[q])),
                forall|q: int| 0 <= q < starts@.len() ==> ray_ok(#[trigger] starts@[q], self.contraptions@.len() as int, self.contraptions@[0]@.len() as int),
                best == max_of(counts, k as int),
            decreases starts@.len() - k,
        {
            let n = self.compute_energized_cells(starts[k]);
            if n > best {
                best = n;
            }
            k = k + 1;
        }
        crate::text::u64_text(best as u64)
    }
}

} // verus!
