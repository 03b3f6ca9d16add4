//! Cube games: each game is a list of grabs of red, green and blue cubes.
use vstd::prelude::*;
use vstd::string::StringSliceAdditionalSpecFns;
use crate::text::{
    bytes_equal,
    answer, answer_text, is_number, number_value, parse_number, pieces, split, split_lines,
    split_on, split_words, words,
};

verus! {

/// The number of cubes of each color in one grab: red, green, blue.
pub struct CubeGrab {
    pub nb_cubes_by_color: [u32; 3],
}

/// A game: its number and its grabs.
pub struct Game {
    pub grabs: Vec<CubeGrab>,
    pub id: u32,
}

/// The mathematical form of a game.
pub struct GameView {
    pub id: nat,
    pub grabs: Seq<Seq<u32>>,
}

impl View for Game {
    type V = GameView;

    open spec fn view(&self) -> GameView {
        GameView { id: self.id as nat, grabs: self.grabs@.map_values(|g: CubeGrab| g.nb_cubes_by_color@) }
    }
}

/// The index of a color name: red, green, blue.
pub open spec fn color_index(w: Seq<u8>) -> Option<int> {
    if w == seq![114u8, 101, 100] {
        Some(0)
    } else if w == seq![103u8, 114, 101, 101, 110] {
        Some(1)
    } else if w == seq![98u8, 108, 117, 101] {
        Some(2)
    } else {
        None
    }
}

/// The counts that the entries `parts` (`<number> <color>` each) give,
/// a later entry of a color replacing an earlier one.
pub open spec fn apply_entries(parts: Seq<Seq<u8>>) -> Option<Seq<u32>>
    decreases parts.len(),
{
    if parts.len() == 0 {
        Some(seq![0u32, 0, 0])
    } else {
        match apply_entries(parts.drop_last()) {
            None => None,
            Some(c) => {
                let ws = words(parts.last());
                if ws.len() >= 2 && is_number(ws[0]) && number_value(ws[0]) <= u32::MAX
                    && color_index(ws[1]) is Some {
                    Some(c.update(color_index(ws[1])->0, number_value(ws[0]) as u32))
                } else {
                    None
                }
            },
        }
    }
}

/// The grab that `s` writes: entries separated by commas.
pub open spec fn parse_grab_spec(s: Seq<u8>) -> Option<Seq<u32>> {
    apply_entries(split(s, seq![44u8]))
}

/// The grabs that the pieces `parts` write, if each writes one.
pub open spec fn parse_grabs(parts: Seq<Seq<u8>>) -> Option<Seq<Seq<u32>>>
    decreases parts.len(),
{
    if parts.len() == 0 {
        Some(seq![])
    } else {
        match (parse_grabs(parts.drop_last()), parse_grab_spec(parts.last())) {
            (Some(gs), Some(g)) => Some(gs.push(g)),
            _ => None,
        }
    }
}

/// The game that a line `Game <id>: <grab>; <grab>; ...` writes.
pub open spec fn parse_game_spec(line: Seq<u8>) -> Option<GameView> {
    let parts = split(line, seq![58u8]);
    if parts.len() < 2 {
        None
    } else {
        let head = words(parts[0]);
        if head.len() == 0 || !is_number(head.last()) || number_value(head.last()) > u32::MAX {
            None
        } else {
            match parse_grabs(split(parts[1], seq![59u8])) {
                Some(gs) => Some(GameView { id: number_value(head.last()), grabs: gs }),
                None => None,
            }
        }
    }
}

/// The position of a color name.
fn color_of(w: &Vec<u8>) -> (r: Option<usize>)
    ensures
        match color_index(w@) {
            Some(c) => r == Some(c as usize),
            None => r is None,
        },
{
    let red: [u8; 3] = [114, 101, 100];
    let green: [u8; 5] = [103, 114, 101, 101, 110];
    let blue: [u8; 4] = [98, 108, 117, 101];
    assert(red@ =~= seq![114u8, 101, 100]);
    assert(green@ =~= seq![103u8, 114, 101, 101, 110]);
    assert(blue@ =~= seq![98u8, 108, 117, 101]);
    if bytes_equal(w.as_slice(), &red) {
        Some(0)
    } else if bytes_equal(w.as_slice(), &green) {
        Some(1)
    } else if bytes_equal(w.as_slice(), &blue) {
        Some(2)
    } else {
        None
    }
}

impl CubeGrab {
    /// Reads a grab: `<number> <color>` entries separated by commas.
    pub fn parse(s: &[u8]) -> (r: Option<CubeGrab>)
        ensures
            match parse_grab_spec(s@) {
                Some(c) => r matches Some(g) && g.nb_cubes_by_color@ == c,
                None => r is None,
            },
    {
        let comma: [u8; 1] = [44];
        assert(comma@ =~= seq![44u8]);
        let parts = split_on(s, &comma);
        let ghost ps = pieces(parts@);
        let mut counts: [u32; 3] = [0, 0, 0];
        let mut i: usize = 0;
        assert(ps.subrange(0, 0) =~= seq![]);
        assert(counts@ =~= seq![0u32, 0, 0]);
        while i < parts.len()
            invariant
                i <= parts@.len(),
                ps == pieces(parts@),
                ps == split(s@, seq![44u8]),
                apply_entries(ps.subrange(0, i as int)) == Some(counts@),
            decreases parts@.len() - i,
        {
            assert(ps.subrange(0, i + 1).drop_last() =~= ps.subrange(0, i as int));
            let ws = split_words(parts[i].as_slice());
            assert(ps.subrange(0, i + 1).last() == ps[i as int]);
            assert(pieces(ws@) == words(ps[i as int]));
            if ws.len() < 2 {
                proof { lemma_entries_stay_none(ps, i + 1); }
                return None;
            }
            assert(pieces(ws@)[0] == ws@[0]@);
            assert(pieces(ws@)[1] == ws@[1]@);
            let nb = match parse_number(ws[0].as_slice()) {
                Some(v) => v,
                None => {
                    proof { lemma_entries_stay_none(ps, i + 1); }
                    return None;
                },
            };
            if nb > 4294967295 {
                proof { lemma_entries_stay_none(ps, i + 1); }
                return None;
            }
            let c = match color_of(&ws[1]) {
                Some(c) => c,
                None => {
                    proof { lemma_entries_stay_none(ps, i + 1); }
                    return None;
                },
            };
            counts[c] = nb as u32;
            i = i + 1;
        }
        assert(ps.subrange(0, i as int) =~= ps);
        Some(CubeGrab { nb_cubes_by_color: counts })
    }

    /// Whether this grab could come from a bag of `red`, `green` and `blue`
    /// cubes.
    pub fn is_acceptable(&self, red: u32, green: u32, blue: u32) -> (r: bool)
        ensures
            r == (red >= self.nb_cubes_by_color@[0] && green >= self.nb_cubes_by_color@[1]
                && blue >= self.nb_cubes_by_color@[2]),
    {
        red >= self.nb_cubes_by_color[0] && green >= self.nb_cubes_by_color[1] && blue
            >= self.nb_cubes_by_color[2]
    }
}

proof fn lemma_entries_stay_none(ps: Seq<Seq<u8>>, i: int)
    requires
        0 <= i <= ps.len(),
        apply_entries(ps.subrange(0, i)) is None,
    ensures
        apply_entries(ps) is None,
    decreases ps.len() - i,
{
    if i < ps.len() {
        assert(ps.subrange(0, i + 1).drop_last() =~= ps.subrange(0, i));
        lemma_entries_stay_none(ps, i + 1);
    } else {
        assert(ps.subrange(0, i) =~= ps);
    }
}

proof fn lemma_grabs_stay_none(ps: Seq<Seq<u8>>, i: int)
    requires
        0 <= i <= ps.len(),
        parse_grabs(ps.subrange(0, i)) is None,
    ensures
        parse_grabs(ps) is None,
    decreases ps.len() - i,
{
    if i < ps.len() {
        assert(ps.subrange(0, i + 1).drop_last() =~= ps.subrange(0, i));
        lemma_grabs_stay_none(ps, i + 1);
    } else {
        assert(ps.subrange(0, i) =~= ps);
    }
}

/// The largest count of color `c` over the grabs `gs` (0 for none).
pub open spec fn max_color(gs: Seq<Seq<u32>>, c: int) -> u32
    decreases gs.len(),
{
    if gs.len() == 0 {
        0
    } else {
        let m = max_color(gs.drop_last(), c);
        if gs.last()[c] > m {
            gs.last()[c]
        } else {
            m
        }
    }
}

/// The power of a game: the product of the smallest numbers of cubes of
/// each color that make it possible.
pub open spec fn power(g: GameView) -> nat {
    max_color(g.grabs, 0) as nat * max_color(g.grabs, 1) as nat * max_color(g.grabs, 2) as nat
}

/// Each grab of the game is possible with 12 red, 13 green and 14 blue cubes.
pub open spec fn possible(g: GameView) -> bool {
    forall|k: int|
        0 <= k < g.grabs.len() ==> (#[trigger] g.grabs[k])[0] <= 12 && g.grabs[k][1] <= 13
            && g.grabs[k][2] <= 14
}

/// The sum of `f` over the games `gs`.
pub open spec fn sum_games(gs: Seq<GameView>, f: spec_fn(GameView) -> nat) -> nat
    decreases gs.len(),
{
    if gs.len() == 0 {
        0
    } else {
        sum_games(gs.drop_last(), f) + f(gs.last())
    }
}

/// The mathematical form of a list of games.
pub open spec fn game_views(gs: Seq<Game>) -> Seq<GameView> {
    gs.map_values(|g: Game| g@)
}

impl Game {
    /// Reads a line `Game <id>: <grab>; <grab>; ...`.
    pub fn parse(line: &[u8]) -> (r: Option<Game>)
        ensures
            match parse_game_spec(line@) {
                Some(g) => r matches Some(game) && game@ == g,
                None => r is None,
            },
    {
        let colon: [u8; 1] = [58];
        assert(colon@ =~= seq![58u8]);
        let parts = split_on(line, &colon);
        if parts.len() < 2 {
            return None;
        }
        let head = split_words(parts[0].as_slice());
        if head.len() == 0 {
            return None;
        }
        assert(pieces(head@).last() == head@[head@.len() - 1]@);
        let id = match parse_number(head[head.len() - 1].as_slice()) {
            Some(v) => v,
            None => {
                return None;
            },
        };
        if id > 4294967295 {
            return None;
        }
        let semi: [u8; 1] = [59];
        assert(semi@ =~= seq![59u8]);
        assert(pieces(parts@)[1] == parts@[1]@);
        let grab_parts = split_on(parts[1].as_slice(), &semi);
        let ghost ps = pieces(grab_parts@);
        assert(pieces(parts@)[0] == parts@[0]@);
        let mut grabs: Vec<CubeGrab> = Vec::new();
        let mut i: usize = 0;
        assert(ps.subrange(0, 0) =~= seq![]);
        assert(grabs@.map_values(|g: CubeGrab| g.nb_cubes_by_color@) =~= seq![]);
        while i < grab_parts.len()
            invariant
                i <= grab_parts@.len(),
                ps == pieces(grab_parts@),
                parts@.len() >= 2,
                ps == split(parts@[1]@, seq![59u8]),
                pieces(parts@) == split(line@, seq![58u8]),
                words(pieces(parts@)[0]).len() > 0,
                is_number(words(pieces(parts@)[0]).last()),
                number_value(words(pieces(parts@)[0]).last()) == id,
                id <= u32::MAX,
                parse_grabs(ps.subrange(0, i as int)) == Some(
                    grabs@.map_values(|g: CubeGrab| g.nb_cubes_by_color@),
                ),
            decreases grab_parts@.len() - i,
        {
            assert(ps.subrange(0, i + 1).drop_last() =~= ps.subrange(0, i as int));
            assert(ps.subrange(0, i + 1).last() == grab_parts@[i as int]@);
            match CubeGrab::parse(grab_parts[i].as_slice()) {
                Some(g) => {
                    let ghost before = grabs@.map_values(|g: CubeGrab| g.nb_cubes_by_color@);
                    let ghost gv = g.nb_cubes_by_color@;
                    grabs.push(g);
                    assert(grabs@.map_values(|g: CubeGrab| g.nb_cubes_by_color@) =~= before.push(gv));
                },
                None => {
                    proof { lemma_grabs_stay_none(ps, i + 1); }
                    return None;
                },
            }
            i = i + 1;
        }
        assert(ps.subrange(0, i as int) =~= ps);
        Some(Game { grabs, id: id as u32 })
    }

    /// For each color, the largest count of it in any grab of the game.
    pub fn get_minimum_dice_bag(&self) -> (r: [u32; 3])
        ensures
            forall|c: int| 0 <= c < 3 ==> r@[c] == max_color(self@.grabs, c),
    {
        let ghost gs = self@.grabs;
        let mut dice_bag: [u32; 3] = [0, 0, 0];
        let mut i: usize = 0;
        while i < self.grabs.len()
            invariant
                i <= self.grabs@.len() == gs.len(),
                gs == self@.grabs,
                forall|c: int| 0 <= c < 3 ==> dice_bag@[c] == max_color(gs.subrange(0, i as int), c),
            decreases self.grabs@.len() - i,
        {
            assert(gs.subrange(0, i + 1).drop_last() =~= gs.subrange(0, i as int));
            assert(gs.subrange(0, i + 1).last() == self.grabs@[i as int].nb_cubes_by_color@);
            let mut c: usize = 0;
            while c < 3
                invariant
                    c <= 3,
                    i < self.grabs@.len() == gs.len(),
                    gs == self@.grabs,
                    gs.subrange(0, i + 1).drop_last() == gs.subrange(0, i as int),
                    gs.subrange(0, i + 1).last() == self.grabs@[i as int].nb_cubes_by_color@,
                    forall|d: int| 0 <= d < c ==> dice_bag@[d] == max_color(gs.subrange(0, i + 1), d),
                    forall|d: int| c <= d < 3 ==> dice_bag@[d] == max_color(gs.subrange(0, i as int), d),
                decreases 3 - c,
            {
                let v = self.grabs[i].nb_cubes_by_color[c];
                if v > dice_bag[c] {
                    dice_bag[c] = v;
                }
                c = c + 1;
            }
            i = i + 1;
        }
        assert(gs.subrange(0, i as int) =~= gs);
        dice_bag
    }

    /// The product of the three counts of the minimum bag.
    pub fn get_power(&self) -> (r: u128)
        ensures
            r == power(self@),
    {
        let bag = self.get_minimum_dice_bag();
        let a = bag[0] as u128;
        let b = bag[1] as u128;
        let c = bag[2] as u128;
        assert(a * b <= 0xffff_ffff_ffff_ffff_ffff_ffff) by (nonlinear_arith)
            requires a <= 0xffff_ffff, b <= 0xffff_ffff;
        assert(a * b * c <= 0xffff_ffff_ffff_ffff_ffff_ffff_ffff_ffff) by (nonlinear_arith)
            requires a * b <= 0xffff_ffff_ffff_ffff_ffff_ffff, c <= 0xffff_ffff;
        a * b * c
    }
}

/// A list of games.
pub struct Day2 {
    pub games: Vec<Game>,
}

/// The games of the lines `ls`, if every line is a game.
pub open spec fn parse_games(ls: Seq<Seq<u8>>) -> Option<Seq<GameView>>
    decreases ls.len(),
{
    if ls.len() == 0 {
        Some(seq![])
    } else {
        match (parse_games(ls.drop_last()), parse_game_spec(ls.last())) {
            (Some(gs), Some(g)) => Some(gs.push(g)),
            _ => None,
        }
    }
}

proof fn lemma_games_stay_none(ps: Seq<Seq<u8>>, i: int)
    requires
        0 <= i <= ps.len(),
        parse_games(ps.subrange(0, i)) is None,
    ensures
        parse_games(ps) is None,
    decreases ps.len() - i,
{
    if i < ps.len() {
        assert(ps.subrange(0, i + 1).drop_last() =~= ps.subrange(0, i));
        lemma_games_stay_none(ps, i + 1);
    } else {
        assert(ps.subrange(0, i) =~= ps);
    }
}

impl Day2 {
    /// Reads one game per line; `None` if a line is not a game.
    pub fn make_day(input: &str) -> (r: Option<Day2>)
        ensures
            match parse_games(crate::text::lines(input.spec_bytes())) {
                Some(gs) => r matches Some(d) && game_views(d.games@) == gs,
                None => r is None,
            },
    {
        let ls = split_lines(input.as_bytes());
        let ghost ps = pieces(ls@);
        let mut games: Vec<Game> = Vec::new();
        let mut i: usize = 0;
        assert(ps.subrange(0, 0) =~= seq![]);
        assert(game_views(games@) =~= seq![]);
        while i < ls.len()
            invariant
                i <= ls@.len(),
                ps == pieces(ls@),
                ps == crate::text::lines(input.spec_bytes()),
                parse_games(ps.subrange(0, i as int)) == Some(game_views(games@)),
            decreases ls@.len() - i,
        {
            assert(ps.subrange(0, i + 1).drop_last() =~= ps.subrange(0, i as int));
            assert(ps.subrange(0, i + 1).last() == ls@[i as int]@);
            match Game::parse(ls[i].as_slice()) {
                Some(g) => {
                    let ghost before = game_views(games@);
                    games.push(g);
                    assert(game_views(games@) =~= before.push(g@));
                },
                None => {
                    proof { lemma_games_stay_none(ps, i + 1); }
                    return None;
                },
            }
            i = i + 1;
        }
        assert(ps.subrange(0, i as int) =~= ps);
        Some(Day2 { games })
    }

    /// The sum of the numbers of the games possible with 12 red, 13 green
    /// and 14 blue cubes.
    pub fn solution1(&self) -> (r: String)
        ensures
            r@ == answer(Some(sum_games(game_views(self.games@), |g: GameView| if possible(g) { g.id } else { 0 }))),
    {
        let ghost gs = game_views(self.games@);
        let ghost f = |g: GameView| if possible(g) { g.id } else { 0nat };
        let mut total: u64 = 0;
        let mut i: usize = 0;
        while i < self.games.len()
            invariant
                i <= self.games@.len() == gs.len(),
                gs == game_views(self.games@),
                f == (|g: GameView| if possible(g) { g.id } else { 0nat }),
                sum_games(gs.subrange(0, i as int), f) == total,
            decreases self.games@.len() - i,
        {
            assert(gs.subrange(0, i + 1).drop_last() =~= gs.subrange(0, i as int));
            let game = &self.games[i];
            let mut ok: bool = true;
            let mut k: usize = 0;
            while k < game.grabs.len()
                invariant
                    k <= game.grabs@.len(),
                    ok == forall|j: int| 0 <= j < k ==> (#[trigger] game@.grabs[j])[0] <= 12 && game@.grabs[j][1] <= 13
                        && game@.grabs[j][2] <= 14,
                decreases game.grabs@.len() - k,
            {
                assert(game@.grabs[k as int] == game.grabs@[k as int].nb_cubes_by_color@);
                if !game.grabs[k].is_acceptable(12, 13, 14) {
                    ok = false;
                }
                k = k + 1;
            }
            assert(ok == possible(game@));
            if ok {
                match total.checked_add(game.id as u64) {
                    Some(t) => {
                        total = t;
                    },
                    None => {
                        proof { lemma_sum_games_above(gs, f, i + 1); }
                        return String::new();
                    },
                }
            }
            i = i + 1;
        }
        assert(gs.subrange(0, i as int) =~= gs);
        answer_text(Some(total))
    }

    /// The sum of the powers of the games.
    pub fn solution2(&self) -> (r: String)
        ensures
            r@ == answer(Some(sum_games(game_views(self.games@), |g: GameView| power(g)))),
    {
        let ghost gs = game_views(self.games@);
        let ghost f = |g: GameView| power(g);
        let mut total: u64 = 0;
        let mut i: usize = 0;
        while i < self.games.len()
            invariant
                i <= self.games@.len() == gs.len(),
                gs == game_views(self.games@),
                f == (|g: GameView| power(g)),
                sum_games(gs.subrange(0, i as int), f) == total,
            decreases self.games@.len() - i,
        {
            assert(gs.subrange(0, i + 1).drop_last() =~= gs.subrange(0, i as int));
            let p = self.games[i].get_power();
            if p > (u64::MAX - total) as u128 {
                proof { lemma_sum_games_above(gs, f, i + 1); }
                return String::new();
            }
            total = total + p as u64;
            i = i + 1;
        }
        assert(gs.subrange(0, i as int) =~= gs);
        answer_text(Some(total))
    }
}

proof fn lemma_sum_games_above(gs: Seq<GameView>, f: spec_fn(GameView) -> nat, i: int)
    requires
        0 <= i <= gs.len(),
        sum_games(gs.subrange(0, i), f) > u64::MAX,
    ensures
        answer(Some(sum_games(gs, f))) == Seq::<char>::empty(),
    decreases gs.len() - i,
{
    if i < gs.len() {
        assert(gs.subrange(0, i + 1).drop_last() =~= gs.subrange(0, i));
        lemma_sum_games_above(gs, f, i + 1);
    } else {
        assert(gs.subrange(0, i) =~= gs);
    }
}

} // verus!
