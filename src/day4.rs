//! Scratch cards: winning numbers against the numbers found on each card.
use vstd::prelude::*;
use vstd::string::StringSliceAdditionalSpecFns;
use crate::text::{numbers_of, parse_numbers, answer, answer_text, is_number, number_value, parse_number, pieces, split, split_lines, split_on, split_words, words};

verus! {

/// A scratch card.
pub struct Card {
    pub winning_numbers: Vec<u32>,
    pub found_numbers: Vec<u32>,
}

/// The number of entries of `w` among the first `n` that are in `f`.
pub open spec fn wins_upto(w: Seq<u32>, f: Seq<u32>, n: nat) -> nat
    decreases n,
{
    if n == 0 {
        0
    } else {
        wins_upto(w, f, (n - 1) as nat) + if f.contains(w[n - 1]) { 1nat } else { 0nat }
    }
}

/// The number of winning numbers of a card that were found on it.
pub open spec fn wins(c: Card) -> nat {
    wins_upto(c.winning_numbers@, c.found_numbers@, c.winning_numbers@.len())
}

/// The score of a card with `n` winning numbers found: 0 for none, else
/// 2 to the power `n - 1`.
pub open spec fn score(n: nat) -> nat {
    if n == 0 {
        0
    } else {
        vstd::arithmetic::power2::pow2((n - 1) as nat)
    }
}

proof fn lemma_wins_bound(w: Seq<u32>, f: Seq<u32>, n: nat)
    ensures
        wins_upto(w, f, n) <= n,
    decreases n,
{
    if n > 0 {
        lemma_wins_bound(w, f, (n - 1) as nat);
    }
}

impl Card {
    /// How many of the winning numbers were found on the card.
    pub fn compute_number_of_winning_in_found_numbers(&self) -> (r: usize)
        ensures
            r == wins(*self),
    {
        let mut count: usize = 0;
        let mut i: usize = 0;
        while i < self.winning_numbers.len()
            invariant
                i <= self.winning_numbers@.len(),
                count == wins_upto(self.winning_numbers@, self.found_numbers@, i as nat),
            decreases self.winning_numbers@.len() - i,
        {
            proof {
                lemma_wins_bound(self.winning_numbers@, self.found_numbers@, i as nat);
            }
            let w = self.winning_numbers[i];
            let mut found: bool = false;
            let mut j: usize = 0;
            while j < self.found_numbers.len()
                invariant
                    j <= self.found_numbers@.len(),
                    found == exists|k: int| 0 <= k < j && self.found_numbers@[k] == w,
                decreases self.found_numbers@.len() - j,
            {
                if self.found_numbers[j] == w {
                    found = true;
                }
                j = j + 1;
            }
            if found {
                count = count + 1;
            }
            i = i + 1;
        }
        count
    }

    /// The score of the card: 0 with no winning number found, else doubled
    /// for each one after the first.
    pub fn compute_score(&self) -> (r: u32)
        requires
            wins(*self) <= 32,
        ensures
            r == score(wins(*self)),
    {
        let n = self.compute_number_of_winning_in_found_numbers();
        if n == 0 {
            0
        } else {
            let mut p: u32 = 1;
            let mut k: usize = 1;
            proof {
                vstd::arithmetic::power2::lemma_pow2_unfold(1);
                vstd::arithmetic::power2::lemma2_to64();
            }
            while k < n
                invariant
                    1 <= k <= n <= 32,
                    p == vstd::arithmetic::power2::pow2((k - 1) as nat),
                decreases n - k,
            {
                proof {
                    vstd::arithmetic::power2::lemma_pow2_unfold(k as nat);
                    vstd::arithmetic::power2::lemma_pow2_strictly_increases(k as nat, 32);
                    vstd::arithmetic::power2::lemma2_to64();
                }
                p = p * 2;
                k = k + 1;
            }
            p
        }
    }
}

/// The winning and found numbers that a line `Card <n>: <numbers> | <numbers>`
/// writes.
pub open spec fn parse_card(line: Seq<u8>) -> Option<(Seq<u32>, Seq<u32>)> {
    let parts = split(line, seq![58u8]);
    if parts.len() < 2 {
        None
    } else {
        let halves = split(parts[1], seq![124u8]);
        if halves.len() < 2 {
            None
        } else {
            match (numbers_of(words(halves[0])), numbers_of(words(halves[1]))) {
                (Some(w), Some(f)) => Some((w, f)),
                _ => None,
            }
        }
    }
}

impl Card {
    /// Reads a line `Card <n>: <winning numbers> | <found numbers>`.
    pub fn parse(line: &[u8]) -> (r: Option<Card>)
        ensures
            match parse_card(line@) {
                Some((w, f)) => r matches Some(c) && c.winning_numbers@ == w && c.found_numbers@ == f,
                None => r is None,
            },
    {
        let colon: [u8; 1] = [58];
        assert(colon@ =~= seq![58u8]);
        let parts = split_on(line, &colon);
        if parts.len() < 2 {
            return None;
        }
        assert(pieces(parts@)[1] == parts@[1]@);
        let bar: [u8; 1] = [124];
        assert(bar@ =~= seq![124u8]);
        let halves = split_on(parts[1].as_slice(), &bar);
        if halves.len() < 2 {
            return None;
        }
        assert(pieces(halves@)[0] == halves@[0]@);
        assert(pieces(halves@)[1] == halves@[1]@);
        let winning_numbers = match parse_numbers(halves[0].as_slice()) {
            Some(v) => v,
            None => {
                return None;
            },
        };
        let found_numbers = match parse_numbers(halves[1].as_slice()) {
            Some(v) => v,
            None => {
                return None;
            },
        };
        Some(Card { winning_numbers, found_numbers })
    }
}

/// A pile of scratch cards.
pub struct Day4 {
    pub cards: Vec<Card>,
}

/// The cards that the lines `ls` write, if each writes one.
pub open spec fn parse_cards(ls: Seq<Seq<u8>>) -> Option<Seq<(Seq<u32>, Seq<u32>)>>
    decreases ls.len(),
{
    if ls.len() == 0 {
        Some(seq![])
    } else {
        match (parse_cards(ls.drop_last()), parse_card(ls.last())) {
            (Some(cs), Some(c)) => Some(cs.push(c)),
            _ => None,
        }
    }
}

proof fn lemma_cards_stay_none(ls: Seq<Seq<u8>>, i: int)
    requires
        0 <= i <= ls.len(),
        parse_cards(ls.subrange(0, i)) is None,
    ensures
        parse_cards(ls) is None,
    decreases ls.len() - i,
{
    if i < ls.len() {
        assert(ls.subrange(0, i + 1).drop_last() =~= ls.subrange(0, i));
        lemma_cards_stay_none(ls, i + 1);
    } else {
        assert(ls.subrange(0, i) =~= ls);
    }
}

/// The winning and found numbers of each card.
pub open spec fn card_views(cs: Seq<Card>) -> Seq<(Seq<u32>, Seq<u32>)> {
    cs.map_values(|c: Card| (c.winning_numbers@, c.found_numbers@))
}

/// The total score of the cards, if each has at most 32 winning numbers
/// found.
pub open spec fn total_score(cs: Seq<Card>) -> Option<nat>
    decreases cs.len(),
{
    if cs.len() == 0 {
        Some(0)
    } else {
        match total_score(cs.drop_last()) {
            Some(t) => if wins(cs.last()) <= 32 {
                Some(t + score(wins(cs.last())))
            } else {
                None
            },
            None => None,
        }
    }
}

proof fn lemma_total_score_none(cs: Seq<Card>, i: int)
    requires
        0 <= i <= cs.len(),
        total_score(cs.subrange(0, i)) is None || (total_score(cs.subrange(0, i)) matches Some(t) && t > u64::MAX),
    ensures
        answer(total_score(cs)) == Seq::<char>::empty(),
    decreases cs.len() - i,
{
    if i < cs.len() {
        assert(cs.subrange(0, i + 1).drop_last() =~= cs.subrange(0, i));
        lemma_total_score_none(cs, i + 1);
    } else {
        assert(cs.subrange(0, i) =~= cs);
    }
}

impl Day4 {
    /// Reads one card per line; `None` if a line is not a card.
    pub fn make_day(input: &str) -> (r: Option<Day4>)
        ensures
            match parse_cards(crate::text::lines(input.spec_bytes())) {
                Some(cs) => r matches Some(d) && card_views(d.cards@) == cs,
                None => r is None,
            },
    {
        let ls = split_lines(input.as_bytes());
        let ghost ps = pieces(ls@);
        let mut cards: Vec<Card> = Vec::new();
        let mut i: usize = 0;
        assert(ps.subrange(0, 0) =~= seq![]);
        assert(card_views(cards@) =~= seq![]);
        while i < ls.len()
            invariant
                i <= ls@.len(),
                ps == pieces(ls@),
                ps == crate::text::lines(input.spec_bytes()),
                parse_cards(ps.subrange(0, i as int)) == Some(card_views(cards@)),
            decreases ls@.len() - i,
        {
            assert(ps.subrange(0, i + 1).drop_last() =~= ps.subrange(0, i as int));
            assert(ps.subrange(0, i + 1).last() == ls@[i as int]@);
            match Card::parse(ls[i].as_slice()) {
                Some(c) => {
                    let ghost before = card_views(cards@);
                    let ghost cv = (c.winning_numbers@, c.found_numbers@);
                    cards.push(c);
                    assert(card_views(cards@) =~= before.push(cv));
                },
                None => {
                    proof { lemma_cards_stay_none(ps, i + 1); }
                    return None;
                },
            }
            i = i + 1;
        }
        assert(ps.subrange(0, i as int) =~= ps);
        Some(Day4 { cards })
    }

    /// The sum of the scores of the cards; the empty text if a card has
    /// more than 32 winning numbers found.
    pub fn solution1(&self) -> (r: String)
        ensures
            r@ == answer(total_score(self.cards@)),
    {
        let mut total: u64 = 0;
        let mut i: usize = 0;
        while i < self.cards.len()
            invariant
                i <= self.cards@.len(),
                total_score(self.cards@.subrange(0, i as int)) == Some(total as nat),
            decreases self.cards@.len() - i,
        {
            assert(self.cards@.subrange(0, i + 1).drop_last() =~= self.cards@.subrange(0, i as int));
            let card = &self.cards[i];
            let n = card.compute_number_of_winning_in_found_numbers();
            if n > 32 {
                proof { lemma_total_score_none(self.cards@, i + 1); }
                return String::new();
            }
            let s = card.compute_score();
            match total.checked_add(s as u64) {
                Some(t) => {
                    total = t;
                },
                None => {
                    proof { lemma_total_score_none(self.cards@, i + 1); }
                    return String::new();
                },
            }
            i = i + 1;
        }
        assert(self.cards@.subrange(0, i as int) =~= self.cards@);
        answer_text(Some(total))
    }
}

/// The number of winning numbers found on each card.
pub open spec fn wins_of(cs: Seq<Card>) -> Seq<nat> {
    cs.map_values(|c: Card| wins(c))
}

/// The number of copies of card `j` once the first `k` cards have been
/// scored: each card adds one copy of itself per copy it has to each of
/// the next cards, as many as its winning numbers found.
pub open spec fn count_after(ws: Seq<nat>, k: nat, j: int) -> nat
    decreases k,
{
    if k == 0 {
        1
    } else {
        let i = (k - 1) as nat;
        count_after(ws, i, j) + if i < j <= i + ws[i as int] { count_after(ws, i, i as int) } else { 0 }
    }
}

/// Card `j` exists: it is one of the pile, or one of the cards won from it.
pub open spec fn present(ws: Seq<nat>, j: int) -> bool {
    0 <= j < ws.len() || exists|i: int| 0 <= i < ws.len() && i < j <= i + #[trigger] ws[i]
}

/// The number of copies of the cards before `n` that exist, once the whole
/// pile has been scored.
pub open spec fn total_copies(ws: Seq<nat>, n: int) -> nat
    decreases n,
{
    if n <= 0 {
        0
    } else {
        total_copies(ws, n - 1) + if present(ws, n - 1) { count_after(ws, ws.len(), n - 1) } else { 0 }
    }
}

/// The largest of `ws` (0 for none).
pub open spec fn max_wins(ws: Seq<nat>) -> nat
    decreases ws.len(),
{
    if ws.len() == 0 {
        0
    } else if ws.last() > max_wins(ws.drop_last()) {
        ws.last()
    } else {
        max_wins(ws.drop_last())
    }
}

proof fn lemma_max_wins(ws: Seq<nat>, i: int)
    requires
        0 <= i < ws.len(),
    ensures
        ws[i] <= max_wins(ws),
    decreases ws.len(),
{
    if i < ws.len() - 1 {
        lemma_max_wins(ws.drop_last(), i);
    }
}

proof fn lemma_count_grows(ws: Seq<nat>, k: nat, m: nat, j: int)
    requires
        k <= m,
    ensures
        count_after(ws, k, j) <= count_after(ws, m, j),
    decreases m - k,
{
    if k < m {
        lemma_count_grows(ws, k, (m - 1) as nat, j);
    }
}

proof fn lemma_total_above(ws: Seq<nat>, j: int, n: int)
    requires
        0 <= j < n,
        present(ws, j),
    ensures
        count_after(ws, ws.len(), j) <= total_copies(ws, n),
    decreases n,
{
    if j < n - 1 {
        lemma_total_above(ws, j, n - 1);
    }
}

proof fn lemma_total_grows(ws: Seq<nat>, i: int, n: int)
    requires
        0 <= i <= n,
    ensures
        total_copies(ws, i) <= total_copies(ws, n),
    decreases n - i,
{
    if i < n {
        lemma_total_grows(ws, i, n - 1);
    }
}

/// The text of the number of cards in the end: empty when the table of
/// counts would not fit in memory addresses or the number in 64 bits.
pub open spec fn copies_answer(ws: Seq<nat>) -> Seq<char> {
    if ws.len() + max_wins(ws) + 1 <= usize::MAX {
        answer(Some(total_copies(ws, (ws.len() + max_wins(ws) + 1) as int)))
    } else {
        Seq::empty()
    }
}

impl Day4 {
    /// The number of cards in the end, each card winning copies of the
    /// cards after it.
    pub fn solution2(&self) -> (r: String)
        ensures
            r@ == copies_answer(wins_of(self.cards@)),
    {
        let ghost ws = wins_of(self.cards@);
        let len = self.cards.len();
        let mut wv: Vec<usize> = Vec::new();
        let mut maxw: usize = 0;
        let mut i: usize = 0;
        while i < len
            invariant
                i <= len == ws.len(),
                ws == wins_of(self.cards@),
                wv@.len() == i,
                forall|q: int| 0 <= q < i ==> #[trigger] wv@[q] == ws[q],
                maxw == max_wins(ws.subrange(0, i as int)),
            decreases len - i,
        {
            assert(ws.subrange(0, i + 1).drop_last() =~= ws.subrange(0, i as int));
            let w = self.cards[i].compute_number_of_winning_in_found_numbers();
            if w > maxw {
                maxw = w;
            }
            wv.push(w);
            i = i + 1;
        }
        assert(ws.subrange(0, len as int) =~= ws);
        if len >= usize::MAX - maxw {
            return String::new();
        }
        let size = len + maxw + 1;
        let mut counts: Vec<u64> = Vec::new();
        let mut j: usize = 0;
        while j < size
            invariant
                j <= size,
                counts@.len() == j,
                forall|q: int| 0 <= q < j ==> #[trigger] counts@[q] == 1,
            decreases size - j,
        {
            counts.push(1);
            j = j + 1;
        }
        assert forall|q: int| 0 <= q < len implies #[trigger] ws[q] <= max_wins(ws) by {
            lemma_max_wins(ws, q);
        }
        assert forall|q: int| 0 <= q < size implies #[trigger] counts@[q] == count_after(ws, 0, q) by {}
        let mut k: usize = 0;
        while k < len
            invariant
                k <= len == ws.len() == wv@.len(),
                size == len + max_wins(ws) + 1,
                counts@.len() == size,
                forall|q: int| 0 <= q < len ==> #[trigger] wv@[q] == ws[q],
                forall|q: int| 0 <= q < len ==> #[trigger] ws[q] <= max_wins(ws),
                forall|q: int| 0 <= q < size ==> #[trigger] counts@[q] == count_after(ws, k as nat, q),
                ws == wins_of(self.cards@),
            decreases len - k,
        {
            proof {
                lemma_max_wins(ws, k as int);
            }
            let c = counts[k];
            let w = wv[k];
            let mut off: usize = 1;
            while off <= w
                invariant
                    1 <= off <= w + 1,
                    k < len == ws.len(),
                    w == ws[k as int],
                    w <= max_wins(ws),
                    size == len + max_wins(ws) + 1,
                    counts@.len() == size,
                    c == count_after(ws, k as nat, k as int),
                    forall|q: int| 0 <= q < size && !(k < q < k + off) ==> #[trigger] counts@[q] == count_after(ws, k as nat, q),
                    forall|q: int| 0 <= q < size && k < q < k + off ==> #[trigger] counts@[q] == count_after(ws, k as nat, q) + c,
                    ws == wins_of(self.cards@),
                decreases w + 1 - off,
            {
                let t = k + off;
                match counts[t].checked_add(c) {
                    Some(v) => {
                        counts.set(t, v);
                    },
                    None => {
                        proof {
                            assert(count_after(ws, (k + 1) as nat, t as int) > u64::MAX);
                            lemma_count_grows(ws, (k + 1) as nat, ws.len(), t as int);
                            assert(present(ws, t as int));
                            lemma_total_above(ws, t as int, size as int);
                        }
                        return String::new();
                    },
                }
                off = off + 1;
            }
            k = k + 1;
        }
        let mut total: u64 = 0;
        let mut j: usize = 0;
        while j < size
            invariant
                j <= size,
                len == ws.len() == wv@.len(),
                size == len + max_wins(ws) + 1,
                counts@.len() == size,
                forall|q: int| 0 <= q < len ==> #[trigger] wv@[q] == ws[q],
                forall|q: int| 0 <= q < size ==> #[trigger] counts@[q] == count_after(ws, len as nat, q),
                total == total_copies(ws, j as int),
                ws == wins_of(self.cards@),
            decreases size - j,
        {
            let mut here = j < len;
            let mut q: usize = 0;
            while q < len && !here
                invariant
                    q <= len == ws.len() == wv@.len(),
                    forall|p: int| 0 <= p < len ==> #[trigger] wv@[p] == ws[p],
                    here == (j < len || exists|p: int| 0 <= p < q && p < j <= p + #[trigger] ws[p]),
                decreases len - q,
            {
                if q < j && j - q <= wv[q] {
                    here = true;
                }
                q = q + 1;
            }
            assert(here == present(ws, j as int));
            if here {
                match total.checked_add(counts[j]) {
                    Some(t) => {
                        total = t;
                    },
                    None => {
                        proof { lemma_total_grows(ws, j + 1, size as int); }
                        return String::new();
                    },
                }
            }
            j = j + 1;
        }
        answer_text(Some(total))
    }
}

} // verus!
