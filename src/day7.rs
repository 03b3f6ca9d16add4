//! Camel cards: hands of five cards ranked by type, then card by card.
use vstd::prelude::*;
use vstd::string::StringSliceAdditionalSpecFns;
use crate::text::{answer, answer_text, find, find_from, is_number, number_value, parse_number, pieces, split_lines};

verus! {

/// The value of the joker card, `J`.
pub const JOKER: u8 = 11;

/// The value of a card character: `2` to `9` for themselves, then `T`,
/// `J`, `Q`, `K`, `A` for 10 to 14.
pub open spec fn card_value(c: char) -> Option<u8> {
    if '2' <= c <= '9' {
        Some((c as u32 - '0' as u32) as u8)
    } else if c == 'T' {
        Some(10)
    } else if c == 'J' {
        Some(11)
    } else if c == 'Q' {
        Some(12)
    } else if c == 'K' {
        Some(13)
    } else if c == 'A' {
        Some(14)
    } else {
        None
    }
}

/// The value of a card character.
pub fn char_to_card(c: char) -> (r: Result<u8, ()>)
    ensures
        match card_value(c) {
            Some(v) => r == Ok::<u8, ()>(v),
            None => r is Err,
        },
{
    if '2' <= c && c <= '9' {
        Ok(((c as u32) - ('0' as u32)) as u8)
    } else if c == 'T' {
        Ok(10)
    } else if c == 'J' {
        Ok(11)
    } else if c == 'Q' {
        Ok(12)
    } else if c == 'K' {
        Ok(13)
    } else if c == 'A' {
        Ok(14)
    } else {
        Err(())
    }
}

/// The largest of the first `n` entries of `a` (0 for none).
pub open spec fn max_upto(a: Seq<usize>, n: int) -> nat
    decreases n,
{
    if n <= 0 {
        0
    } else {
        let m = max_upto(a, n - 1);
        if a[n - 1] > m {
            a[n - 1] as nat
        } else {
            m
        }
    }
}

/// The first index among the first `n` where `a` takes its largest value
/// over them.
pub open spec fn argmax_upto(a: Seq<usize>, n: int) -> int
    decreases n,
{
    if n <= 1 {
        0
    } else {
        if a[n - 1] > max_upto(a, n - 1) {
            n - 1
        } else {
            argmax_upto(a, n - 1)
        }
    }
}

/// The largest and second largest entries of `a`, counted with repetition.
pub open spec fn top_two(a: Seq<usize>) -> (nat, nat) {
    (max_upto(a, a.len() as int), max_upto(a.remove(argmax_upto(a, a.len() as int)), a.len() - 1))
}

proof fn lemma_argmax(a: Seq<usize>, n: int)
    requires
        1 <= n <= a.len(),
    ensures
        0 <= argmax_upto(a, n) < n,
        a[argmax_upto(a, n)] == max_upto(a, n),
    decreases n,
{
    if n > 1 {
        lemma_argmax(a, n - 1);
    } else {
        assert(max_upto(a, 0) == 0);
        assert(max_upto(a, 1) == (if a[0] > 0 { a[0] as nat } else { 0 }));
    }
}

/// The largest and the second largest card counts of `cards_map`.
pub fn compute_card_numbers_from_cards_map(cards_map: [usize; 15]) -> (r: (usize, usize))
    ensures
        r.0 == top_two(cards_map@).0,
        r.1 == top_two(cards_map@).1,
{
    let ghost a = cards_map@;
    let mut best: usize = 0;
    let mut at: usize = 0;
    let mut i: usize = 0;
    while i < 15
        invariant
            i <= 15,
            a == cards_map@,
            a.len() == 15,
            best == max_upto(a, i as int),
            i >= 1 ==> at == argmax_upto(a, i as int),
            i == 0 ==> at == 0,
        decreases 15 - i,
    {
        if cards_map[i] > best {
            best = cards_map[i];
            at = i;
        }
        i = i + 1;
    }
    proof {
        lemma_argmax(a, 15);
    }
    let ghost rest = a.remove(at as int);
    let mut second: usize = 0;
    let mut j: usize = 0;
    while j < 15
        invariant
            j <= 15,
            a == cards_map@,
            a.len() == 15,
            at == argmax_upto(a, 15),
            at < 15,
            rest == a.remove(at as int),
            j <= at ==> second == max_upto(rest, j as int),
            j > at ==> second == max_upto(rest, j - 1),
        decreases 15 - j,
    {
        proof {
            lemma_argmax(a, 15);
        }
        if j != at {
            if j < at {
                assert(rest[j as int] == a[j as int]);
            } else {
                assert(rest[j - 1] == a[j as int]);
            }
            if cards_map[j] > second {
                second = cards_map[j];
            }
        }
        j = j + 1;
    }
    (best, second)
}

/// The type digit of a hand from its two largest card counts: five of a
/// kind 6, four 5, full house 4, three 3, two pairs 2, one pair 1, high
/// card 0.
pub open spec fn type_digit(nb_max: nat, nb_second_max: nat) -> Option<nat> {
    if nb_max == 5 && nb_second_max == 0 {
        Some(6)
    } else if nb_max == 4 && nb_second_max == 1 {
        Some(5)
    } else if nb_max == 3 && nb_second_max == 2 {
        Some(4)
    } else if nb_max == 3 && nb_second_max == 1 {
        Some(3)
    } else if nb_max == 2 && nb_second_max == 2 {
        Some(2)
    } else if nb_max == 2 && nb_second_max == 1 {
        Some(1)
    } else if nb_max == 1 && nb_second_max == 1 {
        Some(0)
    } else {
        None
    }
}

/// The hexadecimal digit character of `d < 16`.
pub open spec fn hex_char(d: nat) -> char {
    if d < 10 {
        (48 + d) as char
    } else {
        (55 + d) as char
    }
}

/// The type character of a hand from its two largest card counts; `None`
/// for counts that no hand of five cards has.
pub fn get_hex_power_from_nb_cards(nb_max: usize, nb_second_max: usize) -> (r: Option<char>)
    ensures
        match type_digit(nb_max as nat, nb_second_max as nat) {
            Some(d) => r == Some(hex_char(d)),
            None => r is None,
        },
{
    if nb_max == 5 && nb_second_max == 0 {
        Some('6')
    } else if nb_max == 4 && nb_second_max == 1 {
        Some('5')
    } else if nb_max == 3 && nb_second_max == 2 {
        Some('4')
    } else if nb_max == 3 && nb_second_max == 1 {
        Some('3')
    } else if nb_max == 2 && nb_second_max == 2 {
        Some('2')
    } else if nb_max == 2 && nb_second_max == 1 {
        Some('1')
    } else if nb_max == 1 && nb_second_max == 1 {
        Some('0')
    } else {
        None
    }
}

/// A hand of five cards, by value, and its bid.
#[derive(Debug, Clone, Copy)]
pub struct Hand {
    pub cards: [u8; 5],
    pub bid: u64,
}

/// Every card value is between 2 and 14.
pub open spec fn valid_cards(cards: Seq<u8>) -> bool {
    cards.len() == 5 && forall|i: int| 0 <= i < 5 ==> 2 <= #[trigger] cards[i] <= 14
}

/// The digit of a card: its value, or 0 for a joker when jokers are wild.
pub open spec fn digit(c: u8, joker: bool) -> nat {
    if joker && c == JOKER {
        0
    } else {
        c as nat
    }
}

/// The number of the first `n` cards with value `v`, not counting jokers
/// when jokers are wild.
pub open spec fn count_in(cards: Seq<u8>, v: int, joker: bool, n: int) -> nat
    decreases n,
{
    if n <= 0 {
        0
    } else {
        count_in(cards, v, joker, n - 1) + if cards[n - 1] == v && !(joker && cards[n - 1] == JOKER) {
            1nat
        } else {
            0nat
        }
    }
}

/// The number of jokers among the first `n` cards.
pub open spec fn jokers_in(cards: Seq<u8>, n: int) -> nat
    decreases n,
{
    if n <= 0 {
        0
    } else {
        jokers_in(cards, n - 1) + if cards[n - 1] == JOKER { 1nat } else { 0nat }
    }
}

/// The count of each card value, from 0 to 14.
pub open spec fn counts(cards: Seq<u8>, joker: bool) -> Seq<usize> {
    Seq::new(15, |v: int| count_in(cards, v, joker, 5) as usize)
}

/// The cards read as five hexadecimal digits.
pub open spec fn cards_value(cards: Seq<u8>, joker: bool) -> nat {
    digit(cards[0], joker) * 65536 + digit(cards[1], joker) * 4096 + digit(cards[2], joker) * 256
        + digit(cards[3], joker) * 16 + digit(cards[4], joker)
}

/// The strength of a hand: its type digit followed by its five card digits,
/// read in hexadecimal; jokers, when wild, add to the largest count.
pub open spec fn hand_power(cards: Seq<u8>, joker: bool) -> Option<nat> {
    let (m1, m2) = top_two(counts(cards, joker));
    let m = if joker { m1 + jokers_in(cards, 5) } else { m1 };
    match type_digit(m, m2) {
        Some(t) => Some(t * 1048576 + cards_value(cards, joker)),
        None => None,
    }
}

proof fn lemma_count_bound(cards: Seq<u8>, v: int, joker: bool, n: int)
    requires
        0 <= n,
    ensures
        count_in(cards, v, joker, n) <= n,
        jokers_in(cards, n) <= n,
    decreases n,
{
    if n > 0 {
        lemma_count_bound(cards, v, joker, n - 1);
    }
}

impl Hand {
    /// The hexadecimal digit characters of the cards.
    fn hex_digits(&self, joker: bool) -> (r: Vec<char>)
        requires
            valid_cards(self.cards@),
        ensures
            r@.len() == 5,
            forall|i: int| 0 <= i < 5 ==> #[trigger] r@[i] == hex_char(digit(self.cards@[i], joker)),
    {
        let mut r: Vec<char> = Vec::new();
        let mut i: usize = 0;
        while i < 5
            invariant
                i <= 5,
                valid_cards(self.cards@),
                r@.len() == i,
                forall|k: int| 0 <= k < i ==> #[trigger] r@[k] == hex_char(digit(self.cards@[k], joker)),
            decreases 5 - i,
        {
            let c = self.cards[i];
            let d: u8 = if joker && c == JOKER { 0 } else { c };
            let ch = if d < 10 { (48 + d) as char } else { (55 + d) as char };
            r.push(ch);
            i = i + 1;
        }
        r
    }

    /// The cards as hexadecimal digits: the value of each card.
    pub fn compute_hand_hex_value(&self) -> (r: Vec<char>)
        requires
            valid_cards(self.cards@),
        ensures
            r@.len() == 5,
            forall|i: int| 0 <= i < 5 ==> #[trigger] r@[i] == hex_char(digit(self.cards@[i], false)),
    {
        self.hex_digits(false)
    }

    /// The cards as hexadecimal digits, the joker being 0.
    pub fn compute_hand_hex_value_joker(&self) -> (r: Vec<char>)
        requires
            valid_cards(self.cards@),
        ensures
            r@.len() == 5,
            forall|i: int| 0 <= i < 5 ==> #[trigger] r@[i] == hex_char(digit(self.cards@[i], true)),
    {
        self.hex_digits(true)
    }

    /// The strength of the hand, jokers wild or not; `None` for counts that
    /// no hand of five cards has.
    fn power(&self, joker: bool) -> (r: Option<u32>)
        requires
            valid_cards(self.cards@),
        ensures
            match hand_power(self.cards@, joker) {
                Some(p) => r == Some(p as u32) && p <= u32::MAX,
                None => r is None,
            },
    {
        let ghost cs = self.cards@;
        let mut cards_map: [usize; 15] = [0, 0, 0, 0, 0, 0, 0, 0, 0, 0, 0, 0, 0, 0, 0];
        let mut nb_jokers: usize = 0;
        let mut i: usize = 0;
        while i < 5
            invariant
                i <= 5,
                cs == self.cards@,
                valid_cards(cs),
                cards_map@.len() == 15,
                forall|v: int| 0 <= v < 15 ==> #[trigger] cards_map@[v] == count_in(cs, v, joker, i as int),
                nb_jokers == jokers_in(cs, i as int),
            decreases 5 - i,
        {
            proof {
                lemma_count_bound(cs, cs[i as int] as int, joker, i as int);
            }
            let c = self.cards[i];
            if c == JOKER {
                nb_jokers = nb_jokers + 1;
            }
            if !(joker && c == JOKER) {
                cards_map[c as usize] = cards_map[c as usize] + 1;
            }
            i = i + 1;
        }
        assert(cards_map@ =~= counts(cs, joker));
        proof {
            lemma_count_bound(cs, 0, joker, 5);
        }
        let (m1, m2) = compute_card_numbers_from_cards_map(cards_map);
        let m = if joker {
            if m1 > 100 {
                100
            } else {
                m1 + nb_jokers
            }
        } else {
            m1
        };
        match get_hex_power_from_nb_cards(m, m2) {
            None => None,
            Some(ch) => {
                let td = (ch as u32) - 48;
                assert(td <= 6);
                let v = self.cards_number(joker);
                Some(td * 1048576 + v)
            },
        }
    }

    /// The cards read as five hexadecimal digits.
    fn cards_number(&self, joker: bool) -> (r: u32)
        requires
            valid_cards(self.cards@),
        ensures
            r == cards_value(self.cards@, joker),
            r < 1048576,
    {
        let d0 = if joker && self.cards[0] == JOKER { 0 } else { self.cards[0] as u32 };
        let d1 = if joker && self.cards[1] == JOKER { 0 } else { self.cards[1] as u32 };
        let d2 = if joker && self.cards[2] == JOKER { 0 } else { self.cards[2] as u32 };
        let d3 = if joker && self.cards[3] == JOKER { 0 } else { self.cards[3] as u32 };
        let d4 = if joker && self.cards[4] == JOKER { 0 } else { self.cards[4] as u32 };
        d0 * 65536 + d1 * 4096 + d2 * 256 + d3 * 16 + d4
    }

    /// The strength of the hand.
    pub fn compute_hand_power(&self) -> (r: Option<u32>)
        requires
            valid_cards(self.cards@),
        ensures
            match hand_power(self.cards@, false) {
                Some(p) => r == Some(p as u32),
                None => r is None,
            },
    {
        self.power(false)
    }

    /// The strength of the hand, jokers counting as any card for the type
    /// and as the weakest card for the order.
    pub fn compute_hand_power_joker(&self) -> (r: Option<u32>)
        requires
            valid_cards(self.cards@),
        ensures
            match hand_power(self.cards@, true) {
                Some(p) => r == Some(p as u32),
                None => r is None,
            },
    {
        self.power(true)
    }
}

/// The cards and bid that a line `<five cards> <bid>` writes.
pub open spec fn parse_hand(line: Seq<u8>) -> Option<(Seq<u8>, nat)> {
    match find_from(line, seq![32u8], 0) {
        Some(k) => {
            let tail = line.subrange(k + 1, line.len() as int);
            if k == 5 && (forall|i: int| 0 <= i < 5 ==> card_value(#[trigger] line[i] as char) is Some)
                && is_number(tail) && number_value(tail) <= u64::MAX {
                Some((Seq::new(5, |i: int| card_value(line[i] as char)->0), number_value(tail)))
            } else {
                None
            }
        },
        None => None,
    }
}

impl Hand {
    /// Reads a line `<five cards> <bid>`.
    pub fn parse(line: &[u8]) -> (r: Option<Hand>)
        ensures
            match parse_hand(line@) {
                Some((c, b)) => r matches Some(h) && h.cards@ == c && h.bid == b && valid_cards(c),
                None => r is None,
            },
    {
        let sp: [u8; 1] = [32];
        assert(sp@ =~= seq![32u8]);
        let k = match find(line, &sp, 0) {
            Some(k) => k,
            None => {
                return None;
            },
        };
        proof {
            crate::text::lemma_find_from_bounds(line@, seq![32u8], 0);
        }
        if k != 5 {
            return None;
        }
        let mut cards: [u8; 5] = [0, 0, 0, 0, 0];
        let mut i: usize = 0;
        while i < 5
            invariant
                i <= 5,
                k == 5,
                k < line@.len(),
                cards@.len() == 5,
                forall|q: int| 0 <= q < i ==> card_value(#[trigger] line@[q] as char) == Some(cards@[q]),
            decreases 5 - i,
        {
            match char_to_card(line[i] as char) {
                Ok(v) => {
                    cards[i] = v;
                },
                Err(()) => {
                    return None;
                },
            }
            i = i + 1;
        }
        let n = line.len();
        let tail = crate::text::copy_range(line, k + 1, n);
        let bid = match parse_number(tail.as_slice()) {
            Some(b) => b,
            None => {
                return None;
            },
        };
        assert(cards@ =~= Seq::new(5, |i: int| card_value(line@[i] as char)->0));
        Some(Hand { cards, bid })
    }
}

/// The strength of each hand, if each has one.
pub open spec fn powers(hs: Seq<Hand>, joker: bool) -> Option<Seq<nat>>
    decreases hs.len(),
{
    if hs.len() == 0 {
        Some(seq![])
    } else {
        match (powers(hs.drop_last(), joker), hand_power(hs.last().cards@, joker)) {
            (Some(ps), Some(p)) => Some(ps.push(p)),
            _ => None,
        }
    }
}

/// The number of hands among the first `n` that rank below hand `i`:
/// weaker ones, and equal ones that come before it.
pub open spec fn below(ps: Seq<nat>, i: int, n: int) -> nat
    decreases n,
{
    if n <= 0 {
        0
    } else {
        below(ps, i, n - 1) + if ps[n - 1] < ps[i] || (ps[n - 1] == ps[i] && n - 1 < i) { 1nat } else { 0nat }
    }
}

/// The sum over the first `n` hands of rank times bid.
pub open spec fn winnings_upto(hs: Seq<Hand>, ps: Seq<nat>, n: int) -> nat
    decreases n,
{
    if n <= 0 {
        0
    } else {
        winnings_upto(hs, ps, n - 1) + (below(ps, n - 1, ps.len() as int) + 1) * (hs[n - 1].bid as nat)
    }
}

/// The total winnings: each hand's bid times its rank, the weakest hand
/// ranking 1 and equal hands ranking in the order given.
pub open spec fn winnings(hs: Seq<Hand>, joker: bool) -> Option<nat> {
    match powers(hs, joker) {
        Some(ps) => Some(winnings_upto(hs, ps, hs.len() as int)),
        None => None,
    }
}

/// A list of hands with their bids.
pub struct Day7 {
    pub hands: Vec<Hand>,
}

/// The cards and bid of each hand.
pub open spec fn hand_views(hs: Seq<Hand>) -> Seq<(Seq<u8>, nat)> {
    hs.map_values(|h: Hand| (h.cards@, h.bid as nat))
}

/// The hands that the lines `ls` write, if each writes one.
pub open spec fn parse_hands(ls: Seq<Seq<u8>>) -> Option<Seq<(Seq<u8>, nat)>>
    decreases ls.len(),
{
    if ls.len() == 0 {
        Some(seq![])
    } else {
        match (parse_hands(ls.drop_last()), parse_hand(ls.last())) {
            (Some(v), Some(h)) => Some(v.push(h)),
            _ => None,
        }
    }
}

proof fn lemma_hands_stay_none(ls: Seq<Seq<u8>>, i: int)
    requires
        0 <= i <= ls.len(),
        parse_hands(ls.subrange(0, i)) is None,
    ensures
        parse_hands(ls) is None,
    decreases ls.len() - i,
{
    if i < ls.len() {
        assert(ls.subrange(0, i + 1).drop_last() =~= ls.subrange(0, i));
        lemma_hands_stay_none(ls, i + 1);
    } else {
        assert(ls.subrange(0, i) =~= ls);
    }
}

proof fn lemma_powers_stay_none(hs: Seq<Hand>, joker: bool, i: int)
    requires
        0 <= i <= hs.len(),
        powers(hs.subrange(0, i), joker) is None,
    ensures
        powers(hs, joker) is None,
    decreases hs.len() - i,
{
    if i < hs.len() {
        assert(hs.subrange(0, i + 1).drop_last() =~= hs.subrange(0, i));
        lemma_powers_stay_none(hs, joker, i + 1);
    } else {
        assert(hs.subrange(0, i) =~= hs);
    }
}

proof fn lemma_winnings_grow(hs: Seq<Hand>, ps: Seq<nat>, i: int, n: int)
    requires
        0 <= i <= n,
    ensures
        winnings_upto(hs, ps, i) <= winnings_upto(hs, ps, n),
    decreases n - i,
{
    if i < n {
        lemma_winnings_grow(hs, ps, i, n - 1);
    }
}

proof fn lemma_below_bound(ps: Seq<nat>, i: int, n: int)
    requires
        0 <= n,
    ensures
        below(ps, i, n) <= n,
    decreases n,
{
    if n > 0 {
        lemma_below_bound(ps, i, n - 1);
    }
}

impl Day7 {
    /// Reads one hand per line; `None` if a line is not a hand.
    pub fn make_day(input: &str) -> (r: Option<Day7>)
        ensures
            match parse_hands(crate::text::lines(input.spec_bytes())) {
                Some(v) => r matches Some(d) && hand_views(d.hands@) == v && forall|k: int|
                    0 <= k < d.hands@.len() ==> valid_cards(#[trigger] d.hands@[k].cards@),
                None => r is None,
            },
    {
        let ls = split_lines(input.as_bytes());
        let ghost ps = pieces(ls@);
        let mut hands: Vec<Hand> = Vec::new();
        let mut i: usize = 0;
        assert(ps.subrange(0, 0) =~= seq![]);
        assert(hand_views(hands@) =~= seq![]);
        while i < ls.len()
            invariant
                i <= ls@.len(),
                ps == pieces(ls@),
                ps == crate::text::lines(input.spec_bytes()),
                parse_hands(ps.subrange(0, i as int)) == Some(hand_views(hands@)),
                forall|k: int| 0 <= k < hands@.len() ==> valid_cards(#[trigger] hands@[k].cards@),
            decreases ls@.len() - i,
        {
            assert(ps.subrange(0, i + 1).drop_last() =~= ps.subrange(0, i as int));
            assert(ps.subrange(0, i + 1).last() == ls@[i as int]@);
            match Hand::parse(ls[i].as_slice()) {
                Some(h) => {
                    let ghost before = hand_views(hands@);
                    hands.push(h);
                    assert(hand_views(hands@) =~= before.push((h.cards@, h.bid as nat)));
                },
                None => {
                    proof { lemma_hands_stay_none(ps, i + 1); }
                    return None;
                },
            }
            i = i + 1;
        }
        assert(ps.subrange(0, i as int) =~= ps);
        Some(Day7 { hands })
    }

    /// The total winnings, jokers wild or not.
    fn total(&self, joker: bool) -> (r: String)
        requires
            forall|k: int| 0 <= k < self.hands@.len() ==> valid_cards(#[trigger] self.hands@[k].cards@),
        ensures
            r@ == answer(winnings(self.hands@, joker)),
    {
        let ghost hs = self.hands@;
        let n = self.hands.len();
        let mut ps: Vec<u32> = Vec::new();
        let mut i: usize = 0;
        assert(hs.subrange(0, 0) =~= seq![]);
        while i < n
            invariant
                i <= n == hs.len(),
                hs == self.hands@,
                forall|k: int| 0 <= k < hs.len() ==> valid_cards(#[trigger] hs[k].cards@),
                ps@.len() == i,
                powers(hs.subrange(0, i as int), joker) == Some(ps@.map_values(|p: u32| p as nat)),
            decreases n - i,
        {
            assert(hs.subrange(0, i + 1).drop_last() =~= hs.subrange(0, i as int));
            assert(valid_cards(hs[i as int].cards@));
            match self.hands[i].power(joker) {
                Some(p) => {
                    let ghost before = ps@.map_values(|p: u32| p as nat);
                    ps.push(p);
                    assert(ps@.map_values(|p: u32| p as nat) =~= before.push(p as nat));
                },
                None => {
                    proof { lemma_powers_stay_none(hs, joker, i + 1); }
                    return String::new();
                },
            }
            i = i + 1;
        }
        assert(hs.subrange(0, i as int) =~= hs);
        let ghost pv = ps@.map_values(|p: u32| p as nat);
        let mut total: u64 = 0;
        let mut i: usize = 0;
        while i < n
            invariant
                i <= n == hs.len() == ps@.len(),
                hs == self.hands@,
                pv == ps@.map_values(|p: u32| p as nat),
                powers(hs, joker) == Some(pv),
                winnings_upto(hs, pv, i as int) == total,
            decreases n - i,
        {
            let mut rank: u128 = 1;
            let mut j: usize = 0;
            while j < n
                invariant
                    i < n == hs.len() == ps@.len(),
                    pv == ps@.map_values(|p: u32| p as nat),
                    j <= n,
                    rank == below(pv, i as int, j as int) + 1,
                    rank <= j + 1,
                decreases n - j,
            {
                if ps[j] < ps[i] || (ps[j] == ps[i] && j < i) {
                    rank = rank + 1;
                }
                j = j + 1;
            }
            let wide = match rank.checked_mul(self.hands[i].bid as u128) {
                Some(g) => g,
                None => {
                    proof { lemma_winnings_grow(hs, pv, i + 1, n as int); }
                    return String::new();
                },
            };
            if wide > u64::MAX as u128 {
                proof { lemma_winnings_grow(hs, pv, i + 1, n as int); }
                return String::new();
            }
            let gain = wide as u64;
            match total.checked_add(gain) {
                Some(t) => {
                    total = t;
                },
                None => {
                    proof { lemma_winnings_grow(hs, pv, i + 1, n as int); }
                    return String::new();
                },
            }
            i = i + 1;
        }
        answer_text(Some(total))
    }

    /// The total winnings.
    pub fn solution1(&self) -> (r: String)
        requires
            forall|k: int| 0 <= k < self.hands@.len() ==> valid_cards(#[trigger] self.hands@[k].cards@),
        ensures
            r@ == answer(winnings(self.hands@, false)),
    {
        self.total(false)
    }

    /// The total winnings with jokers wild.
    pub fn solution2(&self) -> (r: String)
        requires
            forall|k: int| 0 <= k < self.hands@.len() ==> valid_cards(#[trigger] self.hands@[k].cards@),
        ensures
            r@ == answer(winnings(self.hands@, true)),
    {
        self.total(true)
    }
}

} // verus!
