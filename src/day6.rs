//! Boat races: the whole-number holding times that beat a record, from
//! the real roots of `x * (time - x) = distance` rounded inwards.
use vstd::prelude::*;
use vstd::string::StringSliceAdditionalSpecFns;
use crate::text::{decimal, find, find_from, lines, numbers_of, parse_numbers, pieces, split_lines, words};

verus! {

/// The race times and the record distances, race by race.
#[derive(Debug)]
pub struct Day6 {
    pub times: Vec<i64>,
    pub distances: Vec<i64>,
}

/// The distance travelled when holding the button `x` in a race of `t`.
pub open spec fn travelled(x: int, t: int) -> int {
    (t - x) * x
}

/// The first holding time that beats the record, from the floor `s` of the
/// lower root: `s` itself unless it does not beat the record.
pub open spec fn start_of(s: int, t: int, d: int) -> int {
    if travelled(s, t) <= d { s + 1 } else { s }
}

/// The last holding time that beats the record, from the ceiling `e` of the
/// upper root: `e` itself unless it does not beat the record.
pub open spec fn end_of(e: int, t: int, d: int) -> int {
    if travelled(e, t) <= d { e - 1 } else { e }
}

/// The first winning holding time, from the floor of the lower root.
pub fn approx_start(start_int: i64, race_time: i64, race_distance: i64) -> (r: i64)
    requires
        0 <= start_int <= race_time < i64::MAX,
    ensures
        r == start_of(start_int as int, race_time as int, race_distance as int),
{
    let s = start_int as i128;
    let t = race_time as i128;
    assert(0 <= (t - s) * s <= t * t) by (nonlinear_arith)
        requires 0 <= s <= t;
    assert(t * t <= 0x4000_0000_0000_0000_0000_0000_0000_0000) by (nonlinear_arith)
        requires 0 <= t < 0x8000_0000_0000_0000;
    if (t - s) * s <= race_distance as i128 {
        start_int + 1
    } else {
        start_int
    }
}

/// The last winning holding time, from the ceiling of the upper root.
pub fn approx_end(end_int: i64, race_time: i64, race_distance: i64) -> (r: i64)
    requires
        0 <= end_int <= race_time,
    ensures
        r == end_of(end_int as int, race_time as int, race_distance as int),
{
    let e = end_int as i128;
    let t = race_time as i128;
    assert(0 <= (t - e) * e <= t * t) by (nonlinear_arith)
        requires 0 <= e <= t;
    assert(t * t <= 0x4000_0000_0000_0000_0000_0000_0000_0000) by (nonlinear_arith)
        requires 0 <= t < 0x8000_0000_0000_0000;
    if (t - e) * e <= race_distance as i128 {
        end_int - 1
    } else {
        end_int
    }
}

/// The product over the first `n` intervals of the number of holding times
/// in each.
pub open spec fn ways_product(iv: Seq<(i64, i64)>, n: int) -> int
    decreases n,
{
    if n <= 0 {
        1
    } else {
        ways_product(iv, n - 1) * (iv[n - 1].1 + 1 - iv[n - 1].0)
    }
}

/// The product of the numbers of winning holding times, one interval per
/// race; `None` if a partial product leaves 64 bits.
pub fn product_of_ways(intervals: &Vec<(i64, i64)>) -> (r: Option<i64>)
    ensures
        r matches Some(v) ==> v == ways_product(intervals@, intervals@.len() as int),
        r is None ==> exists|k: int| 1 <= k <= intervals@.len() && (!(i64::MIN <= #[trigger] ways_product(intervals@, k) <= i64::MAX)
            || !(i64::MIN <= intervals@[k - 1].1 + 1 - intervals@[k - 1].0 <= i64::MAX)),
{
    let mut acc: i64 = 1;
    let mut k: usize = 0;
    while k < intervals.len()
        invariant
            k <= intervals@.len(),
            acc == ways_product(intervals@, k as int),
        decreases intervals@.len() - k,
    {
        let (a, b) = intervals[k];
        let wide = b as i128 + 1 - a as i128;
        if wide < i64::MIN as i128 || wide > i64::MAX as i128 {
            assert(!(i64::MIN <= intervals@[(k + 1) - 1].1 + 1 - intervals@[(k + 1) - 1].0 <= i64::MAX));
            assert(ways_product(intervals@, k + 1) == ways_product(intervals@, k as int) * (intervals@[k as int].1 + 1 - intervals@[k as int].0));
            return None;
        }
        let w = wide as i64;
        match acc.checked_mul(w) {
            Some(p) => {
                acc = p;
            },
            None => {
                assert(!(i64::MIN <= ways_product(intervals@, k + 1) <= i64::MAX)) by (nonlinear_arith)
                    requires acc * w < i64::MIN || acc * w > i64::MAX, ways_product(intervals@, k + 1) == acc * w;
                return None;
            },
        }
        k = k + 1;
    }
    Some(acc)
}

/// The number of decimal digits of `v`.
pub open spec fn digit_count(v: nat) -> nat
    decreases v,
{
    if v < 10 { 1 } else { 1 + digit_count(v / 10) }
}

/// The number that the decimal writings of the first `n` values, put end to
/// end, write.
pub open spec fn joined(vs: Seq<i64>, n: int) -> int
    decreases n,
{
    if n <= 0 {
        0
    } else {
        joined(vs, n - 1) * vstd::arithmetic::power::pow(10, digit_count(vs[n - 1] as nat)) + vs[n - 1]
    }
}

proof fn lemma_pow10_grows(v: nat)
    ensures
        vstd::arithmetic::power::pow(10, digit_count(v)) > v,
    decreases v,
{
    if v < 10 {
        vstd::arithmetic::power::lemma_pow1(10);
    } else {
        lemma_pow10_grows(v / 10);
        vstd::arithmetic::power::lemma_pow_adds(10, 1, digit_count(v / 10));
        vstd::arithmetic::power::lemma_pow1(10);
        assert(vstd::arithmetic::power::pow(10, digit_count(v)) == 10 * vstd::arithmetic::power::pow(10, digit_count(v / 10)));
    }
}

/// Ten to the power of the number of decimal digits of `v`.
fn pow10_digits(v: i64) -> (p: i128)
    requires
        v >= 0,
    ensures
        p == vstd::arithmetic::power::pow(10, digit_count(v as nat)),
        10 <= p <= 10 * (v as int) + 10,
{
    let mut p: i128 = 10;
    let mut r: i64 = v;
    let ghost mut c: nat = 1;
    let ghost mut q: int = 1;
    proof {
        vstd::arithmetic::power::lemma_pow1(10);
    }
    while r >= 10
        invariant
            0 <= r <= v,
            r >= 1 || v == 0,
            c >= 1,
            p == vstd::arithmetic::power::pow(10, c),
            digit_count(v as nat) == c - 1 + digit_count(r as nat),
            p == 10 * q,
            q >= 1,
            q * (r as int) <= v,
        decreases r,
    {
        proof {
            vstd::arithmetic::power::lemma_pow_adds(10, c, 1);
            vstd::arithmetic::power::lemma_pow1(10);
            let rr = r as int;
            assert(q * 10 <= q * rr) by (nonlinear_arith) requires rr >= 10, q >= 1;
            assert(p * (rr / 10) <= q * rr) by (nonlinear_arith) requires p == 10 * q, rr >= 10, q >= 1;
        }
        p = p * 10;
        r = r / 10;
        proof {
            c = c + 1;
            q = q * 10;
        }
    }
    proof {
        if v > 0 {
            assert(q * (r as int) >= q) by (nonlinear_arith) requires r >= 1, q >= 1;
        }
    }
    p
}

proof fn lemma_joined_grows(vs: Seq<i64>, k: int)
    requires
        0 <= k < vs.len(),
        forall|q: int| 0 <= q < vs.len() ==> #[trigger] vs[q] >= 0,
    ensures
        joined(vs, k + 1) == joined(vs, k) * vstd::arithmetic::power::pow(10, digit_count(vs[k] as nat)) + vs[k],
{
}

/// The number that the decimal writings of the non-negative `values`, put
/// end to end, write; `None` if it, or the number of a prefix, leaves 64
/// bits.
pub fn join_numbers(values: &Vec<i64>) -> (r: Option<i64>)
    requires
        forall|k: int| 0 <= k < values@.len() ==> #[trigger] values@[k] >= 0,
    ensures
        r matches Some(v) ==> v == joined(values@, values@.len() as int),
        r is None ==> exists|k: int| 1 <= k <= values@.len() && #[trigger] joined(values@, k) > i64::MAX,
{
    let mut acc: i64 = 0;
    let mut k: usize = 0;
    while k < values.len()
        invariant
            k <= values@.len(),
            forall|q: int| 0 <= q < values@.len() ==> #[trigger] values@[q] >= 0,
            acc == joined(values@, k as int),
            acc >= 0,
        decreases values@.len() - k,
    {
        let v = values[k];
        let p = pow10_digits(v);
        proof {
            lemma_joined_grows(values@, k as int);
        }
        let wide = match (acc as i128).checked_mul(p) {
            Some(x) => x.checked_add(v as i128),
            None => None,
        };
        let wide = match wide {
            Some(w) => w,
            None => {
                assert(joined(values@, k + 1) > i64::MAX);
                return None;
            },
        };
        if wide > i64::MAX as i128 {
            assert(joined(values@, k + 1) > i64::MAX);
            return None;
        }
        acc = wide as i64;
        k = k + 1;
    }
    Some(acc)
}

/// The numbers after the colon of a line `<name>: <n> <n> ...`.
pub open spec fn line_numbers(l: Seq<u8>) -> Option<Seq<u32>> {
    match find_from(l, seq![58u8], 0) {
        Some(k) => numbers_of(words(l.subrange(k + 1, l.len() as int))),
        None => None,
    }
}

/// Reads the numbers after the colon of a line.
fn read_line_numbers(l: &[u8]) -> (r: Option<Vec<i64>>)
    ensures
        match line_numbers(l@) {
            Some(v) => r matches Some(x) && x@ == v.map_values(|n: u32| n as i64),
            None => r is None,
        },
{
    let colon: [u8; 1] = [58];
    assert(colon@ =~= seq![58u8]);
    let k = match find(l, &colon, 0) {
        Some(k) => k,
        None => {
            return None;
        },
    };
    proof {
        crate::text::lemma_find_from_bounds(l@, seq![58u8], 0);
    }
    let n = l.len();
    let rest = crate::text::copy_range(l, k + 1, n);
    let nums = match parse_numbers(rest.as_slice()) {
        Some(v) => v,
        None => {
            return None;
        },
    };
    let mut out: Vec<i64> = Vec::new();
    let mut i: usize = 0;
    while i < nums.len()
        invariant
            i <= nums@.len(),
            out@ == nums@.subrange(0, i as int).map_values(|n: u32| n as i64),
        decreases nums@.len() - i,
    {
        out.push(nums[i] as i64);
        i = i + 1;
        assert(out@ =~= nums@.subrange(0, i as int).map_values(|n: u32| n as i64));
    }
    assert(nums@.subrange(0, i as int) =~= nums@);
    Some(out)
}

impl Day6 {
    /// Reads the race times from the first line and the record distances
    /// from the second; `None` if either does not read.
    pub fn make_day(input: &str) -> (r: Option<Day6>)
        ensures
            ({
                let ls = lines(input.spec_bytes());
                match (if ls.len() >= 2 { line_numbers(ls[0]) } else { None }, if ls.len() >= 2 { line_numbers(ls[1]) } else { None }) {
                    (Some(t), Some(d)) => r matches Some(day) && day.times@ == t.map_values(|n: u32| n as i64)
                        && day.distances@ == d.map_values(|n: u32| n as i64),
                    _ => r is None,
                }
            }),
    {
        let ls = split_lines(input.as_bytes());
        if ls.len() < 2 {
            return None;
        }
        assert(pieces(ls@)[0] == ls@[0]@);
        assert(pieces(ls@)[1] == ls@[1]@);
        let times = match read_line_numbers(ls[0].as_slice()) {
            Some(v) => v,
            None => {
                return None;
            },
        };
        let distances = match read_line_numbers(ls[1].as_slice()) {
            Some(v) => v,
            None => {
                return None;
            },
        };
        Some(Day6 { times, distances })
    }
}

} // verus!
