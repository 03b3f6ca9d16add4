//! Extrapolating sequences from their repeated differences, through the
//! binomial expansion of the forward differences.
use vstd::prelude::*;
use vstd::arithmetic::power2::{pow2, lemma_pow2_unfold, lemma_pow2_strictly_increases};
use vstd::string::StringSliceAdditionalSpecFns;
use crate::text::{i64_text, is_number, lines, number_value, parse_number, pieces, signed_decimal, split_lines, split_words, words};

verus! {

/// The binomial coefficient `n` choose `k`.
pub open spec fn binom(n: nat, k: nat) -> nat
    decreases n,
{
    if k == 0 {
        1
    } else if n == 0 {
        0
    } else {
        binom((n - 1) as nat, (k - 1) as nat) + binom((n - 1) as nat, k)
    }
}

proof fn lemma_binom_bound(n: nat, k: nat)
    ensures
        binom(n, k) <= pow2(n),
    decreases n,
{
    if k == 0 {
        vstd::arithmetic::power2::lemma_pow2_pos(n);
    } else if n == 0 {
    } else {
        lemma_binom_bound((n - 1) as nat, (k - 1) as nat);
        lemma_binom_bound((n - 1) as nat, k);
        lemma_pow2_unfold(n);
    }
}

proof fn lemma_binom_diag(n: nat)
    ensures
        binom(n, n) == 1,
    decreases n,
{
    if n > 0 {
        lemma_binom_diag((n - 1) as nat);
        lemma_binom_zero_above((n - 1) as nat, n);
    }
}

proof fn lemma_binom_zero_above(n: nat, k: nat)
    requires
        k > n,
    ensures
        binom(n, k) == 0,
    decreases n,
{
    if n > 0 {
        lemma_binom_zero_above((n - 1) as nat, (k - 1) as nat);
        lemma_binom_zero_above((n - 1) as nat, k);
    }
}

/// The rows of Pascal's triangle from row 0 up to row `n`.
#[derive(Debug)]
pub struct Binomial {
    pub coefficients: Vec<Vec<i64>>,
}

/// The table holds rows 0 to `n` of Pascal's triangle.
pub open spec fn pascal(b: &Binomial, n: nat) -> bool {
    &&& b.coefficients@.len() == n + 1
    &&& forall|k: int| 0 <= k <= n ==> (#[trigger] b.coefficients@[k])@.len() == k + 1
    &&& forall|k: int, i: int| 0 <= k <= n && 0 <= i <= k ==> #[trigger] b.coefficients@[k]@[i] == binom(k as nat, i as nat)
}

proof fn lemma_pow2_62(k: nat)
    requires
        k <= 62,
    ensures
        pow2(k) <= 0x4000_0000_0000_0000,
{
    vstd::arithmetic::power2::lemma2_to64_rest();
    if k < 62 {
        lemma_pow2_strictly_increases(k, 62);
    }
}

impl Binomial {
    /// Rows 0 to `n` of Pascal's triangle.
    pub fn construct_from_n_value(n: usize) -> (r: Binomial)
        requires
            n <= 62,
        ensures
            pascal(&r, n as nat),
    {
        let mut coefficients: Vec<Vec<i64>> = Vec::new();
        let mut first: Vec<i64> = Vec::new();
        first.push(1);
        coefficients.push(first);
        let mut k: usize = 1;
        while k <= n
            invariant
                1 <= k <= n + 1,
                n <= 62,
                coefficients@.len() == k,
                forall|q: int| 0 <= q < k ==> (#[trigger] coefficients@[q])@.len() == q + 1,
                forall|q: int, i: int| 0 <= q < k && 0 <= i <= q ==> #[trigger] coefficients@[q]@[i] == binom(q as nat, i as nat),
            decreases n + 1 - k,
        {
            let mut line: Vec<i64> = Vec::new();
            line.push(1);
            let mut j: usize = 1;
            while j < k
                invariant
                    1 <= j <= k,
                    k <= n <= 62,
                    coefficients@.len() == k,
                    forall|q: int| 0 <= q < k ==> (#[trigger] coefficients@[q])@.len() == q + 1,
                    forall|q: int, i: int| 0 <= q < k && 0 <= i <= q ==> #[trigger] coefficients@[q]@[i] == binom(q as nat, i as nat),
                    line@.len() == j,
                    forall|i: int| 0 <= i < j ==> #[trigger] line@[i] == binom(k as nat, i as nat),
                decreases k - j,
            {
                proof {
                    lemma_binom_bound(k as nat, j as nat);
                    lemma_binom_bound((k - 1) as nat, (j - 1) as nat);
                    lemma_binom_bound((k - 1) as nat, j as nat);
                    lemma_pow2_62(k as nat);
                    lemma_pow2_62((k - 1) as nat);
                }
                let a = coefficients[k - 1][j - 1];
                let b = coefficients[k - 1][j];
                line.push(a + b);
                j = j + 1;
            }
            proof {
                lemma_binom_diag(k as nat);
            }
            line.push(1);
            coefficients.push(line);
            k = k + 1;
        }
        Binomial { coefficients }
    }
}

/// A sequence of values.
#[derive(Debug)]
pub struct Sequence {
    pub values: Vec<i32>,
}

/// 1 for even `m`, -1 for odd.
pub open spec fn sign(m: int) -> int {
    if m % 2 == 0 {
        1
    } else {
        -1
    }
}

/// The first `m` terms of the `k`-th forward difference at the start of `v`.
pub open spec fn diff_sum(v: Seq<i32>, k: nat, m: nat) -> int
    decreases m,
{
    if m == 0 {
        0
    } else {
        diff_sum(v, k, (m - 1) as nat) + v[m - 1] * binom(k, (m - 1) as nat) * sign(k + m - 1)
    }
}

/// The `k`-th forward difference of `v` at its start.
pub open spec fn higher_diff(v: Seq<i32>, k: nat) -> int {
    diff_sum(v, k, k + 1)
}

/// The forward differences of orders 0 to `len - 2` at the start of `v`.
pub open spec fn all_diffs(v: Seq<i32>) -> Seq<int> {
    Seq::new((v.len() - 1) as nat, |k: int| higher_diff(v, k as nat))
}

/// `s` without its trailing zeros.
pub open spec fn strip(s: Seq<int>) -> Seq<int>
    decreases s.len(),
{
    if s.len() > 0 && s.last() == 0 {
        strip(s.drop_last())
    } else {
        s
    }
}

/// The sum of the first `m` of `d`, each times `n` choose its index.
pub open spec fn next_sum(d: Seq<int>, n: nat, m: nat) -> int
    decreases m,
{
    if m == 0 {
        0
    } else {
        next_sum(d, n, (m - 1) as nat) + d[m - 1] * binom(n, (m - 1) as nat)
    }
}

/// The value after the last of `v`, from its forward differences.
pub open spec fn next_value(v: Seq<i32>) -> int {
    let d = strip(all_diffs(v));
    next_sum(d, v.len(), d.len())
}

/// Each forward difference of `v` fits in 32 bits.
pub open spec fn diffs_fit(v: Seq<i32>) -> bool {
    forall|k: int| 0 <= k < v.len() - 1 ==> i32::MIN <= #[trigger] higher_diff(v, k as nat) <= i32::MAX
}

/// A value of 32 bits.
pub open spec fn fits32(x: int) -> bool {
    i32::MIN <= x <= i32::MAX
}

proof fn lemma_term_bound(a: int, c: int)
    requires
        -0x8000_0000 <= a <= 0x8000_0000,
        0 <= c <= 0x4000_0000_0000_0000,
    ensures
        -0x2000_0000_0000_0000_0000_0000 <= a * c <= 0x2000_0000_0000_0000_0000_0000,
{
    assert(-0x2000_0000_0000_0000_0000_0000 <= a * c <= 0x2000_0000_0000_0000_0000_0000) by (nonlinear_arith)
        requires
            -0x8000_0000 <= a <= 0x8000_0000,
            0 <= c <= 0x4000_0000_0000_0000,
    ;
}

proof fn lemma_strip_prefix(s: Seq<int>)
    ensures
        strip(s).len() <= s.len(),
        forall|i: int| 0 <= i < strip(s).len() ==> strip(s)[i] == s[i],
        strip(s).len() == 0 || strip(s).last() != 0,
        forall|i: int| strip(s).len() <= i < s.len() ==> s[i] == 0,
    decreases s.len(),
{
    if s.len() > 0 && s.last() == 0 {
        let t = s.drop_last();
        lemma_strip_prefix(t);
        assert(strip(s) == strip(t));
        assert forall|i: int| 0 <= i < strip(s).len() implies strip(s)[i] == s[i] by {
            assert(t[i] == s[i]);
        }
        assert forall|i: int| strip(s).len() <= i < s.len() implies s[i] == 0 by {
            if i < t.len() {
                assert(t[i] == s[i]);
            }
        }
    }
}

/// The `k`-th forward difference at the start of `values`, exactly.
fn forward_difference(values: &Vec<i32>, binomial: &Binomial, k: usize, n: Ghost<nat>) -> (r: i128)
    requires
        pascal(binomial, n@),
        n@ <= 62,
        k <= n@,
        k < values@.len(),
    ensures
        r == higher_diff(values@, k as nat),
{
    let mut acc: i128 = 0;
    let mut i: usize = 0;
    while i <= k
        invariant
            i <= k + 1,
            k <= n@ <= 62,
            k < values@.len(),
            pascal(binomial, n@),
            acc == diff_sum(values@, k as nat, i as nat),
            -(i as int) * 0x2000_0000_0000_0000_0000_0000 <= acc <= (i as int) * 0x2000_0000_0000_0000_0000_0000,
        decreases k + 1 - i,
    {
        let c = binomial.coefficients[k][i];
        proof {
            lemma_binom_bound(k as nat, i as nat);
            lemma_pow2_62(k as nat);
            lemma_term_bound(values@[i as int] as int, c as int);
        }
        let t = (values[i] as i128) * (c as i128);
        let signed = if (k + i) % 2 == 0 { t } else { -t };
        proof {
            let vi = values@[i as int] as int;
            let b = binom(k as nat, i as nat) as int;
            assert(c as int == b);
            assert(t as int == vi * b);
            if (k + i) % 2 == 0 {
                assert(sign(k + i) == 1);
                assert(vi * b * 1 == vi * b) by (nonlinear_arith);
            } else {
                assert(sign(k + i) == -1);
                assert(vi * b * -1 == -(vi * b)) by (nonlinear_arith);
            }
            assert(diff_sum(values@, k as nat, (i + 1) as nat) == diff_sum(values@, k as nat, i as nat) + vi * b * sign(k + i));
        }
        acc = acc + signed;
        i = i + 1;
    }
    acc
}

impl Sequence {
    /// The forward differences at the start that fit in 32 bits, without
    /// trailing zeros; `None` if one does not fit.
    fn differences_checked(&self, binomial: &Binomial, n: Ghost<nat>) -> (r: Option<Vec<i32>>)
        requires
            pascal(binomial, n@),
            n@ <= 62,
            1 <= self.values@.len() <= n@ + 1,
        ensures
            r matches Some(d) ==> diffs_fit(self.values@) && d@.map_values(|x: i32| x as int) == strip(all_diffs(self.values@)),
            r is None ==> !diffs_fit(self.values@),
    {
        let ghost v = self.values@;
        let len = self.values.len();
        let mut result: Vec<i32> = Vec::new();
        let mut k: usize = 0;
        while k < len - 1
            invariant
                k <= len - 1,
                len == v.len(),
                v == self.values@,
                1 <= len <= n@ + 1,
                n@ <= 62,
                pascal(binomial, n@),
                result@.len() == k,
                forall|q: int| 0 <= q < k ==> #[trigger] result@[q] as int == higher_diff(v, q as nat),
            decreases len - 1 - k,
        {
            let d = forward_difference(&self.values, binomial, k, n);
            if d < i32::MIN as i128 || d > i32::MAX as i128 {
                assert(!fits32(higher_diff(v, k as nat)));
                return None;
            }
            result.push(d as i32);
            k = k + 1;
        }
        assert(result@.map_values(|x: i32| x as int) =~= all_diffs(v));
        assert(diffs_fit(v)) by {
            assert forall|q: int| 0 <= q < v.len() - 1 implies i32::MIN <= #[trigger] higher_diff(v, q as nat) <= i32::MAX by {
                assert(result@[q] as int == higher_diff(v, q as nat));
            }
        }
        let ghost full = all_diffs(v);
        while result.len() > 0 && result[result.len() - 1] == 0
            invariant
                v == self.values@,
                diffs_fit(v),
                strip(result@.map_values(|x: i32| x as int)) == strip(full),
            decreases result@.len(),
        {
            let ghost before = result@.map_values(|x: i32| x as int);
            result.pop();
            assert(result@.map_values(|x: i32| x as int) =~= before.drop_last());
        }
        assert(strip(result@.map_values(|x: i32| x as int)) == result@.map_values(|x: i32| x as int));
        Some(result)
    }

    /// The forward differences at the start, of orders 0 to `len - 2`,
    /// without trailing zeros.
    pub fn compute_higher_differences(&self, binomial: &Binomial) -> (r: Vec<i32>)
        requires
            1 <= self.values@.len() <= binomial.coefficients@.len() <= 63,
            pascal(binomial, (binomial.coefficients@.len() - 1) as nat),
            diffs_fit(self.values@),
        ensures
            r@.map_values(|x: i32| x as int) == strip(all_diffs(self.values@)),
    {
        let n = Ghost((binomial.coefficients@.len() - 1) as nat);
        match self.differences_checked(binomial, n) {
            Some(d) => d,
            None => Vec::new(),
        }
    }

    /// The value after the last, if it and the forward differences fit in
    /// 32 bits.
    pub fn next_value_checked(&self, binomial: &Binomial) -> (r: Option<i32>)
        requires
            1 <= self.values@.len() < binomial.coefficients@.len() <= 63,
            pascal(binomial, (binomial.coefficients@.len() - 1) as nat),
        ensures
            r matches Some(x) ==> diffs_fit(self.values@) && x == next_value(self.values@),
            r is None ==> !diffs_fit(self.values@) || !fits32(next_value(self.values@)),
    {
        let n = Ghost((binomial.coefficients@.len() - 1) as nat);
        let d = match self.differences_checked(binomial, n) {
            Some(d) => d,
            None => {
                return None;
            },
        };
        let ghost ds = d@.map_values(|x: i32| x as int);
        proof {
            lemma_strip_prefix(all_diffs(self.values@));
        }
        let len = self.values.len();
        let mut acc: i128 = 0;
        let mut k: usize = 0;
        while k < d.len()
            invariant
                k <= d@.len(),
                ds == d@.map_values(|x: i32| x as int),
                d@.len() <= len - 1,
                len == self.values@.len(),
                len <= n@ <= 62,
                pascal(binomial, n@),
                acc == next_sum(ds, len as nat, k as nat),
                -(k as int) * 0x2000_0000_0000_0000_0000_0000 <= acc <= (k as int) * 0x2000_0000_0000_0000_0000_0000,
            decreases d@.len() - k,
        {
            let c = binomial.coefficients[len][k];
            proof {
                lemma_binom_bound(len as nat, k as nat);
                lemma_pow2_62(len as nat);
                lemma_term_bound(d@[k as int] as int, c as int);
            }
            acc = acc + (d[k] as i128) * (c as i128);
            k = k + 1;
        }
        if acc < i32::MIN as i128 || acc > i32::MAX as i128 {
            return None;
        }
        Some(acc as i32)
    }

    /// The value after the last.
    pub fn compute_next_value(&self, binomial: &Binomial) -> (r: i32)
        requires
            1 <= self.values@.len() < binomial.coefficients@.len() <= 63,
            pascal(binomial, (binomial.coefficients@.len() - 1) as nat),
            diffs_fit(self.values@),
            fits32(next_value(self.values@)),
        ensures
            r == next_value(self.values@),
    {
        match self.next_value_checked(binomial) {
            Some(x) => x,
            None => 0,
        }
    }

    /// The values in reverse order.
    pub fn reverse(&self) -> (r: Sequence)
        ensures
            r.values@ == self.values@.reverse(),
    {
        let mut values_reverse: Vec<i32> = Vec::new();
        let mut i: usize = self.values.len();
        while i > 0
            invariant
                i <= self.values@.len(),
                values_reverse@ == self.values@.subrange(i as int, self.values@.len() as int).reverse(),
            decreases i,
        {
            i = i - 1;
            values_reverse.push(self.values[i]);
            assert(values_reverse@ =~= self.values@.subrange(i as int, self.values@.len() as int).reverse());
        }
        assert(self.values@.subrange(0, self.values@.len() as int) =~= self.values@);
        Sequence { values: values_reverse }
    }
}

/// The value of a word: a number, with a leading `-` for a negative one.
pub open spec fn signed_value(w: Seq<u8>) -> Option<int> {
    if w.len() > 0 && w[0] == 45 {
        let rest = w.subrange(1, w.len() as int);
        if is_number(rest) { Some(-(number_value(rest) as int)) } else { None }
    } else {
        if is_number(w) { Some(number_value(w) as int) } else { None }
    }
}

/// The values of the words `ws`, if each is a number of 32 bits.
pub open spec fn values_of(ws: Seq<Seq<u8>>) -> Option<Seq<i32>>
    decreases ws.len(),
{
    if ws.len() == 0 {
        Some(seq![])
    } else {
        match (values_of(ws.drop_last()), signed_value(ws.last())) {
            (Some(v), Some(x)) => if fits32(x) { Some(v.push(x as i32)) } else { None },
            _ => None,
        }
    }
}

/// The sequences that the lines `ls` write, if each writes one.
pub open spec fn sequences_of(ls: Seq<Seq<u8>>) -> Option<Seq<Seq<i32>>>
    decreases ls.len(),
{
    if ls.len() == 0 {
        Some(seq![])
    } else {
        match (sequences_of(ls.drop_last()), values_of(words(ls.last()))) {
            (Some(v), Some(x)) => Some(v.push(x)),
            _ => None,
        }
    }
}

/// Reads a signed number of 32 bits.
fn parse_signed(w: &[u8]) -> (r: Option<i32>)
    ensures
        match signed_value(w@) {
            Some(x) => if fits32(x) { r == Some(x as i32) } else { r is None },
            None => r is None,
        },
{
    if w.len() > 0 && w[0] == 45 {
        let rest = crate::text::copy_range(w, 1, w.len());
        match parse_number(rest.as_slice()) {
            Some(v) => if v <= 2147483648 { Some((-(v as i64)) as i32) } else { None },
            None => None,
        }
    } else {
        match parse_number(w) {
            Some(v) => if v <= 2147483647 { Some(v as i32) } else { None },
            None => None,
        }
    }
}

proof fn lemma_values_stay_none(ws: Seq<Seq<u8>>, i: int)
    requires
        0 <= i <= ws.len(),
        values_of(ws.subrange(0, i)) is None,
    ensures
        values_of(ws) is None,
    decreases ws.len() - i,
{
    if i < ws.len() {
        assert(ws.subrange(0, i + 1).drop_last() =~= ws.subrange(0, i));
        lemma_values_stay_none(ws, i + 1);
    } else {
        assert(ws.subrange(0, i) =~= ws);
    }
}

proof fn lemma_sequences_stay_none(ls: Seq<Seq<u8>>, i: int)
    requires
        0 <= i <= ls.len(),
        sequences_of(ls.subrange(0, i)) is None,
    ensures
        sequences_of(ls) is None,
    decreases ls.len() - i,
{
    if i < ls.len() {
        assert(ls.subrange(0, i + 1).drop_last() =~= ls.subrange(0, i));
        lemma_sequences_stay_none(ls, i + 1);
    } else {
        assert(ls.subrange(0, i) =~= ls);
    }
}

impl Sequence {
    /// Reads a line of signed numbers separated by spaces.
    pub fn parse(line: &[u8]) -> (r: Option<Sequence>)
        ensures
            match values_of(words(line@)) {
                Some(v) => r matches Some(s) && s.values@ == v,
                None => r is None,
            },
    {
        let ws = split_words(line);
        let ghost p = pieces(ws@);
        let mut values: Vec<i32> = Vec::new();
        let mut i: usize = 0;
        assert(p.subrange(0, 0) =~= seq![]);
        while i < ws.len()
            invariant
                i <= ws@.len(),
                p == pieces(ws@),
                p == words(line@),
                values_of(p.subrange(0, i as int)) == Some(values@),
            decreases ws@.len() - i,
        {
            assert(p.subrange(0, i + 1).drop_last() =~= p.subrange(0, i as int));
            assert(p.subrange(0, i + 1).last() == ws@[i as int]@);
            match parse_signed(ws[i].as_slice()) {
                Some(x) => {
                    values.push(x);
                },
                None => {
                    proof { lemma_values_stay_none(p, i + 1); }
                    return None;
                },
            }
            i = i + 1;
        }
        assert(p.subrange(0, i as int) =~= p);
        Some(Sequence { values })
    }
}

/// Sequences to extrapolate, with Pascal's triangle up to one row past the
/// longest.
pub struct Day9 {
    pub data: Vec<Sequence>,
    pub binomials: Binomial,
}

/// The sum over the sequences `vs` of the value after the last (or before
/// the first, `backward`), if each has one of 32 bits and the sum fits in
/// 64 bits.
pub open spec fn total_next(vs: Seq<Seq<i32>>, backward: bool) -> Option<int>
    decreases vs.len(),
{
    if vs.len() == 0 {
        Some(0)
    } else {
        let s = if backward { vs.last().reverse() } else { vs.last() };
        match total_next(vs.drop_last(), backward) {
            Some(t) => if s.len() >= 1 && diffs_fit(s) && fits32(next_value(s)) && i64::MIN <= t + next_value(s) <= i64::MAX {
                Some(t + next_value(s))
            } else {
                None
            },
            None => None,
        }
    }
}

proof fn lemma_total_next_none(vs: Seq<Seq<i32>>, backward: bool, i: int)
    requires
        0 <= i <= vs.len(),
        total_next(vs.subrange(0, i), backward) is None,
    ensures
        total_next(vs, backward) is None,
    decreases vs.len() - i,
{
    if i < vs.len() {
        assert(vs.subrange(0, i + 1).drop_last() =~= vs.subrange(0, i));
        lemma_total_next_none(vs, backward, i + 1);
    } else {
        assert(vs.subrange(0, i) =~= vs);
    }
}

/// The values of each sequence.
pub open spec fn sequence_views(d: Seq<Sequence>) -> Seq<Seq<i32>> {
    d.map_values(|s: Sequence| s.values@)
}

/// The text of a signed total, or the empty text when there is none.
pub open spec fn signed_answer(t: Option<int>) -> Seq<char> {
    match t {
        Some(x) => signed_decimal(x),
        None => Seq::empty(),
    }
}

impl Day9 {
    /// Reads one sequence per line and builds Pascal's triangle one row past
    /// the longest; `None` if a line is not a sequence of numbers of 32
    /// bits, if there is no line, or if a sequence has more than 61 values.
    pub fn make_day(input: &str) -> (r: Option<Day9>)
        ensures
            r matches Some(d) ==> sequences_of(lines(input.spec_bytes())) == Some(sequence_views(d.data@))
                && d.data@.len() > 0
                && pascal(&d.binomials, (d.binomials.coefficients@.len() - 1) as nat)
                && d.binomials.coefficients@.len() <= 63
                && forall|k: int| 0 <= k < d.data@.len() ==> (#[trigger] d.data@[k]).values@.len() < d.binomials.coefficients@.len(),
            r is None ==> sequences_of(lines(input.spec_bytes())) is None || lines(input.spec_bytes()).len() == 0
                || exists|k: int| 0 <= k < lines(input.spec_bytes()).len() && (#[trigger] sequences_of(lines(input.spec_bytes()))->Some_0[k]).len() > 61,
    {
        let ls = split_lines(input.as_bytes());
        let ghost ps = pieces(ls@);
        let mut data: Vec<Sequence> = Vec::new();
        let mut longest: usize = 0;
        let mut i: usize = 0;
        assert(ps.subrange(0, 0) =~= seq![]);
        assert(sequence_views(data@) =~= seq![]);
        while i < ls.len()
            invariant
                i <= ls@.len(),
                ps == pieces(ls@),
                ps == lines(input.spec_bytes()),
                data@.len() == i,
                sequences_of(ps.subrange(0, i as int)) == Some(sequence_views(data@)),
                forall|k: int| 0 <= k < i ==> (#[trigger] data@[k]).values@.len() <= longest,
                i > 0 ==> exists|k: int| 0 <= k < i && (#[trigger] data@[k]).values@.len() == longest,
                i == 0 ==> longest == 0,
            decreases ls@.len() - i,
        {
            assert(ps.subrange(0, i + 1).drop_last() =~= ps.subrange(0, i as int));
            assert(ps.subrange(0, i + 1).last() == ls@[i as int]@);
            match Sequence::parse(ls[i].as_slice()) {
                Some(s) => {
                    let ghost before = sequence_views(data@);
                    let ghost old_data = data@;
                    let ghost old_longest = longest;
                    if s.values.len() > longest {
                        longest = s.values.len();
                    }
                    data.push(s);
                    assert(sequence_views(data@) =~= before.push(data@[i as int].values@));
                    assert(data@[i as int].values@.len() <= longest);
                    proof {
                        if data@[i as int].values@.len() == longest {
                            assert(exists|k: int| 0 <= k < i + 1 && (#[trigger] data@[k]).values@.len() == longest);
                        } else {
                            assert(longest == old_longest);
                            assert(i > 0);
                            let k = choose|k: int| 0 <= k < i && (#[trigger] old_data[k]).values@.len() == old_longest;
                            assert(data@[k] == old_data[k]);
                            assert(exists|k: int| 0 <= k < i + 1 && (#[trigger] data@[k]).values@.len() == longest);
                        }
                        assert forall|k: int| 0 <= k < i + 1 implies (#[trigger] data@[k]).values@.len() <= longest by {
                            if k < i {
                                assert(data@[k] == old_data[k]);
                            }
                        }
                    }
                },
                None => {
                    proof { lemma_sequences_stay_none(ps, i + 1); }
                    return None;
                },
            }
            i = i + 1;
        }
        assert(ps.subrange(0, i as int) =~= ps);
        if data.len() == 0 {
            return None;
        }
        if longest > 61 {
            proof {
                let k = choose|k: int| 0 <= k < i && (#[trigger] data@[k]).values@.len() == longest;
                assert(sequence_views(data@)[k] == data@[k].values@);
                assert(sequences_of(lines(input.spec_bytes())) == Some(sequence_views(data@)));
                assert(sequences_of(lines(input.spec_bytes()))->Some_0[k].len() > 61);
            }
            return None;
        }
        let binomials = Binomial::construct_from_n_value(longest + 1);
        Some(Day9 { data, binomials })
    }

    /// The sum of the extrapolated values, forward or backward.
    fn total(&self, backward: bool) -> (r: String)
        requires
            pascal(&self.binomials, (self.binomials.coefficients@.len() - 1) as nat),
            self.binomials.coefficients@.len() <= 63,
            forall|k: int| 0 <= k < self.data@.len() ==> (#[trigger] self.data@[k]).values@.len() < self.binomials.coefficients@.len(),
        ensures
            r@ == signed_answer(total_next(sequence_views(self.data@), backward)),
    {
        let ghost vs = sequence_views(self.data@);
        let mut total: i64 = 0;
        let mut i: usize = 0;
        while i < self.data.len()
            invariant
                i <= self.data@.len() == vs.len(),
                vs == sequence_views(self.data@),
                pascal(&self.binomials, (self.binomials.coefficients@.len() - 1) as nat),
                self.binomials.coefficients@.len() <= 63,
                forall|k: int| 0 <= k < self.data@.len() ==> (#[trigger] self.data@[k]).values@.len() < self.binomials.coefficients@.len(),
                total_next(vs.subrange(0, i as int), backward) == Some(total as int),
            decreases self.data@.len() - i,
        {
            assert(vs.subrange(0, i + 1).drop_last() =~= vs.subrange(0, i as int));
            assert(vs[i as int] == self.data@[i as int].values@);
            if self.data[i].values.len() == 0 {
                proof { lemma_total_next_none(vs, backward, i + 1); }
                return String::new();
            }
            let next = if backward {
                let rev = self.data[i].reverse();
                rev.next_value_checked(&self.binomials)
            } else {
                self.data[i].next_value_checked(&self.binomials)
            };
            match next {
                Some(x) => match total.checked_add(x as i64) {
                    Some(t) => {
                        total = t;
                    },
                    None => {
                        proof { lemma_total_next_none(vs, backward, i + 1); }
                        return String::new();
                    },
                },
                None => {
                    proof { lemma_total_next_none(vs, backward, i + 1); }
                    return String::new();
                },
            }
            i = i + 1;
        }
        assert(vs.subrange(0, i as int) =~= vs);
        i64_text(total)
    }

    /// The sum of the values after the last of each sequence.
    pub fn solution1(&self) -> (r: String)
        requires
            pascal(&self.binomials, (self.binomials.coefficients@.len() - 1) as nat),
            self.binomials.coefficients@.len() <= 63,
            forall|k: int| 0 <= k < self.data@.len() ==> (#[trigger] self.data@[k]).values@.len() < self.binomials.coefficients@.len(),
        ensures
            r@ == signed_answer(total_next(sequence_views(self.data@), false)),
    {
        self.total(false)
    }

    /// The sum of the values before the first of each sequence.
    pub fn solution2(&self) -> (r: String)
        requires
            pascal(&self.binomials, (self.binomials.coefficients@.len() - 1) as nat),
            self.binomials.coefficients@.len() <= 63,
            forall|k: int| 0 <= k < self.data@.len() ==> (#[trigger] self.data@[k]).values@.len() < self.binomials.coefficients@.len(),
        ensures
            r@ == signed_answer(total_next(sequence_views(self.data@), true)),
    {
        self.total(true)
    }
}

} // verus!
