//! Seed maps: quantities and ranges of quantities sent through a chain of
//! piecewise shifts.
use vstd::prelude::*;
use core::ops::Range;
use vstd::string::StringSliceAdditionalSpecFns;
use crate::text::{find, find_from, i128_text, lines, numbers_of, parse_numbers, pieces, signed_decimal, split_lines, words};

verus! {

/// A quantity.
pub type Quantity = i128;

/// The bound below which every number of the input lies.
pub open spec fn input_bound() -> int {
    0x1_0000_0000_0000_0000
}

/// One line of a map: quantities from `source_start` on, `length` of them,
/// go to `destination_start` on.
#[derive(Debug, Clone, Copy)]
pub struct TransformerLine {
    pub destination_start: Quantity,
    pub source_start: Quantity,
    pub length: Quantity,
}

/// The fields of the line lie between 0 and the input bound.
pub open spec fn line_ok(l: TransformerLine) -> bool {
    0 <= l.destination_start < input_bound() && 0 <= l.source_start < input_bound() && 0 <= l.length < input_bound()
}

/// A map: its lines.
#[derive(Debug)]
pub struct Transformer {
    pub transformer_lines: Vec<TransformerLine>,
}

/// The lines of the map are all well formed.
pub open spec fn transformer_ok(t: Transformer) -> bool {
    forall|k: int| 0 <= k < t.transformer_lines@.len() ==> line_ok(#[trigger] t.transformer_lines@[k])
}

/// Where the first of `lines` from `k` on that holds `q` sends it; `q`
/// itself if none does.
pub open spec fn convert_from(lines: Seq<TransformerLine>, q: int, k: int) -> int
    decreases lines.len() - k,
{
    if k < 0 || k >= lines.len() {
        q
    } else if lines[k].source_start <= q < lines[k].source_start + lines[k].length {
        q + lines[k].destination_start - lines[k].source_start
    } else {
        convert_from(lines, q, k + 1)
    }
}

proof fn lemma_convert_bound(lines: Seq<TransformerLine>, q: int, k: int)
    requires
        forall|i: int| 0 <= i < lines.len() ==> line_ok(#[trigger] lines[i]),
    ensures
        q - input_bound() < convert_from(lines, q, k) < q + input_bound(),
    decreases lines.len() - k,
{
    if 0 <= k < lines.len() && !(lines[k].source_start <= q < lines[k].source_start + lines[k].length) {
        lemma_convert_bound(lines, q, k + 1);
    } else if 0 <= k < lines.len() {
        assert(line_ok(lines[k]));
    }
}

impl Transformer {
    /// Where the map sends `quantity`: through the first line that holds
    /// it, else unchanged.
    pub fn convert_quantity(&self, quantity: Quantity) -> (r: Quantity)
        requires
            transformer_ok(*self),
            -0x1000_0000_0000_0000_0000_0000_0000_0000 < quantity < 0x1000_0000_0000_0000_0000_0000_0000_0000,
        ensures
            r == convert_from(self.transformer_lines@, quantity as int, 0),
            quantity - input_bound() < r < quantity + input_bound(),
    {
        proof {
            lemma_convert_bound(self.transformer_lines@, quantity as int, 0);
        }
        let mut k: usize = 0;
        while k < self.transformer_lines.len()
            invariant
                k <= self.transformer_lines@.len(),
                transformer_ok(*self),
                -0x1000_0000_0000_0000_0000_0000_0000_0000 < quantity < 0x1000_0000_0000_0000_0000_0000_0000_0000,
                convert_from(self.transformer_lines@, quantity as int, 0) == convert_from(self.transformer_lines@, quantity as int, k as int),
            decreases self.transformer_lines@.len() - k,
        {
            let line = self.transformer_lines[k];
            assert(line_ok(self.transformer_lines@[k as int]));
            if quantity >= line.source_start && quantity < line.source_start + line.length {
                return quantity + line.destination_start - line.source_start;
            }
            k = k + 1;
        }
        quantity
    }
}

/// `q` sent through the first `n` maps.
pub open spec fn convert_all(ts: Seq<Transformer>, q: int, n: int) -> int
    decreases n,
{
    if n <= 0 {
        q
    } else {
        convert_from(ts[n - 1].transformer_lines@, convert_all(ts, q, n - 1), 0)
    }
}

/// The seed numbers and the maps.
#[derive(Debug)]
pub struct Day5 {
    pub start_seeds: Vec<Quantity>,
    pub transformers: Vec<Transformer>,
}

/// The seeds and maps are within the bounds that the arithmetic needs.
pub open spec fn day_ok(d: Day5) -> bool {
    &&& d.transformers@.len() < 0x1_0000_0000
    &&& forall|k: int| 0 <= k < d.transformers@.len() ==> transformer_ok(#[trigger] d.transformers@[k])
    &&& forall|k: int| 0 <= k < d.start_seeds@.len() ==> 0 <= #[trigger] d.start_seeds@[k] < input_bound()
}

impl Day5 {
    /// Where the chain of maps sends `seed`.
    pub fn convert_quantity(&self, seed: Quantity) -> (r: Quantity)
        requires
            day_ok(*self),
            0 <= seed < input_bound(),
        ensures
            r == convert_all(self.transformers@, seed as int, self.transformers@.len() as int),
    {
        let mut q = seed;
        let mut k: usize = 0;
        while k < self.transformers.len()
            invariant
                k <= self.transformers@.len() < 0x1_0000_0000,
                day_ok(*self),
                0 <= seed < input_bound(),
                q == convert_all(self.transformers@, seed as int, k as int),
                seed - (k as int) * input_bound() <= q <= seed + (k as int) * input_bound(),
            decreases self.transformers@.len() - k,
        {
            assert(transformer_ok(self.transformers@[k as int]));
            assert((k as int) * input_bound() < 0x1_0000_0000 * input_bound()) by (nonlinear_arith)
                requires k < 0x1_0000_0000;
            q = self.transformers[k].convert_quantity(q);
            k = k + 1;
        }
        q
    }

    /// The seed ranges: each pair of seed numbers is a start and a length.
    pub fn get_ranges(&self) -> (r: Vec<Range<Quantity>>)
        requires
            day_ok(*self),
            self.start_seeds@.len() % 2 == 0,
        ensures
            r@.len() == self.start_seeds@.len() / 2,
            forall|k: int| 0 <= k < r@.len() ==> (#[trigger] r@[k]).start == self.start_seeds@[2 * k]
                && r@[k].end == self.start_seeds@[2 * k] + self.start_seeds@[2 * k + 1],
    {
        let mut r: Vec<Range<Quantity>> = Vec::new();
        let mut i: usize = 0;
        while i < self.start_seeds.len() / 2
            invariant
                i <= self.start_seeds@.len() / 2,
                self.start_seeds@.len() % 2 == 0,
                day_ok(*self),
                r@.len() == i,
                forall|k: int| 0 <= k < i ==> (#[trigger] r@[k]).start == self.start_seeds@[2 * k]
                    && r@[k].end == self.start_seeds@[2 * k] + self.start_seeds@[2 * k + 1],
            decreases self.start_seeds@.len() / 2 - i,
        {
            let a = self.start_seeds[2 * i];
            let b = self.start_seeds[2 * i + 1];
            r.push(Range { start: a, end: a + b });
            i = i + 1;
        }
        r
    }
}

/// Both ends of the range lie strictly between `-b` and `b`.
pub open spec fn within(r: Range<Quantity>, b: int) -> bool {
    -b < r.start < b && -b < r.end < b
}

/// Every range of `s` lies within `b`.
pub open spec fn all_within(s: Seq<Range<Quantity>>, b: int) -> bool {
    forall|k: int| 0 <= k < s.len() ==> within(#[trigger] s[k], b)
}

/// The range holds no quantity.
pub open spec fn is_empty(r: Range<Quantity>) -> bool {
    !(r.start < r.end)
}

/// The smaller of two quantities.
pub open spec fn qmin(a: int, b: int) -> int {
    if a < b { a } else { b }
}

/// The larger of two quantities.
pub open spec fn qmax(a: int, b: int) -> int {
    if a > b { a } else { b }
}

/// The range from `a` to `b`.
pub open spec fn rng(a: int, b: int) -> Range<Quantity> {
    Range { start: a as i128, end: b as i128 }
}

/// What one line does to a range: the part it moves, shifted, and the
/// parts before and after its source, left as they are.
pub struct RangeTransformResult {
    pub mapped_range: Option<Range<Quantity>>,
    pub remaining_ranges: Vec<Range<Quantity>>,
}

/// The part of `r` that the line moves, shifted, if not empty.
pub open spec fn line_mapped(l: TransformerLine, r: Range<Quantity>) -> Option<Range<Quantity>> {
    let inner = rng(qmax(r.start as int, l.source_start as int), qmin(r.end as int, l.source_start + l.length));
    let diff = l.destination_start - l.source_start;
    if is_empty(inner) {
        None
    } else {
        Some(rng(inner.start + diff, inner.end + diff))
    }
}

/// The parts of `r` before and after the source of the line, those not
/// empty, in that order.
pub open spec fn line_remaining(l: TransformerLine, r: Range<Quantity>) -> Seq<Range<Quantity>> {
    let left = rng(qmin(r.start as int, l.source_start as int), qmin(r.end as int, l.source_start as int));
    let right = rng(qmax(r.start as int, l.source_start + l.length), qmax(r.end as int, l.source_start + l.length));
    (if is_empty(left) { seq![] } else { seq![left] }) + (if is_empty(right) { seq![] } else { seq![right] })
}

impl TransformerLine {
    /// Splits `range` into the part that this line moves, shifted, and the
    /// parts before and after its source.
    pub fn map_range(&self, range: Range<Quantity>) -> (r: RangeTransformResult)
        requires
            line_ok(*self),
            within(range, 0x1_0000_0000_0000_0000_0000_0000_0000),
        ensures
            r.mapped_range == line_mapped(*self, range),
            r.remaining_ranges@ == line_remaining(*self, range),
    {
        let s = self.source_start;
        let e = self.source_start + self.length;
        let left = Range { start: if range.start < s { range.start } else { s }, end: if range.end < s { range.end } else { s } };
        let right = Range { start: if range.start > e { range.start } else { e }, end: if range.end > e { range.end } else { e } };
        let inner = Range { start: if range.start > s { range.start } else { s }, end: if range.end < e { range.end } else { e } };
        let diff = self.destination_start - self.source_start;
        let mut remaining_ranges: Vec<Range<Quantity>> = Vec::new();
        if left.start < left.end {
            remaining_ranges.push(left);
        }
        if right.start < right.end {
            remaining_ranges.push(right);
        }
        let mapped_range = if inner.start < inner.end {
            Some(Range { start: inner.start + diff, end: inner.end + diff })
        } else {
            None
        };
        assert(remaining_ranges@ =~= line_remaining(*self, range));
        RangeTransformResult { mapped_range, remaining_ranges }
    }
}

/// The ranges of `o`, none or one.
pub open spec fn opt_seq(o: Option<Range<Quantity>>) -> Seq<Range<Quantity>> {
    match o {
        Some(r) => seq![r],
        None => seq![],
    }
}

/// One line applied to each of `rs` in turn: the moved parts and the parts
/// left, each in order.
pub open spec fn through_line(l: TransformerLine, rs: Seq<Range<Quantity>>) -> (Seq<Range<Quantity>>, Seq<Range<Quantity>>)
    decreases rs.len(),
{
    if rs.len() == 0 {
        (seq![], seq![])
    } else {
        let (m, rem) = through_line(l, rs.drop_last());
        (m + opt_seq(line_mapped(l, rs.last())), rem + line_remaining(l, rs.last()))
    }
}

/// The first `n` lines applied in turn to `range`: the parts moved so far
/// and the parts still left.
pub open spec fn through_lines(lines: Seq<TransformerLine>, range: Range<Quantity>, n: int) -> (Seq<Range<Quantity>>, Seq<Range<Quantity>>)
    decreases n,
{
    if n <= 0 {
        (seq![], seq![range])
    } else {
        let (m, rem) = through_lines(lines, range, n - 1);
        let (m2, rem2) = through_line(lines[n - 1], rem);
        (m + m2, rem2)
    }
}

/// The index of the first range of `s` that starts after `x`.
pub open spec fn first_after(s: Seq<Range<Quantity>>, x: int, k: int) -> int
    decreases s.len() - k,
{
    if k < 0 || k >= s.len() {
        s.len() as int
    } else if s[k].start > x {
        k
    } else {
        first_after(s, x, k + 1)
    }
}

/// The ranges of `s` sorted by start, equal starts keeping their order.
pub open spec fn sort_by_start(s: Seq<Range<Quantity>>) -> Seq<Range<Quantity>>
    decreases s.len(),
{
    if s.len() == 0 {
        seq![]
    } else {
        let t = sort_by_start(s.drop_last());
        let p = first_after(t, s.last().start as int, 0);
        t.subrange(0, p) + seq![s.last()] + t.subrange(p, t.len() as int)
    }
}

/// `cur` followed by `rest`, each range that starts no later than the end of
/// the one before it joined to it, the joined range taking the end of the
/// later one.
pub open spec fn merge_from(cur: Range<Quantity>, rest: Seq<Range<Quantity>>) -> Seq<Range<Quantity>>
    decreases rest.len(),
{
    if rest.len() == 0 {
        seq![cur]
    } else if cur.end >= rest[0].start {
        merge_from(Range { start: cur.start, end: rest[0].end }, rest.drop_first())
    } else {
        seq![cur] + merge_from(rest[0], rest.drop_first())
    }
}

/// The ranges sorted by start, overlapping or touching ones joined.
pub open spec fn merged(s: Seq<Range<Quantity>>) -> Seq<Range<Quantity>> {
    let t = sort_by_start(s);
    merge_from(t[0], t.drop_first())
}

proof fn lemma_first_after_bound(s: Seq<Range<Quantity>>, x: int, k: int)
    requires
        0 <= k <= s.len(),
    ensures
        k <= first_after(s, x, k) <= s.len(),
    decreases s.len() - k,
{
    if k < s.len() && s[k].start <= x {
        lemma_first_after_bound(s, x, k + 1);
    }
}

proof fn lemma_sort_len(s: Seq<Range<Quantity>>)
    ensures
        sort_by_start(s).len() == s.len(),
        forall|b: int| all_within(s, b) ==> all_within(sort_by_start(s), b),
    decreases s.len(),
{
    if s.len() > 0 {
        let t = sort_by_start(s.drop_last());
        lemma_sort_len(s.drop_last());
        lemma_first_after_bound(t, s.last().start as int, 0);
        let p = first_after(t, s.last().start as int, 0);
        let u = t.subrange(0, p) + seq![s.last()] + t.subrange(p, t.len() as int);
        assert forall|b: int| all_within(s, b) implies all_within(sort_by_start(s), b) by {
            assert(all_within(s.drop_last(), b)) by {
                assert forall|k: int| 0 <= k < s.drop_last().len() implies within(#[trigger] s.drop_last()[k], b) by {
                    assert(s.drop_last()[k] == s[k]);
                }
            }
            assert forall|k: int| 0 <= k < u.len() implies within(#[trigger] u[k], b) by {
                if k < p {
                    assert(u[k] == t[k]);
                } else if k == p {
                    assert(u[k] == s.last());
                    assert(s.last() == s[s.len() - 1]);
                } else {
                    assert(u[k] == t[k - 1]);
                }
            }
        }
    }
}

/// Sorts `v` by start, equal starts keeping their order.
fn sort_ranges(v: &Vec<Range<Quantity>>) -> (r: Vec<Range<Quantity>>)
    ensures
        r@ == sort_by_start(v@),
{
    let mut r: Vec<Range<Quantity>> = Vec::new();
    let mut i: usize = 0;
    assert(v@.subrange(0, 0) =~= seq![]);
    while i < v.len()
        invariant
            i <= v@.len(),
            r@ == sort_by_start(v@.subrange(0, i as int)),
            r@.len() == i,
        decreases v@.len() - i,
    {
        let x = Range { start: v[i].start, end: v[i].end };
        let mut p: usize = 0;
        while p < r.len() && r[p].start <= x.start
            invariant
                p <= r@.len(),
                first_after(r@, x.start as int, 0) == first_after(r@, x.start as int, p as int),
            decreases r@.len() - p,
        {
            p = p + 1;
        }
        let ghost before = r@;
        assert(v@.subrange(0, i + 1).drop_last() =~= v@.subrange(0, i as int));
        assert(v@.subrange(0, i + 1).last() == x);
        r.insert(p, x);
        assert(r@ =~= before.subrange(0, p as int) + seq![x] + before.subrange(p as int, before.len() as int));
        i = i + 1;
    }
    assert(v@.subrange(0, i as int) =~= v@);
    r
}

/// Sorts the ranges by start and joins each one that starts no later than
/// the end of the one before it to it, the joined range taking the end of
/// the later one.
pub fn merge_ranges(ranges: &mut Vec<Range<Quantity>>)
    requires
        old(ranges)@.len() > 0,
    ensures
        final(ranges)@ == merged(old(ranges)@),
{
    let sorted = sort_ranges(ranges);
    proof {
        lemma_sort_len(old(ranges)@);
    }
    let ghost t = sorted@;
    let mut result: Vec<Range<Quantity>> = Vec::new();
    let mut cur = Range { start: sorted[0].start, end: sorted[0].end };
    let mut i: usize = 1;
    assert(t.drop_first() =~= t.subrange(1, t.len() as int));
    while i < sorted.len()
        invariant
            1 <= i <= t.len(),
            t == sorted@,
            result@ + merge_from(cur, t.subrange(i as int, t.len() as int)) == merge_from(t[0], t.drop_first()),
        decreases t.len() - i,
    {
        let next = Range { start: sorted[i].start, end: sorted[i].end };
        let ghost rest = t.subrange(i as int, t.len() as int);
        assert(rest.drop_first() =~= t.subrange(i + 1, t.len() as int));
        if cur.end >= next.start {
            cur = Range { start: cur.start, end: next.end };
        } else {
            let ghost before = result@;
            let ghost old_cur = cur;
            result.push(cur);
            assert(result@ + merge_from(next, t.subrange(i + 1, t.len() as int)) =~= before + merge_from(
                old_cur,
                rest,
            ));
            cur = next;
        }
        i = i + 1;
    }
    let ghost before = result@;
    result.push(cur);
    assert(t.subrange(i as int, t.len() as int) =~= seq![]);
    assert(result@ =~= before + merge_from(cur, seq![]));
    *ranges = result;
}

proof fn lemma_line_bounds(l: TransformerLine, r: Range<Quantity>, b: int)
    requires
        line_ok(l),
        within(r, b),
        b >= 2 * input_bound(),
    ensures
        all_within(line_remaining(l, r), b),
        line_mapped(l, r) matches Some(m) ==> within(m, b + input_bound()),
{
    let left = rng(qmin(r.start as int, l.source_start as int), qmin(r.end as int, l.source_start as int));
    let right = rng(qmax(r.start as int, l.source_start + l.length), qmax(r.end as int, l.source_start + l.length));
    let rem = line_remaining(l, r);
    assert forall|k: int| 0 <= k < rem.len() implies within(#[trigger] rem[k], b) by {
        if !is_empty(left) && k == 0 {
            assert(rem[k] == left);
        } else {
            assert(rem[k] == right);
        }
    }
}

proof fn lemma_through_line(l: TransformerLine, rs: Seq<Range<Quantity>>, b: int)
    requires
        line_ok(l),
        all_within(rs, b),
        b >= 2 * input_bound(),
    ensures
        all_within(through_line(l, rs).1, b),
        all_within(through_line(l, rs).0, b + input_bound()),
    decreases rs.len(),
{
    if rs.len() > 0 {
        let (m, rem) = through_line(l, rs.drop_last());
        assert(all_within(rs.drop_last(), b)) by {
            assert forall|k: int| 0 <= k < rs.drop_last().len() implies within(#[trigger] rs.drop_last()[k], b) by {
                assert(rs.drop_last()[k] == rs[k]);
            }
        }
        lemma_through_line(l, rs.drop_last(), b);
        assert(within(rs.last(), b)) by { assert(rs.last() == rs[rs.len() - 1]); }
        lemma_line_bounds(l, rs.last(), b);
        let m2 = m + opt_seq(line_mapped(l, rs.last()));
        let rem2 = rem + line_remaining(l, rs.last());
        assert forall|k: int| 0 <= k < rem2.len() implies within(#[trigger] rem2[k], b) by {
            if k < rem.len() {
                assert(rem2[k] == rem[k]);
            } else {
                assert(rem2[k] == line_remaining(l, rs.last())[k - rem.len()]);
            }
        }
        assert forall|k: int| 0 <= k < m2.len() implies within(#[trigger] m2[k], b + input_bound()) by {
            if k < m.len() {
                assert(m2[k] == m[k]);
            } else {
                assert(m2[k] == opt_seq(line_mapped(l, rs.last()))[k - m.len()]);
            }
        }
    }
}

proof fn lemma_through_lines(lines: Seq<TransformerLine>, range: Range<Quantity>, n: int, b: int)
    requires
        0 <= n <= lines.len(),
        forall|i: int| 0 <= i < lines.len() ==> line_ok(#[trigger] lines[i]),
        within(range, b),
        b >= 2 * input_bound(),
    ensures
        all_within(through_lines(lines, range, n).1, b),
        all_within(through_lines(lines, range, n).0, b + input_bound()),
    decreases n,
{
    if n > 0 {
        lemma_through_lines(lines, range, n - 1, b);
        let (m, rem) = through_lines(lines, range, n - 1);
        assert(line_ok(lines[n - 1]));
        lemma_through_line(lines[n - 1], rem, b);
        let (m2, rem2) = through_line(lines[n - 1], rem);
        assert forall|k: int| 0 <= k < (m + m2).len() implies within(#[trigger] (m + m2)[k], b + input_bound()) by {
            if k < m.len() {
                assert((m + m2)[k] == m[k]);
            } else {
                assert((m + m2)[k] == m2[k - m.len()]);
            }
        }
    } else {
        assert(seq![range][0] == range);
    }
}

/// The ranges that a map sends `range` to: the parts each line moves, then
/// the parts no line moves, sorted and joined.
pub open spec fn map_range_spec(lines: Seq<TransformerLine>, range: Range<Quantity>) -> Seq<Range<Quantity>> {
    let (m, rem) = through_lines(lines, range, lines.len() as int);
    if (m + rem).len() == 0 {
        seq![]
    } else {
        merged(m + rem)
    }
}

/// The largest bound on range ends that the maps accept.
pub open spec fn range_bound() -> int {
    0x1_0000_0000_0000_0000_0000_0000_0000
}

impl Transformer {
    /// The ranges that the map sends `range` to, sorted by start and joined
    /// where they overlap or touch.
    pub fn map_range(&self, range: Range<Quantity>) -> (r: Vec<Range<Quantity>>)
        requires
            transformer_ok(*self),
            within(range, range_bound() - 2 * input_bound()),
        ensures
            r@ == map_range_spec(self.transformer_lines@, range),
    {
        let ghost lines = self.transformer_lines@;
        let ghost b = range_bound() - 2 * input_bound();
        let mut mapped: Vec<Range<Quantity>> = Vec::new();
        let mut remaining: Vec<Range<Quantity>> = Vec::new();
        remaining.push(range);
        let mut k: usize = 0;
        assert(remaining@ =~= seq![range]);
        while k < self.transformer_lines.len()
            invariant
                k <= lines.len(),
                lines == self.transformer_lines@,
                transformer_ok(*self),
                b == range_bound() - 2 * input_bound(),
                within(range, b),
                through_lines(lines, range, k as int) == (mapped@, remaining@),
            decreases lines.len() - k,
        {
            proof {
                assert forall|i: int| 0 <= i < lines.len() implies line_ok(#[trigger] lines[i]) by {}
                lemma_through_lines(lines, range, k as int, b);
            }
            let line = self.transformer_lines[k];
            assert(line_ok(lines[k as int]));
            let ghost m0 = mapped@;
            let ghost rem0 = remaining@;
            let mut new_ranges: Vec<Range<Quantity>> = Vec::new();
            let mut j: usize = 0;
            assert(rem0.subrange(0, 0) =~= seq![]);
            assert(m0 + seq![] =~= m0);
            while j < remaining.len()
                invariant
                    j <= rem0.len(),
                    remaining@ == rem0,
                    line == lines[k as int],
                    line_ok(line),
                    all_within(rem0, b),
                    b == range_bound() - 2 * input_bound(),
                    (mapped@, new_ranges@) == (m0 + through_line(line, rem0.subrange(0, j as int)).0, through_line(line, rem0.subrange(0, j as int)).1),
                decreases rem0.len() - j,
            {
                assert(rem0.subrange(0, j + 1).drop_last() =~= rem0.subrange(0, j as int));
                assert(rem0.subrange(0, j + 1).last() == rem0[j as int]);
                assert(within(rem0[j as int], b));
                let cur = Range { start: remaining[j].start, end: remaining[j].end };
                let res = line.map_range(cur);
                let ghost mb = mapped@;
                let ghost nb = new_ranges@;
                if let Some(m) = res.mapped_range {
                    mapped.push(m);
                }
                assert(mapped@ =~= mb + opt_seq(line_mapped(line, rem0[j as int])));
                let mut q: usize = 0;
                while q < res.remaining_ranges.len()
                    invariant
                        q <= res.remaining_ranges@.len(),
                        new_ranges@ == nb + res.remaining_ranges@.subrange(0, q as int),
                    decreases res.remaining_ranges@.len() - q,
                {
                    let x = Range { start: res.remaining_ranges[q].start, end: res.remaining_ranges[q].end };
                    new_ranges.push(x);
                    q = q + 1;
                    assert(new_ranges@ =~= nb + res.remaining_ranges@.subrange(0, q as int));
                }
                assert(res.remaining_ranges@.subrange(0, q as int) =~= res.remaining_ranges@);
                assert(m0 + (through_line(line, rem0.subrange(0, j as int)).0 + opt_seq(line_mapped(line, rem0[j as int])))
                    =~= mb + opt_seq(line_mapped(line, rem0[j as int])));
                j = j + 1;
            }
            assert(rem0.subrange(0, j as int) =~= rem0);
            remaining = new_ranges;
            k = k + 1;
        }
        let ghost all = mapped@ + remaining@;
        let mut q: usize = 0;
        let ghost mb = mapped@;
        while q < remaining.len()
            invariant
                q <= remaining@.len(),
                mapped@ == mb + remaining@.subrange(0, q as int),
            decreases remaining@.len() - q,
        {
            let x = Range { start: remaining[q].start, end: remaining[q].end };
            mapped.push(x);
            q = q + 1;
            assert(mapped@ =~= mb + remaining@.subrange(0, q as int));
        }
        assert(remaining@.subrange(0, q as int) =~= remaining@);
        if mapped.len() == 0 {
            return mapped;
        }
        merge_ranges(&mut mapped);
        mapped
    }
}

/// The index of the first line of `s` whose source starts after `x`.
pub open spec fn first_line_after(s: Seq<TransformerLine>, x: int, k: int) -> int
    decreases s.len() - k,
{
    if k < 0 || k >= s.len() {
        s.len() as int
    } else if s[k].source_start > x {
        k
    } else {
        first_line_after(s, x, k + 1)
    }
}

/// The lines sorted by source start, equal starts keeping their order.
pub open spec fn sort_lines(s: Seq<TransformerLine>) -> Seq<TransformerLine>
    decreases s.len(),
{
    if s.len() == 0 {
        seq![]
    } else {
        let t = sort_lines(s.drop_last());
        let p = first_line_after(t, s.last().source_start as int, 0);
        t.subrange(0, p) + seq![s.last()] + t.subrange(p, t.len() as int)
    }
}

proof fn lemma_first_line_after_bound(s: Seq<TransformerLine>, x: int, k: int)
    requires
        0 <= k <= s.len(),
    ensures
        k <= first_line_after(s, x, k) <= s.len(),
    decreases s.len() - k,
{
    if k < s.len() && s[k].source_start <= x {
        lemma_first_line_after_bound(s, x, k + 1);
    }
}

proof fn lemma_sort_lines_ok(s: Seq<TransformerLine>)
    requires
        forall|k: int| 0 <= k < s.len() ==> line_ok(#[trigger] s[k]),
    ensures
        sort_lines(s).len() == s.len(),
        forall|k: int| 0 <= k < sort_lines(s).len() ==> line_ok(#[trigger] sort_lines(s)[k]),
    decreases s.len(),
{
    if s.len() > 0 {
        let t = sort_lines(s.drop_last());
        assert forall|k: int| 0 <= k < s.drop_last().len() implies line_ok(#[trigger] s.drop_last()[k]) by {
            assert(s.drop_last()[k] == s[k]);
        }
        lemma_sort_lines_ok(s.drop_last());
        lemma_first_line_after_bound(t, s.last().source_start as int, 0);
        let p = first_line_after(t, s.last().source_start as int, 0);
        let u = t.subrange(0, p) + seq![s.last()] + t.subrange(p, t.len() as int);
        assert forall|k: int| 0 <= k < u.len() implies line_ok(#[trigger] u[k]) by {
            if k < p {
                assert(u[k] == t[k]);
            } else if k == p {
                assert(u[k] == s[s.len() - 1]);
            } else {
                assert(u[k] == t[k - 1]);
            }
        }
    }
}

/// Sorts the lines by source start, equal starts keeping their order.
fn sort_transformer_lines(v: &Vec<TransformerLine>) -> (r: Vec<TransformerLine>)
    ensures
        r@ == sort_lines(v@),
{
    let mut r: Vec<TransformerLine> = Vec::new();
    let mut i: usize = 0;
    assert(v@.subrange(0, 0) =~= seq![]);
    while i < v.len()
        invariant
            i <= v@.len(),
            r@ == sort_lines(v@.subrange(0, i as int)),
        decreases v@.len() - i,
    {
        let x = v[i];
        let mut p: usize = 0;
        while p < r.len() && r[p].source_start <= x.source_start
            invariant
                p <= r@.len(),
                first_line_after(r@, x.source_start as int, 0) == first_line_after(r@, x.source_start as int, p as int),
            decreases r@.len() - p,
        {
            p = p + 1;
        }
        let ghost before = r@;
        assert(v@.subrange(0, i + 1).drop_last() =~= v@.subrange(0, i as int));
        assert(v@.subrange(0, i + 1).last() == x);
        r.insert(p, x);
        assert(r@ =~= before.subrange(0, p as int) + seq![x] + before.subrange(p as int, before.len() as int));
        i = i + 1;
    }
    assert(v@.subrange(0, i as int) =~= v@);
    r
}

/// The line of a map that `l` writes: its first three numbers.
pub open spec fn line_of(l: Seq<u8>) -> Option<TransformerLine> {
    match numbers_of(words(l)) {
        Some(v) => if v.len() >= 3 {
            Some(TransformerLine { destination_start: v[0] as i128, source_start: v[1] as i128, length: v[2] as i128 })
        } else {
            None
        },
        None => None,
    }
}

/// The maps that the lines from the first `n` of `ls` write, after the
/// seed line: a blank line ends a map, the first line after it is the
/// map's title, and each following one is a line of the map; `in_block`
/// tells whether the last of them is inside a map.
pub open spec fn blocks(ls: Seq<Seq<u8>>, n: int) -> Option<(Seq<Seq<TransformerLine>>, bool)>
    decreases n,
{
    if n <= 1 {
        Some((seq![], false))
    } else {
        match blocks(ls, n - 1) {
            None => None,
            Some((bs, in_block)) => {
                let l = ls[n - 1];
                if l.len() == 0 {
                    Some((bs, false))
                } else if !in_block {
                    Some((bs.push(seq![]), true))
                } else {
                    match line_of(l) {
                        Some(t) => Some((bs.update(bs.len() - 1, bs.last().push(t)), true)),
                        None => None,
                    }
                }
            },
        }
    }
}

/// The seeds that the first line writes: the numbers after `: `.
pub open spec fn seeds_of(l: Seq<u8>) -> Option<Seq<u32>> {
    match find_from(l, seq![58u8, 32u8], 0) {
        Some(k) => numbers_of(words(l.subrange(k + 2, l.len() as int))),
        None => None,
    }
}

/// The seeds and the maps, each map's lines sorted by source start, that
/// the text writes.
pub open spec fn parse_almanac(t: Seq<u8>) -> Option<(Seq<u32>, Seq<Seq<TransformerLine>>)> {
    let ls = lines(t);
    if ls.len() == 0 {
        None
    } else {
        match (seeds_of(ls[0]), blocks(ls, ls.len() as int)) {
            (Some(s), Some((bs, _))) => Some((s, bs.map_values(|b: Seq<TransformerLine>| sort_lines(b)))),
            _ => None,
        }
    }
}

proof fn lemma_blocks_none(ls: Seq<Seq<u8>>, i: int, n: int)
    requires
        1 <= i <= n <= ls.len(),
        blocks(ls, i) is None,
    ensures
        blocks(ls, n) is None,
    decreases n - i,
{
    if i < n {
        lemma_blocks_none(ls, i, n - 1);
    }
}

/// The lines of each map.
pub open spec fn transformer_views(ts: Seq<Transformer>) -> Seq<Seq<TransformerLine>> {
    ts.map_values(|t: Transformer| t.transformer_lines@)
}

impl Day5 {
    /// Reads the almanac: the seed line, then the maps, each a title and
    /// its lines, separated by blank lines; each map's lines are sorted by
    /// source start. `None` if a line does not read.
    pub fn make_day(input: &str) -> (r: Option<Day5>)
        ensures
            match parse_almanac(input.spec_bytes()) {
                Some((s, bs)) => r matches Some(d) && d.start_seeds@ == s.map_values(|x: u32| x as i128)
                    && transformer_views(d.transformers@) == bs,
                None => r is None,
            },
    {
        let ls = split_lines(input.as_bytes());
        let ghost p = pieces(ls@);
        if ls.len() == 0 {
            return None;
        }
        let sep: [u8; 2] = [58, 32];
        assert(sep@ =~= seq![58u8, 32u8]);
        assert(p[0] == ls@[0]@);
        let k = match find(ls[0].as_slice(), &sep, 0) {
            Some(k) => k,
            None => {
                return None;
            },
        };
        proof {
            crate::text::lemma_find_from_bounds(ls@[0]@, seq![58u8, 32u8], 0);
        }
        let n0 = ls[0].len();
        let tail = crate::text::copy_range(ls[0].as_slice(), k + 2, n0);
        let seeds32 = match parse_numbers(tail.as_slice()) {
            Some(v) => v,
            None => {
                return None;
            },
        };
        let mut start_seeds: Vec<Quantity> = Vec::new();
        let mut i: usize = 0;
        while i < seeds32.len()
            invariant
                i <= seeds32@.len(),
                start_seeds@ == seeds32@.subrange(0, i as int).map_values(|x: u32| x as i128),
            decreases seeds32@.len() - i,
        {
            start_seeds.push(seeds32[i] as i128);
            i = i + 1;
            assert(start_seeds@ =~= seeds32@.subrange(0, i as int).map_values(|x: u32| x as i128));
        }
        assert(seeds32@.subrange(0, i as int) =~= seeds32@);
        let mut bs: Vec<Vec<TransformerLine>> = Vec::new();
        let mut in_block: bool = false;
        let mut j: usize = 1;
        while j < ls.len()
            invariant
                1 <= j <= ls@.len(),
                p == pieces(ls@),
                p == lines(input.spec_bytes()),
                blocks(p, j as int) == Some((bs@.map_values(|b: Vec<TransformerLine>| b@), in_block)),
                in_block ==> bs@.len() > 0,
            decreases ls@.len() - j,
        {
            let ghost before = bs@.map_values(|b: Vec<TransformerLine>| b@);
            assert(p[j as int] == ls@[j as int]@);
            if ls[j].len() == 0 {
                in_block = false;
            } else if !in_block {
                bs.push(Vec::new());
                in_block = true;
                assert(bs@.map_values(|b: Vec<TransformerLine>| b@) =~= before.push(seq![]));
            } else {
                let nums = match parse_numbers(ls[j].as_slice()) {
                    Some(v) => v,
                    None => {
                        proof { lemma_blocks_none(p, j + 1, p.len() as int); }
                        return None;
                    },
                };
                if nums.len() < 3 {
                    proof { lemma_blocks_none(p, j + 1, p.len() as int); }
                    return None;
                }
                let t = TransformerLine {
                    destination_start: nums[0] as i128,
                    source_start: nums[1] as i128,
                    length: nums[2] as i128,
                };
                let last = bs.len() - 1;
                let mut block = crate::text::copy_vec(&bs[last]);
                block.push(t);
                bs.set(last, block);
                assert(bs@.map_values(|b: Vec<TransformerLine>| b@) =~= before.update(before.len() - 1, before.last().push(t)));
            }
            j = j + 1;
        }
        let ghost raw = bs@.map_values(|b: Vec<TransformerLine>| b@);
        let mut transformers: Vec<Transformer> = Vec::new();
        let mut q: usize = 0;
        while q < bs.len()
            invariant
                q <= bs@.len() == raw.len(),
                raw == bs@.map_values(|b: Vec<TransformerLine>| b@),
                transformer_views(transformers@) == raw.subrange(0, q as int).map_values(|b: Seq<TransformerLine>| sort_lines(b)),
            decreases bs@.len() - q,
        {
            let ghost before = transformer_views(transformers@);
            let sorted = sort_transformer_lines(&bs[q]);
            let ghost sv = sorted@;
            assert(raw[q as int] == bs@[q as int]@);
            transformers.push(Transformer { transformer_lines: sorted });
            assert(transformer_views(transformers@) =~= before.push(sv));
            q = q + 1;
            assert(transformer_views(transformers@) =~= raw.subrange(0, q as int).map_values(|b: Seq<TransformerLine>| sort_lines(b)));
        }
        assert(raw.subrange(0, q as int) =~= raw);
        Some(Day5 { start_seeds, transformers })
    }
}

/// The smallest of the converted seeds among the first `n`.
pub open spec fn min_location(ts: Seq<Transformer>, seeds: Seq<Quantity>, n: int) -> int
    decreases n,
{
    if n <= 1 {
        convert_all(ts, seeds[0] as int, ts.len() as int)
    } else {
        qmin(min_location(ts, seeds, n - 1), convert_all(ts, seeds[n - 1] as int, ts.len() as int))
    }
}

/// The ranges that a map sends each of `rs` to, in order.
pub open spec fn flat_map(lines: Seq<TransformerLine>, rs: Seq<Range<Quantity>>) -> Seq<Range<Quantity>>
    decreases rs.len(),
{
    if rs.len() == 0 {
        seq![]
    } else {
        flat_map(lines, rs.drop_last()) + map_range_spec(lines, rs.last())
    }
}

/// The ranges after the first `n` maps.
pub open spec fn ranges_after(ts: Seq<Transformer>, rs: Seq<Range<Quantity>>, n: int) -> Seq<Range<Quantity>>
    decreases n,
{
    if n <= 0 {
        rs
    } else {
        flat_map(ts[n - 1].transformer_lines@, ranges_after(ts, rs, n - 1))
    }
}

/// The smallest start among the first `n` ranges.
pub open spec fn min_start(rs: Seq<Range<Quantity>>, n: int) -> int
    decreases n,
{
    if n <= 1 {
        rs[0].start as int
    } else {
        qmin(min_start(rs, n - 1), rs[n - 1].start as int)
    }
}

/// The seed ranges: each pair of seed numbers is a start and a length.
pub open spec fn seed_ranges(seeds: Seq<Quantity>) -> Seq<Range<Quantity>> {
    Seq::new(seeds.len() / 2, |k: int| rng(seeds[2 * k] as int, seeds[2 * k] + seeds[2 * k + 1]))
}

proof fn lemma_merge_from_within(cur: Range<Quantity>, rest: Seq<Range<Quantity>>, b: int)
    requires
        within(cur, b),
        all_within(rest, b),
    ensures
        all_within(merge_from(cur, rest), b),
    decreases rest.len(),
{
    if rest.len() > 0 {
        assert(within(rest[0], b));
        assert(all_within(rest.drop_first(), b)) by {
            assert forall|k: int| 0 <= k < rest.drop_first().len() implies within(#[trigger] rest.drop_first()[k], b) by {
                assert(rest.drop_first()[k] == rest[k + 1]);
            }
        }
        if cur.end >= rest[0].start {
            lemma_merge_from_within(Range { start: cur.start, end: rest[0].end }, rest.drop_first(), b);
        } else {
            lemma_merge_from_within(rest[0], rest.drop_first(), b);
            let t = merge_from(rest[0], rest.drop_first());
            assert forall|k: int| 0 <= k < (seq![cur] + t).len() implies within(#[trigger] (seq![cur] + t)[k], b) by {
                if k > 0 {
                    assert((seq![cur] + t)[k] == t[k - 1]);
                }
            }
        }
    }
}

proof fn lemma_map_range_within(lines: Seq<TransformerLine>, r: Range<Quantity>, b: int)
    requires
        forall|i: int| 0 <= i < lines.len() ==> line_ok(#[trigger] lines[i]),
        within(r, b),
        b >= 2 * input_bound(),
    ensures
        all_within(map_range_spec(lines, r), b + input_bound()),
{
    lemma_through_lines(lines, r, lines.len() as int, b);
    let (m, rem) = through_lines(lines, r, lines.len() as int);
    let all = m + rem;
    assert forall|k: int| 0 <= k < all.len() implies within(#[trigger] all[k], b + input_bound()) by {
        if k < m.len() {
            assert(all[k] == m[k]);
        } else {
            assert(all[k] == rem[k - m.len()]);
        }
    }
    if all.len() > 0 {
        lemma_sort_len(all);
        let t = sort_by_start(all);
        assert(all_within(all, b + input_bound()));
        assert(all_within(t, b + input_bound()));
        assert(within(t[0], b + input_bound()));
        assert(all_within(t.drop_first(), b + input_bound())) by {
            assert forall|k: int| 0 <= k < t.drop_first().len() implies within(#[trigger] t.drop_first()[k], b + input_bound()) by {
                assert(t.drop_first()[k] == t[k + 1]);
            }
        }
        lemma_merge_from_within(t[0], t.drop_first(), b + input_bound());
    }
}

proof fn lemma_flat_map_within(lines: Seq<TransformerLine>, rs: Seq<Range<Quantity>>, b: int)
    requires
        forall|i: int| 0 <= i < lines.len() ==> line_ok(#[trigger] lines[i]),
        all_within(rs, b),
        b >= 2 * input_bound(),
    ensures
        all_within(flat_map(lines, rs), b + input_bound()),
    decreases rs.len(),
{
    if rs.len() > 0 {
        assert(all_within(rs.drop_last(), b)) by {
            assert forall|k: int| 0 <= k < rs.drop_last().len() implies within(#[trigger] rs.drop_last()[k], b) by {
                assert(rs.drop_last()[k] == rs[k]);
            }
        }
        lemma_flat_map_within(lines, rs.drop_last(), b);
        assert(within(rs.last(), b)) by { assert(rs.last() == rs[rs.len() - 1]); }
        lemma_map_range_within(lines, rs.last(), b);
        let a = flat_map(lines, rs.drop_last());
        let c = map_range_spec(lines, rs.last());
        assert forall|k: int| 0 <= k < (a + c).len() implies within(#[trigger] (a + c)[k], b + input_bound()) by {
            if k < a.len() {
                assert((a + c)[k] == a[k]);
            } else {
                assert((a + c)[k] == c[k - a.len()]);
            }
        }
    }
}

impl Day5 {
    /// Whether the seeds and maps are within the bounds that the
    /// arithmetic needs.
    pub fn is_ok(&self) -> (r: bool)
        ensures
            r == day_ok(*self),
    {
        if self.transformers.len() as u64 >= 0x1_0000_0000u64 {
            return false;
        }
        let mut k: usize = 0;
        while k < self.transformers.len()
            invariant
                k <= self.transformers@.len(),
                forall|q: int| 0 <= q < k ==> transformer_ok(#[trigger] self.transformers@[q]),
            decreases self.transformers@.len() - k,
        {
            let t = &self.transformers[k];
            let mut j: usize = 0;
            while j < t.transformer_lines.len()
                invariant
                    j <= t.transformer_lines@.len(),
                    k < self.transformers@.len(),
                    *t == self.transformers@[k as int],
                    forall|q: int| 0 <= q < j ==> line_ok(#[trigger] t.transformer_lines@[q]),
                decreases t.transformer_lines@.len() - j,
            {
                let l = t.transformer_lines[j];
                let bound: i128 = 0x1_0000_0000_0000_0000;
                if !(0 <= l.destination_start && l.destination_start < bound && 0 <= l.source_start && l.source_start < bound
                    && 0 <= l.length && l.length < bound) {
                    assert(!line_ok(t.transformer_lines@[j as int]));
                    assert(!transformer_ok(self.transformers@[k as int]));
                    return false;
                }
                j = j + 1;
            }
            k = k + 1;
        }
        let mut i: usize = 0;
        while i < self.start_seeds.len()
            invariant
                i <= self.start_seeds@.len(),
                forall|q: int| 0 <= q < i ==> 0 <= #[trigger] self.start_seeds@[q] < input_bound(),
            decreases self.start_seeds@.len() - i,
        {
            let x = self.start_seeds[i];
            if !(0 <= x && x < 0x1_0000_0000_0000_0000) {
                return false;
            }
            i = i + 1;
        }
        true
    }

    /// The lowest location that a seed is sent to; the empty text without
    /// seeds or with numbers out of bounds.
    pub fn solution1(&self) -> (r: String)
        ensures
            r@ == if day_ok(*self) && self.start_seeds@.len() > 0 {
                signed_decimal(min_location(self.transformers@, self.start_seeds@, self.start_seeds@.len() as int))
            } else {
                Seq::empty()
            },
    {
        if !self.is_ok() || self.start_seeds.len() == 0 {
            return String::new();
        }
        let mut best = self.convert_quantity(self.start_seeds[0]);
        let mut i: usize = 1;
        while i < self.start_seeds.len()
            invariant
                1 <= i <= self.start_seeds@.len(),
                day_ok(*self),
                best == min_location(self.transformers@, self.start_seeds@, i as int),
            decreases self.start_seeds@.len() - i,
        {
            let x = self.convert_quantity(self.start_seeds[i]);
            if x < best {
                best = x;
            }
            i = i + 1;
        }
        i128_text(best)
    }

    /// The lowest location that a seed of the seed ranges is sent to; the
    /// empty text with an odd number of seed numbers, numbers out of bounds
    /// or no location.
    pub fn solution2(&self) -> (r: String)
        ensures
            ({
                let rs = ranges_after(self.transformers@, seed_ranges(self.start_seeds@), self.transformers@.len() as int);
                r@ == if day_ok(*self) && self.start_seeds@.len() % 2 == 0 && rs.len() > 0 {
                    signed_decimal(min_start(rs, rs.len() as int))
                } else {
                    Seq::empty()
                }
            }),
    {
        let ghost ts = self.transformers@;
        if !self.is_ok() || self.start_seeds.len() % 2 != 0 {
            return String::new();
        }
        let mut ranges = self.get_ranges();
        assert(ranges@ =~= seed_ranges(self.start_seeds@));
        assert(all_within(ranges@, 4 * input_bound())) by {
            assert forall|k: int| 0 <= k < ranges@.len() implies within(#[trigger] ranges@[k], 4 * input_bound()) by {
                assert(0 <= self.start_seeds@[2 * k] < input_bound());
                assert(0 <= self.start_seeds@[2 * k + 1] < input_bound());
            }
        }
        let mut k: usize = 0;
        while k < self.transformers.len()
            invariant
                k <= ts.len() < 0x1_0000_0000,
                ts == self.transformers@,
                day_ok(*self),
                ranges@ == ranges_after(ts, seed_ranges(self.start_seeds@), k as int),
                all_within(ranges@, 4 * input_bound() + (k as int) * input_bound()),
            decreases ts.len() - k,
        {
            let ghost b = 4 * input_bound() + (k as int) * input_bound();
            assert(b <= range_bound() - 2 * input_bound()) by (nonlinear_arith)
                requires b == 4 * input_bound() + (k as int) * input_bound(), k < 0x1_0000_0000, input_bound() == 0x1_0000_0000_0000_0000;
            let t = &self.transformers[k];
            assert(transformer_ok(ts[k as int]));
            proof {
                lemma_flat_map_within(t.transformer_lines@, ranges@, b);
            }
            let mut next: Vec<Range<Quantity>> = Vec::new();
            let mut j: usize = 0;
            assert(ranges@.subrange(0, 0) =~= seq![]);
            while j < ranges.len()
                invariant
                    j <= ranges@.len(),
                    transformer_ok(*t),
                    all_within(ranges@, b),
                    b <= range_bound() - 2 * input_bound(),
                    next@ == flat_map(t.transformer_lines@, ranges@.subrange(0, j as int)),
                decreases ranges@.len() - j,
            {
                assert(ranges@.subrange(0, j + 1).drop_last() =~= ranges@.subrange(0, j as int));
                assert(within(ranges@[j as int], b));
                let cur = Range { start: ranges[j].start, end: ranges[j].end };
                let out = t.map_range(cur);
                let ghost before = next@;
                let mut q: usize = 0;
                while q < out.len()
                    invariant
                        q <= out@.len(),
                        next@ == before + out@.subrange(0, q as int),
                    decreases out@.len() - q,
                {
                    next.push(Range { start: out[q].start, end: out[q].end });
                    q = q + 1;
                    assert(next@ =~= before + out@.subrange(0, q as int));
                }
                assert(out@.subrange(0, q as int) =~= out@);
                j = j + 1;
            }
            assert(ranges@.subrange(0, j as int) =~= ranges@);
            ranges = next;
            k = k + 1;
            assert(4 * input_bound() + (k as int) * input_bound() == b + input_bound());
        }
        if ranges.len() == 0 {
            return String::new();
        }
        let mut best = ranges[0].start;
        let mut i: usize = 1;
        while i < ranges.len()
            invariant
                1 <= i <= ranges@.len(),
                best == min_start(ranges@, i as int),
            decreases ranges@.len() - i,
        {
            if ranges[i].start < best {
                best = ranges[i].start;
            }
            i = i + 1;
        }
        i128_text(best)
    }
}

} // verus!
