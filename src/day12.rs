//! Damaged spring records: counting the arrangements of broken springs
//! that fit a row of known and unknown springs and a list of group sizes.
use vstd::prelude::*;
use vstd::string::StringSliceAdditionalSpecFns;
use crate::text::{is_number, number_value, parse_number, pieces, split, split_lines, split_on, decimal, u64_text};

verus! {

/// The condition of one spring.
#[derive(Clone, Copy, PartialEq, Eq, Debug, Structural)]
pub enum SpringElement {
    Unknown,
    Broken,
    Working,
}

/// A group of `g` broken springs can start at `i`: none of the `g` springs
/// from `i` is working and the spring after them, if any, is not broken.
pub open spec fn can_form(s: Seq<SpringElement>, i: int, g: int) -> bool {
    &&& 0 <= i
    &&& i + g <= s.len()
    &&& forall|k: int| i <= k < i + g ==> s[k] != SpringElement::Working
    &&& i + g < s.len() ==> s[i + g] != SpringElement::Broken
}

/// Where the springs left after a group of `g` from `i` start.
pub open spec fn after_group(s: Seq<SpringElement>, i: int, g: int) -> int {
    if i + g + 1 <= s.len() {
        i + g + 1
    } else {
        s.len() as int
    }
}

/// No spring from `i` on is broken.
pub open spec fn none_broken_from(s: Seq<SpringElement>, i: int) -> bool {
    forall|k: int| i <= k < s.len() ==> s[k] != SpringElement::Broken
}

/// The number of ways to place the groups `goals[j..]` of broken springs
/// in the springs `s[i..]`, unknown springs being either.
pub open spec fn ways(s: Seq<SpringElement>, goals: Seq<usize>, i: int, j: int) -> nat
    decreases s.len() - i,
{
    if i < 0 || i >= s.len() {
        if j >= goals.len() {
            1
        } else {
            0
        }
    } else if s[i] == SpringElement::Working {
        ways(s, goals, i + 1, j)
    } else if j < 0 || j >= goals.len() {
        if none_broken_from(s, i) {
            1
        } else {
            0
        }
    } else {
        let b = if can_form(s, i, goals[j] as int) {
            ways(s, goals, after_group(s, i, goals[j] as int), j + 1)
        } else {
            0
        };
        if s[i] == SpringElement::Unknown {
            b + ways(s, goals, i + 1, j)
        } else {
            b
        }
    }
}

/// `n`, or the largest 64-bit value if `n` is larger.
pub open spec fn capped(n: nat) -> u64 {
    if n > u64::MAX {
        u64::MAX
    } else {
        n as u64
    }
}

/// Whether a group of broken springs of size `goal` can start the springs,
/// and what is left after it.
#[derive(Clone, Copy, PartialEq, Eq, Debug, Structural)]
pub enum BrokenSeqResult {
    /// The group cannot start here.
    FailureToForm,
    /// The group fits; the springs from this index on are left.
    SuccessWithSpringsRemaining(usize),
    /// The group fits and uses up the springs.
    SuccessWithSpringsEnd,
}

/// Whether a group of `goal` broken springs can start `springs`, and where
/// the springs left after it start.
pub fn form_broken_seq(springs: &[SpringElement], goal: usize) -> (r: BrokenSeqResult)
    ensures
        !can_form(springs@, 0, goal as int) <==> r == BrokenSeqResult::FailureToForm,
        r matches BrokenSeqResult::SuccessWithSpringsRemaining(k) ==> k == goal + 1 && k <= springs@.len(),
        r == BrokenSeqResult::SuccessWithSpringsEnd ==> springs@.len() < goal + 1,
{
    if goal > springs.len() {
        return BrokenSeqResult::FailureToForm;
    }
    let mut index: usize = 0;
    while index < goal
        invariant
            index <= goal <= springs@.len(),
            forall|k: int| 0 <= k < index ==> springs@[k] != SpringElement::Working,
        decreases goal - index,
    {
        if springs[index] == SpringElement::Working {
            return BrokenSeqResult::FailureToForm;
        }
        index = index + 1;
    }
    if goal < springs.len() && springs[goal] == SpringElement::Broken {
        BrokenSeqResult::FailureToForm
    } else if springs.len() == goal {
        BrokenSeqResult::SuccessWithSpringsEnd
    } else {
        BrokenSeqResult::SuccessWithSpringsRemaining(goal + 1)
    }
}

/// Whether a group of `g` broken springs can start at `i`.
fn can_form_at(s: &[SpringElement], i: usize, g: usize) -> (r: bool)
    requires
        i <= s@.len(),
    ensures
        r == can_form(s@, i as int, g as int),
{
    if g > s.len() - i {
        return false;
    }
    let mut k: usize = 0;
    while k < g
        invariant
            k <= g,
            i + g <= s@.len(),
            forall|m: int| i <= m < i + k ==> s@[m] != SpringElement::Working,
        decreases g - k,
    {
        let nn = s.len();
        assert(i + k < nn);
        if s[i + k] == SpringElement::Working {
            return false;
        }
        k = k + 1;
    }
    let n = s.len();
    !(i + g < n && s[i + g] == SpringElement::Broken)
}

/// The sum of two counts, capped at the largest 64-bit value.
fn add_capped(a: u64, b: u64) -> (r: u64)
    ensures
        forall|x: nat, y: nat| a == #[trigger] capped(x) && b == #[trigger] capped(y) ==> r == capped(x + y),
{
    if a > u64::MAX - b {
        u64::MAX
    } else {
        a + b
    }
}

/// The capped count for the springs from `p` and the groups from `k`,
/// from the counts already in `rows` (row `t` is for the springs from
/// `n - t`) and whether no spring after `p` is broken.
fn next_count(
    left_springs: &[SpringElement],
    left_goals: &[usize],
    rows: &Vec<Vec<u64>>,
    p: usize,
    k: usize,
    none_broken: bool,
) -> (r: u64)
    requires
        p < left_springs@.len() < usize::MAX,
        k <= left_goals@.len() < usize::MAX,
        rows@.len() == left_springs@.len() - p,
        none_broken == none_broken_from(left_springs@, p + 1),
        forall|t: int| 0 <= t < rows@.len() ==> (#[trigger] rows@[t])@.len() == left_goals@.len() + 1,
        forall|t: int, q: int|
            0 <= t < rows@.len() && 0 <= q <= left_goals@.len() ==> #[trigger] rows@[t]@[q] == capped(
                ways(left_springs@, left_goals@, left_springs@.len() - t, q),
            ),
    ensures
        r == capped(ways(left_springs@, left_goals@, p as int, k as int)),
{
    let ghost s = left_springs@;
    let ghost g = left_goals@;
    let n = left_springs.len();
    let m = left_goals.len();
    let sp = left_springs[p];
    let i = p + 1;
    if sp == SpringElement::Working {
        rows[n - i][k]
    } else if k == m {
        assert(none_broken_from(s, p as int) == (sp != SpringElement::Broken && none_broken_from(s, p + 1)));
        if sp != SpringElement::Broken && none_broken {
            1
        } else {
            0
        }
    } else {
        let goal = left_goals[k];
        let formed = can_form_at(left_springs, p, goal);
        let b: u64 = if formed {
            let after = if goal < n - p { p + goal + 1 } else { n };
            assert(after == after_group(s, p as int, goal as int));
            rows[n - after][k + 1]
        } else {
            0
        };
        assert(b == capped(if can_form(s, p as int, goal as int) {
            ways(s, g, after_group(s, p as int, goal as int), k + 1)
        } else {
            0
        }));
        if sp == SpringElement::Unknown {
            add_capped(b, rows[n - i][k])
        } else {
            b
        }
    }
}

/// The number of ways to place the groups `left_goals` of broken springs
/// in `left_springs`, capped at the largest 64-bit value. Counts for the
/// suffixes of both lists are kept in a table, filled from the end.
pub fn find_ways_to_fit_recursive(left_springs: &[SpringElement], left_goals: &[usize]) -> (r: u64)
    requires
        left_goals@.len() < usize::MAX,
        left_springs@.len() < usize::MAX,
    ensures
        r == capped(ways(left_springs@, left_goals@, 0, 0)),
{
    let ghost s = left_springs@;
    let ghost g = left_goals@;
    let n = left_springs.len();
    let m = left_goals.len();
    let mut rows: Vec<Vec<u64>> = Vec::new();
    let mut last: Vec<u64> = Vec::new();
    let mut j: usize = 0;
    while j <= m
        invariant
            j <= m + 1,
            m < usize::MAX,
            m == g.len(),
            n == s.len(),
            last@.len() == j,
            forall|k: int| 0 <= k < j ==> #[trigger] last@[k] == capped(ways(s, g, n as int, k)),
        decreases m + 1 - j,
    {
        last.push(if j == m { 1 } else { 0 });
        j = j + 1;
    }
    rows.push(last);
    let mut none_broken: bool = true;
    let mut i: usize = n;
    while i > 0
        invariant
            i <= n,
            n == s.len() == left_springs@.len(),
            m == g.len() == left_goals@.len(),
            s == left_springs@,
            g == left_goals@,
            n < usize::MAX,
            m < usize::MAX,
            rows@.len() == n - i + 1,
            none_broken == none_broken_from(s, i as int),
            forall|t: int| 0 <= t < rows@.len() ==> (#[trigger] rows@[t])@.len() == m + 1,
            forall|t: int, k: int|
                0 <= t < rows@.len() && 0 <= k <= m ==> #[trigger] rows@[t]@[k] == capped(
                    ways(s, g, n - t, k),
                ),
        decreases i,
    {
        let p = i - 1;
        let mut row: Vec<u64> = Vec::new();
        let mut k: usize = 0;
        while k <= m
            invariant
                p < n,
                i == p + 1,
                k <= m + 1,
                n == s.len() == left_springs@.len(),
                m == g.len() == left_goals@.len(),
                s == left_springs@,
                g == left_goals@,
                n < usize::MAX,
                m < usize::MAX,
                rows@.len() == n - i + 1,
                none_broken == none_broken_from(s, i as int),
                forall|t: int| 0 <= t < rows@.len() ==> (#[trigger] rows@[t])@.len() == m + 1,
                forall|t: int, q: int|
                    0 <= t < rows@.len() && 0 <= q <= m ==> #[trigger] rows@[t]@[q] == capped(
                        ways(s, g, n - t, q),
                    ),
                row@.len() == k,
                forall|q: int| 0 <= q < k ==> #[trigger] row@[q] == capped(ways(s, g, p as int, q)),
            decreases m + 1 - k,
        {
            let v = next_count(left_springs, left_goals, &rows, p, k, none_broken);
            row.push(v);
            k = k + 1;
        }
        rows.push(row);
        none_broken = left_springs[p] != SpringElement::Broken && none_broken;
        i = p;
    }
    rows[n][0]
}

/// A row of springs and the sizes of its groups of broken springs.
pub struct SpringLine {
    pub groups: Vec<SpringElement>,
    pub goal: Vec<usize>,
}

/// The springs repeated five times, with an unknown spring between copies.
pub open spec fn unfold_springs(s: Seq<SpringElement>) -> Seq<SpringElement> {
    let u = seq![SpringElement::Unknown];
    s + u + s + u + s + u + s + u + s
}

/// The group sizes repeated five times.
pub open spec fn unfold_goals(g: Seq<usize>) -> Seq<usize> {
    g + g + g + g + g
}

/// The line is small enough for its unfolded form to be counted.
pub open spec fn unfoldable(l: SpringLine) -> bool {
    5 * l.groups@.len() + 5 < usize::MAX && 5 * l.goal@.len() + 1 < usize::MAX
}

/// Appends `s` to `v`.
fn append_springs(v: &mut Vec<SpringElement>, s: &Vec<SpringElement>)
    ensures
        final(v)@ == old(v)@ + s@,
{
    let mut i: usize = 0;
    let ghost v0 = v@;
    while i < s.len()
        invariant
            i <= s@.len(),
            v@ == v0 + s@.subrange(0, i as int),
        decreases s@.len() - i,
    {
        v.push(s[i]);
        i = i + 1;
        assert(v@ =~= v0 + s@.subrange(0, i as int));
    }
    assert(s@.subrange(0, i as int) =~= s@);
}

/// Appends `g` to `v`.
fn append_goals(v: &mut Vec<usize>, g: &Vec<usize>)
    ensures
        final(v)@ == old(v)@ + g@,
{
    let mut i: usize = 0;
    let ghost v0 = v@;
    while i < g.len()
        invariant
            i <= g@.len(),
            v@ == v0 + g@.subrange(0, i as int),
        decreases g@.len() - i,
    {
        v.push(g[i]);
        i = i + 1;
        assert(v@ =~= v0 + g@.subrange(0, i as int));
    }
    assert(g@.subrange(0, i as int) =~= g@);
}

impl SpringLine {
    /// The number of arrangements of the line, capped at the largest 64-bit
    /// value.
    pub fn find_ways_to_fit(&self) -> (r: u64)
        requires
            self.groups@.len() < usize::MAX,
            self.goal@.len() < usize::MAX,
        ensures
            r == capped(ways(self.groups@, self.goal@, 0, 0)),
    {
        find_ways_to_fit_recursive(self.groups.as_slice(), self.goal.as_slice())
    }

    /// The number of arrangements of the unfolded line: its springs five
    /// times with an unknown spring between copies, and its groups five
    /// times; capped at the largest 64-bit value.
    pub fn find_ways_to_fit_unfold(&self) -> (r: u64)
        requires
            unfoldable(*self),
        ensures
            r == capped(ways(unfold_springs(self.groups@), unfold_goals(self.goal@), 0, 0)),
    {
        let mut springs: Vec<SpringElement> = Vec::new();
        let mut goals: Vec<usize> = Vec::new();
        let mut c: usize = 0;
        let ghost u = seq![SpringElement::Unknown];
        let ghost s = self.groups@;
        let ghost g = self.goal@;
        append_springs(&mut springs, &self.groups);
        append_goals(&mut goals, &self.goal);
        springs.push(SpringElement::Unknown);
        append_springs(&mut springs, &self.groups);
        append_goals(&mut goals, &self.goal);
        springs.push(SpringElement::Unknown);
        append_springs(&mut springs, &self.groups);
        append_goals(&mut goals, &self.goal);
        springs.push(SpringElement::Unknown);
        append_springs(&mut springs, &self.groups);
        append_goals(&mut goals, &self.goal);
        springs.push(SpringElement::Unknown);
        append_springs(&mut springs, &self.groups);
        append_goals(&mut goals, &self.goal);
        assert(springs@ =~= unfold_springs(s));
        assert(goals@ =~= unfold_goals(g));
        find_ways_to_fit_recursive(springs.as_slice(), goals.as_slice())
    }
}

/// The spring that a byte stands for: `#` broken, `?` unknown, `.` working.
pub open spec fn element_of(b: u8) -> Option<SpringElement> {
    if b == 35 {
        Some(SpringElement::Broken)
    } else if b == 63 {
        Some(SpringElement::Unknown)
    } else if b == 46 {
        Some(SpringElement::Working)
    } else {
        None
    }
}

/// The springs that `s` writes, if each byte is one.
pub open spec fn elements_of(s: Seq<u8>) -> Option<Seq<SpringElement>>
    decreases s.len(),
{
    if s.len() == 0 {
        Some(seq![])
    } else {
        match (elements_of(s.drop_last()), element_of(s.last())) {
            (Some(e), Some(x)) => Some(e.push(x)),
            _ => None,
        }
    }
}

/// The sizes that the pieces `ps` write, if each is a number.
pub open spec fn sizes_of(ps: Seq<Seq<u8>>) -> Option<Seq<usize>>
    decreases ps.len(),
{
    if ps.len() == 0 {
        Some(seq![])
    } else {
        match sizes_of(ps.drop_last()) {
            Some(v) => if is_number(ps.last()) && number_value(ps.last()) <= usize::MAX {
                Some(v.push(number_value(ps.last()) as usize))
            } else {
                None
            },
            None => None,
        }
    }
}

/// The springs and group sizes that a line `<springs> <size>,<size>,...`
/// writes.
pub open spec fn parse_line(line: Seq<u8>) -> Option<(Seq<SpringElement>, Seq<usize>)> {
    match crate::text::find_from(line, seq![32u8], 0) {
        None => None,
        Some(k) => match (
            elements_of(line.subrange(0, k)),
            sizes_of(split(line.subrange(k + 1, line.len() as int), seq![44u8])),
        ) {
            (Some(e), Some(g)) => Some((e, g)),
            _ => None,
        },
    }
}

impl SpringLine {
    /// Reads a line `<springs> <size>,<size>,...`.
    pub fn parse(line: &[u8]) -> (r: Option<SpringLine>)
        ensures
            match parse_line(line@) {
                Some((e, g)) => r matches Some(l) && l.groups@ == e && l.goal@ == g,
                None => r is None,
            },
    {
        let sp: [u8; 1] = [32];
        assert(sp@ =~= seq![32u8]);
        let k = match crate::text::find(line, &sp, 0) {
            Some(k) => k,
            None => {
                return None;
            },
        };
        proof {
            crate::text::lemma_find_from_bounds(line@, seq![32u8], 0);
        }
        let ghost head = line@.subrange(0, k as int);
        let mut groups: Vec<SpringElement> = Vec::new();
        let mut i: usize = 0;
        assert(head.subrange(0, 0) =~= seq![]);
        while i < k
            invariant
                i <= k < line@.len(),
                head == line@.subrange(0, k as int),
                crate::text::find_from(line@, seq![32u8], 0) == Some(k as int),
                elements_of(head.subrange(0, i as int)) == Some(groups@),
            decreases k - i,
        {
            assert(head.subrange(0, i + 1).drop_last() =~= head.subrange(0, i as int));
            let b = line[i];
            let e = if b == 35 {
                SpringElement::Broken
            } else if b == 63 {
                SpringElement::Unknown
            } else if b == 46 {
                SpringElement::Working
            } else {
                proof { lemma_elements_stay_none(head, i + 1); }
                assert(head.subrange(0, k as int) =~= head);
                return None;
            };
            groups.push(e);
            i = i + 1;
        }
        assert(head.subrange(0, i as int) =~= head);
        let n = line.len();
        let tail = crate::text::copy_range(line, k + 1, n);
        let comma: [u8; 1] = [44];
        assert(comma@ =~= seq![44u8]);
        let parts = split_on(tail.as_slice(), &comma);
        let ghost ps = pieces(parts@);
        let mut goal: Vec<usize> = Vec::new();
        let mut j: usize = 0;
        assert(ps.subrange(0, 0) =~= seq![]);
        while j < parts.len()
            invariant
                j <= parts@.len(),
                k < line@.len(),
                ps == pieces(parts@),
                ps == split(line@.subrange(k + 1, line@.len() as int), seq![44u8]),
                elements_of(head) == Some(groups@),
                head == line@.subrange(0, k as int),
                crate::text::find_from(line@, seq![32u8], 0) == Some(k as int),
                sizes_of(ps.subrange(0, j as int)) == Some(goal@),
            decreases parts@.len() - j,
        {
            assert(ps.subrange(0, j + 1).drop_last() =~= ps.subrange(0, j as int));
            assert(ps.subrange(0, j + 1).last() == parts@[j as int]@);
            match parse_number(parts[j].as_slice()) {
                Some(v) => {
                    if v > usize::MAX as u64 {
                        proof { lemma_sizes_stay_none(ps, j + 1); }
                        return None;
                    }
                    goal.push(v as usize);
                },
                None => {
                    proof { lemma_sizes_stay_none(ps, j + 1); }
                    return None;
                },
            }
            j = j + 1;
        }
        assert(ps.subrange(0, j as int) =~= ps);
        Some(SpringLine { groups, goal })
    }
}

proof fn lemma_elements_stay_none(s: Seq<u8>, i: int)
    requires
        0 <= i <= s.len(),
        elements_of(s.subrange(0, i)) is None,
    ensures
        elements_of(s) is None,
    decreases s.len() - i,
{
    if i < s.len() {
        assert(s.subrange(0, i + 1).drop_last() =~= s.subrange(0, i));
        lemma_elements_stay_none(s, i + 1);
    } else {
        assert(s.subrange(0, i) =~= s);
    }
}

proof fn lemma_sizes_stay_none(ps: Seq<Seq<u8>>, i: int)
    requires
        0 <= i <= ps.len(),
        sizes_of(ps.subrange(0, i)) is None,
    ensures
        sizes_of(ps) is None,
    decreases ps.len() - i,
{
    if i < ps.len() {
        assert(ps.subrange(0, i + 1).drop_last() =~= ps.subrange(0, i));
        lemma_sizes_stay_none(ps, i + 1);
    } else {
        assert(ps.subrange(0, i) =~= ps);
    }
}

/// The number of arrangements of a line, unfolded or not.
pub open spec fn line_ways(l: SpringLine, unfold: bool) -> nat {
    if unfold {
        ways(unfold_springs(l.groups@), unfold_goals(l.goal@), 0, 0)
    } else {
        ways(l.groups@, l.goal@, 0, 0)
    }
}

/// The line can be counted, unfolded or not.
pub open spec fn countable(l: SpringLine, unfold: bool) -> bool {
    if unfold {
        unfoldable(l)
    } else {
        l.groups@.len() < usize::MAX && l.goal@.len() < usize::MAX
    }
}

/// The sum of the arrangement counts of the lines `ls`.
pub open spec fn total_ways(ls: Seq<SpringLine>, unfold: bool) -> nat
    decreases ls.len(),
{
    if ls.len() == 0 {
        0
    } else {
        total_ways(ls.drop_last(), unfold) + line_ways(ls.last(), unfold)
    }
}

/// Every line can be counted.
pub open spec fn all_countable(ls: Seq<SpringLine>, unfold: bool) -> bool {
    forall|k: int| 0 <= k < ls.len() ==> countable(#[trigger] ls[k], unfold)
}

/// The text of a total of arrangements: its decimal writing when every line
/// can be counted and the total is below the largest 64-bit value, else
/// the empty text.
pub open spec fn ways_answer(ls: Seq<SpringLine>, unfold: bool) -> Seq<char> {
    if all_countable(ls, unfold) && total_ways(ls, unfold) < u64::MAX {
        decimal(total_ways(ls, unfold))
    } else {
        Seq::empty()
    }
}

proof fn lemma_total_grows(ls: Seq<SpringLine>, unfold: bool, i: int)
    requires
        0 <= i <= ls.len(),
    ensures
        total_ways(ls.subrange(0, i), unfold) <= total_ways(ls, unfold),
    decreases ls.len() - i,
{
    if i < ls.len() {
        assert(ls.subrange(0, i + 1).drop_last() =~= ls.subrange(0, i));
        lemma_total_grows(ls, unfold, i + 1);
    } else {
        assert(ls.subrange(0, i) =~= ls);
    }
}

/// A list of spring records.
pub struct Day12 {
    pub lines: Vec<SpringLine>,
}

/// The records that the lines `ls` write, if each writes one.
pub open spec fn parse_lines(ls: Seq<Seq<u8>>) -> Option<Seq<(Seq<SpringElement>, Seq<usize>)>>
    decreases ls.len(),
{
    if ls.len() == 0 {
        Some(seq![])
    } else {
        match (parse_lines(ls.drop_last()), parse_line(ls.last())) {
            (Some(v), Some(l)) => Some(v.push(l)),
            _ => None,
        }
    }
}

proof fn lemma_lines_stay_none(ls: Seq<Seq<u8>>, i: int)
    requires
        0 <= i <= ls.len(),
        parse_lines(ls.subrange(0, i)) is None,
    ensures
        parse_lines(ls) is None,
    decreases ls.len() - i,
{
    if i < ls.len() {
        assert(ls.subrange(0, i + 1).drop_last() =~= ls.subrange(0, i));
        lemma_lines_stay_none(ls, i + 1);
    } else {
        assert(ls.subrange(0, i) =~= ls);
    }
}

/// The springs and group sizes of each record.
pub open spec fn line_views(ls: Seq<SpringLine>) -> Seq<(Seq<SpringElement>, Seq<usize>)> {
    ls.map_values(|l: SpringLine| (l.groups@, l.goal@))
}

impl Day12 {
    /// Reads one record per line; `None` if a line is not a record.
    pub fn make_day(input: &str) -> (r: Option<Day12>)
        ensures
            match parse_lines(crate::text::lines(input.spec_bytes())) {
                Some(v) => r matches Some(d) && line_views(d.lines@) == v,
                None => r is None,
            },
    {
        let ls = split_lines(input.as_bytes());
        let ghost ps = pieces(ls@);
        let mut lines: Vec<SpringLine> = Vec::new();
        let mut i: usize = 0;
        assert(ps.subrange(0, 0) =~= seq![]);
        assert(line_views(lines@) =~= seq![]);
        while i < ls.len()
            invariant
                i <= ls@.len(),
                ps == pieces(ls@),
                ps == crate::text::lines(input.spec_bytes()),
                parse_lines(ps.subrange(0, i as int)) == Some(line_views(lines@)),
            decreases ls@.len() - i,
        {
            assert(ps.subrange(0, i + 1).drop_last() =~= ps.subrange(0, i as int));
            assert(ps.subrange(0, i + 1).last() == ls@[i as int]@);
            match SpringLine::parse(ls[i].as_slice()) {
                Some(l) => {
                    let ghost before = line_views(lines@);
                    let ghost lv = (l.groups@, l.goal@);
                    lines.push(l);
                    assert(line_views(lines@) =~= before.push(lv));
                },
                None => {
                    proof { lemma_lines_stay_none(ps, i + 1); }
                    return None;
                },
            }
            i = i + 1;
        }
        assert(ps.subrange(0, i as int) =~= ps);
        Some(Day12 { lines })
    }

    /// The total of the arrangement counts, unfolded or not.
    fn total(&self, unfold: bool) -> (r: String)
        ensures
            r@ == ways_answer(self.lines@, unfold),
    {
        let ghost ls = self.lines@;
        let mut total: u64 = 0;
        let mut i: usize = 0;
        while i < self.lines.len()
            invariant
                i <= ls.len(),
                ls == self.lines@,
                all_countable(ls.subrange(0, i as int), unfold),
                total_ways(ls.subrange(0, i as int), unfold) == total,
                total < u64::MAX,
            decreases ls.len() - i,
        {
            assert(ls.subrange(0, i + 1).drop_last() =~= ls.subrange(0, i as int));
            let line = &self.lines[i];
            let ok = if unfold {
                (line.groups.len() as u128) * 5 + 5 < usize::MAX as u128 && (line.goal.len() as u128) * 5 + 1
                    < usize::MAX as u128
            } else {
                line.groups.len() < usize::MAX && line.goal.len() < usize::MAX
            };
            if !ok {
                assert(!countable(ls[i as int], unfold));
                return String::new();
            }
            let c = if unfold { line.find_ways_to_fit_unfold() } else { line.find_ways_to_fit() };
            assert(c == capped(line_ways(ls[i as int], unfold)));
            let next = if c == u64::MAX { None } else { total.checked_add(c) };
            match next {
                Some(t) if t < u64::MAX => {
                    total = t;
                    assert(all_countable(ls.subrange(0, i + 1), unfold)) by {
                        assert forall|k: int| 0 <= k < i + 1 implies countable(#[trigger] ls.subrange(0, i + 1)[k], unfold) by {
                            if k < i {
                                assert(ls.subrange(0, i + 1)[k] == ls.subrange(0, i as int)[k]);
                            }
                        }
                    }
                },
                _ => {
                    proof {
                        lemma_total_grows(ls, unfold, i + 1);
                    }
                    return String::new();
                },
            }
            i = i + 1;
        }
        assert(ls.subrange(0, i as int) =~= ls);
        u64_text(total)
    }

    /// The total of the arrangement counts of the records.
    pub fn solution1(&self) -> (r: String)
        ensures
            r@ == ways_answer(self.lines@, false),
    {
        self.total(false)
    }

    /// The total of the arrangement counts of the unfolded records.
    pub fn solution2(&self) -> (r: String)
        ensures
            r@ == ways_answer(self.lines@, true),
    {
        self.total(true)
    }
}

} // verus!
