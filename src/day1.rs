//! Calibration values: the first and last digit of each line, where the
//! second answer also reads digits spelled out as words.
use vstd::prelude::*;
use vstd::string::StringSliceAdditionalSpecFns;
use crate::text::{lemma_sum_lines_above, lemma_sum_lines_stays_none, answer, answer_text, pieces, split_lines, sum_lines, copy_range, matches_at, decimal, is_digit, digit_value, occurs_at, u64_text};

verus! {

/// The digit bytes of `s`, in order.
pub open spec fn digits_of(s: Seq<u8>) -> Seq<u8> {
    s.filter(|b: u8| is_digit(b))
}

/// The calibration value of a line whose digits are `d`: ten times the
/// first plus the last.
pub open spec fn calibration(first: nat, last: nat) -> nat {
    10 * first + last
}

/// The calibration value of a line read by its digit bytes alone, if it
/// has any.
pub open spec fn line_value(s: Seq<u8>) -> Option<nat> {
    let d = digits_of(s);
    if d.len() == 0 {
        None
    } else {
        Some(calibration(digit_value(d[0]), digit_value(d.last())))
    }
}

/// The calibration value of `line` from its digits: `Err` when it has none.
pub fn get_number_from_line(line: &[u8]) -> (r: Result<u32, ()>)
    ensures
        match line_value(line@) {
            Some(v) => r == Ok::<u32, ()>(v as u32),
            None => r is Err,
        },
{
    let s = line;
    let ghost bs = s@;
    let mut first: Option<u8> = None;
    let mut last: u8 = 0;
    let mut i: usize = 0;
    while i < s.len()
        invariant
            i <= bs.len(),
            bs == s@,
            first is None ==> digits_of(bs.subrange(0, i as int)).len() == 0,
            first matches Some(f) ==> {
                let d = digits_of(bs.subrange(0, i as int));
                d.len() > 0 && d[0] == f && d.last() == last
            },
        decreases bs.len() - i,
    {
        let b = s[i];
        proof {
            assert(bs.subrange(0, i + 1) =~= bs.subrange(0, i as int).push(b));
            bs.subrange(0, i as int).lemma_filter_push(b, |x: u8| is_digit(x));
        }
        if 48 <= b && b <= 57 {
            if first.is_none() {
                first = Some(b);
            }
            last = b;
        }
        i = i + 1;
    }
    assert(bs.subrange(0, i as int) =~= bs);
    match first {
        None => Err(()),
        Some(f) => Ok(10 * ((f - 48) as u32) + ((last - 48) as u32)),
    }
}

/// The first of `table`, from entry `k` on, whose word occurs at `i` in `s`.
pub open spec fn first_match(s: Seq<u8>, table: Seq<(Seq<u8>, u32)>, i: int, k: int) -> Option<u32>
    decreases table.len() - k,
{
    if k < 0 || k >= table.len() {
        None
    } else if occurs_at(s, table[k].0, i) {
        Some(table[k].1)
    } else {
        first_match(s, table, i, k + 1)
    }
}

/// The values read at the first `n` positions of `s`: at each, the value of
/// the first word of `table` that starts there, if any.
pub open spec fn extracted(s: Seq<u8>, table: Seq<(Seq<u8>, u32)>, n: nat) -> Seq<u32>
    decreases n,
{
    if n == 0 {
        seq![]
    } else {
        let e = extracted(s, table, (n - 1) as nat);
        match first_match(s, table, n - 1, 0) {
            Some(v) => e.push(v),
            None => e,
        }
    }
}

/// The mathematical form of a word table.
pub open spec fn table_view(t: Seq<(Vec<u8>, u32)>) -> Seq<(Seq<u8>, u32)> {
    t.map_values(|e: (Vec<u8>, u32)| (e.0@, e.1))
}

/// Whether `w` occurs in `s` at `i`.
fn starts_with_at(s: &[u8], w: &Vec<u8>, i: usize) -> (r: bool)
    ensures
        r == occurs_at(s@, w@, i as int),
{
    if i > s.len() || w.len() > s.len() - i {
        return false;
    }
    matches_at(s, w.as_slice(), i)
}

/// At each position of `line` in turn, the value of the first word of
/// `to_extract` that starts there, if any.
pub fn extract_numbers_from_string(line: &[u8], to_extract: &Vec<(Vec<u8>, u32)>) -> (r: Vec<u32>)
    ensures
        r@ == extracted(line@, table_view(to_extract@), line@.len()),
{
    let s = line;
    let ghost t = table_view(to_extract@);
    let mut extracted_values: Vec<u32> = Vec::new();
    let mut i: usize = 0;
    while i < s.len()
        invariant
            i <= s@.len(),
            s@ == line@,
            t == table_view(to_extract@),
            extracted_values@ == extracted(s@, t, i as nat),
        decreases s@.len() - i,
    {
        let mut k: usize = 0;
        let mut found: Option<u32> = None;
        while k < to_extract.len()
            invariant
                k <= to_extract@.len() == t.len(),
                t == table_view(to_extract@),
                found is None ==> first_match(s@, t, i as int, 0) == first_match(s@, t, i as int, k as int),
                found is Some ==> first_match(s@, t, i as int, 0) == found,
            decreases to_extract@.len() - k,
        {
            if found.is_none() && starts_with_at(s, &to_extract[k].0, i) {
                found = Some(to_extract[k].1);
            }
            k = k + 1;
        }
        if let Some(v) = found {
            extracted_values.push(v);
        }
        i = i + 1;
    }
    extracted_values
}

/// The calibration value of a line read through `table`, if it reads any
/// value at all.
pub open spec fn line_value2(s: Seq<u8>, table: Seq<(Seq<u8>, u32)>) -> Option<nat> {
    let d = extracted(s, table, s.len());
    if d.len() == 0 {
        None
    } else {
        Some(calibration(d[0] as nat, d.last() as nat))
    }
}

/// The words and digits that the second answer reads, with their values.
pub open spec fn words_table() -> Seq<(Seq<u8>, u32)> {
    seq![
        (seq![111u8, 110, 101], 1u32),
        (seq![116u8, 119, 111], 2),
        (seq![116u8, 104, 114, 101, 101], 3),
        (seq![102u8, 111, 117, 114], 4),
        (seq![102u8, 105, 118, 101], 5),
        (seq![115u8, 105, 120], 6),
        (seq![115u8, 101, 118, 101, 110], 7),
        (seq![101u8, 105, 103, 104, 116], 8),
        (seq![110u8, 105, 110, 101], 9),
        (seq![49u8], 1),
        (seq![50u8], 2),
        (seq![51u8], 3),
        (seq![52u8], 4),
        (seq![53u8], 5),
        (seq![54u8], 6),
        (seq![55u8], 7),
        (seq![56u8], 8),
        (seq![57u8], 9),
    ]
}

/// Appends the word `w` with value `v` to `table`.
fn push_word(table: &mut Vec<(Vec<u8>, u32)>, w: &[u8], v: u32)
    ensures
        table_view(final(table)@) == table_view(old(table)@).push((w@, v)),
{
    let ghost before = table_view(table@);
    let c = copy_range(w, 0, w.len());
    assert(c@ =~= w@);
    table.push((c, v));
    assert(table_view(table@) =~= before.push((w@, v)));
}

/// The words and digits that the second answer reads, with their values.
pub fn extract_words() -> (r: Vec<(Vec<u8>, u32)>)
    ensures
        table_view(r@) == words_table(),
{
    let mut r: Vec<(Vec<u8>, u32)> = Vec::new();
    let w1: [u8; 3] = [111u8, 110, 101];
    assert(w1@ =~= seq![111u8, 110, 101]);
    push_word(&mut r, &w1, 1);
    let w2: [u8; 3] = [116u8, 119, 111];
    assert(w2@ =~= seq![116u8, 119, 111]);
    push_word(&mut r, &w2, 2);
    let w3: [u8; 5] = [116u8, 104, 114, 101, 101];
    assert(w3@ =~= seq![116u8, 104, 114, 101, 101]);
    push_word(&mut r, &w3, 3);
    let w4: [u8; 4] = [102u8, 111, 117, 114];
    assert(w4@ =~= seq![102u8, 111, 117, 114]);
    push_word(&mut r, &w4, 4);
    let w5: [u8; 4] = [102u8, 105, 118, 101];
    assert(w5@ =~= seq![102u8, 105, 118, 101]);
    push_word(&mut r, &w5, 5);
    let w6: [u8; 3] = [115u8, 105, 120];
    assert(w6@ =~= seq![115u8, 105, 120]);
    push_word(&mut r, &w6, 6);
    let w7: [u8; 5] = [115u8, 101, 118, 101, 110];
    assert(w7@ =~= seq![115u8, 101, 118, 101, 110]);
    push_word(&mut r, &w7, 7);
    let w8: [u8; 5] = [101u8, 105, 103, 104, 116];
    assert(w8@ =~= seq![101u8, 105, 103, 104, 116]);
    push_word(&mut r, &w8, 8);
    let w9: [u8; 4] = [110u8, 105, 110, 101];
    assert(w9@ =~= seq![110u8, 105, 110, 101]);
    push_word(&mut r, &w9, 9);
    let w10: [u8; 1] = [49u8];
    assert(w10@ =~= seq![49u8]);
    push_word(&mut r, &w10, 1);
    let w11: [u8; 1] = [50u8];
    assert(w11@ =~= seq![50u8]);
    push_word(&mut r, &w11, 2);
    let w12: [u8; 1] = [51u8];
    assert(w12@ =~= seq![51u8]);
    push_word(&mut r, &w12, 3);
    let w13: [u8; 1] = [52u8];
    assert(w13@ =~= seq![52u8]);
    push_word(&mut r, &w13, 4);
    let w14: [u8; 1] = [53u8];
    assert(w14@ =~= seq![53u8]);
    push_word(&mut r, &w14, 5);
    let w15: [u8; 1] = [54u8];
    assert(w15@ =~= seq![54u8]);
    push_word(&mut r, &w15, 6);
    let w16: [u8; 1] = [55u8];
    assert(w16@ =~= seq![55u8]);
    push_word(&mut r, &w16, 7);
    let w17: [u8; 1] = [56u8];
    assert(w17@ =~= seq![56u8]);
    push_word(&mut r, &w17, 8);
    let w18: [u8; 1] = [57u8];
    assert(w18@ =~= seq![57u8]);
    push_word(&mut r, &w18, 9);
    assert(table_view(r@) =~= words_table());
    r
}

proof fn lemma_first_match_bound(s: Seq<u8>, table: Seq<(Seq<u8>, u32)>, i: int, k: int, bound: u32)
    requires
        forall|j: int| 0 <= j < table.len() ==> (#[trigger] table[j]).1 <= bound,
    ensures
        first_match(s, table, i, k) matches Some(v) ==> v <= bound,
    decreases table.len() - k,
{
    if 0 <= k < table.len() && !occurs_at(s, table[k].0, i) {
        lemma_first_match_bound(s, table, i, k + 1, bound);
    }
}

proof fn lemma_extracted_bound(s: Seq<u8>, table: Seq<(Seq<u8>, u32)>, n: nat, bound: u32)
    requires
        forall|j: int| 0 <= j < table.len() ==> (#[trigger] table[j]).1 <= bound,
    ensures
        forall|j: int| 0 <= j < extracted(s, table, n).len() ==> #[trigger] extracted(s, table, n)[j] <= bound,
    decreases n,
{
    if n > 0 {
        let e = extracted(s, table, (n - 1) as nat);
        lemma_extracted_bound(s, table, (n - 1) as nat, bound);
        lemma_first_match_bound(s, table, n - 1, 0, bound);
        assert forall|j: int| 0 <= j < extracted(s, table, n).len() implies #[trigger] extracted(
            s,
            table,
            n,
        )[j] <= bound by {
            if j < e.len() {
                assert(extracted(s, table, n)[j] == e[j]);
            }
        }
    }
}

/// The calibration value of `line`, reading digits and spelled-out digits:
/// `Err` when it has neither.
pub fn get_number_from_line2(line: &[u8]) -> (r: Result<u32, ()>)
    ensures
        match line_value2(line@, words_table()) {
            Some(v) => v <= 99 && r == Ok::<u32, ()>(v as u32),
            None => r is Err,
        },
{
    let table = extract_words();
    let digits = extract_numbers_from_string(line, &table);
    proof {
        assert forall|j: int| 0 <= j < words_table().len() implies (#[trigger] words_table()[j]).1 <= 9 by {}
        lemma_extracted_bound(line@, words_table(), line@.len(), 9);
    }
    if digits.len() == 0 {
        return Err(());
    }
    let first = digits[0];
    let last = digits[digits.len() - 1];
    Ok(10 * first + last)
}

/// The calibration value of a line with plain digits, as a spec function.
pub open spec fn value1(s: Seq<u8>) -> Option<nat> {
    line_value(s)
}

/// The calibration value of a line with spelled-out digits too.
pub open spec fn value2(s: Seq<u8>) -> Option<nat> {
    line_value2(s, words_table())
}

/// A calibration document, one line per entry.
pub struct Day1 {
    pub document_lines: Vec<Vec<u8>>,
}

impl Day1 {
    /// Reads the document, one entry per line.
    pub fn make_day(input: &str) -> (r: Day1)
        ensures
            pieces(r.document_lines@) == crate::text::lines(input.spec_bytes()),
    {
        Day1 { document_lines: split_lines(input.as_bytes()) }
    }

    /// The sum of the calibration values read from digits, or the empty
    /// text if a line has no digit.
    pub fn solution1(&self) -> (r: String)
        ensures
            r@ == answer(sum_lines(pieces(self.document_lines@), |s: Seq<u8>| value1(s))),
    {
        let ghost ls = pieces(self.document_lines@);
        let ghost f = |s: Seq<u8>| value1(s);
        let mut total: u64 = 0;
        let mut i: usize = 0;
        while i < self.document_lines.len()
            invariant
                i <= ls.len() == self.document_lines@.len(),
                ls == pieces(self.document_lines@),
                f == (|s: Seq<u8>| value1(s)),
                sum_lines(ls.subrange(0, i as int), f) == Some(total as nat),
            decreases ls.len() - i,
        {
            assert(ls.subrange(0, i + 1).drop_last() =~= ls.subrange(0, i as int));
            match get_number_from_line(self.document_lines[i].as_slice()) {
                Err(()) => {
                    proof {
                        lemma_sum_lines_stays_none(ls, f, i + 1);
                    }
                    return String::new();
                },
                Ok(v) => match total.checked_add(v as u64) {
                    Some(t) => {
                        total = t;
                    },
                    None => {
                        proof {
                            lemma_sum_lines_above(ls, f, i + 1);
                        }
                        return String::new();
                    },
                },
            }
            i = i + 1;
        }
        assert(ls.subrange(0, i as int) =~= ls);
        answer_text(Some(total))
    }

    /// The sum of the calibration values read from digits and spelled-out
    /// digits, or the empty text if a line has neither.
    pub fn solution2(&self) -> (r: String)
        ensures
            r@ == answer(sum_lines(pieces(self.document_lines@), |s: Seq<u8>| value2(s))),
    {
        let ghost ls = pieces(self.document_lines@);
        let ghost f = |s: Seq<u8>| value2(s);
        let mut total: u64 = 0;
        let mut i: usize = 0;
        while i < self.document_lines.len()
            invariant
                i <= ls.len() == self.document_lines@.len(),
                ls == pieces(self.document_lines@),
                f == (|s: Seq<u8>| value2(s)),
                sum_lines(ls.subrange(0, i as int), f) == Some(total as nat),
            decreases ls.len() - i,
        {
            assert(ls.subrange(0, i + 1).drop_last() =~= ls.subrange(0, i as int));
            match get_number_from_line2(self.document_lines[i].as_slice()) {
                Err(()) => {
                    proof {
                        lemma_sum_lines_stays_none(ls, f, i + 1);
                    }
                    return String::new();
                },
                Ok(v) => match total.checked_add(v as u64) {
                    Some(t) => {
                        total = t;
                    },
                    None => {
                        proof {
                            lemma_sum_lines_above(ls, f, i + 1);
                        }
                        return String::new();
                    },
                },
            }
            i = i + 1;
        }
        assert(ls.subrange(0, i as int) =~= ls);
        answer_text(Some(total))
    }
}

} // verus!
