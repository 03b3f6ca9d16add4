//! Byte-level text helpers shared by the puzzle solvers: splitting on a
//! separator, reading decimal numbers and writing answers.
use vstd::prelude::*;

verus! {

/// `pat` occurs in `s` at position `i`.
pub open spec fn occurs_at(s: Seq<u8>, pat: Seq<u8>, i: int) -> bool {
    0 <= i && i + pat.len() <= s.len() && s.subrange(i, i + pat.len()) == pat
}

/// The first position at or after `i` where `pat` occurs in `s`.
pub open spec fn find_from(s: Seq<u8>, pat: Seq<u8>, i: int) -> Option<int>
    decreases s.len() + 1 - i,
{
    if i < 0 || i + pat.len() > s.len() {
        None
    } else if occurs_at(s, pat, i) {
        Some(i)
    } else {
        find_from(s, pat, i + 1)
    }
}

/// The pieces of `s` from `start` on, cut at each occurrence of `pat`.
pub open spec fn split_from(s: Seq<u8>, pat: Seq<u8>, start: int) -> Seq<Seq<u8>>
    decreases s.len() - start,
{
    if pat.len() == 0 || start < 0 || start > s.len() {
        seq![]
    } else {
        match find_from(s, pat, start) {
            Some(k) => if start < k + pat.len() <= s.len() {
                seq![s.subrange(start, k)] + split_from(s, pat, k + pat.len())
            } else {
                seq![]
            },
            None => seq![s.subrange(start, s.len() as int)],
        }
    }
}

/// The contents of a sequence of byte vectors.
pub open spec fn pieces(v: Seq<Vec<u8>>) -> Seq<Seq<u8>> {
    v.map_values(|x: Vec<u8>| x@)
}

/// `s` cut at each occurrence of the non-empty separator `pat`.
pub open spec fn split(s: Seq<u8>, pat: Seq<u8>) -> Seq<Seq<u8>> {
    split_from(s, pat, 0)
}

pub proof fn lemma_find_from_bounds(s: Seq<u8>, pat: Seq<u8>, i: int)
    ensures
        find_from(s, pat, i) is Some ==> i <= find_from(s, pat, i)->0 && occurs_at(
            s,
            pat,
            find_from(s, pat, i)->0,
        ),
    decreases s.len() + 1 - i,
{
    if i < 0 || i + pat.len() > s.len() {
    } else if occurs_at(s, pat, i) {
    } else {
        lemma_find_from_bounds(s, pat, i + 1);
    }
}

pub fn matches_at(s: &[u8], pat: &[u8], i: usize) -> (r: bool)
    requires
        i + pat@.len() <= s@.len(),
    ensures
        r == occurs_at(s@, pat@, i as int),
{
    let mut j: usize = 0;
    while j < pat.len()
        invariant
            j <= pat@.len(),
            i + pat@.len() <= s@.len(),
            forall|m: int| 0 <= m < j ==> s@[i + m] == pat@[m],
        decreases pat@.len() - j,
    {
        let n = s.len();
        assert(i + j < n);
        if s[i + j] != pat[j] {
            assert(s@.subrange(i as int, i + pat@.len())[j as int] != pat@[j as int]);
            return false;
        }
        j = j + 1;
    }
    assert(s@.subrange(i as int, i + pat@.len()) =~= pat@);
    true
}

/// The bytes of `s` from `lo` up to `hi`.
pub fn copy_range(s: &[u8], lo: usize, hi: usize) -> (r: Vec<u8>)
    requires
        lo <= hi <= s@.len(),
    ensures
        r@ == s@.subrange(lo as int, hi as int),
{
    let mut r: Vec<u8> = Vec::new();
    let mut i: usize = lo;
    while i < hi
        invariant
            lo <= i <= hi <= s@.len(),
            r@ == s@.subrange(lo as int, i as int),
        decreases hi - i,
    {
        r.push(s[i]);
        i = i + 1;
        assert(r@ =~= s@.subrange(lo as int, i as int));
    }
    r
}

/// A copy of the bytes of `s`.
pub fn copy_all(s: &[u8]) -> (r: Vec<u8>)
    ensures
        r@ == s@,
{
    let r = copy_range(s, 0, s.len());
    assert(r@ =~= s@);
    r
}

/// A copy of a vector of plain values.
pub fn copy_vec<T: Copy>(v: &Vec<T>) -> (r: Vec<T>)
    ensures
        r@ == v@,
{
    let mut r: Vec<T> = Vec::new();
    let mut i: usize = 0;
    while i < v.len()
        invariant
            i <= v@.len(),
            r@ == v@.subrange(0, i as int),
        decreases v@.len() - i,
    {
        r.push(v[i]);
        i = i + 1;
        assert(r@ =~= v@.subrange(0, i as int));
    }
    assert(v@.subrange(0, i as int) =~= v@);
    r
}

/// Two byte strings are equal.
pub fn bytes_equal(a: &[u8], b: &[u8]) -> (r: bool)
    ensures
        r == (a@ == b@),
{
    if a.len() != b.len() {
        return false;
    }
    let mut i: usize = 0;
    while i < a.len()
        invariant
            i <= a@.len() == b@.len(),
            forall|j: int| 0 <= j < i ==> a@[j] == b@[j],
        decreases a@.len() - i,
    {
        if a[i] != b[i] {
            return false;
        }
        i = i + 1;
    }
    assert(a@ =~= b@);
    true
}

/// The first position at or after `start` where `pat` occurs in `s`.
pub fn find(s: &[u8], pat: &[u8], start: usize) -> (r: Option<usize>)
    requires
        pat@.len() > 0,
    ensures
        r matches Some(k) ==> find_from(s@, pat@, start as int) == Some(k as int),
        r is None ==> find_from(s@, pat@, start as int) is None,
{
    if start > s.len() || pat.len() > s.len() - start {
        return None;
    }
    let mut k: usize = start;
    while k <= s.len() - pat.len()
        invariant
            start <= k,
            0 < pat@.len() <= s@.len(),
            find_from(s@, pat@, start as int) == find_from(s@, pat@, k as int),
        decreases s@.len() - k,
    {
        if matches_at(s, pat, k) {
            return Some(k);
        }
        k = k + 1;
    }
    None
}

/// Cuts `s` at each occurrence of the non-empty separator `pat`.
pub fn split_on(s: &[u8], pat: &[u8]) -> (r: Vec<Vec<u8>>)
    requires
        pat@.len() > 0,
    ensures
        pieces(r@) == split(s@, pat@),
{
    let mut r: Vec<Vec<u8>> = Vec::new();
    let mut start: usize = 0;
    loop
        invariant
            start <= s@.len(),
            pat@.len() > 0,
            pieces(r@) + split_from(s@, pat@, start as int) == split(s@, pat@),
        decreases s@.len() - start,
    {
        match find(s, pat, start) {
            Some(k) => {
                proof {
                    lemma_find_from_bounds(s@, pat@, start as int);
                }
                let piece = copy_range(s, start, k);
                assert(piece@ == s@.subrange(start as int, k as int));
                let ghost old_r = pieces(r@);
                r.push(piece);
                assert(pieces(r@) =~= old_r + seq![s@.subrange(start as int, k as int)]);
                assert(split_from(s@, pat@, start as int) == seq![s@.subrange(start as int, k as int)]
                    + split_from(s@, pat@, k + pat@.len()));
                let n = s.len();
                assert(k + pat@.len() <= n);
                start = k + pat.len();
            },
            None => {
                let piece = copy_range(s, start, s.len());
                let ghost old_r = pieces(r@);
                r.push(piece);
                assert(pieces(r@) =~= old_r + seq![s@.subrange(start as int, s@.len() as int)]);
                return r;
            },
        }
    }
}

/// The newline byte.
pub const NEWLINE: u8 = 10;

/// The lines of `t`: its pieces between newlines, without the empty piece
/// after a final newline.
pub open spec fn lines(t: Seq<u8>) -> Seq<Seq<u8>> {
    let p = split(t, seq![NEWLINE]);
    if p.len() > 0 && p.last().len() == 0 {
        p.drop_last()
    } else {
        p
    }
}

/// Cuts `t` into lines.
pub fn split_lines(t: &[u8]) -> (r: Vec<Vec<u8>>)
    ensures
        pieces(r@) == lines(t@),
{
    let sep: [u8; 1] = [NEWLINE];
    assert(sep@ =~= seq![NEWLINE]);
    let mut r = split_on(t, &sep);
    let n = r.len();
    if n > 0 && r[n - 1].len() == 0 {
        let ghost before = pieces(r@);
        r.pop();
        assert(pieces(r@) =~= before.drop_last());
    }
    r
}

/// The space byte.
pub const SPACE: u8 = 32;

/// The non-empty runs of non-space bytes of `s`, in order.
pub open spec fn words(s: Seq<u8>) -> Seq<Seq<u8>> {
    split(s, seq![SPACE]).filter(|w: Seq<u8>| w.len() > 0)
}

/// Cuts `s` into its words.
pub fn split_words(s: &[u8]) -> (r: Vec<Vec<u8>>)
    ensures
        pieces(r@) == words(s@),
{
    let sep: [u8; 1] = [SPACE];
    assert(sep@ =~= seq![SPACE]);
    let all = split_on(s, &sep);
    let ghost p = pieces(all@);
    let mut r: Vec<Vec<u8>> = Vec::new();
    let mut i: usize = 0;
    assert(p.subrange(0, 0) =~= seq![]);
    while i < all.len()
        invariant
            i <= all@.len(),
            p == pieces(all@),
            pieces(r@) == p.subrange(0, i as int).filter(|w: Seq<u8>| w.len() > 0),
        decreases all@.len() - i,
    {
        proof {
            assert(p.subrange(0, i + 1) =~= p.subrange(0, i as int).push(p[i as int]));
            p.subrange(0, i as int).lemma_filter_push(p[i as int], |w: Seq<u8>| w.len() > 0);
        }
        if all[i].len() > 0 {
            let ghost before = pieces(r@);
            r.push(copy_all(all[i].as_slice()));
            assert(pieces(r@) =~= before.push(p[i as int]));
        }
        i = i + 1;
    }
    assert(p.subrange(0, i as int) =~= p);
    r
}

/// The value of a byte as a decimal digit.
pub open spec fn digit_value(b: u8) -> nat {
    (b - 48) as nat
}

/// `b` is one of the digits `0` to `9`.
pub open spec fn is_digit(b: u8) -> bool {
    48 <= b <= 57
}

/// `s` is a non-empty run of decimal digits.
pub open spec fn is_number(s: Seq<u8>) -> bool {
    s.len() > 0 && forall|i: int| 0 <= i < s.len() ==> is_digit(#[trigger] s[i])
}

/// The number that the decimal digits `s` write.
pub open spec fn number_value(s: Seq<u8>) -> nat
    decreases s.len(),
{
    if s.len() == 0 {
        0
    } else {
        number_value(s.drop_last()) * 10 + digit_value(s.last())
    }
}

proof fn lemma_number_value_grows(s: Seq<u8>, i: int)
    requires
        0 <= i <= s.len(),
    ensures
        number_value(s.subrange(0, i)) <= number_value(s),
    decreases s.len() - i,
{
    if i < s.len() {
        lemma_number_value_grows(s, i + 1);
        assert(s.subrange(0, i + 1).drop_last() =~= s.subrange(0, i));
    } else {
        assert(s.subrange(0, i) =~= s);
    }
}

/// Reads the decimal number written by `s`: `None` when `s` is not a
/// non-empty run of digits or its value does not fit in 64 bits.
pub fn parse_number(s: &[u8]) -> (r: Option<u64>)
    ensures
        r matches Some(v) ==> is_number(s@) && v == number_value(s@),
        r is None ==> !is_number(s@) || number_value(s@) > u64::MAX,
{
    if s.len() == 0 {
        return None;
    }
    let mut v: u64 = 0;
    let mut i: usize = 0;
    while i < s.len()
        invariant
            i <= s@.len(),
            forall|j: int| 0 <= j < i ==> is_digit(#[trigger] s@[j]),
            v == number_value(s@.subrange(0, i as int)),
        decreases s@.len() - i,
    {
        let b = s[i];
        if b < 48 || b > 57 {
            assert(!is_digit(s@[i as int]));
            return None;
        }
        assert(s@.subrange(0, i + 1).drop_last() =~= s@.subrange(0, i as int));
        let d = (b - 48) as u64;
        if v > (u64::MAX - d) / 10 {
            proof {
                lemma_number_value_grows(s@, i + 1);
                let m = u64::MAX as int;
                assert(v * 10 + d > m) by (nonlinear_arith)
                    requires
                        v > (m - d) / 10,
                        0 <= d <= m,
                ;
            }
            return None;
        }
        v = v * 10 + d;
        i = i + 1;
    }
    assert(s@.subrange(0, i as int) =~= s@);
    Some(v)
}

/// The values of the words `ws`, if each is a number that fits in 32 bits.
pub open spec fn numbers_of(ws: Seq<Seq<u8>>) -> Option<Seq<u32>>
    decreases ws.len(),
{
    if ws.len() == 0 {
        Some(seq![])
    } else {
        match numbers_of(ws.drop_last()) {
            Some(v) => if is_number(ws.last()) && number_value(ws.last()) <= u32::MAX {
                Some(v.push(number_value(ws.last()) as u32))
            } else {
                None
            },
            None => None,
        }
    }
}

proof fn lemma_numbers_stay_none(ws: Seq<Seq<u8>>, i: int)
    requires
        0 <= i <= ws.len(),
        numbers_of(ws.subrange(0, i)) is None,
    ensures
        numbers_of(ws) is None,
    decreases ws.len() - i,
{
    if i < ws.len() {
        assert(ws.subrange(0, i + 1).drop_last() =~= ws.subrange(0, i));
        lemma_numbers_stay_none(ws, i + 1);
    } else {
        assert(ws.subrange(0, i) =~= ws);
    }
}

/// Reads the numbers of `s`, separated by spaces.
pub fn parse_numbers(s: &[u8]) -> (r: Option<Vec<u32>>)
    ensures
        match numbers_of(words(s@)) {
            Some(v) => r matches Some(x) && x@ == v,
            None => r is None,
        },
{
    let ws = split_words(s);
    let ghost p = pieces(ws@);
    let mut r: Vec<u32> = Vec::new();
    let mut i: usize = 0;
    assert(p.subrange(0, 0) =~= seq![]);
    while i < ws.len()
        invariant
            i <= ws@.len(),
            p == pieces(ws@),
            p == words(s@),
            numbers_of(p.subrange(0, i as int)) == Some(r@),
        decreases ws@.len() - i,
    {
        assert(p.subrange(0, i + 1).drop_last() =~= p.subrange(0, i as int));
        assert(p.subrange(0, i + 1).last() == ws@[i as int]@);
        match parse_number(ws[i].as_slice()) {
            Some(v) => {
                if v > 4294967295 {
                    proof { lemma_numbers_stay_none(p, i + 1); }
                    return None;
                }
                r.push(v as u32);
            },
            None => {
                proof { lemma_numbers_stay_none(p, i + 1); }
                return None;
            },
        }
        i = i + 1;
    }
    assert(p.subrange(0, i as int) =~= p);
    Some(r)
}

/// The decimal digit character for `d < 10`.
pub open spec fn digit_char(d: nat) -> char {
    (48 + d) as char
}

/// The decimal writing of `n`, without leading zeros.
pub open spec fn decimal(n: nat) -> Seq<char>
    decreases n,
{
    if n < 10 {
        seq![digit_char(n)]
    } else {
        decimal(n / 10).push(digit_char(n % 10))
    }
}

/// The sum of `f` over the lines `ls`, or `None` if `f` gives nothing for
/// one of them.
pub open spec fn sum_lines(ls: Seq<Seq<u8>>, f: spec_fn(Seq<u8>) -> Option<nat>) -> Option<nat>
    decreases ls.len(),
{
    if ls.len() == 0 {
        Some(0)
    } else {
        match (sum_lines(ls.drop_last(), f), f(ls.last())) {
            (Some(a), Some(b)) => Some(a + b),
            _ => None,
        }
    }
}

/// Once a prefix of the lines has no sum, the whole has none.
pub proof fn lemma_sum_lines_stays_none(ls: Seq<Seq<u8>>, f: spec_fn(Seq<u8>) -> Option<nat>, i: int)
    requires
        0 <= i <= ls.len(),
        sum_lines(ls.subrange(0, i), f) is None,
    ensures
        sum_lines(ls, f) is None,
    decreases ls.len() - i,
{
    if i < ls.len() {
        assert(ls.subrange(0, i + 1).drop_last() =~= ls.subrange(0, i));
        lemma_sum_lines_stays_none(ls, f, i + 1);
    } else {
        assert(ls.subrange(0, i) =~= ls);
    }
}

/// The sum over all lines is at least the sum over a prefix.
pub proof fn lemma_sum_lines_above(ls: Seq<Seq<u8>>, f: spec_fn(Seq<u8>) -> Option<nat>, i: int)
    requires
        0 <= i <= ls.len(),
        sum_lines(ls.subrange(0, i), f) matches Some(a) && a > u64::MAX,
    ensures
        answer(sum_lines(ls, f)) == Seq::<char>::empty(),
    decreases ls.len() - i,
{
    if i < ls.len() {
        assert(ls.subrange(0, i + 1).drop_last() =~= ls.subrange(0, i));
        if sum_lines(ls.subrange(0, i + 1), f) is None {
            lemma_sum_lines_stays_none(ls, f, i + 1);
        } else {
            lemma_sum_lines_above(ls, f, i + 1);
        }
    } else {
        assert(ls.subrange(0, i) =~= ls);
    }
}

/// The text of an answer: its decimal writing when there is one that fits
/// in 64 bits, else the empty text.
pub open spec fn answer(t: Option<nat>) -> Seq<char> {
    match t {
        Some(n) => if n <= u64::MAX {
            decimal(n)
        } else {
            Seq::empty()
        },
        None => Seq::empty(),
    }
}

/// The text of an answer computed with checked arithmetic.
pub fn answer_text(t: Option<u64>) -> (r: String)
    ensures
        r@ == match t {
            Some(n) => decimal(n as nat),
            None => Seq::<char>::empty(),
        },
{
    match t {
        Some(n) => u64_text(n),
        None => String::new(),
    }
}

/// A decimal writing has at least one digit.
pub proof fn lemma_decimal_nonempty(n: nat)
    ensures
        decimal(n).len() > 0,
    decreases n,
{
    if n >= 10 {
        lemma_decimal_nonempty(n / 10);
    }
}

/// The decimal writing of `x`, with a minus sign when it is negative.
pub open spec fn signed_decimal(x: int) -> Seq<char> {
    if x < 0 {
        seq!['-'] + decimal((-x) as nat)
    } else {
        decimal(x as nat)
    }
}

/// Relies on `i64`'s `Display` through `ToString::to_string`: a minus sign
/// for a negative value, then the decimal digits of its magnitude.
#[verifier::external_body]
pub(crate) fn i64_text(x: i64) -> (r: String)
    ensures
        r@ == signed_decimal(x as int),
{
    x.to_string()
}

/// Relies on `i128`'s `Display` through `ToString::to_string`: a minus
/// sign for a negative value, then the decimal digits of its magnitude.
#[verifier::external_body]
pub(crate) fn i128_text(x: i128) -> (r: String)
    ensures
        r@ == signed_decimal(x as int),
{
    x.to_string()
}

/// Relies on `u64`'s `Display` through `ToString::to_string`: the decimal
/// digits of the value.
#[verifier::external_body]
pub(crate) fn u64_text(n: u64) -> (r: String)
    ensures
        r@ == decimal(n as nat),
{
    n.to_string()
}

} // verus!
