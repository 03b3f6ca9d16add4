//! The HASH algorithm and the lens boxes that it indexes.
use vstd::prelude::*;
use vstd::string::StringSliceAdditionalSpecFns;
use crate::text::{
    answer, answer_text, copy_range, find, find_from, is_number, number_value, parse_number,
    pieces, split, split_on,
};

verus! {

/// The HASH of `s`: starting from 0, for each byte add it, multiply by 17
/// and keep the remainder modulo 256.
pub open spec fn hash(s: Seq<u8>) -> nat
    decreases s.len(),
{
    if s.len() == 0 {
        0
    } else {
        ((17 * (hash(s.drop_last()) + s.last() as nat)) % 256) as nat
    }
}

/// The HASH of the bytes of `s`.
pub fn hash_algorithm(s: &str) -> (r: u32)
    ensures
        r == hash(s.spec_bytes()),
{
    hash_bytes(s.as_bytes())
}

/// The HASH of `s`.
pub fn hash_bytes(s: &[u8]) -> (r: u32)
    ensures
        r == hash(s@),
        r < 256,
{
    let mut current: u32 = 0;
    let mut i: usize = 0;
    assert(s@.subrange(0, 0) =~= seq![]);
    while i < s.len()
        invariant
            i <= s@.len(),
            current == hash(s@.subrange(0, i as int)),
            current < 256,
        decreases s@.len() - i,
    {
        assert(s@.subrange(0, i + 1).drop_last() =~= s@.subrange(0, i as int));
        current = (17 * (current + s[i] as u32)) % 256;
        i = i + 1;
    }
    assert(s@.subrange(0, i as int) =~= s@);
    current
}

/// A lens: its label and focal length.
pub struct Lens {
    pub label: Vec<u8>,
    pub focal_length: u32,
}

/// One step of the initialisation sequence.
pub enum Instruction {
    /// Put the lens in the box of its label, replacing one of the same label.
    Put(Lens),
    /// Take the lens with this label out of its box.
    Remove { label: Vec<u8> },
}

/// The mathematical form of a step: the label, and the focal length for a
/// put.
pub struct StepView {
    pub label: Seq<u8>,
    pub focal: Option<u32>,
}

impl View for Instruction {
    type V = StepView;

    open spec fn view(&self) -> StepView {
        match self {
            Instruction::Put(lens) => StepView { label: lens.label@, focal: Some(lens.focal_length) },
            Instruction::Remove { label } => StepView { label: label@, focal: None },
        }
    }
}

/// The step that `s` writes: `<label>=<focal length>` or `<label>-`.
pub open spec fn parse_step(s: Seq<u8>) -> Option<StepView> {
    match find_from(s, seq![61u8], 0) {
        Some(k) => {
            let tail = s.subrange(k + 1, s.len() as int);
            if is_number(tail) && number_value(tail) <= u32::MAX {
                Some(StepView { label: s.subrange(0, k), focal: Some(number_value(tail) as u32) })
            } else {
                None
            }
        },
        None => if s.len() > 0 {
            Some(StepView { label: s.subrange(0, s.len() - 1), focal: None })
        } else {
            None
        },
    }
}

impl Instruction {
    /// Reads a step: `<label>=<focal length>` or `<label>-`.
    pub fn parse(s: &[u8]) -> (r: Option<Instruction>)
        ensures
            match parse_step(s@) {
                Some(v) => r matches Some(i) && i@ == v,
                None => r is None,
            },
    {
        let eq: [u8; 1] = [61];
        assert(eq@ =~= seq![61u8]);
        match find(s, &eq, 0) {
            Some(k) => {
                proof {
                    crate::text::lemma_find_from_bounds(s@, seq![61u8], 0);
                }
                let n = s.len();
                let tail = copy_range(s, k + 1, n);
                match parse_number(tail.as_slice()) {
                    Some(v) => {
                        if v > 4294967295 {
                            return None;
                        }
                        Some(Instruction::Put(Lens { label: copy_range(s, 0, k), focal_length: v as u32 }))
                    },
                    None => None,
                }
            },
            None => {
                if s.len() == 0 {
                    return None;
                }
                Some(Instruction::Remove { label: copy_range(s, 0, s.len() - 1) })
            },
        }
    }

    /// The label of the lens that the step is about.
    pub fn get_label(&self) -> (r: &Vec<u8>)
        ensures
            r@ == self@.label,
    {
        match self {
            Instruction::Put(lens) => &lens.label,
            Instruction::Remove { label } => label,
        }
    }
}

/// `b` is a space, tab, carriage return or newline.
pub open spec fn is_blank(b: u8) -> bool {
    b == 32 || b == 9 || b == 10 || b == 13
}

/// `s` without its leading blanks.
pub open spec fn trim_start(s: Seq<u8>) -> Seq<u8>
    decreases s.len(),
{
    if s.len() > 0 && is_blank(s[0]) {
        trim_start(s.drop_first())
    } else {
        s
    }
}

/// `s` without its trailing blanks.
pub open spec fn trim_end(s: Seq<u8>) -> Seq<u8>
    decreases s.len(),
{
    if s.len() > 0 && is_blank(s.last()) {
        trim_end(s.drop_last())
    } else {
        s
    }
}

/// `s` without its leading and trailing blanks.
fn trim(s: &[u8]) -> (r: Vec<u8>)
    ensures
        r@ == trim_end(trim_start(s@)),
{
    let mut a: usize = 0;
    assert(s@.subrange(0, s@.len() as int) =~= s@);
    while a < s.len() && (s[a] == 32 || s[a] == 9 || s[a] == 10 || s[a] == 13)
        invariant
            a <= s@.len(),
            trim_start(s@) == trim_start(s@.subrange(a as int, s@.len() as int)),
        decreases s@.len() - a,
    {
        assert(s@.subrange(a as int, s@.len() as int).drop_first() =~= s@.subrange(a + 1, s@.len() as int));
        a = a + 1;
    }
    let mut b: usize = s.len();
    assert(s@.subrange(a as int, s@.len() as int) == trim_start(s@));
    while b > a && (s[b - 1] == 32 || s[b - 1] == 9 || s[b - 1] == 10 || s[b - 1] == 13)
        invariant
            a <= b <= s@.len(),
            trim_start(s@) == s@.subrange(a as int, s@.len() as int),
            trim_end(trim_start(s@)) == trim_end(s@.subrange(a as int, b as int)),
        decreases b,
    {
        assert(s@.subrange(a as int, b as int).drop_last() =~= s@.subrange(a as int, b - 1));
        b = b - 1;
    }
    copy_range(s, a, b)
}

/// An initialisation sequence: its steps, in order.
pub struct Day15 {
    pub steps: Vec<Vec<u8>>,
}

/// The sum of the HASH of each of `steps`.
pub open spec fn sum_hashes(steps: Seq<Seq<u8>>) -> nat
    decreases steps.len(),
{
    if steps.len() == 0 {
        0
    } else {
        sum_hashes(steps.drop_last()) + hash(steps.last())
    }
}

proof fn lemma_sum_hashes_above(ss: Seq<Seq<u8>>, i: int)
    requires
        0 <= i <= ss.len(),
        sum_hashes(ss.subrange(0, i)) > u64::MAX,
    ensures
        answer(Some(sum_hashes(ss))) == Seq::<char>::empty(),
    decreases ss.len() - i,
{
    if i < ss.len() {
        assert(ss.subrange(0, i + 1).drop_last() =~= ss.subrange(0, i));
        lemma_sum_hashes_above(ss, i + 1);
    } else {
        assert(ss.subrange(0, i) =~= ss);
    }
}

impl Day15 {
    /// Reads the steps: the text without leading and trailing blanks, cut at
    /// each comma.
    pub fn make_day(input: &str) -> (r: Day15)
        ensures
            pieces(r.steps@) == split(trim_end(trim_start(input.spec_bytes())), seq![44u8]),
    {
        let t = trim(input.as_bytes());
        let comma: [u8; 1] = [44];
        assert(comma@ =~= seq![44u8]);
        Day15 { steps: split_on(t.as_slice(), &comma) }
    }

    /// The sum of the HASH of each step.
    pub fn solution1(&self) -> (r: String)
        ensures
            r@ == answer(Some(sum_hashes(pieces(self.steps@)))),
    {
        let ghost ss = pieces(self.steps@);
        let mut total: u64 = 0;
        let mut i: usize = 0;
        while i < self.steps.len()
            invariant
                i <= self.steps@.len() == ss.len(),
                ss == pieces(self.steps@),
                sum_hashes(ss.subrange(0, i as int)) == total,
            decreases self.steps@.len() - i,
        {
            assert(ss.subrange(0, i + 1).drop_last() =~= ss.subrange(0, i as int));
            let h = hash_bytes(self.steps[i].as_slice());
            match total.checked_add(h as u64) {
                Some(t) => {
                    total = t;
                },
                None => {
                    proof { lemma_sum_hashes_above(ss, i + 1); }
                    return String::new();
                },
            }
            i = i + 1;
        }
        assert(ss.subrange(0, i as int) =~= ss);
        answer_text(Some(total))
    }
}

/// A box of lenses, as (label, focal length) pairs in order.
pub type BoxView = Seq<(Seq<u8>, u32)>;

/// The mathematical form of a box.
pub open spec fn box_view(b: Seq<Lens>) -> BoxView {
    b.map_values(|l: Lens| (l.label@, l.focal_length))
}

/// The mathematical form of the boxes.
pub open spec fn boxes_view(bs: Seq<Vec<Lens>>) -> Seq<BoxView> {
    bs.map_values(|b: Vec<Lens>| box_view(b@))
}

/// The first position at or after `k` of a lens labelled `label` in `b`.
pub open spec fn find_label(b: BoxView, label: Seq<u8>, k: int) -> Option<int>
    decreases b.len() - k,
{
    if k < 0 || k >= b.len() {
        None
    } else if b[k].0 == label {
        Some(k)
    } else {
        find_label(b, label, k + 1)
    }
}

/// The box `b` after a step about a lens of its own: a put replaces the
/// focal length of the lens with that label or adds the lens at the back;
/// a removal takes out the lenses with that label.
pub open spec fn apply_to_box(b: BoxView, st: StepView) -> BoxView {
    match st.focal {
        Some(f) => match find_label(b, st.label, 0) {
            Some(p) => b.update(p, (st.label, f)),
            None => b.push((st.label, f)),
        },
        None => without_label(b, st.label),
    }
}

/// The lenses of `b` without those labelled `label`.
pub open spec fn without_label(b: BoxView, label: Seq<u8>) -> BoxView {
    b.filter(other_label(label))
}

/// A lens is not labelled `label`.
pub open spec fn other_label(label: Seq<u8>) -> spec_fn((Seq<u8>, u32)) -> bool {
    |e: (Seq<u8>, u32)| e.0 != label
}

proof fn lemma_without_label_push(b: BoxView, x: (Seq<u8>, u32), label: Seq<u8>)
    ensures
        without_label(b.push(x), label) == if x.0 != label {
            without_label(b, label).push(x)
        } else {
            without_label(b, label)
        },
{
    b.lemma_filter_push(x, other_label(label));
}

/// The boxes after the first `n` steps, from 256 empty boxes.
pub open spec fn run_steps(steps: Seq<StepView>, n: int) -> Seq<BoxView>
    decreases n,
{
    if n <= 0 {
        Seq::new(256, |i: int| Seq::<(Seq<u8>, u32)>::empty())
    } else {
        let bs = run_steps(steps, n - 1);
        let h = hash(steps[n - 1].label) as int;
        bs.update(h, apply_to_box(bs[h], steps[n - 1]))
    }
}

/// The focusing power of the first `n` lenses of box number `i`.
pub open spec fn box_power(b: BoxView, i: int, n: int) -> nat
    decreases n,
{
    if n <= 0 {
        0
    } else {
        box_power(b, i, n - 1) + ((i + 1) * n * b[n - 1].1) as nat
    }
}

/// The focusing power of the first `n` boxes.
pub open spec fn total_power(bs: Seq<BoxView>, n: int) -> nat
    decreases n,
{
    if n <= 0 {
        0
    } else {
        total_power(bs, n - 1) + box_power(bs[n - 1], n - 1, bs[n - 1].len() as int)
    }
}

/// The steps that the texts `ss` write, if each writes one.
pub open spec fn parse_steps(ss: Seq<Seq<u8>>) -> Option<Seq<StepView>>
    decreases ss.len(),
{
    if ss.len() == 0 {
        Some(seq![])
    } else {
        match (parse_steps(ss.drop_last()), parse_step(ss.last())) {
            (Some(v), Some(x)) => Some(v.push(x)),
            _ => None,
        }
    }
}

/// The focusing power after all steps, if each step is well formed.
pub open spec fn focusing_power(ss: Seq<Seq<u8>>) -> Option<nat> {
    match parse_steps(ss) {
        Some(steps) => Some(total_power(run_steps(steps, steps.len() as int), 256)),
        None => None,
    }
}

proof fn lemma_steps_stay_none(ss: Seq<Seq<u8>>, i: int)
    requires
        0 <= i <= ss.len(),
        parse_steps(ss.subrange(0, i)) is None,
    ensures
        parse_steps(ss) is None,
    decreases ss.len() - i,
{
    if i < ss.len() {
        assert(ss.subrange(0, i + 1).drop_last() =~= ss.subrange(0, i));
        lemma_steps_stay_none(ss, i + 1);
    } else {
        assert(ss.subrange(0, i) =~= ss);
    }
}

/// A copy of the box `b`.
fn copy_box(b: &Vec<Lens>) -> (r: Vec<Lens>)
    ensures
        box_view(r@) == box_view(b@),
{
    let mut r: Vec<Lens> = Vec::new();
    let mut i: usize = 0;
    while i < b.len()
        invariant
            i <= b@.len(),
            box_view(r@) == box_view(b@).subrange(0, i as int),
        decreases b@.len() - i,
    {
        let ghost before = box_view(r@);
        r.push(Lens { label: crate::text::copy_all(b[i].label.as_slice()), focal_length: b[i].focal_length });
        assert(box_view(r@) =~= before.push((b@[i as int].label@, b@[i as int].focal_length)));
        i = i + 1;
        assert(box_view(r@) =~= box_view(b@).subrange(0, i as int));
    }
    assert(box_view(b@).subrange(0, i as int) =~= box_view(b@));
    r
}

/// The box `b` after the step `ins`.
fn apply_instruction(b: &Vec<Lens>, ins: &Instruction) -> (r: Vec<Lens>)
    ensures
        box_view(r@) == apply_to_box(box_view(b@), ins@),
{
    let ghost bv = box_view(b@);
    let label = ins.get_label();
    let mut r: Vec<Lens> = Vec::new();
    match ins {
        Instruction::Put(lens) => {
            let mut p: usize = 0;
            while p < b.len() && !crate::text::bytes_equal(b[p].label.as_slice(), lens.label.as_slice())
                invariant
                    p <= b@.len() == bv.len(),
                    bv == box_view(b@),
                    find_label(bv, lens.label@, 0) == find_label(bv, lens.label@, p as int),
                decreases b@.len() - p,
            {
                assert(bv[p as int] == (b@[p as int].label@, b@[p as int].focal_length));
                p = p + 1;
            }
            r = copy_box(b);
            if p < b.len() {
                assert(bv[p as int] == (b@[p as int].label@, b@[p as int].focal_length));
                assert(find_label(bv, lens.label@, p as int) == Some(p as int));
                let ghost before = box_view(r@);
                r.set(p, Lens { label: crate::text::copy_all(lens.label.as_slice()), focal_length: lens.focal_length });
                assert(box_view(r@) =~= bv.update(p as int, (lens.label@, lens.focal_length)));
            } else {
                assert(find_label(bv, lens.label@, p as int) is None);
                let ghost before = box_view(r@);
                r.push(Lens { label: crate::text::copy_all(lens.label.as_slice()), focal_length: lens.focal_length });
                assert(box_view(r@) =~= bv.push((lens.label@, lens.focal_length)));
            }
        },
        Instruction::Remove { label: l } => {
            let mut i: usize = 0;
            assert(bv.subrange(0, 0) =~= seq![]);
            assert(without_label(seq![], l@) =~= seq![]);
            while i < b.len()
                invariant
                    i <= b@.len() == bv.len(),
                    bv == box_view(b@),
                    box_view(r@) == without_label(bv.subrange(0, i as int), l@),
                decreases b@.len() - i,
            {
                proof {
                    assert(bv.subrange(0, i + 1) =~= bv.subrange(0, i as int).push(bv[i as int]));
                    lemma_without_label_push(bv.subrange(0, i as int), bv[i as int], l@);
                    assert(bv[i as int] == (b@[i as int].label@, b@[i as int].focal_length));
                }
                if !crate::text::bytes_equal(b[i].label.as_slice(), l.as_slice()) {
                    let ghost before = box_view(r@);
                    r.push(Lens { label: crate::text::copy_all(b[i].label.as_slice()), focal_length: b[i].focal_length });
                    assert(box_view(r@) =~= before.push(bv[i as int]));
                }
                i = i + 1;
            }
            assert(bv.subrange(0, i as int) =~= bv);
        },
    }
    r
}

impl Day15 {
    /// The focusing power after the steps, or the empty text if a step is
    /// not well formed or the power does not fit in 64 bits.
    pub fn solution2(&self) -> (r: String)
        ensures
            r@ == answer(focusing_power(pieces(self.steps@))),
    {
        let ghost ss = pieces(self.steps@);
        let mut boxes: Vec<Vec<Lens>> = Vec::new();
        let mut k: usize = 0;
        while k < 256
            invariant
                k <= 256,
                boxes@.len() == k,
                forall|j: int| 0 <= j < k ==> (#[trigger] boxes@[j])@.len() == 0,
            decreases 256 - k,
        {
            boxes.push(Vec::new());
            k = k + 1;
        }
        let ghost mut steps: Seq<StepView> = seq![];
        assert forall|j: int| 0 <= j < 256 implies boxes_view(boxes@)[j] == run_steps(steps, 0)[j] by {
            assert(box_view(boxes@[j]@) =~= Seq::<(Seq<u8>, u32)>::empty());
        }
        assert(boxes_view(boxes@) =~= run_steps(steps, 0));
        assert(ss.subrange(0, 0) =~= seq![]);
        let mut i: usize = 0;
        while i < self.steps.len()
            invariant
                i <= self.steps@.len() == ss.len(),
                ss == pieces(self.steps@),
                parse_steps(ss.subrange(0, i as int)) == Some(steps),
                steps.len() == i,
                boxes@.len() == 256,
                boxes_view(boxes@) == run_steps(steps, i as int),
            decreases self.steps@.len() - i,
        {
            assert(ss.subrange(0, i + 1).drop_last() =~= ss.subrange(0, i as int));
            assert(ss.subrange(0, i + 1).last() == self.steps@[i as int]@);
            let ins = match Instruction::parse(self.steps[i].as_slice()) {
                Some(ins) => ins,
                None => {
                    proof { lemma_steps_stay_none(ss, i + 1); }
                    return String::new();
                },
            };
            let h = hash_bytes(ins.get_label().as_slice()) as usize;
            let nb = apply_instruction(&boxes[h], &ins);
            let ghost before = boxes_view(boxes@);
            let ghost nsteps = steps.push(ins@);
            boxes.set(h, nb);
            proof {
                assert(nsteps.subrange(0, i as int) =~= steps);
                lemma_run_prefix(nsteps, steps, i as int);
                steps = nsteps;
            }
            assert(boxes_view(boxes@) =~= before.update(h as int, apply_to_box(before[h as int], ins@)));
            i = i + 1;
        }
        assert(ss.subrange(0, i as int) =~= ss);
        let ghost bs = boxes_view(boxes@);
        let mut total: u64 = 0;
        let mut b: usize = 0;
        while b < 256
            invariant
                b <= 256,
                boxes@.len() == 256,
                bs == boxes_view(boxes@),
                total == total_power(bs, b as int),
                parse_steps(ss) == Some(steps),
                ss == pieces(self.steps@),
                bs == run_steps(steps, steps.len() as int),
            decreases 256 - b,
        {
            let the_box = &boxes[b];
            let ghost bv = bs[b as int];
            assert(bv == box_view(the_box@));
            let mut j: usize = 0;
            let mut acc: u64 = total;
            while j < the_box.len()
                invariant
                    j <= the_box@.len() == bv.len(),
                    b < 256,
                    bv == box_view(the_box@),
                    bs.len() == 256,
                    bv == bs[b as int],
                    total == total_power(bs, b as int),
                    parse_steps(ss) == Some(steps),
                    ss == pieces(self.steps@),
                    bs == run_steps(steps, steps.len() as int),
                    acc == total + box_power(bv, b as int, j as int),
                decreases the_box@.len() - j,
            {
                assert(bv[j as int] == (the_box@[j as int].label@, the_box@[j as int].focal_length));
                let f = the_box[j].focal_length as u128;
                assert(((b as u128) + 1) * ((j as u128) + 1) <= 256 * 0x1_0000_0000_0000_0000) by (nonlinear_arith)
                    requires b < 256, j < 0x1_0000_0000_0000_0000;
                let w = ((b as u128) + 1) * ((j as u128) + 1);
                assert(w * f <= 256 * 0x1_0000_0000_0000_0000 * 0x1_0000_0000) by (nonlinear_arith)
                    requires w <= 256 * 0x1_0000_0000_0000_0000, f < 0x1_0000_0000;
                let wide = w * f;
                assert(wide == (b + 1) * (j + 1) * bv[j as int].1) by (nonlinear_arith)
                    requires wide == w * f, w == (b + 1) * (j + 1), f == bv[j as int].1;
                if wide > u64::MAX as u128 {
                    proof { lemma_power_above(bs, b as int, j as int, total as nat); }
                    return String::new();
                }
                let term = wide as u64;
                match acc.checked_add(term) {
                    Some(a) => {
                        acc = a;
                    },
                    None => {
                        proof { lemma_power_above(bs, b as int, j as int, total as nat); }
                        return String::new();
                    },
                }
                j = j + 1;
            }
            total = acc;
            b = b + 1;
        }
        answer_text(Some(total))
    }
}

proof fn lemma_run_prefix(longer: Seq<StepView>, shorter: Seq<StepView>, n: int)
    requires
        0 <= n <= shorter.len() <= longer.len(),
        longer.subrange(0, shorter.len() as int) == shorter,
    ensures
        run_steps(longer, n) == run_steps(shorter, n),
    decreases n,
{
    if n > 0 {
        lemma_run_prefix(longer, shorter, n - 1);
        assert(longer[n - 1] == longer.subrange(0, shorter.len() as int)[n - 1]);
    }
}

proof fn lemma_box_power_grows(b: BoxView, i: int, j: int, n: int)
    requires
        0 <= i,
        0 <= j <= n <= b.len(),
    ensures
        box_power(b, i, j) <= box_power(b, i, n),
        j < n ==> box_power(b, i, j) + (i + 1) * (j + 1) * b[j].1 <= box_power(b, i, n),
    decreases n - j,
{
    if j < n {
        lemma_box_power_grows(b, i, j, n - 1);
        if j + 1 <= n - 1 {
            lemma_box_power_grows(b, i, j + 1, n);
        }
        assert((i + 1) * (j + 1) * b[j].1 >= 0) by (nonlinear_arith) requires 0 <= i, 0 <= j;
    }
}

proof fn lemma_total_power_grows(bs: Seq<BoxView>, i: int, n: int)
    requires
        0 <= i <= n <= bs.len(),
    ensures
        total_power(bs, i) <= total_power(bs, n),
    decreases n - i,
{
    if i < n {
        lemma_total_power_grows(bs, i, n - 1);
    }
}

proof fn lemma_power_above(bs: Seq<BoxView>, b: int, j: int, t: nat)
    requires
        0 <= b < 256,
        bs.len() == 256,
        0 <= j < bs[b].len(),
        t == total_power(bs, b),
    ensures
        t + box_power(bs[b], b, j) + (b + 1) * (j + 1) * bs[b][j].1 <= total_power(bs, 256),
{
    lemma_box_power_grows(bs[b], b, j, bs[b].len() as int);
    lemma_total_power_grows(bs, b + 1, 256);
}

} // verus!
