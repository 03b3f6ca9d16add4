//! Part sorting workflows: each workflow sends a part to another workflow,
//! or accepts or rejects it, by comparing one of its ratings to a number.
use vstd::prelude::*;
use core::ops::Range;
use itertools::Itertools;
use vstd::string::StringSliceAdditionalSpecFns;
use crate::text::{copy_all, copy_range, find, find_from, is_number, lines, number_value, parse_number, pieces, split, split_lines, split_on, answer, answer_text};

verus! {

/// A rating of a part.
pub type Num = u64;

/// One of the four ratings of a part.
#[derive(Clone, Copy, PartialEq, Eq, Debug, Structural)]
pub enum Category {
    X,
    M,
    A,
    S,
}

/// A comparison of a rule.
#[derive(Clone, Copy, PartialEq, Eq, Debug, Structural)]
pub enum RuleKind {
    GreaterThan,
    SmallerThan,
}

/// A comparison of a condition on a rating.
#[derive(Clone, Copy, PartialEq, Eq, Debug, Structural)]
pub enum ComparisonType {
    GreaterThan,
    GreaterEqual,
    SmallerThan,
    SmallerEqual,
}

impl RuleKind {
    /// The comparison that fails exactly when this one holds.
    pub fn compute_opposite(&self) -> (r: ComparisonType)
        ensures
            r == (match *self {
                RuleKind::GreaterThan => ComparisonType::SmallerEqual,
                RuleKind::SmallerThan => ComparisonType::GreaterEqual,
            }),
    {
        match self {
            RuleKind::GreaterThan => ComparisonType::SmallerEqual,
            RuleKind::SmallerThan => ComparisonType::GreaterEqual,
        }
    }

    /// The same comparison, as a condition.
    pub fn compute_same(&self) -> (r: ComparisonType)
        ensures
            r == (match *self {
                RuleKind::GreaterThan => ComparisonType::GreaterThan,
                RuleKind::SmallerThan => ComparisonType::SmallerThan,
            }),
    {
        match self {
            RuleKind::GreaterThan => ComparisonType::GreaterThan,
            RuleKind::SmallerThan => ComparisonType::SmallerThan,
        }
    }
}

/// What a rule or workflow does with a part.
#[derive(Debug, PartialEq, Eq)]
pub enum RuleResult {
    Accepted,
    Rejected,
    Workflow(Vec<u8>),
}

/// The mathematical form of a rule result.
pub enum ResultView {
    Accepted,
    Rejected,
    Workflow(Seq<u8>),
}

impl View for RuleResult {
    type V = ResultView;

    open spec fn view(&self) -> ResultView {
        match self {
            RuleResult::Accepted => ResultView::Accepted,
            RuleResult::Rejected => ResultView::Rejected,
            RuleResult::Workflow(id) => ResultView::Workflow(id@),
        }
    }
}

impl RuleResult {
    /// An independent copy.
    pub fn duplicate(&self) -> (r: RuleResult)
        ensures
            r@ == self@,
    {
        match self {
            RuleResult::Accepted => RuleResult::Accepted,
            RuleResult::Rejected => RuleResult::Rejected,
            RuleResult::Workflow(id) => RuleResult::Workflow(crate::text::copy_all(id.as_slice())),
        }
    }
}

/// A part and its four ratings.
#[derive(Debug, Clone, Copy)]
pub struct Part {
    pub x: Num,
    pub m: Num,
    pub a: Num,
    pub s: Num,
}

impl Part {
    /// The sum of the ratings.
    pub fn get_score(&self) -> (r: Num)
        requires
            self.x + self.m + self.a + self.s <= u64::MAX,
        ensures
            r == self.x + self.m + self.a + self.s,
    {
        self.x + self.m + self.a + self.s
    }
}

/// The rating of category `c`.
pub open spec fn rating(p: Part, c: Category) -> Num {
    match c {
        Category::X => p.x,
        Category::M => p.m,
        Category::A => p.a,
        Category::S => p.s,
    }
}

/// A rule: if the rating of `category` compares with `compared_to` as
/// `rule_kind` says, `result` happens.
#[derive(Debug)]
pub struct Rule {
    pub rule_kind: RuleKind,
    pub compared_to: Num,
    pub category: Category,
    pub result: RuleResult,
}

/// The rule holds of the part.
pub open spec fn rule_holds(r: &Rule, p: Part) -> bool {
    match r.rule_kind {
        RuleKind::GreaterThan => rating(p, r.category) > r.compared_to,
        RuleKind::SmallerThan => rating(p, r.category) < r.compared_to,
    }
}

/// What a rule does with a part: its result, or to go on to the next rule.
pub enum ActualResult {
    Rule(RuleResult),
    Continue,
}

impl Rule {
    /// Its result if the rule holds of the part, else go on.
    pub fn apply_to(&self, part: &Part) -> (r: ActualResult)
        ensures
            rule_holds(self, *part) ==> (r matches ActualResult::Rule(x) && x@ == self.result@),
            !rule_holds(self, *part) ==> r is Continue,
    {
        let num = match self.category {
            Category::X => part.x,
            Category::M => part.m,
            Category::A => part.a,
            Category::S => part.s,
        };
        let condition_accepted = match self.rule_kind {
            RuleKind::GreaterThan => num > self.compared_to,
            RuleKind::SmallerThan => num < self.compared_to,
        };
        if condition_accepted {
            ActualResult::Rule(self.result.duplicate())
        } else {
            ActualResult::Continue
        }
    }
}

/// A workflow: its name, its rules in order, and what happens when none
/// holds.
#[derive(Debug)]
pub struct Workflow {
    pub id: Vec<u8>,
    pub rules: Vec<Rule>,
    pub default_result: RuleResult,
}

/// The result of the first of the rules from `k` on that holds of the part,
/// else `default`.
pub open spec fn first_result(rules: Seq<Rule>, p: Part, k: int, default: ResultView) -> ResultView
    decreases rules.len() - k,
{
    if k < 0 || k >= rules.len() {
        default
    } else if rule_holds(&rules[k], p) {
        rules[k].result@
    } else {
        first_result(rules, p, k + 1, default)
    }
}

/// What a workflow does with a part.
pub open spec fn workflow_result(w: &Workflow, p: Part) -> ResultView {
    first_result(w.rules@, p, 0, w.default_result@)
}

impl Workflow {
    /// The result of the first rule that holds of the part, else the
    /// default result.
    pub fn apply_to(&self, part: &Part) -> (r: RuleResult)
        ensures
            r@ == workflow_result(self, *part),
    {
        let mut k: usize = 0;
        while k < self.rules.len()
            invariant
                k <= self.rules@.len(),
                workflow_result(self, *part) == first_result(self.rules@, *part, k as int, self.default_result@),
            decreases self.rules@.len() - k,
        {
            let result = self.rules[k].apply_to(part);
            if let ActualResult::Rule(rule_result) = result {
                return rule_result;
            }
            k = k + 1;
        }
        self.default_result.duplicate()
    }
}

/// The smaller of two ratings.
pub open spec fn nmin(a: Num, b: Num) -> Num {
    if a < b { a } else { b }
}

/// The larger of two ratings.
pub open spec fn nmax(a: Num, b: Num) -> Num {
    if a > b { a } else { b }
}

/// The ratings in both ranges.
pub fn intersection(range1: &Range<Num>, range2: &Range<Num>) -> (r: Range<Num>)
    ensures
        r.start == nmax(range1.start, range2.start),
        r.end == nmin(range1.end, range2.end),
{
    Range {
        start: if range1.start > range2.start { range1.start } else { range2.start },
        end: if range1.end < range2.end { range1.end } else { range2.end },
    }
}

/// A box of parts: a range of ratings for each category.
#[derive(Debug)]
pub struct RangePart {
    pub x: Range<Num>,
    pub m: Range<Num>,
    pub a: Range<Num>,
    pub s: Range<Num>,
}

/// The number of ratings in a range (0 for an empty one).
pub open spec fn range_len(r: Range<Num>) -> nat {
    if r.end > r.start { (r.end - r.start) as nat } else { 0 }
}

/// The number of parts in the box.
pub open spec fn box_size(b: &RangePart) -> nat {
    range_len(b.x) * range_len(b.m) * range_len(b.a) * range_len(b.s)
}

impl RangePart {
    /// The box of all parts with ratings from 1 to 4000.
    pub fn new() -> (r: RangePart)
        ensures
            r.x.start == 1 && r.x.end == 4001 && r.m.start == 1 && r.m.end == 4001,
            r.a.start == 1 && r.a.end == 4001 && r.s.start == 1 && r.s.end == 4001,
    {
        RangePart { x: 1..4001, m: 1..4001, a: 1..4001, s: 1..4001 }
    }

    /// The parts in both boxes.
    pub fn intersection(&self, range_part: &RangePart) -> (r: RangePart)
        ensures
            r.x.start == nmax(self.x.start, range_part.x.start) && r.x.end == nmin(self.x.end, range_part.x.end),
            r.m.start == nmax(self.m.start, range_part.m.start) && r.m.end == nmin(self.m.end, range_part.m.end),
            r.a.start == nmax(self.a.start, range_part.a.start) && r.a.end == nmin(self.a.end, range_part.a.end),
            r.s.start == nmax(self.s.start, range_part.s.start) && r.s.end == nmin(self.s.end, range_part.s.end),
    {
        RangePart {
            x: intersection(&self.x, &range_part.x),
            m: intersection(&self.m, &range_part.m),
            a: intersection(&self.a, &range_part.a),
            s: intersection(&self.s, &range_part.s),
        }
    }

    /// The number of parts in the box.
    pub fn compute_size(&self) -> (r: u128)
        requires
            range_len(self.x) * range_len(self.m) * range_len(self.a) <= u128::MAX,
            box_size(self) <= u128::MAX,
        ensures
            r == box_size(self),
    {
        let lx: u128 = if self.x.end > self.x.start { (self.x.end - self.x.start) as u128 } else { 0 };
        let lm: u128 = if self.m.end > self.m.start { (self.m.end - self.m.start) as u128 } else { 0 };
        let la: u128 = if self.a.end > self.a.start { (self.a.end - self.a.start) as u128 } else { 0 };
        let ls: u128 = if self.s.end > self.s.start { (self.s.end - self.s.start) as u128 } else { 0 };
        assert(lx * lm <= 0xffff_ffff_ffff_ffff_ffff_ffff_ffff_ffff) by (nonlinear_arith)
            requires lx <= 0xffff_ffff_ffff_ffff, lm <= 0xffff_ffff_ffff_ffff;
        lx * lm * la * ls
    }
}

/// The range of category `c` of the box.
pub open spec fn range_of(b: &RangePart, c: Category) -> Range<Num> {
    match c {
        Category::X => b.x,
        Category::M => b.m,
        Category::A => b.a,
        Category::S => b.s,
    }
}

/// The largest start of category `c` over the first `n` boxes, at least 1.
pub open spec fn fold_start(bs: Seq<RangePart>, c: Category, n: int) -> Num
    decreases n,
{
    if n <= 0 {
        1
    } else {
        nmax(fold_start(bs, c, n - 1), range_of(&bs[n - 1], c).start)
    }
}

/// The smallest end of category `c` over the first `n` boxes, at most 4001.
pub open spec fn fold_end(bs: Seq<RangePart>, c: Category, n: int) -> Num
    decreases n,
{
    if n <= 0 {
        4001
    } else {
        nmin(fold_end(bs, c, n - 1), range_of(&bs[n - 1], c).end)
    }
}

impl RangePart {
    /// The parts in every box of `range_parts` (among ratings 1 to 4000);
    /// `None` for no box.
    pub fn intersection_slice(range_parts: &[RangePart]) -> (r: Option<RangePart>)
        ensures
            range_parts@.len() == 0 <==> r is None,
            r matches Some(b) ==> forall|c: Category|
                #![trigger range_of(&b, c)]
                range_of(&b, c).start == fold_start(range_parts@, c, range_parts@.len() as int) && range_of(&b, c).end
                    == fold_end(range_parts@, c, range_parts@.len() as int),
    {
        if range_parts.len() == 0 {
            return None;
        }
        let mut acc = RangePart::new();
        let mut i: usize = 0;
        while i < range_parts.len()
            invariant
                i <= range_parts@.len(),
                forall|c: Category|
                    #![trigger range_of(&acc, c)]
                    range_of(&acc, c).start == fold_start(range_parts@, c, i as int) && range_of(&acc, c).end
                        == fold_end(range_parts@, c, i as int),
            decreases range_parts@.len() - i,
        {
            let ghost old_acc = acc;
            acc = acc.intersection(&range_parts[i]);
            assert forall|c: Category| #![trigger range_of(&acc, c)]
                range_of(&acc, c).start == fold_start(range_parts@, c, i + 1) && range_of(&acc, c).end
                    == fold_end(range_parts@, c, i + 1) by {
                assert(range_of(&old_acc, c).start == fold_start(range_parts@, c, i as int));
                assert(range_of(&old_acc, c).end == fold_end(range_parts@, c, i as int));
                match c {
                    Category::X => {},
                    Category::M => {},
                    Category::A => {},
                    Category::S => {},
                }
            }
            i = i + 1;
        }
        Some(acc)
    }
}

/// A condition on one rating.
#[derive(Clone, Copy, PartialEq, Eq, Debug, Structural)]
pub struct ElementaryCondition {
    pub category: Category,
    pub rule_kind: ComparisonType,
    pub compared_to: Num,
}

/// Where a part that meets some conditions goes: accepted, or to a
/// workflow.
#[derive(Debug, PartialEq, Eq)]
pub enum FollowUp {
    Accepted,
    Id(Vec<u8>),
}

/// Conditions under which a workflow accepts a part or sends it on.
#[derive(Debug)]
pub struct AcceptingConditionsWithFollowUp {
    pub conditions: Vec<ElementaryCondition>,
    pub follow_up: FollowUp,
}

/// The mathematical form of conditions with their follow-up: `None` for
/// acceptance, else the workflow's name.
pub open spec fn cond_view(a: &AcceptingConditionsWithFollowUp) -> (Seq<ElementaryCondition>, Option<Seq<u8>>) {
    (a.conditions@, match &a.follow_up {
        FollowUp::Accepted => None,
        FollowUp::Id(id) => Some(id@),
    })
}

/// The condition that rule `r` holds.
pub open spec fn same_condition(r: &Rule) -> ElementaryCondition {
    ElementaryCondition {
        category: r.category,
        rule_kind: match r.rule_kind {
            RuleKind::GreaterThan => ComparisonType::GreaterThan,
            RuleKind::SmallerThan => ComparisonType::SmallerThan,
        },
        compared_to: r.compared_to,
    }
}

/// The condition that rule `r` does not hold.
pub open spec fn opposite_condition(r: &Rule) -> ElementaryCondition {
    ElementaryCondition {
        category: r.category,
        rule_kind: match r.rule_kind {
            RuleKind::GreaterThan => ComparisonType::SmallerEqual,
            RuleKind::SmallerThan => ComparisonType::GreaterEqual,
        },
        compared_to: r.compared_to,
    }
}

/// The conditions that none of the first `k` rules hold.
pub open spec fn none_hold(rules: Seq<Rule>, k: int) -> Seq<ElementaryCondition>
    decreases k,
{
    if k <= 0 {
        seq![]
    } else {
        none_hold(rules, k - 1).push(opposite_condition(&rules[k - 1]))
    }
}

/// The entry for reaching a result under `conds`: none for a rejection.
pub open spec fn entry_for(conds: Seq<ElementaryCondition>, res: ResultView) -> Seq<(Seq<ElementaryCondition>, Option<Seq<u8>>)> {
    match res {
        ResultView::Accepted => seq![(conds, None)],
        ResultView::Workflow(id) => seq![(conds, Some(id))],
        ResultView::Rejected => seq![],
    }
}

/// The entries of the first `k` rules: for each that accepts or sends on,
/// the conditions that the rules before it fail and it holds.
pub open spec fn rule_entries(rules: Seq<Rule>, k: int) -> Seq<(Seq<ElementaryCondition>, Option<Seq<u8>>)>
    decreases k,
{
    if k <= 0 {
        seq![]
    } else {
        rule_entries(rules, k - 1) + entry_for(none_hold(rules, k - 1).push(same_condition(&rules[k - 1])), rules[k - 1].result@)
    }
}

/// Each way through the workflow that does not reject: the conditions met
/// and where the part goes.
pub open spec fn accepting_entries(w: &Workflow) -> Seq<(Seq<ElementaryCondition>, Option<Seq<u8>>)> {
    rule_entries(w.rules@, w.rules@.len() as int) + entry_for(none_hold(w.rules@, w.rules@.len() as int), w.default_result@)
}

/// The mathematical form of a list of entries.
pub open spec fn cond_views(v: Seq<AcceptingConditionsWithFollowUp>) -> Seq<(Seq<ElementaryCondition>, Option<Seq<u8>>)> {
    v.map_values(|a: AcceptingConditionsWithFollowUp| cond_view(&a))
}

/// The entry for reaching `res` under `conds`, if it does not reject.
fn make_entry(conds: Vec<ElementaryCondition>, res: &RuleResult) -> (r: Option<AcceptingConditionsWithFollowUp>)
    ensures
        match r {
            Some(a) => entry_for(conds@, res@) == seq![cond_view(&a)],
            None => entry_for(conds@, res@) == Seq::<(Seq<ElementaryCondition>, Option<Seq<u8>>)>::empty(),
        },
{
    match res {
        RuleResult::Accepted => Some(AcceptingConditionsWithFollowUp { conditions: conds, follow_up: FollowUp::Accepted }),
        RuleResult::Workflow(id) => Some(
            AcceptingConditionsWithFollowUp { conditions: conds, follow_up: FollowUp::Id(crate::text::copy_all(id.as_slice())) },
        ),
        RuleResult::Rejected => None,
    }
}

impl Workflow {
    /// Each way through the workflow that does not reject: the conditions
    /// that the rules before fail and the rule holds, and where the part
    /// goes; last, the way through no rule.
    pub fn find_conditions_for_accepting(&self) -> (r: Vec<AcceptingConditionsWithFollowUp>)
        ensures
            cond_views(r@) == accepting_entries(self),
    {
        let ghost rules = self.rules@;
        let mut current_conditions: Vec<ElementaryCondition> = Vec::new();
        let mut result: Vec<AcceptingConditionsWithFollowUp> = Vec::new();
        let mut k: usize = 0;
        assert(cond_views(result@) =~= rule_entries(rules, 0));
        while k < self.rules.len()
            invariant
                k <= rules.len(),
                rules == self.rules@,
                current_conditions@ == none_hold(rules, k as int),
                cond_views(result@) == rule_entries(rules, k as int),
            decreases rules.len() - k,
        {
            let rule = &self.rules[k];
            let valid_condition = ElementaryCondition {
                category: rule.category,
                rule_kind: rule.rule_kind.compute_same(),
                compared_to: rule.compared_to,
            };
            let invalid_condition = ElementaryCondition {
                category: rule.category,
                rule_kind: rule.rule_kind.compute_opposite(),
                compared_to: rule.compared_to,
            };
            let mut all_conditions = crate::text::copy_vec(&current_conditions);
            all_conditions.push(valid_condition);
            let ghost before = cond_views(result@);
            match make_entry(all_conditions, &rule.result) {
                Some(e) => {
                    let ghost ev = cond_view(&e);
                    result.push(e);
                    assert(cond_views(result@) =~= before + seq![ev]);
                },
                None => {
                    assert(cond_views(result@) =~= before + Seq::<(Seq<ElementaryCondition>, Option<Seq<u8>>)>::empty());
                },
            }
            current_conditions.push(invalid_condition);
            k = k + 1;
        }
        let ghost before = cond_views(result@);
        match make_entry(crate::text::copy_vec(&current_conditions), &self.default_result) {
            Some(e) => {
                let ghost ev = cond_view(&e);
                result.push(e);
                assert(cond_views(result@) =~= before + seq![ev]);
            },
            None => {
                assert(cond_views(result@) =~= before + Seq::<(Seq<ElementaryCondition>, Option<Seq<u8>>)>::empty());
            },
        }
        result
    }
}

/// A list of workflows and parts.
pub struct Day19 {
    pub workflows: Vec<Workflow>,
    pub parts: Vec<Part>,
}

/// The first workflow named `id`.
pub open spec fn find_workflow(ws: Seq<Workflow>, id: Seq<u8>, k: int) -> Option<int>
    decreases ws.len() - k,
{
    if k < 0 || k >= ws.len() {
        None
    } else if ws[k].id@ == id {
        Some(k)
    } else {
        find_workflow(ws, id, k + 1)
    }
}

/// Following the part from workflow `id` for at most `fuel` workflows:
/// whether it is accepted, or `None` if it meets a missing workflow or
/// runs out of fuel.
pub open spec fn run(ws: Seq<Workflow>, p: Part, id: Seq<u8>, fuel: nat) -> Option<bool>
    decreases fuel,
{
    if fuel == 0 {
        None
    } else {
        match find_workflow(ws, id, 0) {
            None => None,
            Some(k) => match workflow_result(&ws[k], p) {
                ResultView::Accepted => Some(true),
                ResultView::Rejected => Some(false),
                ResultView::Workflow(next) => run(ws, p, next, (fuel - 1) as nat),
            },
        }
    }
}

proof fn lemma_find_workflow_bound(ws: Seq<Workflow>, id: Seq<u8>, k: int)
    ensures
        find_workflow(ws, id, k) matches Some(i) ==> 0 <= i < ws.len() && ws[i].id@ == id,
    decreases ws.len() - k,
{
    if 0 <= k < ws.len() && ws[k].id@ != id {
        lemma_find_workflow_bound(ws, id, k + 1);
    }
}

/// The name of the first workflow.
pub open spec fn in_id() -> Seq<u8> {
    seq![105u8, 110u8]
}

impl Day19 {
    /// The first workflow named `id`.
    fn workflow_index(&self, id: &Vec<u8>) -> (r: Option<usize>)
        ensures
            r matches Some(k) ==> find_workflow(self.workflows@, id@, 0) == Some(k as int),
            r is None ==> find_workflow(self.workflows@, id@, 0) is None,
    {
        let mut k: usize = 0;
        while k < self.workflows.len()
            invariant
                k <= self.workflows@.len(),
                find_workflow(self.workflows@, id@, 0) == find_workflow(self.workflows@, id@, k as int),
            decreases self.workflows@.len() - k,
        {
            if crate::text::bytes_equal(self.workflows[k].id.as_slice(), id.as_slice()) {
                return Some(k);
            }
            k = k + 1;
        }
        None
    }

    /// Whether the workflows, from `in`, accept the part; `None` if they
    /// send it to a missing workflow or around a cycle (more workflows in a
    /// row than there are).
    pub fn does_accept(&self, part: &Part) -> (r: Option<bool>)
        ensures
            r == run(self.workflows@, *part, in_id(), (self.workflows@.len() + 1) as nat),
    {
        let mut id: Vec<u8> = Vec::new();
        id.push(105);
        id.push(110);
        assert(id@ =~= in_id());
        let mut fuel: u128 = self.workflows.len() as u128 + 1;
        while fuel > 0
            invariant
                run(self.workflows@, *part, id@, fuel as nat) == run(self.workflows@, *part, in_id(), (self.workflows@.len() + 1) as nat),
            decreases fuel,
        {
            let k = match self.workflow_index(&id) {
                Some(k) => {
                    proof { lemma_find_workflow_bound(self.workflows@, id@, 0); }
                    k
                },
                None => {
                    return None;
                },
            };
            match self.workflows[k].apply_to(part) {
                RuleResult::Accepted => {
                    return Some(true);
                },
                RuleResult::Rejected => {
                    return Some(false);
                },
                RuleResult::Workflow(next) => {
                    id = next;
                },
            }
            fuel = fuel - 1;
        }
        None
    }
}

/// The sum of the scores of the first `n` parts that the workflows accept,
/// or `None` if one of them does not settle.
pub open spec fn accepted_score(ws: Seq<Workflow>, ps: Seq<Part>, n: int) -> Option<nat>
    decreases n,
{
    if n <= 0 {
        Some(0)
    } else {
        match (accepted_score(ws, ps, n - 1), run(ws, ps[n - 1], in_id(), (ws.len() + 1) as nat)) {
            (Some(t), Some(true)) => Some((t + ps[n - 1].x + ps[n - 1].m + ps[n - 1].a + ps[n - 1].s) as nat),
            (Some(t), Some(false)) => Some(t),
            _ => None,
        }
    }
}

proof fn lemma_score_fails(ws: Seq<Workflow>, ps: Seq<Part>, i: int, n: int)
    requires
        0 <= i <= n,
        accepted_score(ws, ps, i) is None || (accepted_score(ws, ps, i) matches Some(t) && t > u64::MAX),
    ensures
        answer(accepted_score(ws, ps, n)) == Seq::<char>::empty(),
    decreases n - i,
{
    if i < n {
        lemma_score_fails(ws, ps, i + 1, n);
    }
}

impl Day19 {
    /// The sum of the ratings of the accepted parts; the empty text if a
    /// part does not settle.
    pub fn solution1(&self) -> (r: String)
        ensures
            r@ == answer(accepted_score(self.workflows@, self.parts@, self.parts@.len() as int)),
    {
        let mut total: u64 = 0;
        let mut i: usize = 0;
        while i < self.parts.len()
            invariant
                i <= self.parts@.len(),
                accepted_score(self.workflows@, self.parts@, i as int) == Some(total as nat),
            decreases self.parts@.len() - i,
        {
            let part = &self.parts[i];
            match self.does_accept(part) {
                Some(true) => {
                    let wide = total as u128 + part.x as u128 + part.m as u128 + part.a as u128 + part.s as u128;
                    if wide > u64::MAX as u128 {
                        proof { lemma_score_fails(self.workflows@, self.parts@, i + 1, self.parts@.len() as int); }
                        return String::new();
                    }
                    total = wide as u64;
                },
                Some(false) => {},
                None => {
                    proof { lemma_score_fails(self.workflows@, self.parts@, i + 1, self.parts@.len() as int); }
                    return String::new();
                },
            }
            i = i + 1;
        }
        answer_text(Some(total))
    }
}

/// What a name of a result stands for: `R` rejects, `A` accepts, anything
/// else names a workflow.
pub open spec fn result_of(w: Seq<u8>) -> ResultView {
    if w == seq![82u8] {
        ResultView::Rejected
    } else if w == seq![65u8] {
        ResultView::Accepted
    } else {
        ResultView::Workflow(w)
    }
}

/// The category that a byte names.
pub open spec fn category_of(b: u8) -> Option<Category> {
    if b == 120 {
        Some(Category::X)
    } else if b == 109 {
        Some(Category::M)
    } else if b == 97 {
        Some(Category::A)
    } else if b == 115 {
        Some(Category::S)
    } else {
        None
    }
}

/// The comparison that a byte names.
pub open spec fn kind_of(b: u8) -> Option<RuleKind> {
    if b == 62 {
        Some(RuleKind::GreaterThan)
    } else if b == 60 {
        Some(RuleKind::SmallerThan)
    } else {
        None
    }
}

/// The mathematical form of a rule: comparison, number, category, result.
pub type RuleView = (RuleKind, Num, Category, ResultView);

/// The mathematical form of a rule.
pub open spec fn rule_view(r: &Rule) -> RuleView {
    (r.rule_kind, r.compared_to, r.category, r.result@)
}

/// The rule that `s` writes: `<category><comparison><number>:<result>`.
pub open spec fn parse_rule_spec(s: Seq<u8>) -> Option<RuleView> {
    match find_from(s, seq![58u8], 0) {
        None => None,
        Some(k) => {
            let rule = s.subrange(0, k);
            let num = rule.subrange(2, rule.len() as int);
            if rule.len() >= 2 && category_of(rule[0]) is Some && kind_of(rule[1]) is Some && is_number(num)
                && number_value(num) <= u64::MAX {
                Some((kind_of(rule[1])->0, number_value(num) as u64, category_of(rule[0])->0, result_of(s.subrange(k + 1, s.len() as int))))
            } else {
                None
            }
        },
    }
}

/// `s` without its trailing `}`.
pub open spec fn trim_close(s: Seq<u8>) -> Seq<u8>
    decreases s.len(),
{
    if s.len() > 0 && s.last() == 125 {
        trim_close(s.drop_last())
    } else {
        s
    }
}

/// `s` without its leading braces.
pub open spec fn trim_open(s: Seq<u8>) -> Seq<u8>
    decreases s.len(),
{
    if s.len() > 0 && (s[0] == 123 || s[0] == 125) {
        trim_open(s.drop_first())
    } else {
        s
    }
}

/// `s` without its trailing braces.
pub open spec fn trim_braces_end(s: Seq<u8>) -> Seq<u8>
    decreases s.len(),
{
    if s.len() > 0 && (s.last() == 123 || s.last() == 125) {
        trim_braces_end(s.drop_last())
    } else {
        s
    }
}

/// The rules that the pieces write, if each writes one.
pub open spec fn rules_of(ps: Seq<Seq<u8>>) -> Option<Seq<RuleView>>
    decreases ps.len(),
{
    if ps.len() == 0 {
        Some(seq![])
    } else {
        match (rules_of(ps.drop_last()), parse_rule_spec(ps.last())) {
            (Some(v), Some(r)) => Some(v.push(r)),
            _ => None,
        }
    }
}

/// The mathematical form of a workflow: name, rules, default result.
pub type WorkflowView = (Seq<u8>, Seq<RuleView>, ResultView);

/// The mathematical form of a workflow.
pub open spec fn workflow_view(w: &Workflow) -> WorkflowView {
    (w.id@, w.rules@.map_values(|r: Rule| rule_view(&r)), w.default_result@)
}

/// The workflow that a line `<name>{<rule>,...,<default>}` writes.
pub open spec fn parse_workflow_spec(line: Seq<u8>) -> Option<WorkflowView> {
    match find_from(line, seq![123u8], 0) {
        None => None,
        Some(k) => {
            let ps = split(trim_close(line.subrange(k + 1, line.len() as int)), seq![44u8]);
            if ps.len() == 0 {
                None
            } else {
                match rules_of(ps.drop_last()) {
                    Some(rs) => Some((line.subrange(0, k), rs, result_of(ps.last()))),
                    None => None,
                }
            }
        }
    }
}

/// The values of the assignments `<name>=<number>`, if each has one.
pub open spec fn values_of(ps: Seq<Seq<u8>>) -> Option<Seq<u64>>
    decreases ps.len(),
{
    if ps.len() == 0 {
        Some(seq![])
    } else {
        let a = ps.last();
        let num = a.subrange(2, a.len() as int);
        match values_of(ps.drop_last()) {
            Some(v) => if a.len() >= 2 && is_number(num) && number_value(num) <= u64::MAX {
                Some(v.push(number_value(num) as u64))
            } else {
                None
            },
            None => None,
        }
    }
}

/// The ratings that a line `{x=<n>,m=<n>,a=<n>,s=<n>}` writes.
pub open spec fn parse_part_spec(line: Seq<u8>) -> Option<(u64, u64, u64, u64)> {
    match values_of(split(trim_braces_end(trim_open(line)), seq![44u8])) {
        Some(v) => if v.len() >= 4 { Some((v[0], v[1], v[2], v[3])) } else { None },
        None => None,
    }
}

/// The name of a result.
fn parse_result(w: &[u8]) -> (r: RuleResult)
    ensures
        r@ == result_of(w@),
{
    if w.len() == 1 && w[0] == 82 {
        assert(w@ =~= seq![82u8]);
        RuleResult::Rejected
    } else if w.len() == 1 && w[0] == 65 {
        assert(w@ =~= seq![65u8]);
        RuleResult::Accepted
    } else {
        proof {
            if w@ == seq![82u8] {
                assert(w@.len() == 1 && w@[0] == 82);
            }
            if w@ == seq![65u8] {
                assert(w@.len() == 1 && w@[0] == 65);
            }
        }
        RuleResult::Workflow(copy_all(w))
    }
}

impl Rule {
    /// Reads a rule `<category><comparison><number>:<result>`.
    pub fn parse(s: &[u8]) -> (r: Option<Rule>)
        ensures
            match parse_rule_spec(s@) {
                Some(v) => r matches Some(rule) && rule_view(&rule) == v,
                None => r is None,
            },
    {
        let colon: [u8; 1] = [58];
        assert(colon@ =~= seq![58u8]);
        let k = match find(s, &colon, 0) {
            Some(k) => k,
            None => {
                return None;
            },
        };
        proof {
            crate::text::lemma_find_from_bounds(s@, seq![58u8], 0);
        }
        if k < 2 {
            return None;
        }
        let category = if s[0] == 120 {
            Category::X
        } else if s[0] == 109 {
            Category::M
        } else if s[0] == 97 {
            Category::A
        } else if s[0] == 115 {
            Category::S
        } else {
            return None;
        };
        let rule_kind = if s[1] == 62 {
            RuleKind::GreaterThan
        } else if s[1] == 60 {
            RuleKind::SmallerThan
        } else {
            return None;
        };
        let num = copy_range(s, 2, k);
        assert(num@ =~= s@.subrange(0, k as int).subrange(2, k as int));
        let compared_to = match parse_number(num.as_slice()) {
            Some(v) => v,
            None => {
                return None;
            },
        };
        let n = s.len();
        let res = copy_range(s, k + 1, n);
        let result = parse_result(res.as_slice());
        Some(Rule { rule_kind, compared_to, category, result })
    }
}

/// `s` without its trailing `}`.
fn strip_close(s: &[u8]) -> (r: Vec<u8>)
    ensures
        r@ == trim_close(s@),
{
    let mut b: usize = s.len();
    assert(s@.subrange(0, b as int) =~= s@);
    while b > 0 && s[b - 1] == 125
        invariant
            b <= s@.len(),
            trim_close(s@) == trim_close(s@.subrange(0, b as int)),
        decreases b,
    {
        assert(s@.subrange(0, b as int).drop_last() =~= s@.subrange(0, b - 1));
        b = b - 1;
    }
    copy_range(s, 0, b)
}

/// `s` without its leading and trailing braces.
fn strip_braces(s: &[u8]) -> (r: Vec<u8>)
    ensures
        r@ == trim_braces_end(trim_open(s@)),
{
    let mut a: usize = 0;
    assert(s@.subrange(0, s@.len() as int) =~= s@);
    while a < s.len() && (s[a] == 123 || s[a] == 125)
        invariant
            a <= s@.len(),
            trim_open(s@) == trim_open(s@.subrange(a as int, s@.len() as int)),
        decreases s@.len() - a,
    {
        assert(s@.subrange(a as int, s@.len() as int).drop_first() =~= s@.subrange(a + 1, s@.len() as int));
        a = a + 1;
    }
    assert(trim_open(s@) == s@.subrange(a as int, s@.len() as int));
    let mut b: usize = s.len();
    assert(s@.subrange(a as int, b as int) == trim_open(s@));
    while b > a && (s[b - 1] == 123 || s[b - 1] == 125)
        invariant
            a <= b <= s@.len(),
            trim_braces_end(trim_open(s@)) == trim_braces_end(s@.subrange(a as int, b as int)),
        decreases b,
    {
        assert(s@.subrange(a as int, b as int).drop_last() =~= s@.subrange(a as int, b - 1));
        b = b - 1;
    }
    copy_range(s, a, b)
}

proof fn lemma_rules_none(ps: Seq<Seq<u8>>, i: int)
    requires
        0 <= i <= ps.len(),
        rules_of(ps.subrange(0, i)) is None,
    ensures
        rules_of(ps) is None,
    decreases ps.len() - i,
{
    if i < ps.len() {
        assert(ps.subrange(0, i + 1).drop_last() =~= ps.subrange(0, i));
        lemma_rules_none(ps, i + 1);
    } else {
        assert(ps.subrange(0, i) =~= ps);
    }
}

proof fn lemma_values_none(ps: Seq<Seq<u8>>, i: int)
    requires
        0 <= i <= ps.len(),
        values_of(ps.subrange(0, i)) is None,
    ensures
        values_of(ps) is None,
    decreases ps.len() - i,
{
    if i < ps.len() {
        assert(ps.subrange(0, i + 1).drop_last() =~= ps.subrange(0, i));
        lemma_values_none(ps, i + 1);
    } else {
        assert(ps.subrange(0, i) =~= ps);
    }
}

impl Workflow {
    /// Reads a workflow `<name>{<rule>,...,<default>}`.
    pub fn parse(line: &[u8]) -> (r: Option<Workflow>)
        ensures
            match parse_workflow_spec(line@) {
                Some(v) => r matches Some(w) && workflow_view(&w) == v,
                None => r is None,
            },
    {
        let open: [u8; 1] = [123];
        assert(open@ =~= seq![123u8]);
        let k = match find(line, &open, 0) {
            Some(k) => k,
            None => {
                return None;
            },
        };
        proof {
            crate::text::lemma_find_from_bounds(line@, seq![123u8], 0);
        }
        let n = line.len();
        let rest = copy_range(line, k + 1, n);
        let body = strip_close(rest.as_slice());
        let comma: [u8; 1] = [44];
        assert(comma@ =~= seq![44u8]);
        let parts = split_on(body.as_slice(), &comma);
        let ghost ps = pieces(parts@);
        if parts.len() == 0 {
            return None;
        }
        let last = parts.len() - 1;
        let mut rules: Vec<Rule> = Vec::new();
        let mut i: usize = 0;
        let ghost rp = ps.drop_last();
        assert(rp.subrange(0, 0) =~= seq![]);
        assert(rules@.map_values(|r: Rule| rule_view(&r)) =~= seq![]);
        while i < last
            invariant
                i <= last == ps.len() - 1,
                ps == pieces(parts@),
                k < line@.len(),
                find_from(line@, seq![123u8], 0) == Some(k as int),
                ps == split(trim_close(line@.subrange(k + 1, line@.len() as int)), seq![44u8]),
                rp == ps.drop_last(),
                rules_of(rp.subrange(0, i as int)) == Some(rules@.map_values(|r: Rule| rule_view(&r))),
            decreases last - i,
        {
            assert(rp.subrange(0, i + 1).drop_last() =~= rp.subrange(0, i as int));
            assert(rp.subrange(0, i + 1).last() == parts@[i as int]@);
            match Rule::parse(parts[i].as_slice()) {
                Some(rule) => {
                    let ghost before = rules@.map_values(|r: Rule| rule_view(&r));
                    let ghost rv = rule_view(&rule);
                    rules.push(rule);
                    assert(rules@.map_values(|r: Rule| rule_view(&r)) =~= before.push(rv));
                },
                None => {
                    proof { lemma_rules_none(rp, i + 1); }
                    return None;
                },
            }
            i = i + 1;
        }
        assert(rp.subrange(0, i as int) =~= rp);
        assert(ps.last() == parts@[last as int]@);
        let default_result = parse_result(parts[last].as_slice());
        Some(Workflow { id: copy_range(line, 0, k), rules, default_result })
    }
}

impl Part {
    /// Reads a part `{x=<n>,m=<n>,a=<n>,s=<n>}`.
    pub fn parse(line: &[u8]) -> (r: Option<Part>)
        ensures
            match parse_part_spec(line@) {
                Some((x, m, a, s)) => r matches Some(p) && p.x == x && p.m == m && p.a == a && p.s == s,
                None => r is None,
            },
    {
        let body = strip_braces(line);
        let comma: [u8; 1] = [44];
        assert(comma@ =~= seq![44u8]);
        let parts = split_on(body.as_slice(), &comma);
        let ghost ps = pieces(parts@);
        let mut values: Vec<u64> = Vec::new();
        let mut i: usize = 0;
        assert(ps.subrange(0, 0) =~= seq![]);
        while i < parts.len()
            invariant
                i <= parts@.len(),
                ps == pieces(parts@),
                ps == split(trim_braces_end(trim_open(line@)), seq![44u8]),
                values_of(ps.subrange(0, i as int)) == Some(values@),
            decreases parts@.len() - i,
        {
            assert(ps.subrange(0, i + 1).drop_last() =~= ps.subrange(0, i as int));
            assert(ps.subrange(0, i + 1).last() == parts@[i as int]@);
            let a = &parts[i];
            if a.len() < 2 {
                proof { lemma_values_none(ps, i + 1); }
                return None;
            }
            let num = copy_range(a.as_slice(), 2, a.len());
            match parse_number(num.as_slice()) {
                Some(v) => {
                    values.push(v);
                },
                None => {
                    proof { lemma_values_none(ps, i + 1); }
                    return None;
                },
            }
            i = i + 1;
        }
        assert(ps.subrange(0, i as int) =~= ps);
        if values.len() < 4 {
            return None;
        }
        Some(Part { x: values[0], m: values[1], a: values[2], s: values[3] })
    }
}

/// The workflows and parts that the text writes: workflow lines, a blank
/// line, then part lines.
pub open spec fn parse_system(t: Seq<u8>) -> Option<(Seq<WorkflowView>, Seq<(u64, u64, u64, u64)>)> {
    match find_from(t, seq![10u8, 10u8], 0) {
        None => None,
        Some(k) => match (
            workflows_of(lines(t.subrange(0, k))),
            parts_of(lines(t.subrange(k + 2, t.len() as int))),
        ) {
            (Some(w), Some(p)) => Some((w, p)),
            _ => None,
        },
    }
}

/// The workflows that the lines write, if each writes one.
pub open spec fn workflows_of(ls: Seq<Seq<u8>>) -> Option<Seq<WorkflowView>>
    decreases ls.len(),
{
    if ls.len() == 0 {
        Some(seq![])
    } else {
        match (workflows_of(ls.drop_last()), parse_workflow_spec(ls.last())) {
            (Some(v), Some(w)) => Some(v.push(w)),
            _ => None,
        }
    }
}

/// The parts that the lines write, if each writes one.
pub open spec fn parts_of(ls: Seq<Seq<u8>>) -> Option<Seq<(u64, u64, u64, u64)>>
    decreases ls.len(),
{
    if ls.len() == 0 {
        Some(seq![])
    } else {
        match (parts_of(ls.drop_last()), parse_part_spec(ls.last())) {
            (Some(v), Some(p)) => Some(v.push(p)),
            _ => None,
        }
    }
}

proof fn lemma_workflows_none(ls: Seq<Seq<u8>>, i: int)
    requires
        0 <= i <= ls.len(),
        workflows_of(ls.subrange(0, i)) is None,
    ensures
        workflows_of(ls) is None,
    decreases ls.len() - i,
{
    if i < ls.len() {
        assert(ls.subrange(0, i + 1).drop_last() =~= ls.subrange(0, i));
        lemma_workflows_none(ls, i + 1);
    } else {
        assert(ls.subrange(0, i) =~= ls);
    }
}

proof fn lemma_parts_none(ls: Seq<Seq<u8>>, i: int)
    requires
        0 <= i <= ls.len(),
        parts_of(ls.subrange(0, i)) is None,
    ensures
        parts_of(ls) is None,
    decreases ls.len() - i,
{
    if i < ls.len() {
        assert(ls.subrange(0, i + 1).drop_last() =~= ls.subrange(0, i));
        lemma_parts_none(ls, i + 1);
    } else {
        assert(ls.subrange(0, i) =~= ls);
    }
}

/// The ratings of a part.
pub open spec fn part_view(p: Part) -> (u64, u64, u64, u64) {
    (p.x, p.m, p.a, p.s)
}

impl Day19 {
    /// Reads the workflows, a blank line, then the parts; `None` if a line
    /// does not read.
    pub fn make_day(input: &str) -> (r: Option<Day19>)
        ensures
            match parse_system(input.spec_bytes()) {
                Some((w, p)) => r matches Some(d) && d.workflows@.map_values(|x: Workflow| workflow_view(&x)) == w
                    && d.parts@.map_values(|x: Part| part_view(x)) == p,
                None => r is None,
            },
    {
        let t = input.as_bytes();
        let sep: [u8; 2] = [10, 10];
        assert(sep@ =~= seq![10u8, 10u8]);
        let k = match find(t, &sep, 0) {
            Some(k) => k,
            None => {
                return None;
            },
        };
        proof {
            crate::text::lemma_find_from_bounds(t@, seq![10u8, 10u8], 0);
        }
        let head = copy_range(t, 0, k);
        let n = t.len();
        let tail = copy_range(t, k + 2, n);
        let wl = split_lines(head.as_slice());
        let ghost wp = pieces(wl@);
        let mut workflows: Vec<Workflow> = Vec::new();
        let mut i: usize = 0;
        assert(wp.subrange(0, 0) =~= seq![]);
        assert(workflows@.map_values(|x: Workflow| workflow_view(&x)) =~= seq![]);
        while i < wl.len()
            invariant
                i <= wl@.len(),
                wp == pieces(wl@),
                k + 2 <= t@.len(),
                t@ == input.spec_bytes(),
                find_from(t@, seq![10u8, 10u8], 0) == Some(k as int),
                wp == lines(t@.subrange(0, k as int)),
                workflows_of(wp.subrange(0, i as int)) == Some(workflows@.map_values(|x: Workflow| workflow_view(&x))),
            decreases wl@.len() - i,
        {
            assert(wp.subrange(0, i + 1).drop_last() =~= wp.subrange(0, i as int));
            assert(wp.subrange(0, i + 1).last() == wl@[i as int]@);
            match Workflow::parse(wl[i].as_slice()) {
                Some(w) => {
                    let ghost before = workflows@.map_values(|x: Workflow| workflow_view(&x));
                    let ghost wv = workflow_view(&w);
                    workflows.push(w);
                    assert(workflows@.map_values(|x: Workflow| workflow_view(&x)) =~= before.push(wv));
                },
                None => {
                    proof { lemma_workflows_none(wp, i + 1); }
                    return None;
                },
            }
            i = i + 1;
        }
        assert(wp.subrange(0, i as int) =~= wp);
        let pl = split_lines(tail.as_slice());
        let ghost pp = pieces(pl@);
        let mut parts: Vec<Part> = Vec::new();
        let mut j: usize = 0;
        assert(pp.subrange(0, 0) =~= seq![]);
        assert(parts@.map_values(|x: Part| part_view(x)) =~= seq![]);
        while j < pl.len()
            invariant
                j <= pl@.len(),
                pp == pieces(pl@),
                k + 2 <= t@.len(),
                t@ == input.spec_bytes(),
                find_from(t@, seq![10u8, 10u8], 0) == Some(k as int),
                wp == lines(t@.subrange(0, k as int)),
                pp == lines(t@.subrange(k + 2, t@.len() as int)),
                workflows_of(wp) == Some(workflows@.map_values(|x: Workflow| workflow_view(&x))),
                parts_of(pp.subrange(0, j as int)) == Some(parts@.map_values(|x: Part| part_view(x))),
            decreases pl@.len() - j,
        {
            assert(pp.subrange(0, j + 1).drop_last() =~= pp.subrange(0, j as int));
            assert(pp.subrange(0, j + 1).last() == pl@[j as int]@);
            match Part::parse(pl[j].as_slice()) {
                Some(p) => {
                    let ghost before = parts@.map_values(|x: Part| part_view(x));
                    parts.push(p);
                    assert(parts@.map_values(|x: Part| part_view(x)) =~= before.push(part_view(p)));
                },
                None => {
                    proof { lemma_parts_none(pp, j + 1); }
                    return None;
                },
            }
            j = j + 1;
        }
        assert(pp.subrange(0, j as int) =~= pp);
        Some(Day19 { workflows, parts })
    }
}

/// The conditions under which the workflow named `id` accepts a part, one
/// list per way, following workflows for at most `fuel` steps; `None` for a
/// missing workflow or a cycle.
pub open spec fn conditions_from(ws: Seq<Workflow>, id: Seq<u8>, fuel: nat) -> Option<Seq<Seq<ElementaryCondition>>>
    decreases fuel, 0nat,
{
    if fuel == 0 {
        None
    } else {
        match find_workflow(ws, id, 0) {
            None => None,
            Some(k) => {
                let es = accepting_entries(&ws[k]);
                expand(ws, es, es.len() as int, (fuel - 1) as nat)
            },
        }
    }
}

/// Each list of `sub` followed by `tail`.
pub open spec fn append_all(sub: Seq<Seq<ElementaryCondition>>, tail: Seq<ElementaryCondition>) -> Seq<Seq<ElementaryCondition>> {
    sub.map_values(|c: Seq<ElementaryCondition>| c + tail)
}

/// The ways through the first `n` entries `es`: an accepting entry is one
/// way; an entry that sends on adds each way through that workflow, with
/// the entry's conditions after its own.
pub open spec fn expand(ws: Seq<Workflow>, es: Seq<(Seq<ElementaryCondition>, Option<Seq<u8>>)>, n: int, fuel: nat) -> Option<Seq<Seq<ElementaryCondition>>>
    decreases fuel, (if n > 0 { n + 1 } else { 0 }) as nat,
{
    if n <= 0 || n > es.len() {
        Some(seq![])
    } else {
        match expand(ws, es, n - 1, fuel) {
            None => None,
            Some(acc) => match es[n - 1].1 {
                None => Some(acc.push(es[n - 1].0)),
                Some(next) => match conditions_from(ws, next, fuel) {
                    None => None,
                    Some(sub) => Some(acc + append_all(sub, es[n - 1].0)),
                },
            },
        }
    }
}

/// The box after condition `c` narrows it; `None` where a bound would leave
/// the ratings.
pub open spec fn narrow(b: (Num, Num, Num, Num, Num, Num, Num, Num), c: ElementaryCondition) -> Option<(Num, Num, Num, Num, Num, Num, Num, Num)> {
    let i = match c.category {
        Category::X => 0int,
        Category::M => 1int,
        Category::A => 2int,
        Category::S => 3int,
    };
    let st = |j: int| if j == 0 { b.0 } else if j == 1 { b.2 } else if j == 2 { b.4 } else { b.6 };
    let en = |j: int| if j == 0 { b.1 } else if j == 1 { b.3 } else if j == 2 { b.5 } else { b.7 };
    let set = |j: int, lo: Num, hi: Num|
        (if j == 0 { lo } else { b.0 }, if j == 0 { hi } else { b.1 },
         if j == 1 { lo } else { b.2 }, if j == 1 { hi } else { b.3 },
         if j == 2 { lo } else { b.4 }, if j == 2 { hi } else { b.5 },
         if j == 3 { lo } else { b.6 }, if j == 3 { hi } else { b.7 });
    let n = c.compared_to;
    match c.rule_kind {
        ComparisonType::GreaterThan => if n == u64::MAX { None } else { Some(set(i, nmax((n + 1) as u64, st(i)), en(i))) },
        ComparisonType::GreaterEqual => Some(set(i, nmax(n, st(i)), en(i))),
        ComparisonType::SmallerThan => if n == 0 { None } else { Some(set(i, st(i), nmin((n - 1) as u64, en(i)))) },
        ComparisonType::SmallerEqual => Some(set(i, st(i), nmin(n, en(i)))),
    }
}

/// The bounds of a box, category by category.
pub open spec fn bounds(b: &RangePart) -> (Num, Num, Num, Num, Num, Num, Num, Num) {
    (b.x.start, b.x.end, b.m.start, b.m.end, b.a.start, b.a.end, b.s.start, b.s.end)
}

/// The box of ratings 1 to 4000 after the first `n` conditions.
pub open spec fn narrow_all(cs: Seq<ElementaryCondition>, n: int) -> Option<(Num, Num, Num, Num, Num, Num, Num, Num)>
    decreases n,
{
    if n <= 0 {
        Some((1, 4001, 1, 4001, 1, 4001, 1, 4001))
    } else {
        match narrow_all(cs, n - 1) {
            Some(b) => narrow(b, cs[n - 1]),
            None => None,
        }
    }
}

proof fn lemma_narrow_none(cs: Seq<ElementaryCondition>, i: int, n: int)
    requires
        0 <= i <= n,
        narrow_all(cs, i) is None,
    ensures
        narrow_all(cs, n) is None,
    decreases n - i,
{
    if i < n {
        lemma_narrow_none(cs, i, n - 1);
    }
}

/// The box of the parts that meet all conditions `conditions`; `None` where
/// a bound would leave the ratings.
pub fn find_acceptable_ranges(conditions: &Vec<ElementaryCondition>) -> (r: Option<RangePart>)
    ensures
        match narrow_all(conditions@, conditions@.len() as int) {
            Some(b) => r matches Some(rp) && bounds(&rp) == b,
            None => r is None,
        },
{
    let mut result = RangePart::new();
    let mut k: usize = 0;
    while k < conditions.len()
        invariant
            k <= conditions@.len(),
            narrow_all(conditions@, k as int) == Some(bounds(&result)),
        decreases conditions@.len() - k,
    {
        let c = conditions[k];
        let num = c.compared_to;
        let range = match c.category {
            Category::X => Range { start: result.x.start, end: result.x.end },
            Category::M => Range { start: result.m.start, end: result.m.end },
            Category::A => Range { start: result.a.start, end: result.a.end },
            Category::S => Range { start: result.s.start, end: result.s.end },
        };
        let updated = match c.rule_kind {
            ComparisonType::GreaterThan => {
                if num == u64::MAX {
                    proof { lemma_narrow_none(conditions@, k + 1, conditions@.len() as int); }
                    return None;
                }
                Range { start: if num + 1 > range.start { num + 1 } else { range.start }, end: range.end }
            },
            ComparisonType::GreaterEqual => Range { start: if num > range.start { num } else { range.start }, end: range.end },
            ComparisonType::SmallerThan => {
                if num == 0 {
                    proof { lemma_narrow_none(conditions@, k + 1, conditions@.len() as int); }
                    return None;
                }
                Range { start: range.start, end: if num - 1 < range.end { num - 1 } else { range.end } }
            },
            ComparisonType::SmallerEqual => Range { start: range.start, end: if num < range.end { num } else { range.end } },
        };
        match c.category {
            Category::X => { result.x = updated; },
            Category::M => { result.m = updated; },
            Category::A => { result.a = updated; },
            Category::S => { result.s = updated; },
        }
        k = k + 1;
    }
    Some(result)
}

/// The mathematical form of a list of condition lists.
pub open spec fn lists_view(v: Seq<Vec<ElementaryCondition>>) -> Seq<Seq<ElementaryCondition>> {
    v.map_values(|x: Vec<ElementaryCondition>| x@)
}

impl Day19 {
    /// The conditions under which the workflow named `id` accepts a part,
    /// one list per way, following workflows for at most `fuel` steps.
    fn conditions_for(&self, id: &Vec<u8>, fuel: u128) -> (r: Option<Vec<Vec<ElementaryCondition>>>)
        ensures
            match conditions_from(self.workflows@, id@, fuel as nat) {
                Some(c) => r matches Some(v) && lists_view(v@) == c,
                None => r is None,
            },
        decreases fuel,
    {
        if fuel == 0 {
            return None;
        }
        let k = match self.workflow_index(id) {
            Some(k) => k,
            None => {
                return None;
            },
        };
        proof {
            lemma_find_workflow_bound(self.workflows@, id@, 0);
        }
        let entries = self.workflows[k].find_conditions_for_accepting();
        let ghost es = cond_views(entries@);
        let mut result: Vec<Vec<ElementaryCondition>> = Vec::new();
        let mut i: usize = 0;
        assert(lists_view(result@) =~= seq![]);
        while i < entries.len()
            invariant
                i <= entries@.len() == es.len(),
                fuel > 0,
                k < self.workflows@.len(),
                es == cond_views(entries@),
                es == accepting_entries(&self.workflows@[k as int]),
                find_workflow(self.workflows@, id@, 0) == Some(k as int),
                expand(self.workflows@, es, i as int, (fuel - 1) as nat) == Some(lists_view(result@)),
            decreases entries@.len() - i,
        {
            let e = &entries[i];
            assert(es[i as int] == cond_view(e));
            let ghost before = lists_view(result@);
            match &e.follow_up {
                FollowUp::Accepted => {
                    result.push(crate::text::copy_vec(&e.conditions));
                    assert(lists_view(result@) =~= before.push(e.conditions@));
                },
                FollowUp::Id(next) => {
                    match self.conditions_for(next, fuel - 1) {
                        None => {
                            proof { lemma_expand_none(self.workflows@, es, i + 1, es.len() as int, (fuel - 1) as nat); }
                            return None;
                        },
                        Some(sub) => {
                            let mut j: usize = 0;
                            assert(append_all(lists_view(sub@).subrange(0, 0), e.conditions@) =~= seq![]);
                            assert(before + Seq::<Seq<ElementaryCondition>>::empty() =~= before);
                            while j < sub.len()
                                invariant
                                    j <= sub@.len(),
                                    lists_view(result@) == before + append_all(lists_view(sub@).subrange(0, j as int), e.conditions@),
                                decreases sub@.len() - j,
                            {
                                let mut c = crate::text::copy_vec(&sub[j]);
                                let mut q: usize = 0;
                                let ghost c0 = c@;
                                while q < e.conditions.len()
                                    invariant
                                        q <= e.conditions@.len(),
                                        c@ == c0 + e.conditions@.subrange(0, q as int),
                                    decreases e.conditions@.len() - q,
                                {
                                    c.push(e.conditions[q]);
                                    q = q + 1;
                                    assert(c@ =~= c0 + e.conditions@.subrange(0, q as int));
                                }
                                assert(e.conditions@.subrange(0, q as int) =~= e.conditions@);
                                let ghost rb = lists_view(result@);
                                let ghost cv = c@;
                                assert(lists_view(sub@)[j as int] == sub@[j as int]@);
                                result.push(c);
                                assert(lists_view(result@) =~= rb.push(cv));
                                j = j + 1;
                                assert(append_all(lists_view(sub@).subrange(0, j as int), e.conditions@) =~= append_all(
                                    lists_view(sub@).subrange(0, j - 1),
                                    e.conditions@,
                                ).push(cv));
                                assert(lists_view(result@) =~= before + append_all(lists_view(sub@).subrange(0, j as int), e.conditions@));
                            }
                            assert(lists_view(sub@).subrange(0, j as int) =~= lists_view(sub@));
                        },
                    }
                },
            }
            i = i + 1;
        }
        Some(result)
    }
}

proof fn lemma_expand_none(ws: Seq<Workflow>, es: Seq<(Seq<ElementaryCondition>, Option<Seq<u8>>)>, i: int, n: int, fuel: nat)
    requires
        1 <= i <= n <= es.len(),
        expand(ws, es, i, fuel) is None,
    ensures
        expand(ws, es, n, fuel) is None,
    decreases n - i,
{
    if i < n {
        lemma_expand_none(ws, es, i, n - 1, fuel);
    }
}

/// The subsets of the indices `0..n` that `itertools`' `powerset` lists.
pub uninterp spec fn powerset_of(n: nat) -> Seq<Seq<usize>>;

/// The mathematical form of a list of index lists.
pub open spec fn index_lists(v: Seq<Vec<usize>>) -> Seq<Seq<usize>> {
    v.map_values(|x: Vec<usize>| x@)
}

/// Relies on `itertools::Itertools::powerset` over `0..n`: every subset
/// it yields is made of elements of the source, so of indices below `n`.
#[verifier::external_body]
fn powerset_indices(n: usize) -> (r: Vec<Vec<usize>>)
    ensures
        index_lists(r@) == powerset_of(n as nat),
        forall|k: int, j: int| 0 <= k < r@.len() && 0 <= j < r@[k]@.len() ==> #[trigger] r@[k]@[j] < n,
{
    (0..n).powerset().collect()
}

/// The boxes of `bs` that the indices `s` select.
pub open spec fn selected(bs: Seq<RangePart>, s: Seq<usize>) -> Seq<RangePart> {
    Seq::new(s.len(), |j: int| bs[s[j] as int])
}

/// The number of parts in every box that `s` selects, among ratings 1 to
/// 4000.
pub open spec fn meet_size(bs: Seq<RangePart>, s: Seq<usize>) -> nat {
    let sel = selected(bs, s);
    let n = s.len() as int;
    range_len(Range { start: fold_start(sel, Category::X, n), end: fold_end(sel, Category::X, n) })
        * range_len(Range { start: fold_start(sel, Category::M, n), end: fold_end(sel, Category::M, n) })
        * range_len(Range { start: fold_start(sel, Category::A, n), end: fold_end(sel, Category::A, n) })
        * range_len(Range { start: fold_start(sel, Category::S, n), end: fold_end(sel, Category::S, n) })
}

/// The inclusion–exclusion term of the subset `s`: the size of the meet of
/// its boxes, counted positively for an odd subset and negatively for an
/// even one; 0 for the empty subset.
pub open spec fn ie_term(bs: Seq<RangePart>, s: Seq<usize>) -> int {
    if s.len() == 0 {
        0
    } else if s.len() % 2 == 0 {
        -(meet_size(bs, s) as int)
    } else {
        meet_size(bs, s) as int
    }
}

/// The sum of the terms of the first `n` subsets.
pub open spec fn ie_sum(bs: Seq<RangePart>, subs: Seq<Seq<usize>>, n: int) -> int
    decreases n,
{
    if n <= 0 {
        0
    } else {
        ie_sum(bs, subs, n - 1) + ie_term(bs, subs[n - 1])
    }
}

proof fn lemma_fold_bounds(bs: Seq<RangePart>, c: Category, n: int)
    ensures
        fold_start(bs, c, n) >= 1,
        fold_end(bs, c, n) <= 4001,
    decreases n,
{
    if n > 0 {
        lemma_fold_bounds(bs, c, n - 1);
    }
}

/// Copies a box.
fn copy_box(b: &RangePart) -> (r: RangePart)
    ensures
        bounds(&r) == bounds(b),
        r.x == b.x && r.m == b.m && r.a == b.a && r.s == b.s,
{
    RangePart {
        x: Range { start: b.x.start, end: b.x.end },
        m: Range { start: b.m.start, end: b.m.end },
        a: Range { start: b.a.start, end: b.a.end },
        s: Range { start: b.s.start, end: b.s.end },
    }
}

/// The inclusion–exclusion sum over the subsets `subsets` of the boxes: the
/// number of parts in at least one box when `subsets` lists each non-empty
/// subset once.
pub fn inclusion_exclusion(boxes: &Vec<RangePart>, subsets: &Vec<Vec<usize>>) -> (r: i128)
    requires
        forall|k: int, j: int| 0 <= k < subsets@.len() && 0 <= j < subsets@[k]@.len() ==> #[trigger] subsets@[k]@[j] < boxes@.len(),
    ensures
        r == ie_sum(boxes@, index_lists(subsets@), subsets@.len() as int),
{
    let ghost subs = index_lists(subsets@);
    let mut total: i128 = 0;
    let mut k: usize = 0;
    while k < subsets.len()
        invariant
            k <= subsets@.len(),
            subs == index_lists(subsets@),
            forall|q: int, j: int| 0 <= q < subsets@.len() && 0 <= j < subsets@[q]@.len() ==> #[trigger] subsets@[q]@[j] < boxes@.len(),
            total == ie_sum(boxes@, subs, k as int),
            -(k as int) * 0x1_0000_0000_0000 <= total <= (k as int) * 0x1_0000_0000_0000,
        decreases subsets@.len() - k,
    {
        let s = &subsets[k];
        assert(subs[k as int] == s@);
        let mut sel: Vec<RangePart> = Vec::new();
        let mut j: usize = 0;
        while j < s.len()
            invariant
                j <= s@.len(),
                k < subsets@.len(),
                *s == subsets@[k as int],
                forall|q: int, i: int| 0 <= q < subsets@.len() && 0 <= i < subsets@[q]@.len() ==> #[trigger] subsets@[q]@[i] < boxes@.len(),
                sel@.len() == j,
                forall|i: int| 0 <= i < j ==> bounds(&#[trigger] sel@[i]) == bounds(&boxes@[s@[i] as int]),
                forall|i: int| 0 <= i < j ==> #[trigger] sel@[i] == boxes@[s@[i] as int],
            decreases s@.len() - j,
        {
            assert(s@[j as int] < boxes@.len());
            sel.push(copy_box(&boxes[s[j]]));
            j = j + 1;
        }
        assert(sel@ =~= selected(boxes@, s@));
        let term: i128 = match RangePart::intersection_slice(sel.as_slice()) {
            None => 0,
            Some(meet) => {
                let ghost n = s@.len() as int;
                proof {
                    lemma_fold_bounds(sel@, Category::X, n);
                    lemma_fold_bounds(sel@, Category::M, n);
                    lemma_fold_bounds(sel@, Category::A, n);
                    lemma_fold_bounds(sel@, Category::S, n);
                    assert(range_of(&meet, Category::X).start == fold_start(sel@, Category::X, n));
                    assert(range_of(&meet, Category::X).end == fold_end(sel@, Category::X, n));
                    assert(range_of(&meet, Category::M).start == fold_start(sel@, Category::M, n));
                    assert(range_of(&meet, Category::M).end == fold_end(sel@, Category::M, n));
                    assert(range_of(&meet, Category::A).start == fold_start(sel@, Category::A, n));
                    assert(range_of(&meet, Category::A).end == fold_end(sel@, Category::A, n));
                    assert(range_of(&meet, Category::S).start == fold_start(sel@, Category::S, n));
                    assert(range_of(&meet, Category::S).end == fold_end(sel@, Category::S, n));
                    let lx = range_len(meet.x);
                    let lm = range_len(meet.m);
                    let la = range_len(meet.a);
                    let ls = range_len(meet.s);
                    assert(lx <= 4000 && lm <= 4000 && la <= 4000 && ls <= 4000);
                    assert(lx * lm * la <= 4000 * 4000 * 4000) by (nonlinear_arith)
                        requires lx <= 4000, lm <= 4000, la <= 4000;
                    assert(lx * lm * la * ls <= 0x1_0000_0000_0000) by (nonlinear_arith)
                        requires lx <= 4000, lm <= 4000, la <= 4000, ls <= 4000;
                    assert(meet_size(boxes@, s@) == lx * lm * la * ls);
                }
                let size = meet.compute_size();
                if s.len() % 2 == 0 {
                    -(size as i128)
                } else {
                    size as i128
                }
            },
        };
        assert(term == ie_term(boxes@, s@));
        total = total + term;
        k = k + 1;
    }
    total
}

/// The box with the bounds `b`.
pub open spec fn box_from(b: (Num, Num, Num, Num, Num, Num, Num, Num)) -> RangePart {
    RangePart {
        x: Range { start: b.0, end: b.1 },
        m: Range { start: b.2, end: b.3 },
        a: Range { start: b.4, end: b.5 },
        s: Range { start: b.6, end: b.7 },
    }
}

/// The boxes of the first `n` condition lists, if each stays within the
/// ratings.
pub open spec fn boxes_of(cs: Seq<Seq<ElementaryCondition>>, n: int) -> Option<Seq<RangePart>>
    decreases n,
{
    if n <= 0 {
        Some(seq![])
    } else {
        match (boxes_of(cs, n - 1), narrow_all(cs[n - 1], cs[n - 1].len() as int)) {
            (Some(bs), Some(b)) => Some(bs.push(box_from(b))),
            _ => None,
        }
    }
}

/// The number of parts that the workflows accept, counted by
/// inclusion–exclusion over the boxes of the ways from `in` to acceptance.
pub open spec fn accepted_total(ws: Seq<Workflow>) -> Option<int> {
    match conditions_from(ws, in_id(), (ws.len() + 1) as nat) {
        None => None,
        Some(cs) => match boxes_of(cs, cs.len() as int) {
            None => None,
            Some(bs) => Some(ie_sum(bs, powerset_of(bs.len() as nat), powerset_of(bs.len() as nat).len() as int)),
        },
    }
}

proof fn lemma_boxes_none(cs: Seq<Seq<ElementaryCondition>>, i: int, n: int)
    requires
        0 <= i <= n,
        boxes_of(cs, i) is None,
    ensures
        boxes_of(cs, n) is None,
    decreases n - i,
{
    if i < n {
        lemma_boxes_none(cs, i, n - 1);
    }
}

impl Day19 {
    /// The number of parts, with ratings from 1 to 4000, that the workflows
    /// accept: the boxes of the ways from `in` to acceptance, counted by
    /// inclusion–exclusion over the subsets that `powerset` lists. `None`
    /// for a missing workflow, a cycle, or a bound that leaves the ratings.
    pub fn find_numbers_of_accepting(&self) -> (r: Option<i128>)
        ensures
            match accepted_total(self.workflows@) {
                Some(v) => r is Some && r->0 == v,
                None => r is None,
            },
    {
        let mut id: Vec<u8> = Vec::new();
        id.push(105);
        id.push(110);
        assert(id@ =~= in_id());
        let conditions = match self.conditions_for(&id, self.workflows.len() as u128 + 1) {
            Some(c) => c,
            None => {
                return None;
            },
        };
        let ghost cs = lists_view(conditions@);
        let mut boxes: Vec<RangePart> = Vec::new();
        let mut k: usize = 0;
        assert(boxes@ =~= seq![]);
        while k < conditions.len()
            invariant
                k <= conditions@.len() == cs.len(),
                cs == lists_view(conditions@),
                conditions_from(self.workflows@, in_id(), (self.workflows@.len() + 1) as nat) == Some(cs),
                boxes_of(cs, k as int) == Some(boxes@),
            decreases conditions@.len() - k,
        {
            assert(cs[k as int] == conditions@[k as int]@);
            match find_acceptable_ranges(&conditions[k]) {
                Some(b) => {
                    let ghost before = boxes@;
                    assert(b == box_from(bounds(&b)));
                    boxes.push(b);
                    assert(boxes@ =~= before.push(box_from(bounds(&b))));
                },
                None => {
                    proof { lemma_boxes_none(cs, k + 1, cs.len() as int); }
                    return None;
                },
            }
            k = k + 1;
        }
        let subsets = powerset_indices(boxes.len());
        let v = inclusion_exclusion(&boxes, &subsets);
        Some(v)
    }

    /// The number of accepted parts; the empty text when there is none.
    pub fn solution2(&self) -> (r: String)
        ensures
            r@ == match accepted_total(self.workflows@) {
                Some(v) => crate::text::signed_decimal(v),
                None => Seq::<char>::empty(),
            },
    {
        match self.find_numbers_of_accepting() {
            Some(v) => crate::text::i128_text(v),
            None => String::new(),
        }
    }
}

} // verus!
