//! A pulse-propagation simulator: modules wired into a directed graph pass
//! low and high pulses to each other, one button press at a time.
use vstd::prelude::*;
use vstd::string::StringSliceAdditionalSpecFns;
use crate::text::{decimal, u64_text, copy_range, find, find_from, lines, split, split_lines, split_on, pieces};

verus! {

/// A one-bit signal.
#[derive(Clone, Copy, PartialEq, Eq, Debug, Structural)]
pub enum Pulse {
    Low,
    High,
}

/// A pulse on its way: it goes to module `target`, sent by module `source`
/// (`None` for the button).
#[derive(Clone, Copy, Debug)]
pub struct Event {
    pub target: usize,
    pub source: Option<usize>,
    pub pulse: Pulse,
}

/// The behaviour and internal state of a module.
#[derive(Debug)]
pub enum ModuleType {
    /// Toggles on each low pulse and ignores high ones.
    FlipFlop { state: bool },
    /// Remembers the last pulse from each predecessor, by predecessor index.
    Conjunction { most_recent_pulses: Vec<(usize, Pulse)> },
    /// Sends every pulse on unchanged.
    Broadcast,
    /// A sink: receives pulses and sends nothing.
    Output,
}

/// The mathematical state of a module.
pub enum KindView {
    FlipFlop(bool),
    Conjunction(Seq<(usize, Pulse)>),
    Broadcast,
    Output,
}

impl View for ModuleType {
    type V = KindView;

    open spec fn view(&self) -> KindView {
        match self {
            ModuleType::FlipFlop { state } => KindView::FlipFlop(*state),
            ModuleType::Conjunction { most_recent_pulses } => KindView::Conjunction(
                most_recent_pulses@,
            ),
            ModuleType::Broadcast => KindView::Broadcast,
            ModuleType::Output => KindView::Output,
        }
    }
}

/// The memory `mem` after `p` arrives from `src`: the entry of that sender
/// is overwritten; a pulse from the button changes nothing.
pub open spec fn record(mem: Seq<(usize, Pulse)>, src: Option<usize>, p: Pulse) -> Seq<(usize, Pulse)> {
    match src {
        Some(s) => mem.map_values(|e: (usize, Pulse)| if e.0 == s { (s, p) } else { e }),
        None => mem,
    }
}

/// Every remembered pulse is high (true of an empty memory).
pub open spec fn all_high(mem: Seq<(usize, Pulse)>) -> bool {
    forall|i: int| 0 <= i < mem.len() ==> (#[trigger] mem[i]).1 == Pulse::High
}

/// What a module in state `k` becomes, and what it sends, when `p` arrives
/// from `src`.
pub open spec fn transition(k: KindView, p: Pulse, src: Option<usize>) -> (KindView, Option<Pulse>) {
    match k {
        KindView::FlipFlop(on) => if p == Pulse::High {
            (k, None)
        } else {
            (KindView::FlipFlop(!on), Some(if on { Pulse::Low } else { Pulse::High }))
        },
        KindView::Conjunction(mem) => {
            let m = record(mem, src, p);
            (KindView::Conjunction(m), Some(if all_high(m) { Pulse::Low } else { Pulse::High }))
        },
        KindView::Broadcast => (k, Some(p)),
        KindView::Output => (k, None),
    }
}

impl ModuleType {
    /// Takes in pulse `pulse` from `id_input` and returns the pulse that the
    /// module sends in answer, if any.
    pub fn handle_pulse(&mut self, pulse: Pulse, id_input: Option<usize>) -> (r: Option<Pulse>)
        ensures
            (final(self)@, r) == transition(old(self)@, pulse, id_input),
    {
        match self {
            ModuleType::FlipFlop { state } => {
                if pulse == Pulse::High {
                    None
                } else {
                    let new_pulse = if *state { Pulse::Low } else { Pulse::High };
                    *state = !*state;
                    Some(new_pulse)
                }
            },
            ModuleType::Conjunction { most_recent_pulses } => {
                let ghost mem = most_recent_pulses@;
                let ghost m = record(mem, id_input, pulse);
                let mut all: bool = true;
                let mut i: usize = 0;
                while i < most_recent_pulses.len()
                    invariant
                        i <= most_recent_pulses@.len() == mem.len() == m.len(),
                        m == record(mem, id_input, pulse),
                        forall|j: int| 0 <= j < i ==> most_recent_pulses@[j] == m[j],
                        forall|j: int| i <= j < mem.len() ==> most_recent_pulses@[j] == mem[j],
                        all == (forall|j: int| 0 <= j < i ==> (#[trigger] m[j]).1 == Pulse::High),
                    decreases mem.len() - i,
                {
                    let (src, old_pulse) = most_recent_pulses[i];
                    let mut cur = old_pulse;
                    if let Some(s) = id_input {
                        if src == s {
                            cur = pulse;
                            most_recent_pulses.set(i, (src, pulse));
                        }
                    }
                    assert(cur == m[i as int].1);
                    if cur == Pulse::Low {
                        all = false;
                    }
                    i = i + 1;
                }
                assert(most_recent_pulses@ =~= m);
                if all {
                    Some(Pulse::Low)
                } else {
                    Some(Pulse::High)
                }
            },
            ModuleType::Broadcast => Some(pulse),
            ModuleType::Output => None,
        }
    }
}

/// A conjunction without predecessors remembers nothing, so every pulse it
/// receives makes it send a low pulse, and it stays that way.
pub proof fn lemma_conjunction_without_inputs_sends_low(p: Pulse, src: Option<usize>)
    ensures
        transition(KindView::Conjunction(seq![]), p, src) == (
        KindView::Conjunction(seq![]),
        Some(Pulse::Low),
        ),
{
    assert(record(seq![], src, p) =~= seq![]);
}

/// A module: its name, its state and the indices of the modules it sends to.
#[derive(Debug)]
pub struct Module {
    pub module_type: ModuleType,
    pub id: Vec<u8>,
    pub ids_outputs: Vec<usize>,
}

/// The mathematical form of a module.
pub struct ModuleView {
    pub id: Seq<u8>,
    pub kind: KindView,
    pub outputs: Seq<usize>,
}

impl View for Module {
    type V = ModuleView;

    open spec fn view(&self) -> ModuleView {
        ModuleView { id: self.id@, kind: self.module_type@, outputs: self.ids_outputs@ }
    }
}

/// The mathematical form of a sequence of modules.
pub open spec fn views(m: Seq<Module>) -> Seq<ModuleView> {
    m.map_values(|x: Module| x@)
}

/// The most events that one button press may process before it is given up.
pub const EVENT_LIMIT: usize = 1048576;

/// Where a button press stands: the modules, the events still to deliver,
/// the pulses delivered so far by value, and the modules that have sent a
/// low pulse.
pub struct PressState {
    pub mods: Seq<ModuleView>,
    pub queue: Seq<Event>,
    pub low: nat,
    pub high: nat,
    pub lows: Set<usize>,
}

/// The events that module `t` sends: pulse `p` to each of its outputs, in order.
pub open spec fn sent(outputs: Seq<usize>, t: usize, p: Pulse) -> Seq<Event> {
    outputs.map_values(|o: usize| Event { target: o, source: Some(t), pulse: p })
}

/// Delivers the first pending event: it is counted, its target changes
/// state, and what the target sends joins the back of the queue. An event
/// whose target is no module is counted and dropped.
pub open spec fn step(st: PressState) -> PressState {
    let ev = st.queue[0];
    let rest = st.queue.drop_first();
    let low = if ev.pulse == Pulse::Low { st.low + 1 } else { st.low };
    let high = if ev.pulse == Pulse::High { st.high + 1 } else { st.high };
    if ev.target < st.mods.len() {
        let m = st.mods[ev.target as int];
        let (k, out) = transition(m.kind, ev.pulse, ev.source);
        let mods = st.mods.update(ev.target as int, ModuleView { kind: k, ..m });
        match out {
            Some(q) => PressState {
                mods,
                queue: rest + sent(m.outputs, ev.target, q),
                low,
                high,
                lows: if q == Pulse::Low { st.lows.insert(ev.target) } else { st.lows },
            },
            None => PressState { mods, queue: rest, low, high, lows: st.lows },
        }
    } else {
        PressState { queue: rest, low, high, ..st }
    }
}

/// Delivers events in first-in first-out order until none is left, or until
/// `fuel` events have been delivered; the flag says whether the queue drained.
pub open spec fn drain(st: PressState, fuel: nat) -> (PressState, bool)
    decreases fuel,
{
    if st.queue.len() == 0 {
        (st, true)
    } else if fuel == 0 {
        (st, false)
    } else {
        drain(step(st), (fuel - 1) as nat)
    }
}

/// One button press on `mods`: a low pulse from the button to module
/// `start`, delivered breadth first within the event limit.
pub open spec fn press(mods: Seq<ModuleView>, start: usize) -> (PressState, bool) {
    drain(
        PressState {
            mods,
            queue: seq![Event { target: start, source: None, pulse: Pulse::Low }],
            low: 0,
            high: 0,
            lows: Set::empty(),
        },
        EVENT_LIMIT as nat,
    )
}

/// The watch table `w` after a press numbered `n` in which the modules
/// `lows` sent a low pulse: each entry still at 0 whose module is among
/// them takes `n`.
pub open spec fn mark(w: Seq<(usize, u64)>, lows: Set<usize>, n: u64) -> Seq<(usize, u64)> {
    w.map_values(|e: (usize, u64)| if e.1 == 0 && lows.contains(e.0) { (e.0, n) } else { e })
}

/// Presses the button once: delivers a low pulse to module `broadcast` and
/// every pulse that follows from it, breadth first. Returns the number of
/// low and of high pulses delivered, or `None` if the press did not settle
/// within the event limit. Each entry of `rx_predecessors` that is still 0
/// and whose module sent a low pulse takes `nb_steps`.
pub fn handle_button_press(
    modules: &mut Vec<Module>,
    broadcast: usize,
    nb_steps: u64,
    rx_predecessors: &mut Vec<(usize, u64)>,
) -> (r: Option<(u64, u64)>)
    ensures
        ({
            let (st, done) = press(views(old(modules)@), broadcast);
            &&& views(final(modules)@) == st.mods
            &&& r is Some <==> done
            &&& r matches Some((l, h)) ==> l == st.low && h == st.high && l + h <= EVENT_LIMIT
            &&& final(rx_predecessors)@ == mark(old(rx_predecessors)@, st.lows, nb_steps)
        }),
{
    let ghost init = PressState {
        mods: views(modules@),
        queue: seq![Event { target: broadcast, source: None, pulse: Pulse::Low }],
        low: 0,
        high: 0,
        lows: Set::empty(),
    };
    let ghost w0 = rx_predecessors@;
    let mut queue: Vec<Event> = Vec::new();
    queue.push(Event { target: broadcast, source: None, pulse: Pulse::Low });
    let mut head: usize = 0;
    let mut nb_low: u64 = 0;
    let mut nb_high: u64 = 0;
    let ghost mut lows: Set<usize> = Set::empty();
    assert(queue@.subrange(0, queue@.len() as int) =~= init.queue);
    while head < queue.len()
        invariant
            head <= queue@.len(),
            nb_low + nb_high == head,
            head <= EVENT_LIMIT,
            drain(
                PressState {
                    mods: views(modules@),
                    queue: queue@.subrange(head as int, queue@.len() as int),
                    low: nb_low as nat,
                    high: nb_high as nat,
                    lows,
                },
                (EVENT_LIMIT - head) as nat,
            ) == drain(init, EVENT_LIMIT as nat),
            rx_predecessors@ == mark(w0, lows, nb_steps),
            press(views(old(modules)@), broadcast) == drain(init, EVENT_LIMIT as nat),
            w0 == old(rx_predecessors)@,
        decreases EVENT_LIMIT - head,
    {
        let ghost cur = PressState {
            mods: views(modules@),
            queue: queue@.subrange(head as int, queue@.len() as int),
            low: nb_low as nat,
            high: nb_high as nat,
            lows,
        };
        if head == EVENT_LIMIT {
            assert(drain(cur, 0) == (cur, false));
            return None;
        }
        let ev = queue[head];
        head = head + 1;
        if ev.pulse == Pulse::Low {
            nb_low = nb_low + 1;
        } else {
            nb_high = nb_high + 1;
        }
        let ghost nxt = step(cur);
        let ghost old_queue = queue@;
        if ev.target < modules.len() {
            let ghost before = modules@;
            let out = modules[ev.target].module_type.handle_pulse(ev.pulse, ev.source);
            assert(views(modules@) =~= nxt.mods);
            if let Some(p) = out {
                let n_out = modules[ev.target].ids_outputs.len();
                let mut j: usize = 0;
                while j < n_out
                    invariant
                        j <= n_out == modules@[ev.target as int].ids_outputs@.len(),
                        ev.target < modules@.len(),
                        queue@ == old_queue + sent(
                            modules@[ev.target as int].ids_outputs@,
                            ev.target,
                            p,
                        ).subrange(0, j as int),
                    decreases n_out - j,
                {
                    let o = modules[ev.target].ids_outputs[j];
                    queue.push(Event { target: o, source: Some(ev.target), pulse: p });
                    j = j + 1;
                    assert(queue@ =~= old_queue + sent(
                        modules@[ev.target as int].ids_outputs@,
                        ev.target,
                        p,
                    ).subrange(0, j as int));
                }
                if p == Pulse::Low {
                    let mut k: usize = 0;
                    let ghost wb = rx_predecessors@;
                    while k < rx_predecessors.len()
                        invariant
                            k <= rx_predecessors@.len() == wb.len(),
                            forall|i: int| 0 <= i < k ==> rx_predecessors@[i] == mark(wb, set![ev.target], nb_steps)[i],
                            forall|i: int| k <= i < wb.len() ==> rx_predecessors@[i] == wb[i],
                        decreases wb.len() - k,
                    {
                        let (w, v) = rx_predecessors[k];
                        if v == 0 && w == ev.target {
                            rx_predecessors.set(k, (w, nb_steps));
                        }
                        k = k + 1;
                    }
                    proof {
                        assert(rx_predecessors@ =~= mark(wb, set![ev.target], nb_steps));
                        lows = lows.insert(ev.target);
                        assert(rx_predecessors@ =~= mark(w0, lows, nb_steps));
                    }
                }
            }
        }
        assert(queue@.subrange(head as int, queue@.len() as int) =~= nxt.queue);
    }
    Some((nb_low, nb_high))
}

/// Why a module list could not be read.
#[derive(Clone, Copy, PartialEq, Eq, Debug, Structural)]
pub enum ParseError {
    /// The line with this index has no ` -> `.
    MalformedLine(usize),
    /// The line with this index starts with none of `%`, `&` and `b`.
    UnknownPrefix(usize),
    /// The line with this index declares a module declared on an earlier line.
    DuplicateModule(usize),
    /// No module is named `broadcast`.
    MissingBroadcaster,
}

/// The type prefix of a declared module.
#[derive(Clone, Copy, PartialEq, Eq, Debug, Structural)]
pub enum Prefix {
    FlipFlop,
    Conjunction,
    Broadcast,
}

/// One line of input, read: `<prefix><id> -> <output>, <output>, ...`.
pub struct Rule {
    pub prefix: Prefix,
    pub id: Vec<u8>,
    pub outputs: Vec<Vec<u8>>,
}

/// The mathematical form of a rule.
pub struct RuleView {
    pub prefix: Prefix,
    pub id: Seq<u8>,
    pub outputs: Seq<Seq<u8>>,
}

impl View for Rule {
    type V = RuleView;

    open spec fn view(&self) -> RuleView {
        RuleView { prefix: self.prefix, id: self.id@, outputs: pieces(self.outputs@) }
    }
}

/// The arrow between a module and its outputs.
pub open spec fn arrow() -> Seq<u8> {
    seq![32u8, 45u8, 62u8, 32u8]
}

/// The separator between outputs.
pub open spec fn comma() -> Seq<u8> {
    seq![44u8, 32u8]
}

/// The name of the module that the button sends to.
pub open spec fn broadcast_id() -> Seq<u8> {
    seq![98u8, 114u8, 111u8, 97u8, 100u8, 99u8, 97u8, 115u8, 116u8]
}

/// The prefix that the byte `b` stands for.
pub open spec fn prefix_of(b: u8) -> Option<Prefix> {
    if b == 37 {
        Some(Prefix::FlipFlop)
    } else if b == 38 {
        Some(Prefix::Conjunction)
    } else if b == 98 {
        Some(Prefix::Broadcast)
    } else {
        None
    }
}

/// What is wrong with line `line`, numbered `i`, if anything.
pub open spec fn line_error(line: Seq<u8>, i: usize) -> Option<ParseError> {
    match find_from(line, arrow(), 0) {
        None => Some(ParseError::MalformedLine(i)),
        Some(k) => if k == 0 || prefix_of(line[0]) is None {
            Some(ParseError::UnknownPrefix(i))
        } else {
            None
        },
    }
}

/// The rule that a well-formed line states. A broadcaster is named
/// `broadcast`, whatever follows its `b`.
pub open spec fn rule_of(line: Seq<u8>) -> RuleView {
    let k = find_from(line, arrow(), 0)->0;
    let prefix = prefix_of(line[0])->0;
    RuleView {
        prefix,
        id: if prefix == Prefix::Broadcast { broadcast_id() } else { line.subrange(1, k) },
        outputs: split(line.subrange(k + 4, line.len() as int), comma()),
    }
}

/// The rules of the lines `ls`, or the error of the first bad line.
pub open spec fn parse_rules(ls: Seq<Seq<u8>>) -> Result<Seq<RuleView>, ParseError>
    decreases ls.len(),
{
    if ls.len() == 0 {
        Ok(seq![])
    } else {
        match parse_rules(ls.drop_last()) {
            Err(e) => Err(e),
            Ok(rs) => match line_error(ls.last(), (ls.len() - 1) as usize) {
                Some(e) => Err(e),
                None => Ok(rs.push(rule_of(ls.last()))),
            },
        }
    }
}

/// The mathematical form of a sequence of rules.
pub open spec fn rviews(v: Seq<Rule>) -> Seq<RuleView> {
    v.map_values(|r: Rule| r@)
}

/// The names that the rules declare, in order.
pub open spec fn ids(rules: Seq<RuleView>) -> Seq<Seq<u8>> {
    rules.map_values(|r: RuleView| r.id)
}

/// The index of the first name that an earlier one repeats.
pub open spec fn first_duplicate(ids: Seq<Seq<u8>>) -> Option<int>
    decreases ids.len(),
{
    if ids.len() == 0 {
        None
    } else {
        match first_duplicate(ids.drop_last()) {
            Some(i) => Some(i),
            None => if ids.drop_last().contains(ids.last()) {
                Some(ids.len() - 1)
            } else {
                None
            },
        }
    }
}

/// `names` with `x` appended unless it is there already.
pub open spec fn add_name(names: Seq<Seq<u8>>, x: Seq<u8>) -> Seq<Seq<u8>> {
    if names.contains(x) {
        names
    } else {
        names.push(x)
    }
}

/// `names` with each of `refs` added in turn.
pub open spec fn add_refs(names: Seq<Seq<u8>>, refs: Seq<Seq<u8>>) -> Seq<Seq<u8>>
    decreases refs.len(),
{
    if refs.len() == 0 {
        names
    } else {
        add_name(add_refs(names, refs.drop_last()), refs.last())
    }
}

/// `names` with the outputs of each rule added in turn.
pub open spec fn add_all(names: Seq<Seq<u8>>, rules: Seq<RuleView>) -> Seq<Seq<u8>>
    decreases rules.len(),
{
    if rules.len() == 0 {
        names
    } else {
        add_refs(add_all(names, rules.drop_last()), rules.last().outputs)
    }
}

/// The names of all modules: the declared ones, then each name that is only
/// referenced, in order of first reference.
pub open spec fn names_of(rules: Seq<RuleView>) -> Seq<Seq<u8>> {
    add_all(ids(rules), rules)
}

/// `i` is the first position of `x` in `s`.
pub open spec fn is_first_index(s: Seq<Seq<u8>>, x: Seq<u8>, i: int) -> bool {
    0 <= i < s.len() && s[i] == x && forall|j: int| 0 <= j < i ==> s[j] != x
}

/// The first position of `x` in `s`.
pub open spec fn index_of(s: Seq<Seq<u8>>, x: Seq<u8>) -> int {
    choose|i: int| is_first_index(s, x, i)
}

proof fn lemma_index_of(s: Seq<Seq<u8>>, x: Seq<u8>, i: int)
    requires
        is_first_index(s, x, i),
    ensures
        index_of(s, x) == i,
{
    let k = index_of(s, x);
    assert(is_first_index(s, x, k));
    if k < i {
        assert(s[k] != x);
    }
    if i < k {
        assert(s[i] != x);
    }
}

/// The memory of a conjunction named `name`: a low pulse from each of the
/// first `n` rules that lists `name` among its outputs.
pub open spec fn preds(rules: Seq<RuleView>, name: Seq<u8>, n: nat) -> Seq<(usize, Pulse)>
    decreases n,
{
    if n == 0 {
        seq![]
    } else {
        let p = preds(rules, name, (n - 1) as nat);
        if rules[n - 1].outputs.contains(name) {
            p.push(((n - 1) as usize, Pulse::Low))
        } else {
            p
        }
    }
}

/// Module `i` of the graph of `rules`, whose module names are `names`.
pub open spec fn module_at(rules: Seq<RuleView>, names: Seq<Seq<u8>>, i: int) -> ModuleView {
    if i < rules.len() {
        ModuleView {
            id: names[i],
            kind: match rules[i].prefix {
                Prefix::FlipFlop => KindView::FlipFlop(false),
                Prefix::Conjunction => KindView::Conjunction(
                    preds(rules, names[i], rules.len() as nat),
                ),
                Prefix::Broadcast => KindView::Broadcast,
            },
            outputs: rules[i].outputs.map_values(|o: Seq<u8>| index_of(names, o) as usize),
        }
    } else {
        ModuleView { id: names[i], kind: KindView::Output, outputs: seq![] }
    }
}

/// The modules of the graph of `rules`, in the order of `names_of`.
pub open spec fn build(rules: Seq<RuleView>) -> Seq<ModuleView> {
    let names = names_of(rules);
    Seq::new(names.len(), |i: int| module_at(rules, names, i))
}

/// The graph that the text `t` describes, with the index of its
/// broadcaster, or why it describes none.
pub open spec fn parse_graph(t: Seq<u8>) -> Result<(Seq<ModuleView>, usize), ParseError> {
    match parse_rules(lines(t)) {
        Err(e) => Err(e),
        Ok(rules) => match first_duplicate(ids(rules)) {
            Some(i) => Err(ParseError::DuplicateModule(i as usize)),
            None => {
                let names = names_of(rules);
                if names.contains(broadcast_id()) {
                    Ok((build(rules), index_of(names, broadcast_id()) as usize))
                } else {
                    Err(ParseError::MissingBroadcaster)
                }
            },
        },
    }
}

proof fn lemma_add_refs(names: Seq<Seq<u8>>, refs: Seq<Seq<u8>>)
    ensures
        add_refs(names, refs).len() >= names.len(),
        add_refs(names, refs).subrange(0, names.len() as int) == names,
        forall|k: int| 0 <= k < refs.len() ==> add_refs(names, refs).contains(#[trigger] refs[k]),
    decreases refs.len(),
{
    if refs.len() > 0 {
        let a = add_refs(names, refs.drop_last());
        lemma_add_refs(names, refs.drop_last());
        let b = add_name(a, refs.last());
        assert(b.subrange(0, a.len() as int) =~= a);
        assert(b.subrange(0, names.len() as int) =~= a.subrange(0, names.len() as int));
        assert forall|k: int| 0 <= k < refs.len() implies b.contains(#[trigger] refs[k]) by {
            if k < refs.len() - 1 {
                assert(a.contains(refs.drop_last()[k]));
                let w = choose|w: int| 0 <= w < a.len() && a[w] == refs.drop_last()[k];
                assert(b[w] == refs[k]);
            } else if !a.contains(refs.last()) {
                assert(b[a.len() as int] == refs[k]);
            }
        }
    }
}

proof fn lemma_add_all(names: Seq<Seq<u8>>, rules: Seq<RuleView>)
    ensures
        add_all(names, rules).len() >= names.len(),
        add_all(names, rules).subrange(0, names.len() as int) == names,
        forall|i: int, k: int|
            0 <= i < rules.len() && 0 <= k < rules[i].outputs.len() ==> add_all(
                names,
                rules,
            ).contains(#[trigger] rules[i].outputs[k]),
    decreases rules.len(),
{
    if rules.len() > 0 {
        let a = add_all(names, rules.drop_last());
        lemma_add_all(names, rules.drop_last());
        let b = add_refs(a, rules.last().outputs);
        lemma_add_refs(a, rules.last().outputs);
        assert(b.subrange(0, names.len() as int) =~= a.subrange(0, names.len() as int));
        assert forall|i: int, k: int|
            0 <= i < rules.len() && 0 <= k < rules[i].outputs.len() implies b.contains(
                #[trigger] rules[i].outputs[k],
            ) by {
            if i < rules.len() - 1 {
                assert(rules.drop_last()[i] == rules[i]);
                assert(a.contains(rules.drop_last()[i].outputs[k]));
                let w = choose|w: int| 0 <= w < a.len() && a[w] == rules[i].outputs[k];
                assert(b.subrange(0, a.len() as int)[w] == b[w]);
            }
        }
    }
}

/// The first position of `x` among `names`.
fn position(names: &Vec<Vec<u8>>, x: &Vec<u8>) -> (r: Option<usize>)
    ensures
        r matches Some(i) ==> is_first_index(pieces(names@), x@, i as int),
        r is None ==> !pieces(names@).contains(x@),
{
    let mut i: usize = 0;
    while i < names.len()
        invariant
            i <= names@.len(),
            forall|j: int| 0 <= j < i ==> pieces(names@)[j] != x@,
        decreases names@.len() - i,
    {
        if crate::text::bytes_equal(names[i].as_slice(), x.as_slice()) {
            return Some(i);
        }
        i = i + 1;
    }
    None
}

/// Reads every line, stopping at the first bad one.
fn parse_all(ls: &Vec<Vec<u8>>) -> (r: Result<Vec<Rule>, ParseError>)
    ensures
        match parse_rules(pieces(ls@)) {
            Ok(rs) => r matches Ok(v) && rviews(v@) == rs,
            Err(e) => r == Err::<Vec<Rule>, ParseError>(e),
        },
{
    let mut rules: Vec<Rule> = Vec::new();
    let mut i: usize = 0;
    assert(pieces(ls@).subrange(0, 0) =~= seq![]);
    assert(rviews(rules@) =~= seq![]);
    while i < ls.len()
        invariant
            i <= ls@.len(),
            parse_rules(pieces(ls@).subrange(0, i as int)) == Ok::<Seq<RuleView>, ParseError>(
                rviews(rules@),
            ),
        decreases ls@.len() - i,
    {
        assert(pieces(ls@).subrange(0, i + 1).drop_last() =~= pieces(ls@).subrange(0, i as int));
        match Module::construct_from_line_with_empty_inputs(&ls[i], i) {
            Err(e) => {
                proof {
                    lemma_parse_rules_stops(pieces(ls@), i as int);
                }
                return Err(e);
            },
            Ok(rule) => {
                let ghost before = rviews(rules@);
                rules.push(rule);
                assert(rviews(rules@) =~= before.push(rule_of(ls@[i as int]@)));
            },
        }
        i = i + 1;
    }
    assert(pieces(ls@).subrange(0, i as int) =~= pieces(ls@));
    Ok(rules)
}

proof fn lemma_parse_rules_stops(ls: Seq<Seq<u8>>, i: int)
    requires
        0 <= i < ls.len(),
        parse_rules(ls.subrange(0, i + 1)) is Err,
    ensures
        parse_rules(ls) == parse_rules(ls.subrange(0, i + 1)),
    decreases ls.len() - i,
{
    if i + 1 < ls.len() {
        assert(ls.subrange(0, i + 2).drop_last() =~= ls.subrange(0, i + 1));
        lemma_parse_rules_stops(ls, i + 1);
    } else {
        assert(ls.subrange(0, i + 1) =~= ls);
    }
}

proof fn lemma_first_duplicate_stays(ids: Seq<Seq<u8>>, i: int)
    requires
        0 <= i < ids.len(),
        first_duplicate(ids.subrange(0, i + 1)) is Some,
    ensures
        first_duplicate(ids) == first_duplicate(ids.subrange(0, i + 1)),
    decreases ids.len() - i,
{
    if i + 1 < ids.len() {
        assert(ids.subrange(0, i + 2).drop_last() =~= ids.subrange(0, i + 1));
        lemma_first_duplicate_stays(ids, i + 1);
    } else {
        assert(ids.subrange(0, i + 1) =~= ids);
    }
}

/// The index of the first rule that declares a name declared before it.
fn find_duplicate(rules: &Vec<Rule>) -> (r: Option<usize>)
    ensures
        r matches Some(i) ==> first_duplicate(ids(rviews(rules@))) == Some(i as int),
        r is None ==> first_duplicate(ids(rviews(rules@))) is None,
{
    let ghost all = ids(rviews(rules@));
    let mut i: usize = 0;
    while i < rules.len()
        invariant
            i <= rules@.len() == all.len(),
            all == ids(rviews(rules@)),
            first_duplicate(all.subrange(0, i as int)) is None,
        decreases rules@.len() - i,
    {
        let ghost pre = all.subrange(0, i + 1);
        assert(pre.drop_last() =~= all.subrange(0, i as int));
        let mut j: usize = 0;
        while j < i
            invariant
                j <= i < rules@.len() == all.len(),
                all == ids(rviews(rules@)),
                pre == all.subrange(0, i + 1),
                pre.drop_last() == all.subrange(0, i as int),
                first_duplicate(all.subrange(0, i as int)) is None,
                forall|k: int| 0 <= k < j ==> all[k] != all[i as int],
            decreases i - j,
        {
            if crate::text::bytes_equal(rules[j].id.as_slice(), rules[i].id.as_slice()) {
                assert(all[j as int] == rules@[j as int].id@);
                assert(all[i as int] == rules@[i as int].id@);
                assert(pre.drop_last()[j as int] == pre.last());
                assert(pre.drop_last().contains(pre.last()));
                assert(first_duplicate(pre) == Some(i as int));
                proof {
                    lemma_first_duplicate_stays(all, i as int);
                }
                return Some(i);
            }
            j = j + 1;
        }
        assert(!pre.drop_last().contains(pre.last()));
        i = i + 1;
    }
    assert(all.subrange(0, i as int) =~= all);
    None
}

/// Copies a byte vector.
fn copy_bytes(v: &Vec<u8>) -> (r: Vec<u8>)
    ensures
        r@ == v@,
{
    copy_range(v.as_slice(), 0, v.len())
}

/// The names of all modules of the graph of `rules`.
fn collect_names(rules: &Vec<Rule>) -> (r: Vec<Vec<u8>>)
    ensures
        pieces(r@) == names_of(rviews(rules@)),
{
    let ghost rv = rviews(rules@);
    let mut names: Vec<Vec<u8>> = Vec::new();
    let mut i: usize = 0;
    while i < rules.len()
        invariant
            i <= rules@.len() == rv.len(),
            rv == rviews(rules@),
            pieces(names@) == ids(rv).subrange(0, i as int),
        decreases rules@.len() - i,
    {
        let ghost before = pieces(names@);
        names.push(copy_bytes(&rules[i].id));
        assert(ids(rv)[i as int] == rules@[i as int].id@);
        assert(pieces(names@) =~= before.push(rules@[i as int].id@));
        assert(pieces(names@) =~= ids(rv).subrange(0, i + 1));
        i = i + 1;
    }
    assert(ids(rv).subrange(0, i as int) =~= ids(rv));
    let mut i: usize = 0;
    while i < rules.len()
        invariant
            i <= rules@.len() == rv.len(),
            rv == rviews(rules@),
            pieces(names@) == add_all(ids(rv), rv.subrange(0, i as int)),
        decreases rules@.len() - i,
    {
        let ghost base = pieces(names@);
        let outs = &rules[i].outputs;
        let mut j: usize = 0;
        while j < outs.len()
            invariant
                j <= outs@.len(),
                i < rv.len(),
                pieces(outs@) == rv[i as int].outputs,
                pieces(names@) == add_refs(base, rv[i as int].outputs.subrange(0, j as int)),
            decreases outs@.len() - j,
        {
            assert(rv[i as int].outputs.subrange(0, j + 1).drop_last() =~= rv[
                i as int
            ].outputs.subrange(0, j as int));
            if position(&names, &outs[j]).is_none() {
                let ghost before = pieces(names@);
                names.push(copy_bytes(&outs[j]));
                assert(pieces(names@) =~= before.push(outs@[j as int]@));
            }
            j = j + 1;
        }
        assert(rv[i as int].outputs.subrange(0, j as int) =~= rv[i as int].outputs);
        assert(rv.subrange(0, i + 1).drop_last() =~= rv.subrange(0, i as int));
        i = i + 1;
    }
    assert(rv.subrange(0, i as int) =~= rv);
    names
}

/// `x` is among `v`.
fn contains_name(v: &Vec<Vec<u8>>, x: &Vec<u8>) -> (r: bool)
    ensures
        r == pieces(v@).contains(x@),
{
    position(v, x).is_some()
}

proof fn lemma_preds_keys(rules: Seq<RuleView>, name: Seq<u8>, n: nat)
    requires
        n <= rules.len(),
        n <= usize::MAX,
    ensures
        forall|e: int| 0 <= e < preds(rules, name, n).len() ==> (#[trigger] preds(rules, name, n)[e]).0 < n,
    decreases n,
{
    if n > 0 {
        let p = preds(rules, name, (n - 1) as nat);
        lemma_preds_keys(rules, name, (n - 1) as nat);
        assert forall|e: int| 0 <= e < preds(rules, name, n).len() implies (#[trigger] preds(
            rules,
            name,
            n,
        )[e]).0 < n by {
            if e < p.len() {
                assert(preds(rules, name, n)[e] == p[e]);
            }
        }
    }
}

/// A conjunction named `names[i]`, sending to `ids_outputs`, with a low
/// pulse remembered from each rule that lists it among its outputs.
fn conjunction_with_inputs(rules: &Vec<Rule>, names: &Vec<Vec<u8>>, i: usize, ids_outputs: Vec<usize>) -> (r: Module)
    requires
        i < names@.len(),
    ensures
        r@ == (ModuleView {
            id: names@[i as int]@,
            kind: KindView::Conjunction(preds(rviews(rules@), names@[i as int]@, rules@.len() as nat)),
            outputs: ids_outputs@,
        }),
{
    let ghost rv = rviews(rules@);
    let ghost name = names@[i as int]@;
    let mut m = Module {
        module_type: ModuleType::Conjunction { most_recent_pulses: Vec::new() },
        id: copy_bytes(&names[i]),
        ids_outputs,
    };
    let ghost outs = m.ids_outputs@;
    assert(preds(rv, name, 0) =~= seq![]);
    let mut j: usize = 0;
    while j < rules.len()
        invariant
            j <= rules@.len() == rv.len(),
            i < names@.len(),
            rv == rviews(rules@),
            name == names@[i as int]@,
            m@ == (ModuleView { id: name, kind: KindView::Conjunction(preds(rv, name, j as nat)), outputs: outs }),
        decreases rules@.len() - j,
    {
        assert(pieces(rules@[j as int].outputs@) == rv[j as int].outputs);
        if contains_name(&rules[j].outputs, &names[i]) {
            proof {
                lemma_preds_keys(rv, name, j as nat);
                let p = preds(rv, name, j as nat);
                assert(!exists|e: int| 0 <= e < p.len() && p[e].0 == j);
            }
            m.add_input_to_conjunction(j);
        }
        j = j + 1;
    }
    m
}

/// The index of each of `outs` among `names`.
fn resolve(names: &Vec<Vec<u8>>, outs: &Vec<Vec<u8>>) -> (r: Vec<usize>)
    requires
        forall|k: int| 0 <= k < outs@.len() ==> pieces(names@).contains(#[trigger] outs@[k]@),
    ensures
        r@ == pieces(outs@).map_values(|o: Seq<u8>| index_of(pieces(names@), o) as usize),
{
    let ghost target = pieces(outs@).map_values(|o: Seq<u8>| index_of(pieces(names@), o) as usize);
    let mut r: Vec<usize> = Vec::new();
    let mut k: usize = 0;
    while k < outs.len()
        invariant
            k <= outs@.len(),
            target == pieces(outs@).map_values(|o: Seq<u8>| index_of(pieces(names@), o) as usize),
            forall|k: int| 0 <= k < outs@.len() ==> pieces(names@).contains(#[trigger] outs@[k]@),
            r@ == target.subrange(0, k as int),
        decreases outs@.len() - k,
    {
        assert(pieces(names@).contains(outs@[k as int]@));
        match position(names, &outs[k]) {
            Some(p) => {
                proof {
                    lemma_index_of(pieces(names@), outs@[k as int]@, p as int);
                }
                r.push(p);
                assert(r@ =~= target.subrange(0, k + 1));
            },
            None => {
                assert(false);
            },
        }
        k = k + 1;
    }
    assert(target.subrange(0, k as int) =~= target);
    r
}

/// The modules of the graph of `rules`, whose module names are `names`.
fn build_modules(rules: &Vec<Rule>, names: &Vec<Vec<u8>>) -> (r: Vec<Module>)
    requires
        pieces(names@) == names_of(rviews(rules@)),
    ensures
        views(r@) == build(rviews(rules@)),
{
    let ghost rv = rviews(rules@);
    let ghost nm = pieces(names@);
    proof {
        lemma_add_all(ids(rv), rv);
    }
    let mut r: Vec<Module> = Vec::new();
    let mut i: usize = 0;
    while i < names.len()
        invariant
            i <= names@.len() == nm.len(),
            rv == rviews(rules@),
            nm == pieces(names@),
            nm == names_of(rv),
            forall|a: int, k: int|
                0 <= a < rv.len() && 0 <= k < rv[a].outputs.len() ==> nm.contains(
                    #[trigger] rv[a].outputs[k],
                ),
            views(r@) == Seq::new(i as nat, |a: int| module_at(rv, nm, a)),
        decreases names@.len() - i,
    {
        let m = if i < rules.len() {
            let outs = &rules[i].outputs;
            assert(pieces(outs@) == rv[i as int].outputs);
            assert forall|k: int| 0 <= k < outs@.len() implies pieces(names@).contains(
                #[trigger] outs@[k]@,
            ) by {
                assert(outs@[k]@ == rv[i as int].outputs[k]);
            }
            let ids_outputs = resolve(names, outs);
            match rules[i].prefix {
                Prefix::FlipFlop => Module { module_type: ModuleType::FlipFlop { state: false }, id: copy_bytes(&names[i]), ids_outputs },
                Prefix::Conjunction => conjunction_with_inputs(rules, names, i, ids_outputs),
                Prefix::Broadcast => Module { module_type: ModuleType::Broadcast, id: copy_bytes(&names[i]), ids_outputs },
            }
        } else {
            Module::make_output_module(&names[i])
        };
        assert(m@ == module_at(rv, nm, i as int));
        let ghost before = views(r@);
        r.push(m);
        assert(views(r@) =~= before.push(module_at(rv, nm, i as int)));
        assert(views(r@) =~= Seq::new((i + 1) as nat, |a: int| module_at(rv, nm, a)));
        i = i + 1;
    }
    r
}

/// A module graph, with the index of the module that the button sends to.
#[derive(Debug)]
pub struct Day20 {
    pub modules: Vec<Module>,
    pub broadcast: usize,
}

impl Day20 {
    /// Reads a module graph, one `<prefix><id> -> <output>, ...` rule per
    /// line. Modules that are referenced and never declared become sinks,
    /// and each conjunction remembers a low pulse from each predecessor.
    pub fn make_day(input: &str) -> (r: Result<Day20, ParseError>)
        ensures
            match parse_graph(input.spec_bytes()) {
                Ok((m, b)) => r matches Ok(d) && views(d.modules@) == m && d.broadcast == b,
                Err(e) => r matches Err(f) && e == f,
            },
    {
        let ls = split_lines(input.as_bytes());
        let rules = match parse_all(&ls) {
            Ok(rules) => rules,
            Err(e) => {
                return Err(e);
            },
        };
        if let Some(i) = find_duplicate(&rules) {
            return Err(ParseError::DuplicateModule(i));
        }
        let names = collect_names(&rules);
        let mut b: Vec<u8> = Vec::new();
        b.push(98);
        b.push(114);
        b.push(111);
        b.push(97);
        b.push(100);
        b.push(99);
        b.push(97);
        b.push(115);
        b.push(116);
        assert(b@ =~= broadcast_id());
        let broadcast = match position(&names, &b) {
            Some(k) => {
                proof {
                    lemma_index_of(pieces(names@), b@, k as int);
                }
                k
            },
            None => {
                return Err(ParseError::MissingBroadcaster);
            },
        };
        let modules = build_modules(&rules, &names);
        Ok(Day20 { modules, broadcast })
    }
}

/// The modules after `n` button presses on `mods`.
pub open spec fn state_after(mods: Seq<ModuleView>, start: usize, n: nat) -> Seq<ModuleView>
    decreases n,
{
    if n == 0 {
        mods
    } else {
        press(state_after(mods, start, (n - 1) as nat), start).0.mods
    }
}

/// Press number `n`, counted from 1.
pub open spec fn nth_press(mods: Seq<ModuleView>, start: usize, n: nat) -> (PressState, bool) {
    press(state_after(mods, start, (n - 1) as nat), start)
}

/// The low and high pulses of the first `n` presses together, if each of
/// them settled.
pub open spec fn tally(mods: Seq<ModuleView>, start: usize, n: nat) -> Option<(nat, nat)>
    decreases n,
{
    if n == 0 {
        Some((0, 0))
    } else {
        match tally(mods, start, (n - 1) as nat) {
            None => None,
            Some((l, h)) => {
                let (st, done) = nth_press(mods, start, n);
                if done {
                    Some((l + st.low, h + st.high))
                } else {
                    None
                }
            },
        }
    }
}

impl Module {
    /// An independent copy of this module.
    pub fn duplicate(&self) -> (r: Module)
        ensures
            r@ == self@,
    {
        let module_type = match &self.module_type {
            ModuleType::FlipFlop { state } => ModuleType::FlipFlop { state: *state },
            ModuleType::Conjunction { most_recent_pulses } => ModuleType::Conjunction {
                most_recent_pulses: crate::text::copy_vec(most_recent_pulses),
            },
            ModuleType::Broadcast => ModuleType::Broadcast,
            ModuleType::Output => ModuleType::Output,
        };
        Module { module_type, id: copy_bytes(&self.id), ids_outputs: crate::text::copy_vec(&self.ids_outputs) }
    }
}

/// The number of button presses of the first answer.
pub const NB_PRESSES: u64 = 1000;

/// The most button presses that the period detector makes.
pub const PRESS_LIMIT: u64 = 100000;

impl Day20 {
    /// An independent copy of the modules, in their current state.
    pub fn copy_modules(&self) -> (r: Vec<Module>)
        ensures
            views(r@) == views(self.modules@),
    {
        let mut r: Vec<Module> = Vec::new();
        let mut i: usize = 0;
        while i < self.modules.len()
            invariant
                i <= self.modules@.len(),
                views(r@) == views(self.modules@).subrange(0, i as int),
            decreases self.modules@.len() - i,
        {
            let ghost before = views(r@);
            r.push(self.modules[i].duplicate());
            assert(views(r@) =~= before.push(self.modules@[i as int]@));
            i = i + 1;
            assert(views(r@) =~= views(self.modules@).subrange(0, i as int));
        }
        r
    }

    /// The low and high pulse counts of each of the first `presses` button
    /// presses on a copy of the graph (`None` for a press that did not
    /// settle), leaving the graph itself as it is.
    pub fn press_counts(&self, presses: usize) -> (r: Vec<Option<(u64, u64)>>)
        ensures
            r@.len() == presses,
            forall|k: int|
                0 <= k < presses ==> {
                    let (st, done) = #[trigger] nth_press(views(self.modules@), self.broadcast, (k + 1) as nat);
                    &&& r@[k] is Some <==> done
                    &&& r@[k] matches Some((l, h)) ==> l == st.low && h == st.high
                },
    {
        let ghost m0 = views(self.modules@);
        let mut modules = self.copy_modules();
        let mut none: Vec<(usize, u64)> = Vec::new();
        let mut r: Vec<Option<(u64, u64)>> = Vec::new();
        let mut k: usize = 0;
        while k < presses
            invariant
                k <= presses,
                r@.len() == k,
                views(modules@) == state_after(m0, self.broadcast, k as nat),
                m0 == views(self.modules@),
                none@ == Seq::<(usize, u64)>::empty(),
                forall|j: int|
                    0 <= j < k ==> {
                        let (st, done) = #[trigger] nth_press(m0, self.broadcast, (j + 1) as nat);
                        &&& r@[j] is Some <==> done
                        &&& r@[j] matches Some((l, h)) ==> l == st.low && h == st.high
                    },
            decreases presses - k,
        {
            let t = handle_button_press(&mut modules, self.broadcast, 0, &mut none);
            assert(none@ =~= Seq::<(usize, u64)>::empty());
            r.push(t);
            k = k + 1;
        }
        r
    }

    /// The number of low pulses times the number of high pulses over the
    /// first thousand button presses, or the empty text if a press did not
    /// settle.
    pub fn solution1(&self) -> (r: String)
        ensures
            r@ == match tally(views(self.modules@), self.broadcast, NB_PRESSES as nat) {
                Some((l, h)) => decimal(l * h),
                None => Seq::<char>::empty(),
            },
    {
        let ghost m0 = views(self.modules@);
        let mut modules = self.copy_modules();
        let mut none: Vec<(usize, u64)> = Vec::new();
        let mut nb_low: u64 = 0;
        let mut nb_high: u64 = 0;
        let mut i: u64 = 0;
        while i < NB_PRESSES
            invariant
                i <= NB_PRESSES,
                views(modules@) == state_after(m0, self.broadcast, i as nat),
                m0 == views(self.modules@),
                tally(m0, self.broadcast, i as nat) == Some((nb_low as nat, nb_high as nat)),
                nb_low + nb_high <= i * EVENT_LIMIT,
            decreases NB_PRESSES - i,
        {
            match handle_button_press(&mut modules, self.broadcast, i, &mut none) {
                Some((l, h)) => {
                    nb_low = nb_low + l;
                    nb_high = nb_high + h;
                },
                None => {
                    proof {
                        lemma_tally_stays_none(m0, self.broadcast, (i + 1) as nat, NB_PRESSES as nat);
                    }
                    return String::new();
                },
            }
            i = i + 1;
        }
        assert(nb_low * nb_high <= u64::MAX) by (nonlinear_arith)
            requires
                nb_low + nb_high <= 1000 * 1048576,
        ;
        u64_text(nb_low * nb_high)
    }
}

proof fn lemma_tally_stays_none(mods: Seq<ModuleView>, start: usize, i: nat, n: nat)
    requires
        i <= n,
        tally(mods, start, i) is None,
    ensures
        tally(mods, start, n) is None,
    decreases n - i,
{
    if i < n {
        lemma_tally_stays_none(mods, start, i + 1, n);
    }
}

/// The greatest common divisor, with `gcd(a, 0) == a`.
pub open spec fn gcd(a: nat, b: nat) -> nat
    decreases b,
{
    if b == 0 {
        a
    } else {
        gcd(b, a % b)
    }
}

/// The least common multiple, 0 when either number is 0.
pub open spec fn lcm(a: nat, b: nat) -> nat {
    if a == 0 || b == 0 {
        0
    } else {
        a * (b / gcd(a, b))
    }
}

/// The least common multiple of all of `v` (1 for none).
pub open spec fn lcm_all(v: Seq<u64>) -> nat
    decreases v.len(),
{
    if v.len() == 0 {
        1
    } else {
        lcm(lcm_all(v.drop_last()), v.last() as nat)
    }
}

proof fn lemma_gcd_positive(a: nat, b: nat)
    requires
        b > 0,
    ensures
        gcd(a, b) > 0,
    decreases b,
{
    if a % b > 0 {
        lemma_gcd_positive(b, a % b);
    } else {
        assert(gcd(b, 0) == b);
    }
}

/// Relies on `num::integer::gcd` (Stein's algorithm on `u64`): the
/// greatest common divisor, and the other number when one is 0.
#[verifier::external_body]
fn gcd_of(a: u64, b: u64) -> (r: u64)
    ensures
        r == gcd(a as nat, b as nat),
{
    num::integer::gcd(a, b)
}

/// The least common multiple of all of `v`, or `None` if it, or the least
/// common multiple of one of its prefixes, does not fit in 64 bits.
pub fn least_common_multiple(v: &Vec<u64>) -> (r: Option<u64>)
    ensures
        r matches Some(x) ==> x == lcm_all(v@),
        r is None ==> exists|k: int| 0 <= k <= v@.len() && lcm_all(#[trigger] v@.subrange(0, k)) > u64::MAX,
{
    let mut acc: u64 = 1;
    let mut i: usize = 0;
    assert(v@.subrange(0, 0) =~= seq![]);
    while i < v.len()
        invariant
            i <= v@.len(),
            acc == lcm_all(v@.subrange(0, i as int)),
        decreases v@.len() - i,
    {
        let x = v[i];
        assert(v@.subrange(0, i + 1).drop_last() =~= v@.subrange(0, i as int));
        if acc == 0 || x == 0 {
            acc = 0;
        } else {
            let g = gcd_of(acc, x);
            proof {
                lemma_gcd_positive(acc as nat, x as nat);
            }
            match acc.checked_mul(x / g) {
                Some(y) => {
                    acc = y;
                },
                None => {
                    assert(lcm_all(v@.subrange(0, i + 1)) > u64::MAX);
                    return None;
                },
            }
        }
        i = i + 1;
    }
    assert(v@.subrange(0, i as int) =~= v@);
    Some(acc)
}

/// Press `p` is the first in which module `w` sends a low pulse.
pub open spec fn is_first_low(mods: Seq<ModuleView>, start: usize, w: usize, p: nat) -> bool {
    &&& p >= 1
    &&& nth_press(mods, start, p).0.lows.contains(w)
    &&& forall|q: nat| 1 <= q < p ==> !(#[trigger] nth_press(mods, start, q)).0.lows.contains(w)
}

/// Module `w` sends no low pulse in any of the first `n` presses.
pub open spec fn never_low(mods: Seq<ModuleView>, start: usize, w: usize, n: nat) -> bool {
    forall|q: nat| 1 <= q <= n ==> !(#[trigger] nth_press(mods, start, q)).0.lows.contains(w)
}

/// Some press among the first `n` does not settle.
pub open spec fn some_unsettled(mods: Seq<ModuleView>, start: usize, n: nat) -> bool {
    exists|q: nat| 1 <= q <= n && !(#[trigger] nth_press(mods, start, q)).1
}

impl Day20 {
    /// For each module of `watch`, the first press in which it sends a low
    /// pulse, pressing a copy of the graph over and over until every one of
    /// them has. `None` if a press does not settle or the press limit is
    /// reached first.
    pub fn record_first_lows(&self, watch: &Vec<usize>) -> (r: Option<Vec<u64>>)
        ensures
            r matches Some(v) ==> v@.len() == watch@.len() && forall|k: int|
                0 <= k < watch@.len() ==> is_first_low(
                    views(self.modules@),
                    self.broadcast,
                    watch@[k],
                    #[trigger] v@[k] as nat,
                ),
            r is None ==> some_unsettled(views(self.modules@), self.broadcast, PRESS_LIMIT as nat)
                || exists|k: int|
                0 <= k < watch@.len() && never_low(
                    views(self.modules@),
                    self.broadcast,
                    #[trigger] watch@[k],
                    PRESS_LIMIT as nat,
                ),
    {
        let ghost m0 = views(self.modules@);
        let ghost b = self.broadcast;
        let mut table: Vec<(usize, u64)> = Vec::new();
        let mut i: usize = 0;
        while i < watch.len()
            invariant
                i <= watch@.len(),
                table@.len() == i,
                forall|k: int| 0 <= k < i ==> #[trigger] table@[k] == (watch@[k], 0u64),
            decreases watch@.len() - i,
        {
            table.push((watch[i], 0));
            i = i + 1;
        }
        let mut modules = self.copy_modules();
        let mut p: u64 = 1;
        while p <= PRESS_LIMIT
            invariant
                1 <= p <= PRESS_LIMIT + 1,
                m0 == views(self.modules@),
                b == self.broadcast,
                views(modules@) == state_after(m0, b, (p - 1) as nat),
                table@.len() == watch@.len(),
                p > 1 ==> exists|k: int| 0 <= k < table@.len() && (#[trigger] table@[k]).1 == 0,
                forall|k: int|
                    0 <= k < table@.len() ==> {
                        &&& (#[trigger] table@[k]).0 == watch@[k]
                        &&& table@[k].1 == 0 ==> never_low(m0, b, watch@[k], (p - 1) as nat)
                        &&& table@[k].1 != 0 ==> is_first_low(m0, b, watch@[k], table@[k].1 as nat)
                    },
            decreases PRESS_LIMIT + 1 - p,
        {
            let ghost before = table@;
            let ghost m_before = views(modules@);
            match handle_button_press(&mut modules, self.broadcast, p, &mut table) {
                None => {
                    assert(!nth_press(m0, b, p as nat).1);
                    return None;
                },
                Some(_) => {},
            }
            let ghost lows = nth_press(m0, b, p as nat).0.lows;
            assert(table@ == mark(before, lows, p));
            assert forall|k: int| 0 <= k < table@.len() implies {
                &&& (#[trigger] table@[k]).0 == watch@[k]
                &&& table@[k].1 == 0 ==> never_low(m0, b, watch@[k], p as nat)
                &&& table@[k].1 != 0 ==> is_first_low(m0, b, watch@[k], table@[k].1 as nat)
            } by {
                if before[k].1 == 0 {
                    assert(never_low(m0, b, watch@[k], (p - 1) as nat));
                    if lows.contains(watch@[k]) {
                        assert forall|q: nat| 1 <= q < p implies !(#[trigger] nth_press(
                            m0,
                            b,
                            q,
                        )).0.lows.contains(watch@[k]) by {}
                    } else {
                        assert forall|q: nat| 1 <= q <= p implies !(#[trigger] nth_press(
                            m0,
                            b,
                            q,
                        )).0.lows.contains(watch@[k]) by {
                            if q < p {
                            }
                        }
                    }
                }
            }
            let mut all: bool = true;
            let mut k: usize = 0;
            while k < table.len()
                invariant
                    k <= table@.len(),
                    all == forall|j: int| 0 <= j < k ==> (#[trigger] table@[j]).1 != 0,
                decreases table@.len() - k,
            {
                if table[k].1 == 0 {
                    all = false;
                }
                k = k + 1;
            }
            if all {
                let mut v: Vec<u64> = Vec::new();
                let mut k: usize = 0;
                while k < table.len()
                    invariant
                        k <= table@.len(),
                        v@.len() == k,
                        forall|j: int| 0 <= j < k ==> #[trigger] v@[j] == table@[j].1,
                    decreases table@.len() - k,
                {
                    v.push(table[k].1);
                    k = k + 1;
                }
                return Some(v);
            }
            assert(exists|j: int| 0 <= j < table@.len() && (#[trigger] table@[j]).1 == 0);
            p = p + 1;
        }
        proof {
            let k = choose|k: int| 0 <= k < table@.len() && (#[trigger] table@[k]).1 == 0;
            assert(never_low(m0, b, watch@[k], PRESS_LIMIT as nat));
        }
        None
    }
}

/// The names of the modules, in order.
pub open spec fn mod_ids(mods: Seq<ModuleView>) -> Seq<Seq<u8>> {
    mods.map_values(|m: ModuleView| m.id)
}

/// The name of the module whose first low pulse the second answer is about.
pub open spec fn rx_id() -> Seq<u8> {
    seq![114u8, 120u8]
}

/// The modules among the first `n` that send to module `x`, in order.
pub open spec fn feeders_upto(mods: Seq<ModuleView>, x: usize, n: nat) -> Seq<usize>
    decreases n,
{
    if n == 0 {
        seq![]
    } else {
        let f = feeders_upto(mods, x, (n - 1) as nat);
        if mods[n - 1].outputs.contains(x) {
            f.push((n - 1) as usize)
        } else {
            f
        }
    }
}

/// The modules that send to module `x`, in order.
pub open spec fn feeders(mods: Seq<ModuleView>, x: usize) -> Seq<usize> {
    feeders_upto(mods, x, mods.len())
}

/// The first module that sends to the module named `rx`, if there is one.
pub open spec fn rx_predecessor(mods: Seq<ModuleView>) -> Option<usize> {
    let names = mod_ids(mods);
    if !names.contains(rx_id()) {
        None
    } else {
        let f = feeders(mods, index_of(names, rx_id()) as usize);
        if f.len() == 0 {
            None
        } else {
            Some(f[0])
        }
    }
}

/// The modules that the period detector watches: those that send to the
/// predecessor of `rx`.
pub open spec fn watched(mods: Seq<ModuleView>) -> Seq<usize> {
    match rx_predecessor(mods) {
        Some(p) => feeders(mods, p),
        None => seq![],
    }
}

/// `v` holds, for each of `ws`, the first press in which it sends a low pulse.
pub open spec fn first_lows(mods: Seq<ModuleView>, start: usize, ws: Seq<usize>, v: Seq<u64>) -> bool {
    &&& v.len() == ws.len()
    &&& forall|k: int| 0 <= k < ws.len() ==> is_first_low(mods, start, ws[k], #[trigger] v[k] as nat)
}

/// `x` is among `v`.
fn contains_index(v: &Vec<usize>, x: usize) -> (r: bool)
    ensures
        r == v@.contains(x),
{
    let mut i: usize = 0;
    while i < v.len()
        invariant
            i <= v@.len(),
            forall|j: int| 0 <= j < i ==> v@[j] != x,
        decreases v@.len() - i,
    {
        if v[i] == x {
            return true;
        }
        i = i + 1;
    }
    false
}

impl Day20 {
    /// The first module named `name`.
    fn find_module(&self, name: &Vec<u8>) -> (r: Option<usize>)
        ensures
            r matches Some(i) ==> is_first_index(mod_ids(views(self.modules@)), name@, i as int),
            r is None ==> !mod_ids(views(self.modules@)).contains(name@),
    {
        let ghost names = mod_ids(views(self.modules@));
        let mut i: usize = 0;
        while i < self.modules.len()
            invariant
                i <= self.modules@.len() == names.len(),
                names == mod_ids(views(self.modules@)),
                forall|j: int| 0 <= j < i ==> names[j] != name@,
            decreases self.modules@.len() - i,
        {
            if crate::text::bytes_equal(self.modules[i].id.as_slice(), name.as_slice()) {
                return Some(i);
            }
            i = i + 1;
        }
        None
    }

    /// The modules that send to module `x`, in order.
    pub fn feeders_of(&self, x: usize) -> (r: Vec<usize>)
        ensures
            r@ == feeders(views(self.modules@), x),
    {
        let ghost m = views(self.modules@);
        let mut r: Vec<usize> = Vec::new();
        let mut i: usize = 0;
        while i < self.modules.len()
            invariant
                i <= self.modules@.len() == m.len(),
                m == views(self.modules@),
                r@ == feeders_upto(m, x, i as nat),
            decreases self.modules@.len() - i,
        {
            if contains_index(&self.modules[i].ids_outputs, x) {
                r.push(i);
            }
            i = i + 1;
        }
        r
    }

    /// The press at which `rx` would first receive a low pulse, found as the
    /// least common multiple of the first presses in which each module that
    /// feeds the predecessor of `rx` sends a low pulse. This takes each of
    /// those modules to send low pulses periodically from the first press on,
    /// which is not checked.
    pub fn rx_period(&self) -> (r: Option<u64>)
        ensures
            ({
                let m = views(self.modules@);
                let b = self.broadcast;
                &&& r matches Some(x) ==> rx_predecessor(m) is Some && exists|v: Seq<u64>|
                    first_lows(m, b, watched(m), v) && x == lcm_all(v)
                &&& r is None ==> rx_predecessor(m) is None || some_unsettled(m, b, PRESS_LIMIT as nat)
                    || (exists|k: int|
                    0 <= k < watched(m).len() && never_low(
                        m,
                        b,
                        #[trigger] watched(m)[k],
                        PRESS_LIMIT as nat,
                    )) || (exists|v: Seq<u64>, k: int|
                    first_lows(m, b, watched(m), v) && 0 <= k <= v.len() && lcm_all(
                        #[trigger] v.subrange(0, k),
                    ) > u64::MAX)
            }),
    {
        let ghost m = views(self.modules@);
        let mut rx: Vec<u8> = Vec::new();
        rx.push(114);
        rx.push(120);
        assert(rx@ =~= rx_id());
        let rx_index = match self.find_module(&rx) {
            Some(i) => i,
            None => {
                return None;
            },
        };
        proof {
            lemma_index_of(mod_ids(m), rx_id(), rx_index as int);
        }
        let pred_list = self.feeders_of(rx_index);
        if pred_list.len() == 0 {
            return None;
        }
        let watch = self.feeders_of(pred_list[0]);
        assert(watch@ == watched(m));
        match self.record_first_lows(&watch) {
            None => None,
            Some(v) => {
                assert(first_lows(m, self.broadcast, watched(m), v@));
                let r = least_common_multiple(&v);
                r
            },
        }
    }

    /// The second answer: the text of `rx_period`, or the empty text when
    /// there is none.
    pub fn solution2(&self) -> (r: String)
        ensures
            ({
                let m = views(self.modules@);
                let b = self.broadcast;
                &&& r@.len() > 0 ==> exists|v: Seq<u64>|
                    rx_predecessor(m) is Some && first_lows(m, b, watched(m), v) && r@ == decimal(lcm_all(v))
                &&& r@.len() == 0 ==> rx_predecessor(m) is None || some_unsettled(m, b, PRESS_LIMIT as nat)
                    || (exists|k: int|
                    0 <= k < watched(m).len() && never_low(
                        m,
                        b,
                        #[trigger] watched(m)[k],
                        PRESS_LIMIT as nat,
                    )) || (exists|v: Seq<u64>, k: int|
                    first_lows(m, b, watched(m), v) && 0 <= k <= v.len() && lcm_all(
                        #[trigger] v.subrange(0, k),
                    ) > u64::MAX)
            }),
    {
        match self.rx_period() {
            Some(x) => {
                let r = u64_text(x);
                proof {
                    crate::text::lemma_decimal_nonempty(x as nat);
                }
                r
            },
            None => String::new(),
        }
    }
}

/// Every flip-flop is off and every conjunction remembers only low pulses.
pub open spec fn initial_state(mods: Seq<ModuleView>) -> bool {
    forall|i: int|
        0 <= i < mods.len() ==> match (#[trigger] mods[i]).kind {
            KindView::FlipFlop(on) => !on,
            KindView::Conjunction(mem) => forall|e: int| 0 <= e < mem.len() ==> (#[trigger] mem[e]).1 == Pulse::Low,
            _ => true,
        }
}

/// Every output of every module is a module of the graph.
pub open spec fn outputs_resolve(mods: Seq<ModuleView>) -> bool {
    forall|i: int, k: int|
        0 <= i < mods.len() && 0 <= k < mods[i].outputs.len() ==> (#[trigger] mods[i].outputs[k]) < mods.len()
}

proof fn lemma_preds_low(rules: Seq<RuleView>, name: Seq<u8>, n: nat)
    requires
        n <= rules.len(),
    ensures
        forall|e: int| 0 <= e < preds(rules, name, n).len() ==> (#[trigger] preds(rules, name, n)[e]).1 == Pulse::Low,
    decreases n,
{
    if n > 0 {
        lemma_preds_low(rules, name, (n - 1) as nat);
    }
}

/// Reading the same text twice gives the same graph, and a graph just read
/// has every flip-flop off, every conjunction remembering a low pulse from
/// each predecessor, and every output naming one of its modules.
pub proof fn lemma_parse_idempotent(t1: Seq<u8>, t2: Seq<u8>)
    requires
        t1 == t2,
    ensures
        parse_graph(t1) == parse_graph(t2),
        parse_graph(t1) matches Ok((m, b)) ==> initial_state(m) && outputs_resolve(m) && b < m.len(),
{
    if let Ok((m, b)) = parse_graph(t1) {
        let rules = parse_rules(lines(t1))->Ok_0;
        let names = names_of(rules);
        lemma_add_all(ids(rules), rules);
        assert(m == build(rules));
        assert forall|i: int| 0 <= i < m.len() implies match (#[trigger] m[i]).kind {
            KindView::FlipFlop(on) => !on,
            KindView::Conjunction(mem) => forall|e: int| 0 <= e < mem.len() ==> (#[trigger] mem[e]).1 == Pulse::Low,
            _ => true,
        } by {
            if i < rules.len() {
                lemma_preds_low(rules, names[i], rules.len() as nat);
            }
        }
        assert forall|i: int, k: int| 0 <= i < m.len() && 0 <= k < m[i].outputs.len() implies (
        #[trigger] m[i].outputs[k]) < m.len() by {
            let o = rules[i].outputs[k];
            assert(names.contains(o));
            let w = choose|w: int| 0 <= w < names.len() && names[w] == o;
            assert(exists|j: int| is_first_index(names, o, j)) by {
                lemma_first_index_exists(names, o, w);
            }
        }
        let w = choose|w: int| 0 <= w < names.len() && names[w] == broadcast_id();
        lemma_first_index_exists(names, broadcast_id(), w);
    }
}

proof fn lemma_first_index_exists(s: Seq<Seq<u8>>, x: Seq<u8>, w: int)
    requires
        0 <= w < s.len(),
        s[w] == x,
    ensures
        exists|j: int| is_first_index(s, x, j),
        0 <= index_of(s, x) <= w,
    decreases w,
{
    if forall|j: int| 0 <= j < w ==> s[j] != x {
        assert(is_first_index(s, x, w));
        lemma_index_of(s, x, w);
    } else {
        let j = choose|j: int| 0 <= j < w && s[j] == x;
        lemma_first_index_exists(s, x, j);
    }
}

/// Pressing the button on two graphs read from the same text gives the same
/// counts, the same states and the same low senders at every press.
pub proof fn lemma_replay_deterministic(t1: Seq<u8>, t2: Seq<u8>, n: nat)
    requires
        t1 == t2,
        parse_graph(t1) is Ok,
    ensures
        ({
            let (m1, b1) = parse_graph(t1)->Ok_0;
            let (m2, b2) = parse_graph(t2)->Ok_0;
            &&& tally(m1, b1, n) == tally(m2, b2, n)
            &&& forall|k: nat| 1 <= k <= n ==> #[trigger] nth_press(m1, b1, k) == nth_press(m2, b2, k)
        }),
{
}

impl Module {
    /// Reads one line, numbered `i`: the module's type, its name and the
    /// names of its outputs. Conjunctions get their inputs later.
    pub fn construct_from_line_with_empty_inputs(line: &Vec<u8>, i: usize) -> (r: Result<Rule, ParseError>)
        ensures
            match line_error(line@, i) {
                Some(e) => r == Err::<Rule, ParseError>(e),
                None => r matches Ok(rule) && rule@ == rule_of(line@),
            },
    {
        let arrow_bytes: [u8; 4] = [32, 45, 62, 32];
        assert(arrow_bytes@ =~= arrow());
        let k = match find(line.as_slice(), &arrow_bytes, 0) {
            None => {
                return Err(ParseError::MalformedLine(i));
            },
            Some(k) => k,
        };
        proof {
            crate::text::lemma_find_from_bounds(line@, arrow(), 0);
        }
        if k == 0 {
            return Err(ParseError::UnknownPrefix(i));
        }
        let prefix = if line[0] == 37 {
            Prefix::FlipFlop
        } else if line[0] == 38 {
            Prefix::Conjunction
        } else if line[0] == 98 {
            Prefix::Broadcast
        } else {
            return Err(ParseError::UnknownPrefix(i));
        };
        let id = match prefix {
            Prefix::Broadcast => {
                let mut b: Vec<u8> = Vec::new();
                b.push(98);
                b.push(114);
                b.push(111);
                b.push(97);
                b.push(100);
                b.push(99);
                b.push(97);
                b.push(115);
                b.push(116);
                assert(b@ =~= broadcast_id());
                b
            },
            _ => copy_range(line.as_slice(), 1, k),
        };
        let n = line.len();
        assert(k + 4 <= n);
        let right = copy_range(line.as_slice(), k + 4, n);
        let comma_bytes: [u8; 2] = [44, 32];
        assert(comma_bytes@ =~= comma());
        let outputs = split_on(right.as_slice(), &comma_bytes);
        Ok(Rule { prefix, id, outputs })
    }

    /// A sink named `id`.
    pub fn make_output_module(id: &Vec<u8>) -> (r: Module)
        ensures
            r@ == (ModuleView { id: id@, kind: KindView::Output, outputs: seq![] }),
    {
        Module { module_type: ModuleType::Output, id: copy_bytes(id), ids_outputs: Vec::new() }
    }

    /// Makes module `input` a predecessor of this module if it is a
    /// conjunction: its last pulse from `input` is low.
    pub fn add_input_to_conjunction(&mut self, input: usize)
        ensures
            final(self)@ == (ModuleView { kind: add_input(old(self)@.kind, input), ..old(self)@ }),
    {
        self.module_type.add_input(input);
    }
}

impl ModuleType {
    /// Makes module `input` a predecessor if this is a conjunction.
    pub fn add_input(&mut self, input: usize)
        ensures
            final(self)@ == add_input(old(self)@, input),
    {
        match self {
            ModuleType::Conjunction { most_recent_pulses } => {
                let ghost mem = most_recent_pulses@;
                let mut found: bool = false;
                let mut i: usize = 0;
                while i < most_recent_pulses.len()
                    invariant
                        i <= most_recent_pulses@.len() == mem.len(),
                        old(self)@ == KindView::Conjunction(mem),
                        found == exists|e: int| 0 <= e < i && mem[e].0 == input,
                        forall|e: int| 0 <= e < i ==> most_recent_pulses@[e] == (if mem[e].0 == input { (input, Pulse::Low) } else { mem[e] }),
                        forall|e: int| i <= e < mem.len() ==> most_recent_pulses@[e] == mem[e],
                    decreases mem.len() - i,
                {
                    if most_recent_pulses[i].0 == input {
                        most_recent_pulses.set(i, (input, Pulse::Low));
                        found = true;
                        assert(mem[i as int].0 == input);
                    } else {
                        assert(mem[i as int].0 != input);
                        assert(found == exists|e: int| 0 <= e < i + 1 && mem[e].0 == input) by {
                            if found {
                                let e = choose|e: int| 0 <= e < i && mem[e].0 == input;
                                assert(0 <= e < i + 1 && mem[e].0 == input);
                            }
                        }
                    }
                    i = i + 1;
                }
                if found {
                    assert(exists|e: int| 0 <= e < mem.len() && mem[e].0 == input);
                    assert(most_recent_pulses@ =~= add_input(KindView::Conjunction(mem), input)->Conjunction_0);
                } else {
                    assert(!exists|e: int| 0 <= e < mem.len() && mem[e].0 == input);
                    assert(most_recent_pulses@ =~= mem);
                    most_recent_pulses.push((input, Pulse::Low));
                    assert(most_recent_pulses@ =~= add_input(KindView::Conjunction(mem), input)->Conjunction_0);
                }
            },
            _ => {},
        }
    }
}

/// The state of a module once module `input` is made its predecessor.
pub open spec fn add_input(k: KindView, input: usize) -> KindView {
    match k {
        KindView::Conjunction(mem) => KindView::Conjunction(
            if exists|e: int| 0 <= e < mem.len() && mem[e].0 == input {
                mem.map_values(|x: (usize, Pulse)| if x.0 == input { (input, Pulse::Low) } else { x })
            } else {
                mem.push((input, Pulse::Low))
            },
        ),
        _ => k,
    }
}

} // verus!
