//! A network of nodes with a left and a right neighbour, walked by
//! following a cycle of left/right instructions.
use vstd::prelude::*;
use vstd::string::StringSliceAdditionalSpecFns;
use crate::text::{copy_range, decimal, find, find_from, lines, pieces, split_lines, u64_text};

verus! {

/// An instruction of the walk.
#[derive(Clone, Copy, PartialEq, Eq, Debug, Structural)]
pub enum Direction {
    Left,
    Right,
}

/// A node: its name and the indices of its left and right neighbours.
#[derive(Debug)]
pub struct Node {
    pub id: Vec<u8>,
    pub left: usize,
    pub right: usize,
}

/// The instructions and the nodes.
#[derive(Debug)]
pub struct Day8 {
    pub instructions: Vec<Direction>,
    pub nodes: Vec<Node>,
}

/// Where a walk stops: at the node named `ZZZ`, or at any node whose name
/// ends with `Z`.
#[derive(Clone, Copy, PartialEq, Eq, Debug, Structural)]
pub enum EndCondition {
    Exact,
    EndsWithZ,
}

/// The name `ZZZ`.
pub open spec fn zzz() -> Seq<u8> {
    seq![90u8, 90u8, 90u8]
}

/// The walk stops at a node named `id`.
pub open spec fn ends(id: Seq<u8>, cond: EndCondition) -> bool {
    match cond {
        EndCondition::Exact => id == zzz(),
        EndCondition::EndsWithZ => id.len() > 0 && id.last() == 90,
    }
}

/// Every neighbour index names a node, and there is an instruction.
pub open spec fn network_ok(d: &Day8) -> bool {
    &&& d.instructions@.len() > 0
    &&& forall|i: int| 0 <= i < d.nodes@.len() ==> (#[trigger] d.nodes@[i]).left < d.nodes@.len() && d.nodes@[i].right < d.nodes@.len()
}

/// The node reached from `start` after `k` instructions.
pub open spec fn position(d: &Day8, start: int, k: nat) -> int
    decreases k,
{
    if k == 0 {
        start
    } else {
        let p = position(d, start, (k - 1) as nat);
        let n = d.nodes@[p];
        match d.instructions@[((k - 1) as int) % (d.instructions@.len() as int)] {
            Direction::Left => n.left as int,
            Direction::Right => n.right as int,
        }
    }
}

proof fn lemma_position_in_range(d: &Day8, start: int, k: nat)
    requires
        network_ok(d),
        0 <= start < d.nodes@.len(),
    ensures
        0 <= position(d, start, k) < d.nodes@.len(),
    decreases k,
{
    if k > 0 {
        lemma_position_in_range(d, start, (k - 1) as nat);
        assert(d.nodes@[position(d, start, (k - 1) as nat)].left < d.nodes@.len());
    }
}

/// A walk through the network: the node it stands on and the number of
/// instructions followed.
#[derive(Debug)]
pub struct Walker {
    pub curr_node: usize,
    pub nb_instructions: usize,
}

impl Walker {
    /// A walk starting at node `start`.
    pub fn make_from_id(start: usize) -> (r: Walker)
        ensures
            r.curr_node == start && r.nb_instructions == 0,
    {
        Walker { curr_node: start, nb_instructions: 0 }
    }

    /// The number of instructions followed until the walk stands on a node
    /// where it stops; `None` if it never does (no stop within as many
    /// steps as there are pairs of node and instruction).
    pub fn walk(self, day8: &Day8, end_condition: EndCondition) -> (r: Option<u128>)
        requires
            network_ok(day8),
            self.curr_node < day8.nodes@.len(),
            self.nb_instructions == 0,
        ensures
            r matches Some(k) ==> ends(day8.nodes@[position(day8, self.curr_node as int, k as nat)].id@, end_condition)
                && forall|j: nat| j < k ==> !ends(day8.nodes@[#[trigger] position(day8, self.curr_node as int, j)].id@, end_condition),
            r is None ==> forall|j: nat| j <= day8.nodes@.len() * day8.instructions@.len() ==> !ends(
                day8.nodes@[#[trigger] position(day8, self.curr_node as int, j)].id@,
                end_condition,
            ),
    {
        let start = self.curr_node;
        let length = day8.instructions.len();
        let a = day8.nodes.len() as u128;
        let b = length as u128;
        assert(a * b <= 0xffff_ffff_ffff_ffff_ffff_ffff_ffff_ffff) by (nonlinear_arith)
            requires a <= 0xffff_ffff_ffff_ffff, b <= 0xffff_ffff_ffff_ffff;
        let limit: u128 = a * b;
        let mut cur = self.curr_node;
        let mut steps: u128 = 0;
        loop
            invariant
                network_ok(day8),
                length == day8.instructions@.len(),
                start == self.curr_node,
                start < day8.nodes@.len(),
                limit == day8.nodes@.len() * day8.instructions@.len(),
                steps <= limit,
                cur as int == position(day8, start as int, steps as nat),
                cur < day8.nodes@.len(),
                forall|j: nat| j < steps ==> !ends(day8.nodes@[#[trigger] position(day8, start as int, j)].id@, end_condition),
            decreases limit - steps,
        {
            if stops_at(&day8.nodes[cur].id, end_condition) {
                return Some(steps);
            }
            if steps == limit {
                return None;
            }
            let idx = (steps % (length as u128)) as usize;
            let next = match day8.instructions[idx] {
                Direction::Left => day8.nodes[cur].left,
                Direction::Right => day8.nodes[cur].right,
            };
            assert(day8.nodes@[cur as int].left < day8.nodes@.len());
            cur = next;
            steps = steps + 1;
        }
    }
}

/// Whether a walk stops at a node named `id`.
fn stops_at(id: &Vec<u8>, cond: EndCondition) -> (r: bool)
    ensures
        r == ends(id@, cond),
{
    match cond {
        EndCondition::Exact => {
            if id.len() == 3 && id[0] == 90 && id[1] == 90 && id[2] == 90 {
                assert(id@ =~= zzz());
                true
            } else {
                false
            }
        },
        EndCondition::EndsWithZ => id.len() > 0 && id[id.len() - 1] == 90,
    }
}

/// The direction that a letter names: `L` or `R`.
pub open spec fn direction_of(b: u8) -> Option<Direction> {
    if b == 76 {
        Some(Direction::Left)
    } else if b == 82 {
        Some(Direction::Right)
    } else {
        None
    }
}

/// `s` without its leading parentheses.
pub open spec fn trim_open(s: Seq<u8>) -> Seq<u8>
    decreases s.len(),
{
    if s.len() > 0 && (s[0] == 40 || s[0] == 41) {
        trim_open(s.drop_first())
    } else {
        s
    }
}

/// `s` without its trailing parentheses.
pub open spec fn trim_close(s: Seq<u8>) -> Seq<u8>
    decreases s.len(),
{
    if s.len() > 0 && (s.last() == 40 || s.last() == 41) {
        trim_close(s.drop_last())
    } else {
        s
    }
}

/// The name and neighbour names that a line `<id> = (<left>, <right>)`
/// writes.
pub open spec fn parse_node(l: Seq<u8>) -> Option<(Seq<u8>, Seq<u8>, Seq<u8>)> {
    match find_from(l, seq![32u8, 61u8, 32u8], 0) {
        None => None,
        Some(k) => {
            let rest = trim_close(trim_open(l.subrange(k + 3, l.len() as int)));
            match find_from(rest, seq![44u8, 32u8], 0) {
                None => None,
                Some(j) => Some((l.subrange(0, k), rest.subrange(0, j), rest.subrange(j + 2, rest.len() as int))),
            }
        },
    }
}

/// Reads a node line into its name and neighbour names.
fn read_node(l: &[u8]) -> (r: Option<(Vec<u8>, Vec<u8>, Vec<u8>)>)
    ensures
        match parse_node(l@) {
            Some((a, b, c)) => r matches Some((x, y, z)) && x@ == a && y@ == b && z@ == c,
            None => r is None,
        },
{
    let eq: [u8; 3] = [32, 61, 32];
    assert(eq@ =~= seq![32u8, 61u8, 32u8]);
    let k = match find(l, &eq, 0) {
        Some(k) => k,
        None => {
            return None;
        },
    };
    proof {
        crate::text::lemma_find_from_bounds(l@, seq![32u8, 61u8, 32u8], 0);
    }
    let n = l.len();
    let mut a: usize = k + 3;
    let ghost tail = l@.subrange(k + 3, n as int);
    assert(l@.subrange(a as int, n as int) == tail);
    while a < n && (l[a] == 40 || l[a] == 41)
        invariant
            k + 3 <= a <= n == l@.len(),
            tail == l@.subrange(k + 3, n as int),
            trim_open(tail) == trim_open(l@.subrange(a as int, n as int)),
        decreases n - a,
    {
        assert(l@.subrange(a as int, n as int).drop_first() =~= l@.subrange(a + 1, n as int));
        a = a + 1;
    }
    assert(trim_open(tail) == l@.subrange(a as int, n as int));
    let mut b: usize = n;
    while b > a && (l[b - 1] == 40 || l[b - 1] == 41)
        invariant
            a <= b <= n == l@.len(),
            trim_open(tail) == l@.subrange(a as int, n as int),
            trim_close(trim_open(tail)) == trim_close(l@.subrange(a as int, b as int)),
        decreases b,
    {
        assert(l@.subrange(a as int, b as int).drop_last() =~= l@.subrange(a as int, b - 1));
        b = b - 1;
    }
    let rest = copy_range(l, a, b);
    let sep: [u8; 2] = [44, 32];
    assert(sep@ =~= seq![44u8, 32u8]);
    let j = match find(rest.as_slice(), &sep, 0) {
        Some(j) => j,
        None => {
            return None;
        },
    };
    proof {
        crate::text::lemma_find_from_bounds(rest@, seq![44u8, 32u8], 0);
    }
    let m = rest.len();
    Some((copy_range(l, 0, k), copy_range(rest.as_slice(), 0, j), copy_range(rest.as_slice(), j + 2, m)))
}

/// The instructions that the first line writes, if each byte is one.
pub open spec fn instructions_of(s: Seq<u8>) -> Option<Seq<Direction>>
    decreases s.len(),
{
    if s.len() == 0 {
        Some(seq![])
    } else {
        match (instructions_of(s.drop_last()), direction_of(s.last())) {
            (Some(v), Some(d)) => Some(v.push(d)),
            _ => None,
        }
    }
}

/// The node lines among the first `n`, from the third line on.
pub open spec fn nodes_of(ls: Seq<Seq<u8>>, n: int) -> Option<Seq<(Seq<u8>, Seq<u8>, Seq<u8>)>>
    decreases n,
{
    if n <= 2 {
        Some(seq![])
    } else {
        match (nodes_of(ls, n - 1), parse_node(ls[n - 1])) {
            (Some(v), Some(x)) => Some(v.push(x)),
            _ => None,
        }
    }
}

/// The first position of a node named `id` among `names`.
pub open spec fn name_index(names: Seq<Seq<u8>>, id: Seq<u8>, k: int) -> Option<int>
    decreases names.len() - k,
{
    if k < 0 || k >= names.len() {
        None
    } else if names[k] == id {
        Some(k)
    } else {
        name_index(names, id, k + 1)
    }
}

/// The network that the text writes: instructions on the first line, node
/// lines from the third, every neighbour resolved to the first node of its
/// name.
pub open spec fn parse_network(t: Seq<u8>) -> Option<(Seq<Direction>, Seq<(Seq<u8>, int, int)>)> {
    let ls = lines(t);
    if ls.len() == 0 {
        None
    } else {
        match (instructions_of(ls[0]), nodes_of(ls, ls.len() as int)) {
            (Some(ins), Some(ns)) => {
                let names = ns.map_values(|x: (Seq<u8>, Seq<u8>, Seq<u8>)| x.0);
                if forall|i: int| 0 <= i < ns.len() ==> name_index(names, (#[trigger] ns[i]).1, 0) is Some && name_index(names, ns[i].2, 0) is Some {
                    Some((ins, Seq::new(ns.len(), |i: int| (ns[i].0, name_index(names, ns[i].1, 0)->0, name_index(names, ns[i].2, 0)->0))))
                } else {
                    None
                }
            },
            _ => None,
        }
    }
}

proof fn lemma_instructions_none(s: Seq<u8>, i: int)
    requires
        0 <= i <= s.len(),
        instructions_of(s.subrange(0, i)) is None,
    ensures
        instructions_of(s) is None,
    decreases s.len() - i,
{
    if i < s.len() {
        assert(s.subrange(0, i + 1).drop_last() =~= s.subrange(0, i));
        lemma_instructions_none(s, i + 1);
    } else {
        assert(s.subrange(0, i) =~= s);
    }
}

proof fn lemma_nodes_none(ls: Seq<Seq<u8>>, i: int, n: int)
    requires
        2 <= i <= n,
        nodes_of(ls, i) is None,
    ensures
        nodes_of(ls, n) is None,
    decreases n - i,
{
    if i < n {
        lemma_nodes_none(ls, i, n - 1);
    }
}

/// The first position of a node named `id`.
fn find_name(names: &Vec<Vec<u8>>, id: &Vec<u8>) -> (r: Option<usize>)
    ensures
        r matches Some(k) ==> name_index(pieces(names@), id@, 0) == Some(k as int) && k < names@.len(),
        r is None ==> name_index(pieces(names@), id@, 0) is None,
{
    let ghost ns = pieces(names@);
    let mut k: usize = 0;
    while k < names.len()
        invariant
            k <= names@.len(),
            ns == pieces(names@),
            name_index(ns, id@, 0) == name_index(ns, id@, k as int),
        decreases names@.len() - k,
    {
        if crate::text::bytes_equal(names[k].as_slice(), id.as_slice()) {
            return Some(k);
        }
        k = k + 1;
    }
    None
}

/// The mathematical form of the nodes.
pub open spec fn node_views(v: Seq<Node>) -> Seq<(Seq<u8>, int, int)> {
    v.map_values(|n: Node| (n.id@, n.left as int, n.right as int))
}

impl Day8 {
    /// Reads the instructions and the nodes; `None` if a line does not read
    /// or a neighbour is not a node.
    pub fn make_day(input: &str) -> (r: Option<Day8>)
        ensures
            match parse_network(input.spec_bytes()) {
                Some((ins, ns)) => r matches Some(d) && d.instructions@ == ins && node_views(d.nodes@) == ns,
                None => r is None,
            },
    {
        let ls = split_lines(input.as_bytes());
        let ghost ps = pieces(ls@);
        if ls.len() == 0 {
            return None;
        }
        assert(ps[0] == ls@[0]@);
        let first = &ls[0];
        let mut instructions: Vec<Direction> = Vec::new();
        let mut i: usize = 0;
        assert(first@.subrange(0, 0) =~= seq![]);
        while i < first.len()
            invariant
                i <= first@.len(),
                ps == pieces(ls@),
                ps == lines(input.spec_bytes()),
                ps.len() > 0,
                first@ == ps[0],
                instructions_of(first@.subrange(0, i as int)) == Some(instructions@),
            decreases first@.len() - i,
        {
            assert(first@.subrange(0, i + 1).drop_last() =~= first@.subrange(0, i as int));
            let d = if first[i] == 76 {
                Direction::Left
            } else if first[i] == 82 {
                Direction::Right
            } else {
                proof { lemma_instructions_none(first@, i + 1); }
                return None;
            };
            instructions.push(d);
            i = i + 1;
        }
        assert(first@.subrange(0, i as int) =~= first@);
        let mut names: Vec<Vec<u8>> = Vec::new();
        let mut lefts: Vec<Vec<u8>> = Vec::new();
        let mut rights: Vec<Vec<u8>> = Vec::new();
        let ghost mut triples: Seq<(Seq<u8>, Seq<u8>, Seq<u8>)> = seq![];
        let mut j: usize = 2;
        if ls.len() < 2 {
            j = ls.len();
        }
        while j < ls.len()
            invariant
                2 <= j <= ls@.len() || (j == ls@.len() && j < 2),
                ps == pieces(ls@),
                ps == lines(input.spec_bytes()),
                ps.len() > 0,
                instructions_of(ps[0]) == Some(instructions@),
                nodes_of(ps, j as int) == Some(triples),
                pieces(names@) == triples.map_values(|x: (Seq<u8>, Seq<u8>, Seq<u8>)| x.0),
                pieces(lefts@) == triples.map_values(|x: (Seq<u8>, Seq<u8>, Seq<u8>)| x.1),
                pieces(rights@) == triples.map_values(|x: (Seq<u8>, Seq<u8>, Seq<u8>)| x.2),
            decreases ls@.len() - j,
        {
            assert(ps[j as int] == ls@[j as int]@);
            match read_node(ls[j].as_slice()) {
                Some((a, b, c)) => {
                    let ghost t = (a@, b@, c@);
                    let ghost n0 = pieces(names@);
                    let ghost l0 = pieces(lefts@);
                    let ghost r0 = pieces(rights@);
                    names.push(a);
                    lefts.push(b);
                    rights.push(c);
                    proof {
                        triples = triples.push(t);
                    }
                    assert(pieces(names@) =~= n0.push(t.0));
                    assert(pieces(lefts@) =~= l0.push(t.1));
                    assert(pieces(rights@) =~= r0.push(t.2));
                    assert(pieces(names@) =~= triples.map_values(|x: (Seq<u8>, Seq<u8>, Seq<u8>)| x.0));
                    assert(pieces(lefts@) =~= triples.map_values(|x: (Seq<u8>, Seq<u8>, Seq<u8>)| x.1));
                    assert(pieces(rights@) =~= triples.map_values(|x: (Seq<u8>, Seq<u8>, Seq<u8>)| x.2));
                },
                None => {
                    proof { lemma_nodes_none(ps, j + 1, ps.len() as int); }
                    return None;
                },
            }
            j = j + 1;
        }
        assert(nodes_of(ps, ps.len() as int) == Some(triples));
        let ghost nm = pieces(names@);
        let mut nodes: Vec<Node> = Vec::new();
        let mut q: usize = 0;
        while q < names.len()
            invariant
                q <= names@.len() == triples.len() == lefts@.len() == rights@.len(),
                ps == lines(input.spec_bytes()),
                ps.len() > 0,
                instructions_of(ps[0]) == Some(instructions@),
                nodes_of(ps, ps.len() as int) == Some(triples),
                nm == pieces(names@),
                nm == triples.map_values(|x: (Seq<u8>, Seq<u8>, Seq<u8>)| x.0),
                pieces(lefts@) == triples.map_values(|x: (Seq<u8>, Seq<u8>, Seq<u8>)| x.1),
                pieces(rights@) == triples.map_values(|x: (Seq<u8>, Seq<u8>, Seq<u8>)| x.2),
                forall|i: int| 0 <= i < q ==> name_index(nm, (#[trigger] triples[i]).1, 0) is Some && name_index(nm, triples[i].2, 0) is Some,
                node_views(nodes@) == Seq::new(q as nat, |i: int| (triples[i].0, name_index(nm, triples[i].1, 0)->0, name_index(nm, triples[i].2, 0)->0)),
            decreases names@.len() - q,
        {
            assert(pieces(lefts@)[q as int] == lefts@[q as int]@);
            assert(pieces(rights@)[q as int] == rights@[q as int]@);
            assert(nm[q as int] == names@[q as int]@);
            assert(lefts@[q as int]@ == triples[q as int].1);
            assert(rights@[q as int]@ == triples[q as int].2);
            assert(names@[q as int]@ == triples[q as int].0);
            let l = match find_name(&names, &lefts[q]) {
                Some(l) => l,
                None => {
                    assert(!(name_index(nm, triples[q as int].1, 0) is Some));
                    return None;
                },
            };
            let r = match find_name(&names, &rights[q]) {
                Some(r) => r,
                None => {
                    assert(!(name_index(nm, triples[q as int].2, 0) is Some));
                    return None;
                },
            };
            assert(l as int == name_index(nm, triples[q as int].1, 0)->0);
            assert(r as int == name_index(nm, triples[q as int].2, 0)->0);
            let ghost before = node_views(nodes@);
            nodes.push(Node { id: crate::text::copy_all(names[q].as_slice()), left: l, right: r });
            assert(node_views(nodes@) =~= before.push((triples[q as int].0, l as int, r as int)));
            q = q + 1;
            assert(node_views(nodes@) =~= Seq::new(q as nat, |i: int| (triples[i].0, name_index(nm, triples[i].1, 0)->0, name_index(nm, triples[i].2, 0)->0)));
        }
        Some(Day8 { instructions, nodes })
    }
}

/// The names of the nodes, in order.
pub open spec fn node_names(v: Seq<Node>) -> Seq<Seq<u8>> {
    v.map_values(|n: Node| n.id@)
}

/// The walk from `start` first stops after `k` instructions.
pub open spec fn stops_first(d: &Day8, start: int, cond: EndCondition, k: nat) -> bool {
    &&& ends(d.nodes@[position(d, start, k)].id@, cond)
    &&& forall|j: nat| j < k ==> !ends(d.nodes@[#[trigger] position(d, start, j)].id@, cond)
}

/// The nodes, in order, whose names end with `A`: the starts of the
/// second walk.
pub open spec fn a_starts(d: &Day8, n: int) -> Seq<int>
    decreases n,
{
    if n <= 0 {
        seq![]
    } else {
        let s = a_starts(d, n - 1);
        let id = d.nodes@[n - 1].id@;
        if id.len() > 0 && id.last() == 65 { s.push(n - 1) } else { s }
    }
}

impl Day8 {
    /// Whether the network is well formed: some instruction, and every
    /// neighbour a node.
    pub fn is_network_ok(&self) -> (r: bool)
        ensures
            r == network_ok(self),
    {
        if self.instructions.len() == 0 {
            return false;
        }
        let mut i: usize = 0;
        while i < self.nodes.len()
            invariant
                i <= self.nodes@.len(),
                self.instructions@.len() > 0,
                forall|q: int| 0 <= q < i ==> (#[trigger] self.nodes@[q]).left < self.nodes@.len() && self.nodes@[q].right < self.nodes@.len(),
            decreases self.nodes@.len() - i,
        {
            if self.nodes[i].left >= self.nodes.len() || self.nodes[i].right >= self.nodes.len() {
                return false;
            }
            i = i + 1;
        }
        true
    }

    /// The number of instructions from `AAA` to `ZZZ`; the empty text if
    /// the network is not well formed, has no `AAA`, never reaches `ZZZ` or
    /// the number does not fit in 64 bits.
    pub fn solution1(&self) -> (r: String)
        ensures
            r@.len() > 0 ==> network_ok(self) && exists|s: int, k: nat|
                name_index(node_names(self.nodes@), seq![65u8, 65u8, 65u8], 0) == Some(s)
                && stops_first(self, s, EndCondition::Exact, k) && r@ == decimal(k),
    {
        if !self.is_network_ok() {
            return String::new();
        }
        let mut names: Vec<Vec<u8>> = Vec::new();
        let mut i: usize = 0;
        while i < self.nodes.len()
            invariant
                i <= self.nodes@.len(),
                pieces(names@) == node_names(self.nodes@).subrange(0, i as int),
            decreases self.nodes@.len() - i,
        {
            let ghost before = pieces(names@);
            names.push(crate::text::copy_all(self.nodes[i].id.as_slice()));
            assert(pieces(names@) =~= before.push(self.nodes@[i as int].id@));
            i = i + 1;
            assert(pieces(names@) =~= node_names(self.nodes@).subrange(0, i as int));
        }
        assert(pieces(names@) =~= node_names(self.nodes@));
        let aaa: Vec<u8> = vec![65u8, 65u8, 65u8];
        assert(aaa@ =~= seq![65u8, 65u8, 65u8]);
        let start = match find_name(&names, &aaa) {
            Some(s) => s,
            None => {
                return String::new();
            },
        };
        match Walker::make_from_id(start).walk(self, EndCondition::Exact) {
            Some(k) => {
                if k > u64::MAX as u128 {
                    return String::new();
                }
                let r = u64_text(k as u64);
                assert(stops_first(self, start as int, EndCondition::Exact, k as nat));
                r
            },
            None => String::new(),
        }
    }

    /// The number of instructions until every walk from a node ending with
    /// `A` stands on a node ending with `Z`, as the least common multiple
    /// of the walks' own lengths; the empty text when there is no such walk
    /// or one never stops, or the numbers do not fit in 64 bits.
    pub fn solution2(&self) -> (r: String)
        ensures
            r@.len() > 0 ==> network_ok(self) && a_starts(self, self.nodes@.len() as int).len() > 0 && exists|ks: Seq<u64>|
                ks.len() == a_starts(self, self.nodes@.len() as int).len()
                && (forall|i: int| 0 <= i < ks.len() ==> stops_first(self, a_starts(self, self.nodes@.len() as int)[i], EndCondition::EndsWithZ, #[trigger] ks[i] as nat))
                && r@ == decimal(crate::day20::lcm_all(ks)),
    {
        if !self.is_network_ok() {
            return String::new();
        }
        let ghost starts = a_starts(self, self.nodes@.len() as int);
        let mut lengths: Vec<u64> = Vec::new();
        let ghost mut seen: Seq<int> = seq![];
        let mut i: usize = 0;
        while i < self.nodes.len()
            invariant
                i <= self.nodes@.len(),
                network_ok(self),
                starts == a_starts(self, self.nodes@.len() as int),
                a_starts(self, i as int).len() == lengths@.len(),
                forall|q: int| 0 <= q < lengths@.len() ==> stops_first(self, a_starts(self, i as int)[q], EndCondition::EndsWithZ, #[trigger] lengths@[q] as nat),
            decreases self.nodes@.len() - i,
        {
            let id = &self.nodes[i].id;
            let ghost prev = a_starts(self, i as int);
            if id.len() > 0 && id[id.len() - 1] == 65 {
                match Walker::make_from_id(i).walk(self, EndCondition::EndsWithZ) {
                    Some(k) => {
                        if k > u64::MAX as u128 {
                            return String::new();
                        }
                        lengths.push(k as u64);
                        assert(a_starts(self, i + 1) == prev.push(i as int));
                        assert forall|q: int| 0 <= q < lengths@.len() implies stops_first(self, a_starts(self, i + 1)[q], EndCondition::EndsWithZ, #[trigger] lengths@[q] as nat) by {
                            if q < prev.len() {
                                assert(a_starts(self, i + 1)[q] == prev[q]);
                            }
                        }
                    },
                    None => {
                        return String::new();
                    },
                }
            }
            i = i + 1;
        }
        if lengths.len() == 0 {
            return String::new();
        }
        match crate::day20::least_common_multiple(&lengths) {
            Some(v) => {
                let r = u64_text(v);
                proof {
                    crate::text::lemma_decimal_nonempty(v as nat);
                }
                r
            },
            None => String::new(),
        }
    }
}

} // verus!
