use vstd::prelude::*;
use crate::text::{decimal, push_decimal, push_str};
use crate::transpiler::coupling_map::{neighbors_in, CouplingMap};
use crate::transpiler::gate_decomposer::{CXGate, DecomposedGate};

verus! {

/// A mapping from virtual qubits to physical qubits: `mapping[v]` is the
/// physical qubit of virtual qubit `v`.
#[derive(Debug, Clone)]
pub struct Layout {
    /// `mapping[virtual] = physical`.
    pub mapping: Vec<u32>,
}

impl Layout {
    /// Builds a layout from its mapping.
    pub fn new(mapping: Vec<u32>) -> (r: Layout)
        ensures
            r.mapping@ == mapping@,
    {
        Layout { mapping }
    }

    /// The physical qubit of virtual qubit `virtual_qubit`.
    pub fn physical(&self, virtual_qubit: usize) -> (r: u32)
        requires
            virtual_qubit < self.mapping@.len(),
        ensures
            r == self.mapping@[virtual_qubit as int],
    {
        self.mapping[virtual_qubit]
    }
}

/// The pair of qubits of a CX gate, smaller first.
pub open spec fn cx_pair(c: CXGate) -> (usize, usize) {
    if c.control < c.target {
        (c.control, c.target)
    } else {
        (c.target, c.control)
    }
}

/// The distinct qubit pairs of the CX gates of `gs`, in order of first appearance.
pub open spec fn pairs_of(gs: Seq<DecomposedGate>) -> Seq<(usize, usize)>
    decreases gs.len(),
{
    if gs.len() == 0 {
        Seq::empty()
    } else {
        let rest = pairs_of(gs.drop_last());
        match gs.last() {
            DecomposedGate::CX(c) => if rest.contains(cx_pair(c)) {
                rest
            } else {
                rest.push(cx_pair(c))
            },
            _ => rest,
        }
    }
}

/// `g` is a CX gate of `gs` whose pair is `p`.
pub open spec fn cx_with_pair(gs: Seq<DecomposedGate>, i: int, p: (usize, usize)) -> bool {
    0 <= i < gs.len() && (gs[i] matches DecomposedGate::CX(c) && cx_pair(c) == p)
}

/// A pair is listed exactly when some CX gate has it.
pub proof fn lemma_pairs_of(gs: Seq<DecomposedGate>)
    ensures
        forall|p: (usize, usize)| #[trigger] pairs_of(gs).contains(p) <==> exists|i: int| cx_with_pair(gs, i, p),
    decreases gs.len(),
{
    if gs.len() > 0 {
        let init = gs.drop_last();
        lemma_pairs_of(init);
        assert forall|p: (usize, usize)| #[trigger] pairs_of(gs).contains(p) <==> exists|i: int| cx_with_pair(gs, i, p) by {
            broadcast use vstd::seq_lib::lemma_seq_contains_after_push;
            let rest = pairs_of(init);
            if exists|i: int| cx_with_pair(gs, i, p) {
                let i = choose|i: int| cx_with_pair(gs, i, p);
                if i < gs.len() - 1 {
                    assert(cx_with_pair(init, i, p));
                    assert(rest.contains(p));
                }
            }
            if rest.contains(p) {
                let i = choose|i: int| cx_with_pair(init, i, p);
                assert(cx_with_pair(gs, i, p));
            }
            if pairs_of(gs).contains(p) && !rest.contains(p) {
                assert(cx_with_pair(gs, gs.len() - 1, p));
            }
        }
    }
}

/// Every CX gate of `gs` acts on qubits below `n`.
pub open spec fn cx_below(gs: Seq<DecomposedGate>, n: nat) -> bool {
    forall|i: int|
        0 <= i < gs.len() ==> (#[trigger] gs[i] matches DecomposedGate::CX(c) ==> c.control < n && c.target < n)
}

/// Qubit `v` is the control or the target of some CX gate of `gs`.
pub open spec fn touched(gs: Seq<DecomposedGate>, v: usize) -> bool {
    exists|i: int|
        0 <= i < gs.len() && (#[trigger] gs[i] matches DecomposedGate::CX(c) && (c.control == v || c.target == v))
}

/// No edge joins a qubit to itself.
pub open spec fn loop_free(cm: &CouplingMap) -> bool {
    forall|i: int| 0 <= i < cm.edge_seq().len() ==> (#[trigger] cm.edge_seq()[i]).0 != cm.edge_seq()[i].1
}

/// No two elements of `s` are equal.
pub open spec fn injective(s: Seq<u32>) -> bool {
    forall|i: int, j: int| 0 <= i < s.len() && 0 <= j < s.len() && i != j ==> s[i] != s[j]
}

/// The error for a circuit with more virtual than physical qubits.
pub open spec fn too_large_msg(n_virtual: nat, n_physical: nat) -> Seq<char> {
    "Circuit trop grand : "@ + decimal(n_virtual) + " qubits virtuels pour "@ + decimal(n_physical)
        + " physiques"@
}

/// The error for a CX pair whose qubits were placed on unconnected qubits.
pub open spec fn conflict_msg(va: nat, pa: nat, vb: nat, pb: nat) -> Seq<char> {
    "Conflit : q["@ + decimal(va) + "]→$"@ + decimal(pa) + " et q["@ + decimal(vb) + "]→$"@
        + decimal(pb) + " ne sont pas connectés"@
}

/// The error for a CX pair for which no free connected physical pair remains.
pub open spec fn no_pair_msg(va: nat, vb: nat) -> Seq<char> {
    "Aucune paire physique disponible et connectée pour q["@ + decimal(va) + "] et q["@ + decimal(vb)
        + "]"@
}

fn too_large_message(n_virtual: usize, n_physical: u32) -> (r: String)
    ensures
        r@ == too_large_msg(n_virtual as nat, n_physical as nat),
{
    let mut s = String::new();
    push_str(&mut s, "Circuit trop grand : ");
    push_decimal(&mut s, n_virtual as u64);
    push_str(&mut s, " qubits virtuels pour ");
    push_decimal(&mut s, n_physical as u64);
    push_str(&mut s, " physiques");
    assert(s@ =~= too_large_msg(n_virtual as nat, n_physical as nat));
    s
}

fn conflict_message(va: usize, pa: u32, vb: usize, pb: u32) -> (r: String)
    ensures
        r@ == conflict_msg(va as nat, pa as nat, vb as nat, pb as nat),
{
    let mut s = String::new();
    push_str(&mut s, "Conflit : q[");
    push_decimal(&mut s, va as u64);
    push_str(&mut s, "]→$");
    push_decimal(&mut s, pa as u64);
    push_str(&mut s, " et q[");
    push_decimal(&mut s, vb as u64);
    push_str(&mut s, "]→$");
    push_decimal(&mut s, pb as u64);
    push_str(&mut s, " ne sont pas connectés");
    assert(s@ =~= conflict_msg(va as nat, pa as nat, vb as nat, pb as nat));
    s
}

fn no_pair_message(va: usize, vb: usize) -> (r: String)
    ensures
        r@ == no_pair_msg(va as nat, vb as nat),
{
    let mut s = String::new();
    push_str(&mut s, "Aucune paire physique disponible et connectée pour q[");
    push_decimal(&mut s, va as u64);
    push_str(&mut s, "] et q[");
    push_decimal(&mut s, vb as u64);
    push_str(&mut s, "]");
    assert(s@ =~= no_pair_msg(va as nat, vb as nat));
    s
}

fn contains_pair(pairs: &Vec<(usize, usize)>, p: (usize, usize)) -> (r: bool)
    ensures
        r == pairs@.contains(p),
{
    let mut i: usize = 0;
    while i < pairs.len()
        invariant
            i <= pairs@.len(),
            forall|j: int| 0 <= j < i ==> pairs@[j] != p,
        decreases pairs@.len() - i,
    {
        let (a, b) = pairs[i];
        if a == p.0 && b == p.1 {
            assert(pairs@[i as int] == p);
            return true;
        }
        i += 1;
    }
    false
}

/// The distinct pairs `(a, b)` with `a <= b` of qubits joined by a CX gate,
/// in order of first appearance.
fn required_pairs(gates: &[DecomposedGate]) -> (r: Vec<(usize, usize)>)
    ensures
        r@ == pairs_of(gates@),
{
    let mut pairs: Vec<(usize, usize)> = Vec::new();
    let mut i: usize = 0;
    while i < gates.len()
        invariant
            i <= gates@.len(),
            pairs@ == pairs_of(gates@.take(i as int)),
        decreases gates@.len() - i,
    {
        assert(gates@.take(i + 1).drop_last() =~= gates@.take(i as int));
        assert(gates@.take(i + 1).last() == gates@[i as int]);
        match &gates[i] {
            DecomposedGate::CX(cx) => {
                let pair = if cx.control < cx.target {
                    (cx.control, cx.target)
                } else {
                    (cx.target, cx.control)
                };
                if !contains_pair(&pairs, pair) {
                    pairs.push(pair);
                }
            },
            _ => {},
        }
        i += 1;
    }
    assert(gates@.take(i as int) =~= gates@);
    pairs
}

/// The first edge of `es`, from index `i` on, whose two ends are both unused.
pub open spec fn first_free_edge(es: Seq<(u32, u32)>, used: Set<u32>, i: int) -> Option<(u32, u32)>
    decreases es.len() - i,
{
    if i < 0 || i >= es.len() {
        None
    } else if !used.contains(es[i].0) && !used.contains(es[i].1) {
        Some(es[i])
    } else {
        first_free_edge(es, used, i + 1)
    }
}

/// The first qubit of `xs`, from index `i` on, that is unused.
pub open spec fn first_unused(xs: Seq<u32>, used: Set<u32>, i: int) -> Option<u32>
    decreases xs.len() - i,
{
    if i < 0 || i >= xs.len() {
        None
    } else if !used.contains(xs[i]) {
        Some(xs[i])
    } else {
        first_unused(xs, used, i + 1)
    }
}

/// The source of the first edge of `es`, from index `i` on, that ends in `q`
/// and whose source is unused.
pub open spec fn first_unused_source(es: Seq<(u32, u32)>, q: u32, used: Set<u32>, i: int) -> Option<u32>
    decreases es.len() - i,
{
    if i < 0 || i >= es.len() {
        None
    } else if es[i].1 == q && !used.contains(es[i].0) {
        Some(es[i].0)
    } else {
        first_unused_source(es, q, used, i + 1)
    }
}

/// A free neighbor of `q`: the first unused out-neighbor, else the first
/// unused source of an edge into `q`.
pub open spec fn free_neighbor(cm: &CouplingMap, q: u32, used: Set<u32>) -> Option<u32> {
    match first_unused(neighbors_in(cm.edge_seq(), q), used, 0) {
        Some(x) => Some(x),
        None => first_unused_source(cm.edge_seq(), q, used, 0),
    }
}

/// The physical pair chosen for a CX pair whose qubits are placed at `fa`
/// and `fb` (if at all), given the used physical qubits.
pub open spec fn pair_choice(fa: Option<u32>, fb: Option<u32>, cm: &CouplingMap, used: Set<u32>) -> Option<(u32, u32)> {
    match (fa, fb) {
        (None, None) => first_free_edge(cm.edge_seq(), used, 0),
        (Some(pa), None) => match free_neighbor(cm, pa, used) {
            Some(x) => Some((pa, x)),
            None => None,
        },
        (None, Some(pb)) => match free_neighbor(cm, pb, used) {
            Some(x) => Some((x, pb)),
            None => None,
        },
        (Some(pa), Some(pb)) => Some((pa, pb)),
    }
}

/// Whether `q` is among the used physical qubits.
fn is_used(used: &std::collections::HashSet<u32>, q: u32) -> (r: bool)
    ensures
        r == used@.contains(q),
{
    broadcast use vstd::std_specs::hash::group_hash_axioms;

    used.contains(&q)
}

/// The first unused qubit of `xs`, from index `j` on.
fn first_unused_in(xs: &Vec<u32>, used: &std::collections::HashSet<u32>) -> (r: Option<u32>)
    ensures
        r == first_unused(xs@, used@, 0),
        r is Some ==> xs@.contains(r->0) && !used@.contains(r->0),
        r is None ==> forall|x: u32| #[trigger] xs@.contains(x) ==> used@.contains(x),
{
    let mut j: usize = 0;
    while j < xs.len()
        invariant
            j <= xs@.len(),
            forall|k: int| 0 <= k < j ==> used@.contains(#[trigger] xs@[k]),
            first_unused(xs@, used@, 0) == first_unused(xs@, used@, j as int),
        decreases xs@.len() - j,
    {
        let x = xs[j];
        if !is_used(used, x) {
            assert(xs@.contains(x));
            return Some(x);
        }
        j += 1;
    }
    assert forall|x: u32| #[trigger] xs@.contains(x) implies used@.contains(x) by {
        let k = choose|k: int| 0 <= k < xs@.len() && xs@[k] == x;
        assert(used@.contains(xs@[k]));
    }
    None
}

/// The source of the first edge into `q` whose source is unused.
fn first_unused_source_of(es: &[(u32, u32)], q: u32, used: &std::collections::HashSet<u32>) -> (r: Option<u32>)
    ensures
        r == first_unused_source(es@, q, used@, 0),
        r is Some ==> es@.contains((r->0, q)) && !used@.contains(r->0),
        r is None ==> forall|x: u32| #[trigger] es@.contains((x, q)) ==> used@.contains(x),
{
    let mut i: usize = 0;
    while i < es.len()
        invariant
            i <= es@.len(),
            forall|k: int| 0 <= k < i ==> (#[trigger] es@[k]).1 == q ==> used@.contains(es@[k].0),
            first_unused_source(es@, q, used@, 0) == first_unused_source(es@, q, used@, i as int),
        decreases es@.len() - i,
    {
        let (a, b) = es[i];
        if b == q && !is_used(used, a) {
            assert(es@[i as int] == (a, q));
            assert(es@.contains((a, q)));
            return Some(a);
        }
        i += 1;
    }
    assert forall|x: u32| #[trigger] es@.contains((x, q)) implies used@.contains(x) by {
        let k = choose|k: int| 0 <= k < es@.len() && es@[k] == (x, q);
        assert(es@[k].1 == q);
    }
    None
}

/// A free neighbor of `q`: the first unused out-neighbor, else the first
/// unused source of an edge into `q`.
fn find_free_neighbor(coupling_map: &CouplingMap, q: u32, used: &std::collections::HashSet<u32>) -> (r: Option<u32>)
    ensures
        r == free_neighbor(coupling_map, q, used@),
        r is Some ==> coupling_map.adjacent(q, r->0) && !used@.contains(r->0),
        r is None <==> forall|y: u32| #[trigger] coupling_map.adjacent(q, y) ==> used@.contains(y),
{
    let nbrs = coupling_map.neighbors(q);
    proof {
        crate::transpiler::coupling_map::lemma_neighbors_in(coupling_map.edge_seq(), q);
    }
    match first_unused_in(&nbrs, used) {
        Some(x) => Some(x),
        None => {
            let r = first_unused_source_of(coupling_map.edges(), q, used);
            proof {
                if r is None {
                    assert forall|y: u32| #[trigger] coupling_map.adjacent(q, y) implies used@.contains(y) by {
                        if coupling_map.edge_seq().contains((q, y)) {
                            assert(nbrs@.contains(y));
                        }
                    }
                }
            }
            r
        },
    }
}

/// A free edge, or a free neighbor of the one fixed qubit.
///
/// With neither qubit fixed, the first edge whose two ends are both unused;
/// with `a` fixed, the first unused out-neighbor of `a`, else the source of the
/// first edge into `a` that is unused (symmetrically with `b` fixed).
fn find_connected_pair(
    fixed_a: Option<u32>,
    fixed_b: Option<u32>,
    coupling_map: &CouplingMap,
    used: &std::collections::HashSet<u32>,
) -> (r: Option<(u32, u32)>)
    ensures
        r == pair_choice(fixed_a, fixed_b, coupling_map, used@),
        fixed_a is None && fixed_b is None ==> {
            &&& (r is Some ==> coupling_map.has_edge(r.unwrap().0, r.unwrap().1) && !used@.contains(r.unwrap().0)
                && !used@.contains(r.unwrap().1))
            &&& (r is None <==> forall|i: int|
                0 <= i < coupling_map.edge_seq().len() ==> used@.contains((#[trigger] coupling_map.edge_seq()[i]).0)
                    || used@.contains(coupling_map.edge_seq()[i].1))
        },
        fixed_a is Some && fixed_b is None ==> {
            &&& (r is Some ==> r.unwrap().0 == fixed_a->0 && coupling_map.adjacent(fixed_a->0, r.unwrap().1) && !used@.contains(
                r.unwrap().1,
            ))
            &&& (r is None <==> forall|y: u32| #[trigger] coupling_map.adjacent(fixed_a->0, y) ==> used@.contains(y))
        },
        fixed_a is None && fixed_b is Some ==> {
            &&& (r is Some ==> r.unwrap().1 == fixed_b->0 && coupling_map.adjacent(r.unwrap().0, fixed_b->0) && !used@.contains(
                r.unwrap().0,
            ))
            &&& (r is None <==> forall|x: u32| #[trigger] coupling_map.adjacent(x, fixed_b->0) ==> used@.contains(x))
        },
        fixed_a is Some && fixed_b is Some ==> r == Some((fixed_a->0, fixed_b->0)),
{
    match (fixed_a, fixed_b) {
        (Some(pa), Some(pb)) => Some((pa, pb)),
        (Some(pa), None) => match find_free_neighbor(coupling_map, pa, used) {
            Some(x) => Some((pa, x)),
            None => None,
        },
        (None, Some(pb)) => {
            let found = find_free_neighbor(coupling_map, pb, used);
            proof {
                assert forall|x: u32| coupling_map.adjacent(x, pb) <==> coupling_map.adjacent(pb, x) by {}
            }
            match found {
                Some(x) => Some((x, pb)),
                None => None,
            }
        },
        (None, None) => {
            let ghost e = coupling_map.edge_seq();
            let edges = coupling_map.edges();
            let mut i: usize = 0;
            while i < edges.len()
                invariant
                    fixed_a is None,
                    fixed_b is None,
                    e == coupling_map.edge_seq(),
                    edges@ == e,
                    i <= e.len(),
                    forall|j: int| 0 <= j < i ==> used@.contains((#[trigger] e[j]).0) || used@.contains(e[j].1),
                    first_free_edge(e, used@, 0) == first_free_edge(e, used@, i as int),
                decreases e.len() - i,
            {
                let (a, b) = edges[i];
                if !is_used(used, a) && !is_used(used, b) {
                    assert(e[i as int] == (a, b));
                    assert(e.contains((a, b)));
                    return Some((a, b));
                }
                i += 1;
            }
            None
        },
    }
}

/// `msg` reports that the qubit pair of the CX gate `gs[i]` could not be placed:
/// no free connected pair was left, or its qubits sit on unconnected qubits.
pub open spec fn pair_error(gs: Seq<DecomposedGate>, i: int, msg: Seq<char>) -> bool {
    gs[i] matches DecomposedGate::CX(c) && (msg == no_pair_msg(cx_pair(c).0 as nat, cx_pair(c).1 as nat)
        || exists|pa: nat, pb: nat| msg == #[trigger] conflict_msg(cx_pair(c).0 as nat, pa, cx_pair(c).1 as nat, pb))
}

/// `msg` reports that the qubit pair of some CX gate of `gs` could not be placed.
pub open spec fn place_error(gs: Seq<DecomposedGate>, msg: Seq<char>) -> bool {
    exists|i: int| 0 <= i < gs.len() && #[trigger] pair_error(gs, i, msg)
}

/// Both qubits of the pair are placed, on connected qubits when they differ.
pub open spec fn pair_placed(cm: &CouplingMap, mapping: Seq<Option<u32>>, p: (usize, usize)) -> bool {
    &&& mapping[p.0 as int] is Some
    &&& mapping[p.1 as int] is Some
    &&& (p.0 != p.1 ==> cm.adjacent(mapping[p.0 as int]->0, mapping[p.1 as int]->0))
}

/// The number of empty slots of `s`.
pub open spec fn count_none(s: Seq<Option<u32>>) -> nat
    decreases s.len(),
{
    if s.len() == 0 {
        0
    } else {
        count_none(s.drop_last()) + if s.last() is None { 1nat } else { 0nat }
    }
}

proof fn lemma_count_none_le(s: Seq<Option<u32>>)
    ensures
        count_none(s) <= s.len(),
    decreases s.len(),
{
    if s.len() > 0 {
        lemma_count_none_le(s.drop_last());
    }
}

proof fn lemma_count_none_fill(s: Seq<Option<u32>>, i: int, x: u32)
    requires
        0 <= i < s.len(),
        s[i] is None,
    ensures
        count_none(s.update(i, Some(x))) + 1 == count_none(s),
    decreases s.len(),
{
    let t = s.update(i, Some(x));
    if i == s.len() - 1 {
        assert(t.drop_last() =~= s.drop_last());
    } else {
        lemma_count_none_fill(s.drop_last(), i, x);
        assert(t.drop_last() =~= s.drop_last().update(i, Some(x)));
    }
}

proof fn lemma_count_none_step(s: Seq<Option<u32>>, i: int)
    requires
        0 <= i < s.len(),
    ensures
        count_none(s.take(i + 1)) == count_none(s.take(i)) + if s[i] is None { 1nat } else { 0nat },
{
    assert(s.take(i + 1).drop_last() =~= s.take(i));
}

proof fn lemma_count_none_mono(s: Seq<Option<u32>>, i: int, j: int)
    requires
        0 <= i <= j <= s.len(),
    ensures
        count_none(s.take(i)) <= count_none(s.take(j)),
    decreases j - i,
{
    if i < j {
        lemma_count_none_mono(s, i, j - 1);
        lemma_count_none_step(s, j - 1);
    }
}

/// Below every prefix count of empty slots, each smaller count is reached at an
/// empty slot.
proof fn lemma_count_none_reach(s: Seq<Option<u32>>, v: int, t: nat)
    requires
        0 <= v <= s.len(),
        t < count_none(s.take(v)),
    ensures
        exists|u: int| 0 <= u < v && s[u] is None && #[trigger] count_none(s.take(u)) == t,
    decreases v,
{
    lemma_count_none_step(s, v - 1);
    if t < count_none(s.take(v - 1)) {
        lemma_count_none_reach(s, v - 1, t);
        let u = choose|u: int| 0 <= u < v - 1 && s[u] is None && #[trigger] count_none(s.take(u)) == t;
        assert(0 <= u < v && s[u] is None && count_none(s.take(u)) == t);
    } else {
        assert(s[v - 1] is None && count_none(s.take(v - 1)) == t);
    }
}

fn filled_none(n: usize) -> (r: Vec<Option<u32>>)
    ensures
        r@ == Seq::new(n as nat, |i: int| None::<u32>),
{
    let mut r: Vec<Option<u32>> = Vec::new();
    let mut i: usize = 0;
    while i < n
        invariant
            i <= n,
            r@ == Seq::new(i as nat, |k: int| None::<u32>),
        decreases n - i,
    {
        r.push(None);
        i += 1;
        assert(r@ =~= Seq::new(i as nat, |k: int| None::<u32>));
    }
    r
}

proof fn lemma_count_none_all(n: nat)
    ensures
        count_none(Seq::new(n, |i: int| None::<u32>)) == n,
    decreases n,
{
    if n > 0 {
        lemma_count_none_all((n - 1) as nat);
        assert(Seq::new(n, |i: int| None::<u32>).drop_last() =~= Seq::new((n - 1) as nat, |i: int| None::<u32>));
    }
}

/// The used physical qubits once `p` is used too.
pub open spec fn with_used(used: Set<u32>, p: u32) -> Set<u32> {
    used.insert(p)
}

/// `q` is an end of some edge of the coupling map.
pub open spec fn edge_end(cm: &CouplingMap, q: u32) -> bool {
    exists|i: int| 0 <= i < cm.edge_seq().len() && (#[trigger] cm.edge_seq()[i].0 == q || cm.edge_seq()[i].1 == q)
}

/// Both qubits of a connected pair are ends of edges.
proof fn lemma_edge_ends(cm: &CouplingMap, a: u32, b: u32)
    requires
        cm.adjacent(a, b),
    ensures
        edge_end(cm, a),
        edge_end(cm, b),
{
    if cm.has_edge(a, b) {
        let i = choose|i: int| 0 <= i < cm.edge_seq().len() && cm.edge_seq()[i] == (a, b);
        assert(cm.edge_seq()[i].0 == a && cm.edge_seq()[i].1 == b);
    } else {
        let i = choose|i: int| 0 <= i < cm.edge_seq().len() && cm.edge_seq()[i] == (b, a);
        assert(cm.edge_seq()[i].0 == b && cm.edge_seq()[i].1 == a);
    }
}

/// Placing one CX pair `(va, vb)` given the partial mapping and the used
/// physical qubits: two placed qubits must be connected; otherwise the
/// unplaced ones take the chosen free pair.
pub open spec fn place_pair(
    cm: &CouplingMap,
    p: (usize, usize),
    mapping: Seq<Option<u32>>,
    used: Set<u32>,
) -> Result<(Seq<Option<u32>>, Set<u32>), Seq<char>> {
    let (va, vb) = p;
    if mapping[va as int] is Some && mapping[vb as int] is Some {
        let pa = mapping[va as int]->0;
        let pb = mapping[vb as int]->0;
        if cm.adjacent(pa, pb) {
            Ok((mapping, used))
        } else {
            Err(conflict_msg(va as nat, pa as nat, vb as nat, pb as nat))
        }
    } else {
        match pair_choice(mapping[va as int], mapping[vb as int], cm, used) {
            None => Err(no_pair_msg(va as nat, vb as nat)),
            Some((pa, pb)) => {
                let m1 = if mapping[va as int] is None { mapping.update(va as int, Some(pa)) } else { mapping };
                let u1 = if mapping[va as int] is None { with_used(used, pa) } else { used };
                let m2 = if m1[vb as int] is None { m1.update(vb as int, Some(pb)) } else { m1 };
                let u2 = if m1[vb as int] is None { with_used(u1, pb) } else { u1 };
                Ok((m2, u2))
            },
        }
    }
}

/// Placing the first `k` pairs of `ps` in turn, from `n_virtual` unplaced
/// qubits and no used physical qubit; the first error stops it.
pub open spec fn place_pairs(cm: &CouplingMap, ps: Seq<(usize, usize)>, k: nat, n_virtual: nat) -> Result<
    (Seq<Option<u32>>, Set<u32>),
    Seq<char>,
>
    decreases k,
{
    if k == 0 {
        Ok((Seq::new(n_virtual, |i: int| None::<u32>), Set::<u32>::empty()))
    } else {
        match place_pairs(cm, ps, (k - 1) as nat, n_virtual) {
            Err(e) => Err(e),
            Ok((m, u)) => place_pair(cm, ps[k - 1], m, u),
        }
    }
}

/// The unused physical qubits below `q`, in increasing order.
pub open spec fn free_qubits(used: Set<u32>, q: nat) -> Seq<u32>
    decreases q,
{
    if q == 0 {
        Seq::empty()
    } else {
        let rest = free_qubits(used, (q - 1) as nat);
        if used.contains((q - 1) as u32) {
            rest
        } else {
            rest.push((q - 1) as u32)
        }
    }
}

/// The mapping with its empty slots filled, in order, by the qubits of `free`.
pub open spec fn fill_free(mapping: Seq<Option<u32>>, free: Seq<u32>) -> Seq<u32> {
    Seq::new(
        mapping.len(),
        |v: int|
            match mapping[v] {
                Some(p) => p,
                None => free[count_none(mapping.take(v)) as int],
            },
    )
}

/// The layout that the greedy placement gives, or its error.
pub open spec fn placement(cm: &CouplingMap, gs: Seq<DecomposedGate>, n_virtual: nat) -> Result<Seq<u32>, Seq<char>> {
    let ps = pairs_of(gs);
    if n_virtual == 0 {
        Ok(Seq::empty())
    } else if n_virtual > cm.n_qubits {
        Err(too_large_msg(n_virtual, cm.n_qubits as nat))
    } else {
        match place_pairs(cm, ps, ps.len(), n_virtual) {
            Err(e) => Err(e),
            Ok((m, u)) => Ok(fill_free(m, free_qubits(u, cm.n_qubits as nat))),
        }
    }
}

/// Once the placement of the pairs has failed, it stays failed with the same error.
proof fn lemma_place_pairs_err(cm: &CouplingMap, ps: Seq<(usize, usize)>, k: nat, j: nat, n_virtual: nat)
    requires
        k <= j,
        place_pairs(cm, ps, k, n_virtual) is Err,
    ensures
        place_pairs(cm, ps, j, n_virtual) == place_pairs(cm, ps, k, n_virtual),
    decreases j - k,
{
    if k < j {
        lemma_place_pairs_err(cm, ps, k, (j - 1) as nat, n_virtual);
    }
}

/// The layout puts each physical qubit on the backend or on an end of one of
/// its edges, is one-to-one on a backend without loops, puts each CX on
/// connected qubits, and gives the qubits without CX the smallest free
/// physical qubits of the backend, in order.
pub open spec fn placement_ok(cm: &CouplingMap, gates: Seq<DecomposedGate>, n_virtual: nat, m: Seq<u32>) -> bool {
    &&& m.len() == n_virtual
    &&& forall|v: int| 0 <= v < m.len() ==> #[trigger] m[v] < cm.n_qubits || edge_end(cm, m[v])
    &&& forall|v: int| 0 <= v < m.len() && !touched(gates, v as usize) ==> #[trigger] m[v] < cm.n_qubits
    &&& loop_free(cm) ==> injective(m)
    &&& forall|i: int|
        0 <= i < gates.len() ==> (#[trigger] gates[i] matches DecomposedGate::CX(c) ==> (c.control != c.target
            && c.control < n_virtual && c.target < n_virtual ==> cm.adjacent(m[c.control as int], m[c.target as int])))
    &&& forall|v1: int, v2: int|
        0 <= v1 < v2 < n_virtual && !touched(gates, v1 as usize) && !touched(gates, v2 as usize) ==> #[trigger] m[v1]
            < #[trigger] m[v2]
    &&& forall|v: int, p: u32|
        #![trigger m[v], m.contains(p)]
        0 <= v < n_virtual && !touched(gates, v as usize) && p < m[v] ==> m.contains(p)
}

/// The number of qubits below `q` that `used` holds.
pub open spec fn used_below(used: Set<u32>, q: nat) -> nat
    decreases q,
{
    if q == 0 {
        0
    } else {
        used_below(used, (q - 1) as nat) + if used.contains((q - 1) as u32) {
            1nat
        } else {
            0nat
        }
    }
}

/// Using one more qubit counts it below `q` when it is below `q`.
proof fn lemma_used_below_push(u: Set<u32>, x: u32, q: nat)
    requires
        !u.contains(x),
        q <= u32::MAX + 1,
    ensures
        used_below(u.insert(x), q) == used_below(u, q) + if (x as nat) < q {
            1nat
        } else {
            0nat
        },
    decreases q,
{
    if q > 0 {
        lemma_used_below_push(u, x, (q - 1) as nat);
    }
}

/// No more qubits below `q` are used than the used set holds.
proof fn lemma_used_below_le(used: Set<u32>, q: nat)
    requires
        used.finite(),
        q <= u32::MAX + 1,
    ensures
        used_below(used, q) <= used.len(),
    decreases used.len(),
{
    if used.len() == 0 {
        assert(used =~= Set::<u32>::empty()) by {
            vstd::set_lib::lemma_set_empty_equivalency_len(used);
        }
        lemma_used_below_empty(used, q);
    } else {
        let x = used.choose();
        let u = used.remove(x);
        assert(used =~= u.insert(x));
        lemma_used_below_push(u, x, q);
        lemma_used_below_le(u, q);
    }
}

proof fn lemma_used_below_empty(used: Set<u32>, q: nat)
    requires
        used == Set::<u32>::empty(),
    ensures
        used_below(used, q) == 0,
    decreases q,
{
    if q > 0 {
        lemma_used_below_empty(used, (q - 1) as nat);
    }
}

/// Filling the empty slots of a mapping whose CX pairs are all placed with
/// the free physical qubits in increasing order gives a layout with the
/// placement properties.
proof fn lemma_fill_ok(
    cm: &CouplingMap,
    gates: Seq<DecomposedGate>,
    nv: nat,
    pairs: Seq<(usize, usize)>,
    mapping: Seq<Option<u32>>,
    used: Set<u32>,
    free: Seq<u32>,
)
    requires
        mapping.len() == nv,
        cx_below(gates, nv),
        forall|p: (usize, usize)| #[trigger] pairs.contains(p) <==> exists|i: int| cx_with_pair(gates, i, p),
        forall|j: int| 0 <= j < pairs.len() ==> pair_placed(cm, mapping, #[trigger] pairs[j]),
        forall|v: int|
            0 <= v < nv && (#[trigger] mapping[v]) is Some ==> used.contains(mapping[v]->0) && edge_end(cm, mapping[v]->0),
        forall|p: u32| #[trigger] used.contains(p) ==> exists|v: int| 0 <= v < nv && #[trigger] mapping[v] == Some(p),
        loop_free(cm) ==> forall|v1: int, v2: int|
            0 <= v1 < nv && 0 <= v2 < nv && v1 != v2 && (#[trigger] mapping[v1]) is Some && (#[trigger] mapping[v2]) is Some
                ==> mapping[v1] != mapping[v2],
        forall|v: int| 0 <= v < nv ==> ((#[trigger] mapping[v]) is Some <==> touched(gates, v as usize)),
        forall|j: int| 0 <= j < free.len() ==> (#[trigger] free[j]) < cm.n_qubits && !used.contains(free[j]),
        forall|j1: int, j2: int| 0 <= j1 < j2 < free.len() ==> #[trigger] free[j1] < #[trigger] free[j2],
        forall|p: u32| p < cm.n_qubits && !(#[trigger] used.contains(p)) ==> free.contains(p),
        count_none(mapping) <= free.len(),
    ensures
        placement_ok(cm, gates, nv, fill_free(mapping, free)),
{
    let m = fill_free(mapping, free);
    let n = cm.n_qubits;
    assert forall|u: int| 0 <= u < nv && mapping[u] is None implies count_none(mapping.take(u)) < free.len() by {
        lemma_count_none_step(mapping, u);
        lemma_count_none_mono(mapping, u + 1, nv as int);
        assert(mapping.take(nv as int) =~= mapping);
    }
    assert forall|u: int| 0 <= u < m.len() implies #[trigger] m[u] < cm.n_qubits || edge_end(cm, m[u]) by {
        if mapping[u] is None {
            assert(free[count_none(mapping.take(u)) as int] < n);
        }
    }
    assert forall|u: int| 0 <= u < m.len() && !touched(gates, u as usize) implies #[trigger] m[u] < cm.n_qubits by {
        assert(mapping[u] is None);
        assert(free[count_none(mapping.take(u)) as int] < n);
    }
    assert forall|u1: int, u2: int|
        0 <= u1 < u2 < nv && mapping[u1] is None && mapping[u2] is None implies count_none(
        mapping.take(u1)) < count_none(mapping.take(u2)) by {
        lemma_count_none_step(mapping, u1);
        lemma_count_none_mono(mapping, u1 + 1, u2);
    }
    if loop_free(cm) {
        assert forall|i: int, j: int| 0 <= i < m.len() && 0 <= j < m.len() && i != j implies m[i] != m[j] by {
            if mapping[i] is Some && mapping[j] is Some {
            } else if mapping[i] is None && mapping[j] is None {
                if i < j {
                    assert(free[count_none(mapping.take(i)) as int] < free[count_none(mapping.take(j)) as int]);
                } else {
                    assert(free[count_none(mapping.take(j)) as int] < free[count_none(mapping.take(i)) as int]);
                }
            } else if mapping[i] is Some {
                assert(used.contains(m[i]));
                assert(!used.contains(free[count_none(mapping.take(j)) as int]));
            } else {
                assert(used.contains(m[j]));
                assert(!used.contains(free[count_none(mapping.take(i)) as int]));
            }
        }
    }
    assert forall|i: int|
        0 <= i < gates.len() implies (#[trigger] gates[i] matches DecomposedGate::CX(c) ==> (c.control
        != c.target ==> cm.adjacent(m[c.control as int], m[c.target as int]))) by {
        if let DecomposedGate::CX(c) = gates[i] {
            if c.control != c.target {
                assert(cx_with_pair(gates, i, cx_pair(c)));
                assert(pairs.contains(cx_pair(c)));
                let j = choose|j: int| 0 <= j < pairs.len() && pairs[j] == cx_pair(c);
                assert(pair_placed(cm, mapping, pairs[j]));
                assert(c.control < nv && c.target < nv);
            }
        }
    }
    assert forall|v1: int, v2: int|
        0 <= v1 < v2 < nv && !touched(gates, v1 as usize) && !touched(gates, v2 as usize)
            implies #[trigger] m[v1] < #[trigger] m[v2] by {
        assert(mapping[v1] is None && mapping[v2] is None);
        assert(free[count_none(mapping.take(v1)) as int] < free[count_none(mapping.take(v2)) as int]);
    }
    assert forall|v: int, p: u32|
        #![trigger m[v], m.contains(p)]
        0 <= v < nv && !touched(gates, v as usize) && p < m[v] implies m.contains(p) by {
        assert(mapping[v] is None);
        let jv = count_none(mapping.take(v)) as int;
        assert(m[v] == free[jv]);
        if used.contains(p) {
            let u = choose|u: int| 0 <= u < nv && #[trigger] mapping[u] == Some(p);
            assert(m[u] == p);
        } else {
            assert(free.contains(p));
            let j2 = choose|j2: int| 0 <= j2 < free.len() && free[j2] == p;
            if j2 >= jv {
                if j2 > jv {
                    assert(free[jv] < free[j2]);
                }
            }
            assert(j2 < jv);
            lemma_count_none_reach(mapping, v, j2 as nat);
            let u = choose|u: int| 0 <= u < v && mapping[u] is None && #[trigger] count_none(mapping.take(u)) == j2 as nat;
            assert(m[u] == p);
        }
    }
}

/// The partial mapping and the used physical qubits agree: each placed
/// virtual qubit belongs to a CX gate and sits on a used physical qubit that
/// ends an edge, each used physical qubit holds a placed
/// virtual qubit, no more physical qubits are used than virtual qubits
/// placed, and placed qubits are on distinct physical qubits on a backend
/// without loops.
spec fn slots_ok(
    cm: &CouplingMap,
    gates: Seq<DecomposedGate>,
    nv: nat,
    mapping: Seq<Option<u32>>,
    used: Set<u32>,
) -> bool {
    &&& mapping.len() == nv
    &&& used.finite()
    &&& forall|v: int|
        0 <= v < nv && (#[trigger] mapping[v]) is Some ==> used.contains(mapping[v]->0) && edge_end(cm, mapping[v]->0)
            && touched(gates, v as usize)
    &&& forall|p: u32| #[trigger] used.contains(p) ==> exists|v: int| 0 <= v < nv && #[trigger] mapping[v] == Some(p)
    &&& used.len() + count_none(mapping) <= nv
    &&& loop_free(cm) ==> forall|v1: int, v2: int|
        0 <= v1 < nv && 0 <= v2 < nv && v1 != v2 && (#[trigger] mapping[v1]) is Some && (#[trigger] mapping[v2]) is Some
            ==> mapping[v1] != mapping[v2]
}

/// Places virtual qubit `v` on physical qubit `p` and records `p` as used.
fn assign_slot(
    mapping: &mut Vec<Option<u32>>,
    used: &mut std::collections::HashSet<u32>,
    v: usize,
    p: u32,
    coupling_map: &CouplingMap,
    Ghost(gates): Ghost<Seq<DecomposedGate>>,
)
    requires
        slots_ok(coupling_map, gates, old(mapping)@.len(), old(mapping)@, old(used)@),
        v < old(mapping)@.len(),
        old(mapping)@[v as int] is None,
        edge_end(coupling_map, p),
        touched(gates, v),
        loop_free(coupling_map) ==> !old(used)@.contains(p),
    ensures
        final(mapping)@ == old(mapping)@.update(v as int, Some(p)),
        final(used)@ == with_used(old(used)@, p),
        slots_ok(coupling_map, gates, old(mapping)@.len(), final(mapping)@, final(used)@),
{
    broadcast use vstd::std_specs::hash::group_hash_axioms;

    let ghost m0 = mapping@;
    let ghost u0 = used@;
    let ghost nv = m0.len();
    proof {
        lemma_count_none_fill(m0, v as int, p);
    }
    used.insert(p);
    mapping.set(v, Some(p));
    proof {
        assert(used@ == u0.insert(p));
        assert(used@.len() <= u0.len() + 1) by {
            if u0.contains(p) {
                assert(u0.insert(p) =~= u0);
            }
        }
        assert forall|q: u32| #[trigger] used@.contains(q) implies exists|w: int|
            0 <= w < nv && #[trigger] mapping@[w] == Some(q) by {
            if q != p {
                assert(u0.contains(q));
                let w = choose|w: int| 0 <= w < nv && #[trigger] m0[w] == Some(q);
                assert(mapping@[w] == Some(q));
            } else {
                assert(mapping@[v as int] == Some(q));
            }
        }
        assert forall|w: int| 0 <= w < nv && (#[trigger] mapping@[w]) is Some implies used@.contains(mapping@[w]->0)
            && edge_end(coupling_map, mapping@[w]->0) && touched(gates, w as usize) by {
            if w != v as int {
                assert(m0[w] is Some);
            }
        }
        assert(loop_free(coupling_map) ==> forall|v1: int, v2: int|
            0 <= v1 < nv && 0 <= v2 < nv && v1 != v2 && (#[trigger] mapping@[v1]) is Some && (#[trigger] mapping@[v2])
                is Some ==> mapping@[v1] != mapping@[v2]) by {
            if loop_free(coupling_map) {
                assert forall|v1: int, v2: int|
                    0 <= v1 < nv && 0 <= v2 < nv && v1 != v2 && (#[trigger] mapping@[v1]) is Some && (#[trigger] mapping@[v2])
                        is Some implies mapping@[v1] != mapping@[v2] by {
                    if v1 == v as int {
                        assert(m0[v2] is Some && u0.contains(m0[v2]->0));
                    } else if v2 == v as int {
                        assert(m0[v1] is Some && u0.contains(m0[v1]->0));
                    } else {
                        assert(m0[v1] is Some && m0[v2] is Some);
                    }
                }
            }
        }
    }
}

/// Places the CX pairs in turn, as `place_pairs` does; on success every pair
/// is placed.
fn place_all_pairs(
    pairs: &Vec<(usize, usize)>,
    n_virtual: usize,
    coupling_map: &CouplingMap,
    Ghost(gates): Ghost<Seq<DecomposedGate>>,
) -> (r: Result<(Vec<Option<u32>>, std::collections::HashSet<u32>), String>)
    requires
        0 < n_virtual,
        cx_below(gates, n_virtual as nat),
        pairs@ == pairs_of(gates),
    ensures
        (match r {
            Ok((m, u)) => {
                &&& place_pairs(coupling_map, pairs@, pairs@.len(), n_virtual as nat) == Ok::<
                    (Seq<Option<u32>>, Set<u32>),
                    Seq<char>,
                >((m@, u@))
                &&& slots_ok(coupling_map, gates, n_virtual as nat, m@, u@)
                &&& forall|v: int| 0 <= v < n_virtual && touched(gates, v as usize) ==> (#[trigger] m@[v]) is Some
                &&& forall|j: int| 0 <= j < pairs@.len() ==> pair_placed(coupling_map, m@, #[trigger] pairs@[j])
            },
            Err(e) => {
                &&& place_pairs(coupling_map, pairs@, pairs@.len(), n_virtual as nat) == Err::<
                    (Seq<Option<u32>>, Set<u32>),
                    Seq<char>,
                >(e@)
                &&& place_error(gates, e@)
            },
        }),
{
    let mut mapping = filled_none(n_virtual);
    let mut used: std::collections::HashSet<u32> = std::collections::HashSet::new();
    proof {
        lemma_pairs_of(gates);
        lemma_count_none_all(n_virtual as nat);
        assert(place_pairs(coupling_map, pairs@, 0, n_virtual as nat) == Ok::<
            (Seq<Option<u32>>, Set<u32>),
            Seq<char>,
        >((mapping@, used@)));
        assert forall|j: int| 0 <= j < pairs@.len() implies (#[trigger] pairs@[j]).0 < n_virtual
            && pairs@[j].1 < n_virtual by {
            assert(pairs@.contains(pairs@[j]));
            let i = choose|i: int| cx_with_pair(gates, i, pairs@[j]);
            assert(gates[i] matches DecomposedGate::CX(c) && c.control < n_virtual && c.target < n_virtual);
        }
    }
    let mut k: usize = 0;
    while k < pairs.len()
        invariant
            0 < n_virtual,
            cx_below(gates, n_virtual as nat),
            pairs@ == pairs_of(gates),
            forall|p: (usize, usize)| #[trigger] pairs@.contains(p) <==> exists|i: int| cx_with_pair(gates, i, p),
            k <= pairs@.len(),
            slots_ok(coupling_map, gates, n_virtual as nat, mapping@, used@),
            forall|j: int| 0 <= j < k ==> pair_placed(coupling_map, mapping@, #[trigger] pairs@[j]),
            forall|j: int| 0 <= j < pairs@.len() ==> (#[trigger] pairs@[j]).0 < n_virtual && pairs@[j].1 < n_virtual,
            place_pairs(coupling_map, pairs@, k as nat, n_virtual as nat) == Ok::<
                (Seq<Option<u32>>, Set<u32>),
                Seq<char>,
            >((mapping@, used@)),
        decreases pairs@.len() - k,
    {
        let (va, vb) = pairs[k];
        let ghost i = choose|i: int| cx_with_pair(gates, i, (va, vb));
        proof {
            assert(pairs@.contains(pairs@[k as int]));
            assert(gates[i] matches DecomposedGate::CX(c) && c.control < n_virtual && c.target < n_virtual);
        }
        let ghost old_mapping = mapping@;
        if mapping[va].is_some() && mapping[vb].is_some() {
            let pa = mapping[va].unwrap();
            let pb = mapping[vb].unwrap();
            if !coupling_map.are_neighbors(pa, pb) {
                let msg = conflict_message(va, pa, vb, pb);
                proof {
                    assert(gates[i] matches DecomposedGate::CX(c) && (msg@ == conflict_msg(
                        cx_pair(c).0 as nat,
                        pa as nat,
                        cx_pair(c).1 as nat,
                        pb as nat,
                    )));
                    assert(pair_error(gates, i, msg@));
                    lemma_place_pairs_err(coupling_map, pairs@, (k + 1) as nat, pairs@.len(), n_virtual as nat);
                }
                return Err(msg);
            }
            k += 1;
            continue;
        }
        let found = find_connected_pair(mapping[va], mapping[vb], coupling_map, &used);
        if found.is_none() {
            let msg = no_pair_message(va, vb);
            proof {
                assert(gates[i] matches DecomposedGate::CX(c) && (msg@ == no_pair_msg(
                    cx_pair(c).0 as nat,
                    cx_pair(c).1 as nat,
                )));
                assert(pair_error(gates, i, msg@));
                lemma_place_pairs_err(coupling_map, pairs@, (k + 1) as nat, pairs@.len(), n_virtual as nat);
            }
            return Err(msg);
        }
        let (pa, pb) = found.unwrap();
        proof {
            assert(gates[i] matches DecomposedGate::CX(c) && (c.control == va || c.target == va)
                && (c.control == vb || c.target == vb));
            assert(touched(gates, va) && touched(gates, vb));
            if mapping@[va as int] is None && mapping@[vb as int] is None {
                lemma_edge_ends(coupling_map, pa, pb);
                if loop_free(coupling_map) {
                    let e = choose|e: int|
                        0 <= e < coupling_map.edge_seq().len() && coupling_map.edge_seq()[e] == (pa, pb);
                    assert(coupling_map.edge_seq()[e].0 != coupling_map.edge_seq()[e].1);
                }
            } else if mapping@[va as int] is Some {
                lemma_edge_ends(coupling_map, pa, pb);
            } else {
                lemma_edge_ends(coupling_map, pa, pb);
            }
        }
        if mapping[va].is_none() {
            assign_slot(&mut mapping, &mut used, va, pa, coupling_map, Ghost(gates));
        }
        if mapping[vb].is_none() {
            assign_slot(&mut mapping, &mut used, vb, pb, coupling_map, Ghost(gates));
        }
        assert forall|j: int| 0 <= j < k + 1 implies pair_placed(coupling_map, mapping@, #[trigger] pairs@[j]) by {
            let (a, b) = pairs@[j];
            assert(forall|v: int| 0 <= v < n_virtual && old_mapping[v] is Some ==> mapping@[v] == old_mapping[v]);
            if j < k {
                assert(old_mapping[a as int] is Some && old_mapping[b as int] is Some);
            } else {
                assert(a == va && b == vb);
                if old_mapping[va as int] is Some {
                    assert(mapping@[vb as int] == Some(pb));
                } else if old_mapping[vb as int] is Some {
                    assert(mapping@[va as int] == Some(pa));
                } else {
                    assert(mapping@[va as int] == Some(pa));
                    if va != vb {
                        assert(mapping@[vb as int] == Some(pb));
                    }
                }
            }
        }
        k += 1;
    }
    proof {
        assert forall|v: int| 0 <= v < n_virtual && touched(gates, v as usize) implies (#[trigger] mapping@[v]) is Some by {
            let i = choose|i: int|
                0 <= i < gates.len() && (#[trigger] gates[i] matches DecomposedGate::CX(c) && (c.control
                    == v as usize || c.target == v as usize));
            if let DecomposedGate::CX(c) = gates[i] {
                assert(cx_with_pair(gates, i, cx_pair(c)));
                assert(pairs@.contains(cx_pair(c)));
                let j = choose|j: int| 0 <= j < pairs@.len() && pairs@[j] == cx_pair(c);
                assert(pair_placed(coupling_map, mapping@, pairs@[j]));
            }
        }
    }
    Ok((mapping, used))
}

/// The physical qubits below `n` that are not used, in increasing order.
fn free_qubit_list(used: &std::collections::HashSet<u32>, n: u32) -> (free: Vec<u32>)
    requires
        used@.finite(),
    ensures
        free@ == free_qubits(used@, n as nat),
        forall|j: int| 0 <= j < free@.len() ==> (#[trigger] free@[j]) < n && !used@.contains(free@[j]),
        forall|j1: int, j2: int| 0 <= j1 < j2 < free@.len() ==> #[trigger] free@[j1] < #[trigger] free@[j2],
        forall|p: u32| p < n && !(#[trigger] used@.contains(p)) ==> free@.contains(p),
        free@.len() + used@.len() >= n,
{
    let mut free: Vec<u32> = Vec::new();
    let mut q: u32 = 0;
    while q < n
        invariant
            q <= n,
            forall|j: int| 0 <= j < free@.len() ==> (#[trigger] free@[j]) < q && !used@.contains(free@[j]),
            forall|j1: int, j2: int| 0 <= j1 < j2 < free@.len() ==> #[trigger] free@[j1] < #[trigger] free@[j2],
            forall|p: u32| p < q && !(#[trigger] used@.contains(p)) ==> free@.contains(p),
            free@.len() + used_below(used@, q as nat) == q,
            free@ == free_qubits(used@, q as nat),
        decreases n - q,
    {
        if !is_used(used, q) {
            free.push(q);
            proof {
                broadcast use vstd::seq_lib::lemma_seq_contains_after_push;
            }
        }
        q += 1;
    }
    proof {
        lemma_used_below_le(used@, n as nat);
    }
    free
}

/// The mapping with its empty slots filled, in order, by the qubits of `free`.
fn fill_slots(mapping: &Vec<Option<u32>>, free: &Vec<u32>) -> (r: Vec<u32>)
    requires
        count_none(mapping@) <= free@.len(),
    ensures
        r@ == fill_free(mapping@, free@),
{
    proof {
        assert(mapping@.take(mapping@.len() as int) =~= mapping@);
    }
    let mut result: Vec<u32> = Vec::new();
    let mut next: usize = 0;
    let mut v: usize = 0;
    let free_len = free.len();
    while v < mapping.len()
        invariant
            free_len == free@.len(),
            v <= mapping@.len(),
            result@.len() == v,
            next == count_none(mapping@.take(v as int)),
            count_none(mapping@) <= free@.len(),
            mapping@.take(mapping@.len() as int) == mapping@,
            forall|u: int| 0 <= u < v ==> #[trigger] result@[u] == fill_free(mapping@, free@)[u],
        decreases mapping@.len() - v,
    {
        proof {
            lemma_count_none_step(mapping@, v as int);
            lemma_count_none_mono(mapping@, v + 1, mapping@.len() as int);
        }
        match mapping[v] {
            Some(p) => {
                result.push(p);
            },
            None => {
                assert(next < free_len);
                result.push(free[next]);
                next += 1;
            },
        }
        v += 1;
    }
    assert(result@ =~= fill_free(mapping@, free@));
    result
}

/// Assigns the virtual qubits of a circuit to physical qubits of the coupling map.
///
/// Greedy, in two steps: every pair of virtual qubits joined by a CX gets a
/// connected pair of free physical qubits (or a free neighbor of the one
/// already placed); then the remaining virtual qubits take the free physical
/// qubits in increasing order. Fails when the circuit has more qubits than the
/// backend, or when no connected free pair is left for a CX pair.
pub fn place(
    n_virtual: usize,
    gates: &[DecomposedGate],
    coupling_map: &CouplingMap,
) -> (r: Result<Layout, String>)
    requires
        0 < n_virtual <= coupling_map.n_qubits ==> cx_below(gates@, n_virtual as nat),
    ensures
        n_virtual == 0 ==> r is Ok && r->Ok_0.mapping@.len() == 0,
        0 < n_virtual && n_virtual > coupling_map.n_qubits ==> r is Err && r->Err_0@ == too_large_msg(
            n_virtual as nat,
            coupling_map.n_qubits as nat,
        ),
        r is Ok ==> placement_ok(coupling_map, gates@, n_virtual as nat, r->Ok_0.mapping@),
        r is Err ==> (0 < n_virtual && n_virtual > coupling_map.n_qubits) || place_error(gates@, r->Err_0@),
        (match r {
            Ok(l) => placement(coupling_map, gates@, n_virtual as nat) == Ok::<Seq<u32>, Seq<char>>(l.mapping@),
            Err(e) => placement(coupling_map, gates@, n_virtual as nat) == Err::<Seq<u32>, Seq<char>>(e@),
        }),
{
    if n_virtual == 0 {
        return Ok(Layout::new(Vec::new()));
    }
    if n_virtual > coupling_map.n_qubits as usize {
        return Err(too_large_message(n_virtual, coupling_map.n_qubits));
    }
    let pairs = required_pairs(gates);
    let (mapping, used) = match place_all_pairs(&pairs, n_virtual, coupling_map, Ghost(gates@)) {
        Ok(x) => x,
        Err(e) => {
            return Err(e);
        },
    };
    let free = free_qubit_list(&used, coupling_map.n_qubits);
    proof {
        lemma_pairs_of(gates@);
        lemma_fill_ok(coupling_map, gates@, n_virtual as nat, pairs@, mapping@, used@, free@);
    }
    let result = fill_slots(&mapping, &free);
    Ok(Layout::new(result))
}

/// A CX gate whose virtual qubits were placed on unconnected physical qubits;
/// the router inserts SWAPs for it.
#[derive(Debug, Clone, Copy, PartialEq, Eq, Structural)]
pub struct PlacementIssue {
    /// Virtual control qubit.
    pub virtual_control: usize,
    /// Virtual target qubit.
    pub virtual_target: usize,
    /// Physical qubit of the control.
    pub physical_control: u32,
    /// Physical qubit of the target.
    pub physical_target: u32,
}

/// The issues of the CX gates of `gs` that `m` places on unconnected qubits, in order.
pub open spec fn issues_of(gs: Seq<DecomposedGate>, m: Seq<u32>, cm: &CouplingMap) -> Seq<PlacementIssue>
    decreases gs.len(),
{
    if gs.len() == 0 {
        Seq::empty()
    } else {
        let rest = issues_of(gs.drop_last(), m, cm);
        match gs.last() {
            DecomposedGate::CX(c) => if cm.adjacent(m[c.control as int], m[c.target as int]) {
                rest
            } else {
                rest.push(
                    PlacementIssue {
                        virtual_control: c.control,
                        virtual_target: c.target,
                        physical_control: m[c.control as int],
                        physical_target: m[c.target as int],
                    },
                )
            },
            _ => rest,
        }
    }
}

/// Lists the CX gates that the layout places on unconnected physical qubits;
/// an empty list means that no routing is needed.
pub fn check_layout(
    gates: &[DecomposedGate],
    layout: &Layout,
    coupling_map: &CouplingMap,
) -> (r: Vec<PlacementIssue>)
    requires
        cx_below(gates@, layout.mapping@.len()),
    ensures
        r@ == issues_of(gates@, layout.mapping@, coupling_map),
{
    let mut issues: Vec<PlacementIssue> = Vec::new();
    let mut i: usize = 0;
    while i < gates.len()
        invariant
            i <= gates@.len(),
            cx_below(gates@, layout.mapping@.len()),
            issues@ == issues_of(gates@.take(i as int), layout.mapping@, coupling_map),
        decreases gates@.len() - i,
    {
        assert(gates@.take(i + 1).drop_last() =~= gates@.take(i as int));
        assert(gates@.take(i + 1).last() == gates@[i as int]);
        if let DecomposedGate::CX(cx) = &gates[i] {
            let phys_c = layout.physical(cx.control);
            let phys_t = layout.physical(cx.target);
            if !coupling_map.are_neighbors(phys_c, phys_t) {
                issues.push(
                    PlacementIssue {
                        virtual_control: cx.control,
                        virtual_target: cx.target,
                        physical_control: phys_c,
                        physical_target: phys_t,
                    },
                );
            }
        }
        i += 1;
    }
    assert(gates@.take(i as int) =~= gates@);
    issues
}

} // verus!
