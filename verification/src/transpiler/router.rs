use vstd::prelude::*;
use crate::instruction::i_struct::Angle;
use crate::text::{decimal, push_decimal, push_str};
use crate::transpiler::coupling_map::CouplingMap;
use crate::transpiler::gate_decomposer::{
    cx_spec, gate_below, gates_below, h_spec, rad, u3_spec, CXGate, DecomposedGate, MeasureGate, U3Gate,
    HALF_PI_BITS, PI_BITS, ZERO_BITS,
};
use crate::transpiler::placement::{injective, Layout};

verus! {

/// A layout that follows the SWAPs inserted by the router: the physical qubit
/// of each virtual qubit, and the virtual qubit (if any) of each physical qubit.
#[derive(Debug, Clone)]
struct DynamicLayout {
    virt_to_phys: Vec<u32>,
    phys_to_virt: Vec<Option<usize>>,
    _n_physical: usize,
}

/// `s` with the values `a` and `b` exchanged.
pub open spec fn swapped(s: Seq<u32>, a: u32, b: u32) -> Seq<u32> {
    Seq::new(s.len(), |v: int| if s[v] == a { b } else if s[v] == b { a } else { s[v] })
}

impl DynamicLayout {
    /// The two tables are inverse to each other on the placed qubits.
    spec fn wf(&self) -> bool {
        &&& self.phys_to_virt@.len() == self._n_physical
        &&& forall|v: int|
            0 <= v < self.virt_to_phys@.len() ==> (#[trigger] self.virt_to_phys@[v]) < self._n_physical
                && self.phys_to_virt@[self.virt_to_phys@[v] as int] == Some(v as usize)
        &&& forall|p: int|
            0 <= p < self._n_physical && (#[trigger] self.phys_to_virt@[p]) is Some ==> {
                let v = self.phys_to_virt@[p]->0;
                &&& v < self.virt_to_phys@.len()
                &&& self.virt_to_phys@[v as int] == p
            }
    }

    /// Builds the tables from a static layout.
    fn from_layout(layout: &Layout, _n_physical: usize) -> (r: DynamicLayout)
        requires
            forall|v: int| 0 <= v < layout.mapping@.len() ==> (#[trigger] layout.mapping@[v]) < _n_physical,
            injective(layout.mapping@),
        ensures
            r.wf(),
            r.virt_to_phys@ == layout.mapping@,
            r._n_physical == _n_physical,
    {
        let mut phys_to_virt: Vec<Option<usize>> = Vec::new();
        let mut p: usize = 0;
        while p < _n_physical
            invariant
                p <= _n_physical,
                phys_to_virt@ == Seq::new(p as nat, |k: int| None::<usize>),
            decreases _n_physical - p,
        {
            phys_to_virt.push(None);
            p += 1;
            assert(phys_to_virt@ =~= Seq::new(p as nat, |k: int| None::<usize>));
        }
        let m = &layout.mapping;
        let mut v: usize = 0;
        while v < m.len()
            invariant
                v <= m@.len(),
                phys_to_virt@.len() == _n_physical,
                forall|u: int| 0 <= u < m@.len() ==> (#[trigger] m@[u]) < _n_physical,
                injective(m@),
                forall|u: int| 0 <= u < v ==> phys_to_virt@[(#[trigger] m@[u]) as int] == Some(u as usize),
                forall|q: int|
                    0 <= q < _n_physical && (#[trigger] phys_to_virt@[q]) is Some ==> {
                        let u = phys_to_virt@[q]->0;
                        &&& u < v
                        &&& m@[u as int] == q
                    },
            decreases m@.len() - v,
        {
            let phys = m[v];
            phys_to_virt.set(phys as usize, Some(v));
            assert forall|u: int| 0 <= u < v + 1 implies phys_to_virt@[(#[trigger] m@[u]) as int] == Some(u as usize) by {
                if u < v {
                    assert(m@[u] != m@[v as int]);
                }
            }
            v += 1;
        }
        DynamicLayout { virt_to_phys: layout.mapping.clone(), phys_to_virt, _n_physical }
    }

    /// The current physical qubit of a virtual qubit.
    fn physical(&self, virt: usize) -> (r: u32)
        requires
            virt < self.virt_to_phys@.len(),
        ensures
            r == self.virt_to_phys@[virt as int],
    {
        self.virt_to_phys[virt]
    }

    /// Records a physical SWAP of `phys_a` and `phys_b` in both tables.
    fn apply_swap(&mut self, phys_a: u32, phys_b: u32)
        requires
            old(self).wf(),
            phys_a < old(self)._n_physical,
            phys_b < old(self)._n_physical,
        ensures
            final(self).wf(),
            final(self)._n_physical == old(self)._n_physical,
            final(self).virt_to_phys@ == swapped(old(self).virt_to_phys@, phys_a, phys_b),
    {
        let ghost vtp = self.virt_to_phys@;
        let ghost ptv = self.phys_to_virt@;
        let vlen = self.virt_to_phys.len();
        assert(vtp.len() == vlen);
        let virt_a = self.phys_to_virt[phys_a as usize];
        let virt_b = self.phys_to_virt[phys_b as usize];
        self.phys_to_virt.set(phys_a as usize, virt_b);
        self.phys_to_virt.set(phys_b as usize, virt_a);
        if let Some(va) = virt_a {
            self.virt_to_phys.set(va, phys_b);
        }
        let ghost mid = self.virt_to_phys@;
        assert(virt_a is Some ==> mid == vtp.update(virt_a->0 as int, phys_b));
        assert(virt_a is None ==> mid == vtp);
        if let Some(vb) = virt_b {
            self.virt_to_phys.set(vb, phys_a);
        }
        assert(virt_b is Some ==> self.virt_to_phys@ == mid.update(virt_b->0 as int, phys_a));
        assert(virt_b is None ==> self.virt_to_phys@ == mid);
        assert forall|v: int| 0 <= v < vtp.len() implies #[trigger] self.virt_to_phys@[v] == swapped(vtp, phys_a, phys_b)[v] by {
            assert(ptv[vtp[v] as int] == Some(v as usize));
            if virt_a is Some {
                assert(vtp[virt_a->0 as int] == phys_a);
            }
            if virt_b is Some {
                assert(vtp[virt_b->0 as int] == phys_b);
            }
            if vtp[v] == phys_a {
                assert(virt_a == Some(v as usize));
            } else if vtp[v] == phys_b {
                assert(virt_b == Some(v as usize));
            }
        }
        assert(self.virt_to_phys@ =~= swapped(vtp, phys_a, phys_b));
    }
}

/// `g` with its virtual qubits replaced by their physical qubits under `m`.
pub open spec fn on_layout(g: DecomposedGate, m: Seq<u32>) -> DecomposedGate {
    match g {
        DecomposedGate::U3(u) => DecomposedGate::U3(
            U3Gate { theta: u.theta, phi: u.phi, lambda: u.lambda, target: m[u.target as int] as usize },
        ),
        DecomposedGate::CX(c) => DecomposedGate::CX(
            CXGate { control: m[c.control as int] as usize, target: m[c.target as int] as usize },
        ),
        DecomposedGate::Measure(x) => DecomposedGate::Measure(
            MeasureGate { qubit: m[x.qubit as int] as usize, clbit: x.clbit },
        ),
    }
}

/// `CX(c, t)` through the reverse edge: `H(c) H(t) CX(t, c) H(c) H(t)`.
pub open spec fn reverse_cx_spec(c: u32, t: u32) -> Seq<DecomposedGate> {
    h_spec(c as usize) + h_spec(t as usize) + seq![cx_spec(t as usize, c as usize)] + h_spec(c as usize)
        + h_spec(t as usize)
}

/// A physical SWAP as three CX: `CX(a,b) CX(b,a) CX(a,b)`.
pub open spec fn swap_cx_spec(a: u32, b: u32) -> Seq<DecomposedGate> {
    seq![cx_spec(a as usize, b as usize), cx_spec(b as usize, a as usize), cx_spec(a as usize, b as usize)]
}

/// The routing of one gate when no SWAP is needed: U3 and measurements are
/// moved to their physical qubits; a CX is kept on a directed edge, or turned
/// around with Hadamards on the reverse edge.
pub open spec fn direct_route_one(g: DecomposedGate, m: Seq<u32>, cm: &CouplingMap) -> Seq<DecomposedGate> {
    match g {
        DecomposedGate::CX(c) => {
            let pc = m[c.control as int];
            let pt = m[c.target as int];
            if cm.has_edge(pc, pt) {
                seq![cx_spec(pc as usize, pt as usize)]
            } else {
                reverse_cx_spec(pc, pt)
            }
        },
        _ => seq![on_layout(g, m)],
    }
}

/// The routing of a list of gates when no SWAP is needed.
pub open spec fn direct_route(gs: Seq<DecomposedGate>, m: Seq<u32>, cm: &CouplingMap) -> Seq<DecomposedGate>
    decreases gs.len(),
{
    if gs.len() == 0 {
        Seq::empty()
    } else {
        direct_route(gs.drop_last(), m, cm) + direct_route_one(gs.last(), m, cm)
    }
}

/// Every CX of `gs` joins qubits that are connected in some direction.
pub open spec fn cx_adjacent(gs: Seq<DecomposedGate>, cm: &CouplingMap) -> bool {
    forall|i: int|
        0 <= i < gs.len() ==> (#[trigger] gs[i] matches DecomposedGate::CX(c) ==> cm.adjacent(
            c.control as u32,
            c.target as u32,
        ) && c.control <= u32::MAX && c.target <= u32::MAX)
}

/// Every CX of `gs` joins two distinct qubits.
pub open spec fn cx_distinct(gs: Seq<DecomposedGate>) -> bool {
    forall|i: int| 0 <= i < gs.len() ==> (#[trigger] gs[i] matches DecomposedGate::CX(c) ==> c.control != c.target)
}

/// Under `m`, every CX of `gs` falls on qubits connected in some direction.
pub open spec fn layout_adjacent(gs: Seq<DecomposedGate>, m: Seq<u32>, cm: &CouplingMap) -> bool {
    forall|i: int|
        0 <= i < gs.len() ==> (#[trigger] gs[i] matches DecomposedGate::CX(c) ==> cm.adjacent(
            m[c.control as int],
            m[c.target as int],
        ))
}

/// The error when no walk joins two physical qubits.
pub open spec fn no_path_msg(a: nat, b: nat) -> Seq<char> {
    "Aucun chemin entre $"@ + decimal(a) + " et $"@ + decimal(b) + " dans le coupling map"@
}

/// The error when the qubits are still unconnected after the SWAPs.
pub open spec fn routing_failed_msg(a: nat, b: nat) -> Seq<char> {
    "Routing échoué : impossible de connecter $"@ + decimal(a) + " → $"@ + decimal(b)
}

fn no_path_message(a: u32, b: u32) -> (r: String)
    ensures
        r@ == no_path_msg(a as nat, b as nat),
{
    let mut s = String::new();
    push_str(&mut s, "Aucun chemin entre $");
    push_decimal(&mut s, a as u64);
    push_str(&mut s, " et $");
    push_decimal(&mut s, b as u64);
    push_str(&mut s, " dans le coupling map");
    assert(s@ =~= no_path_msg(a as nat, b as nat));
    s
}

fn routing_failed_message(a: u32, b: u32) -> (r: String)
    ensures
        r@ == routing_failed_msg(a as nat, b as nat),
{
    let mut s = String::new();
    push_str(&mut s, "Routing échoué : impossible de connecter $");
    push_decimal(&mut s, a as u64);
    push_str(&mut s, " → $");
    push_decimal(&mut s, b as u64);
    assert(s@ =~= routing_failed_msg(a as nat, b as nat));
    s
}

fn hadamard(q: u32) -> (r: DecomposedGate)
    ensures
        seq![r] == h_spec(q as usize),
{
    DecomposedGate::U3(
        U3Gate {
            theta: Angle::Radians(HALF_PI_BITS),
            phi: Angle::Radians(ZERO_BITS),
            lambda: Angle::Radians(PI_BITS),
            target: q as usize,
        },
    )
}

/// A physical SWAP as three CX gates: `CX(a,b) CX(b,a) CX(a,b)`.
fn emit_swap(a: u32, b: u32) -> (r: Vec<DecomposedGate>)
    ensures
        r@ == swap_cx_spec(a, b),
{
    let mut v: Vec<DecomposedGate> = Vec::new();
    v.push(DecomposedGate::CX(CXGate { control: a as usize, target: b as usize }));
    v.push(DecomposedGate::CX(CXGate { control: b as usize, target: a as usize }));
    v.push(DecomposedGate::CX(CXGate { control: a as usize, target: b as usize }));
    assert(v@ =~= swap_cx_spec(a, b));
    v
}

/// `CX(c, t)` when only the edge `t -> c` exists:
/// `H(c) H(t) CX(t,c) H(c) H(t)`.
fn emit_reverse_cx(phys_c: u32, phys_t: u32) -> (r: Vec<DecomposedGate>)
    ensures
        r@ == reverse_cx_spec(phys_c, phys_t),
{
    let mut v: Vec<DecomposedGate> = Vec::new();
    v.push(hadamard(phys_c));
    v.push(hadamard(phys_t));
    v.push(DecomposedGate::CX(CXGate { control: phys_t as usize, target: phys_c as usize }));
    v.push(hadamard(phys_c));
    v.push(hadamard(phys_t));
    assert(v@ =~= reverse_cx_spec(phys_c, phys_t));
    v
}

/// The layout after the SWAPs along the first `k` steps of the walk `p`.
pub open spec fn swap_along(m: Seq<u32>, p: Seq<u32>, k: nat) -> Seq<u32>
    decreases k,
{
    if k == 0 {
        m
    } else {
        swapped(swap_along(m, p, (k - 1) as nat), p[k - 1], p[k as int])
    }
}

/// The SWAPs along the first `k` steps of the walk `p`, as CX gates.
pub open spec fn swaps_along(p: Seq<u32>, k: nat) -> Seq<DecomposedGate>
    decreases k,
{
    if k == 0 {
        Seq::empty()
    } else {
        swaps_along(p, (k - 1) as nat) + swap_cx_spec(p[k - 1], p[k as int])
    }
}

/// Under layout `m`, `g` is a CX whose physical qubits are connected in
/// neither direction.
pub open spec fn needs_swaps(g: DecomposedGate, m: Seq<u32>, cm: &CouplingMap) -> bool {
    g matches DecomposedGate::CX(c) && !cm.adjacent(m[c.control as int], m[c.target as int])
}

/// Routing one gate under layout `m`: the gates emitted and the layout after
/// them. A CX that needs SWAPs first moves its control along the walk `p`,
/// up to the qubit just before its target.
pub open spec fn route_step(g: DecomposedGate, m: Seq<u32>, p: Seq<u32>, cm: &CouplingMap) -> (
    Seq<DecomposedGate>,
    Seq<u32>,
) {
    if needs_swaps(g, m, cm) {
        let k = (p.len() - 2) as nat;
        let m2 = swap_along(m, p, k);
        (swaps_along(p, k) + direct_route_one(g, m2, cm), m2)
    } else {
        (direct_route_one(g, m, cm), m)
    }
}

/// Routing the first `n` gates of `gs` from layout `m`, gate `i` along the
/// walk `ps[i]`: the gates emitted and the final layout.
pub open spec fn route_upto(
    gs: Seq<DecomposedGate>,
    m: Seq<u32>,
    ps: Seq<Seq<u32>>,
    cm: &CouplingMap,
    n: nat,
) -> (Seq<DecomposedGate>, Seq<u32>)
    decreases n,
{
    if n == 0 {
        (Seq::empty(), m)
    } else {
        let prev = route_upto(gs, m, ps, cm, (n - 1) as nat);
        let st = route_step(gs[n - 1], prev.1, ps[n - 1], cm);
        (prev.0 + st.0, st.1)
    }
}

/// If gate `i` needs SWAPs, its walk `ps[i]` is the shortest walk between
/// its physical qubits at that point that breadth-first search in edge order
/// finds.
pub open spec fn walk_ok_at(gs: Seq<DecomposedGate>, m: Seq<u32>, ps: Seq<Seq<u32>>, cm: &CouplingMap, i: int) -> bool {
    let mi = route_upto(gs, m, ps, cm, i as nat).1;
    match gs[i] {
        DecomposedGate::CX(c) => !cm.adjacent(mi[c.control as int], mi[c.target as int]) ==> cm.first_shortest_walk(
            ps[i],
            mi[c.control as int],
            mi[c.target as int],
        ),
        _ => true,
    }
}

/// Each of the first `n` gates that needs SWAPs moves along the walk that
/// breadth-first search in edge order finds.
pub open spec fn walks_ok(gs: Seq<DecomposedGate>, m: Seq<u32>, ps: Seq<Seq<u32>>, cm: &CouplingMap, n: nat) -> bool {
    forall|i: int| 0 <= i < n ==> #[trigger] walk_ok_at(gs, m, ps, cm, i)
}

/// Gate `i` is a CX whose physical qubits at that point are unconnected and
/// joined by no walk, and `msg` reports them.
pub open spec fn blocked_at(
    gs: Seq<DecomposedGate>,
    m: Seq<u32>,
    ps: Seq<Seq<u32>>,
    cm: &CouplingMap,
    i: int,
    msg: Seq<char>,
) -> bool {
    let mi = route_upto(gs, m, ps, cm, i as nat).1;
    match gs[i] {
        DecomposedGate::CX(c) => {
            let a = mi[c.control as int];
            let b = mi[c.target as int];
            &&& !cm.adjacent(a, b)
            &&& !cm.reachable(a, b)
            &&& msg == no_path_msg(a as nat, b as nat)
        },
        _ => false,
    }
}

/// The routing of the first `n` gates depends on the first `n` walks only.
proof fn lemma_route_upto_prefix(
    gs: Seq<DecomposedGate>,
    m: Seq<u32>,
    ps1: Seq<Seq<u32>>,
    ps2: Seq<Seq<u32>>,
    cm: &CouplingMap,
    n: nat,
)
    requires
        forall|i: int| 0 <= i < n ==> ps1[i] == ps2[i],
    ensures
        route_upto(gs, m, ps1, cm, n) == route_upto(gs, m, ps2, cm, n),
    decreases n,
{
    if n > 0 {
        lemma_route_upto_prefix(gs, m, ps1, ps2, cm, (n - 1) as nat);
    }
}

/// Appending the walk of gate `n` keeps the earlier walks valid.
proof fn lemma_walks_ok_push(
    gs: Seq<DecomposedGate>,
    m: Seq<u32>,
    ps: Seq<Seq<u32>>,
    p: Seq<u32>,
    cm: &CouplingMap,
    n: nat,
)
    requires
        ps.len() == n,
        walks_ok(gs, m, ps, cm, n),
        walk_ok_at(gs, m, ps.push(p), cm, n as int),
    ensures
        walks_ok(gs, m, ps.push(p), cm, n + 1),
{
    assert forall|i: int| 0 <= i < n + 1 implies #[trigger] walk_ok_at(gs, m, ps.push(p), cm, i) by {
        if i < n {
            lemma_route_upto_prefix(gs, m, ps.push(p), ps, cm, i as nat);
            assert(ps.push(p)[i] == ps[i]);
            assert(walk_ok_at(gs, m, ps, cm, i));
        }
    }
}

fn append_gates(dst: &mut Vec<DecomposedGate>, src: Vec<DecomposedGate>)
    ensures
        final(dst)@ == old(dst)@ + src@,
{
    let mut s = src;
    dst.append(&mut s);
}

/// Inserts SWAPs so that every CX acts on connected physical qubits.
///
/// For each CX: when its physical qubits are connected it is emitted as is;
/// when only the reverse edge exists it is turned around with Hadamards;
/// otherwise the control is moved towards the target by SWAPs along the
/// shortest walk that breadth-first search in edge order finds (see
/// `CouplingMap::shortest_path`), the layout following each SWAP, and the CX
/// is then emitted. U3 gates
/// and measurements are moved to the current physical qubits. Fails when no
/// walk joins the two qubits.
#[verifier::rlimit(50)]
pub fn route(
    gates: Vec<DecomposedGate>,
    layout: &Layout,
    coupling_map: &CouplingMap,
) -> (r: Result<Vec<DecomposedGate>, String>)
    requires
        coupling_map.closed(),
        forall|v: int| 0 <= v < layout.mapping@.len() ==> (#[trigger] layout.mapping@[v]) < coupling_map.n_qubits,
        injective(layout.mapping@),
        gates_below(gates@, layout.mapping@.len()),
        cx_distinct(gates@),
    ensures
        r is Ok ==> gates_below(r->Ok_0@, coupling_map.n_qubits as nat) && cx_adjacent(r->Ok_0@, coupling_map),
        layout_adjacent(gates@, layout.mapping@, coupling_map) ==> r is Ok && r->Ok_0@ == direct_route(
            gates@,
            layout.mapping@,
            coupling_map,
        ),
        r is Ok ==> exists|ps: Seq<Seq<u32>>|
            #[trigger] walks_ok(gates@, layout.mapping@, ps, coupling_map, gates@.len()) && r->Ok_0@ == route_upto(
                gates@,
                layout.mapping@,
                ps,
                coupling_map,
                gates@.len(),
            ).0,
        r is Err ==> exists|ps: Seq<Seq<u32>>, i: int|
            0 <= i < gates@.len() && walks_ok(gates@, layout.mapping@, ps, coupling_map, i as nat)
                && #[trigger] blocked_at(gates@, layout.mapping@, ps, coupling_map, i, r->Err_0@),
{
    let n_physical = coupling_map.n_qubits as usize;
    let mut dyn_layout = DynamicLayout::from_layout(layout, n_physical);
    let mut output: Vec<DecomposedGate> = Vec::new();
    let ghost m = layout.mapping@;
    let ghost mut ps: Seq<Seq<u32>> = Seq::empty();
    let mut i: usize = 0;
    while i < gates.len()
        invariant
            ps.len() == i,
            walks_ok(gates@, m, ps, coupling_map, i as nat),
            output@ == route_upto(gates@, m, ps, coupling_map, i as nat).0,
            dyn_layout.virt_to_phys@ == route_upto(gates@, m, ps, coupling_map, i as nat).1,
            coupling_map.closed(),
            n_physical == coupling_map.n_qubits,
            i <= gates@.len(),
            m == layout.mapping@,
            dyn_layout.wf(),
            dyn_layout._n_physical == n_physical,
            dyn_layout.virt_to_phys@.len() == m.len(),
            gates_below(gates@, m.len()),
            cx_distinct(gates@),
            gates_below(output@, n_physical as nat),
            cx_adjacent(output@, coupling_map),
            layout_adjacent(gates@, m, coupling_map) ==> dyn_layout.virt_to_phys@ == m && output@
                == direct_route(gates@.take(i as int), m, coupling_map),
        decreases gates@.len() - i,
    {
        let ghost old_out = output@;
        let ghost mi = dyn_layout.virt_to_phys@;
        let ghost mut walk: Seq<u32> = Seq::empty();
        proof {
            assert(gates@.take(i + 1).drop_last() =~= gates@.take(i as int));
            assert(gates@.take(i + 1).last() == gates@[i as int]);
            assert(gate_below_at(gates@, i as int, m.len()));
        }
        let emitted: Vec<DecomposedGate>;
        match &gates[i] {
            DecomposedGate::CX(cx) => {
                let phys_c = dyn_layout.physical(cx.control);
                let phys_t = dyn_layout.physical(cx.target);
                proof {
                    assert(cx.control != cx.target);
                    assert(dyn_layout.phys_to_virt@[phys_c as int] == Some(cx.control));
                    assert(dyn_layout.phys_to_virt@[phys_t as int] == Some(cx.target));
                }
                if coupling_map.is_connected(phys_c, phys_t) {
                    let mut v: Vec<DecomposedGate> = Vec::new();
                    v.push(DecomposedGate::CX(CXGate { control: phys_c as usize, target: phys_t as usize }));
                    proof {
                        assert(v@ == seq![cx_spec(phys_c as usize, phys_t as usize)]);
                        assert(coupling_map.adjacent(phys_c, phys_t));
                        assert(gate_below(v@[0], n_physical as nat));
                    }
                    emitted = v;
                } else if coupling_map.is_connected(phys_t, phys_c) {
                    emitted = emit_reverse_cx(phys_c, phys_t);
                    proof {
                        lemma_reverse_ok(phys_c, phys_t, n_physical as nat, coupling_map);
                    }
                } else {
                    proof {
                        if layout_adjacent(gates@, m, coupling_map) {
                            assert(gates@[i as int] matches DecomposedGate::CX(c) ==> coupling_map.adjacent(
                                m[c.control as int],
                                m[c.target as int],
                            ));
                            assert(gates@[i as int] == DecomposedGate::CX(*cx));
                            assert(coupling_map.adjacent(phys_c, phys_t));
                        }
                        assert(!layout_adjacent(gates@, m, coupling_map));
                    }
                    proof {
                        coupling_map.lemma_closed_from(phys_c);
                    }
                    let found = coupling_map.shortest_path(phys_c, phys_t);
                    if found.is_none() {
                        let msg = no_path_message(phys_c, phys_t);
                        proof {
                            let ii: int = i as int;
                            assert(gates@[ii] == DecomposedGate::CX(*cx));
                            assert(walks_ok(gates@, m, ps, coupling_map, ii as nat));
                            assert(blocked_at(gates@, m, ps, coupling_map, ii, msg@));
                            assert(exists|ps: Seq<Seq<u32>>, i: int|
                                0 <= i < gates@.len() && walks_ok(gates@, layout.mapping@, ps, coupling_map, i as nat)
                                    && #[trigger] blocked_at(gates@, layout.mapping@, ps, coupling_map, i, msg@));
                            assert(Err::<Vec<DecomposedGate>, String>(msg)->Err_0@ == msg@);
                        }
                        return Err(msg);
                    }
                    let path = found.unwrap();
                    let plen = path.len();
                    proof {
                        walk = path@;
                        coupling_map.lemma_shortest_walk_distinct(path@, phys_c, phys_t);
                        coupling_map.lemma_walk_in_backend(path@);
                    }
                    assert(plen >= 2) by {
                        if plen < 2 {
                            assert(path@[0] == path@.last());
                        }
                    }
                    let mut v: Vec<DecomposedGate> = Vec::new();
                    let mut k: usize = 0;
                    while k < plen - 2
                        invariant
                            plen == path@.len(),
                            plen >= 2,
                            k <= plen - 2,
                            coupling_map.closed(),
                            n_physical == coupling_map.n_qubits,
                            coupling_map.is_path(path@),
                            dyn_layout.wf(),
                            dyn_layout._n_physical == n_physical,
                            dyn_layout.virt_to_phys@.len() == m.len(),
                            gates_below(v@, n_physical as nat),
                            cx_adjacent(v@, coupling_map),
                            walk == path@,
                            forall|x: int, y: int| 0 <= x < y < path@.len() ==> path@[x] != path@[y],
                            forall|x: int| 0 <= x < path@.len() ==> #[trigger] path@[x] < n_physical,
                            cx.control < m.len(),
                            cx.target < m.len(),
                            dyn_layout.virt_to_phys@ == swap_along(mi, path@, k as nat),
                            v@ == swaps_along(path@, k as nat),
                            dyn_layout.virt_to_phys@[cx.control as int] == path@[k as int],
                            dyn_layout.virt_to_phys@[cx.target as int] == path@[plen - 1],
                        decreases path@.len() - k,
                    {
                        let a = path[k];
                        let b = path[k + 1];
                        proof {
                            assert(coupling_map.has_edge(path@[k as int], path@[k + 1]));
                            assert(path@[k as int] < n_physical && path@[k + 1] < n_physical);
                        }
                        let ghost before = v@;
                        let sw = emit_swap(a, b);
                        append_gates(&mut v, sw);
                        assert forall|j: int| 0 <= j < v@.len() implies (#[trigger] v@[j] matches DecomposedGate::CX(c) ==> coupling_map.adjacent(
                            c.control as u32,
                            c.target as u32,
                        ) && c.control <= u32::MAX && c.target <= u32::MAX) && gate_below(v@[j], n_physical as nat) by {
                            if j >= before.len() {
                                assert(v@[j] == swap_cx_spec(a, b)[j - before.len()]);
                            } else {
                                assert(v@[j] == before[j]);
                                assert(gate_below(before[j], n_physical as nat));
                            }
                        }
                        dyn_layout.apply_swap(a, b);
                        k += 1;
                        assert(v@ =~= swaps_along(path@, k as nat));
                        assert(path@[k - 1] != path@[plen - 1] && path@[k as int] != path@[plen - 1]);
                    }
                    assert(coupling_map.has_edge(path@[plen - 2], path@[(plen - 2) + 1]));
                    let new_c = dyn_layout.physical(cx.control);
                    let new_t = dyn_layout.physical(cx.target);
                    if coupling_map.is_connected(new_c, new_t) {
                        let ghost before = v@;
                        v.push(DecomposedGate::CX(CXGate { control: new_c as usize, target: new_t as usize }));
                        proof {
                            assert(v@ == before + seq![cx_spec(new_c as usize, new_t as usize)]);
                            assert(coupling_map.adjacent(new_c, new_t));
                            assert(gate_below(seq![cx_spec(new_c as usize, new_t as usize)][0], n_physical as nat));
                            lemma_concat_ok(before, seq![cx_spec(new_c as usize, new_t as usize)], n_physical as nat, coupling_map);
                        }
                    } else if coupling_map.is_connected(new_t, new_c) {
                        let ghost before = v@;
                        let rv = emit_reverse_cx(new_c, new_t);
                        proof {
                            lemma_reverse_ok(new_c, new_t, n_physical as nat, coupling_map);
                            lemma_concat_ok(before, rv@, n_physical as nat, coupling_map);
                        }
                        append_gates(&mut v, rv);
                    } else {
                        let msg = routing_failed_message(new_c, new_t);
                        return Err(msg);
                    }
                    emitted = v;
                }
            },
            DecomposedGate::U3(u) => {
                let p = dyn_layout.physical(u.target);
                let mut v: Vec<DecomposedGate> = Vec::new();
                v.push(
                    DecomposedGate::U3(
                        U3Gate {
                            theta: u.theta.copy(),
                            phi: u.phi.copy(),
                            lambda: u.lambda.copy(),
                            target: p as usize,
                        },
                    ),
                );
                emitted = v;
            },
            DecomposedGate::Measure(x) => {
                let p = dyn_layout.physical(x.qubit);
                let mut v: Vec<DecomposedGate> = Vec::new();
                v.push(DecomposedGate::Measure(MeasureGate { qubit: p as usize, clbit: x.clbit }));
                emitted = v;
                assert(gate_below(emitted@[0], n_physical as nat));
            },
        }
        proof {
            lemma_concat_ok(old_out, emitted@, n_physical as nat, coupling_map);
            assert(emitted@ == route_step(gates@[i as int], mi, walk, coupling_map).0);
            assert(dyn_layout.virt_to_phys@ == route_step(gates@[i as int], mi, walk, coupling_map).1);
            lemma_route_upto_prefix(gates@, m, ps.push(walk), ps, coupling_map, i as nat);
            assert(walk_ok_at(gates@, m, ps.push(walk), coupling_map, i as int));
            lemma_walks_ok_push(gates@, m, ps, walk, coupling_map, i as nat);
            ps = ps.push(walk);
        }
        append_gates(&mut output, emitted);
        i += 1;
    }
    assert(gates@.take(i as int) =~= gates@);
    assert(walks_ok(gates@, m, ps, coupling_map, gates@.len()));
    Ok(output)
}

/// `gs[i]` acts on qubits below `n`.
pub open spec fn gate_below_at(gs: Seq<DecomposedGate>, i: int, n: nat) -> bool {
    crate::transpiler::gate_decomposer::gate_below(gs[i], n)
}

/// Concatenating two lists of gates that are within `n` and have their CX
/// gates on connected qubits gives such a list.
pub proof fn lemma_concat_ok(a: Seq<DecomposedGate>, b: Seq<DecomposedGate>, n: nat, cm: &CouplingMap)
    requires
        gates_below(a, n),
        gates_below(b, n),
        cx_adjacent(a, cm),
        cx_adjacent(b, cm),
    ensures
        gates_below(a + b, n),
        cx_adjacent(a + b, cm),
{
    assert forall|j: int| 0 <= j < (a + b).len() implies gate_below(#[trigger] (a + b)[j], n) by {
        if j < a.len() {
            assert((a + b)[j] == a[j]);
        } else {
            assert((a + b)[j] == b[j - a.len()]);
        }
    }
    assert forall|j: int| 0 <= j < (a + b).len() implies (#[trigger] (a + b)[j] matches DecomposedGate::CX(c)
        ==> cm.adjacent(c.control as u32, c.target as u32) && c.control <= u32::MAX && c.target <= u32::MAX) by {
        if j < a.len() {
            assert((a + b)[j] == a[j]);
        } else {
            assert((a + b)[j] == b[j - a.len()]);
        }
    }
}

/// The reversed CX through an existing edge `t -> c` is within `n` and has its
/// CX on connected qubits.
pub proof fn lemma_reverse_ok(c: u32, t: u32, n: nat, cm: &CouplingMap)
    requires
        c < n,
        t < n,
        cm.has_edge(t, c),
    ensures
        gates_below(reverse_cx_spec(c, t), n),
        cx_adjacent(reverse_cx_spec(c, t), cm),
{
    let s = reverse_cx_spec(c, t);
    assert(s =~= seq![
        h_spec(c as usize)[0],
        h_spec(t as usize)[0],
        cx_spec(t as usize, c as usize),
        h_spec(c as usize)[0],
        h_spec(t as usize)[0],
    ]);
    assert(cm.adjacent(t, c));
}

/// Exchanging the same two physical qubits twice restores the layout.
pub proof fn lemma_swapped_twice(s: Seq<u32>, a: u32, b: u32)
    ensures
        swapped(swapped(s, a, b), a, b) == s,
{
    assert(swapped(swapped(s, a, b), a, b) =~= s);
}

/// Exchanging two physical qubits keeps distinct qubits distinct.
pub proof fn lemma_swapped_injective(s: Seq<u32>, a: u32, b: u32)
    requires
        injective(s),
    ensures
        injective(swapped(s, a, b)),
{
}

/// The walks are fixed: any two lists of walks that meet `walks_ok` route the
/// first `n` gates to the same gates and the same layout, so the contract of
/// `route` fixes what it returns.
pub proof fn lemma_route_determined(
    gs: Seq<DecomposedGate>,
    m: Seq<u32>,
    ps1: Seq<Seq<u32>>,
    ps2: Seq<Seq<u32>>,
    cm: &CouplingMap,
    n: nat,
)
    requires
        n <= gs.len(),
        walks_ok(gs, m, ps1, cm, n),
        walks_ok(gs, m, ps2, cm, n),
    ensures
        route_upto(gs, m, ps1, cm, n) == route_upto(gs, m, ps2, cm, n),
    decreases n,
{
    if n > 0 {
        let k = (n - 1) as nat;
        assert forall|i: int| 0 <= i < k implies #[trigger] walk_ok_at(gs, m, ps1, cm, i) by {
            assert(walk_ok_at(gs, m, ps1, cm, i));
        }
        assert forall|i: int| 0 <= i < k implies #[trigger] walk_ok_at(gs, m, ps2, cm, i) by {
            assert(walk_ok_at(gs, m, ps2, cm, i));
        }
        lemma_route_determined(gs, m, ps1, ps2, cm, k);
        assert(walk_ok_at(gs, m, ps1, cm, k as int));
        assert(walk_ok_at(gs, m, ps2, cm, k as int));
        let mi = route_upto(gs, m, ps1, cm, k).1;
        if needs_swaps(gs[k as int], mi, cm) {
            if let DecomposedGate::CX(c) = gs[k as int] {
                cm.lemma_first_shortest_walk_unique(
                    ps1[k as int],
                    ps2[k as int],
                    mi[c.control as int],
                    mi[c.target as int],
                );
            }
        }
    }
}

} // verus!
