use vstd::prelude::*;
use crate::circuit::quantum_circuit::QuantumCircuit;
use crate::instruction::i_struct::IStruct;
use crate::text::{append_pieces, decimal, pieces, push_decimal, push_piece, push_str, text, Piece, PieceModel};
use crate::transpiler::coupling_map::{CouplingMap, TwoQubitGate};
use crate::transpiler::gate_decomposer::{
    decompose, decompose_ops, decomposable_ops, extra_header_text, gate_below, gate_qasm, gates_below,
    lemma_decompose_below, CXGate, DecomposedGate, MeasureGate, U3Gate,
};
use crate::transpiler::placement::{
    check_layout, edge_end, issues_of, place, placement, placement_ok, Layout,
};
use crate::transpiler::router::{
    cx_adjacent, cx_distinct, direct_route, layout_adjacent, on_layout, route,
};

verus! {

/// The result of a transpilation.
pub struct TranspileResult {
    /// The transpiled OpenQASM 3 program, ready to be submitted.
    pub qasm: Vec<Piece>,
    /// The final mapping: `layout[virtual] = physical`.
    pub layout: Vec<u32>,
    /// The number of CX gates that needed routing.
    pub n_swaps_inserted: usize,
}

/// The native two-qubit gate of a coupling map.
pub open spec fn native_gate(cm: &CouplingMap) -> TwoQubitGate {
    if cm.has_gate("cz"@) {
        TwoQubitGate::CZ
    } else if cm.has_gate("ecr"@) {
        TwoQubitGate::ECR
    } else {
        TwoQubitGate::CX
    }
}

/// The text of a layout: `q[v]→$p ` for each virtual qubit `v`.
pub open spec fn layout_text(m: Seq<u32>) -> Seq<char>
    decreases m.len(),
{
    if m.len() == 0 {
        Seq::empty()
    } else {
        layout_text(m.drop_last()) + "q["@ + decimal((m.len() - 1) as nat) + "]→$"@ + decimal(m.last() as nat) + " "@
    }
}

/// The header of a transpiled program: version, includes, the definition
/// the native gate needs, the classical register and the layout.
pub open spec fn header_text(tq: TwoQubitGate, n_clbits: nat, m: Seq<u32>) -> Seq<char> {
    "OPENQASM 3.0;\ninclude \"stdgates.inc\";\n"@ + extra_header_text(tq) + "bit["@ + decimal(n_clbits)
        + "] c;\n// Layout : "@ + layout_text(m) + "\n"@
}

/// The identity mapping of `n` physical qubits.
pub open spec fn identity(n: nat) -> Seq<u32> {
    Seq::new(n, |i: int| i as u32)
}

/// The QASM of physical gates on a backend of `n` qubits, one gate after
/// another, each followed by a line break.
pub open spec fn body_qasm(gs: Seq<DecomposedGate>, n: nat, tq: TwoQubitGate) -> Seq<PieceModel>
    decreases gs.len(),
{
    if gs.len() == 0 {
        Seq::empty()
    } else {
        body_qasm(gs.drop_last(), n, tq) + gate_qasm(gs.last(), identity(n), tq) + seq![text("\n"@)]
    }
}

/// The gates of `gs` on their physical qubits under `m`.
pub open spec fn on_layout_all(gs: Seq<DecomposedGate>, m: Seq<u32>) -> Seq<DecomposedGate> {
    gs.map_values(|g: DecomposedGate| on_layout(g, m))
}

/// Applies a fixed layout to a decomposed gate: its virtual qubits become
/// their physical qubits.
fn apply_layout(gate: DecomposedGate, mapping: &[u32]) -> (r: DecomposedGate)
    requires
        gate_below(gate, mapping@.len()),
    ensures
        r == on_layout(gate, mapping@),
{
    match gate {
        DecomposedGate::U3(u) => {
            let target = mapping[u.target] as usize;
            DecomposedGate::U3(U3Gate { theta: u.theta, phi: u.phi, lambda: u.lambda, target })
        },
        DecomposedGate::CX(cx) => DecomposedGate::CX(
            CXGate { control: mapping[cx.control] as usize, target: mapping[cx.target] as usize },
        ),
        DecomposedGate::Measure(m) => DecomposedGate::Measure(
            MeasureGate { qubit: mapping[m.qubit] as usize, clbit: m.clbit },
        ),
    }
}

/// The header of the transpiled program.
fn header(two_qubit: &TwoQubitGate, n_clbits: usize, mapping: &Vec<u32>) -> (r: String)
    ensures
        r@ == header_text(*two_qubit, n_clbits as nat, mapping@),
{
    let mut s = String::new();
    push_str(&mut s, "OPENQASM 3.0;\ninclude \"stdgates.inc\";\n");
    push_str(&mut s, DecomposedGate::extra_header(two_qubit));
    push_str(&mut s, "bit[");
    push_decimal(&mut s, n_clbits as u64);
    push_str(&mut s, "] c;\n// Layout : ");
    let ghost start = s@;
    let mut v: usize = 0;
    while v < mapping.len()
        invariant
            v <= mapping@.len(),
            s@ == start + layout_text(mapping@.take(v as int)),
        decreases mapping@.len() - v,
    {
        proof {
            assert(mapping@.take(v + 1).drop_last() =~= mapping@.take(v as int));
            assert(mapping@.take(v + 1).last() == mapping@[v as int]);
        }
        push_str(&mut s, "q[");
        push_decimal(&mut s, v as u64);
        push_str(&mut s, "]→$");
        push_decimal(&mut s, mapping[v] as u64);
        push_str(&mut s, " ");
        v += 1;
        assert(s@ =~= start + layout_text(mapping@.take(v as int)));
    }
    assert(mapping@.take(v as int) =~= mapping@);
    push_str(&mut s, "\n");
    assert(s@ =~= header_text(*two_qubit, n_clbits as nat, mapping@));
    s
}

/// The vector `0, 1, ..., n - 1` of physical qubits.
fn identity_layout(n: u32) -> (r: Vec<u32>)
    ensures
        r@ == identity(n as nat),
{
    let mut v: Vec<u32> = Vec::new();
    let mut i: u32 = 0;
    while i < n
        invariant
            i <= n,
            v@ == identity(i as nat),
        decreases n - i,
    {
        v.push(i);
        i += 1;
        assert(v@ =~= identity(i as nat));
    }
    v
}

/// Transpiles a circuit for a backend.
///
/// The pipeline has four steps: every gate is decomposed into `U3 + CX`; the
/// virtual qubits are placed on connected physical qubits; when some CX
/// falls on unconnected qubits, SWAPs are inserted by the router; the
/// physical circuit is written in OpenQASM 3.0 with the backend's native
/// two-qubit gate. Fails when the placement or the routing fails.
pub fn transpile(circuit: &QuantumCircuit, coupling_map: &CouplingMap) -> (r: Result<TranspileResult, String>)
    requires
        circuit.wf(),
        decomposable_ops(circuit@.ops),
        cx_distinct(decompose_ops(circuit@.ops)),
        coupling_map.edges_on_backend(),
    ensures
        ({
            let d = decompose_ops(circuit@.ops);
            let tq = native_gate(coupling_map);
            let pl = placement(coupling_map, d, circuit@.qubits);
            match r {
                Ok(res) => {
                    &&& pl == Ok::<Seq<u32>, Seq<char>>(res.layout@)
                    &&& placement_ok(coupling_map, d, circuit@.qubits, res.layout@)
                    &&& res.n_swaps_inserted == 0
                    &&& gates_below(on_layout_all(d, res.layout@), coupling_map.n_qubits as nat)
                    &&& cx_adjacent(on_layout_all(d, res.layout@), coupling_map)
                    &&& pieces(res.qasm@) == seq![text(header_text(tq, circuit@.clbits, res.layout@))] + body_qasm(
                        on_layout_all(d, res.layout@),
                        coupling_map.n_qubits as nat,
                        tq,
                    )
                },
                Err(msg) => pl == Err::<Seq<u32>, Seq<char>>(msg@),
            }
        }),
{
    let n_qubits = circuit.get_q_bits();
    let n_clbits = circuit.get_cl_bits();
    let ghost d = decompose_ops(circuit@.ops);
    let instructions = circuit.get_instructions();
    assert(instructions@.map_values(|i: IStruct| i@) =~= circuit@.ops);
    let decomposed = decompose(instructions.as_slice());
    proof {
        lemma_decompose_below(circuit@.ops, circuit@.qubits);
    }
    let layout = match place(n_qubits, decomposed.as_slice(), coupling_map) {
        Ok(l) => l,
        Err(e) => {
            return Err(e);
        },
    };
    let ghost m = layout.mapping@;
    assert(placement(coupling_map, d, circuit@.qubits) == Ok::<Seq<u32>, Seq<char>>(m));
    assert forall|v: int| 0 <= v < m.len() implies #[trigger] m[v] < coupling_map.n_qubits by {
        if !(m[v] < coupling_map.n_qubits) {
            assert(edge_end(coupling_map, m[v]));
            let i = choose|i: int|
                0 <= i < coupling_map.edge_seq().len() && (#[trigger] coupling_map.edge_seq()[i].0 == m[v]
                    || coupling_map.edge_seq()[i].1 == m[v]);
            assert(coupling_map.edge_seq()[i].0 < coupling_map.n_qubits);
        }
    }
    let issues = check_layout(decomposed.as_slice(), &layout, coupling_map);
    proof {
        assert forall|i: int| 0 <= i < d.len() implies (#[trigger] d[i] matches DecomposedGate::CX(c) ==> coupling_map.adjacent(
            m[c.control as int],
            m[c.target as int],
        )) by {
            assert(d[i] matches DecomposedGate::CX(c) ==> c.control != c.target);
        }
        lemma_adjacent_no_issues(d, m, coupling_map);
    }
    let n_swaps_inserted: usize;
    let routed: Vec<DecomposedGate>;
    if issues.len() == 0 {
        proof {
            lemma_no_issues(d, m, coupling_map);
        }
        n_swaps_inserted = 0;
        let mut out: Vec<DecomposedGate> = Vec::new();
        let mut i: usize = 0;
        while i < decomposed.len()
            invariant
                i <= decomposed@.len(),
                decomposed@ == d,
                layout.mapping@ == m,
                gates_below(d, m.len()),
                m.len() == n_qubits,
                forall|v: int| 0 <= v < m.len() ==> #[trigger] m[v] < coupling_map.n_qubits,
                layout_adjacent(d, m, coupling_map),
                out@ == on_layout_all(d.take(i as int), m),
            decreases decomposed@.len() - i,
        {
            assert(gate_below(d[i as int], m.len()));
            let g = apply_layout(decomposed[i].copy(), layout.mapping.as_slice());
            out.push(g);
            i += 1;
            assert(out@ =~= on_layout_all(d.take(i as int), m));
        }
        assert(d.take(i as int) =~= d);
        proof {
            lemma_on_layout_ok(d, m, coupling_map);
        }
        routed = out;
    } else {
        n_swaps_inserted = issues.len();
        match route(decomposed, &layout, coupling_map) {
            Ok(g) => {
                routed = g;
            },
            Err(e) => {
                let mut msg = String::new();
                push_str(&mut msg, "Routing échoué : ");
                push_str(&mut msg, e.as_str());
                return Err(msg);
            },
        }
    }
    let two_qubit = coupling_map.two_qubit_gate();
    let ident = identity_layout(coupling_map.n_qubits);
    let mut qasm: Vec<Piece> = Vec::new();
    push_piece(&mut qasm, Piece::Text(header(&two_qubit, n_clbits, &layout.mapping)));
    let ghost start = pieces(qasm@);
    let mut i: usize = 0;
    while i < routed.len()
        invariant
            i <= routed@.len(),
            gates_below(routed@, coupling_map.n_qubits as nat),
            ident@ == identity(coupling_map.n_qubits as nat),
            pieces(qasm@) == start + body_qasm(routed@.take(i as int), coupling_map.n_qubits as nat, two_qubit),
        decreases routed@.len() - i,
    {
        proof {
            assert(routed@.take(i + 1).drop_last() =~= routed@.take(i as int));
            assert(routed@.take(i + 1).last() == routed@[i as int]);
            assert(gate_below(routed@[i as int], coupling_map.n_qubits as nat));
        }
        let g = routed[i].to_qasm(ident.as_slice(), &two_qubit);
        append_pieces(&mut qasm, g);
        push_piece(&mut qasm, Piece::Text("\n".to_owned()));
        i += 1;
        assert(pieces(qasm@) =~= start + body_qasm(routed@.take(i as int), coupling_map.n_qubits as nat, two_qubit));
    }
    assert(routed@.take(i as int) =~= routed@);
    let ghost rt = routed@;
    assert(pieces(qasm@) == seq![text(header_text(two_qubit, n_clbits as nat, m))] + body_qasm(
        rt,
        coupling_map.n_qubits as nat,
        two_qubit,
    ));
    Ok(TranspileResult { qasm, layout: layout.mapping, n_swaps_inserted })
}

/// When every CX of the gates falls on connected qubits, there is no placement issue.
proof fn lemma_adjacent_no_issues(gs: Seq<DecomposedGate>, m: Seq<u32>, cm: &CouplingMap)
    requires
        layout_adjacent(gs, m, cm),
    ensures
        issues_of(gs, m, cm).len() == 0,
    decreases gs.len(),
{
    if gs.len() > 0 {
        let rest = gs.drop_last();
        assert forall|i: int| 0 <= i < rest.len() implies (#[trigger] rest[i] matches DecomposedGate::CX(c) ==> cm.adjacent(
            m[c.control as int],
            m[c.target as int],
        )) by {
            assert(rest[i] == gs[i]);
        }
        lemma_adjacent_no_issues(rest, m, cm);
        assert(gs[gs.len() - 1] == gs.last());
    }
}

/// With no placement issue, every CX of the gates falls on connected qubits.
proof fn lemma_no_issues(gs: Seq<DecomposedGate>, m: Seq<u32>, cm: &CouplingMap)
    requires
        issues_of(gs, m, cm).len() == 0,
    ensures
        layout_adjacent(gs, m, cm),
    decreases gs.len(),
{
    if gs.len() > 0 {
        let rest = gs.drop_last();
        match gs.last() {
            DecomposedGate::CX(c) => {
                if !cm.adjacent(m[c.control as int], m[c.target as int]) {
                    assert(issues_of(gs, m, cm).len() > 0);
                }
            },
            _ => {},
        }
        lemma_no_issues(rest, m, cm);
        assert forall|i: int| 0 <= i < gs.len() implies (#[trigger] gs[i] matches DecomposedGate::CX(c) ==> cm.adjacent(
            m[c.control as int],
            m[c.target as int],
        )) by {
            if i < rest.len() {
                assert(rest[i] == gs[i]);
            }
        }
    }
}

/// Gates moved by a layout whose CX fall on connected qubits act on the
/// backend's qubits and connected pairs.
proof fn lemma_on_layout_ok(gs: Seq<DecomposedGate>, m: Seq<u32>, cm: &CouplingMap)
    requires
        gates_below(gs, m.len()),
        forall|v: int| 0 <= v < m.len() ==> #[trigger] m[v] < cm.n_qubits,
        layout_adjacent(gs, m, cm),
    ensures
        gates_below(on_layout_all(gs, m), cm.n_qubits as nat),
        cx_adjacent(on_layout_all(gs, m), cm),
{
    let r = on_layout_all(gs, m);
    assert forall|i: int| 0 <= i < r.len() implies gate_below(#[trigger] r[i], cm.n_qubits as nat) by {
        assert(gate_below(gs[i], m.len()));
        match gs[i] {
            DecomposedGate::U3(u) => assert(m[u.target as int] < cm.n_qubits),
            DecomposedGate::CX(c) => {
                assert(m[c.control as int] < cm.n_qubits);
                assert(m[c.target as int] < cm.n_qubits);
            },
            DecomposedGate::Measure(x) => assert(m[x.qubit as int] < cm.n_qubits),
        }
    }
    assert forall|i: int| 0 <= i < r.len() implies (#[trigger] r[i] matches DecomposedGate::CX(c) ==> cm.adjacent(
        c.control as u32,
        c.target as u32,
    ) && c.control <= u32::MAX && c.target <= u32::MAX) by {
        assert(gate_below(gs[i], m.len()));
        match gs[i] {
            DecomposedGate::CX(c) => {
                assert(m[c.control as int] < cm.n_qubits);
                assert(m[c.target as int] < cm.n_qubits);
            },
            _ => {},
        }
    }
}

} // verus!
