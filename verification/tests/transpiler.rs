use rusty_quantum::circuit::quantum_circuit::QuantumCircuit;
use rusty_quantum::instruction::i_struct::{Angle, IStruct};
use rusty_quantum::text::Piece;
use rusty_quantum::transpiler::coupling_map::{BackendConfiguration, CouplingMap, TwoQubitGate};
use rusty_quantum::transpiler::gate_decomposer::{
    decompose, decompose_cz, decompose_h, decompose_swap, decompose_toffoli, CXGate, DecomposedGate, MeasureGate,
    U3Gate, HALF_PI_BITS, PI_BITS, ZERO_BITS,
};
use rusty_quantum::transpiler::placement::{check_layout, place, Layout};
use rusty_quantum::transpiler::router::route;
use rusty_quantum::transpiler::transpiler::transpile;

fn line(n: u32, gates: &[&str]) -> CouplingMap {
    let mut edges = Vec::new();
    for i in 0..n.saturating_sub(1) {
        edges.push([i, i + 1]);
    }
    CouplingMap::from_config(BackendConfiguration {
        backend_name: "line".to_string(),
        n_qubits: n,
        basis_gates: gates.iter().map(|s| s.to_string()).collect(),
        coupling_map: edges,
    })
}

fn text(p: &[Piece]) -> String {
    let mut s = String::new();
    for x in p {
        match x {
            Piece::Text(t) => s.push_str(t),
            Piece::Fixed(_) => s.push_str("<a>"),
            Piece::FixedPlusPi(_) => s.push_str("<a+pi>"),
            _ => s.push_str("<?>"),
        }
    }
    s
}

fn cx(c: usize, t: usize) -> DecomposedGate {
    DecomposedGate::CX(CXGate { control: c, target: t })
}

#[test]
fn hadamard_is_one_u3() {
    let g = decompose_h(3);
    assert_eq!(g.len(), 1);
    assert!(matches!(&g[0], DecomposedGate::U3(U3Gate { theta: Angle::Radians(t), phi: Angle::Radians(p), lambda: Angle::Radians(l), target: 3 })
        if *t == HALF_PI_BITS && *p == ZERO_BITS && *l == PI_BITS));
    assert_eq!(f64::from_bits(HALF_PI_BITS), std::f64::consts::PI / 2.0);
}

#[test]
fn composite_decompositions() {
    let cz = decompose_cz(0, 1);
    assert_eq!(cz.len(), 3);
    assert!(matches!(cz[1], DecomposedGate::CX(CXGate { control: 0, target: 1 })));
    let sw = decompose_swap(0, 1);
    assert_eq!(sw.len(), 3);
    assert!(matches!(sw[0], DecomposedGate::CX(CXGate { control: 0, target: 1 })));
    assert!(matches!(sw[1], DecomposedGate::CX(CXGate { control: 1, target: 0 })));
    assert!(matches!(sw[2], DecomposedGate::CX(CXGate { control: 0, target: 1 })));
    let t = decompose_toffoli(0, 1, 2);
    assert_eq!(t.len(), 15);
    assert_eq!(t.iter().filter(|g| matches!(g, DecomposedGate::CX(_))).count(), 6);
}

#[test]
fn decompose_circuit_with_gate_and_measure() {
    let mut inner = QuantumCircuit::new(2, 0);
    inner.cx(0, 1).unwrap();
    let mut qc = QuantumCircuit::new(3, 2);
    qc.h(0).unwrap();
    qc.append(&inner, Some(vec![2, 1]), None).unwrap();
    qc.measure(vec![0, 2], vec![1, 0]).unwrap();
    let d = decompose(qc.get_instructions());
    assert_eq!(d.len(), 4);
    assert!(matches!(d[1], DecomposedGate::CX(CXGate { control: 2, target: 1 })));
    assert!(matches!(d[2], DecomposedGate::Measure(MeasureGate { qubit: 0, clbit: 1 })));
    assert!(matches!(d[3], DecomposedGate::Measure(MeasureGate { qubit: 2, clbit: 0 })));
}

#[test]
fn cx_text_for_each_native_gate() {
    let layout = [0u32, 1, 2];
    assert_eq!(text(&cx(0, 1).to_qasm(&layout, &TwoQubitGate::CX)), "cx $0, $1;");
    assert_eq!(
        text(&cx(0, 1).to_qasm(&layout, &TwoQubitGate::CZ)),
        "rz(pi/2) $1;\nsx $1;\nrz(pi/2) $1;\ncz $0, $1;\nrz(pi/2) $1;\nsx $1;\nrz(pi/2) $1;"
    );
    assert_eq!(
        text(&cx(2, 1).to_qasm(&layout, &TwoQubitGate::ECR)),
        "rz(-pi/2) $2;\nsx $2;\nrz(pi/2) $1;\necr $2, $1;\nsx $1;"
    );
    let m = DecomposedGate::Measure(MeasureGate { qubit: 1, clbit: 0 });
    assert_eq!(text(&m.to_qasm(&[5, 7], &TwoQubitGate::CX)), "c[0] = measure $7;");
    let u = DecomposedGate::U3(U3Gate { theta: Angle::Pi, phi: Angle::Pi, lambda: Angle::Pi, target: 0 });
    assert_eq!(text(&u.to_qasm(&[4], &TwoQubitGate::CX)), "rz(<a>) $4;\nsx $4;\nrz(<a+pi>) $4;\nsx $4;\nrz(<a>) $4;");
    assert_eq!(DecomposedGate::extra_header(&TwoQubitGate::CZ), "");
    assert!(DecomposedGate::extra_header(&TwoQubitGate::ECR).starts_with("gate ecr q0, q1"));
}

#[test]
fn coupling_map_queries() {
    let cm = line(3, &["cz", "sx"]);
    assert_eq!(cm.two_qubit_gate(), TwoQubitGate::CZ);
    assert_eq!(line(2, &["ecr"]).two_qubit_gate(), TwoQubitGate::ECR);
    assert_eq!(line(2, &["x"]).two_qubit_gate(), TwoQubitGate::CX);
    assert!(cm.is_connected(0, 1));
    assert!(!cm.is_connected(1, 0));
    assert!(cm.are_neighbors(1, 0));
    assert!(!cm.are_neighbors(0, 2));
    assert_eq!(cm.neighbors(1), vec![2]);
    assert!(cm.is_native_gate("sx"));
    assert!(!cm.is_native_gate("ecr"));
    assert_eq!(cm.shortest_path(0, 2), Some(vec![0, 1, 2]));
    assert_eq!(cm.shortest_path(2, 0), None);
    assert_eq!(cm.shortest_path(1, 1), Some(vec![1]));
}

#[test]
fn placement_and_check() {
    let cm = line(3, &["cx"]);
    let gates = vec![cx(0, 1)];
    let layout = place(2, &gates, &cm).unwrap();
    assert_eq!(layout.mapping.len(), 2);
    assert!(cm.are_neighbors(layout.physical(0), layout.physical(1)));
    assert!(check_layout(&gates, &layout, &cm).is_empty());
    let too_big = place(4, &gates, &cm);
    assert_eq!(too_big.err().unwrap(), "Circuit trop grand : 4 qubits virtuels pour 3 physiques");
    let bad = Layout::new(vec![0, 2]);
    let issues = check_layout(&gates, &bad, &cm);
    assert_eq!(issues.len(), 1);
    assert_eq!(issues[0].physical_control, 0);
    assert_eq!(issues[0].physical_target, 2);
}

#[test]
fn routing_inserts_swaps() {
    let cm = line(3, &["cx"]);
    let layout = Layout::new(vec![0, 2]);
    let out = route(vec![cx(0, 1)], &layout, &cm).unwrap();
    // one SWAP (three CX) moves the control next to the target, then the CX
    assert_eq!(out.len(), 4);
    for g in &out {
        if let DecomposedGate::CX(c) = g {
            assert!(cm.are_neighbors(c.control as u32, c.target as u32));
        }
    }
    let reversed = route(vec![cx(1, 0)], &Layout::new(vec![0, 1]), &cm).unwrap();
    assert_eq!(reversed.len(), 5);
    assert!(matches!(reversed[2], DecomposedGate::CX(CXGate { control: 0, target: 1 })));
}

#[test]
fn transpile_bell_circuit() {
    let mut qc = QuantumCircuit::new(2, 2);
    qc.h(0).unwrap();
    qc.cx(0, 1).unwrap();
    qc.measure(vec![0, 1], vec![0, 1]).unwrap();
    let cm = line(3, &["cx", "sx", "rz"]);
    let r = transpile(&qc, &cm).unwrap();
    assert_eq!(r.n_swaps_inserted, 0);
    assert_eq!(r.layout, vec![0, 1]);
    let t = text(&r.qasm);
    assert!(t.starts_with("OPENQASM 3.0;\ninclude \"stdgates.inc\";\nbit[2] c;\n// Layout : q[0]→$0 q[1]→$1 \n"));
    assert!(t.contains("cx $0, $1;\n"));
    assert!(t.ends_with("c[0] = measure $0;\nc[1] = measure $1;\n"));
}

#[test]
fn transpile_refuses_too_large_circuits() {
    let qc = QuantumCircuit::new(4, 0);
    let cm = line(3, &["cx"]);
    assert_eq!(transpile(&qc, &cm).err().unwrap(), "Circuit trop grand : 4 qubits virtuels pour 3 physiques");
}

#[test]
fn transpile_with_ecr_declares_the_gate() {
    let mut qc = QuantumCircuit::new(2, 0);
    qc.cx(0, 1).unwrap();
    let cm = line(2, &["ecr"]);
    let r = transpile(&qc, &cm).unwrap();
    let t = text(&r.qasm);
    assert!(t.contains("gate ecr q0, q1 { rzx(pi/4) q0, q1; x q0; rzx(-pi/4) q0, q1; }\n"));
    assert!(t.contains("ecr $0, $1;"));
}

#[test]
fn controlled_z_in_a_circuit() {
    let mut qc = QuantumCircuit::new(2, 0);
    qc.controlled(vec![0], 1, IStruct::Z(0)).unwrap();
    let d = decompose(qc.get_instructions());
    assert_eq!(d.len(), 3);
}

fn custom(n: u32, edges: &[[u32; 2]]) -> CouplingMap {
    CouplingMap::from_config(BackendConfiguration {
        backend_name: "custom".to_string(),
        n_qubits: n,
        basis_gates: vec!["cx".to_string()],
        coupling_map: edges.to_vec(),
    })
}

#[test]
fn placement_takes_the_first_free_edges() {
    let cm = line(4, &["cx"]);
    let layout = place(4, &[cx(0, 1), cx(2, 3), cx(1, 2)], &cm).unwrap();
    assert_eq!(layout.mapping, vec![0, 1, 2, 3]);
}

#[test]
fn placement_extends_from_a_placed_qubit() {
    let cm = line(3, &["cx"]);
    // (1, 2) takes the edge 0 -> 1; then q[0] joins q[2], placed on 1, at its free out-neighbor 2.
    let layout = place(3, &[cx(1, 2), cx(2, 0)], &cm).unwrap();
    assert_eq!(layout.mapping, vec![2, 0, 1]);
    // with no free out-neighbor, the free source of an edge into the placed qubit is taken
    let cm = custom(3, &[[1, 0], [2, 1]]);
    let layout = place(3, &[cx(0, 1), cx(0, 2)], &cm).unwrap();
    assert_eq!(layout.mapping, vec![1, 0, 2]);
}

#[test]
fn placement_fills_the_other_qubits_in_order() {
    let cm = line(4, &["cx"]);
    let layout = place(4, &[cx(1, 2)], &cm).unwrap();
    assert_eq!(layout.mapping, vec![2, 0, 1, 3]);
    let empty = place(0, &[], &cm).unwrap();
    assert!(empty.mapping.is_empty());
}

#[test]
fn placement_errors() {
    let cm = line(4, &["cx"]);
    let conflict = place(4, &[cx(0, 1), cx(2, 3), cx(3, 0)], &cm);
    assert_eq!(conflict.err().unwrap(), "Conflit : q[0]→$0 et q[3]→$3 ne sont pas connectés");
    let cm = line(3, &["cx"]);
    let no_pair = place(3, &[cx(0, 1), cx(2, 0)], &cm);
    assert_eq!(no_pair.err().unwrap(), "Aucune paire physique disponible et connectée pour q[0] et q[2]");
}

#[test]
fn routing_moves_the_control_along_a_shortest_walk() {
    let cm = line(4, &["cx"]);
    let layout = Layout::new(vec![0, 3]);
    let gates = vec![cx(0, 1), DecomposedGate::Measure(MeasureGate { qubit: 0, clbit: 0 })];
    let out = route(gates, &layout, &cm).unwrap();
    let expect = [(0, 1), (1, 0), (0, 1), (1, 2), (2, 1), (1, 2), (2, 3)];
    assert_eq!(out.len(), 8);
    for (k, (c, t)) in expect.iter().enumerate() {
        assert!(matches!(out[k], DecomposedGate::CX(CXGate { control, target }) if control == *c && target == *t));
    }
    // after the SWAPs, virtual qubit 0 sits on physical qubit 2
    assert!(matches!(out[7], DecomposedGate::Measure(MeasureGate { qubit: 2, clbit: 0 })));
}

#[test]
fn routing_fails_without_a_walk() {
    let cm = line(3, &["cx"]);
    let r = route(vec![cx(0, 1)], &Layout::new(vec![2, 0]), &cm);
    assert_eq!(r.err().unwrap(), "Aucun chemin entre $2 et $0 dans le coupling map");
}

#[test]
fn placement_takes_edges_as_they_are_listed() {
    // an edge may name a qubit beyond the backend; placement does not check it
    let cm = custom(2, &[[0, 5]]);
    let layout = place(2, &[cx(0, 1)], &cm).unwrap();
    assert_eq!(layout.mapping, vec![0, 5]);
    // a used qubit beyond the backend is not offered twice
    let cm = custom(4, &[[7, 8], [7, 9], [0, 1]]);
    let layout = place(4, &[cx(0, 1), cx(2, 3)], &cm).unwrap();
    assert_eq!(layout.mapping, vec![7, 8, 0, 1]);
}

#[test]
fn shortest_path_ignores_edges_it_does_not_reach() {
    let cm = custom(3, &[[0, 1], [1, 2], [7, 8]]);
    assert_eq!(cm.shortest_path(0, 2), Some(vec![0, 1, 2]));
    assert_eq!(cm.shortest_path(2, 0), None);
}

#[test]
fn decompose_splits_over_concatenation() {
    let a = vec![IStruct::H(0), IStruct::CX { control: 0, target: 1 }];
    let b = vec![IStruct::SWAP { qbit1: 1, qbit2: 2 }, IStruct::MEASURE(vec![2], vec![0])];
    let whole = vec![
        IStruct::H(0),
        IStruct::CX { control: 0, target: 1 },
        IStruct::SWAP { qbit1: 1, qbit2: 2 },
        IStruct::MEASURE(vec![2], vec![0]),
    ];
    let mut parts = decompose(&a);
    parts.extend(decompose(&b));
    assert_eq!(format!("{:?}", decompose(&whole)), format!("{:?}", parts));
    assert_eq!(decompose(&whole).len(), 1 + 1 + 3 + 1);
    assert!(decompose(&[]).is_empty());
}

#[test]
fn decompose_gate_renames_its_body() {
    let gate = IStruct::GATE {
        position: vec![2, 0],
        instruction: vec![Box::new(IStruct::H(0)), Box::new(IStruct::CX { control: 0, target: 1 })],
        label: "g".to_string(),
    };
    let direct = vec![IStruct::H(2), IStruct::CX { control: 2, target: 0 }];
    assert_eq!(format!("{:?}", decompose(&[gate])), format!("{:?}", decompose(&direct)));
}

#[test]
fn placement_checks_sizes_before_reading_gates() {
    let cm = line(3, &["cx"]);
    let wide = vec![cx(5, 7)];
    assert!(place(0, &wide, &cm).unwrap().mapping.is_empty());
    assert_eq!(place(4, &wide, &cm).err().unwrap(), "Circuit trop grand : 4 qubits virtuels pour 3 physiques");
}

#[test]
fn shortest_path_follows_edge_order() {
    let a = custom(4, &[[0, 2], [0, 1], [1, 3], [2, 3]]);
    assert_eq!(a.shortest_path(0, 3), Some(vec![0, 2, 3]));
    let b = custom(4, &[[0, 1], [0, 2], [2, 3], [1, 3]]);
    assert_eq!(b.shortest_path(0, 3), Some(vec![0, 1, 3]));
}

#[test]
fn routing_follows_the_first_shortest_walk() {
    let both = |first: [u32; 2], second: [u32; 2]| {
        custom(
            4,
            &[
                first,
                [first[1], first[0]],
                second,
                [second[1], second[0]],
                [1, 3],
                [3, 1],
                [2, 3],
                [3, 2],
            ],
        )
    };
    let via_two = route(vec![cx(0, 1)], &Layout::new(vec![0, 3]), &both([0, 2], [0, 1])).unwrap();
    assert!(matches!(via_two.last(), Some(DecomposedGate::CX(CXGate { control: 2, target: 3 }))));
    let via_one = route(vec![cx(0, 1)], &Layout::new(vec![0, 3]), &both([0, 1], [0, 2])).unwrap();
    assert!(matches!(via_one.last(), Some(DecomposedGate::CX(CXGate { control: 1, target: 3 }))));
}
