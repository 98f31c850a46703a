use rusty_quantum::api::generator::ToQasm;
use rusty_quantum::circuit::quantum_circuit::QuantumCircuit;
use rusty_quantum::instruction::i_struct::{Angle, AngleAtom, ComplexBits, IStruct, Matrix};
use rusty_quantum::simulator::parser::{count_clbits, count_qubits, parse_qasm, parse_qasm_full, QasmError};
use rusty_quantum::text::Piece;
use rusty_quantum::transpiler::gate_decomposer::HALF_PI_BITS;

fn text(p: &[Piece]) -> String {
    let mut s = String::new();
    for x in p {
        match x {
            Piece::Text(t) => s.push_str(t),
            Piece::Value(_) => s.push_str("<a>"),
            Piece::Single(b) => s.push_str(&format!("{}", f32::from_bits(*b))),
            _ => s.push_str("<?>"),
        }
    }
    s
}

#[test]
fn parse_transpiled_program() {
    let qasm = "OPENQASM 3.0;\ninclude \"stdgates.inc\";\nbit[2] c;\nh $0;\ncx $0, $1;\nc[0] = measure $0;\n";
    let ins = parse_qasm(qasm).unwrap();
    assert_eq!(ins.len(), 3);
    assert!(matches!(ins[0], IStruct::H(0)));
    assert!(matches!(ins[1], IStruct::CX { control: 0, target: 1 }));
    assert!(matches!(&ins[2], IStruct::MEASURE(q, c) if *q == vec![0] && *c == vec![0]));
}

#[test]
fn parse_registers_comments_and_angles() {
    let qasm = "OPENQASM 3.0;\nqubit[3] q;\n// a comment\nrz(-pi/2) q[1];\nrx(1.5) q[0];\nry(2*pi) $2;\nrz(pi/4) $0;\nsx q[2];\nid q[0];\nswap q[0], q[2];\ncz q[1], q[2];\nmeasure q[2] -> c[1];\n";
    let ins = parse_qasm(qasm).unwrap();
    assert_eq!(ins.len(), 8);
    assert!(matches!(&ins[0], IStruct::RZ { angle: Angle::NegDiv(AngleAtom::Pi, d), target: 1 } if d == "2"));
    assert!(matches!(&ins[1], IStruct::RX { angle: Angle::Number(n), target: 0 } if n == "1.5"));
    assert!(matches!(&ins[2], IStruct::RY { angle: Angle::Times(AngleAtom::Number(n), AngleAtom::Pi), target: 2 } if n == "2"));
    assert!(matches!(&ins[3], IStruct::RZ { angle: Angle::Div(AngleAtom::Pi, d), target: 0 } if d == "4"));
    assert!(matches!(&ins[4], IStruct::RX { angle: Angle::Radians(b), target: 2 } if *b == HALF_PI_BITS));
    assert!(matches!(ins[5], IStruct::SWAP { qbit1: 0, qbit2: 2 }));
    assert!(matches!(ins[6], IStruct::CZ { control: 1, target: 2 }));
    assert!(matches!(&ins[7], IStruct::MEASURE(q, c) if *q == vec![2] && *c == vec![1]));
}

#[test]
fn custom_gates_and_skipped_statements() {
    let qasm = "gate ecr q0, q1 { rzx(pi/4) q0, q1; x q0; }\nmygate(pi/2, 0.5) $0, $3;\necr $0, $1;\nh $0, $1;\n";
    let ins = parse_qasm(qasm).unwrap();
    assert_eq!(ins.len(), 2);
    assert!(matches!(&ins[0], IStruct::GATE { position, instruction, label } if *position == vec![0, 3] && instruction.is_empty() && label == "mygate"));
    assert!(matches!(&ins[1], IStruct::GATE { position, label, .. } if *position == vec![0, 1] && label == "h"));
}

#[test]
fn parse_errors() {
    match parse_qasm("h $0;\nh ;\n") {
        Err(QasmError::ParseError(m)) => assert_eq!(m, "invalid statement at character 6"),
        _ => panic!("expected a parse error"),
    }
    match parse_qasm("c[0] = 1;") {
        Err(QasmError::Unsupported(m)) => assert_eq!(m, "classical assignment"),
        _ => panic!("expected an unsupported statement"),
    }
    assert!(matches!(parse_qasm("h $0"), Err(QasmError::ParseError(_))));
    assert!(matches!(parse_qasm("3 $0;"), Err(QasmError::ParseError(_))));
    assert!(matches!(parse_qasm("h $99999999999999999999999;"), Err(QasmError::ParseError(_))));
    assert!(parse_qasm("   \n// only a comment").unwrap().is_empty());
}

#[test]
fn register_sizes_from_instructions() {
    let r = parse_qasm_full("h $4;\ncx $1, $2;\nc[3] = measure $0;\n").unwrap();
    assert_eq!(r.n_qubits, 5);
    assert_eq!(r.n_clbits, 4);
    assert_eq!(count_qubits(&[]), 1);
    assert_eq!(count_clbits(&[IStruct::H(2)]), 1);
    assert_eq!(count_clbits(&[IStruct::MEASURE(vec![0], vec![0])]), 1);
    assert_eq!(count_qubits(&[IStruct::CONTROLLED { controls: vec![6], target: 1, gate: Box::new(IStruct::X(0)) }]), 7);
}

#[test]
fn circuit_to_qasm() {
    let mut qc = QuantumCircuit::new(2, 2);
    qc.h(0).unwrap();
    qc.cx(0, 1).unwrap();
    qc.rz(Angle::Pi, 1).unwrap();
    qc.swap(0, 1).unwrap();
    qc.measure(vec![1], vec![0]).unwrap();
    assert_eq!(
        text(&qc.to_qasm()),
        "OPENQASM 3.0;\nqubit q[2];\nbit c[2];\nh q[0];\ncx q[0], q[1];\nrz(<a>) q[1];\nswap q[0], q[1];\nmeasure q[1] -> c[0];\n"
    );
    assert_eq!(text(&IStruct::ANY().to_qasm()), "// ANY gate is not defined in QASM");
    assert_eq!(text(&IStruct::CZ { control: 0, target: 1 }.to_qasm()), "// This instruction is not defined in QASM");
}

#[test]
fn unitary_to_qasm() {
    let c = |re: f32, im: f32| ComplexBits { re: re.to_bits(), im: im.to_bits() };
    let u = IStruct::U { matrix: Matrix { dim: 2, entries: vec![c(1.0, 0.0), c(0.0, 2.0), c(-0.0, 1.0), c(0.5, 0.5)] }, target: vec![0, 1] };
    assert_eq!(text(&u.to_qasm()), "unitary [[1, 2i],[1i, 0.5+0.5i]] q[0],q[1];");
}

#[test]
fn generated_qasm_reads_back() {
    let mut qc = QuantumCircuit::new(3, 1);
    qc.h(2).unwrap();
    qc.cx(2, 0).unwrap();
    qc.x(1).unwrap();
    qc.measure(vec![0], vec![0]).unwrap();
    let ins = parse_qasm(&text(&qc.to_qasm())).unwrap();
    assert_eq!(ins.len(), 4);
    assert!(matches!(ins[0], IStruct::H(2)));
    assert!(matches!(ins[1], IStruct::CX { control: 2, target: 0 }));
    assert!(matches!(ins[2], IStruct::X(1)));
    assert!(matches!(&ins[3], IStruct::MEASURE(q, c) if *q == vec![0] && *c == vec![0]));
}

#[test]
fn reading_errors_describe_themselves() {
    assert_eq!(QasmError::ParseError("ligne 3".to_string()).describe(), "Erreur QASM : ligne 3");
    assert_eq!(QasmError::Unsupported("classical assignment".to_string()).describe(), "Non supporté : classical assignment");
}

#[test]
fn parse_documented_angle_forms() {
    let qasm = "OPENQASM 3.0;\nrz(pi) $0;\nrz(3.14) $0;\nrz(-pi/2) $0;\nrz(pi*2) $0;\nrz(2*pi/3) $0;\nrz(-2*pi) $0;\nrz(-pi*3/4) $0;\n";
    let ins = parse_qasm(qasm).unwrap();
    assert_eq!(ins.len(), 7);
    assert!(matches!(&ins[0], IStruct::RZ { angle: Angle::Pi, target: 0 }));
    assert!(matches!(&ins[1], IStruct::RZ { angle: Angle::Number(n), target: 0 } if n == "3.14"));
    assert!(matches!(&ins[2], IStruct::RZ { angle: Angle::NegDiv(AngleAtom::Pi, d), target: 0 } if d == "2"));
    assert!(matches!(&ins[3], IStruct::RZ { angle: Angle::Times(AngleAtom::Pi, AngleAtom::Number(n)), target: 0 } if n == "2"));
    assert!(matches!(&ins[4], IStruct::RZ { angle: Angle::TimesDiv(AngleAtom::Number(n), AngleAtom::Pi, d), target: 0 } if n == "2" && d == "3"));
    assert!(matches!(&ins[5], IStruct::RZ { angle: Angle::NegTimes(AngleAtom::Number(n), AngleAtom::Pi), target: 0 } if n == "2"));
    assert!(matches!(&ins[6], IStruct::RZ { angle: Angle::NegTimesDiv(AngleAtom::Pi, AngleAtom::Number(n), d), target: 0 } if n == "3" && d == "4"));
    assert!(parse_qasm("OPENQASM 3.0;\nrz(2*) $0;\n").is_err());
}

#[test]
fn composite_gate_is_written_on_its_position() {
    let g = IStruct::GATE { position: vec![2], instruction: vec![Box::new(IStruct::H(0))], label: "g".to_string() };
    assert_eq!(text(&g.to_qasm()), "h q[2];\n");
    // nested gates compose their positions
    let inner = IStruct::GATE {
        position: vec![1, 0],
        instruction: vec![Box::new(IStruct::CX { control: 0, target: 1 })],
        label: "in".to_string(),
    };
    let outer = IStruct::GATE { position: vec![5, 7], instruction: vec![Box::new(inner)], label: "out".to_string() };
    assert_eq!(text(&outer.to_qasm()), "cx q[7], q[5];\n\n");
}

#[test]
fn measure_writes_every_pair() {
    let m = IStruct::MEASURE(vec![0, 1], vec![0, 1]);
    assert_eq!(text(&m.to_qasm()), "measure q[0] -> c[0];\nmeasure q[1] -> c[1];");
    let mut qc = QuantumCircuit::new(2, 2);
    qc.measure(vec![1, 0], vec![0, 1]).unwrap();
    let ins = parse_qasm(&text(&qc.to_qasm())).unwrap();
    assert_eq!(ins.len(), 2);
    assert!(matches!(&ins[0], IStruct::MEASURE(q, c) if *q == vec![1] && *c == vec![0]));
    assert!(matches!(&ins[1], IStruct::MEASURE(q, c) if *q == vec![0] && *c == vec![1]));
}
