use rusty_quantum::circuit::quantum_circuit::{CircuitError, GateName, QuantumCircuit, INSTRUCTION_ADDED};
use rusty_quantum::circuit::unitary_gate::UnitaryGate;
use rusty_quantum::instruction::i_struct::{Angle, ComplexBits, IStruct};
use rusty_quantum::instruction::q_logic::QLogic;
use rusty_quantum::instruction::to_gate::ToGate;

fn c(re: f32, im: f32) -> ComplexBits {
    ComplexBits { re: re.to_bits(), im: im.to_bits() }
}

fn hadamard_entries() -> Vec<ComplexBits> {
    let s = 1.0f32 / 2.0f32.sqrt();
    vec![c(s, 0.0), c(s, 0.0), c(s, 0.0), c(-s, 0.0)]
}

#[test]
fn gates_are_appended_in_order() {
    let mut qc = QuantumCircuit::new(2, 2);
    assert_eq!(qc.h(0), Ok(INSTRUCTION_ADDED));
    assert_eq!(qc.cx(0, 1), Ok(INSTRUCTION_ADDED));
    assert_eq!(qc.measure(vec![0, 1], vec![0, 1]), Ok(INSTRUCTION_ADDED));
    let ins = qc.get_instructions();
    assert_eq!(ins.len(), 3);
    assert!(matches!(ins[0], IStruct::H(0)));
    assert!(matches!(ins[1], IStruct::CX { control: 0, target: 1 }));
    assert!(matches!(&ins[2], IStruct::MEASURE(q, c) if *q == vec![0, 1] && *c == vec![0, 1]));
    assert_eq!(qc.get_q_bits(), 2);
    assert_eq!(qc.get_cl_bits(), 2);
}

#[test]
fn refused_gates_leave_the_circuit_unchanged() {
    let mut qc = QuantumCircuit::new(2, 1);
    assert_eq!(qc.h(2), Err(CircuitError::NonexistentQubits(GateName::H)));
    assert_eq!(qc.x(5), Err(CircuitError::NonexistentQubits(GateName::X)));
    assert_eq!(qc.cx(0, 2), Err(CircuitError::NonexistentQubits(GateName::CX)));
    assert_eq!(qc.cx(1, 1), Err(CircuitError::SameQubits(GateName::CX)));
    assert_eq!(qc.swap(0, 0), Err(CircuitError::SameQubits(GateName::SWAP)));
    assert_eq!(qc.swap(0, 3), Err(CircuitError::NonexistentQubits(GateName::SWAP)));
    assert_eq!(qc.rz(Angle::Pi, 2), Err(CircuitError::NonexistentQubits(GateName::RZ)));
    assert_eq!(qc.measure(vec![0], vec![1]), Err(CircuitError::MeasureNonexistent));
    assert_eq!(qc.measure(vec![0, 1], vec![0]), Err(CircuitError::MeasureSizeMismatch));
    assert_eq!(qc.controlled(vec![0, 2], 1, IStruct::X(0)), Err(CircuitError::ControlledNonexistent));
    assert_eq!(qc.controlled(vec![0, 1], 1, IStruct::X(0)), Err(CircuitError::ControlIsTarget));
    assert_eq!(qc.get_instructions().len(), 0);
}

#[test]
fn error_messages() {
    assert_eq!(CircuitError::NonexistentQubits(GateName::H).message(), "tried to apply H gate to non existent qbits.\n");
    assert_eq!(CircuitError::SameQubits(GateName::CX).message(), "tried to apply cx gate to same qbits.\n");
    assert_eq!(CircuitError::SameQubits(GateName::SWAP).message(), "tried to apply swap gate to same qbits.\n");
    assert_eq!(CircuitError::MeasureSizeMismatch.message(), "tried to apply measure with different number of qbits and clbits.\n");
    assert_eq!(CircuitError::InvalidMapping.message(), "tried to remap with invalid mapping.\n");
    assert_eq!(CircuitError::NotUnitaryShape.message(), "Error: Tried to apply a non unitary quantique matrice");
}

#[test]
fn rotations_keep_their_angle() {
    let mut qc = QuantumCircuit::new(1, 0);
    qc.rz(Angle::Radians(1.57f64.to_bits()), 0).unwrap();
    qc.ry(Angle::Pi, 0).unwrap();
    qc.rx(Angle::Number("0.5".to_string()), 0).unwrap();
    let ins = qc.get_instructions();
    assert!(matches!(&ins[0], IStruct::RZ { angle: Angle::Radians(b), target: 0 } if *b == 1.57f64.to_bits()));
    assert!(matches!(&ins[1], IStruct::RY { angle: Angle::Pi, target: 0 }));
    assert!(matches!(&ins[2], IStruct::RX { angle: Angle::Number(s), target: 0 } if s == "0.5"));
}

#[test]
fn controlled_gate_is_recorded() {
    let mut qc = QuantumCircuit::new(3, 0);
    assert_eq!(qc.controlled(vec![0, 1], 2, IStruct::X(0)), Ok(INSTRUCTION_ADDED));
    assert!(matches!(&qc.get_instructions()[0], IStruct::CONTROLLED { controls, target: 2, gate } if *controls == vec![0, 1] && matches!(**gate, IStruct::X(0))));
}

#[test]
fn unitary_gate_shapes() {
    assert!(matches!(UnitaryGate::new(&hadamard_entries()[..3], true), Err(CircuitError::NotUnitaryShape)));
    assert!(matches!(UnitaryGate::new(&[c(1.0, 0.0); 9], true), Err(CircuitError::NotUnitaryShape)));
    assert!(matches!(UnitaryGate::new(&[], true), Err(CircuitError::NotUnitaryShape)));
    assert!(matches!(UnitaryGate::new(&hadamard_entries(), false), Err(CircuitError::NotUnitary)));
    let g = UnitaryGate::new(&hadamard_entries(), true).unwrap();
    assert_eq!(g.get_size(), 1);
    let one = UnitaryGate::new(&[c(1.0, 0.0)], true).unwrap();
    assert_eq!(one.get_size(), 0);
    let sixteen = vec![c(0.0, 0.0); 16];
    assert_eq!(UnitaryGate::new(&sixteen, true).unwrap().get_size(), 2);
}

#[test]
fn append_unitary_gate_with_label() {
    let mut qc = QuantumCircuit::new(3, 0);
    let g = UnitaryGate::new(&hadamard_entries(), true).unwrap();
    assert!(qc.append(&g, None, Some("CustomGate".to_string())).is_ok());
    match &qc.get_instructions()[0] {
        IStruct::GATE { position, instruction, label } => {
            assert_eq!(*position, vec![0]);
            assert_eq!(label, "CustomGate");
            assert_eq!(instruction.len(), 1);
            assert!(matches!(&*instruction[0], IStruct::U { matrix, target } if matrix.dim == 2 && *target == vec![0]));
        }
        _ => panic!("expected a composite gate"),
    }
    assert!(matches!(qc.append(&g, Some(vec![3]), None), Err(CircuitError::GateDoesNotFit)));
    assert!(matches!(qc.append(&g, Some(vec![0, 1]), None), Err(CircuitError::GateDoesNotFit)));
    assert_eq!(qc.get_instructions().len(), 1);
}

#[test]
fn sub_circuit_becomes_a_gate() {
    let mut inner = QuantumCircuit::new(2, 0);
    inner.h(0).unwrap();
    inner.cx(0, 1).unwrap();
    let gate = inner.to_gate(vec![1, 2], None);
    match gate {
        IStruct::GATE { position, instruction, label } => {
            assert_eq!(position, vec![1, 2]);
            assert_eq!(label, "Gate");
            assert_eq!(instruction.len(), 2);
        }
        _ => panic!("expected a composite gate"),
    }
    let mut outer = QuantumCircuit::new(3, 0);
    assert!(outer.append(&inner, Some(vec![1, 2]), None).is_ok());
    let mut small = QuantumCircuit::new(1, 0);
    assert!(matches!(small.append(&inner, None, None), Err(CircuitError::GateDoesNotFit)));
}

#[test]
fn remap_with_identity_keeps_instructions() {
    let mut qc = QuantumCircuit::new(2, 2);
    qc.h(0).unwrap();
    qc.cx(0, 1).unwrap();
    let r = qc.remap(vec![0, 1]).unwrap();
    assert!(matches!(r.get_instructions()[0], IStruct::H(0)));
    assert!(matches!(r.get_instructions()[1], IStruct::CX { control: 0, target: 1 }));
}

#[test]
fn remap_renames_qubits() {
    let mut qc = QuantumCircuit::new(2, 2);
    qc.h(0).unwrap();
    qc.cx(0, 1).unwrap();
    qc.swap(0, 1).unwrap();
    qc.measure(vec![0], vec![1]).unwrap();
    let r = qc.remap(vec![1, 0]).unwrap();
    let ins = r.get_instructions();
    assert!(matches!(ins[0], IStruct::H(1)));
    assert!(matches!(ins[1], IStruct::CX { control: 1, target: 0 }));
    // exchanges are renamed too
    assert!(matches!(ins[2], IStruct::SWAP { qbit1: 1, qbit2: 0 }));
    assert!(matches!(&ins[3], IStruct::MEASURE(q, c) if *q == vec![1] && *c == vec![1]));
    assert!(matches!(qc.remap(vec![0]), Err(CircuitError::InvalidMapping)));
    assert!(matches!(qc.remap(vec![0, 2]), Err(CircuitError::InvalidMapping)));
}

#[test]
fn compose_offsets_the_second_circuit() {
    let mut a = QuantumCircuit::new(2, 1);
    a.h(0).unwrap();
    let mut b = QuantumCircuit::new(2, 2);
    b.x(0).unwrap();
    b.cx(0, 1).unwrap();
    b.measure(vec![0], vec![0]).unwrap();
    b.swap(0, 1).unwrap();
    let c = a.compose(&b);
    assert_eq!(c.get_q_bits(), 4);
    assert_eq!(c.get_cl_bits(), 3);
    let ins = c.get_instructions();
    assert_eq!(ins.len(), 4);
    assert!(matches!(ins[0], IStruct::H(0)));
    assert!(matches!(ins[1], IStruct::X(2)));
    assert!(matches!(ins[2], IStruct::CX { control: 2, target: 3 }));
    // measurements are dropped, exchanges are moved too
    assert!(matches!(ins[3], IStruct::SWAP { qbit1: 2, qbit2: 3 }));
}

#[test]
fn unitary_gate_describes_its_matrix_and_size() {
    let g = UnitaryGate::new(&hadamard_entries(), true).unwrap();
    let d = g.describe();
    assert_eq!(d.len(), 2);
    assert!(matches!(&d[0], rusty_quantum::text::Piece::Matrix(m) if m.dim == 2 && m.entries.len() == 4));
    assert!(matches!(&d[1], rusty_quantum::text::Piece::Text(t) if t == "Number of qbits needed : 1\n"));
}

#[test]
fn remap_needs_a_permutation() {
    let mut qc = QuantumCircuit::new(2, 0);
    qc.rz(Angle::Pi, 0).unwrap();
    qc.swap(0, 1).unwrap();
    assert!(matches!(qc.remap(vec![0, 0]), Err(CircuitError::InvalidMapping)));
    assert!(matches!(qc.remap(vec![0]), Err(CircuitError::InvalidMapping)));
    let r = qc.remap(vec![1, 0]).unwrap();
    let ins = r.get_instructions();
    assert!(matches!(&ins[0], IStruct::RZ { angle: Angle::Pi, target: 1 }));
    assert!(matches!(ins[1], IStruct::SWAP { qbit1: 1, qbit2: 0 }));
}

#[test]
fn compose_shifts_every_qubit() {
    let a = QuantumCircuit::new(1, 0);
    let mut b = QuantumCircuit::new(2, 0);
    b.rz(Angle::Radians(0.5f64.to_bits()), 0).unwrap();
    b.swap(0, 1).unwrap();
    b.controlled(vec![0], 1, IStruct::X(0)).unwrap();
    let c = a.compose(&b);
    assert_eq!(c.get_q_bits(), 3);
    assert_eq!(c.get_cl_bits(), 0);
    let ins = c.get_instructions();
    assert_eq!(ins.len(), 3);
    assert!(matches!(&ins[0], IStruct::RZ { angle: Angle::Radians(x), target: 1 } if *x == 0.5f64.to_bits()));
    assert!(matches!(ins[1], IStruct::SWAP { qbit1: 1, qbit2: 2 }));
    assert!(matches!(&ins[2], IStruct::CONTROLLED { controls, target: 2, .. } if *controls == vec![1]));
}
