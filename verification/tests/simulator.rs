use rusty_quantum::instruction::i_struct::{Angle, IStruct};
use rusty_quantum::simulator::simulator::{apply_ccx, apply_cx, remap_instructions};

#[test]
fn cx_exchanges_amplitudes_where_the_control_is_set() {
    // qubit 0 is the most significant bit of a basis index
    let mut s: Vec<u32> = vec![0, 1, 2, 3];
    apply_cx(&mut s, 2, 0, 1);
    assert_eq!(s, vec![0, 1, 3, 2]);
    let mut s: Vec<u32> = vec![0, 1, 2, 3];
    apply_cx(&mut s, 2, 1, 0);
    assert_eq!(s, vec![0, 3, 2, 1]);
}

#[test]
fn cx_on_one_qubit_changes_nothing() {
    let mut s: Vec<u32> = vec![10, 11, 12, 13];
    apply_cx(&mut s, 2, 1, 1);
    assert_eq!(s, vec![10, 11, 12, 13]);
}

#[test]
fn cx_twice_gives_the_state_back() {
    let start: Vec<u32> = (0..8).collect();
    let mut s = start.clone();
    apply_cx(&mut s, 3, 2, 0);
    assert_ne!(s, start);
    apply_cx(&mut s, 3, 2, 0);
    assert_eq!(s, start);
}

#[test]
fn toffoli_flips_the_target_when_both_controls_are_set() {
    let mut s: Vec<u32> = (0..8).collect();
    apply_ccx(&mut s, 3, 0, 1, 2);
    assert_eq!(s, vec![0, 1, 2, 3, 4, 5, 7, 6]);
}

#[test]
fn composite_gate_body_moves_onto_its_positions() {
    let body = vec![
        Box::new(IStruct::H(0)),
        Box::new(IStruct::CX { control: 0, target: 1 }),
        Box::new(IStruct::RZ { angle: Angle::Pi, target: 1 }),
        Box::new(IStruct::MEASURE(vec![0], vec![0])),
    ];
    let out = remap_instructions(&body, &[4, 2]);
    assert_eq!(out.len(), 4);
    assert!(matches!(out[0], IStruct::H(4)));
    assert!(matches!(out[1], IStruct::CX { control: 4, target: 2 }));
    assert!(matches!(out[2], IStruct::RZ { angle: Angle::Pi, target: 2 }));
    // other instructions are kept as they are
    assert!(matches!(&out[3], IStruct::MEASURE(q, c) if q == &vec![0] && c == &vec![0]));
}
