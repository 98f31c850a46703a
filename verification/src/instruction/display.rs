//! Human-readable descriptions of instructions and circuits.

use vstd::prelude::*;
use crate::circuit::quantum_circuit::QuantumCircuit;
use crate::instruction::i_struct::{Angle, IStruct, Op};
use crate::text::{append_pieces, decimal, pieces, push_decimal, push_piece, push_str, text, Color, Piece, PieceModel};

verus! {

/// The elements of a list, separated by `, `.
pub open spec fn joined(s: Seq<usize>) -> Seq<char>
    decreases s.len(),
{
    if s.len() == 0 {
        Seq::empty()
    } else if s.len() == 1 {
        decimal(s[0] as nat)
    } else {
        joined(s.drop_last()) + ", "@ + decimal(s.last() as nat)
    }
}

/// A list of indices as `{:?}` writes it: `[0, 1]`.
pub open spec fn list_text(s: Seq<usize>) -> Seq<char> {
    "["@ + joined(s) + "]"@
}

/// The description of a one-qubit gate.
pub open spec fn single_text(name: Seq<char>, q: usize) -> Seq<PieceModel> {
    seq![text(name + " gate is applied to the qbit(s) "@ + decimal(q as nat))]
}

/// The description of a rotation.
pub open spec fn rotation_text(name: Seq<char>, angle: Angle, t: usize) -> Seq<PieceModel> {
    seq![
        text(name + " gate with angle "@),
        PieceModel::Value(angle),
        text(" is applied to the qbit "@ + decimal(t as nat)),
    ]
}

/// The description of an instruction. A composite gate is described with
/// its label, its position, then each instruction of its body on a line.
pub open spec fn op_text(op: Op) -> Seq<PieceModel>
    decreases op, 1nat,
{
    match op {
        Op::H(q) => single_text("H"@, q),
        Op::X(q) => single_text("X"@, q),
        Op::Y(q) => single_text("Y"@, q),
        Op::Z(q) => single_text("Z"@, q),
        Op::CX { control, target } => seq![
            text("CX gate is applied to the control qbit "@ + decimal(control as nat) + " and target qbit "@ + decimal(
                target as nat,
            )),
        ],
        Op::U { dim, entries, target } => seq![
            text("U gate : "@),
            PieceModel::Matrix(dim, entries),
            text("\nis applied to the qbit "@ + list_text(target)),
        ],
        Op::Gate { position, body, label } => seq![
            text("Gate "@),
            PieceModel::Colored(Color::Blue, label),
            text(" is applied to the circuit at position "@ + list_text(position) + "\n"@),
        ] + ops_text(body),
        Op::Measure { qubits, clbits } => seq![
            text("Measure is applied to the qbits "@ + list_text(qubits) + " and clbits "@ + list_text(clbits)),
        ],
        Op::Swap { qbit1, qbit2 } => seq![
            text("SWAP gate is applied to the qbits "@ + decimal(qbit1 as nat) + " and "@ + decimal(qbit2 as nat)),
        ],
        Op::RZ { angle, target } => rotation_text("RZ"@, angle, target),
        Op::RX { angle, target } => rotation_text("RX"@, angle, target),
        Op::RY { angle, target } => rotation_text("RY"@, angle, target),
        _ => seq![text("Display trait to gate is not implemented"@)],
    }
}

/// The descriptions of a list of instructions, each followed by a line break.
pub open spec fn ops_text(ops: Seq<Op>) -> Seq<PieceModel>
    decreases ops, 0nat,
{
    if ops.len() == 0 {
        Seq::empty()
    } else {
        ops_text(ops.drop_last()) + op_text(ops.last()) + seq![text("\n"@)]
    }
}

/// Appends the list `[a, b, ...]` to `s`.
fn push_list(s: &mut String, v: &Vec<usize>)
    ensures
        final(s)@ == old(s)@ + list_text(v@),
{
    push_str(s, "[");
    let ghost start = s@;
    let mut i: usize = 0;
    while i < v.len()
        invariant
            i <= v@.len(),
            s@ == start + joined(v@.take(i as int)),
        decreases v@.len() - i,
    {
        proof {
            assert(v@.take(i + 1).drop_last() =~= v@.take(i as int));
            assert(v@.take(i + 1).last() == v@[i as int]);
        }
        if i > 0 {
            push_str(s, ", ");
        }
        push_decimal(s, v[i] as u64);
        i += 1;
        proof {
            if i == 1 {
                assert(v@.take(1)[0] == v@[0]);
            }
        }
        assert(s@ =~= start + joined(v@.take(i as int)));
    }
    assert(v@.take(i as int) =~= v@);
    push_str(s, "]");
    assert(s@ =~= old(s)@ + list_text(v@));
}

fn single_pieces(name: &str, q: usize) -> (r: Vec<Piece>)
    ensures
        pieces(r@) == single_text(name@, q),
{
    let mut s = String::new();
    push_str(&mut s, name);
    push_str(&mut s, " gate is applied to the qbit(s) ");
    push_decimal(&mut s, q as u64);
    let mut out: Vec<Piece> = Vec::new();
    push_piece(&mut out, Piece::Text(s));
    assert(pieces(out@) =~= single_text(name@, q));
    out
}

fn rotation_pieces(name: &str, angle: Angle, t: usize) -> (r: Vec<Piece>)
    ensures
        pieces(r@) == rotation_text(name@, angle, t),
{
    let mut head = String::new();
    push_str(&mut head, name);
    push_str(&mut head, " gate with angle ");
    let mut tail = String::new();
    push_str(&mut tail, " is applied to the qbit ");
    push_decimal(&mut tail, t as u64);
    let mut out: Vec<Piece> = Vec::new();
    push_piece(&mut out, Piece::Text(head));
    push_piece(&mut out, Piece::Value(angle));
    push_piece(&mut out, Piece::Text(tail));
    assert(pieces(out@) =~= rotation_text(name@, angle, t));
    out
}

fn describe_one(ins: &IStruct) -> (r: Vec<Piece>)
    ensures
        pieces(r@) == op_text(ins@),
    decreases ins,
{
    match ins {
        IStruct::H(q) => single_pieces("H", *q),
        IStruct::X(q) => single_pieces("X", *q),
        IStruct::Y(q) => single_pieces("Y", *q),
        IStruct::Z(q) => single_pieces("Z", *q),
        IStruct::CX { control, target } => {
            let mut s = String::new();
            push_str(&mut s, "CX gate is applied to the control qbit ");
            push_decimal(&mut s, *control as u64);
            push_str(&mut s, " and target qbit ");
            push_decimal(&mut s, *target as u64);
            let mut out: Vec<Piece> = Vec::new();
            push_piece(&mut out, Piece::Text(s));
            assert(pieces(out@) =~= op_text(ins@));
            out
        },
        IStruct::U { matrix, target } => {
            let mut tail = String::new();
            push_str(&mut tail, "\nis applied to the qbit ");
            push_list(&mut tail, target);
            let mut out: Vec<Piece> = Vec::new();
            push_piece(&mut out, Piece::Text("U gate : ".to_owned()));
            push_piece(&mut out, Piece::Matrix(matrix.copy()));
            push_piece(&mut out, Piece::Text(tail));
            assert(pieces(out@) =~= op_text(ins@));
            out
        },
        IStruct::GATE { position, instruction, label } => {
            let mut tail = String::new();
            push_str(&mut tail, " is applied to the circuit at position ");
            push_list(&mut tail, position);
            push_str(&mut tail, "\n");
            let mut out: Vec<Piece> = Vec::new();
            push_piece(&mut out, Piece::Text("Gate ".to_owned()));
            push_piece(&mut out, Piece::Colored(Color::Blue, label.clone()));
            push_piece(&mut out, Piece::Text(tail));
            append_pieces(&mut out, describe_list(instruction));
            assert(pieces(out@) =~= op_text(ins@));
            out
        },
        IStruct::MEASURE(q, c) => {
            let mut s = String::new();
            push_str(&mut s, "Measure is applied to the qbits ");
            push_list(&mut s, q);
            push_str(&mut s, " and clbits ");
            push_list(&mut s, c);
            let mut out: Vec<Piece> = Vec::new();
            push_piece(&mut out, Piece::Text(s));
            assert(pieces(out@) =~= op_text(ins@));
            out
        },
        IStruct::SWAP { qbit1, qbit2 } => {
            let mut s = String::new();
            push_str(&mut s, "SWAP gate is applied to the qbits ");
            push_decimal(&mut s, *qbit1 as u64);
            push_str(&mut s, " and ");
            push_decimal(&mut s, *qbit2 as u64);
            let mut out: Vec<Piece> = Vec::new();
            push_piece(&mut out, Piece::Text(s));
            assert(pieces(out@) =~= op_text(ins@));
            out
        },
        IStruct::RZ { angle, target } => rotation_pieces("RZ", angle.copy(), *target),
        IStruct::RX { angle, target } => rotation_pieces("RX", angle.copy(), *target),
        IStruct::RY { angle, target } => rotation_pieces("RY", angle.copy(), *target),
        _ => {
            let mut out: Vec<Piece> = Vec::new();
            push_piece(&mut out, Piece::Text("Display trait to gate is not implemented".to_owned()));
            assert(pieces(out@) =~= op_text(ins@));
            out
        },
    }
}

fn describe_list(list: &Vec<Box<IStruct>>) -> (r: Vec<Piece>)
    ensures
        pieces(r@) == ops_text(IStruct::models(list@)),
    decreases list,
{
    let ghost ops = IStruct::models(list@);
    proof {
        IStruct::lemma_models(list@);
    }
    let mut out: Vec<Piece> = Vec::new();
    let mut i: usize = 0;
    while i < list.len()
        invariant
            i <= list@.len(),
            ops == IStruct::models(list@),
            ops.len() == list@.len(),
            forall|j: int| 0 <= j < list@.len() ==> #[trigger] ops[j] == list@[j].model(),
            pieces(out@) == ops_text(ops.take(i as int)),
        decreases list@.len() - i,
    {
        proof {
            vstd::std_specs::vec::axiom_vec_index_decreases(*list, i as int);
            assert(ops.take(i + 1).drop_last() =~= ops.take(i as int));
            assert(ops.take(i + 1).last() == ops[i as int]);
        }
        let g = describe_one(&list[i]);
        append_pieces(&mut out, g);
        push_piece(&mut out, Piece::Text("\n".to_owned()));
        i += 1;
    }
    assert(ops.take(i as int) =~= ops);
    out
}

impl IStruct {
    /// A description of the instruction, as text pieces.
    pub fn describe(&self) -> (r: Vec<Piece>)
        ensures
            pieces(r@) == op_text(self@),
    {
        describe_one(self)
    }
}

/// The description of a circuit: its sizes, then its instructions, one per
/// line.
pub open spec fn circuit_text(qubits: nat, clbits: nat, ops: Seq<Op>) -> Seq<PieceModel> {
    seq![
        PieceModel::Colored(Color::Cyan, "Quantum circuit :"@),
        text("\nnb of quantum bits "@),
        PieceModel::Colored(Color::Yellow, decimal(qubits)),
        text(", nb of classical bits "@),
        PieceModel::Colored(Color::Yellow, decimal(clbits)),
        text(".\n"@),
        PieceModel::Colored(Color::BrightGreen, "List of instructions:"@),
        text("\n"@),
    ] + ops_text(ops)
}

fn decimal_string(n: usize) -> (r: String)
    ensures
        r@ == decimal(n as nat),
{
    let mut s = String::new();
    push_decimal(&mut s, n as u64);
    assert(s@ =~= decimal(n as nat));
    s
}

impl QuantumCircuit {
    /// A description of the circuit, as text pieces.
    pub fn describe(&self) -> (r: Vec<Piece>)
        ensures
            pieces(r@) == circuit_text(self@.qubits, self@.clbits, self@.ops),
    {
        let mut out: Vec<Piece> = Vec::new();
        push_piece(&mut out, Piece::Colored(Color::Cyan, "Quantum circuit :".to_owned()));
        push_piece(&mut out, Piece::Text("\nnb of quantum bits ".to_owned()));
        push_piece(&mut out, Piece::Colored(Color::Yellow, decimal_string(self.get_q_bits())));
        push_piece(&mut out, Piece::Text(", nb of classical bits ".to_owned()));
        push_piece(&mut out, Piece::Colored(Color::Yellow, decimal_string(self.get_cl_bits())));
        push_piece(&mut out, Piece::Text(".\n".to_owned()));
        push_piece(&mut out, Piece::Colored(Color::BrightGreen, "List of instructions:".to_owned()));
        push_piece(&mut out, Piece::Text("\n".to_owned()));
        let ghost start = pieces(out@);
        let instructions = self.get_instructions();
        let ghost ops = self@.ops;
        let mut i: usize = 0;
        while i < instructions.len()
            invariant
                i <= instructions@.len(),
                ops == instructions@.map_values(|x: IStruct| x@),
                pieces(out@) == start + ops_text(ops.take(i as int)),
            decreases instructions@.len() - i,
        {
            proof {
                assert(ops.take(i + 1).drop_last() =~= ops.take(i as int));
                assert(ops.take(i + 1).last() == ops[i as int]);
            }
            let g = describe_one(&instructions[i]);
            append_pieces(&mut out, g);
            push_piece(&mut out, Piece::Text("\n".to_owned()));
            i += 1;
            assert(pieces(out@) =~= start + ops_text(ops.take(i as int)));
        }
        assert(ops.take(i as int) =~= ops);
        assert(pieces(out@) =~= circuit_text(self@.qubits, self@.clbits, self@.ops));
        out
    }
}

} // verus!
