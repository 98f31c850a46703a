use vstd::prelude::*;
use crate::circuit::quantum_circuit::QuantumCircuit;
use crate::instruction::i_struct::{ComplexBits, IStruct, Op};
use crate::text::{append_pieces, decimal, pieces, push_decimal, push_piece, push_str, text, Piece, PieceModel};

verus! {

/// An object that can be written in OpenQASM.
pub trait ToQasm {
    /// The object can be written: the body of every composite gate in it
    /// acts on qubits of its position.
    spec fn qasm_ready(&self) -> bool;

    /// The OpenQASM text of the object.
    spec fn qasm(&self) -> Seq<PieceModel>;

    /// Writes the object in OpenQASM.
    fn to_qasm(&self) -> (r: Vec<Piece>)
        requires
            self.qasm_ready(),
        ensures
            pieces(r@) == self.qasm(),
    ;
}

/// `q[n]`.
pub open spec fn qubit_ref(q: nat) -> Seq<char> {
    "q["@ + decimal(q) + "]"@
}

/// The qubits `q[a],q[b],...`.
pub open spec fn qubit_list(t: Seq<usize>) -> Seq<char>
    decreases t.len(),
{
    if t.len() == 0 {
        Seq::empty()
    } else if t.len() == 1 {
        qubit_ref(t[0] as nat)
    } else {
        qubit_list(t.drop_last()) + ","@ + qubit_ref(t.last() as nat)
    }
}

/// The bits are those of a signed zero.
pub open spec fn is_zero_bits(b: u32) -> bool {
    b == 0 || b == 0x8000_0000
}

/// A matrix entry: its real part when the imaginary part is zero, else its
/// imaginary part followed by `i` when the real part is zero, else both.
pub open spec fn entry_qasm(e: ComplexBits) -> Seq<PieceModel> {
    if is_zero_bits(e.im) {
        seq![PieceModel::Single(e.re)]
    } else if is_zero_bits(e.re) {
        seq![PieceModel::Single(e.im), text("i"@)]
    } else {
        seq![PieceModel::Single(e.re), text("+"@), PieceModel::Single(e.im), text("i"@)]
    }
}

/// What comes before entry `i` of a matrix of side `dim`: nothing for the
/// first, a row break at the start of a row, a comma otherwise.
pub open spec fn entry_sep(i: nat, dim: nat) -> Seq<PieceModel> {
    if i == 0 {
        Seq::empty()
    } else if dim > 0 && i % dim == 0 {
        seq![text("],["@)]
    } else {
        seq![text(", "@)]
    }
}

/// The entries of a matrix, row by row.
pub open spec fn entries_qasm(es: Seq<ComplexBits>, dim: nat) -> Seq<PieceModel>
    decreases es.len(),
{
    if es.len() == 0 {
        Seq::empty()
    } else {
        entries_qasm(es.drop_last(), dim) + entry_sep((es.len() - 1) as nat, dim) + entry_qasm(es.last())
    }
}

/// The rows of a matrix: `[a, b],[c, d]`, nothing for an empty matrix.
pub open spec fn rows_qasm(es: Seq<ComplexBits>, dim: nat) -> Seq<PieceModel> {
    if es.len() == 0 {
        Seq::empty()
    } else {
        seq![text("["@)] + entries_qasm(es, dim) + seq![text("]"@)]
    }
}

/// A one-qubit gate `name q[t];`.
pub open spec fn one_qubit(name: Seq<char>, t: usize) -> Seq<PieceModel> {
    seq![text(name + " "@ + qubit_ref(t as nat) + ";"@)]
}

/// The qubit that the local qubit `q` stands for under the mapping `m`: `q`
/// itself at top level, `m[q]` inside a composite gate.
pub open spec fn at(m: Option<Seq<usize>>, q: usize) -> usize {
    match m {
        Some(s) => s[q as int],
        None => q,
    }
}

/// The instruction's qubits can be looked up in `m`.
pub open spec fn fits(op: Op, m: Option<Seq<usize>>) -> bool {
    match m {
        Some(s) => op.qubits_below(s.len()),
        None => true,
    }
}

/// The mapping inside a composite gate at `position`, itself under `m`.
pub open spec fn inner_map(m: Option<Seq<usize>>, position: Seq<usize>) -> Option<Seq<usize>> {
    Some(position.map_values(|x: usize| at(m, x)))
}

/// A rotation `name(angle) q[t];`.
pub open spec fn rotation(name: Seq<char>, angle: crate::instruction::i_struct::Angle, t: usize) -> Seq<PieceModel> {
    seq![text(name + "("@), PieceModel::Value(angle), text(") "@ + qubit_ref(t as nat) + ";"@)]
}

/// `measure q[q] -> c[c];`.
pub open spec fn measure_line(q: usize, c: usize) -> Seq<char> {
    "measure "@ + qubit_ref(q as nat) + " -> c["@ + decimal(c as nat) + "];"@
}

/// The measurements of the first `n` qubit/bit pairs, one per line.
pub open spec fn measure_lines(qs: Seq<usize>, cs: Seq<usize>, m: Option<Seq<usize>>, n: nat) -> Seq<char>
    decreases n,
{
    if n == 0 {
        Seq::empty()
    } else if n == 1 {
        measure_line(at(m, qs[0]), cs[0])
    } else {
        measure_lines(qs, cs, m, (n - 1) as nat) + "\n"@ + measure_line(at(m, qs[n - 1]), cs[n - 1])
    }
}

/// The number of qubit/bit pairs of a measurement.
pub open spec fn pair_count(qs: Seq<usize>, cs: Seq<usize>) -> nat {
    if qs.len() <= cs.len() {
        qs.len()
    } else {
        cs.len()
    }
}

/// The OpenQASM of an instruction whose qubits are looked up in `m`. A
/// composite gate is written as its body on the qubits of its position; a
/// measurement as one `measure` line per qubit/bit pair; matrix gates with
/// their entries.
pub open spec fn op_qasm_in(op: Op, m: Option<Seq<usize>>) -> Seq<PieceModel>
    decreases op, 1nat,
{
    match op {
        Op::H(q) => one_qubit("h"@, at(m, q)),
        Op::X(q) => one_qubit("x"@, at(m, q)),
        Op::Y(q) => one_qubit("y"@, at(m, q)),
        Op::Z(q) => one_qubit("z"@, at(m, q)),
        Op::CX { control, target } => seq![
            text("cx"@ + " "@ + qubit_ref(at(m, control) as nat) + ", "@ + qubit_ref(at(m, target) as nat) + ";"@),
        ],
        Op::U { dim, entries, target } => seq![text("unitary ["@)] + rows_qasm(entries, dim as nat) + seq![
            text("] "@ + qubit_list(target.map_values(|x: usize| at(m, x))) + ";"@),
        ],
        Op::Measure { qubits, clbits } => seq![text(measure_lines(qubits, clbits, m, pair_count(qubits, clbits)))],
        Op::Gate { position, body, .. } => ops_qasm_in(body, inner_map(m, position)),
        Op::Swap { qbit1, qbit2 } => seq![
            text("swap"@ + " "@ + qubit_ref(at(m, qbit1) as nat) + ", "@ + qubit_ref(at(m, qbit2) as nat) + ";"@),
        ],
        Op::RZ { angle, target } => rotation("rz"@, angle, at(m, target)),
        Op::RX { angle, target } => rotation("rx"@, angle, at(m, target)),
        Op::RY { angle, target } => rotation("ry"@, angle, at(m, target)),
        Op::Any => seq![text("// ANY gate is not defined in QASM"@)],
        _ => seq![text("// This instruction is not defined in QASM"@)],
    }
}

/// The OpenQASM of a list of instructions under `m`, each followed by a line
/// break.
pub open spec fn ops_qasm_in(ops: Seq<Op>, m: Option<Seq<usize>>) -> Seq<PieceModel>
    decreases ops, 0nat,
{
    if ops.len() == 0 {
        Seq::empty()
    } else {
        ops_qasm_in(ops.drop_last(), m) + op_qasm_in(ops.last(), m) + seq![text("\n"@)]
    }
}

/// The OpenQASM of an instruction, on the qubits it names.
pub open spec fn op_qasm(op: Op) -> Seq<PieceModel> {
    op_qasm_in(op, None)
}

/// The OpenQASM of a list of instructions, each followed by a line break.
pub open spec fn ops_qasm(ops: Seq<Op>) -> Seq<PieceModel> {
    ops_qasm_in(ops, None)
}

/// Every instruction of the list names qubits below `n`.
pub open spec fn ops_fit(ops: Seq<Op>, n: nat) -> bool {
    forall|i: int| 0 <= i < ops.len() ==> (#[trigger] ops[i]).qubits_below(n)
}

/// The body of every composite gate of the instruction, at any depth, acts
/// on qubits of its position.
pub open spec fn op_ready(op: Op) -> bool
    decreases op, 1nat,
{
    match op {
        Op::Gate { position, body, .. } => ops_ready(body) && ops_fit(body, position.len()),
        _ => true,
    }
}

/// Every instruction of the list is ready to be written.
pub open spec fn ops_ready(ops: Seq<Op>) -> bool
    decreases ops, 0nat,
{
    if ops.len() == 0 {
        true
    } else {
        ops_ready(ops.drop_last()) && op_ready(ops.last())
    }
}

/// A prefix of a ready list is ready, and so is each element.
pub proof fn lemma_ready_prefix(ops: Seq<Op>, k: int)
    requires
        ops_ready(ops),
        0 <= k <= ops.len(),
    ensures
        ops_ready(ops.take(k)),
        k > 0 ==> op_ready(ops[k - 1]),
    decreases ops.len(),
{
    if k < ops.len() {
        assert(ops.drop_last().take(k) =~= ops.take(k));
        lemma_ready_prefix(ops.drop_last(), k);
        if k > 0 {
            assert(ops.drop_last()[k - 1] == ops[k - 1]);
        }
    } else {
        assert(ops.take(k) =~= ops);
    }
}

/// Appends `q[n]` to `s`.
fn push_qubit(s: &mut String, q: usize)
    ensures
        final(s)@ == old(s)@ + qubit_ref(q as nat),
{
    push_str(s, "q[");
    push_decimal(s, q as u64);
    push_str(s, "]");
    assert(s@ =~= old(s)@ + qubit_ref(q as nat));
}

/// The text piece `prefix q[t];` of a one-qubit instruction.
fn one_qubit_piece(name: &str, t: usize) -> (r: Vec<Piece>)
    ensures
        pieces(r@) == one_qubit(name@, t),
{
    let mut s = String::new();
    push_str(&mut s, name);
    push_str(&mut s, " ");
    push_qubit(&mut s, t);
    push_str(&mut s, ";");
    let mut out: Vec<Piece> = Vec::new();
    assert(s@ =~= name@ + " "@ + qubit_ref(t as nat) + ";"@);
    push_piece(&mut out, Piece::Text(s));
    assert(pieces(out@) =~= one_qubit(name@, t));
    out
}

/// The text piece `name q[a], q[b];` of a two-qubit instruction.
fn two_qubit_piece(name: &str, a: usize, b: usize) -> (r: Piece)
    ensures
        r.model() == text(name@ + " "@ + qubit_ref(a as nat) + ", "@ + qubit_ref(b as nat) + ";"@),
{
    let mut s = String::new();
    push_str(&mut s, name);
    push_str(&mut s, " ");
    push_qubit(&mut s, a);
    push_str(&mut s, ", ");
    push_qubit(&mut s, b);
    push_str(&mut s, ";");
    assert(s@ =~= name@ + " "@ + qubit_ref(a as nat) + ", "@ + qubit_ref(b as nat) + ";"@);
    Piece::Text(s)
}

/// The pieces of a matrix entry.
fn entry_pieces(e: ComplexBits) -> (r: Vec<Piece>)
    ensures
        pieces(r@) == entry_qasm(e),
{
    let mut out: Vec<Piece> = Vec::new();
    if e.im == 0 || e.im == 0x8000_0000 {
        push_piece(&mut out, Piece::Single(e.re));
    } else if e.re == 0 || e.re == 0x8000_0000 {
        push_piece(&mut out, Piece::Single(e.im));
        push_piece(&mut out, Piece::Text("i".to_owned()));
    } else {
        push_piece(&mut out, Piece::Single(e.re));
        push_piece(&mut out, Piece::Text("+".to_owned()));
        push_piece(&mut out, Piece::Single(e.im));
        push_piece(&mut out, Piece::Text("i".to_owned()));
    }
    assert(pieces(out@) =~= entry_qasm(e));
    out
}

/// The pieces of a matrix instruction.
fn unitary_pieces(dim: usize, entries: &Vec<ComplexBits>, target: &Vec<usize>) -> (r: Vec<Piece>)
    ensures
        pieces(r@) == seq![text("unitary ["@)] + rows_qasm(entries@, dim as nat) + seq![
            text("] "@ + qubit_list(target@) + ";"@),
        ],
{
    let mut out: Vec<Piece> = Vec::new();
    push_piece(&mut out, Piece::Text("unitary [".to_owned()));
    let ghost start = pieces(out@);
    if entries.len() > 0 {
        push_piece(&mut out, Piece::Text("[".to_owned()));
        let ghost open_row = pieces(out@);
        let mut i: usize = 0;
        while i < entries.len()
            invariant
                i <= entries@.len(),
                pieces(out@) == open_row + entries_qasm(entries@.take(i as int), dim as nat),
            decreases entries@.len() - i,
        {
            proof {
                assert(entries@.take(i + 1).drop_last() =~= entries@.take(i as int));
                assert(entries@.take(i + 1).last() == entries@[i as int]);
            }
            let ghost before = pieces(out@);
            if i == 0 {
            } else if dim > 0 && i % dim == 0 {
                push_piece(&mut out, Piece::Text("],[".to_owned()));
            } else {
                push_piece(&mut out, Piece::Text(", ".to_owned()));
            }
            assert(pieces(out@) =~= before + entry_sep(i as nat, dim as nat));
            append_pieces(&mut out, entry_pieces(entries[i]));
            i += 1;
            assert(pieces(out@) =~= open_row + entries_qasm(entries@.take(i as int), dim as nat));
        }
        assert(entries@.take(i as int) =~= entries@);
        push_piece(&mut out, Piece::Text("]".to_owned()));
    }
    assert(pieces(out@) =~= start + rows_qasm(entries@, dim as nat));
    let mut s = String::new();
    push_str(&mut s, "] ");
    let ghost s0 = s@;
    let mut j: usize = 0;
    while j < target.len()
        invariant
            j <= target@.len(),
            s@ == s0 + qubit_list(target@.take(j as int)),
        decreases target@.len() - j,
    {
        proof {
            assert(target@.take(j + 1).drop_last() =~= target@.take(j as int));
            assert(target@.take(j + 1).last() == target@[j as int]);
        }
        if j > 0 {
            push_str(&mut s, ",");
        }
        push_qubit(&mut s, target[j]);
        j += 1;
        proof {
            if j == 1 {
                assert(target@.take(1)[0] == target@[0]);
            }
        }
        assert(s@ =~= s0 + qubit_list(target@.take(j as int)));
    }
    assert(target@.take(j as int) =~= target@);
    push_str(&mut s, ";");
    push_piece(&mut out, Piece::Text(s));
    assert(pieces(out@) =~= seq![text("unitary ["@)] + rows_qasm(entries@, dim as nat) + seq![
        text("] "@ + qubit_list(target@) + ";"@),
    ]);
    out
}

/// The mapping as a sequence, if any.
pub open spec fn map_view(m: &Option<Vec<usize>>) -> Option<Seq<usize>> {
    match m {
        Some(v) => Some(v@),
        None => None,
    }
}

/// The qubit that `q` stands for under `m`.
fn at_qubit(m: &Option<Vec<usize>>, q: usize) -> (r: usize)
    requires
        m is Some ==> q < m->Some_0@.len(),
    ensures
        r == at(map_view(m), q),
{
    match m {
        Some(v) => v[q],
        None => q,
    }
}

/// The qubits of `t` looked up in `m`.
fn at_qubits(m: &Option<Vec<usize>>, t: &Vec<usize>) -> (r: Vec<usize>)
    requires
        m is Some ==> crate::instruction::i_struct::all_below(t@, m->Some_0@.len()),
    ensures
        r@ == t@.map_values(|x: usize| at(map_view(m), x)),
{
    let mut r: Vec<usize> = Vec::new();
    let mut i: usize = 0;
    while i < t.len()
        invariant
            i <= t@.len(),
            m is Some ==> crate::instruction::i_struct::all_below(t@, m->Some_0@.len()),
            r@ == t@.take(i as int).map_values(|x: usize| at(map_view(m), x)),
        decreases t@.len() - i,
    {
        r.push(at_qubit(m, t[i]));
        i += 1;
        assert(r@ =~= t@.take(i as int).map_values(|x: usize| at(map_view(m), x)));
    }
    assert(t@.take(i as int) =~= t@);
    r
}

/// The measurements of the qubit/bit pairs, one per line.
fn measure_text(m: &Option<Vec<usize>>, qs: &Vec<usize>, cs: &Vec<usize>) -> (r: String)
    requires
        m is Some ==> crate::instruction::i_struct::all_below(qs@, m->Some_0@.len()),
    ensures
        r@ == measure_lines(qs@, cs@, map_view(m), pair_count(qs@, cs@)),
{
    let n = if qs.len() <= cs.len() {
        qs.len()
    } else {
        cs.len()
    };
    let mut s = String::new();
    let mut i: usize = 0;
    while i < n
        invariant
            i <= n,
            n == pair_count(qs@, cs@),
            m is Some ==> crate::instruction::i_struct::all_below(qs@, m->Some_0@.len()),
            s@ == measure_lines(qs@, cs@, map_view(m), i as nat),
        decreases n - i,
    {
        let ghost before = s@;
        if i > 0 {
            push_str(&mut s, "\n");
        }
        push_str(&mut s, "measure ");
        push_qubit(&mut s, at_qubit(m, qs[i]));
        push_str(&mut s, " -> c[");
        push_decimal(&mut s, cs[i] as u64);
        push_str(&mut s, "];");
        proof {
            let line = measure_line(at(map_view(m), qs@[i as int]), cs@[i as int]);
            if i == 0 {
                assert(s@ =~= line);
            } else {
                assert(s@ =~= before + "\n"@ + line);
            }
        }
        i += 1;
    }
    s
}

/// The pieces of an instruction whose qubits are looked up in `m`.
fn qasm_one(ins: &IStruct, m: &Option<Vec<usize>>) -> (r: Vec<Piece>)
    requires
        op_ready(ins@),
        fits(ins@, map_view(m)),
    ensures
        pieces(r@) == op_qasm_in(ins@, map_view(m)),
    decreases ins,
{
    match ins {
        IStruct::H(q) => one_qubit_piece("h", at_qubit(m, *q)),
        IStruct::X(q) => one_qubit_piece("x", at_qubit(m, *q)),
        IStruct::Y(q) => one_qubit_piece("y", at_qubit(m, *q)),
        IStruct::Z(q) => one_qubit_piece("z", at_qubit(m, *q)),
        IStruct::CX { control, target } => {
            let mut out: Vec<Piece> = Vec::new();
            push_piece(&mut out, two_qubit_piece("cx", at_qubit(m, *control), at_qubit(m, *target)));
            assert(pieces(out@) =~= op_qasm_in(ins@, map_view(m)));
            out
        },
        IStruct::SWAP { qbit1, qbit2 } => {
            let mut out: Vec<Piece> = Vec::new();
            push_piece(&mut out, two_qubit_piece("swap", at_qubit(m, *qbit1), at_qubit(m, *qbit2)));
            assert(pieces(out@) =~= op_qasm_in(ins@, map_view(m)));
            out
        },
        IStruct::U { matrix, target } => {
            let t = at_qubits(m, target);
            unitary_pieces(matrix.dim, &matrix.entries, &t)
        },
        IStruct::MEASURE(q_bits, cl_bits) => {
            let s = measure_text(m, q_bits, cl_bits);
            let mut out: Vec<Piece> = Vec::new();
            push_piece(&mut out, Piece::Text(s));
            assert(pieces(out@) =~= op_qasm_in(ins@, map_view(m)));
            out
        },
        IStruct::GATE { position, instruction, .. } => {
            let inner: Option<Vec<usize>> = Some(at_qubits(m, position));
            assert(map_view(&inner) == inner_map(map_view(m), position@));
            qasm_list(instruction, &inner)
        },
        IStruct::RZ { angle, target } => rotation_pieces("rz", angle.copy(), at_qubit(m, *target)),
        IStruct::RX { angle, target } => rotation_pieces("rx", angle.copy(), at_qubit(m, *target)),
        IStruct::RY { angle, target } => rotation_pieces("ry", angle.copy(), at_qubit(m, *target)),
        IStruct::ANY() => {
            let mut out: Vec<Piece> = Vec::new();
            push_piece(&mut out, Piece::Text("// ANY gate is not defined in QASM".to_owned()));
            assert(pieces(out@) =~= op_qasm_in(ins@, map_view(m)));
            out
        },
        _ => {
            let mut out: Vec<Piece> = Vec::new();
            push_piece(&mut out, Piece::Text("// This instruction is not defined in QASM".to_owned()));
            assert(pieces(out@) =~= op_qasm_in(ins@, map_view(m)));
            out
        },
    }
}

/// The pieces `name(angle) q[t];` of a rotation.
fn rotation_pieces(name: &str, angle: crate::instruction::i_struct::Angle, t: usize) -> (r: Vec<Piece>)
    ensures
        pieces(r@) == rotation(name@, angle, t),
{
    let mut head = String::new();
    push_str(&mut head, name);
    push_str(&mut head, "(");
    let mut tail = String::new();
    push_str(&mut tail, ") ");
    push_qubit(&mut tail, t);
    push_str(&mut tail, ";");
    let mut out: Vec<Piece> = Vec::new();
    push_piece(&mut out, Piece::Text(head));
    push_piece(&mut out, Piece::Value(angle));
    push_piece(&mut out, Piece::Text(tail));
    assert(pieces(out@) =~= rotation(name@, angle, t));
    out
}

/// The pieces of a list of instructions under `m`, each followed by a line
/// break.
fn qasm_list(list: &Vec<Box<IStruct>>, m: &Option<Vec<usize>>) -> (r: Vec<Piece>)
    requires
        ops_ready(IStruct::models(list@)),
        m is Some ==> ops_fit(IStruct::models(list@), m->Some_0@.len()),
    ensures
        pieces(r@) == ops_qasm_in(IStruct::models(list@), map_view(m)),
    decreases list,
{
    let ghost ops = IStruct::models(list@);
    proof {
        IStruct::lemma_models(list@);
    }
    let mut out: Vec<Piece> = Vec::new();
    let mut i: usize = 0;
    while i < list.len()
        invariant
            i <= list@.len(),
            ops == IStruct::models(list@),
            ops.len() == list@.len(),
            forall|j: int| 0 <= j < list@.len() ==> #[trigger] ops[j] == list@[j].model(),
            ops_ready(ops),
            m is Some ==> ops_fit(ops, m->Some_0@.len()),
            pieces(out@) == ops_qasm_in(ops.take(i as int), map_view(m)),
        decreases list@.len() - i,
    {
        proof {
            vstd::std_specs::vec::axiom_vec_index_decreases(*list, i as int);
            lemma_ready_prefix(ops, i as int + 1);
            assert(ops.take(i + 1).drop_last() =~= ops.take(i as int));
            assert(ops.take(i + 1).last() == ops[i as int]);
            assert(fits(ops[i as int], map_view(m)));
        }
        let g = qasm_one(&list[i], m);
        append_pieces(&mut out, g);
        push_piece(&mut out, Piece::Text("\n".to_owned()));
        i += 1;
    }
    assert(ops.take(i as int) =~= ops);
    out
}

impl ToQasm for IStruct {
    open spec fn qasm_ready(&self) -> bool {
        op_ready(self@)
    }

    open spec fn qasm(&self) -> Seq<PieceModel> {
        op_qasm(self@)
    }

    fn to_qasm(&self) -> (r: Vec<Piece>) {
        qasm_one(self, &None)
    }
}

/// The OpenQASM program of a circuit: the version, its registers, then its
/// instructions, one per line.
pub open spec fn circuit_qasm(qubits: nat, clbits: nat, ops: Seq<Op>) -> Seq<PieceModel> {
    seq![text("OPENQASM 3.0;\nqubit q["@ + decimal(qubits) + "];\nbit c["@ + decimal(clbits) + "];\n"@)] + ops_qasm(ops)
}

impl ToQasm for QuantumCircuit {
    open spec fn qasm_ready(&self) -> bool {
        ops_ready(self@.ops)
    }

    open spec fn qasm(&self) -> Seq<PieceModel> {
        circuit_qasm(self@.qubits, self@.clbits, self@.ops)
    }

    fn to_qasm(&self) -> (r: Vec<Piece>) {
        let mut s = String::new();
        push_str(&mut s, "OPENQASM 3.0;\nqubit q[");
        push_decimal(&mut s, self.get_q_bits() as u64);
        push_str(&mut s, "];\nbit c[");
        push_decimal(&mut s, self.get_cl_bits() as u64);
        push_str(&mut s, "];\n");
        let mut out: Vec<Piece> = Vec::new();
        push_piece(&mut out, Piece::Text(s));
        let ghost start = pieces(out@);
        let instructions = self.get_instructions();
        let ghost ops = self@.ops;
        let mut i: usize = 0;
        while i < instructions.len()
            invariant
                i <= instructions@.len(),
                ops == instructions@.map_values(|x: IStruct| x@),
                ops_ready(ops),
                pieces(out@) == start + ops_qasm(ops.take(i as int)),
            decreases instructions@.len() - i,
        {
            proof {
                lemma_ready_prefix(ops, i as int + 1);
                assert(ops.take(i + 1).drop_last() =~= ops.take(i as int));
                assert(ops.take(i + 1).last() == ops[i as int]);
            }
            let g = qasm_one(&instructions[i], &None);
            append_pieces(&mut out, g);
            push_piece(&mut out, Piece::Text("\n".to_owned()));
            i += 1;
            assert(pieces(out@) =~= start + ops_qasm(ops.take(i as int)));
        }
        assert(ops.take(i as int) =~= ops);
        out
    }
}

} // verus!
