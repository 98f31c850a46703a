use vstd::prelude::*;
use crate::instruction::i_struct::{Angle, IStruct, Op};
use crate::text::{decimal, pieces, push_decimal, push_piece, push_str, text, Piece, PieceModel};
use crate::transpiler::coupling_map::TwoQubitGate;

verus! {

/// Binary64 bits of pi.
pub const PI_BITS: u64 = 0x400921fb54442d18;
/// Binary64 bits of pi/2.
pub const HALF_PI_BITS: u64 = 0x3ff921fb54442d18;
/// Binary64 bits of -pi/2.
pub const NEG_HALF_PI_BITS: u64 = 0xbff921fb54442d18;
/// Binary64 bits of pi/4.
pub const QUARTER_PI_BITS: u64 = 0x3fe921fb54442d18;
/// Binary64 bits of -pi/4.
pub const NEG_QUARTER_PI_BITS: u64 = 0xbfe921fb54442d18;
/// Binary64 bits of zero.
pub const ZERO_BITS: u64 = 0;

/// The universal one-qubit gate `U3(theta, phi, lambda)`.
#[derive(Debug)]
pub struct U3Gate {
    /// Rotation angle theta.
    pub theta: Angle,
    /// Phase angle phi.
    pub phi: Angle,
    /// Rotation angle lambda.
    pub lambda: Angle,
    /// Target qubit.
    pub target: usize,
}

/// A CNOT gate.
#[derive(Debug, Clone, Copy, PartialEq, Eq, Structural)]
pub struct CXGate {
    /// Control qubit.
    pub control: usize,
    /// Target qubit.
    pub target: usize,
}

/// Measurement of a qubit into a classical bit.
#[derive(Debug, Clone, Copy, PartialEq, Eq, Structural)]
pub struct MeasureGate {
    /// Measured qubit.
    pub qubit: usize,
    /// Destination classical bit.
    pub clbit: usize,
}

/// A gate after decomposition: `U3`, `CX` or a measurement.
#[derive(Debug)]
pub enum DecomposedGate {
    /// One-qubit universal gate.
    U3(U3Gate),
    /// CNOT.
    CX(CXGate),
    /// Measurement.
    Measure(MeasureGate),
}

impl U3Gate {
    /// Returns an equal gate.
    pub fn copy(&self) -> (r: U3Gate)
        ensures
            r == *self,
    {
        U3Gate {
            theta: self.theta.copy(),
            phi: self.phi.copy(),
            lambda: self.lambda.copy(),
            target: self.target,
        }
    }
}

impl DecomposedGate {
    /// Returns an equal gate.
    pub fn copy(&self) -> (r: DecomposedGate)
        ensures
            r == *self,
    {
        match self {
            DecomposedGate::U3(u) => DecomposedGate::U3(u.copy()),
            DecomposedGate::CX(c) => DecomposedGate::CX(*c),
            DecomposedGate::Measure(m) => DecomposedGate::Measure(*m),
        }
    }
}

/// The angle with binary64 bits `b`.
pub open spec fn rad(b: u64) -> Angle {
    Angle::Radians(b)
}

/// `U3(theta, phi, lambda)` on `target`.
pub open spec fn u3_spec(theta: Angle, phi: Angle, lambda: Angle, target: usize) -> DecomposedGate {
    DecomposedGate::U3(U3Gate { theta, phi, lambda, target })
}

/// `CX(control, target)`.
pub open spec fn cx_spec(control: usize, target: usize) -> DecomposedGate {
    DecomposedGate::CX(CXGate { control, target })
}

/// `H = U3(pi/2, 0, pi)`.
pub open spec fn h_spec(t: usize) -> Seq<DecomposedGate> {
    seq![u3_spec(rad(HALF_PI_BITS), rad(ZERO_BITS), rad(PI_BITS), t)]
}

/// `X = U3(pi, 0, pi)`.
pub open spec fn x_spec(t: usize) -> Seq<DecomposedGate> {
    seq![u3_spec(rad(PI_BITS), rad(ZERO_BITS), rad(PI_BITS), t)]
}

/// `Y = U3(pi, pi/2, pi/2)`.
pub open spec fn y_spec(t: usize) -> Seq<DecomposedGate> {
    seq![u3_spec(rad(PI_BITS), rad(HALF_PI_BITS), rad(HALF_PI_BITS), t)]
}

/// `Z = U3(0, 0, pi)`.
pub open spec fn z_spec(t: usize) -> Seq<DecomposedGate> {
    seq![u3_spec(rad(ZERO_BITS), rad(ZERO_BITS), rad(PI_BITS), t)]
}

/// `T = U3(0, 0, pi/4)`.
pub open spec fn t_spec(t: usize) -> Seq<DecomposedGate> {
    seq![u3_spec(rad(ZERO_BITS), rad(ZERO_BITS), rad(QUARTER_PI_BITS), t)]
}

/// `T-dagger = U3(0, 0, -pi/4)`.
pub open spec fn tdg_spec(t: usize) -> Seq<DecomposedGate> {
    seq![u3_spec(rad(ZERO_BITS), rad(ZERO_BITS), rad(NEG_QUARTER_PI_BITS), t)]
}

/// `RZ(a) = U3(0, 0, a)`.
pub open spec fn rz_spec(a: Angle, t: usize) -> Seq<DecomposedGate> {
    seq![u3_spec(rad(ZERO_BITS), rad(ZERO_BITS), a, t)]
}

/// `RX(a) = U3(a, -pi/2, pi/2)`.
pub open spec fn rx_spec(a: Angle, t: usize) -> Seq<DecomposedGate> {
    seq![u3_spec(a, rad(NEG_HALF_PI_BITS), rad(HALF_PI_BITS), t)]
}

/// `RY(a) = U3(a, 0, 0)`.
pub open spec fn ry_spec(a: Angle, t: usize) -> Seq<DecomposedGate> {
    seq![u3_spec(a, rad(ZERO_BITS), rad(ZERO_BITS), t)]
}

/// `SWAP(a, b) = CX(a,b) CX(b,a) CX(a,b)`.
pub open spec fn swap_spec(a: usize, b: usize) -> Seq<DecomposedGate> {
    seq![cx_spec(a, b), cx_spec(b, a), cx_spec(a, b)]
}

/// `CZ(c, t) = H(t) CX(c,t) H(t)`.
pub open spec fn cz_spec(c: usize, t: usize) -> Seq<DecomposedGate> {
    h_spec(t) + seq![cx_spec(c, t)] + h_spec(t)
}

/// The standard six-CX decomposition of the Toffoli gate.
pub open spec fn toffoli_spec(c1: usize, c2: usize, t: usize) -> Seq<DecomposedGate> {
    h_spec(t) + seq![cx_spec(c2, t)] + tdg_spec(t) + seq![cx_spec(c1, t)] + t_spec(t) + seq![
        cx_spec(c2, t),
    ] + tdg_spec(t) + seq![cx_spec(c1, t)] + t_spec(c2) + t_spec(t) + seq![cx_spec(c1, c2)]
        + h_spec(t) + t_spec(c1) + tdg_spec(c2) + seq![cx_spec(c1, c2)]
}

/// A decomposed gate with its qubits renamed through `position`.
pub open spec fn remap_spec(g: DecomposedGate, position: Seq<usize>) -> DecomposedGate {
    match g {
        DecomposedGate::U3(u) => DecomposedGate::U3(
            U3Gate { theta: u.theta, phi: u.phi, lambda: u.lambda, target: position[u.target as int] },
        ),
        DecomposedGate::CX(c) => DecomposedGate::CX(
            CXGate { control: position[c.control as int], target: position[c.target as int] },
        ),
        DecomposedGate::Measure(m) => DecomposedGate::Measure(
            MeasureGate { qubit: position[m.qubit as int], clbit: m.clbit },
        ),
    }
}

/// Every qubit that `g` acts on is below `n`.
pub open spec fn gate_below(g: DecomposedGate, n: nat) -> bool {
    match g {
        DecomposedGate::U3(u) => u.target < n,
        DecomposedGate::CX(c) => c.control < n && c.target < n,
        DecomposedGate::Measure(m) => m.qubit < n,
    }
}

/// Every gate of the list acts on qubits below `n`.
pub open spec fn gates_below(gs: Seq<DecomposedGate>, n: nat) -> bool {
    forall|i: int| 0 <= i < gs.len() ==> gate_below(#[trigger] gs[i], n)
}

/// The measurements of `qubits[i]` into `clbits[i]`, for the common length.
pub open spec fn measure_spec(qubits: Seq<usize>, clbits: Seq<usize>) -> Seq<DecomposedGate> {
    Seq::new(
        if qubits.len() <= clbits.len() { qubits.len() } else { clbits.len() },
        |i: int| DecomposedGate::Measure(MeasureGate { qubit: qubits[i], clbit: clbits[i] }),
    )
}

/// The decomposition of a controlled gate: one control with X is a CX, one
/// control with Z is a CZ, two controls with X is a Toffoli; anything else is
/// dropped.
pub open spec fn controlled_spec(controls: Seq<usize>, target: usize, gate: Op) -> Seq<DecomposedGate> {
    if controls.len() == 1 && gate is X {
        seq![cx_spec(controls[0], target)]
    } else if controls.len() == 1 && gate is Z {
        cz_spec(controls[0], target)
    } else if controls.len() == 2 && gate is X {
        toffoli_spec(controls[0], controls[1], target)
    } else {
        Seq::empty()
    }
}

/// The decomposition of one instruction into `U3`, `CX` and measurements.
/// Matrix gates and unspecified instructions give nothing.
pub open spec fn decompose_op(op: Op) -> Seq<DecomposedGate>
    decreases op, 1nat,
{
    match op {
        Op::H(q) => h_spec(q),
        Op::X(q) => x_spec(q),
        Op::Y(q) => y_spec(q),
        Op::Z(q) => z_spec(q),
        Op::CX { control, target } => seq![cx_spec(control, target)],
        Op::CZ { control, target } => cz_spec(control, target),
        Op::Swap { qbit1, qbit2 } => swap_spec(qbit1, qbit2),
        Op::RZ { angle, target } => rz_spec(angle, target),
        Op::RX { angle, target } => rx_spec(angle, target),
        Op::RY { angle, target } => ry_spec(angle, target),
        Op::Controlled { controls, target, gate } => controlled_spec(controls, target, *gate),
        Op::Gate { position, body, .. } => decompose_ops(body).map_values(
            |g: DecomposedGate| remap_spec(g, position),
        ),
        Op::Measure { qubits, clbits } => measure_spec(qubits, clbits),
        Op::U { .. } => Seq::empty(),
        Op::Any => Seq::empty(),
    }
}

/// The decompositions of a list of instructions, concatenated in order.
pub open spec fn decompose_ops(ops: Seq<Op>) -> Seq<DecomposedGate>
    decreases ops, 0nat,
{
    if ops.len() == 0 {
        Seq::empty()
    } else {
        decompose_ops(ops.drop_last()) + decompose_op(ops.last())
    }
}

/// Every composite gate, at any depth, places its decomposed body on listed
/// positions only.
pub open spec fn decomposable_op(op: Op) -> bool
    decreases op, 1nat,
{
    match op {
        Op::Gate { position, body, .. } => decomposable_ops(body) && gates_below(
            decompose_ops(body),
            position.len(),
        ),
        _ => true,
    }
}

/// Every instruction of the list is decomposable.
pub open spec fn decomposable_ops(ops: Seq<Op>) -> bool
    decreases ops, 0nat,
{
    if ops.len() == 0 {
        true
    } else {
        decomposable_ops(ops.drop_last()) && decomposable_op(ops.last())
    }
}

fn u3(theta: Angle, phi: Angle, lambda: Angle, target: usize) -> (r: DecomposedGate)
    ensures
        r == u3_spec(theta, phi, lambda, target),
{
    DecomposedGate::U3(U3Gate { theta, phi, lambda, target })
}

fn cx(control: usize, target: usize) -> (r: DecomposedGate)
    ensures
        r == cx_spec(control, target),
{
    DecomposedGate::CX(CXGate { control, target })
}

fn radians(b: u64) -> (r: Angle)
    ensures
        r == rad(b),
{
    Angle::Radians(b)
}

fn one(g: DecomposedGate) -> (r: Vec<DecomposedGate>)
    ensures
        r@ == seq![g],
{
    let mut v: Vec<DecomposedGate> = Vec::new();
    v.push(g);
    assert(v@ =~= seq![g]);
    v
}

/// Decomposes `H` into `U3(pi/2, 0, pi)`.
pub fn decompose_h(target: usize) -> (r: Vec<DecomposedGate>)
    ensures
        r@ == h_spec(target),
{
    one(u3(radians(HALF_PI_BITS), radians(ZERO_BITS), radians(PI_BITS), target))
}

/// Decomposes `X` into `U3(pi, 0, pi)`.
pub fn decompose_x(target: usize) -> (r: Vec<DecomposedGate>)
    ensures
        r@ == x_spec(target),
{
    one(u3(radians(PI_BITS), radians(ZERO_BITS), radians(PI_BITS), target))
}

/// Decomposes `Y` into `U3(pi, pi/2, pi/2)`.
pub fn decompose_y(target: usize) -> (r: Vec<DecomposedGate>)
    ensures
        r@ == y_spec(target),
{
    one(u3(radians(PI_BITS), radians(HALF_PI_BITS), radians(HALF_PI_BITS), target))
}

/// Decomposes `Z` into `U3(0, 0, pi)`.
pub fn decompose_z(target: usize) -> (r: Vec<DecomposedGate>)
    ensures
        r@ == z_spec(target),
{
    one(u3(radians(ZERO_BITS), radians(ZERO_BITS), radians(PI_BITS), target))
}

/// Decomposes `T` into `U3(0, 0, pi/4)`.
pub fn decompose_t(target: usize) -> (r: Vec<DecomposedGate>)
    ensures
        r@ == t_spec(target),
{
    one(u3(radians(ZERO_BITS), radians(ZERO_BITS), radians(QUARTER_PI_BITS), target))
}

/// Decomposes `T-dagger` into `U3(0, 0, -pi/4)`.
pub fn decompose_tdg(target: usize) -> (r: Vec<DecomposedGate>)
    ensures
        r@ == tdg_spec(target),
{
    one(u3(radians(ZERO_BITS), radians(ZERO_BITS), radians(NEG_QUARTER_PI_BITS), target))
}

/// Decomposes `RZ(angle)` into `U3(0, 0, angle)`.
pub fn decompose_rz(angle: Angle, target: usize) -> (r: Vec<DecomposedGate>)
    ensures
        r@ == rz_spec(angle, target),
{
    one(u3(radians(ZERO_BITS), radians(ZERO_BITS), angle, target))
}

/// Decomposes `RX(angle)` into `U3(angle, -pi/2, pi/2)`.
pub fn decompose_rx(angle: Angle, target: usize) -> (r: Vec<DecomposedGate>)
    ensures
        r@ == rx_spec(angle, target),
{
    one(u3(angle, radians(NEG_HALF_PI_BITS), radians(HALF_PI_BITS), target))
}

/// Decomposes `RY(angle)` into `U3(angle, 0, 0)`.
pub fn decompose_ry(angle: Angle, target: usize) -> (r: Vec<DecomposedGate>)
    ensures
        r@ == ry_spec(angle, target),
{
    one(u3(angle, radians(ZERO_BITS), radians(ZERO_BITS), target))
}

/// Decomposes `SWAP` into three CX: `CX(a,b) CX(b,a) CX(a,b)`.
pub fn decompose_swap(q1: usize, q2: usize) -> (r: Vec<DecomposedGate>)
    ensures
        r@ == swap_spec(q1, q2),
{
    let mut v: Vec<DecomposedGate> = Vec::new();
    v.push(cx(q1, q2));
    v.push(cx(q2, q1));
    v.push(cx(q1, q2));
    assert(v@ =~= swap_spec(q1, q2));
    v
}

fn append_gates(dst: &mut Vec<DecomposedGate>, src: Vec<DecomposedGate>)
    ensures
        final(dst)@ == old(dst)@ + src@,
{
    let mut s = src;
    dst.append(&mut s);
}

/// Decomposes `CZ` into `H(t) CX(c,t) H(t)`.
pub fn decompose_cz(control: usize, target: usize) -> (r: Vec<DecomposedGate>)
    ensures
        r@ == cz_spec(control, target),
{
    let mut g = decompose_h(target);
    g.push(cx(control, target));
    append_gates(&mut g, decompose_h(target));
    assert(g@ =~= cz_spec(control, target));
    g
}

/// Decomposes the Toffoli gate (CCX) into the standard sequence with six CX.
pub fn decompose_toffoli(c1: usize, c2: usize, target: usize) -> (r: Vec<DecomposedGate>)
    ensures
        r@ == toffoli_spec(c1, c2, target),
{
    let mut g: Vec<DecomposedGate> = Vec::new();
    append_gates(&mut g, decompose_h(target));
    g.push(cx(c2, target));
    append_gates(&mut g, decompose_tdg(target));
    g.push(cx(c1, target));
    append_gates(&mut g, decompose_t(target));
    g.push(cx(c2, target));
    append_gates(&mut g, decompose_tdg(target));
    g.push(cx(c1, target));
    append_gates(&mut g, decompose_t(c2));
    append_gates(&mut g, decompose_t(target));
    g.push(cx(c1, c2));
    append_gates(&mut g, decompose_h(target));
    append_gates(&mut g, decompose_t(c1));
    append_gates(&mut g, decompose_tdg(c2));
    g.push(cx(c1, c2));
    assert(g@ =~= toffoli_spec(c1, c2, target));
    g
}

fn decompose_controlled(controls: &Vec<usize>, target: usize, gate: &IStruct) -> (r: Vec<DecomposedGate>)
    ensures
        r@ == controlled_spec(controls@, target, gate@),
{
    let n = controls.len();
    match gate {
        IStruct::X(_) => {
            if n == 1 {
                let mut v: Vec<DecomposedGate> = Vec::new();
                v.push(cx(controls[0], target));
                assert(v@ =~= seq![cx_spec(controls@[0], target)]);
                return v;
            } else if n == 2 {
                return decompose_toffoli(controls[0], controls[1], target);
            }
        },
        IStruct::Z(_) => {
            if n == 1 {
                return decompose_cz(controls[0], target);
            }
        },
        _ => {},
    }
    Vec::new()
}

fn remap_gate(gate: DecomposedGate, position: &Vec<usize>) -> (r: DecomposedGate)
    requires
        gate_below(gate, position@.len()),
    ensures
        r == remap_spec(gate, position@),
{
    match gate {
        DecomposedGate::U3(u) => DecomposedGate::U3(
            U3Gate { theta: u.theta, phi: u.phi, lambda: u.lambda, target: position[u.target] },
        ),
        DecomposedGate::CX(c) => DecomposedGate::CX(
            CXGate { control: position[c.control], target: position[c.target] },
        ),
        DecomposedGate::Measure(m) => DecomposedGate::Measure(
            MeasureGate { qubit: position[m.qubit], clbit: m.clbit },
        ),
    }
}

fn decompose_one(instruction: &IStruct) -> (r: Vec<DecomposedGate>)
    requires
        decomposable_op(instruction@),
    ensures
        r@ == decompose_op(instruction@),
    decreases instruction,
{
    match instruction {
        IStruct::H(q) => decompose_h(*q),
        IStruct::X(q) => decompose_x(*q),
        IStruct::Y(q) => decompose_y(*q),
        IStruct::Z(q) => decompose_z(*q),
        IStruct::CX { control, target } => one(cx(*control, *target)),
        IStruct::CZ { control, target } => decompose_cz(*control, *target),
        IStruct::SWAP { qbit1, qbit2 } => decompose_swap(*qbit1, *qbit2),
        IStruct::RZ { angle, target } => decompose_rz(angle.copy(), *target),
        IStruct::RX { angle, target } => decompose_rx(angle.copy(), *target),
        IStruct::RY { angle, target } => decompose_ry(angle.copy(), *target),
        IStruct::CONTROLLED { controls, target, gate } => decompose_controlled(controls, *target, gate),
        IStruct::GATE { position, instruction: body, .. } => {
            let inner = decompose_list(body);
            let ghost body_ops = IStruct::models(body@);
            let mut out: Vec<DecomposedGate> = Vec::new();
            let mut i: usize = 0;
            while i < inner.len()
                invariant
                    i <= inner@.len(),
                    inner@ == decompose_ops(body_ops),
                    gates_below(inner@, position@.len()),
                    out@ == inner@.take(i as int).map_values(|g: DecomposedGate| remap_spec(g, position@)),
                decreases inner@.len() - i,
            {
                let g = inner[i].copy();
                assert(gate_below(inner@[i as int], position@.len()));
                out.push(remap_gate(g, position));
                i += 1;
                assert(out@ =~= inner@.take(i as int).map_values(|g: DecomposedGate| remap_spec(g, position@)));
            }
            assert(inner@.take(i as int) =~= inner@);
            out
        },
        IStruct::MEASURE(q_bits, cl_bits) => {
            let mut out: Vec<DecomposedGate> = Vec::new();
            let mut i: usize = 0;
            while i < q_bits.len() && i < cl_bits.len()
                invariant
                    i <= q_bits@.len(),
                    i <= cl_bits@.len(),
                    out@ == measure_spec(q_bits@, cl_bits@).take(i as int),
                decreases q_bits@.len() - i,
            {
                out.push(DecomposedGate::Measure(MeasureGate { qubit: q_bits[i], clbit: cl_bits[i] }));
                i += 1;
                assert(out@ =~= measure_spec(q_bits@, cl_bits@).take(i as int));
            }
            assert(measure_spec(q_bits@, cl_bits@).take(i as int) =~= measure_spec(q_bits@, cl_bits@));
            out
        },
        IStruct::U { .. } => Vec::new(),
        IStruct::ANY() => Vec::new(),
    }
}

fn decompose_list(list: &Vec<Box<IStruct>>) -> (r: Vec<DecomposedGate>)
    requires
        decomposable_ops(IStruct::models(list@)),
    ensures
        r@ == decompose_ops(IStruct::models(list@)),
    decreases list,
{
    let ghost ops = IStruct::models(list@);
    proof {
        IStruct::lemma_models(list@);
    }
    let mut out: Vec<DecomposedGate> = Vec::new();
    let mut i: usize = 0;
    while i < list.len()
        invariant
            i <= list@.len(),
            ops == IStruct::models(list@),
            ops.len() == list@.len(),
            forall|j: int| 0 <= j < list@.len() ==> #[trigger] ops[j] == list@[j].model(),
            decomposable_ops(ops),
            out@ == decompose_ops(ops.take(i as int)),
        decreases list@.len() - i,
    {
        proof {
            vstd::std_specs::vec::axiom_vec_index_decreases(*list, i as int);
            lemma_decomposable_prefix(ops, i as int + 1);
            assert(ops.take(i + 1).drop_last() =~= ops.take(i as int));
            assert(ops.take(i + 1).last() == ops[i as int]);
        }
        let g = decompose_one(&list[i]);
        append_gates(&mut out, g);
        i += 1;
    }
    assert(ops.take(i as int) =~= ops);
    out
}

/// A prefix of a decomposable list is decomposable, and so is each element.
pub proof fn lemma_decomposable_prefix(ops: Seq<Op>, k: int)
    requires
        decomposable_ops(ops),
        0 <= k <= ops.len(),
    ensures
        decomposable_ops(ops.take(k)),
        k > 0 ==> decomposable_op(ops[k - 1]),
    decreases ops.len(),
{
    if k < ops.len() {
        assert(ops.drop_last().take(k) =~= ops.take(k));
        lemma_decomposable_prefix(ops.drop_last(), k);
        if k > 0 {
            assert(ops.drop_last()[k - 1] == ops[k - 1]);
        }
    } else {
        assert(ops.take(k) =~= ops);
    }
}

/// Decomposes a list of instructions into `U3`, `CX` and measurements.
///
/// Composite gates are decomposed recursively and their gates renamed from
/// local indices to their composite gate's positions. Matrix gates and unsupported
/// controlled gates give nothing.
pub fn decompose(instructions: &[IStruct]) -> (r: Vec<DecomposedGate>)
    requires
        decomposable_ops(instructions@.map_values(|i: IStruct| i@)),
    ensures
        r@ == decompose_ops(instructions@.map_values(|i: IStruct| i@)),
{
    let ghost ops = instructions@.map_values(|i: IStruct| i@);
    let mut out: Vec<DecomposedGate> = Vec::new();
    let mut i: usize = 0;
    while i < instructions.len()
        invariant
            i <= instructions@.len(),
            ops == instructions@.map_values(|i: IStruct| i@),
            decomposable_ops(ops),
            out@ == decompose_ops(ops.take(i as int)),
        decreases instructions@.len() - i,
    {
        proof {
            lemma_decomposable_prefix(ops, i as int + 1);
            assert(ops.take(i + 1).drop_last() =~= ops.take(i as int));
            assert(ops.take(i + 1).last() == ops[i as int]);
        }
        let g = decompose_one(&instructions[i]);
        append_gates(&mut out, g);
        i += 1;
    }
    assert(ops.take(i as int) =~= ops);
    out
}

/// The text of a CX between physical qubits `c` and `t` for the backend's
/// native two-qubit gate.
pub open spec fn cx_text(tq: TwoQubitGate, c: nat, t: nat) -> Seq<char> {
    let c = decimal(c);
    let t = decimal(t);
    match tq {
        TwoQubitGate::CX => "cx $"@ + c + ", $"@ + t + ";"@,
        TwoQubitGate::CZ => "rz(pi/2) $"@ + t + ";\nsx $"@ + t + ";\nrz(pi/2) $"@ + t + ";\ncz $"@ + c + ", $"@ + t
            + ";\nrz(pi/2) $"@ + t + ";\nsx $"@ + t + ";\nrz(pi/2) $"@ + t + ";"@,
        TwoQubitGate::ECR => "rz(-pi/2) $"@ + c + ";\nsx $"@ + c + ";\nrz(pi/2) $"@ + t + ";\necr $"@ + c + ", $"@ + t
            + ";\nsx $"@ + t + ";"@,
    }
}

/// The QASM of a decomposed gate, its qubits read through `layout`:
/// `U3(theta, phi, lambda)` is written `rz(lambda) sx rz(theta + pi) sx rz(phi)`.
pub open spec fn gate_qasm(g: DecomposedGate, layout: Seq<u32>, tq: TwoQubitGate) -> Seq<PieceModel> {
    match g {
        DecomposedGate::U3(u) => {
            let p = decimal(layout[u.target as int] as nat);
            seq![
                text("rz("@),
                PieceModel::Fixed(u.lambda),
                text(") $"@ + p + ";\nsx $"@ + p + ";\nrz("@),
                PieceModel::FixedPlusPi(u.theta),
                text(") $"@ + p + ";\nsx $"@ + p + ";\nrz("@),
                PieceModel::Fixed(u.phi),
                text(") $"@ + p + ";"@),
            ]
        },
        DecomposedGate::CX(c) => seq![
            text(cx_text(tq, layout[c.control as int] as nat, layout[c.target as int] as nat)),
        ],
        DecomposedGate::Measure(m) => seq![
            text("c["@ + decimal(m.clbit as nat) + "] = measure $"@ + decimal(layout[m.qubit as int] as nat) + ";"@),
        ],
    }
}

/// The header that the backend's native two-qubit gate needs: a definition
/// of `ecr`, which `stdgates.inc` lacks.
pub open spec fn extra_header_text(tq: TwoQubitGate) -> Seq<char> {
    match tq {
        TwoQubitGate::ECR => "gate ecr q0, q1 { rzx(pi/4) q0, q1; x q0; rzx(-pi/4) q0, q1; }\n"@,
        _ => ""@,
    }
}

/// `") $p;\nsx $p;\nrz("`.
fn sx_between(p: u32) -> (r: String)
    ensures
        r@ == ") $"@ + decimal(p as nat) + ";\nsx $"@ + decimal(p as nat) + ";\nrz("@,
{
    let mut s = String::new();
    push_str(&mut s, ") $");
    push_decimal(&mut s, p as u64);
    push_str(&mut s, ";\nsx $");
    push_decimal(&mut s, p as u64);
    push_str(&mut s, ";\nrz(");
    assert(s@ =~= ") $"@ + decimal(p as nat) + ";\nsx $"@ + decimal(p as nat) + ";\nrz("@);
    s
}

fn cx_string(tq: TwoQubitGate, c: u32, t: u32) -> (r: String)
    ensures
        r@ == cx_text(tq, c as nat, t as nat),
{
    let mut s = String::new();
    match tq {
        TwoQubitGate::CX => {
            push_str(&mut s, "cx $");
            push_decimal(&mut s, c as u64);
            push_str(&mut s, ", $");
            push_decimal(&mut s, t as u64);
            push_str(&mut s, ";");
        },
        TwoQubitGate::CZ => {
            push_str(&mut s, "rz(pi/2) $");
            push_decimal(&mut s, t as u64);
            push_str(&mut s, ";\nsx $");
            push_decimal(&mut s, t as u64);
            push_str(&mut s, ";\nrz(pi/2) $");
            push_decimal(&mut s, t as u64);
            push_str(&mut s, ";\ncz $");
            push_decimal(&mut s, c as u64);
            push_str(&mut s, ", $");
            push_decimal(&mut s, t as u64);
            push_str(&mut s, ";\nrz(pi/2) $");
            push_decimal(&mut s, t as u64);
            push_str(&mut s, ";\nsx $");
            push_decimal(&mut s, t as u64);
            push_str(&mut s, ";\nrz(pi/2) $");
            push_decimal(&mut s, t as u64);
            push_str(&mut s, ";");
        },
        TwoQubitGate::ECR => {
            push_str(&mut s, "rz(-pi/2) $");
            push_decimal(&mut s, c as u64);
            push_str(&mut s, ";\nsx $");
            push_decimal(&mut s, c as u64);
            push_str(&mut s, ";\nrz(pi/2) $");
            push_decimal(&mut s, t as u64);
            push_str(&mut s, ";\necr $");
            push_decimal(&mut s, c as u64);
            push_str(&mut s, ", $");
            push_decimal(&mut s, t as u64);
            push_str(&mut s, ";\nsx $");
            push_decimal(&mut s, t as u64);
            push_str(&mut s, ";");
        },
    }
    assert(s@ =~= cx_text(tq, c as nat, t as nat));
    s
}

impl DecomposedGate {
    /// The QASM of this gate, its qubits read through `layout` and a CX
    /// written with the backend's native two-qubit gate.
    pub fn to_qasm(&self, layout: &[u32], two_qubit: &TwoQubitGate) -> (r: Vec<Piece>)
        requires
            gate_below(*self, layout@.len()),
        ensures
            pieces(r@) == gate_qasm(*self, layout@, *two_qubit),
    {
        let mut out: Vec<Piece> = Vec::new();
        match self {
            DecomposedGate::U3(u) => {
                let p = layout[u.target];
                let mut last = String::new();
                push_str(&mut last, ") $");
                push_decimal(&mut last, p as u64);
                push_str(&mut last, ";");
                push_piece(&mut out, Piece::Text("rz(".to_owned()));
                push_piece(&mut out, Piece::Fixed(u.lambda.copy()));
                push_piece(&mut out, Piece::Text(sx_between(p)));
                push_piece(&mut out, Piece::FixedPlusPi(u.theta.copy()));
                push_piece(&mut out, Piece::Text(sx_between(p)));
                push_piece(&mut out, Piece::Fixed(u.phi.copy()));
                push_piece(&mut out, Piece::Text(last));
                assert(pieces(out@) =~= gate_qasm(*self, layout@, *two_qubit));
            },
            DecomposedGate::CX(cx) => {
                let c = layout[cx.control];
                let t = layout[cx.target];
                push_piece(&mut out, Piece::Text(cx_string(*two_qubit, c, t)));
                assert(pieces(out@) =~= gate_qasm(*self, layout@, *two_qubit));
            },
            DecomposedGate::Measure(m) => {
                let p = layout[m.qubit];
                let mut s = String::new();
                push_str(&mut s, "c[");
                push_decimal(&mut s, m.clbit as u64);
                push_str(&mut s, "] = measure $");
                push_decimal(&mut s, p as u64);
                push_str(&mut s, ";");
                push_piece(&mut out, Piece::Text(s));
                assert(pieces(out@) =~= gate_qasm(*self, layout@, *two_qubit));
            },
        }
        out
    }

    /// The header that the native two-qubit gate needs, empty but for ECR.
    pub fn extra_header(two_qubit: &TwoQubitGate) -> (r: &'static str)
        ensures
            r@ == extra_header_text(*two_qubit),
    {
        match two_qubit {
            TwoQubitGate::ECR => "gate ecr q0, q1 { rzx(pi/4) q0, q1; x q0; rzx(-pi/4) q0, q1; }\n",
            _ => "",
        }
    }
}

/// The decomposition of an instruction that names qubits below `n` acts on
/// qubits below `n`.
pub proof fn lemma_decompose_op_below(op: Op, n: nat)
    requires
        op.qubits_below(n),
        decomposable_op(op),
    ensures
        gates_below(decompose_op(op), n),
{
    match op {
        Op::Controlled { controls, target, gate } => {
            if controls.len() >= 1 {
                assert(controls[0] < n);
            }
            if controls.len() >= 2 {
                assert(controls[1] < n);
            }
        },
        Op::Gate { position, body, .. } => {
            let d = decompose_ops(body);
            assert forall|i: int| 0 <= i < decompose_op(op).len() implies gate_below(#[trigger] decompose_op(op)[i], n) by {
                assert(gate_below(d[i], position.len()));
                match d[i] {
                    DecomposedGate::U3(u) => assert(position[u.target as int] < n),
                    DecomposedGate::CX(c) => {
                        assert(position[c.control as int] < n);
                        assert(position[c.target as int] < n);
                    },
                    DecomposedGate::Measure(m) => assert(position[m.qubit as int] < n),
                }
            }
        },
        Op::Measure { qubits, clbits } => {
            assert forall|i: int| 0 <= i < decompose_op(op).len() implies gate_below(#[trigger] decompose_op(op)[i], n) by {
                assert(qubits[i] < n);
            }
        },
        _ => {},
    }
}

/// The decomposition of instructions that name qubits below `n` acts on
/// qubits below `n`.
pub proof fn lemma_decompose_below(ops: Seq<Op>, n: nat)
    requires
        forall|i: int| 0 <= i < ops.len() ==> (#[trigger] ops[i]).qubits_below(n),
        decomposable_ops(ops),
    ensures
        gates_below(decompose_ops(ops), n),
    decreases ops.len(),
{
    if ops.len() > 0 {
        let rest = ops.drop_last();
        assert forall|i: int| 0 <= i < rest.len() implies (#[trigger] rest[i]).qubits_below(n) by {
            assert(rest[i] == ops[i]);
        }
        lemma_decompose_below(rest, n);
        assert(ops.last() == ops[ops.len() - 1]);
        lemma_decompose_op_below(ops.last(), n);
        let a = decompose_ops(rest);
        let b = decompose_op(ops.last());
        assert forall|i: int| 0 <= i < (a + b).len() implies gate_below(#[trigger] (a + b)[i], n) by {
            if i < a.len() {
                assert((a + b)[i] == a[i]);
            } else {
                assert((a + b)[i] == b[i - a.len()]);
            }
        }
    }
}

/// An empty list decomposes into nothing, and decomposing a concatenation
/// gives the decompositions of its two parts, one after the other.
pub proof fn lemma_decompose_concat(a: Seq<Op>, b: Seq<Op>)
    ensures
        decompose_ops(Seq::<Op>::empty()) == Seq::<DecomposedGate>::empty(),
        decompose_ops(a + b) == decompose_ops(a) + decompose_ops(b),
    decreases b.len(),
{
    if b.len() == 0 {
        assert(a + b =~= a);
        assert(decompose_ops(a) + decompose_ops(b) =~= decompose_ops(a));
    } else {
        lemma_decompose_concat(a, b.drop_last());
        assert((a + b).drop_last() =~= a + b.drop_last());
        assert((a + b).last() == b.last());
        let da = decompose_ops(a);
        let db = decompose_ops(b.drop_last());
        let dl = decompose_op(b.last());
        assert(da + db + dl =~= da + (db + dl));
    }
}

/// A composite gate on its own decomposes into the decomposition of its
/// body, with every qubit index `i` of the body replaced by `position[i]`.
pub proof fn lemma_decompose_gate(position: Seq<usize>, body: Seq<Op>, label: Seq<char>)
    ensures
        decompose_ops(seq![Op::Gate { position, body, label }]) == decompose_ops(body).map_values(
            |g: DecomposedGate| remap_spec(g, position),
        ),
{
    let ops = seq![Op::Gate { position, body, label }];
    assert(ops.drop_last() =~= Seq::<Op>::empty());
    assert(ops.last() == Op::Gate { position, body, label });
    let d = decompose_op(Op::Gate { position, body, label });
    let m = decompose_ops(body).map_values(|g: DecomposedGate| remap_spec(g, position));
    assert(d =~= m);
    assert(decompose_ops(ops.drop_last()) == Seq::<DecomposedGate>::empty());
    assert(decompose_ops(ops) == decompose_ops(ops.drop_last()) + d);
    assert(Seq::<DecomposedGate>::empty() + d =~= m);
}

} // verus!
