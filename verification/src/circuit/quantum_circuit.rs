use vstd::prelude::*;
use crate::instruction::i_struct::{all_below, all_lt, contains_index, copy_indices, Angle, IStruct, Op};
use crate::instruction::q_logic::QLogic;
use crate::instruction::to_gate::{label_model, ToGate};

verus! {

/// The message of a successful addition.
pub const INSTRUCTION_ADDED: &'static str = "Instruction succesfully added";

/// The gates named in error messages.
#[derive(Debug, Clone, Copy, PartialEq, Eq, Structural)]
pub enum GateName {
    H,
    X,
    Y,
    Z,
    CX,
    SWAP,
    RZ,
    RY,
    RX,
}

/// Why a circuit operation was refused.
#[derive(Debug, Clone, Copy, PartialEq, Eq, Structural)]
pub enum CircuitError {
    /// A gate named a qubit that the circuit does not have.
    NonexistentQubits(GateName),
    /// A two-qubit gate named the same qubit twice.
    SameQubits(GateName),
    /// A controlled gate named a qubit that the circuit does not have.
    ControlledNonexistent,
    /// The target of a controlled gate is among its controls.
    ControlIsTarget,
    /// A gate does not fit the circuit.
    GateDoesNotFit,
    /// A measurement named a qubit or classical bit that does not exist.
    MeasureNonexistent,
    /// A measurement listed different numbers of qubits and classical bits.
    MeasureSizeMismatch,
    /// A qubit mapping was not a mapping of the circuit's qubits.
    InvalidMapping,
    /// A matrix was not square with a power-of-two side.
    NotUnitaryShape,
    /// A matrix was not unitary.
    NotUnitary,
}

impl CircuitError {
    /// The text of the error.
    pub open spec fn text(&self) -> Seq<char> {
        match *self {
            CircuitError::NonexistentQubits(g) => match g {
                GateName::H => "tried to apply H gate to non existent qbits.\n"@,
                GateName::X => "tried to apply X gate to non existent qbits.\n"@,
                GateName::Y => "tried to apply Y gate to non existent qbits.\n"@,
                GateName::Z => "tried to apply Z gate to non existent qbits.\n"@,
                GateName::CX => "tried to apply cx gate to non existent qbits.\n"@,
                GateName::SWAP => "tried to apply swap gate to non existent qbits.\n"@,
                GateName::RZ => "tried to apply RZ gate to non existent qbits.\n"@,
                GateName::RY => "tried to apply RY gate to non existent qbits.\n"@,
                GateName::RX => "tried to apply RX gate to non existent qbits.\n"@,
            },
            CircuitError::SameQubits(g) => match g {
                GateName::SWAP => "tried to apply swap gate to same qbits.\n"@,
                _ => "tried to apply cx gate to same qbits.\n"@,
            },
            CircuitError::ControlledNonexistent => "tried to apply controlled gate to non existent qbits.\n"@,
            CircuitError::ControlIsTarget => "control qubits cannot include the target qubit.\n"@,
            CircuitError::GateDoesNotFit => "tried to apply a gate that doesn't fit the circuit.\n"@,
            CircuitError::MeasureNonexistent => "tried to apply measure to non existent qbits or clbits.\n"@,
            CircuitError::MeasureSizeMismatch => "tried to apply measure with different number of qbits and clbits.\n"@,
            CircuitError::InvalidMapping => "tried to remap with invalid mapping.\n"@,
            CircuitError::NotUnitaryShape => "Error: Tried to apply a non unitary quantique matrice"@,
            CircuitError::NotUnitary => "Error: tried to apply U gate that is not unitary.\n"@,
        }
    }

    /// The text of the error.
    pub fn message(&self) -> (r: &'static str)
        ensures
            r@ == self.text(),
    {
        match *self {
            CircuitError::NonexistentQubits(g) => match g {
                GateName::H => "tried to apply H gate to non existent qbits.\n",
                GateName::X => "tried to apply X gate to non existent qbits.\n",
                GateName::Y => "tried to apply Y gate to non existent qbits.\n",
                GateName::Z => "tried to apply Z gate to non existent qbits.\n",
                GateName::CX => "tried to apply cx gate to non existent qbits.\n",
                GateName::SWAP => "tried to apply swap gate to non existent qbits.\n",
                GateName::RZ => "tried to apply RZ gate to non existent qbits.\n",
                GateName::RY => "tried to apply RY gate to non existent qbits.\n",
                GateName::RX => "tried to apply RX gate to non existent qbits.\n",
            },
            CircuitError::SameQubits(g) => match g {
                GateName::SWAP => "tried to apply swap gate to same qbits.\n",
                _ => "tried to apply cx gate to same qbits.\n",
            },
            CircuitError::ControlledNonexistent => "tried to apply controlled gate to non existent qbits.\n",
            CircuitError::ControlIsTarget => "control qubits cannot include the target qubit.\n",
            CircuitError::GateDoesNotFit => "tried to apply a gate that doesn't fit the circuit.\n",
            CircuitError::MeasureNonexistent => "tried to apply measure to non existent qbits or clbits.\n",
            CircuitError::MeasureSizeMismatch => "tried to apply measure with different number of qbits and clbits.\n",
            CircuitError::InvalidMapping => "tried to remap with invalid mapping.\n",
            CircuitError::NotUnitaryShape => "Error: Tried to apply a non unitary quantique matrice",
            CircuitError::NotUnitary => "Error: tried to apply U gate that is not unitary.\n",
        }
    }
}

/// A quantum circuit: a number of qubits, a number of classical bits, and a
/// list of instructions.
pub struct QuantumCircuit {
    qubits: usize,
    clbits: usize,
    instructions: Vec<IStruct>,
}

/// The model of a circuit.
pub struct CircuitModel {
    /// Number of qubits.
    pub qubits: nat,
    /// Number of classical bits.
    pub clbits: nat,
    /// The instructions, in order.
    pub ops: Seq<Op>,
}

/// The models of a list of instructions.
pub open spec fn ops_of(s: Seq<IStruct>) -> Seq<Op> {
    s.map_values(|i: IStruct| i@)
}

impl View for QuantumCircuit {
    type V = CircuitModel;

    closed spec fn view(&self) -> CircuitModel {
        CircuitModel {
            qubits: self.qubits as nat,
            clbits: self.clbits as nat,
            ops: ops_of(self.instructions@),
        }
    }
}

/// Every instruction names only existing qubits and classical bits.
pub open spec fn ops_within(ops: Seq<Op>, qubits: nat, clbits: nat) -> bool {
    forall|i: int| 0 <= i < ops.len() ==> (#[trigger] ops[i]).qubits_below(qubits) && ops[i].clbits_below(clbits)
}

/// The success result of an addition.
pub open spec fn added(r: Result<&'static str, CircuitError>) -> bool {
    r is Ok && r->Ok_0@ == INSTRUCTION_ADDED@
}

/// The outcome of adding `op` when `ok` holds, or failing with `err`.
pub open spec fn push_outcome(
    old_c: CircuitModel,
    new_c: CircuitModel,
    r: Result<&'static str, CircuitError>,
    ok: bool,
    err: CircuitError,
    op: Op,
) -> bool {
    &&& new_c.qubits == old_c.qubits
    &&& new_c.clbits == old_c.clbits
    &&& if ok {
        added(r) && new_c.ops == old_c.ops.push(op)
    } else {
        r == Err::<&'static str, CircuitError>(err) && new_c.ops == old_c.ops
    }
}

impl QuantumCircuit {
    /// Every instruction names only qubits and classical bits of the circuit.
    pub open spec fn wf(&self) -> bool {
        ops_within(self@.ops, self@.qubits, self@.clbits)
    }

    /// An empty circuit with `q_bits` qubits and `cl_bits` classical bits.
    pub fn new(q_bits: usize, cl_bits: usize) -> (r: QuantumCircuit)
        ensures
            r@.qubits == q_bits,
            r@.clbits == cl_bits,
            r@.ops == Seq::<Op>::empty(),
            r.wf(),
    {
        let r = QuantumCircuit { qubits: q_bits, clbits: cl_bits, instructions: Vec::new() };
        assert(r@.ops =~= Seq::<Op>::empty());
        r
    }

    /// The number of qubits.
    pub fn get_q_bits(&self) -> (r: usize)
        ensures
            r == self@.qubits,
    {
        self.qubits
    }

    /// The instructions.
    pub fn get_instructions(&self) -> (r: &Vec<IStruct>)
        ensures
            ops_of(r@) == self@.ops,
    {
        &self.instructions
    }

    /// The number of classical bits.
    pub fn get_cl_bits(&self) -> (r: usize)
        ensures
            r == self@.clbits,
    {
        self.clbits
    }

    proof fn lemma_push(&self, i: IStruct)
        ensures
            ops_of(self.instructions@.push(i)) == ops_of(self.instructions@).push(i@),
    {
        assert(ops_of(self.instructions@.push(i)) =~= ops_of(self.instructions@).push(i@));
    }

    fn add(&mut self, i: IStruct)
        ensures
            final(self)@.qubits == old(self)@.qubits,
            final(self)@.clbits == old(self)@.clbits,
            final(self)@.ops == old(self)@.ops.push(i@),
            old(self).wf() && i@.qubits_below(old(self)@.qubits) && i@.clbits_below(old(self)@.clbits)
                ==> final(self).wf(),
    {
        proof {
            self.lemma_push(i);
        }
        self.instructions.push(i);
        assert(old(self).wf() && i@.qubits_below(old(self)@.qubits) && i@.clbits_below(old(self)@.clbits)
            ==> ops_within(self@.ops, self@.qubits, self@.clbits)) by {
            if old(self).wf() && i@.qubits_below(old(self)@.qubits) && i@.clbits_below(old(self)@.clbits) {
                assert forall|k: int| 0 <= k < self@.ops.len() implies (#[trigger] self@.ops[k]).qubits_below(
                    self@.qubits,
                ) && self@.ops[k].clbits_below(self@.clbits) by {
                    if k < old(self)@.ops.len() {
                        assert(self@.ops[k] == old(self)@.ops[k]);
                    }
                }
            }
        }
    }

    /// Applies a Hadamard gate to qubit `e`.
    pub fn h(&mut self, e: usize) -> (r: Result<&'static str, CircuitError>)
        ensures
            push_outcome(old(self)@, final(self)@, r, e < old(self)@.qubits,
                CircuitError::NonexistentQubits(GateName::H), Op::H(e)),
            old(self).wf() ==> final(self).wf(),
    {
        if e >= self.qubits {
            Err(CircuitError::NonexistentQubits(GateName::H))
        } else {
            self.add(IStruct::H(e));
            Ok(INSTRUCTION_ADDED)
        }
    }

    /// Applies a Pauli-X gate to qubit `e`.
    pub fn x(&mut self, e: usize) -> (r: Result<&'static str, CircuitError>)
        ensures
            push_outcome(old(self)@, final(self)@, r, e < old(self)@.qubits,
                CircuitError::NonexistentQubits(GateName::X), Op::X(e)),
            old(self).wf() ==> final(self).wf(),
    {
        if e >= self.qubits {
            Err(CircuitError::NonexistentQubits(GateName::X))
        } else {
            self.add(IStruct::X(e));
            Ok(INSTRUCTION_ADDED)
        }
    }

    /// Applies a CNOT with the given control and target qubits.
    pub fn cx(&mut self, control: usize, target: usize) -> (r: Result<&'static str, CircuitError>)
        ensures
            final(self)@.qubits == old(self)@.qubits,
            final(self)@.clbits == old(self)@.clbits,
            control >= old(self)@.qubits || target >= old(self)@.qubits ==> r == Err::<&'static str, CircuitError>(
                CircuitError::NonexistentQubits(GateName::CX),
            ) && final(self)@.ops == old(self)@.ops,
            control < old(self)@.qubits && target < old(self)@.qubits && control == target ==> r == Err::<
                &'static str,
                CircuitError,
            >(CircuitError::SameQubits(GateName::CX)) && final(self)@.ops == old(self)@.ops,
            control < old(self)@.qubits && target < old(self)@.qubits && control != target ==> added(r)
                && final(self)@.ops == old(self)@.ops.push(Op::CX { control, target }),
            old(self).wf() ==> final(self).wf(),
    {
        if control >= self.qubits || target >= self.qubits {
            Err(CircuitError::NonexistentQubits(GateName::CX))
        } else if control == target {
            Err(CircuitError::SameQubits(GateName::CX))
        } else {
            self.add(IStruct::CX { control, target });
            Ok(INSTRUCTION_ADDED)
        }
    }

    /// Applies a Pauli-Y gate to qubit `e`.
    pub fn y(&mut self, e: usize) -> (r: Result<&'static str, CircuitError>)
        ensures
            push_outcome(old(self)@, final(self)@, r, e < old(self)@.qubits,
                CircuitError::NonexistentQubits(GateName::Y), Op::Y(e)),
            old(self).wf() ==> final(self).wf(),
    {
        if e >= self.qubits {
            Err(CircuitError::NonexistentQubits(GateName::Y))
        } else {
            self.add(IStruct::Y(e));
            Ok(INSTRUCTION_ADDED)
        }
    }

    /// Applies a Pauli-Z gate to qubit `e`.
    pub fn z(&mut self, e: usize) -> (r: Result<&'static str, CircuitError>)
        ensures
            push_outcome(old(self)@, final(self)@, r, e < old(self)@.qubits,
                CircuitError::NonexistentQubits(GateName::Z), Op::Z(e)),
            old(self).wf() ==> final(self).wf(),
    {
        if e >= self.qubits {
            Err(CircuitError::NonexistentQubits(GateName::Z))
        } else {
            self.add(IStruct::Z(e));
            Ok(INSTRUCTION_ADDED)
        }
    }

    /// Exchanges two qubits.
    pub fn swap(&mut self, qbit1: usize, qbit2: usize) -> (r: Result<&'static str, CircuitError>)
        ensures
            final(self)@.qubits == old(self)@.qubits,
            final(self)@.clbits == old(self)@.clbits,
            qbit1 >= old(self)@.qubits || qbit2 >= old(self)@.qubits ==> r == Err::<&'static str, CircuitError>(
                CircuitError::NonexistentQubits(GateName::SWAP),
            ) && final(self)@.ops == old(self)@.ops,
            qbit1 < old(self)@.qubits && qbit2 < old(self)@.qubits && qbit1 == qbit2 ==> r == Err::<
                &'static str,
                CircuitError,
            >(CircuitError::SameQubits(GateName::SWAP)) && final(self)@.ops == old(self)@.ops,
            qbit1 < old(self)@.qubits && qbit2 < old(self)@.qubits && qbit1 != qbit2 ==> added(r)
                && final(self)@.ops == old(self)@.ops.push(Op::Swap { qbit1, qbit2 }),
            old(self).wf() ==> final(self).wf(),
    {
        if qbit1 >= self.qubits || qbit2 >= self.qubits {
            Err(CircuitError::NonexistentQubits(GateName::SWAP))
        } else if qbit1 == qbit2 {
            Err(CircuitError::SameQubits(GateName::SWAP))
        } else {
            self.add(IStruct::SWAP { qbit1, qbit2 });
            Ok(INSTRUCTION_ADDED)
        }
    }

    /// Applies a rotation around Z by `angle` to qubit `target`.
    pub fn rz(&mut self, angle: Angle, target: usize) -> (r: Result<&'static str, CircuitError>)
        ensures
            push_outcome(old(self)@, final(self)@, r, target < old(self)@.qubits,
                CircuitError::NonexistentQubits(GateName::RZ), Op::RZ { angle, target }),
            old(self).wf() ==> final(self).wf(),
    {
        if target >= self.qubits {
            Err(CircuitError::NonexistentQubits(GateName::RZ))
        } else {
            self.add(IStruct::RZ { angle, target });
            Ok(INSTRUCTION_ADDED)
        }
    }

    /// Applies a rotation around Y by `angle` to qubit `target`.
    pub fn ry(&mut self, angle: Angle, target: usize) -> (r: Result<&'static str, CircuitError>)
        ensures
            push_outcome(old(self)@, final(self)@, r, target < old(self)@.qubits,
                CircuitError::NonexistentQubits(GateName::RY), Op::RY { angle, target }),
            old(self).wf() ==> final(self).wf(),
    {
        if target >= self.qubits {
            Err(CircuitError::NonexistentQubits(GateName::RY))
        } else {
            self.add(IStruct::RY { angle, target });
            Ok(INSTRUCTION_ADDED)
        }
    }

    /// Applies a rotation around X by `angle` to qubit `target`.
    pub fn rx(&mut self, angle: Angle, target: usize) -> (r: Result<&'static str, CircuitError>)
        ensures
            push_outcome(old(self)@, final(self)@, r, target < old(self)@.qubits,
                CircuitError::NonexistentQubits(GateName::RX), Op::RX { angle, target }),
            old(self).wf() ==> final(self).wf(),
    {
        if target >= self.qubits {
            Err(CircuitError::NonexistentQubits(GateName::RX))
        } else {
            self.add(IStruct::RX { angle, target });
            Ok(INSTRUCTION_ADDED)
        }
    }

    /// Applies `gate` to `target` when all of `controls` are set.
    pub fn controlled(&mut self, controls: Vec<usize>, target: usize, gate: IStruct) -> (r: Result<&'static str, CircuitError>)
        ensures
            final(self)@.qubits == old(self)@.qubits,
            final(self)@.clbits == old(self)@.clbits,
            !(all_below(controls@, old(self)@.qubits) && target < old(self)@.qubits) ==> r == Err::<&'static str, CircuitError>(
                CircuitError::ControlledNonexistent,
            ) && final(self)@.ops == old(self)@.ops,
            all_below(controls@, old(self)@.qubits) && target < old(self)@.qubits && controls@.contains(target) ==> r
                == Err::<&'static str, CircuitError>(CircuitError::ControlIsTarget) && final(self)@.ops == old(self)@.ops,
            all_below(controls@, old(self)@.qubits) && target < old(self)@.qubits && !controls@.contains(target) ==> added(r)
                && final(self)@.ops == old(self)@.ops.push(Op::Controlled { controls: controls@, target, gate: Box::new(gate@) }),
            old(self).wf() ==> final(self).wf(),
    {
        if !all_lt(&controls, self.qubits) || target >= self.qubits {
            return Err(CircuitError::ControlledNonexistent);
        }
        if contains_index(&controls, target) {
            return Err(CircuitError::ControlIsTarget);
        }
        self.add(IStruct::CONTROLLED { controls, target, gate: Box::new(gate) });
        Ok(INSTRUCTION_ADDED)
    }

    /// Places `gate` on the qubits `position` (by default the first qubits, as
    /// many as it acts on), under an optional label.
    pub fn append<T: ToGate + QLogic>(&mut self, gate: &T, position: Option<Vec<usize>>, label: Option<String>) -> (r: Result<
        &Self,
        CircuitError,
    >)
        ensures
            final(self)@.qubits == old(self)@.qubits,
            final(self)@.clbits == old(self)@.clbits,
            ({
                let pos = position_or_default(position, gate.size());
                if all_below(pos, old(self)@.qubits) && gate.size() <= old(self)@.qubits && pos.len() <= gate.size() {
                    r is Ok && final(self)@.ops == old(self)@.ops.push(gate.gate_model(pos, label_model(label)))
                } else {
                    r == Err::<&Self, CircuitError>(CircuitError::GateDoesNotFit) && final(self)@.ops == old(self)@.ops
                }
            }),
            old(self).wf() ==> final(self).wf(),
    {
        let size = gate.get_size();
        let position = match position {
            Some(p) => p,
            None => first_indices(size),
        };
        if !all_lt(&position, self.qubits) || size > self.qubits || position.len() > size {
            return Err(CircuitError::GateDoesNotFit);
        }
        let ghost pos = position@;
        let g = gate.to_gate(position, label);
        assert(g@.qubits_below(self@.qubits as nat) && g@.clbits_below(self@.clbits as nat));
        self.add(g);
        Ok(self)
    }

    /// Measures the qubits `q_bits` into the classical bits `cl_bits`, pairwise.
    pub fn measure(&mut self, q_bits: Vec<usize>, cl_bits: Vec<usize>) -> (r: Result<&'static str, CircuitError>)
        ensures
            final(self)@.qubits == old(self)@.qubits,
            final(self)@.clbits == old(self)@.clbits,
            !(all_below(q_bits@, old(self)@.qubits) && all_below(cl_bits@, old(self)@.clbits)) ==> r == Err::<
                &'static str,
                CircuitError,
            >(CircuitError::MeasureNonexistent) && final(self)@.ops == old(self)@.ops,
            all_below(q_bits@, old(self)@.qubits) && all_below(cl_bits@, old(self)@.clbits) && q_bits@.len()
                != cl_bits@.len() ==> r == Err::<&'static str, CircuitError>(CircuitError::MeasureSizeMismatch)
                && final(self)@.ops == old(self)@.ops,
            all_below(q_bits@, old(self)@.qubits) && all_below(cl_bits@, old(self)@.clbits) && q_bits@.len()
                == cl_bits@.len() ==> added(r) && final(self)@.ops == old(self)@.ops.push(
                Op::Measure { qubits: q_bits@, clbits: cl_bits@ },
            ),
            old(self).wf() ==> final(self).wf(),
    {
        if !all_lt(&q_bits, self.qubits) || !all_lt(&cl_bits, self.clbits) {
            Err(CircuitError::MeasureNonexistent)
        } else if q_bits.len() != cl_bits.len() {
            Err(CircuitError::MeasureSizeMismatch)
        } else {
            self.add(IStruct::MEASURE(q_bits, cl_bits));
            Ok(INSTRUCTION_ADDED)
        }
    }
}

/// The positions given, or the first `n` qubits.
pub open spec fn position_or_default(position: Option<Vec<usize>>, n: nat) -> Seq<usize> {
    match position {
        Some(p) => p@,
        None => Seq::new(n, |i: int| i as usize),
    }
}

/// The vector `0, 1, ..., n - 1`.
fn first_indices(n: usize) -> (r: Vec<usize>)
    ensures
        r@ == Seq::new(n as nat, |i: int| i as usize),
{
    let mut v: Vec<usize> = Vec::new();
    let mut i: usize = 0;
    while i < n
        invariant
            i <= n,
            v@ == Seq::new(i as nat, |k: int| k as usize),
        decreases n - i,
    {
        v.push(i);
        i += 1;
        assert(v@ =~= Seq::new(i as nat, |k: int| k as usize));
    }
    v
}

/// An instruction with each of its qubits `q` renamed `m[q]`: the qubits of
/// gates and rotations, the targets of unitary gates, the measured qubits,
/// the controls and target of a controlled gate and the position of a
/// composite gate (whose body keeps its own local qubits).
pub open spec fn remap_op(op: Op, m: Seq<usize>) -> Op {
    match op {
        Op::H(q) => Op::H(m[q as int]),
        Op::X(q) => Op::X(m[q as int]),
        Op::Y(q) => Op::Y(m[q as int]),
        Op::Z(q) => Op::Z(m[q as int]),
        Op::CX { control, target } => Op::CX { control: m[control as int], target: m[target as int] },
        Op::CZ { control, target } => Op::CZ { control: m[control as int], target: m[target as int] },
        Op::U { dim, entries, target } => Op::U { dim, entries, target: rename(target, m) },
        Op::Measure { qubits, clbits } => Op::Measure { qubits: rename(qubits, m), clbits },
        Op::Gate { position, body, label } => Op::Gate { position: rename(position, m), body, label },
        Op::Controlled { controls, target, gate } => Op::Controlled {
            controls: rename(controls, m),
            target: m[target as int],
            gate,
        },
        Op::Swap { qbit1, qbit2 } => Op::Swap { qbit1: m[qbit1 as int], qbit2: m[qbit2 as int] },
        Op::RZ { angle, target } => Op::RZ { angle, target: m[target as int] },
        Op::RX { angle, target } => Op::RX { angle, target: m[target as int] },
        Op::RY { angle, target } => Op::RY { angle, target: m[target as int] },
        Op::Any => Op::Any,
    }
}

/// `m` renames the `n` qubits one to one: each of `0..n` appears once.
pub open spec fn is_permutation(m: Seq<usize>, n: nat) -> bool {
    &&& m.len() == n
    &&& all_below(m, n)
    &&& forall|i: int, j: int| 0 <= i < j < m.len() ==> m[i] != m[j]
}

/// Each index `x` of `s` replaced by `m[x]`.
pub open spec fn rename(s: Seq<usize>, m: Seq<usize>) -> Seq<usize> {
    s.map_values(|x: usize| m[x as int])
}

/// Each index of `s` moved up by `k`.
pub open spec fn shift(s: Seq<usize>, k: nat) -> Seq<usize> {
    s.map_values(|x: usize| (x + k) as usize)
}

/// An instruction with each of its qubits moved up by `k`, as `compose`
/// moves them; the body of a composite gate keeps its local qubits.
pub open spec fn offset_op(op: Op, k: nat) -> Op {
    match op {
        Op::H(q) => Op::H((q + k) as usize),
        Op::X(q) => Op::X((q + k) as usize),
        Op::Y(q) => Op::Y((q + k) as usize),
        Op::Z(q) => Op::Z((q + k) as usize),
        Op::CX { control, target } => Op::CX { control: (control + k) as usize, target: (target + k) as usize },
        Op::CZ { control, target } => Op::CZ { control: (control + k) as usize, target: (target + k) as usize },
        Op::U { dim, entries, target } => Op::U { dim, entries, target: shift(target, k) },
        Op::Gate { position, body, label } => Op::Gate { position: shift(position, k), body, label },
        Op::Controlled { controls, target, gate } => Op::Controlled {
            controls: shift(controls, k),
            target: (target + k) as usize,
            gate,
        },
        Op::Swap { qbit1, qbit2 } => Op::Swap { qbit1: (qbit1 + k) as usize, qbit2: (qbit2 + k) as usize },
        Op::RZ { angle, target } => Op::RZ { angle, target: (target + k) as usize },
        Op::RX { angle, target } => Op::RX { angle, target: (target + k) as usize },
        Op::RY { angle, target } => Op::RY { angle, target: (target + k) as usize },
        Op::Measure { qubits, clbits } => op,
        Op::Any => Op::Any,
    }
}

/// The instructions of a circuit appended after `k` qubits: measurements are
/// dropped and every other instruction is moved by `offset_op`.
pub open spec fn offset_ops(ops: Seq<Op>, k: nat) -> Seq<Op>
    decreases ops.len(),
{
    if ops.len() == 0 {
        Seq::empty()
    } else {
        let rest = offset_ops(ops.drop_last(), k);
        if ops.last() is Measure {
            rest
        } else {
            rest.push(offset_op(ops.last(), k))
        }
    }
}

/// Applies `m` to every index of `v`.
/// Whether no two elements of `v` are equal.
fn all_distinct(v: &Vec<usize>) -> (r: bool)
    ensures
        r == forall|i: int, j: int| 0 <= i < j < v@.len() ==> v@[i] != v@[j],
{
    let mut i: usize = 0;
    while i < v.len()
        invariant
            i <= v@.len(),
            forall|a: int, b: int| 0 <= a < b < v@.len() && a < i ==> v@[a] != v@[b],
        decreases v@.len() - i,
    {
        let mut j: usize = i + 1;
        while j < v.len()
            invariant
                i < v@.len(),
                i < j <= v@.len(),
                forall|a: int, b: int| 0 <= a < b < v@.len() && a < i ==> v@[a] != v@[b],
                forall|b: int| i < b < j ==> v@[i as int] != v@[b],
            decreases v@.len() - j,
        {
            if v[i] == v[j] {
                return false;
            }
            j += 1;
        }
        i += 1;
    }
    true
}

fn rename_indices(v: &Vec<usize>, m: &Vec<usize>) -> (r: Vec<usize>)
    requires
        all_below(v@, m@.len()),
    ensures
        r@ == rename(v@, m@),
{
    let mut out: Vec<usize> = Vec::new();
    let mut i: usize = 0;
    while i < v.len()
        invariant
            i <= v.len(),
            all_below(v@, m@.len()),
            out@ == rename(v@.take(i as int), m@),
        decreases v.len() - i,
    {
        let x = v[i];
        assert(x < m@.len());
        out.push(m[x]);
        i += 1;
        assert(out@ =~= rename(v@.take(i as int), m@));
    }
    assert(v@.take(i as int) =~= v@);
    out
}

/// Adds `k` to every index of `v`.
fn shift_indices(v: &Vec<usize>, k: usize, bound: Ghost<nat>) -> (r: Vec<usize>)
    requires
        all_below(v@, bound@),
        bound@ + k <= usize::MAX,
    ensures
        r@ == shift(v@, k as nat),
{
    let mut out: Vec<usize> = Vec::new();
    let mut i: usize = 0;
    while i < v.len()
        invariant
            i <= v.len(),
            all_below(v@, bound@),
            bound@ + k <= usize::MAX,
            out@ == shift(v@.take(i as int), k as nat),
        decreases v.len() - i,
    {
        let x = v[i];
        assert(x < bound@);
        out.push(x + k);
        i += 1;
        assert(out@ =~= shift(v@.take(i as int), k as nat));
    }
    assert(v@.take(i as int) =~= v@);
    out
}

impl QuantumCircuit {
    /// The same circuit with its qubits renamed by `mapping`: qubit `q` becomes
    /// `mapping[q]` in the instructions that `remap_op` renames.
    pub fn remap(&self, mapping: Vec<usize>) -> (r: Result<QuantumCircuit, CircuitError>)
        requires
            self.wf(),
        ensures
            is_permutation(mapping@, self@.qubits) ==> r is Ok && r->Ok_0@.qubits == self@.qubits
                && r->Ok_0@.clbits == self@.clbits && r->Ok_0@.ops == self@.ops.map_values(
                |o: Op| remap_op(o, mapping@),
            ) && r->Ok_0.wf(),
            !is_permutation(mapping@, self@.qubits) ==> r == Err::<QuantumCircuit, CircuitError>(
                CircuitError::InvalidMapping,
            ),
    {
        if mapping.len() != self.qubits || !all_lt(&mapping, self.qubits) || !all_distinct(&mapping) {
            return Err(CircuitError::InvalidMapping);
        }
        let mut out: Vec<IStruct> = Vec::new();
        let mut i: usize = 0;
        while i < self.instructions.len()
            invariant
                i <= self.instructions.len(),
                self.wf(),
                mapping@.len() == self@.qubits,
                all_below(mapping@, self@.qubits),
                ops_of(out@) == ops_of(self.instructions@.take(i as int)).map_values(|o: Op| remap_op(o, mapping@)),
            decreases self.instructions.len() - i,
        {
            let ins = &self.instructions[i];
            assert(ins@ == self@.ops[i as int]);
            assert(ins@.qubits_below(self@.qubits));
            let n = match ins {
                IStruct::H(q) => IStruct::H(mapping[*q]),
                IStruct::X(q) => IStruct::X(mapping[*q]),
                IStruct::Y(q) => IStruct::Y(mapping[*q]),
                IStruct::Z(q) => IStruct::Z(mapping[*q]),
                IStruct::CX { control, target } => IStruct::CX { control: mapping[*control], target: mapping[*target] },
                IStruct::U { matrix, target } => IStruct::U {
                    matrix: matrix.copy(),
                    target: rename_indices(target, &mapping),
                },
                IStruct::MEASURE(q, c) => IStruct::MEASURE(rename_indices(q, &mapping), copy_indices(c)),
                IStruct::GATE { position, .. } => {
                    let g = ins.copy();
                    match g {
                        IStruct::GATE { instruction, label, .. } => IStruct::GATE {
                            position: rename_indices(position, &mapping),
                            instruction,
                            label,
                        },
                        _ => {
                            assert(false);
                            g
                        },
                    }
                },
                IStruct::CZ { control, target } => IStruct::CZ { control: mapping[*control], target: mapping[*target] },
                IStruct::CONTROLLED { controls, target, gate } => IStruct::CONTROLLED {
                    controls: rename_indices(controls, &mapping),
                    target: mapping[*target],
                    gate: Box::new(gate.copy()),
                },
                IStruct::SWAP { qbit1, qbit2 } => IStruct::SWAP { qbit1: mapping[*qbit1], qbit2: mapping[*qbit2] },
                IStruct::RZ { angle, target } => IStruct::RZ { angle: angle.copy(), target: mapping[*target] },
                IStruct::RX { angle, target } => IStruct::RX { angle: angle.copy(), target: mapping[*target] },
                IStruct::RY { angle, target } => IStruct::RY { angle: angle.copy(), target: mapping[*target] },
                IStruct::ANY() => IStruct::ANY(),
            };
            assert(n@ == remap_op(ins@, mapping@));
            proof {
                assert(ops_of(out@.push(n)) =~= ops_of(out@).push(n@));
                assert(self.instructions@.take(i + 1) =~= self.instructions@.take(i as int).push(self.instructions@[i as int]));
                assert(ops_of(self.instructions@.take(i + 1)) =~= ops_of(self.instructions@.take(i as int)).push(ins@));
            }
            out.push(n);
            i += 1;
            assert(ops_of(out@) =~= ops_of(self.instructions@.take(i as int)).map_values(|o: Op| remap_op(o, mapping@)));
        }
        assert(self.instructions@.take(i as int) =~= self.instructions@);
        let r = QuantumCircuit { qubits: self.qubits, clbits: self.clbits, instructions: out };
        assert forall|k: int| 0 <= k < r@.ops.len() implies (#[trigger] r@.ops[k]).qubits_below(r@.qubits)
            && r@.ops[k].clbits_below(r@.clbits) by {
            assert(self@.ops[k].qubits_below(self@.qubits) && self@.ops[k].clbits_below(self@.clbits));
        }
        Ok(r)
    }
}

/// The moved instructions name only qubits below `n + k`, and no
/// measurement is among them.
pub proof fn lemma_offset_within(ops: Seq<Op>, k: nat, n: nat, c: nat)
    requires
        ops_within(ops, n, c),
    ensures
        forall|i: int| 0 <= i < offset_ops(ops, k).len() ==> (#[trigger] offset_ops(ops, k)[i]).qubits_below(n + k)
            && !(offset_ops(ops, k)[i] is Measure),
    decreases ops.len(),
{
    if ops.len() > 0 {
        let rest = ops.drop_last();
        assert(ops_within(rest, n, c)) by {
            assert forall|i: int| 0 <= i < rest.len() implies (#[trigger] rest[i]).qubits_below(n) && rest[i].clbits_below(c) by {
                assert(rest[i] == ops[i]);
            }
        }
        lemma_offset_within(rest, k, n, c);
        let last = ops.last();
        assert(last == ops[ops.len() - 1]);
        assert(last.qubits_below(n));
        if !(last is Measure) {
            let o = offset_op(last, k);
            assert(o.qubits_below(n + k)) by {
                match last {
                    Op::U { target, .. } => {
                        assert forall|j: int| 0 <= j < shift(target, k).len() implies (#[trigger] shift(target, k)[j]) < n + k by {
                            assert(target[j] < n);
                        }
                    },
                    Op::Gate { position, .. } => {
                        assert forall|j: int| 0 <= j < shift(position, k).len() implies (#[trigger] shift(position, k)[j]) < n + k by {
                            assert(position[j] < n);
                        }
                    },
                    Op::Controlled { controls, .. } => {
                        assert forall|j: int| 0 <= j < controls.len() implies (#[trigger] controls[j]) < n + k by {
                            assert(controls[j] < n);
                        }
                    },
                    _ => {},
                }
            }
        }
    }
}

impl QuantumCircuit {
    /// The instructions of this circuit moved up by `offset` qubits, as
    /// `offset_ops` moves them; measurements are left out.
    fn offset_i(&self, offset: usize) -> (r: Vec<IStruct>)
        requires
            self.wf(),
            self@.qubits + offset <= usize::MAX,
        ensures
            ops_of(r@) == offset_ops(self@.ops, offset as nat),
    {
        let mut out: Vec<IStruct> = Vec::new();
        let mut i: usize = 0;
        while i < self.instructions.len()
            invariant
                i <= self.instructions.len(),
                self.wf(),
                self@.qubits + offset <= usize::MAX,
                ops_of(out@) == offset_ops(ops_of(self.instructions@.take(i as int)), offset as nat),
            decreases self.instructions.len() - i,
        {
            let ins = &self.instructions[i];
            let ghost before = ops_of(self.instructions@.take(i as int));
            proof {
                assert(self.instructions@.take(i + 1) =~= self.instructions@.take(i as int).push(self.instructions@[i as int]));
                assert(ops_of(self.instructions@.take(i + 1)) =~= before.push(ins@));
                assert(before.push(ins@).drop_last() =~= before);
            }
            assert(ins@ == self@.ops[i as int]);
            assert(ins@.qubits_below(self@.qubits));
            let bound: Ghost<nat> = Ghost(self@.qubits);
            let n = match ins {
                IStruct::H(q) => Some(IStruct::H(*q + offset)),
                IStruct::X(q) => Some(IStruct::X(*q + offset)),
                IStruct::Y(q) => Some(IStruct::Y(*q + offset)),
                IStruct::Z(q) => Some(IStruct::Z(*q + offset)),
                IStruct::CX { control, target } => Some(IStruct::CX { control: *control + offset, target: *target + offset }),
                IStruct::U { matrix, target } => Some(IStruct::U {
                    matrix: matrix.copy(),
                    target: shift_indices(target, offset, bound),
                }),
                IStruct::MEASURE(_, _) => None,
                IStruct::GATE { position, .. } => {
                    let g = ins.copy();
                    match g {
                        IStruct::GATE { instruction, label, .. } => Some(IStruct::GATE {
                            position: shift_indices(position, offset, bound),
                            instruction,
                            label,
                        }),
                        _ => {
                            assert(false);
                            None
                        },
                    }
                },
                IStruct::CZ { control, target } => Some(IStruct::CZ { control: *control + offset, target: *target + offset }),
                IStruct::CONTROLLED { controls, target, gate } => Some(IStruct::CONTROLLED {
                    controls: shift_indices(controls, offset, bound),
                    target: *target + offset,
                    gate: Box::new(gate.copy()),
                }),
                IStruct::SWAP { qbit1, qbit2 } => Some(IStruct::SWAP { qbit1: *qbit1 + offset, qbit2: *qbit2 + offset }),
                IStruct::RZ { angle, target } => Some(IStruct::RZ { angle: angle.copy(), target: *target + offset }),
                IStruct::RX { angle, target } => Some(IStruct::RX { angle: angle.copy(), target: *target + offset }),
                IStruct::RY { angle, target } => Some(IStruct::RY { angle: angle.copy(), target: *target + offset }),
                IStruct::ANY() => Some(IStruct::ANY()),
            };
            match n {
                Some(n) => {
                    assert(n@ == offset_op(ins@, offset as nat));
                    assert(ops_of(out@.push(n)) =~= ops_of(out@).push(n@));
                    out.push(n);
                },
                None => {},
            }
            i += 1;
        }
        assert(self.instructions@.take(i as int) =~= self.instructions@);
        out
    }

    /// This circuit followed by `other`, whose qubits and classical bits come
    /// after those of this circuit; the instructions of `other` are moved as
    /// `offset_ops` moves them.
    pub fn compose(&self, other: &QuantumCircuit) -> (r: QuantumCircuit)
        requires
            self.wf(),
            other.wf(),
            self@.qubits + other@.qubits <= usize::MAX,
            self@.clbits + other@.clbits <= usize::MAX,
        ensures
            r@.qubits == self@.qubits + other@.qubits,
            r@.clbits == self@.clbits + other@.clbits,
            r@.ops == self@.ops + offset_ops(other@.ops, self@.qubits),
            r.wf(),
    {
        let mut istr: Vec<IStruct> = Vec::new();
        let mut i: usize = 0;
        while i < self.instructions.len()
            invariant
                i <= self.instructions.len(),
                ops_of(istr@) == ops_of(self.instructions@.take(i as int)),
            decreases self.instructions.len() - i,
        {
            let c = self.instructions[i].copy();
            proof {
                assert(self.instructions@.take(i + 1) =~= self.instructions@.take(i as int).push(self.instructions@[i as int]));
                assert(ops_of(istr@.push(c)) =~= ops_of(istr@).push(c@));
                assert(ops_of(self.instructions@.take(i + 1)) =~= ops_of(self.instructions@.take(i as int)).push(c@));
            }
            istr.push(c);
            i += 1;
        }
        assert(self.instructions@.take(i as int) =~= self.instructions@);
        let mut moved = other.offset_i(self.qubits);
        let ghost a = istr@;
        let ghost b = moved@;
        istr.append(&mut moved);
        assert(ops_of(istr@) =~= ops_of(a) + ops_of(b));
        let r = QuantumCircuit {
            qubits: self.qubits + other.get_q_bits(),
            clbits: self.clbits + other.get_cl_bits(),
            instructions: istr,
        };
        proof {
            lemma_offset_within(other@.ops, self@.qubits, other@.qubits, other@.clbits);
            assert forall|k: int| 0 <= k < r@.ops.len() implies (#[trigger] r@.ops[k]).qubits_below(r@.qubits)
                && r@.ops[k].clbits_below(r@.clbits) by {
                if k < self@.ops.len() {
                    assert(r@.ops[k] == self@.ops[k]);
                    assert(self@.ops[k].qubits_below(self@.qubits));
                    assert(self@.ops[k].clbits_below(self@.clbits));
                    match self@.ops[k] {
                        Op::U { target, .. } => {
                            assert forall|j: int| 0 <= j < target.len() implies (#[trigger] target[j]) < r@.qubits by {}
                        },
                        _ => {},
                    }
                } else {
                    let j = k - self@.ops.len();
                    assert(r@.ops[k] == offset_ops(other@.ops, self@.qubits)[j]);
                }
            }
        }
        r
    }
}

/// The label of a gate: the one given, or `"Gate"`.
pub open spec fn label_or_default(label: Option<Seq<char>>) -> Seq<char> {
    match label {
        Some(l) => l,
        None => "Gate"@,
    }
}

impl ToGate for QuantumCircuit {
    /// The circuit as one composite gate: its instructions placed on
    /// `position`.
    open spec fn gate_model(&self, position: Seq<usize>, label: Option<Seq<char>>) -> Op {
        Op::Gate { position, body: self@.ops, label: label_or_default(label) }
    }

    fn to_gate(&self, position: Vec<usize>, label: Option<String>) -> (g: IStruct) {
        let label = match label {
            Some(l) => l,
            None => "Gate".to_owned(),
        };
        let mut boxed: Vec<Box<IStruct>> = Vec::new();
        let mut i: usize = 0;
        while i < self.instructions.len()
            invariant
                i <= self.instructions.len(),
                boxed@.len() == i,
                forall|j: int| 0 <= j < i ==> #[trigger] boxed@[j].model() == self.instructions@[j].model(),
            decreases self.instructions.len() - i,
        {
            boxed.push(Box::new(self.instructions[i].copy()));
            i += 1;
        }
        proof {
            IStruct::lemma_models(boxed@);
            assert(IStruct::models(boxed@) =~= self@.ops);
        }
        IStruct::GATE { position, instruction: boxed, label }
    }
}

impl QLogic for QuantumCircuit {
    /// The number of qubits of the circuit.
    open spec fn size(&self) -> nat {
        self@.qubits
    }

    fn get_size(&self) -> (r: usize) {
        self.qubits
    }
}

/// Renaming the qubits of a well-formed circuit by the identity leaves its
/// instructions as they are.
pub proof fn lemma_remap_identity(ops: Seq<Op>, n: nat)
    requires
        ops_within(ops, n, 0) || forall|i: int| 0 <= i < ops.len() ==> (#[trigger] ops[i]).qubits_below(n),
        n <= usize::MAX,
    ensures
        ops.map_values(|o: Op| remap_op(o, Seq::new(n, |i: int| i as usize))) == ops,
{
    let m = Seq::new(n, |i: int| i as usize);
    assert forall|i: int| 0 <= i < ops.len() implies remap_op(#[trigger] ops[i], m) == ops[i] by {
        assert(ops[i].qubits_below(n));
        match ops[i] {
            Op::U { target, .. } => {
                assert(rename(target, m) =~= target);
            },
            Op::Measure { qubits, .. } => {
                assert(rename(qubits, m) =~= qubits);
            },
            Op::Gate { position, .. } => {
                assert(rename(position, m) =~= position);
            },
            Op::Controlled { controls, .. } => {
                assert(rename(controls, m) =~= controls);
            },
            _ => {},
        }
    }
    assert(ops.map_values(|o: Op| remap_op(o, m)) =~= ops);
}

/// Appending the instructions of a circuit without measurements after `k`
/// qubits keeps each of them, in order.
pub proof fn lemma_offset_keeps_all(ops: Seq<Op>, k: nat)
    requires
        forall|i: int| 0 <= i < ops.len() ==> !(#[trigger] ops[i] is Measure),
    ensures
        offset_ops(ops, k) == ops.map_values(|o: Op| offset_op(o, k)),
    decreases ops.len(),
{
    if ops.len() > 0 {
        let rest = ops.drop_last();
        assert forall|i: int| 0 <= i < rest.len() implies !(#[trigger] rest[i] is Measure) by {
            assert(rest[i] == ops[i]);
        }
        lemma_offset_keeps_all(rest, k);
        assert(!(ops[ops.len() - 1] is Measure));
        assert(offset_ops(ops, k) =~= ops.map_values(|o: Op| offset_op(o, k)));
    } else {
        assert(offset_ops(ops, k) =~= ops.map_values(|o: Op| offset_op(o, k)));
    }
}

} // verus!
