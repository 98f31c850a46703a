use vstd::prelude::*;

verus! {

/// A complex number given by the IEEE-754 single-precision bit patterns of its
/// real and imaginary parts.
#[derive(Clone, Copy, Debug, PartialEq, Eq, Structural)]
pub struct ComplexBits {
    /// Bits of the real part.
    pub re: u32,
    /// Bits of the imaginary part.
    pub im: u32,
}

/// A square complex matrix of side `dim`, stored row by row.
#[derive(Clone, Debug, PartialEq)]
pub struct Matrix {
    /// Side of the matrix.
    pub dim: usize,
    /// The `dim * dim` entries, row-major.
    pub entries: Vec<ComplexBits>,
}

impl Matrix {
    /// Returns an equal matrix.
    pub fn copy(&self) -> (r: Matrix)
        ensures
            r.dim == self.dim,
            r.entries@ == self.entries@,
    {
        let mut entries: Vec<ComplexBits> = Vec::new();
        let mut i: usize = 0;
        while i < self.entries.len()
            invariant
                i <= self.entries.len(),
                entries@ == self.entries@.take(i as int),
            decreases self.entries.len() - i,
        {
            entries.push(self.entries[i]);
            i += 1;
            assert(entries@ =~= self.entries@.take(i as int));
        }
        assert(self.entries@.take(i as int) =~= self.entries@);
        Matrix { dim: self.dim, entries }
    }
}

/// An operand of an angle expression read from QASM text.
#[derive(Clone, Debug, PartialEq)]
pub enum AngleAtom {
    /// The constant `pi`.
    Pi,
    /// A decimal literal, as written (for example `3.14`).
    Number(String),
}

/// A rotation angle.
///
/// Angles given by a program are carried as the IEEE-754 double-precision bit
/// pattern of their value in radians; angles read from QASM text are carried as
/// the expression that was written, whose value is computed where it is needed.
#[derive(Clone, Debug, PartialEq)]
pub enum Angle {
    /// The angle whose value in radians has these binary64 bits.
    Radians(u64),
    /// `pi`.
    Pi,
    /// A decimal literal in radians.
    Number(String),
    /// The negation of an operand: `-pi`, `-1.5`.
    Neg(AngleAtom),
    /// An operand divided by a decimal literal: `pi/2`.
    Div(AngleAtom, String),
    /// The negation of a quotient: `-pi/2`.
    NegDiv(AngleAtom, String),
    /// A product of two operands: `2*pi`, `pi*2`.
    Times(AngleAtom, AngleAtom),
    /// The negation of a product: `-2*pi`.
    NegTimes(AngleAtom, AngleAtom),
    /// A product divided by a decimal literal: `2*pi/3`.
    TimesDiv(AngleAtom, AngleAtom, String),
    /// The negation of a product divided by a decimal literal: `-2*pi/3`.
    NegTimesDiv(AngleAtom, AngleAtom, String),
}

/// The model of an angle operand: its text as a character sequence.
pub enum AtomModel {
    Pi,
    Number(Seq<char>),
}

/// The model of an angle: its literals as character sequences.
pub enum AngleModel {
    Radians(u64),
    Pi,
    Number(Seq<char>),
    Neg(AtomModel),
    Div(AtomModel, Seq<char>),
    NegDiv(AtomModel, Seq<char>),
    Times(AtomModel, AtomModel),
    NegTimes(AtomModel, AtomModel),
    TimesDiv(AtomModel, AtomModel, Seq<char>),
    NegTimesDiv(AtomModel, AtomModel, Seq<char>),
}

impl AngleAtom {
    /// The model of the operand.
    pub open spec fn model(&self) -> AtomModel {
        match self {
            AngleAtom::Pi => AtomModel::Pi,
            AngleAtom::Number(s) => AtomModel::Number(s@),
        }
    }

    /// Returns an equal operand.
    pub fn copy(&self) -> (r: AngleAtom)
        ensures
            r == *self,
    {
        match self {
            AngleAtom::Pi => AngleAtom::Pi,
            AngleAtom::Number(s) => AngleAtom::Number(s.clone()),
        }
    }
}

impl Angle {
    /// The model of the angle.
    pub open spec fn model(&self) -> AngleModel {
        match self {
            Angle::Radians(b) => AngleModel::Radians(*b),
            Angle::Pi => AngleModel::Pi,
            Angle::Number(s) => AngleModel::Number(s@),
            Angle::Neg(a) => AngleModel::Neg(a.model()),
            Angle::Div(a, d) => AngleModel::Div(a.model(), d@),
            Angle::NegDiv(a, d) => AngleModel::NegDiv(a.model(), d@),
            Angle::Times(a, b) => AngleModel::Times(a.model(), b.model()),
            Angle::NegTimes(a, b) => AngleModel::NegTimes(a.model(), b.model()),
            Angle::TimesDiv(a, b, d) => AngleModel::TimesDiv(a.model(), b.model(), d@),
            Angle::NegTimesDiv(a, b, d) => AngleModel::NegTimesDiv(a.model(), b.model(), d@),
        }
    }

    /// Returns an equal angle.
    pub fn copy(&self) -> (r: Angle)
        ensures
            r == *self,
    {
        match self {
            Angle::Radians(b) => Angle::Radians(*b),
            Angle::Pi => Angle::Pi,
            Angle::Number(s) => Angle::Number(s.clone()),
            Angle::Neg(a) => Angle::Neg(a.copy()),
            Angle::Div(a, d) => Angle::Div(a.copy(), d.clone()),
            Angle::NegDiv(a, d) => Angle::NegDiv(a.copy(), d.clone()),
            Angle::Times(a, b) => Angle::Times(a.copy(), b.copy()),
            Angle::NegTimes(a, b) => Angle::NegTimes(a.copy(), b.copy()),
            Angle::TimesDiv(a, b, d) => Angle::TimesDiv(a.copy(), b.copy(), d.clone()),
            Angle::NegTimesDiv(a, b, d) => Angle::NegTimesDiv(a.copy(), b.copy(), d.clone()),
        }
    }
}

/// A quantum instruction of a circuit.
#[derive(Debug)]
pub enum IStruct {
    /// Hadamard gate on a qubit.
    H(usize),
    /// Pauli-X gate on a qubit.
    X(usize),
    /// Pauli-Y gate on a qubit.
    Y(usize),
    /// Pauli-Z gate on a qubit.
    Z(usize),
    /// Controlled-NOT gate.
    CX { control: usize, target: usize },
    /// Controlled-Z gate.
    CZ { control: usize, target: usize },
    /// A gate given by a unitary matrix, applied to the listed qubits.
    U { matrix: Matrix, target: Vec<usize> },
    /// Measurement of qubits into classical bits, pairwise.
    MEASURE(Vec<usize>, Vec<usize>),
    /// A composite gate: a list of instructions placed on the qubits `position`.
    GATE { position: Vec<usize>, instruction: Vec<Box<IStruct>>, label: String },
    /// A gate applied to `target` when all `controls` are set.
    CONTROLLED { controls: Vec<usize>, target: usize, gate: Box<IStruct> },
    /// Exchange of two qubits.
    SWAP { qbit1: usize, qbit2: usize },
    /// Rotation around Z.
    RZ { angle: Angle, target: usize },
    /// Rotation around X.
    RX { angle: Angle, target: usize },
    /// Rotation around Y.
    RY { angle: Angle, target: usize },
    /// An unspecified instruction.
    ANY(),
}

/// The mathematical model of an instruction: the same shape, with sequences in
/// place of vectors and strings.
pub enum Op {
    H(usize),
    X(usize),
    Y(usize),
    Z(usize),
    CX { control: usize, target: usize },
    CZ { control: usize, target: usize },
    U { dim: usize, entries: Seq<ComplexBits>, target: Seq<usize> },
    Measure { qubits: Seq<usize>, clbits: Seq<usize> },
    Gate { position: Seq<usize>, body: Seq<Op>, label: Seq<char> },
    Controlled { controls: Seq<usize>, target: usize, gate: Box<Op> },
    Swap { qbit1: usize, qbit2: usize },
    RZ { angle: Angle, target: usize },
    RX { angle: Angle, target: usize },
    RY { angle: Angle, target: usize },
    Any,
}

/// Every element of `s` is below `n`.
pub open spec fn all_below(s: Seq<usize>, n: nat) -> bool {
    forall|i: int| 0 <= i < s.len() ==> (#[trigger] s[i]) < n
}

impl Op {
    /// Every qubit that the instruction names at top level is below `n`.
    pub open spec fn qubits_below(self, n: nat) -> bool {
        match self {
            Op::H(q) => q < n,
            Op::X(q) => q < n,
            Op::Y(q) => q < n,
            Op::Z(q) => q < n,
            Op::CX { control, target } => control < n && target < n,
            Op::CZ { control, target } => control < n && target < n,
            Op::U { target, .. } => all_below(target, n),
            Op::Measure { qubits, .. } => all_below(qubits, n),
            Op::Gate { position, .. } => all_below(position, n),
            Op::Controlled { controls, target, .. } => all_below(controls, n) && target < n,
            Op::Swap { qbit1, qbit2 } => qbit1 < n && qbit2 < n,
            Op::RZ { target, .. } => target < n,
            Op::RX { target, .. } => target < n,
            Op::RY { target, .. } => target < n,
            Op::Any => true,
        }
    }

    /// Every classical bit that the instruction names is below `n`.
    pub open spec fn clbits_below(self, n: nat) -> bool {
        match self {
            Op::Measure { clbits, .. } => all_below(clbits, n),
            _ => true,
        }
    }
}

impl IStruct {
    /// The model of the instruction.
    pub open spec fn model(&self) -> Op
        decreases self, 1nat,
    {
        match self {
            IStruct::H(q) => Op::H(*q),
            IStruct::X(q) => Op::X(*q),
            IStruct::Y(q) => Op::Y(*q),
            IStruct::Z(q) => Op::Z(*q),
            IStruct::CX { control, target } => Op::CX { control: *control, target: *target },
            IStruct::CZ { control, target } => Op::CZ { control: *control, target: *target },
            IStruct::U { matrix, target } => Op::U {
                dim: matrix.dim,
                entries: matrix.entries@,
                target: target@,
            },
            IStruct::MEASURE(q, c) => Op::Measure { qubits: q@, clbits: c@ },
            IStruct::GATE { position, instruction, label } => Op::Gate {
                position: position@,
                body: Self::models(instruction@),
                label: label@,
            },
            IStruct::CONTROLLED { controls, target, gate } => Op::Controlled {
                controls: controls@,
                target: *target,
                gate: Box::new(gate.model()),
            },
            IStruct::SWAP { qbit1, qbit2 } => Op::Swap { qbit1: *qbit1, qbit2: *qbit2 },
            IStruct::RZ { angle, target } => Op::RZ { angle: *angle, target: *target },
            IStruct::RX { angle, target } => Op::RX { angle: *angle, target: *target },
            IStruct::RY { angle, target } => Op::RY { angle: *angle, target: *target },
            IStruct::ANY() => Op::Any,
        }
    }

    /// The models of a list of boxed instructions.
    pub open spec fn models(s: Seq<Box<IStruct>>) -> Seq<Op>
        decreases s, 0nat,
    {
        if s.len() == 0 {
            Seq::empty()
        } else {
            seq![s[0].model()] + Self::models(s.drop_first())
        }
    }

    /// `models` has one model per element, in order.
    pub proof fn lemma_models(s: Seq<Box<IStruct>>)
        ensures
            Self::models(s).len() == s.len(),
            forall|j: int| 0 <= j < s.len() ==> #[trigger] Self::models(s)[j] == s[j].model(),
        decreases s.len(),
    {
        if s.len() > 0 {
            Self::lemma_models(s.drop_first());
            assert forall|j: int| 0 <= j < s.len() implies #[trigger] Self::models(s)[j] == s[j].model() by {
                if j > 0 {
                    assert(s.drop_first()[j - 1] == s[j]);
                }
            }
        }
    }

    /// Lists of instructions with equal models have equal models.
    pub proof fn lemma_models_eq(a: Seq<Box<IStruct>>, b: Seq<Box<IStruct>>)
        requires
            a.len() == b.len(),
            forall|j: int| 0 <= j < a.len() ==> #[trigger] a[j].model() == b[j].model(),
        ensures
            Self::models(a) == Self::models(b),
    {
        Self::lemma_models(a);
        Self::lemma_models(b);
        assert(Self::models(a) =~= Self::models(b));
    }

    /// Returns an instruction with the same model.
    #[verifier::loop_isolation(false)]
    pub fn copy(&self) -> (r: IStruct)
        ensures
            r@ == self@,
        decreases self,
    {
        match self {
            IStruct::H(q) => IStruct::H(*q),
            IStruct::X(q) => IStruct::X(*q),
            IStruct::Y(q) => IStruct::Y(*q),
            IStruct::Z(q) => IStruct::Z(*q),
            IStruct::CX { control, target } => IStruct::CX { control: *control, target: *target },
            IStruct::CZ { control, target } => IStruct::CZ { control: *control, target: *target },
            IStruct::U { matrix, target } => IStruct::U {
                matrix: matrix.copy(),
                target: copy_indices(target),
            },
            IStruct::MEASURE(q, c) => IStruct::MEASURE(copy_indices(q), copy_indices(c)),
            IStruct::GATE { position, instruction, label } => {
                let mut out: Vec<Box<IStruct>> = Vec::new();
                let mut i: usize = 0;
                while i < instruction.len()
                    invariant
                        i <= instruction.len(),
                        out@.len() == i,
                        forall|j: int| 0 <= j < i ==> #[trigger] out@[j].model() == instruction@[j].model(),
                    decreases instruction.len() - i,
                {
                    proof {
                        vstd::std_specs::vec::axiom_vec_index_decreases(*instruction, i as int);
                    }
                    let c = instruction[i].copy();
                    out.push(Box::new(c));
                    i += 1;
                }
                proof {
                    Self::lemma_models_eq(out@, instruction@);
                }
                IStruct::GATE {
                    position: copy_indices(position),
                    instruction: out,
                    label: label.clone(),
                }
            }
            IStruct::CONTROLLED { controls, target, gate } => IStruct::CONTROLLED {
                controls: copy_indices(controls),
                target: *target,
                gate: Box::new(gate.copy()),
            },
            IStruct::SWAP { qbit1, qbit2 } => IStruct::SWAP { qbit1: *qbit1, qbit2: *qbit2 },
            IStruct::RZ { angle, target } => IStruct::RZ { angle: angle.copy(), target: *target },
            IStruct::RX { angle, target } => IStruct::RX { angle: angle.copy(), target: *target },
            IStruct::RY { angle, target } => IStruct::RY { angle: angle.copy(), target: *target },
            IStruct::ANY() => IStruct::ANY(),
        }
    }
}

impl View for IStruct {
    type V = Op;

    open spec fn view(&self) -> Op {
        self.model()
    }
}

/// Returns a vector with the same elements.
pub fn copy_indices(v: &Vec<usize>) -> (r: Vec<usize>)
    ensures
        r@ == v@,
{
    let mut out: Vec<usize> = Vec::new();
    let mut i: usize = 0;
    while i < v.len()
        invariant
            i <= v.len(),
            out@ == v@.take(i as int),
        decreases v.len() - i,
    {
        out.push(v[i]);
        i += 1;
        assert(out@ =~= v@.take(i as int));
    }
    assert(v@.take(i as int) =~= v@);
    out
}

/// Tells whether every element of `v` is below `n`.
pub fn all_lt(v: &Vec<usize>, n: usize) -> (r: bool)
    ensures
        r == all_below(v@, n as nat),
{
    let mut i: usize = 0;
    while i < v.len()
        invariant
            i <= v.len(),
            forall|j: int| 0 <= j < i ==> #[trigger] v@[j] < n,
        decreases v.len() - i,
    {
        if v[i] >= n {
            return false;
        }
        i += 1;
    }
    true
}

/// Tells whether `x` occurs in `v`.
pub fn contains_index(v: &Vec<usize>, x: usize) -> (r: bool)
    ensures
        r == v@.contains(x),
{
    let mut i: usize = 0;
    while i < v.len()
        invariant
            i <= v.len(),
            forall|j: int| 0 <= j < i ==> #[trigger] v@[j] != x,
        decreases v.len() - i,
    {
        if v[i] == x {
            assert(v@[i as int] == x);
            return true;
        }
        i += 1;
    }
    false
}

} // verus!
