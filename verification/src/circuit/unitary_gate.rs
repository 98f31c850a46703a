use vstd::prelude::*;
use crate::circuit::quantum_circuit::{label_or_default, CircuitError};
use crate::instruction::i_struct::{copy_indices, ComplexBits, IStruct, Matrix, Op};
use crate::instruction::q_logic::QLogic;
use crate::instruction::to_gate::{label_model, ToGate};
use crate::text::{decimal, pieces, push_decimal, push_piece, push_str, text, Piece, PieceModel};

verus! {

/// `n` is a power of two.
pub open spec fn is_power_of_two(n: nat) -> bool
    decreases n,
{
    if n == 0 {
        false
    } else if n == 1 {
        true
    } else {
        n % 2 == 0 && is_power_of_two(n / 2)
    }
}

/// The base-two logarithm of `n`, rounded down.
pub open spec fn log2(n: nat) -> nat
    decreases n,
{
    if n <= 1 {
        0
    } else {
        1 + log2(n / 2)
    }
}

/// A list of `len` entries is a square matrix of side `n`, a power of two.
pub open spec fn square_side(len: nat, n: nat) -> bool {
    n * n == len && is_power_of_two(n)
}

/// The model of a unitary gate.
pub struct UnitaryModel {
    /// Number of qubits acted on.
    pub qubits: nat,
    /// Side of the matrix.
    pub dim: nat,
    /// The entries of the matrix, row-major.
    pub entries: Seq<ComplexBits>,
}

/// A gate given by a unitary matrix of side `2^qubits`.
pub struct UnitaryGate {
    qubits: usize,
    matrix: Matrix,
}

/// The description of a unitary gate: its matrix, then `Number of qbits
/// needed : n`.
pub open spec fn unitary_text(u: UnitaryModel) -> Seq<PieceModel> {
    seq![
        PieceModel::Matrix(u.dim as usize, u.entries),
        text("Number of qbits needed : "@ + decimal(u.qubits) + "\n"@),
    ]
}

impl View for UnitaryGate {
    type V = UnitaryModel;

    closed spec fn view(&self) -> UnitaryModel {
        UnitaryModel {
            qubits: self.qubits as nat,
            dim: self.matrix.dim as nat,
            entries: self.matrix.entries@,
        }
    }
}

proof fn lemma_square_monotone(a: nat, b: nat)
    requires
        a <= b,
    ensures
        a * a <= b * b,
{
    assert(a * a <= b * b) by (nonlinear_arith)
        requires
            a <= b,
    ;
}

/// The side of a square with `len` cells, if there is one.
fn exact_sqrt(len: usize) -> (r: Option<usize>)
    ensures
        r matches Some(n) ==> n * n == len,
        r is None ==> forall|n: nat| #[trigger] (n * n) != len,
{
    let mut n: usize = 0;
    let mut sq: u128 = 0;
    while sq < len as u128
        invariant
            n <= len,
            sq == n * n,
            forall|m: nat| m < n ==> #[trigger] (m * m) < len,
        decreases len - n,
    {
        proof {
            if n > 0 {
                assert(n * n >= n) by (nonlinear_arith)
                    requires
                        n > 0,
                ;
            }
            assert((n + 1) * (n + 1) == n * n + 2 * n + 1) by (nonlinear_arith);
            assert forall|m: nat| m < n + 1 implies #[trigger] (m * m) < len by {
                if m < n {
                }
            }
        }
        sq = sq + 2 * (n as u128) + 1;
        n += 1;
    }
    if sq == len as u128 {
        Some(n)
    } else {
        proof {
            assert forall|m: nat| #[trigger] (m * m) != len by {
                if m >= n {
                    lemma_square_monotone(n as nat, m);
                }
            }
        }
        None
    }
}

/// The logarithm of `n` is at most `n`.
proof fn lemma_log2_le(n: nat)
    ensures
        log2(n) <= n,
    decreases n,
{
    if n > 1 {
        lemma_log2_le(n / 2);
    }
}

/// Whether `n` is a power of two, and if so its logarithm.
fn power_of_two_log(n: usize) -> (r: Option<usize>)
    ensures
        r is Some <==> is_power_of_two(n as nat),
        r matches Some(k) ==> k == log2(n as nat),
{
    proof {
        lemma_log2_le(n as nat);
    }
    let mut m: usize = n;
    let mut k: usize = 0;
    while m > 1 && m % 2 == 0
        invariant
            m <= n,
            log2(n as nat) <= n,
            is_power_of_two(n as nat) == is_power_of_two(m as nat),
            log2(n as nat) == k + log2(m as nat),
        decreases m,
    {
        m = m / 2;
        k = k + 1;
    }
    if m == 1 {
        Some(k)
    } else {
        None
    }
}

impl UnitaryGate {
    /// A unitary gate from a matrix given row by row, whose unitarity has been decided
    /// beforehand (`unitary`).
    ///
    /// Refused with `NotUnitaryShape` unless the entries form a square matrix
    /// whose side is a power of two, then with `NotUnitary` unless `unitary`.
    pub fn new(matrice: &[ComplexBits], unitary: bool) -> (r: Result<UnitaryGate, CircuitError>)
        ensures
            (forall|n: nat| !#[trigger] square_side(matrice@.len(), n)) ==> r == Err::<UnitaryGate, CircuitError>(
                CircuitError::NotUnitaryShape,
            ),
            (exists|n: nat| #[trigger] square_side(matrice@.len(), n)) && !unitary ==> r == Err::<
                UnitaryGate,
                CircuitError,
            >(CircuitError::NotUnitary),
            (exists|n: nat| #[trigger] square_side(matrice@.len(), n)) && unitary ==> r is Ok,
            r matches Ok(g) ==> square_side(matrice@.len(), g@.dim) && g@.qubits == log2(g@.dim)
                && g@.entries == matrice@,
    {
        let len = matrice.len();
        let side = exact_sqrt(len);
        let n = match side {
            Some(n) => n,
            None => {
                return Err(CircuitError::NotUnitaryShape);
            },
        };
        let lg = power_of_two_log(n);
        let qubits = match lg {
            Some(k) => k,
            None => {
                proof {
                    assert forall|m: nat| !#[trigger] square_side(matrice@.len(), m) by {
                        if m * m == len {
                            if m != n {
                                if m < n {
                                    lemma_square_monotone(m + 1, n as nat);
                                    assert((m + 1) * (m + 1) > m * m) by (nonlinear_arith);
                                } else {
                                    lemma_square_monotone(n as nat + 1, m);
                                    assert((n as nat + 1) * (n as nat + 1) > n * n) by (nonlinear_arith);
                                }
                            }
                        }
                    }
                }
                return Err(CircuitError::NotUnitaryShape);
            },
        };
        if !unitary {
            assert(square_side(matrice@.len(), n as nat));
            return Err(CircuitError::NotUnitary);
        }
        let mut entries: Vec<ComplexBits> = Vec::new();
        let mut i: usize = 0;
        while i < len
            invariant
                len == matrice@.len(),
                i <= len,
                entries@ == matrice@.take(i as int),
            decreases len - i,
        {
            entries.push(matrice[i]);
            i += 1;
            assert(entries@ =~= matrice@.take(i as int));
        }
        assert(matrice@.take(i as int) =~= matrice@);
        assert(square_side(matrice@.len(), n as nat));
        Ok(UnitaryGate { qubits, matrix: Matrix { dim: n, entries } })
    }
}

impl UnitaryGate {
    /// Its description: its matrix, then the number of qubits it needs.
    pub fn describe(&self) -> (r: Vec<Piece>)
        ensures
            pieces(r@) == unitary_text(self@),
    {
        let mut out: Vec<Piece> = Vec::new();
        push_piece(&mut out, Piece::Matrix(self.matrix.copy()));
        let mut s = String::new();
        push_str(&mut s, "Number of qbits needed : ");
        push_decimal(&mut s, self.qubits as u64);
        push_str(&mut s, "\n");
        push_piece(&mut out, Piece::Text(s));
        assert(pieces(out@) =~= unitary_text(self@));
        out
    }

    /// Its matrix.
    pub fn matrix(&self) -> (r: &Matrix)
        ensures
            r.dim == self@.dim,
            r.entries@ == self@.entries,
    {
        &self.matrix
    }
}

impl ToGate for UnitaryGate {
    /// A composite gate on `position` holding the matrix applied to
    /// `position`.
    open spec fn gate_model(&self, position: Seq<usize>, label: Option<Seq<char>>) -> Op {
        Op::Gate {
            position,
            body: seq![Op::U { dim: self@.dim as usize, entries: self@.entries, target: position }],
            label: label_or_default(label),
        }
    }

    fn to_gate(&self, position: Vec<usize>, label: Option<String>) -> (g: IStruct) {
        let label = match label {
            Some(l) => l,
            None => "Gate".to_owned(),
        };
        let u = IStruct::U { matrix: self.matrix.copy(), target: copy_indices(&position) };
        let mut body: Vec<Box<IStruct>> = Vec::new();
        body.push(Box::new(u));
        proof {
            IStruct::lemma_models(body@);
            assert(IStruct::models(body@) =~= seq![
                Op::U { dim: self@.dim as usize, entries: self@.entries, target: position@ },
            ]);
        }
        IStruct::GATE { position, instruction: body, label }
    }
}

impl QLogic for UnitaryGate {
    /// The number of qubits acted on.
    open spec fn size(&self) -> nat {
        self@.qubits
    }

    fn get_size(&self) -> (r: usize) {
        self.qubits
    }
}

/// A power of two is two to the power of its logarithm.
pub proof fn lemma_power_of_two_log(n: nat)
    requires
        is_power_of_two(n),
    ensures
        vstd::arithmetic::power2::pow2(log2(n)) == n,
    decreases n,
{
    if n > 1 {
        lemma_power_of_two_log(n / 2);
        vstd::arithmetic::power2::lemma_pow2_unfold(log2(n));
    } else {
        vstd::arithmetic::power2::lemma2_to64();
    }
}

} // verus!
