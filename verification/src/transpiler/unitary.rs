//! What the transpiled gates do, as matrices.
//!
//! For angles that are whole quarter turns, every gate of the `U3 + CX`
//! basis, and every `rz`/`sx` program, is a nonzero multiple of a matrix whose
//! entries are Gaussian integers `(re, im)`. Two such matrices stand for the
//! same gate when one is a nonzero multiple of the other: the unitaries then
//! differ by a global phase only. The laws below say what the decompositions,
//! the reversal of a CX and the `rz`/`sx` text of a `U3` do in these terms.

use vstd::prelude::*;
use crate::instruction::i_struct::{Angle, Op};
use crate::text::{decimal, text, PieceModel};
use crate::transpiler::coupling_map::TwoQubitGate;
use crate::transpiler::gate_decomposer::{
    decompose_op, gate_qasm, DecomposedGate, U3Gate, HALF_PI_BITS, NEG_HALF_PI_BITS, PI_BITS, ZERO_BITS,
};
use crate::transpiler::router::reverse_cx_spec;

verus! {

/// A Gaussian integer `re + i im`.
pub type Gauss = (int, int);

/// A 2-by-2 matrix, row by row: `(m00, m01, m10, m11)`.
pub type Mat2 = (Gauss, Gauss, Gauss, Gauss);

/// A row of a 4-by-4 matrix.
pub type Row4 = (Gauss, Gauss, Gauss, Gauss);

/// A 4-by-4 matrix on two qubits, row by row; basis index `2a + b` for the
/// first qubit in state `a` and the second in state `b`.
pub type Mat4 = (Row4, Row4, Row4, Row4);

/// The product of two Gaussian integers.
pub open spec fn cmul(a: Gauss, b: Gauss) -> Gauss {
    (a.0 * b.0 - a.1 * b.1, a.0 * b.1 + a.1 * b.0)
}

/// The sum of two Gaussian integers.
pub open spec fn cadd(a: Gauss, b: Gauss) -> Gauss {
    (a.0 + b.0, a.1 + b.1)
}

/// The opposite of a Gaussian integer.
pub open spec fn cneg(a: Gauss) -> Gauss {
    (-a.0, -a.1)
}

/// The entry is zero.
pub open spec fn is_zero(z: Gauss) -> bool {
    z.0 == 0 && z.1 == 0
}

/// `i` to the power `q`: the phase of `q` quarter turns.
pub open spec fn ipow(q: int) -> Gauss {
    let r = q % 4;
    if r == 0 {
        (1, 0)
    } else if r == 1 {
        (0, 1)
    } else if r == 2 {
        (-1, 0)
    } else {
        (0, -1)
    }
}

/// The product `a * b` of 2-by-2 matrices: `b` acts first.
pub open spec fn mul2(a: Mat2, b: Mat2) -> Mat2 {
    (
        cadd(cmul(a.0, b.0), cmul(a.1, b.2)),
        cadd(cmul(a.0, b.1), cmul(a.1, b.3)),
        cadd(cmul(a.2, b.0), cmul(a.3, b.2)),
        cadd(cmul(a.2, b.1), cmul(a.3, b.3)),
    )
}

/// Every entry of `a` times `bk` equals the same entry of `b` times `ak`.
pub open spec fn cross2(a: Mat2, b: Mat2, ak: Gauss, bk: Gauss) -> bool {
    &&& cmul(a.0, bk) == cmul(b.0, ak)
    &&& cmul(a.1, bk) == cmul(b.1, ak)
    &&& cmul(a.2, bk) == cmul(b.2, ak)
    &&& cmul(a.3, bk) == cmul(b.3, ak)
}

/// `a` and `b` stand for the same gate: `a` is a nonzero multiple of `b`
/// (compared at the first nonzero entry of `b`).
pub open spec fn same2(a: Mat2, b: Mat2) -> bool {
    if !is_zero(b.0) {
        !is_zero(a.0) && cross2(a, b, a.0, b.0)
    } else if !is_zero(b.1) {
        !is_zero(a.1) && cross2(a, b, a.1, b.1)
    } else if !is_zero(b.2) {
        !is_zero(a.2) && cross2(a, b, a.2, b.2)
    } else {
        !is_zero(b.3) && !is_zero(a.3) && cross2(a, b, a.3, b.3)
    }
}

/// The Hadamard gate `[[1, 1], [1, -1]]`, up to its factor `1/sqrt(2)`.
pub open spec fn hadamard() -> Mat2 {
    ((1, 0), (1, 0), (1, 0), (-1, 0))
}

/// The Pauli X gate `[[0, 1], [1, 0]]`: it exchanges `|0>` and `|1>`.
pub open spec fn pauli_x() -> Mat2 {
    ((0, 0), (1, 0), (1, 0), (0, 0))
}

/// The Pauli Y gate `[[0, -i], [i, 0]]`.
pub open spec fn pauli_y() -> Mat2 {
    ((0, 0), (0, -1), (0, 1), (0, 0))
}

/// The Pauli Z gate `[[1, 0], [0, -1]]`.
pub open spec fn pauli_z() -> Mat2 {
    ((1, 0), (0, 0), (0, 0), (-1, 0))
}

/// The square root of X, `[[1+i, 1-i], [1-i, 1+i]]`, up to its factor `1/2`.
pub open spec fn sqrt_x() -> Mat2 {
    ((1, 1), (1, -1), (1, -1), (1, 1))
}

/// The rotation about Z by `q` quarter turns: `diag(1, i^q)` up to phase.
pub open spec fn phase(q: int) -> Mat2 {
    ((1, 0), (0, 0), (0, 0), ipow(q))
}

/// The cosine and sine of half an angle of `q` quarter turns, up to a common
/// positive factor: each is `0`, `1` or `1/sqrt(2)` in size, the two nonzero
/// ones alike (a full turn more flips both signs, which no gate can tell).
pub open spec fn half_angle(q: int) -> (int, int) {
    let r = q % 4;
    if r == 0 {
        (1, 0)
    } else if r == 1 {
        (1, 1)
    } else if r == 2 {
        (0, 1)
    } else {
        (-1, 1)
    }
}

/// `U3(theta, phi, lambda)`, the angles in quarter turns:
/// `[[cos(theta/2), -e^(i lambda) sin(theta/2)], [e^(i phi) sin(theta/2),
/// e^(i (phi + lambda)) cos(theta/2)]]`, up to a positive factor.
pub open spec fn u3_matrix(theta: int, phi: int, lambda: int) -> Mat2 {
    let (c, s) = half_angle(theta);
    let a = ipow(lambda);
    let g = ipow(phi);
    ((c, 0), cneg(cmul(a, (s, 0))), cmul(g, (s, 0)), cmul(cmul(g, a), (c, 0)))
}

/// The rotation about X by `q` quarter turns:
/// `[[cos(q/2), -i sin(q/2)], [-i sin(q/2), cos(q/2)]]`.
pub open spec fn rx_matrix(q: int) -> Mat2 {
    let (c, s) = half_angle(q);
    ((c, 0), (0, -s), (0, -s), (c, 0))
}

/// The rotation about Y by `q` quarter turns:
/// `[[cos(q/2), -sin(q/2)], [sin(q/2), cos(q/2)]]`.
pub open spec fn ry_matrix(q: int) -> Mat2 {
    let (c, s) = half_angle(q);
    ((c, 0), (-s, 0), (s, 0), (c, 0))
}

/// The angle in quarter turns, for the angles `0`, `pi/2`, `pi` and `-pi/2`.
pub open spec fn quarter(a: Angle) -> Option<int> {
    match a {
        Angle::Radians(b) => if b == ZERO_BITS {
            Some(0)
        } else if b == HALF_PI_BITS {
            Some(1)
        } else if b == PI_BITS {
            Some(2)
        } else if b == NEG_HALF_PI_BITS {
            Some(-1)
        } else {
            None
        },
        _ => None,
    }
}

/// The matrix of a `U3` gate whose angles are whole quarter turns.
pub open spec fn gate_matrix(g: DecomposedGate) -> Option<Mat2> {
    match g {
        DecomposedGate::U3(u) => match (quarter(u.theta), quarter(u.phi), quarter(u.lambda)) {
            (Some(t), Some(p), Some(l)) => Some(u3_matrix(t, p, l)),
            _ => None,
        },
        _ => None,
    }
}

/// `gs` is one `U3` on qubit `q` whose matrix is a nonzero multiple of `m`.
pub open spec fn one_u3_on(gs: Seq<DecomposedGate>, q: usize, m: Mat2) -> bool {
    &&& gs.len() == 1
    &&& gs[0] matches DecomposedGate::U3(u) && u.target == q
    &&& gate_matrix(gs[0]) matches Some(g) && same2(g, m)
}

/// Hadamard, X, Y and Z decompose into one `U3` on their qubit that is that
/// gate: X exchanges `|0>` and `|1>`, Z flips the sign of `|1>`, Y does both
/// with a phase, and Hadamard takes `|0>` to `|0> + |1>`.
pub proof fn lemma_single_qubit_gates(q: usize)
    ensures
        one_u3_on(decompose_op(Op::H(q)), q, hadamard()),
        one_u3_on(decompose_op(Op::X(q)), q, pauli_x()),
        one_u3_on(decompose_op(Op::Y(q)), q, pauli_y()),
        one_u3_on(decompose_op(Op::Z(q)), q, pauli_z()),
{
}

/// RX, RY and RZ by an angle of whole quarter turns decompose into one `U3`
/// on their qubit that is the rotation by that angle about that axis.
pub proof fn lemma_rotation_gates(a: Angle, q: usize)
    requires
        quarter(a) is Some,
    ensures
        one_u3_on(decompose_op(Op::RX { angle: a, target: q }), q, rx_matrix(quarter(a)->Some_0)),
        one_u3_on(decompose_op(Op::RY { angle: a, target: q }), q, ry_matrix(quarter(a)->Some_0)),
        one_u3_on(decompose_op(Op::RZ { angle: a, target: q }), q, phase(quarter(a)->Some_0)),
{
    let k = quarter(a)->Some_0;
    if k == 0 {
        lemma_rotation_quarter(0);
    } else if k == 1 {
        lemma_rotation_quarter(1);
    } else if k == 2 {
        lemma_rotation_quarter(2);
    } else {
        lemma_rotation_quarter(-1);
    }
}

/// The `U3` forms of the rotations by `k` quarter turns.
proof fn lemma_rotation_quarter(k: int)
    requires
        k == 0 || k == 1 || k == 2 || k == -1,
    ensures
        same2(u3_matrix(k, -1, 1), rx_matrix(k)),
        same2(u3_matrix(k, 0, 0), ry_matrix(k)),
        same2(u3_matrix(0, 0, k), phase(k)),
{
    if k == 0 {
        assert(same2(u3_matrix(0, -1, 1), rx_matrix(0))) by (nonlinear_arith);
        assert(same2(u3_matrix(0, 0, 0), ry_matrix(0))) by (nonlinear_arith);
        assert(same2(u3_matrix(0, 0, 0), phase(0))) by (nonlinear_arith);
    } else if k == 1 {
        assert(same2(u3_matrix(1, -1, 1), rx_matrix(1))) by (nonlinear_arith);
        assert(same2(u3_matrix(1, 0, 0), ry_matrix(1))) by (nonlinear_arith);
        assert(same2(u3_matrix(0, 0, 1), phase(1))) by (nonlinear_arith);
    } else if k == 2 {
        assert(same2(u3_matrix(2, -1, 1), rx_matrix(2))) by (nonlinear_arith);
        assert(same2(u3_matrix(2, 0, 0), ry_matrix(2))) by (nonlinear_arith);
        assert(same2(u3_matrix(0, 0, 2), phase(2))) by (nonlinear_arith);
    } else {
        assert(same2(u3_matrix(-1, -1, 1), rx_matrix(-1))) by (nonlinear_arith);
        assert(same2(u3_matrix(-1, 0, 0), ry_matrix(-1))) by (nonlinear_arith);
        assert(same2(u3_matrix(0, 0, -1), phase(-1))) by (nonlinear_arith);
    }
}

/// The quarter turns that an angle piece of the text carries: `Fixed(a)`
/// carries `a`, `FixedPlusPi(a)` carries `a + pi`.
pub open spec fn carried(p: PieceModel) -> Option<int> {
    match p {
        PieceModel::Fixed(a) => quarter(a),
        PieceModel::FixedPlusPi(a) => match quarter(a) {
            Some(q) => Some(q + 2),
            None => None,
        },
        _ => None,
    }
}

/// The program `rz(a); sx; rz(b); sx; rz(c)`, in time order, as a matrix.
pub open spec fn rz_sx_program(a: int, b: int, c: int) -> Mat2 {
    mul2(phase(c), mul2(sqrt_x(), mul2(phase(b), mul2(sqrt_x(), phase(a)))))
}

/// For quarter turns `theta`, `phi`, `lambda` below four, the program
/// `rz(lambda); sx; rz(theta + pi); sx; rz(phi)` is `U3(theta, phi + pi, lambda)`.
proof fn lemma_rz_sx_cases(t: int, p: int, l: int)
    requires
        0 <= t < 4,
        0 <= p < 4,
        0 <= l < 4,
    ensures
        same2(rz_sx_program(l, t + 2, p), u3_matrix(t, p + 2, l)),
{
    if t == 0 {
        lemma_rz_sx_theta0(p, l);
    } else if t == 1 {
        lemma_rz_sx_theta1(p, l);
    } else if t == 2 {
        lemma_rz_sx_theta2(p, l);
    } else {
        lemma_rz_sx_theta3(p, l);
    }
}


/// The case `theta = 0` quarter turns of `lemma_rz_sx_cases`.
#[verifier::spinoff_prover]
#[verifier::rlimit(100)]
proof fn lemma_rz_sx_theta0(p: int, l: int)
    requires
        0 <= p < 4,
        0 <= l < 4,
    ensures
        same2(rz_sx_program(l, 2int, p), u3_matrix(0int, p + 2, l)),
{
    if p == 0 {
        if l == 0 {
            assert(same2(rz_sx_program(0, 2, 0), u3_matrix(0, 2, 0))) by (nonlinear_arith);
        } else if l == 1 {
            assert(same2(rz_sx_program(1, 2, 0), u3_matrix(0, 2, 1))) by (nonlinear_arith);
        } else if l == 2 {
            assert(same2(rz_sx_program(2, 2, 0), u3_matrix(0, 2, 2))) by (nonlinear_arith);
        } else if l == 3 {
            assert(same2(rz_sx_program(3, 2, 0), u3_matrix(0, 2, 3))) by (nonlinear_arith);
        }
    } else if p == 1 {
        if l == 0 {
            assert(same2(rz_sx_program(0, 2, 1), u3_matrix(0, 3, 0))) by (nonlinear_arith);
        } else if l == 1 {
            assert(same2(rz_sx_program(1, 2, 1), u3_matrix(0, 3, 1))) by (nonlinear_arith);
        } else if l == 2 {
            assert(same2(rz_sx_program(2, 2, 1), u3_matrix(0, 3, 2))) by (nonlinear_arith);
        } else if l == 3 {
            assert(same2(rz_sx_program(3, 2, 1), u3_matrix(0, 3, 3))) by (nonlinear_arith);
        }
    } else if p == 2 {
        if l == 0 {
            assert(same2(rz_sx_program(0, 2, 2), u3_matrix(0, 4, 0))) by (nonlinear_arith);
        } else if l == 1 {
            assert(same2(rz_sx_program(1, 2, 2), u3_matrix(0, 4, 1))) by (nonlinear_arith);
        } else if l == 2 {
            assert(same2(rz_sx_program(2, 2, 2), u3_matrix(0, 4, 2))) by (nonlinear_arith);
        } else if l == 3 {
            assert(same2(rz_sx_program(3, 2, 2), u3_matrix(0, 4, 3))) by (nonlinear_arith);
        }
    } else if p == 3 {
        if l == 0 {
            assert(same2(rz_sx_program(0, 2, 3), u3_matrix(0, 5, 0))) by (nonlinear_arith);
        } else if l == 1 {
            assert(same2(rz_sx_program(1, 2, 3), u3_matrix(0, 5, 1))) by (nonlinear_arith);
        } else if l == 2 {
            assert(same2(rz_sx_program(2, 2, 3), u3_matrix(0, 5, 2))) by (nonlinear_arith);
        } else if l == 3 {
            assert(same2(rz_sx_program(3, 2, 3), u3_matrix(0, 5, 3))) by (nonlinear_arith);
        }
    }
}

/// The case `theta = 1` quarter turns of `lemma_rz_sx_cases`.
#[verifier::spinoff_prover]
#[verifier::rlimit(100)]
proof fn lemma_rz_sx_theta1(p: int, l: int)
    requires
        0 <= p < 4,
        0 <= l < 4,
    ensures
        same2(rz_sx_program(l, 3int, p), u3_matrix(1int, p + 2, l)),
{
    if p == 0 {
        if l == 0 {
            assert(same2(rz_sx_program(0, 3, 0), u3_matrix(1, 2, 0))) by (nonlinear_arith);
        } else if l == 1 {
            assert(same2(rz_sx_program(1, 3, 0), u3_matrix(1, 2, 1))) by (nonlinear_arith);
        } else if l == 2 {
            assert(same2(rz_sx_program(2, 3, 0), u3_matrix(1, 2, 2))) by (nonlinear_arith);
        } else if l == 3 {
            assert(same2(rz_sx_program(3, 3, 0), u3_matrix(1, 2, 3))) by (nonlinear_arith);
        }
    } else if p == 1 {
        if l == 0 {
            assert(same2(rz_sx_program(0, 3, 1), u3_matrix(1, 3, 0))) by (nonlinear_arith);
        } else if l == 1 {
            assert(same2(rz_sx_program(1, 3, 1), u3_matrix(1, 3, 1))) by (nonlinear_arith);
        } else if l == 2 {
            assert(same2(rz_sx_program(2, 3, 1), u3_matrix(1, 3, 2))) by (nonlinear_arith);
        } else if l == 3 {
            assert(same2(rz_sx_program(3, 3, 1), u3_matrix(1, 3, 3))) by (nonlinear_arith);
        }
    } else if p == 2 {
        if l == 0 {
            assert(same2(rz_sx_program(0, 3, 2), u3_matrix(1, 4, 0))) by (nonlinear_arith);
        } else if l == 1 {
            assert(same2(rz_sx_program(1, 3, 2), u3_matrix(1, 4, 1))) by (nonlinear_arith);
        } else if l == 2 {
            assert(same2(rz_sx_program(2, 3, 2), u3_matrix(1, 4, 2))) by (nonlinear_arith);
        } else if l == 3 {
            assert(same2(rz_sx_program(3, 3, 2), u3_matrix(1, 4, 3))) by (nonlinear_arith);
        }
    } else if p == 3 {
        if l == 0 {
            assert(same2(rz_sx_program(0, 3, 3), u3_matrix(1, 5, 0))) by (nonlinear_arith);
        } else if l == 1 {
            assert(same2(rz_sx_program(1, 3, 3), u3_matrix(1, 5, 1))) by (nonlinear_arith);
        } else if l == 2 {
            assert(same2(rz_sx_program(2, 3, 3), u3_matrix(1, 5, 2))) by (nonlinear_arith);
        } else if l == 3 {
            assert(same2(rz_sx_program(3, 3, 3), u3_matrix(1, 5, 3))) by (nonlinear_arith);
        }
    }
}

/// The case `theta = 2` quarter turns of `lemma_rz_sx_cases`.
#[verifier::spinoff_prover]
#[verifier::rlimit(100)]
proof fn lemma_rz_sx_theta2(p: int, l: int)
    requires
        0 <= p < 4,
        0 <= l < 4,
    ensures
        same2(rz_sx_program(l, 4int, p), u3_matrix(2int, p + 2, l)),
{
    if p == 0 {
        if l == 0 {
            assert(same2(rz_sx_program(0, 4, 0), u3_matrix(2, 2, 0))) by (nonlinear_arith);
        } else if l == 1 {
            assert(same2(rz_sx_program(1, 4, 0), u3_matrix(2, 2, 1))) by (nonlinear_arith);
        } else if l == 2 {
            assert(same2(rz_sx_program(2, 4, 0), u3_matrix(2, 2, 2))) by (nonlinear_arith);
        } else if l == 3 {
            assert(same2(rz_sx_program(3, 4, 0), u3_matrix(2, 2, 3))) by (nonlinear_arith);
        }
    } else if p == 1 {
        if l == 0 {
            assert(same2(rz_sx_program(0, 4, 1), u3_matrix(2, 3, 0))) by (nonlinear_arith);
        } else if l == 1 {
            assert(same2(rz_sx_program(1, 4, 1), u3_matrix(2, 3, 1))) by (nonlinear_arith);
        } else if l == 2 {
            assert(same2(rz_sx_program(2, 4, 1), u3_matrix(2, 3, 2))) by (nonlinear_arith);
        } else if l == 3 {
            assert(same2(rz_sx_program(3, 4, 1), u3_matrix(2, 3, 3))) by (nonlinear_arith);
        }
    } else if p == 2 {
        if l == 0 {
            assert(same2(rz_sx_program(0, 4, 2), u3_matrix(2, 4, 0))) by (nonlinear_arith);
        } else if l == 1 {
            assert(same2(rz_sx_program(1, 4, 2), u3_matrix(2, 4, 1))) by (nonlinear_arith);
        } else if l == 2 {
            assert(same2(rz_sx_program(2, 4, 2), u3_matrix(2, 4, 2))) by (nonlinear_arith);
        } else if l == 3 {
            assert(same2(rz_sx_program(3, 4, 2), u3_matrix(2, 4, 3))) by (nonlinear_arith);
        }
    } else if p == 3 {
        if l == 0 {
            assert(same2(rz_sx_program(0, 4, 3), u3_matrix(2, 5, 0))) by (nonlinear_arith);
        } else if l == 1 {
            assert(same2(rz_sx_program(1, 4, 3), u3_matrix(2, 5, 1))) by (nonlinear_arith);
        } else if l == 2 {
            assert(same2(rz_sx_program(2, 4, 3), u3_matrix(2, 5, 2))) by (nonlinear_arith);
        } else if l == 3 {
            assert(same2(rz_sx_program(3, 4, 3), u3_matrix(2, 5, 3))) by (nonlinear_arith);
        }
    }
}

/// The case `theta = 3` quarter turns of `lemma_rz_sx_cases`.
#[verifier::spinoff_prover]
#[verifier::rlimit(100)]
proof fn lemma_rz_sx_theta3(p: int, l: int)
    requires
        0 <= p < 4,
        0 <= l < 4,
    ensures
        same2(rz_sx_program(l, 5int, p), u3_matrix(3int, p + 2, l)),
{
    if p == 0 {
        if l == 0 {
            assert(same2(rz_sx_program(0, 5, 0), u3_matrix(3, 2, 0))) by (nonlinear_arith);
        } else if l == 1 {
            assert(same2(rz_sx_program(1, 5, 0), u3_matrix(3, 2, 1))) by (nonlinear_arith);
        } else if l == 2 {
            assert(same2(rz_sx_program(2, 5, 0), u3_matrix(3, 2, 2))) by (nonlinear_arith);
        } else if l == 3 {
            assert(same2(rz_sx_program(3, 5, 0), u3_matrix(3, 2, 3))) by (nonlinear_arith);
        }
    } else if p == 1 {
        if l == 0 {
            assert(same2(rz_sx_program(0, 5, 1), u3_matrix(3, 3, 0))) by (nonlinear_arith);
        } else if l == 1 {
            assert(same2(rz_sx_program(1, 5, 1), u3_matrix(3, 3, 1))) by (nonlinear_arith);
        } else if l == 2 {
            assert(same2(rz_sx_program(2, 5, 1), u3_matrix(3, 3, 2))) by (nonlinear_arith);
        } else if l == 3 {
            assert(same2(rz_sx_program(3, 5, 1), u3_matrix(3, 3, 3))) by (nonlinear_arith);
        }
    } else if p == 2 {
        if l == 0 {
            assert(same2(rz_sx_program(0, 5, 2), u3_matrix(3, 4, 0))) by (nonlinear_arith);
        } else if l == 1 {
            assert(same2(rz_sx_program(1, 5, 2), u3_matrix(3, 4, 1))) by (nonlinear_arith);
        } else if l == 2 {
            assert(same2(rz_sx_program(2, 5, 2), u3_matrix(3, 4, 2))) by (nonlinear_arith);
        } else if l == 3 {
            assert(same2(rz_sx_program(3, 5, 2), u3_matrix(3, 4, 3))) by (nonlinear_arith);
        }
    } else if p == 3 {
        if l == 0 {
            assert(same2(rz_sx_program(0, 5, 3), u3_matrix(3, 5, 0))) by (nonlinear_arith);
        } else if l == 1 {
            assert(same2(rz_sx_program(1, 5, 3), u3_matrix(3, 5, 1))) by (nonlinear_arith);
        } else if l == 2 {
            assert(same2(rz_sx_program(2, 5, 3), u3_matrix(3, 5, 2))) by (nonlinear_arith);
        } else if l == 3 {
            assert(same2(rz_sx_program(3, 5, 3), u3_matrix(3, 5, 3))) by (nonlinear_arith);
        }
    }
}

/// The phases and matrices depend on quarter turns modulo four only.
proof fn lemma_quarter_mod(t: int, p: int, l: int)
    ensures
        rz_sx_program(l, t + 2, p) == rz_sx_program(l % 4, t % 4 + 2, p % 4),
        u3_matrix(t, p + 2, l) == u3_matrix(t % 4, p % 4 + 2, l % 4),
{
    assert(ipow(l) == ipow(l % 4));
    assert(ipow(p) == ipow(p % 4));
    assert(ipow(t + 2) == ipow(t % 4 + 2));
    assert(ipow(p + 2) == ipow(p % 4 + 2));
    assert((t % 4) % 4 == t % 4);
}

/// The text written for a `U3` gate whose angles are whole quarter turns is
/// the program `rz(lambda); sx; rz(theta + pi); sx; rz(phi)` on its physical
/// qubit, and that program acts as `U3(theta, phi + pi, lambda)`:
/// `U3(theta, phi, lambda)` followed by a Z, as it ends with `rz(phi)`.
#[verifier::spinoff_prover]
#[verifier::rlimit(100)]
pub proof fn lemma_u3_text(u: U3Gate, layout: Seq<u32>, tq: TwoQubitGate)
    requires
        quarter(u.theta) is Some,
        quarter(u.phi) is Some,
        quarter(u.lambda) is Some,
    ensures
        ({
            let ps = gate_qasm(DecomposedGate::U3(u), layout, tq);
            let q = decimal(layout[u.target as int] as nat);
            let between = text(") $"@ + q + ";\nsx $"@ + q + ";\nrz("@);
            &&& ps.len() == 7
            &&& ps[0] == text("rz("@)
            &&& ps[2] == between
            &&& ps[4] == between
            &&& ps[6] == text(") $"@ + q + ";"@)
            &&& carried(ps[1]) matches Some(a) && carried(ps[3]) matches Some(b) && carried(ps[5]) matches Some(c)
                && same2(
                rz_sx_program(a, b, c),
                u3_matrix(quarter(u.theta)->Some_0, quarter(u.phi)->Some_0 + 2, quarter(u.lambda)->Some_0),
            )
        }),
{
    lemma_u3_program(quarter(u.theta)->Some_0, quarter(u.phi)->Some_0, quarter(u.lambda)->Some_0);
}

/// For all quarter turns, `rz(lambda); sx; rz(theta + pi); sx; rz(phi)` is
/// `U3(theta, phi + pi, lambda)`.
#[verifier::spinoff_prover]
proof fn lemma_u3_program(t: int, p: int, l: int)
    ensures
        same2(rz_sx_program(l, t + 2, p), u3_matrix(t, p + 2, l)),
{
    lemma_rz_sx_cases(t % 4, p % 4, l % 4);
    lemma_quarter_mod(t, p, l);
}

/// Entry `(r, c)` of a 4-by-4 matrix.
pub open spec fn at4(m: Mat4, r: int, c: int) -> Gauss {
    let row = if r == 0 {
        m.0
    } else if r == 1 {
        m.1
    } else if r == 2 {
        m.2
    } else {
        m.3
    };
    if c == 0 {
        row.0
    } else if c == 1 {
        row.1
    } else if c == 2 {
        row.2
    } else {
        row.3
    }
}

/// Entry `(r, c)` of the product `a * b`.
pub open spec fn dot4(a: Mat4, b: Mat4, r: int, c: int) -> Gauss {
    cadd(
        cadd(cmul(at4(a, r, 0), at4(b, 0, c)), cmul(at4(a, r, 1), at4(b, 1, c))),
        cadd(cmul(at4(a, r, 2), at4(b, 2, c)), cmul(at4(a, r, 3), at4(b, 3, c))),
    )
}

/// The row `r` of the product `a * b`.
pub open spec fn row4(a: Mat4, b: Mat4, r: int) -> Row4 {
    (dot4(a, b, r, 0), dot4(a, b, r, 1), dot4(a, b, r, 2), dot4(a, b, r, 3))
}

/// The product `a * b` of 4-by-4 matrices: `b` acts first.
pub open spec fn mul4(a: Mat4, b: Mat4) -> Mat4 {
    (row4(a, b, 0), row4(a, b, 1), row4(a, b, 2), row4(a, b, 3))
}

/// Every entry of `a` times `bk` equals the same entry of `b` times `ak`.
pub open spec fn cross4(a: Mat4, b: Mat4, ak: Gauss, bk: Gauss) -> bool {
    forall|r: int, c: int| 0 <= r < 4 && 0 <= c < 4 ==> cmul(#[trigger] at4(a, r, c), bk) == cmul(at4(b, r, c), ak)
}

/// `a` and `b` stand for the same two-qubit gate: `a` is a nonzero multiple
/// of `b` (compared at an entry where both are nonzero).
pub open spec fn same4(a: Mat4, b: Mat4) -> bool {
    exists|r: int, c: int|
        0 <= r < 4 && 0 <= c < 4 && !is_zero(#[trigger] at4(b, r, c)) && !is_zero(at4(a, r, c)) && cross4(
            a,
            b,
            at4(a, r, c),
            at4(b, r, c),
        )
}

/// `u` acting on the first of two qubits (the high bit of the index).
pub open spec fn on_first(u: Mat2) -> Mat4 {
    let z = (0int, 0int);
    ((u.0, z, u.1, z), (z, u.0, z, u.1), (u.2, z, u.3, z), (z, u.2, z, u.3))
}

/// `u` acting on the second of two qubits (the low bit of the index).
pub open spec fn on_second(u: Mat2) -> Mat4 {
    let z = (0int, 0int);
    ((u.0, u.1, z, z), (u.2, u.3, z, z), (z, z, u.0, u.1), (z, z, u.2, u.3))
}

/// The two-qubit identity.
pub open spec fn identity4() -> Mat4 {
    let o = (1int, 0int);
    let z = (0int, 0int);
    ((o, z, z, z), (z, o, z, z), (z, z, o, z), (z, z, z, o))
}

/// CX with the first qubit as control: `|a, b> -> |a, b xor a>`.
pub open spec fn cx_first_second() -> Mat4 {
    let o = (1int, 0int);
    let z = (0int, 0int);
    ((o, z, z, z), (z, o, z, z), (z, z, z, o), (z, z, o, z))
}

/// CX with the second qubit as control: `|a, b> -> |a xor b, b>`.
pub open spec fn cx_second_first() -> Mat4 {
    let o = (1int, 0int);
    let z = (0int, 0int);
    ((o, z, z, z), (z, z, z, o), (z, z, o, z), (z, o, z, z))
}

/// The matrix of a gate on the qubits `c` (first) and `t` (second), when it
/// acts on them only.
pub open spec fn pair_gate(g: DecomposedGate, c: usize, t: usize) -> Option<Mat4> {
    match g {
        DecomposedGate::U3(u) => match gate_matrix(g) {
            Some(m) => if u.target == c {
                Some(on_first(m))
            } else if u.target == t {
                Some(on_second(m))
            } else {
                None
            },
            None => None,
        },
        DecomposedGate::CX(x) => if x.control == c && x.target == t {
            Some(cx_first_second())
        } else if x.control == t && x.target == c {
            Some(cx_second_first())
        } else {
            None
        },
        DecomposedGate::Measure(_) => None,
    }
}

/// The matrix of a list of gates on the qubits `c` and `t`, applied in
/// order, when each acts on them only.
pub open spec fn pair_program(gs: Seq<DecomposedGate>, c: usize, t: usize) -> Option<Mat4>
    decreases gs.len(),
{
    if gs.len() == 0 {
        Some(identity4())
    } else {
        match (pair_program(gs.drop_last(), c, t), pair_gate(gs.last(), c, t)) {
            (Some(m), Some(g)) => Some(mul4(g, m)),
            _ => None,
        }
    }
}

/// Appending a gate to a program multiplies its matrix on the left.
proof fn lemma_pair_program_push(gs: Seq<DecomposedGate>, g: DecomposedGate, c: usize, t: usize)
    ensures
        pair_program(gs.push(g), c, t) == match (pair_program(gs, c, t), pair_gate(g, c, t)) {
            (Some(m), Some(h)) => Some(mul4(h, m)),
            _ => None,
        },
{
    assert(gs.push(g).drop_last() =~= gs);
}


/// Step 1 of the reversed CX, multiplied out.
#[verifier::spinoff_prover]
#[verifier::rlimit(100)]
proof fn lemma_reverse_step1()
    ensures
        mul4(on_first(hadamard()), identity4()) == reverse_partial1(),
{
    assert(mul4(on_first(hadamard()), identity4()) == reverse_partial1()) by (nonlinear_arith);
}

/// The matrix after step 1 of the reversed CX.
spec fn reverse_partial1() -> Mat4 {
    (((1int, 0int), (0int, 0int), (1int, 0int), (0int, 0int)), ((0int, 0int), (1int, 0int), (0int, 0int), (1int, 0int)), ((1int, 0int), (0int, 0int), (-1int, 0int), (0int, 0int)), ((0int, 0int), (1int, 0int), (0int, 0int), (-1int, 0int)))
}

/// Step 2 of the reversed CX, multiplied out.
#[verifier::spinoff_prover]
#[verifier::rlimit(100)]
proof fn lemma_reverse_step2()
    ensures
        mul4(on_second(hadamard()), reverse_partial1()) == reverse_partial2(),
{
    assert(mul4(on_second(hadamard()), reverse_partial1()) == reverse_partial2()) by (nonlinear_arith);
}

/// The matrix after step 2 of the reversed CX.
spec fn reverse_partial2() -> Mat4 {
    (((1int, 0int), (1int, 0int), (1int, 0int), (1int, 0int)), ((1int, 0int), (-1int, 0int), (1int, 0int), (-1int, 0int)), ((1int, 0int), (1int, 0int), (-1int, 0int), (-1int, 0int)), ((1int, 0int), (-1int, 0int), (-1int, 0int), (1int, 0int)))
}

/// Step 3 of the reversed CX, multiplied out.
#[verifier::spinoff_prover]
#[verifier::rlimit(100)]
proof fn lemma_reverse_step3()
    ensures
        mul4(cx_second_first(), reverse_partial2()) == reverse_partial3(),
{
    assert(mul4(cx_second_first(), reverse_partial2()) == reverse_partial3()) by (nonlinear_arith);
}

/// The matrix after step 3 of the reversed CX.
spec fn reverse_partial3() -> Mat4 {
    (((1int, 0int), (1int, 0int), (1int, 0int), (1int, 0int)), ((1int, 0int), (-1int, 0int), (-1int, 0int), (1int, 0int)), ((1int, 0int), (1int, 0int), (-1int, 0int), (-1int, 0int)), ((1int, 0int), (-1int, 0int), (1int, 0int), (-1int, 0int)))
}

/// Step 4 of the reversed CX, multiplied out.
#[verifier::spinoff_prover]
#[verifier::rlimit(100)]
proof fn lemma_reverse_step4()
    ensures
        mul4(on_first(hadamard()), reverse_partial3()) == reverse_partial4(),
{
    assert(mul4(on_first(hadamard()), reverse_partial3()) == reverse_partial4()) by (nonlinear_arith);
}

/// The matrix after step 4 of the reversed CX.
spec fn reverse_partial4() -> Mat4 {
    (((2int, 0int), (2int, 0int), (0int, 0int), (0int, 0int)), ((2int, 0int), (-2int, 0int), (0int, 0int), (0int, 0int)), ((0int, 0int), (0int, 0int), (2int, 0int), (2int, 0int)), ((0int, 0int), (0int, 0int), (-2int, 0int), (2int, 0int)))
}

/// Step 5 of the reversed CX, multiplied out.
#[verifier::spinoff_prover]
#[verifier::rlimit(100)]
proof fn lemma_reverse_step5()
    ensures
        mul4(on_second(hadamard()), reverse_partial4()) == reverse_partial5(),
{
    assert(mul4(on_second(hadamard()), reverse_partial4()) == reverse_partial5()) by (nonlinear_arith);
}

/// The matrix after step 5 of the reversed CX.
spec fn reverse_partial5() -> Mat4 {
    (((4int, 0int), (0int, 0int), (0int, 0int), (0int, 0int)), ((0int, 0int), (4int, 0int), (0int, 0int), (0int, 0int)), ((0int, 0int), (0int, 0int), (0int, 0int), (4int, 0int)), ((0int, 0int), (0int, 0int), (4int, 0int), (0int, 0int)))
}

/// A CX from `c` to `t` turned around a reverse edge, `H(c) H(t) CX(t, c)
/// H(c) H(t)`, is the CX with control `c` and target `t`: applied to the two
/// qubits it is a nonzero multiple of that CX's matrix.
pub proof fn lemma_reverse_cx(c: u32, t: u32)
    requires
        c != t,
    ensures
        pair_program(reverse_cx_spec(c, t), c as usize, t as usize) matches Some(m) && same4(m, cx_first_second()),
{
    let cu = c as usize;
    let tu = t as usize;
    let s = reverse_cx_spec(c, t);
    let hc = s[0];
    let ht = s[1];
    let x = s[2];
    let e = Seq::<DecomposedGate>::empty();
    assert(s =~= e.push(hc).push(ht).push(x).push(hc).push(ht));
    lemma_hadamard_matrix();
    assert(pair_gate(hc, cu, tu) == Some(on_first(hadamard())));
    assert(pair_gate(ht, cu, tu) == Some(on_second(hadamard())));
    assert(pair_gate(x, cu, tu) == Some(cx_second_first()));
    assert(pair_program(e, cu, tu) == Some(identity4()));
    lemma_pair_program_push(e, hc, cu, tu);
    lemma_pair_program_push(e.push(hc), ht, cu, tu);
    lemma_pair_program_push(e.push(hc).push(ht), x, cu, tu);
    lemma_pair_program_push(e.push(hc).push(ht).push(x), hc, cu, tu);
    lemma_pair_program_push(e.push(hc).push(ht).push(x).push(hc), ht, cu, tu);
    lemma_reverse_step1();
    lemma_reverse_step2();
    lemma_reverse_step3();
    lemma_reverse_step4();
    lemma_reverse_step5();
    lemma_reverse_same();
}

/// The Hadamard `U3(pi/2, 0, pi)` has the Hadamard matrix.
proof fn lemma_hadamard_matrix()
    ensures
        u3_matrix(1, 0, 2) == hadamard(),
{
}

/// The last matrix of the reversed CX is four times that of the CX.
#[verifier::spinoff_prover]
proof fn lemma_reverse_same()
    ensures
        same4(reverse_partial5(), cx_first_second()),
{
    let m = reverse_partial5();
    let b = cx_first_second();
    assert forall|r: int, c: int| 0 <= r < 4 && 0 <= c < 4 implies cmul(#[trigger] at4(m, r, c), at4(b, 0, 0)) == cmul(
        at4(b, r, c),
        at4(m, 0, 0),
    ) by {
        assert(r == 0 || r == 1 || r == 2 || r == 3);
        assert(c == 0 || c == 1 || c == 2 || c == 3);
    }
    assert(cross4(m, b, at4(m, 0, 0), at4(b, 0, 0)));
    assert(!is_zero(at4(b, 0, 0)) && !is_zero(at4(m, 0, 0)));
}



/// CZ: `diag(1, 1, 1, -1)`, the sign of `|11>` flipped.
pub open spec fn cz_matrix() -> Mat4 {
    let o = (1int, 0int);
    let z = (0int, 0int);
    ((o, z, z, z), (z, o, z, z), (z, z, o, z), (z, z, z, (-1int, 0int)))
}

/// SWAP: the two qubits exchanged, `|a, b> -> |b, a>`.
pub open spec fn swap_matrix() -> Mat4 {
    let o = (1int, 0int);
    let z = (0int, 0int);
    ((o, z, z, z), (z, z, o, z), (z, o, z, z), (z, z, z, o))
}

/// The matrix after step 1 of `cz`.
spec fn cz_partial1() -> Mat4 {
    (((1int, 0int), (1int, 0int), (0int, 0int), (0int, 0int)), ((1int, 0int), (-1int, 0int), (0int, 0int), (0int, 0int)), ((0int, 0int), (0int, 0int), (1int, 0int), (1int, 0int)), ((0int, 0int), (0int, 0int), (1int, 0int), (-1int, 0int)))
}

/// Step 1 of `cz`, multiplied out.
#[verifier::spinoff_prover]
#[verifier::rlimit(100)]
proof fn lemma_cz_step1()
    ensures
        mul4(on_second(hadamard()), identity4()) == cz_partial1(),
{
    assert(mul4(on_second(hadamard()), identity4()) == cz_partial1()) by (nonlinear_arith);
}

/// The matrix after step 2 of `cz`.
spec fn cz_partial2() -> Mat4 {
    (((1int, 0int), (1int, 0int), (0int, 0int), (0int, 0int)), ((1int, 0int), (-1int, 0int), (0int, 0int), (0int, 0int)), ((0int, 0int), (0int, 0int), (1int, 0int), (-1int, 0int)), ((0int, 0int), (0int, 0int), (1int, 0int), (1int, 0int)))
}

/// Step 2 of `cz`, multiplied out.
#[verifier::spinoff_prover]
#[verifier::rlimit(100)]
proof fn lemma_cz_step2()
    ensures
        mul4(cx_first_second(), cz_partial1()) == cz_partial2(),
{
    assert(mul4(cx_first_second(), cz_partial1()) == cz_partial2()) by (nonlinear_arith);
}

/// The matrix after step 3 of `cz`.
spec fn cz_partial3() -> Mat4 {
    (((2int, 0int), (0int, 0int), (0int, 0int), (0int, 0int)), ((0int, 0int), (2int, 0int), (0int, 0int), (0int, 0int)), ((0int, 0int), (0int, 0int), (2int, 0int), (0int, 0int)), ((0int, 0int), (0int, 0int), (0int, 0int), (-2int, 0int)))
}

/// Step 3 of `cz`, multiplied out.
#[verifier::spinoff_prover]
#[verifier::rlimit(100)]
proof fn lemma_cz_step3()
    ensures
        mul4(on_second(hadamard()), cz_partial2()) == cz_partial3(),
{
    assert(mul4(on_second(hadamard()), cz_partial2()) == cz_partial3()) by (nonlinear_arith);
}

/// The last matrix of `cz` is a nonzero multiple of the expected one.
#[verifier::spinoff_prover]
proof fn lemma_cz_same()
    ensures
        same4(cz_partial3(), cz_matrix()),
{
    let m = cz_partial3();
    let b = cz_matrix();
    assert forall|r: int, c: int| 0 <= r < 4 && 0 <= c < 4 implies cmul(#[trigger] at4(m, r, c), at4(b, 0, 0)) == cmul(
        at4(b, r, c),
        at4(m, 0, 0),
    ) by {
        assert(r == 0 || r == 1 || r == 2 || r == 3);
        assert(c == 0 || c == 1 || c == 2 || c == 3);
    }
    assert(cross4(m, b, at4(m, 0, 0), at4(b, 0, 0)));
    assert(!is_zero(at4(b, 0, 0)) && !is_zero(at4(m, 0, 0)));
}

/// CZ decomposes into gates that are CZ on its two qubits.
pub proof fn lemma_cz(c: usize, t: usize)
    requires
        c != t,
    ensures
        pair_program(decompose_op(Op::CZ { control: c, target: t }), c, t) matches Some(m) && same4(m, cz_matrix()),
{
    let s = decompose_op(Op::CZ { control: c, target: t });
    let e = Seq::<DecomposedGate>::empty();
    let g0 = s[0];
    let g1 = s[1];
    let g2 = s[2];
    assert(s =~= e.push(g0).push(g1).push(g2));
    lemma_hadamard_matrix();
    assert(pair_gate(g0, c, t) == Some(on_second(hadamard())));
    assert(pair_gate(g1, c, t) == Some(cx_first_second()));
    assert(pair_gate(g2, c, t) == Some(on_second(hadamard())));
    assert(pair_program(e, c, t) == Some(identity4()));
    lemma_pair_program_push(e, g0, c, t);
    lemma_pair_program_push(e.push(g0), g1, c, t);
    lemma_pair_program_push(e.push(g0).push(g1), g2, c, t);
    lemma_cz_step1();
    lemma_cz_step2();
    lemma_cz_step3();
    lemma_cz_same();
}

/// The matrix after step 1 of `swap`.
spec fn swap_partial1() -> Mat4 {
    (((1int, 0int), (0int, 0int), (0int, 0int), (0int, 0int)), ((0int, 0int), (1int, 0int), (0int, 0int), (0int, 0int)), ((0int, 0int), (0int, 0int), (0int, 0int), (1int, 0int)), ((0int, 0int), (0int, 0int), (1int, 0int), (0int, 0int)))
}

/// Step 1 of `swap`, multiplied out.
#[verifier::spinoff_prover]
#[verifier::rlimit(100)]
proof fn lemma_swap_step1()
    ensures
        mul4(cx_first_second(), identity4()) == swap_partial1(),
{
    assert(mul4(cx_first_second(), identity4()) == swap_partial1()) by (nonlinear_arith);
}

/// The matrix after step 2 of `swap`.
spec fn swap_partial2() -> Mat4 {
    (((1int, 0int), (0int, 0int), (0int, 0int), (0int, 0int)), ((0int, 0int), (0int, 0int), (1int, 0int), (0int, 0int)), ((0int, 0int), (0int, 0int), (0int, 0int), (1int, 0int)), ((0int, 0int), (1int, 0int), (0int, 0int), (0int, 0int)))
}

/// Step 2 of `swap`, multiplied out.
#[verifier::spinoff_prover]
#[verifier::rlimit(100)]
proof fn lemma_swap_step2()
    ensures
        mul4(cx_second_first(), swap_partial1()) == swap_partial2(),
{
    assert(mul4(cx_second_first(), swap_partial1()) == swap_partial2()) by (nonlinear_arith);
}

/// The matrix after step 3 of `swap`.
spec fn swap_partial3() -> Mat4 {
    (((1int, 0int), (0int, 0int), (0int, 0int), (0int, 0int)), ((0int, 0int), (0int, 0int), (1int, 0int), (0int, 0int)), ((0int, 0int), (1int, 0int), (0int, 0int), (0int, 0int)), ((0int, 0int), (0int, 0int), (0int, 0int), (1int, 0int)))
}

/// Step 3 of `swap`, multiplied out.
#[verifier::spinoff_prover]
#[verifier::rlimit(100)]
proof fn lemma_swap_step3()
    ensures
        mul4(cx_first_second(), swap_partial2()) == swap_partial3(),
{
    assert(mul4(cx_first_second(), swap_partial2()) == swap_partial3()) by (nonlinear_arith);
}

/// The last matrix of `swap` is a nonzero multiple of the expected one.
#[verifier::spinoff_prover]
proof fn lemma_swap_same()
    ensures
        same4(swap_partial3(), swap_matrix()),
{
    let m = swap_partial3();
    let b = swap_matrix();
    assert forall|r: int, c: int| 0 <= r < 4 && 0 <= c < 4 implies cmul(#[trigger] at4(m, r, c), at4(b, 0, 0)) == cmul(
        at4(b, r, c),
        at4(m, 0, 0),
    ) by {
        assert(r == 0 || r == 1 || r == 2 || r == 3);
        assert(c == 0 || c == 1 || c == 2 || c == 3);
    }
    assert(cross4(m, b, at4(m, 0, 0), at4(b, 0, 0)));
    assert(!is_zero(at4(b, 0, 0)) && !is_zero(at4(m, 0, 0)));
}

/// SWAP decomposes into gates that exchange its two qubits.
pub proof fn lemma_swap(c: usize, t: usize)
    requires
        c != t,
    ensures
        pair_program(decompose_op(Op::Swap { qbit1: c, qbit2: t }), c, t) matches Some(m) && same4(m, swap_matrix()),
{
    let s = decompose_op(Op::Swap { qbit1: c, qbit2: t });
    let e = Seq::<DecomposedGate>::empty();
    let g0 = s[0];
    let g1 = s[1];
    let g2 = s[2];
    assert(s =~= e.push(g0).push(g1).push(g2));
    lemma_hadamard_matrix();
    assert(pair_gate(g0, c, t) == Some(cx_first_second()));
    assert(pair_gate(g1, c, t) == Some(cx_second_first()));
    assert(pair_gate(g2, c, t) == Some(cx_first_second()));
    assert(pair_program(e, c, t) == Some(identity4()));
    lemma_pair_program_push(e, g0, c, t);
    lemma_pair_program_push(e.push(g0), g1, c, t);
    lemma_pair_program_push(e.push(g0).push(g1), g2, c, t);
    lemma_swap_step1();
    lemma_swap_step2();
    lemma_swap_step3();
    lemma_swap_same();
}

/// The matrix after step 1 of `controlled_x`.
spec fn controlled_x_partial1() -> Mat4 {
    (((1int, 0int), (0int, 0int), (0int, 0int), (0int, 0int)), ((0int, 0int), (1int, 0int), (0int, 0int), (0int, 0int)), ((0int, 0int), (0int, 0int), (0int, 0int), (1int, 0int)), ((0int, 0int), (0int, 0int), (1int, 0int), (0int, 0int)))
}

/// Step 1 of `controlled_x`, multiplied out.
#[verifier::spinoff_prover]
#[verifier::rlimit(100)]
proof fn lemma_controlled_x_step1()
    ensures
        mul4(cx_first_second(), identity4()) == controlled_x_partial1(),
{
    assert(mul4(cx_first_second(), identity4()) == controlled_x_partial1()) by (nonlinear_arith);
}

/// The last matrix of `controlled_x` is a nonzero multiple of the expected one.
#[verifier::spinoff_prover]
proof fn lemma_controlled_x_same()
    ensures
        same4(controlled_x_partial1(), cx_first_second()),
{
    let m = controlled_x_partial1();
    let b = cx_first_second();
    assert forall|r: int, c: int| 0 <= r < 4 && 0 <= c < 4 implies cmul(#[trigger] at4(m, r, c), at4(b, 0, 0)) == cmul(
        at4(b, r, c),
        at4(m, 0, 0),
    ) by {
        assert(r == 0 || r == 1 || r == 2 || r == 3);
        assert(c == 0 || c == 1 || c == 2 || c == 3);
    }
    assert(cross4(m, b, at4(m, 0, 0), at4(b, 0, 0)));
    assert(!is_zero(at4(b, 0, 0)) && !is_zero(at4(m, 0, 0)));
}

/// X controlled by one qubit decomposes into the CX from that qubit.
pub proof fn lemma_controlled_x(c: usize, t: usize, q: usize)
    requires
        c != t,
    ensures
        pair_program(decompose_op(Op::Controlled { controls: seq![c], target: t, gate: Box::new(Op::X(q)) }), c, t) matches Some(m) && same4(m, cx_first_second()),
{
    let s = decompose_op(Op::Controlled { controls: seq![c], target: t, gate: Box::new(Op::X(q)) });
    let e = Seq::<DecomposedGate>::empty();
    let g0 = s[0];
    assert(s =~= e.push(g0));
    lemma_hadamard_matrix();
    assert(pair_gate(g0, c, t) == Some(cx_first_second()));
    assert(pair_program(e, c, t) == Some(identity4()));
    lemma_pair_program_push(e, g0, c, t);
    lemma_controlled_x_step1();
    lemma_controlled_x_same();
}

/// The matrix after step 1 of `controlled_z`.
spec fn controlled_z_partial1() -> Mat4 {
    (((1int, 0int), (1int, 0int), (0int, 0int), (0int, 0int)), ((1int, 0int), (-1int, 0int), (0int, 0int), (0int, 0int)), ((0int, 0int), (0int, 0int), (1int, 0int), (1int, 0int)), ((0int, 0int), (0int, 0int), (1int, 0int), (-1int, 0int)))
}

/// Step 1 of `controlled_z`, multiplied out.
#[verifier::spinoff_prover]
#[verifier::rlimit(100)]
proof fn lemma_controlled_z_step1()
    ensures
        mul4(on_second(hadamard()), identity4()) == controlled_z_partial1(),
{
    assert(mul4(on_second(hadamard()), identity4()) == controlled_z_partial1()) by (nonlinear_arith);
}

/// The matrix after step 2 of `controlled_z`.
spec fn controlled_z_partial2() -> Mat4 {
    (((1int, 0int), (1int, 0int), (0int, 0int), (0int, 0int)), ((1int, 0int), (-1int, 0int), (0int, 0int), (0int, 0int)), ((0int, 0int), (0int, 0int), (1int, 0int), (-1int, 0int)), ((0int, 0int), (0int, 0int), (1int, 0int), (1int, 0int)))
}

/// Step 2 of `controlled_z`, multiplied out.
#[verifier::spinoff_prover]
#[verifier::rlimit(100)]
proof fn lemma_controlled_z_step2()
    ensures
        mul4(cx_first_second(), controlled_z_partial1()) == controlled_z_partial2(),
{
    assert(mul4(cx_first_second(), controlled_z_partial1()) == controlled_z_partial2()) by (nonlinear_arith);
}

/// The matrix after step 3 of `controlled_z`.
spec fn controlled_z_partial3() -> Mat4 {
    (((2int, 0int), (0int, 0int), (0int, 0int), (0int, 0int)), ((0int, 0int), (2int, 0int), (0int, 0int), (0int, 0int)), ((0int, 0int), (0int, 0int), (2int, 0int), (0int, 0int)), ((0int, 0int), (0int, 0int), (0int, 0int), (-2int, 0int)))
}

/// Step 3 of `controlled_z`, multiplied out.
#[verifier::spinoff_prover]
#[verifier::rlimit(100)]
proof fn lemma_controlled_z_step3()
    ensures
        mul4(on_second(hadamard()), controlled_z_partial2()) == controlled_z_partial3(),
{
    assert(mul4(on_second(hadamard()), controlled_z_partial2()) == controlled_z_partial3()) by (nonlinear_arith);
}

/// The last matrix of `controlled_z` is a nonzero multiple of the expected one.
#[verifier::spinoff_prover]
proof fn lemma_controlled_z_same()
    ensures
        same4(controlled_z_partial3(), cz_matrix()),
{
    let m = controlled_z_partial3();
    let b = cz_matrix();
    assert forall|r: int, c: int| 0 <= r < 4 && 0 <= c < 4 implies cmul(#[trigger] at4(m, r, c), at4(b, 0, 0)) == cmul(
        at4(b, r, c),
        at4(m, 0, 0),
    ) by {
        assert(r == 0 || r == 1 || r == 2 || r == 3);
        assert(c == 0 || c == 1 || c == 2 || c == 3);
    }
    assert(cross4(m, b, at4(m, 0, 0), at4(b, 0, 0)));
    assert(!is_zero(at4(b, 0, 0)) && !is_zero(at4(m, 0, 0)));
}

/// Z controlled by one qubit decomposes into gates that are CZ on the two
/// qubits.
pub proof fn lemma_controlled_z(c: usize, t: usize, q: usize)
    requires
        c != t,
    ensures
        pair_program(decompose_op(Op::Controlled { controls: seq![c], target: t, gate: Box::new(Op::Z(q)) }), c, t) matches Some(m) && same4(m, cz_matrix()),
{
    let s = decompose_op(Op::Controlled { controls: seq![c], target: t, gate: Box::new(Op::Z(q)) });
    let e = Seq::<DecomposedGate>::empty();
    let g0 = s[0];
    let g1 = s[1];
    let g2 = s[2];
    assert(s =~= e.push(g0).push(g1).push(g2));
    lemma_hadamard_matrix();
    assert(pair_gate(g0, c, t) == Some(on_second(hadamard())));
    assert(pair_gate(g1, c, t) == Some(cx_first_second()));
    assert(pair_gate(g2, c, t) == Some(on_second(hadamard())));
    assert(pair_program(e, c, t) == Some(identity4()));
    lemma_pair_program_push(e, g0, c, t);
    lemma_pair_program_push(e.push(g0), g1, c, t);
    lemma_pair_program_push(e.push(g0).push(g1), g2, c, t);
    lemma_controlled_z_step1();
    lemma_controlled_z_step2();
    lemma_controlled_z_step3();
    lemma_controlled_z_same();
}

} // verus!
